//! The parts of a tokenizer around its vocabulary, as they are written in JSON: which normalizers
//! and pre-tokenizers can run on every text, and which post-processors can run on one text alone.

use vstd::prelude::*;

use crate::charsmap;
use crate::json::{self, Json, JsonView};
use crate::pattern;
use crate::text::{chars_of, str_is};

verus! {

/// A part is written with this type.
pub open spec fn is_kind(v: JsonView, kind: Seq<char>) -> bool {
    v.get_str("type"@) == Some(kind)
}

proof fn lemma_key_in_range(m: Seq<(Seq<char>, JsonView)>, k: Seq<char>, i: int)
    requires
        0 <= i,
    ensures
        json::key_from(m, k, i) matches Some(j) ==> 0 <= j < m.len(),
    decreases m.len() - i,
{
    if i < m.len() && m[i].0 != k {
        lemma_key_in_range(m, k, i + 1);
    }
}

/// What stands in an array of an object is smaller than the object, and so is the array.
pub proof fn lemma_parts_are_smaller(v: JsonView, k: Seq<char>)
    ensures
        v.get_array(k).len() > 0 ==> decreases_to!(v => v.get_array(k)),
        forall|i: int|
            0 <= i < v.get_array(k).len() ==> decreases_to!(v => #[trigger] v.get_array(k)[i]),
{
    if v.get_array(k).len() > 0 {
        let m = v->Obj_0;
        lemma_key_in_range(m, k, 0);
        let j = json::key_from(m, k, 0)->0;
        assert(decreases_to!(v => m));
        assert(decreases_to!(m => m[j]));
        assert(decreases_to!(m[j] => m[j].1));
        let w = m[j].1;
        assert(decreases_to!(w => w->Arr_0));
        let a = w->Arr_0;
        assert(a == v.get_array(k));
        assert forall|i: int| 0 <= i < a.len() implies decreases_to!(v => #[trigger] a[i]) by {
            assert(decreases_to!(a => a[i]));
        }
    }
}

/// What is to be replaced is never an empty text.
pub open spec fn finds_text(p: JsonView) -> bool {
    match p.get_str("String"@) {
        Some(s) => s.len() > 0,
        None => match p.get_str("Regex"@) {
            Some(s) => pattern::takes_text(s),
            None => false,
        },
    }
}

/// What is to be found begins where it is found.
pub open spec fn finds_in_place(p: JsonView) -> bool {
    p.get_str("Regex"@) matches Some(s) ==> pattern::keeps_start(s, 0)
}

/// A replacement puts nothing before the first character of a text: it puts in nothing at all, or
/// only in place of something.
pub open spec fn replaces(v: JsonView) -> bool {
    match (v.get_str("content"@), v.get("pattern"@)) {
        (Some(c), Some(p)) => finds_in_place(p) && (c.len() == 0 || finds_text(p)),
        _ => false,
    }
}

/// A map of characters that every text can be looked up in.
pub open spec fn maps(v: JsonView) -> bool {
    match v.get_str("precompiled_charsmap"@) {
        Some(s) => charsmap::unpacked(s) matches Some(b) && charsmap::map_holds(b),
        None => false,
    }
}

/// A normalizer can run on every text: its maps of characters are sound, it puts something in
/// front only if there is something to put, and its replacements put nothing before the first
/// character of a text.
pub open spec fn normalizes(v: JsonView) -> bool
    decreases v,
{
    proof {
        lemma_parts_are_smaller(v, "normalizers"@);
    }
    if is_kind(v, "Sequence"@) {
        forall|i: int|
            0 <= i < v.get_array("normalizers"@).len() ==> normalizes(
                #[trigger] v.get_array("normalizers"@)[i],
            )
    } else if is_kind(v, "Precompiled"@) {
        maps(v)
    } else if is_kind(v, "Prepend"@) {
        v.get_str("prepend"@) matches Some(s) && s.len() > 0
    } else if is_kind(v, "Replace"@) {
        replaces(v)
    } else {
        true
    }
}

/// A pre-tokenizer can split every text: nowhere in it is a text to be split into pieces of
/// length zero, or at something that does not begin where it is found.
pub open spec fn splits(v: JsonView) -> bool
    decreases v,
{
    proof {
        lemma_parts_are_smaller(v, "pretokenizers"@);
    }
    if is_kind(v, "Sequence"@) {
        forall|i: int|
            0 <= i < v.get_array("pretokenizers"@).len() ==> splits(
                #[trigger] v.get_array("pretokenizers"@)[i],
            )
    } else if is_kind(v, "FixedLength"@) {
        !(v.get_num("length"@) matches Some((t, _)) && t == "0"@)
    } else if is_kind(v, "Split"@) {
        v.get("pattern"@) matches Some(p) && finds_in_place(p)
    } else {
        true
    }
}

/// A piece of a template for one text can be filled: it stands for that text, or it is a special
/// token that, where special tokens are added, the template explains.
pub open spec fn piece_fits(piece: JsonView, tokens: JsonView, special: bool) -> bool {
    match piece.get("Sequence"@) {
        Some(s) => s.get_str("id"@) == Some("A"@),
        None => match piece.get("SpecialToken"@) {
            Some(t) => match t.get_str("id"@) {
                Some(id) => special ==> tokens.get(id) is Some,
                None => false,
            },
            None => false,
        },
    }
}

/// A template can be filled with one text.
pub open spec fn template_fits(v: JsonView, special: bool) -> bool {
    match v.get("special_tokens"@) {
        Some(tokens) => forall|i: int|
            0 <= i < v.get_array("single"@).len() ==> piece_fits(
                #[trigger] v.get_array("single"@)[i],
                tokens,
                special,
            ),
        None => false,
    }
}

/// Every template in a post-processor can be filled with one text.
pub open spec fn templates_fit(v: JsonView, special: bool) -> bool
    decreases v,
{
    proof {
        lemma_parts_are_smaller(v, "processors"@);
    }
    if is_kind(v, "Sequence"@) {
        forall|i: int|
            0 <= i < v.get_array("processors"@).len() ==> templates_fit(
                #[trigger] v.get_array("processors"@)[i],
                special,
            )
    } else if is_kind(v, "TemplateProcessing"@) {
        template_fits(v, special)
    } else {
        true
    }
}

/// How many templates a post-processor holds.
pub open spec fn templates(v: JsonView) -> nat
    decreases v, 0nat,
{
    proof {
        lemma_parts_are_smaller(v, "processors"@);
    }
    if is_kind(v, "Sequence"@) {
        if v.get_array("processors"@).len() > 0 {
            templates_in(v.get_array("processors"@), v.get_array("processors"@).len())
        } else {
            0
        }
    } else if is_kind(v, "TemplateProcessing"@) {
        1
    } else {
        0
    }
}

/// How many templates the first `n` post-processors hold.
pub open spec fn templates_in(a: Seq<JsonView>, n: nat) -> nat
    decreases a, n,
{
    if n == 0 || n > a.len() {
        0
    } else {
        templates_in(a, (n - 1) as nat) + templates(a[n - 1])
    }
}

/// A post-processor can run on one text: its templates can be filled, and there is at most one,
/// since a template takes apart what a second one would have to fill in.
pub open spec fn processes(v: JsonView, special: bool) -> bool {
    templates_fit(v, special) && templates(v) <= 1
}

fn has_kind(v: &Json, kind: &str) -> (b: bool)
    ensures
        b == is_kind(v@, kind@),
{
    match v.get_str("type") {
        Some(s) => str_is(s.as_str(), kind),
        None => false,
    }
}

fn can_find(p: &Json) -> (b: bool)
    ensures
        b == finds_text(p@),
{
    match p.get_str("String") {
        Some(s) => has_text(s),
        None => match p.get_str("Regex") {
            Some(s) => pattern::never_empty(s.as_str()),
            None => false,
        },
    }
}

fn has_text(s: &String) -> (b: bool)
    ensures
        b == (s@.len() > 0),
{
    chars_of(s.as_str()).len() > 0
}

fn can_replace(v: &Json) -> (b: bool)
    ensures
        b == replaces(v@),
{
    match v.get_str("content") {
        Some(c) => match v.get("pattern") {
            Some(p) => stays_in_place(p) && (!has_text(c) || can_find(p)),
            None => false,
        },
        None => false,
    }
}

fn stays_in_place(p: &Json) -> (b: bool)
    ensures
        b == finds_in_place(p@),
{
    match p.get_str("Regex") {
        Some(s) => pattern::never_moves(s.as_str()),
        None => true,
    }
}

fn can_map(v: &Json) -> (b: bool)
    ensures
        b == maps(v@),
{
    match v.get_str("precompiled_charsmap") {
        Some(s) => match charsmap::unpack(s.as_str()) {
            Some(m) => charsmap::check_map(&m),
            None => false,
        },
        None => false,
    }
}

/// Whether a normalizer can run on every text.
pub fn can_normalize(v: &Json) -> (b: bool)
    ensures
        b == normalizes(v@),
    decreases v@,
{
    if has_kind(v, "Sequence") {
        let a = match v.get_array("normalizers") {
            Some(a) => a,
            None => return true,
        };
        let ghost av = v@.get_array("normalizers"@);
        let mut i: usize = 0;
        while i < a.len()
            invariant
                i <= a@.len(),
                is_kind(v@, "Sequence"@),
                av == v@.get_array("normalizers"@),
                av == json::json_views(a@),
                forall|j: int| 0 <= j < i ==> normalizes(#[trigger] av[j]),
            decreases a@.len() - i,
        {
            proof {
                lemma_parts_are_smaller(v@, "normalizers"@);
                assert(av[i as int] == a@[i as int]@);
            }
            if !can_normalize(&a[i]) {
                return false;
            }
            i = i + 1;
        }
        true
    } else if has_kind(v, "Precompiled") {
        can_map(v)
    } else if has_kind(v, "Prepend") {
        match v.get_str("prepend") {
            Some(s) => has_text(s),
            None => false,
        }
    } else if has_kind(v, "Replace") {
        can_replace(v)
    } else {
        true
    }
}

/// Whether a pre-tokenizer can split every text.
pub fn can_split(v: &Json) -> (b: bool)
    ensures
        b == splits(v@),
    decreases v@,
{
    if has_kind(v, "Sequence") {
        let a = match v.get_array("pretokenizers") {
            Some(a) => a,
            None => return true,
        };
        let ghost av = v@.get_array("pretokenizers"@);
        let mut i: usize = 0;
        while i < a.len()
            invariant
                i <= a@.len(),
                is_kind(v@, "Sequence"@),
                av == v@.get_array("pretokenizers"@),
                av == json::json_views(a@),
                forall|j: int| 0 <= j < i ==> splits(#[trigger] av[j]),
            decreases a@.len() - i,
        {
            proof {
                lemma_parts_are_smaller(v@, "pretokenizers"@);
                assert(av[i as int] == a@[i as int]@);
            }
            if !can_split(&a[i]) {
                return false;
            }
            i = i + 1;
        }
        true
    } else if has_kind(v, "FixedLength") {
        match v.get_num("length") {
            Some(n) => !str_is(n.text.as_str(), "0"),
            None => true,
        }
    } else if has_kind(v, "Split") {
        match v.get("pattern") {
            Some(p) => stays_in_place(p),
            None => false,
        }
    } else {
        true
    }
}

fn fits_piece(piece: &Json, tokens: &Json, special: bool) -> (b: bool)
    ensures
        b == piece_fits(piece@, tokens@, special),
{
    match piece.get("Sequence") {
        Some(s) => match s.get_str("id") {
            Some(id) => str_is(id.as_str(), "A"),
            None => false,
        },
        None => match piece.get("SpecialToken") {
            Some(t) => match t.get_str("id") {
                Some(id) => !special || tokens.get(id.as_str()).is_some(),
                None => false,
            },
            None => false,
        },
    }
}

fn fits_template(v: &Json, special: bool) -> (b: bool)
    ensures
        b == template_fits(v@, special),
{
    let tokens = match v.get("special_tokens") {
        Some(t) => t,
        None => return false,
    };
    let a = match v.get_array("single") {
        Some(a) => a,
        None => return true,
    };
    let ghost av = v@.get_array("single"@);
    let mut i: usize = 0;
    while i < a.len()
        invariant
            i <= a@.len(),
            v@.get("special_tokens"@) == Some(tokens@),
            av == v@.get_array("single"@),
            av == json::json_views(a@),
            forall|j: int| 0 <= j < i ==> piece_fits(#[trigger] av[j], tokens@, special),
        decreases a@.len() - i,
    {
        proof {
            assert(av[i as int] == a@[i as int]@);
        }
        if !fits_piece(&a[i], tokens, special) {
            return false;
        }
        i = i + 1;
    }
    true
}

/// Whether every template in a post-processor can be filled, and how many there are, but not
/// above two.
fn survey(v: &Json, special: bool) -> (r: (bool, u8))
    ensures
        r.0 == templates_fit(v@, special),
        r.1 == if templates(v@) <= 2 {
            templates(v@)
        } else {
            2
        },
    decreases v@,
{
    if has_kind(v, "Sequence") {
        let a = match v.get_array("processors") {
            Some(a) => a,
            None => return (true, 0),
        };
        let ghost av = v@.get_array("processors"@);
        let mut fit: bool = true;
        let mut n: u8 = 0;
        let mut i: usize = 0;
        while i < a.len()
            invariant
                i <= a@.len(),
                is_kind(v@, "Sequence"@),
                av == v@.get_array("processors"@),
                av == json::json_views(a@),
                fit == (forall|j: int| 0 <= j < i ==> templates_fit(#[trigger] av[j], special)),
                n == if templates_in(av, i as nat) <= 2 {
                    templates_in(av, i as nat)
                } else {
                    2
                },
            decreases a@.len() - i,
        {
            proof {
                lemma_parts_are_smaller(v@, "processors"@);
                assert(av[i as int] == a@[i as int]@);
            }
            let (f, k) = survey(&a[i], special);
            fit = fit && f;
            n = if n + k > 2 {
                2
            } else {
                n + k
            };
            i = i + 1;
        }
        (fit, n)
    } else if has_kind(v, "TemplateProcessing") {
        (fits_template(v, special), 1)
    } else {
        (true, 0)
    }
}

/// Whether a post-processor can run on one text.
pub fn can_process(v: &Json, special: bool) -> (b: bool)
    ensures
        b == processes(v@, special),
{
    let (fit, n) = survey(v, special);
    fit && n <= 1
}

} // verus!
