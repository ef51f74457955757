//! JSON values: reading them from text, looking inside, and finding an object
//! in a model's reply.

use vstd::prelude::*;
use vstd::slice::slice_subrange;

use crate::text;
use crate::text::{chars_of, find_char, str_is, string_of, trim_of};

verus! {

/// A JSON number, as it is written.
#[derive(Debug)]
pub struct Number {
    /// The number's text.
    pub text: String,
}

/// Ten to a power.
pub open spec fn ten_to(k: nat) -> nat
    decreases k,
{
    if k == 0 {
        1
    } else {
        10 * ten_to((k - 1) as nat)
    }
}

/// The longest time, in billionths of a second: its seconds fit in 64 bits.
pub const LONGEST_NANOS: u128 = 18_446_744_073_709_551_615_999_999_999;

/// `m` times ten to the `k`, rounded half up; none if it is longer than the longest time.
pub open spec fn scaled(m: nat, k: int) -> Option<int> {
    let n = if k >= 0 {
        (m * ten_to(k as nat)) as int
    } else {
        (2 * m + ten_to((-k) as nat)) as int / (2 * ten_to((-k) as nat)) as int
    };
    if n <= LONGEST_NANOS {
        Some(n)
    } else {
        None
    }
}

/// The part of a text before a character, and the part behind it; all of it and nothing when the
/// character is not there.
pub open spec fn parted(s: Seq<char>, c: char) -> (Seq<char>, Option<Seq<char>>) {
    match text::first_index(s, c) {
        Some(i) => (s.take(i), Some(s.skip(i + 1))),
        None => (s, None),
    }
}

/// What a number without a sign is in billionths, rounded half up: digits, perhaps with a point
/// among them, and perhaps a power of ten behind an `e`. None for a number that is too long to
/// write as a time, or that has more than thirty digits or a power beyond a million.
#[verifier::opaque]
pub open spec fn plain_nanos(s: Seq<char>) -> Option<int> {
    let (m, e) = parted(s, 'e');
    let (a, b) = parted(m, '.');
    let tail = match b {
        Some(t) => t,
        None => Seq::empty(),
    };
    let x = match e {
        Some(t) => text::int_value(t),
        None => Some(0),
    };
    let digits = a + tail;
    if 0 < digits.len() <= 30 && text::all_digits(digits) && x is Some && -1_000_000 <= x->0
        <= 1_000_000 {
        scaled(text::digits_value(digits), x->0 - tail.len() + 9)
    } else {
        None
    }
}

/// What the absolute value of a number is in billionths.
pub open spec fn nanos_of(t: Seq<char>) -> Option<int> {
    plain_nanos(
        if negative(t) {
            t.drop_first()
        } else {
            t
        },
    )
}

/// A JSON value.
#[derive(Debug)]
pub enum Json {
    /// `null`.
    Null,
    /// A truth value.
    Bool(bool),
    /// A number.
    Num(Number),
    /// A string.
    Str(String),
    /// An array.
    Arr(Vec<Json>),
    /// An object: its keys with their values.
    Obj(Vec<(String, Json)>),
}

/// A JSON value as mathematics.
pub enum JsonView {
    /// `null`.
    Null,
    /// A truth value.
    Bool(bool),
    /// A number: its text, and what it is in billionths.
    Num(Seq<char>, Option<int>),
    /// A string.
    Str(Seq<char>),
    /// An array.
    Arr(Seq<JsonView>),
    /// An object.
    Obj(Seq<(Seq<char>, JsonView)>),
}

/// The mathematical value of a JSON value.
pub open spec fn json_view(j: Json) -> JsonView
    decreases j,
{
    match j {
        Json::Null => JsonView::Null,
        Json::Bool(b) => JsonView::Bool(b),
        Json::Num(n) => JsonView::Num(n.text@, nanos_of(n.text@)),
        Json::Str(s) => JsonView::Str(s@),
        Json::Arr(a) => JsonView::Arr(
            Seq::new(
                a@.len(),
                |i: int|
                    if 0 <= i < a@.len() {
                        json_view(a@[i])
                    } else {
                        JsonView::Null
                    },
            ),
        ),
        Json::Obj(m) => JsonView::Obj(
            Seq::new(
                m@.len(),
                |i: int|
                    if 0 <= i < m@.len() {
                        (m@[i].0@, json_view(m@[i].1))
                    } else {
                        (Seq::empty(), JsonView::Null)
                    },
            ),
        ),
    }
}

impl View for Json {
    type V = JsonView;

    open spec fn view(&self) -> JsonView {
        json_view(*self)
    }
}

/// The values of a list.
pub open spec fn json_views(s: Seq<Json>) -> Seq<JsonView> {
    s.map_values(|j: Json| j@)
}

/// The first position of a key from `i` on.
pub open spec fn key_from(m: Seq<(Seq<char>, JsonView)>, k: Seq<char>, i: int) -> Option<int>
    decreases m.len() - i,
{
    if i < 0 || i >= m.len() {
        None
    } else if m[i].0 == k {
        Some(i)
    } else {
        key_from(m, k, i + 1)
    }
}

impl JsonView {
    /// The value of a key, if this is an object that has it.
    pub open spec fn get(self, k: Seq<char>) -> Option<JsonView> {
        match self {
            JsonView::Obj(m) => match key_from(m, k, 0) {
                Some(i) => Some(m[i].1),
                None => None,
            },
            _ => None,
        }
    }

    /// The value of a key as a string.
    pub open spec fn get_str(self, k: Seq<char>) -> Option<Seq<char>> {
        match self.get(k) {
            Some(JsonView::Str(s)) => Some(s),
            _ => None,
        }
    }

    /// The elements of the array under a key; none when there is no array.
    pub open spec fn get_array(self, k: Seq<char>) -> Seq<JsonView> {
        match self.get(k) {
            Some(JsonView::Arr(a)) => a,
            _ => Seq::empty(),
        }
    }

    /// The number under a key.
    pub open spec fn get_num(self, k: Seq<char>) -> Option<(Seq<char>, Option<int>)> {
        match self.get(k) {
            Some(JsonView::Num(t, n)) => Some((t, n)),
            _ => None,
        }
    }
}

impl Json {
    /// The value of a key, if this is an object that has it.
    pub fn get(&self, k: &str) -> (r: Option<&Json>)
        ensures
            match r {
                Some(j) => self@.get(k@) == Some(j@),
                None => self@.get(k@) is None,
            },
    {
        match self {
            Json::Obj(m) => {
                let ghost mv = self@->Obj_0;
                let mut i: usize = 0;
                while i < m.len()
                    invariant
                        i <= m@.len(),
                        self@ == JsonView::Obj(mv),
                        mv.len() == m@.len(),
                        forall|j: int|
                            0 <= j < m@.len() ==> #[trigger] mv[j] == (m@[j].0@, m@[j].1@),
                        key_from(mv, k@, 0) == key_from(mv, k@, i as int),
                    decreases m@.len() - i,
                {
                    proof {
                        assert(mv[i as int] == (m@[i as int].0@, m@[i as int].1@));
                    }
                    if str_is(m[i].0.as_str(), k) {
                        return Some(&m[i].1);
                    }
                    i = i + 1;
                }
                None
            },
            _ => None,
        }
    }

    /// The value of a key as a string.
    pub fn get_str(&self, k: &str) -> (r: Option<&String>)
        ensures
            match r {
                Some(s) => self@.get_str(k@) == Some(s@),
                None => self@.get_str(k@) is None,
            },
    {
        match self.get(k) {
            Some(Json::Str(s)) => Some(s),
            _ => None,
        }
    }

    /// The array under a key.
    pub fn get_array(&self, k: &str) -> (r: Option<&Vec<Json>>)
        ensures
            match r {
                Some(a) => json_views(a@) == self@.get_array(k@) && self@.get(k@) is Some
                    && self@.get(k@)->0 is Arr,
                None => self@.get_array(k@) == Seq::<JsonView>::empty() && !(self@.get(
                    k@,
                ) matches Some(JsonView::Arr(_))),
            },
    {
        match self.get(k) {
            Some(Json::Arr(a)) => {
                proof {
                    assert(json_views(a@) =~= self@.get_array(k@));
                }
                Some(a)
            },
            _ => None,
        }
    }

    /// The number under a key.
    pub fn get_num(&self, k: &str) -> (r: Option<&Number>)
        ensures
            match r {
                Some(n) => self@.get_num(k@) == Some(n.parts()),
                None => self@.get_num(k@) is None,
            },
    {
        match self.get(k) {
            Some(Json::Num(n)) => Some(n),
            _ => None,
        }
    }

    /// Whether this is an object.
    pub fn is_object(&self) -> (b: bool)
        ensures
            b == (self@ is Obj),
    {
        match self {
            Json::Obj(_) => true,
            _ => false,
        }
    }
}

/// A value of `serde_json`, as its parser hands it out.
#[verifier::external_type_specification]
#[verifier::external_body]
pub struct ExValue(serde_json::Value);

/// What a value of `serde_json` holds.
pub uninterp spec fn json_content(v: serde_json::Value) -> JsonView;

/// The JSON value that a text stands for, if it is JSON.
pub uninterp spec fn json_parsed(s: Seq<char>) -> Option<JsonView>;

/// A text as a JSON string, in quotes and with escapes.
pub uninterp spec fn json_quoted(s: Seq<char>) -> Seq<char>;

/// Reads a value from text with `serde_json::from_str`.
///
/// Claimed of it: whether the text is JSON, and which value it stands for, depend on the text
/// alone. The grammar itself is not described.
#[verifier::external_body]
fn read_value(s: &str) -> (r: Option<serde_json::Value>)
    ensures
        match r {
            Some(v) => json_parsed(s@) == Some(json_content(v)),
            None => json_parsed(s@) is None,
        },
{
    serde_json::from_str(s).ok()
}

/// Takes a `serde_json::Value` apart, one variant for one. A number is given by
/// `serde_json::Number`'s text.
///
/// Claimed of it: the result is what the value holds.
#[verifier::external_body]
pub(crate) fn json_of(v: serde_json::Value) -> (r: Json)
    ensures
        r@ == json_content(v),
{
    match v {
        serde_json::Value::Null => Json::Null,
        serde_json::Value::Bool(b) => Json::Bool(b),
        serde_json::Value::Number(n) => Json::Num(Number { text: n.to_string() }),
        serde_json::Value::String(s) => Json::Str(s),
        serde_json::Value::Array(a) => Json::Arr(a.into_iter().map(json_of).collect()),
        serde_json::Value::Object(m) => {
            Json::Obj(m.into_iter().map(|(k, x)| (k, json_of(x))).collect())
        },
    }
}

/// Writes a text as a JSON string with `serde_json::Value`'s `to_string`.
///
/// Claimed of it: the result depends on the text alone. How characters are escaped is not
/// described.
#[verifier::external_body]
pub(crate) fn quote(s: &str) -> (r: String)
    ensures
        r@ == json_quoted(s@),
{
    serde_json::Value::from(s).to_string()
}

/// Parses JSON text.
pub fn parse(s: &str) -> (r: Option<Json>)
    ensures
        match r {
            Some(j) => json_parsed(s@) == Some(j@),
            None => json_parsed(s@) is None,
        },
{
    match read_value(s) {
        Some(v) => Some(json_of(v)),
        None => None,
    }
}

/// The compact JSON text of a value.
pub open spec fn shown(j: JsonView) -> Seq<char>
    decreases j,
{
    match j {
        JsonView::Null => "null"@,
        JsonView::Bool(b) => if b {
            "true"@
        } else {
            "false"@
        },
        JsonView::Num(t, _) => t,
        JsonView::Str(s) => json_quoted(s),
        JsonView::Arr(a) => "["@ + text::joined(shown_items(a), ","@) + "]"@,
        JsonView::Obj(m) => "{"@ + text::joined(shown_fields(m), ","@) + "}"@,
    }
}

/// The compact JSON texts of an array's elements.
pub open spec fn shown_items(a: Seq<JsonView>) -> Seq<Seq<char>>
    decreases a,
{
    Seq::new(
        a.len(),
        |i: int|
            if 0 <= i < a.len() {
                shown(a[i])
            } else {
                Seq::empty()
            },
    )
}

/// The compact JSON texts of an object's fields.
pub open spec fn shown_fields(m: Seq<(Seq<char>, JsonView)>) -> Seq<Seq<char>>
    decreases m,
{
    Seq::new(
        m.len(),
        |i: int|
            if 0 <= i < m.len() {
                json_quoted(m[i].0) + ":"@ + shown(m[i].1)
            } else {
                Seq::empty()
            },
    )
}

/// Writes a value as compact JSON text.
pub fn show(j: &Json) -> (r: String)
    ensures
        r@ == shown(j@),
    decreases j,
{
    match j {
        Json::Null => "null".to_owned(),
        Json::Bool(b) => {
            if *b {
                "true".to_owned()
            } else {
                "false".to_owned()
            }
        },
        Json::Num(n) => n.text.clone(),
        Json::Str(s) => quote(s.as_str()),
        Json::Arr(a) => {
            let ghost av = j@->Arr_0;
            let ghost parts_spec = shown_items(av);
            let mut parts: Vec<String> = Vec::new();
            let mut i: usize = 0;
            while i < a.len()
                invariant
                    i <= a@.len(),
                    *j == Json::Arr(*a),
                    av.len() == a@.len(),
                    parts_spec.len() == a@.len(),
                    forall|k: int|
                        0 <= k < a@.len() ==> #[trigger] parts_spec[k] == shown(json_view(a@[k])),
                    text::strings_of(parts@) == parts_spec.take(i as int),
                decreases a@.len() - i,
            {
                proof {
                    assert(decreases_to!(*j => (*j)->Arr_0));
                    assert(decreases_to!(*a => a@));
                    assert(decreases_to!(a@ => a@[i as int]));
                }
                let p = show(&a[i]);
                let ghost before = text::strings_of(parts@);
                parts.push(p);
                proof {
                    assert(parts_spec[i as int] == p@);
                    assert(text::strings_of(parts@) =~= before.push(p@));
                    assert(parts_spec.take(i + 1) =~= parts_spec.take(i as int).push(p@));
                }
                i = i + 1;
            }
            proof {
                assert(parts_spec.take(i as int) =~= parts_spec);
            }
            let mut s = "[".to_owned();
            let inner = text::join_strings(&parts, ",");
            s.append(inner.as_str());
            s.append("]");
            s
        },
        Json::Obj(m) => {
            let ghost mv = j@->Obj_0;
            let ghost parts_spec = shown_fields(mv);
            let mut parts: Vec<String> = Vec::new();
            let mut i: usize = 0;
            while i < m.len()
                invariant
                    i <= m@.len(),
                    *j == Json::Obj(*m),
                    mv.len() == m@.len(),
                    parts_spec.len() == m@.len(),
                    forall|k: int|
                        0 <= k < m@.len() ==> #[trigger] parts_spec[k] == json_quoted(m@[k].0@)
                            + ":"@ + shown(json_view(m@[k].1)),
                    text::strings_of(parts@) == parts_spec.take(i as int),
                decreases m@.len() - i,
            {
                proof {
                    assert(decreases_to!(*j => (*j)->Obj_0));
                    assert(decreases_to!(*m => m@));
                    assert(decreases_to!(m@ => m@[i as int]));
                    assert(decreases_to!(m@[i as int] => m@[i as int].1));
                }
                let mut p = quote(m[i].0.as_str());
                p.append(":");
                let v = show(&m[i].1);
                p.append(v.as_str());
                let ghost before = text::strings_of(parts@);
                parts.push(p);
                proof {
                    assert(parts_spec[i as int] == p@);
                    assert(text::strings_of(parts@) =~= before.push(p@));
                    assert(parts_spec.take(i + 1) =~= parts_spec.take(i as int).push(p@));
                }
                i = i + 1;
            }
            proof {
                assert(parts_spec.take(i as int) =~= parts_spec);
            }
            let mut s = "{".to_owned();
            let inner = text::join_strings(&parts, ",");
            s.append(inner.as_str());
            s.append("}");
            s
        },
    }
}

/// The first character from `i` on that is no white space closes an array or an object.
pub open spec fn closes(s: Seq<char>, i: int) -> bool
    decreases s.len() - i,
{
    if i < 0 || i >= s.len() {
        false
    } else if text::whitespace(s[i]) {
        closes(s, i + 1)
    } else {
        s[i] == '}' || s[i] == ']'
    }
}

/// What is left from `i` on when commas before a closing bracket or brace are dropped, but not
/// inside strings. `quoted` says that `i` is inside a string, `escaped` that a backslash stands
/// before it.
pub open spec fn stripped(s: Seq<char>, i: int, quoted: bool, escaped: bool) -> Seq<char>
    decreases s.len() - i,
{
    if i < 0 || i >= s.len() {
        Seq::empty()
    } else if quoted {
        seq![s[i]] + stripped(s, i + 1, escaped || s[i] != '"', !escaped && s[i] == '\\')
    } else if s[i] == ',' && closes(s, i + 1) {
        stripped(s, i + 1, false, false)
    } else {
        seq![s[i]] + stripped(s, i + 1, s[i] == '"', false)
    }
}

fn closes_at(s: &[char], from: usize) -> (b: bool)
    requires
        from <= s@.len(),
    ensures
        b == closes(s@, from as int),
{
    let n: usize = s.len();
    let mut i: usize = from;
    while i < n
        invariant
            i <= n == s@.len(),
            closes(s@, from as int) == closes(s@, i as int),
        decreases n - i,
    {
        if !text::is_whitespace(s[i]) {
            return s[i] == '}' || s[i] == ']';
        }
        i = i + 1;
    }
    false
}

/// Drops commas that stand before a closing bracket or brace, but not inside strings.
pub fn strip_trailing_commas(s: &[char]) -> (out: Vec<char>)
    ensures
        out@ == stripped(s@, 0, false, false),
{
    let n: usize = s.len();
    let mut out: Vec<char> = Vec::new();
    let mut quoted: bool = false;
    let mut escaped: bool = false;
    let mut i: usize = 0;
    proof {
        assert(out@ + stripped(s@, 0, false, false) =~= stripped(s@, 0, false, false));
    }
    while i < n
        invariant
            i <= n == s@.len(),
            escaped ==> quoted,
            out@ + stripped(s@, i as int, quoted, escaped) == stripped(s@, 0, false, false),
        decreases n - i,
    {
        let c = s[i];
        let ghost before = out@;
        let ghost whole = stripped(s@, i as int, quoted, escaped);
        if quoted {
            out.push(c);
            if escaped {
                escaped = false;
            } else if c == '\\' {
                escaped = true;
            } else if c == '"' {
                quoted = false;
            }
        } else if c == ',' {
            if !closes_at(s, i + 1) {
                out.push(c);
            }
        } else {
            quoted = c == '"';
            out.push(c);
        }
        proof {
            let rest = stripped(s@, i + 1, quoted, escaped);
            if out@.len() > before.len() {
                assert(out@ + rest =~= before + (seq![c] + rest));
            }
        }
        i = i + 1;
    }
    proof {
        assert(out@ + Seq::<char>::empty() =~= out@);
    }
    out
}

/// The characters other than commas.
pub open spec fn without_commas(s: Seq<char>) -> Seq<char> {
    s.filter(|c: char| c != ',')
}

/// Repairing JSON drops commas and nothing else.
pub proof fn law_only_commas_are_dropped(s: Seq<char>, i: int, quoted: bool, escaped: bool)
    requires
        0 <= i <= s.len(),
    ensures
        without_commas(stripped(s, i, quoted, escaped)) == without_commas(s.skip(i)),
    decreases s.len() - i,
{
    let f = |c: char| c != ',';
    if i < s.len() {
        let q = if quoted {
            escaped || s[i] != '"'
        } else {
            s[i] == '"'
        };
        let e = quoted && !escaped && s[i] == '\\';
        let rest = stripped(s, i + 1, q, e);
        law_only_commas_are_dropped(s, i + 1, q, e);
        assert(s.skip(i) =~= seq![s[i]] + s.skip(i + 1));
        lemma_filter_front(s[i], s.skip(i + 1));
        lemma_filter_front(s[i], rest);
    } else {
        assert(s.skip(i) =~= Seq::<char>::empty());
    }
}

proof fn lemma_filter_front(c: char, s: Seq<char>)
    ensures
        without_commas(seq![c] + s) == (if c != ',' {
            seq![c] + without_commas(s)
        } else {
            without_commas(s)
        }),
{
    let f = |c: char| c != ',';
    Seq::<char>::filter_distributes_over_add(seq![c], s, f);
    assert(seq![c] =~= Seq::<char>::empty().push(c));
    reveal_with_fuel(Seq::filter, 2);
    assert(seq![c].drop_last() =~= Seq::<char>::empty());
    assert(Seq::<char>::empty() + without_commas(s) =~= without_commas(s));
}

/// Where the object ends that is open at `i`, `depth` braces deep: behind the brace that closes it,
/// where braces inside strings do not count. `quoted` says that `i` is inside a string, `escaped`
/// that a backslash stands before it.
pub open spec fn closing(s: Seq<char>, i: int, depth: int, quoted: bool, escaped: bool) -> Option<
    int,
>
    decreases s.len() - i,
{
    if i < 0 || i >= s.len() {
        None
    } else if quoted {
        closing(s, i + 1, depth, escaped || s[i] != '"', !escaped && s[i] == '\\')
    } else if s[i] == '}' && depth <= 1 {
        Some(i + 1)
    } else {
        let deeper = if s[i] == '{' {
            depth + 1
        } else if s[i] == '}' {
            depth - 1
        } else {
            depth
        };
        closing(s, i + 1, deeper, s[i] == '"', false)
    }
}

/// What may be objects from `i` on: the text from an opening brace up to the brace that closes it,
/// that with trailing commas dropped, and so on behind it. Behind a brace that nothing closes there
/// is none: what stands there is part of something that was cut off.
pub open spec fn braced(t: Seq<char>, i: int) -> Seq<Seq<char>>
    decreases t.len() - i,
{
    if i < 0 || i >= t.len() {
        Seq::empty()
    } else {
        if t[i] == '{' {
            match closing(t, i, 0, false, false) {
                Some(e) => if i < e <= t.len() {
                    let inner = t.subrange(i, e);
                    seq![inner, stripped(inner, 0, false, false)] + braced(t, e)
                } else {
                    Seq::empty()
                },
                None => Seq::empty(),
            }
        } else {
            braced(t, i + 1)
        }
    }
}

/// The texts in which a reply's object is looked for: the trimmed reply, then what its braces
/// enclose.
pub open spec fn candidates(s: Seq<char>) -> Seq<Seq<char>> {
    seq![text::trimmed(s)] + braced(text::trimmed(s), 0)
}

fn closing_of(s: &[char], from: usize) -> (r: Option<usize>)
    requires
        from < s@.len(),
        s@[from as int] == '{',
    ensures
        match r {
            Some(e) => closing(s@, from as int, 0, false, false) == Some(e as int) && from < e
                <= s@.len(),
            None => closing(s@, from as int, 0, false, false) is None,
        },
{
    let n: usize = s.len();
    let mut depth: usize = 0;
    let mut quoted: bool = false;
    let mut escaped: bool = false;
    let mut i: usize = from;
    while i < n
        invariant
            from <= i <= n == s@.len(),
            depth <= i - from,
            i > from ==> depth >= 1,
            i == from ==> !quoted && s@[from as int] == '{',
            escaped ==> quoted,
            closing(s@, from as int, 0, false, false) == closing(
                s@,
                i as int,
                depth as int,
                quoted,
                escaped,
            ),
        decreases n - i,
    {
        let c = s[i];
        if quoted {
            if escaped {
                escaped = false;
            } else if c == '\\' {
                escaped = true;
            } else if c == '"' {
                quoted = false;
            }
        } else if c == '}' && depth <= 1 {
            return Some(i + 1);
        } else {
            if c == '{' {
                depth = depth + 1;
            } else if c == '}' {
                depth = depth - 1;
            }
            quoted = c == '"';
        }
        i = i + 1;
    }
    None
}

/// The texts in which a reply's object is looked for.
pub fn object_candidates(s: &str) -> (r: Vec<String>)
    ensures
        text::strings_of(r@) == candidates(s@),
{
    let c = chars_of(s);
    let t = trim_of(c.as_slice());
    let n: usize = t.len();
    let mut out: Vec<String> = Vec::new();
    out.push(string_of(t));
    let mut i: usize = 0;
    proof {
        assert(text::strings_of(out@) =~= seq![t@]);
    }
    while i < n
        invariant
            i <= n == t@.len(),
            t@ == text::trimmed(s@),
            text::strings_of(out@) + braced(t@, i as int) == candidates(s@),
        decreases n - i,
    {
        let ghost before = text::strings_of(out@);
        if t[i] == '{' {
            match closing_of(t, i) {
                Some(e) => {
                    let ghost rest = braced(t@, e as int);
                    let inner = slice_subrange(t, i, e);
                    out.push(string_of(inner));
                    let repaired = strip_trailing_commas(inner);
                    out.push(string_of(repaired.as_slice()));
                    proof {
                        assert(text::strings_of(out@) =~= before + seq![inner@, repaired@]);
                        assert(text::strings_of(out@) + rest =~= before + (seq![inner@, repaired@]
                            + rest));
                    }
                    i = e;
                },
                None => {
                    i = n;
                },
            }
        } else {
            i = i + 1;
        }
    }
    proof {
        assert(text::strings_of(out@) + Seq::<Seq<char>>::empty() =~= text::strings_of(out@));
    }
    out
}

/// The first object among parsed candidates.
pub open spec fn first_object(parsed: Seq<Option<JsonView>>) -> Option<JsonView>
    decreases parsed.len(),
{
    if parsed.len() == 0 {
        None
    } else if parsed[0] matches Some(JsonView::Obj(_)) {
        parsed[0]
    } else {
        first_object(parsed.drop_first())
    }
}

/// The object in a reply: the first candidate that is a JSON object.
pub open spec fn extracted(s: Seq<char>) -> Option<JsonView> {
    first_object(candidates(s).map_values(|t: Seq<char>| json_parsed(t)))
}

/// Picks the first object among parsed candidates.
pub fn pick_object(parsed: Vec<Option<Json>>) -> (r: Option<Json>)
    ensures
        match r {
            Some(j) => first_object(option_views(parsed@)) == Some(j@),
            None => first_object(option_views(parsed@)) is None,
        },
{
    let ghost all = option_views(parsed@);
    proof {
        assert(all.skip(0) =~= all);
    }
    for p in it: parsed
        invariant
            all == option_views(it.seq()),
            first_object(all) == first_object(all.skip(it.index() as int)),
    {
        proof {
            let k = it.index() as int;
            assert(all.skip(k)[0] == option_views(it.seq())[k]);
            assert(all.skip(k).drop_first() =~= all.skip(k + 1));
        }
        match p {
            Some(j) => {
                if j.is_object() {
                    return Some(j);
                }
            },
            None => {},
        }
    }
    proof {
        assert(all.skip(all.len() as int) =~= Seq::<Option<JsonView>>::empty());
    }
    None
}

/// The values of optional parses.
pub open spec fn option_views(s: Seq<Option<Json>>) -> Seq<Option<JsonView>> {
    s.map_values(
        |p: Option<Json>|
            match p {
                Some(j) => Some(j@),
                None => None,
            },
    )
}

/// The first JSON object in a model reply, tolerating prose and code fences around it and commas
/// before closing brackets.
pub fn extract_json(s: &str) -> (r: Option<Json>)
    ensures
        match r {
            Some(j) => extracted(s@) == Some(j@),
            None => extracted(s@) is None,
        },
{
    let texts = object_candidates(s);
    let mut parsed: Vec<Option<Json>> = Vec::new();
    let mut i: usize = 0;
    let ghost want = candidates(s@).map_values(|t: Seq<char>| json_parsed(t));
    while i < texts.len()
        invariant
            i <= texts@.len(),
            text::strings_of(texts@) == candidates(s@),
            want == candidates(s@).map_values(|t: Seq<char>| json_parsed(t)),
            option_views(parsed@) == want.take(i as int),
        decreases texts@.len() - i,
    {
        let p = parse(texts[i].as_str());
        let ghost before = option_views(parsed@);
        parsed.push(p);
        proof {
            assert(text::strings_of(texts@)[i as int] == texts@[i as int]@);
            assert(want[i as int] == json_parsed(texts@[i as int]@));
            assert(option_views(parsed@) =~= before.push(want[i as int]));
            assert(want.take(i + 1) =~= want.take(i as int).push(want[i as int]));
        }
        i = i + 1;
    }
    proof {
        assert(want.take(i as int) =~= want);
    }
    pick_object(parsed)
}

proof fn lemma_closing_inside(
    p: Seq<char>,
    o: Seq<char>,
    q: Seq<char>,
    i: int,
    depth: int,
    quoted: bool,
    escaped: bool,
)
    requires
        0 <= i,
        closing(o, i, depth, quoted, escaped) is Some,
    ensures
        closing(p + o + q, p.len() + i, depth, quoted, escaped) == Some(
            p.len() + closing(o, i, depth, quoted, escaped)->0,
        ),
    decreases o.len() - i,
{
    let t = p + o + q;
    assert(i < o.len());
    assert(t[p.len() + i] == o[i]);
    if quoted {
        lemma_closing_inside(p, o, q, i + 1, depth, escaped || o[i] != '"', !escaped && o[i] == '\\');
    } else if o[i] == '}' && depth <= 1 {
    } else {
        let deeper = if o[i] == '{' {
            depth + 1
        } else if o[i] == '}' {
            depth - 1
        } else {
            depth
        };
        lemma_closing_inside(p, o, q, i + 1, deeper, o[i] == '"', false);
    }
}

proof fn lemma_braced_from(t: Seq<char>, i: int, k: int)
    requires
        0 <= i <= k <= t.len(),
        forall|x: int| i <= x < k ==> #[trigger] t[x] != '{',
    ensures
        braced(t, i) == braced(t, k),
    decreases k - i,
{
    if i < k {
        lemma_braced_from(t, i + 1, k);
    }
}

/// The first object of a reply is found whatever follows it and whatever stands before it
/// without an opening brace, unless the whole reply is itself an object.
pub proof fn law_first_object_is_found(s: Seq<char>, p: Seq<char>, o: Seq<char>, q: Seq<char>)
    requires
        text::trimmed(s) == p + o + q,
        forall|x: int| 0 <= x < p.len() ==> #[trigger] p[x] != '{',
        o.len() > 0,
        o[0] == '{',
        closing(o, 0, 0, false, false) == Some(o.len() as int),
        json_parsed(o) matches Some(JsonView::Obj(_)),
        !(json_parsed(text::trimmed(s)) matches Some(JsonView::Obj(_))),
    ensures
        extracted(s) == json_parsed(o),
{
    let t = text::trimmed(s);
    let n = p.len() as int;
    assert forall|x: int| 0 <= x < n implies #[trigger] t[x] != '{' by {
        assert(t[x] == p[x]);
    }
    lemma_braced_from(t, 0, n);
    lemma_closing_inside(p, o, q, 0, 0, false, false);
    assert(t[n] == o[0]);
    assert(t.subrange(n, n + o.len()) =~= o);
    let all = candidates(s);
    assert(all[0] == t);
    assert(all[1] == o);
    let parsed = all.map_values(|x: Seq<char>| json_parsed(x));
    assert(parsed[0] == json_parsed(t));
    assert(parsed.drop_first()[0] == json_parsed(o));
    assert(first_object(parsed) == first_object(parsed.drop_first()));
}

/// Nothing is taken out of an object that was cut off: where nothing closes the first opening
/// brace of a reply, the reply has no object.
pub proof fn law_cut_off_objects_are_none(s: Seq<char>, n: int)
    requires
        0 <= n < text::trimmed(s).len(),
        text::trimmed(s)[n] == '{',
        forall|x: int| 0 <= x < n ==> #[trigger] text::trimmed(s)[x] != '{',
        closing(text::trimmed(s), n, 0, false, false) is None,
        !(json_parsed(text::trimmed(s)) matches Some(JsonView::Obj(_))),
    ensures
        extracted(s) is None,
{
    let t = text::trimmed(s);
    lemma_braced_from(t, 0, n);
    let all = candidates(s);
    assert(all =~= seq![t]);
    let parsed = all.map_values(|x: Seq<char>| json_parsed(x));
    assert(parsed[0] == json_parsed(t));
    assert(parsed.drop_first() =~= Seq::<Option<JsonView>>::empty());
    assert(first_object(parsed) == first_object(parsed.drop_first()));
}

/// The magnitude of a number of seconds in nanoseconds; a huge one is the largest number.
pub open spec fn magnitude(nanos: Option<int>) -> int {
    match nanos {
        Some(x) => x,
        None => u128::MAX as int,
    }
}

/// A number is negative.
pub open spec fn negative(t: Seq<char>) -> bool {
    t.len() > 0 && t[0] == '-'
}

/// A time in nanoseconds that a number of seconds stands for: negative times are zero.
pub open spec fn time_nanos(t: Seq<char>, nanos: Option<int>) -> int {
    if negative(t) {
        0
    } else {
        magnitude(nanos)
    }
}

/// A time in nanoseconds that a number of seconds stands for, before zero too.
pub open spec fn signed_nanos(t: Seq<char>, nanos: Option<int>) -> int {
    if negative(t) {
        -magnitude(nanos)
    } else {
        magnitude(nanos)
    }
}

/// A time before or after zero in ticks of `unit` nanoseconds, rounded to the nearest.
pub open spec fn signed_ticks(nanos: int, unit: int) -> int {
    if nanos < 0 {
        -to_ticks(-nanos, unit)
    } else {
        to_ticks(nanos, unit)
    }
}

/// A time in ticks of `unit` nanoseconds, rounded to the nearest, at most the largest number.
pub open spec fn to_ticks(nanos: int, unit: int) -> int {
    let q = nanos / unit + (if 2 * (nanos % unit) >= unit {
        1int
    } else {
        0int
    });
    if q > i64::MAX {
        i64::MAX as int
    } else {
        q
    }
}

/// Rounds a time in nanoseconds to ticks of `unit` nanoseconds.
pub fn ticks(nanos: u128, unit: u32) -> (r: i64)
    requires
        unit > 0,
    ensures
        r == to_ticks(nanos as int, unit as int),
        r >= 0,
{
    let u: u128 = unit as u128;
    let q: u128 = nanos / u;
    let m: u128 = nanos % u;
    proof {
        assert(q <= nanos && m < u) by (nonlinear_arith)
            requires
                q == nanos / u,
                m == nanos % u,
                u > 0,
        ;
    }
    let up: bool = 2 * m >= u;
    if q >= 0x7fff_ffff_ffff_ffff {
        return 0x7fff_ffff_ffff_ffff;
    }
    if up {
        q as i64 + 1
    } else {
        q as i64
    }
}

proof fn lemma_ten_grows(i: nat, j: nat)
    requires
        i <= j,
    ensures
        0 < ten_to(i) <= ten_to(j),
    decreases j,
{
    if i < j {
        lemma_ten_grows(i, (j - 1) as nat);
    } else if i > 0 {
        lemma_ten_grows((i - 1) as nat, (i - 1) as nat);
    }
}

fn ten_power(k: u32) -> (p: u128)
    requires
        k <= 31,
    ensures
        p == ten_to(k as nat),
        0 < p <= 10_000_000_000_000_000_000_000_000_000_000,
{
    let mut p: u128 = 1;
    let mut i: u32 = 0;
    proof {
        assert(ten_to(31) == 10_000_000_000_000_000_000_000_000_000_000) by {
            reveal_with_fuel(ten_to, 32);
        }
    }
    while i < k
        invariant
            i <= k <= 31,
            p == ten_to(i as nat),
            ten_to(31) == 10_000_000_000_000_000_000_000_000_000_000,
        decreases k - i,
    {
        proof {
            lemma_ten_grows((i + 1) as nat, 31);
        }
        p = p * 10;
        i = i + 1;
    }
    proof {
        lemma_ten_grows(k as nat, 31);
    }
    p
}

/// The number that at most thirty digits stand for; none if they are not all digits.
fn read_digits(s: &[char]) -> (r: Option<u128>)
    requires
        s@.len() <= 30,
    ensures
        match r {
            Some(v) => text::all_digits(s@) && v == text::digits_value(s@)
                && v < 1_000_000_000_000_000_000_000_000_000_000,
            None => !text::all_digits(s@),
        },
{
    let mut v: u128 = 0;
    let mut i: usize = 0;
    proof {
        assert(ten_to(30) == 1_000_000_000_000_000_000_000_000_000_000) by {
            reveal_with_fuel(ten_to, 31);
        }
        assert(s@.take(0) =~= Seq::<char>::empty());
    }
    while i < s.len()
        invariant
            i <= s@.len() <= 30,
            text::all_digits(s@.take(i as int)),
            v == text::digits_value(s@.take(i as int)),
            v < ten_to(i as nat),
            ten_to(30) == 1_000_000_000_000_000_000_000_000_000_000,
        decreases s@.len() - i,
    {
        let c = s[i];
        let ghost next = s@.take(i + 1);
        proof {
            assert(next.drop_last() =~= s@.take(i as int));
            assert(next.last() == c);
            lemma_ten_grows((i + 1) as nat, 30);
        }
        if c < '0' || c > '9' {
            proof {
                assert(!text::digit(s@[i as int]));
            }
            return None;
        }
        v = v * 10 + (c as u32 - '0' as u32) as u128;
        proof {
            assert forall|j: int| 0 <= j < next.len() implies text::digit(#[trigger] next[j]) by {
                if j < i {
                    assert(next[j] == s@.take(i as int)[j]);
                }
            }
        }
        i = i + 1;
    }
    proof {
        assert(s@.take(i as int) =~= s@);
        lemma_ten_grows(i as nat, 30);
    }
    Some(v)
}

fn scale(m: u128, k: i64) -> (r: Option<u128>)
    requires
        m < 1_000_000_000_000_000_000_000_000_000_000,
        -2_000_000 <= k <= 2_000_000,
    ensures
        match r {
            Some(v) => scaled(m as nat, k as int) == Some(v as int),
            None => scaled(m as nat, k as int) is None,
        },
{
    if m == 0 {
        proof {
            if k < 0 {
                lemma_ten_grows(0, (-k) as nat);
                let p = ten_to((-k) as nat) as int;
                assert((2 * m + p) / (2 * p) == 0) by (nonlinear_arith)
                    requires
                        m == 0,
                        p > 0,
                ;
            } else {
                let p = ten_to(k as nat) as int;
                assert(m * p == 0) by (nonlinear_arith)
                    requires
                        m == 0,
                ;
            }
        }
        return Some(0);
    }
    if k >= 0 {
        let mut v: u128 = m;
        let mut i: i64 = 0;
        if v > LONGEST_NANOS {
            proof {
                lemma_ten_grows(0, k as nat);
                let p = ten_to(k as nat) as int;
                assert(m * p >= m) by (nonlinear_arith)
                    requires
                        p >= 1,
                        m >= 0,
                ;
            }
            return None;
        }
        proof {
            assert(ten_to(0) == 1);
            assert(m * 1 == m) by (nonlinear_arith);
        }
        while i < k
            invariant
                0 <= i <= k <= 2_000_000,
                0 < m,
                v == m * ten_to(i as nat),
                v <= LONGEST_NANOS,
            decreases k - i,
        {
            let ghost before = v;
            v = v * 10;
            proof {
                let p = ten_to(i as nat) as int;
                assert(ten_to((i + 1) as nat) == 10 * p);
                assert(m * (10 * p) == before * 10) by (nonlinear_arith)
                    requires
                        before == m * p,
                ;
            }
            i = i + 1;
            if v > LONGEST_NANOS {
                proof {
                    lemma_ten_grows(i as nat, k as nat);
                    let (p, q) = (ten_to(i as nat) as int, ten_to(k as nat) as int);
                    assert(m * q >= m * p) by (nonlinear_arith)
                        requires
                            q >= p,
                            m >= 0,
                    ;
                }
                return None;
            }
        }
        return Some(v);
    }
    if k < -31 {
        proof {
            lemma_ten_grows(31, (-k) as nat);
            assert(ten_to(31) == 10_000_000_000_000_000_000_000_000_000_000) by {
                reveal_with_fuel(ten_to, 32);
            }
            let p = ten_to((-k) as nat) as int;
            assert((2 * m + p) / (2 * p) == 0) by (nonlinear_arith)
                requires
                    0 <= 2 * m < p,
            ;
        }
        return Some(0);
    }
    let p: u128 = ten_power((-k) as u32);
    let v: u128 = (2 * m + p) / (2 * p);
    if v > LONGEST_NANOS {
        None
    } else {
        Some(v)
    }
}

/// The part of a text before a character, and the part behind it.
fn part_at(s: &[char], c: char) -> (r: (&[char], Option<&[char]>))
    ensures
        r.0@ == parted(s@, c).0,
        match r.1 {
            Some(t) => parted(s@, c).1 == Some(t@),
            None => parted(s@, c).1 is None,
        },
{
    let n: usize = s.len();
    match find_char(s, c) {
        Some(i) => {
            let a = slice_subrange(s, 0, i);
            let b = slice_subrange(s, i + 1, n);
            proof {
                assert(a@ =~= s@.take(i as int));
                assert(b@ =~= s@.skip(i + 1));
            }
            (a, Some(b))
        },
        None => (s, None),
    }
}

/// What the absolute value of a number is in billionths.
fn read_nanos(t: &[char]) -> (r: Option<u128>)
    ensures
        match r {
            Some(v) => nanos_of(t@) == Some(v as int),
            None => nanos_of(t@) is None,
        },
{
    proof {
        reveal(plain_nanos);
    }
    let n: usize = t.len();
    let start: usize = if n > 0 && t[0] == '-' {
        1
    } else {
        0
    };
    let body = slice_subrange(t, start, n);
    proof {
        assert(body@ =~= (if negative(t@) {
            t@.drop_first()
        } else {
            t@
        }));
    }
    let (m, e) = part_at(body, 'e');
    let x: i64 = match e {
        Some(s) => match text::parse_i64(s) {
            Some(v) => v,
            None => {
                return None;
            },
        },
        None => 0,
    };
    if x < -1_000_000 || x > 1_000_000 {
        return None;
    }
    let (a, b) = part_at(m, '.');
    let mut digits: Vec<char> = Vec::new();
    digits.extend_from_slice(a);
    let mut behind: usize = 0;
    proof {
        assert(digits@ =~= a@);
    }
    match b {
        Some(s) => {
            digits.extend_from_slice(s);
            behind = s.len();
        },
        None => {},
    }
    let ghost tail = match b {
        Some(s) => s@,
        None => Seq::empty(),
    };
    proof {
        assert(digits@ =~= a@ + tail);
    }
    if digits.len() == 0 || digits.len() > 30 {
        return None;
    }
    match read_digits(digits.as_slice()) {
        Some(v) => scale(v, x - behind as i64 + 9),
        None => None,
    }
}

impl Number {
    /// The number as a time in ticks of `unit` nanoseconds; a negative one is zero.
    pub fn ticks(&self, unit: u32) -> (r: i64)
        requires
            unit > 0,
        ensures
            r == to_ticks(time_nanos(self.parts().0, self.parts().1), unit as int),
            r >= 0,
    {
        let n: u128 = if self.is_negative() {
            0
        } else {
            self.size()
        };
        ticks(n, unit)
    }

    /// The text, and what it is in billionths.
    pub open spec fn parts(self) -> (Seq<char>, Option<int>) {
        (self.text@, nanos_of(self.text@))
    }

    fn is_negative(&self) -> (b: bool)
        ensures
            b == negative(self.text@),
    {
        let c = chars_of(self.text.as_str());
        c.len() > 0 && c[0] == '-'
    }

    fn size(&self) -> (n: u128)
        ensures
            n == magnitude(self.parts().1),
    {
        match read_nanos(chars_of(self.text.as_str()).as_slice()) {
            Some(x) => x,
            None => 0xffff_ffff_ffff_ffff_ffff_ffff_ffff_ffff,
        }
    }

    /// Whether this number, as a time, comes after another by a nanosecond or more.
    pub fn after(&self, other: &Number) -> (b: bool)
        ensures
            b == (signed_nanos(self.parts().0, self.parts().1) > signed_nanos(
                other.parts().0,
                other.parts().1,
            )),
    {
        let a: u128 = self.size();
        let c: u128 = other.size();
        match (self.is_negative(), other.is_negative()) {
            (false, false) => a > c,
            (true, true) => a < c,
            (false, true) => a > 0 || c > 0,
            (true, false) => false,
        }
    }

    /// The number as a time in ticks of `unit` nanoseconds, before zero too.
    pub fn signed_ticks(&self, unit: u32) -> (r: i64)
        requires
            unit > 0,
        ensures
            r == signed_ticks(signed_nanos(self.parts().0, self.parts().1), unit as int),
    {
        let t: i64 = ticks(self.size(), unit);
        if self.is_negative() {
            proof {
                if self.size_spec() == 0 {
                    assert(0int / unit as int == 0 && 0int % unit as int == 0) by (nonlinear_arith)
                        requires
                            unit > 0,
                    ;
                }
            }
            -t
        } else {
            t
        }
    }

    spec fn size_spec(self) -> int {
        magnitude(self.parts().1)
    }
}

/// Times are rounded to the nearest tick, and halves up; a time below zero as the same time above.
pub proof fn law_ticks_are_nearest(nanos: int, unit: int)
    requires
        unit > 0,
        nanos >= 0,
        nanos <= i64::MAX * unit - unit,
    ensures
        -unit <= 2 * (to_ticks(nanos, unit) * unit - nanos) <= unit,
        signed_ticks(-nanos, unit) == -to_ticks(nanos, unit),
        signed_ticks(nanos, unit) == to_ticks(nanos, unit),
{
    let q = nanos / unit;
    let r = nanos % unit;
    assert(nanos == unit * q + r && 0 <= r < unit && q <= i64::MAX - 1) by (nonlinear_arith)
        requires
            unit > 0,
            nanos <= i64::MAX * unit - unit,
            q == nanos / unit,
            r == nanos % unit,
    ;
    assert(q * unit == unit * q && (q + 1) * unit == unit * q + unit) by (nonlinear_arith);
    if nanos == 0 {
        assert(q == 0 && r == 0) by (nonlinear_arith)
            requires
                unit > 0,
                nanos == 0,
                q == nanos / unit,
                r == nanos % unit,
        ;
    }
}

/// A value is found under the first key that is its own.
pub proof fn law_keys_are_looked_up(m: Seq<(Seq<char>, JsonView)>, k: Seq<char>, i: int)
    requires
        0 <= i < m.len(),
        m[i].0 == k,
        forall|j: int| 0 <= j < i ==> (#[trigger] m[j]).0 != k,
    ensures
        JsonView::Obj(m).get(k) == Some(m[i].1),
{
    lemma_key_from(m, k, 0, i);
}

proof fn lemma_key_from(m: Seq<(Seq<char>, JsonView)>, k: Seq<char>, a: int, i: int)
    requires
        0 <= a <= i < m.len(),
        m[i].0 == k,
        forall|j: int| a <= j < i ==> (#[trigger] m[j]).0 != k,
    ensures
        key_from(m, k, a) == Some(i),
    decreases i - a,
{
    if a < i {
        lemma_key_from(m, k, a + 1, i);
    }
}

} // verus!
