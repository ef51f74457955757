//! Scene descriptions: what a model is asked about a scene and what is kept
//! of its answer.

use vstd::prelude::*;
use vstd::slice::slice_subrange;

use crate::grid;
use crate::json;
use crate::json::{Json, JsonView};
use crate::model::{Description, DescriptionKind, TargetKind};
use crate::text;
use crate::text::{chars_of, has_prefix, has_suffix, string_of, trim_of};
use crate::timestamp;
use crate::timestamp::Timestamp;

verus! {

/// Frames per grid.
pub const GRID_FRAMES: usize = 9;

/// A text without the prefix `p`, however often it stands there.
pub open spec fn unprefixed(s: Seq<char>, p: Seq<char>) -> Seq<char>
    decreases s.len(),
{
    if p.len() > 0 && text::starts_with(s, p) {
        unprefixed(s.skip(p.len() as int), p)
    } else {
        s
    }
}

/// A text without the suffix `p`, however often it stands there.
pub open spec fn unsuffixed(s: Seq<char>, p: Seq<char>) -> Seq<char>
    decreases s.len(),
{
    if p.len() > 0 && text::ends_with(s, p) {
        unsuffixed(s.take(s.len() - p.len()), p)
    } else {
        s
    }
}

fn strip_prefix<'a>(s: &'a [char], p: &[char]) -> (r: &'a [char])
    requires
        p@.len() > 0,
    ensures
        r@ == unprefixed(s@, p@),
{
    let k: usize = p.len();
    let mut rest = s;
    while has_prefix(rest, p)
        invariant
            k == p@.len() > 0,
            unprefixed(s@, p@) == unprefixed(rest@, p@),
        decreases rest@.len(),
    {
        let m: usize = rest.len();
        let next = slice_subrange(rest, k, m);
        proof {
            assert(next@ =~= rest@.skip(k as int));
        }
        rest = next;
    }
    rest
}

fn strip_suffix<'a>(s: &'a [char], p: &[char]) -> (r: &'a [char])
    requires
        p@.len() > 0,
    ensures
        r@ == unsuffixed(s@, p@),
{
    let k: usize = p.len();
    let mut rest = s;
    while has_suffix(rest, p)
        invariant
            k == p@.len() > 0,
            unsuffixed(s@, p@) == unsuffixed(rest@, p@),
        decreases rest@.len(),
    {
        let m: usize = rest.len();
        let next = slice_subrange(rest, 0, m - k);
        proof {
            assert(next@ =~= rest@.take(m - k));
        }
        rest = next;
    }
    rest
}

/// A reply without the code fence around it.
pub open spec fn unfenced(s: Seq<char>) -> Seq<char> {
    text::trimmed(
        unsuffixed(
            unprefixed(unprefixed(text::trimmed(s), "```json"@), "```"@),
            "```"@,
        ),
    )
}

/// Takes the code fence off a reply.
pub fn unfence(raw: &str) -> (r: String)
    ensures
        r@ == unfenced(raw@),
{
    let c = chars_of(raw);
    let json_fence = chars_of("```json");
    let fence = chars_of("```");
    proof {
        reveal_strlit("```json");
        reveal_strlit("```");
    }
    let a = strip_prefix(trim_of(c.as_slice()), json_fence.as_slice());
    let b = strip_prefix(a, fence.as_slice());
    let d = strip_suffix(b, fence.as_slice());
    string_of(trim_of(d))
}

/// A value inside a list as text: a string as it is, anything else as JSON.
pub open spec fn plain(v: JsonView) -> Seq<char> {
    match v {
        JsonView::Str(s) => s,
        other => json::shown(other),
    }
}

/// A value as text: a list has its values joined by semicolons.
pub open spec fn flat_text(v: JsonView) -> Seq<char> {
    match v {
        JsonView::Arr(a) => text::joined(a.map_values(|x: JsonView| plain(x)), "; "@),
        other => plain(other),
    }
}

/// The text of a field added to those before it, if the field is there and not empty.
pub open spec fn with_field(parts: Seq<Seq<char>>, v: JsonView, k: Seq<char>) -> Seq<Seq<char>> {
    match v.get(k) {
        Some(x) => if flat_text(x).len() > 0 {
            parts.push(flat_text(x))
        } else {
            parts
        },
        None => parts,
    }
}

/// The text kept of a structured answer: its known fields, in a fixed order.
pub open spec fn structured_text(v: JsonView) -> Seq<char> {
    text::joined(
        with_field(
            with_field(
                with_field(
                    with_field(with_field(Seq::empty(), v, "summary"@), v, "visible"@),
                    v,
                    "actions"@,
                ),
                v,
                "on_screen_text"@,
            ),
            v,
            "topics"@,
        ),
        " "@,
    )
}

/// The text kept of an answer: what its structure says, or the answer itself.
pub open spec fn kept_text(answer: Seq<char>, structured: Option<JsonView>) -> Seq<char> {
    match structured {
        Some(v) => if structured_text(v).len() > 0 {
            structured_text(v)
        } else {
            answer
        },
        None => answer,
    }
}

fn plain_text(v: &Json) -> (r: String)
    ensures
        r@ == plain(v@),
{
    match v {
        Json::Str(s) => s.clone(),
        other => json::show(other),
    }
}

fn value_text(v: &Json) -> (r: String)
    ensures
        r@ == flat_text(v@),
{
    match v {
        Json::Arr(a) => {
            let ghost want = v@->Arr_0.map_values(|x: JsonView| plain(x));
            let mut parts: Vec<String> = Vec::new();
            let mut i: usize = 0;
            while i < a.len()
                invariant
                    i <= a@.len(),
                    want.len() == a@.len(),
                    forall|k: int| 0 <= k < a@.len() ==> #[trigger] want[k] == plain(a@[k]@),
                    text::strings_of(parts@) == want.take(i as int),
                decreases a@.len() - i,
            {
                let p = plain_text(&a[i]);
                let ghost before = text::strings_of(parts@);
                parts.push(p);
                proof {
                    assert(want[i as int] == p@);
                    assert(text::strings_of(parts@) =~= before.push(p@));
                    assert(want.take(i + 1) =~= want.take(i as int).push(p@));
                }
                i = i + 1;
            }
            proof {
                assert(want.take(i as int) =~= want);
            }
            text::join_strings(&parts, "; ")
        },
        other => plain_text(other),
    }
}

fn add_field(parts: &mut Vec<String>, v: &Json, k: &str)
    ensures
        text::strings_of(final(parts)@) == with_field(text::strings_of(old(parts)@), v@, k@),
{
    let ghost before = text::strings_of(parts@);
    match v.get(k) {
        Some(x) => {
            let t = value_text(x);
            let c = chars_of(t.as_str());
            if c.len() > 0 {
                parts.push(t);
                proof {
                    assert(text::strings_of(parts@) =~= before.push(t@));
                }
            }
        },
        None => {},
    }
}

/// The text kept of an answer whose structure was read.
pub fn text_of(answer: &str, structured: &Option<Json>) -> (r: String)
    ensures
        r@ == kept_text(
            answer@,
            match *structured {
                Some(j) => Some(j@),
                None => None,
            },
        ),
{
    match structured {
        Some(v) => {
            let mut parts: Vec<String> = Vec::new();
            proof {
                assert(text::strings_of(parts@) =~= Seq::<Seq<char>>::empty());
            }
            add_field(&mut parts, v, "summary");
            add_field(&mut parts, v, "visible");
            add_field(&mut parts, v, "actions");
            add_field(&mut parts, v, "on_screen_text");
            add_field(&mut parts, v, "topics");
            let s = text::join_strings(&parts, " ");
            let c = chars_of(s.as_str());
            if c.len() > 0 {
                s
            } else {
                answer.to_owned()
            }
        },
        None => answer.to_owned(),
    }
}

/// The object that a text stands for.
pub open spec fn parsed_object(s: Seq<char>) -> Option<JsonView> {
    match json::json_parsed(s) {
        Some(JsonView::Obj(m)) => Some(JsonView::Obj(m)),
        _ => None,
    }
}

/// Turns a model's JSON (or prose) into the stored text and its structure.
pub fn description_text(raw: &str) -> (r: (String, Option<Json>))
    ensures
        r.0@ == kept_text(unfenced(raw@), parsed_object(unfenced(raw@))),
        match r.1 {
            Some(j) => parsed_object(unfenced(raw@)) == Some(j@),
            None => parsed_object(unfenced(raw@)) is None,
        },
{
    let answer = unfence(raw);
    let structured: Option<Json> = match json::parse(answer.as_str()) {
        Some(j) => {
            if j.is_object() {
                Some(j)
            } else {
                None
            }
        },
        None => None,
    };
    let t = text_of(answer.as_str(), &structured);
    (t, structured)
}

/// A span of speech overlaps a scene.
#[derive(Debug)]
pub struct TimedText {
    /// Start.
    pub t0: Timestamp,
    /// End.
    pub t1: Timestamp,
    /// Text.
    pub text: String,
}

/// A stretch of time that starts before `t1` and ends after `t0`.
pub open spec fn overlaps(s: TimedText, t0: Timestamp, t1: Timestamp) -> bool {
    !timestamp::le_time(t1, s.t0) && !timestamp::le_time(s.t1, t0)
}

/// The transcript of a scene: the lines of the spans that overlap it.
pub open spec fn scene_transcript(
    spans: Seq<TimedText>,
    t0: Timestamp,
    t1: Timestamp,
) -> Seq<Seq<char>>
    decreases spans.len(),
{
    if spans.len() == 0 {
        Seq::empty()
    } else {
        let rest = scene_transcript(spans.drop_last(), t0, t1);
        let s = spans.last();
        if overlaps(s, t0, t1) {
            rest.push("["@ + grid::clock(grid::whole_seconds(s.t0)) + "] "@ + s.text@)
        } else {
            rest
        }
    }
}

/// What a model is asked about a scene.
pub open spec fn scene_prompt(
    title: Seq<char>,
    t0: Timestamp,
    t1: Timestamp,
    frames: nat,
    spans: Seq<TimedText>,
) -> Seq<char> {
    let said = text::joined(scene_transcript(spans, t0, t1), "\n"@);
    "Segment "@ + grid::clock(grid::whole_seconds(t0)) + "–"@ + grid::clock(
        grid::whole_seconds(t1),
    ) + " of \""@ + title + "\" ("@ + text::decimal(frames) + " frames).\n\nTranscript (data):\n"@ + (
    if said.len() == 0 {
        "(none)"@
    } else {
        text::head(said, 6000)
    })
}

/// The text that goes with a scene's frames: where the scene is, and what is said in it.
pub fn scene_text(
    title: &str,
    t0: Timestamp,
    t1: Timestamp,
    frames: u64,
    spans: &Vec<TimedText>,
) -> (r: String)
    requires
        t0.wf(),
        t1.wf(),
        forall|i: int| 0 <= i < spans@.len() ==> (#[trigger] spans@[i]).t0.wf(),
    ensures
        r@ == scene_prompt(title@, t0, t1, frames as nat, spans@),
{
    let mut lines: Vec<String> = Vec::new();
    let mut i: usize = 0;
    proof {
        assert(spans@.take(0) =~= Seq::<TimedText>::empty());
        assert(text::strings_of(lines@) =~= Seq::<Seq<char>>::empty());
    }
    while i < spans.len()
        invariant
            i <= spans@.len(),
            forall|i: int| 0 <= i < spans@.len() ==> (#[trigger] spans@[i]).t0.wf(),
            text::strings_of(lines@) == scene_transcript(spans@.take(i as int), t0, t1),
        decreases spans@.len() - i,
    {
        proof {
            assert(spans@.take(i + 1).drop_last() =~= spans@.take(i as int));
        }
        let s = &spans[i];
        if s.t0.lt(&t1) && t0.lt(&s.t1) {
            let mut l = "[".to_owned();
            let c = grid::hms(s.t0);
            l.append(c.as_str());
            l.append("] ");
            l.append(s.text.as_str());
            let ghost before = text::strings_of(lines@);
            lines.push(l);
            proof {
                assert(text::strings_of(lines@) =~= before.push(l@));
            }
        }
        i = i + 1;
    }
    proof {
        assert(spans@.take(i as int) =~= spans@);
    }
    let said = text::join_strings(&lines, "\n");
    let mut r = "Segment ".to_owned();
    let a = grid::hms(t0);
    r.append(a.as_str());
    r.append("–");
    let b = grid::hms(t1);
    r.append(b.as_str());
    r.append(" of \"");
    r.append(title);
    r.append("\" (");
    let n = text::decimal_string(frames);
    r.append(n.as_str());
    r.append(" frames).\n\nTranscript (data):\n");
    let sc = chars_of(said.as_str());
    if sc.len() == 0 {
        r.append("(none)");
    } else {
        let h = text::head_text(said.as_str(), 6000);
        r.append(h.as_str());
    }
    r
}

/// The rate at which a scene is sampled, in frames per nanoseconds: nine frames over the scene,
/// but at most one a second.
pub fn sample_rate(duration: i128) -> (r: (u64, i128))
    requires
        duration <= 0x4000_0000_0000_0000_0000_0000_0000_0000,
    ensures
        ({
            let d = if duration < 1_000_000_000 {
                1_000_000_000int
            } else {
                duration as int
            };
            if 9_000_000_000 >= d {
                r == (1u64, 1_000_000_000i128)
            } else {
                r.0 == 9 && r.1 == d
            }
        }),
{
    let d: i128 = if duration < 1_000_000_000 {
        1_000_000_000
    } else {
        duration
    };
    if 9_000_000_000 >= d {
        (1, 1_000_000_000)
    } else {
        (9, d)
    }
}

/// The row for a scene's description: a structured one when the answer had structure.
pub fn description_row(
    id: u128,
    scene: &str,
    said: String,
    structured: &Option<Json>,
    provenance_id: u128,
) -> (d: Description)
    ensures
        d.id == id,
        d.target_kind == TargetKind::Segment,
        d.target_id@ == scene@,
        d.kind == (if structured is Some {
            DescriptionKind::Structured
        } else {
            DescriptionKind::Caption
        }),
        d.text == said,
        text::opt_text(d.structured) == (match *structured {
            Some(j) => Some(json::shown(j@)),
            None => None,
        }),
        d.provenance_id == provenance_id,
{
    let (kind, shown): (DescriptionKind, Option<String>) = match structured {
        Some(j) => (DescriptionKind::Structured, Some(json::show(j))),
        None => (DescriptionKind::Caption, None),
    };
    Description {
        id,
        target_kind: TargetKind::Segment,
        target_id: scene.to_owned(),
        kind,
        text: said,
        structured: shown,
        provenance_id,
    }
}

/// The summary that a scene gets from its structured description.
pub fn scene_summary(structured: &Option<Json>) -> (r: Option<String>)
    ensures
        text::opt_text(r) == (match *structured {
            Some(j) => j@.get_str("summary"@),
            None => None,
        }),
{
    match structured {
        Some(j) => match j.get_str("summary") {
            Some(s) => Some(s.clone()),
            None => None,
        },
        None => None,
    }
}

/// What to do about the next scene.
#[derive(Clone, Copy, Debug, PartialEq, Eq, Structural)]
pub enum DescribeStep {
    /// Every scene was taken.
    Done,
    /// The budget is spent: this many scenes stay without a description.
    Skip(u64),
    /// Describe this scene.
    Describe(usize),
}

/// What to do about scene `next` of `scenes`, when the budget allows a call or not.
pub fn describe_step(next: usize, scenes: usize, allowed: bool) -> (r: DescribeStep)
    ensures
        r == (if next >= scenes {
            DescribeStep::Done
        } else if allowed {
            DescribeStep::Describe(next)
        } else {
            DescribeStep::Skip((scenes - next) as u64)
        }),
{
    if next >= scenes {
        DescribeStep::Done
    } else if allowed {
        DescribeStep::Describe(next)
    } else {
        DescribeStep::Skip((scenes - next) as u64)
    }
}

/// What is said in a scene is what overlaps it, in its order: speech that starts before the scene
/// ends and ends after it starts.
pub proof fn law_scenes_hear_what_overlaps_them(
    a: Seq<TimedText>,
    b: Seq<TimedText>,
    s: TimedText,
    t0: Timestamp,
    t1: Timestamp,
)
    ensures
        scene_transcript(a + b, t0, t1) == scene_transcript(a, t0, t1) + scene_transcript(b, t0, t1),
        s.t0.num * t1.den < t1.num * s.t0.den && t0.num * s.t1.den < s.t1.num * t0.den
            ==> scene_transcript(seq![s], t0, t1) == seq![
            "["@ + grid::clock(grid::whole_seconds(s.t0)) + "] "@ + s.text@,
        ],
        s.t0.num * t1.den >= t1.num * s.t0.den || t0.num * s.t1.den >= s.t1.num * t0.den
            ==> scene_transcript(seq![s], t0, t1) == Seq::<Seq<char>>::empty(),
    decreases b.len(),
{
    reveal_with_fuel(scene_transcript, 2);
    assert(seq![s].drop_last() =~= Seq::<TimedText>::empty());
    let l = "["@ + grid::clock(grid::whole_seconds(s.t0)) + "] "@ + s.text@;
    assert(Seq::<Seq<char>>::empty().push(l) =~= seq![l]);
    if b.len() == 0 {
        assert(a + b =~= a);
        assert(scene_transcript(a, t0, t1) + scene_transcript(b, t0, t1) =~= scene_transcript(
            a,
            t0,
            t1,
        ));
    } else {
        law_scenes_hear_what_overlaps_them(a, b.drop_last(), s, t0, t1);
        assert((a + b).drop_last() =~= a + b.drop_last());
        assert(scene_transcript(a + b, t0, t1) =~= scene_transcript(a, t0, t1) + scene_transcript(
            b,
            t0,
            t1,
        ));
    }
}

/// A description reads as its summary, what is visible, what happens, the text on screen and the
/// topics, in this order, as far as they say something; lists are read with semicolons between.
pub proof fn law_descriptions_read_in_order(
    v: JsonView,
    s: Seq<char>,
    w: Seq<char>,
    a: Seq<char>,
    o: Seq<char>,
    t: Seq<char>,
)
    requires
        s.len() > 0,
        w.len() > 0,
        a.len() > 0,
        o.len() > 0,
        t.len() > 0,
        v.get("summary"@) == Some(JsonView::Str(s)),
        v.get("visible"@) == Some(JsonView::Str(w)),
        v.get("actions"@) == Some(JsonView::Str(a)),
        v.get("on_screen_text"@) == Some(JsonView::Str(o)),
        v.get("topics"@) == Some(JsonView::Str(t)),
    ensures
        structured_text(v) == s + " "@ + w + " "@ + a + " "@ + o + " "@ + t,
{
    let p1 = Seq::<Seq<char>>::empty().push(s);
    assert(p1 =~= seq![s]);
    text::law_joining(p1, s, w, " "@);
    text::law_joining(p1.push(w), s, a, " "@);
    text::law_joining(p1.push(w).push(a), s, o, " "@);
    text::law_joining(p1.push(w).push(a).push(o), s, t, " "@);
}

/// A field that is missing or says nothing is left out, and a list of two texts is read with a
/// semicolon between them.
pub proof fn law_empty_fields_are_left_out(
    parts: Seq<Seq<char>>,
    v: JsonView,
    k: Seq<char>,
    a: Seq<char>,
    b: Seq<char>,
)
    ensures
        v.get(k) is None ==> with_field(parts, v, k) == parts,
        v.get(k) == Some(JsonView::Str(Seq::<char>::empty())) ==> with_field(parts, v, k) == parts,
        v.get(k) == Some(JsonView::Arr(Seq::<JsonView>::empty())) ==> with_field(parts, v, k)
            == parts,
        v.get(k) == Some(JsonView::Arr(seq![JsonView::Str(a), JsonView::Str(b)])) ==> with_field(
            parts,
            v,
            k,
        ) == parts.push(a + "; "@ + b),
{
    let two = seq![JsonView::Str(a), JsonView::Str(b)];
    assert(two.map_values(|x: JsonView| plain(x)) =~= seq![a, b]);
    assert(Seq::<JsonView>::empty().map_values(|x: JsonView| plain(x)) =~= Seq::<
        Seq<char>,
    >::empty());
    text::law_joining(Seq::empty(), a, b, "; "@);
    reveal_strlit("; ");
    assert((a + "; "@ + b).len() > 0);
}

proof fn lemma_no_space_around(s: Seq<char>)
    requires
        s.len() > 0,
        !text::whitespace(s[0]),
        !text::whitespace(s.last()),
    ensures
        text::trimmed(s) == s,
{
    text::law_trimming(s);
    let (a, b) = choose|a: int, b: int| #[trigger]
        text::cut_from(s, a, b) == text::trimmed(s) && 0 <= a <= b <= s.len() && (forall|i: int|
            0 <= i < a || b <= i < s.len() ==> text::whitespace(#[trigger] s[i]));
    assert(a == 0) by {
        if a > 0 {
            assert(text::whitespace(s[0]));
        }
    }
    assert(b == s.len()) by {
        if b < s.len() {
            assert(text::whitespace(s[s.len() - 1]));
        }
    }
    assert(text::cut_from(s, a, b) =~= s);
}

/// An answer in a fence is the answer without it, whether the fence names a language or not.
pub proof fn law_fences_are_taken_off(t: Seq<char>)
    requires
        t.len() > 0,
        t[0] != '`',
        t[0] != 'j',
        t.last() != '`',
    ensures
        unfenced("```json"@ + t + "```"@) == text::trimmed(t),
        unfenced("```"@ + t + "```"@) == text::trimmed(t),
{
    let (named, bare) = ("```json"@, "```"@);
    reveal_strlit("```json");
    reveal_strlit("```");
    let tail = t + bare;
    let a = named + t + bare;
    let b = bare + t + bare;
    assert(!text::whitespace('`'));
    assert(a[0] == '`' && a.last() == '`' && b[0] == '`' && b.last() == '`');
    lemma_no_space_around(a);
    lemma_no_space_around(b);
    assert(tail[0] == t[0]);
    assert(!text::starts_with(tail, named)) by {
        if text::starts_with(tail, named) {
            assert(tail.subrange(0, 7)[0] == tail[0]);
        }
    }
    assert(!text::starts_with(tail, bare)) by {
        if text::starts_with(tail, bare) {
            assert(tail.subrange(0, 3)[0] == tail[0]);
        }
    }
    assert(unprefixed(tail, named) == tail && unprefixed(tail, bare) == tail);
    assert(a.subrange(0, 7) =~= named);
    assert(a.skip(7) =~= tail);
    assert(unprefixed(a, named) == tail);
    assert(!text::starts_with(b, named)) by {
        if text::starts_with(b, named) {
            assert(b.subrange(0, 7)[3] == b[3]);
            assert(b[3] == t[0]);
        }
    }
    assert(unprefixed(b, named) == b);
    assert(b.subrange(0, 3) =~= bare);
    assert(b.skip(3) =~= tail);
    assert(unprefixed(b, bare) == tail);
    assert(tail.subrange(tail.len() - 3, tail.len() as int) =~= bare);
    assert(tail.take(tail.len() - 3) =~= t);
    assert(!text::ends_with(t, bare)) by {
        if text::ends_with(t, bare) {
            assert(t.subrange(t.len() - 3, t.len() as int)[2] == t[t.len() - 1]);
        }
    }
    assert(unsuffixed(t, bare) == t);
    assert(unsuffixed(tail, bare) == t);
}

} // verus!
