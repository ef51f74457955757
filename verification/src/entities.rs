//! Entities and events of a video: what a model's replies, read window by
//! window, add up to.

use vstd::prelude::*;

use crate::decode;
use crate::grid;
use crate::json;
use crate::json::{Json, JsonView};
use crate::text;
use crate::spacing;
use crate::text::{chars_of, join_texts, str_is, string_of, trim_of, words_of};
use crate::timestamp::Timestamp;

verus! {

/// What an entity is.
#[derive(Clone, Copy, Debug, PartialEq, Eq, Structural)]
pub enum EntityKind {
    /// A person.
    Person,
    /// A thing.
    Object,
    /// A text.
    Text,
    /// A place.
    Place,
    /// Anything else.
    Concept,
}

/// The kind that a name stands for.
pub open spec fn kind_named(s: Seq<char>) -> EntityKind {
    if s == "person"@ {
        EntityKind::Person
    } else if s == "object"@ {
        EntityKind::Object
    } else if s == "text"@ {
        EntityKind::Text
    } else if s == "place"@ {
        EntityKind::Place
    } else {
        EntityKind::Concept
    }
}

/// The kind that a name stands for.
pub fn kind_of(s: &str) -> (k: EntityKind)
    ensures
        k == kind_named(s@),
{
    if str_is(s, "person") {
        EntityKind::Person
    } else if str_is(s, "object") {
        EntityKind::Object
    } else if str_is(s, "text") {
        EntityKind::Text
    } else if str_is(s, "place") {
        EntityKind::Place
    } else {
        EntityKind::Concept
    }
}

/// The name under which mentions of an entity are brought together: lower case, with single
/// spaces.
pub open spec fn canonical_name(s: Seq<char>) -> Seq<char> {
    spacing::single_spaced(text::lower_text(text::trimmed(s)))
}

/// Names of ASCII characters that differ only in case and in white space have one canonical name;
/// it is in lower case, spaced by single spaces, and its own canonical name.
pub proof fn law_canonical_names(s: Seq<char>, t: Seq<char>)
    requires
        text::all_ascii(s),
        text::all_ascii(t),
    ensures
        canonical_name(canonical_name(s)) == canonical_name(s),
        text::ascii_lower(canonical_name(s)) == canonical_name(s),
        spacing::is_spaced(canonical_name(s)),
        spacing::lower_words(text::words(s)) == spacing::lower_words(text::words(t))
            <==> canonical_name(s) == canonical_name(t),
{
    lemma_canonical(s);
    lemma_canonical(t);
    let c = canonical_name(s);
    let l = text::ascii_lower(text::trimmed(s));
    spacing::lemma_ascii_joined(text::trimmed(s));
    spacing::lemma_ascii_joined(l);
    lemma_canonical(c);
    spacing::law_single_spacing(l, text::ascii_lower(text::trimmed(t)));
    spacing::lemma_lower_twice(text::words(s));
    lemma_lower_joined(spacing::lower_words(text::words(s)));
}

proof fn lemma_canonical(s: Seq<char>)
    requires
        text::all_ascii(s),
    ensures
        canonical_name(s) == spacing::single_spaced(text::ascii_lower(text::trimmed(s))),
        text::all_ascii(text::trimmed(s)),
        text::words(text::ascii_lower(text::trimmed(s))) == spacing::lower_words(text::words(s)),
{
    spacing::lemma_trimmed_words(s);
    spacing::lemma_lower_words(text::trimmed(s));
}

proof fn lemma_lower_joined(ws: Seq<Seq<char>>)
    requires
        spacing::lower_words(ws) == ws,
    ensures
        text::ascii_lower(text::joined(ws, " "@)) == text::joined(ws, " "@),
    decreases ws.len(),
{
    reveal_strlit(" ");
    if ws.len() == 1 {
        assert(spacing::lower_words(ws)[0] == text::ascii_lower(ws[0]));
    } else if ws.len() > 1 {
        let head = ws.drop_last();
        assert(spacing::lower_words(head) =~= spacing::lower_words(ws).drop_last());
        lemma_lower_joined(head);
        assert(spacing::lower_words(ws)[ws.len() - 1] == text::ascii_lower(ws[ws.len() - 1]));
        let a = text::joined(head, " "@);
        let b = ws[ws.len() - 1];
        assert(text::ascii_lower(a + " "@ + b) =~= text::ascii_lower(a) + " "@
            + text::ascii_lower(b));
    } else {
        assert(text::joined(ws, " "@) =~= Seq::<char>::empty());
    }
}

/// Joins the words of a text by single spaces.
pub fn single_space(s: &str) -> (r: String)
    ensures
        r@ == spacing::single_spaced(s@),
{
    let c = chars_of(s);
    let w = words_of(c.as_slice());
    let space: [char; 1] = [' '];
    proof {
        reveal_strlit(" ");
        assert(space@ =~= " "@);
    }
    let j = join_texts(w.as_slice(), &space);
    string_of(j.as_slice())
}

/// The name under which mentions of an entity are brought together.
pub fn canonical(name: &str) -> (r: String)
    ensures
        r@ == canonical_name(name@),
{
    let c = chars_of(name);
    let t = string_of(trim_of(c.as_slice()));
    let low = text::lowercase(t.as_str());
    single_space(low.as_str())
}

/// An entity of a video.
#[derive(Debug)]
pub struct Entity {
    /// What it is.
    pub kind: EntityKind,
    /// Its name as first seen.
    pub name: String,
    /// The name that brings its mentions together.
    pub canonical_name: String,
}

/// Where an entity occurs.
#[derive(Debug)]
pub struct EntityMention {
    /// The entity, by its place among the entities.
    pub entity: usize,
    /// Start.
    pub t0: Timestamp,
    /// End.
    pub t1: Timestamp,
    /// What the mention was read from.
    pub source: u128,
}

/// Something that happens in a video.
#[derive(Debug)]
pub struct VideoEvent {
    /// Start.
    pub t0: Timestamp,
    /// End.
    pub t1: Timestamp,
    /// What happens.
    pub text: String,
    /// The entities that take part, by their places among the entities.
    pub participants: Vec<usize>,
    /// What the event was read from.
    pub source: u128,
}

/// An entity as mathematics.
pub struct EntityView {
    /// What it is.
    pub kind: EntityKind,
    /// Its name.
    pub name: Seq<char>,
    /// Its canonical name.
    pub canonical_name: Seq<char>,
}

/// A mention as mathematics.
pub struct MentionView {
    /// The entity.
    pub entity: int,
    /// Start.
    pub t0: Timestamp,
    /// End.
    pub t1: Timestamp,
    /// The source.
    pub source: u128,
}

/// An event as mathematics.
pub struct EventView {
    /// Start.
    pub t0: Timestamp,
    /// End.
    pub t1: Timestamp,
    /// What happens.
    pub text: Seq<char>,
    /// The entities that take part.
    pub participants: Seq<int>,
    /// The source.
    pub source: u128,
}

impl View for Entity {
    type V = EntityView;

    open spec fn view(&self) -> EntityView {
        EntityView {
            kind: self.kind,
            name: self.name@,
            canonical_name: self.canonical_name@,
        }
    }
}

impl View for EntityMention {
    type V = MentionView;

    open spec fn view(&self) -> MentionView {
        MentionView { entity: self.entity as int, t0: self.t0, t1: self.t1, source: self.source }
    }
}

impl View for VideoEvent {
    type V = EventView;

    open spec fn view(&self) -> EventView {
        EventView {
            t0: self.t0,
            t1: self.t1,
            text: self.text@,
            participants: self.participants@.map_values(|p: usize| p as int),
            source: self.source,
        }
    }
}

/// Entities, mentions and events gathered so far.
#[derive(Debug)]
pub struct Facts {
    /// Entities in the order in which they were first seen.
    pub entities: Vec<Entity>,
    /// Mentions.
    pub mentions: Vec<EntityMention>,
    /// Events.
    pub events: Vec<VideoEvent>,
}

/// Gathered facts as mathematics.
#[verifier::ext_equal]
pub struct FactsView {
    /// Entities.
    pub entities: Seq<EntityView>,
    /// Mentions.
    pub mentions: Seq<MentionView>,
    /// Events.
    pub events: Seq<EventView>,
}

impl View for Facts {
    type V = FactsView;

    open spec fn view(&self) -> FactsView {
        FactsView {
            entities: self.entities@.map_values(|e: Entity| e@),
            mentions: self.mentions@.map_values(|m: EntityMention| m@),
            events: self.events@.map_values(|e: VideoEvent| e@),
        }
    }
}

/// The place of the entity with a canonical name, from `i` on.
pub open spec fn entity_from(es: Seq<EntityView>, key: Seq<char>, i: int) -> Option<int>
    decreases es.len() - i,
{
    if i < 0 || i >= es.len() {
        None
    } else if es[i].canonical_name == key {
        Some(i)
    } else {
        entity_from(es, key, i + 1)
    }
}

/// The time under a key, in milliseconds.
pub open spec fn time_under(v: JsonView, k: Seq<char>) -> Option<Timestamp> {
    match v.get_num(k) {
        Some((t, n)) => Some(
            Timestamp { num: json::to_ticks(json::time_nanos(t, n), 1_000_000) as i64, den: 1000 },
        ),
        None => None,
    }
}

/// The later of two times in milliseconds.
pub open spec fn later(a: Timestamp, b: Timestamp) -> Timestamp {
    if a.num > b.num {
        a
    } else {
        b
    }
}

/// Facts with one more mention of an entity, if the mention has both times.
pub open spec fn with_mention(f: FactsView, m: JsonView, entity: int, source: u128) -> FactsView {
    match (time_under(m, "t0"@), time_under(m, "t1"@)) {
        (Some(a), Some(b)) => FactsView {
            mentions: f.mentions.push(MentionView { entity, t0: a, t1: later(a, b), source }),
            ..f
        },
        _ => f,
    }
}

/// Facts with the mentions of an entity.
pub open spec fn with_mentions(
    f: FactsView,
    ms: Seq<JsonView>,
    entity: int,
    source: u128,
) -> FactsView
    decreases ms.len(),
{
    if ms.len() == 0 {
        f
    } else {
        with_mention(with_mentions(f, ms.drop_last(), entity, source), ms.last(), entity, source)
    }
}

/// The entity that a reply describes.
pub open spec fn described_entity(e: JsonView, name: Seq<char>) -> EntityView {
    EntityView {
        kind: kind_named(
            match e.get_str("kind"@) {
                Some(k) => k,
                None => "concept"@,
            },
        ),
        name: text::trimmed(name),
        canonical_name: canonical_name(name),
    }
}

/// Facts with one more entity and its mentions; an entity seen before only gets the mentions. An
/// entity without a name is passed over.
pub open spec fn with_entity(f: FactsView, e: JsonView, source: u128) -> FactsView {
    match e.get_str("name"@) {
        Some(name) => if text::trimmed(name).len() == 0 {
            f
        } else {
            let ms = e.get_array("mentions"@);
            match entity_from(f.entities, canonical_name(name), 0) {
                Some(i) => with_mentions(f, ms, i, source),
                None => with_mentions(
                    FactsView { entities: f.entities.push(described_entity(e, name)), ..f },
                    ms,
                    f.entities.len() as int,
                    source,
                ),
            }
        },
        None => f,
    }
}

/// Facts with the entities of a reply.
pub open spec fn with_entities(f: FactsView, es: Seq<JsonView>, source: u128) -> FactsView
    decreases es.len(),
{
    if es.len() == 0 {
        f
    } else {
        with_entity(with_entities(f, es.drop_last(), source), es.last(), source)
    }
}

/// The entities that take part in an event: those named that are known.
pub open spec fn participants_of(es: Seq<EntityView>, ps: Seq<JsonView>) -> Seq<int>
    decreases ps.len(),
{
    if ps.len() == 0 {
        Seq::empty()
    } else {
        let rest = participants_of(es, ps.drop_last());
        match ps.last() {
            JsonView::Str(p) => match entity_from(es, canonical_name(p), 0) {
                Some(i) => rest.push(i),
                None => rest,
            },
            _ => rest,
        }
    }
}

/// Facts with one more event, if it has both times and a text.
pub open spec fn with_event(f: FactsView, ev: JsonView, source: u128) -> FactsView {
    match (time_under(ev, "t0"@), time_under(ev, "t1"@), ev.get_str("text"@)) {
        (Some(a), Some(b), Some(t)) => FactsView {
            events: f.events.push(
                EventView {
                    t0: a,
                    t1: later(a, b),
                    text: text::trimmed(t),
                    participants: participants_of(f.entities, ev.get_array("participants"@)),
                    source,
                },
            ),
            ..f
        },
        _ => f,
    }
}

/// Facts with the events of a reply.
pub open spec fn with_events(f: FactsView, evs: Seq<JsonView>, source: u128) -> FactsView
    decreases evs.len(),
{
    if evs.len() == 0 {
        f
    } else {
        with_event(with_events(f, evs.drop_last(), source), evs.last(), source)
    }
}

/// Facts with all that a reply holds.
pub open spec fn absorbed(f: FactsView, v: JsonView, source: u128) -> FactsView {
    with_events(
        with_entities(f, v.get_array("entities"@), source),
        v.get_array("events"@),
        source,
    )
}

fn time_of(v: &Json, k: &str) -> (r: Option<Timestamp>)
    ensures
        r == time_under(v@, k@),
{
    match v.get_num(k) {
        Some(n) => Some(Timestamp::new(n.ticks(1_000_000), 1000)),
        None => None,
    }
}

impl Facts {
    /// No facts.
    pub fn new() -> (f: Facts)
        ensures
            f@ == (FactsView {
                entities: Seq::empty(),
                mentions: Seq::empty(),
                events: Seq::empty(),
            }),
    {
        let f = Facts { entities: Vec::new(), mentions: Vec::new(), events: Vec::new() };
        proof {
            assert(f@ =~= FactsView {
                entities: Seq::empty(),
                mentions: Seq::empty(),
                events: Seq::empty(),
            });
        }
        f
    }

    fn find(&self, key: &str) -> (r: Option<usize>)
        ensures
            match r {
                Some(i) => entity_from(self@.entities, key@, 0) == Some(i as int) && i
                    < self.entities@.len(),
                None => entity_from(self@.entities, key@, 0) is None,
            },
    {
        let mut i: usize = 0;
        while i < self.entities.len()
            invariant
                i <= self.entities@.len(),
                entity_from(self@.entities, key@, 0) == entity_from(
                    self@.entities,
                    key@,
                    i as int,
                ),
            decreases self.entities@.len() - i,
        {
            proof {
                assert(self@.entities[i as int] == self.entities@[i as int]@);
            }
            if str_is(self.entities[i].canonical_name.as_str(), key) {
                return Some(i);
            }
            i = i + 1;
        }
        None
    }

    fn add_mentions(&mut self, ms: &Vec<Json>, entity: usize, source: u128)
        ensures
            final(self)@ == with_mentions(
                old(self)@,
                json::json_views(ms@),
                entity as int,
                source,
            ),
            final(self).entities == old(self).entities,
    {
        let ghost all = json::json_views(ms@);
        let ghost start = self@;
        let mut i: usize = 0;
        proof {
            assert(all.take(0) =~= Seq::<JsonView>::empty());
        }
        while i < ms.len()
            invariant
                i <= ms@.len(),
                all == json::json_views(ms@),
                self.entities == old(self).entities,
                self@ == with_mentions(start, all.take(i as int), entity as int, source),
            decreases ms@.len() - i,
        {
            let m = &ms[i];
            proof {
                assert(all.take(i + 1).drop_last() =~= all.take(i as int));
                assert(all.take(i + 1).last() == m@);
            }
            let ghost before = self@;
            match (time_of(m, "t0"), time_of(m, "t1")) {
                (Some(a), Some(b)) => {
                    let t1 = if a.num > b.num {
                        a
                    } else {
                        b
                    };
                    self.mentions.push(EntityMention { entity, t0: a, t1, source });
                },
                _ => {},
            }
            proof {
                assert(self@ =~= with_mention(before, m@, entity as int, source));
            }
            i = i + 1;
        }
        proof {
            assert(all.take(i as int) =~= all);
        }
    }

    fn add_entity(&mut self, e: &Json, source: u128)
        ensures
            final(self)@ == with_entity(old(self)@, e@, source),
    {
        let name: &String = match e.get_str("name") {
            Some(n) => n,
            None => {
                return ;
            },
        };
        let c = chars_of(name.as_str());
        let t = trim_of(c.as_slice());
        if t.len() == 0 {
            return ;
        }
        let key = canonical(name.as_str());
        let ghost before = self@;
        let place: usize = match self.find(key.as_str()) {
            Some(i) => i,
            None => {
                let kind = match e.get_str("kind") {
                    Some(k) => kind_of(k.as_str()),
                    None => kind_of("concept"),
                };
                let n: usize = self.entities.len();
                let entity = Entity { kind, name: string_of(t), canonical_name: key };
                self.entities.push(entity);
                proof {
                    assert(self@.entities =~= before.entities.push(
                        described_entity(e@, name@),
                    ));
                    assert(self@ =~= FactsView {
                        entities: before.entities.push(described_entity(e@, name@)),
                        ..before
                    });
                }
                n
            },
        };
        match e.get_array("mentions") {
            Some(ms) => self.add_mentions(ms, place, source),
            None => {},
        }
    }

    fn participants(&self, ps: &Vec<Json>) -> (r: Vec<usize>)
        ensures
            r@.map_values(|p: usize| p as int) == participants_of(
                self@.entities,
                json::json_views(ps@),
            ),
    {
        let ghost all = json::json_views(ps@);
        let mut out: Vec<usize> = Vec::new();
        let mut i: usize = 0;
        proof {
            assert(all.take(0) =~= Seq::<JsonView>::empty());
            assert(out@.map_values(|p: usize| p as int) =~= Seq::<int>::empty());
        }
        while i < ps.len()
            invariant
                i <= ps@.len(),
                all == json::json_views(ps@),
                out@.map_values(|p: usize| p as int) == participants_of(
                    self@.entities,
                    all.take(i as int),
                ),
            decreases ps@.len() - i,
        {
            let p = &ps[i];
            proof {
                assert(all.take(i + 1).drop_last() =~= all.take(i as int));
                assert(all.take(i + 1).last() == p@);
            }
            let ghost before = out@;
            match p {
                Json::Str(s) => {
                    let key = canonical(s.as_str());
                    match self.find(key.as_str()) {
                        Some(k) => {
                            out.push(k);
                            proof {
                                assert(out@.map_values(|p: usize| p as int) =~= before.map_values(
                                    |p: usize| p as int,
                                ).push(k as int));
                            }
                        },
                        None => {},
                    }
                },
                _ => {},
            }
            i = i + 1;
        }
        proof {
            assert(all.take(i as int) =~= all);
        }
        out
    }

    fn add_event(&mut self, ev: &Json, source: u128)
        ensures
            final(self)@ == with_event(old(self)@, ev@, source),
    {
        let ghost before = self@;
        match (time_of(ev, "t0"), time_of(ev, "t1"), ev.get_str("text")) {
            (Some(a), Some(b), Some(t)) => {
                let participants: Vec<usize> = match ev.get_array("participants") {
                    Some(ps) => self.participants(ps),
                    None => {
                        let none: Vec<usize> = Vec::new();
                        proof {
                            assert(none@.map_values(|p: usize| p as int) =~= Seq::<int>::empty());
                        }
                        none
                    },
                };
                let t1 = if a.num > b.num {
                    a
                } else {
                    b
                };
                let c = chars_of(t.as_str());
                let said = string_of(trim_of(c.as_slice()));
                self.events.push(VideoEvent { t0: a, t1, text: said, participants, source });
            },
            _ => {},
        }
        proof {
            assert(self@ =~= with_event(before, ev@, source));
        }
    }

    /// Adds all that a reply holds: its entities with their mentions, then its events.
    pub fn absorb(&mut self, v: &Json, source: u128)
        ensures
            final(self)@ == absorbed(old(self)@, v@, source),
    {
        let ghost start = self@;
        match v.get_array("entities") {
            Some(es) => {
                let ghost all = json::json_views(es@);
                let mut i: usize = 0;
                proof {
                    assert(all.take(0) =~= Seq::<JsonView>::empty());
                }
                while i < es.len()
                    invariant
                        i <= es@.len(),
                        all == json::json_views(es@),
                        self@ == with_entities(start, all.take(i as int), source),
                    decreases es@.len() - i,
                {
                    proof {
                        assert(all.take(i + 1).drop_last() =~= all.take(i as int));
                        assert(all.take(i + 1).last() == es@[i as int]@);
                    }
                    self.add_entity(&es[i], source);
                    i = i + 1;
                }
                proof {
                    assert(all.take(i as int) =~= all);
                }
            },
            None => {},
        }
        let ghost middle = self@;
        match v.get_array("events") {
            Some(evs) => {
                let ghost all = json::json_views(evs@);
                let mut i: usize = 0;
                proof {
                    assert(all.take(0) =~= Seq::<JsonView>::empty());
                }
                while i < evs.len()
                    invariant
                        i <= evs@.len(),
                        all == json::json_views(evs@),
                        self@ == with_events(middle, all.take(i as int), source),
                    decreases evs@.len() - i,
                {
                    proof {
                        assert(all.take(i + 1).drop_last() =~= all.take(i as int));
                        assert(all.take(i + 1).last() == evs@[i as int]@);
                    }
                    self.add_event(&evs[i], source);
                    i = i + 1;
                }
                proof {
                    assert(all.take(i as int) =~= all);
                }
            },
            None => {},
        }
    }
}

/// No two entities share a canonical name, and mentions and events speak of entities that are
/// there.
pub open spec fn consistent(f: FactsView) -> bool {
    &&& distinct_names(f.entities)
    &&& forall|i: int|
        0 <= i < f.mentions.len() ==> 0 <= (#[trigger] f.mentions[i]).entity < f.entities.len()
    &&& forall|i: int|
        0 <= i < f.events.len() ==> within(
            (#[trigger] f.events[i]).participants,
            f.entities.len() as int,
        )
}

/// No two entities share a canonical name.
pub open spec fn distinct_names(es: Seq<EntityView>) -> bool {
    forall|i: int, j: int|
        0 <= i < j < es.len() ==> (#[trigger] es[i]).canonical_name != (
        #[trigger] es[j]).canonical_name
}

/// All places lie below `n`.
pub open spec fn within(ps: Seq<int>, n: int) -> bool {
    forall|i: int| 0 <= i < ps.len() ==> 0 <= #[trigger] ps[i] < n
}

proof fn lemma_entity_from(es: Seq<EntityView>, key: Seq<char>, i: int)
    requires
        0 <= i,
    ensures
        match entity_from(es, key, i) {
            Some(k) => i <= k < es.len() && es[k].canonical_name == key,
            None => forall|k: int| i <= k < es.len() ==> (#[trigger] es[k]).canonical_name != key,
        },
    decreases es.len() - i,
{
    if i < es.len() {
        lemma_entity_from(es, key, i + 1);
    }
}

proof fn lemma_mentions_stay_consistent(
    f: FactsView,
    ms: Seq<JsonView>,
    entity: int,
    source: u128,
)
    requires
        consistent(f),
        0 <= entity < f.entities.len(),
    ensures
        consistent(with_mentions(f, ms, entity, source)),
        with_mentions(f, ms, entity, source).entities == f.entities,
    decreases ms.len(),
{
    if ms.len() > 0 {
        lemma_mentions_stay_consistent(f, ms.drop_last(), entity, source);
    }
}

proof fn lemma_entity_stays_consistent(f: FactsView, e: JsonView, source: u128)
    requires
        consistent(f),
    ensures
        consistent(with_entity(f, e, source)),
{
    match e.get_str("name"@) {
        Some(name) => {
            if text::trimmed(name).len() > 0 {
                let key = canonical_name(name);
                let ms = e.get_array("mentions"@);
                lemma_entity_from(f.entities, key, 0);
                match entity_from(f.entities, key, 0) {
                    Some(i) => {
                        lemma_mentions_stay_consistent(f, ms, i, source);
                    },
                    None => {
                        let g = FactsView {
                            entities: f.entities.push(described_entity(e, name)),
                            ..f
                        };
                        assert forall|i: int| 0 <= i < g.events.len() implies within(
                            (#[trigger] g.events[i]).participants,
                            g.entities.len() as int,
                        ) by {
                            assert(within(f.events[i].participants, f.entities.len() as int));
                        }
                        lemma_mentions_stay_consistent(g, ms, f.entities.len() as int, source);
                    },
                }
            }
        },
        None => {},
    }
}

proof fn lemma_participants_are_known(es: Seq<EntityView>, ps: Seq<JsonView>)
    ensures
        within(participants_of(es, ps), es.len() as int),
    decreases ps.len(),
{
    if ps.len() > 0 {
        lemma_participants_are_known(es, ps.drop_last());
        if let JsonView::Str(p) = ps.last() {
            lemma_entity_from(es, canonical_name(p), 0);
        }
    }
}

proof fn lemma_entities_stay_consistent(f: FactsView, es: Seq<JsonView>, source: u128)
    requires
        consistent(f),
    ensures
        consistent(with_entities(f, es, source)),
    decreases es.len(),
{
    if es.len() > 0 {
        lemma_entities_stay_consistent(f, es.drop_last(), source);
        lemma_entity_stays_consistent(
            with_entities(f, es.drop_last(), source),
            es.last(),
            source,
        );
    }
}

proof fn lemma_events_stay_consistent(f: FactsView, evs: Seq<JsonView>, source: u128)
    requires
        consistent(f),
    ensures
        consistent(with_events(f, evs, source)),
    decreases evs.len(),
{
    if evs.len() > 0 {
        lemma_events_stay_consistent(f, evs.drop_last(), source);
        let g = with_events(f, evs.drop_last(), source);
        lemma_participants_are_known(g.entities, evs.last().get_array("participants"@));
    }
}

/// Entities are brought together by canonical name across the whole video: whatever a reply
/// holds, no two entities share a name afterwards, and every mention and every participant of an
/// event is an entity that is there.
pub proof fn law_facts_stay_consistent(f: FactsView, v: JsonView, source: u128)
    requires
        consistent(f),
    ensures
        consistent(absorbed(f, v, source)),
{
    lemma_entities_stay_consistent(f, v.get_array("entities"@), source);
    lemma_events_stay_consistent(
        with_entities(f, v.get_array("entities"@), source),
        v.get_array("events"@),
        source,
    );
}

/// Facts kept all that was there, in its place: the entities, the mentions and the events.
pub open spec fn keeps(f: FactsView, g: FactsView) -> bool {
    &&& f.entities.len() <= g.entities.len()
    &&& forall|i: int| 0 <= i < f.entities.len() ==> #[trigger] g.entities[i] == f.entities[i]
    &&& f.mentions.len() <= g.mentions.len()
    &&& forall|i: int| 0 <= i < f.mentions.len() ==> #[trigger] g.mentions[i] == f.mentions[i]
    &&& f.events.len() <= g.events.len()
    &&& forall|i: int| 0 <= i < f.events.len() ==> #[trigger] g.events[i] == f.events[i]
}

/// Mentions are taken one by one, in their order. One with both times adds one mention of the
/// entity it is for, which ends no sooner than it starts; one without adds nothing.
pub proof fn law_mentions_come_one_by_one(
    f: FactsView,
    a: Seq<JsonView>,
    b: Seq<JsonView>,
    m: JsonView,
    entity: int,
    source: u128,
)
    ensures
        with_mentions(f, a + b, entity, source) == with_mentions(
            with_mentions(f, a, entity, source),
            b,
            entity,
            source,
        ),
        with_mentions(f, seq![m], entity, source) == (match (
            time_under(m, "t0"@),
            time_under(m, "t1"@),
        ) {
            (Some(t0), Some(t1)) => FactsView {
                mentions: f.mentions.push(
                    MentionView {
                        entity,
                        t0,
                        t1: if t0.num <= t1.num {
                            t1
                        } else {
                            t0
                        },
                        source,
                    },
                ),
                ..f
            },
            _ => f,
        }),
    decreases b.len(),
{
    reveal_with_fuel(with_mentions, 2);
    assert(seq![m].drop_last() =~= Seq::<JsonView>::empty());
    if b.len() == 0 {
        assert(a + b =~= a);
    } else {
        law_mentions_come_one_by_one(f, a, b.drop_last(), m, entity, source);
        assert((a + b).drop_last() =~= a + b.drop_last());
    }
}

proof fn lemma_mentions_added(f: FactsView, ms: Seq<JsonView>, entity: int, source: u128)
    ensures
        ({
            let g = with_mentions(f, ms, entity, source);
            &&& keeps(f, g)
            &&& g.entities == f.entities
            &&& g.events == f.events
            &&& g.mentions.len() <= f.mentions.len() + ms.len()
            &&& forall|i: int|
                f.mentions.len() <= i < g.mentions.len() ==> (#[trigger] g.mentions[i]).entity
                    == entity && g.mentions[i].source == source && g.mentions[i].t0.num
                    <= g.mentions[i].t1.num
        }),
    decreases ms.len(),
{
    if ms.len() > 0 {
        lemma_mentions_added(f, ms.drop_last(), entity, source);
    }
}

/// Every mention that an entity of a reply adds belongs to the entity with its name: the first
/// that had it, or a new one with this name and kind where none had. What was there before stays.
pub proof fn law_mentions_belong_to_their_entity(
    f: FactsView,
    e: JsonView,
    name: Seq<char>,
    source: u128,
)
    requires
        e.get_str("name"@) == Some(name),
        exists|i: int| 0 <= i < name.len() && !text::whitespace(#[trigger] name[i]),
    ensures
        ({
            let g = with_entity(f, e, source);
            &&& keeps(f, g)
            &&& g.events == f.events
            &&& forall|i: int|
                f.mentions.len() <= i < g.mentions.len() ==> 0 <= (#[trigger] g.mentions[i]).entity
                    < g.entities.len() && g.entities[g.mentions[i].entity].canonical_name
                    == canonical_name(name) && g.mentions[i].source == source
                    && g.mentions[i].t0.num <= g.mentions[i].t1.num
            &&& (exists|i: int|
                0 <= i < f.entities.len() && (#[trigger] f.entities[i]).canonical_name
                    == canonical_name(name)) ==> g.entities == f.entities
            &&& (forall|i: int|
                0 <= i < f.entities.len() ==> (#[trigger] f.entities[i]).canonical_name
                    != canonical_name(name)) ==> g.entities.len() == f.entities.len() + 1
                && g.entities.last().canonical_name == canonical_name(name)
                && g.entities.last().name == text::trimmed(name)
            &&& exists|k: int|
                0 <= k < g.entities.len() && (#[trigger] g.entities[k]).canonical_name
                    == canonical_name(name) && (forall|j: int|
                    0 <= j < k ==> (#[trigger] g.entities[j]).canonical_name != canonical_name(
                        name,
                    )) && g.mentions == with_mentions(
                    f,
                    e.get_array("mentions"@),
                    k,
                    source,
                ).mentions
        }),
{
    text::law_trimming(name);
    let key = canonical_name(name);
    let ms = e.get_array("mentions"@);
    lemma_entity_from(f.entities, key, 0);
    let g = with_entity(f, e, source);
    match entity_from(f.entities, key, 0) {
        Some(k) => {
            lemma_first_entity(f.entities, key, 0);
            lemma_mentions_added(f, ms, k, source);
            assert(g.entities[k].canonical_name == key);
            assert forall|j: int| 0 <= j < k implies (#[trigger] g.entities[j]).canonical_name
                != key by {
                assert(f.entities[j].canonical_name != key);
            }
        },
        None => {
            let h = FactsView { entities: f.entities.push(described_entity(e, name)), ..f };
            let k = f.entities.len() as int;
            lemma_mentions_added(h, ms, k, source);
            lemma_mentions_ignore_entities(f, h, ms, k, source);
            assert(g.entities[k].canonical_name == key);
            assert forall|j: int| 0 <= j < k implies (#[trigger] g.entities[j]).canonical_name
                != key by {
                assert(f.entities[j].canonical_name != key);
            }
        },
    }
}

proof fn lemma_first_entity(es: Seq<EntityView>, key: Seq<char>, i: int)
    requires
        0 <= i,
    ensures
        entity_from(es, key, i) matches Some(k) ==> forall|j: int|
            i <= j < k ==> (#[trigger] es[j]).canonical_name != key,
    decreases es.len() - i,
{
    if i < es.len() && es[i].canonical_name != key {
        lemma_first_entity(es, key, i + 1);
    }
}

proof fn lemma_mentions_ignore_entities(
    f: FactsView,
    h: FactsView,
    ms: Seq<JsonView>,
    k: int,
    source: u128,
)
    requires
        f.mentions == h.mentions,
    ensures
        with_mentions(f, ms, k, source).mentions == with_mentions(h, ms, k, source).mentions,
    decreases ms.len(),
{
    if ms.len() > 0 {
        lemma_mentions_ignore_entities(f, h, ms.drop_last(), k, source);
    }
}

/// An entity without a name, or with a blank one, is passed over.
pub proof fn law_nameless_entities_are_passed_over(f: FactsView, e: JsonView, source: u128)
    requires
        match e.get_str("name"@) {
            Some(n) => forall|i: int| 0 <= i < n.len() ==> text::whitespace(#[trigger] n[i]),
            None => true,
        },
    ensures
        with_entity(f, e, source) == f,
{
    if let Some(n) = e.get_str("name"@) {
        text::law_trimming(n);
    }
}

/// Entities are taken one by one, in their order.
pub proof fn law_entities_come_one_by_one(
    f: FactsView,
    a: Seq<JsonView>,
    b: Seq<JsonView>,
    e: JsonView,
    source: u128,
)
    ensures
        with_entities(f, a + b, source) == with_entities(with_entities(f, a, source), b, source),
        with_entities(f, seq![e], source) == with_entity(f, e, source),
    decreases b.len(),
{
    reveal_with_fuel(with_entities, 2);
    assert(seq![e].drop_last() =~= Seq::<JsonView>::empty());
    if b.len() == 0 {
        assert(a + b =~= a);
    } else {
        law_entities_come_one_by_one(f, a, b.drop_last(), e, source);
        assert((a + b).drop_last() =~= a + b.drop_last());
    }
}

/// Some of the entities that a reply describes has a canonical name.
pub open spec fn names(es: Seq<JsonView>, key: Seq<char>) -> bool {
    exists|j: int|
        0 <= j < es.len() && (#[trigger] es[j]).get_str("name"@) is Some && canonical_name(
            es[j].get_str("name"@)->0,
        ) == key
}

proof fn lemma_entities_added(f: FactsView, es: Seq<JsonView>, source: u128)
    ensures
        ({
            let g = with_entities(f, es, source);
            &&& keeps(f, g)
            &&& g.events == f.events
            &&& forall|i: int|
                f.entities.len() <= i < g.entities.len() ==> names(
                    es,
                    (#[trigger] g.entities[i]).canonical_name,
                )
            &&& forall|i: int|
                f.mentions.len() <= i < g.mentions.len() ==> 0 <= (#[trigger] g.mentions[i]).entity
                    < g.entities.len() && names(
                    es,
                    g.entities[g.mentions[i].entity].canonical_name,
                ) && g.mentions[i].source == source
        }),
    decreases es.len(),
{
    if es.len() > 0 {
        let head = es.drop_last();
        let e = es.last();
        lemma_entities_added(f, head, source);
        let h = with_entities(f, head, source);
        let g = with_entities(f, es, source);
        assert forall|key: Seq<char>| #[trigger] names(head, key) implies names(es, key) by {
            let j = choose|j: int|
                0 <= j < head.len() && (#[trigger] head[j]).get_str("name"@) is Some
                    && canonical_name(head[j].get_str("name"@)->0) == key;
            assert(es[j] == head[j]);
        }
        match e.get_str("name"@) {
            Some(name) => {
                text::law_trimming(name);
                if text::trimmed(name).len() > 0 {
                    law_mentions_belong_to_their_entity(h, e, name, source);
                    assert(es[es.len() - 1] == e);
                    assert(names(es, canonical_name(name)));
                    assert forall|i: int|
                        f.entities.len() <= i < g.entities.len() implies names(
                        es,
                        (#[trigger] g.entities[i]).canonical_name,
                    ) by {
                        if i < h.entities.len() {
                            assert(g.entities[i] == h.entities[i]);
                            assert(names(head, h.entities[i].canonical_name));
                        } else {
                            assert(g.entities.len() == h.entities.len() + 1);
                        }
                    }
                    assert forall|i: int|
                        f.mentions.len() <= i < g.mentions.len() implies 0 <= (
                    #[trigger] g.mentions[i]).entity < g.entities.len() && names(
                        es,
                        g.entities[g.mentions[i].entity].canonical_name,
                    ) && g.mentions[i].source == source by {
                        if i < h.mentions.len() {
                            assert(g.mentions[i] == h.mentions[i]);
                            assert(g.entities[g.mentions[i].entity]
                                == h.entities[g.mentions[i].entity]);
                        }
                    }
                }
            },
            None => {},
        }
    }
}

proof fn lemma_events_added(f: FactsView, evs: Seq<JsonView>, source: u128)
    ensures
        keeps(f, with_events(f, evs, source)),
        with_events(f, evs, source).entities == f.entities,
        with_events(f, evs, source).mentions == f.mentions,
        forall|i: int|
            f.events.len() <= i < with_events(f, evs, source).events.len() ==> (
            #[trigger] with_events(f, evs, source).events[i]).source == source,
    decreases evs.len(),
{
    if evs.len() > 0 {
        lemma_events_added(f, evs.drop_last(), source);
    }
}

/// A reply adds to what is there and changes none of it. Every entity that it adds has the name of
/// one that it describes, and so has the entity of every mention that it adds; all that it adds
/// is read from the given source.
pub proof fn law_replies_add_what_they_name(f: FactsView, v: JsonView, source: u128)
    ensures
        ({
            let g = absorbed(f, v, source);
            let es = v.get_array("entities"@);
            &&& keeps(f, g)
            &&& forall|i: int|
                f.entities.len() <= i < g.entities.len() ==> names(
                    es,
                    (#[trigger] g.entities[i]).canonical_name,
                )
            &&& forall|i: int|
                f.mentions.len() <= i < g.mentions.len() ==> 0 <= (#[trigger] g.mentions[i]).entity
                    < g.entities.len() && names(
                    es,
                    g.entities[g.mentions[i].entity].canonical_name,
                ) && g.mentions[i].source == source
            &&& forall|i: int|
                f.events.len() <= i < g.events.len() ==> (#[trigger] g.events[i]).source == source
        }),
{
    let es = v.get_array("entities"@);
    lemma_entities_added(f, es, source);
    lemma_events_added(with_entities(f, es, source), v.get_array("events"@), source);
}

/// A reply that describes one entity gives all its mentions to the entity with that name.
pub proof fn law_one_entity_takes_all_mentions(
    f: FactsView,
    v: JsonView,
    e: JsonView,
    name: Seq<char>,
    source: u128,
    i: int,
)
    requires
        v.get_array("entities"@) == seq![e],
        e.get_str("name"@) == Some(name),
        f.mentions.len() <= i < absorbed(f, v, source).mentions.len(),
    ensures
        ({
            let g = absorbed(f, v, source);
            g.entities[g.mentions[i].entity].canonical_name == canonical_name(name)
        }),
{
    law_replies_add_what_they_name(f, v, source);
    let g = absorbed(f, v, source);
    let key = g.entities[g.mentions[i].entity].canonical_name;
    let es = v.get_array("entities"@);
    let j = choose|j: int|
        0 <= j < es.len() && (#[trigger] es[j]).get_str("name"@) is Some && canonical_name(
            es[j].get_str("name"@)->0,
        ) == key;
    assert(es[j] == e);
}

/// Those who take part in an event are taken one by one, in their order: a name that is that of
/// an entity adds the first entity with it, any other adds nobody.
pub proof fn law_participants_are_found_by_name(
    es: Seq<EntityView>,
    a: Seq<JsonView>,
    b: Seq<JsonView>,
    p: Seq<char>,
    k: int,
)
    ensures
        participants_of(es, a + b) == participants_of(es, a) + participants_of(es, b),
        0 <= k < es.len() && es[k].canonical_name == canonical_name(p) && (forall|j: int|
            0 <= j < k ==> (#[trigger] es[j]).canonical_name != canonical_name(p))
            ==> participants_of(es, seq![JsonView::Str(p)]) == seq![k],
        (forall|j: int| 0 <= j < es.len() ==> (#[trigger] es[j]).canonical_name != canonical_name(p))
            ==> participants_of(es, seq![JsonView::Str(p)]) == Seq::<int>::empty(),
    decreases b.len(),
{
    reveal_with_fuel(participants_of, 2);
    let one = seq![JsonView::Str(p)];
    let key = canonical_name(p);
    assert(one.drop_last() =~= Seq::<JsonView>::empty());
    lemma_entity_from(es, key, 0);
    lemma_first_entity(es, key, 0);
    match entity_from(es, key, 0) {
        Some(i) => {
            assert(participants_of(es, one) =~= seq![i]);
            if 0 <= k < es.len() && es[k].canonical_name == key && i != k {
                if i < k {
                    assert(es[i].canonical_name == key);
                } else {
                    assert(es[k].canonical_name != key);
                }
            }
        },
        None => {},
    }
    if b.len() == 0 {
        assert(a + b =~= a);
        assert(participants_of(es, a) + participants_of(es, b) =~= participants_of(es, a));
    } else {
        law_participants_are_found_by_name(es, a, b.drop_last(), p, k);
        assert((a + b).drop_last() =~= a + b.drop_last());
        assert(participants_of(es, a + b) =~= participants_of(es, a) + participants_of(es, b));
    }
}

/// Events are taken one by one, in their order. One with both times and a text adds one event,
/// which ends no sooner than it starts; any other adds nothing.
pub proof fn law_events_come_one_by_one(
    f: FactsView,
    a: Seq<JsonView>,
    b: Seq<JsonView>,
    ev: JsonView,
    source: u128,
)
    ensures
        with_events(f, a + b, source) == with_events(with_events(f, a, source), b, source),
        with_events(f, seq![ev], source) == with_event(f, ev, source),
        match (time_under(ev, "t0"@), time_under(ev, "t1"@), ev.get_str("text"@)) {
            (Some(t0), Some(t1), Some(t)) => {
                let g = with_event(f, ev, source);
                &&& keeps(f, g)
                &&& g.entities == f.entities
                &&& g.mentions == f.mentions
                &&& g.events.len() == f.events.len() + 1
                &&& g.events.last().t0 == t0
                &&& g.events.last().t0.num <= g.events.last().t1.num
                &&& t0.num <= t1.num ==> g.events.last().t1 == t1
                &&& g.events.last().text == text::trimmed(t)
                &&& g.events.last().participants == participants_of(
                    f.entities,
                    ev.get_array("participants"@),
                )
                &&& g.events.last().source == source
            },
            _ => with_event(f, ev, source) == f,
        },
    decreases b.len(),
{
    reveal_with_fuel(with_events, 2);
    assert(seq![ev].drop_last() =~= Seq::<JsonView>::empty());
    if b.len() == 0 {
        assert(a + b =~= a);
    } else {
        law_events_come_one_by_one(f, a, b.drop_last(), ev, source);
        assert((a + b).drop_last() =~= a + b.drop_last());
    }
}

/// `r` holds every place below `n` once.
pub open spec fn every_place(r: Seq<usize>, n: int) -> bool {
    &&& r.len() == n
    &&& forall|i: int| 0 <= i < n ==> 0 <= (#[trigger] r[i]) < n
    &&& forall|i: int, j: int| 0 <= i < j < n ==> #[trigger] r[i] != #[trigger] r[j]
}

/// Places in the order of the entities' canonical names.
pub open spec fn by_name(es: Seq<EntityView>, r: Seq<usize>) -> bool {
    forall|i: int, j: int|
        0 <= i < j < r.len() ==> text::lex_lt(
            es[(#[trigger] r[i]) as int].canonical_name,
            es[(#[trigger] r[j]) as int].canonical_name,
        )
}

impl Facts {
    /// The order in which entities are stored: by canonical name.
    pub fn stored_order(&self) -> (r: Vec<usize>)
        requires
            consistent(self@),
        ensures
            every_place(r@, self.entities@.len() as int),
            by_name(self@.entities, r@),
    {
        let ghost es = self@.entities;
        let mut out: Vec<usize> = Vec::new();
        let mut k: usize = 0;
        while k < self.entities.len()
            invariant
                k <= self.entities@.len(),
                es == self@.entities,
                consistent(self@),
                every_place(out@, k as int),
                by_name(es, out@),
            decreases self.entities@.len() - k,
        {
            let key = chars_of(self.entities[k].canonical_name.as_str());
            let ghost name = es[k as int].canonical_name;
            let ghost before = out@;
            let mut i: usize = 0;
            while i < out.len()
                invariant
                    i <= out@.len(),
                    k < self.entities@.len(),
                    out@ == before,
                    es == self@.entities,
                    distinct_names(es),
                    key@ == name,
                    name == es[k as int].canonical_name,
                    every_place(out@, k as int),
                    forall|j: int|
                        0 <= j < i ==> text::lex_lt(
                            es[(#[trigger] out@[j]) as int].canonical_name,
                            name,
                        ),
                ensures
                    i <= out@.len(),
                    out@ == before,
                    forall|j: int|
                        0 <= j < i ==> text::lex_lt(
                            es[(#[trigger] out@[j]) as int].canonical_name,
                            name,
                        ),
                    i < out@.len() ==> text::lex_lt(
                        name,
                        es[out@[i as int] as int].canonical_name,
                    ),
                decreases out@.len() - i,
            {
                let other = chars_of(self.entities[out[i]].canonical_name.as_str());
                proof {
                    assert(es[out@[i as int] as int] == self.entities@[out@[i as int] as int]@);
                    assert(es[out@[i as int] as int].canonical_name != name);
                    text::lemma_lex_total(other@, key@);
                }
                if !text::lex_less(other.as_slice(), key.as_slice()) {
                    break;
                }
                i = i + 1;
            }
            out.insert(i, k);
            proof {
                assert(out@ =~= before.insert(i as int, k));
                assert forall|a: int, b: int| 0 <= a < b < out@.len() implies text::lex_lt(
                    es[(#[trigger] out@[a]) as int].canonical_name,
                    es[(#[trigger] out@[b]) as int].canonical_name,
                ) by {
                    if a == i {
                        assert(out@[b] == before[b - 1]);
                        if b - 1 > i {
                            text::lemma_lex_transitive(
                                name,
                                es[before[i as int] as int].canonical_name,
                                es[before[b - 1] as int].canonical_name,
                            );
                        }
                    } else if b == i {
                        assert(out@[a] == before[a]);
                    } else {
                        let a2 = if a < i {
                            a
                        } else {
                            a - 1
                        };
                        let b2 = if b < i {
                            b
                        } else {
                            b - 1
                        };
                        assert(out@[a] == before[a2] && out@[b] == before[b2]);
                    }
                }
                assert(every_place(out@, k + 1)) by {
                    assert forall|a: int, b: int| 0 <= a < b < k + 1 implies #[trigger] out@[a]
                        != #[trigger] out@[b] by {
                        let a2 = if a < i {
                            a
                        } else {
                            a - 1
                        };
                        let b2 = if b < i {
                            b
                        } else {
                            b - 1
                        };
                        if a != i {
                            assert(out@[a] == before[a2]);
                        }
                        if b != i {
                            assert(out@[b] == before[b2]);
                        }
                    }
                    assert forall|a: int| 0 <= a < k + 1 implies 0 <= (#[trigger] out@[a]) < k
                        + 1 by {
                        if a < i {
                            assert(out@[a] == before[a]);
                        } else if a > i {
                            assert(out@[a] == before[a - 1]);
                        }
                    }
                }
            }
            k = k + 1;
        }
        out
    }
}

/// Length of a window in nanoseconds.
pub const WINDOW_NANOS: i128 = 300_000_000_000;

/// One second in nanoseconds.
pub const SECOND_NANOS: i128 = 1_000_000_000;

/// A line of the text that is read, with its time in nanoseconds.
#[derive(Debug)]
pub struct Line {
    /// Time.
    pub t: i128,
    /// Text.
    pub text: String,
}

/// A line as mathematics.
pub type LineView = (int, Seq<char>);

/// Lines as mathematics.
pub open spec fn line_views(s: Seq<Line>) -> Seq<LineView> {
    s.map_values(|l: Line| (l.t as int, l.text@))
}

/// The larger of two numbers.
pub open spec fn larger(a: int, b: int) -> int {
    if a < b {
        b
    } else {
        a
    }
}

/// The smaller of two numbers.
pub open spec fn smaller(a: int, b: int) -> int {
    if a < b {
        a
    } else {
        b
    }
}

/// The end of the window that starts at `w0` of a video of `total` nanoseconds.
pub open spec fn window_end(w0: int, total: int) -> int {
    smaller(w0 + WINDOW_NANOS, larger(total, w0 + SECOND_NANOS))
}

/// A window that starts at `w0` is still to be read.
pub open spec fn more(w0: int, total: int) -> bool {
    w0 < larger(total, SECOND_NANOS as int)
}

/// How much is still to be read from `w0` on.
pub open spec fn time_left(w0: int, total: int) -> int {
    if more(w0, total) {
        larger(total, SECOND_NANOS as int) - w0
    } else {
        0
    }
}

/// The lines whose time lies in a window.
pub open spec fn lines_in(ls: Seq<LineView>, w0: int, w1: int) -> Seq<Seq<char>>
    decreases ls.len(),
{
    if ls.len() == 0 {
        Seq::empty()
    } else {
        let rest = lines_in(ls.drop_last(), w0, w1);
        if w0 <= ls.last().0 < w1 {
            rest.push(ls.last().1)
        } else {
            rest
        }
    }
}

/// The start of the next window from `w0` on that has lines.
pub open spec fn next_busy(ls: Seq<LineView>, w0: int, total: int) -> Option<int>
    decreases time_left(w0, total),
{
    if !more(w0, total) {
        None
    } else if lines_in(ls, w0, window_end(w0, total)).len() > 0 {
        Some(w0)
    } else {
        next_busy(ls, window_end(w0, total), total)
    }
}

/// The number of windows left from `w0` on, rounded up.
pub open spec fn windows_left(w0: int, total: int) -> int {
    if total <= w0 {
        0
    } else {
        (total - w0 + WINDOW_NANOS - 1) / (WINDOW_NANOS as int)
    }
}

/// A time in nanoseconds as whole seconds.
pub open spec fn clock_seconds(ns: int) -> nat {
    if ns <= 0 {
        0
    } else {
        ((ns + SECOND_NANOS / 2) / (SECOND_NANOS as int)) as nat
    }
}

/// A window starts where it is asked to and ends five minutes later, or with the video if that is
/// sooner; it lasts a second at least.
pub proof fn law_windows_last_five_minutes(w0: int, total: int)
    ensures
        window_end(w0, total) >= w0 + 1_000_000_000,
        window_end(w0, total) <= w0 + 300_000_000_000,
        w0 + 300_000_000_000 <= total ==> window_end(w0, total) == w0 + 300_000_000_000,
        w0 + 1_000_000_000 <= total <= w0 + 300_000_000_000 ==> window_end(w0, total) == total,
        more(w0, total) <==> w0 < total || w0 < 1_000_000_000,
{
}

/// The lines of a window are those whose time lies in it, in their order.
pub proof fn law_windows_hold_their_lines(a: Seq<LineView>, b: Seq<LineView>, l: LineView, w0: int, w1: int)
    ensures
        lines_in(a + b, w0, w1) == lines_in(a, w0, w1) + lines_in(b, w0, w1),
        w0 <= l.0 && l.0 < w1 ==> lines_in(seq![l], w0, w1) == seq![l.1],
        l.0 < w0 || w1 <= l.0 ==> lines_in(seq![l], w0, w1) == Seq::<Seq<char>>::empty(),
    decreases b.len(),
{
    reveal_with_fuel(lines_in, 2);
    assert(seq![l].drop_last() =~= Seq::<LineView>::empty());
    assert(Seq::<Seq<char>>::empty().push(l.1) =~= seq![l.1]);
    if b.len() == 0 {
        assert(a + b =~= a);
        assert(lines_in(a, w0, w1) + lines_in(b, w0, w1) =~= lines_in(a, w0, w1));
    } else {
        law_windows_hold_their_lines(a, b.drop_last(), l, w0, w1);
        assert((a + b).drop_last() =~= a + b.drop_last());
        assert(lines_in(a + b, w0, w1) =~= lines_in(a, w0, w1) + lines_in(b, w0, w1));
    }
}

proof fn lemma_no_lines(ls: Seq<LineView>, w0: int, w1: int)
    ensures
        lines_in(ls, w0, w1).len() == 0 <==> forall|i: int|
            0 <= i < ls.len() ==> !(w0 <= (#[trigger] ls[i]).0 < w1),
    decreases ls.len(),
{
    if ls.len() > 0 {
        let t = ls.drop_last();
        lemma_no_lines(t, w0, w1);
        if forall|i: int| 0 <= i < t.len() ==> !(w0 <= (#[trigger] t[i]).0 < w1) {
            assert forall|i: int| 0 <= i < ls.len() - 1 implies !(w0 <= (#[trigger] ls[i]).0 < w1) by {
                assert(t[i] == ls[i]);
            }
        } else {
            let i = choose|i: int| 0 <= i < t.len() && w0 <= (#[trigger] t[i]).0 < w1;
            assert(ls[i] == t[i]);
        }
        assert(ls[ls.len() - 1] == ls.last());
    }
}

/// The next window that is read has a line, and no line between is passed over; where none is
/// read any more, no line is left in the video.
pub proof fn law_no_line_is_passed_over(ls: Seq<LineView>, w0: int, total: int)
    ensures
        match next_busy(ls, w0, total) {
            Some(w) => w0 <= w && more(w, total) && (forall|i: int|
                0 <= i < ls.len() ==> !(w0 <= (#[trigger] ls[i]).0 < w)) && (exists|i: int|
                0 <= i < ls.len() && w <= (#[trigger] ls[i]).0 < window_end(w, total)),
            None => forall|i: int|
                0 <= i < ls.len() ==> !(w0 <= (#[trigger] ls[i]).0 < total),
        },
    decreases time_left(w0, total),
{
    if more(w0, total) {
        let w1 = window_end(w0, total);
        lemma_no_lines(ls, w0, w1);
        if lines_in(ls, w0, w1).len() == 0 {
            law_no_line_is_passed_over(ls, w1, total);
            match next_busy(ls, w0, total) {
                Some(w) => {
                    assert forall|i: int| 0 <= i < ls.len() implies !(w0 <= (#[trigger] ls[i]).0
                        < w) by {
                        assert(!(w0 <= ls[i].0 < w1));
                    }
                },
                None => {
                    assert forall|i: int| 0 <= i < ls.len() implies !(w0 <= (#[trigger] ls[i]).0
                        < total) by {
                        assert(!(w0 <= ls[i].0 < w1));
                    }
                },
            }
        }
    }
}

/// A clock shows the nearest whole second, and none before zero.
pub proof fn law_clocks_show_the_nearest_second(ns: int)
    ensures
        ns <= 0 ==> clock_seconds(ns) == 0,
        ns > 0 ==> -500_000_000 <= clock_seconds(ns) * 1_000_000_000 - ns <= 500_000_000,
{
}

/// What a model is asked about a window.
pub open spec fn window_prompt(title: Seq<char>, ls: Seq<Seq<char>>, w0: int, w1: int) -> Seq<char> {
    "Video: \""@ + title + "\". Window "@ + grid::clock(clock_seconds(w0)) + "–"@ + grid::clock(
        clock_seconds(w1),
    ) + ".\n\n"@ + text::head(text::joined(ls, "\n"@), 24_000)
}

/// What to do next.
#[derive(Debug)]
pub enum Ask {
    /// Everything was read.
    Done,
    /// No more calls are allowed; this many windows stay unread.
    Skip(u64),
    /// Ask a model about a window: its start and end, the text, and how many lines it holds.
    Call(i128, i128, String, usize),
}

/// Reading a video's lines window by window.
#[derive(Debug)]
pub struct Extraction {
    lines: Vec<Line>,
    total: i128,
    w0: i128,
    facts: Facts,
    windows: u64,
    ok_windows: u64,
}

/// A reading as mathematics.
pub struct ExtractionView {
    /// The lines.
    pub lines: Seq<LineView>,
    /// Length of the video in nanoseconds.
    pub total: int,
    /// Start of the next window.
    pub w0: int,
    /// Facts gathered.
    pub facts: FactsView,
    /// Windows that were answered.
    pub windows: int,
    /// Windows whose answers could be read.
    pub ok_windows: int,
}

impl View for Extraction {
    type V = ExtractionView;

    closed spec fn view(&self) -> ExtractionView {
        ExtractionView {
            lines: line_views(self.lines@),
            total: self.total as int,
            w0: self.w0 as int,
            facts: self.facts@,
            windows: self.windows as int,
            ok_windows: self.ok_windows as int,
        }
    }
}

/// The longest video that can be read, in nanoseconds.
pub const MAX_NANOS: i128 = 9_223_372_036_854_775_808_000_000_000;

impl ExtractionView {
    /// The video is not longer than can be read, the next window starts in it or at its end, and
    /// what was gathered is consistent.
    pub open spec fn wf(self) -> bool {
        &&& 0 <= self.w0 <= larger(self.total, SECOND_NANOS as int) + SECOND_NANOS
        &&& self.total <= MAX_NANOS
        &&& 0 <= self.ok_windows <= self.windows
        &&& self.windows * SECOND_NANOS <= self.w0
        &&& consistent(self.facts)
    }
}

/// Lines with one more, put behind those that are not later.
pub open spec fn line_placed(ls: Seq<LineView>, x: LineView) -> Seq<LineView>
    decreases ls.len(),
{
    if ls.len() == 0 || ls.last().0 <= x.0 {
        ls.push(x)
    } else {
        line_placed(ls.drop_last(), x).push(ls.last())
    }
}

/// Lines in the order of their times; those of one time stay in the order given.
pub open spec fn in_time_order(ls: Seq<LineView>) -> Seq<LineView>
    decreases ls.len(),
{
    if ls.len() == 0 {
        ls
    } else {
        line_placed(in_time_order(ls.drop_last()), ls.last())
    }
}

fn place_line(v: &mut Vec<Line>, x: Line)
    ensures
        line_views(final(v)@) == line_placed(line_views(old(v)@), (x.t as int, x.text@)),
{
    let ghost all = line_views(v@);
    let ghost before = v@;
    let ghost xv = (x.t as int, x.text@);
    let mut i: usize = v.len();
    proof {
        assert(all.take(i as int) =~= all);
        assert(line_placed(all, xv) =~= line_placed(all, xv) + all.skip(i as int));
    }
    while i > 0
        invariant
            i <= v@.len(),
            v@ == before,
            all == line_views(before),
            xv == (x.t as int, x.text@),
            line_placed(all, xv) == line_placed(all.take(i as int), xv) + all.skip(i as int),
        ensures
            i <= v@.len(),
            v@ == before,
            line_placed(all, xv) == all.take(i as int).push(xv) + all.skip(i as int),
        decreases i,
    {
        proof {
            assert(all.take(i as int).last() == all[i - 1]);
            assert(all[i - 1].0 == v@[i - 1].t);
            assert(all.take(i as int).drop_last() =~= all.take(i - 1));
        }
        if v[i - 1].t <= x.t {
            break;
        }
        proof {
            let p = line_placed(all.take(i - 1), xv);
            assert(p.push(all[i - 1]) + all.skip(i as int) =~= p + all.skip(i - 1));
        }
        i = i - 1;
    }
    v.insert(i, x);
    proof {
        assert(line_views(v@) =~= all.take(i as int).push(xv) + all.skip(i as int));
    }
}

/// Putting lines in order loses and invents none, and leaves them in the order of their times.
pub proof fn law_in_time_order(ls: Seq<LineView>)
    ensures
        in_time_order(ls).to_multiset() == ls.to_multiset(),
        in_time_order(ls).len() == ls.len(),
        forall|i: int, j: int|
            0 <= i < j < ls.len() ==> (#[trigger] in_time_order(ls)[i]).0 <= (
            #[trigger] in_time_order(ls)[j]).0,
    decreases ls.len(),
{
    broadcast use vstd::seq_lib::group_to_multiset_ensures;

    if ls.len() > 0 {
        law_in_time_order(ls.drop_last());
        lemma_line_placed(in_time_order(ls.drop_last()), ls.last());
        assert(ls =~= ls.drop_last().push(ls.last()));
        assert(ls.to_multiset() =~= ls.drop_last().to_multiset().insert(ls.last()));
    }
}

proof fn lemma_line_placed(ls: Seq<LineView>, x: LineView)
    requires
        forall|i: int, j: int| 0 <= i < j < ls.len() ==> (#[trigger] ls[i]).0 <= (#[trigger] ls[j]).0,
    ensures
        line_placed(ls, x).to_multiset() == ls.to_multiset().insert(x),
        line_placed(ls, x).len() == ls.len() + 1,
        forall|i: int, j: int|
            0 <= i < j < ls.len() + 1 ==> (#[trigger] line_placed(ls, x)[i]).0 <= (
            #[trigger] line_placed(ls, x)[j]).0,
        ls.len() > 0 ==> line_placed(ls, x).last().0 <= larger(ls.last().0, x.0),
    decreases ls.len(),
{
    broadcast use vstd::seq_lib::group_to_multiset_ensures;

    if ls.len() > 0 && ls.last().0 > x.0 {
        let head = ls.drop_last();
        lemma_line_placed(head, x);
        let q = line_placed(head, x);
        assert(ls =~= head.push(ls.last()));
        assert(ls.to_multiset() =~= head.to_multiset().insert(ls.last()));
        assert(q.push(ls.last()).to_multiset() =~= ls.to_multiset().insert(x));
        assert forall|i: int, j: int| 0 <= i < j < ls.len() + 1 implies (
        #[trigger] line_placed(ls, x)[i]).0 <= (#[trigger] line_placed(ls, x)[j]).0 by {
            if j == q.len() {
                assert(q[i].0 <= q.last().0);
                if head.len() == 0 {
                    assert(q =~= seq![x]);
                }
            }
        }
    }
}

/// A description of a scene: the scene's id and the text.
#[derive(Debug)]
pub struct SceneText {
    /// The scene.
    pub target: String,
    /// What is said of it.
    pub text: String,
}

/// Where a scene is.
#[derive(Debug)]
pub struct SceneStart {
    /// The scene's id.
    pub id: String,
    /// Start.
    pub t0: Timestamp,
}

/// A spoken line.
#[derive(Debug)]
pub struct Spoken {
    /// Start.
    pub t0: Timestamp,
    /// What is said.
    pub text: String,
}

/// The start of the scene with an id: of the last one, should there be several.
pub open spec fn scene_start(scenes: Seq<SceneStart>, id: Seq<char>) -> Option<Timestamp>
    decreases scenes.len(),
{
    if scenes.len() == 0 {
        None
    } else if scenes.last().id@ == id {
        Some(scenes.last().t0)
    } else {
        scene_start(scenes.drop_last(), id)
    }
}

/// The lines that descriptions of scenes make; those of unknown scenes make none.
pub open spec fn scene_lines(ds: Seq<SceneText>, scenes: Seq<SceneStart>) -> Seq<LineView>
    decreases ds.len(),
{
    if ds.len() == 0 {
        Seq::empty()
    } else {
        let rest = scene_lines(ds.drop_last(), scenes);
        match scene_start(scenes, ds.last().target@) {
            Some(t) => rest.push(
                (
                    decode::nanos(t),
                    "["@ + grid::clock(grid::whole_seconds(t)) + "] (scene) "@ + text::head(
                        ds.last().text@,
                        1200,
                    ),
                ),
            ),
            None => rest,
        }
    }
}

/// The line that speech makes.
pub open spec fn spoken_line(s: Spoken) -> LineView {
    (decode::nanos(s.t0), "["@ + grid::clock(grid::whole_seconds(s.t0)) + "] "@ + s.text@)
}

/// All lines of a video, in the order of their times.
pub open spec fn all_lines(
    ds: Seq<SceneText>,
    scenes: Seq<SceneStart>,
    spoken: Seq<Spoken>,
) -> Seq<LineView> {
    in_time_order(scene_lines(ds, scenes) + spoken.map_values(|s: Spoken| spoken_line(s)))
}

fn find_scene(scenes: &Vec<SceneStart>, id: &str) -> (r: Option<Timestamp>)
    ensures
        r == scene_start(scenes@, id@),
{
    let mut k: usize = scenes.len();
    proof {
        assert(scenes@.take(k as int) =~= scenes@);
    }
    while k > 0
        invariant
            k <= scenes@.len(),
            scene_start(scenes@, id@) == scene_start(scenes@.take(k as int), id@),
        decreases k,
    {
        proof {
            assert(scenes@.take(k as int).drop_last() =~= scenes@.take(k - 1));
        }
        if str_is(scenes[k - 1].id.as_str(), id) {
            return Some(scenes[k - 1].t0);
        }
        k = k - 1;
    }
    None
}

/// The lines of a video: descriptions of its scenes and what is spoken, in the order of their
/// times.
pub fn collect_lines(
    ds: &Vec<SceneText>,
    scenes: &Vec<SceneStart>,
    spoken: &Vec<Spoken>,
) -> (r: Vec<Line>)
    requires
        forall|i: int| 0 <= i < scenes@.len() ==> (#[trigger] scenes@[i]).t0.wf(),
        forall|i: int| 0 <= i < spoken@.len() ==> (#[trigger] spoken@[i]).t0.wf(),
    ensures
        line_views(r@) == all_lines(ds@, scenes@, spoken@),
{
    let mut out: Vec<Line> = Vec::new();
    let mut i: usize = 0;
    proof {
        assert(ds@.take(0) =~= Seq::<SceneText>::empty());
        assert(line_views(out@) =~= in_time_order(Seq::<LineView>::empty()));
    }
    while i < ds.len()
        invariant
            i <= ds@.len(),
            forall|i: int| 0 <= i < scenes@.len() ==> (#[trigger] scenes@[i]).t0.wf(),
            line_views(out@) == in_time_order(scene_lines(ds@.take(i as int), scenes@)),
        decreases ds@.len() - i,
    {
        proof {
            assert(ds@.take(i + 1).drop_last() =~= ds@.take(i as int));
        }
        match find_scene(scenes, ds[i].target.as_str()) {
            Some(t) => {
                proof {
                    lemma_scene_start_wf(scenes@, ds@[i as int].target@);
                }
                let mut s = "[".to_owned();
                let c = grid::hms(t);
                s.append(c.as_str());
                s.append("] (scene) ");
                let h = text::head_text(ds[i].text.as_str(), 1200);
                s.append(h.as_str());
                let ghost rest = scene_lines(ds@.take(i as int), scenes@);
                let ghost x = (decode::nanos(t), s@);
                proof {
                    assert(rest.push(x).drop_last() =~= rest);
                }
                place_line(&mut out, Line { t: decode::to_nanos(t), text: s });
            },
            None => {},
        }
        i = i + 1;
    }
    let ghost scene_part = scene_lines(ds@, scenes@);
    let ghost said = spoken@.map_values(|s: Spoken| spoken_line(s));
    let mut k: usize = 0;
    proof {
        assert(ds@.take(i as int) =~= ds@);
        assert(scene_part + said.take(0) =~= scene_part);
    }
    while k < spoken.len()
        invariant
            k <= spoken@.len(),
            forall|i: int| 0 <= i < spoken@.len() ==> (#[trigger] spoken@[i]).t0.wf(),
            said == spoken@.map_values(|s: Spoken| spoken_line(s)),
            line_views(out@) == in_time_order(scene_part + said.take(k as int)),
        decreases spoken@.len() - k,
    {
        let t = spoken[k].t0;
        let mut s = "[".to_owned();
        let c = grid::hms(t);
        s.append(c.as_str());
        s.append("] ");
        s.append(spoken[k].text.as_str());
        proof {
            let x = said[k as int];
            assert(x == (decode::nanos(t), s@));
            let so_far = scene_part + said.take(k as int);
            assert(scene_part + said.take(k + 1) =~= so_far.push(x));
            assert(so_far.push(x).drop_last() =~= so_far);
        }
        place_line(&mut out, Line { t: decode::to_nanos(t), text: s });
        k = k + 1;
    }
    proof {
        assert(said.take(k as int) =~= said);
    }
    out
}

proof fn lemma_scene_start_wf(scenes: Seq<SceneStart>, id: Seq<char>)
    requires
        forall|i: int| 0 <= i < scenes.len() ==> (#[trigger] scenes[i]).t0.wf(),
    ensures
        scene_start(scenes, id) matches Some(t) ==> t.wf(),
    decreases scenes.len(),
{
    if scenes.len() > 0 {
        assert(scenes[scenes.len() - 1].t0.wf());
        assert forall|i: int| 0 <= i < scenes.drop_last().len() implies (
        #[trigger] scenes.drop_last()[i]).t0.wf() by {
            assert(scenes[i].t0.wf());
        }
        lemma_scene_start_wf(scenes.drop_last(), id);
    }
}

/// The reading after the window that starts at `w0` has been left behind.
pub open spec fn past_window(v: ExtractionView, w0: int) -> ExtractionView {
    ExtractionView { w0: window_end(w0, v.total), ..v }
}

/// The reading after a window was answered; `reply` is the answer, if it could be read.
pub open spec fn answered(v: ExtractionView, reply: Option<JsonView>, source: u128) -> ExtractionView {
    let w = past_window(ExtractionView { windows: v.windows + 1, ..v }, v.w0);
    match reply {
        Some(j) => ExtractionView {
            facts: absorbed(v.facts, j, source),
            ok_windows: v.ok_windows + 1,
            ..w
        },
        None => w,
    }
}

impl Extraction {
    /// Starts reading the lines of a video of `total` nanoseconds.
    pub fn start(lines: Vec<Line>, total: i128) -> (e: Extraction)
        requires
            total <= MAX_NANOS,
        ensures
            e@.wf(),
            e@ == (ExtractionView {
                lines: line_views(lines@),
                total: total as int,
                w0: 0,
                facts: FactsView {
                    entities: Seq::empty(),
                    mentions: Seq::empty(),
                    events: Seq::empty(),
                },
                windows: 0,
                ok_windows: 0,
            }),
    {
        Extraction { lines, total, w0: 0, facts: Facts::new(), windows: 0, ok_windows: 0 }
    }

    fn end_of(&self, w0: i128) -> (w1: i128)
        requires
            self@.total <= MAX_NANOS,
            0 <= w0 <= 2 * MAX_NANOS,
        ensures
            w1 == window_end(w0 as int, self@.total),
            w1 > w0,
    {
        let longest: i128 = if self.total < w0 + SECOND_NANOS {
            w0 + SECOND_NANOS
        } else {
            self.total
        };
        if w0 + WINDOW_NANOS < longest {
            w0 + WINDOW_NANOS
        } else {
            longest
        }
    }

    fn select(&self, w0: i128, w1: i128) -> (r: Vec<String>)
        ensures
            text::strings_of(r@) == lines_in(self@.lines, w0 as int, w1 as int),
    {
        let ghost all = self@.lines;
        let mut out: Vec<String> = Vec::new();
        let mut i: usize = 0;
        proof {
            assert(all.take(0) =~= Seq::<LineView>::empty());
            assert(text::strings_of(out@) =~= Seq::<Seq<char>>::empty());
        }
        while i < self.lines.len()
            invariant
                i <= self.lines@.len(),
                all == line_views(self.lines@),
                text::strings_of(out@) == lines_in(all.take(i as int), w0 as int, w1 as int),
            decreases self.lines@.len() - i,
        {
            proof {
                assert(all.take(i + 1).drop_last() =~= all.take(i as int));
                assert(all.take(i + 1).last() == (
                    self.lines@[i as int].t as int,
                    self.lines@[i as int].text@,
                ));
            }
            let t: i128 = self.lines[i].t;
            if w0 <= t && t < w1 {
                let ghost before = text::strings_of(out@);
                out.push(self.lines[i].text.clone());
                proof {
                    assert(text::strings_of(out@) =~= before.push(self.lines@[i as int].text@));
                }
            }
            i = i + 1;
        }
        proof {
            assert(all.take(i as int) =~= all);
        }
        out
    }

    /// What to do next: skips windows without lines, then asks about the next one, unless no more
    /// calls are allowed.
    pub fn ask(&mut self, title: &str, allowed: bool) -> (r: Ask)
        requires
            old(self)@.wf(),
        ensures
            final(self)@.wf(),
            match next_busy(old(self)@.lines, old(self)@.w0, old(self)@.total) {
                None => r is Done && !more(final(self)@.w0, final(self)@.total) && final(self)@
                    == (ExtractionView { w0: final(self)@.w0, ..old(self)@ }),
                Some(w0) => {
                    let w1 = window_end(w0, old(self)@.total);
                    let ls = lines_in(old(self)@.lines, w0, w1);
                    &&& final(self)@ == (ExtractionView { w0, ..old(self)@ })
                    &&& more(w0, old(self)@.total)
                    &&& if allowed {
                        r matches Ask::Call(a, b, text, n) && a == w0 && b == w1 && n == ls.len()
                            && text@ == window_prompt(title@, ls, w0, w1)
                    } else {
                        r matches Ask::Skip(n) && n == windows_left(w0, old(self)@.total)
                    }
                },
            },
    {
        let ghost start = self@;
        let floor: i128 = if self.total < SECOND_NANOS {
            SECOND_NANOS
        } else {
            self.total
        };
        while self.w0 < floor
            invariant
                self@.wf(),
                start == old(self)@,
                floor == larger(self@.total, SECOND_NANOS as int),
                self@ == (ExtractionView { w0: self@.w0, ..start }),
                start.w0 <= self@.w0,
                next_busy(start.lines, start.w0, start.total) == next_busy(
                    start.lines,
                    self@.w0,
                    start.total,
                ),
            decreases floor + SECOND_NANOS - self.w0,
        {
            let w0: i128 = self.w0;
            let w1: i128 = self.end_of(w0);
            let ls = self.select(w0, w1);
            if ls.len() > 0 {
                if !allowed {
                    let left: i128 = if self.total <= w0 {
                        0
                    } else {
                        (self.total - w0 + WINDOW_NANOS - 1) / WINDOW_NANOS
                    };
                    return Ask::Skip(left as u64);
                }
                let mut s = "Video: \"".to_owned();
                s.append(title);
                s.append("\". Window ");
                let a = grid::clock_text(seconds_of(w0));
                s.append(a.as_str());
                s.append("–");
                let b = grid::clock_text(seconds_of(w1));
                s.append(b.as_str());
                s.append(".\n\n");
                let joined = text::join_strings(&ls, "\n");
                let h = text::head_text(joined.as_str(), 24_000);
                s.append(h.as_str());
                return Ask::Call(w0, w1, s, ls.len());
            }
            self.w0 = w1;
        }
        Ask::Done
    }

    /// A call about the next window failed: goes on to the one after it.
    pub fn fail(&mut self)
        requires
            old(self)@.wf(),
            more(old(self)@.w0, old(self)@.total),
        ensures
            final(self)@.wf(),
            final(self)@ == past_window(old(self)@, old(self)@.w0),
    {
        self.w0 = self.end_of(self.w0);
    }

    /// Takes the parsed answer about the next window: nothing when it could not be read.
    pub fn take_answer(&mut self, reply: &Option<Json>, source: u128)
        requires
            old(self)@.wf(),
            more(old(self)@.w0, old(self)@.total),
        ensures
            final(self)@.wf(),
            final(self)@ == answered(
                old(self)@,
                match *reply {
                    Some(j) => Some(j@),
                    None => None,
                },
                source,
            ),
    {
        let ghost start = self@;
        self.windows = self.windows + 1;
        match reply {
            Some(j) => {
                proof {
                    law_facts_stay_consistent(self.facts@, j@, source);
                }
                self.ok_windows = self.ok_windows + 1;
                self.facts.absorb(j, source);
            },
            None => {},
        }
        self.w0 = self.end_of(self.w0);
    }

    /// Takes the answer about the next window. Whether it could be read is returned.
    pub fn answer(&mut self, reply: &str, source: u128) -> (b: bool)
        requires
            old(self)@.wf(),
            more(old(self)@.w0, old(self)@.total),
        ensures
            final(self)@.wf(),
            b == json::extracted(reply@) is Some,
            final(self)@ == answered(old(self)@, json::extracted(reply@), source),
    {
        let parsed = json::extract_json(reply);
        self.take_answer(&parsed, source);
        parsed.is_some()
    }

    /// What was gathered, with the number of windows that were answered and of those whose
    /// answers could be read.
    pub fn finish(self) -> (r: (Facts, u64, u64))
        requires
            self@.wf(),
        ensures
            r.0@ == self@.facts,
            consistent(r.0@),
            r.1 == self@.windows,
            r.2 == self@.ok_windows,
    {
        (self.facts, self.windows, self.ok_windows)
    }
}

fn seconds_of(ns: i128) -> (s: u64)
    requires
        ns <= MAX_NANOS + 2 * SECOND_NANOS,
    ensures
        s == clock_seconds(ns as int),
{
    if ns <= 0 {
        0
    } else {
        ((ns + SECOND_NANOS / 2) / SECOND_NANOS) as u64
    }
}

/// Why an answer could not be read.
pub fn unreadable(finish_reason: &str, reply: &str) -> (r: String)
    ensures
        r@ == "extraction was not JSON ("@ + finish_reason@ + "): "@ + text::head(reply@, 120),
{
    let mut s = "extraction was not JSON (".to_owned();
    s.append(finish_reason);
    s.append("): ");
    let h = text::head_text(reply, 120);
    s.append(h.as_str());
    s
}

/// Scenes are told one by one and in their order; what belongs to no scene is left out.
pub proof fn law_scenes_are_told_one_by_one(
    a: Seq<SceneText>,
    b: Seq<SceneText>,
    scenes: Seq<SceneStart>,
    one: SceneText,
)
    ensures
        scene_lines(a + b, scenes) == scene_lines(a, scenes) + scene_lines(b, scenes),
        scene_lines(seq![one], scenes).len() == (if scene_start(scenes, one.target@) is Some {
            1int
        } else {
            0
        }),
        scene_start(scenes, one.target@) matches Some(t) ==> scene_lines(seq![one], scenes)[0].0
            == decode::nanos(t),
    decreases b.len(),
{
    reveal_with_fuel(scene_lines, 2);
    assert(seq![one].drop_last() =~= Seq::<SceneText>::empty());
    if b.len() == 0 {
        assert(a + b =~= a);
    } else {
        law_scenes_are_told_one_by_one(a, b.drop_last(), scenes, one);
        assert((a + b).drop_last() =~= a + b.drop_last());
    }
}

/// The start of a scene is found by its id, and of two with one id the later is meant.
pub proof fn law_scene_starts_are_found(scenes: Seq<SceneStart>, id: Seq<char>, k: int)
    requires
        0 <= k < scenes.len(),
        forall|i: int| k < i < scenes.len() ==> (#[trigger] scenes[i]).id@ != id,
    ensures
        scenes[k].id@ == id ==> scene_start(scenes, id) == Some(scenes[k].t0),
        (forall|i: int| 0 <= i <= k ==> (#[trigger] scenes[i]).id@ != id) ==> scene_start(
            scenes,
            id,
        ) is None,
    decreases scenes.len(),
{
    let rest = scenes.drop_last();
    if k < scenes.len() - 1 {
        assert(scenes[scenes.len() - 1].id@ != id);
        law_scene_starts_are_found(rest, id, k);
    } else if k > 0 && scenes[k].id@ != id {
        if forall|i: int| 0 <= i <= k ==> (#[trigger] scenes[i]).id@ != id {
            assert forall|i: int| 0 <= i <= k - 1 implies (#[trigger] rest[i]).id@ != id by {
                assert(rest[i] == scenes[i]);
            }
            law_scene_starts_are_found(rest, id, k - 1);
        }
    } else {
        assert(rest.len() == 0 ==> scene_start(rest, id) is None);
    }
}

} // verus!
