use vidx::callback::{
    flatten_timestamps, store_row, store_rows, CallbackRow, CallbackSegment, Flat, RowIds, RowTarget,
    StoredRow,
};
use vidx::chapters::{
    changes_of_title, chapter_rows, choose_boundaries, depth_scores, divide_chapters,
    looks_like_title, scene_titles, start_chapters, ChapterStart, ScreenLine,
};
use vidx::dag::{Dag, DagError};
use vidx::describe::{
    describe_step, description_row, description_text, sample_rate, scene_summary, scene_text,
    DescribeStep, TimedText,
};
use vidx::entities::{
    canonical, collect_lines, kind_of, single_space, unreadable, Ask, EntityKind, Extraction,
    Facts, Line, SceneStart, SceneText, Spoken,
};
use vidx::items::{item_to_json, Item};
use vidx::json::{extract_json, parse, show, Json};
use vidx::model::{Segment, SegmentLevel, Span};
use vidx::operator::{parse_kind, ItemKind, OperatorDecl};
use vidx::probe::{Track, TrackKind};
use vidx::scenes::{
    boundary_strength, crossings, divide_scenes, group, parent_scene, scene_rows,
    split_long_shots, start_scenes,
    MAX_SCENE_NANOS, MIN_SCENE_NANOS,
};
use vidx::scheduler::{
    all_skipped, channel_capacity, job_index_state, judge_stage, plan_stages, skipped_index_state,
    IndexState, Plan, StageStatus,
};
use vidx::timestamp::Timestamp;

#[test]
fn rows_parse_by_kind() {
    let v = parse(
        r#"[
            {"kind": "transcript_span", "t0": 1.0, "t1": 2.5, "text": "hi"},
            {"kind": "scene", "t0": 0.0, "t1": 30.0, "title": "Intro"},
            {"kind": "description", "target_kind": "frame", "target_id": "x", "text": "a slide"}
        ]"#,
    )
    .unwrap();
    let Json::Arr(items) = v else { panic!("an array") };
    let rows: Vec<CallbackRow> = items
        .iter()
        .map(|j| CallbackRow::from_json(j).unwrap())
        .collect();
    assert_eq!(rows.len(), 3);
    assert_eq!(rows[0].kind(), ItemKind::TranscriptSpan);
    assert_eq!(rows[1].kind(), ItemKind::Scene);
    assert_eq!(rows[2].kind(), ItemKind::Description);
    assert!(CallbackRow::from_json(&parse(r#"{"kind": "frame"}"#).unwrap()).is_none());
}

#[test]
fn kinds_parse_from_snake_case() {
    assert_eq!(parse_kind("ocr_span"), Some(ItemKind::OcrSpan));
    assert_eq!(parse_kind("hashed"), Some(ItemKind::Hashed));
    assert_eq!(parse_kind("Frame"), None);
}

#[test]
fn every_kind_has_its_own_name() {
    for k in [ItemKind::Media, ItemKind::SpeechRange, ItemKind::Extraction] {
        assert_eq!(parse_kind(k.name()), Some(k));
    }
}

/// The value with seconds as numbers.
fn value(f: &Flat) -> serde_json::Value {
    match f {
        Flat::Null => serde_json::Value::Null,
        Flat::Bool(b) => serde_json::Value::Bool(*b),
        Flat::Num(n) => serde_json::from_str(&n.text).unwrap(),
        Flat::Secs(n, d) => serde_json::Value::from(*n as f64 / *d as f64),
        Flat::Str(s) => serde_json::Value::String(s.clone()),
        Flat::Arr(v) => serde_json::Value::Array(v.iter().map(value).collect()),
        Flat::Obj(m) => {
            serde_json::Value::Object(m.iter().map(|(k, v)| (k.clone(), value(v))).collect())
        }
    }
}

#[test]
fn timestamps_flatten() {
    let v = parse(
        r#"{"t0": {"num": 1500, "den": 1000}, "nested": [{"t": {"num": 2, "den": 1}}]}"#,
    )
    .unwrap();
    let want: serde_json::Value =
        serde_json::from_str(r#"{"t0": 1.5, "nested": [{"t": 2.0}]}"#).unwrap();
    assert_eq!(value(&flatten_timestamps(&v)), want);
}

#[test]
fn items_are_written_with_their_kind() {
    let item = Item::SpeechRange {
        t0: Timestamp::new(3, 2),
        t1: Timestamp::from_secs(4),
        sample_rate: 16_000,
        index: 5,
    };
    assert_eq!(item.kind(), ItemKind::SpeechRange);
    let v = value(&item_to_json(item));
    assert_eq!(v["kind"], "speech_range");
    assert_eq!(v["t0"], 1.5);
    assert_eq!(v["t1"], 4.0);
}

fn row(text: &str) -> CallbackRow {
    CallbackRow::from_json(&parse(text).unwrap()).unwrap()
}

fn audio_track(id: u128) -> Track {
    Track {
        id,
        video_id: 1,
        kind: TrackKind::Audio,
        stream_index: 1,
        codec: "aac".into(),
        timebase_num: 1,
        timebase_den: 48_000,
        width: None,
        height: None,
        fps: None,
        sample_rate: Some(48_000),
        channels: Some(2),
        language: None,
    }
}

#[test]
fn rows_are_stored_only_where_declared() {
    let target = RowTarget::load(1, &vec![audio_track(8)]);
    assert_eq!(target.transcript_track, Some(8));
    let ids = RowIds {
        id: 21,
        frame: None,
        parent: None,
    };
    let span = r#"{"kind":"transcript_span","t0":1.0,"t1":2.5,"text":"hi"}"#;
    let outputs = vec![ItemKind::TranscriptSpan];
    match store_row(target, 3, &outputs, row(span), ids).unwrap() {
        StoredRow::Span(Span::Transcript(t)) => {
            assert_eq!(t.id, 21);
            assert_eq!(t.track_id, 8);
            assert_eq!(t.text, "hi");
            assert_eq!(t.provenance_id, 3);
            assert_eq!(t.t1.num as f64 / t.t1.den as f64, 2.5);
        }
        other => panic!("{other:?}"),
    }
    assert!(store_row(target, 3, &vec![ItemKind::Scene], row(span), ids).is_err());
    // One bad row refuses them all.
    let scene = r#"{"kind":"scene","t0":0.0,"t1":30.0}"#;
    assert!(store_rows(target, 3, &outputs, vec![row(span), row(scene)], &vec![ids, ids]).is_err());
    let both = vec![ItemKind::TranscriptSpan, ItemKind::Scene];
    let stored =
        store_rows(target, 3, &both, vec![row(span), row(scene)], &vec![ids, ids]).unwrap();
    assert_eq!(stored.len(), 2);
}

fn op(id: &str, i: &[ItemKind], o: &[ItemKind]) -> OperatorDecl {
    OperatorDecl {
        id: id.to_string(),
        inputs: i.to_vec(),
        outputs: o.to_vec(),
    }
}

#[test]
fn orders_and_wires_consumers() {
    let dag = Dag::build(vec![
        op("thumbnail", &[ItemKind::Frame], &[ItemKind::Thumbnail]),
        op("phash", &[ItemKind::Frame], &[ItemKind::Hashed]),
        op("sample", &[ItemKind::Media], &[ItemKind::Frame]),
    ])
    .unwrap();
    let names = dag.stage_names();
    assert_eq!(names[0], "sample");
    assert_eq!(dag.roots(), &[0]);
    assert_eq!(dag.consumers_of(0).len(), 2);
    assert!(dag.consumers_of(1).is_empty());
    let (ops, consumers, roots) = dag.into_parts();
    assert_eq!(ops[0].id, "sample");
    assert_eq!(consumers[0].len(), 2);
    assert_eq!(roots, vec![0]);
}

#[test]
fn rejects_missing_producer_cycle_and_duplicates() {
    assert!(Dag::build(vec![op("phash", &[ItemKind::Frame], &[ItemKind::Hashed])]).is_err());
    assert!(Dag::build(vec![
        op("a", &[ItemKind::Hashed], &[ItemKind::Frame]),
        op("b", &[ItemKind::Frame], &[ItemKind::Hashed]),
    ])
    .is_err());
    assert!(Dag::build(vec![
        op("sample", &[ItemKind::Media], &[ItemKind::Frame]),
        op("sample", &[ItemKind::Media], &[ItemKind::Frame]),
    ])
    .is_err());
}

#[test]
fn refused_pipelines_say_why() {
    let e = Dag::build(vec![op("a", &[], &[ItemKind::Frame])]).unwrap_err();
    assert!(matches!(e, DagError::NoInputs(_)), "{e:?}");
    let e = Dag::build(vec![op("p", &[ItemKind::Frame], &[])]).unwrap_err();
    assert!(matches!(&e, DagError::MissingProducer(n, ItemKind::Frame) if n == "p"));
    assert!(e.message().contains('p'));
    let e = Dag::build(vec![
        op("a", &[ItemKind::Media], &[]),
        op("a", &[ItemKind::Media], &[]),
    ])
    .unwrap_err();
    assert!(matches!(e, DagError::Duplicate(_)));
    let e = Dag::build(vec![
        op("a", &[ItemKind::Hashed], &[ItemKind::Frame]),
        op("b", &[ItemKind::Frame], &[ItemKind::Hashed]),
    ])
    .unwrap_err();
    assert!(matches!(e, DagError::Cycle));
}

#[test]
fn cached_stages_are_skipped_or_replayed() {
    // 0 feeds 1 and 2.
    let consumers = vec![vec![1, 2], vec![], vec![]];
    let all = vec![true, true, true];
    assert!(all_skipped(&plan_stages(&consumers, &all, &all)));
    // A stage that must run makes its producer replay, or run where it cannot.
    let p = plan_stages(&consumers, &vec![true, false, true], &all);
    assert_eq!(p, vec![Plan::Replay, Plan::Run, Plan::Skip]);
    let p = plan_stages(&consumers, &vec![true, false, true], &vec![false, true, true]);
    assert_eq!(p[0], Plan::Run);
    assert_eq!(p[1], Plan::Run);
}

#[test]
fn stages_and_jobs_are_judged() {
    assert_eq!(channel_capacity(0), 2);
    assert_eq!(channel_capacity(10), 5);
    assert_eq!(channel_capacity(1000), 16);
    let v = judge_stage(3, 3, 0, 0);
    assert!(v.ok && v.cache && !v.partial);
    let v = judge_stage(3, 3, 1, 0);
    assert!(v.ok && !v.cache && v.partial);
    let v = judge_stage(0, 0, 2, 0);
    assert_eq!(v.status, StageStatus::Failed);
    assert_eq!(job_index_state(false, true), IndexState::Failed);
    assert_eq!(job_index_state(true, true), IndexState::Fine);
    assert_eq!(job_index_state(true, false), IndexState::Coarse);
    assert_eq!(
        skipped_index_state(IndexState::Fine),
        (IndexState::Fine, false)
    );
    assert_eq!(
        skipped_index_state(IndexState::Failed),
        (IndexState::Coarse, true)
    );
}

/// Nanoseconds.
fn ns(secs: f64) -> i128 {
    (secs * 1e9).round() as i128
}

#[test]
fn depth_peaks_where_topics_change() {
    let a = vec![1_000_000, 0];
    let b = vec![0, 1_000_000];
    let embs: Vec<Option<Vec<i32>>> = vec![
        Some(a.clone()),
        Some(a.clone()),
        Some(a),
        Some(b.clone()),
        Some(b.clone()),
        Some(b),
    ];
    let d = depth_scores(&embs);
    assert_eq!(d.len(), 5);
    let (imax, _) = d.iter().enumerate().max_by(|x, y| x.1.cmp(y.1)).unwrap();
    assert_eq!(imax, 2, "{d:?}");
}

#[test]
fn boundaries_respect_lengths() {
    // Ten 120 s scenes = 20 min: aim for two chapters.
    let scenes: Vec<(i128, i128)> = (0..10)
        .map(|i| (ns(i as f64 * 120.0), ns((i + 1) as f64 * 120.0)))
        .collect();
    let one = vidx::chapters::ONE;
    let mut depth = vec![0i128; 9];
    depth[4] = one; // strongest at 10 min
    depth[0] = one * 9 / 10; // strong but would make a 2-minute chapter: rejected
    let starts = choose_boundaries(&scenes, &depth, &vec![false; 9]);
    assert_eq!(starts, vec![0, 5], "{starts:?}");
    // A short video gets one chapter.
    let short: Vec<(i128, i128)> = vec![(ns(0.0), ns(60.0)), (ns(60.0), ns(120.0))];
    assert_eq!(
        choose_boundaries(&short, &vec![one], &vec![true]),
        vec![0]
    );
    assert!(looks_like_title(
        "Inside T-Bench: Building Reliable Evaluation"
    ));
    assert!(!looks_like_title("42"));
}

fn segment(id: u128, t0: i64, t1: i64) -> Segment {
    Segment {
        id,
        video_id: 1,
        level: SegmentLevel::Shot,
        parent_id: None,
        t0: Timestamp::from_secs(t0),
        t1: Timestamp::from_secs(t1),
        keyframe_sample_id: None,
        title: None,
        summary: None,
        provenance_id: 2,
    }
}

#[test]
fn chapters_take_the_title_on_screen() {
    let scenes = vec![segment(1, 0, 300), segment(2, 300, 600)];
    let lines = vec![ScreenLine {
        t: Timestamp::from_secs(310),
        text: "Inside T-Bench: Building Reliable Evaluation".into(),
        bbox: None,
    }];
    let titles = scene_titles(&scenes, &lines);
    assert_eq!(titles.len(), 2);
    assert_eq!(titles[0], None);
    let changes = changes_of_title(&titles);
    assert_eq!(changes.len(), 1);
    let rows = chapter_rows(
        &scenes,
        &titles,
        &vec![0, 1],
        1,
        Timestamp::from_secs(601),
        &vec![51, 52],
        3,
    );
    assert_eq!(rows.len(), 2);
    assert_eq!(rows[0].level, SegmentLevel::Chapter);
    assert_eq!(rows[0].t1, rows[1].t0);
    assert_eq!(rows[1].t1, Timestamp::from_secs(601));
    assert_eq!(rows[1].id, 52);
}

#[test]
fn extract_json_repairs_trailing_commas() {
    let text = "```json\n{\"entities\": [{\"name\": \"a\", \"kind\": \"person\",}, ], \"events\": [],}\n```";
    let v = extract_json(text).expect("repaired");
    let entities = v.get_array("entities").unwrap();
    assert_eq!(entities[0].get_str("name").unwrap(), "a");
    assert!(extract_json("no json here").is_none());
    let ok = extract_json("prefix {\"a\": \"x, }\"} suffix").unwrap();
    assert_eq!(ok.get_str("a").unwrap(), "x, }");
}

#[test]
fn json_is_found_inside_prose_and_fences() {
    let v = extract_json("Here you go:\n```json\n{\"entities\": [], \"events\": [{\"t0\": 1, \"t1\": 2, \"text\": \"x\"}]}\n```\nDone.").unwrap();
    assert_eq!(
        v.get_array("events").unwrap()[0].get_str("text").unwrap(),
        "x"
    );
    assert!(extract_json("no json here").is_none());
    assert!(extract_json("[1,2]").is_none());
}

#[test]
fn json_is_shown_as_it_was_read() {
    let v = parse(r#"{"b":[1,true,null,"q\"\n"],"a":{}}"#).unwrap();
    let again = parse(&show(&v)).unwrap();
    assert_eq!(show(&again), show(&v));
    assert!(show(&v).contains(r#""q\"\n""#));
    assert!(parse("{").is_none());
    assert!(v.is_object());
}

#[test]
fn groups_short_shots_and_splits_at_strong_boundaries() {
    // Twelve 10 s shots; strong visual breaks everywhere, no speech
    // crossing: shots merge only up to the minimum length.
    let shots: Vec<(i128, i128)> = (0..12)
        .map(|i| (ns(i as f64 * 10.0), ns((i + 1) as f64 * 10.0)))
        .collect();
    let sims = vec![Some(100_000); 11];
    let crossing = vec![false; 11];
    let g = group(&shots, &sims, &crossing);
    assert!(
        g.iter()
            .all(|(a, b)| shots[*b - 1].1 - shots[*a].0 >= MIN_SCENE_NANOS),
        "{g:?}"
    );
    assert_eq!(g.first().unwrap().0, 0);
    assert_eq!(g.last().unwrap().1, 12);
    for w in g.windows(2) {
        assert_eq!(w[0].1, w[1].0, "no gaps");
    }
    // Similar shots merge into one scene up to the maximum length.
    let sims = vec![Some(950_000); 11];
    let g = group(&shots, &sims, &crossing);
    assert_eq!(g.len(), 1, "{g:?}");
    // Twenty 10 s similar shots: 200 s exceeds the max, so two scenes.
    let shots: Vec<(i128, i128)> = (0..20)
        .map(|i| (ns(i as f64 * 10.0), ns((i + 1) as f64 * 10.0)))
        .collect();
    let g = group(&shots, &vec![Some(950_000); 19], &vec![false; 19]);
    assert!(g.len() >= 2, "{g:?}");
    assert!(g
        .iter()
        .all(|(a, b)| shots[*b - 1].1 - shots[*a].0 <= MAX_SCENE_NANOS));
    assert!(group(&vec![], &vec![], &vec![]).is_empty());
}

#[test]
fn long_shots_are_cut_into_pieces_at_span_starts() {
    let shot = segment(1, 0, 600);
    let spans = vec![(ns(118.0), ns(130.0)), (ns(245.0), ns(260.0))];
    let pieces = split_long_shots(&vec![shot], &spans);
    assert_eq!(pieces.len(), 5, "{pieces:?}");
    assert_eq!(pieces[0].t0, Timestamp::zero());
    assert_eq!(pieces[4].t1, Timestamp::from_secs(600));
    let secs = |t: Timestamp| t.num as f64 / t.den as f64;
    assert!(
        (secs(pieces[0].t1) - 118.0).abs() < 1e-6,
        "snapped to a span start"
    );
    assert!((secs(pieces[1].t1) - 245.0).abs() < 1e-6);
    for w in pieces.windows(2) {
        assert_eq!(w[0].t1, w[1].t0);
    }
}

#[test]
fn scenes_hold_their_shots() {
    // In halves of a millionth: speech across a boundary halves its strength.
    assert_eq!(
        boundary_strength(Some(250_000), false),
        2 * boundary_strength(Some(250_000), true)
    );
    assert_eq!(boundary_strength(None, false), 1_000_000);
    let shots = vec![segment(1, 0, 30), segment(2, 30, 60), segment(3, 60, 90)];
    assert_eq!(
        crossings(&shots, &vec![(ns(25.0), ns(35.0))]),
        vec![true, false]
    );
    let rows = scene_rows(
        &shots,
        &vec![(0, 2), (2, 3)],
        1,
        Timestamp::from_secs(91),
        &vec![41, 42],
        5,
    );
    assert_eq!(rows.len(), 2);
    assert_eq!(rows[0].level, SegmentLevel::Scene);
    assert_eq!(rows[0].t1, rows[1].t0);
    assert_eq!(parent_scene(&shots[1], &rows), Some(41));
    assert_eq!(parent_scene(&shots[2], &rows), Some(42));
}

#[test]
fn description_text_flattens_json_and_keeps_prose() {
    let (t, s) = description_text("```json\n{\"summary\":\"A talk.\",\"visible\":\"Two speakers.\",\"on_screen_text\":[\"Evals 101\"],\"actions\":[],\"topics\":[\"evals\"]}\n```");
    assert!(s.is_some());
    assert_eq!(t, "A talk. Two speakers. Evals 101 evals");
    let (t, s) = description_text("Just prose.");
    assert!(s.is_none());
    assert_eq!(t, "Just prose.");
}

#[test]
fn a_scene_is_described_with_its_summary() {
    let (said, structured) = description_text("{\"summary\":\"A talk.\"}");
    assert_eq!(scene_summary(&structured).as_deref(), Some("A talk."));
    let d = description_row(9, "scene-1", said, &structured, 4);
    assert_eq!(d.target_id, "scene-1");
    assert_eq!(d.text, "A talk.");
    assert_eq!(d.provenance_id, 4);
    let spans = vec![TimedText {
        t0: Timestamp::from_secs(61),
        t1: Timestamp::from_secs(62),
        text: "hello".into(),
    }];
    let text = scene_text(
        "Talk",
        Timestamp::from_secs(60),
        Timestamp::from_secs(90),
        3,
        &spans,
    );
    assert!(text.contains("00:01:01"), "{text}");
    assert!(text.contains("hello"));
    let (n, _) = sample_rate(ns(30.0));
    assert!(n > 0);
}

#[test]
fn entities_are_known_by_their_canonical_name() {
    assert_eq!(canonical("  OpenAI   Inc "), "openai inc");
    assert_eq!(canonical("  Ada   LOVELACE "), canonical("ada\tlovelace"));
    assert_eq!(canonical(&canonical("  Ada   LOVELACE ")), "ada lovelace");
    assert_eq!(canonical("\u{c9}cole  ZOLA"), "\u{e9}cole zola");
    assert_eq!(single_space(" a \n b "), "a b");
    assert_eq!(kind_of("person"), EntityKind::Person);
    assert_eq!(kind_of("something"), EntityKind::Concept);
    let mut facts = Facts::new();
    let v = extract_json(
        r#"{"entities":[{"name":"Ada","kind":"person","mentions":[{"t0":1,"t1":2}]},
            {"name":"ada","kind":"person","mentions":[{"t0":5,"t1":6},{"t0":7}]}],
            "events":[{"t0":1,"t1":2,"text":"Ada speaks","participants":["Ada"]}]}"#,
    )
    .unwrap();
    facts.absorb(&v, 7);
    assert_eq!(facts.entities.len(), 1);
    assert_eq!(facts.entities[0].name, "Ada");
    assert_eq!(facts.mentions.len(), 2);
    assert_eq!(facts.events.len(), 1);
    assert_eq!(facts.events[0].participants, vec![0]);
    assert_eq!(facts.stored_order(), vec![0]);
}

#[test]
fn extraction_goes_window_by_window() {
    let lines = vec![
        Line {
            t: ns(10.0),
            text: "first".into(),
        },
        Line {
            t: ns(700.0),
            text: "second".into(),
        },
    ];
    let mut e = Extraction::start(lines, ns(750.0));
    match e.ask("Talk", true) {
        Ask::Call(a, b, text, _) => {
            assert_eq!((a, b), (ns(0.0), ns(300.0)));
            assert!(text.contains("first"));
            assert!(!text.contains("second"));
        }
        other => panic!("{other:?}"),
    }
    assert!(e.answer(r#"{"entities":[{"name":"X","kind":"object"}],"events":[]}"#, 1));
    match e.ask("Talk", true) {
        Ask::Call(a, _, _, _) => assert_eq!(a, ns(600.0)),
        other => panic!("{other:?}"),
    }
    assert!(!e.answer("not json", 2));
    let mut failing = Extraction::start(
        vec![Line {
            t: ns(1.0),
            text: "x".into(),
        }],
        ns(10.0),
    );
    assert!(matches!(failing.ask("Talk", true), Ask::Call(_, _, _, _)));
    failing.fail();
    assert!(matches!(failing.ask("Talk", true), Ask::Done));
    assert_eq!(failing.finish().2, 0);
    assert!(matches!(e.ask("Talk", true), Ask::Done));
    let (facts, windows, ok) = e.finish();
    assert_eq!(facts.entities.len(), 1);
    assert_eq!((windows, ok), (2, 1));
    assert!(unreadable("stop", "oops").contains("oops"));
}

#[test]
fn lines_are_collected_in_time_order() {
    let lines = collect_lines(
        &vec![SceneText {
            target: "s1".into(),
            text: "a slide".into(),
        }],
        &vec![SceneStart {
            id: "s1".into(),
            t0: Timestamp::from_secs(20),
        }],
        &vec![Spoken {
            t0: Timestamp::from_secs(10),
            text: "hello".into(),
        }],
    );
    assert_eq!(lines.len(), 2);
    assert!(lines[0].text.contains("hello"));
    assert_eq!(lines[1].t, ns(20.0));
}

#[test]
fn chapters_are_divided_as_a_whole() {
    // Ten scenes of two minutes; the topic changes in the middle.
    let scenes: Vec<Segment> = (0..10)
        .map(|i| segment(i as u128, i * 120, (i + 1) * 120))
        .collect();
    let ChapterStart::Divide(scenes) = start_chapters(0, scenes, vec![], vec![]) else {
        panic!("scenes to divide")
    };
    let embs: Vec<Option<Vec<i32>>> = (0..10)
        .map(|i| Some(if i < 5 { vec![1_000_000, 0] } else { vec![0, 1_000_000] }))
        .collect();
    let ids: Vec<u128> = (50..60).collect();
    let rows = divide_chapters(
        &scenes,
        &embs,
        &vec![],
        1,
        Timestamp::from_secs(1205),
        &ids,
        3,
    );
    assert_eq!(rows.len(), 2);
    assert_eq!(rows[0].t0, Timestamp::zero());
    assert_eq!(rows[1].t0, Timestamp::from_secs(600));
    assert_eq!(rows[1].t1, Timestamp::from_secs(1205));
    assert!(matches!(
        start_chapters(1, vec![segment(1, 0, 9)], vec![], vec![]),
        ChapterStart::Keep
    ));
    assert!(matches!(
        start_chapters(0, vec![], vec![], vec![]),
        ChapterStart::Nothing
    ));
    assert!(matches!(
        start_chapters(0, vec![], vec![], vec![segment(1, 0, 9)]),
        ChapterStart::Divide(v) if v.len() == 1
    ));
}

#[test]
fn scenes_are_divided_as_a_whole() {
    let shots = start_scenes(vec![segment(2, 30, 60), segment(1, 0, 30)], vec![]).unwrap();
    assert_eq!(shots[0].id, 1);
    let pieces = split_long_shots(&shots, &vec![]);
    let (scenes, placed) = divide_scenes(
        shots,
        &pieces,
        &vec![Some(0)],
        &vec![],
        1,
        Timestamp::from_secs(61),
        &vec![41, 42],
        5,
    );
    assert_eq!(scenes.len(), 2);
    assert_eq!(scenes[1].t1, Timestamp::from_secs(61));
    assert_eq!(placed[0].parent_id, Some(41));
    assert_eq!(placed[1].parent_id, Some(42));
    assert!(start_scenes(vec![], vec![]).is_none());
}

#[test]
fn scenes_are_described_while_the_budget_lasts() {
    assert_eq!(describe_step(0, 3, true), DescribeStep::Describe(0));
    assert_eq!(describe_step(1, 3, false), DescribeStep::Skip(2));
    assert_eq!(describe_step(3, 3, true), DescribeStep::Done);
}

#[test]
fn numbers_are_read_as_times() {
    let ms = |t: &str| {
        let j = parse(&format!("{{\"t\": {t}}}")).unwrap();
        let n = j.get_num("t").unwrap();
        (n.ticks(1_000_000), n.signed_ticks(1_000_000))
    };
    assert_eq!(ms("12"), (12_000, 12_000));
    assert_eq!(ms("1.5"), (1500, 1500));
    assert_eq!(ms("0.0005"), (1, 1));
    assert_eq!(ms("0.000499"), (0, 0));
    assert_eq!(ms("-2.25"), (0, -2250));
    assert_eq!(ms("1e-7"), (0, 0));
    assert_eq!(ms("2.5e3"), (2_500_000, 2_500_000));
    assert_eq!(ms("0"), (0, 0));
    assert_eq!(ms("1e300"), (i64::MAX, i64::MAX));
    assert_eq!(ms("123456789.123456789"), (123_456_789_123, 123_456_789_123));
}

#[test]
fn the_first_object_of_a_reply_counts() {
    let first = |s: &str| extract_json(s).map(|j| show(&j));
    assert_eq!(first(r#"{"a": 1} {"b": 2}"#), Some(r#"{"a":1}"#.to_string()));
    assert_eq!(
        first(r#"Use {braces}: {"a": "}",} and {"b": 2}"#),
        Some(r#"{"a":"}"}"#.to_string())
    );
    assert_eq!(first(r#"{"a": {"b": 2}} }"#), Some(r#"{"a":{"b":2}}"#.to_string()));
    assert_eq!(first("{ {"), None);
    // Nothing is taken out of what was cut off, or out of what is no object as a whole.
    assert_eq!(first(r#"{"entities":[{"name":"x"}], "events": ["#), None);
    assert_eq!(first(r#"{entities:[{"name":"x"}]}"#), None);
    assert_eq!(first(r#"{entities:[{"name":"x"}]} {"a": 1}"#), Some(r#"{"a":1}"#.to_string()));
}

#[test]
fn strong_boundaries_hold_once_scenes_are_long_enough() {
    let shots: Vec<(i128, i128)> = (0..12)
        .map(|i| (ns(i as f64 * 10.0), ns((i + 1) as f64 * 10.0)))
        .collect();
    let g = group(&shots, &vec![Some(100_000); 11], &vec![false; 11]);
    assert_eq!(g, vec![(0, 2), (2, 4), (4, 6), (6, 8), (8, 10), (10, 12)]);
    let g = group(&shots[..5].to_vec(), &vec![Some(100_000); 4], &vec![false; 4]);
    assert_eq!(g, vec![(0, 2), (2, 5)]);
}

#[test]
fn rows_end_no_earlier_than_they_start() {
    let target = RowTarget::load(1, &vec![audio_track(8)]);
    let ids = RowIds {
        id: 21,
        frame: None,
        parent: None,
    };
    let stored = |t0: Timestamp, t1: Timestamp| {
        let s = CallbackSegment {
            t0,
            t1,
            title: None,
            summary: None,
            keyframe_sample_id: None,
            parent_id: None,
        };
        match store_row(target, 3, &vec![ItemKind::Scene], CallbackRow::Scene(s), ids).unwrap() {
            StoredRow::Segment(g) => (g.t0, g.t1),
            other => panic!("{other:?}"),
        }
    };
    let one = Timestamp::new(1, 1);
    assert_eq!(stored(one, Timestamp::new(500_000, 1_000_000)), (one, one));
    assert_eq!(
        stored(Timestamp::new(-3, 2), Timestamp::new(5, 2)),
        (Timestamp::new(0, 2), Timestamp::new(5, 2))
    );
    assert_eq!(
        stored(Timestamp::new(-3, 2), Timestamp::new(-1, 2)),
        (Timestamp::new(0, 2), Timestamp::new(0, 2))
    );
}
