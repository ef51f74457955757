use std::str::FromStr;

use vidx::batch::{chunks, Batch};
use vidx::dag::Dag;
use vidx::gate::{
    check_vectors, embedding_rows, embeds_text, failed_range, image_batch, text_batch, ImageGate,
    OcrGate, SeenLine,
};
use vidx::acquire::Source;
use vidx::acquired::Acquired;
use vidx::info::{SidecarChapter, Sidecars};
use vidx::jobs::{
    acquirer_for, all_failed, available, cache_key, check_operators, check_roles,
    expected_samples, given_chapters, import_chapters, planned, policy_name, progress, seed,
    summary, wire,
    AcquirerKind, JobTally, MediaItem, OpOutput, PlanError, RoleNeed, StageAction, StageRun, Video,
};
use vidx::charsmap::{check_map, unpack};
use vidx::operator::ItemKind;
use vidx::model::{sort_segments, SegmentLevel, TargetKind};
use vidx::path::{join, lies_under};
use vidx::pattern::{never_empty, never_moves};
use vidx::probe::{Probe, StreamInfo, TrackKind};
use vidx::perceive::{
    batch_ids, check_planes, check_rgb, check_tokenizer, default_threads, failure, first_tokens,
    fits_cut, fits_padding, model_dim,
    pad_ids, perr, plan_session, resolve_device, show_shape, split_rows, stays_whole, take_batch,
    take_ids,
    tokenize, tokenize_batch, AdapterConfig, Device, Failure, OnnxLocal, PerceiveError,
    Preprocess, ProviderError, TextTokenizer, PAD_ID, TEXT_LEN,
};
use vidx::registry::{build, cache_params, CacheSettings, Role};
use vidx::remote::{DownloadConfig, Http, ObjectStore};
use vidx::scheduler::{IndexState, Plan, StageStatus};
use vidx::sidecar::{Cue, SubtitleFile, SubtitleFormat};
use vidx::stages::{
    any_human, cost_estimate, embed_batches, scene_texts, AsrStage, AsrStart,
    InputSummary, OperatorName, Sample, SubtitleImport, SubtitleRun,
};
use vidx::timestamp::Timestamp;

fn strings(s: &[&str]) -> Vec<String> {
    s.iter().map(|x| x.to_string()).collect()
}

#[test]
fn unknown_and_planned_operators_are_clear_errors() {
    let later = planned();
    assert_eq!(
        later,
        strings(&["ocr", "scenes", "chapters", "vlm_describe", "entities_events"])
    );
    for p in &later {
        let e = check_operators("lecture_default", &vec![p.clone()], &vec![]).unwrap_err();
        assert!(matches!(&e, PlanError::Unsupported(m) if m.contains(p.as_str())), "{e:?}");
    }
    let e = check_operators("p", &strings(&["does_not_exist"]), &vec![]).unwrap_err();
    assert!(matches!(e, PlanError::Invalid(_)), "{e:?}");
    assert!(check_operators("m0", &strings(&["sample", "phash", "thumbnail"]), &vec![]).is_ok());
    assert!(check_operators("p", &strings(&["mine"]), &strings(&["mine"])).is_ok());
    assert!(check_operators("p", &vec![], &vec![]).is_err());
    assert!(available().contains(&"sample".to_string()));
}

#[test]
fn roles_must_be_served() {
    let needs = vec![RoleNeed {
        id: "asr".into(),
        roles: strings(&["asr"]),
    }];
    assert!(check_roles("p", &needs, &strings(&["asr", "vlm"])).is_ok());
    let e = check_roles("p", &needs, &strings(&["vlm"])).unwrap_err();
    assert!(matches!(e, PlanError::Provider(m) if m.contains("asr")));
    assert_eq!(policy_name(Some("a".into()), false, "d".into()), "a");
    assert_eq!(policy_name(None, false, "d".into()), "d");
}

#[test]
fn keys_change_with_what_they_name() {
    let k = cache_key("h", "asr", 1, "{}");
    assert!(k.starts_with("asr-"));
    assert_eq!(k.len(), 4 + 24);
    assert_eq!(k, cache_key("h", "asr", 1, "{}"));
    assert_ne!(k, cache_key("h", "asr", 2, "{}"));
    assert_ne!(k, cache_key("h", "asr", 1, "{\"a\":1}"));
    let hex = blake3::hash(b"h|asr|1|{}").to_hex().to_string();
    assert_eq!(k, format!("asr-{}", &hex[..24]));
}

#[test]
fn a_source_picks_its_acquirer() {
    let cfg = || DownloadConfig {
        max_bytes: 1000,
        max_redirects: 2,
        allow_private_addresses: false,
        timeout_secs: 60,
        r2_endpoint: None,
    };
    let http = Http::new("/c".into(), cfg());
    let store = ObjectStore::new("/c".into(), cfg());
    let pick = |s: Source| acquirer_for(&s, &http, &store, "uri");
    assert_eq!(pick(Source::Path("/a.mp4".into())).unwrap(), AcquirerKind::Local);
    assert_eq!(
        pick(Source::Url("https://youtu.be/abc".into())).unwrap(),
        AcquirerKind::YtDlp
    );
    assert_eq!(
        pick(Source::Url("https://x.example/a.mp4".into())).unwrap(),
        AcquirerKind::Http
    );
    assert_eq!(
        pick(Source::Url("s3://b/a.mp4".into())).unwrap(),
        AcquirerKind::ObjectStore
    );
}

#[test]
fn chapters_of_the_metadata_come_first() {
    let meta = vec![SidecarChapter {
        t0: Timestamp::zero(),
        t1: Timestamp::from_secs(5),
        title: Some("One".into()),
    }];
    let given = given_chapters(&meta, &vec![]);
    assert_eq!(given.len(), 1);
    let rows = import_chapters(&given, 1, &vec![31], 2);
    assert_eq!(rows[0].level, SegmentLevel::Chapter);
    assert_eq!(rows[0].title.as_deref(), Some("One"));
    assert_eq!(rows[0].id, 31);
    let sorted = sort_segments(rows);
    assert_eq!(sorted.len(), 1);
}

fn acquired() -> Acquired {
    Acquired::assemble(
        "/a.mp4".into(),
        "file:///a.mp4".into(),
        "h".into(),
        1,
        Sidecars {
            info: None,
            subtitles: vec![],
        },
    )
}

#[test]
fn a_video_keeps_its_id() {
    let v = Video::fresh(5, &acquired(), Timestamp::from_secs(9), Some("Container".into()));
    assert_eq!(v.id, 5);
    assert_eq!(v.title.as_deref(), Some("Container"));
    assert_eq!(v.index_state, IndexState::Acquired);
    let v = v.refresh(&acquired(), Timestamp::from_secs(10), None);
    assert_eq!(v.id, 5);
    assert_eq!(v.duration, Timestamp::from_secs(10));
    assert_eq!(expected_samples(Timestamp::from_secs(10), 1000), 10);
    assert!(!any_human(&acquired()));
}

#[test]
fn skipped_stages_are_not_wired() {
    let consumers = vec![vec![1, 2], vec![], vec![]];
    let plan = vec![Plan::Replay, Plan::Run, Plan::Skip];
    assert_eq!(wire(&consumers, &plan), vec![vec![1], vec![], vec![]]);
    assert_eq!(seed(&plan, &vec![0]), vec![true, false, false]);
}

#[test]
fn a_stage_counts_what_it_did() {
    let mut s = StageRun::new(false);
    assert_eq!(s.item(true), StageAction::Run);
    s.ran(OpOutput {
        emitted: 2,
        stored: 3,
    });
    assert!(s.finishes());
    assert_eq!(s.done.stored, 3);
    let mut r = StageRun::new(true);
    assert_eq!(r.item(true), StageAction::RunAndReplay);
    assert!(r.replayed(None).is_err());
    assert!(r.replayed(Some(4)).is_ok());
    assert_eq!(r.done.emitted, 4);
    assert_eq!(r.item(false), StageAction::Ignore);
    assert!(all_failed(Some("why")).unwrap().contains("why"));
    assert_eq!(
        summary(3, 10, "1.5", Some("0.02"), 1, 2),
        "3 stages, 10 samples, 1.5s, $0.02, 1 inputs failed, 2 skipped (budget)"
    );
    assert_eq!(summary(1, 0, "0.1", None, 0, 0), "1 stages, 0 samples, 0.1s");
}

#[test]
fn batches_are_full_or_forced() {
    let mut b: Batch<u32> = Batch::new(2);
    b.push(1);
    assert!(b.take(false).is_empty());
    b.push(2);
    b.push(3);
    assert_eq!(b.take(false), vec![1, 2, 3]);
    assert_eq!(b.len(), 0);
    b.push(4);
    assert_eq!(b.take(true), vec![4]);
    assert_eq!(chunks(5, 2), vec![(0, 2), (2, 4), (4, 5)]);
    assert!(chunks(0, 2).is_empty());
}

#[test]
fn unchanged_frames_are_not_read_again() {
    let mut g = OcrGate::new();
    assert!(g.offer(0, Timestamp::zero(), false, 10_000));
    assert!(!g.offer(1, Timestamp::from_secs(1), false, 10_000));
    assert!(g.offer(1, Timestamp::from_secs(2), true, 10_000));
    assert!(g.offer(0xffff, Timestamp::from_secs(3), false, 10_000));
    assert!(g.offer(0xffff, Timestamp::from_secs(60), false, 10_000));
    assert_eq!((g.frames, g.read), (5, 4));
    let line = |s: &str| SeenLine {
        text: s.into(),
        bbox: None,
        confidence: None,
    };
    let t = Timestamp::from_secs(60);
    let first = g.take_lines(&vec![line("Hello"), line("x")], 2, 4, t, &vec![1, 2], 9);
    assert_eq!(first.len(), 1);
    assert_eq!(first[0].text, "Hello");
    assert_eq!(first[0].frame_sample_id, 4);
    let again = g.take_lines(&vec![line("Hello"), line("New")], 2, 5, t, &vec![3, 4], 9);
    assert_eq!(again.len(), 1);
    assert_eq!((again[0].id, again[0].text.as_str()), (4, "New"));
    assert_eq!(g.stored, 2);
}

#[test]
fn near_duplicates_are_not_embedded() {
    let mut g = ImageGate::new();
    assert!(g.offer(0));
    assert!(!g.offer(0x3f));
    assert!(g.offer(0x7f));
    assert_eq!((g.seen, g.skipped), (3, 1));
    assert!(image_batch(0) >= 1);
    assert!(text_batch(0) >= 1);
    assert!(embeds_text("words"));
    assert!(!embeds_text("  "));
    assert!(check_vectors(2, 2, "images").is_ok());
    assert!(check_vectors(1, 2, "images").unwrap_err().contains("images"));
    let rows = embedding_rows(
        &vec![(TargetKind::Frame, 7), (TargetKind::Segment, 8)],
        &vec![3, 3],
        "images",
        "siglip",
        &vec![1, 2],
        9,
    )
    .unwrap();
    assert_eq!(rows.len(), 2);
    assert_eq!((rows[1].target_id, rows[1].dim, rows[1].vector), (8, 3, 1));
    assert!(embedding_rows(
        &vec![(TargetKind::Frame, 7)],
        &vec![],
        "images",
        "m",
        &vec![1],
        9
    )
    .is_err());
    let (a, b) = failed_range(&vec![Timestamp::from_secs(4), Timestamp::from_secs(9)]);
    assert_eq!((a, b), (Timestamp::from_secs(4), Timestamp::from_secs(9)));
}

#[test]
fn devices_and_models_are_resolved() {
    assert_eq!(resolve_device("cpu", true).unwrap(), Device::Cpu);
    assert_eq!(resolve_device("auto", true).unwrap(), Device::Cuda);
    assert_eq!(resolve_device("auto", false).unwrap(), Device::Cpu);
    assert!(resolve_device("cuda", false).is_err());
    assert!(resolve_device("tpu", true).is_err());
    assert_eq!(Device::Cuda.as_str(), "cuda");
    assert!(default_threads(Some(64)) >= 1);
    assert!(matches!(
        plan_session("/m.onnx", false, Device::Cpu, false, 4, None, "run setup"),
        Err(PerceiveError::ModelMissing { .. })
    ));
    assert_eq!(
        plan_session("/m.onnx", true, Device::Cpu, false, 4, None, "").unwrap(),
        4
    );
    let cfg = AdapterConfig {
        model_dir: None,
        image_model: None,
        text_model: Some("other".into()),
        ocr_model: None,
        device: Some("cpu".into()),
        threads: Some(-3),
    };
    let a = OnnxLocal::from_config("local", &cfg, "/models", "auto", 8, false).unwrap();
    assert_eq!(a.text_model, "other");
    assert_eq!(a.threads, 0);
    assert_eq!(a.device(), Device::Cpu);
    assert!(a.load_error().is_none());
    assert_eq!(model_dim(Some("{\"hidden_size\":384}"), None, 768), 384);
    assert_eq!(model_dim(None, None, 768), 768);
    let p = Preprocess::from_text(None);
    assert_eq!(p.size, 224);
    assert_eq!(p.mean, vec![500_000_000; 3]);
}

#[test]
fn failures_keep_their_kind() {
    let e = PerceiveError::Invalid("bad".into());
    assert!(matches!(failure(e), Failure::Invalid(_)));
    let e = PerceiveError::ModelMissing {
        path: "/m".into(),
        hint: "h".into(),
    };
    assert!(e.message().contains("/m"));
    assert!(matches!(perr("local", e), ProviderError::ModelMissing { .. }));
    assert!(matches!(
        perr("local", PerceiveError::Onnx("x".into())),
        ProviderError::Inference { .. }
    ));
}

const WORDS: &str = r#"{
    "version": "1.0", "truncation": null, "padding": null, "added_tokens": [],
    "normalizer": null, "pre_tokenizer": {"type": "Whitespace"},
    "post_processor": null, "decoder": null,
    "model": {"type": "WordLevel", "vocab": {"[UNK]": 0, "red": 5, "image": 7}, "unk_token": "[UNK]"}
}"#;

#[test]
fn text_becomes_padded_ids() {
    let tok = TextTokenizer::new(tokenizers::Tokenizer::from_str(WORDS).unwrap()).unwrap();
    let ids = tokenize(&tok, "red image").unwrap();
    assert_eq!(ids.len(), TEXT_LEN);
    assert_eq!(&ids[..3], &[5, 7, PAD_ID]);
    assert_eq!(ids[TEXT_LEN - 1], PAD_ID);
    let b = tokenize_batch(&tok, strings(&["red", "image red image"])).unwrap();
    assert_eq!((b.rows, b.len), (2, 3));
    assert_eq!(b.ids, vec![5, 0, 0, 7, 5, 7]);
    assert_eq!(b.mask, vec![1, 0, 0, 1, 1, 1]);
    assert_eq!(pad_ids(&vec![9; 70]).len(), TEXT_LEN);
    assert!(take_ids(Err("why".into())).is_err());
    assert!(take_batch(Err("why".into())).is_err());
    assert_eq!(batch_ids(&vec![]).rows, 0);
}

#[test]
fn tensors_are_split_by_row() {
    assert_eq!(show_shape(&vec![2, 3]), "[2, 3]");
    assert_eq!(split_rows(&vec![2, 3], 6, 2, 3).unwrap(), vec![(0, 3), (3, 6)]);
    assert!(split_rows(&vec![2, 4], 8, 2, 3).is_err());
    assert_eq!(first_tokens(&vec![2, 4, 3], 2, 3).unwrap(), vec![0, 12]);
    assert!(first_tokens(&vec![2, 3], 2, 3).is_err());
    assert!(check_planes(&vec![3 * 4 * 4], 4).is_ok());
    assert!(check_planes(&vec![5], 4).is_err());
    assert!(check_rgb(12, 2, 2).is_ok());
    assert!(check_rgb(11, 2, 2).is_err());
}

#[test]
fn the_same_subtitles_are_imported_once() {
    let _ = SubtitleImport::new();
    let mut run = SubtitleRun::new();
    let file = SubtitleFile {
        path: "/a.en.srt".into(),
        language: Some("en".into()),
        format: SubtitleFormat::Srt,
    };
    let cues = vec![Cue {
        t0: Timestamp::zero(),
        t1: Timestamp::from_secs(2),
        text: "hi".into(),
    }];
    let got = run.import(0, &file, &cues, true, 1, 50, &vec![61], 9).unwrap();
    assert_eq!(got.spans.len(), 1);
    assert_eq!(got.spans[0].text, "hi");
    assert_eq!(got.track.id, 50);
    assert_eq!(got.track.stream_index, 1000);
    assert!(run.import(1, &file, &cues, true, 1, 51, &vec![62], 9).is_none());
    assert!(run.import(2, &file, &vec![], true, 1, 52, &vec![], 9).is_none());
}

#[test]
fn speech_waits_for_the_audio_track() {
    let mut s = AsrStage::new();
    assert_eq!(s.media(None, false, false), AsrStart::NoAudio);
    let mut s = AsrStage::new();
    assert_eq!(s.media(Some(4), true, true), AsrStart::Skip);
    assert_eq!(s.speech().unwrap(), None);
    let mut s = AsrStage::new();
    assert_eq!(s.media(Some(4), false, true), AsrStart::Begin(4));
    assert_eq!(s.speech().unwrap(), Some(4));
    assert_eq!(s.requests, 1);
    s.finished(2, 2);
    assert_eq!((s.emitted, s.stored), (2, 2));
    assert!(AsrStage::is_full(4, 4));
    assert!(!AsrStage::is_full(3, 4));
    assert!(scene_texts(&vec![], &vec![]).is_empty());
    // Only texts of more than twenty bytes are embedded.
    let texts = strings(&["twenty-one characters", "twenty characters...", "as long as it has to be"]);
    let b = embed_batches(&texts, 1);
    assert_eq!(b.len(), 2);
    assert_eq!((b[0].places[0], b[1].places[0]), (0, 2));
    assert_eq!(b[1].texts, strings(&["as long as it has to be"]));
}

#[test]
fn samples_are_requested_and_stored() {
    let s = Sample::new();
    let r = s.request("/a.mp4".into(), 2, 1000, 640);
    assert_eq!(r.stream_index, Some(2));
    assert_eq!((r.fps_milli, r.max_dim), (1000, 640));
}

#[test]
fn costs_follow_the_input() {
    let i = InputSummary {
        duration_ms: 600_000,
        expected_samples: 600,
        width: 1280,
        height: 720,
        has_audio: true,
    };
    assert_eq!(cost_estimate(OperatorName::Sample, i).cpu_us, 24_000_000);
    assert_eq!(cost_estimate(OperatorName::PHash, i).cpu_us, 600_000);
    let asr = cost_estimate(OperatorName::Asr, i);
    assert_eq!(asr.provider_calls, 14);
    let silent = InputSummary {
        has_audio: false,
        ..i
    };
    assert_eq!(cost_estimate(OperatorName::Asr, silent).provider_calls, 0);
    let huge = InputSummary {
        duration_ms: u64::MAX,
        width: u32::MAX,
        height: u32::MAX,
        ..i
    };
    assert_eq!(
        cost_estimate(OperatorName::Sample, huge).cpu_us,
        (u64::MAX as u128) * ((u32::MAX as u128) * (u32::MAX as u128)) / 23_040
    );
}

#[test]
fn paths_join_and_nest() {
    assert_eq!(join("/a", "b"), "/a/b");
    assert!(lies_under("/a/b/c", "/a/b"));
    assert!(!lies_under("/a/bc", "/a/b"));
}

#[test]
fn operators_are_found_by_name() {
    for name in available() {
        assert_eq!(build(&name).unwrap().id(), name);
    }
    for name in planned() {
        assert!(build(&name).is_none());
    }
    assert!(build("").is_none());
    assert_eq!(OperatorName::Chapters.required_role(), Some(Role::TextEmbed));
    assert_eq!(OperatorName::Scenes.optional_inputs(), vec![ItemKind::TranscriptSpan]);
    assert!(OperatorName::Scenes.replay_supported());
    assert!(!OperatorName::Sample.replay_supported());
    assert_eq!(OperatorName::Asr.version(), 1);
    // The operators of the smallest policy make a pipeline.
    let decls = strings(&["thumbnail", "subtitle_import", "phash", "sample"])
        .iter()
        .map(|n| build(n).unwrap().declare())
        .collect();
    let dag = Dag::build(decls).unwrap();
    let names = dag.stage_names();
    let at = |n: &str| names.iter().position(|x| x == n).unwrap();
    assert!(at("sample") < at("thumbnail"));
    assert!(at("sample") < at("phash"));
}

#[test]
fn cache_parameters_are_json() {
    let c = CacheSettings {
        served_by: Some(("onnx_local".into(), "a \"model\"".into())),
        prompt_hash: Some("abc".into()),
        grid: "3x3".into(),
        sample_fps: "1.0".into(),
    };
    for op in [
        OperatorName::SubtitleImport,
        OperatorName::ImageEmbed,
        OperatorName::TextEmbed,
        OperatorName::Scenes,
        OperatorName::Chapters,
        OperatorName::VlmDescribe,
        OperatorName::EntitiesEvents,
    ] {
        let text = cache_params(op, &c).unwrap();
        let v: serde_json::Value = serde_json::from_str(&text).unwrap();
        assert_eq!(v.to_string(), text);
    }
    let v: serde_json::Value =
        serde_json::from_str(&cache_params(OperatorName::Scenes, &c).unwrap()).unwrap();
    assert_eq!(v["similar"], serde_json::Value::from(0.85f32));
    assert_eq!(v["image_model"], "a \"model\"");
    assert!(cache_params(OperatorName::PHash, &c).is_none());
    let unserved = CacheSettings {
        served_by: None,
        prompt_hash: None,
        ..c
    };
    assert_eq!(
        cache_params(OperatorName::EntitiesEvents, &unserved).unwrap(),
        r#"{"model":"","prompt_hash":null,"provider":"","window_secs":300.0}"#
    );
}

#[test]
fn progress_is_never_more_than_the_whole() {
    assert_eq!(progress(1, Some(4)), (1, 4));
    assert_eq!(progress(9, Some(4)), (4, 4));
    assert_eq!(progress(9, Some(0)), (0, 1));
    assert_eq!(progress(9, None), (0, 1));
}

fn stream(index: u32, kind: TrackKind, size: u32) -> StreamInfo {
    StreamInfo {
        index,
        kind,
        codec: "c".into(),
        codec_long_name: "codec".into(),
        time_base_num: 1,
        time_base_den: 1000,
        start_time: 0,
        duration: None,
        frames: None,
        width: Some(size),
        height: Some(size),
        pix_fmt: None,
        fps: None,
        avg_fps: None,
        sample_rate: None,
        channels: Some(size),
        sample_fmt: None,
        bit_rate: None,
        language: None,
        title: None,
        is_default: false,
    }
}

fn media_item(streams: Vec<StreamInfo>) -> MediaItem {
    let probe = Probe {
        path: "/a.mp4".into(),
        size_bytes: 1,
        format_name: "mp4".into(),
        format_long_name: "MP4".into(),
        duration: Timestamp::from_secs(5),
        start_time: Timestamp::zero(),
        bit_rate: 0,
        streams,
        chapters: vec![],
        metadata: vec![],
        keyframe_interval: None,
        libav: "libav".into(),
    };
    let ids: Vec<u128> = (0..probe.streams.len() as u128).map(|i| 100 + i).collect();
    let acquired = acquired();
    let video = Video::fresh(7, &acquired, probe.duration, None);
    let tracks = probe.tracks(7, &ids);
    MediaItem {
        acquired,
        probe,
        video,
        tracks,
        expected_samples: 5,
    }
}

#[test]
fn the_best_streams_are_the_ones_to_read() {
    let m = media_item(vec![
        stream(0, TrackKind::Video, 320),
        stream(1, TrackKind::Audio, 2),
        stream(2, TrackKind::Video, 720),
        stream(3, TrackKind::Audio, 1),
    ]);
    assert_eq!(m.video_track().unwrap().id, 102);
    assert_eq!(m.audio_track().unwrap().stream_index, 1);
    let silent = media_item(vec![stream(0, TrackKind::Video, 8)]);
    assert!(silent.audio_track().is_none());
    let mut unknown = media_item(vec![stream(0, TrackKind::Video, 8)]);
    unknown.tracks.clear();
    assert!(unknown.video_track().is_none());
}

#[test]
fn a_job_adds_up_its_stages() {
    let mut t = JobTally::new();
    let v = t.stage_ended("sample", Some(OpOutput { emitted: 9, stored: 9 }), 0, 0);
    assert!(v.cache && v.ok && !v.partial);
    let v = t.stage_ended("text_embed", Some(OpOutput { emitted: 0, stored: 3 }), 1, 2);
    assert!(v.ok && v.partial && !v.cache);
    assert_eq!(
        t,
        JobTally { ok: true, partial: true, samples: 9, failed: 1, skipped: 2 }
    );
    let v = t.stage_ended("ocr", Some(OpOutput::default()), 4, 0);
    assert_eq!(v.status, StageStatus::Failed);
    let v = t.stage_ended("sample", None, 0, 0);
    assert!(!v.ok && !v.cache);
    assert_eq!(
        t,
        JobTally { ok: false, partial: true, samples: 9, failed: 5, skipped: 2 }
    );
}

fn loaded(changes: &[(&str, &str)]) -> tokenizers::Tokenizer {
    let mut text = WORDS.to_string();
    for (from, to) in changes {
        assert!(text.contains(from), "{from}");
        text = text.replace(from, to);
    }
    tokenizers::Tokenizer::from_str(&text).unwrap()
}

const PRE: &str = "\"pre_tokenizer\": {\"type\": \"Whitespace\"}";
const POST: &str = "\"post_processor\": null";
const NORM: &str = "\"normalizer\": null";
const ADDED: &str = "\"added_tokens\": []";

#[test]
fn tokenizers_that_cannot_cut_are_refused() {
    let with = |truncation: &str, padding: &str, post: &str| {
        loaded(&[
            ("\"truncation\": null", &format!("\"truncation\": {truncation}")),
            ("\"padding\": null", &format!("\"padding\": {padding}")),
            (POST, &format!("\"post_processor\": {post}")),
        ])
    };
    let sound = |truncation: &str, padding: &str, post: &str| {
        TextTokenizer::new(with(truncation, padding, post)).unwrap()
    };
    let cut = |max: u32, stride: u32| {
        format!(
            r#"{{"direction": "Right", "max_length": {max}, "strategy": "LongestFirst", "stride": {stride}}}"#
        )
    };
    let bert = r#"{"type": "BertProcessing", "sep": ["[UNK]", 0], "cls": ["[UNK]", 0]}"#;
    // The stride must be smaller than what is kept.
    let tok = sound(&cut(2, 2), "null", "null");
    match tokenize(&tok, "red red red") {
        Err(PerceiveError::Onnx(m)) => {
            assert_eq!(m, "tokenizer: its settings do not fit together")
        }
        other => panic!("{other:?}"),
    }
    assert!(tokenize_batch(&tok, strings(&["red red red"])).is_err());
    // A text that need not be cut is taken all the same, alone or among others.
    assert_eq!(&tokenize(&tok, "red image").unwrap()[..3], &[5, 7, PAD_ID]);
    let b = tokenize_batch(&tok, strings(&["red image", "red"])).unwrap();
    assert_eq!(b.ids, vec![5, 7, 5, 0]);
    assert!(tokenize_batch(&tok, strings(&["red image", "red red red"])).is_err());
    let tok = sound(&cut(2, 1), "null", "null");
    assert_eq!(&tokenize(&tok, "red image red").unwrap()[..3], &[5, 7, PAD_ID]);
    // Special tokens take their share, but only where they are added.
    let tok = sound(&cut(3, 1), "null", bert);
    assert!(tokenize(&tok, "red image red image").is_ok());
    assert!(tokenize_batch(&tok, strings(&["red image red image"])).is_err());
    assert_eq!(tokenize_batch(&tok, strings(&["red"])).unwrap().ids, vec![0, 5, 0]);
    let tok = sound(&cut(1, 0), "null", bert);
    assert!(tokenize_batch(&tok, strings(&["red"])).is_err());
    let tok = sound(&cut(4, 1), "null", bert);
    let b = tokenize_batch(&tok, strings(&["red image red image"])).unwrap();
    assert_eq!(b.ids, vec![0, 5, 7, 0]);
    // Nothing kept is nothing cut.
    let tok = sound(&cut(2, 5), "null", bert);
    let b = tokenize_batch(&tok, strings(&["red image"])).unwrap();
    assert_eq!(b.ids, vec![0, 0]);
    // Padding without bounds.
    let pad = |n: u64| {
        format!(
            r#"{{"strategy": {{"Fixed": {n}}}, "direction": "Right", "pad_to_multiple_of": null, "pad_id": 3, "pad_type_id": 0, "pad_token": "p"}}"#
        )
    };
    assert!(TextTokenizer::new(with("null", &pad(u64::MAX), "null")).is_err());
    let tok = sound("null", &pad(4), "null");
    assert_eq!(&tokenize(&tok, "red").unwrap()[..5], &[5, 3, 3, 3, PAD_ID]);
    assert!(fits_cut(Some((4, 1)), 2));
    assert!(!fits_cut(Some((4, 2)), 2));
    assert!(!fits_cut(Some((4, 0)), 5));
    assert!(stays_whole(Some((3, 9)), Some(1), 2));
    assert!(!stays_whole(Some((3, 9)), Some(2), 2));
    assert!(stays_whole(None, Some(2), 2) && stays_whole(Some((0, 0)), None, 2));
    assert!(fits_padding((None, Some(8))));
    assert!(fits_padding((Some(20_000_000), None)));
}

#[test]
fn tokenizers_with_unusable_parts_are_refused() {
    let with = |pre: &str, post: &str| {
        loaded(&[
            (PRE, &format!("\"pre_tokenizer\": {pre}")),
            (POST, &format!("\"post_processor\": {post}")),
        ])
    };
    let sound = |pre: &str, post: &str| TextTokenizer::new(with(pre, post)).unwrap();
    let words = r#"{"type": "Whitespace"}"#;
    let template = |single: &str| {
        format!(
            r#"{{"type": "TemplateProcessing", "single": [{single}], "pair": [],
            "special_tokens": {{"[S]": {{"id": "[S]", "ids": [9], "tokens": ["[S]"]}}}}}}"#
        )
    };
    let a = r#"{"Sequence": {"id": "A", "type_id": 0}}"#;
    let b = r#"{"Sequence": {"id": "B", "type_id": 0}}"#;
    let known = r#"{"SpecialToken": {"id": "[S]", "type_id": 0}}"#;
    let unknown = r#"{"SpecialToken": {"id": "[X]", "type_id": 0}}"#;
    let chain = |parts: &str| format!(r#"{{"type": "Sequence", "processors": [{parts}]}}"#);
    let batch = |tok: &TextTokenizer| tokenize_batch(tok, strings(&["red image"]));
    // A template for one text.
    let good = template(&format!("{known}, {a}, {known}"));
    let tok = sound(words, &good);
    assert_eq!(batch(&tok).unwrap().ids, vec![9, 5, 7, 9]);
    assert_eq!(&tokenize(&tok, "red image").unwrap()[..3], &[5, 7, PAD_ID]);
    // A second text that is not there.
    let tok = with(words, &template(&format!("{a}, {b}")));
    assert!(!check_tokenizer(&tok));
    assert!(TextTokenizer::new(tok).is_err());
    // A special token that is not explained matters where special tokens are added.
    let tok = sound(words, &template(&format!("{a}, {unknown}")));
    assert!(tokenize(&tok, "red").is_ok());
    assert!(batch(&tok).is_err());
    // One template in a chain, at any depth, but not two.
    let tok = sound(words, &chain(&chain(&good)));
    assert_eq!(batch(&tok).unwrap().ids, vec![9, 5, 7, 9]);
    let two = with(words, &chain(&format!("{good}, {}", chain(&good))));
    match TextTokenizer::new(two) {
        Err(PerceiveError::Onnx(m)) => {
            assert_eq!(m, "tokenizer: its settings do not fit together")
        }
        other => panic!("{}", other.is_ok()),
    }
    // Pieces of length zero.
    let tok = sound(r#"{"type": "FixedLength", "length": 3}"#, "null");
    assert_eq!(&tokenize(&tok, "redred").unwrap()[..3], &[5, 5, PAD_ID]);
    let none = r#"{"type": "FixedLength", "length": 0}"#;
    assert!(TextTokenizer::new(with(none, "null")).is_err());
    let nested = format!(r#"{{"type": "Sequence", "pretokenizers": [{words}, {none}]}}"#);
    assert!(TextTokenizer::new(with(&nested, "null")).is_err());
    // A pattern that moves the start of what it finds.
    let split = |p: &str| {
        format!(
            r#"{{"type": "Split", "pattern": {{"Regex": "{p}"}}, "behavior": "Isolated", "invert": false}}"#
        )
    };
    assert!(TextTokenizer::new(with(&split(r"(?=ab\\K)"), "null")).is_err());
    let tok = sound(&split("x"), "null");
    assert_eq!(&tokenize(&tok, "redximage").unwrap()[..4], &[5, 0, 7, PAD_ID]);
    let both = format!(r#"{{"type": "Sequence", "pretokenizers": [{words}]}}"#);
    assert!(tokenize(&sound(&both, "null"), "red").is_ok());
}

fn base64(bytes: &[u8]) -> String {
    let digits: Vec<char> = ('A'..='Z').chain('a'..='z').chain('0'..='9').chain(['+', '/']).collect();
    let mut out = String::new();
    for c in bytes.chunks(3) {
        let n = (c[0] as u32) << 16
            | (*c.get(1).unwrap_or(&0) as u32) << 8
            | *c.get(2).unwrap_or(&0) as u32;
        for k in 0..4 {
            if k <= c.len() {
                out.push(digits[(n >> (18 - 6 * k)) as usize & 63]);
            } else {
                out.push('=');
            }
        }
    }
    out
}

/// A map that puts the text at `value` for the letter `a`, in a trie of `units` units.
fn map_bytes(units: usize, value: u32, text: &[u8]) -> Vec<u8> {
    let mut trie = vec![0u32; units];
    if units > 97 {
        trie[97] = 97 | 1 << 8 | (97 ^ 1) << 10;
        trie[1] = value | 1 << 31;
    }
    let mut b = ((units * 4) as u32).to_le_bytes().to_vec();
    for w in trie {
        b.extend(w.to_le_bytes());
    }
    b.extend(text);
    b
}

#[test]
fn maps_of_characters_are_checked() {
    for b in [&b""[..], b"a", b"ab", b"abc", b"\xff\x00\xfe\x01"] {
        assert_eq!(unpack(&base64(b)).unwrap(), b);
    }
    assert_eq!(unpack("AAAAAA==").unwrap(), vec![0; 4]);
    assert!(unpack("AAA").is_none());
    assert!(unpack("A=AA").is_none());
    assert!(check_map(&map_bytes(256, 0, b"red\0")));
    assert!(check_map(&map_bytes(256, 4, b"red\0")));
    assert!(!check_map(&map_bytes(256, 5, b"red\0")));
    assert!(check_map(&map_bytes(256, 0, "\u{e9}".as_bytes())));
    assert!(!check_map(&map_bytes(256, 1, "\u{e9}".as_bytes())));
    assert!(!check_map(&map_bytes(0, 0, b"")));
    assert!(!check_map(&map_bytes(98, 0, b"red\0")));
    assert!(!check_map(&vec![0, 4, 0]));
    assert!(!check_map(&vec![0, 4, 0, 0, 0]));
}

#[test]
fn tokenizers_with_unusable_normalizers_are_refused() {
    let with = |norm: &str| loaded(&[(NORM, &format!("\"normalizer\": {norm}"))]);
    let ids = |norm: &str, s: &str| tokenize(&TextTokenizer::new(with(norm)).unwrap(), s).unwrap();
    let map = |bytes: &[u8]| {
        format!(r#"{{"type": "Precompiled", "precompiled_charsmap": "{}"}}"#, base64(bytes))
    };
    let chain = |parts: &str| format!(r#"{{"type": "Sequence", "normalizers": [{parts}]}}"#);
    // A sound map is followed: the letter becomes a word.
    let good = map(&map_bytes(256, 0, b"red\0"));
    assert_eq!(&ids(&good, "a image")[..3], &[5, 0, PAD_ID]);
    assert_eq!(&ids(&good, "a b")[..3], &[5, 0, PAD_ID]);
    assert_eq!(&ids(&chain(&format!(r#"{good}, {{"type": "Lowercase"}}"#)), "a")[..2], &[5, PAD_ID]);
    // Maps without a trie, with a trie that ends too early, or with a leaf beyond the text.
    assert!(TextTokenizer::new(with(&map(&[0, 0, 0, 0]))).is_err());
    assert!(TextTokenizer::new(with(&chain(&map(&[0, 0, 0, 0])))).is_err());
    assert!(TextTokenizer::new(with(&map(&map_bytes(128, 0, b"red\0")))).is_err());
    assert!(TextTokenizer::new(with(&map(&map_bytes(256, 9, b"red\0")))).is_err());
    // Something before the first character of a text.
    let replace = |kind: &str, what: &str, by: &str| {
        format!(r#"{{"type": "Replace", "pattern": {{"{kind}": "{what}"}}, "content": "{by}"}}"#)
    };
    let refused = |norm: &str| TextTokenizer::new(with(norm)).is_err();
    assert!(refused(&replace("Regex", "^", "x")));
    assert!(refused(&replace("String", "", "x")));
    assert!(refused(r#"{"type": "Prepend", "prepend": ""}"#));
    assert_eq!(&ids(&replace("Regex", "^", ""), "red")[..2], &[5, PAD_ID]);
    assert_eq!(&ids(&replace("Regex", "x+", " "), "redxximage")[..3], &[5, 7, PAD_ID]);
    assert_eq!(&ids(&replace("String", "x", ""), "xred")[..2], &[5, PAD_ID]);
    assert_eq!(&ids(r#"{"type": "Prepend", "prepend": "red "}"#, "image")[..3], &[5, 7, PAD_ID]);
    assert!(refused(&replace("Regex", r"(?=ab\\K)", "")));
    assert!(never_moves(r"a\\Kb") && !never_moves(r"a\K") && never_moves("K"));
    // Patterns that plainly take a character, and some that do not.
    for p in [" {2,}", "\\s+", "[!-/(|]", "[^a-z]", "\\.", "x", "ab*", ".+[|]"] {
        assert!(never_empty(p), "{p}");
    }
    for p in ["", "^", "x*", "x?", "x+?", "x+*", "x{0,2}", "a|", "(a)", "\\b", "[]a]*", "[[a]]", "x{2,}*"] {
        assert!(!never_empty(p), "{p}");
    }
}

#[test]
fn added_words_must_leave_something() {
    let with = |word: &str| {
        loaded(&[
            (
                NORM,
                r#""normalizer": {"type": "Replace", "pattern": {"String": "x"}, "content": ""}"#,
            ),
            (
                ADDED,
                &format!(
                    r#""added_tokens": [{{"id": 8, "content": "{word}", "single_word": false, "lstrip": false, "rstrip": false, "normalized": true, "special": false}}]"#
                ),
            ),
        ])
    };
    let tok = with("x");
    assert!(!check_tokenizer(&tok));
    assert!(TextTokenizer::new(tok).is_err());
    let tok = TextTokenizer::new(with("xq")).unwrap();
    assert_eq!(&tokenize(&tok, "red xq").unwrap()[..2], &[5, 3]);
    // White space that one word takes along may not swallow another.
    let two = |right: bool, left: bool, second: &str| {
        let word = |content: &str, l: bool, r: bool| {
            format!(
                r#"{{"id": 8, "content": "{content}", "single_word": false, "lstrip": {l}, "rstrip": {r}, "normalized": false, "special": false}}"#
            )
        };
        loaded(&[(
            ADDED,
            &format!(
                r#""added_tokens": [{}, {}]"#,
                word("q", false, right),
                word(second, left, false)
            ),
        )])
    };
    assert!(TextTokenizer::new(two(true, true, " ")).is_err());
    let tok = TextTokenizer::new(two(true, false, " ")).unwrap();
    assert_eq!(&tokenize(&tok, "q  red").unwrap()[..2], &[3, 4]);
    assert!(TextTokenizer::new(two(false, true, " ")).is_ok());
    let tok = TextTokenizer::new(two(true, true, "z")).unwrap();
    assert_eq!(&tokenize(&tok, "q  z red").unwrap()[..3], &[3, 4, 5]);
    // Words are looked for as the present normalizer leaves them.
    let mut tok = with("x");
    tok.with_normalizer(None::<tokenizers::NormalizerWrapper>);
    let tok = TextTokenizer::new(tok).unwrap();
    assert_eq!(&tokenize(&tok, "\u{e9} x").unwrap()[..2], &[0, 3]);
}
