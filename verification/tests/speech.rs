use vidx::asr::{group_segments, split_long_segments, AsrSegment, AsrWord, SpokenIn};
use vidx::timestamp::Timestamp;
use vidx::vad::{
    check_step, in_time_order, lockstep_input, plan_lockstep, segment, speech_ranges,
    speech_units, SpeechSegment, VadConfig, Windows, UNITS_PER_SEC, WINDOW,
};

fn cfg() -> VadConfig {
    VadConfig {
        threshold: 500_000,
        neg_threshold: 350_000,
        min_speech_ms: 250,
        min_silence_ms: 700,
        pad_ms: 200,
        max_segment_ms: 29_000,
    }
}

// 31.25 windows per second (these tests pin their own VadConfig above).
fn windows(secs: f64) -> usize {
    (secs * 31.25).round() as usize
}

/// Units as seconds.
fn secs(units: u64) -> f64 {
    units as f64 / UNITS_PER_SEC as f64
}

#[test]
fn segments_speech_with_hysteresis_merge_and_drop() {
    let mut p = vec![0i64; windows(2.0)]; // 2 s silence
    p.extend(vec![900_000; windows(5.0)]); // 5 s speech
    p.extend(vec![400_000; windows(0.3)]); // dip below on-threshold but above off: still speech
    p.extend(vec![900_000; windows(2.0)]);
    p.extend(vec![0; windows(0.4)]); // short pause: merged
    p.extend(vec![900_000; windows(3.0)]);
    p.extend(vec![0; windows(3.0)]); // long pause: split
    p.extend(vec![900_000; windows(0.1)]); // blip: dropped
    p.extend(vec![0; windows(1.0)]);
    p.extend(vec![900_000; windows(4.0)]);
    let segs = segment(&p, &cfg());
    assert_eq!(segs.len(), 2, "{segs:?}");
    assert!((secs(segs[0].t0) - 1.8).abs() < 0.05, "{segs:?}");
    assert!((secs(segs[0].t1) - 12.9).abs() < 0.05, "{segs:?}");
    // 12.9 + 3 s pause + 0.1 s blip + 1 s silence = 16.8, minus padding.
    assert!((secs(segs[1].t0) - 16.6).abs() < 0.1, "{segs:?}");
    let total = speech_units(&segs) as f64 / UNITS_PER_SEC as f64;
    assert!((total - (11.1 + 4.2)).abs() < 0.15);
}

#[test]
fn long_speech_is_split_at_quiet_windows() {
    let mut p = vec![950_000i64; windows(70.0)];
    // Two quieter moments that should attract the cuts.
    p[windows(20.0)..windows(20.2)].fill(500_000);
    p[windows(45.0)..windows(45.2)].fill(500_000);
    let segs = segment(&p, &cfg());
    assert!(segs.len() >= 3, "{segs:?}");
    assert!(
        segs.iter().all(|s| secs(s.duration()) <= 29.0 + 0.4 + 1e-6),
        "{segs:?}"
    );
    assert!((secs(segs[0].t1) - 20.0).abs() < 0.5, "{segs:?}");
    // Disjoint and ordered.
    for w in segs.windows(2) {
        assert!(w[0].t1 <= w[1].t0);
    }
}

#[test]
fn silence_gives_nothing() {
    assert!(segment(&vec![10_000; 1000], &cfg()).is_empty());
    // Pieces too short to be cut do no harm where nothing has to be cut.
    let tight = VadConfig { max_segment_ms: 0, min_speech_ms: 0, pad_ms: 0, ..cfg() };
    assert!(cfg().cuts_any() && !tight.cuts_any());
    let mut p = vec![10_000; 100];
    p[50] = 900_000;
    p[51] = 900_000;
    let segs = segment(&p, &tight);
    assert_eq!((segs.len(), segs[0].t0, segs[0].t1), (1, 50 * 1024, 52 * 1024));
    assert!(segment(&vec![], &cfg()).is_empty());
}

#[test]
fn speech_becomes_sample_ranges() {
    let segs = vec![
        SpeechSegment { t0: 0, t1: 32_000 },
        SpeechSegment {
            t0: 64_000,
            t1: 128_000,
        },
    ];
    let r = speech_ranges(&segs, 40_000);
    assert_eq!(r.len(), 2);
    assert_eq!((r[0].from, r[0].to), (0, 16_000));
    assert_eq!((r[1].from, r[1].to), (32_000, 40_000));
    assert_eq!(r[1].index, 1);
}

#[test]
fn samples_are_cut_into_windows() {
    let mut w = Windows::new();
    assert!(w.push(&vec![1i16; 500]).is_empty());
    let full = w.push(&vec![2i16; 600]);
    assert_eq!(full.len(), 2);
    assert_eq!(full[0].len(), WINDOW);
    assert_eq!(full[0][499], 1);
    assert_eq!(full[0][500], 2);
    let rest = w.finish().unwrap();
    assert_eq!(rest.len(), WINDOW);
    assert_eq!(rest[0], 2);
    assert_eq!(rest[WINDOW - 1], 0);
    assert!(Windows::new().finish().is_none());
}

#[test]
fn parts_are_scored_in_lockstep() {
    let samples: Vec<i16> = (0..WINDOW * 5 + 10).map(|i| (i % 1000) as i16).collect();
    let p = plan_lockstep(samples.len(), 3).unwrap();
    assert_eq!(p.windows, 6);
    assert!(p.parts * p.per_part >= p.windows);
    let first = lockstep_input(&samples, p, 0);
    assert_eq!(first.len(), p.parts * (64 + WINDOW));
    // Nothing stands before the first part.
    assert!(first[..64].iter().all(|s| *s == 0));
    assert_eq!(first[64], 0);
    assert_eq!(first[65], 1);
    let steps: Vec<Vec<i64>> = (0..p.per_part)
        .map(|j| (0..p.parts).map(|i| (i * p.per_part + j) as i64).collect())
        .collect();
    assert_eq!(in_time_order(&steps, p), vec![0, 1, 2, 3, 4, 5]);
    assert!(plan_lockstep(0, 3).is_none());
    assert!(check_step(2, 512, 2).is_ok());
    assert!(check_step(1, 512, 2).is_err());
}

/// Microseconds.
fn us(secs: f64) -> i64 {
    (secs * 1e6).round() as i64
}

fn seg(start: f64, end: f64, text: &str) -> AsrSegment {
    AsrSegment {
        start: us(start),
        end: us(end),
        text: text.into(),
        words: vec![AsrWord {
            word: format!(" {text}"),
            start: us(start),
            end: us(end),
            probability: Some(900_000),
        }],
        confidence: Some(800_000),
        no_speech_prob: None,
    }
}

#[test]
fn long_segments_split_at_sentence_ends_or_pauses() {
    let mut words = Vec::new();
    for i in 0..30 {
        let t = i as f64;
        words.push(AsrWord {
            word: if i == 12 {
                " twelve.".into()
            } else {
                format!(" w{i}")
            },
            start: us(t),
            end: us(t + 0.8),
            probability: None,
        });
    }
    let seg = AsrSegment {
        start: us(0.0),
        end: us(29.8),
        text: "long".into(),
        words,
        confidence: None,
        no_speech_prob: None,
    };
    let pieces = split_long_segments(&vec![seg], us(15.0));
    assert_eq!(pieces.len(), 3, "{pieces:?}");
    // First cut after the sentence end at word 12.
    assert_eq!(pieces[0].end, us(12.8), "{pieces:?}");
    assert!(pieces[0].text.ends_with("twelve."));
    assert!(pieces.iter().all(|p| p.end - p.start <= us(15.0)));
    let n: usize = pieces.iter().map(|p| p.words.len()).sum();
    assert_eq!(n, 30);
}

fn seconds(t: Timestamp) -> f64 {
    t.num as f64 / t.den as f64
}

#[test]
fn groups_segments_into_spans() {
    let segs = vec![
        seg(0.0, 4.0, "one"),
        seg(4.2, 9.0, "two"),
        seg(9.1, 16.0, "three"), // pushes over 15 s: new span
        seg(20.0, 22.0, "four"), // gap > 1.5 s: new span
        seg(22.1, 23.0, ""),     // empty: dropped
    ];
    let within = SpokenIn {
        track_id: 4,
        language: Some("en"),
        provenance_id: 9,
    };
    let spans = group_segments(&segs, us(100.0), us(15.0), &within);
    assert_eq!(spans.len(), 3, "{spans:?}");
    assert_eq!(spans[0].text, "one two");
    assert!((seconds(spans[0].t0) - 100.0).abs() < 1e-6);
    assert!((seconds(spans[0].t1) - 109.0).abs() < 1e-6);
    assert_eq!(spans[1].text, "three");
    assert_eq!(spans[2].text, "four");
    let words = spans[0].words.as_ref().unwrap();
    assert_eq!(words.len(), 2);
    assert_eq!(words[1].s as f64 / 1000.0, 104.2);
    assert_eq!(spans[0].language.as_deref(), Some("en"));
    assert_eq!((spans[0].track_id, spans[0].provenance_id), (4, 9));
    let (sum, n) = spans[0].confidence.unwrap();
    assert!((sum as f64 / n as f64 / 1e6 - 0.8).abs() < 1e-6);
}
