use vidx::error::MediaError;
use vidx::sidecar::{
    classify_subtitle, group_cues, language_set, parse_file, parse_srt, parse_text, parse_vtt, Cue,
    SubtitleFormat,
};
use vidx::timestamp::Timestamp;

fn secs(t: Timestamp) -> f64 {
    t.num as f64 / t.den as f64
}

#[test]
fn parses_srt_with_markup_and_crlf() {
    let srt = "1\r\n00:00:01,000 --> 00:00:03,500\r\n<i>Hello</i> there\r\nsecond line\r\n\r\n2\r\n00:00:03,500 --> 00:00:05,000\r\n{\\an8}Bye &amp; thanks\r\n\r\n";
    let cues = parse_srt(srt);
    assert_eq!(cues.len(), 2);
    assert_eq!(cues[0].text, "Hello there second line");
    assert_eq!(cues[0].t0, Timestamp::new(1000, 1000));
    assert_eq!(cues[0].t1, Timestamp::new(3500, 1000));
    assert_eq!(cues[1].text, "Bye & thanks");
}

#[test]
fn collapses_youtube_srt_rolling_two_line_captions() {
    let srt = "1\n00:00:14,719 --> 00:00:19,830\n\nleave armed and ready. So,\n\n2\n00:00:19,830 --> 00:00:19,840\nleave armed and ready. So,\n \n\n3\n00:00:19,840 --> 00:00:23,349\nleave armed and ready. So,\nstarting a company, raising VC,\n\n4\n00:00:23,349 --> 00:00:23,359\nstarting a company, raising VC,\n \n\n5\n00:00:23,359 --> 00:00:27,830\nstarting a company, raising VC,\nwhen do you raise VC?\n\n6\n00:00:27,830 --> 00:00:27,840\nwhen do you raise VC?\n \n";
    let cues = parse_srt(srt);
    let texts: Vec<&str> = cues.iter().map(|c| c.text.as_str()).collect();
    assert_eq!(
        texts,
        vec![
            "leave armed and ready. So,",
            "starting a company, raising VC,",
            "when do you raise VC?"
        ],
        "{cues:?}"
    );
    // The repeat cues extend the end time of the line they repeat.
    assert!((secs(cues[0].t1) - 19.84).abs() < 1e-6);
    assert!((secs(cues[1].t1) - 23.359).abs() < 1e-6);
    assert!((secs(cues[2].t1) - 27.84).abs() < 1e-6);
}

#[test]
fn parses_vtt_with_header_settings_and_rolling_captions() {
    let vtt = "WEBVTT\nKind: captions\nLanguage: en\n\n00:00.000 --> 00:02.000 align:start position:0%\nwelcome to the\n\n00:02.000 --> 00:04.000\nwelcome to the workshop\n\n00:04.000 --> 00:06.000\nwelcome to the workshop\n\n01:00:04.000 --> 01:00:06.120\n<00:00:04.100><c>on</c> retrieval\n";
    let cues = parse_vtt(vtt);
    assert_eq!(cues.len(), 3, "{cues:?}");
    assert_eq!(cues[0].text, "welcome to the");
    assert_eq!(cues[1].text, "workshop");
    assert_eq!(
        cues[1].t1,
        Timestamp::new(6000, 1000),
        "exact repeat extends the cue"
    );
    assert_eq!(cues[2].text, "on retrieval");
    assert_eq!(cues[2].t0, Timestamp::new(3_604_000, 1000));
    assert_eq!(cues[2].t1, Timestamp::new(3_606_120, 1000));
}

#[test]
fn groups_cues_into_windows() {
    let cues: Vec<Cue> = (0..10)
        .map(|i| Cue {
            t0: Timestamp::from_secs(i * 4),
            t1: Timestamp::from_secs(i * 4 + 3),
            text: format!("w{i}"),
        })
        .collect();
    let g = group_cues(&cues, 15_000, 2_000);
    assert_eq!(g.len(), 3, "{g:?}");
    assert_eq!(g[0].text, "w0 w1 w2 w3");
    assert_eq!(g[0].t1, Timestamp::from_secs(15));
}

#[test]
fn text_without_timing_has_no_cues() {
    assert!(parse_srt("").is_empty());
    assert!(parse_srt("1\nno timing here\n").is_empty());
    assert!(parse_text("WEBVTT\n\nNOTE x\n", SubtitleFormat::Vtt).is_empty());
    assert_eq!(
        parse_text("1\n00:00:00,000 --> 00:00:01,000\nhi\n", SubtitleFormat::Srt).len(),
        1
    );
}

#[test]
fn subtitle_names_carry_a_language() {
    let (f, l) = classify_subtitle("talk", "talk.en.srt").unwrap();
    assert_eq!(f, SubtitleFormat::Srt);
    assert_eq!(l.as_deref(), Some("en"));
    let (f, l) = classify_subtitle("talk", "talk.vtt").unwrap();
    assert_eq!(f, SubtitleFormat::Vtt);
    assert_eq!(l, None);
    assert!(classify_subtitle("talk", "other.srt").is_none());
    assert!(classify_subtitle("talk", "talk.extra.en.srt").is_none());
    let langs = vec!["en".to_string(), "de".to_string(), "en".to_string()];
    assert_eq!(language_set(&langs), vec!["de", "en"]);
}

#[test]
fn files_that_are_not_text_are_refused() {
    let cues = parse_file(
        "1\n00:00:01,000 --> 00:00:02,000\ncaf\u{e9}\n".as_bytes(),
        SubtitleFormat::Srt,
    )
    .unwrap();
    assert_eq!(cues.len(), 1);
    assert_eq!(cues[0].text, "caf\u{e9}");
    assert!(parse_file(b"", SubtitleFormat::Vtt).unwrap().is_empty());
    let broken = parse_file(
        b"1\n00:00:01,000 --> 00:00:02,000\ncaf\xe9\n",
        SubtitleFormat::Srt,
    );
    assert!(
        matches!(broken, Err(MediaError::Io(m)) if m == "stream did not contain valid UTF-8")
    );
}

#[test]
fn a_repeated_line_ends_with_a_word() {
    let srt = "1\n00:00:00,000 --> 00:00:01,000\nI\n\n2\n00:00:01,000 --> 00:00:02,000\nIn the beginning\n\n3\n00:00:02,000 --> 00:00:03,000\nIn the beginning was\n";
    let cues = parse_srt(srt);
    let texts: Vec<&str> = cues.iter().map(|c| c.text.as_str()).collect();
    assert_eq!(texts, vec!["I", "In the beginning", "was"]);
    assert_eq!((secs(cues[1].t0), secs(cues[1].t1)), (1.0, 2.0));
}
