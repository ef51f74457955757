use vidx::acquire::{
    is_video_file, plan_cache_move, subtitle_is_human, LocalFile, MoveStep, Source, YtDlp,
};
use vidx::acquired::{
    download_outcome, downloaded_file, find_by_url_id, local_path, sidecar_subtitles, url_id,
    Acquired,
};
use vidx::error::MediaError;
use vidx::hashing::{hash_file, hash_prefix, head_of};
use vidx::info::{InfoJson, Sidecars};
use vidx::remote::{
    check_addresses, file_name_for, finish_download, host_error, is_private_ip, judge_response,
    media_extension, part_name, percent_decode, take_chunk, Download, DownloadConfig, HostRefusal,
    Http, IpAddr, ObjectStore, ResponseHead, StoreKind, Verdict,
};
use vidx::sidecar::{SubtitleFile, SubtitleFormat};
use vidx::timestamp::Timestamp;

fn strings(s: &[&str]) -> Vec<String> {
    s.iter().map(|x| x.to_string()).collect()
}

fn config() -> DownloadConfig {
    DownloadConfig {
        max_bytes: 1000,
        max_redirects: 2,
        allow_private_addresses: false,
        timeout_secs: 60,
        r2_endpoint: None,
    }
}

#[test]
fn local_file_hashes_and_finds_sidecars() {
    let hash = hash_prefix("not really a video", 64);
    let sc = Sidecars::find(
        "/media",
        "talk",
        &strings(&["talk.mp4", "talk.en.srt", "other.srt"]),
        None,
    );
    let media = Source::Path("/media/talk.mp4".into());
    let uri = media.uri(Some("/media/talk.mp4"));
    let a = Acquired::assemble("/media/talk.mp4".into(), uri, hash, 18, sc);
    assert_eq!(a.size_bytes, 18);
    assert_eq!(a.content_hash.len(), 64);
    assert_eq!(a.subtitle_files.len(), 1);
    assert!(a.source_uri.starts_with("file://"));
    assert!(a.info.is_none());
    let missing = Source::Path("/media/missing.mp4".into());
    assert!(local_path(&missing, false, "").is_err());
    assert!(local_path(&media, true, "").is_ok());
    assert!(local_path(&Source::Url("https://x/y.mp4".into()), true, "Url").is_err());
}

#[test]
fn incoming_files_move_into_the_cache_with_sidecars() {
    let info = InfoJson::read(
        "/videos/incoming/PLcfp/001-abc.info.json",
        r#"{"id":"abc","title":"T","webpage_url":"https://www.youtube.com/watch?v=abc","subtitles":{"en":[]}}"#,
    )
    .unwrap();
    let sc = Sidecars::find(
        "/videos/incoming/PLcfp",
        "001-abc",
        &strings(&["001-abc.mp4", "001-abc.info.json", "001-abc.en.srt"]),
        Some(info),
    );
    let local = LocalFile::with_cache("/videos".into());
    let media = "/videos/incoming/PLcfp/001-abc.mp4";
    assert!(local.should_move(Some("/videos/incoming"), Some(media)));
    let hash = hash_prefix("video bytes", 64);
    let (path, steps, subs) = plan_cache_move(
        "/videos",
        media,
        &hash,
        false,
        Some(("/videos/incoming/PLcfp/001-abc.info.json", false)),
        &sc.subtitles,
        &vec![false],
    );
    assert!(
        steps
            .iter()
            .any(|s| matches!(s, MoveStep::Rename(from, to) if from == media && *to == path)),
        "moved out of incoming"
    );
    assert_eq!(path, format!("/videos/{hash}.mp4"));
    let info_to = format!("/videos/{hash}.info.json");
    assert!(steps
        .iter()
        .any(|s| matches!(s, MoveStep::Rename(_, to) if *to == info_to)));
    assert_eq!(subs.len(), 1);
    assert_eq!(subs[0].path, format!("/videos/{hash}.en.srt"));
    let moved = Sidecars {
        info: sc.info,
        subtitles: subs,
    };
    let a = Acquired::assemble(path, "file:///x".into(), hash.clone(), 11, moved);
    assert!(a.subtitle_is_human(&a.subtitle_files[0]));
    assert_eq!(a.source_uri, "https://www.youtube.com/watch?v=abc");
    assert_eq!(a.title.as_deref(), Some("T"));

    // A second copy of the same bytes in incoming is deduplicated.
    let dup = "/videos/incoming/PLcfp/002-abc.mp4";
    assert_eq!(hash_prefix("video bytes", 64), hash);
    let (again, steps, _) =
        plan_cache_move("/videos", dup, &hash, true, None, &vec![], &vec![]);
    assert_eq!(again, a.path);
    assert!(matches!(&steps[0], MoveStep::Remove(p) if p == dup));

    // Files outside incoming stay put.
    assert!(!local.should_move(Some("/videos/incoming"), Some("/elsewhere.mp4")));
}

#[test]
fn directory_expands_to_video_files() {
    let v = LocalFile::new().expand(
        &Source::Path("/media".into()),
        true,
        &strings(&["/media/b.mp4", "/media/a.mkv", "/media/a.srt"]),
    );
    assert_eq!(v.len(), 2);
    assert!(matches!(&v[0], Source::Path(p) if p.ends_with("a.mkv")));
}

#[test]
fn ytdlp_missing_is_a_clear_error() {
    let y = YtDlp {
        executable: "/definitely/not/here/yt-dlp".into(),
        ..YtDlp::new("/tmp/vi-cache".into())
    };
    let paths = y.lookup_paths(&strings(&["/usr/bin"]));
    assert_eq!(paths, strings(&["/definitely/not/here/yt-dlp"]));
    assert!(!y.available(&vec![false]));
    let err = y.missing_error();
    assert!(err.message().contains("yt-dlp not found"), "{err:?}");
    assert!(err.message().contains("incoming"));
}

#[test]
fn ytdlp_output_is_read() {
    let y = YtDlp::new("/cache".into());
    assert!(y.available(&vec![false, true]));
    assert!(y.handles(&Source::Url("https://youtu.be/abc".into())));
    assert_eq!(y.expand_args("https://youtu.be/abc").last().unwrap(), "https://youtu.be/abc");
    assert_eq!(
        LocalFile::with_cache("/c".into()).incoming_dir().as_deref(),
        Some("/c/incoming")
    );
    assert_eq!(LocalFile::new().incoming_dir(), None);
    let args = y.download_args("https://youtu.be/abc");
    assert_eq!(args.last().unwrap(), "https://youtu.be/abc");
    let list = vidx::acquire::expanded_sources(
        &Source::Url("https://youtube.com/playlist?list=x".into()),
        "https://youtu.be/a\nnoise\n https://youtu.be/b \n",
    );
    assert_eq!(list.len(), 2);
    assert!(matches!(&list[1], Source::Url(u) if u == "https://youtu.be/b"));
    let same = vidx::acquire::expanded_sources(&Source::Url("https://y/z".into()), "nothing");
    assert!(matches!(&same[0], Source::Url(u) if u == "https://y/z"));
    assert_eq!(
        vidx::acquire::printed_path("log\n /a/b.mp4 \n\n"),
        Some("/a/b.mp4".to_string())
    );
    assert_eq!(vidx::acquire::printed_path("\n"), None);
    assert!(download_outcome("u", true, true, "").is_err());
    assert!(download_outcome("u", false, false, "boom").is_err());
    assert!(download_outcome("u", false, true, "").is_ok());
    assert_eq!(url_id("https://www.youtube.com/watch?v=abc&t=1"), "abc");
    let files = strings(&["/i/zzz.mp4", "/i/abc.srt", "/i/abc.mp4"]);
    assert_eq!(
        find_by_url_id(&files, "https://www.youtube.com/watch?v=abc"),
        Some(2)
    );
    assert_eq!(find_by_url_id(&files, "https://youtu.be/other"), None);
    assert_eq!(
        downloaded_file("u", Some("/p.mp4".into()), true, None).unwrap(),
        "/p.mp4"
    );
    assert_eq!(
        downloaded_file("u", Some("/p.mp4".into()), false, Some("/q.mp4".into())).unwrap(),
        "/q.mp4"
    );
    assert!(downloaded_file("u", None, false, None).is_err());
}

#[test]
fn finds_sidecars_and_reads_info_json() {
    let info_path = "/d/003-OkEGJ5G3foU.info.json";
    let info = InfoJson::read(
        info_path,
        r#"{
            "id": "OkEGJ5G3foU",
            "title": "Workshop",
            "channel": "AI Engineer",
            "webpage_url": "https://www.youtube.com/watch?v=OkEGJ5G3foU",
            "upload_date": "20250612",
            "duration": 7200.5,
            "chapters": [
                {"start_time": 0.0, "end_time": 60.0, "title": "Intro"},
                {"start_time": 60.0, "end_time": 7200.5, "title": "Main"}
            ],
            "subtitles": {"en": [{"ext": "vtt"}]},
            "automatic_captions": {"en": [{"ext": "vtt"}], "de": [{"ext": "vtt"}]},
            "playlist_id": "PLcfp", "playlist_index": 3
        }"#,
    );
    let sc = Sidecars::find(
        "/d",
        "003-OkEGJ5G3foU",
        &strings(&[
            "003-OkEGJ5G3foU.mp4",
            "003-OkEGJ5G3foU.info.json",
            "003-OkEGJ5G3foU.en.srt",
            "003-OkEGJ5G3foU.srt",
            "003-OkEGJ5G3foU.extra.en.srt",
            "004-other.en.srt",
        ]),
        info,
    );
    assert_eq!(sc.paths().len(), 3);
    let info = sc.info.unwrap();
    assert_eq!(info.title.as_deref(), Some("Workshop"));
    assert_eq!(info.channel.as_deref(), Some("AI Engineer"));
    assert_eq!(
        chrono::DateTime::from_timestamp(info.upload_date.unwrap(), 0)
            .unwrap()
            .format("%Y-%m-%d")
            .to_string(),
        "2025-06-12"
    );
    assert_eq!(info.chapters.len(), 2);
    assert_eq!(info.chapters[1].t1, Timestamp::new(7_200_500, 1000));
    assert_eq!(info.subtitle_languages, vec!["en"]);
    assert_eq!(info.auto_caption_languages, vec!["de", "en"]);
    assert_eq!(info.playlist, Some(("PLcfp".to_string(), 3)));
    assert_eq!(sc.subtitles.len(), 2, "{:?}", sc.subtitles);
    let langs: Vec<Option<&str>> = sc.subtitles.iter().map(|s| s.language.as_deref()).collect();
    assert!(langs.contains(&Some("en")) && langs.contains(&None));
}

#[test]
fn broken_info_is_no_info() {
    assert!(InfoJson::read("/d/x.info.json", "{not json").is_none());
    let i = InfoJson::read("/d/x.info.json", r#"{"upload_date":"soon","timestamp":86400}"#).unwrap();
    assert_eq!(i.upload_date, Some(86_400));
    let i = InfoJson::read("/d/x.info.json", "{}").unwrap();
    assert_eq!(i.upload_date, None);
    assert!(i.chapters.is_empty());
}

#[test]
fn human_subtitles_are_those_of_the_metadata() {
    let langs = strings(&["en"]);
    assert!(subtitle_is_human(Some("en"), &langs, true));
    assert!(!subtitle_is_human(Some("de"), &langs, true));
    let subs = sidecar_subtitles("/d", "a", &strings(&["a.en.vtt", "a.txt", "b.srt"]));
    assert_eq!(subs, strings(&["/d/a.en.vtt"]));
}

#[test]
fn private_ranges() {
    for ip in [
        IpAddr::V4(127, 0, 0, 1),
        IpAddr::V4(10, 1, 2, 3),
        IpAddr::V4(192, 168, 1, 1),
        IpAddr::V4(172, 16, 0, 9),
        IpAddr::V4(169, 254, 169, 254),
        IpAddr::V4(100, 64, 0, 1),
        IpAddr::V4(0, 0, 0, 0),
        IpAddr::V6(0, 0, 0, 0, 0, 0, 0, 1),
        IpAddr::V6(0xfe80, 0, 0, 0, 0, 0, 0, 1),
        IpAddr::V6(0xfd00, 0, 0, 0, 0, 0, 0, 5),
    ] {
        assert!(is_private_ip(ip), "{ip:?}");
    }
    for ip in [
        IpAddr::V4(8, 8, 8, 8),
        IpAddr::V4(104, 21, 65, 27),
        IpAddr::V6(0x2606, 0x4700, 0x3033, 0, 0, 0, 0xac43, 0x8bdf),
    ] {
        assert!(!is_private_ip(ip), "{ip:?}");
    }
}

#[test]
fn one_private_address_refuses_the_host() {
    let mixed = vec![IpAddr::V4(8, 8, 8, 8), IpAddr::V4(10, 0, 0, 1)];
    let r = check_addresses(&mixed, false).unwrap_err();
    assert!(matches!(r, HostRefusal::Private(IpAddr::V4(10, 0, 0, 1))));
    assert!(host_error(&r, "h", "10.0.0.1").message().contains("10.0.0.1"));
    assert!(check_addresses(&mixed, true).is_ok());
    assert!(matches!(
        check_addresses(&vec![], true),
        Err(HostRefusal::NoAddress)
    ));
    // A mapped version 4 address is judged as what it maps to.
    assert!(is_private_ip(IpAddr::V6(0, 0, 0, 0, 0, 0xffff, 0x7f00, 1)));
}

fn url(s: &str) -> vidx::remote::WebUrl {
    Download::begin(s, 0).unwrap().current
}

#[test]
fn file_names_are_stable_and_safe() {
    let u = url("https://cdn.example.com/talks/My%20Talk.mp4?sig=abc");
    let n = file_name_for(&u);
    assert!(n.ends_with("-My_Talk.mp4"), "{n}");
    assert_eq!(n, file_name_for(&u));
    let u2 = url("https://cdn.example.com/stream");
    assert!(file_name_for(&u2).ends_with(".mp4"));
    assert_ne!(n, file_name_for(&url("https://cdn.example.com/talks/My%20Talk.mp4?sig=abd")));
    assert!(n.starts_with(&head_of(
        &hash_prefix("https://cdn.example.com/talks/My%20Talk.mp4?sig=abc", 64),
        8
    )));
    assert_eq!(part_name("/i/a.mp4"), "/i/a.mp4.part");
}

#[test]
fn handles_only_media_urls() {
    let h = Http::new("/tmp/x".into(), config());
    assert!(h.handles(&Source::Url("https://cdn.example.com/a/b.mp4".into())));
    assert!(h.handles(&Source::Url("http://cdn.example.com/a/b.MKV?x=1".into())));
    assert!(!h.handles(&Source::Url("https://www.youtube.com/watch?v=abc".into())));
    assert!(!h.handles(&Source::Url("https://example.com/page.html".into())));
    assert!(!h.handles(&Source::Url("s3://bucket/key.mp4".into())));
    let o = ObjectStore::new("/tmp/x".into(), config());
    assert!(o.handles(&Source::Url("s3://bucket/key.mp4".into())));
    assert!(o.handles(&Source::Url("gs://bucket/dir/".into())));
    assert!(!o.handles(&Source::Url("https://x/y.mp4".into())));
}

#[test]
fn escapes_are_decoded() {
    assert_eq!(percent_decode("My%20Talk"), "My Talk");
    assert_eq!(percent_decode("%e2%82%ac"), "\u{20ac}");
    assert_eq!(percent_decode("100%"), "100%");
    assert_eq!(percent_decode("%ff"), "\u{fffd}");
    assert_eq!(percent_decode("%+f%41"), "%+fA");
    assert_eq!(media_extension("/a/b.MKV"), Some("mkv".to_string()));
    assert_eq!(media_extension("/a/b.html"), None);
}

fn head(status: u16) -> ResponseHead {
    ResponseHead {
        status,
        status_text: "text".into(),
        location: None,
        content_length: None,
        content_range: None,
        content_type: None,
    }
}

#[test]
fn responses_are_judged() {
    let v = judge_response(
        "u",
        ResponseHead {
            location: Some("/next".into()),
            ..head(302)
        },
        0,
        1000,
    );
    assert!(matches!(v, Verdict::Redirect(l) if l == "/next"));
    assert!(matches!(
        judge_response("u", head(302), 0, 1000),
        Verdict::Fail(MediaError::Acquire(_))
    ));
    assert!(matches!(judge_response("u", head(416), 5, 1000), Verdict::Restart));
    assert!(matches!(judge_response("u", head(404), 0, 1000), Verdict::Fail(_)));
    // A partial answer to a resumed request is appended.
    let v = judge_response(
        "u",
        ResponseHead {
            content_length: Some(90),
            ..head(206)
        },
        10,
        1000,
    );
    assert!(matches!(v, Verdict::Body(true, 10, Some(100))), "{v:?}");
    // A full answer starts over.
    let v = judge_response(
        "u",
        ResponseHead {
            content_length: Some(100),
            ..head(200)
        },
        10,
        1000,
    );
    assert!(matches!(v, Verdict::Body(false, 0, Some(100))), "{v:?}");
    let too_large = ResponseHead {
        content_length: Some(1001),
        ..head(200)
    };
    assert!(matches!(judge_response("u", too_large, 0, 1000), Verdict::Fail(_)));
    let page = ResponseHead {
        content_type: Some("text/html; charset=utf-8".into()),
        ..head(200)
    };
    assert!(matches!(judge_response("u", page, 0, 1000), Verdict::Fail(_)));
    // What is kept of an earlier try counts, whatever the response says of its length.
    let v = judge_response("u", head(206), 1001, 1000);
    assert!(matches!(v, Verdict::Fail(MediaError::Acquire(m)) if m.contains("u is 1001 bytes")));
    let v = judge_response("u", head(206), 1000, 1000);
    assert!(matches!(v, Verdict::Body(true, 1000, None)));
    let v = judge_response("u", head(200), 1001, 1000);
    assert!(matches!(v, Verdict::Body(false, 0, None)));
    assert_eq!(take_chunk("u", 990, 10, 1000).unwrap(), 1000);
    assert!(take_chunk("u", 990, 11, 1000).is_err());
    assert_eq!(finish_download("u", 5, Some(5)).unwrap(), 5);
    assert_eq!(finish_download("u", 5, None).unwrap(), 5);
    let e = finish_download("u", 5, Some(6)).unwrap_err();
    assert!(e.message().contains("got 5 of 6 bytes"));
}

#[test]
fn redirects_are_followed_up_to_a_limit() {
    let d = Download::begin("http://a.example/x/y.mp4", 7).unwrap();
    assert_eq!(d.target().unwrap(), ("a.example".to_string(), 80, Some(7)));
    let d = d.redirect("../z.mp4", 1).unwrap();
    assert_eq!(d.current.text, "http://a.example/z.mp4");
    assert_eq!(d.current.path, "/z.mp4");
    let e = d.redirect("https://b.example/", 1).unwrap_err();
    assert!(e.message().contains("too many redirects"));
    // Starting over goes on from where the download stands; redirects still count.
    let d = Download::begin("http://a.example/x/y.mp4", 7).unwrap();
    let d = d.redirect("/z.mp4", 2).unwrap().restart();
    assert_eq!((d.hops, d.have), (1, 0));
    assert_eq!(d.origin, "http://a.example/z.mp4");
    let d = d.redirect("https://b.example/", 2).unwrap().restart();
    assert!(d.redirect("https://c.example/", 2).is_err());
    assert!(Download::begin("not a url", 0).is_err());
    let e = Download::begin("ftp://a/b", 0).and_then(|d| d.target());
    assert!(e.is_err());
}

#[test]
fn objects_are_located() {
    let o = ObjectStore::new("/c".into(), config());
    assert_eq!(o.incoming(), "/c/incoming");
    let (k, bucket, key) = o.locate(&url("s3://bucket/dir/a.mp4"), None).unwrap();
    assert!(matches!(k, StoreKind::S3));
    assert_eq!((bucket.as_str(), key.as_str()), ("bucket", "dir/a.mp4"));
    assert!(o.locate(&url("r2://bucket/a.mp4"), None).is_err());
    let (k, _, _) = o
        .locate(&url("r2://bucket/a.mp4"), Some("https://e".into()))
        .unwrap();
    assert!(matches!(k, StoreKind::R2(e) if e == "https://e"));
    assert!(o.is_prefix(&Source::Url("s3://bucket/dir/".into())));
    let list = o.expand_listing(
        &url("s3://bucket/dir/"),
        &strings(&["dir/b.mp4", "dir/a.mkv", "dir/notes.txt"]),
    );
    assert_eq!(list.len(), 2);
    assert!(matches!(&list[0], Source::Url(u) if u == "s3://bucket/dir/a.mkv"));
    let keys = o.sidecar_keys("dir/a.mp4", "/c/incoming/x-a.mp4");
    assert_eq!(keys.len(), 5);
    assert!(keys[0].0.starts_with("dir/a."));
    assert!(o.check_size("u", 1000).is_ok());
    assert!(o.check_size("u", 1001).is_err());
    assert!(o.check_written("u", 5, 5).is_ok());
    assert!(o.check_written("u", 4, 5).is_err());
}

#[test]
fn subtitle_files_are_named_after_the_hash() {
    let f = SubtitleFile {
        path: "/i/a.en.vtt".into(),
        language: Some("en".into()),
        format: SubtitleFormat::Vtt,
    };
    assert_eq!(vidx::acquire::cache_subtitle_name("h", &f), "h.en.vtt");
    assert_eq!(vidx::acquire::cache_media_name("h", "/i/a.MKV"), "h.mkv");
}

#[test]
fn a_file_is_known_by_its_content() {
    let (hash, size) = hash_file(b"abc");
    assert_eq!(
        hash,
        "6437b3ac38465133ffb63b75273a8db548c558465d79db03fd359c6cd5bd9d85"
    );
    assert_eq!(size, 3);
    assert_eq!(hash, blake3::hash(b"abc").to_hex().to_string());
    assert_ne!(hash, hash_file(b"abd").0);
    assert_eq!(hash_file(b"").1, 0);
}

#[test]
fn file_names_are_the_last_component() {
    assert!(is_video_file("a.mp4"));
    assert!(is_video_file("d/a.MP4"));
    assert!(is_video_file("a.mp4/"));
    assert!(is_video_file("a.mp4//./"));
    assert!(!is_video_file("d.mp4/.."));
    assert!(!is_video_file("d.mp4/a"));
    assert!(!is_video_file(".mp4"));
    assert!(!is_video_file(""));
    assert_eq!(part_name("/i.d/a"), "/i.d/a.bin.part");
    assert_eq!(part_name("/i.d/a.mp4/"), "/i.d/a.mp4.part");
    assert_eq!(part_name("/i/.."), "/i/..");
}

#[test]
fn percent_escapes_that_are_none_stay() {
    assert_eq!(percent_decode("%41"), "A");
    assert_eq!(percent_decode("100%"), "100%");
    assert_eq!(percent_decode("%4"), "%4");
    assert_eq!(percent_decode("%zz"), "%zz");
}

#[test]
fn subtitles_follow_the_stem_and_a_dot() {
    let names = strings(&[
        "talk2.srt",
        "talk.srt",
        "talk.en.srt",
        "talk.mp4",
        "talk.info.json",
        "talk.en-US.vtt",
        "talk.extra.en.srt",
    ]);
    let sc = Sidecars::find("d", "talk", &names, None);
    assert!(sc.info.is_none());
    let found: Vec<(&str, Option<&str>, SubtitleFormat)> = sc
        .subtitles
        .iter()
        .map(|f| (f.path.as_str(), f.language.as_deref(), f.format))
        .collect();
    assert_eq!(
        found,
        vec![
            ("d/talk.en-US.vtt", Some("en-US"), SubtitleFormat::Vtt),
            ("d/talk.en.srt", Some("en"), SubtitleFormat::Srt),
            ("d/talk.srt", None, SubtitleFormat::Srt),
        ]
    );
}
