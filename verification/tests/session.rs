use vidx::decode::{
    earlier_start, frame_time, gate_audio, keyframe_interval, pack_frame, pcm_from_bytes,
    pcm_to_bytes, plan_video, rational_parts, rational_rate, seek_position, AudioGate, AudioRun,
    Chunker, KeyScan, VideoRun, VideoStep, NO_PTS,
};
use vidx::error::MediaError;
use vidx::frame::PixelFormat;
use vidx::probe::{
    best_stream, container_duration, describe_streams, track_for, ChapterInfo, Probe, RawChapter,
    RawContainer, RawStream, TrackKind,
};
use vidx::protocol::{
    header_len, read_msg, show_milli, write_msg, AudioDecodeRequest, VideoDecodeRequest,
    MAX_MESSAGE_BYTES, PROTOCOL_VERSION,
};
use vidx::sandbox::{describe, Limits, Platform, Resource};
use vidx::session::{
    chunk_of, handshake, open_reply, probe_answer, probe_reply, session_end, slot_count,
    video_slot_size, with_threads, worker_executable, worker_step, ReplyStep, Request, Response,
    Session, SessionInfo, SlotPool, StreamStep, WorkerStep,
};
use vidx::shm::{check_file_len, ShmSpec};
use vidx::timestamp::Timestamp;

/// The bodies of two requests, as they cross the pipe.
const HELLO: &[u8] = b"{\"op\":\"hello\",\"version\":1}";
const SLOT_FREE: &[u8] = b"{\"op\":\"slot_free\",\"slot\":7}";

#[test]
fn roundtrip_over_a_buffer() {
    let mut buf = Vec::new();
    write_msg(&mut buf, HELLO).unwrap();
    write_msg(&mut buf, SLOT_FREE).unwrap();
    let (a, pos) = read_msg(&buf, 0).unwrap().unwrap();
    let (b, pos) = read_msg(&buf, pos).unwrap().unwrap();
    let c = read_msg(&buf, pos).unwrap();
    assert_eq!(a, HELLO);
    assert_eq!(b, SLOT_FREE);
    assert!(c.is_none());
}

#[test]
fn rejects_oversized_length() {
    let mut buf = (MAX_MESSAGE_BYTES + 1).to_le_bytes().to_vec();
    buf.extend_from_slice(&[0; 8]);
    let r = read_msg(&buf, 0);
    assert!(matches!(r, Err(MediaError::Protocol(_))));
    assert!(header_len(&buf[..4]).is_err());
    assert_eq!(header_len(&[5, 1, 0, 0]).unwrap(), 261);
    // A message that breaks off is an error, not an end.
    assert!(read_msg(&[9, 0, 0, 0, 1], 0).is_err());
    assert!(matches!(read_msg(&[5, 0], 0), Err(MediaError::Io(_))));
    assert!(read_msg(&[], 0).unwrap().is_none());
    assert!(read_msg(&[5, 0], 2).unwrap().is_none());
}

#[test]
fn request_validation() {
    assert!(VideoDecodeRequest::new("x.mp4".into(), 0, 640).check().is_err());
    assert!(VideoDecodeRequest::new("x.mp4".into(), 1000, 640)
        .range(5_000_000, Some(4_000_000))
        .check()
        .is_err());
    assert!(VideoDecodeRequest::new("x.mp4".into(), 1000, 640).check().is_ok());
    let mut a = AudioDecodeRequest::new("x.mp4".into());
    assert_eq!(a.chunk_samples(), 480_000);
    assert_eq!(a.overlap_samples(), a.overlap_ms as u64 * 16);
    a.overlap_ms = 30_000;
    assert!(a.check().is_err());
}

#[test]
fn milli_numbers_are_shown_short() {
    assert_eq!(show_milli(1500), "1.5");
    assert_eq!(show_milli(2000), "2");
    assert_eq!(show_milli(-250), "-0.25");
}

#[test]
fn worker_writes_parent_reads() {
    let spec = ShmSpec::create("/dev/shm/x".into(), 16, 3).unwrap();
    assert_eq!(spec.total_len(), 48);
    let mut region = vec![0u8; spec.total_len()];
    let (from, to) = spec.slot_bounds(1);
    region[from..to][..4].copy_from_slice(&[9, 8, 7, 6]);
    let (from, to) = spec.slot_range(1, 4, region.len());
    assert_eq!(&region[from..to], &[9, 8, 7, 6]);
    // The slot goes back when its reader lets go.
    let mut pool = SlotPool::new(3);
    for want in 0..3 {
        assert_eq!(pool.acquire(&vec![], &vec![]).unwrap(), Some(want));
    }
    assert_eq!(pool.acquire(&vec![], &vec![]).unwrap(), None);
    pool.handle(&Request::SlotFree { slot: 1 }, "").unwrap();
    assert_eq!(pool.acquire(&vec![], &vec![]).unwrap(), Some(1));
}

#[test]
fn rejects_zero_geometry() {
    assert!(ShmSpec::create("/dev/shm/x".into(), 0, 1).is_err());
    assert!(ShmSpec::create("/dev/shm/x".into(), 1, 0).is_err());
}

#[test]
fn a_short_region_is_refused() {
    let spec = ShmSpec::create("/dev/shm/x".into(), 16, 3).unwrap();
    assert!(check_file_len(&spec, 47).is_err());
    assert!(check_file_len(&spec, 48).is_ok());
    // What a frame claims beyond its slot is not read.
    assert_eq!(spec.slot_range(2, 100, 48), (32, 48));
}

#[test]
fn waiting_requests_are_taken_before_a_slot() {
    let mut pool = SlotPool::new(1);
    assert_eq!(pool.acquire(&vec![], &vec![]).unwrap(), Some(0));
    let waiting = vec![Request::SlotFree { slot: 4 }];
    assert_eq!(pool.acquire(&waiting, &vec![String::new()]).unwrap(), Some(4));
    assert!(matches!(
        pool.acquire(&vec![Request::Cancel], &vec![String::new()]),
        Err(MediaError::Cancelled)
    ));
    assert!(matches!(
        pool.handle(&Request::Probe { path: "p".into() }, "Probe"),
        Err(MediaError::Protocol(_))
    ));
}

fn info() -> SessionInfo {
    SessionInfo {
        time_base_num: 1,
        time_base_den: 90_000,
        stream_index: 0,
        width: 4,
        height: 2,
        source_width: 8,
        source_height: 4,
        seeking: false,
    }
}

fn log() -> Response {
    Response::Log {
        level: "warn".into(),
        message: "m".into(),
    }
}

fn failed() -> Response {
    Response::Error {
        message: "boom".into(),
    }
}

#[test]
fn replies_are_understood() {
    let hello = |version| Response::Hello {
        version,
        libav: "7".into(),
        pid: 1,
    };
    assert_eq!(handshake(hello(PROTOCOL_VERSION), "").unwrap(), "7");
    let e = handshake(hello(9), "").unwrap_err();
    assert!(e.message().contains("worker protocol 9"), "{e:?}");
    assert!(matches!(handshake(failed(), ""), Err(MediaError::Worker(_))));
    assert!(matches!(handshake(log(), "Log"), Err(MediaError::Protocol(_))));
    assert!(matches!(probe_reply(log(), ""), ReplyStep::Wait));
    assert!(matches!(probe_reply(failed(), ""), ReplyStep::Fail(MediaError::Worker(_), true)));
    assert!(matches!(
        open_reply(Response::Started(info()), ""),
        ReplyStep::Done(i) if i == info()
    ));
    assert!(matches!(
        open_reply(Response::Started(info()), ""),
        ReplyStep::Done(_)
    ));
}

#[test]
fn a_session_ends_once() {
    let mut s = Session::new(info());
    assert!(matches!(s.receive(log()), StreamStep::Wait));
    let frame = Response::Frame {
        slot: 1,
        len: 24,
        width: 4,
        height: 2,
        stride: 12,
        format: PixelFormat::Rgb24,
        pts: 90_000,
        t: Timestamp::from_secs(1),
        is_keyframe: true,
    };
    let StreamStep::Item(item) = s.receive(frame) else { panic!("an item") };
    let (slot, len, meta) = s.frame_of(&item).unwrap();
    assert_eq!((slot, len), (1, 24));
    assert_eq!((meta.source_width, meta.source_height), (8, 4));
    assert!(matches!(
        s.receive(Response::End { items: 1, decoded: 30 }),
        StreamStep::End
    ));
    assert!(s.is_over());
    assert_eq!(s.stats.unwrap().decoded, 30);
    let mut t = Session::new(info());
    assert!(matches!(t.receive(failed()), StreamStep::Fail(MediaError::Worker(_))));
    assert!(t.is_over());
    let mut u = Session::new(info());
    u.break_off();
    assert!(u.is_over());
}

#[test]
fn chunks_carry_their_samples() {
    let reply = Response::AudioChunk {
        slot: 0,
        len: 4,
        t0: Timestamp::zero(),
        t1: Timestamp::new(2, 16_000),
        sample_rate: 16_000,
        samples: 2,
    };
    let c = chunk_of(&reply, &[1, 0, 255, 255]).unwrap();
    assert_eq!(c.samples, vec![1, -1]);
    assert!(chunk_of(&log(), &[]).is_none());
}

#[test]
fn the_worker_answers() {
    let hello = worker_step(Request::Hello { version: PROTOCOL_VERSION }, "7".into(), 3);
    assert!(matches!(
        hello,
        WorkerStep::Reply(Response::Hello { version: PROTOCOL_VERSION, pid: 3, .. })
    ));
    let other = worker_step(Request::Hello { version: 2 }, "7".into(), 3);
    assert!(matches!(other, WorkerStep::ReplyAndStop(Response::Error { .. })));
    assert!(matches!(
        worker_step(Request::Probe { path: "p".into() }, "7".into(), 3),
        WorkerStep::Probe(p) if p == "p"
    ));
    assert!(matches!(
        worker_step(Request::Cancel, "7".into(), 3),
        WorkerStep::Ignore
    ));
    assert!(matches!(
        worker_step(Request::Shutdown, "7".into(), 3),
        WorkerStep::Stop
    ));
    assert!(matches!(
        session_end(Ok((2, 3))),
        Response::End { items: 2, decoded: 3 }
    ));
    assert!(matches!(
        session_end(Err(MediaError::Cancelled)),
        Response::Error { .. }
    ));
    assert!(matches!(
        probe_answer(Err(MediaError::Libav("x".into()))),
        Response::Error { .. }
    ));
}

#[test]
fn slots_fit_the_frames() {
    assert_eq!(video_slot_size(640, None, "p").unwrap(), 640 * 640 * 3);
    assert_eq!(
        video_slot_size(0, Some((Some(4), None)), "p").unwrap(),
        4 * 1080 * 3
    );
    assert!(matches!(
        video_slot_size(0, None, "p"),
        Err(MediaError::NoStream(_, _))
    ));
    assert_eq!(slot_count(0).unwrap(), 2);
    assert_eq!(slot_count(9).unwrap(), 9);
    let r = with_threads(VideoDecodeRequest::new("x".into(), 1000, 640), 4);
    assert_eq!(r.threads, 4);
    assert_eq!(worker_executable(Some("a".into()), Some("b".into()), "c".into()), "a");
    assert_eq!(worker_executable(None, Some("b".into()), "c".into()), "b");
    assert_eq!(worker_executable(None, None, "c".into()), "c");
}

#[test]
fn frames_are_sampled_at_the_rate() {
    let req = VideoDecodeRequest::new("x".into(), 1000, 640);
    let plan = plan_video(&req, Some((30, 1)), None, Some(Timestamp::from_secs(10)), None).unwrap();
    assert!(!plan.seeking);
    assert!(plan.skip_nonref);
    let mut sampler = plan.sampler;
    let mut taken = Vec::new();
    for i in 0..90 {
        let step = sampler.frame(Timestamp::new(i, 30));
        if step.emit {
            taken.push(i);
        }
    }
    assert_eq!(taken, vec![0, 30, 60]);
    // One sample a minute is sought rather than decoded through.
    let sparse = VideoDecodeRequest::new("x".into(), 16, 640);
    let plan = plan_video(
        &sparse,
        Some((30, 1)),
        None,
        Some(Timestamp::from_secs(600)),
        Some(Timestamp::from_secs(2)),
    )
    .unwrap();
    assert!(plan.seeking);
    let mut sampler = plan.sampler;
    assert_eq!(sampler.seek_target(), Some(0));
    assert!(sampler.seek_accepts(Timestamp::zero()));
    sampler.seek_next();
    assert_eq!(sampler.seek_target(), Some(62_500_000_000));
    assert!(!sampler.seek_accepts(Timestamp::from_secs(50)));
    assert!(plan_video(
        &VideoDecodeRequest::new("x".into(), 0, 640),
        None,
        None,
        None,
        None
    )
    .is_err());
}

#[test]
fn keyframes_are_measured() {
    let mut scan = KeyScan::new();
    for i in 0..10 {
        let done = scan.packet(i % 2 == 0, Some(i * 100), None);
        assert!(!done);
    }
    assert_eq!(scan.key_pts, vec![0, 200, 400, 600, 800]);
    assert_eq!(
        keyframe_interval(&scan.key_pts, (1, 100)),
        Some(Timestamp::new(200, 100))
    );
    assert_eq!(keyframe_interval(&vec![5], (1, 100)), None);
    assert_eq!(rational_rate(0, 1), None);
    assert_eq!(rational_rate(30, 1), Some((30, 1)));
    assert_eq!(rational_parts(1, 25), (1, 25));
    assert_eq!(frame_time(190, 90, (1, 100)), Timestamp::new(100, 100));
    let e = earlier_start(None, NO_PTS, (1, 100));
    assert_eq!(e, None);
    let e = earlier_start(Some(Timestamp::from_secs(3)), 100, (1, 100)).unwrap();
    assert_eq!(e, Timestamp::new(100, 100));
    assert_eq!(seek_position(2_000_000_000, Timestamp::zero()), 2_000_000);
    // Halves are rounded away from zero on either side of it.
    assert_eq!(seek_position(2_500, Timestamp::zero()), 3);
    assert_eq!(seek_position(500, Timestamp::new(-3, 1_000_000)), -3);
    assert_eq!(seek_position(501, Timestamp::new(-3, 1_000_000)), -2);
}

#[test]
fn rows_are_packed_without_padding() {
    let src: Vec<u8> = (0..16).collect();
    assert_eq!(
        pack_frame(&src, 8, 2, 2, 12).unwrap(),
        vec![0, 1, 2, 3, 4, 5, 8, 9, 10, 11, 12, 13]
    );
    assert!(pack_frame(&src, 8, 2, 2, 11).is_err());
}

#[test]
fn audio_is_cut_into_overlapping_chunks() {
    let mut c = Chunker::new(4, 1, 8).unwrap();
    let samples: Vec<i16> = (0..9).collect();
    let out = c.push(&samples);
    assert_eq!(out.len(), 2);
    assert_eq!(out[0].samples, vec![0, 1, 2, 3]);
    assert_eq!((out[1].start, out[1].samples.clone()), (3, vec![3, 4, 5, 6]));
    let rest = c.finish().unwrap();
    assert_eq!((rest.start, rest.samples), (6, vec![6, 7, 8]));
    assert!(Chunker::new(4, 1, 7).is_err());
    assert_eq!(pcm_from_bytes(&pcm_to_bytes(&[-2, 300])), vec![-2, 300]);
    assert_eq!(
        gate_audio(Timestamp::from_secs(5), 6_000_000, None),
        AudioGate::Skip
    );
    assert_eq!(
        gate_audio(Timestamp::from_secs(5), 0, Some(5_000_000)),
        AudioGate::Done
    );
    assert_eq!(
        gate_audio(Timestamp::from_secs(5), 0, Some(6_000_000)),
        AudioGate::Take
    );
}

fn raw(index: u32, kind: Option<TrackKind>, is_default: bool) -> RawStream {
    RawStream {
        index,
        kind,
        codec: "c".into(),
        codec_long_name: "codec".into(),
        time_base: (1, 1000),
        start_time: 0,
        duration: 5000,
        frames: 0,
        rate: (25, 1),
        avg_rate: (25, 1),
        bit_rate: 0,
        dims: if kind == Some(TrackKind::Video) {
            Some((640, 360))
        } else {
            None
        },
        pix_fmt: Some("yuv420p".into()),
        audio: None,
        sample_fmt: Some("fltp".into()),
        language: None,
        title: None,
        is_default,
    }
}

#[test]
fn streams_are_described() {
    let (streams, start) = describe_streams(vec![
        raw(0, Some(TrackKind::Audio), true),
        raw(1, None, false),
        raw(2, Some(TrackKind::Video), false),
    ]);
    assert_eq!(streams.len(), 2);
    assert_eq!(start, Timestamp::new(0, 1000));
    assert_eq!(streams[1].duration, Some(Timestamp::new(5000, 1000)));
    assert_eq!(best_stream(&streams, TrackKind::Video), Some(1));
    assert_eq!(best_stream(&streams, TrackKind::Subtitle), None);
    let p = Probe {
        path: "x".into(),
        size_bytes: 1,
        format_name: "mp4".into(),
        format_long_name: "QuickTime / MOV".into(),
        duration: Timestamp::from_secs(5),
        start_time: start,
        bit_rate: 0,
        streams,
        chapters: vec![ChapterInfo::from_units(1, 0, 90, (1, 90), Some("t".into()))],
        metadata: vec![("title".into(), "T".into())],
        keyframe_interval: None,
        libav: "avformat 61.1.100".into(),
    };
    assert_eq!(p.streams[1].pix_fmt.as_deref(), Some("yuv420p"));
    assert_eq!(p.streams[0].pix_fmt, None);
    assert_eq!(p.streams[0].sample_fmt.as_deref(), Some("fltp"));
    assert_eq!(p.chapters[0].t1, Timestamp::new(90, 90));
    assert_eq!(p.title().as_deref(), Some("T"));
    assert_eq!(p.video_stream().unwrap().index, 2);
    assert_eq!(p.audio_stream().unwrap().index, 0);
    let tracks = p.tracks(7, &vec![21, 22]);
    assert_eq!(track_for(&p, &tracks, TrackKind::Audio).unwrap().id, 21);
    assert_eq!(
        p.video_stream().unwrap().pts_to_timestamp(2500),
        Timestamp::new(2500, 1000)
    );
    assert_eq!(container_duration(1_500_000), Timestamp::from_micros(1_500_000));
}

#[test]
fn the_worker_is_limited() {
    let l = Limits::default();
    let s = l.settings();
    assert!(s.contains(&(Resource::CoreDump, 0)));
    assert!(s.contains(&(Resource::OpenFiles, l.max_files)));
    assert_ne!(describe(Platform::Linux), describe(Platform::Other));
}

#[test]
fn errors_say_what_failed() {
    assert!(MediaError::Timeout(5).message().contains('5'));
    assert_eq!(MediaError::Cancelled.message(), "cancelled");
    assert!(MediaError::NoStream("video".into(), "p".into())
        .message()
        .contains("video"));
}

#[test]
fn a_video_run_delivers_the_first_frame_behind_each_sample() {
    let req = VideoDecodeRequest::new("x".into(), 1000, 640);
    let end = Some(Timestamp::from_secs(10));
    let plan = plan_video(&req, Some((30, 1)), None, end, None).unwrap();
    let mut run = VideoRun::new(plan, 60, (1, 30));
    let mut sent = Vec::new();
    let mut steps = 0;
    for pts in 60..400 {
        steps += 1;
        match run.frame(pts) {
            VideoStep::Pass => {}
            VideoStep::Emit(t) => sent.push(t),
            VideoStep::EmitLast(t) => {
                sent.push(t);
                break;
            }
            VideoStep::Stop => break,
        }
    }
    let want: Vec<Timestamp> = (0..10).map(|k| Timestamp::new(30 * k, 30)).collect();
    assert_eq!(sent, want);
    assert_eq!(steps, 271);
    assert_eq!(run.frame(400), VideoStep::Stop);
}

#[test]
fn a_sparse_video_run_seeks() {
    let req = VideoDecodeRequest::new("x".into(), 50, 640);
    let end = Some(Timestamp::from_secs(30));
    let plan = plan_video(&req, Some((30, 1)), None, end, None).unwrap();
    assert!(plan.seeking);
    let mut run = VideoRun::new(plan, 60, (1, 30));
    assert_eq!(run.seek_to().unwrap(), Some(2_000_000));
    assert_eq!(run.frame(59), VideoStep::Pass);
    assert_eq!(run.frame(60), VideoStep::Emit(Timestamp::new(0, 30)));
    assert_eq!(run.seek_to().unwrap(), Some(22_000_000));
    assert_eq!(run.frame(61), VideoStep::Pass);
    assert_eq!(run.frame(661), VideoStep::Emit(Timestamp::new(601, 30)));
    assert_eq!(run.seek_to().unwrap(), None);
}

#[test]
fn an_audio_run_times_its_chunks() {
    let req = AudioDecodeRequest {
        sample_rate: 1000,
        chunk_ms: 4,
        overlap_ms: 1,
        t0_us: 400_000,
        t1_us: Some(2_000_000),
        ..AudioDecodeRequest::new("x".into())
    };
    assert!(matches!(AudioRun::new(&req, 7), Err(MediaError::Protocol(_))));
    let mut run = AudioRun::new(&req, 8).unwrap();
    assert_eq!(run.offer(Timestamp::new(1, 10)), AudioGate::Skip);
    assert_eq!(run.offer(Timestamp::new(1, 2)), AudioGate::Take);
    assert_eq!(run.offer(Timestamp::new(3, 2)), AudioGate::Take);
    assert_eq!(run.offer(Timestamp::from_secs(2)), AudioGate::Done);
    let samples: Vec<i16> = (0..9).collect();
    let out = run.take(&samples).unwrap();
    let ms = |n: i64| Timestamp::new(n, 1000);
    assert_eq!(out.len(), 2);
    assert_eq!((out[0].t0, out[0].t1), (ms(500), ms(504)));
    assert_eq!((out[1].t0, out[1].t1), (ms(503), ms(507)));
    assert_eq!(out[1].samples, vec![3, 4, 5, 6]);
    let (last, counts) = run.finish().unwrap();
    let last = last.unwrap();
    assert_eq!((last.t0, last.t1), (ms(506), ms(509)));
    assert_eq!(last.samples, vec![6, 7, 8]);
    assert_eq!(counts, (3, 9));
}

#[test]
fn a_container_is_reported() {
    let p = Probe::from_raw(RawContainer {
        path: "x".into(),
        size_bytes: 9,
        format_name: "mp4".into(),
        format_long_name: "MP4".into(),
        duration_us: 5_000_000,
        bit_rate: 7,
        streams: vec![raw(0, None, false), raw(1, Some(TrackKind::Video), true)],
        chapters: vec![RawChapter {
            id: 3,
            start: 90,
            end: 180,
            time_base: (1, 90),
            title: Some("t".into()),
        }],
        metadata: vec![("title".into(), "T".into())],
        keys: Some((vec![0, 100, 300, 200], (1, 1000))),
        libav: "v".into(),
    });
    assert_eq!(p.duration, Timestamp::from_micros(5_000_000));
    assert_eq!(p.streams.len(), 1);
    assert_eq!(p.chapters[0].t0, Timestamp::new(90, 90));
    assert_eq!(p.keyframe_interval, Some(Timestamp::new(100, 1000)));
    assert_eq!(p.title().as_deref(), Some("T"));
    assert_eq!(keyframe_interval(&vec![0, 100], (0, 1000)), None);
}

#[test]
fn requests_of_any_size_are_answered() {
    let said = |milli: i64, t0: i64, t1: Option<i64>| {
        let req = VideoDecodeRequest::new("x".into(), milli, 640).range(t0, t1);
        match plan_video(&req, None, None, None, None) {
            Err(MediaError::Invalid(m)) => m,
            other => panic!("{other:?}"),
        }
    };
    assert_eq!(said(-1500, 0, None), "fps must be > 0, got -1.5");
    assert_eq!(said(1000, -1, None), "t0 must be >= 0");
    assert_eq!(said(1000, 5, Some(5)), "t1 must be > t0");
    let fastest = VideoDecodeRequest::new("x".into(), i64::MAX, 640);
    let plan = plan_video(&fastest, Some((i32::MAX, 1)), None, None, None).unwrap();
    let mut sampler = plan.sampler;
    let step = sampler.frame(Timestamp::new(i64::MAX, 1));
    assert!(step.emit && !step.done);
    assert_eq!(
        sampler.seek_target(),
        Some((i64::MAX as i128) * 1_000_000_000 + 1)
    );
    assert!(!sampler.frame(Timestamp::new(i64::MAX, 1)).emit);
    let mut a = AudioDecodeRequest::new("x".into());
    a.chunk_ms = i64::MAX;
    a.overlap_ms = -1;
    assert_eq!(a.chunk_samples(), 147_573_952_589_676_412_912u128.min(u64::MAX as u128) as u64);
    assert_eq!(a.overlap_samples(), 0);
    a.overlap_ms = i64::MAX - 1;
    match AudioRun::new(&a, 64) {
        Err(MediaError::Protocol(m)) => assert_eq!(
            m,
            "shm slot of 64 bytes cannot hold a chunk of 18446744073709551615 samples"
        ),
        other => panic!("{}", other.is_ok()),
    }
}
