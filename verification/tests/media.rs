use vidx::acquire::Source;
use vidx::decode::{scaled_dims, ts_from};
use vidx::frame::{FrameBuffer, FrameMeta, PixelFormat};
use vidx::thumbnail::{encode_webp_thumbnail, fit, ThumbnailError};
use vidx::timestamp::Timestamp;

#[test]
fn source_parse() {
    assert!(matches!(Source::parse("https://x/y.mp4"), Source::Url(_)));
    assert!(matches!(Source::parse("/tmp/x.mp4"), Source::Path(_)));
    assert!(matches!(Source::parse("rel/x.mp4"), Source::Path(_)));
    assert!(Source::parse("https://www.youtube.com/watch?v=abc").is_video_site());
    assert!(!Source::parse("https://cdn.example.com/talk.mp4").is_video_site());
}

#[test]
fn scaled_dims_keep_aspect() {
    assert_eq!(scaled_dims(1280, 720, 640), (640, 360));
    assert_eq!(scaled_dims(720, 1280, 640), (360, 640));
    assert_eq!(scaled_dims(320, 240, 640), (320, 240));
    assert_eq!(scaled_dims(1920, 1080, 0), (1920, 1080));
}

#[test]
fn timestamp_from_pts() {
    let t = ts_from(90_000, (1, 90_000));
    assert_eq!(t.num as f64 / t.den as f64, 1.0);
}

#[test]
fn frame_sizes() {
    assert_eq!(PixelFormat::Rgb24.frame_size(4, 2), 24);
    assert_eq!(PixelFormat::Nv12.frame_size(4, 2), 8 + 4);
    assert_eq!(PixelFormat::Nv12.frame_size(3, 3), 9 + 2 * 2 * 2);
}

#[test]
fn fit_keeps_aspect_and_never_upscales() {
    assert_eq!(fit(1280, 720, 320), (320, 180));
    assert_eq!(fit(720, 1280, 320), (180, 320));
    assert_eq!(fit(200, 100, 320), (200, 100));
}

#[test]
fn owned_frame_rows_respect_stride() {
    let meta = FrameMeta {
        width: 2,
        height: 2,
        stride: 8, // padded
        format: PixelFormat::Rgb24,
        pts: 0,
        t: Timestamp::zero(),
        is_keyframe: true,
        source_width: 2,
        source_height: 2,
    };
    let mut data = vec![0u8; 16];
    data[8..14].copy_from_slice(&[1, 2, 3, 4, 5, 6]);
    let f = FrameBuffer::owned(meta, data);
    assert_eq!(f.row(1), &[1, 2, 3, 4, 5, 6]);
    assert_eq!(f.rgb_at(1, 1), Some([4, 5, 6]));
    assert_eq!(f.rgb_at(2, 1), None);
    assert!(!f.is_shared());
}

fn frame(w: u32, h: u32) -> FrameBuffer {
    let mut data = vec![0u8; (w * h * 3) as usize];
    for y in 0..h {
        for x in 0..w {
            let i = ((y * w + x) * 3) as usize;
            data[i] = (x * 255 / w) as u8;
            data[i + 1] = (y * 255 / h) as u8;
            data[i + 2] = 128;
        }
    }
    FrameBuffer::owned(
        FrameMeta {
            width: w,
            height: h,
            stride: (w * 3) as usize,
            format: PixelFormat::Rgb24,
            pts: 0,
            t: Timestamp::zero(),
            is_keyframe: true,
            source_width: w,
            source_height: h,
        },
        data,
    )
}

#[test]
fn encodes_valid_webp() {
    let f = frame(640, 360);
    let (bytes, w, h) = encode_webp_thumbnail(&f, 320, 75).unwrap();
    assert_eq!((w, h), (320, 180));
    assert_eq!(&bytes[0..4], b"RIFF");
    assert_eq!(&bytes[8..12], b"WEBP");
    assert!(bytes.len() < 640 * 360 * 3 / 10, "{} bytes", bytes.len());
    // Higher quality is not smaller.
    let (hq, _, _) = encode_webp_thumbnail(&f, 320, 95).unwrap();
    assert!(hq.len() >= bytes.len());
}

#[test]
fn a_shared_frame_can_be_kept() {
    let f = frame(4, 2);
    let shared = FrameBuffer::shared(f.meta(), 3, f.data().to_vec());
    assert!(shared.is_shared());
    let kept = shared.to_owned_frame();
    assert!(!kept.is_shared());
    assert_eq!(kept.data(), f.data());
    assert_eq!(kept.meta(), f.meta());
}

#[test]
fn thumbnails_need_rgb() {
    let meta = FrameMeta {
        format: PixelFormat::Gray8,
        stride: 4,
        width: 4,
        height: 2,
        ..frame(4, 2).meta()
    };
    let gray = FrameBuffer::owned(meta, vec![0; 8]);
    assert!(encode_webp_thumbnail(&gray, 320, 75).is_err());
}

#[test]
fn thumbnails_that_are_too_large_are_refused() {
    let said = |f: &FrameBuffer, dim: u32| match encode_webp_thumbnail(f, dim, 75) {
        Err(ThumbnailError::Encode(m)) => m,
        other => panic!("{}", other.is_ok()),
    };
    // The encoder's own answer, and the same without asking it.
    assert_eq!(said(&frame(20_000, 1), 17_000), "VP8_ENC_ERROR_BAD_DIMENSION");
    let long = frame(4_194_308, 1);
    assert_eq!(said(&long, 4_194_307), "VP8_ENC_ERROR_BAD_DIMENSION");
    assert_eq!(encode_webp_thumbnail(&long, 16_383, 75).unwrap().1, 16_383);
}

#[test]
fn times_are_compared_and_added() {
    let half = Timestamp::new(1, 2);
    assert!(half.lt(&Timestamp::new(2, 3)));
    assert!(half.le(&Timestamp::new(2, 4)));
    assert!(Timestamp::new(2, 4).le(&half));
    let sum = half.plus(Timestamp::new(1, 3)).unwrap();
    assert_eq!(sum, Timestamp::new(5, 6));
    let long = Timestamp::new(3_000_000, 1_000_000);
    assert_eq!(
        long.plus(Timestamp::new(8000, 16_000)),
        Some(Timestamp::new(7_000_000, 2_000_000))
    );
    assert_eq!(Timestamp::new(i64::MAX, 1).plus(Timestamp::from_secs(1)), None);
    assert_eq!(half.max(Timestamp::from_secs(2)), Timestamp::from_secs(2));
}

#[test]
fn what_has_a_scheme_is_a_url_and_is_kept_as_it_is() {
    assert_eq!(
        Source::parse("odd://name.mp4").uri(None),
        "odd://name.mp4"
    );
    assert_eq!(Source::parse("a:/b.mp4").uri(None), "file://a:/b.mp4");
}
