use vidx::big::Big;
use vidx::frame::{FrameBuffer, FrameMeta, PixelFormat};
use vidx::grid::{can_hold, clock_text, compose, glyph, grid_png, hms, Grid, GridLayout, Tile};
use vidx::ocr::{boxes_from_prob_map, OcrConfig, TextBox};
use vidx::phash::{hamming, is_duplicate, phash_frame, phash_rgb, PHASH_DEDUP_DISTANCE};
use vidx::reading::{
    check_detected, check_recognised, classes_of, crop_rgb, ctc_decode, detector_size,
    line_batches, lines_of, reading_order, to_image,
};
use vidx::shots::{
    rgb_to_hsv, shot_rows, FrameSignature, Sampled, ShotDetector, ShotParams, ONE,
};
use vidx::timestamp::Timestamp;

fn pattern(width: usize, height: usize, f: impl Fn(usize, usize) -> [u8; 3]) -> Vec<u8> {
    let mut v = vec![0u8; width * height * 3];
    for y in 0..height {
        for x in 0..width {
            let p = f(x, y);
            v[(y * width + x) * 3..(y * width + x) * 3 + 3].copy_from_slice(&p);
        }
    }
    v
}

fn box_pattern(bx: usize, by: usize) -> impl Fn(usize, usize) -> [u8; 3] {
    move |x, y| {
        if x >= bx && x < bx + 200 && y >= by && y < by + 120 {
            [255, 255, 255]
        } else {
            [40, 40, 160]
        }
    }
}

fn frame(w: u32, h: u32, rgb: [u8; 3]) -> FrameBuffer {
    let mut data = Vec::with_capacity((w * h * 3) as usize);
    for _ in 0..w * h {
        data.extend_from_slice(&rgb);
    }
    FrameBuffer::owned(
        FrameMeta {
            width: w,
            height: h,
            stride: (w * 3) as usize,
            format: PixelFormat::Rgb24,
            pts: 0,
            t: Timestamp::zero(),
            is_keyframe: true,
            source_width: w,
            source_height: h,
        },
        data,
    )
}

#[test]
fn identical_frames_hash_equal() {
    let a = pattern(640, 360, box_pattern(0, 0));
    let h1 = phash_rgb(&a, 640, 360, 640 * 3);
    let h2 = phash_rgb(&a, 640, 360, 640 * 3);
    assert_eq!(h1, h2);
    assert_eq!(hamming(h1, h2), 0);
}

#[test]
fn scale_and_noise_invariant() {
    let big = pattern(640, 360, box_pattern(120, 60));
    // 2x2 box downsample of `big`.
    let mut small = vec![0u8; 320 * 180 * 3];
    for y in 0..180 {
        for x in 0..320 {
            for c in 0..3 {
                let mut acc = 0u32;
                for (dy, dx) in [(0, 0), (0, 1), (1, 0), (1, 1)] {
                    acc += u32::from(big[((2 * y + dy) * 640 + 2 * x + dx) * 3 + c]);
                }
                small[(y * 320 + x) * 3 + c] = (acc / 4) as u8;
            }
        }
    }
    let hb = phash_rgb(&big, 640, 360, 640 * 3);
    let hs = phash_rgb(&small, 320, 180, 320 * 3);
    assert!(
        hamming(hb, hs) <= PHASH_DEDUP_DISTANCE,
        "scale: {}",
        hamming(hb, hs)
    );

    // Per-pixel sensor-style noise (deterministic LCG, +-4) does not move
    // the hash beyond the dedup threshold.
    let mut seed = 12345u32;
    let noisy: Vec<u8> = big
        .iter()
        .map(|p| {
            seed = seed.wrapping_mul(1_664_525).wrapping_add(1_013_904_223);
            let d = (seed >> 24) as i16 % 9 - 4;
            (i16::from(*p) + d).clamp(0, 255) as u8
        })
        .collect();
    let hn = phash_rgb(&noisy, 640, 360, 640 * 3);
    assert!(
        hamming(hb, hn) <= PHASH_DEDUP_DISTANCE,
        "noise: {}",
        hamming(hb, hn)
    );

    // A small high-contrast overlay (burned-in timestamp) on this flat
    // synthetic picture moves a few bits; it must stay well under the
    // distance between genuinely different layouts (tested below).
    let mut overlaid = big.clone();
    for y in 10..34 {
        for x in 520..620 {
            let i = (y * 640 + x) * 3;
            let v = if (x / 4 + y / 4) % 2 == 0 { 255 } else { 0 };
            overlaid[i..i + 3].copy_from_slice(&[v, v, v]);
        }
    }
    let ho = phash_rgb(&overlaid, 640, 360, 640 * 3);
    assert!(hamming(hb, ho) <= 12, "overlay: {}", hamming(hb, ho));
}

#[test]
fn different_layouts_hash_far_apart() {
    let a = pattern(640, 360, box_pattern(0, 0));
    let b = pattern(640, 360, box_pattern(400, 200));
    let c = pattern(640, 360, |x, y| {
        let v = ((x / 20 + y / 20) % 2 * 255) as u8;
        [v, v, v]
    });
    let (ha, hb, hc) = (
        phash_rgb(&a, 640, 360, 640 * 3),
        phash_rgb(&b, 640, 360, 640 * 3),
        phash_rgb(&c, 640, 360, 640 * 3),
    );
    assert!(
        hamming(ha, hb) > PHASH_DEDUP_DISTANCE * 2,
        "{}",
        hamming(ha, hb)
    );
    assert!(
        hamming(ha, hc) > PHASH_DEDUP_DISTANCE * 2,
        "{}",
        hamming(ha, hc)
    );
    assert!(
        hamming(hb, hc) > PHASH_DEDUP_DISTANCE * 2,
        "{}",
        hamming(hb, hc)
    );
}

#[test]
fn stride_padding_is_ignored() {
    let tight = pattern(64, 32, box_pattern(10, 5));
    let mut padded = vec![0u8; 32 * 256];
    for y in 0..32 {
        padded[y * 256..y * 256 + 64 * 3].copy_from_slice(&tight[y * 192..(y + 1) * 192]);
    }
    assert_eq!(
        phash_rgb(&tight, 64, 32, 192),
        phash_rgb(&padded, 64, 32, 256)
    );
}

#[test]
fn hamming_counts_differing_bits() {
    assert_eq!(hamming(0, 0), 0);
    assert_eq!(hamming(0, u64::MAX), 64);
    assert_eq!(hamming(0b1010, 0b0110), 2);
    assert_eq!(hamming(7, 5), hamming(5, 7));
    assert!(hamming(1, 6) <= hamming(1, 4) + hamming(4, 6));
    assert!(!is_duplicate(None, 5));
    assert!(is_duplicate(Some(0), 0x3f));
    assert!(!is_duplicate(Some(0), 0x7f));
}

#[test]
fn a_frame_is_hashed_like_its_pixels() {
    let f = frame(64, 36, [200, 30, 30]);
    assert_eq!(phash_frame(&f), Some(phash_rgb(f.data(), 64, 36, 192)));
    let meta = FrameMeta {
        format: PixelFormat::Gray8,
        stride: 4,
        width: 4,
        height: 4,
        ..f.meta()
    };
    assert_eq!(phash_frame(&FrameBuffer::owned(meta, vec![0u8; 16])), None);
}

fn solid(w: usize, h: usize, rgb: [u8; 3], box_x: usize) -> Vec<u8> {
    let mut d = vec![0u8; w * h * 3];
    for y in 0..h {
        for x in 0..w {
            let i = (y * w + x) * 3;
            let inside = x >= box_x && x < box_x + w / 4 && y >= h / 4 && y < h / 2;
            let c = if inside { [255, 255, 255] } else { rgb };
            d[i..i + 3].copy_from_slice(&c);
        }
    }
    d
}

/// The hue in degrees, the saturation and the value.
fn hsv(r: u32, g: u32, b: u32) -> (f64, f64, f64) {
    let c = rgb_to_hsv(r, g, b);
    let hue = if c.delta == 0 {
        0.0
    } else {
        60.0 * c.sextants as f64 / c.delta as f64
    };
    let sat = if c.max == 0 {
        0.0
    } else {
        c.delta as f64 / c.max as f64
    };
    (hue, sat, c.max as f64)
}

#[test]
fn hsv_conversion() {
    assert_eq!(hsv(255, 0, 0).0, 0.0);
    assert!((hsv(0, 255, 0).0 - 120.0).abs() < 1e-3);
    assert!((hsv(0, 0, 255).0 - 240.0).abs() < 1e-3);
    let (_, s, v) = hsv(128, 128, 128);
    assert_eq!((s, v), (0.0, 128.0));
}

/// A distance as a number from zero to one.
fn unit(d: u64) -> f64 {
    d as f64 / ONE as f64
}

#[test]
fn identical_frames_have_zero_distance_and_cuts_are_far() {
    let (w, h) = (320, 180);
    let a = FrameSignature::from_rgb(&solid(w, h, [200, 40, 40], 20), w, h, w * 3);
    let b = FrameSignature::from_rgb(&solid(w, h, [200, 40, 40], 20), w, h, w * 3);
    assert!(unit(a.hist_distance(&b)) < 1e-6);
    assert_eq!(unit(a.edge_change_ratio(&b)), 0.0);
    // Same colour, box moved by a few pixels: small distance.
    let c = FrameSignature::from_rgb(&solid(w, h, [200, 40, 40], 24), w, h, w * 3);
    assert!(unit(a.distance(&c)) < 0.25, "{}", a.distance(&c));
    // Different colour and box far away: large distance.
    let d = FrameSignature::from_rgb(&solid(w, h, [40, 40, 200], 200), w, h, w * 3);
    assert!(unit(a.distance(&d)) > 0.6, "{}", a.distance(&d));
    assert_eq!(a.distance(&d), d.distance(&a));
    let f = frame(320, 180, [200, 40, 40]);
    let flat = FrameSignature::from_frame(&f).unwrap();
    assert_eq!(flat.edge_count, 0);
    assert_eq!(flat.hist_distance(&flat), 0);
}

#[test]
fn detector_finds_hard_cuts_and_ignores_jitter() {
    let (w, h) = (320, 180);
    let mut det = ShotDetector::new(ShotParams::default());
    let colours = [
        [200u8, 40, 40],
        [40, 200, 40],
        [40, 40, 200],
        [200, 200, 40],
    ];
    let mut expected = Vec::new();
    let mut idx = 0;
    for (seg, c) in colours.iter().enumerate() {
        if seg > 0 {
            expected.push(idx);
        }
        for j in 0..10 {
            // Jitter the box by a pixel or two each sample.
            let sig = FrameSignature::from_rgb(
                &solid(w, h, *c, 20 + seg * 40 + (j % 3)),
                w,
                h,
                w * 3,
            );
            det.push(sig);
            idx += 1;
        }
    }
    assert_eq!(
        det.cuts().as_slice(),
        expected.as_slice(),
        "{:?}",
        det.distances()
    );
    assert_eq!(det.samples(), 40);
    assert_eq!(det.distances().len(), 40);
    assert_eq!(det.distances()[0], 0);
}

#[test]
fn shots_cover_the_video_without_gaps() {
    let samples: Vec<Sampled> = (0..6)
        .map(|i| Sampled {
            t: Timestamp::from_secs(i),
            id: 100 + i as u128,
        })
        .collect();
    let rows = shot_rows(
        &samples,
        &vec![2, 4],
        Timestamp::from_secs(6),
        7,
        &vec![11, 12, 13],
        9,
    );
    assert_eq!(rows.len(), 3);
    assert_eq!(rows[0].t0, Timestamp::zero());
    assert_eq!(rows[1].t0, Timestamp::from_secs(2));
    assert_eq!(rows[2].t1, Timestamp::from_secs(6));
    for w in rows.windows(2) {
        assert_eq!(w[0].t1, w[1].t0);
    }
    assert_eq!(rows[1].id, 12);
    assert_eq!(rows[1].video_id, 7);
    assert_eq!(rows[1].provenance_id, 9);
    assert!(shot_rows(&vec![], &vec![], Timestamp::from_secs(6), 7, &vec![1], 9).is_empty());
}

#[test]
fn composes_tiles_with_labels() {
    let a = frame(64, 36, [200, 30, 30]);
    let b = frame(64, 36, [30, 200, 30]);
    let tiles = vec![
        Tile {
            frame: &a,
            label: hms(Timestamp::from_secs(61)),
        },
        Tile {
            frame: &b,
            label: hms(Timestamp::new(37254, 10)),
        },
    ];
    let g = compose(
        &tiles,
        GridLayout {
            cols: 2,
            tile_width: 128,
            gap: 2,
            font_scale: 2,
        },
    );
    assert_eq!(g.width, 2 * 128 + 3 * 2);
    assert_eq!(g.height, 72 + 2 * 2);
    assert_eq!(g.tiles.len(), 2);
    // Bottom-right pixel of the second tile is green.
    let (x, y, w, h) = g.tiles[1];
    let i = (((y + h - 1) * g.width + x + w - 1) * 3) as usize;
    assert_eq!(&g.rgb[i..i + 3], &[30, 200, 30]);
    // The label box is black at its top-left corner and has white glyph pixels.
    let (x, y, _, _) = g.tiles[0];
    let i = (((y + 4) * g.width + x + 4) * 3) as usize;
    assert_eq!(&g.rgb[i..i + 3], &[0, 0, 0]);
    let whites = g
        .rgb
        .chunks_exact(3)
        .filter(|p| p == &[255, 255, 255])
        .count();
    assert!(whites > 50, "{whites}");
    assert_eq!(hms(Timestamp::new(37254, 10)), "01:02:05");
    assert_eq!(GridLayout::parse_cols("3x3"), Some(3));
    assert!(compose(&vec![], GridLayout::default()).rgb.is_empty());
}

#[test]
fn clock_and_glyphs() {
    assert_eq!(clock_text(0), "00:00:00");
    assert_eq!(clock_text(3599), "00:59:59");
    assert_eq!(clock_text(360_000), "100:00:00");
    assert_eq!(GridLayout::parse_cols("x3"), None);
    assert_eq!(GridLayout::parse_cols(" 4 x2"), Some(4));
    assert_ne!(glyph('0'), glyph('1'));
}

/// Millionths of a probability.
fn millionths(p: f64) -> u32 {
    (p * 1e6).round() as u32
}

#[test]
fn ctc_collapses_repeats_and_blanks() {
    let chars: Vec<String> = ["", "a", "b", " "].iter().map(|s| s.to_string()).collect();
    // t=6, c=4: a a blank b b blank -> "ab"
    let steps: Vec<u32> = [
        [0.1, 0.8, 0.05, 0.05],
        [0.1, 0.7, 0.1, 0.1],
        [0.9, 0.05, 0.05, 0.0],
        [0.1, 0.1, 0.7, 0.1],
        [0.1, 0.0, 0.9, 0.0],
        [0.9, 0.0, 0.1, 0.0],
    ]
    .concat()
    .into_iter()
    .map(millionths)
    .collect();
    let (text, conf) = ctc_decode(&steps, 6, 4, &chars);
    assert_eq!(text, "ab");
    assert!((conf as f64 / 1e6 - 0.75).abs() < 1e-6);
}

#[test]
fn prob_map_regions_become_boxes() {
    let (w, h) = (64, 32);
    let mut prob = vec![0u32; w * h];
    for y in 5..10 {
        for x in 10..40 {
            prob[y * w + x] = millionths(0.9);
        }
    }
    for y in 20..24 {
        for x in 50..60 {
            prob[y * w + x] = millionths(0.4); // below box threshold
        }
    }
    let boxes = boxes_from_prob_map(&prob, w, h, &OcrConfig::default());
    assert_eq!(boxes.len(), 1, "{boxes:?}");
    let b = boxes[0];
    assert!(b.x0 <= 10 && b.x1 >= 40 && b.y0 <= 5 && b.y1 >= 10, "{b:?}");
    assert!(b.score as f64 / 1e6 > 0.85);
}

fn text_box(x0: u32, y0: u32, x1: u32, y1: u32) -> TextBox {
    TextBox {
        x0,
        y0,
        x1,
        y1,
        score: 900_000,
    }
}

#[test]
fn boxes_are_read_line_by_line() {
    let boxes = vec![
        text_box(60, 41, 90, 51),
        text_box(50, 2, 80, 12),
        text_box(5, 40, 40, 50),
        text_box(5, 0, 40, 10),
    ];
    let r = reading_order(&boxes);
    assert_eq!(r.len(), 4);
    assert_eq!((r[0].x0, r[0].y0), (5, 0));
    assert_eq!((r[1].x0, r[1].y0), (50, 2));
    assert_eq!((r[2].x0, r[2].y0), (5, 40));
    assert_eq!((r[3].x0, r[3].y0), (60, 41));
}

#[test]
fn detector_input_is_a_multiple_of_thirty_two() {
    let (w, h) = detector_size(1920, 1080, 960);
    assert_eq!(w % 32, 0);
    assert_eq!(h % 32, 0);
    assert_eq!((w, h), (960, 544));
    assert_eq!(detector_size(10, 10, 960), (32, 32));
    assert_eq!(detector_size(1000, 500, 980), (960, 480));
    assert_eq!(detector_size(1000, 500, 20), (32, 32));
    let boxes = to_image(&vec![text_box(0, 0, 480, 272)], 960, 544, 1920, 1080);
    assert_eq!(boxes.len(), 1);
    assert_eq!((boxes[0].x1, boxes[0].y1), (960, 540));
}

#[test]
fn lines_keep_only_confident_text() {
    let boxes = vec![text_box(0, 0, 10, 10), text_box(0, 20, 10, 30)];
    let texts = vec![("kept".to_string(), 900_000), ("weak".to_string(), 100_000)];
    let lines = lines_of(&boxes, &texts, 100, 50, 500_000);
    assert_eq!(lines.len(), 1);
    assert_eq!(lines[0].text, "kept");
    assert_eq!(lines[0].bbox, boxes[0]);
    let batches = line_batches(&boxes, 100, 50, 48).unwrap();
    let n: usize = batches.iter().map(|b| b.items.len()).sum();
    assert_eq!(n, 2);
    assert_eq!(classes_of("a\nb"), vec!["", "a", "b", " "]);
    assert!(check_detected(&vec![1, 1, 544, 960]).is_ok());
    assert!(check_detected(&vec![1, 2]).is_err());
    assert!(check_recognised(&vec![2, 40, 4], 2, 4).is_ok());
    assert!(check_recognised(&vec![1, 40, 4], 2, 4).is_err());
    let rgb: Vec<u8> = (0..48).collect();
    assert_eq!(crop_rgb(&rgb, 12, text_box(1, 1, 2, 3)), vec![15, 16, 17, 27, 28, 29]);
}

#[test]
fn a_grid_can_be_kept_as_a_file() {
    let rgb: Vec<u8> = (0..4 * 3 * 3).map(|i| (i * 7) as u8).collect();
    let file = grid_png(Grid {
        width: 4,
        height: 3,
        rgb: rgb.clone(),
        tiles: vec![],
    })
    .unwrap();
    assert_eq!(&file[..8], b"\x89PNG\r\n\x1a\n");
    let read = image::load_from_memory(&file).unwrap().to_rgb8();
    assert_eq!((read.width(), read.height()), (4, 3));
    assert_eq!(read.into_raw(), rgb);
    let e = grid_png(Grid {
        width: 4,
        height: 3,
        rgb: vec![0; 35],
        tiles: vec![],
    })
    .unwrap_err();
    assert_eq!(e, "grid buffer mismatch");
}

#[test]
fn large_numbers_are_compared() {
    let m = Big::of(u128::MAX);
    assert!(m.times(&m).exceeds(&m));
    assert!(m.plus(&Big::of(1)).exceeds(&m));
    assert!(!m.exceeds(&m));
    assert!(!Big::of(0).exceeds(&Big::of(0)));
    // (a - 1) * (a + 1) is one less than a * a.
    let a = Big::of(u128::MAX - 1);
    assert!(a.times(&a).exceeds(&Big::of(u128::MAX - 2).times(&m)));
    assert!(!a.times(&a).exceeds(&Big::of(u128::MAX - 2).times(&m).plus(&Big::of(1))));
}

#[test]
fn a_tiny_frame_without_edges_is_near_itself() {
    let a = FrameSignature::from_rgb(&[9; 12], 2, 2, 6);
    assert_eq!(a.edge_change_ratio(&a), 0);
    assert_eq!(a.distance(&a), 0);
}

#[test]
fn a_shot_may_be_as_short_as_the_minimum() {
    let (w, h) = (320, 180);
    let mut det = ShotDetector::new(ShotParams::default());
    let mut said = Vec::new();
    for i in [0, 0, 1, 1, 0] {
        let (c, x) = [([200, 40, 40], 20), ([40, 40, 200], 200)][i];
        said.push(det.push(FrameSignature::from_rgb(&solid(w, h, c, x), w, h, w * 3)));
    }
    assert_eq!(said, vec![false, false, true, false, true]);
    assert_eq!(*det.cuts(), vec![2, 4]);
    // Settings of any size are taken.
    let mut det = ShotDetector::new(ShotParams {
        min_distance: 0,
        hard_distance: u64::MAX,
        k_std: u64::MAX,
        ratio: u64::MAX,
        window: usize::MAX,
        min_shot_samples: 0,
    });
    for i in [0, 0, 0, 0, 0, 1] {
        let (c, x) = [([200, 40, 40], 20), ([40, 40, 200], 200)][i];
        assert!(!det.push(FrameSignature::from_rgb(&solid(w, h, c, x), w, h, w * 3)));
    }
    let mut det = ShotDetector::new(ShotParams {
        min_distance: 0,
        hard_distance: u64::MAX,
        ratio: 0,
        window: usize::MAX,
        ..ShotParams::default()
    });
    let mut said = Vec::new();
    for i in [0, 0, 0, 0, 0, 1] {
        let (c, x) = [([200, 40, 40], 20), ([40, 40, 200], 200)][i];
        said.push(det.push(FrameSignature::from_rgb(&solid(w, h, c, x), w, h, w * 3)));
    }
    assert_eq!(said, vec![false, false, false, false, false, true]);
}

#[test]
fn grids_that_cannot_be_held_are_told() {
    let f = FrameBuffer::owned(
        FrameMeta {
            width: 4,
            height: 2,
            stride: 12,
            format: PixelFormat::Rgb24,
            t: Timestamp::zero(),
            pts: 0,
            is_keyframe: true,
            source_width: 4,
            source_height: 2,
        },
        vec![0; 24],
    );
    let tiles = vec![Tile { frame: &f, label: hms(Timestamp::zero()) }];
    let layout = |cols: u32| GridLayout { cols, ..GridLayout::default() };
    assert!(can_hold(&tiles, layout(3)));
    assert!(can_hold(&tiles, layout(100)));
    assert!(!can_hold(&tiles, layout(u32::MAX)));
    assert!(can_hold(&vec![], layout(u32::MAX)));
}
