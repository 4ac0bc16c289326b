use subtitle_fast::backend::{apply_updates, select_next_backend, BackendAttempts, BackendStartError, Keyed, SubtitleUpdate, SubtitleUpdateKind};
use subtitle_fast::dump::{
    draw_rectangles_luma, draw_rectangles_rgb, encode_annotated_frame, encode_luma_frame, luma_to_rgb, pack_luma,
    rect_thickness, regions_to_rects, tint_pixel, Rect, WriteFrameError,
};
use subtitle_fast::frame::{FrameTime, VideoFrame};
use subtitle_fast::model::{
    build_cache_file_name, classify_model_uri, file_url_source, locate_model, remote_source, sanitize_component, split_name,
    trim_text, ModelSource, ModelUriError, ModelUriKind, UrlParts,
};
use subtitle_fast::presence::{
    check_plane, clamp_index, extract_mid_band, extract_roi, letter_component_area, long_run_pixels,
    morphological_open_horizontal, percentile, resize_roi, sobel_at, sobel_magnitudes, threshold_binary, DetectionError,
    ImageView, OwnedImage,
};
use subtitle_fast::sampler::{Elapsed, FrameSampleCoordinator, SamplerSecond};
use subtitle_fast::sink::{FrameMetadata, ImageOutputFormat};

fn tiny_frame() -> VideoFrame {
    VideoFrame::from_nv12_owned(2, 2, 2, 2, None, vec![0u8; 4], vec![0u8; 2]).expect("frame")
}

fn meta(processed_index: u64, timestamp: Option<FrameTime>) -> FrameMetadata {
    FrameMetadata { frame_index: processed_index, processed_index, timestamp }
}

#[test]
fn coordinator_releases_frames_in_processing_order() {
    let mut coordinator = FrameSampleCoordinator::new(1);
    let ready = coordinator.enqueue(tiny_frame(), meta(2, None));
    assert!(ready.is_empty());
    let ready = coordinator.enqueue(tiny_frame(), meta(1, None));
    let order: Vec<u64> = ready.iter().map(|f| f.metadata.processed_index).collect();
    assert_eq!(order, vec![1, 2]);
    let ready = coordinator.enqueue(tiny_frame(), meta(4, None));
    assert!(ready.is_empty());
    let drained = coordinator.drain();
    let order: Vec<u64> = drained.iter().map(|f| f.metadata.processed_index).collect();
    assert_eq!(order, vec![4]);
    assert!(coordinator.drain().is_empty());
}

#[test]
fn coordinator_keeps_one_frame_per_sampling_instant() {
    let mut coordinator = FrameSampleCoordinator::new(1);
    let t = |secs: u64, nanos: u32| Some(FrameTime { secs, nanos });
    let mut kept = Vec::new();
    for (i, ts) in [t(0, 0), t(0, 300_000_000), t(1, 0), t(1, 999_000_000)].into_iter().enumerate() {
        for f in coordinator.enqueue(tiny_frame(), meta(i as u64 + 1, ts)) {
            kept.push(f.metadata.processed_index);
        }
    }
    assert_eq!(kept, vec![1, 3]);
}

#[test]
fn clamp_index_cuts_to_range() {
    assert_eq!(clamp_index(-3, 5), 0);
    assert_eq!(clamp_index(7, 5), 4);
    assert_eq!(clamp_index(2, 5), 2);
    assert_eq!(clamp_index(3, 0), 0);
}

#[test]
fn bands_are_cut_from_the_plane() {
    let data: Vec<u8> = (0..40u8).collect();
    let mid = extract_mid_band(&data, 4, 10, 4, 2);
    assert_eq!(mid.data, &data[16..24]);
    assert_eq!((mid.width, mid.height, mid.stride), (4, 2, 4));
    let roi = extract_roi(&data, 4, 10, 4, 2);
    assert_eq!(roi.data, &data[32..40]);
    assert_eq!(roi.height, 2);
}

#[test]
fn resize_copies_rows_or_defers_downsampling() {
    let data = [1u8, 2, 3, 99, 4, 5, 6, 99];
    let view = ImageView { data: &data, width: 3, height: 2, stride: 4 };
    let copy = resize_roi(&view, 3).expect("copy");
    assert_eq!(copy.data, vec![1, 2, 3, 4, 5, 6]);
    assert_eq!((copy.width, copy.height), (3, 2));
    assert!(resize_roi(&view, 2).is_none());
    let empty = ImageView { data: &data, width: 0, height: 2, stride: 4 };
    let copy = resize_roi(&empty, 1).expect("empty");
    assert!(copy.data.is_empty());
}

#[test]
fn sobel_responds_to_vertical_edges() {
    let data = [0u8, 0, 10, 0, 0, 10, 0, 0, 10];
    assert_eq!(sobel_at(&data, 3, 3, 1, 1, true), 40);
    assert_eq!(sobel_at(&data, 3, 3, 1, 1, false), 0);
    assert_eq!(sobel_at(&data, 3, 3, 0, 0, true), 0);
    let image = OwnedImage { data: data.to_vec(), width: 3, height: 3 };
    assert_eq!(sobel_magnitudes(&image), vec![0, 40, 40, 0, 40, 40, 0, 40, 40]);
}

#[test]
fn percentile_finds_the_value_at_a_rank() {
    let data = [5u8, 1, 3, 3, 9];
    assert_eq!(percentile(&data, 3), 3);
    assert_eq!(percentile(&data, 5), 9);
    assert_eq!(percentile(&data, 0), 0);
    assert_eq!(percentile(&data, 6), 255);
    assert_eq!(percentile(&[], 1), 0);
}

#[test]
fn thresholding_and_opening() {
    let image = OwnedImage { data: vec![10, 200, 150], width: 3, height: 1 };
    assert_eq!(threshold_binary(&image, 150), vec![0, 1, 1]);
    let mut mask = vec![1u8, 1, 1, 0, 1, 0, 1, 1, 0, 0, 1, 0];
    morphological_open_horizontal(&mut mask, 5);
    assert_eq!(mask, vec![1, 1, 1, 0, 0, 0, 0, 0, 0, 0, 1, 0]);
    let mut narrow = vec![1u8, 0, 1, 1];
    morphological_open_horizontal(&mut narrow, 2);
    assert_eq!(narrow, vec![1, 0, 1, 1]);
}

#[test]
fn long_runs_are_counted_per_row() {
    let mask = [1u8, 1, 1, 0, 1, 1, 1, 0, 1, 1, 1, 1, 1, 1];
    assert_eq!(long_run_pixels(&mask, 6, 3), 7);
    assert_eq!(long_run_pixels(&mask, 6, 2), 11);
    assert_eq!(long_run_pixels(&mask, 0, 2), 0);
}

#[test]
fn glyph_sized_components_are_measured() {
    let mut mask = vec![0u8; 100];
    for y in 2..8 {
        for x in 2..8 {
            mask[y * 10 + x] = 1;
        }
    }
    mask[9 * 10 + 9] = 1;
    assert_eq!(letter_component_area(&mask, 10), 36);
    assert_eq!(letter_component_area(&vec![1u8; 80 * 7], 80), 0);
    assert_eq!(letter_component_area(&vec![1u8; 60 * 7], 60), 420);
    assert_eq!(letter_component_area(&mask, 0), 0);
}

#[test]
fn plane_checks_report_the_shortfall() {
    assert_eq!(check_plane(4, 3, 12), Ok(12));
    assert_eq!(check_plane(4, 3, 11), Err(DetectionError::InsufficientData { expected: 12, actual: 11 }));
    assert_eq!(check_plane(usize::MAX, 2, 0), Err(DetectionError::DimensionOverflow));
}

#[test]
fn outline_thickness() {
    assert_eq!(rect_thickness(&Rect { x0: 0, y0: 0, x1: 5, y1: 5 }, 10, 10), 2);
    assert_eq!(rect_thickness(&Rect { x0: 2, y0: 2, x1: 2, y1: 8 }, 10, 10), 1);
    assert_eq!(rect_thickness(&Rect { x0: 0, y0: 0, x1: 5, y1: 5 }, 1, 1), 1);
}

#[test]
fn rectangles_are_outlined_on_luma() {
    let mut buffer = vec![0u8; 49];
    draw_rectangles_luma(&mut buffer, 7, 7, &[Rect { x0: 1, y0: 1, x1: 5, y1: 5 }]);
    for y in 0..7 {
        for x in 0..7 {
            let inside = (1..=5).contains(&x) && (1..=5).contains(&y);
            let expected = if inside && !(x == 3 && y == 3) { 255 } else { 0 };
            assert_eq!(buffer[y * 7 + x], expected, "pixel ({x}, {y})");
        }
    }
}

#[test]
fn rectangles_are_outlined_in_red_on_rgb() {
    let mut buffer = luma_to_rgb(&[7u8; 9]);
    draw_rectangles_rgb(&mut buffer, 3, 3, &[Rect { x0: 0, y0: 0, x1: 0, y1: 2 }]);
    for y in 0..3 {
        for x in 0..3 {
            let px = &buffer[(y * 3 + x) * 3..(y * 3 + x) * 3 + 3];
            if x == 0 {
                assert_eq!(px, &[255, 64, 64]);
            } else {
                assert_eq!(px, &[7, 7, 7]);
            }
        }
    }
}

#[test]
fn grey_to_rgb_and_tinting() {
    assert_eq!(luma_to_rgb(&[1, 2]), vec![1, 1, 1, 2, 2, 2]);
    let mut short = vec![0u8; 5];
    tint_pixel(&mut short, 6, 0, 1, [9, 9, 9]);
    assert_eq!(short, vec![0u8; 5]);
    let mut buffer = vec![0u8; 6];
    tint_pixel(&mut buffer, 6, 0, 1, [9, 8, 7]);
    assert_eq!(buffer, vec![0, 0, 0, 9, 8, 7]);
}

#[test]
fn regions_are_cut_to_the_frame() {
    let rects = regions_to_rects(&[(-3, 2, 5, 9), (10, 0, 12, 3), (2, 2, 2, 5), (1, 1, -1, 4)], 8, 6);
    assert_eq!(rects, vec![Rect { x0: 0, y0: 2, x1: 4, y1: 5 }]);
    assert!(regions_to_rects(&[(0, 0, 2, 2)], 0, 6).is_empty());
}

#[test]
fn planes_are_packed_row_by_row() {
    let data = [1u8, 2, 3, 0, 4, 5, 6, 0];
    assert_eq!(pack_luma(&data, 3, 2, 4).expect("packed"), vec![1, 2, 3, 4, 5, 6]);
    match pack_luma(&data[..7], 3, 2, 4) {
        Err(WriteFrameError::PlaneBounds { stride, width, height }) => assert_eq!((stride, width, height), (4, 3, 2)),
        other => panic!("unexpected {other:?}"),
    }
}

#[test]
fn frames_are_encoded_in_the_chosen_format() {
    let data = vec![128u8; 16];
    let yuv = encode_luma_frame(&data, 4, 4, 4, ImageOutputFormat::Yuv).expect("ok").expect("frame");
    assert_eq!(yuv.bytes, data);
    assert_eq!(yuv.extension, "yuv");
    let png = encode_luma_frame(&data, 4, 4, 4, ImageOutputFormat::Png).expect("ok").expect("frame");
    assert_eq!(&png.bytes[..8], &[137, 80, 78, 71, 13, 10, 26, 10]);
    assert_eq!(png.extension, "png");
    let jpeg = encode_luma_frame(&data, 4, 4, 4, ImageOutputFormat::Jpeg { quality: 90 }).expect("ok").expect("frame");
    assert_eq!(&jpeg.bytes[..2], &[0xFF, 0xD8]);
    assert_eq!(jpeg.extension, "jpg");
    let webp = encode_luma_frame(&data, 4, 4, 4, ImageOutputFormat::Webp).expect("ok").expect("frame");
    assert_eq!(&webp.bytes[..4], b"RIFF");
    assert_eq!(webp.extension, "webp");
    assert!(encode_luma_frame(&data, 0, 4, 4, ImageOutputFormat::Png).expect("ok").is_none());
    assert!(matches!(
        encode_luma_frame(&data[..10], 4, 4, 4, ImageOutputFormat::Png),
        Err(WriteFrameError::PlaneBounds { .. })
    ));
}

#[test]
fn annotated_frames_carry_the_outlines() {
    let data = vec![0u8; 16];
    let yuv = encode_annotated_frame(&data, 4, 4, 4, &[(1, 1, 3, 3)], ImageOutputFormat::Yuv).expect("ok").expect("frame");
    let mut expected = vec![0u8; 16];
    for y in 1..3 {
        for x in 1..3 {
            expected[y * 4 + x] = 255;
        }
    }
    assert_eq!(yuv.bytes, expected);
    let png = encode_annotated_frame(&data, 4, 4, 4, &[(1, 1, 3, 3)], ImageOutputFormat::Png).expect("ok").expect("frame");
    assert_eq!(&png.bytes[..8], &[137, 80, 78, 71, 13, 10, 26, 10]);
}

#[test]
fn file_names_are_split_at_the_last_dot() {
    assert_eq!(split_name("model.onnx"), ("model", Some("onnx")));
    assert_eq!(split_name("archive.tar.gz"), ("archive.tar", Some("gz")));
    assert_eq!(split_name(".hidden"), (".hidden", None));
    assert_eq!(split_name("name."), ("name.", None));
    assert_eq!(split_name("plain"), ("plain", None));
}

#[test]
fn components_are_sanitised() {
    assert_eq!(sanitize_component("my model!", "x"), "my-model");
    assert_eq!(sanitize_component("--", "x"), "x");
    assert_eq!(sanitize_component("ÄÖ.v2", "x"), "v2");
    assert_eq!(sanitize_component("", "bin"), "bin");
}

#[test]
fn cache_names_carry_a_digest_of_the_url() {
    let parts = |text: &str, segments: Option<Vec<&str>>| UrlParts {
        text: text.to_string(),
        segments: segments.map(|list| list.into_iter().map(str::to_string).collect()),
    };
    let url = parts("https://example.com/models/det.onnx", Some(vec!["models", "det.onnx"]));
    assert_eq!(build_cache_file_name(&url), "det-9701744c520e.onnx");
    assert_eq!(build_cache_file_name(&parts("https://example.com/", None)), "model-0f115db062b7.bin");
    assert_eq!(build_cache_file_name(&parts("https://example.com/a.b/", Some(vec!["a.b", ""]))), "a-6da0c9bff0c2.b");
}

#[test]
fn model_references_are_classified_by_scheme() {
    assert_eq!(classify_model_uri("https://host/m.onnx"), ModelUriKind::Remote);
    assert_eq!(classify_model_uri("http://host/m.onnx"), ModelUriKind::Remote);
    assert_eq!(classify_model_uri("file:///tmp/m.onnx"), ModelUriKind::FileUrl);
    assert_eq!(classify_model_uri("models/m.onnx"), ModelUriKind::Local);
    assert_eq!(classify_model_uri("HTTP://host"), ModelUriKind::Local);
}

#[test]
fn blank_model_references_name_no_model() {
    assert_eq!(locate_model(None, true), Ok(None));
    assert_eq!(locate_model(Some(""), false), Ok(None));
    assert_eq!(locate_model(Some(" \t\u{3000}\n"), false), Ok(None));
    assert_eq!(trim_text("\u{a0} a b \r\n"), "a b");
}

#[test]
fn local_references_keep_their_origin() {
    let from_config = Some(ModelSource::Local { path: "models/det.onnx".to_string(), from_config: true });
    assert_eq!(locate_model(Some("  models/det.onnx "), false), Ok(from_config));
    let from_cli = Some(ModelSource::Local { path: "~/det.onnx".to_string(), from_config: false });
    assert_eq!(locate_model(Some("~/det.onnx"), true), Ok(from_cli));
}

#[test]
fn remote_references_are_cached_under_their_normalised_url() {
    let expected = ModelSource::Remote {
        url: "https://example.com/models/det.onnx".to_string(),
        file_name: "det-9701744c520e.onnx".to_string(),
    };
    assert_eq!(locate_model(Some("https://EXAMPLE.com/models/./det.onnx"), true), Ok(Some(expected)));
    assert_eq!(
        locate_model(Some("https://"), true),
        Err(ModelUriError::InvalidUrl { value: "https://".to_string() })
    );
    let parts = UrlParts { text: "https://example.com/".to_string(), segments: Some(vec![String::new()]) };
    let source = ModelSource::Remote { url: "https://example.com/".to_string(), file_name: "model-0f115db062b7.bin".to_string() };
    assert_eq!(remote_source(parts), source);
}

#[test]
fn file_references_name_local_paths() {
    let expected = ModelSource::File { path: b"/tmp/my model.onnx".to_vec() };
    assert_eq!(locate_model(Some("file:///tmp/my%20model.onnx"), true), Ok(Some(expected)));
    assert_eq!(
        locate_model(Some("file://elsewhere/m.onnx"), false),
        Err(ModelUriError::InvalidFileUrl { value: "file://elsewhere/m.onnx".to_string() })
    );
    assert_eq!(
        file_url_source("file://x", None),
        Err(ModelUriError::InvalidFileUrl { value: "file://x".to_string() })
    );
    assert_eq!(file_url_source("file:///a", Some(b"/a".to_vec())), Ok(Some(ModelSource::File { path: b"/a".to_vec() })));
}

#[test]
fn fallback_backends_are_tried_once_each() {
    assert_eq!(select_next_backend(&[1, 2, 3], &[1]), Some(2));
    assert_eq!(select_next_backend(&[1, 2], &[2, 1]), None);
    assert!(matches!(BackendAttempts::start(vec![], 1, false), Err(BackendStartError::NoBackend)));
    assert!(matches!(BackendAttempts::start(vec![1, 2], 3, false), Err(BackendStartError::Unsupported(3))));
    let mut attempts = BackendAttempts::start(vec![1, 2, 3], 2, false).expect("start");
    assert_eq!(attempts.on_failure(5), None);
    assert_eq!(attempts.on_failure(0), Some(1));
    assert_eq!(attempts.on_failure(0), Some(3));
    assert_eq!(attempts.on_failure(0), None);
    assert_eq!(attempts.tried, vec![2, 1, 3]);
    assert_eq!(attempts.current, 3);
    let mut locked = BackendAttempts::start(vec![1, 2], 1, true).expect("start");
    assert_eq!(locked.on_failure(0), None);
}

#[test]
fn subtitle_updates_revise_the_list() {
    let item = |id: u64, text: &str| Keyed { id, value: text.to_string() };
    let mut list = vec![item(1, "a")];
    apply_updates(
        &mut list,
        vec![
            SubtitleUpdate { kind: SubtitleUpdateKind::New, subtitle: item(2, "b") },
            SubtitleUpdate { kind: SubtitleUpdateKind::Updated, subtitle: item(1, "c") },
            SubtitleUpdate { kind: SubtitleUpdateKind::Updated, subtitle: item(9, "d") },
        ],
    );
    let seen: Vec<(u64, &str)> = list.iter().map(|k| (k.id, k.value.as_str())).collect();
    assert_eq!(seen, vec![(1, "c"), (2, "b"), (9, "d")]);
}

#[test]
fn a_second_writes_at_most_its_instants() {
    let mut second = SamplerSecond::new(3, 2);
    let mut written = 0;
    for num in [0u64, 100, 400, 499_999, 500_000, 700_000, 999_999] {
        if second.consume(Elapsed { num, den: 1_000_000 }) {
            written += 1;
        }
    }
    // Instants 0 and 1/2: the frame at 0 writes, and so does the one at
    // 499 999 microseconds, which reaches 1/2 within the tolerance of a
    // millionth of a second; every later frame of the second is dropped.
    assert_eq!(written, 2);
    assert_eq!(second.next_target_idx, 2);
    let mut single = SamplerSecond::new(0, 0);
    assert!(single.consume(Elapsed { num: 5, den: 10 }));
    assert!(!single.consume(Elapsed { num: 9, den: 10 }));
}

#[test]
fn draining_untimed_frames_releases_all_of_them_in_order() {
    let mut coordinator = FrameSampleCoordinator::new(30);
    assert_eq!(coordinator.enqueue(tiny_frame(), meta(1, None)).len(), 1);
    for index in [9u64, 4, 7, 3, 8] {
        assert!(coordinator.enqueue(tiny_frame(), meta(index, None)).is_empty());
    }
    let drained = coordinator.drain();
    let order: Vec<u64> = drained.iter().map(|f| f.metadata.processed_index).collect();
    assert_eq!(order, vec![3, 4, 7, 8, 9]);
    assert!(coordinator.drain().is_empty());
}
