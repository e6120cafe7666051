use face_index::align::{
    can_align, choose_pivot, face_view, gather_taps, middle_face, paint_face, photo_pixels, Taps,
};
use face_index::blur::{blur_laplacians, checked_blur_laplacians, laplacians};
use face_index::detection::{
    check_levels, check_outputs, checked_detection_input, detection_input, detection_side,
    fit_image, generate_anchors, level_anchors, level_outputs, level_stride, read_candidates,
    read_levels, Anchor, Output,
};
use face_index::embedding::{check_norm, embedding_input};
use face_index::face::FaceBox;
use face_index::formats::may_decode;
use face_index::picture::{
    checked_decode_image, decode_image, explain, is_convertible, is_resizable, GrayPixels, RgbPixels,
};
use face_index::single::Single;
use face_index::tensor::{plane_tensor, PlaneOrder};
use image::imageops::FilterType;
use image::{DynamicImage, GrayImage, ImageFormat, Luma, Rgb, RgbImage, Rgba, RgbaImage};

fn single(x: f32) -> Single {
    Single::from_bits(x.to_bits())
}

fn photo(width: u32, height: u32) -> DynamicImage {
    let mut img = RgbImage::new(width, height);
    for y in 0..height {
        for x in 0..width {
            let v = (x * 7 + y * 13) % 256;
            img.put_pixel(x, y, Rgb([v as u8, (v / 2) as u8, ((v * v) % 251) as u8]));
        }
    }
    DynamicImage::ImageRgb8(img)
}

fn clear_photo(width: u32, height: u32) -> DynamicImage {
    let mut img = RgbaImage::new(width, height);
    for y in 0..height {
        for x in 0..width {
            img.put_pixel(x, y, Rgba([(x * 3) as u8, (y * 5) as u8, 9, 128]));
        }
    }
    DynamicImage::ImageRgba8(img)
}

fn face_at(x: f32, y: f32, width: f32, height: f32) -> FaceBox {
    FaceBox {
        x: single(x),
        y: single(y),
        width: single(width),
        height: single(height),
        confidence: single(0.9),
        landmarks: None,
    }
}

#[test]
fn decodes_an_image_from_memory() {
    let img = photo(5, 4);
    let mut bytes = std::io::Cursor::new(Vec::new());
    img.write_to(&mut bytes, ImageFormat::Png).unwrap();
    let decoded = decode_image(bytes.get_ref()).unwrap();
    assert_eq!(decoded, img);
}

#[test]
fn refuses_bytes_that_are_no_image() {
    let message = decode_image(b"no image at all").unwrap_err();
    let reason = image::load_from_memory(b"no image at all").unwrap_err().to_string();
    assert_eq!(message, format!("Failed to load image from memory: {reason}"));
}

#[test]
fn explains_failures() {
    assert_eq!(explain("Failed to open image", Ok::<u8, String>(7)), Ok(7));
    let failure: Result<u8, String> = Err("gone".to_string());
    assert_eq!(
        explain("Failed to open image", failure),
        Err("Failed to open image: gone".to_string())
    );
}

/// The bytes of an image file.
fn file_of(img: &DynamicImage, format: ImageFormat) -> Vec<u8> {
    let mut bytes = std::io::Cursor::new(Vec::new());
    img.write_to(&mut bytes, format).unwrap();
    bytes.into_inner()
}

#[test]
fn ordinary_files_are_decoded() {
    let img = photo(40, 30);
    for format in [ImageFormat::Png, ImageFormat::Bmp, ImageFormat::Qoi, ImageFormat::Pnm] {
        let bytes = file_of(&img, format);
        assert!(may_decode(&bytes));
        assert_eq!(checked_decode_image(&bytes), Some(Ok(img.clone())));
    }
    for format in [ImageFormat::Jpeg, ImageFormat::Gif] {
        let bytes = file_of(&img, format);
        assert!(may_decode(&bytes));
        let loaded = image::load_from_memory(&bytes).unwrap();
        assert_eq!(checked_decode_image(&bytes), Some(Ok(loaded)));
    }
    let failure = checked_decode_image(b"no image at all").unwrap().unwrap_err();
    assert!(failure.starts_with("Failed to load image from memory: "));
}

#[test]
fn formats_that_are_left_out_are_not_decoded() {
    for format in [ImageFormat::Tiff, ImageFormat::WebP] {
        let bytes = file_of(&photo(4, 3), format);
        assert!(!may_decode(&bytes));
        assert_eq!(checked_decode_image(&bytes), None);
    }
    assert!(!may_decode(&[0x4D, 0x4D, 0, 0x2A]));
    assert!(!may_decode(&[0x76, 0x2F, 0x31, 0x01, 2, 0, 0, 0]));
    assert!(may_decode(&[0x76, 0x2F, 0x31]));
    assert!(may_decode(b"II*"));
    assert!(may_decode(b""));
}

#[test]
fn long_runs_of_run_marks_are_not_decoded() {
    let marks = [1u8, 1, 1, 7];
    let mut bytes = b"#?RADIANCE\nab".to_vec();
    bytes.extend(marks.repeat(3));
    bytes.extend([1, 1, 1]);
    assert!(may_decode(&bytes));
    bytes.push(7);
    assert!(!may_decode(&bytes));
    bytes[17] = 2;
    assert!(may_decode(&bytes));
    // Only in a Radiance file.
    assert!(may_decode(&marks.repeat(9)));
}

#[test]
fn torn_palettes_are_not_decoded() {
    let chunk = |length: u8| {
        let mut bytes = b"\x89PNG....".to_vec();
        bytes.extend([0, 0, 0, length]);
        bytes.extend(b"PLTE");
        bytes
    };
    assert!(may_decode(&chunk(3)));
    assert!(may_decode(&chunk(255)));
    assert!(!may_decode(&chunk(4)));
    assert!(!may_decode(&chunk(5)));
    assert!(may_decode(b"PLTE"));
}

#[test]
fn only_plain_jpeg_files_are_decoded() {
    let bytes = file_of(&photo(40, 30), ImageFormat::Jpeg);
    let place = |code: u8| bytes.windows(2).position(|pair| pair == [0xFF, code]).unwrap();
    let changed = |at: usize, value: u8| {
        let mut other = bytes.clone();
        other[at] = value;
        may_decode(&other)
    };
    assert!(may_decode(&bytes));
    // A progressive frame.
    let frame = place(0xC0);
    assert!(!changed(frame + 1, 0xC2));
    // Sides of 4096 and 4097 pixels, and too many blocks.
    let sized = |height: [u8; 2], width: [u8; 2]| {
        let mut other = bytes.clone();
        other[frame + 5..frame + 7].copy_from_slice(&height);
        other[frame + 7..frame + 9].copy_from_slice(&width);
        may_decode(&other)
    };
    assert!(sized([16, 0], [0, 16]));
    assert!(!sized([16, 1], [0, 16]));
    assert!(sized([0, 16], [16, 0]));
    assert!(!sized([0, 16], [16, 1]));
    assert!(sized([2, 0], [2, 0]));
    assert!(!sized([16, 0], [16, 0]));
    // How many colours, and how many samples of each.
    assert!(!changed(frame + 9, 4));
    assert!(changed(frame + 11, 0x22));
    assert!(!changed(frame + 11, 0x41));
    assert!(!changed(frame + 14, 0x21));
    assert!(!changed(frame + 17, 0x12));
    // Quantization tables with two bytes to a step, or a large first step.
    let tables = place(0xDB);
    assert!(changed(tables + 5, 255));
    assert!(!changed(tables + 4, 16));
    let stepped = |step: u8| {
        let mut other = bytes.clone();
        other[frame + 5..frame + 9].copy_from_slice(&[2, 0, 2, 0]);
        other[tables + 5] = step;
        may_decode(&other)
    };
    assert!(stepped(16));
    assert!(!stepped(17));
    // A scan of some of the colours, a second scan, a second frame.
    let scan = place(0xDA);
    assert!(!changed(scan + 4, 1));
    let twice = |from: usize| {
        let mut other = bytes.clone();
        let copy = bytes[from..from + 20].to_vec();
        other.extend(copy);
        may_decode(&other)
    };
    assert!(!twice(scan));
    assert!(!twice(frame));
    assert!(!may_decode(&bytes[..frame + 12]));
    assert!(!may_decode(&bytes[..tables + 3]));
    // In a file of another format nothing of this matters.
    assert!(may_decode(&bytes[1..]));
}

#[test]
fn ordinary_photos_are_convertible_and_resizable() {
    assert!(is_convertible(&photo(20, 10)));
    assert!(is_convertible(&DynamicImage::ImageRgb8(RgbImage::new(0, 0))));
    assert!(is_resizable(20, 640));
    assert!(is_resizable(u32::MAX, 0));
    assert_eq!(is_resizable(u32::MAX, u32::MAX), 16 * (u32::MAX as u128).pow(2) <= isize::MAX as u128);
}

#[test]
fn detection_side_rounds_up_to_strides() {
    assert_eq!(detection_side(512, 340), 512);
    assert_eq!(detection_side(513, 340), 544);
    assert_eq!(detection_side(340, 513), 544);
    assert_eq!(detection_side(1, 1), 32);
    assert_eq!(detection_side(0, 0), 0);
    assert_eq!(detection_side(609, 3), 640);
    assert_eq!(detection_side(639, 3), 640);
    assert_eq!(detection_side(640, 640), 640);
    assert_eq!(detection_side(4000, 3000), 640);
    for w in 0..700u32 {
        let max_dim = (w as f32).max(5.0);
        let expected = if max_dim < 640.0 { ((max_dim as u32 + 31) / 32) * 32 } else { 640 };
        assert_eq!(detection_side(w, 5), expected);
    }
}

#[test]
fn fitting_keeps_pixels_of_the_right_size() {
    let img = photo(32, 16);
    let grid = fit_image(&img, 32, 16);
    assert_eq!((grid.width, grid.height), (32, 16));
    assert_eq!(grid.samples, img.to_rgb8().into_raw());
}

#[test]
fn fitting_resamples_other_sizes() {
    let img = photo(40, 30);
    let grid = fit_image(&img, 64, 48);
    let expected = img.resize_exact(64, 48, FilterType::Triangle).to_rgb8();
    assert_eq!((grid.width, grid.height), (64, 48));
    assert_eq!(grid.samples, expected.into_raw());
    assert_ne!(grid.samples, img.to_rgb8().into_raw());
}

#[test]
fn surplus_samples_are_left_behind() {
    let raw = vec![1u8, 2, 3, 4, 5, 6, 99, 99];
    let img = DynamicImage::ImageRgb8(RgbImage::from_raw(2, 1, raw).unwrap());
    let grid = fit_image(&img, 2, 1);
    assert_eq!(grid.samples, vec![1, 2, 3, 4, 5, 6]);
}

#[test]
fn detection_input_has_blue_green_red_planes() {
    let img = photo(40, 30);
    let tensor = detection_input(&img, 64, 48);
    let resized = img.resize_exact(64, 48, FilterType::Triangle).to_rgb8();
    let area = 64 * 64;
    assert_eq!(tensor.len(), 3 * area);
    for y in 0..64u32 {
        for x in 0..64u32 {
            for plane in 0..3usize {
                let value = tensor[plane * area + (y * 64 + x) as usize] as f32 / 256.0;
                let expected = if y < 48 {
                    (resized.get_pixel(x, y).0[2 - plane] as f32 - 127.5) / 128.0
                } else {
                    0.0
                };
                assert_eq!(value, expected);
            }
        }
    }
}

#[test]
fn steps_of_one_256th_are_exact() {
    for p in 0..=255u8 {
        let grid = RgbPixels { width: 1, height: 1, samples: vec![p, 0, 0] };
        let tensor = plane_tensor(&grid, 1, PlaneOrder::Rgb);
        assert_eq!(tensor[0] as f32 / 256.0, (p as f32 - 127.5) / 128.0);
    }
}

#[test]
fn detection_input_is_checked() {
    let img = photo(40, 30);
    assert_eq!(checked_detection_input(&img, 64, 48), Some(detection_input(&img, 64, 48)));
    assert_eq!(checked_detection_input(&img, 65, 48), None);
    assert_eq!(checked_detection_input(&img, 64, 65), None);
}

#[test]
fn anchors_stand_at_cell_corners() {
    let anchors = generate_anchors(8, &[16, 32], 3, 2);
    assert_eq!(anchors.len(), 12);
    assert_eq!(anchors[0], Anchor { cx: 0, cy: 0 });
    assert_eq!(anchors[1], Anchor { cx: 0, cy: 0 });
    assert_eq!(anchors[2], Anchor { cx: 8, cy: 0 });
    assert_eq!(anchors[5], Anchor { cx: 16, cy: 0 });
    assert_eq!(anchors[6], Anchor { cx: 0, cy: 8 });
    assert_eq!(anchors[11], Anchor { cx: 16, cy: 8 });
    assert_eq!(generate_anchors(8, &[], 3, 2), vec![]);
}

#[test]
fn levels_of_the_network() {
    let mut totals = Vec::new();
    for level in 0..3 {
        totals.push((level_stride(level), level_outputs(level), level_anchors(level, 640).len()));
    }
    assert_eq!(
        totals,
        vec![(8, (0, 3, 6), 12800), (16, (1, 4, 7), 3200), (32, (2, 5, 8), 800)]
    );
}

#[test]
fn reads_the_guesses_above_the_threshold() {
    // One cell of stride 32 has two anchors; four cells have eight.
    let mut scores = vec![single(0.1); 8];
    scores[3] = single(0.6);
    scores[5] = single(f32::NAN);
    scores[6] = single(0.59999996);
    let boxes: Vec<Single> = (0..32).map(|i| single(i as f32)).collect();
    let points: Vec<Single> = (0..80).map(|i| single(1000.0 + i as f32)).collect();
    assert!(check_outputs(2, 64, &scores, &boxes, &points));
    let found = read_candidates(2, 64, &scores, &boxes, &points);
    assert_eq!(found.len(), 2);
    assert_eq!(found[0].anchor, Anchor { cx: 32, cy: 0 });
    assert_eq!(found[0].score, single(0.6));
    assert_eq!(found[0].left, single(12.0));
    assert_eq!(found[0].top, single(13.0));
    assert_eq!(found[0].right, single(14.0));
    assert_eq!(found[0].bottom, single(15.0));
    assert_eq!(found[0].points[0], (single(1030.0), single(1031.0)));
    assert_eq!(found[0].points[4], (single(1038.0), single(1039.0)));
    assert_eq!(found[1].anchor, Anchor { cx: 0, cy: 32 });
    assert_eq!(found[1].left, single(20.0));
}

#[test]
fn notices_outputs_that_are_too_short() {
    let scores = vec![single(0.9); 8];
    let boxes = vec![single(0.0); 32];
    let points = vec![single(0.0); 80];
    assert!(check_outputs(2, 64, &scores, &boxes, &points));
    assert!(!check_outputs(2, 64, &scores[..7], &boxes, &points));
    assert!(!check_outputs(2, 64, &scores, &boxes[..31], &points));
    assert!(!check_outputs(2, 64, &scores, &boxes, &points[..79]));
    let low = vec![single(0.0); 8];
    assert!(check_outputs(2, 64, &low, &[], &[]));
}

/// Outputs for a square of 32: 32, 8 and 2 anchors.
fn outputs_of_levels() -> Vec<Output> {
    let counts = [32, 8, 2];
    let mut outputs = Vec::new();
    for (part, width) in [1, 4, 10].into_iter().enumerate() {
        for (level, count) in counts.into_iter().enumerate() {
            let mut numbers = vec![single((100 * part + level) as f32); count * width];
            if part == 0 {
                numbers.fill(single(0.0));
                numbers[1] = single(0.7 + level as f32);
            }
            outputs.push(Ok(numbers));
        }
    }
    outputs
}

#[test]
fn reads_all_levels_in_order() {
    let mut outputs = outputs_of_levels();
    if let Ok(scores) = &mut outputs[0] {
        scores[31] = single(0.6);
    }
    assert!(check_levels(32, &outputs));
    let found = read_levels(32, outputs).unwrap();
    let summary: Vec<(u32, u64, u64, Single, Single)> = found
        .iter()
        .map(|(stride, guess)| (*stride, guess.anchor.cx, guess.anchor.cy, guess.score, guess.left))
        .collect();
    assert_eq!(
        summary,
        vec![
            (8, 0, 0, single(0.7), single(100.0)),
            (8, 24, 24, single(0.6), single(100.0)),
            (16, 0, 0, single(1.7), single(101.0)),
            (32, 0, 0, single(2.7), single(102.0)),
        ]
    );
    assert_eq!(found[2].1.points[4], (single(201.0), single(201.0)));
}

#[test]
fn first_output_that_fails_decides() {
    // The order in which outputs are looked at, and what is said of each.
    let turns = [
        (0, "Failed stride 8 scores: torn"),
        (3, "Failed stride 8 boxes: torn"),
        (6, "Failed stride 8 kps: torn"),
        (1, "Failed stride 16 scores: torn"),
        (4, "Failed stride 16 boxes: torn"),
        (7, "Failed stride 16 kps: torn"),
        (2, "Failed stride 32 scores: torn"),
        (5, "Failed stride 32 boxes: torn"),
        (8, "Failed stride 32 kps: torn"),
    ];
    for (turn, (index, message)) in turns.iter().enumerate() {
        let mut outputs = outputs_of_levels();
        for (later, _) in &turns[turn..] {
            outputs[*later] = Err("lost".to_string());
        }
        outputs[*index] = Err("torn".to_string());
        assert!(check_levels(32, &outputs));
        match read_levels(32, outputs) {
            Ok(_) => panic!("a failure was expected"),
            Err(text) => assert_eq!(&text, message),
        }
    }
}

#[test]
fn levels_that_are_not_come_to_may_be_short() {
    let mut outputs = outputs_of_levels();
    outputs[4] = Ok(Vec::new());
    assert!(!check_levels(32, &outputs));
    outputs[7] = Err("torn".to_string());
    assert!(check_levels(32, &outputs));
    outputs[0] = Ok(Vec::new());
    assert!(!check_levels(32, &outputs));
}

#[test]
fn inverted_shades_negate_the_laplacians() {
    let samples: Vec<u8> = (0..35).map(|i: u32| ((i * i * 7) % 256) as u8).collect();
    let inverted: Vec<u8> = samples.iter().map(|&p| 255 - p).collect();
    let values = laplacians(&GrayPixels { width: 7, height: 5, samples });
    let negated = laplacians(&GrayPixels { width: 7, height: 5, samples: inverted });
    assert_eq!(values.len(), 15);
    assert!(values.iter().any(|&v| v != 0));
    assert_eq!(negated, values.iter().map(|&v| -v).collect::<Vec<i16>>());
}

#[test]
fn only_the_place_of_a_face_counts_for_sharpness() {
    let img = photo(20, 16);
    let plain = face_at(3.0, 2.0, 9.0, 8.0);
    let mut other = plain.clone();
    other.confidence = single(0.1);
    other.landmarks = Some(vec![(single(1.0), single(2.0))]);
    let (room_x, room_y) = (single(17.0), single(14.0));
    assert_eq!(
        blur_laplacians(&img, &plain, room_x, room_y),
        blur_laplacians(&img, &other, room_x, room_y)
    );
}

#[test]
fn pivot_is_the_largest_entry() {
    let column = [single(1.0), single(-3.0), single(3.0)];
    assert_eq!(choose_pivot(&column, 0), Some(1));
    assert_eq!(choose_pivot(&column, 2), Some(2));
    assert_eq!(choose_pivot(&[single(0.0), single(1e-10), single(-1e-10)], 0), None);
    assert_eq!(choose_pivot(&[single(1e-9)], 0), Some(0));
    assert_eq!(choose_pivot(&[single(f32::NAN), single(5.0)], 0), Some(0));
}

#[test]
fn alignment_needs_points_and_a_transform() {
    assert!(can_align(5, Some(single(1.0))));
    assert!(can_align(6, Some(single(-1.0))));
    assert!(!can_align(4, Some(single(1.0))));
    assert!(!can_align(5, Some(single(1e-6))));
    assert!(!can_align(5, Some(single(-1e-7))));
    assert!(!can_align(5, Some(single(f32::NAN))));
    assert!(!can_align(5, None));
}

#[test]
fn taps_are_the_four_pixels_around() {
    let grid = photo_pixels(&photo(4, 3)).unwrap();
    let rgb = photo(4, 3).to_rgb8();
    let colour = |x: u32, y: u32| {
        let p = rgb.get_pixel(x, y).0;
        (p[0], p[1], p[2])
    };
    let places = vec![
        (single(1.7), single(0.2)),
        (single(-4.0), single(-0.5)),
        (single(3.0), single(0.0)),
        (single(0.0), single(2.0)),
        (single(f32::NAN), single(1.0)),
        (single(f32::INFINITY), single(1.0)),
    ];
    let taps = gather_taps(&grid, &places);
    let around = |x: u32, y: u32| {
        Some(Taps {
            top_left: colour(x, y),
            top_right: colour(x + 1, y),
            bottom_left: colour(x, y + 1),
            bottom_right: colour(x + 1, y + 1),
        })
    };
    assert_eq!(
        taps,
        vec![around(1, 0), around(0, 0), None, None, around(0, 1), None]
    );
}

#[test]
fn paints_blends_and_black() {
    let mut blends = vec![None; 112 * 112];
    blends[0] = Some((single(10.5), single(254.6), single(300.0)));
    blends[113] = Some((single(-3.0), single(0.4), single(f32::NAN)));
    let face = paint_face(&blends);
    assert_eq!((face.width, face.height), (112, 112));
    assert_eq!(face.samples.len(), 3 * 112 * 112);
    assert_eq!(&face.samples[0..3], &[11, 255, 255]);
    assert_eq!(&face.samples[3..6], &[0, 0, 0]);
    assert_eq!(&face.samples[339..342], &[0, 0, 0]);
}

#[test]
fn middle_face_is_the_middle_square() {
    let img = clear_photo(60, 41);
    let face = middle_face(&img);
    let expected = img.crop_imm(9, 0, 41, 41).resize_exact(112, 112, FilterType::Triangle);
    assert_eq!(face.samples, expected.to_rgb8().into_raw());
    let tall = photo(10, 17);
    let expected = tall.crop_imm(0, 3, 10, 10).resize_exact(112, 112, FilterType::Triangle);
    assert_eq!(middle_face(&tall).samples, expected.to_rgb8().into_raw());
}

#[test]
fn view_is_painted_or_the_middle() {
    let img = clear_photo(60, 41);
    let blends = vec![Some((single(1.0), single(2.0), single(3.0))); 112 * 112];
    let painted = paint_face(&blends).samples;
    let middle = middle_face(&img).samples;
    assert_ne!(painted, middle);
    let view = |count: usize, determinant: Option<Single>| {
        let view = face_view(&img, count, determinant, &blends).unwrap();
        assert_eq!((view.width, view.height), (112, 112));
        view.samples
    };
    assert_eq!(view(5, Some(single(0.5))), painted);
    assert_eq!(view(4, Some(single(0.5))), middle);
    assert_eq!(view(5, Some(single(1e-7))), middle);
    assert_eq!(view(5, None), middle);
    // Where no blends are called for there need be none.
    assert_eq!(face_view(&img, 0, None, &Vec::new()).unwrap().samples, middle);
}

#[test]
fn embedding_input_has_red_green_blue_planes() {
    let face = middle_face(&photo(120, 112));
    let tensor = embedding_input(&face);
    assert_eq!(tensor.len(), 3 * 112 * 112);
    for (i, pixel) in face.samples.chunks(3).enumerate() {
        for plane in 0..3 {
            assert_eq!(tensor[plane * 112 * 112 + i], 2 * pixel[plane] as i16 - 255);
        }
    }
}

#[test]
fn norms_are_checked() {
    assert_eq!(check_norm(single(1.0)), Ok(()));
    assert_eq!(check_norm(single(f32::EPSILON * 1.01)), Ok(()));
    for norm in [0.0, f32::EPSILON, -1.0, f32::INFINITY, f32::NAN] {
        assert_eq!(check_norm(single(norm)), Err("Invalid face embedding norm".to_string()));
    }
}

#[test]
fn constants_are_the_numbers_they_stand_for() {
    assert_eq!(face_index::detection::MIN_SCORE_BITS, 0.6f32.to_bits());
    assert_eq!(face_index::suppression::OVERLAP_LIMIT_BITS, 0.4f32.to_bits());
    assert_eq!(face_index::align::MIN_PIVOT_BITS, 1e-9f32.to_bits());
    assert_eq!(face_index::align::MIN_DETERMINANT_BITS, 1e-6f32.to_bits());
    assert_eq!(face_index::embedding::EPSILON_BITS, f32::EPSILON.to_bits());
    assert_eq!(face_index::indexing::DEFAULT_EPSILON_BITS, 0.42f32.to_bits());
}

#[test]
fn laplacians_of_inner_pixels() {
    let grid = GrayPixels { width: 4, height: 3, samples: vec![1, 2, 3, 4, 5, 60, 7, 8, 9, 10, 11, 12] };
    assert_eq!(laplacians(&grid), vec![2 + 10 + 5 + 7 - 240, 3 + 11 + 60 + 8 - 28]);
    let extreme = GrayPixels { width: 3, height: 3, samples: vec![0, 0, 0, 0, 255, 0, 0, 0, 0] };
    assert_eq!(laplacians(&extreme), vec![-1020]);
    let thin = GrayPixels { width: 1, height: 2, samples: vec![3, 4] };
    assert_eq!(laplacians(&thin), vec![]);
    for height in [1, 2] {
        let empty = GrayPixels { width: 0, height, samples: vec![] };
        assert_eq!(laplacians(&empty), vec![]);
    }
}

#[test]
fn flat_patches_have_no_edges() {
    let grid = GrayPixels { width: 5, height: 4, samples: vec![77; 20] };
    assert_eq!(laplacians(&grid), vec![0; 6]);
}

#[test]
fn brightness_does_not_count() {
    let dark: Vec<u8> = (0..20).map(|i| (i * i % 90) as u8).collect();
    let bright: Vec<u8> = dark.iter().map(|v| v + 100).collect();
    let dark = GrayPixels { width: 5, height: 4, samples: dark };
    let bright = GrayPixels { width: 5, height: 4, samples: bright };
    assert_eq!(laplacians(&dark), laplacians(&bright));
}

#[test]
fn blur_looks_at_the_part_of_the_face() {
    let img = clear_photo(30, 20);
    let face = face_at(4.7, 2.2, 6.9, 5.5);
    let values = blur_laplacians(&img, &face, single(30.0 - 4.7), single(20.0 - 2.2)).unwrap();
    let crop: GrayImage = img.crop_imm(4, 2, 6, 5).to_luma8();
    let mut expected = Vec::new();
    for y in 1..4 {
        for x in 1..5 {
            let p = |x: u32, y: u32| crop.get_pixel(x, y).0[0] as i16;
            expected.push(p(x, y - 1) + p(x, y + 1) + p(x - 1, y) + p(x + 1, y) - 4 * p(x, y));
        }
    }
    assert_eq!(values, expected);
}

#[test]
fn blur_of_small_parts_tells_nothing() {
    let img = photo(30, 20);
    assert_eq!(blur_laplacians(&img, &face_at(1.0, 1.0, 2.9, 9.0), single(29.0), single(19.0)), None);
    assert_eq!(blur_laplacians(&img, &face_at(1.0, 1.0, 3.0, 3.0), single(29.0), single(19.0)), None);
    assert!(blur_laplacians(&img, &face_at(1.0, 1.0, 4.0, 3.0), single(29.0), single(19.0)).is_some());
    // The room to the edge of the photo cuts the part.
    assert_eq!(blur_laplacians(&img, &face_at(28.0, 1.0, 9.0, 9.0), single(2.0), single(19.0)), None);
    assert_eq!(
        checked_blur_laplacians(&img, &face_at(40.0, 1.0, 9.0, 9.0), single(9.0), single(9.0)),
        None
    );
    assert_eq!(
        checked_blur_laplacians(&img, &face_at(40.0, 1.0, 9.0, 9.0), single(-10.0), single(9.0)),
        Some(None)
    );
}

#[test]
fn blur_of_parts_without_columns() {
    let nowhere = face_at(f32::NAN, f32::NAN, 9.0, 9.0);
    let room = single(f32::NAN);
    let score = |width: u32, height: u32| {
        let img = DynamicImage::ImageRgb8(RgbImage::new(width, height));
        checked_blur_laplacians(&img, &nowhere, room, room)
    };
    assert_eq!(score(0, 1), Some(None));
    assert_eq!(score(0, 2), Some(None));
    assert_eq!(score(0, 3), None);
    assert_eq!(score(0, 0), None);
    assert_eq!(score(3, 0), None);
    assert_eq!(score(1, 3), Some(None));
}

#[test]
fn grey_photos_have_grey_patches() {
    let mut gray = GrayImage::new(5, 5);
    gray.put_pixel(2, 2, Luma([200]));
    let img = DynamicImage::ImageLuma8(gray);
    let values = blur_laplacians(&img, &face_at(-3.0, 0.0, 50.0, 50.0), single(8.0), single(5.0));
    assert_eq!(values, Some(vec![0, 200, 0, 200, -800, 200, 0, 200, 0]));
}
