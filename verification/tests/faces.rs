use face_index::blur::checked_blur_laplacians;
use face_index::face::FaceBox;
use face_index::quality::{attach_embeddings, keep_good, needs_score, wants_more, Demands};
use face_index::select::pick;
use face_index::single::Single;
use face_index::suppression::{intersection, nms, rank, Edges, OVERLAP_LIMIT_BITS};
use image::{DynamicImage, GrayImage, Luma};

fn single(x: f32) -> Single {
    Single::from_bits(x.to_bits())
}

fn number(x: Single) -> f32 {
    f32::from_bits(x.bits)
}

fn face(x: f32, y: f32, side: f32, confidence: f32) -> FaceBox {
    FaceBox {
        x: single(x),
        y: single(y),
        width: single(side),
        height: single(side),
        confidence: single(confidence),
        landmarks: None,
    }
}

fn edges(face: &FaceBox) -> Edges {
    Edges {
        left: face.x,
        top: face.y,
        right: single(number(face.x) + number(face.width)),
        bottom: single(number(face.y) + number(face.height)),
    }
}

fn iou(a: &FaceBox, b: &FaceBox) -> Single {
    match intersection(&edges(a), &edges(b)) {
        None => single(0.0),
        Some(part) => {
            let shared = (number(part.right) - number(part.left))
                * (number(part.bottom) - number(part.top));
            let a_area = number(a.width) * number(a.height);
            let b_area = number(b.width) * number(b.height);
            single(shared / (a_area + b_area - shared))
        }
    }
}

fn overlaps(faces: &[FaceBox]) -> Vec<Vec<Single>> {
    faces.iter().map(|a| faces.iter().map(|b| iou(a, b)).collect()).collect()
}

/// Demands that every face meets.
fn nothing_asked() -> Demands {
    Demands {
        min_confidence: single(0.0),
        min_face_ratio: single(0.0),
        min_face_size: single(0.0),
        min_blur_score: single(0.0),
    }
}

/// As many equal area ratios and missing blur scores as there are faces.
fn unmeasured(faces: &[FaceBox]) -> (Vec<Single>, Vec<Option<Single>>) {
    (vec![single(0.5); faces.len()], vec![None; faces.len()])
}

fn confidences(faces: &[FaceBox]) -> Vec<f32> {
    faces.iter().map(|face| number(face.confidence)).collect()
}

#[test]
fn boxes_share_a_part_or_none() {
    let a = face(0.0, 0.0, 10.0, 0.5);
    let b = face(4.0, 6.0, 10.0, 0.5);
    let part = intersection(&edges(&a), &edges(&b)).unwrap();
    assert_eq!(
        part,
        Edges { left: single(4.0), top: single(6.0), right: single(10.0), bottom: single(10.0) }
    );
    assert_eq!(intersection(&edges(&b), &edges(&a)), Some(part));
    assert_eq!(intersection(&edges(&a), &edges(&a)), Some(edges(&a)));
    assert_eq!(intersection(&edges(&a), &edges(&face(10.0, 0.0, 5.0, 0.5))), None);
    assert_eq!(intersection(&edges(&a), &edges(&face(0.0, 30.0, 5.0, 0.5))), None);
}

#[test]
fn ranks_by_falling_key_and_keeps_equals_in_order() {
    assert_eq!(rank(&vec![3, 9, 3, 12, 9]), vec![3, 1, 4, 0, 2]);
    assert_eq!(rank(&vec![]), Vec::<usize>::new());
}

#[test]
fn picks_in_the_order_given() {
    let letters = vec!["a", "b", "c", "d"];
    assert_eq!(pick(letters, &vec![3, 0, 2]), vec!["d", "a", "c"]);
}

#[test]
fn surest_of_overlapping_boxes_is_kept() {
    let faces = vec![
        face(0.0, 0.0, 10.0, 0.7),
        face(50.0, 50.0, 10.0, 0.8),
        face(1.0, 1.0, 10.0, 0.9),
        face(51.0, 50.0, 10.0, 0.75),
        face(8.0, 8.0, 10.0, 0.65),
    ];
    let matrix = overlaps(&faces);
    let kept = nms(faces, &matrix, Single::from_bits(OVERLAP_LIMIT_BITS));
    assert_eq!(confidences(&kept), vec![0.9, 0.8, 0.65]);
}

#[test]
fn a_dropped_box_drops_nothing() {
    // The second lies over the first, the third over the second only.
    let faces = vec![
        face(0.0, 0.0, 10.0, 0.9),
        face(4.0, 0.0, 10.0, 0.8),
        face(8.0, 0.0, 10.0, 0.7),
    ];
    let matrix = overlaps(&faces);
    let kept = nms(faces, &matrix, Single::from_bits(OVERLAP_LIMIT_BITS));
    assert_eq!(confidences(&kept), vec![0.9, 0.7]);
}

#[test]
fn suppression_settles() {
    let faces = vec![
        face(0.0, 0.0, 10.0, 0.7),
        face(1.0, 1.0, 10.0, 0.9),
        face(30.0, 1.0, 10.0, 0.9),
        face(30.0, 2.0, 10.0, 0.9),
    ];
    let matrix = overlaps(&faces);
    let limit = Single::from_bits(OVERLAP_LIMIT_BITS);
    let once = nms(faces, &matrix, limit);
    let corners: Vec<Single> = once.iter().map(|face| face.x).collect();
    assert_eq!(corners, vec![single(1.0), single(30.0)]);
    assert_eq!(once[1].y, single(1.0));
    let matrix = overlaps(&once);
    let twice = nms(once, &matrix, limit);
    let again: Vec<Single> = twice.iter().map(|face| face.x).collect();
    assert_eq!(again, corners);
}

#[test]
fn input_order_does_not_count() {
    let faces = vec![
        face(0.0, 0.0, 10.0, 0.7),
        face(50.0, 50.0, 10.0, 0.8),
        face(1.0, 1.0, 10.0, 0.9),
        face(51.0, 50.0, 10.0, 0.75),
        face(8.0, 8.0, 10.0, 0.65),
    ];
    let limit = Single::from_bits(OVERLAP_LIMIT_BITS);
    for from in [[0, 1, 2, 3, 4], [4, 3, 2, 1, 0], [2, 0, 4, 1, 3]] {
        let moved: Vec<FaceBox> = from.iter().map(|&i: &usize| faces[i].clone()).collect();
        let matrix = overlaps(&moved);
        let kept = nms(moved, &matrix, limit);
        assert_eq!(confidences(&kept), vec![0.9, 0.8, 0.65]);
    }
}

#[test]
fn numbers_that_are_none_come_first() {
    let faces = vec![face(0.0, 0.0, 1.0, 1.0), face(5.0, 5.0, 1.0, f32::NAN)];
    let matrix = overlaps(&faces);
    let kept = nms(faces, &matrix, Single::from_bits(OVERLAP_LIMIT_BITS));
    assert!(number(kept[0].confidence).is_nan());
    assert_eq!(kept.len(), 2);
}

#[test]
fn unsure_faces_are_dropped() {
    let faces = vec![
        face(0.0, 0.0, 1.0, 0.5),
        face(1.0, 0.0, 1.0, 0.7),
        face(2.0, 0.0, 1.0, 0.69),
        face(3.0, 0.0, 1.0, 0.71),
    ];
    let (ratios, scores) = unmeasured(&faces);
    let demands = Demands { min_confidence: single(0.7), ..nothing_asked() };
    let kept = keep_good(faces, &ratios, &scores, &demands);
    assert_eq!(confidences(&kept), vec![0.7, 0.71]);
}

#[test]
fn blurry_faces_are_dropped() {
    let faces = vec![
        face(0.0, 0.0, 1.0, 0.9),
        face(1.0, 0.0, 1.0, 0.8),
        face(2.0, 0.0, 1.0, 0.7),
        face(3.0, 0.0, 1.0, 0.6),
    ];
    let scores = vec![Some(single(5.0)), Some(single(50.0)), Some(single(f32::NAN)), None];
    let (ratios, _) = unmeasured(&faces);
    let demands = Demands { min_blur_score: single(10.0), ..nothing_asked() };
    let kept = keep_good(faces.clone(), &ratios, &scores, &demands);
    assert_eq!(confidences(&kept), vec![0.8, 0.7]);
    // A face without a score counts as 0.
    let kept = keep_good(faces, &ratios, &scores, &nothing_asked());
    assert_eq!(confidences(&kept), vec![0.9, 0.8, 0.7, 0.6]);
}

#[test]
fn small_faces_are_dropped() {
    let mut wide = face(0.0, 0.0, 20.0, 0.9);
    wide.height = single(19.9);
    let mut tall = face(0.0, 0.0, 20.0, 0.8);
    tall.width = single(19.9);
    let faces = vec![
        wide,
        face(1.0, 0.0, 20.0, 0.7),
        tall,
        face(2.0, 0.0, f32::NAN, 0.6),
        face(3.0, 0.0, 300.0, 0.5),
    ];
    let (ratios, scores) = unmeasured(&faces);
    let demands = Demands { min_face_size: single(20.0), ..nothing_asked() };
    let kept = keep_good(faces, &ratios, &scores, &demands);
    assert_eq!(confidences(&kept), vec![0.7, 0.6, 0.5]);
}

#[test]
fn faces_in_the_background_are_dropped() {
    let faces =
        vec![face(0.0, 0.0, 1.0, 0.9), face(1.0, 0.0, 2.0, 0.8), face(2.0, 0.0, 3.0, 0.7)];
    let ratios = vec![single(0.01), single(0.0099), single(0.5)];
    let (_, scores) = unmeasured(&faces);
    let demands = Demands { min_face_ratio: single(0.01), ..nothing_asked() };
    let kept = keep_good(faces, &ratios, &scores, &demands);
    assert_eq!(confidences(&kept), vec![0.9, 0.7]);
}

#[test]
fn only_good_faces_are_left() {
    let faces = vec![
        face(0.0, 0.0, 60.0, 0.4),
        face(1.0, 0.0, 60.0, 0.9),
        face(2.0, 0.0, 40.0, 0.8),
        face(3.0, 0.0, 70.0, 0.7),
        face(4.0, 0.0, 80.0, 0.6),
    ];
    // The column stands in for the share of the area and for the blur score.
    let ratios: Vec<Single> = faces.iter().map(|face| face.x).collect();
    let scores: Vec<Option<Single>> = faces.iter().map(|face| Some(face.x)).collect();
    let demands = Demands {
        min_confidence: single(0.5),
        min_face_ratio: single(2.0),
        min_face_size: single(50.0),
        min_blur_score: single(3.5),
    };
    let needed: Vec<bool> = faces
        .iter()
        .zip(&ratios)
        .map(|(face, &ratio)| needs_score(face, ratio, &demands))
        .collect();
    assert_eq!(needed, vec![false, false, false, true, true]);
    let kept = keep_good(faces.clone(), &ratios, &scores, &demands);
    assert_eq!(confidences(&kept), vec![0.6]);
    // Scores that need not be measured do not count.
    let few: Vec<Option<Single>> = scores
        .iter()
        .zip(&needed)
        .map(|(&score, &needed)| if needed { score } else { None })
        .collect();
    assert_ne!(few, scores);
    assert_eq!(confidences(&keep_good(faces, &ratios, &few, &demands)), vec![0.6]);
}

#[test]
fn only_sure_and_sharp_faces_are_left() {
    let faces = vec![
        face(0.0, 0.0, 20.0, 0.9),
        face(1.0, 0.0, 60.0, 0.3),
        face(2.0, 0.0, 60.0, 0.8),
        face(3.0, 0.0, 10.0, 0.2),
        face(4.0, 0.0, 50.0, 0.5),
    ];
    // The width stands in for the blur score.
    let (ratios, _) = unmeasured(&faces);
    let scores = faces.iter().map(|face| Some(face.width)).collect();
    let demands = Demands {
        min_confidence: single(0.5),
        min_blur_score: single(50.0),
        ..nothing_asked()
    };
    let kept = keep_good(faces, &ratios, &scores, &demands);
    assert_eq!(confidences(&kept), vec![0.8, 0.5]);
}

#[test]
fn tiny_faces_are_dropped() {
    let faces = vec![face(4.0, 4.0, 2.9, 0.9), face(1.0, 1.0, 6.0, 0.8)];
    let img = DynamicImage::ImageLuma8(GrayImage::from_fn(9, 9, |x, y| Luma([(x * y * 3) as u8])));
    let scores: Vec<Option<Single>> = faces
        .iter()
        .map(|face| {
            let room_x = single(9.0 - number(face.x));
            let room_y = single(9.0 - number(face.y));
            let values = checked_blur_laplacians(&img, face, room_x, room_y).unwrap();
            values.map(|values| single(values.len() as f32))
        })
        .collect();
    assert_eq!(scores, vec![None, Some(single(16.0))]);
    let (ratios, _) = unmeasured(&faces);
    let demands = Demands { min_blur_score: single(0.5), ..nothing_asked() };
    let kept = keep_good(faces, &ratios, &scores, &demands);
    assert_eq!(confidences(&kept), vec![0.8]);
}

#[test]
fn faces_get_their_embeddings() {
    let faces = vec![face(0.0, 0.0, 1.0, 0.9), face(1.0, 0.0, 1.0, 0.8)];
    let embeddings = vec![Ok(vec![single(1.0)]), Ok(vec![single(2.0)])];
    let (data, size) = match attach_embeddings(faces, embeddings, (30, 20)) {
        Ok(outcome) => outcome,
        Err(message) => panic!("{message}"),
    };
    assert_eq!(size, (30, 20));
    assert_eq!(data.len(), 2);
    assert_eq!(data[0].bbox.x, single(0.0));
    assert_eq!(data[0].embedding, vec![single(1.0)]);
    assert_eq!(data[1].bbox.x, single(1.0));
    assert_eq!(data[1].embedding, vec![single(2.0)]);
}

#[test]
fn embeddings_are_taken_until_one_fails() {
    let faces = vec![face(0.0, 0.0, 1.0, 0.9), face(1.0, 0.0, 1.0, 0.8)];
    let good = || Ok(vec![single(1.0)]);
    let bad = || Err("bad norm".to_string());
    assert!(!wants_more(&Vec::new(), &Vec::new()));
    assert!(wants_more(&faces, &Vec::new()));
    assert!(wants_more(&faces, &vec![good()]));
    assert!(!wants_more(&faces, &vec![bad()]));
    assert!(!wants_more(&faces, &vec![good(), good()]));
    assert!(!wants_more(&faces, &vec![good(), bad()]));
}

#[test]
fn first_failure_fails_the_photo() {
    let faces = vec![
        face(0.0, 0.0, 1.0, 0.9),
        face(1.0, 0.0, 1.0, 0.8),
        face(2.0, 0.0, 1.0, 0.8),
    ];
    let embeddings = vec![Ok(vec![single(1.0)]), Err("bad norm".to_string())];
    match attach_embeddings(faces, embeddings, (30, 20)) {
        Ok(_) => panic!("a failure was expected"),
        Err(message) => assert_eq!(message, "bad norm"),
    }
}
