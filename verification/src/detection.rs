//! Finding faces: what the detection network is fed, and how its outputs are read.
use crate::picture::{
    height_of, image_format, image_height, image_pixels, image_width, is_resizable, resampled_pixels,
    resizable, resize_exact, rgb8_samples, rgb_pixels, width_of, RgbPixels,
};
use crate::select::{law_selection_exact, selected};
use crate::single::Single;
use crate::tensor::{holds_planes, law_planes_show_the_picture, plane_tensor, PlaneOrder};
use image::DynamicImage;
use vstd::arithmetic::div_mod::{lemma_fundamental_div_mod, lemma_fundamental_div_mod_converse};
use vstd::prelude::*;

verus! {

/// The longer of two sides.
pub open spec fn longer(width: u32, height: u32) -> u32 {
    if width >= height {
        width
    } else {
        height
    }
}

/// The side of the square that an image is fitted into: its own longer side rounded up to a
/// multiple of 32, the coarsest stride of the network, and 640 for large images.
pub open spec fn side_for(width: u32, height: u32) -> int {
    if longer(width, height) < 640 {
        (longer(width, height) + 31) / 32 * 32
    } else {
        640
    }
}

/// The side of the square that an image is fitted into.
pub fn detection_side(width: u32, height: u32) -> (side: u32)
    ensures
        side == side_for(width, height),
{
    let max_dim = if width >= height {
        width
    } else {
        height
    };
    if max_dim < 640 {
        ((max_dim + 31) / 32) * 32
    } else {
        640
    }
}

/// The side of the square is a multiple of 32, at most 640, and the least multiple of 32 that the
/// image fits into where there is one of at most 640.
pub proof fn law_side_is_least(width: u32, height: u32, side: int)
    requires
        side % 32 == 0,
        longer(width, height) <= side,
    ensures
        side_for(width, height) % 32 == 0,
        side_for(width, height) <= 640,
        side_for(width, height) <= side,
        longer(width, height) <= 640 ==> longer(width, height) <= side_for(width, height),
{
}

/// The RGB samples of an image at the size that it takes in the square: its own pixels where it
/// has that size already, else a resampled copy.
pub open spec fn fitted_samples(img: DynamicImage, new_width: u32, new_height: u32) -> Seq<u8> {
    if new_width == image_width(img) && new_height == image_height(img) {
        rgb8_samples(image_pixels(img), image_format(img))
    } else {
        rgb8_samples(
            resampled_pixels(
                image_pixels(img),
                image_format(img),
                image_width(img),
                image_height(img),
                new_width,
                new_height,
            ),
            image_format(img),
        )
    }
}

/// Whether an image can be had at the size that it takes in the square: it has that size already,
/// or can be resized to it.
pub open spec fn fittable(img: DynamicImage, new_width: u32, new_height: u32) -> bool {
    ||| new_width == image_width(img) && new_height == image_height(img)
    ||| resizable(image_width(img), new_height)
}

/// The pixels of an image at the size that it takes in the square.
pub fn fit_image(img: &DynamicImage, new_width: u32, new_height: u32) -> (grid: RgbPixels)
    requires
        fittable(*img, new_width, new_height),
        new_width <= 640,
        new_height <= 640,
    ensures
        grid.wf(),
        grid.width == new_width,
        grid.height == new_height,
        grid.samples@ == fitted_samples(*img, new_width, new_height),
{
    proof {
        assert(new_width * new_height <= 640 * 640) by (nonlinear_arith)
            requires
                0 <= new_width <= 640,
                0 <= new_height <= 640,
        ;
    }
    if new_width == width_of(img) && new_height == height_of(img) {
        rgb_pixels(img)
    } else {
        let resized = resize_exact(img, new_width, new_height);
        rgb_pixels(&resized)
    }
}

/// The input of the detection network for an image fitted at `new_width` by `new_height`: blue,
/// green and red planes with the image in the top left corner and zeros beside it, in steps of
/// 1/256.
pub fn detection_input(img: &DynamicImage, new_width: u32, new_height: u32) -> (tensor: Vec<i16>)
    requires
        fittable(*img, new_width, new_height),
        new_width <= side_for(image_width(*img), image_height(*img)),
        new_height <= side_for(image_width(*img), image_height(*img)),
    ensures
        holds_planes(
            tensor@,
            fitted_samples(*img, new_width, new_height),
            new_width as int,
            new_height as int,
            side_for(image_width(*img), image_height(*img)),
            PlaneOrder::Bgr,
        ),
{
    let side = detection_side(width_of(img), height_of(img));
    let grid = fit_image(img, new_width, new_height);
    proof {
        assert(side * side <= 640 * 640) by (nonlinear_arith)
            requires
                0 <= side <= 640,
        ;
    }
    plane_tensor(&grid, side, PlaneOrder::Bgr)
}

/// The input of the detection network, if it can be made: `None` where the image is too large for
/// this machine, or does not fit into its square at the given size.
pub fn checked_detection_input(img: &DynamicImage, new_width: u32, new_height: u32) -> (tensor:
    Option<Vec<i16>>)
    ensures
        ({
            let side = side_for(image_width(*img), image_height(*img));
            &&& tensor is Some <==> fittable(*img, new_width, new_height) && new_width <= side
                && new_height <= side
            &&& tensor matches Some(planes) ==> holds_planes(
                planes@,
                fitted_samples(*img, new_width, new_height),
                new_width as int,
                new_height as int,
                side,
                PlaneOrder::Bgr,
            )
        }),
{
    let (width, height) = (width_of(img), height_of(img));
    let side = detection_side(width, height);
    let fits = (new_width == width && new_height == height) || is_resizable(width, new_height);
    if fits && new_width <= side && new_height <= side {
        Some(detection_input(img, new_width, new_height))
    } else {
        None
    }
}

/// A place in the input square from which the network measures a face.
#[derive(Clone, Copy, Debug, PartialEq, Eq, Structural)]
pub struct Anchor {
    pub cx: u64,
    pub cy: u64,
}

/// The anchor with number `index` where each cell of a feature map `feature_w` wide has
/// `per_cell` anchors: cells row by row, each at its top left corner.
pub open spec fn anchor_at(stride: u32, per_cell: int, feature_w: u32, index: int) -> Anchor {
    let cell = index / per_cell;
    Anchor {
        cx: ((cell % (feature_w as int)) * stride) as u64,
        cy: ((cell / (feature_w as int)) * stride) as u64,
    }
}

/// The anchors of a feature map, one for each of `min_sizes` in each cell.
pub fn generate_anchors(stride: u32, min_sizes: &[u32], feature_w: u32, feature_h: u32) -> (anchors:
    Vec<Anchor>)
    requires
        feature_w * feature_h <= u32::MAX,
        (feature_w * feature_h) * min_sizes@.len() <= u32::MAX,
    ensures
        anchors@.len() == (feature_w * feature_h) * min_sizes@.len(),
        forall|i: int|
            0 <= i < anchors@.len() ==> #[trigger] anchors@[i] == anchor_at(
                stride,
                min_sizes@.len() as int,
                feature_w,
                i,
            ),
{
    let mut anchors: Vec<Anchor> = Vec::new();
    let ghost n = min_sizes@.len() as int;
    let ghost w = feature_w as int;
    let mut y: u32 = 0;
    while y < feature_h
        invariant
            0 <= y <= feature_h,
            n == min_sizes@.len(),
            w == feature_w,
            anchors@.len() == (y * w) * n,
            forall|i: int|
                0 <= i < anchors@.len() ==> #[trigger] anchors@[i] == anchor_at(
                    stride,
                    n,
                    feature_w,
                    i,
                ),
        decreases feature_h - y,
    {
        let mut x: u32 = 0;
        assert(y * w + 0 == y * w);
        while x < feature_w
            invariant
                0 <= y < feature_h,
                0 <= x <= feature_w,
                n == min_sizes@.len(),
                w == feature_w,
                anchors@.len() == (y * w + x) * n,
                forall|i: int|
                    0 <= i < anchors@.len() ==> #[trigger] anchors@[i] == anchor_at(
                        stride,
                        n,
                        feature_w,
                        i,
                    ),
            decreases feature_w - x,
        {
            let ghost cell = y * w + x;
            let mut k: usize = 0;
            while k < min_sizes.len()
                invariant
                    0 <= y < feature_h,
                    0 <= x < feature_w,
                    0 <= k <= n,
                    n == min_sizes@.len(),
                    w == feature_w,
                    cell == y * w + x,
                    anchors@.len() == cell * n + k,
                    forall|i: int|
                        0 <= i < anchors@.len() ==> #[trigger] anchors@[i] == anchor_at(
                            stride,
                            n,
                            feature_w,
                            i,
                        ),
                decreases n - k,
            {
                proof {
                    assert(x * stride <= 0xFFFF_FFFF * 0xFFFF_FFFF) by (nonlinear_arith)
                        requires
                            0 <= x <= 0xFFFF_FFFF,
                            0 <= stride <= 0xFFFF_FFFF,
                    ;
                    assert(y * stride <= 0xFFFF_FFFF * 0xFFFF_FFFF) by (nonlinear_arith)
                        requires
                            0 <= y <= 0xFFFF_FFFF,
                            0 <= stride <= 0xFFFF_FFFF,
                    ;
                    assert(0 <= x * stride && 0 <= y * stride) by (nonlinear_arith)
                        requires
                            0 <= x,
                            0 <= y,
                            0 <= stride,
                    ;
                    lemma_fundamental_div_mod_converse(cell * n + k, n, cell, k as int);
                    lemma_fundamental_div_mod_converse(cell, w, y as int, x as int);
                }
                let cx = x as u64 * stride as u64;
                let cy = y as u64 * stride as u64;
                anchors.push(Anchor { cx, cy });
                k += 1;
            }
            assert((cell + 1) * n == cell * n + n) by (nonlinear_arith);
            x += 1;
        }
        assert((y + 1) * w == y * w + w) by (nonlinear_arith);
        y += 1;
    }
    assert(feature_h * w == w * feature_h) by (nonlinear_arith);
    anchors
}

/// The strides of the three levels of the network, finest first.
pub open spec fn stride_of(level: int) -> u32 {
    if level == 0 {
        8
    } else if level == 1 {
        16
    } else {
        32
    }
}

/// How many anchors a cell has on every level.
pub open spec fn anchors_per_cell() -> int {
    2
}

/// How many anchors a level has for an input square of `side`.
pub open spec fn anchor_count(level: int, side: u32) -> int {
    let feature = side as int / stride_of(level) as int;
    (feature * feature) * anchors_per_cell()
}

/// How many pixels of the input square lie from one cell of a level to the next.
pub fn level_stride(level: usize) -> (stride: u32)
    requires
        level < 3,
    ensures
        stride == stride_of(level as int),
{
    if level == 0 {
        8
    } else if level == 1 {
        16
    } else {
        32
    }
}

/// Which outputs of the network hold the scores, the boxes and the facial points of a level.
pub fn level_outputs(level: usize) -> (outputs: (usize, usize, usize))
    requires
        level < 3,
    ensures
        outputs == (level, (level + 3) as usize, (level + 6) as usize),
{
    (level, level + 3, level + 6)
}

/// The anchors of a level for an input square of `side`.
pub fn level_anchors(level: usize, side: u32) -> (anchors: Vec<Anchor>)
    requires
        level < 3,
        side <= 640,
    ensures
        anchors@.len() == anchor_count(level as int, side),
        anchors@.len() <= 12_800,
        forall|i: int|
            0 <= i < anchors@.len() ==> #[trigger] anchors@[i] == anchor_at(
                stride_of(level as int),
                anchors_per_cell(),
                side / stride_of(level as int),
                i,
            ),
{
    let stride = level_stride(level);
    let feature = side / stride;
    let min_sizes: [u32; 2] = if level == 0 {
        [16, 32]
    } else if level == 1 {
        [64, 128]
    } else {
        [256, 512]
    };
    proof {
        assert(feature * feature <= 80 * 80) by (nonlinear_arith)
            requires
                0 <= feature <= 80,
        ;
        assert(0 <= feature * feature) by (nonlinear_arith);
    }
    let min_sizes = min_sizes.as_slice();
    assert(min_sizes@.len() == anchors_per_cell());
    generate_anchors(stride, min_sizes, feature, feature)
}

/// The anchors of a level stand on its grid, inside the input square.
pub proof fn law_anchors_inside(level: int, side: u32, index: int)
    requires
        0 <= level < 3,
        side <= 640,
        0 <= index < anchor_count(level, side),
    ensures
        ({
            let anchor = anchor_at(
                stride_of(level),
                anchors_per_cell(),
                side / stride_of(level),
                index,
            );
            &&& anchor.cx < side
            &&& anchor.cy < side
            &&& anchor.cx % (stride_of(level) as u64) == 0
            &&& anchor.cy % (stride_of(level) as u64) == 0
        }),
{
    let stride = stride_of(level) as int;
    let feature = side as int / stride;
    let cell = index / 2;
    assert(feature > 0) by (nonlinear_arith)
        requires
            0 <= index < (feature * feature) * 2,
            feature >= 0,
    ;
    lemma_fundamental_div_mod(cell, feature);
    let (x, y) = (cell % feature, cell / feature);
    assert(0 <= y < feature) by (nonlinear_arith)
        requires
            cell == feature * y + x,
            0 <= x < feature,
            0 <= cell < feature * feature,
    ;
    assert(0 <= x * stride < side && 0 <= y * stride < side) by (nonlinear_arith)
        requires
            0 <= x < feature,
            0 <= y < feature,
            feature * stride <= side,
            stride > 0,
    ;
    vstd::arithmetic::div_mod::lemma_mod_multiples_basic(x, stride);
    vstd::arithmetic::div_mod::lemma_mod_multiples_basic(y, stride);
}

/// The bit pattern of 0.6, the score below which the network's guess is not a face.
pub const MIN_SCORE_BITS: u32 = 0x3F19_999A;

/// A guess of the network that is taken for a face: the anchor that it is measured from, and what
/// was measured, in strides.
pub struct Candidate {
    pub anchor: Anchor,
    pub score: Single,
    pub left: Single,
    pub top: Single,
    pub right: Single,
    pub bottom: Single,
    /// Five facial points, relative to the anchor.
    pub points: Vec<(Single, Single)>,
}

/// Whether the guess at anchor `index` is taken for a face. A score that is not a number is not
/// below the threshold.
pub open spec fn is_taken(scores: Seq<Single>, index: int) -> bool {
    !scores[index].lt(Single { bits: MIN_SCORE_BITS })
}

/// Those of the first `count` anchors whose guess is taken for a face, in order.
pub open spec fn taken(scores: Seq<Single>, count: int) -> Seq<int> {
    selected(|index: int| is_taken(scores, index), count)
}

/// Whether a candidate is what the outputs of the network say at anchor `index`.
pub open spec fn read_at(
    candidate: Candidate,
    index: int,
    anchor: Anchor,
    scores: Seq<Single>,
    boxes: Seq<Single>,
    points: Seq<Single>,
) -> bool {
    &&& candidate.anchor == anchor
    &&& candidate.score == scores[index]
    &&& candidate.left == boxes[4 * index]
    &&& candidate.top == boxes[4 * index + 1]
    &&& candidate.right == boxes[4 * index + 2]
    &&& candidate.bottom == boxes[4 * index + 3]
    &&& candidate.points@.len() == 5
    &&& forall|k: int|
        0 <= k < 5 ==> #[trigger] candidate.points@[k] == (
            points[10 * index + 2 * k],
            points[10 * index + 2 * k + 1],
        )
}

/// Whether the outputs of a level are long enough for what is read from them: a score for each
/// anchor, four distances and ten coordinates for each guess that is taken.
pub open spec fn outputs_suffice(
    count: int,
    scores: Seq<Single>,
    boxes: Seq<Single>,
    points: Seq<Single>,
) -> bool {
    &&& count <= scores.len()
    &&& forall|i: int|
        0 <= i < count && #[trigger] is_taken(scores, i) ==> 4 * i + 4 <= boxes.len() && 10 * i + 10
            <= points.len()
}

/// Tells whether the outputs of a level are long enough to be read.
pub fn check_outputs(
    level: usize,
    side: u32,
    scores: &[Single],
    boxes: &[Single],
    points: &[Single],
) -> (answer: bool)
    requires
        level < 3,
        side <= 640,
    ensures
        answer == outputs_suffice(anchor_count(level as int, side), scores@, boxes@, points@),
{
    let count = level_anchors(level, side).len();
    if count > scores.len() {
        return false;
    }
    let mut i: usize = 0;
    while i < count
        invariant
            0 <= i <= count <= scores@.len(),
            count <= 12_800,
            count == anchor_count(level as int, side),
            forall|j: int|
                0 <= j < i && #[trigger] is_taken(scores@, j) ==> 4 * j + 4 <= boxes@.len() && 10
                    * j + 10 <= points@.len(),
        decreases count - i,
    {
        if !scores[i].less_than(&Single::from_bits(MIN_SCORE_BITS)) {
            if 4 * i + 4 > boxes.len() || 10 * i + 10 > points.len() {
                assert(is_taken(scores@, i as int));
                return false;
            }
        }
        i += 1;
    }
    true
}

/// Reads the guesses of one level that are taken for faces, in the order of their anchors.
pub fn read_candidates(
    level: usize,
    side: u32,
    scores: &[Single],
    boxes: &[Single],
    points: &[Single],
) -> (candidates: Vec<Candidate>)
    requires
        level < 3,
        side <= 640,
        outputs_suffice(anchor_count(level as int, side), scores@, boxes@, points@),
    ensures
        candidates@.len() == taken(scores@, anchor_count(level as int, side)).len(),
        forall|c: int|
            0 <= c < candidates@.len() ==> read_at(
                #[trigger] candidates@[c],
                taken(scores@, anchor_count(level as int, side))[c],
                anchor_at(
                    stride_of(level as int),
                    anchors_per_cell(),
                    side / stride_of(level as int),
                    taken(scores@, anchor_count(level as int, side))[c],
                ),
                scores@,
                boxes@,
                points@,
            ),
{
    let anchors = level_anchors(level, side);
    let count = anchors.len();
    let ghost stride = stride_of(level as int);
    let ghost feature = side / stride_of(level as int);
    let mut candidates: Vec<Candidate> = Vec::new();
    let mut j: usize = 0;
    while j < count
        invariant
            0 <= j <= count,
            count == anchors@.len(),
            count <= 12_800,
            outputs_suffice(count as int, scores@, boxes@, points@),
            forall|i: int|
                0 <= i < count ==> #[trigger] anchors@[i] == anchor_at(
                    stride,
                    anchors_per_cell(),
                    feature,
                    i,
                ),
            candidates@.len() == taken(scores@, j as int).len(),
            forall|c: int|
                0 <= c < candidates@.len() ==> read_at(
                    #[trigger] candidates@[c],
                    taken(scores@, j as int)[c],
                    anchor_at(stride, anchors_per_cell(), feature, taken(scores@, j as int)[c]),
                    scores@,
                    boxes@,
                    points@,
                ),
        decreases count - j,
    {
        let score = scores[j];
        if !score.less_than(&Single::from_bits(MIN_SCORE_BITS)) {
            assert(is_taken(scores@, j as int));
            let mut face_points: Vec<(Single, Single)> = Vec::new();
            let mut k: usize = 0;
            while k < 5
                invariant
                    0 <= k <= 5,
                    j < 12_800,
                    10 * j + 10 <= points@.len(),
                    face_points@.len() == k,
                    forall|i: int|
                        0 <= i < k ==> #[trigger] face_points@[i] == (
                            points@[10 * j + 2 * i],
                            points@[10 * j + 2 * i + 1],
                        ),
                decreases 5 - k,
            {
                face_points.push((points[10 * j + 2 * k], points[10 * j + 2 * k + 1]));
                k += 1;
            }
            candidates.push(
                Candidate {
                    anchor: anchors[j],
                    score,
                    left: boxes[4 * j],
                    top: boxes[4 * j + 1],
                    right: boxes[4 * j + 2],
                    bottom: boxes[4 * j + 3],
                    points: face_points,
                },
            );
        }
        j += 1;
    }
    candidates
}

/// One output of the network: its numbers, or why they could not be had.
pub type Output = Result<Vec<Single>, String>;

/// How many outputs the network has: scores, boxes and facial points of each of the three levels.
pub const OUTPUT_COUNT: usize = 9;

/// The output that is looked at as number `turn`: scores, boxes and facial points of the finest
/// level, then those of the next one.
pub open spec fn output_at(turn: int) -> int {
    turn / 3 + 3 * (turn % 3)
}

/// Whether the outputs that are looked at before number `turn` could all be had.
pub open spec fn had_before(outputs: Seq<Output>, turn: int) -> bool {
    forall|t: int| 0 <= t < turn ==> (#[trigger] outputs[output_at(t)]) is Ok
}

/// Whether the output looked at as number `turn` is the first that could not be had.
pub open spec fn fails_first(outputs: Seq<Output>, turn: int) -> bool {
    had_before(outputs, turn) && outputs[output_at(turn)] is Err
}

/// The digits of the stride of a level.
pub open spec fn stride_digits(level: int) -> Seq<char> {
    if level == 0 {
        "8"@
    } else if level == 1 {
        "16"@
    } else {
        "32"@
    }
}

/// What an output of a level holds: scores, boxes, or facial points.
pub open spec fn output_noun(part: int) -> Seq<char> {
    if part == 0 {
        " scores"@
    } else if part == 1 {
        " boxes"@
    } else {
        " kps"@
    }
}

/// What is said where the output looked at as number `turn` could not be had.
pub open spec fn output_failure(turn: int, reason: Seq<char>) -> Seq<char> {
    "Failed stride "@ + stride_digits(turn / 3) + output_noun(turn % 3) + ": "@ + reason
}

/// The numbers of an output that could be had.
pub open spec fn numbers(outputs: Seq<Output>, index: int) -> Seq<Single> {
    outputs[index]->Ok_0@
}

/// Whether the outputs of each level that is come to are long enough for what is read from them. A
/// level is come to if its outputs and those of the levels before it could be had.
pub open spec fn levels_suffice(side: u32, outputs: Seq<Output>) -> bool {
    forall|level: int|
        0 <= level < 3 && had_before(outputs, 3 * level + 3) ==> #[trigger] outputs_suffice(
            anchor_count(level, side),
            numbers(outputs, level),
            numbers(outputs, level + 3),
            numbers(outputs, level + 6),
        )
}

/// How many guesses the levels before `level` have.
pub open spec fn guesses_before(side: u32, outputs: Seq<Output>, level: int) -> int
    decreases level,
{
    if level <= 0 {
        0
    } else {
        guesses_before(side, outputs, level - 1) + taken(
            numbers(outputs, level - 1),
            anchor_count(level - 1, side),
        ).len()
    }
}

/// Whether the guesses from number `start` on are those of a level that are taken for faces, in
/// the order of their anchors and each with the stride of the level.
pub open spec fn reads_level(
    found: Seq<(u32, Candidate)>,
    start: int,
    level: int,
    side: u32,
    outputs: Seq<Output>,
) -> bool {
    let places = taken(numbers(outputs, level), anchor_count(level, side));
    forall|k: int|
        start <= k < start + places.len() ==> (#[trigger] found[k]).0 == stride_of(level)
            && read_at(
            found[k].1,
            places[k - start],
            anchor_at(
                stride_of(level),
                anchors_per_cell(),
                side / stride_of(level),
                places[k - start],
            ),
            numbers(outputs, level),
            numbers(outputs, level + 3),
            numbers(outputs, level + 6),
        )
}

/// The message of an output of a level that could not be had.
fn explain_output(level: usize, part: usize, reason: &String) -> (message: String)
    requires
        level < 3,
        part < 3,
    ensures
        message@ == output_failure(3 * level + part, reason@),
{
    let mut message = String::from_str("Failed stride ");
    if level == 0 {
        message.append("8");
    } else if level == 1 {
        message.append("16");
    } else {
        message.append("32");
    }
    if part == 0 {
        message.append(" scores");
    } else if part == 1 {
        message.append(" boxes");
    } else {
        message.append(" kps");
    }
    message.append(": ");
    message.append(reason.as_str());
    message
}

/// The three outputs of a level, or the message of the first of them that could not be had.
fn level_numbers(level: usize, outputs: &Vec<Output>) -> (numbers_of: Result<
    (&Vec<Single>, &Vec<Single>, &Vec<Single>),
    String,
>)
    requires
        level < 3,
        outputs@.len() == OUTPUT_COUNT,
        had_before(outputs@, 3 * level as int),
    ensures
        match numbers_of {
            Ok(parts) => had_before(outputs@, 3 * level + 3) && parts.0@ == numbers(
                outputs@,
                level as int,
            ) && parts.1@ == numbers(outputs@, level + 3) && parts.2@ == numbers(
                outputs@,
                level + 6,
            ),
            Err(message) => exists|turn: int|
                3 * level <= turn < 3 * level + 3 && #[trigger] fails_first(outputs@, turn)
                    && message@ == output_failure(turn, outputs@[output_at(turn)]->Err_0@),
        },
{
    let (score_at, box_at, point_at) = level_outputs(level);
    assert(output_at(3 * level as int) == score_at);
    assert(output_at(3 * level + 1) == box_at);
    assert(output_at(3 * level + 2) == point_at);
    let scores = match &outputs[score_at] {
        Ok(scores) => scores,
        Err(reason) => {
            assert(fails_first(outputs@, 3 * level as int));
            return Err(explain_output(level, 0, reason));
        },
    };
    assert(had_before(outputs@, 3 * level + 1)) by {
        lemma_had_next(outputs@, 3 * level as int);
    }
    let boxes = match &outputs[box_at] {
        Ok(boxes) => boxes,
        Err(reason) => {
            assert(fails_first(outputs@, 3 * level + 1));
            return Err(explain_output(level, 1, reason));
        },
    };
    assert(had_before(outputs@, 3 * level + 2)) by {
        lemma_had_next(outputs@, 3 * level + 1);
    }
    let points = match &outputs[point_at] {
        Ok(points) => points,
        Err(reason) => {
            assert(fails_first(outputs@, 3 * level + 2));
            return Err(explain_output(level, 2, reason));
        },
    };
    assert(had_before(outputs@, 3 * level + 3)) by {
        lemma_had_next(outputs@, 3 * level + 2);
    }
    Ok((scores, boxes, points))
}

proof fn lemma_had_next(outputs: Seq<Output>, turn: int)
    requires
        had_before(outputs, turn),
        outputs[output_at(turn)] is Ok,
    ensures
        had_before(outputs, turn + 1),
{
    assert forall|t: int| 0 <= t < turn + 1 implies (#[trigger] outputs[output_at(t)]) is Ok by {
        if t < turn {
            assert(outputs[output_at(t)] is Ok);
        }
    }
}

/// Tells whether the outputs of each level that is come to are long enough to be read.
pub fn check_levels(side: u32, outputs: &Vec<Output>) -> (answer: bool)
    requires
        side <= 640,
        outputs@.len() == OUTPUT_COUNT,
    ensures
        answer == levels_suffice(side, outputs@),
{
    let mut level: usize = 0;
    while level < 3
        invariant
            0 <= level <= 3,
            side <= 640,
            outputs@.len() == OUTPUT_COUNT,
            had_before(outputs@, 3 * level as int),
            forall|l: int|
                0 <= l < level ==> #[trigger] outputs_suffice(
                    anchor_count(l, side),
                    numbers(outputs@, l),
                    numbers(outputs@, l + 3),
                    numbers(outputs@, l + 6),
                ),
        decreases 3 - level,
    {
        match level_numbers(level, outputs) {
            Ok((scores, boxes, points)) => {
                if !check_outputs(
                    level,
                    side,
                    scores.as_slice(),
                    boxes.as_slice(),
                    points.as_slice(),
                ) {
                    assert(!outputs_suffice(
                        anchor_count(level as int, side),
                        numbers(outputs@, level as int),
                        numbers(outputs@, level + 3),
                        numbers(outputs@, level + 6),
                    ));
                    return false;
                }
            },
            Err(_) => {
                assert forall|l: int|
                    0 <= l < 3 && had_before(
                        outputs@,
                        3 * l + 3,
                    ) implies #[trigger] outputs_suffice(
                    anchor_count(l, side),
                    numbers(outputs@, l),
                    numbers(outputs@, l + 3),
                    numbers(outputs@, l + 6),
                ) by {
                    let turn = choose|turn: int|
                        3 * level <= turn < 3 * level + 3 && #[trigger] fails_first(
                            outputs@,
                            turn,
                        );
                    if l >= level {
                        assert(outputs@[output_at(turn)] is Ok);
                    }
                }
                return true;
            },
        }
        level += 1;
    }
    true
}

/// Adds the guesses of a level, each with the stride of the level.
fn join(found: &mut Vec<(u32, Candidate)>, stride: u32, guesses: Vec<Candidate>)
    ensures
        final(found)@ == old(found)@ + guesses@.map_values(|guess: Candidate| (stride, guess)),
{
    let ghost before = found@;
    let ghost all = guesses@;
    let mut rest = guesses;
    let mut turned: Vec<Candidate> = Vec::new();
    while rest.len() > 0
        invariant
            rest@.len() + turned@.len() == all.len(),
            rest@ == all.take(rest@.len() as int),
            forall|i: int|
                0 <= i < turned@.len() ==> #[trigger] turned@[i] == all[all.len() - 1 - i],
        decreases rest@.len(),
    {
        let guess = rest.pop();
        assert(rest@ =~= all.take(rest@.len() as int));
        turned.push(guess.unwrap());
    }
    while turned.len() > 0
        invariant
            turned@.len() <= all.len(),
            forall|i: int|
                0 <= i < turned@.len() ==> #[trigger] turned@[i] == all[all.len() - 1 - i],
            found@ == before + all.take(all.len() - turned@.len()).map_values(
                |guess: Candidate| (stride, guess),
            ),
        decreases turned@.len(),
    {
        let ghost done = all.len() - turned@.len();
        let guess = turned.pop();
        found.push((stride, guess.unwrap()));
        assert(found@ =~= before + all.take(done + 1).map_values(
            |guess: Candidate| (stride, guess),
        ));
    }
    assert(all.take(all.len() as int) =~= all);
}

/// Reads the guesses of all levels that are taken for faces, finest level first, each with the
/// stride of its level. Where an output could not be had, the first one looked at decides: scores,
/// boxes and facial points of one level come before those of the next.
pub fn read_levels(side: u32, outputs: Vec<Output>) -> (read: Result<Vec<(u32, Candidate)>, String>)
    requires
        side <= 640,
        outputs@.len() == OUTPUT_COUNT,
        levels_suffice(side, outputs@),
    ensures
        match read {
            Ok(found) => {
                &&& had_before(outputs@, 9)
                &&& found@.len() == guesses_before(side, outputs@, 3)
                &&& forall|level: int|
                    0 <= level < 3 ==> reads_level(
                        found@,
                        #[trigger] guesses_before(side, outputs@, level),
                        level,
                        side,
                        outputs@,
                    )
            },
            Err(message) => exists|turn: int|
                0 <= turn < 9 && #[trigger] fails_first(outputs@, turn) && message@
                    == output_failure(turn, outputs@[output_at(turn)]->Err_0@),
        },
{
    let mut found: Vec<(u32, Candidate)> = Vec::new();
    let mut level: usize = 0;
    #[verifier::loop_isolation(false)]
    while level < 3
        invariant
            0 <= level <= 3,
            had_before(outputs@, 3 * level as int),
            found@.len() == guesses_before(side, outputs@, level as int),
            forall|l: int|
                0 <= l < level ==> reads_level(
                    found@,
                    #[trigger] guesses_before(side, outputs@, l),
                    l,
                    side,
                    outputs@,
                ),
        decreases 3 - level,
    {
        let (scores, boxes, points) = match level_numbers(level, &outputs) {
            Ok(parts) => parts,
            Err(message) => {
                return Err(message);
            },
        };
        assert(outputs_suffice(
            anchor_count(level as int, side),
            numbers(outputs@, level as int),
            numbers(outputs@, level + 3),
            numbers(outputs@, level + 6),
        ));
        let guesses = read_candidates(
            level,
            side,
            scores.as_slice(),
            boxes.as_slice(),
            points.as_slice(),
        );
        let ghost before = found@;
        let ghost start = guesses_before(side, outputs@, level as int);
        let ghost read = guesses@;
        join(&mut found, level_stride(level), guesses);
        proof {
            assert forall|l: int| 0 <= l < level + 1 implies reads_level(
                found@,
                #[trigger] guesses_before(side, outputs@, l),
                l,
                side,
                outputs@,
            ) by {
                if l < level {
                    assert(reads_level(
                        before,
                        guesses_before(side, outputs@, l),
                        l,
                        side,
                        outputs@,
                    ));
                    lemma_guesses_grow(side, outputs@, l + 1, level as int);
                    lemma_guesses_grow(side, outputs@, 0, l);
                    let begin = guesses_before(side, outputs@, l);
                    let count = taken(numbers(outputs@, l), anchor_count(l, side)).len();
                    assert forall|k: int| begin <= k < begin + count implies #[trigger] found@[k]
                        == before[k] by {}
                } else {
                    let count = taken(numbers(outputs@, l), anchor_count(l, side)).len();
                    assert forall|k: int| start <= k < start + count implies #[trigger] found@[k]
                        == (stride_of(l), read[k - start]) by {}
                }
            }
        }
        level += 1;
    }
    Ok(found)
}

proof fn lemma_guesses_grow(side: u32, outputs: Seq<Output>, low: int, high: int)
    requires
        0 <= low <= high,
    ensures
        0 <= guesses_before(side, outputs, low) <= guesses_before(side, outputs, high),
    decreases high,
{
    if low < high {
        lemma_guesses_grow(side, outputs, low, high - 1);
    } else if high > 0 {
        lemma_guesses_grow(side, outputs, high - 1, high - 1);
    }
}

/// Only one output can be the first that could not be had, and where there is one, not all could
/// be had: what comes of reading the levels is decided by the outputs alone.
pub proof fn law_first_output_failure(outputs: Seq<Output>, one: int, other: int)
    requires
        0 <= one < 9,
        fails_first(outputs, one),
    ensures
        !had_before(outputs, 9),
        0 <= other < 9 && fails_first(outputs, other) ==> one == other,
{
    assert(outputs[output_at(one)] is Err);
    assert(outputs[output_at(other)] is Ok || outputs[output_at(other)] is Err);
}

/// The square that an image is fitted into: no larger than it has to be to hold the image and be a
/// multiple of 32 on a side where that is 640 at most, and 640 for all larger images.
pub proof fn law_square_holds_the_image(width: u32, height: u32)
    ensures
        side_for(width, height) % 32 == 0,
        0 <= side_for(width, height) <= 640,
        width <= 640 && height <= 640 ==> width <= side_for(width, height) && height <= side_for(
            width,
            height,
        ),
        width <= 640 && height <= 640 ==> side_for(width, height) < width + 32 || side_for(
            width,
            height,
        ) < height + 32,
        width >= 640 || height >= 640 ==> side_for(width, height) == 640,
{
}

/// The whole image is shown to the network: an image that is brought to another size, be it smaller
/// or larger, is resampled from all of its pixels, and one that has the size already stays as it is.
pub proof fn law_whole_image_shown(img: DynamicImage, new_width: u32, new_height: u32)
    ensures
        new_width != image_width(img) || new_height != image_height(img) ==> fitted_samples(
            img,
            new_width,
            new_height,
        ) == rgb8_samples(
            resampled_pixels(
                image_pixels(img),
                image_format(img),
                image_width(img),
                image_height(img),
                new_width,
                new_height,
            ),
            image_format(img),
        ),
        fitted_samples(img, image_width(img), image_height(img)) == rgb8_samples(
            image_pixels(img),
            image_format(img),
        ),
        fittable(img, image_width(img), image_height(img)),
        16 * (image_width(img) * new_height) <= isize::MAX ==> fittable(img, new_width, new_height),
{
}

/// What fitting shows is decided by what the image holds, and by nothing else: images with the same
/// size, format and pixels are shown alike.
pub proof fn law_same_image_shown_alike(
    one: DynamicImage,
    other: DynamicImage,
    new_width: u32,
    new_height: u32,
)
    requires
        image_width(one) == image_width(other),
        image_height(one) == image_height(other),
        image_format(one) == image_format(other),
        image_pixels(one) == image_pixels(other),
    ensures
        fitted_samples(one, new_width, new_height) == fitted_samples(other, new_width, new_height),
{
}

/// The input of the detection network shows the fitted image in the top left corner of its square:
/// its blue, green and red planes in this order, pixel by pixel, and 0 beside and below it.
pub proof fn law_image_shown_in_colour(
    tensor: Seq<i16>,
    img: DynamicImage,
    new_width: u32,
    new_height: u32,
    side: int,
    x: int,
    y: int,
)
    requires
        holds_planes(
            tensor,
            fitted_samples(img, new_width, new_height),
            new_width as int,
            new_height as int,
            side,
            PlaneOrder::Bgr,
        ),
        0 <= x < side,
        0 <= y < side,
    ensures
        ({
            let samples = fitted_samples(img, new_width, new_height);
            let place = y * side + x;
            let pixel = 3 * (y * new_width + x);
            if x < new_width && y < new_height {
                &&& tensor[place] == 2 * samples[pixel + 2] - 255
                &&& tensor[side * side + place] == 2 * samples[pixel + 1] - 255
                &&& tensor[2 * (side * side) + place] == 2 * samples[pixel] - 255
            } else {
                &&& tensor[place] == 0
                &&& tensor[side * side + place] == 0
                &&& tensor[2 * (side * side) + place] == 0
            }
        }),
{
    law_planes_show_the_picture(
        tensor,
        fitted_samples(img, new_width, new_height),
        new_width as int,
        new_height as int,
        side,
        PlaneOrder::Bgr,
        x,
        y,
    );
}

/// The anchors of a feature map stand at the top left corners of its cells: row by row, from the
/// left, and as many to a cell as there are sizes.
pub proof fn law_anchor_of_cell(stride: u32, per_cell: int, feature_w: u32, x: int, y: int, k: int)
    requires
        0 <= x < feature_w,
        0 <= y <= u32::MAX,
        0 <= k < per_cell,
    ensures
        anchor_at(stride, per_cell, feature_w, (y * feature_w + x) * per_cell + k).cx == x * stride,
        anchor_at(stride, per_cell, feature_w, (y * feature_w + x) * per_cell + k).cy == y * stride,
{
    let cell = y * feature_w + x;
    lemma_fundamental_div_mod_converse(cell * per_cell + k, per_cell, cell, k);
    lemma_fundamental_div_mod_converse(cell, feature_w as int, y, x);
    assert(0 <= x * stride <= 0xFFFF_FFFF * 0xFFFF_FFFF) by (nonlinear_arith)
        requires
            0 <= x <= 0xFFFF_FFFF,
            0 <= stride <= 0xFFFF_FFFF,
    ;
    assert(0 <= y * stride <= 0xFFFF_FFFF * 0xFFFF_FFFF) by (nonlinear_arith)
        requires
            0 <= y <= 0xFFFF_FFFF,
            0 <= stride <= 0xFFFF_FFFF,
    ;
}

/// The three levels look at cells of 8, 16 and 32 pixels, two anchors to a cell.
pub proof fn law_levels(side: u32)
    ensures
        stride_of(0) == 8 && stride_of(1) == 16 && stride_of(2) == 32,
        anchors_per_cell() == 2,
        anchor_count(0, side) == 2 * ((side / 8) * (side / 8)),
        anchor_count(1, side) == 2 * ((side / 16) * (side / 16)),
        anchor_count(2, side) == 2 * ((side / 32) * (side / 32)),
{
}

/// A guess is taken for a face exactly if its score is 0.6 or more, or is not a number.
pub proof fn law_guess_taken_by_score(scores: Seq<Single>, index: int)
    ensures
        is_taken(scores, index) <==> 0x3F19_999A <= scores[index].bits < 0x8000_0000
            || scores[index].bits > 0xFF80_0000,
{
}

/// What a guess says of the face at anchor `index` of a feature map with `feature` cells to a row:
/// where the anchor stands, how sure the network is, how far from it the box reaches to the left,
/// up, to the right and down, and where the five points are.
pub open spec fn is_guess_at(
    guess: Candidate,
    index: int,
    stride: int,
    feature: int,
    scores: Seq<Single>,
    boxes: Seq<Single>,
    points: Seq<Single>,
) -> bool {
    &&& guess.anchor.cx == ((index / 2) % feature) * stride
    &&& guess.anchor.cy == ((index / 2) / feature) * stride
    &&& guess.score == scores[index]
    &&& guess.left == boxes[4 * index]
    &&& guess.top == boxes[4 * index + 1]
    &&& guess.right == boxes[4 * index + 2]
    &&& guess.bottom == boxes[4 * index + 3]
    &&& guess.points@ == seq![
        (points[10 * index], points[10 * index + 1]),
        (points[10 * index + 2], points[10 * index + 3]),
        (points[10 * index + 4], points[10 * index + 5]),
        (points[10 * index + 6], points[10 * index + 7]),
        (points[10 * index + 8], points[10 * index + 9]),
    ]
}

/// What is read of a guess is what the outputs say at its anchor.
proof fn lemma_guess_read(
    guess: Candidate,
    index: int,
    level: int,
    side: u32,
    scores: Seq<Single>,
    boxes: Seq<Single>,
    points: Seq<Single>,
)
    requires
        0 <= level < 3,
        side <= 640,
        0 <= index < anchor_count(level, side),
        read_at(
            guess,
            index,
            anchor_at(stride_of(level), anchors_per_cell(), side / stride_of(level), index),
            scores,
            boxes,
            points,
        ),
    ensures
        is_guess_at(
            guess,
            index,
            stride_of(level) as int,
            side as int / stride_of(level) as int,
            scores,
            boxes,
            points,
        ),
{
    let stride = stride_of(level) as int;
    let feature = side as int / stride;
    let cell = index / 2;
    assert(feature > 0) by (nonlinear_arith)
        requires
            0 <= index < (feature * feature) * 2,
            feature >= 0,
    ;
    lemma_fundamental_div_mod(cell, feature);
    let (x, y) = (cell % feature, cell / feature);
    assert(0 <= y < feature) by (nonlinear_arith)
        requires
            cell == feature * y + x,
            0 <= x < feature,
            0 <= cell < feature * feature,
    ;
    assert(0 <= x * stride < side && 0 <= y * stride < side) by (nonlinear_arith)
        requires
            0 <= x < feature,
            0 <= y < feature,
            feature * stride <= side,
            stride > 0,
    ;
    assert(guess.points@ =~= seq![
        (points[10 * index], points[10 * index + 1]),
        (points[10 * index + 2], points[10 * index + 3]),
        (points[10 * index + 4], points[10 * index + 5]),
        (points[10 * index + 6], points[10 * index + 7]),
        (points[10 * index + 8], points[10 * index + 9]),
    ]);
}

/// The guesses read of a level are exactly those that are not scored below 0.6, each with what the
/// outputs say of it, in the order of their anchors: `from` names the anchor of each.
pub proof fn law_guesses_read_exactly(
    candidates: Seq<Candidate>,
    level: int,
    side: u32,
    scores: Seq<Single>,
    boxes: Seq<Single>,
    points: Seq<Single>,
    stride: int,
)
    requires
        0 <= level < 3,
        stride == (if level == 0 {
            8int
        } else if level == 1 {
            16int
        } else {
            32int
        }),
        side <= 640,
        candidates.len() == taken(scores, anchor_count(level, side)).len(),
        forall|c: int|
            0 <= c < candidates.len() ==> read_at(
                #[trigger] candidates[c],
                taken(scores, anchor_count(level, side))[c],
                anchor_at(
                    stride_of(level),
                    anchors_per_cell(),
                    side / stride_of(level),
                    taken(scores, anchor_count(level, side))[c],
                ),
                scores,
                boxes,
                points,
            ),
    ensures
        exists|from: Seq<int>|
            {
                &&& from.len() == candidates.len()
                &&& forall|c: int|
                    0 <= c < from.len() ==> 0 <= #[trigger] from[c] < 2 * ((side as int / stride) * (
                    side as int / stride)) && !scores[from[c]].lt(
                        Single { bits: 0x3F19_999A },
                    ) && is_guess_at(
                        candidates[c],
                        from[c],
                        stride,
                        side as int / stride,
                        scores,
                        boxes,
                        points,
                    )
                &&& forall|c: int, d: int|
                    0 <= c < d < from.len() ==> #[trigger] from[c] < #[trigger] from[d]
                &&& forall|i: int|
                    0 <= i < 2 * ((side as int / stride) * (side as int / stride))
                        && !(#[trigger] scores[i]).lt(Single { bits: 0x3F19_999A })
                        ==> from.contains(i)
            },
{
    let count = anchor_count(level, side);
    let feature = side as int / stride;
    assert(count == 2 * (feature * feature));
    assert(0 <= feature * feature) by (nonlinear_arith);
    let wanted = |index: int| is_taken(scores, index);
    law_selection_exact(wanted, count);
    let from = taken(scores, count);
    assert forall|c: int| 0 <= c < from.len() implies 0 <= #[trigger] from[c] < 2 * (feature
        * feature) && !scores[from[c]].lt(Single { bits: 0x3F19_999A }) && is_guess_at(
        candidates[c],
        from[c],
        stride,
        feature,
        scores,
        boxes,
        points,
    ) by {
        assert(wanted(from[c]));
        let guess = candidates[c];
        lemma_guess_read(guess, from[c], level, side, scores, boxes, points);
    }
    assert forall|i: int|
        0 <= i < 2 * (feature * feature) && !(#[trigger] scores[i]).lt(
            Single { bits: 0x3F19_999A },
        ) implies from.contains(i) by {
        assert(wanted(i));
    }
    assert(from.len() == candidates.len());
}

/// Reading all levels loses no face: each guess of each level that is not scored below 0.6 is among
/// what is found, with the stride of its level and what the three outputs of its level say of it.
pub proof fn law_no_guess_lost(
    found: Seq<(u32, Candidate)>,
    side: u32,
    outputs: Seq<Output>,
    level: int,
    stride: int,
    i: int,
)
    requires
        side <= 640,
        outputs.len() == 9,
        found.len() == guesses_before(side, outputs, 3),
        forall|level: int|
            0 <= level < 3 ==> reads_level(
                found,
                #[trigger] guesses_before(side, outputs, level),
                level,
                side,
                outputs,
            ),
        0 <= level < 3,
        stride == (if level == 0 {
            8int
        } else if level == 1 {
            16int
        } else {
            32int
        }),
        0 <= i < 2 * ((side as int / stride) * (side as int / stride)),
        !outputs[level]->Ok_0@[i].lt(Single { bits: 0x3F19_999A }),
    ensures
        exists|k: int|
            {
                &&& 0 <= k < found.len()
                &&& (#[trigger] found[k]).0 == stride
                &&& is_guess_at(
                    found[k].1,
                    i,
                    stride,
                    side as int / stride,
                    outputs[level]->Ok_0@,
                    outputs[level + 3]->Ok_0@,
                    outputs[level + 6]->Ok_0@,
                )
            },
{
    let scores = numbers(outputs, level);
    let count = anchor_count(level, side);
    let feature = side as int / stride;
    assert(count == 2 * (feature * feature));
    let wanted = |index: int| is_taken(scores, index);
    law_selection_exact(wanted, count);
    let places = taken(scores, count);
    assert(wanted(i));
    let c = choose|c: int| 0 <= c < places.len() && places[c] == i;
    let start = guesses_before(side, outputs, level);
    assert(reads_level(found, start, level, side, outputs));
    lemma_guesses_grow(side, outputs, 0, level);
    lemma_guesses_grow(side, outputs, level + 1, 3);
    let k = start + c;
    assert(found[k].0 == stride_of(level));
    assert(places[k - start] == i);
    lemma_guess_read(
        found[k].1,
        i,
        level,
        side,
        scores,
        numbers(outputs, level + 3),
        numbers(outputs, level + 6),
    );
}

/// Reading all levels makes up no face: what is found are guesses of the levels that are not scored
/// below 0.6, those of the finest level first and those of one level in the order of their anchors.
/// `from` names the level and the anchor of each.
pub proof fn law_no_guess_made_up(found: Seq<(u32, Candidate)>, side: u32, outputs: Seq<Output>)
    requires
        side <= 640,
        outputs.len() == 9,
        found.len() == guesses_before(side, outputs, 3),
        forall|level: int|
            0 <= level < 3 ==> reads_level(
                found,
                #[trigger] guesses_before(side, outputs, level),
                level,
                side,
                outputs,
            ),
    ensures
        exists|from: Seq<(int, int)>|
            {
                &&& from.len() == found.len()
                &&& forall|k: int|
                    0 <= k < from.len() ==> {
                        let (level, i) = #[trigger] from[k];
                        let stride = found[k].0 as int;
                        &&& 0 <= level < 3
                        &&& level == 0 ==> stride == 8
                        &&& level == 1 ==> stride == 16
                        &&& level == 2 ==> stride == 32
                        &&& 0 <= i < 2 * ((side as int / stride) * (side as int / stride))
                        &&& !outputs[level]->Ok_0@[i].lt(Single { bits: 0x3F19_999A })
                        &&& is_guess_at(
                            found[k].1,
                            i,
                            stride,
                            side as int / stride,
                            outputs[level]->Ok_0@,
                            outputs[level + 3]->Ok_0@,
                            outputs[level + 6]->Ok_0@,
                        )
                    }
                &&& forall|k: int, l: int|
                    0 <= k < l < from.len() ==> (#[trigger] from[k]).0 < (#[trigger] from[l]).0 || (
                    from[k].0 == from[l].0 && from[k].1 < from[l].1)
            },
{
    let starts = |level: int| guesses_before(side, outputs, level);
    let chosen = |level: int| taken(numbers(outputs, level), anchor_count(level, side));
    let level_of = |k: int|
        if k < starts(1) {
            0int
        } else if k < starts(2) {
            1int
        } else {
            2int
        };
    let from = Seq::new(
        found.len(),
        |k: int| (level_of(k), chosen(level_of(k))[k - starts(level_of(k))]),
    );
    lemma_guesses_grow(side, outputs, 0, 1);
    lemma_guesses_grow(side, outputs, 1, 2);
    lemma_guesses_grow(side, outputs, 2, 3);
    assert(starts(1) == starts(0) + chosen(0).len());
    assert(starts(2) == starts(1) + chosen(1).len());
    assert(starts(3) == starts(2) + chosen(2).len());
    assert forall|level: int| 0 <= level < 3 implies 0 <= #[trigger] anchor_count(level, side) by {
        let feature = side as int / stride_of(level) as int;
        assert(0 <= feature * feature) by (nonlinear_arith);
    }
    law_selection_exact(|index: int| is_taken(numbers(outputs, 0), index), anchor_count(0, side));
    law_selection_exact(|index: int| is_taken(numbers(outputs, 1), index), anchor_count(1, side));
    law_selection_exact(|index: int| is_taken(numbers(outputs, 2), index), anchor_count(2, side));
    assert forall|k: int| 0 <= k < from.len() implies {
        let (level, i) = #[trigger] from[k];
        let stride = found[k].0 as int;
        &&& 0 <= level < 3
        &&& level == 0 ==> stride == 8
        &&& level == 1 ==> stride == 16
        &&& level == 2 ==> stride == 32
        &&& 0 <= i < 2 * ((side as int / stride) * (side as int / stride))
        &&& !outputs[level]->Ok_0@[i].lt(Single { bits: 0x3F19_999A })
        &&& is_guess_at(
            found[k].1,
            i,
            stride,
            side as int / stride,
            outputs[level]->Ok_0@,
            outputs[level + 3]->Ok_0@,
            outputs[level + 6]->Ok_0@,
        )
    } by {
        let (level, i) = from[k];
        let start = guesses_before(side, outputs, level);
        assert(reads_level(found, start, level, side, outputs));
        let places = chosen(level);
        assert(places[k - start] == i);
        assert(found[k].0 == stride_of(level));
        assert((|index: int| is_taken(numbers(outputs, level), index))(places[k - start]));
        assert(0 <= i < anchor_count(level, side));
        lemma_guess_read(
            found[k].1,
            i,
            level,
            side,
            numbers(outputs, level),
            numbers(outputs, level + 3),
            numbers(outputs, level + 6),
        );
    }
    assert forall|k: int, l: int| 0 <= k < l < from.len() implies (#[trigger] from[k]).0 < (
    #[trigger] from[l]).0 || (from[k].0 == from[l].0 && from[k].1 < from[l].1) by {
        if from[k].0 == from[l].0 {
            let level = from[k].0;
            let places = chosen(level);
            let (c, d) = (k - starts(level), l - starts(level));
            assert(places[c] < places[d]);
        }
    }
    assert(from.len() == found.len());
}

/// Outputs that have a score for each anchor, four distances and ten coordinates can be read.
pub proof fn law_full_outputs_suffice(side: u32, outputs: Seq<Output>)
    requires
        outputs[0]->Ok_0@.len() >= 2 * ((side / 8) * (side / 8)),
        outputs[1]->Ok_0@.len() >= 2 * ((side / 16) * (side / 16)),
        outputs[2]->Ok_0@.len() >= 2 * ((side / 32) * (side / 32)),
        outputs[3]->Ok_0@.len() >= 8 * ((side / 8) * (side / 8)),
        outputs[4]->Ok_0@.len() >= 8 * ((side / 16) * (side / 16)),
        outputs[5]->Ok_0@.len() >= 8 * ((side / 32) * (side / 32)),
        outputs[6]->Ok_0@.len() >= 20 * ((side / 8) * (side / 8)),
        outputs[7]->Ok_0@.len() >= 20 * ((side / 16) * (side / 16)),
        outputs[8]->Ok_0@.len() >= 20 * ((side / 32) * (side / 32)),
    ensures
        levels_suffice(side, outputs),
{
    law_levels(side);
}

/// The outputs of a level are its scores, the boxes three further on and the points six further on,
/// looked at in this order and level by level.
pub proof fn law_outputs_by_level(level: int, part: int)
    requires
        0 <= level,
        0 <= part < 3,
    ensures
        output_at(3 * level + part) == level + 3 * part,
{
}

/// The output that a failure names is the first, in the order in which they are looked at, that
/// could not be had: `level` and `part` of it.
pub proof fn law_failure_names_first(outputs: Seq<Output>, level: int, part: int)
    requires
        0 <= level < 3,
        0 <= part < 3,
    ensures
        fails_first(outputs, 3 * level + part) <==> {
            &&& outputs[level + 3 * part] is Err
            &&& forall|l: int, p: int|
                0 <= l <= level && 0 <= p < 3 && (l < level || p < part)
                    ==> #[trigger] output_numbered(outputs, l, p) is Ok
        },
{
    let turn = 3 * level + part;
    assert(output_at(turn) == level + 3 * part);
    if fails_first(outputs, turn) {
        assert forall|l: int, p: int|
            0 <= l <= level && 0 <= p < 3 && (l < level || p < part) implies #[trigger] output_numbered(
            outputs,
            l,
            p,
        ) is Ok by {
            let t = 3 * l + p;
            assert(output_at(t) == l + 3 * p);
            assert(outputs[output_at(t)] is Ok);
        }
    }
    if outputs[level + 3 * part] is Err && (forall|l: int, p: int|
        0 <= l <= level && 0 <= p < 3 && (l < level || p < part) ==> #[trigger] output_numbered(
            outputs,
            l,
            p,
        ) is Ok) {
        assert forall|t: int| 0 <= t < turn implies (#[trigger] outputs[output_at(t)]) is Ok by {
            assert(output_numbered(outputs, t / 3, t % 3) is Ok);
        }
    }
}

/// Part `part` of the outputs of a level: its scores, its boxes or its points.
pub open spec fn output_numbered(outputs: Seq<Output>, level: int, part: int) -> Output {
    outputs[level + 3 * part]
}

/// What is said of each output that could not be had.
pub proof fn law_failure_messages(reason: Seq<char>)
    ensures
        output_failure(0, reason) == "Failed stride 8 scores: "@ + reason,
        output_failure(1, reason) == "Failed stride 8 boxes: "@ + reason,
        output_failure(2, reason) == "Failed stride 8 kps: "@ + reason,
        output_failure(3, reason) == "Failed stride 16 scores: "@ + reason,
        output_failure(4, reason) == "Failed stride 16 boxes: "@ + reason,
        output_failure(5, reason) == "Failed stride 16 kps: "@ + reason,
        output_failure(6, reason) == "Failed stride 32 scores: "@ + reason,
        output_failure(7, reason) == "Failed stride 32 boxes: "@ + reason,
        output_failure(8, reason) == "Failed stride 32 kps: "@ + reason,
{
    reveal_strlit("Failed stride ");
    reveal_strlit("8");
    reveal_strlit("16");
    reveal_strlit("32");
    reveal_strlit(" scores");
    reveal_strlit(" boxes");
    reveal_strlit(" kps");
    reveal_strlit(": ");
    reveal_strlit("Failed stride 8 scores: ");
    reveal_strlit("Failed stride 8 boxes: ");
    reveal_strlit("Failed stride 8 kps: ");
    reveal_strlit("Failed stride 16 scores: ");
    reveal_strlit("Failed stride 16 boxes: ");
    reveal_strlit("Failed stride 16 kps: ");
    reveal_strlit("Failed stride 32 scores: ");
    reveal_strlit("Failed stride 32 boxes: ");
    reveal_strlit("Failed stride 32 kps: ");
    assert(output_failure(0, reason) =~= "Failed stride 8 scores: "@ + reason);
    assert(output_failure(1, reason) =~= "Failed stride 8 boxes: "@ + reason);
    assert(output_failure(2, reason) =~= "Failed stride 8 kps: "@ + reason);
    assert(output_failure(3, reason) =~= "Failed stride 16 scores: "@ + reason);
    assert(output_failure(4, reason) =~= "Failed stride 16 boxes: "@ + reason);
    assert(output_failure(5, reason) =~= "Failed stride 16 kps: "@ + reason);
    assert(output_failure(6, reason) =~= "Failed stride 32 scores: "@ + reason);
    assert(output_failure(7, reason) =~= "Failed stride 32 boxes: "@ + reason);
    assert(output_failure(8, reason) =~= "Failed stride 32 kps: "@ + reason);
}

/// What the outputs of a level have to hold to be read: a score for each anchor, and four distances
/// and ten coordinates for each guess that is not scored below 0.6, but none for the others.
pub proof fn law_outputs_needed(
    count: int,
    scores: Seq<Single>,
    boxes: Seq<Single>,
    points: Seq<Single>,
)
    ensures
        outputs_suffice(count, scores, boxes, points) <==> {
            &&& scores.len() >= count
            &&& forall|i: int|
                0 <= i < count && !(#[trigger] scores[i]).lt(Single { bits: 0x3F19_999A })
                    ==> boxes.len() >= 4 * (i + 1) && points.len() >= 10 * (i + 1)
        },
{
    if outputs_suffice(count, scores, boxes, points) {
        assert forall|i: int|
            0 <= i < count && !(#[trigger] scores[i]).lt(
                Single { bits: 0x3F19_999A },
            ) implies boxes.len() >= 4 * (i + 1) && points.len() >= 10 * (i + 1) by {
            assert(is_taken(scores, i));
        }
    }
}

/// All outputs could be had before the end exactly if none of the nine failed.
pub proof fn law_all_outputs_had(outputs: Seq<Output>)
    ensures
        had_before(outputs, 9) <==> forall|i: int| 0 <= i < 9 ==> (#[trigger] outputs[i]) is Ok,
{
    if had_before(outputs, 9) {
        assert forall|i: int| 0 <= i < 9 implies (#[trigger] outputs[i]) is Ok by {
            let t = 3 * (i % 3) + i / 3;
            assert(output_at(t) == i);
            assert(outputs[output_at(t)] is Ok);
        }
    }
    if forall|i: int| 0 <= i < 9 ==> (#[trigger] outputs[i]) is Ok {
        assert forall|t: int| 0 <= t < 9 implies (#[trigger] outputs[output_at(t)]) is Ok by {
            assert(0 <= output_at(t) < 9);
        }
    }
}

/// Only the levels up to the first output that failed have to hold enough to be read.
pub proof fn law_levels_needed(side: u32, outputs: Seq<Output>)
    ensures
        levels_suffice(side, outputs) <==> forall|level: int|
            0 <= level < 3 && (forall|l: int, p: int|
                0 <= l <= level && 0 <= p < 3 ==> #[trigger] output_numbered(outputs, l, p) is Ok)
                ==> #[trigger] outputs_suffice(
                anchor_count(level, side),
                outputs[level]->Ok_0@,
                outputs[level + 3]->Ok_0@,
                outputs[level + 6]->Ok_0@,
            ),
{
    assert forall|level: int| 0 <= level < 3 implies (#[trigger] had_before(outputs, 3 * level + 3)
        <==> forall|l: int, p: int|
        0 <= l <= level && 0 <= p < 3 ==> #[trigger] output_numbered(outputs, l, p) is Ok) by {
        if had_before(outputs, 3 * level + 3) {
            assert forall|l: int, p: int|
                0 <= l <= level && 0 <= p < 3 implies #[trigger] output_numbered(
                outputs,
                l,
                p,
            ) is Ok by {
                let t = 3 * l + p;
                assert(output_at(t) == l + 3 * p);
                assert(outputs[output_at(t)] is Ok);
            }
        }
        if forall|l: int, p: int|
            0 <= l <= level && 0 <= p < 3 ==> #[trigger] output_numbered(outputs, l, p) is Ok {
            assert forall|t: int| 0 <= t < 3 * level + 3 implies (
            #[trigger] outputs[output_at(t)]) is Ok by {
                assert(output_numbered(outputs, t / 3, t % 3) is Ok);
            }
        }
    }
    if levels_suffice(side, outputs) {
        assert forall|level: int|
            0 <= level < 3 && (forall|l: int, p: int|
                0 <= l <= level && 0 <= p < 3 ==> #[trigger] output_numbered(
                    outputs,
                    l,
                    p,
                ) is Ok) implies #[trigger] outputs_suffice(
            anchor_count(level, side),
            outputs[level]->Ok_0@,
            outputs[level + 3]->Ok_0@,
            outputs[level + 6]->Ok_0@,
        ) by {
            assert(had_before(outputs, 3 * level + 3));
            assert(outputs_suffice(
                anchor_count(level, side),
                numbers(outputs, level),
                numbers(outputs, level + 3),
                numbers(outputs, level + 6),
            ));
        }
    } else {
        let level = choose|level: int|
            0 <= level < 3 && had_before(outputs, 3 * level + 3) && !(
            #[trigger] outputs_suffice(
                anchor_count(level, side),
                numbers(outputs, level),
                numbers(outputs, level + 3),
                numbers(outputs, level + 6),
            ));
        assert(had_before(outputs, 3 * level + 3));
        assert(!outputs_suffice(
            anchor_count(level, side),
            outputs[level]->Ok_0@,
            outputs[level + 3]->Ok_0@,
            outputs[level + 6]->Ok_0@,
        ));
    }
}

} // verus!
