//! Bringing a face into the 112 by 112 view that the embedding network knows.
use crate::picture::{
    convertible, crop_imm, height_of, image_format, image_height, image_pixels, image_width,
    is_convertible, is_resizable, lemma_place_in_grid, lesser, part_pixels, resampled_pixels,
    resizable, resize_exact, rgb8_samples, rgb_pixels, rgb_sample, width_of, RgbPixels,
};
use crate::single::{law_nearest_whole_is_near, Single};
use image::DynamicImage;
use vstd::arithmetic::power2::{lemma_pow2_pos, pow2};
use vstd::prelude::*;

verus! {

/// The side of the view that the embedding network takes.
pub const FACE_SIDE: u32 = 112;

/// How many facial points the alignment needs.
pub const LANDMARK_COUNT: usize = 5;

/// The bit pattern of 1e-9, below which a pivot is taken for zero.
pub const MIN_PIVOT_BITS: u32 = 0x3089_705F;

/// The bit pattern of 1e-6, which the determinant of a usable transform exceeds.
pub const MIN_DETERMINANT_BITS: u32 = 0x3586_37BD;

/// The row that partial pivoting picks for column `first` when it has looked at the rows from
/// `first` up to `end`: a later row replaces the choice only if its entry is strictly larger in
/// size.
pub open spec fn pivot_among(column: Seq<Single>, first: int, end: int) -> int
    decreases end - first,
{
    if end <= first + 1 {
        first
    } else {
        let before = pivot_among(column, first, end - 1);
        if column[before].absolute().lt(column[end - 1].absolute()) {
            end - 1
        } else {
            before
        }
    }
}

/// Picks the pivot row of one elimination step from the entries of its column, the rows above
/// `first` being done with. `None` where the pivot is zero for all that can be told: the points
/// then do not determine a transform.
pub fn choose_pivot(column: &[Single], first: usize) -> (pivot: Option<usize>)
    requires
        first < column@.len(),
    ensures
        ({
            let row = pivot_among(column@, first as int, column@.len() as int);
            if column@[row].absolute().lt(Single { bits: MIN_PIVOT_BITS }) {
                pivot is None
            } else {
                pivot == Some(row as usize)
            }
        }),
        pivot matches Some(row) ==> first <= row < column@.len(),
{
    let rows = column.len();
    let mut pivot: usize = first;
    let mut r: usize = first + 1;
    while r < rows
        invariant
            first < r <= rows,
            rows == column@.len(),
            first <= pivot < r,
            pivot == pivot_among(column@, first as int, r as int),
        decreases column@.len() - r,
    {
        if column[pivot].abs().less_than(&column[r].abs()) {
            pivot = r;
        }
        r += 1;
    }
    if column[pivot].abs().less_than(&Single::from_bits(MIN_PIVOT_BITS)) {
        None
    } else {
        Some(pivot)
    }
}

/// Where all entries are numbers, the pivot row has the largest entry in size, and the first of
/// those that are equally large.
pub proof fn law_pivot_is_largest(column: Seq<Single>, first: int, end: int)
    requires
        0 <= first < end <= column.len(),
        forall|r: int| first <= r < end ==> !(#[trigger] column[r]).nan(),
    ensures
        first <= pivot_among(column, first, end) < end,
        forall|r: int|
            first <= r < end ==> (#[trigger] column[r]).absolute().le(
                column[pivot_among(column, first, end)].absolute(),
            ),
        forall|r: int|
            first <= r < pivot_among(column, first, end) ==> (#[trigger] column[r]).absolute().lt(
                column[pivot_among(column, first, end)].absolute(),
            ),
    decreases end - first,
{
    if end > first + 1 {
        law_pivot_is_largest(column, first, end - 1);
    }
}

/// Whether a face is aligned by its facial points: all five are known, they determine a transform,
/// and its determinant is not close to zero. `determinant` is `None` where the points are
/// degenerate and determine none.
pub open spec fn is_alignable(landmark_count: int, determinant: Option<Single>) -> bool {
    landmark_count >= 5 && (determinant matches Some(size) && (Single {
        bits: MIN_DETERMINANT_BITS,
    }).lt(size.absolute()))
}

/// Tells whether a face is aligned by its facial points.
pub fn can_align(landmark_count: usize, determinant: Option<Single>) -> (answer: bool)
    ensures
        answer == is_alignable(landmark_count as int, determinant),
{
    match determinant {
        Some(size) => landmark_count >= LANDMARK_COUNT && Single::from_bits(
            MIN_DETERMINANT_BITS,
        ).less_than(&size.abs()),
        None => false,
    }
}

/// A colour: red, green, blue.
pub type Rgb = (u8, u8, u8);

/// The four pixels around a place in a picture.
#[derive(Clone, Copy, Debug, PartialEq, Eq)]
pub struct Taps {
    pub top_left: Rgb,
    pub top_right: Rgb,
    pub bottom_left: Rgb,
    pub bottom_right: Rgb,
}

/// The colour in column `x` of row `y`.
pub open spec fn colour_at(grid: &RgbPixels, x: int, y: int) -> Rgb {
    (
        rgb_sample(grid.samples@, grid.width as int, x, y, 0),
        rgb_sample(grid.samples@, grid.width as int, x, y, 1),
        rgb_sample(grid.samples@, grid.width as int, x, y, 2),
    )
}

/// The four pixels around a place whose top left pixel is (`x`, `y`), if all lie in the picture.
pub open spec fn taps_at(grid: &RgbPixels, x: int, y: int) -> Option<Taps> {
    if x + 1 < grid.width && y + 1 < grid.height {
        Some(
            Taps {
                top_left: colour_at(grid, x, y),
                top_right: colour_at(grid, x + 1, y),
                bottom_left: colour_at(grid, x, y + 1),
                bottom_right: colour_at(grid, x + 1, y + 1),
            },
        )
    } else {
        None
    }
}

fn read_colour(grid: &RgbPixels, x: u32, y: u32) -> (colour: Rgb)
    requires
        grid.wf(),
        x < grid.width,
        y < grid.height,
    ensures
        colour == colour_at(grid, x as int, y as int),
{
    let count = grid.samples.len();
    proof {
        lemma_place_in_grid(x as int, y as int, grid.width as int, grid.height as int);
    }
    let at: usize = 3 * (y as usize * grid.width as usize + x as usize);
    (grid.samples[at], grid.samples[at + 1], grid.samples[at + 2])
}

/// The four pixels around each of many places of a picture, each place rounded down to its top
/// left pixel and what lies to the left of the picture or above it moved to the edge. `None`
/// where one of the four lies outside.
pub fn gather_taps(grid: &RgbPixels, places: &Vec<(Single, Single)>) -> (taps: Vec<Option<Taps>>)
    requires
        grid.wf(),
    ensures
        taps@ == places@.map_values(
            |place: (Single, Single)| taps_at(grid, place.0.whole_part(), place.1.whole_part()),
        ),
{
    let mut taps: Vec<Option<Taps>> = Vec::new();
    let mut i: usize = 0;
    while i < places.len()
        invariant
            0 <= i <= places@.len(),
            grid.wf(),
            taps@.len() == i,
            forall|j: int|
                0 <= j < i ==> #[trigger] taps@[j] == taps_at(
                    grid,
                    places@[j].0.whole_part(),
                    places@[j].1.whole_part(),
                ),
        decreases places@.len() - i,
    {
        let x0 = places[i].0.whole();
        let y0 = places[i].1.whole();
        if x0 < u32::MAX && y0 < u32::MAX && x0 + 1 < grid.width && y0 + 1 < grid.height {
            taps.push(
                Some(
                    Taps {
                        top_left: read_colour(grid, x0, y0),
                        top_right: read_colour(grid, x0 + 1, y0),
                        bottom_left: read_colour(grid, x0, y0 + 1),
                        bottom_right: read_colour(grid, x0 + 1, y0 + 1),
                    },
                ),
            );
        } else {
            taps.push(None);
        }
        i += 1;
    }
    assert(taps@ =~= places@.map_values(
        |place: (Single, Single)| taps_at(grid, place.0.whole_part(), place.1.whole_part()),
    ));
    taps
}

/// A blended sample: the nearest whole number that a sample can be.
pub open spec fn sample_of(blend: Single) -> u8 {
    if blend.nearest_whole() <= 255 {
        blend.nearest_whole() as u8
    } else {
        255
    }
}

fn to_sample(blend: Single) -> (sample: u8)
    ensures
        sample == sample_of(blend),
{
    let number = blend.rounded();
    if number <= 255 {
        number as u8
    } else {
        255
    }
}

/// The colour that a blend of four pixels gives, and black where there was nothing to blend.
pub open spec fn painted(blend: Option<(Single, Single, Single)>) -> Rgb {
    match blend {
        Some(blend) => (sample_of(blend.0), sample_of(blend.1), sample_of(blend.2)),
        None => (0, 0, 0),
    }
}

/// Paints the aligned view, row by row, from one blend to a pixel; what lies outside the photo
/// becomes black.
pub fn paint_face(blends: &Vec<Option<(Single, Single, Single)>>) -> (face: RgbPixels)
    requires
        blends@.len() == 112 * 112,
    ensures
        face.wf(),
        face.width == FACE_SIDE,
        face.height == FACE_SIDE,
        forall|x: int, y: int|
            0 <= x < 112 && 0 <= y < 112 ==> #[trigger] colour_at(&face, x, y) == painted(
                blends@[y * 112 + x],
            ),
{
    let mut samples: Vec<u8> = Vec::new();
    let mut i: usize = 0;
    while i < blends.len()
        invariant
            0 <= i <= blends@.len(),
            blends@.len() == 112 * 112,
            samples@.len() == 3 * i,
            forall|j: int|
                0 <= j < i ==> (samples@[3 * j], samples@[3 * j + 1], samples@[3 * j + 2])
                    == painted(#[trigger] blends@[j]),
        decreases blends@.len() - i,
    {
        let (red, green, blue) = match blends[i] {
            Some(blend) => (to_sample(blend.0), to_sample(blend.1), to_sample(blend.2)),
            None => (0, 0, 0),
        };
        samples.push(red);
        samples.push(green);
        samples.push(blue);
        i += 1;
    }
    RgbPixels { width: FACE_SIDE, height: FACE_SIDE, samples }
}

/// The RGB samples of the square in the middle of an image, resampled to the aligned view.
pub open spec fn middle_samples(img: DynamicImage) -> Seq<u8> {
    let (w, h) = (image_width(img) as int, image_height(img) as int);
    let side = lesser(w, h);
    rgb8_samples(
        resampled_pixels(
            part_pixels(image_pixels(img), w, (w - side) / 2, (h - side) / 2, side, side),
            image_format(img),
            side as u32,
            side as u32,
            FACE_SIDE,
            FACE_SIDE,
        ),
        image_format(img),
    )
}

/// Whether the view that stands in for a face that cannot be aligned can be made on this machine.
pub open spec fn has_middle_face(img: DynamicImage) -> bool {
    resizable(lesser(image_width(img) as int, image_height(img) as int) as u32, FACE_SIDE)
}

/// The view that stands in for a face that cannot be aligned: the largest square in the middle of
/// the image, resized.
pub fn middle_face(img: &DynamicImage) -> (face: RgbPixels)
    requires
        has_middle_face(*img),
    ensures
        face.wf(),
        face.width == FACE_SIDE,
        face.height == FACE_SIDE,
        face.samples@ == middle_samples(*img),
{
    let (iw, ih) = (width_of(img), height_of(img));
    let side = if iw <= ih {
        iw
    } else {
        ih
    };
    let x = (iw - side) / 2;
    let y = (ih - side) / 2;
    let part = crop_imm(img, x, y, side, side);
    let resized = resize_exact(&part, FACE_SIDE, FACE_SIDE);
    rgb_pixels(&resized)
}

/// The view of a face that the embedding network is shown: painted from the blends where the face
/// can be aligned by its landmarks, and the middle of the image where it cannot. `None` where the
/// middle is called for and the image is too large for this machine.
pub fn face_view(
    img: &DynamicImage,
    landmark_count: usize,
    determinant: Option<Single>,
    blends: &Vec<Option<(Single, Single, Single)>>,
) -> (view: Option<RgbPixels>)
    requires
        is_alignable(landmark_count as int, determinant) ==> blends@.len() == 112 * 112,
    ensures
        view is Some <==> is_alignable(landmark_count as int, determinant) || has_middle_face(*img),
        view matches Some(face) ==> {
            &&& face.wf() && face.width == FACE_SIDE && face.height == FACE_SIDE
            &&& is_alignable(landmark_count as int, determinant) ==> forall|x: int, y: int|
                0 <= x < 112 && 0 <= y < 112 ==> #[trigger] colour_at(&face, x, y) == painted(
                    blends@[y * 112 + x],
                )
            &&& !is_alignable(landmark_count as int, determinant) ==> face.samples@
                == middle_samples(*img)
        },
{
    if can_align(landmark_count, determinant) {
        return Some(paint_face(blends));
    }
    let (iw, ih) = (width_of(img), height_of(img));
    let side = if iw <= ih {
        iw
    } else {
        ih
    };
    if is_resizable(side, FACE_SIDE) {
        Some(middle_face(img))
    } else {
        None
    }
}

/// The pixels of a photo, from which an aligned view is sampled, if they can be had: `None` where
/// the image is too large for this machine.
pub fn photo_pixels(img: &DynamicImage) -> (grid: Option<RgbPixels>)
    ensures
        grid is Some <==> convertible(*img),
        grid matches Some(pixels) ==> pixels.wf() && pixels.width == image_width(*img)
            && pixels.height == image_height(*img) && pixels.samples@ == rgb8_samples(
            image_pixels(*img),
            image_format(*img),
        ),
{
    if is_convertible(img) {
        Some(rgb_pixels(img))
    } else {
        None
    }
}

/// Which row is the pivot, whatever the entries are: the first one where its entry is not a number,
/// and else the first of those rows whose entry is a number and exceeded in size by none.
pub proof fn law_pivot_among_any_entries(column: Seq<Single>, first: int, end: int)
    requires
        0 <= first < end <= column.len(),
    ensures
        first <= pivot_among(column, first, end) < end,
        column[first].nan() ==> pivot_among(column, first, end) == first,
        !column[first].nan() ==> !column[pivot_among(column, first, end)].nan(),
        !column[first].nan() ==> forall|r: int|
            first <= r < end ==> !column[pivot_among(column, first, end)].absolute().lt(
                (#[trigger] column[r]).absolute(),
            ),
        !column[first].nan() ==> forall|r: int|
            first <= r < pivot_among(column, first, end) && !(#[trigger] column[r]).nan()
                ==> column[r].absolute().lt(column[pivot_among(column, first, end)].absolute()),
    decreases end - first,
{
    if end > first + 1 {
        law_pivot_among_any_entries(column, first, end - 1);
    }
}

/// A face is aligned exactly if five of its points are known and the determinant of the transform is
/// a number above 1e-6 in size, whatever its sign.
pub proof fn law_aligned_by_determinant(landmark_count: int, determinant: Single)
    ensures
        !is_alignable(landmark_count, None),
        determinant.bits < 0x8000_0000 ==> (is_alignable(landmark_count, Some(determinant))
            <==> landmark_count >= 5 && 0x3586_37BD < determinant.bits <= 0x7F80_0000),
        determinant.bits >= 0x8000_0000 ==> is_alignable(landmark_count, Some(determinant))
            == is_alignable(
            landmark_count,
            Some(Single { bits: (determinant.bits - 0x8000_0000) as u32 }),
        ),
{
}

/// The four pixels around each place are those of the picture, colour by colour: the one that the
/// place rounds down to, its right neighbour, the one below it and the right neighbour of that.
pub proof fn law_taps_are_neighbours(
    grid: RgbPixels,
    places: Seq<(Single, Single)>,
    taps: Seq<Option<Taps>>,
    i: int,
)
    requires
        grid.wf(),
        taps == places.map_values(
            |place: (Single, Single)| taps_at(&grid, place.0.whole_part(), place.1.whole_part()),
        ),
        0 <= i < places.len(),
    ensures
        ({
            let (x, y) = (places[i].0.whole_part(), places[i].1.whole_part());
            let w = grid.width as int;
            let s = grid.samples@;
            &&& taps[i] is Some <==> x + 1 < grid.width && y + 1 < grid.height
            &&& taps[i] matches Some(around) ==> {
                &&& around.top_left == (s[3 * (y * w + x)], s[3 * (y * w + x) + 1], s[3 * (y * w + x)
                    + 2])
                &&& around.top_right == (s[3 * (y * w + x + 1)], s[3 * (y * w + x + 1) + 1], s[3 * (y
                    * w + x + 1) + 2])
                &&& around.bottom_left == (s[3 * ((y + 1) * w + x)], s[3 * ((y + 1) * w + x) + 1], s[3
                    * ((y + 1) * w + x) + 2])
                &&& around.bottom_right == (
                    s[3 * ((y + 1) * w + x + 1)],
                    s[3 * ((y + 1) * w + x + 1) + 1],
                    s[3 * ((y + 1) * w + x + 1) + 2],
                )
            }
        }),
{
    let place = places[i];
    assert(taps[i] == taps_at(&grid, place.0.whole_part(), place.1.whole_part()));
}

/// Whether a sample is the one nearest to a blend: at most one half away from it, 0 for what is
/// negative or not a number, and 255 for what is larger.
pub open spec fn is_nearest_sample(sample: u8, blend: Single) -> bool {
    if blend.nan() || blend.negative() {
        sample == 0
    } else if blend.finite() && blend.value() + pow2(148) < 256 * pow2(149) {
        sample * pow2(149) <= blend.value() + pow2(148) < (sample + 1) * pow2(149)
    } else {
        sample == 255
    }
}

/// Each colour of a painted pixel is the sample nearest to that colour of its blend: red to the first
/// part, green to the second and blue to the third. Where there is no blend the pixel is black.
pub proof fn law_colours_painted(
    face: RgbPixels,
    blends: Seq<Option<(Single, Single, Single)>>,
    x: int,
    y: int,
)
    requires
        face.width == 112,
        face.wf(),
        blends.len() == 112 * 112,
        forall|x: int, y: int|
            0 <= x < 112 && 0 <= y < 112 ==> #[trigger] colour_at(&face, x, y) == painted(
                blends[y * 112 + x],
            ),
        0 <= x < 112,
        0 <= y < 112,
    ensures
        match blends[y * 112 + x] {
            Some((red, green, blue)) => {
                &&& is_nearest_sample(face.samples@[3 * (y * 112 + x)], red)
                &&& is_nearest_sample(face.samples@[3 * (y * 112 + x) + 1], green)
                &&& is_nearest_sample(face.samples@[3 * (y * 112 + x) + 2], blue)
            },
            None => {
                &&& face.samples@[3 * (y * 112 + x)] == 0
                &&& face.samples@[3 * (y * 112 + x) + 1] == 0
                &&& face.samples@[3 * (y * 112 + x) + 2] == 0
            },
        },
{
    assert(colour_at(&face, x, y) == painted(blends[y * 112 + x]));
    if let Some((red, green, blue)) = blends[y * 112 + x] {
        lemma_sample_is_nearest(red);
        lemma_sample_is_nearest(green);
        lemma_sample_is_nearest(blue);
    }
}

/// A blend of whole colours is painted as these colours: red, green and blue in their places.
pub proof fn law_whole_colours_painted(
    face: RgbPixels,
    blends: Seq<Option<(Single, Single, Single)>>,
    x: int,
    y: int,
    red: u8,
    green: u8,
    blue: u8,
)
    requires
        face.width == 112,
        face.wf(),
        blends.len() == 112 * 112,
        forall|x: int, y: int|
            0 <= x < 112 && 0 <= y < 112 ==> #[trigger] colour_at(&face, x, y) == painted(
                blends[y * 112 + x],
            ),
        0 <= x < 112,
        0 <= y < 112,
        blends[y * 112 + x] matches Some(blend) && {
            &&& blend.0.finite() && !blend.0.negative() && blend.0.value() == red * pow2(149)
            &&& blend.1.finite() && !blend.1.negative() && blend.1.value() == green * pow2(149)
            &&& blend.2.finite() && !blend.2.negative() && blend.2.value() == blue * pow2(149)
        },
    ensures
        face.samples@[3 * (y * 112 + x)] == red,
        face.samples@[3 * (y * 112 + x) + 1] == green,
        face.samples@[3 * (y * 112 + x) + 2] == blue,
{
    law_colours_painted(face, blends, x, y);
    if let Some((first, second, third)) = blends[y * 112 + x] {
        lemma_whole_sample(face.samples@[3 * (y * 112 + x)], first, red);
        lemma_whole_sample(face.samples@[3 * (y * 112 + x) + 1], second, green);
        lemma_whole_sample(face.samples@[3 * (y * 112 + x) + 2], third, blue);
    }
}

proof fn lemma_whole_sample(sample: u8, blend: Single, whole: u8)
    requires
        is_nearest_sample(sample, blend),
        blend.finite(),
        !blend.negative(),
        blend.value() == whole * pow2(149),
    ensures
        sample == whole,
{
    law_nearest_whole_is_near(blend);
    lemma_pow2_pos(148);
    let p = pow2(149) as int;
    let h = pow2(148) as int;
    assert(whole * p + h < 256 * p) by (nonlinear_arith)
        requires
            0 <= whole <= 255,
            p == 2 * h,
            h > 0,
    ;
    assert(sample == whole) by (nonlinear_arith)
        requires
            sample * p <= whole * p + h < (sample + 1) * p,
            p == 2 * h,
            h > 0,
    ;
}

proof fn lemma_sample_is_nearest(blend: Single)
    ensures
        is_nearest_sample(sample_of(blend), blend),
{
    law_nearest_whole_is_near(blend);
    lemma_pow2_pos(148);
    lemma_pow2_pos(149);
    let p = pow2(149) as int;
    let n = blend.nearest_whole();
    if !blend.nan() && !blend.negative() && blend.finite() {
        let v = blend.value() + pow2(148);
        if v < 256 * p {
            assert(n <= 255) by (nonlinear_arith)
                requires
                    n * p <= v < 256 * p,
                    p > 0,
            ;
        } else if v < 0x1_0000_0000 * p {
            assert(n >= 256) by (nonlinear_arith)
                requires
                    256 * p <= v < (n + 1) * p,
                    p > 0,
            ;
        }
    }
}

/// The view that stands in for a face is the whole of the largest square in the middle of the image:
/// as wide and as high as the shorter side, with as much cut off on the left as on the right and as
/// much above as below, but for one pixel, and shrunk or grown to 112 by 112.
pub proof fn law_middle_square_shown(img: DynamicImage, side: u32, left: int, top: int)
    requires
        side <= image_width(img),
        side <= image_height(img),
        side == image_width(img) || side == image_height(img),
        0 <= image_width(img) - side - 2 * left <= 1,
        0 <= image_height(img) - side - 2 * top <= 1,
    ensures
        middle_samples(img) == rgb8_samples(
            resampled_pixels(
                Seq::new(
                    (side * side) as nat,
                    |k: int|
                        image_pixels(img)[(top + k / (side as int)) * image_width(img) + (left + k % (
                        side as int))],
                ),
                image_format(img),
                side,
                side,
                112,
                112,
            ),
            image_format(img),
        ),
        has_middle_face(img) <==> 16 * (side * 112) <= isize::MAX,
{
    let (w, h) = (image_width(img) as int, image_height(img) as int);
    assert(lesser(w, h) == side);
    assert((w - side) / 2 == left && (h - side) / 2 == top);
    assert(part_pixels(image_pixels(img), w, left, top, side as int, side as int) =~= Seq::new(
        (side * side) as nat,
        |k: int|
            image_pixels(img)[(top + k / (side as int)) * image_width(img) + (left + k % (
            side as int))],
    ));
}

} // verus!
