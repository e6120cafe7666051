//! How sharp a face is: the Laplacian of its grey pixels, whose variance is the blur score.
use crate::face::FaceBox;
use crate::picture::{
    can_be_luma8, crop_imm, cropped_length, gray_pixels, height_of, image_format, image_height,
    image_pixels, image_width, lemma_place_in_grid, lesser, part_pixels, width_of, GrayPixels,
};
use crate::single::Single;
use image::DynamicImage;
use vstd::arithmetic::div_mod::{lemma_fundamental_div_mod, lemma_fundamental_div_mod_converse};
use vstd::prelude::*;

verus! {

/// The sample in column `x` of row `y` of grey samples with `width` pixels to a row.
pub open spec fn gray_sample(samples: Seq<u8>, width: int, x: int, y: int) -> u8 {
    samples[y * width + x]
}

/// The discrete Laplacian: the four neighbours of a pixel less four times the pixel itself.
pub open spec fn laplacian_at(samples: Seq<u8>, width: int, x: int, y: int) -> int {
    gray_sample(samples, width, x, y - 1) + gray_sample(samples, width, x, y + 1) + gray_sample(
        samples,
        width,
        x - 1,
        y,
    ) + gray_sample(samples, width, x + 1, y) - 4 * gray_sample(samples, width, x, y)
}

/// How many places of a length have a neighbour on both sides.
pub open spec fn inner_length(length: int) -> int {
    if length >= 2 {
        length - 2
    } else {
        0
    }
}

/// Whether `values` are the Laplacians of all pixels with four neighbours, row by row.
pub open spec fn are_laplacians(values: Seq<i16>, samples: Seq<u8>, width: int, height: int) -> bool {
    &&& values.len() == inner_length(width) * inner_length(height)
    &&& forall|k: int|
        0 <= k < values.len() ==> #[trigger] values[k] == laplacian_at(
            samples,
            width,
            1 + k % inner_length(width),
            1 + k / inner_length(width),
        )
}

/// Whether a grid of this size has the edges that its inner pixels are told from: a first and a last
/// row, and where there are rows between them, a first and a last column.
pub open spec fn has_edges(width: int, height: int) -> bool {
    height >= 1 && (height >= 3 ==> width >= 1)
}

/// The Laplacians of all pixels with four neighbours, row by row.
pub fn laplacians(grid: &GrayPixels) -> (values: Vec<i16>)
    requires
        grid.wf(),
        has_edges(grid.width as int, grid.height as int),
    ensures
        are_laplacians(values@, grid.samples@, grid.width as int, grid.height as int),
{
    let mut values: Vec<i16> = Vec::new();
    let width = grid.width as usize;
    let count = grid.samples.len();
    let ghost w = grid.width as int;
    let ghost h = grid.height as int;
    let ghost inner = inner_length(w);
    if grid.width < 2 || grid.height < 2 {
        assert(inner_length(w) * inner_length(h) == 0) by (nonlinear_arith)
            requires
                inner_length(w) == 0 || inner_length(h) == 0,
        ;
        return values;
    }
    let mut y: u32 = 1;
    assert((y - 1) * inner == 0) by (nonlinear_arith)
        requires
            y == 1,
    ;
    while y < grid.height - 1
        invariant
            1 <= y <= grid.height - 1,
            grid.wf(),
            grid.width >= 2,
            grid.height >= 2,
            w == grid.width,
            h == grid.height,
            width == grid.width,
            count == grid.samples@.len(),
            inner == inner_length(w),
            values@.len() == (y - 1) * inner,
            forall|k: int|
                0 <= k < values@.len() ==> #[trigger] values@[k] == laplacian_at(
                    grid.samples@,
                    w,
                    1 + k % inner,
                    1 + k / inner,
                ),
        decreases grid.height - y,
    {
        let mut x: u32 = 1;
        while x < grid.width - 1
            invariant
                1 <= x <= grid.width - 1,
                1 <= y < grid.height - 1,
                grid.wf(),
                grid.width >= 2,
                w == grid.width,
                h == grid.height,
                width == grid.width,
                count == grid.samples@.len(),
                inner == inner_length(w),
                values@.len() == (y - 1) * inner + (x - 1),
                forall|k: int|
                    0 <= k < values@.len() ==> #[trigger] values@[k] == laplacian_at(
                        grid.samples@,
                        w,
                        1 + k % inner,
                        1 + k / inner,
                    ),
            decreases grid.width - x,
        {
            proof {
                lemma_place_in_grid(x as int, y as int, w, h);
                lemma_place_in_grid(x as int, y - 1, w, h);
                lemma_place_in_grid(x as int, y + 1, w, h);
                lemma_place_in_grid(x - 1, y as int, w, h);
                lemma_place_in_grid(x + 1, y as int, w, h);
                assert((y - 1) * w == y * w - w && (y + 1) * w == y * w + w) by (nonlinear_arith);
                lemma_fundamental_div_mod_converse(
                    (y - 1) * inner + (x - 1),
                    inner,
                    y - 1,
                    x - 1,
                );
            }
            let at: usize = y as usize * width + x as usize;
            let p = grid.samples[at] as i16;
            let top = grid.samples[at - width] as i16;
            let bottom = grid.samples[at + width] as i16;
            let left = grid.samples[at - 1] as i16;
            let right = grid.samples[at + 1] as i16;
            values.push(top + bottom + left + right - 4 * p);
            x += 1;
        }
        assert(y * inner == (y - 1) * inner + inner) by (nonlinear_arith);
        y += 1;
    }
    assert(inner_length(w) * inner_length(h) == (h - 2) * inner) by (nonlinear_arith)
        requires
            inner == inner_length(w),
            inner_length(h) == h - 2,
    ;
    values
}

/// A patch of one shade has no edges: all of its Laplacians are 0.
pub proof fn law_flat_patch_has_no_edges(
    values: Seq<i16>,
    samples: Seq<u8>,
    width: int,
    height: int,
    shade: u8,
)
    requires
        width >= 0,
        height >= 0,
        samples.len() == width * height,
        forall|i: int| 0 <= i < samples.len() ==> #[trigger] samples[i] == shade,
        are_laplacians(values, samples, width, height),
    ensures
        forall|k: int| 0 <= k < values.len() ==> #[trigger] values[k] == 0,
{
    assert forall|k: int| 0 <= k < values.len() implies #[trigger] values[k] == 0 by {
        lemma_inner_place(k, width, height);
        let (x, y) = (1 + k % inner_length(width), 1 + k / inner_length(width));
        lemma_place_in_grid(x, y, width, height);
        lemma_place_in_grid(x, y - 1, width, height);
        lemma_place_in_grid(x, y + 1, width, height);
        lemma_place_in_grid(x - 1, y, width, height);
        lemma_place_in_grid(x + 1, y, width, height);
    }
}

/// Shifting all shades of a patch by the same amount leaves its Laplacians as they are: only
/// edges count, not brightness.
pub proof fn law_brightness_does_not_count(
    values: Seq<i16>,
    samples: Seq<u8>,
    shifted_values: Seq<i16>,
    shifted: Seq<u8>,
    width: int,
    height: int,
    amount: int,
)
    requires
        width >= 0,
        height >= 0,
        samples.len() == width * height,
        shifted.len() == samples.len(),
        forall|i: int| 0 <= i < samples.len() ==> #[trigger] shifted[i] == samples[i] + amount,
        are_laplacians(values, samples, width, height),
        are_laplacians(shifted_values, shifted, width, height),
    ensures
        values == shifted_values,
{
    assert forall|k: int| 0 <= k < values.len() implies values[k] == shifted_values[k] by {
        lemma_inner_place(k, width, height);
        let (x, y) = (1 + k % inner_length(width), 1 + k / inner_length(width));
        lemma_place_in_grid(x, y, width, height);
        lemma_place_in_grid(x, y - 1, width, height);
        lemma_place_in_grid(x, y + 1, width, height);
        lemma_place_in_grid(x - 1, y, width, height);
        lemma_place_in_grid(x + 1, y, width, height);
        assert(shifted[y * width + x] == samples[y * width + x] + amount);
        assert(shifted[(y - 1) * width + x] == samples[(y - 1) * width + x] + amount);
        assert(shifted[(y + 1) * width + x] == samples[(y + 1) * width + x] + amount);
        assert(shifted[y * width + (x - 1)] == samples[y * width + (x - 1)] + amount);
        assert(shifted[y * width + (x + 1)] == samples[y * width + (x + 1)] + amount);
    }
    assert(values =~= shifted_values);
}

/// Inverting all shades of a patch negates its Laplacians: an edge is as sharp from light to dark
/// as from dark to light.
pub proof fn law_inversion_negates(
    values: Seq<i16>,
    samples: Seq<u8>,
    inverted_values: Seq<i16>,
    inverted: Seq<u8>,
    width: int,
    height: int,
)
    requires
        width >= 0,
        height >= 0,
        samples.len() == width * height,
        inverted.len() == samples.len(),
        forall|i: int| 0 <= i < samples.len() ==> #[trigger] inverted[i] == 255 - samples[i],
        are_laplacians(values, samples, width, height),
        are_laplacians(inverted_values, inverted, width, height),
    ensures
        inverted_values.len() == values.len(),
        forall|k: int|
            0 <= k < values.len() ==> #[trigger] inverted_values[k] == -(#[trigger] values[k]),
{
    assert forall|k: int| 0 <= k < values.len() implies #[trigger] inverted_values[k] == -(
    #[trigger] values[k]) by {
        lemma_inner_place(k, width, height);
        let (x, y) = (1 + k % inner_length(width), 1 + k / inner_length(width));
        lemma_place_in_grid(x, y, width, height);
        lemma_place_in_grid(x, y - 1, width, height);
        lemma_place_in_grid(x, y + 1, width, height);
        lemma_place_in_grid(x - 1, y, width, height);
        lemma_place_in_grid(x + 1, y, width, height);
        assert(inverted[y * width + x] == 255 - samples[y * width + x]);
        assert(inverted[(y - 1) * width + x] == 255 - samples[(y - 1) * width + x]);
        assert(inverted[(y + 1) * width + x] == 255 - samples[(y + 1) * width + x]);
        assert(inverted[y * width + (x - 1)] == 255 - samples[y * width + (x - 1)]);
        assert(inverted[y * width + (x + 1)] == 255 - samples[y * width + (x + 1)]);
    }
}

/// The pixel that a Laplacian belongs to has a neighbour on each side.
proof fn lemma_inner_place(k: int, width: int, height: int)
    requires
        width >= 0,
        height >= 0,
        0 <= k < inner_length(width) * inner_length(height),
    ensures
        0 <= k % inner_length(width) < width - 2,
        0 <= k / inner_length(width) < height - 2,
{
    let a = inner_length(width);
    let b = inner_length(height);
    assert(a > 0 && b > 0) by (nonlinear_arith)
        requires
            0 <= k < a * b,
            a >= 0,
            b >= 0,
    ;
    lemma_fundamental_div_mod(k, a);
    let (q, r) = (k / a, k % a);
    assert(0 <= q < b) by (nonlinear_arith)
        requires
            k == a * q + r,
            0 <= r < a,
            0 <= k < a * b,
    ;
}

/// Whether these can be the grey samples of the part `w` by `h` at (`x`, `y`) of an image, as far
/// as it lies in the image.
pub open spec fn patch_can_be(
    img: DynamicImage,
    x: u32,
    y: u32,
    w: u32,
    h: u32,
    grey: Seq<u8>,
) -> bool {
    can_be_luma8(
        part_pixels(
            image_pixels(img),
            image_width(img) as int,
            lesser(x as int, image_width(img) as int),
            lesser(y as int, image_height(img) as int),
            cropped_length(image_width(img), x, w),
            cropped_length(image_height(img), y, h),
        ),
        image_format(img),
        grey,
    )
}

/// The part of an image that a face takes up, in whole pixels: x, y, width, height. `room_x` and
/// `room_y` are the distances from the box's corner to the right and the lower edge of the image.
pub open spec fn face_part(bbox: &FaceBox, room_x: Single, room_y: Single) -> (int, int, int, int) {
    (
        bbox.x.whole_part(),
        bbox.y.whole_part(),
        bbox.width.lesser_of(room_x).whole_part(),
        bbox.height.lesser_of(room_y).whole_part(),
    )
}

/// Whether `values` are the Laplacians of the part of an image that a face takes up. `None` where
/// the part is too small to tell anything: less than three pixels on a side, or fewer than two
/// Laplacians.
pub open spec fn blur_values(
    img: DynamicImage,
    bbox: &FaceBox,
    room_x: Single,
    room_y: Single,
    values: Option<Vec<i16>>,
) -> bool {
    let (x, y, w, h) = face_part(bbox, room_x, room_y);
    let pw = cropped_length(image_width(img), x as u32, w as u32);
    let ph = cropped_length(image_height(img), y as u32, h as u32);
    &&& values is None <==> w < 3 || h < 3 || inner_length(pw) * inner_length(ph) < 2
    &&& values matches Some(found) ==> exists|grey: Seq<u8>|
        #[trigger] patch_can_be(img, x as u32, y as u32, w as u32, h as u32, grey) && grey.len()
            == pw * ph && are_laplacians(found@, grey, pw, ph)
}

/// Whether the part of an image that a face takes up has edges, or is too small to be looked at. A
/// part that begins outside the image has none.
pub open spec fn part_has_edges(img: DynamicImage, bbox: &FaceBox, room_x: Single, room_y: Single) -> bool {
    let (x, y, w, h) = face_part(bbox, room_x, room_y);
    w >= 3 && h >= 3 ==> has_edges(
        cropped_length(image_width(img), x as u32, w as u32),
        cropped_length(image_height(img), y as u32, h as u32),
    )
}

/// Only where a face lies counts for how sharp it is, not how sure the network is of it nor where
/// its facial points are.
pub proof fn law_only_place_counts(
    img: DynamicImage,
    one: FaceBox,
    other: FaceBox,
    room_x: Single,
    room_y: Single,
    values: Option<Vec<i16>>,
)
    requires
        one.x == other.x,
        one.y == other.y,
        one.width == other.width,
        one.height == other.height,
    ensures
        part_has_edges(img, &one, room_x, room_y) == part_has_edges(img, &other, room_x, room_y),
        blur_values(img, &one, room_x, room_y, values) == blur_values(
            img,
            &other,
            room_x,
            room_y,
            values,
        ),
{
}

/// The Laplacians of the part of an image that a face takes up, whose variance is the blur score
/// of the face. Where there is too little to tell anything the score is 0.
pub fn blur_laplacians(img: &DynamicImage, bbox: &FaceBox, room_x: Single, room_y: Single) -> (values:
    Option<Vec<i16>>)
    requires
        part_has_edges(*img, bbox, room_x, room_y),
    ensures
        blur_values(*img, bbox, room_x, room_y, values),
{
    let x = bbox.x.whole();
    let y = bbox.y.whole();
    let w = bbox.width.lesser(&room_x).whole();
    let h = bbox.height.lesser(&room_y).whole();
    if w < 3 || h < 3 {
        return None;
    }
    let part = crop_imm(img, x, y, w, h);
    let grid = gray_pixels(&part);
    assert(patch_can_be(*img, x, y, w, h, grid.samples@));
    let values = laplacians(&grid);
    if values.len() < 2 {
        None
    } else {
        Some(values)
    }
}

/// The Laplacians of the part of an image that a face takes up, if they can be had: the outer
/// `None` says that the part has no edges.
pub fn checked_blur_laplacians(
    img: &DynamicImage,
    bbox: &FaceBox,
    room_x: Single,
    room_y: Single,
) -> (values: Option<Option<Vec<i16>>>)
    ensures
        values is Some <==> part_has_edges(*img, bbox, room_x, room_y),
        values matches Some(inner) ==> blur_values(*img, bbox, room_x, room_y, inner),
{
    let w = bbox.width.lesser(&room_x).whole();
    let h = bbox.height.lesser(&room_y).whole();
    let (x, y) = (bbox.x.whole(), bbox.y.whole());
    let (width, height) = (width_of(img), height_of(img));
    if w < 3 || h < 3 || (y < height && (x < width || height - y < 3)) {
        Some(blur_laplacians(img, bbox, room_x, room_y))
    } else {
        None
    }
}

/// There is one Laplacian to each pixel that is not on an edge, row by row, and it is the sum of the
/// four neighbours of the pixel less four times the pixel.
pub proof fn law_laplacians_of_inner_pixels(
    values: Seq<i16>,
    samples: Seq<u8>,
    width: int,
    height: int,
    x: int,
    y: int,
)
    requires
        width >= 0,
        height >= 0,
        are_laplacians(values, samples, width, height),
    ensures
        width >= 2 && height >= 2 ==> values.len() == (width - 2) * (height - 2),
        width < 2 || height < 2 ==> values.len() == 0,
        1 <= x < width - 1 && 1 <= y < height - 1 ==> {
            &&& 0 <= (y - 1) * (width - 2) + (x - 1) < values.len()
            &&& values[(y - 1) * (width - 2) + (x - 1)] == samples[(y - 1) * width + x] + samples[(y
                + 1) * width + x] + samples[y * width + x - 1] + samples[y * width + x + 1] - 4
                * samples[y * width + x]
        },
{
    if width < 2 || height < 2 {
        assert(inner_length(width) * inner_length(height) == 0) by (nonlinear_arith)
            requires
                inner_length(width) == 0 || inner_length(height) == 0,
        ;
    }
    if 1 <= x < width - 1 && 1 <= y < height - 1 {
        let inner = width - 2;
        lemma_place_in_grid(x - 1, y - 1, inner, height - 2);
        lemma_fundamental_div_mod_converse((y - 1) * inner + (x - 1), inner, y - 1, x - 1);
        let k = (y - 1) * inner + (x - 1);
        assert(values[k] == laplacian_at(samples, width, 1 + k % inner, 1 + k / inner));
    }
}

/// The part that a face takes up begins at the pixel that its corner lies in, and is as large as its
/// box in whole pixels, but not larger than the room to the edge of the image.
pub proof fn law_part_is_the_box(bbox: FaceBox, room_x: Single, room_y: Single)
    requires
        !bbox.width.nan() && !bbox.height.nan() && !room_x.nan() && !room_y.nan(),
    ensures
        ({
            let (x, y, w, h) = face_part(&bbox, room_x, room_y);
            &&& x == bbox.x.whole_part() && y == bbox.y.whole_part()
            &&& w <= bbox.width.whole_part() && w <= room_x.whole_part()
            &&& w == bbox.width.whole_part() || w == room_x.whole_part()
            &&& h <= bbox.height.whole_part() && h <= room_y.whole_part()
            &&& h == bbox.height.whole_part() || h == room_y.whole_part()
        }),
{
    crate::single::law_rounding_keeps_order(
        bbox.width.lesser_of(room_x),
        bbox.width,
    );
    crate::single::law_rounding_keeps_order(bbox.width.lesser_of(room_x), room_x);
    crate::single::law_rounding_keeps_order(
        bbox.height.lesser_of(room_y),
        bbox.height,
    );
    crate::single::law_rounding_keeps_order(bbox.height.lesser_of(room_y), room_y);
}

/// How sharp a face is, is told from exactly the pixels of its part of the image: all Laplacians of
/// their grey (see `law_laplacians_of_inner_pixels`). `w` by `h` is the part at its corner as far as
/// it lies in the image, and `cut` its pixels. A part of less than three pixels on a side, or with a
/// single inner pixel, tells nothing.
pub proof fn law_sharpness_of_the_part(
    img: DynamicImage,
    bbox: FaceBox,
    room_x: Single,
    room_y: Single,
    values: Option<Vec<i16>>,
    w: int,
    h: int,
    cut: Seq<Seq<u32>>,
)
    requires
        blur_values(img, &bbox, room_x, room_y, values),
        bbox.x.whole_part() <= image_width(img),
        bbox.y.whole_part() <= image_height(img),
        w == lesser(
            bbox.width.lesser_of(room_x).whole_part(),
            image_width(img) - bbox.x.whole_part(),
        ),
        h == lesser(
            bbox.height.lesser_of(room_y).whole_part(),
            image_height(img) - bbox.y.whole_part(),
        ),
        cut.len() == w * h,
        forall|k: int|
            0 <= k < cut.len() ==> #[trigger] cut[k] == image_pixels(img)[(bbox.y.whole_part() + k
                / w) * image_width(img) + (bbox.x.whole_part() + k % w)],
    ensures
        values is None <==> w < 3 || h < 3 || (w == 3 && h == 3),
        values matches Some(found) ==> exists|grey: Seq<u8>|
            #[trigger] can_be_luma8(cut, image_format(img), grey) && grey.len() == w * h
                && are_laplacians(found@, grey, w, h),
{
    let (x, y, part_w, part_h) = face_part(&bbox, room_x, room_y);
    crate::single::law_whole_part_is_floor(bbox.x);
    crate::single::law_whole_part_is_floor(bbox.y);
    crate::single::law_whole_part_is_floor(bbox.width.lesser_of(room_x));
    crate::single::law_whole_part_is_floor(bbox.height.lesser_of(room_y));
    assert(cropped_length(image_width(img), x as u32, part_w as u32) == w);
    assert(cropped_length(image_height(img), y as u32, part_h as u32) == h);
    let (a, b) = (inner_length(w), inner_length(h));
    assert(a * b < 2 <==> w < 3 || h < 3 || (w == 3 && h == 3)) by (nonlinear_arith)
        requires
            w >= 0,
            h >= 0,
            a == (if w >= 2 {
                w - 2
            } else {
                0
            }),
            b == (if h >= 2 {
                h - 2
            } else {
                0
            }),
    ;
    if let Some(found) = values {
        let grey = choose|grey: Seq<u8>|
            #[trigger] patch_can_be(img, x as u32, y as u32, part_w as u32, part_h as u32, grey)
                && grey.len() == w * h && are_laplacians(found@, grey, w, h);
        assert(part_pixels(image_pixels(img), image_width(img) as int, x, y, w, h) =~= cut);
        assert(can_be_luma8(cut, image_format(img), grey));
    }
}

/// A part that begins inside the image can be looked at.
pub proof fn law_part_inside_has_edges(img: DynamicImage, bbox: FaceBox, room_x: Single, room_y: Single)
    requires
        bbox.x.whole_part() < image_width(img),
        bbox.y.whole_part() < image_height(img),
    ensures
        part_has_edges(img, &bbox, room_x, room_y),
{
    crate::single::law_whole_part_is_floor(bbox.x);
    crate::single::law_whole_part_is_floor(bbox.y);
    crate::single::law_whole_part_is_floor(bbox.width.lesser_of(room_x));
    crate::single::law_whole_part_is_floor(bbox.height.lesser_of(room_y));
}

/// What a grid needs to have its inner pixels told from its edges: a row, and where it has three rows
/// or more, a column.
pub proof fn law_edges_by_size(width: int, height: int)
    ensures
        has_edges(width, height) <==> height >= 1 && (width >= 1 || height <= 2),
{
}

/// A face whose part begins behind the right or the lower edge of the image tells nothing.
pub proof fn law_part_outside_tells_nothing(
    img: DynamicImage,
    bbox: FaceBox,
    room_x: Single,
    room_y: Single,
    values: Option<Vec<i16>>,
)
    requires
        blur_values(img, &bbox, room_x, room_y, values),
        bbox.x.whole_part() >= image_width(img) || bbox.y.whole_part() >= image_height(img),
    ensures
        values is None,
{
    let (x, y, w, h) = face_part(&bbox, room_x, room_y);
    crate::single::law_whole_part_is_floor(bbox.x);
    crate::single::law_whole_part_is_floor(bbox.y);
    crate::single::law_whole_part_is_floor(bbox.width.lesser_of(room_x));
    crate::single::law_whole_part_is_floor(bbox.height.lesser_of(room_y));
    let a = inner_length(cropped_length(image_width(img), x as u32, w as u32));
    let b = inner_length(cropped_length(image_height(img), y as u32, h as u32));
    assert(a * b == 0) by (nonlinear_arith)
        requires
            a == 0 || b == 0,
    ;
}

} // verus!
