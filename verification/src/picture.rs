//! Photos and pixel grids: what the library asks of the `image` crate, and the plain pixels it
//! works on.
use crate::formats::{may_decode, may_panic};
use image::DynamicImage;
use vstd::prelude::*;

verus! {

/// `image::DynamicImage`: a rectangle of pixels in one of several colour formats.
#[verifier::external_type_specification]
#[verifier::external_body]
pub struct ExDynamicImage(image::DynamicImage);

/// The pixels of an image, row by row from the top and each row from the left; a pixel is its
/// samples in the order of the image's colour format, floating-point samples by bit pattern and
/// every NaN by the same one.
pub uninterp spec fn image_pixels(img: DynamicImage) -> Seq<Seq<u32>>;

/// How many pixels a row of an image has.
pub uninterp spec fn image_width(img: DynamicImage) -> u32;

/// How many rows an image has.
pub uninterp spec fn image_height(img: DynamicImage) -> u32;

/// The colour type of an image together with its colour-space annotation, as one number.
pub uninterp spec fn image_format(img: DynamicImage) -> u32;

/// The 8-bit RGB samples of pixels in a colour format, three to a pixel.
pub uninterp spec fn rgb8_samples(pixels: Seq<Seq<u32>>, format: u32) -> Seq<u8>;

/// Whether these can be the 8-bit grey samples of pixels in a colour format, one to a pixel. Grey
/// is a weighted sum of the colours that some machines round once and others twice, so a colour
/// can have more than one grey.
pub uninterp spec fn can_be_luma8(pixels: Seq<Seq<u32>>, format: u32, samples: Seq<u8>) -> bool;

/// The pixels of an image of `width` by `height` resampled with the triangle filter to
/// `new_width` by `new_height`.
pub uninterp spec fn resampled_pixels(
    pixels: Seq<Seq<u32>>,
    format: u32,
    width: u32,
    height: u32,
    new_width: u32,
    new_height: u32,
) -> Seq<Seq<u32>>;

/// The largest side that this library asks an image to be resized to.
pub const MAX_RESIZED_SIDE: u32 = 640;

/// Whether the 8-bit RGB samples of an image can be addressed: three bytes to a pixel.
pub open spec fn convertible(img: DynamicImage) -> bool {
    3 * (image_width(img) * image_height(img)) <= isize::MAX
}

/// Whether what resizing an image takes can be addressed: the height is changed first, into a
/// buffer with sixteen bytes to a pixel.
pub open spec fn resizable(width: u32, new_height: u32) -> bool {
    16 * (width * new_height) <= isize::MAX
}

/// What an image holds: its width, its height, its colour format and its pixels.
pub open spec fn contents(img: DynamicImage) -> (u32, u32, u32, Seq<Seq<u32>>) {
    (image_width(img), image_height(img), image_format(img), image_pixels(img))
}

/// Whether `image::load_from_memory` can make this of the bytes: an image with these contents, or a
/// failure with this `Display` text. Besides the bytes, the format-detection and decoding hooks
/// registered in the process decide; what can be made of the bytes is what some choice of hooks
/// makes of them.
pub uninterp spec fn can_load(
    bytes: Seq<u8>,
    outcome: Result<(u32, u32, u32, Seq<Seq<u32>>), Seq<char>>,
) -> bool;

/// `image::load_from_memory`: an image made of the bytes, or the `Display` text of the failure to
/// make one of them. The hooks registered in the process decide too, so it is left unsaid which of
/// the outcomes that the bytes allow comes back, and when it is a failure. Bytes on which a decoder
/// of the crate may panic are left out; that a registered hook panics is not excluded.
#[verifier::external_body]
fn load_from_memory(bytes: &[u8]) -> (outcome: Result<DynamicImage, String>)
    requires
        !may_panic(bytes@),
    ensures
        match outcome {
            Ok(img) => can_load(bytes@, Ok(contents(img))),
            Err(text) => can_load(bytes@, Err(text@)),
        },
{
    match image::load_from_memory(bytes) {
        Ok(img) => Ok(img),
        Err(error) => Err(error.to_string()),
    }
}

/// `image::DynamicImage::width`: the number of pixels in a row.
#[verifier::external_body]
pub(crate) fn width_of(img: &DynamicImage) -> (width: u32)
    ensures
        width == image_width(*img),
{
    img.width()
}

/// `image::DynamicImage::height`: the number of rows.
#[verifier::external_body]
pub(crate) fn height_of(img: &DynamicImage) -> (height: u32)
    ensures
        height == image_height(*img),
{
    img.height()
}

/// `image::DynamicImage::to_rgb8`, then the raw samples of the copy. The samples of the pixels
/// come first; an image built on an oversized buffer carries the surplus after them.
#[verifier::external_body]
pub(crate) fn to_rgb8(img: &DynamicImage) -> (samples: Vec<u8>)
    requires
        convertible(*img),
    ensures
        samples@.len() >= 3 * (image_width(*img) * image_height(*img)),
        samples@.take(3 * (image_width(*img) * image_height(*img))) == rgb8_samples(
            image_pixels(*img),
            image_format(*img),
        ),
{
    img.to_rgb8().into_raw()
}

/// `image::DynamicImage::to_luma8`, then the raw samples of the copy, as for `to_rgb8`. How the
/// sums behind the samples are rounded depends on the machine, so it is left unsaid which of the
/// greys that the pixels can have come back.
#[verifier::external_body]
pub(crate) fn to_luma8(img: &DynamicImage) -> (samples: Vec<u8>)
    ensures
        samples@.len() >= image_width(*img) * image_height(*img),
        can_be_luma8(
            image_pixels(*img),
            image_format(*img),
            samples@.take(image_width(*img) * image_height(*img)),
        ),
{
    img.to_luma8().into_raw()
}

/// `image::DynamicImage::resize_exact` with the triangle filter: an image of exactly the size
/// asked for, in the same colour format.
#[verifier::external_body]
pub(crate) fn resize_exact(img: &DynamicImage, new_width: u32, new_height: u32) -> (resized:
    DynamicImage)
    requires
        new_width <= MAX_RESIZED_SIDE,
        new_height <= MAX_RESIZED_SIDE,
        resizable(image_width(*img), new_height),
    ensures
        image_width(resized) == new_width,
        image_height(resized) == new_height,
        image_format(resized) == image_format(*img),
        image_pixels(resized) == resampled_pixels(
            image_pixels(*img),
            image_format(*img),
            image_width(*img),
            image_height(*img),
            new_width,
            new_height,
        ),
{
    img.resize_exact(new_width, new_height, image::imageops::FilterType::Triangle)
}

/// The pixels of the part `width` by `height` at (`x`, `y`) of an image whose rows are
/// `row_length` long.
pub open spec fn part_pixels(
    pixels: Seq<Seq<u32>>,
    row_length: int,
    x: int,
    y: int,
    width: int,
    height: int,
) -> Seq<Seq<u32>> {
    Seq::new(
        (width * height) as nat,
        |k: int| pixels[(y + k / width) * row_length + (x + k % width)],
    )
}

/// The lesser of two numbers.
pub open spec fn lesser(a: int, b: int) -> int {
    if a <= b {
        a
    } else {
        b
    }
}

/// The width that is left of a crop of `width` at `x` in an image `whole` wide; heights alike.
pub open spec fn cropped_length(whole: u32, x: u32, width: u32) -> int {
    lesser(width as int, whole - lesser(x as int, whole as int))
}

/// `image::DynamicImage::crop_imm`: a copy of a part of an image, in the same colour format. What
/// reaches over the right or the lower edge is cut off.
#[verifier::external_body]
pub(crate) fn crop_imm(img: &DynamicImage, x: u32, y: u32, width: u32, height: u32) -> (part:
    DynamicImage)
    ensures
        image_width(part) == cropped_length(image_width(*img), x, width),
        image_height(part) == cropped_length(image_height(*img), y, height),
        image_format(part) == image_format(*img),
        image_pixels(part) == part_pixels(
            image_pixels(*img),
            image_width(*img) as int,
            lesser(x as int, image_width(*img) as int),
            lesser(y as int, image_height(*img) as int),
            cropped_length(image_width(*img), x, width),
            cropped_length(image_height(*img), y, height),
        ),
{
    img.crop_imm(x, y, width, height)
}

/// Prefixes the message of a failure with what was being done.
pub fn explain<T>(doing: &str, outcome: Result<T, String>) -> (explained: Result<T, String>)
    ensures
        match outcome {
            Ok(value) => explained == Ok::<T, String>(value),
            Err(reason) => explained is Err && explained->Err_0@ == doing@ + ": "@ + reason@,
        },
{
    match outcome {
        Ok(value) => Ok(value),
        Err(reason) => {
            let mut message = String::from_str(doing);
            message.append(": ");
            message.append(reason.as_str());
            Err(message)
        },
    }
}

/// What decoding bytes comes to: what loading made of exactly these bytes, a failure with what was
/// being done in front of its text.
pub open spec fn is_decoded(bytes: Seq<u8>, decoded: Result<DynamicImage, String>) -> bool {
    match decoded {
        Ok(img) => can_load(bytes, Ok(contents(img))),
        Err(message) => exists|text: Seq<char>| #[trigger]
            can_load(bytes, Err(text)) && message@ == "Failed to load image from memory"@ + ": "@
                + text,
    }
}

/// Decodes an image that is held in memory, its format told from its first bytes. A panic in a
/// registered hook of the `image` crate is passed on.
pub fn decode_image(bytes: &[u8]) -> (decoded: Result<DynamicImage, String>)
    requires
        !may_panic(bytes@),
    ensures
        is_decoded(bytes@, decoded),
{
    explain("Failed to load image from memory", load_from_memory(bytes))
}

/// Decodes an image that is held in memory, unless a decoder may panic on it: then `None`.
pub fn checked_decode_image(bytes: &[u8]) -> (decoded: Option<Result<DynamicImage, String>>)
    ensures
        decoded is Some <==> !may_panic(bytes@),
        decoded matches Some(outcome) ==> is_decoded(bytes@, outcome),
{
    if may_decode(bytes) {
        Some(decode_image(bytes))
    } else {
        None
    }
}

proof fn lemma_area(width: u32, height: u32)
    ensures
        0 <= width * height <= 0xFFFF_FFFF * 0xFFFF_FFFF,
{
    assert(0 <= width * height <= 0xFFFF_FFFF * 0xFFFF_FFFF) by (nonlinear_arith)
        requires
            0 <= width <= 0xFFFF_FFFF,
            0 <= height <= 0xFFFF_FFFF,
    ;
}

/// Whether the RGB samples of an image can be had on this machine.
pub fn is_convertible(img: &DynamicImage) -> (answer: bool)
    ensures
        answer == convertible(*img),
{
    let (width, height) = (width_of(img), height_of(img));
    proof {
        lemma_area(width, height);
    }
    3 * (width as u128 * height as u128) <= isize::MAX as u128
}

/// Whether an image `width` wide can be resized to `new_height` rows on this machine.
pub fn is_resizable(width: u32, new_height: u32) -> (answer: bool)
    ensures
        answer == resizable(width, new_height),
{
    proof {
        lemma_area(width, new_height);
    }
    16 * (width as u128 * new_height as u128) <= isize::MAX as u128
}

/// A grid of 8-bit RGB pixels.
pub struct RgbPixels {
    pub width: u32,
    pub height: u32,
    pub samples: Vec<u8>,
}

impl RgbPixels {
    /// The grid holds three samples to a pixel, row by row.
    pub open spec fn wf(&self) -> bool {
        self.samples@.len() == 3 * (self.width * self.height)
    }
}

/// One sample (0 red, 1 green, 2 blue) of the pixel in column `x` of row `y` of RGB samples with
/// `width` pixels to a row.
pub open spec fn rgb_sample(samples: Seq<u8>, width: int, x: int, y: int, channel: int) -> u8 {
    samples[3 * (y * width + x) + channel]
}

/// A grid of 8-bit grey pixels.
pub struct GrayPixels {
    pub width: u32,
    pub height: u32,
    pub samples: Vec<u8>,
}

impl GrayPixels {
    /// The grid holds one sample to a pixel, row by row.
    pub open spec fn wf(&self) -> bool {
        self.samples@.len() == self.width * self.height
    }
}

/// A place inside a grid lies inside its row-by-row layout.
pub proof fn lemma_place_in_grid(x: int, y: int, width: int, height: int)
    requires
        0 <= x < width,
        0 <= y < height,
    ensures
        0 <= y * width + x < width * height,
        0 <= y * width,
{
    assert(0 <= y * width + x < width * height && 0 <= y * width) by (nonlinear_arith)
        requires
            0 <= x < width,
            0 <= y < height,
    ;
}

/// The pixels of an image as 8-bit RGB.
pub(crate) fn rgb_pixels(img: &DynamicImage) -> (grid: RgbPixels)
    requires
        convertible(*img),
    ensures
        grid.wf(),
        grid.width == image_width(*img),
        grid.height == image_height(*img),
        grid.samples@ == rgb8_samples(image_pixels(*img), image_format(*img)),
{
    let width = width_of(img);
    let height = height_of(img);
    let mut samples = to_rgb8(img);
    proof {
        lemma_area(width, height);
    }
    samples.truncate(3 * (width as usize * height as usize));
    RgbPixels { width, height, samples }
}

/// The pixels of an image as 8-bit grey.
pub(crate) fn gray_pixels(img: &DynamicImage) -> (grid: GrayPixels)
    ensures
        grid.wf(),
        grid.width == image_width(*img),
        grid.height == image_height(*img),
        can_be_luma8(image_pixels(*img), image_format(*img), grid.samples@),
{
    let width = width_of(img);
    let height = height_of(img);
    let mut samples = to_luma8(img);
    let count = samples.len();
    proof {
        lemma_area(width, height);
        assert(width * height <= count);
    }
    samples.truncate(width as usize * height as usize);
    GrayPixels { width, height, samples }
}

/// What comes of decoding is what can be made of exactly these bytes: an image with that size, format
/// and those pixels, or a message that gives the reason after what was being done.
pub proof fn law_decoded_from_the_bytes(bytes: Seq<u8>, decoded: Result<DynamicImage, String>)
    requires
        is_decoded(bytes, decoded),
    ensures
        match decoded {
            Ok(img) => can_load(
                bytes,
                Ok((image_width(img), image_height(img), image_format(img), image_pixels(img))),
            ),
            Err(message) => exists|text: Seq<char>| #[trigger]
                can_load(bytes, Err(text)) && message@ == "Failed to load image from memory: "@ + text,
        },
{
    reveal_strlit("Failed to load image from memory");
    reveal_strlit(": ");
    reveal_strlit("Failed to load image from memory: ");
    assert("Failed to load image from memory"@ + ": "@ =~= "Failed to load image from memory: "@);
}

/// Images are refused for their size only where a buffer could not be addressed: three bytes to a
/// pixel for converting, sixteen to a pixel of the new height for resizing.
pub proof fn law_refused_for_size_only(img: DynamicImage, width: u32, new_height: u32)
    ensures
        convertible(img) <==> 3 * (image_width(img) * image_height(img)) <= isize::MAX,
        resizable(width, new_height) <==> 16 * (width * new_height) <= isize::MAX,
{
}

/// What is left of a length that is cut off at the edge: all of it where it fits, up to the edge
/// where it does not, and nothing behind the edge.
pub proof fn law_cut_at_the_edge(whole: u32, x: u32, width: u32)
    ensures
        x + width <= whole ==> cropped_length(whole, x, width) == width,
        x <= whole < x + width ==> cropped_length(whole, x, width) == whole - x,
        whole < x ==> cropped_length(whole, x, width) == 0,
{
}

} // verus!
