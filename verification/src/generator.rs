//! The pixel buffer generator.
//!
//! A buffer holds one surface as RGBA bytes, four to a pixel, row after row
//! from the top left. Both kinds of buffer are gray: the three colour bytes
//! of a pixel are equal. Noise gives every pixel a random gray level. The
//! flat pattern fills the surface with one level of a fixed palette, picked
//! by the index of the surface, and strokes the diagonal from the top left
//! corner to the bottom right one.

use rand::Rng;
use vstd::arithmetic::div_mod::lemma_fundamental_div_mod_converse;
use vstd::prelude::*;

verus! {

/// The number of bytes of a pixel.
pub const BYTES_PER_PIXEL: usize = 4;

/// The alpha byte of every pixel of a noise buffer.
pub const NOISE_ALPHA: u8 = 200;

/// The alpha byte of every pixel of a flat buffer.
pub const OPAQUE_ALPHA: u8 = 255;

/// The number of gray levels in the palette.
pub const PALETTE_SIZE: usize = 19;

/// The darkest level of the palette.
pub const PALETTE_FIRST: u8 = 70;

/// The distance between two neighbouring levels of the palette.
pub const PALETTE_STEP: u8 = 10;

/// The level of the stroked diagonal.
pub const STROKE_LEVEL: u8 = 0;

/// Why no buffer was generated.
#[derive(Clone, Copy, Debug, PartialEq, Eq, Structural)]
pub enum GenerateError {
    /// The width or the height is zero.
    EmptySurface,
    /// The buffer would hold more bytes than a `usize` counts.
    TooLarge,
}

/// The gray level at place `slot` of the palette: from 70 in steps of 10 up
/// to 250.
pub open spec fn palette_level(slot: int) -> u8 {
    (PALETTE_FIRST + PALETTE_STEP * slot) as u8
}

/// The gray level that the flat pattern of surface `index` is filled with:
/// the palette is walked round and round.
pub open spec fn flat_level(index: int) -> u8 {
    palette_level(index % PALETTE_SIZE as int)
}

/// Whether the diagonal of a `width` by `height` surface runs through the
/// pixel in column `x` and row `y`: the line from the top left corner to the
/// bottom right one crosses the inside of the pixel's square.
pub open spec fn on_diagonal(width: int, height: int, x: int, y: int) -> bool {
    x * height < (y + 1) * width && y * width < (x + 1) * height
}

/// The gray level of every pixel of the flat pattern, row after row.
pub open spec fn flat_levels(width: int, height: int, index: int) -> Seq<u8> {
    Seq::new(
        (width * height) as nat,
        |p: int|
            if on_diagonal(width, height, p % width, p / width) {
                STROKE_LEVEL
            } else {
                flat_level(index)
            },
    )
}

/// The RGBA bytes of gray pixels: pixel `k` has the level `levels[k]` in its
/// three colour bytes and `alpha` in its fourth byte.
pub open spec fn gray_pixels(levels: Seq<u8>, alpha: u8) -> Seq<u8> {
    Seq::new(
        4 * levels.len(),
        |i: int|
            if i % 4 == 3 {
                alpha
            } else {
                levels[i / 4]
            },
    )
}

/// Whether `buffer` holds `pixels` gray pixels with the alpha byte `alpha`:
/// it is four bytes to the pixel long, the bytes at `4k`, `4k + 1` and
/// `4k + 2` are equal, and the byte at `4k + 3` is `alpha`.
pub open spec fn is_gray_buffer(buffer: Seq<u8>, pixels: nat, alpha: u8) -> bool {
    &&& buffer.len() == 4 * pixels
    &&& forall|k: int|
        0 <= k < pixels ==> {
            &&& #[trigger] buffer[4 * k] == buffer[4 * k + 1]
            &&& buffer[4 * k] == buffer[4 * k + 2]
            &&& buffer[4 * k + 3] == alpha
        }
}

/// Whether a buffer can be generated for a `width` by `height` surface: the
/// surface has pixels, and a `usize` counts the bytes of its buffer.
pub open spec fn can_generate(width: u32, height: u32) -> bool {
    width > 0 && height > 0 && 4 * (width * height) <= usize::MAX
}

/// Whether `buffer` is a buffer that `generate` may give for these arguments:
/// gray noise of any levels, or the one flat pattern of surface `index`.
pub open spec fn is_generated(buffer: Seq<u8>, width: u32, height: u32, noise: bool, index: usize) -> bool {
    &&& buffer.len() == 4 * (width * height)
    &&& noise ==> is_gray_buffer(buffer, (width * height) as nat, NOISE_ALPHA)
    &&& !noise ==> buffer == gray_pixels(
        flat_levels(width as int, height as int, index as int),
        OPAQUE_ALPHA,
    )
}

/// Every buffer of gray pixels is a gray buffer, with the levels it was made
/// of in its colour bytes.
pub proof fn lemma_gray_pixels_are_gray(levels: Seq<u8>, alpha: u8)
    ensures
        is_gray_buffer(gray_pixels(levels, alpha), levels.len(), alpha),
        forall|k: int| 0 <= k < levels.len() ==> #[trigger] gray_pixels(levels, alpha)[4 * k] == levels[k],
{
}

/// One more pixel adds its four bytes at the end of the buffer.
pub proof fn lemma_gray_pixels_push(levels: Seq<u8>, level: u8, alpha: u8)
    ensures
        gray_pixels(levels.push(level), alpha) == gray_pixels(levels, alpha) + seq![
            level,
            level,
            level,
            alpha,
        ],
{
    assert(gray_pixels(levels.push(level), alpha) =~= gray_pixels(levels, alpha) + seq![
        level,
        level,
        level,
        alpha,
    ]);
}

/// In a flat buffer the pixel in column `x` and row `y` is opaque, has the
/// stroke level where the diagonal runs through it, and anywhere else the
/// palette level of the surface's index, which depends on the index alone.
pub proof fn lemma_flat_pixel(width: int, height: int, index: int, x: int, y: int)
    requires
        0 <= x < width,
        0 <= y < height,
        0 <= index,
    ensures
        ({
            let buffer = gray_pixels(flat_levels(width, height, index), OPAQUE_ALPHA);
            let p = y * width + x;
            let level = if on_diagonal(width, height, x, y) {
                STROKE_LEVEL
            } else {
                palette_level(index % PALETTE_SIZE as int)
            };
            &&& 0 <= p < width * height
            &&& buffer.len() == 4 * (width * height)
            &&& buffer[4 * p] == level
            &&& buffer[4 * p + 1] == level
            &&& buffer[4 * p + 2] == level
            &&& buffer[4 * p + 3] == OPAQUE_ALPHA
        }),
{
    lemma_pixel_place(width, height, x, y);
}

/// The pixel in column `x` and row `y` stands at place `y * width + x`, and
/// that place gives the column and the row back.
proof fn lemma_pixel_place(width: int, height: int, x: int, y: int)
    requires
        0 <= x < width,
        0 <= y < height,
    ensures
        0 <= y * width + x < width * height,
        (y * width + x) % width == x,
        (y * width + x) / width == y,
{
    assert(0 <= y * width && (y + 1) * width <= height * width) by (nonlinear_arith)
        requires
            0 <= y < height,
            0 < width,
    ;
    assert((y + 1) * width == y * width + width) by (nonlinear_arith);
    assert(height * width == width * height) by (nonlinear_arith);
    lemma_fundamental_div_mod_converse(y * width + x, width, y, x);
}

/// The palette level for surface `index`.
pub fn palette_color(index: usize) -> (level: u8)
    ensures
        level == flat_level(index as int),
        level == PALETTE_FIRST + PALETTE_STEP * (index % PALETTE_SIZE),
        PALETTE_FIRST <= level <= 250,
{
    let slot: usize = index % PALETTE_SIZE;
    let slot_byte: u8 = slot as u8;
    PALETTE_FIRST + PALETTE_STEP * slot_byte
}

/// Whether the diagonal runs through the pixel in column `x` and row `y`.
pub fn pixel_on_diagonal(width: u32, height: u32, x: u32, y: u32) -> (on: bool)
    ensures
        on == on_diagonal(width as int, height as int, x as int, y as int),
{
    let w: u64 = width as u64;
    let h: u64 = height as u64;
    let x: u64 = x as u64;
    let y: u64 = y as u64;
    assert(x * h <= 0xffff_ffff * 0xffff_ffff && (y + 1) * w <= 0x1_0000_0000 * 0xffff_ffff && y * w
        <= 0xffff_ffff * 0xffff_ffff && (x + 1) * h <= 0x1_0000_0000 * 0xffff_ffff)
        by (nonlinear_arith)
        requires
            x <= 0xffff_ffff,
            y <= 0xffff_ffff,
            w <= 0xffff_ffff,
            h <= 0xffff_ffff,
    ;
    x * h < (y + 1) * w && y * w < (x + 1) * h
}

/// The number of pixels of a `width` by `height` surface, where the buffer
/// for them has a length that a `usize` counts.
pub fn checked_pixel_count(width: u32, height: u32) -> (count: Option<usize>)
    ensures
        count == if 4 * (width * height) <= usize::MAX {
            Some((width * height) as usize)
        } else {
            None::<usize>
        },
{
    let w: u64 = width as u64;
    let h: u64 = height as u64;
    assert(w * h <= 0xffff_ffff * 0xffff_ffff) by (nonlinear_arith)
        requires
            w <= 0xffff_ffff,
            h <= 0xffff_ffff,
    ;
    let pixels: u64 = w * h;
    let limit: u64 = (usize::MAX / BYTES_PER_PIXEL) as u64;
    if pixels > limit {
        None
    } else {
        Some(pixels as usize)
    }
}

/// Turns gray levels into RGBA bytes: for every level three colour bytes of
/// that level and the alpha byte `alpha`.
pub fn gray_buffer(levels: &Vec<u8>, alpha: u8) -> (buffer: Vec<u8>)
    ensures
        buffer@ == gray_pixels(levels@, alpha),
{
    let mut buffer: Vec<u8> = Vec::new();
    let mut k: usize = 0;
    while k < levels.len()
        invariant
            k <= levels@.len(),
            buffer@ == gray_pixels(levels@.take(k as int), alpha),
        decreases levels@.len() - k,
    {
        let level: u8 = levels[k];
        proof {
            lemma_gray_pixels_push(levels@.take(k as int), level, alpha);
            assert(levels@.take(k as int).push(level) =~= levels@.take(k + 1));
        }
        buffer.push(level);
        buffer.push(level);
        buffer.push(level);
        buffer.push(alpha);
        k = k + 1;
    }
    assert(levels@.take(k as int) =~= levels@);
    buffer
}

/// The gray levels of the flat pattern for surface `index`.
pub fn render_flat_levels(width: u32, height: u32, index: usize) -> (levels: Vec<u8>)
    requires
        width * height <= usize::MAX,
    ensures
        levels@ == flat_levels(width as int, height as int, index as int),
{
    let fill: u8 = palette_color(index);
    let ghost all = flat_levels(width as int, height as int, index as int);
    let mut levels: Vec<u8> = Vec::new();
    if width == 0 || height == 0 {
        assert(width * height == 0) by (nonlinear_arith)
            requires
                width == 0 || height == 0,
        ;
        assert(levels@ =~= all);
        return levels;
    }
    let mut x: u32 = 0;
    let mut y: u32 = 0;
    while y < height
        invariant
            0 < width,
            0 < height,
            y <= height,
            x < width,
            y == height ==> x == 0,
            fill == flat_level(index as int),
            all == flat_levels(width as int, height as int, index as int),
            levels@ == all.take(y * width + x),
        decreases (height - y) * width - x,
    {
        proof {
            lemma_pixel_place(width as int, height as int, x as int, y as int);
        }
        let level: u8 = if pixel_on_diagonal(width, height, x, y) {
            STROKE_LEVEL
        } else {
            fill
        };
        proof {
            let p = y * width + x;
            assert(all[p] == level);
            assert(all.take(p).push(level) =~= all.take(p + 1));
            assert((y + 1) * width == y * width + width) by (nonlinear_arith);
            assert((height - y) * width == (height - (y + 1)) * width + width)
                by (nonlinear_arith);
        }
        levels.push(level);
        x = x + 1;
        if x == width {
            x = 0;
            y = y + 1;
        }
    }
    proof {
        assert(all.take(height * width) =~= all) by {
            assert(height * width == width * height) by (nonlinear_arith);
        }
    }
    levels
}

/// One random byte from the thread's generator.
///
/// Calls `rand::thread_rng` and `Rng::gen::<u8>` on what it returns. Nothing
/// is claimed of the byte: any value may come, and two calls may differ. The
/// call takes no argument, so nothing a caller does can make it fail; `rand`
/// panics where the operating system gives it no entropy to seed the
/// generator.
#[verifier::external_body]
fn random_byte() -> (value: u8) {
    rand::thread_rng().gen::<u8>()
}

/// `count` random gray levels, each drawn on its own.
pub fn noise_levels(count: usize) -> (levels: Vec<u8>)
    ensures
        levels@.len() == count,
{
    let mut levels: Vec<u8> = Vec::new();
    let mut k: usize = 0;
    while k < count
        invariant
            k <= count,
            levels@.len() == k,
        decreases count - k,
    {
        let level: u8 = random_byte();
        levels.push(level);
        k = k + 1;
    }
    levels
}

/// Generates the pixel buffer for a `width` by `height` surface.
///
/// With `noise` the buffer is gray noise with the alpha byte `NOISE_ALPHA`;
/// the levels are random, and `index` plays no part. Without it the buffer is
/// the flat pattern of surface `index`, which the arguments fix byte for
/// byte. A buffer is never partial: it has four bytes for every pixel, or the
/// call fails. It fails on a surface without pixels and on one whose buffer
/// no `usize` could count, and on nothing else.
pub fn generate(width: u32, height: u32, noise: bool, index: usize) -> (result: Result<
    Vec<u8>,
    GenerateError,
>)
    ensures
        result is Ok <==> can_generate(width, height),
        result matches Ok(buffer) ==> is_generated(buffer@, width, height, noise, index),
        result matches Err(error) ==> (error == GenerateError::EmptySurface <==> width == 0
            || height == 0),
{
    if width == 0 || height == 0 {
        return Err(GenerateError::EmptySurface);
    }
    let pixels: usize = match checked_pixel_count(width, height) {
        Some(pixels) => pixels,
        None => {
            return Err(GenerateError::TooLarge);
        },
    };
    if noise {
        let levels = noise_levels(pixels);
        proof {
            lemma_gray_pixels_are_gray(levels@, NOISE_ALPHA);
        }
        Ok(gray_buffer(&levels, NOISE_ALPHA))
    } else {
        let levels = render_flat_levels(width, height, index);
        Ok(gray_buffer(&levels, OPAQUE_ALPHA))
    }
}

} // verus!
