//! Raster assembly: the image is rendered in horizontal bands, one per
//! worker, and the bands are stacked in order into the final raster.
//!
//! Rows are shared out evenly; the last band also takes the rows that are
//! left over. A band is filled by asking a shading function for every pixel
//! at its position in the whole image, so the finished raster does not depend
//! on how many bands there were.
use image::ImageBuffer;
use image::Rgb;
use vstd::arithmetic::div_mod::lemma_fundamental_div_mod;
use vstd::arithmetic::div_mod::lemma_fundamental_div_mod_converse;
use vstd::prelude::*;

verus! {

/// An 8-bit RGB raster, stored row by row from the top-left corner.
///
/// The pixels live in an `image::ImageBuffer`; what is known of them is what
/// the functions below state.
#[verifier::external_body]
pub struct Raster {
    buf: ImageBuffer<Rgb<u8>, Vec<u8>>,
}

/// Width and height of a raster, as `ImageBuffer::dimensions` reports them.
pub uninterp spec fn raster_dimensions(r: Raster) -> (nat, nat);

/// The pixels of a raster in the order in which `ImageBuffer::pixels` walks
/// them: row by row, each row from left to right.
pub uninterp spec fn raster_pixels(r: Raster) -> Seq<(u8, u8, u8)>;

/// Number of pixel columns.
pub open spec fn width_of(r: Raster) -> nat {
    raster_dimensions(r).0
}

/// Number of pixel rows.
pub open spec fn height_of(r: Raster) -> nat {
    raster_dimensions(r).1
}

/// The pixel in column `x` of row `y`.
pub open spec fn pixel_at(r: Raster, x: int, y: int) -> (u8, u8, u8) {
    raster_pixels(r)[y * width_of(r) + x]
}

/// Whether a raster of this size can be allocated: three bytes per pixel, and
/// no allocation is larger than `isize::MAX` bytes.
pub open spec fn fits_in_memory(width: nat, height: nat) -> bool {
    3 * width * height <= isize::MAX
}

/// Trusted: `ImageBuffer::new` makes a buffer of the given size with every
/// sample zero. It panics only when the sample count overflows, which the
/// precondition excludes.
#[verifier::external_body]
fn raster_new(width: u32, height: u32) -> (r: Raster)
    requires
        fits_in_memory(width as nat, height as nat),
    ensures
        raster_dimensions(r) == (width as nat, height as nat),
        raster_pixels(r) == Seq::new((width * height) as nat, |i: int| (0u8, 0u8, 0u8)),
{
    Raster { buf: ImageBuffer::new(width, height) }
}

/// Trusted: `ImageBuffer::dimensions` returns the size the buffer was made
/// with, and the buffer holds one pixel for each position within it.
#[verifier::external_body]
fn raster_size(r: &Raster) -> (d: (u32, u32))
    ensures
        (d.0 as nat, d.1 as nat) == raster_dimensions(*r),
        raster_pixels(*r).len() == d.0 * d.1,
{
    r.buf.dimensions()
}

/// Trusted: `ImageBuffer::get_pixel` reads the pixel at `(x, y)`; inside the
/// bounds it does not panic.
#[verifier::external_body]
fn raster_get(r: &Raster, x: u32, y: u32) -> (p: (u8, u8, u8))
    requires
        x < raster_dimensions(*r).0,
        y < raster_dimensions(*r).1,
    ensures
        p == raster_pixels(*r)[y * raster_dimensions(*r).0 + x],
{
    let q = r.buf.get_pixel(x, y);
    (q.0[0], q.0[1], q.0[2])
}

/// Trusted: `ImageBuffer::put_pixel` overwrites the pixel at `(x, y)` and
/// nothing else; inside the bounds it does not panic.
#[verifier::external_body]
fn raster_put(r: &mut Raster, x: u32, y: u32, p: (u8, u8, u8))
    requires
        x < raster_dimensions(*old(r)).0,
        y < raster_dimensions(*old(r)).1,
    ensures
        raster_dimensions(*final(r)) == raster_dimensions(*old(r)),
        raster_pixels(*final(r)) == raster_pixels(*old(r)).update(
            y * raster_dimensions(*old(r)).0 + x,
            p,
        ),
{
    r.buf.put_pixel(x, y, Rgb([p.0, p.1, p.2]));
}

/// Trusted: `ImageBuffer::into_raw` gives up the sample vector. A raster made
/// by `raster_new` holds exactly three samples per pixel, red first.
#[verifier::external_body]
fn raster_into_raw(r: Raster) -> (bytes: Vec<u8>)
    ensures
        bytes@.len() == 3 * raster_pixels(r).len(),
        forall|i: int|
            0 <= i < raster_pixels(r).len() ==> (#[trigger] raster_pixels(r)[i]) == (
                bytes@[3 * i],
                bytes@[3 * i + 1],
                bytes@[3 * i + 2],
            ),
{
    r.buf.into_raw()
}

/// The first image row of band `t` when `height` rows are shared out among
/// `threads` bands.
pub open spec fn band_first_row(height: nat, threads: nat, t: nat) -> nat {
    t * (height / threads)
}

/// The number of rows of band `t`: an even share, and the remainder on top of
/// that for the last band.
pub open spec fn band_rows(height: nat, threads: nat, t: nat) -> nat {
    if t + 1 == threads {
        height / threads + height % threads
    } else {
        height / threads
    }
}

/// The rows of one band: `rows` rows starting at image row `first_row`.
#[derive(Clone, Copy, Debug, PartialEq, Eq)]
pub struct Band {
    pub first_row: u32,
    pub rows: u32,
}

/// Consecutive bands touch, the first starts at the top and the last ends at
/// the bottom: together they cover every row exactly once.
pub proof fn lemma_bands_tile(height: nat, threads: nat, t: nat)
    requires
        t < threads,
    ensures
        band_first_row(height, threads, 0) == 0,
        t + 1 < threads ==> band_first_row(height, threads, t) + band_rows(height, threads, t)
            == band_first_row(height, threads, t + 1),
        t + 1 == threads ==> band_first_row(height, threads, t) + band_rows(height, threads, t)
            == height,
        band_first_row(height, threads, t) + band_rows(height, threads, t) <= height,
{
    let q = height / threads;
    let r = height % threads;
    lemma_fundamental_div_mod(height as int, threads as int);
    assert(t * q + q == (t + 1) * q) by (nonlinear_arith);
    assert(0 * q == 0) by (nonlinear_arith);
    if t + 1 == threads {
        assert(threads * q == (t + 1) * q);
    } else {
        assert((t + 1) * q <= threads * q) by (nonlinear_arith)
            requires
                t + 1 <= threads,
                0 <= q,
        ;
    }
}

/// The rows that worker `t` of `threads` renders of an image `height` rows
/// high.
pub fn band(height: u32, threads: u32, t: u32) -> (b: Band)
    requires
        t < threads,
    ensures
        b.first_row == band_first_row(height as nat, threads as nat, t as nat),
        b.rows == band_rows(height as nat, threads as nat, t as nat),
        b.first_row + b.rows <= height,
{
    proof {
        lemma_bands_tile(height as nat, threads as nat, t as nat);
    }
    let share: u32 = height / threads;
    let extra: u32 = if t == threads - 1 {
        height % threads
    } else {
        0
    };
    Band { first_row: t * share, rows: share + extra }
}

impl Raster {
    /// A black raster of the given size.
    pub fn new(width: u32, height: u32) -> (r: Raster)
        requires
            fits_in_memory(width as nat, height as nat),
        ensures
            width_of(r) == width,
            height_of(r) == height,
            raster_pixels(r) == Seq::new((width * height) as nat, |i: int| (0u8, 0u8, 0u8)),
    {
        raster_new(width, height)
    }

    /// Width and height in pixels.
    pub fn dimensions(&self) -> (d: (u32, u32))
        ensures
            d.0 == width_of(*self),
            d.1 == height_of(*self),
            raster_pixels(*self).len() == d.0 * d.1,
    {
        raster_size(self)
    }

    /// The pixel in column `x` of row `y`, or `None` outside the raster.
    pub fn get_pixel(&self, x: u32, y: u32) -> (p: Option<(u8, u8, u8)>)
        ensures
            p == if x < width_of(*self) && y < height_of(*self) {
                Some(pixel_at(*self, x as int, y as int))
            } else {
                None
            },
    {
        let d = raster_size(self);
        if x < d.0 && y < d.1 {
            Some(raster_get(self, x, y))
        } else {
            None
        }
    }

    /// The samples of the raster, three bytes per pixel in the order red,
    /// green, blue, row by row from the top.
    pub fn into_raw(self) -> (bytes: Vec<u8>)
        ensures
            bytes@.len() == 3 * raster_pixels(self).len(),
            forall|i: int|
                0 <= i < raster_pixels(self).len() ==> (#[trigger] raster_pixels(self)[i]) == (
                    bytes@[3 * i],
                    bytes@[3 * i + 1],
                    bytes@[3 * i + 2],
                ),
    {
        raster_into_raw(self)
    }
}

/// A position in a row-major raster of width `w` is split back into its
/// column and row by remainder and quotient.
proof fn lemma_row_major(w: int, x: int, y: int)
    requires
        0 <= x < w,
        0 <= y,
    ensures
        (y * w + x) % w == x,
        (y * w + x) / w == y,
{
    lemma_fundamental_div_mod_converse(y * w + x, w, y, x);
}

/// Renders band `t` of `threads`: every pixel of the band is what `shade`
/// returned for its column and its row in the whole image.
pub fn render_band<F: Fn(u32, u32) -> (u8, u8, u8)>(
    width: u32,
    height: u32,
    threads: u32,
    t: u32,
    shade: &F,
) -> (out: Raster)
    requires
        t < threads,
        fits_in_memory(width as nat, height as nat),
        forall|x: u32, y: u32| x < width && y < height ==> call_requires(shade, (x, y)),
    ensures
        width_of(out) == width,
        height_of(out) == band_rows(height as nat, threads as nat, t as nat),
        raster_pixels(out).len() == width * height_of(out),
        forall|x: u32, y: u32|
            x < width && y < height_of(out) ==> call_ensures(
                shade,
                (x, (band_first_row(height as nat, threads as nat, t as nat) + y) as u32),
                #[trigger] pixel_at(out, x as int, y as int),
            ),
{
    let b = band(height, threads, t);
    assert(3 * width * b.rows <= 3 * width * height) by (nonlinear_arith)
        requires
            b.rows <= height,
    ;
    let mut out = raster_new(width, b.rows);
    let mut y: u32 = 0;
    while y < b.rows
        invariant
            y <= b.rows,
            b.first_row + b.rows <= height,
            raster_dimensions(out) == (width as nat, b.rows as nat),
            raster_pixels(out).len() == width * b.rows,
            forall|x: u32, yy: u32| x < width && yy < height ==> call_requires(shade, (x, yy)),
            forall|i: int|
                0 <= i < y * width ==> call_ensures(
                    shade,
                    ((i % (width as int)) as u32, (b.first_row + i / (width as int)) as u32),
                    #[trigger] raster_pixels(out)[i],
                ),
        decreases b.rows - y,
    {
        let mut x: u32 = 0;
        while x < width
            invariant
                x <= width,
                y < b.rows,
                b.first_row + b.rows <= height,
                raster_dimensions(out) == (width as nat, b.rows as nat),
                raster_pixels(out).len() == width * b.rows,
                forall|xx: u32, yy: u32|
                    xx < width && yy < height ==> call_requires(shade, (xx, yy)),
                forall|i: int|
                    0 <= i < y * width + x ==> call_ensures(
                        shade,
                        ((i % (width as int)) as u32, (b.first_row + i / (width as int)) as u32),
                        #[trigger] raster_pixels(out)[i],
                    ),
            decreases width - x,
        {
            let p = shade(x, b.first_row + y);
            proof {
                lemma_row_major(width as int, x as int, y as int);
                assert(y * width + x < width * b.rows) by (nonlinear_arith)
                    requires
                        x < width,
                        y < b.rows,
                ;
            }
            raster_put(&mut out, x, y, p);
            x = x + 1;
        }
        proof {
            assert(y * width + width == (y + 1) * width) by (nonlinear_arith);
        }
        y = y + 1;
    }
    proof {
        assert forall|x: u32, yy: u32| x < width && yy < b.rows implies call_ensures(
            shade,
            (x, (b.first_row + yy) as u32),
            #[trigger] pixel_at(out, x as int, yy as int),
        ) by {
            lemma_row_major(width as int, x as int, yy as int);
            assert(yy * width + x < b.rows * width) by (nonlinear_arith)
                requires
                    x < width,
                    yy < b.rows,
            ;
        }
    }
    out
}

/// The pixels of a stack of rasters, the first on top.
pub open spec fn stacked(bands: Seq<Raster>) -> Seq<(u8, u8, u8)>
    decreases bands.len(),
{
    if bands.len() == 0 {
        Seq::empty()
    } else {
        stacked(bands.drop_last()) + raster_pixels(bands.last())
    }
}

/// The number of rows in a stack of rasters.
pub open spec fn stacked_rows(bands: Seq<Raster>) -> nat
    decreases bands.len(),
{
    if bands.len() == 0 {
        0
    } else {
        stacked_rows(bands.drop_last()) + height_of(bands.last())
    }
}

/// Whether every raster of the stack is `width` columns wide and holds one
/// pixel for each of its positions.
pub open spec fn uniform_width(bands: Seq<Raster>, width: nat) -> bool {
    forall|t: int|
        0 <= t < bands.len() ==> width_of(#[trigger] bands[t]) == width && raster_pixels(
            bands[t],
        ).len() == width * height_of(bands[t])
}

/// A stack of rasters of one width holds `width` pixels per row.
pub proof fn lemma_stacked_len(bands: Seq<Raster>, width: nat)
    requires
        uniform_width(bands, width),
    ensures
        stacked(bands).len() == width * stacked_rows(bands),
    decreases bands.len(),
{
    if bands.len() > 0 {
        lemma_stacked_len(bands.drop_last(), width);
        assert(width * stacked_rows(bands.drop_last()) + width * height_of(bands.last()) == width
            * (stacked_rows(bands.drop_last()) + height_of(bands.last()))) by (nonlinear_arith);
    } else {
        assert(width * 0 == 0) by (nonlinear_arith);
    }
}

/// Stacks the bands, in order, into one raster `height` rows high.
pub fn assemble(width: u32, height: u32, bands: &Vec<Raster>) -> (img: Raster)
    requires
        fits_in_memory(width as nat, height as nat),
        forall|t: int| 0 <= t < bands@.len() ==> width_of(#[trigger] bands@[t]) == width,
        stacked_rows(bands@) == height,
    ensures
        width_of(img) == width,
        height_of(img) == height,
        raster_pixels(img) == stacked(bands@),
{
    let mut img = raster_new(width, height);
    let mut y_off: u32 = 0;
    let mut t: usize = 0;
    while t < bands.len()
        invariant
            t <= bands@.len(),
            forall|k: int| 0 <= k < bands@.len() ==> width_of(#[trigger] bands@[k]) == width,
            stacked_rows(bands@) == height,
            uniform_width(bands@.take(t as int), width as nat),
            y_off == stacked_rows(bands@.take(t as int)),
            y_off <= height,
            raster_dimensions(img) == (width as nat, height as nat),
            raster_pixels(img).len() == width * height,
            raster_pixels(img).take(width * y_off) == stacked(bands@.take(t as int)),
        decreases bands@.len() - t,
    {
        let part = &bands[t];
        let d = raster_size(part);
        proof {
            assert(bands@.take(t + 1).drop_last() == bands@.take(t as int));
            assert(bands@.take(t + 1).last() == bands@[t as int]);
            lemma_stacked_rows_prefix(bands@, t + 1);
            lemma_stacked_len(bands@.take(t as int), width as nat);
            assert(width * (y_off + d.1) == width * y_off + width * d.1) by (nonlinear_arith);
            assert(width * (y_off + d.1) <= width * height) by (nonlinear_arith)
                requires
                    y_off + d.1 <= height,
            ;
        }
        let mut y: u32 = 0;
        while y < d.1
            invariant
                y <= d.1,
                d.0 == width,
                y_off + d.1 <= height,
                raster_dimensions(*part) == (width as nat, d.1 as nat),
                raster_pixels(*part).len() == width * d.1,
                raster_dimensions(img) == (width as nat, height as nat),
                raster_pixels(img).len() == width * height,
                width * (y_off + d.1) <= width * height,
                raster_pixels(img).take(width * y_off + width * y) == stacked(
                    bands@.take(t as int),
                ) + raster_pixels(*part).take(width * y),
            decreases d.1 - y,
        {
            let mut x: u32 = 0;
            while x < width
                invariant
                    x <= width,
                    y < d.1,
                    d.0 == width,
                    y_off + d.1 <= height,
                    raster_dimensions(*part) == (width as nat, d.1 as nat),
                    raster_pixels(*part).len() == width * d.1,
                    raster_dimensions(img) == (width as nat, height as nat),
                    raster_pixels(img).len() == width * height,
                    width * (y_off + d.1) <= width * height,
                    raster_pixels(img).take(width * y_off + width * y + x) == stacked(
                        bands@.take(t as int),
                    ) + raster_pixels(*part).take(width * y + x),
                decreases width - x,
            {
                proof {
                    assert(width * y + x < width * d.1) by (nonlinear_arith)
                        requires
                            x < width,
                            y < d.1,
                    ;
                    assert((y_off + y) * width + x == width * y_off + width * y + x)
                        by (nonlinear_arith);
                    assert(y * width + x == width * y + x) by (nonlinear_arith);
                    assert(width * y_off + width * d.1 == width * (y_off + d.1))
                        by (nonlinear_arith);
                }
                let p = raster_get(part, x, y);
                let ghost before = raster_pixels(img);
                raster_put(&mut img, x, y_off + y, p);
                proof {
                    let k = width * y_off + width * y + x;
                    let j = width * y + x;
                    assert(raster_pixels(img).take(k + 1) == before.take(k).push(p));
                    assert(raster_pixels(*part).take(j + 1) == raster_pixels(*part).take(j).push(
                        p,
                    ));
                }
                x = x + 1;
            }
            proof {
                assert(width * y + width == width * (y + 1)) by (nonlinear_arith);
            }
            y = y + 1;
        }
        proof {
            assert(raster_pixels(*part).take(width * d.1) == raster_pixels(*part));
            assert(width * y_off + width * d.1 == width * (y_off + d.1)) by (nonlinear_arith);
            assert forall|k: int| 0 <= k < t + 1 implies width_of(
                #[trigger] bands@.take(t + 1)[k],
            ) == width && raster_pixels(bands@.take(t + 1)[k]).len() == width * height_of(
                bands@.take(t + 1)[k],
            ) by {
                if k < t {
                    assert(bands@.take(t + 1)[k] == bands@.take(t as int)[k]);
                }
            }
        }
        y_off = y_off + d.1;
        t = t + 1;
    }
    proof {
        assert(bands@.take(t as int) == bands@);
        assert(raster_pixels(img).take(width * height) == raster_pixels(img));
    }
    img
}

/// The rows of a prefix of a stack never exceed the rows of the whole stack.
pub proof fn lemma_stacked_rows_prefix(bands: Seq<Raster>, n: int)
    requires
        0 <= n <= bands.len(),
    ensures
        stacked_rows(bands.take(n)) <= stacked_rows(bands),
    decreases bands.len(),
{
    if n == bands.len() {
        assert(bands.take(n) == bands);
    } else {
        assert(bands.drop_last().take(n) == bands.take(n));
        lemma_stacked_rows_prefix(bands.drop_last(), n);
    }
}

/// In a stack of rasters of one width, raster `k` begins where the rasters
/// above it end, and its pixels follow from there.
pub proof fn lemma_stacked_index(bands: Seq<Raster>, width: nat, k: int, j: int)
    requires
        uniform_width(bands, width),
        0 <= k < bands.len(),
        0 <= j < raster_pixels(bands[k]).len(),
    ensures
        width * stacked_rows(bands.take(k)) + j < stacked(bands).len(),
        stacked(bands)[width * stacked_rows(bands.take(k)) + j] == raster_pixels(bands[k])[j],
    decreases bands.len(),
{
    let init = bands.drop_last();
    lemma_stacked_len(init, width);
    if k == bands.len() - 1 {
        assert(bands.take(k) == init);
    } else {
        assert(init.take(k) == bands.take(k));
        assert(init[k] == bands[k]);
        lemma_stacked_index(init, width, k, j);
    }
}

/// The band that holds image row `y`.
pub open spec fn band_of_row(height: nat, threads: nat, y: nat) -> nat {
    if height / threads == 0 || y / (height / threads) >= threads {
        (threads - 1) as nat
    } else {
        y / (height / threads)
    }
}

/// Every image row lies in the band that `band_of_row` names, and in no
/// other.
pub proof fn lemma_row_in_one_band(height: nat, threads: nat, y: nat, t: nat)
    requires
        0 < threads,
        y < height,
        t < threads,
    ensures
        band_of_row(height, threads, y) < threads,
        (band_first_row(height, threads, t) <= y < band_first_row(height, threads, t) + band_rows(
            height,
            threads,
            t,
        )) <==> t == band_of_row(height, threads, y),
{
    let q = height / threads;
    lemma_bands_tile(height, threads, t);
    if q == 0 {
        assert(t * q == 0) by (nonlinear_arith)
            requires
                q == 0,
        ;
    } else {
        let k = y / q;
        lemma_fundamental_div_mod(y as int, q as int);
        assert(0 <= k) by (nonlinear_arith)
            requires
                k == y / q,
                0 < q,
                0 <= y,
        ;
        if t * q <= y && (t + 1 < threads ==> y < t * q + q) {
            if t + 1 < threads {
                lemma_fundamental_div_mod_converse(y as int, q as int, t as int, y - t * q);
            } else {
                assert(k >= t) by (nonlinear_arith)
                    requires
                        t * q <= y,
                        y == q * k + y % q,
                        0 <= y % q < q,
                        0 < q,
                ;
            }
        }
        if t == band_of_row(height, threads, y) {
            if k >= threads {
                assert(t * q <= k * q) by (nonlinear_arith)
                    requires
                        t <= k,
                        0 < q,
                ;
                assert(k * q == q * k) by (nonlinear_arith);
            } else {
                assert(t * q == q * k) by (nonlinear_arith)
                    requires
                        t == k,
                ;
            }
        }
    }
}

/// The bands of an image stacked up to band `t` reach down to the first row
/// of band `t`; all of them together reach the bottom.
proof fn lemma_banded_rows(bands: Seq<Raster>, height: nat, threads: nat, t: nat)
    requires
        0 < threads,
        t <= threads,
        t <= bands.len(),
        forall|k: int|
            0 <= k < t ==> height_of(#[trigger] bands[k]) == band_rows(height, threads, k as nat),
    ensures
        t < threads ==> stacked_rows(bands.take(t as int)) == band_first_row(height, threads, t),
        t == threads ==> stacked_rows(bands.take(t as int)) == height,
    decreases t,
{
    if t == 0 {
        assert(0 * (height / threads) == 0) by (nonlinear_arith);
    } else {
        let u = (t - 1) as nat;
        lemma_banded_rows(bands, height, threads, u);
        lemma_bands_tile(height, threads, u);
        assert(bands.take(t as int).drop_last() == bands.take(u as int));
        assert(bands.take(t as int).last() == bands[u as int]);
    }
}

/// Renders the whole image band by band and stacks the bands: every pixel is
/// what `shade` returned for its position, however many bands there were.
pub fn render<F: Fn(u32, u32) -> (u8, u8, u8)>(
    width: u32,
    height: u32,
    threads: u32,
    shade: &F,
) -> (img: Raster)
    requires
        0 < threads,
        fits_in_memory(width as nat, height as nat),
        forall|x: u32, y: u32| x < width && y < height ==> call_requires(shade, (x, y)),
    ensures
        width_of(img) == width,
        height_of(img) == height,
        raster_pixels(img).len() == width * height,
        forall|x: u32, y: u32|
            x < width && y < height ==> call_ensures(
                shade,
                (x, y),
                #[trigger] pixel_at(img, x as int, y as int),
            ),
{
    let mut bands: Vec<Raster> = Vec::new();
    let mut t: u32 = 0;
    while t < threads
        invariant
            t <= threads,
            bands@.len() == t,
            fits_in_memory(width as nat, height as nat),
            forall|x: u32, y: u32| x < width && y < height ==> call_requires(shade, (x, y)),
            uniform_width(bands@, width as nat),
            forall|k: int|
                0 <= k < t ==> height_of(#[trigger] bands@[k]) == band_rows(
                    height as nat,
                    threads as nat,
                    k as nat,
                ),
            forall|k: int, x: u32, y: u32|
                0 <= k < t && x < width && y < height_of(bands@[k]) ==> call_ensures(
                    shade,
                    (x, (band_first_row(height as nat, threads as nat, k as nat) + y) as u32),
                    #[trigger] pixel_at(bands@[k], x as int, y as int),
                ),
        decreases threads - t,
    {
        let part = render_band(width, height, threads, t, shade);
        bands.push(part);
        t = t + 1;
    }
    proof {
        lemma_banded_rows(bands@, height as nat, threads as nat, threads as nat);
        assert(bands@.take(threads as int) == bands@);
    }
    let img = assemble(width, height, &bands);
    proof {
        lemma_stacked_len(bands@, width as nat);
        assert forall|x: u32, y: u32| x < width && y < height implies call_ensures(
            shade,
            (x, y),
            #[trigger] pixel_at(img, x as int, y as int),
        ) by {
            let k = band_of_row(height as nat, threads as nat, y as nat);
            let first = band_first_row(height as nat, threads as nat, k);
            lemma_row_in_one_band(height as nat, threads as nat, y as nat, k);
            lemma_banded_rows(bands@, height as nat, threads as nat, k);
            let yl = (y - first) as u32;
            let j = yl * width + x;
            assert(j < width * height_of(bands@[k as int])) by (nonlinear_arith)
                requires
                    j == yl * width + x,
                    0 <= x < width,
                    0 <= yl < height_of(bands@[k as int]),
            ;
            lemma_stacked_index(bands@, width as nat, k as int, j as int);
            assert(width * first + j == y * width + x) by (nonlinear_arith)
                requires
                    j == yl * width + x,
                    yl == y - first,
            ;
            assert(pixel_at(img, x as int, y as int) == pixel_at(
                bands@[k as int],
                x as int,
                yl as int,
            ));
        }
    }
    img
}

/// The pixels of `rows` image rows from `first_row` down, each pixel given by
/// `shade` at its column and image row.
pub open spec fn shaded_rows(
    width: nat,
    first_row: nat,
    rows: nat,
    shade: spec_fn(nat, nat) -> (u8, u8, u8),
) -> Seq<(u8, u8, u8)> {
    Seq::new(
        width * rows,
        |i: int| shade((i % (width as int)) as nat, (first_row + i / (width as int)) as nat),
    )
}

/// The first `upto` bands of an image, each shaded on its own and stacked.
pub open spec fn shaded_bands(
    width: nat,
    height: nat,
    threads: nat,
    upto: nat,
    shade: spec_fn(nat, nat) -> (u8, u8, u8),
) -> Seq<(u8, u8, u8)>
    decreases upto,
{
    if upto == 0 {
        Seq::empty()
    } else {
        shaded_bands(width, height, threads, (upto - 1) as nat, shade) + shaded_rows(
            width,
            band_first_row(height, threads, (upto - 1) as nat),
            band_rows(height, threads, (upto - 1) as nat),
            shade,
        )
    }
}

/// Shading two blocks of rows that touch gives the same pixels as shading
/// them as one block.
proof fn lemma_shaded_rows_split(
    width: nat,
    first_row: nat,
    a: nat,
    b: nat,
    shade: spec_fn(nat, nat) -> (u8, u8, u8),
)
    ensures
        shaded_rows(width, first_row, a, shade) + shaded_rows(width, first_row + a, b, shade)
            == shaded_rows(width, first_row, a + b, shade),
{
    let left = shaded_rows(width, first_row, a, shade);
    let right = shaded_rows(width, first_row + a, b, shade);
    let whole = shaded_rows(width, first_row, a + b, shade);
    assert(width * a + width * b == width * (a + b)) by (nonlinear_arith);
    assert forall|i: int| 0 <= i < whole.len() implies (left + right)[i] == whole[i] by {
        if i >= width * a {
            let j = i - width * a;
            assert(0 < width) by (nonlinear_arith)
                requires
                    i < width * (a + b),
                    0 <= i,
            ;
            lemma_fundamental_div_mod(j, width as int);
            let x = j % (width as int);
            let y = j / (width as int);
            assert(i == (y + a) * width + x) by (nonlinear_arith)
                requires
                    j == width * y + x,
                    i == j + width * a,
            ;
            assert(0 <= y) by (nonlinear_arith)
                requires
                    j == width * y + x,
                    0 <= x < width,
                    0 <= j,
            ;
            lemma_row_major(width as int, x, y + a);
        }
    }
    assert(left + right =~= whole);
}

/// The bands stacked up to band `upto` are the image rows above that band,
/// shaded as one block.
proof fn lemma_shaded_bands(
    width: nat,
    height: nat,
    threads: nat,
    upto: nat,
    shade: spec_fn(nat, nat) -> (u8, u8, u8),
)
    requires
        0 < threads,
        upto <= threads,
    ensures
        upto < threads ==> shaded_bands(width, height, threads, upto, shade) == shaded_rows(
            width,
            0,
            band_first_row(height, threads, upto),
            shade,
        ),
        upto == threads ==> shaded_bands(width, height, threads, upto, shade) == shaded_rows(
            width,
            0,
            height,
            shade,
        ),
    decreases upto,
{
    if upto == 0 {
        assert(0 * (height / threads) == 0) by (nonlinear_arith);
        assert(width * 0 == 0) by (nonlinear_arith);
        assert(shaded_rows(width, 0, 0, shade) =~= Seq::empty());
    } else {
        let u = (upto - 1) as nat;
        lemma_shaded_bands(width, height, threads, u, shade);
        lemma_bands_tile(height, threads, u);
        lemma_shaded_rows_split(
            width,
            0,
            band_first_row(height, threads, u),
            band_rows(height, threads, u),
            shade,
        );
    }
}

/// An image rendered in bands does not depend on the number of bands: for any
/// two positive thread counts the stacked bands are the same pixels, namely
/// the shading function applied to every position of the image.
pub proof fn lemma_image_independent_of_threads(
    width: nat,
    height: nat,
    threads_a: nat,
    threads_b: nat,
    shade: spec_fn(nat, nat) -> (u8, u8, u8),
)
    requires
        0 < threads_a,
        0 < threads_b,
    ensures
        shaded_bands(width, height, threads_a, threads_a, shade) == shaded_bands(
            width,
            height,
            threads_b,
            threads_b,
            shade,
        ),
        shaded_bands(width, height, threads_a, threads_a, shade) == shaded_rows(
            width,
            0,
            height,
            shade,
        ),
{
    lemma_shaded_bands(width, height, threads_a, threads_a, shade);
    lemma_shaded_bands(width, height, threads_b, threads_b, shade);
}

} // verus!
