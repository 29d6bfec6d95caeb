//! Filling a row-major grayscale buffer from per-pixel escape counts.
//!
//! The escape count of a pixel comes from a caller-supplied function of its
//! `(column, row)`; this module owns the traversal of the buffer, the
//! mapping from escape counts to gray levels, and the fact that rendering an
//! image band by band gives the same bytes as rendering it whole.

use vstd::prelude::*;
use vstd::arithmetic::div_mod::{lemma_fundamental_div_mod, lemma_fundamental_div_mod_converse};
use crate::bands::{band_count, band_height, band_rows, band_top, lemma_band_index_bound};

verus! {

/// Gray level of a pixel: black for a point that never escaped, otherwise
/// `255 - k` for a point that escaped after `k` iterations, with `k` taken
/// modulo 256.
pub open spec fn shade_of(escape: Option<u32>) -> u8 {
    match escape {
        None => 0,
        Some(k) => (255 - k % 256) as u8,
    }
}

/// The bytes of a `width` x `height` image whose pixel `(column, row)` has
/// escape count `escape(column, row)`, row by row.
pub open spec fn image(width: nat, height: nat, escape: spec_fn(nat, nat) -> Option<u32>) -> Seq<
    u8,
> {
    Seq::new(
        width * height,
        |i: int| shade_of(escape((i % width as int) as nat, (i / width as int) as nat)),
    )
}

/// The escape counts of an image seen from row `top` down.
pub open spec fn shifted(escape: spec_fn(nat, nat) -> Option<u32>, top: nat) -> spec_fn(
    nat,
    nat,
) -> Option<u32> {
    |column: nat, row: nat| escape(column, row + top)
}

/// The images of the bands of a layout, each rendered on its own.
pub open spec fn band_images(
    width: nat,
    height: nat,
    workers: nat,
    escape: spec_fn(nat, nat) -> Option<u32>,
) -> Seq<Seq<u8>> {
    Seq::new(
        band_count(height, workers),
        |i: int|
            image(
                width,
                band_rows(height, workers, i as nat),
                shifted(escape, band_top(height, workers, i as nat)),
            ),
    )
}

/// The gray level of a pixel with the given escape count.
pub fn shade(escape: Option<u32>) -> (r: u8)
    ensures
        r == shade_of(escape),
        escape is None ==> r == 0,
        forall|k: u32| escape == Some(k) && k <= 255 ==> r == 255 - k,
{
    match escape {
        None => 0,
        Some(count) => 255 - (count % 256) as u8,
    }
}

/// A zero-filled buffer of `rows * cols` pixels.
pub fn new_pixel_buffer(rows: usize, cols: usize) -> (r: Vec<u8>)
    requires
        rows * cols <= usize::MAX,
    ensures
        r@ == Seq::new((rows * cols) as nat, |i: int| 0u8),
{
    let r: Vec<u8> = vec![0; rows * cols];
    assert(r@ =~= Seq::new((rows * cols) as nat, |i: int| 0u8));
    r
}

/// Writes every pixel of a `bounds.0` x `bounds.1` image, in row-major
/// order, as the gray level of `escape_at(column, row)`.
pub fn render<F: Fn(usize, usize) -> Option<u32>>(
    pixels: &mut [u8],
    bounds: (usize, usize),
    escape_at: F,
)
    requires
        bounds.0 > 0,
        bounds.1 > 0,
        old(pixels)@.len() == bounds.0 * bounds.1,
        forall|column: usize, row: usize|
            column < bounds.0 && row < bounds.1 ==> #[trigger] escape_at.requires((column, row)),
    ensures
        exists|escape: spec_fn(nat, nat) -> Option<u32>|
            {
                &&& forall|column: nat, row: nat|
                    column < bounds.0 && row < bounds.1 ==> #[trigger] escape_at.ensures(
                        (column as usize, row as usize),
                        escape(column, row),
                    )
                &&& final(pixels)@ == image(bounds.0 as nat, bounds.1 as nat, escape)
            },
{
    let (width, height) = bounds;
    let len = pixels.len();
    let ghost w = width as int;
    let ghost mut got: Seq<Option<u32>> = Seq::empty();
    let mut idx: usize = 0;
    let mut row: usize = 0;
    let mut column: usize = 0;
    while idx < len
        invariant
            len == pixels@.len(),
            len == width * height,
            width == bounds.0,
            height == bounds.1,
            w == width,
            width > 0,
            height > 0,
            column < width,
            idx == row * width + column,
            idx <= len,
            idx < len ==> row < height,
            got.len() == idx,
            forall|column: usize, row: usize|
                column < width && row < height ==> #[trigger] escape_at.requires((column, row)),
            forall|k: int|
                0 <= k < idx ==> pixels@[k] == shade_of(#[trigger] got[k]) && escape_at.ensures(
                    ((k % w) as usize, (k / w) as usize),
                    got[k],
                ),
        decreases len - idx,
    {
        let e = escape_at(column, row);
        pixels[idx] = shade(e);
        proof {
            lemma_fundamental_div_mod_converse(idx as int, w, row as int, column as int);
            got = got.push(e);
        }
        idx += 1;
        if column + 1 == width {
            proof {
                assert(idx == (row + 1) * width) by (nonlinear_arith)
                    requires
                        idx == row * width + column + 1,
                        column + 1 == width,
                ;
                if idx < len {
                    assert(row + 1 < height) by (nonlinear_arith)
                        requires
                            idx == (row + 1) * width,
                            idx < width * height,
                            width > 0,
                    ;
                }
            }
            column = 0;
            row += 1;
        } else {
            column += 1;
        }
    }
    let ghost escape = |c: nat, r: nat| got[r * w + c];
    assert forall|c: nat, r: nat| c < width && r < height implies #[trigger] escape_at.ensures(
        (c as usize, r as usize),
        escape(c, r),
    ) by {
        let k = r * w + c;
        assert(0 <= k < len) by (nonlinear_arith)
            requires
                k == r * w + c,
                c < w,
                r < height,
                len == w * height,
        ;
        lemma_fundamental_div_mod_converse(k, w, r as int, c as int);
        assert(got[k] == got[k]);
    }
    assert forall|i: int| 0 <= i < len implies pixels@[i] == shade_of(
        escape((i % w) as nat, (i / w) as nat),
    ) by {
        lemma_fundamental_div_mod(i, w);
        let r = (i / w) as nat;
        let c = (i % w) as nat;
        assert(r * w + c == i) by (nonlinear_arith)
            requires
                i == w * (i / w) + i % w,
                r == i / w,
                c == i % w,
                i >= 0,
                w > 0,
        ;
    }
    assert(pixels@ =~= image(width as nat, height as nat, escape));
}

/// Two images laid one under the other form the image of their rows
/// together.
proof fn lemma_image_stack(width: nat, a: nat, b: nat, escape: spec_fn(nat, nat) -> Option<u32>)
    requires
        width > 0,
    ensures
        image(width, a, escape) + image(width, b, shifted(escape, a)) == image(
            width,
            a + b,
            escape,
        ),
{
    let w = width as int;
    let upper = image(width, a, escape);
    let lower = image(width, b, shifted(escape, a));
    let whole = image(width, a + b, escape);
    assert(width * a + width * b == width * (a + b)) by (nonlinear_arith);
    assert forall|i: int| upper.len() <= i < whole.len() implies whole[i] == lower[i
        - upper.len()] by {
        let j = i - upper.len();
        lemma_fundamental_div_mod(j, w);
        assert(i == (j / w + a) * w + j % w) by (nonlinear_arith)
            requires
                j == w * (j / w) + j % w,
                i == j + w * a,
        ;
        lemma_fundamental_div_mod_converse(i, w, j / w + a, j % w);
    }
    assert(upper + lower =~= whole);
}

/// Rendering each band of a layout on its own, from the escape counts of its
/// own rows, and laying the bands' buffers end to end gives the same bytes as
/// rendering the whole image at once, for every width, height and number of
/// workers.
pub proof fn lemma_banded_render_is_whole_render(
    width: nat,
    height: nat,
    workers: nat,
    escape: spec_fn(nat, nat) -> Option<u32>,
)
    requires
        width > 0,
        workers > 0,
    ensures
        band_images(width, height, workers, escape).flatten() == image(width, height, escape),
{
    let parts = band_images(width, height, workers, escape);
    let per = band_height(height, workers);
    let count = band_count(height, workers);
    parts.lemma_flatten_and_flatten_alt_are_equivalent();
    if height == 0 {
        assert(0nat % workers == 0 && 0nat / workers == 0) by (nonlinear_arith)
            requires
                workers > 0,
        ;
        assert(width * height == 0) by (nonlinear_arith)
            requires
                height == 0,
        ;
        assert(image(width, height, escape) =~= Seq::<u8>::empty());
        return;
    }
    assert(per > 0) by {
        lemma_fundamental_div_mod(height as int, workers as int);
        let q = height / workers;
        let r = height % workers;
        assert(q > 0 || r > 0) by (nonlinear_arith)
            requires
                height == workers * q + r,
                height > 0,
        ;
    }
    lemma_band_prefix(width, height, workers, escape, count);
    assert(parts.subrange(0, count as int) =~= parts);
}

/// The first `k` bands of a layout, rendered on their own and laid end to
/// end, form the image of the rows above band `k`.
proof fn lemma_band_prefix(
    width: nat,
    height: nat,
    workers: nat,
    escape: spec_fn(nat, nat) -> Option<u32>,
    k: nat,
)
    requires
        width > 0,
        band_height(height, workers) > 0,
        k <= band_count(height, workers),
    ensures
        k < band_count(height, workers) ==> k * band_height(height, workers) < height,
        band_images(width, height, workers, escape).subrange(0, k as int).flatten_alt() == image(
            width,
            if k < band_count(height, workers) {
                k * band_height(height, workers)
            } else {
                height
            },
            escape,
        ),
    decreases k,
{
    let parts = band_images(width, height, workers, escape);
    let per = band_height(height, workers);
    let count = band_count(height, workers);
    lemma_band_index_bound(height, per, k);
    if k == 0 {
        assert(parts.subrange(0, 0).flatten_alt() =~= Seq::<u8>::empty());
        assert(width * 0 == 0 && 0 * per == 0) by (nonlinear_arith);
        assert(image(width, 0, escape) =~= Seq::<u8>::empty());
        if height == 0 {
            assert(width * height == 0) by (nonlinear_arith)
                requires
                    height == 0,
            ;
            assert(image(width, height, escape) =~= Seq::<u8>::empty());
        }
    } else {
        let j = (k - 1) as nat;
        lemma_band_prefix(width, height, workers, escape, j);
        let top = j * per;
        let rows = band_rows(height, workers, j);
        assert(parts.subrange(0, k as int).drop_last() =~= parts.subrange(0, j as int));
        lemma_image_stack(width, top, rows, escape);
        assert(k * per == top + per) by (nonlinear_arith)
            requires
                k == j + 1,
                top == j * per,
        ;
        let s = parts.subrange(0, k as int);
        assert(s.last() == image(width, rows, shifted(escape, top)));
        assert(s.flatten_alt() == s.drop_last().flatten_alt() + s.last());
        assert(s.flatten_alt() == image(width, top + rows, escape));
    }
}

} // verus!
