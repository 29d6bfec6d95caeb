//! Partition of an image's rows into contiguous bands, one unit of parallel
//! work each.
//!
//! With `workers` workers, every band but the last holds
//! `ceil(height / workers)` rows, and the last holds what remains.

use vstd::prelude::*;
use vstd::arithmetic::div_mod::lemma_fundamental_div_mod;
use vstd::arithmetic::mul::{lemma_mul_inequality, lemma_mul_strict_inequality};

verus! {

/// `a / b` rounded up; zero when `b` is zero.
pub open spec fn ceil_div(a: nat, b: nat) -> nat {
    if b == 0 {
        0
    } else if a % b == 0 {
        a / b
    } else {
        a / b + 1
    }
}

/// Rows in every band but the last.
pub open spec fn band_height(height: nat, workers: nat) -> nat {
    ceil_div(height, workers)
}

/// Number of bands that the rows are split into.
pub open spec fn band_count(height: nat, workers: nat) -> nat {
    ceil_div(height, band_height(height, workers))
}

/// First row of band `i`.
pub open spec fn band_top(height: nat, workers: nat, i: nat) -> nat {
    i * band_height(height, workers)
}

/// Number of rows in band `i`: a full band, or what is left of the image.
pub open spec fn band_rows(height: nat, workers: nat, i: nat) -> nat {
    let top = band_top(height, workers, i);
    let per = band_height(height, workers);
    if top >= height {
        0
    } else if height - top < per {
        (height - top) as nat
    } else {
        per
    }
}

/// Row `row` lies in band `i`.
pub open spec fn band_holds_row(height: nat, workers: nat, i: nat, row: nat) -> bool {
    band_top(height, workers, i) <= row < band_top(height, workers, i) + band_rows(
        height,
        workers,
        i,
    )
}

/// The band that row `row` falls in.
pub open spec fn band_of_row(height: nat, workers: nat, row: nat) -> nat {
    row / band_height(height, workers)
}

/// A horizontal slice of an image: `rows` rows starting at row `top`.
#[derive(Clone, Copy, Debug, PartialEq, Eq, Structural)]
pub struct Band {
    pub top: usize,
    pub rows: usize,
}

impl Band {
    /// The offsets `[start, end)` that this band covers in a row-major buffer
    /// of the given width.
    pub fn byte_range(&self, width: usize) -> (r: (usize, usize))
        requires
            self.top + self.rows <= usize::MAX,
            (self.top + self.rows) * width <= usize::MAX,
        ensures
            r.0 == self.top * width,
            r.1 == (self.top + self.rows) * width,
            r.1 - r.0 == self.rows * width,
    {
        proof {
            assert(self.top * width <= (self.top + self.rows) * width) by (nonlinear_arith);
            assert((self.top + self.rows) * width - self.top * width == self.rows * width)
                by (nonlinear_arith);
        }
        let start = self.top * width;
        let end = (self.top + self.rows) * width;
        (start, end)
    }
}

/// `i` counts a band exactly when the band starts inside the image.
pub(crate) proof fn lemma_band_index_bound(height: nat, per: nat, i: nat)
    requires
        per > 0,
    ensures
        i < ceil_div(height, per) <==> i * per < height,
{
    lemma_fundamental_div_mod(height as int, per as int);
    let q = height / per;
    let r = height % per;
    assert(height == per * q + r);
    if i < q {
        assert(i * per < height) by (nonlinear_arith)
            requires
                i < q,
                per > 0,
                height == per * q + r,
        ;
    } else if i == q {
        assert(i * per == height - r) by (nonlinear_arith)
            requires
                i == q,
                height == per * q + r,
        ;
    } else {
        assert(i * per > height) by (nonlinear_arith)
            requires
                i > q,
                r < per,
                height == per * q + r,
        ;
    }
}

/// A quotient that leaves a remainder is smaller than the dividend.
proof fn lemma_quotient_room(a: nat, b: nat)
    requires
        b > 0,
    ensures
        a % b != 0 ==> a / b < a,
{
    lemma_fundamental_div_mod(a as int, b as int);
    let q = a / b;
    let r = a % b;
    if r != 0 {
        assert(q < a) by (nonlinear_arith)
            requires
                a == b * q + r,
                b > 0,
                r > 0,
        ;
    }
}

/// The rows per band for a height split among `workers` workers:
/// `ceil(height / workers)`.
pub fn rows_per_band(height: usize, workers: usize) -> (r: usize)
    requires
        workers > 0,
    ensures
        r == band_height(height as nat, workers as nat),
{
    proof {
        lemma_quotient_room(height as nat, workers as nat);
    }
    if height % workers == 0 {
        height / workers
    } else {
        height / workers + 1
    }
}

/// The bands that split `height` rows among `workers` workers, top to bottom.
pub fn band_layout(height: usize, workers: usize) -> (bands: Vec<Band>)
    requires
        workers > 0,
    ensures
        bands.len() == band_count(height as nat, workers as nat),
        forall|i: int|
            0 <= i < bands.len() ==> (#[trigger] bands[i]).top == band_top(
                height as nat,
                workers as nat,
                i as nat,
            ) && bands[i].rows == band_rows(height as nat, workers as nat, i as nat),
{
    let per = rows_per_band(height, workers);
    proof {
        if per > 0 {
            lemma_quotient_room(height as nat, per as nat);
        }
    }
    let count: usize = if per == 0 {
        0
    } else if height % per == 0 {
        height / per
    } else {
        height / per + 1
    };
    let mut bands: Vec<Band> = Vec::new();
    let mut i: usize = 0;
    while i < count
        invariant
            per == band_height(height as nat, workers as nat),
            count == band_count(height as nat, workers as nat),
            i <= count,
            bands.len() == i,
            forall|j: int|
                0 <= j < i ==> (#[trigger] bands[j]).top == band_top(
                    height as nat,
                    workers as nat,
                    j as nat,
                ) && bands[j].rows == band_rows(height as nat, workers as nat, j as nat),
        decreases count - i,
    {
        proof {
            lemma_band_index_bound(height as nat, per as nat, i as nat);
        }
        let top = i * per;
        let rows = if height - top < per {
            height - top
        } else {
            per
        };
        bands.push(Band { top, rows });
        i += 1;
    }
    bands
}

/// Every band of the layout is non-empty and lies inside the image, and
/// every row of the image lies in exactly one band, whatever the height and
/// the number of workers.
pub proof fn lemma_band_tiling(height: nat, workers: nat)
    requires
        workers > 0,
    ensures
        band_count(height, workers) <= workers,
        forall|i: nat|
            i < band_count(height, workers) ==> 0 < #[trigger] band_rows(height, workers, i)
                && band_top(height, workers, i) + band_rows(height, workers, i) <= height,
        forall|row: nat|
            row < height ==> #[trigger] band_of_row(height, workers, row) < band_count(
                height,
                workers,
            ) && band_holds_row(height, workers, band_of_row(height, workers, row), row),
        forall|i: nat, j: nat, row: nat|
            i < band_count(height, workers) && j < band_count(height, workers)
                && #[trigger] band_holds_row(height, workers, i, row) && #[trigger] band_holds_row(
                height,
                workers,
                j,
                row,
            ) ==> i == j,
{
    let per = band_height(height, workers);
    let count = band_count(height, workers);
    if height == 0 {
        assert(0nat % workers == 0 && 0nat / workers == 0) by (nonlinear_arith)
            requires
                workers > 0,
        ;
        return;
    }
    assert(per > 0) by {
        lemma_fundamental_div_mod(height as int, workers as int);
    }
    assert(count <= workers) by {
        lemma_band_index_bound(height, per, workers);
        lemma_fundamental_div_mod(height as int, workers as int);
        lemma_mul_inequality(workers as int, workers as int, (height / workers) as int);
        let q = height / workers;
        let r = height % workers;
        assert(workers * per >= height) by (nonlinear_arith)
            requires
                height == workers * q + r,
                r == 0 ==> per == q,
                r != 0 ==> per == q + 1,
                r < workers,
        ;
    }
    assert forall|i: nat| i < count implies 0 < #[trigger] band_rows(height, workers, i)
        && band_top(height, workers, i) + band_rows(height, workers, i) <= height by {
        lemma_band_index_bound(height, per, i);
    }
    assert forall|row: nat| row < height implies #[trigger] band_of_row(height, workers, row)
        < band_count(height, workers) && band_holds_row(
        height,
        workers,
        band_of_row(height, workers, row),
        row,
    ) by {
        lemma_fundamental_div_mod(row as int, per as int);
        let i = row / per;
        assert(i * per <= row) by (nonlinear_arith)
            requires
                row == per * i + row % per,
                row % per >= 0,
        ;
        let m = row % per;
        assert(row < i * per + per) by (nonlinear_arith)
            requires
                row == per * i + m,
                m < per,
        ;
        lemma_band_index_bound(height, per, i);
        assert(band_holds_row(height, workers, i, row));
    }
    assert forall|i: nat, j: nat, row: nat|
        i < count && j < count && #[trigger] band_holds_row(height, workers, i, row)
            && #[trigger] band_holds_row(height, workers, j, row) implies i == j by {
        if i < j {
            lemma_mul_inequality((i + 1) as int, j as int, per as int);
            assert((i + 1) * per == i * per + per) by (nonlinear_arith);
        } else if j < i {
            lemma_mul_inequality((j + 1) as int, i as int, per as int);
            assert((j + 1) * per == j * per + per) by (nonlinear_arith);
        }
    }
}

} // verus!
