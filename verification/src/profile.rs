//! The horizontal projection profile of a page, and which of its rows hold text.
//!
//! A sample darker than mid-gray is ink. The profile counts the ink of each row, a centred
//! moving average smooths it, and a row belongs to a line of text when its smoothed density
//! exceeds a twentieth of the mean density of the rows that hold any ink.
//!
//! Densities are fixed-point numbers with 32 fractional bits, so that every comparison is exact
//! integer arithmetic and the same page always gives the same rows.

use crate::raster::GrayImage;
use crate::segmenter::LineSegmenter;
use vstd::prelude::*;

verus! {

/// Samples below this value are ink.
pub const INK_THRESHOLD: u8 = 128;

/// One, as a density: smoothed densities carry 32 fractional bits.
pub const DENSITY_ONE: u64 = 0x1_0000_0000;

/// A row is text when its density exceeds the mean density of the inked rows divided by this.
pub const GAP_DIVISOR: u64 = 20;

/// Whether a sample of this value is ink.
pub open spec fn is_ink(v: u8) -> bool {
    v < INK_THRESHOLD
}

/// Whether the page has ink at column `x` of row `y`.
pub open spec fn ink_at(page: &GrayImage, x: int, y: int) -> bool {
    is_ink(page.pixel(x, y))
}

/// Number of ink samples among the first `upto` columns of row `y`.
pub open spec fn ink_in_row(page: &GrayImage, y: int, upto: int) -> nat
    decreases upto,
{
    if upto <= 0 {
        0
    } else {
        ink_in_row(page, y, upto - 1) + if ink_at(page, upto - 1, y) {
            1nat
        } else {
            0nat
        }
    }
}

/// The projection profile of a page: for each row, how many of its samples are ink.
pub open spec fn histogram_of(page: &GrayImage) -> Seq<u32> {
    Seq::new(page.height as nat, |y: int| ink_in_row(page, y, page.width as int) as u32)
}

/// Sum of the profile over rows `lo` (included) to `hi` (excluded).
pub open spec fn sum_between(hist: Seq<u32>, lo: int, hi: int) -> int
    decreases hi - lo,
{
    if hi <= lo {
        0
    } else {
        sum_between(hist, lo, hi - 1) + hist[hi - 1]
    }
}

/// First row of the window centred on row `i` that reaches `half` rows to either side.
pub open spec fn window_start(i: int, half: int) -> int {
    if i >= half {
        i - half
    } else {
        0
    }
}

/// Row after the last one of the window centred on row `i`, in a profile of `rows` rows.
pub open spec fn window_end(i: int, half: int, rows: int) -> int {
    if i + half + 1 <= rows {
        i + half + 1
    } else {
        rows
    }
}

/// Smoothed density of row `i`: the mean of the profile over the rows of the page that lie
/// within `window / 2` rows of `i`, as a fixed-point number rounded down.
pub open spec fn smoothed_density(hist: Seq<u32>, window: u32, i: int) -> int {
    let half = (window / 2) as int;
    let lo = window_start(i, half);
    let hi = window_end(i, half, hist.len() as int);
    sum_between(hist, lo, hi) * DENSITY_ONE / (hi - lo)
}

/// The smoothed profile.
pub open spec fn densities_of(hist: Seq<u32>, window: u32) -> Seq<u64> {
    Seq::new(hist.len(), |i: int| smoothed_density(hist, window, i) as u64)
}

/// Number of rows with a positive density among the first `upto`.
pub open spec fn positive_rows(density: Seq<u64>, upto: int) -> nat
    decreases upto,
{
    if upto <= 0 {
        0
    } else {
        positive_rows(density, upto - 1) + if density[upto - 1] > 0 {
            1nat
        } else {
            0nat
        }
    }
}

/// Sum of the densities of the first `upto` rows.
pub open spec fn density_total(density: Seq<u64>, upto: int) -> nat
    decreases upto,
{
    if upto <= 0 {
        0
    } else {
        density_total(density, upto - 1) + density[upto - 1] as nat
    }
}

/// Whether row `y` belongs to a line of text: its density exceeds a twentieth of the mean
/// density of the rows whose density is positive. No row is text when no density is positive.
pub open spec fn is_text_row(density: Seq<u64>, y: int) -> bool {
    GAP_DIVISOR * positive_rows(density, density.len() as int) * density[y] > density_total(
        density,
        density.len() as int,
    )
}

/// For each row, whether it belongs to a line of text.
pub open spec fn text_mask(density: Seq<u64>) -> Seq<bool> {
    Seq::new(density.len(), |y: int| is_text_row(density, y))
}

/// The text rows of a page whose profile is smoothed over `window` rows.
pub open spec fn page_mask(page: &GrayImage, window: u32) -> Seq<bool> {
    text_mask(densities_of(histogram_of(page), window))
}

/// A row cannot hold more ink than it has columns.
pub proof fn lemma_ink_in_row_bound(page: &GrayImage, y: int, upto: int)
    requires
        0 <= upto,
    ensures
        ink_in_row(page, y, upto) <= upto,
    decreases upto,
{
    if upto > 0 {
        lemma_ink_in_row_bound(page, y, upto - 1);
    }
}

/// A sum of 32-bit counts over a range of rows is at most their number times the largest count.
pub proof fn lemma_sum_between_bound(hist: Seq<u32>, lo: int, hi: int)
    requires
        0 <= lo <= hi <= hist.len(),
    ensures
        0 <= sum_between(hist, lo, hi) <= (hi - lo) * 0xFFFF_FFFF,
    decreases hi - lo,
{
    if lo < hi {
        lemma_sum_between_bound(hist, lo, hi - 1);
    }
}

/// The mean of numbers that are at most `m`, scaled by `s`, is at most `m * s`.
pub proof fn lemma_scaled_mean_bound(sum: int, count: int, m: int, s: int)
    requires
        0 <= sum <= count * m,
        0 < count,
        0 <= s,
        0 <= m,
    ensures
        0 <= sum * s / count <= m * s,
{
    assert(0 <= sum * s <= (m * s) * count) by (nonlinear_arith)
        requires
            0 <= sum <= count * m,
            0 <= s,
    ;
    vstd::arithmetic::div_mod::lemma_div_is_ordered(0, sum * s, count);
    vstd::arithmetic::div_mod::lemma_div_is_ordered(sum * s, (m * s) * count, count);
    vstd::arithmetic::div_mod::lemma_div_by_multiple(m * s, count);
    assert(0int / count == 0) by (nonlinear_arith)
        requires
            0 < count,
    ;
}

/// No density exceeds the widest possible row, as a fixed-point number.
pub proof fn lemma_density_bound(hist: Seq<u32>, window: u32, i: int)
    requires
        0 <= i < hist.len(),
    ensures
        0 <= smoothed_density(hist, window, i) <= 0xFFFF_FFFF * DENSITY_ONE,
{
    let half = (window / 2) as int;
    let lo = window_start(i, half);
    let hi = window_end(i, half, hist.len() as int);
    lemma_sum_between_bound(hist, lo, hi);
    lemma_scaled_mean_bound(sum_between(hist, lo, hi), hi - lo, 0xFFFF_FFFF, DENSITY_ONE as int);
}

/// The window of a row of the profile holds at least that row and at most `window` rows, few
/// enough for a single ink sample to show in the density.
pub proof fn lemma_window(hist: Seq<u32>, window: u32, i: int)
    requires
        0 <= i < hist.len(),
    ensures
        0 <= window_start(i, (window / 2) as int) <= i,
        i < window_end(i, (window / 2) as int, hist.len() as int) <= hist.len(),
        window_end(i, (window / 2) as int, hist.len() as int) - window_start(
            i,
            (window / 2) as int,
        ) <= 0xFFFF_FFFF,
{
}

/// The smoothed density is the mean of the window, rounded down to a multiple of `2^-32`.
pub proof fn lemma_density_is_rounded_mean(hist: Seq<u32>, window: u32, i: int)
    requires
        0 <= i < hist.len(),
    ensures
        ({
            let half = (window / 2) as int;
            let lo = window_start(i, half);
            let hi = window_end(i, half, hist.len() as int);
            let density = smoothed_density(hist, window, i);
            &&& density * (hi - lo) <= sum_between(hist, lo, hi) * DENSITY_ONE
            &&& sum_between(hist, lo, hi) * DENSITY_ONE < (density + 1) * (hi - lo)
        }),
{
    let half = (window / 2) as int;
    let lo = window_start(i, half);
    let hi = window_end(i, half, hist.len() as int);
    let scaled = sum_between(hist, lo, hi) * DENSITY_ONE;
    let count = hi - lo;
    let density = scaled / count;
    vstd::arithmetic::div_mod::lemma_fundamental_div_mod(scaled, count);
    vstd::arithmetic::div_mod::lemma_mod_bound(scaled, count);
    assert(count * density == density * count) by (nonlinear_arith);
    assert((density + 1) * count == density * count + count) by (nonlinear_arith);
}

/// A row has a positive density exactly when its window holds ink: rounding never hides ink.
pub proof fn lemma_density_positive(hist: Seq<u32>, window: u32, i: int)
    requires
        0 <= i < hist.len(),
    ensures
        ({
            let half = (window / 2) as int;
            let lo = window_start(i, half);
            let hi = window_end(i, half, hist.len() as int);
            smoothed_density(hist, window, i) > 0 <==> sum_between(hist, lo, hi) > 0
        }),
{
    let half = (window / 2) as int;
    let lo = window_start(i, half);
    let hi = window_end(i, half, hist.len() as int);
    let sum = sum_between(hist, lo, hi);
    let count = hi - lo;
    lemma_window(hist, window, i);
    lemma_sum_between_bound(hist, lo, hi);
    lemma_density_is_rounded_mean(hist, window, i);
    let density = smoothed_density(hist, window, i);
    if sum > 0 {
        assert(sum * DENSITY_ONE >= count) by (nonlinear_arith)
            requires
                sum >= 1,
                DENSITY_ONE == 0x1_0000_0000,
                0 < count <= 0xFFFF_FFFF,
        ;
        if density <= 0 {
            assert((density + 1) * count <= count) by (nonlinear_arith)
                requires
                    density <= 0,
                    count > 0,
            ;
        }
    } else {
        assert(sum * DENSITY_ONE == 0) by (nonlinear_arith)
            requires
                sum == 0,
        ;
        if density > 0 {
            assert(density * count > 0) by (nonlinear_arith)
                requires
                    density > 0,
                    count > 0,
            ;
        }
    }
}

/// Without smoothing the density of a row is its ink count.
pub proof fn lemma_density_unsmoothed(hist: Seq<u32>, window: u32, i: int)
    requires
        0 <= i < hist.len(),
        window <= 1,
    ensures
        smoothed_density(hist, window, i) == hist[i] * DENSITY_ONE,
{
    assert(sum_between(hist, i, i + 1) == sum_between(hist, i, i) + hist[i]);
    assert(sum_between(hist, i, i) == 0);
    let scaled = hist[i] * DENSITY_ONE;
    assert(scaled / 1 == scaled);
}

/// The projection profile of a page.
pub fn ink_histogram(page: &GrayImage) -> (hist: Vec<u32>)
    requires
        page.wf(),
    ensures
        hist@ == histogram_of(page),
{
    let mut hist: Vec<u32> = Vec::new();
    let mut y: u32 = 0;
    while y < page.height
        invariant
            page.wf(),
            y <= page.height,
            hist@.len() == y,
            forall|r: int| 0 <= r < y ==> #[trigger] hist@[r] == ink_in_row(page, r, page.width as int),
        decreases page.height - y,
    {
        let mut count: u32 = 0;
        let mut x: u32 = 0;
        while x < page.width
            invariant
                page.wf(),
                y < page.height,
                x <= page.width,
                count == ink_in_row(page, y as int, x as int),
                count <= x,
            decreases page.width - x,
        {
            if page.get(x, y) < INK_THRESHOLD {
                count = count + 1;
            }
            x = x + 1;
        }
        hist.push(count);
        y = y + 1;
    }
    proof {
        assert forall|r: int| 0 <= r < page.height implies hist@[r] == #[trigger] histogram_of(
            page,
        )[r] by {
            lemma_ink_in_row_bound(page, r, page.width as int);
        }
        assert(hist@ =~= histogram_of(page));
    }
    hist
}

impl LineSegmenter {
    /// The profile smoothed by a centred moving average over `smooth_window` rows. Near the
    /// top and the bottom the average runs over the rows that exist, and over nothing else.
    pub fn smooth_histogram(&self, hist: &Vec<u32>) -> (density: Vec<u64>)
        ensures
            density@ == densities_of(hist@, self.smooth_window),
    {
        let rows: usize = hist.len();
        let half: usize = (self.smooth_window / 2) as usize;
        let mut density: Vec<u64> = Vec::new();
        let mut i: usize = 0;
        while i < rows
            invariant
                rows == hist@.len(),
                half == (self.smooth_window / 2) as int,
                i <= rows,
                density@.len() == i,
                forall|r: int|
                    0 <= r < i ==> #[trigger] density@[r] == smoothed_density(
                        hist@,
                        self.smooth_window,
                        r,
                    ),
            decreases rows - i,
        {
            let lo: usize = if i >= half {
                i - half
            } else {
                0
            };
            let hi: usize = if half < rows - i {
                i + half + 1
            } else {
                rows
            };
            let mut sum: u128 = 0;
            let mut j: usize = lo;
            while j < hi
                invariant
                    rows == hist@.len(),
                    lo <= j <= hi <= rows,
                    sum == sum_between(hist@, lo as int, j as int),
                    sum <= (j - lo) * 0xFFFF_FFFF,
                decreases hi - j,
            {
                assert((j - lo) * 0xFFFF_FFFF <= 0xFFFF_FFFF_FFFF_FFFF * 0xFFFF_FFFF)
                    by (nonlinear_arith)
                    requires
                        0 <= j - lo <= 0xFFFF_FFFF_FFFF_FFFF,
                ;
                sum = sum + hist[j] as u128;
                j = j + 1;
            }
            let count: u128 = (hi - lo) as u128;
            proof {
                assert(lo == window_start(i as int, half as int));
                assert(hi == window_end(i as int, half as int, rows as int));
                lemma_scaled_mean_bound(sum as int, count as int, 0xFFFF_FFFF, DENSITY_ONE as int);
                assert(sum * DENSITY_ONE <= (0xFFFF_FFFF_FFFF_FFFF * 0xFFFF_FFFF) * 0x1_0000_0000)
                    by (nonlinear_arith)
                    requires
                        0 <= sum <= count * 0xFFFF_FFFF,
                        0 <= count <= 0xFFFF_FFFF_FFFF_FFFF,
                        DENSITY_ONE == 0x1_0000_0000,
                ;
            }
            let scaled: u128 = sum * (DENSITY_ONE as u128);
            let mean: u128 = scaled / count;
            density.push(mean as u64);
            i = i + 1;
        }
        proof {
            assert forall|r: int| 0 <= r < rows implies density@[r] == #[trigger] densities_of(
                hist@,
                self.smooth_window,
            )[r] by {
                lemma_density_bound(hist@, self.smooth_window, r);
            }
            assert(density@ =~= densities_of(hist@, self.smooth_window));
        }
        density
    }
}

/// A product exceeds a number exactly when the one factor exceeds the number divided by the
/// other, rounded down.
pub proof fn lemma_product_exceeds(weight: int, d: int, total: int)
    requires
        0 < weight,
        0 <= d,
        0 <= total,
    ensures
        weight * d > total <==> d > total / weight,
{
    vstd::arithmetic::div_mod::lemma_fundamental_div_mod(total, weight);
    let q = total / weight;
    let r = total % weight;
    assert(0 <= r < weight) by {
        vstd::arithmetic::div_mod::lemma_mod_bound(total, weight);
    }
    if d > q {
        assert(weight * d >= weight * (q + 1)) by (nonlinear_arith)
            requires
                d >= q + 1,
                0 < weight,
        ;
        assert(weight * (q + 1) == weight * q + weight) by (nonlinear_arith);
    } else {
        assert(weight * d <= weight * q) by (nonlinear_arith)
            requires
                d <= q,
                0 < weight,
        ;
    }
}

/// For each row of a smoothed profile, whether it belongs to a line of text.
pub fn text_rows(density: &Vec<u64>) -> (mask: Vec<bool>)
    ensures
        mask@ == text_mask(density@),
{
    let rows: usize = density.len();
    let mut inked: u64 = 0;
    let mut total: u128 = 0;
    let mut i: usize = 0;
    while i < rows
        invariant
            rows == density@.len(),
            i <= rows,
            inked == positive_rows(density@, i as int),
            total == density_total(density@, i as int),
            inked <= i,
            total <= i * 0xFFFF_FFFF_FFFF_FFFF,
        decreases rows - i,
    {
        assert(i * 0xFFFF_FFFF_FFFF_FFFF <= 0xFFFF_FFFF_FFFF_FFFE * 0xFFFF_FFFF_FFFF_FFFF)
            by (nonlinear_arith)
            requires
                0 <= i <= 0xFFFF_FFFF_FFFF_FFFE,
        ;
        if density[i] > 0 {
            inked = inked + 1;
        }
        total = total + density[i] as u128;
        i = i + 1;
    }
    // a row passes when 20 * inked * density > total
    let weight: u128 = (GAP_DIVISOR as u128) * (inked as u128);
    let bar: u128 = if weight > 0 {
        total / weight
    } else {
        0
    };
    let mut mask: Vec<bool> = Vec::new();
    let mut y: usize = 0;
    while y < rows
        invariant
            rows == density@.len(),
            y <= rows,
            weight == GAP_DIVISOR * positive_rows(density@, rows as int),
            total == density_total(density@, rows as int),
            weight > 0 ==> bar == total / weight,
            mask@.len() == y,
            forall|r: int| 0 <= r < y ==> #[trigger] mask@[r] == is_text_row(density@, r),
        decreases rows - y,
    {
        let d: u128 = density[y] as u128;
        let passes: bool = weight > 0 && d > bar;
        proof {
            if weight > 0 {
                lemma_product_exceeds(weight as int, d as int, total as int);
            } else {
                assert(weight * d == 0) by (nonlinear_arith)
                    requires
                        weight == 0,
                ;
            }
        }
        mask.push(passes);
        y = y + 1;
    }
    assert(mask@ =~= text_mask(density@));
    mask
}

} // verus!
