//! Pages that hold two bands of ink: why they are split into exactly two lines.
//!
//! A band is a range of rows that are ink from edge to edge. On a page that holds two bands
//! and no other ink, with a gap between them that is taller than the smoothing window, the
//! detector finds two lines, one around each band, provided each band is tall enough to be a
//! line and taller than half the window. A thinner band can be smoothed away: next to a thick
//! band its density may fall below the gap threshold.

use crate::profile::{
    densities_of, density_total, histogram_of, ink_at, ink_in_row, is_text_row,
    lemma_density_bound, lemma_density_is_rounded_mean, lemma_scaled_mean_bound,
    lemma_sum_between_bound, page_mask, positive_rows, smoothed_density, sum_between,
    window_end, window_start, DENSITY_ONE, GAP_DIVISOR,
};
use crate::raster::GrayImage;
use crate::segmenter::{
    column_has_ink, has_ink, ink_extent, is_line_of, is_line_region,
    is_text_run, lemma_line_regions, lemma_line_regions_complete, lemma_lines_lie_in_order,
    lemma_padded_box, lemma_run_start, line_regions, lines_lie_in_order, lines_match, run_start,
    spans_ink, LineSegment,
};
use vstd::prelude::*;

verus! {

/// Whether row `y` lies in one of the bands `a1..b1` and `a2..b2`.
pub open spec fn in_band(y: int, a1: int, b1: int, a2: int, b2: int) -> bool {
    a1 <= y < b1 || a2 <= y < b2
}

/// Whether the page holds the two bands `a1..b1` and `a2..b2`, the first above the second with
/// a gap between them, and no other ink: a sample is ink exactly when its row lies in a band.
pub open spec fn is_two_band_page(page: &GrayImage, a1: int, b1: int, a2: int, b2: int) -> bool {
    &&& page.wf()
    &&& page.width >= 1
    &&& 0 <= a1 < b1 < a2 < b2 <= page.height
    &&& forall|x: int, y: int|
        0 <= x < page.width && 0 <= y < page.height ==> (#[trigger] ink_at(page, x, y) <==> in_band(
            y,
            a1,
            b1,
            a2,
            b2,
        ))
}

/// Row after the last one of the run of text rows that starts at row `y`; `y` itself when row
/// `y` is not text.
pub open spec fn run_end(mask: Seq<bool>, y: int) -> int
    decreases mask.len() - y,
{
    if 0 <= y < mask.len() && mask[y] {
        run_end(mask, y + 1)
    } else {
        y
    }
}

/// The run that starts at row `y` ends at or below `y`, holds text rows only and cannot be
/// extended downwards.
pub proof fn lemma_run_end(mask: Seq<bool>, y: int)
    requires
        0 <= y <= mask.len(),
    ensures
        y <= run_end(mask, y) <= mask.len(),
        forall|r: int| y <= r < run_end(mask, y) ==> #[trigger] mask[r],
        run_end(mask, y) == mask.len() || !mask[run_end(mask, y)],
    decreases mask.len() - y,
{
    if y < mask.len() && mask[y] {
        lemma_run_end(mask, y + 1);
    }
}

/// Two maximal runs of text rows that share a row are the same run.
pub proof fn lemma_runs_sharing_a_row(mask: Seq<bool>, t: int, b: int, u: int, c: int, y: int)
    requires
        is_text_run(mask, t, b),
        is_text_run(mask, u, c),
        t <= y < b,
        u <= y < c,
    ensures
        t == u,
        b == c,
{
    if t < u {
        assert(mask[u - 1]);
    }
    if u < t {
        assert(mask[t - 1]);
    }
    if b < c {
        assert(mask[b]);
    }
    if c < b {
        assert(mask[c]);
    }
}

/// A row that is ink up to column `upto` counts `upto` ink samples; a row without ink up to
/// there counts none.
pub proof fn lemma_ink_in_uniform_row(page: &GrayImage, y: int, upto: int)
    requires
        0 <= upto,
    ensures
        (forall|x: int| 0 <= x < upto ==> ink_at(page, x, y)) ==> ink_in_row(page, y, upto) == upto,
        (forall|x: int| 0 <= x < upto ==> !ink_at(page, x, y)) ==> ink_in_row(page, y, upto) == 0,
    decreases upto,
{
    if upto > 0 {
        lemma_ink_in_uniform_row(page, y, upto - 1);
    }
}

/// The profile of a page of two bands: the width of the page in the rows of the bands, nothing
/// elsewhere.
pub proof fn lemma_band_profile(page: &GrayImage, a1: int, b1: int, a2: int, b2: int, y: int)
    requires
        is_two_band_page(page, a1, b1, a2, b2),
        0 <= y < page.height,
    ensures
        histogram_of(page).len() == page.height,
        histogram_of(page)[y] == if in_band(y, a1, b1, a2, b2) {
            page.width
        } else {
            0u32
        },
{
    lemma_ink_in_uniform_row(page, y, page.width as int);
    if in_band(y, a1, b1, a2, b2) {
        assert forall|x: int| 0 <= x < page.width implies ink_at(page, x, y) by {}
    } else {
        assert forall|x: int| 0 <= x < page.width implies !ink_at(page, x, y) by {}
    }
}

/// A sum over a range of rows is the sum over its upper part and its lower part.
pub proof fn lemma_sum_split(hist: Seq<u32>, lo: int, mid: int, hi: int)
    requires
        lo <= mid <= hi,
    ensures
        sum_between(hist, lo, hi) == sum_between(hist, lo, mid) + sum_between(hist, mid, hi),
    decreases hi - mid,
{
    if mid < hi {
        lemma_sum_split(hist, lo, mid, hi - 1);
    }
}

/// Rows that all count `w` add up to `w` times their number; rows that count at most `w`, to
/// at most that.
pub proof fn lemma_sum_of_rows(hist: Seq<u32>, lo: int, hi: int, w: int)
    requires
        0 <= lo <= hi <= hist.len(),
    ensures
        (forall|k: int| lo <= k < hi ==> #[trigger] hist[k] == w) ==> sum_between(hist, lo, hi) == (hi
            - lo) * w,
        (forall|k: int| lo <= k < hi ==> #[trigger] hist[k] <= w) ==> sum_between(hist, lo, hi) <= (hi
            - lo) * w,
    decreases hi - lo,
{
    if lo < hi {
        lemma_sum_of_rows(hist, lo, hi - 1, w);
        assert((hi - lo) * w == (hi - 1 - lo) * w + w) by (nonlinear_arith);
    } else {
        assert((hi - lo) * w == 0) by (nonlinear_arith)
            requires
                hi - lo == 0,
        ;
    }
}

/// On a page of two bands no row is denser than a row that is all ink.
pub proof fn lemma_band_density_at_most(
    page: &GrayImage,
    a1: int,
    b1: int,
    a2: int,
    b2: int,
    window: u32,
    y: int,
)
    requires
        is_two_band_page(page, a1, b1, a2, b2),
        0 <= y < page.height,
    ensures
        0 <= smoothed_density(histogram_of(page), window, y) <= page.width * DENSITY_ONE,
{
    let hist = histogram_of(page);
    let half = (window / 2) as int;
    let lo = window_start(y, half);
    let hi = window_end(y, half, hist.len() as int);
    assert forall|k: int| lo <= k < hi implies #[trigger] hist[k] <= page.width by {
        lemma_band_profile(page, a1, b1, a2, b2, k);
    }
    lemma_sum_of_rows(hist, lo, hi, page.width as int);
    lemma_sum_between_bound(hist, lo, hi);
    assert((hi - lo) * page.width == (hi - lo) * (page.width as int));
    lemma_scaled_mean_bound(
        sum_between(hist, lo, hi),
        hi - lo,
        page.width as int,
        DENSITY_ONE as int,
    );
}

/// A row whose window reaches no band has density zero.
pub proof fn lemma_gap_density(
    page: &GrayImage,
    a1: int,
    b1: int,
    a2: int,
    b2: int,
    window: u32,
    y: int,
)
    requires
        is_two_band_page(page, a1, b1, a2, b2),
        0 <= y < page.height,
        forall|k: int|
            window_start(y, (window / 2) as int) <= k < window_end(
                y,
                (window / 2) as int,
                page.height as int,
            ) ==> !in_band(k, a1, b1, a2, b2),
    ensures
        smoothed_density(histogram_of(page), window, y) == 0,
{
    let hist = histogram_of(page);
    let half = (window / 2) as int;
    let lo = window_start(y, half);
    let hi = window_end(y, half, hist.len() as int);
    assert forall|k: int| lo <= k < hi implies #[trigger] hist[k] == 0 by {
        lemma_band_profile(page, a1, b1, a2, b2, k);
    }
    lemma_sum_of_rows(hist, lo, hi, 0);
    assert((hi - lo) * 0 == 0);
    assert(sum_between(hist, lo, hi) * DENSITY_ONE == 0) by (nonlinear_arith)
        requires
            sum_between(hist, lo, hi) == 0,
    ;
    assert(0int / (hi - lo) == 0) by (nonlinear_arith)
        requires
            hi - lo > 0,
    ;
}

/// A row of a band that is taller than half the window is more than a twentieth as dense as a
/// row that is all ink and far from any edge.
pub proof fn lemma_band_density(page: &GrayImage, a: int, b: int, window: u32, y: int)
    requires
        page.wf(),
        page.width >= 1,
        0 <= a <= y < b <= page.height,
        b - a >= window / 2 + 1,
        histogram_of(page).len() == page.height,
        forall|k: int| a <= k < b ==> #[trigger] histogram_of(page)[k] == page.width,
    ensures
        20 * smoothed_density(histogram_of(page), window, y) > page.width * DENSITY_ONE,
{
    let hist = histogram_of(page);
    let half = (window / 2) as int;
    let lo = window_start(y, half);
    let hi = window_end(y, half, hist.len() as int);
    let w = page.width as int;
    // half + 1 rows of the band lie in the window
    let p = if y - a >= half {
        y - half
    } else {
        a
    };
    let q = p + half + 1;
    assert(lo <= p && q <= hi && a <= p && q <= b);
    lemma_sum_split(hist, lo, p, hi);
    lemma_sum_split(hist, p, q, hi);
    lemma_sum_between_bound(hist, lo, p);
    lemma_sum_between_bound(hist, q, hi);
    assert forall|k: int| p <= k < q implies #[trigger] hist[k] == w by {}
    lemma_sum_of_rows(hist, p, q, w);
    let sum = sum_between(hist, lo, hi);
    assert(sum >= (half + 1) * w);
    lemma_density_is_rounded_mean(hist, window, y);
    lemma_density_bound(hist, window, y);
    let d = smoothed_density(hist, window, y);
    let c = hi - lo;
    let m = 2 * half + 1;
    let full = w * DENSITY_ONE;
    assert(1 <= c <= m);
    assert(full >= 0x1_0000_0000) by (nonlinear_arith)
        requires
            full == w * DENSITY_ONE,
            w >= 1,
            DENSITY_ONE == 0x1_0000_0000,
    ;
    assert(sum * DENSITY_ONE >= (half + 1) * full) by (nonlinear_arith)
        requires
            sum >= (half + 1) * w,
            full == w * DENSITY_ONE,
            DENSITY_ONE == 0x1_0000_0000,
    ;
    assert((d + 1) * m >= (d + 1) * c) by (nonlinear_arith)
        requires
            d >= 0,
            c <= m,
    ;
    assert(2 * ((half + 1) * full) == m * full + full) by (nonlinear_arith)
        requires
            m == 2 * half + 1,
    ;
    // so m * (2 * (d + 1)) > m * full
    assert(2 * (d + 1) > full) by (nonlinear_arith)
        requires
            2 * ((d + 1) * m) > m * full,
            m >= 1,
            d >= 0,
            full >= 0,
    ;
}

/// Densities that are all at most `m` add up to at most `m` for each positive one.
pub proof fn lemma_total_at_most(density: Seq<u64>, upto: int, m: int)
    requires
        0 <= upto <= density.len(),
        forall|i: int| 0 <= i < upto ==> #[trigger] density[i] <= m,
    ensures
        density_total(density, upto) <= positive_rows(density, upto) * m,
    decreases upto,
{
    if upto > 0 {
        lemma_total_at_most(density, upto - 1, m);
        let n = positive_rows(density, upto - 1) as int;
        assert((n + 1) * m == n * m + m) by (nonlinear_arith);
    } else {
        assert(0 * m == 0);
    }
}

/// A positive density among the first `upto` makes their count of positive rows positive.
pub proof fn lemma_some_row_positive(density: Seq<u64>, upto: int, y: int)
    requires
        0 <= y < upto <= density.len(),
        density[y] > 0,
    ensures
        positive_rows(density, upto) >= 1,
    decreases upto,
{
    if y < upto - 1 {
        lemma_some_row_positive(density, upto - 1, y);
    }
}

/// Which rows of a page of two bands are text for certain: every row of a band that is taller
/// than half the window is, and no row is whose window reaches no band.
pub proof fn lemma_band_rows(page: &GrayImage, a1: int, b1: int, a2: int, b2: int, window: u32, y: int)
    requires
        is_two_band_page(page, a1, b1, a2, b2),
        0 <= y < page.height,
    ensures
        page_mask(page, window).len() == page.height,
        a1 <= y < b1 && b1 - a1 >= window / 2 + 1 ==> page_mask(page, window)[y],
        a2 <= y < b2 && b2 - a2 >= window / 2 + 1 ==> page_mask(page, window)[y],
        (forall|k: int|
            window_start(y, (window / 2) as int) <= k < window_end(
                y,
                (window / 2) as int,
                page.height as int,
            ) ==> !in_band(k, a1, b1, a2, b2)) ==> !page_mask(page, window)[y],
{
    let hist = histogram_of(page);
    let density = densities_of(hist, window);
    let rows = page.height as int;
    let full = page.width * DENSITY_ONE;
    assert forall|i: int| 0 <= i < rows implies #[trigger] density[i] == smoothed_density(
        hist,
        window,
        i,
    ) && density[i] <= full by {
        lemma_density_bound(hist, window, i);
        lemma_band_density_at_most(page, a1, b1, a2, b2, window, i);
    }
    lemma_total_at_most(density, rows, full);
    let n = positive_rows(density, rows) as int;
    let total = density_total(density, rows) as int;
    let d = density[y] as int;
    let in_first = a1 <= y < b1 && b1 - a1 >= window / 2 + 1;
    let in_second = a2 <= y < b2 && b2 - a2 >= window / 2 + 1;
    if in_first || in_second {
        let a = if in_first {
            a1
        } else {
            a2
        };
        let b = if in_first {
            b1
        } else {
            b2
        };
        assert forall|k: int| a <= k < b implies #[trigger] hist[k] == page.width by {
            lemma_band_profile(page, a1, b1, a2, b2, k);
        }
        lemma_band_density(page, a, b, window, y);
        assert(20 * d > full);
        assert(full >= 0) by (nonlinear_arith)
            requires
                full == page.width * DENSITY_ONE,
        ;
        lemma_some_row_positive(density, rows, y);
        assert(GAP_DIVISOR * n * d > n * full) by (nonlinear_arith)
            requires
                20 * d > full,
                n >= 1,
                GAP_DIVISOR == 20,
        ;
        assert(is_text_row(density, y));
    }
    if forall|k: int|
        window_start(y, (window / 2) as int) <= k < window_end(y, (window / 2) as int, rows)
            ==> !in_band(k, a1, b1, a2, b2) {
        lemma_gap_density(page, a1, b1, a2, b2, window, y);
        assert(d == 0);
        assert(GAP_DIVISOR * n * d == 0) by (nonlinear_arith)
            requires
                d == 0,
        ;
        assert(!is_text_row(density, y));
    }
}

/// A page that holds two bands and no other ink is split into exactly two lines, the first
/// around the first band and the second around the second, provided the gap between the bands
/// is taller than the smoothing window and each band is at least `min_height` rows tall and
/// taller than half the window.
pub proof fn lemma_two_bands_give_two_lines(
    page: &GrayImage,
    a1: int,
    b1: int,
    a2: int,
    b2: int,
    min_height: u32,
    window: u32,
    lines: Seq<LineSegment>,
)
    requires
        is_two_band_page(page, a1, b1, a2, b2),
        a2 - b1 > window,
        b1 - a1 >= min_height,
        b2 - a2 >= min_height,
        b1 - a1 >= window / 2 + 1,
        b2 - a2 >= window / 2 + 1,
        lines_match(page, line_regions(page, page_mask(page, window), min_height), lines),
    ensures
        lines.len() == 2,
        lines[0].bbox.y <= a1 && b1 <= lines[0].bbox.y + lines[0].bbox.h,
        lines[1].bbox.y <= a2 && b2 <= lines[1].bbox.y + lines[1].bbox.h,
        lines[0].bbox.y <= lines[1].bbox.y,
        lines[1].bbox.y > 0 ==> lines[0].bbox.y < lines[1].bbox.y,
        lines_lie_in_order(page, min_height, lines),
{
    let mask = page_mask(page, window);
    let half = (window / 2) as int;
    let rows = page.height as int;
    // the rows of the bands are text, and a row of the gap is not
    let gap = b1 + half;
    assert forall|y: int| in_band(y, a1, b1, a2, b2) implies #[trigger] mask[y] by {
        lemma_band_rows(page, a1, b1, a2, b2, window, y);
    }
    assert(!mask[gap]) by {
        lemma_band_rows(page, a1, b1, a2, b2, window, gap);
    }
    lemma_band_rows(page, a1, b1, a2, b2, window, 0);
    // the run around each band
    lemma_run_start(mask, b1);
    lemma_run_end(mask, b1);
    lemma_run_start(mask, b2);
    lemma_run_end(mask, b2);
    let t1 = run_start(mask, b1);
    let e1 = run_end(mask, b1);
    let t2 = run_start(mask, b2);
    let e2 = run_end(mask, b2);
    assert(t1 <= a1) by {
        if t1 > a1 {
            assert(mask[t1 - 1]);
        }
    }
    assert(e1 <= gap) by {
        if e1 > gap {
            assert(mask[gap]);
        }
    }
    assert(t2 <= a2) by {
        if t2 > a2 {
            assert(mask[t2 - 1]);
        }
    }
    assert(t2 > gap) by {
        if t2 <= gap {
            assert(mask[gap]);
        }
    }
    assert(is_text_run(mask, t1, e1));
    assert(is_text_run(mask, t2, e2));
    // each holds ink and is tall enough
    assert(ink_at(page, 0, a1));
    assert(column_has_ink(page, 0, t1, e1));
    assert(has_ink(page, t1, e1));
    assert(ink_at(page, 0, a2));
    assert(column_has_ink(page, 0, t2, e2));
    assert(has_ink(page, t2, e2));
    assert(is_line_region(page, min_height, t1, e1));
    assert(is_line_region(page, min_height, t2, e2));
    let regions = line_regions(page, mask, min_height);
    lemma_line_regions(page, mask, min_height);
    lemma_line_regions_complete(page, mask, min_height, t1, e1);
    lemma_line_regions_complete(page, mask, min_height, t2, e2);
    let i1 = choose|i: int| 0 <= i < regions.len() && regions[i] == (t1, e1);
    let i2 = choose|i: int| 0 <= i < regions.len() && regions[i] == (t2, e2);
    // no other run holds ink
    assert forall|i: int| 0 <= i < regions.len() implies (#[trigger] regions[i]).0 < regions[i].1
        && (i == i1 || i == i2) by {
        let t = regions[i].0;
        let e = regions[i].1;
        assert(is_text_run(mask, t, e) && is_line_region(page, min_height, t, e));
        let x = choose|x: int| 0 <= x < page.width && column_has_ink(page, x, t, e);
        let y = choose|y: int| t <= y < e && ink_at(page, x, y);
        assert(ink_at(page, x, y));
        assert(in_band(y, a1, b1, a2, b2));
        if a1 <= y < b1 {
            lemma_runs_sharing_a_row(mask, t, e, t1, e1, y);
            if i < i1 {
                assert(regions[i].1 < regions[i1].0);
            } else if i > i1 {
                assert(regions[i1].1 < regions[i].0);
            }
        } else {
            lemma_runs_sharing_a_row(mask, t, e, t2, e2, y);
            if i < i2 {
                assert(regions[i].1 < regions[i2].0);
            } else if i > i2 {
                assert(regions[i2].1 < regions[i].0);
            }
        }
    }
    if i2 < i1 {
        assert(regions[i2].1 < regions[i1].0);
    }
    assert(i1 < i2);
    assert(regions[0].0 < regions[0].1);
    assert(regions[regions.len() - 1].0 < regions[regions.len() - 1].1);
    if regions.len() > 2 {
        assert(regions[1].0 < regions[1].1);
    }
    assert(regions.len() == 2 && i1 == 0 && i2 == 1);
    // the boxes
    lemma_lines_lie_in_order(page, mask, min_height, lines);
    assert(is_line_of(page, t1, e1, &lines[0]));
    assert(is_line_of(page, t2, e2, &lines[1]));
    let span1 = ink_extent(page, t1, e1);
    let span2 = ink_extent(page, t2, e2);
    assert(spans_ink(page, t1, e1, span1.0, span1.1));
    assert(spans_ink(page, t2, e2, span2.0, span2.1));
    lemma_padded_box(page, t1, e1, span1.0, span1.1);
    lemma_padded_box(page, t2, e2, span2.0, span2.1);
}

} // verus!
