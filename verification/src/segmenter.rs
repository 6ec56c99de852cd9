//! Splitting a page into its lines of text.
//!
//! The rows of a page are told apart by its projection profile. Each maximal run of text rows
//! that is tall enough and holds ink becomes a line, cut out of the page with a margin around
//! its ink.

use crate::profile::{ink_at, ink_histogram, page_mask, text_rows, INK_THRESHOLD};
use crate::raster::GrayImage;
use vstd::prelude::*;

verus! {

/// Margin, in samples, kept around the ink of a line on every side.
pub const LINE_PADDING: u32 = 4;

/// A rectangle in page coordinates.
#[derive(Debug, Clone, Copy)]
pub struct BBox {
    /// Column of the top-left corner.
    pub x: u32,
    /// Row of the top-left corner.
    pub y: u32,
    /// Number of columns.
    pub w: u32,
    /// Number of rows.
    pub h: u32,
}

/// One line of text cut out of a page.
#[derive(Debug, Clone)]
pub struct LineSegment {
    /// The samples of the line, margin included.
    pub img: GrayImage,
    /// Where on the page the samples were taken.
    pub bbox: BBox,
}

/// Settings of the line detector.
pub struct LineSegmenter {
    /// Runs of text rows shorter than this are dropped.
    pub min_line_height: u32,
    /// Width, in rows, of the moving average that smooths the profile; 0 and 1 leave it as is.
    pub smooth_window: u32,
}

/// Whether column `x` holds ink in one of the rows `top` (included) to `bottom` (excluded).
pub open spec fn column_has_ink(page: &GrayImage, x: int, top: int, bottom: int) -> bool {
    exists|y: int| top <= y < bottom && #[trigger] ink_at(page, x, y)
}

/// Whether the rows `top` (included) to `bottom` (excluded) hold any ink.
pub open spec fn has_ink(page: &GrayImage, top: int, bottom: int) -> bool {
    exists|x: int| 0 <= x < page.width && #[trigger] column_has_ink(page, x, top, bottom)
}

/// Whether `left` and `right` are the first and the last column with ink in those rows.
pub open spec fn spans_ink(page: &GrayImage, top: int, bottom: int, left: int, right: int) -> bool {
    &&& 0 <= left <= right < page.width
    &&& column_has_ink(page, left, top, bottom)
    &&& column_has_ink(page, right, top, bottom)
    &&& forall|x: int|
        0 <= x < page.width && #[trigger] column_has_ink(page, x, top, bottom) ==> left <= x
            <= right
}

/// The first and the last column with ink in those rows, where they hold any.
pub open spec fn ink_extent(page: &GrayImage, top: int, bottom: int) -> (int, int) {
    choose|span: (int, int)| spans_ink(page, top, bottom, span.0, span.1)
}

/// `from` moved back by the line margin, but not beyond 0.
pub open spec fn padded_low(from: int) -> int {
    if from >= LINE_PADDING {
        from - LINE_PADDING
    } else {
        0
    }
}

/// `to` moved on by the line margin, but not beyond `limit`.
pub open spec fn padded_high(to: int, limit: int) -> int {
    if to + LINE_PADDING <= limit {
        to + LINE_PADDING
    } else {
        limit
    }
}

/// The box around rows `top..bottom` and columns `left..=right`, widened by the line margin on
/// all four sides and clipped to the page.
pub open spec fn padded_box(page: &GrayImage, top: int, bottom: int, left: int, right: int) -> BBox {
    let x1 = padded_low(left);
    let x2 = padded_high(right + 1, page.width as int);
    let y1 = padded_low(top);
    let y2 = padded_high(bottom, page.height as int);
    BBox { x: x1 as u32, y: y1 as u32, w: (x2 - x1) as u32, h: (y2 - y1) as u32 }
}

/// Whether `line` is the line of text found in rows `top..bottom` of the page: its box is the
/// padded box around the ink of those rows, and its samples are the page's samples in that box.
pub open spec fn is_line_of(page: &GrayImage, top: int, bottom: int, line: &LineSegment) -> bool {
    let span = ink_extent(page, top, bottom);
    &&& spans_ink(page, top, bottom, span.0, span.1)
    &&& line.bbox == padded_box(page, top, bottom, span.0, span.1)
    &&& line.img.wf()
    &&& line.img.width == line.bbox.w
    &&& line.img.height == line.bbox.h
    &&& forall|cx: int, cy: int|
        0 <= cx < line.bbox.w && 0 <= cy < line.bbox.h ==> #[trigger] line.img.pixel(cx, cy)
            == page.pixel(line.bbox.x + cx, line.bbox.y + cy)
}

/// First row of the run of text rows that ends just above row `y`; `y` itself when the row
/// above it is not text.
pub open spec fn run_start(mask: Seq<bool>, y: int) -> int
    decreases y,
{
    if 0 < y <= mask.len() && mask[y - 1] {
        run_start(mask, y - 1)
    } else {
        y
    }
}

/// Whether rows `top..bottom` are a maximal run of text rows: all of them text, and neither the
/// row above nor the row below.
pub open spec fn is_text_run(mask: Seq<bool>, top: int, bottom: int) -> bool {
    &&& 0 <= top < bottom <= mask.len()
    &&& forall|y: int| top <= y < bottom ==> #[trigger] mask[y]
    &&& (top == 0 || !mask[top - 1])
    &&& (bottom == mask.len() || !mask[bottom])
}

/// Whether a run of text rows yields a line: it is tall enough and holds ink.
pub open spec fn is_line_region(page: &GrayImage, min_height: u32, top: int, bottom: int) -> bool {
    bottom - top >= min_height && has_ink(page, top, bottom)
}

/// The runs that yield a line and end above row `upto`, from the top of the page down, each as
/// its first row and the row after its last.
pub open spec fn regions_above(page: &GrayImage, mask: Seq<bool>, min_height: u32, upto: int) -> Seq<
    (int, int),
>
    decreases upto,
{
    if upto <= 0 {
        Seq::empty()
    } else {
        let before = regions_above(page, mask, min_height, upto - 1);
        let bottom = upto - 1;
        let top = run_start(mask, bottom);
        if !mask[bottom] && top < bottom && is_line_region(page, min_height, top, bottom) {
            before.push((top, bottom))
        } else {
            before
        }
    }
}

/// All the runs that yield a line, from the top of the page down. A run that reaches the last
/// row ends at the bottom edge and is treated like any other.
pub open spec fn line_regions(page: &GrayImage, mask: Seq<bool>, min_height: u32) -> Seq<(int, int)> {
    let rows = mask.len() as int;
    let closed = regions_above(page, mask, min_height, rows);
    let top = run_start(mask, rows);
    if top < rows && is_line_region(page, min_height, top, rows) {
        closed.push((top, rows))
    } else {
        closed
    }
}

/// Whether `lines` are the lines of the given regions, one for one and in order.
pub open spec fn lines_match(page: &GrayImage, regions: Seq<(int, int)>, lines: Seq<LineSegment>) -> bool {
    &&& lines.len() == regions.len()
    &&& forall|i: int|
        0 <= i < lines.len() ==> is_line_of(page, regions[i].0, regions[i].1, #[trigger] &lines[i])
}

/// Whether the page has no ink at all.
pub open spec fn is_blank(page: &GrayImage) -> bool {
    forall|x: int, y: int| 0 <= x < page.width && 0 <= y < page.height ==> !#[trigger] ink_at(page, x, y)
}

/// The first and last inked column of a range of rows are determined by the rows.
pub proof fn lemma_ink_extent(page: &GrayImage, top: int, bottom: int, left: int, right: int)
    requires
        spans_ink(page, top, bottom, left, right),
    ensures
        ink_extent(page, top, bottom) == (left, right),
        has_ink(page, top, bottom),
{
    let found = (left, right);
    assert(spans_ink(page, top, bottom, found.0, found.1));
    let span = ink_extent(page, top, bottom);
    assert(spans_ink(page, top, bottom, span.0, span.1));
}

/// The run that ends above row `y` starts at or above `y`, holds text rows only and cannot be
/// extended upwards.
pub proof fn lemma_run_start(mask: Seq<bool>, y: int)
    requires
        0 <= y <= mask.len(),
    ensures
        0 <= run_start(mask, y) <= y,
        forall|r: int| run_start(mask, y) <= r < y ==> #[trigger] mask[r],
        run_start(mask, y) == 0 || !mask[run_start(mask, y) - 1],
    decreases y,
{
    if 0 < y && mask[y - 1] {
        lemma_run_start(mask, y - 1);
    }
}

/// A maximal run of text rows starts where the run above its end starts.
pub proof fn lemma_text_run_start(mask: Seq<bool>, top: int, bottom: int)
    requires
        is_text_run(mask, top, bottom),
    ensures
        run_start(mask, bottom) == top,
{
    lemma_run_start(mask, bottom);
    let s = run_start(mask, bottom);
    if s < top {
        assert(mask[top - 1]);
    } else if s > top {
        assert(mask[s - 1]);
    }
}

/// Whether `regions` are maximal runs of text rows that yield a line, listed down the page
/// without touching one another.
pub open spec fn are_line_regions(
    page: &GrayImage,
    mask: Seq<bool>,
    min_height: u32,
    regions: Seq<(int, int)>,
) -> bool {
    &&& forall|i: int|
        0 <= i < regions.len() ==> {
            &&& is_text_run(mask, (#[trigger] regions[i]).0, regions[i].1)
            &&& is_line_region(page, min_height, regions[i].0, regions[i].1)
        }
    &&& forall|i: int, j: int|
        0 <= i < j < regions.len() ==> (#[trigger] regions[i]).1 < (#[trigger] regions[j]).0
}

/// Every region above row `upto` is a maximal run of text rows that yields a line and is closed
/// by a row above `upto`; the regions follow one another down the page without touching.
pub proof fn lemma_regions_above(page: &GrayImage, mask: Seq<bool>, min_height: u32, upto: int)
    requires
        0 <= upto <= mask.len(),
    ensures
        are_line_regions(page, mask, min_height, regions_above(page, mask, min_height, upto)),
        forall|i: int|
            0 <= i < regions_above(page, mask, min_height, upto).len() ==> (
            #[trigger] regions_above(page, mask, min_height, upto)[i]).1 < upto,
    decreases upto,
{
    if upto > 0 {
        lemma_regions_above(page, mask, min_height, upto - 1);
        lemma_run_start(mask, upto - 1);
        let before = regions_above(page, mask, min_height, upto - 1);
        let all = regions_above(page, mask, min_height, upto);
        let bottom = upto - 1;
        let top = run_start(mask, bottom);
        if !mask[bottom] && top < bottom && is_line_region(page, min_height, top, bottom) {
            assert(all == before.push((top, bottom)));
            assert(is_text_run(mask, top, bottom));
            assert forall|i: int| 0 <= i < all.len() implies {
                &&& is_text_run(mask, (#[trigger] all[i]).0, all[i].1)
                &&& is_line_region(page, min_height, all[i].0, all[i].1)
                &&& all[i].1 < upto
            } by {
                if i < before.len() {
                    assert(all[i] == before[i]);
                }
            }
            assert forall|i: int, j: int| 0 <= i < j < all.len() implies (#[trigger] all[i]).1 < (
            #[trigger] all[j]).0 by {
                assert(all[i] == before[i]);
                if j < before.len() {
                    assert(all[j] == before[j]);
                } else {
                    // the region above ends at a row that is not text, so the run that closes
                    // here starts below it
                    assert(before[i].1 < bottom);
                    assert(!mask[before[i].1]);
                    if top <= before[i].1 {
                        assert(mask[before[i].1]);
                    }
                }
            }
        } else {
            assert(all == before);
        }
    }
}

/// Every region is a maximal run of text rows that is tall enough and holds ink, and the
/// regions follow one another down the page without touching.
pub proof fn lemma_line_regions(page: &GrayImage, mask: Seq<bool>, min_height: u32)
    ensures
        are_line_regions(page, mask, min_height, line_regions(page, mask, min_height)),
{
    let rows = mask.len() as int;
    lemma_regions_above(page, mask, min_height, rows);
    lemma_run_start(mask, rows);
    let closed = regions_above(page, mask, min_height, rows);
    let all = line_regions(page, mask, min_height);
    let top = run_start(mask, rows);
    if top < rows && is_line_region(page, min_height, top, rows) {
        assert(is_text_run(mask, top, rows));
        assert forall|i: int| 0 <= i < all.len() implies {
            &&& is_text_run(mask, (#[trigger] all[i]).0, all[i].1)
            &&& is_line_region(page, min_height, all[i].0, all[i].1)
        } by {
            if i < closed.len() {
                assert(all[i] == closed[i]);
            }
        }
        assert forall|i: int, j: int| 0 <= i < j < all.len() implies (#[trigger] all[i]).1 < (
        #[trigger] all[j]).0 by {
            assert(all[i] == closed[i]);
            if j < closed.len() {
                assert(all[j] == closed[j]);
            } else {
                assert(!mask[closed[i].1]);
                if top <= closed[i].1 {
                    assert(mask[closed[i].1]);
                }
            }
        }
    } else {
        assert(all == closed);
    }
}

/// Every maximal run of text rows that yields a line and is closed above row `upto` is among
/// the regions above `upto`.
pub proof fn lemma_regions_above_complete(
    page: &GrayImage,
    mask: Seq<bool>,
    min_height: u32,
    upto: int,
    top: int,
    bottom: int,
)
    requires
        0 <= upto <= mask.len(),
        is_text_run(mask, top, bottom),
        is_line_region(page, min_height, top, bottom),
        bottom < upto,
    ensures
        regions_above(page, mask, min_height, upto).contains((top, bottom)),
    decreases upto,
{
    let before = regions_above(page, mask, min_height, upto - 1);
    let all = regions_above(page, mask, min_height, upto);
    if bottom == upto - 1 {
        lemma_text_run_start(mask, top, bottom);
        assert(all == before.push((top, bottom)));
        assert(all[before.len() as int] == (top, bottom));
    } else {
        lemma_regions_above_complete(page, mask, min_height, upto - 1, top, bottom);
        let i = choose|i: int| 0 <= i < before.len() && before[i] == (top, bottom);
        assert(all[i] == (top, bottom));
    }
}

/// No maximal run of text rows that is tall enough and holds ink is left out of the regions.
pub proof fn lemma_line_regions_complete(
    page: &GrayImage,
    mask: Seq<bool>,
    min_height: u32,
    top: int,
    bottom: int,
)
    requires
        is_text_run(mask, top, bottom),
        is_line_region(page, min_height, top, bottom),
    ensures
        line_regions(page, mask, min_height).contains((top, bottom)),
{
    let rows = mask.len() as int;
    let closed = regions_above(page, mask, min_height, rows);
    let all = line_regions(page, mask, min_height);
    if bottom == rows {
        lemma_text_run_start(mask, top, bottom);
        assert(all[closed.len() as int] == (top, bottom));
    } else {
        lemma_regions_above_complete(page, mask, min_height, rows, top, bottom);
        let i = choose|i: int| 0 <= i < closed.len() && closed[i] == (top, bottom);
        assert(all[i] == (top, bottom));
    }
}

/// The padded box of a region lies on the page, covers the region and starts at most the
/// margin above it.
pub proof fn lemma_padded_box(page: &GrayImage, top: int, bottom: int, left: int, right: int)
    requires
        0 <= top < bottom <= page.height,
        0 <= left <= right < page.width,
    ensures
        ({
            let b = padded_box(page, top, bottom, left, right);
            &&& b.x + b.w <= page.width
            &&& b.y + b.h <= page.height
            &&& b.x == padded_low(left)
            &&& b.y == padded_low(top)
            &&& b.x + b.w == padded_high(right + 1, page.width as int)
            &&& b.y + b.h == padded_high(bottom, page.height as int)
            &&& b.w >= right + 1 - left
            &&& b.h >= bottom - top
        }),
{
}

impl LineSegmenter {
    /// A detector that drops runs shorter than `min_line_height` rows and smooths the profile
    /// over `smooth_window` rows.
    pub fn new(min_line_height: u32, smooth_window: u32) -> (segmenter: Self)
        ensures
            segmenter.min_line_height == min_line_height,
            segmenter.smooth_window == smooth_window,
    {
        Self { min_line_height, smooth_window }
    }
}

/// The first and the last inked column of row `y`, or `None` when the row holds no ink.
pub fn row_ink_span(page: &GrayImage, y: u32) -> (span: Option<(u32, u32)>)
    requires
        page.wf(),
        y < page.height,
    ensures
        match span {
            None => forall|x: int| 0 <= x < page.width ==> !#[trigger] ink_at(page, x, y as int),
            Some((left, right)) => {
                &&& left <= right < page.width
                &&& ink_at(page, left as int, y as int)
                &&& ink_at(page, right as int, y as int)
                &&& forall|x: int|
                    0 <= x < page.width && #[trigger] ink_at(page, x, y as int) ==> left <= x
                        <= right
            },
        },
{
    let mut span: Option<(u32, u32)> = None;
    let mut x: u32 = 0;
    while x < page.width
        invariant
            page.wf(),
            y < page.height,
            x <= page.width,
            match span {
                None => forall|c: int| 0 <= c < x ==> !#[trigger] ink_at(page, c, y as int),
                Some((left, right)) => {
                    &&& left <= right < x
                    &&& ink_at(page, left as int, y as int)
                    &&& ink_at(page, right as int, y as int)
                    &&& forall|c: int|
                        0 <= c < x && #[trigger] ink_at(page, c, y as int) ==> left <= c <= right
                },
            },
        decreases page.width - x,
    {
        if page.get(x, y) < INK_THRESHOLD {
            span = match span {
                None => Some((x, x)),
                Some((left, _)) => Some((left, x)),
            };
        }
        x = x + 1;
    }
    span
}

/// The first and the last inked column of rows `top` (included) to `bottom` (excluded), or
/// `None` when those rows hold no ink.
pub fn ink_span(page: &GrayImage, top: u32, bottom: u32) -> (span: Option<(u32, u32)>)
    requires
        page.wf(),
        top <= bottom <= page.height,
    ensures
        match span {
            None => !has_ink(page, top as int, bottom as int),
            Some((left, right)) => spans_ink(
                page,
                top as int,
                bottom as int,
                left as int,
                right as int,
            ),
        },
{
    let mut span: Option<(u32, u32)> = None;
    let mut y: u32 = top;
    while y < bottom
        invariant
            page.wf(),
            top <= y <= bottom <= page.height,
            match span {
                None => forall|c: int, r: int|
                    0 <= c < page.width && top <= r < y ==> !#[trigger] ink_at(page, c, r),
                Some((left, right)) => spans_ink(
                    page,
                    top as int,
                    y as int,
                    left as int,
                    right as int,
                ),
            },
        decreases bottom - y,
    {
        let row = row_ink_span(page, y);
        let ghost before = span;
        match row {
            None => {},
            Some((row_left, row_right)) => {
                span = match span {
                    None => Some((row_left, row_right)),
                    Some((left, right)) => Some(
                        (
                            if row_left < left {
                                row_left
                            } else {
                                left
                            },
                            if row_right > right {
                                row_right
                            } else {
                                right
                            },
                        ),
                    ),
                };
            },
        }
        proof {
            let t = top as int;
            let yi = y as int;
            match span {
                None => {},
                Some((left, right)) => {
                    // the column that holds the first ink, and the one that holds the last
                    match before {
                        Some((old_left, old_right)) => {
                            if left == old_left {
                                let r = choose|r: int| t <= r < yi && ink_at(page, left as int, r);
                                assert(ink_at(page, left as int, r));
                            }
                            if right == old_right {
                                let r = choose|r: int| t <= r < yi && ink_at(page, right as int, r);
                                assert(ink_at(page, right as int, r));
                            }
                        },
                        None => {},
                    }
                    match row {
                        Some((row_left, row_right)) => {
                            assert(ink_at(page, row_left as int, yi));
                            assert(ink_at(page, row_right as int, yi));
                        },
                        None => {},
                    }
                    assert(column_has_ink(page, left as int, t, yi + 1));
                    assert(column_has_ink(page, right as int, t, yi + 1));
                    assert forall|c: int|
                        0 <= c < page.width && #[trigger] column_has_ink(
                            page,
                            c,
                            t,
                            yi + 1,
                        ) implies left <= c <= right by {
                        let r = choose|r: int| t <= r < yi + 1 && ink_at(page, c, r);
                        if r < yi {
                            assert(ink_at(page, c, r));
                            assert(column_has_ink(page, c, t, yi));
                        }
                    }
                },
            }
        }
        y = y + 1;
    }
    proof {
        if span is None {
            assert forall|c: int| 0 <= c < page.width implies !#[trigger] column_has_ink(
                page,
                c,
                top as int,
                bottom as int,
            ) by {
                if column_has_ink(page, c, top as int, bottom as int) {
                    let r = choose|r: int| top <= r < bottom && ink_at(page, c, r);
                    assert(ink_at(page, c, r));
                }
            }
        }
    }
    span
}

impl LineSegmenter {
    /// Cuts the line found in rows `r_start` (included) to `r_end` (excluded) out of the page
    /// and appends it to `results`. Rows without any ink yield no line.
    pub fn extract_line(
        &self,
        page: &GrayImage,
        r_start: u32,
        r_end: u32,
        results: &mut Vec<LineSegment>,
    )
        requires
            page.wf(),
            r_start < r_end <= page.height,
        ensures
            !has_ink(page, r_start as int, r_end as int) ==> final(results)@ == old(results)@,
            has_ink(page, r_start as int, r_end as int) ==> {
                &&& final(results)@.len() == old(results)@.len() + 1
                &&& final(results)@.drop_last() == old(results)@
                &&& is_line_of(page, r_start as int, r_end as int, &final(results)@.last())
            },
    {
        match ink_span(page, r_start, r_end) {
            None => {},
            Some((x_min, x_max)) => {
                proof {
                    lemma_ink_extent(
                        page,
                        r_start as int,
                        r_end as int,
                        x_min as int,
                        x_max as int,
                    );
                    lemma_padded_box(
                        page,
                        r_start as int,
                        r_end as int,
                        x_min as int,
                        x_max as int,
                    );
                }
                let y1: u32 = if r_start >= LINE_PADDING {
                    r_start - LINE_PADDING
                } else {
                    0
                };
                let y2: u32 = if page.height - r_end >= LINE_PADDING {
                    r_end + LINE_PADDING
                } else {
                    page.height
                };
                let x1: u32 = if x_min >= LINE_PADDING {
                    x_min - LINE_PADDING
                } else {
                    0
                };
                let x_end: u32 = x_max + 1;
                let x2: u32 = if page.width - x_end >= LINE_PADDING {
                    x_end + LINE_PADDING
                } else {
                    page.width
                };
                let w: u32 = x2 - x1;
                let h: u32 = y2 - y1;
                let img = page.crop(x1, y1, w, h);
                let line = LineSegment { img, bbox: BBox { x: x1, y: y1, w, h } };
                assert(is_line_of(page, r_start as int, r_end as int, &line));
                results.push(line);
                assert(results@.drop_last() =~= old(results)@);
            },
        }
    }

    /// The lines of a page of which `mask` tells the text rows, from the top down: every
    /// maximal run of text rows that is at least `min_line_height` rows tall and holds ink
    /// yields one line, cut out with its margin. A run that is still open at the last row ends
    /// at the bottom edge and is held to the same minimum.
    pub fn segment_rows(&self, page: &GrayImage, mask: &Vec<bool>) -> (lines: Vec<LineSegment>)
        requires
            page.wf(),
            mask@.len() == page.height,
        ensures
            lines_match(page, line_regions(page, mask@, self.min_line_height), lines@),
            is_blank(page) ==> lines@.len() == 0,
            lines_lie_in_order(page, self.min_line_height, lines@),
    {
        let mut results: Vec<LineSegment> = Vec::new();
        let mut start: Option<u32> = None;
        let mut y: u32 = 0;
        while y < page.height
            invariant
                page.wf(),
                mask@.len() == page.height,
                y <= page.height,
                match start {
                    None => run_start(mask@, y as int) == y,
                    Some(s) => s < y && run_start(mask@, y as int) == s,
                },
                lines_match(
                    page,
                    regions_above(page, mask@, self.min_line_height, y as int),
                    results@,
                ),
            decreases page.height - y,
        {
            let is_text = mask[y as usize];
            let ghost before = results@;
            let ghost regions = regions_above(page, mask@, self.min_line_height, y as int);
            match start {
                None => {
                    if is_text {
                        start = Some(y);
                    }
                },
                Some(s) => {
                    if !is_text {
                        if y - s >= self.min_line_height {
                            self.extract_line(page, s, y, &mut results);
                        }
                        start = None;
                    }
                },
            }
            proof {
                let next = regions_above(page, mask@, self.min_line_height, y + 1);
                if results@.len() == before.len() {
                    assert(results@ == before);
                    assert(next == regions);
                } else {
                    assert(results@.drop_last() == before);
                    assert(next == regions.push((run_start(mask@, y as int), y as int)));
                    assert forall|i: int| 0 <= i < results@.len() implies is_line_of(
                        page,
                        next[i].0,
                        next[i].1,
                        #[trigger] &results@[i],
                    ) by {
                        if i < before.len() {
                            assert(results@[i] == before[i]);
                            assert(next[i] == regions[i]);
                        } else {
                            assert(results@[i] == results@.last());
                        }
                    }
                }
            }
            y = y + 1;
        }
        let ghost closed = regions_above(page, mask@, self.min_line_height, y as int);
        let ghost before = results@;
        match start {
            None => {},
            Some(s) => {
                if page.height - s >= self.min_line_height {
                    self.extract_line(page, s, page.height, &mut results);
                }
            },
        }
        proof {
            let all = line_regions(page, mask@, self.min_line_height);
            if results@.len() == before.len() {
                assert(results@ == before);
                assert(all == closed);
            } else {
                assert(results@.drop_last() == before);
                assert(all == closed.push((run_start(mask@, y as int), y as int)));
                assert forall|i: int| 0 <= i < results@.len() implies is_line_of(
                    page,
                    all[i].0,
                    all[i].1,
                    #[trigger] &results@[i],
                ) by {
                    if i < before.len() {
                        assert(results@[i] == before[i]);
                        assert(all[i] == closed[i]);
                    } else {
                        assert(results@[i] == results@.last());
                    }
                }
            }
            lemma_lines_lie_in_order(page, mask@, self.min_line_height, results@);
            if is_blank(page) {
                lemma_blank_page(page, mask@, self.min_line_height);
            }
        }
        results
    }

    /// The lines of text of a page, from the top down.
    ///
    /// The rows of the page are told apart by `page_mask`: the projection profile is smoothed
    /// over `smooth_window` rows and compared with a twentieth of its mean over the inked
    /// rows. The lines are then those of `segment_rows`. A page without ink yields no line.
    pub fn segment(&self, page: &GrayImage) -> (lines: Vec<LineSegment>)
        requires
            page.wf(),
        ensures
            lines_match(
                page,
                line_regions(page, page_mask(page, self.smooth_window), self.min_line_height),
                lines@,
            ),
            is_blank(page) ==> lines@.len() == 0,
            lines_lie_in_order(page, self.min_line_height, lines@),
    {
        let hist = ink_histogram(page);
        let density = self.smooth_histogram(&hist);
        let mask = text_rows(&density);
        self.segment_rows(page, &mask)
    }
}

/// Whether the lines lie on the page, each at least `min_height` rows tall, and further down
/// the list means further down the page: a box never starts above an earlier one, and starts
/// below it unless both are clipped at the top edge.
pub open spec fn lines_lie_in_order(page: &GrayImage, min_height: u32, lines: Seq<LineSegment>) -> bool {
    &&& forall|i: int|
        0 <= i < lines.len() ==> {
            let b = (#[trigger] lines[i]).bbox;
            &&& b.x + b.w <= page.width
            &&& b.y + b.h <= page.height
            &&& b.w >= 1
            &&& b.h >= 1
            &&& b.h >= min_height
        }
    &&& forall|i: int, j: int|
        0 <= i < j < lines.len() ==> {
            let above = (#[trigger] lines[i]).bbox;
            let below = (#[trigger] lines[j]).bbox;
            &&& above.y <= below.y
            &&& below.y > 0 ==> above.y < below.y
        }
}

/// A page without ink has no line regions, whatever its rows are taken for.
pub proof fn lemma_blank_page(page: &GrayImage, mask: Seq<bool>, min_height: u32)
    requires
        is_blank(page),
        mask.len() == page.height,
    ensures
        line_regions(page, mask, min_height).len() == 0,
{
    lemma_line_regions(page, mask, min_height);
    let all = line_regions(page, mask, min_height);
    if all.len() > 0 {
        let top = all[0].0;
        let bottom = all[0].1;
        assert(is_text_run(mask, top, bottom));
        assert(has_ink(page, top, bottom));
        let x = choose|x: int| 0 <= x < page.width && column_has_ink(page, x, top, bottom);
        let y = choose|y: int| top <= y < bottom && ink_at(page, x, y);
        assert(ink_at(page, x, y));
    }
}

/// The lines cut from the regions of a page lie on the page, each at least as tall as the run
/// it was cut from, in the order of the regions.
pub proof fn lemma_lines_lie_in_order(
    page: &GrayImage,
    mask: Seq<bool>,
    min_height: u32,
    lines: Seq<LineSegment>,
)
    requires
        mask.len() == page.height,
        lines_match(page, line_regions(page, mask, min_height), lines),
    ensures
        lines_lie_in_order(page, min_height, lines),
{
    let regions = line_regions(page, mask, min_height);
    lemma_line_regions(page, mask, min_height);
    assert forall|i: int| 0 <= i < lines.len() implies {
        let b = (#[trigger] lines[i]).bbox;
        &&& b.x + b.w <= page.width
        &&& b.y + b.h <= page.height
        &&& b.w >= 1
        &&& b.h >= 1
        &&& b.h >= min_height
        &&& b.y == padded_low(regions[i].0)
    } by {
        assert(is_line_of(page, regions[i].0, regions[i].1, &lines[i]));
        assert(is_text_run(mask, regions[i].0, regions[i].1));
        let span = ink_extent(page, regions[i].0, regions[i].1);
        lemma_padded_box(page, regions[i].0, regions[i].1, span.0, span.1);
    }
    assert forall|i: int, j: int| 0 <= i < j < lines.len() implies {
        let above = (#[trigger] lines[i]).bbox;
        let below = (#[trigger] lines[j]).bbox;
        &&& above.y <= below.y
        &&& below.y > 0 ==> above.y < below.y
    } by {
        assert(regions[i].1 < regions[j].0);
        assert(is_text_run(mask, regions[i].0, regions[i].1));
        assert(lines[i].bbox.y == padded_low(regions[i].0));
        assert(lines[j].bbox.y == padded_low(regions[j].0));
    }
}

} // verus!
