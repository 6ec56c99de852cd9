use monocr::profile::{ink_histogram, text_rows};
use monocr::segmenter::{ink_span, row_ink_span, LineSegmenter};
use monocr::GrayImage;

const WHITE: u8 = 255;
const BLACK: u8 = 0;

fn blank(width: u32, height: u32) -> Vec<u8> {
    vec![WHITE; (width * height) as usize]
}

fn paint(pixels: &mut Vec<u8>, width: u32, rows: std::ops::Range<u32>, columns: std::ops::Range<u32>, value: u8) {
    for y in rows {
        for x in columns.clone() {
            pixels[(y * width + x) as usize] = value;
        }
    }
}

fn two_band_page() -> GrayImage {
    let mut pixels = blank(40, 60);
    paint(&mut pixels, 40, 10..20, 5..30, BLACK);
    paint(&mut pixels, 40, 35..50, 8..20, BLACK);
    GrayImage::new(40, 60, pixels).unwrap()
}

#[test]
fn raster_needs_one_sample_per_cell() {
    assert!(GrayImage::new(3, 2, vec![0; 6]).is_some());
    assert!(GrayImage::new(3, 2, vec![0; 5]).is_none());
    assert!(GrayImage::new(3, 2, vec![0; 7]).is_none());
    assert!(GrayImage::new(0, 0, Vec::new()).is_some());
    let image = GrayImage::new(3, 2, vec![1, 2, 3, 4, 5, 6]).unwrap();
    assert_eq!(image.width(), 3);
    assert_eq!(image.height(), 2);
    assert_eq!(image.get(0, 0), 1);
    assert_eq!(image.get(2, 0), 3);
    assert_eq!(image.get(0, 1), 4);
    assert_eq!(image.get(2, 1), 6);
    let part = image.crop(1, 0, 2, 2);
    assert_eq!(part.width, 2);
    assert_eq!(part.height, 2);
    assert_eq!(part.pixels, vec![2, 3, 5, 6]);
}

#[test]
fn blank_page_has_no_lines() {
    let page = GrayImage::new(50, 40, blank(50, 40)).unwrap();
    assert!(LineSegmenter::new(10, 3).segment(&page).is_empty());
    assert!(LineSegmenter::new(0, 0).segment(&page).is_empty());
    let empty = GrayImage::new(0, 0, Vec::new()).unwrap();
    assert!(LineSegmenter::new(10, 3).segment(&empty).is_empty());
}

#[test]
fn mid_gray_is_not_ink() {
    // 128 is background, 127 is ink
    let page = GrayImage::new(4, 2, vec![128, 127, 200, 0, 128, 128, 255, 129]).unwrap();
    assert_eq!(ink_histogram(&page), vec![2, 0]);
    assert_eq!(row_ink_span(&page, 0), Some((1, 3)));
    assert_eq!(row_ink_span(&page, 1), None);
    assert_eq!(ink_span(&page, 0, 2), Some((1, 3)));
    assert_eq!(ink_span(&page, 1, 2), None);
    assert_eq!(ink_span(&page, 0, 0), None);
}

#[test]
fn two_bands_give_two_lines() {
    let page = two_band_page();
    let lines = LineSegmenter::new(10, 3).segment(&page);
    assert_eq!(lines.len(), 2);

    // smoothing over 3 rows widens each band by one row on either side
    let first = lines[0].bbox;
    assert_eq!((first.x, first.y, first.w, first.h), (1, 5, 33, 20));
    let second = lines[1].bbox;
    assert_eq!((second.x, second.y, second.w, second.h), (4, 30, 20, 25));

    for line in lines.iter() {
        let b = line.bbox;
        assert!(b.x + b.w <= 40);
        assert!(b.y + b.h <= 60);
        assert!(b.h >= 10);
        assert_eq!(line.img.width, b.w);
        assert_eq!(line.img.height, b.h);
        for cy in 0..b.h {
            for cx in 0..b.w {
                assert_eq!(line.img.get(cx, cy), page.get(b.x + cx, b.y + cy));
            }
        }
    }
    assert!(lines[0].bbox.y < lines[1].bbox.y);
}

#[test]
fn unsmoothed_bands_keep_their_rows() {
    let page = two_band_page();
    for window in [0u32, 1] {
        let lines = LineSegmenter::new(10, window).segment(&page);
        assert_eq!(lines.len(), 2);
        let first = lines[0].bbox;
        assert_eq!((first.x, first.y, first.w, first.h), (1, 6, 33, 18));
        let second = lines[1].bbox;
        assert_eq!((second.x, second.y, second.w, second.h), (4, 31, 20, 23));
    }
}

#[test]
fn short_runs_are_dropped() {
    let page = two_band_page();
    // the bands are 10 and 15 rows tall
    assert_eq!(LineSegmenter::new(11, 1).segment(&page).len(), 1);
    assert_eq!(LineSegmenter::new(11, 1).segment(&page)[0].bbox.y, 31);
    assert_eq!(LineSegmenter::new(15, 1).segment(&page).len(), 1);
    assert_eq!(LineSegmenter::new(16, 1).segment(&page).len(), 0);
}

#[test]
fn run_open_at_the_last_row_ends_at_the_bottom_edge() {
    let mut pixels = blank(20, 30);
    paint(&mut pixels, 20, 18..30, 2..10, BLACK);
    let page = GrayImage::new(20, 30, pixels).unwrap();
    let lines = LineSegmenter::new(10, 1).segment(&page);
    assert_eq!(lines.len(), 1);
    let b = lines[0].bbox;
    assert_eq!((b.x, b.y, b.w, b.h), (0, 14, 14, 16));
    // a trailing run is held to the minimum height like any other
    assert_eq!(LineSegmenter::new(13, 1).segment(&page).len(), 0);
    assert_eq!(LineSegmenter::new(12, 1).segment(&page).len(), 1);
}

#[test]
fn margin_is_clipped_at_the_page_edges() {
    let mut pixels = blank(12, 12);
    paint(&mut pixels, 12, 0..12, 0..12, BLACK);
    let page = GrayImage::new(12, 12, pixels).unwrap();
    let lines = LineSegmenter::new(1, 1).segment(&page);
    assert_eq!(lines.len(), 1);
    let b = lines[0].bbox;
    assert_eq!((b.x, b.y, b.w, b.h), (0, 0, 12, 12));
}

#[test]
fn margin_is_four_samples_on_every_side() {
    let mut pixels = blank(30, 30);
    paint(&mut pixels, 30, 10..15, 12..13, BLACK);
    let page = GrayImage::new(30, 30, pixels).unwrap();
    let lines = LineSegmenter::new(5, 1).segment(&page);
    assert_eq!(lines.len(), 1);
    let b = lines[0].bbox;
    assert_eq!((b.x, b.y, b.w, b.h), (8, 6, 9, 13));
}

#[test]
fn faint_rows_fall_below_the_gap_threshold() {
    // twenty rows of 100 ink samples and one row of a single sample: the mean density of the
    // inked rows is 2001 / 21, a twentieth of it about 4.76
    let mut pixels = blank(100, 60);
    paint(&mut pixels, 100, 10..30, 0..100, BLACK);
    paint(&mut pixels, 100, 50..51, 40..41, BLACK);
    let page = GrayImage::new(100, 60, pixels).unwrap();
    let lines = LineSegmenter::new(1, 1).segment(&page);
    assert_eq!(lines.len(), 1);
    assert_eq!(lines[0].bbox.y, 6);

    // with five samples the row passes: 5 > 2005 / 21 / 20
    let mut pixels = blank(100, 60);
    paint(&mut pixels, 100, 10..30, 0..100, BLACK);
    paint(&mut pixels, 100, 50..51, 40..45, BLACK);
    let page = GrayImage::new(100, 60, pixels).unwrap();
    let lines = LineSegmenter::new(1, 1).segment(&page);
    assert_eq!(lines.len(), 2);
    let b = lines[1].bbox;
    assert_eq!((b.x, b.y, b.w, b.h), (36, 46, 13, 9));
}

#[test]
fn smoothing_averages_over_the_rows_that_exist() {
    let segmenter = LineSegmenter::new(1, 3);
    let one: u64 = 1 << 32;
    // top and bottom rows average over two rows, the others over three
    assert_eq!(segmenter.smooth_histogram(&vec![4, 2, 0, 0, 6]), vec![3 * one, 2 * one, (2 * one) / 3, 2 * one, 3 * one]);
    assert_eq!(LineSegmenter::new(1, 1).smooth_histogram(&vec![4, 2, 0]), vec![4 * one, 2 * one, 0]);
    assert_eq!(LineSegmenter::new(1, 0).smooth_histogram(&vec![4, 2, 0]), vec![4 * one, 2 * one, 0]);
    // a window wider than the profile averages over all of it
    assert_eq!(LineSegmenter::new(1, 9).smooth_histogram(&vec![4, 2, 0]), vec![2 * one, 2 * one, 2 * one]);
    assert_eq!(segmenter.smooth_histogram(&Vec::new()), Vec::<u64>::new());
}

#[test]
fn text_rows_compare_with_a_twentieth_of_the_mean() {
    // inked rows: 100, 100, 5, 4; mean 52.25, a twentieth of it 2.6125
    assert_eq!(text_rows(&vec![100, 0, 100, 5, 4, 0]), vec![true, false, true, true, true, false]);
    // inked rows: 100, 100, 100, 5, 3; a twentieth of the mean is 3.08
    assert_eq!(text_rows(&vec![100, 100, 100, 5, 3, 0]), vec![true, true, true, true, false, false]);
    // exactly a twentieth of the mean is not enough: the mean of 39 and 1 is 20
    assert_eq!(text_rows(&vec![39, 1]), vec![true, false]);
    assert_eq!(text_rows(&vec![38, 1]), vec![true, true]);
    assert_eq!(text_rows(&vec![0, 0, 0]), vec![false, false, false]);
    assert_eq!(text_rows(&vec![20]), vec![true]);
    assert_eq!(text_rows(&Vec::new()), Vec::<bool>::new());
}

#[test]
fn lines_come_top_down() {
    let mut pixels = blank(30, 100);
    paint(&mut pixels, 30, 5..15, 3..9, BLACK);
    paint(&mut pixels, 30, 30..45, 10..20, BLACK);
    paint(&mut pixels, 30, 60..80, 0..30, BLACK);
    let page = GrayImage::new(30, 100, pixels).unwrap();
    let lines = LineSegmenter::new(10, 3).segment(&page);
    assert_eq!(lines.len(), 3);
    for pair in lines.windows(2) {
        assert!(pair[0].bbox.y < pair[1].bbox.y);
    }
    // segmenting again gives the same lines
    let again = LineSegmenter::new(10, 3).segment(&page);
    assert_eq!(again.len(), 3);
    for (a, b) in lines.iter().zip(again.iter()) {
        assert_eq!((a.bbox.x, a.bbox.y, a.bbox.w, a.bbox.h), (b.bbox.x, b.bbox.y, b.bbox.w, b.bbox.h));
        assert_eq!(a.img.pixels, b.img.pixels);
    }
}

#[test]
fn lines_clipped_at_the_top_share_their_top_row() {
    // rows 0 and 2 hold text, row 1 is a gap: both boxes are clipped at row 0
    let mut pixels = blank(10, 20);
    paint(&mut pixels, 10, 0..1, 0..10, BLACK);
    paint(&mut pixels, 10, 2..3, 0..10, BLACK);
    let page = GrayImage::new(10, 20, pixels).unwrap();
    let lines = LineSegmenter::new(1, 1).segment(&page);
    assert_eq!(lines.len(), 2);
    assert_eq!((lines[0].bbox.y, lines[0].bbox.h), (0, 5));
    assert_eq!((lines[1].bbox.y, lines[1].bbox.h), (0, 7));
}

#[test]
fn long_profiles_are_smoothed_and_told_apart() {
    // 70 000 rows: more than fits in 16 bits, each with one ink sample but every tenth
    let mut hist = Vec::new();
    for y in 0..70_000u32 {
        hist.push(if y % 10 == 0 { 0 } else { 1 });
    }
    let density = LineSegmenter::new(1, 1).smooth_histogram(&hist);
    assert_eq!(density.len(), 70_000);
    assert_eq!(density[0], 0);
    assert_eq!(density[1], 1 << 32);
    let mask = text_rows(&density);
    assert_eq!(mask.len(), 70_000);
    assert!(!mask[0]);
    assert!(mask[1]);
    assert!(!mask[69_990]);
    assert!(mask[69_999]);
    // the largest densities do not overflow
    let top = (u32::MAX as u64) << 32;
    assert_eq!(LineSegmenter::new(1, 3).smooth_histogram(&vec![u32::MAX; 4]), vec![top; 4]);
    assert_eq!(text_rows(&vec![u64::MAX, u64::MAX, 1]), vec![true, true, false]);
    assert_eq!(text_rows(&vec![u64::MAX, 0]), vec![true, false]);
}

#[test]
fn rows_can_be_told_apart_by_the_caller() {
    let mut pixels = vec![255u8; 10 * 12];
    for y in 0..12 {
        pixels[y * 10 + 3] = 0;
    }
    let page = GrayImage::new(10, 12, pixels).unwrap();
    let segmenter = LineSegmenter::new(2, 1);
    // every row holds ink; the mask decides what is a line
    let mask = vec![true, true, false, true, false, false, true, true, true, false, true, true];
    let lines = segmenter.segment_rows(&page, &mask);
    let boxes: Vec<(u32, u32, u32, u32)> = lines.iter().map(|l| (l.bbox.x, l.bbox.y, l.bbox.w, l.bbox.h)).collect();
    // runs 0..2, 6..9 and 10..12 are tall enough; run 3..4 is not
    assert_eq!(boxes, vec![(0, 0, 8, 6), (0, 2, 8, 10), (0, 6, 8, 6)]);
    assert!(segmenter.segment_rows(&page, &vec![false; 12]).is_empty());
    assert_eq!(segmenter.segment_rows(&page, &vec![true; 12]).len(), 1);
}

#[test]
fn rows_without_ink_yield_no_line() {
    let mut pixels = blank(20, 20);
    paint(&mut pixels, 20, 8..10, 5..7, BLACK);
    let page = GrayImage::new(20, 20, pixels).unwrap();
    let segmenter = LineSegmenter::new(1, 1);
    let mut lines = Vec::new();
    segmenter.extract_line(&page, 0, 8, &mut lines);
    assert!(lines.is_empty());
    segmenter.extract_line(&page, 10, 20, &mut lines);
    assert!(lines.is_empty());
    segmenter.extract_line(&page, 7, 12, &mut lines);
    assert_eq!(lines.len(), 1);
    let b = lines[0].bbox;
    assert_eq!((b.x, b.y, b.w, b.h), (1, 3, 10, 13));
    // a second line is put behind the first
    segmenter.extract_line(&page, 9, 10, &mut lines);
    assert_eq!(lines.len(), 2);
    assert_eq!((lines[0].bbox.y, lines[0].bbox.h), (3, 13));
    let b = lines[1].bbox;
    assert_eq!((b.x, b.y, b.w, b.h), (1, 5, 10, 9));
    assert_eq!(lines[1].img.get(4, 4), 0);
    assert_eq!(lines[1].img.get(3, 4), 255);
}

#[test]
fn bands_taller_than_half_the_window_are_both_found() {
    // bands of 3 and 4 rows, a gap of 6 rows, a window of 5 rows
    let mut pixels = blank(9, 30);
    paint(&mut pixels, 9, 7..10, 0..9, BLACK);
    paint(&mut pixels, 9, 16..20, 0..9, BLACK);
    let page = GrayImage::new(9, 30, pixels).unwrap();
    let lines = LineSegmenter::new(3, 5).segment(&page);
    assert_eq!(lines.len(), 2);
    assert!(lines[0].bbox.y <= 7 && 10 <= lines[0].bbox.y + lines[0].bbox.h);
    assert!(lines[1].bbox.y <= 16 && 20 <= lines[1].bbox.y + lines[1].bbox.h);
    assert!(lines[0].bbox.y < lines[1].bbox.y);
    // the same with bands that touch the top and the bottom of the page
    let mut pixels = blank(2, 12);
    paint(&mut pixels, 2, 0..3, 0..2, BLACK);
    paint(&mut pixels, 2, 9..12, 0..2, BLACK);
    let page = GrayImage::new(2, 12, pixels).unwrap();
    let lines = LineSegmenter::new(3, 5).segment(&page);
    assert_eq!(lines.len(), 2);
    assert_eq!((lines[0].bbox.y, lines[1].bbox.y + lines[1].bbox.h), (0, 12));
}

#[test]
fn thin_band_beside_a_thick_one_is_smoothed_away() {
    // one inked row and, far below it, a band of a thousand rows, smoothed over 101 rows: the
    // density around the single row stays below a twentieth of the mean
    let mut pixels = blank(10, 1400);
    paint(&mut pixels, 10, 100..101, 0..10, BLACK);
    paint(&mut pixels, 10, 300..1300, 0..10, BLACK);
    let page = GrayImage::new(10, 1400, pixels).unwrap();
    let lines = LineSegmenter::new(1, 101).segment(&page);
    assert_eq!(lines.len(), 1);
    assert!(lines[0].bbox.y > 101);
    assert!(lines[0].bbox.y <= 300 && 1300 <= lines[0].bbox.y + lines[0].bbox.h);
    // without smoothing both are found
    let lines = LineSegmenter::new(1, 1).segment(&page);
    assert_eq!(lines.len(), 2);
    assert_eq!((lines[0].bbox.y, lines[0].bbox.h), (96, 9));
}
