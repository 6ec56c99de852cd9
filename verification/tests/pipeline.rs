use monocr::monocr::{parse_charset, BBox, OcrError};
use monocr::pipeline::{page_text, score_text, BatchRun, PageAction, PageResult};
use monocr::text::{is_space, string_of, trim_chars};
use monocr::{GrayImage, LineResult, MonOcr, MonOcrBuilder};

fn two_band_page() -> GrayImage {
    let mut pixels = vec![255u8; 40 * 60];
    for y in 10..20 {
        for x in 5..30 {
            pixels[y * 40 + x] = 0;
        }
    }
    for y in 35..50 {
        for x in 8..20 {
            pixels[y * 40 + x] = 0;
        }
    }
    GrayImage::new(40, 60, pixels).unwrap()
}

fn line(text: &str) -> LineResult {
    LineResult { text: String::from(text), bbox: BBox { x: 0, y: 0, w: 1, h: 1 } }
}

#[test]
fn test_builder() {
    let builder = MonOcr::builder();
    assert!(builder.build("abc").is_ok());
}

#[test]
fn builder_starts_from_the_defaults() {
    let builder = MonOcrBuilder::new();
    assert!(builder.model_path.is_none());
    assert!(builder.charset.is_none());
    assert_eq!(builder.min_line_height, 10);
    assert_eq!(builder.smooth_window, 3);
    let builder = MonOcrBuilder::default();
    assert!(builder.model_path.is_none());
    assert!(builder.charset.is_none());
    assert_eq!(builder.min_line_height, 10);
    assert_eq!(builder.smooth_window, 3);
}

#[test]
fn builder_keeps_what_it_is_told() {
    let builder = MonOcrBuilder::new()
        .model_path("./models/monocr.onnx")
        .charset(" xyz\n")
        .min_line_height(15)
        .smooth_window(5);
    assert_eq!(builder.model_path.as_deref(), Some("./models/monocr.onnx"));
    assert_eq!(builder.charset.as_deref(), Some(" xyz\n"));
    assert_eq!(builder.min_line_height, 15);
    assert_eq!(builder.smooth_window, 5);
    let ocr = builder.build("abc").unwrap();
    assert_eq!(ocr.charset, vec!['x', 'y', 'z']);
    assert_eq!(ocr.segmenter.min_line_height, 15);
    assert_eq!(ocr.segmenter.smooth_window, 5);
}

#[test]
fn default_charset_is_used_when_none_is_set() {
    let ocr = MonOcrBuilder::new().build("\n ab c \t").unwrap();
    assert_eq!(ocr.charset, vec!['a', 'b', ' ', 'c']);
    assert_eq!(ocr.segmenter.min_line_height, 10);
    assert_eq!(ocr.segmenter.smooth_window, 3);
}

#[test]
fn empty_charset_is_refused() {
    assert_eq!(MonOcrBuilder::new().build("").err(), Some(OcrError::EmptyCharset));
    assert_eq!(MonOcrBuilder::new().build(" \n\t ").err(), Some(OcrError::EmptyCharset));
    assert_eq!(MonOcrBuilder::new().charset("\u{3000}").build("abc").err(), Some(OcrError::EmptyCharset));
    assert_eq!(MonOcr::new("  ", 10, 3).err(), Some(OcrError::EmptyCharset));
    assert_eq!(parse_charset("\r\n"), Err(OcrError::EmptyCharset));
    assert_eq!(parse_charset(" a "), Ok(vec!['a']));
}

#[test]
fn trimming_follows_unicode_white_space() {
    for c in ['\t', '\n', '\u{0B}', '\u{0C}', '\r', ' ', '\u{85}', '\u{A0}', '\u{1680}', '\u{2000}', '\u{200A}', '\u{2028}', '\u{2029}', '\u{202F}', '\u{205F}', '\u{3000}'] {
        assert!(is_space(c));
        assert!(c.is_whitespace());
    }
    for c in ['a', '0', '\u{08}', '\u{0E}', '\u{200B}', '\u{180E}', '\u{FEFF}', '\u{1820}'] {
        assert!(!is_space(c));
        assert!(!c.is_whitespace());
    }
    let text: Vec<char> = " \u{A0}a b\u{2003}c\n ".chars().collect();
    assert_eq!(string_of(&trim_chars(&text)), " \u{A0}a b\u{2003}c\n ".trim());
    assert_eq!(trim_chars(&Vec::new()), Vec::<char>::new());
    assert_eq!(trim_chars(&vec![' ', ' ']), Vec::<char>::new());
    assert_eq!(trim_chars(&vec!['x']), vec!['x']);
}

#[test]
fn page_text_joins_lines_with_line_feeds() {
    assert_eq!(page_text(&Vec::new()), "");
    assert_eq!(page_text(&vec![line("one")]), "one");
    assert_eq!(page_text(&vec![line("one"), line("two"), line("three")]), "one\ntwo\nthree");
    assert_eq!(page_text(&vec![line(""), line("two"), line("")]), "\ntwo\n");
}

#[test]
fn text_is_scored_against_the_ground_truth() {
    let scored = score_text(String::from("hellp"), "hello");
    assert_eq!(scored.text, "hellp");
    assert_eq!(scored.accuracy, 8000);
    assert_eq!(score_text(String::from("hello"), "hello").accuracy, 10000);
    assert_eq!(score_text(String::new(), "hello").accuracy, 0);
    assert_eq!(score_text(String::from("hello"), "").accuracy, 0);
}

#[test]
fn page_is_read_line_by_line() {
    let ocr = MonOcr::new("abc", 10, 3).unwrap();
    let mut run = ocr.begin_page(&two_band_page());
    assert_eq!(run.lines.len(), 2);
    assert!(run.results.is_empty());

    // first line
    match ocr.next_action(&run) {
        Ok(PageAction::Infer(tensor)) => assert_eq!(tensor.samples.len(), 64 * 1024),
        other => panic!("the first line should be waiting, got {:?}", other),
    }
    let scores = vec![0, 9, 0, 0, 0, 9, 0, 0, 0, 0, 9, 0];
    assert_eq!(ocr.accept_logits(&mut run, &scores, &vec![1, 3, 4]), Ok(()));
    assert_eq!(run.results.len(), 1);

    // second line
    assert!(matches!(ocr.next_action(&run), Ok(PageAction::Infer(_))));
    let scores = vec![0, 0, 0, 9];
    assert_eq!(ocr.accept_logits(&mut run, &scores, &vec![1, 1, 4]), Ok(()));

    assert!(matches!(ocr.next_action(&run), Ok(PageAction::Finished)));
    assert_eq!(ocr.accept_logits(&mut run, &scores, &vec![1, 1, 4]), Err(OcrError::UnexpectedLogits));
    assert_eq!(run.results.len(), 2);

    assert_eq!(run.results[0].text, "ab");
    assert_eq!(run.results[1].text, "c");
    let first = run.results[0].bbox;
    assert_eq!((first.x, first.y, first.w, first.h), (1, 5, 33, 20));
    let second = run.results[1].bbox;
    assert_eq!((second.x, second.y, second.w, second.h), (4, 30, 20, 25));
    assert_eq!(page_text(&run.results), "ab\nc");

    let page = run.finish().unwrap();
    assert_eq!(page.text, "ab\nc");
    assert_eq!(page.lines.len(), 2);
    assert_eq!(page.lines[1].text, "c");
}

#[test]
fn malformed_scores_fail_the_page_for_good() {
    let ocr = MonOcr::new("abc", 10, 3).unwrap();
    let good = vec![0, 9, 0, 0];

    // too few scores for the shape
    let mut run = ocr.begin_page(&two_band_page());
    assert!(run.failure.is_none());
    assert_eq!(ocr.accept_logits(&mut run, &vec![0; 3], &vec![1, 1, 4]), Err(OcrError::MalformedLogits));
    assert!(run.results.is_empty());
    assert_eq!(run.lines.len(), 2);
    assert_eq!(run.failure, Some(OcrError::MalformedLogits));
    // nothing is read after that, not even with well-formed scores
    assert!(matches!(ocr.next_action(&run), Err(OcrError::MalformedLogits)));
    assert_eq!(ocr.accept_logits(&mut run, &good, &vec![1, 1, 4]), Err(OcrError::MalformedLogits));
    assert!(run.results.is_empty());
    assert!(run.finish().is_none());

    // a failure on the second line gives up the first line too
    let mut run = ocr.begin_page(&two_band_page());
    assert_eq!(ocr.accept_logits(&mut run, &good, &vec![1, 1, 4]), Ok(()));
    assert_eq!(ocr.accept_logits(&mut run, &good, &vec![1, 4]), Err(OcrError::MalformedLogits));
    assert_eq!(run.results.len(), 1);
    assert!(matches!(ocr.next_action(&run), Err(OcrError::MalformedLogits)));
    assert!(run.finish().is_none());
}

#[test]
fn scores_of_a_model_that_does_not_fit_the_character_set_fail_the_page() {
    // three symbols and the blank make four classes
    let ocr = MonOcr::new("abc", 10, 3).unwrap();
    for (scores, shape) in [
        (vec![0, 9, 0, 0, 0, 9], vec![1usize, 2, 3]),
        (vec![0, 9, 0, 0, 0, 0, 0, 0, 0, 9], vec![1usize, 2, 5]),
        (vec![0, 9, 0, 0], vec![1usize, 2, 2]),
        (vec![0, 9, 0, 0], vec![1usize, 4, 1]),
        (vec![0, 9, 0, 0], vec![1usize, 4, 0]),
    ] {
        let mut run = ocr.begin_page(&two_band_page());
        assert_eq!(ocr.accept_logits(&mut run, &scores, &shape), Err(OcrError::MalformedLogits));
        assert!(run.results.is_empty());
        assert_eq!(run.failure, Some(OcrError::MalformedLogits));
        assert!(run.finish().is_none());
    }
    // the same scores with four classes are read
    let mut run = ocr.begin_page(&two_band_page());
    assert_eq!(ocr.accept_logits(&mut run, &vec![0, 9, 0, 0], &vec![1, 1, 4]), Ok(()));
    assert_eq!(run.results[0].text, "a");
    assert!(run.failure.is_none());
}

#[test]
fn unfinished_page_has_no_result() {
    let ocr = MonOcr::new("abc", 10, 3).unwrap();
    let mut run = ocr.begin_page(&two_band_page());
    assert!(ocr.begin_page(&two_band_page()).finish().is_none());
    assert_eq!(ocr.accept_logits(&mut run, &vec![0, 0, 0, 9], &vec![1, 1, 4]), Ok(()));
    assert!(run.finish().is_none());
}

#[test]
fn batch_keeps_pages_in_order_and_ends_at_the_first_failure() {
    let page = |text: &str| PageResult { lines: vec![line(text)], text: String::from(text) };

    let batch = BatchRun::new();
    let batch = batch.accept_page::<String>(Ok(page("one"))).unwrap();
    let batch = batch.accept_page::<String>(Ok(page("two"))).unwrap();
    let batch = batch.accept_page::<String>(Ok(page("three"))).unwrap();
    let texts: Vec<String> = batch.into_pages().into_iter().map(|p| p.text).collect();
    assert_eq!(texts, vec!["one", "two", "three"]);

    let batch = BatchRun::new();
    let batch = batch.accept_page::<String>(Ok(page("one"))).unwrap();
    match batch.accept_page(Err(String::from("unreadable"))) {
        Err(e) => assert_eq!(e, "unreadable"),
        Ok(_) => panic!("a failed page must end the batch"),
    }

    assert!(BatchRun::new().into_pages().is_empty());
}

#[test]
fn blank_page_is_finished_at_once() {
    let ocr = MonOcr::new("abc", 10, 3).unwrap();
    let page = GrayImage::new(30, 30, vec![255; 900]).unwrap();
    let run = ocr.begin_page(&page);
    assert!(run.lines.is_empty());
    assert!(matches!(ocr.next_action(&run), Ok(PageAction::Finished)));
    assert_eq!(page_text(&run.results), "");
}
