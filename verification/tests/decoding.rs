use monocr::decoder::{score_rank, Logits};
use monocr::monocr::OcrError;
use monocr::MonOcr;

fn recogniser(charset: &str) -> MonOcr {
    MonOcr::new(charset, 10, 3).unwrap()
}

/// Scores in which class `label` wins each time step in turn.
fn one_hot(labels: &[usize], classes: usize) -> Logits {
    let mut scores = Vec::new();
    for &label in labels {
        for c in 0..classes {
            scores.push(if c == label { 10 } else { -3 });
        }
    }
    Logits::new(labels.len(), classes, scores).unwrap()
}

#[test]
fn all_blank_decodes_to_nothing() {
    let ocr = recogniser("abc");
    assert_eq!(ocr.decode(&one_hot(&[0, 0, 0, 0, 0], 4)), "");
    assert_eq!(ocr.decode(&one_hot(&[0], 4)), "");
    assert_eq!(ocr.decode(&one_hot(&[], 4)), "");
}

#[test]
fn repeated_class_is_written_once() {
    let ocr = recogniser("abc");
    assert_eq!(ocr.decode(&one_hot(&[2, 2], 4)), "b");
    assert_eq!(ocr.decode(&one_hot(&[2, 2, 2, 2], 4)), "b");
    assert_eq!(ocr.decode(&one_hot(&[1, 1, 2, 2, 3, 3], 4)), "abc");
}

#[test]
fn blank_between_repeats_writes_twice() {
    let ocr = recogniser("abc");
    assert_eq!(ocr.decode(&one_hot(&[2, 0, 2], 4)), "bb");
    assert_eq!(ocr.decode(&one_hot(&[2, 0, 0, 2], 4)), "bb");
    assert_eq!(ocr.decode(&one_hot(&[1, 1, 0, 1, 2, 2, 0, 0, 3], 4)), "aabc");
    assert_eq!(ocr.decode(&one_hot(&[0, 3, 2, 1, 0], 4)), "cba");
}

#[test]
fn ties_go_to_the_lowest_class() {
    let ocr = recogniser("abc");
    // all equal: the blank wins
    let even = Logits::new(2, 4, vec![5, 5, 5, 5, 5, 5, 5, 5]).unwrap();
    assert_eq!(even.best_class_at(0), 0);
    assert_eq!(ocr.decode(&even), "");
    // classes 1 and 2 tie: class 1 wins
    let tie = Logits::new(1, 4, vec![1, 7, 7, 2]).unwrap();
    assert_eq!(tie.best_class_at(0), 1);
    assert_eq!(ocr.decode(&tie), "a");
    // classes 2 and 3 tie at the end
    let late = Logits::new(1, 4, vec![-9, -8, -1, -1]).unwrap();
    assert_eq!(late.best_class_at(0), 2);
    assert_eq!(ocr.decode(&late), "b");
    // the lowest scores still order
    let low = Logits::new(1, 3, vec![i32::MIN, i32::MIN, i32::MIN + 1]).unwrap();
    assert_eq!(low.best_class_at(0), 2);
}

#[test]
fn scores_for_another_character_set_are_refused() {
    // two symbols and the blank make three classes
    let ocr = recogniser("ab");
    let four = vec![0, 0, 0, 9, 0, 9, 0, 0];
    assert_eq!(ocr.decode_owned(&four, &vec![1, 2, 4]), Err(OcrError::MalformedLogits));
    let two = vec![0, 9, 0, 9, 9, 0];
    assert_eq!(ocr.decode_owned(&two, &vec![1, 3, 2]), Err(OcrError::MalformedLogits));
    let three = vec![0, 9, 0, 0, 0, 9];
    assert_eq!(ocr.decode_owned(&three, &vec![1, 2, 3]), Ok(String::from("ab")));
    // the same scores read as three time steps of two classes do not fit either
    assert_eq!(ocr.decode_owned(&three, &vec![1, 3, 2]), Err(OcrError::MalformedLogits));
    // no classes at all, or one more than fits in a number
    assert_eq!(ocr.decode_owned(&three, &vec![1, 5, 0]), Err(OcrError::MalformedLogits));
    assert_eq!(ocr.decode_owned(&three, &vec![1, 0, 0]), Err(OcrError::MalformedLogits));
    assert_eq!(ocr.decode_owned(&three, &vec![1, 0, usize::MAX]), Err(OcrError::MalformedLogits));
    // the blank alone is not enough for a character set of one symbol
    let single = recogniser("x");
    assert_eq!(single.decode_owned(&vec![5, 5], &vec![1, 2, 1]), Err(OcrError::MalformedLogits));
    assert_eq!(single.decode_owned(&vec![5, 6], &vec![1, 1, 2]), Ok(String::from("x")));
}

#[test]
fn time_step_without_classes_goes_to_the_blank() {
    let none = Logits::new(5, 0, Vec::new()).unwrap();
    assert_eq!(none.best_class_at(4), 0);
}

#[test]
fn logits_need_one_score_per_class_and_step() {
    assert!(Logits::new(2, 3, vec![0; 6]).is_some());
    assert!(Logits::new(2, 3, vec![0; 5]).is_none());
    assert!(Logits::new(2, 3, vec![0; 7]).is_none());
    assert!(Logits::new(usize::MAX, 2, vec![0; 2]).is_none());
    assert!(Logits::new(0, 7, Vec::new()).is_some());
}

#[test]
fn raw_scores_are_decoded_by_their_shape() {
    let ocr = recogniser("abc");
    let data = vec![0, 9, 0, 0, 0, 0, 0, 9];
    assert_eq!(ocr.decode_owned(&data, &vec![1, 2, 4]), Ok(String::from("ac")));
    // the same numbers as two time steps of four classes in a longer batch
    assert_eq!(ocr.decode_owned(&data, &vec![7, 2, 4]), Ok(String::from("ac")));
    // only the first item of a batch is read
    assert_eq!(ocr.decode_owned(&data, &vec![2, 1, 4]), Ok(String::from("a")));
    assert_eq!(ocr.decode_owned(&data, &vec![1, 0, 4]), Ok(String::new()));
}

#[test]
fn malformed_scores_are_refused() {
    let ocr = recogniser("abc");
    let data = vec![0, 9, 0, 0, 0, 0, 0, 9];
    assert_eq!(ocr.decode_owned(&data, &vec![2, 4]), Err(OcrError::MalformedLogits));
    assert_eq!(ocr.decode_owned(&data, &Vec::new()), Err(OcrError::MalformedLogits));
    assert_eq!(ocr.decode_owned(&data, &vec![1, 3, 4]), Err(OcrError::MalformedLogits));
    assert_eq!(ocr.decode_owned(&data, &vec![1, 4, 2]), Err(OcrError::MalformedLogits));
    assert_eq!(ocr.decode_owned(&data, &vec![1, 1, 8]), Err(OcrError::MalformedLogits));
    assert_eq!(ocr.decode_owned(&data, &vec![1, 1, 5]), Err(OcrError::MalformedLogits));
    assert_eq!(ocr.decode_owned(&data, &vec![1, 2, 3]), Err(OcrError::MalformedLogits));
    assert_eq!(ocr.decode_owned(&data, &vec![1, usize::MAX, 4]), Err(OcrError::MalformedLogits));
    assert_eq!(ocr.decode_owned(&Vec::new(), &vec![1, 1, 1]), Err(OcrError::MalformedLogits));
}

fn rank(score: f32) -> i32 {
    score_rank(score.to_bits())
}

#[test]
fn ranks_order_as_the_numbers_do() {
    let scores = [
        f32::NEG_INFINITY,
        f32::MIN,
        -1.0e10,
        -2.5,
        -1.0,
        -f32::MIN_POSITIVE,
        -1.0e-45,
        0.0,
        1.0e-45,
        f32::MIN_POSITIVE,
        0.5,
        1.0,
        1.0000001,
        3.0e7,
        f32::MAX,
        f32::INFINITY,
    ];
    for a in scores.iter() {
        for b in scores.iter() {
            assert_eq!(rank(*a) < rank(*b), a < b, "for {} and {}", a, b);
            assert_eq!(rank(*a) == rank(*b), a == b, "for {} and {}", a, b);
        }
    }
    assert_eq!(rank(0.0), 0);
    assert_eq!(rank(-0.0), 0);
    assert_eq!(rank(1.0), 0x3F80_0000);
    assert_eq!(rank(-1.0), -0x3F80_0000);
    assert_eq!(rank(f32::INFINITY), 0x7F80_0000);
    assert_eq!(rank(f32::NEG_INFINITY), -0x7F80_0000);
}

#[test]
fn what_is_not_a_number_never_wins() {
    assert_eq!(rank(f32::NAN), rank(f32::NEG_INFINITY));
    assert_eq!(rank(-f32::NAN), rank(f32::NEG_INFINITY));
    assert_eq!(score_rank(0x7FC0_0001), rank(f32::NEG_INFINITY));
    assert_eq!(score_rank(0xFF80_0001), rank(f32::NEG_INFINITY));
    let ocr = recogniser("abc");
    let row: Vec<i32> = [f32::NAN, -5.0, f32::NAN, -7.0].iter().map(|v| rank(*v)).collect();
    assert_eq!(ocr.decode_owned(&row, &vec![1, 1, 4]), Ok(String::from("a")));
    // nothing but negative infinity and the like: the blank wins
    let ocr = recogniser("ab");
    let row: Vec<i32> = [f32::NEG_INFINITY, f32::NAN, f32::NEG_INFINITY].iter().map(|v| rank(*v)).collect();
    assert_eq!(ocr.decode_owned(&row, &vec![1, 1, 3]), Ok(String::new()));
    let row: Vec<i32> = [f32::NAN, f32::NEG_INFINITY, -3.0e38].iter().map(|v| rank(*v)).collect();
    assert_eq!(ocr.decode_owned(&row, &vec![1, 1, 3]), Ok(String::from("b")));
}
