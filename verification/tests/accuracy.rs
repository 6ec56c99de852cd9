use monocr::calculate_accuracy;
use monocr::utils::{chars_of, edit_distance_of, levenshtein, score_from_distance};

fn percent(hundredths: u32) -> f64 {
    hundredths as f64 / 100.0
}

#[test]
fn test_levenshtein() {
    assert_eq!(levenshtein("kitten", "sitting"), 3);
    assert_eq!(levenshtein("", ""), 0);
    assert_eq!(levenshtein("a", ""), 1);
    assert_eq!(levenshtein("", "a"), 1);
    assert_eq!(levenshtein("abc", "abc"), 0);
}

#[test]
fn test_accuracy() {
    assert_eq!(percent(calculate_accuracy("hello", "hello")), 100.0);
    assert_eq!(percent(calculate_accuracy("", "hello")), 0.0);
    assert_eq!(percent(calculate_accuracy("hello", "")), 0.0);

    // 1 error out of 5 chars = 80% accuracy
    let acc = percent(calculate_accuracy("hellp", "hello"));
    assert!(acc >= 79.99 && acc <= 80.01);
}

#[test]
fn accuracy_exact_values() {
    assert_eq!(calculate_accuracy("hello", "hello"), 10000);
    assert_eq!(calculate_accuracy("hellp", "hello"), 8000);
    assert_eq!(calculate_accuracy("", "hello"), 0);
    assert_eq!(calculate_accuracy("hello", ""), 0);
    assert_eq!(calculate_accuracy("", ""), 0);
    // 3 edits on 7 characters: 4/7 = 57.142857...
    assert_eq!(calculate_accuracy("kitten", "sitting"), 5714);
    // nothing in common
    assert_eq!(calculate_accuracy("abc", "xyz"), 0);
}

#[test]
fn accuracy_rounds_halves_up() {
    // 1 edit on 32 characters: 96.875 % rounds to 96.88 %
    let truth = "a".repeat(32);
    let mut predicted = "a".repeat(31);
    predicted.push('b');
    assert_eq!(calculate_accuracy(&predicted, &truth), 9688);
    assert_eq!(score_from_distance(1, 32), 9688);
    // 1 edit on 3 characters: 66.666... % rounds to 66.67 %
    assert_eq!(score_from_distance(1, 3), 6667);
    // 2 edits on 3 characters: 33.333... % rounds to 33.33 %
    assert_eq!(score_from_distance(2, 3), 3333);
    assert_eq!(score_from_distance(0, 1), 10000);
    assert_eq!(score_from_distance(1, 1), 0);
}

#[test]
fn levenshtein_counts_characters_not_bytes() {
    assert_eq!(levenshtein("héllo", "hello"), 1);
    assert_eq!(levenshtein("ᠮᠣᠩᠭᠣᠯ", "ᠮᠣᠩᠭᠣᠯ"), 0);
    assert_eq!(levenshtein("ᠮᠣᠩᠭᠣᠯ", "ᠮᠣᠩᠭᠣ"), 1);
    assert_eq!(calculate_accuracy("héllo", "hello"), 8000);
}

#[test]
fn levenshtein_is_symmetric() {
    let words = ["", "a", "ab", "kitten", "sitting", "flaw", "lawn", "saturday", "sunday"];
    for a in words.iter() {
        for b in words.iter() {
            assert_eq!(levenshtein(a, b), levenshtein(b, a));
        }
    }
    assert_eq!(levenshtein("flaw", "lawn"), 2);
    assert_eq!(levenshtein("saturday", "sunday"), 3);
}

#[test]
fn levenshtein_stays_within_the_longer_length() {
    let words = ["", "a", "ab", "kitten", "sitting", "zzzzzzzzzz"];
    for a in words.iter() {
        for b in words.iter() {
            let longest = a.chars().count().max(b.chars().count());
            let shortest = a.chars().count().min(b.chars().count());
            let d = levenshtein(a, b);
            assert!(d <= longest);
            assert!(d >= longest - shortest);
        }
    }
}

#[test]
fn accuracy_stays_within_range() {
    let words = ["a", "ab", "kitten", "sitting", "zzzzzzzzzz", "hello"];
    for a in words.iter() {
        for b in words.iter() {
            let score = calculate_accuracy(a, b);
            assert!(score <= 10000);
            if a == b {
                assert_eq!(score, 10000);
            }
        }
    }
}

#[test]
fn chars_and_distance_on_vectors() {
    assert_eq!(chars_of("añb"), vec!['a', 'ñ', 'b']);
    assert_eq!(chars_of(""), Vec::<char>::new());
    let a = vec!['a', 'b', 'c'];
    let b = vec!['a', 'c'];
    assert_eq!(edit_distance_of(&a, &b), 1);
    assert_eq!(edit_distance_of(&b, &a), 1);
    assert_eq!(edit_distance_of(&a, &Vec::new()), 3);
}
