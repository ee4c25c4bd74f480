use file_ripper::distance::{chars_of, distance_of_chars};
use file_ripper::levenshtein_distance;

fn distance(a: &str, b: &str) -> usize {
    levenshtein_distance(a.to_string(), b.to_string())
}

#[test]
fn kitten_to_sitting_takes_three_edits() {
    assert_eq!(distance("kitten", "sitting"), 3);
}

#[test]
fn distance_is_symmetric() {
    let words = ["", "a", "kitten", "sitting", "notes", "report.pdf", "flaw", "lawn", "héllo"];
    for a in words {
        for b in words {
            assert_eq!(distance(a, b), distance(b, a), "{a:?} and {b:?}");
        }
    }
}

#[test]
fn distance_to_itself_is_zero() {
    for s in ["", "a", "notes.txt", "日本語", "a much longer piece of text"] {
        assert_eq!(distance(s, s), 0);
    }
}

#[test]
fn distance_from_empty_is_the_length() {
    assert_eq!(distance("", ""), 0);
    assert_eq!(distance("", "abc"), 3);
    assert_eq!(distance("abcd", ""), 4);
    assert_eq!(distance("", "notesfinal.txt"), 14);
}

#[test]
fn distance_counts_code_points_not_bytes() {
    // "é" is two bytes and one code point.
    assert_eq!(distance("", "é"), 1);
    assert_eq!(distance("héllo", "hello"), 1);
    assert_eq!(distance("日本語", "日本"), 1);
    assert_eq!(distance("日本語", "abc"), 3);
    assert_eq!(distance("ñandú", "nandu"), 2);
}

#[test]
fn single_edits_cost_one() {
    assert_eq!(distance("cat", "cart"), 1);
    assert_eq!(distance("cart", "cat"), 1);
    assert_eq!(distance("cat", "cut"), 1);
    assert_eq!(distance("cat", "at"), 1);
    assert_eq!(distance("cat", "cats"), 1);
}

#[test]
fn known_distances() {
    assert_eq!(distance("flaw", "lawn"), 2);
    assert_eq!(distance("saturday", "sunday"), 3);
    assert_eq!(distance("intention", "execution"), 5);
    assert_eq!(distance("abc", "xyz"), 3);
    assert_eq!(distance("abc", "abcdef"), 3);
    assert_eq!(distance("notes", "notes.txt"), 4);
    assert_eq!(distance("notes", "notesfinal.txt"), 9);
    assert_eq!(distance("notes", "report.pdf"), 8);
    assert_eq!(distance("notes", "report"), 6);
}

#[test]
fn distance_stays_within_its_bounds() {
    let words = ["", "a", "ab", "kitten", "sitting", "notes", "zzzzzzzzzz"];
    for a in words {
        for b in words {
            let d = distance(a, b);
            let (m, n) = (a.chars().count(), b.chars().count());
            assert!(d <= m.max(n));
            assert!(d >= m.max(n) - m.min(n));
            assert_eq!(d == 0, a == b);
        }
    }
}

#[test]
fn distance_obeys_the_triangle_inequality() {
    let words = ["", "a", "ab", "kitten", "sitting", "mitten", "notes", "note"];
    for a in words {
        for b in words {
            for c in words {
                assert!(distance(a, c) <= distance(a, b) + distance(b, c));
            }
        }
    }
}

#[test]
fn chars_of_gives_the_code_points() {
    assert_eq!(chars_of(""), Vec::<char>::new());
    assert_eq!(chars_of("héllo"), vec!['h', 'é', 'l', 'l', 'o']);
}

#[test]
fn distance_of_chars_takes_either_order() {
    let long = chars_of("sitting");
    let short = chars_of("kit");
    assert_eq!(distance_of_chars(&long, &short), 5);
    assert_eq!(distance_of_chars(&short, &long), 5);
    assert_eq!(distance_of_chars(&short, &Vec::new()), 3);
    assert_eq!(distance_of_chars(&Vec::new(), &long), 7);
}
