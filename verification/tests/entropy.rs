use shannon_entropy::code_point_frequencies;
use std::collections::BTreeMap;
use std::f32::consts::LN_2;

/// Entropy in bits per code point, evaluated over a table of counts in the
/// order given: the whole sum first, then one division.
fn entropy_of_counts(total: usize, counts: &[usize]) -> f32 {
    if total == 0 {
        return 0.0;
    }
    let n = (total as f32).round();
    let mut raw: f32 = 0.0;
    for &c in counts {
        if c != 0 {
            raw += c as f32 * (c as f32 / n).ln();
        }
    }
    raw.abs() / (n * LN_2)
}

fn entropy(text: &str) -> f32 {
    let table = code_point_frequencies(text);
    let counts: Vec<usize> = table.entries.iter().map(|e| e.1).collect();
    entropy_of_counts(table.total, &counts)
}

/// Entropy from one ordered map over all code points, with no separate
/// treatment of ASCII.
fn unified_entropy(text: &str) -> f32 {
    let mut all: BTreeMap<char, usize> = BTreeMap::new();
    let mut n: usize = 0;
    for ch in text.chars() {
        n += 1;
        *all.entry(ch).or_insert(0) += 1;
    }
    let counts: Vec<usize> = all.values().copied().collect();
    entropy_of_counts(n, &counts)
}

fn close(a: f32, b: f32) -> bool {
    (a - b).abs() <= 1e-5
}

#[test]
fn test_shannon() {
    let test_strings = vec![
        // Make sure we're consistent
        ("horse staple battery", entropy("horse staple battery")),
        // All-ASCII strings hit the fast path
        ("hello world", 2.845351),
        ("hello worldd", 2.8553884),
        ("a", 0.0),
        ("", 0.0),
        // Test non-ascii characters for slow path
        ("i ❤ rust", 2.7499998),
        ("ßℝ💣", 1.5849625),
        ("abc", 1.5849625),
        ("hello world💣", 3.0220554),
    ];

    for (test, answer) in test_strings {
        assert_eq!(answer, entropy(test));
    }
}

#[test]
fn entropy_is_never_negative() {
    for text in ["", "a", "aa", "ab", "hello world", "i ❤ rust", "ßℝ💣", "\0\n\t\0"] {
        let h = entropy(text);
        assert!(h >= 0.0);
        assert!(h.is_sign_positive());
    }
}

#[test]
fn entropy_is_at_most_log2_of_distinct_code_points() {
    for text in ["a", "ab", "abc", "aab", "hello world", "hello worldd", "i ❤ rust", "ßℝ💣ßℝ"] {
        let distinct = code_point_frequencies(text).entries.len();
        let bound = (distinct as f32).log2();
        assert!(entropy(text) <= bound + 1e-5);
    }
    assert_eq!(code_point_frequencies("").entries.len(), 0);
    assert_eq!(entropy(""), 0.0);
}

#[test]
fn uniform_text_reaches_the_bound() {
    assert!(close(entropy("ab"), 1.0));
    assert!(close(entropy("abcd"), 2.0));
    assert!(close(entropy("abcdefgh"), 3.0));
    assert!(close(entropy("aabb"), 1.0));
}

#[test]
fn entropy_ignores_order() {
    assert_eq!(entropy("hello world"), entropy("dlrow olleh"));
    assert_eq!(entropy("i ❤ rust"), entropy("tsur ❤ i"));
    assert_eq!(entropy("aab💣"), entropy("💣aba"));
}

#[test]
fn entropy_of_empty_and_single_code_point_is_zero() {
    assert_eq!(entropy(""), 0.0);
    assert_eq!(entropy("a"), 0.0);
    assert_eq!(entropy("💣"), 0.0);
    assert_eq!(entropy("ß"), 0.0);
    assert_eq!(entropy("aaaaaaa"), 0.0);
}

#[test]
fn repeating_the_text_keeps_the_entropy() {
    for text in ["abc", "hello world", "i ❤ rust", "ßℝ💣", "aab"] {
        let twice = format!("{}{}", text, text);
        assert!(close(entropy(text), entropy(&twice)));
    }
}

#[test]
fn split_table_matches_unified_table() {
    for text in ["hello world💣", "i ❤ rust", "ßℝ💣", "a💣b💣c", "\u{7f}\u{80}\u{7f}"] {
        assert!(close(entropy(text), unified_entropy(text)));
    }
}

#[test]
fn byte_length_is_not_the_divisor() {
    // Three code points in nine bytes: all distinct, so log2(3).
    assert_eq!("ßℝ💣".len(), 9);
    assert_eq!(entropy("ßℝ💣"), 1.5849625);
    assert_eq!(entropy("ßℝ💣"), entropy("abc"));
}
