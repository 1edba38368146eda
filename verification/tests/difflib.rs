use adaptive_selector::difflib::{chars_ratio, SequenceMatcher};
use adaptive_selector::{str_ratio, Ratio};

fn ratio_value(r: Ratio) -> f64 {
    let total = r.len_a + r.len_b;
    if total == 0 {
        return 1.0;
    }
    (2.0 * r.matches as f64) / total as f64
}

/// The code points of `s`, the symbols the matcher compares.
fn chars(s: &str) -> Vec<usize> {
    s.chars().map(|c| c as usize).collect()
}

#[test]
fn basics() {
    assert_eq!(ratio_value(str_ratio("", "")), 1.0);
    assert_eq!(ratio_value(str_ratio("abcd", "abcd")), 1.0);
    assert!((ratio_value(str_ratio("abc", "abd")) - 2.0 * 2.0 / 6.0).abs() < 1e-12);
}

#[test]
fn matches_difflib_reference_values() {
    let cases = [
        ("qabxcdcds", "abycdf", 0.5333333333333333),
        ("spam", "park", 0.5),
    ];
    for (a, b, expected) in cases {
        let got = ratio_value(str_ratio(a, b));
        assert!(
            (got - expected).abs() < 1e-12,
            "ratio({a:?}, {b:?}) = {got}, expected {expected}"
        );
    }
}

#[test]
fn ratio_counts_are_exact() {
    let r = str_ratio("qabxcdcds", "abycdf");
    assert_eq!(r, Ratio { matches: 4, len_a: 9, len_b: 6 });
    let r = str_ratio("spam", "park");
    assert_eq!(r, Ratio { matches: 2, len_a: 4, len_b: 4 });
    let r = str_ratio("abc", "xyz");
    assert_eq!(r.matches, 0);
}

#[test]
fn ratio_counts_characters_not_bytes() {
    let r = str_ratio("héllo", "hello");
    assert_eq!(r, Ratio { matches: 4, len_a: 5, len_b: 5 });
}

#[test]
fn identical_sequences_match_in_full() {
    for s in ["", "a", "abcabc", "the quick brown fox", "ééé"] {
        let r = str_ratio(s, s);
        assert_eq!(r.matches, r.len_a);
        assert_eq!(ratio_value(r), 1.0);
    }
}

#[test]
fn ratio_never_exceeds_one() {
    let pairs = [("abcd", "bcde"), ("aaaa", "aa"), ("x", "xxxxxxxx"), ("abab", "baba")];
    for (a, b) in pairs {
        let r = str_ratio(a, b);
        assert!(r.matches <= r.len_a && r.matches <= r.len_b);
        assert!(ratio_value(r) <= 1.0);
    }
}

#[test]
fn longest_match_is_the_earliest_longest_block() {
    let a = chars("xabcyabcz");
    let b = chars("abc");
    let m = SequenceMatcher::new(&a, &b);
    let found = m.find_longest_match(0, a.len(), 0, b.len());
    assert_eq!((found.a_pos, found.b_pos, found.size), (1, 0, 3));
}

#[test]
fn longest_match_respects_the_ranges() {
    let a = chars("abcdef");
    let b = chars("xxcdxx");
    let m = SequenceMatcher::new(&a, &b);
    let found = m.find_longest_match(3, 6, 0, 6);
    assert_eq!((found.a_pos, found.b_pos, found.size), (3, 3, 1));
    let none = m.find_longest_match(4, 6, 0, 6);
    assert_eq!(none.size, 0);
    assert_eq!((none.a_pos, none.b_pos), (4, 0));
}

#[test]
fn matching_blocks_are_ordered_and_merged() {
    let a = chars("qabxcdcds");
    let b = chars("abycdf");
    let m = SequenceMatcher::new(&a, &b);
    let blocks: Vec<(usize, usize, usize)> = m
        .get_matching_blocks()
        .iter()
        .map(|m| (m.a_pos, m.b_pos, m.size))
        .collect();
    assert_eq!(blocks, vec![(1, 0, 2), (4, 3, 2)]);
}

#[test]
fn popular_elements_are_discounted_in_long_sequences() {
    // 'a' makes up far more than 1% of a 300-element b, so it is popular.
    let a: Vec<char> = "a".repeat(10).chars().collect();
    let b: Vec<char> = "ab".repeat(150).chars().collect();
    let r = chars_ratio(&a, &b);
    // No core block exists; the extension from the range starts still
    // matches the leading `a`.
    assert_eq!(r.matches, 1);
    // With a short b the same elements match normally.
    let short: Vec<char> = "ab".repeat(10).chars().collect();
    assert_eq!(chars_ratio(&a, &short).matches, 10);
    let many_a: Vec<char> = "aaaaab".chars().collect();
    assert_eq!(chars_ratio(&a, &many_a).matches, 5);
}

#[test]
fn popularity_cutoff_is_one_above_a_hundredth() {
    // 200 elements: popular means more than 200 / 100 + 1 = 3 occurrences.
    let b = "y".repeat(197) + "xxx";
    assert_eq!(str_ratio("x", &b), Ratio { matches: 1, len_a: 1, len_b: 200 });
    let b = "y".repeat(196) + "xxxx";
    assert_eq!(str_ratio("x", &b).matches, 0);
}

#[test]
fn the_top_longest_block_is_kept_whole() {
    for (a, b) in [("qabxcdcds", "abycdf"), ("abcdxyz", "xyzabcd"), ("aaab", "aab")] {
        let (a, b) = (chars(a), chars(b));
        let m = SequenceMatcher::new(&a, &b);
        let top = m.find_longest_match(0, a.len(), 0, b.len());
        assert!(top.size > 0);
        assert!(m.get_matching_blocks().contains(&top));
    }
}
