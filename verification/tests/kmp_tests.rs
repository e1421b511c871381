use ccproject::kmp::{count_overlapping_substrings, KMP};

#[test]
fn test_simple_match() {
    let kmp = KMP::new("abc");
    assert_eq!(kmp.count_overlap("123abc456"), 1);
}

#[test]
fn test_no_match() {
    let kmp = KMP::new("abc");
    assert_eq!(kmp.count_overlap("123ab456"), 0);
}

#[test]
fn test_multiple_non_overlapping_matches() {
    let kmp = KMP::new("abc");
    assert_eq!(kmp.count_overlap("abc123abc456abc"), 3);
}

#[test]
fn test_multiple_overlapping_matches() {
    let kmp = KMP::new("aba");
    assert_eq!(kmp.count_overlap("abababa"), 3);
}

#[test]
fn test_pattern_equals_target() {
    let kmp = KMP::new("abc");
    assert_eq!(kmp.count_overlap("abc"), 1);
}

#[test]
fn test_pattern_longer_than_target() {
    let kmp = KMP::new("abcdef");
    assert_eq!(kmp.count_overlap("abc"), 0);
}

#[test]
fn test_empty_pattern_and_target() {
    let kmp = KMP::new("");
    assert_eq!(kmp.count_overlap(""), 0);
}

#[test]
fn test_empty_pattern() {
    let kmp = KMP::new("");
    assert_eq!(kmp.count_overlap("abc"), 0);
}

#[test]
fn test_empty_target() {
    let kmp = KMP::new("abc");
    assert_eq!(kmp.count_overlap(""), 0);
}

#[test]
fn failure_function_of_periodic_pattern() {
    let p: Vec<char> = "aabaaab".chars().collect();
    assert_eq!(KMP::find_failure_function(&p), vec![0, 1, 0, 1, 2, 2, 3]);
}

#[test]
fn count_agrees_with_naive_count() {
    let cases = [("aa", "aaaaa"), ("ab", "ababab"), ("x", "xyxyx"), ("abab", "abababab"), ("z", "")];
    for (p, t) in cases.iter() {
        let pc: Vec<char> = p.chars().collect();
        let tc: Vec<char> = t.chars().collect();
        let mut naive = 0;
        if tc.len() >= pc.len() {
            for s in 0..=(tc.len() - pc.len()) {
                if tc[s..s + pc.len()] == pc[..] {
                    naive += 1;
                }
            }
        }
        assert_eq!(KMP::new(p).count_overlap(t), naive);
    }
}

#[test]
fn counts_non_ascii_characters() {
    assert_eq!(count_overlapping_substrings("ééé", "éé"), 2);
    assert_eq!(count_overlapping_substrings("#uwcomm #uwcomm", "#uwcomm"), 2);
}
