//! Knuth-Morris-Pratt counting of (possibly overlapping) occurrences.

use vstd::prelude::*;
use crate::text::str_to_chars;

verus! {

/// The first `k` characters of `p` equal the `k` characters of `t` that end
/// just before index `end`.
pub open spec fn matches_before(p: Seq<char>, t: Seq<char>, end: int, k: int) -> bool {
    &&& 0 <= k <= p.len()
    &&& k <= end <= t.len()
    &&& forall|x: int| 0 <= x < k ==> #[trigger] p[x] == t[end - k + x]
}

/// `k` is the length of a proper border (a prefix that is also a suffix) of
/// the prefix `p[0..=i]`.
pub open spec fn is_border(p: Seq<char>, i: int, k: int) -> bool {
    &&& 0 <= i < p.len()
    &&& 0 <= k <= i
    &&& matches_before(p, p, i + 1, k)
}

/// `f[i]` is the length of the longest proper border of `p[0..=i]`, for every `i`.
pub open spec fn is_failure_function(p: Seq<char>, f: Seq<usize>) -> bool {
    &&& f.len() == p.len()
    &&& forall|i: int| 0 <= i < p.len() ==> #[trigger] is_border(p, i, f[i] as int)
    &&& forall|i: int, k: int|
        0 <= i < p.len() && f[i] < k && #[trigger] is_border(p, i, k) ==> false
}

/// `p` occurs in `t` starting at index `s`.
pub open spec fn occurs_at(p: Seq<char>, t: Seq<char>, s: int) -> bool {
    &&& 0 <= s
    &&& s + p.len() <= t.len()
    &&& forall|x: int| 0 <= x < p.len() ==> #[trigger] t[s + x] == p[x]
}

/// Number of occurrences of `p` in `t` that end at or before index `e`.
pub open spec fn occurrences_upto(p: Seq<char>, t: Seq<char>, e: int) -> nat
    decreases e,
{
    if e <= 0 {
        0
    } else {
        occurrences_upto(p, t, e - 1) + if e >= p.len() && occurs_at(p, t, e - p.len()) {
            1nat
        } else {
            0nat
        }
    }
}

/// Counting occurrences up to a later index counts at least as many.
pub proof fn lemma_occurrences_upto_monotone(p: Seq<char>, t: Seq<char>, a: int, b: int)
    requires
        a <= b,
    ensures
        occurrences_upto(p, t, a) <= occurrences_upto(p, t, b),
    decreases b - a,
{
    if a < b {
        lemma_occurrences_upto_monotone(p, t, a, b - 1);
    }
}

/// Number of (possibly overlapping) occurrences of a non-empty `p` in `t`;
/// zero for the empty pattern.
pub open spec fn count_occurrences(p: Seq<char>, t: Seq<char>) -> nat {
    if p.len() == 0 {
        0
    } else {
        occurrences_upto(p, t, t.len() as int)
    }
}

/// A compiled pattern together with its failure function.
pub struct KMP {
    pattern: Vec<char>,
    failure_function: Vec<usize>,
    pattern_length: usize,
}

impl KMP {
    #[verifier::type_invariant]
    closed spec fn well_formed(self) -> bool {
        &&& self.pattern_length == self.pattern@.len()
        &&& is_failure_function(self.pattern@, self.failure_function@)
    }

    /// The characters of the pattern.
    pub closed spec fn pattern_view(&self) -> Seq<char> {
        self.pattern@
    }

    /// Compiles `pattern`.
    pub fn new(pattern: &str) -> (r: KMP)
        ensures
            r.pattern_view() == pattern@,
    {
        let pattern: Vec<char> = str_to_chars(pattern);
        let pattern_length = pattern.len();
        KMP {
            failure_function: KMP::find_failure_function(&pattern),
            pattern: pattern,
            pattern_length: pattern_length,
        }
    }

    /// Border of a border: when `p[0..j]` is a suffix of `p[0..i]`, a shorter
    /// prefix is a suffix of `p[0..i]` exactly when it is a suffix of `p[0..j]`.
    proof fn lemma_border_of_border(p: Seq<char>, i: int, j: int, k: int)
        requires
            matches_before(p, p, i, j),
            0 <= k <= j,
        ensures
            matches_before(p, p, i, k) <==> matches_before(p, p, j, k),
    {
        assert forall|x: int| 0 <= x < k implies #[trigger] p[i - k + x] == p[j - k + x] by {
            let y = j - k + x;
            assert(p[y] == p[i - j + y]);
        }
    }

    /// Computes the failure function of `pattern`.
    pub fn find_failure_function(pattern: &Vec<char>) -> (f: Vec<usize>)
        ensures
            is_failure_function(pattern@, f@),
    {
        let ghost p = pattern@;
        let pattern_length = pattern.len();
        let end_i: usize = pattern_length;
        let mut failure_function: Vec<usize> = Vec::new();
        let mut z: usize = 0;
        while z < pattern_length
            invariant
                z <= pattern_length,
                failure_function@.len() == z,
                forall|a: int| 0 <= a < z ==> failure_function@[a] == 0,
            decreases pattern_length - z,
        {
            failure_function.push(0);
            z = z + 1;
        }
        if pattern_length == 0 {
            return failure_function;
        }
        let mut i: usize = 1;
        let mut j: usize = 0;
        proof {
            assert(is_border(p, 0, 0));
            assert forall|k: int| 0 < k && #[trigger] is_border(p, 0, k) implies false by {}
        }
        while i < end_i
            invariant
                p == pattern@,
                end_i == p.len(),
                failure_function@.len() == p.len(),
                1 <= i <= end_i,
                j < i,
                matches_before(p, p, i as int, j as int),
                forall|k: int| j + 1 < k <= i ==> !#[trigger] matches_before(p, p, i + 1, k),
                forall|a: int| 0 <= a < i ==> #[trigger] is_border(p, a, failure_function@[a] as int),
                forall|a: int, k: int|
                    0 <= a < i && failure_function@[a] < k && #[trigger] is_border(p, a, k) ==> false,
            decreases 2 * end_i - 2 * i + j,
        {
            if pattern[i] == pattern[j] {
                proof {
                    assert(is_border(p, i as int, j + 1));
                    assert forall|k: int| (j + 1) < k && #[trigger] is_border(p, i as int, k) implies false by {}
                    assert forall|k: int| j + 2 < k <= i + 1 implies !#[trigger] matches_before(p, p, i + 2, k) by {
                        if i + 1 < p.len() && matches_before(p, p, i + 2, k) {
                            assert(matches_before(p, p, i + 1, k - 1));
                        }
                    }
                }
                failure_function.set(i, j + 1);
                i = i + 1;
                j = j + 1;
            } else {
                if j == 0 {
                    proof {
                        assert forall|k: int| 0 < k && #[trigger] is_border(p, i as int, k) implies false by {
                            if k == 1 {
                                assert(p[0] == p[i as int]);
                            }
                        }
                        assert forall|k: int| 1 < k <= i + 1 implies !#[trigger] matches_before(p, p, i + 2, k) by {
                            if i + 1 < p.len() && matches_before(p, p, i + 2, k) {
                                assert(matches_before(p, p, i + 1, k - 1));
                                assert(is_border(p, i as int, k - 1));
                            }
                        }
                    }
                    failure_function.set(i, 0);
                    i = i + 1;
                } else {
                    let ghost old_j = j;
                    j = failure_function[j - 1];
                    proof {
                        assert(is_border(p, old_j - 1, j as int));
                        Self::lemma_border_of_border(p, i as int, old_j as int, j as int);
                        assert forall|k: int| j + 1 < k <= i implies !#[trigger] matches_before(p, p, i + 1, k) by {
                            if matches_before(p, p, i + 1, k) && k <= old_j {
                                assert(matches_before(p, p, i as int, k - 1));
                                Self::lemma_border_of_border(p, i as int, old_j as int, k - 1);
                                assert(is_border(p, old_j - 1, k - 1));
                            }
                            if k == old_j + 1 && matches_before(p, p, i + 1, k) {
                                assert(p[old_j as int] == p[i as int]);
                            }
                        }
                    }
                }
            }
        }
        failure_function
    }

    /// Counts the occurrences of the pattern in `target`, overlapping ones
    /// included; the empty pattern counts zero.
    pub fn count_overlap(&self, target: &str) -> (count: i32)
        requires
            count_occurrences(self.pattern_view(), target@) <= i32::MAX,
        ensures
            count == count_occurrences(self.pattern_view(), target@),
    {
        proof {
            use_type_invariant(self);
        }
        let target: Vec<char> = str_to_chars(target);
        let ghost p = self.pattern@;
        let ghost t = target@;
        let mut t_i: usize = 0;
        let mut p_i: usize = 0;
        let target_len = target.len();
        let pattern_len = self.pattern_length;
        if self.pattern_length == 0 {
            return 0;
        }
        let mut count: i32 = 0;
        while t_i < target_len
            invariant
                p == self.pattern@,
                t == target@,
                target_len == t.len(),
                occurrences_upto(p, t, target_len as int) <= i32::MAX,
                pattern_len == p.len(),
                pattern_len > 0,
                is_failure_function(p, self.failure_function@),
                t_i <= target_len,
                p_i < pattern_len,
                matches_before(p, t, t_i as int, p_i as int),
                forall|s: int| 0 <= s < t_i - p_i && #[trigger] occurs_at(p, t, s) ==> s + p.len() <= t_i,
                count == occurrences_upto(p, t, t_i as int),
                count <= t_i,
            decreases 2 * target_len - 2 * t_i + p_i,
        {
            if target[t_i] == self.pattern[p_i] {
                t_i = t_i + 1;
                p_i = p_i + 1;
                if p_i >= pattern_len {
                    proof {
                        let s0 = t_i - pattern_len;
                        assert(occurs_at(p, t, s0));
                        lemma_occurrences_upto_monotone(p, t, t_i as int, target_len as int);
                    }
                    count += 1;
                    let ghost old_p = p_i;
                    p_i = self.failure_function[p_i - 1];
                    proof {
                        assert(is_border(p, old_p - 1, p_i as int));
                        assert forall|x: int| 0 <= x < p_i implies #[trigger] p[x] == t[t_i - p_i + x] by {
                            assert(p[x] == p[old_p - p_i + x]);
                            assert(p[old_p - p_i + x] == t[t_i - old_p + (old_p - p_i + x)]);
                        }
                        assert forall|s: int| 0 <= s < t_i - p_i && #[trigger] occurs_at(p, t, s) implies s + p.len() <= t_i by {
                            if s > t_i - old_p {
                                let k = t_i - s;
                                assert forall|x: int| 0 <= x < k implies #[trigger] p[x] == p[old_p - k + x] by {
                                    assert(t[s + x] == p[x]);
                                    assert(p[old_p - k + x] == t[t_i - old_p + (old_p - k + x)]);
                                }
                                assert(is_border(p, old_p - 1, k));
                            }
                        }
                    }
                } else {
                    proof {
                        assert forall|s: int| 0 <= s < t_i - p_i && #[trigger] occurs_at(p, t, s) implies s + p.len() <= t_i by {}
                        if t_i >= p.len() && occurs_at(p, t, t_i - p.len()) {
                            assert(t_i - p.len() < t_i - 1 - (p_i - 1));
                        }
                    }
                }
            } else {
                if p_i == 0 {
                    proof {
                        if t_i + 1 >= p.len() && occurs_at(p, t, t_i + 1 - p.len()) {
                            assert(t[t_i + 1 - p.len() + (p.len() - 1)] == p[p.len() - 1]);
                            if p.len() == 1 {
                                assert(t[t_i as int] == p[0]);
                            }
                        }
                        assert forall|s: int| 0 <= s < t_i + 1 && #[trigger] occurs_at(p, t, s) implies s + p.len() <= t_i + 1 by {
                            if s == t_i {
                                assert(t[s + 0] == p[0]);
                            }
                        }
                    }
                    t_i = t_i + 1;
                } else {
                    let ghost old_p = p_i;
                    p_i = self.failure_function[p_i - 1];
                    proof {
                        assert(is_border(p, old_p - 1, p_i as int));
                        assert forall|x: int| 0 <= x < p_i implies #[trigger] p[x] == t[t_i - p_i + x] by {
                            assert(p[x] == p[old_p - p_i + x]);
                            assert(p[old_p - p_i + x] == t[t_i - old_p + (old_p - p_i + x)]);
                        }
                        assert forall|s: int| 0 <= s < t_i - p_i && #[trigger] occurs_at(p, t, s) implies s + p.len() <= t_i by {
                            if s >= t_i - old_p && s + p.len() > t_i {
                                let k = t_i - s;
                                if k == old_p {
                                    assert(t[s + k] == p[k]);
                                } else {
                                    assert forall|x: int| 0 <= x < k implies #[trigger] p[x] == p[old_p - k + x] by {
                                        assert(t[s + x] == p[x]);
                                        assert(p[old_p - k + x] == t[t_i - old_p + (old_p - k + x)]);
                                    }
                                    assert(is_border(p, old_p - 1, k));
                                }
                            }
                        }
                    }
                }
            }
        }
        count
    }
}

/// Counts the occurrences of `pattern` in `text`, overlapping ones included.
pub fn count_overlapping_substrings(text: &str, pattern: &str) -> (count: i32)
    requires
        count_occurrences(pattern@, text@) <= i32::MAX,
    ensures
        count == count_occurrences(pattern@, text@),
{
    let kmp = KMP::new(pattern);
    kmp.count_overlap(text)
}

} // verus!
