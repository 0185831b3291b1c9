use vstd::prelude::*;

use crate::canvas::Canvas;

verus! {

/// Number of indices below `n` where both canvases are black: `|A ∩ B|`.
pub open spec fn both_black(a: Seq<bool>, b: Seq<bool>, n: int) -> nat
    decreases n,
{
    if n <= 0 {
        0
    } else {
        both_black(a, b, n - 1) + if a[n - 1] && b[n - 1] {
            1nat
        } else {
            0nat
        }
    }
}

/// Number of indices below `n` where either canvas is black: `|A ∪ B|`.
pub open spec fn either_black(a: Seq<bool>, b: Seq<bool>, n: int) -> nat
    decreases n,
{
    if n <= 0 {
        0
    } else {
        either_black(a, b, n - 1) + if a[n - 1] || b[n - 1] {
            1nat
        } else {
            0nat
        }
    }
}

/// Number of black pixels among the first `n` of a canvas.
pub open spec fn black_count(a: Seq<bool>, n: int) -> nat
    decreases n,
{
    if n <= 0 {
        0
    } else {
        black_count(a, n - 1) + if a[n - 1] {
            1nat
        } else {
            0nat
        }
    }
}

/// The overlap of two canvases over the pixels of `a`: `(|A ∩ B|, |A ∪ B|)`.
/// Their Jaccard index is the first divided by the second, and 0 when the
/// union is empty.
pub fn overlap_counts(a: &Canvas, b: &Canvas) -> (counts: (usize, usize))
    requires
        a.len() <= b.len(),
    ensures
        counts.0 == both_black(a@, b@, a.len() as int),
        counts.1 == either_black(a@, b@, a.len() as int),
{
    let mut intersection: usize = 0;
    let mut union: usize = 0;
    let mut i: usize = 0;
    while i < a.len()
        invariant
            i <= a.len(),
            a.len() <= b.len(),
            intersection == both_black(a@, b@, i as int),
            union == either_black(a@, b@, i as int),
            intersection <= union <= i,
        decreases a.len() - i,
    {
        if a[i] && b[i] {
            intersection = intersection + 1;
            union = union + 1;
        } else if a[i] || b[i] {
            union = union + 1;
        }
        i = i + 1;
    }
    (intersection, union)
}

/// The intersection is never larger than the union, and the union never
/// larger than the number of pixels counted: the Jaccard index lies in `[0, 1]`.
pub proof fn lemma_intersection_within_union(a: Seq<bool>, b: Seq<bool>, n: int)
    ensures
        both_black(a, b, n) <= either_black(a, b, n),
        n >= 0 ==> either_black(a, b, n) <= n,
    decreases n,
{
    if n > 0 {
        lemma_intersection_within_union(a, b, n - 1);
    }
}

/// The overlap does not depend on the order of the two canvases.
pub proof fn lemma_overlap_symmetric(a: Seq<bool>, b: Seq<bool>, n: int)
    ensures
        both_black(a, b, n) == both_black(b, a, n),
        either_black(a, b, n) == either_black(b, a, n),
    decreases n,
{
    if n > 0 {
        lemma_overlap_symmetric(a, b, n - 1);
    }
}

/// A canvas overlaps itself fully: intersection and union are both its number
/// of black pixels, so its Jaccard index with itself is 1 unless it is blank.
pub proof fn lemma_overlap_with_itself(a: Seq<bool>, n: int)
    ensures
        both_black(a, a, n) == black_count(a, n),
        either_black(a, a, n) == black_count(a, n),
    decreases n,
{
    if n > 0 {
        lemma_overlap_with_itself(a, n - 1);
    }
}

/// The union is empty exactly when neither canvas has a black pixel in range;
/// that is the case whose Jaccard index is defined as 0.
pub proof fn lemma_empty_union(a: Seq<bool>, b: Seq<bool>, n: int)
    requires
        0 <= n <= a.len(),
        n <= b.len(),
    ensures
        either_black(a, b, n) == 0 <==> forall|i: int| 0 <= i < n ==> !a[i] && !b[i],
    decreases n,
{
    if n > 0 {
        lemma_empty_union(a, b, n - 1);
        if either_black(a, b, n) == 0 {
            assert forall|i: int| 0 <= i < n implies !a[i] && !b[i] by {
                if i < n - 1 {
                } else {
                }
            }
        }
    }
}

/// Two canvases are identical on the range exactly when the intersection
/// equals the union, that is when their Jaccard index is 1 (or both are blank).
pub proof fn lemma_full_overlap_iff_equal(a: Seq<bool>, b: Seq<bool>, n: int)
    requires
        0 <= n <= a.len(),
        n <= b.len(),
    ensures
        both_black(a, b, n) == either_black(a, b, n) <==> forall|i: int| 0 <= i < n ==> a[i] == b[i],
    decreases n,
{
    if n > 0 {
        lemma_full_overlap_iff_equal(a, b, n - 1);
        lemma_intersection_within_union(a, b, n - 1);
    }
}

/// Inclusion–exclusion: the intersection and the union together count every
/// black pixel of both canvases, `|A ∩ B| + |A ∪ B| == |A| + |B|`.
pub proof fn lemma_inclusion_exclusion(a: Seq<bool>, b: Seq<bool>, n: int)
    ensures
        both_black(a, b, n) + either_black(a, b, n) == black_count(a, n) + black_count(b, n),
    decreases n,
{
    if n > 0 {
        lemma_inclusion_exclusion(a, b, n - 1);
    }
}

} // verus!
