//! Positions in a syntax tree and their document order.
//!
//! A node is named by its path from the root: the child indices taken on the
//! way down. The root is the empty path. Document order (the order in which a
//! pre-order walk meets the nodes) is the lexicographic order of paths, where a
//! path comes before every path that extends it.
use vstd::prelude::*;

verus! {

/// `a` and `b` hold the same indices below position `n`.
pub open spec fn agree(a: Seq<int>, b: Seq<int>, n: int) -> bool {
    forall|k: int| 0 <= k < n ==> #[trigger] a[k] == b[k]
}

/// `a` is a prefix of `b` (an ancestor of `b`, or `b` itself).
pub open spec fn is_prefix(a: Seq<int>, b: Seq<int>) -> bool {
    a.len() <= b.len() && agree(a, b, a.len() as int)
}

/// `a` and `b` first part at position `i`, where `a` takes the smaller child.
pub open spec fn differs_at(a: Seq<int>, b: Seq<int>, i: int) -> bool {
    &&& 0 <= i < a.len()
    &&& i < b.len()
    &&& agree(a, b, i)
    &&& a[i] < b[i]
}

/// Strict document order: `a` is met before `b` in a pre-order walk.
pub open spec fn precedes(a: Seq<int>, b: Seq<int>) -> bool {
    ||| (is_prefix(a, b) && a.len() < b.len())
    ||| exists|i: int| #[trigger] differs_at(a, b, i)
}

/// No path precedes itself.
pub proof fn lemma_precedes_irreflexive(a: Seq<int>)
    ensures
        !precedes(a, a),
{
}

/// Document order is asymmetric.
pub proof fn lemma_precedes_asymmetric(a: Seq<int>, b: Seq<int>)
    requires
        precedes(a, b),
    ensures
        !precedes(b, a),
{
    if precedes(b, a) {
        if is_prefix(a, b) && a.len() < b.len() {
            if is_prefix(b, a) && b.len() < a.len() {
            } else {
                let j = choose|j: int| #[trigger] differs_at(b, a, j);
                assert(b[j] == a[j]);
            }
        } else {
            let i = choose|i: int| #[trigger] differs_at(a, b, i);
            if is_prefix(b, a) && b.len() < a.len() {
                assert(b[i] == a[i]);
            } else {
                let j = choose|j: int| #[trigger] differs_at(b, a, j);
                if i < j {
                    assert(b[i] == a[i]);
                } else if j < i {
                    assert(a[j] == b[j]);
                }
            }
        }
    }
}

/// Document order is transitive.
pub proof fn lemma_precedes_transitive(a: Seq<int>, b: Seq<int>, c: Seq<int>)
    requires
        precedes(a, b),
        precedes(b, c),
    ensures
        precedes(a, c),
{
    if is_prefix(a, b) && a.len() < b.len() {
        if is_prefix(b, c) && b.len() < c.len() {
            assert(is_prefix(a, c));
        } else {
            let j = choose|j: int| #[trigger] differs_at(b, c, j);
            if j < a.len() {
                assert(differs_at(a, c, j));
            } else {
                assert(is_prefix(a, c));
            }
        }
    } else {
        let i = choose|i: int| #[trigger] differs_at(a, b, i);
        if is_prefix(b, c) && b.len() < c.len() {
            assert(differs_at(a, c, i));
        } else {
            let j = choose|j: int| #[trigger] differs_at(b, c, j);
            if i <= j {
                assert(differs_at(a, c, i));
            } else {
                assert(differs_at(a, c, j));
            }
        }
    }
}

/// Two different paths are ordered one way or the other.
pub proof fn lemma_precedes_total(a: Seq<int>, b: Seq<int>)
    requires
        a != b,
    ensures
        precedes(a, b) || precedes(b, a),
{
    let n = if a.len() <= b.len() {
        a.len() as int
    } else {
        b.len() as int
    };
    if agree(a, b, n) {
        if a.len() == b.len() {
            assert(a =~= b);
        }
    } else {
        let i = lemma_first_disagreement(a, b, n);
        if a[i] < b[i] {
            assert(differs_at(a, b, i));
        } else {
            assert(differs_at(b, a, i));
        }
    }
}

/// The first position below `n` where `a` and `b` hold different indices.
pub proof fn lemma_first_disagreement(a: Seq<int>, b: Seq<int>, n: int) -> (i: int)
    requires
        0 <= n <= a.len(),
        n <= b.len(),
        !agree(a, b, n),
    ensures
        0 <= i < n,
        agree(a, b, i),
        a[i] != b[i],
    decreases n,
{
    if agree(a, b, n - 1) {
        n - 1
    } else {
        lemma_first_disagreement(a, b, n - 1)
    }
}

} // verus!
