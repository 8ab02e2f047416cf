//! Sequences that hold each of their members once.

use vstd::prelude::*;

verus! {

/// Whether `to` holds the members of `from`, each once.
pub open spec fn rearranged(from: Seq<usize>, to: Seq<usize>) -> bool {
    &&& to.len() == from.len()
    &&& to.no_duplicates()
    &&& forall|x: usize| to.contains(x) <==> from.contains(x)
}

/// Whether `order` holds each of `0..count` once.
pub open spec fn permutation(order: Seq<usize>, count: int) -> bool {
    &&& order.len() == count
    &&& order.no_duplicates()
    &&& forall|x: usize| order.contains(x) <==> x < count
}

/// A sequence without duplicates stays so when a value that it lacks is
/// put in, and then holds that value beside its own.
pub proof fn lemma_insert_member(s: Seq<usize>, at: int, a: usize)
    requires
        0 <= at <= s.len(),
        s.no_duplicates(),
        !s.contains(a),
    ensures
        s.insert(at, a).no_duplicates(),
        forall|x: usize| s.insert(at, a).contains(x) <==> (s.contains(x) || x == a),
{
    let t = s.insert(at, a);
    assert forall|x: usize| t.contains(x) <==> (s.contains(x) || x == a) by {
        if t.contains(x) {
            let i = choose|i: int| 0 <= i < t.len() && t[i] == x;
            if i < at {
                assert(s[i] == x);
            } else if i > at {
                assert(s[i - 1] == x);
            }
        }
        if s.contains(x) {
            let i = choose|i: int| 0 <= i < s.len() && s[i] == x;
            if i < at {
                assert(t[i] == x);
            } else {
                assert(t[i + 1] == x);
            }
        }
        if x == a {
            assert(t[at] == x);
        }
    }
    assert forall|i: int, j: int| 0 <= i < t.len() && 0 <= j < t.len() && i != j implies t[i] != t[j] by {
        let from = |k: int| if k < at { k } else { k - 1 };
        if i != at && j != at {
            assert(t[i] == s[from(i)]);
            assert(t[j] == s[from(j)]);
        } else if i == at {
            assert(t[j] == s[from(j)]);
        } else {
            assert(t[i] == s[from(i)]);
        }
    }
}

/// The sequence with the values at two places exchanged.
pub open spec fn swapped(s: Seq<usize>, i: int, j: int) -> Seq<usize> {
    s.update(i, s[j]).update(j, s[i])
}

/// Exchanging two values keeps a permutation a permutation.
pub proof fn lemma_swap_permutation(s: Seq<usize>, i: int, j: int)
    requires
        permutation(s, s.len() as int),
        0 <= i < s.len(),
        0 <= j < s.len(),
    ensures
        permutation(swapped(s, i, j), s.len() as int),
{
    let t = swapped(s, i, j);
    let back = |k: int|
        if k == i {
            j
        } else if k == j {
            i
        } else {
            k
        };
    assert forall|k: int| 0 <= k < t.len() implies t[k] == s[back(k)] by {}
    assert forall|a: int, b: int| 0 <= a < t.len() && 0 <= b < t.len() && a != b implies t[a] != t[b] by {
        assert(t[a] == s[back(a)]);
        assert(t[b] == s[back(b)]);
    }
    assert forall|x: usize| t.contains(x) <==> x < s.len() by {
        if t.contains(x) {
            let k = choose|k: int| 0 <= k < t.len() && t[k] == x;
            assert(s[back(k)] == x);
            assert(s.contains(x));
        }
        if x < s.len() {
            assert(s.contains(x));
            let k = choose|k: int| 0 <= k < s.len() && s[k] == x;
            assert(t[back(k)] == x);
        }
    }
}

} // verus!
