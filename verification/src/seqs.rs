//! Ascending index sequences.
//!
//! `asc_filter(n, pred)` is the ascending sequence of all indices in
//! `[0, n)` that satisfy `pred`. The per-frame iteration order of the
//! simulation — over live store slots and over candidate collision pairs —
//! is specified with it, which is what makes the whole frame deterministic.

use vstd::prelude::*;

verus! {

/// The indices in `[0, n)` satisfying `pred`, in ascending order.
pub open spec fn asc_filter(n: nat, pred: spec_fn(int) -> bool) -> Seq<int>
    decreases n,
{
    if n == 0 {
        Seq::empty()
    } else {
        let prefix = asc_filter((n - 1) as nat, pred);
        if pred(n - 1) {
            prefix.push(n - 1)
        } else {
            prefix
        }
    }
}

/// Everything `asc_filter` promises: its entries are exactly the indices
/// in range that satisfy the predicate, listed strictly ascending.
pub proof fn lemma_asc_filter_props(n: nat, pred: spec_fn(int) -> bool)
    ensures
        forall|k: int|
            0 <= k < asc_filter(n, pred).len() ==> {
                &&& 0 <= #[trigger] asc_filter(n, pred)[k] < n
                &&& pred(asc_filter(n, pred)[k])
            },
        forall|k1: int, k2: int|
            0 <= k1 < k2 < asc_filter(n, pred).len() ==> asc_filter(n, pred)[k1] < asc_filter(
                n,
                pred,
            )[k2],
        forall|i: int|
            0 <= i < n && pred(i) ==> #[trigger] asc_filter(n, pred).contains(i),
    decreases n,
{
    if n > 0 {
        lemma_asc_filter_props((n - 1) as nat, pred);
        let prefix = asc_filter((n - 1) as nat, pred);
        let s = asc_filter(n, pred);
        assert forall|i: int| 0 <= i < n && pred(i) implies #[trigger] s.contains(i) by {
            if i == n - 1 {
                assert(s[s.len() - 1] == i);
            } else {
                assert(prefix.contains(i));
                let k = choose|k: int| 0 <= k < prefix.len() && prefix[k] == i;
                assert(s[k] == i);
            }
        }
    }
}

/// Entries grow strictly from left to right.
pub open spec fn strictly_ascending(s: Seq<int>) -> bool {
    forall|k1: int, k2: int| 0 <= k1 < k2 < s.len() ==> s[k1] < s[k2]
}

/// `asc_filter` sequences are strictly ascending.
pub proof fn lemma_asc_filter_ascending(n: nat, pred: spec_fn(int) -> bool)
    ensures
        strictly_ascending(asc_filter(n, pred)),
{
    lemma_asc_filter_props(n, pred);
}

/// Two strictly ascending sequences with the same members are the same
/// sequence.
pub proof fn lemma_asc_seqs_equal(s1: Seq<int>, s2: Seq<int>)
    requires
        strictly_ascending(s1),
        strictly_ascending(s2),
        forall|x: int| s1.contains(x) <==> s2.contains(x),
    ensures
        s1 == s2,
    decreases s1.len(),
{
    if s1.len() == 0 {
        if s2.len() > 0 {
            assert(s2.contains(s2[0]));
        }
        assert(s1 =~= s2);
    } else {
        assert(s1.contains(s1[0]));
        assert(s2.contains(s2[0]));
        let k1 = choose|k: int| 0 <= k < s2.len() && s2[k] == s1[0];
        let k2 = choose|k: int| 0 <= k < s1.len() && s1[k] == s2[0];
        assert(s2[0] <= s2[k1]);
        assert(s1[0] <= s1[k2]);
        assert(s1[0] == s2[0]);
        let t1 = s1.drop_first();
        let t2 = s2.drop_first();
        assert forall|x: int| t1.contains(x) <==> t2.contains(x) by {
            lemma_tail_membership(s1, x);
            lemma_tail_membership(s2, x);
        }
        lemma_asc_seqs_equal(t1, t2);
        assert(s1.len() == s2.len());
        assert forall|k: int| 0 <= k < s1.len() implies s1[k] == s2[k] by {
            if k > 0 {
                assert(t1[k - 1] == s1[k]);
                assert(t2[k - 1] == s2[k]);
            }
        }
        assert(s1 =~= s2);
    }
}

/// In a strictly ascending sequence, the tail holds exactly the members
/// greater than the head.
proof fn lemma_tail_membership(s: Seq<int>, x: int)
    requires
        strictly_ascending(s),
        s.len() > 0,
    ensures
        s.drop_first().contains(x) <==> (s.contains(x) && x > s[0]),
{
    let t = s.drop_first();
    if t.contains(x) {
        let k = choose|k: int| 0 <= k < t.len() && t[k] == x;
        assert(s[k + 1] == x);
        assert(s[0] < s[k + 1]);
    }
    if s.contains(x) && x > s[0] {
        let k = choose|k: int| 0 <= k < s.len() && s[k] == x;
        assert(k > 0);
        assert(t[k - 1] == x);
    }
}

} // verus!
