use vstd::prelude::*;

verus! {

/// The identity ordering of `n` city indices: `0, 1, ..., n-1`.
pub open spec fn ident(n: nat) -> Seq<usize> {
    Seq::new(n, |i: int| i as usize)
}

/// `s` visits each of the `n` city indices exactly once.
pub open spec fn is_perm(s: Seq<usize>, n: nat) -> bool {
    &&& s.len() == n
    &&& s.no_duplicates()
    &&& forall|i: int| 0 <= i < s.len() ==> (#[trigger] s[i]) < n
    &&& forall|k: int| 0 <= k < n ==> #[trigger] s.contains(k as usize)
}

/// The identity ordering is a permutation.
pub proof fn lemma_ident_is_perm(n: nat)
    requires
        n <= usize::MAX,
    ensures
        is_perm(ident(n), n),
{
    let s = ident(n);
    assert forall|k: int| 0 <= k < n implies #[trigger] s.contains(k as usize) by {
        assert(s[k] == k as usize);
    }
}

/// Swapping two entries of a permutation leaves a permutation.
pub proof fn lemma_swap_preserves_perm(s: Seq<usize>, n: nat, p1: int, p2: int)
    requires
        is_perm(s, n),
        0 <= p1 < s.len(),
        0 <= p2 < s.len(),
    ensures
        is_perm(s.update(p1, s[p2]).update(p2, s[p1]), n),
{
    let s2 = s.update(p1, s[p2]).update(p2, s[p1]);
    assert forall|i: int| 0 <= i < s2.len() implies (#[trigger] s2[i]) < n by {
        if i != p1 && i != p2 {
            assert(s2[i] == s[i]);
        }
    }
    assert forall|k: int| 0 <= k < n implies #[trigger] s2.contains(k as usize) by {
        assert(s.contains(k as usize));
        let i = choose|i: int| 0 <= i < s.len() && s[i] == k as usize;
        if i == p1 {
            assert(s2[p2] == k as usize);
        } else if i == p2 {
            assert(s2[p1] == k as usize);
        } else {
            assert(s2[i] == k as usize);
        }
    }
    assert forall|i: int, j: int|
        0 <= i < s2.len() && 0 <= j < s2.len() && i != j implies s2[i] != s2[j] by {
        let a = if i == p1 { p2 } else if i == p2 { p1 } else { i };
        let b = if j == p1 { p2 } else if j == p2 { p1 } else { j };
        assert(s2[i] == s[a]);
        assert(s2[j] == s[b]);
        assert(a != b);
    }
}

/// The set of all city indices below `n`.
pub open spec fn range_set(n: nat) -> Set<usize> {
    Set::new(|x: usize| (x as nat) < n)
}

/// That set is finite and holds exactly `n` indices.
pub proof fn lemma_range_set_len(n: nat)
    requires
        n <= usize::MAX,
    ensures
        range_set(n).finite(),
        range_set(n).len() == n,
    decreases n,
{
    broadcast use vstd::set::group_set_axioms;

    if n == 0 {
        assert(range_set(0) =~= Set::empty());
    } else {
        lemma_range_set_len((n - 1) as nat);
        assert(!range_set((n - 1) as nat).contains((n - 1) as usize));
        assert(range_set(n) =~= range_set((n - 1) as nat).insert((n - 1) as usize));
    }
}

/// A duplicate-free sequence that stays below `n` and reaches every index
/// below `n` has length exactly `n`.
pub proof fn lemma_perm_len(s: Seq<usize>, n: nat)
    requires
        n <= usize::MAX,
        s.no_duplicates(),
        forall|i: int| 0 <= i < s.len() ==> (#[trigger] s[i]) < n,
        forall|k: int| 0 <= k < n ==> #[trigger] s.contains(k as usize),
    ensures
        s.len() == n,
        is_perm(s, n),
{
    broadcast use vstd::set::group_set_axioms;

    assert(s.to_set() =~= range_set(n)) by {
        assert forall|x: usize| s.to_set().contains(x) implies range_set(n).contains(x) by {
            let i = choose|i: int| 0 <= i < s.len() && s[i] == x;
            assert(s[i] < n);
        }
        assert forall|x: usize| range_set(n).contains(x) implies s.to_set().contains(x) by {
            assert(s.contains(x as int as usize));
            assert(x as int as usize == x);
        }
    }
    s.unique_seq_to_set();
    lemma_range_set_len(n);
}

/// Rearranging a permutation (keeping the same multiset of entries)
/// leaves a permutation.
pub proof fn lemma_multiset_equal_perm(s1: Seq<usize>, s2: Seq<usize>, n: nat)
    requires
        is_perm(s1, n),
        s1.to_multiset() == s2.to_multiset(),
    ensures
        is_perm(s2, n),
{
    broadcast use vstd::seq_lib::group_to_multiset_ensures;

    assert(s1.len() == s1.to_multiset().len());
    assert(s2.len() == s2.to_multiset().len());
    assert(s2.len() == n);
    assert forall|i: int| 0 <= i < s2.len() implies (#[trigger] s2[i]) < n by {
        assert(s2.contains(s2[i]));
        assert(s2.to_multiset().count(s2[i]) > 0);
        assert(s1.contains(s2[i]));
        let j = choose|j: int| 0 <= j < s1.len() && s1[j] == s2[i];
        assert(s1[j] < n);
    }
    assert forall|k: int| 0 <= k < n implies #[trigger] s2.contains(k as usize) by {
        assert(s1.contains(k as usize));
        assert(s1.to_multiset().count(k as usize) > 0);
    }
    s1.lemma_multiset_has_no_duplicates();
    assert forall|x: usize| s2.to_multiset().contains(x) implies s2.to_multiset().count(x)
        == 1 by {
        assert(s1.to_multiset().count(x) == s2.to_multiset().count(x));
    }
    s2.lemma_multiset_has_no_duplicates_conv();
}

} // verus!
