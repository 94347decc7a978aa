//! Finite sets of state indices: bounds and conversions.
use vstd::prelude::*;
use std::collections::HashSet;

verus! {

broadcast use vstd::std_specs::hash::group_hash_axioms;


/// The state indices below `n`.
pub open spec fn below(n: nat) -> Set<usize> {
    Set::new(|i: usize| i < n)
}

/// There are exactly `n` indices below `n`.
pub proof fn lemma_below(n: nat)
    requires
        n <= usize::MAX + 1,
    ensures
        below(n).finite(),
        below(n).len() == n,
    decreases n,
{
    if n == 0 {
        assert(below(n) =~= Set::empty());
    } else {
        lemma_below((n - 1) as nat);
        assert(below((n - 1) as nat).insert((n - 1) as usize) =~= below(n));
    }
}

/// A set of indices below `n` has at most `n` members.
pub proof fn lemma_subset_below(s: Set<usize>, n: nat)
    requires
        n <= usize::MAX + 1,
        s.subset_of(below(n)),
    ensures
        s.finite(),
        s.len() <= n,
{
    lemma_below(n);
    vstd::set_lib::lemma_len_subset(s, below(n));
}

/// `2^n`.
pub open spec fn two_pow(n: nat) -> nat
    decreases n,
{
    if n == 0 {
        1
    } else {
        2 * two_pow((n - 1) as nat)
    }
}

/// All sets of indices below `n`.
pub open spec fn subsets_below(n: nat) -> Set<Set<usize>> {
    Set::new(|s: Set<usize>| s.subset_of(below(n)))
}

/// There are at most `2^n` sets of indices below `n`.
pub proof fn lemma_subsets_below(n: nat)
    requires
        n <= usize::MAX + 1,
    ensures
        subsets_below(n).finite(),
        subsets_below(n).len() <= two_pow(n),
    decreases n,
{
    if n == 0 {
        assert forall|s: Set<usize>| subsets_below(0).contains(s) <==> s == Set::<usize>::empty() by {
            if subsets_below(0).contains(s) {
                assert(s =~= Set::<usize>::empty());
            }
        }
        assert(subsets_below(0) =~= Set::<Set<usize>>::empty().insert(Set::<usize>::empty()));
    } else {
        let m = (n - 1) as nat;
        let x = m as usize;
        lemma_subsets_below(m);
        let a = subsets_below(m);
        let f = |s: Set<usize>| s.insert(x);
        let b = a.map(f);
        a.lemma_map_finite(f);
        vstd::set_lib::lemma_map_size_bound(a, b, f);
        assert forall|s: Set<usize>| subsets_below(n).contains(s) <==> a.union(b).contains(s) by {
            if subsets_below(n).contains(s) {
                if s.contains(x) {
                    let t = s.remove(x);
                    assert(a.contains(t));
                    assert(f(t) =~= s);
                    assert(b.contains(s));
                } else {
                    assert(a.contains(s));
                }
            }
            if b.contains(s) {
                let t = choose|t: Set<usize>| a.contains(t) && f(t) == s;
                assert(s.subset_of(below(n)));
            }
        }
        assert(subsets_below(n) =~= a.union(b));
        vstd::set_lib::lemma_len_union(a, b);
    }
}

/// A list of distinct sets of indices below `n` has at most `2^n` entries.
pub proof fn lemma_distinct_subsets_bound(sets: Seq<Set<usize>>, n: nat)
    requires
        n <= usize::MAX + 1,
        sets.no_duplicates(),
        forall|k: int| 0 <= k < sets.len() ==> (#[trigger] sets[k]).subset_of(below(n)),
    ensures
        sets.len() <= two_pow(n),
{
    lemma_subsets_below(n);
    assert(sets.to_set().subset_of(subsets_below(n)));
    vstd::set_lib::lemma_len_subset(sets.to_set(), subsets_below(n));
    sets.unique_seq_to_set();
}

/// Lists the members of a set of state indices.
pub fn set_to_vec(s: &HashSet<usize>) -> (v: Vec<usize>)
    ensures
        v@.to_set() == s@,
        v@.no_duplicates(),
{
    let mut v: Vec<usize> = Vec::new();
    for x in it: s.iter()
        invariant
            v.len() == it.index(),
            it.seq().unref().to_set() == s@,
            it.seq().unref().no_duplicates(),
            forall|k: int| 0 <= k < it.index() ==> v@[k] == *it.seq()[k],
            it.index() == it.seq().len() ==> v@ =~= it.seq().unref(),
    {
        v.push(*x);
    }
    v
}

/// Adds every member of `src` to `dst`.
pub fn insert_all(dst: &mut HashSet<usize>, src: &HashSet<usize>)
    ensures
        final(dst)@ == old(dst)@.union(src@),
{
    let v = set_to_vec(src);
    let ghost d0 = dst@;
    for i in 0..v.len()
        invariant
            dst@ == d0.union(v@.take(i as int).to_set()),
    {
        dst.insert(v[i]);
        proof {
            assert(v@.take(i + 1) =~= v@.take(i as int).push(v@[i as int]));
            v@.take(i as int).lemma_push_to_set_commute(v@[i as int]);
            assert(dst@ =~= d0.union(v@.take(i + 1).to_set()));
        }
    }
    assert(v@.take(v.len() as int) =~= v@);
}

/// Collects a list of state indices into a set.
pub fn vec_to_set(v: &Vec<usize>) -> (s: HashSet<usize>)
    ensures
        s@ == v@.to_set(),
{
    let mut s: HashSet<usize> = HashSet::new();
    for i in 0..v.len()
        invariant
            s@ == v@.take(i as int).to_set(),
    {
        s.insert(v[i]);
        proof {
            assert(v@.take(i + 1) =~= v@.take(i as int).push(v@[i as int]));
            v@.take(i as int).lemma_push_to_set_commute(v@[i as int]);
        }
    }
    assert(v@.take(v.len() as int) =~= v@);
    s
}

/// A copy of a set of bytes.
pub fn copy_bytes(s: &HashSet<u8>) -> (r: HashSet<u8>)
    ensures
        r@ == s@,
{
    let v = sorted_bytes(s);
    let mut r: HashSet<u8> = HashSet::new();
    for i in 0..v.len()
        invariant
            r@ == v@.take(i as int).to_set(),
    {
        r.insert(v[i]);
        proof {
            assert(v@.take(i + 1) =~= v@.take(i as int).push(v@[i as int]));
            v@.take(i as int).lemma_push_to_set_commute(v@[i as int]);
        }
    }
    assert(v@.take(v.len() as int) =~= v@);
    r
}

/// Lists the members of a set of bytes in increasing order.
pub fn sorted_bytes(s: &HashSet<u8>) -> (v: Vec<u8>)
    ensures
        v@.to_set() == s@,
        forall|i: int, j: int| 0 <= i < j < v@.len() ==> v@[i] < v@[j],
{
    let mut v: Vec<u8> = Vec::new();
    let mut b: u16 = 0;
    while b < 256
        invariant
            b <= 256,
            forall|x: u8| #[trigger] v@.contains(x) <==> (x < b && s@.contains(x)),
            forall|i: int, j: int| 0 <= i < j < v@.len() ==> v@[i] < v@[j],
            forall|i: int| 0 <= i < v@.len() ==> v@[i] < b,
        decreases 256 - b,
    {
        let byte = b as u8;
        let ghost old_v = v@;
        if s.contains(&byte) {
            v.push(byte);
            proof {
                assert forall|x: u8| #[trigger] v@.contains(x) <==> (old_v.contains(x) || x == byte) by {
                    if v@.contains(x) {
                        let k = choose|k: int| 0 <= k < v@.len() && v@[k] == x;
                        if k < old_v.len() {
                            assert(old_v[k] == x);
                        }
                    }
                    if old_v.contains(x) {
                        let k = choose|k: int| 0 <= k < old_v.len() && old_v[k] == x;
                        assert(v@[k] == x);
                    }
                    if x == byte {
                        assert(v@[old_v.len() as int] == x);
                    }
                }
            }
        }
        b = b + 1;
    }
    assert(v@.to_set() =~= s@);
    v
}

} // verus!
