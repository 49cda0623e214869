use vstd::prelude::*;

verus! {

broadcast use {vstd::seq_lib::group_to_multiset_ensures, vstd::multiset::group_multiset_axioms};

/// The number of distinct values of a `usize`, as the radix of a packed pair.
pub open spec fn radix() -> int {
    0x1_0000_0000_0000_0000
}

/// The pair `(hi, lo)` packed into one integer whose order is the lexicographic order of pairs.
pub open spec fn pack(hi: int, lo: int) -> int {
    hi * radix() + lo
}

/// `s` is in ascending order.
pub open spec fn keys_ascending(s: Seq<u128>) -> bool {
    forall|i: int, j: int| 0 <= i <= j < s.len() ==> s[i] <= s[j]
}

/// `s` is in ascending order.
pub open spec fn is_sorted(s: Seq<usize>) -> bool {
    forall|i: int, j: int| 0 <= i <= j < s.len() ==> s[i] <= s[j]
}

/// The values of `s` in ascending order, each as often as it occurs in `s`.
pub open spec fn sorted_copy(s: Seq<usize>) -> Seq<usize> {
    choose|t: Seq<usize>| is_sorted(t) && t.to_multiset() == s.to_multiset()
}

/// Sorts the keys with `slice::sort_unstable`.
/// Trusted: std documents that the call leaves the slice in ascending order and
/// only moves its elements around, so the keys as a multiset stay the same.
#[verifier::external_body]
pub(crate) fn sort_keys(v: &mut Vec<u128>)
    ensures
        keys_ascending(final(v)@),
        final(v)@.to_multiset() == old(v)@.to_multiset(),
{
    v.sort_unstable();
}

/// Packing is undone by division and remainder by the radix.
pub proof fn lemma_unpack(hi: int, lo: int)
    requires
        0 <= lo < radix(),
    ensures
        pack(hi, lo) / radix() == hi,
        pack(hi, lo) % radix() == lo,
{
    vstd::arithmetic::div_mod::lemma_fundamental_div_mod_converse(pack(hi, lo), radix(), hi, lo);
}

/// Packing orders pairs lexicographically.
pub proof fn lemma_pack_order(hi1: int, lo1: int, hi2: int, lo2: int)
    requires
        0 <= lo1 < radix(),
        0 <= lo2 < radix(),
    ensures
        pack(hi1, lo1) < pack(hi2, lo2) <==> (hi1 < hi2 || (hi1 == hi2 && lo1 < lo2)),
        pack(hi1, lo1) == pack(hi2, lo2) <==> (hi1 == hi2 && lo1 == lo2),
{
    if hi1 < hi2 {
        assert(hi1 * radix() + radix() <= hi2 * radix()) by (nonlinear_arith)
            requires
                hi1 < hi2,
                radix() > 0,
        ;
    } else if hi1 > hi2 {
        assert(hi2 * radix() + radix() <= hi1 * radix()) by (nonlinear_arith)
            requires
                hi2 < hi1,
                radix() > 0,
        ;
    }
}

/// The pair `(hi, lo)` packed into one key.
pub(crate) fn pack_key(hi: usize, lo: usize) -> (key: u128)
    ensures
        key == pack(hi as int, lo as int),
{
    assert(hi as int * radix() <= (usize::MAX as int) * radix()) by (nonlinear_arith)
        requires
            hi <= usize::MAX,
            radix() > 0,
    ;
    (hi as u128) * 0x1_0000_0000_0000_0000u128 + (lo as u128)
}

/// The high and low halves of a key packed from two `usize` values.
pub(crate) fn unpack_key(key: u128) -> (pair: (usize, usize))
    requires
        exists|hi: usize, lo: usize| key == pack(hi as int, lo as int),
    ensures
        key == pack(pair.0 as int, pair.1 as int),
{
    let ghost hi = choose|hi: usize, lo: usize| key == pack(hi as int, lo as int);
    proof {
        let (h, l) = hi;
        lemma_unpack(h as int, l as int);
    }
    let h = key / 0x1_0000_0000_0000_0000u128;
    let l = key % 0x1_0000_0000_0000_0000u128;
    (h as usize, l as usize)
}

/// Every sequence has an ascending copy.
pub proof fn lemma_sorted_copy(s: Seq<usize>)
    ensures
        is_sorted(sorted_copy(s)),
        sorted_copy(s).to_multiset() == s.to_multiset(),
{
    let leq = |a: usize, b: usize| a <= b;
    assert(vstd::relations::total_ordering(leq));
    s.lemma_sort_by_ensures(leq);
    let t = s.sort_by(leq);
    assert forall|i: int, j: int| 0 <= i <= j < t.len() implies t[i] <= t[j] by {
        if i < j {
            assert(leq(t[i], t[j]));
        }
    }
    assert(is_sorted(t) && t.to_multiset() == s.to_multiset());
}

/// Two ascending sequences with the same elements, counted with multiplicity, are equal.
pub proof fn lemma_sorted_unique(a: Seq<usize>, b: Seq<usize>)
    requires
        is_sorted(a),
        is_sorted(b),
        a.to_multiset() == b.to_multiset(),
    ensures
        a == b,
    decreases a.len(),
{
    vstd::seq_lib::to_multiset_len(a);
    vstd::seq_lib::to_multiset_len(b);
    assert(a.len() == b.len());
    if a.len() > 0 {
        let x = a.last();
        let y = b.last();
        assert(a.contains(x));
        assert(b.to_multiset().count(x) > 0);
        assert(b.contains(x));
        assert(a.to_multiset().count(y) > 0);
        assert(a.contains(y));
        assert(x == y);
        let a1 = a.drop_last();
        let b1 = b.drop_last();
        assert(a1.push(x) == a);
        assert(b1.push(y) == b);
        assert(a1.to_multiset() =~= a.to_multiset().remove(x));
        assert(b1.to_multiset() =~= b.to_multiset().remove(y));
        lemma_sorted_unique(a1, b1);
    }
}

/// The values of `s` as 128-bit keys.
pub open spec fn widen(s: Seq<usize>) -> Seq<u128> {
    s.map_values(|x: usize| x as u128)
}

/// Widening keeps how often each value occurs, and adds no value beyond `usize::MAX`.
proof fn lemma_widen_counts(s: Seq<usize>)
    ensures
        forall|y: u128|
            #[trigger] widen(s).to_multiset().count(y) == if y <= usize::MAX {
                s.to_multiset().count(y as usize)
            } else {
                0
            },
    decreases s.len(),
{
    if s.len() == 0 {
        assert(widen(s) =~= Seq::<u128>::empty());
    } else {
        let s1 = s.drop_last();
        let v = s.last();
        lemma_widen_counts(s1);
        assert(s1.push(v) == s);
        assert(widen(s1).push(v as u128) =~= widen(s));
        assert forall|y: u128|
            #[trigger] widen(s).to_multiset().count(y) == if y <= usize::MAX {
                s.to_multiset().count(y as usize)
            } else {
                0
            } by {
            assert(widen(s).to_multiset() == widen(s1).to_multiset().insert(v as u128));
            assert(s.to_multiset() == s1.to_multiset().insert(v));
            if y <= usize::MAX {
                assert((y == v as u128) == ((y as usize) == v));
            }
        }
    }
}

/// The indices in ascending order, each as often as it occurs in `indices`.
pub fn sort_indices(indices: &Vec<usize>) -> (sorted: Vec<usize>)
    ensures
        sorted@ == sorted_copy(indices@),
        is_sorted(sorted@),
        sorted@.to_multiset() == indices@.to_multiset(),
{
    let mut keys: Vec<u128> = Vec::new();
    let n = indices.len();
    for i in 0..n
        invariant
            n == indices.len(),
            keys@ == widen(indices@.subrange(0, i as int)),
    {
        keys.push(indices[i] as u128);
        assert(widen(indices@.subrange(0, i + 1)) =~= widen(indices@.subrange(0, i as int)).push(
            indices@[i as int] as u128,
        ));
    }
    assert(indices@.subrange(0, n as int) == indices@);
    let ghost unsorted = keys@;
    sort_keys(&mut keys);
    proof {
        lemma_widen_counts(indices@);
        assert forall|i: int| 0 <= i < keys@.len() implies keys@[i] <= usize::MAX by {
            assert(keys@.contains(keys@[i]));
            assert(keys@.to_multiset().count(keys@[i]) > 0);
        }
    }
    let mut sorted: Vec<usize> = Vec::new();
    let m = keys.len();
    for i in 0..m
        invariant
            m == keys.len(),
            forall|j: int| 0 <= j < keys@.len() ==> keys@[j] <= usize::MAX,
            sorted@.len() == i,
            forall|j: int| 0 <= j < i ==> sorted@[j] as u128 == keys@[j],
    {
        sorted.push(keys[i] as usize);
    }
    proof {
        assert(widen(sorted@) =~= keys@);
        lemma_widen_counts(sorted@);
        assert forall|x: usize| sorted@.to_multiset().count(x) == indices@.to_multiset().count(x) by {
            assert(widen(sorted@).to_multiset().count(x as u128) == sorted@.to_multiset().count(x));
            assert(widen(indices@).to_multiset().count(x as u128) == indices@.to_multiset().count(x));
        }
        assert(sorted@.to_multiset() =~= indices@.to_multiset());
        assert forall|a: int, b: int| 0 <= a <= b < sorted@.len() implies sorted@[a] <= sorted@[b] by {
            assert(keys@[a] <= keys@[b]);
        }
        let t = sorted_copy(indices@);
        assert(is_sorted(sorted@) && sorted@.to_multiset() == indices@.to_multiset());
        lemma_sorted_unique(t, sorted@);
    }
    sorted
}

} // verus!
