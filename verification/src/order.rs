use vstd::prelude::*;
use itertools::Itertools;

verus! {

/// Where index `i` lands when inserted into an index list `s` already
/// sorted by `keys`: after every entry whose key is less than or equal
/// to `keys[i]`, so that equal keys keep their index order.
pub open spec fn idx_insert(s: Seq<usize>, keys: Seq<usize>, i: usize) -> Seq<usize>
    decreases s.len(),
{
    if s.len() == 0 {
        seq![i]
    } else if keys[s.last() as int] <= keys[i as int] {
        s.push(i)
    } else {
        idx_insert(s.drop_last(), keys, i).push(s.last())
    }
}

/// The stable sort of the indices `0..n` by `keys`, as an insertion sort.
pub open spec fn sorted_idx_rec(keys: Seq<usize>, n: int) -> Seq<usize>
    decreases n,
{
    if n <= 0 {
        Seq::empty()
    } else {
        idx_insert(sorted_idx_rec(keys, n - 1), keys, (n - 1) as usize)
    }
}

/// The permutation of `0..keys.len()` that sorts `keys` stably: keys are
/// non-decreasing along it, and indices with equal keys stay in their
/// original order.
pub open spec fn sorted_idx(keys: Seq<usize>) -> Seq<usize> {
    sorted_idx_rec(keys, keys.len() as int)
}

/// Relies on itertools' `Itertools::sorted_by`, a stable sort (it
/// collects the iterator into a `Vec` and uses the standard library's
/// stable `sort_by`): the result is the unique permutation of
/// `0..keys.len()` with non-decreasing keys that keeps indices with
/// equal keys in their original order, which is what the insertion sort
/// `sorted_idx` computes.
#[verifier::external_body]
pub(crate) fn sorted_by_keys(keys: &Vec<usize>) -> (r: Vec<usize>)
    ensures
        r@ == sorted_idx(keys@),
{
    (0..keys.len()).sorted_by(|a, b| keys[*a].cmp(&keys[*b])).collect()
}

pub proof fn lemma_idx_insert_props(s: Seq<usize>, keys: Seq<usize>, i: usize)
    requires
        forall|k: int| 0 <= k < s.len() ==> (#[trigger] s[k]) < i,
        forall|a: int, b: int| #![trigger s[a], s[b]] 0 <= a < b < s.len() ==> keys[s[a] as int]
            <= keys[s[b] as int],
        forall|a: int, b: int| #![trigger s[a], s[b]] 0 <= a < b < s.len() && keys[s[a] as int]
            == keys[s[b] as int] ==> s[a] < s[b],
        forall|a: int, b: int| #![trigger s[a], s[b]] 0 <= a < b < s.len() ==> s[a] != s[b],
        (i as int) < keys.len(),
    ensures
        idx_insert(s, keys, i).len() == s.len() + 1,
        forall|k: int| 0 <= k < idx_insert(s, keys, i).len() ==> (#[trigger] idx_insert(
            s,
            keys,
            i,
        )[k]) == i || s.contains(idx_insert(s, keys, i)[k]),
        forall|a: int, b: int|
            #![trigger idx_insert(s, keys, i)[a], idx_insert(s, keys, i)[b]]
            0 <= a < b < idx_insert(s, keys, i).len() ==> keys[idx_insert(s, keys, i)[a] as int]
            <= keys[idx_insert(s, keys, i)[b] as int],
        forall|a: int, b: int|
            #![trigger idx_insert(s, keys, i)[a], idx_insert(s, keys, i)[b]]
            0 <= a < b < idx_insert(s, keys, i).len() && keys[idx_insert(s, keys, i)[a] as int]
            == keys[idx_insert(s, keys, i)[b] as int] ==> idx_insert(s, keys, i)[a] < idx_insert(
            s,
            keys,
            i,
        )[b],
        forall|a: int, b: int|
            #![trigger idx_insert(s, keys, i)[a], idx_insert(s, keys, i)[b]]
            0 <= a < b < idx_insert(s, keys, i).len() ==> idx_insert(s, keys, i)[a] != idx_insert(
            s,
            keys,
            i,
        )[b],
    decreases s.len(),
{
    let r = idx_insert(s, keys, i);
    if s.len() == 0 {
        assert(r == seq![i]);
    } else if keys[s.last() as int] <= keys[i as int] {
        assert(r == s.push(i));
        assert forall|k: int| 0 <= k < r.len() implies (#[trigger] r[k]) == i || s.contains(
            r[k],
        ) by {
            if k < s.len() {
                assert(s[k] == r[k]);
            }
        }
    } else {
        let sp = s.drop_last();
        lemma_idx_insert_props(sp, keys, i);
        let rp = idx_insert(sp, keys, i);
        assert(r == rp.push(s.last()));
        assert forall|k: int| 0 <= k < r.len() implies (#[trigger] r[k]) == i || s.contains(
            r[k],
        ) by {
            if k < rp.len() {
                assert(r[k] == rp[k]);
                if rp[k] != i {
                    assert(sp.contains(rp[k]));
                    let w = choose|w: int| 0 <= w < sp.len() && sp[w] == rp[k];
                    assert(s[w] == rp[k]);
                }
            } else {
                assert(r[k] == s.last());
                assert(s[s.len() - 1] == s.last());
            }
        }
        // every element of rp has a key at most keys[s.last()], and when
        // the keys are equal the element is a smaller index than s.last()
        assert forall|k: int| 0 <= k < rp.len() implies keys[(#[trigger] rp[k]) as int] <= keys[
            s.last() as int
        ] && (keys[rp[k] as int] == keys[s.last() as int] ==> rp[k] < s.last()) && rp[k]
            != s.last() by {
            if rp[k] == i {
                assert(keys[i as int] < keys[s.last() as int]);
                assert(s[s.len() - 1] == s.last());
                assert(s.last() < i);
            } else {
                assert(sp.contains(rp[k]));
                let w = choose|w: int| 0 <= w < sp.len() && sp[w] == rp[k];
                assert(s[w] == rp[k]);
                assert(s[s.len() - 1] == s.last());
            }
        }
    }
}

pub proof fn lemma_sorted_idx_props(keys: Seq<usize>, n: int)
    requires
        0 <= n <= keys.len(),
        n <= usize::MAX,
    ensures
        sorted_idx_rec(keys, n).len() == n,
        forall|k: int| 0 <= k < n ==> (#[trigger] sorted_idx_rec(keys, n)[k]) < n,
        forall|a: int, b: int|
            #![trigger sorted_idx_rec(keys, n)[a], sorted_idx_rec(keys, n)[b]]
            0 <= a < b < n ==> keys[sorted_idx_rec(keys, n)[a] as int] <= keys[sorted_idx_rec(
                keys,
                n,
            )[b] as int],
        forall|a: int, b: int|
            #![trigger sorted_idx_rec(keys, n)[a], sorted_idx_rec(keys, n)[b]]
            0 <= a < b < n && keys[sorted_idx_rec(keys, n)[a] as int] == keys[sorted_idx_rec(
                keys,
                n,
            )[b] as int] ==> sorted_idx_rec(keys, n)[a] < sorted_idx_rec(keys, n)[b],
        forall|a: int, b: int|
            #![trigger sorted_idx_rec(keys, n)[a], sorted_idx_rec(keys, n)[b]]
            0 <= a < b < n ==> sorted_idx_rec(keys, n)[a] != sorted_idx_rec(keys, n)[b],
    decreases n,
{
    if n > 0 {
        lemma_sorted_idx_props(keys, n - 1);
        let s = sorted_idx_rec(keys, n - 1);
        lemma_idx_insert_props(s, keys, (n - 1) as usize);
        let r = sorted_idx_rec(keys, n);
        assert forall|k: int| 0 <= k < n implies (#[trigger] r[k]) < n by {
            if r[k] != ((n - 1) as usize) {
                assert(s.contains(r[k]));
                let w = choose|w: int| 0 <= w < s.len() && s[w] == r[k];
            }
        }
    }
}

pub proof fn lemma_sorted_idx_identity(keys: Seq<usize>, n: int)
    requires
        0 <= n <= keys.len(),
        n <= usize::MAX,
        forall|a: int, b: int| 0 <= a < b < keys.len() ==> keys[a] < keys[b],
    ensures
        sorted_idx_rec(keys, n) == Seq::new(n as nat, |i: int| i as usize),
    decreases n,
{
    if n > 0 {
        lemma_sorted_idx_identity(keys, n - 1);
        let s = sorted_idx_rec(keys, n - 1);
        let r = sorted_idx_rec(keys, n);
        if n == 1 {
            assert(s.len() == 0);
            assert(r == seq![0usize]);
            assert(r =~= Seq::new(1nat, |i: int| i as usize));
        } else {
            assert(s.last() == (n - 2) as usize);
            assert(keys[n - 2] <= keys[n - 1]);
            assert(r == s.push((n - 1) as usize));
            assert(r =~= Seq::new(n as nat, |i: int| i as usize));
        }
    }
}

} // verus!
