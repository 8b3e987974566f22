use vstd::prelude::*;
use crate::lod::Lod;

verus! {

/// The index sequence of a `Vec<usize>` as mathematical integers.
pub open spec fn idxs(s: Seq<usize>) -> Seq<int> {
    Seq::new(s.len(), |i: int| s[i] as int)
}

/// Stable insertion of configuration index `k` into the already-sorted index
/// sequence `ord`: `k` lands after every entry whose size is `<=` its own.
pub open spec fn stable_insert(ord: Seq<int>, lods: Seq<Lod>, k: int) -> Seq<int>
    decreases ord.len(),
{
    if ord.len() == 0 {
        seq![k]
    } else if lods[ord.last()].size <= lods[k].size {
        ord.push(k)
    } else {
        stable_insert(ord.drop_last(), lods, k).push(ord.last())
    }
}

pub open spec fn stable_order_prefix(lods: Seq<Lod>, m: int) -> Seq<int>
    decreases m,
{
    if m <= 0 {
        Seq::empty()
    } else {
        stable_insert(stable_order_prefix(lods, m - 1), lods, m - 1)
    }
}

/// The processing order of a configuration: its indices sorted by ascending
/// size, entries of equal size keeping their configuration order.
pub open spec fn stable_order(lods: Seq<Lod>) -> Seq<int> {
    stable_order_prefix(lods, lods.len() as int)
}

/// Every entry of `ord` is an index below `n`.
pub open spec fn ord_bounded(ord: Seq<int>, n: int) -> bool {
    forall|p: int| 0 <= p < ord.len() ==> 0 <= #[trigger] ord[p] < n
}

/// Sizes are non-decreasing along `ord`.
pub open spec fn ord_sorted(ord: Seq<int>, lods: Seq<Lod>) -> bool {
    forall|p: int, q: int|
        0 <= p < q < ord.len() ==> lods[#[trigger] ord[p]].size <= lods[#[trigger] ord[q]].size
}

/// Entries of equal size stand in `ord` in their configuration order.
pub open spec fn ord_stable(ord: Seq<int>, lods: Seq<Lod>) -> bool {
    forall|p: int, q: int|
        0 <= p < q < ord.len() && lods[#[trigger] ord[p]].size == lods[#[trigger] ord[q]].size
            ==> ord[p] < ord[q]
}

proof fn lemma_stable_insert_len(ord: Seq<int>, lods: Seq<Lod>, k: int)
    ensures
        stable_insert(ord, lods, k).len() == ord.len() + 1,
    decreases ord.len(),
{
    if ord.len() > 0 && !(lods[ord.last()].size <= lods[k].size) {
        lemma_stable_insert_len(ord.drop_last(), lods, k);
    }
}

proof fn lemma_stable_insert_contains(ord: Seq<int>, lods: Seq<Lod>, k: int, x: int)
    ensures
        stable_insert(ord, lods, k).contains(x) <==> (ord.contains(x) || x == k),
    decreases ord.len(),
{
    if ord.len() == 0 {
        assert(stable_insert(ord, lods, k) =~= seq![k]);
        assert(seq![k].contains(x) <==> x == k) by {
            if x == k {
                assert(seq![k][0] == x);
            }
        }
    } else if lods[ord.last()].size <= lods[k].size {
        assert(ord.push(k).contains(x) <==> (ord.contains(x) || x == k)) by {
            vstd::seq_lib::lemma_seq_contains_after_push(ord, k, x);
        }
    } else {
        lemma_stable_insert_contains(ord.drop_last(), lods, k, x);
        let rec = stable_insert(ord.drop_last(), lods, k);
        assert(rec.push(ord.last()).contains(x) <==> (rec.contains(x) || x == ord.last())) by {
            vstd::seq_lib::lemma_seq_contains_after_push(rec, ord.last(), x);
        }
        assert(ord.contains(x) <==> (ord.drop_last().contains(x) || x == ord.last())) by {
            assert(ord =~= ord.drop_last().push(ord.last()));
            vstd::seq_lib::lemma_seq_contains_after_push(ord.drop_last(), ord.last(), x);
        }
    }
}

/// Inserting `k` where position `p` is the first from the right whose
/// predecessor is not larger lands `k` exactly at position `p`.
proof fn lemma_stable_insert_at(ord: Seq<int>, lods: Seq<Lod>, k: int, p: int)
    requires
        0 <= p <= ord.len(),
        forall|t: int| p <= t < ord.len() ==> lods[#[trigger] ord[t]].size > lods[k].size,
        p > 0 ==> lods[ord[p - 1]].size <= lods[k].size,
    ensures
        stable_insert(ord, lods, k) == ord.take(p) + seq![k] + ord.skip(p),
    decreases ord.len(),
{
    if p == ord.len() {
        if ord.len() == 0 {
            assert(stable_insert(ord, lods, k) =~= ord.take(p) + seq![k] + ord.skip(p));
        } else {
            assert(lods[ord.last()].size <= lods[k].size);
            assert(ord.push(k) =~= ord.take(p) + seq![k] + ord.skip(p));
        }
    } else {
        assert(lods[ord.last()].size > lods[k].size);
        let dl = ord.drop_last();
        assert(forall|t: int| p <= t < dl.len() ==> lods[#[trigger] dl[t]].size > lods[k].size);
        lemma_stable_insert_at(dl, lods, k, p);
        assert(dl.take(p) =~= ord.take(p));
        assert((dl.take(p) + seq![k] + dl.skip(p)).push(ord.last()) =~= ord.take(p) + seq![k]
            + ord.skip(p));
    }
}

proof fn lemma_stable_insert_props(ord: Seq<int>, lods: Seq<Lod>, k: int)
    requires
        0 <= k < lods.len(),
        ord_bounded(ord, k),
        ord_sorted(ord, lods),
        ord_stable(ord, lods),
        !ord.contains(k),
    ensures
        ord_bounded(stable_insert(ord, lods, k), k + 1),
        ord_sorted(stable_insert(ord, lods, k), lods),
        ord_stable(stable_insert(ord, lods, k), lods),
    decreases ord.len(),
{
    let res = stable_insert(ord, lods, k);
    lemma_stable_insert_len(ord, lods, k);
    if ord.len() == 0 {
        assert(res =~= seq![k]);
    } else if lods[ord.last()].size <= lods[k].size {
        assert forall|p: int, q: int| 0 <= p < q < res.len() implies lods[#[trigger] res[p]].size
            <= lods[#[trigger] res[q]].size by {
            if q == res.len() - 1 {
                assert(res[q] == k);
                if p < ord.len() - 1 {
                    assert(lods[ord[p]].size <= lods[ord.last()].size);
                }
            }
        }
        assert forall|p: int, q: int|
            0 <= p < q < res.len() && lods[#[trigger] res[p]].size
                == lods[#[trigger] res[q]].size implies res[p] < res[q] by {
            if q == res.len() - 1 {
                assert(res[p] == ord[p] && res[q] == k);
            }
        }
    } else {
        let dl = ord.drop_last();
        let lst = ord.last();
        assert(!dl.contains(k)) by {
            assert(ord =~= dl.push(lst));
            vstd::seq_lib::lemma_seq_contains_after_push(dl, lst, k);
        }
        lemma_stable_insert_props(dl, lods, k);
        let rec = stable_insert(dl, lods, k);
        lemma_stable_insert_len(dl, lods, k);
        // Everything in `rec` is either from `dl` or is `k`.
        assert forall|x: int| rec.contains(x) implies (dl.contains(x) || x == k) by {
            lemma_stable_insert_contains(dl, lods, k, x);
        }
        assert forall|t: int| 0 <= t < rec.len() implies lods[#[trigger] rec[t]].size
            <= lods[k].size || dl.contains(rec[t]) by {
            assert(rec.contains(rec[t]));
            lemma_stable_insert_contains(dl, lods, k, rec[t]);
            if rec[t] == k {
            }
        }
        assert forall|p: int, q: int| 0 <= p < q < res.len() implies lods[#[trigger] res[p]].size
            <= lods[#[trigger] res[q]].size by {
            if q == res.len() - 1 {
                // res[q] is the old last element, larger than k and >= all of dl.
                assert(res[q] == lst);
                assert(rec.contains(res[p])) by {
                    assert(rec[p] == res[p]);
                }
                lemma_stable_insert_contains(dl, lods, k, res[p]);
                if res[p] == k {
                } else {
                    let t = choose|t: int| 0 <= t < dl.len() && dl[t] == res[p];
                    assert(lods[ord[t]].size <= lods[lst].size);
                }
            }
        }
        assert forall|p: int, q: int|
            0 <= p < q < res.len() && lods[#[trigger] res[p]].size
                == lods[#[trigger] res[q]].size implies res[p] < res[q] by {
            if q == res.len() - 1 {
                assert(res[q] == lst);
                assert(rec.contains(res[p])) by {
                    assert(rec[p] == res[p]);
                }
                lemma_stable_insert_contains(dl, lods, k, res[p]);
                if res[p] == k {
                    assert(lods[lst].size > lods[k].size);
                } else {
                    let t = choose|t: int| 0 <= t < dl.len() && dl[t] == res[p];
                    assert(ord[t] < lst);
                }
            }
        }
    }
}

/// Laws of the processing order: `stable_order(lods)` is a permutation of the
/// configuration indices `0 .. lods.len()`, sizes are non-decreasing along
/// it, and entries of equal size keep their configuration order.
pub proof fn lemma_stable_order_props(lods: Seq<Lod>)
    ensures
        stable_order(lods).len() == lods.len(),
        forall|x: int| stable_order(lods).contains(x) <==> 0 <= x < lods.len(),
        stable_order(lods).no_duplicates(),
        ord_bounded(stable_order(lods), lods.len() as int),
        ord_sorted(stable_order(lods), lods),
        ord_stable(stable_order(lods), lods),
{
    lemma_stable_order_prefix_props(lods, lods.len() as int);
}

proof fn lemma_stable_order_prefix_props(lods: Seq<Lod>, m: int)
    requires
        0 <= m <= lods.len(),
    ensures
        stable_order_prefix(lods, m).len() == m,
        forall|x: int| stable_order_prefix(lods, m).contains(x) <==> 0 <= x < m,
        stable_order_prefix(lods, m).no_duplicates(),
        ord_bounded(stable_order_prefix(lods, m), m),
        ord_sorted(stable_order_prefix(lods, m), lods),
        ord_stable(stable_order_prefix(lods, m), lods),
    decreases m,
{
    if m > 0 {
        lemma_stable_order_prefix_props(lods, m - 1);
        let prev = stable_order_prefix(lods, m - 1);
        let res = stable_order_prefix(lods, m);
        lemma_stable_insert_len(prev, lods, m - 1);
        lemma_stable_insert_props(prev, lods, m - 1);
        assert forall|x: int| res.contains(x) implies 0 <= x < m by {
            lemma_stable_insert_contains(prev, lods, m - 1, x);
        }
        assert forall|x: int| 0 <= x < m implies res.contains(x) by {
            lemma_stable_insert_contains(prev, lods, m - 1, x);
        }
        // A repeated index would have equal size, so stability would force it
        // to be strictly smaller than itself.
        assert forall|p: int, q: int|
            0 <= p < res.len() && 0 <= q < res.len() && p != q implies res[p] != res[q] by {
            if p < q && res[p] == res[q] {
                assert(lods[res[p]].size == lods[res[q]].size);
            }
            if q < p && res[q] == res[p] {
                assert(lods[res[q]].size == lods[res[p]].size);
            }
        }
        assert(res.no_duplicates());
    }
}

/// The processing order of the configuration: a permutation of `0..n` with
/// sizes ascending, stable on ties (see [`stable_order`]).
pub fn sorted_indices(lods: &Vec<Lod>) -> (ord: Vec<usize>)
    ensures
        idxs(ord@) == stable_order(lods@),
        ord@.len() == lods@.len(),
{
    let n = lods.len();
    let mut ord: Vec<usize> = Vec::new();
    let mut m: usize = 0;
    while m < n
        invariant
            m <= n,
            n == lods@.len(),
            ord@.len() == m,
            idxs(ord@) == stable_order_prefix(lods@, m as int),
            forall|t: int| 0 <= t < m ==> #[trigger] ord@[t] < n,
        decreases n - m,
    {
        let sm = lods[m].size;
        let mut p: usize = ord.len();
        while p > 0 && lods[ord[p - 1]].size > sm
            invariant
                p <= m,
                m < n,
                n == lods@.len(),
                ord@.len() == m,
                sm == lods@[m as int].size,
                forall|t: int| 0 <= t < m ==> #[trigger] ord@[t] < n,
                forall|t: int|
                    p <= t < m ==> lods@[#[trigger] ord@[t] as int].size > lods@[m as int].size,
            decreases p,
        {
            p = p - 1;
        }
        let ghost prev = ord@;
        proof {
            lemma_stable_insert_at(idxs(prev), lods@, m as int, p as int);
        }
        ord.insert(p, m);
        proof {
            assert(idxs(ord@) =~= idxs(prev).take(p as int) + seq![m as int] + idxs(prev).skip(
                p as int,
            ));
        }
        m = m + 1;
    }
    ord
}

} // verus!
