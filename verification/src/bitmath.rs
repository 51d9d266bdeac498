//! Spec-level mathematics on option bitsets, modelled as `Seq<bool>`.

use vstd::prelude::*;

verus! {

/// Number of set bits in a bit sequence.
pub open spec fn popcount(s: Seq<bool>) -> nat
    decreases s.len(),
{
    if s.len() == 0 {
        0
    } else {
        popcount(s.drop_last()) + if s.last() {
            1nat
        } else {
            0nat
        }
    }
}

/// No bit of the sequence is set.
pub open spec fn none_set(s: Seq<bool>) -> bool {
    forall|i: int| 0 <= i < s.len() ==> !s[i]
}

/// `a` is a pointwise subset of `b` (same length, every set bit of `a` set in `b`).
pub open spec fn subset_of(a: Seq<bool>, b: Seq<bool>) -> bool {
    &&& a.len() == b.len()
    &&& forall|i: int| 0 <= i < a.len() && a[i] ==> b[i]
}

pub proof fn lemma_popcount_le_len(s: Seq<bool>)
    ensures
        popcount(s) <= s.len(),
    decreases s.len(),
{
    if s.len() > 0 {
        lemma_popcount_le_len(s.drop_last());
    }
}

pub proof fn lemma_popcount_none(s: Seq<bool>)
    ensures
        (popcount(s) == 0) == none_set(s),
    decreases s.len(),
{
    if s.len() > 0 {
        lemma_popcount_none(s.drop_last());
        if popcount(s) == 0 {
            assert forall|i: int| 0 <= i < s.len() implies !s[i] by {
                if i < s.len() - 1 {
                    assert(s.drop_last()[i] == s[i]);
                }
            }
        } else {
            if none_set(s) {
                assert forall|i: int| 0 <= i < s.drop_last().len() implies !s.drop_last()[i] by {
                    assert(s.drop_last()[i] == s[i]);
                }
                assert(!s.last());
            }
        }
    }
}

pub proof fn lemma_popcount_update(s: Seq<bool>, i: int, v: bool)
    requires
        0 <= i < s.len(),
    ensures
        popcount(s.update(i, v)) + (if s[i] {
            1nat
        } else {
            0nat
        }) == popcount(s) + (if v {
            1nat
        } else {
            0nat
        }),
    decreases s.len(),
{
    let t = s.update(i, v);
    if i == s.len() - 1 {
        assert(t.drop_last() =~= s.drop_last());
        assert(t.last() == v);
    } else {
        assert(t.drop_last() =~= s.drop_last().update(i, v));
        lemma_popcount_update(s.drop_last(), i, v);
        assert(t.last() == s.last());
    }
}

pub proof fn lemma_popcount_subset(a: Seq<bool>, b: Seq<bool>)
    requires
        subset_of(a, b),
    ensures
        popcount(a) <= popcount(b),
    decreases a.len(),
{
    if a.len() > 0 {
        assert(subset_of(a.drop_last(), b.drop_last())) by {
            assert forall|i: int|
                0 <= i < a.drop_last().len() && a.drop_last()[i] implies b.drop_last()[i] by {
                assert(a[i]);
            }
        }
        lemma_popcount_subset(a.drop_last(), b.drop_last());
    }
}

pub proof fn lemma_popcount_one_unique(s: Seq<bool>, a: int, b: int)
    requires
        popcount(s) == 1,
        0 <= a < s.len(),
        0 <= b < s.len(),
        s[a],
        s[b],
    ensures
        a == b,
{
    if a != b {
        let s2 = s.update(a, false);
        lemma_popcount_update(s, a, false);
        lemma_popcount_none(s2);
        assert(s2[b]);
    }
}

/// Total number of set bits over a family of bit sequences.
pub open spec fn total_count(cells: Seq<Seq<bool>>) -> nat
    decreases cells.len(),
{
    if cells.len() == 0 {
        0
    } else {
        total_count(cells.drop_last()) + popcount(cells.last())
    }
}

pub proof fn lemma_total_update(cells: Seq<Seq<bool>>, i: int, c: Seq<bool>)
    requires
        0 <= i < cells.len(),
    ensures
        total_count(cells.update(i, c)) + popcount(cells[i]) == total_count(cells) + popcount(c),
    decreases cells.len(),
{
    let t = cells.update(i, c);
    if i == cells.len() - 1 {
        assert(t.drop_last() =~= cells.drop_last());
        assert(t.last() == c);
    } else {
        assert(t.drop_last() =~= cells.drop_last().update(i, c));
        lemma_total_update(cells.drop_last(), i, c);
        assert(t.last() == cells.last());
    }
}

pub proof fn lemma_total_pointwise(a: Seq<Seq<bool>>, b: Seq<Seq<bool>>)
    requires
        a.len() == b.len(),
        forall|i: int| 0 <= i < a.len() ==> popcount(#[trigger] a[i]) <= popcount(b[i]),
    ensures
        total_count(a) <= total_count(b),
    decreases a.len(),
{
    if a.len() > 0 {
        assert forall|i: int|
            0 <= i < a.drop_last().len() implies popcount(#[trigger] a.drop_last()[i]) <= popcount(
            b.drop_last()[i]) by {
            assert(a.drop_last()[i] == a[i]);
            assert(b.drop_last()[i] == b[i]);
        }
        lemma_total_pointwise(a.drop_last(), b.drop_last());
        assert(popcount(a.last()) <= popcount(b[a.len() - 1]));
    }
}

pub proof fn lemma_total_pointwise_strict(a: Seq<Seq<bool>>, b: Seq<Seq<bool>>, w: int)
    requires
        a.len() == b.len(),
        forall|i: int| 0 <= i < a.len() ==> popcount(#[trigger] a[i]) <= popcount(b[i]),
        0 <= w < a.len(),
        popcount(a[w]) < popcount(b[w]),
    ensures
        total_count(a) < total_count(b),
{
    let a2 = a.update(w, b[w]);
    assert forall|i: int| 0 <= i < a2.len() implies popcount(#[trigger] a2[i]) <= popcount(b[i]) by {
        if i != w {
            assert(a2[i] == a[i]);
        }
    }
    lemma_total_pointwise(a2, b);
    lemma_total_update(a, w, b[w]);
}

pub proof fn lemma_total_bound(cells: Seq<Seq<bool>>, m: nat)
    requires
        forall|i: int| 0 <= i < cells.len() ==> popcount(#[trigger] cells[i]) <= m,
    ensures
        total_count(cells) <= cells.len() * m,
    decreases cells.len(),
{
    if cells.len() > 0 {
        assert forall|i: int|
            0 <= i < cells.drop_last().len() implies popcount(#[trigger] cells.drop_last()[i])
            <= m by {
            assert(cells.drop_last()[i] == cells[i]);
        }
        lemma_total_bound(cells.drop_last(), m);
        assert(popcount(cells.last()) <= m);
        assert((cells.len() - 1) * m + m == cells.len() * m) by (nonlinear_arith);
    }
}

} // verus!
