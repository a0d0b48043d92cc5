//! Laws of the merge, stated and proved over the contracts of
//! [`crate::matrix::WideData::add_row_data`]: each proof function takes
//! merge outcomes as [`crate::matrix::merge_spec`] relations and derives a
//! property of the finished table.

use vstd::prelude::*;

use crate::column::stable_reorder;
use crate::column::value_is_zero;
use crate::column::LongData;
use crate::keyorder::has_key;
use crate::keyorder::idx_of;
use crate::keyorder::key_set;
use crate::keyorder::lemma_idx_of;
use crate::keyorder::lemma_lex_lt_trichotomy;
use crate::keyorder::lex_lt;
use crate::keyorder::sorted_le;
use crate::keyorder::lemma_strict_sorted_distinct;
use crate::keyorder::lemma_strict_sorted_same_set;
use crate::matrix::merge_row_ok;
use crate::matrix::merge_spec;
use crate::matrix::nonzero_keys;
use crate::matrix::sample_value;
use crate::matrix::WideData;

verus! {

/// Merging an all-zero-valued, duplicate-free sample into a table that
/// already holds at least one sample changes no row and no existing
/// value: the rows, their order and their metadata stay exactly as they
/// were, and the one addition is an all-zero column for the new sample.
pub proof fn lemma_all_zero_merge(pre: WideData, col: LongData, post: WideData)
    requires
        pre.wf(),
        col.wf(),
        col.sorted_strict(),
        pre.ncols() > 0,
        forall|i: int| 0 <= i < col.values@.len() ==> value_is_zero(#[trigger] col.values@[i]),
        merge_spec(pre, col, post),
    ensures
        post.keys() == pre.keys(),
        post.meta() == pre.meta(),
        post.nrows() == pre.nrows(),
        post.ncols() == pre.ncols() + 1,
        forall|c: int, r: int|
            0 <= c < pre.values@.len() && 0 <= r < post.nrows() ==> #[trigger] post.col(c)[r]
                == pre.col(c)[r],
        forall|r: int|
            0 <= r < post.nrows() ==> #[trigger] post.col(pre.values@.len() as int)[r] == 0u32,
{
    lemma_strict_sorted_distinct(pre.keys());
    assert(nonzero_keys(col) =~= Set::<Seq<char>>::empty()) by {
        assert forall|k: Seq<char>| !nonzero_keys(col).contains(k) by {
            if has_key(col.keys(), k) {
                let i = idx_of(col.keys(), k);
                assert(value_is_zero(col.values@[i]));
            }
        }
    }
    assert(key_set(post.keys()) =~= key_set(pre.keys()));
    lemma_strict_sorted_same_set(post.keys(), pre.keys());
    assert(post.nrows() == pre.nrows()) by {
        assert(post.keys().len() == pre.keys().len());
    }
    assert forall|r: int| 0 <= r < post.nrows() implies #[trigger] post.meta()[r]
        == pre.meta()[r] by {
        let k = post.keys()[r];
        assert(merge_row_ok(pre, col, post, r));
        lemma_idx_of(pre.keys(), k, r);
    }
    assert forall|c: int, r: int|
        0 <= c < pre.values@.len() && 0 <= r < post.nrows() implies #[trigger] post.col(c)[r]
        == pre.col(c)[r] by {
        let k = post.keys()[r];
        assert(merge_row_ok(pre, col, post, r));
        lemma_idx_of(pre.keys(), k, r);
    }
    assert forall|r: int| 0 <= r < post.nrows() implies #[trigger] post.col(
        pre.values@.len() as int,
    )[r] == 0u32 by {
        let k = post.keys()[r];
        assert(merge_row_ok(pre, col, post, r));
        lemma_idx_of(pre.keys(), k, r);
        assert(sample_value(col, k) == 0u32) by {
            if has_key(col.keys(), k) {
                assert(value_is_zero(col.values@[idx_of(col.keys(), k)]));
            }
        }
    }
    assert(post.meta() =~= pre.meta()) by {
        assert(post.meta().len() == post.nrows());
        assert(pre.meta().len() == pre.nrows());
    }
    assert(post.ncols() == pre.ncols() + 1) by {
        assert(post.colids.deep_view().len() == pre.colids.deep_view().len() + 1);
    }
}

/// Merging samples in either order yields the same rows: starting from
/// one seeded table, merging `a` then `b` and merging `b` then `a` leave
/// the very same key sequence (so the same key set), whatever values the
/// two samples carry.
pub proof fn lemma_merge_order_independent(
    m0: WideData,
    a: LongData,
    b: LongData,
    mab1: WideData,
    mab2: WideData,
    mba1: WideData,
    mba2: WideData,
)
    requires
        m0.wf(),
        a.wf(),
        a.sorted_strict(),
        b.wf(),
        b.sorted_strict(),
        m0.ncols() > 0,
        merge_spec(m0, a, mab1),
        merge_spec(mab1, b, mab2),
        merge_spec(m0, b, mba1),
        merge_spec(mba1, a, mba2),
    ensures
        mab2.keys() == mba2.keys(),
        mab2.row_key_set() == mba2.row_key_set(),
{
    assert(mab1.ncols() > 0) by {
        assert(mab1.colids.deep_view().len() == m0.colids.deep_view().len() + 1);
    }
    assert(mba1.ncols() > 0) by {
        assert(mba1.colids.deep_view().len() == m0.colids.deep_view().len() + 1);
    }
    assert(mab2.row_key_set() =~= mba2.row_key_set()) by {
        assert(mab2.row_key_set() == m0.row_key_set().union(nonzero_keys(a)).union(
            nonzero_keys(b),
        ));
        assert(mba2.row_key_set() == m0.row_key_set().union(nonzero_keys(b)).union(
            nonzero_keys(a),
        ));
    }
    lemma_strict_sorted_same_set(mab2.keys(), mba2.keys());
}

/// A key that one sample reports with a nonzero value and a later sample
/// does not mention reads that value in the first sample's column and
/// zero in the second's.
pub proof fn lemma_sparse_value(
    m0: WideData,
    a: LongData,
    b: LongData,
    m1: WideData,
    m2: WideData,
    k: Seq<char>,
)
    requires
        m0.wf(),
        a.wf(),
        a.sorted_strict(),
        b.wf(),
        b.sorted_strict(),
        merge_spec(m0, a, m1),
        merge_spec(m1, b, m2),
        has_key(a.keys(), k),
        !value_is_zero(a.values@[idx_of(a.keys(), k)]),
        !has_key(b.keys(), k),
    ensures
        has_key(m2.keys(), k),
        m2.col(m0.values@.len() as int)[idx_of(m2.keys(), k)] == a.values@[idx_of(a.keys(), k)],
        m2.col(m1.values@.len() as int)[idx_of(m2.keys(), k)] == 0u32,
{
    lemma_strict_sorted_distinct(a.keys());
    lemma_strict_sorted_distinct(m1.keys());
    lemma_strict_sorted_distinct(m2.keys());
    let ia = idx_of(a.keys(), k);
    let v = a.values@[ia];
    assert(sample_value(a, k) == v);
    // the first merge leaves `v` at `k` in the sample's own column
    assert(has_key(m1.keys(), k) && m1.col(m0.values@.len() as int)[idx_of(m1.keys(), k)]
        == v) by {
        if m0.ncols() == 0 {
            assert(m1.keys() == a.keys());
            lemma_idx_of(m1.keys(), k, ia);
            assert(m0.values@.len() == 0);
            assert(m1.col(0)[ia] == v);
        } else {
            assert(key_set(m1.keys()).contains(k)) by {
                assert(nonzero_keys(a).contains(k));
            }
            let r1 = choose|r: int| 0 <= r < m1.keys().len() && m1.keys()[r] == k;
            lemma_idx_of(m1.keys(), k, r1);
            assert(merge_row_ok(m0, a, m1, r1));
        }
    }
    let r1 = idx_of(m1.keys(), k);
    // the second merge keeps every old column's value and reads zero for
    // `k` in the new sample's column
    assert(m1.ncols() > 0) by {
        assert(m1.colids.deep_view().len() == m0.colids.deep_view().len() + 1);
    }
    assert(key_set(m2.keys()).contains(k)) by {
        assert(key_set(m1.keys()).contains(k));
    }
    let r2 = choose|r: int| 0 <= r < m2.keys().len() && m2.keys()[r] == k;
    lemma_idx_of(m2.keys(), k, r2);
    assert(merge_row_ok(m1, b, m2, r2));
    lemma_idx_of(m1.keys(), k, r1);
    assert(m0.values@.len() < m1.values@.len());
    assert(m2.col(m0.values@.len() as int)[r2] == m1.col(m0.values@.len() as int)[r1]);
    assert(sample_value(b, k) == 0u32);
    assert(m2.col(m1.values@.len() as int)[r2] == 0u32);
}

/// A key the table does not hold, reported by the sample with value zero,
/// never becomes a row: the sparse representation drops it.
pub proof fn lemma_zero_novel_dropped(pre: WideData, col: LongData, post: WideData, k: Seq<char>)
    requires
        pre.wf(),
        col.wf(),
        col.sorted_strict(),
        pre.ncols() > 0,
        merge_spec(pre, col, post),
        !has_key(pre.keys(), k),
        has_key(col.keys(), k),
        value_is_zero(col.values@[idx_of(col.keys(), k)]),
    ensures
        !has_key(post.keys(), k),
{
    assert(!nonzero_keys(col).contains(k));
    assert(!key_set(pre.keys()).contains(k));
    assert(!key_set(post.keys()).contains(k));
}

/// Whether some position of `p` holds the value `v`.
spec fn covers(p: Seq<int>, v: int) -> bool {
    exists|j: int| 0 <= j < p.len() && #[trigger] p[j] == v
}

/// A stable reorder between two key-sorted states is the identity on
/// rows: re-sorting already-sorted rows moves nothing, so the per-sample
/// sort is idempotent.
pub proof fn lemma_stable_sort_idempotent(p: Seq<int>, pre: LongData, post: LongData)
    requires
        sorted_le(pre.keys()),
        sorted_le(post.keys()),
        stable_reorder(p, pre, post),
    ensures
        forall|i: int| 0 <= i < p.len() ==> #[trigger] p[i] == i,
        post.rows() == pre.rows(),
{
    let n = p.len() as int;
    // the n distinct values of p fill the range 0..n, so p is onto it
    assert(p.no_duplicates()) by {
        assert forall|i: int, j: int|
            (0 <= i < p.len() && 0 <= j < p.len() && i != j) implies p[i] != p[j] by {
            if i < j {
                assert(p[i] != p[j]);
            } else {
                assert(p[j] != p[i]);
            }
        }
    }
    p.unique_seq_to_set();
    vstd::seq_lib::seq_to_set_is_finite(p);
    vstd::set_lib::lemma_int_range(0, n);
    assert(p.to_set().subset_of(vstd::set_lib::set_int_range(0, n))) by {
        assert forall|v: int| p.to_set().contains(v) implies vstd::set_lib::set_int_range(
            0,
            n,
        ).contains(v) by {
            let i = choose|i: int| 0 <= i < p.len() && p[i] == v;
            assert(0 <= p[i] < n);
        }
    }
    vstd::set_lib::lemma_subset_equality(p.to_set(), vstd::set_lib::set_int_range(0, n));
    assert forall|v: int| 0 <= v < n implies #[trigger] covers(p, v) by {
        assert(vstd::set_lib::set_int_range(0, n).contains(v));
        assert(p.to_set().contains(v));
        assert(p.contains(v));
        let j = choose|j: int| 0 <= j < p.len() && p[j] == v;
        assert(p[j] == v);
    }
    lemma_stable_sort_identity_from(p, pre, post, 0);
    assert(post.rows() =~= pre.rows()) by {
        assert(post.rows().len() == n);
        assert(pre.rows().len() == n);
        assert forall|i: int| 0 <= i < n implies post.rows()[i] == pre.rows()[i] by {
            assert(post.rows()[i] == pre.rows()[p[i]]);
        }
    }
}

/// Positions before `i` already sit still; every later one must too: its
/// row cannot land earlier (those places are taken), and landing later
/// would put an equal key out of input order.
proof fn lemma_stable_sort_identity_from(p: Seq<int>, pre: LongData, post: LongData, i: int)
    requires
        sorted_le(pre.keys()),
        sorted_le(post.keys()),
        stable_reorder(p, pre, post),
        0 <= i <= p.len(),
        forall|k: int| 0 <= k < i ==> #[trigger] p[k] == k,
        forall|v: int| 0 <= v < p.len() ==> #[trigger] covers(p, v),
    ensures
        forall|k: int| 0 <= k < p.len() ==> #[trigger] p[k] == k,
    decreases p.len() - i,
{
    let n = p.len() as int;
    if i < n {
        assert(p[i] >= i) by {
            if p[i] < i {
                assert(p[p[i]] == p[i]);
            }
        }
        if p[i] > i {
            assert(covers(p, i));
            let j = choose|j: int| 0 <= j < p.len() && p[j] == i;
            assert(j > i) by {
                if j < i {
                    assert(p[j] == j);
                }
            }
            assert(post.rows()[i] == pre.rows()[p[i]]);
            assert(post.rows()[j] == pre.rows()[i]);
            assert(post.keys()[i] == pre.keys()[p[i]]);
            assert(post.keys()[j] == pre.keys()[i]);
            // both orders force the two keys to be equal
            assert(!lex_lt(pre.keys()[p[i]], pre.keys()[i]));
            assert(!lex_lt(post.keys()[j], post.keys()[i]));
            lemma_lex_lt_trichotomy(pre.keys()[i], pre.keys()[p[i]]);
            assert(post.keys()[i] == post.keys()[j]);
            // stability then puts this row before position i: absurd
            assert(p[i] < p[j]);
            assert(false);
        }
        lemma_stable_sort_identity_from(p, pre, post, i + 1);
    }
}

} // verus!
