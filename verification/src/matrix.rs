//! The wide table: one row per feature key, one dense value column per
//! merged sample. Rows stay strictly sorted by key across merges; a merge
//! finds matches and insertion points with monotone scans, never
//! re-sorting rows that are already placed.

use vstd::prelude::*;

use crate::column::is_zero_value;
use crate::column::value_is_zero;
use crate::column::LongData;
use crate::keyorder::has_key;
use crate::keyorder::idx_of;
use crate::keyorder::key_set;
use crate::keyorder::lemma_idx_of;
use crate::keyorder::lemma_lex_lt_irreflexive;
use crate::keyorder::lemma_lex_lt_transitive;
use crate::keyorder::lemma_lex_lt_trichotomy;
use crate::keyorder::lemma_strict_sorted_distinct;
use crate::keyorder::lex_lt;
use crate::keyorder::str_lt;
use crate::keyorder::strict_sorted;

verus! {

/// The value sample `d` contributes for key `k`: its recorded value where
/// it holds `k` with a value other than zero, and zero otherwise.
pub open spec fn sample_value(d: LongData, k: Seq<char>) -> u32 {
    if has_key(d.keys(), k) && !value_is_zero(d.values@[idx_of(d.keys(), k)]) {
        d.values@[idx_of(d.keys(), k)]
    } else {
        0u32
    }
}

/// The keys `d` holds with a value other than zero: the only keys a merge
/// into a seeded table may add as new rows.
pub open spec fn nonzero_keys(d: LongData) -> Set<Seq<char>> {
    Set::new(
        |k: Seq<char>| has_key(d.keys(), k) && !value_is_zero(d.values@[idx_of(d.keys(), k)]),
    )
}

/// The accumulated wide table.
pub struct WideData {
    /// Feature keys, strictly ascending, one per row.
    pub rowids: Vec<String>,
    /// Sample identifiers, one per merged sample, in merge order.
    pub colids: Vec<String>,
    /// Metadata fields per row, set by the sample that introduced the row.
    pub metadata: Vec<Vec<String>>,
    /// One dense value vector per merged sample, each as long as `rowids`.
    pub values: Vec<Vec<u32>>,
}

impl WideData {
    /// The row keys as character sequences.
    pub open spec fn keys(self) -> Seq<Seq<char>> {
        self.rowids.deep_view()
    }

    /// The row metadata as character sequences.
    pub open spec fn meta(self) -> Seq<Seq<Seq<char>>> {
        self.metadata.deep_view()
    }

    pub open spec fn nrows(self) -> int {
        self.rowids@.len() as int
    }

    pub open spec fn ncols(self) -> int {
        self.colids@.len() as int
    }

    /// The value vector of column `c`.
    pub open spec fn col(self, c: int) -> Seq<u32> {
        self.values@[c]@
    }

    /// The table invariant: parallel lengths, a rectangular value block,
    /// and strictly ascending row keys.
    pub open spec fn wf(self) -> bool {
        &&& self.metadata@.len() == self.rowids@.len()
        &&& self.values@.len() == self.colids@.len()
        &&& forall|c: int| 0 <= c < self.ncols() ==> (#[trigger] self.col(c)).len() == self.nrows()
        &&& strict_sorted(self.keys())
    }

    /// The set of row keys the table holds.
    pub open spec fn row_key_set(self) -> Set<Seq<char>> {
        key_set(self.keys())
    }

    pub fn new() -> (r: Self)
        ensures
            r.wf(),
            r.nrows() == 0,
            r.ncols() == 0,
    {
        Self { rowids: Vec::new(), colids: Vec::new(), metadata: Vec::new(), values: Vec::new() }
    }

    pub fn len(&self) -> (n: usize)
        ensures
            n == self.rowids@.len(),
    {
        self.rowids.len()
    }
}

/// Where row `j` of `pre` stands in `post` after the re-sort: at its key's
/// position, with its metadata, and with every column's value carried
/// along — a column that did not yet cover row `j` reads zero there.
pub open spec fn sorted_row_ok(pre: WideData, post: WideData, j: int) -> bool {
    let k = pre.keys()[j];
    let r = idx_of(post.keys(), k);
    &&& has_key(post.keys(), k)
    &&& post.meta()[r] == pre.meta()[j]
    &&& forall|c: int|
        0 <= c < pre.values@.len() ==> #[trigger] post.col(c)[r] == (if j < pre.col(c).len() {
            pre.col(c)[j]
        } else {
            0u32
        })
}

impl WideData {
    /// Merge the sorted run of rows past `existing_values_length` into the
    /// sorted run before it, carrying metadata and every value column
    /// through the same rearrangement; value columns that stop at the
    /// boundary are first extended with zeros. With a boundary of zero the
    /// table is left exactly as it was.
    #[verifier::loop_isolation(false)]
    pub fn sort(&mut self, existing_values_length: usize)
        requires
            existing_values_length <= old(self).rowids@.len(),
            old(self).metadata@.len() == old(self).rowids@.len(),
            forall|p: int, q: int|
                0 <= p < q < existing_values_length as int ==> lex_lt(
                    #[trigger] old(self).keys()[p],
                    #[trigger] old(self).keys()[q],
                ),
            forall|p: int, q: int|
                existing_values_length as int <= p < q < old(self).nrows() ==> lex_lt(
                    #[trigger] old(self).keys()[p],
                    #[trigger] old(self).keys()[q],
                ),
            forall|p: int, q: int|
                0 <= p < existing_values_length as int && existing_values_length as int <= q
                    < old(self).nrows() ==> #[trigger] old(self).keys()[p]
                    != #[trigger] old(self).keys()[q],
            forall|c: int|
                0 <= c < old(self).values@.len() ==> (#[trigger] old(self).col(c)).len()
                    == existing_values_length as int || old(self).col(c).len() == old(self).nrows(),
        ensures
            final(self).colids == old(self).colids,
            final(self).values@.len() == old(self).values@.len(),
            existing_values_length == 0 ==> *final(self) == *old(self),
            existing_values_length > 0 ==> final(self).rowids@.len() == old(self).rowids@.len(),
            existing_values_length > 0 ==> final(self).metadata@.len()
                == final(self).rowids@.len(),
            existing_values_length > 0 ==> strict_sorted(final(self).keys()),
            existing_values_length > 0 ==> key_set(final(self).keys()) == key_set(
                old(self).keys(),
            ),
            existing_values_length > 0 ==> forall|c: int|
                0 <= c < final(self).values@.len() ==> (#[trigger] final(self).col(c)).len()
                    == final(self).nrows(),
            existing_values_length > 0 ==> forall|j: int|
                0 <= j < old(self).nrows() ==> #[trigger] sorted_row_ok(*old(self), *final(self), j),
    {
        if existing_values_length == 0 {
            return ;
        }
        let total = self.rowids.len();
        let e = existing_values_length;
        let ghost pre = *self;
        let mut new_ids: Vec<String> = Vec::new();
        let mut new_meta: Vec<Vec<String>> = Vec::new();
        let mut srcs: Vec<usize> = Vec::new();
        let mut a: usize = 0;
        let mut b: usize = e;
        while a < e || b < total
            invariant
                *self == pre,
                e == existing_values_length,
                0 < e <= total,
                total == pre.rowids@.len(),
                a <= e,
                e <= b <= total,
                new_ids@.len() == a + (b - e),
                new_meta@.len() == new_ids@.len(),
                srcs@.len() == new_ids@.len(),
                forall|r: int|
                    0 <= r < srcs@.len() ==> (#[trigger] srcs@[r] < a && srcs@[r] < e) || (e
                        <= srcs@[r] < b),
                forall|r: int|
                    0 <= r < srcs@.len() ==> #[trigger] new_ids.deep_view()[r] == pre.keys()[srcs@[r] as int],
                forall|r: int|
                    0 <= r < srcs@.len() ==> #[trigger] new_meta.deep_view()[r] == pre.meta()[srcs@[r] as int],
                forall|j: int|
                    0 <= j < a || e <= j < b ==> #[trigger] in_positions(srcs@, j),
                strict_sorted(new_ids.deep_view()),
                forall|r: int, p: int|
                    0 <= r < new_ids@.len() && a <= p < e ==> lex_lt(
                        #[trigger] new_ids.deep_view()[r],
                        #[trigger] pre.keys()[p],
                    ),
                forall|r: int, p: int|
                    0 <= r < new_ids@.len() && b <= p < total ==> lex_lt(
                        #[trigger] new_ids.deep_view()[r],
                        #[trigger] pre.keys()[p],
                    ),
            decreases (e - a) + (total - b),
        {
            let take_head = if b == total {
                true
            } else if a == e {
                false
            } else {
                str_lt(&self.rowids[a], &self.rowids[b])
            };
            proof {
                if a < e {
                    lemma_dv_index(pre.rowids, a as int);
                }
                if b < total {
                    lemma_dv_index(pre.rowids, b as int);
                }
            }
            let ghost ids_prev = new_ids.deep_view();
            let ghost meta_prev = new_meta.deep_view();
            let ghost ids_vec_prev = new_ids;
            let ghost meta_vec_prev = new_meta;
            let ghost srcs_prev = srcs@;
            let ghost src: int = if take_head { a as int } else { b as int };
            proof {
                lemma_dv_index(pre.rowids, src);
                lemma_dv2_index(pre.metadata, src);
                if !take_head && a < e {
                    // the head key is not below the tail key, and they
                    // differ, so the tail key is strictly below
                    lemma_lex_lt_trichotomy(pre.keys()[a as int], pre.keys()[b as int]);
                }
            }
            if take_head {
                new_ids.push(self.rowids[a].clone());
                new_meta.push(clone_string_vec(&self.metadata[a]));
                srcs.push(a);
                a = a + 1;
            } else {
                new_ids.push(self.rowids[b].clone());
                new_meta.push(clone_string_vec(&self.metadata[b]));
                srcs.push(b);
                b = b + 1;
            }
            proof {
                lemma_dv_push(ids_vec_prev, new_ids, new_ids@[new_ids@.len() - 1]);
                lemma_dv2_push(meta_vec_prev, new_meta, new_meta@[new_meta@.len() - 1]);
                assert(new_ids.deep_view() == ids_prev.push(pre.keys()[src]));
                assert(new_meta.deep_view() == meta_prev.push(pre.meta()[src]));
                sort_merge_step(pre, e as int, total as int, ids_prev, src,
                    (if take_head { src } else { a as int }),
                    (if take_head { b as int } else { src }), take_head);
            }
            proof {
                assert forall|j: int| 0 <= j < a || e <= j < b implies #[trigger] in_positions(
                    srcs@,
                    j,
                ) by {
                    if j == src {
                        assert(srcs@[srcs@.len() - 1] == j);
                    } else {
                        assert(in_positions(srcs_prev, j));
                        let r = choose|r: int|
                            0 <= r < srcs_prev.len() && #[trigger] srcs_prev[r] == j;
                        assert(srcs@[r] == j);
                    }
                }
            }
        }
        // rebuild every value column through the same rearrangement
        let mut new_values: Vec<Vec<u32>> = Vec::new();
        let mut c: usize = 0;
        while c < self.values.len()
            invariant
                *self == pre,
                total == pre.rowids@.len(),
                srcs@.len() == total,
                forall|r: int| 0 <= r < total ==> #[trigger] srcs@[r] < total,
                forall|c2: int|
                    0 <= c2 < pre.values@.len() ==> (#[trigger] pre.col(c2)).len() == e as int
                        || pre.col(c2).len() == total,
                c <= pre.values@.len(),
                new_values@.len() == c,
                forall|c2: int|
                    0 <= c2 < c ==> (#[trigger] new_values@[c2]@).len() == total,
                forall|c2: int, r: int|
                    0 <= c2 < c && 0 <= r < total ==> #[trigger] new_values@[c2]@[r] == (
                    if srcs@[r] < pre.col(c2).len() {
                        pre.col(c2)[srcs@[r] as int]
                    } else {
                        0u32
                    }),
            decreases pre.values@.len() - c,
        {
            let col_len = self.values[c].len();
            let mut newcol: Vec<u32> = Vec::new();
            let mut r: usize = 0;
            while r < total
                invariant
                    *self == pre,
                    c < pre.values@.len(),
                    col_len == pre.col(c as int).len(),
                    total == pre.rowids@.len(),
                    srcs@.len() == total,
                    forall|t: int| 0 <= t < total ==> #[trigger] srcs@[t] < total,
                    r <= total,
                    newcol@.len() == r,
                    forall|t: int|
                        0 <= t < r ==> #[trigger] newcol@[t] == (if srcs@[t] < pre.col(
                            c as int,
                        ).len() {
                            pre.col(c as int)[srcs@[t] as int]
                        } else {
                            0u32
                        }),
                decreases total - r,
            {
                let s = srcs[r];
                if s < col_len {
                    newcol.push(self.values[c][s]);
                } else {
                    newcol.push(0);
                }
                r = r + 1;
            }
            new_values.push(newcol);
            c = c + 1;
        }
        self.rowids = new_ids;
        self.metadata = new_meta;
        self.values = new_values;
        proof {
            lemma_strict_sorted_distinct(self.keys());
            assert(self.rowids@.len() == total) by {
                assert(srcs@.len() == total);
            }
            assert forall|j: int| 0 <= j < pre.nrows() implies #[trigger] sorted_row_ok(
                pre,
                *self,
                j,
            ) by {
                assert(in_positions(srcs@, j));
                let r = choose|r: int| 0 <= r < srcs@.len() && #[trigger] srcs@[r] == j;
                assert(self.keys()[r] == pre.keys()[j]);
                lemma_idx_of(self.keys(), pre.keys()[j], r);
            }
            assert(key_set(self.keys()) =~= key_set(pre.keys())) by {
                assert forall|k: Seq<char>| key_set(self.keys()).contains(k) implies key_set(
                    pre.keys(),
                ).contains(k) by {
                    let r = choose|r: int| 0 <= r < self.keys().len() && self.keys()[r] == k;
                    assert(pre.keys()[srcs@[r] as int] == k);
                }
                assert forall|k: Seq<char>| key_set(pre.keys()).contains(k) implies key_set(
                    self.keys(),
                ).contains(k) by {
                    let j = choose|j: int| 0 <= j < pre.keys().len() && pre.keys()[j] == k;
                    assert(in_positions(srcs@, j));
                    let r = choose|r: int| 0 <= r < srcs@.len() && #[trigger] srcs@[r] == j;
                    assert(self.keys()[r] == k);
                }
            }
        }
    }
}

/// How one merged row of `post` relates to the table `pre` and the sample
/// `col` it was merged from. A row whose key the table already held keeps
/// its metadata and every old column's value; a row whose key is new
/// carries the sample's metadata and zero in every old column. In the
/// sample's own column every row reads [`sample_value`].
pub open spec fn merge_row_ok(pre: WideData, col: LongData, post: WideData, r: int) -> bool {
    let k = post.keys()[r];
    &&& (has_key(pre.keys(), k) ==> {
        let j = idx_of(pre.keys(), k);
        &&& post.meta()[r] == pre.meta()[j]
        &&& forall|c: int| 0 <= c < pre.values@.len() ==> #[trigger] post.col(c)[r] == pre.col(c)[j]
    })
    &&& (!has_key(pre.keys(), k) ==> {
        let i = idx_of(col.keys(), k);
        &&& has_key(col.keys(), k)
        &&& !value_is_zero(col.values@[i])
        &&& post.meta()[r] == col.meta()[i]
        &&& forall|c: int| 0 <= c < pre.values@.len() ==> #[trigger] post.col(c)[r] == 0u32
    })
    &&& post.col(pre.values@.len() as int)[r] == sample_value(col, k)
}

/// What one merge does: `post` is `pre` with the sample `col` folded in.
/// The first sample seeds the table as it stands; after that, the row keys
/// grow by exactly the sample's nonzero keys, and every row satisfies
/// [`merge_row_ok`].
pub open spec fn merge_spec(pre: WideData, col: LongData, post: WideData) -> bool {
    &&& post.colids.deep_view() == pre.colids.deep_view().push(col.colid@)
    &&& post.values@.len() == pre.values@.len() + 1
    &&& post.wf()
    &&& if pre.ncols() == 0 {
        &&& post.keys() == col.keys()
        &&& post.meta() == col.meta()
        &&& post.col(0) == col.values@
    } else {
        &&& post.row_key_set() == pre.row_key_set().union(nonzero_keys(col))
        &&& forall|r: int| 0 <= r < post.nrows() ==> #[trigger] merge_row_ok(pre, col, post, r)
    }
}

impl WideData {
    /// Fold one sample into the table. The first sample seeds the table;
    /// every later one is matched against the existing rows with a single
    /// monotone cursor: keys the table holds get their slot in the new
    /// column filled, nonzero novel keys are queued and then merged into
    /// place, and zero-valued entries materialize no new row.
    #[verifier::loop_isolation(false)]
    pub fn add_row_data(&mut self, row_data: &LongData)
        requires
            old(self).wf(),
            row_data.wf(),
            row_data.sorted_strict(),
        ensures
            final(self).wf(),
            merge_spec(*old(self), *row_data, *final(self)),
    {
        let ghost pre = *old(self);
        let ghost col = *row_data;
        proof {
            lemma_strict_sorted_distinct(pre.keys());
            lemma_strict_sorted_distinct(col.keys());
        }
        if self.colids.len() == 0 {
            // the first sample seeds the table as it stands
            self.rowids = clone_string_vec(&row_data.rowids);
            self.metadata = clone_meta_vec(&row_data.metadata);
            self.colids.push(row_data.colid.clone());
            self.values.push(clone_u32_vec(&row_data.values));
            proof {
                lemma_dv_push(pre.colids, self.colids, col.colid);
                assert(self.col(0) == col.values@);
                assert(self.keys() == col.keys());
                assert forall|c: int| 0 <= c < self.ncols() implies (#[trigger] self.col(c)).len()
                    == self.nrows() by {
                    assert(self.col(0) == col.values@);
                }
            }
            return ;
        }
        // scan the sample against the existing rows with one monotone cursor
        let e = self.rowids.len();
        let n = row_data.rowids.len();
        let mut existing_values: Vec<u32> = Vec::new();
        while existing_values.len() < e
            invariant
                existing_values@.len() <= e,
                forall|j: int| 0 <= j < existing_values@.len() ==> #[trigger] existing_values@[j] == 0u32,
            decreases e - existing_values@.len(),
        {
            existing_values.push(0);
        }
        let mut new_rownames: Vec<String> = Vec::new();
        let mut new_metadata: Vec<Vec<String>> = Vec::new();
        let mut new_values: Vec<u32> = Vec::new();
        let ghost mut nsrc: Seq<int> = Seq::empty();
        let mut cursor: usize = 0;
        let mut i: usize = 0;
        while i < n
            invariant
                *self == pre,
                i <= n,
                cursor <= e,
                e == pre.rowids@.len(),
                n == col.rowids@.len(),
                existing_values@.len() == e,
                new_metadata@.len() == new_rownames@.len(),
                new_values@.len() == new_rownames@.len(),
                nsrc.len() == new_rownames@.len(),
                i < n ==> forall|p: int|
                    0 <= p < cursor ==> lex_lt(#[trigger] pre.keys()[p], col.keys()[i as int]),
                forall|j: int|
                    0 <= j < e && #[trigger] existing_values@[j] != 0u32 ==> {
                        &&& has_key(col.keys(), pre.keys()[j])
                        &&& idx_of(col.keys(), pre.keys()[j]) < i
                        &&& existing_values@[j] == col.values@[idx_of(col.keys(), pre.keys()[j])]
                        &&& !value_is_zero(existing_values@[j])
                    },
                forall|ii: int|
                    0 <= ii < i && !value_is_zero(col.values@[ii]) && has_key(
                        pre.keys(),
                        #[trigger] col.keys()[ii],
                    ) ==> existing_values@[idx_of(pre.keys(), col.keys()[ii])] == col.values@[ii],
                forall|t: int|
                    0 <= t < nsrc.len() ==> {
                        &&& 0 <= #[trigger] nsrc[t] < i
                        &&& col.keys()[nsrc[t]] == new_rownames.deep_view()[t]
                        &&& !value_is_zero(col.values@[nsrc[t]])
                        &&& !has_key(pre.keys(), col.keys()[nsrc[t]])
                        &&& new_metadata.deep_view()[t] == col.meta()[nsrc[t]]
                        &&& new_values@[t] == col.values@[nsrc[t]]
                    },
                forall|ii: int|
                    0 <= ii < i && !value_is_zero(col.values@[ii]) && !has_key(
                        pre.keys(),
                        #[trigger] col.keys()[ii],
                    ) ==> has_key(new_rownames.deep_view(), col.keys()[ii]),
                strict_sorted(new_rownames.deep_view()),
                forall|t: int, q: int|
                    0 <= t < new_rownames@.len() && i <= q < n ==> lex_lt(
                        #[trigger] new_rownames.deep_view()[t],
                        #[trigger] col.keys()[q],
                    ),
            decreases n - i,
        {
            let v = row_data.values[i];
            proof {
                lemma_dv_index(col.rowids, i as int);
            }
            if !is_zero_value(v) {
                while cursor < e && str_lt(&self.rowids[cursor], &row_data.rowids[i])
                    invariant
                        i < n,
                        cursor <= e,
                        forall|p: int|
                            0 <= p < cursor ==> lex_lt(
                                #[trigger] pre.keys()[p],
                                col.keys()[i as int],
                            ),
                    decreases e - cursor,
                {
                    proof {
                        lemma_dv_index(pre.rowids, cursor as int);
                    }
                    cursor += 1;
                }
                proof {
                    if cursor < e {
                        lemma_dv_index(pre.rowids, cursor as int);
                    }
                }
                let is_match = if cursor < e {
                    self.rowids[cursor].eq(&row_data.rowids[i])
                } else {
                    false
                };
                if is_match {
                    proof {
                        assert(pre.keys()[cursor as int] == col.keys()[i as int]);
                        lemma_idx_of(pre.keys(), col.keys()[i as int], cursor as int);
                        lemma_idx_of(col.keys(), col.keys()[i as int], i as int);
                    }
                    let ghost scratch_prev = existing_values@;
                    existing_values[cursor] = v;
                    proof {
                        assert(existing_values@ == scratch_prev.update(cursor as int, v));
                        assert forall|ii: int|
                            0 <= ii < i + 1 && !value_is_zero(col.values@[ii]) && has_key(
                                pre.keys(),
                                #[trigger] col.keys()[ii],
                            ) implies existing_values@[idx_of(pre.keys(), col.keys()[ii])]
                            == col.values@[ii] by {
                            let jj = idx_of(pre.keys(), col.keys()[ii]);
                            if ii < i {
                                if jj == cursor as int {
                                    // two distinct sample keys cannot share
                                    // the same table row
                                    assert(pre.keys()[jj] == col.keys()[ii]);
                                    assert(col.keys()[ii] == col.keys()[i as int]);
                                } else {
                                    assert(existing_values@[jj] == scratch_prev[jj]);
                                }
                            }
                        }
                        assert forall|j: int|
                            0 <= j < e && #[trigger] existing_values@[j] != 0u32 implies {
                                &&& has_key(col.keys(), pre.keys()[j])
                                &&& idx_of(col.keys(), pre.keys()[j]) < i + 1
                                &&& existing_values@[j] == col.values@[idx_of(
                                    col.keys(),
                                    pre.keys()[j],
                                )]
                                &&& !value_is_zero(existing_values@[j])
                            } by {
                            if j != cursor as int {
                                assert(existing_values@[j] == scratch_prev[j]);
                            }
                        }
                    }
                } else {
                    proof {
                        assert(!has_key(pre.keys(), col.keys()[i as int])) by {
                            if has_key(pre.keys(), col.keys()[i as int]) {
                                let ck = col.keys()[i as int];
                                let jj = choose|jj: int|
                                    0 <= jj < pre.keys().len() && pre.keys()[jj] == ck;
                                if jj < cursor {
                                    lemma_lex_lt_irreflexive(col.keys()[i as int]);
                                } else if cursor < e {
                                    lemma_lex_lt_trichotomy(
                                        pre.keys()[cursor as int],
                                        col.keys()[i as int],
                                    );
                                    if jj > cursor {
                                        lemma_lex_lt_transitive(
                                            col.keys()[i as int],
                                            pre.keys()[cursor as int],
                                            pre.keys()[jj],
                                        );
                                        lemma_lex_lt_irreflexive(col.keys()[i as int]);
                                    }
                                } else {
                                    lemma_lex_lt_irreflexive(col.keys()[i as int]);
                                }
                            }
                        }
                    }
                    let ghost nn_prev = new_rownames;
                    let ghost nm_prev = new_metadata;
                    let ghost nkeys_prev = new_rownames.deep_view();
                    new_rownames.push(row_data.rowids[i].clone());
                    new_metadata.push(clone_string_vec(&row_data.metadata[i]));
                    new_values.push(v);
                    proof {
                        nsrc = nsrc.push(i as int);
                        lemma_dv_push(nn_prev, new_rownames, new_rownames@[new_rownames@.len() - 1]);
                        lemma_dv2_push(
                            nm_prev,
                            new_metadata,
                            new_metadata@[new_metadata@.len() - 1],
                        );
                        lemma_dv2_index(col.metadata, i as int);
                        assert(new_rownames.deep_view() == nkeys_prev.push(col.keys()[i as int]));
                        assert forall|ii: int|
                            0 <= ii < i + 1 && !value_is_zero(col.values@[ii]) && !has_key(
                                pre.keys(),
                                #[trigger] col.keys()[ii],
                            ) implies has_key(new_rownames.deep_view(), col.keys()[ii]) by {
                            if ii < i {
                                assert(has_key(nkeys_prev, col.keys()[ii]));
                                let t = choose|t: int|
                                    0 <= t < nkeys_prev.len() && nkeys_prev[t] == col.keys()[ii];
                                assert(new_rownames.deep_view()[t] == col.keys()[ii]);
                            } else {
                                assert(new_rownames.deep_view()[nkeys_prev.len() as int]
                                    == col.keys()[ii]);
                            }
                        }
                        assert forall|t1: int, t2: int|
                            0 <= t1 < t2 < new_rownames@.len() implies lex_lt(
                                #[trigger] new_rownames.deep_view()[t1],
                                #[trigger] new_rownames.deep_view()[t2],
                            ) by {
                            if t2 < nkeys_prev.len() {
                                assert(new_rownames.deep_view()[t1] == nkeys_prev[t1]);
                                assert(new_rownames.deep_view()[t2] == nkeys_prev[t2]);
                            } else {
                                assert(new_rownames.deep_view()[t1] == nkeys_prev[t1]);
                                assert(lex_lt(nkeys_prev[t1], col.keys()[i as int]));
                            }
                        }
                        assert forall|t: int, q: int|
                            0 <= t < new_rownames@.len() && i + 1 <= q < n implies lex_lt(
                                #[trigger] new_rownames.deep_view()[t],
                                #[trigger] col.keys()[q],
                            ) by {
                            assert(lex_lt(col.keys()[i as int], col.keys()[q]));
                            if t < nkeys_prev.len() {
                                assert(new_rownames.deep_view()[t] == nkeys_prev[t]);
                                assert(lex_lt(nkeys_prev[t], col.keys()[i as int]));
                                lemma_lex_lt_transitive(
                                    nkeys_prev[t],
                                    col.keys()[i as int],
                                    col.keys()[q],
                                );
                            } else {
                                assert(new_rownames.deep_view()[t] == col.keys()[i as int]);
                            }
                        }
                    }
                }
            }
            proof {
                if i + 1 < n {
                    assert(lex_lt(col.keys()[i as int], col.keys()[i + 1]));
                    assert forall|p: int| 0 <= p < cursor implies lex_lt(
                        #[trigger] pre.keys()[p],
                        col.keys()[i + 1],
                    ) by {
                        lemma_lex_lt_transitive(
                            pre.keys()[p],
                            col.keys()[i as int],
                            col.keys()[i + 1],
                        );
                    }
                }
            }
            i += 1;
        }
        // every existing row's scratch slot now reads the sample's value
        proof {
            assert forall|j: int| 0 <= j < e implies #[trigger] existing_values@[j]
                == sample_value(col, pre.keys()[j]) by {
                if existing_values@[j] != 0u32 {
                } else {
                    if has_key(col.keys(), pre.keys()[j]) && !value_is_zero(
                        col.values@[idx_of(col.keys(), pre.keys()[j])],
                    ) {
                        let ii = idx_of(col.keys(), pre.keys()[j]);
                        assert(col.keys()[ii] == pre.keys()[j]);
                        lemma_idx_of(pre.keys(), col.keys()[ii], j);
                    }
                }
            }
        }
        // assemble: the new column, then the novel rows, then re-sort
        let ghost nkeys = new_rownames.deep_view();
        let ghost nmeta = new_metadata.deep_view();
        let ghost nvals = new_values@;
        let ghost scratch = existing_values@;
        let ghost nn_vec = new_rownames;
        let ghost nm_vec = new_metadata;
        let mut merged = existing_values;
        merged.append(&mut new_values);
        self.values.push(merged);
        self.rowids.append(&mut new_rownames);
        self.metadata.append(&mut new_metadata);
        self.colids.push(row_data.colid.clone());
        proof {
            lemma_dv_push(pre.colids, self.colids, col.colid);
            assert(self.keys() =~= pre.keys() + nkeys) by {
                assert forall|r: int| 0 <= r < self.rowids@.len() implies self.keys()[r] == (
                pre.keys() + nkeys)[r] by {
                    assert(self.keys()[r] == self.rowids@[r].deep_view());
                    assert(self.rowids@[r].deep_view() == self.rowids@[r]@);
                    if r < e {
                        assert(self.rowids@[r] == pre.rowids@[r]);
                        lemma_dv_index(pre.rowids, r);
                    } else {
                        assert(self.rowids@[r] == nn_vec@[r - e]);
                        lemma_dv_index(nn_vec, r - e);
                    }
                }
            }
            assert(self.meta() =~= pre.meta() + nmeta) by {
                assert forall|r: int| 0 <= r < self.metadata@.len() implies self.meta()[r] == (
                pre.meta() + nmeta)[r] by {
                    assert(self.meta()[r] == self.metadata@[r].deep_view());
                    if r < e {
                        assert(self.metadata@[r] == pre.metadata@[r]);
                        lemma_dv2_index(pre.metadata, r);
                    } else {
                        assert(self.metadata@[r] == nm_vec@[r - e]);
                        lemma_dv2_index(nm_vec, r - e);
                    }
                }
            }
        }
        let ghost mid = *self;
        proof {
            // the appended state meets the re-sort's expectations
            assert(mid.keys() == pre.keys() + nkeys);
            assert forall|p: int, q: int| 0 <= p < q < e as int implies lex_lt(
                #[trigger] mid.keys()[p],
                #[trigger] mid.keys()[q],
            ) by {
                assert(mid.keys()[p] == pre.keys()[p]);
                assert(mid.keys()[q] == pre.keys()[q]);
            }
            assert forall|p: int, q: int| e as int <= p < q < mid.nrows() implies lex_lt(
                #[trigger] mid.keys()[p],
                #[trigger] mid.keys()[q],
            ) by {
                assert(mid.keys()[p] == nkeys[p - e]);
                assert(mid.keys()[q] == nkeys[q - e]);
            }
            assert forall|p: int, q: int|
                0 <= p < e as int && e as int <= q < mid.nrows() implies #[trigger] mid.keys()[p]
                != #[trigger] mid.keys()[q] by {
                assert(mid.keys()[q] == nkeys[q - e]);
                assert(col.keys()[nsrc[q - e]] == nkeys[q - e]);
                assert(!has_key(pre.keys(), nkeys[q - e]));
                assert(mid.keys()[p] == pre.keys()[p]);
            }
            assert forall|c: int| 0 <= c < mid.values@.len() implies (#[trigger] mid.col(c)).len()
                == e as int || mid.col(c).len() == mid.nrows() by {
                if c < pre.values@.len() {
                    assert(mid.col(c) == pre.col(c));
                } else {
                    assert(mid.col(c) == scratch + nvals);
                }
            }
        }
        self.sort(e);
        if e == 0 {
            // no rows existed yet: give every earlier sample's column the
            // zeros it needs to cover the novel rows
            let target = self.rowids.len();
            let n_old = self.values.len() - 1;
            let mut c2: usize = 0;
            while c2 < n_old
                invariant
                    n_old + 1 == self.values@.len(),
                    self.rowids == mid.rowids,
                    self.metadata == mid.metadata,
                    self.colids == mid.colids,
                    target == self.rowids@.len(),
                    c2 <= n_old,
                    forall|c: int|
                        0 <= c < c2 ==> (#[trigger] self.col(c)).len() == target as int,
                    forall|c: int, r: int|
                        0 <= c < c2 && 0 <= r < target as int ==> #[trigger] self.col(c)[r]
                            == 0u32,
                    forall|c: int|
                        c2 <= c < self.values@.len() ==> #[trigger] self.values@[c]
                            == mid.values@[c],
                decreases n_old - c2,
            {
                let mut z: Vec<u32> = Vec::new();
                while z.len() < target
                    invariant
                        z@.len() <= target,
                        forall|r: int| 0 <= r < z@.len() ==> #[trigger] z@[r] == 0u32,
                    decreases target - z@.len(),
                {
                    z.push(0);
                }
                let ghost zg = z@;
                let ghost vals_prev = self.values@;
                let ghost self_prev = *self;
                self.values[c2] = z;
                c2 += 1;
                proof {
                    assert(self.values@ == vals_prev.update(c2 - 1, z));
                    assert(self.values@[c2 - 1]@ == zg);
                    assert forall|c: int| 0 <= c < c2 implies (#[trigger] self.col(c)).len()
                        == target as int by {
                        if c < c2 - 1 {
                            assert(self_prev.col(c).len() == target as int);
                            assert(self.values@[c] == vals_prev[c]);
                        } else {
                            assert(self.col(c) == zg);
                        }
                    }
                    assert forall|c: int, r: int|
                        0 <= c < c2 && 0 <= r < target as int implies #[trigger] self.col(c)[r]
                        == 0u32 by {
                        if c < c2 - 1 {
                            assert(self_prev.col(c)[r] == 0u32);
                            assert(self.values@[c] == vals_prev[c]);
                        } else {
                            assert(self.col(c) == zg);
                        }
                    }
                }
            }
        }
        proof {
            let post = *self;
            let npre = pre.values@.len() as int;
            if e == 0 {
                assert(pre.keys() + nkeys =~= nkeys);
                assert(pre.meta() + nmeta =~= nmeta);
                assert(scratch + nvals =~= nvals);
                assert(post.rowids == mid.rowids);
                assert(post.keys() == nkeys);
                assert(strict_sorted(post.keys()));
            }
            lemma_strict_sorted_distinct(post.keys());
            // the appended keys hold exactly the old keys plus the
            // sample's nonzero keys
            assert(key_set(mid.keys()) =~= key_set(pre.keys()).union(nonzero_keys(col))) by {
                assert forall|k: Seq<char>| key_set(mid.keys()).contains(k) implies key_set(
                    pre.keys(),
                ).union(nonzero_keys(col)).contains(k) by {
                    let j = choose|j: int| 0 <= j < mid.keys().len() && mid.keys()[j] == k;
                    if j < e as int {
                        assert(pre.keys()[j] == k);
                        assert(has_key(pre.keys(), k));
                    } else {
                        let t = j - e;
                        assert(nkeys[t] == k);
                        assert(col.keys()[nsrc[t]] == k);
                        lemma_idx_of(col.keys(), k, nsrc[t]);
                    }
                }
                assert forall|k: Seq<char>|
                    key_set(pre.keys()).union(nonzero_keys(col)).contains(k) implies key_set(
                    mid.keys(),
                ).contains(k) by {
                    if has_key(pre.keys(), k) {
                        let j = choose|j: int| 0 <= j < pre.keys().len() && pre.keys()[j] == k;
                        assert(mid.keys()[j] == k);
                        assert(has_key(mid.keys(), k));
                    } else {
                        let ii = idx_of(col.keys(), k);
                        assert(col.keys()[ii] == k);
                        assert(has_key(nkeys, col.keys()[ii]));
                        let t = choose|t: int| 0 <= t < nkeys.len() && nkeys[t] == k;
                        assert(mid.keys()[e + t] == k);
                        assert(has_key(mid.keys(), k));
                    }
                }
            }
            assert(key_set(post.keys()) == key_set(mid.keys()));
            // row by row
            assert forall|r: int| 0 <= r < post.nrows() implies #[trigger] merge_row_ok(
                pre,
                col,
                post,
                r,
            ) by {
                let k = post.keys()[r];
                assert(has_key(post.keys(), k));
                assert(key_set(post.keys()).contains(k));
                assert(has_key(mid.keys(), k));
                let j = choose|j: int| 0 <= j < mid.keys().len() && mid.keys()[j] == k;
                if e == 0 {
                    lemma_idx_of(nkeys, k, j);
                    lemma_idx_of(nkeys, k, r);
                    let t = r;
                    assert(!has_key(pre.keys(), k));
                    assert(col.keys()[nsrc[t]] == k);
                    lemma_idx_of(col.keys(), k, nsrc[t]);
                    assert(post.meta()[r] == nmeta[t]);
                    assert(post.meta()[r] == col.meta()[nsrc[t]]);
                    assert forall|c: int| 0 <= c < npre implies #[trigger] post.col(c)[r]
                        == 0u32 by {
                        assert(post.col(c).len() == post.rowids@.len() as int);
                    }
                    assert(post.values@[npre] == mid.values@[npre]);
                    assert(post.col(npre)[r] == nvals[t]);
                    assert(post.col(npre)[r] == sample_value(col, k));
                } else {
                    assert(sorted_row_ok(mid, post, j));
                    lemma_idx_of(post.keys(), k, r);
                    assert(idx_of(post.keys(), mid.keys()[j]) == r);
                    if j < e as int {
                        assert(pre.keys()[j] == k);
                        lemma_idx_of(pre.keys(), k, j);
                        assert(has_key(pre.keys(), k));
                        assert(post.meta()[r] == mid.meta()[j]);
                        assert(mid.meta()[j] == pre.meta()[j]);
                        assert forall|c: int| 0 <= c < npre implies #[trigger] post.col(c)[r]
                            == pre.col(c)[j] by {
                            assert(mid.values@[c] == pre.values@[c]);
                            assert(mid.col(c) == pre.col(c));
                            assert(pre.col(c).len() == pre.nrows());
                            assert(mid.col(c).len() == e as int);
                            assert(post.col(c)[idx_of(post.keys(), mid.keys()[j])] == (
                            if j < mid.col(c).len() {
                                mid.col(c)[j]
                            } else {
                                0u32
                            }));
                        }
                        assert(post.col(npre)[idx_of(post.keys(), mid.keys()[j])] == (
                        if j < mid.col(npre).len() {
                            mid.col(npre)[j]
                        } else {
                            0u32
                        }));
                        assert(mid.col(npre) == scratch + nvals);
                        assert(mid.col(npre)[j] == scratch[j]);
                        assert(post.col(npre)[r] == sample_value(col, k));
                    } else {
                        let t = j - e;
                        assert(nkeys[t] == k);
                        assert(col.keys()[nsrc[t]] == k);
                        assert(!has_key(pre.keys(), k));
                        lemma_idx_of(col.keys(), k, nsrc[t]);
                        assert(post.meta()[r] == mid.meta()[j]);
                        assert(mid.meta()[j] == nmeta[t]);
                        assert forall|c: int| 0 <= c < npre implies #[trigger] post.col(c)[r]
                            == 0u32 by {
                            assert(mid.values@[c] == pre.values@[c]);
                            assert(mid.col(c) == pre.col(c));
                            assert(pre.col(c).len() == pre.nrows());
                            assert(mid.col(c).len() == e as int);
                            assert(post.col(c)[idx_of(post.keys(), mid.keys()[j])] == (
                            if j < mid.col(c).len() {
                                mid.col(c)[j]
                            } else {
                                0u32
                            }));
                        }
                        assert(post.col(npre)[idx_of(post.keys(), mid.keys()[j])] == (
                        if j < mid.col(npre).len() {
                            mid.col(npre)[j]
                        } else {
                            0u32
                        }));
                        assert(mid.col(npre) == scratch + nvals);
                        assert(mid.col(npre)[j] == nvals[t]);
                        assert(post.col(npre)[r] == sample_value(col, k));
                    }
                }
                assert(merge_row_ok(pre, col, post, r));
            }
            assert(post.colids == mid.colids);
            assert(post.colids.deep_view() == pre.colids.deep_view().push(col.colid@));
            assert forall|c: int| 0 <= c < post.ncols() implies (#[trigger] post.col(c)).len()
                == post.nrows() by {
                if e == 0 && c == npre {
                    assert(post.values@[npre] == mid.values@[npre]);
                }
            }
            assert(post.wf());
            assert(merge_spec(pre, col, post));
        }
    }
}

/// Whether `j` occurs in the position sequence `srcs`.
pub open spec fn in_positions(srcs: Seq<usize>, j: int) -> bool {
    exists|r: int| 0 <= r < srcs.len() && #[trigger] srcs[r] == j
}

/// One step of the two-run merge keeps the output sorted and below both
/// unconsumed runs: pushing the key at `src` (the next of one run, below
/// the next of the other) preserves every ordering invariant.
proof fn sort_merge_step(
    pre: WideData,
    e: int,
    total: int,
    ids_prev: Seq<Seq<char>>,
    src: int,
    a: int,
    b: int,
    from_head: bool,
)
    requires
        0 < e <= total,
        total == pre.rowids@.len(),
        0 <= a <= e,
        e <= b <= total,
        from_head ==> src == a && a < e,
        !from_head ==> src == b && b < total,
        forall|p: int, q: int|
            0 <= p < q < e ==> lex_lt(#[trigger] pre.keys()[p], #[trigger] pre.keys()[q]),
        forall|p: int, q: int|
            e <= p < q < total ==> lex_lt(#[trigger] pre.keys()[p], #[trigger] pre.keys()[q]),
        forall|p: int, q: int|
            0 <= p < e && e <= q < total ==> #[trigger] pre.keys()[p] != #[trigger] pre.keys()[q],
        forall|r: int, p: int|
            0 <= r < ids_prev.len() && a <= p < e ==> lex_lt(
                #[trigger] ids_prev[r],
                #[trigger] pre.keys()[p],
            ),
        forall|r: int, p: int|
            0 <= r < ids_prev.len() && b <= p < total ==> lex_lt(
                #[trigger] ids_prev[r],
                #[trigger] pre.keys()[p],
            ),
        strict_sorted(ids_prev),
        from_head ==> (b == total || lex_lt(pre.keys()[a], pre.keys()[b])),
        !from_head ==> (a == e || lex_lt(pre.keys()[b], pre.keys()[a])),
    ensures
        strict_sorted(ids_prev.push(pre.keys()[src])),
        forall|r: int, p: int|
            0 <= r < ids_prev.len() + 1 && (if from_head {
                a + 1
            } else {
                a
            }) <= p < e ==> lex_lt(
                #[trigger] ids_prev.push(pre.keys()[src])[r],
                #[trigger] pre.keys()[p],
            ),
        forall|r: int, p: int|
            0 <= r < ids_prev.len() + 1 && (if from_head {
                b
            } else {
                b + 1
            }) <= p < total ==> lex_lt(
                #[trigger] ids_prev.push(pre.keys()[src])[r],
                #[trigger] pre.keys()[p],
            ),
{
    let k = pre.keys()[src];
    let out = ids_prev.push(k);
    assert forall|i: int, j: int| 0 <= i < j < out.len() implies lex_lt(
        #[trigger] out[i],
        #[trigger] out[j],
    ) by {
        if j < ids_prev.len() {
            assert(out[i] == ids_prev[i] && out[j] == ids_prev[j]);
        } else {
            assert(out[i] == ids_prev[i] && out[j] == k);
        }
    }
    let a2: int = if from_head {
        a + 1
    } else {
        a
    };
    let b2: int = if from_head {
        b
    } else {
        b + 1
    };
    assert forall|r: int, p: int| 0 <= r < out.len() && a2 <= p < e implies lex_lt(
        #[trigger] out[r],
        #[trigger] pre.keys()[p],
    ) by {
        if r < ids_prev.len() {
            assert(lex_lt(ids_prev[r], pre.keys()[p]));
        } else {
            // out[r] is the key at src
            if from_head {
                assert(lex_lt(pre.keys()[a], pre.keys()[p]));
            } else {
                if p == a {
                    assert(lex_lt(pre.keys()[b], pre.keys()[a]));
                } else {
                    assert(lex_lt(pre.keys()[b], pre.keys()[a]));
                    assert(lex_lt(pre.keys()[a], pre.keys()[p]));
                    lemma_lex_lt_transitive(pre.keys()[b], pre.keys()[a], pre.keys()[p]);
                }
            }
        }
    }
    assert forall|r: int, p: int| 0 <= r < out.len() && b2 <= p < total implies lex_lt(
        #[trigger] out[r],
        #[trigger] pre.keys()[p],
    ) by {
        if r < ids_prev.len() {
            assert(lex_lt(ids_prev[r], pre.keys()[p]));
        } else {
            if !from_head {
                assert(lex_lt(pre.keys()[b], pre.keys()[p]));
            } else {
                if p == b {
                    assert(lex_lt(pre.keys()[a], pre.keys()[b]));
                } else {
                    assert(lex_lt(pre.keys()[a], pre.keys()[b]));
                    assert(lex_lt(pre.keys()[b], pre.keys()[p]));
                    lemma_lex_lt_transitive(pre.keys()[a], pre.keys()[b], pre.keys()[p]);
                }
            }
        }
    }
}

/// Copy a vector of strings; the view of the copy is the view of the
/// original.
#[verifier::loop_isolation(false)]
fn clone_string_vec(v: &Vec<String>) -> (r: Vec<String>)
    ensures
        r.deep_view() == v.deep_view(),
        r@.len() == v@.len(),
{
    let mut r: Vec<String> = Vec::new();
    let mut i: usize = 0;
    while i < v.len()
        invariant
            i <= v@.len(),
            r@.len() == i,
            forall|p: int| 0 <= p < i ==> #[trigger] r@[p]@ == v@[p]@,
        decreases v@.len() - i,
    {
        let x = v[i].clone();
        assert(x@ == v@[i as int]@);
        r.push(x);
        i += 1;
    }
    proof {
        assert forall|p: int| 0 <= p < v@.len() implies r.deep_view()[p] == v.deep_view()[p] by {
            assert(r.deep_view()[p] == r@[p].deep_view());
            assert(r@[p].deep_view() == r@[p]@);
            assert(v.deep_view()[p] == v@[p].deep_view());
            assert(v@[p].deep_view() == v@[p]@);
        }
        assert(r.deep_view() =~= v.deep_view());
    }
    r
}

/// Copy a vector of metadata rows; the deep view of the copy is the deep
/// view of the original.
#[verifier::loop_isolation(false)]
fn clone_meta_vec(v: &Vec<Vec<String>>) -> (r: Vec<Vec<String>>)
    ensures
        r.deep_view() == v.deep_view(),
        r@.len() == v@.len(),
{
    let mut r: Vec<Vec<String>> = Vec::new();
    let mut i: usize = 0;
    while i < v.len()
        invariant
            i <= v@.len(),
            r@.len() == i,
            forall|p: int| 0 <= p < i ==> #[trigger] r@[p].deep_view() == v@[p].deep_view(),
        decreases v@.len() - i,
    {
        let x = clone_string_vec(&v[i]);
        r.push(x);
        i += 1;
    }
    proof {
        assert forall|p: int| 0 <= p < v@.len() implies r.deep_view()[p] == v.deep_view()[p] by {
            assert(r.deep_view()[p] == r@[p].deep_view());
            assert(v.deep_view()[p] == v@[p].deep_view());
        }
        assert(r.deep_view() =~= v.deep_view());
    }
    r
}

/// Copy a vector of value bit patterns.
#[verifier::loop_isolation(false)]
fn clone_u32_vec(v: &Vec<u32>) -> (r: Vec<u32>)
    ensures
        r@ == v@,
{
    let mut r: Vec<u32> = Vec::new();
    let mut i: usize = 0;
    while i < v.len()
        invariant
            i <= v@.len(),
            r@.len() == i,
            forall|p: int| 0 <= p < i ==> #[trigger] r@[p] == v@[p],
        decreases v@.len() - i,
    {
        r.push(v[i]);
        i += 1;
    }
    proof {
        assert(r@ =~= v@);
    }
    r
}

/// A vector of strings, seen deeply, reads its element's characters.
proof fn lemma_dv_index(v: Vec<String>, i: int)
    requires
        0 <= i < v@.len(),
    ensures
        v.deep_view()[i] == v@[i]@,
{
    assert(v.deep_view()[i] == v@[i].deep_view());
    assert(v@[i].deep_view() == v@[i]@);
}

/// A vector of string vectors, seen deeply, reads its element deeply.
proof fn lemma_dv2_index(v: Vec<Vec<String>>, i: int)
    requires
        0 <= i < v@.len(),
    ensures
        v.deep_view()[i] == v@[i].deep_view(),
{
    assert(v.deep_view()[i] == v@[i].deep_view());
}

/// Pushing a string extends the deep view by the string's characters.
proof fn lemma_dv_push(prev: Vec<String>, cur: Vec<String>, x: String)
    requires
        cur@ == prev@.push(x),
    ensures
        cur.deep_view() == prev.deep_view().push(x@),
{
    assert forall|i: int| 0 <= i < cur@.len() implies cur.deep_view()[i] == prev.deep_view().push(
        x@,
    )[i] by {
        assert(cur.deep_view()[i] == cur@[i].deep_view());
        if i < prev@.len() {
            assert(prev.deep_view()[i] == prev@[i].deep_view());
            assert(cur@[i] == prev@[i]);
        } else {
            assert(cur@[i] == x);
            assert(x.deep_view() == x@);
        }
    }
    assert(cur.deep_view() =~= prev.deep_view().push(x@));
}

/// Pushing a metadata row extends the deep view by the row's deep view.
proof fn lemma_dv2_push(prev: Vec<Vec<String>>, cur: Vec<Vec<String>>, x: Vec<String>)
    requires
        cur@ == prev@.push(x),
    ensures
        cur.deep_view() == prev.deep_view().push(x.deep_view()),
{
    assert forall|i: int| 0 <= i < cur@.len() implies cur.deep_view()[i]
        == prev.deep_view().push(x.deep_view())[i] by {
        assert(cur.deep_view()[i] == cur@[i].deep_view());
        if i < prev@.len() {
            assert(prev.deep_view()[i] == prev@[i].deep_view());
            assert(cur@[i] == prev@[i]);
        } else {
            assert(cur@[i] == x);
        }
    }
    assert(cur.deep_view() =~= prev.deep_view().push(x.deep_view()));
}

} // verus!
