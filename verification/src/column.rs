//! One sample's sparse measurement set: parallel vectors of feature key,
//! metadata and value, built in file order and sorted by key before the
//! merge consumes them.

use vstd::prelude::*;

use crate::keyorder::lemma_lex_lt_irreflexive;
use crate::keyorder::lemma_lex_lt_transitive;
use crate::keyorder::lemma_lex_lt_trichotomy;
use crate::keyorder::lex_lt;
use crate::keyorder::sorted_le;
use crate::keyorder::str_lt;
use crate::keyorder::strict_sorted;

verus! {

/// A measurement value, carried as the bit pattern of an IEEE 754
/// single-precision number. The merge never computes with values; the one
/// thing it reads is whether a value is plus or minus zero, which the bit
/// pattern decides exactly.
pub open spec fn value_is_zero(bits: u32) -> bool {
    bits == 0u32 || bits == 0x8000_0000u32
}

/// Whether a value's bit pattern encodes plus or minus zero.
pub fn is_zero_value(bits: u32) -> (r: bool)
    ensures
        r == value_is_zero(bits),
{
    bits == 0 || bits == 0x8000_0000
}

/// Parallel sequences of keys, metadata and values, zipped into one
/// sequence of row triples.
pub open spec fn rows_of(
    ids: Seq<Seq<char>>,
    meta: Seq<Seq<Seq<char>>>,
    vals: Seq<u32>,
) -> Seq<(Seq<char>, Seq<Seq<char>>, u32)> {
    Seq::new(ids.len(), |i: int| (ids[i], meta[i], vals[i]))
}

/// `post` is `pre` rearranged by the index map `p`: a bijection on row
/// positions under which row `i` of `post` is row `p[i]` of `pre`, and
/// which is monotone wherever two rows share a key — so equal-key rows
/// keep their input order, the mark of a stable sort.
pub open spec fn stable_reorder(p: Seq<int>, pre: LongData, post: LongData) -> bool {
    &&& p.len() == pre.rowids@.len()
    &&& post.rowids@.len() == p.len()
    &&& forall|i: int| 0 <= i < p.len() ==> 0 <= #[trigger] p[i] < p.len()
    &&& forall|i: int, j: int| 0 <= i < j < p.len() ==> #[trigger] p[i] != #[trigger] p[j]
    &&& forall|i: int| 0 <= i < p.len() ==> #[trigger] post.rows()[i] == pre.rows()[p[i]]
    &&& forall|i: int, j: int|
        0 <= i < j < p.len() && post.keys()[i] == post.keys()[j] ==> #[trigger] p[i]
            < #[trigger] p[j]
}

/// One sample's measurements in long form, one slot per observed feature.
pub struct LongData {
    /// Feature keys, one per row.
    pub rowids: Vec<String>,
    /// The sample's identifier: the column header it will carry in the
    /// wide table.
    pub colid: String,
    /// Metadata fields per row; adopted by whichever sample first
    /// introduces the key and never updated afterwards.
    pub metadata: Vec<Vec<String>>,
    /// Value bit patterns per row (see [`value_is_zero`]).
    pub values: Vec<u32>,
}

impl LongData {
    /// The feature keys as character sequences.
    pub open spec fn keys(self) -> Seq<Seq<char>> {
        self.rowids.deep_view()
    }

    /// The metadata fields as character sequences.
    pub open spec fn meta(self) -> Seq<Seq<Seq<char>>> {
        self.metadata.deep_view()
    }

    /// The parallel vectors agree in length.
    pub open spec fn wf(self) -> bool {
        self.metadata@.len() == self.rowids@.len() && self.values@.len() == self.rowids@.len()
    }

    /// Keys strictly ascending, hence unique: the form the merge requires.
    pub open spec fn sorted_strict(self) -> bool {
        strict_sorted(self.keys())
    }

    /// The rows as one sequence of (key, metadata, value) triples.
    pub open spec fn rows(self) -> Seq<(Seq<char>, Seq<Seq<char>>, u32)> {
        rows_of(self.keys(), self.meta(), self.values@)
    }

    pub fn new(colid: String) -> (r: Self)
        ensures
            r.wf(),
            r.rowids@.len() == 0,
            r.colid == colid,
    {
        Self { rowids: Vec::new(), colid, metadata: Vec::new(), values: Vec::new() }
    }

    /// Append one row; rows may arrive in any key order.
    pub fn add_row(&mut self, rowid: String, metadata: Vec<String>, value: u32)
        requires
            old(self).wf(),
        ensures
            final(self).wf(),
            final(self).colid == old(self).colid,
            final(self).keys() == old(self).keys().push(rowid@),
            final(self).meta() == old(self).meta().push(metadata.deep_view()),
            final(self).values@ == old(self).values@.push(value),
    {
        let ghost md = metadata.deep_view();
        let ghost rid = rowid@;
        self.rowids.push(rowid);
        self.metadata.push(metadata);
        self.values.push(value);
        proof {
            assert(self.keys() =~= old(self).keys().push(rid));
            assert(self.meta() =~= old(self).meta().push(md));
        }
    }

    pub fn len(&self) -> (n: usize)
        ensures
            n == self.rowids@.len(),
    {
        self.rowids.len()
    }

    /// Whether the keys are strictly ascending: the check a caller makes
    /// before handing the sample to the merge, since a sample holding the
    /// same key twice has no defined merge result.
    pub fn is_strictly_sorted(&self) -> (r: bool)
        ensures
            r == self.sorted_strict(),
    {
        let n = self.rowids.len();
        if n == 0 {
            return true;
        }
        let mut i: usize = 1;
        while i < n
            invariant
                1 <= i <= n,
                n == self.rowids@.len(),
                forall|p: int, q: int|
                    0 <= p < q < i ==> lex_lt(#[trigger] self.keys()[p], #[trigger] self.keys()[q]),
            decreases n - i,
        {
            let sorted_here = str_lt(&self.rowids[i - 1], &self.rowids[i]);
            proof {
                assert(self.rowids@[i - 1]@ == self.keys()[i - 1]);
                assert(self.rowids@[i as int]@ == self.keys()[i as int]);
            }
            if !sorted_here {
                return false;
            }
            proof {
                assert forall|p: int| 0 <= p < i implies lex_lt(
                    #[trigger] self.keys()[p],
                    self.keys()[i as int],
                ) by {
                    if p < i - 1 {
                        lemma_lex_lt_transitive(
                            self.keys()[p],
                            self.keys()[i - 1],
                            self.keys()[i as int],
                        );
                    }
                }
            }
            i += 1;
        }
        true
    }

    /// Sort the rows by key, ascending and stable: the three parallel
    /// vectors move together, so each (key, metadata, value) triple is
    /// preserved, and rows that share a key keep their input order.
    pub fn sort(&mut self)
        requires
            old(self).wf(),
        ensures
            final(self).wf(),
            final(self).colid == old(self).colid,
            final(self).rowids@.len() == old(self).rowids@.len(),
            final(self).rows().to_multiset() == old(self).rows().to_multiset(),
            sorted_le(final(self).keys()),
            exists|p: Seq<int>| stable_reorder(p, *old(self), *final(self)),
    {
        broadcast use vstd::seq_lib::group_to_multiset_ensures;
        broadcast use vstd::multiset::group_multiset_axioms;

        let ghost orig = *self;
        let mut out_ids: Vec<String> = Vec::new();
        let mut out_meta: Vec<Vec<String>> = Vec::new();
        let mut out_vals: Vec<u32> = Vec::new();
        // ghost bookkeeping: `rem[p]` is the input position of the row now
        // at position `p`, and `srcs[t]` the input position of output row `t`
        let ghost mut rem: Seq<int> = Seq::new(orig.rowids@.len() as nat, |i: int| i);
        let ghost mut srcs: Seq<int> = Seq::empty();
        while self.rowids.len() > 0
            invariant
                self.wf(),
                self.colid == orig.colid,
                out_meta@.len() == out_ids@.len(),
                out_vals@.len() == out_ids@.len(),
                out_ids@.len() + self.rowids@.len() == orig.rowids@.len(),
                rows_of(out_ids.deep_view(), out_meta.deep_view(), out_vals@).to_multiset().add(
                    self.rows().to_multiset(),
                ) == orig.rows().to_multiset(),
                sorted_le(out_ids.deep_view()),
                forall|t: int, p: int|
                    0 <= t < out_ids@.len() && 0 <= p < self.rowids@.len() ==> !lex_lt(
                        #[trigger] self.keys()[p],
                        #[trigger] out_ids.deep_view()[t],
                    ),
                rem.len() == self.rowids@.len(),
                srcs.len() == out_ids@.len(),
                forall|p: int| 0 <= p < rem.len() ==> 0 <= #[trigger] rem[p] < orig.rowids@.len(),
                forall|p1: int, p2: int|
                    0 <= p1 < p2 < rem.len() ==> #[trigger] rem[p1] < #[trigger] rem[p2],
                forall|p: int|
                    0 <= p < rem.len() ==> #[trigger] self.rows()[p] == orig.rows()[rem[p]],
                forall|t: int| 0 <= t < srcs.len() ==> 0 <= #[trigger] srcs[t] < orig.rowids@.len(),
                forall|t: int|
                    0 <= t < srcs.len() ==> #[trigger] rows_of(
                        out_ids.deep_view(),
                        out_meta.deep_view(),
                        out_vals@,
                    )[t] == orig.rows()[srcs[t]],
                forall|t: int, p: int|
                    0 <= t < srcs.len() && 0 <= p < rem.len() ==> #[trigger] srcs[t]
                        != #[trigger] rem[p],
                forall|t1: int, t2: int|
                    0 <= t1 < t2 < srcs.len() ==> #[trigger] srcs[t1] != #[trigger] srcs[t2],
                forall|t1: int, t2: int|
                    0 <= t1 < t2 < srcs.len() && out_ids.deep_view()[t1] == out_ids.deep_view()[t2]
                        ==> #[trigger] srcs[t1] < #[trigger] srcs[t2],
                forall|t: int, p: int|
                    0 <= t < srcs.len() && 0 <= p < rem.len() && out_ids.deep_view()[t]
                        == self.keys()[p] ==> #[trigger] srcs[t] < #[trigger] rem[p],
            decreases self.rowids@.len(),
        {
            // select the first row whose key is minimal among the rest
            let mut best: usize = 0;
            let mut j: usize = 1;
            proof {
                lemma_lex_lt_irreflexive(self.keys()[0]);
            }
            while j < self.rowids.len()
                invariant
                    self.rowids@.len() > 0,
                    best < j,
                    1 <= j <= self.rowids@.len(),
                    forall|p: int|
                        0 <= p < j ==> !lex_lt(#[trigger] self.keys()[p], self.keys()[best as int]),
                    forall|p: int|
                        0 <= p < best ==> lex_lt(self.keys()[best as int], #[trigger] self.keys()[p]),
                decreases self.rowids@.len() - j,
            {
                let smaller = str_lt(&self.rowids[j], &self.rowids[best]);
                proof {
                    assert(self.rowids@[j as int]@ == self.keys()[j as int]);
                    assert(self.rowids@[best as int]@ == self.keys()[best as int]);
                }
                if smaller {
                    proof {
                        assert forall|p: int| 0 <= p < j implies !lex_lt(
                            #[trigger] self.keys()[p],
                            self.keys()[j as int],
                        ) by {
                            if lex_lt(self.keys()[p], self.keys()[j as int]) {
                                lemma_lex_lt_transitive(
                                    self.keys()[p],
                                    self.keys()[j as int],
                                    self.keys()[best as int],
                                );
                            }
                        }
                        // the new minimum is strictly below every earlier key
                        assert forall|p: int| 0 <= p < j implies lex_lt(
                            self.keys()[j as int],
                            #[trigger] self.keys()[p],
                        ) by {
                            if p < best {
                                lemma_lex_lt_transitive(
                                    self.keys()[j as int],
                                    self.keys()[best as int],
                                    self.keys()[p],
                                );
                            } else if p > best {
                                lemma_lex_lt_trichotomy(
                                    self.keys()[p],
                                    self.keys()[best as int],
                                );
                                if lex_lt(self.keys()[best as int], self.keys()[p]) {
                                    lemma_lex_lt_transitive(
                                        self.keys()[j as int],
                                        self.keys()[best as int],
                                        self.keys()[p],
                                    );
                                }
                            }
                        }
                    }
                    best = j;
                }
                proof {
                    lemma_lex_lt_irreflexive(self.keys()[best as int]);
                }
                j += 1;
            }
            let ghost before = *self;
            let ghost out_before = rows_of(out_ids.deep_view(), out_meta.deep_view(), out_vals@);
            let ghost ids_before_dv = out_ids.deep_view();
            let ghost meta_before_dv = out_meta.deep_view();
            let ghost out_len = out_ids@.len() as int;
            let ghost elem = before.rows()[best as int];
            let ghost rem_before = rem;
            let ghost srcs_before = srcs;
            let k = self.rowids.remove(best);
            let m = self.metadata.remove(best);
            let v = self.values.remove(best);
            out_ids.push(k);
            out_meta.push(m);
            out_vals.push(v);
            proof {
                broadcast use vstd::multiset::group_multiset_axioms;

                vstd::seq_lib::to_multiset_remove(before.rows(), best as int);
                vstd::seq_lib::to_multiset_build(out_before, elem);
                vstd::seq_lib::to_multiset_contains(before.rows(), elem);
                assert(k@ == before.keys()[best as int]);
                assert(m.deep_view() == before.meta()[best as int]);
                assert(self.rows() =~= before.rows().remove(best as int)) by {
                    assert forall|p: int| 0 <= p < self.rowids@.len() implies self.rows()[p]
                        == before.rows().remove(best as int)[p] by {
                        if p < best {
                            assert(self.rowids@[p] == before.rowids@[p]);
                            assert(self.metadata@[p] == before.metadata@[p]);
                            assert(self.values@[p] == before.values@[p]);
                        } else {
                            assert(self.rowids@[p] == before.rowids@[p + 1]);
                            assert(self.metadata@[p] == before.metadata@[p + 1]);
                            assert(self.values@[p] == before.values@[p + 1]);
                        }
                    }
                }
                assert(rows_of(out_ids.deep_view(), out_meta.deep_view(), out_vals@) =~= out_before.push(elem)) by {
                    assert forall|t: int| 0 <= t < out_len + 1 implies rows_of(
                        out_ids.deep_view(),
                        out_meta.deep_view(),
                        out_vals@,
                    )[t] == out_before.push(elem)[t] by {
                        if t < out_len {
                            assert(out_ids.deep_view()[t] == ids_before_dv[t]);
                            assert(out_meta.deep_view()[t] == meta_before_dv[t]);
                        } else {
                            assert(out_ids.deep_view()[t] == k@);
                            assert(out_meta.deep_view()[t] == m.deep_view());
                        }
                    }
                }
                assert(out_ids.deep_view() =~= ids_before_dv.push(before.keys()[best as int]));
                assert(before.rows().contains(elem)) by {
                    assert(before.rows()[best as int] == elem);
                }
                assert(before.rows().to_multiset().count(elem) > 0);
                assert(before.rows().remove(best as int).to_multiset() == before.rows().to_multiset().remove(elem));
                assert(out_before.push(elem).to_multiset() == out_before.to_multiset().insert(elem));
                assert(self.rows().to_multiset() == before.rows().to_multiset().remove(elem));
                assert(rows_of(out_ids.deep_view(), out_meta.deep_view(), out_vals@).to_multiset()
                    == out_before.to_multiset().insert(elem));
                assert(rows_of(out_ids.deep_view(), out_meta.deep_view(), out_vals@).to_multiset().add(
                    self.rows().to_multiset(),
                ) =~= orig.rows().to_multiset());
                // the row that moved out is no smaller than anything already
                // out, and no bigger than anything still in
                assert forall|t: int, p: int|
                    0 <= t < out_ids@.len() && 0 <= p < self.rowids@.len() implies !lex_lt(
                        #[trigger] self.keys()[p],
                        #[trigger] out_ids.deep_view()[t],
                    ) by {
                    if p < best {
                        assert(self.keys()[p] == before.keys()[p]);
                    } else {
                        assert(self.keys()[p] == before.keys()[p + 1]);
                    }
                    if t < out_len {
                        assert(out_ids.deep_view()[t] == ids_before_dv[t]);
                    } else {
                        assert(out_ids.deep_view()[t] == before.keys()[best as int]);
                    }
                }
                assert forall|t1: int, t2: int| 0 <= t1 < t2 < out_ids@.len() implies !lex_lt(
                    #[trigger] out_ids.deep_view()[t2],
                    #[trigger] out_ids.deep_view()[t1],
                ) by {
                    if t2 < out_len {
                        assert(out_ids.deep_view()[t1] == ids_before_dv[t1]);
                        assert(out_ids.deep_view()[t2] == ids_before_dv[t2]);
                    } else {
                        assert(out_ids.deep_view()[t1] == ids_before_dv[t1]);
                        assert(out_ids.deep_view()[t2] == before.keys()[best as int]);
                    }
                }
            }
            proof {
                srcs = srcs_before.push(rem_before[best as int]);
                rem = rem_before.remove(best as int);
                let bsrc = rem_before[best as int];
                // input positions of the remaining rows
                assert forall|p: int| 0 <= p < rem.len() implies 0 <= #[trigger] rem[p]
                    < orig.rowids@.len() by {
                    if p < best {
                        assert(rem[p] == rem_before[p]);
                    } else {
                        assert(rem[p] == rem_before[p + 1]);
                    }
                }
                assert forall|p1: int, p2: int| 0 <= p1 < p2 < rem.len() implies #[trigger] rem[p1]
                    < #[trigger] rem[p2] by {
                    let q1: int = if p1 < best { p1 } else { p1 + 1 };
                    let q2: int = if p2 < best { p2 } else { p2 + 1 };
                    assert(rem[p1] == rem_before[q1]);
                    assert(rem[p2] == rem_before[q2]);
                }
                assert forall|p: int| 0 <= p < rem.len() implies #[trigger] self.rows()[p]
                    == orig.rows()[rem[p]] by {
                    if p < best {
                        assert(self.rows()[p] == before.rows()[p]);
                        assert(rem[p] == rem_before[p]);
                    } else {
                        assert(self.rows()[p] == before.rows()[p + 1]);
                        assert(rem[p] == rem_before[p + 1]);
                    }
                }
                // input positions of the output rows
                assert forall|t: int| 0 <= t < srcs.len() implies 0 <= #[trigger] srcs[t]
                    < orig.rowids@.len() by {
                    if t < out_len {
                        assert(srcs[t] == srcs_before[t]);
                    } else {
                        assert(srcs[t] == bsrc);
                    }
                }
                assert forall|t: int| 0 <= t < srcs.len() implies #[trigger] rows_of(
                    out_ids.deep_view(),
                    out_meta.deep_view(),
                    out_vals@,
                )[t] == orig.rows()[srcs[t]] by {
                    if t < out_len {
                        assert(rows_of(out_ids.deep_view(), out_meta.deep_view(), out_vals@)[t]
                            == out_before[t]);
                        assert(srcs[t] == srcs_before[t]);
                    } else {
                        assert(rows_of(out_ids.deep_view(), out_meta.deep_view(), out_vals@)[t]
                            == elem);
                        assert(srcs[t] == bsrc);
                        assert(before.rows()[best as int] == orig.rows()[bsrc]);
                    }
                }
                // a row is either still in or already out, never both
                assert forall|t: int, p: int|
                    0 <= t < srcs.len() && 0 <= p < rem.len() implies #[trigger] srcs[t]
                    != #[trigger] rem[p] by {
                    let q: int = if p < best { p } else { p + 1 };
                    assert(rem[p] == rem_before[q]);
                    if t < out_len {
                        assert(srcs[t] == srcs_before[t]);
                        assert(srcs_before[t] != rem_before[q]);
                    } else {
                        assert(srcs[t] == bsrc);
                        if q < best {
                            assert(rem_before[q] < rem_before[best as int]);
                        } else {
                            assert(rem_before[best as int] < rem_before[q]);
                        }
                    }
                }
                assert forall|t1: int, t2: int| 0 <= t1 < t2 < srcs.len() implies #[trigger] srcs[t1]
                    != #[trigger] srcs[t2] by {
                    if t2 < out_len {
                        assert(srcs[t1] == srcs_before[t1]);
                        assert(srcs[t2] == srcs_before[t2]);
                    } else {
                        assert(srcs[t1] == srcs_before[t1]);
                        assert(srcs[t2] == bsrc);
                        assert(srcs_before[t1] != rem_before[best as int]);
                    }
                }
                // rows that share a key keep their input order: among the
                // output rows ...
                assert forall|t1: int, t2: int|
                    0 <= t1 < t2 < srcs.len() && out_ids.deep_view()[t1] == out_ids.deep_view()[t2]
                    implies #[trigger] srcs[t1] < #[trigger] srcs[t2] by {
                    if t2 < out_len {
                        assert(out_ids.deep_view()[t1] == ids_before_dv[t1]);
                        assert(out_ids.deep_view()[t2] == ids_before_dv[t2]);
                        assert(srcs[t1] == srcs_before[t1]);
                        assert(srcs[t2] == srcs_before[t2]);
                    } else {
                        assert(out_ids.deep_view()[t1] == ids_before_dv[t1]);
                        assert(out_ids.deep_view()[t2] == before.keys()[best as int]);
                        assert(srcs[t1] == srcs_before[t1]);
                        assert(srcs[t2] == bsrc);
                        assert(srcs_before[t1] < rem_before[best as int]);
                    }
                }
                // ... and between an output row and a remaining one
                assert forall|t: int, p: int|
                    0 <= t < srcs.len() && 0 <= p < rem.len() && out_ids.deep_view()[t]
                        == self.keys()[p] implies #[trigger] srcs[t] < #[trigger] rem[p] by {
                    let q: int = if p < best { p } else { p + 1 };
                    assert(rem[p] == rem_before[q]);
                    assert(self.keys()[p] == before.keys()[q]);
                    if t < out_len {
                        assert(out_ids.deep_view()[t] == ids_before_dv[t]);
                        assert(srcs[t] == srcs_before[t]);
                        assert(srcs_before[t] < rem_before[q]);
                    } else {
                        assert(out_ids.deep_view()[t] == before.keys()[best as int]);
                        assert(srcs[t] == bsrc);
                        if q < best {
                            // impossible: the selected key is strictly below
                            // every earlier key, yet equals this one
                            assert(lex_lt(before.keys()[best as int], before.keys()[q]));
                            lemma_lex_lt_irreflexive(before.keys()[best as int]);
                        } else {
                            assert(rem_before[best as int] < rem_before[q]);
                        }
                    }
                }
            }
        }
        self.rowids = out_ids;
        self.metadata = out_meta;
        self.values = out_vals;
        proof {
            assert(self.rows() =~= rows_of(self.rowids.deep_view(), self.metadata.deep_view(), self.values@));
            assert(stable_reorder(srcs, orig, *self)) by {
                assert forall|i: int| 0 <= i < srcs.len() implies #[trigger] self.rows()[i]
                    == orig.rows()[srcs[i]] by {
                    assert(rows_of(self.rowids.deep_view(), self.metadata.deep_view(), self.values@)[i]
                        == orig.rows()[srcs[i]]);
                }
            }
            assert(exists|p: Seq<int>| stable_reorder(p, orig, *self));
        }
    }
}

} // verus!
