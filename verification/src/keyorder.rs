//! The order on feature keys: lexicographic comparison of character
//! sequences, together with the facts about sorted key sequences that the
//! merge engine rests on.

use vstd::prelude::*;

verus! {

/// Lexicographic order on character sequences, by code point. This is the
/// order in which every key sequence of the library is kept.
pub open spec fn lex_lt(a: Seq<char>, b: Seq<char>) -> bool
    decreases a.len(),
{
    if b.len() == 0 {
        false
    } else if a.len() == 0 {
        true
    } else if a[0] < b[0] {
        true
    } else if b[0] < a[0] {
        false
    } else {
        lex_lt(a.drop_first(), b.drop_first())
    }
}

/// Relies on `String`'s `<` from std's `PartialOrd`: strings are ordered
/// lexicographically by byte, which for UTF-8 data coincides with
/// lexicographic order on the code points.
#[verifier::external_body]
pub(crate) fn str_lt(a: &String, b: &String) -> (r: bool)
    ensures
        r == lex_lt(a@, b@),
{
    a < b
}

pub proof fn lemma_lex_lt_irreflexive(a: Seq<char>)
    ensures
        !lex_lt(a, a),
    decreases a.len(),
{
    if a.len() > 0 {
        lemma_lex_lt_irreflexive(a.drop_first());
    }
}

pub proof fn lemma_lex_lt_trichotomy(a: Seq<char>, b: Seq<char>)
    ensures
        lex_lt(a, b) || lex_lt(b, a) || a == b,
    decreases a.len(),
{
    reveal_with_fuel(lex_lt, 2);
    if a.len() == 0 && b.len() == 0 {
        assert(a =~= b);
    } else if a.len() > 0 && b.len() > 0 && !(a[0] < b[0]) && !(b[0] < a[0]) {
        assert(a[0] == b[0]);
        lemma_lex_lt_trichotomy(a.drop_first(), b.drop_first());
        assert(lex_lt(a, b) == lex_lt(a.drop_first(), b.drop_first()));
        assert(lex_lt(b, a) == lex_lt(b.drop_first(), a.drop_first()));
        if !lex_lt(a, b) && !lex_lt(b, a) {
            assert(a.drop_first() == b.drop_first());
            assert forall|i: int| 0 <= i < a.len() implies a[i] == b[i] by {
                if i > 0 {
                    assert(a[i] == a.drop_first()[i - 1]);
                    assert(b[i] == b.drop_first()[i - 1]);
                }
            }
            assert(a =~= b);
        }
    }
}

pub proof fn lemma_lex_lt_transitive(a: Seq<char>, b: Seq<char>, c: Seq<char>)
    requires
        lex_lt(a, b),
        lex_lt(b, c),
    ensures
        lex_lt(a, c),
    decreases a.len(),
{
    reveal_with_fuel(lex_lt, 2);
    if a.len() > 0 && b.len() > 0 && c.len() > 0 {
        assert(!(b[0] < a[0]));
        assert(!(c[0] < b[0]));
        if !(a[0] < b[0]) && !(b[0] < c[0]) {
            assert(a[0] == b[0] && b[0] == c[0]);
            assert(lex_lt(a.drop_first(), b.drop_first()));
            assert(lex_lt(b.drop_first(), c.drop_first()));
            lemma_lex_lt_transitive(a.drop_first(), b.drop_first(), c.drop_first());
        }
    }
}

/// Strictly ascending: every earlier key is lexicographically below every
/// later one, so the sequence is also free of duplicates.
pub open spec fn strict_sorted(keys: Seq<Seq<char>>) -> bool {
    forall|i: int, j: int| 0 <= i < j < keys.len() ==> lex_lt(#[trigger] keys[i], #[trigger] keys[j])
}

/// Ascending, duplicates allowed.
pub open spec fn sorted_le(keys: Seq<Seq<char>>) -> bool {
    forall|i: int, j: int| 0 <= i < j < keys.len() ==> !lex_lt(#[trigger] keys[j], #[trigger] keys[i])
}

pub open spec fn has_key(keys: Seq<Seq<char>>, k: Seq<char>) -> bool {
    exists|i: int| 0 <= i < keys.len() && keys[i] == k
}

/// The position of `k` in `keys`; meaningful only when the keys are
/// duplicate-free and `has_key(keys, k)` holds.
pub open spec fn idx_of(keys: Seq<Seq<char>>, k: Seq<char>) -> int {
    choose|i: int| 0 <= i < keys.len() && keys[i] == k
}

pub open spec fn distinct_keys(keys: Seq<Seq<char>>) -> bool {
    forall|i: int, j: int| 0 <= i < j < keys.len() ==> #[trigger] keys[i] != #[trigger] keys[j]
}

pub proof fn lemma_strict_sorted_distinct(keys: Seq<Seq<char>>)
    requires
        strict_sorted(keys),
    ensures
        distinct_keys(keys),
{
    assert forall|i: int, j: int| 0 <= i < j < keys.len() implies #[trigger] keys[i] != #[trigger] keys[j] by {
        lemma_lex_lt_irreflexive(keys[i]);
    }
}

/// In a duplicate-free key sequence, `idx_of` returns the one position a
/// present key occupies.
pub proof fn lemma_idx_of(keys: Seq<Seq<char>>, k: Seq<char>, i: int)
    requires
        distinct_keys(keys),
        0 <= i < keys.len(),
        keys[i] == k,
    ensures
        has_key(keys, k),
        idx_of(keys, k) == i,
{
    assert(has_key(keys, k));
    let j = idx_of(keys, k);
    if j != i {
        assert(keys[i] != keys[j] || keys[j] != keys[i]);
    }
}

/// The set of keys a key sequence holds.
pub open spec fn key_set(keys: Seq<Seq<char>>) -> Set<Seq<char>> {
    Set::new(|k: Seq<char>| has_key(keys, k))
}

/// A strictly sorted key sequence is determined by its key set: two such
/// sequences over the same set are the same sequence.
pub proof fn lemma_strict_sorted_same_set(s1: Seq<Seq<char>>, s2: Seq<Seq<char>>)
    requires
        strict_sorted(s1),
        strict_sorted(s2),
        key_set(s1) == key_set(s2),
    ensures
        s1 == s2,
    decreases s1.len(),
{
    if s1.len() == 0 {
        if s2.len() > 0 {
            assert(key_set(s2).contains(s2[0]));
            assert(key_set(s1).contains(s2[0]));
        }
        assert(s1 =~= s2);
    } else {
        assert(key_set(s1).contains(s1[0]));
        assert(key_set(s2).contains(s1[0]));
        if s2.len() == 0 {
            assert(!has_key(s2, s1[0]));
        }
        // the heads are equal: each head is the minimum of the shared set
        let i2 = choose|i: int| 0 <= i < s2.len() && s2[i] == s1[0];
        assert(key_set(s2).contains(s2[0]));
        assert(key_set(s1).contains(s2[0]));
        let i1 = choose|i: int| 0 <= i < s1.len() && s1[i] == s2[0];
        if i2 > 0 {
            assert(lex_lt(s2[0], s2[i2]));
            if i1 > 0 {
                assert(lex_lt(s1[0], s1[i1]));
                lemma_lex_lt_transitive(s1[0], s2[0], s1[0]);
                lemma_lex_lt_irreflexive(s1[0]);
            }
        }
        assert(s1[0] == s2[0]);
        // the tails carry the same set
        let t1 = s1.drop_first();
        let t2 = s2.drop_first();
        assert forall|k: Seq<char>| key_set(t1).contains(k) implies key_set(t2).contains(k) by {
            let i = choose|i: int| 0 <= i < t1.len() && t1[i] == k;
            assert(s1[i + 1] == k);
            assert(key_set(s1).contains(k));
            assert(key_set(s2).contains(k));
            let j = choose|j: int| 0 <= j < s2.len() && s2[j] == k;
            if j == 0 {
                assert(lex_lt(s1[0], s1[i + 1]));
                lemma_lex_lt_irreflexive(k);
            }
            assert(t2[j - 1] == k);
        }
        assert forall|k: Seq<char>| key_set(t2).contains(k) implies key_set(t1).contains(k) by {
            let i = choose|i: int| 0 <= i < t2.len() && t2[i] == k;
            assert(s2[i + 1] == k);
            assert(key_set(s2).contains(k));
            assert(key_set(s1).contains(k));
            let j = choose|j: int| 0 <= j < s1.len() && s1[j] == k;
            if j == 0 {
                assert(lex_lt(s2[0], s2[i + 1]));
                lemma_lex_lt_irreflexive(k);
            }
            assert(t1[j - 1] == k);
        }
        assert(key_set(t1) =~= key_set(t2));
        assert forall|i: int, j: int| 0 <= i < j < t1.len() implies lex_lt(
            #[trigger] t1[i],
            #[trigger] t1[j],
        ) by {
            assert(lex_lt(s1[i + 1], s1[j + 1]));
        }
        assert forall|i: int, j: int| 0 <= i < j < t2.len() implies lex_lt(
            #[trigger] t2[i],
            #[trigger] t2[j],
        ) by {
            assert(lex_lt(s2[i + 1], s2[j + 1]));
        }
        lemma_strict_sorted_same_set(t1, t2);
        assert(s1.len() == s2.len());
        assert forall|i: int| 0 <= i < s1.len() implies s1[i] == s2[i] by {
            if i > 0 {
                assert(s1[i] == t1[i - 1]);
                assert(s2[i] == t2[i - 1]);
            }
        }
        assert(s1 =~= s2);
    }
}

} // verus!
