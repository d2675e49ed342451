//! Stable insertion sort, keyed by a string drawn from each element.
//!
//! The sort is a spec function, so the canonical order used downstream is a
//! deterministic function of its input; the executable sorts elsewhere in the
//! crate are proved to return exactly this function's value.

use vstd::prelude::*;
use crate::text::{lex_le, lemma_lex_le_total, lemma_lex_le_trans};

verus! {

/// Insert `x` after every leading element whose key precedes or equals `key(x)`.
pub open spec fn insert_by<T>(key: spec_fn(T) -> Seq<char>, x: T, s: Seq<T>) -> Seq<T>
    decreases s.len(),
{
    if s.len() == 0 {
        seq![x]
    } else if lex_le(key(s[0]), key(x)) {
        seq![s[0]] + insert_by(key, x, s.skip(1))
    } else {
        seq![x] + s
    }
}

/// Sort by key, keeping equal keys in input order.
pub open spec fn sort_by_key<T>(key: spec_fn(T) -> Seq<char>, s: Seq<T>) -> Seq<T>
    decreases s.len(),
{
    if s.len() == 0 {
        Seq::empty()
    } else {
        insert_by(key, s.last(), sort_by_key(key, s.drop_last()))
    }
}

/// The keys appear in non-decreasing order.
pub open spec fn sorted_by_key<T>(key: spec_fn(T) -> Seq<char>, s: Seq<T>) -> bool {
    forall|i: int, j: int| 0 <= i < j < s.len() ==> lex_le(key(s[i]), key(s[j]))
}

/// Inserting at the first position whose key does not precede or equal
/// `key(x)` is what `insert_by` does.
pub proof fn lemma_insert_by_at<T>(key: spec_fn(T) -> Seq<char>, x: T, s: Seq<T>, j: int)
    requires
        0 <= j <= s.len(),
        forall|k: int| 0 <= k < j ==> lex_le(key(#[trigger] s[k]), key(x)),
        j < s.len() ==> !lex_le(key(s[j]), key(x)),
    ensures
        insert_by(key, x, s) == s.take(j) + seq![x] + s.skip(j),
    decreases j,
{
    if j == 0 {
        if s.len() == 0 {
            assert(insert_by(key, x, s) =~= s.take(0) + seq![x] + s.skip(0));
        } else {
            assert(!lex_le(key(s[0]), key(x)));
            assert(s.skip(0) =~= s);
            assert(insert_by(key, x, s) =~= s.take(0) + seq![x] + s.skip(0));
        }
    } else {
        assert(lex_le(key(s[0]), key(x)));
        let t = s.skip(1);
        assert(t.len() == s.len() - 1);
        assert forall|k: int| 0 <= k < j - 1 implies lex_le(key(#[trigger] t[k]), key(x)) by {
            assert(t[k] == s[k + 1]);
        }
        if j - 1 < t.len() {
            assert(t[j - 1] == s[j]);
        }
        lemma_insert_by_at(key, x, t, j - 1);
        assert(insert_by(key, x, s) == seq![s[0]] + (t.take(j - 1) + seq![x] + t.skip(j - 1)));
        assert(seq![s[0]] + (t.take(j - 1) + seq![x] + t.skip(j - 1)) =~= s.take(j) + seq![x]
            + s.skip(j)) by {
            assert(t.take(j - 1).len() == j - 1);
            assert(t.skip(j - 1).len() == t.len() - (j - 1));
            assert forall|k: int| 0 <= k < j - 1 implies #[trigger] t.take(j - 1)[k] == s[k + 1] by {
                assert(t.take(j - 1)[k] == t[k]);
            }
            assert forall|k: int| 0 <= k < t.len() - (j - 1) implies #[trigger] t.skip(j - 1)[k]
                == s[k + j] by {
                assert(t.skip(j - 1)[k] == t[k + j - 1]);
            }
            assert forall|k: int| 0 <= k < j implies #[trigger] s.take(j)[k] == s[k] by {}
            assert forall|k: int| 0 <= k < s.len() - j implies #[trigger] s.skip(j)[k]
                == s[k + j] by {}
        }
    }
}

/// `insert_by` adds one element.
pub proof fn lemma_insert_by_len<T>(key: spec_fn(T) -> Seq<char>, x: T, s: Seq<T>)
    ensures
        insert_by(key, x, s).len() == s.len() + 1,
    decreases s.len(),
{
    if s.len() > 0 && lex_le(key(s[0]), key(x)) {
        lemma_insert_by_len(key, x, s.skip(1));
    }
}

/// `sort_by_key` keeps the length.
pub proof fn lemma_sort_by_key_len<T>(key: spec_fn(T) -> Seq<char>, s: Seq<T>)
    ensures
        sort_by_key(key, s).len() == s.len(),
    decreases s.len(),
{
    if s.len() > 0 {
        lemma_sort_by_key_len(key, s.drop_last());
        lemma_insert_by_len(key, s.last(), sort_by_key(key, s.drop_last()));
    }
}

/// Inserting into a sorted sequence keeps it sorted.
pub proof fn lemma_insert_by_sorted<T>(key: spec_fn(T) -> Seq<char>, x: T, s: Seq<T>)
    requires
        sorted_by_key(key, s),
    ensures
        sorted_by_key(key, insert_by(key, x, s)),
{
    let j = first_gt(key, x, s, 0);
    lemma_first_gt(key, x, s, 0);
    lemma_insert_by_at(key, x, s, j);
    let r = s.take(j) + seq![x] + s.skip(j);
    assert forall|p: int, q: int| 0 <= p < q < r.len() implies lex_le(
        key(#[trigger] r[p]),
        key(#[trigger] r[q]),
    ) by {
        lemma_insert_by_indexing(key, x, s, j, p);
        lemma_insert_by_indexing(key, x, s, j, q);
        if p < j && q == j {
            // r[p] == s[p], r[q] == x
        } else if p == j && q > j {
            // r[p] == x, r[q] == s[q - 1], and key(s[j]) <= key(s[q - 1])
            lemma_lex_le_total(key(s[j]), key(x));
            if q - 1 > j {
                lemma_lex_le_trans(key(x), key(s[j]), key(s[q - 1]));
            }
        } else if p < j && q > j {
            // both are elements of s at p and q - 1
        }
    }
}

/// Index of the first element whose key does not precede or equal `key(x)`,
/// scanning from `from`; the length when there is none.
pub open spec fn first_gt<T>(key: spec_fn(T) -> Seq<char>, x: T, s: Seq<T>, from: int) -> int
    decreases s.len() - from,
{
    if from < 0 || from >= s.len() {
        s.len() as int
    } else if !lex_le(key(s[from]), key(x)) {
        from
    } else {
        first_gt(key, x, s, from + 1)
    }
}

/// `first_gt` finds the boundary that `lemma_insert_by_at` asks for.
pub proof fn lemma_first_gt<T>(key: spec_fn(T) -> Seq<char>, x: T, s: Seq<T>, from: int)
    requires
        0 <= from <= s.len(),
    ensures
        from <= first_gt(key, x, s, from) <= s.len(),
        forall|k: int| from <= k < first_gt(key, x, s, from) ==> lex_le(
            key(#[trigger] s[k]),
            key(x),
        ),
        first_gt(key, x, s, from) < s.len() ==> !lex_le(key(s[first_gt(key, x, s, from)]), key(x)),
    decreases s.len() - from,
{
    if from < s.len() && lex_le(key(s[from]), key(x)) {
        lemma_first_gt(key, x, s, from + 1);
    }
}

/// Where each element of the inserted sequence comes from.
pub proof fn lemma_insert_by_indexing<T>(
    key: spec_fn(T) -> Seq<char>,
    x: T,
    s: Seq<T>,
    j: int,
    p: int,
)
    requires
        0 <= j <= s.len(),
        0 <= p < s.len() + 1,
    ensures
        p < j ==> (s.take(j) + seq![x] + s.skip(j))[p] == s[p],
        p == j ==> (s.take(j) + seq![x] + s.skip(j))[p] == x,
        p > j ==> (s.take(j) + seq![x] + s.skip(j))[p] == s[p - 1],
{
    let r = s.take(j) + seq![x] + s.skip(j);
    assert(s.take(j).len() == j);
    assert(s.skip(j).len() == s.len() - j);
    if p < j {
        assert(r[p] == s.take(j)[p]);
    } else if p == j {
    } else {
        assert(r[p] == s.skip(j)[p - j - 1]);
    }
}

/// The sorted sequence is sorted.
pub proof fn lemma_sort_by_key_sorted<T>(key: spec_fn(T) -> Seq<char>, s: Seq<T>)
    ensures
        sorted_by_key(key, sort_by_key(key, s)),
    decreases s.len(),
{
    if s.len() > 0 {
        lemma_sort_by_key_sorted(key, s.drop_last());
        lemma_insert_by_sorted(key, s.last(), sort_by_key(key, s.drop_last()));
    }
}

/// Inserting an element whose key follows or equals every key appends it.
pub proof fn lemma_insert_by_append<T>(key: spec_fn(T) -> Seq<char>, x: T, s: Seq<T>)
    requires
        forall|k: int| 0 <= k < s.len() ==> lex_le(key(#[trigger] s[k]), key(x)),
    ensures
        insert_by(key, x, s) == s + seq![x],
{
    lemma_insert_by_at(key, x, s, s.len() as int);
    assert(s.take(s.len() as int) =~= s);
    assert(s.skip(s.len() as int) =~= Seq::empty());
    assert(s.take(s.len() as int) + seq![x] + s.skip(s.len() as int) =~= s + seq![x]);
}

/// Sorting an already sorted sequence returns it unchanged.
pub proof fn lemma_sort_by_key_fixed_point<T>(key: spec_fn(T) -> Seq<char>, s: Seq<T>)
    requires
        sorted_by_key(key, s),
    ensures
        sort_by_key(key, s) == s,
    decreases s.len(),
{
    if s.len() > 0 {
        let t = s.drop_last();
        assert(t.len() == s.len() - 1);
        assert forall|i: int, j: int| 0 <= i < j < t.len() implies lex_le(
            key(#[trigger] t[i]),
            key(#[trigger] t[j]),
        ) by {
            assert(t[i] == s[i] && t[j] == s[j]);
        }
        lemma_sort_by_key_fixed_point(key, t);
        assert forall|k: int| 0 <= k < t.len() implies lex_le(
            key(#[trigger] t[k]),
            key(s.last()),
        ) by {
            assert(t[k] == s[k]);
            assert(lex_le(key(s[k]), key(s[s.len() - 1])));
        }
        lemma_insert_by_append(key, s.last(), t);
        assert(t + seq![s.last()] =~= s);
    }
}

} // verus!
