//! What a merge yields, stated over the entries that each source still holds.
//! Sources are indexed by their origin: a lower index takes priority.
use vstd::prelude::*;

use crate::iterator::{lemma_sorted_drop_first, sorted_by_key, Entry};
use crate::key::{
    key_le, key_lt, lemma_key_lt_asymmetric, lemma_key_lt_irreflexive, lemma_key_lt_total,
    lemma_key_lt_transitive,
};

verus! {

/// Source `i` has the least head key, ties going to the lowest origin.
pub open spec fn is_front(m: Seq<Seq<Entry>>, i: int) -> bool {
    &&& 0 <= i < m.len()
    &&& m[i].len() > 0
    &&& forall|j: int|
        0 <= j < m.len() && #[trigger] m[j].len() > 0 ==> key_lt(m[i][0].0, m[j][0].0) || (m[i][0].0
            == m[j][0].0 && i <= j)
}

/// The source whose head entry the merge yields next.
pub open spec fn front(m: Seq<Seq<Entry>>) -> int {
    choose|i: int| is_front(m, i)
}

/// Every source whose head key is `k` moves past it.
pub open spec fn drop_key(m: Seq<Seq<Entry>>, k: Seq<u8>) -> Seq<Seq<Entry>> {
    Seq::new(
        m.len(),
        |j: int|
            if m[j].len() > 0 && m[j][0].0 == k {
                m[j].drop_first()
            } else {
                m[j]
            },
    )
}

/// How many entries the sources hold together.
pub open spec fn total(m: Seq<Seq<Entry>>) -> nat
    decreases m.len(),
{
    if m.len() == 0 {
        0
    } else {
        total(m.drop_last()) + m.last().len()
    }
}

/// The merged stream: ascending keys, each once, with the value of the
/// lowest-indexed source that holds it.
pub open spec fn merged(m: Seq<Seq<Entry>>) -> Seq<Entry>
    decreases total(m),
    via merged_decreases
{
    if exists|i: int| is_front(m, i) {
        let i = front(m);
        seq![m[i][0]] + merged(drop_key(m, m[i][0].0))
    } else {
        seq![]
    }
}

#[via_fn]
proof fn merged_decreases(m: Seq<Seq<Entry>>) {
    if exists|i: int| is_front(m, i) {
        let i = front(m);
        lemma_total_shrinks(drop_key(m, m[i][0].0), m, i);
    }
}

proof fn lemma_total_le(a: Seq<Seq<Entry>>, b: Seq<Seq<Entry>>)
    requires
        a.len() == b.len(),
        forall|j: int| 0 <= j < a.len() ==> #[trigger] a[j].len() <= b[j].len(),
    ensures
        total(a) <= total(b),
    decreases a.len(),
{
    if a.len() > 0 {
        lemma_total_le(a.drop_last(), b.drop_last());
    }
}

/// Fewer entries in one source and no more in any other: fewer in all.
pub proof fn lemma_total_shrinks(a: Seq<Seq<Entry>>, b: Seq<Seq<Entry>>, i: int)
    requires
        a.len() == b.len(),
        0 <= i < a.len(),
        a[i].len() < b[i].len(),
        forall|j: int| 0 <= j < a.len() ==> #[trigger] a[j].len() <= b[j].len(),
    ensures
        total(a) < total(b),
    decreases a.len(),
{
    if i == a.len() - 1 {
        lemma_total_le(a.drop_last(), b.drop_last());
    } else {
        lemma_total_shrinks(a.drop_last(), b.drop_last(), i);
    }
}

/// At most one source is in front.
pub proof fn lemma_front_unique(m: Seq<Seq<Entry>>, i: int, j: int)
    requires
        is_front(m, i),
        is_front(m, j),
    ensures
        i == j,
{
    lemma_key_lt_irreflexive(m[i][0].0);
    if key_lt(m[i][0].0, m[j][0].0) {
        lemma_key_lt_asymmetric(m[i][0].0, m[j][0].0);
    }
}

/// Where source `i` is in front, the merge yields its head entry and then the
/// merge of what is left once that key is passed.
pub proof fn lemma_merged_unfold(m: Seq<Seq<Entry>>, i: int)
    requires
        is_front(m, i),
    ensures
        front(m) == i,
        merged(m) == seq![m[i][0]] + merged(drop_key(m, m[i][0].0)),
{
    lemma_front_unique(m, front(m), i);
}

/// With no source in front, the merge yields nothing.
pub proof fn lemma_merged_empty(m: Seq<Seq<Entry>>)
    requires
        forall|j: int| 0 <= j < m.len() ==> #[trigger] m[j].len() == 0,
    ensures
        merged(m) == Seq::<Entry>::empty(),
{
}

/// Every source is sorted by key.
pub open spec fn all_sorted(m: Seq<Seq<Entry>>) -> bool {
    forall|i: int| 0 <= i < m.len() ==> sorted_by_key(#[trigger] m[i])
}

/// Some source is in front as soon as any source holds an entry.
pub proof fn lemma_front_exists(m: Seq<Seq<Entry>>, i: int)
    requires
        0 <= i < m.len(),
        m[i].len() > 0,
    ensures
        exists|f: int| is_front(m, f),
    decreases m.len(),
{
    let l = m.len() - 1;
    let rest = m.drop_last();
    if exists|j: int| 0 <= j < l && m[j].len() > 0 {
        let j0 = choose|j: int| 0 <= j < l && m[j].len() > 0;
        assert(rest[j0] == m[j0]);
        lemma_front_exists(rest, j0);
        let f = choose|f: int| is_front(rest, f);
        assert(rest[f] == m[f]);
        if m[l].len() > 0 && key_lt(m[l][0].0, m[f][0].0) {
            assert forall|j: int| 0 <= j < m.len() && #[trigger] m[j].len() > 0 implies key_lt(
                m[l][0].0,
                m[j][0].0,
            ) || (m[l][0].0 == m[j][0].0 && l <= j) by {
                if j < l {
                    assert(rest[j] == m[j]);
                    if key_lt(m[f][0].0, m[j][0].0) {
                        lemma_key_lt_transitive(m[l][0].0, m[f][0].0, m[j][0].0);
                    }
                }
            }
            assert(is_front(m, l));
        } else {
            if m[l].len() > 0 {
                lemma_key_lt_total(m[f][0].0, m[l][0].0);
            }
            assert forall|j: int| 0 <= j < m.len() && #[trigger] m[j].len() > 0 implies key_lt(
                m[f][0].0,
                m[j][0].0,
            ) || (m[f][0].0 == m[j][0].0 && f <= j) by {
                if j < l {
                    assert(rest[j] == m[j]);
                }
            }
            assert(is_front(m, f));
        }
    } else {
        assert(i == l);
        assert forall|j: int| 0 <= j < m.len() && #[trigger] m[j].len() > 0 implies key_lt(
            m[l][0].0,
            m[j][0].0,
        ) || (m[l][0].0 == m[j][0].0 && l <= j) by {
            assert(j == l);
        }
        assert(is_front(m, l));
    }
}

/// The merge is empty exactly when every source is.
pub proof fn lemma_merged_empty_iff(m: Seq<Seq<Entry>>)
    ensures
        merged(m).len() == 0 <==> forall|i: int| 0 <= i < m.len() ==> #[trigger] m[i].len() == 0,
{
    if exists|i: int| 0 <= i < m.len() && m[i].len() > 0 {
        let i = choose|i: int| 0 <= i < m.len() && m[i].len() > 0;
        lemma_front_exists(m, i);
        let f = choose|f: int| is_front(m, f);
        lemma_merged_unfold(m, f);
    }
}

/// Passing the least key keeps every source sorted, and leaves only keys above it.
pub proof fn lemma_drop_key_above(m: Seq<Seq<Entry>>, f: int)
    requires
        all_sorted(m),
        is_front(m, f),
    ensures
        all_sorted(drop_key(m, m[f][0].0)),
        forall|i: int, j: int|
            0 <= i < m.len() && 0 <= j < drop_key(m, m[f][0].0)[i].len() ==> key_lt(
                m[f][0].0,
                #[trigger] drop_key(m, m[f][0].0)[i][j].0,
            ),
{
    let k = m[f][0].0;
    let d = drop_key(m, k);
    assert forall|i: int| 0 <= i < d.len() implies sorted_by_key(#[trigger] d[i]) by {
        assert(sorted_by_key(m[i]));
        if m[i].len() > 0 && m[i][0].0 == k {
            lemma_sorted_drop_first(m[i]);
        }
    }
    assert forall|i: int, j: int| 0 <= i < m.len() && 0 <= j < d[i].len() implies key_lt(
        k,
        #[trigger] d[i][j].0,
    ) by {
        assert(sorted_by_key(m[i]));
        assert(m[i].len() > 0);
        if m[i][0].0 == k {
            assert(d[i][j] == m[i][j + 1]);
            assert(key_lt(m[i][0].0, m[i][j + 1].0));
        } else {
            assert(key_lt(k, m[i][0].0));
            if j > 0 {
                assert(key_lt(m[i][0].0, m[i][j].0));
                lemma_key_lt_transitive(k, m[i][0].0, m[i][j].0);
            }
        }
    }
}

/// Source `i` holds key `k` somewhere.
pub open spec fn holds_key(s: Seq<Entry>, k: Seq<u8>) -> bool {
    exists|j: int| 0 <= j < s.len() && (#[trigger] s[j]).0 == k
}

/// Each entry the merge yields is the entry for its key in the lowest-indexed
/// source that holds the key, and every key it yields lies above the least
/// key that the sources hold.
pub proof fn lemma_merged_entry_source(m: Seq<Seq<Entry>>, p: int)
    requires
        all_sorted(m),
        0 <= p < merged(m).len(),
    ensures
        exists|i: int, j: int|
            #![trigger m[i][j]]
            0 <= i < m.len() && 0 <= j < m[i].len() && m[i][j] == merged(m)[p] && forall|i2: int|
                0 <= i2 < i ==> !holds_key(#[trigger] m[i2], merged(m)[p].0),
    decreases total(m),
{
    lemma_merged_empty_iff(m);
    let i0 = choose|i: int| 0 <= i < m.len() && m[i].len() > 0;
    lemma_front_exists(m, i0);
    let f = choose|f: int| is_front(m, f);
    lemma_merged_unfold(m, f);
    let k = m[f][0].0;
    let d = drop_key(m, k);
    lemma_drop_key_above(m, f);
    if p == 0 {
        assert(m[f][0] == merged(m)[p]);
        assert forall|i2: int| 0 <= i2 < f implies !holds_key(#[trigger] m[i2], k) by {
            if holds_key(m[i2], k) {
                let j = choose|j: int| 0 <= j < m[i2].len() && (#[trigger] m[i2][j]).0 == k;
                assert(sorted_by_key(m[i2]));
                assert(m[i2].len() > 0);
                let h = m[i2][0].0;
                assert(key_lt(k, h) || (k == h && f <= i2));
                lemma_key_lt_irreflexive(k);
                assert(key_lt(k, h));
                if j > 0 {
                    assert(key_lt(h, m[i2][j].0));
                    lemma_key_lt_asymmetric(k, h);
                }
            }
        }
    } else {
        lemma_total_shrinks(d, m, f);
        assert(merged(m)[p] == merged(d)[p - 1]);
        lemma_merged_entry_source(d, p - 1);
        let (i, j) = choose|i: int, j: int|
            #![trigger d[i][j]]
            0 <= i < d.len() && 0 <= j < d[i].len() && d[i][j] == merged(d)[p - 1] && forall|i2: int|
                0 <= i2 < i ==> !holds_key(#[trigger] d[i2], merged(d)[p - 1].0);
        let kp = merged(m)[p].0;
        assert(key_lt(k, d[i][j].0));
        lemma_key_lt_irreflexive(k);
        if m[i].len() > 0 && m[i][0].0 == k {
            assert(m[i][j + 1] == merged(m)[p]);
        } else {
            assert(m[i][j] == merged(m)[p]);
        }
        assert forall|i2: int| 0 <= i2 < i implies !holds_key(#[trigger] m[i2], kp) by {
            if holds_key(m[i2], kp) {
                let j2 = choose|j2: int| 0 <= j2 < m[i2].len() && (#[trigger] m[i2][j2]).0 == kp;
                if m[i2][0].0 == k {
                    if j2 == 0 {
                        assert(false);
                    } else {
                        assert(d[i2][j2 - 1] == m[i2][j2]);
                    }
                } else {
                    assert(d[i2][j2] == m[i2][j2]);
                }
            }
        }
    }
}

/// Every key that some source holds is yielded by the merge.
pub proof fn lemma_merged_covers(m: Seq<Seq<Entry>>, i: int, j: int)
    requires
        all_sorted(m),
        0 <= i < m.len(),
        0 <= j < m[i].len(),
    ensures
        exists|p: int| 0 <= p < merged(m).len() && (#[trigger] merged(m)[p]).0 == m[i][j].0,
    decreases total(m),
{
    lemma_front_exists(m, i);
    let f = choose|f: int| is_front(m, f);
    lemma_merged_unfold(m, f);
    let k = m[f][0].0;
    let d = drop_key(m, k);
    if m[i][j].0 == k {
        assert(merged(m)[0].0 == m[i][j].0);
    } else {
        lemma_drop_key_above(m, f);
        lemma_total_shrinks(d, m, f);
        let jd = if m[i][0].0 == k {
            j - 1
        } else {
            j
        };
        assert(jd >= 0);
        assert(d[i][jd] == m[i][j]);
        lemma_merged_covers(d, i, jd);
        let p = choose|p: int| 0 <= p < merged(d).len() && (#[trigger] merged(d)[p]).0 == d[i][jd].0;
        assert(merged(m)[p + 1] == merged(d)[p]);
    }
}

/// The merge yields strictly increasing keys, so no key twice.
pub proof fn lemma_merged_sorted(m: Seq<Seq<Entry>>)
    requires
        all_sorted(m),
    ensures
        sorted_by_key(merged(m)),
    decreases total(m),
{
    if exists|f: int| is_front(m, f) {
        let f = choose|f: int| is_front(m, f);
        lemma_merged_unfold(m, f);
        let k = m[f][0].0;
        let d = drop_key(m, k);
        lemma_drop_key_above(m, f);
        lemma_total_shrinks(d, m, f);
        lemma_merged_sorted(d);
        let out = merged(m);
        assert forall|a: int, b: int| 0 <= a < b < out.len() implies key_lt(
            #[trigger] out[a].0,
            #[trigger] out[b].0,
        ) by {
            assert(out[b] == merged(d)[b - 1]);
            if a > 0 {
                assert(out[a] == merged(d)[a - 1]);
            } else {
                lemma_merged_entry_source(d, b - 1);
                let (i, j) = choose|i: int, j: int|
                    #![trigger d[i][j]]
                    0 <= i < d.len() && 0 <= j < d[i].len() && d[i][j] == merged(d)[b - 1] && forall|
                        i2: int,
                    | 0 <= i2 < i ==> !holds_key(#[trigger] d[i2], merged(d)[b - 1].0);
                assert(key_lt(k, d[i][j].0));
            }
        }
    } else {
        assert(merged(m) == Seq::<Entry>::empty());
    }
}

/// When the merge holds an entry, its first key is at or below every key that
/// any source holds.
pub proof fn lemma_first_is_least(m: Seq<Seq<Entry>>)
    requires
        all_sorted(m),
        merged(m).len() > 0,
    ensures
        forall|i: int, j: int|
            0 <= i < m.len() && 0 <= j < m[i].len() ==> key_le(merged(m)[0].0, #[trigger] m[i][j].0),
{
    lemma_merged_empty_iff(m);
    let i0 = choose|i: int| 0 <= i < m.len() && m[i].len() > 0;
    lemma_front_exists(m, i0);
    let f = choose|f: int| is_front(m, f);
    lemma_merged_unfold(m, f);
    let k = m[f][0].0;
    assert forall|i: int, j: int| 0 <= i < m.len() && 0 <= j < m[i].len() implies key_le(
        k,
        #[trigger] m[i][j].0,
    ) by {
        assert(m[i].len() > 0);
        assert(sorted_by_key(m[i]));
        if j > 0 {
            assert(key_lt(m[i][0].0, m[i][j].0));
            if key_lt(k, m[i][0].0) {
                lemma_key_lt_transitive(k, m[i][0].0, m[i][j].0);
            }
        }
    }
}

} // verus!
