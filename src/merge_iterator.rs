//! The merge engine: sources ordered by (head key, origin index) in a vector
//! kept in descending order, so that the least one sits at the end, plus the
//! "current" source taken out of it.
use vstd::prelude::*;

use crate::iterator::{lemma_sorted_drop_first, sorted_by_key, Entry, StorageIterator};
use crate::key::{
    compare_keys, key_lt, lemma_key_lt_asymmetric, lemma_key_lt_irreflexive, lemma_key_lt_total,
    lemma_key_lt_transitive,
};
use crate::merge_model::{
    all_sorted, drop_key, is_front, lemma_merged_empty, lemma_merged_unfold,
    lemma_total_shrinks, merged, total,
};

verus! {

/// A source tagged with its origin index.
struct HeapWrapper<I: StorageIterator>(pub usize, pub Box<I>);

impl<I: StorageIterator> HeapWrapper<I> {
    spec fn head(&self) -> Seq<u8> {
        self.1.entries()[0].0
    }

    /// Ordered by head key, then by origin index.
    spec fn precedes(&self, other: &Self) -> bool {
        key_lt(self.head(), other.head()) || (self.head() == other.head() && self.0 < other.0)
    }

    /// Compares two valid sources by head key, then by origin index.
    fn cmp(&self, other: &Self) -> (r: core::cmp::Ordering)
        requires
            self.1.entries().len() > 0,
            other.1.entries().len() > 0,
        ensures
            (r == core::cmp::Ordering::Less) == self.precedes(other),
            (r == core::cmp::Ordering::Greater) == other.precedes(self),
            (r == core::cmp::Ordering::Equal) == (self.head() == other.head() && self.0 == other.0),
    {
        proof {
            lemma_key_lt_irreflexive(self.head());
        }
        match compare_keys(self.1.key(), other.1.key()) {
            core::cmp::Ordering::Less => {
                proof {
                    lemma_key_lt_asymmetric(self.head(), other.head());
                }
                core::cmp::Ordering::Less
            },
            core::cmp::Ordering::Greater => {
                proof {
                    lemma_key_lt_asymmetric(other.head(), self.head());
                }
                core::cmp::Ordering::Greater
            },
            core::cmp::Ordering::Equal => {
                if self.0 < other.0 {
                    core::cmp::Ordering::Less
                } else if self.0 > other.0 {
                    core::cmp::Ordering::Greater
                } else {
                    core::cmp::Ordering::Equal
                }
            },
        }
    }
}

proof fn lemma_precedes_transitive<I: StorageIterator>(
    a: HeapWrapper<I>,
    b: HeapWrapper<I>,
    c: HeapWrapper<I>,
)
    requires
        a.precedes(&b),
        b.precedes(&c),
    ensures
        a.precedes(&c),
{
    if key_lt(a.head(), b.head()) && key_lt(b.head(), c.head()) {
        lemma_key_lt_transitive(a.head(), b.head(), c.head());
    }
}

proof fn lemma_precedes_total<I: StorageIterator>(a: HeapWrapper<I>, b: HeapWrapper<I>)
    requires
        a.0 != b.0,
    ensures
        a.precedes(&b) || b.precedes(&a),
{
    lemma_key_lt_total(a.head(), b.head());
}

/// Descending order: each source precedes every one before it.
spec fn descending<I: StorageIterator>(s: Seq<HeapWrapper<I>>) -> bool {
    forall|p: int, q: int| #![trigger s[p], s[q]] 0 <= p < q < s.len() ==> s[q].precedes(&s[p])
}

spec fn all_valid<I: StorageIterator>(s: Seq<HeapWrapper<I>>) -> bool {
    forall|p: int| 0 <= p < s.len() ==> (#[trigger] s[p]).1.entries().len() > 0
}

/// `w` is a live source whose entries are those that `model` gives its origin.
spec fn held<I: StorageIterator>(w: HeapWrapper<I>, model: Seq<Seq<Entry>>) -> bool {
    &&& w.0 < model.len()
    &&& w.1.entries() == model[w.0 as int]
    &&& model[w.0 as int].len() > 0
}

/// How the vector, the current slot and the model of every origin fit together.
spec fn layout_wf<I: StorageIterator>(
    iters: Seq<HeapWrapper<I>>,
    current: Option<HeapWrapper<I>>,
    model: Seq<Seq<Entry>>,
) -> bool {
    &&& forall|p: int| 0 <= p < iters.len() ==> held(#[trigger] iters[p], model)
    &&& descending(iters)
    &&& match current {
        Some(c) => held(c, model) && forall|p: int|
            #![trigger iters[p]] 0 <= p < iters.len() ==> c.precedes(&iters[p]),
        None => iters.len() == 0,
    }
    &&& forall|i: int|
        0 <= i < model.len() && (#[trigger] model[i]).len() > 0 ==> (current is Some
            && current.unwrap().0 == i) || exists|p: int| 0 <= p < iters.len() && iters[p].0 == i
    &&& forall|i: int| 0 <= i < model.len() ==> sorted_by_key(#[trigger] model[i])
}

/// Two held sources at different places in a descending vector have different origins.
proof fn lemma_distinct_origins<I: StorageIterator>(
    a: HeapWrapper<I>,
    b: HeapWrapper<I>,
    model: Seq<Seq<Entry>>,
)
    requires
        held(a, model),
        held(b, model),
        a.precedes(&b),
    ensures
        a.0 != b.0,
{
    lemma_key_lt_irreflexive(a.head());
}

/// The current source is the one in front of the merge.
proof fn lemma_current_in_front<I: StorageIterator>(
    iters: Seq<HeapWrapper<I>>,
    c: HeapWrapper<I>,
    model: Seq<Seq<Entry>>,
)
    requires
        layout_wf(iters, Some(c), model),
    ensures
        is_front(model, c.0 as int),
{
    assert forall|j: int| 0 <= j < model.len() && #[trigger] model[j].len() > 0 implies key_lt(
        model[c.0 as int][0].0,
        model[j][0].0,
    ) || (model[c.0 as int][0].0 == model[j][0].0 && c.0 <= j) by {
        if j != c.0 {
            let p = choose|p: int| 0 <= p < iters.len() && iters[p].0 == j;
            assert(c.precedes(&iters[p]));
        }
    }
}

/// Inserts `w` where it keeps the vector descending.
fn insert_sorted<I: StorageIterator>(iters: &mut Vec<HeapWrapper<I>>, w: HeapWrapper<I>) -> (pos:
    usize)
    requires
        w.1.entries().len() > 0,
        all_valid(old(iters)@),
        descending(old(iters)@),
        forall|p: int| 0 <= p < old(iters)@.len() ==> (#[trigger] old(iters)@[p]).0 != w.0,
    ensures
        pos <= old(iters)@.len(),
        final(iters)@ == old(iters)@.insert(pos as int, w),
        descending(final(iters)@),
{
    let mut pos: usize = iters.len();
    loop
        invariant
            pos <= iters@.len(),
            all_valid(iters@),
            w.1.entries().len() > 0,
            forall|q: int| pos <= q < iters@.len() ==> (#[trigger] iters@[q]).precedes(&w),
            iters@ == old(iters)@,
            descending(iters@),
            forall|p: int| 0 <= p < iters@.len() ==> (#[trigger] iters@[p]).0 != w.0,
        ensures
            pos <= iters@.len(),
            forall|q: int| pos <= q < iters@.len() ==> (#[trigger] iters@[q]).precedes(&w),
            pos == 0 || !iters@[pos - 1].precedes(&w),
        decreases pos,
    {
        if pos == 0 {
            break;
        }
        match iters[pos - 1].cmp(&w) {
            core::cmp::Ordering::Less => {
                pos = pos - 1;
            },
            _ => {
                break;
            },
        }
    }
    proof {
        let s = iters@;
        if pos > 0 {
            lemma_precedes_total(s[pos - 1], w);
            assert forall|p: int| #![trigger s[p]] 0 <= p < pos implies w.precedes(&s[p]) by {
                if p < pos - 1 {
                    lemma_precedes_transitive(w, s[pos - 1], s[p]);
                }
            }
        }
    }
    iters.insert(pos, w);
    proof {
        let s = iters@;
        assert forall|p: int, q: int| #![trigger s[p], s[q]] 0 <= p < q < s.len() implies s[q].precedes(
            &s[p],
        ) by {
            if q > pos && p < pos {
                lemma_precedes_transitive(s[q], w, s[p]);
            }
        }
    }
    pos
}

/// The head key of the current source.
spec fn head_of<I: StorageIterator>(current: Option<HeapWrapper<I>>) -> Seq<u8> {
    current.unwrap().head()
}

/// The vector alone holds every live source, in descending order.
spec fn pool_wf<I: StorageIterator>(iters: Seq<HeapWrapper<I>>, model: Seq<Seq<Entry>>) -> bool {
    &&& forall|p: int| 0 <= p < iters.len() ==> held(#[trigger] iters[p], model)
    &&& descending(iters)
    &&& forall|i: int|
        0 <= i < model.len() && (#[trigger] model[i]).len() > 0 ==> exists|p: int|
            0 <= p < iters.len() && iters[p].0 == i
    &&& forall|i: int| 0 <= i < model.len() ==> sorted_by_key(#[trigger] model[i])
}

/// After `w` is inserted, every live origin but `held_apart` is found in the vector.
proof fn lemma_insert_keeps_presence<I: StorageIterator>(
    before: Seq<HeapWrapper<I>>,
    w: HeapWrapper<I>,
    pos: int,
    model: Seq<Seq<Entry>>,
    held_apart: int,
)
    requires
        0 <= pos <= before.len(),
        forall|i: int|
            0 <= i < model.len() && (#[trigger] model[i]).len() > 0 ==> i == w.0 || i == held_apart
                || exists|p: int| 0 <= p < before.len() && before[p].0 == i,
    ensures
        forall|i: int|
            0 <= i < model.len() && (#[trigger] model[i]).len() > 0 ==> i == held_apart || exists|p: int|
                0 <= p < before.insert(pos, w).len() && before.insert(pos, w)[p].0 == i,
{
    let after = before.insert(pos, w);
    assert forall|i: int| 0 <= i < model.len() && (#[trigger] model[i]).len() > 0 && i != held_apart implies exists|p: int|
        0 <= p < after.len() && after[p].0 == i by {
        if i == w.0 {
            assert(after[pos].0 == i);
        } else {
            let p = choose|p: int| 0 <= p < before.len() && before[p].0 == i;
            if p < pos {
                assert(after[p].0 == i);
            } else {
                assert(after[p + 1].0 == i);
            }
        }
    }
}

/// Takes the least source out of the vector and makes it current.
fn install_least<I: StorageIterator>(
    iters: &mut Vec<HeapWrapper<I>>,
    current: &mut Option<HeapWrapper<I>>,
    model: Ghost<Seq<Seq<Entry>>>,
)
    requires
        pool_wf(old(iters)@, model@),
    ensures
        layout_wf(final(iters)@, *final(current), model@),
{
    if iters.is_empty() {
        *current = None;
    } else {
        let ghost h = iters@;
        let least = iters.pop().unwrap();
        proof {
            assert(h =~= iters@.push(least));
            assert forall|i: int|
                0 <= i < model@.len() && (#[trigger] model@[i]).len() > 0 implies (least.0 == i)
                || exists|p: int| 0 <= p < iters@.len() && iters@[p].0 == i by {
                let p = choose|p: int| 0 <= p < h.len() && h[p].0 == i;
                if p < iters@.len() {
                    assert(iters@[p].0 == i);
                }
            }
            assert forall|p: int| #![trigger iters@[p]] 0 <= p < iters@.len() implies least.precedes(
                &iters@[p],
            ) by {
                assert(h[p] == iters@[p]);
            }
        }
        *current = Some(least);
    }
}

/// Removing the last source of a descending vector keeps it descending.
proof fn lemma_pop_keeps_order<I: StorageIterator>(
    before: Seq<HeapWrapper<I>>,
    after: Seq<HeapWrapper<I>>,
    w: HeapWrapper<I>,
    model: Seq<Seq<Entry>>,
)
    requires
        before == after.push(w),
        descending(before),
        forall|p: int| 0 <= p < before.len() ==> held(#[trigger] before[p], model),
    ensures
        descending(after),
        forall|p: int| 0 <= p < after.len() ==> (#[trigger] after[p]).0 != w.0,
        all_valid(after),
{
    assert forall|p: int, q: int| #![trigger after[p], after[q]] 0 <= p < q < after.len() implies after[q].precedes(
        &after[p],
    ) by {
        assert(before[p] == after[p] && before[q] == after[q]);
    }
    assert forall|p: int| 0 <= p < after.len() implies (#[trigger] after[p]).0 != w.0 by {
        assert(before[p] == after[p]);
        assert(before[after.len() as int] == w);
        lemma_distinct_origins(w, after[p], model);
    }
    assert forall|p: int| 0 <= p < after.len() implies (#[trigger] after[p]).1.entries().len() > 0 by {
        assert(before[p] == after[p]);
    }
}

/// One step of the merge: passes the current key in every source that holds
/// it, then advances the current source and installs the new least one as
/// current. A source that fails is dropped from the merge before its error is
/// returned.
fn advance_parts<I: StorageIterator>(
    iters: &mut Vec<HeapWrapper<I>>,
    current: &mut Option<HeapWrapper<I>>,
    model: &mut Ghost<Seq<Seq<Entry>>>,
) -> (r: Result<(), I::Error>)
    requires
        layout_wf(old(iters)@, *old(current), old(model)@),
        old(current).is_some(),
    ensures
        layout_wf(final(iters)@, *final(current), final(model)@),
        final(model)@.len() == old(model)@.len(),
        r is Ok ==> final(model)@ == drop_key(old(model)@, head_of(*old(current))),
        r is Err ==> exists|i: int|
            0 <= i < old(model)@.len() && old(model)@[i].len() > 0 && old(model)@[i][0].0
                == head_of(*old(current)) && (#[trigger] final(model)@[i]).len() == 0,
        forall|i: int|
            0 <= i < old(model)@.len() ==> #[trigger] final(model)@[i] == old(model)@[i] || (
            old(model)@[i].len() > 0 && old(model)@[i][0].0 == head_of(*old(current)) && (
            final(model)@[i] == old(model)@[i].drop_first() || final(model)@[i].len() == 0)),
{
    let ghost m0 = model@;
    let ghost k = head_of(*current);
    let mut cur = current.take().unwrap();
    loop
        invariant
            layout_wf(iters@, Some(cur), model@),
            current.is_none(),
            cur.head() == k,
            m0.len() == model@.len(),
            m0[cur.0 as int] == model@[cur.0 as int],
            m0 == old(model)@,
            k == head_of(*old(current)),
            forall|i: int| 0 <= i < m0.len() ==> sorted_by_key(#[trigger] m0[i]),
            forall|i: int|
                0 <= i < m0.len() ==> #[trigger] model@[i] == m0[i] || (m0[i].len() > 0 && m0[i][0].0
                    == k && i != cur.0 && model@[i] == m0[i].drop_first()),
        ensures
            layout_wf(iters@, Some(cur), model@),
            current.is_none(),
            cur.head() == k,
            m0.len() == model@.len(),
            m0[cur.0 as int] == model@[cur.0 as int],
            m0 == old(model)@,
            k == head_of(*old(current)),
            forall|i: int| 0 <= i < m0.len() ==> sorted_by_key(#[trigger] m0[i]),
            forall|i: int|
                0 <= i < m0.len() ==> #[trigger] model@[i] == m0[i] || (m0[i].len() > 0 && m0[i][0].0
                    == k && i != cur.0 && model@[i] == m0[i].drop_first()),
            iters@.len() == 0 || key_lt(k, iters@.last().head()),
        decreases total(model@),
    {
        if iters.len() == 0 {
            break;
        }
        let last = iters.len() - 1;
        match compare_keys(cur.1.key(), iters[last].1.key()) {
            core::cmp::Ordering::Less => {
                break;
            },
            _ => {},
        }
        let ghost before = iters@;
        let ghost mb = model@;
        let mut w = iters.pop().unwrap();
        proof {
            assert(before =~= iters@.push(w));
            assert(cur.precedes(&before[last as int]));
            assert(held(before[last as int], mb));
            assert(held(w, mb));
            assert(sorted_by_key(m0[w.0 as int]));
            if key_lt(w.head(), k) {
                lemma_key_lt_asymmetric(w.head(), k);
            }
            assert(w.head() == k);
            lemma_distinct_origins(cur, w, mb);
            if mb[w.0 as int] != m0[w.0 as int] {
                assert(key_lt(m0[w.0 as int][0].0, m0[w.0 as int][1].0));
                lemma_key_lt_irreflexive(k);
            }
            assert(mb[w.0 as int] == m0[w.0 as int]);
            lemma_pop_keeps_order(before, iters@, w, mb);
            assert forall|i: int|
                0 <= i < mb.len() && (#[trigger] mb[i]).len() > 0 implies i == w.0 || i == cur.0
                || exists|p: int| 0 <= p < iters@.len() && iters@[p].0 == i by {
                if i != cur.0 {
                    let p = choose|p: int| 0 <= p < before.len() && before[p].0 == i;
                    if p < iters@.len() {
                        assert(iters@[p] == before[p]);
                    }
                }
            }
        }
        match w.1.next() {
            Err(e) => {
                *model = Ghost(mb.update(w.0 as int, Seq::empty()));
                proof {
                    assert forall|p: int| 0 <= p < iters@.len() implies held(#[trigger] iters@[p], model@) by {
                        assert(before[p] == iters@[p]);
                    }
                    assert forall|i: int|
                        0 <= i < model@.len() && (#[trigger] model@[i]).len() > 0 implies (i == cur.0)
                        || exists|p: int| 0 <= p < iters@.len() && iters@[p].0 == i by {
                        assert(mb[i].len() > 0);
                    }
                    assert forall|i: int| 0 <= i < model@.len() implies sorted_by_key(#[trigger] model@[i]) by {
                        assert(sorted_by_key(mb[i]));
                    }
                    assert(model@[w.0 as int].len() == 0);
                    assert(m0[w.0 as int][0].0 == k);
                }
                *current = Some(cur);
                return Err(e);
            },
            Ok(()) => {
                *model = Ghost(mb.update(w.0 as int, mb[w.0 as int].drop_first()));
                proof {
                    lemma_total_shrinks(model@, mb, w.0 as int);
                    assert forall|p: int| 0 <= p < iters@.len() implies held(#[trigger] iters@[p], model@) by {
                        assert(before[p] == iters@[p]);
                    }
                    assert forall|i: int| 0 <= i < model@.len() implies sorted_by_key(#[trigger] model@[i]) by {
                        assert(sorted_by_key(mb[i]));
                        if i == w.0 {
                            lemma_sorted_drop_first(mb[i]);
                        }
                    }
                    if model@[w.0 as int].len() > 0 {
                        assert(model@[w.0 as int][0] == m0[w.0 as int][1]);
                        assert(key_lt(m0[w.0 as int][0].0, m0[w.0 as int][1].0));
                        assert(cur.precedes(&w));
                    }
                }
                if w.1.is_valid() {
                    let ghost mid = iters@;
                    let pos = insert_sorted(iters, w);
                    proof {
                        lemma_insert_keeps_presence(mid, w, pos as int, model@, cur.0 as int);
                        assert forall|p: int| 0 <= p < iters@.len() implies held(#[trigger] iters@[p], model@) by {
                            if p < pos {
                                assert(iters@[p] == mid[p]);
                            } else if p > pos {
                                assert(iters@[p] == mid[p - 1]);
                            }
                        }
                        assert forall|p: int| #![trigger iters@[p]] 0 <= p < iters@.len() implies cur.precedes(&iters@[p]) by {
                            if p < pos {
                                assert(iters@[p] == mid[p]);
                            } else if p > pos {
                                assert(iters@[p] == mid[p - 1]);
                            }
                        }
                    }
                } else {
                    proof {
                        assert forall|i: int|
                            0 <= i < model@.len() && (#[trigger] model@[i]).len() > 0 implies (i == cur.0)
                            || exists|p: int| 0 <= p < iters@.len() && iters@[p].0 == i by {
                            assert(mb[i].len() > 0);
                        }
                    }
                }
            },
        }
    }
    let ghost ma = model@;
    proof {
        assert forall|p: int| 0 <= p < iters@.len() implies (#[trigger] iters@[p]).0 != cur.0 by {
            lemma_distinct_origins(cur, iters@[p], ma);
        }
        assert forall|i: int|
            0 <= i < m0.len() && (#[trigger] m0[i]).len() > 0 && m0[i][0].0 == k && i != cur.0 implies ma[i]
            == m0[i].drop_first() by {
            if ma[i] == m0[i] {
                let p = choose|p: int| 0 <= p < iters@.len() && iters@[p].0 == i;
                assert(held(iters@[p], ma));
                let l = iters@.len() - 1;
                lemma_key_lt_irreflexive(k);
                if p != l {
                    assert(iters@[l].precedes(&iters@[p]));
                    if key_lt(iters@[l].head(), k) {
                        lemma_key_lt_asymmetric(k, iters@[l].head());
                    }
                }
            }
        }
        assert(sorted_by_key(ma[cur.0 as int]));
        lemma_sorted_drop_first(ma[cur.0 as int]);
    }
    match cur.1.next() {
        Err(e) => {
            *model = Ghost(ma.update(cur.0 as int, Seq::empty()));
            proof {
                assert forall|p: int| 0 <= p < iters@.len() implies held(#[trigger] iters@[p], model@) by {
                    assert(held(iters@[p], ma));
                }
                assert forall|i: int|
                    0 <= i < model@.len() && (#[trigger] model@[i]).len() > 0 implies exists|p: int|
                        0 <= p < iters@.len() && iters@[p].0 == i by {
                    assert(ma[i].len() > 0);
                }
                assert forall|i: int| 0 <= i < model@.len() implies sorted_by_key(#[trigger] model@[i]) by {
                    assert(sorted_by_key(ma[i]));
                }
            }
            install_least(iters, current, Ghost(model@));
            proof {
                assert(model@[cur.0 as int].len() == 0);
            }
            Err(e)
        },
        Ok(()) => {
            *model = Ghost(ma.update(cur.0 as int, ma[cur.0 as int].drop_first()));
            proof {
                assert forall|p: int| 0 <= p < iters@.len() implies held(#[trigger] iters@[p], model@) by {
                    assert(held(iters@[p], ma));
                }
                assert forall|i: int| 0 <= i < model@.len() implies sorted_by_key(#[trigger] model@[i]) by {
                    assert(sorted_by_key(ma[i]));
                }
                assert forall|i: int|
                    0 <= i < model@.len() && (#[trigger] model@[i]).len() > 0 implies i == cur.0 || exists|p: int|
                        0 <= p < iters@.len() && iters@[p].0 == i by {
                    assert(ma[i].len() > 0);
                }
            }
            if cur.1.is_valid() {
                let ghost mid = iters@;
                let pos = insert_sorted(iters, cur);
                proof {
                    lemma_insert_keeps_presence(mid, cur, pos as int, model@, -1);
                    assert forall|p: int| 0 <= p < iters@.len() implies held(#[trigger] iters@[p], model@) by {
                        if p < pos {
                            assert(iters@[p] == mid[p]);
                        } else if p > pos {
                            assert(iters@[p] == mid[p - 1]);
                        }
                    }
                }
            }
            install_least(iters, current, Ghost(model@));
            proof {
                assert(model@ =~= drop_key(m0, k));
            }
            Ok(())
        },
    }
}

/// Merges sources of one type. Where several hold the same key, the value
/// comes from the one with the smallest index in the list given to `create`.
pub struct MergeIterator<I: StorageIterator> {
    /// Every live source but the current one, in descending order.
    iters: Vec<HeapWrapper<I>>,
    /// The source holding the least key; empty once the merge is exhausted.
    current: Option<HeapWrapper<I>>,
    /// For each origin index, the entries that source still holds.
    model: Ghost<Seq<Seq<Entry>>>,
}

impl<I: StorageIterator> MergeIterator<I> {
    #[verifier::type_invariant]
    spec fn inv(&self) -> bool {
        layout_wf(self.iters@, self.current, self.model@)
    }

    /// For each origin index, the entries that source still holds; a source
    /// that ran out or failed holds none.
    pub closed spec fn sources(&self) -> Seq<Seq<Entry>> {
        self.model@
    }

    /// Builds the merge of `iters`; the position of a source in `iters` is its
    /// origin index. Sources that start out invalid take no part.
    pub fn create(iters: Vec<Box<I>>) -> (r: Self)
        requires
            forall|i: int| 0 <= i < iters@.len() ==> sorted_by_key(#[trigger] iters@[i].entries()),
        ensures
            r.sources() == iters@.map_values(|b: Box<I>| b.entries()),
            all_sorted(r.sources()),
            r.entries().len() == 0 <==> forall|i: int|
                0 <= i < iters@.len() ==> (#[trigger] iters@[i]).entries().len() == 0,
    {
        let ghost model = iters@.map_values(|b: Box<I>| b.entries());
        if iters.is_empty() {
            return Self { iters: Vec::new(), current: None, model: Ghost(model) };
        }
        let mut heap: Vec<HeapWrapper<I>> = Vec::new();
        let mut rest = iters;
        let ghost n = rest@.len();
        while rest.len() > 0
            invariant
                rest@.len() <= n,
                model.len() == n,
                forall|i: int| 0 <= i < rest@.len() ==> model[i] == (#[trigger] rest@[i]).entries(),
                forall|i: int| 0 <= i < n ==> sorted_by_key(#[trigger] model[i]),
                forall|p: int| 0 <= p < heap@.len() ==> held(#[trigger] heap@[p], model),
                forall|p: int| 0 <= p < heap@.len() ==> (#[trigger] heap@[p]).0 >= rest@.len(),
                descending(heap@),
                forall|i: int|
                    rest@.len() <= i < n && (#[trigger] model[i]).len() > 0 ==> exists|p: int|
                        0 <= p < heap@.len() && heap@[p].0 == i,
            decreases rest@.len(),
        {
            let b = rest.pop().unwrap();
            let idx = rest.len();
            if b.is_valid() {
                let ghost before = heap@;
                let pos = insert_sorted(&mut heap, HeapWrapper(idx, b));
                proof {
                    assert forall|i: int|
                        rest@.len() <= i < n && (#[trigger] model[i]).len() > 0 implies exists|p: int|
                        0 <= p < heap@.len() && heap@[p].0 == i by {
                        if i == idx {
                            assert(heap@[pos as int].0 == i);
                        } else {
                            let p = choose|p: int| 0 <= p < before.len() && before[p].0 == i;
                            if p < pos {
                                assert(heap@[p].0 == i);
                            } else {
                                assert(heap@[p + 1].0 == i);
                            }
                        }
                    }
                }
            }
        }
        let mut current: Option<HeapWrapper<I>> = None;
        install_least(&mut heap, &mut current, Ghost(model));
        let r = Self { iters: heap, current, model: Ghost(model) };
        proof {
            r.lemma_entries();
            if current is None {
                lemma_merged_empty(model);
            }
            assert forall|i: int| 0 <= i < iters@.len() && r.entries().len() == 0 implies (
            #[trigger] iters@[i]).entries().len() == 0 by {
                assert(model[i] == iters@[i].entries());
            }
        }
        r
    }

    /// The merged stream starts with the head entry of the current source.
    proof fn lemma_entries(&self)
        requires
            self.inv(),
        ensures
            self.current is Some ==> is_front(self.model@, self.current.unwrap().0 as int)
                && self.entries() == seq![self.model@[self.current.unwrap().0 as int][0]] + merged(
                drop_key(self.model@, self.current.unwrap().head()),
            ),
            self.current is None ==> self.entries().len() == 0,
    {
        match self.current {
            Some(c) => {
                lemma_current_in_front(self.iters@, c, self.model@);
                lemma_merged_unfold(self.model@, c.0 as int);
            },
            None => {
                lemma_merged_empty(self.model@);
            },
        }
    }
}

impl<I: StorageIterator> StorageIterator for MergeIterator<I> {
    type Error = I::Error;

    /// The merge of what every source still holds.
    open spec fn entries(&self) -> Seq<Entry> {
        merged(self.sources())
    }

    fn key(&self) -> (r: &[u8]) {
        proof {
            use_type_invariant(self);
            self.lemma_entries();
        }
        self.current.as_ref().unwrap().1.key()
    }

    fn value(&self) -> (r: &[u8]) {
        proof {
            use_type_invariant(self);
            self.lemma_entries();
        }
        self.current.as_ref().unwrap().1.value()
    }

    fn is_valid(&self) -> (r: bool) {
        proof {
            use_type_invariant(self);
            self.lemma_entries();
        }
        self.current.is_some() && self.current.as_ref().unwrap().1.is_valid()
    }

    fn next(&mut self) -> (r: Result<(), I::Error>)
        ensures
            all_sorted(final(self).sources()),
            final(self).sources().len() == old(self).sources().len(),
            r is Ok ==> final(self).sources() == drop_key(old(self).sources(), old(self).entries()[0].0),
            r is Err ==> exists|i: int|
                0 <= i < old(self).sources().len() && old(self).sources()[i].len() > 0
                    && old(self).sources()[i][0].0 == old(self).entries()[0].0
                    && (#[trigger] final(self).sources()[i]).len() == 0,
    {
        proof {
            use_type_invariant(&*self);
            self.lemma_entries();
        }
        let mut taken = MergeIterator { iters: Vec::new(), current: None, model: Ghost(Seq::empty()) };
        core::mem::swap(self, &mut taken);
        proof {
            use_type_invariant(&taken);
        }
        let MergeIterator { mut iters, mut current, mut model } = taken;
        let r = advance_parts(&mut iters, &mut current, &mut model);
        *self = MergeIterator { iters, current, model };
        proof {
            self.lemma_entries();
        }
        r
    }
}

} // verus!
