//! The iteration contract shared by every sorted source and by the merge itself.
use vstd::prelude::*;

use crate::key::key_lt;

verus! {

/// One key/value pair, as byte sequences.
pub type Entry = (Seq<u8>, Seq<u8>);

/// Keys strictly increase along `s`.
pub open spec fn sorted_by_key(s: Seq<Entry>) -> bool {
    forall|a: int, b: int| 0 <= a < b < s.len() ==> key_lt(#[trigger] s[a].0, #[trigger] s[b].0)
}

/// A sorted sequence stays sorted without its first entry.
pub proof fn lemma_sorted_drop_first(s: Seq<Entry>)
    requires
        sorted_by_key(s),
        s.len() > 0,
    ensures
        sorted_by_key(s.drop_first()),
{
    assert forall|a: int, b: int| 0 <= a < b < s.drop_first().len() implies key_lt(
        #[trigger] s.drop_first()[a].0,
        #[trigger] s.drop_first()[b].0,
    ) by {
        assert(s.drop_first()[a] == s[a + 1]);
        assert(s.drop_first()[b] == s[b + 1]);
    }
}

/// A sorted feed of key/value pairs.
///
/// `entries` is what the source still has to yield, starting with the entry it
/// points at; the source is valid while that sequence is not empty.
pub trait StorageIterator {
    /// What a failed step reports.
    type Error;

    /// What the source still has to yield. A source verified against this
    /// contract defines it; the default is closed, so that nothing is known of
    /// a source that does not.
    closed spec fn entries(&self) -> Seq<Entry> {
        Seq::empty()
    }

    /// The key of the current entry.
    fn key(&self) -> (r: &[u8])
        requires
            self.entries().len() > 0,
        ensures
            r@ == self.entries()[0].0,
    ;

    /// The value of the current entry.
    fn value(&self) -> (r: &[u8])
        requires
            self.entries().len() > 0,
        ensures
            r@ == self.entries()[0].1,
    ;

    /// Whether the source points at an entry.
    fn is_valid(&self) -> (r: bool)
        ensures
            r == (self.entries().len() > 0),
    ;

    /// Moves to the next entry. After a failure the position is unknown and the
    /// source must not be used again.
    fn next(&mut self) -> (r: Result<(), Self::Error>)
        requires
            old(self).entries().len() > 0,
        ensures
            r is Ok ==> final(self).entries() == old(self).entries().drop_first(),
    ;
}

} // verus!
