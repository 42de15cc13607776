use std::cmp::Ordering;

use lsm_merge::key::compare_keys;
use lsm_merge::{MergeIterator, StorageIterator};

/// A source over a fixed list of entries that can be told to fail on the
/// step taken from a given position.
struct MockIterator {
    data: Vec<(Vec<u8>, Vec<u8>)>,
    pos: usize,
    fail_at: Option<usize>,
}

impl MockIterator {
    fn new(pairs: &[(&[u8], &[u8])]) -> Self {
        MockIterator {
            data: pairs.iter().map(|(k, v)| (k.to_vec(), v.to_vec())).collect(),
            pos: 0,
            fail_at: None,
        }
    }

    fn failing_at(pairs: &[(&[u8], &[u8])], at: usize) -> Self {
        let mut it = MockIterator::new(pairs);
        it.fail_at = Some(at);
        it
    }
}

impl StorageIterator for MockIterator {
    type Error = String;

    fn key(&self) -> &[u8] {
        &self.data[self.pos].0
    }

    fn value(&self) -> &[u8] {
        &self.data[self.pos].1
    }

    fn is_valid(&self) -> bool {
        self.pos < self.data.len()
    }

    fn next(&mut self) -> Result<(), String> {
        if self.fail_at == Some(self.pos) {
            return Err(format!("source failed at position {}", self.pos));
        }
        self.pos += 1;
        Ok(())
    }
}

fn drain<I: StorageIterator>(it: &mut I) -> Vec<(Vec<u8>, Vec<u8>)>
where
    I::Error: std::fmt::Debug,
{
    let mut out = Vec::new();
    while it.is_valid() {
        out.push((it.key().to_vec(), it.value().to_vec()));
        it.next().unwrap();
    }
    out
}

fn pairs(items: &[(&[u8], &[u8])]) -> Vec<(Vec<u8>, Vec<u8>)> {
    items.iter().map(|(k, v)| (k.to_vec(), v.to_vec())).collect()
}

#[test]
fn merge_three_sources_prefers_lowest_index() {
    let a = MockIterator::new(&[(b"1", b"a1"), (b"3", b"a3")]);
    let b = MockIterator::new(&[(b"1", b"b1"), (b"2", b"b2")]);
    let c = MockIterator::new(&[(b"2", b"c2"), (b"3", b"c3")]);
    let mut m = MergeIterator::create(vec![Box::new(a), Box::new(b), Box::new(c)]);
    assert_eq!(
        drain(&mut m),
        pairs(&[(b"1", b"a1"), (b"2", b"b2"), (b"3", b"a3")])
    );
    assert!(!m.is_valid());
}

#[test]
fn create_empty_is_invalid() {
    let m: MergeIterator<MockIterator> = MergeIterator::create(Vec::new());
    assert!(!m.is_valid());
}

#[test]
fn single_source_single_entry() {
    let d = MockIterator::new(&[(b"5", b"x")]);
    let mut m = MergeIterator::create(vec![Box::new(d)]);
    assert!(m.is_valid());
    assert_eq!(m.key(), b"5");
    assert_eq!(m.value(), b"x");
    assert!(m.next().is_ok());
    assert!(!m.is_valid());
}

#[test]
fn sources_that_start_invalid_are_skipped() {
    let e1 = MockIterator::new(&[]);
    let e2 = MockIterator::new(&[]);
    let m = MergeIterator::create(vec![Box::new(e1), Box::new(e2)]);
    assert!(!m.is_valid());

    let e = MockIterator::new(&[]);
    let a = MockIterator::new(&[(b"k", b"v")]);
    let mut m = MergeIterator::create(vec![Box::new(e), Box::new(a)]);
    assert_eq!(drain(&mut m), pairs(&[(b"k", b"v")]));
}

#[test]
fn keys_strictly_increase() {
    let a = MockIterator::new(&[(b"a", b"1"), (b"c", b"1"), (b"e", b"1")]);
    let b = MockIterator::new(&[(b"b", b"2"), (b"c", b"2"), (b"d", b"2"), (b"e", b"2")]);
    let c = MockIterator::new(&[(b"a", b"3"), (b"f", b"3")]);
    let mut m = MergeIterator::create(vec![Box::new(a), Box::new(b), Box::new(c)]);
    let out = drain(&mut m);
    let keys: Vec<Vec<u8>> = out.iter().map(|(k, _)| k.clone()).collect();
    assert_eq!(
        keys,
        vec![b"a".to_vec(), b"b".to_vec(), b"c".to_vec(), b"d".to_vec(), b"e".to_vec(), b"f".to_vec()]
    );
    assert_eq!(out[0].1, b"1".to_vec());
    assert_eq!(out[2].1, b"1".to_vec());
    assert_eq!(out[3].1, b"2".to_vec());
    assert_eq!(out[5].1, b"3".to_vec());
    for w in keys.windows(2) {
        assert!(w[0] < w[1]);
    }
}

#[test]
fn same_key_in_every_source() {
    let a = MockIterator::new(&[(b"k", b"newest")]);
    let b = MockIterator::new(&[(b"k", b"middle")]);
    let c = MockIterator::new(&[(b"k", b"oldest")]);
    let mut m = MergeIterator::create(vec![Box::new(a), Box::new(b), Box::new(c)]);
    assert_eq!(drain(&mut m), pairs(&[(b"k", b"newest")]));
}

#[test]
fn exhausted_stays_invalid() {
    let a = MockIterator::new(&[(b"x", b"1")]);
    let b = MockIterator::new(&[(b"x", b"2")]);
    let mut m = MergeIterator::create(vec![Box::new(a), Box::new(b)]);
    assert!(m.next().is_ok());
    assert!(!m.is_valid());
    assert!(!m.is_valid());
}

#[test]
fn failure_while_draining_duplicates_is_returned() {
    let a = MockIterator::new(&[(b"1", b"a1"), (b"3", b"a3")]);
    let b = MockIterator::failing_at(&[(b"1", b"b1"), (b"2", b"b2")], 0);
    let mut m = MergeIterator::create(vec![Box::new(a), Box::new(b)]);
    assert_eq!(m.key(), b"1");
    let r = m.next();
    assert_eq!(r, Err("source failed at position 0".to_string()));
    // The failing source is gone; the current entry is untouched.
    assert!(m.is_valid());
    assert_eq!(m.key(), b"1");
    assert_eq!(m.value(), b"a1");
    // The failed source takes no further part.
    assert!(m.next().is_ok());
    assert_eq!(m.key(), b"3");
    assert_eq!(m.value(), b"a3");
}

#[test]
fn failure_of_current_source_is_returned() {
    let a = MockIterator::failing_at(&[(b"1", b"a1"), (b"3", b"a3")], 0);
    let b = MockIterator::new(&[(b"2", b"b2")]);
    let mut m = MergeIterator::create(vec![Box::new(a), Box::new(b)]);
    assert_eq!(m.next(), Err("source failed at position 0".to_string()));
}

#[test]
fn nested_merge() {
    let a = MockIterator::new(&[(b"1", b"a1"), (b"4", b"a4")]);
    let b = MockIterator::new(&[(b"2", b"b2"), (b"4", b"b4")]);
    let c = MockIterator::new(&[(b"1", b"c1"), (b"3", b"c3")]);
    let d = MockIterator::new(&[(b"3", b"d3"), (b"5", b"d5")]);
    let left = MergeIterator::create(vec![Box::new(a), Box::new(b)]);
    let right = MergeIterator::create(vec![Box::new(c), Box::new(d)]);
    let mut top = MergeIterator::create(vec![Box::new(left), Box::new(right)]);
    assert_eq!(
        drain(&mut top),
        pairs(&[(b"1", b"a1"), (b"2", b"b2"), (b"3", b"c3"), (b"4", b"a4"), (b"5", b"d5")])
    );
}

#[test]
fn keys_compare_byte_wise() {
    assert_eq!(compare_keys(b"abc", b"abd"), Ordering::Less);
    assert_eq!(compare_keys(b"ab", b"abc"), Ordering::Less);
    assert_eq!(compare_keys(b"abc", b"abc"), Ordering::Equal);
    assert_eq!(compare_keys(b"b", b"abc"), Ordering::Greater);
    assert_eq!(compare_keys(b"", b""), Ordering::Equal);
    assert_eq!(compare_keys(&[0xff], &[0x01, 0x02]), Ordering::Greater);
}

#[test]
fn keys_of_different_lengths_merge_in_byte_order() {
    let a = MockIterator::new(&[(b"ab", b"a"), (b"b", b"a")]);
    let b = MockIterator::new(&[(b"a", b"b"), (b"abc", b"b")]);
    let mut m = MergeIterator::create(vec![Box::new(a), Box::new(b)]);
    assert_eq!(
        drain(&mut m),
        pairs(&[(b"a", b"b"), (b"ab", b"a"), (b"abc", b"b"), (b"b", b"a")])
    );
}

#[test]
fn first_key_is_least_of_all_sources() {
    let a = MockIterator::new(&[(b"m", b"a"), (b"z", b"a")]);
    let b = MockIterator::new(&[(b"q", b"b")]);
    let c = MockIterator::new(&[(b"c", b"c"), (b"n", b"c")]);
    let mut m = MergeIterator::create(vec![Box::new(a), Box::new(b), Box::new(c)]);
    assert_eq!(m.key(), b"c");
    assert_eq!(m.value(), b"c");
    assert!(m.next().is_ok());
    assert_eq!(m.key(), b"m");
    assert!(m.next().is_ok());
    assert_eq!(m.key(), b"n");
}
