//! Memoizing analysis results by operation identity.

use hazy_ipa::analysis::{LanguageAnalyzer, Operation};
use hazy_ipa::cache::{Cache, CachedLanguageAnalyzer, MemoryCache, NoCache};
use hazy_ipa::{EntryKind, ID};

/// A deterministic analyzer that counts how often it performs work.
struct CountingAnalyzer {
    performed: u64,
}

impl LanguageAnalyzer for CountingAnalyzer {
    type Result = u64;
    type Additional = u64;
    type Error = ();

    fn name(&self) -> &'static str {
        "counting"
    }

    fn version(&self) -> &'static str {
        "1"
    }

    fn categorize_snapshot(&mut self) -> Result<Vec<Operation<u64>>, ()> {
        Ok(Vec::new())
    }

    fn perform_operation(&mut self, _snapshot_id: ID, op: &Operation<u64>) -> Result<u64, ()> {
        self.performed += 1;
        Ok(op.additional * 10)
    }

    fn ensure_operation_performed(&mut self, snapshot_id: ID, op: &Operation<u64>) -> Result<(), ()> {
        self.perform_operation(snapshot_id, op).map(|_| ())
    }
}

#[test]
fn cached_analyzer_performs_each_operation_once() {
    let cache: MemoryCache<Operation<u64>, u64> = MemoryCache::new();
    let mut cached = CachedLanguageAnalyzer::new(CountingAnalyzer { performed: 0 }, cache);
    let op = Operation::new(EntryKind::File, ID::from("[f]"), 7);

    let first = cached.perform_operation(ID::from("[snap]"), &op).unwrap();
    let second = cached.perform_operation(ID::from("[snap]"), &op).unwrap();
    assert_eq!(first, second);
    assert_eq!(70, first);

    let third = cached.perform_operation(ID::from("[snap]"), &op).unwrap();
    assert_eq!(first, third);
}

#[test]
fn cached_analyzer_distinguishes_operation_identities() {
    let cache: MemoryCache<Operation<u64>, u64> = MemoryCache::new();
    let mut cached = CachedLanguageAnalyzer::new(CountingAnalyzer { performed: 0 }, cache);
    let file_op = Operation::new(EntryKind::File, ID::from("[x]"), 1);
    let tree_op = Operation::new(EntryKind::Tree, ID::from("[x]"), 1);
    let other_op = Operation::new(EntryKind::File, ID::from("[x]"), 2);

    assert_eq!(10, cached.perform_operation(ID::from("[s]"), &file_op).unwrap());
    assert_eq!(10, cached.perform_operation(ID::from("[s]"), &tree_op).unwrap());
    assert_eq!(20, cached.perform_operation(ID::from("[s]"), &other_op).unwrap());
}

#[test]
fn ensure_performed_skips_present_results() {
    let cache: MemoryCache<Operation<u64>, u64> = MemoryCache::new();
    let mut cached = CachedLanguageAnalyzer::new(CountingAnalyzer { performed: 0 }, cache);
    let op = Operation::new(EntryKind::Tree, ID::from("[t]"), 3);

    cached.ensure_operation_performed(ID::from("[s]"), &op).unwrap();
    cached.ensure_operation_performed(ID::from("[s]"), &op).unwrap();
    cached.ensure_operation_performed(ID::from("[s]"), &op).unwrap();
    assert_eq!(30, cached.perform_operation(ID::from("[s]"), &op).unwrap());
}

#[test]
fn no_cache_never_retains() {
    let mut cache: NoCache<Operation<u64>, u64> = NoCache::new();
    let op = Operation::new(EntryKind::File, ID::from("[f]"), 5);
    assert!(!cache.contains(&op));
    cache.put(&op, 50);
    assert!(!cache.contains(&op));
    assert!(cache.get(&op).is_none());
}

#[test]
fn memory_cache_lets_the_last_write_win() {
    let mut cache: MemoryCache<Operation<u64>, u64> = MemoryCache::new();
    let op = Operation::new(EntryKind::File, ID::from("[f]"), 5);
    assert!(!cache.contains(&op));
    cache.put(&op, 50);
    cache.put(&op, 51);
    assert!(cache.contains(&op));
    assert_eq!(Some(&51), cache.get(&op));
}

#[test]
fn delegation_preserves_analyzer_identity() {
    let cache: MemoryCache<Operation<u64>, u64> = MemoryCache::new();
    let mut cached = CachedLanguageAnalyzer::new(CountingAnalyzer { performed: 0 }, cache);
    assert_eq!("counting", cached.name());
    assert_eq!("1", cached.version());
    assert!(cached.categorize_snapshot().unwrap().is_empty());
}

#[test]
fn operations_compare_by_content() {
    let a = Operation::new(EntryKind::File, ID::from("[f]"), 7u64);
    let b = Operation::new(EntryKind::File, ID::from("[f]"), 7u64);
    let c = Operation::new(EntryKind::Tree, ID::from("[f]"), 7u64);
    assert!(a == b);
    assert!(a != c);
    assert!(a == a.clone());
}
