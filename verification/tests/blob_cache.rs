//! Selection of evicted blobs within a budget.
use sluggrs_skylines::blob_cache::{select_within_budget, BlobKind, CachedBlob, GlyphBlobCache};
use sluggrs_skylines::float32::F32;
use sluggrs_skylines::BlobCacheStats;

#[test]
fn newest_candidates_survive_budget_pressure() {
    // One-blob budget, epochs 10 and 5: the NEWEST (epoch 10) must win,
    // regardless of candidate order.
    let (selected, evicted, oversized) = select_within_budget(&[(10, 100), (5, 100)], 100);
    assert_eq!(selected, vec![0]);
    assert_eq!(evicted, 1);
    assert_eq!(oversized, 0);

    let (selected, evicted, oversized) = select_within_budget(&[(5, 100), (10, 100)], 100);
    assert_eq!(selected, vec![1]);
    assert_eq!(evicted, 1);
    assert_eq!(oversized, 0);
}

#[test]
fn byte_accounting_is_exact_at_the_boundary() {
    // 60 + 40 fills the budget exactly; the third-newest is evicted.
    let (selected, evicted, oversized) = select_within_budget(&[(3, 60), (2, 40), (1, 1)], 100);
    assert_eq!(selected, vec![0, 1]);
    assert_eq!(evicted, 1);
    assert_eq!(oversized, 0);
}

#[test]
fn oversized_blobs_are_counted_separately_and_do_not_block_others() {
    let (selected, evicted, oversized) =
        select_within_budget(&[(9, 1000), (5, 50), (4, 50)], 100);
    assert_eq!(selected, vec![1, 2]);
    assert_eq!(evicted, 0);
    assert_eq!(oversized, 1);
}

#[test]
fn a_skipped_larger_blob_does_not_starve_smaller_older_ones() {
    // Newest (80) fits; next (50) does not; the oldest small one still
    // fits the remainder.
    let (selected, evicted, oversized) =
        select_within_budget(&[(9, 80), (8, 50), (7, 20)], 100);
    assert_eq!(selected, vec![0, 2]);
    assert_eq!(evicted, 1);
    assert_eq!(oversized, 0);
}

#[test]
fn equal_epochs_select_in_stable_index_order() {
    let (selected, evicted, oversized) =
        select_within_budget(&[(5, 60), (5, 60), (5, 60)], 120);
    assert_eq!(selected, vec![0, 1]);
    assert_eq!(evicted, 1);
    assert_eq!(oversized, 0);
}

#[test]
fn every_candidate_is_kept_or_counted() {
    let candidates: Vec<(u64, usize)> = (0..40).map(|i| ((i * 7 % 13) as u64, (i * 31 % 97) as usize)).collect();
    for budget in [0usize, 1, 50, 90, 300, 5000] {
        let (selected, evicted, oversized) = select_within_budget(&candidates, budget);
        assert_eq!(selected.len() as u64 + evicted + oversized, 40);
        let used: usize = selected.iter().map(|i| candidates[*i].1).sum();
        assert!(used <= budget);
    }
}

#[test]
fn fresh_statistics_are_zero() {
    let stats = BlobCacheStats::default();
    assert_eq!((stats.hits, stats.budget_evictions, stats.oversized_drops, stats.repopulated_bytes), (0, 0, 0, 0));
}

fn blob(words: usize) -> CachedBlob {
    let zero = F32 { bits: 0 };
    CachedBlob {
        data: vec![0; words],
        kind: BlobKind::Mono { bounds: [zero; 4], units_per_em: zero },
        border: None,
        last_used_epoch: 0,
    }
}

#[test]
fn bytes_are_those_of_the_entries() {
    let mut cache = GlyphBlobCache::new(1000);
    assert_eq!(cache.stats().bytes, 0);
    cache.replace_entries(vec![(1, blob(10)), (2, blob(30)), (3, blob(0))], 0, 0);
    assert_eq!(cache.stats().bytes, 160);
    assert_eq!(cache.take(2).map(|b| b.data.len()), Some(30));
    assert_eq!(cache.stats().bytes, 40);
    assert!(cache.take(2).is_none());
    assert_eq!(cache.stats().bytes, 40);
    assert_eq!(cache.drain().len(), 2);
    assert_eq!(cache.stats().bytes, 0);
}
