use grafeo::storage::tiered::StorageTier;

#[test]
fn test_storage_tier_predicates() {
    assert!(StorageTier::InMemory.is_in_memory());
    assert!(!StorageTier::InMemory.is_on_disk());

    assert!(StorageTier::OnDisk.is_on_disk());
    assert!(!StorageTier::OnDisk.is_in_memory());

    assert!(!StorageTier::Uninitialized.is_in_memory());
    assert!(!StorageTier::Uninitialized.is_on_disk());
}

#[test]
fn test_storage_tier_equality() {
    assert_eq!(StorageTier::InMemory, StorageTier::InMemory);
    assert_ne!(StorageTier::InMemory, StorageTier::OnDisk);
    assert_ne!(StorageTier::OnDisk, StorageTier::Uninitialized);
}
