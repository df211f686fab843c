use koru_delta::lifecycle::MemoryTier;
use koru_delta::roots::RootType;

#[test]
fn test_memory_tier_display() {
    assert_eq!(MemoryTier::Hot.as_str(), "hot");
    assert_eq!(MemoryTier::Warm.as_str(), "warm");
    assert_eq!(MemoryTier::Cold.as_str(), "cold");
    assert_eq!(MemoryTier::Deep.as_str(), "deep");
}

#[test]
fn test_root_type_display() {
    assert_eq!(RootType::Storage.as_str(), "STORAGE");
    assert_eq!(RootType::Field.as_str(), "FIELD");
    assert_eq!(RootType::Temperature.as_str(), "TEMPERATURE");
}

#[test]
fn root_names_are_upper_case_words() {
    assert_eq!(RootType::Orchestrator.as_str(), "ORCHESTRATOR");
    assert_eq!(RootType::Network.as_str(), "NETWORK");
    assert_eq!(RootType::Identity.as_str(), "IDENTITY");
}
