use routing_engine::config::ContractAddresses;
use routing_engine::sync::SyncConfig;

#[test]
fn test_basic() {
    assert_eq!(2 + 2, 4);
}

#[test]
fn test_base_mainnet_addresses() {
    let contracts = ContractAddresses::base_mainnet();
    assert_eq!(
        contracts.pool_manager,
        "0x91B9463d0e4d99BB2D922cba2C9D4cd13c9a7C05"
    );
}

#[test]
fn test_for_chain() {
    let contracts = ContractAddresses::for_chain(8453);
    assert!(contracts.is_some());

    let contracts = ContractAddresses::for_chain(1);
    assert!(contracts.is_none());
}

#[test]
fn test_validate() {
    let contracts = ContractAddresses::base_mainnet();
    assert!(contracts.validate().is_ok());
}

#[test]
fn test_sync_config_defaults() {
    let config = SyncConfig::default();
    assert_eq!(config.refresh_interval_secs, 12);
    assert_eq!(config.cache_ttl_secs, 30);
    assert!(config.subgraph_url.is_none());
}
