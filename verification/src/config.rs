//! Settings of the service and the contracts it talks to.

pub mod contracts;
pub mod settings;

pub use contracts::ContractAddresses;
pub use settings::{ChainSettings, RoutingSettings, ServerSettings, Settings};
