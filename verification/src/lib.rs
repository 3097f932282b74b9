//! A locally cached directory of RPC endpoints for blockchain networks.
//!
//! The directory is pulled from one or more remote registry documents,
//! merged into a single local store, and queried through filters over
//! chain names, aliases, labels and transports. A probe subsystem folds
//! liveness measurements into per-endpoint health statistics.

use vstd::prelude::*;

pub mod endpoint;
pub mod endpoint_stats;
pub mod endpoint_url;
pub mod filter;
pub mod json;
pub mod local_data;
pub mod opts;
pub mod registry;
pub mod text;

pub use endpoint::Endpoint;
pub use endpoint_stats::EndpointStats;
pub use endpoint_url::EndpointUrl;
pub use filter::EndpointType;
pub use filter::Filter;
pub use json::local_data_to_json;
pub use json::parse_local_data_json;
pub use json::parse_registry_json;
pub use json::registry_to_json;
pub use json::ParseError;
pub use json::SerError;
pub use local_data::LocalData;
pub use opts::ConfigEditOpts;
pub use opts::ConfigListOpts;
pub use opts::ConfigOpts;
pub use opts::ConfigSubCommand;
pub use opts::EndpointsGetOpts;
pub use opts::EndpointsListOpts;
pub use opts::EndpointsOpenOpts;
pub use opts::EndpointsOpts;
pub use opts::EndpointsPingOpts;
pub use opts::EndpointsSubCommand;
pub use opts::InitOpts;
pub use opts::Opts;
pub use opts::RegistryAddOpts;
pub use opts::RegistryChainsOpts;
pub use opts::RegistryEnableOpts;
pub use opts::RegistryListOpts;
pub use opts::RegistryOpts;
pub use opts::RegistryRemoveOpts;
pub use opts::RegistryShowOpts;
pub use opts::RegistrySubCommand;
pub use opts::RegistryUpdateOpts;
pub use opts::SubCommand;
pub use opts::SystemInfoOpts;
pub use opts::SystemInitOpts;
pub use opts::SystemOpts;
pub use opts::SystemSubCommand;
pub use registry::RemoteFetchError;
pub use registry::Registry;
pub use endpoint_url::InvalidUrl;

verus! {

/// Name of a chain, as the registry documents spell it.
pub type ChainName = String;

/// A free-form tag attached to endpoints and registries.
pub type Label = String;

/// An alternate lookup key for an endpoint.
pub type Alias = String;

/// Address of a remote registry document.
pub type RegistryUrl = String;

/// Default value for label and alias lists absent from a document.
pub fn empty_string_array() -> (r: Vec<String>)
    ensures
        r@.len() == 0,
{
    Vec::new()
}

/// Default value for the `enabled` flag absent from a document.
pub fn default_true() -> (r: bool)
    ensures
        r == true,
{
    true
}

} // verus!
