//! The command surface, as plain data: what a user may ask of the
//! directory, free of any argument-parsing machinery. The host maps its
//! argument parser onto these values and back.

use vstd::prelude::*;

verus! {

/// A whole invocation: the command, and whether output is wanted as
/// JSON rather than human-readable text.
#[derive(Debug)]
pub struct Opts {
    pub subcmd: SubCommand,
    pub json: bool,
}

/// The top-level commands.
#[derive(Debug)]
pub enum SubCommand {
    Init(InitOpts),
    Registry(RegistryOpts),
    System(SystemOpts),
    Endpoints(EndpointsOpts),
    Config(ConfigOpts),
}

/// Force the local data to be re-initialized.
#[derive(Debug)]
pub struct InitOpts {}

/// Manage the registries.
#[derive(Debug)]
pub struct RegistryOpts {
    pub registry_subcmd: RegistrySubCommand,
}

/// The registry commands.
#[derive(Debug)]
pub enum RegistrySubCommand {
    List(RegistryListOpts),
    Show(RegistryShowOpts),
    Chains(RegistryChainsOpts),
    Add(RegistryAddOpts),
    Update(RegistryUpdateOpts),
}

/// The configuration commands.
#[derive(Debug)]
pub enum ConfigSubCommand {
    List(ConfigListOpts),
    Edit(ConfigEditOpts),
}

/// The endpoint commands.
#[derive(Debug)]
pub enum EndpointsSubCommand {
    List(EndpointsListOpts),
    Get(EndpointsGetOpts),
    Ping(EndpointsPingOpts),
    Open(EndpointsOpenOpts),
}

/// Fetch the latest documents and update the endpoint lists.
#[derive(Debug)]
pub struct RegistryUpdateOpts {}

/// Work on endpoints.
#[derive(Debug)]
pub struct EndpointsOpts {
    pub endpoints_subcmd: EndpointsSubCommand,
}

/// Work on the configuration.
#[derive(Debug)]
pub struct ConfigOpts {
    pub registry_subcmd: ConfigSubCommand,
}

/// The system commands.
#[derive(Debug)]
pub enum SystemSubCommand {
    Info(SystemInfoOpts),
    Init(SystemInitOpts),
}

/// System-level information and setup.
#[derive(Debug)]
pub struct SystemOpts {
    pub system_subcmd: SystemSubCommand,
}

/// List the known registries.
#[derive(Debug)]
pub struct RegistryListOpts {}

/// Show the registries with some of their content.
#[derive(Debug)]
pub struct RegistryShowOpts {}

/// List every chain the registries know.
#[derive(Debug)]
pub struct RegistryChainsOpts {}

/// Add a registry by the address of its document.
#[derive(Debug)]
pub struct RegistryAddOpts {
    /// Where the registry document lives; it should point at a JSON file.
    pub url: String,
}

/// Remove a registry.
#[derive(Debug)]
pub struct RegistryRemoveOpts {}

/// Enable or disable a registry.
#[derive(Debug)]
pub struct RegistryEnableOpts {
    pub state: bool,
}

/// List the configuration.
#[derive(Debug)]
pub struct ConfigListOpts {}

/// Edit the configuration.
#[derive(Debug)]
pub struct ConfigEditOpts {}

/// Show system information.
#[derive(Debug)]
pub struct SystemInfoOpts {}

/// Re-initialize the local data.
#[derive(Debug)]
pub struct SystemInitOpts {}

/// List every known endpoint.
#[derive(Debug)]
pub struct EndpointsListOpts {}

/// Ping the endpoints and fold the outcomes into their stats.
#[derive(Debug)]
pub struct EndpointsPingOpts {}

/// Get the endpoints of one chain.
#[derive(Debug)]
pub struct EndpointsGetOpts {
    /// Name of the chain, matched case-insensitively.
    pub chain: String,
    /// Show at most this many endpoints.
    pub max: Option<usize>,
}

/// Open an endpoint of one chain in the browser.
#[derive(Debug)]
pub struct EndpointsOpenOpts {
    /// Name of the chain, matched case-insensitively.
    pub chain: String,
    /// The page to open, with `{}` standing for the endpoint's url.
    pub browser_url: String,
}

} // verus!
