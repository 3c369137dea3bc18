//! Server-neutral fixture provisioning boundary.
use vstd::prelude::*;

verus! {

/// What a fixture has to hold.
#[derive(Clone, Debug, PartialEq, Eq)]
pub struct FixtureSpec {
    pub name: String,
    pub participants: Vec<String>,
    pub groups: Vec<String>,
}

/// A fixture that was prepared.
#[derive(Clone, Debug, PartialEq, Eq)]
pub struct FixtureHandle {
    pub id: String,
}

/// Why a fixture cannot be prepared or cleaned up.
#[derive(Debug)]
pub enum ProvisioningError {
    Unavailable(String),
}

/// An optional boundary for server-specific tenant, identity, and group setup.
///
/// The benchmark core never assumes a particular TAK Server administration API.
pub trait Provisioner: Send + Sync {
    /// Prepares an isolated fixture, or tells why the server cannot.
    fn prepare(&self, spec: &FixtureSpec) -> Result<FixtureHandle, ProvisioningError>;

    /// Cleans a fixture up, or tells why that is not possible.
    fn cleanup(&self, fixture: &FixtureHandle) -> Result<(), ProvisioningError>;
}

} // verus!
