//! Helpers for tests of fixture servers.
use crate::provisioning::{FixtureHandle, FixtureSpec, Provisioner, ProvisioningError};
use vstd::prelude::*;
use vstd::string::*;

verus! {

/// Deterministic provider for tests that must exercise fixture lifecycle logic.
#[derive(Debug)]
pub struct FakeProvisioner;

impl Default for FakeProvisioner {
    fn default() -> (result: FakeProvisioner)
        ensures
            result == FakeProvisioner,
    {
        FakeProvisioner
    }
}

impl Provisioner for FakeProvisioner {
    fn prepare(&self, spec: &FixtureSpec) -> (result: Result<FixtureHandle, ProvisioningError>)
        ensures
            match result {
                Ok(fixture) => spec.participants@.len() > 0 && fixture.id@ == "fake-"@ + spec.name@,
                Err(ProvisioningError::Unavailable(reason)) => spec.participants@.len() == 0
                    && reason@ == "a fixture needs at least one participant"@,
            },
    {
        if spec.participants.len() == 0 {
            return Err(
                ProvisioningError::Unavailable(
                    "a fixture needs at least one participant".to_owned(),
                ),
            );
        }
        let mut id = "fake-".to_owned();
        id.append(spec.name.as_str());
        Ok(FixtureHandle { id })
    }

    fn cleanup(&self, fixture: &FixtureHandle) -> (result: Result<(), ProvisioningError>)
        ensures
            result is Ok,
    {
        Ok(())
    }
}

} // verus!
