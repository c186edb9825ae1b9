use vstd::prelude::*;

verus! {

/// The version of the game registry last applied on this client.
#[derive(Clone, Copy, Debug, PartialEq, Eq, Structural)]
pub struct AppliedRegistryVersion(pub u32);

impl AppliedRegistryVersion {
    /// Whether a registry of version `incoming` is newer than the one applied.
    pub fn accepts(&self, incoming: u32) -> (r: bool)
        ensures
            r == (incoming > self.0),
    {
        incoming > self.0
    }

    /// Records that the registry of version `version` was applied.
    pub fn record(&mut self, version: u32)
        ensures
            final(self).0 == version,
    {
        self.0 = version;
    }
}

} // verus!
