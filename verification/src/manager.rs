//! A small model of resource lifecycle state: enough to ask whether a batch
//! of requested resources has finished loading.

use vstd::prelude::*;

verus! {

/// Lifecycle state of one requested resource.
#[derive(Copy, Clone, PartialEq, Eq, Structural, Debug)]
pub enum ResourceState {
    /// The resource is still being loaded.
    Pending,
    /// The resource loaded successfully.
    Loaded,
    /// Loading the resource failed.
    LoadError,
}

/// A set of requested resources that can be waited for.
pub struct ResourceWaitContext {
    /// The states of the requested resources.
    pub resources: Vec<ResourceState>,
}

impl ResourceWaitContext {
    /// Whether every resource is done: loaded or failed, but no longer
    /// pending.
    pub fn is_all_loaded(&self) -> (r: bool)
        ensures
            r == forall|i: int|
                0 <= i < self.resources@.len() ==> #[trigger] self.resources@[i]
                    != ResourceState::Pending,
    {
        let mut loaded_count: usize = 0;
        let mut i: usize = 0;
        while i < self.resources.len()
            invariant
                0 <= i <= self.resources@.len(),
                loaded_count <= i,
                (loaded_count == i) == forall|j: int|
                    0 <= j < i ==> #[trigger] self.resources@[j] != ResourceState::Pending,
            decreases self.resources@.len() - i,
        {
            if !(self.resources[i] == ResourceState::Pending) {
                loaded_count += 1;
            } else {
                proof {
                    assert(self.resources@[i as int] == ResourceState::Pending);
                }
            }
            i += 1;
        }
        loaded_count == self.resources.len()
    }
}

impl Default for ResourceWaitContext {
    /// A context waiting on no resources; trivially all loaded.
    fn default() -> (r: ResourceWaitContext)
        ensures
            r.resources@ == Seq::<ResourceState>::empty(),
    {
        ResourceWaitContext { resources: Vec::new() }
    }
}

/// An error that may occur during resource registration.
#[derive(Copy, Clone, PartialEq, Eq, Structural, Debug)]
pub enum ResourceRegistrationError {
    /// Saving the resource failed.
    UnableToRegister,
    /// The resource was in a state that cannot be registered.
    InvalidState,
    /// A resource with the same path is already registered.
    AlreadyRegistered,
}

} // verus!
