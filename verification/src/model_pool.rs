//! Pool for managing multiple models in memory.

use vstd::prelude::*;
use vstd::string::*;
use crate::metal::types::DeviceParts;
use crate::speculative::SpeculativeError;
use crate::table::Table;

verus! {

/// A pool of models that are resident in memory (CPU or GPU).
///
/// This structure allows for zero-latency switching between models by keeping
/// their weights and pipelines pre-loaded.
#[verifier::reject_recursive_types(M)]
pub struct ModelPool<M> {
    pub models: Table<M>,
    /// Which parts of a device there are to load models with.
    pub parts: DeviceParts,
}

/// What keeps a model from being loaded: the first part that is missing.
pub open spec fn missing_part(parts: DeviceParts) -> Option<Seq<char>> {
    if !parts.device {
        Some("No device"@)
    } else if !parts.command_queue {
        Some("No queue"@)
    } else if !parts.library {
        Some("No library"@)
    } else {
        None
    }
}

impl<M> ModelPool<M> {
    /// Creates a new, empty model pool.
    pub fn new(parts: DeviceParts) -> (p: Self)
        ensures
            p.models@ == Map::<Seq<char>, M>::empty(),
            p.parts == parts,
    {
        ModelPool { models: Table::new(), parts }
    }

    /// Returns a model by name if it exists in the pool.
    pub fn get(&self, name: &str) -> (m: Option<&M>)
        ensures
            m is Some <==> self.models@.contains_key(name@),
            m is Some ==> *m->0 == self.models@[name@],
    {
        self.models.get(name)
    }

    /// Adds a model to the pool.
    pub fn add(&mut self, name: String, model: M)
        ensures
            final(self).models@ == old(self).models@.insert(name@, model),
            final(self).parts == old(self).parts,
    {
        self.models.insert(name, model);
    }

    /// Removes a model from the pool.
    pub fn remove(&mut self, name: &str)
        ensures
            final(self).models@ == old(self).models@.remove(name@),
            final(self).parts == old(self).parts,
    {
        let _ = self.models.remove(name);
    }

    /// Whether models can be loaded: every part of the device must be there.
    pub fn check_load(&self) -> (r: Result<(), SpeculativeError>)
        ensures
            match missing_part(self.parts) {
                None => r is Ok,
                Some(s) => r is Err && r->Err_0 is Model && r->Err_0->Model_0@ == s,
            },
    {
        if !self.parts.device {
            return Err(SpeculativeError::Model(String::from_str("No device")));
        }
        if !self.parts.command_queue {
            return Err(SpeculativeError::Model(String::from_str("No queue")));
        }
        if !self.parts.library {
            return Err(SpeculativeError::Model(String::from_str("No library")));
        }
        Ok(())
    }

    /// Takes in a model that was loaded under a name. Where the device is not
    /// complete, or loading failed, the pool stays as it is.
    pub fn finish_load(&mut self, name: String, loaded: Result<M, SpeculativeError>) -> (r: Result<
        (),
        SpeculativeError,
    >)
        ensures
            final(self).parts == old(self).parts,
            match missing_part(old(self).parts) {
                Some(s) => r is Err && r->Err_0 is Model && r->Err_0->Model_0@ == s
                    && final(self).models@ == old(self).models@,
                None => match loaded {
                    Ok(model) => r is Ok && final(self).models@ == old(self).models@.insert(
                        name@,
                        model,
                    ),
                    Err(e) => r is Err && r->Err_0 == e && final(self).models@
                        == old(self).models@,
                },
            },
    {
        match self.check_load() {
            Err(e) => {
                return Err(e);
            },
            Ok(()) => {},
        }
        match loaded {
            Ok(model) => {
                self.models.insert(name, model);
                Ok(())
            },
            Err(e) => Err(e),
        }
    }
}


/// A model can be loaded exactly where the device, its queue and its library are there.
pub proof fn all_parts_are_needed(parts: DeviceParts)
    ensures
        missing_part(parts) is None <==> parts.device && parts.command_queue && parts.library,
{
}
} // verus!
