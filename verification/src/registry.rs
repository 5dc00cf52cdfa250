//! Registration: one index per tracked attribute type, wired into the
//! host's totally ordered pipeline of phases. The registry rejects a
//! second registration of the same attribute and a synchronizer phase that
//! does not lie strictly between every phase that mutates the attribute
//! and every phase that reads the index — the ordering that keeps reads
//! from observing state one phase stale.

use std::collections::HashMap;
use vstd::prelude::*;

verus! {

broadcast use vstd::std_specs::hash::group_hash_axioms;

/// Why a registration request was rejected.
#[derive(Clone, Copy, Debug, PartialEq, Eq, Structural)]
pub enum RegistrationError {
    /// The attribute type already owns an index.
    DoubleRegistration,
    /// The requested synchronizer phase does not lie strictly between the
    /// mutating phases and the reading phases.
    MisplacedSynchronizer,
}

/// Whether a synchronizer placed in `sync_phase` runs after every phase
/// that mutates the tracked attribute and before every phase that reads
/// the index.
pub open spec fn placement_ok_spec(
    mutate_phases: Seq<u64>,
    sync_phase: u64,
    read_phases: Seq<u64>,
) -> bool {
    &&& forall|i: int| 0 <= i < mutate_phases.len() ==> #[trigger] mutate_phases[i] < sync_phase
    &&& forall|j: int| 0 <= j < read_phases.len() ==> sync_phase < #[trigger] read_phases[j]
}

/// Decides `placement_ok_spec` for given phase lists.
pub fn placement_ok(mutate_phases: &Vec<u64>, sync_phase: u64, read_phases: &Vec<u64>) -> (r: bool)
    ensures
        r == placement_ok_spec(mutate_phases@, sync_phase, read_phases@),
{
    let mut i: usize = 0;
    while i < mutate_phases.len()
        invariant
            i <= mutate_phases@.len(),
            forall|a: int| 0 <= a < i ==> #[trigger] mutate_phases@[a] < sync_phase,
        decreases mutate_phases@.len() - i,
    {
        if mutate_phases[i] >= sync_phase {
            return false;
        }
        i += 1;
    }
    let mut j: usize = 0;
    while j < read_phases.len()
        invariant
            j <= read_phases@.len(),
            forall|a: int| 0 <= a < mutate_phases@.len() ==> #[trigger] mutate_phases@[a]
                < sync_phase,
            forall|b: int| 0 <= b < j ==> sync_phase < #[trigger] read_phases@[b],
        decreases read_phases@.len() - j,
    {
        if sync_phase >= read_phases[j] {
            return false;
        }
        j += 1;
    }
    true
}

/// The registration state: each registered attribute type, by token, with
/// the phase its synchronizer runs in.
pub struct IndexRegistry {
    registered: HashMap<u64, u64>,
}

impl IndexRegistry {
    /// The registered attribute types mapped to their synchronizer phase.
    pub closed spec fn registrations(self) -> Map<u64, u64> {
        self.registered@
    }

    /// Creates a registry with nothing registered.
    pub fn new() -> (r: Self)
        ensures
            r.registrations() == Map::<u64, u64>::empty(),
    {
        let r = IndexRegistry { registered: HashMap::new() };
        proof {
            assert(r.registrations() =~= Map::<u64, u64>::empty());
        }
        r
    }

    /// Registers an index for the attribute type named by `token`, with
    /// its synchronizer in `sync_phase`. Succeeds exactly once per token
    /// and only with a well-placed synchronizer: a second registration is
    /// the configuration error `DoubleRegistration`, and a phase that is
    /// not strictly between the mutating and the reading phases is
    /// `MisplacedSynchronizer`. A rejected request changes nothing.
    pub fn init_index(
        &mut self,
        token: u64,
        mutate_phases: &Vec<u64>,
        sync_phase: u64,
        read_phases: &Vec<u64>,
    ) -> (r: Result<(), RegistrationError>)
        ensures
            old(self).registrations().contains_key(token) ==> r == Result::<
                (),
                RegistrationError,
            >::Err(RegistrationError::DoubleRegistration) && final(self).registrations() == old(
                self,
            ).registrations(),
            !old(self).registrations().contains_key(token) && !placement_ok_spec(
                mutate_phases@,
                sync_phase,
                read_phases@,
            ) ==> r == Result::<(), RegistrationError>::Err(
                RegistrationError::MisplacedSynchronizer,
            ) && final(self).registrations() == old(self).registrations(),
            !old(self).registrations().contains_key(token) && placement_ok_spec(
                mutate_phases@,
                sync_phase,
                read_phases@,
            ) ==> r == Result::<(), RegistrationError>::Ok(()) && final(self).registrations()
                == old(self).registrations().insert(token, sync_phase),
    {
        if self.registered.contains_key(&token) {
            return Err(RegistrationError::DoubleRegistration);
        }
        if !placement_ok(mutate_phases, sync_phase, read_phases) {
            return Err(RegistrationError::MisplacedSynchronizer);
        }
        self.registered.insert(token, sync_phase);
        Ok(())
    }
}

} // verus!
