//! The remote-synchronization protocol: the decisions of the startup merge
//! and of the steady-state push loop, as verified functions from state and
//! observation to next state. The timer and the transport live outside.

use vstd::prelude::*;

use crate::store::MemoryTiddlersStore;

verus! {

/// The synchronizer's state between ticks: the global revision ordinal of
/// the last snapshot known to have reached the remote store.
pub struct RemoteSync {
    last_pushed: u64,
}

impl View for RemoteSync {
    type V = nat;

    closed spec fn view(&self) -> nat {
        self.last_pushed as nat
    }
}

impl RemoteSync {
    /// The startup step: merge a fetched remote snapshot into the store if
    /// the remote is strictly newer, then record the post-merge ordinal as
    /// already pushed, so the merge result is not re-pushed as a local
    /// change. A failed or unusable fetch keeps the local store.
    pub fn bootstrap(store: &mut MemoryTiddlersStore, remote: Option<MemoryTiddlersStore>) -> (r:
        RemoteSync)
        ensures
            match remote {
                None => final(store)@ == old(store)@,
                Some(c) => {
                    &&& c@.revision > old(store)@.revision ==> final(store)@ == c@
                    &&& c@.revision <= old(store)@.revision ==> final(store)@ == old(store)@
                },
            },
            r@ == final(store)@.revision,
    {
        match remote {
            Some(c) => store.replace_if_newer(c),
            None => (),
        }
        RemoteSync { last_pushed: store.global_revision_num() }
    }

    /// Whether this tick must push: exactly when the current ordinal
    /// differs from the last one known pushed.
    pub fn needs_push(&self, current: u64) -> (r: bool)
        ensures
            r == (current as nat != self@),
    {
        current != self.last_pushed
    }

    /// Records the outcome of pushing the snapshot observed at ordinal
    /// `observed`: success marks it delivered; failure leaves the mark
    /// unchanged, so the next tick retries with then-current state.
    pub fn record_push(&mut self, observed: u64, ok: bool)
        ensures
            ok ==> final(self)@ == observed as nat,
            !ok ==> final(self)@ == old(self)@,
    {
        if ok {
            self.last_pushed = observed;
        }
    }
}

} // verus!
