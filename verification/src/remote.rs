//! What a remote does: fetch diffs for a state map, and host it.
//!
//! A remote tracks a source of updates, in the way a git remote does. Its implementation
//! is left to the user of the library; [`DummyRemote`] is one that fetches nothing.
use vstd::prelude::*;

use crate::diff::{Diff, DiffView};
use crate::statemap::StateMap;

verus! {

/// A `Remote` fetches diffs from a location such as a server, for the
/// [`crate::StateMap`] that a hash identifies. Its implementation is left to the user.
pub trait Remote: Sized {
    /// What [`Remote::fetch_updates`] may answer, with these arguments; any answer unless
    /// an implementation says more.
    open spec fn fetch_outcome(
        &self,
        update_id_current: u64,
        update_id_new: u64,
        hash: Seq<u8>,
        r: Result<Diff, String>,
    ) -> bool {
        true
    }

    /// What [`Remote::init`] may answer for `statemap`; any answer unless an implementation
    /// says more.
    open spec fn init_outcome(&self, statemap: StateMap<Self>, r: Result<(), String>) -> bool {
        true
    }

    /// Fetches the changes from update id `update_id_current` to `update_id_new` of the
    /// state map identified by `hash`. Values are atomic: a change carries the whole value.
    fn fetch_updates(&self, update_id_current: u64, update_id_new: u64, hash: &[u8; 32]) -> (r:
        Result<Diff, String>)
        ensures
            self.fetch_outcome(update_id_current, update_id_new, hash@, r),
    ;

    /// Ensures that the remote holds or hosts an instance of `statemap`.
    fn init(&self, statemap: &StateMap<Self>) -> (r: Result<(), String>)
        ensures
            self.init_outcome(*statemap, r),
    ;
}

/// A remote that can send events back to the master state map.
pub trait EventBroadcaster {
    /// Sends an encoded event to the master state map identified by `hash`.
    fn send_event(&self, encoded_event: Vec<u8>, hash: &[u8; 32]) -> Result<(), String>;
}

/// A placeholder remote for state maps whose updates are not fetched, such as a master
/// state map that the central authority updates itself.
pub struct DummyRemote;

impl Remote for DummyRemote {
    /// A diff without changes, whose update ids are both 0.
    open spec fn fetch_outcome(
        &self,
        update_id_current: u64,
        update_id_new: u64,
        hash: Seq<u8>,
        r: Result<Diff, String>,
    ) -> bool {
        r matches Ok(d) && d@ == (DiffView {
            entries: Seq::empty(),
            is_full: false,
            from_update_id: 0,
            upto_update_id: 0,
        })
    }

    /// Success.
    open spec fn init_outcome(&self, statemap: StateMap<Self>, r: Result<(), String>) -> bool {
        r is Ok
    }

    /// Returns a diff without changes, whose update ids are both 0.
    fn fetch_updates(&self, update_id_current: u64, update_id_new: u64, hash: &[u8; 32]) -> (r:
        Result<Diff, String>)
        ensures
            r matches Ok(d) && d@ == (DiffView {
                entries: Seq::empty(),
                is_full: false,
                from_update_id: 0,
                upto_update_id: 0,
            }),
    {
        let d = Diff::new(Vec::new(), false, 0, 0);
        assert(d@.entries =~= Seq::empty());
        Ok(d)
    }

    /// Does nothing, and succeeds.
    fn init(&self, statemap: &StateMap<Self>) -> (r: Result<(), String>)
        ensures
            r is Ok,
    {
        Ok(())
    }
}

impl EventBroadcaster for DummyRemote {
    /// Does nothing, and succeeds.
    fn send_event(&self, encoded_event: Vec<u8>, hash: &[u8; 32]) -> (r: Result<(), String>)
        ensures
            r is Ok,
    {
        Ok(())
    }
}

} // verus!
