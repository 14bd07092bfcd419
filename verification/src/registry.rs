use vstd::prelude::*;
use std::collections::HashMap;

verus! {

broadcast use vstd::std_specs::hash::group_hash_axioms;

/// One text reply, carried to the single session it answers.
pub struct MessageResponse(pub String);

/// The open connections: each session id maps to the reply handle of the
/// one connection it belongs to. Ids are never reused while the registry
/// lives, so a reply routed to a closed session finds nothing.
pub struct SessionRegistry<T> {
    sessions: HashMap<u64, T>,
    next_id: u64,
}

impl<T> SessionRegistry<T> {
    /// The routing table: session id to reply handle.
    pub closed spec fn routes(self) -> Map<u64, T> {
        self.sessions@
    }

    /// The next session id to hand out.
    pub closed spec fn fresh_id(self) -> u64 {
        self.next_id
    }

    /// Every registered id was handed out earlier, so fresh ids never
    /// collide with open sessions.
    pub open spec fn wf(self) -> bool {
        forall|k: u64| self.routes().dom().contains(k) ==> k < self.fresh_id()
    }

    /// An empty registry.
    pub fn new() -> (r: Self)
        ensures
            r.wf(),
            r.routes() == Map::<u64, T>::empty(),
            r.fresh_id() == 0,
    {
        SessionRegistry { sessions: HashMap::new(), next_id: 0 }
    }

    /// Registers a newly opened connection: allocates a fresh session id
    /// and stores the reply handle under it.
    pub fn connect(&mut self, handle: T) -> (id: u64)
        requires
            old(self).wf(),
            old(self).fresh_id() < u64::MAX,
        ensures
            final(self).wf(),
            id == old(self).fresh_id(),
            !old(self).routes().dom().contains(id),
            final(self).routes() == old(self).routes().insert(id, handle),
    {
        let id: u64 = self.next_id;
        self.next_id = self.next_id + 1;
        self.sessions.insert(id, handle);
        proof {
            assert forall|k: u64| self.routes().dom().contains(k) implies k < self.fresh_id() by {
                if k != id {
                    assert(old(self).routes().dom().contains(k));
                }
            }
        }
        id
    }

    /// Removes a closed connection. A reply routed to the session
    /// afterwards finds no handle and is dropped, never queued.
    pub fn disconnect(&mut self, id: u64) -> (was_open: bool)
        ensures
            was_open == old(self).routes().dom().contains(id),
            final(self).routes() == old(self).routes().remove(id),
            final(self).fresh_id() == old(self).fresh_id(),
            old(self).wf() ==> final(self).wf(),
    {
        let r: bool = self.sessions.remove(&id).is_some();
        proof {
            if old(self).wf() {
                assert forall|k: u64| self.routes().dom().contains(k) implies k
                    < self.fresh_id() by {
                    assert(old(self).routes().dom().contains(k));
                }
            }
        }
        r
    }

    /// The reply handle of one session: a reply goes to the originating
    /// session alone, and to nowhere once that session is gone.
    pub fn route(&self, id: u64) -> (r: Option<&T>)
        ensures
            match r {
                Some(h) => self.routes().dom().contains(id) && *h == self.routes()[id],
                None => !self.routes().dom().contains(id),
            },
    {
        self.sessions.get(&id)
    }

    /// How many sessions are open.
    pub fn count(&self) -> (n: usize)
        ensures
            n == self.routes().dom().len(),
    {
        self.sessions.len()
    }
}

} // verus!
