use vstd::prelude::*;
use crate::command::Command;
use crate::state::{registered_spec, short_id_spec, RegistryFull, State};

verus! {

/// The session of one connection: the client's handle and short ID, both
/// unset until a successful handshake, the key under which the connection
/// stands in the world's peer registry, and the frames queued for it.
pub struct Peer {
    pub uid: Option<u64>,
    pub id: Option<u8>,
    pub addr: u64,
    pub outbox: Vec<Command>,
}

impl Peer {
    /// Handle and short ID are set together or not at all.
    pub open spec fn wf(&self) -> bool {
        self.uid.is_some() == self.id.is_some()
    }

    /// A fresh session for connection `addr`, which joins the registry.
    pub fn new(state: &mut State, addr: u64) -> (r: Peer)
        requires
            old(state).wf(),
        ensures
            r.wf(),
            r.uid.is_none(),
            r.id.is_none(),
            r.addr == addr,
            r.outbox@.len() == 0,
            final(state).wf(),
            final(state).peers@ == (if old(state).peers@.contains(addr) {
                old(state).peers@
            } else {
                old(state).peers@.push(addr)
            }),
            final(state).map@ == old(state).map@,
            final(state).id_map@ == old(state).id_map@,
    {
        state.add_peer(addr);
        Peer { uid: None, id: None, addr, outbox: Vec::new() }
    }

    /// Whether the client has completed a handshake.
    pub fn is_registered(&self) -> (r: bool)
        ensures
            r == self.uid.is_some(),
    {
        self.uid.is_some()
    }

    /// Registers handle `uid` with the world and takes the short ID it gets.
    /// When no short ID is left the session stays as it was.
    pub fn register(&mut self, uid: u64, state: &mut State) -> (r: Result<(), RegistryFull>)
        requires
            old(state).wf(),
        ensures
            final(state).wf(),
            final(state).id_map@ == registered_spec(old(state).id_map@, uid),
            final(state).map@ == old(state).map@,
            final(state).peers@ == old(state).peers@,
            final(self).addr == old(self).addr,
            final(self).outbox@ == old(self).outbox@,
            match short_id_spec(old(state).id_map@, uid) {
                Ok(id) => r is Ok && final(self).uid == Some(uid) && final(self).id == Some(id),
                Err(_) => r is Err && final(self).uid == old(self).uid && final(self).id == old(
                    self,
                ).id,
            },
    {
        match state.register_handle(uid) {
            Ok(id) => {
                self.uid = Some(uid);
                self.id = Some(id);
                Ok(())
            },
            Err(e) => Err(e),
        }
    }

    /// Queues `command` for this connection.
    pub fn send(&mut self, command: Command)
        ensures
            final(self).outbox@ == old(self).outbox@.push(command),
            final(self).uid == old(self).uid,
            final(self).id == old(self).id,
            final(self).addr == old(self).addr,
    {
        self.outbox.push(command);
    }
}

} // verus!
