//! Client-side session state.
//!
//! A client session pairs one connection to the server with a background
//! worker that does the actual reads and writes. Foreground and worker talk
//! through two queues — inbound commands waiting for the game loop, outbound
//! commands waiting for the wire — and a `running` flag the worker checks on
//! every turn. This module holds that shared state and its transitions; the
//! caller supplies the locking, the socket and the thread.
//!
//! Both queues are drained newest-first: the consumer pops the most recently
//! pushed command.

use vstd::prelude::*;

use crate::codec::Command;

verus! {

/// Why establishing a connection failed.
#[derive(Copy, Clone, Debug, PartialEq, Eq, Structural)]
pub enum ClientConnectionError {
    UnableToResolve,
    ServerNotFound,
    ElapsedTimeout,
    ServerRefused,
}

/// The id a client uses for its own entity in outbound commands. The server
/// overwrites it with the connection's assigned id, so any placeholder works;
/// zero is the convention.
pub const OWN_ENTITY: usize = 0;

/// The state a client session shares between its foreground and its network
/// worker.
#[derive(Debug)]
pub struct Session {
    /// Commands received from the server, waiting for the game loop.
    pub inbox: Vec<Command>,
    /// Commands from the game loop, waiting to be sent.
    pub outbox: Vec<Command>,
    /// Cleared exactly once, by `stop`; the worker exits when it sees false.
    pub running: bool,
}

impl Session {
    /// A fresh session: empty queues, worker expected to run.
    pub fn new() -> (r: Session)
        ensures
            r.inbox@ == Seq::<Command>::empty(),
            r.outbox@ == Seq::<Command>::empty(),
            r.running,
    {
        Session { inbox: Vec::new(), outbox: Vec::new(), running: true }
    }

    /// Foreground: queue one command for the wire.
    pub fn push_outbound(&mut self, c: Command)
        ensures
            final(self).outbox@ == old(self).outbox@.push(c),
            final(self).inbox == old(self).inbox,
            final(self).running == old(self).running,
    {
        self.outbox.push(c);
    }

    /// Worker: take the most recently queued outbound command, if any.
    pub fn pop_outbound(&mut self) -> (r: Option<Command>)
        ensures
            final(self).inbox == old(self).inbox,
            final(self).running == old(self).running,
            old(self).outbox@.len() == 0 ==> r is None && final(self).outbox@ == old(self).outbox@,
            old(self).outbox@.len() > 0 ==> r == Some(old(self).outbox@.last()) && final(self).outbox@ == old(self).outbox@.drop_last(),
    {
        self.outbox.pop()
    }

    /// Worker: hand one received command to the foreground.
    pub fn push_inbound(&mut self, c: Command)
        ensures
            final(self).inbox@ == old(self).inbox@.push(c),
            final(self).outbox == old(self).outbox,
            final(self).running == old(self).running,
    {
        self.inbox.push(c);
    }

    /// Foreground: take the most recently received command, if any.
    pub fn pop_inbound(&mut self) -> (r: Option<Command>)
        ensures
            final(self).outbox == old(self).outbox,
            final(self).running == old(self).running,
            old(self).inbox@.len() == 0 ==> r is None && final(self).inbox@ == old(self).inbox@,
            old(self).inbox@.len() > 0 ==> r == Some(old(self).inbox@.last()) && final(self).inbox@ == old(self).inbox@.drop_last(),
    {
        self.inbox.pop()
    }

    /// Tear the session down: exactly one `Despawn` for the session's own
    /// entity joins the outbound queue, and the worker is told to stop. The
    /// caller then joins the worker thread before letting the session go.
    pub fn stop(&mut self)
        ensures
            final(self).outbox@ == old(self).outbox@.push(Command::Despawn(OWN_ENTITY)),
            final(self).inbox == old(self).inbox,
            !final(self).running,
    {
        self.outbox.push(Command::Despawn(OWN_ENTITY));
        self.running = false;
    }
}

} // verus!
