//! The server-side broadcast coordinator.
//!
//! Every command a client sends in becomes a `Message` on a shared queue,
//! authored by that client and pre-marked as read by it. Each per-client
//! worker drains the queue towards its own client, marking what it has
//! handled; a message read by every connected client is evicted. A client can
//! never speak for another entity: the id field of an inbound command is
//! overwritten with the receiving connection's own id before fan-out.
//!
//! The queue itself lives under one lock owned by the caller; the functions
//! here are the state transitions performed while that lock is held.

use std::collections::VecDeque;

use vstd::prelude::*;

use crate::codec::Command;
use crate::framing::{frame_bytes, inc4, inc4n, lemma_reception_wf, spec_reception, Protocol,
    ProtocolError};

verus! {

/// One broadcast queue entry: a command, the connection id it came from, and
/// the connection ids that have already been given it.
#[derive(Debug)]
pub struct Message {
    pub body: Command,
    pub source: usize,
    pub read_by: Vec<usize>,
}

/// `c` with its entity-id field replaced by `id`. `ChangeMap` carries a map
/// seed, not an entity id, so it passes through unchanged, as do the decode
/// sentinels.
pub open spec fn owned_by(c: Command, id: usize) -> Command {
    match c {
        Command::Spawn(_) => Command::Spawn(id),
        Command::Reposition(_, p) => Command::Reposition(id, p),
        Command::Despawn(_) => Command::Despawn(id),
        _ => c,
    }
}

/// Whether `m` is still owed to connection `id`: someone else wrote it and
/// `id` has not been marked as having read it.
pub open spec fn owed_to(m: Message, id: usize) -> bool {
    m.source != id && !m.read_by@.contains(id)
}

/// The bodies of the messages of `q` owed to `id`, in queue order.
pub open spec fn pending(q: Seq<Message>, id: usize) -> Seq<Command>
    decreases q.len(),
{
    if q.len() == 0 {
        Seq::<Command>::empty()
    } else {
        pending(q.drop_last(), id) + (if owed_to(q.last(), id) {
            seq![q.last().body]
        } else {
            Seq::<Command>::empty()
        })
    }
}

/// The messages of `q` that survive eviction with `connected` clients: those
/// not yet read by every connected client, in queue order.
pub open spec fn surviving(q: Seq<Message>, connected: usize) -> Seq<Message>
    decreases q.len(),
{
    if q.len() == 0 {
        Seq::<Message>::empty()
    } else {
        surviving(q.drop_last(), connected) + (if q.last().read_by@.len() < connected {
            seq![q.last()]
        } else {
            Seq::<Message>::empty()
        })
    }
}

/// Whether connection `id` has sent `v`.
fn contains_usize(v: &Vec<usize>, x: usize) -> (r: bool)
    ensures
        r == v@.contains(x),
{
    let mut i: usize = 0;
    while i < v.len()
        invariant
            0 <= i <= v@.len(),
            forall|j: int| 0 <= j < i ==> v@[j] != x,
        decreases v@.len() - i,
    {
        if v[i] == x {
            return true;
        }
        i = i + 1;
    }
    false
}

/// Enqueue a broadcast message authored by `source`, pre-marked as already
/// read by its author.
pub fn broadcast_from(queue: &mut VecDeque<Message>, source: usize, body: Command)
    ensures
        final(queue)@.len() == old(queue)@.len() + 1,
        forall|i: int| 0 <= i < old(queue)@.len() ==> final(queue)@[i] == old(queue)@[i],
        final(queue)@.last().body == body,
        final(queue)@.last().source == source,
        final(queue)@.last().read_by@ == seq![source],
{
    let mut read_by: Vec<usize> = Vec::new();
    read_by.push(source);
    proof {
        assert(read_by@ =~= seq![source]);
    }
    queue.push_back(Message { body, source, read_by });
}

/// Evict every message that all `connected` clients have read; the rest keep
/// their queue order.
pub fn evict_read(queue: &mut VecDeque<Message>, connected: usize)
    ensures
        final(queue)@ == surviving(old(queue)@, connected),
{
    let total = queue.len();
    let mut processed: usize = 0;
    while processed < total
        invariant
            total == old(queue)@.len(),
            0 <= processed <= total,
            queue@ == old(queue)@.skip(processed as int) + surviving(
                old(queue)@.take(processed as int),
                connected,
            ),
        decreases total - processed,
    {
        let m = match queue.pop_front() {
            Some(m) => m,
            None => unreached(),
        };
        proof {
            assert(m == old(queue)@[processed as int]);
            assert(old(queue)@.take(processed + 1).drop_last() =~= old(queue)@.take(
                processed as int,
            ));
            assert(old(queue)@.take(processed + 1).last() == old(queue)@[processed as int]);
        }
        if m.read_by.len() < connected {
            queue.push_back(m);
        }
        proof {
            assert(queue@ =~= old(queue)@.skip(processed + 1) + surviving(
                old(queue)@.take(processed + 1),
                connected,
            ));
        }
        processed = processed + 1;
    }
    proof {
        assert(old(queue)@.take(total as int) =~= old(queue)@);
        assert(old(queue)@.skip(total as int) =~= Seq::<Message>::empty());
        assert(queue@ =~= surviving(old(queue)@, connected));
    }
}

/// The initial burst a newly accepted connection is sent: the current map
/// seed, then a spawn for every already-connected client, framed in order on
/// the new connection's own protocol state.
pub fn welcome(protocol: &mut Protocol, map_seed: usize, others: &Vec<usize>) -> (frames: Vec<
    Vec<u8>,
>)
    ensures
        final(protocol).last_reception == old(protocol).last_reception,
        final(protocol).last_send@ == inc4n(old(protocol).last_send@, (others@.len() + 1) as nat),
        frames@.len() == others@.len() + 1,
        frames@[0]@ == frame_bytes(old(protocol).last_send@, Command::ChangeMap(map_seed)),
        forall|j: int|
            1 <= j <= others@.len() ==> #[trigger] frames@[j]@ == frame_bytes(
                inc4n(old(protocol).last_send@, j as nat),
                Command::Spawn(others@[j - 1]),
            ),
{
    let ghost send0 = old(protocol).last_send@;
    let mut frames: Vec<Vec<u8>> = Vec::new();
    let first = protocol.send(&Command::ChangeMap(map_seed));
    frames.push(first);
    proof {
        assert(inc4n(send0, 0) == send0);
        assert(inc4n(send0, 1) == inc4(inc4n(send0, 0)));
    }
    let mut i: usize = 0;
    while i < others.len()
        invariant
            send0 == old(protocol).last_send@,
            0 <= i <= others@.len(),
            protocol.last_reception == old(protocol).last_reception,
            protocol.last_send@ == inc4n(send0, (i + 1) as nat),
            frames@.len() == i + 1,
            frames@[0]@ == frame_bytes(send0, Command::ChangeMap(map_seed)),
            forall|j: int|
                1 <= j <= i ==> #[trigger] frames@[j]@ == frame_bytes(
                    inc4n(send0, j as nat),
                    Command::Spawn(others@[j - 1]),
                ),
        decreases others@.len() - i,
    {
        let frame = protocol.send(&Command::Spawn(others[i]));
        frames.push(frame);
        i = i + 1;
    }
    frames
}

/// The server's state for one accepted connection: its assigned id, its
/// framing state, and whether it has been seen to disconnect.
#[derive(Debug)]
pub struct Client {
    pub id: usize,
    pub protocol: Protocol,
    pub disconnected: bool,
}

impl Client {
    /// A freshly accepted connection with the given id and framing state.
    pub fn new(id: usize, protocol: Protocol) -> (r: Client)
        ensures
            r.id == id,
            r.protocol == protocol,
            !r.disconnected,
    {
        Client { id, protocol, disconnected: false }
    }

    /// Ingest one reception attempt from this client's stream, given the
    /// byte window `input` that the caller read.
    ///
    /// An accepted command has its entity-id field overwritten with this
    /// connection's id and joins the queue authored by this client; a clean
    /// disconnection marks the client; the transient errors change nothing.
    pub fn receive(&mut self, queue: &mut VecDeque<Message>, input: &[u8])
        ensures
            final(self).id == old(self).id,
            final(self).protocol.last_send == old(self).protocol.last_send,
            final(self).protocol.last_reception@ == spec_reception(
                old(self).protocol.last_reception@,
                input@,
            ).1,
            match spec_reception(old(self).protocol.last_reception@, input@).0 {
                Ok(c) => {
                    &&& final(self).disconnected == old(self).disconnected
                    &&& final(queue)@.len() == old(queue)@.len() + 1
                    &&& forall|i: int|
                        0 <= i < old(queue)@.len() ==> final(queue)@[i] == old(queue)@[i]
                    &&& final(queue)@.last().body == owned_by(c, old(self).id)
                    &&& final(queue)@.last().body.wf()
                    &&& final(queue)@.last().source == old(self).id
                    &&& final(queue)@.last().read_by@ == seq![old(self).id]
                },
                Err(e) => {
                    &&& final(queue)@ == old(queue)@
                    &&& final(self).disconnected == (old(self).disconnected || e
                        == ProtocolError::Disconnection)
                },
            },
    {
        proof {
            lemma_reception_wf(self.protocol.last_reception@, input@);
        }
        match self.protocol.reception(input) {
            Ok(command) => {
                let command = match command {
                    Command::Spawn(_) => Command::Spawn(self.id),
                    Command::Reposition(_, p) => Command::Reposition(self.id, p),
                    Command::Despawn(_) => Command::Despawn(self.id),
                    other => other,
                };
                broadcast_from(queue, self.id, command);
            },
            Err(e) => {
                match e {
                    ProtocolError::Disconnection => {
                        self.disconnected = true;
                    },
                    _ => {},
                }
            },
        }
    }

    /// Frame every queued message owed to this client and mark each as read
    /// by it, whether or not the caller manages to deliver the frame: a dead
    /// connection must not pin messages in the queue. Returns the frames to
    /// write, in queue order.
    pub fn send(&mut self, queue: &mut VecDeque<Message>) -> (frames: Vec<Vec<u8>>)
        requires
            forall|i: int| 0 <= i < old(queue)@.len() ==> old(queue)@[i].body.wf(),
        ensures
            final(self).id == old(self).id,
            final(self).disconnected == old(self).disconnected,
            final(self).protocol.last_reception == old(self).protocol.last_reception,
            final(self).protocol.last_send@ == inc4n(
                old(self).protocol.last_send@,
                pending(old(queue)@, old(self).id).len(),
            ),
            final(queue)@.len() == old(queue)@.len(),
            forall|i: int|
                0 <= i < old(queue)@.len() ==> {
                    &&& (#[trigger] final(queue)@[i]).body == old(queue)@[i].body
                    &&& final(queue)@[i].source == old(queue)@[i].source
                    &&& (if owed_to(old(queue)@[i], old(self).id) {
                        final(queue)@[i].read_by@ == old(queue)@[i].read_by@.push(old(self).id)
                    } else {
                        final(queue)@[i].read_by@ == old(queue)@[i].read_by@
                    })
                },
            frames@.len() == pending(old(queue)@, old(self).id).len(),
            forall|j: int|
                0 <= j < frames@.len() ==> #[trigger] frames@[j]@ == frame_bytes(
                    inc4n(old(self).protocol.last_send@, j as nat),
                    pending(old(queue)@, old(self).id)[j],
                ),
    {
        let total = queue.len();
        let ghost q0 = old(queue)@;
        let ghost send0 = old(self).protocol.last_send@;
        let mut frames: Vec<Vec<u8>> = Vec::new();
        let mut processed: usize = 0;
        while processed < total
            invariant
                total == q0.len(),
                q0 == old(queue)@,
                send0 == old(self).protocol.last_send@,
                0 <= processed <= total,
                self.id == old(self).id,
                self.disconnected == old(self).disconnected,
                self.protocol.last_reception == old(self).protocol.last_reception,
                forall|i: int| 0 <= i < q0.len() ==> q0[i].body.wf(),
                queue@.len() == total,
                forall|i: int|
                    0 <= i < total - processed ==> queue@[i] == q0[processed + i],
                forall|i: int|
                    0 <= i < processed ==> {
                        &&& queue@[total - processed + i].body == (#[trigger] q0[i]).body
                        &&& queue@[total - processed + i].source == q0[i].source
                        &&& (if owed_to(q0[i], old(self).id) {
                            queue@[total - processed + i].read_by@ == q0[i].read_by@.push(
                                old(self).id,
                            )
                        } else {
                            queue@[total - processed + i].read_by@ == q0[i].read_by@
                        })
                    },
                self.protocol.last_send@ == inc4n(
                    send0,
                    pending(q0.take(processed as int), old(self).id).len(),
                ),
                frames@.len() == pending(q0.take(processed as int), old(self).id).len(),
                forall|j: int|
                    0 <= j < frames@.len() ==> #[trigger] frames@[j]@ == frame_bytes(
                        inc4n(send0, j as nat),
                        pending(q0.take(processed as int), old(self).id)[j],
                    ),
            decreases total - processed,
        {
            let mut m = match queue.pop_front() {
                Some(m) => m,
                None => unreached(),
            };
            proof {
                assert(m == q0[processed as int]);
                assert(q0.take(processed + 1).drop_last() =~= q0.take(processed as int));
                assert(q0.take(processed + 1).last() == q0[processed as int]);
            }
            let owed = m.source != self.id && !contains_usize(&m.read_by, self.id);
            if owed {
                m.read_by.push(self.id);
                let frame = self.protocol.send(&m.body);
                frames.push(frame);
            }
            queue.push_back(m);
            processed = processed + 1;
        }
        proof {
            assert(q0.take(total as int) =~= q0);
        }
        frames
    }
}

} // verus!
