use std::collections::VecDeque;

use gamesync::broadcast::{broadcast_from, evict_read, welcome, Client, Message};
use gamesync::codec::{Command, Coord, Position};
use gamesync::framing::Protocol;

fn reposition(id: usize, x: u64, y: u64) -> Command {
    Command::Reposition(
        id,
        Position { x: Coord::integer(false, x), y: Coord::integer(false, y) },
    )
}

/// A frame as a fresh peer would send it, acceptable to a fresh receiver.
fn first_frame(c: Command) -> Vec<u8> {
    Protocol::new().send(&c)
}

#[test]
fn fan_out_and_eviction() {
    let mut queue: VecDeque<Message> = VecDeque::new();
    let mut a = Client::new(1, Protocol::new());
    let mut b = Client::new(2, Protocol::new());
    let mut c = Client::new(3, Protocol::new());

    // A command arrives from client A: queued, already marked read by A.
    a.receive(&mut queue, &first_frame(reposition(1, 10, 20)));
    assert_eq!(queue.len(), 1);
    assert_eq!(queue[0].source, 1);
    assert_eq!(queue[0].read_by, vec![1]);

    // A's own worker sends nothing back to A and marks nothing.
    let frames_a = a.send(&mut queue);
    assert!(frames_a.is_empty());
    assert_eq!(queue[0].read_by, vec![1]);

    // Delivered once to B and once to C, each marking as it goes.
    let frames_b = b.send(&mut queue);
    assert_eq!(frames_b.len(), 1);
    assert_eq!(queue[0].read_by, vec![1, 2]);
    let frames_c = c.send(&mut queue);
    assert_eq!(frames_c.len(), 1);
    assert_eq!(queue[0].read_by, vec![1, 2, 3]);

    // Read by all three connected clients: evicted, length one less.
    let before = queue.len();
    evict_read(&mut queue, 3);
    assert_eq!(queue.len(), before - 1);
    assert!(queue.is_empty());
}

#[test]
fn delivery_is_marked_only_once() {
    let mut queue: VecDeque<Message> = VecDeque::new();
    let mut a = Client::new(1, Protocol::new());
    let mut b = Client::new(2, Protocol::new());
    a.receive(&mut queue, &first_frame(Command::Spawn(1)));
    assert_eq!(b.send(&mut queue).len(), 1);
    // Already marked: nothing further to send.
    assert_eq!(b.send(&mut queue).len(), 0);
    assert_eq!(queue[0].read_by, vec![1, 2]);
}

#[test]
fn id_ownership_reposition() {
    // Client X (id 5) claims to move entity 999: the id is overwritten.
    let mut queue: VecDeque<Message> = VecDeque::new();
    let mut x = Client::new(5, Protocol::new());
    x.receive(&mut queue, &first_frame(reposition(999, 4, 8)));
    assert_eq!(queue.len(), 1);
    assert_eq!(queue[0].body, reposition(5, 4, 8));
    assert_eq!(queue[0].source, 5);
}

#[test]
fn id_ownership_spawn_and_despawn() {
    let mut queue: VecDeque<Message> = VecDeque::new();
    let mut x = Client::new(5, Protocol::new());
    x.receive(&mut queue, &first_frame(Command::Spawn(999)));
    x.receive(&mut queue, &{
        let mut p = Protocol::new();
        p.last_send = [0, 0, 0, 1];
        p.send(&Command::Despawn(999))
    });
    assert_eq!(queue[0].body, Command::Spawn(5));
    assert_eq!(queue[1].body, Command::Despawn(5));
}

#[test]
fn disconnection_marks_client() {
    let mut queue: VecDeque<Message> = VecDeque::new();
    let mut x = Client::new(7, Protocol::new());
    assert!(!x.disconnected);
    x.receive(&mut queue, &[]);
    assert!(x.disconnected);
    assert!(queue.is_empty());
    // The worker then announces the departure, as the server loop does.
    broadcast_from(&mut queue, 7, Command::Despawn(7));
    assert_eq!(queue.len(), 1);
    assert_eq!(queue[0].body, Command::Despawn(7));
    assert_eq!(queue[0].read_by, vec![7]);
}

#[test]
fn transient_error_changes_nothing() {
    // A stale frame is dropped: no message, no disconnection.
    let mut queue: VecDeque<Message> = VecDeque::new();
    let mut x = Client::new(7, Protocol::new());
    x.protocol.last_reception = [0, 0, 0, 9];
    x.receive(&mut queue, &first_frame(Command::Spawn(1)));
    assert!(!x.disconnected);
    assert!(queue.is_empty());
    assert_eq!(x.protocol.last_reception, [0, 0, 0, 9]);
}

#[test]
fn eviction_keeps_unread_in_order() {
    let mut queue: VecDeque<Message> = VecDeque::new();
    broadcast_from(&mut queue, 1, Command::Spawn(1));
    broadcast_from(&mut queue, 2, Command::Spawn(2));
    broadcast_from(&mut queue, 3, Command::Spawn(3));
    queue[1].read_by.push(1);
    queue[1].read_by.push(3);
    // Two connected clients: only the middle message (read by 3) is evicted.
    evict_read(&mut queue, 2);
    assert_eq!(queue.len(), 2);
    assert_eq!(queue[0].body, Command::Spawn(1));
    assert_eq!(queue[1].body, Command::Spawn(3));
}

#[test]
fn welcome_burst() {
    // A new connection learns the map seed, then every connected client.
    let mut p = Protocol::new();
    let others = vec![11usize, 22];
    let frames = welcome(&mut p, 42, &others);
    assert_eq!(frames.len(), 3);
    assert_eq!(frames[0], vec![1u8, 0, 0, 0, 0, 7, b'4', b'2', 0]);
    assert_eq!(frames[1], vec![1u8, 0, 0, 0, 1, 2, b'1', b'1', 0]);
    assert_eq!(frames[2], vec![1u8, 0, 0, 0, 2, 2, b'2', b'2', 0]);
    assert_eq!(p.last_send, [0, 0, 0, 3]);
}

#[test]
fn delivered_frames_decode_on_the_peer() {
    // What a worker frames for its client is a valid frame for that client's
    // own protocol state.
    let mut queue: VecDeque<Message> = VecDeque::new();
    let mut a = Client::new(1, Protocol::new());
    let mut b = Client::new(2, Protocol::new());
    a.receive(&mut queue, &first_frame(reposition(1, 3, 4)));
    let frames = b.send(&mut queue);
    let mut peer = Protocol::new();
    assert_eq!(peer.reception(&frames[0]), Ok(reposition(1, 3, 4)));
}
