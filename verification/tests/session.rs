use gamesync::codec::Command;
use gamesync::session::{Session, OWN_ENTITY};

#[test]
fn stop_pushes_exactly_one_despawn() {
    let mut s = Session::new();
    s.push_outbound(Command::Spawn(OWN_ENTITY));
    let before = s.outbox.len();
    s.stop();
    assert!(!s.running);
    assert_eq!(s.outbox.len(), before + 1);
    let despawns = s
        .outbox
        .iter()
        .filter(|c| matches!(c, Command::Despawn(_)))
        .count();
    assert_eq!(despawns, 1);
    assert_eq!(s.outbox.last(), Some(&Command::Despawn(OWN_ENTITY)));
}

#[test]
fn queues_drain_newest_first() {
    let mut s = Session::new();
    s.push_outbound(Command::Spawn(1));
    s.push_outbound(Command::Spawn(2));
    assert_eq!(s.pop_outbound(), Some(Command::Spawn(2)));
    assert_eq!(s.pop_outbound(), Some(Command::Spawn(1)));
    assert_eq!(s.pop_outbound(), None);

    s.push_inbound(Command::Despawn(4));
    s.push_inbound(Command::Despawn(5));
    assert_eq!(s.pop_inbound(), Some(Command::Despawn(5)));
    assert_eq!(s.pop_inbound(), Some(Command::Despawn(4)));
    assert_eq!(s.pop_inbound(), None);
}

#[test]
fn fresh_session_runs_empty() {
    let s = Session::new();
    assert!(s.running);
    assert!(s.inbox.is_empty());
    assert!(s.outbox.is_empty());
}
