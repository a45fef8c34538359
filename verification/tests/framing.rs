use gamesync::codec::Command;
use gamesync::framing::{Protocol, ProtocolError};

#[test]
fn frame_layout() {
    let mut p = Protocol::new();
    let frame = p.send(&Command::Spawn(7));
    assert_eq!(frame, vec![1u8, 0, 0, 0, 0, 2, b'7', 0]);
    assert_eq!(p.last_send, [0, 0, 0, 1]);
    assert_eq!(p.last_reception, [0, 0, 0, 0]);
}

#[test]
fn send_counter_steps_per_frame() {
    let mut p = Protocol::new();
    let _ = p.send(&Command::Despawn(1));
    let frame = p.send(&Command::Despawn(1));
    assert_eq!(&frame[1..5], &[0, 0, 0, 1]);
    assert_eq!(p.last_send, [0, 0, 0, 2]);
}

#[test]
fn send_counter_carries_at_254() {
    // Each byte wraps at 255, so 254 steps to 0 with a carry.
    let mut p = Protocol::new();
    p.last_send = [0, 0, 0, 254];
    let _ = p.send(&Command::Spawn(1));
    assert_eq!(p.last_send, [0, 0, 1, 0]);
}

fn frame_with_counter(counter: [u8; 4], c: Command) -> Vec<u8> {
    let mut p = Protocol::new();
    p.last_send = counter;
    p.send(&c)
}

#[test]
fn stale_frame_rejected() {
    let mut p = Protocol::new();
    p.last_reception = [0, 0, 0, 5];
    let stale = frame_with_counter([0, 0, 0, 3], Command::Spawn(7));
    assert_eq!(p.reception(&stale), Err(ProtocolError::OutdatedPackage));
    assert_eq!(p.last_reception, [0, 0, 0, 5]);
    let fresh = frame_with_counter([0, 0, 0, 6], Command::Spawn(7));
    assert_eq!(p.reception(&fresh), Ok(Command::Spawn(7)));
    assert_eq!(p.last_reception, [0, 0, 0, 6]);
}

#[test]
fn equal_counter_accepted() {
    let mut p = Protocol::new();
    p.last_reception = [0, 0, 0, 5];
    let frame = frame_with_counter([0, 0, 0, 5], Command::Despawn(9));
    assert_eq!(p.reception(&frame), Ok(Command::Despawn(9)));
    assert_eq!(p.last_reception, [0, 0, 0, 5]);
}

#[test]
fn empty_body_is_disconnection() {
    // Marker and counter arrive, then the stream ends: zero body bytes.
    let mut p = Protocol::new();
    assert_eq!(
        p.reception(&[1, 0, 0, 0, 1]),
        Err(ProtocolError::Disconnection)
    );
    // The counter of the truncated frame was still recorded.
    assert_eq!(p.last_reception, [0, 0, 0, 1]);
}

#[test]
fn missing_marker_is_disconnection() {
    let mut p = Protocol::new();
    assert_eq!(p.reception(&[]), Err(ProtocolError::Disconnection));
    assert_eq!(p.reception(&[9, 8, 7]), Err(ProtocolError::Disconnection));
    assert_eq!(p.last_reception, [0, 0, 0, 0]);
}

#[test]
fn noise_before_marker_skipped() {
    let mut p = Protocol::new();
    let mut input = vec![9u8, 8, 7];
    input.extend_from_slice(&frame_with_counter([0, 0, 0, 0], Command::Spawn(3)));
    assert_eq!(p.reception(&input), Ok(Command::Spawn(3)));
}

#[test]
fn bytes_after_terminator_ignored() {
    let mut p = Protocol::new();
    let mut input = frame_with_counter([0, 0, 0, 0], Command::Spawn(3));
    input.extend_from_slice(&[2, b'9', 0]);
    assert_eq!(p.reception(&input), Ok(Command::Spawn(3)));
}

#[test]
fn frame_without_terminator_still_decodes() {
    // The stream ends before the terminator: the last byte read is dropped,
    // as it would have been the terminator.
    let mut p = Protocol::new();
    let input = vec![1u8, 0, 0, 0, 0, 2, b'4', b'2'];
    assert_eq!(p.reception(&input), Ok(Command::Spawn(4)));
}

#[test]
fn accept_checks_staleness_directly() {
    let mut p = Protocol::new();
    p.last_reception = [1, 0, 0, 0];
    assert_eq!(
        p.accept(&[0, 9, 9, 9], &[2, b'1', 0]),
        Err(ProtocolError::OutdatedPackage)
    );
    assert_eq!(p.last_reception, [1, 0, 0, 0]);
    assert_eq!(p.accept(&[1, 0, 0, 1], &[2, b'1', 0]), Ok(Command::Spawn(1)));
    assert_eq!(p.last_reception, [1, 0, 0, 1]);
}
