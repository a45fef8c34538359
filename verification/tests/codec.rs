use gamesync::codec::{Command, Coord, FormatError, Position};

fn coord(neg: bool, int_part: u64, frac: u64, frac_len: u8) -> Coord {
    Coord::new(neg, int_part, frac, frac_len).expect("well-formed coordinate")
}

#[test]
fn round_trip_reposition() {
    // 12.5 and -3: one fractional digit, and a negative whole number.
    let c = Command::Reposition(
        7,
        Position { x: coord(false, 12, 5, 1), y: Coord::integer(true, 3) },
    );
    let bytes = c.as_bytes();
    let mut expected = vec![3u8];
    expected.extend_from_slice(b"7/12.5/-3");
    assert_eq!(bytes, expected);
    assert_eq!(Command::decode(&bytes), c);
}

#[test]
fn round_trip_spawn() {
    let c = Command::Spawn(42);
    let bytes = c.as_bytes();
    assert_eq!(bytes, vec![2u8, b'4', b'2']);
    assert_eq!(Command::decode(&bytes), c);
}

#[test]
fn round_trip_despawn() {
    let c = Command::Despawn(0);
    let bytes = c.as_bytes();
    assert_eq!(bytes, vec![4u8, b'0']);
    assert_eq!(Command::decode(&bytes), c);
}

#[test]
fn round_trip_change_map() {
    let c = Command::ChangeMap(123456789);
    assert_eq!(Command::decode(&c.as_bytes()), c);
}

#[test]
fn round_trip_fractional_leading_zeros() {
    // 3.07: the fractional part keeps its leading zero.
    let c = Command::Reposition(1, Position { x: coord(false, 3, 7, 2), y: coord(true, 0, 25, 2) });
    let bytes = c.as_bytes();
    let mut expected = vec![3u8];
    expected.extend_from_slice(b"1/3.07/-0.25");
    assert_eq!(bytes, expected);
    assert_eq!(Command::decode(&bytes), c);
}

#[test]
fn unknown_tag() {
    assert_eq!(Command::decode(&[99]), Command::Unknown);
}

#[test]
fn empty_message() {
    assert_eq!(
        Command::decode(&[]),
        Command::IllFormatted(FormatError::EmptyMessage)
    );
}

#[test]
fn truncated_reposition() {
    // Tag 3 with only "7/12.5": the y field is an empty token and fails.
    let mut bytes = vec![3u8];
    bytes.extend_from_slice(b"7/12.5");
    assert_eq!(
        Command::decode(&bytes),
        Command::IllFormatted(FormatError::InvalidValue)
    );
}

#[test]
fn malformed_id() {
    let mut bytes = vec![2u8];
    bytes.extend_from_slice(b"12a");
    assert_eq!(
        Command::decode(&bytes),
        Command::IllFormatted(FormatError::InvalidValue)
    );
}

#[test]
fn oversized_id() {
    // Twenty-one digits can never fit an id.
    let mut bytes = vec![2u8];
    bytes.extend_from_slice(b"999999999999999999999");
    assert_eq!(
        Command::decode(&bytes),
        Command::IllFormatted(FormatError::InvalidValue)
    );
}

#[test]
fn sentinels_never_round_trip() {
    // The reserved tags 5 and 6 decode as an unrecognised tag.
    assert_eq!(Command::IllFormatted(FormatError::WrongType).as_bytes(), vec![5u8]);
    assert_eq!(Command::Unknown.as_bytes(), vec![6u8]);
    assert_eq!(Command::decode(&[5]), Command::Unknown);
    assert_eq!(Command::decode(&[6]), Command::Unknown);
}

#[test]
fn extra_field_ignored() {
    // Only the first field of a spawn is read.
    let mut bytes = vec![2u8];
    bytes.extend_from_slice(b"5/6");
    assert_eq!(Command::decode(&bytes), Command::Spawn(5));
}

#[test]
fn coordinate_grammar_rejected() {
    // A coordinate with two dots fails.
    let mut bytes = vec![3u8];
    bytes.extend_from_slice(b"7/1.2.3/4");
    assert_eq!(
        Command::decode(&bytes),
        Command::IllFormatted(FormatError::InvalidValue)
    );
    // A bare minus sign fails.
    let mut bytes = vec![3u8];
    bytes.extend_from_slice(b"7/-/4");
    assert_eq!(
        Command::decode(&bytes),
        Command::IllFormatted(FormatError::InvalidValue)
    );
}

#[test]
fn coordinate_fraction_too_wide() {
    let too_wide = Coord::new(false, 1, 5, 20);
    assert!(too_wide.is_none());
    let misdeclared = Coord::new(false, 1, 100, 2);
    assert!(misdeclared.is_none());
}
