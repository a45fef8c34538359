use gamesync::util::{base_format, DiscriminantMap, Random, Time};

#[test]
fn hour_of_epoch() {
    assert_eq!(Time::hour(0), (2, 0, 0));
    assert_eq!(Time::hour(3599), (2, 59, 59));
    // Twenty-three hours in: the two-hour displacement wraps past midnight.
    assert_eq!(Time::hour(23 * 3600), (1, 0, 0));
    assert_eq!(Time::hour(3600 + 61), (3, 1, 1));
}

#[test]
fn base_format_pads_to_two_digits() {
    assert_eq!(base_format(5, 10), "05");
    assert_eq!(base_format(23, 10), "23");
    assert_eq!(base_format(0, 10), "00");
    // Only the two lowest base-10 digits are kept.
    assert_eq!(base_format(123, 10), "23");
}

#[test]
fn base_format_other_base() {
    // In base 16 the two digits are printed as decimal numbers.
    assert_eq!(base_format(0x1f, 16), "115");
}

#[test]
fn random_is_reproducible() {
    let mut a = Random::seed(12345);
    let mut b = Random::seed(12345);
    assert_eq!(a.any(), b.any());
    assert_eq!(a.any(), b.any());
    let mut c = Random::seed(54321);
    let _ = c.any();
    assert_ne!(a.state, c.state);
}

#[test]
fn random_ranges() {
    let mut r = Random::seed(7);
    for _ in 0..100 {
        let v = r.max(10);
        assert!(v < 10);
        let w = r.between(5, 8);
        assert!((5..8).contains(&w));
    }
}

#[derive(Debug, PartialEq)]
enum Key {
    Letter(char),
    Number(u32),
    Blank,
}

#[test]
fn discriminant_map_finds_by_variant() {
    let mut m: DiscriminantMap<Key, &str> = DiscriminantMap::default();
    m.push(Key::Letter('a'), "letters");
    m.push(Key::Number(1), "numbers");
    // Lookups match on the variant, whatever the fields hold.
    assert_eq!(m.get(&Key::Letter('z')), Some(&"letters"));
    assert_eq!(m.get(&Key::Number(99)), Some(&"numbers"));
    assert_eq!(m.get(&Key::Blank), None);
    assert!(m.has_value_for(Key::Number(7)));
    assert!(!m.has_value_for(Key::Blank));
}

#[test]
fn discriminant_map_mutates_in_place() {
    let mut m: DiscriminantMap<Key, u32> = DiscriminantMap::default();
    m.push(Key::Blank, 0);
    if let Some(v) = m.get_mut(&Key::Blank) {
        *v = 9;
    }
    assert_eq!(m.get(&Key::Blank), Some(&9));
    assert_eq!(m.get_mut(&Key::Letter('x')), None);
}

#[test]
fn discriminant_map_first_match_wins() {
    let mut m: DiscriminantMap<Key, u32> = DiscriminantMap::default();
    m.push(Key::Number(1), 10);
    m.push(Key::Number(2), 20);
    assert_eq!(m.get(&Key::Number(3)), Some(&10));
}
