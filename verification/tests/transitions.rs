use name_engine::phonetic::{PhoneticConnection, PhoneticConnectionBuilder};

const HALF: u64 = 1 << 63;
const QUARTER: u64 = 1 << 62;

fn model(pairs: &[(char, char)]) -> PhoneticConnection {
    let mut builder = PhoneticConnectionBuilder::new();
    for pair in pairs {
        builder.add_char_pair(pair.0, pair.1);
    }
    builder.build()
}

#[test]
fn knows_the_characters_that_were_left() {
    let conn = model(&[('a', 'b'), ('a', 'c'), ('b', 'a')]);
    assert!(conn.knows('a'));
    assert!(conn.knows('b'));
    assert!(!conn.knows('c'));
    assert!(!conn.knows('z'));
    assert!(!conn.knows('\0'));
}

#[test]
fn empty_model_knows_nothing() {
    let conn = PhoneticConnectionBuilder::new().build();
    assert!(!conn.knows('a'));
}

#[test]
fn single_follower_is_always_picked() {
    let conn = model(&[('b', 'a')]);
    assert_eq!(conn.extract_forward('b', 0), 'a');
    assert_eq!(conn.extract_forward('b', HALF), 'a');
    assert_eq!(conn.extract_forward('b', u64::MAX), 'a');
}

#[test]
fn followers_are_weighted_by_their_counts() {
    // behind 'a': 'b' once and 'c' three times, so 'b' has the first quarter
    let conn = model(&[('a', 'c'), ('a', 'b'), ('a', 'c'), ('a', 'c')]);
    assert_eq!(conn.extract_forward('a', 0), 'b');
    assert_eq!(conn.extract_forward('a', QUARTER - 1), 'b');
    assert_eq!(conn.extract_forward('a', QUARTER), 'b');
    assert_eq!(conn.extract_forward('a', QUARTER + 1), 'c');
    assert_eq!(conn.extract_forward('a', HALF), 'c');
    assert_eq!(conn.extract_forward('a', u64::MAX), 'c');
}

#[test]
fn followers_are_taken_in_the_order_of_codes() {
    // three followers of equal weight, given out of order
    let conn = model(&[('x', 'n'), ('x', 'd'), ('x', 'k')]);
    let third = u64::MAX / 3;
    assert_eq!(conn.extract_forward('x', 0), 'd');
    assert_eq!(conn.extract_forward('x', third), 'd');
    assert_eq!(conn.extract_forward('x', third + 1), 'k');
    assert_eq!(conn.extract_forward('x', 2 * third), 'k');
    assert_eq!(conn.extract_forward('x', 2 * third + 2), 'n');
    assert_eq!(conn.extract_forward('x', u64::MAX), 'n');
}

#[test]
fn the_order_of_counting_does_not_matter() {
    let one = model(&[('a', 'b'), ('a', 'c'), ('a', 'c'), ('m', 'a'), ('a', 'c')]);
    let other = model(&[('a', 'c'), ('m', 'a'), ('a', 'c'), ('a', 'c'), ('a', 'b')]);
    for draw in [0, 1, QUARTER, QUARTER + 1, HALF, u64::MAX - 1, u64::MAX] {
        assert_eq!(one.extract_forward('a', draw), other.extract_forward('a', draw));
        assert_eq!(one.extract_forward('m', draw), 'a');
        assert_eq!(other.extract_forward('m', draw), 'a');
    }
}

#[test]
fn followers_of_different_characters_are_kept_apart() {
    let conn = model(&[('a', 'x'), ('b', 'y'), ('c', 'z'), ('b', 'w')]);
    assert_eq!(conn.extract_forward('a', HALF), 'x');
    assert_eq!(conn.extract_forward('c', HALF), 'z');
    assert_eq!(conn.extract_forward('b', HALF), 'w');
    assert_eq!(conn.extract_forward('b', HALF + 1), 'y');
}

#[test]
fn characters_beyond_ascii_are_counted() {
    let conn = model(&[('ɛ', 'ə'), ('ɛ', '森'), ('森', 'ɛ')]);
    assert!(conn.knows('ɛ'));
    assert!(conn.knows('森'));
    assert!(!conn.knows('ə'));
    assert_eq!(conn.extract_forward('ɛ', 0), 'ə');
    assert_eq!(conn.extract_forward('ɛ', u64::MAX), '森');
    assert_eq!(conn.extract_forward('森', 7), 'ɛ');
}
