//! Tables, sets, ranking, text, decimals and time.

use copytrading_bot::clock::{Timestamp, EARLIEST_SECS, LATEST_SECS};
use copytrading_bot::order::{rank, Ranked};
use copytrading_bot::quantity::Quantity;
use copytrading_bot::table::{KeySet, Table};
use copytrading_bot::text::{before, same, same_ignoring_case};
use rust_decimal::Decimal;

#[test]
fn value_put_under_a_key_is_found_there() {
    let mut t: Table<u8> = Table::new();
    t.insert("a".to_string(), 1);
    t.insert("b".to_string(), 2);
    t.insert("a".to_string(), 3);
    assert_eq!(t.len(), 2);
    assert_eq!(t.get("a"), Some(&3));
    assert_eq!(t.get("b"), Some(&2));
    assert_eq!(t.get("c"), None);
    assert_eq!(t.key_at(0), "a");
    assert_eq!(*t.value_at(1), 2);
    let u = t.copy();
    assert_eq!(u.get("a"), Some(&3));
}

#[test]
fn set_holds_each_text_once() {
    let mut s = KeySet::new();
    s.insert("x".to_string());
    s.insert("y".to_string());
    s.insert("x".to_string());
    assert_eq!(s.len(), 2);
    assert!(s.contains("x"));
    assert!(!s.contains("z"));
    assert_eq!(s.at(1), "y");
    assert!(s.copy().contains("y"));
}

struct Item(u32, char);

impl Ranked for Item {
    fn ranks_before(self, other: Item) -> bool {
        self.0 > other.0
    }

    fn outranks(&self, other: &Item) -> bool {
        self.0 > other.0
    }
}

#[test]
fn ranking_is_stable() {
    let mut items = vec![Item(1, 'a'), Item(3, 'b'), Item(2, 'c'), Item(3, 'd'), Item(1, 'e')];
    rank(&mut items);
    let order: String = items.iter().map(|i| i.1).collect();
    assert_eq!(order, "bdcae");
}

#[test]
fn texts_are_compared_as_strings_are() {
    let words = ["", "a", "aa", "ab", "b", "Z", "é", "zz", "\u{10348}", "\u{ffff}"];
    for x in words {
        for y in words {
            assert_eq!(before(x, y), x < y);
            assert_eq!(same(x, y), x == y);
            assert_eq!(same_ignoring_case(x, y), x.eq_ignore_ascii_case(y));
        }
    }
    assert!(same_ignoring_case("YeS", "yes"));
    assert!(!same_ignoring_case("É", "é"));
}

#[test]
fn decimal_places_are_dropped() {
    for (mantissa, scale) in [
        (123_456_i128, 4_u32),
        (-123_456, 4),
        (99, 2),
        (5, 3),
        (-5, 3),
        (0, 9),
        (79_228_162_514_264_337_593_543_950_335, 28),
    ] {
        let cut = Quantity { mantissa, scale }.truncated(2);
        let expected = Decimal::from_i128_with_scale(mantissa, scale).trunc_with_scale(2);
        assert_eq!(Decimal::from_i128_with_scale(cut.mantissa, cut.scale), expected);
        assert!(cut.scale <= 2);
    }
    assert_eq!(Quantity { mantissa: 7, scale: 1 }.truncated(2), Quantity { mantissa: 7, scale: 1 });
    assert!(!Quantity { mantissa: 0, scale: 0 }.is_positive());
    assert!(Quantity { mantissa: 1, scale: 9 }.is_positive());
}

#[test]
fn calendar_is_that_of_chrono() {
    assert!(Timestamp::new(EARLIEST_SECS, 0).is_some());
    assert!(Timestamp::new(EARLIEST_SECS - 1, 0).is_none());
    assert!(Timestamp::new(LATEST_SECS, 999_999_999).is_some());
    assert!(Timestamp::new(LATEST_SECS + 1, 0).is_none());
    assert!(Timestamp::new(0, 1_000_000_000).is_none());
    assert_eq!(EARLIEST_SECS, chrono::DateTime::<chrono::Utc>::MIN_UTC.timestamp());
    assert_eq!(LATEST_SECS, chrono::DateTime::<chrono::Utc>::MAX_UTC.timestamp());
}

#[test]
fn seconds_between_are_whole_and_signed() {
    let t = |s: i64, n: u32| Timestamp::new(s, n).unwrap();
    for (a, b) in [
        (t(10, 0), t(3, 0)),
        (t(10, 0), t(3, 1)),
        (t(3, 1), t(10, 0)),
        (t(-5, 999_999_999), t(7, 1)),
        (t(4, 4), t(4, 5)),
    ] {
        let x = chrono::DateTime::from_timestamp(a.secs(), a.nanos()).unwrap();
        let y = chrono::DateTime::from_timestamp(b.secs(), b.nanos()).unwrap();
        assert_eq!(a.seconds_since(&b), (x - y).num_seconds());
    }
}
