use aoc23::camel::{Card, Face};
use aoc23::lens::{hash, HASH};
use aoc23::oasis::{DiffIter, PredictIter};
use aoc23::pieces::{Color, Mirror, Rock};

#[test]
fn hash_of_hash_is_52() {
    assert_eq!(52, hash("HASH"));
}

#[test]
fn hash_of_sample_steps() {
    assert_eq!(30, hash("rn=1"));
    assert_eq!(253, hash("cm-"));
    assert_eq!(97, hash("qp=3"));
    assert_eq!(47, hash("cm=2"));
    assert_eq!(14, hash("qp-"));
    assert_eq!(180, hash("pc=4"));
    assert_eq!(9, hash("ot=9"));
    assert_eq!(197, hash("ab=5"));
    assert_eq!(48, hash("pc-"));
    assert_eq!(214, hash("pc=6"));
    assert_eq!(231, hash("ot=7"));
}

#[test]
fn hash_of_labels() {
    assert_eq!(0, hash("rn"));
    assert_eq!(0, hash(""));
    assert_eq!(1, hash("qp"));
}

#[test]
fn hasher_steps() {
    let mut h = HASH::default();
    assert_eq!(0, h.finish());
    h.write_u8(b'H');
    assert_eq!(200, h.finish());
    h.write_u8(b'A');
    assert_eq!(153, h.finish());
    h.write_u8(b'S');
    assert_eq!(172, h.finish());
    h.write_u8(b'H');
    assert_eq!(52, h.finish());
}

#[test]
fn hasher_write_matches_single_steps() {
    let mut a = HASH::default();
    a.write("HASH".as_bytes());
    assert_eq!(52, a.finish());
}

#[test]
fn joker_takes_lowest_value() {
    let j = Card::joker(Face::Queen);
    assert_eq!(Face::Queen, j.face);
    assert_eq!(Face::Number(1), j.value);
    assert!(j.is_joker());
}

#[test]
fn ordinary_card_is_no_joker() {
    let c = Card { face: Face::King, value: Face::King };
    assert!(!c.is_joker());
    let n = Card { face: Face::Number(7), value: Face::Number(7) };
    assert!(!n.is_joker());
}

#[test]
fn diff_iter_yields_differences() {
    let mut it = DiffIter::new(vec![15, 12, 9, 6, 3, 0]);
    for _ in 0..5 {
        assert_eq!(Some(3), it.next());
    }
    assert_eq!(None, it.next());
    assert_eq!(None, it.next());
}

#[test]
fn diff_iter_short_inputs() {
    let mut empty = DiffIter::new(vec![]);
    assert_eq!(None, empty.next());
    let mut single = DiffIter::new(vec![42]);
    assert_eq!(None, single.next());
    let mut pair = DiffIter::new(vec![10, 4]);
    assert_eq!(Some(6), pair.next());
    assert_eq!(None, pair.next());
}

#[test]
fn predict_iter_extrapolates() {
    let mut it = PredictIter::new(vec![15, 12, 9, 6, 3, 0]);
    let mut terms = Vec::new();
    while let Some(t) = it.next() {
        terms.push(t);
    }
    assert_eq!(vec![15, 3, 0, 0, 0, 0], terms);
}

#[test]
fn predict_iter_second_and_third_readings() {
    let mut it = PredictIter::new(vec![21, 15, 10, 6, 3, 1]);
    let mut terms = Vec::new();
    while let Some(t) = it.next() {
        terms.push(t);
    }
    assert_eq!(vec![21, 6, 1, 0, 0, 0], terms);

    let mut it = PredictIter::new(vec![45, 30, 21, 16, 13, 10]);
    let mut terms = Vec::new();
    while let Some(t) = it.next() {
        terms.push(t);
    }
    assert_eq!(vec![45, 15, 6, 2, 0, 0], terms);
    // The sum of the terms extrapolates the reading.
    assert_eq!(68, 45 + 15 + 6 + 2 + 0 + 0);
}

#[test]
fn rock_default_is_empty() {
    assert_eq!(Rock::Empty, Rock::default());
    assert_ne!(Rock::Round, Rock::Square);
}

#[test]
fn piece_enums_compare() {
    assert_eq!(Color::Blue, Color::Blue);
    assert_ne!(Color::Red, Color::Green);
    assert_eq!(Mirror::Slash, Mirror::Slash);
    assert_ne!(Mirror::SplitterLR, Mirror::SplitterUD);
}
