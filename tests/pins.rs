use mastermind::pins::{Pins, COLORS, PINS, TOTAL_CONFIGS};
use mastermind::secret::secret_from_draws;
use std::collections::HashSet;

#[test]
fn increment() {
    let mut p = Pins::new(0, 0, 0, 0);
    p.increment();
    assert_eq!(Pins::new(1, 0, 0, 0), p);
    p.set(0, COLORS - 1);
    p.increment();
    assert_eq!(Pins::new(0, 1, 0, 0), p);

    p = Pins::new(COLORS - 1, COLORS - 1, COLORS - 1, COLORS - 1);
    p.increment();
    assert_eq!(Pins::new(0, 0, 0, 0), p);
}

#[test]
fn get_reads_each_position() {
    let p = Pins::new(7, 0, 3, 5);
    assert_eq!(p.get(0), 7);
    assert_eq!(p.get(1), 0);
    assert_eq!(p.get(2), 3);
    assert_eq!(p.get(3), 5);
}

#[test]
fn set_overwrites_one_position() {
    let mut p = Pins::new(1, 2, 3, 4);
    p.set(2, 7);
    assert_eq!(p, Pins::new(1, 2, 7, 4));
    p.set(0, 0);
    assert_eq!(p, Pins::new(0, 2, 7, 4));
}

#[test]
fn increment_carries_across_positions() {
    let mut p = Pins::new(7, 7, 2, 0);
    p.increment();
    assert_eq!(p, Pins::new(0, 0, 3, 0));
    let mut q = Pins::new(7, 7, 7, 3);
    q.increment();
    assert_eq!(q, Pins::new(0, 0, 0, 4));
}

#[test]
fn enumeration_visits_every_combination_once() {
    let mut p = Pins::new(0, 0, 0, 0);
    let mut seen: HashSet<Pins> = HashSet::new();
    for _ in 0..TOTAL_CONFIGS {
        assert!(seen.insert(p));
        p.increment();
    }
    assert_eq!(p, Pins::new(0, 0, 0, 0));
    assert_eq!(seen.len(), (COLORS as usize).pow(PINS as u32));
}

#[test]
fn secret_from_draws_reduces_modulo_colors() {
    assert_eq!(secret_from_draws(8, 13, 255, 2), Pins::new(0, 5, 7, 2));
}

#[test]
fn values_lists_positions_in_order() {
    assert_eq!(Pins::new(2, 5, 0, 7).values(), (2, 5, 0, 7));
    assert_eq!(format!("{:?}", Pins::new(0, 0, 1, 1).values()), "(0, 0, 1, 1)");
}
