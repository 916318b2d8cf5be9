use mastermind::pins::Pins;
use mastermind::score::{compute_score, is_score};

#[test]
fn compute() {
    assert_eq!(
        (4, 0),
        compute_score(Pins::new(0, 1, 2, 3), Pins::new(0, 1, 2, 3))
    );
    assert_eq!(
        (0, 4),
        compute_score(Pins::new(0, 1, 2, 3), Pins::new(1, 2, 3, 0))
    );
    assert_eq!(
        (1, 0),
        compute_score(Pins::new(0, 0, 0, 0), Pins::new(0, 1, 2, 3))
    );
    assert_eq!(
        (1, 0),
        compute_score(Pins::new(0, 1, 2, 3), Pins::new(0, 0, 0, 0))
    );
    assert_eq!(
        (2, 2),
        compute_score(Pins::new(0, 1, 2, 3), Pins::new(0, 3, 2, 1))
    );
}

#[test]
fn is() {
    assert!(is_score(
        Pins::new(0, 1, 2, 3),
        Pins::new(0, 1, 2, 3),
        (4, 0)
    ));
    assert!(!is_score(
        Pins::new(0, 1, 2, 3),
        Pins::new(0, 1, 2, 3),
        (3, 0)
    ));
    assert!(is_score(
        Pins::new(0, 0, 0, 1),
        Pins::new(0, 1, 0, 3),
        (2, 1)
    ));
}

fn sample() -> Vec<Pins> {
    vec![
        Pins::new(0, 0, 0, 0),
        Pins::new(7, 7, 7, 7),
        Pins::new(0, 0, 1, 1),
        Pins::new(2, 5, 0, 7),
        Pins::new(1, 2, 1, 2),
        Pins::new(3, 3, 4, 0),
        Pins::new(6, 5, 4, 3),
        Pins::new(0, 1, 2, 3),
    ]
}

#[test]
fn self_score_is_a_win() {
    for x in sample() {
        assert_eq!(compute_score(x, x), (4, 0));
    }
}

#[test]
fn scores_are_valid() {
    for a in sample() {
        for b in sample() {
            let (black, white) = compute_score(a, b);
            assert!(black + white <= 4);
            assert!((black, white) != (3, 1));
        }
    }
}

#[test]
fn score_is_symmetric() {
    for a in sample() {
        for b in sample() {
            assert_eq!(compute_score(a, b), compute_score(b, a));
        }
    }
}

#[test]
fn permuting_both_keeps_the_score() {
    let a = Pins::new(0, 1, 2, 3);
    let b = Pins::new(0, 3, 2, 1);
    let pa = Pins::new(3, 2, 1, 0);
    let pb = Pins::new(1, 2, 3, 0);
    assert_eq!(compute_score(pa, pb), compute_score(a, b));
}

#[test]
fn permuting_one_side_changes_the_score() {
    let a = Pins::new(0, 1, 2, 3);
    assert_eq!(compute_score(a, Pins::new(0, 1, 2, 3)), (4, 0));
    assert_eq!(compute_score(a, Pins::new(1, 0, 2, 3)), (2, 2));
}

#[test]
fn white_counts_color_multiset_intersection() {
    assert_eq!(compute_score(Pins::new(1, 1, 2, 2), Pins::new(2, 2, 2, 1)), (1, 2));
    assert_eq!(compute_score(Pins::new(0, 0, 1, 1), Pins::new(2, 5, 0, 7)), (0, 1));
    assert_eq!(compute_score(Pins::new(0, 0, 1, 1), Pins::new(2, 5, 3, 7)), (0, 0));
}

#[test]
fn is_score_agrees_with_compute_score() {
    for a in sample() {
        for b in sample() {
            let s = compute_score(a, b);
            for black in 0..=4u8 {
                for white in 0..=4u8 {
                    assert_eq!(is_score(a, b, (black, white)), s == (black, white));
                }
            }
        }
    }
}
