use mastermind::picker::{MinMaxPicker, Picker};
use mastermind::pins::Pins;
use mastermind::score::compute_score;

fn play(secret: Pins) -> usize {
    let mut picker = MinMaxPicker::new();
    let mut guesses = 0;
    loop {
        assert!(!picker.is_exhausted());
        let guess = picker.next_guess();
        guesses += 1;
        let score = compute_score(guess, secret);
        if score == (4, 0) {
            return guesses;
        }
        assert!(guesses < 10);
        let before = picker.candidate_count();
        let first = guesses == 1;
        picker.score_for_guess(guess, score);
        assert!(picker.candidate_count() > 0);
        if !first {
            assert!(picker.candidate_count() <= before);
        }
        assert!(picker.is_candidate(secret));
        if picker.candidate_count() == 1 {
            assert_eq!(picker.next_guess(), secret);
        }
    }
}

#[test]
fn first_guess_is_the_opening() {
    let picker = MinMaxPicker::new();
    assert_eq!(picker.next_guess(), Pins::new(0, 0, 1, 1));
    assert_eq!(picker.candidate_count(), 0);
}

#[test]
fn first_score_narrows_the_candidates() {
    let secret = Pins::new(2, 5, 0, 7);
    let mut picker = MinMaxPicker::new();
    let guess = picker.next_guess();
    assert_eq!(guess, Pins::new(0, 0, 1, 1));
    let score = compute_score(guess, secret);
    assert_eq!(score, (0, 1));
    picker.score_for_guess(guess, score);
    let n = picker.candidate_count();
    assert!(n > 1);
    assert!(n < 4096 - 1);
    assert!(picker.is_candidate(secret));
    assert!(!picker.is_candidate(guess));
}

#[test]
fn no_overlap_score_leaves_the_other_colors() {
    let mut picker = MinMaxPicker::new();
    picker.score_for_guess(Pins::new(0, 0, 1, 1), (0, 0));
    assert_eq!(picker.candidate_count(), 6 * 6 * 6 * 6);
    assert!(picker.is_candidate(Pins::new(2, 5, 3, 7)));
    assert!(!picker.is_candidate(Pins::new(2, 5, 0, 7)));
}

#[test]
fn narrowing_never_grows() {
    let secret = Pins::new(3, 3, 4, 0);
    let mut picker = MinMaxPicker::new();
    let g1 = Pins::new(0, 0, 1, 1);
    picker.score_for_guess(g1, compute_score(g1, secret));
    let n1 = picker.candidate_count();
    let g2 = Pins::new(2, 3, 4, 5);
    picker.score_for_guess(g2, compute_score(g2, secret));
    let n2 = picker.candidate_count();
    let g3 = Pins::new(3, 4, 0, 6);
    picker.score_for_guess(g3, compute_score(g3, secret));
    let n3 = picker.candidate_count();
    assert!(n2 <= n1);
    assert!(n3 <= n2);
    assert!(n3 > 0);
    assert!(picker.is_candidate(secret));
}

#[test]
fn inconsistent_scores_exhaust_the_candidates() {
    let mut picker = MinMaxPicker::new();
    picker.score_for_guess(Pins::new(0, 0, 1, 1), (0, 0));
    picker.score_for_guess(Pins::new(2, 2, 3, 3), (0, 0));
    picker.score_for_guess(Pins::new(4, 4, 5, 5), (0, 0));
    assert!(!picker.is_exhausted());
    picker.score_for_guess(Pins::new(6, 6, 7, 7), (0, 0));
    assert!(picker.is_exhausted());
}

#[test]
fn self_play_wins_against_the_example_secret() {
    assert!(play(Pins::new(2, 5, 0, 7)) <= 10);
}

#[test]
fn self_play_wins_at_once_against_the_opening() {
    assert_eq!(play(Pins::new(0, 0, 1, 1)), 1);
}

#[test]
fn self_play_wins_against_one_color() {
    assert!(play(Pins::new(7, 7, 7, 7)) <= 10);
}

#[test]
fn self_play_wins_against_all_zeros() {
    assert!(play(Pins::new(0, 0, 0, 0)) <= 10);
}

#[test]
fn self_play_wins_against_a_repeated_color() {
    assert!(play(Pins::new(3, 3, 4, 0)) <= 10);
}
