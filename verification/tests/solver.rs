use wordle_rs::solver::{best, opening, Solver};
use wordle_rs::Correctness::{Correct as C, Misplaced as M, Wrong as W};
use wordle_rs::{Correctness, Guess, Word};

fn by_frequency(freq: usize, _total: u128, _split: &Vec<u128>) -> u64 {
    freq as u64
}

/// Expected information in bits, weighted by the word's own probability,
/// mapped to an integer that orders as the float does.
fn by_entropy(freq: usize, total: u128, split: &Vec<u128>) -> u64 {
    let mut sum = 0.0f64;
    for &k in split {
        if k > 0 {
            let p = k as f64 / total as f64;
            sum += p * p.log2();
        }
    }
    let goodness = (freq as f64 / total as f64) * -sum;
    if goodness > 0.0 {
        goodness.to_bits()
    } else {
        0
    }
}

fn all_wrong(word: &[u8; 5]) -> Guess {
    Guess { word: *word, mask: [W, W, W, W, W] }
}

#[test]
fn new_solver_holds_the_dictionary() {
    let dictionary: Vec<(Word, usize)> = vec![(*b"right", 1), (*b"wrong", 1)];
    let solver = Solver::new(&dictionary);
    assert_eq!(solver.remaining(), &dictionary);
    assert_eq!(solver.total(), 2);
}

#[test]
fn total_does_not_overflow() {
    let dictionary: Vec<(Word, usize)> = vec![(*b"right", usize::MAX), (*b"wrong", usize::MAX)];
    let solver = Solver::new(&dictionary);
    assert_eq!(solver.total(), 2 * (usize::MAX as u128));
    let split = solver.spread(b"zzzzz");
    assert_eq!(split[242], 2 * (usize::MAX as u128));
}

#[test]
fn opening_word_is_tares() {
    assert_eq!(opening(), *b"tares");
}

#[test]
fn opening_turn_leaves_the_pool_alone() {
    let dictionary: Vec<(Word, usize)> = vec![(*b"right", 1), (*b"wrong", 1)];
    let mut solver = Solver::new(&dictionary);
    assert!(solver.can_answer(&[]));
    assert_eq!(solver.guess_with(&[], by_entropy), *b"tares");
    assert_eq!(solver.remaining(), &dictionary);
}

#[test]
fn narrow_keeps_consistent_entries_in_order() {
    let dictionary: Vec<(Word, usize)> =
        vec![(*b"abcde", 3), (*b"zebra", 100), (*b"abcdf", 5), (*b"fuzzy", 9), (*b"xbcde", 7)];
    let mut solver = Solver::new(&dictionary);
    solver.narrow(&all_wrong(b"zzzzz"));
    assert_eq!(solver.remaining(), &vec![(*b"abcde", 3), (*b"abcdf", 5), (*b"xbcde", 7)]);
    assert_eq!(solver.total(), 15);
}

#[test]
fn pool_never_grows() {
    let dictionary: Vec<(Word, usize)> =
        vec![(*b"abcde", 3), (*b"zebra", 100), (*b"abcdf", 5), (*b"fuzzy", 9), (*b"xbcde", 7)];
    let answer = b"abcdf";
    let mut solver = Solver::new(&dictionary);
    let mut size = solver.remaining().len();
    for word in [b"zzzzz", b"xbcde", b"abcde", b"abcdf"] {
        let mask = Correctness::compute(answer, word);
        solver.narrow(&Guess { word: *word, mask });
        assert!(solver.remaining().len() <= size);
        size = solver.remaining().len();
        assert!(solver.remaining().contains(&(*answer, 5)));
    }
    assert_eq!(solver.remaining(), &vec![(*answer, 5)]);
}

#[test]
fn spread_gives_each_pattern_its_weight() {
    let dictionary: Vec<(Word, usize)> = vec![(*b"abcde", 3), (*b"abcdf", 5), (*b"xbcde", 7)];
    let solver = Solver::new(&dictionary);
    let split = solver.spread(b"abcde");
    assert_eq!(split.len(), 243);
    for (n, &k) in split.iter().enumerate() {
        let expected = match n {
            0 => 3,
            2 => 5,
            162 => 7,
            _ => 0,
        };
        assert_eq!(k, expected);
    }
    assert_eq!(split.iter().sum::<u128>(), solver.total());
}

#[test]
fn spread_adds_entries_that_share_a_pattern() {
    let dictionary: Vec<(Word, usize)> = vec![(*b"abcde", 3), (*b"abcdf", 5), (*b"xbcde", 7)];
    let solver = Solver::new(&dictionary);
    let split = solver.spread(b"zzzzz");
    assert_eq!(split[242], 15);
    assert_eq!(split.iter().sum::<u128>(), 15);
}

#[test]
fn best_is_the_first_greatest() {
    assert_eq!(best(&Vec::new()), None);
    assert_eq!(best(&vec![7]), Some(0));
    assert_eq!(best(&vec![0, 0]), Some(0));
    assert_eq!(best(&vec![1, 5, 5, 2]), Some(1));
    assert_eq!(best(&vec![1, 2, 3, u64::MAX]), Some(3));
}

#[test]
fn guess_takes_the_best_rated_entry_left() {
    let dictionary: Vec<(Word, usize)> =
        vec![(*b"abcde", 3), (*b"zebra", 100), (*b"abcdf", 5), (*b"fuzzy", 9), (*b"xbcde", 7)];
    let mut solver = Solver::new(&dictionary);
    let history = [all_wrong(b"zzzzz")];
    assert!(solver.can_answer(&history));
    assert_eq!(solver.guess_with(&history, by_frequency), *b"xbcde");
    assert_eq!(solver.remaining().len(), 3);
}

#[test]
fn guess_breaks_ties_by_first_occurrence() {
    let dictionary: Vec<(Word, usize)> = vec![(*b"abcde", 1), (*b"abcdf", 1), (*b"xbcde", 1)];
    let mut solver = Solver::new(&dictionary);
    let history = [all_wrong(b"zzzzz")];
    assert_eq!(solver.guess_with(&history, by_entropy), *b"abcde");
}

#[test]
fn guess_weighs_entropy_by_frequency() {
    // Each word splits the pool into three parts of weight 1, 2 and 1:
    // 1.5 bits. The word of frequency 2 has the greatest share of them.
    let dictionary: Vec<(Word, usize)> =
        vec![(*b"abcde", 1), (*b"zebra", 100), (*b"abcdf", 2), (*b"xbcde", 1)];
    let mut solver = Solver::new(&dictionary);
    let history = [all_wrong(b"zzzzz")];
    assert_eq!(solver.guess_with(&history, by_entropy), *b"abcdf");
    assert_eq!(by_entropy(2, 4, &solver.spread(b"abcdf")), 0.75f64.to_bits());
}

#[test]
fn guess_uses_only_the_latest_turn() {
    let dictionary: Vec<(Word, usize)> = vec![(*b"abcde", 1), (*b"abcdf", 2), (*b"xbcde", 4)];
    let mut solver = Solver::new(&dictionary);
    let first = Guess { word: *b"abcde", mask: [W, C, C, C, C] };
    let history = [all_wrong(b"zzzzz"), first];
    assert!(solver.can_answer(&history));
    assert_eq!(solver.guess_with(&history, by_frequency), *b"xbcde");
    assert_eq!(solver.remaining(), &vec![(*b"xbcde", 4)]);
}

#[test]
fn exhausted_pool_is_told_beforehand() {
    let dictionary: Vec<(Word, usize)> = vec![(*b"right", 1), (*b"wrong", 1)];
    let mut solver = Solver::new(&dictionary);
    let contradiction = Guess { word: *b"right", mask: [M, M, M, M, M] };
    assert!(!solver.can_answer(&[contradiction]));
    assert_eq!(solver.remaining(), &dictionary);
    let fair = Guess { word: *b"wrong", mask: [W, M, W, W, M] };
    assert!(solver.can_answer(&[fair]));
    assert_eq!(solver.remaining(), &dictionary);
    let fair = Guess { word: *b"wrong", mask: [W, M, W, W, M] };
    assert_eq!(solver.guess_with(&[fair], by_entropy), *b"right");
    let contradiction = Guess { word: *b"right", mask: [M, M, M, M, M] };
    assert!(!solver.can_answer(&[contradiction]));
    let empty = Solver::new(&Vec::new());
    assert!(empty.can_answer(&[]));
    assert!(!empty.can_answer(&[all_wrong(b"zzzzz")]));
}

#[test]
fn same_histories_in_turn_give_the_same_game() {
    let dictionary: Vec<(Word, usize)> =
        vec![(*b"abcde", 3), (*b"zebra", 100), (*b"abcdf", 5), (*b"fuzzy", 9), (*b"xbcde", 7)];
    let answer = b"abcdf";
    let mut one = Solver::new(&dictionary);
    let mut two = Solver::new(&dictionary);
    let mut history: Vec<Guess> = Vec::new();
    for _ in 0..4 {
        let a = one.guess_with(&history, by_entropy);
        let b = two.guess_with(&history, by_entropy);
        assert_eq!(a, b);
        assert_eq!(one.remaining(), two.remaining());
        if &a == answer {
            return;
        }
        history.push(Guess { word: a, mask: Correctness::compute(answer, &a) });
        assert!(one.can_answer(&history));
    }
    panic!("the answer was not found");
}

#[test]
fn same_dictionary_and_history_give_the_same_guess() {
    let dictionary: Vec<(Word, usize)> =
        vec![(*b"abcde", 3), (*b"zebra", 100), (*b"abcdf", 5), (*b"fuzzy", 9), (*b"xbcde", 7)];
    let history = [all_wrong(b"zzzzz")];
    let mut one = Solver::new(&dictionary);
    let mut two = Solver::new(&dictionary);
    let a = one.guess_with(&history, by_entropy);
    let b = two.guess_with(&history, by_entropy);
    assert_eq!(a, b);
    assert_eq!(one.remaining(), two.remaining());
    assert_eq!(a, *b"xbcde");
}

#[test]
fn entropy_is_never_negative() {
    let dictionary: Vec<(Word, usize)> = vec![(*b"abcde", 3), (*b"abcdf", 5), (*b"xbcde", 7)];
    let solver = Solver::new(&dictionary);
    let total = solver.total();
    for &(word, _) in solver.remaining() {
        let split = solver.spread(&word);
        let mut sum = 0.0f64;
        for &k in &split {
            assert!(k <= total);
            if k > 0 {
                let p = k as f64 / total as f64;
                sum += p * p.log2();
            }
        }
        assert!(-sum >= 0.0);
    }
    let lone = Solver::new(&vec![(*b"right", 1)]);
    assert_eq!(by_entropy(1, 1, &lone.spread(b"right")), 0);
    assert_eq!(Correctness::compute(b"right", b"right"), [C, C, C, C, C]);
}
