use wordle_rs::Correctness::{Correct as C, Misplaced as M, Wrong as W};
use wordle_rs::{Correctness, Guess};

fn allows(prev: &[u8; 5], mask: [Correctness; 5], next: &[u8; 5]) {
    assert!(Guess { word: *prev, mask }.matches(next));
    assert_eq!(Correctness::compute(next, prev), mask);
}

fn disallows(prev: &[u8; 5], mask: [Correctness; 5], next: &[u8; 5]) {
    assert!(!Guess { word: *prev, mask }.matches(next));
    assert_ne!(Correctness::compute(next, prev), mask);
}

#[test]
fn matches() {
    allows(b"abcde", [C, C, C, C, C], b"abcde");
    disallows(b"abcde", [C, C, C, C, C], b"abcdf");
    allows(b"abcde", [W, W, W, W, W], b"xxxxx");
    allows(b"abcde", [M, M, M, M, M], b"eabcd");
    disallows(b"abcde", [W, M, M, M, M], b"abcde");
    allows(b"baaaa", [W, C, M, W, W], b"aaccc");
}

#[test]
fn all_correct_chars() {
    assert_eq!(Correctness::compute(b"abcde", b"abcde"), [C, C, C, C, C])
}

#[test]
fn all_misplaced() {
    assert_eq!(Correctness::compute(b"abcde", b"bcdea"), [M, M, M, M, M])
}

#[test]
fn all_wrong_chars() {
    assert_eq!(Correctness::compute(b"abcde", b"xxxxx"), [W, W, W, W, W])
}

#[test]
fn some_wrong_chars() {
    assert_eq!(Correctness::compute(b"abcde", b"abcxx"), [C, C, C, W, W])
}

#[test]
fn one_misplaced_char_rest_wrong() {
    assert_eq!(Correctness::compute(b"abcde", b"xxxxa"), [W, W, W, W, M])
}

#[test]
fn duplicate_letters_are_not_counted_twice() {
    // The answer has three a's; two of them are hit, so one is spare.
    assert_eq!(Correctness::compute(b"ababa", b"aabbb"), [C, M, M, C, W]);
    // One spare 'a' only: the second claim on it fails.
    assert_eq!(Correctness::compute(b"abcde", b"xaaxx"), [W, M, W, W, W]);
    // A hit further right does not lend its letter to a claim further left.
    assert_eq!(Correctness::compute(b"xxaxx", b"axaxx"), [W, C, C, C, C]);
}

#[test]
fn consistent_with_baaaa_feedback() {
    assert_eq!(Correctness::compute(b"aaccc", b"baaaa"), [W, C, M, W, W]);
    let g = Guess { word: *b"baaaa", mask: [W, C, M, W, W] };
    assert!(g.matches(b"aaccc"));
    assert!(g.matches_(b"aaccc"));
}

#[test]
fn fast_path_agrees_on_the_matcher_cases() {
    let cases: [(&[u8; 5], [Correctness; 5], &[u8; 5], bool); 6] = [
        (b"abcde", [C, C, C, C, C], b"abcde", true),
        (b"abcde", [C, C, C, C, C], b"abcdf", false),
        (b"abcde", [W, W, W, W, W], b"xxxxx", true),
        (b"abcde", [M, M, M, M, M], b"eabcd", true),
        (b"abcde", [W, M, M, M, M], b"abcde", false),
        (b"baaaa", [W, C, M, W, W], b"aaccc", true),
    ];
    for (prev, mask, next, expected) in cases {
        let g = Guess { word: *prev, mask };
        assert_eq!(g.matches_(next), expected);
        assert_eq!(g.matches(next), expected);
    }
}

#[test]
fn fast_path_agrees_with_recomputation_everywhere_sampled() {
    // Every guess, candidate and pattern over a small alphabet, where
    // duplicate letters abound.
    let letters = [b'a', b'b', b'c'];
    let mut words: Vec<[u8; 5]> = Vec::new();
    for i in 0..243usize {
        let mut w = [0u8; 5];
        let mut n = i;
        for slot in w.iter_mut() {
            *slot = letters[n % 3];
            n /= 3;
        }
        words.push(w);
    }
    let patterns = Correctness::patterns();
    for (gi, guess) in words.iter().enumerate() {
        for (ci, candidate) in words.iter().enumerate() {
            if (gi * 7 + ci) % 5 != 0 {
                continue;
            }
            let truth = Correctness::compute(candidate, guess);
            for pattern in patterns.iter() {
                let g = Guess { word: *guess, mask: *pattern };
                let expected = truth == *pattern;
                assert_eq!(g.matches(candidate), expected);
                assert_eq!(g.matches_(candidate), expected);
            }
        }
    }
}
