use wordle_rs::Correctness::{Misplaced as M, Wrong as W};
use wordle_rs::{Guess, Guesser, Step, Verdict, Word, Wordle};

fn referee() -> Wordle {
    Wordle::new(&vec![(*b"right", 1), (*b"wrong", 1)])
}

/// Plays "right" once the history has `after` entries, "wrong" before.
struct RightAfter {
    after: usize,
}

impl Guesser for RightAfter {
    fn guess(&mut self, history: &[Guess]) -> Word {
        if history.len() == self.after {
            return *b"right";
        }
        *b"wrong"
    }
}

/// Always plays the same word, and counts how often it was asked.
struct Stubborn {
    word: Word,
    asked: std::rc::Rc<std::cell::Cell<usize>>,
}

impl Guesser for Stubborn {
    fn guess(&mut self, _history: &[Guess]) -> Word {
        self.asked.set(self.asked.get() + 1);
        self.word
    }
}

/// Checks that each call sees the history grown by one true entry.
struct Watcher {
    calls: usize,
}

impl Guesser for Watcher {
    fn guess(&mut self, history: &[Guess]) -> Word {
        assert_eq!(history.len(), self.calls);
        for g in history {
            assert_eq!(g.word, *b"wrong");
            assert_eq!(g.mask, [W, M, W, W, M]);
        }
        self.calls += 1;
        if self.calls == 4 {
            *b"right"
        } else {
            *b"wrong"
        }
    }
}

#[test]
fn genius() {
    let w = referee();
    let guesser = RightAfter { after: 0 };
    assert_eq!(w.play(b"right", guesser), Some(1));
}

#[test]
fn magnificent() {
    let w = referee();
    let guesser = RightAfter { after: 1 };
    assert_eq!(w.play(b"right", guesser), Some(2));
}

#[test]
fn impressive() {
    let w = referee();
    let guesser = RightAfter { after: 2 };
    assert_eq!(w.play(b"right", guesser), Some(3));
}

#[test]
fn splendid() {
    let w = referee();
    let guesser = RightAfter { after: 3 };
    assert_eq!(w.play(b"right", guesser), Some(4));
}

#[test]
fn great() {
    let w = referee();
    let guesser = RightAfter { after: 4 };
    assert_eq!(w.play(b"right", guesser), Some(5));
}

#[test]
fn phew() {
    let w = referee();
    let guesser = RightAfter { after: 5 };
    assert_eq!(w.play(b"right", guesser), Some(6));
}

#[test]
fn retarded() {
    let w = referee();
    let asked = std::rc::Rc::new(std::cell::Cell::new(0));
    let guesser = Stubborn { word: *b"wrong", asked: asked.clone() };
    assert_eq!(w.play(b"right", guesser), None);
    assert_eq!(asked.get(), 32);
}

#[test]
fn win_at_the_last_attempt() {
    let w = referee();
    assert_eq!(w.play(b"right", RightAfter { after: 31 }), Some(32));
    assert_eq!(w.play(b"right", RightAfter { after: 32 }), None);
}

#[test]
fn foreign_word_ends_the_game_at_once() {
    let w = referee();
    let asked = std::rc::Rc::new(std::cell::Cell::new(0));
    let guesser = Stubborn { word: *b"zzzzz", asked: asked.clone() };
    assert_eq!(w.play(b"right", guesser), None);
    assert_eq!(asked.get(), 1);
}

#[test]
fn answer_need_not_be_in_the_dictionary() {
    let w = referee();
    let asked = std::rc::Rc::new(std::cell::Cell::new(0));
    let guesser = Stubborn { word: *b"zzzzz", asked: asked.clone() };
    assert_eq!(w.play(b"zzzzz", guesser), Some(1));
}

#[test]
fn guesser_sees_true_feedback() {
    let w = referee();
    assert_eq!(w.play(b"right", Watcher { calls: 0 }), Some(4));
}

#[test]
fn dictionary_membership() {
    let w = referee();
    assert!(w.contains(b"right"));
    assert!(w.contains(b"wrong"));
    assert!(!w.contains(b"thgir"));
    assert!(!w.contains(b"zzzzz"));
    let empty = Wordle::new(&Vec::new());
    assert!(!empty.contains(b"right"));
}

#[test]
fn judge_gives_each_verdict() {
    let w = referee();
    let mut history: Vec<Guess> = Vec::new();
    assert_eq!(w.judge(b"right", *b"right", &mut history), Verdict::Solved);
    assert!(history.is_empty());
    assert_eq!(w.judge(b"right", *b"zzzzz", &mut history), Verdict::Rejected);
    assert!(history.is_empty());
    assert_eq!(w.judge(b"right", *b"wrong", &mut history), Verdict::Missed);
    assert_eq!(history.len(), 1);
    assert_eq!(history[0].word, *b"wrong");
    assert_eq!(history[0].mask, [W, M, W, W, M]);
}

#[test]
fn attempt_wins_at_its_own_number() {
    let w = referee();
    let mut history: Vec<Guess> = Vec::new();
    assert_eq!(w.attempt(b"right", 1, *b"right", &mut history), Step::Won(1));
    assert!(history.is_empty());
    assert_eq!(w.attempt(b"right", 1, *b"wrong", &mut history), Step::Next);
    assert_eq!(history.len(), 1);
    assert_eq!(w.attempt(b"right", 2, *b"right", &mut history), Step::Won(2));
    assert_eq!(history.len(), 1);
}

#[test]
fn attempt_breaks_off_on_a_foreign_word() {
    let w = referee();
    let mut history: Vec<Guess> = Vec::new();
    assert_eq!(w.attempt(b"right", 1, *b"zzzzz", &mut history), Step::Rejected);
    assert!(history.is_empty());
}

#[test]
fn attempt_goes_on_until_the_cap() {
    let w = referee();
    let mut history: Vec<Guess> = Vec::new();
    for number in 1..32 {
        assert_eq!(w.attempt(b"right", number, *b"wrong", &mut history), Step::Next);
        assert_eq!(history.len(), number);
        assert_eq!(history[number - 1].word, *b"wrong");
        assert_eq!(history[number - 1].mask, [W, M, W, W, M]);
    }
    let mut won = Vec::new();
    for g in &history {
        won.push(Guess { word: g.word, mask: g.mask });
    }
    assert_eq!(w.attempt(b"right", 32, *b"right", &mut won), Step::Won(32));
    assert_eq!(won.len(), 31);
    assert_eq!(w.attempt(b"right", 32, *b"wrong", &mut history), Step::Lost);
    assert_eq!(history.len(), 32);
}

#[test]
fn run_tells_a_lost_game_from_one_broken_off() {
    let w = referee();
    let asked = std::rc::Rc::new(std::cell::Cell::new(0));
    let (end, record) = w.run(b"right", Stubborn { word: *b"wrong", asked: asked.clone() });
    assert_eq!(end, Step::Lost);
    assert_eq!(record.len(), 32);
    assert_eq!(asked.get(), 32);
    for g in &record {
        assert_eq!(g.word, *b"wrong");
        assert_eq!(g.mask, [W, M, W, W, M]);
    }

    let asked = std::rc::Rc::new(std::cell::Cell::new(0));
    let (end, record) = w.run(b"right", Stubborn { word: *b"zzzzz", asked: asked.clone() });
    assert_eq!(end, Step::Rejected);
    assert!(record.is_empty());
    assert_eq!(asked.get(), 1);

    let (end, record) = w.run(b"right", RightAfter { after: 3 });
    assert_eq!(end, Step::Won(4));
    assert_eq!(record.len(), 3);

    let (end, record) = w.run(b"right", RightAfter { after: 31 });
    assert_eq!(end, Step::Won(32));
    assert_eq!(record.len(), 31);
}
