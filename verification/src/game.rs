//! The referee: a dictionary of playable words and the loop that lets a
//! guesser try for a hidden answer.
use crate::feedback::{feedback, Correctness, Guess, Word};
use std::collections::HashSet;
use vstd::prelude::*;

verus! {

broadcast use vstd::std_specs::hash::group_hash_axioms;

/// The number of attempts that a game allows.
pub const TURNS: usize = 32;

/// A player: given the guesses made so far, each with its feedback, names the
/// next word to try.
pub trait Guesser {
    /// Names the next word. The referee asks with fewer than `TURNS` guesses
    /// behind it.
    fn guess(&mut self, history: &[Guess]) -> Word
        requires
            history@.len() < TURNS,
    ;
}

/// How the referee judges one guess.
#[derive(Debug, Clone, Copy, PartialEq, Eq, Structural)]
pub enum Verdict {
    /// The guess is the answer.
    Solved,
    /// The guess is a word of the dictionary, but not the answer.
    Missed,
    /// The guess is no word of the dictionary: the game cannot go on.
    Rejected,
}

/// What one attempt leads to.
#[derive(Debug, Clone, Copy, PartialEq, Eq, Structural)]
pub enum Step {
    /// The game is won at the attempt of this number.
    Won(usize),
    /// The last attempt that the game allows has missed: the game is lost.
    Lost,
    /// The guess is no word of the dictionary: the game is broken off.
    Rejected,
    /// The attempt has missed and another one follows.
    Next,
}

/// The letters of a word read as one number, the first letter weighing least.
pub open spec fn code(word: Seq<u8>) -> int {
    word[0] + 256 * (word[1] + 256 * (word[2] + 256 * (word[3] + 256 * word[4])))
}

/// Some entry of `entries` holds `word`.
pub open spec fn listed(entries: Seq<(Word, usize)>, word: Seq<u8>) -> bool {
    exists|i: int| 0 <= i < entries.len() && (#[trigger] entries[i]).0@ == word
}

/// The verdict on `guess` in a game for `answer` over the dictionary `words`.
pub open spec fn verdict(words: Set<Seq<u8>>, answer: Seq<u8>, guess: Seq<u8>) -> Verdict {
    if guess == answer {
        Verdict::Solved
    } else if words.contains(guess) {
        Verdict::Missed
    } else {
        Verdict::Rejected
    }
}

/// What the attempt of number `number` leads to when it names `guess`.
pub open spec fn step(words: Set<Seq<u8>>, answer: Seq<u8>, number: int, guess: Seq<u8>) -> Step {
    match verdict(words, answer, guess) {
        Verdict::Solved => Step::Won(number as usize),
        Verdict::Rejected => Step::Rejected,
        Verdict::Missed => if number < TURNS {
            Step::Next
        } else {
            Step::Lost
        },
    }
}

/// The number of guesses that the referee asks for, counted from attempt
/// `from`, when the guesser's words are `guesses`: one for every step, up to
/// the first step that is not `Next`.
pub open spec fn attempts(
    words: Set<Seq<u8>>,
    answer: Seq<u8>,
    guesses: Seq<Seq<u8>>,
    from: int,
) -> int
    decreases guesses.len() - from,
{
    if from < 0 || from >= guesses.len() || from >= TURNS {
        from
    } else if step(words, answer, from + 1, guesses[from]) == Step::Next {
        attempts(words, answer, guesses, from + 1)
    } else {
        from + 1
    }
}

/// The result of the game in which the guesser's words are `guesses`, played
/// step by step from attempt `from`: the number of the attempt that won, if
/// one did.
pub open spec fn result(
    words: Set<Seq<u8>>,
    answer: Seq<u8>,
    guesses: Seq<Seq<u8>>,
    from: int,
) -> Option<int>
    decreases guesses.len() - from,
{
    if from < 0 || from >= guesses.len() || from >= TURNS {
        None
    } else {
        match step(words, answer, from + 1, guesses[from]) {
            Step::Won(n) => Some(n as int),
            Step::Next => result(words, answer, guesses, from + 1),
            Step::Lost => None,
            Step::Rejected => None,
        }
    }
}

/// No attempt leads to another one past the cap: the attempt of number
/// `TURNS` ends the game, and only an attempt that misses goes on.
pub proof fn lemma_step_capped(words: Set<Seq<u8>>, answer: Seq<u8>, number: int, guess: Seq<u8>)
    ensures
        step(words, answer, number, guess) == Step::Next ==> number < TURNS && verdict(
            words,
            answer,
            guess,
        ) == Verdict::Missed,
        step(words, answer, number, guess) == Step::Lost ==> number >= TURNS && verdict(
            words,
            answer,
            guess,
        ) == Verdict::Missed,
        guess == answer && 1 <= number <= TURNS ==> step(words, answer, number, guess)
            == Step::Won(number as usize),
{
}

/// Different words of five letters have different codes.
pub proof fn lemma_code_injective(a: Seq<u8>, b: Seq<u8>)
    requires
        a.len() == 5,
        b.len() == 5,
        code(a) == code(b),
    ensures
        a == b,
{
    assert(a =~= b);
}

/// While every guess is missed the game goes on: a game that has seen `miss`
/// such guesses stands where a game started at attempt `miss` stands.
pub proof fn lemma_after_misses(
    words: Set<Seq<u8>>,
    answer: Seq<u8>,
    guesses: Seq<Seq<u8>>,
    from: int,
    miss: int,
)
    requires
        0 <= from <= miss <= guesses.len(),
        miss <= TURNS,
        forall|k: int| from <= k < miss ==> verdict(words, answer, guesses[k]) == Verdict::Missed,
    ensures
        result(words, answer, guesses, from) == result(words, answer, guesses, miss),
        attempts(words, answer, guesses, from) == attempts(words, answer, guesses, miss),
    decreases miss - from,
{
    if from < miss {
        lemma_after_misses(words, answer, guesses, from + 1, miss);
    }
}

/// The turn cap. A guesser that names `TURNS` words of the dictionary, none
/// of them the answer, is asked exactly `TURNS` times and does not win,
/// whatever it would have said next.
pub proof fn lemma_turn_cap(words: Set<Seq<u8>>, answer: Seq<u8>, guesses: Seq<Seq<u8>>)
    requires
        guesses.len() >= TURNS,
        forall|k: int| 0 <= k < TURNS ==> verdict(words, answer, guesses[k]) == Verdict::Missed,
    ensures
        result(words, answer, guesses, 0) is None,
        attempts(words, answer, guesses, 0) == TURNS,
{
    lemma_after_misses(words, answer, guesses, 0, TURNS as int);
}

/// A win at attempt `n` means that the `n`-th guess was the answer, that
/// every guess before it was a missed word of the dictionary, and that `n`
/// attempts were made, no more than `TURNS`.
pub proof fn lemma_win(words: Set<Seq<u8>>, answer: Seq<u8>, guesses: Seq<Seq<u8>>, from: int)
    requires
        0 <= from,
    ensures
        result(words, answer, guesses, from) matches Some(n) ==> {
            &&& from < n <= TURNS
            &&& n <= guesses.len()
            &&& guesses[n - 1] == answer
            &&& attempts(words, answer, guesses, from) == n
            &&& forall|k: int|
                from <= k < n - 1 ==> verdict(words, answer, #[trigger] guesses[k])
                    == Verdict::Missed
        },
    decreases guesses.len() - from,
{
    if from < guesses.len() && from < TURNS && step(words, answer, from + 1, guesses[from])
        == Step::Next {
        lemma_win(words, answer, guesses, from + 1);
    }
}

/// The referee never asks more than `TURNS` times.
pub proof fn lemma_attempts_capped(
    words: Set<Seq<u8>>,
    answer: Seq<u8>,
    guesses: Seq<Seq<u8>>,
    from: int,
)
    requires
        0 <= from <= TURNS,
    ensures
        from <= attempts(words, answer, guesses, from) <= TURNS,
    decreases guesses.len() - from,
{
    if from < guesses.len() && from < TURNS && step(words, answer, from + 1, guesses[from])
        == Step::Next {
        lemma_attempts_capped(words, answer, guesses, from + 1);
    }
}

/// A guess outside the dictionary stops the game at once and without a win.
pub proof fn lemma_rejected(words: Set<Seq<u8>>, answer: Seq<u8>, guesses: Seq<Seq<u8>>, at: int)
    requires
        0 <= at < guesses.len(),
        at < TURNS,
        forall|k: int| 0 <= k < at ==> verdict(words, answer, guesses[k]) == Verdict::Missed,
        verdict(words, answer, guesses[at]) == Verdict::Rejected,
    ensures
        result(words, answer, guesses, 0) is None,
        attempts(words, answer, guesses, 0) == at + 1,
{
    lemma_after_misses(words, answer, guesses, 0, at);
}

/// Reads the five letters of a word as one number.
fn pack(word: &Word) -> (key: u64)
    ensures
        key == code(word@),
{
    let a: u64 = word[0] as u64;
    let b: u64 = word[1] as u64;
    let c: u64 = word[2] as u64;
    let d: u64 = word[3] as u64;
    let e: u64 = word[4] as u64;
    a + 256 * (b + 256 * (c + 256 * (d + 256 * e)))
}

/// Tells whether two words hold the same letters.
fn same_word(a: &Word, b: &Word) -> (same: bool)
    ensures
        same == (a@ == b@),
{
    let mut i: usize = 0;
    while i < 5
        invariant
            i <= 5,
            forall|k: int| 0 <= k < i ==> a@[k] == b@[k],
        decreases 5 - i,
    {
        if a[i] != b[i] {
            return false;
        }
        i += 1;
    }
    assert(a@ =~= b@);
    true
}

/// The referee of the game, who knows which words may be played.
pub struct Wordle {
    dictionary: HashSet<u64>,
}

impl Wordle {
    /// The words that may be played.
    pub closed spec fn words(&self) -> Set<Seq<u8>> {
        Set::new(|w: Seq<u8>| w.len() == 5 && self.dictionary@.contains(code(w) as u64))
    }

    /// A referee for the words of `entries`; the frequencies are not looked at.
    pub fn new(entries: &Vec<(Word, usize)>) -> (referee: Wordle)
        ensures
            forall|word: Seq<u8>| referee.words().contains(word) <==> listed(entries@, word),
    {
        let mut dictionary: HashSet<u64> = HashSet::new();
        let mut i: usize = 0;
        while i < entries.len()
            invariant
                i <= entries@.len(),
                forall|key: u64|
                    dictionary@.contains(key) <==> exists|k: int|
                        0 <= k < i && code((#[trigger] entries@[k]).0@) == key,
            decreases entries@.len() - i,
        {
            let key = pack(&entries[i].0);
            let ghost before = dictionary@;
            dictionary.insert(key);
            proof {
                assert forall|other: u64|
                    dictionary@.contains(other) <==> exists|k: int|
                        0 <= k < i + 1 && code((#[trigger] entries@[k]).0@) == other by {
                    if dictionary@.contains(other) {
                        if other == key {
                            assert(code(entries@[i as int].0@) == other);
                        } else {
                            assert(before.contains(other));
                            let k = choose|k: int|
                                0 <= k < i && code((#[trigger] entries@[k]).0@) == other;
                            assert(0 <= k < i + 1 && code(entries@[k].0@) == other);
                        }
                    }
                    if exists|k: int| 0 <= k < i + 1 && code((#[trigger] entries@[k]).0@) == other {
                        let k = choose|k: int|
                            0 <= k < i + 1 && code((#[trigger] entries@[k]).0@) == other;
                        if k < i {
                            assert(before.contains(other));
                        }
                    }
                }
            }
            i += 1;
        }
        let referee = Wordle { dictionary };
        proof {
            assert forall|word: Seq<u8>| referee.words().contains(word) <==> listed(
                entries@,
                word,
            ) by {
                if referee.words().contains(word) {
                    let key = code(word) as u64;
                    let k = choose|k: int|
                        0 <= k < entries@.len() && code((#[trigger] entries@[k]).0@) == key;
                    lemma_code_injective(entries@[k].0@, word);
                }
                if listed(entries@, word) {
                    let k = choose|k: int|
                        0 <= k < entries@.len() && (#[trigger] entries@[k]).0@ == word;
                    assert(code(entries@[k].0@) == code(word));
                }
            }
        }
        referee
    }

    /// Tells whether `word` may be played.
    pub fn contains(&self, word: &Word) -> (known: bool)
        ensures
            known == self.words().contains(word@),
    {
        let key = pack(word);
        self.dictionary.contains(&key)
    }

    /// Judges one guess. A missed guess is entered into `history` with the
    /// feedback it earns against `answer`; any other leaves `history` alone.
    pub fn judge(&self, answer: &Word, guess: Word, history: &mut Vec<Guess>) -> (v: Verdict)
        ensures
            v == verdict(self.words(), answer@, guess@),
            v != Verdict::Missed ==> final(history)@ == old(history)@,
            v == Verdict::Missed ==> {
                &&& final(history)@.len() == old(history)@.len() + 1
                &&& final(history)@.drop_last() == old(history)@
                &&& final(history)@.last().word == guess
                &&& final(history)@.last().mask@ == feedback(answer@, guess@)
            },
    {
        if same_word(&guess, answer) {
            return Verdict::Solved;
        }
        if !self.contains(&guess) {
            return Verdict::Rejected;
        }
        let mask = Correctness::compute(answer, &guess);
        history.push(Guess { word: guess, mask });
        assert(history@.drop_last() =~= old(history)@);
        Verdict::Missed
    }

    /// Takes the attempt of number `number`, which names `guess`, with the
    /// missed guesses of the attempts before it in `history`. A guess that
    /// misses is entered into `history` with the feedback it earns against
    /// `answer`; the game then goes on unless this was the last attempt. The
    /// answer wins, and a word outside the dictionary breaks the game off.
    pub fn attempt(
        &self,
        answer: &Word,
        number: usize,
        guess: Word,
        history: &mut Vec<Guess>,
    ) -> (next: Step)
        requires
            1 <= number <= TURNS,
            old(history)@.len() == number - 1,
        ensures
            next == step(self.words(), answer@, number as int, guess@),
            next != Step::Next && next != Step::Lost ==> final(history)@ == old(history)@,
            next == Step::Next || next == Step::Lost ==> {
                &&& final(history)@.len() == number
                &&& final(history)@.drop_last() == old(history)@
                &&& final(history)@.last().word == guess
                &&& final(history)@.last().mask@ == feedback(answer@, guess@)
            },
    {
        match self.judge(answer, guess, history) {
            Verdict::Solved => Step::Won(number),
            Verdict::Rejected => Step::Rejected,
            Verdict::Missed => {
                if number < TURNS {
                    Step::Next
                } else {
                    Step::Lost
                }
            },
        }
    }

    /// Plays one game for `answer` and tells how it ended, with the record
    /// of the guesses that missed. The guesser is asked for one word per
    /// attempt and is shown the record so far; [`Wordle::attempt`] decides
    /// what each word leads to.
    ///
    /// Nothing is known of the words that a guesser names, so the contract
    /// speaks of the record: every entry is a word of the dictionary that is
    /// not the answer, with its true feedback; a win comes at the attempt
    /// after the last entry, a lost game has `TURNS` entries, and a game
    /// that was broken off has fewer.
    pub fn run<G: Guesser>(&self, answer: &Word, guesser: G) -> (end: (Step, Vec<Guess>))
        ensures
            end.0 != Step::Next,
            forall|k: int|
                0 <= k < end.1@.len() ==> verdict(self.words(), answer@, (#[trigger] end.1@[k]).word@)
                    == Verdict::Missed && end.1@[k].mask@ == feedback(answer@, end.1@[k].word@),
            end.0 matches Step::Won(n) ==> n == end.1@.len() + 1 && n <= TURNS,
            end.0 == Step::Lost ==> end.1@.len() == TURNS,
            end.0 == Step::Rejected ==> end.1@.len() < TURNS,
    {
        let mut guesser = guesser;
        let mut history: Vec<Guess> = Vec::new();
        let mut number: usize = 1;
        loop
            invariant
                1 <= number <= TURNS,
                history@.len() == number - 1,
                forall|k: int|
                    0 <= k < history@.len() ==> verdict(
                        self.words(),
                        answer@,
                        (#[trigger] history@[k]).word@,
                    ) == Verdict::Missed && history@[k].mask@ == feedback(
                        answer@,
                        history@[k].word@,
                    ),
            decreases TURNS - number,
        {
            let guess = guesser.guess(history.as_slice());
            let ghost shown = history@;
            let next = self.attempt(answer, number, guess, &mut history);
            proof {
                if next == Step::Next || next == Step::Lost {
                    assert forall|k: int| 0 <= k < history@.len() implies verdict(
                        self.words(),
                        answer@,
                        (#[trigger] history@[k]).word@,
                    ) == Verdict::Missed && history@[k].mask@ == feedback(
                        answer@,
                        history@[k].word@,
                    ) by {
                        if k < shown.len() {
                            assert(history@[k] == history@.drop_last()[k]);
                        }
                    }
                }
            }
            match next {
                Step::Next => {},
                _ => {
                    return (next, history);
                },
            }
            number += 1;
        }
    }

    /// Plays one game for `answer`, as [`Wordle::run`] does, and gives the
    /// number of the attempt that won, or nothing for a game that was lost
    /// or broken off.
    ///
    /// Of the game as a whole the contract says only when a win can come.
    /// What each attempt leads to is stated, for every word that a guesser
    /// may name, by [`Wordle::attempt`].
    pub fn play<G: Guesser>(&self, answer: &Word, guesser: G) -> (won: Option<usize>)
        ensures
            won matches Some(n) ==> 1 <= n <= TURNS,
    {
        let (end, _) = self.run(answer, guesser);
        match end {
            Step::Won(n) => Some(n),
            _ => None,
        }
    }
}

} // verus!
