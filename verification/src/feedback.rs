//! Feedback for a guess, with duplicate letters accounted for, and the test
//! whether a word agrees with feedback that was received earlier.
use vstd::prelude::*;

verus! {

/// A word of five single-byte letters.
pub type Word = [u8; 5];

/// What one letter of a guess is worth against the answer.
#[derive(Debug, Clone, Copy, PartialEq, Eq, Structural)]
pub enum Correctness {
    /// The answer holds this letter at this position.
    Correct,
    /// The answer holds this letter at another position that no other letter
    /// of the guess has accounted for.
    Misplaced,
    /// The answer holds no occurrence of this letter that is unaccounted for.
    Wrong,
}

/// The guess holds the answer's letter at position `i`.
pub open spec fn hit(answer: Seq<u8>, guess: Seq<u8>, i: int) -> bool {
    answer[i] == guess[i]
}

/// The number of positions below `n` at which the answer holds `letter` and
/// the guess holds something else: the occurrences of `letter` that misplaced
/// letters of the guess may lay claim to.
pub open spec fn spare(answer: Seq<u8>, guess: Seq<u8>, letter: u8, n: int) -> nat
    decreases n,
{
    if n <= 0 {
        0
    } else {
        spare(answer, guess, letter, n - 1) + if answer[n - 1] == letter && !hit(
            answer,
            guess,
            n - 1,
        ) {
            1nat
        } else {
            0nat
        }
    }
}

/// The number of positions below `n` at which the guess holds `letter` and the
/// answer holds something else: the claims that the guess makes on `letter`
/// before position `n`.
pub open spec fn claims(answer: Seq<u8>, guess: Seq<u8>, letter: u8, n: int) -> nat
    decreases n,
{
    if n <= 0 {
        0
    } else {
        claims(answer, guess, letter, n - 1) + if guess[n - 1] == letter && !hit(
            answer,
            guess,
            n - 1,
        ) {
            1nat
        } else {
            0nat
        }
    }
}

/// The mark of position `i` of the guess. A letter that is no hit is misplaced
/// as long as the answer has more spare occurrences of it than the guess has
/// claimed to the left of `i`.
pub open spec fn mark(answer: Seq<u8>, guess: Seq<u8>, i: int) -> Correctness {
    if hit(answer, guess, i) {
        Correctness::Correct
    } else if claims(answer, guess, guess[i], i) < spare(
        answer,
        guess,
        guess[i],
        answer.len() as int,
    ) {
        Correctness::Misplaced
    } else {
        Correctness::Wrong
    }
}

/// The pattern that `guess` earns against `answer`, one mark per letter.
pub open spec fn feedback(answer: Seq<u8>, guess: Seq<u8>) -> Seq<Correctness> {
    Seq::new(guess.len(), |i: int| mark(answer, guess, i))
}

/// Only the answer itself earns a pattern of hits throughout.
pub proof fn lemma_all_correct(answer: Seq<u8>, guess: Seq<u8>)
    requires
        answer.len() == guess.len(),
    ensures
        (guess == answer) <==> (forall|i: int|
            0 <= i < guess.len() ==> #[trigger] feedback(answer, guess)[i]
                == Correctness::Correct),
{
    if forall|i: int|
        0 <= i < guess.len() ==> #[trigger] feedback(answer, guess)[i] == Correctness::Correct {
        assert forall|i: int| 0 <= i < guess.len() implies guess[i] == answer[i] by {
            assert(feedback(answer, guess)[i] == Correctness::Correct);
        }
        assert(guess =~= answer);
    }
}

/// The smaller of two numbers.
spec fn least(a: nat, b: nat) -> nat {
    if a <= b {
        a
    } else {
        b
    }
}

/// The number of positions below `n` that are marked in `used`, hold `letter`
/// in the answer and are no hit.
spec fn taken(used: Seq<bool>, answer: Seq<u8>, guess: Seq<u8>, letter: u8, n: int) -> nat
    decreases n,
{
    if n <= 0 {
        0
    } else {
        taken(used, answer, guess, letter, n - 1) + if used[n - 1] && answer[n - 1] == letter
            && !hit(answer, guess, n - 1) {
            1nat
        } else {
            0nat
        }
    }
}

proof fn lemma_taken_none(used: Seq<bool>, answer: Seq<u8>, guess: Seq<u8>, letter: u8, n: int)
    requires
        forall|k: int| 0 <= k < n && used[k] ==> hit(answer, guess, k),
    ensures
        taken(used, answer, guess, letter, n) == 0,
    decreases n,
{
    if n > 0 {
        lemma_taken_none(used, answer, guess, letter, n - 1);
    }
}

proof fn lemma_taken_bound(used: Seq<bool>, answer: Seq<u8>, guess: Seq<u8>, letter: u8, n: int)
    ensures
        taken(used, answer, guess, letter, n) <= spare(answer, guess, letter, n),
        (forall|k: int| 0 <= k < n && answer[k] == letter && !hit(answer, guess, k) ==> used[k])
            ==> taken(used, answer, guess, letter, n) == spare(answer, guess, letter, n),
    decreases n,
{
    if n > 0 {
        lemma_taken_bound(used, answer, guess, letter, n - 1);
    }
}

proof fn lemma_taken_short(
    used: Seq<bool>,
    answer: Seq<u8>,
    guess: Seq<u8>,
    letter: u8,
    n: int,
    k: int,
)
    requires
        0 <= k < n,
        answer[k] == letter,
        !hit(answer, guess, k),
        !used[k],
    ensures
        taken(used, answer, guess, letter, n) < spare(answer, guess, letter, n),
    decreases n,
{
    if k == n - 1 {
        lemma_taken_bound(used, answer, guess, letter, n - 1);
    } else {
        lemma_taken_short(used, answer, guess, letter, n - 1, k);
    }
}

proof fn lemma_taken_step(
    used: Seq<bool>,
    answer: Seq<u8>,
    guess: Seq<u8>,
    letter: u8,
    n: int,
    j: int,
)
    requires
        0 <= j < used.len(),
        0 <= n <= used.len(),
        !used[j],
        !hit(answer, guess, j),
    ensures
        taken(used.update(j, true), answer, guess, letter, n) == taken(
            used,
            answer,
            guess,
            letter,
            n,
        ) + if j < n && answer[j] == letter {
            1nat
        } else {
            0nat
        },
    decreases n,
{
    if n > 0 {
        lemma_taken_step(used, answer, guess, letter, n - 1, j);
    }
}

impl Correctness {
    /// Scores `guess` against `answer` in two passes: the hits first, then,
    /// from left to right, each remaining letter against the letters of the
    /// answer that nothing has used yet.
    pub fn compute(answer: &Word, guess: &Word) -> (c: [Correctness; 5])
        ensures
            c@ == feedback(answer@, guess@),
    {
        let mut c: [Correctness; 5] = [Correctness::Wrong;5];
        let mut used: [bool; 5] = [false;5];
        let mut i: usize = 0;
        while i < 5
            invariant
                i <= 5,
                forall|k: int| 0 <= k < i ==> used@[k] == hit(answer@, guess@, k),
                forall|k: int| i <= k < 5 ==> !used@[k],
                forall|k: int|
                    0 <= k < 5 ==> c@[k] == if used@[k] {
                        Correctness::Correct
                    } else {
                        Correctness::Wrong
                    },
            decreases 5 - i,
        {
            if answer[i] == guess[i] {
                c[i] = Correctness::Correct;
                used[i] = true;
            }
            i += 1;
        }
        proof {
            assert forall|letter: u8|
                #[trigger] taken(used@, answer@, guess@, letter, 5) == least(
                    claims(answer@, guess@, letter, 0),
                    spare(answer@, guess@, letter, 5),
                ) by {
                lemma_taken_none(used@, answer@, guess@, letter, 5);
            }
        }
        let mut i: usize = 0;
        while i < 5
            invariant
                i <= 5,
                forall|k: int| 0 <= k < 5 && hit(answer@, guess@, k) ==> used@[k],
                forall|letter: u8|
                    #[trigger] taken(used@, answer@, guess@, letter, 5) == least(
                        claims(answer@, guess@, letter, i as int),
                        spare(answer@, guess@, letter, 5),
                    ),
                forall|k: int| 0 <= k < i ==> c@[k] == mark(answer@, guess@, k),
                forall|k: int|
                    i <= k < 5 ==> c@[k] == if hit(answer@, guess@, k) {
                        Correctness::Correct
                    } else {
                        Correctness::Wrong
                    },
            decreases 5 - i,
        {
            let ghost before = used@;
            if c[i] != Correctness::Correct {
                let mut found: bool = false;
                let mut j: usize = 0;
                while j < 5 && !found
                    invariant
                        j <= 5,
                        i < 5,
                        !found ==> used@ == before,
                        !found ==> forall|k: int|
                            0 <= k < j ==> !(answer@[k] == guess@[i as int] && !before[k]),
                        found ==> 0 < j && answer@[j - 1] == guess@[i as int] && !before[j - 1]
                            && used@ == before.update(j - 1, true),
                    decreases 5 - j + if found { 0int } else { 1int },
                {
                    if answer[j] == guess[i] && !used[j] {
                        used[j] = true;
                        found = true;
                    }
                    j += 1;
                }
                proof {
                    let g = guess@[i as int];
                    if found {
                        let at = j - 1;
                        lemma_taken_short(before, answer@, guess@, g, 5, at);
                        assert forall|letter: u8|
                            #[trigger] taken(used@, answer@, guess@, letter, 5) == least(
                                claims(answer@, guess@, letter, i + 1),
                                spare(answer@, guess@, letter, 5),
                            ) by {
                            lemma_taken_step(before, answer@, guess@, letter, 5, at);
                            assert(taken(before, answer@, guess@, letter, 5) == least(
                                claims(answer@, guess@, letter, i as int),
                                spare(answer@, guess@, letter, 5),
                            ));
                        }
                    } else {
                        lemma_taken_bound(before, answer@, guess@, g, 5);
                        assert forall|letter: u8|
                            #[trigger] taken(used@, answer@, guess@, letter, 5) == least(
                                claims(answer@, guess@, letter, i + 1),
                                spare(answer@, guess@, letter, 5),
                            ) by {
                            assert(taken(before, answer@, guess@, letter, 5) == least(
                                claims(answer@, guess@, letter, i as int),
                                spare(answer@, guess@, letter, 5),
                            ));
                        }
                    }
                    assert(taken(before, answer@, guess@, g, 5) == least(
                        claims(answer@, guess@, g, i as int),
                        spare(answer@, guess@, g, 5),
                    ));
                }
                if found {
                    c[i] = Correctness::Misplaced;
                }
            } else {
                proof {
                    assert forall|letter: u8|
                        #[trigger] taken(used@, answer@, guess@, letter, 5) == least(
                            claims(answer@, guess@, letter, i + 1),
                            spare(answer@, guess@, letter, 5),
                        ) by {
                        assert(taken(before, answer@, guess@, letter, 5) == least(
                            claims(answer@, guess@, letter, i as int),
                            spare(answer@, guess@, letter, 5),
                        ));
                    }
                }
            }
            i += 1;
        }
        assert(c@ =~= feedback(answer@, guess@));
        c
    }
}

/// A word that was played, with the feedback it received.
pub struct Guess {
    pub word: Word,
    pub mask: [Correctness; 5],
}

/// Counts the positions at which the answer holds `letter` and the guess
/// holds something else.
fn count_spare(answer: &Word, guess: &Word, letter: u8) -> (n: usize)
    ensures
        n == spare(answer@, guess@, letter, 5),
{
    let mut n: usize = 0;
    let mut k: usize = 0;
    while k < 5
        invariant
            k <= 5,
            n <= k,
            n == spare(answer@, guess@, letter, k as int),
        decreases 5 - k,
    {
        if answer[k] == letter && answer[k] != guess[k] {
            n += 1;
        }
        k += 1;
    }
    n
}

/// Counts the positions below `upto` at which the guess holds `letter` and
/// the answer holds something else.
fn count_claims(answer: &Word, guess: &Word, letter: u8, upto: usize) -> (n: usize)
    requires
        upto <= 5,
    ensures
        n == claims(answer@, guess@, letter, upto as int),
{
    let mut n: usize = 0;
    let mut k: usize = 0;
    while k < upto
        invariant
            k <= upto <= 5,
            n <= k,
            n == claims(answer@, guess@, letter, k as int),
        decreases upto - k,
    {
        if guess[k] == letter && answer[k] != guess[k] {
            n += 1;
        }
        k += 1;
    }
    n
}

/// Tells whether two patterns agree at every position.
fn same_pattern(a: &[Correctness; 5], b: &[Correctness; 5]) -> (same: bool)
    ensures
        same == (a@ == b@),
{
    let mut i: usize = 0;
    while i < 5
        invariant
            i <= 5,
            forall|k: int| 0 <= k < i ==> a@[k] == b@[k],
        decreases 5 - i,
    {
        if a[i] != b[i] {
            return false;
        }
        i += 1;
    }
    assert(a@ =~= b@);
    true
}

impl Guess {
    /// `word` could be the answer: played against it, this guess would have
    /// received exactly the feedback that it did receive.
    pub open spec fn consistent(&self, word: Seq<u8>) -> bool {
        feedback(word, self.word@) == self.mask@
    }

    /// Tests whether `word` could be the answer, by scoring this guess against
    /// it afresh and comparing the outcome with the feedback received.
    pub fn matches(&self, word: &Word) -> (ok: bool)
        ensures
            ok == self.consistent(word@),
    {
        let c = Correctness::compute(word, &self.word);
        same_pattern(&c, &self.mask)
    }

    /// Tests whether `word` could be the answer without scoring the guess in
    /// full. The hits are checked first, position by position; then each
    /// remaining letter is checked by counting: it must be marked misplaced
    /// exactly if `word` has more spare occurrences of it than the guess has
    /// claimed further left. The first disagreement settles the answer.
    pub fn matches_(&self, word: &Word) -> (ok: bool)
        ensures
            ok == self.consistent(word@),
    {
        let mut i: usize = 0;
        while i < 5
            invariant
                i <= 5,
                forall|k: int|
                    0 <= k < i ==> (self.mask@[k] == Correctness::Correct) == hit(
                        word@,
                        self.word@,
                        k,
                    ),
            decreases 5 - i,
        {
            let same = self.word[i] == word[i];
            let green = self.mask[i] == Correctness::Correct;
            if same != green {
                assert(feedback(word@, self.word@)[i as int] != self.mask@[i as int]);
                return false;
            }
            i += 1;
        }
        let mut i: usize = 0;
        while i < 5
            invariant
                i <= 5,
                forall|k: int|
                    0 <= k < 5 ==> (self.mask@[k] == Correctness::Correct) == hit(
                        word@,
                        self.word@,
                        k,
                    ),
                forall|k: int| 0 <= k < i ==> self.mask@[k] == mark(word@, self.word@, k),
            decreases 5 - i,
        {
            if self.mask[i] != Correctness::Correct {
                let letter = self.word[i];
                let claimed = count_claims(word, &self.word, letter, i);
                let open = count_spare(word, &self.word, letter);
                let misplaced = claimed < open;
                let yellow = self.mask[i] == Correctness::Misplaced;
                if misplaced != yellow {
                    assert(feedback(word@, self.word@)[i as int] != self.mask@[i as int]);
                    return false;
                }
            }
            i += 1;
        }
        assert(self.mask@ =~= feedback(word@, self.word@));
        true
    }
}

} // verus!
