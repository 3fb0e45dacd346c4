//! The player's side: the pool of words that may still be the answer, how a
//! candidate guess would split that pool, and the choice of the best guess.
use crate::feedback::{feedback, Correctness, Guess, Word};
use crate::patterns::{lemma_pattern_listed, lemma_pattern_once, number_of, pattern_at};
use vstd::prelude::*;

verus! {

/// The summed frequency of the entries of `pool`.
pub open spec fn weight(pool: Seq<(Word, usize)>) -> nat
    decreases pool.len(),
{
    if pool.len() == 0 {
        0
    } else {
        weight(pool.drop_last()) + pool.last().1 as nat
    }
}

/// The entries of `pool` that feedback `last` leaves possible, in their order.
pub open spec fn narrowed(pool: Seq<(Word, usize)>, last: Guess) -> Seq<(Word, usize)> {
    pool.filter(|e: (Word, usize)| last.consistent(e.0@))
}

/// The entries of `pool` against which the guess `word` would earn `pattern`.
pub open spec fn sharing(pool: Seq<(Word, usize)>, word: Seq<u8>, pattern: Seq<Correctness>) -> Seq<
    (Word, usize),
> {
    pool.filter(|e: (Word, usize)| feedback(e.0@, word) == pattern)
}

/// How the guess `word` would split `pool`: for each pattern, by its number,
/// the weight of the entries against which `word` would earn it.
pub open spec fn spread(pool: Seq<(Word, usize)>, word: Seq<u8>) -> Seq<nat> {
    Seq::new(243, |n: int| weight(sharing(pool, word, pattern_at(n))))
}

/// Filtering one entry more either appends that entry or changes nothing.
proof fn lemma_filter_next<T>(s: Seq<T>, pred: spec_fn(T) -> bool, k: int)
    requires
        0 <= k < s.len(),
    ensures
        s.take(k + 1).filter(pred) == if pred(s[k]) {
            s.take(k).filter(pred).push(s[k])
        } else {
            s.take(k).filter(pred)
        },
{
    reveal(Seq::filter);
    assert(s.take(k + 1).drop_last() =~= s.take(k));
}

/// The weight of a pool grows by the frequency of an entry put at its end.
proof fn lemma_weight_push(pool: Seq<(Word, usize)>, e: (Word, usize))
    ensures
        weight(pool.push(e)) == weight(pool) + e.1,
{
    assert(pool.push(e).drop_last() =~= pool);
}

/// No frequency exceeds `usize::MAX`, so no weight exceeds that many times
/// the number of entries.
proof fn lemma_weight_bound(pool: Seq<(Word, usize)>)
    ensures
        weight(pool) <= pool.len() * usize::MAX,
    decreases pool.len(),
{
    if pool.len() > 0 {
        lemma_weight_bound(pool.drop_last());
        assert(weight(pool) <= (pool.len() - 1) * usize::MAX + usize::MAX);
        assert((pool.len() - 1) * usize::MAX + usize::MAX == pool.len() * usize::MAX)
            by (nonlinear_arith);
    }
}

/// A pool held in memory weighs less than `u128` can count.
proof fn lemma_weight_fits(pool: Seq<(Word, usize)>)
    requires
        pool.len() <= usize::MAX,
    ensures
        weight(pool) <= u128::MAX,
{
    lemma_weight_bound(pool);
    assert(pool.len() * usize::MAX <= 0xffff_ffff_ffff_ffff * 0xffff_ffff_ffff_ffff)
        by (nonlinear_arith)
        requires
            pool.len() <= usize::MAX,
            usize::MAX <= 0xffff_ffff_ffff_ffff,
    ;
}

/// What a filter keeps weighs no more than the whole, and holds no more
/// entries.
proof fn lemma_filter_shrinks(pool: Seq<(Word, usize)>, pred: spec_fn((Word, usize)) -> bool)
    ensures
        pool.filter(pred).len() <= pool.len(),
        weight(pool.filter(pred)) <= weight(pool),
    decreases pool.len(),
{
    reveal(Seq::filter);
    if pool.len() > 0 {
        lemma_filter_shrinks(pool.drop_last(), pred);
        if pred(pool.last()) {
            lemma_weight_push(pool.drop_last().filter(pred), pool.last());
        }
    }
}

/// Monotonic shrink: a turn of feedback never adds to the pool, neither in
/// entries nor in weight.
pub proof fn lemma_narrowed_shrinks(pool: Seq<(Word, usize)>, last: Guess)
    ensures
        narrowed(pool, last).len() <= pool.len(),
        weight(narrowed(pool, last)) <= weight(pool),
{
    lemma_filter_shrinks(pool, |e: (Word, usize)| last.consistent(e.0@));
}

/// What is left of `dictionary` after each turn of `history` has narrowed
/// it in its turn.
pub open spec fn survivors(dictionary: Seq<(Word, usize)>, history: Seq<Guess>) -> Seq<
    (Word, usize),
>
    decreases history.len(),
{
    if history.len() == 0 {
        dictionary
    } else {
        narrowed(survivors(dictionary, history.drop_last()), history.last())
    }
}

/// `word` agrees with every turn of `history`.
pub open spec fn possible(history: Seq<Guess>, word: Seq<u8>) -> bool {
    forall|k: int| 0 <= k < history.len() ==> (#[trigger] history[k]).consistent(word)
}

/// Filters that keep the same items give the same result.
proof fn lemma_filter_same<T>(s: Seq<T>, p: spec_fn(T) -> bool, q: spec_fn(T) -> bool)
    requires
        forall|i: int| 0 <= i < s.len() ==> p(s[i]) == q(s[i]),
    ensures
        s.filter(p) == s.filter(q),
    decreases s.len(),
{
    reveal(Seq::filter);
    if s.len() > 0 {
        let front = s.drop_last();
        assert forall|i: int| 0 <= i < front.len() implies p(front[i]) == q(front[i]) by {
            assert(front[i] == s[i]);
        }
        lemma_filter_same(front, p, q);
        assert(p(s.last()) == q(s[s.len() - 1]));
    }
}

/// Filtering twice keeps what both filters keep.
proof fn lemma_filter_twice<T>(s: Seq<T>, p: spec_fn(T) -> bool, q: spec_fn(T) -> bool)
    ensures
        s.filter(p).filter(q) == s.filter(|e: T| p(e) && q(e)),
    decreases s.len(),
{
    reveal(Seq::filter);
    if s.len() > 0 {
        lemma_filter_twice(s.drop_last(), p, q);
        if p(s.last()) {
            let kept = s.drop_last().filter(p);
            assert(kept.push(s.last()).drop_last() =~= kept);
        }
    }
}

/// Narrowing turn by turn comes to the same as testing every entry of the
/// dictionary against the whole history: only the latest turn needs to be
/// looked at, and the pool depends on nothing but dictionary and history.
pub proof fn lemma_survivors(dictionary: Seq<(Word, usize)>, history: Seq<Guess>)
    ensures
        survivors(dictionary, history) == dictionary.filter(
            |e: (Word, usize)| possible(history, e.0@),
        ),
    decreases history.len(),
{
    let all = |e: (Word, usize)| possible(history, e.0@);
    if history.len() == 0 {
        reveal(Seq::filter);
        lemma_filter_same(dictionary, all, |e: (Word, usize)| true);
        lemma_filter_all(dictionary);
    } else {
        let earlier = history.drop_last();
        let last = history.last();
        let p = |e: (Word, usize)| possible(earlier, e.0@);
        let q = |e: (Word, usize)| last.consistent(e.0@);
        lemma_survivors(dictionary, earlier);
        lemma_filter_twice(dictionary, p, q);
        assert forall|i: int| 0 <= i < dictionary.len() implies (p(dictionary[i]) && q(
            dictionary[i],
        )) == all(dictionary[i]) by {
            let w = dictionary[i].0@;
            if possible(earlier, w) && last.consistent(w) {
                assert forall|k: int| 0 <= k < history.len() implies (
                #[trigger] history[k]).consistent(w) by {
                    if k < earlier.len() {
                        assert(history[k] == earlier[k]);
                    }
                }
            }
            if possible(history, w) {
                assert(history[history.len() - 1].consistent(w));
                assert forall|k: int| 0 <= k < earlier.len() implies (
                #[trigger] earlier[k]).consistent(w) by {
                    assert(earlier[k] == history[k]);
                }
            }
        }
        lemma_filter_same(dictionary, |e: (Word, usize)| p(e) && q(e), all);
    }
}

/// A filter that nothing passes keeps nothing.
proof fn lemma_filter_none<T>(s: Seq<T>, pred: spec_fn(T) -> bool)
    requires
        forall|i: int| 0 <= i < s.len() ==> !pred(s[i]),
    ensures
        s.filter(pred).len() == 0,
    decreases s.len(),
{
    reveal(Seq::filter);
    if s.len() > 0 {
        let front = s.drop_last();
        assert forall|i: int| 0 <= i < front.len() implies !pred(front[i]) by {
            assert(front[i] == s[i]);
        }
        lemma_filter_none(front, pred);
        assert(!pred(s[s.len() - 1]));
    }
}

/// A filter that keeps everything changes nothing.
proof fn lemma_filter_all<T>(s: Seq<T>)
    ensures
        s.filter(|e: T| true) == s,
    decreases s.len(),
{
    reveal(Seq::filter);
    if s.len() > 0 {
        lemma_filter_all(s.drop_last());
        assert(s.drop_last().push(s.last()) =~= s);
    }
}

/// Monotonic shrink over a game: one more turn of history never leaves more
/// in the pool than the turns before it did.
pub proof fn lemma_survivors_shrink(
    dictionary: Seq<(Word, usize)>,
    history: Seq<Guess>,
    next: Guess,
)
    ensures
        survivors(dictionary, history.push(next)).len() <= survivors(dictionary, history).len(),
        weight(survivors(dictionary, history.push(next))) <= weight(
            survivors(dictionary, history),
        ),
{
    assert(history.push(next).drop_last() =~= history);
    lemma_narrowed_shrinks(survivors(dictionary, history), next);
}

/// The true answer is never narrowed away: an entry that holds the answer
/// stays in the pool after any turn whose feedback was earned against it.
pub proof fn lemma_answer_stays(pool: Seq<(Word, usize)>, last: Guess, at: int)
    requires
        0 <= at < pool.len(),
        last.mask@ == feedback(pool[at].0@, last.word@),
    ensures
        narrowed(pool, last).contains(pool[at]),
        narrowed(pool, last).len() > 0,
{
    let pred = |e: (Word, usize)| last.consistent(e.0@);
    assert(pred(pool[at]));
    pool.lemma_filter_contains(pred, at);
}

/// The sum of a list of numbers.
pub open spec fn sum_of(parts: Seq<nat>) -> nat
    decreases parts.len(),
{
    if parts.len() == 0 {
        0
    } else {
        sum_of(parts.drop_last()) + parts.last()
    }
}

/// Raising one part raises the sum by as much.
proof fn lemma_sum_raise(parts: Seq<nat>, at: int, by: nat)
    requires
        0 <= at < parts.len(),
    ensures
        sum_of(parts.update(at, parts[at] + by)) == sum_of(parts) + by,
    decreases parts.len(),
{
    let raised = parts.update(at, parts[at] + by);
    if at == parts.len() - 1 {
        assert(raised.drop_last() =~= parts.drop_last());
    } else {
        lemma_sum_raise(parts.drop_last(), at, by);
        assert(raised.drop_last() =~= parts.drop_last().update(at, parts[at] + by));
    }
}

/// A list of zeros sums to zero.
proof fn lemma_sum_zero(parts: Seq<nat>)
    requires
        forall|i: int| 0 <= i < parts.len() ==> parts[i] == 0,
    ensures
        sum_of(parts) == 0,
    decreases parts.len(),
{
    if parts.len() > 0 {
        lemma_sum_zero(parts.drop_last());
    }
}

/// No part of a split outweighs the pool: every pattern's share of the
/// weight lies between nothing and all of it.
pub proof fn lemma_spread_bounded(pool: Seq<(Word, usize)>, word: Seq<u8>, n: int)
    requires
        0 <= n < 243,
    ensures
        spread(pool, word)[n] <= weight(pool),
{
    lemma_filter_shrinks(pool, |e: (Word, usize)| feedback(e.0@, word) == pattern_at(n));
}

/// The parts of a split add up to the weight of the pool: every entry earns
/// the guess exactly one pattern, so the shares are those of a distribution.
pub proof fn lemma_spread_total(pool: Seq<(Word, usize)>, word: Seq<u8>)
    requires
        word.len() == 5,
    ensures
        sum_of(spread(pool, word)) == weight(pool),
    decreases pool.len(),
{
    reveal(Seq::filter);
    if pool.len() == 0 {
        lemma_sum_zero(spread(pool, word));
    } else {
        let front = pool.drop_last();
        let e = pool.last();
        let own = number_of(feedback(e.0@, word));
        lemma_spread_total(front, word);
        lemma_pattern_listed(feedback(e.0@, word));
        let before = spread(front, word);
        assert(spread(pool, word) =~= before.update(own, before[own] + e.1 as nat)) by {
            assert forall|n: int| 0 <= n < 243 implies spread(pool, word)[n] == before.update(
                own,
                before[own] + e.1 as nat,
            )[n] by {
                let pred = |x: (Word, usize)| feedback(x.0@, word) == pattern_at(n);
                if n == own {
                    assert(pred(e));
                    lemma_weight_push(front.filter(pred), e);
                } else {
                    lemma_pattern_once(n);
                    assert(!pred(e));
                }
            }
        }
        lemma_sum_raise(before, own, e.1 as nat);
    }
}

/// The score `score` is one that `rate` may give to entry `at` of `pool`:
/// the rating of the entry's frequency, the weight of the pool, and the way
/// the entry's word would split the pool.
pub open spec fn rated<F: Fn(usize, u128, &Vec<u128>) -> u64>(
    rate: F,
    pool: Seq<(Word, usize)>,
    at: int,
    score: u64,
) -> bool {
    exists|split: Vec<u128>|
        {
            &&& split@.len() == 243
            &&& forall|n: int| 0 <= n < 243 ==> split@[n] == spread(pool, pool[at].0@)[n]
            &&& #[trigger] call_ensures(rate, (pool[at].1, weight(pool) as u128, &split), score)
        }
}

/// The outcome of one turn of the solver: from the pool `before`, shown
/// `history` and rating with `rate`, it may leave the pool `after` and name
/// `next`.
///
/// With no history it names the opening word and leaves the pool alone.
/// Otherwise it narrows the pool by the latest turn. If nothing is left it
/// names nothing; else it names the first entry whose score no other exceeds.
pub open spec fn chosen<F: Fn(usize, u128, &Vec<u128>) -> u64>(
    before: Seq<(Word, usize)>,
    history: Seq<Guess>,
    rate: F,
    after: Seq<(Word, usize)>,
    next: Word,
) -> bool {
    if history.len() == 0 {
        &&& after == before
        &&& next@ == opening_word()
    } else {
        &&& after == narrowed(before, history.last())
        &&& exists|scores: Seq<u64>, at: int|
            {
                &&& scores.len() == after.len()
                &&& forall|k: int| 0 <= k < after.len() ==> rated(rate, after, k, scores[k])
                &&& #[trigger] first_best(scores, at)
                &&& next == after[at].0
            }
    }
}

/// The pool has a word to offer for `history`: either no turn has been
/// played yet, or the latest turn leaves some entry possible.
pub open spec fn answerable(pool: Seq<(Word, usize)>, history: Seq<Guess>) -> bool {
    history.len() == 0 || narrowed(pool, history.last()).len() > 0
}

/// A turn of the solver never adds to the pool, neither in entries nor in
/// weight: what it leaves is the pool itself or a filtering of it.
pub proof fn lemma_chosen_shrinks<F: Fn(usize, u128, &Vec<u128>) -> u64>(
    before: Seq<(Word, usize)>,
    history: Seq<Guess>,
    rate: F,
    after: Seq<(Word, usize)>,
    next: Word,
)
    requires
        chosen(before, history, rate, after, next),
    ensures
        after.len() <= before.len(),
        weight(after) <= weight(before),
        history.len() > 0 ==> after == survivors(before, seq![history.last()]),
{
    if history.len() > 0 {
        lemma_narrowed_shrinks(before, history.last());
        let one = seq![history.last()];
        assert(one.drop_last() =~= Seq::<Guess>::empty());
        assert(survivors(before, one.drop_last()) == before);
        assert(one.last() == history.last());
    }
}

/// `rate` gives one score only to the same numbers.
pub open spec fn steady<F: Fn(usize, u128, &Vec<u128>) -> u64>(rate: F) -> bool {
    forall|freq: usize, total: u128, s1: Vec<u128>, s2: Vec<u128>, r1: u64, r2: u64|
        s1@ == s2@ && #[trigger] call_ensures(rate, (freq, total, &s1), r1) && #[trigger] call_ensures(
            rate,
            (freq, total, &s2),
            r2,
        ) ==> r1 == r2
}

/// Determinism of one turn: with a steady rating, the pool and the history
/// leave the solver no choice. Any two outcomes of a turn are the same pool
/// and the same word.
pub proof fn lemma_guess_determined<F: Fn(usize, u128, &Vec<u128>) -> u64>(
    before: Seq<(Word, usize)>,
    history: Seq<Guess>,
    rate: F,
    after1: Seq<(Word, usize)>,
    next1: Word,
    after2: Seq<(Word, usize)>,
    next2: Word,
)
    requires
        steady(rate),
        chosen(before, history, rate, after1, next1),
        chosen(before, history, rate, after2, next2),
    ensures
        after1 == after2,
        next1 == next2,
{
    if history.len() == 0 {
        assert(next1@ =~= next2@);
        assert(next1 =~= next2);
    } else {
        let (scores1, at1) = choose|scores: Seq<u64>, at: int|
            {
                &&& scores.len() == after1.len()
                &&& forall|k: int| 0 <= k < after1.len() ==> rated(rate, after1, k, scores[k])
                &&& #[trigger] first_best(scores, at)
                &&& next1 == after1[at].0
            };
        let (scores2, at2) = choose|scores: Seq<u64>, at: int|
            {
                &&& scores.len() == after2.len()
                &&& forall|k: int| 0 <= k < after2.len() ==> rated(rate, after2, k, scores[k])
                &&& #[trigger] first_best(scores, at)
                &&& next2 == after2[at].0
            };
        assert forall|k: int| 0 <= k < after1.len() implies scores1[k] == scores2[k] by {
            assert(rated(rate, after1, k, scores1[k]));
            assert(rated(rate, after1, k, scores2[k]));
            let s1 = choose|split: Vec<u128>|
                {
                    &&& split@.len() == 243
                    &&& forall|n: int|
                        0 <= n < 243 ==> split@[n] == spread(after1, after1[k].0@)[n]
                    &&& #[trigger] call_ensures(
                        rate,
                        (after1[k].1, weight(after1) as u128, &split),
                        scores1[k],
                    )
                };
            let s2 = choose|split: Vec<u128>|
                {
                    &&& split@.len() == 243
                    &&& forall|n: int|
                        0 <= n < 243 ==> split@[n] == spread(after1, after1[k].0@)[n]
                    &&& #[trigger] call_ensures(
                        rate,
                        (after1[k].1, weight(after1) as u128, &split),
                        scores2[k],
                    )
                };
            assert(s1@ =~= s2@);
        }
        assert(scores1 =~= scores2);
        lemma_first_best_unique(scores1, at1, at2);
    }
}

/// A solver that starts from `dictionary` and is shown `histories` one
/// after another may leave the pools `pools` and name the words `words`,
/// turn by turn.
pub open spec fn played<F: Fn(usize, u128, &Vec<u128>) -> u64>(
    dictionary: Seq<(Word, usize)>,
    histories: Seq<Seq<Guess>>,
    rate: F,
    pools: Seq<Seq<(Word, usize)>>,
    words: Seq<Word>,
) -> bool {
    &&& pools.len() == histories.len()
    &&& words.len() == histories.len()
    &&& forall|i: int|
        0 <= i < histories.len() ==> chosen(
            if i == 0 {
                dictionary
            } else {
                pools[i - 1]
            },
            #[trigger] histories[i],
            rate,
            pools[i],
            words[i],
        )
}

/// Determinism of a game: two solvers that start from the same dictionary
/// and are shown the same histories in the same order, with the same steady
/// rating, name the same word at every turn and hold the same pool after it.
pub proof fn lemma_game_determined<F: Fn(usize, u128, &Vec<u128>) -> u64>(
    dictionary: Seq<(Word, usize)>,
    histories: Seq<Seq<Guess>>,
    rate: F,
    pools1: Seq<Seq<(Word, usize)>>,
    words1: Seq<Word>,
    pools2: Seq<Seq<(Word, usize)>>,
    words2: Seq<Word>,
)
    requires
        steady(rate),
        played(dictionary, histories, rate, pools1, words1),
        played(dictionary, histories, rate, pools2, words2),
    ensures
        pools1 == pools2,
        words1 == words2,
{
    lemma_turns_determined(dictionary, histories, rate, pools1, words1, pools2, words2, histories.len() as int);
    assert(pools1 =~= pools2);
    assert(words1 =~= words2);
}

/// The first `upto` turns of two such games agree.
proof fn lemma_turns_determined<F: Fn(usize, u128, &Vec<u128>) -> u64>(
    dictionary: Seq<(Word, usize)>,
    histories: Seq<Seq<Guess>>,
    rate: F,
    pools1: Seq<Seq<(Word, usize)>>,
    words1: Seq<Word>,
    pools2: Seq<Seq<(Word, usize)>>,
    words2: Seq<Word>,
    upto: int,
)
    requires
        steady(rate),
        played(dictionary, histories, rate, pools1, words1),
        played(dictionary, histories, rate, pools2, words2),
        0 <= upto <= histories.len(),
    ensures
        forall|i: int| 0 <= i < upto ==> pools1[i] == pools2[i] && words1[i] == words2[i],
    decreases upto,
{
    if upto > 0 {
        lemma_turns_determined(dictionary, histories, rate, pools1, words1, pools2, words2, upto - 1);
        let i = upto - 1;
        let before = if i == 0 {
            dictionary
        } else {
            pools1[i - 1]
        };
        assert(chosen(before, histories[i], rate, pools1[i], words1[i]));
        assert(chosen(before, histories[i], rate, pools2[i], words2[i]));
        lemma_guess_determined(before, histories[i], rate, pools1[i], words1[i], pools2[i], words2[i]);
    }
}

/// The place of the first greatest score.
pub open spec fn first_best(scores: Seq<u64>, at: int) -> bool {
    &&& 0 <= at < scores.len()
    &&& forall|k: int| 0 <= k < scores.len() ==> scores[k] <= scores[at]
    &&& forall|k: int| 0 <= k < at ==> scores[k] < scores[at]
}

/// Only one place is that of the first greatest score.
pub proof fn lemma_first_best_unique(scores: Seq<u64>, a: int, b: int)
    requires
        first_best(scores, a),
        first_best(scores, b),
    ensures
        a == b,
{
    if a < b {
        assert(scores[a] < scores[b]);
        assert(scores[b] <= scores[a]);
    } else if b < a {
        assert(scores[b] < scores[a]);
        assert(scores[a] <= scores[b]);
    }
}

/// Finds the place of the first greatest of `scores`; an empty list has none.
pub fn best(scores: &Vec<u64>) -> (found: Option<usize>)
    ensures
        match found {
            Some(at) => first_best(scores@, at as int),
            None => scores@.len() == 0,
        },
{
    if scores.len() == 0 {
        return None;
    }
    let mut at: usize = 0;
    let mut k: usize = 1;
    while k < scores.len()
        invariant
            0 <= at < k <= scores@.len(),
            forall|j: int| 0 <= j < k ==> scores@[j] <= scores@[at as int],
            forall|j: int| 0 <= j < at ==> scores@[j] < scores@[at as int],
        decreases scores@.len() - k,
    {
        if scores[k] > scores[at] {
            at = k;
        }
        k += 1;
    }
    Some(at)
}

/// The letters of the word that opens every game: "tares".
pub open spec fn opening_word() -> Seq<u8> {
    seq![116u8, 97u8, 114u8, 101u8, 115u8]
}

/// The word that opens every game.
pub fn opening() -> (word: Word)
    ensures
        word@ == opening_word(),
{
    let word: Word = [116, 97, 114, 101, 115];
    assert(word@ =~= opening_word());
    word
}

/// The player's state in one game: the entries that may still be the answer.
pub struct Solver {
    remaining: Vec<(Word, usize)>,
    patterns: Vec<[Correctness; 5]>,
}

impl Solver {
    #[verifier::type_invariant]
    spec fn universe_held(&self) -> bool {
        &&& self.patterns@.len() == 243
        &&& forall|n: int| 0 <= n < 243 ==> (#[trigger] self.patterns@[n])@ == pattern_at(n)
    }

    /// The entries that may still be the answer, in the dictionary's order.
    pub closed spec fn pool(&self) -> Seq<(Word, usize)> {
        self.remaining@
    }

    /// A solver for a new game, whose pool is a private copy of `dictionary`.
    pub fn new(dictionary: &Vec<(Word, usize)>) -> (solver: Solver)
        ensures
            solver.pool() == dictionary@,
    {
        let mut remaining: Vec<(Word, usize)> = Vec::new();
        let mut i: usize = 0;
        while i < dictionary.len()
            invariant
                i <= dictionary@.len(),
                remaining@ == dictionary@.take(i as int),
            decreases dictionary@.len() - i,
        {
            remaining.push(dictionary[i]);
            assert(remaining@ =~= dictionary@.take(i + 1));
            i += 1;
        }
        assert(remaining@ =~= dictionary@);
        Solver { remaining, patterns: Correctness::patterns() }
    }

    /// The pool.
    pub fn remaining(&self) -> (pool: &Vec<(Word, usize)>)
        ensures
            pool@ == self.pool(),
    {
        &self.remaining
    }

    /// The weight of the pool.
    pub fn total(&self) -> (sum: u128)
        ensures
            sum == weight(self.pool()),
    {
        let mut sum: u128 = 0;
        let mut i: usize = 0;
        while i < self.remaining.len()
            invariant
                i <= self.remaining@.len(),
                sum == weight(self.remaining@.take(i as int)),
            decreases self.remaining@.len() - i,
        {
            proof {
                let next = self.remaining@.take(i + 1);
                assert(next.drop_last() =~= self.remaining@.take(i as int));
                lemma_weight_fits(next);
            }
            sum = sum + self.remaining[i].1 as u128;
            i += 1;
        }
        assert(self.remaining@.take(i as int) =~= self.remaining@);
        sum
    }

    /// Keeps in the pool the entries that feedback `last` leaves possible.
    pub fn narrow(&mut self, last: &Guess)
        ensures
            final(self).pool() == narrowed(old(self).pool(), *last),
            final(self).pool().len() <= old(self).pool().len(),
    {
        proof {
            lemma_narrowed_shrinks(self.remaining@, *last);
        }
        let ghost pred = |e: (Word, usize)| last.consistent(e.0@);
        let mut kept: Vec<(Word, usize)> = Vec::new();
        let mut i: usize = 0;
        while i < self.remaining.len()
            invariant
                i <= self.remaining@.len(),
                pred == |e: (Word, usize)| last.consistent(e.0@),
                kept@ == self.remaining@.take(i as int).filter(pred),
            decreases self.remaining@.len() - i,
        {
            let entry = self.remaining[i];
            proof {
                lemma_filter_next(self.remaining@, pred, i as int);
            }
            if last.matches(&entry.0) {
                kept.push(entry);
            }
            i += 1;
        }
        assert(self.remaining@.take(i as int) =~= self.remaining@);
        proof {
            use_type_invariant(&*self);
        }
        self.remaining = kept;
    }

    /// Works out how the guess `word` would split the pool: for each pattern,
    /// at the place of its number, the weight of the entries that agree with
    /// `word` having earned it.
    pub fn spread(&self, word: &Word) -> (split: Vec<u128>)
        ensures
            split@.len() == 243,
            forall|n: int| 0 <= n < 243 ==> split@[n] == spread(self.pool(), word@)[n],
    {
        proof {
            use_type_invariant(self);
        }
        let mut split: Vec<u128> = Vec::new();
        let mut n: usize = 0;
        while n < 243
            invariant
                n <= 243,
                self.patterns@.len() == 243,
                forall|m: int| 0 <= m < 243 ==> (#[trigger] self.patterns@[m])@ == pattern_at(m),
                split@.len() == n,
                forall|m: int| 0 <= m < n ==> split@[m] == spread(self.remaining@, word@)[m],
            decreases 243 - n,
        {
            let trial = Guess { word: *word, mask: self.patterns[n] };
            let ghost pred = |e: (Word, usize)| feedback(e.0@, word@) == pattern_at(n as int);
            let mut sum: u128 = 0;
            let mut i: usize = 0;
            while i < self.remaining.len()
                invariant
                    i <= self.remaining@.len(),
                    n < 243,
                    trial.word@ == word@,
                    trial.mask@ == pattern_at(n as int),
                    pred == |e: (Word, usize)| feedback(e.0@, word@) == pattern_at(n as int),
                    sum == weight(self.remaining@.take(i as int).filter(pred)),
                decreases self.remaining@.len() - i,
            {
                let entry = self.remaining[i];
                proof {
                    lemma_filter_next(self.remaining@, pred, i as int);
                    lemma_filter_shrinks(self.remaining@.take(i + 1), pred);
                    lemma_weight_fits(self.remaining@.take(i + 1));
                    lemma_weight_push(self.remaining@.take(i as int).filter(pred), entry);
                }
                if trial.matches(&entry.0) {
                    sum = sum + entry.1 as u128;
                }
                i += 1;
            }
            assert(self.remaining@.take(i as int) =~= self.remaining@);
            split.push(sum);
            n += 1;
        }
        split
    }

    /// Tells whether the solver has a word to offer for `history`: whether
    /// no turn has been played yet, or some entry of the pool agrees with
    /// the latest turn. The pool is left as it is.
    pub fn can_answer(&self, history: &[Guess]) -> (ok: bool)
        ensures
            ok == answerable(self.pool(), history@),
    {
        if history.len() == 0 {
            return true;
        }
        let last = &history[history.len() - 1];
        let ghost pred = |e: (Word, usize)| last.consistent(e.0@);
        let mut i: usize = 0;
        while i < self.remaining.len()
            invariant
                i <= self.remaining@.len(),
                history@.len() > 0,
                *last == history@.last(),
                pred == |e: (Word, usize)| last.consistent(e.0@),
                forall|k: int| 0 <= k < i ==> !pred(self.remaining@[k]),
            decreases self.remaining@.len() - i,
        {
            if last.matches(&self.remaining[i].0) {
                proof {
                    assert(pred(self.remaining@[i as int]));
                    self.remaining@.lemma_filter_contains(pred, i as int);
                    assert(*last == history@.last());
                    assert(narrowed(self.remaining@, *last).contains(self.remaining@[i as int]));
                }
                return true;
            }
            i += 1;
        }
        proof {
            lemma_filter_none(self.remaining@, pred);
            assert(*last == history@.last());
        }
        false
    }

    /// Takes one turn. With no history the solver names the opening word
    /// and leaves the pool alone. Otherwise it narrows the pool by the latest
    /// turn of `history`, lets `rate` score every entry that is left from the
    /// entry's frequency, the weight of the pool and the split that the
    /// entry's word would make of the pool, and names the first entry with
    /// the greatest score.
    ///
    /// A history that leaves no entry possible is a fault of the caller;
    /// [`Solver::can_answer`] tells beforehand.
    pub fn guess_with<F: Fn(usize, u128, &Vec<u128>) -> u64>(
        &mut self,
        history: &[Guess],
        rate: F,
    ) -> (next: Word)
        requires
            answerable(old(self).pool(), history@),
            forall|freq: usize, total: u128, split: &Vec<u128>|
                call_requires(rate, (freq, total, split)),
        ensures
            chosen(old(self).pool(), history@, rate, final(self).pool(), next),
            final(self).pool().len() <= old(self).pool().len(),
    {
        if history.len() == 0 {
            return opening();
        }
        self.narrow(&history[history.len() - 1]);
        let total = self.total();
        let mut scores: Vec<u64> = Vec::new();
        let mut k: usize = 0;
        while k < self.remaining.len()
            invariant
                k <= self.remaining@.len(),
                scores@.len() == k,
                total == weight(self.remaining@),
                forall|freq: usize, total: u128, split: &Vec<u128>|
                    call_requires(rate, (freq, total, split)),
                forall|j: int| 0 <= j < k ==> rated(rate, self.remaining@, j, scores@[j]),
            decreases self.remaining@.len() - k,
        {
            let entry = self.remaining[k];
            let split = self.spread(&entry.0);
            let score = rate(entry.1, total, &split);
            assert(rated(rate, self.remaining@, k as int, score));
            scores.push(score);
            k += 1;
        }
        match best(&scores) {
            Some(at) => {
                assert(first_best(scores@, at as int));
                self.remaining[at].0
            },
            None => opening(),
        }
    }
}

} // verus!
