//! The universe of feedback patterns: all 243 of them, in a fixed order.
use crate::feedback::Correctness;
use vstd::prelude::*;

verus! {

/// The rank of a mark: `Correct` before `Misplaced` before `Wrong`.
pub open spec fn digit(c: Correctness) -> int {
    match c {
        Correctness::Correct => 0,
        Correctness::Misplaced => 1,
        Correctness::Wrong => 2,
    }
}

/// The mark of a given rank.
pub open spec fn mark_of(d: int) -> Correctness {
    if d == 0 {
        Correctness::Correct
    } else if d == 1 {
        Correctness::Misplaced
    } else {
        Correctness::Wrong
    }
}

/// The number of a pattern: its marks read as a numeral in base three, the
/// first position weighing most.
pub open spec fn number_of(p: Seq<Correctness>) -> int {
    81 * digit(p[0]) + 27 * digit(p[1]) + 9 * digit(p[2]) + 3 * digit(p[3]) + digit(p[4])
}

/// The pattern with number `n`.
pub open spec fn pattern_at(n: int) -> Seq<Correctness> {
    seq![
        mark_of(n / 81),
        mark_of(n / 27 % 3),
        mark_of(n / 9 % 3),
        mark_of(n / 3 % 3),
        mark_of(n % 3),
    ]
}

/// Every pattern has a number below 243 and stands at that number: the
/// universe leaves no pattern out.
pub proof fn lemma_pattern_listed(p: Seq<Correctness>)
    requires
        p.len() == 5,
    ensures
        0 <= number_of(p) < 243,
        pattern_at(number_of(p)) == p,
{
    assert(pattern_at(number_of(p)) =~= p);
}

/// Each number below 243 stands for a pattern of five marks, and for no
/// pattern that another number stands for: the universe lists nothing twice.
pub proof fn lemma_pattern_once(n: int)
    requires
        0 <= n < 243,
    ensures
        pattern_at(n).len() == 5,
        number_of(pattern_at(n)) == n,
{
    let p = pattern_at(n);
    let q1 = n / 3;
    let q2 = q1 / 3;
    let q3 = q2 / 3;
    let q4 = q3 / 3;
    assert(n / 9 == q2 && n / 27 == q3 && n / 81 == q4);
    assert(digit(p[4]) == n % 3);
    assert(digit(p[3]) == q1 % 3);
    assert(digit(p[2]) == q2 % 3);
    assert(digit(p[1]) == q3 % 3);
    assert(digit(p[0]) == q4);
}

/// Pairs every item of `left` with every item of `right` by a call of
/// `itertools::Itertools::cartesian_product` on the two lists. The contract
/// claims what that adaptor yields: for each item of `left` in turn, one pair
/// with each item of `right` in turn, so that the pair at place `n` joins the
/// item at `n / right.len()` of `left` and the item at `n % right.len()` of
/// `right`. Nothing of this is proved here.
#[verifier::external_body]
fn pairs<A: Copy, B: Copy>(left: &Vec<A>, right: &Vec<B>) -> (out: Vec<(A, B)>)
    requires
        left@.len() * right@.len() <= usize::MAX,
    ensures
        out@.len() == left@.len() * right@.len(),
        forall|n: int|
            0 <= n < out@.len() ==> out@[n] == (
                left@[n / (right@.len() as int)],
                right@[n % (right@.len() as int)],
            ),
{
    itertools::Itertools::cartesian_product(left.iter().copied(), right.iter().copied()).collect()
}

impl Correctness {
    /// All patterns of five marks, the product of the three marks over the
    /// five positions, in the order of their numbers.
    pub fn patterns() -> (all: Vec<[Correctness; 5]>)
        ensures
            all@.len() == 243,
            forall|n: int| 0 <= n < 243 ==> (#[trigger] all@[n])@ == pattern_at(n),
    {
        let marks: Vec<Correctness> = vec![
            Correctness::Correct,
            Correctness::Misplaced,
            Correctness::Wrong,
        ];
        let two = pairs(&marks, &marks);
        let three = pairs(&two, &marks);
        let four = pairs(&three, &marks);
        let five = pairs(&four, &marks);
        let mut all: Vec<[Correctness; 5]> = Vec::new();
        let mut n: usize = 0;
        while n < 243
            invariant
                n <= 243,
                marks@ == seq![Correctness::Correct, Correctness::Misplaced, Correctness::Wrong],
                two@.len() == 9,
                three@.len() == 27,
                four@.len() == 81,
                five@.len() == 243,
                forall|k: int| 0 <= k < 9 ==> two@[k] == (marks@[k / 3], marks@[k % 3]),
                forall|k: int| 0 <= k < 27 ==> three@[k] == (two@[k / 3], marks@[k % 3]),
                forall|k: int| 0 <= k < 81 ==> four@[k] == (three@[k / 3], marks@[k % 3]),
                forall|k: int| 0 <= k < 243 ==> five@[k] == (four@[k / 3], marks@[k % 3]),
                all@.len() == n,
                forall|k: int| 0 <= k < n ==> (#[trigger] all@[k])@ == pattern_at(k),
            decreases 243 - n,
        {
            let ((((a, b), c), d), e) = five[n];
            let p: [Correctness; 5] = [a, b, c, d, e];
            proof {
                let m = n as int;
                assert(five@[m] == (four@[m / 3], marks@[m % 3]));
                assert(four@[m / 3] == (three@[m / 3 / 3], marks@[m / 3 % 3]));
                assert(three@[m / 9] == (two@[m / 9 / 3], marks@[m / 9 % 3]));
                assert(two@[m / 27] == (marks@[m / 27 / 3], marks@[m / 27 % 3]));
                assert(p@ =~= pattern_at(m));
            }
            all.push(p);
            n += 1;
        }
        all
    }
}

} // verus!
