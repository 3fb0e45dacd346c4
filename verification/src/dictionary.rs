//! The dictionary as text. Every line holds one entry: a word of five
//! letters, one space, and the word's frequency in decimal digits, which a
//! plus sign may precede. Lines end with a line feed, or with a carriage
//! return and a line feed; the last one may do without.
use crate::feedback::Word;
use vstd::prelude::*;

verus! {

/// `s` is a numeral: one decimal digit or more, and nothing else.
pub open spec fn is_digits(s: Seq<u8>) -> bool {
    s.len() > 0 && forall|i: int| 0 <= i < s.len() ==> 48 <= #[trigger] s[i] <= 57
}

/// The number that the numeral `digits` writes.
pub open spec fn number(digits: Seq<u8>) -> nat
    decreases digits.len(),
{
    if digits.len() == 0 {
        0
    } else {
        10 * number(digits.drop_last()) + (digits.last() - 48) as nat
    }
}

/// The digits of a frequency as written: what follows the plus sign, if the
/// frequency begins with one, and else all of it.
pub open spec fn unsigned(s: Seq<u8>) -> Seq<u8> {
    if s.len() > 0 && s[0] == 43 {
        s.skip(1)
    } else {
        s
    }
}

/// The entry that `line` holds, if the line is well formed: its first space
/// stands after exactly five letters, and what follows the space is a
/// numeral, with or without a plus sign before it, for a number that fits a
/// `usize`.
pub open spec fn entry_of(line: Seq<u8>) -> Option<(Seq<u8>, nat)> {
    if line.len() > 6 && line[5] == 32 && (forall|i: int| 0 <= i < 5 ==> line[i] != 32)
        && is_digits(unsigned(line.skip(6))) && number(unsigned(line.skip(6))) <= usize::MAX {
        Some((line.take(5), number(unsigned(line.skip(6)))))
    } else {
        None
    }
}

/// The line of `text` from `from` up to the line feed at `end`: a carriage
/// return just before the line feed belongs to the line's end, not to the
/// line.
pub open spec fn line_before(text: Seq<u8>, from: int, end: int) -> Seq<u8> {
    if from < end && text[end - 1] == 13 {
        text.subrange(from, end - 1)
    } else {
        text.subrange(from, end)
    }
}

/// Where the line that starts at `from` ends: at the next line feed, or at
/// the end of the text.
pub open spec fn line_end(text: Seq<u8>, from: int) -> int
    decreases text.len() - from,
{
    if from < 0 || from >= text.len() || text[from] == 10 {
        from
    } else {
        line_end(text, from + 1)
    }
}

/// The entries of the lines of `text` from place `from` on, if every one of
/// these lines is well formed.
pub open spec fn entries_from(text: Seq<u8>, from: int) -> Option<Seq<(Seq<u8>, nat)>>
    decreases text.len() - from,
{
    if from < 0 || from >= text.len() {
        Some(Seq::empty())
    } else {
        let end = line_end(text, from);
        if end < from {
            None
        } else if end >= text.len() {
            match entry_of(text.subrange(from, text.len() as int)) {
                Some(e) => Some(seq![e]),
                None => None,
            }
        } else {
            match (entry_of(line_before(text, from, end)), entries_from(text, end + 1)) {
                (Some(e), Some(rest)) => Some(seq![e] + rest),
                _ => None,
            }
        }
    }
}

/// The entries that `text` holds, if all its lines are well formed.
pub open spec fn entries(text: Seq<u8>) -> Option<Seq<(Seq<u8>, nat)>> {
    entries_from(text, 0)
}

/// A list of entries as plain values: the letters of each word and its
/// frequency.
pub open spec fn plain(list: Seq<(Word, usize)>) -> Seq<(Seq<u8>, nat)> {
    list.map_values(|e: (Word, usize)| (e.0@, e.1 as nat))
}

/// The entries read so far, followed by what the rest of the text holds.
spec fn followed(done: Seq<(Seq<u8>, nat)>, rest: Option<Seq<(Seq<u8>, nat)>>) -> Option<
    Seq<(Seq<u8>, nat)>,
> {
    match rest {
        Some(r) => Some(done + r),
        None => None,
    }
}

/// A line ends at or after its start and within the text, at a line feed
/// unless the text ends there, and holds no line feed.
proof fn lemma_line_end(text: Seq<u8>, from: int)
    requires
        0 <= from <= text.len(),
    ensures
        from <= line_end(text, from) <= text.len(),
        line_end(text, from) < text.len() ==> text[line_end(text, from)] == 10,
        forall|i: int| from <= i < line_end(text, from) ==> text[i] != 10,
    decreases text.len() - from,
{
    if from < text.len() && text[from] != 10 {
        lemma_line_end(text, from + 1);
    }
}

/// A numeral writes no less than the numeral without its last digits does.
proof fn lemma_number_grows(digits: Seq<u8>, k: int)
    requires
        0 <= k <= digits.len(),
        forall|i: int| 0 <= i < digits.len() ==> 48 <= #[trigger] digits[i] <= 57,
    ensures
        number(digits.take(k)) <= number(digits),
    decreases digits.len() - k,
{
    if k < digits.len() {
        lemma_number_grows(digits, k + 1);
        assert(digits.take(k + 1).drop_last() =~= digits.take(k));
    } else {
        assert(digits.take(k) =~= digits);
    }
}

/// Reads the numeral that `text` holds from `from` up to `end`.
fn parse_number(text: &[u8], from: usize, end: usize) -> (value: Option<usize>)
    requires
        from <= end <= text@.len(),
    ensures
        match value {
            Some(n) => is_digits(text@.subrange(from as int, end as int)) && n == number(
                text@.subrange(from as int, end as int),
            ),
            None => !is_digits(text@.subrange(from as int, end as int)) || number(
                text@.subrange(from as int, end as int),
            ) > usize::MAX,
        },
{
    let ghost digits = text@.subrange(from as int, end as int);
    if from == end {
        return None;
    }
    let mut value: usize = 0;
    let mut at: usize = from;
    while at < end
        invariant
            from <= at <= end <= text@.len(),
            digits == text@.subrange(from as int, end as int),
            forall|i: int| 0 <= i < at - from ==> 48 <= #[trigger] digits[i] <= 57,
            value == number(digits.take(at - from)),
        decreases end - at,
    {
        let c = text[at];
        if c < 48 || c > 57 {
            assert(digits[at - from] == c);
            return None;
        }
        let d: usize = (c - 48) as usize;
        proof {
            assert(digits.take(at - from + 1).drop_last() =~= digits.take(at - from));
            assert(digits.take(at - from + 1).last() == c);
        }
        if value > (usize::MAX - d) / 10 {
            proof {
                assert(number(digits.take(at - from + 1)) > usize::MAX);
                if is_digits(digits) {
                    lemma_number_grows(digits, at - from + 1);
                }
            }
            return None;
        }
        value = value * 10 + d;
        at += 1;
    }
    assert(digits.take(at - from) =~= digits);
    Some(value)
}

/// Reads the entry that the line of `text` from `from` up to `end` holds.
fn parse_line(text: &[u8], from: usize, end: usize) -> (entry: Option<(Word, usize)>)
    requires
        from <= end <= text@.len(),
    ensures
        match entry {
            Some(e) => entry_of(text@.subrange(from as int, end as int)) == Some(
                (e.0@, e.1 as nat),
            ),
            None => entry_of(text@.subrange(from as int, end as int)) is None,
        },
{
    let ghost line = text@.subrange(from as int, end as int);
    if end - from <= 6 {
        return None;
    }
    let mut word: Word = [0;5];
    let mut i: usize = 0;
    while i < 5
        invariant
            i <= 5,
            from + 6 < end <= text@.len(),
            line == text@.subrange(from as int, end as int),
            forall|k: int| 0 <= k < i ==> word@[k] == line[k] && line[k] != 32,
        decreases 5 - i,
    {
        let c = text[from + i];
        if c == 32 {
            assert(line[i as int] == 32);
            return None;
        }
        word[i] = c;
        i += 1;
    }
    if text[from + 5] != 32 {
        assert(line[5] != 32);
        return None;
    }
    let digits: usize = if text[from + 6] == 43 {
        from + 7
    } else {
        from + 6
    };
    assert(unsigned(line.skip(6)) =~= text@.subrange(digits as int, end as int));
    match parse_number(text, digits, end) {
        Some(freq) => {
            assert(word@ =~= line.take(5));
            Some((word, freq))
        },
        None => None,
    }
}

/// Reads a dictionary: the entries of the lines of `text`, in their order, if
/// every line is well formed, and nothing otherwise.
pub fn parse(text: &[u8]) -> (parsed: Option<Vec<(Word, usize)>>)
    ensures
        match parsed {
            Some(list) => entries(text@) == Some(plain(list@)),
            None => entries(text@) is None,
        },
{
    let mut list: Vec<(Word, usize)> = Vec::new();
    let mut from: usize = 0;
    assert(plain(list@) + entries(text@).unwrap() =~= entries(text@).unwrap());
    while from < text.len()
        invariant
            from <= text@.len(),
            entries(text@) == followed(plain(list@), entries_from(text@, from as int)),
        decreases text@.len() - from,
    {
        let mut end: usize = from;
        while end < text.len() && text[end] != 10
            invariant
                from <= end <= text@.len(),
                line_end(text@, from as int) == line_end(text@, end as int),
            decreases text@.len() - end,
        {
            end += 1;
        }
        let ghost done = plain(list@);
        let ghost rest = entries_from(text@, end + 1);
        proof {
            lemma_line_end(text@, end as int);
        }
        let stop: usize = if from < end && end < text.len() && text[end - 1] == 13 {
            end - 1
        } else {
            end
        };
        match parse_line(text, from, stop) {
            None => {
                return None;
            },
            Some(entry) => {
                list.push(entry);
                proof {
                    let e = (entry.0@, entry.1 as nat);
                    assert(plain(list@) =~= done.push(e));
                    assert(done + seq![e] =~= done.push(e));
                    if end < text@.len() && rest is Some {
                        assert(done + (seq![e] + rest.unwrap()) =~= done.push(e) + rest.unwrap());
                    }
                }
            },
        }
        if end == text.len() {
            return Some(list);
        }
        from = end + 1;
    }
    proof {
        assert(plain(list@) + Seq::<(Seq<u8>, nat)>::empty() =~= plain(list@));
    }
    Some(list)
}

} // verus!
