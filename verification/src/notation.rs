//! Dice notation: `NdS` for N dice of S sides, `dS` or `S` for one die of S
//! sides.

use crate::text::{chars_of, is_space, lemma_trimmed_is_identity, trim, trimmed};
use vstd::prelude::*;

verus! {

/// What to roll: `n_times` dice of `sides` faces each, numbered from 1.
#[derive(Clone, Copy, Debug, PartialEq, Eq, Structural)]
pub struct DiceRoll {
    pub n_times: u16,
    pub sides: u8,
}

/// Why a text is no dice notation.
#[derive(Clone, Copy, Debug, PartialEq, Eq, Structural)]
pub enum ParseError {
    /// The text does not have the shape of a notation.
    InvalidFormat,
    /// A part that should be a number is none, is zero or is too large.
    InvalidNumber,
}

/// The largest number of dice in one roll.
pub const MAX_TIMES: u32 = 65535;

/// The largest number of sides of a die.
pub const MAX_SIDES: u32 = 255;

/// Whether `c` is one of `0` to `9`.
pub open spec fn is_digit(c: char) -> bool {
    48 <= c as u32 <= 57
}

/// The number that the digit `c` stands for.
pub open spec fn digit_value(c: char) -> nat {
    (c as u32 - 48) as nat
}

/// Whether `s` holds digits only.
pub open spec fn all_digits(s: Seq<char>) -> bool {
    forall|i: int| 0 <= i < s.len() ==> is_digit(#[trigger] s[i])
}

/// The number that the digits `s` spell in base ten.
pub open spec fn decimal(s: Seq<char>) -> nat
    decreases s.len(),
{
    if s.len() == 0 {
        0
    } else {
        decimal(s.drop_last()) * 10 + digit_value(s.last())
    }
}

/// The number that `s` spells, where `s` is one digit or more and the number
/// lies between 1 and `max`.
pub open spec fn number(s: Seq<char>, max: nat) -> Option<nat> {
    if s.len() > 0 && all_digits(s) && 1 <= decimal(s) <= max {
        Some(decimal(s))
    } else {
        None
    }
}

/// The pieces of `s` between its letters `d`, in order, without the empty
/// ones.
pub open spec fn segments(s: Seq<char>) -> Seq<Seq<char>>
    decreases s.len(),
{
    if s.len() == 0 {
        Seq::empty()
    } else {
        let before = segments(s.drop_last());
        if s.last() == 'd' {
            before
        } else if s.len() >= 2 && s[s.len() - 2] != 'd' && before.len() > 0 {
            before.drop_last().push(before.last().push(s.last()))
        } else {
            before.push(seq![s.last()])
        }
    }
}

/// The roll that the single piece `sides` asks for.
pub open spec fn one_part(sides: Seq<char>) -> Result<DiceRoll, ParseError> {
    match number(sides, MAX_SIDES as nat) {
        Some(s) => Ok(DiceRoll { n_times: 1, sides: s as u8 }),
        None => Err(ParseError::InvalidNumber),
    }
}

/// The roll that the pieces `times` and `sides` ask for.
pub open spec fn two_parts(times: Seq<char>, sides: Seq<char>) -> Result<DiceRoll, ParseError> {
    match (number(times, MAX_TIMES as nat), number(sides, MAX_SIDES as nat)) {
        (Some(n), Some(s)) => Ok(DiceRoll { n_times: n as u16, sides: s as u8 }),
        _ => Err(ParseError::InvalidNumber),
    }
}

/// What a trimmed text means, given what the grammar said of it.
///
/// A text that the grammar did not accept has no format. An accepted text is
/// cut at its letters `d`: one piece is the number of sides of a single die,
/// two pieces are the number of dice and the number of sides, and any other
/// count of pieces has no format.
pub open spec fn parse_result(text: Seq<char>, verdict: Option<bool>) -> Result<
    DiceRoll,
    ParseError,
> {
    let parts = segments(text);
    if verdict != Some(true) {
        Err(ParseError::InvalidFormat)
    } else if parts.len() == 1 {
        one_part(parts[0])
    } else if parts.len() == 2 {
        two_parts(parts[0], parts[1])
    } else {
        Err(ParseError::InvalidFormat)
    }
}

/// The grammar of a notation, as a regular expression: digits, then letters
/// `d`, then digits, each run possibly empty.
pub open spec fn grammar() -> Seq<char> {
    "^\\d*d*\\d*$"@
}

/// What the regular expression `pattern` says of `text`: `None` where the
/// pattern cannot be compiled, else whether it matches somewhere in `text`.
pub uninterp spec fn pattern_verdict(pattern: Seq<char>, text: Seq<char>) -> Option<bool>;

/// What the text `input` means as a notation, white space around it aside.
pub open spec fn notation_result(input: Seq<char>) -> Result<DiceRoll, ParseError> {
    parse_result(trimmed(input), pattern_verdict(grammar(), trimmed(input)))
}

/// Compiles `pattern` with `regex::Regex::new` and asks `regex::Regex::is_match`
/// whether it matches somewhere in `text`.
///
/// Believed, not proved: the answer depends on the two texts alone. It is
/// `None` where the pattern was refused, and otherwise holds what `is_match`
/// returned.
#[verifier::external_body]
fn match_pattern(pattern: &str, text: &str) -> (verdict: Option<bool>)
    ensures
        verdict == pattern_verdict(pattern@, text@),
{
    match regex::Regex::new(pattern) {
        Ok(re) => Some(re.is_match(text)),
        Err(_) => None,
    }
}

/// Reads the characters of `text` from `from` up to `to` as a number
/// between 1 and `max`.
fn read_number(text: &Vec<char>, from: usize, to: usize, max: u32) -> (r: Option<u32>)
    requires
        from <= to <= text@.len(),
        max <= MAX_TIMES,
    ensures
        match r {
            Some(v) => number(text@.subrange(from as int, to as int), max as nat) == Some(
                v as nat,
            ),
            None => number(text@.subrange(from as int, to as int), max as nat) is None,
        },
{
    let ghost whole = text@.subrange(from as int, to as int);
    let mut value: u32 = 0;
    let mut over: bool = false;
    let mut i: usize = from;
    while i < to
        invariant
            from <= i <= to <= text@.len(),
            max <= MAX_TIMES,
            whole == text@.subrange(from as int, to as int),
            all_digits(text@.subrange(from as int, i as int)),
            !over ==> value == decimal(text@.subrange(from as int, i as int)) && value <= max,
            over ==> decimal(text@.subrange(from as int, i as int)) > max,
        decreases to - i,
    {
        let c = text[i];
        let n: u32 = c as u32;
        if n < 48 || n > 57 {
            proof {
                assert(whole[i - from] == c);
                assert(!is_digit(whole[i - from]));
            }
            return None;
        }
        let ghost before = text@.subrange(from as int, i as int);
        let ghost after = text@.subrange(from as int, i as int + 1);
        proof {
            assert(after.drop_last() =~= before);
            assert(after.last() == c);
            assert(decimal(after) == decimal(before) * 10 + digit_value(c));
            assert forall|k: int| 0 <= k < after.len() implies is_digit(#[trigger] after[k]) by {
                if k < before.len() {
                    assert(after[k] == before[k]);
                }
            }
        }
        if !over {
            let next: u32 = value * 10 + (n - 48);
            if next > max {
                over = true;
            } else {
                value = next;
            }
        }
        i = i + 1;
    }
    if from == to || over || value == 0 {
        None
    } else {
        Some(value)
    }
}

/// Finds the pieces of `text`: for each piece, where it begins and where it
/// ends.
fn split_segments(text: &Vec<char>) -> (parts: Vec<(usize, usize)>)
    ensures
        parts@.len() == segments(text@).len(),
        forall|k: int|
            0 <= k < parts@.len() ==> (#[trigger] parts@[k]).0 <= parts@[k].1 <= text@.len()
                && text@.subrange(parts@[k].0 as int, parts@[k].1 as int) == segments(text@)[k],
{
    let n: usize = text.len();
    let mut parts: Vec<(usize, usize)> = Vec::new();
    let mut in_run: bool = false;
    let mut i: usize = 0;
    while i < n
        invariant
            n == text@.len(),
            i <= n,
            parts@.len() == segments(text@.take(i as int)).len(),
            forall|k: int|
                0 <= k < parts@.len() ==> (#[trigger] parts@[k]).0 <= parts@[k].1 <= i
                    && text@.subrange(parts@[k].0 as int, parts@[k].1 as int) == segments(
                    text@.take(i as int),
                )[k],
            in_run == (i > 0 && text@[i - 1] != 'd'),
            in_run ==> parts@.len() > 0 && parts@.last().1 == i,
        decreases n - i,
    {
        let c = text[i];
        let ghost before = text@.take(i as int);
        let ghost after = text@.take(i as int + 1);
        proof {
            assert(after.drop_last() =~= before);
            assert(after.last() == c);
            if i > 0 {
                assert(after[after.len() - 2] == text@[i - 1]);
            }
        }
        if c == 'd' {
            in_run = false;
        } else if in_run {
            let ghost old_parts = parts@;
            let last = parts.pop().unwrap();
            parts.push((last.0, i + 1));
            proof {
                assert(text@.subrange(last.0 as int, i as int + 1) =~= text@.subrange(
                    last.0 as int,
                    i as int,
                ).push(c));
                assert(segments(after) == segments(before).drop_last().push(
                    segments(before).last().push(c),
                ));
                assert forall|k: int| 0 <= k < parts@.len() implies (#[trigger] parts@[k]).0
                    <= parts@[k].1 <= i + 1 && text@.subrange(
                    parts@[k].0 as int,
                    parts@[k].1 as int,
                ) == segments(after)[k] by {
                    if k < parts@.len() - 1 {
                        assert(parts@[k] == old_parts[k]);
                    }
                }
            }
        } else {
            let ghost old_parts = parts@;
            parts.push((i, i + 1));
            proof {
                assert(text@.subrange(i as int, i as int + 1) =~= seq![c]);
                assert(segments(after) == segments(before).push(seq![c]));
                assert forall|k: int| 0 <= k < parts@.len() implies (#[trigger] parts@[k]).0
                    <= parts@[k].1 <= i + 1 && text@.subrange(
                    parts@[k].0 as int,
                    parts@[k].1 as int,
                ) == segments(after)[k] by {
                    if k < parts@.len() - 1 {
                        assert(parts@[k] == old_parts[k]);
                    }
                }
            }
            in_run = true;
        }
        i = i + 1;
    }
    proof {
        assert(text@.take(n as int) =~= text@);
    }
    parts
}

/// Reads a trimmed text as a notation, given the grammar's verdict on it.
pub fn interpret(text: &str, verdict: Option<bool>) -> (r: Result<DiceRoll, ParseError>)
    ensures
        r == parse_result(text@, verdict),
{
    match verdict {
        Some(true) => {},
        _ => {
            return Err(ParseError::InvalidFormat);
        },
    }
    let chars = chars_of(text);
    let parts = split_segments(&chars);
    if parts.len() == 1 {
        let (from, to) = parts[0];
        match read_number(&chars, from, to, MAX_SIDES) {
            Some(s) => Ok(DiceRoll { n_times: 1, sides: s as u8 }),
            None => Err(ParseError::InvalidNumber),
        }
    } else if parts.len() == 2 {
        let (from, to) = parts[0];
        let times = read_number(&chars, from, to, MAX_TIMES);
        let (from, to) = parts[1];
        let sides = read_number(&chars, from, to, MAX_SIDES);
        match (times, sides) {
            (Some(n), Some(s)) => Ok(DiceRoll { n_times: n as u16, sides: s as u8 }),
            _ => Err(ParseError::InvalidNumber),
        }
    } else {
        Err(ParseError::InvalidFormat)
    }
}

impl DiceRoll {
    /// Whether this is a roll of one die or more, of one side or more.
    pub open spec fn is_valid(&self) -> bool {
        self.n_times >= 1 && self.sides >= 1
    }

    /// Reads the notation `value`, white space around it aside.
    pub fn from(value: &str) -> (r: Result<DiceRoll, ParseError>)
        ensures
            r == notation_result(value@),
            r matches Ok(roll) ==> roll.is_valid(),
    {
        let text = trim(value);
        let verdict = match_pattern("^\\d*d*\\d*$", text);
        interpret(text, verdict)
    }
}

/// Whether `s` is the digits of a number between 1 and `max`.
pub open spec fn spells_number(s: Seq<char>, max: nat) -> bool {
    s.len() > 0 && all_digits(s) && 1 <= decimal(s) <= max
}

/// A run of characters other than `d`, put behind a text that is empty or
/// ends in `d`, is one more piece.
pub proof fn lemma_segments_run(front: Seq<char>, run: Seq<char>)
    requires
        front.len() == 0 || front.last() == 'd',
        run.len() > 0,
        forall|i: int| 0 <= i < run.len() ==> run[i] != 'd',
    ensures
        segments(front + run) == segments(front).push(run),
    decreases run.len(),
{
    let whole = front + run;
    assert(whole.last() == run.last());
    if run.len() == 1 {
        assert(whole.drop_last() =~= front);
        assert(seq![run.last()] =~= run);
        if front.len() > 0 {
            assert(whole[whole.len() - 2] == front.last());
        }
    } else {
        let shorter = run.drop_last();
        assert(whole.drop_last() =~= front + shorter);
        lemma_segments_run(front, shorter);
        assert(whole[whole.len() - 2] == shorter.last());
        assert(segments(front).push(shorter).drop_last() =~= segments(front));
        assert(shorter.push(run.last()) =~= run);
    }
}

/// The notation `NdS`: the digits of a number of dice, the letter `d` and
/// the digits of a number of sides, both numbers positive and within their
/// limits, need no trimming; and where the grammar accepts the text, it
/// reads as that many dice of that many sides.
pub proof fn lemma_times_d_sides(times: Seq<char>, sides: Seq<char>)
    requires
        spells_number(times, MAX_TIMES as nat),
        spells_number(sides, MAX_SIDES as nat),
    ensures
        trimmed(times + seq!['d'] + sides) == times + seq!['d'] + sides,
        parse_result(times + seq!['d'] + sides, Some(true)) == Ok::<DiceRoll, ParseError>(
            DiceRoll { n_times: decimal(times) as u16, sides: decimal(sides) as u8 },
        ),
        pattern_verdict(grammar(), times + seq!['d'] + sides) == Some(true) ==> notation_result(
            times + seq!['d'] + sides,
        ) == Ok::<DiceRoll, ParseError>(
            DiceRoll { n_times: decimal(times) as u16, sides: decimal(sides) as u8 },
        ),
{
    let front = times + seq!['d'];
    let text = front + sides;
    assert(is_digit(times[0]) && is_digit(sides.last()));
    assert(text[0] == times[0] && text.last() == sides.last());
    lemma_trimmed_is_identity(text);
    assert forall|i: int| 0 <= i < times.len() implies times[i] != 'd' by {
        assert(is_digit(times[i]));
    }
    assert forall|i: int| 0 <= i < sides.len() implies sides[i] != 'd' by {
        assert(is_digit(sides[i]));
    }
    lemma_segments_run(Seq::empty(), times);
    assert(Seq::<char>::empty() + times =~= times);
    assert(front.drop_last() =~= times);
    assert(segments(front) == segments(times));
    lemma_segments_run(front, sides);
    assert(segments(Seq::<char>::empty()) =~= Seq::<Seq<char>>::empty());
    assert(segments(text) =~= seq![times, sides]);
}

/// The notations `dS` and `S`: the digits of a number of sides, positive
/// and within its limit, alone or behind the letter `d`, need no trimming;
/// and where the grammar accepts the text, it reads as one die of that many
/// sides.
pub proof fn lemma_sides_alone(sides: Seq<char>, with_d: bool)
    requires
        spells_number(sides, MAX_SIDES as nat),
    ensures
        ({
            let text = if with_d {
                seq!['d'] + sides
            } else {
                sides
            };
            let one_die = Ok::<DiceRoll, ParseError>(
                DiceRoll { n_times: 1, sides: decimal(sides) as u8 },
            );
            &&& trimmed(text) == text
            &&& parse_result(text, Some(true)) == one_die
            &&& pattern_verdict(grammar(), text) == Some(true) ==> notation_result(text) == one_die
        }),
{
    let front: Seq<char> = if with_d {
        seq!['d']
    } else {
        Seq::empty()
    };
    let text = front + sides;
    assert(text =~= if with_d {
        seq!['d'] + sides
    } else {
        sides
    });
    assert(is_digit(sides[0]) && is_digit(sides.last()));
    assert(text.last() == sides.last());
    assert(!is_space(text[0]));
    lemma_trimmed_is_identity(text);
    assert forall|i: int| 0 <= i < sides.len() implies sides[i] != 'd' by {
        assert(is_digit(sides[i]));
    }
    lemma_segments_run(front, sides);
    assert(segments(Seq::<char>::empty()) =~= Seq::<Seq<char>>::empty());
    if with_d {
        assert(front.drop_last() =~= Seq::<char>::empty());
    }
    assert(segments(front) =~= Seq::<Seq<char>>::empty());
    assert(segments(text) =~= seq![sides]);
}

/// Reading is a function of the text: two readings of one text agree.
pub proof fn lemma_reading_twice(
    text: Seq<char>,
    first: Result<DiceRoll, ParseError>,
    second: Result<DiceRoll, ParseError>,
)
    requires
        first == notation_result(text),
        second == notation_result(text),
    ensures
        first == second,
{
}

/// Whatever is read is a roll of one die or more, of one side or more.
pub proof fn lemma_read_is_valid(text: Seq<char>, verdict: Option<bool>)
    ensures
        parse_result(text, verdict) matches Ok(roll) ==> roll.is_valid(),
{
}

} // verus!
