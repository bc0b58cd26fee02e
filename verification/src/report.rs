//! The text in which a roll and the statistics are shown.

use crate::notation::{
    all_digits, decimal, digit_value, is_digit, lemma_times_d_sides, parse_result, DiceRoll,
    ParseError,
};
use crate::roller::{sum_to_show, total};
use vstd::prelude::*;

verus! {

/// The character for the digit `d`.
pub open spec fn digit_char(d: nat) -> char {
    if d == 0 {
        '0'
    } else if d == 1 {
        '1'
    } else if d == 2 {
        '2'
    } else if d == 3 {
        '3'
    } else if d == 4 {
        '4'
    } else if d == 5 {
        '5'
    } else if d == 6 {
        '6'
    } else if d == 7 {
        '7'
    } else if d == 8 {
        '8'
    } else {
        '9'
    }
}

/// The number `n` in base ten, without leading zeros.
pub open spec fn digits_of(n: nat) -> Seq<char>
    decreases n,
{
    if n < 10 {
        seq![digit_char(n)]
    } else {
        digits_of(n / 10).push(digit_char(n % 10))
    }
}

/// The line above the values of a roll.
pub open spec fn header_line(dice_roll: DiceRoll) -> Seq<char> {
    "Rolled "@ + digits_of(dice_roll.n_times as nat) + "d"@ + digits_of(dice_roll.sides as nat)
        + ":"@
}

/// The line of the value at `index`, counted from 0 and shown from 1.
pub open spec fn value_line(index: nat, value: u8) -> Seq<char> {
    "("@ + digits_of(index + 1) + ")\t"@ + digits_of(value as nat)
}

/// The line between the values and their sum.
pub open spec fn rule_line() -> Seq<char> {
    "--------------"@
}

/// The line of the sum.
pub open spec fn sum_line(sum: nat) -> Seq<char> {
    "Sum:\t"@ + digits_of(sum)
}

/// The lines that show a roll: the header, one line for each value, and the
/// sum under a rule where there is more than one value.
pub open spec fn report_lines(dice_roll: DiceRoll, values: Seq<u8>) -> Seq<Seq<char>> {
    let lines = seq![header_line(dice_roll)] + Seq::new(
        values.len(),
        |k: int| value_line(k as nat, values[k]),
    );
    if values.len() > 1 {
        lines.push(rule_line()).push(sum_line(total(values)))
    } else {
        lines
    }
}

/// The `values`, each in base ten, with a comma and a blank between two.
pub open spec fn joined(values: Seq<u8>) -> Seq<char>
    decreases values.len(),
{
    if values.len() == 0 {
        Seq::empty()
    } else if values.len() == 1 {
        digits_of(values[0] as nat)
    } else {
        joined(values.drop_last()) + ", "@ + digits_of(values.last() as nat)
    }
}

/// The line of the statistics for dice of `sides` sides: the die, how many
/// values there are, and the values.
pub open spec fn stats_line(sides: u8, values: Seq<u8>) -> Seq<char> {
    "d"@ + digits_of(sides as nat) + " ("@ + digits_of(values.len()) + "x): ["@ + joined(values)
        + "]"@
}

/// What each of `lines` holds.
pub open spec fn texts_of(lines: Seq<String>) -> Seq<Seq<char>> {
    Seq::new(lines.len(), |k: int| lines[k]@)
}

/// The text of the digit `d`.
fn digit_text(d: u8) -> (s: &'static str)
    requires
        d < 10,
    ensures
        s@ == seq![digit_char(d as nat)],
{
    if d == 0 {
        proof {
            reveal_strlit("0");
            assert("0"@ =~= seq!['0']);
        }
        "0"
    } else if d == 1 {
        proof {
            reveal_strlit("1");
            assert("1"@ =~= seq!['1']);
        }
        "1"
    } else if d == 2 {
        proof {
            reveal_strlit("2");
            assert("2"@ =~= seq!['2']);
        }
        "2"
    } else if d == 3 {
        proof {
            reveal_strlit("3");
            assert("3"@ =~= seq!['3']);
        }
        "3"
    } else if d == 4 {
        proof {
            reveal_strlit("4");
            assert("4"@ =~= seq!['4']);
        }
        "4"
    } else if d == 5 {
        proof {
            reveal_strlit("5");
            assert("5"@ =~= seq!['5']);
        }
        "5"
    } else if d == 6 {
        proof {
            reveal_strlit("6");
            assert("6"@ =~= seq!['6']);
        }
        "6"
    } else if d == 7 {
        proof {
            reveal_strlit("7");
            assert("7"@ =~= seq!['7']);
        }
        "7"
    } else if d == 8 {
        proof {
            reveal_strlit("8");
            assert("8"@ =~= seq!['8']);
        }
        "8"
    } else {
        proof {
            reveal_strlit("9");
            assert("9"@ =~= seq!['9']);
        }
        "9"
    }
}

/// Writes `n` in base ten.
pub fn number_text(n: u128) -> (s: String)
    ensures
        s@ == digits_of(n as nat),
    decreases n,
{
    if n < 10 {
        digit_text(n as u8).to_owned()
    } else {
        let mut s = number_text(n / 10);
        let ghost front = s@;
        s.append(digit_text((n % 10) as u8));
        proof {
            assert(front + seq![digit_char((n % 10) as nat)] =~= front.push(
                digit_char((n % 10) as nat),
            ));
        }
        s
    }
}

/// Writes the lines that show the roll `dice_roll` with the `values` it
/// gave.
pub fn roll_report(dice_roll: &DiceRoll, values: &Vec<u8>) -> (lines: Vec<String>)
    ensures
        texts_of(lines@) == report_lines(*dice_roll, values@),
{
    let mut header: String = "Rolled ".to_owned();
    header.append(number_text(dice_roll.n_times as u128).as_str());
    header.append("d");
    header.append(number_text(dice_roll.sides as u128).as_str());
    header.append(":");
    let mut lines: Vec<String> = Vec::new();
    lines.push(header);
    let ghost head = seq![header_line(*dice_roll)];
    assert(texts_of(lines@) =~= head);
    let mut i: usize = 0;
    while i < values.len()
        invariant
            i <= values@.len(),
            head == seq![header_line(*dice_roll)],
            texts_of(lines@) == head + Seq::new(
                i as nat,
                |k: int| value_line(k as nat, values@[k]),
            ),
        decreases values@.len() - i,
    {
        let mut line: String = "(".to_owned();
        line.append(number_text((i + 1) as u128).as_str());
        line.append(")\t");
        line.append(number_text(values[i] as u128).as_str());
        let ghost shown = texts_of(lines@);
        lines.push(line);
        proof {
            assert(texts_of(lines@) =~= shown.push(value_line(i as nat, values@[i as int])));
            assert(shown.push(value_line(i as nat, values@[i as int])) =~= head + Seq::new(
                (i + 1) as nat,
                |k: int| value_line(k as nat, values@[k]),
            ));
        }
        i = i + 1;
    }
    match sum_to_show(values) {
        Some(sum) => {
            let ghost shown = texts_of(lines@);
            lines.push("--------------".to_owned());
            let mut line: String = "Sum:\t".to_owned();
            line.append(number_text(sum).as_str());
            lines.push(line);
            proof {
                assert(texts_of(lines@) =~= shown.push(rule_line()).push(sum_line(sum as nat)));
            }
        },
        None => {},
    }
    lines
}

/// Writes the line of the statistics for dice of `sides` sides.
pub fn stats_text(sides: u8, values: &Vec<u8>) -> (line: String)
    ensures
        line@ == stats_line(sides, values@),
{
    let mut list: String = String::new();
    let mut i: usize = 0;
    while i < values.len()
        invariant
            i <= values@.len(),
            list@ == joined(values@.take(i as int)),
        decreases values@.len() - i,
    {
        proof {
            assert(values@.take(i as int + 1).drop_last() =~= values@.take(i as int));
        }
        if i > 0 {
            list.append(", ");
        }
        let ghost front = list@;
        list.append(number_text(values[i] as u128).as_str());
        proof {
            assert(Seq::<char>::empty() + digits_of(values@[i as int] as nat) =~= digits_of(
                values@[i as int] as nat,
            ));
        }
        i = i + 1;
    }
    proof {
        assert(values@.take(i as int) =~= values@);
    }
    let mut line: String = "d".to_owned();
    line.append(number_text(sides as u128).as_str());
    line.append(" (");
    line.append(number_text(values.len() as u128).as_str());
    line.append("x): [");
    line.append(list.as_str());
    line.append("]");
    line
}

/// A number in base ten is digits only, at least one, and they spell the
/// number.
pub proof fn lemma_digits_spell(n: nat)
    ensures
        digits_of(n).len() > 0,
        all_digits(digits_of(n)),
        decimal(digits_of(n)) == n,
    decreases n,
{
    let text = digits_of(n);
    if n < 10 {
        assert(text.drop_last().len() == 0);
        assert(decimal(text.drop_last()) == 0);
        assert(is_digit(digit_char(n)) && digit_value(digit_char(n)) == n);
    } else {
        lemma_digits_spell(n / 10);
        let front = digits_of(n / 10);
        assert(text.drop_last() =~= front);
        assert(is_digit(digit_char(n % 10)) && digit_value(digit_char(n % 10)) == n % 10);
        assert forall|i: int| 0 <= i < text.len() implies is_digit(#[trigger] text[i]) by {
            if i < front.len() {
                assert(text[i] == front[i]);
            }
        }
    }
}

/// The notation of a roll: its number of dice, the letter `d` and its number
/// of sides.
pub open spec fn notation_text(dice_roll: DiceRoll) -> Seq<char> {
    digits_of(dice_roll.n_times as nat) + seq!['d'] + digits_of(dice_roll.sides as nat)
}

/// The notation of a roll of one die or more, of one side or more, reads
/// back as that roll wherever the grammar accepts it.
pub proof fn lemma_notation_reads_back(dice_roll: DiceRoll)
    requires
        dice_roll.is_valid(),
    ensures
        parse_result(notation_text(dice_roll), Some(true)) == Ok::<DiceRoll, ParseError>(dice_roll),
{
    lemma_digits_spell(dice_roll.n_times as nat);
    lemma_digits_spell(dice_roll.sides as nat);
    lemma_times_d_sides(digits_of(dice_roll.n_times as nat), digits_of(dice_roll.sides as nat));
}

} // verus!
