use dice_roll::notation::{interpret, MAX_SIDES, MAX_TIMES};
use dice_roll::text::{chars_of, is_space_char, trim};
use dice_roll::{DiceRoll, ParseError};

#[test]
fn test_dice_roll_from() {
    let dr1 = DiceRoll::from("d1").unwrap();
    assert_eq!(dr1.n_times, 1);
    assert_eq!(dr1.sides, 1);
    let dr2 = DiceRoll::from("2d6").unwrap();
    assert_eq!(dr2.n_times, 2);
    assert_eq!(dr2.sides, 6);
    let dr3 = DiceRoll::from("10").unwrap();
    assert_eq!(dr3.n_times, 1);
    assert_eq!(dr3.sides, 10);
}

#[test]
fn times_and_sides_are_read_in_order() {
    assert_eq!(DiceRoll::from("1d20"), Ok(DiceRoll { n_times: 1, sides: 20 }));
    assert_eq!(DiceRoll::from("4d6"), Ok(DiceRoll { n_times: 4, sides: 6 }));
    assert_eq!(DiceRoll::from("12d100"), Ok(DiceRoll { n_times: 12, sides: 100 }));
    assert_eq!(DiceRoll::from("65535d255"), Ok(DiceRoll { n_times: 65535, sides: 255 }));
}

#[test]
fn one_number_is_the_sides_of_one_die() {
    assert_eq!(DiceRoll::from("d6"), Ok(DiceRoll { n_times: 1, sides: 6 }));
    assert_eq!(DiceRoll::from("8"), Ok(DiceRoll { n_times: 1, sides: 8 }));
    assert_eq!(DiceRoll::from("255"), Ok(DiceRoll { n_times: 1, sides: 255 }));
    assert_eq!(DiceRoll::from("6d"), Ok(DiceRoll { n_times: 1, sides: 6 }));
}

#[test]
fn white_space_around_a_notation_is_dropped() {
    assert_eq!(DiceRoll::from("  2d6\n"), Ok(DiceRoll { n_times: 2, sides: 6 }));
    assert_eq!(DiceRoll::from("\t d8 \r\n"), Ok(DiceRoll { n_times: 1, sides: 8 }));
    assert_eq!(DiceRoll::from("\u{3000}3d4\u{a0}"), Ok(DiceRoll { n_times: 3, sides: 4 }));
    assert_eq!(DiceRoll::from("2 d6"), Err(ParseError::InvalidFormat));
}

#[test]
fn repeated_letters_leave_no_empty_piece() {
    assert_eq!(DiceRoll::from("dd6"), Ok(DiceRoll { n_times: 1, sides: 6 }));
    assert_eq!(DiceRoll::from("2dd6"), Ok(DiceRoll { n_times: 2, sides: 6 }));
    assert_eq!(DiceRoll::from("2ddd"), Ok(DiceRoll { n_times: 1, sides: 2 }));
}

#[test]
fn leading_zeros_do_not_count() {
    assert_eq!(DiceRoll::from("007"), Ok(DiceRoll { n_times: 1, sides: 7 }));
    assert_eq!(DiceRoll::from("0003d0012"), Ok(DiceRoll { n_times: 3, sides: 12 }));
}

#[test]
fn text_outside_the_grammar_has_no_format() {
    assert_eq!(DiceRoll::from("abc"), Err(ParseError::InvalidFormat));
    assert_eq!(DiceRoll::from("x6"), Err(ParseError::InvalidFormat));
    assert_eq!(DiceRoll::from("2d6x"), Err(ParseError::InvalidFormat));
    assert_eq!(DiceRoll::from("1d2d3"), Err(ParseError::InvalidFormat));
    assert_eq!(DiceRoll::from("2D6"), Err(ParseError::InvalidFormat));
    assert_eq!(DiceRoll::from("-2d6"), Err(ParseError::InvalidFormat));
    assert_eq!(DiceRoll::from("+2"), Err(ParseError::InvalidFormat));
    assert_eq!(DiceRoll::from("stats"), Err(ParseError::InvalidFormat));
}

#[test]
fn text_without_a_number_has_no_format() {
    assert_eq!(DiceRoll::from(""), Err(ParseError::InvalidFormat));
    assert_eq!(DiceRoll::from("   "), Err(ParseError::InvalidFormat));
    assert_eq!(DiceRoll::from("d"), Err(ParseError::InvalidFormat));
    assert_eq!(DiceRoll::from("ddd"), Err(ParseError::InvalidFormat));
}

#[test]
fn numbers_out_of_range_are_refused() {
    assert_eq!(DiceRoll::from("256"), Err(ParseError::InvalidNumber));
    assert_eq!(DiceRoll::from("d256"), Err(ParseError::InvalidNumber));
    assert_eq!(DiceRoll::from("65536d6"), Err(ParseError::InvalidNumber));
    assert_eq!(DiceRoll::from("2d300"), Err(ParseError::InvalidNumber));
    assert_eq!(DiceRoll::from("99999999999999999999999999d6"), Err(ParseError::InvalidNumber));
    assert_eq!(DiceRoll::from("4294967297"), Err(ParseError::InvalidNumber));
}

#[test]
fn zero_is_no_number_of_dice_or_sides() {
    assert_eq!(DiceRoll::from("0"), Err(ParseError::InvalidNumber));
    assert_eq!(DiceRoll::from("d0"), Err(ParseError::InvalidNumber));
    assert_eq!(DiceRoll::from("0d6"), Err(ParseError::InvalidNumber));
    assert_eq!(DiceRoll::from("2d0"), Err(ParseError::InvalidNumber));
    assert_eq!(DiceRoll::from("000"), Err(ParseError::InvalidNumber));
}

#[test]
fn digits_of_other_scripts_are_no_number() {
    // The grammar takes any decimal digit; a number is spelled with 0 to 9.
    assert_eq!(DiceRoll::from("\u{0663}"), Err(ParseError::InvalidNumber));
    assert_eq!(DiceRoll::from("2d\u{0666}"), Err(ParseError::InvalidNumber));
}

#[test]
fn reading_twice_gives_the_same_roll() {
    for text in ["2d6", "d20", " 10 ", "x", "", "0d0", "300"] {
        assert_eq!(DiceRoll::from(text), DiceRoll::from(text));
    }
}

#[test]
fn what_is_read_is_positive() {
    for text in ["2d6", "d20", "10", "1d1", "65535d255"] {
        let dr = DiceRoll::from(text).unwrap();
        assert!(dr.n_times >= 1 && dr.sides >= 1);
    }
}

#[test]
fn interpret_goes_by_the_verdict() {
    assert_eq!(interpret("2d6", Some(true)), Ok(DiceRoll { n_times: 2, sides: 6 }));
    assert_eq!(interpret("2d6", Some(false)), Err(ParseError::InvalidFormat));
    assert_eq!(interpret("2d6", None), Err(ParseError::InvalidFormat));
}

#[test]
fn interpret_counts_the_pieces() {
    assert_eq!(interpret("", Some(true)), Err(ParseError::InvalidFormat));
    assert_eq!(interpret("d", Some(true)), Err(ParseError::InvalidFormat));
    assert_eq!(interpret("1d2d3", Some(true)), Err(ParseError::InvalidFormat));
    assert_eq!(interpret("d7d", Some(true)), Ok(DiceRoll { n_times: 1, sides: 7 }));
}

#[test]
fn interpret_wants_plain_digits() {
    assert_eq!(interpret("+5", Some(true)), Err(ParseError::InvalidNumber));
    assert_eq!(interpret("2d 6", Some(true)), Err(ParseError::InvalidNumber));
    assert_eq!(interpret("2dx", Some(true)), Err(ParseError::InvalidNumber));
    assert_eq!(interpret("xd6", Some(true)), Err(ParseError::InvalidNumber));
}

#[test]
fn limits_are_those_of_the_fields() {
    assert_eq!(MAX_TIMES, u16::MAX as u32);
    assert_eq!(MAX_SIDES, u8::MAX as u32);
}

#[test]
fn trim_drops_white_space_at_both_ends_only() {
    assert_eq!(trim("  a b  "), "a b");
    assert_eq!(trim("\n\t4d6\r\n"), "4d6");
    assert_eq!(trim(""), "");
    assert_eq!(trim(" \u{2003} "), "");
    assert_eq!(trim("x"), "x");
    assert_eq!(trim("\u{feff}x"), "\u{feff}x");
}

#[test]
fn white_space_is_what_std_calls_so() {
    let mut n: u32 = 0;
    while n <= 0x11_0000 {
        if let Some(c) = char::from_u32(n) {
            assert_eq!(is_space_char(c), c.is_whitespace());
        }
        n += 1;
    }
}

#[test]
fn chars_of_gives_every_character_in_order() {
    assert_eq!(chars_of(""), Vec::<char>::new());
    assert_eq!(chars_of("2d6"), vec!['2', 'd', '6']);
    assert_eq!(chars_of("a\u{e9}\u{4e2d}\u{1f3b2}"), vec!['a', '\u{e9}', '\u{4e2d}', '\u{1f3b2}']);
}

#[test]
fn a_long_line_is_read_as_a_short_one() {
    let padded = format!("{}12d20{}", " ".repeat(200_000), "\t".repeat(200_000));
    assert_eq!(DiceRoll::from(&padded), Ok(DiceRoll { n_times: 12, sides: 20 }));
    let zeros = format!("{}3d{}4", "0".repeat(100_000), "0".repeat(100_000));
    assert_eq!(DiceRoll::from(&zeros), Ok(DiceRoll { n_times: 3, sides: 4 }));
    let letters = "d".repeat(300_000);
    assert_eq!(DiceRoll::from(&letters), Err(ParseError::InvalidFormat));
}
