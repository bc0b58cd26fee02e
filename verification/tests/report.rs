use dice_roll::{number_text, roll, roll_report, stats_text, DiceRoll, Session};

#[test]
fn numbers_are_written_in_base_ten() {
    assert_eq!(number_text(0), "0");
    assert_eq!(number_text(7), "7");
    assert_eq!(number_text(10), "10");
    assert_eq!(number_text(255), "255");
    assert_eq!(number_text(65535), "65535");
    assert_eq!(number_text(1234567890), "1234567890");
    assert_eq!(number_text(u128::MAX), format!("{}", u128::MAX));
}

#[test]
fn a_single_die_is_shown_without_a_sum() {
    let lines = roll_report(&DiceRoll { n_times: 1, sides: 20 }, &vec![17]);
    assert_eq!(lines, vec!["Rolled 1d20:".to_string(), "(1)\t17".to_string()]);
}

#[test]
fn several_dice_are_shown_with_their_sum() {
    let lines = roll_report(&DiceRoll { n_times: 3, sides: 6 }, &vec![4, 6, 1]);
    assert_eq!(
        lines,
        vec![
            "Rolled 3d6:".to_string(),
            "(1)\t4".to_string(),
            "(2)\t6".to_string(),
            "(3)\t1".to_string(),
            "--------------".to_string(),
            "Sum:\t11".to_string(),
        ]
    );
}

#[test]
fn the_sum_shown_does_not_wrap() {
    let values = vec![255u8; 300];
    let lines = roll_report(&DiceRoll { n_times: 300, sides: 255 }, &values);
    assert_eq!(lines.len(), 303);
    assert_eq!(lines[0], "Rolled 300d255:");
    assert_eq!(lines[300], "(300)\t255");
    assert_eq!(lines[301], "--------------");
    assert_eq!(lines[302], "Sum:\t76500");
}

#[test]
fn the_sum_shown_is_that_of_the_roll() {
    let dice_roll = DiceRoll::from("12d10").unwrap();
    let values = roll(&dice_roll);
    let lines = roll_report(&dice_roll, &values);
    let sum: u32 = values.iter().map(|v| *v as u32).sum();
    assert_eq!(lines.len(), 15);
    assert_eq!(lines[14], format!("Sum:\t{}", sum));
    for (idx, value) in values.iter().enumerate() {
        assert_eq!(lines[idx + 1], format!("({})\t{}", idx + 1, value));
    }
}

#[test]
fn a_roll_without_values_has_a_header_only() {
    let lines = roll_report(&DiceRoll { n_times: 0, sides: 6 }, &vec![]);
    assert_eq!(lines, vec!["Rolled 0d6:".to_string()]);
}

#[test]
fn a_stats_line_lists_the_values() {
    assert_eq!(stats_text(6, &vec![3, 1, 6]), "d6 (3x): [3, 1, 6]");
    assert_eq!(stats_text(20, &vec![20]), "d20 (1x): [20]");
    assert_eq!(stats_text(8, &vec![]), "d8 (0x): []");
    assert_eq!(stats_text(255, &vec![255, 100, 7, 10]), "d255 (4x): [255, 100, 7, 10]");
}

#[test]
fn a_stats_line_reads_as_the_values_print() {
    let values: Vec<u8> = vec![9, 10, 11, 99, 100, 101, 0];
    assert_eq!(stats_text(101, &values), format!("d{} ({}x): {:?}", 101, values.len(), values));
}

#[test]
fn the_stats_have_a_line_for_each_die_size() {
    let mut session = Session::new();
    assert!(session.stats_report().is_empty());
    session.record(8, &vec![5, 8]);
    session.record(6, &vec![1]);
    session.record(8, &vec![2]);
    assert_eq!(
        session.stats_report(),
        vec!["d6 (1x): [1]".to_string(), "d8 (3x): [5, 8, 2]".to_string()]
    );
}

#[test]
fn a_notation_written_out_reads_back() {
    for dice_roll in [
        DiceRoll { n_times: 1, sides: 1 },
        DiceRoll { n_times: 2, sides: 6 },
        DiceRoll { n_times: 100, sides: 10 },
        DiceRoll { n_times: 65535, sides: 255 },
    ] {
        let mut text = number_text(dice_roll.n_times as u128);
        text.push('d');
        text.push_str(&number_text(dice_roll.sides as u128));
        assert_eq!(DiceRoll::from(&text), Ok(dice_roll));
    }
}
