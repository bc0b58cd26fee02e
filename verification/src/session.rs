//! A rolling session: the notation that was read last, and every face that
//! was rolled, by die size.

use crate::notation::{notation_result, DiceRoll, ParseError};
use crate::report::{stats_line, stats_text, texts_of};
use crate::roller::{faces_within, roll};
use crate::text::{trim, trimmed};
use std::collections::HashMap;
use vstd::prelude::*;

verus! {

/// What a line of input asks for.
#[derive(Clone, Copy, Debug, PartialEq, Eq, Structural)]
pub enum Command {
    /// Show what was rolled so far.
    Stats,
    /// Roll these dice.
    Roll(DiceRoll),
}

/// What the session did with a line of input.
#[derive(Debug, PartialEq, Eq)]
pub enum Reply {
    /// The line asked for the statistics.
    Stats,
    /// The line asked for a roll, which gave these values.
    Rolled(DiceRoll, Vec<u8>),
}

/// The word that asks for the statistics.
pub open spec fn stats_word() -> Seq<char> {
    "stats"@
}

/// The notation that a session reads first when it is given none.
pub open spec fn first_notation() -> Seq<char> {
    "1d20"@
}

/// The notation that `line` stands for: its trimmed text, or `last` where
/// that is empty.
pub open spec fn notation_of(last: Seq<char>, line: Seq<char>) -> Seq<char> {
    if trimmed(line).len() == 0 {
        last
    } else {
        trimmed(line)
    }
}

/// What `line` asks for in a session whose last notation is `last`.
pub open spec fn command_of(last: Seq<char>, line: Seq<char>) -> Result<Command, ParseError> {
    if trimmed(line) == stats_word() {
        Ok(Command::Stats)
    } else {
        match notation_result(notation_of(last, line)) {
            Ok(dice_roll) => Ok(Command::Roll(dice_roll)),
            Err(e) => Err(e),
        }
    }
}

/// The last notation after `line` was read: the trimmed line where it is a
/// notation that was accepted, else `last` as before.
pub open spec fn last_after(last: Seq<char>, line: Seq<char>) -> Seq<char> {
    if trimmed(line) != stats_word() && notation_result(notation_of(last, line)) is Ok {
        notation_of(last, line)
    } else {
        last
    }
}

/// The values that a run of rolls gave for dice of `sides` sides, in the
/// order in which they were rolled. An entry of `log` is one roll: the sides
/// of its dice and its values.
pub open spec fn logged(log: Seq<(u8, Seq<u8>)>, sides: u8) -> Seq<u8>
    decreases log.len(),
{
    if log.len() == 0 {
        Seq::empty()
    } else if log.last().0 == sides {
        logged(log.drop_last(), sides) + log.last().1
    } else {
        logged(log.drop_last(), sides)
    }
}

/// How many dice of `sides` sides a run of rolls threw.
pub open spec fn dice_thrown(log: Seq<(u8, Seq<u8>)>, sides: u8) -> nat
    decreases log.len(),
{
    if log.len() == 0 {
        0
    } else if log.last().0 == sides {
        dice_thrown(log.drop_last(), sides) + log.last().1.len()
    } else {
        dice_thrown(log.drop_last(), sides)
    }
}

/// The state of an interactive session.
pub struct Session {
    stats: HashMap<u8, Vec<u8>>,
    last: String,
}

impl Session {
    /// Whether dice of `sides` sides were rolled in this session.
    pub closed spec fn has_rolled(&self, sides: u8) -> bool {
        self.stats@.contains_key(sides)
    }

    /// Every value rolled with dice of `sides` sides, oldest first.
    pub closed spec fn history(&self, sides: u8) -> Seq<u8> {
        if self.stats@.contains_key(sides) {
            self.stats@[sides]@
        } else {
            Seq::empty()
        }
    }

    /// The notation that an empty line stands for.
    pub closed spec fn last_notation(&self) -> Seq<char> {
        self.last@
    }

    /// The die sizes under `bound` that were rolled in this session, smallest
    /// first.
    pub open spec fn sizes_below(&self, bound: nat) -> Seq<u8>
        decreases bound,
    {
        if bound == 0 {
            Seq::empty()
        } else if self.has_rolled((bound - 1) as u8) {
            self.sizes_below((bound - 1) as nat).push((bound - 1) as u8)
        } else {
            self.sizes_below((bound - 1) as nat)
        }
    }

    /// The die sizes that were rolled in this session, smallest first.
    pub open spec fn sizes_rolled(&self) -> Seq<u8> {
        self.sizes_below(256)
    }

    /// The lines of the statistics: one for each die size that was rolled,
    /// smallest first.
    pub open spec fn stats_lines(&self) -> Seq<Seq<char>> {
        Seq::new(
            self.sizes_rolled().len(),
            |k: int| stats_line(self.sizes_rolled()[k], self.history(self.sizes_rolled()[k])),
        )
    }

    /// Whether `other` holds the same statistics as this session.
    pub open spec fn same_stats(&self, other: &Session) -> bool {
        forall|s: u8|
            self.has_rolled(s) == other.has_rolled(s) && #[trigger] self.history(s)
                == other.history(s)
    }

    /// Whether this session holds the statistics of `other` and, behind
    /// them, the `values` of one more roll of dice of `sides` sides.
    pub open spec fn holds_more(&self, other: &Session, sides: u8, values: Seq<u8>) -> bool {
        &&& self.history(sides) == other.history(sides) + values
        &&& self.has_rolled(sides)
        &&& forall|s: u8|
            s != sides ==> #[trigger] self.history(s) == other.history(s) && self.has_rolled(s)
                == other.has_rolled(s)
    }

    /// A session in which nothing was rolled yet.
    pub fn new() -> (session: Session)
        ensures
            forall|s: u8| !session.has_rolled(s) && (#[trigger] session.history(s)).len() == 0,
            session.last_notation() == first_notation(),
    {
        Session { stats: HashMap::new(), last: "1d20".to_owned() }
    }

    /// Adds the `values` of a roll of dice of `sides` sides to the
    /// statistics, behind those that are there.
    pub fn record(&mut self, sides: u8, values: &Vec<u8>)
        ensures
            final(self).holds_more(old(self), sides, values@),
            final(self).last_notation() == old(self).last_notation(),
    {
        broadcast use vstd::std_specs::hash::group_hash_axioms;

        let mut kept: Vec<u8> = match self.stats.remove(&sides) {
            Some(v) => v,
            None => Vec::new(),
        };
        let ghost before = kept@;
        assert(before == old(self).history(sides));
        let mut i: usize = 0;
        while i < values.len()
            invariant
                i <= values@.len(),
                kept@ == before + values@.take(i as int),
            decreases values@.len() - i,
        {
            proof {
                assert(values@.take(i as int + 1) =~= values@.take(i as int).push(values@[i as int]));
                assert(before + values@.take(i as int + 1) =~= (before + values@.take(i as int)).push(
                    values@[i as int],
                ));
            }
            kept.push(values[i]);
            i = i + 1;
        }
        proof {
            assert(values@.take(i as int) =~= values@);
        }
        self.stats.insert(sides, kept);
    }

    /// The notation that an empty line stands for.
    pub fn last_input(&self) -> (last: &str)
        ensures
            last@ == self.last_notation(),
    {
        self.last.as_str()
    }

    /// The values rolled with dice of `sides` sides, if any were rolled.
    pub fn outcomes(&self, sides: u8) -> (r: Option<&Vec<u8>>)
        ensures
            match r {
                Some(values) => self.has_rolled(sides) && values@ == self.history(sides),
                None => !self.has_rolled(sides),
            },
    {
        broadcast use vstd::std_specs::hash::group_hash_axioms;

        self.stats.get(&sides)
    }

    /// The die sizes that were rolled in this session, smallest first.
    pub fn die_sizes(&self) -> (sizes: Vec<u8>)
        ensures
            sizes@ == self.sizes_rolled(),
            forall|s: u8| sizes@.contains(s) <==> self.has_rolled(s),
            forall|i: int, j: int| 0 <= i < j < sizes@.len() ==> sizes@[i] < sizes@[j],
    {
        broadcast use vstd::std_specs::hash::group_hash_axioms;

        let mut sizes: Vec<u8> = Vec::new();
        let mut next: u16 = 0;
        while next < 256
            invariant
                next <= 256,
                sizes@ == self.sizes_below(next as nat),
                forall|s: u8| sizes@.contains(s) <==> s < next && self.has_rolled(s),
                forall|i: int, j: int| 0 <= i < j < sizes@.len() ==> sizes@[i] < sizes@[j],
                forall|i: int| 0 <= i < sizes@.len() ==> (#[trigger] sizes@[i]) < next,
            decreases 256 - next,
        {
            let s: u8 = next as u8;
            let ghost found = sizes@;
            if self.stats.contains_key(&s) {
                sizes.push(s);
                proof {
                    assert(sizes@.last() == s);
                    assert forall|t: u8|
                        sizes@.contains(t) <==> t < next + 1 && self.has_rolled(t) by {
                        if found.contains(t) {
                            let k = choose|k: int| 0 <= k < found.len() && found[k] == t;
                            assert(sizes@[k] == t);
                        }
                        if sizes@.contains(t) {
                            let k = choose|k: int| 0 <= k < sizes@.len() && sizes@[k] == t;
                            if k < found.len() {
                                assert(found[k] == t);
                            }
                        }
                    }
                }
            }
            next = next + 1;
        }
        sizes
    }

    /// Writes the lines of the statistics.
    pub fn stats_report(&self) -> (lines: Vec<String>)
        ensures
            texts_of(lines@) == self.stats_lines(),
    {
        let sizes = self.die_sizes();
        let mut lines: Vec<String> = Vec::new();
        let mut i: usize = 0;
        while i < sizes.len()
            invariant
                i <= sizes@.len(),
                sizes@ == self.sizes_rolled(),
                forall|s: u8| sizes@.contains(s) <==> self.has_rolled(s),
                lines@.len() == i,
                forall|k: int|
                    0 <= k < i ==> (#[trigger] lines@[k])@ == stats_line(
                        sizes@[k],
                        self.history(sizes@[k]),
                    ),
            decreases sizes@.len() - i,
        {
            let sides: u8 = sizes[i];
            assert(sizes@.contains(sides));
            if let Some(values) = self.outcomes(sides) {
                lines.push(stats_text(sides, values));
            }
            i = i + 1;
        }
        proof {
            assert(texts_of(lines@) =~= self.stats_lines());
        }
        lines
    }

    /// Reads a line of input: tells what it asks for, and keeps it as the
    /// last notation where it is a notation that was accepted. An empty line
    /// stands for the last notation.
    pub fn read_command(&mut self, line: &str) -> (r: Result<Command, ParseError>)
        ensures
            r == command_of(old(self).last_notation(), line@),
            r matches Ok(Command::Roll(dice_roll)) ==> dice_roll.is_valid(),
            final(self).last_notation() == last_after(old(self).last_notation(), line@),
            final(self).same_stats(old(self)),
    {
        let text = trim(line);
        if text.to_owned() == "stats".to_owned() {
            return Ok(Command::Stats);
        }
        if text.is_empty() {
            match DiceRoll::from(self.last.as_str()) {
                Ok(dice_roll) => Ok(Command::Roll(dice_roll)),
                Err(e) => Err(e),
            }
        } else {
            match DiceRoll::from(text) {
                Ok(dice_roll) => {
                    self.last = text.to_owned();
                    Ok(Command::Roll(dice_roll))
                },
                Err(e) => Err(e),
            }
        }
    }

    /// Handles a line of input: rolls the dice that it asks for and adds
    /// their values to the statistics.
    pub fn submit(&mut self, line: &str) -> (r: Result<Reply, ParseError>)
        ensures
            match command_of(old(self).last_notation(), line@) {
                Err(e) => r == Err::<Reply, ParseError>(e) && final(self).same_stats(old(self)),
                Ok(Command::Stats) => r == Ok::<Reply, ParseError>(Reply::Stats)
                    && final(self).same_stats(old(self)),
                Ok(Command::Roll(dice_roll)) => r matches Ok(Reply::Rolled(rolled, values))
                    && rolled == dice_roll
                    && rolled.is_valid()
                    && values@.len() == dice_roll.n_times
                    && faces_within(values@, dice_roll.sides)
                    && final(self).holds_more(old(self), dice_roll.sides, values@),
            },
            final(self).last_notation() == last_after(old(self).last_notation(), line@),
    {
        match self.read_command(line) {
            Err(e) => Err(e),
            Ok(Command::Stats) => Ok(Reply::Stats),
            Ok(Command::Roll(dice_roll)) => {
                let values = roll(&dice_roll);
                self.record(dice_roll.sides, &values);
                Ok(Reply::Rolled(dice_roll, values))
            },
        }
    }
}

/// A line of white space alone, read after a line that asked for a roll,
/// asks for the same roll again.
pub proof fn lemma_blank_line_repeats(last: Seq<char>, line: Seq<char>, blank: Seq<char>)
    requires
        command_of(last, line) matches Ok(Command::Roll(_)),
        trimmed(blank).len() == 0,
    ensures
        command_of(last_after(last, line), blank) == command_of(last, line),
        last_after(last_after(last, line), blank) == last_after(last, line),
{
    reveal_strlit("stats");
}

/// The values logged for a die size are as many as the dice thrown of it.
pub proof fn lemma_logged_len(log: Seq<(u8, Seq<u8>)>, sides: u8)
    ensures
        logged(log, sides).len() == dice_thrown(log, sides),
    decreases log.len(),
{
    if log.len() > 0 {
        lemma_logged_len(log.drop_last(), sides);
    }
}

/// A session that holds what a run of rolls gave holds, after one more roll
/// was recorded, what the longer run gave: for each die size every value, in
/// the order in which it was rolled.
pub proof fn lemma_record_keeps_log(
    before: Session,
    after: Session,
    log: Seq<(u8, Seq<u8>)>,
    sides: u8,
    values: Seq<u8>,
)
    requires
        forall|s: u8| #[trigger] before.history(s) == logged(log, s),
        after.history(sides) == before.history(sides) + values,
        forall|s: u8| s != sides ==> #[trigger] after.history(s) == before.history(s),
    ensures
        forall|s: u8| #[trigger] after.history(s) == logged(log.push((sides, values)), s),
        after.history(sides).len() == dice_thrown(log, sides) + values.len(),
{
    let longer = log.push((sides, values));
    assert(longer.drop_last() =~= log);
    assert(longer.last() == (sides, values));
    lemma_logged_len(log, sides);
    assert forall|s: u8| #[trigger] after.history(s) == logged(longer, s) by {
        if s != sides {
            assert(after.history(s) == before.history(s));
        }
        assert(before.history(s) == logged(log, s));
    }
}

} // verus!
