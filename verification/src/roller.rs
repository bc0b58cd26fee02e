//! Rolling dice, and the sum of what they show.

use crate::notation::DiceRoll;
use vstd::prelude::*;

verus! {

/// Whether each of `values` is a face of a die of `sides` sides: a number
/// from 1 to `sides`.
pub open spec fn faces_within(values: Seq<u8>, sides: u8) -> bool {
    forall|i: int| 0 <= i < values.len() ==> 1 <= #[trigger] values[i] <= sides
}

/// The arithmetic sum of `values`.
pub open spec fn total(values: Seq<u8>) -> nat
    decreases values.len(),
{
    if values.len() == 0 {
        0
    } else {
        total(values.drop_last()) + values.last() as nat
    }
}

/// The sum that is shown with a roll: that of its values, where more than
/// one die was rolled.
pub open spec fn shown_sum(values: Seq<u8>) -> Option<nat> {
    if values.len() > 1 {
        Some(total(values))
    } else {
        None
    }
}

/// Draws one face of a die of `sides` sides from the thread's generator
/// `rand::thread_rng`, through `rand::Rng::sample` on the distribution
/// `rand::distributions::Uniform::new_inclusive(1, sides)`.
///
/// Believed, not proved: the face lies between 1 and `sides`, both included.
/// Which face comes is left open. The distribution refuses a lower bound
/// above the upper one, hence `sides` is at least 1.
#[verifier::external_body]
fn draw(sides: u8) -> (face: u8)
    requires
        sides >= 1,
    ensures
        1 <= face <= sides,
{
    rand::Rng::sample(&mut rand::thread_rng(), rand::distributions::Uniform::new_inclusive(1u8, sides))
}

/// Rolls the dice: one face for each die, in the order in which they fell.
pub fn roll(dice_roll: &DiceRoll) -> (values: Vec<u8>)
    requires
        dice_roll.sides >= 1,
    ensures
        values@.len() == dice_roll.n_times,
        faces_within(values@, dice_roll.sides),
{
    let mut values: Vec<u8> = Vec::new();
    let mut i: u16 = 0;
    while i < dice_roll.n_times
        invariant
            i <= dice_roll.n_times,
            dice_roll.sides >= 1,
            values@.len() == i,
            faces_within(values@, dice_roll.sides),
        decreases dice_roll.n_times - i,
    {
        let face = draw(dice_roll.sides);
        values.push(face);
        i = i + 1;
    }
    values
}

/// The sum of `values`.
pub fn sum_of(values: &Vec<u8>) -> (sum: u128)
    ensures
        sum == total(values@),
{
    let mut sum: u128 = 0;
    let mut i: usize = 0;
    while i < values.len()
        invariant
            i <= values@.len(),
            sum == total(values@.take(i as int)),
            sum <= 255 * i,
        decreases values@.len() - i,
    {
        proof {
            assert(values@.take(i as int + 1).drop_last() =~= values@.take(i as int));
        }
        sum = sum + values[i] as u128;
        i = i + 1;
    }
    proof {
        assert(values@.take(i as int) =~= values@);
    }
    sum
}

/// The sum to show with the roll `values`, if one is to be shown.
pub fn sum_to_show(values: &Vec<u8>) -> (sum: Option<u128>)
    ensures
        match sum {
            Some(n) => shown_sum(values@) == Some(n as nat),
            None => shown_sum(values@) is None,
        },
{
    if values.len() > 1 {
        Some(sum_of(values))
    } else {
        None
    }
}

/// The sum of faces of a die lies between their number and that number
/// times the sides of the die.
pub proof fn lemma_total_bounds(values: Seq<u8>, sides: u8)
    requires
        faces_within(values, sides),
    ensures
        values.len() <= total(values) <= values.len() * sides,
    decreases values.len(),
{
    if values.len() > 0 {
        let init = values.drop_last();
        assert forall|i: int| 0 <= i < init.len() implies 1 <= #[trigger] init[i] <= sides by {
            assert(init[i] == values[i]);
        }
        lemma_total_bounds(init, sides);
        assert(init.len() * sides + sides == values.len() * sides) by (nonlinear_arith)
            requires
                init.len() + 1 == values.len(),
        ;
    }
}

} // verus!
