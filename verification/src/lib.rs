//! Verified solvers for a collection of small daily text puzzles.
//!
//! Each day module holds the kernels for one puzzle: a parser for that
//! puzzle's input grammar and one solver per part, each with a contract
//! that pins the returned answer to a mathematical model of the input.

use vstd::prelude::*;

mod grid;
pub mod sums;
pub mod text;
pub mod day01;
pub mod day02;
pub mod day03;
pub mod day04;
pub mod day05;
pub mod day06;
pub mod day07;
pub mod day08;

verus! {

/// Selects between the small illustrative dataset and the full dataset.
///
/// The mode only decides which input file a caller loads; it never changes
/// what a solver computes.
pub enum InputMode {
    Full,
    Test,
}


/// Whether a solver is registered for the given puzzle and part.
pub open spec fn registered(day: u8, part: u8) -> bool {
    1 <= day <= 8 && 1 <= part <= 2
}

/// The registered (puzzle, part) pairs, in registration order.
pub fn get_solution_functions() -> (r: Vec<(u8, u8)>)
    ensures
        r@ == seq![
            (1u8, 1u8),
            (1u8, 2u8),
            (2u8, 1u8),
            (2u8, 2u8),
            (3u8, 1u8),
            (3u8, 2u8),
            (4u8, 1u8),
            (4u8, 2u8),
            (5u8, 1u8),
            (5u8, 2u8),
            (6u8, 1u8),
            (6u8, 2u8),
            (7u8, 1u8),
            (7u8, 2u8),
            (8u8, 1u8),
            (8u8, 2u8),
        ],
        forall|i: int| 0 <= i < r@.len() ==> registered((#[trigger] r@[i]).0, r@[i].1),
{
    let mut r: Vec<(u8, u8)> = Vec::new();
    let mut d: u8 = 1;
    while d <= 8
        invariant
            1 <= d <= 9,
            r@.len() == 2 * (d - 1),
            forall|i: int|
                0 <= i < r@.len() ==> #[trigger] r@[i] == (((i / 2) + 1) as u8, ((i % 2)
                    + 1) as u8),
        decreases 9 - d,
    {
        r.push((d, 1));
        r.push((d, 2));
        d += 1;
    }
    proof {
        assert(r@ =~= seq![
            (1u8, 1u8),
            (1u8, 2u8),
            (2u8, 1u8),
            (2u8, 2u8),
            (3u8, 1u8),
            (3u8, 2u8),
            (4u8, 1u8),
            (4u8, 2u8),
            (5u8, 1u8),
            (5u8, 2u8),
            (6u8, 1u8),
            (6u8, 2u8),
            (7u8, 1u8),
            (7u8, 2u8),
            (8u8, 1u8),
            (8u8, 2u8),
        ]);
    }
    r
}

/// The answer the registered solver gives for this input, or nothing
/// when the pair is unregistered or the input is not acceptable to that
/// solver.
pub open spec fn spec_answer(day: u8, part: u8, s: Seq<char>) -> Option<int> {
    if day == 1 && part == 1 {
        if day01::part1_ok(s) {
            Option::Some(day01::part1_answer(s))
        } else {
            Option::None
        }
    } else if day == 1 && part == 2 {
        if day01::part2_ok(s) {
            Option::Some(day01::part2_answer(s))
        } else {
            Option::None
        }
    } else if day == 2 && part == 1 {
        if day02::part1_ok(s) {
            Option::Some(day02::part1_answer(s))
        } else {
            Option::None
        }
    } else if day == 2 && part == 2 {
        if day02::part2_ok(s) {
            Option::Some(day02::part2_answer(s))
        } else {
            Option::None
        }
    } else if day == 3 && part == 1 {
        if day03::part1_ok(s) {
            Option::Some(day03::part1_answer(s))
        } else {
            Option::None
        }
    } else if day == 3 && part == 2 {
        if day03::part2_ok(s) {
            Option::Some(day03::part2_answer(s))
        } else {
            Option::None
        }
    } else if day == 4 && part == 1 {
        if day04::part1_ok(s) {
            Option::Some(day04::part1_answer(s))
        } else {
            Option::None
        }
    } else if day == 4 && part == 2 {
        if day04::part2_ok(s) {
            Option::Some(day04::part2_answer(s))
        } else {
            Option::None
        }
    } else if day == 5 && part == 1 {
        if day05::day05_ok(s, false) {
            Option::Some(day05::day05_answer(s, false))
        } else {
            Option::None
        }
    } else if day == 5 && part == 2 {
        if day05::day05_ok(s, true) {
            Option::Some(day05::day05_answer(s, true))
        } else {
            Option::None
        }
    } else if day == 6 && part == 1 {
        if day06::day06_ok(s, 80) {
            Option::Some(day06::spec_population(s, 80))
        } else {
            Option::None
        }
    } else if day == 6 && part == 2 {
        if day06::day06_ok(s, 256) {
            Option::Some(day06::spec_population(s, 256))
        } else {
            Option::None
        }
    } else if day == 7 && part == 1 {
        if day07::part1_ok(s) {
            Option::Some(day07::part1_answer(s))
        } else {
            Option::None
        }
    } else if day == 7 && part == 2 {
        if day07::part2_ok(s) {
            Option::Some(day07::part2_answer(s))
        } else {
            Option::None
        }
    } else if day == 8 && part == 1 {
        if day08::part1_ok(s) {
            Option::Some(day08::part1_answer(s))
        } else {
            Option::None
        }
    } else if day == 8 && part == 2 {
        if day08::part2_ok(s) {
            Option::Some(day08::part2_answer(s))
        } else {
            Option::None
        }
    } else {
        Option::None
    }
}

/// Looks up the registered solver and runs it; nothing comes back for an
/// unregistered pair or an input the solver rejects.
pub fn dispatch(day: u8, part: u8, input: &String, _input_mode: &InputMode) -> (r: Option<i64>)
    ensures
        (r is Some) == (spec_answer(day, part, input@) is Some),
        (match r {
            Some(v) => Option::Some(v as int) == spec_answer(day, part, input@),
            None => true,
        }),
{
    if day == 1 && part == 1 {
        day01::try_part1(input)
    } else if day == 1 && part == 2 {
        day01::try_part2(input)
    } else if day == 2 && part == 1 {
        day02::try_part1(input)
    } else if day == 2 && part == 2 {
        day02::try_part2(input)
    } else if day == 3 && part == 1 {
        day03::try_part1(input)
    } else if day == 3 && part == 2 {
        day03::try_part2(input)
    } else if day == 4 && part == 1 {
        day04::try_part1(input)
    } else if day == 4 && part == 2 {
        day04::try_part2(input)
    } else if day == 5 && part == 1 {
        day05::try_part1(input)
    } else if day == 5 && part == 2 {
        day05::try_part2(input)
    } else if day == 6 && part == 1 {
        day06::try_population(input, 80)
    } else if day == 6 && part == 2 {
        day06::try_population(input, 256)
    } else if day == 7 && part == 1 {
        day07::try_part1(input)
    } else if day == 7 && part == 2 {
        day07::try_part2(input)
    } else if day == 8 && part == 1 {
        day08::try_part1(input)
    } else if day == 8 && part == 2 {
        day08::try_part2(input)
    } else {
        None
    }
}

} // verus!
