use daily_puzzles::day01;
use daily_puzzles::day02;
use daily_puzzles::day03;
use daily_puzzles::day04;
use daily_puzzles::day05;
use daily_puzzles::day06;
use daily_puzzles::day07;
use daily_puzzles::day08;
use daily_puzzles::dispatch;
use daily_puzzles::get_solution_functions;
use daily_puzzles::InputMode;

#[test]
fn depth_increase_counts() {
    let input = String::from("199\n200\n208\n210\n200\n207\n240\n269\n260\n263\n");
    assert_eq!(day01::solve_part1(&input, &InputMode::Test), 7);
    assert_eq!(day01::solve_part2(&input, &InputMode::Test), 5);
}

#[test]
fn depth_counts_via_try() {
    let input = String::from("199\n200\n208\n210\n200\n207\n240\n269\n260\n263");
    assert_eq!(day01::try_part1(&input), Some(7));
    assert_eq!(day01::try_part2(&input), Some(5));
}

#[test]
fn depth_rejects_malformed() {
    let input = String::from("199\nabc\n208\n");
    assert_eq!(day01::try_part1(&input), None);
    let empty = String::from("");
    assert_eq!(day01::try_part1(&empty), None);
    let short = String::from("1\n2\n");
    assert_eq!(day01::try_part2(&short), None);
}

#[test]
fn position_products() {
    let input = String::from("forward 5\ndown 5\nforward 8\nup 3\ndown 8\nforward 2\n");
    assert_eq!(day02::solve_part1(&input, &InputMode::Test), 150);
    assert_eq!(day02::solve_part2(&input, &InputMode::Test), 900);
}

#[test]
fn position_rejects_bad_keyword() {
    let input = String::from("forward 5\nsideways 3\n");
    assert_eq!(day02::try_part1(&input), None);
    assert_eq!(day02::try_part2(&input), None);
    let nospace = String::from("forward5\n");
    assert_eq!(day02::try_part1(&nospace), None);
}

const BITS_SAMPLE: &str =
    "00100\n11110\n10110\n10111\n10101\n01111\n00111\n11100\n10000\n11001\n00010\n01010\n";

#[test]
fn bit_filter_products() {
    let input = String::from(BITS_SAMPLE);
    assert_eq!(day03::solve_part1(&input, &InputMode::Test), 198);
    assert_eq!(day03::solve_part2(&input, &InputMode::Test), 230);
}

#[test]
fn bit_filter_rejects_stray_character() {
    let input = String::from("00100\n11a10\n");
    assert_eq!(day03::try_part1(&input), None);
    let ragged = String::from("00100\n111\n");
    assert_eq!(day03::try_part1(&ragged), None);
    let empty = String::from("");
    assert_eq!(day03::try_part1(&empty), None);
}

#[test]
fn binvec_conversions() {
    let v = day03::str2binvec("10110");
    assert_eq!(v, vec![true, false, true, true, false]);
    assert_eq!(day03::bin2dec(&v), 22);
    assert_eq!(day03::bin2dec(&vec![]), 0);
    assert_eq!(day03::bin2dec(&vec![true; 10]), 1023);
}

#[test]
fn binvec_roundtrip_examples() {
    let v = vec![true, false, true, true, false];
    let d = day03::bin2dec(&v);
    assert_eq!(day03::dec2bin(d, 5), v);
    let w = vec![false, false, true];
    assert_eq!(day03::dec2bin(day03::bin2dec(&w), 3), w);
    assert_eq!(day03::dec2bin(0, 4), vec![false; 4]);
}

#[test]
fn count_bits_per_column() {
    let input = String::from(BITS_SAMPLE);
    let data = day03::read_into_binvec(&input);
    assert_eq!(data.len(), 12);
    let (n0, n1) = day03::count_bits(&data, 0);
    assert_eq!((n0, n1), (5, 7));
}

const BINGO_SAMPLE: &str = "7,4,9,5,11,17,23,2,0,14,21,24,10,16,13,6,15,25,12,22,18,20,8,19,3,26,1\n\n22 13 17 11  0\n 8  2 23  4 24\n21  9 14 16  7\n 6 10  3 18  5\n 1 12 20 15 19\n\n 3 15  0  2 22\n 9 18 13 17  5\n19  8  7 25 23\n20 11 10 24  4\n14 21 16 12  6\n\n14 21 17 24  4\n10 16 15  9 19\n18  8 23 26 20\n22 11 13  6  5\n 2  0 12  3  7\n";

#[test]
fn bingo_first_and_last_winner() {
    let input = String::from(BINGO_SAMPLE);
    assert_eq!(day04::solve_part1(&input, &InputMode::Test), 4512);
    assert_eq!(day04::solve_part2(&input, &InputMode::Test), 1924);
}

#[test]
fn bingo_rejects_short_board() {
    let input = String::from("1,2,3\n\n1 2 3 4 5\n6 7 8 9 10\n");
    assert_eq!(day04::try_part1(&input), None);
    let never = String::from("99\n\n1 2 3 4 5\n6 7 8 9 10\n11 12 13 14 15\n16 17 18 19 20\n21 22 23 24 25\n");
    assert_eq!(day04::try_part1(&never), None);
}

const VENTS_SAMPLE: &str = "0,9 -> 5,9\n8,0 -> 0,8\n9,4 -> 3,4\n2,2 -> 2,1\n7,0 -> 7,4\n6,4 -> 2,0\n0,9 -> 2,9\n3,4 -> 1,4\n0,0 -> 8,8\n5,5 -> 8,2\n";

#[test]
fn vent_overlap_counts() {
    let input = String::from(VENTS_SAMPLE);
    assert_eq!(day05::solve_part1(&input, &InputMode::Test), 5);
    assert_eq!(day05::solve_part2(&input, &InputMode::Test), 12);
}

#[test]
fn vent_rejects_skewed_segment() {
    let input = String::from("0,0 -> 3,5\n");
    assert_eq!(day05::try_part1(&input), None);
    let garbled = String::from("0,0 > 3,3\n");
    assert_eq!(day05::try_part1(&garbled), None);
}

#[test]
fn population_growth() {
    let input = String::from("3,4,3,1,2");
    assert_eq!(day06::try_population(&input, 18), Some(26));
    assert_eq!(day06::try_population(&input, 80), Some(5934));
    assert_eq!(day06::solve_part1(&input, &InputMode::Test), 5934);
    assert_eq!(day06::solve_part2(&input, &InputMode::Test), 26984457539);
}

#[test]
fn population_rejects_out_of_range_age() {
    let input = String::from("3,4,9");
    assert_eq!(day06::try_population(&input, 18), None);
    let neg = String::from("3,-1");
    assert_eq!(day06::try_population(&neg, 18), None);
}

#[test]
fn iterate_age_distr_in_place() {
    let mut h: [i64; 9] = [0, 1, 1, 2, 1, 0, 0, 0, 0];
    day06::iterate_age_distr(&mut h, 18);
    let total: i64 = h.iter().sum();
    assert_eq!(total, 26);
}

#[test]
fn crab_alignment_costs() {
    let input = String::from("16,1,2,0,4,2,7,1,2,14");
    assert_eq!(day07::solve_part1(&input, &InputMode::Test), 37);
    assert_eq!(day07::solve_part2(&input, &InputMode::Test), 168);
}

#[test]
fn crab_fuel_formula() {
    assert_eq!(day07::compute_fuel(16, 5), 66);
    assert_eq!(day07::compute_fuel(1, 5), 10);
    assert_eq!(day07::compute_fuel(5, 5), 0);
    assert_eq!(day07::compute_fuel(0, 5), 15);
}

#[test]
fn crab_rejects_empty_input() {
    let input = String::from("");
    assert_eq!(day07::try_part1(&input), None);
    let bad = String::from("1,2,x");
    assert_eq!(day07::try_part2(&bad), None);
}

const SEGMENTS_SAMPLE: &str = "be cfbegad cbdgef fgaecd cgeb fdcge agebfd fecdb fabcd edb | fdgacbe cefdb cefbgd gcbe\nedbfga begcd cbg gc gcadebf fbgde acbgfd abcde gfcbed gfec | fcgedb cgb dgebacf gc\nfgaebd cg bdaec gdafb agbcfd gdcbef bgcad gfac gcb cdgabef | cg cg fdcagb cbg\nfbegcd cbd adcefb dageb afcb bc aefdc ecdab fgdeca fcdbega | efabcd cedba gadfec cb\naecbfdg fbg gf bafeg dbefa fcge gcbea fcaegb dgceab fcbdga | gecf egdcabf bgf bfgea\nfgeab ca afcebg bdacfeg cfaedg gcfdb baec bfadeg bafgc acf | gebdcfa ecba ca fadegcb\ndbcfg fgd bdegcaf fgec aegbdf ecdfab fbedc dacgb gdcebf gf | cefg dcbef fcge gbcadfe\nbdfegc cbegaf gecbf dfcage bdacg ed bedf ced adcbefg gebcd | ed bcgafe cdgba cbgef\negadfb cdbfeg cegd fecab cgb gbdefca cg fgcdab egfdb bfceg | gbdfcae bgc cg cgb\ngcafb gcf dcaebfg ecagb gf abcdeg gaef cafbge fdbac fegbdc | fgae cfgab fg bagce\n";

#[test]
fn segment_tally_and_decode() {
    let input = String::from(SEGMENTS_SAMPLE);
    assert_eq!(day08::solve_part1(&input, &InputMode::Test), 26);
    assert_eq!(day08::solve_part2(&input, &InputMode::Test), 61229);
}

#[test]
fn segment_decode_single_record() {
    let easy = String::from("cf acf bcdf abcdefg | cf bcdf acf abcdefg\n");
    assert_eq!(day08::try_part2(&easy), Some(1478));
    let hard = String::from("cf bcdf | acdfg abdfg acdeg abdefg abcdfg abcefg\n");
    assert_eq!(day08::try_part2(&hard), Some(352690));
}

#[test]
fn segment_rejects_missing_separator() {
    let input = String::from("ab cd ef\n");
    assert_eq!(day08::try_part1(&input), None);
}

#[test]
fn registry_holds_every_pair() {
    let pairs = get_solution_functions();
    assert_eq!(pairs.len(), 16);
    assert_eq!(pairs[0], (1, 1));
    assert_eq!(pairs[15], (8, 2));
    for d in 1..=8u8 {
        for p in 1..=2u8 {
            assert!(pairs.contains(&(d, p)));
        }
    }
}

#[test]
fn dispatch_runs_registered_solvers() {
    let input = String::from("199\n200\n208\n210\n200\n207\n240\n269\n260\n263\n");
    assert_eq!(dispatch(1, 1, &input, &InputMode::Test), Some(7));
    assert_eq!(dispatch(1, 2, &input, &InputMode::Test), Some(5));
    let fish = String::from("3,4,3,1,2");
    assert_eq!(dispatch(6, 1, &fish, &InputMode::Full), Some(5934));
}

#[test]
fn dispatch_rejects_unknown_pair() {
    let input = String::from("199\n200\n");
    assert_eq!(dispatch(9, 1, &input, &InputMode::Test), None);
    assert_eq!(dispatch(1, 3, &input, &InputMode::Test), None);
    assert_eq!(dispatch(0, 0, &input, &InputMode::Test), None);
}

#[test]
fn dispatch_rejects_bad_input() {
    let bad = String::from("not numbers\n");
    assert_eq!(dispatch(1, 1, &bad, &InputMode::Test), None);
    assert_eq!(dispatch(3, 1, &bad, &InputMode::Test), None);
}

#[test]
fn integer_parsing_bounds() {
    let min: Vec<char> = "-9223372036854775808".chars().collect();
    assert_eq!(daily_puzzles::text::parse_i64(&min), Some(i64::MIN));
    let max: Vec<char> = "9223372036854775807".chars().collect();
    assert_eq!(daily_puzzles::text::parse_i64(&max), Some(i64::MAX));
    let over: Vec<char> = "9223372036854775808".chars().collect();
    assert_eq!(daily_puzzles::text::parse_i64(&over), None);
    let empty: Vec<char> = Vec::new();
    assert_eq!(daily_puzzles::text::parse_i64(&empty), None);
    let dash: Vec<char> = "-".chars().collect();
    assert_eq!(daily_puzzles::text::parse_i64(&dash), None);
    let zeroes: Vec<char> = "000042".chars().collect();
    assert_eq!(daily_puzzles::text::parse_i64(&zeroes), Some(42));
}

#[test]
fn text_split_and_trim() {
    let cs: Vec<char> = "  a,b,,c \n".chars().collect();
    let tr = daily_puzzles::text::trim_chars(&cs);
    let trimmed: String = tr.iter().collect();
    assert_eq!(trimmed, "a,b,,c");
    let parts = daily_puzzles::text::split_char(&tr, ',');
    assert_eq!(parts.len(), 4);
    let first: String = parts[0].iter().collect();
    assert_eq!(first, "a");
    let third: String = parts[2].iter().collect();
    assert_eq!(third, "");
}
