//! Tests for the remaining daily solvers.

use advent23::day01;
use advent23::day02::{self, Game};
use advent23::day03;
use advent23::day04;
use advent23::day06::{self, Race};
use advent23::day07::{self, Card, Hand};
use advent23::day08::{self, Instruction};
use advent23::day09;
use advent23::day10;
use advent23::parse_number_list;

#[test]
fn number_list_skips_tokens_that_do_not_parse() {
    assert_eq!(parse_number_list("79 14 55 13"), vec![79, 14, 55, 13]);
    assert_eq!(parse_number_list("  7\t8 \n9 "), vec![7, 8, 9]);
    assert_eq!(parse_number_list("1 x 2 -3 +4"), vec![1, 2, 4]);
    assert_eq!(parse_number_list(""), Vec::<u64>::new());
}

// --- calibration values ---

#[test]
fn parse_digit_reads_words_and_numbers() {
    assert_eq!(day01::parse_digit("seven"), Some(7));
    assert_eq!(day01::parse_digit("42"), Some(42));
    assert_eq!(day01::parse_digit("sevenx"), None);
}

#[test]
fn extract_digits_sums_first_and_last_digits() {
    let input = String::from("1abc2\npqr3stu8vwx\na1b2c3d4e5f\ntreb7uchet");
    assert_eq!(day01::extract_digits(input), Some(142));
}

#[test]
fn extract_digits_fails_on_a_line_without_digits() {
    assert_eq!(day01::extract_digits(String::from("12\nabc")), None);
}

#[test]
fn extract_digits_written_reads_spelled_words() {
    let input = String::from(
        "two1nine\neightwothree\nabcone2threexyz\nxtwone3four\n4nineeightseven2\nzoneight234\n7pqrstsixteen",
    );
    assert_eq!(day01::extract_digits_written(input), Some(281));
}

#[test]
fn extract_digits_written_takes_overlapping_words_from_both_ends() {
    assert_eq!(day01::extract_digits_written(String::from("twone")), Some(21));
}

// --- the cube game ---

#[test]
fn game_from_string_collects_counts_per_color() {
    let g = Game::from_string(String::from(
        "Game 1: 1 blue, 1 red; 10 red; 8 red, 1 blue, 1 green",
    ))
    .unwrap();
    assert_eq!(g.id, 1);
    assert_eq!(g.red, vec![1, 10, 8]);
    assert_eq!(g.blue, vec![1, 1]);
    assert_eq!(g.green, vec![1]);
    assert_eq!(g.max_red(), 10);
    assert_eq!(g.max_blue(), 1);
    assert_eq!(g.max_green(), 1);
    assert_eq!(g.multiply_colors(), 10);
    assert!(g.is_possible(10, 1, 1));
    assert!(!g.is_possible(9, 1, 1));
}

#[test]
fn game_from_string_rejects_a_bad_id() {
    assert!(Game::from_string(String::from("Game x: 1 red")).is_none());
}

#[test]
fn game_from_string_rejects_a_bad_count() {
    assert!(Game::from_string(String::from("Game 1: one red")).is_none());
}

#[test]
fn cube_game_sums_match_the_sample() {
    let lines = [
        "Game 1: 3 blue, 4 red; 1 red, 2 green, 6 blue; 2 green",
        "Game 2: 1 blue, 2 green; 3 green, 4 blue, 1 red; 1 green, 1 blue",
        "Game 3: 8 green, 6 blue, 20 red; 5 blue, 4 red, 13 green; 5 green, 1 red",
        "Game 4: 1 green, 3 red, 6 blue; 3 green, 6 red; 3 green, 15 blue, 14 red",
        "Game 5: 6 red, 1 blue, 3 green; 2 blue, 1 red, 2 green",
    ];
    let games: Vec<Game> = lines
        .iter()
        .map(|l| Game::from_string(l.to_string()).unwrap())
        .collect();
    assert_eq!(day02::sum_possible_ids(&games, 12, 13, 14), 8);
    assert_eq!(day02::total_power(&games), 2286);
}

// --- engine schematic ---

#[test]
fn special_characters_are_recognized() {
    assert!(day03::is_special('*'));
    assert!(day03::is_special('#'));
    assert!(!day03::is_special('.'));
    assert!(!day03::is_special('5'));
}

const SCHEMATIC: &str = "467..114..\n...*......\n..35..633.\n......#...\n617*......\n.....+.58.\n..592.....\n......755.\n...$.*....\n.664.598..";

#[test]
fn schematic_part_one_matches_the_sample() {
    assert_eq!(day03::part1(SCHEMATIC), 4361);
}

#[test]
fn schematic_part_two_matches_the_sample() {
    assert_eq!(day03::part2(SCHEMATIC), 467835);
}

#[test]
fn gather_number_finds_the_whole_run() {
    let world = day03::string_as_2d_array(String::from("..467..\n......."));
    let (value, tile) = day03::gather_number(&world, 3, 0).unwrap();
    assert_eq!(value, 467);
    assert_eq!(tile.x, 4);
    assert_eq!(tile.y, 0);
    assert!(day03::gather_number(&world, 1, 0).is_none());
}

#[test]
fn gear_ratio_needs_exactly_two_numbers() {
    let world = day03::string_as_2d_array(String::from("467.\n..*.\n..35"));
    assert_eq!(day03::gear_ratio(&world, 2, 1), Some(467 * 35));
    let lonely = day03::string_as_2d_array(String::from("467.\n..*.\n...."));
    assert_eq!(day03::gear_ratio(&lonely, 2, 1), None);
}

// --- scratchcards ---

#[test]
fn score_line_counts_agreeing_pairs() {
    assert_eq!(
        day04::score_line("Card 1: 41 48 83 86 17 | 83 86  6 31 17  9 48 53"),
        4
    );
    assert_eq!(day04::score_line("Card 5: 87 83 26 28 32 | 88 30 70 12 93 22 82 36"), 0);
}

const CARDS: &str = "Card 1: 41 48 83 86 17 | 83 86  6 31 17  9 48 53\nCard 2: 13 32 20 16 61 | 61 30 68 82 17 32 24 19\nCard 3:  1 21 53 59 44 | 69 82 63 72 16 21 14  1\nCard 4: 41 92 73 84 69 | 59 84 76 51 58  5 54 83\nCard 5: 87 83 26 28 32 | 88 30 70 12 93 22 82 36\nCard 6: 31 18 13 56 72 | 74 77 10 23 35 67 36 11";

#[test]
fn scratchcards_part_one_matches_the_sample() {
    assert_eq!(day04::part1(CARDS), 13);
}

#[test]
fn scratchcards_part_two_matches_the_sample() {
    assert_eq!(day04::part2(CARDS), 30);
}

// --- boat races ---

#[test]
fn ways_to_win_counts_hold_times() {
    assert_eq!(Race::new(7, 9).ways_to_win(), 4);
    assert_eq!(Race::new(15, 40).ways_to_win(), 8);
    assert_eq!(Race::new(30, 200).ways_to_win(), 9);
    // an unbeatable record leaves no way to win
    assert_eq!(Race::new(3, 100).ways_to_win(), 0);
}

#[test]
fn races_part_one_multiplies_the_counts() {
    assert_eq!(day06::part1("Time:      7  15   30\nDistance:  9  40  200\n"), 288);
}

// --- camel cards ---

#[test]
fn card_faces_parse_and_order() {
    assert_eq!(Card::from_char('A'), Some(Card::Ace));
    assert_eq!(Card::from_char('T'), Some(Card::Ten));
    assert_eq!(Card::from_char('2'), Some(Card::Two));
    assert_eq!(Card::from_char('1'), None);
}

#[test]
fn hand_scores_order_hands_by_kind_then_faces() {
    let full_house = day07::score_hand(&vec![Card::Two, Card::Three, Card::Three, Card::Three, Card::Two]);
    let four = day07::score_hand(&vec![Card::Two, Card::Ace, Card::Ace, Card::Ace, Card::Ace]);
    let four_high = day07::score_hand(&vec![Card::Three, Card::Three, Card::Three, Card::Three, Card::Two]);
    assert!(four > full_house);
    assert!(four_high > four);
}

#[test]
fn joker_scoring_lets_jacks_join_the_strongest_card() {
    // with jokers, QJJQ2 counts as four queens
    let hand = vec![Card::Queen, Card::Jack, Card::Jack, Card::Queen, Card::Two];
    let plain_four = day07::score_jokers(&vec![
        Card::Queen,
        Card::Queen,
        Card::Queen,
        Card::Queen,
        Card::Two,
    ]);
    let upgraded = day07::score_jokers(&hand);
    // both are four of a kind; the plain hand outranks on faces since jacks count 1
    assert!(plain_four > upgraded);
    let triple = day07::score_hand(&hand);
    assert!(upgraded > triple);
}

#[test]
fn hand_from_string_reads_cards_and_bet() {
    let h = Hand::from_string(String::from("32T3K 765"), false).unwrap();
    assert_eq!(h.cards, vec![Card::Three, Card::Two, Card::Ten, Card::Three, Card::King]);
    assert_eq!(h.bet, 765);
    assert!(Hand::from_string(String::from("32X3K 765"), false).is_none());
}

#[test]
fn total_winnings_match_the_sample() {
    let lines = ["32T3K 765", "T55J5 684", "KK677 28", "KTJJT 220", "QQQJA 483"];
    let jacks: Vec<Hand> = lines
        .iter()
        .map(|l| Hand::from_string(l.to_string(), false).unwrap())
        .collect();
    assert_eq!(day07::total_winnings(jacks), 6440);
    let jokers: Vec<Hand> = lines
        .iter()
        .map(|l| Hand::from_string(l.to_string(), true).unwrap())
        .collect();
    assert_eq!(day07::total_winnings(jokers), 5905);
}

// --- desert network ---

#[test]
fn traversal_stack_is_reversed_and_filtered() {
    assert_eq!(
        day08::parse_traversal_stack("LLR x"),
        vec![Instruction::Right, Instruction::Left, Instruction::Left]
    );
}

fn node(s: &str) -> Vec<char> {
    s.chars().collect()
}

#[test]
fn tree_get_finds_branches() {
    let tree = day08::parse_tree("AAA = (BBB, CCC)\nBBB = (DDD, EEE)");
    let (left, right) = tree.get(&node("AAA")).unwrap();
    assert_eq!(left, &node("BBB"));
    assert_eq!(right, &node("CCC"));
    assert!(tree.get(&node("ZZZ")).is_none());
}

#[test]
fn follow_path_counts_steps_to_the_goal() {
    let tree = day08::parse_tree(
        "AAA = (BBB, BBB)\nBBB = (AAA, ZZZ)\nZZZ = (ZZZ, ZZZ)",
    );
    let stack = day08::parse_traversal_stack("LLR");
    assert_eq!(day08::follow_path(vec![node("AAA")], &tree, &stack), 6);
}

#[test]
fn follow_path_with_two_walkers() {
    let tree = day08::parse_tree(
        "11A = (11B, XXX)\n11B = (XXX, 11Z)\n11Z = (11B, XXX)\n22A = (22B, XXX)\n22B = (22C, 22C)\n22C = (22Z, 22Z)\n22Z = (22B, 22B)\nXXX = (XXX, XXX)",
    );
    let stack = day08::parse_traversal_stack("LR");
    let starts = vec![node("11A"), node("22A")];
    assert_eq!(day08::follow_path(starts, &tree, &stack), 6);
}

// --- sequence extrapolation ---

#[test]
fn derivative_takes_neighbor_differences() {
    assert_eq!(day09::derivative(&vec![0, 3, 6, 9, 12, 15]), vec![3, 3, 3, 3, 3]);
}

#[test]
fn autoderive_stops_at_the_zero_level() {
    let levels = day09::autoderive(&vec![0i64, 3, 6, 9, 12, 15]);
    assert_eq!(levels.len(), 3);
    assert_eq!(levels[2], vec![0, 0, 0, 0]);
}

#[test]
fn extrapolate_appends_the_next_value() {
    let mut levels = day09::autoderive(&vec![1i64, 3, 6, 10, 15, 21]);
    day09::extrapolate(&mut levels);
    assert_eq!(*levels[0].last().unwrap(), 28);
}

#[test]
fn extrapolate_left_prepends_the_previous_value() {
    let mut levels = day09::autoderive(&vec![10i64, 13, 16, 21, 30, 45]);
    day09::extrapolate_left(&mut levels);
    assert_eq!(levels[0][0], 5);
}

#[test]
fn extrapolation_sums_match_the_sample() {
    let input = "0 3 6 9 12 15\n1 3 6 10 15 21\n10 13 16 21 30 45";
    assert_eq!(day09::part1(String::from(input)), 114);
    assert_eq!(day09::part2(String::from(input)), 2);
}

#[test]
fn extrapolation_handles_negative_differences() {
    assert_eq!(day09::part1(String::from("3 2 1 0")), -1);
}

// --- pipe maze ---

#[test]
fn pipe_neighbors_follow_the_pipe_shape() {
    let world = day03_world("S-7\n|.|\nL-J");
    let t = day10::Tile::from_world(&world, 1, 0);
    let n = t.neighbors(&world);
    assert_eq!(n.len(), 2);
    assert_eq!((n[0].x, n[0].y), (0, 0));
    assert_eq!((n[1].x, n[1].y), (2, 0));
}

fn day03_world(s: &str) -> Vec<Vec<char>> {
    day03::string_as_2d_array(String::from(s))
}

#[test]
fn follow_pipe_walks_the_loop() {
    let world = day03_world("S-7\n|.|\nL-J");
    let walk = day10::follow_pipe(&world, 0, 0);
    assert_eq!(walk.len(), 8);
    assert_eq!(walk[0].1, 0);
    assert_eq!(day10::max_distance(&walk), 4);
}

#[test]
fn max_distance_of_the_larger_sample() {
    let world = day03_world("..F7.\n.FJ|.\nSJ.L7\n|F--J\nLJ...");
    let walk = day10::follow_pipe(&world, 0, 2);
    assert_eq!(day10::max_distance(&walk), 8);
}

#[test]
fn count_inside_finds_the_enclosed_cell() {
    let world = day03_world("S-7\n|.|\nL-J");
    let walk = day10::follow_pipe(&world, 0, 0);
    let expanded = day10::expand_world(&world);
    let walls = day10::loop_walls(&walk, 3, 3);
    assert_eq!(day10::count_inside(&expanded, &walls), 1);
    assert!(day10::cell_inside(&expanded, &walls, 2, 2));
    assert!(!day10::cell_inside(&expanded, &walls, 0, 0));
}

#[test]
fn count_inside_matches_the_four_cell_sample() {
    let text = "...........\n.S-------7.\n.|F-----7|.\n.||.....||.\n.||.....||.\n.|L-7.F-J|.\n.|..|.|..|.\n.L--J.L--J.\n...........";
    let world = day03_world(text);
    let walk = day10::follow_pipe(&world, 1, 1);
    let expanded = day10::expand_world(&world);
    let walls = day10::loop_walls(&walk, 11, 9);
    assert_eq!(day10::count_inside(&expanded, &walls), 4);
}

#[test]
fn find_start_scans_in_reading_order() {
    let world = day03_world("..F7.\n.FJ|.\nSJ.L7");
    assert_eq!(day10::find_start(&world), Some((0, 2)));
    let empty = day03_world("...\n...");
    assert_eq!(day10::find_start(&empty), None);
}
