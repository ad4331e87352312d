use aoc24::days::day13::{part1 as claws_part1, tokens, Button, Claw, Prize};
use aoc24::days::day2::{count_safe, deltas, is_safe, is_safe_without_one};
use aoc24::days::day25::{filter_type, fits, LockKey, TumblerType};
use aoc24::days::day4::{get_value, is_x_mas, is_xmas};
use aoc24::days::day5::{check_right, compare, is_valid, match_left, part1 as pages_part1};
use aoc24::days::day9::{checksum, find_last_file, find_space, part1, part2};
use std::cmp::Ordering;
use std::collections::HashSet;

fn chars(lines: &[&str]) -> Vec<Vec<char>> {
    lines.iter().map(|l| l.chars().collect()).collect()
}

fn reports() -> Vec<Vec<i32>> {
    vec![
        vec![7, 6, 4, 2, 1],
        vec![1, 2, 7, 8, 9],
        vec![9, 7, 6, 2, 1],
        vec![1, 3, 2, 4, 5],
        vec![8, 6, 4, 4, 1],
        vec![1, 3, 6, 7, 9],
    ]
}

#[test]
fn deltas_are_the_steps_between_neighbours() {
    assert_eq!(deltas(&vec![7, 6, 4, 2, 1]), vec![-1, -2, -2, -1]);
    assert_eq!(deltas(&vec![5]), Vec::<i32>::new());
    assert_eq!(deltas(&Vec::new()), Vec::<i32>::new());
}

#[test]
fn is_safe_wants_small_steps_one_way() {
    let safe: Vec<bool> = reports().iter().map(is_safe).collect();
    assert_eq!(safe, vec![true, false, false, false, false, true]);
    assert!(is_safe(&Vec::new()));
    assert!(is_safe(&vec![3]));
    assert!(!is_safe(&vec![3, 3]));
    assert!(!is_safe(&vec![i32::MIN, i32::MAX]));
}

#[test]
fn is_safe_without_one_forgives_one_level() {
    let safe: Vec<bool> = reports().iter().map(is_safe_without_one).collect();
    assert_eq!(safe, vec![true, false, false, true, true, true]);
    assert!(!is_safe_without_one(&Vec::new()));
    assert!(is_safe_without_one(&vec![3]));
}

#[test]
fn count_safe_counts_both_ways() {
    assert_eq!(count_safe(&reports()), (2, 4));
}

fn word_search() -> Vec<Vec<char>> {
    chars(&[
        "MMMSXXMASM",
        "MSAMXMSMSA",
        "AMXSXMAAMM",
        "MSAMASMSMX",
        "XMASAMXAMM",
        "XXAMMXXAMA",
        "SMSMSASXSS",
        "SAXAMASAAA",
        "MAMMMXMMMM",
        "MXMXAXMASX",
    ])
}

#[test]
fn get_value_is_none_off_the_grid() {
    let search = word_search();
    assert_eq!(get_value(&search, (0, 4)), Some('X'));
    assert_eq!(get_value(&search, (9, 9)), Some('X'));
    assert_eq!(get_value(&search, (-1, 0)), None);
    assert_eq!(get_value(&search, (0, -1)), None);
    assert_eq!(get_value(&search, (10, 0)), None);
    assert_eq!(get_value(&search, (0, 10)), None);
    assert_eq!(get_value(&Vec::new(), (0, 0)), None);
}

#[test]
fn xmas_stands_eighteen_times() {
    let search = word_search();
    let dirs = [(0, 1), (0, -1), (1, 0), (-1, 0), (1, 1), (1, -1), (-1, 1), (-1, -1)];
    let mut count = 0;
    for y in 0..search.len() {
        for x in 0..search[0].len() {
            for d in dirs {
                if is_xmas(&search, (y, x), d) {
                    count += 1;
                }
            }
        }
    }
    assert_eq!(count, 18);
    assert!(is_xmas(&search, (0, 5), (0, 1)));
    assert!(!is_xmas(&search, (0, 5), (0, -1)));
}

#[test]
fn two_mas_cross_nine_times() {
    let search = word_search();
    let mut count = 0;
    for y in 0..search.len() {
        for x in 0..search[0].len() {
            if is_x_mas(&search, (y, x)) {
                count += 1;
            }
        }
    }
    assert_eq!(count, 9);
    assert!(is_x_mas(&search, (1, 2)));
    assert!(!is_x_mas(&search, (0, 0)));
}

fn rules() -> Vec<(i32, i32)> {
    vec![
        (47, 53),
        (97, 13),
        (97, 61),
        (97, 47),
        (75, 29),
        (61, 13),
        (75, 53),
        (29, 13),
        (97, 29),
        (53, 29),
        (61, 53),
        (97, 53),
        (61, 29),
        (47, 13),
        (75, 47),
        (97, 75),
        (47, 61),
        (75, 61),
        (47, 29),
        (75, 13),
        (53, 13),
    ]
}

fn updates() -> Vec<Vec<i32>> {
    vec![
        vec![75, 47, 61, 53, 29],
        vec![97, 61, 53, 29, 13],
        vec![75, 29, 13],
        vec![75, 97, 47, 61, 53],
        vec![61, 13, 29],
        vec![97, 13, 75, 29, 47],
    ]
}

#[test]
fn match_left_gathers_the_pages_allowed_after() {
    let expected: HashSet<i32> = [53, 13, 61, 29].into_iter().collect();
    assert_eq!(match_left(&rules(), 47), expected);
    assert_eq!(match_left(&rules(), 13), HashSet::new());
}

#[test]
fn check_right_looks_at_the_pages_that_follow() {
    let update = vec![75, 97, 47, 61, 53];
    assert!(!check_right(&rules(), &update, 0));
    assert!(check_right(&rules(), &update, 1));
    assert!(check_right(&rules(), &update, 4));
}

#[test]
fn is_valid_wants_every_page_followed_rightly() {
    let valid: Vec<bool> = updates().iter().map(|u| is_valid(&rules(), u)).collect();
    assert_eq!(valid, vec![true, true, true, false, false, false]);
    assert!(is_valid(&rules(), &Vec::new()));
}

#[test]
fn compare_goes_by_the_first_rule_for_the_pair() {
    assert_eq!(compare(&rules(), 47, 53), Ordering::Less);
    assert_eq!(compare(&rules(), 53, 47), Ordering::Greater);
    assert_eq!(compare(&vec![(1, 2), (2, 1)], 2, 1), Ordering::Greater);
    assert_eq!(compare(&vec![(3, 3)], 3, 3), Ordering::Less);
}

#[test]
fn middle_pages_of_valid_updates_sum_up() {
    assert_eq!(pages_part1(&rules(), &updates()), 143);
}

fn disk() -> Vec<Option<usize>> {
    let map = "2333133121414131402";
    let mut out = Vec::new();
    for (i, c) in map.chars().enumerate() {
        let n = c.to_digit(10).unwrap() as usize;
        for _ in 0..n {
            out.push(if i % 2 == 0 { Some(i / 2) } else { None });
        }
    }
    out
}

#[test]
fn checksum_sums_position_times_file() {
    assert_eq!(checksum(&vec![Some(0), Some(2), None, Some(3)]), 2 + 9);
    assert_eq!(checksum(&Vec::new()), 0);
}

#[test]
fn find_space_gives_the_first_run_that_is_long_enough() {
    let d = disk();
    assert_eq!(find_space(&d, 1), Some(2));
    assert_eq!(find_space(&d, 3), Some(2));
    assert_eq!(find_space(&d, 4), None);
    assert_eq!(find_space(&d, 0), None);
    assert_eq!(find_space(&vec![None, None], 2), Some(0));
}

#[test]
fn find_last_file_gives_start_and_length() {
    let d = disk();
    assert_eq!(find_last_file(&d, d.len()), (40, 2));
    assert_eq!(find_last_file(&d, 40), (36, 4));
    assert_eq!(find_last_file(&d, 2), (0, 0));
    assert_eq!(find_last_file(&d, 0), (0, 0));
    assert_eq!(find_last_file(&d, 5), (2, 3));
}

#[test]
fn part1_packs_block_by_block() {
    assert_eq!(part1(disk()), 1928);
}

#[test]
fn part2_packs_file_by_file() {
    assert_eq!(part2(disk()), 2858);
    assert_eq!(part2(Vec::new()), 0);
}

fn claw(ax: usize, ay: usize, bx: usize, by: usize, px: usize, py: usize) -> Claw {
    Claw {
        a: Button { label: 'A', x: ax, y: ay },
        b: Button { label: 'B', x: bx, y: by },
        prize: Prize { x: px, y: py },
    }
}

fn claws() -> Vec<Claw> {
    vec![
        claw(94, 34, 22, 67, 8400, 5400),
        claw(26, 66, 67, 21, 12748, 12176),
        claw(17, 86, 84, 37, 7870, 6450),
        claw(69, 23, 27, 71, 18641, 10279),
    ]
}

#[test]
fn tokens_are_three_for_a_and_one_for_b() {
    assert_eq!(tokens((80, 40)), 280);
    assert_eq!(tokens((0, 0)), 0);
}

#[test]
fn hit_prize_checks_both_axes() {
    let c = claws();
    assert!(c[0].hit_prize((80, 40)));
    assert!(!c[0].hit_prize((80, 41)));
    assert!(!c[0].hit_prize((usize::MAX, usize::MAX)));
}

#[test]
fn part1_tokens_is_the_least_cost_or_nothing() {
    let c = claws();
    assert_eq!(c[0].part1_tokens(), Some(280));
    assert_eq!(c[1].part1_tokens(), None);
    assert_eq!(c[2].part1_tokens(), Some(200));
    assert_eq!(c[3].part1_tokens(), None);
    assert_eq!(claw(1, 1, 1, 1, 2, 2).part1_tokens(), Some(2));
}

#[test]
fn claws_part1_adds_the_least_costs() {
    assert_eq!(claws_part1(&claws()), 480);
}

#[test]
fn locks_and_keys_are_read_off_their_drawings() {
    let lock = LockKey::from_chars(&chars(&[
        "#####", ".####", ".####", ".####", ".#.#.", ".#...", ".....",
    ]));
    assert_eq!(lock.tumbler, TumblerType::Key);
    assert_eq!(lock.pins, vec![0, 5, 3, 4, 3]);
    let key = LockKey::from_chars(&chars(&[
        ".....", "#....", "#....", "#...#", "#.#.#", "#.###", "#####",
    ]));
    assert_eq!(key.tumbler, TumblerType::Lock);
    assert_eq!(key.pins, vec![5, 0, 2, 1, 3]);
    assert!(!fits(&lock, &key));
    let other = LockKey { tumbler: TumblerType::Lock, pins: vec![3, 0, 2, 0, 1] };
    assert!(fits(&lock, &other));
}

#[test]
fn filter_type_keeps_the_order() {
    let items = vec![
        LockKey { tumbler: TumblerType::Lock, pins: vec![1] },
        LockKey { tumbler: TumblerType::Key, pins: vec![2] },
        LockKey { tumbler: TumblerType::Lock, pins: vec![3] },
    ];
    let locks = filter_type(items, TumblerType::Lock);
    let pins: Vec<Vec<usize>> = locks.into_iter().map(|l| l.pins).collect();
    assert_eq!(pins, vec![vec![1], vec![3]]);
}
