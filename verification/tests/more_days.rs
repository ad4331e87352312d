use aoc24::days::day1::{count, distance, part1 as lists_part1, part2 as lists_part2};
use aoc24::days::day14::{has_long_line, part1 as robots_part1, part2 as robots_part2, robot_at, step_all, Robot};
use aoc24::days::day3::{part1 as memory_part1, part2 as memory_part2};
use aoc24::days::day7::{apply_checked, solve as calibrate, Calibration};
use aoc24::days::day8::{antennas_of, in_map, solve as antinodes, Antenna};

#[test]
fn lists_are_eleven_apart_and_thirty_one_alike() {
    let left = vec![3, 4, 2, 1, 3, 3];
    let right = vec![4, 3, 5, 3, 9, 3];
    assert_eq!(lists_part2(&left, &right), 31);
    assert_eq!(count(&right, 3), 3);
    assert_eq!(count(&right, 7), 0);
    assert_eq!(distance(&left, &right), 1 + 1 + 3 + 2 + 6 + 0);
    assert_eq!(lists_part1(left, right), 11);
}

#[test]
fn lists_are_sorted_before_they_are_paired() {
    assert_eq!(lists_part1(vec![5, 1], vec![1, 5]), 0);
    assert_eq!(lists_part1(vec![i32::MAX, 0], vec![0]), 0);
    assert_eq!(lists_part1(vec![-3], vec![4, 9]), 7);
    assert_eq!(lists_part1(Vec::new(), vec![1]), 0);
}

#[test]
fn multiplications_are_found_in_the_noise() {
    let text = b"xmul(2,4)%&mul[3,7]!@^do_not_mul(5,5)+mul(32,64]then(mul(11,8)mul(8,5))".to_vec();
    assert_eq!(memory_part1(&text), 161);
    assert_eq!(memory_part1(&b"mul(1234,5)mul(12,)mul(,3)mul( 1,2)mul(999,999)mul(1,2".to_vec()), 998001);
    assert_eq!(memory_part1(&Vec::new()), 0);
}

#[test]
fn multiplications_heed_the_switch() {
    let text = b"xmul(2,4)&mul[3,7]!^don't()_mul(5,5)+mul(32,64](mul(11,8)undo()?mul(8,5))".to_vec();
    assert_eq!(memory_part2(&text), 48);
    assert_eq!(memory_part2(&b"don't(1,2)mul(3,3)do(4,5)mul(2,2)mul()".to_vec()), 4);
    assert_eq!(memory_part2(&b"don'tmul(3,3)do(mul(2,2)".to_vec()), 13);
}

fn calibrations() -> Vec<Calibration> {
    let rows: [(usize, &[usize]); 9] = [
        (190, &[10, 19]),
        (3267, &[81, 40, 27]),
        (83, &[17, 5]),
        (156, &[15, 6]),
        (7290, &[6, 8, 6, 15]),
        (161011, &[16, 10, 13]),
        (192, &[17, 8, 14]),
        (21037, &[9, 7, 18, 13]),
        (292, &[11, 6, 16, 20]),
    ];
    rows.iter().map(|(total, values)| Calibration { total: *total, values: values.to_vec() }).collect()
}

#[test]
fn calibrations_come_true_with_the_right_operators() {
    assert_eq!(calibrate(&calibrations(), vec!['+', '*']), 3749);
    assert_eq!(calibrate(&calibrations(), vec!['+', '*', '|']), 11387);
    assert_eq!(calibrate(&calibrations(), Vec::new()), 0);
    let single = vec![Calibration { total: 7, values: vec![7] }];
    assert_eq!(calibrate(&single, Vec::new()), 7);
}

#[test]
fn calibration_is_worked_out_from_left_to_right() {
    let c = Calibration { total: 0, values: vec![6, 8, 6, 15] };
    assert_eq!(c.eval(&vec!['*', '|', '*']), 7290);
    assert_eq!(c.eval(&vec!['+', '+']), 20);
    assert_eq!(c.eval(&Vec::new()), 6);
    assert_eq!(apply_checked('|', 12, 0), Some(120));
    assert_eq!(apply_checked('|', 12, 345), Some(12345));
    assert_eq!(apply_checked('|', 0, usize::MAX), Some(usize::MAX));
    assert_eq!(apply_checked('|', 1, usize::MAX), None);
    assert_eq!(apply_checked('*', usize::MAX, 2), None);
    assert_eq!(apply_checked('+', usize::MAX, 1), None);
    assert_eq!(apply_checked('+', 2, 3), Some(5));
}

fn roof() -> Vec<Vec<char>> {
    [
        "............",
        "........0...",
        ".....0......",
        ".......0....",
        "....0.......",
        "......A.....",
        "............",
        "............",
        "........A...",
        ".........A..",
        "............",
        "............",
    ]
    .iter()
    .map(|l| l.chars().collect())
    .collect()
}

#[test]
fn antennas_make_fourteen_antinodes_and_thirty_four_along_the_lines() {
    let antennas = antennas_of(&roof());
    assert_eq!(antennas.len(), 7);
    assert_eq!(antennas[0], Antenna { frequency: '0', row: 1, col: 8 });
    assert_eq!(antinodes(&antennas, (12, 12), true), 14);
    assert_eq!(antinodes(&antennas, (12, 12), false), 34);
}

#[test]
fn antinodes_need_two_antennas_of_one_frequency() {
    let one = vec![Antenna { frequency: 'a', row: 1, col: 1 }];
    assert_eq!(antinodes(&one, (3, 3), true), 0);
    assert_eq!(antinodes(&one, (3, 3), false), 0);
    let two = vec![
        Antenna { frequency: 'a', row: 1, col: 1 },
        Antenna { frequency: 'b', row: 1, col: 2 },
    ];
    assert_eq!(antinodes(&two, (3, 4), true), 0);
    let pair = vec![
        Antenna { frequency: 'a', row: 1, col: 1 },
        Antenna { frequency: 'a', row: 1, col: 2 },
    ];
    assert_eq!(antinodes(&pair, (3, 4), true), 2);
    assert_eq!(antinodes(&pair, (3, 4), false), 4);
    assert!(in_map((3, 4), (2, 3)));
    assert!(!in_map((3, 4), (3, 0)));
    assert!(!in_map((3, 4), (0, -1)));
}

fn robots() -> Vec<Robot> {
    let rows = [
        (0, 4, 3, -3),
        (6, 3, -1, -3),
        (10, 3, -1, 2),
        (2, 0, 2, -1),
        (0, 0, 1, 3),
        (3, 0, -2, -2),
        (7, 6, -1, -3),
        (3, 0, -1, -2),
        (9, 3, 2, 3),
        (7, 3, -1, 2),
        (2, 4, 2, -3),
        (9, 5, -3, -3),
    ];
    rows.iter().map(|r| Robot { position: (r.0, r.1), velocity: (r.2, r.3) }).collect()
}

#[test]
fn robots_wrap_round_the_room() {
    let mut r = Robot { position: (2, 4), velocity: (2, -3) };
    let places: Vec<(i32, i32)> = (0..5)
        .map(|_| {
            r.step((11, 7));
            r.position
        })
        .collect();
    assert_eq!(places, vec![(4, 1), (6, 5), (8, 2), (10, 6), (1, 3)]);
    let mut far = Robot { position: (0, 0), velocity: (-30, 0) };
    far.step((11, 7));
    assert_eq!(far.position, (-8, 0));
}

#[test]
fn robots_give_a_safety_factor_of_twelve() {
    assert_eq!(robots_part1(robots(), (11, 7)), 12);
    let mut moved = robots();
    step_all(&mut moved, (11, 7));
    assert_eq!(moved[0].position, (3, 1));
    assert!(robot_at(&moved, (3, 1)));
    assert!(!robot_at(&moved, (0, 4)));
}

#[test]
fn a_long_line_takes_thirty_one_robots_side_by_side() {
    let line = |n: i32, y: i32| -> Vec<Robot> {
        (0..n).map(|x| Robot { position: (x + 3, y), velocity: (1, 0) }).collect()
    };
    assert!(has_long_line(&line(31, 2), (101, 103)));
    assert!(!has_long_line(&line(30, 2), (101, 103)));
    assert!(!has_long_line(&line(31, 2), (33, 103)));
    let mut gap = line(40, 5);
    gap.remove(20);
    assert!(!has_long_line(&gap, (101, 103)));
    assert_eq!(robots_part2(line(31, 2), (101, 103), 5), Some(1));
    let mut late = line(31, 2);
    late[30].velocity = (2, 0);
    late[30].position = (3 + 30 - 6, 2);
    assert_eq!(robots_part2(late, (101, 103), 10), Some(6));
    assert_eq!(robots_part2(robots(), (11, 7), 100), None);
}
