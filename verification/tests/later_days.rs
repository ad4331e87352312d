use aoc24::days::day10::{solve_part1, solve_part2, TopoMap};
use aoc24::days::day11::{blink, count_digits, next_stones, power_of_ten};
use aoc24::days::day15::wide::{can_move, copy_map, move_block, Warehouse2};
use aoc24::days::day15::{gps, Direction, Warehouse};
use aoc24::days::day17::{shift_down, Computer};
use aoc24::days::day18::{
    adjacent as adjacent18, drop_bytes, first_cut, map_value as map_value18, memory_space,
    shortest_path as steps,
};
use aoc24::days::day19::{towel_patterns1, towel_patterns2};
use aoc24::days::day20::{
    adjacent as adjacent20, char_position, count_worth, find_cheats, manhatten,
    map_value as map_value20, shortest_path as track, Point,
};
use aoc24::days::day22::{evolved, get_price, nth, Secret, SecretPriceChanges};
use aoc24::days::day6::{Guard, Moving, State};

fn chars(lines: &[&str]) -> Vec<Vec<char>> {
    lines.iter().map(|l| l.chars().collect()).collect()
}

fn lines_of(map: &Vec<Vec<char>>) -> Vec<String> {
    map.iter().map(|l| l.iter().collect()).collect()
}

const LAB: [&str; 10] = [
    "....#.....",
    ".........#",
    "..........",
    "..#.......",
    ".......#..",
    "..........",
    ".#........",
    "........#.",
    "#.........",
    "......#...",
];

#[test]
fn guard_visits_forty_one_cells_and_leaves() {
    let map = chars(&LAB);
    let mut guard = Guard::new((6, 4), Moving::Up, 10, 10);
    assert_eq!(guard.patrol(&map), State::Leaving);
    assert_eq!(guard.visited_count(), 41);
}

#[test]
fn guard_steps_forward_turns_and_leaves() {
    let map = chars(&["..", ".#"]);
    let mut guard = Guard::new((0, 0), Moving::Right, 2, 2);
    assert_eq!(guard.step(&map), State::Moving);
    assert_eq!((guard.position, guard.moving), ((0, 1), Moving::Right));
    assert_eq!(guard.step(&map), State::Moving);
    assert_eq!((guard.position, guard.moving), ((0, 2), Moving::Right));
    assert_eq!(guard.step(&map), State::Leaving);
    assert_eq!(guard.visited_count(), 2);
    let mut guard = Guard::new((1, 0), Moving::Right, 2, 2);
    assert_eq!(guard.step(&map), State::Moving);
    assert_eq!(guard.position, (1, 1));
    assert_eq!(guard.step(&map), State::Moving);
    assert_eq!((guard.position, guard.moving), ((2, 0), Moving::Down));
}

#[test]
fn guard_loops_with_six_of_the_obstacles() {
    let map = chars(&LAB);
    let mut first = Guard::new((6, 4), Moving::Up, 10, 10);
    first.patrol(&map);
    let mut loops = 0;
    for y in 0..10 {
        for x in 0..10 {
            if (y, x) == (6, 4) || !first.visited[y * 10 + x] {
                continue;
            }
            let mut blocked = map.clone();
            blocked[y][x] = '#';
            let mut guard = Guard::new((6, 4), Moving::Up, 10, 10);
            if guard.patrol(&blocked) == State::Looping {
                loops += 1;
            }
        }
    }
    assert_eq!(loops, 6);
}

#[test]
fn guard_boxed_in_is_found_to_loop() {
    let map = chars(&["###", "#.#", "###"]);
    let mut guard = Guard::new((1, 1), Moving::Up, 3, 3);
    assert_eq!(guard.patrol(&map), State::Looping);
}

fn topo() -> TopoMap {
    let rows = [
        "89010123", "78121874", "87430965", "96549874", "45678903", "32019012", "01329801",
        "10456732",
    ];
    TopoMap {
        map: rows
            .iter()
            .map(|l| l.chars().map(|c| c.to_digit(10).unwrap()).collect())
            .collect(),
    }
}

#[test]
fn trailheads_score_thirty_six_and_rate_eighty_one() {
    let t = topo();
    let heads = t.trailheads();
    assert_eq!(heads.len(), 9);
    assert_eq!(heads[0], (0, 2));
    let scores: Vec<usize> = heads.iter().map(|h| solve_part1(&t, *h).len()).collect();
    assert_eq!(scores, vec![5, 6, 5, 3, 1, 3, 5, 3, 5]);
    let ratings: Vec<usize> = heads.iter().map(|h| solve_part2(&t, *h)).collect();
    assert_eq!(ratings, vec![20, 24, 10, 4, 1, 4, 5, 8, 5]);
}

#[test]
fn peaks_are_reported_once_each() {
    let t = TopoMap {
        map: vec![vec![0, 1, 2, 3, 4, 5, 6, 7], vec![1, 2, 3, 4, 5, 6, 7, 8], vec![2, 3, 4, 5, 6, 7, 8, 9]],
    };
    assert_eq!(solve_part1(&t, (0, 0)), vec![(2, 7)]);
    assert_eq!(solve_part2(&t, (0, 0)), 36);
    assert_eq!(solve_part1(&t, (2, 7)), vec![(2, 7)]);
    assert_eq!(solve_part2(&t, (2, 7)), 1);
}

#[test]
fn topo_map_knows_its_size_and_levels() {
    let t = topo();
    assert_eq!(t.size(), (8, 8));
    assert!(t.in_map((7, 7)));
    assert!(!t.in_map((8, 0)));
    assert!(!t.in_map((0, -1)));
    assert_eq!(t.level((0, 0)), Some(8));
    assert_eq!(t.level((-1, 0)), None);
}

#[test]
fn stones_change_by_the_three_rules() {
    assert_eq!(next_stones(0), vec![1]);
    assert_eq!(next_stones(1), vec![2024]);
    assert_eq!(next_stones(10), vec![1, 0]);
    assert_eq!(next_stones(99), vec![9, 9]);
    assert_eq!(next_stones(999), vec![2021976]);
    assert_eq!(next_stones(1000), vec![10, 0]);
    assert_eq!(next_stones(253000), vec![253, 0]);
    assert_eq!(count_digits(0), 0);
    assert_eq!(count_digits(9), 1);
    assert_eq!(count_digits(10), 2);
    assert_eq!(count_digits(usize::MAX), usize::MAX.to_string().len() as u32);
    assert_eq!(power_of_ten(0), 1);
    assert_eq!(power_of_ten(3), 1000);
}

#[test]
fn blinking_twenty_five_times_gives_55312_stones() {
    let mut stones = vec![125, 17];
    stones = blink(stones);
    assert_eq!(stones, vec![253000, 1, 7]);
    for _ in 1..6 {
        stones = blink(stones);
    }
    assert_eq!(stones.len(), 22);
    for _ in 6..25 {
        stones = blink(stones);
    }
    assert_eq!(stones.len(), 55312);
}

#[test]
fn robot_pushes_boxes_in_the_small_warehouse() {
    let map = chars(&[
        "########", "#..O.O.#", "##..O..#", "#...O..#", "#.#.O..#", "#...O..#", "#......#",
        "########",
    ]);
    let mut w = Warehouse { map, robot: (2, 2) };
    for m in "<^^>>>vv<v>>v<<".chars() {
        w.step(m);
    }
    assert_eq!(
        lines_of(&w.map),
        vec![
            "########", "#....OO#", "##.....#", "#.....O#", "#.#O...#", "#...O..#", "#...O..#",
            "########"
        ]
    );
    assert_eq!(w.robot, (4, 4));
    assert_eq!(w.gps_sum(), 2028);
    assert_eq!(gps(&w.map, '#') > 0, true);
}

#[test]
fn robot_stays_before_a_wall_and_a_blocked_row() {
    let mut w = Warehouse { map: chars(&["#####", "#.OO#", "#####"]), robot: (1, 1) };
    w.step('>');
    assert_eq!(w.robot, (1, 1));
    w.step('^');
    assert_eq!(w.robot, (1, 1));
    w.step('<');
    assert_eq!(w.robot, (1, 1));
    assert_eq!(lines_of(&w.map), vec!["#####", "#.OO#", "#####"]);
}

#[test]
fn robot_pushes_wide_boxes() {
    let map = chars(&[
        "##############",
        "##......##..##",
        "##..........##",
        "##....[][]..##",
        "##....[]....##",
        "##..........##",
        "##############",
    ]);
    let mut w = Warehouse2 { map, robot: (3, 10) };
    for m in "<vv<<^^<<^^".chars() {
        w.step(m);
    }
    assert_eq!(
        lines_of(&w.map),
        vec![
            "##############",
            "##...[].##..##",
            "##.....[]...##",
            "##....[]....##",
            "##..........##",
            "##..........##",
            "##############",
        ]
    );
    assert_eq!(w.robot, (2, 5));
    assert_eq!(gps(&w.map, '['), 105 + 207 + 306);
}

#[test]
fn wide_boxes_that_are_barred_do_not_move() {
    let map = chars(&[
        "##########", "##......##", "##.[]...##", "##[][]..##", "##.[]...##", "##......##",
        "##########",
    ]);
    let w = Warehouse2 { map: copy_map(&map), robot: (5, 4) };
    let levels = w.connected_blocks((4, 3), Direction::Up);
    assert_eq!(levels, vec![vec![(4, 3)], vec![(3, 2), (3, 4)], vec![(2, 3)]]);
    let mut w = w;
    assert!(w.move_blocks((4, 3), Direction::Up));
    assert_eq!(
        lines_of(&w.map),
        vec![
            "##########", "##.[]...##", "##[][]..##", "##.[]...##", "##......##", "##......##",
            "##########"
        ]
    );
    assert!(!w.move_blocks((3, 3), Direction::Up));
    assert_eq!(lines_of(&w.map)[1], "##.[]...##");
    assert!(can_move(&w.map, (3, 3), Direction::Down));
    assert!(!can_move(&w.map, (3, 3), Direction::Up));
    assert!(can_move(&w.map, (2, 2), Direction::Left) == false);
    let mut map = copy_map(&w.map);
    assert!(move_block(&mut map, (3, 3), Direction::Right));
    assert_eq!(lines_of(&map)[3], "##..[]..##");
    assert!(move_block(&mut map, (3, 4), Direction::Left));
    assert!(move_block(&mut map, (3, 3), Direction::Down));
    assert_eq!(lines_of(&map)[4], "##.[]...##");
}

fn computer(a: usize, b: usize, c: usize, program: &[usize]) -> Computer {
    Computer { registers: vec![a, b, c], ip: 0, program: program.to_vec(), output: Vec::new() }
}

#[test]
fn computer_runs_the_small_programs() {
    let mut cpu = computer(0, 0, 9, &[2, 6]);
    assert!(cpu.run(10));
    assert_eq!(cpu.registers[1], 1);
    let mut cpu = computer(10, 0, 0, &[5, 0, 5, 1, 5, 4]);
    assert!(cpu.run(10));
    assert_eq!(cpu.output, vec![0, 1, 2]);
    let mut cpu = computer(2024, 0, 0, &[0, 1, 5, 4, 3, 0]);
    assert!(cpu.run(1000));
    assert_eq!(cpu.output, vec![4, 2, 5, 6, 7, 7, 7, 7, 3, 1, 0]);
    assert_eq!(cpu.registers[0], 0);
    let mut cpu = computer(0, 29, 0, &[1, 7]);
    assert!(cpu.step());
    assert_eq!(cpu.registers[1], 26);
    assert!(!cpu.step());
    let mut cpu = computer(0, 2024, 43690, &[4, 0]);
    assert!(cpu.run(1));
    assert_eq!(cpu.registers[1], 44354);
    let mut cpu = computer(729, 0, 0, &[0, 1, 5, 4, 3, 0]);
    assert!(cpu.run(1000));
    assert_eq!(cpu.output, vec![4, 6, 3, 5, 6, 3, 5, 2, 1, 0]);
}

#[test]
fn computer_stops_when_the_fuel_is_spent() {
    let mut cpu = computer(1, 0, 0, &[3, 0]);
    assert!(!cpu.run(5));
    assert_eq!(cpu.ip, 0);
    let mut cpu = computer(8, 0, 0, &[6, 1, 7, 2]);
    assert!(cpu.run(5));
    assert_eq!(cpu.registers, vec![8, 4, 2]);
    assert_eq!(cpu.combo_operand(3), 3);
    assert_eq!(cpu.combo_operand(4), 8);
    assert_eq!(cpu.combo_operand(6), 2);
    assert_eq!(shift_down(1000, 3), 125);
    assert_eq!(shift_down(1000, 200), 0);
}

fn bytes() -> Vec<(usize, usize)> {
    vec![
        (5, 4), (4, 2), (4, 5), (3, 0), (2, 1), (6, 3), (2, 4), (1, 5), (0, 6), (3, 3), (2, 6),
        (5, 1), (1, 2), (5, 5), (2, 5), (6, 5), (1, 4), (0, 4), (6, 4), (1, 1), (6, 1), (1, 0),
        (0, 5), (1, 6), (2, 0),
    ]
}

#[test]
fn memory_is_crossed_in_twenty_two_steps_and_cut_by_the_byte_at_6_1() {
    let mut map = memory_space(7);
    assert_eq!(steps(&map), Some(12));
    drop_bytes(&mut map, &bytes(), 0, 12);
    assert_eq!(map[4][5], '#');
    assert_eq!(map[0][1], '.');
    assert_eq!(steps(&map), Some(22));
    assert_eq!(first_cut(map, &bytes(), 12), Some((6, 1)));
    assert_eq!(first_cut(memory_space(7), &bytes(), 24), None);
}

#[test]
fn memory_corners_count_as_the_walk_needs_them() {
    assert_eq!(steps(&chars(&["#"])), Some(0));
    assert_eq!(steps(&chars(&["#."])), Some(1));
    assert_eq!(steps(&chars(&[".#"])), None);
    assert_eq!(steps(&chars(&["..", "#."])), Some(2));
    assert_eq!(steps(&chars(&[".#.", "##.", "..."])), None);
}

#[test]
fn neighbours_and_map_values() {
    assert_eq!(adjacent18((2, 3)), vec![(2, 4), (2, 2), (3, 3), (1, 3)]);
    assert_eq!(adjacent20((0, 0)), vec![(0, 1), (0, -1), (1, 0), (-1, 0)]);
    let map = chars(&["ab", "cd"]);
    assert_eq!(map_value18(&map, (1, 0)), 'c');
    assert_eq!(map_value18(&map, (2, 0)), '#');
    assert_eq!(map_value20(&map, (0, 1)), 'b');
    assert_eq!(map_value20(&map, (0, -1)), '#');
    assert_eq!(map_value20(&Vec::new(), (0, 0)), '#');
}

#[test]
fn towels_lay_out_the_designs() {
    let patterns = chars(&["r", "wr", "b", "g", "bwu", "rb", "gb", "br"]);
    let designs = chars(&[
        "brwrr", "bggr", "gbbr", "rrbgbr", "ubwu", "bwurrg", "brgr", "bbrgwb", "",
    ]);
    let ways: Vec<usize> = designs.iter().map(|d| towel_patterns2(&patterns, d)).collect();
    assert_eq!(ways, vec![2, 1, 4, 6, 0, 1, 2, 0, 1]);
    let can: Vec<bool> = designs.iter().map(|d| towel_patterns1(&patterns, d)).collect();
    assert_eq!(can, vec![true, true, true, true, false, true, true, false, true]);
    assert!(!towel_patterns1(&chars(&[""]), &chars(&["a"])[0]));
}

const TRACK: [&str; 15] = [
    "###############",
    "#...#...#.....#",
    "#.#.#.#.#.###.#",
    "#S#...#.#.#...#",
    "#######.#.#.###",
    "#######.#.#...#",
    "#######.#.###.#",
    "###..E#...#...#",
    "###.#######.###",
    "#...###...#...#",
    "#.#####.#.###.#",
    "#.#...#.#.#...#",
    "#.#.#.#.#.#.###",
    "#...#...#...###",
    "###############",
];

#[test]
fn track_takes_eighty_four_steps_and_cheats_save_time() {
    let map = chars(&TRACK);
    let start = char_position(&map, 'S');
    let end = char_position(&map, 'E');
    assert_eq!((start, end), ((3, 1), (7, 5)));
    let path = track(&map, start, end).unwrap();
    assert_eq!(path.len(), 85);
    assert_eq!(path[0], start);
    assert_eq!(path[84], end);
    let short = find_cheats(&path, 2);
    assert_eq!(count_worth(&short, 1), 44);
    assert_eq!(count_worth(&short, 64), 1);
    assert_eq!(count_worth(&short, 65), 0);
    let long = find_cheats(&path, 20);
    assert_eq!(count_worth(&long, 50), 285);
    assert_eq!(count_worth(&long, 76), 3);
}

#[test]
fn track_may_end_on_a_wall_but_not_begin_on_one() {
    let map = chars(&["..#", "#.."]);
    assert_eq!(track(&map, (0, 0), (0, 2)), Some(vec![(0, 0), (0, 1), (0, 2)]));
    assert_eq!(track(&map, (0, 2), (0, 0)), None);
    assert_eq!(track(&map, (1, 0), (1, 0)), Some(vec![(1, 0)]));
    assert_eq!(track(&map, (-1, 0), (0, 0)), None);
    assert_eq!(track(&chars(&[".#."]), (0, 0), (0, 2)), None);
}

#[test]
fn cheats_are_listed_pair_by_pair() {
    let path = vec![(0, 0), (0, 1), (1, 1), (1, 0)];
    assert_eq!(find_cheats(&path, 1), vec![0, 2, 0, 0]);
    assert_eq!(find_cheats(&path, 2), vec![0, 0, 2, 0, 0, 0]);
    assert_eq!(find_cheats(&vec![(0, 0), (0, 1), (0, 0)], 5), vec![0]);
    assert_eq!(manhatten(Point { x: 1, y: -2 }, Point { x: -3, y: 4 }), 10);
    assert_eq!(manhatten(Point { x: 0, y: 0 }, Point { x: 0, y: 0 }), 0);
}

#[test]
fn secrets_follow_each_other() {
    let mut s = Secret::new(123);
    let drawn: Vec<usize> = (0..10).map(|_| s.next().unwrap()).collect();
    assert_eq!(
        drawn,
        vec![
            15887950, 16495136, 527345, 704524, 1553684, 12683156, 11100544, 12249484, 7753432,
            5908254
        ]
    );
    assert_eq!(s.limit, 1990);
    assert_eq!(evolved(123), 15887950);
    assert_eq!(nth(Secret::new(1), 2000), Some(8685429));
    assert_eq!(nth(Secret::new(10), 2000), Some(4700978));
    assert_eq!(nth(Secret::new(100), 2000), Some(15273692));
    assert_eq!(nth(Secret::new(2024), 2000), Some(8667524));
    assert_eq!(nth(Secret::new(1), 2001), None);
    let mut spent = Secret { number: 5, limit: 0 };
    assert_eq!(spent.next(), None);
    assert_eq!(spent.number, 5);
}

#[test]
fn prices_change_and_sell() {
    let mut changes = SecretPriceChanges { secret: Secret::new(123) };
    let first: Vec<isize> = (0..9).map(|_| changes.next().unwrap()).collect();
    assert_eq!(first, vec![-3, 6, -1, -1, 0, 2, -2, 0, -2]);
    assert_eq!(get_price(Secret::new(123), (-1, -1, 0, 2)), Some(6));
    let wanted = (-2, 1, -1, 3);
    assert_eq!(get_price(Secret::new(1), wanted), Some(7));
    assert_eq!(get_price(Secret::new(2), wanted), Some(7));
    assert_eq!(get_price(Secret::new(3), wanted), None);
    assert_eq!(get_price(Secret::new(2024), wanted), Some(9));
    assert_eq!(get_price(Secret { number: 123, limit: 5 }, (-1, -1, 0, 2)), None);
    assert_eq!(get_price(Secret { number: 123, limit: 6 }, (-1, -1, 0, 2)), Some(6));
}
