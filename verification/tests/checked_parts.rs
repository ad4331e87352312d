use aoc24::days::day11::{blink, blink2, count_stones, stone_count};
use aoc24::days::day14::{get_counts, part1 as safety_factor, Robot};
use aoc24::days::day17::Computer;
use aoc24::days::day19::{count_all_ways, count_ways, towel_patterns2};
use aoc24::days::day1::{likeness, part2 as likeness_sum};
use aoc24::days::day5::{part2 as reordered, sorted_by_rules};
use aoc24::days::day24::{adder_stage, wire_name, Gate};
use aoc24::plane::{is_rectangular, reaches};
use std::collections::HashMap;

fn cs(text: &str) -> Vec<char> {
    text.chars().collect()
}

fn chars(lines: &[&str]) -> Vec<Vec<char>> {
    lines.iter().map(|l| l.chars().collect()).collect()
}

#[test]
fn stones_are_counted_by_their_numbers() {
    let table = count_stones(&vec![125, 17, 125, 0]);
    assert_eq!(table, HashMap::from([(125, 2), (17, 1), (0, 1)]));
    assert!(count_stones(&vec![]).is_empty());
    assert_eq!(stone_count(&table), Some(4));
    assert_eq!(stone_count(&HashMap::new()), Some(0));
    assert_eq!(stone_count(&HashMap::from([(1, usize::MAX), (2, 1)])), None);
    assert_eq!(stone_count(&HashMap::from([(1, usize::MAX - 1), (2, 1)])), Some(usize::MAX));
}

#[test]
fn counted_stones_blink_like_listed_stones() {
    let once = blink2(HashMap::from([(125, 1), (17, 1)])).unwrap();
    assert_eq!(once, HashMap::from([(253000, 1), (1, 1), (7, 1)]));
    let both = blink2(HashMap::from([(0, 3), (1, 2), (10, 5)])).unwrap();
    assert_eq!(both, HashMap::from([(1, 8), (2024, 2), (0, 5)]));
    let twins = blink2(HashMap::from([(11, 4)])).unwrap();
    assert_eq!(twins, HashMap::from([(1, 8)]));
    assert_eq!(blink2(HashMap::from([(11, usize::MAX)])), None);
    assert_eq!(blink2(HashMap::from([(0, usize::MAX), (10, 1)])), None);
    assert_eq!(blink2(HashMap::new()), Some(HashMap::new()));

    let mut listed = vec![125, 17];
    let mut counted = count_stones(&listed);
    for _ in 0..25 {
        listed = blink(listed);
        counted = blink2(counted).unwrap();
        assert_eq!(counted, count_stones(&listed));
    }
    assert_eq!(stone_count(&counted), Some(55312));
    for _ in 25..75 {
        counted = blink2(counted).unwrap();
    }
    assert_eq!(stone_count(&counted), Some(65601038650482));
}

#[test]
fn likeness_is_nothing_where_a_sum_leaves_the_range() {
    let left = vec![3, 4, 2, 1, 3, 3];
    let right = vec![4, 3, 5, 3, 9, 3];
    assert_eq!(likeness(&left, &right), Some(31));
    assert_eq!(likeness(&left, &right), Some(likeness_sum(&left, &right)));
    assert_eq!(likeness(&vec![], &right), Some(0));
    assert_eq!(likeness(&left, &vec![]), Some(0));
    assert_eq!(likeness(&vec![i32::MAX], &vec![i32::MAX]), Some(i32::MAX));
    assert_eq!(likeness(&vec![i32::MAX], &vec![i32::MAX, i32::MAX]), None);
    assert_eq!(likeness(&vec![i32::MAX, 1], &vec![i32::MAX, 1]), None);
    assert_eq!(likeness(&vec![i32::MIN], &vec![i32::MIN]), Some(i32::MIN));
    assert_eq!(likeness(&vec![i32::MIN, -1], &vec![i32::MIN, -1]), None);
    assert_eq!(likeness(&vec![i32::MAX, -5, 5], &vec![i32::MAX, -5, 5]), Some(i32::MAX));
    assert_eq!(likeness(&vec![i32::MAX, 5, -5], &vec![i32::MAX, -5, 5]), None);
    assert_eq!(likeness(&vec![-2, -2], &vec![-2, 7, -2]), Some(-8));
}

#[test]
fn ways_are_counted_or_found_too_many() {
    let patterns = chars(&["r", "wr", "b", "g", "bwu", "rb", "gb", "br"]);
    assert_eq!(count_ways(&patterns, &cs("brwrr")), Some(2));
    assert_eq!(count_ways(&patterns, &cs("rrbgbr")), Some(6));
    assert_eq!(count_ways(&patterns, &cs("ubwu")), Some(0));
    assert_eq!(count_ways(&patterns, &cs("")), Some(1));
    assert_eq!(count_ways(&Vec::new(), &cs("r")), Some(0));
    assert_eq!(count_ways(&chars(&["", "r"]), &cs("rr")), Some(1));
    assert_eq!(towel_patterns2(&patterns, &cs("gbbr")), 4);
    let designs = chars(&["brwrr", "bggr", "gbbr", "rrbgbr", "ubwu", "bwurrg", "brgr", "bbrgwb"]);
    assert_eq!(count_all_ways(&patterns, &designs), Some(16));
    assert_eq!(count_all_ways(&patterns, &Vec::new()), Some(0));

    // With the patterns a and aa a run of n letters is laid out in as many
    // ways as the Fibonacci number after the n-th says.
    let runs = chars(&["a", "aa"]);
    let long: Vec<char> = std::iter::repeat('a').take(92).collect();
    assert_eq!(count_ways(&runs, &long), Some(12200160415121876738));
    let longer: Vec<char> = std::iter::repeat('a').take(93).collect();
    assert_eq!(count_ways(&runs, &longer), None);
    assert_eq!(count_all_ways(&runs, &vec![long.clone(), longer]), None);
    assert_eq!(count_all_ways(&runs, &vec![long.clone(), long.clone()]), None);
    assert_eq!(count_all_ways(&runs, &vec![long, cs("aaa")]), Some(12200160415121876741));
}

#[test]
fn maps_are_checked_for_their_shape() {
    assert!(reaches(&Vec::new()));
    assert!(reaches(&chars(&["ab", "cd"])));
    assert!(reaches(&chars(&["ab", "cde"])));
    assert!(!reaches(&chars(&["ab", "c"])));
    assert!(reaches(&chars(&["", "c"])));
    assert!(is_rectangular(&chars(&["ab", "cd"])));
    assert!(is_rectangular(&chars(&["a"])));
    assert!(!is_rectangular(&Vec::new()));
    assert!(!is_rectangular(&chars(&[""])));
    assert!(!is_rectangular(&chars(&["ab", "cde"])));
    assert!(!is_rectangular(&chars(&["ab", "c"])));
}

fn computer(a: usize, program: &[usize]) -> Computer {
    Computer { registers: vec![a, 0, 0], ip: 0, program: program.to_vec(), output: vec![] }
}

#[test]
fn only_sound_computers_are_run() {
    let mut cpu = computer(729, &[0, 1, 5, 4, 3, 0]);
    assert!(cpu.is_sound());
    assert_eq!(cpu.run_sound(1000), Some(true));
    assert_eq!(cpu.output, vec![4, 6, 3, 5, 6, 3, 5, 2, 1, 0]);

    let mut short = computer(1, &[0, 1, 5, 4, 3, 0]);
    assert_eq!(short.run_sound(2), Some(false));
    assert_eq!(short.output, vec![0]);
    assert_eq!(short.ip, 4);

    let mut odd = computer(1, &[0, 1, 5]);
    assert!(!odd.is_sound());
    assert_eq!(odd.run_sound(10), None);
    assert_eq!((odd.ip, odd.output.len(), odd.registers[0]), (0, 0, 1));
    assert!(!computer(1, &[8, 1]).is_sound());
    assert!(!computer(1, &[5, 7]).is_sound());
    assert!(computer(1, &[1, 7]).is_sound());
    assert!(!computer(1, &[3, 1]).is_sound());
    assert!(computer(1, &[3, 0]).is_sound());
    assert!(computer(1, &[]).is_sound());
    let mut midway = computer(1, &[0, 1]);
    midway.ip = 1;
    assert!(!midway.is_sound());
    let mut two = computer(1, &[0, 1]);
    two.registers.pop();
    assert!(!two.is_sound());
}

#[test]
fn many_robots_still_have_a_safety_factor() {
    let mut robots = Vec::new();
    for i in 0..300 {
        let corner = match i % 4 {
            0 => (0, 0),
            1 => (10, 0),
            2 => (0, 6),
            _ => (10, 6),
        };
        robots.push(Robot { position: corner, velocity: (0, 0) });
    }
    assert_eq!(safety_factor(robots, (11, 7)), 75 * 75 * 75 * 75);
    assert_eq!(safety_factor(Vec::new(), (11, 7)), 0);
}

fn gate(ina: &str, op: &str, inb: &str, out: &str) -> Gate {
    Gate { ina: cs(ina), inb: cs(inb), op: cs(op), out: cs(out) }
}

fn out(found: &Option<Gate>) -> Option<String> {
    found.as_ref().map(|g| g.out.iter().collect())
}

#[test]
fn wires_are_named_by_letter_and_bit() {
    assert_eq!(wire_name('x', 0), cs("x00"));
    assert_eq!(wire_name('y', 7), cs("y07"));
    assert_eq!(wire_name('z', 44), cs("z44"));
    assert_eq!(wire_name('x', 99), cs("x99"));
    for bit in 0..100 {
        assert_eq!(wire_name('x', bit), cs(&format!("x{:02}", bit)));
    }
}

#[test]
fn adder_stages_are_traced_gate_by_gate() {
    let gates = vec![
        gate("x00", "XOR", "y00", "z00"),
        gate("y00", "AND", "x00", "c00"),
        gate("x01", "XOR", "y01", "s01"),
        gate("x01", "AND", "y01", "a01"),
        gate("c00", "XOR", "s01", "z01"),
        gate("s01", "AND", "c00", "b01"),
        gate("a01", "OR", "b01", "c01"),
        gate("x02", "XOR", "y02", "s02"),
        gate("x02", "AND", "y02", "a02"),
        gate("s02", "AND", "c01", "b02"),
        gate("x03", "XOR", "y03", "s03"),
        gate("x03", "AND", "y03", "a03"),
        gate("x04", "XOR", "y04", "s04"),
    ];
    let first = adder_stage(&gates, &cs("x00"), &cs("y00"), None).unwrap();
    assert_eq!(first.ab_xor.out, cs("z00"));
    assert_eq!(first.ab_and.out, cs("c00"));
    assert!(first.oc_xor.is_none() && first.oc_and.is_none() && first.or_gate.is_none());
    assert_eq!(first.carry, Some(cs("c00")));

    let second = adder_stage(&gates, &cs("x01"), &cs("y01"), first.carry).unwrap();
    assert_eq!(second.ab_xor.out, cs("s01"));
    assert_eq!(second.ab_and.out, cs("a01"));
    assert_eq!(out(&second.oc_xor), Some("z01".to_string()));
    assert_eq!(out(&second.oc_and), Some("b01".to_string()));
    assert_eq!(out(&second.or_gate), Some("c01".to_string()));
    assert_eq!(second.carry, Some(cs("c01")));

    // The carries are joined by no gate: no carry goes out.
    let third = adder_stage(&gates, &cs("x02"), &cs("y02"), second.carry).unwrap();
    assert_eq!(out(&third.oc_xor), None);
    assert_eq!(out(&third.oc_and), Some("b02".to_string()));
    assert_eq!(out(&third.or_gate), None);
    assert_eq!(third.carry, None);

    // No gate takes the carry: it goes on as it came.
    let fourth = adder_stage(&gates, &cs("x03"), &cs("y03"), Some(cs("c01"))).unwrap();
    assert!(fourth.oc_xor.is_none() && fourth.oc_and.is_none() && fourth.or_gate.is_none());
    assert_eq!(fourth.carry, Some(cs("c01")));

    assert!(adder_stage(&gates, &cs("x04"), &cs("y04"), None).is_none());
    assert!(adder_stage(&gates, &cs("x05"), &cs("y05"), Some(cs("c01"))).is_none());
    assert!(adder_stage(&Vec::new(), &cs("x00"), &cs("y00"), None).is_none());
}

#[test]
fn robots_are_counted_by_their_positions() {
    let at = |x: i32, y: i32| Robot { position: (x, y), velocity: (1, -1) };
    let robots = vec![at(3, 4), at(0, 0), at(3, 4), at(4, 3), at(0, 0), at(3, 4)];
    assert_eq!(get_counts(&robots), vec![((3, 4), 3), ((0, 0), 2), ((4, 3), 1)]);
    assert_eq!(get_counts(&Vec::new()), vec![]);
    assert_eq!(get_counts(&vec![at(-1, 7)]), vec![((-1, 7), 1)]);
}

#[test]
fn pages_are_put_in_before_the_first_page_they_are_to_precede() {
    // The rules go round in a ring: no order of the three pages is valid.
    let ring = vec![(1, 2), (2, 3), (3, 1)];
    assert_eq!(sorted_by_rules(&ring, &vec![1, 2, 3]), Some(vec![3, 1, 2]));
    assert_eq!(sorted_by_rules(&ring, &vec![3, 2, 1]), Some(vec![1, 2, 3]));
    assert_eq!(reordered(&ring, &vec![vec![3, 2, 1]]), None);
    assert_eq!(reordered(&ring, &vec![vec![1, 2, 3]]), None);
    assert_eq!(reordered(&ring, &vec![vec![1, 2]]), Some(0));
    assert_eq!(reordered(&ring, &vec![vec![2, 1]]), Some(2));
    // The first rule for two pages counts.
    let both = vec![(2, 1), (1, 2)];
    assert_eq!(sorted_by_rules(&both, &vec![1, 2]), Some(vec![2, 1]));
    assert_eq!(reordered(&both, &vec![vec![1, 2]]), Some(-1));
    assert_eq!(reordered(&both, &vec![vec![i32::MAX, i32::MIN]]), None);
    let far = vec![(i32::MAX, 1), (1, i32::MAX)];
    assert_eq!(reordered(&far, &vec![vec![1, i32::MAX], vec![1, i32::MAX]]), None);
}
