use aoc24::days::day10::{part1 as scores, part2 as ratings, TopoMap};
use aoc24::days::day12::{all_areas, get_area_perimeter, in_map, part1 as fence_price, part2 as bulk_price, sides};
use aoc24::days::day15::wide::{is_sound as wide_is_sound, widen, Warehouse2};
use aoc24::days::day15::{take_robot, Warehouse};
use aoc24::days::day17::{find_copy, Computer};
use aoc24::days::day19::{part1 as possible_designs, part2 as design_ways};
use aoc24::days::day22::{part1 as secret_sum, part2 as best_sale, sell_all};
use aoc24::days::day23::{
    all_nodes, are_connected, is_linked, most_connected, neighbour_table, node_connections, node_interestions,
    part1 as parties, starts_with_t,
};
use aoc24::days::day24::{find_gate, get, solve as circuit, swap_outputs, Gate, Wires};
use aoc24::days::day25::{count_fitting, filter_type, LockKey, TumblerType};
use aoc24::days::day4::{count_x_mas, count_xmas};
use aoc24::days::day5::{every_pair_ordered, has_rule, is_valid, part2 as reordered, sorted_by_rules};
use aoc24::days::day6::{part1 as patrol_cells, part2 as patrol_traps};
use aoc24::days::day9::{expand, part1 as pack_blocks, part2 as pack_files};
use aoc24::plane::{char_or_wall, neighbours};
use aoc24::slots::{slot_count, slot_of};
use std::collections::{HashMap, HashSet};

fn cs(text: &str) -> Vec<char> {
    text.chars().collect()
}

fn chars(lines: &[&str]) -> Vec<Vec<char>> {
    lines.iter().map(|l| l.chars().collect()).collect()
}

fn strings(list: &Vec<Vec<char>>) -> Vec<String> {
    list.iter().map(|t| t.iter().collect()).collect()
}

#[test]
fn word_search_counts_eighteen_and_nine() {
    let search = chars(&[
        "MMMSXXMASM", "MSAMXMSMSA", "AMXSXMAAMM", "MSAMASMSMX", "XMASAMXAMM", "XXAMMXXAMA", "SMSMSASXSS",
        "SAXAMASAAA", "MAMMMXMMMM", "MXMXAXMASX",
    ]);
    assert_eq!(count_xmas(&search), 18);
    assert_eq!(count_x_mas(&search), 9);
    assert_eq!(count_xmas(&chars(&["XMAS"])), 1);
    assert_eq!(count_xmas(&chars(&["SAMX"])), 1);
    assert_eq!(count_xmas(&chars(&["XMA"])), 0);
    assert_eq!(count_x_mas(&chars(&["M.S", ".A.", "M.S"])), 1);
    assert_eq!(count_x_mas(&chars(&["M.S", ".A.", "S.M"])), 0);
}

fn rules() -> Vec<(i32, i32)> {
    vec![
        (47, 53), (97, 13), (97, 61), (97, 47), (75, 29), (61, 13), (75, 53), (29, 13), (97, 29), (53, 29),
        (61, 53), (97, 53), (61, 29), (47, 13), (75, 47), (97, 75), (47, 61), (75, 61), (47, 29), (75, 13),
        (53, 13),
    ]
}

fn updates() -> Vec<Vec<i32>> {
    vec![
        vec![75, 47, 61, 53, 29],
        vec![97, 61, 53, 29, 13],
        vec![75, 29, 13],
        vec![75, 97, 47, 61, 53],
        vec![61, 13, 29],
        vec![97, 13, 75, 29, 47],
    ]
}

#[test]
fn updates_are_put_in_order_by_the_rules() {
    let rules = rules();
    assert_eq!(sorted_by_rules(&rules, &vec![75, 97, 47, 61, 53]), Some(vec![97, 75, 47, 61, 53]));
    assert_eq!(sorted_by_rules(&rules, &vec![61, 13, 29]), Some(vec![61, 29, 13]));
    assert_eq!(sorted_by_rules(&rules, &vec![97, 13, 75, 29, 47]), Some(vec![97, 75, 47, 29, 13]));
    assert_eq!(sorted_by_rules(&rules, &vec![75, 47, 61, 53, 29]), Some(vec![75, 47, 61, 53, 29]));
    assert_eq!(sorted_by_rules(&rules, &vec![]), Some(vec![]));
    assert_eq!(sorted_by_rules(&rules, &vec![75, 1]), None);
    for update in updates() {
        let sorted = sorted_by_rules(&rules, &update).unwrap();
        assert!(is_valid(&rules, &sorted));
    }
    assert_eq!(reordered(&rules, &updates()), Some(123));
    assert_eq!(reordered(&rules, &vec![vec![75, 1]]), None);
    assert_eq!(reordered(&rules, &vec![vec![]]), None);
    assert_eq!(reordered(&rules, &vec![]), Some(0));
}

#[test]
fn rules_order_pairs_either_way_round() {
    let rules = rules();
    assert!(has_rule(&rules, 47, 53));
    assert!(has_rule(&rules, 53, 47));
    assert!(!has_rule(&rules, 47, 47));
    assert!(!has_rule(&rules, 47, 1));
    assert!(every_pair_ordered(&rules, &vec![75, 47, 61, 53, 29]));
    assert!(every_pair_ordered(&rules, &vec![29, 53, 61]));
    assert!(!every_pair_ordered(&rules, &vec![29, 53, 2]));
    assert!(every_pair_ordered(&rules, &vec![5]));
}

fn lab() -> Vec<Vec<char>> {
    chars(&[
        "....#.....", ".........#", "..........", "..#.......", ".......#..", "..........", ".#..^.....",
        "........#.", "#.........", "......#...",
    ])
}

#[test]
fn patrol_covers_forty_one_cells_and_six_traps() {
    assert_eq!(patrol_cells(&lab(), (6, 4)), 41);
    assert_eq!(patrol_traps(&lab(), (6, 4)), 6);
    assert_eq!(patrol_cells(&chars(&["."]), (0, 0)), 1);
    assert_eq!(patrol_cells(&chars(&["#", ".", "."]), (2, 0)), 2);
}

#[test]
fn dense_disk_maps_expand_to_blocks() {
    assert_eq!(
        expand(&vec![1, 2, 3, 4, 5]),
        vec![
            Some(0), None, None, Some(1), Some(1), Some(1), None, None, None, None, Some(2), Some(2), Some(2), Some(2),
            Some(2)
        ]
    );
    assert_eq!(expand(&vec![]), vec![]);
    assert_eq!(expand(&vec![0, 2, 1]), vec![None, None, Some(1)]);
    let dense: Vec<u32> = "2333133121414131402".chars().map(|c| c.to_digit(10).unwrap()).collect();
    let disk = expand(&dense);
    let drawn: String = disk.iter().map(|b| b.map_or('.', |f| char::from_digit(f as u32, 10).unwrap())).collect();
    assert_eq!(drawn, "00...111...2...333.44.5555.6666.777.888899");
    assert_eq!(pack_blocks(disk.clone()), 1928);
    assert_eq!(pack_files(disk), 2858);
}

#[test]
fn all_trailheads_score_and_rate() {
    let rows = ["89010123", "78121874", "87430965", "96549874", "45678903", "32019012", "01329801", "10456732"];
    let topo = TopoMap { map: rows.iter().map(|l| l.chars().map(|c| c.to_digit(10).unwrap()).collect()).collect() };
    assert_eq!(scores(&topo), Some(36));
    assert_eq!(ratings(&topo), Some(81));
    let flat = TopoMap { map: vec![vec![1, 2, 3]] };
    assert_eq!(scores(&flat), Some(0));
    assert_eq!(ratings(&flat), Some(0));
}

#[test]
fn garden_plots_are_fenced_region_by_region() {
    let small = chars(&["AAAA", "BBCD", "BBCC", "EEEC"]);
    let areas = all_areas(&small);
    assert_eq!(areas.len(), 5);
    let mut shapes: Vec<(char, usize, usize, usize)> = areas
        .iter()
        .map(|a| (small[a.0[0].0 as usize][a.0[0].1 as usize], a.0.len(), a.1.len(), sides(&a.1)))
        .collect();
    shapes.sort();
    assert_eq!(shapes, vec![('A', 4, 10, 4), ('B', 4, 8, 4), ('C', 4, 10, 8), ('D', 1, 4, 4), ('E', 3, 8, 4)]);
    assert_eq!(fence_price(&areas), 140);
    assert_eq!(bulk_price(&areas), 80);
    let (cells, fence) = get_area_perimeter(&small, (2, 3));
    assert_eq!(cells[0], (2, 3));
    let set: HashSet<(isize, isize)> = cells.iter().cloned().collect();
    assert_eq!(set, HashSet::from([(1, 2), (2, 2), (2, 3), (3, 3)]));
    assert_eq!(cells.len(), 4);
    assert_eq!(fence.len(), 10);
    assert!(in_map(&small, (3, 3)));
    assert!(!in_map(&small, (4, 0)));
    assert!(!in_map(&small, (0, -1)));
}

#[test]
fn garden_prices_of_the_larger_examples() {
    let holes = chars(&["OOOOO", "OXOXO", "OOOOO", "OXOXO", "OOOOO"]);
    let areas = all_areas(&holes);
    assert_eq!(areas.len(), 5);
    assert_eq!(fence_price(&areas), 772);
    assert_eq!(bulk_price(&areas), 436);
    let e_shape = chars(&["EEEEE", "EXXXX", "EEEEE", "EXXXX", "EEEEE"]);
    assert_eq!(bulk_price(&all_areas(&e_shape)), 236);
    let crossed = chars(&["AAAAAA", "AAABBA", "AAABBA", "ABBAAA", "ABBAAA", "AAAAAA"]);
    assert_eq!(bulk_price(&all_areas(&crossed)), 368);
    let large = chars(&[
        "RRRRIICCFF", "RRRRIICCCF", "VVRRRCCFFF", "VVRCCCJFFF", "VVVVCJJCFE", "VVIVCCJJEE", "VVIIICJJEE",
        "MIIIIIJJEE", "MIIISIJEEE", "MMMISSJEEE",
    ]);
    let areas = all_areas(&large);
    assert_eq!(areas.len(), 11);
    assert_eq!(fence_price(&areas), 1930);
    assert_eq!(bulk_price(&areas), 1206);
    assert_eq!(sides(&Vec::new()), 0);
}

#[test]
fn warehouse_is_read_from_a_map_and_run() {
    let map = chars(&[
        "########", "#..O.O.#", "##@.O..#", "#...O..#", "#.#.O..#", "#...O..#", "#......#", "########",
    ]);
    let (cleared, robot) = take_robot(map.clone()).unwrap();
    assert_eq!(robot, (2, 2));
    assert_eq!(cleared[2][2], '.');
    assert_eq!(cleared[1], map[1]);
    assert!(take_robot(chars(&["###", "#.#", "###"])).is_none());
    let mut w = Warehouse::from_map(map).unwrap();
    assert_eq!(w.robot, (2, 2));
    assert!(w.is_sound());
    w.run(&cs("<^^>>>vv<v>>v<<"));
    assert_eq!(
        strings(&w.map),
        vec!["########", "#....OO#", "##.....#", "#.....O#", "#.#O...#", "#...O..#", "#...O..#", "########"]
    );
    assert_eq!(w.robot, (4, 4));
    assert_eq!(w.gps_sum(), 2028);
    assert!(Warehouse::from_map(chars(&["###", "#.#", "###"])).is_none());
    let open = Warehouse { map: chars(&["...", "...", "..."]), robot: (1, 1) };
    assert!(!open.is_sound());
}

#[test]
fn wide_warehouse_is_widened_read_and_run() {
    let map = chars(&["#######", "#...#.#", "#.....#", "#..OO@#", "#..O..#", "#.....#", "#######"]);
    let wide = widen(&map).unwrap();
    assert_eq!(
        strings(&wide),
        vec![
            "##############",
            "##......##..##",
            "##..........##",
            "##....[][]@.##",
            "##....[]....##",
            "##..........##",
            "##############",
        ]
    );
    assert!(widen(&chars(&["#x#"])).is_none());
    let mut w = Warehouse2::from_map(wide).unwrap();
    assert_eq!(w.robot, (3, 10));
    assert!(wide_is_sound(&w));
    assert!(w.run(&cs("<vv<<^^<<^^")));
    assert_eq!(
        strings(&w.map),
        vec![
            "##############",
            "##...[].##..##",
            "##.....[]...##",
            "##....[]....##",
            "##..........##",
            "##..........##",
            "##############",
        ]
    );
    assert_eq!(w.robot, (2, 5));
    assert_eq!(w.gps_sum(), 618);
    assert!(Warehouse2::from_map(chars(&["####", "#..#", "####"])).is_none());
    let mut torn = Warehouse2 { map: chars(&["######", "#.[..#", "######"]), robot: (1, 1) };
    assert!(!wide_is_sound(&torn));
    assert!(!torn.run(&cs(">")));
    assert_eq!(torn.robot, (1, 1));
}

#[test]
fn computer_finds_the_value_that_copies_its_program() {
    let cpu = Computer { registers: vec![2024, 0, 0], ip: 0, program: vec![0, 3, 5, 4, 3, 0], output: vec![] };
    assert_eq!(find_copy(&cpu, 200_000, 1000), Some(117440));
    assert_eq!(find_copy(&cpu, 117_440, 1000), None);
    assert_eq!(find_copy(&cpu, 117_441, 1000), Some(117440));
    assert_eq!(find_copy(&cpu, 200_000, 3), None);
    let mut copy = Computer { registers: vec![117440, 0, 0], ip: 0, program: vec![0, 3, 5, 4, 3, 0], output: vec![] };
    assert!(copy.run(1000));
    assert_eq!(copy.output, copy.program);
}

#[test]
fn towel_designs_are_counted() {
    let patterns = chars(&["r", "wr", "b", "g", "bwu", "rb", "gb", "br"]);
    let designs = chars(&["brwrr", "bggr", "gbbr", "rrbgbr", "ubwu", "bwurrg", "brgr", "bbrgwb"]);
    assert_eq!(possible_designs(&patterns, &designs), 6);
    assert_eq!(design_ways(&patterns, &designs), 16);
    assert_eq!(possible_designs(&patterns, &Vec::new()), 0);
    assert_eq!(design_ways(&Vec::new(), &designs), 0);
}

fn best_by_windows(numbers: &[usize]) -> usize {
    let mut total: HashMap<(i64, i64, i64, i64), usize> = HashMap::new();
    for n in numbers {
        let mut secret = *n as u64;
        let mut prices = vec![(secret % 10) as i64];
        for _ in 0..2000 {
            secret = (secret ^ (secret * 64)) % 16777216;
            secret = (secret ^ (secret / 32)) % 16777216;
            secret = (secret ^ (secret * 2048)) % 16777216;
            prices.push((secret % 10) as i64);
        }
        let mut seen = HashSet::new();
        for i in 4..prices.len() {
            let key = (
                prices[i - 3] - prices[i - 4],
                prices[i - 2] - prices[i - 3],
                prices[i - 1] - prices[i - 2],
                prices[i] - prices[i - 1],
            );
            if seen.insert(key) {
                *total.entry(key).or_insert(0) += prices[i] as usize;
            }
        }
    }
    total.values().cloned().max().unwrap_or(0)
}

#[test]
fn secrets_sum_and_sell() {
    assert_eq!(secret_sum(&vec![1, 10, 100, 2024]), 37327623);
    assert_eq!(secret_sum(&vec![]), 0);
    assert_eq!(sell_all(&vec![1, 2, 3, 2024], (-2, 1, -1, 3)), 23);
    assert_eq!(sell_all(&vec![1], (-2, 1, -1, 3)), 7);
    assert_eq!(sell_all(&vec![2], (-2, 1, -1, 3)), 7);
    assert_eq!(sell_all(&vec![3], (-2, 1, -1, 3)), 0);
    assert_eq!(sell_all(&vec![2024], (-2, 1, -1, 3)), 9);
    assert_eq!(sell_all(&vec![123], (-1, -1, 0, 2)), 6);
    assert_eq!(best_by_windows(&[1, 2, 3, 2024]), 23);
}

#[test]
fn best_sale_agrees_with_a_count_by_windows() {
    assert_eq!(best_sale(&vec![123]), best_by_windows(&[123]));
    assert_eq!(best_sale(&vec![]), 0);
}

fn network() -> Vec<(Vec<char>, Vec<char>)> {
    [
        "kh-tc", "qp-kh", "de-cg", "ka-co", "yn-aq", "qp-ub", "cg-tb", "vc-aq", "tb-ka", "wh-tc", "yn-cg", "kh-ub",
        "ta-co", "de-co", "tc-td", "tb-wq", "wh-td", "ta-ka", "td-qp", "aq-cg", "wq-ub", "ub-vc", "de-ta", "wq-aq",
        "wq-vc", "wh-yn", "ka-de", "kh-ta", "co-tc", "wh-qp", "tb-vc", "td-yn",
    ]
    .iter()
    .map(|l| (cs(&l[0..2]), cs(&l[3..5])))
    .collect()
}

#[test]
fn network_nodes_and_their_links() {
    let net = network();
    let nodes = all_nodes(&net);
    assert_eq!(nodes.len(), 16);
    assert_eq!(nodes.iter().collect::<HashSet<_>>().len(), 16);
    assert_eq!(strings(&nodes)[0..4], ["kh", "tc", "qp", "de"]);
    assert!(is_linked(&net, &cs("kh"), &cs("tc")));
    assert!(is_linked(&net, &cs("tc"), &cs("kh")));
    assert!(!is_linked(&net, &cs("kh"), &cs("de")));
    assert!(are_connected(&chars(&["co", "de", "ka", "ta"]), &net));
    assert!(!are_connected(&chars(&["co", "de", "kh"]), &net));
    assert!(are_connected(&chars(&["co"]), &net));
    assert!(starts_with_t(&chars(&["co", "ta"])));
    assert!(!starts_with_t(&chars(&["co", "at"])));
    assert!(!starts_with_t(&Vec::new()));
    let near: HashSet<String> = strings(&node_connections(&net, &cs("co"))).into_iter().collect();
    assert_eq!(near, HashSet::from(["ka".to_string(), "ta".to_string(), "de".to_string(), "tc".to_string()]));
    assert_eq!(node_connections(&net, &cs("co")).len(), 4);
    assert!(node_connections(&net, &cs("zz")).is_empty());
}

#[test]
fn network_parties_and_the_largest_one() {
    let net = network();
    let nodes = all_nodes(&net);
    assert_eq!(parties(&nodes, &net), 7);
    let table = neighbour_table(&net, &nodes);
    assert_eq!(table.len(), 16);
    let sets: HashMap<String, HashSet<String>> = table
        .iter()
        .map(|(n, l)| (n.iter().collect(), l.iter().map(|x| x.iter().collect()).collect()))
        .collect();
    for (name, list) in &table {
        let name: String = name.iter().collect();
        let mut root = sets[&name].clone();
        root.insert(name.clone());
        let mut count = 0;
        for rc in list {
            let rc: String = rc.iter().collect();
            if root.intersection(&sets[&rc]).count() + 1 >= list.len() {
                count += 1;
            }
        }
        assert_eq!(node_interestions(&table, &cs(&name)), Some(count), "{}", name);
    }
    assert_eq!(node_interestions(&table, &cs("zz")), None);
    assert_eq!(strings(&most_connected(&table)), vec!["co", "de", "ka", "ta"]);
    assert!(most_connected(&Vec::new()).is_empty());
}

fn gate(ina: &str, op: &str, inb: &str, out: &str) -> Gate {
    Gate { ina: cs(ina), inb: cs(inb), op: cs(op), out: cs(out) }
}

#[test]
fn circuit_settles_to_its_number() {
    let inputs: Wires =
        vec![(cs("x00"), 1), (cs("x01"), 1), (cs("x02"), 1), (cs("y00"), 0), (cs("y01"), 1), (cs("y02"), 0)];
    let gates = vec![gate("x00", "AND", "y00", "z00"), gate("x01", "XOR", "y01", "z01"), gate("x02", "OR", "y02", "z02")];
    assert_eq!(circuit(&inputs, &gates), Some(4));
    let chained = vec![gate("a", "XOR", "x00", "z01"), gate("x00", "OR", "y00", "a"), gate("x01", "AND", "y01", "z00")];
    assert_eq!(circuit(&inputs, &chained), Some(1));
    let open = vec![gate("p", "AND", "q", "z00")];
    assert_eq!(circuit(&inputs, &open), None);
    assert_eq!(circuit(&inputs, &Vec::new()), Some(0));
    assert_eq!(get(&inputs, &cs("x01")), Some(1));
    assert_eq!(get(&inputs, &cs("y00")), Some(0));
    assert_eq!(get(&inputs, &cs("q")), None);
    let mut wires = inputs.clone();
    aoc24::days::day24::set(&mut wires, &cs("y00"), 1);
    aoc24::days::day24::set(&mut wires, &cs("q"), 1);
    assert_eq!(get(&wires, &cs("y00")), Some(1));
    assert_eq!(get(&wires, &cs("q")), Some(1));
    assert_eq!(get(&wires, &cs("x00")), Some(1));
    assert_eq!(circuit(&wires, &gates), Some(5));
}

#[test]
fn gates_are_found_by_their_inputs_and_rewired() {
    let gates = vec![gate("x00", "AND", "y00", "a"), gate("x00", "XOR", "y00", "b"), gate("y00", "AND", "x00", "c")];
    let found = find_gate(&gates, &cs("y00"), &cs("x00"), &cs("AND")).unwrap();
    assert_eq!(found.out, cs("a"));
    let found = find_gate(&gates, &cs("x00"), &cs("y00"), &cs("XOR")).unwrap();
    assert_eq!(found.out, cs("b"));
    assert!(find_gate(&gates, &cs("x00"), &cs("y00"), &cs("OR")).is_none());
    assert!(find_gate(&gates, &cs("x00"), &cs("x00"), &cs("AND")).is_none());
    let swaps = vec![(cs("a"), cs("b")), (cs("b"), cs("a"))];
    let rewired = swap_outputs(&gates, &swaps);
    let outs: Vec<String> = rewired.iter().map(|g| g.out.iter().collect()).collect();
    assert_eq!(outs, vec!["b", "a", "c"]);
    assert_eq!(rewired[0].ina, cs("x00"));
    assert_eq!(rewired[1].op, cs("XOR"));
    assert_eq!(rewired[2].inb, cs("x00"));
}

#[test]
fn three_pairs_of_lock_and_key_fit() {
    let blocks = [
        ["#####", ".####", ".####", ".####", ".#.#.", ".#...", "....."],
        ["#####", "##.##", ".#.##", "...##", "...#.", "...#.", "....."],
        [".....", "#....", "#....", "#...#", "#.#.#", "#.###", "#####"],
        [".....", ".....", "#.#..", "###..", "###.#", "###.#", "#####"],
        [".....", ".....", ".....", "#....", "#.#..", "#.#.#", "#####"],
    ];
    let all: Vec<LockKey> = blocks.iter().map(|b| LockKey::from_block(&chars(b)).unwrap()).collect();
    let locks = filter_type(all.iter().map(|l| LockKey { tumbler: l.tumbler, pins: l.pins.clone() }).collect(), TumblerType::Lock);
    let keys = filter_type(all, TumblerType::Key);
    assert_eq!(locks.len(), 3);
    assert_eq!(keys.len(), 2);
    assert_eq!(count_fitting(&locks, &keys), 3);
    assert_eq!(count_fitting(&locks, &Vec::new()), 0);
    assert_eq!(count_fitting(&Vec::new(), &keys), 0);
}

#[test]
fn neighbours_and_walls_off_the_map() {
    assert_eq!(neighbours((2, 3)), vec![(2, 4), (2, 2), (3, 3), (1, 3)]);
    assert_eq!(neighbours((0, 0)), vec![(0, 1), (0, -1), (1, 0), (-1, 0)]);
    let map = chars(&["ab", "cd"]);
    assert_eq!(char_or_wall(&map, (1, 0)), 'c');
    assert_eq!(char_or_wall(&map, (0, 1)), 'b');
    assert_eq!(char_or_wall(&map, (-1, 0)), '#');
    assert_eq!(char_or_wall(&map, (0, 2)), '#');
    assert_eq!(char_or_wall(&map, (2, 0)), '#');
    assert_eq!(char_or_wall(&Vec::new(), (0, 0)), '#');
}

#[test]
fn slots_are_numbered_row_by_row() {
    assert_eq!(slot_of(3, 5, 4, 0, 0, 0), 0);
    assert_eq!(slot_of(3, 5, 4, 0, 0, 3), 3);
    assert_eq!(slot_of(3, 5, 4, 0, 1, 0), 4);
    assert_eq!(slot_of(3, 5, 4, 1, 0, 0), 20);
    assert_eq!(slot_of(3, 5, 4, 2, 4, 3), 59);
    assert_eq!(slot_count(3, 5, 4), Some(60));
    assert_eq!(slot_count(0, 5, 4), Some(0));
    assert_eq!(slot_count(usize::MAX, 2, 1), None);
    assert_eq!(slot_count(usize::MAX, 2, 0), Some(0));
    assert_eq!(slot_count(usize::MAX, 1, 2), None);
}
