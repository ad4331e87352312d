use aoc24::days::day16::codec::{encode, move_at, start_id, step, weight};
use aoc24::days::day16::flags::cleared;
use aoc24::days::day16::frontier::Frontier;
use aoc24::days::day16::grid::{find_char, Cell, Grid};
use aoc24::days::day16::search::search;
use aoc24::days::day16::solver::best_goal_cost;
use aoc24::days::day16::trace::trace;
use aoc24::days::day16::Moving;

fn open_grid(rows: usize, cols: usize, start: (usize, usize), goal: (usize, usize)) -> Grid {
    Grid::new(vec![vec![Cell::Open; cols]; rows], start, Moving::Right, goal).unwrap()
}

#[test]
fn frontier_hands_out_cheapest_first() {
    let mut f = Frontier::new();
    assert_eq!(f.len(), 0);
    assert_eq!(f.pop_min(), None);
    f.push(7, 1);
    f.push(3, 2);
    f.push(5, 3);
    f.push(3, 4);
    assert_eq!(f.len(), 4);
    let first = f.pop_min().unwrap();
    let second = f.pop_min().unwrap();
    assert_eq!(first.0, 3);
    assert_eq!(second.0, 3);
    assert_ne!(first.1, second.1);
    assert_eq!(f.pop_min(), Some((5, 3)));
    assert_eq!(f.pop_min(), Some((7, 1)));
    assert_eq!(f.pop_min(), None);
}

#[test]
fn states_are_numbered_row_by_row_four_to_a_cell() {
    let g = open_grid(2, 3, (0, 0), (1, 2));
    assert_eq!(encode(&g, 0, 0, Moving::Right), 0);
    assert_eq!(encode(&g, 0, 0, Moving::Down), 3);
    assert_eq!(encode(&g, 0, 1, Moving::Left), 5);
    assert_eq!(encode(&g, 1, 2, Moving::Up), 22);
    assert_eq!(start_id(&g), 0);
}

#[test]
fn step_follows_the_four_moves() {
    let g = open_grid(2, 3, (0, 0), (1, 2));
    let from = encode(&g, 0, 1, Moving::Right);
    assert_eq!(step(&g, from, 0), (Moving::Right, Some(encode(&g, 0, 2, Moving::Right))));
    assert_eq!(step(&g, from, 1), (Moving::Left, Some(encode(&g, 0, 0, Moving::Left))));
    assert_eq!(step(&g, from, 2), (Moving::Down, Some(encode(&g, 1, 1, Moving::Down))));
    assert_eq!(step(&g, from, 3), (Moving::Up, None));
    assert_eq!(move_at(2), Moving::Down);
}

#[test]
fn weight_is_one_straight_on_and_a_thousand_and_one_otherwise() {
    let g = open_grid(1, 2, (0, 0), (0, 1));
    let id = encode(&g, 0, 0, Moving::Up);
    assert_eq!(weight(&g, id, Moving::Up), 1);
    assert_eq!(weight(&g, id, Moving::Down), 1001);
    assert_eq!(weight(&g, id, Moving::Left), 1001);
}

#[test]
fn search_records_least_costs_and_predecessors() {
    let g = open_grid(2, 2, (0, 0), (1, 1));
    let tables = search(&g);
    assert_eq!(tables.cost[start_id(&g)], Some(0));
    assert_eq!(tables.cost[encode(&g, 0, 1, Moving::Right)], Some(1));
    assert_eq!(tables.cost[encode(&g, 1, 0, Moving::Down)], Some(1001));
    assert_eq!(tables.cost[encode(&g, 1, 1, Moving::Down)], Some(1002));
    assert_eq!(tables.cost[encode(&g, 1, 1, Moving::Right)], Some(2002));
    assert_eq!(tables.cost[encode(&g, 0, 0, Moving::Down)], None);
    assert_eq!(
        tables.preds[encode(&g, 1, 1, Moving::Down)],
        vec![encode(&g, 0, 1, Moving::Right)]
    );
    assert_eq!(best_goal_cost(&g, &tables), Some(1002));
    let marked = trace(&g, &tables, 1002);
    assert!(marked[start_id(&g)]);
    assert!(marked[encode(&g, 0, 1, Moving::Right)]);
    assert!(marked[encode(&g, 1, 1, Moving::Down)]);
    assert!(!marked[encode(&g, 1, 0, Moving::Down)]);
    assert!(!marked[encode(&g, 1, 1, Moving::Right)]);
    assert!(!marked[encode(&g, 0, 1, Moving::Up)]);
}

#[test]
fn cleared_flags_are_all_unset() {
    assert_eq!(cleared(3), vec![false, false, false]);
    assert_eq!(cleared(0), Vec::<bool>::new());
}

#[test]
fn find_char_reads_row_by_row() {
    let map: Vec<Vec<char>> = vec!["ab".chars().collect(), "ba".chars().collect()];
    assert_eq!(find_char(&map, 'b'), Some((0, 1)));
    assert_eq!(find_char(&map, 'z'), None);
}
