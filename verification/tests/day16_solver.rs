use aoc24::days::day16::grid::{Cell, Classification, ConstructionError, Grid};
use aoc24::days::day16::solver::{solve, Outcome};
use aoc24::days::day16::{adjacent, char_position, moving_index, shortest_path, Moving};

fn chars(lines: &[&str]) -> Vec<Vec<char>> {
    lines.iter().map(|l| l.chars().collect()).collect()
}

fn cells(lines: &[&str]) -> Vec<Vec<Cell>> {
    lines
        .iter()
        .map(|l| l.chars().map(|c| if c == '#' { Cell::Wall } else { Cell::Open }).collect())
        .collect()
}

fn grid(lines: &[&str], start: (usize, usize), facing: Moving, goal: (usize, usize)) -> Grid {
    Grid::new(cells(lines), start, facing, goal).unwrap()
}

fn step(facing: Moving) -> (isize, isize) {
    match facing {
        Moving::Right => (0, 1),
        Moving::Left => (0, -1),
        Moving::Up => (-1, 0),
        Moving::Down => (1, 0),
    }
}

/// Every route without a repeated state, by exhaustive search: the least
/// cost and the cells of all routes of that cost.
fn brute_force(
    lines: &[&str],
    start: (usize, usize),
    facing: Moving,
    goal: (usize, usize),
) -> Option<(usize, Vec<(usize, usize)>)> {
    let map = cells(lines);
    let mut best: Option<usize> = None;
    let mut routes: Vec<(usize, Vec<(usize, usize)>)> = Vec::new();
    let mut seen: Vec<(usize, usize, Moving)> = vec![(start.0, start.1, facing)];
    let mut path: Vec<(usize, usize)> = vec![start];
    walk(&map, goal, start, facing, 0, &mut seen, &mut path, &mut best, &mut routes);
    let least = best?;
    let mut on_best: Vec<(usize, usize)> = Vec::new();
    for (cost, route) in routes {
        if cost == least {
            for cell in route {
                if !on_best.contains(&cell) {
                    on_best.push(cell);
                }
            }
        }
    }
    on_best.sort();
    Some((least, on_best))
}

#[allow(clippy::too_many_arguments)]
fn walk(
    map: &Vec<Vec<Cell>>,
    goal: (usize, usize),
    at: (usize, usize),
    facing: Moving,
    cost: usize,
    seen: &mut Vec<(usize, usize, Moving)>,
    path: &mut Vec<(usize, usize)>,
    best: &mut Option<usize>,
    routes: &mut Vec<(usize, Vec<(usize, usize)>)>,
) {
    if at == goal {
        if best.map_or(true, |b| cost < b) {
            *best = Some(cost);
        }
        routes.push((cost, path.clone()));
        return;
    }
    for next in [Moving::Right, Moving::Left, Moving::Up, Moving::Down] {
        let (dy, dx) = step(next);
        let (y, x) = (at.0 as isize + dy, at.1 as isize + dx);
        if y < 0 || x < 0 || y as usize >= map.len() || x as usize >= map[0].len() {
            continue;
        }
        let to = (y as usize, x as usize);
        if map[to.0][to.1] == Cell::Wall || seen.contains(&(to.0, to.1, next)) {
            continue;
        }
        if path.contains(&to) {
            continue;
        }
        let price = if next == facing { 1 } else { 1001 };
        seen.push((to.0, to.1, next));
        path.push(to);
        walk(map, goal, to, next, cost + price, seen, path, best, routes);
        path.pop();
        seen.pop();
    }
}

fn reached(out: Outcome) -> (usize, Vec<(usize, usize)>) {
    match out {
        Outcome::Reached { min_cost, optimal_cells } => (min_cost, optimal_cells),
        Outcome::Unreachable => panic!("no route"),
    }
}

#[test]
fn straight_corridor_costs_four_and_holds_all_cells() {
    let g = grid(&["....."], (0, 0), Moving::Right, (0, 4));
    let (cost, cells) = reached(solve(&g));
    assert_eq!(cost, 4);
    assert_eq!(cells, vec![(0, 0), (0, 1), (0, 2), (0, 3), (0, 4)]);
}

#[test]
fn corridor_walked_against_the_facing_costs_a_turn() {
    let g = grid(&["....."], (0, 4), Moving::Right, (0, 0));
    let (cost, cells) = reached(solve(&g));
    assert_eq!(cost, 1004);
    assert_eq!(cells.len(), 5);
}

#[test]
fn single_corner_costs_steps_and_one_turn() {
    let g = grid(&["...", "##.", "##."], (0, 0), Moving::Right, (2, 2));
    let (cost, cells) = reached(solve(&g));
    assert_eq!(cost, 4 + 1000);
    assert_eq!(cells, vec![(0, 0), (0, 1), (0, 2), (1, 2), (2, 2)]);
}

#[test]
fn wide_corner_costs_steps_and_one_turn() {
    let lines = ["....", "....", "##..", "##.."];
    let g = grid(&lines, (0, 0), Moving::Right, (3, 3));
    let (cost, cells) = reached(solve(&g));
    assert_eq!(cost, 6 + 1000);
    assert_eq!(cells, vec![(0, 0), (0, 1), (0, 2), (0, 3), (1, 3), (2, 3), (3, 3)]);
}

#[test]
fn two_equal_routes_around_a_block_are_both_reported() {
    let g = grid(&["...", ".#.", "..."], (1, 0), Moving::Right, (1, 2));
    let (cost, cells) = reached(solve(&g));
    assert_eq!(cost, 3004);
    assert_eq!(
        cells,
        vec![(0, 0), (0, 1), (0, 2), (1, 0), (1, 2), (2, 0), (2, 1), (2, 2)]
    );
}

#[test]
fn sealed_goal_is_unreachable() {
    let g = grid(&["..#.", "..#.", "####"], (0, 0), Moving::Right, (0, 3));
    assert_eq!(solve(&g), Outcome::Unreachable);
}

#[test]
fn start_on_goal_costs_nothing() {
    let g = grid(&["..", ".."], (1, 1), Moving::Up, (1, 1));
    let (cost, cells) = reached(solve(&g));
    assert_eq!(cost, 0);
    assert_eq!(cells, vec![(1, 1)]);
}

#[test]
fn reversal_costs_one_turn_only() {
    let g = grid(&["..."], (0, 1), Moving::Right, (0, 0));
    let (cost, _) = reached(solve(&g));
    assert_eq!(cost, 1001);
}

const SMALL: [&[&str]; 5] = [
    &["....", ".##.", "...."],
    &[".....", ".#.#.", ".....", ".#.#.", "....."],
    &["#...", ".#..", "...."],
    &["..", ".."],
    &["....", "....", "...."],
];

#[test]
fn least_cost_and_cells_agree_with_exhaustive_search() {
    for lines in SMALL {
        let rows = lines.len();
        let cols = lines[0].len();
        for facing in [Moving::Right, Moving::Left, Moving::Up, Moving::Down] {
            let start = (rows - 1, 0);
            let goal = (0, cols - 1);
            let g = grid(lines, start, facing, goal);
            let expected = brute_force(lines, start, facing, goal).unwrap();
            let (cost, cells) = reached(solve(&g));
            assert_eq!((cost, cells), expected);
        }
    }
}

#[test]
fn cells_hold_start_and_goal() {
    for lines in SMALL {
        let start = (lines.len() - 1, 0);
        let goal = (0, lines[0].len() - 1);
        let g = grid(lines, start, Moving::Right, goal);
        let (_, cells) = reached(solve(&g));
        assert!(cells.contains(&start));
        assert!(cells.contains(&goal));
    }
}

#[test]
fn solving_twice_gives_the_same_outcome() {
    for lines in SMALL {
        let g = grid(lines, (lines.len() - 1, 0), Moving::Right, (0, lines[0].len() - 1));
        assert_eq!(solve(&g), solve(&g));
    }
}

#[test]
fn a_wall_off_the_best_routes_keeps_the_cost_and_one_on_them_never_lowers_it() {
    for lines in SMALL {
        let start = (lines.len() - 1, 0);
        let goal = (0, lines[0].len() - 1);
        let g = grid(lines, start, Moving::Right, goal);
        let (cost, best) = reached(solve(&g));
        for row in 0..lines.len() {
            for col in 0..lines[0].len() {
                if (row, col) == start || (row, col) == goal {
                    continue;
                }
                let mut walled = cells(lines);
                walled[row][col] = Cell::Wall;
                let w = Grid::new(walled, start, Moving::Right, goal).unwrap();
                match solve(&w) {
                    Outcome::Reached { min_cost, .. } => {
                        if best.contains(&(row, col)) {
                            assert!(min_cost >= cost);
                        } else {
                            assert_eq!(min_cost, cost);
                        }
                    }
                    Outcome::Unreachable => assert!(best.contains(&(row, col))),
                }
            }
        }
    }
}

const FIRST_MAZE: [&str; 15] = [
    "###############",
    "#.......#....E#",
    "#.#.###.#.###.#",
    "#.....#.#...#.#",
    "#.###.#####.#.#",
    "#.#.#.......#.#",
    "#.#.#####.###.#",
    "#...........#.#",
    "###.#.#####.#.#",
    "#...#.....#.#.#",
    "#.#.#.###.#.#.#",
    "#.....#...#.#.#",
    "#.###.#.#.#.#.#",
    "#S..#.....#...#",
    "###############",
];

#[test]
fn shortest_path_of_the_first_maze() {
    assert_eq!(shortest_path(&chars(&FIRST_MAZE)), Ok(Some((7036, 45))));
}

#[test]
fn shortest_path_reports_a_sealed_goal() {
    assert_eq!(shortest_path(&chars(&["S#E"])), Ok(None));
}

#[test]
fn shortest_path_rejects_maps_that_are_no_grid() {
    assert_eq!(shortest_path(&chars(&[])), Err(ConstructionError::InconsistentRows));
    assert_eq!(shortest_path(&chars(&["S.", "E"])), Err(ConstructionError::InconsistentRows));
    assert_eq!(shortest_path(&chars(&["..E"])), Err(ConstructionError::NoStart));
    assert_eq!(shortest_path(&chars(&["S.."])), Err(ConstructionError::NoGoal));
}

#[test]
fn parse_takes_the_first_start_and_goal() {
    let g = Grid::parse(&chars(&["#E.", "S.E", "S##"])).unwrap();
    assert_eq!(g.start(), (1, 0));
    assert_eq!(g.goal(), (0, 1));
    assert_eq!(g.start_facing(), Moving::Right);
    assert_eq!(g.rows(), 3);
    assert_eq!(g.cols(), 3);
    assert_eq!(g.classify(0, 0), Classification::Wall);
    assert_eq!(g.classify(2, 0), Classification::Open);
}

#[test]
fn new_reports_each_defect() {
    let open = || cells(&["..", ".#"]);
    assert_eq!(
        Grid::new(Vec::new(), (0, 0), Moving::Right, (0, 0)).err(),
        Some(ConstructionError::InconsistentRows)
    );
    assert_eq!(
        Grid::new(vec![Vec::new()], (0, 0), Moving::Right, (0, 0)).err(),
        Some(ConstructionError::InconsistentRows)
    );
    assert_eq!(
        Grid::new(cells(&["..", "."]), (0, 0), Moving::Right, (0, 1)).err(),
        Some(ConstructionError::InconsistentRows)
    );
    assert_eq!(
        Grid::new(open(), (1, 1), Moving::Right, (0, 0)).err(),
        Some(ConstructionError::NoStart)
    );
    assert_eq!(
        Grid::new(open(), (2, 0), Moving::Right, (0, 0)).err(),
        Some(ConstructionError::NoStart)
    );
    assert_eq!(
        Grid::new(open(), (0, 0), Moving::Right, (1, 1)).err(),
        Some(ConstructionError::NoGoal)
    );
    assert_eq!(
        Grid::new(open(), (0, 0), Moving::Right, (0, 2)).err(),
        Some(ConstructionError::NoGoal)
    );
    assert!(Grid::new(open(), (0, 0), Moving::Down, (1, 0)).is_ok());
}

#[test]
fn classify_tells_walls_open_cells_and_the_outside() {
    let g = grid(&[".#", ".."], (0, 0), Moving::Right, (1, 1));
    assert_eq!(g.classify(0, 0), Classification::Open);
    assert_eq!(g.classify(0, 1), Classification::Wall);
    assert_eq!(g.classify(-1, 0), Classification::OutOfBounds);
    assert_eq!(g.classify(0, -1), Classification::OutOfBounds);
    assert_eq!(g.classify(2, 0), Classification::OutOfBounds);
    assert_eq!(g.classify(0, 2), Classification::OutOfBounds);
}

#[test]
fn adjacent_lists_right_left_down_up() {
    assert_eq!(
        adjacent((5, 7)),
        vec![
            (5, 8, Moving::Right),
            (5, 6, Moving::Left),
            (6, 7, Moving::Down),
            (4, 7, Moving::Up)
        ]
    );
}

#[test]
fn moving_index_numbers_the_directions() {
    assert_eq!(moving_index(Moving::Right), 0);
    assert_eq!(moving_index(Moving::Left), 1);
    assert_eq!(moving_index(Moving::Up), 2);
    assert_eq!(moving_index(Moving::Down), 3);
}

#[test]
fn char_position_finds_the_first_occurrence() {
    let map = chars(&["..E", "S.E"]);
    assert_eq!(char_position(&map, 'S'), (1, 0));
    assert_eq!(char_position(&map, 'E'), (0, 2));
}
