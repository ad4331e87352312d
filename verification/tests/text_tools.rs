use aoc24::days::day13::{Button, Claw, Prize};
use aoc24::days::day14::Robot;
use aoc24::days::day17::Computer;
use aoc24::days::day1::parse as parse_lists;
use aoc24::days::day24::{input_from_groups, input_from_text, Gate};
use aoc24::days::day25::{is_drawn, LockKey, TumblerType};
use aoc24::days::day7::Calibration;
use aoc24::names::{before_or_same, contains, copy, same, sort};
use aoc24::text::{
    chars_of, digit, digit_rows, digits, group, group_i32, group_usize, joined_lines, lines, name_pairs,
    numbers_i32, numbers_usize, pairs, parse_i32, parse_usize, sections, separator, split, table, table_i32,
    table_usize, word_table, words,
};

fn cs(text: &str) -> Vec<char> {
    text.chars().collect()
}

fn texts(list: &[&str]) -> Vec<Vec<char>> {
    list.iter().map(|t| cs(t)).collect()
}

fn strings(list: &Vec<Vec<char>>) -> Vec<String> {
    list.iter().map(|t| t.iter().collect()).collect()
}

fn found(list: &[Option<&str>]) -> Vec<Option<Vec<char>>> {
    list.iter().map(|g| g.map(cs)).collect()
}

#[test]
fn chars_of_gives_the_characters_in_order() {
    assert_eq!(chars_of("a-b"), vec!['a', '-', 'b']);
    assert_eq!(chars_of(""), Vec::<char>::new());
    assert_eq!(separator(','), vec![',']);
}

#[test]
fn digit_reads_the_ten_digits_only() {
    assert_eq!(digit('0'), Some(0));
    assert_eq!(digit('7'), Some(7));
    assert_eq!(digit('9'), Some(9));
    assert_eq!(digit('a'), None);
    assert_eq!(digit('/'), None);
    assert_eq!(digit(':'), None);
}

#[test]
fn parse_usize_agrees_with_the_standard_reading() {
    let max = usize::MAX.to_string();
    let over = format!("{}0", usize::MAX);
    for text in ["0", "7", "+7", "0042", "1234567890", "", "+", "-", "-0", "-5", "1a", " 1", "1 ", "++1", max.as_str(), over.as_str(), "18446744073709551616"] {
        assert_eq!(parse_usize(&cs(text)), text.parse::<usize>().ok(), "{:?}", text);
    }
    assert_eq!(parse_usize(&cs("190")), Some(190));
}

#[test]
fn parse_i32_agrees_with_the_standard_reading() {
    for text in ["0", "-0", "+0", "12", "-12", "+12", "2147483647", "2147483648", "-2147483648", "-2147483649", "", "-", "+", "--1", "1-", "99999999999999999999"] {
        assert_eq!(parse_i32(&cs(text)), text.parse::<i32>().ok(), "{:?}", text);
    }
    assert_eq!(parse_i32(&cs("-101")), Some(-101));
}

#[test]
fn lines_agree_with_the_standard_lines() {
    for text in ["", "a", "a\n", "a\nb", "a\r\nb\r\n", "\n", "\n\n", "a\n\nb", "a\r", "a\r\n\r\nb", "ab\ncd\nef\n", "\r\n", "a\rb\n"] {
        let expected: Vec<String> = text.lines().map(|l| l.to_string()).collect();
        assert_eq!(strings(&lines(&cs(text))), expected, "{:?}", text);
    }
    assert_eq!(strings(&lines(&cs("ab\ncd"))), vec!["ab", "cd"]);
}

#[test]
fn split_agrees_with_the_standard_split() {
    let cases = [
        ("a,b,c", ","),
        ("", ","),
        (",", ","),
        ("a,,b", ","),
        (",a,", ","),
        ("47|53", "|"),
        ("190: 10 19", ": "),
        ("a\n\nb\n\n", "\n\n"),
        ("aaa", "aa"),
        ("aaaa", "aa"),
        ("abab", "ab"),
        ("x", "xyz"),
        ("a: b: c", ": "),
    ];
    for (text, sep) in cases {
        let expected: Vec<String> = text.split(sep).map(|p| p.to_string()).collect();
        assert_eq!(strings(&split(&cs(text), &cs(sep))), expected, "{:?} at {:?}", text, sep);
    }
    assert_eq!(strings(&split(&cs("r, wr, b"), &cs(", "))), vec!["r", "wr", "b"]);
}

#[test]
fn sections_stand_between_empty_lines() {
    let parts = sections(&cs("a\nb\n\nc\n"));
    assert_eq!(strings(&parts), vec!["a\nb", "c\n"]);
    assert_eq!(strings(&sections(&cs("abc"))), vec!["abc"]);
}

#[test]
fn words_agree_with_the_standard_words() {
    for text in ["", " ", "a", " a ", "3   4", "1 2\t3\n4", "  10 19  ", "7 6 4 2 1"] {
        let expected: Vec<String> = text.split_whitespace().map(|p| p.to_string()).collect();
        assert_eq!(strings(&words(&cs(text))), expected, "{:?}", text);
    }
    assert_eq!(strings(&words(&cs("3   4"))), vec!["3", "4"]);
}

#[test]
fn numbers_are_read_one_by_one_or_not_at_all() {
    assert_eq!(numbers_i32(&texts(&["1", "-2", "+3"])), Some(vec![1, -2, 3]));
    assert_eq!(numbers_i32(&texts(&["1", "x"])), None);
    assert_eq!(numbers_i32(&texts(&[])), Some(vec![]));
    assert_eq!(numbers_usize(&texts(&["0", "3", "5"])), Some(vec![0, 3, 5]));
    assert_eq!(numbers_usize(&texts(&["0", "-3"])), None);
    assert_eq!(digits(&cs("2333133121414131402")).map(|d| d.len()), Some(19));
    assert_eq!(digits(&cs("12345")), Some(vec![1, 2, 3, 4, 5]));
    assert_eq!(digits(&cs("12a45")), None);
    assert_eq!(digits(&cs("")), Some(vec![]));
}

#[test]
fn tables_hold_the_pieces_of_every_line() {
    let t = table(&cs("47|53\n97|13\n"), &cs("|"));
    assert_eq!(t.len(), 2);
    assert_eq!(strings(&t[0]), vec!["47", "53"]);
    assert_eq!(strings(&t[1]), vec!["97", "13"]);
    assert_eq!(table_i32(&t), Some(vec![vec![47, 53], vec![97, 13]]));
    assert_eq!(pairs(&table_i32(&t).unwrap()), Some(vec![(47, 53), (97, 13)]));
    assert_eq!(pairs(&vec![vec![1, 2], vec![3]]), None);
    assert_eq!(pairs(&vec![vec![1, 2, 3]]), None);
    let w = word_table(&cs("7 6 4\n1 -2\n\n"));
    assert_eq!(w.len(), 3);
    assert_eq!(table_i32(&w), Some(vec![vec![7, 6, 4], vec![1, -2], vec![]]));
    assert_eq!(table_usize(&w), None);
    assert_eq!(table_usize(&word_table(&cs("125 17"))), Some(vec![vec![125, 17]]));
    assert_eq!(table_i32(&word_table(&cs("1 b"))), None);
}

#[test]
fn name_pairs_want_two_names_a_row() {
    let t = table(&cs("kh-tc\nqp-kh\n"), &cs("-"));
    assert_eq!(name_pairs(t), Some(vec![(cs("kh"), cs("tc")), (cs("qp"), cs("kh"))]));
    assert_eq!(name_pairs(table(&cs("kh-tc\nqp\n"), &cs("-"))), None);
    assert_eq!(name_pairs(table(&cs("a-b-c"), &cs("-"))), None);
}

#[test]
fn digit_rows_read_a_map_of_heights() {
    assert_eq!(digit_rows(&cs("012\n345\n")), Some(vec![vec![0, 1, 2], vec![3, 4, 5]]));
    assert_eq!(digit_rows(&cs("012\n3x5\n")), None);
    assert_eq!(digit_rows(&cs("")), Some(vec![]));
}

#[test]
fn joined_lines_drop_the_line_ends() {
    assert_eq!(joined_lines(&cs("ab\ncd\r\nef")), cs("abcdef"));
    assert_eq!(joined_lines(&cs("")), cs(""));
}

#[test]
fn groups_are_picked_by_their_place() {
    let g = found(&[Some("p=1,-2"), Some("1"), Some("-2"), None, Some("x")]);
    assert_eq!(group(&g, 0), Some(&cs("p=1,-2")));
    assert_eq!(group(&g, 3), None);
    assert_eq!(group(&g, 5), None);
    assert_eq!(group_usize(&g, 1), Some(1));
    assert_eq!(group_usize(&g, 2), None);
    assert_eq!(group_i32(&g, 2), Some(-2));
    assert_eq!(group_i32(&g, 3), None);
    assert_eq!(group_i32(&g, 4), None);
    assert_eq!(group_i32(&g, 9), None);
}

#[test]
fn names_compare_and_sort_character_by_character() {
    assert!(same(&cs("abc"), &cs("abc")));
    assert!(!same(&cs("abc"), &cs("abd")));
    assert!(!same(&cs("abc"), &cs("ab")));
    assert_eq!(copy(&cs("z09")), cs("z09"));
    assert!(contains(&texts(&["a", "bc"]), &cs("bc")));
    assert!(!contains(&texts(&["a", "bc"]), &cs("b")));
    let cases = ["", "a", "ab", "b", "z00", "z01", "z10", "aa", "Z", "é"];
    for a in cases {
        for b in cases {
            assert_eq!(before_or_same(&cs(a), &cs(b)), a <= b, "{:?} {:?}", a, b);
        }
    }
    let mut expected: Vec<String> = cases.iter().map(|c| c.to_string()).collect();
    expected.reverse();
    let given = texts(&expected.iter().map(|s| s.as_str()).collect::<Vec<_>>());
    expected.sort();
    assert_eq!(strings(&sort(given)), expected);
    assert_eq!(strings(&sort(texts(&["z01", "z00", "z01"]))), vec!["z00", "z01", "z01"]);
}

#[test]
fn lists_are_read_as_two_columns() {
    let text = "3   4\n4   3\n2   5\n1   3\n3   9\n3   3\n";
    assert_eq!(parse_lists(&cs(text)), Some((vec![3, 4, 2, 1, 3, 3], vec![4, 3, 5, 3, 9, 3])));
    assert_eq!(parse_lists(&cs("3 4\n5\n")), None);
    assert_eq!(parse_lists(&cs("3 4\n5 x\n")), None);
    assert_eq!(parse_lists(&cs("")), Some((vec![], vec![])));
}

#[test]
fn buttons_and_prizes_are_read_from_their_lines() {
    let a = Button::from_text(&cs("Button A: X+94, Y+34")).unwrap();
    assert_eq!((a.label, a.x, a.y), ('A', 94, 34));
    let b = Button::from_text(&cs("Button B: X+22, Y+67")).unwrap();
    assert_eq!((b.label, b.x, b.y), ('B', 22, 67));
    assert!(Button::from_text(&cs("Button A: X-94, Y+34")).is_none());
    assert!(Button::from_text(&cs("Prize: X=8400, Y=5400")).is_none());
    assert!(Button::from_text(&cs("Button A: X+99999999999999999999999, Y+34")).is_none());
    let p = Prize::from_text(&cs("Prize: X=8400, Y=5400")).unwrap();
    assert_eq!((p.x, p.y), (8400, 5400));
    assert!(Prize::from_text(&cs("Prize: X=8400")).is_none());
    let g = found(&[Some("Button A: X+94, Y+34"), Some("A"), Some("94"), Some("34")]);
    let a = Button::from_groups(&g).unwrap();
    assert_eq!((a.label, a.x, a.y), ('A', 94, 34));
    assert!(Button::from_groups(&found(&[Some("x"), Some("A"), Some("94")])).is_none());
    let first = Button::from_groups(&found(&[Some("x"), Some("BA"), Some("94"), Some("34")])).unwrap();
    assert_eq!(first.label, 'B');
    assert!(Button::from_groups(&found(&[Some("x"), Some(""), Some("94"), Some("34")])).is_none());
    let p = Prize::from_groups(&found(&[Some("x"), Some("7"), Some("8")])).unwrap();
    assert_eq!((p.x, p.y), (7, 8));
    assert!(Prize::from_groups(&found(&[Some("x"), Some("7"), None])).is_none());
}

#[test]
fn a_claw_is_read_from_three_lines() {
    let claw = Claw::from_text(&cs("Button A: X+94, Y+34\nButton B: X+22, Y+67\nPrize: X=8400, Y=5400")).unwrap();
    assert_eq!((claw.a.x, claw.a.y, claw.b.x, claw.b.y), (94, 34, 22, 67));
    assert_eq!((claw.prize.x, claw.prize.y), (8400, 5400));
    assert_eq!(claw.part1_tokens(), Some(280));
    assert!(Claw::from_text(&cs("Button A: X+94, Y+34\nButton B: X+22, Y+67")).is_none());
    assert!(Claw::from_text(&cs("Button A: X+94, Y+34\nnothing\nPrize: X=8400, Y=5400")).is_none());
}

#[test]
fn a_robot_is_read_from_its_line() {
    let r = Robot::from_text(&cs("p=0,4 v=3,-3")).unwrap();
    assert_eq!((r.position, r.velocity), ((0, 4), (3, -3)));
    let r = Robot::from_text(&cs("p=9,5 v=-3,-3")).unwrap();
    assert_eq!((r.position, r.velocity), ((9, 5), (-3, -3)));
    assert!(Robot::from_text(&cs("p=0,4")).is_none());
    assert!(Robot::from_text(&cs("p=0,4 v=3,99999999999")).is_none());
    let r = Robot::from_groups(&found(&[Some("x"), Some("2"), Some("4"), Some("2"), Some("-3")])).unwrap();
    assert_eq!((r.position, r.velocity), ((2, 4), (2, -3)));
    assert!(Robot::from_groups(&found(&[Some("x"), Some("2"), Some("4"), Some("2")])).is_none());
}

#[test]
fn a_computer_is_read_from_its_text() {
    let text = "Register A: 729\nRegister B: 0\nRegister C: 0\n\nProgram: 0,1,5,4,3,0\n";
    let mut cpu = Computer::from_text(&cs(text)).unwrap();
    assert_eq!(cpu.registers, vec![729, 0, 0]);
    assert_eq!(cpu.program, vec![0, 1, 5, 4, 3, 0]);
    assert_eq!(cpu.ip, 0);
    assert!(cpu.output.is_empty());
    assert!(cpu.run(1000));
    assert_eq!(cpu.output, vec![4, 6, 3, 5, 6, 3, 5, 2, 1, 0]);
    assert!(Computer::from_text(&cs("Register A: 729\nRegister B: 0\n\nProgram: 0,1")).is_none());
    assert!(Computer::from_text(&cs("Register A: 729\nRegister B: 0\nRegister C: 0\n\nProgram: 0,,1")).is_none());
    let g = found(&[Some("x"), Some("1"), Some("2"), Some("3"), Some("4,5")]);
    let cpu = Computer::from_groups(&g).unwrap();
    assert_eq!(cpu.registers, vec![1, 2, 3]);
    assert_eq!(cpu.program, vec![4, 5]);
    assert!(Computer::from_groups(&found(&[Some("x"), Some("1"), Some("2"), Some("3"), Some("4,")])).is_none());
    assert!(Computer::from_groups(&found(&[Some("x"), Some("1"), Some("-2"), Some("3"), Some("4")])).is_none());
}

#[test]
fn gates_and_wires_are_read_from_their_lines() {
    let gate = Gate::from_text(&cs("x00 AND y00 -> z00")).unwrap();
    assert_eq!((gate.ina, gate.op, gate.inb, gate.out), (cs("x00"), cs("AND"), cs("y00"), cs("z00")));
    let gate = Gate::from_text(&cs("ntg XOR fgs -> mjb")).unwrap();
    assert_eq!((gate.ina, gate.op, gate.inb, gate.out), (cs("ntg"), cs("XOR"), cs("fgs"), cs("mjb")));
    assert!(Gate::from_text(&cs("x00 NAND y00 -> z00")).is_none());
    assert!(Gate::from_text(&cs("x00: 1")).is_none());
    assert_eq!(input_from_text(&cs("x00: 1")), Some((cs("x00"), 1)));
    assert_eq!(input_from_text(&cs("y02: 0")), Some((cs("y02"), 0)));
    assert_eq!(input_from_text(&cs("y02: 2")), None);
    assert_eq!(input_from_groups(&found(&[Some("a: 1"), Some("a"), Some("1")])), Some((cs("a"), 1)));
    assert_eq!(input_from_groups(&found(&[Some("a: 0"), Some("a"), Some("0")])), Some((cs("a"), 0)));
    assert_eq!(input_from_groups(&found(&[Some("a: 0"), Some("a")])), None);
    let g = Gate::from_groups(&found(&[Some("x"), Some("a"), Some("OR"), Some("b"), Some("c")])).unwrap();
    assert_eq!((g.ina, g.op, g.inb, g.out), (cs("a"), cs("OR"), cs("b"), cs("c")));
    assert!(Gate::from_groups(&found(&[Some("x"), Some("a"), Some("OR"), None, Some("c")])).is_none());
}

#[test]
fn a_calibration_is_read_from_its_line() {
    let cal = Calibration::from_text(&cs("3267: 81 40 27")).unwrap();
    assert_eq!(cal.total, 3267);
    assert_eq!(cal.values, vec![81, 40, 27]);
    let cal = Calibration::from_text(&cs("190: 10 19")).unwrap();
    assert_eq!((cal.total, cal.values), (190, vec![10, 19]));
    assert!(Calibration::from_text(&cs("190 10 19")).is_none());
    assert!(Calibration::from_text(&cs("190: 10 x")).is_none());
    assert!(Calibration::from_text(&cs("-190: 10 19")).is_none());
    assert!(Calibration::from_text(&cs("1: 2: 3")).is_none());
}

#[test]
fn a_drawing_needs_a_filled_cell_in_every_column() {
    let lock = texts(&["#####", ".####", ".####", ".####", ".#.#.", ".#...", "....."]);
    assert!(is_drawn(&lock));
    let key = texts(&[".....", "#....", "#....", "#...#", "#.#.#", "#.###", "#####"]);
    assert!(is_drawn(&key));
    let read = LockKey::from_block(&key).unwrap();
    assert_eq!(read.pins, vec![5, 0, 2, 1, 3]);
    assert!(!is_drawn(&Vec::new()));
    assert!(!is_drawn(&texts(&[""])));
    assert!(!is_drawn(&texts(&["#.", "#."])));
    assert!(!is_drawn(&texts(&["##", "#"])));
    assert!(!is_drawn(&texts(&["x#", "##"])));
    assert!(LockKey::from_block(&texts(&["#.", "#."])).is_none());
    let first = LockKey::from_block(&lock).unwrap();
    assert_eq!(first.pins, vec![0, 5, 3, 4, 3]);
    let other = LockKey::from_chars(&lock);
    assert_eq!(other.pins, first.pins);
    assert!(first.tumbler == other.tumbler);
    assert!(first.tumbler != read.tumbler);
    let _ = TumblerType::Lock;
}
