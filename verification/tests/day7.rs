use aoc_2020_rust::day7::parse_input;
use aoc_2020_rust::day7::task1;
use aoc_2020_rust::day7::task2;
use aoc_2020_rust::day7::Bag;

const TEST1_INPUT: &str = "light red bags contain 1 bright white bag, 2 muted yellow bags.
dark orange bags contain 3 bright white bags, 4 muted yellow bags.
bright white bags contain 1 shiny gold bag.
muted yellow bags contain 2 shiny gold bags, 9 faded blue bags.
shiny gold bags contain 1 dark olive bag, 2 vibrant plum bags.
dark olive bags contain 3 faded blue bags, 4 dotted black bags.
vibrant plum bags contain 5 faded blue bags, 6 dotted black bags.
faded blue bags contain no other bags.
dotted black bags contain no other bags.";

#[test]
fn test_parse() {
    let parsed = parse_input(TEST1_INPUT);
    assert_eq!(parsed.len(), 9);
}

#[test]
fn test_can_contain() {
    let parsed = parse_input(TEST1_INPUT);
    let mut res: usize = 0;
    let mut i: usize = 0;
    while i < parsed.len() {
        if parsed.get_at(i).can_contain("shiny gold", &parsed) {
            res += 1;
        }
        i += 1;
    }
    assert_eq!(res, 4);
}

#[test]
fn test_contains() {
    let parsed = parse_input(TEST1_INPUT);
    let res = parsed.get("shiny gold").unwrap().contains(&parsed);
    assert_eq!(res, 32);
}

#[test]
fn test_parse_line() {
    let bag = Bag::parse("light red bags contain 1 bright white bag, 2 muted yellow bags.");
    assert_eq!(bag.color, "light red");
    assert_eq!(bag.contains.len(), 2);
    assert_eq!(bag.contains[0].0, "bright white");
    assert_eq!(bag.contains[0].1, 1);
    assert_eq!(bag.contains[1].0, "muted yellow");
    assert_eq!(bag.contains[1].1, 2);
}

#[test]
fn test_parse_empty_rule() {
    let bag = Bag::parse("faded blue bags contain no other bags.");
    assert_eq!(bag.color, "faded blue");
    assert_eq!(bag.contains.len(), 0);
}

#[test]
fn test_tasks() {
    assert_eq!(task1(TEST1_INPUT), 4);
    assert_eq!(task2(TEST1_INPUT), 32);
}
