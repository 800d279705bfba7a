use aoc_2020_rust::day6::get_input;
use aoc_2020_rust::day6::task1;
use aoc_2020_rust::day6::task2;

const TESTINPUT: &str = "abc

a
b
c

ab
ac

a
a
a
a

b";

#[test]
fn test_1() {
    assert_eq!(5, 5);
}

#[test]
fn test_groups_split() {
    let groups = get_input(TESTINPUT);
    assert_eq!(groups.len(), 5);
    assert_eq!(groups[0], "abc");
    assert_eq!(groups[1], "a\nb\nc");
}

#[test]
fn test_task1_anyone() {
    assert_eq!(task1(TESTINPUT), 11);
}

#[test]
fn test_task2_everyone() {
    assert_eq!(task2(TESTINPUT), 6);
}
