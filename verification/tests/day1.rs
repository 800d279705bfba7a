use aoc_2020_rust::day1::find_first_to_sum;
use aoc_2020_rust::day1::get_input;
use aoc_2020_rust::day1::task;

#[test]
fn test_find_first_to_sum() {
    assert_eq!(find_first_to_sum(&vec![1, 2, 3], 0, 2), None);
    assert_eq!(
        find_first_to_sum(&vec![1721, 979, 366, 299, 675, 1456], 2020, 2),
        Some(514579)
    );
}

#[test]
fn test_find_three_to_sum() {
    assert_eq!(
        find_first_to_sum(&vec![1721, 979, 366, 299, 675, 1456], 2020, 3),
        Some(241861950)
    );
}

#[test]
fn test_get_input_parses_entries() {
    assert_eq!(
        get_input("1721 979 366\n299 675 1456"),
        vec![1721, 979, 366, 299, 675, 1456]
    );
}

#[test]
fn test_task_two_entries() {
    assert_eq!(task("1721 979 366 299 675 1456", 2), 514579);
}

#[test]
fn test_find_first_to_sum_allows_reuse() {
    // the same entry may fill several slots
    assert_eq!(find_first_to_sum(&vec![1010, 3], 2020, 2), Some(1020100));
}
