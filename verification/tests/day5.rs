use aoc_2020_rust::day5::get_ticket_ids;
use aoc_2020_rust::day5::task1;
use aoc_2020_rust::day5::task2;
use aoc_2020_rust::day5::Pass;

#[test]
fn test_sub_pass() {
    assert_eq!(Pass::sub_pass("RLR", 'R'), 5);
    assert_eq!(Pass::sub_pass("FBFBBFF", 'B'), 44);
}

#[test]
fn test_decode_pass() {
    assert_eq!(
        Pass::decode_pass("FBFBBFFRLR"),
        Pass { row: 44, column: 5 }
    );
}

#[test]
fn test_get_id() {
    let pass = Pass { row: 44, column: 5 };
    assert_eq!(pass.get_id(), 357);
}

#[test]
fn test_get_ticket_ids() {
    let ids = get_ticket_ids("BFFFBBFRRR\nFFFBBBFRRR\nBBFFBBFRLL");
    assert_eq!(ids, vec![567, 119, 820]);
}

#[test]
fn test_task1_highest_id() {
    assert_eq!(task1("BFFFBBFRRR\nFFFBBBFRRR\nBBFFBBFRLL"), 820);
}

#[test]
fn test_task2_finds_hole() {
    // seats 5 and 7 of row zero: seat 6 is missing in between
    assert_eq!(task2("FFFFFFFRLR\nFFFFFFFRRR"), Some(6));
}

#[test]
fn test_task2_no_hole() {
    assert_eq!(task2("BFFFBBFRRR\nFFFBBBFRRR\nBBFFBBFRLL"), None);
}
