use aoc_2020_rust::day9::Stream;

const TEST1_INPUT: &str = "35
20
15
25
47
40
62
55
65
95
102
117
150
182
127
219
299
277
309
576";

#[test]
fn test_invalid() {
    let parsed = Stream::parse(TEST1_INPUT, 5);
    assert_eq!(parsed.find_invalid().unwrap(), 127);
}

#[test]
fn test_weakness() {
    let parsed = Stream::parse(TEST1_INPUT, 5);
    assert_eq!(parsed.find_weakness(), 62);
}

#[test]
fn test_index_is_invalid() {
    let parsed = Stream::parse(TEST1_INPUT, 5);
    assert!(parsed.index_is_invalid(&14));
    assert!(!parsed.index_is_invalid(&5));
}

#[test]
fn test_find_matching_run() {
    let parsed = Stream::parse(TEST1_INPUT, 5);
    assert_eq!(
        parsed.find_matching_contiguous_numbers(&127),
        vec![15, 25, 47, 40]
    );
}

#[test]
fn test_all_valid_stream() {
    let parsed = Stream::parse("1\n2\n3\n5\n8", 2);
    assert_eq!(parsed.find_invalid(), None);
}
