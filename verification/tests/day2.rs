use aoc_2020_rust::day2::PasswordAndPolicy;
use aoc_2020_rust::day2::PolicyType;
use aoc_2020_rust::day2::task;

#[test]
fn test_is_valid_part1() {
    assert_eq!(
        PasswordAndPolicy {
            password: "abcde".to_string(),
            min: 1,
            max: 3,
            char: 'a'
        }
        .is_valid(&PolicyType::Part1),
        true
    );
    assert_eq!(
        PasswordAndPolicy {
            password: "cdefg".to_string(),
            min: 1,
            max: 3,
            char: 'b'
        }
        .is_valid(&PolicyType::Part1),
        false
    );
    assert_eq!(
        PasswordAndPolicy {
            password: "ccccccccc".to_string(),
            min: 2,
            max: 9,
            char: 'c'
        }
        .is_valid(&PolicyType::Part1),
        true
    );
}

#[test]
fn test_is_valid_part2() {
    assert_eq!(
        PasswordAndPolicy {
            password: "abcde".to_string(),
            min: 1,
            max: 3,
            char: 'a'
        }
        .is_valid(&PolicyType::Part2),
        true
    );
    assert_eq!(
        PasswordAndPolicy {
            password: "cdefg".to_string(),
            min: 1,
            max: 3,
            char: 'b'
        }
        .is_valid(&PolicyType::Part2),
        false
    );
    assert_eq!(
        PasswordAndPolicy {
            password: "ccccccccc".to_string(),
            min: 2,
            max: 9,
            char: 'c'
        }
        .is_valid(&PolicyType::Part2),
        false
    );
}

#[test]
fn test_from_string() {
    assert_eq!(
        PasswordAndPolicy::from_string(&"1-3 a: abcde".to_string()),
        PasswordAndPolicy {
            password: "abcde".to_string(),
            min: 1,
            max: 3,
            char: 'a'
        }
    );
}

#[test]
fn test_task_counts() {
    let input = "1-3 a: abcde\n1-3 b: cdefg\n2-9 c: ccccccccc";
    assert_eq!(task(input, PolicyType::Part1), 2);
    assert_eq!(task(input, PolicyType::Part2), 1);
}
