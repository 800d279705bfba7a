use aoc_2020_rust::day3::Grid;
use aoc_2020_rust::day3::Movement;
use aoc_2020_rust::day3::task1;
use aoc_2020_rust::day3::task2;

const TESTINPUT: &str = "..##.........##.........##.........##.........##.........##.......
#...#...#..#...#...#..#...#...#..#...#...#..#...#...#..#...#...#..
.#....#..#..#....#..#..#....#..#..#....#..#..#....#..#..#....#..#.
..#.#...#.#..#.#...#.#..#.#...#.#..#.#...#.#..#.#...#.#..#.#...#.#
.#...##..#..#...##..#..#...##..#..#...##..#..#...##..#..#...##..#.
..#.##.......#.##.......#.##.......#.##.......#.##.......#.##.....
.#.#.#....#.#.#.#....#.#.#.#....#.#.#.#....#.#.#.#....#.#.#.#....#
.#........#.#........#.#........#.#........#.#........#.#........#
#.##...#...#.##...#...#.##...#...#.##...#...#.##...#...#.##...#...
#...##....##...##....##...##....##...##....##...##....##...##....#
.#..#...#.#.#..#...#.#.#..#...#.#.#..#...#.#.#..#...#.#.#..#...#.#";

#[test]
fn test_case() {
    let input: Vec<&str> = TESTINPUT.lines().collect();
    let grid = Grid::parse(&input);
    let movement = Movement { right: 3, down: 1 };
    let count = grid.run_grid_and_count_trees(&movement);
    assert_eq!(count, 7);
}

#[test]
fn test_task1_counts_trees() {
    assert_eq!(task1(TESTINPUT), 7);
}

#[test]
fn test_task2_multiplies_slopes() {
    assert_eq!(task2(TESTINPUT), 336);
}

#[test]
fn test_movement_from_tuple() {
    let m = Movement::from_tuple(&(5, 2));
    assert_eq!(m.right, 5);
    assert_eq!(m.down, 2);
}
