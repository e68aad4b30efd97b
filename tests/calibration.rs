use advent::calibration::{
    digits_of_line, find_literal_digit_occurrences, part1, part2, replace_string_numbers,
};

const EXAMPLE_1: &str = "1abc2
pqr3stu8vwx
a1b2c3d4e5f
treb7uchet
";

const EXAMPLE_2: &str = "two1nine
eightwothree
abcone2threexyz
xtwone3four
4nineeightseven2
zoneight234
7pqrstsixteen
";

#[test]
fn main_part_1() {
    assert_eq!(part1(EXAMPLE_1), "142");
}

#[test]
fn part_2() {
    assert_eq!(part2(EXAMPLE_2), "281");
}

#[test]
fn replaces_overlapping_names() {
    assert_eq!(replace_string_numbers("eightwo"), "8igh2wo");
    assert_eq!(replace_string_numbers("xyz"), "xyz");
    assert_eq!(replace_string_numbers("oneone"), "1ne1ne");
}

#[test]
fn occurrences_by_digit() {
    let table = find_literal_digit_occurrences("oneightone");
    assert_eq!(table, vec![(b'1', vec![0, 7]), (b'8', vec![2])]);
    assert!(find_literal_digit_occurrences("abc").is_empty());
}

#[test]
fn first_and_last_digit() {
    let line: Vec<char> = "a7b".chars().collect();
    assert_eq!(digits_of_line(&line), Some((7, 7)));
    let none: Vec<char> = "abc".chars().collect();
    assert_eq!(digits_of_line(&none), None);
}
