use advent::race::{distance, num_ways_to_win, part1, part2, Race, Sheet};

const EXAMPLE: &str = "
Time:      7  15   30
Distance:  9  40  200";

#[test]
fn main_part1_example() {
    assert_eq!(part1(EXAMPLE), "288");
}

#[test]
fn main_part2_example() {
    assert_eq!(part2(EXAMPLE), "71503");
}

#[test]
fn distance_formula() {
    let race = Race { duration: 7, distance_record: 9 };
    assert_eq!(distance(&race, 0), 0);
    assert_eq!(distance(&race, 3), 12);
    assert_eq!(distance(&race, 7), 0);
    let long = Race { duration: u64::MAX, distance_record: 0 };
    assert_eq!(distance(&long, 1u64 << 63), (1u128 << 63) * ((1u128 << 63) - 1));
}

#[test]
fn win_counts() {
    assert_eq!(num_ways_to_win(&Race { duration: 7, distance_record: 9 }), 4);
    assert_eq!(num_ways_to_win(&Race { duration: 30, distance_record: 200 }), 9);
    assert_eq!(num_ways_to_win(&Race { duration: 0, distance_record: 0 }), 0);
}

#[test]
fn sheet_parsing() {
    let chars: Vec<char> = "Time: 1 2 3\nDistance: 4 5".chars().collect();
    let sheet = Sheet::parse(&chars).unwrap();
    assert_eq!(sheet.races.len(), 2);
    let bad: Vec<char> = "Time: 1 2 3".chars().collect();
    assert!(Sheet::parse(&bad).is_err());
    let bad: Vec<char> = "Time: 1 x\nDistance: 4 5".chars().collect();
    assert!(Sheet::parse(&bad).is_err());
}
