use advent::scratchcards::{num_winning, parse_numbers, part1, part2, Card};

const EXAMPLE: &str = "
Card 1: 41 48 83 86 17 | 83 86  6 31 17  9 48 53
Card 2: 13 32 20 16 61 | 61 30 68 82 17 32 24 19
Card 3:  1 21 53 59 44 | 69 82 63 72 16 21 14  1
Card 4: 41 92 73 84 69 | 59 84 76 51 58  5 54 83
Card 5: 87 83 26 28 32 | 88 30 70 12 93 22 82 36
Card 6: 31 18 13 56 72 | 74 77 10 23 35 67 36 11";

fn card(line: &str) -> Card {
    let chars: Vec<char> = line.chars().collect();
    Card::parse(&chars).unwrap()
}

#[test]
fn scratchcards_part1_example() {
    assert_eq!(part1(EXAMPLE), "13")
}

#[test]
fn scratchcards_part2_example() {
    assert_eq!(part2(EXAMPLE), "30")
}

#[test]
fn matches_count_distinct_numbers() {
    assert_eq!(num_winning(&card("Card 1: 41 48 83 86 17 | 83 86  6 31 17  9 48 53")), 4);
    assert_eq!(num_winning(&card("Card 9: 1 2 | 2 2 2")), 1);
    assert_eq!(num_winning(&card("Card 9: 1 2 |")), 0);
}

#[test]
fn numbers_and_malformed_cards() {
    let chars: Vec<char> = " 1  22 333 ".chars().collect();
    assert_eq!(parse_numbers(&chars), Some(vec![1, 22, 333]));
    let bad: Vec<char> = "1 x".chars().collect();
    assert_eq!(parse_numbers(&bad), None);
    let no_bar: Vec<char> = "Card 1: 1 2 3".chars().collect();
    assert!(Card::parse(&no_bar).is_err());
}
