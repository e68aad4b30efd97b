use std::str::FromStr;

use advent::camel_cards::{part1, part2, Card, Hand, HandType};

const EXAMPLE: &str = "
32T3K 765
T55J5 684
KK677 28
KTJJT 220
QQQJA 483";

#[test]
fn camel_cards_part1_example() {
    assert_eq!(part1(EXAMPLE), "6440");
}

#[test]
fn camel_cards_part2_example() {
    assert_eq!(part2(EXAMPLE), "5905");
}

#[test]
fn test_ordering_1() {
    let h1 = Hand::<false>::from_str("22222").unwrap();
    let h2 = Hand::<false>::from_str("4AAAA").unwrap();
    let h3 = Hand::<false>::from_str("33332").unwrap();
    let h4 = Hand::<false>::from_str("33332").unwrap();
    let h5 = Hand::<false>::from_str("2AAA2").unwrap();
    let h6 = Hand::<false>::from_str("4AAAK").unwrap();
    assert!(h1 > h2);
    assert!(h2 > h3);
    assert!(h3 == h4);
    assert!(h4 > h5);
    assert!(h5 > h6);
}

#[test]
fn hand_kinds() {
    let kind = |s: &str| Hand::<false>::from_str(s).unwrap().hand_type();
    assert_eq!(kind("AAAAA"), HandType::FiveOfAKind);
    assert_eq!(kind("AA8AA"), HandType::FourOfAKind);
    assert_eq!(kind("23332"), HandType::FullHouse);
    assert_eq!(kind("TTT98"), HandType::ThreeOfAKind);
    assert_eq!(kind("23432"), HandType::TwoPair);
    assert_eq!(kind("A23A4"), HandType::OnePair);
    assert_eq!(kind("23456"), HandType::HighCard);
    let joker = |s: &str| Hand::<true>::from_str(s).unwrap().hand_type();
    assert_eq!(joker("JJJJJ"), HandType::FiveOfAKind);
    assert_eq!(joker("KTJJT"), HandType::FourOfAKind);
    assert_eq!(joker("2345J"), HandType::OnePair);
}

#[test]
fn card_labels() {
    assert_eq!(Card::new('J', false), Ok(Card { value: 10 }));
    assert_eq!(Card::new('J', true), Ok(Card { value: 0 }));
    assert_eq!(Card::new('2', false), Ok(Card { value: 1 }));
    assert!(Card::new('X', false).is_err());
    assert!(Hand::<false>::from_str("2345").is_err());
}
