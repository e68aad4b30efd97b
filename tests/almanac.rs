use advent::almanac::{part1, part2, Almanac, RangeMap, RangeMapEntry};

const EXAMPLE: &str = "
seeds: 79 14 55 13

seed-to-soil map:
50 98 2
52 50 48

soil-to-fertilizer map:
0 15 37
37 52 2
39 0 15

fertilizer-to-water map:
49 53 8
0 11 42
42 0 7
57 7 4

water-to-light map:
88 18 7
18 25 70

light-to-temperature map:
45 77 23
81 45 19
68 64 13

temperature-to-humidity map:
0 69 1
1 0 69

humidity-to-location map:
60 56 37
56 93 4";

#[test]
fn part1_example() {
    assert_eq!(part1(EXAMPLE), "35");
}

#[test]
fn part2_example() {
    assert_eq!(part2(EXAMPLE), "46");
}

#[test]
fn test_parse_range_map_entry_trivial() {
    let entry: RangeMapEntry = "10 1 0".parse().unwrap();
    assert_eq!(entry.lookup(1), None);
    assert_eq!(entry.lookup(2), None);
    assert_eq!(entry.lookup(10), None);
}

#[test]
fn test_parse_range_map_entry() {
    let entry: RangeMapEntry = "50 98 2".parse().unwrap();
    assert_eq!(entry.lookup(97), None);
    assert_eq!(entry.lookup(98), Some(50));
    assert_eq!(entry.lookup(99), Some(51));
    assert_eq!(entry.lookup(100), None);
}

#[test]
fn test_parse_range_map() {
    let entry: RangeMap = "50 98 2\n52 50 48".parse().unwrap();
    assert_eq!(entry.lookup(98), 50);
    assert_eq!(entry.lookup(99), 51);
    assert_eq!(entry.lookup(100), 100);

    assert_eq!(entry.lookup(49), 49);
    assert_eq!(entry.lookup(50), 52);
    assert_eq!(entry.lookup(60), 62);
    assert_eq!(entry.lookup(76), 78);
    assert_eq!(entry.lookup(97), 99);
}

#[test]
fn test_parse_almanac() {
    let almanac: Almanac = EXAMPLE.parse().unwrap();
    assert_eq!(almanac.seeds, [79, 14, 55, 13]);
    assert_eq!(almanac.maps.len(), 7);
}

#[test]
fn entry_lookup_range_cases() {
    let entry = RangeMapEntry::new(100, 10, 10);
    let (m, rest) = entry.lookup_range(&(0..5));
    assert_eq!(m, None);
    assert_eq!(rest, vec![0..5]);
    let (m, rest) = entry.lookup_range(&(5..25));
    assert_eq!(m, Some(100..110));
    assert_eq!(rest, vec![5..10, 20..25]);
    let (m, rest) = entry.lookup_range(&(12..15));
    assert_eq!(m, Some(102..105));
    assert!(rest.is_empty());
    let (m, rest) = entry.lookup_range(&(5..15));
    assert_eq!(m, Some(100..105));
    assert_eq!(rest, vec![5..10]);
    let (m, rest) = entry.lookup_range(&(15..25));
    assert_eq!(m, Some(105..110));
    assert_eq!(rest, vec![20..25]);
}

#[test]
fn map_lookup_range_keeps_unmapped_parts_last() {
    let map: RangeMap = "50 98 2\n52 50 48".parse().unwrap();
    assert_eq!(map.lookup_range(&(45..55)), vec![52..57, 45..50]);
}

#[test]
fn negative_and_malformed_entries() {
    let entry: RangeMapEntry = "-5 -10 3".parse().unwrap();
    assert_eq!(entry.lookup(-9), Some(-4));
    assert!("1 2".parse::<RangeMapEntry>().is_err());
    assert!("1 x 2".parse::<RangeMapEntry>().is_err());
    assert!("9223372036854775807 0 2".parse::<RangeMapEntry>().is_err());
    assert!("seeds 1 2".parse::<Almanac>().is_err());
    assert!("seeds: 1 2\n3 4 5".parse::<Almanac>().is_err());
}
