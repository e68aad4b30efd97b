use advent::schematic::{is_adjacent, one_before, part1, part2, Extent, Location, Schematic};

const EXAMPLE: &str = "
467..114..
...*......
..35..633.
......#...
617*......
.....+.58.
..592.....
......755.
...$.*....
.664.598..";

#[test]
fn example_part1() {
    assert_eq!(part1(EXAMPLE), "4361")
}

#[test]
fn example_part2() {
    assert_eq!(part2(EXAMPLE), "467835")
}

#[test]
fn numbers_and_symbols_in_reading_order() {
    let schematic: Schematic = "12.#\n.5*.".parse().unwrap();
    assert_eq!(
        schematic.numbers,
        vec![
            (Extent { row: 0, col_begin: 0, col_end: 2 }, 12),
            (Extent { row: 1, col_begin: 1, col_end: 2 }, 5),
        ]
    );
    assert_eq!(
        schematic.symbols,
        vec![(Location { row: 0, col: 3 }, '#'), (Location { row: 1, col: 2 }, '*')]
    );
    assert!("99999999999".parse::<Schematic>().is_err());
}

#[test]
fn adjacency_includes_diagonals() {
    let extent = Extent { row: 2, col_begin: 3, col_end: 5 };
    assert!(is_adjacent(&extent, &Location { row: 1, col: 2 }));
    assert!(is_adjacent(&extent, &Location { row: 3, col: 5 }));
    assert!(!is_adjacent(&extent, &Location { row: 3, col: 6 }));
    assert!(!is_adjacent(&extent, &Location { row: 0, col: 4 }));
    assert_eq!(one_before(0), 0);
    assert_eq!(one_before(7), 6);
}
