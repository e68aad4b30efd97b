use std::str::FromStr;

use advent::cubes::{part1, CubeCount, Game, ParseCubeCountError, ParseGameError};

#[test]
fn cube_count_from_str() {
    assert_eq!(
        CubeCount::from_str("3 blue, 4 red"),
        Ok(CubeCount {
            red: 4,
            green: 0,
            blue: 3
        })
    );
    assert_eq!(
        CubeCount::from_str("3 green, 4 blue, 1 red"),
        Ok(CubeCount {
            red: 1,
            green: 3,
            blue: 4
        })
    );
    assert_eq!(CubeCount::from_str("bad"), Err(ParseCubeCountError));
}

#[test]
fn game_from_str() {
    assert_eq!(
        Game::from_str("Game 42: 3 blue, 4 red; 1 red, 2 green, 6 blue; 2 green"),
        Ok(Game {
            id: 42,
            cube_counts: [
                CubeCount {
                    red: 4,
                    green: 0,
                    blue: 3
                },
                CubeCount {
                    red: 1,
                    green: 2,
                    blue: 6
                },
                CubeCount {
                    red: 0,
                    green: 2,
                    blue: 0
                }
            ]
            .to_vec()
        }),
    );
    assert_eq!(Game::from_str("Game xx: 3 blue"), Err(ParseGameError));
}

#[test]
fn part_1() {
    let example = "
Game 1: 3 blue, 4 red; 1 red, 2 green, 6 blue; 2 green
Game 2: 1 blue, 2 green; 3 green, 4 blue, 1 red; 1 green, 1 blue
Game 3: 8 green, 6 blue, 20 red; 5 blue, 4 red, 13 green; 5 green, 1 red
Game 4: 1 green, 3 red, 6 blue; 3 green, 6 red; 3 green, 15 blue, 14 red
Game 5: 6 red, 1 blue, 3 green; 2 blue, 1 red, 2 green
";
    assert_eq!(part1(example), "8");
}

#[test]
fn repeated_colours_add_up() {
    assert_eq!(
        CubeCount::from_str("2 red, 3 red"),
        Ok(CubeCount { red: 5, green: 0, blue: 0 })
    );
    assert_eq!(CubeCount::from_str("3 blue,4 red"), Err(ParseCubeCountError));
    assert_eq!(CubeCount::from_str("4294967295 red, 1 red"), Err(ParseCubeCountError));
    assert_eq!(CubeCount::from_str("1 purple"), Err(ParseCubeCountError));
}

#[test]
fn possible_games() {
    let game = Game::from_str("Game 7: 12 red, 13 green, 14 blue").unwrap();
    assert!(game.is_possible());
    let game = Game::from_str("Game 8: 13 red").unwrap();
    assert!(!game.is_possible());
}
