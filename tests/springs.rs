use advent::springs::{
    count, num_arrangements, num_arrangements_2, num_arrangements_in_group, ordered_partitions,
    parse_springs, part1,
    part2, total_arrangements, unfold_row, Cell, DocumentErr, FeasibilityIndex,
};

const EXAMPLE: &str = "
???.### 1,1,3
.??..??...?##. 1,1,3
?#?#?#?#?#?#?#? 1,3,1,6
????.#...#... 4,1,1
????.######..#####. 1,6,5
?###???????? 3,2,1";

fn cells(s: &str) -> Vec<Cell> {
    s.chars()
        .map(|c| match c {
            '#' => Cell::Active,
            '.' => Cell::Inactive,
            _ => Cell::Unknown,
        })
        .collect()
}

#[test]
fn test_num_arrangements_in_group() {
    assert_eq!(num_arrangements_in_group("?", &[]), Some(1));
    assert_eq!(num_arrangements_in_group("?", &[1]), Some(1));
    assert_eq!(num_arrangements_in_group("?", &[2]), None);

    assert_eq!(num_arrangements_in_group("#", &[]), None);
    assert_eq!(num_arrangements_in_group("#", &[1]), Some(1));
    assert_eq!(num_arrangements_in_group("#", &[2]), None);

    assert_eq!(num_arrangements_in_group("??", &[]), Some(1));
    assert_eq!(num_arrangements_in_group("??", &[1]), Some(2));
    assert_eq!(num_arrangements_in_group("??", &[2]), Some(1));
    assert_eq!(num_arrangements_in_group("??", &[1, 1]), None);

    assert_eq!(num_arrangements_in_group("?#", &[]), None);
    assert_eq!(num_arrangements_in_group("?#", &[1]), Some(1));
    assert_eq!(num_arrangements_in_group("?#", &[2]), Some(1));

    assert_eq!(num_arrangements_in_group("???", &[1, 1]), Some(1));
    assert_eq!(num_arrangements_in_group("???", &[2]), Some(2));
    assert_eq!(num_arrangements_in_group("???", &[2, 1]), None);
    assert_eq!(num_arrangements_in_group("##?", &[2]), Some(1));
    assert_eq!(num_arrangements_in_group("#?#", &[2]), None);
}

#[test]
fn test_num_arrangements() {
    assert_eq!(num_arrangements("???.??? 1,1,1"), 6);

    assert_eq!(num_arrangements("???.### 1,1,3"), 1);
    assert_eq!(num_arrangements(".??..??...?##. 1,1,3"), 4);
    assert_eq!(num_arrangements("?#?#?#?#?#?#?#? 1,3,1,6"), 1);
    assert_eq!(num_arrangements("????.#...#... 4,1,1"), 1);
    assert_eq!(num_arrangements("????.######..#####. 1,6,5"), 4);
    assert_eq!(num_arrangements("?###???????? 3,2,1"), 10);
}

#[test]
fn test_part1_example() {
    assert_eq!(part1(EXAMPLE), 21);
}

#[test]
fn test_unfold_row() {
    assert_eq!(unfold_row(".# 1"), ".#?.#?.#?.#?.# 1,1,1,1,1".to_string());
    assert_eq!(
        unfold_row("???.### 1,1,3"),
        "???.###????.###????.###????.###????.### 1,1,3,1,1,3,1,1,3,1,1,3,1,1,3".to_string()
    );
}

#[test]
fn test_num_arrangements_2() {
    assert_eq!(num_arrangements_2("?#?.??.#?.??? 2,1,1,1"), 14);
}

#[test]
fn test_num_arrangements_2_after_unfolding() {
    assert_eq!(num_arrangements_2(&unfold_row("???.### 1,1,3")), 1);
    assert_eq!(
        num_arrangements_2(&unfold_row(".??..??...?##. 1,1,3")),
        16384
    );
    assert_eq!(
        num_arrangements_2(&unfold_row("?#?#?#?#?#?#?#? 1,3,1,6")),
        1
    );
    assert_eq!(num_arrangements_2(&unfold_row("????.#...#... 4,1,1")), 16);
    assert_eq!(
        num_arrangements_2(&unfold_row("????.######..#####. 1,6,5")),
        2500
    );
    assert_eq!(
        num_arrangements_2(&unfold_row("?###???????? 3,2,1")),
        506250
    );
}

#[test]
fn test_part2_example() {
    assert_eq!(part2(EXAMPLE), 525152);
}

#[test]
fn count_without_unknowns_matches_runs_exactly() {
    assert_eq!(count(&cells("#.##..###"), &[1, 2, 3]), Some(1));
    assert_eq!(count(&cells("#.##..###"), &[1, 2, 2]), Some(0));
    assert_eq!(count(&cells("#.##..###"), &[1, 2]), Some(0));
    assert_eq!(count(&cells("...."), &[]), Some(1));
    assert_eq!(count(&cells("..#."), &[]), Some(0));
}

#[test]
fn count_all_unknown_single_group() {
    for n in 1..12usize {
        for len in 1..=n {
            let pattern = vec![Cell::Unknown; n];
            assert_eq!(count(&pattern, &[len]), Some((n - len + 1) as u64));
        }
    }
    assert_eq!(count(&vec![Cell::Unknown; 3], &[4]), Some(0));
}

#[test]
fn count_edge_cases() {
    assert_eq!(count(&[], &[]), Some(1));
    assert_eq!(count(&[], &[1]), Some(0));
    assert_eq!(count(&cells("???"), &[1, 1]), Some(1));
    assert_eq!(count(&cells("#?#"), &[3]), Some(1));
}

#[test]
fn count_reports_overflow() {
    // 200 unknown cells and 60 runs of one: C(141, 60) arrangements, far above u64::MAX.
    let pattern = vec![Cell::Unknown; 200];
    let groups = vec![1usize; 60];
    assert_eq!(count(&pattern, &groups), None);
    // C(65, 1) fits.
    assert_eq!(count(&vec![Cell::Unknown; 65], &[1]), Some(65));
}

#[test]
fn unfold_once_keeps_the_row() {
    let row = parse_springs("?#?.# 2,1").unwrap();
    let once = row.unfold(1);
    assert_eq!(once.pattern, row.pattern);
    assert_eq!(once.required, row.required);
    let twice = row.unfold(2);
    assert_eq!(twice.pattern, cells("?#?.#??#?.#"));
    assert_eq!(twice.required, vec![2, 1, 2, 1]);
}

#[test]
fn total_is_the_same_in_any_line_order() {
    let forward = "???.### 1,1,3\n.??..??...?##. 1,1,3\n?###???????? 3,2,1";
    let backward = "?###???????? 3,2,1\n???.### 1,1,3\n.??..??...?##. 1,1,3";
    assert_eq!(total_arrangements(forward, 1), Ok(15));
    assert_eq!(total_arrangements(backward, 1), Ok(15));
    assert_eq!(total_arrangements(forward, 5), total_arrangements(backward, 5));
}

#[test]
fn malformed_lines_are_rejected() {
    assert!(parse_springs("???.###").is_err());
    assert!(parse_springs("???.### 1,x,3").is_err());
    assert!(parse_springs("???.### 1,0,3").is_err());
    assert!(parse_springs("??a.### 1,1,3").is_err());
    assert!(parse_springs(" 1,1").is_err());
    assert_eq!(total_arrangements("???.### 1,1,3\nbad", 1), Err(DocumentErr::Parse));
}

#[test]
fn document_total_reports_overflow() {
    let line = format!("{} {}", "?".repeat(200), vec!["1"; 60].join(","));
    assert_eq!(total_arrangements(&line, 1), Err(DocumentErr::Overflow));
}

#[test]
fn feasibility_index_tables() {
    let p = cells("#?.#.?");
    let index = FeasibilityIndex::new(&p);
    assert_eq!(index.next_inactive, vec![2, 2, 2, 4, 4, 6]);
    assert_eq!(index.first_active_at_or_after, vec![0, 3, 3, 3, 6, 6]);
}

#[test]
fn test_ordered_partitions() {
    assert_eq!(ordered_partitions(0, 1), Vec::<Vec<usize>>::new());
    assert_eq!(ordered_partitions(1, 1), vec![vec![0]]);
    assert_eq!(ordered_partitions(2, 1), vec![vec![0, 0]]);
    assert_eq!(ordered_partitions(1, 2), vec![vec![0], vec![1]]);
    assert_eq!(ordered_partitions(1, 3), vec![vec![0], vec![1], vec![2]]);
    assert_eq!(
        ordered_partitions(2, 3),
        vec![
            vec![0, 0],
            vec![0, 1],
            vec![1, 1],
            vec![0, 2],
            vec![1, 2],
            vec![2, 2]
        ]
    );
    assert_eq!(
        ordered_partitions(3, 3),
        vec![
            vec![0, 0, 0],
            vec![0, 0, 1],
            vec![0, 1, 1],
            vec![1, 1, 1],
            vec![0, 0, 2],
            vec![0, 1, 2],
            vec![1, 1, 2],
            vec![0, 2, 2],
            vec![1, 2, 2],
            vec![2, 2, 2],
        ]
    );
}
