use advent::extrapolation::{
    diff, extrapolate_backward, extrapolate_forward, make_diff_stack, part1, part2,
};

const EXAMPLE: &str = "
0 3 6 9 12 15
1 3 6 10 15 21
10 13 16 21 30 45";

#[test]
fn test_extrapolate_forward() {
    assert_eq!(extrapolate_forward(&[0, 3, 6, 9, 12, 15]), 18);
    assert_eq!(extrapolate_forward(&[1, 3, 6, 10, 15, 21]), 28);
    assert_eq!(extrapolate_forward(&[10, 13, 16, 21, 30, 45]), 68);
}

#[test]
fn main_test_part1_example() {
    assert_eq!(part1(EXAMPLE), 114);
}

#[test]
fn test_extrapolate_backward() {
    assert_eq!(extrapolate_backward(&[0, 3, 6, 9, 12, 15]), -3);
    assert_eq!(extrapolate_backward(&[1, 3, 6, 10, 15, 21]), 0);
    assert_eq!(extrapolate_backward(&[10, 13, 16, 21, 30, 45]), 5);
}

#[test]
fn main_test_part2_example() {
    assert_eq!(part2(EXAMPLE), 2);
}

#[test]
fn diff_shortens_by_one() {
    assert_eq!(diff(&[1, 4, 9, 16]), vec![3, 5, 7]);
    assert_eq!(diff(&[5]), Vec::<i64>::new());
    assert_eq!(diff(&[]), Vec::<i64>::new());
}

#[test]
fn stack_ends_with_zeros() {
    assert_eq!(
        make_diff_stack(&[1, 4, 9, 16]),
        vec![vec![1, 4, 9, 16], vec![3, 5, 7], vec![2, 2], vec![0]]
    );
    assert_eq!(make_diff_stack(&[0, 0]), vec![vec![0, 0]]);
}

#[test]
fn negative_sequences() {
    assert_eq!(extrapolate_forward(&[-1, -2, -3]), -4);
    assert_eq!(extrapolate_backward(&[-1, -2, -3]), 0);
    assert_eq!(part1("5 5 5\n-2 -4 -6"), -3);
}
