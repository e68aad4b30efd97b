//! Extrapolating sequences one step forward or backward through their stack
//! of repeated differences.
use crate::text::{chars_of, fits_i64, integer, lines, lines_of, parse_i64_words, trim, trim_of, views, words};
use vstd::prelude::*;

verus! {

/// The differences of adjacent elements of `s`: one fewer than `s` has.
pub open spec fn diffs(s: Seq<int>) -> Seq<int> {
    Seq::new((if s.len() > 0 { s.len() - 1 } else { 0 }) as nat, |i: int| s[i + 1] - s[i])
}

/// Every element of `s` is zero.
pub open spec fn all_zero(s: Seq<int>) -> bool {
    forall|i: int| 0 <= i < s.len() ==> s[i] == 0
}

/// `s`, its differences, their differences, and so on, up to and including
/// the first sequence of zeros.
pub open spec fn diff_stack(s: Seq<int>) -> Seq<Seq<int>>
    decreases s.len(),
{
    if all_zero(s) {
        seq![s]
    } else {
        seq![s] + diff_stack(diffs(s))
    }
}

/// The values of `v` as integers.
pub open spec fn ints(v: Seq<i64>) -> Seq<int> {
    v.map_values(|x: i64| x as int)
}

/// The values of each vector of `v` as integers.
pub open spec fn int_rows(v: Seq<Vec<i64>>) -> Seq<Seq<int>> {
    v.map_values(|w: Vec<i64>| ints(w@))
}

/// Every value of every row of `st` fits in an `i64`.
pub open spec fn rows_fit(st: Seq<Seq<int>>) -> bool {
    forall|i: int, j: int|
        0 <= i < st.len() && 0 <= j < st[i].len() ==> i64::MIN <= #[trigger] st[i][j] <= i64::MAX
}

/// The differences of adjacent elements of `sequence`.
pub fn diff(sequence: &[i64]) -> (r: Vec<i64>)
    requires
        forall|i: int|
            0 <= i < sequence@.len() - 1 ==> i64::MIN <= #[trigger] sequence@[i + 1] - sequence@[i]
                <= i64::MAX,
    ensures
        ints(r@) == diffs(ints(sequence@)),
{
    let mut r: Vec<i64> = Vec::new();
    let mut i: usize = 1;
    if sequence.len() == 0 {
        assert(ints(r@) =~= diffs(ints(sequence@)));
        return r;
    }
    while i < sequence.len()
        invariant
            1 <= i <= sequence@.len(),
            forall|k: int|
                0 <= k < sequence@.len() - 1 ==> i64::MIN <= #[trigger] sequence@[k + 1] - sequence@[k]
                    <= i64::MAX,
            ints(r@) == diffs(ints(sequence@)).take(i - 1),
        decreases sequence@.len() - i,
    {
        assert(i64::MIN <= sequence@[(i - 1) + 1] - sequence@[i - 1] <= i64::MAX);
        let ghost before = r@;
        r.push(sequence[i] - sequence[i - 1]);
        proof {
            let want = diffs(ints(sequence@)).take(i as int);
            assert(ints(before) == diffs(ints(sequence@)).take(i - 1));
            assert(ints(before).len() == i - 1);
            assert(before.len() == i - 1);
            assert(r@.len() == i);
            assert(r@[i - 1] == sequence@[i as int] - sequence@[i - 1]);
            assert forall|k: int| 0 <= k < i implies ints(r@)[k] == want[k] by {
                if k < i - 1 {
                    assert(r@[k] == before[k]);
                    assert(ints(r@)[k] == ints(before)[k]);
                } else {
                    assert(ints(r@)[k] == r@[k] as int);
                    assert(want[k] == ints(sequence@)[k + 1] - ints(sequence@)[k]);
                }
            }
            assert(ints(r@) =~= want);
        }
        i = i + 1;
    }
    assert(diffs(ints(sequence@)).take(i - 1) =~= diffs(ints(sequence@)));
    r
}

fn is_all_zero(s: &Vec<i64>) -> (r: bool)
    ensures
        r == all_zero(ints(s@)),
{
    let mut i: usize = 0;
    while i < s.len()
        invariant
            i <= s@.len(),
            forall|k: int| 0 <= k < i ==> s@[k] == 0,
        decreases s@.len() - i,
    {
        if s[i] != 0 {
            assert(ints(s@)[i as int] != 0);
            return false;
        }
        i = i + 1;
    }
    assert forall|k: int| 0 <= k < s@.len() implies ints(s@)[k] == 0 by {
        assert(s@[k] == 0);
    }
    true
}

/// The stack of differences of `sequence`, the sequence itself first.
pub fn make_diff_stack(sequence: &[i64]) -> (r: Vec<Vec<i64>>)
    requires
        rows_fit(diff_stack(ints(sequence@))),
    ensures
        int_rows(r@) == diff_stack(ints(sequence@)),
{
    let ghost target = diff_stack(ints(sequence@));
    let mut last: Vec<i64> = vstd::slice::slice_to_vec(sequence);
    let mut stack: Vec<Vec<i64>> = Vec::new();
    proof {
        assert(int_rows(stack@) + diff_stack(ints(last@)) =~= target);
    }
    while !is_all_zero(&last)
        invariant
            rows_fit(target),
            int_rows(stack@) + diff_stack(ints(last@)) == target,
        decreases last@.len(),
    {
        let ghost k = stack@.len() as int;
        assert(target[k + 1] == diff_stack(diffs(ints(last@)))[0]);
        assert forall|i: int| 0 <= i < last@.len() - 1 implies i64::MIN <= #[trigger] last@[i + 1]
            - last@[i] <= i64::MAX by {
            assert(target[k + 1][i] == diffs(ints(last@))[i]);
        }
        let next = diff(last.as_slice());
        let ghost before = int_rows(stack@);
        stack.push(last);
        proof {
            assert(int_rows(stack@) =~= before.push(ints(last@)));
            assert(int_rows(stack@) + diff_stack(ints(next@)) =~= target);
        }
        last = next;
    }
    let ghost before = int_rows(stack@);
    stack.push(last);
    proof {
        assert(int_rows(stack@) =~= target);
    }
    stack
}

/// The sum of the last elements of the first `k` rows of `st`.
pub open spec fn sum_last(st: Seq<Seq<int>>, k: int) -> int
    decreases k,
{
    if k <= 0 {
        0
    } else {
        sum_last(st, k - 1) + st[k - 1].last()
    }
}

/// The alternating sum, `+` first, of the first elements of the first `k` rows
/// of `st`.
pub open spec fn alt_sum_first(st: Seq<Seq<int>>, k: int) -> int
    decreases k,
{
    if k <= 0 {
        0
    } else if (k - 1) % 2 == 0 {
        alt_sum_first(st, k - 1) + st[k - 1][0]
    } else {
        alt_sum_first(st, k - 1) - st[k - 1][0]
    }
}

/// The next element of `s`: the sum of the last elements of its stack.
pub open spec fn forward(s: Seq<int>) -> int {
    sum_last(diff_stack(s), diff_stack(s).len() as int)
}

/// The element before `s`: the alternating sum of the first elements of its stack.
pub open spec fn backward(s: Seq<int>) -> int {
    alt_sum_first(diff_stack(s), diff_stack(s).len() as int)
}

/// `s` can be extrapolated with `i64` arithmetic: every row of its stack is
/// non-empty, and every value and every partial sum fits.
pub open spec fn extrapolable(s: Seq<int>) -> bool {
    let st = diff_stack(s);
    &&& rows_fit(st)
    &&& forall|i: int| 0 <= i < st.len() ==> (#[trigger] st[i]).len() > 0
    &&& forall|k: int| 0 <= k <= st.len() ==> i64::MIN <= #[trigger] sum_last(st, k) <= i64::MAX
    &&& forall|k: int| 0 <= k <= st.len() ==> i64::MIN <= #[trigger] alt_sum_first(st, k) <= i64::MAX
}

/// The next element of `sequence`.
pub fn extrapolate_forward(sequence: &[i64]) -> (r: i64)
    requires
        extrapolable(ints(sequence@)),
    ensures
        r == forward(ints(sequence@)),
{
    let stack = make_diff_stack(sequence);
    let ghost st = int_rows(stack@);
    let mut total: i64 = 0;
    let mut k: usize = 0;
    while k < stack.len()
        invariant
            st == int_rows(stack@),
            extrapolable(ints(sequence@)),
            st == diff_stack(ints(sequence@)),
            k <= st.len(),
            total == sum_last(st, k as int),
        decreases st.len() - k,
    {
        let row = &stack[k];
        assert(st[k as int] == ints(row@));
        assert(st[k as int].len() > 0);
        assert(i64::MIN <= sum_last(st, k + 1) <= i64::MAX);
        total = total + row[row.len() - 1];
        k = k + 1;
    }
    total
}

/// The element before the start of `sequence`.
pub fn extrapolate_backward(sequence: &[i64]) -> (r: i64)
    requires
        extrapolable(ints(sequence@)),
    ensures
        r == backward(ints(sequence@)),
{
    let stack = make_diff_stack(sequence);
    let ghost st = int_rows(stack@);
    let mut total: i64 = 0;
    let mut k: usize = 0;
    while k < stack.len()
        invariant
            st == int_rows(stack@),
            extrapolable(ints(sequence@)),
            st == diff_stack(ints(sequence@)),
            k <= st.len(),
            total == alt_sum_first(st, k as int),
        decreases st.len() - k,
    {
        let row = &stack[k];
        assert(st[k as int] == ints(row@));
        assert(st[k as int].len() > 0);
        assert(i64::MIN <= alt_sum_first(st, k + 1) <= i64::MAX);
        if k % 2 == 0 {
            total = total + row[0];
        } else {
            total = total - row[0];
        }
        k = k + 1;
    }
    total
}

/// Which way to extrapolate.
#[derive(Clone, Copy, Debug, PartialEq, Eq, Structural)]
pub enum Direction {
    Forward,
    Backward,
}

/// The sequences written by the lines of `input`, one per line.
pub open spec fn sequences(input: Seq<char>) -> Seq<Seq<int>> {
    lines(trim(input)).map_values(|l: Seq<char>| words(l).map_values(|w: Seq<char>| integer(w)->0))
}

/// The extrapolated value of `s` in direction `d`.
pub open spec fn extrapolated(s: Seq<int>, d: Direction) -> int {
    match d {
        Direction::Forward => forward(s),
        Direction::Backward => backward(s),
    }
}

/// The sum of the extrapolated values of the first `k` sequences of `ss`.
pub open spec fn sum_extrapolated(ss: Seq<Seq<int>>, d: Direction, k: int) -> int
    decreases k,
{
    if k <= 0 {
        0
    } else {
        sum_extrapolated(ss, d, k - 1) + extrapolated(ss[k - 1], d)
    }
}

/// Every word of every line of `input` is an `i64`, every sequence can be
/// extrapolated, and every partial sum of the values fits in an `i64`.
pub open spec fn document_ok(input: Seq<char>, d: Direction) -> bool {
    let ls = lines(trim(input));
    let ss = sequences(input);
    &&& forall|i: int, j: int|
        0 <= i < ls.len() && 0 <= j < words(ls[i]).len() ==> fits_i64(#[trigger] words(ls[i])[j])
    &&& forall|i: int| 0 <= i < ss.len() ==> extrapolable(#[trigger] ss[i])
    &&& forall|k: int| 0 <= k <= ss.len() ==> i64::MIN <= #[trigger] sum_extrapolated(ss, d, k) <= i64::MAX
}

/// The sum, over the lines of `input`, of each line's sequence extrapolated
/// in direction `d`.
pub fn sum_extrapolation(input: &str, d: Direction) -> (r: i64)
    requires
        document_ok(input@, d),
    ensures
        r == sum_extrapolated(sequences(input@), d, sequences(input@).len() as int),
{
    let chars = chars_of(input);
    let trimmed = trim_of(chars.as_slice());
    let ls = lines_of(trimmed.as_slice());
    let ghost v = views(ls@);
    let ghost ss = sequences(input@);
    let mut total: i64 = 0;
    let mut i: usize = 0;
    while i < ls.len()
        invariant
            v == views(ls@),
            v == lines(trim(input@)),
            ss == sequences(input@),
            document_ok(input@, d),
            i <= v.len(),
            total == sum_extrapolated(ss, d, i as int),
        decreases v.len() - i,
    {
        assert(v[i as int] == ls@[i as int]@);
        let values = match parse_i64_words(ls[i].as_slice()) {
            Some(vs) => vs,
            None => {
                assert(fits_i64(words(v[i as int])[0]));
                return 0;
            },
        };
        assert(ints(values@) =~= ss[i as int]);
        assert(extrapolable(ss[i as int]));
        let x = match d {
            Direction::Forward => extrapolate_forward(values.as_slice()),
            Direction::Backward => extrapolate_backward(values.as_slice()),
        };
        assert(i64::MIN <= sum_extrapolated(ss, d, i + 1) <= i64::MAX);
        total = total + x;
        i = i + 1;
    }
    total
}

/// The sum of the next elements of the sequences of `input`.
pub fn part1(input: &str) -> (r: i64)
    requires
        document_ok(input@, Direction::Forward),
    ensures
        r == sum_extrapolated(sequences(input@), Direction::Forward, sequences(input@).len() as int),
{
    sum_extrapolation(input, Direction::Forward)
}

/// The sum of the elements before the sequences of `input`.
pub fn part2(input: &str) -> (r: i64)
    requires
        document_ok(input@, Direction::Backward),
    ensures
        r == sum_extrapolated(sequences(input@), Direction::Backward, sequences(input@).len() as int),
{
    sum_extrapolation(input, Direction::Backward)
}

} // verus!
