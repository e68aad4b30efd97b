//! An engine schematic: numbers and symbols on a grid of characters, and the
//! numbers that touch a symbol.
use crate::text::{
    chars_of, decimal, is_decimal, is_digit, lines, lines_of, nat_text,
    parse_decimal, slice_range, trim, trim_of, u64_text, views,
};
use vstd::prelude::*;

verus! {

/// A cell of the grid.
#[derive(Clone, Copy, Debug, PartialEq, Eq, Structural)]
pub struct Location {
    pub row: usize,
    pub col: usize,
}

/// The cells of a number: one row, from `col_begin` up to, not including, `col_end`.
#[derive(Clone, Copy, Debug, PartialEq, Eq, Structural)]
pub struct Extent {
    pub row: usize,
    pub col_begin: usize,
    pub col_end: usize,
}

/// The numbers and the symbols of a schematic, each in reading order.
#[derive(Debug)]
pub struct Schematic {
    pub numbers: Vec<(Extent, u32)>,
    pub symbols: Vec<(Location, char)>,
}

/// Text that does not write a schematic: a number does not fit in a `u32`.
#[derive(Debug, PartialEq, Eq, Structural)]
pub struct ParseSchematicError;

/// `c` is a symbol: neither a digit nor `.`.
pub open spec fn is_symbol(c: char) -> bool {
    !is_digit(c) && c != '.'
}

/// The number of digits at the front of `s`.
pub open spec fn digit_run(s: Seq<char>) -> nat
    decreases s.len(),
{
    if s.len() > 0 && is_digit(s[0]) {
        1 + digit_run(s.drop_first())
    } else {
        0
    }
}

proof fn lemma_digit_run(s: Seq<char>)
    ensures
        digit_run(s) <= s.len(),
        s.len() > 0 && is_digit(s[0]) ==> digit_run(s) >= 1,
    decreases s.len(),
{
    if s.len() > 0 && is_digit(s[0]) {
        lemma_digit_run(s.drop_first());
    }
}

proof fn lemma_digit_run_is(s: Seq<char>, j: int)
    requires
        0 <= j <= s.len(),
        forall|k: int| 0 <= k < j ==> is_digit(s[k]),
        j < s.len() ==> !is_digit(s[j]),
    ensures
        digit_run(s) == j,
    decreases j,
{
    if j > 0 {
        lemma_digit_run_is(s.drop_first(), j - 1);
    }
}

/// The maximal runs of digits of `s`, as start column, end column and text,
/// where `s` starts at column `col`.
pub open spec fn number_runs(s: Seq<char>, col: int) -> Seq<(int, int, Seq<char>)>
    decreases s.len(),
    via number_runs_decreases
{
    if s.len() == 0 {
        Seq::empty()
    } else if is_digit(s[0]) {
        let w = digit_run(s) as int;
        seq![(col, col + w, s.take(w))] + number_runs(s.skip(w), col + w)
    } else {
        number_runs(s.drop_first(), col + 1)
    }
}

#[via_fn]
proof fn number_runs_decreases(s: Seq<char>, col: int) {
    if s.len() > 0 && is_digit(s[0]) {
        lemma_digit_run(s);
    }
}

/// The symbols among the first `k` characters of `s`, with their columns.
pub open spec fn symbols_upto(s: Seq<char>, k: int) -> Seq<(int, char)>
    decreases k,
{
    if k <= 0 {
        Seq::empty()
    } else if is_symbol(s[k - 1]) {
        symbols_upto(s, k - 1).push((k - 1, s[k - 1]))
    } else {
        symbols_upto(s, k - 1)
    }
}

/// A number of the grid as row, start column, end column and value.
pub open spec fn number_view(n: (Extent, u32)) -> (int, int, int, int) {
    (n.0.row as int, n.0.col_begin as int, n.0.col_end as int, n.1 as int)
}

/// A symbol of the grid as row, column and character.
pub open spec fn symbol_view(s: (Location, char)) -> (int, int, char) {
    (s.0.row as int, s.0.col as int, s.1)
}

/// The numbers of line `row` with text `s`.
pub open spec fn line_numbers(s: Seq<char>, row: int) -> Seq<(int, int, int, int)> {
    number_runs(s, 0).map_values(|r: (int, int, Seq<char>)| (row, r.0, r.1, decimal(r.2) as int))
}

/// The symbols of line `row` with text `s`.
pub open spec fn line_symbols(s: Seq<char>, row: int) -> Seq<(int, int, char)> {
    symbols_upto(s, s.len() as int).map_values(|p: (int, char)| (row, p.0, p.1))
}

/// Every number of the line `s` fits in a `u32`.
pub open spec fn line_fits(s: Seq<char>) -> bool {
    forall|i: int|
        0 <= i < number_runs(s, 0).len() ==> decimal(#[trigger] number_runs(s, 0)[i].2) <= u32::MAX
}

/// The numbers of the first `k` lines of `ls`.
pub open spec fn grid_numbers(ls: Seq<Seq<char>>, k: int) -> Seq<(int, int, int, int)>
    decreases k,
{
    if k <= 0 {
        Seq::empty()
    } else {
        grid_numbers(ls, k - 1) + line_numbers(ls[k - 1], k - 1)
    }
}

/// The symbols of the first `k` lines of `ls`.
pub open spec fn grid_symbols(ls: Seq<Seq<char>>, k: int) -> Seq<(int, int, char)>
    decreases k,
{
    if k <= 0 {
        Seq::empty()
    } else {
        grid_symbols(ls, k - 1) + line_symbols(ls[k - 1], k - 1)
    }
}

/// The lines of the schematic written by `text`.
pub open spec fn grid_lines(text: Seq<char>) -> Seq<Seq<char>> {
    lines(trim(text))
}

/// Every number of the schematic written by `text` fits in a `u32`.
pub open spec fn grid_fits(text: Seq<char>) -> bool {
    forall|i: int| 0 <= i < grid_lines(text).len() ==> line_fits(#[trigger] grid_lines(text)[i])
}

/// Appends the number whose digits are `digits`, found on `row` from column
/// `col`, unless `digits` is empty; the digits are then cleared.
pub fn flush_current_number(
    row: usize,
    current_number_col: usize,
    current_number: &mut Vec<char>,
    numbers: &mut Vec<(Extent, u32)>,
) -> (r: Result<(), ParseSchematicError>)
    requires
        old(current_number)@.len() > 0 ==> is_decimal(old(current_number)@),
        current_number_col + old(current_number)@.len() <= usize::MAX,
    ensures
        final(current_number)@.len() == 0,
        old(current_number)@.len() == 0 ==> r is Ok && final(numbers)@ == old(numbers)@,
        old(current_number)@.len() > 0 ==> (r is Ok <==> decimal(old(current_number)@) <= u32::MAX),
        old(current_number)@.len() > 0 && r is Ok ==> final(numbers)@ == old(numbers)@.push(
            (
                Extent {
                    row,
                    col_begin: current_number_col,
                    col_end: (current_number_col + old(current_number)@.len()) as usize,
                },
                decimal(old(current_number)@) as u32,
            ),
        ),
{
    if current_number.len() == 0 {
        return Ok(());
    }
    let number = match parse_decimal(current_number.as_slice(), u32::MAX as u64) {
        Some(v) => v as u32,
        None => {
            current_number.clear();
            return Err(ParseSchematicError);
        },
    };
    let len = current_number.len();
    numbers.push(
        (Extent { row, col_begin: current_number_col, col_end: current_number_col + len }, number),
    );
    current_number.clear();
    Ok(())
}

proof fn lemma_symbols_skip_digits(s: Seq<char>, i: int, j: int)
    requires
        0 <= i <= j <= s.len(),
        forall|k: int| i <= k < j ==> is_digit(s[k]),
    ensures
        symbols_upto(s, j) == symbols_upto(s, i),
    decreases j - i,
{
    if j > i {
        lemma_symbols_skip_digits(s, i, j - 1);
    }
}

fn is_digit_char(c: char) -> (r: bool)
    ensures
        r == is_digit(c),
{
    '0' <= c && c <= '9'
}

/// The numbers and symbols of one line, appended to `numbers` and `symbols`.
fn scan_line(
    line: &[char],
    row: usize,
    numbers: &mut Vec<(Extent, u32)>,
    symbols: &mut Vec<(Location, char)>,
) -> (r: Result<(), ParseSchematicError>)
    ensures
        r is Ok <==> line_fits(line@),
        r is Ok ==> final(numbers)@.map_values(|n: (Extent, u32)| number_view(n)) == old(
            numbers,
        )@.map_values(|n: (Extent, u32)| number_view(n)) + line_numbers(line@, row as int),
        r is Ok ==> final(symbols)@.map_values(|p: (Location, char)| symbol_view(p)) == old(
            symbols,
        )@.map_values(|p: (Location, char)| symbol_view(p)) + line_symbols(line@, row as int),
{
    let ghost s = line@;
    let ghost n0 = old(numbers)@.map_values(|n: (Extent, u32)| number_view(n));
    let ghost y0 = old(symbols)@.map_values(|p: (Location, char)| symbol_view(p));
    let ghost all = line_numbers(s, row as int);
    let n = line.len();
    let mut i: usize = 0;
    let ghost mut done: Seq<(int, int, int, int)> = Seq::empty();
    proof {
        assert(s.skip(0) =~= s);
    }
    while i < n
        invariant
            s == line@,
            n == s.len(),
            i <= n,
            numbers@.map_values(|n: (Extent, u32)| number_view(n)) == n0 + done,
            done + number_runs(s.skip(i as int), i as int).map_values(
                |r: (int, int, Seq<char>)| (row as int, r.0, r.1, decimal(r.2) as int),
            ) == all,
            forall|a: int| 0 <= a < done.len() ==> (#[trigger] done[a]).3 <= u32::MAX,
            all == line_numbers(s, row as int),
            line_fits(s) <==> forall|a: int|
                0 <= a < number_runs(s.skip(i as int), i as int).len() ==> decimal(
                    #[trigger] number_runs(s.skip(i as int), i as int)[a].2,
                ) <= u32::MAX,
            symbols@.map_values(|p: (Location, char)| symbol_view(p)) == y0 + symbols_upto(
                s,
                i as int,
            ).map_values(|p: (int, char)| (row as int, p.0, p.1)),
        decreases n - i,
    {
        let ghost t = s.skip(i as int);
        let c = line[i];
        assert(t[0] == c);
        if is_digit_char(c) {
            let mut j: usize = i;
            while j < n && is_digit_char(line[j])
                invariant
                    s == line@,
                    n == s.len(),
                    i <= j <= n,
                    forall|k: int| i <= k < j ==> is_digit(s[k]),
                decreases n - j,
            {
                j = j + 1;
            }
            let mut digits = slice_range(line, i, j);
            proof {
                assert forall|k: int| 0 <= k < j - i implies is_digit(t[k]) by {
                    assert(t[k] == s[i + k]);
                }
                if j < n {
                    assert(t[j - i] == s[j as int]);
                }
                lemma_digit_run_is(t, j - i);
                assert(t.take(j - i) =~= digits@);
                assert(t.skip(j - i) =~= s.skip(j as int));
                lemma_symbols_skip_digits(s, i as int, j as int);
            }
            let ghost before = numbers@;
            let ghost text = digits@;
            let res = flush_current_number(row, i, &mut digits, numbers);
            if res.is_err() {
                proof {
                    assert(number_runs(t, i as int)[0].2 == text);
                }
                return Err(ParseSchematicError);
            }
            proof {
                let entry = (row as int, i as int, j as int, decimal(text) as int);
                assert(numbers@.map_values(|n: (Extent, u32)| number_view(n)) =~= before.map_values(
                    |n: (Extent, u32)| number_view(n),
                ).push(entry));
                let rest = number_runs(s.skip(j as int), j as int);
                assert(number_runs(t, i as int) == seq![(i as int, j as int, text)] + rest);
                assert(number_runs(t, i as int).map_values(
                    |r: (int, int, Seq<char>)| (row as int, r.0, r.1, decimal(r.2) as int),
                ) =~= seq![entry] + rest.map_values(
                    |r: (int, int, Seq<char>)| (row as int, r.0, r.1, decimal(r.2) as int),
                ));
                assert(done.push(entry) + rest.map_values(
                    |r: (int, int, Seq<char>)| (row as int, r.0, r.1, decimal(r.2) as int),
                ) =~= all);
                assert forall|a: int| 0 <= a < rest.len() implies decimal(#[trigger] rest[a].2)
                    == decimal(number_runs(t, i as int)[a + 1].2) by {
                    assert(number_runs(t, i as int)[a + 1] == rest[a]);
                }
                assert(line_fits(s) <==> forall|a: int|
                    0 <= a < rest.len() ==> decimal(#[trigger] rest[a].2) <= u32::MAX) by {
                    if forall|a: int| 0 <= a < rest.len() ==> decimal(#[trigger] rest[a].2) <= u32::MAX {
                        assert forall|a: int|
                            0 <= a < number_runs(t, i as int).len() implies decimal(
                            #[trigger] number_runs(t, i as int)[a].2,
                        ) <= u32::MAX by {
                            if a > 0 {
                                assert(number_runs(t, i as int)[a] == rest[a - 1]);
                            }
                        }
                    }
                }
                done = done.push(entry);
            }
            i = j;
        } else {
            let ghost rows_before = symbols@.map_values(|p: (Location, char)| symbol_view(p));
            if c != '.' {
                symbols.push((Location { row, col: i }, c));
                proof {
                    assert(symbols@.map_values(|p: (Location, char)| symbol_view(p)) =~= rows_before.push(
                        (row as int, i as int, c),
                    ));
                }
            }
            proof {
                assert(t.drop_first() =~= s.skip(i + 1));
                assert(symbols_upto(s, i + 1).map_values(|p: (int, char)| (row as int, p.0, p.1))
                    =~= if is_symbol(c) {
                    symbols_upto(s, i as int).map_values(|p: (int, char)| (row as int, p.0, p.1)).push(
                        (row as int, i as int, c),
                    )
                } else {
                    symbols_upto(s, i as int).map_values(|p: (int, char)| (row as int, p.0, p.1))
                });
            }
            i = i + 1;
        }
    }
    proof {
        assert(s.skip(n as int).len() == 0);
        assert(done =~= all);
        assert forall|a: int| 0 <= a < number_runs(s, 0).len() implies decimal(
            #[trigger] number_runs(s, 0)[a].2,
        ) <= u32::MAX by {
            assert(all[a].3 == decimal(number_runs(s, 0)[a].2) as int);
        }
    }
    Ok(())
}

impl Schematic {
    /// Reads a schematic: its numbers are the maximal runs of digits of each
    /// line, its symbols the characters that are neither digits nor `.`.
    pub fn parse(text: &[char]) -> (r: Result<Schematic, ParseSchematicError>)
        ensures
            r is Ok <==> grid_fits(text@),
            r is Ok ==> r->Ok_0.numbers@.map_values(|n: (Extent, u32)| number_view(n))
                == grid_numbers(grid_lines(text@), grid_lines(text@).len() as int),
            r is Ok ==> r->Ok_0.symbols@.map_values(|p: (Location, char)| symbol_view(p))
                == grid_symbols(grid_lines(text@), grid_lines(text@).len() as int),
    {
        let trimmed = trim_of(text);
        let ls = lines_of(trimmed.as_slice());
        let ghost v = views(ls@);
        let mut numbers: Vec<(Extent, u32)> = Vec::new();
        let mut symbols: Vec<(Location, char)> = Vec::new();
        let mut row: usize = 0;
        proof {
            assert(numbers@.map_values(|n: (Extent, u32)| number_view(n)) =~= grid_numbers(v, 0));
            assert(symbols@.map_values(|p: (Location, char)| symbol_view(p)) =~= grid_symbols(v, 0));
        }
        while row < ls.len()
            invariant
                v == views(ls@),
                v == grid_lines(text@),
                row <= v.len(),
                forall|a: int| 0 <= a < row ==> line_fits(#[trigger] v[a]),
                numbers@.map_values(|n: (Extent, u32)| number_view(n)) == grid_numbers(v, row as int),
                symbols@.map_values(|p: (Location, char)| symbol_view(p)) == grid_symbols(v, row as int),
            decreases v.len() - row,
        {
            assert(v[row as int] == ls@[row as int]@);
            let res = scan_line(ls[row].as_slice(), row, &mut numbers, &mut symbols);
            if res.is_err() {
                return Err(ParseSchematicError);
            }
            row = row + 1;
        }
        Ok(Schematic { numbers, symbols })
    }
}

impl core::str::FromStr for Schematic {
    type Err = ParseSchematicError;

    fn from_str(s: &str) -> Result<Schematic, ParseSchematicError> {
        let chars = chars_of(s);
        Schematic::parse(chars.as_slice())
    }
}

/// `x - 1`, or `0` when `x` is `0`.
pub open spec fn before(x: int) -> int {
    if x == 0 { 0 } else { x - 1 }
}

/// One less than `x`, or `x` itself when it is zero.
pub fn one_before(x: usize) -> (r: usize)
    ensures
        r == before(x as int),
{
    if x == 0 {
        x
    } else {
        x - 1
    }
}

/// The number on `row` from column `b` up to `e` touches the cell at
/// (`lr`, `lc`), diagonals included.
pub open spec fn touches(row: int, b: int, e: int, lr: int, lc: int) -> bool {
    &&& before(lr) <= row
    &&& row <= lr + 1
    &&& before(lc) < e
    &&& b <= lc + 1
}

/// Whether the number at `extent` touches `location`, diagonals included.
pub fn is_adjacent(extent: &Extent, location: &Location) -> (r: bool)
    ensures
        r == touches(
            extent.row as int,
            extent.col_begin as int,
            extent.col_end as int,
            location.row as int,
            location.col as int,
        ),
{
    if one_before(location.row) > extent.row {
        return false;
    }
    if location.row < extent.row && location.row + 1 < extent.row {
        return false;
    }
    if one_before(location.col) >= extent.col_end {
        return false;
    }
    if location.col < extent.col_begin && location.col + 1 < extent.col_begin {
        return false;
    }
    true
}

/// The number `n` touches some symbol of `syms`.
pub open spec fn touches_symbol(n: (int, int, int, int), syms: Seq<(int, int, char)>) -> bool {
    exists|j: int| 0 <= j < syms.len() && touches(n.0, n.1, n.2, (#[trigger] syms[j]).0, syms[j].1)
}

/// The sum of the first `k` numbers of `nums` that touch a symbol of `syms`.
pub open spec fn part_sum(nums: Seq<(int, int, int, int)>, syms: Seq<(int, int, char)>, k: int) -> int
    decreases k,
{
    if k <= 0 {
        0
    } else {
        part_sum(nums, syms, k - 1) + if touches_symbol(nums[k - 1], syms) {
            nums[k - 1].3
        } else {
            0
        }
    }
}

/// The numbers of `nums` that touch the cell (`lr`, `lc`), among the first `k`.
pub open spec fn touching(nums: Seq<(int, int, int, int)>, lr: int, lc: int, k: int) -> Seq<int>
    decreases k,
{
    if k <= 0 {
        Seq::empty()
    } else if touches(nums[k - 1].0, nums[k - 1].1, nums[k - 1].2, lr, lc) {
        touching(nums, lr, lc, k - 1).push(nums[k - 1].3)
    } else {
        touching(nums, lr, lc, k - 1)
    }
}

/// The sum of the gear ratios among the first `k` symbols of `syms`: a `*`
/// touched by exactly two numbers contributes their product.
pub open spec fn gear_sum(nums: Seq<(int, int, int, int)>, syms: Seq<(int, int, char)>, k: int) -> int
    decreases k,
{
    if k <= 0 {
        0
    } else {
        let s = syms[k - 1];
        let t = touching(nums, s.0, s.1, nums.len() as int);
        gear_sum(nums, syms, k - 1) + if s.2 == '*' && t.len() == 2 {
            t[0] * t[1]
        } else {
            0
        }
    }
}

proof fn lemma_part_sum_monotone(nums: Seq<(int, int, int, int)>, syms: Seq<(int, int, char)>, j: int, k: int)
    requires
        0 <= j <= k <= nums.len(),
        forall|a: int| 0 <= a < nums.len() ==> (#[trigger] nums[a]).3 >= 0,
    ensures
        part_sum(nums, syms, j) <= part_sum(nums, syms, k),
    decreases k - j,
{
    if j < k {
        lemma_part_sum_monotone(nums, syms, j, k - 1);
    }
}

proof fn lemma_gear_sum_monotone(nums: Seq<(int, int, int, int)>, syms: Seq<(int, int, char)>, j: int, k: int)
    requires
        0 <= j <= k <= syms.len(),
        forall|a: int| 0 <= a < nums.len() ==> (#[trigger] nums[a]).3 >= 0,
    ensures
        gear_sum(nums, syms, j) <= gear_sum(nums, syms, k),
    decreases k - j,
{
    if j < k {
        lemma_gear_sum_monotone(nums, syms, j, k - 1);
        let s = syms[k - 1];
        lemma_touching_nonneg(nums, s.0, s.1, nums.len() as int);
        let t = touching(nums, s.0, s.1, nums.len() as int);
        if s.2 == '*' && t.len() == 2 {
            assert(t[0] * t[1] >= 0) by (nonlinear_arith)
                requires
                    t[0] >= 0,
                    t[1] >= 0,
            ;
        }
    }
}

proof fn lemma_touching_nonneg(nums: Seq<(int, int, int, int)>, lr: int, lc: int, k: int)
    requires
        0 <= k <= nums.len(),
        forall|a: int| 0 <= a < nums.len() ==> (#[trigger] nums[a]).3 >= 0,
    ensures
        forall|a: int| 0 <= a < touching(nums, lr, lc, k).len() ==> #[trigger] touching(nums, lr, lc, k)[a] >= 0,
    decreases k,
{
    if k > 0 {
        lemma_touching_nonneg(nums, lr, lc, k - 1);
        let prev = touching(nums, lr, lc, k - 1);
        assert(nums[k - 1].3 >= 0);
        assert forall|a: int| 0 <= a < touching(nums, lr, lc, k).len() implies #[trigger] touching(
            nums,
            lr,
            lc,
            k,
        )[a] >= 0 by {
            if a < prev.len() {
                assert(touching(nums, lr, lc, k)[a] == prev[a]);
            }
        }
    }
}

/// The numbers and symbols of the schematic written by `text`.
pub open spec fn grid_parts(text: Seq<char>) -> (Seq<(int, int, int, int)>, Seq<(int, int, char)>) {
    let ls = grid_lines(text);
    (grid_numbers(ls, ls.len() as int), grid_symbols(ls, ls.len() as int))
}

/// The sum of the numbers of `input` that touch a symbol, as text.
pub fn part1(input: &str) -> (r: String)
    requires
        grid_fits(input@),
        part_sum(grid_parts(input@).0, grid_parts(input@).1, grid_parts(input@).0.len() as int)
            <= u32::MAX,
    ensures
        r@ == nat_text(
            part_sum(grid_parts(input@).0, grid_parts(input@).1, grid_parts(input@).0.len() as int) as nat,
        ),
{
    let chars = chars_of(input);
    let schematic = match Schematic::parse(chars.as_slice()) {
        Ok(s) => s,
        Err(_) => {
            return String::new();
        },
    };
    let ghost nums = schematic.numbers@.map_values(|n: (Extent, u32)| number_view(n));
    let ghost syms = schematic.symbols@.map_values(|p: (Location, char)| symbol_view(p));
    let mut total: u32 = 0;
    let mut i: usize = 0;
    while i < schematic.numbers.len()
        invariant
            nums == schematic.numbers@.map_values(|n: (Extent, u32)| number_view(n)),
            syms == schematic.symbols@.map_values(|p: (Location, char)| symbol_view(p)),
            part_sum(nums, syms, nums.len() as int) <= u32::MAX,
            i <= nums.len(),
            total == part_sum(nums, syms, i as int),
        decreases nums.len() - i,
    {
        let (extent, value) = schematic.numbers[i];
        assert(nums[i as int] == number_view((extent, value)));
        let mut found = false;
        let mut j: usize = 0;
        while j < schematic.symbols.len()
            invariant
                syms == schematic.symbols@.map_values(|p: (Location, char)| symbol_view(p)),
                j <= syms.len(),
                found <==> exists|a: int|
                    0 <= a < j && touches(
                        extent.row as int,
                        extent.col_begin as int,
                        extent.col_end as int,
                        (#[trigger] syms[a]).0,
                        syms[a].1,
                    ),
            decreases syms.len() - j,
        {
            let (location, _) = schematic.symbols[j];
            assert(syms[j as int].0 == location.row && syms[j as int].1 == location.col);
            if is_adjacent(&extent, &location) {
                found = true;
            }
            j = j + 1;
        }
        if found {
            proof {
                assert forall|a: int| 0 <= a < nums.len() implies (#[trigger] nums[a]).3 >= 0 by {
                    assert(nums[a] == number_view(schematic.numbers@[a]));
                }
                lemma_part_sum_monotone(nums, syms, i + 1, nums.len() as int);
            }
            total = total + value;
        }
        i = i + 1;
    }
    u64_text(total as u64)
}

/// The sum of the gear ratios of `input`, as text.
pub fn part2(input: &str) -> (r: String)
    requires
        grid_fits(input@),
        gear_sum(grid_parts(input@).0, grid_parts(input@).1, grid_parts(input@).1.len() as int)
            <= u32::MAX,
    ensures
        r@ == nat_text(
            gear_sum(grid_parts(input@).0, grid_parts(input@).1, grid_parts(input@).1.len() as int) as nat,
        ),
{
    let chars = chars_of(input);
    let schematic = match Schematic::parse(chars.as_slice()) {
        Ok(s) => s,
        Err(_) => {
            return String::new();
        },
    };
    let ghost nums = schematic.numbers@.map_values(|n: (Extent, u32)| number_view(n));
    let ghost syms = schematic.symbols@.map_values(|p: (Location, char)| symbol_view(p));
    proof {
        assert forall|a: int| 0 <= a < nums.len() implies (#[trigger] nums[a]).3 >= 0 by {
            assert(nums[a] == number_view(schematic.numbers@[a]));
        }
    }
    let mut total: u32 = 0;
    let mut k: usize = 0;
    while k < schematic.symbols.len()
        invariant
            nums == schematic.numbers@.map_values(|n: (Extent, u32)| number_view(n)),
            syms == schematic.symbols@.map_values(|p: (Location, char)| symbol_view(p)),
            forall|a: int| 0 <= a < nums.len() ==> (#[trigger] nums[a]).3 >= 0,
            gear_sum(nums, syms, syms.len() as int) <= u32::MAX,
            k <= syms.len(),
            total == gear_sum(nums, syms, k as int),
        decreases syms.len() - k,
    {
        let (location, c) = schematic.symbols[k];
        assert(syms[k as int] == symbol_view((location, c)));
        let mut adjacent: Vec<u32> = Vec::new();
        let mut i: usize = 0;
        while i < schematic.numbers.len()
            invariant
                nums == schematic.numbers@.map_values(|n: (Extent, u32)| number_view(n)),
                i <= nums.len(),
                adjacent@.map_values(|x: u32| x as int) == touching(
                    nums,
                    location.row as int,
                    location.col as int,
                    i as int,
                ),
            decreases nums.len() - i,
        {
            let (extent, value) = schematic.numbers[i];
            assert(nums[i as int] == number_view((extent, value)));
            let ghost before = adjacent@;
            if is_adjacent(&extent, &location) {
                adjacent.push(value);
                assert(adjacent@.map_values(|x: u32| x as int) =~= before.map_values(|x: u32| x as int).push(
                    value as int,
                ));
            }
            i = i + 1;
        }
        proof {
            lemma_gear_sum_monotone(nums, syms, k + 1, syms.len() as int);
        }
        if c == '*' && adjacent.len() == 2 {
            let a = adjacent[0];
            let b = adjacent[1];
            assert(adjacent@.map_values(|x: u32| x as int)[0] == a);
            assert(adjacent@.map_values(|x: u32| x as int)[1] == b);
            assert(a as int * b as int + total <= u32::MAX);
            assert(a * b <= u32::MAX) by (nonlinear_arith)
                requires
                    a as int * b as int + total <= u32::MAX,
                    total >= 0,
            ;
            total = total + a * b;
        }
        k = k + 1;
    }
    u64_text(total as u64)
}

} // verus!
