//! Boat races: holding the button for `h` of a race's `d` milliseconds moves
//! the boat `h * (d - h)` millimetres; count the hold times that beat the record.
use crate::text::{
    chars_of, decimal, find, find_char, is_decimal, parse_decimal, slice_range, trim, trim_of,
    u64_text, nat_text, views, words, words_of,
};
use vstd::prelude::*;

verus! {

/// One race: its length in time and the distance to beat.
#[derive(Debug)]
pub struct Race {
    pub duration: u64,
    pub distance_record: u64,
}

/// All the races of a sheet.
#[derive(Debug)]
pub struct Sheet {
    pub races: Vec<Race>,
}

/// Text that does not write a sheet.
#[derive(Debug, PartialEq, Eq, Structural)]
pub struct ParseSheetErr;

/// `w` is a decimal numeral whose value fits in a `u64`.
pub open spec fn fits_u64(w: Seq<char>) -> bool {
    is_decimal(w) && decimal(w) <= u64::MAX
}

/// The numbers written after the first `:` of `line`.
pub open spec fn line_numbers(line: Seq<char>) -> Option<Seq<u64>> {
    match find(line, ':') {
        None => None,
        Some(k) => {
            let ws = words(line.skip(k as int + 1));
            if forall|i: int| 0 <= i < ws.len() ==> fits_u64(#[trigger] ws[i]) {
                Some(ws.map_values(|w: Seq<char>| decimal(w) as u64))
            } else {
                None
            }
        },
    }
}

/// Reads the numbers written after the first `:` of `s`.
pub fn parse_line(s: &[char]) -> (r: Result<Vec<u64>, ParseSheetErr>)
    ensures
        match line_numbers(s@) {
            Some(ns) => r is Ok && r->Ok_0@ == ns,
            None => r is Err,
        },
{
    let n = s.len();
    let k = match find_char(s, ':') {
        Some(k) => k,
        None => {
            return Err(ParseSheetErr);
        },
    };
    let rest = slice_range(s, k + 1, n);
    assert(rest@ =~= s@.skip(k + 1));
    let ws = words_of(rest.as_slice());
    let ghost v = views(ws@);
    let mut out: Vec<u64> = Vec::new();
    let mut i: usize = 0;
    while i < ws.len()
        invariant
            v == views(ws@),
            v == words(s@.skip(k + 1)),
            find(s@, ':') == Some(k as nat),
            i <= v.len(),
            forall|a: int| 0 <= a < i ==> fits_u64(#[trigger] v[a]),
            out@ == v.take(i as int).map_values(|w: Seq<char>| decimal(w) as u64),
        decreases v.len() - i,
    {
        assert(v[i as int] == ws@[i as int]@);
        match parse_decimal(ws[i].as_slice(), u64::MAX) {
            Some(x) => {
                out.push(x);
                proof {
                    assert(out@ =~= v.take(i + 1).map_values(|w: Seq<char>| decimal(w) as u64));
                }
            },
            None => {
                return Err(ParseSheetErr);
            },
        }
        i = i + 1;
    }
    proof {
        assert(v.take(i as int) =~= v);
    }
    Ok(out)
}

/// The races written by `text`: after trimming, a line of times and a line
/// of records, paired up as far as both go.
pub open spec fn sheet_of(text: Seq<char>) -> Option<Seq<(u64, u64)>> {
    let t = trim(text);
    match find(t, '\n') {
        None => None,
        Some(k) => match (line_numbers(t.take(k as int)), line_numbers(t.skip(k as int + 1))) {
            (Some(ts), Some(ds)) => {
                let n = if ts.len() < ds.len() { ts.len() } else { ds.len() };
                Some(Seq::new(n, |i: int| (ts[i], ds[i])))
            },
            _ => None,
        },
    }
}

/// The duration and record of each race of `races`.
pub open spec fn race_pairs(races: Seq<Race>) -> Seq<(u64, u64)> {
    races.map_values(|r: Race| (r.duration, r.distance_record))
}

impl Sheet {
    /// Reads a sheet.
    pub fn parse(text: &[char]) -> (r: Result<Sheet, ParseSheetErr>)
        ensures
            match sheet_of(text@) {
                Some(ps) => r is Ok && race_pairs(r->Ok_0.races@) == ps,
                None => r is Err,
            },
    {
        let t = trim_of(text);
        let n = t.len();
        let k = match find_char(t.as_slice(), '\n') {
            Some(k) => k,
            None => {
                return Err(ParseSheetErr);
            },
        };
        let first = slice_range(t.as_slice(), 0, k);
        let second = slice_range(t.as_slice(), k + 1, n);
        assert(first@ =~= t@.take(k as int));
        assert(second@ =~= t@.skip(k + 1));
        let times = parse_line(first.as_slice())?;
        let distances = parse_line(second.as_slice())?;
        let m = if times.len() < distances.len() { times.len() } else { distances.len() };
        let ghost want = sheet_of(text@)->0;
        let mut races: Vec<Race> = Vec::new();
        let mut i: usize = 0;
        while i < m
            invariant
                m <= times@.len(),
                m <= distances@.len(),
                want.len() == m,
                forall|a: int| 0 <= a < m ==> #[trigger] want[a] == (times@[a], distances@[a]),
                i <= m,
                races@.len() == i,
                race_pairs(races@) == want.take(i as int),
            decreases m - i,
        {
            let ghost before = races@;
            races.push(Race { duration: times[i], distance_record: distances[i] });
            proof {
                assert(race_pairs(races@) =~= race_pairs(before).push(want[i as int]));
                assert(want.take(i + 1) =~= want.take(i as int).push(want[i as int]));
            }
            i = i + 1;
        }
        proof {
            assert(want.take(i as int) =~= want);
        }
        Ok(Sheet { races })
    }
}

/// How far the boat goes in a race of length `d` when the button is held for `h`.
pub open spec fn travel(d: int, h: int) -> int {
    if h == 0 || h >= d {
        0
    } else {
        h * (d - h)
    }
}

/// The distance covered in `race` when the button is held for `hold_time`.
pub fn distance(race: &Race, hold_time: u64) -> (r: u128)
    ensures
        r == travel(race.duration as int, hold_time as int),
{
    if hold_time == 0 || hold_time >= race.duration {
        return 0;
    }
    let h = hold_time as u128;
    let rest = (race.duration - hold_time) as u128;
    assert(h * rest <= u64::MAX * u64::MAX) by (nonlinear_arith)
        requires
            h <= u64::MAX,
            rest <= u64::MAX,
    ;
    h * rest
}

/// The number of hold times below `k` that beat the record of a race of
/// length `d` with record `rec`.
pub open spec fn wins_below(d: int, rec: int, k: int) -> nat
    decreases k,
{
    if k <= 0 {
        0
    } else {
        wins_below(d, rec, k - 1) + if travel(d, k - 1) > rec { 1nat } else { 0nat }
    }
}

/// The number of hold times, from `0` up to the race's length, that beat its record.
pub fn num_ways_to_win(race: &Race) -> (r: u64)
    ensures
        r == wins_below(race.duration as int, race.distance_record as int, race.duration as int),
{
    let ghost d = race.duration as int;
    let ghost rec = race.distance_record as int;
    let mut n: u64 = 0;
    let mut h: u64 = 0;
    while h < race.duration
        invariant
            d == race.duration,
            rec == race.distance_record,
            h <= race.duration,
            n == wins_below(d, rec, h as int),
            n <= h,
        decreases race.duration - h,
    {
        if distance(race, h) > race.distance_record as u128 {
            n = n + 1;
        }
        h = h + 1;
    }
    n
}

/// The product of the win counts of `races`.
pub open spec fn product_of_wins(races: Seq<(u64, u64)>) -> int
    decreases races.len(),
{
    if races.len() == 0 {
        1
    } else {
        let r = races.last();
        product_of_wins(races.drop_last()) * wins_below(r.0 as int, r.1 as int, r.0 as int)
    }
}

/// Every partial product of the win counts of `races` fits in a `u64`.
pub open spec fn products_fit(races: Seq<(u64, u64)>) -> bool {
    forall|k: int| 0 <= k <= races.len() ==> #[trigger] product_of_wins(races.take(k)) <= u64::MAX
}

/// The product of the win counts of the races of `input`, as text.
pub fn part1(input: &str) -> (r: String)
    requires
        sheet_of(input@) is Some,
        products_fit(sheet_of(input@)->0),
    ensures
        r@ == nat_text(product_of_wins(sheet_of(input@)->0) as nat),
{
    let chars = chars_of(input);
    let sheet = match Sheet::parse(chars.as_slice()) {
        Ok(s) => s,
        Err(_) => {
            return String::new();
        },
    };
    let ghost ps = race_pairs(sheet.races@);
    let mut acc: u64 = 1;
    let mut i: usize = 0;
    assert(ps.take(0) =~= Seq::<(u64, u64)>::empty());
    while i < sheet.races.len()
        invariant
            ps == race_pairs(sheet.races@),
            products_fit(ps),
            i <= ps.len(),
            acc == product_of_wins(ps.take(i as int)),
        decreases ps.len() - i,
    {
        let w = num_ways_to_win(&sheet.races[i]);
        proof {
            assert(ps.take(i + 1).drop_last() =~= ps.take(i as int));
            assert(ps.take(i + 1).last() == ps[i as int]);
            assert(product_of_wins(ps.take(i + 1)) <= u64::MAX);
        }
        acc = acc * w;
        i = i + 1;
    }
    proof {
        assert(ps.take(i as int) =~= ps);
    }
    u64_text(acc)
}

/// `s` without its spaces.
pub open spec fn without_spaces(s: Seq<char>) -> Seq<char>
    decreases s.len(),
{
    if s.len() == 0 {
        s
    } else if s.last() == ' ' {
        without_spaces(s.drop_last())
    } else {
        without_spaces(s.drop_last()).push(s.last())
    }
}

fn remove_spaces(s: &[char]) -> (r: Vec<char>)
    ensures
        r@ == without_spaces(s@),
{
    let mut r: Vec<char> = Vec::new();
    let mut i: usize = 0;
    while i < s.len()
        invariant
            i <= s@.len(),
            r@ == without_spaces(s@.take(i as int)),
        decreases s@.len() - i,
    {
        proof {
            assert(s@.take(i + 1).drop_last() =~= s@.take(i as int));
        }
        if s[i] != ' ' {
            r.push(s[i]);
        }
        i = i + 1;
    }
    proof {
        assert(s@.take(i as int) =~= s@);
    }
    r
}

/// The win count of the single race that `input` writes once its spaces are
/// removed, as text.
pub fn part2(input: &str) -> (r: String)
    requires
        sheet_of(without_spaces(input@)) is Some,
        (sheet_of(without_spaces(input@))->0).len() == 1,
    ensures
        ({
            let race = (sheet_of(without_spaces(input@))->0)[0];
            r@ == nat_text(wins_below(race.0 as int, race.1 as int, race.0 as int))
        }),
{
    let chars = chars_of(input);
    let joined = remove_spaces(chars.as_slice());
    let sheet = match Sheet::parse(joined.as_slice()) {
        Ok(s) => s,
        Err(_) => {
            return String::new();
        },
    };
    assert(race_pairs(sheet.races@)[0] == (sheet.races@[0].duration, sheet.races@[0].distance_record));
    u64_text(num_ways_to_win(&sheet.races[0]))
}

} // verus!
