//! Calibration values: each line's first and last digit form a two-digit number.
use crate::text::{
    chars_of, digit_char, digit_str, digit_value, is_digit, lines, lines_of, nat_text, u64_text, views,
};
use vstd::prelude::*;

verus! {

/// The value of the first digit of `s`, if any.
pub open spec fn first_digit(s: Seq<char>) -> Option<nat>
    decreases s.len(),
{
    if s.len() == 0 {
        None
    } else {
        match first_digit(s.drop_last()) {
            Some(d) => Some(d),
            None => if is_digit(s.last()) {
                Some(digit_value(s.last()))
            } else {
                None
            },
        }
    }
}

/// The value of the last digit of `s`, if any.
pub open spec fn last_digit(s: Seq<char>) -> Option<nat>
    decreases s.len(),
{
    if s.len() == 0 {
        None
    } else if is_digit(s.last()) {
        Some(digit_value(s.last()))
    } else {
        last_digit(s.drop_last())
    }
}

/// The calibration value of a line: ten times its first digit plus its last.
pub open spec fn line_value(s: Seq<char>) -> nat {
    10 * first_digit(s)->0 + last_digit(s)->0
}

/// The sum of the values of the first `k` lines of `ls`.
pub open spec fn sum_values(ls: Seq<Seq<char>>, k: int) -> nat
    decreases k,
{
    if k <= 0 {
        0
    } else {
        sum_values(ls, k - 1) + line_value(ls[k - 1])
    }
}

/// Every line of `ls` holds a digit, and the sum of their values fits in a `u32`.
pub open spec fn lines_ok(ls: Seq<Seq<char>>) -> bool {
    &&& forall|i: int| 0 <= i < ls.len() ==> (#[trigger] first_digit(ls[i])) is Some
    &&& sum_values(ls, ls.len() as int) <= u32::MAX
}

proof fn lemma_digits_agree(s: Seq<char>)
    ensures
        first_digit(s) is Some <==> last_digit(s) is Some,
        first_digit(s) is Some ==> first_digit(s)->0 <= 9 && last_digit(s)->0 <= 9,
    decreases s.len(),
{
    if s.len() > 0 {
        lemma_digits_agree(s.drop_last());
    }
}

proof fn lemma_sum_monotone(ls: Seq<Seq<char>>, j: int, k: int)
    requires
        0 <= j <= k,
    ensures
        sum_values(ls, j) <= sum_values(ls, k),
    decreases k - j,
{
    if j < k {
        lemma_sum_monotone(ls, j, k - 1);
    }
}

/// The first and last digit of `line`, if it has one.
pub fn digits_of_line(line: &[char]) -> (r: Option<(u32, u32)>)
    ensures
        r is Some <==> first_digit(line@) is Some,
        r is Some ==> (r->0).0 == first_digit(line@)->0 && (r->0).1 == last_digit(line@)->0,
{
    let mut first: Option<u32> = None;
    let mut last: u32 = 0;
    let mut i: usize = 0;
    while i < line.len()
        invariant
            i <= line@.len(),
            first is Some <==> first_digit(line@.take(i as int)) is Some,
            first is Some ==> first->0 == first_digit(line@.take(i as int))->0,
            first is Some ==> last == last_digit(line@.take(i as int))->0,
            first_digit(line@.take(i as int)) is Some <==> last_digit(line@.take(i as int)) is Some,
        decreases line@.len() - i,
    {
        let c = line[i];
        proof {
            assert(line@.take(i + 1).drop_last() =~= line@.take(i as int));
            lemma_digits_agree(line@.take(i + 1));
        }
        if '0' <= c && c <= '9' {
            let d = c as u32 - '0' as u32;
            if first.is_none() {
                first = Some(d);
            }
            last = d;
        }
        i = i + 1;
    }
    proof {
        assert(line@.take(i as int) =~= line@);
    }
    match first {
        Some(f) => Some((f, last)),
        None => None,
    }
}

/// The sum of the calibration values of the lines of `input`, as text.
pub fn part1(input: &str) -> (r: String)
    requires
        lines_ok(lines(input@)),
    ensures
        r@ == nat_text(sum_values(lines(input@), lines(input@).len() as int)),
{
    let chars = chars_of(input);
    let ls = lines_of(chars.as_slice());
    let ghost v = views(ls@);
    let mut total: u32 = 0;
    let mut i: usize = 0;
    while i < ls.len()
        invariant
            v == views(ls@),
            v == lines(input@),
            lines_ok(v),
            i <= v.len(),
            total == sum_values(v, i as int),
        decreases v.len() - i,
    {
        assert(v[i as int] == ls@[i as int]@);
        let (f, l) = match digits_of_line(ls[i].as_slice()) {
            Some(p) => p,
            None => {
                return String::new();
            },
        };
        proof {
            lemma_digits_agree(v[i as int]);
            lemma_sum_monotone(v, i + 1, v.len() as int);
        }
        total = total + (10 * f + l);
        i = i + 1;
    }
    u64_text(total as u64)
}

/// The English name of the digit `d`, for `1 <= d <= 9`.
pub open spec fn digit_word(d: nat) -> Seq<char> {
    if d == 1 {
        seq!['o', 'n', 'e']
    } else if d == 2 {
        seq!['t', 'w', 'o']
    } else if d == 3 {
        seq!['t', 'h', 'r', 'e', 'e']
    } else if d == 4 {
        seq!['f', 'o', 'u', 'r']
    } else if d == 5 {
        seq!['f', 'i', 'v', 'e']
    } else if d == 6 {
        seq!['s', 'i', 'x']
    } else if d == 7 {
        seq!['s', 'e', 'v', 'e', 'n']
    } else if d == 8 {
        seq!['e', 'i', 'g', 'h', 't']
    } else {
        seq!['n', 'i', 'n', 'e']
    }
}

/// `w` occurs in `s` starting at position `i`.
pub open spec fn occurs_at(s: Seq<char>, i: int, w: Seq<char>) -> bool {
    0 <= i && i + w.len() <= s.len() && s.subrange(i, i + w.len()) == w
}

/// The largest digit `d' <= d` whose name starts at position `i` of `s`, if any.
pub open spec fn spelled_upto(s: Seq<char>, i: int, d: nat) -> Option<nat>
    decreases d,
{
    if d == 0 {
        None
    } else if occurs_at(s, i, digit_word(d)) {
        Some(d)
    } else {
        spelled_upto(s, i, (d - 1) as nat)
    }
}

/// `s` with the first letter of every spelled-out digit replaced by that digit.
pub open spec fn replaced(s: Seq<char>) -> Seq<char> {
    Seq::new(
        s.len(),
        |i: int|
            match spelled_upto(s, i, 9) {
                Some(d) => digit_char(d),
                None => s[i],
            },
    )
}

/// The positions below `k` at which `w` occurs in `s`, in increasing order.
pub open spec fn occurrences(s: Seq<char>, w: Seq<char>, k: int) -> Seq<usize>
    decreases k,
{
    if k <= 0 {
        Seq::empty()
    } else if occurs_at(s, k - 1, w) {
        occurrences(s, w, k - 1).push((k - 1) as usize)
    } else {
        occurrences(s, w, k - 1)
    }
}

fn word_of(d: u32) -> (r: &'static str)
    requires
        1 <= d <= 9,
    ensures
        r@ == digit_word(d as nat),
{
    proof {
        reveal_strlit("one");
        reveal_strlit("two");
        reveal_strlit("three");
        reveal_strlit("four");
        reveal_strlit("five");
        reveal_strlit("six");
        reveal_strlit("seven");
        reveal_strlit("eight");
        reveal_strlit("nine");
    }
    let r = if d == 1 {
        "one"
    } else if d == 2 {
        "two"
    } else if d == 3 {
        "three"
    } else if d == 4 {
        "four"
    } else if d == 5 {
        "five"
    } else if d == 6 {
        "six"
    } else if d == 7 {
        "seven"
    } else if d == 8 {
        "eight"
    } else {
        "nine"
    };
    assert(r@ =~= digit_word(d as nat));
    r
}

fn matches_at(s: &[char], i: usize, w: &[char]) -> (r: bool)
    ensures
        r == occurs_at(s@, i as int, w@),
{
    if w.len() > s.len() || i > s.len() - w.len() {
        return false;
    }
    let mut k: usize = 0;
    while k < w.len()
        invariant
            i + w@.len() <= s@.len(),
            s@.len() <= usize::MAX,
            k <= w@.len(),
            forall|j: int| 0 <= j < k ==> s@[i + j] == w@[j],
        decreases w@.len() - k,
    {
        if s[i + k] != w[k] {
            assert(s@.subrange(i as int, i + w@.len())[k as int] != w@[k as int]);
            return false;
        }
        k = k + 1;
    }
    assert(s@.subrange(i as int, i + w@.len()) =~= w@);
    true
}

/// For each digit whose name occurs in `line`, the digit's character code and
/// the positions of the name, digits in increasing order.
pub fn find_literal_digit_occurrences(line: &str) -> (r: Vec<(u8, Vec<usize>)>)
    ensures
        forall|i: int|
            0 <= i < r@.len() ==> 1 <= (#[trigger] r@[i]).0 - 48 <= 9 && r@[i].1@ == occurrences(
                line@,
                digit_word((r@[i].0 - 48) as nat),
                line@.len() as int,
            ) && r@[i].1@.len() > 0,
        forall|d: nat|
            1 <= d <= 9 && occurrences(line@, digit_word(d), line@.len() as int).len() > 0
                ==> exists|i: int| 0 <= i < r@.len() && #[trigger] r@[i].0 == d + 48,
{
    let chars = chars_of(line);
    let n = chars.len();
    let mut r: Vec<(u8, Vec<usize>)> = Vec::new();
    let mut d: u32 = 1;
    while d <= 9
        invariant
            chars@ == line@,
            n == line@.len(),
            1 <= d <= 10,
            forall|i: int|
                0 <= i < r@.len() ==> 1 <= (#[trigger] r@[i]).0 - 48 < d && r@[i].1@ == occurrences(
                    line@,
                    digit_word((r@[i].0 - 48) as nat),
                    line@.len() as int,
                ) && r@[i].1@.len() > 0,
            forall|e: nat|
                1 <= e < d && occurrences(line@, digit_word(e), line@.len() as int).len() > 0
                    ==> exists|i: int| 0 <= i < r@.len() && #[trigger] r@[i].0 == e + 48,
        decreases 10 - d,
    {
        let word = chars_of(word_of(d));
        let mut locs: Vec<usize> = Vec::new();
        let mut i: usize = 0;
        while i < n
            invariant
                chars@ == line@,
                n == line@.len(),
                1 <= d <= 9,
                word@ == digit_word(d as nat),
                i <= n,
                locs@ == occurrences(line@, digit_word(d as nat), i as int),
            decreases n - i,
        {
            if matches_at(chars.as_slice(), i, word.as_slice()) {
                locs.push(i);
            }
            i = i + 1;
        }
        if locs.len() > 0 {
            let ghost before = r@;
            r.push(((d + 48) as u8, locs));
            proof {
                assert(r@[before.len() as int].0 == d + 48);
                assert forall|e: nat|
                    1 <= e < d + 1 && occurrences(line@, digit_word(e), line@.len() as int).len() > 0
                        implies exists|i: int| 0 <= i < r@.len() && #[trigger] r@[i].0 == e + 48 by {
                    if e < d {
                        let i = choose|i: int| 0 <= i < before.len() && #[trigger] before[i].0 == e + 48;
                        assert(r@[i] == before[i]);
                    }
                }
            }
        }
        d = d + 1;
    }
    r
}

/// The largest digit whose name starts at position `i` of `s`, if any.
fn spelled_at(s: &[char], i: usize) -> (r: Option<u32>)
    ensures
        r is Some ==> spelled_upto(s@, i as int, 9) == Some(r->0 as nat) && 1 <= r->0 <= 9,
        r is None ==> spelled_upto(s@, i as int, 9) is None,
{
    let mut d: u32 = 9;
    while d >= 1
        invariant
            d <= 9,
            spelled_upto(s@, i as int, 9) == spelled_upto(s@, i as int, d as nat),
        decreases d,
    {
        let word = chars_of(word_of(d));
        if matches_at(s, i, word.as_slice()) {
            return Some(d);
        }
        d = d - 1;
    }
    None
}

/// `line` with the first letter of every spelled-out digit replaced by that digit.
pub fn replace_string_numbers(line: &str) -> (r: String)
    ensures
        r@ == replaced(line@),
{
    let chars = chars_of(line);
    let n = chars.len();
    let mut r = String::new();
    let mut i: usize = 0;
    while i < n
        invariant
            chars@ == line@,
            n == line@.len(),
            i <= n,
            r@ == replaced(line@).take(i as int),
        decreases n - i,
    {
        let ghost before = r@;
        match spelled_at(chars.as_slice(), i) {
            Some(d) => {
                r.append(digit_str(d as u64));
            },
            None => {
                r.append(line.substring_char(i, i + 1));
            },
        }
        proof {
            assert(r@[i as int] == replaced(line@)[i as int]);
            assert(r@ =~= replaced(line@).take(i + 1));
        }
        i = i + 1;
    }
    proof {
        assert(replaced(line@).take(n as int) =~= replaced(line@));
    }
    r
}

fn digit_char_of(d: u32) -> (r: char)
    requires
        d <= 9,
    ensures
        r == digit_char(d as nat),
{
    if d == 0 { '0' } else if d == 1 { '1' } else if d == 2 { '2' } else if d == 3 { '3' }
    else if d == 4 { '4' } else if d == 5 { '5' } else if d == 6 { '6' } else if d == 7 { '7' }
    else if d == 8 { '8' } else { '9' }
}

/// `s` with the first letter of every spelled-out digit replaced by that digit.
pub fn replace_in(s: &[char]) -> (r: Vec<char>)
    ensures
        r@ == replaced(s@),
{
    let n = s.len();
    let mut r: Vec<char> = Vec::new();
    let mut i: usize = 0;
    while i < n
        invariant
            n == s@.len(),
            i <= n,
            r@ == replaced(s@).take(i as int),
        decreases n - i,
    {
        match spelled_at(s, i) {
            Some(d) => {
                r.push(digit_char_of(d));
            },
            None => {
                r.push(s[i]);
            },
        }
        proof {
            assert(r@[i as int] == replaced(s@)[i as int]);
            assert(r@ =~= replaced(s@).take(i + 1));
        }
        i = i + 1;
    }
    proof {
        assert(replaced(s@).take(n as int) =~= replaced(s@));
    }
    r
}

/// The sum of the calibration values of the lines of `input` once their
/// spelled-out digits are replaced, as text.
pub fn part2(input: &str) -> (r: String)
    requires
        lines_ok(lines(input@).map_values(|l: Seq<char>| replaced(l))),
    ensures
        r@ == nat_text(
            sum_values(
                lines(input@).map_values(|l: Seq<char>| replaced(l)),
                lines(input@).len() as int,
            ),
        ),
{
    let chars = chars_of(input);
    let ls = lines_of(chars.as_slice());
    let ghost v = views(ls@).map_values(|l: Seq<char>| replaced(l));
    let mut total: u32 = 0;
    let mut i: usize = 0;
    while i < ls.len()
        invariant
            v == views(ls@).map_values(|l: Seq<char>| replaced(l)),
            views(ls@) == lines(input@),
            lines_ok(v),
            i <= v.len(),
            total == sum_values(v, i as int),
        decreases v.len() - i,
    {
        assert(views(ls@)[i as int] == ls@[i as int]@);
        let line_chars = replace_in(ls[i].as_slice());
        assert(line_chars@ == v[i as int]);
        let (f, l) = match digits_of_line(line_chars.as_slice()) {
            Some(p) => p,
            None => {
                return String::new();
            },
        };
        proof {
            lemma_digits_agree(v[i as int]);
            lemma_sum_monotone(v, i + 1, v.len() as int);
        }
        total = total + (10 * f + l);
        i = i + 1;
    }
    u64_text(total as u64)
}

} // verus!
