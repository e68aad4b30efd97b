//! Scratchcards: each card's matches between its winning numbers and the
//! numbers it has, scored by doubling, or by winning copies of later cards.
use crate::text::{
    chars_of, decimal, find, find_char, is_decimal, lines, lines_of, nat_text, parse_decimal,
    slice_range, trim, trim_of, u64_text, views, words, words_of,
};
use vstd::prelude::*;

verus! {

/// One card: its winning numbers and the numbers it has.
#[derive(Debug)]
pub struct Card {
    pub winning_numbers: Vec<u32>,
    pub our_numbers: Vec<u32>,
}

/// A line that does not write a card.
#[derive(Debug, PartialEq, Eq, Structural)]
pub struct ParseCardError;

/// `w` is a decimal numeral whose value fits in a `u32`.
pub open spec fn fits_u32(w: Seq<char>) -> bool {
    is_decimal(w) && decimal(w) <= u32::MAX
}

/// The numbers written as the words of `s`, if each is a `u32`.
pub open spec fn numbers_of(s: Seq<char>) -> Option<Seq<u32>> {
    let ws = words(s);
    if forall|i: int| 0 <= i < ws.len() ==> fits_u32(#[trigger] ws[i]) {
        Some(ws.map_values(|w: Seq<char>| decimal(w) as u32))
    } else {
        None
    }
}

/// Reads the words of `s` as `u32` numbers.
pub fn parse_numbers(s: &[char]) -> (r: Option<Vec<u32>>)
    ensures
        match numbers_of(s@) {
            Some(ns) => r is Some && r->0@ == ns,
            None => r is None,
        },
{
    let ws = words_of(s);
    let ghost v = views(ws@);
    let mut out: Vec<u32> = Vec::new();
    let mut i: usize = 0;
    while i < ws.len()
        invariant
            v == views(ws@),
            v == words(s@),
            i <= v.len(),
            forall|a: int| 0 <= a < i ==> fits_u32(#[trigger] v[a]),
            out@ == v.take(i as int).map_values(|w: Seq<char>| decimal(w) as u32),
        decreases v.len() - i,
    {
        assert(v[i as int] == ws@[i as int]@);
        match parse_decimal(ws[i].as_slice(), u32::MAX as u64) {
            Some(x) => {
                out.push(x as u32);
                proof {
                    assert(out@ =~= v.take(i + 1).map_values(|w: Seq<char>| decimal(w) as u32));
                }
            },
            None => {
                return None;
            },
        }
        i = i + 1;
    }
    proof {
        assert(v.take(i as int) =~= v);
    }
    Some(out)
}

/// The card written by `line`: after its first `:`, the winning numbers up to
/// the first `|`, then the numbers it has.
pub open spec fn card_of(line: Seq<char>) -> Option<(Seq<u32>, Seq<u32>)> {
    match find(line, ':') {
        None => None,
        Some(k) => {
            let body = line.skip(k as int + 1);
            match find(body, '|') {
                None => None,
                Some(m) => match (numbers_of(body.take(m as int)), numbers_of(body.skip(m as int + 1))) {
                    (Some(w), Some(o)) => Some((w, o)),
                    _ => None,
                },
            }
        },
    }
}

impl Card {
    /// Reads a card from its line.
    pub fn parse(line: &[char]) -> (r: Result<Card, ParseCardError>)
        ensures
            match card_of(line@) {
                Some((w, o)) => r is Ok && r->Ok_0.winning_numbers@ == w && r->Ok_0.our_numbers@ == o,
                None => r is Err,
            },
    {
        let n = line.len();
        let k = match find_char(line, ':') {
            Some(k) => k,
            None => {
                return Err(ParseCardError);
            },
        };
        let body = slice_range(line, k + 1, n);
        assert(body@ =~= line@.skip(k + 1));
        let bn = body.len();
        let m = match find_char(body.as_slice(), '|') {
            Some(m) => m,
            None => {
                return Err(ParseCardError);
            },
        };
        let left = slice_range(body.as_slice(), 0, m);
        let right = slice_range(body.as_slice(), m + 1, bn);
        assert(left@ =~= body@.take(m as int));
        assert(right@ =~= body@.skip(m + 1));
        let winning_numbers = match parse_numbers(left.as_slice()) {
            Some(w) => w,
            None => {
                return Err(ParseCardError);
            },
        };
        let our_numbers = match parse_numbers(right.as_slice()) {
            Some(o) => o,
            None => {
                return Err(ParseCardError);
            },
        };
        Ok(Card { winning_numbers, our_numbers })
    }
}

/// The number of distinct numbers of the card that are winning numbers.
pub open spec fn matches(w: Seq<u32>, o: Seq<u32>) -> nat {
    o.to_set().intersect(w.to_set()).len()
}

fn contains(s: &[u32], k: usize, x: u32) -> (r: bool)
    requires
        k <= s@.len(),
    ensures
        r == s@.take(k as int).contains(x),
{
    let mut i: usize = 0;
    while i < k
        invariant
            k <= s@.len(),
            i <= k,
            forall|j: int| 0 <= j < i ==> s@[j] != x,
        decreases k - i,
    {
        if s[i] == x {
            assert(s@.take(k as int)[i as int] == x);
            return true;
        }
        i = i + 1;
    }
    proof {
        if s@.take(k as int).contains(x) {
            let j = choose|j: int| 0 <= j < k && s@.take(k as int)[j] == x;
            assert(s@[j] == x);
        }
    }
    false
}

/// The number of distinct numbers that the card has among its winning numbers.
pub fn num_winning(card: &Card) -> (r: usize)
    ensures
        r == matches(card.winning_numbers@, card.our_numbers@),
{
    let ours = card.our_numbers.as_slice();
    let winning = card.winning_numbers.as_slice();
    let ghost wset = winning@.to_set();
    let n = ours.len();
    let mut count: usize = 0;
    let mut i: usize = 0;
    proof {
        vstd::seq_lib::seq_to_set_is_finite(ours@.take(0));
        assert(ours@.take(0).to_set().intersect(wset) =~= Set::<u32>::empty());
    }
    while i < ours.len()
        invariant
            wset == winning@.to_set(),
            i <= ours@.len(),
            count == ours@.take(i as int).to_set().intersect(wset).len(),
            count <= i,
            ours@.len() <= usize::MAX,
        decreases ours@.len() - i,
    {
        let x = ours[i];
        let ghost old_set = ours@.take(i as int).to_set().intersect(wset);
        proof {
            vstd::seq_lib::seq_to_set_is_finite(ours@.take(i as int));
            vstd::seq_lib::seq_to_set_is_finite(winning@);
            assert(ours@.take(i + 1) =~= ours@.take(i as int).push(x));
            let t0 = ours@.take(i as int);
            let t1 = ours@.take(i + 1);
            assert forall|a: u32| t1.contains(a) implies t0.contains(a) || a == x by {
                let j = choose|j: int| 0 <= j < t1.len() && #[trigger] t1[j] == a;
                if j < i {
                    assert(t0[j] == a);
                }
            }
            assert forall|a: u32| t0.contains(a) || a == x implies t1.contains(a) by {
                if a == x {
                    assert(t1[i as int] == x);
                } else {
                    let j = choose|j: int| 0 <= j < t0.len() && #[trigger] t0[j] == a;
                    assert(t1[j] == a);
                }
            }
            assert(ours@.take(i + 1).to_set() =~= ours@.take(i as int).to_set().insert(x));
        }
        let seen = contains(ours, i, x);
        let wins = contains(winning, winning.len(), x);
        proof {
            assert(winning@.take(winning@.len() as int) =~= winning@);
        }
        if !seen && wins {
            proof {
                assert(ours@.take(i + 1).to_set().intersect(wset) =~= old_set.insert(x));
                assert(!old_set.contains(x));
            }
            count = count + 1;
        } else {
            proof {
                assert(ours@.take(i + 1).to_set().intersect(wset) =~= old_set);
            }
        }
        i = i + 1;
    }
    proof {
        assert(ours@.take(i as int) =~= ours@);
    }
    count
}

/// `2` to the power `n`.
pub open spec fn pow2(n: nat) -> nat
    decreases n,
{
    if n == 0 {
        1
    } else {
        2 * pow2((n - 1) as nat)
    }
}

proof fn lemma_pow2_monotone(a: nat, b: nat)
    requires
        a <= b,
    ensures
        1 <= pow2(a) <= pow2(b),
    decreases b,
{
    if b > 0 {
        if a < b {
            lemma_pow2_monotone(a, (b - 1) as nat);
        } else {
            lemma_pow2_monotone((b - 1) as nat, (b - 1) as nat);
        }
    }
}

/// The points of a card with `n` matches: none without a match, else one
/// doubled for each match after the first.
pub open spec fn points(n: nat) -> nat {
    if n == 0 { 0 } else { pow2((n - 1) as nat) }
}

/// The match counts of the cards of `input`, one per line.
pub open spec fn card_matches(input: Seq<char>) -> Seq<nat> {
    lines(trim(input)).map_values(|l: Seq<char>| matches((card_of(l)->0).0, (card_of(l)->0).1))
}

/// Every line of `input` writes a card.
pub open spec fn cards_valid(input: Seq<char>) -> bool {
    forall|i: int| 0 <= i < lines(trim(input)).len() ==> (#[trigger] card_of(lines(trim(input))[i])) is Some
}

/// The points of the first `k` cards with match counts `ms`.
pub open spec fn points_sum(ms: Seq<nat>, k: int) -> nat
    decreases k,
{
    if k <= 0 {
        0
    } else {
        points_sum(ms, k - 1) + points(ms[k - 1])
    }
}

proof fn lemma_points_sum_monotone(ms: Seq<nat>, j: int, k: int)
    requires
        0 <= j <= k,
    ensures
        points_sum(ms, j) <= points_sum(ms, k),
    decreases k - j,
{
    if j < k {
        lemma_points_sum_monotone(ms, j, k - 1);
    }
}

/// The cards of `input`, one per line.
fn read_cards(input: &str) -> (r: Option<Vec<Card>>)
    ensures
        r is Some <==> cards_valid(input@),
        r is Some ==> r->0@.len() == card_matches(input@).len() && forall|i: int|
            0 <= i < r->0@.len() ==> matches(
                (#[trigger] r->0@[i]).winning_numbers@,
                r->0@[i].our_numbers@,
            ) == card_matches(input@)[i],
{
    let chars = chars_of(input);
    let trimmed = trim_of(chars.as_slice());
    let ls = lines_of(trimmed.as_slice());
    let ghost v = views(ls@);
    let mut cards: Vec<Card> = Vec::new();
    let mut i: usize = 0;
    while i < ls.len()
        invariant
            v == views(ls@),
            v == lines(trim(input@)),
            i <= v.len(),
            cards@.len() == i,
            forall|a: int| 0 <= a < i ==> (#[trigger] card_of(v[a])) is Some,
            forall|a: int|
                0 <= a < i ==> matches((#[trigger] cards@[a]).winning_numbers@, cards@[a].our_numbers@)
                    == matches((card_of(v[a])->0).0, (card_of(v[a])->0).1),
        decreases v.len() - i,
    {
        assert(v[i as int] == ls@[i as int]@);
        match Card::parse(ls[i].as_slice()) {
            Ok(c) => {
                let ghost before = cards@;
                cards.push(c);
                proof {
                    assert forall|a: int| 0 <= a < i + 1 implies matches(
                        (#[trigger] cards@[a]).winning_numbers@,
                        cards@[a].our_numbers@,
                    ) == matches((card_of(v[a])->0).0, (card_of(v[a])->0).1) by {
                        if a < i {
                            assert(cards@[a] == before[a]);
                        }
                    }
                }
            },
            Err(_) => {
                return None;
            },
        }
        i = i + 1;
    }
    Some(cards)
}

/// The total points of the cards of `input`, as text.
pub fn part1(input: &str) -> (r: String)
    requires
        cards_valid(input@),
        points_sum(card_matches(input@), card_matches(input@).len() as int) <= u32::MAX,
    ensures
        r@ == nat_text(points_sum(card_matches(input@), card_matches(input@).len() as int)),
{
    let cards = match read_cards(input) {
        Some(c) => c,
        None => {
            return String::new();
        },
    };
    let ghost ms = card_matches(input@);
    let mut total: u32 = 0;
    let mut i: usize = 0;
    while i < cards.len()
        invariant
            ms == card_matches(input@),
            cards@.len() == ms.len(),
            forall|a: int|
                0 <= a < cards@.len() ==> matches(
                    (#[trigger] cards@[a]).winning_numbers@,
                    cards@[a].our_numbers@,
                ) == ms[a],
            points_sum(ms, ms.len() as int) <= u32::MAX,
            i <= ms.len(),
            total == points_sum(ms, i as int),
        decreases ms.len() - i,
    {
        let n = num_winning(&cards[i]);
        proof {
            lemma_points_sum_monotone(ms, i + 1, ms.len() as int);
        }
        if n > 0 {
            let mut p: u32 = 1;
            let mut k: usize = 1;
            while k < n
                invariant
                    1 <= k <= n,
                    p == pow2((k - 1) as nat),
                    total + pow2((n - 1) as nat) <= u32::MAX,
                decreases n - k,
            {
                proof {
                    lemma_pow2_monotone(k as nat, (n - 1) as nat);
                }
                p = p * 2;
                k = k + 1;
            }
            total = total + p;
        }
        i = i + 1;
    }
    u64_text(total as u64)
}

/// The copies of card `i` won from the cards before card `j`: card `c < j`
/// with `m` matches gives one copy of each of the `m` cards after it for each
/// copy of itself.
pub open spec fn won(ms: Seq<nat>, i: int, j: int) -> nat
    decreases i, j,
{
    if j <= 0 || i <= 0 {
        0
    } else {
        let c = j - 1;
        won(ms, i, j - 1) + if c < i && i <= c + ms[c] {
            1 + won(ms, c, c)
        } else {
            0
        }
    }
}

/// How many copies of card `i` there are in the end, the card itself included.
pub open spec fn copies(ms: Seq<nat>, i: int) -> nat {
    1 + won(ms, i, i)
}

/// The number of copies of the first `k` cards.
pub open spec fn copies_sum(ms: Seq<nat>, k: int) -> nat
    decreases k,
{
    if k <= 0 {
        0
    } else {
        copies_sum(ms, k - 1) + copies(ms, k - 1)
    }
}

proof fn lemma_won_settles(ms: Seq<nat>, i: int, j: int)
    requires
        0 <= i <= j,
    ensures
        won(ms, i, j) == won(ms, i, i),
    decreases j - i,
{
    if j > i {
        lemma_won_settles(ms, i, j - 1);
    }
}

proof fn lemma_won_monotone(ms: Seq<nat>, i: int, j: int, k: int)
    requires
        0 <= j <= k,
    ensures
        won(ms, i, j) <= won(ms, i, k),
    decreases k - j,
{
    if j < k {
        lemma_won_monotone(ms, i, j, k - 1);
    }
}

proof fn lemma_copies_sum_bound(ms: Seq<nat>, i: int, k: int)
    requires
        0 <= i < k,
    ensures
        copies(ms, i) <= copies_sum(ms, k),
        copies_sum(ms, k - 1) <= copies_sum(ms, k),
    decreases k,
{
    if i < k - 1 {
        lemma_copies_sum_bound(ms, i, k - 1);
    }
}

/// The total number of cards of `input` in the end, the cards themselves and their copies, as text.
pub fn part2(input: &str) -> (r: String)
    requires
        cards_valid(input@),
        copies_sum(card_matches(input@), card_matches(input@).len() as int) <= u32::MAX,
    ensures
        r@ == nat_text(copies_sum(card_matches(input@), card_matches(input@).len() as int)),
{
    let cards = match read_cards(input) {
        Some(c) => c,
        None => {
            return String::new();
        },
    };
    let ghost ms = card_matches(input@);
    let n = cards.len();
    let mut counts: Vec<u32> = vec![1; n];
    let mut i: usize = 0;
    while i < n
        invariant
            ms == card_matches(input@),
            n == ms.len(),
            cards@.len() == n,
            counts@.len() == n,
            forall|a: int|
                0 <= a < n ==> matches((#[trigger] cards@[a]).winning_numbers@, cards@[a].our_numbers@)
                    == ms[a],
            copies_sum(ms, n as int) <= u32::MAX,
            i <= n,
            forall|k: int| 0 <= k < n ==> #[trigger] counts@[k] == 1 + won(ms, k, i as int),
        decreases n - i,
    {
        let m = num_winning(&cards[i]);
        let own = counts[i];
        proof {
            assert(counts@[i as int] == 1 + won(ms, i as int, i as int));
        }
        let mut k: usize = i + 1;
        while k < n && k - i <= m
            invariant
                ms == card_matches(input@),
                n == ms.len(),
                counts@.len() == n,
                m == ms[i as int],
                i < k <= n,
                own == copies(ms, i as int),
                copies_sum(ms, n as int) <= u32::MAX,
                forall|c: int| 0 <= c < n && (c < k || c <= i) ==> #[trigger] counts@[c] == 1 + won(ms, c, i + 1),
                forall|c: int| 0 <= c < n && c >= k && c > i ==> #[trigger] counts@[c] == 1 + won(ms, c, i as int),
            decreases n - k,
        {
            proof {
                lemma_won_settles(ms, k as int, n as int);
                lemma_won_monotone(ms, k as int, i + 1, n as int);
                lemma_copies_sum_bound(ms, k as int, n as int);
                assert(won(ms, k as int, i + 1) == won(ms, k as int, i as int) + 1 + won(ms, i as int, i as int));
            }
            counts.set(k, counts[k] + own);
            k = k + 1;
        }
        proof {
            assert forall|c: int| 0 <= c < n implies #[trigger] counts@[c] == 1 + won(ms, c, i + 1) by {
                if c >= k && c > i {
                    assert(won(ms, c, i + 1) == won(ms, c, i as int));
                }
            }
        }
        i = i + 1;
    }
    let mut total: u32 = 0;
    let mut j: usize = 0;
    while j < n
        invariant
            n == ms.len(),
            counts@.len() == n,
            copies_sum(ms, n as int) <= u32::MAX,
            forall|k: int| 0 <= k < n ==> #[trigger] counts@[k] == 1 + won(ms, k, n as int),
            j <= n,
            total == copies_sum(ms, j as int),
        decreases n - j,
    {
        proof {
            lemma_won_settles(ms, j as int, n as int);
            lemma_copies_sum_bound(ms, j as int, j + 1);
            assert(copies_sum(ms, j + 1) <= copies_sum(ms, n as int)) by {
                lemma_copies_sum_monotone(ms, j + 1, n as int);
            }
        }
        total = total + counts[j];
        j = j + 1;
    }
    u64_text(total as u64)
}

proof fn lemma_copies_sum_monotone(ms: Seq<nat>, j: int, k: int)
    requires
        0 <= j <= k,
    ensures
        copies_sum(ms, j) <= copies_sum(ms, k),
    decreases k - j,
{
    if j < k {
        lemma_copies_sum_monotone(ms, j, k - 1);
    }
}

} // verus!
