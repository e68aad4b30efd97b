//! Camel Cards: hands of five cards ranked by their kind, then card by card;
//! each hand's bid is paid times its rank.
use crate::text::{
    chars_of, decimal, find, find_char, is_decimal, lines, lines_of, nat_text, parse_decimal,
    slice_range, trim, trim_of, u64_text, views,
};
use core::cmp::Ordering;
use vstd::prelude::*;

verus! {

/// The strength of the card labelled `c`, if it is a card label; with
/// `jokers`, `J` is the weakest card.
pub open spec fn label_value(c: char, jokers: bool) -> Option<int> {
    if '2' <= c <= '9' {
        Some(c as int - '1' as int)
    } else if c == 'T' {
        Some(9)
    } else if c == 'J' {
        Some(if jokers { 0 } else { 10 })
    } else if c == 'Q' {
        Some(11)
    } else if c == 'K' {
        Some(12)
    } else if c == 'A' {
        Some(13)
    } else {
        None
    }
}

/// One card, by its strength.
#[derive(Clone, Copy, Debug, PartialEq, Eq, Structural)]
pub struct Card {
    pub value: i32,
}

/// A character that labels no card.
#[derive(Debug, PartialEq, Eq, Structural)]
pub struct ParseCardErr;

impl Card {
    /// The card labelled `label`; with `jokers`, `J` is a joker.
    pub fn new(label: char, jokers: bool) -> (r: Result<Card, ParseCardErr>)
        ensures
            match label_value(label, jokers) {
                Some(v) => r == Ok::<Card, ParseCardErr>(Card { value: v as i32 }),
                None => r is Err,
            },
    {
        let value: i32 = if '2' <= label && label <= '9' {
            (label as u32 - '1' as u32) as i32
        } else if label == 'T' {
            9
        } else if label == 'J' {
            if jokers {
                0
            } else {
                10
            }
        } else if label == 'Q' {
            11
        } else if label == 'K' {
            12
        } else if label == 'A' {
            13
        } else {
            return Err(ParseCardErr);
        };
        Ok(Card { value })
    }
}

/// The kinds of hand, weakest first.
#[derive(Clone, Copy, Debug, PartialEq, Eq, Structural)]
pub enum HandType {
    HighCard,
    OnePair,
    TwoPair,
    ThreeOfAKind,
    FullHouse,
    FourOfAKind,
    FiveOfAKind,
}

/// The strength of a kind of hand, from 0 for a high card to 6 for five of a kind.
pub open spec fn type_rank(t: HandType) -> nat {
    match t {
        HandType::HighCard => 0,
        HandType::OnePair => 1,
        HandType::TwoPair => 2,
        HandType::ThreeOfAKind => 3,
        HandType::FullHouse => 4,
        HandType::FourOfAKind => 5,
        HandType::FiveOfAKind => 6,
    }
}

/// How often `v` occurs in `s`.
pub open spec fn count_of(s: Seq<int>, v: int) -> nat
    decreases s.len(),
{
    if s.len() == 0 {
        0
    } else {
        count_of(s.drop_last(), v) + if s.last() == v { 1nat } else { 0nat }
    }
}

/// How many different values `s` holds.
pub open spec fn distinct(s: Seq<int>) -> nat
    decreases s.len(),
{
    if s.len() == 0 {
        0
    } else {
        distinct(s.drop_last()) + if s.drop_last().contains(s.last()) { 0nat } else { 1nat }
    }
}

/// The largest number of times that one of the first `k` values of `s` occurs in `s`.
pub open spec fn max_count(s: Seq<int>, k: int) -> nat
    decreases k,
{
    if k <= 0 {
        0
    } else {
        let m = max_count(s, k - 1);
        let c = count_of(s, s[k - 1]);
        if c > m { c } else { m }
    }
}

/// `s` without its occurrences of `v`.
pub open spec fn without(s: Seq<int>, v: int) -> Seq<int>
    decreases s.len(),
{
    if s.len() == 0 {
        s
    } else if s.last() == v {
        without(s.drop_last(), v)
    } else {
        without(s.drop_last(), v).push(s.last())
    }
}

/// The kind of a hand with `n` different cards, the most frequent `m` times.
pub open spec fn kind(n: nat, m: nat) -> nat {
    if n <= 1 {
        6
    } else if n == 2 {
        if m == 4 { 5 } else { 4 }
    } else if n == 3 {
        if m == 3 { 3 } else { 2 }
    } else if n == 4 {
        1
    } else {
        0
    }
}

/// The kind of the hand with card values `s`; with `jokers`, the jokers
/// (value 0) join the most frequent other card.
pub open spec fn hand_kind(s: Seq<int>, jokers: bool) -> nat {
    if !jokers {
        kind(distinct(s), max_count(s, s.len() as int))
    } else if count_of(s, 0) == s.len() {
        6
    } else {
        let t = without(s, 0);
        kind(distinct(t), max_count(t, t.len() as int) + count_of(s, 0))
    }
}

/// `a` against `b`, element by element, a proper prefix first.
pub open spec fn lex_cmp(a: Seq<int>, b: Seq<int>) -> Ordering
    decreases a.len(),
{
    if a.len() == 0 || b.len() == 0 {
        if a.len() < b.len() {
            Ordering::Less
        } else if a.len() > b.len() {
            Ordering::Greater
        } else {
            Ordering::Equal
        }
    } else if a[0] < b[0] {
        Ordering::Less
    } else if a[0] > b[0] {
        Ordering::Greater
    } else {
        lex_cmp(a.drop_first(), b.drop_first())
    }
}

/// The hand with values `a` against the one with values `b`: by kind, then
/// card by card.
pub open spec fn hand_cmp(a: Seq<int>, b: Seq<int>, jokers: bool) -> Ordering {
    let ka = hand_kind(a, jokers);
    let kb = hand_kind(b, jokers);
    if ka < kb {
        Ordering::Less
    } else if ka > kb {
        Ordering::Greater
    } else {
        lex_cmp(a, b)
    }
}

/// A hand of cards; with `PART2`, `J` is a joker.
#[derive(Debug)]
pub struct Hand<const PART2: bool> {
    pub cards: Vec<Card>,
}

/// The values of the cards of `cards`.
pub open spec fn values(cards: Seq<Card>) -> Seq<int> {
    cards.map_values(|c: Card| c.value as int)
}

fn values_of(cards: &Vec<Card>) -> (r: Vec<i32>)
    ensures
        r@.map_values(|x: i32| x as int) == values(cards@),
{
    let mut r: Vec<i32> = Vec::new();
    let mut i: usize = 0;
    while i < cards.len()
        invariant
            i <= cards@.len(),
            r@.len() == i,
            r@.map_values(|x: i32| x as int) == values(cards@).take(i as int),
        decreases cards@.len() - i,
    {
        let ghost before = r@;
        r.push(cards[i].value);
        proof {
            assert(r@ == before.push(cards@[i as int].value));
            assert(r@.map_values(|x: i32| x as int) =~= values(cards@).take(i + 1));
        }
        i = i + 1;
    }
    proof {
        assert(values(cards@).take(i as int) =~= values(cards@));
    }
    r
}

/// The integers of `v`.
pub open spec fn ints(v: Seq<i32>) -> Seq<int> {
    v.map_values(|x: i32| x as int)
}

fn count_value(s: &Vec<i32>, v: i32) -> (r: usize)
    ensures
        r == count_of(ints(s@), v as int),
{
    let mut c: usize = 0;
    let mut i: usize = 0;
    while i < s.len()
        invariant
            i <= s@.len(),
            c == count_of(ints(s@).take(i as int), v as int),
            c <= i,
        decreases s@.len() - i,
    {
        proof {
            assert(ints(s@).take(i + 1).drop_last() =~= ints(s@).take(i as int));
        }
        if s[i] == v {
            c = c + 1;
        }
        i = i + 1;
    }
    proof {
        assert(ints(s@).take(i as int) =~= ints(s@));
    }
    c
}

fn contains_before(s: &Vec<i32>, k: usize, v: i32) -> (r: bool)
    requires
        k <= s@.len(),
    ensures
        r == ints(s@).take(k as int).contains(v as int),
{
    let mut i: usize = 0;
    while i < k
        invariant
            k <= s@.len(),
            i <= k,
            forall|j: int| 0 <= j < i ==> s@[j] != v,
        decreases k - i,
    {
        if s[i] == v {
            assert(ints(s@).take(k as int)[i as int] == v);
            return true;
        }
        i = i + 1;
    }
    proof {
        if ints(s@).take(k as int).contains(v as int) {
            let j = choose|j: int| 0 <= j < k && ints(s@).take(k as int)[j] == v as int;
            assert(s@[j] == v);
        }
    }
    false
}

fn distinct_count(s: &Vec<i32>) -> (r: usize)
    ensures
        r == distinct(ints(s@)),
{
    let mut n: usize = 0;
    let mut i: usize = 0;
    while i < s.len()
        invariant
            i <= s@.len(),
            n == distinct(ints(s@).take(i as int)),
            n <= i,
        decreases s@.len() - i,
    {
        proof {
            assert(ints(s@).take(i + 1).drop_last() =~= ints(s@).take(i as int));
        }
        if !contains_before(s, i, s[i]) {
            n = n + 1;
        }
        i = i + 1;
    }
    proof {
        assert(ints(s@).take(i as int) =~= ints(s@));
    }
    n
}

fn most_frequent(s: &Vec<i32>) -> (r: usize)
    ensures
        r == max_count(ints(s@), s@.len() as int),
{
    let mut m: usize = 0;
    let mut i: usize = 0;
    while i < s.len()
        invariant
            i <= s@.len(),
            m == max_count(ints(s@), i as int),
        decreases s@.len() - i,
    {
        let c = count_value(s, s[i]);
        if c > m {
            m = c;
        }
        i = i + 1;
    }
    m
}

fn remove_value(s: &Vec<i32>, v: i32) -> (r: Vec<i32>)
    ensures
        ints(r@) == without(ints(s@), v as int),
{
    let mut r: Vec<i32> = Vec::new();
    let mut i: usize = 0;
    while i < s.len()
        invariant
            i <= s@.len(),
            ints(r@) == without(ints(s@).take(i as int), v as int),
        decreases s@.len() - i,
    {
        proof {
            assert(ints(s@).take(i + 1).drop_last() =~= ints(s@).take(i as int));
        }
        if s[i] != v {
            let ghost before = r@;
            r.push(s[i]);
            proof {
                assert(ints(r@) =~= ints(before).push(s@[i as int] as int));
            }
        }
        i = i + 1;
    }
    proof {
        assert(ints(s@).take(i as int) =~= ints(s@));
    }
    r
}

fn kind_of(n: usize, m: usize) -> (r: HandType)
    ensures
        type_rank(r) == kind(n as nat, m as nat),
{
    if n <= 1 {
        HandType::FiveOfAKind
    } else if n == 2 {
        if m == 4 {
            HandType::FourOfAKind
        } else {
            HandType::FullHouse
        }
    } else if n == 3 {
        if m == 3 {
            HandType::ThreeOfAKind
        } else {
            HandType::TwoPair
        }
    } else if n == 4 {
        HandType::OnePair
    } else {
        HandType::HighCard
    }
}

/// The kind of the hand with card values `s`.
pub fn infer_hand_type(s: &Vec<i32>, jokers: bool) -> (r: HandType)
    ensures
        type_rank(r) == hand_kind(ints(s@), jokers),
{
    if !jokers {
        return kind_of(distinct_count(s), most_frequent(s));
    }
    let j = count_value(s, 0);
    if j == s.len() {
        return HandType::FiveOfAKind;
    }
    let t = remove_value(s, 0);
    let m = most_frequent(&t);
    proof {
        lemma_without_len(ints(s@), 0);
        lemma_max_count_bound(ints(t@), t@.len() as int);
    }
    kind_of(distinct_count(&t), m + j)
}

proof fn lemma_without_len(s: Seq<int>, v: int)
    ensures
        without(s, v).len() + count_of(s, v) == s.len(),
    decreases s.len(),
{
    if s.len() > 0 {
        lemma_without_len(s.drop_last(), v);
    }
}

proof fn lemma_count_bound(s: Seq<int>, v: int)
    ensures
        count_of(s, v) <= s.len(),
    decreases s.len(),
{
    if s.len() > 0 {
        lemma_count_bound(s.drop_last(), v);
    }
}

proof fn lemma_max_count_bound(s: Seq<int>, k: int)
    requires
        0 <= k <= s.len(),
    ensures
        max_count(s, k) <= s.len(),
    decreases k,
{
    if k > 0 {
        lemma_max_count_bound(s, k - 1);
        lemma_count_bound(s, s[k - 1]);
    }
}

/// `a` against `b`, element by element, a proper prefix first.
pub fn compare_values(a: &Vec<i32>, b: &Vec<i32>) -> (r: Ordering)
    ensures
        r == lex_cmp(ints(a@), ints(b@)),
{
    let mut i: usize = 0;
    proof {
        assert(ints(a@).skip(0) =~= ints(a@));
        assert(ints(b@).skip(0) =~= ints(b@));
    }
    while i < a.len() && i < b.len()
        invariant
            i <= a@.len(),
            i <= b@.len(),
            lex_cmp(ints(a@).skip(i as int), ints(b@).skip(i as int)) == lex_cmp(ints(a@), ints(b@)),
        decreases a@.len() - i,
    {
        let ghost sa = ints(a@).skip(i as int);
        let ghost sb = ints(b@).skip(i as int);
        assert(sa[0] == a@[i as int] as int);
        assert(sb[0] == b@[i as int] as int);
        if a[i] < b[i] {
            return Ordering::Less;
        }
        if a[i] > b[i] {
            return Ordering::Greater;
        }
        proof {
            assert(sa.drop_first() =~= ints(a@).skip(i + 1));
            assert(sb.drop_first() =~= ints(b@).skip(i + 1));
        }
        i = i + 1;
    }
    if a.len() < b.len() {
        Ordering::Less
    } else if a.len() > b.len() {
        Ordering::Greater
    } else {
        Ordering::Equal
    }
}

impl<const PART2: bool> Hand<PART2> {
    /// The kind of this hand.
    pub fn hand_type(&self) -> (r: HandType)
        ensures
            type_rank(r) == hand_kind(values(self.cards@), PART2),
    {
        let vs = values_of(&self.cards);
        infer_hand_type(&vs, PART2)
    }

    /// This hand against `other`: by kind, then card by card.
    pub fn compare(&self, other: &Self) -> (r: Ordering)
        ensures
            r == hand_cmp(values(self.cards@), values(other.cards@), PART2),
    {
        let a = values_of(&self.cards);
        let b = values_of(&other.cards);
        let ka = infer_hand_type(&a, PART2);
        let kb = infer_hand_type(&b, PART2);
        let ra = rank_number(ka);
        let rb = rank_number(kb);
        if ra < rb {
            Ordering::Less
        } else if ra > rb {
            Ordering::Greater
        } else {
            compare_values(&a, &b)
        }
    }
}

fn rank_number(t: HandType) -> (r: u8)
    ensures
        r == type_rank(t),
{
    match t {
        HandType::HighCard => 0,
        HandType::OnePair => 1,
        HandType::TwoPair => 2,
        HandType::ThreeOfAKind => 3,
        HandType::FullHouse => 4,
        HandType::FourOfAKind => 5,
        HandType::FiveOfAKind => 6,
    }
}

impl<const PART2: bool> PartialEq for Hand<PART2> {
    fn eq(&self, other: &Self) -> (r: bool) {
        let a = values_of(&self.cards);
        let b = values_of(&other.cards);
        let r = match compare_values(&a, &b) {
            Ordering::Equal => true,
            _ => false,
        };
        proof {
            lemma_lex_equal(ints(a@), ints(b@));
        }
        r
    }
}

impl<const PART2: bool> vstd::std_specs::cmp::PartialEqSpecImpl for Hand<PART2> {
    open spec fn obeys_eq_spec() -> bool {
        true
    }

    open spec fn eq_spec(&self, other: &Self) -> bool {
        values(self.cards@) == values(other.cards@)
    }
}

impl<const PART2: bool> PartialOrd for Hand<PART2> {
    fn partial_cmp(&self, other: &Self) -> (r: Option<Ordering>) {
        Some(self.compare(other))
    }
}

impl<const PART2: bool> vstd::std_specs::cmp::PartialOrdSpecImpl for Hand<PART2> {
    open spec fn obeys_partial_cmp_spec() -> bool {
        true
    }

    open spec fn partial_cmp_spec(&self, other: &Self) -> Option<Ordering> {
        Some(hand_cmp(values(self.cards@), values(other.cards@), PART2))
    }
}

proof fn lemma_lex_equal(a: Seq<int>, b: Seq<int>)
    ensures
        lex_cmp(a, b) == Ordering::Equal <==> a == b,
    decreases a.len(),
{
    if a.len() > 0 && b.len() > 0 {
        lemma_lex_equal(a.drop_first(), b.drop_first());
        if a.drop_first() == b.drop_first() && a[0] == b[0] {
            assert forall|k: int| 0 <= k < a.len() implies a[k] == b[k] by {
                if k > 0 {
                    assert(a[k] == a.drop_first()[k - 1]);
                    assert(b[k] == b.drop_first()[k - 1]);
                }
            }
            assert(a =~= b);
        }
        if a == b {
            assert(a.drop_first() == b.drop_first());
        }
    } else if a.len() == 0 && b.len() == 0 {
        assert(a =~= b);
    }
}

/// The card values of the hand written by `s`: exactly five card labels.
pub open spec fn hand_of(s: Seq<char>, jokers: bool) -> Option<Seq<int>> {
    if s.len() == 5 && forall|k: int| 0 <= k < 5 ==> (#[trigger] label_value(s[k], jokers)) is Some {
        Some(s.map_values(|c: char| label_value(c, jokers)->0))
    } else {
        None
    }
}

proof fn lemma_label_range(c: char, jokers: bool)
    ensures
        label_value(c, jokers) is Some ==> 0 <= label_value(c, jokers)->0 <= 13,
{
}

/// Text that does not write a hand.
#[derive(Debug, PartialEq, Eq, Structural)]
pub struct ParseHandErr;

impl<const PART2: bool> Hand<PART2> {
    /// Reads a hand from its five card labels.
    pub fn parse(s: &[char]) -> (r: Result<Hand<PART2>, ParseHandErr>)
        ensures
            match hand_of(s@, PART2) {
                Some(vs) => r is Ok && values(r->Ok_0.cards@) == vs,
                None => r is Err,
            },
    {
        if s.len() != 5 {
            return Err(ParseHandErr);
        }
        let mut cards: Vec<Card> = Vec::new();
        let mut i: usize = 0;
        while i < 5
            invariant
                s@.len() == 5,
                i <= 5,
                cards@.len() == i,
                forall|k: int| 0 <= k < i ==> (#[trigger] label_value(s@[k], PART2)) is Some,
                values(cards@) == s@.take(i as int).map_values(|c: char| label_value(c, PART2)->0),
            decreases 5 - i,
        {
            match Card::new(s[i], PART2) {
                Ok(c) => {
                    let ghost before = cards@;
                    cards.push(c);
                    proof {
                        lemma_label_range(s@[i as int], PART2);
                        assert(c.value as int == label_value(s@[i as int], PART2)->0);
                        assert(cards@ == before.push(c));
                        assert(values(cards@) =~= values(before).push(c.value as int));
                        assert(s@.take(i + 1) =~= s@.take(i as int).push(s@[i as int]));
                        assert(s@.take(i + 1).map_values(|c: char| label_value(c, PART2)->0)
                            =~= s@.take(i as int).map_values(|c: char| label_value(c, PART2)->0).push(
                            label_value(s@[i as int], PART2)->0,
                        ));
                        assert(values(cards@) =~= s@.take(i + 1).map_values(
                            |c: char| label_value(c, PART2)->0,
                        ));
                    }
                },
                Err(_) => {
                    return Err(ParseHandErr);
                },
            }
            i = i + 1;
        }
        proof {
            assert(s@.take(5) =~= s@);
        }
        Ok(Hand { cards })
    }
}

impl<const PART2: bool> core::str::FromStr for Hand<PART2> {
    type Err = ParseHandErr;

    fn from_str(s: &str) -> Result<Hand<PART2>, ParseHandErr> {
        let chars = chars_of(s);
        Hand::parse(chars.as_slice())
    }
}

/// A hand and its bid.
#[derive(Debug)]
pub struct HandBid<const PART2: bool> {
    pub hand: Hand<PART2>,
    pub bid: u64,
}

/// A line that does not write a hand and a bid.
#[derive(Debug, PartialEq, Eq, Structural)]
pub struct ParseHandBidErr;

/// The hand and bid written by `line`: the hand, one space, the bid.
pub open spec fn hand_bid_of(line: Seq<char>, jokers: bool) -> Option<(Seq<int>, nat)> {
    match find(line, ' ') {
        None => None,
        Some(k) => {
            let b = line.skip(k as int + 1);
            match hand_of(line.take(k as int), jokers) {
                Some(h) => if is_decimal(b) && decimal(b) <= u64::MAX {
                    Some((h, decimal(b)))
                } else {
                    None
                },
                None => None,
            }
        },
    }
}

impl<const PART2: bool> HandBid<PART2> {
    /// Reads a hand and its bid from a line.
    pub fn parse(line: &[char]) -> (r: Result<HandBid<PART2>, ParseHandBidErr>)
        ensures
            match hand_bid_of(line@, PART2) {
                Some((h, b)) => r is Ok && values(r->Ok_0.hand.cards@) == h && r->Ok_0.bid == b,
                None => r is Err,
            },
    {
        let n = line.len();
        let k = match find_char(line, ' ') {
            Some(k) => k,
            None => {
                return Err(ParseHandBidErr);
            },
        };
        let head = slice_range(line, 0, k);
        let tail = slice_range(line, k + 1, n);
        assert(head@ =~= line@.take(k as int));
        assert(tail@ =~= line@.skip(k + 1));
        let hand = match Hand::<PART2>::parse(head.as_slice()) {
            Ok(h) => h,
            Err(_) => {
                return Err(ParseHandBidErr);
            },
        };
        let bid = match parse_decimal(tail.as_slice(), u64::MAX) {
            Some(b) => b,
            None => {
                return Err(ParseHandBidErr);
            },
        };
        Ok(HandBid { hand, bid })
    }
}

/// The hands and bids written by the lines of `input`.
pub open spec fn hand_bids(input: Seq<char>, jokers: bool) -> Seq<(Seq<int>, nat)> {
    lines(trim(input)).map_values(|l: Seq<char>| hand_bid_of(l, jokers)->0)
}

/// Every line of `input` writes a hand and a bid.
pub open spec fn hand_bids_valid(input: Seq<char>, jokers: bool) -> bool {
    forall|i: int|
        0 <= i < lines(trim(input)).len() ==> (#[trigger] hand_bid_of(lines(trim(input))[i], jokers)) is Some
}

/// How many of the first `k` hands of `rows` rank below hand `i`: the weaker
/// ones, and the equal ones that come before it.
pub open spec fn below(rows: Seq<(Seq<int>, nat)>, i: int, k: int, jokers: bool) -> nat
    decreases k,
{
    if k <= 0 {
        0
    } else {
        let o = hand_cmp(rows[k - 1].0, rows[i].0, jokers);
        below(rows, i, k - 1, jokers) + if o == Ordering::Less || (k - 1 < i && o == Ordering::Equal) {
            1nat
        } else {
            0nat
        }
    }
}

/// The rank of hand `i` among `rows`, from 1 for the weakest.
pub open spec fn rank(rows: Seq<(Seq<int>, nat)>, i: int, jokers: bool) -> nat {
    1 + below(rows, i, rows.len() as int, jokers)
}

/// The winnings of the first `k` hands: each bid times the hand's rank.
pub open spec fn winnings(rows: Seq<(Seq<int>, nat)>, k: int, jokers: bool) -> nat
    decreases k,
{
    if k <= 0 {
        0
    } else {
        winnings(rows, k - 1, jokers) + rows[k - 1].1 * rank(rows, k - 1, jokers)
    }
}

proof fn lemma_winnings_monotone(rows: Seq<(Seq<int>, nat)>, j: int, k: int, jokers: bool)
    requires
        0 <= j <= k,
    ensures
        winnings(rows, j, jokers) <= winnings(rows, k, jokers),
    decreases k - j,
{
    if j < k {
        lemma_winnings_monotone(rows, j, k - 1, jokers);
        assert(rows[k - 1].1 * rank(rows, k - 1, jokers) >= 0) by (nonlinear_arith);
    }
}

proof fn lemma_below_bound(rows: Seq<(Seq<int>, nat)>, i: int, k: int, jokers: bool)
    requires
        0 <= k,
    ensures
        below(rows, i, k, jokers) <= k,
    decreases k,
{
    if k > 0 {
        lemma_below_bound(rows, i, k - 1, jokers);
    }
}

/// The total winnings of the hands of `input`.
pub fn part<const PART2: bool>(input: &str) -> (r: String)
    requires
        hand_bids_valid(input@, PART2),
        winnings(hand_bids(input@, PART2), hand_bids(input@, PART2).len() as int, PART2) <= u64::MAX,
    ensures
        r@ == nat_text(winnings(hand_bids(input@, PART2), hand_bids(input@, PART2).len() as int, PART2)),
{
    let chars = chars_of(input);
    let trimmed = trim_of(chars.as_slice());
    let ls = lines_of(trimmed.as_slice());
    let ghost v = views(ls@);
    let ghost rows = hand_bids(input@, PART2);
    let mut hands: Vec<Vec<i32>> = Vec::new();
    let mut kinds: Vec<u8> = Vec::new();
    let mut bids: Vec<u64> = Vec::new();
    let mut i: usize = 0;
    while i < ls.len()
        invariant
            v == views(ls@),
            v == lines(trim(input@)),
            rows == hand_bids(input@, PART2),
            hand_bids_valid(input@, PART2),
            i <= v.len(),
            hands@.len() == i,
            kinds@.len() == i,
            bids@.len() == i,
            forall|a: int|
                0 <= a < i ==> ints((#[trigger] hands@[a])@) == rows[a].0 && kinds@[a] == hand_kind(
                    rows[a].0,
                    PART2,
                ) && bids@[a] == rows[a].1,
        decreases v.len() - i,
    {
        assert(v[i as int] == ls@[i as int]@);
        assert(hand_bid_of(v[i as int], PART2) is Some);
        let hb = match HandBid::<PART2>::parse(ls[i].as_slice()) {
            Ok(hb) => hb,
            Err(_) => {
                return String::new();
            },
        };
        let vs = values_of(&hb.hand.cards);
        let kind = rank_number(infer_hand_type(&vs, PART2));
        proof {
            assert(rows[i as int] == hand_bid_of(v[i as int], PART2)->0);
            assert(ints(vs@) == rows[i as int].0);
            assert(kind == hand_kind(rows[i as int].0, PART2));
            assert(hb.bid == rows[i as int].1);
        }
        let ghost h0 = hands@;
        let ghost k0 = kinds@;
        let ghost b0 = bids@;
        hands.push(vs);
        kinds.push(kind);
        bids.push(hb.bid);
        proof {
            assert(hands@ == h0.push(vs));
            assert(kinds@ == k0.push(kind));
            assert(bids@ == b0.push(hb.bid));
            assert forall|a: int| 0 <= a < i + 1 implies ints((#[trigger] hands@[a])@) == rows[a].0
                && kinds@[a] == hand_kind(rows[a].0, PART2) && bids@[a] == rows[a].1 by {
                if a < i {
                    assert(hands@[a] == h0[a]);
                    assert(kinds@[a] == k0[a]);
                    assert(bids@[a] == b0[a]);
                    assert(ints(h0[a]@) == rows[a].0);
                } else {
                    assert(hands@[a] == vs);
                }
            }
        }
        i = i + 1;
    }
    let n = hands.len();
    let mut total: u64 = 0;
    let mut i: usize = 0;
    while i < n
        invariant
            n == rows.len(),
            hands@.len() == n,
            kinds@.len() == n,
            bids@.len() == n,
            forall|a: int|
                0 <= a < n ==> ints((#[trigger] hands@[a])@) == rows[a].0 && kinds@[a] == hand_kind(
                    rows[a].0,
                    PART2,
                ) && bids@[a] == rows[a].1,
            winnings(rows, n as int, PART2) <= u64::MAX,
            i <= n,
            total == winnings(rows, i as int, PART2),
        decreases n - i,
    {
        let mut lower: u64 = 0;
        let mut j: usize = 0;
        assert(ints(hands@[i as int]@) == rows[i as int].0);
        assert forall|a: int| 0 <= a < n implies ints((#[trigger] hands@[a])@) == rows[a].0 && kinds@[a]
            == hand_kind(rows[a].0, PART2) by {
            assert(ints(hands@[a]@) == rows[a].0);
        }
        while j < n
            invariant
                n == rows.len(),
                hands@.len() == n,
                kinds@.len() == n,
                i < n,
                forall|a: int|
                    0 <= a < n ==> ints((#[trigger] hands@[a])@) == rows[a].0 && kinds@[a] == hand_kind(
                        rows[a].0,
                        PART2,
                    ),
                j <= n,
                lower == below(rows, i as int, j as int, PART2),
                lower <= j,
            decreases n - j,
        {
            assert(ints(hands@[j as int]@) == rows[j as int].0);
            assert(ints(hands@[i as int]@) == rows[i as int].0);
            let o = if kinds[j] < kinds[i] {
                Ordering::Less
            } else if kinds[j] > kinds[i] {
                Ordering::Greater
            } else {
                compare_values(&hands[j], &hands[i])
            };
            proof {
                assert(kinds@[j as int] == hand_kind(rows[j as int].0, PART2));
                assert(kinds@[i as int] == hand_kind(rows[i as int].0, PART2));
                assert(o == hand_cmp(rows[j as int].0, rows[i as int].0, PART2));
            }
            let counts = match o {
                Ordering::Less => true,
                Ordering::Equal => j < i,
                Ordering::Greater => false,
            };
            if counts {
                lower = lower + 1;
            }
            j = j + 1;
        }
        proof {
            lemma_winnings_monotone(rows, i + 1, n as int, PART2);
        }
        let bid = bids[i] as u128;
        let r = lower as u128 + 1;
        assert(bid * r <= u64::MAX * (u64::MAX + 1)) by (nonlinear_arith)
            requires
                bid <= u64::MAX,
                r <= u64::MAX + 1,
        ;
        let gain = bid * r;
        assert(gain + total <= u64::MAX);
        total = total + gain as u64;
        i = i + 1;
    }
    u64_text(total)
}

/// The total winnings of the hands of `input`, `J` being a jack.
pub fn part1(input: &str) -> (r: String)
    requires
        hand_bids_valid(input@, false),
        winnings(hand_bids(input@, false), hand_bids(input@, false).len() as int, false) <= u64::MAX,
    ensures
        r@ == nat_text(winnings(hand_bids(input@, false), hand_bids(input@, false).len() as int, false)),
{
    part::<false>(input)
}

/// The total winnings of the hands of `input`, `J` being a joker.
pub fn part2(input: &str) -> (r: String)
    requires
        hand_bids_valid(input@, true),
        winnings(hand_bids(input@, true), hand_bids(input@, true).len() as int, true) <= u64::MAX,
    ensures
        r@ == nat_text(winnings(hand_bids(input@, true), hand_bids(input@, true).len() as int, true)),
{
    part::<true>(input)
}

} // verus!
