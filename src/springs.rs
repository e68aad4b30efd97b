//! Counting the ways a partially known row of cells can be resolved so that
//! its maximal runs of active cells have prescribed lengths.
use crate::text::{
    chars_of, decimal, find, find_char, is_decimal, lines, lines_of, parse_decimal, split,
    split_on, trim, trim_of, views,
};
use vstd::prelude::*;

verus! {

/// The state of one cell of a row.
#[derive(Clone, Copy, Debug, PartialEq, Eq, Structural)]
pub enum Cell {
    /// Part of a run (written `#`).
    Active,
    /// Not part of any run (written `.`).
    Inactive,
    /// Either of the two, still to be resolved (written `?`).
    Unknown,
}

/// No cell of `p` is forced active.
pub open spec fn no_active(p: Seq<Cell>) -> bool {
    forall|k: int| 0 <= k < p.len() ==> p[k] != Cell::Active
}

/// A run of `len` active cells may start at the front of `p`: it lies inside `p`,
/// covers no forced-inactive cell, and is not followed by a forced-active cell.
pub open spec fn fits(p: Seq<Cell>, len: int) -> bool {
    &&& 0 <= len <= p.len()
    &&& forall|k: int| 0 <= k < len ==> p[k] != Cell::Inactive
    &&& len < p.len() ==> p[len] != Cell::Active
}

/// How many cells a run of `len` placed at the front of `p` consumes, together
/// with the separator that must follow it (none at the end of the row).
pub open spec fn consumed(p: Seq<Cell>, len: int) -> int {
    if len < p.len() {
        len + 1
    } else {
        p.len() as int
    }
}

/// The number of resolutions of the unknown cells of `p` whose runs of active
/// cells are exactly `g`, in order.
///
/// The first cell is either left inactive, or it starts the first run of `g`,
/// which must then fit and be followed by a separator. That this recurrence
/// counts exactly the members of [`arrangements`] when every group is positive
/// is [`lemma_ways_counts_arrangements`].
pub open spec fn ways(p: Seq<Cell>, g: Seq<usize>) -> nat
    decreases p.len(),
{
    if g.len() == 0 {
        if no_active(p) { 1 } else { 0 }
    } else if p.len() == 0 {
        0
    } else {
        let skip = if p[0] != Cell::Active { ways(p.drop_first(), g) } else { 0 };
        let place = if p[0] != Cell::Inactive && fits(p, g[0] as int) {
            ways(p.skip(consumed(p, g[0] as int)), g.drop_first())
        } else {
            0
        };
        skip + place
    }
}

/// Per-row lookup tables answering placement questions in constant time.
pub struct FeasibilityIndex {
    /// For each position `i`, the first position at or after `i` holding a
    /// forced-inactive cell, or the row's length.
    pub next_inactive: Vec<usize>,
    /// For each position `i`, the first position at or after `i` holding a
    /// forced-active cell, or the row's length.
    pub first_active_at_or_after: Vec<usize>,
}

/// `t[i]` is the first position at or after `i` where `p` holds `c`, or `p.len()`.
pub open spec fn first_of_table(p: Seq<Cell>, c: Cell, t: Seq<usize>) -> bool {
    &&& t.len() == p.len()
    &&& forall|i: int|
        #![trigger t[i]]
        0 <= i < p.len() ==> {
            &&& i <= t[i] <= p.len()
            &&& (t[i] < p.len() ==> p[t[i] as int] == c)
            &&& forall|k: int| i <= k < t[i] ==> p[k] != c
        }
}

impl FeasibilityIndex {
    /// The tables describe the row `p`.
    pub open spec fn describes(&self, p: Seq<Cell>) -> bool {
        &&& first_of_table(p, Cell::Inactive, self.next_inactive@)
        &&& first_of_table(p, Cell::Active, self.first_active_at_or_after@)
    }

    /// Builds both tables in one backward pass over the row.
    pub fn new(pattern: &[Cell]) -> (r: FeasibilityIndex)
        ensures
            r.describes(pattern@),
    {
        let n = pattern.len();
        let mut next_inactive: Vec<usize> = vec![n; n];
        let mut first_active: Vec<usize> = vec![n; n];
        let mut i: usize = n;
        while i > 0
            invariant
                n == pattern@.len(),
                i <= n,
                next_inactive@.len() == n,
                first_active@.len() == n,
                forall|a: int|
                    #![trigger next_inactive@[a]]
                    i <= a < n ==> {
                        &&& a <= next_inactive@[a] <= n
                        &&& (next_inactive@[a] < n ==> pattern@[next_inactive@[a] as int]
                            == Cell::Inactive)
                        &&& forall|k: int| a <= k < next_inactive@[a] ==> pattern@[k] != Cell::Inactive
                    },
                forall|a: int|
                    #![trigger first_active@[a]]
                    i <= a < n ==> {
                        &&& a <= first_active@[a] <= n
                        &&& (first_active@[a] < n ==> pattern@[first_active@[a] as int]
                            == Cell::Active)
                        &&& forall|k: int| a <= k < first_active@[a] ==> pattern@[k] != Cell::Active
                    },
            decreases i,
        {
            i = i - 1;
            let ni = if pattern[i] == Cell::Inactive {
                i
            } else if i + 1 == n {
                n
            } else {
                next_inactive[i + 1]
            };
            let fa = if pattern[i] == Cell::Active {
                i
            } else if i + 1 == n {
                n
            } else {
                first_active[i + 1]
            };
            next_inactive[i] = ni;
            first_active[i] = fa;
        }
        FeasibilityIndex { next_inactive, first_active_at_or_after: first_active }
    }
}

/// `x`, or the largest `u128` where `x` exceeds it.
pub open spec fn capped(x: nat) -> nat {
    if x > u128::MAX { u128::MAX as nat } else { x }
}

proof fn lemma_no_active_from(p: Seq<Cell>, t: Seq<usize>, a: int)
    requires
        first_of_table(p, Cell::Active, t),
        0 <= a < p.len(),
    ensures
        no_active(p.skip(a)) <==> t[a] == p.len(),
{
    let s = p.skip(a);
    if t[a] == p.len() {
        assert forall|k: int| 0 <= k < s.len() implies s[k] != Cell::Active by {
            assert(s[k] == p[a + k]);
        }
    } else {
        assert(s[t[a] - a] == p[t[a] as int]);
    }
}

proof fn lemma_ways_at(p: Seq<Cell>, g: Seq<usize>, i: int, j: int)
    requires
        0 <= i < p.len(),
        0 <= j < g.len(),
    ensures
        ways(p.skip(i), g.skip(j)) == (if p[i] != Cell::Active {
            ways(p.skip(i + 1), g.skip(j))
        } else {
            0
        }) + (if p[i] != Cell::Inactive && fits(p.skip(i), g[j] as int) {
            ways(p.skip(i + consumed(p.skip(i), g[j] as int)), g.skip(j + 1))
        } else {
            0
        }),
{
    let s = p.skip(i);
    let h = g.skip(j);
    assert(s.drop_first() =~= p.skip(i + 1));
    assert(h.drop_first() =~= g.skip(j + 1));
    let c = consumed(s, g[j] as int);
    assert(s.skip(c) =~= p.skip(i + c));
    assert(s[0] == p[i]);
    assert(h[0] == g[j]);
}

/// Entry `a` of a table column stored without its last position, whose value
/// is `last`.
fn column_at(col: &Vec<u128>, last: u128, a: usize) -> (r: u128)
    requires
        a <= col@.len(),
    ensures
        r == (if a < col@.len() { col@[a as int] } else { last }),
{
    if a < col.len() {
        col[a]
    } else {
        last
    }
}

/// Counts the resolutions of `pattern` whose runs of active cells are exactly
/// `groups`; `None` when that number does not fit in a `u64`.
///
/// Bottom-up over the group index, one column of the table at a time. A column
/// holds, for each position `i`, the count for the rest of the row from `i`
/// and the groups from the column's index on, capped at `u128::MAX`; the
/// position past the end of the row is kept apart from the vector.
pub fn count(pattern: &[Cell], groups: &[usize]) -> (r: Option<u64>)
    ensures
        r == (if ways(pattern@, groups@) <= u64::MAX {
            Some(ways(pattern@, groups@) as u64)
        } else {
            None
        }),
        positive_groups(groups@) ==> ways(pattern@, groups@) == arrangements(pattern@, groups@).len(),
{
    proof {
        if positive_groups(groups@) {
            lemma_ways_counts_arrangements(pattern@, groups@);
        }
    }
    let ghost p = pattern@;
    let ghost g = groups@;
    let n = pattern.len();
    let m = groups.len();
    let index = FeasibilityIndex::new(pattern);
    let mut col: Vec<u128> = Vec::new();
    let mut i: usize = 0;
    while i < n
        invariant
            n == p.len(),
            m == g.len(),
            index.describes(p),
            i <= n,
            col@.len() == i,
            forall|a: int| 0 <= a < i ==> col@[a] == capped(ways(#[trigger] p.skip(a), g.skip(m as int))),
        decreases n - i,
    {
        proof {
            lemma_no_active_from(p, index.first_active_at_or_after@, i as int);
        }
        let v: u128 = if index.first_active_at_or_after[i] == n { 1 } else { 0 };
        col.push(v);
        i = i + 1;
    }
    let mut last: u128 = 1;
    proof {
        assert(no_active(p.skip(n as int)));
    }
    let mut j: usize = m;
    while j > 0
        invariant
            n == p.len(),
            m == g.len(),
            pattern@ == p,
            groups@ == g,
            index.describes(p),
            j <= m,
            col@.len() == n,
            forall|a: int| 0 <= a < n ==> col@[a] == capped(ways(#[trigger] p.skip(a), g.skip(j as int))),
            last == capped(ways(p.skip(n as int), g.skip(j as int))),
        decreases j,
    {
        j = j - 1;
        let len = groups[j];
        let mut next_col: Vec<u128> = vec![0; n];
        proof {
            assert(p.skip(n as int).len() == 0);
            assert(g.skip(j as int).len() > 0);
        }
        let mut i: usize = n;
        while i > 0
            invariant
                n == p.len(),
                m == g.len(),
                pattern@ == p,
                groups@ == g,
                index.describes(p),
                j < m,
                len == g[j as int],
                i <= n,
                col@.len() == n,
                forall|a: int| 0 <= a < n ==> col@[a] == capped(ways(#[trigger] p.skip(a), g.skip(j + 1))),
                last == capped(ways(p.skip(n as int), g.skip(j + 1))),
                next_col@.len() == n,
                forall|a: int| i <= a < n ==> next_col@[a] == capped(ways(#[trigger] p.skip(a), g.skip(j as int))),
                capped(ways(p.skip(n as int), g.skip(j as int))) == 0,
            decreases i,
        {
            i = i - 1;
            let c = pattern[i];
            let skip: u128 = if c != Cell::Active { column_at(&next_col, 0, i + 1) } else { 0 };
            let ghost s = p.skip(i as int);
            let fit = c != Cell::Inactive && len <= n - i && index.next_inactive[i] >= i + len && (
            i + len == n || pattern[i + len] != Cell::Active);
            proof {
                let t = index.next_inactive@;
                assert(t[i as int] >= i);
                if c != Cell::Inactive {
                    if len <= n - i {
                        if t[i as int] >= i + len {
                            assert forall|k: int| 0 <= k < len implies s[k] != Cell::Inactive by {
                                assert(s[k] == p[i + k]);
                            }
                        } else {
                            assert(s[t[i as int] - i] == p[t[i as int] as int]);
                        }
                        if i + len < n {
                            assert(s[len as int] == p[i + len]);
                        }
                    }
                }
                assert(fit == (c != Cell::Inactive && fits(s, len as int)));
            }
            let place: u128 = if fit {
                let next = if i + len < n { i + len + 1 } else { n };
                column_at(&col, last, next)
            } else {
                0
            };
            let v: u128 = if skip > u128::MAX - place { u128::MAX } else { skip + place };
            proof {
                lemma_ways_at(p, g, i as int, j as int);
            }
            next_col[i] = v;
        }
        col = next_col;
        last = 0;
    }
    proof {
        assert(p.skip(0) =~= p);
        assert(g.skip(0) =~= g);
    }
    let total = column_at(&col, last, 0);
    if total <= u64::MAX as u128 {
        Some(total as u64)
    } else {
        None
    }
}

/// No cell of `p` is still unknown.
pub open spec fn resolved(p: Seq<Cell>) -> bool {
    forall|k: int| 0 <= k < p.len() ==> p[k] != Cell::Unknown
}

/// Every cell of `p` is unknown.
pub open spec fn all_unknown(p: Seq<Cell>) -> bool {
    forall|k: int| 0 <= k < p.len() ==> p[k] == Cell::Unknown
}

/// The number of active cells at the front of `p`.
pub open spec fn lead(p: Seq<Cell>) -> nat
    decreases p.len(),
{
    if p.len() > 0 && p[0] == Cell::Active {
        1 + lead(p.drop_first())
    } else {
        0
    }
}

/// The lengths of the maximal runs of active cells of `p`, left to right.
pub open spec fn runs(p: Seq<Cell>) -> Seq<nat>
    decreases p.len(),
    via runs_decreases
{
    if p.len() == 0 {
        Seq::empty()
    } else if p[0] != Cell::Active {
        runs(p.drop_first())
    } else {
        seq![lead(p)].add(runs(p.skip(lead(p) as int)))
    }
}

#[via_fn]
proof fn runs_decreases(p: Seq<Cell>) {
    if p.len() > 0 && p[0] == Cell::Active {
        lemma_lead(p);
    }
}

proof fn lemma_lead(p: Seq<Cell>)
    ensures
        lead(p) <= p.len(),
        forall|k: int| 0 <= k < lead(p) ==> p[k] == Cell::Active,
        lead(p) < p.len() ==> p[lead(p) as int] != Cell::Active,
        p.len() > 0 && p[0] == Cell::Active ==> lead(p) >= 1,
    decreases p.len(),
{
    if p.len() > 0 && p[0] == Cell::Active {
        lemma_lead(p.drop_first());
        assert forall|k: int| 0 <= k < lead(p) implies p[k] == Cell::Active by {
            if k > 0 {
                assert(p[k] == p.drop_first()[k - 1]);
            }
        }
    }
}

/// The group lengths of `g` as natural numbers.
pub open spec fn as_nats(g: Seq<usize>) -> Seq<nat> {
    g.map_values(|x: usize| x as nat)
}

proof fn lemma_runs_empty(p: Seq<Cell>)
    ensures
        runs(p).len() == 0 <==> no_active(p),
    decreases p.len(),
{
    if p.len() > 0 {
        if p[0] != Cell::Active {
            lemma_runs_empty(p.drop_first());
            if !no_active(p.drop_first()) {
                let k = choose|k: int| 0 <= k < p.len() - 1 && p.drop_first()[k] == Cell::Active;
                assert(p[k + 1] == Cell::Active);
            }
            assert forall|k: int| 0 <= k < p.len() - 1 && no_active(p) implies p.drop_first()[k]
                != Cell::Active by {
                assert(p.drop_first()[k] == p[k + 1]);
            }
            assert forall|k: int| 0 <= k < p.len() && no_active(p.drop_first()) implies p[k]
                != Cell::Active by {
                if k > 0 {
                    assert(p[k] == p.drop_first()[k - 1]);
                }
            }
        } else {
            assert(runs(p).len() > 0);
        }
    }
}

/// For a row with no unknown cell, the count is 1 when its runs are exactly
/// the groups, and 0 otherwise.
pub proof fn lemma_resolved_row(p: Seq<Cell>, g: Seq<usize>)
    requires
        resolved(p),
    ensures
        ways(p, g) == (if runs(p) == as_nats(g) { 1nat } else { 0nat }),
    decreases p.len(),
{
    if g.len() == 0 {
        lemma_runs_empty(p);
        assert(as_nats(g) =~= Seq::<nat>::empty());
        if runs(p).len() == 0 {
            assert(runs(p) =~= as_nats(g));
        }
    } else if p.len() == 0 {
        assert(runs(p).len() != as_nats(g).len());
    } else if p[0] == Cell::Inactive {
        lemma_resolved_row(p.drop_first(), g);
        assert(runs(p) == runs(p.drop_first()));
        assert(ways(p, g) == ways(p.drop_first(), g));
    } else {
        assert(p[0] == Cell::Active);
        lemma_lead(p);
        let k = lead(p) as int;
        let len = g[0] as int;
        let rest = p.skip(k);
        let c = consumed(p, len);
        let rn = as_nats(g);
        assert(as_nats(g.drop_first()) =~= rn.drop_first());
        if k < p.len() {
            assert(p[k] == Cell::Inactive);
            assert(rest.drop_first() =~= p.skip(k + 1));
            assert(rest[0] == p[k]);
        } else {
            assert(rest.len() == 0);
        }
        assert(runs(rest) == runs(p.skip(consumed(p, k))));
        assert(runs(p) == seq![k as nat].add(runs(rest)));
        if fits(p, len) {
            assert(len == k) by {
                if len < k {
                    assert(p[len] == Cell::Active);
                } else if len > k {
                    assert(p[k] != Cell::Inactive);
                }
            }
            assert forall|k2: int| 0 <= k2 < p.skip(c).len() implies p.skip(c)[k2]
                != Cell::Unknown by {
                assert(p.skip(c)[k2] == p[c + k2]);
            }
            lemma_resolved_row(p.skip(c), g.drop_first());
            assert(ways(p, g) == ways(p.skip(c), g.drop_first()));
            if runs(p) == rn {
                assert(runs(p).drop_first() =~= runs(rest));
            } else {
                assert(runs(p) =~= seq![k as nat].add(runs(p.skip(c))));
                if runs(p.skip(c)) == as_nats(g.drop_first()) {
                    assert(runs(p) =~= rn);
                }
            }
        } else {
            assert(len != k || !fits(p, len));
            if len == k {
                assert forall|k2: int| 0 <= k2 < len implies p[k2] != Cell::Inactive by {}
                assert(fits(p, len));
            }
            assert(runs(p)[0] != rn[0]);
            assert(ways(p, g) == 0);
        }
    }
}

/// `r` resolves the row `p`: it has the same length, no unknown cell, and
/// keeps every cell that `p` already knows.
pub open spec fn resolves(r: Seq<Cell>, p: Seq<Cell>) -> bool {
    &&& r.len() == p.len()
    &&& forall|k: int|
        0 <= k < r.len() ==> #[trigger] r[k] != Cell::Unknown && (p[k] != Cell::Unknown ==> r[k]
            == p[k])
}

/// The resolutions of `p` whose runs of active cells are exactly `g`.
pub open spec fn arrangements(p: Seq<Cell>, g: Seq<usize>) -> Set<Seq<Cell>> {
    Set::new(|r: Seq<Cell>| resolves(r, p) && runs(r) == as_nats(g))
}

/// Every group length is at least 1.
pub open spec fn positive_groups(g: Seq<usize>) -> bool {
    forall|i: int| 0 <= i < g.len() ==> #[trigger] g[i] >= 1
}

/// A run of `len` active cells, followed by an inactive one when `c > len`.
pub open spec fn block(len: int, c: int) -> Seq<Cell> {
    Seq::new(c as nat, |k: int| if k < len { Cell::Active } else { Cell::Inactive })
}

proof fn lemma_lead_exact(x: Seq<Cell>, len: int)
    requires
        0 <= len <= x.len(),
        forall|k: int| 0 <= k < len ==> x[k] == Cell::Active,
        len < x.len() ==> x[len] != Cell::Active,
    ensures
        lead(x) == len,
    decreases len,
{
    if len > 0 {
        assert forall|k: int| 0 <= k < len - 1 implies x.drop_first()[k] == Cell::Active by {
            assert(x.drop_first()[k] == x[k + 1]);
        }
        lemma_lead_exact(x.drop_first(), len - 1);
    }
}

proof fn lemma_runs_after_inactive(rest: Seq<Cell>)
    ensures
        runs(seq![Cell::Inactive] + rest) == runs(rest),
{
    let x = seq![Cell::Inactive] + rest;
    assert(x.drop_first() =~= rest);
}

proof fn lemma_runs_after_block(len: int, c: int, rest: Seq<Cell>)
    requires
        len >= 1,
        c == len || c == len + 1,
        c == len ==> rest.len() == 0,
    ensures
        runs(block(len, c) + rest) == seq![len as nat] + runs(rest),
{
    let x = block(len, c) + rest;
    assert(x[0] == Cell::Active);
    lemma_lead_exact(x, len);
    if c == len {
        assert(x.skip(len) =~= Seq::<Cell>::empty());
        assert(rest =~= Seq::<Cell>::empty());
    } else {
        assert(x.skip(len) =~= seq![Cell::Inactive] + rest);
        lemma_runs_after_inactive(rest);
    }
}

proof fn lemma_arrangements_without_groups(p: Seq<Cell>, g: Seq<usize>)
    requires
        g.len() == 0,
    ensures
        arrangements(p, g).finite(),
        arrangements(p, g).len() == ways(p, g),
{
    let s = arrangements(p, g);
    assert(as_nats(g) =~= Seq::<nat>::empty());
    if no_active(p) {
        let r0 = Seq::new(p.len(), |k: int| if p[k] == Cell::Unknown { Cell::Inactive } else { p[k] });
        assert(no_active(r0));
        lemma_runs_empty(r0);
        assert(runs(r0) =~= as_nats(g));
        assert(s.contains(r0));
        assert forall|r: Seq<Cell>| s.contains(r) implies r == r0 by {
            lemma_runs_empty(r);
            assert forall|k: int| 0 <= k < r.len() implies r[k] == r0[k] by {
                assert(r[k] != Cell::Active);
                assert(r[k] != Cell::Unknown);
            }
            assert(r =~= r0);
        }
        assert(s =~= Set::<Seq<Cell>>::empty().insert(r0));
    } else {
        let k = choose|k: int| 0 <= k < p.len() && p[k] == Cell::Active;
        assert forall|r: Seq<Cell>| !s.contains(r) by {
            if s.contains(r) {
                lemma_runs_empty(r);
                assert(r[k] == Cell::Active);
            }
        }
        assert(s =~= Set::<Seq<Cell>>::empty());
    }
}

/// The arrangements of `p` and `g` whose first cell is `c`.
pub open spec fn starting_with(p: Seq<Cell>, g: Seq<usize>, c: Cell) -> Set<Seq<Cell>> {
    arrangements(p, g).filter(|r: Seq<Cell>| r[0] == c)
}

proof fn lemma_skip_part(p: Seq<Cell>, g: Seq<usize>)
    requires
        p.len() > 0,
        g.len() > 0,
        p[0] != Cell::Active ==> arrangements(p.drop_first(), g).finite() && arrangements(
            p.drop_first(),
            g,
        ).len() == ways(p.drop_first(), g),
    ensures
        starting_with(p, g, Cell::Inactive).finite(),
        starting_with(p, g, Cell::Inactive).len() == (if p[0] != Cell::Active {
            ways(p.drop_first(), g)
        } else {
            0
        }),
{
    let s = arrangements(p, g);
    let skip_set = starting_with(p, g, Cell::Inactive);
    let tail = p.drop_first();
    let f1 = |r: Seq<Cell>| seq![Cell::Inactive] + r;
    if p[0] != Cell::Active {
        let a1 = arrangements(tail, g);
        assert(skip_set =~= a1.map(f1)) by {
            assert forall|r: Seq<Cell>| skip_set.contains(r) implies a1.map(f1).contains(r) by {
                let r1 = r.drop_first();
                assert(r =~= f1(r1));
                lemma_runs_after_inactive(r1);
                assert forall|k: int| 0 <= k < r1.len() implies #[trigger] r1[k] != Cell::Unknown && (
                tail[k] != Cell::Unknown ==> r1[k] == tail[k]) by {
                    assert(r1[k] == r[k + 1]);
                    assert(r[k + 1] != Cell::Unknown);
                }
                assert(a1.contains(r1));
            }
            assert forall|r: Seq<Cell>| a1.map(f1).contains(r) implies skip_set.contains(r) by {
                let r1 = choose|r1: Seq<Cell>| a1.contains(r1) && f1(r1) == r;
                lemma_runs_after_inactive(r1);
                assert forall|k: int| 0 <= k < r.len() implies #[trigger] r[k] != Cell::Unknown && (p[k]
                    != Cell::Unknown ==> r[k] == p[k]) by {
                    if k > 0 {
                        assert(r[k] == r1[k - 1]);
                        assert(r1[k - 1] != Cell::Unknown);
                    }
                }
            }
        }
        assert(vstd::relations::injective_on(f1, a1)) by {
            assert forall|x: Seq<Cell>, y: Seq<Cell>|
                a1.contains(x) && a1.contains(y) && #[trigger] f1(x) == #[trigger] f1(y) implies x
                == y by {
                assert(x =~= f1(x).drop_first());
                assert(y =~= f1(y).drop_first());
            }
        }
        vstd::set_lib::lemma_map_size(a1, skip_set, f1);
    } else {
        assert(skip_set =~= Set::<Seq<Cell>>::empty()) by {
            assert forall|r: Seq<Cell>| !skip_set.contains(r) by {
                if s.contains(r) {
                    assert(r[0] == Cell::Active);
                }
            }
        }
    }
}

proof fn lemma_place_part(p: Seq<Cell>, g: Seq<usize>)
    requires
        p.len() > 0,
        g.len() > 0,
        g[0] >= 1,
        p[0] != Cell::Inactive && fits(p, g[0] as int) ==> arrangements(
            p.skip(consumed(p, g[0] as int)),
            g.drop_first(),
        ).finite() && arrangements(p.skip(consumed(p, g[0] as int)), g.drop_first()).len() == ways(
            p.skip(consumed(p, g[0] as int)),
            g.drop_first(),
        ),
    ensures
        starting_with(p, g, Cell::Active).finite(),
        starting_with(p, g, Cell::Active).len() == (if p[0] != Cell::Inactive && fits(p, g[0] as int) {
            ways(p.skip(consumed(p, g[0] as int)), g.drop_first())
        } else {
            0
        }),
{
    let len = g[0] as int;
    let c = consumed(p, len);
    let g1 = g.drop_first();
    let place_set = starting_with(p, g, Cell::Active);
    let after = p.skip(c);
    let f2 = |r: Seq<Cell>| block(len, c) + r;
    assert(as_nats(g1) =~= as_nats(g).drop_first());
    assert(as_nats(g) =~= seq![len as nat] + as_nats(g1));
    if p[0] != Cell::Inactive && fits(p, len) {
        let a2 = arrangements(after, g1);
        assert forall|r: Seq<Cell>| place_set.contains(r) implies a2.map(f2).contains(r) by {
            lemma_lead(r);
            let k = lead(r) as int;
            assert(runs(r) == seq![k as nat] + runs(r.skip(k)));
            assert(runs(r)[0] == as_nats(g)[0]);
            assert(k == len);
            if len < r.len() {
                assert(r[len] != Cell::Unknown);
                assert(r.skip(len) =~= seq![r[len]] + r.skip(len + 1));
                lemma_runs_after_inactive(r.skip(len + 1));
            }
            let r2 = r.skip(c);
            assert(r =~= f2(r2));
            assert(runs(r.skip(len)) == runs(r2));
            assert(runs(r2) =~= runs(r).drop_first());
            assert forall|j: int| 0 <= j < r2.len() implies #[trigger] r2[j] != Cell::Unknown && (after[j]
                != Cell::Unknown ==> r2[j] == after[j]) by {
                assert(r2[j] == r[c + j]);
                assert(r[c + j] != Cell::Unknown);
            }
            assert(a2.contains(r2));
        }
        assert forall|r: Seq<Cell>| a2.map(f2).contains(r) implies place_set.contains(r) by {
            let r2 = choose|r2: Seq<Cell>| a2.contains(r2) && f2(r2) == r;
            if c == len {
                assert(r2.len() == 0);
            }
            lemma_runs_after_block(len, c, r2);
            assert forall|k: int| 0 <= k < r.len() implies #[trigger] r[k] != Cell::Unknown && (p[k]
                != Cell::Unknown ==> r[k] == p[k]) by {
                if k >= c {
                    assert(r[k] == r2[k - c]);
                    assert(r2[k - c] != Cell::Unknown);
                }
            }
            assert(r[0] == Cell::Active);
        }
        assert(place_set =~= a2.map(f2));
        assert(vstd::relations::injective_on(f2, a2)) by {
            assert forall|x: Seq<Cell>, y: Seq<Cell>|
                a2.contains(x) && a2.contains(y) && #[trigger] f2(x) == #[trigger] f2(y) implies x
                == y by {
                assert(x =~= f2(x).skip(c));
                assert(y =~= f2(y).skip(c));
            }
        }
        vstd::set_lib::lemma_map_size(a2, place_set, f2);
    } else {
        assert forall|r: Seq<Cell>| !place_set.contains(r) by {
            if place_set.contains(r) {
                assert(p[0] != Cell::Inactive);
                lemma_lead(r);
                let k = lead(r) as int;
                assert(runs(r)[0] == as_nats(g)[0]);
                assert(k == len);
                assert forall|j: int| 0 <= j < len implies p[j] != Cell::Inactive by {
                    assert(r[j] == Cell::Active);
                }
                if len < p.len() {
                    assert(r[len] != Cell::Unknown);
                }
                assert(fits(p, len));
            }
        }
        assert(place_set =~= Set::<Seq<Cell>>::empty());
    }
}

/// The count is the number of resolutions of the row whose runs of active
/// cells are exactly the groups.
pub proof fn lemma_ways_counts_arrangements(p: Seq<Cell>, g: Seq<usize>)
    requires
        positive_groups(g),
    ensures
        arrangements(p, g).finite(),
        arrangements(p, g).len() == ways(p, g),
    decreases p.len(),
{
    if g.len() == 0 {
        lemma_arrangements_without_groups(p, g);
    } else if p.len() == 0 {
        assert forall|r: Seq<Cell>| !arrangements(p, g).contains(r) by {
            if arrangements(p, g).contains(r) {
                assert(r.len() == 0);
                assert(runs(r).len() == 0);
                assert(as_nats(g).len() > 0);
            }
        }
        assert(arrangements(p, g) =~= Set::<Seq<Cell>>::empty());
    } else {
        let s = arrangements(p, g);
        let len = g[0] as int;
        let g1 = g.drop_first();
        assert(positive_groups(g1)) by {
            assert forall|i: int| 0 <= i < g1.len() implies #[trigger] g1[i] >= 1 by {
                assert(g1[i] == g[i + 1]);
            }
        }
        if p[0] != Cell::Active {
            lemma_ways_counts_arrangements(p.drop_first(), g);
        }
        if p[0] != Cell::Inactive && fits(p, len) {
            lemma_ways_counts_arrangements(p.skip(consumed(p, len)), g1);
        }
        lemma_skip_part(p, g);
        lemma_place_part(p, g);
        let skip_set = starting_with(p, g, Cell::Inactive);
        let place_set = starting_with(p, g, Cell::Active);
        assert(s =~= skip_set + place_set) by {
            assert forall|r: Seq<Cell>| s.contains(r) implies skip_set.contains(r) || place_set.contains(
                r,
            ) by {
                assert(r[0] != Cell::Unknown);
            }
        }
        assert(skip_set.disjoint(place_set));
        vstd::set_lib::lemma_set_disjoint_lens(skip_set, place_set);
    }
}

/// For a row of `n` unknown cells and a single group of length `len` with
/// `1 <= len <= n`, the count is `n - len + 1`.
pub proof fn lemma_all_unknown_single_group(p: Seq<Cell>, len: usize)
    requires
        all_unknown(p),
        1 <= len <= p.len(),
    ensures
        ways(p, seq![len]) == p.len() - len + 1,
{
    lemma_all_unknown_single_group_any(p, len);
}

proof fn lemma_all_unknown_single_group_any(p: Seq<Cell>, len: usize)
    requires
        all_unknown(p),
        1 <= len,
    ensures
        ways(p, seq![len]) == (if len <= p.len() { p.len() - len + 1 } else { 0int }),
    decreases p.len(),
{
    if p.len() > 0 {
        let g = seq![len];
        assert forall|k: int| 0 <= k < p.len() - 1 implies p.drop_first()[k] == Cell::Unknown by {
            assert(p.drop_first()[k] == p[k + 1]);
        }
        lemma_all_unknown_single_group_any(p.drop_first(), len);
        assert(g.drop_first() =~= Seq::<usize>::empty());
        let c = consumed(p, len as int);
        assert(g[0] == len);
        assert(g.len() == 1);
        let skip = ways(p.drop_first(), g);
        if len <= p.len() {
            assert(fits(p, len as int));
            assert(ways(p, g) == skip + ways(p.skip(c), g.drop_first()));
            assert forall|k: int| 0 <= k < p.skip(c).len() implies p.skip(c)[k] != Cell::Active by {
                assert(p.skip(c)[k] == p[c + k]);
            }
        }
    }
}

/// The cell written as `c`, if `c` is one of `#`, `.` and `?`.
pub open spec fn cell_of(c: char) -> Option<Cell> {
    if c == '#' {
        Some(Cell::Active)
    } else if c == '.' {
        Some(Cell::Inactive)
    } else if c == '?' {
        Some(Cell::Unknown)
    } else {
        None
    }
}

/// Every character of `s` writes a cell.
pub open spec fn valid_cells(s: Seq<char>) -> bool {
    forall|k: int| 0 <= k < s.len() ==> cell_of(s[k]) is Some
}

/// The cells that `s` writes.
pub open spec fn cells(s: Seq<char>) -> Seq<Cell> {
    s.map_values(|c: char| cell_of(c)->0)
}

/// `t` writes a group length: a positive decimal number that fits in a `usize`.
pub open spec fn valid_group(t: Seq<char>) -> bool {
    is_decimal(t) && 1 <= decimal(t) <= usize::MAX
}

/// The row written as `line`: a non-empty pattern of cells, one space, and the
/// group lengths separated by commas.
pub open spec fn parse_row(line: Seq<char>) -> Option<(Seq<Cell>, Seq<usize>)> {
    match find(line, ' ') {
        None => None,
        Some(k) => {
            let pat = line.take(k as int);
            let ts = split(line.skip(k as int + 1), ',');
            if pat.len() > 0 && valid_cells(pat) && forall|i: int|
                0 <= i < ts.len() ==> valid_group(#[trigger] ts[i]) {
                Some((cells(pat), ts.map_values(|t: Seq<char>| decimal(t) as usize)))
            } else {
                None
            }
        },
    }
}

/// One row of the puzzle: a pattern of cells and the required run lengths.
pub struct Springs {
    pub pattern: Vec<Cell>,
    pub required: Vec<usize>,
}

/// A line that does not write a row.
#[derive(Debug, PartialEq, Eq, Structural)]
pub struct ParseSpringsErr;

fn cell_from(c: char) -> (r: Option<Cell>)
    ensures
        r == cell_of(c),
{
    if c == '#' {
        Some(Cell::Active)
    } else if c == '.' {
        Some(Cell::Inactive)
    } else if c == '?' {
        Some(Cell::Unknown)
    } else {
        None
    }
}

/// The cells written by `s`, or `None` if a character writes none.
fn parse_cells(s: &[char]) -> (r: Option<Vec<Cell>>)
    ensures
        r is Some <==> valid_cells(s@),
        r is Some ==> r->0@ == cells(s@),
{
    let mut out: Vec<Cell> = Vec::new();
    let mut i: usize = 0;
    while i < s.len()
        invariant
            i <= s@.len(),
            valid_cells(s@.take(i as int)),
            out@ == cells(s@.take(i as int)),
        decreases s@.len() - i,
    {
        match cell_from(s[i]) {
            Some(c) => {
                out.push(c);
                proof {
                    assert(s@.take(i + 1) =~= s@.take(i as int).push(s@[i as int]));
                    assert(out@ =~= cells(s@.take(i + 1)));
                }
            },
            None => {
                proof {
                    assert(!valid_cells(s@));
                }
                return None;
            },
        }
        i = i + 1;
    }
    proof {
        assert(s@.take(i as int) =~= s@);
    }
    Some(out)
}

/// The group lengths written by `ts`, or `None` if one is not a valid group.
fn parse_groups(ts: &Vec<Vec<char>>) -> (r: Option<Vec<usize>>)
    ensures
        r is Some <==> forall|i: int| 0 <= i < ts@.len() ==> valid_group(#[trigger] views(ts@)[i]),
        r is Some ==> r->0@ == views(ts@).map_values(|t: Seq<char>| decimal(t) as usize),
{
    let ghost v = views(ts@);
    let mut out: Vec<usize> = Vec::new();
    let mut i: usize = 0;
    while i < ts.len()
        invariant
            v == views(ts@),
            i <= ts@.len(),
            forall|a: int| 0 <= a < i ==> valid_group(#[trigger] v[a]),
            out@ == v.take(i as int).map_values(|t: Seq<char>| decimal(t) as usize),
        decreases ts@.len() - i,
    {
        let t = &ts[i];
        assert(v[i as int] == t@);
        match parse_decimal(t.as_slice(), usize::MAX as u64) {
            Some(x) => {
                if x == 0 {
                    return None;
                }
                out.push(x as usize);
                proof {
                    assert(out@ =~= v.take(i + 1).map_values(|t: Seq<char>| decimal(t) as usize));
                }
            },
            None => {
                return None;
            },
        }
        i = i + 1;
    }
    proof {
        assert(v.take(i as int) =~= v);
    }
    Some(out)
}

impl Springs {
    /// Reads a row from the characters of one line.
    pub fn parse(line: &[char]) -> (r: Result<Springs, ParseSpringsErr>)
        ensures
            match parse_row(line@) {
                Some((p, g)) => r is Ok && r->Ok_0.pattern@ == p && r->Ok_0.required@ == g,
                None => r is Err,
            },
    {
        let n = line.len();
        let found = find_char(line, ' ');
        let k = match found {
            Some(k) => k,
            None => {
                return Err(ParseSpringsErr);
            },
        };
        assert(k < line@.len());
        assert(find(line@, ' ') == Some(k as nat));
        if k == 0 {
            return Err(ParseSpringsErr);
        }
        let head = crate::text::slice_prefix(line, k);
        let tail = crate::text::slice_range(line, k + 1, n);
        let pattern = match parse_cells(head.as_slice()) {
            Some(p) => p,
            None => {
                return Err(ParseSpringsErr);
            },
        };
        let pieces = split_on(tail.as_slice(), ',');
        let required = match parse_groups(&pieces) {
            Some(g) => g,
            None => {
                return Err(ParseSpringsErr);
            },
        };
        proof {
            assert(tail@ =~= line@.skip(k + 1));
        }
        Ok(Springs { pattern, required })
    }

    /// The number of resolutions of this row; `None` when it does not fit in a `u64`.
    pub fn count(&self) -> (r: Option<u64>)
        ensures
            r == (if ways(self.pattern@, self.required@) <= u64::MAX {
                Some(ways(self.pattern@, self.required@) as u64)
            } else {
                None
            }),
    {
        count(self.pattern.as_slice(), self.required.as_slice())
    }
}

/// Reads a row from a line of text.
pub fn parse_springs(line: &str) -> (r: Result<Springs, ParseSpringsErr>)
    ensures
        match parse_row(line@) {
            Some((p, g)) => r is Ok && r->Ok_0.pattern@ == p && r->Ok_0.required@ == g,
            None => r is Err,
        },
{
    let chars = chars_of(line);
    Springs::parse(chars.as_slice())
}

/// `k` copies of `s` with `sep` between consecutive copies.
pub open spec fn joined<A>(s: Seq<A>, sep: A, k: nat) -> Seq<A>
    decreases k,
{
    if k == 0 {
        Seq::empty()
    } else if k == 1 {
        s
    } else {
        joined(s, sep, (k - 1) as nat).push(sep) + s
    }
}

/// `k` copies of `s`, one after the other.
pub open spec fn repeated<A>(s: Seq<A>, k: nat) -> Seq<A>
    decreases k,
{
    if k == 0 {
        Seq::empty()
    } else {
        repeated(s, (k - 1) as nat) + s
    }
}

/// Unfolding a row once gives back the same pattern and the same groups.
pub proof fn lemma_unfold_once(p: Seq<Cell>, g: Seq<usize>)
    ensures
        joined(p, Cell::Unknown, 1) == p,
        repeated(g, 1) == g,
{
    assert(repeated(g, 0) + g =~= g);
}

/// Pushes the elements of `s` onto `v`, in order.
fn append_all<T: Copy>(v: &mut Vec<T>, s: &[T])
    ensures
        final(v)@ == old(v)@ + s@,
{
    let ghost start = v@;
    let mut i: usize = 0;
    while i < s.len()
        invariant
            i <= s@.len(),
            v@ == start + s@.take(i as int),
        decreases s@.len() - i,
    {
        v.push(s[i]);
        i = i + 1;
        proof {
            assert(v@ =~= start + s@.take(i as int));
        }
    }
    proof {
        assert(s@.take(i as int) =~= s@);
    }
}

impl Springs {
    /// The row unfolded `k` times: `k` copies of the pattern joined by unknown
    /// cells, and `k` copies of the groups.
    pub fn unfold(&self, k: usize) -> (r: Springs)
        ensures
            r.pattern@ == joined(self.pattern@, Cell::Unknown, k as nat),
            r.required@ == repeated(self.required@, k as nat),
    {
        let mut pattern: Vec<Cell> = Vec::new();
        let mut required: Vec<usize> = Vec::new();
        let mut c: usize = 0;
        while c < k
            invariant
                c <= k,
                pattern@ == joined(self.pattern@, Cell::Unknown, c as nat),
                required@ == repeated(self.required@, c as nat),
            decreases k - c,
        {
            if c > 0 {
                pattern.push(Cell::Unknown);
            }
            append_all(&mut pattern, self.pattern.as_slice());
            append_all(&mut required, self.required.as_slice());
            proof {
                if c == 0 {
                    assert(pattern@ =~= joined(self.pattern@, Cell::Unknown, 1));
                }
            }
            c = c + 1;
        }
        Springs { pattern, required }
    }
}

/// The text of a row unfolded five times: the pattern (before the first space)
/// repeated with `?` between copies, a space, and the rest repeated with `,`
/// between copies.
pub fn unfold_row(line: &str) -> (r: String)
    requires
        find(line@, ' ') is Some,
    ensures
        ({
            let k = find(line@, ' ')->0 as int;
            r@ == joined(line@.take(k), '?', 5) + seq![' '] + joined(line@.skip(k + 1), ',', 5)
        }),
{
    let chars = chars_of(line);
    let n = chars.len();
    let k = match find_char(chars.as_slice(), ' ') {
        Some(k) => k,
        None => {
            return String::new();
        },
    };
    let pattern = line.substring_char(0, k);
    let groups = line.substring_char(k + 1, n);
    proof {
        reveal_strlit("?");
        reveal_strlit(",");
        reveal_strlit(" ");
    }
    let mut r = String::new();
    let mut c: usize = 0;
    while c < 5
        invariant
            c <= 5,
            r@ == joined(pattern@, '?', c as nat),
        decreases 5 - c,
    {
        let ghost before = r@;
        if c > 0 {
            r.append("?");
        }
        r.append(pattern);
        proof {
            reveal_strlit("?");
            if c == 0 {
                assert(r@ =~= joined(pattern@, '?', 1));
            } else {
                assert(r@ =~= before.push('?') + pattern@);
            }
        }
        c = c + 1;
    }
    r.append(" ");
    let ghost head = r@;
    let mut c: usize = 0;
    while c < 5
        invariant
            c <= 5,
            r@ == head + joined(groups@, ',', c as nat),
        decreases 5 - c,
    {
        let ghost before = r@;
        if c > 0 {
            r.append(",");
        }
        r.append(groups);
        proof {
            reveal_strlit(",");
            if c == 0 {
                assert(joined(groups@, ',', 1) == groups@);
            } else {
                assert(r@ =~= before.push(',') + groups@);
            }
            assert(r@ =~= head + joined(groups@, ',', (c + 1) as nat));
        }
        c = c + 1;
    }
    r
}

/// The count for the row written as `row`, unfolded `k` times.
pub open spec fn row_total(row: Seq<char>, k: nat) -> nat {
    let pg = parse_row(row)->0;
    ways(joined(pg.0, Cell::Unknown, k), repeated(pg.1, k))
}

/// Every line of `rows` writes a row.
pub open spec fn rows_valid(rows: Seq<Seq<char>>) -> bool {
    forall|i: int| 0 <= i < rows.len() ==> (#[trigger] parse_row(rows[i])) is Some
}

/// The sum of the counts of `rows`, each unfolded `k` times.
pub open spec fn total(rows: Seq<Seq<char>>, k: nat) -> nat
    decreases rows.len(),
{
    if rows.len() == 0 {
        0
    } else {
        total(rows.drop_last(), k) + row_total(rows.last(), k)
    }
}

/// The rows of a document: the lines of its text with the blank space at
/// either end removed.
pub open spec fn document_rows(input: Seq<char>) -> Seq<Seq<char>> {
    lines(trim(input))
}

/// Why a document has no total.
#[derive(Debug, PartialEq, Eq, Structural)]
pub enum DocumentErr {
    /// A line does not write a row.
    Parse,
    /// The total does not fit in a `u64`.
    Overflow,
}

proof fn lemma_total_prefix(rows: Seq<Seq<char>>, k: nat, i: int)
    requires
        0 <= i <= rows.len(),
    ensures
        total(rows.take(i), k) <= total(rows, k),
    decreases rows.len(),
{
    if i < rows.len() {
        assert(rows.drop_last().take(i) =~= rows.take(i));
        lemma_total_prefix(rows.drop_last(), k, i);
    } else {
        assert(rows.take(i) =~= rows);
    }
}

/// The sum, over the rows of the document `input`, of each row's count once
/// the row is unfolded `copies` times.
pub fn total_arrangements(input: &str, copies: usize) -> (r: Result<u64, DocumentErr>)
    ensures
        !rows_valid(document_rows(input@)) ==> r == Err::<u64, DocumentErr>(DocumentErr::Parse),
        rows_valid(document_rows(input@)) ==> r == (if total(document_rows(input@), copies as nat)
            <= u64::MAX {
            Ok::<u64, DocumentErr>(total(document_rows(input@), copies as nat) as u64)
        } else {
            Err(DocumentErr::Overflow)
        }),
{
    let chars = chars_of(input);
    let trimmed = trim_of(chars.as_slice());
    let rows = lines_of(trimmed.as_slice());
    let ghost rs = views(rows@);
    assert(rs == document_rows(input@));
    let mut unfolded: Vec<Springs> = Vec::new();
    let mut i: usize = 0;
    while i < rows.len()
        invariant
            rs == views(rows@),
            rs == document_rows(input@),
            i <= rows@.len(),
            unfolded@.len() == i,
            forall|a: int| 0 <= a < i ==> (#[trigger] parse_row(rs[a])) is Some,
            forall|a: int|
                #![trigger unfolded@[a]]
                0 <= a < i ==> ways(unfolded@[a].pattern@, unfolded@[a].required@) == row_total(
                    rs[a],
                    copies as nat,
                ),
        decreases rows@.len() - i,
    {
        assert(rs[i as int] == rows@[i as int]@);
        match Springs::parse(rows[i].as_slice()) {
            Ok(row) => {
                let u = row.unfold(copies);
                let ghost before = unfolded@;
                proof {
                    let pg = parse_row(rs[i as int])->0;
                    assert(row.pattern@ == pg.0 && row.required@ == pg.1);
                    assert(ways(u.pattern@, u.required@) == row_total(rs[i as int], copies as nat));
                }
                unfolded.push(u);
                proof {
                    assert forall|a: int|
                        #![trigger unfolded@[a]]
                        0 <= a < i + 1 implies ways(unfolded@[a].pattern@, unfolded@[a].required@)
                            == row_total(rs[a], copies as nat) by {
                        if a < i {
                            assert(unfolded@[a] == before[a]);
                        } else {
                            assert(unfolded@[a] == u);
                        }
                    }
                }
            },
            Err(_) => {
                return Err(DocumentErr::Parse);
            },
        }
        i = i + 1;
    }
    let mut acc: u64 = 0;
    let mut i: usize = 0;
    while i < unfolded.len()
        invariant
            rs == views(rows@),
            rs == document_rows(input@),
            unfolded@.len() == rs.len(),
            i <= rs.len(),
            rows_valid(rs),
            forall|a: int|
                #![trigger unfolded@[a]]
                0 <= a < rs.len() ==> ways(unfolded@[a].pattern@, unfolded@[a].required@)
                    == row_total(rs[a], copies as nat),
            acc == total(rs.take(i as int), copies as nat),
        decreases rs.len() - i,
    {
        proof {
            assert(rs.take(i + 1).drop_last() =~= rs.take(i as int));
            lemma_total_prefix(rs, copies as nat, i + 1);
            assert(ways(unfolded@[i as int].pattern@, unfolded@[i as int].required@) == row_total(
                rs[i as int],
                copies as nat,
            ));
        }
        match unfolded[i].count() {
            Some(v) => {
                if acc > u64::MAX - v {
                    return Err(DocumentErr::Overflow);
                }
                acc = acc + v;
            },
            None => {
                return Err(DocumentErr::Overflow);
            },
        }
        i = i + 1;
    }
    proof {
        assert(rs.take(i as int) =~= rs);
    }
    Ok(acc)
}

/// The total count of the rows of `input`, each taken as it stands.
pub fn part1(input: &str) -> (r: usize)
    requires
        rows_valid(document_rows(input@)),
        total(document_rows(input@), 1) <= usize::MAX,
    ensures
        r == total(document_rows(input@), 1),
{
    match total_arrangements(input, 1) {
        Ok(v) => v as usize,
        Err(_) => 0,
    }
}

/// The total count of the rows of `input`, each unfolded five times.
pub fn part2(input: &str) -> (r: usize)
    requires
        rows_valid(document_rows(input@)),
        total(document_rows(input@), 5) <= usize::MAX,
    ensures
        r == total(document_rows(input@), 5),
{
    match total_arrangements(input, 5) {
        Ok(v) => v as usize,
        Err(_) => 0,
    }
}

/// The count of the row written as `line`.
pub fn num_arrangements_2(line: &str) -> (r: usize)
    requires
        parse_row(line@) is Some,
        row_total(line@, 1) <= usize::MAX,
    ensures
        r == row_total(line@, 1),
{
    let ghost pg = parse_row(line@)->0;
    proof {
        lemma_unfold_once(pg.0, pg.1);
    }
    match parse_springs(line) {
        Ok(row) => match row.count() {
            Some(v) => v as usize,
            None => 0,
        },
        Err(_) => 0,
    }
}

/// The count of the row written as `line`; the same as [`num_arrangements_2`].
pub fn num_arrangements(line: &str) -> (r: usize)
    requires
        parse_row(line@) is Some,
        row_total(line@, 1) <= usize::MAX,
    ensures
        r == row_total(line@, 1),
{
    num_arrangements_2(line)
}

/// The count for a pattern made of `#` and `?` only, as `None` when it is 0.
pub fn num_arrangements_in_group(pattern: &str, required: &[usize]) -> (r: Option<usize>)
    requires
        forall|k: int| 0 <= k < pattern@.len() ==> pattern@[k] == '#' || pattern@[k] == '?',
        ways(cells(pattern@), required@) <= usize::MAX,
    ensures
        r == (if ways(cells(pattern@), required@) == 0 {
            None
        } else {
            Some(ways(cells(pattern@), required@) as usize)
        }),
{
    let chars = chars_of(pattern);
    match parse_cells(chars.as_slice()) {
        Some(p) => match count(p.as_slice(), required) {
            Some(v) => if v == 0 {
                None
            } else {
                Some(v as usize)
            },
            None => None,
        },
        None => None,
    }
}

proof fn lemma_total_remove(rows: Seq<Seq<char>>, k: nat, i: int)
    requires
        0 <= i < rows.len(),
    ensures
        total(rows, k) == total(rows.remove(i), k) + row_total(rows[i], k),
    decreases rows.len(),
{
    if i < rows.len() - 1 {
        assert(rows.drop_last().remove(i) =~= rows.remove(i).drop_last());
        lemma_total_remove(rows.drop_last(), k, i);
    } else {
        assert(rows.remove(i) =~= rows.drop_last());
    }
}

/// The total of a document does not depend on the order of its rows: any two
/// arrangements of the same rows have the same total.
pub proof fn lemma_total_order_invariant(a: Seq<Seq<char>>, b: Seq<Seq<char>>, k: nat)
    requires
        a.to_multiset() == b.to_multiset(),
    ensures
        total(a, k) == total(b, k),
    decreases a.len(),
{
    broadcast use vstd::seq_lib::group_to_multiset_ensures;

    if a.len() == 0 {
        assert(b.to_multiset().len() == 0);
    } else {
        let x = a.last();
        let rest = a.drop_last();
        assert(rest.push(x) =~= a);
        assert(a.to_multiset().count(x) > 0);
        assert(b.contains(x));
        let i = choose|i: int| 0 <= i < b.len() && b[i] == x;
        assert(b.remove(i).to_multiset() == b.to_multiset().remove(x));
        assert(rest.to_multiset() =~= a.to_multiset().remove(x));
        lemma_total_order_invariant(rest, b.remove(i), k);
        lemma_total_remove(b, k, i);
    }
}

/// The ways to assign `m` things, in order, to `n` numbered groups, each
/// written as the group of every thing: the non-decreasing sequences of length
/// `m` over `0..n`, in order of their last element, then of the one before it,
/// and so on.
pub open spec fn partitions(m: nat, n: nat) -> Seq<Seq<usize>>
    decreases m, n,
{
    if m == 0 {
        seq![Seq::empty()]
    } else if n == 0 {
        Seq::empty()
    } else {
        partitions(m, (n - 1) as nat) + partitions((m - 1) as nat, n).map_values(
            |p: Seq<usize>| p.push((n - 1) as usize),
        )
    }
}

/// The contents of each vector of `v`.
pub open spec fn usize_rows(v: Seq<Vec<usize>>) -> Seq<Seq<usize>> {
    v.map_values(|w: Vec<usize>| w@)
}

fn partitions_of(m: usize, n: usize) -> (r: Vec<Vec<usize>>)
    ensures
        usize_rows(r@) == partitions(m as nat, n as nat),
    decreases m, n,
{
    if m == 0 {
        let mut r: Vec<Vec<usize>> = Vec::new();
        r.push(Vec::new());
        assert(usize_rows(r@) =~= partitions(0, n as nat));
        return r;
    }
    if n == 0 {
        let r: Vec<Vec<usize>> = Vec::new();
        assert(usize_rows(r@) =~= partitions(m as nat, 0));
        return r;
    }
    let mut r = partitions_of(m, n - 1);
    let sub = partitions_of(m - 1, n);
    let ghost head = usize_rows(r@);
    let ghost tail = partitions((m - 1) as nat, n as nat).map_values(
        |p: Seq<usize>| p.push((n - 1) as usize),
    );
    let mut i: usize = 0;
    while i < sub.len()
        invariant
            1 <= n,
            usize_rows(sub@) == partitions((m - 1) as nat, n as nat),
            tail == partitions((m - 1) as nat, n as nat).map_values(
                |p: Seq<usize>| p.push((n - 1) as usize),
            ),
            i <= sub@.len(),
            usize_rows(r@) == head + tail.take(i as int),
        decreases sub@.len() - i,
    {
        let mut q: Vec<usize> = Vec::new();
        append_all(&mut q, sub[i].as_slice());
        q.push(n - 1);
        let ghost before = usize_rows(r@);
        r.push(q);
        proof {
            assert(usize_rows(sub@)[i as int] == sub@[i as int]@);
            assert(q@ =~= tail[i as int]);
            assert(usize_rows(r@) =~= before.push(q@));
            assert(tail.take(i + 1) =~= tail.take(i as int).push(tail[i as int]));
        }
        i = i + 1;
    }
    proof {
        assert(tail.take(i as int) =~= tail);
    }
    r
}

/// The ways to assign `m` things, in order, to `n` groups (see [`partitions`]);
/// none at all when there is nothing to assign.
pub fn ordered_partitions(m: usize, n: usize) -> (r: Vec<Vec<usize>>)
    requires
        m == 0 || n > 0,
    ensures
        usize_rows(r@) == (if m == 0 { Seq::empty() } else { partitions(m as nat, n as nat) }),
{
    if m == 0 {
        let r: Vec<Vec<usize>> = Vec::new();
        assert(usize_rows(r@) =~= Seq::<Seq<usize>>::empty());
        return r;
    }
    partitions_of(m, n)
}

} // verus!
