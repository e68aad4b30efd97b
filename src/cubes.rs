//! Games of cubes drawn from a bag: reading the draws and checking which games
//! a bag of given contents allows.
use crate::text::{
    chars_of, decimal, find, find_char, is_decimal, lines, lines_of, parse_decimal, slice_range,
    split, split_on, trim, trim_of, views, u64_text, nat_text,
};
use vstd::prelude::*;

verus! {

/// The cubes of each colour shown in one draw.
#[derive(Debug, PartialEq, Eq, Structural, Clone, Copy)]
pub struct CubeCount {
    pub red: u32,
    pub green: u32,
    pub blue: u32,
}

/// Text that does not write a draw.
#[derive(Debug, PartialEq, Eq, Structural)]
pub struct ParseCubeCountError;

/// The colour named by `s`: 0 for red, 1 for green, 2 for blue.
pub open spec fn colour_of(s: Seq<char>) -> Option<nat> {
    if s == seq!['r', 'e', 'd'] {
        Some(0)
    } else if s == seq!['g', 'r', 'e', 'e', 'n'] {
        Some(1)
    } else if s == seq!['b', 'l', 'u', 'e'] {
        Some(2)
    } else {
        None
    }
}

/// The pieces of `s` separated by `sep` followed by a space: the pieces
/// between occurrences of `sep`, each after the first losing its leading
/// space; `None` if one of those lacks it.
pub open spec fn pieces(s: Seq<char>, sep: char) -> Option<Seq<Seq<char>>> {
    let ps = split(s, sep);
    if forall|i: int| 1 <= i < ps.len() ==> (#[trigger] ps[i]).len() > 0 && ps[i][0] == ' ' {
        Some(Seq::new(ps.len(), |i: int| if i == 0 { ps[0] } else { ps[i].drop_first() }))
    } else {
        None
    }
}

/// A token `<count> <colour>`: the colour and the count.
pub open spec fn token_of(t: Seq<char>) -> Option<(nat, nat)> {
    match find(t, ' ') {
        None => None,
        Some(k) => {
            let n = t.take(k as int);
            match colour_of(t.skip(k as int + 1)) {
                Some(c) => if is_decimal(n) && decimal(n) <= u32::MAX {
                    Some((c, decimal(n)))
                } else {
                    None
                },
                None => None,
            }
        },
    }
}

/// The total count of colour `c` over the first `k` tokens of `ts`.
pub open spec fn colour_total(ts: Seq<Seq<char>>, c: nat, k: int) -> nat
    decreases k,
{
    if k <= 0 {
        0
    } else {
        colour_total(ts, c, k - 1) + match token_of(ts[k - 1]) {
            Some((c2, n)) => if c2 == c { n } else { 0 },
            None => 0,
        }
    }
}

/// The draw written by `s`: tokens separated by `, `, each `<count> <colour>`,
/// with the counts of each colour added up; `None` if a token is malformed or
/// a total does not fit in a `u32`.
pub open spec fn draw_of(s: Seq<char>) -> Option<(nat, nat, nat)> {
    match pieces(s, ',') {
        None => None,
        Some(ts) => {
            let n = ts.len() as int;
            if (forall|i: int| 0 <= i < ts.len() ==> (#[trigger] token_of(ts[i])) is Some)
                && colour_total(ts, 0, n) <= u32::MAX && colour_total(ts, 1, n) <= u32::MAX
                && colour_total(ts, 2, n) <= u32::MAX {
                Some((colour_total(ts, 0, n), colour_total(ts, 1, n), colour_total(ts, 2, n)))
            } else {
                None
            }
        },
    }
}

proof fn lemma_colour_total_monotone(ts: Seq<Seq<char>>, c: nat, j: int, k: int)
    requires
        0 <= j <= k,
    ensures
        colour_total(ts, c, j) <= colour_total(ts, c, k),
    decreases k - j,
{
    if j < k {
        lemma_colour_total_monotone(ts, c, j, k - 1);
    }
}

/// Splits `s` into the pieces separated by `sep` and a space.
pub fn pieces_of(s: &[char], sep: char) -> (r: Option<Vec<Vec<char>>>)
    ensures
        match pieces(s@, sep) {
            Some(ps) => r is Some && views(r->0@) == ps,
            None => r is None,
        },
{
    let ps = split_on(s, sep);
    let ghost v = views(ps@);
    let mut out: Vec<Vec<char>> = Vec::new();
    let mut i: usize = 0;
    while i < ps.len()
        invariant
            v == views(ps@),
            v == split(s@, sep),
            i <= v.len(),
            forall|a: int| 1 <= a < i ==> (#[trigger] v[a]).len() > 0 && v[a][0] == ' ',
            views(out@) == Seq::new(i as nat, |a: int| if a == 0 { v[0] } else { v[a].drop_first() }),
        decreases v.len() - i,
    {
        let p = &ps[i];
        assert(v[i as int] == p@);
        let q = if i == 0 {
            slice_range(p.as_slice(), 0, p.len())
        } else {
            if p.len() == 0 || p[0] != ' ' {
                return None;
            }
            slice_range(p.as_slice(), 1, p.len())
        };
        proof {
            if i == 0 {
                assert(q@ =~= v[0]);
            } else {
                assert(q@ =~= v[i as int].drop_first());
            }
        }
        let ghost before = views(out@);
        out.push(q);
        proof {
            assert(views(out@) =~= before.push(q@));
            assert(views(out@) =~= Seq::new((i + 1) as nat, |a: int| if a == 0 { v[0] } else { v[a].drop_first() }));
        }
        i = i + 1;
    }
    Some(out)
}

fn colour_from(s: &[char]) -> (r: Option<u32>)
    ensures
        match colour_of(s@) {
            Some(c) => r == Some(c as u32),
            None => r is None,
        },
{
    proof {
        reveal_strlit("red");
        reveal_strlit("green");
        reveal_strlit("blue");
    }
    let red = chars_of("red");
    let green = chars_of("green");
    let blue = chars_of("blue");
    assert(red@ =~= seq!['r', 'e', 'd']);
    assert(green@ =~= seq!['g', 'r', 'e', 'e', 'n']);
    assert(blue@ =~= seq!['b', 'l', 'u', 'e']);
    if same(s, red.as_slice()) {
        Some(0)
    } else if same(s, green.as_slice()) {
        Some(1)
    } else if same(s, blue.as_slice()) {
        Some(2)
    } else {
        None
    }
}

fn same(a: &[char], b: &[char]) -> (r: bool)
    ensures
        r == (a@ == b@),
{
    if a.len() != b.len() {
        return false;
    }
    let mut i: usize = 0;
    while i < a.len()
        invariant
            a@.len() == b@.len(),
            i <= a@.len(),
            forall|k: int| 0 <= k < i ==> a@[k] == b@[k],
        decreases a@.len() - i,
    {
        if a[i] != b[i] {
            return false;
        }
        i = i + 1;
    }
    assert(a@ =~= b@);
    true
}

/// Reads one `<count> <colour>` token: the colour and the count.
fn token_from(t: &[char]) -> (r: Option<(u32, u32)>)
    ensures
        match token_of(t@) {
            Some((c, n)) => r == Some((c as u32, n as u32)),
            None => r is None,
        },
{
    let len = t.len();
    let k = match find_char(t, ' ') {
        Some(k) => k,
        None => {
            return None;
        },
    };
    let count_text = slice_range(t, 0, k);
    let colour_text = slice_range(t, k + 1, len);
    assert(count_text@ =~= t@.take(k as int));
    assert(colour_text@ =~= t@.skip(k + 1));
    let c = match colour_from(colour_text.as_slice()) {
        Some(c) => c,
        None => {
            return None;
        },
    };
    match parse_decimal(count_text.as_slice(), u32::MAX as u64) {
        Some(n) => Some((c, n as u32)),
        None => None,
    }
}

impl CubeCount {
    /// Reads a draw from its text, such as `3 blue, 4 red`.
    pub fn parse(s: &[char]) -> (r: Result<CubeCount, ParseCubeCountError>)
        ensures
            match draw_of(s@) {
                Some((red, green, blue)) => r == Ok::<CubeCount, ParseCubeCountError>(
                    CubeCount { red: red as u32, green: green as u32, blue: blue as u32 },
                ),
                None => r is Err,
            },
    {
        let ts = match pieces_of(s, ',') {
            Some(ts) => ts,
            None => {
                return Err(ParseCubeCountError);
            },
        };
        let ghost v = views(ts@);
        let mut totals: [u32; 3] = [0, 0, 0];
        let mut i: usize = 0;
        while i < ts.len()
            invariant
                v == views(ts@),
                pieces(s@, ',') == Some(v),
                i <= v.len(),
                forall|a: int| 0 <= a < i ==> (#[trigger] token_of(v[a])) is Some,
                totals@[0] == colour_total(v, 0, i as int),
                totals@[1] == colour_total(v, 1, i as int),
                totals@[2] == colour_total(v, 2, i as int),
            decreases v.len() - i,
        {
            assert(v[i as int] == ts@[i as int]@);
            let (c, n) = match token_from(ts[i].as_slice()) {
                Some(p) => p,
                None => {
                    return Err(ParseCubeCountError);
                },
            };
            let cur = totals[c as usize];
            if cur > u32::MAX - n {
                proof {
                    lemma_colour_total_monotone(v, c as nat, i + 1, v.len() as int);
                }
                return Err(ParseCubeCountError);
            }
            totals[c as usize] = cur + n;
            i = i + 1;
        }
        Ok(CubeCount { red: totals[0], green: totals[1], blue: totals[2] })
    }
}

impl core::str::FromStr for CubeCount {
    type Err = ParseCubeCountError;

    fn from_str(s: &str) -> Result<CubeCount, ParseCubeCountError> {
        let chars = chars_of(s);
        CubeCount::parse(chars.as_slice())
    }
}

/// One game: its number and the draws shown in it.
#[derive(Debug)]
pub struct Game {
    pub id: u32,
    pub cube_counts: Vec<CubeCount>,
}

impl PartialEq for Game {
    fn eq(&self, other: &Game) -> (r: bool) {
        if self.id != other.id || self.cube_counts.len() != other.cube_counts.len() {
            return false;
        }
        let mut i: usize = 0;
        while i < self.cube_counts.len()
            invariant
                self.cube_counts@.len() == other.cube_counts@.len(),
                i <= self.cube_counts@.len(),
                forall|k: int| 0 <= k < i ==> self.cube_counts@[k] == other.cube_counts@[k],
            decreases self.cube_counts@.len() - i,
        {
            if self.cube_counts[i] != other.cube_counts[i] {
                return false;
            }
            i = i + 1;
        }
        assert(self.cube_counts@ =~= other.cube_counts@);
        true
    }
}

impl vstd::std_specs::cmp::PartialEqSpecImpl for Game {
    open spec fn obeys_eq_spec() -> bool {
        true
    }

    open spec fn eq_spec(&self, other: &Game) -> bool {
        self.id == other.id && self.cube_counts@ == other.cube_counts@
    }
}

/// Text that does not write a game.
#[derive(Debug, PartialEq, Eq, Structural)]
pub struct ParseGameError;

/// The characters of `Game `.
pub open spec fn game_prefix() -> Seq<char> {
    seq!['G', 'a', 'm', 'e', ' ']
}

/// The number written before the `:` of a game: its text without a leading `Game `.
pub open spec fn id_text(head: Seq<char>) -> Seq<char> {
    if head.len() >= 5 && head.take(5) == game_prefix() {
        head.skip(5)
    } else {
        head
    }
}

/// The draw that `d` writes, as a value.
pub open spec fn draw_value(d: (nat, nat, nat)) -> CubeCount {
    CubeCount { red: d.0 as u32, green: d.1 as u32, blue: d.2 as u32 }
}

/// The number of the game written by `s`: `Game <id>: ` and draws separated
/// by `; `.
pub open spec fn game_of(s: Seq<char>) -> Option<nat> {
    match find(s, ':') {
        None => None,
        Some(k) => {
            let id = id_text(s.take(k as int));
            if k + 1 < s.len() && s[k as int + 1] == ' ' && is_decimal(id) && decimal(id) <= u32::MAX {
                match pieces(s.skip(k as int + 2), ';') {
                    Some(ds) => if forall|i: int| 0 <= i < ds.len() ==> (#[trigger] draw_of(ds[i])) is Some {
                        Some(decimal(id))
                    } else {
                        None
                    },
                    None => None,
                }
            } else {
                None
            }
        },
    }
}

/// The draws of the game written by `s`.
pub open spec fn game_draws(s: Seq<char>) -> Seq<CubeCount> {
    let k = find(s, ':')->0;
    let ds = pieces(s.skip(k as int + 2), ';')->0;
    ds.map_values(|d: Seq<char>| draw_value(draw_of(d)->0))
}

impl Game {
    /// Reads a game from its line.
    pub fn parse(s: &[char]) -> (r: Result<Game, ParseGameError>)
        ensures
            r is Ok <==> game_of(s@) is Some,
            r is Ok ==> r->Ok_0.id == game_of(s@)->0 && r->Ok_0.cube_counts@ == game_draws(s@),
    {
        let n = s.len();
        let k = match find_char(s, ':') {
            Some(k) => k,
            None => {
                return Err(ParseGameError);
            },
        };
        if k + 1 >= n || s[k + 1] != ' ' {
            return Err(ParseGameError);
        }
        let head = slice_range(s, 0, k);
        assert(head@ =~= s@.take(k as int));
        let prefix = chars_of("Game ");
        proof {
            reveal_strlit("Game ");
            assert(prefix@ =~= game_prefix());
        }
        let id_chars = if k >= 5 && same(slice_range(head.as_slice(), 0, 5).as_slice(), prefix.as_slice()) {
            proof {
                assert(head@.subrange(0, 5) =~= head@.take(5));
            }
            slice_range(head.as_slice(), 5, k)
        } else {
            proof {
                if head@.len() >= 5 {
                    assert(head@.subrange(0, 5) =~= head@.take(5));
                }
            }
            slice_range(head.as_slice(), 0, k)
        };
        assert(id_chars@ =~= id_text(head@));
        let id = match parse_decimal(id_chars.as_slice(), u32::MAX as u64) {
            Some(v) => v as u32,
            None => {
                return Err(ParseGameError);
            },
        };
        let rest = slice_range(s, k + 2, n);
        assert(rest@ =~= s@.skip(k + 2));
        let ds = match pieces_of(rest.as_slice(), ';') {
            Some(ds) => ds,
            None => {
                return Err(ParseGameError);
            },
        };
        let ghost v = views(ds@);
        let mut cube_counts: Vec<CubeCount> = Vec::new();
        let mut i: usize = 0;
        assert(game_of(s@) is Some <==> forall|a: int| 0 <= a < v.len() ==> (#[trigger] draw_of(v[a])) is Some);
        assert(game_of(s@) is Some ==> game_of(s@)->0 == id);
        while i < ds.len()
            invariant
                game_of(s@) is Some <==> forall|a: int| 0 <= a < v.len() ==> (#[trigger] draw_of(v[a])) is Some,
                game_of(s@) is Some ==> game_of(s@)->0 == id,
                v == views(ds@),
                pieces(s@.skip(k + 2), ';') == Some(v),
                i <= v.len(),
                forall|a: int| 0 <= a < i ==> (#[trigger] draw_of(v[a])) is Some,
                cube_counts@ == v.take(i as int).map_values(|d: Seq<char>| draw_value(draw_of(d)->0)),
            decreases v.len() - i,
        {
            assert(v[i as int] == ds@[i as int]@);
            match CubeCount::parse(ds[i].as_slice()) {
                Ok(c) => {
                    cube_counts.push(c);
                    proof {
                        assert(cube_counts@ =~= v.take(i + 1).map_values(
                            |d: Seq<char>| draw_value(draw_of(d)->0),
                        ));
                    }
                },
                Err(_) => {
                    return Err(ParseGameError);
                },
            }
            i = i + 1;
        }
        proof {
            assert(v.take(i as int) =~= v);
        }
        Ok(Game { id, cube_counts })
    }

    /// Every draw of the game fits in a bag of 12 red, 13 green and 14 blue cubes.
    pub open spec fn possible(draws: Seq<CubeCount>) -> bool {
        forall|i: int|
            0 <= i < draws.len() ==> (#[trigger] draws[i]).red <= 12 && draws[i].green <= 13
                && draws[i].blue <= 14
    }

    /// Whether every draw fits in a bag of 12 red, 13 green and 14 blue cubes.
    pub fn is_possible(&self) -> (r: bool)
        ensures
            r == Game::possible(self.cube_counts@),
    {
        let mut i: usize = 0;
        while i < self.cube_counts.len()
            invariant
                i <= self.cube_counts@.len(),
                Game::possible(self.cube_counts@.take(i as int)),
            decreases self.cube_counts@.len() - i,
        {
            let c = self.cube_counts[i];
            if c.red > 12 || c.green > 13 || c.blue > 14 {
                assert(self.cube_counts@[i as int] == c);
                return false;
            }
            i = i + 1;
            proof {
                assert forall|a: int| 0 <= a < i implies (#[trigger] self.cube_counts@.take(i as int)[a]).red <= 12
                    && self.cube_counts@.take(i as int)[a].green <= 13 && self.cube_counts@.take(i as int)[a].blue <= 14 by {
                    if a < i - 1 {
                        assert(self.cube_counts@.take(i as int)[a] == self.cube_counts@.take(i - 1)[a]);
                    }
                }
            }
        }
        assert(self.cube_counts@.take(i as int) =~= self.cube_counts@);
        true
    }
}

impl core::str::FromStr for Game {
    type Err = ParseGameError;

    fn from_str(s: &str) -> Result<Game, ParseGameError> {
        let chars = chars_of(s);
        Game::parse(chars.as_slice())
    }
}

/// The sum of the numbers of the possible games among the first `k` lines of
/// `ls`, blank lines skipped.
pub open spec fn possible_id_sum(ls: Seq<Seq<char>>, k: int) -> nat
    decreases k,
{
    if k <= 0 {
        0
    } else {
        let l = trim(ls[k - 1]);
        possible_id_sum(ls, k - 1) + if l.len() > 0 && Game::possible(game_draws(l)) {
            game_of(l)->0
        } else {
            0
        }
    }
}

proof fn lemma_id_sum_monotone(ls: Seq<Seq<char>>, j: int, k: int)
    requires
        0 <= j <= k,
    ensures
        possible_id_sum(ls, j) <= possible_id_sum(ls, k),
    decreases k - j,
{
    if j < k {
        lemma_id_sum_monotone(ls, j, k - 1);
    }
}

/// The sum of the numbers of the games of `input` that a bag of 12 red,
/// 13 green and 14 blue cubes allows, as text.
pub fn part1(input: &str) -> (r: String)
    requires
        forall|i: int|
            0 <= i < lines(input@).len() && trim(#[trigger] lines(input@)[i]).len() > 0 ==> game_of(
                trim(lines(input@)[i]),
            ) is Some,
        possible_id_sum(lines(input@), lines(input@).len() as int) <= u32::MAX,
    ensures
        r@ == nat_text(possible_id_sum(lines(input@), lines(input@).len() as int)),
{
    let chars = chars_of(input);
    let ls = lines_of(chars.as_slice());
    let ghost v = views(ls@);
    let mut total: u32 = 0;
    let mut i: usize = 0;
    while i < ls.len()
        invariant
            v == views(ls@),
            v == lines(input@),
            forall|a: int| 0 <= a < v.len() && trim(#[trigger] v[a]).len() > 0 ==> game_of(trim(v[a])) is Some,
            possible_id_sum(v, v.len() as int) <= u32::MAX,
            i <= v.len(),
            total == possible_id_sum(v, i as int),
        decreases v.len() - i,
    {
        assert(v[i as int] == ls@[i as int]@);
        let line = trim_of(ls[i].as_slice());
        if line.len() > 0 {
            let game = match Game::parse(line.as_slice()) {
                Ok(g) => g,
                Err(_) => {
                    return String::new();
                },
            };
            if game.is_possible() {
                proof {
                    lemma_id_sum_monotone(v, i + 1, v.len() as int);
                }
                total = total + game.id;
            }
        }
        i = i + 1;
    }
    u64_text(total as u64)
}

} // verus!
