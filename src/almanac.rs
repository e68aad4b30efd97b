//! Chains of interval maps: each map sends the ids of a few source intervals to
//! shifted destination intervals and leaves every other id as it is.
use crate::text::{
    chars_of, find, find_char, fits_i64, integer, lines, lines_of, parse_i64, parse_i64_words,
    slice_range, trim, trim_of, views, words, words_of, i64_text, int_text,
};
use core::ops::Range;
use vstd::prelude::*;

verus! {

/// One line of a map: the ids in `source_range` move by `destination_offset`.
pub struct RangeMapEntry {
    pub source_range: Range<i64>,
    pub destination_offset: i64,
}

/// A line that does not write a map entry.
#[derive(Debug, PartialEq, Eq, Structural)]
pub struct ParseRangeMapEntryErr;

/// `x` fits in an `i64`.
pub open spec fn in_i64(x: int) -> bool {
    i64::MIN <= x <= i64::MAX
}

/// The interval from `a` up to `b`.
pub open spec fn span(a: int, b: int) -> Range<i64> {
    Range { start: a as i64, end: b as i64 }
}

impl RangeMapEntry {
    /// Both ends of the source interval stay within `i64` once shifted.
    pub open spec fn wf(&self) -> bool {
        &&& in_i64(self.source_range.start + self.destination_offset)
        &&& in_i64(self.source_range.end + self.destination_offset)
    }

    /// `id` lies in the source interval.
    pub open spec fn covers(&self, id: int) -> bool {
        self.source_range.start <= id < self.source_range.end
    }

    /// The entry that sends the `length` ids from `source_start` on to the ids
    /// from `destination_start` on.
    pub fn new(destination_start: i64, source_start: i64, length: i64) -> (r: Self)
        requires
            in_i64(source_start + length),
            in_i64(destination_start - source_start),
            in_i64(destination_start + length),
        ensures
            r.source_range.start == source_start,
            r.source_range.end == source_start + length,
            r.destination_offset == destination_start - source_start,
            r.wf(),
    {
        Self {
            source_range: Range { start: source_start, end: source_start + length },
            destination_offset: destination_start - source_start,
        }
    }

    /// The destination id of `id_source`, if this entry covers it.
    pub fn lookup(&self, id_source: i64) -> (r: Option<i64>)
        requires
            self.wf(),
        ensures
            r == (if self.covers(id_source as int) {
                Some((id_source + self.destination_offset) as i64)
            } else {
                None
            }),
    {
        if self.source_range.start <= id_source && id_source < self.source_range.end {
            Some(id_source + self.destination_offset)
        } else {
            None
        }
    }

    /// `source` and the source interval have no id in common, by their ends.
    pub open spec fn misses(&self, source: Range<i64>) -> bool {
        source.end <= self.source_range.start || source.start >= self.source_range.end
    }

    /// The image of the part of `source` that this entry covers, if they meet.
    pub open spec fn mapped_part(&self, source: Range<i64>) -> Option<Range<i64>> {
        if self.misses(source) {
            None
        } else {
            let lo = if source.start < self.source_range.start {
                self.source_range.start
            } else {
                source.start
            };
            let hi = if source.end > self.source_range.end {
                self.source_range.end
            } else {
                source.end
            };
            Some(span(lo + self.destination_offset, hi + self.destination_offset))
        }
    }

    /// The parts of `source` that this entry leaves alone, left to right.
    pub open spec fn unmapped_parts(&self, source: Range<i64>) -> Seq<Range<i64>> {
        if self.misses(source) {
            seq![source]
        } else {
            (if source.start < self.source_range.start {
                seq![span(source.start as int, self.source_range.start as int)]
            } else {
                Seq::empty()
            }) + (if source.end > self.source_range.end {
                seq![span(self.source_range.end as int, source.end as int)]
            } else {
                Seq::empty()
            })
        }
    }

    /// Splits `source` into the image of its covered part, if any, and its
    /// uncovered parts.
    pub fn lookup_range(&self, source: &Range<i64>) -> (r: (Option<Range<i64>>, Vec<Range<i64>>))
        requires
            self.wf(),
        ensures
            r.0 == self.mapped_part(*source),
            r.1@ == self.unmapped_parts(*source),
    {
        let s_start = source.start;
        let s_end = source.end;
        let r_start = self.source_range.start;
        let r_end = self.source_range.end;
        let off = self.destination_offset;
        if s_end <= r_start || s_start >= r_end {
            let mut rest: Vec<Range<i64>> = Vec::new();
            rest.push(Range { start: s_start, end: s_end });
            assert(rest@ =~= self.unmapped_parts(*source));
            return (None, rest);
        }
        let lo = if s_start < r_start { r_start } else { s_start };
        let hi = if s_end > r_end { r_end } else { s_end };
        let mut rest: Vec<Range<i64>> = Vec::new();
        if s_start < r_start {
            rest.push(Range { start: s_start, end: r_start });
        }
        if s_end > r_end {
            rest.push(Range { start: r_end, end: s_end });
        }
        assert(rest@ =~= self.unmapped_parts(*source));
        (Some(Range { start: lo + off, end: hi + off }), rest)
    }

    /// Reads an entry from a line: destination start, source start and length.
    pub fn parse(line: &[char]) -> (r: Result<RangeMapEntry, ParseRangeMapEntryErr>)
        ensures
            r is Ok <==> entry_of(line@) is Some,
            r is Ok ==> entry_of(line@) == Some(r->Ok_0),
    {
        let ws = words_of(line);
        if ws.len() < 3 {
            return Err(ParseRangeMapEntryErr);
        }
        proof {
            assert(views(ws@)[0] == ws@[0]@);
            assert(views(ws@)[1] == ws@[1]@);
            assert(views(ws@)[2] == ws@[2]@);
        }
        let d = match parse_i64(ws[0].as_slice()) {
            Some(v) => v,
            None => {
                return Err(ParseRangeMapEntryErr);
            },
        };
        let s = match parse_i64(ws[1].as_slice()) {
            Some(v) => v,
            None => {
                return Err(ParseRangeMapEntryErr);
            },
        };
        let l = match parse_i64(ws[2].as_slice()) {
            Some(v) => v,
            None => {
                return Err(ParseRangeMapEntryErr);
            },
        };
        let fits = (l >= 0 || s >= i64::MIN - l) && (l <= 0 || s <= i64::MAX - l) && (s >= 0 || d
            <= i64::MAX + s) && (s <= 0 || d >= i64::MIN + s) && (l >= 0 || d >= i64::MIN - l) && (l
            <= 0 || d <= i64::MAX - l);
        if !fits {
            return Err(ParseRangeMapEntryErr);
        }
        Ok(RangeMapEntry::new(d, s, l))
    }
}

/// The entry written by `line`: its first three words are integers `d s l`
/// such that the sums it needs fit in an `i64`.
pub open spec fn entry_of(line: Seq<char>) -> Option<RangeMapEntry> {
    let ws = words(line);
    if ws.len() >= 3 && fits_i64(ws[0]) && fits_i64(ws[1]) && fits_i64(ws[2]) {
        let d = integer(ws[0])->0;
        let s = integer(ws[1])->0;
        let l = integer(ws[2])->0;
        if in_i64(s + l) && in_i64(d - s) && in_i64(d + l) {
            Some(
                RangeMapEntry {
                    source_range: Range { start: s as i64, end: (s + l) as i64 },
                    destination_offset: (d - s) as i64,
                },
            )
        } else {
            None
        }
    } else {
        None
    }
}

/// The image of `id` under a map with entries `es`: the first entry that
/// covers it shifts it; an id that no entry covers stays.
pub open spec fn map_id(es: Seq<RangeMapEntry>, id: int) -> int
    decreases es.len(),
{
    if es.len() == 0 {
        id
    } else if es[0].covers(id) {
        id + es[0].destination_offset
    } else {
        map_id(es.drop_first(), id)
    }
}

/// `m`, as a sequence of ranges of length 0 or 1.
pub open spec fn opt_seq(m: Option<Range<i64>>) -> Seq<Range<i64>> {
    match m {
        Some(r) => seq![r],
        None => Seq::empty(),
    }
}

/// One entry applied to each interval of `todo`, in order: the images it
/// produces, and what it leaves for the entries after it.
pub open spec fn pass_entry(e: RangeMapEntry, todo: Seq<Range<i64>>) -> (Seq<Range<i64>>, Seq<Range<i64>>)
    decreases todo.len(),
{
    if todo.len() == 0 {
        (Seq::empty(), Seq::empty())
    } else {
        let prev = pass_entry(e, todo.drop_last());
        (prev.0 + opt_seq(e.mapped_part(todo.last())), prev.1 + e.unmapped_parts(todo.last()))
    }
}

/// The entries `es` applied in turn: the images produced so far (`done`),
/// then the intervals that no entry covered.
pub open spec fn pass_map(es: Seq<RangeMapEntry>, done: Seq<Range<i64>>, todo: Seq<Range<i64>>) -> Seq<Range<i64>>
    decreases es.len(),
{
    if es.len() == 0 {
        done + todo
    } else {
        let p = pass_entry(es[0], todo);
        pass_map(es.drop_first(), done + p.0, p.1)
    }
}

/// Every entry of `es` is well formed.
pub open spec fn entries_wf(es: Seq<RangeMapEntry>) -> bool {
    forall|i: int| 0 <= i < es.len() ==> (#[trigger] es[i]).wf()
}

/// One map of the chain.
pub struct RangeMap {
    pub entries: Vec<RangeMapEntry>,
}

/// Text that does not write a map.
#[derive(Debug, PartialEq, Eq, Structural)]
pub struct ParseRangeMapErr;

impl RangeMap {
    /// Every entry is well formed.
    pub open spec fn wf(&self) -> bool {
        entries_wf(self.entries@)
    }

    /// The image of `id_source`.
    pub fn lookup(&self, id_source: i64) -> (r: i64)
        requires
            self.wf(),
        ensures
            r == map_id(self.entries@, id_source as int),
    {
        let ghost es = self.entries@;
        let mut i: usize = 0;
        assert(es.skip(0) =~= es);
        while i < self.entries.len()
            invariant
                es == self.entries@,
                entries_wf(es),
                i <= es.len(),
                map_id(es.skip(i as int), id_source as int) == map_id(es, id_source as int),
            decreases es.len() - i,
        {
            proof {
                assert(es.skip(i as int)[0] == es[i as int]);
                assert(es.skip(i as int).drop_first() =~= es.skip(i + 1));
                assert(es[i as int].wf());
            }
            if let Some(id_destination) = self.entries[i].lookup(id_source) {
                return id_destination;
            }
            i = i + 1;
        }
        id_source
    }

    /// The images of the ids of `source`, as intervals: first those that the
    /// entries produce, entry by entry, then the parts that no entry covers.
    pub fn lookup_range(&self, source: &Range<i64>) -> (r: Vec<Range<i64>>)
        requires
            self.wf(),
        ensures
            r@ == pass_map(self.entries@, Seq::empty(), seq![*source]),
    {
        let ghost es = self.entries@;
        let mut todo: Vec<Range<i64>> = Vec::new();
        todo.push(Range { start: source.start, end: source.end });
        let mut done: Vec<Range<i64>> = Vec::new();
        let mut k: usize = 0;
        proof {
            assert(es.skip(0) =~= es);
            assert(todo@ =~= seq![*source]);
        }
        while k < self.entries.len()
            invariant
                es == self.entries@,
                entries_wf(es),
                k <= es.len(),
                pass_map(es.skip(k as int), done@, todo@) == pass_map(es, Seq::empty(), seq![*source]),
            decreases es.len() - k,
        {
            let entry = &self.entries[k];
            assert(entry.wf());
            let ghost done0 = done@;
            let mut next: Vec<Range<i64>> = Vec::new();
            let mut i: usize = 0;
            while i < todo.len()
                invariant
                    entry.wf(),
                    i <= todo@.len(),
                    done@ == done0 + pass_entry(*entry, todo@.take(i as int)).0,
                    next@ == pass_entry(*entry, todo@.take(i as int)).1,
                decreases todo@.len() - i,
            {
                proof {
                    assert(todo@.take(i + 1).drop_last() =~= todo@.take(i as int));
                }
                let (mapped, rest) = entry.lookup_range(&todo[i]);
                if let Some(m) = mapped {
                    done.push(m);
                }
                let mut j: usize = 0;
                let ghost next0 = next@;
                while j < rest.len()
                    invariant
                        j <= rest@.len(),
                        next@ == next0 + rest@.take(j as int),
                    decreases rest@.len() - j,
                {
                    next.push(Range { start: rest[j].start, end: rest[j].end });
                    j = j + 1;
                    proof {
                        assert(next@ =~= next0 + rest@.take(j as int));
                    }
                }
                proof {
                    assert(rest@.take(j as int) =~= rest@);
                    assert(done@ =~= done0 + pass_entry(*entry, todo@.take(i + 1)).0);
                    assert(next@ =~= pass_entry(*entry, todo@.take(i + 1)).1);
                }
                i = i + 1;
            }
            proof {
                assert(todo@.take(i as int) =~= todo@);
                assert(es.skip(k as int)[0] == es[k as int]);
                assert(es.skip(k as int).drop_first() =~= es.skip(k + 1));
            }
            todo = next;
            k = k + 1;
        }
        proof {
            assert(es.skip(k as int).len() == 0);
        }
        let mut j: usize = 0;
        let ghost done0 = done@;
        while j < todo.len()
            invariant
                j <= todo@.len(),
                done@ == done0 + todo@.take(j as int),
            decreases todo@.len() - j,
        {
            done.push(Range { start: todo[j].start, end: todo[j].end });
            j = j + 1;
            proof {
                assert(done@ =~= done0 + todo@.take(j as int));
            }
        }
        proof {
            assert(todo@.take(j as int) =~= todo@);
        }
        done
    }

    /// Reads a map from its entry lines, one entry per line.
    pub fn parse(text: &[char]) -> (r: Result<RangeMap, ParseRangeMapErr>)
        ensures
            r is Ok <==> (forall|i: int| 0 <= i < lines(text@).len() ==> (#[trigger] entry_of(lines(text@)[i])) is Some),
            r is Ok ==> r->Ok_0.entries@ == lines(text@).map_values(|l: Seq<char>| entry_of(l)->0),
            r is Ok ==> r->Ok_0.wf(),
    {
        let ls = lines_of(text);
        let ghost v = views(ls@);
        let mut entries: Vec<RangeMapEntry> = Vec::new();
        let mut i: usize = 0;
        while i < ls.len()
            invariant
                v == views(ls@),
                v == lines(text@),
                i <= v.len(),
                forall|a: int| 0 <= a < i ==> (#[trigger] entry_of(v[a])) is Some,
                entries@ == v.take(i as int).map_values(|l: Seq<char>| entry_of(l)->0),
                entries_wf(entries@),
            decreases v.len() - i,
        {
            assert(v[i as int] == ls@[i as int]@);
            match RangeMapEntry::parse(ls[i].as_slice()) {
                Ok(e) => {
                    entries.push(e);
                    proof {
                        assert(entries@ =~= v.take(i + 1).map_values(|l: Seq<char>| entry_of(l)->0));
                    }
                },
                Err(_) => {
                    return Err(ParseRangeMapErr);
                },
            }
            i = i + 1;
        }
        proof {
            assert(v.take(i as int) =~= v);
        }
        Ok(RangeMap { entries })
    }
}

/// The entries of each map of `ms`.
pub open spec fn map_views(ms: Seq<RangeMap>) -> Seq<Seq<RangeMapEntry>> {
    ms.map_values(|m: RangeMap| m.entries@)
}

/// The image of `id` under the maps `ms`, applied in order.
pub open spec fn chain_id(ms: Seq<Seq<RangeMapEntry>>, id: int) -> int
    decreases ms.len(),
{
    if ms.len() == 0 {
        id
    } else {
        chain_id(ms.drop_first(), map_id(ms[0], id))
    }
}

/// The map with entries `es` applied to each interval of `rs`, the results
/// of one interval after those of the one before.
pub open spec fn through(es: Seq<RangeMapEntry>, rs: Seq<Range<i64>>) -> Seq<Range<i64>>
    decreases rs.len(),
{
    if rs.len() == 0 {
        Seq::empty()
    } else {
        through(es, rs.drop_last()) + pass_map(es, Seq::empty(), seq![rs.last()])
    }
}

/// The maps `ms` applied in turn to the intervals `rs`.
pub open spec fn chain_ranges(ms: Seq<Seq<RangeMapEntry>>, rs: Seq<Range<i64>>) -> Seq<Range<i64>>
    decreases ms.len(),
{
    if ms.len() == 0 {
        rs
    } else {
        chain_ranges(ms.drop_first(), through(ms[0], rs))
    }
}

/// The maps read from the lines `ls`: a line with a `:` opens a new map, a
/// blank line is skipped, and any other line is an entry of the open map.
pub open spec fn parse_maps(ls: Seq<Seq<char>>) -> Option<Seq<Seq<RangeMapEntry>>>
    decreases ls.len(),
{
    if ls.len() == 0 {
        Some(Seq::empty())
    } else {
        match parse_maps(ls.drop_last()) {
            None => None,
            Some(ms) => {
                let l = ls.last();
                if words(l).len() == 0 {
                    Some(ms)
                } else if find(l, ':') is Some {
                    Some(ms.push(Seq::empty()))
                } else if ms.len() == 0 {
                    None
                } else {
                    match entry_of(l) {
                        None => None,
                        Some(e) => Some(ms.update(ms.len() - 1, ms.last().push(e))),
                    }
                }
            },
        }
    }
}

/// The seeds and maps written by `text`: a first line whose words after its
/// first `:` are the seeds, then the maps.
pub open spec fn almanac_of(text: Seq<char>) -> Option<(Seq<i64>, Seq<Seq<RangeMapEntry>>)> {
    let ls = lines(trim(text));
    if ls.len() == 0 {
        None
    } else {
        match find(ls[0], ':') {
            None => None,
            Some(k) => {
                let ws = words(ls[0].skip(k as int + 1));
                if forall|i: int| 0 <= i < ws.len() ==> fits_i64(#[trigger] ws[i]) {
                    match parse_maps(ls.drop_first()) {
                        Some(ms) => Some((ws.map_values(|w: Seq<char>| integer(w)->0 as i64), ms)),
                        None => None,
                    }
                } else {
                    None
                }
            },
        }
    }
}

/// Seeds and the chain of maps that leads from a seed to a location.
pub struct Almanac {
    /// The ids of the seeds that we need.
    pub seeds: Vec<i64>,
    /// The maps, in the order in which they apply.
    pub maps: Vec<RangeMap>,
}

/// Text that does not write an almanac.
#[derive(Debug, PartialEq, Eq, Structural)]
pub struct ParseAlmanacErr;

/// Every map of `ms` is well formed.
pub open spec fn maps_wf(ms: Seq<Seq<RangeMapEntry>>) -> bool {
    forall|i: int| 0 <= i < ms.len() ==> entries_wf(#[trigger] ms[i])
}

proof fn lemma_parse_maps_wf(ls: Seq<Seq<char>>)
    requires
        parse_maps(ls) is Some,
    ensures
        maps_wf(parse_maps(ls)->0),
    decreases ls.len(),
{
    if ls.len() > 0 {
        lemma_parse_maps_wf(ls.drop_last());
        let ms = parse_maps(ls.drop_last())->0;
        let l = ls.last();
        if words(l).len() != 0 && find(l, ':') is None {
            let e = entry_of(l)->0;
            let last = ms.last().push(e);
            assert(entries_wf(ms.last()));
            assert(entries_wf(last)) by {
                assert forall|i: int| 0 <= i < last.len() implies (#[trigger] last[i]).wf() by {
                    if i < last.len() - 1 {
                        assert(last[i] == ms.last()[i]);
                    }
                }
            }
        }
    }
}

proof fn lemma_parse_maps_prefix(ls: Seq<Seq<char>>, k: int)
    requires
        0 <= k <= ls.len(),
        parse_maps(ls.take(k)) is None,
    ensures
        parse_maps(ls) is None,
    decreases ls.len() - k,
{
    if k == ls.len() {
        assert(ls.take(k) =~= ls);
    } else {
        assert(ls.take(k + 1).drop_last() =~= ls.take(k));
        lemma_parse_maps_prefix(ls, k + 1);
    }
}

proof fn lemma_pass_entry_len(e: RangeMapEntry, todo: Seq<Range<i64>>)
    ensures
        pass_entry(e, todo).0.len() + pass_entry(e, todo).1.len() >= todo.len(),
    decreases todo.len(),
{
    if todo.len() > 0 {
        lemma_pass_entry_len(e, todo.drop_last());
    }
}

proof fn lemma_pass_map_len(es: Seq<RangeMapEntry>, done: Seq<Range<i64>>, todo: Seq<Range<i64>>)
    ensures
        pass_map(es, done, todo).len() >= done.len() + todo.len(),
    decreases es.len(),
{
    if es.len() > 0 {
        lemma_pass_entry_len(es[0], todo);
        let p = pass_entry(es[0], todo);
        lemma_pass_map_len(es.drop_first(), done + p.0, p.1);
    }
}

proof fn lemma_through_len(es: Seq<RangeMapEntry>, rs: Seq<Range<i64>>)
    ensures
        through(es, rs).len() >= rs.len(),
    decreases rs.len(),
{
    if rs.len() > 0 {
        lemma_through_len(es, rs.drop_last());
        lemma_pass_map_len(es, Seq::empty(), seq![rs.last()]);
    }
}

proof fn lemma_chain_ranges_len(ms: Seq<Seq<RangeMapEntry>>, rs: Seq<Range<i64>>)
    ensures
        chain_ranges(ms, rs).len() >= rs.len(),
    decreases ms.len(),
{
    if ms.len() > 0 {
        lemma_through_len(ms[0], rs);
        lemma_chain_ranges_len(ms.drop_first(), through(ms[0], rs));
    }
}

impl Almanac {
    /// Every map is well formed.
    pub open spec fn wf(&self) -> bool {
        &&& forall|i: int| 0 <= i < self.maps@.len() ==> (#[trigger] self.maps@[i]).wf()
        &&& maps_wf(map_views(self.maps@))
    }

    /// The location of `seed`: its image under every map in turn.
    pub fn lookup(&self, seed: i64) -> (r: i64)
        requires
            self.wf(),
        ensures
            r == chain_id(map_views(self.maps@), seed as int),
    {
        let ghost ms = map_views(self.maps@);
        let mut id = seed;
        let mut i: usize = 0;
        assert(ms.skip(0) =~= ms);
        while i < self.maps.len()
            invariant
                ms == map_views(self.maps@),
                self.wf(),
                i <= ms.len(),
                chain_id(ms.skip(i as int), id as int) == chain_id(ms, seed as int),
            decreases ms.len() - i,
        {
            proof {
                assert(ms.skip(i as int)[0] == ms[i as int]);
                assert(ms.skip(i as int).drop_first() =~= ms.skip(i + 1));
                assert(self.maps@[i as int].wf());
            }
            id = self.maps[i].lookup(id);
            i = i + 1;
        }
        id
    }

    /// The locations of the seeds of `seeds`, as intervals.
    pub fn lookup_range(&self, seeds: Range<i64>) -> (r: Vec<Range<i64>>)
        requires
            self.wf(),
        ensures
            r@ == chain_ranges(map_views(self.maps@), seq![seeds]),
    {
        let ghost ms = map_views(self.maps@);
        let mut ranges: Vec<Range<i64>> = Vec::new();
        ranges.push(seeds);
        let mut i: usize = 0;
        assert(ms.skip(0) =~= ms);
        assert(ranges@ =~= seq![seeds]);
        while i < self.maps.len()
            invariant
                ms == map_views(self.maps@),
                self.wf(),
                i <= ms.len(),
                chain_ranges(ms.skip(i as int), ranges@) == chain_ranges(ms, seq![seeds]),
            decreases ms.len() - i,
        {
            let map = &self.maps[i];
            assert(map.wf());
            assert(ms[i as int] == map.entries@);
            let mut next: Vec<Range<i64>> = Vec::new();
            let mut j: usize = 0;
            while j < ranges.len()
                invariant
                    map.wf(),
                    j <= ranges@.len(),
                    next@ == through(map.entries@, ranges@.take(j as int)),
                decreases ranges@.len() - j,
            {
                proof {
                    assert(ranges@.take(j + 1).drop_last() =~= ranges@.take(j as int));
                }
                let out = map.lookup_range(&ranges[j]);
                let ghost next0 = next@;
                let mut t: usize = 0;
                while t < out.len()
                    invariant
                        t <= out@.len(),
                        next@ == next0 + out@.take(t as int),
                    decreases out@.len() - t,
                {
                    next.push(Range { start: out[t].start, end: out[t].end });
                    t = t + 1;
                    proof {
                        assert(next@ =~= next0 + out@.take(t as int));
                    }
                }
                proof {
                    assert(out@.take(t as int) =~= out@);
                }
                j = j + 1;
            }
            proof {
                assert(ranges@.take(j as int) =~= ranges@);
                assert(ms.skip(i as int)[0] == ms[i as int]);
                assert(ms.skip(i as int).drop_first() =~= ms.skip(i + 1));
            }
            ranges = next;
            i = i + 1;
        }
        proof {
            assert(ms.skip(i as int).len() == 0);
        }
        ranges
    }

    /// Reads an almanac.
    pub fn parse(text: &[char]) -> (r: Result<Almanac, ParseAlmanacErr>)
        ensures
            r is Ok <==> almanac_of(text@) is Some,
            r is Ok ==> r->Ok_0.seeds@ == (almanac_of(text@)->0).0 && map_views(r->Ok_0.maps@)
                == (almanac_of(text@)->0).1 && r->Ok_0.wf(),
    {
        let trimmed = trim_of(text);
        let ls = lines_of(trimmed.as_slice());
        let ghost v = views(ls@);
        if ls.len() == 0 {
            return Err(ParseAlmanacErr);
        }
        assert(v[0] == ls@[0]@);
        let first = &ls[0];
        let n0 = first.len();
        let k = match find_char(first.as_slice(), ':') {
            Some(k) => k,
            None => {
                return Err(ParseAlmanacErr);
            },
        };
        let after = slice_range(first.as_slice(), k + 1, n0);
        assert(after@ =~= v[0].skip(k + 1));
        let seeds = match parse_i64_words(after.as_slice()) {
            Some(s) => s,
            None => {
                return Err(ParseAlmanacErr);
            },
        };
        let mut maps: Vec<RangeMap> = Vec::new();
        let mut cur: Vec<RangeMapEntry> = Vec::new();
        let mut open = false;
        let mut i: usize = 1;
        let ghost rest = v.drop_first();
        assert(rest.take(0) =~= Seq::<Seq<char>>::empty());
        assert(almanac_of(text@) is Some <==> parse_maps(rest) is Some);
        assert(parse_maps(rest) is Some ==> almanac_of(text@) == Some((seeds@, parse_maps(rest)->0)));
        while i < ls.len()
            invariant
                almanac_of(text@) is Some <==> parse_maps(rest) is Some,
                parse_maps(rest) is Some ==> almanac_of(text@) == Some((seeds@, parse_maps(rest)->0)),
                v == views(ls@),
                rest == v.drop_first(),
                1 <= i <= v.len(),
                parse_maps(rest.take(i - 1)) == Some(
                    if open {
                        map_views(maps@).push(cur@)
                    } else {
                        map_views(maps@)
                    },
                ),
                forall|a: int| 0 <= a < maps@.len() ==> (#[trigger] maps@[a]).wf(),
                open ==> entries_wf(cur@),
                !open ==> maps@.len() == 0,
            decreases v.len() - i,
        {
            let line = &ls[i];
            assert(v[i as int] == line@);
            assert(rest.take(i as int).drop_last() =~= rest.take(i - 1));
            assert(rest.take(i as int).last() == line@);
            let ws = words_of(line.as_slice());
            if ws.len() == 0 {
            } else if find_char(line.as_slice(), ':').is_some() {
                let ghost before = map_views(maps@);
                if open {
                    let done = cur;
                    maps.push(RangeMap { entries: done });
                    assert(map_views(maps@) =~= before.push(done@));
                }
                cur = Vec::new();
                open = true;
                proof {
                    assert(map_views(maps@).push(cur@) =~= parse_maps(rest.take(i as int))->0);
                }
            } else if !open {
                proof {
                    lemma_parse_maps_prefix(rest, i as int);
                }
                return Err(ParseAlmanacErr);
            } else {
                match RangeMapEntry::parse(line.as_slice()) {
                    Ok(e) => {
                        let ghost c0 = cur@;
                        cur.push(e);
                        proof {
                            assert(map_views(maps@).push(cur@) =~= map_views(maps@).push(c0).update(
                                map_views(maps@).len() as int,
                                c0.push(e),
                            ));
                            assert forall|a: int| 0 <= a < cur@.len() implies (#[trigger] cur@[a]).wf() by {
                                if a < c0.len() {
                                    assert(cur@[a] == c0[a]);
                                }
                            }
                        }
                    },
                    Err(_) => {
                        proof {
                            lemma_parse_maps_prefix(rest, i as int);
                        }
                        return Err(ParseAlmanacErr);
                    },
                }
            }
            i = i + 1;
        }
        if open {
            let ghost before = map_views(maps@);
            maps.push(RangeMap { entries: cur });
            assert(map_views(maps@) =~= before.push(cur@));
        }
        proof {
            assert(rest.take(i - 1) =~= rest);
            lemma_parse_maps_wf(rest);
            assert forall|a: int| 0 <= a < maps@.len() implies (#[trigger] maps@[a]).wf() by {
                assert(map_views(maps@)[a] == maps@[a].entries@);
            }
        }
        Ok(Almanac { seeds, maps })
    }
}

impl core::str::FromStr for RangeMapEntry {
    type Err = ParseRangeMapEntryErr;

    fn from_str(s: &str) -> Result<RangeMapEntry, ParseRangeMapEntryErr> {
        let chars = chars_of(s);
        RangeMapEntry::parse(chars.as_slice())
    }
}

impl core::str::FromStr for RangeMap {
    type Err = ParseRangeMapErr;

    fn from_str(s: &str) -> Result<RangeMap, ParseRangeMapErr> {
        let chars = chars_of(s);
        RangeMap::parse(chars.as_slice())
    }
}

impl core::str::FromStr for Almanac {
    type Err = ParseAlmanacErr;

    fn from_str(s: &str) -> Result<Almanac, ParseAlmanacErr> {
        let chars = chars_of(s);
        Almanac::parse(chars.as_slice())
    }
}

/// The least element of the non-empty sequence `s`.
pub open spec fn min_seq(s: Seq<int>) -> int
    recommends
        s.len() > 0,
    decreases s.len(),
{
    if s.len() <= 1 {
        s[0]
    } else {
        let m = min_seq(s.drop_last());
        if s.last() < m {
            s.last()
        } else {
            m
        }
    }
}

/// The locations of the seeds of the almanac written by `input`.
pub open spec fn seed_locations(input: Seq<char>) -> Seq<int> {
    let a = almanac_of(input)->0;
    a.0.map_values(|seed: i64| chain_id(a.1, seed as int))
}

/// The lowest location of a seed of the almanac written by `input`, as text.
pub fn part1(input: &str) -> (r: String)
    requires
        almanac_of(input@) is Some,
        (almanac_of(input@)->0).0.len() > 0,
    ensures
        r@ == int_text(min_seq(seed_locations(input@))),
{
    let chars = chars_of(input);
    let almanac = match Almanac::parse(chars.as_slice()) {
        Ok(a) => a,
        Err(_) => {
            return String::new();
        },
    };
    let ghost locs = seed_locations(input@);
    let mut best = almanac.lookup(almanac.seeds[0]);
    let mut i: usize = 1;
    assert(locs.take(1).drop_last().len() == 0);
    while i < almanac.seeds.len()
        invariant
            almanac.wf(),
            locs == almanac.seeds@.map_values(|seed: i64| chain_id(map_views(almanac.maps@), seed as int)),
            1 <= i <= almanac.seeds@.len(),
            best == min_seq(locs.take(i as int)),
        decreases almanac.seeds@.len() - i,
    {
        let loc = almanac.lookup(almanac.seeds[i]);
        proof {
            assert(locs.take(i + 1).drop_last() =~= locs.take(i as int));
        }
        if loc < best {
            best = loc;
        }
        i = i + 1;
    }
    proof {
        assert(locs.take(i as int) =~= locs);
    }
    i64_text(best)
}

/// The seed intervals written by the seeds of an almanac read in pairs: a
/// start and a length.
pub open spec fn seed_ranges(seeds: Seq<i64>) -> Seq<Range<i64>> {
    Seq::new(seeds.len() / 2, |i: int| span(seeds[2 * i] as int, seeds[2 * i] + seeds[2 * i + 1]))
}

/// The maps `ms` applied to each interval of `rs`, the results of one
/// interval after those of the one before.
pub open spec fn outputs(ms: Seq<Seq<RangeMapEntry>>, rs: Seq<Range<i64>>) -> Seq<Range<i64>>
    decreases rs.len(),
{
    if rs.len() == 0 {
        Seq::empty()
    } else {
        outputs(ms, rs.drop_last()) + chain_ranges(ms, seq![rs.last()])
    }
}

/// The starts of the intervals `rs`.
pub open spec fn starts(rs: Seq<Range<i64>>) -> Seq<int> {
    rs.map_values(|r: Range<i64>| r.start as int)
}

/// Every seed interval's end fits in an `i64`.
pub open spec fn seed_pairs_fit(seeds: Seq<i64>) -> bool {
    forall|i: int| 0 <= i < seeds.len() / 2 ==> in_i64(seeds[2 * i] + #[trigger] seeds[2 * i + 1])
}

proof fn lemma_outputs_len(ms: Seq<Seq<RangeMapEntry>>, rs: Seq<Range<i64>>)
    ensures
        outputs(ms, rs).len() >= rs.len(),
    decreases rs.len(),
{
    if rs.len() > 0 {
        lemma_outputs_len(ms, rs.drop_last());
        lemma_chain_ranges_len(ms, seq![rs.last()]);
    }
}

/// The lowest location of a seed when the seeds are read as intervals, as text.
pub fn part2(input: &str) -> (r: String)
    requires
        almanac_of(input@) is Some,
        (almanac_of(input@)->0).0.len() % 2 == 0,
        (almanac_of(input@)->0).0.len() > 0,
        seed_pairs_fit((almanac_of(input@)->0).0),
    ensures
        r@ == int_text(
            min_seq(starts(outputs((almanac_of(input@)->0).1, seed_ranges((almanac_of(input@)->0).0)))),
        ),
{
    let chars = chars_of(input);
    let almanac = match Almanac::parse(chars.as_slice()) {
        Ok(a) => a,
        Err(_) => {
            return String::new();
        },
    };
    let ghost ms = map_views(almanac.maps@);
    let ghost rs = seed_ranges(almanac.seeds@);
    let n = almanac.seeds.len() / 2;
    let mut best: i64 = 0;
    let mut have = false;
    let mut i: usize = 0;
    assert(rs.take(0) =~= Seq::<Range<i64>>::empty());
    while i < n
        invariant
            almanac.wf(),
            ms == map_views(almanac.maps@),
            rs == seed_ranges(almanac.seeds@),
            n == rs.len(),
            n * 2 <= almanac.seeds@.len() <= usize::MAX,
            seed_pairs_fit(almanac.seeds@),
            i <= n,
            have <==> outputs(ms, rs.take(i as int)).len() > 0,
            have ==> best == min_seq(starts(outputs(ms, rs.take(i as int)))),
        decreases n - i,
    {
        let start = almanac.seeds[2 * i];
        let len = almanac.seeds[2 * i + 1];
        assert(in_i64(almanac.seeds@[2 * i as int] + almanac.seeds@[2 * i + 1]));
        let seeds = Range { start, end: start + len };
        assert(seeds == rs[i as int]);
        let out = almanac.lookup_range(seeds);
        let ghost prev = outputs(ms, rs.take(i as int));
        proof {
            assert(rs.take(i + 1).drop_last() =~= rs.take(i as int));
            assert(rs.take(i + 1).last() == seeds);
        }
        let mut j: usize = 0;
        while j < out.len()
            invariant
                j <= out@.len(),
                have <==> (prev + out@.take(j as int)).len() > 0,
                have ==> best == min_seq(starts(prev + out@.take(j as int))),
            decreases out@.len() - j,
        {
            let s = out[j].start;
            proof {
                let before = prev + out@.take(j as int);
                assert(prev + out@.take(j + 1) =~= before.push(out@[j as int]));
                assert(starts(before.push(out@[j as int])) =~= starts(before).push(s as int));
                assert(starts(before.push(out@[j as int])).drop_last() =~= starts(before));
            }
            if !have || s < best {
                best = s;
            }
            have = true;
            j = j + 1;
        }
        proof {
            assert(out@.take(j as int) =~= out@);
        }
        i = i + 1;
    }
    proof {
        assert(rs.take(n as int) =~= rs);
        lemma_outputs_len(ms, rs);
    }
    i64_text(best)
}

} // verus!
