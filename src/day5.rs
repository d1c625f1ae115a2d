use std::cmp::Ordering;
use std::ops::RangeInclusive;

use vstd::prelude::*;
use vstd::std_specs::range::RangeInclusiveView;
use vstd::string::StringSliceAdditionalSpecFns;

use crate::error::PuzzleError;
use crate::text::{
    char_find, char_lines, decimal, parse_u64, split_once_text, text_lines,
    trim_text, u64_of, u64_text, unicode_trimmed,
};
use vstd::utf8::encode_utf8;

verus! {

/// Relies on `RangeInclusive::start`: the lower bound the range was made
/// with.
pub assume_specification<Idx>[ RangeInclusive::<Idx>::start ](r: &RangeInclusive<Idx>) -> (s: &Idx)
    ensures
        *s == r@.start,
;

/// Relies on `RangeInclusive::end`: the upper bound the range was made
/// with.
pub assume_specification<Idx>[ RangeInclusive::<Idx>::end ](r: &RangeInclusive<Idx>) -> (e: &Idx)
    ensures
        *e == r@.end,
;

/// The bounds of a range.
pub open spec fn bounds(r: RangeInclusive<u64>) -> (u64, u64) {
    (r@.start, r@.end)
}

/// A range as `RangeInclusive::new` makes it.
pub open spec fn fresh(r: RangeInclusive<u64>, start: u64, end: u64) -> bool {
    r@ == RangeInclusiveView { start, end, exhausted: false }
}

/// The `u64` that `s` spells once trimmed of white space.
pub open spec fn trimmed_u64(s: Seq<char>) -> Option<u64> {
    u64_of(encode_utf8(unicode_trimmed(s)))
}

/// The range that a line `"a-b"` gives: the text around the first `-`,
/// each part trimmed of white space and read as a `u64`.
pub open spec fn range_of(s: Seq<char>) -> Option<(u64, u64)> {
    let d = char_find(s, 0, seq!['-']);
    if d >= s.len() {
        None
    } else {
        match (trimmed_u64(s.subrange(0, d)), trimmed_u64(s.subrange(d + 1, s.len() as int))) {
            (Some(a), Some(c)) => Some((a, c)),
            _ => None,
        }
    }
}

/// Reads a number, ignoring surrounding white space.
fn parse_trimmed_u64(t: &str) -> (r: Option<u64>)
    ensures
        r == trimmed_u64(t@),
{
    let tt = trim_text(t);
    let b = tt.as_bytes();
    assert(b@.subrange(0, b@.len() as int) =~= b@);
    parse_u64(b, 0, b.len())
}

/// Turns a string like `"5-8"` into a range.
pub fn parse_range(txt: &str) -> (r: Result<RangeInclusive<u64>, PuzzleError>)
    ensures
        match range_of(txt@) {
            Some((a, c)) => r is Ok && fresh(r->Ok_0, a, c),
            None => r == Err::<RangeInclusive<u64>, PuzzleError>(PuzzleError::Malformed),
        },
{
    let dash = "-";
    proof {
        reveal_strlit("-");
        assert(dash@ =~= seq!['-']);
    }
    match split_once_text(txt, dash) {
        None => Err(PuzzleError::Malformed),
        Some((first, second)) => {
            match (parse_trimmed_u64(first), parse_trimmed_u64(second)) {
                (Some(start), Some(end)) => Ok(RangeInclusive::new(start, end)),
                _ => Err(PuzzleError::Malformed),
            }
        },
    }
}

/// Orders ranges by start, then by end.
pub fn cmp_ranges(a: &RangeInclusive<u64>, b: &RangeInclusive<u64>) -> (r: Ordering)
    ensures
        r == (if a@.start < b@.start || (a@.start == b@.start && a@.end < b@.end) {
            Ordering::Less
        } else if a@.start == b@.start && a@.end == b@.end {
            Ordering::Equal
        } else {
            Ordering::Greater
        }),
{
    let (sa, sb) = (*a.start(), *b.start());
    if sa < sb {
        Ordering::Less
    } else if sa > sb {
        Ordering::Greater
    } else {
        let (ea, eb) = (*a.end(), *b.end());
        if ea < eb {
            Ordering::Less
        } else if ea > eb {
            Ordering::Greater
        } else {
            Ordering::Equal
        }
    }
}

/// Whether `b`, which starts no earlier than `a`, touches or overlaps `a`:
/// adjacent integer ranges count.
pub open spec fn spans_overlap(a: (u64, u64), b: (u64, u64)) -> bool {
    a.0 <= b.0 && b.0 <= a.1 + 1
}

/// Whether `b` starts within `a` or right after it (see `spans_overlap`).
pub fn overlaps(a: &RangeInclusive<u64>, b: &RangeInclusive<u64>) -> (r: bool)
    ensures
        r == spans_overlap(bounds(*a), bounds(*b)),
{
    *a.start() <= *b.start() && b.start().saturating_sub(*a.end()) <= 1
}

/// The span from the lower start to the higher end.
pub open spec fn span_merge(a: (u64, u64), b: (u64, u64)) -> (u64, u64) {
    (if a.0 <= b.0 {
        a.0
    } else {
        b.0
    }, if a.1 >= b.1 {
        a.1
    } else {
        b.1
    })
}

/// The range from the lower start to the higher end.
pub fn merge(a: RangeInclusive<u64>, b: RangeInclusive<u64>) -> (r: RangeInclusive<u64>)
    ensures
        fresh(r, span_merge(bounds(a), bounds(b)).0, span_merge(bounds(a), bounds(b)).1),
{
    let start = if *a.start() <= *b.start() {
        *a.start()
    } else {
        *b.start()
    };
    let end = if *a.end() >= *b.end() {
        *a.end()
    } else {
        *b.end()
    };
    RangeInclusive::new(start, end)
}

/// How many integers a non-empty range holds.
pub fn r_len(r: &RangeInclusive<u64>) -> (n: u64)
    requires
        r@.start <= r@.end + 1,
        r@.end < u64::MAX,
    ensures
        n == r@.end + 1 - r@.start,
{
    *r.end() + 1 - *r.start()
}

/// Lexicographic order on spans: by start, then by end.
pub open spec fn lex_le(a: (u64, u64), b: (u64, u64)) -> bool {
    a.0 < b.0 || (a.0 == b.0 && a.1 <= b.1)
}

/// The spans are in ascending lexicographic order.
pub open spec fn sorted_spans(w: Seq<(u64, u64)>) -> bool {
    forall|i: int, j: int| 0 <= i < j < w.len() ==> lex_le(#[trigger] w[i], #[trigger] w[j])
}

/// The bounds of each range.
pub open spec fn spans(v: Seq<RangeInclusive<u64>>) -> Seq<(u64, u64)> {
    v.map_values(|r: RangeInclusive<u64>| bounds(r))
}

/// Sorted spans after a left-to-right sweep that merges each span into the
/// previous one when they overlap or touch.
pub open spec fn compact(w: Seq<(u64, u64)>) -> Seq<(u64, u64)>
    decreases w.len(),
{
    if w.len() == 0 {
        Seq::empty()
    } else {
        let c = compact(w.drop_last());
        let x = w.last();
        if c.len() == 0 {
            seq![x]
        } else if spans_overlap(c.last(), x) {
            c.drop_last().push(span_merge(c.last(), x))
        } else {
            c.push(x)
        }
    }
}

/// Sorts spans in place, by start and then by end.
fn sort_spans(v: &mut Vec<(u64, u64)>)
    ensures
        final(v)@.to_multiset() == old(v)@.to_multiset(),
        sorted_spans(final(v)@),
{
    let n = v.len();
    if n == 0 {
        return;
    }
    let ghost v0 = v@;
    let mut i: usize = 1;
    while i < n
        invariant
            n == v@.len(),
            1 <= i <= n,
            v@.to_multiset() == v0.to_multiset(),
            forall|a: int, c: int| 0 <= a < c < i ==> lex_le(#[trigger] v@[a], #[trigger] v@[c]),
        decreases n - i,
    {
        let ghost before = v@;
        let x = v[i];
        let mut pos: usize = 0;
        while pos < i && (v[pos].0 < x.0 || (v[pos].0 == x.0 && v[pos].1 <= x.1))
            invariant
                n == v@.len(),
                i < n,
                pos <= i,
                v@ == before,
                x == before[i as int],
                forall|k: int| 0 <= k < pos ==> lex_le(#[trigger] before[k], x),
            decreases i - pos,
        {
            pos = pos + 1;
        }
        let y = v.remove(i);
        v.insert(pos, y);
        proof {
            broadcast use vstd::multiset::group_multiset_axioms;

            let r1 = before.remove(i as int);
            vstd::seq_lib::to_multiset_remove(before, i as int);
            vstd::seq_lib::to_multiset_insert(r1, pos as int, x);
            before.to_multiset_ensures();
            assert(before.contains(x));
            assert(before.to_multiset().remove(x).insert(x) =~= before.to_multiset());
            assert(v@ =~= r1.insert(pos as int, x));
            assert forall|a: int, c: int| 0 <= a < c < i + 1 implies lex_le(
                #[trigger] v@[a],
                #[trigger] v@[c],
            ) by {
                let oa = crate::circuits::moved_from(pos as int, i as int, a);
                let oc = crate::circuits::moved_from(pos as int, i as int, c);
                assert(v@[a] == before[oa]);
                assert(v@[c] == before[oc]);
                if pos < i {
                    assert(!lex_le(before[pos as int], x));
                }
            }
        }
        i = i + 1;
    }
}

/// Merges every overlapping or touching pair of a non-empty collection of
/// ranges: the ranges are sorted, then swept left to right (see `compact`).
pub fn compact_ranges(input_ranges: Vec<RangeInclusive<u64>>) -> (r: Vec<RangeInclusive<u64>>)
    requires
        input_ranges@.len() > 0,
    ensures
        exists|w: Seq<(u64, u64)>|
            sorted_spans(w) && w.to_multiset() == spans(input_ranges@).to_multiset() && spans(r@)
                == compact(w),
        forall|k: int| 0 <= k < r@.len() ==> (#[trigger] r@[k])@.exhausted == false,
{
    let mut pairs: Vec<(u64, u64)> = Vec::new();
    let mut k: usize = 0;
    while k < input_ranges.len()
        invariant
            k <= input_ranges@.len(),
            pairs@ == spans(input_ranges@).take(k as int),
        decreases input_ranges@.len() - k,
    {
        pairs.push((*input_ranges[k].start(), *input_ranges[k].end()));
        assert(pairs@ =~= spans(input_ranges@).take(k + 1));
        k = k + 1;
    }
    assert(pairs@ =~= spans(input_ranges@));
    sort_spans(&mut pairs);
    let ghost w = pairs@;
    proof {
        w.to_multiset_ensures();
        spans(input_ranges@).to_multiset_ensures();
        assert(w.len() > 0);
    }
    let mut output_ranges: Vec<RangeInclusive<u64>> = Vec::new();
    let mut current = RangeInclusive::new(pairs[0].0, pairs[0].1);
    proof {
        assert(w.take(1).drop_last() =~= Seq::<(u64, u64)>::empty());
        assert(compact(Seq::<(u64, u64)>::empty()) =~= Seq::<(u64, u64)>::empty());
        assert(w.take(1).last() == w[0]);
        assert(bounds(current) == w[0]);
        assert(spans(output_ranges@).push(bounds(current)) =~= compact(w.take(1)));
    }
    let mut i: usize = 1;
    while i < pairs.len()
        invariant
            pairs@ == w,
            1 <= i <= w.len(),
            spans(output_ranges@).push(bounds(current)) == compact(w.take(i as int)),
            current@.exhausted == false,
            forall|k: int| 0 <= k < output_ranges@.len() ==> (#[trigger] output_ranges@[k])@.exhausted
                == false,
        decreases w.len() - i,
    {
        let next = RangeInclusive::new(pairs[i].0, pairs[i].1);
        let ghost c = compact(w.take(i as int));
        assert(w.take(i + 1).drop_last() =~= w.take(i as int));
        assert(c.last() == bounds(current));
        if overlaps(&current, &next) {
            current = merge(current, next);
            assert(spans(output_ranges@).push(bounds(current)) =~= c.drop_last().push(
                span_merge(c.last(), w[i as int]),
            ));
        } else {
            output_ranges.push(current);
            current = next;
            assert(spans(output_ranges@).push(bounds(current)) =~= c.push(w[i as int]));
        }
        i = i + 1;
    }
    let ghost before_last = spans(output_ranges@).push(bounds(current));
    output_ranges.push(current);
    assert(spans(output_ranges@) =~= before_last);
    assert(w.take(i as int) =~= w);
    proof {
        r_eq_witness(w, spans(input_ranges@), spans(output_ranges@));
    }
    output_ranges
}

proof fn r_eq_witness(w: Seq<(u64, u64)>, input: Seq<(u64, u64)>, out: Seq<(u64, u64)>)
    requires
        sorted_spans(w),
        w.to_multiset() == input.to_multiset(),
        out == compact(w),
    ensures
        exists|v: Seq<(u64, u64)>|
            sorted_spans(v) && v.to_multiset() == input.to_multiset() && out == compact(v),
{
}

/// The ranges (one per line before the first blank line) and the ids (one
/// per line after it) of the input, if every line reads.
pub open spec fn inputs_of(s: Seq<char>) -> Option<(Seq<(u64, u64)>, Seq<u64>)> {
    let i = char_find(s, 0, seq!['\n', '\n']);
    if i >= s.len() {
        None
    } else {
        let la = char_lines(s.subrange(0, i));
        let lb = char_lines(s.subrange(i + 2, s.len() as int));
        if (forall|k: int| 0 <= k < la.len() ==> (#[trigger] range_of(la[k])) is Some) && (forall|
            k: int,
        | 0 <= k < lb.len() ==> (#[trigger] u64_of(encode_utf8(lb[k]))) is Some) {
            Some(
                (
                    la.map_values(|l: Seq<char>| range_of(l)->Some_0),
                    lb.map_values(|l: Seq<char>| u64_of(encode_utf8(l))->Some_0),
                ),
            )
        } else {
            None
        }
    }
}

/// Reads the ranges and the ids.
pub fn parse_inputs(input: &str) -> (r: Result<(Vec<RangeInclusive<u64>>, Vec<u64>), PuzzleError>)
    ensures
        match inputs_of(input@) {
            Some((rs, ids)) => r is Ok && spans(r->Ok_0.0@) == rs && r->Ok_0.1@ == ids && forall|
                k: int,
            | 0 <= k < rs.len() ==> (#[trigger] r->Ok_0.0@[k])@.exhausted == false,
            None => r == Err::<(Vec<RangeInclusive<u64>>, Vec<u64>), PuzzleError>(
                PuzzleError::Malformed,
            ),
        },
{
    let blank = "\n\n";
    proof {
        reveal_strlit("\n\n");
        assert(blank@ =~= seq!['\n', '\n']);
    }
    let (ranges_str, ids_str) = match split_once_text(input, blank) {
        Some(p) => p,
        None => {
            return Err(PuzzleError::Malformed);
        },
    };
    let ghost s = input@;
    let ghost i = char_find(s, 0, seq!['\n', '\n']);
    let ghost la = char_lines(ranges_str@);
    let ghost lb = char_lines(ids_str@);
    let lines_a = text_lines(ranges_str);
    let mut ranges: Vec<RangeInclusive<u64>> = Vec::new();
    let mut k: usize = 0;
    while k < lines_a.len()
        invariant
            s == input@,
            i == char_find(s, 0, seq!['\n', '\n']),
            i < s.len(),
            ranges_str@ == s.subrange(0, i),
            ids_str@ == s.subrange(i + 2, s.len() as int),
            la == char_lines(ranges_str@),
            lines_a@.len() == la.len(),
            forall|j: int| 0 <= j < lines_a@.len() ==> (#[trigger] lines_a@[j])@ == la[j],
            k <= la.len(),
            ranges@.len() == k,
            forall|j: int|
                0 <= j < k ==> range_of(#[trigger] la[j]) == Some(bounds(ranges@[j]))
                    && ranges@[j]@.exhausted == false,
        decreases la.len() - k,
    {
        assert(lines_a@[k as int]@ == la[k as int]);
        let r = match parse_range(lines_a[k]) {
            Ok(r) => r,
            Err(e) => {
                assert(range_of(la[k as int]) is None);
                return Err(e);
            },
        };
        ranges.push(r);
        k = k + 1;
    }
    let lines_b = text_lines(ids_str);
    let mut ids: Vec<u64> = Vec::new();
    let mut k: usize = 0;
    while k < lines_b.len()
        invariant
            s == input@,
            i == char_find(s, 0, seq!['\n', '\n']),
            i < s.len(),
            ranges_str@ == s.subrange(0, i),
            ids_str@ == s.subrange(i + 2, s.len() as int),
            la == char_lines(ranges_str@),
            ranges@.len() == la.len(),
            forall|j: int|
                0 <= j < la.len() ==> range_of(#[trigger] la[j]) == Some(bounds(ranges@[j]))
                    && ranges@[j]@.exhausted == false,
            lb == char_lines(ids_str@),
            lines_b@.len() == lb.len(),
            forall|j: int| 0 <= j < lines_b@.len() ==> (#[trigger] lines_b@[j])@ == lb[j],
            k <= lb.len(),
            ids@.len() == k,
            forall|j: int| 0 <= j < k ==> u64_of(encode_utf8(#[trigger] lb[j])) == Some(ids@[j]),
        decreases lb.len() - k,
    {
        let bytes = lines_b[k].as_bytes();
        assert(lines_b@[k as int]@ == lb[k as int]);
        assert(bytes@.subrange(0, bytes@.len() as int) =~= bytes@);
        match parse_u64(bytes, 0, bytes.len()) {
            Some(v) => {
                ids.push(v);
            },
            None => {
                assert(u64_of(encode_utf8(lb[k as int])) is None);
                return Err(PuzzleError::Malformed);
            },
        }
        k = k + 1;
    }
    proof {
        assert(forall|j: int| 0 <= j < la.len() ==> (#[trigger] range_of(la[j])) is Some);
        assert(forall|j: int| 0 <= j < lb.len() ==> (#[trigger] u64_of(encode_utf8(lb[j]))) is Some);
        assert(spans(ranges@) =~= la.map_values(|l: Seq<char>| range_of(l)->Some_0));
        assert(ids@ =~= lb.map_values(|l: Seq<char>| u64_of(encode_utf8(l))->Some_0));
        assert forall|j: int| 0 <= j < ranges@.len() implies (#[trigger] ranges@[j])@.exhausted
            == false by {
            assert(range_of(la[j]) == Some(bounds(ranges@[j])));
        }
    }
    Ok((ranges, ids))
}

/// Whether `id` lies in one of the spans.
pub open spec fn covered(rs: Seq<(u64, u64)>, id: u64) -> bool {
    exists|k: int| 0 <= k < rs.len() && (#[trigger] rs[k]).0 <= id <= rs[k].1
}

/// How many of the first `k` ids lie in one of the spans.
pub open spec fn covered_count(rs: Seq<(u64, u64)>, ids: Seq<u64>, k: int) -> int
    decreases k,
{
    if k <= 0 {
        0
    } else {
        covered_count(rs, ids, k - 1) + if covered(rs, ids[k - 1]) {
            1int
        } else {
            0int
        }
    }
}

/// Counts the ids that lie in at least one of the ranges.
pub fn part1(input: &str) -> (r: Result<String, PuzzleError>)
    ensures
        match inputs_of(input@) {
            Some((rs, ids)) => r is Ok && r->Ok_0@ == decimal(
                covered_count(rs, ids, ids.len() as int),
            ),
            None => r == Err::<String, PuzzleError>(PuzzleError::Malformed),
        },
{
    let (ranges, ids) = parse_inputs(input)?;
    let ghost rs = spans(ranges@);
    let mut count: u64 = 0;
    let mut k: usize = 0;
    while k < ids.len()
        invariant
            rs == spans(ranges@),
            forall|j: int| 0 <= j < ranges@.len() ==> (#[trigger] ranges@[j])@.exhausted == false,
            k <= ids@.len(),
            count <= k,
            count == covered_count(rs, ids@, k as int),
        decreases ids@.len() - k,
    {
        let n = ids[k];
        let mut found = false;
        let mut j: usize = 0;
        while j < ranges.len() && !found
            invariant
                rs == spans(ranges@),
                forall|q: int| 0 <= q < ranges@.len() ==> (#[trigger] ranges@[q])@.exhausted == false,
                j <= ranges@.len(),
                found ==> covered(rs, n),
                !found ==> forall|q: int| 0 <= q < j ==> !(rs[q].0 <= n <= (#[trigger] rs[q]).1),
            decreases ranges@.len() - j + if found { 0int } else { 1int },
        {
            if *ranges[j].start() <= n && n <= *ranges[j].end() {
                assert(rs[j as int].0 <= n <= rs[j as int].1);
                found = true;
            }
            j = j + 1;
        }
        if found {
            count = count + 1;
        }
        k = k + 1;
    }
    Ok(u64_text(count))
}

/// Whether every span holds at least no integers and ends below the largest
/// `u64`, so that its length is defined.
pub open spec fn lens_ok(c: Seq<(u64, u64)>) -> bool {
    forall|k: int| 0 <= k < c.len() ==> (#[trigger] c[k]).0 <= c[k].1 + 1 && c[k].1 < u64::MAX
}

/// The number of integers that the first `k` spans hold together.
pub open spec fn total_len(c: Seq<(u64, u64)>, k: int) -> int
    decreases k,
{
    if k <= 0 {
        0
    } else {
        total_len(c, k - 1) + (c[k - 1].1 + 1 - c[k - 1].0)
    }
}

proof fn lemma_total_len_grows(c: Seq<(u64, u64)>, i: int, j: int)
    requires
        0 <= i <= j <= c.len(),
        lens_ok(c),
    ensures
        total_len(c, i) <= total_len(c, j),
    decreases j - i,
{
    if i < j {
        lemma_total_len_grows(c, i, j - 1);
    }
}

/// The answer for the compacted spans: how many integers they hold.
pub open spec fn fresh_total(c: Seq<(u64, u64)>) -> Result<Seq<char>, PuzzleError> {
    if !lens_ok(c) {
        Err(PuzzleError::Malformed)
    } else if total_len(c, c.len() as int) > u64::MAX {
        Err(PuzzleError::Overflow)
    } else {
        Ok(decimal(total_len(c, c.len() as int)))
    }
}

/// Counts the integers that the ranges hold together, each once.
pub fn part2(input: &str) -> (r: Result<String, PuzzleError>)
    ensures
        match inputs_of(input@) {
            Some((rs, _ids)) => if rs.len() == 0 {
                r == Err::<String, PuzzleError>(PuzzleError::TooFewItems)
            } else {
                exists|w: Seq<(u64, u64)>|
                    sorted_spans(w) && w.to_multiset() == rs.to_multiset()
                        && crate::circuits::answers(r, fresh_total(compact(w)))
            },
            None => r == Err::<String, PuzzleError>(PuzzleError::Malformed),
        },
{
    let (ranges, _) = parse_inputs(input)?;
    if ranges.len() == 0 {
        return Err(PuzzleError::TooFewItems);
    }
    let ghost rs = spans(ranges@);
    let merged_ranges = compact_ranges(ranges);
    let ghost w = choose|w: Seq<(u64, u64)>|
        sorted_spans(w) && w.to_multiset() == rs.to_multiset() && spans(merged_ranges@) == compact(
            w,
        );
    let ghost c = compact(w);
    let mut ok = true;
    let mut j: usize = 0;
    while j < merged_ranges.len()
        invariant
            c == spans(merged_ranges@),
            j <= c.len(),
            ok <==> forall|q: int| 0 <= q < j ==> (#[trigger] c[q]).0 <= c[q].1 + 1 && c[q].1
                < u64::MAX,
        decreases c.len() - j,
    {
        let (a, e) = (*merged_ranges[j].start(), *merged_ranges[j].end());
        assert(c[j as int] == (a, e));
        if e == u64::MAX || a > e + 1 {
            ok = false;
        }
        j = j + 1;
    }
    let r = if !ok {
        Err(PuzzleError::Malformed)
    } else {
        let mut count: u64 = 0;
        let mut k: usize = 0;
        let mut overflow = false;
        while k < merged_ranges.len() && !overflow
            invariant
                c == spans(merged_ranges@),
                lens_ok(c),
                k <= c.len(),
                !overflow ==> count == total_len(c, k as int),
                overflow ==> total_len(c, c.len() as int) > u64::MAX,
            decreases c.len() - k + if overflow { 0int } else { 1int },
        {
            assert(c[k as int] == bounds(merged_ranges@[k as int]));
            let n = r_len(&merged_ranges[k]);
            match count.checked_add(n) {
                Some(v) => {
                    count = v;
                },
                None => {
                    proof {
                        lemma_total_len_grows(c, k + 1, c.len() as int);
                    }
                    overflow = true;
                },
            }
            k = k + 1;
        }
        if overflow {
            Err(PuzzleError::Overflow)
        } else {
            Ok(u64_text(count))
        }
    };
    assert(crate::circuits::answers(r, fresh_total(c)));
    r
}

} // verus!
