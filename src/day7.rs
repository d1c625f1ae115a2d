use vstd::prelude::*;
use vstd::string::StringSliceAdditionalSpecFns;

use crate::error::PuzzleError;
use crate::text::{decimal, line_ranges, lines_of, u64_text};

verus! {

pub fn is_splitter(byte: u8) -> (r: bool)
    ensures
        r == (byte == 94),
{
    byte == 94
}

pub fn is_beam_start(byte: u8) -> (r: bool)
    ensures
        r == (byte == 83),
{
    byte == 83
}

/// The lanes of the first line: one path in each lane under an `S`.
pub open spec fn start_lanes(s: Seq<u8>) -> Seq<u64> {
    Seq::new(s.len(), |i: int| if s[i] == 83 { 1u64 } else { 0u64 })
}

/// The lanes after a splitter at `p` sends the paths that reach it to the
/// lanes on both sides.
pub open spec fn split_at(st: Seq<u64>, p: int) -> Seq<u64> {
    st.update(p, 0).update(p - 1, (st[p - 1] + st[p]) as u64).update(p + 1, (st[p + 1] + st[p]) as u64)
}

/// Whether a splitter at `p` can act: it has a lane on each side, and the
/// path counts there stay within a `u64`.
pub open spec fn can_split(st: Seq<u64>, p: int) -> bool {
    1 <= p && p + 1 < st.len() && st[p - 1] + st[p] <= u64::MAX && st[p + 1] + st[p] <= u64::MAX
}

/// The lanes after the splitters at `cs`, in order, act; `None` when one
/// cannot.
pub open spec fn splits(st: Seq<u64>, cs: Seq<int>) -> Option<Seq<u64>>
    decreases cs.len(),
{
    if cs.len() == 0 {
        Some(st)
    } else {
        match splits(st, cs.drop_last()) {
            None => None,
            Some(s) => if can_split(s, cs.last()) {
                Some(split_at(s, cs.last()))
            } else {
                None
            },
        }
    }
}

/// The lanes among the first `k` that carry paths and meet a splitter on
/// `line`, in order.
pub open spec fn collisions_upto(st: Seq<u64>, line: Seq<u8>, k: int) -> Seq<int>
    decreases k,
{
    if k <= 0 {
        Seq::empty()
    } else if st[k - 1] > 0 && line[k - 1] == 94 {
        collisions_upto(st, line, k - 1).push(k - 1)
    } else {
        collisions_upto(st, line, k - 1)
    }
}

/// The lanes and split count after one more line; `None` when a lane with
/// paths lies past the line's end, or a split cannot act, or the count
/// would overflow.
pub open spec fn advance_spec(st: Seq<u64>, events: int, line: Seq<u8>) -> Option<(Seq<u64>, int)> {
    if exists|i: int| 0 <= i < st.len() && st[i] > 0 && i >= line.len() {
        None
    } else {
        let cs = collisions_upto(st, line, st.len() as int);
        match splits(st, cs) {
            Some(s) => if events + cs.len() <= u64::MAX {
                Some((s, events + cs.len()))
            } else {
                None
            },
            None => None,
        }
    }
}

/// The state of a beam falling through a manifold of splitters: for each
/// lane, the number of paths that reach it, and how many splits happened.
pub struct BeamState {
    pub state: Vec<u64>,
    pub split_events: u64,
}

impl BeamState {
    /// The state at the first line: one path in each lane under an `S`.
    pub fn initialize(s_line: &str) -> (r: Self)
        ensures
            r.state@ == start_lanes(s_line.spec_bytes()),
            r.split_events == 0,
    {
        Self::initialize_bytes(s_line.as_bytes())
    }

    /// The state at the first line, given as bytes.
    pub fn initialize_bytes(b: &[u8]) -> (r: Self)
        ensures
            r.state@ == start_lanes(b@),
            r.split_events == 0,
    {
        let mut state: Vec<u64> = Vec::new();
        let mut i: usize = 0;
        while i < b.len()
            invariant
                i <= b@.len(),
                state@ == start_lanes(b@).take(i as int),
            decreases b@.len() - i,
        {
            if is_beam_start(b[i]) {
                state.push(1);
            } else {
                state.push(0);
            }
            assert(state@ =~= start_lanes(b@).take(i + 1));
            i = i + 1;
        }
        assert(state@ =~= start_lanes(b@));
        Self { state, split_events: 0 }
    }

    /// Empties lane `position` into the lanes on both sides.
    pub fn split(&mut self, position: usize)
        requires
            can_split(old(self).state@, position as int),
        ensures
            final(self).state@ == split_at(old(self).state@, position as int),
            final(self).split_events == old(self).split_events,
    {
        let n = self.state.len();
        let left = position - 1;
        let right = position + 1;
        let routes = self.state[position];
        self.state.set(position, 0);
        let l = self.state[left];
        self.state.set(left, l + routes);
        let r = self.state[right];
        self.state.set(right, r + routes);
    }

    /// All paths: the sum over the lanes, when it fits in a `u64`.
    pub fn total_world_lines(&self) -> (r: Option<u64>)
        ensures
            r == (if lane_sum(self.state@, self.state@.len() as int) <= u64::MAX {
                Some(lane_sum(self.state@, self.state@.len() as int) as u64)
            } else {
                None
            }),
    {
        let mut total: u64 = 0;
        let mut i: usize = 0;
        while i < self.state.len()
            invariant
                i <= self.state@.len(),
                total == lane_sum(self.state@, i as int),
            decreases self.state@.len() - i,
        {
            match total.checked_add(self.state[i]) {
                Some(t) => {
                    total = t;
                },
                None => {
                    proof {
                        lemma_lane_sum_grows(self.state@, i + 1, self.state@.len() as int);
                    }
                    return None;
                },
            }
            i = i + 1;
        }
        Some(total)
    }

    /// Moves the beam down one line: every lane with paths that meets a
    /// splitter splits, in lane order.
    pub fn advance(&mut self, line: &str) -> (r: Result<(), PuzzleError>)
        ensures
            match advance_spec(old(self).state@, old(self).split_events as int, line.spec_bytes()) {
                Some((s, e)) => r is Ok && final(self).state@ == s && final(self).split_events == e,
                None => r is Err,
            },
    {
        self.advance_bytes(line.as_bytes())
    }

    /// Moves the beam down one line, given as bytes (see `advance`).
    pub fn advance_bytes(&mut self, b_line: &[u8]) -> (r: Result<(), PuzzleError>)
        ensures
            match advance_spec(old(self).state@, old(self).split_events as int, b_line@) {
                Some((s, e)) => r is Ok && final(self).state@ == s && final(self).split_events == e,
                None => r is Err,
            },
    {
        let ghost st0 = self.state@;
        let mut collisions: Vec<usize> = Vec::new();
        let mut i: usize = 0;
        while i < self.state.len()
            invariant
                self.state@ == st0,
                st0 == old(self).state@,
                self.split_events == old(self).split_events,
                                i <= st0.len(),
                forall|j: int| 0 <= j < i && st0[j] > 0 ==> j < b_line@.len(),
                collisions@.len() == collisions_upto(st0, b_line@, i as int).len(),
                forall|j: int| 0 <= j < collisions@.len() ==> #[trigger] collisions@[j] as int
                    == collisions_upto(st0, b_line@, i as int)[j],
            decreases st0.len() - i,
        {
            if self.state[i] > 0 {
                if i >= b_line.len() {
                    assert(st0[i as int] > 0 && i >= b_line@.len());
                    return Err(PuzzleError::Malformed);
                }
                if is_splitter(b_line[i]) {
                    collisions.push(i);
                }
            }
            i = i + 1;
        }
        let ghost cs = collisions_upto(st0, b_line@, st0.len() as int);
        let mut k: usize = 0;
        while k < collisions.len()
            invariant
                st0 == old(self).state@,
                                cs == collisions_upto(st0, b_line@, st0.len() as int),
                collisions@.len() == cs.len(),
                forall|j: int| 0 <= j < cs.len() ==> #[trigger] collisions@[j] as int == cs[j],
                k <= cs.len(),
                splits(st0, cs.take(k as int)) == Some(self.state@),
                self.split_events == old(self).split_events,
            decreases cs.len() - k,
        {
            let p = collisions[k];
            assert(cs.take(k + 1).drop_last() =~= cs.take(k as int));
            let n = self.state.len();
            if n < 2 || p < 1 || p > n - 2 || self.state[p - 1] > u64::MAX - self.state[p]
                || self.state[p + 1] > u64::MAX - self.state[p] {
                proof {
                    assert(cs.take(k + 1).last() == p);
                    assert(!can_split(self.state@, p as int));
                    assert(splits(st0, cs.take(k + 1)) is None);
                    lemma_splits_fail(st0, cs, k as int + 1);
                }
                return Err(PuzzleError::Malformed);
            }
            self.split(p);
            k = k + 1;
        }
        assert(cs.take(k as int) =~= cs);
        if self.split_events > u64::MAX - (collisions.len() as u64) {
            return Err(PuzzleError::Overflow);
        }
        self.split_events = self.split_events + collisions.len() as u64;
        Ok(())
    }
}

proof fn lemma_splits_fail(st: Seq<u64>, cs: Seq<int>, k: int)
    requires
        0 < k <= cs.len(),
        splits(st, cs.take(k)) is None,
    ensures
        splits(st, cs) is None,
    decreases cs.len() - k,
{
    if k < cs.len() {
        assert(cs.take(k + 1).drop_last() =~= cs.take(k));
        lemma_splits_fail(st, cs, k + 1);
    } else {
        assert(cs.take(k) =~= cs);
    }
}

/// The sum of the first `k` lanes.
pub open spec fn lane_sum(st: Seq<u64>, k: int) -> int
    decreases k,
{
    if k <= 0 {
        0
    } else {
        lane_sum(st, k - 1) + st[k - 1]
    }
}

proof fn lemma_lane_sum_grows(st: Seq<u64>, i: int, j: int)
    requires
        0 <= i <= j <= st.len(),
    ensures
        lane_sum(st, i) <= lane_sum(st, j),
    decreases j - i,
{
    if i < j {
        lemma_lane_sum_grows(st, i, j - 1);
    }
}

/// The lanes and split count after the first `k` lines; `None` when a line
/// cannot be crossed (see `advance_spec`).
pub open spec fn beams_upto(ls: Seq<Seq<u8>>, k: int) -> Option<(Seq<u64>, int)>
    decreases k,
{
    if k <= 1 {
        Some((start_lanes(ls[0]), 0))
    } else {
        match beams_upto(ls, k - 1) {
            None => None,
            Some((st, e)) => advance_spec(st, e, ls[k - 1]),
        }
    }
}

/// Starts the beam at the first line and moves it down every other line.
pub fn shared_impl(input: &str) -> (r: Result<BeamState, PuzzleError>)
    ensures
        lines_of(input.spec_bytes()).len() == 0 ==> r == Err::<BeamState, PuzzleError>(
            PuzzleError::TooFewItems,
        ),
        lines_of(input.spec_bytes()).len() > 0 ==> match beams_upto(
            lines_of(input.spec_bytes()),
            lines_of(input.spec_bytes()).len() as int,
        ) {
            Some((st, e)) => r is Ok && r->Ok_0.state@ == st && r->Ok_0.split_events == e,
            None => r is Err,
        },
{
    let b = input.as_bytes();
    let spans = line_ranges(b);
    let ghost ls = lines_of(b@);
    if spans.len() == 0 {
        return Err(PuzzleError::TooFewItems);
    }
    let first = vstd::slice::slice_subrange(b, spans[0].0, spans[0].1);
    let mut state = BeamState::initialize_bytes(first);
    let mut k: usize = 1;
    while k < spans.len()
        invariant
            b@ == input.spec_bytes(),
            ls == lines_of(b@),
            spans@.len() == ls.len(),
            forall|j: int|
                0 <= j < spans@.len() ==> (#[trigger] spans@[j]).0 <= spans@[j].1 <= b@.len()
                    && ls[j] == b@.subrange(spans@[j].0 as int, spans@[j].1 as int),
            1 <= k <= ls.len(),
            beams_upto(ls, k as int) == Some((state.state@, state.split_events as int)),
        decreases ls.len() - k,
    {
        let line = vstd::slice::slice_subrange(b, spans[k].0, spans[k].1);
        match state.advance_bytes(line) {
            Ok(()) => {},
            Err(e) => {
                proof {
                    lemma_beams_fail(ls, k as int + 1);
                }
                return Err(e);
            },
        }
        k = k + 1;
    }
    Ok(state)
}

proof fn lemma_beams_fail(ls: Seq<Seq<u8>>, k: int)
    requires
        1 < k <= ls.len(),
        beams_upto(ls, k) is None,
    ensures
        beams_upto(ls, ls.len() as int) is None,
    decreases ls.len() - k,
{
    if k < ls.len() {
        lemma_beams_fail(ls, k + 1);
    }
}

/// How many times the beam splits on its way down.
pub fn part1(input: &str) -> (r: Result<String, PuzzleError>)
    ensures
        lines_of(input.spec_bytes()).len() == 0 ==> r == Err::<String, PuzzleError>(
            PuzzleError::TooFewItems,
        ),
        lines_of(input.spec_bytes()).len() > 0 ==> match beams_upto(
            lines_of(input.spec_bytes()),
            lines_of(input.spec_bytes()).len() as int,
        ) {
            Some((_st, e)) => r is Ok && r->Ok_0@ == decimal(e),
            None => r is Err,
        },
{
    let state = shared_impl(input)?;
    Ok(u64_text(state.split_events))
}

/// How many paths a single particle could take down the manifold.
pub fn part2(input: &str) -> (r: Result<String, PuzzleError>)
    ensures
        lines_of(input.spec_bytes()).len() == 0 ==> r == Err::<String, PuzzleError>(
            PuzzleError::TooFewItems,
        ),
        lines_of(input.spec_bytes()).len() > 0 ==> match beams_upto(
            lines_of(input.spec_bytes()),
            lines_of(input.spec_bytes()).len() as int,
        ) {
            Some((st, _e)) => if lane_sum(st, st.len() as int) <= u64::MAX {
                r is Ok && r->Ok_0@ == decimal(lane_sum(st, st.len() as int))
            } else {
                r == Err::<String, PuzzleError>(PuzzleError::Overflow)
            },
            None => r is Err,
        },
{
    let state = shared_impl(input)?;
    let ghost ls = lines_of(input.spec_bytes());
    assert(ls.len() > 0);
    assert(beams_upto(ls, ls.len() as int) == Some((state.state@, state.split_events as int)));
    proof {
        lemma_lane_sum_grows(state.state@, 0, state.state@.len() as int);
    }
    match state.total_world_lines() {
        Some(t) => Ok(u64_text(t)),
        None => Err(PuzzleError::Overflow),
    }
}

} // verus!
