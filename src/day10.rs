use std::ops::Range;

use vstd::prelude::*;
use vstd::string::StringSliceAdditionalSpecFns;

use crate::error::PuzzleError;
use crate::text::{decimal, line_ranges, lines_of, parse_u64, split_from, split_spans, u64_of, u64_text};

verus! {

/// `2` to the power `e`.
pub open spec fn pow2(e: nat) -> int
    decreases e,
{
    if e == 0 {
        1
    } else {
        2 * pow2((e - 1) as nat)
    }
}

/// The sum of `2^p` over the first `k` positions.
pub open spec fn button_sum(ps: Seq<u32>, k: int) -> int
    decreases k,
{
    if k <= 0 {
        0
    } else {
        button_sum(ps, k - 1) + pow2(ps[k - 1] as nat)
    }
}

proof fn lemma_shift_is_pow2(p: u32)
    requires
        p < 32,
    ensures
        (1u32 << p) as int == pow2(p as nat),
    decreases p,
{
    if p > 0 {
        lemma_shift_is_pow2((p - 1) as u32);
        let q = (p - 1) as u32;
        assert((1u32 << p) == 2 * (1u32 << q)) by (bit_vector)
            requires
                0 < p < 32,
                q == p - 1,
        ;
    } else {
        assert((1u32 << 0u32) == 1) by (bit_vector);
    }
}

proof fn lemma_button_sum_grows(ps: Seq<u32>, i: int, j: int)
    requires
        0 <= i <= j <= ps.len(),
    ensures
        button_sum(ps, i) <= button_sum(ps, j),
    decreases j - i,
{
    if i < j {
        lemma_button_sum_grows(ps, i, j - 1);
        lemma_pow2_pos(ps[j - 1] as nat);
    }
}

proof fn lemma_pow2_pos(e: nat)
    ensures
        pow2(e) >= 1,
    decreases e,
{
    if e > 0 {
        lemma_pow2_pos((e - 1) as nat);
    }
}

/// The button that toggles the listed light positions: the sum of `2^p`
/// over them.
pub fn bitbutton(lights_activated: &[u32]) -> (r: u32)
    requires
        forall|k: int| 0 <= k < lights_activated@.len() ==> #[trigger] lights_activated@[k] < 32,
        button_sum(lights_activated@, lights_activated@.len() as int) <= u32::MAX,
    ensures
        r == button_sum(lights_activated@, lights_activated@.len() as int),
{
    let mut res: u32 = 0;
    let mut k: usize = 0;
    while k < lights_activated.len()
        invariant
            k <= lights_activated@.len(),
            forall|j: int| 0 <= j < lights_activated@.len() ==> #[trigger] lights_activated@[j] < 32,
            button_sum(lights_activated@, lights_activated@.len() as int) <= u32::MAX,
            res == button_sum(lights_activated@, k as int),
        decreases lights_activated@.len() - k,
    {
        let position = lights_activated[k];
        proof {
            lemma_shift_is_pow2(position);
            lemma_button_sum_grows(lights_activated@, k + 1, lights_activated@.len() as int);
        }
        res = res + (1u32 << position);
        k = k + 1;
    }
    res
}

/// The light pattern that `s` draws, light `i` being bit `i`: `.` off, `#`
/// on. `Malformed` at the first other byte; `Overflow` at a 33rd light.
pub open spec fn lights_upto(s: Seq<u8>, k: int) -> Result<int, PuzzleError>
    decreases k,
{
    if k <= 0 {
        Ok(0)
    } else {
        match lights_upto(s, k - 1) {
            Err(e) => Err(e),
            Ok(v) => if s[k - 1] != 46 && s[k - 1] != 35 {
                Err(PuzzleError::Malformed)
            } else if k - 1 >= 32 {
                Err(PuzzleError::Overflow)
            } else if s[k - 1] == 35 {
                Ok(v + pow2((k - 1) as nat))
            } else {
                Ok(v)
            },
        }
    }
}

proof fn lemma_lights_bound(s: Seq<u8>, k: int)
    requires
        0 <= k <= 32,
        k <= s.len(),
    ensures
        lights_upto(s, k) is Ok ==> 0 <= lights_upto(s, k)->Ok_0 < pow2(k as nat),
    decreases k,
{
    if k > 0 {
        lemma_lights_bound(s, k - 1);
        lemma_pow2_pos((k - 1) as nat);
    }
}

/// Reads a light pattern such as `.##.`, whose first light is the lowest
/// bit.
pub fn bitlights(l_str: &str) -> (r: Result<u32, PuzzleError>)
    ensures
        match lights_upto(l_str.spec_bytes(), l_str.spec_bytes().len() as int) {
            Ok(v) => r == Ok::<u32, PuzzleError>(v as u32),
            Err(e) => r == Err::<u32, PuzzleError>(e),
        },
{
    lights_from_bytes(l_str.as_bytes())
}

/// Reads a light pattern given as bytes (see `bitlights`).
pub fn lights_from_bytes(b: &[u8]) -> (r: Result<u32, PuzzleError>)
    ensures
        match lights_upto(b@, b@.len() as int) {
            Ok(v) => r == Ok::<u32, PuzzleError>(v as u32),
            Err(e) => r == Err::<u32, PuzzleError>(e),
        },
{
    let mut res: u32 = 0;
    let mut i: usize = 0;
    while i < b.len()
        invariant
            i <= b@.len(),
            i <= 32,
            lights_upto(b@, i as int) == Ok::<int, PuzzleError>(res as int),
        decreases b@.len() - i,
    {
        let c = b[i];
        if c != 46 && c != 35 {
            proof {
                assert(lights_upto(b@, i as int + 1) == Err::<int, PuzzleError>(PuzzleError::Malformed));
                lemma_lights_fail(b@, i as int + 1);
            }
            return Err(PuzzleError::Malformed);
        }
        if i >= 32 {
            proof {
                assert(lights_upto(b@, i as int + 1) == Err::<int, PuzzleError>(PuzzleError::Overflow));
                lemma_lights_fail(b@, i as int + 1);
            }
            return Err(PuzzleError::Overflow);
        }
        proof {
            lemma_lights_bound(b@, i as int);
            lemma_lights_bound(b@, i as int + 1);
            lemma_pow2_le32((i + 1) as nat);
        }
        if c == 35 {
            proof {
                lemma_shift_is_pow2(i as u32);
            }
            res = res + (1u32 << (i as u32));
        }
        i = i + 1;
    }
    Ok(res)
}

proof fn lemma_pow2_le32(e: nat)
    requires
        e <= 32,
    ensures
        pow2(e) <= 0x1_0000_0000,
    decreases e,
{
    lemma_pow2_mono(e, 32);
    reveal_with_fuel(pow2, 33);
}

proof fn lemma_pow2_mono(a: nat, b: nat)
    requires
        a <= b,
    ensures
        pow2(a) <= pow2(b),
    decreases b,
{
    if a < b {
        lemma_pow2_mono(a, (b - 1) as nat);
        lemma_pow2_pos((b - 1) as nat);
    }
}

proof fn lemma_lights_fail(s: Seq<u8>, k: int)
    requires
        0 < k <= s.len(),
        lights_upto(s, k) is Err,
    ensures
        lights_upto(s, s.len() as int) == lights_upto(s, k),
    decreases s.len() - k,
{
    if k < s.len() {
        lemma_lights_fail(s, k + 1);
    }
}

/// The number of set bits of `u`: its bits added one by one (the partial
/// sums stay below 33, so no cast changes them).
pub open spec fn ones(u: u32) -> u32 {
    (((((((((((((((((((((((((((((((((((((((((((((((((((((((((((((((u & 1)) + ((u >> 1u32) & 1)) as u32) + ((u >> 2u32) & 1)) as u32) + ((u >> 3u32) & 1)) as u32) + ((u >> 4u32) & 1)) as u32) + ((u >> 5u32) & 1)) as u32) + ((u >> 6u32) & 1)) as u32) + ((u >> 7u32) & 1)) as u32) + ((u >> 8u32) & 1)) as u32) + ((u >> 9u32) & 1)) as u32) + ((u >> 10u32) & 1)) as u32) + ((u >> 11u32) & 1)) as u32) + ((u >> 12u32) & 1)) as u32) + ((u >> 13u32) & 1)) as u32) + ((u >> 14u32) & 1)) as u32) + ((u >> 15u32) & 1)) as u32) + ((u >> 16u32) & 1)) as u32) + ((u >> 17u32) & 1)) as u32) + ((u >> 18u32) & 1)) as u32) + ((u >> 19u32) & 1)) as u32) + ((u >> 20u32) & 1)) as u32) + ((u >> 21u32) & 1)) as u32) + ((u >> 22u32) & 1)) as u32) + ((u >> 23u32) & 1)) as u32) + ((u >> 24u32) & 1)) as u32) + ((u >> 25u32) & 1)) as u32) + ((u >> 26u32) & 1)) as u32) + ((u >> 27u32) & 1)) as u32) + ((u >> 28u32) & 1)) as u32) + ((u >> 29u32) & 1)) as u32) + ((u >> 30u32) & 1)) as u32) + ((u >> 31u32) & 1)) as u32
}

/// The number of set bits, by the octal-mask method: each 3-bit group is
/// reduced to its count, pairs of groups are added, and the 6-bit sums are
/// added up by reducing modulo 63.
pub fn bitcount_u32(u: u32) -> (r: u32)
    ensures
        r == ones(u),
{
    proof {
        assert(((u >> 1u32) & 0o33333333333u32) + ((u >> 2u32) & 0o11111111111u32) <= u)
            by (bit_vector);
    }
    let u_count = u - ((u >> 1) & 0o33333333333) - ((u >> 2) & 0o11111111111);
    proof {
        assert(u_count + (u_count >> 3u32) <= u32::MAX) by (bit_vector)
            requires
                u_count == u - ((u >> 1u32) & 0o33333333333u32) - ((u >> 2u32) & 0o11111111111u32),
        ;
    }
    let r = ((u_count + (u_count >> 3)) & 0o30707070707) % 63;
    proof {
        assert(u_count == u - ((u >> 1u32) & 0o33333333333u32) - ((u >> 2u32) & 0o11111111111u32));
        assert(r == (((((((((((((((((((((((((((((((((((((((((((((((((((((((((((((((u & 1)) + ((u >> 1u32) & 1)) as u32) + ((u >> 2u32) & 1)) as u32) + ((u >> 3u32) & 1)) as u32) + ((u >> 4u32) & 1)) as u32) + ((u >> 5u32) & 1)) as u32) + ((u >> 6u32) & 1)) as u32) + ((u >> 7u32) & 1)) as u32) + ((u >> 8u32) & 1)) as u32) + ((u >> 9u32) & 1)) as u32) + ((u >> 10u32) & 1)) as u32) + ((u >> 11u32) & 1)) as u32) + ((u >> 12u32) & 1)) as u32) + ((u >> 13u32) & 1)) as u32) + ((u >> 14u32) & 1)) as u32) + ((u >> 15u32) & 1)) as u32) + ((u >> 16u32) & 1)) as u32) + ((u >> 17u32) & 1)) as u32) + ((u >> 18u32) & 1)) as u32) + ((u >> 19u32) & 1)) as u32) + ((u >> 20u32) & 1)) as u32) + ((u >> 21u32) & 1)) as u32) + ((u >> 22u32) & 1)) as u32) + ((u >> 23u32) & 1)) as u32) + ((u >> 24u32) & 1)) as u32) + ((u >> 25u32) & 1)) as u32) + ((u >> 26u32) & 1)) as u32) + ((u >> 27u32) & 1)) as u32) + ((u >> 28u32) & 1)) as u32) + ((u >> 29u32) & 1)) as u32) + ((u >> 30u32) & 1)) as u32) + ((u >> 31u32) & 1)) as u32) by (bit_vector)
            requires
                u_count == u - ((u >> 1u32) & 0o33333333333u32) - ((u >> 2u32) & 0o11111111111u32),
                r == (((u_count + (u_count >> 3u32)) as u32) & 0o30707070707u32) % 63,
        ;
    }
    r
}

/// The index `i` places into `range`, if it stays inside.
pub fn r_idx(range: &Range<usize>, i: usize) -> (r: Option<usize>)
    ensures
        r == (if range.start + i < range.end {
            Some((range.start + i) as usize)
        } else {
            None
        }),
{
    match range.start.checked_add(i) {
        Some(n) => if n < range.end {
            Some(n)
        } else {
            None
        },
        None => None,
    }
}

/// The combination after `st` among strictly increasing index lists below
/// `end`, in lexicographic order: the rightmost position that can grow by
/// one does, and the positions after it follow on consecutively; `None`
/// after the last one. `pos` is the rightmost position still to try.
pub open spec fn unrepeated_next(st: Seq<usize>, end: int, pos: int) -> Option<Seq<usize>>
    decreases pos + 1,
{
    if pos < 0 || pos >= st.len() {
        None
    } else if st[pos] + 1 < end - (st.len() - 1 - pos) {
        Some(st.take(pos) + Seq::new((st.len() - pos) as nat, |k: int| (st[pos] + 1 + k) as usize))
    } else {
        unrepeated_next(st, end, pos - 1)
    }
}

/// The combination after `st` among non-decreasing index lists below `end`:
/// the rightmost position that can grow by one does, and the positions
/// after it take the same value; `None` after the last one.
pub open spec fn repeated_next(st: Seq<usize>, end: int, pos: int) -> Option<Seq<usize>>
    decreases pos + 1,
{
    if pos < 0 || pos >= st.len() {
        None
    } else if st[pos] + 1 < end {
        Some(st.take(pos) + Seq::new((st.len() - pos) as nat, |k: int| (st[pos] + 1) as usize))
    } else {
        repeated_next(st, end, pos - 1)
    }
}

/// How many indices a range holds.
pub open spec fn range_len(range: Range<usize>) -> int {
    if range.end > range.start {
        range.end - range.start
    } else {
        0
    }
}

/// The combinations of `k` distinct indices of a range, in lexicographic
/// order: `3 of 0..5` gives `[0, 1, 2]`, `[0, 1, 3]`, ..., `[2, 3, 4]`.
pub struct CombinateIndicesUnrepeated {
    pub range: Range<usize>,
    pub state: Option<Vec<usize>>,
}

impl CombinateIndicesUnrepeated {
    /// Starts at the first combination of `num_elements` indices; refuses
    /// more elements than the range holds.
    pub fn try_new(range: Range<usize>, num_elements: usize) -> (r: Result<Self, PuzzleError>)
        ensures
            match r {
                Ok(c) => num_elements <= range_len(range) && c.wf() && c.range == range && c.state
                    is Some && c.state->Some_0@ == Seq::new(
                    num_elements as nat,
                    |k: int| (range.start + k) as usize,
                ),
                Err(e) => num_elements > range_len(range) && e == PuzzleError::Unsolvable,
            },
    {
        let available = if range.end > range.start {
            range.end - range.start
        } else {
            0
        };
        if num_elements > available {
            return Err(PuzzleError::Unsolvable);
        }
        let mut state: Vec<usize> = Vec::new();
        let mut n: usize = 0;
        while n < num_elements
            invariant
                n <= num_elements <= available,
                available == range_len(range),
                state@ == Seq::new(n as nat, |k: int| (range.start + k) as usize),
            decreases num_elements - n,
        {
            match r_idx(&range, n) {
                Some(i) => {
                    state.push(i);
                },
                None => {
                    return Err(PuzzleError::Unsolvable);
                },
            }
            assert(state@ =~= Seq::new((n + 1) as nat, |k: int| (range.start + k) as usize));
            n = n + 1;
        }
        let r = Self { range, state: Some(state) };
        assert(state@ =~= Seq::new(num_elements as nat, |k: int| (range.start + k) as usize));
        Ok(r)
    }

    /// Every index of the current combination lies below the range's end,
    /// and there are no more of them than that end.
    pub open spec fn wf(&self) -> bool {
        self.state is Some ==> self.state->Some_0@.len() <= self.range.end && forall|k: int|
            0 <= k < self.state->Some_0@.len() ==> #[trigger] self.state->Some_0@[k] < self.range.end
    }

    /// The current combination, if the enumeration is not over, after which
    /// the state moves to the next one (see `unrepeated_next`).
    pub fn next(&mut self) -> (r: Option<Vec<usize>>)
        requires
            old(self).wf(),
        ensures
            final(self).wf(),
            final(self).range == old(self).range,
            old(self).state is None ==> r is None && final(self).state is None,
            old(self).state is Some ==> r is Some && r->Some_0@ == old(self).state->Some_0@ && match unrepeated_next(
                old(self).state->Some_0@,
                old(self).range.end as int,
                old(self).state->Some_0@.len() - 1,
            ) {
                Some(n) => final(self).state is Some && final(self).state->Some_0@ == n,
                None => final(self).state is None,
            },
    {
        let beyond = self.range.end;
        let mut taken: Option<Vec<usize>> = None;
        std::mem::swap(&mut self.state, &mut taken);
        let mut state = match taken {
            Some(v) => v,
            None => {
                return None;
            },
        };
        let ghost st = state@;
        let res = copy_indices(&state);
        let len = state.len();
        let mut beyond_max = beyond;
        let mut position = len;
        while position > 0
            invariant
                state@ == st,
                len == st.len(),
                position <= len,
                forall|k: int| 0 <= k < len ==> #[trigger] st[k] < beyond,
                beyond_max as int == beyond - (len - position),
                unrepeated_next(st, beyond as int, len - 1) == unrepeated_next(
                    st,
                    beyond as int,
                    position - 1,
                ),
                self.state is None,
                self.range.end == beyond,
                self.range == old(self).range,
                old(self).state is Some && old(self).state->Some_0@ == st,
                res@ == st,
                len <= beyond,
            decreases position,
        {
            let p = position - 1;
            let val = state[p] + 1;
            if val < beyond_max {
                let mut slot = p;
                while slot < len
                    invariant
                        p <= slot <= len,
                        p < len,
                        len == state@.len(),
                        val == st[p as int] + 1,
                        val < beyond_max,
                        beyond_max as int == beyond - (len - 1 - p),
                        state@.len() == st.len(),
                        forall|k: int| 0 <= k < p ==> #[trigger] state@[k] == st[k],
                        forall|k: int| p <= k < slot ==> #[trigger] state@[k] == (st[p as int] + 1 + (k - p)) as usize,
                    decreases len - slot,
                {
                    state.set(slot, val + (slot - p));
                    slot = slot + 1;
                }
                proof {
                    assert(state@ =~= st.take(p as int) + Seq::new(
                        (st.len() - p) as nat,
                        |k: int| (st[p as int] + 1 + k) as usize,
                    ));
                }
                self.state = Some(state);
                return Some(res);
            }
            beyond_max = beyond_max - 1;
            position = p;
        }
        Some(res)
    }
}

/// A copy of an index list.
fn copy_indices(v: &Vec<usize>) -> (r: Vec<usize>)
    ensures
        r@ == v@,
{
    let mut r: Vec<usize> = Vec::new();
    let mut i: usize = 0;
    while i < v.len()
        invariant
            i <= v@.len(),
            r@ == v@.take(i as int),
        decreases v@.len() - i,
    {
        r.push(v[i]);
        assert(r@ =~= v@.take(i + 1));
        i = i + 1;
    }
    assert(v@.take(i as int) =~= v@);
    r
}

/// The combinations of `k` indices of a range with repetition, as
/// non-decreasing lists in lexicographic order, starting from all zeros.
pub struct CombinateIndicesRepeated {
    pub range: Range<usize>,
    pub state: Option<Vec<usize>>,
}

impl CombinateIndicesRepeated {
    /// Starts at `num_elements` zeros.
    pub fn new(range: Range<usize>, num_elements: usize) -> (r: Self)
        ensures
            r.range == range,
            r.state is Some,
            r.state->Some_0@ == Seq::new(num_elements as nat, |k: int| 0usize),
    {
        let state = vec![0usize; num_elements];
        proof {
            assert(state@ =~= Seq::new(num_elements as nat, |k: int| 0usize));
        }
        Self { range, state: Some(state) }
    }

    /// The current combination, if the enumeration is not over, after which
    /// the state moves to the next one (see `repeated_next`).
    pub fn next(&mut self) -> (r: Option<Vec<usize>>)
        ensures
            final(self).range == old(self).range,
            old(self).state is None ==> r is None && final(self).state is None,
            old(self).state is Some ==> r is Some && r->Some_0@ == old(self).state->Some_0@ && match repeated_next(
                old(self).state->Some_0@,
                old(self).range.end as int,
                old(self).state->Some_0@.len() - 1,
            ) {
                Some(n) => final(self).state is Some && final(self).state->Some_0@ == n,
                None => final(self).state is None,
            },
    {
        let beyond_max = self.range.end;
        let mut taken: Option<Vec<usize>> = None;
        std::mem::swap(&mut self.state, &mut taken);
        let mut state = match taken {
            Some(v) => v,
            None => {
                return None;
            },
        };
        let ghost st = state@;
        let res = copy_indices(&state);
        let len = state.len();
        let mut position = len;
        while position > 0
            invariant
                state@ == st,
                len == st.len(),
                position <= len,
                repeated_next(st, beyond_max as int, len - 1) == repeated_next(
                    st,
                    beyond_max as int,
                    position - 1,
                ),
                self.state is None,
                self.range.end == beyond_max,
                self.range == old(self).range,
                old(self).state is Some && old(self).state->Some_0@ == st,
                res@ == st,
            decreases position,
        {
            let p = position - 1;
            if state[p] < beyond_max && state[p] + 1 < beyond_max {
                let val = state[p] + 1;
                let mut slot = p;
                while slot < len
                    invariant
                        p <= slot <= len,
                        len == state@.len(),
                        val == st[p as int] + 1,
                        state@.len() == st.len(),
                        forall|k: int| 0 <= k < p ==> #[trigger] state@[k] == st[k],
                        forall|k: int| p <= k < slot ==> #[trigger] state@[k] == val,
                    decreases len - slot,
                {
                    state.set(slot, val);
                    slot = slot + 1;
                }
                proof {
                    assert(state@ =~= st.take(p as int) + Seq::new(
                        (st.len() - p) as nat,
                        |k: int| (st[p as int] + 1) as usize,
                    ));
                }
                self.state = Some(state);
                return Some(res);
            }
            position = p;
        }
        Some(res)
    }
}

/// The number that a list of base-`b` digits spells, most significant
/// first.
pub open spec fn digits_value(s: Seq<usize>, b: int) -> int
    decreases s.len(),
{
    if s.len() == 0 {
        0
    } else {
        digits_value(s.drop_last(), b) * b + s.last()
    }
}

/// `b` to the power `e`.
pub open spec fn power(b: int, e: nat) -> int
    decreases e,
{
    if e == 0 {
        1
    } else {
        b * power(b, (e - 1) as nat)
    }
}

proof fn lemma_value_bounds(s: Seq<usize>, b: int)
    requires
        b >= 1,
        forall|k: int| 0 <= k < s.len() ==> #[trigger] s[k] < b,
    ensures
        0 <= digits_value(s, b) < power(b, s.len()),
    decreases s.len(),
{
    if s.len() > 0 {
        let t = s.drop_last();
        assert forall|k: int| 0 <= k < t.len() implies #[trigger] t[k] < b by {
            assert(t[k] == s[k]);
        }
        lemma_value_bounds(t, b);
        let v = digits_value(t, b);
        let p = power(b, t.len());
        assert(power(b, s.len()) == b * p);
        assert(v * b + s.last() < b * p) by (nonlinear_arith)
            requires
                0 <= v < p,
                0 <= s.last() < b,
        ;
        assert(v * b >= 0) by (nonlinear_arith)
            requires
                v >= 0,
                b >= 1,
        ;
    }
}

proof fn lemma_value_concat(a: Seq<usize>, c: Seq<usize>, b: int)
    ensures
        digits_value(a + c, b) == digits_value(a, b) * power(b, c.len()) + digits_value(c, b),
    decreases c.len(),
{
    if c.len() == 0 {
        assert(a + c =~= a);
    } else {
        let c0 = c.drop_last();
        assert((a + c).drop_last() =~= a + c0);
        lemma_value_concat(a, c0, b);
        let va = digits_value(a, b);
        let p = power(b, c0.len());
        assert((va * p + digits_value(c0, b)) * b + c.last() == va * (b * p) + (digits_value(
            c0,
            b,
        ) * b + c.last())) by (nonlinear_arith);
    }
}

/// Each step of the enumeration moves to a combination of larger value in
/// base `end`, with every index still below `end`.
proof fn lemma_unrepeated_next_grows(st: Seq<usize>, end: int, pos: int)
    requires
        1 <= end <= usize::MAX,
        pos < st.len(),
        forall|k: int| 0 <= k < st.len() ==> #[trigger] st[k] < end,
        unrepeated_next(st, end, pos) is Some,
    ensures
        ({
            let n = unrepeated_next(st, end, pos)->Some_0;
            &&& n.len() == st.len()
            &&& forall|k: int| 0 <= k < n.len() ==> #[trigger] n[k] < end
            &&& digits_value(n, end) > digits_value(st, end)
        }),
    decreases pos + 1,
{
    if st[pos] + 1 < end - (st.len() - 1 - pos) {
        let n = unrepeated_next(st, end, pos)->Some_0;
        let fill = Seq::new((st.len() - pos) as nat, |k: int| (st[pos] + 1 + k) as usize);
        assert(n == st.take(pos) + fill);
        let head = st.take(pos + 1);
        let tail = st.skip(pos + 1);
        let nhead = n.take(pos + 1);
        let ntail = n.skip(pos + 1);
        assert(st =~= head + tail);
        assert(n =~= nhead + ntail);
        assert(head.drop_last() =~= st.take(pos));
        assert(nhead.drop_last() =~= st.take(pos));
        assert(n[pos] == fill[0]);
        assert(nhead.last() == n[pos]);
        assert(nhead.last() == st[pos] + 1);
        lemma_value_concat(head, tail, end);
        lemma_value_concat(nhead, ntail, end);
        assert forall|k: int| 0 <= k < tail.len() implies #[trigger] tail[k] < end by {
            assert(tail[k] == st[pos + 1 + k]);
        }
        lemma_value_bounds(tail, end);
        assert forall|k: int| 0 <= k < n.len() implies #[trigger] n[k] < end by {
            if k >= pos {
                assert(n[k] == fill[k - pos]);
            }
        }
        assert forall|k: int| 0 <= k < ntail.len() implies #[trigger] ntail[k] < end by {
            assert(ntail[k] == n[pos + 1 + k]);
        }
        lemma_value_bounds(ntail, end);
        let p = power(end, tail.len());
        let vh = digits_value(head, end);
        assert(digits_value(nhead, end) == vh + 1);
        assert((vh + 1) * p + digits_value(ntail, end) > vh * p + digits_value(tail, end))
            by (nonlinear_arith)
            requires
                0 <= digits_value(tail, end) < p,
                0 <= digits_value(ntail, end),
        ;
    } else {
        lemma_unrepeated_next_grows(st, end, pos - 1);
    }
}

/// The XOR of the buttons at the listed indices.
pub open spec fn xor_of(buttons: Seq<u32>, idx: Seq<usize>) -> u32
    decreases idx.len(),
{
    if idx.len() == 0 {
        0
    } else {
        xor_of(buttons, idx.drop_last()) ^ buttons[idx.last() as int]
    }
}

/// Where the enumeration of combinations below `end` stands after `m`
/// steps from `st`.
pub open spec fn visit(st: Option<Seq<usize>>, end: int, m: nat) -> Option<Seq<usize>>
    decreases m,
{
    if m == 0 {
        st
    } else {
        match st {
            None => None,
            Some(s) => visit(unrepeated_next(s, end, s.len() - 1), end, (m - 1) as nat),
        }
    }
}

proof fn lemma_visit_split(st: Option<Seq<usize>>, end: int, a: nat, b: nat)
    ensures
        visit(st, end, a + b) == visit(visit(st, end, a), end, b),
    decreases a,
{
    if a > 0 {
        match st {
            None => {
                lemma_visit_none(end, b);
                lemma_visit_none(end, (a + b) as nat);
            },
            Some(s) => {
                lemma_visit_split(unrepeated_next(s, end, s.len() - 1), end, (a - 1) as nat, b);
                assert((a - 1) as nat + b == (a + b - 1) as nat);
            },
        }
    }
}

proof fn lemma_visit_none(end: int, m: nat)
    ensures
        visit(None, end, m) is None,
{
}

/// The first `k` indices, in order.
pub open spec fn first_indices(k: nat) -> Seq<usize> {
    Seq::new(k, |i: int| i as usize)
}

/// Whether the enumeration of the `k`-combinations of the buttons meets one
/// whose presses give `desired`.
pub open spec fn hits(buttons: Seq<u32>, desired: u32, k: nat) -> bool {
    exists|m: nat|
        #[trigger] visit(Some(first_indices(k)), buttons.len() as int, m) is Some && xor_of(
            buttons,
            visit(Some(first_indices(k)), buttons.len() as int, m)->Some_0,
        ) == desired
}

/// A machine: the light pattern to reach, the buttons (each the set of
/// lights it toggles, as bits) and the joltage requirements.
pub struct Machine {
    pub desired_lights: u32,
    pub buttons: Vec<u32>,
    pub joltage_reqs: Vec<usize>,
}

impl Machine {
    /// The fewest presses (at least one) that reach the desired lights,
    /// trying press counts in increasing order and, for each, every
    /// combination of distinct buttons.
    pub fn brute_force_lights_button_counts(&self) -> (r: Result<usize, PuzzleError>)
        ensures
            match r {
                Ok(k) => 1 <= k <= self.buttons@.len() && hits(
                    self.buttons@,
                    self.desired_lights,
                    k as nat,
                ) && forall|j: nat| 1 <= j < k ==> !#[trigger] hits(
                    self.buttons@,
                    self.desired_lights,
                    j,
                ),
                Err(e) => e == PuzzleError::Unsolvable && forall|j: nat|
                    1 <= j <= self.buttons@.len() ==> !#[trigger] hits(
                        self.buttons@,
                        self.desired_lights,
                        j,
                    ),
            },
    {
        let n = self.buttons.len();
        let ghost bs = self.buttons@;
        let mut tried: usize = 0;
        while tried < n
            invariant
                n == bs.len(),
                bs == self.buttons@,
                tried <= n,
                forall|j: nat| 1 <= j <= tried ==> !#[trigger] hits(bs, self.desired_lights, j),
            decreases n - tried,
        {
            let num_presses = tried + 1;
            let mut combinations = match CombinateIndicesUnrepeated::try_new(0..n, num_presses) {
                Ok(c) => c,
                Err(e) => {
                    return Err(e);
                },
            };
            let ghost k = num_presses as nat;
            let ghost init = Some(first_indices(k));
            assert(combinations.state->Some_0@ =~= first_indices(k));
            let ghost mut m: nat = 0;
            loop
                invariant
                    n == bs.len(),
                    bs == self.buttons@,
                    n >= 1,
                    k == num_presses,
                    1 <= num_presses <= n,
                    init == Some(first_indices(k)),
                    combinations.wf(),
                    combinations.range.end == n,
                    combinations.state is Some ==> combinations.state->Some_0@.len() == k,
                    (match combinations.state {
                        Some(v) => Some(v@),
                        None => None,
                    }) == visit(init, n as int, m),
                    forall|q: nat| q < m ==> !(#[trigger] visit(init, n as int, q) is Some && xor_of(
                        bs,
                        visit(init, n as int, q)->Some_0,
                    ) == self.desired_lights),
                    forall|j: nat| 1 <= j < num_presses ==> !#[trigger] hits(bs, self.desired_lights, j),
                ensures
                    !hits(bs, self.desired_lights, k),
                decreases (match combinations.state {
                    Some(v) => power(n as int, k) - digits_value(v@, n as int) + 1,
                    None => 0,
                }),
            {
                let ghost before = combinations.state;
                proof {
                    if let Some(v) = before {
                        lemma_value_bounds(v@, n as int);
                    }
                }
                let index_list = match combinations.next() {
                    Some(list) => list,
                    None => {
                        proof {
                            assert forall|q: nat| #[trigger] visit(init, n as int, q) is Some implies xor_of(
                                bs,
                                visit(init, n as int, q)->Some_0,
                            ) != self.desired_lights by {
                                if q >= m {
                                    lemma_visit_split(init, n as int, m, (q - m) as nat);
                                    lemma_visit_none(n as int, (q - m) as nat);
                                }
                            }
                            assert(!hits(bs, self.desired_lights, k));
                        }
                        break;
                    },
                };
                proof {
                    let v = before->Some_0@;
                    lemma_visit_split(init, n as int, m, 1);
                    assert(visit(unrepeated_next(v, n as int, v.len() - 1), n as int, 0)
                        == unrepeated_next(v, n as int, v.len() - 1));
                    assert(visit(Some(v), n as int, 1) == unrepeated_next(v, n as int, v.len() - 1));
                    if combinations.state is Some {
                        lemma_unrepeated_next_grows(v, n as int, v.len() - 1);
                        lemma_value_bounds(combinations.state->Some_0@, n as int);
                    }
                }
                let mut result: u32 = 0;
                let mut i: usize = 0;
                while i < index_list.len()
                    invariant
                        n == bs.len(),
                        bs == self.buttons@,
                        forall|q: int| 0 <= q < index_list@.len() ==> #[trigger] index_list@[q] < n,
                        i <= index_list@.len(),
                        result == xor_of(bs, index_list@.take(i as int)),
                    decreases index_list@.len() - i,
                {
                    assert(index_list@.take(i + 1).drop_last() =~= index_list@.take(i as int));
                    result = result ^ self.buttons[index_list[i]];
                    i = i + 1;
                }
                assert(index_list@.take(i as int) =~= index_list@);
                if result == self.desired_lights {
                    proof {
                        assert(visit(init, n as int, m) is Some);
                    }
                    return Ok(num_presses);
                }
                proof {
                    m = m + 1;
                }
            }
            tried = tried + 1;
        }
        Err(PuzzleError::Unsolvable)
    }
}

/// A comma-separated list of `u32`s, if every item reads.
pub open spec fn u32_list(s: Seq<u8>) -> Option<Seq<u32>> {
    let fs = split_from(s, 0, 44);
    if forall|k: int| 0 <= k < fs.len() ==> (#[trigger] u64_of(fs[k])) is Some && u64_of(fs[k])->Some_0 <= u32::MAX {
        Some(fs.map_values(|f: Seq<u8>| u64_of(f)->Some_0 as u32))
    } else {
        None
    }
}

/// A comma-separated list of `usize`s, if every item reads.
pub open spec fn usize_list(s: Seq<u8>) -> Option<Seq<usize>> {
    let fs = split_from(s, 0, 44);
    if forall|k: int| 0 <= k < fs.len() ==> (#[trigger] u64_of(fs[k])) is Some && u64_of(fs[k])->Some_0 <= usize::MAX {
        Some(fs.map_values(|f: Seq<u8>| u64_of(f)->Some_0 as usize))
    } else {
        None
    }
}

/// What lies between the first and last byte of `t`.
pub open spec fn inner(t: Seq<u8>) -> Seq<u8> {
    t.subrange(1, t.len() - 1)
}

/// `t` starts with `open` and ends with `close`, as two bytes at least.
pub open spec fn wrapped(t: Seq<u8>, open: u8, close: u8) -> bool {
    t.len() >= 2 && t[0] == open && t[t.len() - 1] == close
}

/// A button token `(a,b,...)`: the sum of `2^p` over its light positions.
pub open spec fn button_of(t: Seq<u8>) -> Option<u32> {
    if wrapped(t, 40, 41) {
        match u32_list(inner(t)) {
            Some(ps) => if (forall|k: int| 0 <= k < ps.len() ==> #[trigger] ps[k] < 32) && button_sum(
                ps,
                ps.len() as int,
            ) <= u32::MAX {
                Some(button_sum(ps, ps.len() as int) as u32)
            } else {
                None
            },
            None => None,
        }
    } else {
        None
    }
}

/// The buttons and joltage list after the first `k` tokens of a machine
/// line (the light pattern is token 0); `None` when a token is malformed.
pub open spec fn machine_tokens(toks: Seq<Seq<u8>>, k: int) -> Option<(Seq<u32>, Option<Seq<usize>>)>
    decreases k,
{
    if k <= 1 {
        Some((Seq::empty(), None))
    } else {
        match machine_tokens(toks, k - 1) {
            None => None,
            Some((bs, j)) => {
                let t = toks[k - 1];
                if t.len() == 0 {
                    None
                } else if t[0] == 40 {
                    match button_of(t) {
                        Some(b) => Some((bs.push(b), j)),
                        None => None,
                    }
                } else if t[0] == 123 {
                    if wrapped(t, 123, 125) {
                        Some((bs, usize_list(inner(t))))
                    } else {
                        None
                    }
                } else {
                    None
                }
            },
        }
    }
}

/// The machine that a line `[.##.] (3) (1,3) {3,5}` describes: the light
/// pattern, the buttons and the joltage list, the last of which must be
/// present and read.
pub open spec fn machine_of(line: Seq<u8>) -> Option<(u32, Seq<u32>, Seq<usize>)> {
    let toks = split_from(line, 0, 32);
    let t0 = toks[0];
    if !wrapped(t0, 91, 93) {
        None
    } else {
        match lights_upto(inner(t0), inner(t0).len() as int) {
            Err(_) => None,
            Ok(v) => match machine_tokens(toks, toks.len() as int) {
                Some((bs, Some(j))) => Some((v as u32, bs, j)),
                _ => None,
            },
        }
    }
}

/// Reads a comma-separated list of numbers up to `max`.
fn number_list(b: &[u8], max: u64) -> (r: Option<Vec<u64>>)
    ensures
        ({
            let fs = split_from(b@, 0, 44);
            if forall|k: int| 0 <= k < fs.len() ==> (#[trigger] u64_of(fs[k])) is Some && u64_of(fs[k])->Some_0 <= max {
                r is Some && r->Some_0@ == fs.map_values(|f: Seq<u8>| u64_of(f)->Some_0)
            } else {
                r is None
            }
        }),
{
    let spans = split_spans(b, 44);
    let ghost fs = split_from(b@, 0, 44);
    let mut out: Vec<u64> = Vec::new();
    let mut k: usize = 0;
    while k < spans.len()
        invariant
            fs == split_from(b@, 0, 44),
            spans@.len() == fs.len(),
            forall|q: int|
                0 <= q < spans@.len() ==> (#[trigger] spans@[q]).0 <= spans@[q].1 <= b@.len()
                    && fs[q] == b@.subrange(spans@[q].0 as int, spans@[q].1 as int),
            k <= fs.len(),
            out@.len() == k,
            forall|q: int| 0 <= q < k ==> (#[trigger] u64_of(fs[q])) == Some(out@[q]) && out@[q] <= max,
        decreases fs.len() - k,
    {
        match parse_u64(b, spans[k].0, spans[k].1) {
            Some(v) => {
                if v > max {
                    return None;
                }
                out.push(v);
            },
            None => {
                return None;
            },
        }
        k = k + 1;
    }
    assert(out@ =~= fs.map_values(|f: Seq<u8>| u64_of(f)->Some_0));
    Some(out)
}

/// Reads a button token.
fn parse_button(t: &[u8]) -> (r: Option<u32>)
    ensures
        r == button_of(t@),
{
    let n = t.len();
    if n < 2 || t[0] != 40 || t[n - 1] != 41 {
        return None;
    }
    let body = vstd::slice::slice_subrange(t, 1, n - 1);
    let list = match number_list(body, 0xffff_ffff) {
        Some(l) => l,
        None => {
            return None;
        },
    };
    let ghost fs = split_from(body@, 0, 44);
    let mut positions: Vec<u32> = Vec::new();
    let mut k: usize = 0;
    while k < list.len()
        invariant
            k <= list@.len(),
            forall|q: int| 0 <= q < list@.len() ==> #[trigger] list@[q] <= 0xffff_ffff,
            positions@ == list@.take(k as int).map_values(|v: u64| v as u32),
        decreases list@.len() - k,
    {
        positions.push(list[k] as u32);
        assert(positions@ =~= list@.take(k + 1).map_values(|v: u64| v as u32));
        k = k + 1;
    }
    assert(list@.take(k as int) =~= list@);
    let ghost ps = positions@;
    assert(u32_list(inner(t@)) == Some(ps)) by {
        assert(inner(t@) =~= body@);
        assert(ps =~= fs.map_values(|f: Seq<u8>| u64_of(f)->Some_0 as u32));
    }
    let mut total: u64 = 0;
    let mut i: usize = 0;
    while i < positions.len()
        invariant
            ps == positions@,
            u32_list(inner(t@)) == Some(ps),
            wrapped(t@, 40, 41),
            i <= ps.len(),
            forall|q: int| 0 <= q < i ==> #[trigger] ps[q] < 32,
            total == button_sum(ps, i as int),
            total <= u32::MAX,
        decreases ps.len() - i,
    {
        let p = positions[i];
        if p >= 32 {
            assert(!(ps[i as int] < 32));
            return None;
        }
        proof {
            lemma_shift_is_pow2(p);
            lemma_pow2_le32(p as nat);
        }
        total = total + (1u32 << p) as u64;
        if total > 0xffff_ffff {
            proof {
                assert(button_sum(ps, i + 1) == total);
                lemma_prefix_sum_bound(ps, (i + 1) as int);
            }
            return None;
        }
        i = i + 1;
    }
    Some(bitbutton(positions.as_slice()))
}

proof fn lemma_prefix_sum_bound(ps: Seq<u32>, i: int)
    requires
        0 <= i <= ps.len(),
    ensures
        button_sum(ps, i) <= button_sum(ps, ps.len() as int),
{
    lemma_button_sum_grows(ps, i, ps.len() as int);
}

/// Reads a joltage token `{a,b,...}` whose braces are in place.
fn parse_joltage(item: &[u8]) -> (r: Option<Vec<usize>>)
    requires
        wrapped(item@, 123, 125),
    ensures
        (match r {
            Some(v) => Some(v@),
            None => None,
        }) == usize_list(inner(item@)),
{
    let m = item.len();
    let body = vstd::slice::slice_subrange(item, 1, m - 1);
    assert(body@ =~= inner(item@));
    let ghost fs = split_from(body@, 0, 44);
    let list = match number_list(body, 0xffff_ffff_ffff_ffff) {
        Some(list) => list,
        None => {
            assert(!(forall|z: int| 0 <= z < fs.len() ==> (#[trigger] u64_of(fs[z])) is Some
                && u64_of(fs[z])->Some_0 <= usize::MAX));
            return None;
        },
    };
    assert(list@ == fs.map_values(|f: Seq<u8>| u64_of(f)->Some_0));
    assert(forall|z: int| 0 <= z < fs.len() ==> (#[trigger] u64_of(fs[z])) is Some);
    let mut reqs: Vec<usize> = Vec::new();
    let mut q: usize = 0;
    while q < list.len()
        invariant
            q <= list@.len(),
            fs == split_from(inner(item@), 0, 44),
            list@ == fs.map_values(|f: Seq<u8>| u64_of(f)->Some_0),
            forall|z: int| 0 <= z < fs.len() ==> (#[trigger] u64_of(fs[z])) is Some,
            reqs@ == list@.take(q as int).map_values(|v: u64| v as usize),
            forall|z: int| 0 <= z < q ==> #[trigger] list@[z] <= usize::MAX,
        decreases list@.len() - q,
    {
        if list[q] as u128 > usize::MAX as u128 {
            assert(u64_of(fs[q as int])->Some_0 > usize::MAX);
            return None;
        }
        reqs.push(list[q] as usize);
        assert(reqs@ =~= list@.take(q + 1).map_values(|v: u64| v as usize));
        q = q + 1;
    }
    assert(list@.take(q as int) =~= list@);
    assert forall|z: int| 0 <= z < fs.len() implies (#[trigger] u64_of(fs[z])) is Some
        && u64_of(fs[z])->Some_0 <= usize::MAX by {
        assert(list@[z] == u64_of(fs[z])->Some_0);
    }
    assert(reqs@ =~= fs.map_values(|f: Seq<u8>| u64_of(f)->Some_0 as usize));
    Some(reqs)
}

/// Reads the machine that a line describes, if it is well formed.
pub fn my_machine(line: &str) -> (r: Option<Machine>)
    ensures
        match machine_of(line.spec_bytes()) {
            Some((d, bs, j)) => r is Some && r->Some_0.desired_lights == d && r->Some_0.buttons@ == bs
                && r->Some_0.joltage_reqs@ == j,
            None => r is None,
        },
{
    machine_from_bytes(line.as_bytes())
}

/// Reads the machine that a line, given as bytes, describes.
pub fn machine_from_bytes(line: &[u8]) -> (r: Option<Machine>)
    ensures
        match machine_of(line@) {
            Some((d, bs, j)) => r is Some && r->Some_0.desired_lights == d && r->Some_0.buttons@ == bs
                && r->Some_0.joltage_reqs@ == j,
            None => r is None,
        },
{
    let spans = split_spans(line, 32);
    let ghost toks = split_from(line@, 0, 32);
    proof {
        assert(toks.len() >= 1) by {
            lemma_split_nonempty(line@, 0, 32);
        }
    }
    let first = vstd::slice::slice_subrange(line, spans[0].0, spans[0].1);
    let n0 = first.len();
    if n0 < 2 || first[0] != 91 || first[n0 - 1] != 93 {
        return None;
    }
    let lights = vstd::slice::slice_subrange(first, 1, n0 - 1);
    assert(lights@ =~= inner(toks[0]));
    let desired_lights = match lights_from_bytes(lights) {
        Ok(v) => v,
        Err(_) => {
            return None;
        },
    };
    let mut buttons: Vec<u32> = Vec::new();
    let mut joltage_reqs: Option<Vec<usize>> = None;
    let mut k: usize = 1;
    while k < spans.len()
        invariant
            toks == split_from(line@, 0, 32),
            spans@.len() == toks.len(),
            forall|q: int|
                0 <= q < spans@.len() ==> (#[trigger] spans@[q]).0 <= spans@[q].1 <= line@.len()
                    && toks[q] == line@.subrange(spans@[q].0 as int, spans@[q].1 as int),
            1 <= k <= toks.len(),
            machine_tokens(toks, k as int) == Some((buttons@, match joltage_reqs {
                Some(v) => Some(v@),
                None => None,
            })),
        decreases toks.len() - k,
    {
        let item = vstd::slice::slice_subrange(line, spans[k].0, spans[k].1);
        assert(item@ == toks[k as int]);
        if item.len() == 0 {
            proof {
                lemma_machine_fail(toks, k as int + 1);
            }
            return None;
        }
        if item[0] == 40 {
            match parse_button(item) {
                Some(b) => {
                    buttons.push(b);
                    assert(machine_tokens(toks, k + 1) == Some((buttons@, match joltage_reqs {
                        Some(v) => Some(v@),
                        None => None,
                    })));
                },
                None => {
                    proof {
                        lemma_machine_fail(toks, k as int + 1);
                    }
                    return None;
                },
            }
        } else if item[0] == 123 {
            let m = item.len();
            if m < 2 || item[m - 1] != 125 {
                proof {
                    lemma_machine_fail(toks, k as int + 1);
                }
                return None;
            }
            joltage_reqs = parse_joltage(item);
            proof {
                assert(machine_tokens(toks, k + 1) == Some((buttons@, usize_list(inner(item@)))));
            }
        } else {
            proof {
                lemma_machine_fail(toks, k as int + 1);
            }
            return None;
        }
        k = k + 1;
    }
    match joltage_reqs {
        Some(j) => Some(Machine { desired_lights, buttons, joltage_reqs: j }),
        None => None,
    }
}

proof fn lemma_split_nonempty(s: Seq<u8>, start: int, sep: u8)
    requires
        0 <= start <= s.len(),
    ensures
        split_from(s, start, sep).len() >= 1,
{
    crate::text::lemma_find_from_bounds(s, start, sep);
}

proof fn lemma_machine_fail(toks: Seq<Seq<u8>>, k: int)
    requires
        1 < k <= toks.len(),
        machine_tokens(toks, k) is None,
    ensures
        machine_tokens(toks, toks.len() as int) is None,
    decreases toks.len() - k,
{
    if k < toks.len() {
        lemma_machine_fail(toks, k + 1);
    }
}

/// The fewest presses, from `k` on, for which the enumeration meets the
/// desired lights.
pub open spec fn first_hit(bs: Seq<u32>, d: u32, k: nat) -> Option<nat>
    decreases bs.len() + 1 - k,
{
    if k > bs.len() || k == 0 {
        None
    } else if hits(bs, d, k) {
        Some(k)
    } else {
        first_hit(bs, d, k + 1)
    }
}

proof fn lemma_first_hit(bs: Seq<u32>, d: u32, j: nat, k: nat)
    requires
        1 <= j <= k <= bs.len(),
        hits(bs, d, k),
        forall|q: nat| 1 <= q < k ==> !#[trigger] hits(bs, d, q),
    ensures
        first_hit(bs, d, j) == Some(k),
    decreases k - j,
{
    if j < k {
        lemma_first_hit(bs, d, j + 1, k);
    }
}

proof fn lemma_no_hit(bs: Seq<u32>, d: u32, j: nat)
    requires
        1 <= j,
        forall|q: nat| 1 <= q <= bs.len() ==> !#[trigger] hits(bs, d, q),
    ensures
        first_hit(bs, d, j) is None,
    decreases bs.len() + 1 - j,
{
    if j <= bs.len() {
        lemma_no_hit(bs, d, j + 1);
    }
}

/// The total of the fewest presses over the first `k` lines, skipping lines
/// that describe no machine; `Unsolvable` at the first machine that no
/// presses solve, `Overflow` when the total leaves `usize`.
pub open spec fn presses_total(ls: Seq<Seq<u8>>, k: int) -> Result<int, PuzzleError>
    decreases k,
{
    if k <= 0 {
        Ok(0)
    } else {
        match presses_total(ls, k - 1) {
            Err(e) => Err(e),
            Ok(t) => match machine_of(ls[k - 1]) {
                None => Ok(t),
                Some((d, bs, _j)) => match first_hit(bs, d, 1) {
                    None => Err(PuzzleError::Unsolvable),
                    Some(p) => if t + p > usize::MAX {
                        Err(PuzzleError::Overflow)
                    } else {
                        Ok(t + p)
                    },
                },
            },
        }
    }
}

proof fn lemma_presses_fail(ls: Seq<Seq<u8>>, k: int)
    requires
        0 < k <= ls.len(),
        presses_total(ls, k) is Err,
    ensures
        presses_total(ls, ls.len() as int) == presses_total(ls, k),
    decreases ls.len() - k,
{
    if k < ls.len() {
        lemma_presses_fail(ls, k + 1);
    }
}

/// Sums, over the lines that describe a machine, the fewest button presses
/// that reach its light pattern.
pub fn part1(input: &str) -> (r: Result<String, PuzzleError>)
    ensures
        crate::circuits::answers(
            r,
            match presses_total(lines_of(input.spec_bytes()), lines_of(input.spec_bytes()).len() as int) {
                Ok(t) => Ok(decimal(t)),
                Err(e) => Err(e),
            },
        ),
{
    let b = input.as_bytes();
    let spans = line_ranges(b);
    let ghost ls = lines_of(b@);
    let mut grand_total: usize = 0;
    let mut k: usize = 0;
    while k < spans.len()
        invariant
            b@ == input.spec_bytes(),
            ls == lines_of(b@),
            spans@.len() == ls.len(),
            forall|j: int|
                0 <= j < spans@.len() ==> (#[trigger] spans@[j]).0 <= spans@[j].1 <= b@.len()
                    && ls[j] == b@.subrange(spans@[j].0 as int, spans@[j].1 as int),
            k <= ls.len(),
            presses_total(ls, k as int) == Ok::<int, PuzzleError>(grand_total as int),
        decreases ls.len() - k,
    {
        let line = vstd::slice::slice_subrange(b, spans[k].0, spans[k].1);
        match machine_from_bytes(line) {
            None => {},
            Some(machine) => {
                match machine.brute_force_lights_button_counts() {
                    Ok(p) => {
                        proof {
                            lemma_first_hit(machine.buttons@, machine.desired_lights, 1, p as nat);
                        }
                        match grand_total.checked_add(p) {
                            Some(t) => {
                                grand_total = t;
                            },
                            None => {
                                proof {
                                    lemma_presses_fail(ls, k as int + 1);
                                }
                                return Err(PuzzleError::Overflow);
                            },
                        }
                    },
                    Err(e) => {
                        proof {
                            lemma_no_hit(machine.buttons@, machine.desired_lights, 1);
                            lemma_presses_fail(ls, k as int + 1);
                        }
                        return Err(e);
                    },
                }
            },
        }
        k = k + 1;
    }
    Ok(u64_text(grand_total as u64))
}

/// This puzzle part has no solver.
pub fn part2(input: &str) -> (r: Result<String, PuzzleError>)
    ensures
        r == Err::<String, PuzzleError>(PuzzleError::Unsupported),
{
    Err(PuzzleError::Unsupported)
}

} // verus!
