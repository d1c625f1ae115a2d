use std::ops::RangeInclusive;

use vstd::prelude::*;
use vstd::string::StringSliceAdditionalSpecFns;

use crate::day3::pow10;
use crate::day5::{parse_range, range_of};
use crate::error::PuzzleError;
use crate::text::{char_find, comma_pieces, decimal, lemma_char_find, split_once_text, u64_text};

verus! {

/// How many decimal digits `n` has (`0` has one).
pub open spec fn num_digits(n: nat) -> nat
    decreases n,
{
    if n < 10 {
        1
    } else {
        1 + num_digits(n / 10)
    }
}

proof fn lemma_pow10_succ(e: nat)
    ensures
        pow10(e + 1) == 10 * pow10(e),
{
}

proof fn lemma_pow10_pos(e: nat)
    ensures
        pow10(e) >= 1,
    decreases e,
{
    if e > 0 {
        lemma_pow10_pos((e - 1) as nat);
    }
}

/// `n` lies between the powers of ten around its digit count.
proof fn lemma_num_digits(n: nat)
    ensures
        num_digits(n) >= 1,
        n < pow10(num_digits(n)),
        n >= 1 ==> pow10((num_digits(n) - 1) as nat) <= n,
    decreases n,
{
    if n >= 10 {
        lemma_num_digits(n / 10);
        let d = num_digits(n / 10);
        lemma_pow10_succ(d);
        lemma_pow10_succ((d - 1) as nat);
        let p = pow10(d);
        assert(n < 10 * p) by (nonlinear_arith)
            requires
                n / 10 < p,
        ;
        let q = pow10((d - 1) as nat);
        assert(10 * q <= n) by (nonlinear_arith)
            requires
                q <= n / 10,
                n >= 10,
        ;
    } else {
        reveal_with_fuel(pow10, 2);
    }
}

proof fn lemma_pow10_mono(a: nat, b: nat)
    requires
        a <= b,
    ensures
        pow10(a) <= pow10(b),
    decreases b,
{
    if a < b {
        lemma_pow10_mono(a, (b - 1) as nat);
        lemma_pow10_pos((b - 1) as nat);
    }
}

proof fn lemma_u64_digits(n: u64)
    ensures
        num_digits(n as nat) <= 20,
{
    lemma_num_digits(n as nat);
    if num_digits(n as nat) > 20 {
        lemma_pow10_mono(20, (num_digits(n as nat) - 1) as nat);
        reveal_with_fuel(pow10, 21);
    }
}

/// The number of decimal digits of `n`.
pub fn digit_count(n: u64) -> (r: u32)
    ensures
        r == num_digits(n as nat),
        1 <= r <= 20,
{
    proof {
        lemma_u64_digits(n);
        lemma_num_digits(n as nat);
    }
    let mut m = n;
    let mut c: u32 = 1;
    while m >= 10
        invariant
            c + num_digits(m as nat) - 1 == num_digits(n as nat),
            num_digits(n as nat) <= 20,
            c >= 1,
        decreases m,
    {
        m = m / 10;
        c = c + 1;
    }
    c
}

/// `10` to the power `e`, for the powers that fit in a `u64`.
pub fn pow10_u64(e: u32) -> (r: u64)
    requires
        e <= 19,
    ensures
        r == pow10(e as nat),
{
    proof {
        lemma_pow10_mono(e as nat, 19);
        reveal_with_fuel(pow10, 20);
    }
    let mut r: u64 = 1;
    let mut k: u32 = 0;
    while k < e
        invariant
            k <= e <= 19,
            r == pow10(k as nat),
            pow10(e as nat) <= 10_000_000_000_000_000_000,
        decreases e - k,
    {
        proof {
            lemma_pow10_mono((k + 1) as nat, e as nat);
        }
        r = r * 10;
        k = k + 1;
    }
    r
}

/// The first number at or after `n` with an even number of digits (`10`
/// for `0`).
pub open spec fn first_even(n: nat) -> nat {
    if n == 0 {
        10
    } else if num_digits(n) % 2 == 0 {
        n
    } else {
        pow10(num_digits(n)) as nat
    }
}

/// The first number at or after `start` with an even number of digits;
/// `0` gives `10`.
pub fn first_even_digited_number_from(start: u64) -> (r: u64)
    ensures
        r == first_even(start as nat),
{
    let dig_count = digit_count(start);
    if start == 0 {
        10
    } else if dig_count % 2 == 0 {
        start
    } else {
        pow10_u64(dig_count)
    }
}

/// The first half of the digits of the first even-digited number at or
/// after `start`.
pub open spec fn first_half(start: nat) -> nat {
    let e = first_even(start);
    (e as int / pow10(num_digits(e) / 2)) as nat
}

/// The first half of the digits of the first even-digited number at or
/// after `start`: the smallest sequence whose doubling can lie in a range
/// that starts there.
pub fn first_repeatable_digit_sequence_from(start: u64) -> (r: u64)
    ensures
        r == first_half(start as nat),
{
    let even = first_even_digited_number_from(start);
    let half_count = digit_count(even) / 2;
    proof {
        lemma_pow10_pos((half_count) as nat);
    }
    even / pow10_u64(half_count)
}

/// The number whose digits are those of `s` twice over.
pub open spec fn doubled(s: nat) -> int {
    s * pow10(num_digits(s)) + s
}

/// The number whose digits are those of `sequence` twice over: `123` gives
/// `123123`.
pub fn repeat_digits(sequence: u64) -> (r: u64)
    requires
        sequence > 0,
        doubled(sequence as nat) <= u64::MAX,
    ensures
        r == doubled(sequence as nat),
{
    let power = digit_count(sequence);
    proof {
        lemma_num_digits(sequence as nat);
        lemma_pow10_pos(power as nat);
        assert(sequence * pow10(power as nat) >= pow10(power as nat)) by (nonlinear_arith)
            requires
                sequence >= 1,
                pow10(power as nat) >= 1,
        ;
        assert(pow10(power as nat) <= u64::MAX);
        assert(power <= 19) by {
            if power == 20 {
                lemma_pow10_mono(19, (power - 1) as nat);
                reveal_with_fuel(pow10, 20);
                assert(sequence as int >= 10_000_000_000_000_000_000);
                assert(sequence * pow10(power as nat) >= 10 * sequence) by (nonlinear_arith)
                    requires
                        pow10(power as nat) >= 10,
                        sequence >= 0,
                ;
            }
        }
        lemma_pow10_mono(1, power as nat);
    }
    let shifted = sequence * pow10_u64(power);
    shifted + sequence
}

/// The numbers that taking `interval` digits at a time off the left of
/// `current` gives, the first cut below place `pp`; the last one takes what
/// is left. A dead state gives none.
pub open spec fn chunks(current: nat, pp: nat, interval: nat, dead: bool) -> Seq<u64>
    decreases pp, (if dead {
        0int
    } else {
        1int
    }),
{
    if dead {
        Seq::empty()
    } else if pp == 0 {
        seq![current as u64]
    } else {
        let d = pow10(pp);
        let next_pp: nat = if pp >= interval && interval >= 1 {
            (pp - interval) as nat
        } else {
            0
        };
        seq![(current as int / d) as u64] + chunks((current as int % d) as nat, next_pp, interval, false)
    }
}

/// The place of the first cut when `number` is taken `interval` digits at a
/// time.
pub open spec fn start_place(number: nat, interval: nat) -> nat {
    if number == 0 || num_digits(number) - 1 < interval - 1 {
        0
    } else {
        (num_digits(number) - 1 - (interval - 1)) as nat
    }
}

/// Takes a number apart from the left, `power_interval` digits at a time:
/// `8007568` by two gives `80`, `7`, `56`, `8` (zero padding is lost).
pub struct Digits {
    pub current: u64,
    pub place_power: u32,
    pub power_interval: u32,
    pub dead: bool,
}

impl Digits {
    pub open spec fn wf(&self) -> bool {
        self.power_interval >= 1 && self.place_power <= 19
    }

    /// The numbers still to come.
    pub open spec fn rest(&self) -> Seq<u64> {
        chunks(
            self.current as nat,
            self.place_power as nat,
            self.power_interval as nat,
            self.dead,
        )
    }

    /// One digit at a time.
    pub fn new(number: u64) -> (r: Self)
        ensures
            r.wf(),
            r.rest() == chunks(number as nat, start_place(number as nat, 1), 1, false),
    {
        Self::new_with_interval(number, 1)
    }

    /// `interval` digits at a time.
    pub fn new_with_interval(number: u64, interval: u32) -> (r: Self)
        requires
            interval >= 1,
        ensures
            r.wf(),
            r.current == number,
            r.power_interval == interval,
            !r.dead,
            r.place_power == start_place(number as nat, interval as nat),
    {
        let place_power = if number == 0 {
            0
        } else {
            let log = digit_count(number) - 1;
            log.saturating_sub(interval - 1)
        };
        Self { current: number, place_power, power_interval: interval, dead: false }
    }

    /// The next number, if any.
    pub fn next(&mut self) -> (r: Option<u64>)
        requires
            old(self).wf(),
        ensures
            final(self).wf(),
            final(self).power_interval == old(self).power_interval,
            old(self).rest().len() == 0 ==> r is None && final(self).rest().len() == 0,
            old(self).rest().len() > 0 ==> r == Some(old(self).rest()[0]) && final(self).rest()
                == old(self).rest().drop_first(),
    {
        if self.dead {
            return None;
        }
        let power = self.place_power;
        let divisor = pow10_u64(power);
        proof {
            lemma_pow10_pos(power as nat);
        }
        let val = if power == 0 {
            self.current
        } else {
            self.current / divisor
        };
        self.current = if power == 0 {
            0
        } else {
            self.current % divisor
        };
        if power == 0 {
            self.dead = true;
        } else {
            self.place_power = self.place_power.saturating_sub(self.power_interval);
        }
        proof {
            let old_rest = old(self).rest();
            let cur = old(self).current as nat;
            if power == 0 {
                assert(divisor == 1);
                assert(val == old(self).current);
                assert(old_rest == seq![cur as u64]);
                assert(old_rest[0] == cur as u64);
            } else {
                let next_pp: nat = if power >= old(self).power_interval {
                    (power - old(self).power_interval) as nat
                } else {
                    0
                };
                let p10 = pow10(power as nat);
                assert(0 <= cur as int / p10 <= cur) by (nonlinear_arith)
                    requires
                        p10 >= 1,
                        cur >= 0,
                ;
                assert(val == cur as int / p10);
                assert(old_rest == seq![(cur as int / pow10(power as nat)) as u64] + chunks(
                    (cur as int % pow10(power as nat)) as nat,
                    next_pp,
                    old(self).power_interval as nat,
                    false,
                ));
                assert(old_rest[0] == (cur as int / p10) as u64);
            }
            assert(old_rest[0] == val);
            if power == 0 {
                assert(old_rest =~= seq![old(self).current]);
                assert(self.rest() =~= old_rest.drop_first());
            } else {
                assert(old_rest.drop_first() =~= self.rest());
            }
        }
        Some(val)
    }

    /// How many numbers are still to come.
    pub fn count(self) -> (r: usize)
        requires
            self.wf(),
        ensures
            r == self.rest().len(),
    {
        let mut d = self;
        let ghost all = d.rest();
        let mut n: usize = 0;
        proof {
            lemma_chunks_len(d.current as nat, d.place_power as nat, d.power_interval as nat, d.dead);
        }
        while !d.dead
            invariant
                d.wf(),
                n + d.rest().len() == all.len(),
                all.len() <= 20,
            decreases d.rest().len(),
        {
            proof {
                lemma_chunks_len(d.current as nat, d.place_power as nat, d.power_interval as nat, d.dead);
            }
            d.next();
            n = n + 1;
        }
        n
    }

    /// How many numbers are still to come, by the digit count: exact for a
    /// fresh state.
    pub fn len(&self) -> (r: usize)
        requires
            self.wf(),
        ensures
            r == (if self.dead {
                0
            } else if self.current == 0 {
                1
            } else {
                (num_digits(self.current as nat) + self.power_interval - 1) / (
                self.power_interval as int)
            }),
    {
        if self.dead {
            return 0;
        }
        if self.current == 0 {
            return 1;
        }
        let num_digits = digit_count(self.current) as u64;
        let interval = self.power_interval as u64;
        let q = (num_digits + interval - 1) / interval;
        proof {
            assert(q <= num_digits) by (nonlinear_arith)
                requires
                    q == (num_digits + interval - 1) / (interval as int),
                    interval >= 1,
                    num_digits >= 1,
            ;
        }
        q as usize
    }
}

proof fn lemma_chunks_len(current: nat, pp: nat, interval: nat, dead: bool)
    ensures
        chunks(current, pp, interval, dead).len() <= pp + 1,
        !dead ==> chunks(current, pp, interval, dead).len() >= 1,
    decreases pp, (if dead {
        0int
    } else {
        1int
    }),
{
    if !dead && pp > 0 {
        let d = pow10(pp);
        let next_pp: nat = if pp >= interval && interval >= 1 {
            (pp - interval) as nat
        } else {
            0
        };
        lemma_chunks_len((current as int % d) as nat, next_pp, interval, false);
    }
}

/// Digits one at a time.
pub fn digits(n: u64) -> (r: Digits)
    ensures
        r.wf(),
        r.rest() == chunks(n as nat, start_place(n as nat, 1), 1, false),
{
    Digits::new(n)
}

/// Whether taking `num` apart `interval` digits at a time gives at least
/// two numbers, all equal.
pub open spec fn repeats(num: nat, interval: nat) -> bool {
    let c = chunks(num, start_place(num, interval), interval, false);
    c.len() >= 2 && forall|k: int| 0 <= k < c.len() ==> #[trigger] c[k] == c[0]
}

/// Whether some number of digits, repeated at least twice, spells `num`.
pub fn is_repeaty(num: u64) -> (r: bool)
    ensures
        r == exists|i: int| 1 <= i <= (num + 1) / 2 && #[trigger] repeats(num as nat, i as nat),
{
    let max_interval: u64 = num / 2 + num % 2;
    if max_interval == 0 {
        return false;
    }
    let limit: u32 = if max_interval < 21 {
        max_interval as u32
    } else {
        21
    };
    proof {
        lemma_u64_digits(num);
        assert forall|i: int| 21 <= i <= (num + 1) / 2 implies !#[trigger] repeats(num as nat, i as nat) by {
            assert(start_place(num as nat, i as nat) == 0);
        }
    }
    let mut i: u32 = 1;
    while i <= limit
        invariant
            1 <= i <= limit + 1,
            limit <= 21,
            limit <= (num + 1) / 2,
            limit == 21 || limit == (num + 1) / 2,
            forall|j: int| 1 <= j < i ==> !#[trigger] repeats(num as nat, j as nat),
        decreases limit + 1 - i,
    {
        let mut d = Digits::new_with_interval(num, i);
        let ghost c = d.rest();
        proof {
            lemma_chunks_len(d.current as nat, d.place_power as nat, d.power_interval as nat, d.dead);
        }
        let first_unit = match d.next() {
            Some(v) => v,
            None => {
                i = i + 1;
                continue;
            },
        };
        if d.dead {
            proof {
                assert(d.rest().len() == 0);
                assert(c.len() == 1);
            }
            i = i + 1;
            continue;
        }
        let mut all_same = true;
        let mut taken: usize = 1;
        while !d.dead && all_same
            invariant
                d.wf(),
                1 <= taken <= c.len(),
                c.len() <= 20,
                d.rest() == c.skip(taken as int),
                first_unit == c[0],
                all_same ==> forall|k: int| 0 <= k < taken ==> #[trigger] c[k] == c[0],
                !all_same ==> exists|k: int| 0 <= k < c.len() && #[trigger] c[k] != c[0],
            decreases d.rest().len(), (if all_same { 1int } else { 0int }),
        {
            proof {
                lemma_chunks_len(d.current as nat, d.place_power as nat, d.power_interval as nat, d.dead);
            }
            match d.next() {
                Some(next) => {
                    assert(next == c[taken as int]);
                    if next != first_unit {
                        all_same = false;
                    }
                    taken = taken + 1;
                    assert(d.rest() =~= c.skip(taken as int));
                },
                None => {},
            }
        }
        if all_same {
            proof {
                assert(d.rest().len() == 0);
                assert(taken == c.len());
                assert(c.len() >= 2);
                let j: int = i as int;
                assert(repeats(num as nat, j as nat));
                assert(1 <= j <= (num + 1) / 2);
            }
            return true;
        }
        i = i + 1;
    }
    false
}

/// The sum of the doubled sequences from `s` on that lie in `[start, end]`,
/// up to the first one past `end`.
pub open spec fn range_sum(s: nat, start: int, end: int) -> int
    decreases end + 1 - s,
    via range_sum_decreases
{
    if doubled(s) > end {
        0
    } else {
        (if doubled(s) >= start {
            doubled(s)
        } else {
            0
        }) + range_sum(s + 1, start, end)
    }
}

#[via_fn]
proof fn range_sum_decreases(s: nat, start: int, end: int) {
    lemma_doubled_ge(s);
}

proof fn lemma_doubled_ge(s: nat)
    ensures
        doubled(s) >= s,
{
    lemma_pow10_pos(num_digits(s));
    assert(s * pow10(num_digits(s)) >= 0) by (nonlinear_arith)
        requires
            pow10(num_digits(s)) >= 1,
    ;
}

proof fn lemma_range_sum_nonneg(s: nat, start: int, end: int)
    ensures
        range_sum(s, start, end) >= 0,
    decreases end + 1 - s,
{
    lemma_doubled_ge(s);
    if doubled(s) <= end {
        lemma_range_sum_nonneg(s + 1, start, end);
    }
}

/// The sum of the numbers in a range whose digits are some sequence twice
/// over; `Overflow` when it does not fit in a `u64`.
pub fn process_range_part1(r: RangeInclusive<u64>) -> (out: Result<u64, PuzzleError>)
    ensures
        ({
            let total = range_sum(first_half(r@.start as nat), r@.start as int, r@.end as int);
            if total <= u64::MAX {
                out == Ok::<u64, PuzzleError>(total as u64)
            } else {
                out == Err::<u64, PuzzleError>(PuzzleError::Overflow)
            }
        }),
{
    let start = *r.start();
    let end = *r.end();
    let mut repeat_seq = first_repeatable_digit_sequence_from(start);
    let ghost s0 = repeat_seq as nat;
    let mut sum: u64 = 0;
    proof {
        lemma_range_sum_nonneg(s0, start as int, end as int);
    }
    loop
        invariant
            start == r@.start,
            end == r@.end,
            sum + range_sum(repeat_seq as nat, start as int, end as int) == range_sum(
                s0,
                start as int,
                end as int,
            ),
            range_sum(s0, start as int, end as int) >= 0,
            s0 == first_half(start as nat),
        ensures
            sum == range_sum(s0, start as int, end as int),
        decreases end + 1 - repeat_seq,
    {
        let ghost sq = repeat_seq as nat;
        proof {
            lemma_doubled_ge(sq);
            lemma_range_sum_nonneg(sq + 1, start as int, end as int);
        }
        let mut v: u64 = 0;
        let mut past_end = repeat_seq > end;
        if !past_end {
            let power = digit_count(repeat_seq);
            if power > 19 {
                proof {
                    lemma_num_digits(sq);
                    lemma_pow10_mono(19, (power - 1) as nat);
                    reveal_with_fuel(pow10, 20);
                    lemma_big_doubled(sq);
                }
                past_end = true;
            } else {
                proof {
                    lemma_num_digits(sq);
                    lemma_pow10_mono(power as nat, 19);
                    reveal_with_fuel(pow10, 20);
                }
                match repeat_seq.checked_mul(pow10_u64(power)) {
                    Some(shifted) => match shifted.checked_add(repeat_seq) {
                        Some(t) => {
                            v = t;
                            past_end = v > end;
                        },
                        None => {
                            past_end = true;
                        },
                    },
                    None => {
                        proof {
                            assert(doubled(sq) >= sq * pow10(num_digits(sq)));
                        }
                        past_end = true;
                    },
                }
            }
        }
        if past_end {
            proof {
                assert(doubled(sq) > end);
                assert(range_sum(sq, start as int, end as int) == 0);
            }
            break;
        }
        assert(v == doubled(sq));
        assert(range_sum(sq, start as int, end as int) == (if v >= start {
            v as int
        } else {
            0
        }) + range_sum(sq + 1, start as int, end as int));
        if v >= start {
            sum = match sum.checked_add(v) {
                Some(t) => t,
                None => {
                    return Err(PuzzleError::Overflow);
                },
            };
        }
        repeat_seq = repeat_seq + 1;
    }
    Ok(sum)
}

proof fn lemma_big_doubled(s: nat)
    requires
        s >= 10_000_000_000_000_000_000,
    ensures
        doubled(s) > u64::MAX,
{
    lemma_pow10_pos(num_digits(s));
    assert(s * pow10(num_digits(s)) >= s) by (nonlinear_arith)
        requires
            pow10(num_digits(s)) >= 1,
    ;
}

/// The sum, over the first `k` ranges, of their doubled-sequence sums.
pub open spec fn ranges_total(rs: Seq<(u64, u64)>, k: int) -> int
    decreases k,
{
    if k <= 0 {
        0
    } else {
        ranges_total(rs, k - 1) + range_sum(first_half(rs[k - 1].0 as nat), rs[k - 1].0 as int, rs[k - 1].1 as int)
    }
}

/// The answer for a line of comma-separated ranges.
pub open spec fn repeats_answer(s: Seq<char>) -> Result<Seq<char>, PuzzleError> {
    let fs = comma_pieces(s);
    if !(forall|k: int| 0 <= k < fs.len() ==> (#[trigger] range_of(fs[k])) is Some) {
        Err(PuzzleError::Malformed)
    } else {
        let rs = fs.map_values(|f: Seq<char>| range_of(f)->Some_0);
        if ranges_total(rs, rs.len() as int) > u64::MAX {
            Err(PuzzleError::Overflow)
        } else {
            Ok(decimal(ranges_total(rs, rs.len() as int)))
        }
    }
}

proof fn lemma_ranges_total_grows(rs: Seq<(u64, u64)>, i: int, j: int)
    requires
        0 <= i <= j <= rs.len(),
    ensures
        ranges_total(rs, i) <= ranges_total(rs, j),
    decreases j - i,
{
    if i < j {
        lemma_ranges_total_grows(rs, i, j - 1);
        lemma_range_sum_nonneg(first_half(rs[j - 1].0 as nat), rs[j - 1].0 as int, rs[j - 1].1 as int);
    }
}

/// Sums, over comma-separated ranges, the numbers whose digits are some
/// sequence twice over.
#[verifier::rlimit(60)]
pub fn part1(input: &str) -> (r: Result<String, PuzzleError>)
    ensures
        crate::circuits::answers(r, repeats_answer(input@)),
{
    let comma = ",";
    proof {
        reveal_strlit(",");
        assert(comma@ =~= seq![',']);
    }
    let ghost fs = comma_pieces(input@);
    let mut ranges: Vec<RangeInclusive<u64>> = Vec::new();
    let mut rest: &str = input;
    let ghost mut k: int = 0;
    loop
        invariant_except_break
            0 <= k < fs.len(),
            comma_pieces(rest@) == fs.skip(k),
            ranges@.len() == k,
            forall|j: int| 0 <= j < k ==> range_of(#[trigger] fs[j]) is Some && (range_of(fs[j])->Some_0 == (ranges@[j]@.start, ranges@[j]@.end)),
        invariant
            fs == comma_pieces(input@),
            comma@ == seq![','],
        ensures
            ranges@.len() == fs.len(),
            forall|j: int| 0 <= j < fs.len() ==> range_of(#[trigger] fs[j]) is Some && (range_of(fs[j])->Some_0 == (ranges@[j]@.start, ranges@[j]@.end)),
        decreases rest@.len(),
    {
        let ghost pieces = comma_pieces(rest@);
        assert(fs[k] == pieces[0]);
        match split_once_text(rest, comma) {
            Some((field, tail)) => {
                let ghost i = char_find(rest@, 0, seq![',']);
                proof {
                    lemma_char_find(rest@, 0, seq![',']);
                }
                assert(pieces == seq![rest@.subrange(0, i)] + comma_pieces(tail@));
                match parse_range(field) {
                    Ok(r) => {
                        ranges.push(r);
                    },
                    Err(_) => {
                        assert(range_of(fs[k]) is None);
                        return Err(PuzzleError::Malformed);
                    },
                }
                proof {
                    assert(fs.skip(k).skip(1) =~= fs.skip(k + 1));
                    assert(comma_pieces(tail@) =~= fs.skip(k + 1));
                    assert(comma_pieces(tail@).len() >= 1);
                    k = k + 1;
                }
                rest = tail;
            },
            None => {
                proof {
                    lemma_char_find(rest@, 0, seq![',']);
                }
                assert(pieces == seq![rest@]);
                match parse_range(rest) {
                    Ok(r) => {
                        ranges.push(r);
                    },
                    Err(_) => {
                        assert(range_of(fs[k]) is None);
                        return Err(PuzzleError::Malformed);
                    },
                }
                assert(k + 1 == fs.len());
                proof {
                    k = k + 1;
                }
                break;
            },
        }
    }
    let ghost rs = fs.map_values(|f: Seq<char>| range_of(f)->Some_0);
    let mut sum: u64 = 0;
    let mut j: usize = 0;
    while j < ranges.len()
        invariant
            fs == comma_pieces(input@),
            rs == fs.map_values(|f: Seq<char>| range_of(f)->Some_0),
            ranges@.len() == fs.len(),
            forall|q: int| 0 <= q < fs.len() ==> range_of(#[trigger] fs[q]) is Some && (range_of(fs[q])->Some_0 == (ranges@[q]@.start, ranges@[q]@.end)),
            j <= ranges@.len(),
            sum == ranges_total(rs, j as int),
        decreases ranges@.len() - j,
    {
        let r = RangeInclusive::new(*ranges[j].start(), *ranges[j].end());
        assert(rs[j as int] == (r@.start, r@.end));
        proof {
            lemma_range_sum_nonneg(first_half(r@.start as nat), r@.start as int, r@.end as int);
        }
        match process_range_part1(r) {
            Ok(v) => {
                assert(ranges_total(rs, j + 1) == sum + v);
                match sum.checked_add(v) {
                    Some(t) => {
                        sum = t;
                    },
                    None => {
                        proof {
                            lemma_ranges_total_grows(rs, j + 1, rs.len() as int);
                        }
                        return Err(PuzzleError::Overflow);
                    },
                }
            },
            Err(e) => {
                proof {
                    lemma_ranges_total_grows(rs, 0, j as int);
                    lemma_ranges_total_grows(rs, j + 1, rs.len() as int);
                }
                return Err(e);
            },
        }
        j = j + 1;
    }
    Ok(u64_text(sum))
}

/// This puzzle part has no solver.
pub fn part2(input: &str) -> (r: Result<String, PuzzleError>)
    ensures
        r == Err::<String, PuzzleError>(PuzzleError::Unsupported),
{
    Err(PuzzleError::Unsupported)
}

} // verus!
