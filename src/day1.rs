use vstd::prelude::*;
use vstd::string::StringSliceAdditionalSpecFns;

use crate::error::PuzzleError;
use crate::text::{
    char_lines, decimal, parse_i64, signed_value, text_lines, trim_text, u64_text, unicode_trimmed,
};

verus! {

/// The rotation that a trimmed instruction spells: `R` (right, positive) or
/// `L` (left, negative), then an `i32` amount; `None` otherwise, or when the
/// signed amount leaves the `i32` range.
pub open spec fn rotation_of(s: Seq<u8>) -> Option<int> {
    if s.len() >= 1 && (s[0] == 82 || s[0] == 76) {
        match signed_value(s.skip(1)) {
            Some(v) => {
                let signed = if s[0] == 82 {
                    v
                } else {
                    -v
                };
                if i32::MIN <= v <= i32::MAX && i32::MIN <= signed <= i32::MAX {
                    Some(signed)
                } else {
                    None
                }
            },
            None => None,
        }
    } else {
        None
    }
}

/// Reads an instruction that has no surrounding whitespace.
pub fn parse_rotation_trimmed(t: &str) -> (r: Result<i32, PuzzleError>)
    ensures
        match rotation_of(t.spec_bytes()) {
            Some(v) => r == Ok::<i32, PuzzleError>(v as i32),
            None => r == Err::<i32, PuzzleError>(PuzzleError::Malformed),
        },
{
    let b = t.as_bytes();
    assert(b@.subrange(0, b@.len() as int) =~= b@);
    parse_rotation_bytes(b, 0, b.len())
}

/// Reads the instruction in `b[lo..hi]`.
fn parse_rotation_bytes(b: &[u8], lo: usize, hi: usize) -> (r: Result<i32, PuzzleError>)
    requires
        lo <= hi <= b@.len(),
    ensures
        match rotation_of(b@.subrange(lo as int, hi as int)) {
            Some(v) => r == Ok::<i32, PuzzleError>(v as i32),
            None => r == Err::<i32, PuzzleError>(PuzzleError::Malformed),
        },
{
    let ghost s = b@.subrange(lo as int, hi as int);
    if hi - lo < 1 || (b[lo] != 82 && b[lo] != 76) {
        return Err(PuzzleError::Malformed);
    }
    assert(s[0] == b@[lo as int]);
    assert(b@.subrange(lo + 1, hi as int) =~= s.skip(1));
    match parse_i64(b, lo + 1, hi) {
        Some(v) => {
            if v < -2147483648 || v > 2147483647 {
                return Err(PuzzleError::Malformed);
            }
            let signed = if b[lo] == 82 {
                v
            } else {
                -v
            };
            if signed < -2147483648 || signed > 2147483647 {
                return Err(PuzzleError::Malformed);
            }
            Ok(signed as i32)
        },
        None => Err(PuzzleError::Malformed),
    }
}

/// Reads an instruction such as `L30` or `R14`, ignoring surrounding
/// whitespace.
pub fn parse_rot_i32(rot: &str) -> (r: Result<i32, PuzzleError>)
    ensures
        match rotation_of(vstd::utf8::encode_utf8(unicode_trimmed(rot@))) {
            Some(v) => r == Ok::<i32, PuzzleError>(v as i32),
            None => r == Err::<i32, PuzzleError>(PuzzleError::Malformed),
        },
{
    let t = trim_text(rot);
    parse_rotation_trimmed(t)
}

/// The position on a 100-tick dial that `v` ticks from 0 reach.
pub fn wrap100(v: i32) -> (r: i32)
    ensures
        r == v % 100,
{
    let mut v = v;
    let ghost v0 = v as int;
    let ghost mut k: int = 0;
    while v < 0
        invariant
            v == v0 + 100 * k,
            k >= 0,
        decreases 100 - v,
    {
        v = v + 100;
        proof {
            k = k + 1;
        }
    }
    proof {
        assert((v0 + 100 * k) % 100 == v0 % 100) by (nonlinear_arith);
    }
    v % 100
}

/// The dial position that `v` ticks from 0 reach, and how many full turns
/// (past 0) it takes to get there, counting turns backwards too.
pub fn _wrap100_and_count_zeroes(v: i32) -> (r: (i32, u32))
    ensures
        r.0 == v % 100,
        r.1 == if v >= 0 {
            v / 100
        } else {
            (99 - v) / 100
        },
{
    let mut v = v;
    let ghost v0 = v as int;
    let mut zeroes: u32 = 0;
    while v < 0
        invariant
            v == v0 + 100 * zeroes,
            v0 < 0 ==> v < 100,
            v0 >= 0 ==> zeroes == 0 && v == v0,
            zeroes <= 21474837,
            v0 < 0 ==> zeroes * 100 <= -v0 + 99,
            v0 >= i32::MIN,
        decreases 100 - v,
    {
        v = v + 100;
        zeroes = zeroes + 1;
    }
    proof {
        assert((v0 + 100 * zeroes) % 100 == v0 % 100) by (nonlinear_arith);
        if v0 < 0 {
            assert((99 - v0) / 100 == zeroes) by (nonlinear_arith)
                requires
                    v0 + 100 * zeroes == v,
                    0 <= v < 100,
            ;
        }
    }
    let full = (v / 100) as u32;
    zeroes = zeroes + full;
    (v % 100, zeroes)
}

/// How many times a dial at `start` points at 0 while it turns `turn`
/// ticks (right when positive, left when negative), one tick at a time.
pub open spec fn zero_hits(start: int, turn: int) -> int {
    if turn >= 0 {
        (start + turn) / 100
    } else {
        ((100 - start) % 100 - turn) / 100
    }
}

/// Turns a dial at `start` by `turn` ticks; returns where it stops and how
/// many times it pointed at 0 on the way (the stop included).
pub fn turn_wrap_and_count_zeros(start: i32, turn: i32) -> (r: (i32, u32))
    requires
        0 <= start <= 99,
    ensures
        r.0 == (start + turn) % 100,
        r.1 == zero_hits(start as int, turn as int),
{
    let ghost turn0 = turn as int;
    let mut turn = turn;
    if turn == 0 {
        return (start, 0);
    }
    let mut zeroes: u32 = 0;
    let mut dial = start;
    if start != 0 {
        let first_bite = if turn > 0 {
            if 100 - start < turn {
                100 - start
            } else {
                turn
            }
        } else {
            if -start > turn {
                -start
            } else {
                turn
            }
        };
        dial = dial + first_bite;
        turn = turn - first_bite;
        dial = dial % 100;
        if dial == 0 {
            zeroes = zeroes + 1;
        }
    }
    proof {
        assert(dial == 0 || turn == 0);
        assert(0 <= dial < 100);
        assert((dial + turn) % 100 == (start + turn0) % 100);
        assert(zero_hits(start as int, turn0) == zeroes + zero_hits(dial as int, turn as int));
        assert(zeroes <= 1);
    }
    while turn <= -100
        invariant
            dial == 0 || turn == 0,
            0 <= dial < 100,
            turn <= 0 || (dial == 0 && turn0 > 0) || turn0 > 0,
            (dial + turn) % 100 == (start + turn0) % 100,
            zero_hits(start as int, turn0) == zeroes + zero_hits(dial as int, turn as int),
            zeroes + zero_hits(dial as int, turn as int) <= 21474837 + 2,
        decreases -turn,
    {
        turn = turn + 100;
        zeroes = zeroes + 1;
    }
    while turn >= 100
        invariant
            dial == 0 || turn == 0,
            0 <= dial < 100,
            -100 < turn,
            (dial + turn) % 100 == (start + turn0) % 100,
            zero_hits(start as int, turn0) == zeroes + zero_hits(dial as int, turn as int),
            zeroes + zero_hits(dial as int, turn as int) <= 21474837 + 2,
        decreases turn,
    {
        turn = turn - 100;
        zeroes = zeroes + 1;
    }
    dial = dial + turn;
    if dial < 0 {
        dial = dial + 100;
    }
    (dial, zeroes)
}

/// The rotation that a line gives once trimmed of white space.
pub open spec fn line_rotation(l: Seq<char>) -> Option<int> {
    rotation_of(vstd::utf8::encode_utf8(unicode_trimmed(l)))
}

/// The rotations that the lines of `s` give, if every line is one.
pub open spec fn rotations_of(s: Seq<char>) -> Option<Seq<int>> {
    let ls = char_lines(s);
    if forall|k: int| 0 <= k < ls.len() ==> (#[trigger] line_rotation(ls[k])) is Some {
        Some(ls.map_values(|l: Seq<char>| line_rotation(l)->Some_0))
    } else {
        None
    }
}

/// The dial position after the first `k` rotations, starting at 50.
pub open spec fn dial_after(rots: Seq<int>, k: int) -> int
    decreases k,
{
    if k <= 0 {
        50
    } else {
        (dial_after(rots, k - 1) + rots[k - 1]) % 100
    }
}

/// How many of the first `k` rotations stop the dial at 0.
pub open spec fn zero_stops(rots: Seq<int>, k: int) -> int
    decreases k,
{
    if k <= 0 {
        0
    } else {
        zero_stops(rots, k - 1) + if dial_after(rots, k) == 0 {
            1int
        } else {
            0int
        }
    }
}

/// How many times the dial points at 0 during the first `k` rotations.
pub open spec fn zero_passes(rots: Seq<int>, k: int) -> int
    decreases k,
{
    if k <= 0 {
        0
    } else {
        zero_passes(rots, k - 1) + zero_hits(dial_after(rots, k - 1), rots[k - 1])
    }
}

/// Reads one rotation per line.
fn load_rotations(input: &str) -> (r: Result<Vec<i32>, PuzzleError>)
    ensures
        match rotations_of(input@) {
            Some(rots) => r is Ok && r->Ok_0@.len() == rots.len() && forall|k: int|
                0 <= k < rots.len() ==> #[trigger] r->Ok_0@[k] == rots[k],
            None => r == Err::<Vec<i32>, PuzzleError>(PuzzleError::Malformed),
        },
{
    let lines = text_lines(input);
    let ghost ls = char_lines(input@);
    let mut rots: Vec<i32> = Vec::new();
    let mut k: usize = 0;
    while k < lines.len()
        invariant
            ls == char_lines(input@),
            lines@.len() == ls.len(),
            forall|j: int| 0 <= j < lines@.len() ==> (#[trigger] lines@[j])@ == ls[j],
            k <= ls.len(),
            rots@.len() == k,
            forall|j: int| 0 <= j < k ==> line_rotation(#[trigger] ls[j]) == Some(rots@[j] as int),
        decreases ls.len() - k,
    {
        let t = trim_text(lines[k]);
        assert(lines@[k as int]@ == ls[k as int]);
        match parse_rotation_trimmed(t) {
            Ok(v) => {
                rots.push(v);
            },
            Err(e) => {
                assert(line_rotation(ls[k as int]) is None);
                return Err(e);
            },
        }
        k = k + 1;
    }
    Ok(rots)
}

/// Turns a dial that starts at 50 by each line's rotation and counts the
/// rotations that stop it at 0.
pub fn part1(input: &str) -> (r: Result<String, PuzzleError>)
    ensures
        match rotations_of(input@) {
            Some(rots) => r is Ok && r->Ok_0@ == decimal(zero_stops(rots, rots.len() as int)),
            None => r == Err::<String, PuzzleError>(PuzzleError::Malformed),
        },
{
    let rots = load_rotations(input)?;
    let ghost rs = rotations_of(input@)->Some_0;
    assert(rotations_of(input@) is Some);
    let mut dial: i32 = 50;
    let mut zero_counter: u64 = 0;
    let mut k: usize = 0;
    while k < rots.len()
        invariant
            rotations_of(input@) == Some(rs),
            rs.len() == rots@.len(),
            forall|j: int| 0 <= j < rs.len() ==> #[trigger] rots@[j] == rs[j],
            k <= rots@.len(),
            dial == dial_after(rs, k as int),
            0 <= dial < 100,
            zero_counter == zero_stops(rs, k as int),
            zero_counter <= k,
        decreases rots@.len() - k,
    {
        let i = rots[k];
        proof {
            assert((dial + i) % 100 == (dial + i % 100) % 100) by (nonlinear_arith);
        }
        dial = wrap100(dial + i % 100);
        if dial == 0 {
            zero_counter = zero_counter + 1;
        }
        k = k + 1;
    }
    Ok(u64_text(zero_counter))
}

/// Turns a dial that starts at 50 by each line's rotation and counts every
/// time it points at 0, during a rotation or at its end.
pub fn part2(input: &str) -> (r: Result<String, PuzzleError>)
    ensures
        match rotations_of(input@) {
            Some(rots) => if zero_passes(rots, rots.len() as int) <= u64::MAX {
                r is Ok && r->Ok_0@ == decimal(zero_passes(rots, rots.len() as int))
            } else {
                r == Err::<String, PuzzleError>(PuzzleError::Overflow)
            },
            None => r == Err::<String, PuzzleError>(PuzzleError::Malformed),
        },
{
    let rots = load_rotations(input)?;
    let ghost rs = rotations_of(input@)->Some_0;
    assert(rotations_of(input@) is Some);
    let mut dial: i32 = 50;
    let mut zero_counter: u64 = 0;
    let mut k: usize = 0;
    while k < rots.len()
        invariant
            rotations_of(input@) == Some(rs),
            rs.len() == rots@.len(),
            forall|j: int| 0 <= j < rs.len() ==> #[trigger] rots@[j] == rs[j],
            k <= rots@.len(),
            dial == dial_after(rs, k as int),
            0 <= dial < 100,
            zero_counter == zero_passes(rs, k as int),
        decreases rots@.len() - k,
    {
        let (d, z) = turn_wrap_and_count_zeros(dial, rots[k]);
        match zero_counter.checked_add(z as u64) {
            Some(sum) => {
                zero_counter = sum;
            },
            None => {
                proof {
                    assert(zero_passes(rs, k + 1) == zero_counter + z);
                    lemma_zero_passes_grow(rs, k + 1, rs.len() as int);
                    assert(zero_passes(rs, rs.len() as int) > u64::MAX);
                    assert(rotations_of(input@) == Some(rs));
                }
                return Err(PuzzleError::Overflow);
            },
        }
        dial = d;
        k = k + 1;
    }
    Ok(u64_text(zero_counter))
}

proof fn lemma_zero_passes_grow(rots: Seq<int>, i: int, j: int)
    requires
        0 <= i <= j <= rots.len(),
    ensures
        zero_passes(rots, i) <= zero_passes(rots, j),
    decreases j - i,
{
    if i < j {
        lemma_zero_passes_grow(rots, i, j - 1);
        let d = dial_after(rots, j - 1);
        let t = rots[j - 1];
        assert(zero_hits(d, t) >= 0) by {
            if j - 1 > 0 {
                assert(0 <= d < 100);
            } else {
                assert(d == 50);
            }
        }
    }
}

} // verus!
