use vstd::prelude::*;
use vstd::string::StringSliceAdditionalSpecFns;

use crate::error::PuzzleError;
use crate::text::{decimal, is_digit, line_ranges, lines_of, u64_text};

verus! {

/// `10` to the power `e`.
pub open spec fn pow10(e: nat) -> int
    decreases e,
{
    if e == 0 {
        1
    } else {
        10 * pow10((e - 1) as nat)
    }
}

/// The position of the leftmost largest digit of `bank[start..end]`.
pub open spec fn leftmost_max(bank: Seq<u32>, start: int, end: int) -> int
    decreases end - start,
{
    if end - start <= 1 {
        start
    } else {
        let best = leftmost_max(bank, start, end - 1);
        if bank[end - 1] > bank[best] {
            end - 1
        } else {
            best
        }
    }
}

/// The greedy choice of digits, most significant first: for each of the
/// places `i` down to 0, the leftmost largest digit that still leaves room
/// for the remaining places; returns the value so far and where the next
/// choice starts.
pub open spec fn greedy(bank: Seq<u32>, digits: nat, k: nat) -> (int, int)
    decreases k,
{
    if k == 0 {
        (0, 0)
    } else {
        let (acc, start) = greedy(bank, digits, (k - 1) as nat);
        let i = digits - k;
        let at = leftmost_max(bank, start, bank.len() - i);
        (acc + pow10(i as nat) * bank[at], at + 1)
    }
}

proof fn lemma_leftmost_max(bank: Seq<u32>, start: int, end: int)
    requires
        0 <= start < end <= bank.len(),
    ensures
        start <= leftmost_max(bank, start, end) < end,
    decreases end - start,
{
    if end - start > 1 {
        lemma_leftmost_max(bank, start, end - 1);
    }
}

proof fn lemma_greedy_bounds(bank: Seq<u32>, digits: nat, k: nat)
    requires
        k <= digits <= bank.len(),
        forall|j: int| 0 <= j < bank.len() ==> bank[j] <= 9,
    ensures
        0 <= greedy(bank, digits, k).0 <= (pow10(digits) - pow10((digits - k) as nat)),
        k <= greedy(bank, digits, k).1 <= bank.len() - (digits - k),
    decreases k,
{
    if k > 0 {
        lemma_greedy_bounds(bank, digits, (k - 1) as nat);
        let (acc, start) = greedy(bank, digits, (k - 1) as nat);
        let i = digits - k;
        lemma_leftmost_max(bank, start, bank.len() - i);
        let at = leftmost_max(bank, start, bank.len() - i);
        assert(pow10((i + 1) as nat) == 10 * pow10(i as nat));
        lemma_pow10_pos(i as nat);
        assert(pow10(i as nat) * bank[at] <= 9 * pow10(i as nat)) by (nonlinear_arith)
            requires
                bank[at] <= 9,
                pow10(i as nat) > 0,
        ;
    }
}

proof fn lemma_pow10_pos(e: nat)
    ensures
        pow10(e) >= 1,
    decreases e,
{
    if e > 0 {
        lemma_pow10_pos((e - 1) as nat);
    }
}

proof fn lemma_pow10_mono(a: nat, b: nat)
    requires
        a <= b,
    ensures
        pow10(a) <= pow10(b),
    decreases b,
{
    if a < b {
        lemma_pow10_mono(a, (b - 1) as nat);
        lemma_pow10_pos((b - 1) as nat);
    }
}

proof fn lemma_pow10_le(e: nat)
    requires
        e <= 19,
    ensures
        pow10(e) <= 10_000_000_000_000_000_000,
{
    lemma_pow10_mono(e, 19);
    reveal_with_fuel(pow10, 20);
}

/// The largest number of `digits` digits that keeps their order in the
/// bank, chosen greedily (see `greedy`).
pub fn process_bank_part2(bank: &[u32], digits: u32) -> (r: u64)
    requires
        digits <= bank@.len(),
        digits <= 19,
        forall|j: int| 0 <= j < bank@.len() ==> bank@[j] <= 9,
    ensures
        r == greedy(bank@, digits as nat, digits as nat).0,
{
    let mut accumulator: u64 = 0;
    let mut starting_index: usize = 0;
    let mut k: u32 = 0;
    let mut power: u64 = 1;
    let mut p: u32 = 0;
    while p + 1 < digits
        invariant
            p + 1 <= digits || digits == 0,
            digits <= 19,
            power == pow10(p as nat),
            p <= 18,
        decreases digits - p,
    {
        proof {
            lemma_pow10_le((p + 1) as nat);
        }
        power = power * 10;
        p = p + 1;
    }
    while k < digits
        invariant
            k <= digits <= bank@.len(),
            digits <= 19,
            forall|j: int| 0 <= j < bank@.len() ==> bank@[j] <= 9,
            (accumulator as int, starting_index as int) == greedy(bank@, digits as nat, k as nat),
            k < digits ==> power == pow10((digits - k - 1) as nat),
        decreases digits - k,
    {
        let i = digits - k - 1;
        proof {
            lemma_greedy_bounds(bank@, digits as nat, k as nat);
            lemma_greedy_bounds(bank@, digits as nat, (k + 1) as nat);
            lemma_leftmost_max(bank@, starting_index as int, bank@.len() - i);
        }
        let max_index = bank.len() - (i as usize);
        let mut best = starting_index;
        let mut j = starting_index + 1;
        while j < max_index
            invariant
                starting_index < max_index <= bank@.len(),
                starting_index < j <= max_index,
                starting_index <= best < j,
                best == leftmost_max(bank@, starting_index as int, j as int),
            decreases max_index - j,
        {
            if bank[j] > bank[best] {
                best = j;
            }
            j = j + 1;
        }
        let digit = bank[best] as u64;
        proof {
            lemma_pow10_le((digits - 1) as nat);
            lemma_pow10_pos((digits - k - 1) as nat);
            assert(greedy(bank@, digits as nat, (k + 1) as nat).0 == accumulator + power * digit);
            assert(pow10(digits as nat) <= 10_000_000_000_000_000_000) by {
                lemma_pow10_le(digits as nat);
            }
            assert(0 <= power * digit) by (nonlinear_arith)
                requires
                    power >= 0,
                    digit >= 0,
            ;
        }
        accumulator = accumulator + power * digit;
        starting_index = best + 1;
        if i > 0 {
            power = power / 10;
        }
        k = k + 1;
    }
    accumulator
}

/// The largest two-digit number that keeps the order of the bank's digits.
pub fn process_bank_part1(bank: &[u32]) -> (r: u64)
    requires
        2 <= bank@.len(),
        forall|j: int| 0 <= j < bank@.len() ==> bank@[j] <= 9,
    ensures
        r == greedy(bank@, 2, 2).0,
{
    process_bank_part2(bank, 2)
}

/// The digits of a line, if every byte of it is a decimal digit.
pub open spec fn bank_of(s: Seq<u8>) -> Option<Seq<u32>> {
    if forall|j: int| 0 <= j < s.len() ==> is_digit(#[trigger] s[j]) {
        Some(s.map_values(|b: u8| (b - 48) as u32))
    } else {
        None
    }
}

/// Replaces the contents of `dest` with the digits of `line`.
pub fn load_bank(dest: &mut Vec<u32>, line: &[u8]) -> (ok: bool)
    ensures
        ok == bank_of(line@) is Some,
        ok ==> final(dest)@ == bank_of(line@)->Some_0,
{
    dest.clear();
    let mut i: usize = 0;
    while i < line.len()
        invariant
            i <= line@.len(),
            forall|j: int| 0 <= j < i ==> is_digit(#[trigger] line@[j]),
            dest@ == line@.take(i as int).map_values(|b: u8| (b - 48) as u32),
        decreases line@.len() - i,
    {
        let c = line[i];
        if c < 48 || c > 57 {
            return false;
        }
        dest.push((c - 48) as u32);
        assert(dest@ =~= line@.take(i + 1).map_values(|b: u8| (b - 48) as u32));
        i = i + 1;
    }
    assert(line@.take(i as int) =~= line@);
    true
}

/// The banks of the input, one per line, if every line is all digits.
pub open spec fn banks_of(s: Seq<u8>) -> Option<Seq<Seq<u32>>> {
    let ls = lines_of(s);
    if forall|k: int| 0 <= k < ls.len() ==> (#[trigger] bank_of(ls[k])) is Some {
        Some(ls.map_values(|l: Seq<u8>| bank_of(l)->Some_0))
    } else {
        None
    }
}

/// The sum of the greedy `digits`-digit numbers of the first `k` banks.
pub open spec fn joltage_sum(banks: Seq<Seq<u32>>, digits: nat, k: int) -> int
    decreases k,
{
    if k <= 0 {
        0
    } else {
        joltage_sum(banks, digits, k - 1) + greedy(banks[k - 1], digits, digits).0
    }
}

/// The answer for the banks: the sum of their greedy numbers, when every
/// bank has enough digits and the sum fits in a `u64`.
pub open spec fn joltage_answer(s: Seq<u8>, digits: nat) -> Result<Seq<char>, PuzzleError> {
    match banks_of(s) {
        None => Err(PuzzleError::Malformed),
        Some(banks) => if exists|k: int| 0 <= k < banks.len() && (#[trigger] banks[k]).len() < digits {
            Err(PuzzleError::TooFewItems)
        } else if joltage_sum(banks, digits, banks.len() as int) > u64::MAX {
            Err(PuzzleError::Overflow)
        } else {
            Ok(decimal(joltage_sum(banks, digits, banks.len() as int)))
        },
    }
}

proof fn lemma_joltage_grows(banks: Seq<Seq<u32>>, digits: nat, i: int, j: int)
    requires
        0 <= i <= j <= banks.len(),
        forall|k: int| 0 <= k < banks.len() ==> (#[trigger] banks[k]).len() >= digits,
        forall|k: int, q: int| 0 <= k < banks.len() && 0 <= q < banks[k].len() ==> #[trigger] banks[k][q] <= 9,
    ensures
        joltage_sum(banks, digits, i) <= joltage_sum(banks, digits, j),
    decreases j - i,
{
    if i < j {
        lemma_joltage_grows(banks, digits, i, j - 1);
        lemma_greedy_bounds(banks[j - 1], digits, digits);
    }
}

/// Sums, over the lines, the largest `digits`-digit number that keeps the
/// order of the line's digits.
fn bank_sum(input: &str, digits: u32) -> (r: Result<String, PuzzleError>)
    requires
        digits <= 19,
    ensures
        crate::circuits::answers(r, joltage_answer(input.spec_bytes(), digits as nat)),
{
    let b = input.as_bytes();
    let spans = line_ranges(b);
    let ghost ls = lines_of(b@);
    let mut banks: Vec<Vec<u32>> = Vec::new();
    let mut k: usize = 0;
    while k < spans.len()
        invariant
            b@ == input.spec_bytes(),
            ls == lines_of(b@),
            spans@.len() == ls.len(),
            forall|j: int|
                0 <= j < spans@.len() ==> (#[trigger] spans@[j]).0 <= spans@[j].1 <= b@.len()
                    && ls[j] == b@.subrange(spans@[j].0 as int, spans@[j].1 as int),
            k <= ls.len(),
            banks@.len() == k,
            forall|j: int| 0 <= j < k ==> bank_of(#[trigger] ls[j]) == Some(banks@[j]@),
        decreases ls.len() - k,
    {
        let line = vstd::slice::slice_subrange(b, spans[k].0, spans[k].1);
        let mut working_bank: Vec<u32> = Vec::new();
        if !load_bank(&mut working_bank, line) {
            assert(banks_of(b@) is None);
            return Err(PuzzleError::Malformed);
        }
        banks.push(working_bank);
        k = k + 1;
    }
    let ghost bs = ls.map_values(|l: Seq<u8>| bank_of(l)->Some_0);
    assert(banks_of(b@) == Some(bs));
    let mut k: usize = 0;
    while k < banks.len()
        invariant
            banks_of(input.spec_bytes()) == Some(bs),
            banks@.len() == bs.len(),
            forall|j: int| 0 <= j < bs.len() ==> #[trigger] banks@[j]@ == bs[j],
            k <= bs.len(),
            forall|j: int| 0 <= j < k ==> (#[trigger] bs[j]).len() >= digits,
        decreases bs.len() - k,
    {
        if banks[k].len() < digits as usize {
            assert(bs[k as int].len() < digits);
            return Err(PuzzleError::TooFewItems);
        }
        k = k + 1;
    }
    proof {
        assert forall|j: int, q: int| 0 <= j < bs.len() && 0 <= q < bs[j].len() implies #[trigger] bs[j][q] <= 9 by {
            assert(bank_of(ls[j]) is Some);
            assert(is_digit(ls[j][q]));
        }
    }
    let mut sum: u64 = 0;
    let mut k: usize = 0;
    while k < banks.len()
        invariant
            banks_of(input.spec_bytes()) == Some(bs),
            banks@.len() == bs.len(),
            forall|j: int| 0 <= j < bs.len() ==> #[trigger] banks@[j]@ == bs[j],
            forall|j: int| 0 <= j < bs.len() ==> (#[trigger] bs[j]).len() >= digits,
            forall|j: int, q: int| 0 <= j < bs.len() && 0 <= q < bs[j].len() ==> #[trigger] bs[j][q] <= 9,
            digits <= 19,
            k <= bs.len(),
            sum == joltage_sum(bs, digits as nat, k as int),
        decreases bs.len() - k,
    {
        let v = process_bank_part2(banks[k].as_slice(), digits);
        match sum.checked_add(v) {
            Some(t) => {
                sum = t;
            },
            None => {
                proof {
                    lemma_joltage_grows(bs, digits as nat, k + 1, bs.len() as int);
                    assert(joltage_sum(bs, digits as nat, k + 1) == sum + v);
                }
                return Err(PuzzleError::Overflow);
            },
        }
        k = k + 1;
    }
    Ok(u64_text(sum))
}

/// Sums the largest two-digit number of each bank.
pub fn part1(input: &str) -> (r: Result<String, PuzzleError>)
    ensures
        crate::circuits::answers(r, joltage_answer(input.spec_bytes(), 2)),
{
    bank_sum(input, 2)
}

/// Sums the largest twelve-digit number of each bank.
pub fn part2(input: &str) -> (r: Result<String, PuzzleError>)
    ensures
        crate::circuits::answers(r, joltage_answer(input.spec_bytes(), 12)),
{
    bank_sum(input, 12)
}

} // verus!
