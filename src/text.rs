use vstd::prelude::*;

verus! {

pub open spec fn is_digit(b: u8) -> bool {
    48 <= b <= 57
}

/// A non-empty run of ASCII decimal digits.
pub open spec fn all_digits(s: Seq<u8>) -> bool {
    s.len() > 0 && forall|i: int| 0 <= i < s.len() ==> is_digit(#[trigger] s[i])
}

/// The number that a run of decimal digits spells.
pub open spec fn dec_value(s: Seq<u8>) -> int
    decreases s.len(),
{
    if s.len() == 0 {
        0
    } else {
        dec_value(s.drop_last()) * 10 + (s.last() - 48)
    }
}

/// The integer that `s` spells as an optionally signed decimal, unbounded.
pub open spec fn signed_value(s: Seq<u8>) -> Option<int> {
    if s.len() > 0 && s[0] == 45 && all_digits(s.skip(1)) {
        Some(-dec_value(s.skip(1)))
    } else if s.len() > 0 && s[0] == 43 && all_digits(s.skip(1)) {
        Some(dec_value(s.skip(1)))
    } else if all_digits(s) {
        Some(dec_value(s))
    } else {
        None
    }
}

/// What parsing `s` as an `i64` gives: a value in range, or nothing.
pub open spec fn i64_of(s: Seq<u8>) -> Option<i64> {
    match signed_value(s) {
        Some(v) => if i64::MIN <= v <= i64::MAX {
            Some(v as i64)
        } else {
            None
        },
        None => None,
    }
}

/// What parsing `s` as a `u64` gives: an optional `+`, then digits, in range.
pub open spec fn u64_of(s: Seq<u8>) -> Option<u64> {
    let body = if s.len() > 0 && s[0] == 43 {
        s.skip(1)
    } else {
        s
    };
    if all_digits(body) && dec_value(body) <= u64::MAX {
        Some(dec_value(body) as u64)
    } else {
        None
    }
}

proof fn lemma_dec_value_nonneg(s: Seq<u8>)
    requires
        forall|i: int| 0 <= i < s.len() ==> is_digit(#[trigger] s[i]),
    ensures
        dec_value(s) >= 0,
    decreases s.len(),
{
    if s.len() > 0 {
        lemma_dec_value_nonneg(s.drop_last());
    }
}

/// The value of the digits in `b[lo..hi]`, when they are all digits, there is
/// at least one, and the value fits in a `u64`.
fn digits_value(b: &[u8], lo: usize, hi: usize) -> (r: Option<u64>)
    requires
        lo <= hi <= b@.len(),
    ensures
        r == (if all_digits(b@.subrange(lo as int, hi as int)) && dec_value(
            b@.subrange(lo as int, hi as int),
        ) <= u64::MAX {
            Some(dec_value(b@.subrange(lo as int, hi as int)) as u64)
        } else {
            None
        }),
        all_digits(b@.subrange(lo as int, hi as int)) ==> dec_value(
            b@.subrange(lo as int, hi as int),
        ) >= 0,
{
    let ghost s = b@.subrange(lo as int, hi as int);
    proof {
        if all_digits(s) {
            lemma_dec_value_nonneg(s);
        }
    }
    if lo == hi {
        return None;
    }
    let mut acc: u64 = 0;
    let mut big = false;
    let mut i: usize = lo;
    while i < hi
        invariant
            lo <= i <= hi <= b@.len(),
            s == b@.subrange(lo as int, hi as int),
            forall|k: int| lo <= k < i ==> is_digit(#[trigger] b@[k]),
            !big ==> acc == dec_value(b@.subrange(lo as int, i as int)),
            big ==> dec_value(b@.subrange(lo as int, i as int)) > u64::MAX,
        decreases hi - i,
    {
        let c = b[i];
        if c < 48 || c > 57 {
            assert(!is_digit(s[i - lo]));
            return None;
        }
        let ghost prev = b@.subrange(lo as int, i as int);
        let ghost next = b@.subrange(lo as int, i + 1);
        assert(next.drop_last() =~= prev);
        proof {
            lemma_dec_value_nonneg(prev);
        }
        let d = (c - 48) as u64;
        if !big {
            if acc > (u64::MAX - d) / 10 {
                assert(dec_value(next) > u64::MAX) by (nonlinear_arith)
                    requires
                        dec_value(next) == acc * 10 + d,
                        acc > (u64::MAX - d) / 10,
                        0 <= d <= 9,
                ;
                big = true;
            } else {
                assert(acc * 10 + d <= u64::MAX) by (nonlinear_arith)
                    requires
                        acc <= (u64::MAX - d) / 10,
                        0 <= d <= 9,
                ;
                acc = acc * 10 + d;
            }
        }
        i = i + 1;
    }
    assert(b@.subrange(lo as int, i as int) =~= s);
    if big {
        None
    } else {
        Some(acc)
    }
}

/// Parses `b[lo..hi]` as an `i64`: an optional sign, then decimal digits.
pub fn parse_i64(b: &[u8], lo: usize, hi: usize) -> (r: Option<i64>)
    requires
        lo <= hi <= b@.len(),
    ensures
        r == i64_of(b@.subrange(lo as int, hi as int)),
{
    let ghost s = b@.subrange(lo as int, hi as int);
    if lo < hi && (b[lo] == 45 || b[lo] == 43) {
        let neg = b[lo] == 45;
        let lo1 = lo + 1;
        assert(b@.subrange(lo1 as int, hi as int) =~= s.skip(1));
        assert(s[0] == b@[lo as int]);
        assert(!is_digit(s[0]));
        match digits_value(b, lo1, hi) {
            Some(m) => {
                assert(all_digits(s.skip(1)) && dec_value(s.skip(1)) == m);
                if neg {
                    assert(signed_value(s) == Some(-(m as int)));
                    if m <= 0x8000_0000_0000_0000 {
                        Some((0i128 - m as i128) as i64)
                    } else {
                        None
                    }
                } else if m <= 0x7fff_ffff_ffff_ffff {
                    assert(signed_value(s) == Some(m as int));
                    Some(m as i64)
                } else {
                    None
                }
            },
            None => {
                proof {
                    if all_digits(s.skip(1)) {
                        assert(dec_value(s.skip(1)) > u64::MAX);
                    }
                }
                None
            },
        }
    } else {
        proof {
            if s.len() > 0 {
                assert(s[0] == b@[lo as int]);
            }
        }
        match digits_value(b, lo, hi) {
            Some(m) => {
                if m <= 0x7fff_ffff_ffff_ffff {
                    Some(m as i64)
                } else {
                    None
                }
            },
            None => None,
        }
    }
}

/// Parses `b[lo..hi]` as a `u64`: an optional `+`, then decimal digits.
pub fn parse_u64(b: &[u8], lo: usize, hi: usize) -> (r: Option<u64>)
    requires
        lo <= hi <= b@.len(),
    ensures
        r == u64_of(b@.subrange(lo as int, hi as int)),
{
    let ghost s = b@.subrange(lo as int, hi as int);
    if lo < hi && b[lo] == 43 {
        assert(b@.subrange(lo + 1, hi as int) =~= s.skip(1));
        digits_value(b, lo + 1, hi)
    } else {
        proof {
            if s.len() > 0 {
                assert(s[0] == b@[lo as int]);
            }
        }
        digits_value(b, lo, hi)
    }
}

/// The first index at or after `start` that holds `sep`, or the length.
pub open spec fn find_from(s: Seq<u8>, start: int, sep: u8) -> int
    decreases s.len() - start,
{
    if start >= s.len() {
        s.len() as int
    } else if s[start] == sep {
        start
    } else {
        find_from(s, start + 1, sep)
    }
}

pub proof fn lemma_find_from_bounds(s: Seq<u8>, start: int, sep: u8)
    requires
        0 <= start <= s.len(),
    ensures
        start <= find_from(s, start, sep) <= s.len(),
        forall|k: int| start <= k < find_from(s, start, sep) ==> s[k] != sep,
        find_from(s, start, sep) < s.len() ==> s[find_from(s, start, sep)] == sep,
    decreases s.len() - start,
{
    if start < s.len() && s[start] != sep {
        lemma_find_from_bounds(s, start + 1, sep);
    }
}

/// The first index at or after `start` that holds `sep`, or the length.
pub fn find_byte(b: &[u8], start: usize, sep: u8) -> (r: usize)
    requires
        start <= b@.len(),
    ensures
        r == find_from(b@, start as int, sep),
        start <= r <= b@.len(),
{
    proof {
        lemma_find_from_bounds(b@, start as int, sep);
    }
    let mut i = start;
    while i < b.len() && b[i] != sep
        invariant
            start <= i <= b@.len(),
            find_from(b@, i as int, sep) == find_from(b@, start as int, sep),
        decreases b@.len() - i,
    {
        i = i + 1;
    }
    i
}

/// Field `k` of the `sep`-separated fields of `s` that start at `start`; a
/// field past the last one is empty.
pub open spec fn field(s: Seq<u8>, start: int, k: nat, sep: u8) -> Seq<u8>
    decreases k,
{
    let e = find_from(s, start, sep);
    if k == 0 {
        s.subrange(start, e)
    } else if e >= s.len() {
        Seq::empty()
    } else {
        field(s, e + 1, (k - 1) as nat, sep)
    }
}

/// Whether a separator follows field `k` of the fields that start at
/// `start`, that is, whether there are more than `k + 1` fields.
pub open spec fn fields_beyond(s: Seq<u8>, start: int, k: nat, sep: u8) -> bool
    decreases k,
{
    let e = find_from(s, start, sep);
    if e >= s.len() {
        false
    } else if k == 0 {
        true
    } else {
        fields_beyond(s, e + 1, (k - 1) as nat, sep)
    }
}

/// The span of the field that starts at `start`, and where the next one
/// starts (the length, when there is none).
pub fn field_span(b: &[u8], start: usize, sep: u8) -> (r: (usize, usize))
    requires
        start <= b@.len(),
    ensures
        r.0 == find_from(b@, start as int, sep),
        start <= r.0 <= r.1 <= b@.len(),
        r.0 < b@.len() ==> r.1 == r.0 + 1,
        r.0 >= b@.len() ==> r.1 == b@.len(),
{
    let e = find_byte(b, start, sep);
    if e < b.len() {
        (e, e + 1)
    } else {
        (e, e)
    }
}

/// The spans `(start, end)` of the lines of `s` from byte `start` on, as
/// `str::lines` splits them: at each newline, with a carriage return before
/// it dropped, and no empty line after a final newline.
pub open spec fn line_spans_from(s: Seq<u8>, start: int) -> Seq<(int, int)>
    decreases s.len() - start,
{
    if start < 0 || start >= s.len() {
        Seq::empty()
    } else {
        let nl = find_from(s, start, 10);
        let end = if nl < s.len() && nl > start && s[nl - 1] == 13 {
            nl - 1
        } else {
            nl
        };
        if nl < start || nl >= s.len() {
            seq![(start, end)]
        } else {
            seq![(start, end)] + line_spans_from(s, nl + 1)
        }
    }
}

/// The spans of all lines of `s`.
pub open spec fn line_spans(s: Seq<u8>) -> Seq<(int, int)> {
    line_spans_from(s, 0)
}

/// The lines of `s`, as `str::lines` gives them.
pub open spec fn lines_of(s: Seq<u8>) -> Seq<Seq<u8>> {
    line_spans(s).map_values(|p: (int, int)| s.subrange(p.0, p.1))
}

proof fn lemma_line_spans_bounds(s: Seq<u8>, start: int)
    requires
        0 <= start,
    ensures
        forall|k: int|
            0 <= k < line_spans_from(s, start).len() ==> start <= (#[trigger] line_spans_from(
                s,
                start,
            )[k]).0 <= line_spans_from(s, start)[k].1 <= s.len(),
    decreases s.len() - start,
{
    if start < s.len() {
        lemma_find_from_bounds(s, start, 10);
        let nl = find_from(s, start, 10);
        let end = if nl < s.len() && nl > start && s[nl - 1] == 13 {
            nl - 1
        } else {
            nl
        };
        if nl < s.len() {
            lemma_line_spans_bounds(s, nl + 1);
            let rest = line_spans_from(s, nl + 1);
            assert(line_spans_from(s, start) =~= seq![(start, end)] + rest);
            assert forall|k: int| 0 <= k < line_spans_from(s, start).len() implies start <= (
            #[trigger] line_spans_from(s, start)[k]).0 <= line_spans_from(s, start)[k].1
                <= s.len() by {
                if k > 0 {
                    assert(line_spans_from(s, start)[k] == rest[k - 1]);
                }
            }
        }
    }
}

/// The spans of the lines of `b`, one `(start, end)` pair per line.
pub fn line_ranges(b: &[u8]) -> (r: Vec<(usize, usize)>)
    ensures
        r@.len() == line_spans(b@).len(),
        forall|k: int|
            0 <= k < r@.len() ==> (#[trigger] r@[k]).0 == line_spans(b@)[k].0 && r@[k].1
                == line_spans(b@)[k].1,
        forall|k: int| 0 <= k < r@.len() ==> (#[trigger] r@[k]).0 <= r@[k].1 <= b@.len(),
        r@.len() == lines_of(b@).len(),
        forall|k: int|
            0 <= k < r@.len() ==> lines_of(b@)[k] == b@.subrange(
                (#[trigger] r@[k]).0 as int,
                r@[k].1 as int,
            ),
{
    proof {
        lemma_line_spans_bounds(b@, 0);
    }
    let mut r: Vec<(usize, usize)> = Vec::new();
    let mut pos: usize = 0;
    while pos < b.len()
        invariant
            pos <= b@.len(),
            r@.len() + line_spans_from(b@, pos as int).len() == line_spans(b@).len(),
            forall|k: int|
                0 <= k < r@.len() ==> (#[trigger] r@[k]).0 == line_spans(b@)[k].0 && r@[k].1
                    == line_spans(b@)[k].1,
            forall|k: int| 0 <= k < r@.len() ==> (#[trigger] r@[k]).0 <= r@[k].1 <= b@.len(),
            forall|k: int|
                0 <= k < line_spans_from(b@, pos as int).len() ==> #[trigger] line_spans_from(
                    b@,
                    pos as int,
                )[k] == line_spans(b@)[r@.len() + k],
        decreases b@.len() + 1 - pos,
    {
        let nl = find_byte(b, pos, 10);
        proof {
            lemma_find_from_bounds(b@, pos as int, 10);
        }
        let end = if nl < b.len() && nl > pos && b[nl - 1] == 13 {
            nl - 1
        } else {
            nl
        };
        let ghost tail = line_spans_from(b@, pos as int);
        assert(tail[0] == (pos as int, end as int));
        assert(pos <= end <= b@.len());
        if nl < b.len() {
            assert(tail =~= seq![(pos as int, end as int)] + line_spans_from(b@, nl + 1));
            assert forall|k: int|
                0 <= k < line_spans_from(b@, nl + 1).len() implies #[trigger] line_spans_from(
                b@,
                nl + 1,
            )[k] == line_spans(b@)[r@.len() + 1 + k] by {
                assert(line_spans_from(b@, nl + 1)[k] == tail[k + 1]);
            }
        }
        r.push((pos, end));
        if nl >= b.len() {
            proof {
                assert(tail =~= seq![(pos as int, end as int)]);
            }
            return r;
        }
        pos = nl + 1;
    }
    assert(line_spans_from(b@, pos as int).len() == 0);
    r
}

/// The decimal digits of a non-negative integer, most significant first.
pub open spec fn digit_chars(n: nat) -> Seq<char>
    decreases n,
{
    if n < 10 {
        seq![(n + 48) as char]
    } else {
        digit_chars(n / 10).push(((n % 10) + 48) as char)
    }
}

/// How an integer is written in decimal: a `-` before a negative one, no
/// leading zeros.
pub open spec fn decimal(n: int) -> Seq<char> {
    if n < 0 {
        seq!['-'] + digit_chars((-n) as nat)
    } else {
        digit_chars(n as nat)
    }
}

/// The one-character text of a decimal digit.
fn digit_text(d: u128) -> (r: &'static str)
    requires
        d < 10,
    ensures
        r@ == seq![(d + 48) as char],
{
    proof {
        reveal_strlit("0");
        reveal_strlit("1");
        reveal_strlit("2");
        reveal_strlit("3");
        reveal_strlit("4");
        reveal_strlit("5");
        reveal_strlit("6");
        reveal_strlit("7");
        reveal_strlit("8");
        reveal_strlit("9");
    }
    let r = if d == 0 {
        "0"
    } else if d == 1 {
        "1"
    } else if d == 2 {
        "2"
    } else if d == 3 {
        "3"
    } else if d == 4 {
        "4"
    } else if d == 5 {
        "5"
    } else if d == 6 {
        "6"
    } else if d == 7 {
        "7"
    } else if d == 8 {
        "8"
    } else {
        "9"
    };
    assert(r@ =~= seq![(d + 48) as char]);
    r
}

/// Appends the decimal digits of `n` to `s`.
fn write_digits(s: &mut String, n: u128)
    ensures
        final(s)@ == old(s)@ + digit_chars(n as nat),
    decreases n,
{
    if n >= 10 {
        write_digits(s, n / 10);
    }
    s.append(digit_text(n % 10));
    proof {
        if n >= 10 {
            assert(s@ =~= old(s)@ + digit_chars(n as nat));
        } else {
            assert(s@ =~= old(s)@ + digit_chars(n as nat));
        }
    }
}

/// `n` in decimal digits.
pub fn u64_text(n: u64) -> (r: String)
    ensures
        r@ == decimal(n as int),
{
    let mut s = String::new();
    write_digits(&mut s, n as u128);
    assert(s@ =~= digit_chars(n as nat));
    s
}

/// `n` in decimal digits, after a `-` when negative.
pub fn i128_text(n: i128) -> (r: String)
    ensures
        r@ == decimal(n as int),
{
    let mut s = String::new();
    if n < 0 {
        proof {
            reveal_strlit("-");
        }
        s.append("-");
        let m: u128 = if n == i128::MIN {
            0x8000_0000_0000_0000_0000_0000_0000_0000
        } else {
            (-n) as u128
        };
        write_digits(&mut s, m);
        assert(s@ =~= seq!['-'] + digit_chars((-n) as nat));
    } else {
        write_digits(&mut s, n as u128);
        assert(s@ =~= digit_chars(n as nat));
    }
    s
}

/// The `sep`-separated pieces of `s` from byte `start` on, as `str::split`
/// gives them: an empty piece between two separators in a row, and one
/// after a final separator.
pub open spec fn split_from(s: Seq<u8>, start: int, sep: u8) -> Seq<Seq<u8>>
    decreases s.len() - start,
{
    let e = find_from(s, start, sep);
    if start < 0 || start > s.len() || e < start {
        Seq::empty()
    } else if e >= s.len() {
        seq![s.subrange(start, s.len() as int)]
    } else {
        seq![s.subrange(start, e)] + split_from(s, e + 1, sep)
    }
}

/// The spans of the `sep`-separated pieces of `b` (see `split_from`).
pub fn split_spans(b: &[u8], sep: u8) -> (r: Vec<(usize, usize)>)
    ensures
        r@.len() == split_from(b@, 0, sep).len(),
        forall|k: int|
            0 <= k < r@.len() ==> (#[trigger] r@[k]).0 <= r@[k].1 <= b@.len()
                && split_from(b@, 0, sep)[k] == b@.subrange(r@[k].0 as int, r@[k].1 as int),
{
    let ghost all = split_from(b@, 0, sep);
    let mut r: Vec<(usize, usize)> = Vec::new();
    let mut pos: usize = 0;
    loop
        invariant
            all == split_from(b@, 0, sep),
            pos <= b@.len(),
            r@.len() + split_from(b@, pos as int, sep).len() == all.len(),
            forall|k: int| 0 <= k < split_from(b@, pos as int, sep).len() ==> #[trigger] split_from(b@, pos as int, sep)[k] == all[r@.len() + k],
            forall|k: int|
                0 <= k < r@.len() ==> (#[trigger] r@[k]).0 <= r@[k].1 <= b@.len()
                    && all[k] == b@.subrange(r@[k].0 as int, r@[k].1 as int),
        decreases b@.len() - pos,
    {
        let e = find_byte(b, pos, sep);
        proof {
            lemma_find_from_bounds(b@, pos as int, sep);
        }
        let ghost rest = split_from(b@, pos as int, sep);
        if e >= b.len() {
            assert(rest =~= seq![b@.subrange(pos as int, b@.len() as int)]);
            assert(all[r@.len() as int] == rest[0]);
            r.push((pos, e));
            return r;
        }
        assert(rest =~= seq![b@.subrange(pos as int, e as int)] + split_from(b@, e + 1, sep));
        assert(all[r@.len() as int] == rest[0]);
        assert forall|k: int| 0 <= k < split_from(b@, e + 1, sep).len() implies #[trigger] split_from(b@, e + 1, sep)[k] == all[r@.len() + 1 + k] by {
            assert(split_from(b@, e + 1, sep)[k] == rest[k + 1]);
        }
        r.push((pos, e));
        pos = e + 1;
    }
}

/// A character with the Unicode `White_Space` property, as
/// `char::is_whitespace` has it.
pub open spec fn is_white_space(c: char) -> bool {
    let u = c as u32;
    (9 <= u <= 13) || u == 32 || u == 0x85 || u == 0xa0 || u == 0x1680 || (0x2000 <= u <= 0x200a)
        || u == 0x2028 || u == 0x2029 || u == 0x202f || u == 0x205f || u == 0x3000
}

/// Where `s` starts from `lo` on once leading white space is skipped.
pub open spec fn ctrim_lo(s: Seq<char>, lo: int) -> int
    decreases s.len() - lo,
{
    if 0 <= lo < s.len() && is_white_space(s[lo]) {
        ctrim_lo(s, lo + 1)
    } else {
        lo
    }
}

/// Where `s[lo..hi]` ends once trailing white space is dropped.
pub open spec fn ctrim_hi(s: Seq<char>, lo: int, hi: int) -> int
    decreases hi - lo,
{
    if lo < hi && is_white_space(s[hi - 1]) {
        ctrim_hi(s, lo, hi - 1)
    } else {
        hi
    }
}

/// `s` without leading and trailing white space.
pub open spec fn unicode_trimmed(s: Seq<char>) -> Seq<char> {
    let a = ctrim_lo(s, 0);
    s.subrange(a, ctrim_hi(s, a, s.len() as int))
}

/// Relies on `str::trim`: the slice without leading and trailing
/// characters of the `White_Space` property.
#[verifier::external_body]
pub fn trim_text(s: &str) -> (r: &str)
    ensures
        r@ == unicode_trimmed(s@),
{
    s.trim()
}

/// The first index at or after `start` where `p` (non-empty) occurs in
/// `s`, or the length.
pub open spec fn char_find(s: Seq<char>, start: int, p: Seq<char>) -> int
    decreases s.len() + 1 - start,
{
    if start < 0 || start + p.len() > s.len() {
        s.len() as int
    } else if s.subrange(start, start + p.len()) == p {
        start
    } else {
        char_find(s, start + 1, p)
    }
}

pub proof fn lemma_char_find(s: Seq<char>, start: int, p: Seq<char>)
    requires
        0 <= start <= s.len(),
    ensures
        start <= char_find(s, start, p) <= s.len(),
        char_find(s, start, p) < s.len() ==> char_find(s, start, p) + p.len() <= s.len(),
    decreases s.len() + 1 - start,
{
    if p.len() == 0 {
        assert(s.subrange(start, start) =~= p);
    } else if start + p.len() <= s.len() && s.subrange(start, start + p.len()) != p {
        lemma_char_find(s, start + 1, p);
    }
}

/// Relies on `str::split_once`: the text before and after the first
/// occurrence of `sep`, or `None` when there is none.
#[verifier::external_body]
pub fn split_once_text<'a>(s: &'a str, sep: &str) -> (r: Option<(&'a str, &'a str)>)
    requires
        sep@.len() > 0,
    ensures
        match r {
            None => char_find(s@, 0, sep@) >= s@.len(),
            Some((a, b)) => char_find(s@, 0, sep@) < s@.len() && a@ == s@.subrange(
                0,
                char_find(s@, 0, sep@),
            ) && b@ == s@.subrange(char_find(s@, 0, sep@) + sep@.len(), s@.len() as int),
        },
{
    s.split_once(sep)
}

/// The lines of `s` from index `start` on, as `str::lines` gives them: split
/// at each newline, a carriage return before it dropped, no empty line
/// after a final newline.
pub open spec fn char_lines_from(s: Seq<char>, start: int) -> Seq<Seq<char>>
    decreases s.len() - start,
{
    if start < 0 || start >= s.len() {
        Seq::empty()
    } else {
        let nl = char_find(s, start, seq!['\n']);
        let end = if nl < s.len() && nl > start && s[nl - 1] == '\r' {
            nl - 1
        } else {
            nl
        };
        if nl < start || nl >= s.len() {
            seq![s.subrange(start, end)]
        } else {
            seq![s.subrange(start, end)] + char_lines_from(s, nl + 1)
        }
    }
}

/// The lines of `s`.
pub open spec fn char_lines(s: Seq<char>) -> Seq<Seq<char>> {
    char_lines_from(s, 0)
}

/// Relies on `str::lines`: the lines of the text, without their line
/// endings.
#[verifier::external_body]
pub fn text_lines<'a>(s: &'a str) -> (r: Vec<&'a str>)
    ensures
        r@.len() == char_lines(s@).len(),
        forall|k: int| 0 <= k < r@.len() ==> (#[trigger] r@[k])@ == char_lines(s@)[k],
{
    s.lines().collect()
}

/// The `,`-separated pieces of `s`, as `str::split(',')` gives them.
pub open spec fn comma_pieces(s: Seq<char>) -> Seq<Seq<char>>
    decreases s.len(),
{
    let i = char_find(s, 0, seq![',']);
    if i < 0 || i >= s.len() {
        seq![s]
    } else {
        seq![s.subrange(0, i)] + comma_pieces(s.subrange(i + 1, s.len() as int))
    }
}

} // verus!
