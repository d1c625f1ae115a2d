use vstd::prelude::*;
use vstd::string::StringSliceAdditionalSpecFns;

use crate::error::PuzzleError;
use crate::geometry::{vec2_of, Vec2};
use crate::text::{decimal, i128_text, line_ranges, lines_of};

verus! {

/// The number of grid cells in the rectangle with corners `a` and `b`,
/// both included.
pub open spec fn area(a: Vec2, b: Vec2) -> int {
    let dx = if a.x >= b.x {
        a.x - b.x
    } else {
        b.x - a.x
    };
    let dy = if a.y >= b.y {
        a.y - b.y
    } else {
        b.y - a.y
    };
    (dx + 1) * (dy + 1)
}

/// The points that the lines of `s` give, if every line is one.
pub open spec fn tiles_of(s: Seq<u8>) -> Option<Seq<Vec2>> {
    let ls = lines_of(s);
    if forall|k: int| 0 <= k < ls.len() ==> (#[trigger] vec2_of(ls[k])) is Some {
        Some(ls.map_values(|l: Seq<u8>| vec2_of(l)->Some_0))
    } else {
        None
    }
}

/// `m` is the largest area of a rectangle with two of `pts` as opposite
/// corners.
pub open spec fn is_max_area(pts: Seq<Vec2>, m: int) -> bool {
    &&& exists|i: int, j: int| 0 <= i < j < pts.len() && #[trigger] area(pts[i], pts[j]) == m
    &&& forall|i: int, j: int| 0 <= i < j < pts.len() ==> #[trigger] area(pts[i], pts[j]) <= m
}

/// Reads one point per line.
fn load_tiles(input: &str) -> (r: Result<Vec<Vec2>, PuzzleError>)
    ensures
        match tiles_of(input.spec_bytes()) {
            Some(pts) => r is Ok && r->Ok_0@ == pts,
            None => r == Err::<Vec<Vec2>, PuzzleError>(PuzzleError::Malformed),
        },
{
    let b = input.as_bytes();
    let spans = line_ranges(b);
    let ghost ls = lines_of(b@);
    let mut pts: Vec<Vec2> = Vec::new();
    let mut k: usize = 0;
    while k < spans.len()
        invariant
            b@ == input.spec_bytes(),
            ls == lines_of(b@),
            spans@.len() == ls.len(),
            forall|j: int|
                0 <= j < spans@.len() ==> (#[trigger] spans@[j]).0 <= spans@[j].1 <= b@.len()
                    && ls[j] == b@.subrange(spans@[j].0 as int, spans@[j].1 as int),
            k <= ls.len(),
            pts@.len() == k,
            forall|j: int| 0 <= j < k ==> vec2_of(#[trigger] ls[j]) == Some(pts@[j]),
        decreases ls.len() - k,
    {
        let line = vstd::slice::slice_subrange(b, spans[k].0, spans[k].1);
        match Vec2::from_bytes(line) {
            Ok(p) => {
                pts.push(p);
            },
            Err(e) => {
                return Err(e);
            },
        }
        k = k + 1;
    }
    assert(pts@ =~= ls.map_values(|l: Seq<u8>| vec2_of(l)->Some_0));
    Ok(pts)
}

/// The largest rectangle with two of the red tiles as opposite corners.
pub fn part1(input: &str) -> (r: Result<String, PuzzleError>)
    ensures
        match tiles_of(input.spec_bytes()) {
            None => r == Err::<String, PuzzleError>(PuzzleError::Malformed),
            Some(pts) => if pts.len() < 2 {
                r == Err::<String, PuzzleError>(PuzzleError::TooFewItems)
            } else if exists|i: int, j: int|
                0 <= i < j < pts.len() && #[trigger] area(pts[i], pts[j]) > i128::MAX {
                r == Err::<String, PuzzleError>(PuzzleError::Overflow)
            } else {
                exists|m: int| is_max_area(pts, m) && r is Ok && r->Ok_0@ == decimal(m)
            },
        },
{
    let stuff = load_tiles(input)?;
    let ghost pts = stuff@;
    let n = stuff.len();
    if n < 2 {
        return Err(PuzzleError::TooFewItems);
    }
    let mut best: i128 = 0;
    let ghost mut bi: int = 0;
    let ghost mut bj: int = 1;
    let mut i: usize = 0;
    while i < n
        invariant
            n == pts.len(),
            pts == stuff@,
            tiles_of(input.spec_bytes()) == Some(pts),
            n >= 2,
            i <= n,
            0 <= bi < bj < n,
            i > 0 ==> area(pts[bi], pts[bj]) == best,
            forall|a: int, c: int| 0 <= a < c < n && a < i ==> #[trigger] area(pts[a], pts[c]) <= best,
            i == 0 ==> best == 0,
        decreases n - i,
    {
        let mut j: usize = i + 1;
        while j < n
            invariant
                n == pts.len(),
                pts == stuff@,
                tiles_of(input.spec_bytes()) == Some(pts),
                n >= 2,
                i < n,
                i + 1 <= j <= n,
                0 <= bi < bj < n,
                (i > 0 || j > i + 1) ==> area(pts[bi], pts[bj]) == best,
                forall|a: int, c: int| 0 <= a < c < n && a < i ==> #[trigger] area(pts[a], pts[c]) <= best,
                forall|c: int| i < c < j ==> #[trigger] area(pts[i as int], pts[c]) <= best,
                i == 0 && j == i + 1 ==> best == 0,
            decreases n - j,
        {
            let (h, w) = (stuff[i], stuff[j]);
            let dx: i128 = if h.x >= w.x {
                h.x as i128 - w.x as i128
            } else {
                w.x as i128 - h.x as i128
            };
            let dy: i128 = if h.y >= w.y {
                h.y as i128 - w.y as i128
            } else {
                w.y as i128 - h.y as i128
            };
            let area_ij = match (dx + 1).checked_mul(dy + 1) {
                Some(a) => a,
                None => {
                    assert(area(pts[i as int], pts[j as int]) > i128::MAX);
                    return Err(PuzzleError::Overflow);
                },
            };
            assert(area_ij == area(pts[i as int], pts[j as int]));
            if (i == 0 && j == 1) || area_ij > best {
                best = area_ij;
                proof {
                    bi = i as int;
                    bj = j as int;
                }
            }
            j = j + 1;
        }
        i = i + 1;
    }
    proof {
        assert(is_max_area(pts, best as int));
        assert forall|a: int, c: int| 0 <= a < c < n implies !(#[trigger] area(pts[a], pts[c])
            > i128::MAX) by {}
    }
    Ok(i128_text(best))
}

/// This puzzle part has no solver.
pub fn part2(input: &str) -> (r: Result<String, PuzzleError>)
    ensures
        r == Err::<String, PuzzleError>(PuzzleError::Unsupported),
{
    Err(PuzzleError::Unsupported)
}

} // verus!
