use vstd::prelude::*;
use vstd::string::StringSliceAdditionalSpecFns;

use crate::error::PuzzleError;
use crate::grid::{evict_upto, neighbor_count, occupied_upto, Grid};
use crate::text::{decimal, find_byte, line_spans, u64_text};

verus! {

/// The cells that the first `k` bytes of a picture give: `@` a roll, `.`
/// an empty cell; other bytes (line breaks) give none.
pub open spec fn cells_upto(s: Seq<u8>, k: int) -> Seq<bool>
    decreases k,
{
    if k <= 0 {
        Seq::empty()
    } else if s[k - 1] == 64 {
        cells_upto(s, k - 1).push(true)
    } else if s[k - 1] == 46 {
        cells_upto(s, k - 1).push(false)
    } else {
        cells_upto(s, k - 1)
    }
}

/// The cells of a whole picture.
pub open spec fn cells_of(s: Seq<u8>) -> Seq<bool> {
    cells_upto(s, s.len() as int)
}

/// The byte length of the first line of `s`.
pub open spec fn first_line_len(s: Seq<u8>) -> int {
    line_spans(s)[0].1 - line_spans(s)[0].0
}

/// The width of a picture: the length of its first line.
pub fn width_of_ascii_grid(input: &str) -> (r: usize)
    requires
        input.spec_bytes().len() > 0,
    ensures
        r == first_line_len(input.spec_bytes()),
{
    let b = input.as_bytes();
    let nl = find_byte(b, 0, 10);
    if nl < b.len() && nl > 0 && b[nl - 1] == 13 {
        nl - 1
    } else {
        nl
    }
}

/// The cells of a picture, row after row.
pub fn load_ascii_grid_to_vec_of_bools(input: &str) -> (r: Vec<bool>)
    ensures
        r@ == cells_of(input.spec_bytes()),
{
    let b = input.as_bytes();
    let mut r: Vec<bool> = Vec::new();
    let mut i: usize = 0;
    while i < b.len()
        invariant
            b@ == input.spec_bytes(),
            i <= b@.len(),
            r@ == cells_upto(b@, i as int),
        decreases b@.len() - i,
    {
        if b[i] == 64 {
            r.push(true);
        } else if b[i] == 46 {
            r.push(false);
        }
        i = i + 1;
    }
    r
}

/// The grid that a picture shows, as wide as its first line.
pub fn build_grid(ascii: &str) -> (r: Result<Grid<bool>, PuzzleError>)
    requires
        ascii.spec_bytes().len() > 0,
    ensures
        match r {
            Ok(g) => g.wf() && g.width == first_line_len(ascii.spec_bytes()) && g.storage@ == cells_of(
                ascii.spec_bytes(),
            ),
            Err(e) => e == PuzzleError::GridShape,
        },
        r is Err <==> !crate::grid::whole_rows(
            cells_of(ascii.spec_bytes()).len() as int,
            first_line_len(ascii.spec_bytes()),
        ),
{
    let width = width_of_ascii_grid(ascii);
    let stuff = load_ascii_grid_to_vec_of_bools(ascii);
    Grid::try_new(width, stuff)
}

/// How many of the listed cells have fewer than four set neighbours.
pub open spec fn count_accessible(st: Seq<bool>, w: int, idx: Seq<usize>) -> int
    decreases idx.len(),
{
    if idx.len() == 0 {
        0
    } else {
        count_accessible(st, w, idx.drop_last()) + if neighbor_count(
            st,
            w,
            idx.last() as int % w,
            idx.last() as int / w,
        ) < 4 {
            1int
        } else {
            0int
        }
    }
}

/// The grid of a non-empty picture, or why there is none.
pub open spec fn picture_grid(s: Seq<u8>) -> Result<(Seq<bool>, int), PuzzleError> {
    if s.len() == 0 {
        Err(PuzzleError::TooFewItems)
    } else if !crate::grid::whole_rows(cells_of(s).len() as int, first_line_len(s)) {
        Err(PuzzleError::GridShape)
    } else {
        Ok((cells_of(s), first_line_len(s)))
    }
}

proof fn lemma_occupied_below(st: Seq<bool>, k: int)
    requires
        k <= st.len() <= usize::MAX,
    ensures
        forall|j: int|
            0 <= j < occupied_upto(st, k).len() ==> (#[trigger] occupied_upto(st, k)[j]) < k,
    decreases k,
{
    if k > 0 {
        lemma_occupied_below(st, k - 1);
        let prev = occupied_upto(st, k - 1);
        let cur = occupied_upto(st, k);
        assert forall|j: int| 0 <= j < cur.len() implies (#[trigger] cur[j]) < k by {
            if j < prev.len() {
                assert(cur[j] == prev[j]);
            }
        }
    }
}

/// Counts the rolls that have fewer than four rolls around them.
pub fn part1(input: &str) -> (r: Result<String, PuzzleError>)
    ensures
        match picture_grid(input.spec_bytes()) {
            Err(e) => r == Err::<String, PuzzleError>(e),
            Ok((st, w)) => r is Ok && r->Ok_0@ == decimal(
                if w == 0 {
                    0
                } else {
                    count_accessible(st, w, occupied_upto(st, st.len() as int))
                },
            ),
        },
{
    let n = input.as_bytes().len();
    if n == 0 {
        return Err(PuzzleError::TooFewItems);
    }
    let grid = build_grid(input)?;
    let len = grid.storage.len();
    let ghost st = grid.storage@;
    let ghost w = grid.width as int;
    if grid.width == 0 {
        return Ok(u64_text(0));
    }
    let all_roll_indices = grid.iter_occupied_indices();
    let ghost idx = all_roll_indices@;
    proof {
        lemma_occupied_below(st, st.len() as int);
    }
    let mut count: usize = 0;
    let mut k: usize = 0;
    while k < all_roll_indices.len()
        invariant
            grid.width > 0,
            st == grid.storage@,
            len == st.len(),
            forall|j: int| 0 <= j < idx.len() ==> (#[trigger] idx[j]) < st.len(),
            w == grid.width,
            idx == all_roll_indices@,
            k <= idx.len(),
            count <= k,
            count == count_accessible(st, w, idx.take(k as int)),
        decreases idx.len() - k,
    {
        let coords = grid.coords(all_roll_indices[k]);
        proof {
            assert(coords.0 < grid.width);
            assert(coords.1 <= all_roll_indices[k as int]);
        }
        let c = grid.count_occupied_neighbors(coords);
        assert(idx.take(k + 1).drop_last() =~= idx.take(k as int));
        if c < 4 {
            count = count + 1;
        }
        k = k + 1;
    }
    assert(idx.take(k as int) =~= idx);
    Ok(u64_text(count as u64))
}

/// How many cells are set.
pub open spec fn true_count(st: Seq<bool>) -> int
    decreases st.len(),
{
    if st.len() == 0 {
        0
    } else {
        true_count(st.drop_last()) + if st.last() {
            1int
        } else {
            0int
        }
    }
}

proof fn lemma_true_count_clear(st: Seq<bool>, i: int)
    requires
        0 <= i < st.len(),
        st[i],
    ensures
        true_count(st.update(i, false)) == true_count(st) - 1,
    decreases st.len(),
{
    let u = st.update(i, false);
    if i == st.len() - 1 {
        assert(u.drop_last() =~= st.drop_last());
    } else {
        assert(u.drop_last() =~= st.drop_last().update(i, false));
        lemma_true_count_clear(st.drop_last(), i);
    }
}

proof fn lemma_true_count_bounds(st: Seq<bool>)
    ensures
        0 <= true_count(st) <= st.len(),
    decreases st.len(),
{
    if st.len() > 0 {
        lemma_true_count_bounds(st.drop_last());
    }
}

/// A sweep clears as many cells as it counts, and keeps the length.
proof fn lemma_evict_accounting(st: Seq<bool>, w: int, k: int)
    requires
        0 <= k <= st.len(),
    ensures
        evict_upto(st, w, k).0.len() == st.len(),
        true_count(evict_upto(st, w, k).0) + evict_upto(st, w, k).1 == true_count(st),
        evict_upto(st, w, k).1 >= 0,
    decreases k,
{
    if k > 0 {
        lemma_evict_accounting(st, w, k - 1);
        let (s, c) = evict_upto(st, w, k - 1);
        if s[k - 1] && neighbor_count(s, w, (k - 1) % w, (k - 1) / w) < 4 {
            lemma_true_count_clear(s, k - 1);
        }
    }
}

/// The number of rolls removed by sweeping again and again until a sweep
/// removes none.
pub open spec fn removed_total(st: Seq<bool>, w: int) -> int
    decreases true_count(st),
    via removed_total_decreases
{
    let (s1, c) = evict_upto(st, w, st.len() as int);
    if c <= 0 {
        0
    } else {
        c + removed_total(s1, w)
    }
}

#[via_fn]
proof fn removed_total_decreases(st: Seq<bool>, w: int) {
    lemma_evict_accounting(st, w, st.len() as int);
    let (s1, c) = evict_upto(st, w, st.len() as int);
    lemma_true_count_bounds(st);
    lemma_true_count_bounds(s1);
    if c > 0 {
        assert(true_count(s1) < true_count(st));
    }
}

/// Counts the rolls that repeated sweeps remove, each sweep clearing in
/// index order every roll with fewer than four rolls around it.
pub fn part2(input: &str) -> (r: Result<String, PuzzleError>)
    ensures
        match picture_grid(input.spec_bytes()) {
            Err(e) => r == Err::<String, PuzzleError>(e),
            Ok((st, w)) => r is Ok && r->Ok_0@ == decimal(
                if w == 0 {
                    0
                } else {
                    removed_total(st, w)
                },
            ),
        },
{
    let n = input.as_bytes().len();
    if n == 0 {
        return Err(PuzzleError::TooFewItems);
    }
    let mut grid = build_grid(input)?;
    let ghost st0 = grid.storage@;
    let len = grid.storage.len();
    if grid.width == 0 {
        return Ok(u64_text(0));
    }
    let mut count: usize = 0;
    let ghost w0 = grid.width;
    proof {
        lemma_true_count_bounds(st0);
    }
    loop
        invariant_except_break
            count + removed_total(grid.storage@, grid.width as int) == removed_total(
                st0,
                grid.width as int,
            ),
        invariant
            grid.width > 0,
            grid.width == w0,
            grid.storage@.len() == len,
            len == st0.len(),
            count + true_count(grid.storage@) == true_count(st0),
            true_count(st0) <= len,
            count <= len,
        ensures
            count == removed_total(st0, grid.width as int),
        decreases true_count(grid.storage@),
    {
        let ghost before = grid.storage@;
        proof {
            lemma_evict_accounting(before, grid.width as int, before.len() as int);
            lemma_true_count_bounds(before);
            lemma_true_count_bounds(st0);
        }
        let iteration_count = grid.evict_and_count();
        proof {
            lemma_true_count_bounds(grid.storage@);
        }
        if iteration_count == 0 {
            break;
        }
        count = count + iteration_count;
    }
    Ok(u64_text(count as u64))
}

} // verus!
