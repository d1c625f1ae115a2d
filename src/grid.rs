use vstd::prelude::*;

use crate::error::PuzzleError;

verus! {

/// A position in a grid: `(x, y)`, zero-based, with `y` growing downwards.
pub type Coords = (usize, usize);

/// A two-dimensional grid stored row by row in one vector; cell `(x, y)`
/// lives at index `x + y * width`.
pub struct Grid<T> {
    pub storage: Vec<T>,
    pub width: usize,
}

/// Whether a storage of `len` cells splits into whole rows of `width`.
pub open spec fn whole_rows(len: int, width: int) -> bool {
    if width == 0 {
        len == 0
    } else {
        len % width == 0
    }
}

/// The eight compass directions, in unit-circle order.
#[derive(Debug, Clone, Copy, PartialEq, Eq, Structural)]
pub enum Dir {
    E,
    NE,
    N,
    NW,
    W,
    SW,
    S,
    SE,
}

/// The step that `dir` takes, with `y` growing southwards.
pub open spec fn offset(dir: Dir) -> (int, int) {
    match dir {
        Dir::E => (1, 0),
        Dir::NE => (1, -1),
        Dir::N => (0, -1),
        Dir::NW => (-1, -1),
        Dir::W => (-1, 0),
        Dir::SW => (-1, 1),
        Dir::S => (0, 1),
        Dir::SE => (1, 1),
    }
}

/// The direction at position `k` of the unit-circle order.
pub open spec fn dir_at(k: int) -> Dir {
    if k == 0 {
        Dir::E
    } else if k == 1 {
        Dir::NE
    } else if k == 2 {
        Dir::N
    } else if k == 3 {
        Dir::NW
    } else if k == 4 {
        Dir::W
    } else if k == 5 {
        Dir::SW
    } else if k == 6 {
        Dir::S
    } else {
        Dir::SE
    }
}

impl Dir {
    /// All eight directions, in unit-circle order.
    pub fn all() -> (r: [Dir; 8])
        ensures
            forall|k: int| 0 <= k < 8 ==> #[trigger] r[k] == dir_at(k),
    {
        [Dir::E, Dir::NE, Dir::N, Dir::NW, Dir::W, Dir::SW, Dir::S, Dir::SE]
    }
}

/// One step from `coords` towards `dir`, or `None` when that leaves the
/// quadrant of non-negative coordinates. The grid's size is not consulted.
pub fn traverse(coords: Coords, dir: Dir) -> (r: Option<Coords>)
    requires
        coords.0 < usize::MAX,
        coords.1 < usize::MAX,
    ensures
        r == (if coords.0 + offset(dir).0 >= 0 && coords.1 + offset(dir).1 >= 0 {
            Some(((coords.0 + offset(dir).0) as usize, (coords.1 + offset(dir).1) as usize))
        } else {
            None
        }),
{
    let (x, y) = coords;
    match dir {
        Dir::E => Some((x + 1, y)),
        Dir::NE => if y >= 1 {
            Some((x + 1, y - 1))
        } else {
            None
        },
        Dir::N => if y >= 1 {
            Some((x, y - 1))
        } else {
            None
        },
        Dir::NW => if x >= 1 && y >= 1 {
            Some((x - 1, y - 1))
        } else {
            None
        },
        Dir::W => if x >= 1 {
            Some((x - 1, y))
        } else {
            None
        },
        Dir::SW => if x >= 1 {
            Some((x - 1, y + 1))
        } else {
            None
        },
        Dir::S => Some((x, y + 1)),
        Dir::SE => Some((x + 1, y + 1)),
    }
}

/// Whether cell `(x, y)` exists in a grid of `width` over `st` and is set.
pub open spec fn occupied(st: Seq<bool>, width: int, x: int, y: int) -> bool {
    0 <= x < width && 0 <= y && x + y * width < st.len() && st[x + y * width]
}

/// How many of the first `k` directions from `(x, y)` lead to a set cell.
pub open spec fn neighbors_upto(st: Seq<bool>, width: int, x: int, y: int, k: int) -> int
    decreases k,
{
    if k <= 0 {
        0
    } else {
        neighbors_upto(st, width, x, y, k - 1) + if occupied(
            st,
            width,
            x + offset(dir_at(k - 1)).0,
            y + offset(dir_at(k - 1)).1,
        ) {
            1int
        } else {
            0int
        }
    }
}

/// How many of the eight cells around `(x, y)` are set.
pub open spec fn neighbor_count(st: Seq<bool>, width: int, x: int, y: int) -> int {
    neighbors_upto(st, width, x, y, 8)
}

/// The indices of the set cells among the first `k`, in order.
pub open spec fn occupied_upto(st: Seq<bool>, k: int) -> Seq<usize>
    decreases k,
{
    if k <= 0 {
        Seq::empty()
    } else if st[k - 1] {
        occupied_upto(st, k - 1).push((k - 1) as usize)
    } else {
        occupied_upto(st, k - 1)
    }
}

/// The state after the sweep of eviction has passed the first `k` cells,
/// and how many it evicted: in index order, a set cell with fewer than four
/// set neighbours (as the grid stands at that moment) is cleared.
pub open spec fn evict_upto(st: Seq<bool>, width: int, k: int) -> (Seq<bool>, int)
    decreases k,
{
    if k <= 0 {
        (st, 0)
    } else {
        let (s, c) = evict_upto(st, width, k - 1);
        let i = k - 1;
        if s[i] && neighbor_count(s, width, i % width, i / width) < 4 {
            (s.update(i, false), c + 1)
        } else {
            (s, c)
        }
    }
}

impl<T> Grid<T> {
    /// Whole rows only: the storage length is a multiple of the width.
    pub open spec fn wf(&self) -> bool {
        whole_rows(self.storage@.len() as int, self.width as int)
    }

    /// Builds a grid of rows of `width` cells, refusing a storage that does
    /// not split into whole rows.
    pub fn try_new(width: usize, stuff: Vec<T>) -> (r: Result<Self, PuzzleError>)
        ensures
            whole_rows(stuff@.len() as int, width as int) <==> r.is_ok(),
            r.is_ok() ==> r->Ok_0.storage@ == stuff@ && r->Ok_0.width == width,
            r.is_err() ==> r == Err::<Self, PuzzleError>(PuzzleError::GridShape),
    {
        let ok = if width == 0 {
            stuff.len() == 0
        } else {
            stuff.len() % width == 0
        };
        if !ok {
            Err(PuzzleError::GridShape)
        } else {
            Ok(Self { storage: stuff, width })
        }
    }

    /// The storage index of `coords`, or `None` when `x` lies past the width.
    pub fn index(&self, coords: Coords) -> (r: Option<usize>)
        requires
            coords.0 < self.width ==> coords.0 + coords.1 * self.width <= usize::MAX,
        ensures
            r == (if coords.0 < self.width {
                Some((coords.0 + coords.1 * self.width) as usize)
            } else {
                None
            }),
    {
        let (x, y) = coords;
        if x >= self.width {
            None
        } else {
            proof {
                assert(0 <= y * self.width) by (nonlinear_arith);
            }
            Some(x + (y * self.width))
        }
    }

    /// The coordinates of storage index `index`.
    pub fn coords(&self, index: usize) -> (r: Coords)
        requires
            self.width > 0,
        ensures
            r == ((index % self.width) as usize, (index / self.width) as usize),
    {
        let y = index / self.width;
        let x = index % self.width;
        (x, y)
    }

    /// The cell at `coords`, if `x` lies within the width and the cell within
    /// the storage.
    pub fn get(&self, coords: Coords) -> (r: Option<&T>)
        ensures
            r == (if coords.0 < self.width && coords.0 + coords.1 * self.width
                < self.storage@.len() {
                Some(&self.storage@[coords.0 + coords.1 * self.width])
            } else {
                None
            }),
    {
        let (x, y) = coords;
        let len = self.storage.len();
        if x >= self.width {
            return None;
        }
        proof {
            assert(0 <= y * self.width) by (nonlinear_arith);
        }
        match y.checked_mul(self.width) {
            Some(row) => {
                assert(row == y * self.width);
                if row >= self.storage.len() || x >= self.storage.len() - row {
                    None
                } else {
                    self._get_by_index(x + row)
                }
            },
            None => {
                assert(y * self.width > usize::MAX);
                None
            },
        }
    }

    /// The cell one step from `coords` towards `dir`, if there is one.
    pub fn get_neighbor(&self, coords: Coords, dir: Dir) -> (r: Option<&T>)
        requires
            coords.0 < usize::MAX,
            coords.1 < usize::MAX,
        ensures
            ({
                let x = coords.0 + offset(dir).0;
                let y = coords.1 + offset(dir).1;
                r == (if 0 <= x < self.width && 0 <= y && x + y * self.width
                    < self.storage@.len() {
                    Some(&self.storage@[x + y * self.width])
                } else {
                    None
                })
            }),
    {
        match traverse(coords, dir) {
            Some(neighbor) => self.get(neighbor),
            None => None,
        }
    }

    /// The cell at storage index `index`, if there is one.
    pub fn _get_by_index(&self, index: usize) -> (r: Option<&T>)
        ensures
            r == (if index < self.storage@.len() {
                Some(&self.storage@[index as int])
            } else {
                None
            }),
    {
        if index < self.storage.len() {
            Some(&self.storage[index])
        } else {
            None
        }
    }
}

impl Grid<bool> {
    /// How many of the eight cells around `coords` are set.
    pub fn count_occupied_neighbors(&self, coords: Coords) -> (r: usize)
        requires
            coords.0 < usize::MAX,
            coords.1 < usize::MAX,
        ensures
            r == neighbor_count(self.storage@, self.width as int, coords.0 as int, coords.1 as int),
    {
        let dirs = Dir::all();
        let mut count: usize = 0;
        let mut k: usize = 0;
        while k < 8
            invariant
                coords.0 < usize::MAX,
                coords.1 < usize::MAX,
                forall|j: int| 0 <= j < 8 ==> #[trigger] dirs[j] == dir_at(j),
                k <= 8,
                count == neighbors_upto(
                    self.storage@,
                    self.width as int,
                    coords.0 as int,
                    coords.1 as int,
                    k as int,
                ),
                count <= k,
            decreases 8 - k,
        {
            match self.get_neighbor(coords, dirs[k]) {
                Some(v) => {
                    if *v {
                        count = count + 1;
                    }
                },
                None => {},
            }
            k = k + 1;
        }
        count
    }

    /// The storage indices of the set cells, in order.
    pub fn iter_occupied_indices(&self) -> (r: Vec<usize>)
        ensures
            r@ == occupied_upto(self.storage@, self.storage@.len() as int),
    {
        let mut r: Vec<usize> = Vec::new();
        let mut i: usize = 0;
        while i < self.storage.len()
            invariant
                i <= self.storage@.len(),
                r@ == occupied_upto(self.storage@, i as int),
            decreases self.storage@.len() - i,
        {
            if self.storage[i] {
                r.push(i);
            }
            i = i + 1;
        }
        r
    }

    /// One sweep of eviction over the grid in index order (see
    /// `evict_upto`); returns how many cells it cleared.
    pub fn evict_and_count(&mut self) -> (r: usize)
        requires
            old(self).width > 0,
        ensures
            final(self).width == old(self).width,
            (final(self).storage@, r as int) == evict_upto(
                old(self).storage@,
                old(self).width as int,
                old(self).storage@.len() as int,
            ),
    {
        let ghost st0 = self.storage@;
        let w = self.width;
        let mut count: usize = 0;
        let mut i: usize = 0;
        while i < self.storage.len()
            invariant
                w == self.width,
                w > 0,
                i <= self.storage@.len(),
                self.storage@.len() == st0.len(),
                count <= i,
                (self.storage@, count as int) == evict_upto(st0, w as int, i as int),
            decreases self.storage@.len() - i,
        {
            if self.storage[i] {
                let coords = self.coords(i);
                proof {
                    assert(coords.0 < w);
                    assert(coords.1 <= i);
                }
                if self.count_occupied_neighbors(coords) < 4 {
                    count = count + 1;
                    self.storage.set(i, false);
                }
            }
            i = i + 1;
        }
        count
    }
}

} // verus!
