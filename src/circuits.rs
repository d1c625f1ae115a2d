use vstd::prelude::*;
use vstd::string::StringSliceAdditionalSpecFns;

use crate::error::PuzzleError;
use crate::geometry::{dist3, lemma_dist3_symmetric, vec3_of, Vec3};
use crate::grid::Grid;
use crate::text::{decimal, i128_text, line_ranges, lines_of, u64_text};

verus! {

/// An edge of the complete graph on the points: `(squared distance, low
/// index, high index)`, with the low index smaller than the high one.
pub type Edge = (i64, usize, usize);

/// The points that the lines of `s` give, if every line is a point.
pub open spec fn points_of(s: Seq<u8>) -> Option<Seq<Vec3>> {
    let ls = lines_of(s);
    if forall|k: int| 0 <= k < ls.len() ==> (#[trigger] vec3_of(ls[k])).is_some() {
        Some(ls.map_values(|l: Seq<u8>| vec3_of(l).unwrap()))
    } else {
        None
    }
}

/// Every squared distance between two of the points fits in an `i64`.
pub open spec fn all_fit(pts: Seq<Vec3>) -> bool {
    forall|i: int, j: int|
        0 <= i < pts.len() && 0 <= j < pts.len() ==> #[trigger] dist3(pts[i], pts[j])
            <= i64::MAX
}

/// `m` is the distance matrix of `pts`: cell `x + y * n` holds the squared
/// distance between points `x` and `y`.
pub open spec fn is_distance_matrix(m: Seq<i64>, pts: Seq<Vec3>) -> bool {
    &&& m.len() == pts.len() * pts.len()
    &&& forall|x: int, y: int|
        0 <= x < pts.len() && 0 <= y < pts.len() ==> #[trigger] m[x + y * pts.len()] == dist3(
            pts[x],
            pts[y],
        )
}

/// Reads one point per line.
pub fn load_points(input: &str) -> (r: Result<Vec<Vec3>, PuzzleError>)
    ensures
        match points_of(input.spec_bytes()) {
            Some(pts) => r is Ok && r->Ok_0@ == pts,
            None => r == Err::<Vec<Vec3>, PuzzleError>(PuzzleError::Malformed),
        },
{
    let b = input.as_bytes();
    let spans = line_ranges(b);
    let ghost ls = lines_of(b@);
    let mut pts: Vec<Vec3> = Vec::new();
    let mut k: usize = 0;
    while k < spans.len()
        invariant
            b@ == input.spec_bytes(),
            ls == lines_of(b@),
            spans@.len() == ls.len(),
            forall|j: int|
                0 <= j < spans@.len() ==> (#[trigger] spans@[j]).0 <= spans@[j].1 <= b@.len()
                    && ls[j] == b@.subrange(spans@[j].0 as int, spans@[j].1 as int),
            k <= spans@.len(),
            pts@.len() == k,
            forall|j: int| 0 <= j < k ==> vec3_of(#[trigger] ls[j]) == Some(pts@[j]),
        decreases spans@.len() - k,
    {
        let (lo, hi) = spans[k];
        let line = vstd::slice::slice_subrange(b, lo, hi);
        match Vec3::from_bytes(line) {
            Ok(p) => {
                pts.push(p);
            },
            Err(e) => {
                assert(vec3_of(ls[k as int]).is_none());
                return Err(e);
            },
        }
        k = k + 1;
    }
    assert(pts@ =~= ls.map_values(|l: Seq<u8>| vec3_of(l).unwrap()));
    Ok(pts)
}

/// The matrix of squared distances between every ordered pair of points,
/// one row per point; `Overflow` when a distance does not fit in an `i64`.
pub fn grid_of_all_distances(points: &[Vec3]) -> (r: Result<Grid<i64>, PuzzleError>)
    ensures
        all_fit(points@) && points@.len() * points@.len() <= usize::MAX <==> r is Ok,
        r is Ok ==> r->Ok_0.width == points@.len() && r->Ok_0.wf() && is_distance_matrix(
            r->Ok_0.storage@,
            points@,
        ),
        r is Err ==> r == Err::<Grid<i64>, PuzzleError>(PuzzleError::Overflow),
{
    let n = points.len();
    let cells = match n.checked_mul(n) {
        Some(c) => c,
        None => {
            return Err(PuzzleError::Overflow);
        },
    };
    let mut storage: Vec<i64> = Vec::with_capacity(cells);
    let mut y: usize = 0;
    while y < n
        invariant
            n == points@.len(),
            n * n <= usize::MAX,
            y <= n,
            storage@.len() == y * n,
            forall|i: int, j: int|
                0 <= i < n && 0 <= j < y ==> #[trigger] dist3(points@[i], points@[j])
                    <= i64::MAX,
            forall|x: int, yy: int|
                0 <= x < n && 0 <= yy < y ==> #[trigger] storage@[x + yy * n] == dist3(
                    points@[x],
                    points@[yy],
                ),
        decreases n - y,
    {
        let mut x: usize = 0;
        while x < n
            invariant
                n == points@.len(),
                n * n <= usize::MAX,
                y < n,
                x <= n,
                storage@.len() == y * n + x,
                forall|i: int, j: int|
                    0 <= i < n && 0 <= j < y ==> #[trigger] dist3(points@[i], points@[j])
                        <= i64::MAX,
                forall|i: int| 0 <= i < x ==> #[trigger] dist3(points@[i], points@[y as int])
                    <= i64::MAX,
                forall|xx: int, yy: int|
                    0 <= xx < n && 0 <= yy < y ==> #[trigger] storage@[xx + yy * n] == dist3(
                        points@[xx],
                        points@[yy],
                    ),
                forall|xx: int| 0 <= xx < x ==> #[trigger] storage@[xx + y * n] == dist3(
                    points@[xx],
                    points@[y as int],
                ),
            decreases n - x,
        {
            proof {
                assert(y * n + x < n * n) by (nonlinear_arith)
                    requires
                        y < n,
                        x < n,
                ;
            }
            match points[x].checked_distance_squared(&points[y]) {
                Some(d) => {
                    let ghost before = storage@;
                    storage.push(d);
                    assert(storage@[x + y * n] == dist3(points@[x as int], points@[y as int]));
                    assert forall|xx: int| 0 <= xx < x + 1 implies #[trigger] storage@[xx + y * n]
                        == dist3(points@[xx], points@[y as int]) by {
                        if xx < x {
                            assert(storage@[xx + y * n] == before[xx + y * n]);
                        }
                    }
                },
                None => {
                    return Err(PuzzleError::Overflow);
                },
            }
            proof {
                assert forall|xx: int, yy: int|
                    0 <= xx < n && 0 <= yy < y implies #[trigger] storage@[xx + yy * n]
                    == dist3(points@[xx], points@[yy]) by {
                    assert(xx + yy * n < y * n) by (nonlinear_arith)
                        requires
                            0 <= xx < n,
                            0 <= yy < y,
                    ;
                }
            }
            x = x + 1;
        }
        proof {
            assert((y + 1) * n == y * n + n) by (nonlinear_arith);
        }
        y = y + 1;
    }
    proof {
        assert(is_distance_matrix(storage@, points@));
        if n > 0 {
            assert((n * n) % (n as int) == 0) by (nonlinear_arith)
                requires
                    n > 0,
            ;
        }
    }
    Ok(Grid { storage, width: n })
}

/// The distance matrix of any point set is symmetric and zero on its
/// diagonal.
pub proof fn lemma_distance_matrix_symmetric(pts: Seq<Vec3>, m: Seq<i64>)
    requires
        is_distance_matrix(m, pts),
    ensures
        forall|i: int, j: int|
            0 <= i < pts.len() && 0 <= j < pts.len() ==> #[trigger] m[i + j * pts.len()] == m[j
                + i * pts.len()],
        forall|i: int| 0 <= i < pts.len() ==> #[trigger] m[i + i * pts.len()] == 0,
{
    assert forall|i: int, j: int| 0 <= i < pts.len() && 0 <= j < pts.len() implies #[trigger] m[i
        + j * pts.len()] == m[j + i * pts.len()] by {
        lemma_dist3_symmetric(pts[i], pts[j]);
    }
    assert forall|i: int| 0 <= i < pts.len() implies #[trigger] m[i + i * pts.len()] == 0 by {
        lemma_dist3_symmetric(pts[i], pts[i]);
    }
}

/// The edges of row `y` of an `n`-wide matrix `m`: one per column right of
/// the diagonal, in column order.
pub open spec fn row_edges(m: Seq<i64>, n: int, y: int) -> Seq<Edge> {
    Seq::new(
        (n - y - 1) as nat,
        |i: int| (m[(y + 1 + i) + y * n], y as usize, (y + 1 + i) as usize),
    )
}

/// The edges of rows `0..y`, in the order a row-by-row walk meets them.
pub open spec fn edges_upto(m: Seq<i64>, n: int, y: int) -> Seq<Edge>
    decreases y,
{
    if y <= 0 {
        Seq::empty()
    } else {
        edges_upto(m, n, y - 1) + row_edges(m, n, y - 1)
    }
}

/// Lexicographic order on edges: by distance, then low index, then high.
pub open spec fn edge_le(a: Edge, b: Edge) -> bool {
    a.0 < b.0 || (a.0 == b.0 && (a.1 < b.1 || (a.1 == b.1 && a.2 <= b.2)))
}

/// The edges are in ascending lexicographic order.
pub open spec fn sorted_edges(es: Seq<Edge>) -> bool {
    forall|i: int, j: int| 0 <= i < j < es.len() ==> edge_le(#[trigger] es[i], #[trigger] es[j])
}

/// `e` is an edge of the `n`-wide matrix `m`: its indices are distinct and
/// in range, and its distance is the matrix cell.
pub open spec fn is_matrix_edge(m: Seq<i64>, n: int, e: Edge) -> bool {
    e.1 < e.2 < n && e.0 == m[e.2 + e.1 * n]
}

proof fn lemma_edges_upto(m: Seq<i64>, n: int, y: int)
    requires
        0 <= y <= n <= usize::MAX,
        m.len() == n * n,
    ensures
        2 * edges_upto(m, n, y).len() == 2 * y * n - y * (y + 1),
        forall|k: int|
            0 <= k < edges_upto(m, n, y).len() ==> is_matrix_edge(
                m,
                n,
                #[trigger] edges_upto(m, n, y)[k],
            ) && edges_upto(m, n, y)[k].1 < y,
        forall|i: int, j: int|
            0 <= i < j < edges_upto(m, n, y).len() ==> {
                let a = #[trigger] edges_upto(m, n, y)[i];
                let b = #[trigger] edges_upto(m, n, y)[j];
                a.1 < b.1 || (a.1 == b.1 && a.2 < b.2)
            },
        forall|r: int, c: int|
            0 <= r < y && r < c < n ==> #[trigger] edges_upto(m, n, y).contains(
                (m[c + r * n], r as usize, c as usize),
            ),
    decreases y,
{
    if y == 0 {
        assert(2 * y * n - y * (y + 1) == 0) by (nonlinear_arith)
            requires
                y == 0,
        ;
    } else {
        lemma_edges_upto(m, n, y - 1);
        let prev = edges_upto(m, n, y - 1);
        let row = row_edges(m, n, y - 1);
        let all = edges_upto(m, n, y);
        assert(all == prev + row);
        assert(row.len() == n - y);
        let a = prev.len() as int;
        assert(all.len() == a + (n - y));
        assert(2 * (a + (n - y)) == 2 * y * n - y * (y + 1)) by (nonlinear_arith)
            requires
                2 * a == 2 * (y - 1) * n - (y - 1) * y,
        ;
        assert forall|k: int| 0 <= k < all.len() implies is_matrix_edge(m, n, #[trigger] all[k])
            && all[k].1 < y by {
            if k >= prev.len() {
                let i = k - prev.len();
                assert(all[k] == row[i]);
                assert(y - 1 + 1 + i < n);
            } else {
                assert(all[k] == prev[k]);
            }
        }
        assert forall|i: int, j: int| 0 <= i < j < all.len() implies {
            let a = #[trigger] all[i];
            let b = #[trigger] all[j];
            a.1 < b.1 || (a.1 == b.1 && a.2 < b.2)
        } by {
            if j < prev.len() {
                assert(all[i] == prev[i] && all[j] == prev[j]);
            } else if i < prev.len() {
                assert(all[i] == prev[i] && all[j] == row[j - prev.len()]);
            } else {
                assert(all[i] == row[i - prev.len()] && all[j] == row[j - prev.len()]);
            }
        }
        assert forall|r: int, c: int| 0 <= r < y && r < c < n implies #[trigger] all.contains(
            (m[c + r * n], r as usize, c as usize),
        ) by {
            if r < y - 1 {
                assert(prev.contains((m[c + r * n], r as usize, c as usize)));
                let k = choose|k: int|
                    0 <= k < prev.len() && prev[k] == (m[c + r * n], r as usize, c as usize);
                assert(all[k] == prev[k]);
            } else {
                let k = prev.len() + (c - r - 1);
                assert(all[k] == row[c - r - 1]);
                assert(all[k] == (m[c + r * n], r as usize, c as usize));
            }
        }
    }
}

/// Relies on `slice::sort`: afterwards the items are in ascending order (for
/// tuples, lexicographic), and they are the same items as before.
#[verifier::external_body]
fn sort_edges(v: &mut Vec<Edge>)
    ensures
        final(v)@.to_multiset() == old(v)@.to_multiset(),
        sorted_edges(final(v)@),
{
    v.sort();
}

/// The edges of the complete graph on the points of a square distance
/// matrix, each pair of distinct indices once, in ascending order of
/// distance; edges of equal distance stay in the order in which a row-by-row
/// walk of the matrix meets them.
pub fn connection_pairs(grid: &Grid<i64>) -> (r: Vec<Edge>)
    requires
        grid.storage@.len() == grid.width * grid.width,
    ensures
        2 * r@.len() == grid.width * (grid.width - 1),
        r@.no_duplicates(),
        sorted_edges(r@),
        forall|k: int|
            0 <= k < r@.len() ==> is_matrix_edge(grid.storage@, grid.width as int, #[trigger] r@[k]),
        forall|lo: int, hi: int|
            0 <= lo < hi < grid.width ==> #[trigger] r@.contains(
                (grid.storage@[hi + lo * grid.width], lo as usize, hi as usize),
            ),
{
    let n = grid.width;
    let len = grid.storage.len();
    let ghost m = grid.storage@;
    let mut r: Vec<Edge> = Vec::new();
    let mut y: usize = 0;
    while y < n
        invariant
            n == grid.width,
            m == grid.storage@,
            m.len() == n * n,
            len == m.len(),
            y <= n,
            r@ == edges_upto(m, n as int, y as int),
        decreases n - y,
    {
        let mut x: usize = y + 1;
        while x < n
            invariant
                n == grid.width,
                m == grid.storage@,
                m.len() == n * n,
                len == m.len(),
                y < n,
                y + 1 <= x <= n,
                r@ == edges_upto(m, n as int, y as int) + row_edges(m, n as int, y as int).take(
                    x - y - 1,
                ),
            decreases n - x,
        {
            proof {
                assert(x + y * n < n * n) by (nonlinear_arith)
                    requires
                        y < n,
                        x < n,
                ;
            }
            r.push((grid.storage[x + y * n], y, x));
            assert(r@ =~= edges_upto(m, n as int, y as int) + row_edges(m, n as int, y as int).take(
                x + 1 - y - 1,
            ));
            x = x + 1;
        }
        assert(row_edges(m, n as int, y as int).take(n - y - 1) =~= row_edges(m, n as int, y as int));
        y = y + 1;
    }
    proof {
        lemma_edges_upto(m, n as int, n as int);
        assert(2 * n * n - n * (n + 1) == n * (n - 1)) by (nonlinear_arith);
    }
    let ghost before = r@;
    sort_edges(&mut r);
    proof {
        broadcast use vstd::seq_lib::group_to_multiset_ensures;

        assert(before.len() == before.to_multiset().len());
        assert(r@.len() == r@.to_multiset().len());
        assert(before.no_duplicates());
        before.lemma_multiset_has_no_duplicates();
        r@.lemma_multiset_has_no_duplicates_conv();
        assert forall|k: int| 0 <= k < r@.len() implies is_matrix_edge(m, n as int, #[trigger] r@[k]) by {
            assert(r@.to_multiset().count(r@[k]) > 0);
            assert(before.contains(r@[k]));
        }
        assert forall|lo: int, hi: int| 0 <= lo < hi < n implies #[trigger] r@.contains(
            (m[hi + lo * n], lo as usize, hi as usize),
        ) by {
            assert(before.contains((m[hi + lo * n], lo as usize, hi as usize)));
            assert(before.to_multiset().count((m[hi + lo * n], lo as usize, hi as usize)) > 0);
        }
    }
    r
}

/// The index of a set of `ss` that holds `p`, if any does. In a partition
/// (see `disjoint_sets`) that index is unique.
pub open spec fn find(ss: Seq<Set<Vec3>>, p: Vec3) -> Option<int> {
    if exists|i: int| 0 <= i < ss.len() && (#[trigger] ss[i]).contains(p) {
        Some(choose|i: int| 0 <= i < ss.len() && (#[trigger] ss[i]).contains(p))
    } else {
        None
    }
}

/// The sets are finite, non-empty and pairwise disjoint.
pub open spec fn disjoint_sets(ss: Seq<Set<Vec3>>) -> bool {
    &&& forall|i: int| 0 <= i < ss.len() ==> (#[trigger] ss[i]).finite() && ss[i].len() > 0
    &&& forall|i: int, j: int|
        0 <= i < ss.len() && 0 <= j < ss.len() && i != j ==> (#[trigger] ss[i]).disjoint(
            #[trigger] ss[j],
        )
}

/// The partition after connecting `l` and `r`: a new set of the two when
/// neither is in a set; the other joins the set of the one that is; the two
/// sets merge into the one at the lower position when they differ; nothing
/// changes when both are in one set already.
pub open spec fn union_step(ss: Seq<Set<Vec3>>, l: Vec3, r: Vec3) -> Seq<Set<Vec3>> {
    match (find(ss, l), find(ss, r)) {
        (None, None) => ss.push(set![l, r]),
        (None, Some(j)) => ss.update(j, ss[j].insert(l)),
        (Some(i), None) => ss.update(i, ss[i].insert(r)),
        (Some(i), Some(j)) => if i == j {
            ss
        } else {
            let lo = if i < j {
                i
            } else {
                j
            };
            let hi = if i < j {
                j
            } else {
                i
            };
            ss.update(lo, ss[lo].union(ss[hi])).remove(hi)
        },
    }
}

/// Whether connecting `l` and `r` changes the partition: it does unless both
/// are in one set already.
pub open spec fn union_merges(ss: Seq<Set<Vec3>>, l: Vec3, r: Vec3) -> bool {
    !(find(ss, l) is Some && find(ss, l) == find(ss, r))
}

/// The sum of the sizes of the sets.
pub open spec fn total(ss: Seq<Set<Vec3>>) -> int
    decreases ss.len(),
{
    if ss.len() == 0 {
        0
    } else {
        total(ss.drop_last()) + ss.last().len()
    }
}

/// The points held by some set.
pub open spec fn members(ss: Seq<Set<Vec3>>) -> Set<Vec3> {
    Set::new(|p: Vec3| exists|i: int| 0 <= i < ss.len() && (#[trigger] ss[i]).contains(p))
}

/// The sizes of the sets.
pub open spec fn sizes(ss: Seq<Set<Vec3>>) -> Seq<int> {
    ss.map_values(|s: Set<Vec3>| s.len() as int)
}

/// Non-increasing.
pub open spec fn descending(t: Seq<int>) -> bool {
    forall|a: int, c: int| 0 <= a < c < t.len() ==> #[trigger] t[a] >= #[trigger] t[c]
}

/// `b` is `a` reordered by `p` (`b[k]` is `a[p[k]]`, no index used twice),
/// with sets of equal size in their old relative order.
pub open spec fn stable_reorder(p: Seq<int>, a: Seq<Set<Vec3>>, b: Seq<Set<Vec3>>) -> bool {
    &&& p.len() == b.len()
    &&& a.len() == b.len()
    &&& forall|k: int| 0 <= k < b.len() ==> 0 <= #[trigger] p[k] < a.len() && b[k] == a[p[k]]
    &&& forall|k: int, l: int| 0 <= k < l < b.len() ==> #[trigger] p[k] != #[trigger] p[l]
    &&& forall|k: int, l: int|
        0 <= k < l < b.len() && (#[trigger] b[k]).len() == (#[trigger] b[l]).len() ==> p[k] < p[l]
}

/// Where the item at `k` came from when the item at `i` moved to `pos`
/// (`pos <= i`), the ones in between moving up one place.
pub open spec fn moved_from(pos: int, i: int, k: int) -> int {
    if k < pos {
        k
    } else if k == pos {
        i
    } else if k <= i {
        k - 1
    } else {
        k
    }
}

/// A partition of the points that have been connected to something, one
/// vector of distinct points per cluster.
pub struct Circuits {
    pub stuff: Vec<Vec<Vec3>>,
}

impl View for Circuits {
    type V = Seq<Set<Vec3>>;

    open spec fn view(&self) -> Seq<Set<Vec3>> {
        self.stuff@.map_values(|v: Vec<Vec3>| v@.to_set())
    }
}

impl Circuits {
    /// Every cluster holds distinct points, and the clusters form a
    /// partition.
    pub open spec fn wf(&self) -> bool {
        &&& forall|i: int|
            0 <= i < self.stuff@.len() ==> (#[trigger] self.stuff@[i])@.no_duplicates()
        &&& disjoint_sets(self@)
    }

    /// The empty partition.
    pub fn new() -> (r: Self)
        ensures
            r.wf(),
            r@ == Seq::<Set<Vec3>>::empty(),
    {
        let r = Self { stuff: Vec::new() };
        assert(r@ =~= Seq::<Set<Vec3>>::empty());
        r
    }

    /// The position of the cluster that holds `point`, if one does.
    pub fn idx_containing_point(&self, point: Vec3) -> (r: Option<usize>)
        requires
            self.wf(),
        ensures
            r is Some <==> find(self@, point) is Some,
            r is Some ==> find(self@, point) == Some(r->Some_0 as int),
    {
        let mut i: usize = 0;
        while i < self.stuff.len()
            invariant
                self.wf(),
                self@.len() == self.stuff@.len(),
                i <= self.stuff@.len(),
                forall|k: int| 0 <= k < i ==> !(#[trigger] self@[k]).contains(point),
            decreases self.stuff@.len() - i,
        {
            let set = &self.stuff[i];
            let mut j: usize = 0;
            while j < set.len()
                invariant
                    self.wf(),
                    self@.len() == self.stuff@.len(),
                    i < self.stuff@.len(),
                    *set == self.stuff@[i as int],
                    j <= set@.len(),
                    forall|k: int| 0 <= k < j ==> set@[k] != point,
                decreases set@.len() - j,
            {
                if set[j] == point {
                    proof {
                        assert(self@.len() == self.stuff@.len());
                        assert(self@[i as int] == set@.to_set());
                        assert(set@.contains(point));
                        assert(self@[i as int].contains(point));
                        let c = choose|c: int| 0 <= c < self@.len() && (#[trigger] self@[c]).contains(point);
                        if c != i {
                            assert(self@[c].disjoint(self@[i as int]));
                        }
                    }
                    return Some(i);
                }
                j = j + 1;
            }
            proof {
                assert(self@[i as int] == set@.to_set());
                assert(!self@[i as int].contains(point)) by {
                    if self@[i as int].contains(point) {
                        assert(set@.contains(point));
                    }
                }
            }
            i = i + 1;
        }
        None
    }

    /// Connects `left` and `right` (see `union_step`); returns whether the
    /// partition changed.
    pub fn add_connection(&mut self, left: Vec3, right: Vec3) -> (r: bool)
        requires
            old(self).wf(),
        ensures
            final(self).wf(),
            final(self)@ == union_step(old(self)@, left, right),
            r == union_merges(old(self)@, left, right),
    {
        broadcast use vstd::seq_lib::group_seq_properties;
        broadcast use vstd::seq::Seq::lemma_push_to_set_commute;

        let ghost ss = self@;
        let contains_left_idx = self.idx_containing_point(left);
        let contains_right_idx = self.idx_containing_point(right);
        proof {
            assert(ss.len() == self.stuff@.len());
            assert(forall|k: int| 0 <= k < ss.len() ==> (#[trigger] ss[k]) == self.stuff@[k]@.to_set());
        }
        match (contains_left_idx, contains_right_idx) {
            (None, None) => {
                let mut new: Vec<Vec3> = Vec::new();
                new.push(left);
                if left != right {
                    new.push(right);
                }
                let ghost nv = new@;
                proof {
                    assert(nv.to_set() =~= set![left, right]) by {
                        assert(Seq::<Vec3>::empty().to_set() =~= Set::<Vec3>::empty());
                        assert(seq![left] == Seq::<Vec3>::empty().push(left));
                        if left != right {
                            assert(nv == seq![left].push(right));
                        }
                    }
                    assert(nv.no_duplicates());
                }
                self.stuff.push(new);
                proof {
                    assert(self@ =~= ss.push(set![left, right]));
                    assert forall|k: int| 0 <= k < ss.len() implies (#[trigger] ss[k]).disjoint(
                        set![left, right],
                    ) by {
                        assert(!ss[k].contains(left));
                        assert(!ss[k].contains(right));
                    }
                    assert(set![left, right].finite() && set![left, right].contains(left));
                }
                true
            },
            (None, Some(right_i)) => {
                let ghost old_v = self.stuff@[right_i as int]@;
                self.stuff[right_i].push(left);
                proof {
                    assert(self@ =~= ss.update(right_i as int, ss[right_i as int].insert(left)));
                    assert(!old_v.contains(left));
                    assert forall|k: int| 0 <= k < ss.len() && k != right_i implies !(
                    #[trigger] ss[k]).contains(left) by {}
                }
                true
            },
            (Some(left_i), None) => {
                let ghost old_v = self.stuff@[left_i as int]@;
                self.stuff[left_i].push(right);
                proof {
                    assert(self@ =~= ss.update(left_i as int, ss[left_i as int].insert(right)));
                    assert(!old_v.contains(right));
                    assert forall|k: int| 0 <= k < ss.len() && k != left_i implies !(
                    #[trigger] ss[k]).contains(right) by {}
                }
                true
            },
            (Some(left_i), Some(right_i)) => {
                if left_i == right_i {
                    return false;
                }
                let (larger_i, smaller_i) = if left_i < right_i {
                    (right_i, left_i)
                } else {
                    (left_i, right_i)
                };
                let ghost a = self.stuff@[smaller_i as int]@;
                let ghost bb = self.stuff@[larger_i as int]@;
                let mut moved = self.stuff.remove(larger_i);
                self.stuff[smaller_i].append(&mut moved);
                proof {
                    assert(ss[smaller_i as int].disjoint(ss[larger_i as int]));
                    assert((a + bb).to_set() =~= a.to_set().union(bb.to_set())) by {
                        assert forall|p: Vec3| (a + bb).contains(p) <==> a.contains(p) || bb.contains(p) by {
                            if (a + bb).contains(p) {
                                let k = choose|k: int| 0 <= k < (a + bb).len() && (a + bb)[k] == p;
                                if k >= a.len() {
                                    assert(bb[k - a.len()] == p);
                                }
                            }
                            if bb.contains(p) {
                                let k = choose|k: int| 0 <= k < bb.len() && bb[k] == p;
                                assert((a + bb)[a.len() + k] == p);
                            }
                            if a.contains(p) {
                                let k = choose|k: int| 0 <= k < a.len() && a[k] == p;
                                assert((a + bb)[k] == p);
                            }
                        }
                    }
                    assert((a + bb).no_duplicates()) by {
                        assert forall|i: int, j: int| 0 <= i < (a + bb).len() && 0 <= j < (a + bb).len() && i != j
                            implies (a + bb)[i] != (a + bb)[j] by {
                            if i < a.len() && j >= a.len() {
                                assert(a.to_set().contains(a[i]));
                                assert(bb.to_set().contains(bb[j - a.len()]));
                            } else if j < a.len() && i >= a.len() {
                                assert(a.to_set().contains(a[j]));
                                assert(bb.to_set().contains(bb[i - a.len()]));
                            }
                        }
                    }
                    let merged = ss.update(smaller_i as int, ss[smaller_i as int].union(ss[larger_i as int])).remove(larger_i as int);
                    assert(self@ =~= merged);
                    assert forall|i: int, j: int| 0 <= i < merged.len() && 0 <= j < merged.len() && i != j
                        implies (#[trigger] merged[i]).disjoint(#[trigger] merged[j]) by {
                        let oi = if i < larger_i { i } else { i + 1 };
                        let oj = if j < larger_i { j } else { j + 1 };
                        assert(ss[oi].disjoint(ss[oj]));
                        if i == smaller_i {
                            assert(ss[larger_i as int].disjoint(ss[oj]));
                        }
                        if j == smaller_i {
                            assert(ss[oi].disjoint(ss[larger_i as int]));
                        }
                    }
                    assert forall|i: int| 0 <= i < merged.len() implies (#[trigger] merged[i]).finite() && merged[i].len() > 0 by {
                        let oi = if i < larger_i { i } else { i + 1 };
                        if i == smaller_i {
                            vstd::set_lib::lemma_len_subset(ss[smaller_i as int], merged[i]);
                        }
                    }
                }
                true
            },
        }
    }

    /// Each cluster's size is the length of its vector.
    pub proof fn lemma_set_sizes(&self)
        requires
            self.wf(),
        ensures
            sizes(self@).len() == self.stuff@.len(),
            forall|k: int|
                0 <= k < self.stuff@.len() ==> #[trigger] sizes(self@)[k] == self.stuff@[k]@.len(),
    {
        assert forall|k: int| 0 <= k < self.stuff@.len() implies #[trigger] sizes(self@)[k]
            == self.stuff@[k]@.len() by {
            self.stuff@[k]@.unique_seq_to_set();
        }
    }

    /// Orders the clusters by size, largest first; clusters of equal size
    /// keep their order.
    pub fn sort_descending(&mut self)
        requires
            old(self).wf(),
        ensures
            final(self).wf(),
            final(self)@.to_multiset() == old(self)@.to_multiset(),
            sizes(final(self)@).to_multiset() == sizes(old(self)@).to_multiset(),
            descending(sizes(final(self)@)),
            exists|p: Seq<int>| stable_reorder(p, old(self)@, final(self)@),
            final(self).stuff@.len() == old(self).stuff@.len(),
    {
        broadcast use vstd::seq_lib::group_to_multiset_ensures;
        broadcast use vstd::seq_lib::to_multiset_remove;
        broadcast use vstd::seq_lib::to_multiset_insert;

        let ghost ss0 = self@;
        let n = self.stuff.len();
        let ghost mut perm: Seq<int> = Seq::new(n as nat, |k: int| k);
        assert(stable_reorder(perm, ss0, self@));
        if n == 0 {
            return;
        }
        let mut i: usize = 1;
        while i < n
            invariant
                n == self.stuff@.len(),
                1 <= i <= n,
                self.wf(),
                self@.to_multiset() == ss0.to_multiset(),
                sizes(self@).to_multiset() == sizes(ss0).to_multiset(),
                forall|a: int, c: int|
                    0 <= a < c < i ==> #[trigger] sizes(self@)[a] >= #[trigger] sizes(self@)[c],
                stable_reorder(perm, ss0, self@),
                forall|k: int| 0 <= k < i ==> #[trigger] perm[k] < i,
                forall|k: int| i <= k < n ==> #[trigger] perm[k] == k,
            decreases n - i,
        {
            let ghost before = self@;
            let ghost bs = self.stuff@;
            proof {
                self.lemma_set_sizes();
            }
            let len_i = self.stuff[i].len();
            let mut pos: usize = 0;
            while pos < i && self.stuff[pos].len() >= len_i
                invariant
                    n == self.stuff@.len(),
                    i < n,
                    pos <= i,
                    self.stuff@ == bs,
                    len_i == sizes(before)[i as int],
                    forall|k: int|
                        0 <= k < n ==> #[trigger] self.stuff@[k]@.len() == sizes(before)[k],
                    forall|k: int| 0 <= k < pos ==> #[trigger] sizes(before)[k] >= len_i,
                decreases i - pos,
            {
                pos = pos + 1;
            }
            let v = self.stuff.remove(i);
            self.stuff.insert(pos, v);
            proof {
                let sb = sizes(before);
                let after = before.remove(i as int).insert(pos as int, before[i as int]);
                assert(self.stuff@ =~= bs.remove(i as int).insert(pos as int, bs[i as int]));
                assert forall|k: int| 0 <= k < n implies self.stuff@[k] == bs[
                    #[trigger] moved_from(pos as int, i as int, k)] by {}
                assert(self@ =~= after);
                assert(sizes(after) =~= sb.remove(i as int).insert(pos as int, sb[i as int]));
                assert forall|k: int| 0 <= k < n implies (#[trigger] self.stuff@[k])@.no_duplicates() by {
                    assert(self.stuff@[k] == bs[moved_from(pos as int, i as int, k)]);
                }
                assert forall|k: int| 0 <= k < n implies (#[trigger] after[k]).finite() && after[k].len() > 0 by {
                    assert(after[k] == before[moved_from(pos as int, i as int, k)]);
                }
                assert forall|a: int, c: int| 0 <= a < n && 0 <= c < n && a != c implies (
                #[trigger] after[a]).disjoint(#[trigger] after[c]) by {
                    assert(after[a] == before[moved_from(pos as int, i as int, a)]);
                    assert(after[c] == before[moved_from(pos as int, i as int, c)]);
                }
                broadcast use vstd::multiset::group_multiset_axioms;

                let r1 = before.remove(i as int);
                assert(before.len() == n);
                vstd::seq_lib::to_multiset_remove(before, i as int);
                vstd::seq_lib::to_multiset_insert(r1, pos as int, before[i as int]);
                assert(r1.to_multiset() == before.to_multiset().remove(before[i as int]));
                assert(r1.insert(pos as int, before[i as int]).to_multiset() == r1.to_multiset().insert(before[i as int]));
                before.to_multiset_ensures();
                assert(before.contains(before[i as int]));
                assert(before.to_multiset().count(before[i as int]) > 0);
                assert(before.to_multiset().remove(before[i as int]).insert(before[i as int]) =~= before.to_multiset());
                let q1 = sb.remove(i as int);
                vstd::seq_lib::to_multiset_remove(sb, i as int);
                vstd::seq_lib::to_multiset_insert(q1, pos as int, sb[i as int]);
                assert(q1.to_multiset() == sb.to_multiset().remove(sb[i as int]));
                assert(q1.insert(pos as int, sb[i as int]).to_multiset() == q1.to_multiset().insert(sb[i as int]));
                sb.to_multiset_ensures();
                assert(sb.len() == n);
                assert(sb.contains(sb[i as int]));
                assert(sb.to_multiset().count(sb[i as int]) > 0);
                assert(sb.to_multiset().remove(sb[i as int]).insert(sb[i as int]) =~= sb.to_multiset());
                let sa = sizes(after);
                assert forall|a: int, c: int| 0 <= a < c < i + 1 implies #[trigger] sa[a] >= #[trigger] sa[c] by {
                    assert(sa[a] == sb[moved_from(pos as int, i as int, a)]);
                    assert(sa[c] == sb[moved_from(pos as int, i as int, c)]);
                    if pos < i {
                        assert(sb[pos as int] < len_i);
                    }
                }
                let np = Seq::new(n as nat, |k: int| perm[moved_from(pos as int, i as int, k)]);
                assert forall|k: int| 0 <= k < n implies 0 <= #[trigger] np[k] < n && after[k]
                    == ss0[np[k]] by {
                    assert(after[k] == before[moved_from(pos as int, i as int, k)]);
                }
                assert forall|k: int, l: int| 0 <= k < l < n implies #[trigger] np[k]
                    != #[trigger] np[l] by {
                    let mk = moved_from(pos as int, i as int, k);
                    let ml = moved_from(pos as int, i as int, l);
                    assert(mk != ml);
                    if mk < ml {
                        assert(perm[mk] != perm[ml]);
                    } else {
                        assert(perm[ml] != perm[mk]);
                    }
                }
                assert forall|k: int, l: int|
                    0 <= k < l < n && (#[trigger] after[k]).len() == (#[trigger] after[l]).len()
                    implies np[k] < np[l] by {
                    let mk = moved_from(pos as int, i as int, k);
                    let ml = moved_from(pos as int, i as int, l);
                    assert(after[k] == before[mk] && after[l] == before[ml]);
                    if k != pos && l != pos {
                        assert(mk < ml);
                        assert(sb[mk] == before[mk].len() && sb[ml] == before[ml].len());
                    } else if k == pos {
                        if l <= i {
                            assert(sb[pos as int] >= sb[l - 1]);
                            assert(sb[pos as int] < len_i);
                            assert(sb[l - 1] == after[l].len());
                            assert(sb[i as int] == after[k].len());
                        }
                    }
                }
                assert forall|k: int| 0 <= k < i + 1 implies #[trigger] np[k] < i + 1 by {
                    let mk = moved_from(pos as int, i as int, k);
                    if mk < i {
                        assert(perm[mk] < i);
                    }
                }
                assert(stable_reorder(np, ss0, self@));
                perm = np;
            }
            i = i + 1;
        }
    }
}

/// `e` joins two distinct points of `pts`, and carries their squared
/// distance.
pub open spec fn is_point_edge(pts: Seq<Vec3>, e: Edge) -> bool {
    e.1 < e.2 < pts.len() && e.0 == dist3(pts[e.2 as int], pts[e.1 as int])
}

/// `es` is the edge list of `pts`: every pair of distinct indices once, with
/// its squared distance, ordered by distance and then by position in a
/// row-by-row walk of the distance matrix.
pub open spec fn edge_list_of(pts: Seq<Vec3>, es: Seq<Edge>) -> bool {
    &&& 2 * es.len() == pts.len() * (pts.len() - 1)
    &&& es.no_duplicates()
    &&& sorted_edges(es)
    &&& forall|k: int| 0 <= k < es.len() ==> is_point_edge(pts, #[trigger] es[k])
    &&& forall|lo: int, hi: int|
        0 <= lo < hi < pts.len() ==> #[trigger] es.contains(
            (dist3(pts[hi], pts[lo]) as i64, lo as usize, hi as usize),
        )
}

/// The partition after connecting the endpoints of each edge in turn,
/// starting from the empty one; the high endpoint of an edge goes first.
pub open spec fn run(pts: Seq<Vec3>, es: Seq<Edge>) -> Seq<Set<Vec3>>
    decreases es.len(),
{
    if es.len() == 0 {
        Seq::empty()
    } else {
        let e = es.last();
        union_step(run(pts, es.drop_last()), pts[e.2 as int], pts[e.1 as int])
    }
}

/// The endpoints of the last edge whose connection changed the partition.
pub open spec fn last_merge(pts: Seq<Vec3>, es: Seq<Edge>) -> Option<(Vec3, Vec3)>
    decreases es.len(),
{
    if es.len() == 0 {
        None
    } else {
        let e = es.last();
        let l = pts[e.2 as int];
        let r = pts[e.1 as int];
        if union_merges(run(pts, es.drop_last()), l, r) {
            Some((l, r))
        } else {
            last_merge(pts, es.drop_last())
        }
    }
}

/// The product of the three largest set sizes: the first three of the sizes
/// in non-increasing order.
pub open spec fn largest_three_product(ss: Seq<Set<Vec3>>) -> int {
    let t = choose|t: Seq<int>| t.to_multiset() == sizes(ss).to_multiset() && descending(t);
    t[0] * t[1] * t[2]
}

/// Two non-increasing orderings of one multiset are the same sequence.
pub proof fn lemma_descending_unique(t1: Seq<int>, t2: Seq<int>)
    requires
        descending(t1),
        descending(t2),
        t1.to_multiset() == t2.to_multiset(),
    ensures
        t1 == t2,
    decreases t1.len(),
{
    broadcast use vstd::seq_lib::group_to_multiset_ensures;

    t1.to_multiset_ensures();
    t2.to_multiset_ensures();
    if t1.len() > 0 {
        assert(t2.len() == t1.len());
        assert(t2.contains(t2[0]) && t2.to_multiset().count(t2[0]) > 0);
        assert(t1.contains(t1[0]) && t1.to_multiset().count(t1[0]) > 0);
        assert(t1.contains(t2[0]));
        assert(t2.contains(t1[0]));
        let k1 = choose|k: int| 0 <= k < t1.len() && t1[k] == t2[0];
        let k2 = choose|k: int| 0 <= k < t2.len() && t2[k] == t1[0];
        if k1 > 0 {
            assert(t1[0] >= t1[k1]);
        }
        if k2 > 0 {
            assert(t2[0] >= t2[k2]);
        }
        assert(t1[0] == t2[0]);
        vstd::seq_lib::to_multiset_remove(t1, 0);
        vstd::seq_lib::to_multiset_remove(t2, 0);
        let r1 = t1.remove(0);
        let r2 = t2.remove(0);
        assert forall|a: int, c: int| 0 <= a < c < r1.len() implies #[trigger] r1[a] >= #[trigger] r1[c] by {
            assert(r1[a] == t1[a + 1] && r1[c] == t1[c + 1]);
        }
        assert forall|a: int, c: int| 0 <= a < c < r2.len() implies #[trigger] r2[a] >= #[trigger] r2[c] by {
            assert(r2[a] == t2[a + 1] && r2[c] == t2[c + 1]);
        }
        lemma_descending_unique(r1, r2);
        assert(t1 =~= t2) by {
            assert forall|k: int| 0 <= k < t1.len() implies t1[k] == t2[k] by {
                if k > 0 {
                    assert(t1[k] == r1[k - 1] && t2[k] == r2[k - 1]);
                }
            }
        }
    } else {
        assert(t1 =~= t2);
    }
}

/// A driver's text answer agrees with the answer that the spec gives.
pub open spec fn answers(r: Result<String, PuzzleError>, s: Result<Seq<char>, PuzzleError>) -> bool {
    match (r, s) {
        (Ok(a), Ok(b)) => a@ == b,
        (Err(a), Err(b)) => a == b,
        _ => false,
    }
}

/// Bounded-count clustering: connect along the first `connect` edges (all of
/// them, when there are fewer), then multiply the three largest cluster
/// sizes.
pub open spec fn policy_a(pts: Seq<Vec3>, es: Seq<Edge>, connect: int) -> Result<
    Seq<char>,
    PuzzleError,
> {
    let k = if connect < es.len() {
        connect
    } else {
        es.len() as int
    };
    let ss = run(pts, es.take(k));
    if ss.len() < 3 {
        Err(PuzzleError::TooFewClusters)
    } else if largest_three_product(ss) > u64::MAX {
        Err(PuzzleError::Overflow)
    } else {
        Ok(decimal(largest_three_product(ss)))
    }
}

/// Run to saturation: connect along every edge, then multiply the `x`
/// coordinates of the two points of the last connection that changed the
/// partition.
pub open spec fn policy_b(pts: Seq<Vec3>, es: Seq<Edge>) -> Result<Seq<char>, PuzzleError> {
    match last_merge(pts, es) {
        Some((l, r)) => Ok(decimal(l.x * r.x)),
        None => Err(PuzzleError::TooFewItems),
    }
}

/// What a driver owes on `input`: `Malformed` unless every line is a point,
/// `Overflow` unless the distance matrix fits, else the policy's answer over
/// the edge list of the points.
pub open spec fn driver_answers(
    input: Seq<u8>,
    r: Result<String, PuzzleError>,
    policy: spec_fn(Seq<Vec3>, Seq<Edge>) -> Result<Seq<char>, PuzzleError>,
) -> bool {
    match points_of(input) {
        None => r == Err::<String, PuzzleError>(PuzzleError::Malformed),
        Some(pts) => if !(all_fit(pts) && pts.len() * pts.len() <= usize::MAX) {
            r == Err::<String, PuzzleError>(PuzzleError::Overflow)
        } else {
            exists|es: Seq<Edge>| edge_list_of(pts, es) && answers(r, policy(pts, es))
        },
    }
}

/// Loads the points and builds their sorted edge list.
fn load_edges(input: &str) -> (r: Result<(Vec<Vec3>, Vec<Edge>), PuzzleError>)
    ensures
        match points_of(input.spec_bytes()) {
            None => r == Err::<(Vec<Vec3>, Vec<Edge>), PuzzleError>(PuzzleError::Malformed),
            Some(pts) => if !(all_fit(pts) && pts.len() * pts.len() <= usize::MAX) {
                r == Err::<(Vec<Vec3>, Vec<Edge>), PuzzleError>(PuzzleError::Overflow)
            } else {
                r is Ok && r->Ok_0.0@ == pts && edge_list_of(pts, r->Ok_0.1@)
            },
        },
{
    let points = load_points(input)?;
    let grid = grid_of_all_distances(&points)?;
    let connections = connection_pairs(&grid);
    proof {
        let pts = points@;
        let m = grid.storage@;
        let n = pts.len() as int;
        assert forall|k: int| 0 <= k < connections@.len() implies is_point_edge(
            pts,
            #[trigger] connections@[k],
        ) by {
            let e = connections@[k];
            assert(is_matrix_edge(m, n, e));
            assert(m[e.2 + e.1 * n] == dist3(pts[e.2 as int], pts[e.1 as int]));
        }
        assert forall|lo: int, hi: int| 0 <= lo < hi < n implies #[trigger] connections@.contains(
            (dist3(pts[hi], pts[lo]) as i64, lo as usize, hi as usize),
        ) by {
            assert(m[hi + lo * n] == dist3(pts[hi], pts[lo]));
            assert(connections@.contains((m[hi + lo * n], lo as usize, hi as usize)));
        }
    }
    Ok((points, connections))
}

/// Policy A with a budget of `connect` edges.
pub fn part1_real(input: &str, connect: usize) -> (r: Result<String, PuzzleError>)
    ensures
        driver_answers(
            input.spec_bytes(),
            r,
            |pts: Seq<Vec3>, es: Seq<Edge>| policy_a(pts, es, connect as int),
        ),
{
    let (points, connections) = load_edges(input)?;
    let ghost pts = points@;
    let ghost es = connections@;
    let k = if connect < connections.len() {
        connect
    } else {
        connections.len()
    };
    let mut circuits = Circuits::new();
    let mut i: usize = 0;
    while i < k
        invariant
            k <= connections@.len(),
            points@ == pts,
            connections@ == es,
            edge_list_of(pts, es),
            i <= k,
            circuits.wf(),
            circuits@ == run(pts, es.take(i as int)),
        decreases k - i,
    {
        let (_len, right, left) = connections[i];
        assert(is_point_edge(pts, es[i as int]));
        circuits.add_connection(points[left], points[right]);
        assert(es.take(i + 1).drop_last() =~= es.take(i as int));
        i = i + 1;
    }
    let ghost ss = circuits@;
    circuits.sort_descending();
    proof {
        circuits.lemma_set_sizes();
    }
    proof {
        assert(sizes(ss).len() == ss.len());
        ss.to_multiset_ensures();
        circuits@.to_multiset_ensures();
    }
    let r = if circuits.stuff.len() < 3 {
        Err(PuzzleError::TooFewClusters)
    } else {
        let a = circuits.stuff[0].len() as u64;
        let b = circuits.stuff[1].len() as u64;
        let c = circuits.stuff[2].len() as u64;
        proof {
            let t = sizes(circuits@);
            let w = choose|w: Seq<int>| w.to_multiset() == sizes(ss).to_multiset() && descending(w);
            lemma_descending_unique(t, w);
            assert(largest_three_product(ss) == a * b * c);
            assert(c >= 1);
        }
        match a.checked_mul(b) {
            Some(ab) => match ab.checked_mul(c) {
                Some(product) => Ok(u64_text(product)),
                None => Err(PuzzleError::Overflow),
            },
            None => {
                proof {
                    assert(a * b * c >= a * b) by (nonlinear_arith)
                        requires
                            c >= 1,
                            a * b >= 0,
                    ;
                }
                Err(PuzzleError::Overflow)
            },
        }
    };
    assert(answers(r, policy_a(pts, es, connect as int)));
    assert(edge_list_of(pts, es));
    r
}

/// Policy A with the default budget of 1000 edges.
pub fn part1(input: &str) -> (r: Result<String, PuzzleError>)
    ensures
        driver_answers(
            input.spec_bytes(),
            r,
            |pts: Seq<Vec3>, es: Seq<Edge>| policy_a(pts, es, 1000),
        ),
{
    part1_real(input, 1000)
}

/// Policy B: connect along every edge and report the checksum of the last
/// connection that changed the partition.
pub fn part2(input: &str) -> (r: Result<String, PuzzleError>)
    ensures
        driver_answers(input.spec_bytes(), r, |pts: Seq<Vec3>, es: Seq<Edge>| policy_b(pts, es)),
{
    let (points, connections) = load_edges(input)?;
    let ghost pts = points@;
    let ghost es = connections@;
    let mut circuits = Circuits::new();
    let mut last_connection: Option<(Vec3, Vec3)> = None;
    let mut i: usize = 0;
    while i < connections.len()
        invariant
            points@ == pts,
            connections@ == es,
            edge_list_of(pts, es),
            i <= es.len(),
            circuits.wf(),
            circuits@ == run(pts, es.take(i as int)),
            last_connection == last_merge(pts, es.take(i as int)),
        decreases es.len() - i,
    {
        let (_len, right_i, left_i) = connections[i];
        assert(is_point_edge(pts, es[i as int]));
        let (left, right) = (points[left_i], points[right_i]);
        let result = circuits.add_connection(left, right);
        if result {
            last_connection = Some((left, right));
        }
        assert(es.take(i + 1).drop_last() =~= es.take(i as int));
        i = i + 1;
    }
    assert(es.take(i as int) =~= es);
    let r = match last_connection {
        Some((left, right)) => {
            let (lx, rx) = (left.x as i128, right.x as i128);
            proof {
                assert(-0x4000_0000_0000_0000_0000_0000_0000_0000 <= lx * rx
                    <= 0x4000_0000_0000_0000_0000_0000_0000_0000) by (nonlinear_arith)
                    requires
                        -0x8000_0000_0000_0000 <= lx <= 0x7fff_ffff_ffff_ffff,
                        -0x8000_0000_0000_0000 <= rx <= 0x7fff_ffff_ffff_ffff,
                ;
            }
            let checksum = lx * rx;
            Ok(i128_text(checksum))
        },
        None => Err(PuzzleError::TooFewItems),
    };
    assert(answers(r, policy_b(pts, es)));
    r
}

} // verus!
