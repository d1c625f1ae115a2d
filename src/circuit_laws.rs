use vstd::prelude::*;

use crate::circuits::{
    disjoint_sets, edge_le, edge_list_of, find, is_point_edge, members, run, sorted_edges, total,
    union_merges, union_step, Edge,
};
use crate::geometry::{dist3, Vec3};

verus! {

/// In a partition, the set that holds a point is the one `find` gives.
pub proof fn lemma_find_unique(ss: Seq<Set<Vec3>>, p: Vec3, i: int)
    requires
        disjoint_sets(ss),
        0 <= i < ss.len(),
        ss[i].contains(p),
    ensures
        find(ss, p) == Some(i),
{
    let c = choose|c: int| 0 <= c < ss.len() && (#[trigger] ss[c]).contains(p);
    if c != i {
        assert(ss[c].disjoint(ss[i]));
    }
}

proof fn lemma_find_none(ss: Seq<Set<Vec3>>, p: Vec3)
    ensures
        find(ss, p) is None <==> forall|k: int| 0 <= k < ss.len() ==> !(#[trigger] ss[k]).contains(p),
        find(ss, p) is Some ==> 0 <= find(ss, p)->Some_0 < ss.len() && ss[find(ss, p)->Some_0].contains(p),
{
}

proof fn lemma_total_update(ss: Seq<Set<Vec3>>, i: int, x: Set<Vec3>)
    requires
        0 <= i < ss.len(),
    ensures
        total(ss.update(i, x)) == total(ss) - ss[i].len() + x.len(),
    decreases ss.len(),
{
    let u = ss.update(i, x);
    if i == ss.len() - 1 {
        assert(u.drop_last() =~= ss.drop_last());
    } else {
        assert(u.drop_last() =~= ss.drop_last().update(i, x));
        lemma_total_update(ss.drop_last(), i, x);
    }
}

proof fn lemma_total_remove(ss: Seq<Set<Vec3>>, i: int)
    requires
        0 <= i < ss.len(),
    ensures
        total(ss.remove(i)) == total(ss) - ss[i].len(),
    decreases ss.len(),
{
    let u = ss.remove(i);
    if i == ss.len() - 1 {
        assert(u =~= ss.drop_last());
    } else {
        assert(u.drop_last() =~= ss.drop_last().remove(i));
        assert(u.last() == ss.last());
        lemma_total_remove(ss.drop_last(), i);
    }
}

/// What one connection does to a partition: it stays a partition, gains the
/// two points as members, and the sum of its set sizes grows by exactly the
/// number of points that were new to it.
pub proof fn lemma_union_step_accounting(ss: Seq<Set<Vec3>>, l: Vec3, r: Vec3)
    requires
        disjoint_sets(ss),
        members(ss).finite(),
        total(ss) == members(ss).len(),
    ensures
        disjoint_sets(union_step(ss, l, r)),
        members(union_step(ss, l, r)) == members(ss).insert(l).insert(r),
        members(union_step(ss, l, r)).finite(),
        total(union_step(ss, l, r)) == members(union_step(ss, l, r)).len(),
{
    let s1 = union_step(ss, l, r);
    let m = members(ss);
    lemma_find_none(ss, l);
    lemma_find_none(ss, r);
    match (find(ss, l), find(ss, r)) {
        (None, None) => {
            let x = set![l, r];
            assert(s1 == ss.push(x));
            assert(s1.drop_last() =~= ss);
            assert(members(s1) =~= m.insert(l).insert(r)) by {
                assert(s1[ss.len() as int] == x);
                assert forall|p: Vec3| members(s1).contains(p) implies m.insert(l).insert(r).contains(p) by {
                    let k = choose|k: int| 0 <= k < s1.len() && (#[trigger] s1[k]).contains(p);
                    if k < ss.len() {
                        assert(s1[k] == ss[k]);
                    }
                }
                assert forall|p: Vec3| m.insert(l).insert(r).contains(p) implies members(s1).contains(p) by {
                    if m.contains(p) {
                        let k = choose|k: int| 0 <= k < ss.len() && (#[trigger] ss[k]).contains(p);
                        assert(s1[k] == ss[k]);
                    }
                }
            }
            assert(!m.contains(l) && !m.contains(r));
            assert(x.len() == if l == r { 1int } else { 2int });
            assert forall|i: int, j: int| 0 <= i < s1.len() && 0 <= j < s1.len() && i != j
                implies (#[trigger] s1[i]).disjoint(#[trigger] s1[j]) by {
                if i == ss.len() {
                    assert(!ss[j].contains(l) && !ss[j].contains(r));
                } else if j == ss.len() {
                    assert(!ss[i].contains(l) && !ss[i].contains(r));
                } else {
                    assert(s1[i] == ss[i] && s1[j] == ss[j]);
                }
            }
            assert forall|i: int| 0 <= i < s1.len() implies (#[trigger] s1[i]).finite() && s1[i].len() > 0 by {
                if i < ss.len() {
                    assert(s1[i] == ss[i]);
                } else {
                    assert(x.contains(l));
                }
            }
        },
        (None, Some(j)) => {
            let x = ss[j].insert(l);
            assert(s1 == ss.update(j, x));
            lemma_total_update(ss, j, x);
            assert(!ss[j].contains(l));
            assert(members(s1) =~= m.insert(l).insert(r)) by {
                assert forall|p: Vec3| members(s1).contains(p) implies m.insert(l).insert(r).contains(p) by {
                    let k = choose|k: int| 0 <= k < s1.len() && (#[trigger] s1[k]).contains(p);
                    if k != j {
                        assert(s1[k] == ss[k]);
                    } else if p != l {
                        assert(ss[j].contains(p));
                    }
                }
                assert forall|p: Vec3| m.insert(l).insert(r).contains(p) implies members(s1).contains(p) by {
                    if p == l || p == r {
                        assert(s1[j].contains(p));
                    } else {
                        let k = choose|k: int| 0 <= k < ss.len() && (#[trigger] ss[k]).contains(p);
                        assert(s1[k].contains(p));
                    }
                }
            }
            assert(m.contains(r));
            assert forall|a: int, c: int| 0 <= a < s1.len() && 0 <= c < s1.len() && a != c
                implies (#[trigger] s1[a]).disjoint(#[trigger] s1[c]) by {
                assert(ss[a].disjoint(ss[c]));
            }
        },
        (Some(i), None) => {
            let x = ss[i].insert(r);
            assert(s1 == ss.update(i, x));
            lemma_total_update(ss, i, x);
            assert(!ss[i].contains(r));
            assert(members(s1) =~= m.insert(l).insert(r)) by {
                assert forall|p: Vec3| members(s1).contains(p) implies m.insert(l).insert(r).contains(p) by {
                    let k = choose|k: int| 0 <= k < s1.len() && (#[trigger] s1[k]).contains(p);
                    if k != i {
                        assert(s1[k] == ss[k]);
                    } else if p != r {
                        assert(ss[i].contains(p));
                    }
                }
                assert forall|p: Vec3| m.insert(l).insert(r).contains(p) implies members(s1).contains(p) by {
                    if p == l || p == r {
                        assert(s1[i].contains(p));
                    } else {
                        let k = choose|k: int| 0 <= k < ss.len() && (#[trigger] ss[k]).contains(p);
                        assert(s1[k].contains(p));
                    }
                }
            }
            assert(m.contains(l));
            assert forall|a: int, c: int| 0 <= a < s1.len() && 0 <= c < s1.len() && a != c
                implies (#[trigger] s1[a]).disjoint(#[trigger] s1[c]) by {
                assert(ss[a].disjoint(ss[c]));
            }
        },
        (Some(i), Some(j)) => {
            assert(m.contains(l) && m.contains(r));
            assert(m.insert(l).insert(r) =~= m);
            if i == j {
                assert(s1 == ss);
            } else {
                let lo = if i < j { i } else { j };
                let hi = if i < j { j } else { i };
                let u = ss.update(lo, ss[lo].union(ss[hi]));
                assert(s1 == u.remove(hi));
                assert(ss[lo].disjoint(ss[hi]));
                vstd::set_lib::lemma_set_disjoint_lens(ss[lo], ss[hi]);
                lemma_total_update(ss, lo, ss[lo].union(ss[hi]));
                lemma_total_remove(u, hi);
                assert(members(s1) =~= m) by {
                    assert forall|p: Vec3| members(s1).contains(p) implies m.contains(p) by {
                        let k = choose|k: int| 0 <= k < s1.len() && (#[trigger] s1[k]).contains(p);
                        let ok = if k < hi { k } else { k + 1 };
                        assert(s1[k] == u[ok]);
                        if ok == lo {
                            if ss[lo].contains(p) {
                            } else {
                                assert(ss[hi].contains(p));
                            }
                        } else {
                            assert(ss[ok].contains(p));
                        }
                    }
                    assert forall|p: Vec3| m.contains(p) implies members(s1).contains(p) by {
                        let k = choose|k: int| 0 <= k < ss.len() && (#[trigger] ss[k]).contains(p);
                        if k == hi || k == lo {
                            assert(s1[lo] == u[lo]);
                            assert(s1[lo].contains(p));
                        } else if k < hi {
                            assert(s1[k] == ss[k]);
                        } else {
                            assert(s1[k - 1] == ss[k]);
                        }
                    }
                }
                assert forall|a: int, c: int| 0 <= a < s1.len() && 0 <= c < s1.len() && a != c
                    implies (#[trigger] s1[a]).disjoint(#[trigger] s1[c]) by {
                    let oa = if a < hi { a } else { a + 1 };
                    let oc = if c < hi { c } else { c + 1 };
                    assert(s1[a] == u[oa] && s1[c] == u[oc]);
                    assert(ss[oa].disjoint(ss[oc]));
                    if a == lo {
                        assert(ss[hi].disjoint(ss[oc]));
                    }
                    if c == lo {
                        assert(ss[oa].disjoint(ss[hi]));
                    }
                }
                assert forall|a: int| 0 <= a < s1.len() implies (#[trigger] s1[a]).finite() && s1[a].len() > 0 by {
                    let oa = if a < hi { a } else { a + 1 };
                    assert(s1[a] == u[oa]);
                    if a == lo {
                        vstd::set_lib::lemma_len_subset(ss[lo], s1[a]);
                    }
                }
            }
        },
    }
}

/// A reachable partition: disjoint non-empty finite sets whose sizes add up
/// to the number of their members.
pub open spec fn valid_partition(ss: Seq<Set<Vec3>>) -> bool {
    &&& disjoint_sets(ss)
    &&& members(ss).finite()
    &&& total(ss) == members(ss).len()
}

/// Connecting `a` and `b` a second time reports no merge and changes
/// nothing, so the number of points held stays the same.
pub proof fn lemma_union_idempotent(ss: Seq<Set<Vec3>>, a: Vec3, b: Vec3)
    requires
        valid_partition(ss),
    ensures
        union_step(union_step(ss, a, b), a, b) == union_step(ss, a, b),
        !union_merges(union_step(ss, a, b), a, b),
        total(union_step(union_step(ss, a, b), a, b)) == total(union_step(ss, a, b)),
{
    let s1 = union_step(ss, a, b);
    lemma_union_step_accounting(ss, a, b);
    lemma_find_none(ss, a);
    lemma_find_none(ss, b);
    let k: int = match (find(ss, a), find(ss, b)) {
        (None, None) => ss.len() as int,
        (None, Some(j)) => j,
        (Some(i), None) => i,
        (Some(i), Some(j)) => if i < j {
            i
        } else {
            j
        },
    };
    assert(0 <= k < s1.len() && s1[k].contains(a) && s1[k].contains(b));
    lemma_find_unique(s1, a, k);
    lemma_find_unique(s1, b, k);
}

/// Both endpoints of each of the edges.
pub open spec fn seen(pts: Seq<Vec3>, es: Seq<Edge>) -> Set<Vec3>
    decreases es.len(),
{
    if es.len() == 0 {
        Set::empty()
    } else {
        let e = es.last();
        seen(pts, es.drop_last()).insert(pts[e.2 as int]).insert(pts[e.1 as int])
    }
}

/// At every point of a run, the sets form a partition whose members are
/// exactly the points that the processed edges touch, and the sum of the
/// set sizes is the number of those points: none counted twice, none lost.
pub proof fn lemma_run_accounting(pts: Seq<Vec3>, es: Seq<Edge>)
    requires
        forall|k: int| 0 <= k < es.len() ==> (#[trigger] es[k]).1 < pts.len() && es[k].2 < pts.len(),
    ensures
        valid_partition(run(pts, es)),
        members(run(pts, es)) == seen(pts, es),
        total(run(pts, es)) == seen(pts, es).len(),
    decreases es.len(),
{
    if es.len() == 0 {
        assert(members(run(pts, es)) =~= Set::<Vec3>::empty());
    } else {
        let prev = es.drop_last();
        assert forall|k: int| 0 <= k < prev.len() implies (#[trigger] prev[k]).1 < pts.len()
            && prev[k].2 < pts.len() by {
            assert(prev[k] == es[k]);
        }
        lemma_run_accounting(pts, prev);
        let e = es.last();
        lemma_union_step_accounting(run(pts, prev), pts[e.2 as int], pts[e.1 as int]);
    }
}

/// The number of clusters among `n` points when each point that no set
/// holds counts as a cluster of its own.
pub open spec fn cluster_count(ss: Seq<Set<Vec3>>, n: int) -> int {
    ss.len() + n - total(ss)
}

/// Connecting two points never adds a cluster (counting unconnected points
/// as clusters of one) and never loses a point that was held; connecting
/// two distinct points removes exactly one cluster when it merges, and none
/// otherwise.
pub proof fn lemma_union_step_monotonic(ss: Seq<Set<Vec3>>, l: Vec3, r: Vec3, n: int)
    requires
        valid_partition(ss),
    ensures
        total(union_step(ss, l, r)) >= total(ss),
        cluster_count(union_step(ss, l, r), n) <= cluster_count(ss, n),
        members(ss).subset_of(members(union_step(ss, l, r))),
        l != r ==> cluster_count(union_step(ss, l, r), n) == cluster_count(ss, n) - if union_merges(
            ss,
            l,
            r,
        ) {
            1int
        } else {
            0int
        },
{
    let s1 = union_step(ss, l, r);
    let m = members(ss);
    lemma_union_step_accounting(ss, l, r);
    lemma_find_none(ss, l);
    lemma_find_none(ss, r);
    let ml = m.insert(l);
    assert(ml.len() == m.len() + if m.contains(l) { 0int } else { 1int });
    assert(ml.insert(r).len() == ml.len() + if ml.contains(r) { 0int } else { 1int });
    match (find(ss, l), find(ss, r)) {
        (None, None) => {
            assert(!m.contains(l));
            assert(!m.contains(r));
            assert(s1.len() == ss.len() + 1);
        },
        (None, Some(j)) => {
            assert(!m.contains(l));
            assert(m.contains(r));
            assert(s1.len() == ss.len());
        },
        (Some(i), None) => {
            assert(m.contains(l));
            assert(!m.contains(r));
            assert(s1.len() == ss.len());
        },
        (Some(i), Some(j)) => {
            assert(m.contains(l) && m.contains(r));
            if i != j {
                assert(s1.len() == ss.len() - 1);
            }
        },
    }
}

/// Over a run, the held points never decrease and the cluster count never
/// increases from one processed edge to the next; an edge between two
/// distinct points lowers it by exactly one when it merges.
pub proof fn lemma_run_monotonic(pts: Seq<Vec3>, es: Seq<Edge>, i: int, n: int)
    requires
        forall|k: int| 0 <= k < es.len() ==> (#[trigger] es[k]).1 < pts.len() && es[k].2 < pts.len(),
        0 <= i < es.len(),
    ensures
        total(run(pts, es.take(i))) <= total(run(pts, es.take(i + 1))),
        cluster_count(run(pts, es.take(i + 1)), n) <= cluster_count(run(pts, es.take(i)), n),
        pts[es[i].2 as int] != pts[es[i].1 as int] ==> cluster_count(run(pts, es.take(i + 1)), n)
            == cluster_count(run(pts, es.take(i)), n) - if union_merges(
            run(pts, es.take(i)),
            pts[es[i].2 as int],
            pts[es[i].1 as int],
        ) {
            1int
        } else {
            0int
        },
{
    let a = es.take(i);
    let b = es.take(i + 1);
    assert(b.drop_last() =~= a);
    assert forall|k: int| 0 <= k < a.len() implies (#[trigger] a[k]).1 < pts.len() && a[k].2
        < pts.len() by {
        assert(a[k] == es[k]);
    }
    lemma_run_accounting(pts, a);
    let e = b.last();
    assert(e == es[i]);
    lemma_union_step_monotonic(run(pts, a), pts[e.2 as int], pts[e.1 as int], n);
}

/// Two strictly ascending edge sequences with the same elements are equal.
proof fn lemma_strictly_sorted_unique(a: Seq<Edge>, b: Seq<Edge>)
    requires
        sorted_edges(a),
        sorted_edges(b),
        a.no_duplicates(),
        b.no_duplicates(),
        forall|e: Edge| a.contains(e) <==> b.contains(e),
    ensures
        a == b,
    decreases a.len(),
{
    if a.len() == 0 {
        if b.len() > 0 {
            assert(b.contains(b[0]));
        }
        assert(a =~= b);
    } else {
        assert(a.contains(a[0]));
        assert(b.len() > 0);
        assert(b.contains(b[0]));
        let i = choose|i: int| 0 <= i < b.len() && b[i] == a[0];
        let j = choose|j: int| 0 <= j < a.len() && a[j] == b[0];
        if i > 0 {
            assert(edge_le(b[0], b[i]));
        }
        if j > 0 {
            assert(edge_le(a[0], a[j]));
        }
        assert(a[0] == b[0]);
        let ra = a.drop_first();
        let rb = b.drop_first();
        assert forall|x: int, y: int| 0 <= x < y < ra.len() implies edge_le(
            #[trigger] ra[x],
            #[trigger] ra[y],
        ) by {
            assert(ra[x] == a[x + 1] && ra[y] == a[y + 1]);
        }
        assert forall|x: int, y: int| 0 <= x < y < rb.len() implies edge_le(
            #[trigger] rb[x],
            #[trigger] rb[y],
        ) by {
            assert(rb[x] == b[x + 1] && rb[y] == b[y + 1]);
        }
        assert forall|e: Edge| ra.contains(e) <==> rb.contains(e) by {
            if ra.contains(e) {
                let k = choose|k: int| 0 <= k < ra.len() && ra[k] == e;
                assert(a[k + 1] == e);
                assert(e != a[0]);
                assert(b.contains(e));
                let q = choose|q: int| 0 <= q < b.len() && b[q] == e;
                assert(q != 0);
                assert(rb[q - 1] == e);
            }
            if rb.contains(e) {
                let k = choose|k: int| 0 <= k < rb.len() && rb[k] == e;
                assert(b[k + 1] == e);
                assert(e != b[0]);
                assert(a.contains(e));
                let q = choose|q: int| 0 <= q < a.len() && a[q] == e;
                assert(q != 0);
                assert(ra[q - 1] == e);
            }
        }
        lemma_strictly_sorted_unique(ra, rb);
        assert(a =~= b) by {
            assert forall|k: int| 0 <= k < a.len() implies a[k] == b[k] by {
                if k > 0 {
                    assert(a[k] == ra[k - 1] && b[k] == rb[k - 1]);
                }
            }
        }
    }
}

/// A point set has exactly one edge list: the drivers' answers, stated over
/// "an" edge list, are one answer.
pub proof fn lemma_edge_list_unique(pts: Seq<Vec3>, a: Seq<Edge>, b: Seq<Edge>)
    requires
        edge_list_of(pts, a),
        edge_list_of(pts, b),
    ensures
        a == b,
{
    assert forall|e: Edge| a.contains(e) implies b.contains(e) by {
        let k = choose|k: int| 0 <= k < a.len() && a[k] == e;
        assert(is_point_edge(pts, a[k]));
        assert(b.contains((dist3(pts[e.2 as int], pts[e.1 as int]) as i64, e.1 as int as usize, e.2 as int as usize)));
    }
    assert forall|e: Edge| b.contains(e) implies a.contains(e) by {
        let k = choose|k: int| 0 <= k < b.len() && b[k] == e;
        assert(is_point_edge(pts, b[k]));
        assert(a.contains((dist3(pts[e.2 as int], pts[e.1 as int]) as i64, e.1 as int as usize, e.2 as int as usize)));
    }
    lemma_strictly_sorted_unique(a, b);
}

} // verus!
