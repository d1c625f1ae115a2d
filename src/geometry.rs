use vstd::prelude::*;

use vstd::string::StringSliceAdditionalSpecFns;

use crate::error::PuzzleError;
use crate::text::{field, field_span, fields_beyond, i64_of, parse_i64};

verus! {

/// The squared Euclidean distance between two points in 3-D, over integers.
pub open spec fn dist3(a: Vec3, b: Vec3) -> int {
    (a.x - b.x) * (a.x - b.x) + (a.y - b.y) * (a.y - b.y) + (a.z - b.z) * (a.z - b.z)
}

/// A point (or displacement) in 3-D with signed integer coordinates.
#[derive(Clone, Copy, Hash, PartialEq, Eq, Debug, Default, Structural)]
pub struct Vec3 {
    pub x: i64,
    pub y: i64,
    pub z: i64,
}

/// The point that a line `"x,y,z"` gives: exactly three `i64` fields,
/// separated by commas.
pub open spec fn vec3_of(s: Seq<u8>) -> Option<Vec3> {
    if fields_beyond(s, 0, 2, 44) {
        None
    } else {
        vec3_fields(s)
    }
}

/// The point that the first three comma-separated fields of `s` give.
pub open spec fn vec3_fields(s: Seq<u8>) -> Option<Vec3> {
    match (i64_of(field(s, 0, 0, 44)), i64_of(field(s, 0, 1, 44)), i64_of(field(s, 0, 2, 44))) {
        (Some(x), Some(y), Some(z)) => Some(Vec3 { x, y, z }),
        _ => None,
    }
}

/// The point that a line `"x,y"` gives: two `i64` fields, separated by a
/// comma; any fields after the second are ignored.
pub open spec fn vec2_of(s: Seq<u8>) -> Option<Vec2> {
    match (i64_of(field(s, 0, 0, 44)), i64_of(field(s, 0, 1, 44))) {
        (Some(x), Some(y)) => Some(Vec2 { x, y }),
        _ => None,
    }
}

/// The spans of the first three comma-separated fields of `b`, an absent
/// field being the empty span at the end.
fn three_fields(b: &[u8]) -> (r: [(usize, usize); 3])
    ensures
        forall|k: int|
            0 <= k < 3 ==> (#[trigger] r[k]).0 <= r[k].1 <= b@.len() && b@.subrange(
                r[k].0 as int,
                r[k].1 as int,
            ) == field(b@, 0, k as nat, 44),
        r[2].1 < b@.len() <==> fields_beyond(b@, 0, 2, 44),
{
    let (e0, s1) = field_span(b, 0, 44);
    let (e1, s2) = field_span(b, s1, 44);
    let (e2, _s3) = field_span(b, s2, 44);
    proof {
        let s = b@;
        assert(s.subrange(0, e0 as int) == field(s, 0, 0, 44));
        if e0 < s.len() {
            assert(field(s, 0, 1, 44) == field(s, s1 as int, 0, 44));
            assert(field(s, 0, 2, 44) == field(s, s1 as int, 1, 44));
            assert(fields_beyond(s, 0, 2, 44) == fields_beyond(s, s1 as int, 1, 44));
            if e1 < s.len() {
                assert(field(s, s1 as int, 1, 44) == field(s, s2 as int, 0, 44));
                assert(fields_beyond(s, s1 as int, 1, 44) == fields_beyond(s, s2 as int, 0, 44));
            } else {
                assert(s.subrange(s2 as int, e2 as int) =~= Seq::<u8>::empty());
            }
        } else {
            assert(s.subrange(s1 as int, e1 as int) =~= Seq::<u8>::empty());
            assert(s.subrange(s2 as int, e2 as int) =~= Seq::<u8>::empty());
        }
    }
    [(0, e0), (s1, e1), (s2, e2)]
}

/// Squared distances are never negative.
pub proof fn lemma_dist3_nonneg(a: Vec3, b: Vec3)
    ensures
        dist3(a, b) >= 0,
{
    let (dx, dy, dz) = (a.x - b.x, a.y - b.y, a.z - b.z);
    assert(0 <= dx * dx) by (nonlinear_arith);
    assert(0 <= dy * dy) by (nonlinear_arith);
    assert(0 <= dz * dz) by (nonlinear_arith);
}

/// The squared distance from `a` to `b` is that from `b` to `a`, and a
/// point is at distance zero from itself.
pub proof fn lemma_dist3_symmetric(a: Vec3, b: Vec3)
    ensures
        dist3(a, b) == dist3(b, a),
        dist3(a, a) == 0,
{
    assert((a.x - b.x) * (a.x - b.x) == (b.x - a.x) * (b.x - a.x)) by (nonlinear_arith);
    assert((a.y - b.y) * (a.y - b.y) == (b.y - a.y) * (b.y - a.y)) by (nonlinear_arith);
    assert((a.z - b.z) * (a.z - b.z) == (b.z - a.z) * (b.z - a.z)) by (nonlinear_arith);
}

proof fn lemma_big_square(d: int)
    ensures
        (d >= 3037000500 || d <= -3037000500) ==> d * d > i64::MAX,
{
    if d >= 3037000500 {
        assert(d * d >= 3037000500 * 3037000500) by (nonlinear_arith)
            requires
                d >= 3037000500,
        ;
    } else if d <= -3037000500 {
        assert(d * d >= 3037000500 * 3037000500) by (nonlinear_arith)
            requires
                d <= -3037000500,
        ;
    }
}

impl Vec3 {
    pub fn new(x: i64, y: i64, z: i64) -> (r: Self)
        ensures
            r == (Vec3 { x, y, z }),
    {
        Self { x, y, z }
    }

    /// Parses a line `"x,y,z"`.
    pub fn from_str(line: &str) -> (r: Result<Vec3, PuzzleError>)
        ensures
            r == (match vec3_of(line.spec_bytes()) {
                Some(v) => Ok(v),
                None => Err(PuzzleError::Malformed),
            }),
    {
        Self::from_bytes(line.as_bytes())
    }

    /// Parses the bytes of a line `"x,y,z"`.
    pub fn from_bytes(b: &[u8]) -> (r: Result<Vec3, PuzzleError>)
        ensures
            r == (match vec3_of(b@) {
                Some(v) => Ok(v),
                None => Err(PuzzleError::Malformed),
            }),
    {
        let f = three_fields(b);
        if f[2].1 < b.len() {
            return Err(PuzzleError::Malformed);
        }
        let x = parse_i64(b, f[0].0, f[0].1);
        let y = parse_i64(b, f[1].0, f[1].1);
        let z = parse_i64(b, f[2].0, f[2].1);
        match (x, y, z) {
            (Some(x), Some(y), Some(z)) => Ok(Vec3 { x, y, z }),
            _ => Err(PuzzleError::Malformed),
        }
    }

    /// The squared distance to `other`, or `None` when it does not fit in an
    /// `i64`.
    pub fn checked_distance_squared(&self, other: &Self) -> (r: Option<i64>)
        ensures
            r == (if dist3(*self, *other) <= i64::MAX {
                Some(dist3(*self, *other) as i64)
            } else {
                None
            }),
            dist3(*self, *other) >= 0,
    {
        proof {
            lemma_dist3_nonneg(*self, *other);
        }
        let dx = (self.x as i128) - (other.x as i128);
        let dy = (self.y as i128) - (other.y as i128);
        let dz = (self.z as i128) - (other.z as i128);
        proof {
            assert(0 <= dx * dx) by (nonlinear_arith);
            assert(0 <= dy * dy) by (nonlinear_arith);
            assert(0 <= dz * dz) by (nonlinear_arith);
        }
        if dx >= 3037000500 || dx <= -3037000500 || dy >= 3037000500 || dy <= -3037000500
            || dz >= 3037000500 || dz <= -3037000500 {
            proof {
                lemma_big_square(dx as int);
                lemma_big_square(dy as int);
                lemma_big_square(dz as int);
            }
            return None;
        }
        proof {
            assert(dx * dx <= 3037000499 * 3037000499) by (nonlinear_arith)
                requires
                    -3037000500 < dx < 3037000500,
            ;
            assert(dy * dy <= 3037000499 * 3037000499) by (nonlinear_arith)
                requires
                    -3037000500 < dy < 3037000500,
            ;
            assert(dz * dz <= 3037000499 * 3037000499) by (nonlinear_arith)
                requires
                    -3037000500 < dz < 3037000500,
            ;
        }
        let s = dx * dx + dy * dy + dz * dz;
        if s > 0x7fff_ffff_ffff_ffff {
            None
        } else {
            Some(s as i64)
        }
    }

    /// The squared distance to `other`, when it fits in an `i64`.
    pub fn distance_squared(&self, other: &Self) -> (r: i64)
        requires
            dist3(*self, *other) <= i64::MAX,
        ensures
            r == dist3(*self, *other),
    {
        let dx = (self.x as i128) - (other.x as i128);
        let dy = (self.y as i128) - (other.y as i128);
        let dz = (self.z as i128) - (other.z as i128);
        proof {
            assert(0 <= dx * dx) by (nonlinear_arith);
            assert(0 <= dy * dy) by (nonlinear_arith);
            assert(0 <= dz * dz) by (nonlinear_arith);
        }
        let s = dx * dx + dy * dy + dz * dz;
        s as i64
    }
}

/// The squared Euclidean distance between two points in the plane.
pub open spec fn dist2(a: Vec2, b: Vec2) -> int {
    (a.x - b.x) * (a.x - b.x) + (a.y - b.y) * (a.y - b.y)
}

/// A point (or displacement) in the plane with signed integer coordinates.
#[derive(Clone, Copy, Hash, PartialEq, Eq, Debug, Default, Structural)]
pub struct Vec2 {
    pub x: i64,
    pub y: i64,
}

impl Vec2 {
    pub fn new(x: i64, y: i64) -> (r: Self)
        ensures
            r == (Vec2 { x, y }),
    {
        Self { x, y }
    }

    /// Parses a line `"x,y"`.
    pub fn from_str(line: &str) -> (r: Result<Self, PuzzleError>)
        ensures
            r == (match vec2_of(line.spec_bytes()) {
                Some(v) => Ok(v),
                None => Err(PuzzleError::Malformed),
            }),
    {
        Self::from_bytes(line.as_bytes())
    }

    /// Parses the bytes of a line `"x,y"`.
    pub fn from_bytes(b: &[u8]) -> (r: Result<Self, PuzzleError>)
        ensures
            r == (match vec2_of(b@) {
                Some(v) => Ok(v),
                None => Err(PuzzleError::Malformed),
            }),
    {
        let f = three_fields(b);
        let x = parse_i64(b, f[0].0, f[0].1);
        let y = parse_i64(b, f[1].0, f[1].1);
        match (x, y) {
            (Some(x), Some(y)) => Ok(Vec2 { x, y }),
            _ => Err(PuzzleError::Malformed),
        }
    }

    /// The squared distance to `other`, when it fits in an `i64`.
    pub fn distance_squared(&self, other: &Self) -> (r: i64)
        requires
            dist2(*self, *other) <= i64::MAX,
        ensures
            r == dist2(*self, *other),
    {
        let dx = (self.x as i128) - (other.x as i128);
        let dy = (self.y as i128) - (other.y as i128);
        proof {
            assert(0 <= dx * dx) by (nonlinear_arith);
            assert(0 <= dy * dy) by (nonlinear_arith);
        }
        let s = dx * dx + dy * dy;
        s as i64
    }
}

} // verus!
