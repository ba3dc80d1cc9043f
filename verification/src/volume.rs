//! Bounding volume math over fixed-point coordinates.
//!
//! Coordinates are `i64` values counting micro-meters. An axis-aligned
//! box is a min/max corner pair; a tile-set box is the center plus three
//! half-axis vectors. Transform matrices carry their rotation part
//! scaled by `ROT_SCALE` and their translation in micro-meters.

use vstd::prelude::*;

verus! {

/// Largest coordinate magnitude any point of the library may carry.
pub const POINT_LIMIT: i64 = 1_000_000_000_000_000_000;

/// Largest component magnitude of a tile box that can be carried through
/// corner expansion and a world transform without overflow.
pub const TILE_BOX_LIMIT: i64 = 2_500_000_000_000_000;

/// Fixed-point scale of a transform's rotation entries.
pub const ROT_SCALE: i64 = 1_000_000_000;

/// Largest magnitude of a rotation entry (a scale factor up to four).
pub const ROT_LIMIT: i64 = 4_000_000_000;

/// Largest magnitude of a transform's translation components.
pub const TRANSLATION_LIMIT: i64 = 100_000_000_000_000_000;

#[derive(Clone, Copy, PartialEq, Eq, Structural, Debug)]
pub struct Point3 {
    pub x: i64,
    pub y: i64,
    pub z: i64,
}

impl Point3 {
    /// All components within `limit`.
    pub open spec fn in_limit(self, limit: int) -> bool {
        &&& -limit <= self.x <= limit
        &&& -limit <= self.y <= limit
        &&& -limit <= self.z <= limit
    }

    pub open spec fn wf(self) -> bool {
        self.in_limit(POINT_LIMIT as int)
    }

    pub open spec fn spec_zero() -> Point3 {
        Point3 { x: 0, y: 0, z: 0 }
    }

    /// The origin point.
    pub fn zero() -> (r: Point3)
        ensures
            r == Point3::spec_zero(),
    {
        Point3 { x: 0, y: 0, z: 0 }
    }
}

/// An axis-aligned box given by its least and greatest corner.
#[derive(Clone, Copy, PartialEq, Eq, Structural, Debug)]
pub struct Aabb {
    pub min: Point3,
    pub max: Point3,
}

impl Aabb {
    pub open spec fn wf(self) -> bool {
        &&& self.min.wf()
        &&& self.max.wf()
        &&& self.min.x <= self.max.x
        &&& self.min.y <= self.max.y
        &&& self.min.z <= self.max.z
    }

    pub open spec fn spec_zero() -> Aabb {
        Aabb { min: Point3::spec_zero(), max: Point3::spec_zero() }
    }

    /// The degenerate box at the origin, the stated result of an empty
    /// union.
    pub fn zero() -> (r: Aabb)
        ensures
            r == Aabb::spec_zero(),
    {
        Aabb { min: Point3::zero(), max: Point3::zero() }
    }

    /// Whether `o` lies entirely within `self`.
    pub open spec fn contains_box(self, o: Aabb) -> bool {
        &&& self.min.x <= o.min.x
        &&& self.min.y <= o.min.y
        &&& self.min.z <= o.min.z
        &&& self.max.x >= o.max.x
        &&& self.max.y >= o.max.y
        &&& self.max.z >= o.max.z
    }
}

/// The least box containing both arguments.
pub open spec fn union2(a: Aabb, b: Aabb) -> Aabb {
    Aabb {
        min: Point3 {
            x: if a.min.x <= b.min.x {
                a.min.x
            } else {
                b.min.x
            },
            y: if a.min.y <= b.min.y {
                a.min.y
            } else {
                b.min.y
            },
            z: if a.min.z <= b.min.z {
                a.min.z
            } else {
                b.min.z
            },
        },
        max: Point3 {
            x: if a.max.x >= b.max.x {
                a.max.x
            } else {
                b.max.x
            },
            y: if a.max.y >= b.max.y {
                a.max.y
            } else {
                b.max.y
            },
            z: if a.max.z >= b.max.z {
                a.max.z
            } else {
                b.max.z
            },
        },
    }
}

/// The union of a sequence of boxes; empty input gives the zero box.
pub open spec fn union_seq(s: Seq<Aabb>) -> Aabb
    decreases s.len(),
{
    if s.len() == 0 {
        Aabb::spec_zero()
    } else if s.len() == 1 {
        s[0]
    } else {
        union2(union_seq(s.drop_last()), s.last())
    }
}

/// Componentwise union of a non-empty collection of boxes.
///
/// The result contains every input box; `lemma_union_tightest` shows it
/// is the least such box.
pub fn union_boxes(boxes: &Vec<Aabb>) -> (r: Aabb)
    requires
        forall|i: int| 0 <= i < boxes@.len() ==> (#[trigger] boxes@[i]).wf(),
    ensures
        r == union_seq(boxes@),
        boxes@.len() == 0 ==> r == Aabb::spec_zero(),
        r.wf(),
        forall|i: int| 0 <= i < boxes@.len() ==> r.contains_box(#[trigger] boxes@[i]),
{
    proof {
        lemma_union_contains(boxes@);
        lemma_union_wf(boxes@);
    }
    if boxes.len() == 0 {
        return Aabb::zero();
    }
    let mut acc: Aabb = boxes[0];
    let mut i: usize = 1;
    proof {
        assert(boxes@.subrange(0, 1).len() == 1);
        assert(acc == union_seq(boxes@.subrange(0, 1)));
    }
    while i < boxes.len()
        invariant
            1 <= i <= boxes@.len(),
            forall|k: int| 0 <= k < boxes@.len() ==> (#[trigger] boxes@[k]).wf(),
            acc == union_seq(boxes@.subrange(0, i as int)),
            acc.wf(),
        decreases boxes@.len() - i,
    {
        let b = boxes[i];
        let next = Aabb {
            min: Point3 {
                x: if acc.min.x <= b.min.x {
                    acc.min.x
                } else {
                    b.min.x
                },
                y: if acc.min.y <= b.min.y {
                    acc.min.y
                } else {
                    b.min.y
                },
                z: if acc.min.z <= b.min.z {
                    acc.min.z
                } else {
                    b.min.z
                },
            },
            max: Point3 {
                x: if acc.max.x >= b.max.x {
                    acc.max.x
                } else {
                    b.max.x
                },
                y: if acc.max.y >= b.max.y {
                    acc.max.y
                } else {
                    b.max.y
                },
                z: if acc.max.z >= b.max.z {
                    acc.max.z
                } else {
                    b.max.z
                },
            },
        };
        proof {
            let pre = boxes@.subrange(0, i as int);
            let cur = boxes@.subrange(0, (i + 1) as int);
            assert(cur.drop_last() =~= pre);
            assert(cur.last() == boxes@[i as int]);
            assert(next == union2(union_seq(pre), boxes@[i as int]));
        }
        acc = next;
        i = i + 1;
    }
    proof {
        assert(boxes@.subrange(0, boxes@.len() as int) =~= boxes@);
    }
    acc
}

/// The union contains each of its inputs.
pub proof fn lemma_union_contains(s: Seq<Aabb>)
    ensures
        forall|i: int| 0 <= i < s.len() ==> union_seq(s).contains_box(#[trigger] s[i]),
    decreases s.len(),
{
    if s.len() > 1 {
        lemma_union_contains(s.drop_last());
        assert(forall|i: int|
            0 <= i < s.len() - 1 ==> s.drop_last()[i] == #[trigger] s[i]);
    }
}

pub proof fn lemma_union_wf(s: Seq<Aabb>)
    requires
        forall|i: int| 0 <= i < s.len() ==> (#[trigger] s[i]).wf(),
    ensures
        union_seq(s).wf(),
    decreases s.len(),
{
    if s.len() > 1 {
        assert(forall|i: int|
            0 <= i < s.len() - 1 ==> s.drop_last()[i] == #[trigger] s[i]);
        lemma_union_wf(s.drop_last());
    }
}

/// Minimality: any box containing every input contains the union, so
/// the union is the tightest box around a non-empty input set.
pub proof fn lemma_union_tightest(s: Seq<Aabb>, b: Aabb)
    requires
        s.len() > 0,
        forall|i: int| 0 <= i < s.len() ==> b.contains_box(#[trigger] s[i]),
    ensures
        b.contains_box(union_seq(s)),
    decreases s.len(),
{
    if s.len() > 1 {
        assert(forall|i: int|
            0 <= i < s.len() - 1 ==> s.drop_last()[i] == #[trigger] s[i]);
        lemma_union_tightest(s.drop_last(), b);
    }
}

/// The union depends only on which boxes occur in the input, not on
/// their order or multiplicity: collection order cannot change the
/// root volume.
pub proof fn lemma_union_order_independent(s1: Seq<Aabb>, s2: Seq<Aabb>)
    requires
        s1.len() > 0,
        s2.len() > 0,
        forall|b: Aabb| s1.contains(b) <==> s2.contains(b),
    ensures
        union_seq(s1) == union_seq(s2),
{
    lemma_union_contains(s1);
    lemma_union_contains(s2);
    assert(forall|i: int| 0 <= i < s2.len() ==> s1.contains(#[trigger] s2[i]));
    assert forall|i: int| 0 <= i < s2.len() implies union_seq(s1).contains_box(
        #[trigger] s2[i],
    ) by {
        let j = choose|j: int| 0 <= j < s1.len() && s1[j] == s2[i];
        assert(union_seq(s1).contains_box(s1[j]));
    }
    lemma_union_tightest(s2, union_seq(s1));
    assert forall|i: int| 0 <= i < s1.len() implies union_seq(s2).contains_box(
        #[trigger] s1[i],
    ) by {
        assert(s2.contains(s1[i]));
        let j = choose|j: int| 0 <= j < s2.len() && s2[j] == s1[i];
        assert(union_seq(s2).contains_box(s2[j]));
    }
    lemma_union_tightest(s1, union_seq(s2));
}

/// A box as a tile-set document encodes it: a center and three
/// orthogonal half-axis vectors.
#[derive(Clone, Copy, PartialEq, Eq, Structural, Debug)]
pub struct OrientedBox {
    pub center: Point3,
    pub axis_x: Point3,
    pub axis_y: Point3,
    pub axis_z: Point3,
}

impl OrientedBox {
    pub open spec fn in_limit(self, limit: int) -> bool {
        &&& self.center.in_limit(limit)
        &&& self.axis_x.in_limit(limit)
        &&& self.axis_y.in_limit(limit)
        &&& self.axis_z.in_limit(limit)
    }

    pub open spec fn wf(self) -> bool {
        self.in_limit(POINT_LIMIT as int)
    }
}

/// The center + half-axes encoding of an axis-aligned box. Halving
/// rounds towards the least corner, so the least corner is preserved
/// exactly.
pub open spec fn spec_box_to_tileset_box(b: Aabb) -> OrientedBox {
    OrientedBox {
        center: Point3 {
            x: (b.min.x + (b.max.x - b.min.x) / 2) as i64,
            y: (b.min.y + (b.max.y - b.min.y) / 2) as i64,
            z: (b.min.z + (b.max.z - b.min.z) / 2) as i64,
        },
        axis_x: Point3 { x: ((b.max.x - b.min.x) / 2) as i64, y: 0, z: 0 },
        axis_y: Point3 { x: 0, y: ((b.max.y - b.min.y) / 2) as i64, z: 0 },
        axis_z: Point3 { x: 0, y: 0, z: ((b.max.z - b.min.z) / 2) as i64 },
    }
}

/// Converts a min/max box to the center + half-axes encoding. A
/// degenerate (zero-volume) input is legal and yields zero half-axes.
pub fn box_to_tileset_box(b: &Aabb) -> (r: OrientedBox)
    requires
        b.wf(),
    ensures
        r == spec_box_to_tileset_box(*b),
        r.wf(),
{
    let hx: i64 = (((b.max.x - b.min.x) as u64) / 2) as i64;
    let hy: i64 = (((b.max.y - b.min.y) as u64) / 2) as i64;
    let hz: i64 = (((b.max.z - b.min.z) as u64) / 2) as i64;
    OrientedBox {
        center: Point3 { x: b.min.x + hx, y: b.min.y + hy, z: b.min.z + hz },
        axis_x: Point3 { x: hx, y: 0, z: 0 },
        axis_y: Point3 { x: 0, y: hy, z: 0 },
        axis_z: Point3 { x: 0, y: 0, z: hz },
    }
}

/// The contribution of one half-axis component to a corner: negated
/// when the selector bit is clear.
pub open spec fn corner_term(sel: int, v: i64) -> int {
    if sel == 0 {
        -v as int
    } else {
        v as int
    }
}

/// Corner `k` (0..8) of an oriented box; bit 2 selects the x-axis sign,
/// bit 1 the y-axis sign, bit 0 the z-axis sign, a clear bit meaning
/// the negative direction.
pub open spec fn corner_of(b: OrientedBox, k: int) -> Point3 {
    Point3 {
        x: (b.center.x + corner_term(k / 4 % 2, b.axis_x.x) + corner_term(k / 2 % 2, b.axis_y.x)
            + corner_term(k % 2, b.axis_z.x)) as i64,
        y: (b.center.y + corner_term(k / 4 % 2, b.axis_x.y) + corner_term(k / 2 % 2, b.axis_y.y)
            + corner_term(k % 2, b.axis_z.y)) as i64,
        z: (b.center.z + corner_term(k / 4 % 2, b.axis_x.z) + corner_term(k / 2 % 2, b.axis_y.z)
            + corner_term(k % 2, b.axis_z.z)) as i64,
    }
}

/// Expands an oriented box into its eight corners, ordered by
/// descending axis significance with the negative sign first.
#[verifier::rlimit(80)]
pub fn corners_from_box(b: &OrientedBox) -> (r: Vec<Point3>)
    requires
        b.in_limit(POINT_LIMIT as int),
    ensures
        r@.len() == 8,
        forall|k: int| 0 <= k < 8 ==> r@[k] == corner_of(*b, k),
        forall|k: int| 0 <= k < 8 ==> (#[trigger] r@[k]).in_limit(4 * POINT_LIMIT as int),
        b.in_limit(TILE_BOX_LIMIT as int) ==> forall|k: int|
            0 <= k < 8 ==> (#[trigger] r@[k]).in_limit(4 * TILE_BOX_LIMIT as int),
{
    let c = b.center;
    let ax = b.axis_x;
    let ay = b.axis_y;
    let az = b.axis_z;
    let p0 = Point3 { x: c.x - ax.x - ay.x - az.x, y: c.y - ax.y - ay.y - az.y, z: c.z - ax.z - ay.z - az.z };
    let p1 = Point3 { x: c.x - ax.x - ay.x + az.x, y: c.y - ax.y - ay.y + az.y, z: c.z - ax.z - ay.z + az.z };
    let p2 = Point3 { x: c.x - ax.x + ay.x - az.x, y: c.y - ax.y + ay.y - az.y, z: c.z - ax.z + ay.z - az.z };
    let p3 = Point3 { x: c.x - ax.x + ay.x + az.x, y: c.y - ax.y + ay.y + az.y, z: c.z - ax.z + ay.z + az.z };
    let p4 = Point3 { x: c.x + ax.x - ay.x - az.x, y: c.y + ax.y - ay.y - az.y, z: c.z + ax.z - ay.z - az.z };
    let p5 = Point3 { x: c.x + ax.x - ay.x + az.x, y: c.y + ax.y - ay.y + az.y, z: c.z + ax.z - ay.z + az.z };
    let p6 = Point3 { x: c.x + ax.x + ay.x - az.x, y: c.y + ax.y + ay.y - az.y, z: c.z + ax.z + ay.z - az.z };
    let p7 = Point3 { x: c.x + ax.x + ay.x + az.x, y: c.y + ax.y + ay.y + az.y, z: c.z + ax.z + ay.z + az.z };
    let mut v: Vec<Point3> = Vec::new();
    v.push(p0);
    v.push(p1);
    v.push(p2);
    v.push(p3);
    v.push(p4);
    v.push(p5);
    v.push(p6);
    v.push(p7);
    proof {
        assert(v@ =~= seq![p0, p1, p2, p3, p4, p5, p6, p7]);
        assert(p0 == corner_of(*b, 0)) by {
            assert(0int / 4 % 2 == 0 && 0int / 2 % 2 == 0 && 0int % 2 == 0);
        }
        assert(p1 == corner_of(*b, 1)) by {
            assert(1int / 4 % 2 == 0 && 1int / 2 % 2 == 0 && 1int % 2 == 1);
        }
        assert(p2 == corner_of(*b, 2)) by {
            assert(2int / 4 % 2 == 0 && 2int / 2 % 2 == 1 && 2int % 2 == 0);
        }
        assert(p3 == corner_of(*b, 3)) by {
            assert(3int / 4 % 2 == 0 && 3int / 2 % 2 == 1 && 3int % 2 == 1);
        }
        assert(p4 == corner_of(*b, 4)) by {
            assert(4int / 4 % 2 == 1 && 4int / 2 % 2 == 0 && 4int % 2 == 0);
        }
        assert(p5 == corner_of(*b, 5)) by {
            assert(5int / 4 % 2 == 1 && 5int / 2 % 2 == 0 && 5int % 2 == 1);
        }
        assert(p6 == corner_of(*b, 6)) by {
            assert(6int / 4 % 2 == 1 && 6int / 2 % 2 == 1 && 6int % 2 == 0);
        }
        assert(p7 == corner_of(*b, 7)) by {
            assert(7int / 4 % 2 == 1 && 7int / 2 % 2 == 1 && 7int % 2 == 1);
        }
    }
    v
}

/// A 4x4 affine transform: the rotation/scale entries are fixed-point
/// at scale `ROT_SCALE`; the translation is in micro-meters. Entry
/// `r<i><j>` is row `i`, column `j` of the upper-left 3x3 block (column
/// `j*4 + i` of a column-major 16-entry matrix).
#[derive(Clone, Copy, PartialEq, Eq, Structural, Debug)]
pub struct Mat4 {
    pub r00: i64,
    pub r01: i64,
    pub r02: i64,
    pub r10: i64,
    pub r11: i64,
    pub r12: i64,
    pub r20: i64,
    pub r21: i64,
    pub r22: i64,
    pub t: Point3,
}

impl Mat4 {
    pub open spec fn wf(self) -> bool {
        &&& -ROT_LIMIT <= self.r00 <= ROT_LIMIT
        &&& -ROT_LIMIT <= self.r01 <= ROT_LIMIT
        &&& -ROT_LIMIT <= self.r02 <= ROT_LIMIT
        &&& -ROT_LIMIT <= self.r10 <= ROT_LIMIT
        &&& -ROT_LIMIT <= self.r11 <= ROT_LIMIT
        &&& -ROT_LIMIT <= self.r12 <= ROT_LIMIT
        &&& -ROT_LIMIT <= self.r20 <= ROT_LIMIT
        &&& -ROT_LIMIT <= self.r21 <= ROT_LIMIT
        &&& -ROT_LIMIT <= self.r22 <= ROT_LIMIT
        &&& self.t.in_limit(TRANSLATION_LIMIT as int)
    }
}

/// Flooring division of `n` by `ROT_SCALE`.
fn div_floor_rot(n: i128) -> (r: i128)
    requires
        -0x4000_0000_0000_0000_0000_0000_0000_0000 < n
            < 0x4000_0000_0000_0000_0000_0000_0000_0000,
    ensures
        r == n as int / ROT_SCALE as int,
{
    if n >= 0 {
        ((n as u128) / 1_000_000_000) as i128
    } else {
        let a: u128 = (-n) as u128;
        let q: u128 = (a + 999_999_999) / 1_000_000_000;
        let r: i128 = -(q as i128);
        proof {
            let d = 1_000_000_000int;
            let qi = q as int;
            let ai = a as int;
            assert(qi == (ai + (d - 1)) / d);
            assert(d * qi <= ai + d - 1 && ai <= d * qi) by (nonlinear_arith)
                requires
                    qi == (ai + (d - 1)) / d,
                    ai > 0,
                    d == 1_000_000_000int,
            ;
            assert(n as int == d * (-qi) + (d * qi - ai) && 0 <= d * qi - ai < d);
            assert(n as int / d == -qi) by (nonlinear_arith)
                requires
                    n as int == d * (-qi) + (d * qi - ai),
                    0 <= d * qi - ai < d,
                    d == 1_000_000_000int,
            ;
        }
        r
    }
}

/// The exact fixed-point result of applying `m` to `p`: each rotation
/// product is scaled back down by `ROT_SCALE` with flooring, then the
/// translation is added.
pub open spec fn spec_transform_point(m: Mat4, p: Point3) -> Point3 {
    Point3 {
        x: ((m.r00 * p.x + m.r01 * p.y + m.r02 * p.z) / (ROT_SCALE as int) + m.t.x) as i64,
        y: ((m.r10 * p.x + m.r11 * p.y + m.r12 * p.z) / (ROT_SCALE as int) + m.t.y) as i64,
        z: ((m.r20 * p.x + m.r21 * p.y + m.r22 * p.z) / (ROT_SCALE as int) + m.t.z) as i64,
    }
}

/// Applies a column-major affine transform to a point.
pub fn transform_point(m: &Mat4, p: &Point3) -> (r: Point3)
    requires
        m.wf(),
        p.in_limit(4 * TILE_BOX_LIMIT as int),
    ensures
        r == spec_transform_point(*m, *p),
        r.in_limit(TRANSLATION_LIMIT as int + 3 * 4 * TILE_BOX_LIMIT as int * 4),
{
    proof {
        lemma_rot_product_bound(m.r00 as int, m.r01 as int, m.r02 as int, p.x as int, p.y as int, p.z as int);
        lemma_rot_product_bound(m.r10 as int, m.r11 as int, m.r12 as int, p.x as int, p.y as int, p.z as int);
        lemma_rot_product_bound(m.r20 as int, m.r21 as int, m.r22 as int, p.x as int, p.y as int, p.z as int);
    }
    let xs: i128 = (m.r00 as i128) * (p.x as i128) + (m.r01 as i128) * (p.y as i128) + (
    m.r02 as i128) * (p.z as i128);
    let ys: i128 = (m.r10 as i128) * (p.x as i128) + (m.r11 as i128) * (p.y as i128) + (
    m.r12 as i128) * (p.z as i128);
    let zs: i128 = (m.r20 as i128) * (p.x as i128) + (m.r21 as i128) * (p.y as i128) + (
    m.r22 as i128) * (p.z as i128);
    let xq = div_floor_rot(xs);
    let yq = div_floor_rot(ys);
    let zq = div_floor_rot(zs);
    proof {
        lemma_div_scale_bound(xs as int);
        lemma_div_scale_bound(ys as int);
        lemma_div_scale_bound(zs as int);
    }
    Point3 {
        x: (xq as i64) + m.t.x,
        y: (yq as i64) + m.t.y,
        z: (zq as i64) + m.t.z,
    }
}

proof fn lemma_rot_product_bound(a0: int, a1: int, a2: int, x: int, y: int, z: int)
    requires
        -ROT_LIMIT <= a0 <= ROT_LIMIT,
        -ROT_LIMIT <= a1 <= ROT_LIMIT,
        -ROT_LIMIT <= a2 <= ROT_LIMIT,
        -4 * TILE_BOX_LIMIT <= x <= 4 * TILE_BOX_LIMIT,
        -4 * TILE_BOX_LIMIT <= y <= 4 * TILE_BOX_LIMIT,
        -4 * TILE_BOX_LIMIT <= z <= 4 * TILE_BOX_LIMIT,
    ensures
        -(ROT_LIMIT as int) * 4 * (TILE_BOX_LIMIT as int) <= a0 * x <= (ROT_LIMIT as int) * 4 * (
        TILE_BOX_LIMIT as int),
        -(ROT_LIMIT as int) * 4 * (TILE_BOX_LIMIT as int) <= a1 * y <= (ROT_LIMIT as int) * 4 * (
        TILE_BOX_LIMIT as int),
        -(ROT_LIMIT as int) * 4 * (TILE_BOX_LIMIT as int) <= a2 * z <= (ROT_LIMIT as int) * 4 * (
        TILE_BOX_LIMIT as int),
        -3 * (ROT_LIMIT as int) * 4 * (TILE_BOX_LIMIT as int) <= a0 * x + a1 * y + a2 * z <= 3
            * (ROT_LIMIT as int) * 4 * (TILE_BOX_LIMIT as int),
{
    assert(-(ROT_LIMIT as int) * 4 * (TILE_BOX_LIMIT as int) <= a0 * x <= (ROT_LIMIT as int) * 4
        * (TILE_BOX_LIMIT as int)) by (nonlinear_arith)
        requires
            -ROT_LIMIT <= a0 <= ROT_LIMIT,
            -4 * TILE_BOX_LIMIT <= x <= 4 * TILE_BOX_LIMIT,
    ;
    assert(-(ROT_LIMIT as int) * 4 * (TILE_BOX_LIMIT as int) <= a1 * y <= (ROT_LIMIT as int) * 4
        * (TILE_BOX_LIMIT as int)) by (nonlinear_arith)
        requires
            -ROT_LIMIT <= a1 <= ROT_LIMIT,
            -4 * TILE_BOX_LIMIT <= y <= 4 * TILE_BOX_LIMIT,
    ;
    assert(-(ROT_LIMIT as int) * 4 * (TILE_BOX_LIMIT as int) <= a2 * z <= (ROT_LIMIT as int) * 4
        * (TILE_BOX_LIMIT as int)) by (nonlinear_arith)
        requires
            -ROT_LIMIT <= a2 <= ROT_LIMIT,
            -4 * TILE_BOX_LIMIT <= z <= 4 * TILE_BOX_LIMIT,
    ;
}

proof fn lemma_div_scale_bound(n: int)
    requires
        -3 * (ROT_LIMIT as int) * 4 * (TILE_BOX_LIMIT as int) <= n <= 3 * (ROT_LIMIT as int) * 4
            * (TILE_BOX_LIMIT as int),
    ensures
        -3 * 4 * (TILE_BOX_LIMIT as int) * 4 <= n / (ROT_SCALE as int) <= 3 * 4 * (
        TILE_BOX_LIMIT as int) * 4,
{
    let d = ROT_SCALE as int;
    let bound = 3 * (ROT_LIMIT as int) * 4 * (TILE_BOX_LIMIT as int);
    assert(-bound / d <= n / d <= bound / d) by (nonlinear_arith)
        requires
            -bound <= n <= bound,
            d == ROT_SCALE as int,
            bound == 3 * (ROT_LIMIT as int) * 4 * (TILE_BOX_LIMIT as int),
    ;
}

/// Largest coordinate magnitude of a point handed to the corner-span
/// error computation (a world-transformed corner stays within this).
pub const SPAN_POINT_LIMIT: i64 = 4_100_000_000_000_000_000;

pub open spec fn pmin(a: Point3, b: Point3) -> Point3 {
    Point3 {
        x: if a.x <= b.x {
            a.x
        } else {
            b.x
        },
        y: if a.y <= b.y {
            a.y
        } else {
            b.y
        },
        z: if a.z <= b.z {
            a.z
        } else {
            b.z
        },
    }
}

pub open spec fn pmax(a: Point3, b: Point3) -> Point3 {
    Point3 {
        x: if a.x >= b.x {
            a.x
        } else {
            b.x
        },
        y: if a.y >= b.y {
            a.y
        } else {
            b.y
        },
        z: if a.z >= b.z {
            a.z
        } else {
            b.z
        },
    }
}

/// Componentwise bounds of a non-empty point sequence.
pub open spec fn points_bounds(s: Seq<Point3>) -> Aabb
    decreases s.len(),
{
    if s.len() <= 1 {
        Aabb { min: s[0], max: s[0] }
    } else {
        let b = points_bounds(s.drop_last());
        Aabb { min: pmin(b.min, s.last()), max: pmax(b.max, s.last()) }
    }
}

proof fn lemma_points_bounds_wf(s: Seq<Point3>, limit: int)
    requires
        s.len() > 0,
        forall|i: int| 0 <= i < s.len() ==> (#[trigger] s[i]).in_limit(limit),
    ensures
        points_bounds(s).min.in_limit(limit),
        points_bounds(s).max.in_limit(limit),
        points_bounds(s).min.x <= points_bounds(s).max.x,
        points_bounds(s).min.y <= points_bounds(s).max.y,
        points_bounds(s).min.z <= points_bounds(s).max.z,
    decreases s.len(),
{
    if s.len() > 1 {
        assert(forall|i: int| 0 <= i < s.len() - 1 ==> s.drop_last()[i] == #[trigger] s[i]);
        lemma_points_bounds_wf(s.drop_last(), limit);
    }
}

/// Half of the largest componentwise span of `b`, rounded down.
pub open spec fn max_span_half(b: Aabb) -> int {
    let sx = b.max.x - b.min.x;
    let sy = b.max.y - b.min.y;
    let sz = b.max.z - b.min.z;
    let m = if sx >= sy && sx >= sz {
        sx
    } else if sy >= sz {
        sy
    } else {
        sz
    };
    m / 2
}

/// The geometric error assigned to a tile from its world-space corners:
/// half of the largest axis span, zero when no corners were given.
pub open spec fn spec_corner_error(s: Seq<Point3>) -> int {
    if s.len() == 0 {
        0
    } else {
        max_span_half(points_bounds(s))
    }
}

/// Computes a tile's geometric error (in micro-meters) as half the
/// largest componentwise span of the given corner points.
pub fn compute_geometric_error_from_corners(corners: &Vec<Point3>) -> (r: i64)
    requires
        forall|i: int|
            0 <= i < corners@.len() ==> (#[trigger] corners@[i]).in_limit(SPAN_POINT_LIMIT as int),
    ensures
        r == spec_corner_error(corners@),
        r >= 0,
{
    if corners.len() == 0 {
        return 0;
    }
    let b = bounds_of_points(corners);
    let sx: u64 = (b.max.x - b.min.x) as u64;
    let sy: u64 = (b.max.y - b.min.y) as u64;
    let sz: u64 = (b.max.z - b.min.z) as u64;
    let m: u64 = if sx >= sy && sx >= sz {
        sx
    } else if sy >= sz {
        sy
    } else {
        sz
    };
    (m / 2) as i64
}

/// Componentwise bounds of a non-empty collection of points.
pub fn bounds_of_points(pts: &Vec<Point3>) -> (r: Aabb)
    requires
        pts@.len() > 0,
        forall|i: int|
            0 <= i < pts@.len() ==> (#[trigger] pts@[i]).in_limit(SPAN_POINT_LIMIT as int),
    ensures
        r == points_bounds(pts@),
        r.min.in_limit(SPAN_POINT_LIMIT as int),
        r.max.in_limit(SPAN_POINT_LIMIT as int),
        r.min.x <= r.max.x && r.min.y <= r.max.y && r.min.z <= r.max.z,
{
    proof {
        lemma_points_bounds_wf(pts@, SPAN_POINT_LIMIT as int);
    }
    let first = pts[0];
    let mut acc = Aabb { min: first, max: first };
    let mut i: usize = 1;
    proof {
        assert(pts@.subrange(0, 1).len() == 1);
        assert(acc == points_bounds(pts@.subrange(0, 1)));
    }
    while i < pts.len()
        invariant
            1 <= i <= pts@.len(),
            forall|k: int|
                0 <= k < pts@.len() ==> (#[trigger] pts@[k]).in_limit(SPAN_POINT_LIMIT as int),
            acc == points_bounds(pts@.subrange(0, i as int)),
        decreases pts@.len() - i,
    {
        let p = pts[i];
        let next = Aabb {
            min: Point3 {
                x: if acc.min.x <= p.x {
                    acc.min.x
                } else {
                    p.x
                },
                y: if acc.min.y <= p.y {
                    acc.min.y
                } else {
                    p.y
                },
                z: if acc.min.z <= p.z {
                    acc.min.z
                } else {
                    p.z
                },
            },
            max: Point3 {
                x: if acc.max.x >= p.x {
                    acc.max.x
                } else {
                    p.x
                },
                y: if acc.max.y >= p.y {
                    acc.max.y
                } else {
                    p.y
                },
                z: if acc.max.z >= p.z {
                    acc.max.z
                } else {
                    p.z
                },
            },
        };
        proof {
            let pre = pts@.subrange(0, i as int);
            let cur = pts@.subrange(0, (i + 1) as int);
            assert(cur.drop_last() =~= pre);
            assert(cur.last() == pts@[i as int]);
            assert(next.min == pmin(points_bounds(pre).min, pts@[i as int]));
            assert(next.max == pmax(points_bounds(pre).max, pts@[i as int]));
        }
        acc = next;
        i = i + 1;
    }
    proof {
        assert(pts@.subrange(0, pts@.len() as int) =~= pts@);
    }
    acc
}

/// The eight corners of `b` carried to world space by `m` (when given).
pub open spec fn world_corners(b: OrientedBox, m: Option<Mat4>) -> Seq<Point3> {
    Seq::new(
        8,
        |k: int|
            match m {
                Some(mm) => spec_transform_point(mm, corner_of(b, k)),
                None => corner_of(b, k),
            },
    )
}

/// A tile's world-space bounds and geometric error: its box corners,
/// optionally transformed, reduced to componentwise bounds and the
/// half-span error.
pub fn tile_world_bounds(b: &OrientedBox, m: Option<&Mat4>) -> (r: (Aabb, i64))
    requires
        b.in_limit(TILE_BOX_LIMIT as int),
        match m {
            Some(mm) => mm.wf(),
            None => true,
        },
    ensures
        r.0 == points_bounds(
            world_corners(
                *b,
                match m {
                    Some(mm) => Some(*mm),
                    None => None,
                },
            ),
        ),
        r.1 == spec_corner_error(
            world_corners(
                *b,
                match m {
                    Some(mm) => Some(*mm),
                    None => None,
                },
            ),
        ),
        r.0.wf(),
        r.1 >= 0,
{
    let ghost gm = match m {
        Some(mm) => Some(*mm),
        None => None,
    };
    let base = corners_from_box(b);
    let mut world: Vec<Point3> = Vec::new();
    match m {
        Some(mm) => {
            let mut i: usize = 0;
            while i < base.len()
                invariant
                    i <= base@.len(),
                    base@.len() == 8,
                    gm matches Some(g) && g == *mm && mm.wf(),
                    forall|k: int| 0 <= k < 8 ==> base@[k] == corner_of(*b, k),
                    forall|k: int|
                        0 <= k < 8 ==> (#[trigger] base@[k]).in_limit(4 * TILE_BOX_LIMIT as int),
                    world@.len() == i,
                    forall|k: int| 0 <= k < i ==> world@[k] == world_corners(*b, gm)[k],
                    forall|k: int|
                        0 <= k < i ==> (#[trigger] world@[k]).in_limit(
                            TRANSLATION_LIMIT as int + 3 * 4 * TILE_BOX_LIMIT as int * 4,
                        ),
                decreases base@.len() - i,
            {
                let p = transform_point(mm, &base[i]);
                world.push(p);
                i = i + 1;
            }
        },
        None => {
            let mut i: usize = 0;
            while i < base.len()
                invariant
                    i <= base@.len(),
                    base@.len() == 8,
                    gm is None,
                    forall|k: int| 0 <= k < 8 ==> base@[k] == corner_of(*b, k),
                    forall|k: int|
                        0 <= k < 8 ==> (#[trigger] base@[k]).in_limit(4 * TILE_BOX_LIMIT as int),
                    world@.len() == i,
                    forall|k: int| 0 <= k < i ==> world@[k] == world_corners(*b, gm)[k],
                    forall|k: int|
                        0 <= k < i ==> (#[trigger] world@[k]).in_limit(
                            TRANSLATION_LIMIT as int + 3 * 4 * TILE_BOX_LIMIT as int * 4,
                        ),
                decreases base@.len() - i,
            {
                world.push(base[i]);
                i = i + 1;
            }
        },
    }
    proof {
        assert(world@ =~= world_corners(*b, gm));
        assert(forall|k: int|
            0 <= k < world@.len() ==> (#[trigger] world@[k]).in_limit(
                TRANSLATION_LIMIT as int + 3 * 4 * TILE_BOX_LIMIT as int * 4,
            ));
        lemma_points_bounds_wf(world@, TRANSLATION_LIMIT as int + 3 * 4 * TILE_BOX_LIMIT as int * 4);
    }
    let bounds = bounds_of_points(&world);
    let err = compute_geometric_error_from_corners(&world);
    (bounds, err)
}

/// The bounds of a point set are componentwise lower/upper bounds and
/// each bound is achieved by some point.
pub proof fn lemma_points_bounds_achieved(s: Seq<Point3>)
    requires
        s.len() > 0,
    ensures
        forall|i: int|
            0 <= i < s.len() ==> points_bounds(s).min.x <= (#[trigger] s[i]).x
                && points_bounds(s).min.y <= s[i].y && points_bounds(s).min.z <= s[i].z
                && points_bounds(s).max.x >= s[i].x && points_bounds(s).max.y >= s[i].y
                && points_bounds(s).max.z >= s[i].z,
        exists|i: int| 0 <= i < s.len() && (#[trigger] s[i]).x == points_bounds(s).min.x,
        exists|i: int| 0 <= i < s.len() && (#[trigger] s[i]).y == points_bounds(s).min.y,
        exists|i: int| 0 <= i < s.len() && (#[trigger] s[i]).z == points_bounds(s).min.z,
        exists|i: int| 0 <= i < s.len() && (#[trigger] s[i]).x == points_bounds(s).max.x,
        exists|i: int| 0 <= i < s.len() && (#[trigger] s[i]).y == points_bounds(s).max.y,
        exists|i: int| 0 <= i < s.len() && (#[trigger] s[i]).z == points_bounds(s).max.z,
    decreases s.len(),
{
    if s.len() > 1 {
        let t = s.drop_last();
        assert(forall|i: int| 0 <= i < s.len() - 1 ==> t[i] == #[trigger] s[i]);
        lemma_points_bounds_achieved(t);
        let pb = points_bounds(s);
        let pt = points_bounds(t);
        assert(s[s.len() - 1] == s.last());
        if pb.min.x == s.last().x {
            assert(s[s.len() - 1].x == pb.min.x);
        } else {
            let i = choose|i: int| 0 <= i < t.len() && (#[trigger] t[i]).x == pt.min.x;
            assert(s[i].x == pb.min.x);
        }
        if pb.min.y == s.last().y {
            assert(s[s.len() - 1].y == pb.min.y);
        } else {
            let i = choose|i: int| 0 <= i < t.len() && (#[trigger] t[i]).y == pt.min.y;
            assert(s[i].y == pb.min.y);
        }
        if pb.min.z == s.last().z {
            assert(s[s.len() - 1].z == pb.min.z);
        } else {
            let i = choose|i: int| 0 <= i < t.len() && (#[trigger] t[i]).z == pt.min.z;
            assert(s[i].z == pb.min.z);
        }
        if pb.max.x == s.last().x {
            assert(s[s.len() - 1].x == pb.max.x);
        } else {
            let i = choose|i: int| 0 <= i < t.len() && (#[trigger] t[i]).x == pt.max.x;
            assert(s[i].x == pb.max.x);
        }
        if pb.max.y == s.last().y {
            assert(s[s.len() - 1].y == pb.max.y);
        } else {
            let i = choose|i: int| 0 <= i < t.len() && (#[trigger] t[i]).y == pt.max.y;
            assert(s[i].y == pb.max.y);
        }
        if pb.max.z == s.last().z {
            assert(s[s.len() - 1].z == pb.max.z);
        } else {
            let i = choose|i: int| 0 <= i < t.len() && (#[trigger] t[i]).z == pt.max.z;
            assert(s[i].z == pb.max.z);
        }
    } else {
        assert(s[0].x == points_bounds(s).min.x);
        assert(s[0].y == points_bounds(s).min.y);
        assert(s[0].z == points_bounds(s).min.z);
        assert(s[0].x == points_bounds(s).max.x);
        assert(s[0].y == points_bounds(s).max.y);
        assert(s[0].z == points_bounds(s).max.z);
    }
}

/// Converting a min/max box to the center + half-axes encoding and
/// reducing the eight corners of that encoding back to componentwise
/// bounds returns the original box exactly, whenever each extent is
/// even in micro-meters (an odd extent loses half a micro-meter to
/// rounding).
pub proof fn lemma_box_corner_round_trip(b: Aabb)
    requires
        b.wf(),
        (b.max.x - b.min.x) % 2 == 0,
        (b.max.y - b.min.y) % 2 == 0,
        (b.max.z - b.min.z) % 2 == 0,
    ensures
        points_bounds(world_corners(spec_box_to_tileset_box(b), None)) == b,
{
    let tb = spec_box_to_tileset_box(b);
    let cs = world_corners(tb, None);
    let hx = (b.max.x - b.min.x) / 2;
    let hy = (b.max.y - b.min.y) / 2;
    let hz = (b.max.z - b.min.z) / 2;
    assert(hx + hx == b.max.x - b.min.x);
    assert(hy + hy == b.max.y - b.min.y);
    assert(hz + hz == b.max.z - b.min.z);
    assert(tb.center.x == b.min.x + hx && tb.axis_x.x == hx);
    assert(tb.center.y == b.min.y + hy && tb.axis_y.y == hy);
    assert(tb.center.z == b.min.z + hz && tb.axis_z.z == hz);
    assert forall|k: int| 0 <= k < 8 implies b.min.x <= (#[trigger] cs[k]).x <= b.max.x
        && b.min.y <= cs[k].y <= b.max.y && b.min.z <= cs[k].z <= b.max.z by {
        assert(cs[k] == corner_of(tb, k));
        assert(k / 4 % 2 == 0 || k / 4 % 2 == 1);
        assert(k / 2 % 2 == 0 || k / 2 % 2 == 1);
        assert(k % 2 == 0 || k % 2 == 1);
    }
    lemma_points_bounds_achieved(cs);
    let pb = points_bounds(cs);
    assert(cs[0] == corner_of(tb, 0));
    assert(cs[7] == corner_of(tb, 7));
    assert(cs[0].x == b.min.x && cs[0].y == b.min.y && cs[0].z == b.min.z) by {
        assert(0int / 4 % 2 == 0 && 0int / 2 % 2 == 0 && 0int % 2 == 0);
    }
    assert(cs[7].x == b.max.x && cs[7].y == b.max.y && cs[7].z == b.max.z) by {
        assert(7int / 4 % 2 == 1 && 7int / 2 % 2 == 1 && 7int % 2 == 1);
    }
    assert(pb.min.x == b.min.x && pb.min.y == b.min.y && pb.min.z == b.min.z);
    assert(pb.max.x == b.max.x && pb.max.y == b.max.y && pb.max.z == b.max.z);
    assert(pb.min == b.min && pb.max == b.max);
}

/// The corner bounds of a converted box: the least corner is preserved
/// exactly; each greatest component sits at the least corner plus twice
/// the floored half-extent (the full extent when it is even).
pub proof fn lemma_tileset_box_corner_bounds(b: Aabb)
    requires
        b.wf(),
    ensures
        points_bounds(world_corners(spec_box_to_tileset_box(b), None)).min == b.min,
        points_bounds(world_corners(spec_box_to_tileset_box(b), None)).max.x == b.min.x + 2 * (
        (b.max.x - b.min.x) / 2),
        points_bounds(world_corners(spec_box_to_tileset_box(b), None)).max.y == b.min.y + 2 * (
        (b.max.y - b.min.y) / 2),
        points_bounds(world_corners(spec_box_to_tileset_box(b), None)).max.z == b.min.z + 2 * (
        (b.max.z - b.min.z) / 2),
{
    let tb = spec_box_to_tileset_box(b);
    let cs = world_corners(tb, None);
    let hx = (b.max.x - b.min.x) / 2;
    let hy = (b.max.y - b.min.y) / 2;
    let hz = (b.max.z - b.min.z) / 2;
    assert(0 <= hx && 0 <= hy && 0 <= hz);
    assert(tb.center.x == b.min.x + hx && tb.axis_x.x == hx);
    assert(tb.center.y == b.min.y + hy && tb.axis_y.y == hy);
    assert(tb.center.z == b.min.z + hz && tb.axis_z.z == hz);
    assert forall|k: int| 0 <= k < 8 implies b.min.x <= (#[trigger] cs[k]).x <= b.min.x + 2 * hx
        && b.min.y <= cs[k].y <= b.min.y + 2 * hy && b.min.z <= cs[k].z <= b.min.z + 2
        * hz by {
        assert(cs[k] == corner_of(tb, k));
        assert(k / 4 % 2 == 0 || k / 4 % 2 == 1);
        assert(k / 2 % 2 == 0 || k / 2 % 2 == 1);
        assert(k % 2 == 0 || k % 2 == 1);
    }
    lemma_points_bounds_achieved(cs);
    let pb = points_bounds(cs);
    assert(cs[0] == corner_of(tb, 0));
    assert(cs[7] == corner_of(tb, 7));
    assert(cs[0].x == b.min.x && cs[0].y == b.min.y && cs[0].z == b.min.z) by {
        assert(0int / 4 % 2 == 0 && 0int / 2 % 2 == 0 && 0int % 2 == 0);
    }
    assert(cs[7].x == b.min.x + 2 * hx && cs[7].y == b.min.y + 2 * hy && cs[7].z == b.min.z + 2
        * hz) by {
        assert(7int / 4 % 2 == 1 && 7int / 2 % 2 == 1 && 7int % 2 == 1);
    }
    assert(pb.min.x == b.min.x && pb.min.y == b.min.y && pb.min.z == b.min.z);
    assert(pb.min == b.min);
}

/// Down the assembled flat tree the geometric error never grows: the
/// root error computed from the union box's corners is at least each
/// tile's half-span error.
pub proof fn lemma_flat_root_error_dominates(bounds: Seq<Aabb>, k: int)
    requires
        0 <= k < bounds.len(),
        forall|i: int| 0 <= i < bounds.len() ==> (#[trigger] bounds[i]).wf(),
    ensures
        spec_corner_error(world_corners(spec_box_to_tileset_box(union_seq(bounds)), None))
            >= max_span_half(bounds[k]),
{
    lemma_union_wf(bounds);
    lemma_union_contains(bounds);
    let u = union_seq(bounds);
    assert(u.contains_box(bounds[k]));
    lemma_tileset_box_corner_bounds(u);
    let cs = world_corners(spec_box_to_tileset_box(u), None);
    let pb = points_bounds(cs);
    let sx = u.max.x - u.min.x;
    let sy = u.max.y - u.min.y;
    let sz = u.max.z - u.min.z;
    let cx = bounds[k].max.x - bounds[k].min.x;
    let cy = bounds[k].max.y - bounds[k].min.y;
    let cz = bounds[k].max.z - bounds[k].min.z;
    assert(cx <= sx && cy <= sy && cz <= sz);
    let tx = pb.max.x - pb.min.x;
    let ty = pb.max.y - pb.min.y;
    let tz = pb.max.z - pb.min.z;
    assert(tx == 2 * (sx / 2) && ty == 2 * (sy / 2) && tz == 2 * (sz / 2));
    let mt = if tx >= ty && tx >= tz {
        tx
    } else if ty >= tz {
        ty
    } else {
        tz
    };
    let mc = if cx >= cy && cx >= cz {
        cx
    } else if cy >= cz {
        cy
    } else {
        cz
    };
    assert(spec_corner_error(cs) == mt / 2);
    assert(max_span_half(bounds[k]) == mc / 2);
    // the dominating axis of the union bounds the dominating child axis
    assert(mc <= sx || mc <= sy || mc <= sz);
    assert(mt / 2 >= mc / 2) by {
        assert(tx / 2 == sx / 2 && ty / 2 == sy / 2 && tz / 2 == sz / 2);
        assert(mc / 2 <= sx / 2 || mc / 2 <= sy / 2 || mc / 2 <= sz / 2) by (nonlinear_arith)
            requires
                mc <= sx || mc <= sy || mc <= sz,
        ;
        assert(tx / 2 <= mt / 2 && ty / 2 <= mt / 2 && tz / 2 <= mt / 2) by (nonlinear_arith)
            requires
                tx <= mt && ty <= mt && tz <= mt,
        ;
    }
}

} // verus!
