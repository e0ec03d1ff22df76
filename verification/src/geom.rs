use vstd::prelude::*;

use crate::math::Vec3;

verus! {

/// Geometry in 3D space (position and size)
///
/// A prism occupies the unit cubes `(x, y, z)` with `pos <= (x, y, z) < pos + size`
/// on every axis.
#[derive(Debug, Clone, Copy, PartialEq, Eq, Hash)]
pub struct Geom3 {
    pub size: Vec3<u32>,
    pub pos: Vec3<i32>,
}

/// The larger of two integers
pub open spec fn max_int(a: int, b: int) -> int {
    if a >= b {
        a
    } else {
        b
    }
}

/// The smaller of two integers
pub open spec fn min_int(a: int, b: int) -> int {
    if a <= b {
        a
    } else {
        b
    }
}

/// The length of the interval from `lo` to `hi`, zero where it is empty
pub open spec fn span_int(lo: int, hi: int) -> int {
    if hi > lo {
        hi - lo
    } else {
        0
    }
}

/// `hi - lo` where that is positive, else zero
pub fn span(lo: i32, hi: i32) -> (r: u32)
    ensures
        r == span_int(lo as int, hi as int),
{
    if hi > lo {
        let d: i64 = hi as i64 - lo as i64;
        d as u32
    } else {
        0
    }
}

fn max_i32(a: i32, b: i32) -> (r: i32)
    ensures
        r == max_int(a as int, b as int),
{
    if a >= b {
        a
    } else {
        b
    }
}

fn min_i32(a: i32, b: i32) -> (r: i32)
    ensures
        r == min_int(a as int, b as int),
{
    if a <= b {
        a
    } else {
        b
    }
}

/// Whether one of the prisms of `s` holds the unit cube at `(x, y, z)`
pub open spec fn any_has(s: Seq<Geom3>, x: int, y: int, z: int) -> bool {
    exists|i: int| 0 <= i < s.len() && (#[trigger] s[i]).has(x, y, z)
}

/// Whether every prism of `s` is valid
pub open spec fn all_wf(s: Seq<Geom3>) -> bool {
    forall|i: int| 0 <= i < s.len() ==> (#[trigger] s[i]).wf()
}

/// Whether every prism of `s` has positive volume
pub open spec fn all_positive_volume(s: Seq<Geom3>) -> bool {
    forall|i: int| 0 <= i < s.len() ==> (#[trigger] s[i]).positive()
}

/// Whether no unit cube lies in two prisms of `s`
pub open spec fn pairwise_disjoint(s: Seq<Geom3>) -> bool {
    forall|i: int, j: int, x: int, y: int, z: int|
        0 <= i < j < s.len() && (#[trigger] s[i].has(x, y, z)) ==> !(#[trigger] s[j].has(x, y, z))
}

impl Geom3 {
    /// The ends of the prism fit the coordinate type
    pub open spec fn wf(self) -> bool {
        &&& self.pos.0 + self.size.0 <= i32::MAX
        &&& self.pos.1 + self.size.1 <= i32::MAX
        &&& self.pos.2 + self.size.2 <= i32::MAX
    }

    /// The exclusive end on the x axis
    pub open spec fn x_hi(self) -> int {
        self.pos.0 + self.size.0
    }

    /// The exclusive end on the y axis
    pub open spec fn y_hi(self) -> int {
        self.pos.1 + self.size.1
    }

    /// The exclusive end on the z axis
    pub open spec fn z_hi(self) -> int {
        self.pos.2 + self.size.2
    }

    /// All three sizes are positive
    pub open spec fn positive(self) -> bool {
        self.size.0 > 0 && self.size.1 > 0 && self.size.2 > 0
    }

    /// The prism holds the unit cube at `(x, y, z)`
    pub open spec fn has(self, x: int, y: int, z: int) -> bool {
        &&& self.pos.0 <= x < self.x_hi()
        &&& self.pos.1 <= y < self.y_hi()
        &&& self.pos.2 <= z < self.z_hi()
    }

    /// The prism moved by `(dx, dy, dz)`
    pub open spec fn shifted(self, dx: int, dy: int, dz: int) -> Geom3 {
        Geom3 {
            size: self.size,
            pos: Vec3((self.pos.0 + dx) as i32, (self.pos.1 + dy) as i32, (self.pos.2 + dz) as i32),
        }
    }

    /// Whether the prism moved by `(dx, dy, dz)` is still valid
    pub open spec fn can_shift(self, dx: int, dy: int, dz: int) -> bool {
        &&& i32::MIN <= self.pos.0 + dx && self.x_hi() + dx <= i32::MAX
        &&& i32::MIN <= self.pos.1 + dy && self.y_hi() + dy <= i32::MAX
        &&& i32::MIN <= self.pos.2 + dz && self.z_hi() + dz <= i32::MAX
    }

    /// The prism that holds the unit cubes common to both
    pub open spec fn meet(self, other: Geom3) -> Geom3 {
        let x = max_int(self.pos.0 as int, other.pos.0 as int);
        let y = max_int(self.pos.1 as int, other.pos.1 as int);
        let z = max_int(self.pos.2 as int, other.pos.2 as int);
        Geom3 {
            size: Vec3(
                span_int(x, min_int(self.x_hi(), other.x_hi())) as u32,
                span_int(y, min_int(self.y_hi(), other.y_hi())) as u32,
                span_int(z, min_int(self.z_hi(), other.z_hi())) as u32,
            ),
            pos: Vec3(x as i32, y as i32, z as i32),
        }
    }

    /// The slab of `self` above `b`
    pub open spec fn slab_top(self, b: Geom3) -> Geom3 {
        Geom3 {
            size: Vec3(self.size.0, self.size.1, span_int(b.z_hi(), self.z_hi()) as u32),
            pos: Vec3(self.pos.0, self.pos.1, b.z_hi() as i32),
        }
    }

    /// The slab of `self` beyond `b` on the x axis, as high as `b`
    pub open spec fn slab_x_pos(self, b: Geom3) -> Geom3 {
        Geom3 {
            size: Vec3(span_int(b.x_hi(), self.x_hi()) as u32, self.size.1, b.size.2),
            pos: Vec3(b.x_hi() as i32, self.pos.1, b.pos.2),
        }
    }

    /// The slab of `self` before `b` on the x axis, as high as `b`
    pub open spec fn slab_x_neg(self, b: Geom3) -> Geom3 {
        Geom3 {
            size: Vec3(span_int(self.pos.0 as int, b.pos.0 as int) as u32, self.size.1, b.size.2),
            pos: Vec3(self.pos.0, self.pos.1, b.pos.2),
        }
    }

    /// The slab of `self` beyond `b` on the y axis, as wide and as high as `b`
    pub open spec fn slab_y_pos(self, b: Geom3) -> Geom3 {
        Geom3 {
            size: Vec3(b.size.0, span_int(b.y_hi(), self.y_hi()) as u32, b.size.2),
            pos: Vec3(b.pos.0, b.y_hi() as i32, b.pos.2),
        }
    }

    /// The slab of `self` before `b` on the y axis, as wide and as high as `b`
    pub open spec fn slab_y_neg(self, b: Geom3) -> Geom3 {
        Geom3 {
            size: Vec3(b.size.0, span_int(self.pos.1 as int, b.pos.1 as int) as u32, b.size.2),
            pos: Vec3(b.pos.0, self.pos.1, b.pos.2),
        }
    }

    /// The slab of `self` below `b`
    pub open spec fn slab_bottom(self, b: Geom3) -> Geom3 {
        Geom3 {
            size: Vec3(self.size.0, self.size.1, span_int(self.pos.2 as int, b.pos.2 as int) as u32),
            pos: self.pos,
        }
    }

    /// `self` without `operand`, as prisms of positive volume: `self` itself
    /// where the two do not meet, else up to six slabs around what they share,
    /// in the order top, +x, -x, +y, -y, bottom
    pub open spec fn minus(self, operand: Geom3) -> Seq<Geom3> {
        let b = self.meet(operand);
        if !b.positive() {
            seq![self]
        } else {
            keep(
                keep(
                    keep(
                        keep(
                            keep(keep(Seq::empty(), self.slab_top(b)), self.slab_x_pos(b)),
                            self.slab_x_neg(b),
                        ),
                        self.slab_y_pos(b),
                    ),
                    self.slab_y_neg(b),
                ),
                self.slab_bottom(b),
            )
        }
    }

    /// The prism at `pos` with `size`
    pub open spec fn spec_new(pos: Vec3<i32>, size: Vec3<u32>) -> Geom3 {
        Geom3 { size, pos }
    }

    /// The prism at `pos` with `size`
    #[verifier::when_used_as_spec(spec_new)]
    pub fn new(pos: Vec3<i32>, size: Vec3<u32>) -> (r: Geom3)
        ensures
            r == Geom3::spec_new(pos, size),
    {
        Geom3 { pos, size }
    }

    /// Whether the ends of the prism fit the coordinate type
    pub fn is_valid(&self) -> (r: bool)
        ensures
            r == self.wf(),
    {
        let limit: i64 = i32::MAX as i64;
        self.pos.0 as i64 + self.size.0 as i64 <= limit && self.pos.1 as i64 + self.size.1 as i64
            <= limit && self.pos.2 as i64 + self.size.2 as i64 <= limit
    }

    /// Returns the intersection of this prism with another prism
    ///
    /// If the prisms do not intersect, a 0-volume prism is returned.
    pub fn intersection(&self, other: &Geom3) -> (r: Geom3)
        requires
            self.wf(),
            other.wf(),
        ensures
            r == self.meet(*other),
            r.wf(),
            forall|x: int, y: int, z: int|
                #[trigger] r.has(x, y, z) <==> self.has(x, y, z) && other.has(x, y, z),
    {
        let x = max_i32(self.pos.0, other.pos.0);
        let y = max_i32(self.pos.1, other.pos.1);
        let z = max_i32(self.pos.2, other.pos.2);
        let r = Geom3 {
            size: Vec3(
                span(x, min_i32(self.x_end(), other.x_end())),
                span(y, min_i32(self.y_end(), other.y_end())),
                span(z, min_i32(self.z_end(), other.z_end())),
            ),
            pos: Vec3(x, y, z),
        };
        proof {
            lemma_meet(*self, *other);
        }
        r
    }

    /// Subtract `operand` from `self`, putting resulting non-zero-volume
    /// shapes into `out`
    pub fn difference(&self, operand: &Geom3, out: &mut Vec<Geom3>)
        requires
            self.wf(),
            operand.wf(),
        ensures
            final(out)@ == old(out)@ + self.minus(*operand),
    {
        let ghost before = out@;
        let b = self.intersection(operand);
        if !b.has_positive_volume() {
            out.push(*self);
            assert(out@ =~= before + self.minus(*operand));
            return ;
        }
        let ghost mut acc: Seq<Geom3> = Seq::empty();
        let top = Geom3 {
            size: Vec3(self.size.0, self.size.1, span(b.z_end(), self.z_end())),
            pos: Vec3(self.pos.0, self.pos.1, b.z_end()),
        };
        push_positive(out, top);
        proof {
            acc = keep(acc, top);
            assert(out@ =~= before + acc);
        }
        let x_pos = Geom3 {
            size: Vec3(span(b.x_end(), self.x_end()), self.size.1, b.size.2),
            pos: Vec3(b.x_end(), self.pos.1, b.pos.2),
        };
        push_positive(out, x_pos);
        proof {
            acc = keep(acc, x_pos);
            assert(out@ =~= before + acc);
        }
        let x_neg = Geom3 {
            size: Vec3(span(self.pos.0, b.pos.0), self.size.1, b.size.2),
            pos: Vec3(self.pos.0, self.pos.1, b.pos.2),
        };
        push_positive(out, x_neg);
        proof {
            acc = keep(acc, x_neg);
            assert(out@ =~= before + acc);
        }
        let y_pos = Geom3 {
            size: Vec3(b.size.0, span(b.y_end(), self.y_end()), b.size.2),
            pos: Vec3(b.pos.0, b.y_end(), b.pos.2),
        };
        push_positive(out, y_pos);
        proof {
            acc = keep(acc, y_pos);
            assert(out@ =~= before + acc);
        }
        let y_neg = Geom3 {
            size: Vec3(b.size.0, span(self.pos.1, b.pos.1), b.size.2),
            pos: Vec3(b.pos.0, self.pos.1, b.pos.2),
        };
        push_positive(out, y_neg);
        proof {
            acc = keep(acc, y_neg);
            assert(out@ =~= before + acc);
        }
        let bottom = Geom3 {
            size: Vec3(self.size.0, self.size.1, span(self.pos.2, b.pos.2)),
            pos: self.pos,
        };
        push_positive(out, bottom);
        proof {
            acc = keep(acc, bottom);
            assert(out@ =~= before + acc);
        }
    }

    /// The end of the prism in the x direction
    #[inline]
    pub fn x_end(&self) -> (r: i32)
        requires
            self.wf(),
        ensures
            r == self.x_hi(),
    {
        (self.pos.0 as i64 + self.size.0 as i64) as i32
    }

    /// The end of the prism in the y direction
    #[inline]
    pub fn y_end(&self) -> (r: i32)
        requires
            self.wf(),
        ensures
            r == self.y_hi(),
    {
        (self.pos.1 as i64 + self.size.1 as i64) as i32
    }

    /// The end of the prism in the z direction
    #[inline]
    pub fn z_end(&self) -> (r: i32)
        requires
            self.wf(),
        ensures
            r == self.z_hi(),
    {
        (self.pos.2 as i64 + self.size.2 as i64) as i32
    }

    /// Checks if the prism has positive volume
    #[inline]
    pub fn has_positive_volume(&self) -> (r: bool)
        ensures
            r == self.positive(),
    {
        self.size.0 > 0 && self.size.1 > 0 && self.size.2 > 0
    }

    /// Check if the prism contains a unit cube at the position
    #[inline]
    pub fn contains_unit_cube(&self, pos: Vec3<i32>) -> (r: bool)
        requires
            self.wf(),
        ensures
            r == self.has(pos.0 as int, pos.1 as int, pos.2 as int),
    {
        self.pos.0 <= pos.0 && pos.0 < self.x_end() && self.pos.1 <= pos.1 && pos.1 < self.y_end()
            && self.pos.2 <= pos.2 && pos.2 < self.z_end()
    }
}

/// `s` with `g` added at its end where `g` has positive volume
pub open spec fn keep(s: Seq<Geom3>, g: Geom3) -> Seq<Geom3> {
    if g.positive() {
        s.push(g)
    } else {
        s
    }
}

fn push_positive(out: &mut Vec<Geom3>, g: Geom3)
    ensures
        final(out)@ == keep(old(out)@, g),
{
    if g.has_positive_volume() {
        out.push(g);
    }
}

/// The intersection of two valid prisms is valid and holds exactly the unit
/// cubes that both hold.
pub proof fn lemma_meet(a: Geom3, b: Geom3)
    requires
        a.wf(),
        b.wf(),
    ensures
        a.meet(b).wf(),
        a.meet(b).pos.0 == max_int(a.pos.0 as int, b.pos.0 as int),
        a.meet(b).pos.1 == max_int(a.pos.1 as int, b.pos.1 as int),
        a.meet(b).pos.2 == max_int(a.pos.2 as int, b.pos.2 as int),
        a.meet(b).size.0 == span_int(a.meet(b).pos.0 as int, min_int(a.x_hi(), b.x_hi())),
        a.meet(b).size.1 == span_int(a.meet(b).pos.1 as int, min_int(a.y_hi(), b.y_hi())),
        a.meet(b).size.2 == span_int(a.meet(b).pos.2 as int, min_int(a.z_hi(), b.z_hi())),
        forall|x: int, y: int, z: int|
            #[trigger] a.meet(b).has(x, y, z) <==> a.has(x, y, z) && b.has(x, y, z),
{
}

/// Prism subtraction covers the complement: the pieces of `a.minus(b)` are
/// valid, have positive volume unless `a` itself is handed back, share no unit
/// cube with each other, and together hold exactly the unit cubes of `a` that
/// `b` does not hold.
pub proof fn lemma_minus(a: Geom3, b: Geom3)
    requires
        a.wf(),
        b.wf(),
    ensures
        all_wf(a.minus(b)),
        a.positive() ==> all_positive_volume(a.minus(b)),
        a.minus(b).len() <= 6,
        pairwise_disjoint(a.minus(b)),
        forall|x: int, y: int, z: int|
            any_has(a.minus(b), x, y, z) <==> a.has(x, y, z) && !b.has(x, y, z),
{
    lemma_meet(a, b);
    let m = a.meet(b);
    let d = a.minus(b);
    if !m.positive() {
        assert(d[0] == a);
        assert forall|x: int, y: int, z: int| any_has(d, x, y, z) <==> a.has(x, y, z) && !b.has(
            x,
            y,
            z,
        ) by {
            if a.has(x, y, z) {
                assert(d[0].has(x, y, z));
                assert(!m.has(x, y, z));
            }
        }
    } else {
        let s0 = Seq::<Geom3>::empty();
        let s1 = keep(s0, a.slab_top(m));
        let s2 = keep(s1, a.slab_x_pos(m));
        let s3 = keep(s2, a.slab_x_neg(m));
        let s4 = keep(s3, a.slab_y_pos(m));
        let s5 = keep(s4, a.slab_y_neg(m));
        let s6 = keep(s5, a.slab_bottom(m));
        assert(d == s6);
        lemma_keep(s0, a.slab_top(m));
        lemma_keep(s1, a.slab_x_pos(m));
        lemma_keep(s2, a.slab_x_neg(m));
        lemma_keep(s3, a.slab_y_pos(m));
        lemma_keep(s4, a.slab_y_neg(m));
        lemma_keep(s5, a.slab_bottom(m));
        assert forall|x: int, y: int, z: int| any_has(d, x, y, z) <==> a.has(x, y, z) && !b.has(
            x,
            y,
            z,
        ) by {
            assert(any_has(s0, x, y, z) == false);
            assert(m.has(x, y, z) <==> a.has(x, y, z) && b.has(x, y, z));
        }
        lemma_keep_disjoint(s0, a.slab_top(m));
        lemma_keep_disjoint(s1, a.slab_x_pos(m));
        lemma_keep_disjoint(s2, a.slab_x_neg(m));
        lemma_keep_disjoint(s3, a.slab_y_pos(m));
        lemma_keep_disjoint(s4, a.slab_y_neg(m));
        lemma_keep_disjoint(s5, a.slab_bottom(m));
    }
}

/// What `keep` adds to a list of prisms
pub proof fn lemma_keep(s: Seq<Geom3>, g: Geom3)
    ensures
        keep(s, g).len() <= s.len() + 1,
        all_wf(s) && g.wf() ==> all_wf(keep(s, g)),
        all_positive_volume(s) ==> all_positive_volume(keep(s, g)),
        forall|x: int, y: int, z: int|
            #[trigger] any_has(keep(s, g), x, y, z) <==> any_has(s, x, y, z) || g.has(x, y, z),
{
    assert forall|x: int, y: int, z: int| #[trigger]
        any_has(keep(s, g), x, y, z) <==> any_has(s, x, y, z) || g.has(x, y, z) by {
        let k = keep(s, g);
        if any_has(s, x, y, z) {
            let i = choose|i: int| 0 <= i < s.len() && (#[trigger] s[i]).has(x, y, z);
            assert(k[i].has(x, y, z));
        }
        if g.has(x, y, z) {
            assert(g.positive());
            assert(k[s.len() as int].has(x, y, z));
        }
        if any_has(k, x, y, z) {
            let i = choose|i: int| 0 <= i < k.len() && (#[trigger] k[i]).has(x, y, z);
            if i < s.len() {
                assert(s[i].has(x, y, z));
            }
        }
    }
}

/// `keep` preserves disjointness where the new prism shares no unit cube with
/// the list
pub proof fn lemma_keep_disjoint(s: Seq<Geom3>, g: Geom3)
    requires
        pairwise_disjoint(s),
        forall|x: int, y: int, z: int| g.has(x, y, z) ==> !any_has(s, x, y, z),
    ensures
        pairwise_disjoint(keep(s, g)),
{
    let k = keep(s, g);
    assert forall|i: int, j: int, x: int, y: int, z: int|
        0 <= i < j < k.len() && (#[trigger] k[i].has(x, y, z)) implies !(#[trigger] k[j].has(
        x,
        y,
        z,
    )) by {
        if j < s.len() {
            assert(s[i].has(x, y, z));
        } else {
            assert(s[i].has(x, y, z));
            assert(any_has(s, x, y, z));
        }
    }
}

} // verus!
