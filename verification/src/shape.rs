use vstd::prelude::*;

use crate::geom::{
    all_positive_volume, all_wf, any_has, keep, lemma_keep, lemma_meet, lemma_minus, max_int,
    min_int, Geom3,
};
use crate::math::{Axis, Vec3};

verus! {

/// The least start of the prisms of `s` on `axis`, `i32::MAX` where `s` is empty
pub open spec fn lo(s: Seq<Geom3>, axis: Axis) -> int
    decreases s.len(),
{
    if s.len() == 0 {
        i32::MAX as int
    } else {
        min_int(lo(s.drop_last(), axis), s.last().pos.at(axis) as int)
    }
}

/// The greatest end of the prisms of `s` on `axis`, `i32::MIN` where `s` is empty
pub open spec fn hi(s: Seq<Geom3>, axis: Axis) -> int
    decreases s.len(),
{
    if s.len() == 0 {
        i32::MIN as int
    } else {
        max_int(hi(s.drop_last(), axis), s.last().pos.at(axis) + s.last().size.at(axis))
    }
}

/// The prism without position or size
pub open spec fn zero_geom() -> Geom3 {
    Geom3 { size: Vec3(0, 0, 0), pos: Vec3(0, 0, 0) }
}

/// The smallest prism that encloses every prism of `s`: component-wise the
/// least start and the greatest end. For an empty list, the prism at the
/// origin without size.
pub open spec fn hull(s: Seq<Geom3>) -> Geom3 {
    if s.len() == 0 {
        zero_geom()
    } else {
        Geom3 {
            size: Vec3(
                (hi(s, Axis::X) - lo(s, Axis::X)) as u32,
                (hi(s, Axis::Y) - lo(s, Axis::Y)) as u32,
                (hi(s, Axis::Z) - lo(s, Axis::Z)) as u32,
            ),
            pos: Vec3(lo(s, Axis::X) as i32, lo(s, Axis::Y) as i32, lo(s, Axis::Z) as i32),
        }
    }
}

/// The prisms of `s`, each moved by `(dx, dy, dz)`
pub open spec fn shift_all(s: Seq<Geom3>, dx: int, dy: int, dz: int) -> Seq<Geom3> {
    Seq::new(s.len(), |i: int| s[i].shifted(dx, dy, dz))
}

/// The prisms of `s`, each moved by `d` along `axis`
pub open spec fn shift_along(s: Seq<Geom3>, axis: Axis, d: int) -> Seq<Geom3> {
    match axis {
        Axis::X => shift_all(s, d, 0, 0),
        Axis::Y => shift_all(s, 0, d, 0),
        Axis::Z => shift_all(s, 0, 0, d),
    }
}

/// What `a` shares with each prism of `b` in turn, where that has positive volume
pub open spec fn meet_row(a: Geom3, b: Seq<Geom3>) -> Seq<Geom3>
    decreases b.len(),
{
    if b.len() == 0 {
        Seq::empty()
    } else {
        keep(meet_row(a, b.drop_last()), a.meet(b.last()))
    }
}

/// What each prism of `a` shares with each prism of `b`, where that has
/// positive volume: for the first of `a` with each of `b`, then for the
/// second, and so on
pub open spec fn meet_all(a: Seq<Geom3>, b: Seq<Geom3>) -> Seq<Geom3>
    decreases a.len(),
{
    if a.len() == 0 {
        Seq::empty()
    } else {
        meet_all(a.drop_last(), b) + meet_row(a.last(), b)
    }
}

/// Each prism of `pieces` without `b`, in order
pub open spec fn minus_each(pieces: Seq<Geom3>, b: Geom3) -> Seq<Geom3>
    decreases pieces.len(),
{
    if pieces.len() == 0 {
        Seq::empty()
    } else {
        minus_each(pieces.drop_last(), b) + pieces.last().minus(b)
    }
}

/// `pieces` after each prism of `bs` in turn was taken from every piece
pub open spec fn minus_seq(pieces: Seq<Geom3>, bs: Seq<Geom3>) -> Seq<Geom3>
    decreases bs.len(),
{
    if bs.len() == 0 {
        pieces
    } else {
        minus_each(minus_seq(pieces, bs.drop_last()), bs.last())
    }
}

/// For each prism of `a` in turn, what is left of it after every prism of
/// `bs` was taken from it
pub open spec fn minus_all(a: Seq<Geom3>, bs: Seq<Geom3>) -> Seq<Geom3>
    decreases a.len(),
{
    if a.len() == 0 {
        Seq::empty()
    } else {
        minus_all(a.drop_last(), bs) + minus_seq(seq![a.last()], bs)
    }
}

/// An arbitrary set of unit cubes
#[derive(Debug)]
pub struct Arbitrary {
    prisms: Vec<Geom3>,
    bound: Geom3,
}

impl Clone for Arbitrary {
    fn clone(&self) -> (r: Self)
        ensures
            r.prisms() == self.prisms(),
            r.bound() == self.bound(),
    {
        let n = self.prisms.len();
        let mut prisms: Vec<Geom3> = Vec::new();
        let mut i: usize = 0;
        while i < n
            invariant
                n == self.prisms@.len(),
                i <= n,
                prisms@ == self.prisms@.take(i as int),
            decreases n - i,
        {
            prisms.push(self.prisms[i]);
            i += 1;
            assert(prisms@ =~= self.prisms@.take(i as int));
        }
        assert(self.prisms@.take(n as int) =~= self.prisms@);
        Arbitrary { prisms, bound: self.bound }
    }
}

impl Arbitrary {
    /// The prisms whose union is the shape
    pub closed spec fn prisms(&self) -> Seq<Geom3> {
        self.prisms@
    }

    /// The bounding box
    pub closed spec fn bound(&self) -> Geom3 {
        self.bound
    }

    /// Every prism is valid and the bounding box is the hull of the prisms
    pub open spec fn wf(&self) -> bool {
        &&& all_wf(self.prisms())
        &&& self.bound() == hull(self.prisms())
    }

    /// The shape holds the unit cube at `(x, y, z)`
    pub open spec fn has(&self, x: int, y: int, z: int) -> bool {
        any_has(self.prisms(), x, y, z)
    }

    /// Whether the shape moved by `(dx, dy, dz)` still fits the coordinate type
    pub open spec fn can_shift(&self, dx: int, dy: int, dz: int) -> bool {
        self.prisms().len() > 0 ==> self.bound().can_shift(dx, dy, dz)
    }

    /// Create shape from prism geometry
    pub fn from_prism(prism: Geom3) -> (r: Arbitrary)
        requires
            prism.wf(),
        ensures
            r.wf(),
            r.prisms() == seq![prism],
            r.bound() == prism,
    {
        let mut prisms = Vec::new();
        prisms.push(prism);
        proof {
            let s = prisms@;
            assert(s.drop_last() =~= Seq::<Geom3>::empty());
            assert(s.last() == prism);
            assert(s =~= seq![prism]);
            reveal_with_fuel(lo, 2);
            reveal_with_fuel(hi, 2);
            assert(hull(s) == prism);
        }
        Arbitrary { prisms, bound: prism }
    }

    /// The shape without any prism
    pub fn new_empty() -> (r: Arbitrary)
        ensures
            r.wf(),
            r.prisms() == Seq::<Geom3>::empty(),
    {
        Arbitrary { prisms: Vec::new(), bound: Geom3 { size: Vec3(0, 0, 0), pos: Vec3(0, 0, 0) } }
    }

    /// Check if the shape contains no points
    pub fn is_empty(&self) -> (r: bool)
        ensures
            r <==> self.prisms().len() == 0 || !self.bound().positive(),
    {
        if self.prisms.len() == 0 {
            return true;
        }
        !self.bound.has_positive_volume()
    }

    /// The number of prisms of the shape
    pub fn prism_count(&self) -> (r: usize)
        ensures
            r == self.prisms().len(),
    {
        self.prisms.len()
    }

    /// The prism at index `i`
    pub fn prism(&self, i: usize) -> (r: Geom3)
        requires
            i < self.prisms().len(),
        ensures
            r == self.prisms()[i as int],
    {
        self.prisms[i]
    }

    /// The bounding box: the hull of the prisms
    pub fn bounding_box(&self) -> (r: Geom3)
        ensures
            r == self.bound(),
    {
        self.bound
    }

    /// Get the min position of the shape, or None if the shape is empty
    pub fn min(&self, axis: Axis) -> (r: Option<i32>)
        ensures
            r is None <==> self.prisms().len() == 0,
            r matches Some(m) ==> m == self.bound().pos.at(axis),
    {
        if self.prisms.len() == 0 {
            return None;
        }
        Some(self.bound.pos.on(axis))
    }

    /// Get the min position of the shape, or None if the shape is empty
    pub fn pos(&self) -> (r: Option<Vec3<i32>>)
        ensures
            r is None <==> self.prisms().len() == 0,
            r matches Some(p) ==> p == self.bound().pos,
    {
        if self.prisms.len() == 0 {
            return None;
        }
        Some(self.bound.pos)
    }

    /// Get the max position of the shape, or None if the shape is empty
    pub fn max(&self, axis: Axis) -> (r: Option<i32>)
        requires
            self.wf(),
        ensures
            r is None <==> self.prisms().len() == 0,
            r matches Some(m) ==> m == self.bound().pos.at(axis) + self.bound().size.at(axis),
    {
        if self.prisms.len() == 0 {
            return None;
        }
        proof {
            lemma_hull(self.prisms@);
        }
        let end: i64 = self.bound.pos.on(axis) as i64 + self.bound.size.on(axis) as i64;
        Some(end as i32)
    }

    /// Whether `translated` can be called with this offset
    pub fn can_translate(&self, offset: Vec3<i32>) -> (r: bool)
        requires
            self.wf(),
        ensures
            r == self.can_shift(offset.0 as int, offset.1 as int, offset.2 as int),
    {
        if self.prisms.len() == 0 {
            return true;
        }
        proof {
            lemma_hull(self.prisms@);
        }
        let b = &self.bound;
        axis_fits(b.pos.0, b.size.0, offset.0) && axis_fits(b.pos.1, b.size.1, offset.1)
            && axis_fits(b.pos.2, b.size.2, offset.2)
    }

    /// Create the same shape translated by offset
    pub fn translated(&self, offset: Vec3<i32>) -> (r: Arbitrary)
        requires
            self.wf(),
            self.can_shift(offset.0 as int, offset.1 as int, offset.2 as int),
        ensures
            r.wf(),
            r.prisms() == shift_all(
                self.prisms(),
                offset.0 as int,
                offset.1 as int,
                offset.2 as int,
            ),
            forall|x: int, y: int, z: int|
                r.has(x, y, z) <==> self.has(x - offset.0, y - offset.1, z - offset.2),
    {
        let ghost dx = offset.0 as int;
        let ghost dy = offset.1 as int;
        let ghost dz = offset.2 as int;
        let n = self.prisms.len();
        let mut prisms: Vec<Geom3> = Vec::new();
        if n == 0 {
            assert(prisms@ =~= shift_all(self.prisms@, dx, dy, dz));
            proof {
                lemma_shift_all(self.prisms@, dx, dy, dz);
            }
            return Arbitrary { prisms, bound: self.bound };
        }
        proof {
            lemma_hull(self.prisms@);
            lemma_shift_all(self.prisms@, dx, dy, dz);
        }
        let mut i: usize = 0;
        while i < n
            invariant
                n == self.prisms@.len(),
                i <= n,
                all_wf(self.prisms@),
                prisms@ == shift_all(self.prisms@.take(i as int), dx, dy, dz),
                dx == offset.0,
                dy == offset.1,
                dz == offset.2,
                forall|k: int|
                    0 <= k < n ==> (#[trigger] self.prisms@[k]).can_shift(dx, dy, dz),
            decreases n - i,
        {
            let p = self.prisms[i];
            assert(self.prisms@[i as int].can_shift(dx, dy, dz));
            prisms.push(
                Geom3 {
                    size: p.size,
                    pos: Vec3(p.pos.0 + offset.0, p.pos.1 + offset.1, p.pos.2 + offset.2),
                },
            );
            i += 1;
            assert(prisms@ =~= shift_all(self.prisms@.take(i as int), dx, dy, dz));
        }
        assert(self.prisms@.take(n as int) =~= self.prisms@);
        let b = self.bound;
        let bound = Geom3 {
            size: b.size,
            pos: Vec3(b.pos.0 + offset.0, b.pos.1 + offset.1, b.pos.2 + offset.2),
        };
        Arbitrary { prisms, bound }
    }

    /// Self = Self U other
    pub fn union(&mut self, other: &Arbitrary)
        requires
            old(self).wf(),
            other.wf(),
        ensures
            final(self).wf(),
            final(self).prisms() == old(self).prisms() + other.prisms(),
            forall|x: int, y: int, z: int|
                final(self).has(x, y, z) <==> old(self).has(x, y, z) || other.has(x, y, z),
    {
        let ghost before = self.prisms@;
        let (mut min, mut max) = if self.prisms.len() == 0 {
            (Vec3(i32::MAX, i32::MAX, i32::MAX), Vec3(i32::MIN, i32::MIN, i32::MIN))
        } else {
            proof {
                lemma_hull(self.prisms@);
            }
            (
                self.bound.pos,
                Vec3(self.bound.x_end(), self.bound.y_end(), self.bound.z_end()),
            )
        };
        let n = other.prisms.len();
        let mut i: usize = 0;
        while i < n
            invariant
                n == other.prisms@.len(),
                i <= n,
                all_wf(other.prisms@),
                all_wf(self.prisms@),
                self.prisms@ == before + other.prisms@.take(i as int),
                tracks(self.prisms@, min, max),
            decreases n - i,
        {
            let p = other.prisms[i];
            let ghost s = self.prisms@;
            self.prisms.push(p);
            Self::update_bound(&mut min, &mut max, &p);
            i += 1;
            proof {
                assert(self.prisms@.drop_last() =~= s);
                assert(self.prisms@ =~= before + other.prisms@.take(i as int));
            }
        }
        assert(other.prisms@.take(n as int) =~= other.prisms@);
        self.set_bound(min, max);
        proof {
            lemma_any_has_concat(before, other.prisms@);
        }
    }

    /// Self = Self intersection other
    pub fn intersection(&mut self, other: &Arbitrary)
        requires
            old(self).wf(),
            other.wf(),
        ensures
            final(self).wf(),
            final(self).prisms() == meet_all(old(self).prisms(), other.prisms()),
            forall|x: int, y: int, z: int|
                final(self).has(x, y, z) <==> old(self).has(x, y, z) && other.has(x, y, z),
    {
        // (A U B) ^ (C U D)
        // = ((A U B) ^ C) U ((A U B) ^ D)
        // = (A ^ C) U (B ^ C) U (A ^ D) U (B ^ D)
        let ghost a = self.prisms@;
        let ghost b = other.prisms@;
        let mut out: Vec<Geom3> = Vec::new();
        let mut min = Vec3(i32::MAX, i32::MAX, i32::MAX);
        let mut max = Vec3(i32::MIN, i32::MIN, i32::MIN);
        let n = self.prisms.len();
        let m = other.prisms.len();
        let mut i: usize = 0;
        while i < n
            invariant
                n == a.len(),
                m == b.len(),
                a == self.prisms@,
                b == other.prisms@,
                i <= n,
                all_wf(a),
                all_wf(b),
                all_wf(out@),
                out@ == meet_all(a.take(i as int), b),
                tracks(out@, min, max),
            decreases n - i,
        {
            let p = self.prisms[i];
            let ghost done = out@;
            let mut j: usize = 0;
            while j < m
                invariant
                    m == b.len(),
                    b == other.prisms@,
                    j <= m,
                    p.wf(),
                    all_wf(b),
                    all_wf(out@),
                    out@ == done + meet_row(p, b.take(j as int)),
                    tracks(out@, min, max),
                decreases m - j,
            {
                let q = other.prisms[j];
                let both = p.intersection(&q);
                let ghost s = out@;
                if both.has_positive_volume() {
                    out.push(both);
                    Self::update_bound(&mut min, &mut max, &both);
                    assert(out@.drop_last() =~= s);
                }
                j += 1;
                proof {
                    assert(b.take(j as int).drop_last() =~= b.take(j as int - 1));
                    assert(out@ =~= done + meet_row(p, b.take(j as int)));
                }
            }
            i += 1;
            proof {
                assert(b.take(m as int) =~= b);
                assert(a.take(i as int).drop_last() =~= a.take(i as int - 1));
            }
        }
        assert(a.take(n as int) =~= a);
        self.prisms = out;
        self.set_bound(min, max);
        proof {
            lemma_meet_all(a, b);
        }
    }

    /// Self = Self - other
    pub fn difference(&mut self, other: &Arbitrary)
        requires
            old(self).wf(),
            other.wf(),
        ensures
            final(self).wf(),
            final(self).prisms() == minus_all(old(self).prisms(), other.prisms()),
            forall|x: int, y: int, z: int|
                final(self).has(x, y, z) <==> old(self).has(x, y, z) && !other.has(x, y, z),
    {
        let ghost a = self.prisms@;
        let ghost b = other.prisms@;
        let mut out: Vec<Geom3> = Vec::new();
        let n = self.prisms.len();
        let m = other.prisms.len();
        let mut i: usize = 0;
        while i < n
            invariant
                n == a.len(),
                m == b.len(),
                a == self.prisms@,
                b == other.prisms@,
                i <= n,
                all_wf(a),
                all_wf(b),
                out@ == minus_all(a.take(i as int), b),
            decreases n - i,
        {
            let mut pieces: Vec<Geom3> = Vec::new();
            pieces.push(self.prisms[i]);
            assert(pieces@ =~= seq![a[i as int]]);
            let mut j: usize = 0;
            while j < m
                invariant
                    m == b.len(),
                    b == other.prisms@,
                    j <= m,
                    all_wf(b),
                    all_wf(pieces@),
                    pieces@ == minus_seq(seq![a[i as int]], b.take(j as int)),
                decreases m - j,
            {
                let q = other.prisms[j];
                let ghost cur = pieces@;
                let mut next: Vec<Geom3> = Vec::new();
                let count = pieces.len();
                let mut k: usize = 0;
                while k < count
                    invariant
                        count == pieces@.len(),
                        cur == pieces@,
                        k <= count,
                        q.wf(),
                        all_wf(cur),
                        all_wf(next@),
                        next@ == minus_each(cur.take(k as int), q),
                    decreases count - k,
                {
                    let piece = pieces[k];
                    let ghost s = next@;
                    piece.difference(&q, &mut next);
                    k += 1;
                    proof {
                        lemma_minus(piece, q);
                        lemma_all_wf_concat(s, piece.minus(q));
                        assert(cur.take(k as int).drop_last() =~= cur.take(k as int - 1));
                    }
                }
                assert(cur.take(count as int) =~= cur);
                pieces = next;
                j += 1;
                proof {
                    assert(b.take(j as int).drop_last() =~= b.take(j as int - 1));
                }
            }
            assert(b.take(m as int) =~= b);
            let ghost done = out@;
            let mut k: usize = 0;
            let count = pieces.len();
            while k < count
                invariant
                    count == pieces@.len(),
                    k <= count,
                    out@ == done + pieces@.take(k as int),
                decreases count - k,
            {
                out.push(pieces[k]);
                k += 1;
                assert(out@ =~= done + pieces@.take(k as int));
            }
            assert(pieces@.take(count as int) =~= pieces@);
            i += 1;
            proof {
                assert(a.take(i as int).drop_last() =~= a.take(i as int - 1));
            }
        }
        assert(a.take(n as int) =~= a);
        proof {
            lemma_minus_all(a, b);
        }
        self.prisms = out;
        self.recompute_bound();
    }

    fn recompute_bound(&mut self)
        requires
            all_wf(old(self).prisms()),
        ensures
            final(self).prisms() == old(self).prisms(),
            final(self).wf(),
    {
        let mut min = Vec3(i32::MAX, i32::MAX, i32::MAX);
        let mut max = Vec3(i32::MIN, i32::MIN, i32::MIN);
        let n = self.prisms.len();
        let mut i: usize = 0;
        while i < n
            invariant
                n == self.prisms@.len(),
                i <= n,
                all_wf(self.prisms@),
                tracks(self.prisms@.take(i as int), min, max),
            decreases n - i,
        {
            let p = self.prisms[i];
            Self::update_bound(&mut min, &mut max, &p);
            i += 1;
            proof {
                assert(self.prisms@.take(i as int).drop_last() =~= self.prisms@.take(i as int - 1));
            }
        }
        assert(self.prisms@.take(n as int) =~= self.prisms@);
        self.set_bound(min, max);
    }

    fn update_bound(min: &mut Vec3<i32>, max: &mut Vec3<i32>, new_bound: &Geom3)
        requires
            new_bound.wf(),
        ensures
            final(min).0 == min_int(old(min).0 as int, new_bound.pos.0 as int),
            final(min).1 == min_int(old(min).1 as int, new_bound.pos.1 as int),
            final(min).2 == min_int(old(min).2 as int, new_bound.pos.2 as int),
            final(max).0 == max_int(old(max).0 as int, new_bound.x_hi()),
            final(max).1 == max_int(old(max).1 as int, new_bound.y_hi()),
            final(max).2 == max_int(old(max).2 as int, new_bound.z_hi()),
    {
        if new_bound.pos.0 < min.0 {
            min.0 = new_bound.pos.0;
        }
        if new_bound.pos.1 < min.1 {
            min.1 = new_bound.pos.1;
        }
        if new_bound.pos.2 < min.2 {
            min.2 = new_bound.pos.2;
        }
        let x_end = new_bound.x_end();
        let y_end = new_bound.y_end();
        let z_end = new_bound.z_end();
        if x_end > max.0 {
            max.0 = x_end;
        }
        if y_end > max.1 {
            max.1 = y_end;
        }
        if z_end > max.2 {
            max.2 = z_end;
        }
    }

    fn set_bound(&mut self, min: Vec3<i32>, max: Vec3<i32>)
        requires
            all_wf(old(self).prisms()),
            tracks(old(self).prisms(), min, max),
        ensures
            final(self).prisms() == old(self).prisms(),
            final(self).wf(),
    {
        if self.prisms.len() == 0 {
            self.bound = Geom3 { size: Vec3(0, 0, 0), pos: Vec3(0, 0, 0) };
            return ;
        }
        proof {
            lemma_lo_hi(self.prisms@, Axis::X);
            lemma_lo_hi(self.prisms@, Axis::Y);
            lemma_lo_hi(self.prisms@, Axis::Z);
        }
        let size = Vec3(
            crate::geom::span(min.0, max.0),
            crate::geom::span(min.1, max.1),
            crate::geom::span(min.2, max.2),
        );
        self.bound = Geom3 { size, pos: min };
    }

    /// Check if the shape contains the given unit cube
    pub fn contains_unit_cube(&self, pos: Vec3<i32>) -> (r: bool)
        requires
            self.wf(),
        ensures
            r == self.has(pos.0 as int, pos.1 as int, pos.2 as int),
            r == (self.bound().has(pos.0 as int, pos.1 as int, pos.2 as int) && any_has(
                self.prisms(),
                pos.0 as int,
                pos.1 as int,
                pos.2 as int,
            )),
    {
        proof {
            lemma_hull(self.prisms@);
        }
        if self.prisms.len() == 0 {
            return false;
        }
        if !self.bound.contains_unit_cube(pos) {
            return false;
        }
        let n = self.prisms.len();
        let mut i: usize = 0;
        while i < n
            invariant
                n == self.prisms@.len(),
                i <= n,
                all_wf(self.prisms@),
                self.bound.has(pos.0 as int, pos.1 as int, pos.2 as int),
                forall|k: int|
                    0 <= k < i ==> !(#[trigger] self.prisms@[k]).has(
                        pos.0 as int,
                        pos.1 as int,
                        pos.2 as int,
                    ),
            decreases n - i,
        {
            if self.prisms[i].contains_unit_cube(pos) {
                proof {
                    assert(self.prisms@[i as int].has(pos.0 as int, pos.1 as int, pos.2 as int));
                    assert(any_has(self.prisms@, pos.0 as int, pos.1 as int, pos.2 as int));
                }
                return true;
            }
            i += 1;
        }
        false
    }
}

/// Whether `pos + size` moved by `offset` stays within `i32`
pub(crate) fn axis_fits(pos: i32, size: u32, offset: i32) -> (r: bool)
    ensures
        r <==> i32::MIN <= pos + offset && pos + size + offset <= i32::MAX,
{
    let start: i64 = pos as i64 + offset as i64;
    let end: i64 = start + size as i64;
    i32::MIN as i64 <= start && end <= i32::MAX as i64
}

/// `min` and `max` hold the least starts and the greatest ends of `s`
pub open spec fn tracks(s: Seq<Geom3>, min: Vec3<i32>, max: Vec3<i32>) -> bool {
    &&& min.0 == lo(s, Axis::X)
    &&& min.1 == lo(s, Axis::Y)
    &&& min.2 == lo(s, Axis::Z)
    &&& max.0 == hi(s, Axis::X)
    &&& max.1 == hi(s, Axis::Y)
    &&& max.2 == hi(s, Axis::Z)
}

/// The least start is below every start, the greatest end above every end,
/// and for a list that is not empty the least start is below the greatest
/// end, both within `i32`.
pub proof fn lemma_lo_hi(s: Seq<Geom3>, axis: Axis)
    requires
        all_wf(s),
    ensures
        forall|i: int| 0 <= i < s.len() ==> lo(s, axis) <= (#[trigger] s[i]).pos.at(axis),
        forall|i: int|
            0 <= i < s.len() ==> (#[trigger] s[i]).pos.at(axis) + s[i].size.at(axis) <= hi(
                s,
                axis,
            ),
        s.len() > 0 ==> i32::MIN <= lo(s, axis) <= hi(s, axis) <= i32::MAX,
        s.len() > 0 ==> exists|i: int| 0 <= i < s.len() && lo(s, axis) == (#[trigger] s[i]).pos.at(axis),
        s.len() > 0 ==> exists|i: int|
            0 <= i < s.len() && hi(s, axis) == (#[trigger] s[i]).pos.at(axis) + s[i].size.at(axis),
    decreases s.len(),
{
    if s.len() > 0 {
        let t = s.drop_last();
        lemma_lo_hi(t, axis);
        let g = s.last();
        assert(g.wf());
        assert(g == s[s.len() - 1]);
        assert forall|i: int| 0 <= i < s.len() implies lo(s, axis) <= (#[trigger] s[i]).pos.at(
            axis,
        ) by {
            if i < t.len() {
                assert(t[i] == s[i]);
            }
        }
        assert forall|i: int| 0 <= i < s.len() implies (#[trigger] s[i]).pos.at(axis)
            + s[i].size.at(axis) <= hi(s, axis) by {
            if i < t.len() {
                assert(t[i] == s[i]);
            }
        }
        if t.len() > 0 {
            let i = choose|i: int| 0 <= i < t.len() && lo(t, axis) == (#[trigger] t[i]).pos.at(axis);
            assert(t[i] == s[i]);
            let j = choose|j: int|
                0 <= j < t.len() && hi(t, axis) == (#[trigger] t[j]).pos.at(axis) + t[j].size.at(
                    axis,
                );
            assert(t[j] == s[j]);
            if lo(s, axis) == lo(t, axis) {
                assert(lo(s, axis) == s[i].pos.at(axis));
            } else {
                assert(lo(s, axis) == s[s.len() - 1].pos.at(axis));
            }
            if hi(s, axis) == hi(t, axis) {
                assert(hi(s, axis) == s[j].pos.at(axis) + s[j].size.at(axis));
            } else {
                assert(hi(s, axis) == s[s.len() - 1].pos.at(axis) + s[s.len() - 1].size.at(axis));
            }
        } else {
            assert(lo(t, axis) == i32::MAX);
            assert(hi(t, axis) == i32::MIN);
            assert(lo(s, axis) == s[s.len() - 1].pos.at(axis));
            assert(hi(s, axis) == s[s.len() - 1].pos.at(axis) + s[s.len() - 1].size.at(axis));
        }
    }
}

/// Bounding box soundness: the hull of valid prisms is valid, encloses each
/// of them, and holds every unit cube that one of them holds.
pub proof fn lemma_hull(s: Seq<Geom3>)
    requires
        all_wf(s),
    ensures
        hull(s).wf(),
        s.len() > 0 ==> hull(s).pos.0 == lo(s, Axis::X) && hull(s).x_hi() == hi(s, Axis::X),
        s.len() > 0 ==> hull(s).pos.1 == lo(s, Axis::Y) && hull(s).y_hi() == hi(s, Axis::Y),
        s.len() > 0 ==> hull(s).pos.2 == lo(s, Axis::Z) && hull(s).z_hi() == hi(s, Axis::Z),
        forall|i: int|
            0 <= i < s.len() ==> {
                &&& hull(s).pos.0 <= (#[trigger] s[i]).pos.0 && s[i].x_hi() <= hull(s).x_hi()
                &&& hull(s).pos.1 <= s[i].pos.1 && s[i].y_hi() <= hull(s).y_hi()
                &&& hull(s).pos.2 <= s[i].pos.2 && s[i].z_hi() <= hull(s).z_hi()
            },
        forall|x: int, y: int, z: int| any_has(s, x, y, z) ==> hull(s).has(x, y, z),
        forall|i: int, dx: int, dy: int, dz: int|
            0 <= i < s.len() && hull(s).can_shift(dx, dy, dz) ==> #[trigger] s[i].can_shift(
                dx,
                dy,
                dz,
            ),
{
    lemma_lo_hi(s, Axis::X);
    lemma_lo_hi(s, Axis::Y);
    lemma_lo_hi(s, Axis::Z);
    assert forall|x: int, y: int, z: int| any_has(s, x, y, z) implies hull(s).has(x, y, z) by {
        let i = choose|i: int| 0 <= i < s.len() && (#[trigger] s[i]).has(x, y, z);
        assert(s[i].wf());
    }
}

/// Moving every prism moves the hull and the unit cubes with them.
pub proof fn lemma_shift_all(s: Seq<Geom3>, dx: int, dy: int, dz: int)
    requires
        all_wf(s),
        s.len() > 0 ==> hull(s).can_shift(dx, dy, dz),
    ensures
        all_wf(shift_all(s, dx, dy, dz)),
        hull(shift_all(s, dx, dy, dz)) == if s.len() == 0 {
            zero_geom()
        } else {
            hull(s).shifted(dx, dy, dz)
        },
        forall|x: int, y: int, z: int|
            any_has(shift_all(s, dx, dy, dz), x, y, z) <==> any_has(s, x - dx, y - dy, z - dz),
{
    let t = shift_all(s, dx, dy, dz);
    lemma_hull(s);
    assert forall|i: int| 0 <= i < t.len() implies (#[trigger] t[i]).wf() by {
        assert(s[i].can_shift(dx, dy, dz));
    }
    assert forall|x: int, y: int, z: int| any_has(t, x, y, z) <==> any_has(
        s,
        x - dx,
        y - dy,
        z - dz,
    ) by {
        if any_has(t, x, y, z) {
            let i = choose|i: int| 0 <= i < t.len() && (#[trigger] t[i]).has(x, y, z);
            assert(s[i].can_shift(dx, dy, dz));
            assert(s[i].has(x - dx, y - dy, z - dz));
        }
        if any_has(s, x - dx, y - dy, z - dz) {
            let i = choose|i: int| 0 <= i < s.len() && (#[trigger] s[i]).has(x - dx, y - dy, z - dz);
            assert(s[i].can_shift(dx, dy, dz));
            assert(t[i].has(x, y, z));
        }
    }
    if s.len() > 0 {
        lemma_shift_lo_hi(s, dx, dy, dz, Axis::X);
        lemma_shift_lo_hi(s, dx, dy, dz, Axis::Y);
        lemma_shift_lo_hi(s, dx, dy, dz, Axis::Z);
        lemma_lo_hi(s, Axis::X);
        lemma_lo_hi(s, Axis::Y);
        lemma_lo_hi(s, Axis::Z);
    }
}

proof fn lemma_shift_lo_hi(s: Seq<Geom3>, dx: int, dy: int, dz: int, axis: Axis)
    requires
        all_wf(s),
        s.len() > 0,
        forall|i: int| 0 <= i < s.len() ==> (#[trigger] s[i]).can_shift(dx, dy, dz),
    ensures
        lo(shift_all(s, dx, dy, dz), axis) == lo(s, axis) + Vec3(dx, dy, dz).at(axis),
        hi(shift_all(s, dx, dy, dz), axis) == hi(s, axis) + Vec3(dx, dy, dz).at(axis),
    decreases s.len(),
{
    let t = shift_all(s, dx, dy, dz);
    assert(t.drop_last() =~= shift_all(s.drop_last(), dx, dy, dz));
    assert(s[s.len() - 1].can_shift(dx, dy, dz));
    assert(t.last() == s.last().shifted(dx, dy, dz));
    if s.len() > 1 {
        assert forall|i: int| 0 <= i < s.drop_last().len() implies (#[trigger] s.drop_last()[i]).can_shift(
            dx,
            dy,
            dz,
        ) by {
            assert(s.drop_last()[i] == s[i]);
        }
        lemma_shift_lo_hi(s.drop_last(), dx, dy, dz, axis);
        lemma_lo_hi(s.drop_last(), axis);
    } else {
        assert(s.drop_last().len() == 0);
        assert(t.drop_last().len() == 0);
        assert(lo(s.drop_last(), axis) == i32::MAX);
        assert(hi(s.drop_last(), axis) == i32::MIN);
        assert(lo(t.drop_last(), axis) == i32::MAX);
        assert(hi(t.drop_last(), axis) == i32::MIN);
    }
}

/// A unit cube lies in a concatenation where it lies in one of the two lists.
pub proof fn lemma_any_has_concat(a: Seq<Geom3>, b: Seq<Geom3>)
    ensures
        forall|x: int, y: int, z: int|
            #[trigger] any_has(a + b, x, y, z) <==> any_has(a, x, y, z) || any_has(b, x, y, z),
{
    let c = a + b;
    assert forall|x: int, y: int, z: int| #[trigger]
        any_has(c, x, y, z) <==> any_has(a, x, y, z) || any_has(b, x, y, z) by {
        if any_has(a, x, y, z) {
            let i = choose|i: int| 0 <= i < a.len() && (#[trigger] a[i]).has(x, y, z);
            assert(c[i].has(x, y, z));
        }
        if any_has(b, x, y, z) {
            let i = choose|i: int| 0 <= i < b.len() && (#[trigger] b[i]).has(x, y, z);
            assert(c[a.len() + i].has(x, y, z));
        }
        if any_has(c, x, y, z) {
            let i = choose|i: int| 0 <= i < c.len() && (#[trigger] c[i]).has(x, y, z);
            if i < a.len() {
                assert(a[i].has(x, y, z));
            } else {
                assert(b[i - a.len()].has(x, y, z));
            }
        }
    }
}

/// A concatenation of valid prisms is valid.
pub proof fn lemma_all_wf_concat(a: Seq<Geom3>, b: Seq<Geom3>)
    requires
        all_wf(a),
        all_wf(b),
    ensures
        all_wf(a + b),
{
    let c = a + b;
    assert forall|i: int| 0 <= i < c.len() implies (#[trigger] c[i]).wf() by {
        if i < a.len() {
            assert(c[i] == a[i]);
        } else {
            assert(c[i] == b[i - a.len()]);
        }
    }
}

/// A concatenation of prisms of positive volume has prisms of positive volume.
pub proof fn lemma_all_positive_concat(a: Seq<Geom3>, b: Seq<Geom3>)
    requires
        all_positive_volume(a),
        all_positive_volume(b),
    ensures
        all_positive_volume(a + b),
{
    let c = a + b;
    assert forall|i: int| 0 <= i < c.len() implies (#[trigger] c[i]).positive() by {
        if i < a.len() {
            assert(c[i] == a[i]);
        } else {
            assert(c[i] == b[i - a.len()]);
        }
    }
}

/// The hull of a list of valid prisms of positive volume that is not empty has
/// positive volume.
pub proof fn lemma_hull_positive(s: Seq<Geom3>)
    requires
        all_wf(s),
        all_positive_volume(s),
        s.len() > 0,
    ensures
        hull(s).positive(),
{
    lemma_lo_hi(s, Axis::X);
    lemma_lo_hi(s, Axis::Y);
    lemma_lo_hi(s, Axis::Z);
    assert(s[0].positive());
}

proof fn lemma_meet_row(a: Geom3, b: Seq<Geom3>)
    requires
        a.wf(),
        all_wf(b),
    ensures
        all_wf(meet_row(a, b)),
        all_positive_volume(meet_row(a, b)),
        forall|x: int, y: int, z: int|
            #[trigger] any_has(meet_row(a, b), x, y, z) <==> a.has(x, y, z) && any_has(b, x, y, z),
    decreases b.len(),
{
    if b.len() > 0 {
        let t = b.drop_last();
        let g = b.last();
        assert(g == b[b.len() - 1]);
        assert forall|i: int| 0 <= i < t.len() implies (#[trigger] t[i]).wf() by {
            assert(t[i] == b[i]);
        }
        lemma_meet_row(a, t);
        lemma_meet(a, g);
        lemma_keep(meet_row(a, t), a.meet(g));
        assert(b =~= t.push(g));
        lemma_any_has_concat(t, seq![g]);
        assert(t.push(g) =~= t + seq![g]);
        assert forall|x: int, y: int, z: int| #[trigger]
            any_has(meet_row(a, b), x, y, z) <==> a.has(x, y, z) && any_has(b, x, y, z) by {
            assert(any_has(seq![g], x, y, z) <==> g.has(x, y, z)) by {
                if g.has(x, y, z) {
                    assert(seq![g][0].has(x, y, z));
                }
            }
        }
    } else {
        assert forall|x: int, y: int, z: int| #[trigger]
            any_has(meet_row(a, b), x, y, z) <==> a.has(x, y, z) && any_has(b, x, y, z) by {}
    }
}

/// Intersection of prism lists: the pairwise intersections are valid, have
/// positive volume, and hold exactly the unit cubes that lie in both lists.
pub proof fn lemma_meet_all(a: Seq<Geom3>, b: Seq<Geom3>)
    requires
        all_wf(a),
        all_wf(b),
    ensures
        all_wf(meet_all(a, b)),
        all_positive_volume(meet_all(a, b)),
        forall|x: int, y: int, z: int|
            #[trigger] any_has(meet_all(a, b), x, y, z) <==> any_has(a, x, y, z) && any_has(
                b,
                x,
                y,
                z,
            ),
    decreases a.len(),
{
    if a.len() > 0 {
        let t = a.drop_last();
        let g = a.last();
        assert(g == a[a.len() - 1]);
        assert forall|i: int| 0 <= i < t.len() implies (#[trigger] t[i]).wf() by {
            assert(t[i] == a[i]);
        }
        lemma_meet_all(t, b);
        lemma_meet_row(g, b);
        lemma_all_wf_concat(meet_all(t, b), meet_row(g, b));
        lemma_all_positive_concat(meet_all(t, b), meet_row(g, b));
        lemma_any_has_concat(meet_all(t, b), meet_row(g, b));
        assert(a =~= t + seq![g]);
        lemma_any_has_concat(t, seq![g]);
        assert forall|x: int, y: int, z: int| #[trigger]
            any_has(meet_all(a, b), x, y, z) <==> any_has(a, x, y, z) && any_has(b, x, y, z) by {
            assert(any_has(seq![g], x, y, z) <==> g.has(x, y, z)) by {
                if g.has(x, y, z) {
                    assert(seq![g][0].has(x, y, z));
                }
            }
        }
    } else {
        assert forall|x: int, y: int, z: int| #[trigger]
            any_has(meet_all(a, b), x, y, z) <==> any_has(a, x, y, z) && any_has(b, x, y, z) by {}
    }
}

proof fn lemma_minus_each(pieces: Seq<Geom3>, b: Geom3)
    requires
        all_wf(pieces),
        b.wf(),
    ensures
        all_wf(minus_each(pieces, b)),
        all_positive_volume(pieces) ==> all_positive_volume(minus_each(pieces, b)),
        forall|x: int, y: int, z: int|
            #[trigger] any_has(minus_each(pieces, b), x, y, z) <==> any_has(pieces, x, y, z)
                && !b.has(x, y, z),
    decreases pieces.len(),
{
    if pieces.len() > 0 {
        let t = pieces.drop_last();
        let g = pieces.last();
        assert(g == pieces[pieces.len() - 1]);
        assert forall|i: int| 0 <= i < t.len() implies (#[trigger] t[i]).wf() by {
            assert(t[i] == pieces[i]);
        }
        lemma_minus_each(t, b);
        lemma_minus(g, b);
        lemma_all_wf_concat(minus_each(t, b), g.minus(b));
        if all_positive_volume(pieces) {
            assert forall|i: int| 0 <= i < t.len() implies (#[trigger] t[i]).positive() by {
                assert(t[i] == pieces[i]);
            }
            lemma_all_positive_concat(minus_each(t, b), g.minus(b));
        }
        lemma_any_has_concat(minus_each(t, b), g.minus(b));
        assert(pieces =~= t + seq![g]);
        lemma_any_has_concat(t, seq![g]);
        assert forall|x: int, y: int, z: int| #[trigger]
            any_has(minus_each(pieces, b), x, y, z) <==> any_has(pieces, x, y, z) && !b.has(
                x,
                y,
                z,
            ) by {
            assert(any_has(seq![g], x, y, z) <==> g.has(x, y, z)) by {
                if g.has(x, y, z) {
                    assert(seq![g][0].has(x, y, z));
                }
            }
        }
    } else {
        assert forall|x: int, y: int, z: int| #[trigger]
            any_has(minus_each(pieces, b), x, y, z) <==> any_has(pieces, x, y, z) && !b.has(
                x,
                y,
                z,
            ) by {}
    }
}

/// Iterated subtraction: what is left of `pieces` after every prism of `bs`
/// was taken away is valid and holds exactly the unit cubes of `pieces` that
/// no prism of `bs` holds.
pub proof fn lemma_minus_seq(pieces: Seq<Geom3>, bs: Seq<Geom3>)
    requires
        all_wf(pieces),
        all_wf(bs),
    ensures
        all_wf(minus_seq(pieces, bs)),
        all_positive_volume(pieces) ==> all_positive_volume(minus_seq(pieces, bs)),
        forall|x: int, y: int, z: int|
            #[trigger] any_has(minus_seq(pieces, bs), x, y, z) <==> any_has(pieces, x, y, z)
                && !any_has(bs, x, y, z),
    decreases bs.len(),
{
    if bs.len() > 0 {
        let t = bs.drop_last();
        let g = bs.last();
        assert(g == bs[bs.len() - 1]);
        assert forall|i: int| 0 <= i < t.len() implies (#[trigger] t[i]).wf() by {
            assert(t[i] == bs[i]);
        }
        lemma_minus_seq(pieces, t);
        lemma_minus_each(minus_seq(pieces, t), g);
        assert(bs =~= t + seq![g]);
        lemma_any_has_concat(t, seq![g]);
        assert forall|x: int, y: int, z: int| #[trigger]
            any_has(minus_seq(pieces, bs), x, y, z) <==> any_has(pieces, x, y, z) && !any_has(
                bs,
                x,
                y,
                z,
            ) by {
            assert(any_has(seq![g], x, y, z) <==> g.has(x, y, z)) by {
                if g.has(x, y, z) {
                    assert(seq![g][0].has(x, y, z));
                }
            }
        }
    } else {
        assert forall|x: int, y: int, z: int| #[trigger]
            any_has(minus_seq(pieces, bs), x, y, z) <==> any_has(pieces, x, y, z) && !any_has(
                bs,
                x,
                y,
                z,
            ) by {}
    }
}

/// Difference of prism lists: the result is valid and holds exactly the unit
/// cubes of `a` that no prism of `bs` holds.
pub proof fn lemma_minus_all(a: Seq<Geom3>, bs: Seq<Geom3>)
    requires
        all_wf(a),
        all_wf(bs),
    ensures
        all_wf(minus_all(a, bs)),
        all_positive_volume(a) ==> all_positive_volume(minus_all(a, bs)),
        forall|x: int, y: int, z: int|
            #[trigger] any_has(minus_all(a, bs), x, y, z) <==> any_has(a, x, y, z) && !any_has(
                bs,
                x,
                y,
                z,
            ),
    decreases a.len(),
{
    if a.len() > 0 {
        let t = a.drop_last();
        let g = a.last();
        assert(g == a[a.len() - 1]);
        assert forall|i: int| 0 <= i < t.len() implies (#[trigger] t[i]).wf() by {
            assert(t[i] == a[i]);
        }
        lemma_minus_all(t, bs);
        assert(all_wf(seq![g])) by {
            assert forall|i: int| 0 <= i < seq![g].len() implies (#[trigger] seq![g][i]).wf() by {}
        }
        lemma_minus_seq(seq![g], bs);
        lemma_all_wf_concat(minus_all(t, bs), minus_seq(seq![g], bs));
        if all_positive_volume(a) {
            assert forall|i: int| 0 <= i < t.len() implies (#[trigger] t[i]).positive() by {
                assert(t[i] == a[i]);
            }
            assert(all_positive_volume(seq![g])) by {
                assert forall|i: int| 0 <= i < seq![g].len() implies (#[trigger] seq![g][i]).positive() by {}
            }
            lemma_all_positive_concat(minus_all(t, bs), minus_seq(seq![g], bs));
        }
        lemma_any_has_concat(minus_all(t, bs), minus_seq(seq![g], bs));
        assert(a =~= t + seq![g]);
        lemma_any_has_concat(t, seq![g]);
    } else {
        assert forall|x: int, y: int, z: int| #[trigger]
            any_has(minus_all(a, bs), x, y, z) <==> any_has(a, x, y, z) && !any_has(bs, x, y, z) by {}
    }
}

} // verus!
