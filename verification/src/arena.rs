use vstd::prelude::*;

use crate::geom::{all_positive_volume, all_wf, any_has, Geom3};
use crate::math::{Axis, Vec3};
use crate::laws::law_translation_composes;
use crate::shape::{
    axis_fits, hull, lemma_all_positive_concat, lemma_any_has_concat, lemma_hull,
    lemma_hull_positive, lemma_meet_all, lemma_minus_all, lemma_shift_all, meet_all, minus_all,
    shift_all, shift_along, Arbitrary,
};

verus! {

/// 3D geometry
#[derive(Debug)]
pub enum Shape {
    /// Empty shape (0-volume)
    Empty,
    /// Arbitrary set of points (points, bounding box)
    Arbitrary(Arbitrary),
    /// Another shape translated
    Translated(ShapeRef, Vec3<i32>),
}

/// A handle to a shape in a `ShapeVec`
#[derive(Debug, Clone, Copy, PartialEq, Eq, Hash)]
pub struct ShapeRef {
    pub idx: usize,
}

/// The store of all shapes, addressed by handles; handle 0 is the empty shape
#[derive(Debug)]
pub struct ShapeVec {
    shapes: Vec<Shape>,
}

/// The prisms of the shape in slot `i`, with every translation carried out
pub open spec fn flat(shapes: Seq<Shape>, i: int) -> Seq<Geom3>
    decreases i,
{
    if 0 <= i < shapes.len() {
        match shapes[i] {
            Shape::Empty => Seq::empty(),
            Shape::Arbitrary(a) => a.prisms(),
            Shape::Translated(r, off) => if r.idx < i {
                shift_all(flat(shapes, r.idx as int), off.0 as int, off.1 as int, off.2 as int)
            } else {
                Seq::empty()
            },
        }
    } else {
        Seq::empty()
    }
}

/// Whether every slot of `shapes` is valid: slot 0 is the empty shape, a list
/// of prisms is valid with prisms of positive volume, and a translation
/// refers to an earlier slot whose prisms still fit after the move
pub open spec fn arena_wf(shapes: Seq<Shape>) -> bool {
    &&& shapes.len() >= 1
    &&& shapes[0] is Empty
    &&& forall|i: int| 0 <= i < shapes.len() ==> #[trigger] slot_wf(shapes, i)
}

/// Whether slot `i` of `shapes` is valid
pub open spec fn slot_wf(shapes: Seq<Shape>, i: int) -> bool {
    shapes[i].wf_in(shapes) && shapes[i].rank() <= i
}

/// Whether moving `shape` by `offset` undoes the translation that it holds
pub open spec fn undone(shape: Shape, offset: Vec3<i32>) -> bool {
    shape matches Shape::Translated(_, by) && by.0 + offset.0 == 0 && by.1 + offset.1 == 0 && by.2
        + offset.2 == 0
}

/// `after` keeps the prisms of every slot of `before`
pub open spec fn keeps(before: Seq<Shape>, after: Seq<Shape>) -> bool {
    &&& before.len() <= after.len()
    &&& forall|i: int| 0 <= i < before.len() ==> #[trigger] flat(after, i) == flat(before, i)
}

impl Shape {
    /// One more than the slot that a translation refers to, else zero
    pub open spec fn rank(self) -> int {
        match self {
            Shape::Translated(r, _) => r.idx + 1,
            _ => 0,
        }
    }

    /// The prisms of the shape, with every translation carried out
    pub open spec fn prisms_in(self, shapes: Seq<Shape>) -> Seq<Geom3> {
        match self {
            Shape::Empty => Seq::empty(),
            Shape::Arbitrary(a) => a.prisms(),
            Shape::Translated(r, off) => shift_all(
                flat(shapes, r.idx as int),
                off.0 as int,
                off.1 as int,
                off.2 as int,
            ),
        }
    }

    /// Whether the shape is valid beside the slots of `shapes`
    pub open spec fn wf_in(self, shapes: Seq<Shape>) -> bool {
        match self {
            Shape::Empty => true,
            Shape::Arbitrary(a) => a.wf() && all_positive_volume(a.prisms()),
            Shape::Translated(r, off) => {
                &&& r.idx < shapes.len()
                &&& flat(shapes, r.idx as int).len() > 0 ==> hull(
                    flat(shapes, r.idx as int),
                ).can_shift(off.0 as int, off.1 as int, off.2 as int)
            },
        }
    }

    /// Get the bounding box of the shape
    pub fn size(&self, v: &ShapeVec) -> (r: Vec3<u32>)
        requires
            v.wf(),
            self.wf_in(v@),
            self.rank() <= v@.len(),
        ensures
            r == hull(self.prisms_in(v@)).size,
        decreases self.rank(), 0int,
    {
        match self {
            Shape::Empty => Vec3(0, 0, 0),
            Shape::Arbitrary(a) => a.bounding_box().size,
            Shape::Translated(shape, off) => {
                proof {
                    lemma_flat(v@, shape.idx as int);
                    lemma_shift_all(flat(v@, shape.idx as int), off.0 as int, off.1 as int, off.2 as int);
                }
                shape.size(v)
            },
        }
    }

    /// Whether the shape holds no prism
    pub fn is_empty(&self, v: &ShapeVec) -> (r: bool)
        requires
            v.wf(),
            self.wf_in(v@),
            self.rank() <= v@.len(),
        ensures
            r <==> self.prisms_in(v@).len() == 0,
        decreases self.rank(), 0int,
    {
        match self {
            Shape::Empty => true,
            Shape::Arbitrary(shape) => {
                proof {
                    if shape.prisms().len() > 0 {
                        lemma_hull_positive(shape.prisms());
                    }
                }
                shape.is_empty()
            },
            Shape::Translated(shape, _) => shape.is_empty(v),
        }
    }

    /// Get the min position of the shape
    pub fn min(&self, v: &ShapeVec, axis: Axis) -> (r: Option<i32>)
        requires
            v.wf(),
            self.wf_in(v@),
            self.rank() <= v@.len(),
        ensures
            r is None <==> self.prisms_in(v@).len() == 0,
            r matches Some(m) ==> m == hull(self.prisms_in(v@)).pos.at(axis),
        decreases self.rank(), 0int,
    {
        match self {
            Shape::Empty => None,
            Shape::Arbitrary(shape) => shape.min(axis),
            Shape::Translated(shape, offset) => {
                proof {
                    lemma_flat(v@, shape.idx as int);
                    lemma_shift_all(
                        flat(v@, shape.idx as int),
                        offset.0 as int,
                        offset.1 as int,
                        offset.2 as int,
                    );
                }
                match shape.min(v, axis) {
                    Some(x) => Some(x + offset.on(axis)),
                    None => None,
                }
            },
        }
    }

    /// Get the min position of the shape
    pub fn pos(&self, v: &ShapeVec) -> (r: Option<Vec3<i32>>)
        requires
            v.wf(),
            self.wf_in(v@),
            self.rank() <= v@.len(),
        ensures
            r is None <==> self.prisms_in(v@).len() == 0,
            r matches Some(p) ==> p == hull(self.prisms_in(v@)).pos,
        decreases self.rank(), 0int,
    {
        match self {
            Shape::Empty => None,
            Shape::Arbitrary(shape) => shape.pos(),
            Shape::Translated(shape, offset) => {
                proof {
                    lemma_flat(v@, shape.idx as int);
                    lemma_shift_all(
                        flat(v@, shape.idx as int),
                        offset.0 as int,
                        offset.1 as int,
                        offset.2 as int,
                    );
                }
                match shape.pos(v) {
                    Some(p) => Some(Vec3(p.0 + offset.0, p.1 + offset.1, p.2 + offset.2)),
                    None => None,
                }
            },
        }
    }

    /// Get the max position of the shape
    pub fn max(&self, v: &ShapeVec, axis: Axis) -> (r: Option<i32>)
        requires
            v.wf(),
            self.wf_in(v@),
            self.rank() <= v@.len(),
        ensures
            r is None <==> self.prisms_in(v@).len() == 0,
            r matches Some(m) ==> m == hull(self.prisms_in(v@)).pos.at(axis) + hull(
                self.prisms_in(v@),
            ).size.at(axis),
        decreases self.rank(), 0int,
    {
        match self {
            Shape::Empty => None,
            Shape::Arbitrary(shape) => shape.max(axis),
            Shape::Translated(shape, offset) => {
                proof {
                    lemma_flat(v@, shape.idx as int);
                    lemma_shift_all(
                        flat(v@, shape.idx as int),
                        offset.0 as int,
                        offset.1 as int,
                        offset.2 as int,
                    );
                    lemma_hull(flat(v@, shape.idx as int));
                }
                match shape.max(v, axis) {
                    Some(x) => Some(x + offset.on(axis)),
                    None => None,
                }
            },
        }
    }
}

impl View for ShapeVec {
    type V = Seq<Shape>;

    closed spec fn view(&self) -> Seq<Shape> {
        self.shapes@
    }
}

impl Default for ShapeVec {
    fn default() -> (r: Self)
        ensures
            r.wf(),
            r@.len() == 1,
    {
        Self::new()
    }
}

impl ShapeVec {
    /// Every slot is valid
    pub open spec fn wf(&self) -> bool {
        arena_wf(self@)
    }

    /// The prisms of the shape behind `h`, with every translation carried out
    pub open spec fn prisms(&self, h: ShapeRef) -> Seq<Geom3> {
        flat(self@, h.idx as int)
    }

    /// The shape behind `h` holds the unit cube at `(x, y, z)`
    pub open spec fn has(&self, h: ShapeRef, x: int, y: int, z: int) -> bool {
        any_has(flat(self@, h.idx as int), x, y, z)
    }

    /// The store with the empty shape alone, at handle 0
    pub fn new() -> (r: ShapeVec)
        ensures
            r.wf(),
            r@.len() == 1,
    {
        // preallocate enough slots so we don't reallocate at runtime
        let mut v = Vec::with_capacity(2560);
        v.push(Shape::Empty);
        ShapeVec { shapes: v }
    }

    /// The number of slots
    pub fn len(&self) -> (r: usize)
        ensures
            r == self@.len(),
    {
        self.shapes.len()
    }

    /// The handle of slot `idx`, None where there is no such slot
    pub fn get(&self, idx: usize) -> (r: Option<ShapeRef>)
        ensures
            r is Some <==> idx < self@.len(),
            r matches Some(h) ==> h.idx == idx,
    {
        let size = self.shapes.len();
        if idx < size {
            Some(ShapeRef { idx })
        } else {
            None
        }
    }

    /// Adds the prism as a new shape and gives its handle; 0, the handle of
    /// the empty shape, where a size is zero
    pub fn add_prism(&mut self, pos: Vec3<i32>, size: Vec3<u32>) -> (r: u32)
        requires
            old(self).wf(),
            Geom3::new(pos, size).wf(),
            old(self)@.len() <= u32::MAX,
        ensures
            final(self).wf(),
            keeps(old(self)@, final(self)@),
            !Geom3::new(pos, size).positive() ==> r == 0 && final(self)@ == old(self)@,
            Geom3::new(pos, size).positive() ==> r == old(self)@.len() && final(self)@.len() == r
                + 1 && flat(final(self)@, r as int) == seq![Geom3::new(pos, size)],
    {
        let shape = Geom3::new(pos, size);
        if !shape.has_positive_volume() {
            // use position 0 as empty
            return 0;
        }
        let idx = self.shapes.len();
        let arb = Arbitrary::from_prism(shape);
        proof {
            assert(arb.prisms()[0] == shape);
            lemma_push(self@, Shape::Arbitrary(arb));
        }
        self.shapes.push(Shape::Arbitrary(arb));
        idx as u32
    }

    /// The shape in slot `idx`
    pub fn shape(&self, idx: usize) -> (r: &Shape)
        requires
            idx < self@.len(),
        ensures
            *r == self@[idx as int],
    {
        &self.shapes[idx]
    }
}

impl ShapeRef {
    /// The handle of the empty shape
    pub fn new_empty(&self) -> (r: ShapeRef)
        ensures
            r.idx == 0,
    {
        ShapeRef { idx: 0 }
    }

    /// Whether the shape holds no prism
    pub fn is_empty(&self, v: &ShapeVec) -> (r: bool)
        requires
            v.wf(),
            self.idx < v@.len(),
        ensures
            r <==> v.prisms(*self).len() == 0,
        decreases self.idx, 1int,
    {
        proof {
            lemma_flat(v@, self.idx as int);
        }
        v.shape(self.idx).is_empty(v)
    }

    /// The size of the bounding box of the shape, zero for no prism
    pub fn size(&self, v: &ShapeVec) -> (r: Vec3<u32>)
        requires
            v.wf(),
            self.idx < v@.len(),
        ensures
            r == hull(v.prisms(*self)).size,
        decreases self.idx, 1int,
    {
        proof {
            lemma_flat(v@, self.idx as int);
        }
        v.shape(self.idx).size(v)
    }

    /// The least coordinate of the shape on `axis`, None for no prism
    pub fn min(&self, v: &ShapeVec, axis: Axis) -> (r: Option<i32>)
        requires
            v.wf(),
            self.idx < v@.len(),
        ensures
            r is None <==> v.prisms(*self).len() == 0,
            r matches Some(m) ==> m == hull(v.prisms(*self)).pos.at(axis),
        decreases self.idx, 1int,
    {
        proof {
            lemma_flat(v@, self.idx as int);
        }
        v.shape(self.idx).min(v, axis)
    }

    /// The least corner of the shape, None for no prism
    pub fn pos(&self, v: &ShapeVec) -> (r: Option<Vec3<i32>>)
        requires
            v.wf(),
            self.idx < v@.len(),
        ensures
            r is None <==> v.prisms(*self).len() == 0,
            r matches Some(p) ==> p == hull(v.prisms(*self)).pos,
        decreases self.idx, 1int,
    {
        proof {
            lemma_flat(v@, self.idx as int);
        }
        v.shape(self.idx).pos(v)
    }

    /// The end of the shape on `axis`, None for no prism
    pub fn max(&self, v: &ShapeVec, axis: Axis) -> (r: Option<i32>)
        requires
            v.wf(),
            self.idx < v@.len(),
        ensures
            r is None <==> v.prisms(*self).len() == 0,
            r matches Some(m) ==> m == hull(v.prisms(*self)).pos.at(axis) + hull(
                v.prisms(*self),
            ).size.at(axis),
        decreases self.idx, 1int,
    {
        proof {
            lemma_flat(v@, self.idx as int);
        }
        v.shape(self.idx).max(v, axis)
    }
}

impl ShapeVec {
    /// Whether the shape behind `h`, moved by `offset`, still fits the
    /// coordinate type
    pub open spec fn can_shift(&self, h: ShapeRef, offset: Vec3<i32>) -> bool {
        self.prisms(h).len() > 0 ==> hull(self.prisms(h)).can_shift(
            offset.0 as int,
            offset.1 as int,
            offset.2 as int,
        )
    }

    /// Whether the least corner of the shape behind `h` can be put at `min`
    pub open spec fn can_put(&self, h: ShapeRef, min: Vec3<i32>) -> bool {
        self.prisms(h).len() > 0 ==> {
            let b = hull(self.prisms(h));
            &&& min.can_sub(b.pos)
            &&& b.can_shift(min.0 - b.pos.0, min.1 - b.pos.1, min.2 - b.pos.2)
        }
    }
}

impl ShapeRef {
    /// The shape that the handle stands for
    pub fn read<'a>(&self, v: &'a ShapeVec) -> (r: &'a Shape)
        requires
            self.idx < v@.len(),
        ensures
            *r == v@[self.idx as int],
    {
        v.shape(self.idx)
    }

    /// Read self as arbitrary shape, None if the shape is not a list of prisms
    pub fn read_arbitrary<'a>(&self, v: &'a ShapeVec) -> (r: Option<&'a Arbitrary>)
        requires
            self.idx < v@.len(),
        ensures
            match r {
                Some(a) => v@[self.idx as int] == Shape::Arbitrary(*a),
                None => !(v@[self.idx as int] is Arbitrary),
            },
    {
        match v.shape(self.idx) {
            Shape::Arbitrary(x) => Some(x),
            _ => None,
        }
    }

    /// The prisms of a slot that holds no translation, None where it holds
    /// the empty shape
    fn resolved<'a>(&self, v: &'a ShapeVec) -> (r: Option<&'a Arbitrary>)
        requires
            v.wf(),
            self.idx < v@.len(),
            v@[self.idx as int].rank() == 0,
        ensures
            match r {
                Some(a) => a.wf() && a.prisms() == v.prisms(*self) && all_positive_volume(
                    a.prisms(),
                ),
                None => v.prisms(*self).len() == 0,
            },
    {
        proof {
            lemma_flat(v@, self.idx as int);
        }
        match v.shape(self.idx) {
            Shape::Arbitrary(x) => Some(x),
            _ => None,
        }
    }

    /// Whether `translate` accepts this offset: the moved shape still fits
    /// the coordinate type
    pub fn can_translate(&self, v: &ShapeVec, offset: Vec3<i32>) -> (r: bool)
        requires
            v.wf(),
            self.idx < v@.len(),
        ensures
            r == v.can_shift(*self, offset),
    {
        proof {
            lemma_flat(v@, self.idx as int);
            lemma_hull(v.prisms(*self));
        }
        match self.pos(v) {
            None => true,
            Some(p) => {
                let s = self.size(v);
                axis_fits(p.0, s.0, offset.0) && axis_fits(p.1, s.1, offset.1) && axis_fits(
                    p.2,
                    s.2,
                    offset.2,
                )
            },
        }
    }

    /// Whether `with_min` accepts this corner: the offset to it and the moved
    /// shape fit the coordinate type
    pub fn can_put_at(&self, v: &ShapeVec, min: Vec3<i32>) -> (r: bool)
        requires
            v.wf(),
            self.idx < v@.len(),
        ensures
            r == v.can_put(*self, min),
    {
        match self.pos(v) {
            None => true,
            Some(p) => match min.checked_sub(p) {
                None => false,
                Some(offset) => self.can_translate(v, offset),
            },
        }
    }

    /// Get a shape with the min position put at the given position
    pub fn with_min(&self, v: &mut ShapeVec, min: Vec3<i32>) -> (r: ShapeRef)
        requires
            old(v).wf(),
            self.idx < old(v)@.len(),
            old(v).can_put(*self, min),
        ensures
            final(v).wf(),
            keeps(old(v)@, final(v)@),
            r.idx < final(v)@.len(),
            final(v)@.len() <= old(v)@.len() + 1,
            old(v).prisms(*self).len() == 0 ==> r.idx == 0,
            old(v).prisms(*self).len() > 0 && hull(old(v).prisms(*self)).pos == min ==> r == *self,
            old(v).prisms(*self).len() > 0 ==> hull(final(v).prisms(r)).pos == min && final(v).prisms(r) == shift_all(
                old(v).prisms(*self),
                min.0 - hull(old(v).prisms(*self)).pos.0,
                min.1 - hull(old(v).prisms(*self)).pos.1,
                min.2 - hull(old(v).prisms(*self)).pos.2,
            ),
    {
        let pos = match self.pos(v) {
            Some(x) => x,
            None => {
                return self.new_empty();
            },
        };
        let offset = Vec3(min.0 - pos.0, min.1 - pos.1, min.2 - pos.2);
        proof {
            lemma_flat(v@, self.idx as int);
            lemma_shift_all(v.prisms(*self), offset.0 as int, offset.1 as int, offset.2 as int);
        }
        self.translate(v, offset)
    }

    /// Get a shape where the min pos of the given axis is at the given position
    pub fn with_axis_off(&self, v: &mut ShapeVec, axis: Axis, at: i32) -> (r: ShapeRef)
        requires
            old(v).wf(),
            self.idx < old(v)@.len(),
            old(v).can_put(*self, hull(old(v).prisms(*self)).pos.with(axis, at)),
        ensures
            final(v).wf(),
            keeps(old(v)@, final(v)@),
            r.idx < final(v)@.len(),
            final(v)@.len() <= old(v)@.len() + 1,
            old(v).prisms(*self).len() == 0 ==> r.idx == 0,
            old(v).prisms(*self).len() > 0 ==> hull(final(v).prisms(r)).pos == hull(
                old(v).prisms(*self),
            ).pos.with(axis, at) && final(v).prisms(r) == shift_along(
                old(v).prisms(*self),
                axis,
                at - hull(old(v).prisms(*self)).pos.at(axis),
            ),
    {
        let mut pos = match self.pos(v) {
            Some(x) => x,
            None => {
                return self.new_empty();
            },
        };
        match axis {
            Axis::X => {
                pos.0 = at;
            },
            Axis::Y => {
                pos.1 = at;
            },
            Axis::Z => {
                pos.2 = at;
            },
        }
        self.with_min(v, pos)
    }

    /// Get a shape translated by the given offset on each axis
    pub fn translate(&self, v: &mut ShapeVec, offset: Vec3<i32>) -> (r: ShapeRef)
        requires
            old(v).wf(),
            self.idx < old(v)@.len(),
            old(v).can_shift(*self, offset),
        ensures
            final(v).wf(),
            keeps(old(v)@, final(v)@),
            r.idx < final(v)@.len(),
            final(v)@.len() <= old(v)@.len() + 1,
            final(v).prisms(r) == shift_all(
                old(v).prisms(*self),
                offset.0 as int,
                offset.1 as int,
                offset.2 as int,
            ),
            offset == Vec3(0i32, 0i32, 0i32) ==> r == *self && final(v)@ == old(v)@,
            old(v)@[self.idx as int] is Empty ==> r == *self && final(v)@ == old(v)@,
            offset != Vec3(0i32, 0i32, 0i32) && old(v).prisms(*self).len() > 0 ==> if undone(
                old(v)@[self.idx as int],
                offset,
            ) {
                r == old(v)@[self.idx as int]->Translated_0 && final(v)@ == old(v)@
            } else {
                r.idx == old(v)@.len() && final(v)@.len() == old(v)@.len() + 1
            },
            forall|x: int, y: int, z: int|
                final(v).has(r, x, y, z) <==> old(v).has(
                    *self,
                    x - offset.0,
                    y - offset.1,
                    z - offset.2,
                ),
    {
        let ghost dx = offset.0 as int;
        let ghost dy = offset.1 as int;
        let ghost dz = offset.2 as int;
        proof {
            lemma_flat(v@, self.idx as int);
            lemma_shift_all(v.prisms(*self), dx, dy, dz);
            assert(shift_all(v.prisms(*self), 0, 0, 0) =~= v.prisms(*self));
            lemma_keeps_self(v@);
        }
        if offset.is_zero() {
            return *self;
        }
        let shape = match v.shape(self.idx) {
            Shape::Empty => {
                assert(shift_all(v.prisms(*self), dx, dy, dz) =~= v.prisms(*self));
                return *self;
            },
            Shape::Arbitrary(_) => Shape::Translated(*self, offset),
            Shape::Translated(inner, old_offset) => {
                let ghost base = flat(v@, inner.idx as int);
                let ghost ox = old_offset.0 as int;
                let ghost oy = old_offset.1 as int;
                let ghost oz = old_offset.2 as int;
                proof {
                    lemma_flat(v@, inner.idx as int);
                    lemma_shift_all(base, ox, oy, oz);
                    lemma_hull(base);
                    if base.len() > 0 {
                        law_translation_composes(base, ox, oy, oz, dx, dy, dz);
                    } else {
                        assert(shift_all(shift_all(base, ox, oy, oz), dx, dy, dz) =~= shift_all(
                            base,
                            ox + dx,
                            oy + dy,
                            oz + dz,
                        ));
                    }
                }
                match old_offset.checked_add(offset) {
                    Some(total) => {
                        if total.is_zero() {
                            assert(shift_all(base, 0, 0, 0) =~= base);
                            return *inner;
                        }
                        Shape::Translated(*inner, total)
                    },
                    None => Shape::Translated(*self, offset),
                }
            },
        };
        self.add(v, shape)
    }

    /// Translate the shape by the given offset on the given axis
    pub fn translate_axis(&self, v: &mut ShapeVec, axis: Axis, offset: i32) -> (r: ShapeRef)
        requires
            old(v).wf(),
            self.idx < old(v)@.len(),
            old(v).can_shift(*self, Vec3(0i32, 0i32, 0i32).with(axis, offset)),
        ensures
            final(v).wf(),
            keeps(old(v)@, final(v)@),
            r.idx < final(v)@.len(),
            final(v)@.len() <= old(v)@.len() + 1,
            final(v).prisms(r) == shift_along(old(v).prisms(*self), axis, offset as int),
    {
        match axis {
            Axis::X => self.translate(v, Vec3(offset, 0, 0)),
            Axis::Y => self.translate(v, Vec3(0, offset, 0)),
            Axis::Z => self.translate(v, Vec3(0, 0, offset)),
        }
    }

    /// The shape of the unit cubes of either shape: `other` where `self` holds
    /// no prism, `self` where `other` holds none, else a new shape that lists the
    /// prisms of both
    pub fn union(&self, v: &mut ShapeVec, other: &ShapeRef) -> (r: ShapeRef)
        requires
            old(v).wf(),
            self.idx < old(v)@.len(),
            other.idx < old(v)@.len(),
        ensures
            final(v).wf(),
            keeps(old(v)@, final(v)@),
            r.idx < final(v)@.len(),
            final(v)@.len() <= old(v)@.len() + 1,
            old(v).prisms(*self).len() == 0 ==> r == *other,
            old(v).prisms(*self).len() > 0 && old(v).prisms(*other).len() == 0 ==> r == *self,
            old(v).prisms(*self).len() > 0 && old(v).prisms(*other).len() > 0 ==> r.idx == old(v)@.len(),
            final(v).prisms(r) == if old(v).prisms(*self).len() == 0 {
                old(v).prisms(*other)
            } else if old(v).prisms(*other).len() == 0 {
                old(v).prisms(*self)
            } else {
                old(v).prisms(*self) + old(v).prisms(*other)
            },
            forall|x: int, y: int, z: int|
                final(v).has(r, x, y, z) <==> old(v).has(*self, x, y, z) || old(v).has(
                    *other,
                    x,
                    y,
                    z,
                ),
    {
        let ghost a = v.prisms(*self);
        let ghost b = v.prisms(*other);
        proof {
            lemma_keeps_self(v@);
            lemma_flat(v@, self.idx as int);
            lemma_flat(v@, other.idx as int);
            lemma_any_has_concat(a, b);
            lemma_all_positive_concat(a, b);
        }
        if self.is_empty(v) {
            return *other;
        }
        if other.is_empty(v) {
            return *self;
        }
        // actually perform the union operation
        self.resolve_translation(v);
        other.resolve_translation(v);
        let mut arb = match self.resolved(v) {
            Some(x) => x.clone(),
            None => {
                return *other;
            },
        };
        match other.resolved(v) {
            Some(y) => {
                arb.union(y);
            },
            None => {},
        }
        self.add(v, Shape::Arbitrary(arb))
    }

    /// The shape of the unit cubes of both shapes: the one that holds no prism
    /// where there is one, else the shape of the pairwise intersections of
    /// positive volume, the empty shape where there are none
    pub fn intersection(&self, v: &mut ShapeVec, other: &ShapeRef) -> (r: ShapeRef)
        requires
            old(v).wf(),
            self.idx < old(v)@.len(),
            other.idx < old(v)@.len(),
        ensures
            final(v).wf(),
            keeps(old(v)@, final(v)@),
            r.idx < final(v)@.len(),
            final(v)@.len() <= old(v)@.len() + 1,
            old(v).prisms(*self).len() == 0 ==> r == *self,
            old(v).prisms(*self).len() > 0 && old(v).prisms(*other).len() == 0 ==> r == *other,
            old(v).prisms(*self).len() > 0 && old(v).prisms(*other).len() > 0 ==> r.idx == if final(v).prisms(r).len() == 0 {
                0
            } else {
                old(v)@.len()
            },
            final(v).prisms(r) == if old(v).prisms(*self).len() == 0 || old(v).prisms(
                *other,
            ).len() == 0 {
                Seq::<Geom3>::empty()
            } else {
                meet_all(old(v).prisms(*self), old(v).prisms(*other))
            },
            forall|x: int, y: int, z: int|
                final(v).has(r, x, y, z) <==> old(v).has(*self, x, y, z) && old(v).has(
                    *other,
                    x,
                    y,
                    z,
                ),
    {
        let ghost a = v.prisms(*self);
        let ghost b = v.prisms(*other);
        proof {
            lemma_keeps_self(v@);
            lemma_flat(v@, self.idx as int);
            lemma_flat(v@, other.idx as int);
            lemma_meet_all(a, b);
        }
        if self.is_empty(v) {
            return *self;
        }
        if other.is_empty(v) {
            return *other;
        }
        // actually perform the intersection operation
        self.resolve_translation(v);
        other.resolve_translation(v);
        let mut arb = match self.resolved(v) {
            Some(x) => x.clone(),
            None => {
                return *self;
            },
        };
        match other.resolved(v) {
            Some(y) => {
                arb.intersection(y);
            },
            None => {},
        }
        self.add(v, Shape::Arbitrary(arb))
    }

    /// The shape of the unit cubes of `self` that `other` does not hold: `self`
    /// where one of them holds no prism, else what is left of each prism of
    /// `self` after every prism of `other` was taken from it, the empty shape
    /// where nothing is left
    pub fn difference(&self, v: &mut ShapeVec, other: &ShapeRef) -> (r: ShapeRef)
        requires
            old(v).wf(),
            self.idx < old(v)@.len(),
            other.idx < old(v)@.len(),
        ensures
            final(v).wf(),
            keeps(old(v)@, final(v)@),
            r.idx < final(v)@.len(),
            final(v)@.len() <= old(v)@.len() + 1,
            old(v).prisms(*self).len() == 0 || old(v).prisms(*other).len() == 0 ==> r == *self,
            old(v).prisms(*self).len() > 0 && old(v).prisms(*other).len() > 0 ==> r.idx == if final(v).prisms(r).len() == 0 {
                0
            } else {
                old(v)@.len()
            },
            final(v).prisms(r) == if old(v).prisms(*self).len() == 0 || old(v).prisms(
                *other,
            ).len() == 0 {
                old(v).prisms(*self)
            } else {
                minus_all(old(v).prisms(*self), old(v).prisms(*other))
            },
            forall|x: int, y: int, z: int|
                final(v).has(r, x, y, z) <==> old(v).has(*self, x, y, z) && !old(v).has(
                    *other,
                    x,
                    y,
                    z,
                ),
    {
        let ghost a = v.prisms(*self);
        let ghost b = v.prisms(*other);
        proof {
            lemma_keeps_self(v@);
            lemma_flat(v@, self.idx as int);
            lemma_flat(v@, other.idx as int);
            lemma_minus_all(a, b);
        }
        if self.is_empty(v) {
            return *self;
        }
        if other.is_empty(v) {
            return *self;
        }
        // actually perform the difference operation
        self.resolve_translation(v);
        other.resolve_translation(v);
        let mut arb = match self.resolved(v) {
            Some(x) => x.clone(),
            None => {
                return *self;
            },
        };
        match other.resolved(v) {
            Some(y) => {
                arb.difference(y);
            },
            None => {},
        }
        self.add(v, Shape::Arbitrary(arb))
    }

    /// Resolve the translation of the shape: afterwards its slot lists its
    /// prisms, and every handle stands for the prisms that it stood for
    pub fn resolve_translation(&self, v: &mut ShapeVec)
        requires
            old(v).wf(),
            self.idx < old(v)@.len(),
        ensures
            final(v).wf(),
            final(v)@.len() == old(v)@.len(),
            keeps(old(v)@, final(v)@),
            final(v)@[self.idx as int].rank() == 0,
            forall|k: int|
                0 <= k < old(v)@.len() && (#[trigger] old(v)@[k]).rank() == 0 ==> final(v)@[k]
                    == old(v)@[k],
    {
        Self::resolve_translation_recur(v, self.idx);
    }

    fn resolve_translation_recur(v: &mut ShapeVec, idx: usize)
        requires
            old(v).wf(),
            idx < old(v)@.len(),
        ensures
            final(v).wf(),
            final(v)@.len() == old(v)@.len(),
            keeps(old(v)@, final(v)@),
            final(v)@[idx as int].rank() == 0,
            forall|k: int|
                0 <= k < old(v)@.len() && (#[trigger] old(v)@[k]).rank() == 0 ==> final(v)@[k]
                    == old(v)@[k],
            forall|k: int| idx < k < old(v)@.len() ==> #[trigger] final(v)@[k] == old(v)@[k],
        decreases idx,
    {
        let ghost start = v@;
        proof {
            lemma_keeps_self(start);
            lemma_flat(start, idx as int);
        }
        let (inner_idx, offset) = match v.shape(idx) {
            Shape::Translated(inner, offset) => (inner.idx, *offset),
            _ => {
                return ;
            },
        };
        Self::resolve_translation_recur(v, inner_idx);
        let ghost mid = v@;
        proof {
            assert(mid[idx as int] == start[idx as int]);
            lemma_flat(mid, idx as int);
            lemma_flat(mid, inner_idx as int);
            lemma_shift_all(
                flat(mid, inner_idx as int),
                offset.0 as int,
                offset.1 as int,
                offset.2 as int,
            );
        }
        let arb = match v.shape(inner_idx) {
            Shape::Arbitrary(arb) => Some(arb.translated(offset)),
            _ => None,
        };
        let shape = match arb {
            None => Shape::Empty,
            Some(arb) => Shape::Arbitrary(arb),
        };
        proof {
            assert(shape.prisms_in(mid) =~= flat(mid, idx as int));
            lemma_update(mid, idx as int, shape);
            let after = mid.update(idx as int, shape);
            assert forall|k: int| 0 <= k < start.len() implies #[trigger] flat(after, k) == flat(
                start,
                k,
            ) by {
                assert(flat(mid, k) == flat(start, k));
                assert(flat(after, k) == flat(mid, k));
            }
        }
        v.shapes.set(idx, shape);
    }

    /// The shape that `self` stands for, moved by `offset`, not yet in the arena
    pub fn do_translate(&self, offset: Vec3<i32>) -> (r: Shape)
        ensures
            r == Shape::Translated(*self, offset),
    {
        Shape::Translated(*self, offset)
    }

    /// Puts the shape into the arena and gives its handle; 0, the handle of
    /// the empty shape, where the shape has no prism
    pub fn add(&self, v: &mut ShapeVec, shape: Shape) -> (r: ShapeRef)
        requires
            old(v).wf(),
            shape.wf_in(old(v)@),
        ensures
            final(v).wf(),
            keeps(old(v)@, final(v)@),
            r.idx < final(v)@.len(),
            final(v)@.len() <= old(v)@.len() + 1,
            final(v).prisms(r) == shape.prisms_in(old(v)@),
            shape.prisms_in(old(v)@).len() == 0 ==> r.idx == 0 && final(v)@ == old(v)@,
            shape.prisms_in(old(v)@).len() > 0 ==> r.idx == old(v)@.len() && final(v)@ == old(v)@.push(shape),
    {
        proof {
            lemma_keeps_self(v@);
        }
        if shape.is_empty(v) {
            // use position 0 as empty
            assert(flat(v@, 0) =~= shape.prisms_in(v@));
            return self.new_empty();
        }
        let idx = v.shapes.len();
        proof {
            lemma_push(v@, shape);
        }
        v.shapes.push(shape);
        ShapeRef { idx }
    }
}

/// An arena keeps its own prisms.
pub proof fn lemma_keeps_self(shapes: Seq<Shape>)
    ensures
        keeps(shapes, shapes),
{
}

/// Replacing the shape of a slot by the list of the prisms that the slot
/// stands for keeps every slot and the validity of the arena.
pub proof fn lemma_update(shapes: Seq<Shape>, idx: int, shape: Shape)
    requires
        arena_wf(shapes),
        0 < idx < shapes.len(),
        shape.rank() == 0,
        shape.wf_in(shapes),
        shape.prisms_in(shapes) == flat(shapes, idx),
    ensures
        arena_wf(shapes.update(idx, shape)),
        keeps(shapes, shapes.update(idx, shape)),
{
    let after = shapes.update(idx, shape);
    assert forall|k: int| 0 <= k < shapes.len() implies #[trigger] after[k] == shapes[k] || (
    shapes[k].rank() <= k && after[k].rank() == 0 && after[k].prisms_in(after) == flat(shapes, k)) by {
        if k == idx {
            assert(slot_wf(shapes, k));
            match shape {
                Shape::Empty => {},
                Shape::Arbitrary(a) => {},
                Shape::Translated(r, off) => {},
            }
        }
    }
    assert forall|i: int| 0 <= i < shapes.len() implies #[trigger] flat(after, i) == flat(
        shapes,
        i,
    ) by {
        lemma_keeps(shapes, after, i);
    }
    assert forall|i: int| 0 <= i < after.len() implies #[trigger] slot_wf(after, i) by {
        assert(slot_wf(shapes, i));
        if i != idx {
            assert(after[i] == shapes[i]);
            match shapes[i] {
                Shape::Translated(r, off) => {
                    assert(flat(after, r.idx as int) == flat(shapes, r.idx as int));
                },
                _ => {},
            }
        }
    }
}

/// In a valid arena the prisms of every slot are valid and have positive
/// volume, and the prisms of a slot are those of the shape that it holds.
pub proof fn lemma_flat(shapes: Seq<Shape>, i: int)
    requires
        arena_wf(shapes),
        0 <= i < shapes.len(),
    ensures
        all_wf(flat(shapes, i)),
        all_positive_volume(flat(shapes, i)),
        flat(shapes, i) == shapes[i].prisms_in(shapes),
        shapes[i].wf_in(shapes),
        shapes[i].rank() <= i,
    decreases i,
{
    assert(slot_wf(shapes, i));
    match shapes[i] {
        Shape::Empty => {},
        Shape::Arbitrary(a) => {},
        Shape::Translated(r, off) => {
            lemma_flat(shapes, r.idx as int);
            let inner = flat(shapes, r.idx as int);
            lemma_shift_all(inner, off.0 as int, off.1 as int, off.2 as int);
            let moved = shift_all(inner, off.0 as int, off.1 as int, off.2 as int);
            assert forall|k: int| 0 <= k < moved.len() implies (#[trigger] moved[k]).positive() by {
                assert(inner[k].positive());
            }
        },
    }
}

/// Where `after` differs from `before` only in slots whose new shape lists the
/// prisms that the slot had, every slot of `before` keeps its prisms.
pub proof fn lemma_keeps(before: Seq<Shape>, after: Seq<Shape>, i: int)
    requires
        before.len() <= after.len(),
        0 <= i < before.len(),
        forall|k: int|
            0 <= k < before.len() ==> #[trigger] after[k] == before[k] || (before[k].rank() <= k
                && after[k].rank() == 0 && after[k].prisms_in(after) == flat(before, k)),
    ensures
        flat(after, i) == flat(before, i),
    decreases i,
{
    if after[i] == before[i] {
        match before[i] {
            Shape::Translated(r, off) => {
                if r.idx < i {
                    lemma_keeps(before, after, r.idx as int);
                }
            },
            _ => {},
        }
    } else {
        assert(after[i].rank() == 0);
    }
}

/// Adding a valid shape at the end keeps every slot and the validity of the
/// arena, and the new slot lists the prisms of the shape.
pub proof fn lemma_push(shapes: Seq<Shape>, shape: Shape)
    requires
        arena_wf(shapes),
        shape.wf_in(shapes),
    ensures
        arena_wf(shapes.push(shape)),
        keeps(shapes, shapes.push(shape)),
        flat(shapes.push(shape), shapes.len() as int) == shape.prisms_in(shapes),
{
    let after = shapes.push(shape);
    assert forall|i: int| 0 <= i < shapes.len() implies #[trigger] flat(after, i) == flat(
        shapes,
        i,
    ) by {
        lemma_keeps(shapes, after, i);
    }
    assert forall|i: int| 0 <= i < after.len() implies #[trigger] slot_wf(after, i) by {
        if i < shapes.len() {
            assert(slot_wf(shapes, i));
            assert(after[i] == shapes[i]);
            match shapes[i] {
                Shape::Translated(r, off) => {
                    assert(flat(after, r.idx as int) == flat(shapes, r.idx as int));
                },
                _ => {},
            }
        } else {
            match shape {
                Shape::Translated(r, off) => {
                    assert(flat(after, r.idx as int) == flat(shapes, r.idx as int));
                },
                _ => {},
            }
        }
    }
    match shape {
        Shape::Translated(r, off) => {
            assert(flat(after, r.idx as int) == flat(shapes, r.idx as int));
        },
        _ => {},
    }
}

} // verus!
