use vstd::prelude::*;

use crate::color::Paint;
use crate::face::{prism_faces, Face, Side};
use crate::geom::{all_wf, Geom3};
use crate::math::Vec3;
use crate::shape::{lemma_all_wf_concat, minus_seq, Arbitrary};

verus! {

/// Render result of a Prism Tree, representing a positive 3D prism
/// in the space
#[derive(Debug, Clone, Copy, PartialEq, Eq)]
pub struct Prism {
    /// Color of the prism
    pub color: Paint,
    pub shape: Geom3,
}

/// Geometry in XY plane (position and size)
#[derive(Debug, Clone, Copy, PartialEq, Eq, Hash)]
pub struct Geom2 {
    pub x: i32,
    pub y: i32,
    pub x_size: u32,
    pub y_size: u32,
}

/// The prisms `s`, each in the colour `color`
pub open spec fn painted(s: Seq<Geom3>, color: Paint) -> Seq<Prism> {
    Seq::new(s.len(), |i: int| Prism { color, shape: s[i] })
}

/// The shapes of the prisms `s`
pub open spec fn shapes_of(s: Seq<Prism>) -> Seq<Geom3> {
    Seq::new(s.len(), |i: int| s[i].shape)
}

/// For each prism of `v` in turn, what is left of it after every prism of
/// `ops` was taken from it, in its colour
pub open spec fn cut_all(v: Seq<Prism>, ops: Seq<Geom3>) -> Seq<Prism>
    decreases v.len(),
{
    if v.len() == 0 {
        Seq::empty()
    } else {
        cut_all(v.drop_last(), ops) + painted(minus_seq(seq![v.last().shape], ops), v.last().color)
    }
}

/// The faces of a prism by itself: none without volume, else its top,
/// front and side faces
pub open spec fn flat_faces(p: Prism) -> Seq<Face> {
    if p.shape.positive() {
        prism_faces(Seq::empty(), p.shape, p.color, false)
    } else {
        Seq::empty()
    }
}

impl Prism {
    /// The prism at `pos` with `size` in the colour `color`
    pub fn new(color: Paint, pos: Vec3<i32>, size: Vec3<u32>) -> (r: Prism)
        ensures
            r.color == color,
            r.shape == Geom3::new(pos, size),
    {
        Prism { color, shape: Geom3::new(pos, size) }
    }

    /// Subtract the geometries in the operands from the geometry in the vector
    pub fn vec_subtract(v: &mut Vec<Prism>, operands: &Vec<Prism>)
        requires
            all_wf(shapes_of(old(v)@)),
            all_wf(shapes_of(operands@)),
        ensures
            final(v)@ == cut_all(old(v)@, shapes_of(operands@)),
            all_wf(shapes_of(final(v)@)),
    {
        let ghost before = v@;
        let ghost ops = shapes_of(operands@);
        let mut out: Vec<Prism> = Vec::new();
        let n = v.len();
        let m = operands.len();
        let mut i: usize = 0;
        while i < n
            invariant
                n == before.len(),
                m == operands@.len(),
                v@ == before,
                ops == shapes_of(operands@),
                i <= n,
                all_wf(shapes_of(before)),
                all_wf(ops),
                all_wf(shapes_of(out@)),
                out@ == cut_all(before.take(i as int), ops),
            decreases n - i,
        {
            let orig = v[i];
            let mut pieces: Vec<Prism> = Vec::new();
            pieces.push(orig);
            assert(shapes_of(pieces@) =~= seq![orig.shape]);
            assert(orig.shape == shapes_of(before)[i as int]);
            let mut j: usize = 0;
            while j < m
                invariant
                    m == operands@.len(),
                    ops == shapes_of(operands@),
                    j <= m,
                    all_wf(ops),
                    all_wf(shapes_of(pieces@)),
                    pieces@ == painted(minus_seq(seq![orig.shape], ops.take(j as int)), orig.color),
                decreases m - j,
            {
                let op = operands[j];
                assert(op.shape == ops[j as int]);
                let ghost cur = pieces@;
                let ghost cur_shapes = minus_seq(seq![orig.shape], ops.take(j as int));
                let mut next: Vec<Prism> = Vec::new();
                let count = pieces.len();
                let mut k: usize = 0;
                assert(cur_shapes.take(0) =~= Seq::<Geom3>::empty());
                while k < count
                    invariant
                        count == pieces@.len(),
                        cur == pieces@,
                        cur == painted(cur_shapes, orig.color),
                        k <= count,
                        op.shape.wf(),
                        all_wf(shapes_of(cur)),
                        all_wf(shapes_of(next@)),
                        next@ == painted(
                            crate::shape::minus_each(cur_shapes.take(k as int), op.shape),
                            orig.color,
                        ),
                    decreases count - k,
                {
                    let piece = pieces[k];
                    assert(piece.shape == shapes_of(cur)[k as int]);
                    assert(piece.color == orig.color);
                    let ghost s = next@;
                    piece.subtract_into(&op, &mut next);
                    k += 1;
                    proof {
                        crate::geom::lemma_minus(piece.shape, op.shape);
                        assert(cur_shapes.take(k as int).drop_last() =~= cur_shapes.take(k as int - 1));
                        assert(cur_shapes.take(k as int).last() == piece.shape);
                        let a = crate::shape::minus_each(cur_shapes.take(k as int - 1), op.shape);
                        let b = piece.shape.minus(op.shape);
                        assert(next@ =~= painted(a + b, orig.color));
                        assert(shapes_of(next@) =~= shapes_of(s) + b);
                        lemma_all_wf_concat(shapes_of(s), b);
                    }
                }
                assert(cur_shapes.take(count as int) =~= cur_shapes);
                pieces = next;
                j += 1;
                proof {
                    assert(ops.take(j as int).drop_last() =~= ops.take(j as int - 1));
                    assert(ops.take(j as int).last() == op.shape);
                }
            }
            assert(ops.take(m as int) =~= ops);
            let ghost done = out@;
            let count = pieces.len();
            let mut k: usize = 0;
            while k < count
                invariant
                    count == pieces@.len(),
                    k <= count,
                    out@ == done + pieces@.take(k as int),
                decreases count - k,
            {
                out.push(pieces[k]);
                k += 1;
                assert(out@ =~= done + pieces@.take(k as int));
            }
            assert(pieces@.take(count as int) =~= pieces@);
            i += 1;
            proof {
                assert(before.take(i as int).drop_last() =~= before.take(i as int - 1));
                assert(before.take(i as int).last() == orig);
                assert(shapes_of(out@) =~= shapes_of(done) + shapes_of(pieces@));
                lemma_all_wf_concat(shapes_of(done), shapes_of(pieces@));
            }
        }
        assert(before.take(n as int) =~= before);
        *v = out;
    }

    /// Subtract another prism from this prism
    ///
    /// Output is a list of prisms that are the result of the subtraction.
    /// Only positive volume prisms are emitted. The results
    /// are pushed to the out vec.
    pub fn subtract_into(&self, operand: &Prism, out: &mut Vec<Prism>)
        requires
            self.shape.wf(),
            operand.shape.wf(),
        ensures
            final(out)@ == old(out)@ + painted(self.shape.minus(operand.shape), self.color),
    {
        let mut parts: Vec<Geom3> = Vec::new();
        self.shape.difference(&operand.shape, &mut parts);
        assert(parts@ =~= self.shape.minus(operand.shape));
        let n = parts.len();
        let mut i: usize = 0;
        while i < n
            invariant
                n == parts@.len(),
                i <= n,
                out@ == old(out)@ + painted(parts@.take(i as int), self.color),
            decreases n - i,
        {
            out.push(Prism { color: self.color, shape: parts[i] });
            i += 1;
            assert(out@ =~= old(out)@ + painted(parts@.take(i as int), self.color));
        }
        assert(parts@.take(n as int) =~= parts@);
    }

    /// Render the prism into a list of faces
    pub fn render_faces(&self, out: &mut Vec<Face>)
        requires
            self.shape.wf(),
        ensures
            final(out)@ == old(out)@ + flat_faces(*self),
    {
        if !self.shape.has_positive_volume() {
            assert(out@ =~= old(out)@ + flat_faces(*self));
            return ;
        }
        let none = Arbitrary::new_empty();
        none.render_block(&self.shape, self.color, false, Side::Top, out);
        none.render_block(&self.shape, self.color, false, Side::Front, out);
        none.render_block(&self.shape, self.color, false, Side::Side, out);
        assert(out@ =~= old(out)@ + flat_faces(*self));
    }
}

} // verus!
