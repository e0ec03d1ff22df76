use vstd::prelude::*;

use crate::arena::{keeps, lemma_flat, ShapeRef, ShapeVec};
use crate::color::{Alpha, Paint};
use crate::geom::{any_has, Geom3};
use crate::math::Vec3;
use crate::shape::{lemma_hull, Arbitrary};

verus! {

/// Direction of a face on its unit cube
#[derive(Debug, Clone, Copy, PartialEq, Eq, Hash, Structural)]
pub enum Side {
    /// The positive X direction
    Front,
    /// The positive Y direction
    #[allow(clippy::enum_variant_names)]
    Side,
    /// The positive Z direction
    Top,
}

/// A unit face with a position, color and a direction
///
/// Each face can be put onto a 2D grid, when faces of different
/// positions are rendered into the same location on the grid,
/// the face with higher `layer()` should be rendered on top
/// (i.e. lower layer should be covered completely).
#[derive(Debug, Clone, Copy, PartialEq, Eq)]
pub struct Face {
    /// Color of the face
    pub color: Paint,
    /// Position of the unit cube that has this face
    pub pos: Vec3<i32>,
    /// Direction of the face on the unit cube
    pub dir: Side,
    /// If the face is belongs to the back side (-X, -Y, -Z)
    /// of a cube
    ///
    /// Back faces are on top of front faces
    pub is_back: bool,
}

impl Side {
    /// The step along x from a unit cube to the one that the face looks at
    pub open spec fn dx(self) -> int {
        if self == Side::Front {
            1
        } else {
            0
        }
    }

    /// The step along y from a unit cube to the one that the face looks at
    pub open spec fn dy(self) -> int {
        if self == Side::Side {
            1
        } else {
            0
        }
    }

    /// The step along z from a unit cube to the one that the face looks at
    pub open spec fn dz(self) -> int {
        if self == Side::Top {
            1
        } else {
            0
        }
    }
}

impl Face {
    /// The sort key of the face: `2 * (x + y + 2 * z)`, and one more for a
    /// back face
    pub open spec fn key(self) -> int {
        2 * (self.pos.0 + self.pos.1 + 2 * self.pos.2) + if self.is_back {
            1int
        } else {
            0int
        }
    }

    /// The first grid coordinate of the unit cube: `-x + y`
    pub open spec fn u(self) -> int {
        -self.pos.0 + self.pos.1
    }

    /// The second grid coordinate of the unit cube: `x + y - 2 * z`
    pub open spec fn v(self) -> int {
        self.pos.0 + self.pos.1 - 2 * self.pos.2
    }

    /// Whether the cells that a face of this unit cube can cover lie within
    /// the grid's coordinates, off its rim
    pub open spec fn on_grid(self) -> bool {
        &&& i32::MIN < self.u() && self.u() + 1 < i32::MAX
        &&& i32::MIN < self.v() && self.v() + 2 < i32::MAX
    }

    /// The two cells that the face covers on the grid, as `(u1, v1, u2, v2)`
    pub open spec fn cells(self) -> (int, int, int, int) {
        match self.dir {
            Side::Top => (self.u(), self.v(), self.u() + 1, self.v()),
            Side::Front => (self.u(), self.v() + 1, self.u(), self.v() + 2),
            Side::Side => (self.u() + 1, self.v() + 1, self.u() + 1, self.v() + 2),
        }
    }

    /// Create a front face
    pub fn front(color: Paint, pos: Vec3<i32>) -> (r: Face)
        ensures
            r == (Face { color, pos, dir: Side::Front, is_back: false }),
    {
        Face { color, pos, dir: Side::Front, is_back: false }
    }

    /// Create a top face
    pub fn top(color: Paint, pos: Vec3<i32>) -> (r: Face)
        ensures
            r == (Face { color, pos, dir: Side::Top, is_back: false }),
    {
        Face { color, pos, dir: Side::Top, is_back: false }
    }

    /// Create a side face
    pub fn side(color: Paint, pos: Vec3<i32>) -> (r: Face)
        ensures
            r == (Face { color, pos, dir: Side::Side, is_back: false }),
    {
        Face { color, pos, dir: Side::Side, is_back: false }
    }

    /// Turn this face into a back face
    pub fn back(self) -> (r: Face)
        ensures
            r == (Face { is_back: true, ..self }),
    {
        Face { color: self.color, pos: self.pos, dir: self.dir, is_back: true }
    }

    /// Get the rendering layer of the face
    ///
    /// Higher layer are rendered on top of lower layers
    /// in the 2D grid.
    pub fn layer(&self) -> (r: i64)
        ensures
            r == self.key(),
    {
        // To make sense of the *2, consider moving
        // a face in +X direction by 1, then move it
        // in +Y direction by 1. This is equivalent to
        // moving it in +Z direction by 1. So
        // every movement in +Z direction is effectively moving
        // through 2 layers
        let base: i64 = self.pos.0 as i64 + self.pos.1 as i64 + self.pos.2 as i64 * 2;
        // back faces are higher than front faces at the same unit cube
        base * 2 + if self.is_back {
            1
        } else {
            0
        }
    }

    /// Whether `get_uvs` accepts the face: its cells lie within the grid's
    /// coordinates
    pub fn fits_grid(&self) -> (r: bool)
        ensures
            r == self.on_grid(),
    {
        let u: i64 = -(self.pos.0 as i64) + self.pos.1 as i64;
        let v: i64 = self.pos.0 as i64 + self.pos.1 as i64 - 2 * (self.pos.2 as i64);
        (i32::MIN as i64) < u && u + 1 < i32::MAX as i64 && (i32::MIN as i64) < v && v + 2
            < i32::MAX as i64
    }

    /// Get the UV coordinates of the face in the grid
    ///
    /// Each face occupies 2 slots in the grid. The returned
    /// values are (u1, v1, u2, v2)
    pub fn get_uvs(&self) -> (r: (i32, i32, i32, i32))
        requires
            self.on_grid(),
        ensures
            (r.0 as int, r.1 as int, r.2 as int, r.3 as int) == self.cells(),
    {
        let u: i32 = (-(self.pos.0 as i64) + self.pos.1 as i64) as i32;
        let v: i32 = (self.pos.0 as i64 + self.pos.1 as i64 - 2 * (self.pos.2 as i64)) as i32;
        match self.dir {
            Side::Top => (u, v, u + 1, v),
            Side::Front => (u, v + 1, u, v + 2),
            Side::Side => (u + 1, v + 1, u + 1, v + 2),
        }
    }
}

/// The faces of `s` whose sort key is `key`, in their order
pub open spec fn with_key(s: Seq<Face>, key: int) -> Seq<Face> {
    s.filter(|f: Face| f.key() == key)
}

/// Whether the sort keys of `s` never rise
pub open spec fn keys_descend(s: Seq<Face>) -> bool {
    forall|i: int, j: int| 0 <= i < j < s.len() ==> s[i].key() >= s[j].key()
}

/// Sort the face by rendering order. Faces that should be
/// rendered on top should be at the front of the list.
///
/// Calls `sort_by_key` of std's slices, a stable sort, with the layer in
/// reverse as the key. Trusted: afterwards the layers never rise, and the
/// faces of each layer are those that had it before, in the order that they
/// had.
#[verifier::external_body]
pub fn sort_faces(faces: &mut Vec<Face>)
    ensures
        keys_descend(final(faces)@),
        final(faces)@.len() == old(faces)@.len(),
        forall|key: int| with_key(final(faces)@, key) == with_key(old(faces)@, key),
{
    faces.sort_by_key(|face| std::cmp::Reverse(face.layer()));
}

/// The concatenation of `g(0)`, `g(1)` up to `g(n - 1)`
pub open spec fn cat(n: int, g: spec_fn(int) -> Seq<Face>) -> Seq<Face>
    decreases n,
{
    if n <= 0 {
        Seq::empty()
    } else {
        cat(n - 1, g) + g(n - 1)
    }
}

/// `s` with `f` at its end where `cond` holds
pub open spec fn push_if(s: Seq<Face>, cond: bool, f: Face) -> Seq<Face> {
    if cond {
        s.push(f)
    } else {
        s
    }
}

/// Whether a face of the unit cube at `(x, y, z)` towards `dir` is drawn for
/// a shape with the prisms `s`. A front face is drawn where the shape holds
/// the cube and not the one that the face looks at. A back face is recorded
/// at the cube outside the shape, and drawn where the shape does not hold
/// that cube and holds the one beyond it.
pub open spec fn visible(s: Seq<Geom3>, x: int, y: int, z: int, dir: Side, is_back: bool) -> bool {
    if is_back {
        !any_has(s, x, y, z) && any_has(s, x + dir.dx(), y + dir.dy(), z + dir.dz())
    } else {
        any_has(s, x, y, z) && !any_has(s, x + dir.dx(), y + dir.dy(), z + dir.dz())
    }
}

/// The face with the given colour, place and kind
pub open spec fn face_at(color: Paint, x: int, y: int, z: int, dir: Side, is_back: bool) -> Face {
    Face { color, pos: Vec3(x as i32, y as i32, z as i32), dir, is_back }
}

/// The number of columns of `p` towards `dir`, along the first of the two
/// other axes
pub open spec fn rows(p: Geom3, dir: Side) -> int {
    match dir {
        Side::Top => p.size.0 as int,
        Side::Front => p.size.1 as int,
        Side::Side => p.size.0 as int,
    }
}

/// The number of columns of `p` towards `dir`, along the second of the two
/// other axes
pub open spec fn cols(p: Geom3, dir: Side) -> int {
    match dir {
        Side::Top => p.size.1 as int,
        Side::Front => p.size.2 as int,
        Side::Side => p.size.2 as int,
    }
}

/// The size of `p` along `dir`
pub open spec fn depth(p: Geom3, dir: Side) -> int {
    match dir {
        Side::Top => p.size.2 as int,
        Side::Front => p.size.0 as int,
        Side::Side => p.size.1 as int,
    }
}

/// The unit cube at the inner end of column `(i, j)` of `p` towards `dir`
pub open spec fn cell(p: Geom3, dir: Side, i: int, j: int) -> (int, int, int) {
    match dir {
        Side::Top => (p.pos.0 + i, p.pos.1 + j, p.pos.2 as int),
        Side::Front => (p.pos.0 as int, p.pos.1 + i, p.pos.2 + j),
        Side::Side => (p.pos.0 + i, p.pos.1 as int, p.pos.2 + j),
    }
}

/// The unit cube at the outer end of column `(i, j)` of `p` towards `dir`
pub open spec fn outer_cell(p: Geom3, dir: Side, i: int, j: int) -> (int, int, int) {
    let c = cell(p, dir, i, j);
    match dir {
        Side::Top => (c.0, c.1, c.2 + p.size.2 - 1),
        Side::Front => (c.0 + p.size.0 - 1, c.1, c.2),
        Side::Side => (c.0, c.1 + p.size.1 - 1, c.2),
    }
}

/// What column `(i, j)` of the prism `p` gives towards `dir`: the face on
/// its outer end unless the shape holds the unit cube beyond it, then, where
/// back faces are asked for, the back face before its inner end unless the
/// shape holds the unit cube there
pub open spec fn column(s: Seq<Geom3>, p: Geom3, color: Paint, back: bool, dir: Side, i: int, j: int) -> Seq<
    Face,
> {
    let c = cell(p, dir, i, j);
    let o = outer_cell(p, dir, i, j);
    let ix = c.0 - dir.dx();
    let iy = c.1 - dir.dy();
    let iz = c.2 - dir.dz();
    push_if(
        push_if(
            Seq::empty(),
            !any_has(s, o.0 + dir.dx(), o.1 + dir.dy(), o.2 + dir.dz()),
            face_at(color, o.0, o.1, o.2, dir, false),
        ),
        back && !any_has(s, ix, iy, iz),
        face_at(color, ix, iy, iz, dir, true),
    )
}

/// What the columns `(i, 0)`, `(i, 1)` and so on give
pub open spec fn row_cells(s: Seq<Geom3>, p: Geom3, color: Paint, back: bool, dir: Side, i: int) -> spec_fn(
    int,
) -> Seq<Face> {
    |j: int| column(s, p, color, back, dir, i, j)
}

/// What the rows of columns give, each as a whole
pub open spec fn block_rows(s: Seq<Geom3>, p: Geom3, color: Paint, back: bool, dir: Side) -> spec_fn(
    int,
) -> Seq<Face> {
    |i: int| cat(cols(p, dir), row_cells(s, p, color, back, dir, i))
}

/// The faces of the prism `p` towards `dir`, row by row
pub open spec fn block_faces(s: Seq<Geom3>, p: Geom3, color: Paint, back: bool, dir: Side) -> Seq<
    Face,
> {
    cat(rows(p, dir), block_rows(s, p, color, back, dir))
}

/// The faces of the prism `p` of a shape with the prisms `s`: top, then
/// front, then side
pub open spec fn prism_faces(s: Seq<Geom3>, p: Geom3, color: Paint, back: bool) -> Seq<Face> {
    block_faces(s, p, color, back, Side::Top) + block_faces(s, p, color, back, Side::Front)
        + block_faces(s, p, color, back, Side::Side)
}

/// The faces of each prism of `s` in turn; a prism without volume has none
pub open spec fn each_prism(s: Seq<Geom3>, color: Paint, back: bool) -> spec_fn(int) -> Seq<Face> {
    |k: int|
        if s[k].positive() {
            prism_faces(s, s[k], color, back)
        } else {
            Seq::empty()
        }
}

/// The faces of a shape with the prisms `s` in the given colour: nothing for
/// a clear colour, else the faces of each prism in turn, with back faces for
/// a colour that lets light through
pub open spec fn shape_faces(s: Seq<Geom3>, color: Paint) -> Seq<Face> {
    if color.alpha == Alpha::Clear {
        Seq::empty()
    } else {
        cat(s.len() as int, each_prism(s, color, color.alpha == Alpha::Partial))
    }
}

/// Whether back faces of the prisms `s` have a place: no prism starts at the
/// least coordinate
pub open spec fn has_room_behind(s: Seq<Geom3>) -> bool {
    forall|k: int|
        0 <= k < s.len() ==> (#[trigger] s[k]).pos.0 > i32::MIN && s[k].pos.1 > i32::MIN
            && s[k].pos.2 > i32::MIN
}

impl Arbitrary {
    /// Whether `render_faces` accepts the shape for a colour that lets light
    /// through: back faces have a place
    pub fn has_room(&self) -> (r: bool)
        requires
            self.wf(),
        ensures
            r == has_room_behind(self.prisms()),
    {
        let n = self.prism_count();
        let mut k: usize = 0;
        while k < n
            invariant
                n == self.prisms().len(),
                k <= n,
                has_room_behind(self.prisms().take(k as int)),
            decreases n - k,
        {
            let p = self.prism(k);
            if p.pos.0 == i32::MIN || p.pos.1 == i32::MIN || p.pos.2 == i32::MIN {
                return false;
            }
            k += 1;
            assert forall|m: int| 0 <= m < k implies (#[trigger] self.prisms().take(k as int)[m]).pos.0
                > i32::MIN && self.prisms().take(k as int)[m].pos.1 > i32::MIN && self.prisms().take(
                k as int,
            )[m].pos.2 > i32::MIN by {
                if m < k - 1 {
                    assert(self.prisms().take(k as int - 1)[m] == self.prisms()[m]);
                }
            }
        }
        assert(self.prisms().take(n as int) =~= self.prisms());
        true
    }

    /// Render the shape with the color if the color is not transparent
    ///
    /// Only exterior faces are rendered (i.e. the shapes are welded together)
    ///
    /// If the color is translucent, back faces are also rendered
    pub fn render_faces(&self, color: Paint, faces: &mut Vec<Face>)
        requires
            self.wf(),
            color.alpha == Alpha::Partial ==> has_room_behind(self.prisms()),
        ensures
            final(faces)@ == old(faces)@ + shape_faces(self.prisms(), color),
    {
        let ghost s = self.prisms();
        let ghost start = faces@;
        if let Alpha::Clear = color.alpha {
            assert(faces@ =~= start + shape_faces(s, color));
            return ;
        }
        let need_back_faces = match color.alpha {
            Alpha::Partial => true,
            _ => false,
        };
        let ghost g = each_prism(s, color, need_back_faces);
        let n = self.prism_count();
        let mut k: usize = 0;
        assert(faces@ =~= start + cat(0, g));
        while k < n
            invariant
                self.wf(),
                s == self.prisms(),
                n == s.len(),
                k <= n,
                need_back_faces ==> has_room_behind(s),
                g == each_prism(s, color, need_back_faces),
                faces@ == start + cat(k as int, g),
            decreases n - k,
        {
            let p = self.prism(k);
            let ghost done = faces@;
            if p.has_positive_volume() {
                self.render_block(&p, color, need_back_faces, Side::Top, faces);
                self.render_block(&p, color, need_back_faces, Side::Front, faces);
                self.render_block(&p, color, need_back_faces, Side::Side, faces);
                assert(faces@ =~= done + prism_faces(s, p, color, need_back_faces));
            }
            k += 1;
            proof {
                assert(faces@ =~= done + g(k - 1));
                assert(faces@ =~= start + cat(k as int, g));
            }
        }
    }

    /// Adds the faces of the prism `p` towards `dir`
    pub(crate) fn render_block(&self, p: &Geom3, color: Paint, back: bool, dir: Side, faces: &mut Vec<Face>)
        requires
            self.wf(),
            p.wf(),
            p.positive(),
            back ==> p.pos.0 > i32::MIN && p.pos.1 > i32::MIN && p.pos.2 > i32::MIN,
        ensures
            final(faces)@ == old(faces)@ + block_faces(self.prisms(), *p, color, back, dir),
    {
        let ghost s = self.prisms();
        let ghost start = faces@;
        let ghost g = block_rows(s, *p, color, back, dir);
        let (n_rows, n_cols, len) = match dir {
            Side::Top => (p.size.0, p.size.1, p.size.2),
            Side::Front => (p.size.1, p.size.2, p.size.0),
            Side::Side => (p.size.0, p.size.2, p.size.1),
        };
        let mut i: u32 = 0;
        assert(faces@ =~= start + cat(0, g));
        while i < n_rows
            invariant
                self.wf(),
                p.wf(),
                p.positive(),
                s == self.prisms(),
                back ==> p.pos.0 > i32::MIN && p.pos.1 > i32::MIN && p.pos.2 > i32::MIN,
                n_rows == rows(*p, dir),
                n_cols == cols(*p, dir),
                len == depth(*p, dir),
                i <= n_rows,
                g == block_rows(s, *p, color, back, dir),
                faces@ == start + cat(i as int, g),
            decreases n_rows - i,
        {
            let ghost done = faces@;
            let ghost h = row_cells(s, *p, color, back, dir, i as int);
            let mut j: u32 = 0;
            assert(faces@ =~= done + cat(0, h));
            while j < n_cols
                invariant
                    self.wf(),
                    p.wf(),
                    p.positive(),
                    s == self.prisms(),
                    back ==> p.pos.0 > i32::MIN && p.pos.1 > i32::MIN && p.pos.2 > i32::MIN,
                    n_rows == rows(*p, dir),
                    n_cols == cols(*p, dir),
                    len == depth(*p, dir),
                    i < n_rows,
                    j <= n_cols,
                    h == row_cells(s, *p, color, back, dir, i as int),
                    faces@ == done + cat(j as int, h),
                decreases n_cols - j,
            {
                let ghost cur = faces@;
                // the unit cube of the column at the inner end of the prism
                let c: (i32, i32, i32) = match dir {
                    Side::Top => (
                        (p.pos.0 as i64 + i as i64) as i32,
                        (p.pos.1 as i64 + j as i64) as i32,
                        p.pos.2,
                    ),
                    Side::Front => (
                        p.pos.0,
                        (p.pos.1 as i64 + i as i64) as i32,
                        (p.pos.2 as i64 + j as i64) as i32,
                    ),
                    Side::Side => (
                        (p.pos.0 as i64 + i as i64) as i32,
                        p.pos.1,
                        (p.pos.2 as i64 + j as i64) as i32,
                    ),
                };
                // the unit cube at the outer end, and the one beyond it
                let outer = match dir {
                    Side::Top => Vec3(c.0, c.1, p.z_end() - 1),
                    Side::Front => Vec3(p.x_end() - 1, c.1, c.2),
                    Side::Side => Vec3(c.0, p.y_end() - 1, c.2),
                };
                let beyond = match dir {
                    Side::Top => Vec3(c.0, c.1, p.z_end()),
                    Side::Front => Vec3(p.x_end(), c.1, c.2),
                    Side::Side => Vec3(c.0, p.y_end(), c.2),
                };
                if !self.contains_unit_cube(beyond) {
                    faces.push(Face { color, pos: outer, dir, is_back: false });
                }
                if back {
                    let before = match dir {
                        Side::Top => Vec3(c.0, c.1, c.2 - 1),
                        Side::Front => Vec3(c.0 - 1, c.1, c.2),
                        Side::Side => Vec3(c.0, c.1 - 1, c.2),
                    };
                    if !self.contains_unit_cube(before) {
                        faces.push(Face { color, pos: before, dir, is_back: true });
                    }
                }
                j += 1;
                proof {
                    assert(h(j - 1) == column(s, *p, color, back, dir, i as int, j - 1));
                    assert(faces@ =~= cur + column(s, *p, color, back, dir, i as int, j - 1));
                    assert(faces@ =~= done + cat(j as int, h));
                }
            }
            i += 1;
            proof {
                assert(g(i - 1) == cat(n_cols as int, h));
                assert(faces@ =~= start + cat(i as int, g));
            }
        }
    }
}

impl ShapeRef {
    /// Whether `render` accepts the shape and the colour: for a colour that
    /// lets light through, back faces have a place
    pub fn can_render(&self, v: &ShapeVec, color: Paint) -> (r: bool)
        requires
            v.wf(),
            self.idx < v@.len(),
        ensures
            r == (color.alpha == Alpha::Partial ==> has_room_behind(v.prisms(*self))),
    {
        if let Alpha::Partial = color.alpha {
            proof {
                lemma_flat(v@, self.idx as int);
                lemma_hull(v.prisms(*self));
            }
            match self.pos(v) {
                None => true,
                Some(p) => {
                    proof {
                        let s = v.prisms(*self);
                        crate::shape::lemma_lo_hi(s, crate::math::Axis::X);
                        crate::shape::lemma_lo_hi(s, crate::math::Axis::Y);
                        crate::shape::lemma_lo_hi(s, crate::math::Axis::Z);
                    }
                    p.0 > i32::MIN && p.1 > i32::MIN && p.2 > i32::MIN
                },
            }
        } else {
            true
        }
    }

    /// The faces of the shape in the given colour
    pub fn render(&self, v: &mut ShapeVec, color: Paint) -> (r: Vec<Face>)
        requires
            old(v).wf(),
            self.idx < old(v)@.len(),
            color.alpha == Alpha::Partial ==> has_room_behind(old(v).prisms(*self)),
        ensures
            final(v).wf(),
            final(v)@.len() == old(v)@.len(),
            keeps(old(v)@, final(v)@),
            r@ == shape_faces(old(v).prisms(*self), color),
    {
        self.resolve_translation(v);
        let mut faces = Vec::new();
        proof {
            lemma_flat(v@, self.idx as int);
        }
        match self.read_arbitrary(v) {
            Some(shape) => {
                shape.render_faces(color, &mut faces);
                assert(faces@ =~= shape_faces(shape.prisms(), color));
            },
            None => {
                assert(faces@ =~= shape_faces(Seq::<Geom3>::empty(), color));
            },
        }
        faces
    }
}

/// A face lies in a concatenation where it lies in one of its parts.
pub proof fn lemma_cat_contains(n: int, g: spec_fn(int) -> Seq<Face>, f: Face)
    ensures
        cat(n, g).contains(f) <==> exists|k: int| 0 <= k < n && (#[trigger] g(k)).contains(f),
    decreases n,
{
    if n > 0 {
        lemma_cat_contains(n - 1, g, f);
        let a = cat(n - 1, g);
        let b = g(n - 1);
        let c = cat(n, g);
        assert(c == a + b);
        if a.contains(f) {
            let i = choose|i: int| 0 <= i < a.len() && a[i] == f;
            assert(c[i] == f);
            let k = choose|k: int| 0 <= k < n - 1 && (#[trigger] g(k)).contains(f);
            assert(0 <= k < n && g(k).contains(f));
        }
        if b.contains(f) {
            let i = choose|i: int| 0 <= i < b.len() && b[i] == f;
            assert(c[a.len() + i] == f);
            assert(g(n - 1).contains(f));
        }
        if c.contains(f) {
            let i = choose|i: int| 0 <= i < c.len() && c[i] == f;
            if i < a.len() {
                assert(a[i] == f);
            } else {
                assert(b[i - a.len()] == f);
            }
        }
        if exists|k: int| 0 <= k < n && (#[trigger] g(k)).contains(f) {
            let k = choose|k: int| 0 <= k < n && (#[trigger] g(k)).contains(f);
            if k < n - 1 {
                assert(a.contains(f));
            } else {
                assert(b.contains(f));
            }
        }
    }
}

/// A face lies in what a column gives where it is the face on the outer end
/// and the shape does not hold the unit cube beyond it, or back faces are
/// asked for and it is the back face before the inner end and the shape does
/// not hold the unit cube there.
pub proof fn lemma_column(
    s: Seq<Geom3>,
    p: Geom3,
    color: Paint,
    back: bool,
    dir: Side,
    i: int,
    j: int,
    f: Face,
)
    ensures
        column(s, p, color, back, dir, i, j).contains(f) <==> {
            let c = cell(p, dir, i, j);
            let o = outer_cell(p, dir, i, j);
            ||| f == face_at(color, o.0, o.1, o.2, dir, false) && !any_has(
                s,
                o.0 + dir.dx(),
                o.1 + dir.dy(),
                o.2 + dir.dz(),
            )
            ||| back && f == face_at(color, c.0 - dir.dx(), c.1 - dir.dy(), c.2 - dir.dz(), dir, true)
                && !any_has(s, c.0 - dir.dx(), c.1 - dir.dy(), c.2 - dir.dz())
        },
{
    let c = cell(p, dir, i, j);
    let o = outer_cell(p, dir, i, j);
    let ix = c.0 - dir.dx();
    let iy = c.1 - dir.dy();
    let iz = c.2 - dir.dz();
    let c1 = !any_has(s, o.0 + dir.dx(), o.1 + dir.dy(), o.2 + dir.dz());
    let c2 = back && !any_has(s, ix, iy, iz);
    let f1 = face_at(color, o.0, o.1, o.2, dir, false);
    let f2 = face_at(color, ix, iy, iz, dir, true);
    let s1 = push_if(Seq::empty(), c1, f1);
    let s2 = push_if(s1, c2, f2);
    assert(s2 == column(s, p, color, back, dir, i, j));
    if c1 {
        assert(s1[0] == f1);
        assert(s2[0] == f1);
    }
    if c2 {
        assert(s2[s2.len() - 1] == f2);
    }
    if s2.contains(f) {
        let k = choose|k: int| 0 <= k < s2.len() && s2[k] == f;
        if c1 && k == 0 {
            assert(f == f1);
        } else {
            assert(c2 && f == f2);
        }
    }
}

/// Whether `f` is a face of the prism `p` towards `dir` in a shape with the
/// prisms `s`: it has the colour and the direction and, as a front face, sits
/// on the outer end of the prism with no unit cube of the shape beyond it, or,
/// as a back face where those are asked for, sits before the inner end of the
/// prism on no unit cube of the shape
pub open spec fn on_block(s: Seq<Geom3>, p: Geom3, color: Paint, back: bool, dir: Side, f: Face) -> bool {
    let x = f.pos.0 as int;
    let y = f.pos.1 as int;
    let z = f.pos.2 as int;
    &&& f.color == color
    &&& f.dir == dir
    &&& if f.is_back {
        &&& back
        &&& !p.has(x, y, z)
        &&& p.has(x + dir.dx(), y + dir.dy(), z + dir.dz())
        &&& !any_has(s, x, y, z)
    } else {
        &&& p.has(x, y, z)
        &&& !p.has(x + dir.dx(), y + dir.dy(), z + dir.dz())
        &&& !any_has(s, x + dir.dx(), y + dir.dy(), z + dir.dz())
    }
}

proof fn lemma_block_forward(s: Seq<Geom3>, p: Geom3, color: Paint, back: bool, dir: Side, f: Face)
    requires
        p.wf(),
        p.positive(),
        back ==> p.pos.0 > i32::MIN && p.pos.1 > i32::MIN && p.pos.2 > i32::MIN,
        block_faces(s, p, color, back, dir).contains(f),
    ensures
        on_block(s, p, color, back, dir, f),
{
    let g = block_rows(s, p, color, back, dir);
    lemma_cat_contains(rows(p, dir), g, f);
    let i = choose|i: int| 0 <= i < rows(p, dir) && (#[trigger] g(i)).contains(f);
    let h = row_cells(s, p, color, back, dir, i);
    assert(g(i) == cat(cols(p, dir), h));
    lemma_cat_contains(cols(p, dir), h, f);
    let j = choose|j: int| 0 <= j < cols(p, dir) && (#[trigger] h(j)).contains(f);
    assert(h(j) == column(s, p, color, back, dir, i, j));
    lemma_column(s, p, color, back, dir, i, j, f);
    let c = cell(p, dir, i, j);
    let o = outer_cell(p, dir, i, j);
    assert(p.has(c.0, c.1, c.2));
    assert(p.has(o.0, o.1, o.2));
    assert(!p.has(o.0 + dir.dx(), o.1 + dir.dy(), o.2 + dir.dz()));
    assert(!p.has(c.0 - dir.dx(), c.1 - dir.dy(), c.2 - dir.dz()));
    if f.is_back {
        assert(f == face_at(color, c.0 - dir.dx(), c.1 - dir.dy(), c.2 - dir.dz(), dir, true));
    } else {
        assert(f == face_at(color, o.0, o.1, o.2, dir, false));
    }
}

proof fn lemma_block_backward(s: Seq<Geom3>, p: Geom3, color: Paint, back: bool, dir: Side, f: Face)
    requires
        p.wf(),
        p.positive(),
        back ==> p.pos.0 > i32::MIN && p.pos.1 > i32::MIN && p.pos.2 > i32::MIN,
        on_block(s, p, color, back, dir, f),
    ensures
        block_faces(s, p, color, back, dir).contains(f),
{
    let x = f.pos.0 as int;
    let y = f.pos.1 as int;
    let z = f.pos.2 as int;
    let g = block_rows(s, p, color, back, dir);
    let (i, j) = match dir {
        Side::Top => (x - p.pos.0, y - p.pos.1),
        Side::Front => (y - p.pos.1, z - p.pos.2),
        Side::Side => (x - p.pos.0, z - p.pos.2),
    };
    let h = row_cells(s, p, color, back, dir, i);
    let c = cell(p, dir, i, j);
    let o = outer_cell(p, dir, i, j);
    if f.is_back {
        assert(c.0 - dir.dx() == x && c.1 - dir.dy() == y && c.2 - dir.dz() == z);
        assert(f == face_at(color, c.0 - dir.dx(), c.1 - dir.dy(), c.2 - dir.dz(), dir, true));
    } else {
        assert(o.0 == x && o.1 == y && o.2 == z);
        assert(f == face_at(color, o.0, o.1, o.2, dir, false));
    }
    lemma_column(s, p, color, back, dir, i, j, f);
    assert(column(s, p, color, back, dir, i, j).contains(f));
    assert(h(j) == column(s, p, color, back, dir, i, j));
    assert(0 <= j < cols(p, dir) && h(j).contains(f));
    lemma_cat_contains(cols(p, dir), h, f);
    assert(g(i) == cat(cols(p, dir), h));
    assert(0 <= i < rows(p, dir) && g(i).contains(f));
    lemma_cat_contains(rows(p, dir), g, f);
}

/// The faces of one prism towards one direction are those that `on_block`
/// describes.
pub proof fn lemma_block(s: Seq<Geom3>, p: Geom3, color: Paint, back: bool, dir: Side, f: Face)
    requires
        p.wf(),
        p.positive(),
        back ==> p.pos.0 > i32::MIN && p.pos.1 > i32::MIN && p.pos.2 > i32::MIN,
    ensures
        block_faces(s, p, color, back, dir).contains(f) <==> on_block(s, p, color, back, dir, f),
{
    if block_faces(s, p, color, back, dir).contains(f) {
        lemma_block_forward(s, p, color, back, dir, f);
    }
    if on_block(s, p, color, back, dir, f) {
        lemma_block_backward(s, p, color, back, dir, f);
    }
}

/// Face and shape agree: a shape of valid prisms gives a face where the colour is not clear, the face has the colour, a back face
/// comes only with a colour that lets light through, and the face is drawn by
/// `visible`: it lies between a unit cube of the shape and one outside it.
pub proof fn law_faces_are_the_visible_ones(s: Seq<Geom3>, color: Paint, f: Face)
    requires
        crate::geom::all_wf(s),
        color.alpha == Alpha::Partial ==> has_room_behind(s),
    ensures
        shape_faces(s, color).contains(f) <==> {
            &&& color.alpha != Alpha::Clear
            &&& f.color == color
            &&& f.is_back ==> color.alpha == Alpha::Partial
            &&& visible(s, f.pos.0 as int, f.pos.1 as int, f.pos.2 as int, f.dir, f.is_back)
        },
{
    let x = f.pos.0 as int;
    let y = f.pos.1 as int;
    let z = f.pos.2 as int;
    let dx = f.dir.dx();
    let dy = f.dir.dy();
    let dz = f.dir.dz();
    let back = color.alpha == Alpha::Partial;
    let g = each_prism(s, color, back);
    if color.alpha != Alpha::Clear {
        lemma_cat_contains(s.len() as int, g, f);
        if shape_faces(s, color).contains(f) {
            let k = choose|k: int| 0 <= k < s.len() && (#[trigger] g(k)).contains(f);
            let p = s[k];
            assert(p.positive());
            assert(g(k) == prism_faces(s, p, color, back));
            assert(p.wf());
            lemma_prism_faces(s, p, color, back, f);
            lemma_block(s, p, color, back, f.dir, f);
            if f.is_back {
                assert(s[k].has(x + dx, y + dy, z + dz));
            } else {
                assert(s[k].has(x, y, z));
            }
        }
        if f.color == color && (f.is_back ==> back) && visible(s, x, y, z, f.dir, f.is_back) {
            let k = if f.is_back {
                choose|k: int| 0 <= k < s.len() && (#[trigger] s[k]).has(x + dx, y + dy, z + dz)
            } else {
                choose|k: int| 0 <= k < s.len() && (#[trigger] s[k]).has(x, y, z)
            };
            let p = s[k];
            assert(p.wf() && p.positive());
            if f.is_back {
                if p.has(x, y, z) {
                    assert(s[k].has(x, y, z));
                }
            } else {
                if p.has(x + dx, y + dy, z + dz) {
                    assert(s[k].has(x + dx, y + dy, z + dz));
                }
            }
            lemma_block(s, p, color, back, f.dir, f);
            lemma_prism_faces(s, p, color, back, f);
            assert(g(k) == prism_faces(s, p, color, back));
            assert(0 <= k < s.len() && g(k).contains(f));
        }
    } else {
        assert(!shape_faces(s, color).contains(f));
    }
}

/// A face lies among the faces of a prism where it lies among those towards
/// its own direction.
pub proof fn lemma_prism_faces(s: Seq<Geom3>, p: Geom3, color: Paint, back: bool, f: Face)
    requires
        p.wf(),
        p.positive(),
        back ==> p.pos.0 > i32::MIN && p.pos.1 > i32::MIN && p.pos.2 > i32::MIN,
    ensures
        prism_faces(s, p, color, back).contains(f) <==> block_faces(
            s,
            p,
            color,
            back,
            f.dir,
        ).contains(f),
{
    let a = block_faces(s, p, color, back, Side::Top);
    let b = block_faces(s, p, color, back, Side::Front);
    let c = block_faces(s, p, color, back, Side::Side);
    let all = prism_faces(s, p, color, back);
    lemma_block(s, p, color, back, Side::Top, f);
    lemma_block(s, p, color, back, Side::Front, f);
    lemma_block(s, p, color, back, Side::Side, f);
    assert(all == a + b + c);
    if a.contains(f) {
        let i = choose|i: int| 0 <= i < a.len() && a[i] == f;
        assert(all[i] == f);
    }
    if b.contains(f) {
        let i = choose|i: int| 0 <= i < b.len() && b[i] == f;
        assert(all[a.len() + i] == f);
    }
    if c.contains(f) {
        let i = choose|i: int| 0 <= i < c.len() && c[i] == f;
        assert(all[a.len() + b.len() + i] == f);
    }
    if all.contains(f) {
        let i = choose|i: int| 0 <= i < all.len() && all[i] == f;
        if i < a.len() {
            assert(a[i] == f);
        } else if i < a.len() + b.len() {
            assert(b[i - a.len()] == f);
        } else {
            assert(c[i - a.len() - b.len()] == f);
        }
    }
}

/// No face touches an enclosed unit cube: where a shape holds a unit cube and
/// its six neighbours, a solid colour gives no face of that cube.
pub proof fn law_enclosed_cube_has_no_face(s: Seq<Geom3>, color: Paint, x: int, y: int, z: int, f: Face)
    requires
        crate::geom::all_wf(s),
        color.alpha == Alpha::Solid,
        any_has(s, x, y, z),
        any_has(s, x + 1, y, z),
        any_has(s, x - 1, y, z),
        any_has(s, x, y + 1, z),
        any_has(s, x, y - 1, z),
        any_has(s, x, y, z + 1),
        any_has(s, x, y, z - 1),
        shape_faces(s, color).contains(f),
    ensures
        !(f.pos.0 == x && f.pos.1 == y && f.pos.2 == z),
        !(f.pos.0 + f.dir.dx() == x && f.pos.1 + f.dir.dy() == y && f.pos.2 + f.dir.dz() == z),
{
    law_faces_are_the_visible_ones(s, color, f);
}

/// Whether the faces `a` and `b` cover a common cell of the grid
pub open spec fn share_cell(a: Face, b: Face) -> bool {
    let p = a.cells();
    let q = b.cells();
    ||| (p.0 == q.0 && p.1 == q.1)
    ||| (p.0 == q.2 && p.1 == q.3)
    ||| (p.2 == q.0 && p.3 == q.1)
    ||| (p.2 == q.2 && p.3 == q.3)
}

/// Faces of one layer do not overlap: two faces with the same sort key
/// that cover a common cell are faces of the same unit cube towards the same
/// direction, both front faces or both back faces.
pub proof fn law_equal_layers_do_not_overlap(a: Face, b: Face)
    requires
        a.key() == b.key(),
        share_cell(a, b),
    ensures
        a.pos == b.pos,
        a.dir == b.dir,
        a.is_back == b.is_back,
{
    let ka = a.pos.0 + a.pos.1 + 2 * a.pos.2;
    let kb = b.pos.0 + b.pos.1 + 2 * b.pos.2;
    assert(a.is_back == b.is_back);
    assert(ka == kb);
    // v = k - 4 z, and u has the parity of x + y
    assert(a.v() == ka - 4 * a.pos.2);
    assert(b.v() == kb - 4 * b.pos.2);
    assert(a.u() + 2 * a.pos.0 == a.pos.0 + a.pos.1);
    assert(b.u() + 2 * b.pos.0 == b.pos.0 + b.pos.1);
}

} // verus!
