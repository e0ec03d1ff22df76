use vstd::prelude::*;
use vstd::string::StringExecFns;

use crate::arena::{keeps, ShapeRef, ShapeVec};
use crate::canvas::{Blend, Canvas, PointView};
use crate::color::{Alpha, Paint};
use crate::face::{has_room_behind, keys_descend, shape_faces, sort_faces, Face};
use crate::geom::Geom3;
use crate::math::{Axis, Vec3};
use crate::poly::Layer;
use crate::shape::{hull, shift_all};
use crate::tree::{default_shader, default_shader_x, default_shader_y, default_shader_z, or_default};

verus! {

/// Error thrown to the script side if something happens
#[derive(Debug, Clone, PartialEq, Eq)]
pub enum Error {
    InvalidShapeHandle(u32),
    InvalidAxisEnum(u32),
    MinOfEmptyShape,
    MaxOfEmptyShape,
    /// A colour that could not be read, with what the reader said of it
    InvalidColor(String),
    /// A shape or a face that does not fit the coordinates, or a store of
    /// shapes that is full
    OutOfRange,
}

/// The digit `d` as a character
pub open spec fn digit_char(d: int) -> char {
    if d == 0 {
        '0'
    } else if d == 1 {
        '1'
    } else if d == 2 {
        '2'
    } else if d == 3 {
        '3'
    } else if d == 4 {
        '4'
    } else if d == 5 {
        '5'
    } else if d == 6 {
        '6'
    } else if d == 7 {
        '7'
    } else if d == 8 {
        '8'
    } else {
        '9'
    }
}

/// The number `n` in base 10
pub open spec fn decimal(n: nat) -> Seq<char>
    decreases n,
{
    if n < 10 {
        seq![digit_char(n as int)]
    } else {
        decimal(n / 10).push(digit_char((n % 10) as int))
    }
}

fn digit_str(d: u32) -> (r: &'static str)
    requires
        d < 10,
    ensures
        r@ == seq![digit_char(d as int)],
{
    proof {
        reveal_strlit("0");
        reveal_strlit("1");
        reveal_strlit("2");
        reveal_strlit("3");
        reveal_strlit("4");
        reveal_strlit("5");
        reveal_strlit("6");
        reveal_strlit("7");
        reveal_strlit("8");
        reveal_strlit("9");
    }
    let r = match d {
        0 => "0",
        1 => "1",
        2 => "2",
        3 => "3",
        4 => "4",
        5 => "5",
        6 => "6",
        7 => "7",
        8 => "8",
        _ => "9",
    };
    assert(r@ =~= seq![digit_char(d as int)]);
    r
}

/// Adds the number `n` in base 10 to the text
pub fn push_decimal(s: &mut String, n: u32)
    ensures
        final(s)@ == old(s)@ + decimal(n as nat),
    decreases n,
{
    if n >= 10 {
        push_decimal(s, n / 10);
    }
    s.append(digit_str(n % 10));
    assert(s@ =~= old(s)@ + decimal(n as nat));
}

impl Error {
    /// What the error says
    pub open spec fn text(self) -> Seq<char> {
        match self {
            Error::InvalidShapeHandle(h) => "native: invalid shape handle: "@ + decimal(h as nat),
            Error::InvalidAxisEnum(a) => "native: invalid axis enum: "@ + decimal(a as nat),
            Error::MinOfEmptyShape => "native: cannot access min of a shape with 0 volume"@,
            Error::MaxOfEmptyShape => "native: cannot access max of a shape with 0 volume"@,
            Error::InvalidColor(e) => "native: invalid color: "@ + e@,
            Error::OutOfRange => "native: shape out of range"@,
        }
    }

    /// What the error says
    pub fn to_string(&self) -> (r: String)
        ensures
            r@ == self.text(),
    {
        match self {
            Error::InvalidShapeHandle(h) => {
                let mut s = String::from_str("native: invalid shape handle: ");
                push_decimal(&mut s, *h);
                s
            },
            Error::InvalidAxisEnum(a) => {
                let mut s = String::from_str("native: invalid axis enum: ");
                push_decimal(&mut s, *a);
                s
            },
            Error::MinOfEmptyShape => String::from_str(
                "native: cannot access min of a shape with 0 volume",
            ),
            Error::MaxOfEmptyShape => String::from_str(
                "native: cannot access max of a shape with 0 volume",
            ),
            Error::InvalidColor(e) => {
                let mut s = String::from_str("native: invalid color: ");
                s.append(e.as_str());
                s
            },
            Error::OutOfRange => String::from_str("native: shape out of range"),
        }
    }
}

/// The messages of a run: the logs, then `render ok` or, for a script that
/// failed, `runtime error: ` with what the engine said, then `no layers
/// rendered` where there are none
pub open spec fn run_messages(logs: Seq<Seq<char>>, error: Option<Seq<char>>, no_layers: bool) -> Seq<
    Seq<char>,
> {
    let with_outcome = logs.push(
        match error {
            None => "render ok"@,
            Some(e) => "runtime error: "@ + e,
        },
    );
    if no_layers {
        with_outcome.push("no layers rendered"@)
    } else {
        with_outcome
    }
}

/// The texts of the strings `s`
pub open spec fn texts(s: Seq<String>) -> Seq<Seq<char>> {
    Seq::new(s.len(), |i: int| s[i]@)
}

/// The messages of a run, from the logs that the script left, what the
/// engine said where the script failed, and whether layers were rendered
pub fn finish_messages(logs: Vec<String>, error: Option<String>, no_layers: bool) -> (r: Vec<String>)
    ensures
        texts(r@) == run_messages(
            texts(logs@),
            match error {
                Some(e) => Some(e@),
                None => None,
            },
            no_layers,
        ),
{
    let mut messages = logs;
    let output_message = match error {
        None => String::from_str("render ok"),
        Some(e) => {
            let mut s = String::from_str("runtime error: ");
            s.append(e.as_str());
            s
        },
    };
    messages.push(output_message);
    if no_layers {
        messages.push(String::from_str("no layers rendered"));
    }
    assert(texts(messages@) =~= run_messages(
        texts(logs@),
        match error {
            Some(e) => Some(e@),
            None => None,
        },
        no_layers,
    ));
    messages
}

/// Builtin bindings for the rendering script engine: what a script has
/// built, logged and rendered so far
#[derive(Debug)]
pub struct Builtin {
    /// The canvas for rendering
    canvas: Canvas,
    /// Object ID counter for debugging
    obj_id: u64,
    /// Ids logged by debug calls
    logs: Vec<String>,
    /// Shapes in the scene
    shapes: ShapeVec,
    /// Rendered faces
    faces: Vec<Face>,
}

/// The handle of a shape as a script holds it
pub open spec fn handle_of(h: u32) -> ShapeRef {
    ShapeRef { idx: h as usize }
}

/// Whether every face of `s` has its cells within the grid
pub open spec fn all_on_grid(s: Seq<Face>) -> bool {
    forall|i: int| 0 <= i < s.len() ==> (#[trigger] s[i]).on_grid()
}

/// The cells after the faces `s` were put on them in turn
pub open spec fn put_faces(
    cells: Map<(i32, i32), PointView>,
    s: Seq<Face>,
    n: int,
    shader: Vec3<Paint>,
) -> Map<(i32, i32), PointView>
    decreases n,
{
    if n <= 0 {
        cells
    } else {
        crate::canvas::put_face(put_faces(cells, s, n - 1, shader), s[n - 1], shader)
    }
}

impl Default for Builtin {
    fn default() -> (r: Self)
        ensures
            r.wf(),
            r.shapes()@.len() == 1,
            r.faces() == Seq::<Face>::empty(),
            r.logs() == Seq::<String>::empty(),
            r.next_id() == 1,
            r.canvas().shader() == Vec3(default_shader_x(), default_shader_y(), default_shader_z()),
            r.canvas()@ == Map::<(i32, i32), PointView>::empty(),
    {
        Self::new()
    }
}

impl Builtin {
    /// The shapes that the script has built
    pub closed spec fn shapes(&self) -> ShapeVec {
        self.shapes
    }

    /// The faces that the script has rendered and that are not yet on the
    /// canvas
    pub closed spec fn faces(&self) -> Seq<Face> {
        self.faces@
    }

    /// What the script has logged
    pub closed spec fn logs(&self) -> Seq<String> {
        self.logs@
    }

    /// The next object id
    pub closed spec fn next_id(&self) -> u64 {
        self.obj_id
    }

    /// The canvas
    pub closed spec fn canvas(&self) -> Canvas {
        self.canvas
    }

    /// The store of shapes is valid and its handles fit 32 bits, and every
    /// face has its cells within the grid
    pub open spec fn wf(&self) -> bool {
        &&& self.shapes().wf()
        &&& self.shapes()@.len() <= u32::MAX
        &&& all_on_grid(self.faces())
    }

    /// What does not change when a shape is made
    pub open spec fn same_but_shapes(&self, other: &Builtin) -> bool {
        &&& self.faces() == other.faces()
        &&& self.logs() == other.logs()
        &&& self.next_id() == other.next_id()
        &&& self.canvas() == other.canvas()
    }

    /// The state before a script runs: the default shader, object id 1,
    /// no logs, the empty shape alone and no faces
    pub fn new() -> (r: Builtin)
        ensures
            r.wf(),
            r.shapes()@.len() == 1,
            r.faces() == Seq::<Face>::empty(),
            r.logs() == Seq::<String>::empty(),
            r.next_id() == 1,
            r.canvas().shader() == Vec3(default_shader_x(), default_shader_y(), default_shader_z()),
            r.canvas()@ == Map::<(i32, i32), PointView>::empty(),
    {
        Builtin {
            canvas: Canvas::new(default_shader()),
            obj_id: 1,
            logs: Vec::new(),
            shapes: ShapeVec::new(),
            faces: Vec::new(),
        }
    }

    /// `log`: keeps the text
    pub fn log(&mut self, value: String)
        ensures
            final(self).logs() == old(self).logs().push(value),
            final(self).shapes() == old(self).shapes(),
            final(self).faces() == old(self).faces(),
            final(self).next_id() == old(self).next_id(),
            final(self).canvas() == old(self).canvas(),
    {
        self.logs.push(value);
    }

    /// What the script has logged, in order
    pub fn get_logs(&self) -> (r: Vec<String>)
        ensures
            texts(r@) == texts(self.logs()),
    {
        let mut out: Vec<String> = Vec::new();
        let n = self.logs.len();
        let mut i: usize = 0;
        while i < n
            invariant
                n == self.logs@.len(),
                i <= n,
                out@.len() == i,
                texts(out@) == texts(self.logs@.take(i as int)),
            decreases n - i,
        {
            let ghost before = out@;
            out.push(String::from_str(self.logs[i].as_str()));
            i += 1;
            proof {
                let a = texts(out@);
                let b = texts(self.logs@.take(i as int));
                assert(a.len() == b.len());
                assert forall|k: int| 0 <= k < a.len() implies a[k] == b[k] by {
                    if k < i - 1 {
                        assert(out@[k] == before[k]);
                        assert(texts(before)[k] == texts(self.logs@.take(i as int - 1))[k]);
                    }
                }
                assert(a =~= b);
            }
        }
        assert(self.logs@.take(n as int) =~= self.logs@);
        out
    }

    /// `set_shader`: the shader colours, each the default where none is given
    pub fn set_shader(&mut self, x: Option<Paint>, y: Option<Paint>, z: Option<Paint>)
        ensures
            final(self).canvas().shader() == Vec3(
                or_default(x, default_shader_x()),
                or_default(y, default_shader_y()),
                or_default(z, default_shader_z()),
            ),
            final(self).canvas()@ == old(self).canvas()@,
            final(self).shapes() == old(self).shapes(),
            final(self).faces() == old(self).faces(),
            final(self).logs() == old(self).logs(),
            final(self).next_id() == old(self).next_id(),
    {
        let d = default_shader();
        let x = match x {
            Some(c) => c,
            None => d.0,
        };
        let y = match y {
            Some(c) => c,
            None => d.1,
        };
        let z = match z {
            Some(c) => c,
            None => d.2,
        };
        self.canvas.set_shader(Vec3(x, y, z));
    }

    /// `debug`: the next object id, for the log
    pub fn debug(&self) -> (r: u64)
        ensures
            r == self.next_id(),
    {
        self.obj_id
    }

    /// `nextid`: gives the next object id and counts on
    pub fn nextid(&mut self) -> (r: u64)
        ensures
            r == old(self).next_id(),
            final(self).next_id() == if r == u64::MAX {
                0
            } else {
                r + 1
            },
            final(self).shapes() == old(self).shapes(),
            final(self).faces() == old(self).faces(),
            final(self).logs() == old(self).logs(),
            final(self).canvas() == old(self).canvas(),
    {
        let id = self.obj_id;
        self.obj_id = if id == u64::MAX {
            0
        } else {
            id + 1
        };
        id
    }

    /// The shape behind a handle of the script
    pub fn shape(&self, handle: u32) -> (r: Result<ShapeRef, Error>)
        ensures
            match r {
                Ok(s) => s.idx == handle && handle < self.shapes()@.len(),
                Err(e) => e == Error::InvalidShapeHandle(handle) && handle >= self.shapes()@.len(),
            },
    {
        match self.shapes.get(handle as usize) {
            Some(s) => Ok(s),
            None => Err(Error::InvalidShapeHandle(handle)),
        }
    }

    /// The axis behind a number of the script
    pub fn axis(axis: u32) -> (r: Result<Axis, Error>)
        ensures
            match r {
                Ok(a) => a.index() == axis,
                Err(e) => e == Error::InvalidAxisEnum(axis) && axis > 2,
            },
    {
        match Axis::from_u32(axis) {
            Some(a) => Ok(a),
            None => Err(Error::InvalidAxisEnum(axis)),
        }
    }

    /// `shape_from_prism`: a new shape of one prism; the handle 0 where a
    /// size is zero
    pub fn shape_from_prism(&mut self, pos: Vec3<i32>, size: Vec3<u32>) -> (r: Result<u32, Error>)
        requires
            old(self).wf(),
        ensures
            final(self).wf(),
            final(self).same_but_shapes(old(self)),
            keeps(old(self).shapes()@, final(self).shapes()@),
            match r {
                Ok(h) => {
                    &&& Geom3::new(pos, size).wf()
                    &&& h < final(self).shapes()@.len()
                    &&& !Geom3::new(pos, size).positive() ==> h == 0
                    &&& Geom3::new(pos, size).positive() ==> h == old(self).shapes()@.len()
                        && final(self).shapes().prisms(handle_of(h)) == seq![
                        Geom3::new(pos, size),
                    ]
                },
                Err(e) => e == Error::OutOfRange && final(self).shapes() == old(self).shapes() && (
                !Geom3::new(pos, size).wf() || old(self).shapes()@.len() == u32::MAX),
            },
    {
        proof {
            crate::arena::lemma_keeps_self(self.shapes@);
        }
        if !Geom3::new(pos, size).is_valid() || self.shapes.len() >= u32::MAX as usize {
            return Err(Error::OutOfRange);
        }
        Ok(self.shapes.add_prism(pos, size))
    }

    /// `shape_size`: the size of the bounding box of a shape
    pub fn shape_size(&self, handle: u32) -> (r: Result<[u32; 3], Error>)
        requires
            self.wf(),
        ensures
            match r {
                Ok(s) => handle < self.shapes()@.len() && Vec3(s[0], s[1], s[2]) == hull(
                    self.shapes().prisms(handle_of(handle)),
                ).size,
                Err(e) => e == Error::InvalidShapeHandle(handle) && handle >= self.shapes()@.len(),
            },
    {
        let shape = match self.shape(handle) {
            Ok(s) => s,
            Err(e) => {
                return Err(e);
            },
        };
        let size = shape.size(&self.shapes);
        Ok([size.0, size.1, size.2])
    }

    /// `shape_min`: the least coordinate of a shape on an axis
    pub fn shape_min(&self, handle: u32, axis: u32) -> (r: Result<i32, Error>)
        requires
            self.wf(),
        ensures
            match r {
                Ok(m) => handle < self.shapes()@.len() && axis <= 2 && self.shapes().prisms(
                    handle_of(handle),
                ).len() > 0 && exists|a: Axis|
                    a.index() == axis && m == hull(
                        self.shapes().prisms(handle_of(handle)),
                    ).pos.at(a),
                Err(e) => if handle >= self.shapes()@.len() {
                    e == Error::InvalidShapeHandle(handle)
                } else if axis > 2 {
                    e == Error::InvalidAxisEnum(axis)
                } else {
                    e == Error::MinOfEmptyShape && self.shapes().prisms(
                        handle_of(handle),
                    ).len() == 0
                },
            },
    {
        let shape = match self.shape(handle) {
            Ok(s) => s,
            Err(e) => {
                return Err(e);
            },
        };
        let axis = match Self::axis(axis) {
            Ok(a) => a,
            Err(e) => {
                return Err(e);
            },
        };
        match shape.min(&self.shapes, axis) {
            Some(m) => Ok(m),
            None => Err(Error::MinOfEmptyShape),
        }
    }

    /// `shape_max`: the end of a shape on an axis
    pub fn shape_max(&self, handle: u32, axis: u32) -> (r: Result<i32, Error>)
        requires
            self.wf(),
        ensures
            match r {
                Ok(m) => handle < self.shapes()@.len() && axis <= 2 && self.shapes().prisms(
                    handle_of(handle),
                ).len() > 0 && exists|a: Axis|
                    a.index() == axis && m == hull(
                        self.shapes().prisms(handle_of(handle)),
                    ).pos.at(a) + hull(
                        self.shapes().prisms(handle_of(handle)),
                    ).size.at(a),
                Err(e) => if handle >= self.shapes()@.len() {
                    e == Error::InvalidShapeHandle(handle)
                } else if axis > 2 {
                    e == Error::InvalidAxisEnum(axis)
                } else {
                    e == Error::MaxOfEmptyShape && self.shapes().prisms(
                        handle_of(handle),
                    ).len() == 0
                },
            },
    {
        let shape = match self.shape(handle) {
            Ok(s) => s,
            Err(e) => {
                return Err(e);
            },
        };
        let axis = match Self::axis(axis) {
            Ok(a) => a,
            Err(e) => {
                return Err(e);
            },
        };
        match shape.max(&self.shapes, axis) {
            Some(m) => Ok(m),
            None => Err(Error::MaxOfEmptyShape),
        }
    }

    /// `shape_translate`: the shape moved by an offset
    pub fn shape_translate(&mut self, handle: u32, offset: Vec3<i32>) -> (r: Result<u32, Error>)
        requires
            old(self).wf(),
        ensures
            final(self).wf(),
            final(self).same_but_shapes(old(self)),
            keeps(old(self).shapes()@, final(self).shapes()@),
            match r {
                Ok(h) => {
                    &&& handle < old(self).shapes()@.len()
                    &&& h < final(self).shapes()@.len()
                    &&& final(self).shapes().prisms(handle_of(h)) == shift_all(
                        old(self).shapes().prisms(handle_of(handle)),
                        offset.0 as int,
                        offset.1 as int,
                        offset.2 as int,
                    )
                },
                Err(e) => final(self).shapes() == old(self).shapes() && if handle >= old(self).shapes()@.len() {
                    e == Error::InvalidShapeHandle(handle)
                } else {
                    e == Error::OutOfRange && (!old(self).shapes().can_shift(
                        handle_of(handle),
                        offset,
                    ) || old(self).shapes()@.len() == u32::MAX)
                },
            },
    {
        proof {
            crate::arena::lemma_keeps_self(self.shapes@);
        }
        let shape = match self.shape(handle) {
            Ok(s) => s,
            Err(e) => {
                return Err(e);
            },
        };
        if !shape.can_translate(&self.shapes, offset) || self.shapes.len() >= u32::MAX as usize {
            return Err(Error::OutOfRange);
        }
        let moved = shape.translate(&mut self.shapes, offset);
        Ok(moved.idx as u32)
    }

    /// `shape_translate_axis_off`: the shape moved along an axis
    pub fn shape_translate_axis_off(&mut self, handle: u32, axis: u32, offset: i32) -> (r: Result<
        u32,
        Error,
    >)
        requires
            old(self).wf(),
        ensures
            final(self).wf(),
            final(self).same_but_shapes(old(self)),
            keeps(old(self).shapes()@, final(self).shapes()@),
            match r {
                Ok(h) => {
                    &&& handle < old(self).shapes()@.len()
                    &&& axis <= 2
                    &&& h < final(self).shapes()@.len()
                    &&& exists|a: Axis|
                        a.index() == axis && final(self).shapes().prisms(
                            handle_of(h),
                        ) == crate::shape::shift_along(
                            old(self).shapes().prisms(handle_of(handle)),
                            a,
                            offset as int,
                        )
                },
                Err(e) => final(self).shapes() == old(self).shapes() && if handle >= old(self).shapes()@.len() {
                    e == Error::InvalidShapeHandle(handle)
                } else if axis > 2 {
                    e == Error::InvalidAxisEnum(axis)
                } else {
                    e == Error::OutOfRange && (old(self).shapes()@.len() == u32::MAX || exists|a: Axis|
                        a.index() == axis && !old(self).shapes().can_shift(
                            handle_of(handle),
                            Vec3(0i32, 0i32, 0i32).with(a, offset),
                        ))
                },
            },
    {
        proof {
            crate::arena::lemma_keeps_self(self.shapes@);
        }
        let shape = match self.shape(handle) {
            Ok(s) => s,
            Err(e) => {
                return Err(e);
            },
        };
        let axis = match Self::axis(axis) {
            Ok(a) => a,
            Err(e) => {
                return Err(e);
            },
        };
        let by = match axis {
            Axis::X => Vec3(offset, 0, 0),
            Axis::Y => Vec3(0, offset, 0),
            Axis::Z => Vec3(0, 0, offset),
        };
        if !shape.can_translate(&self.shapes, by) || self.shapes.len() >= u32::MAX as usize {
            return Err(Error::OutOfRange);
        }
        let moved = shape.translate_axis(&mut self.shapes, axis, offset);
        Ok(moved.idx as u32)
    }

    /// `shape_at_point`: the shape moved so that its least corner is at `min`
    pub fn shape_at_point(&mut self, handle: u32, min: Vec3<i32>) -> (r: Result<u32, Error>)
        requires
            old(self).wf(),
        ensures
            final(self).wf(),
            final(self).same_but_shapes(old(self)),
            keeps(old(self).shapes()@, final(self).shapes()@),
            match r {
                Ok(h) => {
                    &&& handle < old(self).shapes()@.len()
                    &&& h < final(self).shapes()@.len()
                    &&& old(self).shapes().prisms(handle_of(handle)).len() == 0
                        ==> h == 0
                    &&& old(self).shapes().prisms(handle_of(handle)).len() > 0
                        ==> hull(final(self).shapes().prisms(handle_of(h))).pos
                        == min
                },
                Err(e) => final(self).shapes() == old(self).shapes() && if handle >= old(self).shapes()@.len() {
                    e == Error::InvalidShapeHandle(handle)
                } else {
                    e == Error::OutOfRange && (!old(self).shapes().can_put(
                        handle_of(handle),
                        min,
                    ) || old(self).shapes()@.len() == u32::MAX)
                },
            },
    {
        proof {
            crate::arena::lemma_keeps_self(self.shapes@);
        }
        let shape = match self.shape(handle) {
            Ok(s) => s,
            Err(e) => {
                return Err(e);
            },
        };
        if !shape.can_put_at(&self.shapes, min) || self.shapes.len() >= u32::MAX as usize {
            return Err(Error::OutOfRange);
        }
        let moved = shape.with_min(&mut self.shapes, min);
        Ok(moved.idx as u32)
    }

    /// `shape_at_axis_off`: the shape moved along an axis so that it starts
    /// at `at` there
    pub fn shape_at_axis_off(&mut self, handle: u32, axis: u32, at: i32) -> (r: Result<u32, Error>)
        requires
            old(self).wf(),
        ensures
            final(self).wf(),
            final(self).same_but_shapes(old(self)),
            keeps(old(self).shapes()@, final(self).shapes()@),
            match r {
                Ok(h) => {
                    &&& handle < old(self).shapes()@.len()
                    &&& axis <= 2
                    &&& h < final(self).shapes()@.len()
                    &&& old(self).shapes().prisms(handle_of(handle)).len() == 0
                        ==> h == 0
                    &&& old(self).shapes().prisms(handle_of(handle)).len() > 0
                        ==> exists|a: Axis|
                        a.index() == axis && hull(
                            final(self).shapes().prisms(handle_of(h)),
                        ).pos == hull(
                            old(self).shapes().prisms(handle_of(handle)),
                        ).pos.with(a, at)
                },
                Err(e) => final(self).shapes() == old(self).shapes() && if handle >= old(self).shapes()@.len() {
                    e == Error::InvalidShapeHandle(handle)
                } else if axis > 2 {
                    e == Error::InvalidAxisEnum(axis)
                } else {
                    e == Error::OutOfRange && (old(self).shapes()@.len() == u32::MAX || exists|a: Axis|
                        a.index() == axis && !old(self).shapes().can_put(
                            handle_of(handle),
                            hull(old(self).shapes().prisms(handle_of(handle))).pos.with(a, at),
                        ))
                },
            },
    {
        proof {
            crate::arena::lemma_keeps_self(self.shapes@);
        }
        let shape = match self.shape(handle) {
            Ok(s) => s,
            Err(e) => {
                return Err(e);
            },
        };
        let axis = match Self::axis(axis) {
            Ok(a) => a,
            Err(e) => {
                return Err(e);
            },
        };
        let target = match shape.pos(&self.shapes) {
            None => {
                return Ok(0);
            },
            Some(p) => match axis {
                Axis::X => Vec3(at, p.1, p.2),
                Axis::Y => Vec3(p.0, at, p.2),
                Axis::Z => Vec3(p.0, p.1, at),
            },
        };
        if !shape.can_put_at(&self.shapes, target) || self.shapes.len() >= u32::MAX as usize {
            return Err(Error::OutOfRange);
        }
        let moved = shape.with_axis_off(&mut self.shapes, axis, at);
        Ok(moved.idx as u32)
    }

    /// `shape_union`: the shape of the unit cubes of either shape
    pub fn shape_union(&mut self, a: u32, b: u32) -> (r: Result<u32, Error>)
        requires
            old(self).wf(),
        ensures
            final(self).wf(),
            final(self).same_but_shapes(old(self)),
            keeps(old(self).shapes()@, final(self).shapes()@),
            match r {
                Ok(h) => {
                    &&& a < old(self).shapes()@.len()
                    &&& b < old(self).shapes()@.len()
                    &&& h < final(self).shapes()@.len()
                    &&& final(self).shapes().prisms(handle_of(h)) == if old(self).shapes().prisms(
                        handle_of(a),
                    ).len() == 0 {
                        old(self).shapes().prisms(handle_of(b))
                    } else if old(self).shapes().prisms(handle_of(b)).len() == 0 {
                        old(self).shapes().prisms(handle_of(a))
                    } else {
                        old(self).shapes().prisms(handle_of(a)) + old(self).shapes().prisms(
                            handle_of(b),
                        )
                    }
                    &&& forall|x: int, y: int, z: int|
                        #[trigger] final(self).shapes().has(handle_of(h), x, y, z) <==> old(self).shapes().has(handle_of(a), x, y, z) || old(self).shapes().has(handle_of(b), x, y, z)
                },
                Err(e) => if a >= old(self).shapes()@.len() {
                    e == Error::InvalidShapeHandle(a)
                } else if b >= old(self).shapes()@.len() {
                    e == Error::InvalidShapeHandle(b)
                } else {
                    e == Error::OutOfRange && old(self).shapes()@.len() == u32::MAX
                },
            },
    {
        proof {
            crate::arena::lemma_keeps_self(self.shapes@);
        }
        let (a, b) = match self.pair(a, b) {
            Ok(p) => p,
            Err(e) => {
                return Err(e);
            },
        };
        let made = a.union(&mut self.shapes, &b);
        Ok(made.idx as u32)
    }

    /// `shape_intersection`: the shape of the unit cubes of both shapes
    pub fn shape_intersection(&mut self, a: u32, b: u32) -> (r: Result<u32, Error>)
        requires
            old(self).wf(),
        ensures
            final(self).wf(),
            final(self).same_but_shapes(old(self)),
            keeps(old(self).shapes()@, final(self).shapes()@),
            match r {
                Ok(h) => {
                    &&& a < old(self).shapes()@.len()
                    &&& b < old(self).shapes()@.len()
                    &&& h < final(self).shapes()@.len()
                    &&& final(self).shapes().prisms(handle_of(h)) == if old(self).shapes().prisms(
                        handle_of(a),
                    ).len() == 0 || old(self).shapes().prisms(handle_of(b)).len() == 0 {
                        Seq::<Geom3>::empty()
                    } else {
                        crate::shape::meet_all(
                            old(self).shapes().prisms(handle_of(a)),
                            old(self).shapes().prisms(handle_of(b)),
                        )
                    }
                    &&& forall|x: int, y: int, z: int|
                        #[trigger] final(self).shapes().has(handle_of(h), x, y, z) <==> old(self).shapes().has(handle_of(a), x, y, z) && old(self).shapes().has(handle_of(b), x, y, z)
                },
                Err(e) => if a >= old(self).shapes()@.len() {
                    e == Error::InvalidShapeHandle(a)
                } else if b >= old(self).shapes()@.len() {
                    e == Error::InvalidShapeHandle(b)
                } else {
                    e == Error::OutOfRange && old(self).shapes()@.len() == u32::MAX
                },
            },
    {
        proof {
            crate::arena::lemma_keeps_self(self.shapes@);
        }
        let (a, b) = match self.pair(a, b) {
            Ok(p) => p,
            Err(e) => {
                return Err(e);
            },
        };
        let made = a.intersection(&mut self.shapes, &b);
        Ok(made.idx as u32)
    }

    /// `shape_difference`: the shape of the unit cubes of the first shape
    /// that the second does not hold
    pub fn shape_difference(&mut self, a: u32, b: u32) -> (r: Result<u32, Error>)
        requires
            old(self).wf(),
        ensures
            final(self).wf(),
            final(self).same_but_shapes(old(self)),
            keeps(old(self).shapes()@, final(self).shapes()@),
            match r {
                Ok(h) => {
                    &&& a < old(self).shapes()@.len()
                    &&& b < old(self).shapes()@.len()
                    &&& h < final(self).shapes()@.len()
                    &&& final(self).shapes().prisms(handle_of(h)) == if old(self).shapes().prisms(
                        handle_of(a),
                    ).len() == 0 || old(self).shapes().prisms(handle_of(b)).len() == 0 {
                        old(self).shapes().prisms(handle_of(a))
                    } else {
                        crate::shape::minus_all(
                            old(self).shapes().prisms(handle_of(a)),
                            old(self).shapes().prisms(handle_of(b)),
                        )
                    }
                    &&& forall|x: int, y: int, z: int|
                        #[trigger] final(self).shapes().has(handle_of(h), x, y, z) <==> old(self).shapes().has(handle_of(a), x, y, z) && !old(self).shapes().has(handle_of(b), x, y, z)
                },
                Err(e) => if a >= old(self).shapes()@.len() {
                    e == Error::InvalidShapeHandle(a)
                } else if b >= old(self).shapes()@.len() {
                    e == Error::InvalidShapeHandle(b)
                } else {
                    e == Error::OutOfRange && old(self).shapes()@.len() == u32::MAX
                },
            },
    {
        proof {
            crate::arena::lemma_keeps_self(self.shapes@);
        }
        let (a, b) = match self.pair(a, b) {
            Ok(p) => p,
            Err(e) => {
                return Err(e);
            },
        };
        let made = a.difference(&mut self.shapes, &b);
        Ok(made.idx as u32)
    }

    /// The two shapes of an operation, the first before the second, where
    /// the store has room for its result
    fn pair(&self, a: u32, b: u32) -> (r: Result<(ShapeRef, ShapeRef), Error>)
        ensures
            match r {
                Ok((x, y)) => x.idx == a && y.idx == b && a < self.shapes()@.len() && b
                    < self.shapes()@.len() && self.shapes()@.len() < u32::MAX,
                Err(e) => if a >= self.shapes()@.len() {
                    e == Error::InvalidShapeHandle(a)
                } else if b >= self.shapes()@.len() {
                    e == Error::InvalidShapeHandle(b)
                } else {
                    e == Error::OutOfRange && self.shapes()@.len() >= u32::MAX
                },
            },
    {
        let x = match self.shape(a) {
            Ok(s) => s,
            Err(e) => {
                return Err(e);
            },
        };
        let y = match self.shape(b) {
            Ok(s) => s,
            Err(e) => {
                return Err(e);
            },
        };
        if self.shapes.len() >= u32::MAX as usize {
            return Err(Error::OutOfRange);
        }
        Ok((x, y))
    }

    /// `render`: adds the faces of a shape in a colour to those to be drawn
    pub fn render(&mut self, handle: u32, color: Paint) -> (r: Result<(), Error>)
        requires
            old(self).wf(),
        ensures
            final(self).wf(),
            keeps(old(self).shapes()@, final(self).shapes()@),
            final(self).shapes()@.len() == old(self).shapes()@.len(),
            final(self).logs() == old(self).logs(),
            final(self).next_id() == old(self).next_id(),
            final(self).canvas() == old(self).canvas(),
            match r {
                Ok(()) => handle < old(self).shapes()@.len() && final(self).faces() == old(self).faces() + shape_faces(
                    old(self).shapes().prisms(handle_of(handle)),
                    color,
                ),
                Err(e) => final(self).faces() == old(self).faces() && if handle >= old(self).shapes()@.len() {
                    e == Error::InvalidShapeHandle(handle)
                } else {
                    e == Error::OutOfRange && (!(color.alpha == Alpha::Partial ==> has_room_behind(
                        old(self).shapes().prisms(handle_of(handle)),
                    )) || !all_on_grid(
                        shape_faces(
                            old(self).shapes().prisms(handle_of(handle)),
                            color,
                        ),
                    ))
                },
            },
    {
        proof {
            crate::arena::lemma_keeps_self(self.shapes@);
        }
        let shape = match self.shape(handle) {
            Ok(s) => s,
            Err(e) => {
                return Err(e);
            },
        };
        if !shape.can_render(&self.shapes, color) {
            return Err(Error::OutOfRange);
        }
        let mut new_faces = shape.render(&mut self.shapes, color);
        if !all_fit(&new_faces) {
            return Err(Error::OutOfRange);
        }
        let ghost before = self.faces@;
        let ghost added = new_faces@;
        self.faces.append(&mut new_faces);
        proof {
            assert forall|k: int| 0 <= k < self.faces@.len() implies (#[trigger] self.faces@[k]).on_grid() by {
                if k < before.len() {
                    assert(self.faces@[k] == before[k]);
                } else {
                    assert(self.faces@[k] == added[k - before.len()]);
                }
            }
        }
        Ok(())
    }

    /// Puts the faces on the canvas, those of higher layers first, each
    /// layer in the order in which its faces were rendered; no face is left
    /// to be drawn
    pub fn compose(&mut self)
        requires
            old(self).wf(),
        ensures
            final(self).wf(),
            final(self).shapes() == old(self).shapes(),
            final(self).logs() == old(self).logs(),
            final(self).next_id() == old(self).next_id(),
            final(self).faces() == Seq::<Face>::empty(),
            final(self).canvas().shader() == old(self).canvas().shader(),
            exists|sorted: Seq<Face>|
                {
                    &&& keys_descend(sorted)
                    &&& sorted.len() == old(self).faces().len()
                    &&& forall|key: int|
                        crate::face::with_key(sorted, key) == crate::face::with_key(
                            old(self).faces(),
                            key,
                        )
                    &&& final(self).canvas()@ == #[trigger] put_faces(
                        old(self).canvas()@,
                        sorted,
                        sorted.len() as int,
                        old(self).canvas().shader(),
                    )
                },
    {
        let ghost start = self.canvas@;
        let ghost shader = self.canvas.shader();
        let ghost given = self.faces@;
        sort_faces(&mut self.faces);
        let ghost sorted = self.faces@;
        proof {
            assert forall|i: int| 0 <= i < sorted.len() implies (#[trigger] sorted[i]).on_grid() by {
                lemma_kept_by_sort(given, sorted, i);
            }
        }
        let n = self.faces.len();
        let mut i: usize = 0;
        while i < n
            invariant
                n == self.faces@.len(),
                i <= n,
                self.faces@ == sorted,
                all_on_grid(sorted),
                keys_descend(sorted),
                sorted.len() == given.len(),
                forall|key: int|
                    crate::face::with_key(sorted, key) == crate::face::with_key(given, key),
                self.canvas.shader() == shader,
                self.canvas@ == put_faces(start, sorted, i as int, shader),
                self.shapes == old(self).shapes,
                self.logs == old(self).logs,
                self.obj_id == old(self).obj_id,
            decreases n - i,
        {
            let face = self.faces[i];
            assert(sorted[i as int].on_grid());
            self.canvas.render_face(&face);
            i += 1;
        }
        self.faces = Vec::new();
        proof {
            assert(given == old(self).faces());
            assert(start == old(self).canvas()@);
            assert(shader == old(self).canvas().shader());
            assert(keys_descend(sorted));
            assert(sorted.len() == old(self).faces().len());
            assert(forall|key: int|
                crate::face::with_key(sorted, key) == crate::face::with_key(old(self).faces(), key));
            assert(self.canvas()@ == put_faces(
                old(self).canvas()@,
                sorted,
                sorted.len() as int,
                old(self).canvas().shader(),
            ));
        }
    }

    /// The canvas, to read what lies on its cells
    pub fn get_canvas(&self) -> (r: &Canvas)
        ensures
            *r == self.canvas(),
    {
        &self.canvas
    }

    /// Render everything put on the canvas so far into layers, with what
    /// compositing gives for each cell that holds something, rising
    pub fn render_layers(&self, blends: &Vec<Blend>) -> (r: Vec<Layer>)
        requires
            blends@.len() == self.canvas()@.dom().len(),
        ensures
            exists|cells: Seq<(i32, i32)>|
                {
                    &&& crate::grid::cells_rise(cells)
                    &&& cells.to_set() == self.canvas()@.dom()
                    &&& cells.len() == blends@.len()
                    &&& crate::poly::bands(r@) == crate::canvas::in_order(
                        #[trigger] crate::canvas::render_cells(
                            self.canvas()@,
                            self.canvas().shader(),
                            cells,
                            blends@,
                            cells.len() as int,
                        ),
                    )
                },
    {
        self.canvas.render_layers(blends)
    }
}

/// Whether every face has its cells within the grid
fn all_fit(faces: &Vec<Face>) -> (r: bool)
    ensures
        r == all_on_grid(faces@),
{
    let n = faces.len();
    let mut i: usize = 0;
    while i < n
        invariant
            n == faces@.len(),
            i <= n,
            forall|k: int| 0 <= k < i ==> (#[trigger] faces@[k]).on_grid(),
        decreases n - i,
    {
        if !faces[i].fits_grid() {
            return false;
        }
        i += 1;
    }
    true
}

/// A face that a sort hands out was among the faces that it took.
pub proof fn lemma_kept_by_sort(given: Seq<Face>, sorted: Seq<Face>, i: int)
    requires
        0 <= i < sorted.len(),
        forall|key: int| crate::face::with_key(sorted, key) == crate::face::with_key(given, key),
    ensures
        given.contains(sorted[i]),
{
    let f = sorted[i];
    let key = f.key();
    let pred = |g: Face| g.key() == key;
    let a = sorted.filter(pred);
    let b = given.filter(pred);
    assert(a == crate::face::with_key(sorted, key));
    assert(b == crate::face::with_key(given, key));
    assert(a == b);
    sorted.lemma_filter_contains(pred, i);
    given.lemma_filter_contains_rev(pred, f);
}

} // verus!
