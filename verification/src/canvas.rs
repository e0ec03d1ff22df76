use vstd::prelude::*;

use crate::color::{Alpha, Paint, Rgba};
use crate::face::{Face, Side};
use crate::grid::{cells_rise, position, Grid2, VecMap};
use crate::math::Vec3;
use crate::poly::{add_cell, bands, lemma_find, Band, Layer};

verus! {

/// A face that lets light through, as it lies on a cell: its colour, its
/// direction, and whether the shader of that direction tints it
#[derive(Debug, Clone, Copy, PartialEq, Eq)]
pub struct Glaze {
    pub color: Paint,
    pub face: Side,
    pub tinted: bool,
}

/// What lies on one cell of the canvas
#[derive(Debug, Clone, PartialEq, Eq)]
pub struct CanvasPoint {
    /// Direction of the face at this point on the opaque color.
    ///
    /// This is used to apply shading to the opaque layer
    pub opaque_face: Side,
    /// Direction of the top most alpha face at this point.
    ///
    /// This is used to apply shading to the alpha layer
    pub alpha_face: Side,
    /// Opaque color at the bottom of the layer, None while there is none
    pub opaque_color: Option<Paint>,
    /// The faces that let light through, the topmost first
    ///
    /// The blended colour of the cell is the first of them over the
    /// second, each later one with its tint, and so on
    pub alpha: Vec<Glaze>,
}

/// The model of a `CanvasPoint`
pub struct PointView {
    pub opaque_face: Side,
    pub alpha_face: Side,
    pub opaque_color: Option<Paint>,
    pub alpha: Seq<Glaze>,
}

impl View for CanvasPoint {
    type V = PointView;

    open spec fn view(&self) -> PointView {
        PointView {
            opaque_face: self.opaque_face,
            alpha_face: self.alpha_face,
            opaque_color: self.opaque_color,
            alpha: self.alpha@,
        }
    }
}

/// The shader colour for a face direction: X for the front, Y for the side,
/// Z for the top
pub open spec fn shader_for(shader: Vec3<Paint>, face: Side) -> Paint {
    match face {
        Side::Front => shader.0,
        Side::Side => shader.1,
        Side::Top => shader.2,
    }
}

/// The point that a face makes on an empty cell: a solid colour becomes the
/// opaque colour; any other colour becomes the topmost of the colours that
/// let light through, without tint
pub open spec fn first_point(face: Side, color: Paint) -> PointView {
    if color.alpha == Alpha::Solid {
        PointView { opaque_face: face, alpha_face: face, opaque_color: Some(color), alpha: Seq::empty() }
    } else {
        PointView {
            opaque_face: face,
            alpha_face: face,
            opaque_color: None,
            alpha: seq![Glaze { color, face, tinted: false }],
        }
    }
}

/// The point after a further face came behind what the cell holds: nothing
/// changes once the cell has an opaque colour, or for a clear colour; a
/// colour that lets light through goes below the others, tinted where the
/// shader of its direction is not clear; a solid colour becomes the opaque
/// colour
pub open spec fn behind(p: PointView, face: Side, color: Paint, shader: Vec3<Paint>) -> PointView {
    if p.opaque_color is Some {
        p
    } else if color.alpha == Alpha::Clear {
        p
    } else if color.alpha == Alpha::Partial {
        PointView {
            alpha: p.alpha.push(
                Glaze { color, face, tinted: shader_for(shader, face).alpha != Alpha::Clear },
            ),
            ..p
        }
    } else {
        PointView { opaque_color: Some(color), opaque_face: face, ..p }
    }
}

/// The cell after a face was put on it
pub open spec fn put(cell: Option<PointView>, face: Side, color: Paint, shader: Vec3<Paint>) -> PointView {
    match cell {
        Some(p) => behind(p, face, color, shader),
        None => first_point(face, color),
    }
}

/// The cells after a face was put on `(u, v)`
pub open spec fn put_at(
    cells: Map<(i32, i32), PointView>,
    c: (i32, i32),
    face: Side,
    color: Paint,
    shader: Vec3<Paint>,
) -> Map<(i32, i32), PointView> {
    cells.insert(
        c,
        put(
            if cells.contains_key(c) {
                Some(cells[c])
            } else {
                None
            },
            face,
            color,
            shader,
        ),
    )
}

/// The cells after `face` was put on its two cells, the first before the
/// second
pub open spec fn put_face(cells: Map<(i32, i32), PointView>, face: Face, shader: Vec3<Paint>) -> Map<
    (i32, i32),
    PointView,
> {
    let c = face.cells();
    put_at(
        put_at(cells, (c.0 as i32, c.1 as i32), face.dir, face.color, shader),
        (c.2 as i32, c.3 as i32),
        face.dir,
        face.color,
        shader,
    )
}

fn shader_of(shader: &Vec3<Paint>, face: Side) -> (r: Paint)
    ensures
        r == shader_for(*shader, face),
{
    match face {
        Side::Front => shader.0,
        Side::Side => shader.1,
        Side::Top => shader.2,
    }
}

impl CanvasPoint {
    /// The point that a face makes on an empty cell
    pub fn new(face: Side, color: Paint) -> (r: CanvasPoint)
        ensures
            r@ == first_point(face, color),
    {
        let mut alpha = Vec::new();
        if let Alpha::Solid = color.alpha {
            assert(alpha@ =~= Seq::<Glaze>::empty());
            CanvasPoint { opaque_face: face, alpha_face: face, opaque_color: Some(color), alpha }
        } else {
            alpha.push(Glaze { color, face, tinted: false });
            assert(alpha@ =~= seq![Glaze { color, face, tinted: false }]);
            CanvasPoint { opaque_face: face, alpha_face: face, opaque_color: None, alpha }
        }
    }

    /// Puts a further face behind what the cell holds
    pub fn add_color(&mut self, face: Side, color: Paint, shader: &Vec3<Paint>)
        ensures
            final(self)@ == behind(old(self)@, face, color, *shader),
    {
        // if self already has a base opaque color,
        // anything added below will be invisible
        if self.opaque_color.is_some() {
            return ;
        }
        match color.alpha {
            Alpha::Clear => {
                // transparent color, skip
            },
            Alpha::Partial => {
                // blend with current color (self over shade over color)
                let tinted = match shader_of(shader, face).alpha {
                    Alpha::Clear => false,
                    _ => true,
                };
                self.alpha.push(Glaze { color, face, tinted });
            },
            Alpha::Solid => {
                self.opaque_color = Some(color);
                self.opaque_face = face;
            },
        }
    }

    /// Whether the cell shows a colour that lets light through: the topmost
    /// of them is not clear
    pub open spec fn shows_alpha(p: PointView) -> bool {
        p.alpha.len() > 0 && p.alpha[0].color.alpha != Alpha::Clear
    }

    /// Whether the cell shows a colour that lets light through
    pub fn has_alpha(&self) -> (r: bool)
        ensures
            r == Self::shows_alpha(self@),
    {
        if self.alpha.len() == 0 {
            return false;
        }
        match self.alpha[0].color.alpha {
            Alpha::Clear => false,
            _ => true,
        }
    }
}

/// Grid for rendering faces
#[derive(Debug)]
pub struct Canvas {
    /// The base shader in the config
    ///
    /// The shaders are used here to shade the alpha-composited faces,
    /// then passed to the next step to shade opaque and top-most alpha faces
    shader: Vec3<Paint>,
    /// Direction of the face at each grid position
    grid: Grid2<CanvasPoint>,
}

impl View for Canvas {
    type V = Map<(i32, i32), PointView>;

    closed spec fn view(&self) -> Map<(i32, i32), PointView> {
        Map::new(|c: (i32, i32)| self.grid@.contains_key(c), |c: (i32, i32)| self.grid@[c]@)
    }
}

impl Canvas {
    /// The shader colours, for the directions X, Y and Z
    pub closed spec fn shader(&self) -> Vec3<Paint> {
        self.shader
    }

    /// The empty canvas with the given shader colours
    pub fn new(shader: Vec3<Paint>) -> (r: Canvas)
        ensures
            r.shader() == shader,
            r@ == Map::<(i32, i32), PointView>::empty(),
    {
        let r = Canvas { shader, grid: Grid2::new() };
        assert(r@ =~= Map::<(i32, i32), PointView>::empty());
        r
    }

    /// The shader colours, for the directions X, Y and Z
    pub fn get_shader(&self) -> (r: Vec3<Paint>)
        ensures
            r == self.shader(),
    {
        self.shader
    }

    /// Replaces the shader colours
    pub fn set_shader(&mut self, shader: Vec3<Paint>)
        ensures
            final(self).shader() == shader,
            final(self)@ == old(self)@,
    {
        self.shader = shader;
    }

    /// Render one face onto the canvas
    pub fn render_face(&mut self, face: &Face)
        requires
            face.on_grid(),
        ensures
            final(self).shader() == old(self).shader(),
            final(self)@ == put_face(old(self)@, *face, old(self).shader()),
    {
        let (u1, v1, u2, v2) = face.get_uvs();
        self.render_face_at(face, u1, v1);
        self.render_face_at(face, u2, v2);
    }

    fn render_face_at(&mut self, face: &Face, u: i32, v: i32)
        ensures
            final(self).shader() == old(self).shader(),
            final(self)@ == put_at(old(self)@, (u, v), face.dir, face.color, old(self).shader()),
    {
        let ghost before = self@;
        match self.grid.get_mut(u, v) {
            Some(point) => {
                // if the grid already has a face above it,try
                // to compose the color
                point.add_color(face.dir, face.color, &self.shader);
            },
            None => {
                self.grid.set(u, v, CanvasPoint::new(face.dir, face.color));
            },
        };
        assert(self@ =~= put_at(before, (u, v), face.dir, face.color, self.shader));
    }

    /// The cells that hold something, rising by `u`, then by `v`
    pub fn cells(&self) -> (r: Vec<(i32, i32)>)
        ensures
            cells_rise(r@),
            r@.to_set() == self@.dom(),
    {
        let r = self.grid.cells();
        assert(self@.dom() =~= self.grid@.dom());
        r
    }

    /// What lies on the cell `(u, v)`
    pub fn point(&self, u: i32, v: i32) -> (r: Option<&CanvasPoint>)
        ensures
            match r {
                Some(p) => self@.contains_key((u, v)) && p@ == self@[(u, v)],
                None => !self@.contains_key((u, v)),
            },
    {
        self.grid.get(u, v)
    }
}

/// What compositing gives for the colours of a cell that let light through:
/// the blended colour, and the colour of the shader of the topmost face with
/// its alpha scaled by the alpha of that face
#[derive(Debug, Clone, Copy, PartialEq, Eq)]
pub struct Blend {
    pub color: Rgba,
    pub shader: Rgba,
}

/// The four lists of bands of a `LayerBuilder`
pub struct Bands {
    pub opaque: Seq<Band>,
    pub opaque_shaders: Seq<Band>,
    pub alpha: Seq<Band>,
    pub alpha_shaders: Seq<Band>,
}

/// The bands after the cell `c` was rendered. A cell with an opaque colour
/// goes to the opaque band of that colour and, where the shader of its
/// opaque face is not clear, to the band of that shader. A cell that shows
/// a colour that lets light through goes to the alpha band of its blended
/// colour and, where the shader of its alpha face is not clear, to the band
/// of the blended shader.
pub open spec fn render_cell(b: Bands, shader: Vec3<Paint>, c: (i32, i32), p: PointView, blend: Blend) -> Bands {
    let opaque_shader = shader_for(shader, p.opaque_face);
    let alpha_shader = shader_for(shader, p.alpha_face);
    Bands {
        opaque: if p.opaque_color is Some {
            add_cell(b.opaque, p.opaque_color->0.rgba, c)
        } else {
            b.opaque
        },
        opaque_shaders: if p.opaque_color is Some && opaque_shader.alpha != Alpha::Clear {
            add_cell(b.opaque_shaders, opaque_shader.rgba, c)
        } else {
            b.opaque_shaders
        },
        alpha: if CanvasPoint::shows_alpha(p) {
            add_cell(b.alpha, blend.color, c)
        } else {
            b.alpha
        },
        alpha_shaders: if CanvasPoint::shows_alpha(p) && alpha_shader.alpha != Alpha::Clear {
            add_cell(b.alpha_shaders, blend.shader, c)
        } else {
            b.alpha_shaders
        },
    }
}

/// The bands after the first `n` of the cells `cells` were rendered, each
/// with its blend
pub open spec fn render_cells(
    points: Map<(i32, i32), PointView>,
    shader: Vec3<Paint>,
    cells: Seq<(i32, i32)>,
    blends: Seq<Blend>,
    n: int,
) -> Bands
    decreases n,
{
    if n <= 0 {
        Bands {
            opaque: Seq::empty(),
            opaque_shaders: Seq::empty(),
            alpha: Seq::empty(),
            alpha_shaders: Seq::empty(),
        }
    } else {
        render_cell(
            render_cells(points, shader, cells, blends, n - 1),
            shader,
            cells[n - 1],
            points[cells[n - 1]],
            blends[n - 1],
        )
    }
}

/// The bands in the order of the output: opaque, opaque shaders, alpha,
/// alpha shaders
pub open spec fn in_order(b: Bands) -> Seq<Band> {
    b.opaque + b.opaque_shaders + b.alpha + b.alpha_shaders
}

/// Adds the cell `(u, v)` to the layer of the colour `k`
fn add_to(map: &mut VecMap<Layer>, k: Rgba, u: i32, v: i32)
    ensures
        bands(final(map)@) == add_cell(bands(old(map)@), k, (u, v)),
{
    let ghost before = map@;
    proof {
        lemma_find(before, k);
    }
    let grid = map.get_mut(&k);
    grid.set(u, v, ());
    proof {
        let i = position(before, k);
        let now = bands(map@);
        let want = add_cell(bands(before), k, (u, v));
        assert(now.len() == want.len());
        assert forall|j: int| 0 <= j < now.len() implies now[j] == want[j] by {
            if j == i {
                if i < before.len() {
                    assert(map@[i].grid@.dom() =~= before[i].grid@.dom().insert((u, v)));
                } else {
                    assert(map@[i].grid@.dom() =~= Set::<(i32, i32)>::empty().insert((u, v)));
                }
            } else {
                assert(map@[j] == before[j]);
            }
        }
        assert(now =~= want);
    }
}

/// Render faces into 2D colors
#[derive(Debug)]
pub struct LayerBuilder {
    /// The shader colors as they were given
    shader: Vec3<Paint>,
    /// The opaque color layers
    opaque: VecMap<Layer>,
    /// Shaders for the opaque layers
    opaque_shaders: VecMap<Layer>,
    /// The alpha-blended color layers, above the opaque layers
    alpha: VecMap<Layer>,
    /// The alpha-blended shader layers
    alpha_shaders: VecMap<Layer>,
}

impl View for LayerBuilder {
    type V = Bands;

    closed spec fn view(&self) -> Bands {
        Bands {
            opaque: bands(self.opaque@),
            opaque_shaders: bands(self.opaque_shaders@),
            alpha: bands(self.alpha@),
            alpha_shaders: bands(self.alpha_shaders@),
        }
    }
}

impl LayerBuilder {
    /// The shader colours
    pub closed spec fn shader(&self) -> Vec3<Paint> {
        self.shader
    }

    /// The builder without layers
    pub fn new(shader: Vec3<Paint>) -> (r: LayerBuilder)
        ensures
            r.shader() == shader,
            r@ == render_cells(Map::empty(), shader, Seq::empty(), Seq::empty(), 0),
    {
        let r = LayerBuilder {
            shader,
            opaque: VecMap::new(),
            opaque_shaders: VecMap::new(),
            alpha: VecMap::new(),
            alpha_shaders: VecMap::new(),
        };
        assert(bands(r.opaque@) =~= Seq::<Band>::empty());
        assert(bands(r.opaque_shaders@) =~= Seq::<Band>::empty());
        assert(bands(r.alpha@) =~= Seq::<Band>::empty());
        assert(bands(r.alpha_shaders@) =~= Seq::<Band>::empty());
        r
    }

    /// Render the point into color layers
    ///
    /// Each (u, v) point should only be rendered once
    pub fn render(&mut self, u: i32, v: i32, point: &CanvasPoint, blend: Blend)
        ensures
            final(self).shader() == old(self).shader(),
            final(self)@ == render_cell(old(self)@, old(self).shader(), (u, v), point@, blend),
    {
        // the shader need to be composed with the base color's alpha
        // for example, in the extreme case,
        // if the base color is transparent, then the shader should
        // also not be applied
        if let Some(color) = point.opaque_color {
            add_to(&mut self.opaque, color.rgba, u, v);
            // set opaque shader
            let shader_color = shader_of(&self.shader, point.opaque_face);
            match shader_color.alpha {
                Alpha::Clear => {},
                _ => {
                    add_to(&mut self.opaque_shaders, shader_color.rgba, u, v);
                },
            }
        }
        if point.has_alpha() {
            add_to(&mut self.alpha, blend.color, u, v);
            // set alpha shader
            let shader_color = shader_of(&self.shader, point.alpha_face);
            // if the shader is transparent, we don't need to apply
            match shader_color.alpha {
                Alpha::Clear => {},
                _ => {
                    add_to(&mut self.alpha_shaders, blend.shader, u, v);
                },
            }
        }
    }

    /// The layers in the order of the output: opaque, opaque shaders, alpha,
    /// alpha shaders
    pub fn build(self) -> (r: Vec<Layer>)
        ensures
            bands(r@) == in_order(self@),
    {
        // The output will be smaller if we compose (blend) all layers.
        // However, there might be gaps between polygons at shape edges.
        // So, we separate the opaque, alpha, and shader layers to prevent
        // that. All alpha layers are blended together to keep the output small.
        let mut out = self.opaque.into_vec();
        let mut b = self.opaque_shaders.into_vec();
        let mut c = self.alpha.into_vec();
        let mut d = self.alpha_shaders.into_vec();
        let ghost s1 = out@;
        let ghost s2 = b@;
        let ghost s3 = c@;
        let ghost s4 = d@;
        out.append(&mut b);
        out.append(&mut c);
        out.append(&mut d);
        assert(out@ =~= s1 + s2 + s3 + s4);
        assert(bands(out@) =~= bands(s1) + bands(s2) + bands(s3) + bands(s4));
        out
    }
}

impl Canvas {
    /// Convert the rendered data into layers by color
    ///
    /// `blends` holds, for each cell that holds something, rising by `u`,
    /// then by `v`, what compositing gives for it.
    pub fn render_layers(&self, blends: &Vec<Blend>) -> (r: Vec<Layer>)
        requires
            blends@.len() == self@.dom().len(),
        ensures
            exists|cells: Seq<(i32, i32)>|
                {
                    &&& cells_rise(cells)
                    &&& cells.to_set() == self@.dom()
                    &&& cells.len() == blends@.len()
                    &&& bands(r@) == in_order(
                        #[trigger] render_cells(self@, self.shader(), cells, blends@, cells.len() as int),
                    )
                },
    {
        let cells = self.grid.cells();
        assert(self@.dom() =~= self.grid@.dom());
        let mut builder = LayerBuilder::new(self.shader);
        let n = cells.len();
        let mut i: usize = 0;
        while i < n
            invariant
                n == cells@.len(),
                n == blends@.len(),
                i <= n,
                cells@.to_set() == self.grid@.dom(),
                self@.dom() == self.grid@.dom(),
                builder.shader() == self.shader(),
                builder@ == render_cells(self@, self.shader(), cells@, blends@, i as int),
            decreases n - i,
        {
            let (u, v) = cells[i];
            assert(cells@.to_set().contains(cells@[i as int]));
            match self.grid.get(u, v) {
                Some(point) => {
                    builder.render(u, v, point, blends[i]);
                },
                None => {},
            }
            i += 1;
        }
        builder.build()
    }
}

} // verus!
