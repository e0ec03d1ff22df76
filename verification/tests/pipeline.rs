use prism_lib::builtin::{finish_messages, push_decimal, Builtin, Error};
use prism_lib::canvas::{Blend, Canvas, CanvasPoint, Glaze, LayerBuilder};
use prism_lib::color::{Alpha, Paint, Rgba};
use prism_lib::face::{Face, Side};
use prism_lib::grid::{Grid2, VecMap};
use prism_lib::math::Vec3;
use prism_lib::poly::{
    create_vertices, create_vertices_with_optimized, layers_fit, polygons_from_layers, Dir, Layer,
    Polygon, Seg, Tree3, TreeSide, TreeUV,
};
use prism_lib::tree::default_shader;

const RED: u32 = 0xff00_00ff;

fn red() -> Paint {
    Paint::new(10, Rgba::new(RED), Alpha::Solid)
}

fn blue_half() -> Paint {
    Paint::new(11, Rgba::new(0x0000_ff80), Alpha::Partial)
}

fn no_blend() -> Blend {
    Blend { color: Rgba::new(0), shader: Rgba::new(0) }
}

fn layer_cells(layer: &Layer) -> Vec<(i32, i32)> {
    layer.grid.cells()
}

fn sorted(mut v: Vec<(i64, i64)>) -> Vec<(i64, i64)> {
    v.sort();
    v
}

#[test]
fn rgba_channels_and_text() {
    let c = Rgba::from_bytes([0x12, 0xab, 0x03, 0xff]);
    assert_eq!(c.to_u32(), 0x12ab_03ff);
    assert_eq!(c.to_bytes(), [0x12, 0xab, 0x03, 0xff]);
    assert_eq!(c.to_string(), "#12ab03");
    assert_eq!(Rgba::from_bytes([0x12, 0xab, 0x03, 0x7f]).to_string(), "#12ab037f");
    assert_eq!(Rgba::from_bytes([0x12, 0xab, 0x03, 0x00]).to_string(), "#00000000");
    assert_eq!(Rgba::new(RED).to_string(), "#ff0000");
    assert!(Rgba::new(0x1234_5600).is_transparent());
    assert!(!Rgba::new(0x0000_0001).is_transparent());
}

#[test]
fn rgba_agrees_with_the_colour_parser() {
    let c: csscolorparser::Color = "rgba(18, 171, 3, 0.5)".parse().unwrap();
    let packed = Rgba::from_bytes(c.to_rgba8());
    assert_eq!(packed.to_bytes(), [18, 171, 3, 128]);
    assert_eq!(packed.to_string(), "#12ab0380");
}

#[test]
fn grid_set_get_remove() {
    let mut g: Grid2<u8> = Grid2::new();
    assert!(g.is_empty());
    g.set(1, 2, 7);
    g.set(0, 5, 8);
    g.set(1, 2, 9);
    assert_eq!(g.len(), 2);
    assert_eq!(g.get(1, 2), Some(&9));
    assert_eq!(g.get(2, 1), None);
    assert_eq!(g.cells(), vec![(0, 5), (1, 2)]);
    assert_eq!(g.remove(0, 5), Some(8));
    assert_eq!(g.remove(0, 5), None);
    assert_eq!(g.len(), 1);
}

#[test]
fn grid_remove_one_takes_the_least_cell() {
    let mut g: Grid2<u8> = Grid2::new();
    g.set(1, -2, 1);
    g.set(-1, 7, 2);
    g.set(1, -3, 3);
    g.set(-1, 6, 4);
    assert_eq!(g.remove_one(), Some((-1, 6, 4)));
    assert_eq!(g.remove_one(), Some((-1, 7, 2)));
    assert_eq!(g.remove_one(), Some((1, -3, 3)));
    assert_eq!(g.remove_one(), Some((1, -2, 1)));
    assert_eq!(g.remove_one(), None);
    assert!(g.is_empty());
}

#[test]
fn grid_get_mut_changes_the_value_in_place() {
    let mut g: Grid2<u8> = Grid2::new();
    g.set(3, 4, 1);
    assert!(g.get_mut(0, 0).is_none());
    *g.get_mut(3, 4).unwrap() = 5;
    assert_eq!(g.get(3, 4), Some(&5));
    assert_eq!(g.len(), 1);
}

#[test]
fn vec_map_keeps_the_order_of_first_use() {
    let mut m: VecMap<Layer> = VecMap::new();
    assert!(m.is_empty());
    m.get_mut(&Rgba::new(2)).set(0, 0, ());
    m.get_mut(&Rgba::new(1)).set(1, 1, ());
    m.get_mut(&Rgba::new(2)).set(2, 2, ());
    assert_eq!(m.len(), 2);
    let layers = m.into_vec();
    assert_eq!(layers[0].color, Rgba::new(2));
    assert_eq!(layer_cells(&layers[0]), vec![(0, 0), (2, 2)]);
    assert_eq!(layers[1].color, Rgba::new(1));
    assert_eq!(layer_cells(&layers[1]), vec![(1, 1)]);
}

#[test]
fn canvas_point_first_and_later_colours() {
    let shader = default_shader();
    let mut p = CanvasPoint::new(Side::Top, blue_half());
    assert_eq!(p.opaque_color, None);
    assert_eq!(p.alpha, vec![Glaze { color: blue_half(), face: Side::Top, tinted: false }]);
    assert!(p.has_alpha());
    // a clear colour changes nothing
    p.add_color(Side::Front, Paint::new(1, Rgba::new(0), Alpha::Clear), &shader);
    assert_eq!(p.alpha.len(), 1);
    // a further colour that lets light through goes below, tinted by the X shader
    p.add_color(Side::Front, blue_half(), &shader);
    assert_eq!(p.alpha[1], Glaze { color: blue_half(), face: Side::Front, tinted: true });
    // the Z shader is clear and does not tint
    p.add_color(Side::Top, blue_half(), &shader);
    assert_eq!(p.alpha[2], Glaze { color: blue_half(), face: Side::Top, tinted: false });
    // a solid colour becomes the opaque colour and closes the cell
    p.add_color(Side::Side, red(), &shader);
    assert_eq!(p.opaque_color, Some(red()));
    assert_eq!(p.opaque_face, Side::Side);
    assert_eq!(p.alpha_face, Side::Top);
    let closed = p.clone();
    p.add_color(Side::Top, blue_half(), &shader);
    p.add_color(Side::Top, Paint::new(12, Rgba::new(0x00ff_00ff), Alpha::Solid), &shader);
    assert_eq!(p, closed);
}

#[test]
fn canvas_point_of_a_solid_colour_has_no_alpha() {
    let p = CanvasPoint::new(Side::Front, red());
    assert_eq!(p.opaque_color, Some(red()));
    assert_eq!(p.opaque_face, Side::Front);
    assert!(p.alpha.is_empty());
    assert!(!p.has_alpha());
    let clear = CanvasPoint::new(Side::Front, Paint::new(1, Rgba::new(0), Alpha::Clear));
    assert_eq!(clear.alpha.len(), 1);
    assert!(!clear.has_alpha());
}

#[test]
fn canvas_render_face_covers_two_cells() {
    let mut canvas = Canvas::new(default_shader());
    canvas.render_face(&Face::top(red(), Vec3(0, 0, 0)));
    assert_eq!(canvas.cells(), vec![(0, 0), (1, 0)]);
    canvas.render_face(&Face::front(red(), Vec3(0, 0, 0)));
    canvas.render_face(&Face::side(red(), Vec3(0, 0, 0)));
    assert_eq!(canvas.cells(), vec![(0, 0), (0, 1), (0, 2), (1, 0), (1, 1), (1, 2)]);
    assert_eq!(canvas.point(0, 1).unwrap().opaque_face, Side::Front);
    assert_eq!(canvas.point(1, 2).unwrap().opaque_face, Side::Side);
    assert!(canvas.point(2, 2).is_none());
}

#[test]
fn single_red_cube_gives_one_outline_and_two_shader_outlines() {
    let mut host = Builtin::new();
    let cube = host.shape_from_prism(Vec3(0, 0, 0), Vec3(1, 1, 1)).unwrap();
    host.render(cube, red()).unwrap();
    host.compose();
    let cells = host.get_canvas().cells();
    assert_eq!(cells.len(), 6);
    let blends = vec![no_blend(); cells.len()];
    let layers = host.render_layers(&blends);
    assert_eq!(layers.len(), 3);
    assert_eq!(layers[0].color, Rgba::new(RED));
    assert_eq!(layer_cells(&layers[0]), vec![(0, 0), (0, 1), (0, 2), (1, 0), (1, 1), (1, 2)]);
    assert_eq!(layers[1].color, default_shader().0.rgba);
    assert_eq!(layer_cells(&layers[1]), vec![(0, 1), (0, 2)]);
    assert_eq!(layers[2].color, default_shader().1.rgba);
    assert_eq!(layer_cells(&layers[2]), vec![(1, 1), (1, 2)]);
    assert!(layers_fit(&layers));
    let polygons = polygons_from_layers(layers);
    assert_eq!(polygons.len(), 3);
    // the cube is a hexagon around the grid point (1, 2)
    assert_eq!(polygons[0].color.to_string(), "#ff0000");
    assert_eq!(
        sorted(polygons[0].verts.clone()),
        vec![(0, 1), (0, 3), (1, 0), (1, 4), (2, 1), (2, 3)]
    );
    // the front face is the rhombus on the left, the side face the one on the right
    assert_eq!(polygons[1].color.to_string(), "#00000026");
    assert_eq!(sorted(polygons[1].verts.clone()), vec![(0, 1), (0, 3), (1, 2), (1, 4)]);
    assert_eq!(polygons[2].color.to_string(), "#00000066");
    assert_eq!(sorted(polygons[2].verts.clone()), vec![(1, 2), (1, 4), (2, 1), (2, 3)]);
}

#[test]
fn stacked_cubes_give_one_outline() {
    let mut host = Builtin::new();
    let a = host.shape_from_prism(Vec3(0, 0, 0), Vec3(1, 1, 1)).unwrap();
    let b = host.shape_from_prism(Vec3(0, 0, 1), Vec3(1, 1, 1)).unwrap();
    let both = host.shape_union(a, b).unwrap();
    host.render(both, red()).unwrap();
    host.compose();
    let cells = host.get_canvas().cells();
    // the top of the lower cube is hidden: 5 faces, 10 cells
    assert_eq!(cells.len(), 10);
    let layers = host.render_layers(&vec![no_blend(); cells.len()]);
    assert_eq!(layers.len(), 3);
    let polygons = polygons_from_layers(layers);
    assert_eq!(polygons.len(), 3);
    assert_eq!(polygons[0].verts.len(), 6);
    assert_eq!(
        sorted(polygons[0].verts.clone()),
        vec![(0, -1), (0, 3), (1, -2), (1, 4), (2, -1), (2, 3)]
    );
}

#[test]
fn translucent_cube_over_opaque_cube() {
    let mut host = Builtin::new();
    let lower = host.shape_from_prism(Vec3(0, 0, 0), Vec3(1, 1, 1)).unwrap();
    let upper = host.shape_from_prism(Vec3(0, 0, 1), Vec3(1, 1, 1)).unwrap();
    host.render(lower, red()).unwrap();
    host.render(upper, blue_half()).unwrap();
    host.compose();
    let canvas = host.get_canvas();
    // under the top face of the blue cube there is nothing opaque
    let top = canvas.point(0, -2).unwrap();
    assert_eq!(top.opaque_color, None);
    assert_eq!(top.alpha_face, Side::Top);
    assert_eq!(top.alpha[0].color, blue_half());
    assert!(top.has_alpha());
    // the front face of the blue cube lies over the top face of the red cube
    let over = canvas.point(0, 0).unwrap();
    assert_eq!(over.opaque_color, Some(red()));
    assert_eq!(over.opaque_face, Side::Top);
    assert_eq!(over.alpha_face, Side::Front);
    assert_eq!(
        over.alpha,
        vec![
            Glaze { color: blue_half(), face: Side::Front, tinted: false },
            Glaze { color: blue_half(), face: Side::Top, tinted: false },
        ]
    );
    // the front face of the red cube shows alone
    let below = canvas.point(0, 1).unwrap();
    assert_eq!(below.opaque_color, Some(red()));
    assert!(below.alpha.is_empty());
    // every cell with blue on it goes to the alpha band of its blend
    let cells = canvas.cells();
    let blend = Blend { color: Rgba::new(0x0000_ff80), shader: Rgba::new(0x0000_0013) };
    let layers = host.render_layers(&vec![blend; cells.len()]);
    let colors: Vec<String> = layers.iter().map(|l| l.color.to_string()).collect();
    assert_eq!(colors, vec!["#ff0000", "#00000026", "#00000066", "#0000ff80", "#00000013"]);
    assert_eq!(layer_cells(&layers[3]).len(), 6);
}

#[test]
fn layer_builder_orders_bands() {
    let shader = default_shader();
    let mut builder = LayerBuilder::new(shader);
    let mut both = CanvasPoint::new(Side::Side, blue_half());
    both.add_color(Side::Front, red(), &shader);
    let blend = Blend { color: Rgba::new(0x0000_ff80), shader: Rgba::new(0x0000_0033) };
    builder.render(4, 4, &both, blend);
    builder.render(0, 0, &CanvasPoint::new(Side::Top, red()), blend);
    let layers = builder.build();
    let got: Vec<(String, Vec<(i32, i32)>)> =
        layers.iter().map(|l| (l.color.to_string(), layer_cells(l))).collect();
    assert_eq!(
        got,
        vec![
            ("#ff0000".to_string(), vec![(0, 0), (4, 4)]),
            ("#00000026".to_string(), vec![(4, 4)]),
            ("#0000ff80".to_string(), vec![(4, 4)]),
            ("#00000033".to_string(), vec![(4, 4)]),
        ]
    );
}

#[test]
fn tree_uv_neighbours() {
    let left = TreeUV(2, 4);
    assert!(left.is_pointing_left());
    assert_eq!(left.u(), 2);
    assert_eq!(left.v(), 4);
    assert_eq!(left.uv_top(), (2, 3));
    assert_eq!(left.uv_bottom(), (2, 5));
    assert_eq!(left.uv_side(), (3, 4));
    let right = TreeUV(-1, 4);
    assert!(!right.is_pointing_left());
    assert_eq!(right.uv_side(), (-2, 4));
    assert_eq!(right.step(TreeSide::Top), Some((-1, 3)));
    assert_eq!(TreeUV(0, i32::MIN).step(TreeSide::Top), None);
    assert_eq!(TreeUV(0, i32::MAX).step(TreeSide::Bottom), None);
    assert_eq!(TreeUV(i32::MAX, 1).step(TreeSide::Side), None);
    assert_eq!(TreeUV(i32::MAX, 0).step(TreeSide::Side), Some((i32::MAX - 1, 0)));
}

#[test]
fn make_trees_spans_each_group_of_cells() {
    let mut layer = Layer { color: Rgba::new(RED), grid: Grid2::new() };
    for c in [(0, 0), (0, 1), (1, 0), (5, 5), (5, 6), (9, 9)] {
        layer.grid.set(c.0, c.1, ());
    }
    assert!(layer.fits());
    let trees = layer.make_trees();
    assert!(layer.grid.is_empty());
    assert_eq!(trees.len(), 3);
    assert_eq!(trees[0].len(), 3);
    assert_eq!(trees[0].node(0).uv, TreeUV(0, 0));
    assert_eq!(trees[0].node(0).top, None);
    assert_eq!(trees[0].node(0).bottom, Some(1));
    assert_eq!(trees[0].node(0).side, Some(2));
    assert_eq!(trees[0].node(1).uv, TreeUV(0, 1));
    assert_eq!(trees[0].node(2).uv, TreeUV(1, 0));
    assert_eq!(trees[1].len(), 2);
    assert_eq!(trees[1].node(0).uv, TreeUV(5, 5));
    assert_eq!(trees[2].len(), 1);
    assert!(trees[2].fits());
    let total: usize = trees.iter().map(|t| t.len()).sum();
    assert_eq!(total, 6);
}

#[test]
fn single_cell_outline_is_a_triangle() {
    let left = Tree3::new(0, 0);
    let segs = left.to_segments();
    assert_eq!(
        segs,
        vec![
            Seg { uv: TreeUV(0, 0), vertical: false },
            Seg { uv: TreeUV(0, 0), vertical: true },
            Seg { uv: TreeUV(0, 1), vertical: false },
        ]
    );
    assert_eq!(sorted(create_vertices(&segs)), vec![(0, 1), (1, 0), (1, 2)]);
    let right = Tree3::new(1, 0);
    let segs = right.to_segments();
    assert_eq!(
        segs,
        vec![
            Seg { uv: TreeUV(1, 0), vertical: false },
            Seg { uv: TreeUV(1, 1), vertical: false },
            Seg { uv: TreeUV(0, 0), vertical: true },
        ]
    );
    assert_eq!(sorted(create_vertices(&segs)), vec![(1, 0), (1, 2), (2, 1)]);
}

#[test]
fn too_few_segments_give_no_vertices() {
    let segs = vec![
        Seg { uv: TreeUV(0, 0), vertical: false },
        Seg { uv: TreeUV(0, 0), vertical: true },
    ];
    assert_eq!(create_vertices(&segs), vec![]);
    assert_eq!(create_vertices(&vec![]), vec![]);
}

#[test]
fn segments_follow_by_the_table() {
    let level_left = Seg { uv: TreeUV(0, 0), vertical: false };
    let upright = Seg { uv: TreeUV(0, 0), vertical: true };
    let below = Seg { uv: TreeUV(0, 1), vertical: false };
    assert_eq!(level_left.resolve_next_direction(Dir::NegV, &upright), Some(Dir::PosV));
    assert_eq!(level_left.resolve_next_direction(Dir::PosV, &upright), None);
    assert_eq!(upright.resolve_next_direction(Dir::PosV, &below), Some(Dir::NegV));
    assert_eq!(upright.resolve_next_direction(Dir::NegV, &below), None);
    assert_eq!(upright.resolve_next_direction(Dir::NegV, &level_left), Some(Dir::PosV));
    assert_eq!(below.resolve_next_direction(Dir::NegV, &level_left), Some(Dir::NegV));
    assert_eq!(below.resolve_next_direction(Dir::PosV, &below), None);
    assert!(upright.colinear(&Seg { uv: TreeUV(0, 2), vertical: true }));
    assert!(!upright.colinear(&level_left));
    assert!(level_left.colinear(&Seg { uv: TreeUV(1, 1), vertical: false }));
    assert!(!level_left.colinear(&below));
}

#[test]
fn vertices_of_segments() {
    let left = TreeUV(2, 4);
    let right = TreeUV(3, 4);
    assert_eq!(Seg { uv: left, vertical: false }.get_vertice(Dir::NegV), (2, 5));
    assert_eq!(Seg { uv: left, vertical: false }.get_vertice(Dir::PosV), (3, 4));
    assert_eq!(Seg { uv: left, vertical: true }.get_vertice(Dir::NegV), (3, 6));
    assert_eq!(Seg { uv: left, vertical: true }.get_vertice(Dir::PosV), (3, 4));
    assert_eq!(Seg { uv: right, vertical: false }.get_vertice(Dir::NegV), (4, 5));
    assert_eq!(Seg { uv: right, vertical: false }.get_vertice(Dir::PosV), (3, 4));
}

#[test]
fn colinear_segments_share_a_vertex() {
    let kept = vec![
        (Seg { uv: TreeUV(0, 0), vertical: true }, Dir::PosV),
        (Seg { uv: TreeUV(0, 2), vertical: true }, Dir::PosV),
        (Seg { uv: TreeUV(0, 4), vertical: false }, Dir::NegV),
    ];
    assert_eq!(create_vertices_with_optimized(&kept), vec![(1, 0), (0, 5)]);
    assert_eq!(create_vertices_with_optimized(&vec![]), vec![]);
}

#[test]
fn layer_on_the_rim_does_not_fit() {
    let mut layer = Layer { color: Rgba::new(RED), grid: Grid2::new() };
    layer.grid.set(0, i32::MAX, ());
    assert!(!layer.fits());
    assert!(!layers_fit(&vec![layer]));
    assert!(layers_fit(&vec![]));
    assert_eq!(polygons_from_layers(vec![]), vec![]);
}

#[test]
fn polygon_new_keeps_its_parts() {
    let p = Polygon::new(Rgba::new(RED), vec![(0, 1), (1, 0), (1, 2)]);
    assert_eq!(p.color, Rgba::new(RED));
    assert_eq!(p.verts, vec![(0, 1), (1, 0), (1, 2)]);
}

#[test]
fn host_reports_invalid_handles_and_axes() {
    let mut host = Builtin::new();
    let cube = host.shape_from_prism(Vec3(1, 2, 3), Vec3(1, 1, 1)).unwrap();
    assert_eq!(cube, 1);
    assert_eq!(host.shape_size(cube), Ok([1, 1, 1]));
    assert_eq!(host.shape_size(9), Err(Error::InvalidShapeHandle(9)));
    assert_eq!(host.shape_min(cube, 1), Ok(2));
    assert_eq!(host.shape_max(cube, 2), Ok(4));
    assert_eq!(host.shape_min(cube, 3), Err(Error::InvalidAxisEnum(3)));
    assert_eq!(host.shape_min(7, 3), Err(Error::InvalidShapeHandle(7)));
    assert_eq!(host.shape_min(0, 0), Err(Error::MinOfEmptyShape));
    assert_eq!(host.shape_max(0, 0), Err(Error::MaxOfEmptyShape));
    assert_eq!(host.shape_union(cube, 5), Err(Error::InvalidShapeHandle(5)));
    assert_eq!(host.shape_union(6, 5), Err(Error::InvalidShapeHandle(6)));
    assert_eq!(host.shape_intersection(cube, 5), Err(Error::InvalidShapeHandle(5)));
    assert_eq!(host.shape_difference(8, cube), Err(Error::InvalidShapeHandle(8)));
    assert_eq!(host.shape_translate(4, Vec3(0, 0, 0)), Err(Error::InvalidShapeHandle(4)));
    assert_eq!(host.shape_translate_axis_off(cube, 4, 1), Err(Error::InvalidAxisEnum(4)));
    assert_eq!(host.shape_at_axis_off(cube, 5, 1), Err(Error::InvalidAxisEnum(5)));
    assert_eq!(host.shape_at_point(3, Vec3(0, 0, 0)), Err(Error::InvalidShapeHandle(3)));
    assert_eq!(host.render(2, red()), Err(Error::InvalidShapeHandle(2)));
    assert_eq!(host.shape_translate(cube, Vec3(i32::MAX, 0, 0)), Err(Error::OutOfRange));
    assert_eq!(host.shape_at_point(cube, Vec3(i32::MAX, 0, 0)), Err(Error::OutOfRange));
    assert_eq!(
        host.shape_from_prism(Vec3(i32::MAX, 0, 0), Vec3(1, 1, 1)),
        Err(Error::OutOfRange)
    );
    assert_eq!(host.shape_from_prism(Vec3(0, 0, 0), Vec3(0, 1, 1)), Ok(0));
}

#[test]
fn host_moves_and_combines_shapes() {
    let mut host = Builtin::new();
    let a = host.shape_from_prism(Vec3(0, 0, 0), Vec3(2, 2, 2)).unwrap();
    let moved = host.shape_translate(a, Vec3(1, 0, 0)).unwrap();
    assert_eq!(host.shape_min(moved, 0), Ok(1));
    let along = host.shape_translate_axis_off(moved, 2, 5).unwrap();
    assert_eq!(host.shape_min(along, 2), Ok(5));
    let at = host.shape_at_point(along, Vec3(7, 8, 9)).unwrap();
    assert_eq!(host.shape_min(at, 1), Ok(8));
    let off = host.shape_at_axis_off(at, 0, -3).unwrap();
    assert_eq!(host.shape_min(off, 0), Ok(-3));
    assert_eq!(host.shape_max(off, 0), Ok(-1));
    assert_eq!(host.shape_at_axis_off(0, 0, 3), Ok(0));
    let both = host.shape_intersection(a, moved).unwrap();
    assert_eq!(host.shape_size(both), Ok([1, 2, 2]));
    let rest = host.shape_difference(a, moved).unwrap();
    assert_eq!(host.shape_size(rest), Ok([1, 2, 2]));
    assert_eq!(host.shape_max(rest, 0), Ok(1));
    let either = host.shape_union(a, moved).unwrap();
    assert_eq!(host.shape_size(either), Ok([3, 2, 2]));
}

#[test]
fn host_render_refuses_faces_off_the_grid() {
    let mut host = Builtin::new();
    let far = host.shape_from_prism(Vec3(i32::MAX - 1, i32::MAX - 1, 0), Vec3(1, 1, 1)).unwrap();
    assert_eq!(host.render(far, red()), Err(Error::OutOfRange));
    let rim = host.shape_from_prism(Vec3(i32::MIN, 0, 0), Vec3(1, 1, 1)).unwrap();
    assert_eq!(host.render(rim, blue_half()), Err(Error::OutOfRange));
    host.compose();
    assert!(host.get_canvas().cells().is_empty());
}

#[test]
fn host_counts_ids_and_keeps_logs() {
    let mut host = Builtin::new();
    assert_eq!(host.debug(), 1);
    assert_eq!(host.nextid(), 1);
    assert_eq!(host.nextid(), 2);
    assert_eq!(host.debug(), 3);
    host.log("one".to_string());
    host.log("two".to_string());
    assert_eq!(host.get_logs(), vec!["one".to_string(), "two".to_string()]);
}

#[test]
fn host_set_shader_uses_defaults_for_missing_colours() {
    let mut host = Builtin::new();
    assert_eq!(host.get_canvas().cells(), vec![]);
    let green = Paint::new(20, Rgba::new(0x00ff_0040), Alpha::Partial);
    host.set_shader(None, None, Some(green));
    let cube = host.shape_from_prism(Vec3(0, 0, 0), Vec3(1, 1, 1)).unwrap();
    host.render(cube, red()).unwrap();
    host.compose();
    let cells = host.get_canvas().cells();
    let layers = host.render_layers(&vec![no_blend(); cells.len()]);
    let colors: Vec<String> = layers.iter().map(|l| l.color.to_string()).collect();
    assert_eq!(colors, vec!["#ff0000", "#00ff0040", "#00000026", "#00000066"]);
}

#[test]
fn error_messages() {
    assert_eq!(Error::InvalidShapeHandle(42).to_string(), "native: invalid shape handle: 42");
    assert_eq!(Error::InvalidAxisEnum(3).to_string(), "native: invalid axis enum: 3");
    assert_eq!(
        Error::MinOfEmptyShape.to_string(),
        "native: cannot access min of a shape with 0 volume"
    );
    assert_eq!(
        Error::MaxOfEmptyShape.to_string(),
        "native: cannot access max of a shape with 0 volume"
    );
    assert_eq!(
        Error::InvalidColor("invalid unknown format".to_string()).to_string(),
        "native: invalid color: invalid unknown format"
    );
    assert_eq!(Error::OutOfRange.to_string(), "native: shape out of range");
}

#[test]
fn decimal_digits() {
    for n in [0u32, 7, 10, 99, 100, 4096, u32::MAX] {
        let mut s = String::from("n=");
        push_decimal(&mut s, n);
        assert_eq!(s, format!("n={}", n));
    }
}

#[test]
fn messages_of_a_run() {
    let logs = vec!["a".to_string()];
    assert_eq!(
        finish_messages(logs.clone(), None, false),
        vec!["a".to_string(), "render ok".to_string()]
    );
    assert_eq!(
        finish_messages(logs, Some("boom".to_string()), true),
        vec![
            "a".to_string(),
            "runtime error: boom".to_string(),
            "no layers rendered".to_string()
        ]
    );
}
