use prism_lib::arena::ShapeVec;
use prism_lib::builtin::Builtin;
use prism_lib::color::{Alpha, Paint, Rgba};
use prism_lib::face::{Face, Side};
use prism_lib::grid::{Grid2, VecMap};
use prism_lib::math::{Axis, Vec3};
use prism_lib::poly::{polygons_from_layers, Layer, Polygon};
use prism_lib::svg::{bounds, make_document, make_path, make_polygon, Bounds, Written};

fn red() -> Paint {
    Paint::new(3, Rgba::new(0xff00_00ff), Alpha::Solid)
}

fn share_cell(a: &Face, b: &Face) -> bool {
    let p = a.get_uvs();
    let q = b.get_uvs();
    let pa = [(p.0, p.1), (p.2, p.3)];
    let qa = [(q.0, q.1), (q.2, q.3)];
    pa.iter().any(|c| qa.contains(c))
}

#[test]
fn vec3_from_tuple_and_operators() {
    let v: Vec3<i32> = (1, 2, 3).into();
    assert_eq!(v, Vec3(1, 2, 3));
    assert_eq!(Vec3::from((4u32, 5u32, 6u32)), Vec3(4, 5, 6));
    assert_eq!(Vec3(1, 2, 3) + Vec3(10, 20, 30), Vec3(11, 22, 33));
    assert_eq!(Vec3(1, 2, 3) - Vec3(10, 20, 30), Vec3(-9, -18, -27));
    assert_eq!(u32::from(Axis::Y), 1);
    assert_eq!(Vec3::<i32>::default(), Vec3(0, 0, 0));
}

#[test]
fn defaults_are_empty() {
    let v = ShapeVec::default();
    assert_eq!(v.len(), 1);
    let g: Grid2<u8> = Grid2::default();
    assert!(g.is_empty());
    let m: VecMap<Layer> = VecMap::default();
    assert_eq!(m.len(), 0);
    let host = Builtin::default();
    assert_eq!(host.debug(), 1);
    assert!(host.get_logs().is_empty());
}

#[test]
fn bounds_of_polygons() {
    assert_eq!(bounds(&vec![]), None);
    let empty = Polygon::new(Rgba::new(1), vec![]);
    assert_eq!(bounds(&vec![empty.clone()]), None);
    let a = Polygon::new(Rgba::new(1), vec![(0, 1), (1, 0), (1, 2)]);
    let b = Polygon::new(Rgba::new(2), vec![(-3, 7), (5, -2)]);
    assert_eq!(
        bounds(&vec![a.clone()]),
        Some(Bounds { min_x: 0, min_y: 0, max_x: 1, max_y: 2 })
    );
    assert_eq!(
        bounds(&vec![a, empty, b]),
        Some(Bounds { min_x: -3, min_y: -2, max_x: 5, max_y: 7 })
    );
}

#[test]
fn faces_of_one_layer_do_not_overlap() {
    let mut faces = Vec::new();
    for x in -2..3 {
        for y in -2..3 {
            for z in -2..3 {
                for dir in [Side::Front, Side::Side, Side::Top] {
                    let f = Face { color: red(), pos: Vec3(x, y, z), dir, is_back: false };
                    faces.push(f);
                    faces.push(f.back());
                }
            }
        }
    }
    for (i, a) in faces.iter().enumerate() {
        for b in &faces[i + 1..] {
            if a.layer() == b.layer() {
                assert!(!share_cell(a, b));
            }
        }
    }
}

#[test]
fn trees_hold_each_cell_once() {
    let mut layer = Layer { color: Rgba::new(1), grid: Grid2::new() };
    let mut cells = Vec::new();
    for u in 0..6 {
        for v in 0..6 {
            if (u * 7 + v * 3) % 5 != 0 {
                layer.grid.set(u, v, ());
                cells.push((u, v));
            }
        }
    }
    let trees = layer.make_trees();
    let mut seen = Vec::new();
    for tree in &trees {
        for i in 0..tree.len() {
            let node = tree.node(i);
            seen.push((node.uv.0, node.uv.1));
            for child in [node.top, node.bottom, node.side].into_iter().flatten() {
                assert!(i < child && child < tree.len());
            }
        }
    }
    seen.sort();
    assert_eq!(seen, cells);
}

#[test]
fn cells_that_touch_give_one_polygon() {
    // the hexagon around the grid point (1, 2), and beside it six cells
    // that make a band from (2, 1) down to (4, 5)
    let mut layer = Layer { color: Rgba::new(0x0000_ffff), grid: Grid2::new() };
    for c in [(0, 0), (0, 1), (0, 2), (1, 0), (1, 1), (1, 2)] {
        layer.grid.set(c.0, c.1, ());
    }
    for c in [(2, 1), (2, 2), (2, 3), (3, 1), (3, 2), (3, 3)] {
        layer.grid.set(c.0, c.1, ());
    }
    let polygons = polygons_from_layers(vec![layer]);
    assert_eq!(polygons.len(), 1);
    let mut verts = polygons[0].verts.clone();
    verts.sort();
    // the edge from (1, 0) runs on through (2, 1) to (3, 2), the one from
    // (4, 1) through (4, 3) to (4, 5): neither point between is a vertex
    assert_eq!(
        verts,
        vec![(0, 1), (0, 3), (1, 0), (1, 4), (2, 3), (2, 5), (3, 2), (3, 4), (4, 1), (4, 5)]
    );
}

fn written(points: &[(&str, &str)]) -> Vec<Written> {
    points
        .iter()
        .map(|(x, y)| Written { x: x.to_string(), y: y.to_string() })
        .collect()
}

#[test]
fn svg_path_is_closed() {
    let points = written(&[("0", "10"), ("17.32", "0"), ("17.32", "20")]);
    assert_eq!(make_path(&points), "M0 10L17.32 0L17.32 20Z");
    assert_eq!(make_path(&written(&[("1", "2")])), "M1 2Z");
    assert_eq!(make_path(&vec![]), "Z");
    assert_eq!(
        make_polygon(Rgba::new(0xff00_00ff), &points),
        "<path d=\"M0 10L17.32 0L17.32 20Z\" fill=\"#ff0000\"/>"
    );
    assert_eq!(
        make_polygon(Rgba::new(0x0000_0026), &points),
        "<path d=\"M0 10L17.32 0L17.32 20Z\" fill=\"#00000026\"/>"
    );
    assert_eq!(make_polygon(Rgba::new(0xff00_00ff), &vec![]), "");
    assert_eq!(
        make_document("40", "30.5", &vec!["<a/>".to_string(), String::new(), "<b/>".to_string()]),
        "<svg xmlns=\"http://www.w3.org/2000/svg\" version=\"1.1\" width=\"40\" height=\"30.5\"><a/><b/></svg>"
    );
    assert_eq!(
        make_document("0", "0", &vec![]),
        "<svg xmlns=\"http://www.w3.org/2000/svg\" version=\"1.1\" width=\"0\" height=\"0\"></svg>"
    );
}
