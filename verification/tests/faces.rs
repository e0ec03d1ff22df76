use prism_lib::arena::{ShapeRef, ShapeVec};
use prism_lib::color::{Alpha, Paint, Rgba};
use prism_lib::face::{sort_faces, Face, Side};
use prism_lib::flat::Prism;
use prism_lib::math::Vec3;
use prism_lib::tree::{default_shader, PrismTree, TreeNode, TreeType};

/// The paint of a colour in CSS notation
fn paint(css: &str) -> Paint {
    let color: csscolorparser::Color = css.parse().unwrap();
    let alpha = if color.a <= 0.0 {
        Alpha::Clear
    } else if color.a < 1.0 {
        Alpha::Partial
    } else {
        Alpha::Solid
    };
    Paint::new(7, Rgba::from_bytes(color.to_rgba8()), alpha)
}

#[test]
fn flat_render_one() {
    let color = paint("red");
    let prism = Prism::new(color, Vec3(0, 0, 0), Vec3(1, 1, 1));
    let mut faces = Vec::new();
    prism.render_faces(&mut faces);
    assert_eq!(
        faces,
        vec![
            Face::top(color, Vec3(0, 0, 0)),
            Face::front(color, Vec3(0, 0, 0)),
            Face::side(color, Vec3(0, 0, 0)),
        ]
    )
}

#[test]
fn flat_render_one_big() {
    let color = paint("red");
    let prism = Prism::new(color, Vec3(0, 0, 0), Vec3(2, 2, 2));
    let mut faces = Vec::new();
    prism.render_faces(&mut faces);
    assert_eq!(
        faces,
        vec![
            Face::top(color, Vec3(0, 0, 1)),
            Face::top(color, Vec3(0, 1, 1)),
            Face::top(color, Vec3(1, 0, 1)),
            Face::top(color, Vec3(1, 1, 1)),
            Face::front(color, Vec3(1, 0, 0)),
            Face::front(color, Vec3(1, 0, 1)),
            Face::front(color, Vec3(1, 1, 0)),
            Face::front(color, Vec3(1, 1, 1)),
            Face::side(color, Vec3(0, 1, 0)),
            Face::side(color, Vec3(0, 1, 1)),
            Face::side(color, Vec3(1, 1, 0)),
            Face::side(color, Vec3(1, 1, 1)),
        ]
    )
}

fn leaf(pos: (i32, i32, i32), size: (u32, u32, u32)) -> TreeNode {
    TreeNode {
        color: None,
        cut: false,
        hidden: false,
        pos: Vec3(pos.0, pos.1, pos.2),
        tree: TreeType::Size(Vec3(size.0, size.1, size.2)),
    }
}

fn tree_of(color: Paint, prism: Vec<TreeNode>) -> PrismTree {
    PrismTree { shader: Vec3(None, None, None), color, pos: Vec3(0, 0, 0), prism: Some(prism) }
}

#[test]
fn tree_render_one() {
    let tree = tree_of(paint("#ff0000"), vec![leaf((0, 0, 0), (1, 1, 1))]);
    assert!(tree.is_valid());
    let prisms = tree.render_prisms();
    let color = paint("#ff0000");
    assert_eq!(prisms, vec![Prism::new(color, Vec3(0, 0, 0), Vec3(1, 1, 1))]);
}

#[test]
fn tree_render_one_big() {
    let tree = tree_of(paint("#ff0000"), vec![leaf((1, 2, 3), (10, 12, 13))]);
    assert!(tree.is_valid());
    let prisms = tree.render_prisms();
    let color = paint("#ff0000");
    assert_eq!(prisms, vec![Prism::new(color, Vec3(1, 2, 3), Vec3(10, 12, 13))]);
}

#[test]
fn tree_without_prisms_renders_nothing() {
    let tree = PrismTree {
        shader: Vec3(None, None, None),
        color: paint("red"),
        pos: Vec3(0, 0, 0),
        prism: None,
    };
    assert!(tree.is_valid());
    assert_eq!(tree.render_prisms(), vec![]);
}

#[test]
fn tree_skips_hidden_and_empty_nodes_and_inherits_colour() {
    let blue = paint("blue");
    let mut hidden = leaf((0, 0, 0), (1, 1, 1));
    hidden.hidden = true;
    let mut own = leaf((1, 0, 0), (1, 1, 1));
    own.color = Some(blue);
    let flat = leaf((2, 0, 0), (1, 0, 1));
    let group = TreeNode {
        color: Some(blue),
        cut: false,
        hidden: false,
        pos: Vec3(10, 10, 10),
        tree: TreeType::Group(vec![leaf((1, 2, 3), (1, 1, 1))]),
    };
    let red = paint("red");
    let mut tree = tree_of(red, vec![hidden, own, flat, group, leaf((5, 5, 5), (2, 2, 2))]);
    tree.pos = Vec3(100, 0, 0);
    assert!(tree.is_valid());
    assert_eq!(
        tree.render_prisms(),
        vec![
            Prism::new(blue, Vec3(101, 0, 0), Vec3(1, 1, 1)),
            Prism::new(blue, Vec3(111, 12, 13), Vec3(1, 1, 1)),
            Prism::new(red, Vec3(105, 5, 5), Vec3(2, 2, 2)),
        ]
    );
}

#[test]
fn tree_cut_yields_six_prisms_around_the_cutout() {
    let red = paint("red");
    let mut cut = leaf((1, 1, 1), (2, 2, 2));
    cut.cut = true;
    let root = TreeNode {
        color: None,
        cut: false,
        hidden: false,
        pos: Vec3(0, 0, 0),
        tree: TreeType::Group(vec![leaf((0, 0, 0), (4, 4, 4)), cut]),
    };
    let tree = tree_of(red, vec![root]);
    assert!(tree.is_valid());
    assert_eq!(
        tree.render_prisms(),
        vec![
            Prism::new(red, Vec3(0, 0, 3), Vec3(4, 4, 1)),
            Prism::new(red, Vec3(3, 0, 1), Vec3(1, 4, 2)),
            Prism::new(red, Vec3(0, 0, 1), Vec3(1, 4, 2)),
            Prism::new(red, Vec3(1, 3, 1), Vec3(2, 1, 2)),
            Prism::new(red, Vec3(1, 0, 1), Vec3(2, 1, 2)),
            Prism::new(red, Vec3(0, 0, 0), Vec3(4, 4, 1)),
        ]
    );
}

#[test]
fn tree_cut_affects_siblings_only() {
    let red = paint("red");
    let mut cut = leaf((0, 0, 0), (1, 1, 1));
    cut.cut = true;
    let group = TreeNode {
        color: None,
        cut: false,
        hidden: false,
        pos: Vec3(0, 0, 0),
        tree: TreeType::Group(vec![cut, leaf((5, 5, 5), (1, 1, 1))]),
    };
    // the prism before the group holds what the cut names, and keeps it
    let tree = tree_of(red, vec![leaf((0, 0, 0), (1, 1, 1)), group]);
    assert_eq!(
        tree.render_prisms(),
        vec![
            Prism::new(red, Vec3(0, 0, 0), Vec3(1, 1, 1)),
            Prism::new(red, Vec3(5, 5, 5), Vec3(1, 1, 1)),
        ]
    );
}

#[test]
fn tree_that_leaves_the_coordinates_is_not_valid() {
    let tree = tree_of(paint("red"), vec![leaf((i32::MAX, 0, 0), (1, 1, 1))]);
    assert!(!tree.is_valid());
    let mut moved = tree_of(paint("red"), vec![leaf((1, 0, 0), (1, 1, 1))]);
    moved.pos = Vec3(i32::MAX, 0, 0);
    assert!(!moved.is_valid());
}

#[test]
fn tree_shader_defaults() {
    let mut tree = tree_of(paint("red"), vec![]);
    assert_eq!(tree.get_shader(), default_shader());
    let d = default_shader();
    assert_eq!(d.0.rgba.to_bytes(), [0, 0, 0, 38]);
    assert_eq!(d.0.alpha, Alpha::Partial);
    assert_eq!(d.1.rgba.to_bytes(), [0, 0, 0, 102]);
    assert_eq!(d.1.alpha, Alpha::Partial);
    assert_eq!(d.2.rgba.to_bytes(), [0, 0, 0, 0]);
    assert_eq!(d.2.alpha, Alpha::Clear);
    let css: csscolorparser::Color = "rgba(0, 0, 0, 0.15)".parse().unwrap();
    assert_eq!(css.to_rgba8(), d.0.rgba.to_bytes());
    let css: csscolorparser::Color = "rgba(0, 0, 0, 0.4)".parse().unwrap();
    assert_eq!(css.to_rgba8(), d.1.rgba.to_bytes());
    let green = paint("green");
    tree.shader = Vec3(None, Some(green), None);
    assert_eq!(tree.get_shader(), Vec3(d.0, green, d.2));
}

#[test]
fn prism_vec_subtract_is_iterated() {
    let red = paint("red");
    let mut v = vec![Prism::new(red, Vec3(0, 0, 0), Vec3(3, 1, 1))];
    let ops = vec![
        Prism::new(red, Vec3(0, 0, 0), Vec3(1, 1, 1)),
        Prism::new(red, Vec3(2, 0, 0), Vec3(1, 1, 1)),
    ];
    Prism::vec_subtract(&mut v, &ops);
    assert_eq!(v, vec![Prism::new(red, Vec3(1, 0, 0), Vec3(1, 1, 1))]);
    let before = v.clone();
    Prism::vec_subtract(&mut v, &vec![]);
    assert_eq!(v, before);
}

#[test]
fn face_layer_and_cells() {
    let red = paint("red");
    assert_eq!(Face::top(red, Vec3(1, 2, 3)).layer(), 18);
    assert_eq!(Face::top(red, Vec3(1, 2, 3)).back().layer(), 19);
    assert_eq!(Face::front(red, Vec3(-1, 0, 0)).layer(), -2);
    assert_eq!(Face::top(red, Vec3(i32::MAX, i32::MAX, i32::MAX)).layer(), 8 * (i32::MAX as i64));
    assert_eq!(Face::top(red, Vec3(1, 2, 3)).get_uvs(), (1, -3, 2, -3));
    assert_eq!(Face::front(red, Vec3(1, 2, 3)).get_uvs(), (1, -2, 1, -1));
    assert_eq!(Face::side(red, Vec3(1, 2, 3)).get_uvs(), (2, -2, 2, -1));
    assert!(Face::top(red, Vec3(1, 2, 3)).fits_grid());
    assert!(!Face::top(red, Vec3(i32::MAX, i32::MAX, 0)).fits_grid());
    assert!(!Face::top(red, Vec3(i32::MIN, i32::MAX, 0)).fits_grid());
}

#[test]
fn sort_faces_is_stable_and_descending() {
    let red = paint("red");
    let mut faces = vec![
        Face::top(red, Vec3(0, 0, 0)),
        Face::front(red, Vec3(0, 0, 1)),
        Face::side(red, Vec3(0, 0, 0)),
        Face::top(red, Vec3(0, 0, 0)).back(),
        Face::side(red, Vec3(2, 0, 0)),
        Face::front(red, Vec3(0, 0, 0)),
    ];
    sort_faces(&mut faces);
    assert_eq!(
        faces,
        vec![
            Face::front(red, Vec3(0, 0, 1)),
            Face::side(red, Vec3(2, 0, 0)),
            Face::top(red, Vec3(0, 0, 0)).back(),
            Face::top(red, Vec3(0, 0, 0)),
            Face::side(red, Vec3(0, 0, 0)),
            Face::front(red, Vec3(0, 0, 0)),
        ]
    );
}

#[test]
fn render_single_cube_gives_three_faces() {
    let red = paint("#ff0000");
    let mut v = ShapeVec::new();
    let h = ShapeRef { idx: v.add_prism(Vec3(0, 0, 0), Vec3(1, 1, 1)) as usize };
    assert!(h.can_render(&v, red));
    assert_eq!(
        h.render(&mut v, red),
        vec![
            Face::top(red, Vec3(0, 0, 0)),
            Face::front(red, Vec3(0, 0, 0)),
            Face::side(red, Vec3(0, 0, 0)),
        ]
    );
}

#[test]
fn render_stacked_cubes_hides_the_face_between_them() {
    let red = paint("#ff0000");
    let mut v = ShapeVec::new();
    let a = ShapeRef { idx: v.add_prism(Vec3(0, 0, 0), Vec3(1, 1, 1)) as usize };
    let b = ShapeRef { idx: v.add_prism(Vec3(0, 0, 1), Vec3(1, 1, 1)) as usize };
    let both = a.union(&mut v, &b);
    let faces = both.render(&mut v, red);
    assert_eq!(
        faces,
        vec![
            Face::front(red, Vec3(0, 0, 0)),
            Face::side(red, Vec3(0, 0, 0)),
            Face::top(red, Vec3(0, 0, 1)),
            Face::front(red, Vec3(0, 0, 1)),
            Face::side(red, Vec3(0, 0, 1)),
        ]
    );
    assert!(!faces.contains(&Face::top(red, Vec3(0, 0, 0))));
}

#[test]
fn render_clear_colour_gives_nothing() {
    let clear = paint("rgba(1, 2, 3, 0)");
    assert_eq!(clear.alpha, Alpha::Clear);
    let mut v = ShapeVec::new();
    let h = ShapeRef { idx: v.add_prism(Vec3(0, 0, 0), Vec3(2, 2, 2)) as usize };
    assert_eq!(h.render(&mut v, clear), vec![]);
    let empty = h.new_empty();
    assert_eq!(empty.render(&mut v, paint("red")), vec![]);
}

#[test]
fn render_translucent_colour_adds_back_faces() {
    let blue = paint("rgba(0, 0, 255, 0.5)");
    assert_eq!(blue.alpha, Alpha::Partial);
    let mut v = ShapeVec::new();
    let h = ShapeRef { idx: v.add_prism(Vec3(0, 0, 1), Vec3(1, 1, 1)) as usize };
    assert!(h.can_render(&v, blue));
    assert_eq!(
        h.render(&mut v, blue),
        vec![
            Face::top(blue, Vec3(0, 0, 1)),
            Face::top(blue, Vec3(0, 0, 0)).back(),
            Face::front(blue, Vec3(0, 0, 1)),
            Face::front(blue, Vec3(-1, 0, 1)).back(),
            Face::side(blue, Vec3(0, 0, 1)),
            Face::side(blue, Vec3(0, -1, 1)).back(),
        ]
    );
    let rim = ShapeRef { idx: v.add_prism(Vec3(i32::MIN, 0, 0), Vec3(1, 1, 1)) as usize };
    assert!(!rim.can_render(&v, blue));
    assert!(rim.can_render(&v, paint("red")));
}

#[test]
fn render_cut_cube_shows_the_faces_of_the_hollow() {
    let red = paint("red");
    let mut v = ShapeVec::new();
    let a = ShapeRef { idx: v.add_prism(Vec3(0, 0, 0), Vec3(4, 4, 4)) as usize };
    let b = ShapeRef { idx: v.add_prism(Vec3(1, 1, 1), Vec3(2, 2, 2)) as usize };
    let cut = a.difference(&mut v, &b);
    let faces = cut.render(&mut v, red);
    // 16 faces on each of the three outer sides, 4 on each inner side
    assert_eq!(faces.len(), 3 * 16 + 3 * 4);
    for (y, z) in [(1, 1), (1, 2), (2, 1), (2, 2)] {
        assert!(faces.contains(&Face::front(red, Vec3(0, y, z))));
        assert!(faces.contains(&Face::side(red, Vec3(y, 0, z))));
        assert!(faces.contains(&Face::top(red, Vec3(y, z, 0))));
    }
    // no face is given twice
    for (i, f) in faces.iter().enumerate() {
        assert!(!faces[i + 1..].contains(f));
    }
}

#[test]
fn render_gives_no_face_on_an_enclosed_cube() {
    let red = paint("red");
    let mut v = ShapeVec::new();
    let a = ShapeRef { idx: v.add_prism(Vec3(0, 0, 0), Vec3(3, 3, 3)) as usize };
    let b = ShapeRef { idx: v.add_prism(Vec3(1, 1, 0), Vec3(1, 1, 4)) as usize };
    let both = a.union(&mut v, &b);
    let faces = both.render(&mut v, red);
    for f in &faces {
        assert!(f.pos != Vec3(1, 1, 1));
        let looks_at = match f.dir {
            Side::Front => Vec3(f.pos.0 + 1, f.pos.1, f.pos.2),
            Side::Side => Vec3(f.pos.0, f.pos.1 + 1, f.pos.2),
            Side::Top => Vec3(f.pos.0, f.pos.1, f.pos.2 + 1),
        };
        assert!(looks_at != Vec3(1, 1, 1));
    }
}
