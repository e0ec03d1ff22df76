use prism_lib::arena::{ShapeRef, ShapeVec};
use prism_lib::geom::{span, Geom3};
use prism_lib::math::{Axis, Vec3};
use prism_lib::shape::Arbitrary;

fn geom(pos: (i32, i32, i32), size: (u32, u32, u32)) -> Geom3 {
    Geom3::new(Vec3(pos.0, pos.1, pos.2), Vec3(size.0, size.1, size.2))
}

/// The number of unit cubes of the shape within the box from `lo` to `hi`
fn count_cubes(shape: &Arbitrary, lo: i32, hi: i32) -> usize {
    let mut n = 0;
    for x in lo..hi {
        for y in lo..hi {
            for z in lo..hi {
                if shape.contains_unit_cube(Vec3(x, y, z)) {
                    n += 1;
                }
            }
        }
    }
    n
}

fn resolved(v: &mut ShapeVec, h: ShapeRef) -> Arbitrary {
    h.resolve_translation(v);
    match h.read_arbitrary(v) {
        Some(a) => a.clone(),
        None => Arbitrary::new_empty(),
    }
}

#[test]
fn vec3_accessors() {
    let mut v = Vec3(1, 2, 3);
    assert_eq!(*v.x_ref(), 1);
    assert_eq!(*v.y_ref(), 2);
    assert_eq!(*v.z_ref(), 3);
    assert_eq!(v.x(), 1);
    assert_eq!(v.y(), 2);
    assert_eq!(v.z(), 3);
    assert_eq!(v.on(Axis::Y), 2);
    assert_eq!(*v.on_ref(Axis::Z), 3);
    *v.x_mut() = 10;
    *v.y_mut() = 20;
    *v.z_mut() = 30;
    assert_eq!(v, Vec3(10, 20, 30));
    *v.on_mut(Axis::X) = 7;
    assert_eq!(v, Vec3(7, 20, 30));
}

#[test]
fn vec3_all_positive() {
    assert!(Vec3(1u32, 2, 3).all_positive());
    assert!(!Vec3(1u32, 0, 3).all_positive());
    assert!(Vec3(1i32, 2, 3).all_positive());
    assert!(!Vec3(1i32, -2, 3).all_positive());
}

#[test]
fn vec3_checked_arithmetic() {
    assert_eq!(Vec3(1, 2, 3).checked_add(Vec3(10, 20, 30)), Some(Vec3(11, 22, 33)));
    assert_eq!(Vec3(i32::MAX, 0, 0).checked_add(Vec3(1, 0, 0)), None);
    assert_eq!(Vec3(1, 2, 3).checked_sub(Vec3(10, 20, 30)), Some(Vec3(-9, -18, -27)));
    assert_eq!(Vec3(i32::MIN, 0, 0).checked_sub(Vec3(1, 0, 0)), None);
    assert!(Vec3(0, 0, 0).is_zero());
    assert!(!Vec3(0, 1, 0).is_zero());
}

#[test]
fn axis_from_u32() {
    assert_eq!(Axis::from_u32(0), Some(Axis::X));
    assert_eq!(Axis::from_u32(1), Some(Axis::Y));
    assert_eq!(Axis::from_u32(2), Some(Axis::Z));
    assert_eq!(Axis::from_u32(3), None);
    assert_eq!(Axis::Z.to_u32(), 2);
}

#[test]
fn span_is_zero_for_empty_intervals() {
    assert_eq!(span(2, 5), 3);
    assert_eq!(span(5, 2), 0);
    assert_eq!(span(i32::MIN, i32::MAX), u32::MAX);
    assert_eq!(span(i32::MAX, i32::MIN), 0);
}

#[test]
fn geom3_ends_and_volume() {
    let g = geom((1, 2, 3), (10, 12, 13));
    assert_eq!(g.x_end(), 11);
    assert_eq!(g.y_end(), 14);
    assert_eq!(g.z_end(), 16);
    assert!(g.has_positive_volume());
    assert!(!geom((0, 0, 0), (1, 0, 1)).has_positive_volume());
    assert!(g.is_valid());
    assert!(!geom((i32::MAX, 0, 0), (1, 1, 1)).is_valid());
}

#[test]
fn geom3_contains_unit_cube() {
    let g = geom((1, 1, 1), (2, 2, 2));
    assert!(g.contains_unit_cube(Vec3(1, 1, 1)));
    assert!(g.contains_unit_cube(Vec3(2, 2, 2)));
    assert!(!g.contains_unit_cube(Vec3(3, 2, 2)));
    assert!(!g.contains_unit_cube(Vec3(0, 1, 1)));
}

#[test]
fn geom3_intersection() {
    let a = geom((0, 0, 0), (3, 3, 3));
    let b = geom((2, 2, 2), (3, 3, 3));
    assert_eq!(a.intersection(&b), geom((2, 2, 2), (1, 1, 1)));
    // prisms far apart share nothing, whatever their distance
    let far = geom((i32::MAX - 1, 0, 0), (1, 1, 1));
    let near = geom((i32::MIN, 0, 0), (1, 1, 1));
    assert!(!near.intersection(&far).has_positive_volume());
}

#[test]
fn geom3_difference_gives_six_slabs_in_order() {
    let a = geom((0, 0, 0), (4, 4, 4));
    let b = geom((1, 1, 1), (2, 2, 2));
    let mut out = Vec::new();
    a.difference(&b, &mut out);
    assert_eq!(
        out,
        vec![
            geom((0, 0, 3), (4, 4, 1)),
            geom((3, 0, 1), (1, 4, 2)),
            geom((0, 0, 1), (1, 4, 2)),
            geom((1, 3, 1), (2, 1, 2)),
            geom((1, 0, 1), (2, 1, 2)),
            geom((0, 0, 0), (4, 4, 1)),
        ]
    );
}

#[test]
fn geom3_difference_of_disjoint_prisms_is_the_first() {
    let a = geom((0, 0, 0), (2, 2, 2));
    let b = geom((5, 5, 5), (1, 1, 1));
    let mut out = vec![geom((9, 9, 9), (1, 1, 1))];
    a.difference(&b, &mut out);
    assert_eq!(out, vec![geom((9, 9, 9), (1, 1, 1)), a]);
}

#[test]
fn geom3_difference_covers_the_complement() {
    let a = geom((0, 0, 0), (4, 3, 5));
    let b = geom((2, 1, -1), (5, 1, 3));
    let mut out = Vec::new();
    a.difference(&b, &mut out);
    for x in -1..6 {
        for y in -1..5 {
            for z in -2..7 {
                let p = Vec3(x, y, z);
                let holders = out.iter().filter(|g| g.contains_unit_cube(p)).count();
                let expected = a.contains_unit_cube(p) && !b.contains_unit_cube(p);
                assert_eq!(holders, if expected { 1 } else { 0 });
            }
        }
    }
}

#[test]
fn arbitrary_bound_encloses_prisms() {
    let mut a = Arbitrary::from_prism(geom((0, 0, 0), (1, 1, 1)));
    a.union(&Arbitrary::from_prism(geom((3, -2, 5), (2, 2, 2))));
    assert_eq!(a.bounding_box(), geom((0, -2, 0), (5, 3, 7)));
    assert_eq!(a.min(Axis::Y), Some(-2));
    assert_eq!(a.max(Axis::Z), Some(7));
    assert_eq!(a.pos(), Some(Vec3(0, -2, 0)));
    assert!(!a.is_empty());
    assert!(!a.contains_unit_cube(Vec3(1, 0, 0)));
    assert!(a.contains_unit_cube(Vec3(4, -1, 6)));
}

#[test]
fn arbitrary_empty_has_no_position() {
    let a = Arbitrary::new_empty();
    assert!(a.is_empty());
    assert_eq!(a.min(Axis::X), None);
    assert_eq!(a.max(Axis::X), None);
    assert_eq!(a.pos(), None);
    assert_eq!(a.prism_count(), 0);
}

#[test]
fn arbitrary_intersection_with_nothing_in_common_resets_the_bound() {
    let mut a = Arbitrary::from_prism(geom((0, 0, 0), (1, 1, 1)));
    a.intersection(&Arbitrary::from_prism(geom((5, 5, 5), (1, 1, 1))));
    assert_eq!(a.prism_count(), 0);
    assert_eq!(a.bounding_box(), geom((0, 0, 0), (0, 0, 0)));
}

#[test]
fn arbitrary_difference_is_iterated_over_every_operand() {
    // each operand is taken from what the operands before it left
    let mut a = Arbitrary::from_prism(geom((0, 0, 0), (3, 1, 1)));
    let mut b = Arbitrary::from_prism(geom((0, 0, 0), (1, 1, 1)));
    b.union(&Arbitrary::from_prism(geom((2, 0, 0), (1, 1, 1))));
    a.difference(&b);
    assert_eq!(count_cubes(&a, -1, 4), 1);
    assert!(a.contains_unit_cube(Vec3(1, 0, 0)));
}

#[test]
fn arbitrary_translated_moves_every_cube() {
    let a = Arbitrary::from_prism(geom((0, 0, 0), (2, 2, 2)));
    assert!(a.can_translate(Vec3(5, -5, 1)));
    let b = a.translated(Vec3(5, -5, 1));
    assert_eq!(b.bounding_box(), geom((5, -5, 1), (2, 2, 2)));
    assert!(b.contains_unit_cube(Vec3(6, -4, 2)));
    assert!(!a.can_translate(Vec3(i32::MAX, 0, 0)));
}

#[test]
fn arena_starts_with_the_empty_shape() {
    let v = ShapeVec::new();
    assert_eq!(v.len(), 1);
    let empty = v.get(0).unwrap();
    assert!(empty.is_empty(&v));
    assert_eq!(empty.size(&v), Vec3(0, 0, 0));
    assert_eq!(empty.pos(&v), None);
    assert_eq!(empty.min(&v, Axis::X), None);
    assert_eq!(empty.max(&v, Axis::X), None);
    assert!(v.get(1).is_none());
}

#[test]
fn arena_add_prism_returns_zero_for_zero_size() {
    let mut v = ShapeVec::new();
    assert_eq!(v.add_prism(Vec3(1, 2, 3), Vec3(0, 1, 1)), 0);
    assert_eq!(v.len(), 1);
    assert_eq!(v.add_prism(Vec3(1, 2, 3), Vec3(1, 1, 1)), 1);
    assert_eq!(v.add_prism(Vec3(1, 2, 3), Vec3(2, 2, 2)), 2);
    let h = v.get(2).unwrap();
    assert_eq!(h.size(&v), Vec3(2, 2, 2));
    assert_eq!(h.pos(&v), Some(Vec3(1, 2, 3)));
    assert_eq!(h.min(&v, Axis::Z), Some(3));
    assert_eq!(h.max(&v, Axis::Z), Some(5));
}

#[test]
fn arena_operations_with_empty_short_circuit() {
    let mut v = ShapeVec::new();
    let h = ShapeRef { idx: v.add_prism(Vec3(0, 0, 0), Vec3(1, 1, 1)) as usize };
    let empty = h.new_empty();
    assert_eq!(empty.idx, 0);
    assert_eq!(h.union(&mut v, &empty), h);
    assert_eq!(empty.union(&mut v, &h), h);
    assert_eq!(h.intersection(&mut v, &empty), empty);
    assert_eq!(empty.intersection(&mut v, &h), empty);
    assert_eq!(h.difference(&mut v, &empty), h);
    assert_eq!(empty.difference(&mut v, &h), empty);
    assert_eq!(h.translate(&mut v, Vec3(0, 0, 0)), h);
    assert_eq!(empty.translate(&mut v, Vec3(1, 1, 1)), empty);
    assert_eq!(v.len(), 2);
}

#[test]
fn arena_translation_composes() {
    let mut v = ShapeVec::new();
    let h = ShapeRef { idx: v.add_prism(Vec3(0, 0, 0), Vec3(2, 1, 1)) as usize };
    let once = h.translate(&mut v, Vec3(1, 2, 3));
    let twice = once.translate(&mut v, Vec3(10, 20, 30));
    let direct = h.translate(&mut v, Vec3(11, 22, 33));
    assert_eq!(twice.pos(&v), Some(Vec3(11, 22, 33)));
    assert_eq!(direct.pos(&v), Some(Vec3(11, 22, 33)));
    assert_eq!(twice.size(&v), Vec3(2, 1, 1));
    let a = resolved(&mut v, twice);
    let b = resolved(&mut v, direct);
    for x in 10..15 {
        for y in 21..24 {
            for z in 32..35 {
                let p = Vec3(x, y, z);
                assert_eq!(a.contains_unit_cube(p), b.contains_unit_cube(p));
            }
        }
    }
    // moving back gives the cubes of the shape itself
    let back = once.translate(&mut v, Vec3(-1, -2, -3));
    assert_eq!(back.pos(&v), Some(Vec3(0, 0, 0)));
    let handle_before = h;
    assert_eq!(handle_before.pos(&v), Some(Vec3(0, 0, 0)));
}

#[test]
fn arena_translate_axis_and_with_min() {
    let mut v = ShapeVec::new();
    let h = ShapeRef { idx: v.add_prism(Vec3(1, 1, 1), Vec3(2, 2, 2)) as usize };
    let moved = h.translate_axis(&mut v, Axis::Y, 5);
    assert_eq!(moved.pos(&v), Some(Vec3(1, 6, 1)));
    assert!(moved.can_put_at(&v, Vec3(0, 0, 0)));
    let at = moved.with_min(&mut v, Vec3(0, 0, 0));
    assert_eq!(at.pos(&v), Some(Vec3(0, 0, 0)));
    assert_eq!(at.size(&v), Vec3(2, 2, 2));
    let off = at.with_axis_off(&mut v, Axis::Z, -4);
    assert_eq!(off.pos(&v), Some(Vec3(0, 0, -4)));
    let same = off.with_min(&mut v, Vec3(0, 0, -4));
    assert_eq!(same, off);
    let empty = h.new_empty();
    assert_eq!(empty.with_min(&mut v, Vec3(3, 3, 3)).idx, 0);
    assert_eq!(empty.with_axis_off(&mut v, Axis::X, 3).idx, 0);
    assert!(!h.can_translate(&v, Vec3(i32::MAX, 0, 0)));
    assert!(!h.can_put_at(&v, Vec3(i32::MAX, 0, 0)));
}

#[test]
fn arena_intersection_then_difference() {
    let mut v = ShapeVec::new();
    let a = ShapeRef { idx: v.add_prism(Vec3(0, 0, 0), Vec3(3, 3, 3)) as usize };
    let b = ShapeRef { idx: v.add_prism(Vec3(2, 2, 2), Vec3(3, 3, 3)) as usize };
    let both = a.intersection(&mut v, &b);
    assert_eq!(both.pos(&v), Some(Vec3(2, 2, 2)));
    assert_eq!(both.size(&v), Vec3(1, 1, 1));
    let shared = resolved(&mut v, both);
    assert_eq!(shared.prism_count(), 1);
    assert_eq!(shared.prism(0), geom((2, 2, 2), (1, 1, 1)));
    let either = a.union(&mut v, &b);
    assert_eq!(count_cubes(&resolved(&mut v, either), -1, 6), 27 + 27 - 1);
    let rest = either.difference(&mut v, &both);
    let rest = resolved(&mut v, rest);
    assert_eq!(count_cubes(&rest, -1, 6), 27 + 27 - 1 - 1);
    assert!(!rest.contains_unit_cube(Vec3(2, 2, 2)));
}

#[test]
fn arena_intersection_distributes_over_union() {
    let mut v = ShapeVec::new();
    let a = ShapeRef { idx: v.add_prism(Vec3(0, 0, 0), Vec3(2, 2, 2)) as usize };
    let b = ShapeRef { idx: v.add_prism(Vec3(1, 1, 1), Vec3(3, 1, 2)) as usize };
    let c = ShapeRef { idx: v.add_prism(Vec3(1, 0, 0), Vec3(2, 3, 2)) as usize };
    let ab = a.union(&mut v, &b);
    let left = ab.intersection(&mut v, &c);
    let ac = a.intersection(&mut v, &c);
    let bc = b.intersection(&mut v, &c);
    let right = ac.union(&mut v, &bc);
    let left = resolved(&mut v, left);
    let right = resolved(&mut v, right);
    for x in -1..5 {
        for y in -1..5 {
            for z in -1..5 {
                let p = Vec3(x, y, z);
                assert_eq!(left.contains_unit_cube(p), right.contains_unit_cube(p));
            }
        }
    }
}

#[test]
fn arena_difference_and_intersection_make_up_the_shape() {
    let mut v = ShapeVec::new();
    let a = ShapeRef { idx: v.add_prism(Vec3(0, 0, 0), Vec3(3, 2, 2)) as usize };
    let b = ShapeRef { idx: v.add_prism(Vec3(1, 1, 0), Vec3(1, 3, 1)) as usize };
    let minus = a.difference(&mut v, &b);
    let both = a.intersection(&mut v, &b);
    let whole = minus.union(&mut v, &both);
    let gone = minus.intersection(&mut v, &b);
    assert!(gone.is_empty(&v));
    let whole = resolved(&mut v, whole);
    let a = resolved(&mut v, a);
    for x in -1..5 {
        for y in -1..5 {
            for z in -1..4 {
                let p = Vec3(x, y, z);
                assert_eq!(whole.contains_unit_cube(p), a.contains_unit_cube(p));
            }
        }
    }
}

#[test]
fn arena_keeps_handles_stable_when_resolving() {
    let mut v = ShapeVec::new();
    let a = ShapeRef { idx: v.add_prism(Vec3(0, 0, 0), Vec3(1, 1, 1)) as usize };
    let moved = a.translate(&mut v, Vec3(4, 0, 0));
    let again = moved.translate(&mut v, Vec3(0, 4, 0));
    let len = v.len();
    again.resolve_translation(&mut v);
    assert_eq!(v.len(), len);
    assert_eq!(a.pos(&v), Some(Vec3(0, 0, 0)));
    assert_eq!(moved.pos(&v), Some(Vec3(4, 0, 0)));
    assert_eq!(again.pos(&v), Some(Vec3(4, 4, 0)));
    assert!(again.read_arbitrary(&v).is_some());
}
