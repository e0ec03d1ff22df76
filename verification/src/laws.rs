use vstd::prelude::*;

use crate::geom::{all_wf, any_has, Geom3};
use crate::shape::{
    hull, lemma_all_wf_concat, lemma_any_has_concat, lemma_hull, lemma_meet_all, lemma_minus_all,
    lemma_shift_all, meet_all, minus_all, shift_all,
};

verus! {

/// Prism subtraction covers the complement: for prism lists `a` and `b`, the
/// difference together with the intersection holds exactly the unit cubes of
/// `a`, and the difference shares no unit cube with `b`.
pub proof fn law_difference_covers_complement(a: Seq<Geom3>, b: Seq<Geom3>)
    requires
        all_wf(a),
        all_wf(b),
    ensures
        forall|x: int, y: int, z: int|
            any_has(minus_all(a, b) + meet_all(a, b), x, y, z) <==> any_has(a, x, y, z),
        forall|x: int, y: int, z: int| !any_has(meet_all(minus_all(a, b), b), x, y, z),
{
    lemma_minus_all(a, b);
    lemma_meet_all(a, b);
    lemma_any_has_concat(minus_all(a, b), meet_all(a, b));
    lemma_meet_all(minus_all(a, b), b);
}

/// Translation is a group action on the unit cubes of a shape: moving by `a`
/// and then by `b` gives the unit cubes of moving by `a + b`, and moving by
/// zero changes nothing.
pub proof fn law_translation_composes(
    s: Seq<Geom3>,
    ax: int,
    ay: int,
    az: int,
    bx: int,
    by: int,
    bz: int,
)
    requires
        all_wf(s),
        s.len() > 0 ==> hull(s).can_shift(ax, ay, az),
        s.len() > 0 ==> hull(s).can_shift(ax + bx, ay + by, az + bz),
    ensures
        shift_all(shift_all(s, ax, ay, az), bx, by, bz) == shift_all(s, ax + bx, ay + by, az + bz),
        shift_all(s, 0, 0, 0) == s,
        forall|x: int, y: int, z: int|
            any_has(shift_all(shift_all(s, ax, ay, az), bx, by, bz), x, y, z) <==> any_has(
                s,
                x - (ax + bx),
                y - (ay + by),
                z - (az + bz),
            ),
{
    lemma_hull(s);
    let once = shift_all(s, ax, ay, az);
    let twice = shift_all(once, bx, by, bz);
    let direct = shift_all(s, ax + bx, ay + by, az + bz);
    assert forall|i: int| 0 <= i < s.len() implies twice[i] == direct[i] by {
        assert(s[i].can_shift(ax, ay, az));
        assert(s[i].can_shift(ax + bx, ay + by, az + bz));
    }
    assert(twice =~= direct);
    assert(shift_all(s, 0, 0, 0) =~= s);
    lemma_shift_all(s, ax + bx, ay + by, az + bz);
}

/// Translation commutes: moving by `a` then `b` gives the prisms of moving by
/// `b` then `a`.
pub proof fn law_translation_commutes(
    s: Seq<Geom3>,
    ax: int,
    ay: int,
    az: int,
    bx: int,
    by: int,
    bz: int,
)
    requires
        all_wf(s),
        s.len() > 0 ==> hull(s).can_shift(ax, ay, az),
        s.len() > 0 ==> hull(s).can_shift(bx, by, bz),
        s.len() > 0 ==> hull(s).can_shift(ax + bx, ay + by, az + bz),
    ensures
        shift_all(shift_all(s, ax, ay, az), bx, by, bz) == shift_all(
            shift_all(s, bx, by, bz),
            ax,
            ay,
            az,
        ),
{
    law_translation_composes(s, ax, ay, az, bx, by, bz);
    law_translation_composes(s, bx, by, bz, ax, ay, az);
}

/// CSG distributivity: intersecting a union with `c` gives the unit cubes of
/// the union of the two intersections with `c`.
pub proof fn law_intersection_distributes(a: Seq<Geom3>, b: Seq<Geom3>, c: Seq<Geom3>)
    requires
        all_wf(a),
        all_wf(b),
        all_wf(c),
    ensures
        forall|x: int, y: int, z: int|
            any_has(meet_all(a + b, c), x, y, z) <==> any_has(
                meet_all(a, c) + meet_all(b, c),
                x,
                y,
                z,
            ),
{
    lemma_all_wf_concat(a, b);
    lemma_meet_all(a + b, c);
    lemma_meet_all(a, c);
    lemma_meet_all(b, c);
    lemma_any_has_concat(a, b);
    lemma_any_has_concat(meet_all(a, c), meet_all(b, c));
}

/// Bounding box soundness: the hull of a list of valid prisms encloses each
/// of them, and no unit cube outside the hull lies in the list.
pub proof fn law_bound_is_sound(s: Seq<Geom3>)
    requires
        all_wf(s),
    ensures
        hull(s).wf(),
        forall|i: int|
            0 <= i < s.len() ==> {
                &&& hull(s).pos.0 <= (#[trigger] s[i]).pos.0 && s[i].x_hi() <= hull(s).x_hi()
                &&& hull(s).pos.1 <= s[i].pos.1 && s[i].y_hi() <= hull(s).y_hi()
                &&& hull(s).pos.2 <= s[i].pos.2 && s[i].z_hi() <= hull(s).z_hi()
            },
        forall|x: int, y: int, z: int| !hull(s).has(x, y, z) ==> !any_has(s, x, y, z),
{
    lemma_hull(s);
}

} // verus!
