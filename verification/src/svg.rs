use vstd::prelude::*;
use vstd::string::StringExecFns;

use crate::color::Rgba;
use crate::poly::Polygon;

verus! {

/// The least and the greatest coordinates of the vertices of a picture
#[derive(Debug, Clone, Copy, PartialEq, Eq)]
pub struct Bounds {
    pub min_x: i64,
    pub min_y: i64,
    pub max_x: i64,
    pub max_y: i64,
}

/// The vertices of the first `n` polygons, one polygon after the other
pub open spec fn all_verts(polygons: Seq<Polygon>, n: int) -> Seq<(i64, i64)>
    decreases n,
{
    if n <= 0 {
        Seq::empty()
    } else {
        all_verts(polygons, n - 1) + polygons[n - 1].verts@
    }
}

/// Whether `b` holds the least and the greatest coordinates of the vertices
/// `verts`: every vertex lies within, and each bound is met by a vertex
pub open spec fn bounds_of(verts: Seq<(i64, i64)>, b: Bounds) -> bool {
    &&& forall|i: int|
        0 <= i < verts.len() ==> b.min_x <= (#[trigger] verts[i]).0 <= b.max_x && b.min_y
            <= verts[i].1 <= b.max_y
    &&& exists|i: int| 0 <= i < verts.len() && (#[trigger] verts[i]).0 == b.min_x
    &&& exists|i: int| 0 <= i < verts.len() && (#[trigger] verts[i]).0 == b.max_x
    &&& exists|i: int| 0 <= i < verts.len() && (#[trigger] verts[i]).1 == b.min_y
    &&& exists|i: int| 0 <= i < verts.len() && (#[trigger] verts[i]).1 == b.max_y
}

/// The bounds after one more vertex
fn widen(b: Option<Bounds>, v: (i64, i64)) -> (r: Bounds)
    ensures
        match b {
            None => r == (Bounds { min_x: v.0, min_y: v.1, max_x: v.0, max_y: v.1 }),
            Some(b) => r == (Bounds {
                min_x: if v.0 < b.min_x {
                    v.0
                } else {
                    b.min_x
                },
                min_y: if v.1 < b.min_y {
                    v.1
                } else {
                    b.min_y
                },
                max_x: if v.0 > b.max_x {
                    v.0
                } else {
                    b.max_x
                },
                max_y: if v.1 > b.max_y {
                    v.1
                } else {
                    b.max_y
                },
            }),
        },
{
    match b {
        None => Bounds { min_x: v.0, min_y: v.1, max_x: v.0, max_y: v.1 },
        Some(b) => Bounds {
            min_x: if v.0 < b.min_x {
                v.0
            } else {
                b.min_x
            },
            min_y: if v.1 < b.min_y {
                v.1
            } else {
                b.min_y
            },
            max_x: if v.0 > b.max_x {
                v.0
            } else {
                b.max_x
            },
            max_y: if v.1 > b.max_y {
                v.1
            } else {
                b.max_y
            },
        },
    }
}

/// Whether `r` is right for the vertices `verts`: nothing for none, else
/// their bounds
pub open spec fn bounds_ok(verts: Seq<(i64, i64)>, r: Option<Bounds>) -> bool {
    match r {
        None => verts.len() == 0,
        Some(b) => verts.len() > 0 && bounds_of(verts, b),
    }
}

proof fn lemma_widen(verts: Seq<(i64, i64)>, b: Option<Bounds>, v: (i64, i64), r: Bounds)
    requires
        bounds_ok(verts, b),
        match b {
            None => r == (Bounds { min_x: v.0, min_y: v.1, max_x: v.0, max_y: v.1 }),
            Some(b) => r == (Bounds {
                min_x: if v.0 < b.min_x {
                    v.0
                } else {
                    b.min_x
                },
                min_y: if v.1 < b.min_y {
                    v.1
                } else {
                    b.min_y
                },
                max_x: if v.0 > b.max_x {
                    v.0
                } else {
                    b.max_x
                },
                max_y: if v.1 > b.max_y {
                    v.1
                } else {
                    b.max_y
                },
            }),
        },
    ensures
        bounds_ok(verts.push(v), Some(r)),
{
    let now = verts.push(v);
    let last = verts.len() as int;
    assert(now[last] == v);
    match b {
        None => {
            assert(now[last].0 == r.min_x && now[last].1 == r.min_y);
        },
        Some(b) => {
            let i1 = choose|i: int| 0 <= i < verts.len() && (#[trigger] verts[i]).0 == b.min_x;
            let i2 = choose|i: int| 0 <= i < verts.len() && (#[trigger] verts[i]).0 == b.max_x;
            let i3 = choose|i: int| 0 <= i < verts.len() && (#[trigger] verts[i]).1 == b.min_y;
            let i4 = choose|i: int| 0 <= i < verts.len() && (#[trigger] verts[i]).1 == b.max_y;
            assert(now[i1] == verts[i1] && now[i2] == verts[i2] && now[i3] == verts[i3] && now[i4]
                == verts[i4]);
            assert(now[if v.0 < b.min_x { last } else { i1 }].0 == r.min_x);
            assert(now[if v.0 > b.max_x { last } else { i2 }].0 == r.max_x);
            assert(now[if v.1 < b.min_y { last } else { i3 }].1 == r.min_y);
            assert(now[if v.1 > b.max_y { last } else { i4 }].1 == r.max_y);
            assert forall|i: int| 0 <= i < now.len() implies r.min_x <= (#[trigger] now[i]).0
                <= r.max_x && r.min_y <= now[i].1 <= r.max_y by {
                if i < last {
                    assert(now[i] == verts[i]);
                }
            }
        },
    }
}

/// The least and the greatest coordinates over all vertices of the
/// polygons, nothing where there is no vertex
pub fn bounds(polygons: &Vec<Polygon>) -> (r: Option<Bounds>)
    ensures
        bounds_ok(all_verts(polygons@, polygons@.len() as int), r),
{
    let mut found: Option<Bounds> = None;
    let n = polygons.len();
    let mut i: usize = 0;
    while i < n
        invariant
            n == polygons@.len(),
            i <= n,
            bounds_ok(all_verts(polygons@, i as int), found),
        decreases n - i,
    {
        let verts = &polygons[i].verts;
        let ghost done = all_verts(polygons@, i as int);
        let m = verts.len();
        let mut j: usize = 0;
        assert(verts@.take(0) =~= Seq::<(i64, i64)>::empty());
        assert(done + verts@.take(0) =~= done);
        while j < m
            invariant
                m == verts@.len(),
                j <= m,
                bounds_ok(done + verts@.take(j as int), found),
            decreases m - j,
        {
            let v = verts[j];
            let next = widen(found, v);
            proof {
                lemma_widen(done + verts@.take(j as int), found, v, next);
                assert((done + verts@.take(j as int)).push(v) =~= done + verts@.take(j as int + 1));
            }
            found = Some(next);
            j += 1;
        }
        assert(verts@.take(m as int) =~= verts@);
        i += 1;
    }
    found
}

/// A point of a path, each coordinate as it is written
#[derive(Debug, PartialEq, Eq)]
pub struct Written {
    pub x: String,
    pub y: String,
}

/// The text of the first `n` points of a path: each point as its two
/// coordinates with a blank between them, `M` before the first point and `L`
/// before each further one
pub open spec fn points_text(points: Seq<Written>, n: int) -> Seq<char>
    decreases n,
{
    if n <= 0 {
        Seq::empty()
    } else {
        points_text(points, n - 1) + (if n == 1 {
            seq!['M']
        } else {
            seq!['L']
        }) + points[n - 1].x@ + seq![' '] + points[n - 1].y@
    }
}

/// The text of a closed path through the points: the points, then `Z`
pub open spec fn path_text(points: Seq<Written>) -> Seq<char> {
    points_text(points, points.len() as int) + seq!['Z']
}

/// The element of a polygon: nothing for no point, else a `path` with the
/// closed path through the points as `d` and the colour as `fill`
pub open spec fn polygon_text(color: Rgba, points: Seq<Written>) -> Seq<char> {
    if points.len() == 0 {
        Seq::empty()
    } else {
        "<path d=\""@ + path_text(points) + "\" fill=\""@ + color.hex() + "\"/>"@
    }
}

/// The elements `tags` one after the other
pub open spec fn joined(tags: Seq<String>, n: int) -> Seq<char>
    decreases n,
{
    if n <= 0 {
        Seq::empty()
    } else {
        joined(tags, n - 1) + tags[n - 1]@
    }
}

/// The document: the opening `svg` element with the width and the height as
/// they are written, the elements, and the closing element
pub open spec fn document_text(width: Seq<char>, height: Seq<char>, tags: Seq<String>) -> Seq<char> {
    "<svg xmlns=\"http://www.w3.org/2000/svg\" version=\"1.1\" width=\""@ + width + "\" height=\""@
        + height + "\">"@ + joined(tags, tags.len() as int) + "</svg>"@
}

/// The closed path through the points: `M`, the points with `L` between
/// them, and `Z`
pub fn make_path(points: &Vec<Written>) -> (r: String)
    ensures
        r@ == path_text(points@),
{
    proof {
        reveal_strlit("M");
        reveal_strlit("L");
        reveal_strlit(" ");
        reveal_strlit("Z");
    }
    let mut s = String::new();
    let n = points.len();
    let mut i: usize = 0;
    while i < n
        invariant
            n == points@.len(),
            i <= n,
            s@ == points_text(points@, i as int),
            "M"@ == seq!['M'],
            "L"@ == seq!['L'],
            " "@ == seq![' '],
        decreases n - i,
    {
        if i == 0 {
            s.append("M");
        } else {
            s.append("L");
        }
        s.append(points[i].x.as_str());
        s.append(" ");
        s.append(points[i].y.as_str());
        i += 1;
        assert(s@ =~= points_text(points@, i as int));
    }
    s.append("Z");
    s
}

/// The element of a polygon in the colour `color` through the points
pub fn make_polygon(color: Rgba, points: &Vec<Written>) -> (r: String)
    ensures
        r@ == polygon_text(color, points@),
{
    if points.len() == 0 {
        return String::new();
    }
    let path = make_path(points);
    let fill = color.to_string();
    let mut s = String::from_str("<path d=\"");
    s.append(path.as_str());
    s.append("\" fill=\"");
    s.append(fill.as_str());
    s.append("\"/>");
    s
}

/// The document with the width and the height as they are written and the
/// elements `tags`
pub fn make_document(width: &str, height: &str, tags: &Vec<String>) -> (r: String)
    ensures
        r@ == document_text(width@, height@, tags@),
{
    let mut s = String::from_str("<svg xmlns=\"http://www.w3.org/2000/svg\" version=\"1.1\" width=\"");
    s.append(width);
    s.append("\" height=\"");
    s.append(height);
    s.append("\">");
    let ghost head = s@;
    let n = tags.len();
    let mut i: usize = 0;
    assert(s@ =~= head + joined(tags@, 0));
    while i < n
        invariant
            n == tags@.len(),
            i <= n,
            s@ == head + joined(tags@, i as int),
        decreases n - i,
    {
        s.append(tags[i].as_str());
        i += 1;
        assert(s@ =~= head + joined(tags@, i as int));
    }
    s.append("</svg>");
    s
}

/// A path is closed: the text of a path through one point or more starts
/// with `M` and ends with `Z`.
pub proof fn law_path_is_closed(points: Seq<Written>)
    requires
        points.len() > 0,
    ensures
        path_text(points).len() >= 2,
        path_text(points).first() == 'M',
        path_text(points).last() == 'Z',
{
    lemma_points_start(points, points.len() as int);
}

/// The text of one point or more starts with `M`.
pub proof fn lemma_points_start(points: Seq<Written>, n: int)
    requires
        0 < n <= points.len(),
    ensures
        points_text(points, n).len() >= 1,
        points_text(points, n)[0] == 'M',
    decreases n,
{
    if n > 1 {
        lemma_points_start(points, n - 1);
    } else {
        assert(points_text(points, 0).len() == 0);
    }
}

} // verus!
