//! Building triangles from an indexed mesh: each face becomes a fan of
//! triangles around its first vertex. Reading mesh files is I/O and
//! happens outside the library; the vertex and face lists arrive here
//! as plain values.

use vstd::prelude::*;
use crate::vec3::{Vec3, Point3, in_range, spec_sub, spec_dot, spec_cross_axis};
use crate::math::MAX_COORD;
use crate::triangle::{Triangle, triangle_wf};
use crate::quad::spec_plane_box;

verus! {

/// The fan triangle over corners `face[i0]`, `face[i1]` and `face[i2]`,
/// with the derived plane fields its constructor computes.
pub open spec fn spec_fan_triangle(vertices: Seq<Point3>, i0: int, i1: int, i2: int,
    mat: usize) -> Triangle {
    let corner = vertices[i0];
    let e1 = spec_sub(vertices[i1], corner);
    let e2 = spec_sub(vertices[i2], corner);
    let n = Vec3 {
        x: spec_cross_axis(e1, e2, 0) as i64,
        y: spec_cross_axis(e1, e2, 1) as i64,
        z: spec_cross_axis(e1, e2, 2) as i64,
    };
    Triangle {
        corner,
        edge1: e1,
        edge2: e2,
        mat,
        bbox: spec_plane_box(corner, e1, e2),
        normal: n,
        offset: spec_dot(n, corner) as i64,
    }
}

/// Whether the fan step at corner `m` contributes a triangle: both
/// indices in range and a nonzero cross product.
pub open spec fn spec_fan_keeps(vertices: Seq<Point3>, face: Seq<usize>, m: int) -> bool {
    &&& face[m] < vertices.len()
    &&& face[m + 1] < vertices.len()
    &&& ({
        let corner = vertices[face[0] as int];
        let e1 = spec_sub(vertices[face[m] as int], corner);
        let e2 = spec_sub(vertices[face[m + 1] as int], corner);
        !(spec_cross_axis(e1, e2, 0) == 0 && spec_cross_axis(e1, e2, 1) == 0
            && spec_cross_axis(e1, e2, 2) == 0)
    })
}

/// The triangles the fan steps below `k` contribute, in order.
pub open spec fn spec_fan_upto(vertices: Seq<Point3>, face: Seq<usize>, mat: usize,
    k: int) -> Seq<Triangle>
    decreases k,
{
    if k <= 1 {
        Seq::empty()
    } else {
        let prev = spec_fan_upto(vertices, face, mat, k - 1);
        if spec_fan_keeps(vertices, face, k - 1) {
            prev.push(spec_fan_triangle(vertices, face[0] as int, face[k - 1] as int,
                face[k] as int, mat))
        } else {
            prev
        }
    }
}

/// The triangles one face contributes: its whole fan, or nothing when
/// the face has fewer than three corners or a bad first index.
pub open spec fn spec_face_triangles(vertices: Seq<Point3>, face: Seq<usize>,
    mat: usize) -> Seq<Triangle> {
    if face.len() >= 3 && face[0] < vertices.len() {
        spec_fan_upto(vertices, face, mat, face.len() - 1)
    } else {
        Seq::empty()
    }
}

/// The triangles of the first `f` faces, concatenated in order.
pub open spec fn spec_mesh_upto(vertices: Seq<Point3>, faces: Seq<Seq<usize>>, mat: usize,
    f: int) -> Seq<Triangle>
    decreases f,
{
    if f <= 0 {
        Seq::empty()
    } else {
        spec_mesh_upto(vertices, faces, mat, f - 1) + spec_face_triangles(vertices,
            faces[f - 1], mat)
    }
}

/// Every triangle the whole mesh contributes, in face order.
pub open spec fn spec_mesh_triangles(vertices: Seq<Point3>, faces: Seq<Seq<usize>>,
    mat: usize) -> Seq<Triangle> {
    spec_mesh_upto(vertices, faces, mat, faces.len() as int)
}

/// Triangulates the faces over the vertex list: each face becomes a fan
/// of triangles around its first corner, so faces with more than three
/// corners are kept whole rather than cut down to their first triangle.
/// Faces with fewer than three corners, out-of-range indices, or
/// degenerate edges contribute nothing instead of stopping the build;
/// the caller that reads mesh files rejects malformed data loudly
/// before it reaches this point.
pub fn triangles_from_mesh(vertices: &Vec<Point3>, faces: &Vec<Vec<usize>>, mat: usize) -> (out:
    Vec<Triangle>)
    requires
        forall|i: int| 0 <= i < vertices@.len() ==> in_range(#[trigger] vertices@[i],
            MAX_COORD as int / 2),
    ensures
        out@ == spec_mesh_triangles(vertices@, faces@.map_values(|fc: Vec<usize>| fc@), mat),
        forall|i: int| 0 <= i < out@.len() ==> triangle_wf(#[trigger] out@[i])
            && out@[i].mat == mat,
{
    let ghost gfaces = faces@.map_values(|fc: Vec<usize>| fc@);
    let mut out: Vec<Triangle> = Vec::new();
    let mut f: usize = 0;
    while f < faces.len()
        invariant
            gfaces == faces@.map_values(|fc: Vec<usize>| fc@),
            f <= faces@.len(),
            forall|i: int| 0 <= i < vertices@.len() ==> in_range(#[trigger] vertices@[i],
                MAX_COORD as int / 2),
            out@ == spec_mesh_upto(vertices@, gfaces, mat, f as int),
            forall|i: int| 0 <= i < out@.len() ==> triangle_wf(#[trigger] out@[i])
                && out@[i].mat == mat,
        decreases faces.len() - f,
    {
        let face = &faces[f];
        proof {
            assert(gfaces[f as int] == face@);
        }
        if face.len() >= 3 {
            let i0 = face[0];
            if i0 < vertices.len() {
                let corner = vertices[i0];
                let mut k: usize = 1;
                while k < face.len() - 1
                    invariant
                        1 <= k <= face@.len() - 1,
                        face@.len() >= 3,
                        i0 == face@[0],
                        i0 < vertices@.len(),
                        corner == vertices@[i0 as int],
                        forall|i: int| 0 <= i < vertices@.len() ==> in_range(
                            #[trigger] vertices@[i], MAX_COORD as int / 2),
                        out@ == spec_mesh_upto(vertices@, gfaces, mat, f as int)
                            + spec_fan_upto(vertices@, face@, mat, k as int),
                        forall|i: int| 0 <= i < out@.len() ==> triangle_wf(#[trigger] out@[i])
                            && out@[i].mat == mat,
                    decreases face.len() - k,
                {
                    let i1 = face[k];
                    let i2 = face[k + 1];
                    if i1 < vertices.len() && i2 < vertices.len() {
                        let e1 = vertices[i1].sub(&corner);
                        let e2 = vertices[i2].sub(&corner);
                        let n = e1.cross(&e2);
                        if !(n.x == 0 && n.y == 0 && n.z == 0) {
                            let tri = Triangle::new(corner, e1, e2, mat);
                            proof {
                                assert(spec_fan_keeps(vertices@, face@, k as int));
                                assert(tri == spec_fan_triangle(vertices@, face@[0] as int,
                                    face@[k as int] as int, face@[k as int + 1] as int, mat));
                            }
                            out.push(tri);
                        } else {
                            proof {
                                assert(!spec_fan_keeps(vertices@, face@, k as int));
                            }
                        }
                    } else {
                        proof {
                            assert(!spec_fan_keeps(vertices@, face@, k as int));
                        }
                    }
                    proof {
                        assert(spec_fan_upto(vertices@, face@, mat, k as int + 1)
                            == if spec_fan_keeps(vertices@, face@, k as int) {
                            spec_fan_upto(vertices@, face@, mat, k as int).push(
                                spec_fan_triangle(vertices@, face@[0] as int,
                                face@[k as int] as int, face@[k as int + 1] as int, mat))
                        } else {
                            spec_fan_upto(vertices@, face@, mat, k as int)
                        });
                        assert(out@ =~= spec_mesh_upto(vertices@, gfaces, mat, f as int)
                            + spec_fan_upto(vertices@, face@, mat, k as int + 1));
                    }
                    k += 1;
                }
                proof {
                    assert(spec_face_triangles(vertices@, face@, mat) == spec_fan_upto(
                        vertices@, face@, mat, face@.len() - 1));
                }
            } else {
                proof {
                    assert(out@ =~= out@ + spec_face_triangles(vertices@, face@, mat));
                }
            }
        } else {
            proof {
                assert(out@ =~= out@ + spec_face_triangles(vertices@, face@, mat));
            }
        }
        proof {
            assert(spec_mesh_upto(vertices@, gfaces, mat, f as int + 1) == spec_mesh_upto(
                vertices@, gfaces, mat, f as int) + spec_face_triangles(vertices@,
                gfaces[f as int], mat));
            assert(out@ =~= spec_mesh_upto(vertices@, gfaces, mat, f as int + 1));
        }
        f += 1;
    }
    proof {
        assert(f as int == gfaces.len());
    }
    out
}

} // verus!
