use vstd::prelude::*;

use crate::earclip::{triangles_from_polygon, triangulation, tri_view, valid_tri, Tri};
use crate::feature::{fits_i32, Interval, Overflow, Pipe};
use crate::geometry::{Point2, Vec3, UNIT};
use crate::meshutil::{estimate_vertex_normals, unit_or_zero, v3, vertex_normals, V3};

verus! {

/// The most boundary points that one mesh may have, so that its indices fit in `u32`.
pub const MAX_POINTS: usize = 0x4000_0000;

/// Half a turn, in fixed-point degrees.
pub const HALF_TURN: i32 = 180 * UNIT;

/// A texture coordinate pair, in fixed point.
#[derive(Clone, Copy, Debug, PartialEq, Eq, Structural)]
pub struct Uv {
    pub u: i32,
    pub v: i32,
}

/// Buffers of a triangle mesh: `positions`, `normals` and `uvs` in parallel, one entry per
/// vertex, and `indices` three per triangle.
#[derive(Clone, Debug)]
pub struct MeshBuffers {
    pub positions: Vec<Vec3>,
    pub normals: Vec<Vec3>,
    pub uvs: Vec<Uv>,
    pub indices: Vec<u32>,
}

/// The pipe for texture coordinates: longitudes and latitudes in degrees onto `0..=1`,
/// clamped.
pub open spec fn uv_pipe_spec() -> Pipe {
    Pipe {
        domain: Interval { start: (-HALF_TURN) as i32, end: HALF_TURN },
        range: Interval { start: 0, end: UNIT },
        overflow: Overflow::Saturate,
    }
}

pub fn uv_pipe() -> (r: Pipe)
    ensures
        r == uv_pipe_spec(),
        r.wf(),
{
    Pipe::new(Interval::new(-HALF_TURN, HALF_TURN), Interval::new(0, UNIT)).overflow(
        Overflow::Saturate,
    )
}

/// The scene position of a boundary point: its remapped x, the altitude, its remapped y.
pub open spec fn scene_position(p: Point2, altitude: i32, lon_pipe: Pipe, lat_pipe: Pipe) -> V3 {
    (lon_pipe.spec_apply(p.x as int), altitude as int, lat_pipe.spec_apply(p.y as int))
}

/// Whether a mesh can be built: few enough points, and every remapped coordinate fits in
/// an `i32`.
pub open spec fn meshable(points: Seq<Point2>, altitude: i32, lon_pipe: Pipe, lat_pipe: Pipe) -> bool {
    &&& points.len() <= MAX_POINTS
    &&& forall|i: int|
        0 <= i < points.len() ==> {
            let q = #[trigger] scene_position(points[i], altitude, lon_pipe, lat_pipe);
            fits_i32(q.0) && fits_i32(q.2)
        }
}

pub open spec fn corner(t: Tri, c: int) -> int {
    if c == 0 {
        t.0
    } else if c == 1 {
        t.1
    } else {
        t.2
    }
}

/// The triangles' corners, flattened, in reverse order.
pub open spec fn reversed_corners(tris: Seq<Tri>) -> Seq<int> {
    let total = 3 * tris.len();
    Seq::new(total as nat, |k: int| corner(tris[(total - 1 - k) / 3], (total - 1 - k) % 3))
}

/// `m` is the mesh of the boundary `points`: positions remapped through the pipes at the
/// given altitude, texture coordinates through `uv_pipe`, the ear-clipping triangles with
/// their corners in reverse order, and the estimated vertex normals.
pub open spec fn is_mesh_of(
    m: MeshBuffers,
    points: Seq<Point2>,
    altitude: i32,
    lon_pipe: Pipe,
    lat_pipe: Pipe,
) -> bool {
    &&& m.positions@.len() == points.len()
    &&& forall|i: int|
        0 <= i < points.len() ==> v3(#[trigger] m.positions@[i]) == scene_position(
            points[i],
            altitude,
            lon_pipe,
            lat_pipe,
        )
    &&& m.uvs@.len() == points.len()
    &&& forall|i: int|
        0 <= i < points.len() ==> #[trigger] m.uvs@[i] == (Uv {
            u: uv_pipe_spec().spec_apply(points[i].x as int) as i32,
            v: uv_pipe_spec().spec_apply(points[i].y as int) as i32,
        })
    &&& m.indices@.len() == reversed_corners(triangulation(points)).len()
    &&& forall|k: int|
        0 <= k < m.indices@.len() ==> #[trigger] m.indices@[k] as int == reversed_corners(
            triangulation(points),
        )[k]
    &&& m.normals@.len() == points.len()
    &&& forall|i: int|
        0 <= i < points.len() ==> v3(#[trigger] m.normals@[i]) == vertex_normals(
            m.positions@,
            m.indices@,
        )[i]
    &&& forall|i: int| 0 <= i < points.len() ==> unit_or_zero(v3(#[trigger] m.normals@[i]))
}

/// Build the mesh of one polygon boundary (counter-clockwise, the first point not repeated
/// at the end), or `None` where it has more than `MAX_POINTS` points or a remapped
/// coordinate leaves `i32`.
pub fn polygon_mesh(points: &[Point2], altitude: i32, lon_pipe: &Pipe, lat_pipe: &Pipe) -> (r:
    Option<MeshBuffers>)
    requires
        lon_pipe.wf(),
        lat_pipe.wf(),
    ensures
        r.is_some() == meshable(points@, altitude, *lon_pipe, *lat_pipe),
        r matches Some(m) ==> is_mesh_of(m, points@, altitude, *lon_pipe, *lat_pipe),
{
    let n = points.len();
    if n > MAX_POINTS {
        return None;
    }
    let uvp = uv_pipe();
    let mut positions: Vec<Vec3> = Vec::new();
    let mut uvs: Vec<Uv> = Vec::new();
    let mut i: usize = 0;
    while i < n
        invariant
            n == points@.len(),
            n <= MAX_POINTS,
            lon_pipe.wf(),
            lat_pipe.wf(),
            uvp == uv_pipe_spec(),
            i <= n,
            positions@.len() == i,
            uvs@.len() == i,
            forall|j: int|
                0 <= j < i ==> {
                    let q = #[trigger] scene_position(points@[j], altitude, *lon_pipe, *lat_pipe);
                    fits_i32(q.0) && fits_i32(q.2)
                },
            forall|j: int|
                0 <= j < i ==> v3(#[trigger] positions@[j]) == scene_position(
                    points@[j],
                    altitude,
                    *lon_pipe,
                    *lat_pipe,
                ),
            forall|j: int|
                0 <= j < i ==> #[trigger] uvs@[j] == (Uv {
                    u: uv_pipe_spec().spec_apply(points@[j].x as int) as i32,
                    v: uv_pipe_spec().spec_apply(points@[j].y as int) as i32,
                }),
        decreases n - i,
    {
        let p = points[i];
        let x = match lon_pipe.checked_apply(p.x) {
            Some(x) => x,
            None => {
                assert(!meshable(points@, altitude, *lon_pipe, *lat_pipe)) by {
                    let q = scene_position(points@[i as int], altitude, *lon_pipe, *lat_pipe);
                }
                return None;
            },
        };
        let z = match lat_pipe.checked_apply(p.y) {
            Some(z) => z,
            None => {
                assert(!meshable(points@, altitude, *lon_pipe, *lat_pipe)) by {
                    let q = scene_position(points@[i as int], altitude, *lon_pipe, *lat_pipe);
                }
                return None;
            },
        };
        positions.push(Vec3 { x, y: altitude, z });
        uvs.push(Uv { u: uvp.apply(p.x), v: uvp.apply(p.y) });
        i = i + 1;
    }
    let tris = triangles_from_polygon(points);
    let ghost tv = tri_view(tris@);
    let ghost rc = reversed_corners(tv);
    let total = 3 * tris.len();
    let mut indices: Vec<u32> = Vec::new();
    let mut k: usize = 0;
    while k < total
        invariant
            n == points@.len(),
            n <= MAX_POINTS,
            tv == tri_view(tris@),
            tv == triangulation(points@),
            rc == reversed_corners(tv),
            total == 3 * tris@.len(),
            forall|t: int| 0 <= t < tv.len() ==> valid_tri(#[trigger] tv[t], n as int),
            k <= total,
            indices@.len() == k,
            forall|j: int| 0 <= j < k ==> #[trigger] indices@[j] as int == rc[j],
        decreases total - k,
    {
        let j = total - 1 - k;
        let t = tris[j / 3];
        let c = t[j % 3];
        assert(valid_tri(tv[j as int / 3], n as int));
        indices.push(c as u32);
        k = k + 1;
    }
    proof {
        assert forall|j: int| 0 <= j < indices@.len() implies (#[trigger] indices@[j] as int)
            < positions@.len() by {
            let jj = total - 1 - j;
            assert(valid_tri(tv[jj / 3], n as int));
        }
    }
    let normals = estimate_vertex_normals(&positions, &indices);
    Some(MeshBuffers { positions, normals, uvs, indices })
}

/// A map of polygons, with the pipes from longitudes and latitudes to scene coordinates.
#[derive(Clone, Copy, Debug)]
pub struct USMap {
    pub lat_pipe: Pipe,
    pub lon_pipe: Pipe,
}

impl USMap {
    pub fn new(lon_pipe: Pipe, lat_pipe: Pipe) -> (r: USMap)
        ensures
            r.lon_pipe == lon_pipe,
            r.lat_pipe == lat_pipe,
    {
        USMap { lat_pipe, lon_pipe }
    }

    /// The mesh of one polygon boundary on this map, as `polygon_mesh` builds it.
    pub fn county_mesh(&self, points: &[Point2], altitude: i32) -> (r: Option<MeshBuffers>)
        requires
            self.lon_pipe.wf(),
            self.lat_pipe.wf(),
        ensures
            r.is_some() == meshable(points@, altitude, self.lon_pipe, self.lat_pipe),
            r matches Some(m) ==> is_mesh_of(m, points@, altitude, self.lon_pipe, self.lat_pipe),
    {
        polygon_mesh(points, altitude, &self.lon_pipe, &self.lat_pipe)
    }
}

/// Building the mesh twice from identical inputs gives identical buffers: each buffer is a
/// function of the boundary, the altitude and the two pipes alone.
pub proof fn lemma_mesh_idempotent(
    points: Seq<Point2>,
    altitude: i32,
    lon_pipe: Pipe,
    lat_pipe: Pipe,
    m1: MeshBuffers,
    m2: MeshBuffers,
)
    requires
        is_mesh_of(m1, points, altitude, lon_pipe, lat_pipe),
        is_mesh_of(m2, points, altitude, lon_pipe, lat_pipe),
    ensures
        m1.positions@ == m2.positions@,
        m1.normals@ == m2.normals@,
        m1.uvs@ == m2.uvs@,
        m1.indices@ == m2.indices@,
{
    assert forall|i: int| 0 <= i < points.len() implies m1.positions@[i] == m2.positions@[i] by {
        assert(v3(m1.positions@[i]) == v3(m2.positions@[i]));
    }
    assert(m1.positions@ =~= m2.positions@);
    assert forall|k: int| 0 <= k < m1.indices@.len() implies m1.indices@[k] == m2.indices@[k] by {
        assert(m1.indices@[k] as int == m2.indices@[k] as int);
    }
    assert(m1.indices@ =~= m2.indices@);
    assert forall|i: int| 0 <= i < points.len() implies m1.normals@[i] == m2.normals@[i] by {
        assert(v3(m1.normals@[i]) == v3(m2.normals@[i]));
    }
    assert(m1.normals@ =~= m2.normals@);
    assert forall|i: int| 0 <= i < points.len() implies m1.uvs@[i] == m2.uvs@[i] by {
        assert(m1.uvs@[i] == m2.uvs@[i]);
    }
    assert(m1.uvs@ =~= m2.uvs@);
}

} // verus!
