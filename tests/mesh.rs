use avis::feature::{Interval, Overflow, Pipe};
use avis::geometry::{Point2, Vec3, UNIT};
use avis::meshutil::estimate_vertex_normals;
use avis::usmap::{polygon_mesh, uv_pipe, Uv};

fn v(x: i32, y: i32, z: i32) -> Vec3 {
    Vec3::new(x, y, z)
}

#[test]
fn flat_quad_has_vertical_unit_normals() {
    let positions = vec![v(0, 0, 0), v(UNIT, 0, 0), v(UNIT, 0, UNIT), v(0, 0, UNIT)];
    let indices = vec![0, 1, 2, 0, 2, 3];
    let normals = estimate_vertex_normals(&positions, &indices);
    assert_eq!(normals, vec![v(0, -UNIT, 0); 4]);

    let reversed: Vec<u32> = indices.iter().rev().copied().collect();
    let normals = estimate_vertex_normals(&positions, &reversed);
    assert_eq!(normals, vec![v(0, UNIT, 0); 4]);
}

#[test]
fn untouched_and_degenerate_vertices_keep_zero_normals() {
    let positions = vec![v(0, 0, 0), v(1, 1, 1), v(2, 2, 2), v(5, 5, 5)];
    let normals = estimate_vertex_normals(&positions, &[0, 1, 2]);
    assert_eq!(normals, vec![v(0, 0, 0); 4]);
    let normals = estimate_vertex_normals(&positions, &[]);
    assert_eq!(normals, vec![v(0, 0, 0); 4]);
}

#[test]
fn tilted_face_normal_is_rounded_to_nearest() {
    // Face in the plane x + z = 1: normal along (1, 0, 1) / sqrt(2).
    let positions = vec![v(UNIT, 0, 0), v(0, UNIT, UNIT), v(0, 0, UNIT)];
    let normals = estimate_vertex_normals(&positions, &[0, 1, 2]);
    assert_eq!(normals, vec![v(707107, 0, 707107); 3]);
}

#[test]
fn normals_average_over_faces() {
    // Two faces meeting at a right angle along the edge from vertex 0 to vertex 1.
    let positions = vec![v(0, 0, 0), v(UNIT, 0, 0), v(0, 0, UNIT), v(0, UNIT, 0)];
    let indices = vec![0, 2, 1, 0, 1, 3];
    let normals = estimate_vertex_normals(&positions, &indices);
    assert_eq!(normals[0], v(0, 707107, 707107));
    assert_eq!(normals[1], v(0, 707107, 707107));
    assert_eq!(normals[2], v(0, UNIT, 0));
    assert_eq!(normals[3], v(0, 0, UNIT));
}

fn map_pipes() -> (Pipe, Pipe) {
    let lat_pipe = Pipe::new(Interval::new(71 * UNIT, 25 * UNIT), Interval::new(-2 * UNIT, 2 * UNIT))
        .overflow(Overflow::Saturate);
    let lon_pipe = Pipe::new(Interval::new(-180 * UNIT, 65 * UNIT), Interval::new(-8 * UNIT, 8 * UNIT))
        .overflow(Overflow::Saturate);
    (lon_pipe, lat_pipe)
}

fn square() -> Vec<Point2> {
    vec![
        Point2::new(-100 * UNIT, 30 * UNIT),
        Point2::new(-90 * UNIT, 30 * UNIT),
        Point2::new(-90 * UNIT, 40 * UNIT),
        Point2::new(-100 * UNIT, 40 * UNIT),
    ]
}

#[test]
fn mesh_of_a_square() {
    let (lon_pipe, lat_pipe) = map_pipes();
    let mesh = polygon_mesh(&square(), 1000, &lon_pipe, &lat_pipe).unwrap();
    assert_eq!(mesh.positions.len(), 4);
    assert_eq!(mesh.positions[0], v(lon_pipe.apply(-100 * UNIT), 1000, lat_pipe.apply(30 * UNIT)));
    assert_eq!(mesh.positions[2], v(lon_pipe.apply(-90 * UNIT), 1000, lat_pipe.apply(40 * UNIT)));
    // triangles [0, 1, 2] and [0, 2, 3], flattened and reversed
    assert_eq!(mesh.indices, vec![3, 2, 0, 2, 1, 0]);
    assert_eq!(mesh.uvs[0], Uv { u: 222222, v: 583333 });
    assert_eq!(mesh.uvs[2], Uv { u: 250000, v: 611111 });
    // Latitudes run against z, so the faces turn downward.
    assert_eq!(mesh.normals, vec![v(0, -UNIT, 0); 4]);
}

#[test]
fn mesh_is_idempotent() {
    let (lon_pipe, lat_pipe) = map_pipes();
    let a = polygon_mesh(&square(), 7, &lon_pipe, &lat_pipe).unwrap();
    let b = polygon_mesh(&square(), 7, &lon_pipe, &lat_pipe).unwrap();
    assert_eq!(a.positions, b.positions);
    assert_eq!(a.normals, b.normals);
    assert_eq!(a.uvs, b.uvs);
    assert_eq!(a.indices, b.indices);
}

#[test]
fn mesh_whose_coordinates_leave_i32_is_refused() {
    let (lon_pipe, lat_pipe) = map_pipes();
    // -100 degrees times 1000 leaves i32
    let wide = Pipe::new(Interval::new(0, 1), Interval::new(0, 1000));
    assert!(polygon_mesh(&square(), 0, &wide, &lat_pipe).is_none());
    assert!(polygon_mesh(&square(), i32::MAX, &lon_pipe, &lat_pipe).is_some());
}

fn length_sq(n: Vec3) -> i64 {
    let (x, y, z) = (n.x as i64, n.y as i64, n.z as i64);
    x * x + y * y + z * z
}

fn unit_or_zero(n: Vec3) -> bool {
    let l = length_sq(n);
    l == 0 || ((UNIT as i64 - 1).pow(2) <= l && l <= (UNIT as i64 + 1).pow(2))
}

#[test]
fn nearly_opposite_faces_sum_to_the_right_direction() {
    // Face 0 has normal +x; face 1 has normal -x tilted by 1.5e-6 toward +y. Their sum
    // at vertex 0 points along +y.
    let positions = vec![v(0, 0, 0), v(0, UNIT, 0), v(0, 0, UNIT), v(15, 10 * UNIT, 0)];
    let normals = estimate_vertex_normals(&positions, &[0, 1, 2, 0, 2, 3]);
    assert_eq!(normals[0], v(1, UNIT, 0));
    assert_eq!(normals[1], v(UNIT, 0, 0));
    assert_eq!(normals[2], v(1, UNIT, 0));
    assert_eq!(normals[3], v(-UNIT, 1, 0));
    assert!(normals.iter().all(|&n| unit_or_zero(n)));
}

#[test]
fn tiny_faces_get_unit_normals() {
    let positions = vec![v(0, 0, 0), v(1, 1, 0), v(0, 1, 1)];
    let normals = estimate_vertex_normals(&positions, &[0, 1, 2]);
    assert_eq!(normals, vec![v(577350, -577350, 577350); 3]);
    // length 0.99999983, within one millionth of 1
    assert!(normals.iter().all(|&n| unit_or_zero(n)));
}

#[test]
fn faces_spanning_the_whole_coordinate_range() {
    let (lo, hi) = (i32::MIN, i32::MAX);
    let positions = vec![v(lo, 0, lo), v(hi, 0, lo), v(hi, 0, hi)];
    let normals = estimate_vertex_normals(&positions, &[0, 1, 2]);
    assert_eq!(normals, vec![v(0, -UNIT, 0); 3]);
}

#[test]
fn mesh_of_two_points_has_no_triangles() {
    let (lon_pipe, lat_pipe) = map_pipes();
    let pts = vec![Point2::new(0, 0), Point2::new(UNIT, UNIT)];
    let mesh = polygon_mesh(&pts, 0, &lon_pipe, &lat_pipe).unwrap();
    assert_eq!(mesh.positions.len(), 2);
    assert!(mesh.indices.is_empty());
    assert_eq!(mesh.normals, vec![v(0, 0, 0); 2]);
}

#[test]
fn uv_pipe_clamps_to_unit_square() {
    let p = uv_pipe();
    assert_eq!(p.apply(-180 * UNIT), 0);
    assert_eq!(p.apply(180 * UNIT), UNIT);
    assert_eq!(p.apply(0), UNIT / 2);
    assert_eq!(p.apply(-200 * UNIT), 0);
}

#[test]
fn map_builds_county_meshes_with_its_pipes() {
    let (lon_pipe, lat_pipe) = map_pipes();
    let map = avis::usmap::USMap::new(lon_pipe, lat_pipe);
    assert_eq!(map.lon_pipe, lon_pipe);
    assert_eq!(map.lat_pipe, lat_pipe);
    let via_map = map.county_mesh(&square(), 3).unwrap();
    let direct = polygon_mesh(&square(), 3, &lon_pipe, &lat_pipe).unwrap();
    assert_eq!(via_map.positions, direct.positions);
    assert_eq!(via_map.indices, direct.indices);
    assert_eq!(via_map.positions[1], v(lon_pipe.apply(-90 * UNIT), 3, lat_pipe.apply(30 * UNIT)));
}

#[test]
fn normals_are_within_one_unit_of_exact() {
    let positions = vec![v(0, 0, 0), v(3 * UNIT, UNIT, 0), v(0, 2 * UNIT, 5 * UNIT), v(-UNIT, 7, 2)];
    let indices = vec![0, 1, 2, 0, 2, 3];
    let normals = estimate_vertex_normals(&positions, &indices);
    let real = |p: Vec3| [p.x as f64, p.y as f64, p.z as f64];
    let mut sums = vec![[0.0f64; 3]; positions.len()];
    for t in indices.chunks(3) {
        let [p0, p1, p2] = [t[0], t[1], t[2]].map(|i| real(positions[i as usize]));
        let a = [p1[0] - p0[0], p1[1] - p0[1], p1[2] - p0[2]];
        let b = [p2[0] - p0[0], p2[1] - p0[1], p2[2] - p0[2]];
        let c = [a[1] * b[2] - a[2] * b[1], a[2] * b[0] - a[0] * b[2], a[0] * b[1] - a[1] * b[0]];
        let len = (c[0] * c[0] + c[1] * c[1] + c[2] * c[2]).sqrt();
        for &i in t {
            for k in 0..3 {
                sums[i as usize][k] += c[k] / len;
            }
        }
    }
    for (n, s) in normals.iter().zip(&sums) {
        let len = (s[0] * s[0] + s[1] * s[1] + s[2] * s[2]).sqrt();
        let exact = s.map(|c| c / len * UNIT as f64);
        assert!((n.x as f64 - exact[0]).abs() <= 1.0, "{:?} vs {:?}", n, exact);
        assert!((n.y as f64 - exact[1]).abs() <= 1.0, "{:?} vs {:?}", n, exact);
        assert!((n.z as f64 - exact[2]).abs() <= 1.0, "{:?} vs {:?}", n, exact);
        assert!(unit_or_zero(*n));
    }
}
