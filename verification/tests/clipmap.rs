use clipmap::frac::Frac;
use clipmap::geom::{MeshBuffer, Point2, Vertex};
use clipmap::lod::{Lod, MAX_SUBDIVISIONS};
use clipmap::mesh::ClipmapMesh;
use clipmap::order::sorted_indices;
use clipmap::props::{parse_property_name, PropKey};
use clipmap::stitch::{stitch, Dir};

fn fval(f: &Frac) -> f64 {
    f.num as f64 / f.den as f64
}

fn vert3(v: &Vertex) -> (f64, f64, f64) {
    (fval(&v.x), fval(&v.y), fval(&v.z))
}

fn mesh_of(levels: Vec<Lod>) -> MeshBuffer {
    let mut m = ClipmapMesh::new();
    m.set_configuration(levels);
    m.generate_mesh()
}

fn same_point(a: &Vertex, b: &Vertex) -> bool {
    a.x.num == b.x.num && a.x.den == b.x.den && a.z.num == b.z.num && a.z.den == b.z.den
}

#[test]
fn empty_config_gives_one_degenerate_triangle() {
    let m = mesh_of(vec![]);
    assert_eq!(m.triangle_count(), 1);
    assert_eq!(m.vertex_count(), 3);
    for i in 0..3 {
        let v = m.vertex_at(i);
        assert_eq!(vert3(&v), (0.0, 0.0, 0.0));
    }
}

#[test]
fn single_lod_solid_grid() {
    // One 4x4 level with 1 subdivision: a 2x2 grid of cells, 8 triangles,
    // no stitching, spanning exactly [-2, 2] on both plane axes.
    let m = mesh_of(vec![Lod::new(4, 1)]);
    assert_eq!(m.triangle_count(), 8);
    assert_eq!(m.vertex_count(), 24);
    let mut min_x = f64::INFINITY;
    let mut max_x = f64::NEG_INFINITY;
    let mut min_z = f64::INFINITY;
    let mut max_z = f64::NEG_INFINITY;
    for i in 0..m.vertex_count() {
        let (x, y, z) = vert3(&m.vertex_at(i));
        assert_eq!(y, 0.0);
        min_x = min_x.min(x);
        max_x = max_x.max(x);
        min_z = min_z.min(z);
        max_z = max_z.max(z);
    }
    assert_eq!((min_x, max_x), (-2.0, 2.0));
    assert_eq!((min_z, max_z), (-2.0, 2.0));
}

#[test]
fn single_lod_first_cell_exact() {
    // Cell (0, 0) of the 4x4 level has even parity: diagonal a-c, so the
    // vertices are a,b,c then a,c,d.
    let m = mesh_of(vec![Lod::new(4, 1)]);
    let expected = [
        (-2.0, 0.0, -2.0),
        (0.0, 0.0, -2.0),
        (0.0, 0.0, 0.0),
        (-2.0, 0.0, -2.0),
        (0.0, 0.0, 0.0),
        (-2.0, 0.0, 0.0),
    ];
    for (i, e) in expected.iter().enumerate() {
        assert_eq!(vert3(&m.vertex_at(i)), *e);
    }
}

#[test]
fn constant_up_normal() {
    let m = mesh_of(vec![Lod::new(4, 1)]);
    let n = m.normal();
    assert_eq!(vert3(&n), (0.0, 1.0, 0.0));
}

#[test]
fn stable_tie_break_processes_original_order_first() {
    // Equal sizes: the stable sort keeps configuration order, so the level
    // at index 0 (no subdivisions, one 2x2 cell) is tessellated first.
    let m = mesh_of(vec![Lod::new(2, 0), Lod::new(2, 3)]);
    let expected = [
        (-1.0, 0.0, -1.0),
        (1.0, 0.0, -1.0),
        (1.0, 0.0, 1.0),
        (-1.0, 0.0, -1.0),
        (1.0, 0.0, 1.0),
        (-1.0, 0.0, 1.0),
    ];
    for (i, e) in expected.iter().enumerate() {
        assert_eq!(vert3(&m.vertex_at(i)), *e);
    }
    // Swapped: index 0 is now the subdivided level (quad side 0.5), and it
    // still goes first.
    let m2 = mesh_of(vec![Lod::new(2, 3), Lod::new(2, 0)]);
    let (bx, _, bz) = vert3(&m2.vertex_at(1));
    assert_eq!((bx, bz), (-0.5, -1.0));
}

#[test]
fn sorted_indices_ascending_and_stable() {
    let lods = vec![Lod::new(2, 0), Lod::new(1, 5), Lod::new(2, 9)];
    let ord = sorted_indices(&lods);
    assert_eq!(ord, vec![1, 0, 2]);
}

#[test]
fn two_lod_nesting_counts() {
    // LOD0 = {2, 1} solid (8 triangles); LOD1 = {6, 2} is a ring with a 2x2
    // hole: 8 of its 9 cells emitted (16 triangles); each of the 4 seams has
    // na = 3 outer and nb = 2 inner steps (5 triangles each).
    let m = mesh_of(vec![Lod::new(2, 1), Lod::new(6, 2)]);
    assert_eq!(m.triangle_count(), 8 + 16 + 4 * (3 + 2));
    assert_eq!(m.vertex_count(), 3 * (8 + 16 + 20));
}

#[test]
fn two_lod_ring_avoids_open_hole() {
    // No vertex of the outer ring's tessellation lies strictly inside the
    // open hole region (-1, 1) x (-1, 1).
    let m = mesh_of(vec![Lod::new(2, 1), Lod::new(6, 2)]);
    // LOD0 contributes the first 24 vertices; the ring tessellation of LOD1
    // is the next 16 * 3 = 48 vertices.
    for i in 24..(24 + 48) {
        let (x, _, z) = vert3(&m.vertex_at(i));
        assert!(
            !(x.abs() < 1.0 && z.abs() < 1.0),
            "ring vertex ({x}, {z}) strictly inside the hole"
        );
    }
}

#[test]
fn straddling_cells_emitted_whole() {
    // LOD1 = {4, 1} over a {2, 0} hole: every 2x2 cell touches the hole but
    // none lies fully inside, so all 4 are emitted whole and the seams still
    // run: 2 + 8 + 4 * (2 + 1) triangles.
    let m = mesh_of(vec![Lod::new(2, 0), Lod::new(4, 1)]);
    assert_eq!(m.triangle_count(), 2 + 8 + 4 * 3);
}

#[test]
fn fully_hidden_level_emits_hole_only_ring() {
    // A level the same size as its predecessor: every cell of the outer
    // level lies inside the hole, the ring is empty, only seams remain.
    let m = mesh_of(vec![Lod::new(2, 0), Lod::new(2, 3)]);
    // LOD0: 2 triangles. LOD1 ring: all 16 cells are inside the 2x2 hole,
    // so 0 triangles; seams: i1 = 0, na = 4, nb = 1: 4 * 5 triangles.
    assert_eq!(m.triangle_count(), 2 + 0 + 4 * 5);
}

#[test]
fn checkerboard_parity_alternates_on_3x3() {
    // A 3x3 grid: cell (i, j) is split along a-d iff (i + j) is odd. In the
    // even split (a,b,c / a,c,d) vertex 2 equals vertex 4; in the odd split
    // (a,b,d / b,c,d) vertex 1 equals vertex 3 and vertex 2 equals vertex 5.
    let m = mesh_of(vec![Lod::new(3, 2)]);
    assert_eq!(m.triangle_count(), 18);
    let mut saw_even = false;
    let mut saw_odd = false;
    for i in 0..3usize {
        for j in 0..3usize {
            let base = (i * 3 + j) * 6;
            let v: Vec<Vertex> = (0..6).map(|k| m.vertex_at(base + k)).collect();
            if (i + j) % 2 == 1 {
                assert!(same_point(&v[1], &v[3]), "cell ({i},{j}) not split along a-d");
                assert!(same_point(&v[2], &v[5]));
                assert!(!same_point(&v[2], &v[4]));
                saw_odd = true;
            } else {
                assert!(same_point(&v[2], &v[4]), "cell ({i},{j}) not split along a-c");
                assert!(same_point(&v[0], &v[3]));
                assert!(!same_point(&v[1], &v[3]));
                saw_even = true;
            }
        }
    }
    assert!(saw_even && saw_odd);
}

#[test]
fn stitch_emits_na_plus_nb_triangles() {
    let p = |x: i64, y: i64| Point2 {
        x: Frac { num: x, den: 1 },
        y: Frac { num: y, den: 1 },
    };
    let f = |n: i64| Frac { num: n, den: 1 };
    // Outer: 2 steps of 1 from x=0; inner: 1 step of 2 from (0, 1).
    let mut buf = MeshBuffer::new();
    stitch(&mut buf, p(0, 0), f(1), 2, p(0, 1), f(2), 1, Dir::XPos);
    assert_eq!(buf.triangle_count(), 3);
    // Outer side empty: only the inner boundary advances.
    let mut buf = MeshBuffer::new();
    stitch(&mut buf, p(0, 0), f(5), 0, p(0, 1), f(1), 2, Dir::XPos);
    assert_eq!(buf.triangle_count(), 2);
    // Inner side empty: only the outer boundary advances.
    let mut buf = MeshBuffer::new();
    stitch(&mut buf, p(0, 0), f(1), 2, p(0, 1), f(1), 0, Dir::XPos);
    assert_eq!(buf.triangle_count(), 2);
}

#[test]
fn stitch_first_triangle_uses_previous_points() {
    let p = |x: i64, y: i64| Point2 {
        x: Frac { num: x, den: 1 },
        y: Frac { num: y, den: 1 },
    };
    let f = |n: i64| Frac { num: n, den: 1 };
    let mut buf = MeshBuffer::new();
    stitch(&mut buf, p(0, 0), f(1), 2, p(0, 1), f(2), 1, Dir::XPos);
    // First advance is the outer side (key 1 <= 2): triangle a0, a1, b0.
    assert_eq!(vert3(&buf.vertex_at(0)), (0.0, 0.0, 0.0));
    assert_eq!(vert3(&buf.vertex_at(1)), (1.0, 0.0, 0.0));
    assert_eq!(vert3(&buf.vertex_at(2)), (0.0, 0.0, 1.0));
}

#[test]
fn resize_keeps_prefix_and_defaults_new_levels() {
    let mut m = ClipmapMesh::new();
    m.set_lod_size(0, 5);
    m.set_lod_subdivisions(0, 2);
    m.set_lod_size(1, 7);
    assert_eq!(m.lod_count(), 2);
    m.set_lod_count(4);
    assert_eq!(m.lod_count(), 4);
    assert_eq!(m.lod_at(0), Lod::new(5, 2));
    assert_eq!(m.lod_at(1), Lod::new(7, 0));
    assert_eq!(m.lod_at(2), Lod::new(0, 0));
    assert_eq!(m.lod_at(3), Lod::new(0, 0));
    m.set_lod_count(1);
    assert_eq!(m.lod_count(), 1);
    assert_eq!(m.lod_at(0), Lod::new(5, 2));
}

#[test]
fn setting_a_level_beyond_the_end_grows_with_defaults() {
    let mut m = ClipmapMesh::new();
    m.set_lod_subdivisions(2, 9);
    assert_eq!(m.lod_count(), 3);
    assert_eq!(m.lod_at(0), Lod::new(0, 0));
    assert_eq!(m.lod_at(1), Lod::new(0, 0));
    assert_eq!(m.lod_at(2), Lod::new(0, 9));
    m.set_lod_size(2, 4);
    assert_eq!(m.lod_at(2), Lod::new(4, 9));
}

#[test]
fn try_generate_mesh_rejects_oversized_subdivisions() {
    let mut m = ClipmapMesh::new();
    m.set_lod_size(0, 4);
    m.set_lod_subdivisions(0, MAX_SUBDIVISIONS + 1);
    assert!(m.try_generate_mesh().is_none());
    m.set_lod_subdivisions(0, 1);
    let mesh = m.try_generate_mesh().expect("within limits");
    assert_eq!(mesh.triangle_count(), 8);
}

#[test]
fn property_names_recognized() {
    assert_eq!(parse_property_name("clipmap/number_of_lods"), Some(PropKey::Count));
    assert_eq!(parse_property_name("clipmap/lod_0/size"), Some(PropKey::Size(0)));
    assert_eq!(
        parse_property_name("clipmap/lod_12/subdivisions"),
        Some(PropKey::Subdivisions(12))
    );
    assert_eq!(parse_property_name("clipmap/lod_+3/size"), Some(PropKey::Size(3)));
    assert_eq!(parse_property_name("clipmap/lod_007/size"), Some(PropKey::Size(7)));
}

#[test]
fn property_names_rejected() {
    assert_eq!(parse_property_name(""), None);
    assert_eq!(parse_property_name("clipmap/number_of_lod"), None);
    assert_eq!(parse_property_name("clipmap/lod_/size"), None);
    assert_eq!(parse_property_name("clipmap/lod_+/size"), None);
    assert_eq!(parse_property_name("clipmap/lod_x/size"), None);
    assert_eq!(parse_property_name("clipmap/lod_1/sizes"), None);
    assert_eq!(parse_property_name("clipmap/lod_1x/subdivisions"), None);
    assert_eq!(parse_property_name("something/else"), None);
    // Larger than usize: the parse overflows and the name is unrecognized.
    assert_eq!(
        parse_property_name("clipmap/lod_99999999999999999999999999/size"),
        None
    );
}

#[test]
fn frac_comparisons_are_exact() {
    let half = Frac { num: 1, den: 2 };
    let two_thirds = Frac { num: 2, den: 3 };
    let two_quarters = Frac { num: 2, den: 4 };
    assert!(half.lt(&two_thirds));
    assert!(!two_thirds.lt(&half));
    assert!(half.le(&two_quarters));
    assert!(half.same_value(&two_quarters));
    assert!(!half.same_value(&two_thirds));
}

#[test]
fn mesh_vertex_count_is_a_multiple_of_three() {
    for lods in [
        vec![],
        vec![Lod::new(4, 1)],
        vec![Lod::new(2, 1), Lod::new(6, 2)],
        vec![Lod::new(2, 0), Lod::new(2, 3), Lod::new(8, 0)],
        vec![Lod::new(0, 0), Lod::new(3, 2)],
    ] {
        let m = mesh_of(lods);
        assert_eq!(m.vertex_count() % 3, 0);
        assert_eq!(m.triangle_count() * 3, m.vertex_count());
    }
}

#[test]
fn zero_size_levels_carve_no_hole() {
    // A predecessor of size 0 means no hole: the next level is fully solid.
    let m = mesh_of(vec![Lod::new(0, 0), Lod::new(4, 1)]);
    // Size-0 level: one degenerate cell (2 triangles); size-4 level: solid
    // 2x2 grid, no hole, no seams.
    assert_eq!(m.triangle_count(), 2 + 8);
}

#[test]
fn hole_test_includes_cells_touching_the_boundary() {
    // LOD1 = {4, 3} over a {2, 0} hole: the four central 1x1 cells span the
    // hole square exactly; corners lying on the hole edge count as inside
    // (the comparison is non-strict), so those cells are skipped.
    let m = mesh_of(vec![Lod::new(2, 0), Lod::new(4, 3)]);
    // LOD0: 2 triangles; LOD1 ring: 12 of 16 cells; seams: i1 = 0 (a column
    // whose right edge lies exactly on the hole edge is not counted), so
    // na = 4, nb = 1.
    assert_eq!(m.triangle_count(), 2 + 24 + 4 * 5);
}

#[test]
fn generation_is_deterministic() {
    let levels = vec![Lod::new(2, 1), Lod::new(6, 2), Lod::new(6, 0)];
    let mut m = ClipmapMesh::new();
    m.set_configuration(levels);
    let a = m.generate_mesh();
    let b = m.generate_mesh();
    assert_eq!(a.vertex_count(), b.vertex_count());
    for i in 0..a.vertex_count() {
        assert!(same_point(&a.vertex_at(i), &b.vertex_at(i)));
        assert_eq!(fval(&a.vertex_at(i).y), fval(&b.vertex_at(i).y));
    }
}
