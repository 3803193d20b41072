use trace4d::mesh::{
    build_mesh, f32_bits_equal, index_primitive, insert_restarts, position_indices, split_vertices,
    vec4_equal, wireframe_order, IndexPrimitive, Primitive, Vertex,
};

fn v4(a: [f32; 4]) -> [u32; 4] {
    a.map(f32::to_bits)
}

const R: (u16, u16) = (0xffff, 0xffff);

#[test]
fn float_equality_on_bits() {
    assert!(f32_bits_equal(1.5f32.to_bits(), 1.5f32.to_bits()));
    assert!(f32_bits_equal(0.0f32.to_bits(), (-0.0f32).to_bits()));
    assert!(!f32_bits_equal(f32::NAN.to_bits(), f32::NAN.to_bits()));
    assert!(!f32_bits_equal(1.0f32.to_bits(), 2.0f32.to_bits()));
    assert!(f32_bits_equal(f32::INFINITY.to_bits(), f32::INFINITY.to_bits()));
    for (x, y) in [(1.0f32, 1.0f32), (0.0, -0.0), (f32::NAN, 1.0), (-3.5, -3.5), (f32::NEG_INFINITY, f32::INFINITY)] {
        assert_eq!(f32_bits_equal(x.to_bits(), y.to_bits()), x == y);
    }
    assert!(vec4_equal(&v4([1.0, 0.0, 2.0, 3.0]), &v4([1.0, -0.0, 2.0, 3.0])));
    assert!(!vec4_equal(&v4([1.0, 0.0, 2.0, 3.0]), &v4([1.0, 0.0, 2.0, 4.0])));
}

#[test]
fn split_without_conflicts() {
    let positions = vec![v4([0.0, 0.0, 0.0, 0.0]), v4([1.0, 0.0, 0.0, 0.0])];
    let normals = vec![v4([0.0, 0.0, 1.0, 0.0])];
    let (vs, cs) = split_vertices(positions.clone(), &normals, vec![(0, 0), (1, 0), (0, 0)]).unwrap();
    assert_eq!(
        vs,
        vec![
            Vertex { position: positions[0], normal: normals[0] },
            Vertex { position: positions[1], normal: normals[0] },
        ]
    );
    assert_eq!(cs, vec![(0, 0), (1, 0), (0, 0)]);
}

#[test]
fn split_copies_a_position_met_with_a_second_normal() {
    let p = v4([0.5, 0.5, 0.5, 0.0]);
    let n0 = v4([0.0, 0.0, 1.0, 0.0]);
    let n1 = v4([0.0, 1.0, 0.0, 0.0]);
    let (vs, cs) = split_vertices(vec![p], &vec![n0, n1], vec![(0, 0), (0, 1)]).unwrap();
    assert_eq!(vs, vec![Vertex { position: p, normal: n0 }, Vertex { position: p, normal: n1 }]);
    // the corner before the second one takes the index of the copy
    assert_eq!(cs, vec![(1, 0), (0, 1)]);
}

#[test]
fn split_with_nan_positions_never_copies() {
    let p = [f32::NAN.to_bits(); 4];
    let n0 = v4([0.0, 0.0, 1.0, 0.0]);
    let n1 = v4([0.0, 1.0, 0.0, 0.0]);
    let (vs, cs) = split_vertices(vec![p], &vec![n0, n1], vec![(0, 0), (0, 1)]).unwrap();
    assert_eq!(vs, vec![Vertex { position: p, normal: n0 }]);
    assert_eq!(cs, vec![(0, 0), (0, 1)]);
}

#[test]
fn split_fails_on_out_of_range_indices() {
    let p = v4([0.0; 4]);
    assert_eq!(split_vertices(vec![p], &vec![p], vec![(1, 0)]), None);
    assert_eq!(split_vertices(vec![p], &vec![p], vec![(0, 1)]), None);
    assert_eq!(split_vertices(vec![], &vec![p], vec![]), Some((vec![], vec![])));
}

#[test]
fn wireframe_swaps_pairs_in_quads() {
    let s: Vec<(u16, u16)> = (0..9).map(|i| (i, i)).collect();
    let mut c = s.clone();
    wireframe_order(&mut c, 4, Primitive::LineStrip);
    let expect: Vec<(u16, u16)> = [0, 1, 3, 2, 5, 4, 6, 7, 8].iter().map(|&i| (i, i)).collect();
    assert_eq!(c, expect);
    wireframe_order(&mut c, 4, Primitive::LineStrip);
    assert_eq!(c, s);
}

#[test]
fn wireframe_leaves_other_orders() {
    let s: Vec<(u16, u16)> = (0..8).map(|i| (i, i)).collect();
    let mut c = s.clone();
    wireframe_order(&mut c, 4, Primitive::TriangleStrip);
    assert_eq!(c, s);
    wireframe_order(&mut c, 3, Primitive::LineStrip);
    assert_eq!(c, s);
    wireframe_order(&mut c, 0, Primitive::LineStrip);
    let expect: Vec<(u16, u16)> = [0, 1, 3, 2, 5, 4, 6, 7].iter().map(|&i| (i, i)).collect();
    assert_eq!(c, expect);
}

#[test]
fn restarts_before_each_group() {
    let s: Vec<(u16, u16)> = (1..=5).map(|i| (i, 0)).collect();
    let r = insert_restarts(&s, 2);
    assert_eq!(r, vec![R, (1, 0), (2, 0), R, (3, 0), (4, 0), R, (5, 0)]);
    let r = insert_restarts(&s, 5);
    assert_eq!(r, vec![R, (1, 0), (2, 0), (3, 0), (4, 0), (5, 0)]);
    assert_eq!(insert_restarts(&vec![], 0), vec![]);
}

#[test]
fn restarts_match_the_insertion_loop() {
    for n in 1..6usize {
        let s: Vec<(u16, u16)> = (0..13).map(|i| (i, i)).collect();
        let mut expect = s.clone();
        (0..expect.len()).for_each(|i| {
            if i.rem_euclid(n) == 0 {
                expect.insert(i + i / n, (u16::MAX, u16::MAX))
            }
        });
        assert_eq!(insert_restarts(&s, n), expect);
    }
}

#[test]
fn position_indices_keep_first_half() {
    assert_eq!(position_indices(&vec![(1, 9), (2, 8), R]), vec![1, 2, 0xffff]);
}

#[test]
fn index_primitive_for_wireframe_is_loop() {
    assert_eq!(index_primitive(Primitive::LineStrip), IndexPrimitive::LineLoop);
    assert_eq!(index_primitive(Primitive::TriangleStrip), IndexPrimitive::TriangleStrip);
}

#[test]
fn build_a_quad_mesh() {
    let ps: Vec<[u32; 4]> = (0..4).map(|i| v4([i as f32, 0.0, 0.0, 0.0])).collect();
    let ns = vec![v4([0.0, 0.0, 1.0, 0.0])];
    let corners = vec![(0, 0), (1, 0), (2, 0), (3, 0)];
    let m = build_mesh(ps.clone(), &ns, corners.clone(), 4, Primitive::TriangleStrip).unwrap();
    assert_eq!(m.indices, vec![0xffff, 0, 1, 2, 3]);
    assert_eq!(m.vertices.len(), 4);
    assert_eq!(m.primitive, IndexPrimitive::TriangleStrip);
    let w = build_mesh(ps, &ns, corners, 4, Primitive::LineStrip).unwrap();
    assert_eq!(w.indices, vec![0xffff, 0, 1, 3, 2]);
    assert_eq!(w.primitive, IndexPrimitive::LineLoop);
}

#[test]
fn build_fails_where_split_fails() {
    let ns = vec![v4([0.0, 0.0, 1.0, 0.0])];
    assert!(build_mesh(vec![], &ns, vec![(0, 0)], 1, Primitive::TriangleStrip).is_none());
}
