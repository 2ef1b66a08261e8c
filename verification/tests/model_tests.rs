use simple3d::coordsys::CoordSys;
use simple3d::model::Model;
use simple3d::transform::{e, translate, zoom, Transform};

#[test]
fn identity_matrix_has_unit_diagonal() {
    let m = e();
    for i in 0..4 {
        for j in 0..4 {
            assert_eq!(m[i][j], if i == j { 1 } else { 0 });
        }
    }
}

#[test]
fn matrix_product_with_identity() {
    let t = translate([2, 3, 4]);
    assert_eq!(simple3d::transform::mul(&t, &e()), t);
    assert_eq!(simple3d::transform::mul(&e(), &t), t);
}

#[test]
fn translation_then_zoom_composes() {
    let ts = Transform::e().translate([1, 2, 3]).zoom([2, 2, 2]);
    let mut vs = vec![[0_i64, 0, 0], [10, 10, 10]];
    ts.transform(&mut vs);
    assert_eq!(vs, vec![[2, 4, 6], [22, 24, 26]]);
}

#[test]
fn transform_applies_the_affine_map() {
    let ts = Transform::new(translate([5, -1, 0]));
    let mut vs = vec![[1_i64, 2, 3]];
    ts.transform(&mut vs);
    assert_eq!(vs, vec![[6, 1, 3]]);
}

#[test]
fn zoom_scales_each_axis() {
    let ts = Transform::new(zoom([2, 3, 4]));
    let mut vs = vec![[1_i64, 1, 1], [-1, 0, 2]];
    ts.transform(&mut vs);
    assert_eq!(vs, vec![[2, 3, 4], [-2, 0, 8]]);
}

#[test]
fn global_frame_axes() {
    let cs = CoordSys::global();
    assert_eq!(cs.origin(), [0, 0, 0]);
    assert_eq!(cs.x(), [1, 0, 0]);
    assert_eq!(cs.right(), [1, 0, 0]);
    assert_eq!(cs.left(), [-1, 0, 0]);
    assert_eq!(cs.y(), [0, 1, 0]);
    assert_eq!(cs.up(), [0, 1, 0]);
    assert_eq!(cs.down(), [0, -1, 0]);
    assert_eq!(cs.z(), [0, 0, 1]);
    assert_eq!(cs.front(), [0, 0, 1]);
    assert_eq!(cs.back(), [0, 0, -1]);
}

#[test]
fn model_keeps_vertices_and_edges() {
    let m = Model::new(vec![[0, 0, 0], [1, 0, 0], [0, 1, 0]], vec![vec![0, 1, 2]]);
    assert_eq!(m.vertices().len(), 3);
    assert_eq!(m.edges().len(), 1);
    assert_eq!(m.edges()[0], vec![0, 1, 2]);
}

#[test]
fn view_lines_walk_each_loop_cyclically() {
    let m = Model::new(
        vec![[0_i64, 0, 0], [10, 0, 0], [10, 10, 0], [0, 10, 0]],
        vec![vec![0, 1, 2, 3], vec![0, 2]],
    );
    let v = m.transform(&Transform::e());
    let lines = v.lines();
    assert_eq!(lines.len(), 6);
    assert_eq!(lines[0], [[0, 0, 0], [10, 0, 0]]);
    assert_eq!(lines[1], [[10, 0, 0], [10, 10, 0]]);
    assert_eq!(lines[2], [[10, 10, 0], [0, 10, 0]]);
    assert_eq!(lines[3], [[0, 10, 0], [0, 0, 0]]);
    assert_eq!(lines[4], [[0, 0, 0], [10, 10, 0]]);
    assert_eq!(lines[5], [[10, 10, 0], [0, 0, 0]]);
}

#[test]
fn transformed_view_lines_use_the_mapped_vertices() {
    let m = Model::new(vec![[0_i64, 0, 0], [1, 0, 0]], vec![vec![0, 1]]);
    let v = m.transform(&Transform::e().translate([100, 200, 300]));
    let lines = v.lines();
    assert_eq!(lines.len(), 2);
    assert_eq!(lines[0], [[100, 200, 300], [101, 200, 300]]);
    assert_eq!(lines[1], [[101, 200, 300], [100, 200, 300]]);
}
