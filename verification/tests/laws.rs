use dezero::engine::builtin::Builtin;
use dezero::engine::graph::{Graph, Variable};
use dezero::functions::basic_math::square;
use dezero::functions::conv::{
    conv2d, conv2d_array, conv2d_grad_w_array, deconv2d_array, pooling_array, pooling_grad_array,
    pooling_with_indexes_array,
};
use dezero::functions::matmul::{dot2, linear};
use dezero::functions::reduce::{broadcast_to, sum_all, sum_to};
use dezero::tensor::Tensor;
use dezero::utils::conv::{col2im_array, im2col_array};

type Tape = Graph<i64, Builtin>;

fn array(shape: &[usize], values: &[i64]) -> Tensor<i64> {
    Tensor::from_shape_vec(shape.to_vec(), values.to_vec())
        .expect("as many elements as the shape says")
}

/// Elements that rise and fall, beginning with `first`.
fn wave(shape: &[usize], first: i64) -> Tensor<i64> {
    let count: usize = shape.iter().product();
    let values: Vec<i64> = (0..count as i64).map(|k| (k * 5 + first) % 11 - 4).collect();
    array(shape, &values)
}

fn weighed(a: &Tensor<i64>, b: &Tensor<i64>) -> i64 {
    assert_eq!(a.shape(), b.shape());
    a.data().iter().zip(b.data()).map(|(x, y)| x * y).sum()
}

fn gradient(g: &Tape, v: Variable) -> Tensor<i64> {
    let grad = v.grad(g).expect("the pass leaves a gradient");
    grad.data(g).expect("a gradient holds data").clone()
}

#[test]
fn a_transposed_product_is_the_product_of_the_transposes() {
    let a = array(&[2, 3], &[1, 2, 3, 4, 5, 6]);
    let b = array(&[3, 2], &[7, 8, 9, 10, 11, 12]);
    let y = dot2(&a, &b);
    assert_eq!(y, array(&[2, 2], &[58, 64, 139, 154]));
    assert_eq!(y.transposed(), dot2(&b.transposed(), &a.transposed()));
}

#[test]
fn a_product_is_weighed_from_either_side() {
    let x = array(&[2, 3], &[1, 2, 3, 4, 5, 6]);
    let w = array(&[3, 2], &[7, 8, 9, 10, 11, 12]);
    let g = array(&[2, 2], &[1, -1, 2, 3]);
    let y = dot2(&x, &w);
    assert_eq!(weighed(&y, &g), 734);
    assert_eq!(weighed(&x, &dot2(&g, &w.transposed())), 734);
    assert_eq!(weighed(&w, &dot2(&x.transposed(), &g)), 734);
}

#[test]
fn a_convolution_is_weighed_by_images_and_by_filters() {
    let x = wave(&[2, 2, 5, 4], 1);
    let w = wave(&[3, 2, 3, 2], 3);
    let (stride, pad) = ((2, 1), (1, 0));
    let y = conv2d_array(&x, &w, None, stride, pad);
    assert_eq!(y.shape(), &vec![2, 3, 3, 3]);
    let g = wave(&[2, 3, 3, 3], 2);
    let through = weighed(&y, &g);
    let gx = deconv2d_array(&g, &w, None, stride, pad, Some((5, 4)));
    let gw = conv2d_grad_w_array(&x, &g, (3, 2), stride, pad);
    assert_eq!(weighed(&x, &gx), through);
    assert_eq!(weighed(&w, &gw), through);
}

#[test]
fn a_bias_is_weighed_by_the_sum_over_its_channel() {
    let x = wave(&[2, 1, 3, 3], 4);
    let w = wave(&[2, 1, 2, 2], 5);
    let b = array(&[2], &[10, -3]);
    let plain = conv2d_array(&x, &w, None, (1, 1), (0, 0));
    let biased = conv2d_array(&x, &w, Some(&b), (1, 1), (0, 0));
    let g = array(&[2, 2, 2, 2], &[1, 2, 3, 4, 0, 1, 0, 1, 5, 6, 7, 8, 2, 2, 2, 2]);
    // 36 in the first channel, 10 in the second
    assert_eq!(weighed(&biased, &g) - weighed(&plain, &g), 10 * 36 - 3 * 10);
}

#[test]
fn cutting_and_folding_are_transposes_in_both_layouts() {
    let x = wave(&[2, 2, 4, 5], 6);
    let (kernel, stride, pad) = ((3, 2), (1, 2), (1, 1));
    for to_matrix in [true, false] {
        let col = im2col_array(&x, kernel, stride, pad, to_matrix);
        let g = wave(col.shape(), 7);
        let folded = col2im_array(&g, &[2, 2, 4, 5], kernel, stride, pad, to_matrix);
        assert_eq!(weighed(&col, &g), weighed(&x, &folded));
    }
}

#[test]
fn picking_winners_and_passing_back_to_them_are_transposes() {
    let x = wave(&[1, 2, 4, 4], 8);
    let (kernel, stride, pad) = ((2, 2), (1, 1), (0, 0));
    let (_, winners) = pooling_array(&x, kernel, stride, pad);
    assert!(winners.iter().all(|&w| w < 4));
    let d = wave(&[1, 2, 4, 4], 9);
    let picked = pooling_with_indexes_array(&d, kernel, stride, pad, &winners);
    let g = wave(picked.shape(), 10);
    let back = pooling_grad_array(&g, &[1, 2, 4, 4], kernel, stride, pad, &winners);
    assert_eq!(weighed(&picked, &g), weighed(&d, &back));
}

#[test]
fn a_pass_weighs_changes_as_they_spread_forward() {
    // y = sum((x w + b)^2), and every leaf changes
    let (x, w, b) = (wave(&[2, 3], 1), wave(&[3, 2], 2), array(&[2], &[1, -2]));
    let (dx, dw, db) = (wave(&[2, 3], 5), wave(&[3, 2], 6), array(&[2], &[3, 4]));
    let mut g: Tape = Graph::new();
    let vx = Variable::new(&mut g, x.clone());
    let vw = Variable::new(&mut g, w.clone());
    let vb = Variable::new(&mut g, b.clone());
    let h = linear(&mut g, &vx, &vw, Some(&vb));
    let s = square(&mut g, &h);
    let y = sum_all(&mut g, &s);
    y.backward(&mut g);
    let by_leaves = weighed(&dx, &gradient(&g, vx)) + weighed(&dw, &gradient(&g, vw))
        + weighed(&db, &gradient(&g, vb));
    // dh = dx w + x dw + db, dy = sum(2 h dh)
    let (p, q) = (dot2(&dx, &w), dot2(&x, &dw));
    let value = h.data(&g).expect("holds data");
    let mut dy: i64 = 0;
    for k in 0..4 {
        let dh = p.data()[k] + q.data()[k] + db.data()[k % 2];
        dy += 2 * value.data()[k] * dh;
    }
    assert_eq!(by_leaves, dy);
    // what lies in between keeps no gradient
    assert!(h.grad(&g).is_none() && s.grad(&g).is_none() && y.grad(&g).is_none());
}

#[test]
fn a_pass_adds_up_the_uses_of_one_leaf() {
    // y = sum(conv(x, w) * conv(x, w)) reads every filter twice
    let x = wave(&[1, 1, 3, 3], 3);
    let w = wave(&[1, 1, 2, 2], 4);
    let dw = array(&[1, 1, 2, 2], &[1, -1, 2, 5]);
    let mut g: Tape = Graph::new();
    let vx = Variable::new(&mut g, x.clone());
    let vw = Variable::new(&mut g, w.clone());
    let c = conv2d(&mut g, &vx, &vw, None, 1, 0);
    let p = dezero::engine::ops::mul(&mut g, &c, &c);
    let y = sum_all(&mut g, &p);
    y.backward(&mut g);
    let plain = conv2d_array(&x, &w, None, (1, 1), (0, 0));
    let moved = conv2d_array(&x, &dw, None, (1, 1), (0, 0));
    assert_eq!(weighed(&dw, &gradient(&g, vw)), 2 * weighed(&plain, &moved));
}

#[test]
fn integers_wrap_around_and_stay_a_ring() {
    let mut g: Tape = Graph::new();
    let x = Variable::new(&mut g, array(&[2], &[i64::MAX, i64::MIN]));
    let s = square(&mut g, &x);
    assert_eq!(s.data(&g).expect("holds data").data(), &vec![1, 0]);
    let n = dezero::engine::ops::neg(&mut g, &x);
    assert_eq!(n.data(&g).expect("holds data").data(), &vec![-i64::MAX, i64::MIN]);
    let d = dezero::engine::ops::sub(&mut g, &n, &x);
    assert_eq!(d.data(&g).expect("holds data").data(), &vec![2, 0]);
}

#[test]
fn a_change_of_both_factors_expands_to_second_order() {
    // (x + dx)(w + dw) = x w + (dx w + x dw) + dx dw
    let (x, w) = (wave(&[2, 3], 1), wave(&[3, 2], 2));
    let (dx, dw) = (wave(&[2, 3], 5), wave(&[3, 2], 6));
    let sum = |a: &Tensor<i64>, b: &Tensor<i64>| {
        let values: Vec<i64> = a.data().iter().zip(b.data()).map(|(p, q)| p + q).collect();
        array(a.shape(), &values)
    };
    let moved = dot2(&sum(&x, &dx), &sum(&w, &dw));
    let tangent = sum(&dot2(&dx, &w), &dot2(&x, &dw));
    assert_eq!(moved, sum(&sum(&dot2(&x, &w), &tangent), &dot2(&dx, &dw)));
    // and for a convolution
    let (img, f) = (wave(&[1, 2, 4, 4], 3), wave(&[2, 2, 3, 3], 4));
    let (dimg, df) = (wave(&[1, 2, 4, 4], 7), wave(&[2, 2, 3, 3], 8));
    let conv = |a: &Tensor<i64>, b: &Tensor<i64>| conv2d_array(a, b, None, (1, 1), (1, 1));
    let moved = conv(&sum(&img, &dimg), &sum(&f, &df));
    let tangent = sum(&conv(&dimg, &f), &conv(&img, &df));
    assert_eq!(moved, sum(&sum(&conv(&img, &f), &tangent), &conv(&dimg, &df)));
}

#[test]
fn summing_back_counts_the_copies_along_every_spread_axis() {
    let mut g: Tape = Graph::new();
    let x = Variable::new(&mut g, array(&[1, 3, 1], &[1, -2, 5]));
    let wide = broadcast_to(&mut g, &x, &[2, 3, 4]);
    let back = sum_to(&mut g, &wide, &[1, 3, 1]);
    assert_eq!(back.data(&g).expect("holds data"), &array(&[1, 3, 1], &[8, -16, 40]));
}
