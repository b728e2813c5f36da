//! The engine over a floating-point substrate: the sigmoid round trip
//! and finite-difference checks of every analytic gradient.

use tactics::graph::{Graph, VarDiff};
use tactics::loss::Reduction;
use tactics::scalar::Scalar;
use tactics::tensor::{MapKind, Tensor, ZipKind};

/// A floating-point tensor element for the abstract scalar boundary.
#[derive(Clone, Copy, Debug, PartialEq)]
struct F32(f32);

impl Scalar for F32 {
    // the `spec_` items are the erased remains of the trait's ghost
    // specifications; nothing ever calls them at run time
    fn spec_zero() -> F32 {
        F32(0.0)
    }
    fn spec_one() -> F32 {
        F32(1.0)
    }
    fn spec_add(a: F32, b: F32) -> F32 {
        F32(a.0 + b.0)
    }
    fn spec_sub(a: F32, b: F32) -> F32 {
        F32(a.0 - b.0)
    }
    fn spec_mul(a: F32, b: F32) -> F32 {
        F32(a.0 * b.0)
    }
    fn spec_div(a: F32, b: F32) -> F32 {
        F32(a.0 / b.0)
    }
    fn spec_neg(a: F32) -> F32 {
        F32(-a.0)
    }
    fn spec_abs(a: F32) -> F32 {
        F32(a.0.abs())
    }
    fn spec_sgn(a: F32) -> F32 {
        F32(a.0.signum())
    }
    fn spec_max(a: F32, b: F32) -> F32 {
        if a.0 >= b.0 {
            a
        } else {
            b
        }
    }
    fn spec_exp(a: F32) -> F32 {
        F32(a.0.exp())
    }
    fn spec_ln(a: F32) -> F32 {
        F32(a.0.ln())
    }
    fn spec_sqrt(a: F32) -> F32 {
        F32(a.0.sqrt())
    }
    fn spec_tanh(a: F32) -> F32 {
        F32(a.0.tanh())
    }
    fn spec_is_pos(a: F32) -> bool {
        a.0 > 0.0
    }
    fn spec_of_count(n: usize) -> F32 {
        F32(n as f32)
    }
    fn add_zero_identity(_a: F32) {
    }
    fn zero_val() -> F32 {
        F32(0.0)
    }
    fn one_val() -> F32 {
        F32(1.0)
    }
    fn add_val(a: F32, b: F32) -> F32 {
        F32(a.0 + b.0)
    }
    fn sub_val(a: F32, b: F32) -> F32 {
        F32(a.0 - b.0)
    }
    fn mul_val(a: F32, b: F32) -> F32 {
        F32(a.0 * b.0)
    }
    fn div_val(a: F32, b: F32) -> F32 {
        F32(a.0 / b.0)
    }
    fn neg_val(a: F32) -> F32 {
        F32(-a.0)
    }
    fn abs_val(a: F32) -> F32 {
        F32(a.0.abs())
    }
    fn sgn_val(a: F32) -> F32 {
        if a.0 > 0.0 {
            F32(1.0)
        } else if a.0 < 0.0 {
            F32(-1.0)
        } else {
            F32(0.0)
        }
    }
    fn max_val(a: F32, b: F32) -> F32 {
        if a.0 >= b.0 {
            a
        } else {
            b
        }
    }
    fn exp_val(a: F32) -> F32 {
        F32(a.0.exp())
    }
    fn ln_val(a: F32) -> F32 {
        F32(a.0.ln())
    }
    fn sqrt_val(a: F32) -> F32 {
        F32(a.0.sqrt())
    }
    fn tanh_val(a: F32) -> F32 {
        F32(a.0.tanh())
    }
    fn is_pos_val(a: F32) -> bool {
        a.0 > 0.0
    }
    fn of_count_val(n: usize) -> F32 {
        F32(n as f32)
    }
}

fn leaf_vals(g: &mut Graph<F32>, values: &[f32]) -> tactics::graph::Var {
    let data: Vec<F32> = values.iter().map(|v| F32(*v)).collect();
    let t = Tensor::from_vec(vec![values.len()], data).unwrap();
    g.leaf(t)
}

#[test]
fn sigmoid_round_trip() {
    let mut g: Graph<F32> = Graph::new();
    let x = leaf_vals(&mut g, &[0.0]).requires_grad(&mut g);
    let mut y = x.unary_op(MapKind::Sigmoid, &mut g);
    y.forward(&mut g);
    assert_eq!(y.data(&g).values()[0].0, 0.5);
    y.backward(&mut g, F32(1.0));
    assert_eq!(x.grad(&g).values()[0].0, 0.25);
}

/// Checks the analytic gradient of a scalar-valued composition against a
/// central finite-difference estimate at every leaf element.
fn check_gradient<F>(values: &[f32], build: F)
where
    F: Fn(&VarDiff, &mut Graph<F32>) -> VarDiff,
{
    let eval = |vals: &[f32]| -> f32 {
        let mut g: Graph<F32> = Graph::new();
        let x = leaf_vals(&mut g, vals).requires_grad(&mut g);
        let mut y = build(&x, &mut g);
        y.forward(&mut g);
        y.data(&g).values()[0].0
    };
    let mut g: Graph<F32> = Graph::new();
    let x = leaf_vals(&mut g, values).requires_grad(&mut g);
    let mut y = build(&x, &mut g);
    y.forward(&mut g);
    y.backward(&mut g, F32(1.0));
    let analytic: Vec<f32> = x.grad(&g).values().iter().map(|v| v.0).collect();
    let h = 1e-3f32;
    for i in 0..values.len() {
        let mut up = values.to_vec();
        up[i] += h;
        let mut dn = values.to_vec();
        dn[i] -= h;
        let numeric = (eval(&up) - eval(&dn)) / (2.0 * h);
        let diff = (analytic[i] - numeric).abs();
        let scale = 1.0f32.max(numeric.abs());
        assert!(
            diff / scale < 1e-2,
            "element {}: analytic {} vs numeric {}",
            i,
            analytic[i],
            numeric
        );
    }
}

#[test]
fn gradients_of_pointwise_ops_match_finite_differences() {
    let vals = [0.4f32, -0.7, 1.3];
    check_gradient(&vals, |x, g| x.unary_op(MapKind::Neg, g).sum(g));
    check_gradient(&vals, |x, g| x.unary_op(MapKind::Abs, g).sum(g));
    check_gradient(&vals, |x, g| x.unary_op(MapKind::Exp, g).sum(g));
    check_gradient(&vals, |x, g| x.unary_op(MapKind::Tanh, g).sum(g));
    check_gradient(&vals, |x, g| x.unary_op(MapKind::Relu, g).sum(g));
    check_gradient(&vals, |x, g| x.unary_op(MapKind::Sigmoid, g).sum(g));
    check_gradient(&vals, |x, g| x.unary_op(MapKind::SoftPlus, g).sum(g));
    let pos = [0.5f32, 1.7, 2.3];
    check_gradient(&pos, |x, g| x.unary_op(MapKind::Ln, g).sum(g));
    check_gradient(&pos, |x, g| x.unary_op(MapKind::Sqrt, g).sum(g));
}

#[test]
fn gradients_of_arithmetic_ops_match_finite_differences() {
    let vals = [0.8f32, -1.2, 0.3];
    check_gradient(&vals, |x, g| {
        let c = leaf_vals(g, &[0.5, 1.5, -2.0]).requires_grad(g);
        x.binary_op(ZipKind::Add, &c, g).unwrap().sum(g)
    });
    check_gradient(&vals, |x, g| {
        let c = leaf_vals(g, &[0.5, 1.5, -2.0]).requires_grad(g);
        x.binary_op(ZipKind::Sub, &c, g).unwrap().sum(g)
    });
    check_gradient(&vals, |x, g| {
        let c = leaf_vals(g, &[0.5, 1.5, -2.0]).requires_grad(g);
        x.binary_op(ZipKind::Mul, &c, g).unwrap().sum(g)
    });
    check_gradient(&vals, |x, g| {
        let c = leaf_vals(g, &[0.5, 1.5, -2.0]).requires_grad(g);
        x.binary_op(ZipKind::Div, &c, g).unwrap().sum(g)
    });
    check_gradient(&vals, |x, g| {
        let c = leaf_vals(g, &[0.5, 1.5, -2.0]).requires_grad(g);
        c.binary_op(ZipKind::Div, x, g).unwrap().sum(g)
    });
    check_gradient(&vals, |x, g| x.mean(g));
    check_gradient(&vals, |x, g| x.unsqueeze(0, g).unwrap().sum(g));
}

#[test]
fn gradients_of_matrix_product_match_finite_differences() {
    // x is read as a 1 by 3 matrix against a fixed 3 by 2 one
    let vals = [0.8f32, -1.2, 0.3];
    check_gradient(&vals, |x, g| {
        let m = x.unsqueeze(0, g).unwrap();
        let w: Vec<F32> = [0.5f32, -0.25, 1.5, 0.75, -1.0, 0.3].iter().map(|v| F32(*v)).collect();
        let b = g.leaf(Tensor::from_vec(vec![3, 2], w).unwrap()).requires_grad(g);
        m.mm(&b, g).unwrap().sum(g)
    });
}

#[test]
fn gradients_of_losses_match_finite_differences() {
    let vals = [0.8f32, 0.3, 0.6];
    let tgt = [0.9f32, 0.1, 0.4];
    check_gradient(&vals, |x, g| {
        let t = leaf_vals(g, &tgt);
        x.squared_error(&t, Reduction::Mean, g).unwrap()
    });
    check_gradient(&vals, |x, g| {
        let t = leaf_vals(g, &tgt);
        x.absolute_error(&t, Reduction::Sum, g).unwrap()
    });
    check_gradient(&vals, |x, g| {
        let t = leaf_vals(g, &tgt);
        x.bce(&t, Reduction::Mean, g).unwrap()
    });
    check_gradient(&vals, |x, g| {
        let t = leaf_vals(g, &tgt);
        x.bce_with_logits(&t, Reduction::Mean, g).unwrap()
    });
    check_gradient(&vals, |x, g| {
        let t = leaf_vals(g, &tgt);
        x.nll(&t, Reduction::Mean, g).unwrap()
    });
    check_gradient(&vals, |x, g| {
        let t = leaf_vals(g, &tgt);
        x.kldiv(&t, Reduction::Sum, g).unwrap()
    });
}

#[test]
fn squared_error_forward_value() {
    let mut g: Graph<F32> = Graph::new();
    let x = leaf_vals(&mut g, &[1.0, 2.0]).requires_grad(&mut g);
    let t = leaf_vals(&mut g, &[0.0, 4.0]);
    let mut loss = x.squared_error(&t, Reduction::Sum, &mut g).unwrap();
    loss.forward(&mut g);
    // (1 - 0)^2 + (2 - 4)^2 = 5
    assert_eq!(loss.data(&g).values()[0].0, 5.0);
    loss.backward(&mut g, F32(1.0));
    // d/dx (x - t)^2 = 2 (x - t)
    assert_eq!(x.grad(&g).values()[0].0, 2.0);
    assert_eq!(x.grad(&g).values()[1].0, -4.0);
    // the target is a constant: it accumulates nothing and has no
    // accumulator at all
    assert_eq!(t.data(&g).values()[0].0, 0.0);
}

#[test]
fn loss_shape_mismatch_refuses_construction() {
    let mut g: Graph<F32> = Graph::new();
    let x = leaf_vals(&mut g, &[1.0, 2.0]).requires_grad(&mut g);
    let t = leaf_vals(&mut g, &[0.0, 4.0, 1.0]);
    let r = x.squared_error(&t, Reduction::Sum, &mut g);
    assert!(r.is_err());
}

#[test]
fn softmax_normalizes_each_lane() {
    let mut g: Graph<F32> = Graph::new();
    let data: Vec<F32> = [1.0f32, 2.0, 3.0, -1.0, 0.0, 1.0].iter().map(|v| F32(*v)).collect();
    let t = Tensor::from_vec(vec![2, 3], data).unwrap();
    let x = g.leaf(t).requires_grad(&mut g);
    let mut y = x.softmax(1, &mut g).unwrap();
    y.forward(&mut g);
    let out: Vec<f32> = y.data(&g).values().iter().map(|v| v.0).collect();
    let row0: f32 = out[0] + out[1] + out[2];
    let row1: f32 = out[3] + out[4] + out[5];
    assert!((row0 - 1.0).abs() < 1e-6);
    assert!((row1 - 1.0).abs() < 1e-6);
    // shifted rows give the same distribution: stabilization at work
    assert!((out[0] - out[3]).abs() < 1e-6);
    assert!((out[1] - out[4]).abs() < 1e-6);
    assert!((out[2] - out[5]).abs() < 1e-6);
    assert!(out[0] < out[1] && out[1] < out[2]);
}

#[test]
fn softmax_respects_the_requested_axis() {
    let mut g: Graph<F32> = Graph::new();
    let data: Vec<F32> = [0.0f32, 10.0, 0.0, 10.0].iter().map(|v| F32(*v)).collect();
    let t = Tensor::from_vec(vec![2, 2], data).unwrap();
    let x = g.leaf(t).requires_grad(&mut g);
    let mut y = x.softmax(0, &mut g).unwrap();
    y.forward(&mut g);
    let out: Vec<f32> = y.data(&g).values().iter().map(|v| v.0).collect();
    // columns are the lanes: identical entries give a half each
    assert!((out[0] - 0.5).abs() < 1e-6);
    assert!((out[2] - 0.5).abs() < 1e-6);
    assert!((out[1] - 0.5).abs() < 1e-6);
    assert!((out[3] - 0.5).abs() < 1e-6);
}

#[test]
fn softmax_axis_out_of_range_refuses_construction() {
    let mut g: Graph<F32> = Graph::new();
    let x = leaf_vals(&mut g, &[1.0, 2.0]).requires_grad(&mut g);
    assert!(x.softmax(1, &mut g).is_err());
}

#[test]
fn gradients_of_softmax_match_finite_differences() {
    let vals = [0.4f32, -0.7, 1.3];
    // weight the outputs so that the gradient is not identically zero
    check_gradient(&vals, |x, g| {
        let s = x.softmax(0, g).unwrap();
        let w = leaf_vals(g, &[0.3, -1.1, 0.7]);
        s.binary_with(ZipKind::Mul, &w, g).unwrap().sum(g)
    });
}

#[test]
fn a_training_loop_descends_the_loss() {
    // fit y = w * x on one point by plain gradient descent: build the
    // graph once, then alternate forward, backward, parameter update and
    // accumulator reset, as an optimizer would
    let mut g: Graph<F32> = Graph::new();
    let x = leaf_vals(&mut g, &[2.0]);
    let x = x.requires_grad(&mut g);
    let w = leaf_vals(&mut g, &[0.0]).requires_grad(&mut g);
    let t = leaf_vals(&mut g, &[6.0]);
    let p = w.binary_op(ZipKind::Mul, &x, &mut g).unwrap();
    let mut loss = p.squared_error(&t, Reduction::Sum, &mut g).unwrap();
    let mut last = f32::INFINITY;
    for _ in 0..20 {
        loss.forward(&mut g);
        let now = loss.data(&g).values()[0].0;
        assert!(now <= last + 1e-6);
        last = now;
        loss.backward(&mut g, F32(1.0));
        let grad = w.grad(&g).values()[0].0;
        let value = w.data(&g).values()[0].0;
        let stepped = Tensor::from_vec(vec![1], vec![F32(value - 0.05 * grad)]).unwrap();
        w.set_data(&mut g, stepped);
        g.zero_grads();
    }
    assert!(last < 1e-3);
    assert!((w.data(&g).values()[0].0 - 3.0).abs() < 1e-2);
}

#[test]
fn gradients_of_transposed_matrix_product_match_finite_differences() {
    // x is read as a 1 by 3 matrix against the transpose of a 2 by 3 one
    let vals = [0.8f32, -1.2, 0.3];
    check_gradient(&vals, |x, g| {
        let m = x.unsqueeze(0, g).unwrap();
        let w: Vec<F32> = [0.5f32, -0.25, 1.5, 0.75, -1.0, 0.3].iter().map(|v| F32(*v)).collect();
        let b = g.leaf(Tensor::from_vec(vec![2, 3], w).unwrap()).requires_grad(g);
        m.mm_t(&b, g).unwrap().sum(g)
    });
}
