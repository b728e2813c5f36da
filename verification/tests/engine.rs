//! Engine scenarios over the exact integer substrate: evaluation order,
//! shared sub-expressions, accumulation and concrete gradients.

use tactics::graph::Graph;
use tactics::tensor::{MapKind, ShapeError, Tensor, ZipKind};

fn leaf_vec(g: &mut Graph<i64>, values: Vec<i64>) -> tactics::graph::Var {
    let n = values.len();
    let t = Tensor::from_vec(vec![n], values).unwrap();
    g.leaf(t)
}

#[test]
fn sum_gradient_is_all_ones() {
    let mut g: Graph<i64> = Graph::new();
    let x = leaf_vec(&mut g, vec![1, 2, 3]).requires_grad(&mut g);
    let mut y = x.sum(&mut g);
    y.forward(&mut g);
    assert_eq!(y.data(&g).values(), &vec![6]);
    y.backward(&mut g, 1);
    assert_eq!(x.grad(&g).values(), &vec![1, 1, 1]);
}

#[test]
fn relu_gradient_masks_negatives() {
    let mut g: Graph<i64> = Graph::new();
    let x = leaf_vec(&mut g, vec![-1, 0, 2]).requires_grad(&mut g);
    let r = x.unary_op(MapKind::Relu, &mut g);
    let mut y = r.sum(&mut g);
    y.forward(&mut g);
    assert_eq!(r.data(&g).values(), &vec![0, 0, 2]);
    assert_eq!(y.data(&g).values(), &vec![2]);
    y.backward(&mut g, 1);
    assert_eq!(x.grad(&g).values(), &vec![0, 0, 1]);
}

#[test]
fn forward_is_idempotent_without_leaf_mutation() {
    let mut g: Graph<i64> = Graph::new();
    let a = leaf_vec(&mut g, vec![3, -4]).requires_grad(&mut g);
    let b = leaf_vec(&mut g, vec![5, 7]).requires_grad(&mut g);
    let s = a.binary_op(ZipKind::Mul, &b, &mut g).unwrap();
    let mut y = s.sum(&mut g);
    y.forward(&mut g);
    let first: Vec<i64> = s.data(&g).values().clone();
    let first_y: Vec<i64> = y.data(&g).values().clone();
    y.forward(&mut g);
    assert_eq!(s.data(&g).values(), &first);
    assert_eq!(y.data(&g).values(), &first_y);
}

#[test]
fn forward_recomputes_after_leaf_mutation() {
    let mut g: Graph<i64> = Graph::new();
    let x = leaf_vec(&mut g, vec![1, 2]).requires_grad(&mut g);
    let mut y = x.sum(&mut g);
    y.forward(&mut g);
    assert_eq!(y.data(&g).values(), &vec![3]);
    let t = Tensor::from_vec(vec![2], vec![10, 20]).unwrap();
    x.set_data(&mut g, t);
    y.forward(&mut g);
    assert_eq!(y.data(&g).values(), &vec![30]);
}

#[test]
fn shared_subexpression_runs_once_per_pass() {
    let mut g: Graph<i64> = Graph::new();
    let a = leaf_vec(&mut g, vec![2, 3]).requires_grad(&mut g);
    let b = leaf_vec(&mut g, vec![4, 5]).requires_grad(&mut g);
    let c = a.binary_op(ZipKind::Add, &b, &mut g).unwrap();
    let d = c.binary_op(ZipKind::Mul, &a, &mut g).unwrap();
    let mut y = d.sum(&mut g);
    y.forward(&mut g);
    // `c` feeds both the product and, through `a`, the tape twice over;
    // its own routine still ran exactly once
    assert_eq!(g.forward_count(c.node()), 1);
    y.forward(&mut g);
    assert_eq!(g.forward_count(c.node()), 2);
}

#[test]
fn backward_accumulates_without_reset() {
    let mut g: Graph<i64> = Graph::new();
    let x = leaf_vec(&mut g, vec![1, 2, 3]).requires_grad(&mut g);
    let mut y = x.sum(&mut g);
    y.forward(&mut g);
    y.backward(&mut g, 1);
    assert_eq!(y.grad(&g).values(), &vec![1]);
    assert_eq!(x.grad(&g).values(), &vec![1, 1, 1]);
    // the seed accumulates into the root, which doubles; the leaf receives
    // the root's grown accumulator on top of its first pass
    y.backward(&mut g, 1);
    assert_eq!(y.grad(&g).values(), &vec![2]);
    assert_eq!(x.grad(&g).values(), &vec![3, 3, 3]);
    // a reset restores the single-pass gradients
    g.zero_grads();
    y.backward(&mut g, 1);
    assert_eq!(y.grad(&g).values(), &vec![1]);
    assert_eq!(x.grad(&g).values(), &vec![1, 1, 1]);
}

#[test]
fn fanout_gradient_doubles_through_matrix_product() {
    // loss = (h + h).sum() with h = a.mm(b): a's gradient is twice the
    // gradient of loss1 = h.sum()
    let build = |fan_out: bool| -> (Graph<i64>, Vec<i64>) {
        let mut g: Graph<i64> = Graph::new();
        let ta = Tensor::from_vec(vec![2, 2], vec![1, 2, 3, 4]).unwrap();
        let tb = Tensor::from_vec(vec![2, 2], vec![5, 6, 7, 8]).unwrap();
        let a = g.leaf(ta).requires_grad(&mut g);
        let b = g.leaf(tb).requires_grad(&mut g);
        let h = a.mm(&b, &mut g).unwrap();
        let mut loss = if fan_out {
            let hh = h.binary_op(ZipKind::Add, &h, &mut g).unwrap();
            hh.sum(&mut g)
        } else {
            h.sum(&mut g)
        };
        loss.forward(&mut g);
        loss.backward(&mut g, 1);
        let grad = a.grad(&g).values().clone();
        (g, grad)
    };
    let (_, single) = build(false);
    let (_, doubled) = build(true);
    assert_eq!(single.len(), doubled.len());
    for i in 0..single.len() {
        assert_eq!(doubled[i], 2 * single[i]);
    }
}

#[test]
fn matrix_product_values() {
    let mut g: Graph<i64> = Graph::new();
    let ta = Tensor::from_vec(vec![2, 3], vec![1, 2, 3, 4, 5, 6]).unwrap();
    let tb = Tensor::from_vec(vec![3, 2], vec![7, 8, 9, 10, 11, 12]).unwrap();
    let a = g.leaf(ta).requires_grad(&mut g);
    let b = g.leaf(tb).requires_grad(&mut g);
    let mut h = a.mm(&b, &mut g).unwrap();
    h.forward(&mut g);
    assert_eq!(h.data(&g).values(), &vec![58, 64, 139, 154]);
}

#[test]
fn mismatched_inner_dimensions_refuse_construction() {
    let mut g: Graph<i64> = Graph::new();
    let ta = Tensor::from_vec(vec![2, 3], vec![0; 6]).unwrap();
    let tb = Tensor::from_vec(vec![2, 3], vec![0; 6]).unwrap();
    let a = g.leaf(ta).requires_grad(&mut g);
    let b = g.leaf(tb).requires_grad(&mut g);
    let before = g.len();
    let r = a.mm(&b, &mut g);
    assert!(matches!(r, Err(ShapeError::Mismatch)));
    // nothing was appended: no forward or backward can ever reach the
    // rejected node
    assert_eq!(g.len(), before);
}

#[test]
fn mismatched_elementwise_shapes_refuse_construction() {
    let mut g: Graph<i64> = Graph::new();
    let a = leaf_vec(&mut g, vec![1, 2, 3]).requires_grad(&mut g);
    let b = leaf_vec(&mut g, vec![1, 2]).requires_grad(&mut g);
    let r = a.binary_op(ZipKind::Add, &b, &mut g);
    assert!(matches!(r, Err(ShapeError::Mismatch)));
}

#[test]
fn unsqueeze_copies_and_routes_back() {
    let mut g: Graph<i64> = Graph::new();
    let x = leaf_vec(&mut g, vec![4, 5]).requires_grad(&mut g);
    let u = x.unsqueeze(0, &mut g).unwrap();
    let mut y = u.sum(&mut g);
    y.forward(&mut g);
    assert_eq!(u.data(&g).shape(), &vec![1, 2]);
    assert_eq!(u.data(&g).values(), &vec![4, 5]);
    y.backward(&mut g, 1);
    assert_eq!(x.grad(&g).values(), &vec![1, 1]);
}

#[test]
fn unsqueeze_past_rank_refuses_construction() {
    let mut g: Graph<i64> = Graph::new();
    let x = leaf_vec(&mut g, vec![4, 5]).requires_grad(&mut g);
    let r = x.unsqueeze(2, &mut g);
    assert!(matches!(r, Err(ShapeError::Mismatch)));
}

#[test]
fn mean_divides_by_element_count() {
    let mut g: Graph<i64> = Graph::new();
    let x = leaf_vec(&mut g, vec![3, 5, 7]).requires_grad(&mut g);
    let mut m = x.mean(&mut g);
    m.forward(&mut g);
    assert_eq!(m.data(&g).values(), &vec![5]);
}

#[test]
fn division_backward_uses_both_operands() {
    let mut g: Graph<i64> = Graph::new();
    let a = leaf_vec(&mut g, vec![8]).requires_grad(&mut g);
    let b = leaf_vec(&mut g, vec![2]).requires_grad(&mut g);
    let d = a.binary_op(ZipKind::Div, &b, &mut g).unwrap();
    let mut y = d.sum(&mut g);
    y.forward(&mut g);
    assert_eq!(d.data(&g).values(), &vec![4]);
    y.backward(&mut g, 1);
    // d(a/b)/da = 1/b; d(a/b)/db = -(a/b)/b
    assert_eq!(a.grad(&g).values(), &vec![0]); // 1/2 truncates to 0 in i64
    assert_eq!(b.grad(&g).values(), &vec![-2]);
}

#[test]
fn empty_shape_dimension_refuses_tensor() {
    let r = Tensor::<i64>::from_vec(vec![0, 3], vec![]);
    assert!(matches!(r, Err(ShapeError::EmptyDim)));
}

#[test]
fn transposed_matrix_product_values() {
    let mut g: Graph<i64> = Graph::new();
    let ta = Tensor::from_vec(vec![2, 3], vec![1, 2, 3, 4, 5, 6]).unwrap();
    let tb = Tensor::from_vec(vec![2, 3], vec![1, 0, 1, 0, 1, 0]).unwrap();
    let a = g.leaf(ta).requires_grad(&mut g);
    let b = g.leaf(tb).requires_grad(&mut g);
    let mut h = a.mm_t(&b, &mut g).unwrap();
    h.forward(&mut g);
    // rows of a dotted with rows of b
    assert_eq!(h.data(&g).values(), &vec![4, 2, 10, 5]);
}
