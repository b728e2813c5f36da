//! Loss functions: each reduces a prediction and a constant target to a
//! scalar through a composition of catalog operations.  The target enters
//! the graph as a constant leaf, so the backward pass distributes the
//! derivative of the loss only to the prediction operand.

use vstd::prelude::*;

use crate::graph::{
    diff_wf, lemma_diff_wf_extends, lemma_extends_trans, lemma_shape_volume, unchanged_nodes, var_ok, Graph, Var, VarDiff,
};
use crate::scalar::Scalar;
use crate::tensor::{
    ew_binary, ew_unary, filled_for, shapes_equal, volume, MapKind, ShapeError, Tensor, ZipKind,
};

verus! {

/// How a per-element loss collapses to one value.
#[derive(Clone, Copy, PartialEq, Eq, Structural, Debug)]
pub enum Reduction {
    /// The average over all elements.
    Mean,
    /// The plain sum over all elements.
    Sum,
}

/// The common shape of every loss contract: the prediction and target
/// shapes must agree, nothing is appended on a rejection, and on success
/// the result is a scalar differentiable variable on the grown graph.
pub open spec fn loss_ok<T>(
    g0: Graph<T>,
    g1: Graph<T>,
    pred: VarDiff,
    target: Var,
    r: Result<VarDiff, ShapeError>,
) -> bool {
    &&& (r is Ok <==> g0.shape_of(pred.node_idx()) == g0.shape_of(target.node_idx()))
    &&& (r is Err ==> g1 == g0 && (r matches Err(e) ==> e == ShapeError::Mismatch))
    &&& (r matches Ok(v) ==> {
        &&& g1.wf()
        &&& g1.extends(g0)
        &&& unchanged_nodes(g0, g1)
        &&& diff_wf(g1, v)
        &&& diff_wf(g1, pred)
        &&& var_ok(g1, target)
        &&& g1.node_in(v.node_idx())
        &&& g1.has_grad(v.node_idx())
        &&& g1.shape_of(v.node_idx()) === Seq::empty()
    })
}

impl VarDiff {
    /// Reduces according to the requested mode.
    fn reduce<T: Scalar>(&self, red: Reduction, g: &mut Graph<T>) -> (r: VarDiff)
        requires
            old(g).wf(),
            diff_wf(*old(g), *self),
            old(g).node_count() < usize::MAX,
        ensures
            final(g).wf(),
            final(g).extends(*old(g)),
            unchanged_nodes(*old(g), *final(g)),
            final(g).node_count() == old(g).node_count() + 1,
            r.node_idx() == old(g).node_count(),
            final(g).shape_of(r.node_idx()) === Seq::empty(),
            final(g).has_grad(r.node_idx()),
            diff_wf(*final(g), r),
            diff_wf(*final(g), *self),
    {
        match red {
            Reduction::Mean => self.mean(g),
            Reduction::Sum => self.sum(g),
        }
    }

    /// The absolute-error loss: the reduction of `|prediction - target|`.
    pub fn absolute_error<T: Scalar>(&self, target: &Var, red: Reduction, g: &mut Graph<T>) -> (r:
        Result<VarDiff, ShapeError>)
        requires
            old(g).wf(),
            diff_wf(*old(g), *self),
            var_ok(*old(g), *target),
            old(g).node_count() + 12 <= usize::MAX,
        ensures
            loss_ok(*old(g), *final(g), *self, *target, r),
    {
        let d = match self.binary_with(ZipKind::Sub, target, g) {
            Ok(v) => v,
            Err(e) => {
                return Err(e);
            },
        };
        let a = d.unary_op(MapKind::Abs, g);
        let out = a.reduce(red, g);
        proof {
            chain_losses(*old(g), *g, *self, *target);
        }
        Ok(out)
    }

    /// The squared-error loss: the reduction of `(prediction - target)²`.
    pub fn squared_error<T: Scalar>(&self, target: &Var, red: Reduction, g: &mut Graph<T>) -> (r:
        Result<VarDiff, ShapeError>)
        requires
            old(g).wf(),
            diff_wf(*old(g), *self),
            var_ok(*old(g), *target),
            old(g).node_count() + 12 <= usize::MAX,
        ensures
            loss_ok(*old(g), *final(g), *self, *target, r),
    {
        let d = match self.binary_with(ZipKind::Sub, target, g) {
            Ok(v) => v,
            Err(e) => {
                return Err(e);
            },
        };
        let sq = match d.binary_op(ZipKind::Mul, &d, g) {
            Ok(v) => v,
            Err(e) => vstd::pervasive::unreached(),
        };
        let out = sq.reduce(red, g);
        proof {
            chain_losses(*old(g), *g, *self, *target);
        }
        Ok(out)
    }

    /// The negative-log-likelihood loss: the reduction of
    /// `-(prediction · target)`, the prediction holding log-probabilities
    /// and the target the per-class weights.
    pub fn nll<T: Scalar>(&self, target: &Var, red: Reduction, g: &mut Graph<T>) -> (r: Result<
        VarDiff,
        ShapeError,
    >)
        requires
            old(g).wf(),
            diff_wf(*old(g), *self),
            var_ok(*old(g), *target),
            old(g).node_count() + 12 <= usize::MAX,
        ensures
            loss_ok(*old(g), *final(g), *self, *target, r),
    {
        let m = match self.binary_with(ZipKind::Mul, target, g) {
            Ok(v) => v,
            Err(e) => {
                return Err(e);
            },
        };
        let n = m.unary_op(MapKind::Neg, g);
        let out = n.reduce(red, g);
        proof {
            chain_losses(*old(g), *g, *self, *target);
        }
        Ok(out)
    }

    /// The Kullback-Leibler divergence: the reduction of
    /// `target · (ln(target) - ln(prediction))`, the target's own term
    /// entering as a constant.
    pub fn kldiv<T: Scalar>(&self, target: &Var, red: Reduction, g: &mut Graph<T>) -> (r: Result<
        VarDiff,
        ShapeError,
    >)
        requires
            old(g).wf(),
            diff_wf(*old(g), *self),
            var_ok(*old(g), *target),
            old(g).node_count() + 12 <= usize::MAX,
        ensures
            loss_ok(*old(g), *final(g), *self, *target, r),
    {
        proof {
            lemma_shape_volume(*old(g), self.node_idx());
            lemma_shape_volume(*old(g), target.node_idx());
        }
        let sp = g.shape_at(self.node());
        let st = g.shape_at(target.node());
        if !shapes_equal(&sp, &st) {
            return Err(ShapeError::Mismatch);
        }
        // t * ln(t), a constant of the differentiation
        let tt = target.data(g).duplicate();
        proof {
            assert(tt.wf());
        }
        let lnt = ew_unary(MapKind::Ln, &tt);
        let c_val = ew_binary(ZipKind::Mul, &tt, &lnt);
        let c = g.leaf(c_val);
        proof {
            lemma_diff_wf_extends(*old(g), *g, *self);
        }
        let lnp = self.unary_op(MapKind::Ln, g);
        let m = match lnp.binary_with(ZipKind::Mul, target, g) {
            Ok(v) => v,
            Err(e) => vstd::pervasive::unreached(),
        };
        let d = match m.binary_with(ZipKind::Sub, &c, g) {
            Ok(v) => v,
            Err(e) => vstd::pervasive::unreached(),
        };
        let n = d.unary_op(MapKind::Neg, g);
        let out = n.reduce(red, g);
        proof {
            chain_losses(*old(g), *g, *self, *target);
        }
        Ok(out)
    }

    /// The binary cross-entropy loss: the reduction of
    /// `-(target · ln(prediction) + (1 - target) · ln(1 - prediction))`.
    pub fn bce<T: Scalar>(&self, target: &Var, red: Reduction, g: &mut Graph<T>) -> (r: Result<
        VarDiff,
        ShapeError,
    >)
        requires
            old(g).wf(),
            diff_wf(*old(g), *self),
            var_ok(*old(g), *target),
            old(g).node_count() + 12 <= usize::MAX,
        ensures
            loss_ok(*old(g), *final(g), *self, *target, r),
    {
        proof {
            lemma_shape_volume(*old(g), self.node_idx());
            lemma_shape_volume(*old(g), target.node_idx());
        }
        let sp = g.shape_at(self.node());
        let st = g.shape_at(target.node());
        if !shapes_equal(&sp, &st) {
            return Err(ShapeError::Mismatch);
        }
        let lp = self.data(g).len();
        proof {
            assert(volume(old(g).shape_of(self.node_idx())) == lp);
        }
        let ones_a: Tensor<T> = filled_for(&sp, T::one_val());
        let ones_b: Tensor<T> = filled_for(&sp, T::one_val());
        let tt = target.data(g).duplicate();
        proof {
            assert(tt.wf());
        }
        let omt_val = ew_binary(ZipKind::Sub, &ones_a, &tt);
        let ones = g.leaf(ones_b);
        let omt = g.leaf(omt_val);
        proof {
            lemma_diff_wf_extends(*old(g), *g, *self);
        }
        let lnp = self.unary_op(MapKind::Ln, g);
        let t1 = match lnp.binary_with(ZipKind::Mul, target, g) {
            Ok(v) => v,
            Err(e) => vstd::pervasive::unreached(),
        };
        let ghost g_a = *g;
        let negp = self.unary_op(MapKind::Neg, g);
        let ghost g_b = *g;
        let onep = match negp.binary_with(ZipKind::Add, &ones, g) {
            Ok(v) => v,
            Err(e) => vstd::pervasive::unreached(),
        };
        let ghost g_c = *g;
        let ln1p = onep.unary_op(MapKind::Ln, g);
        let ghost g_d = *g;
        let t2 = match ln1p.binary_with(ZipKind::Mul, &omt, g) {
            Ok(v) => v,
            Err(e) => vstd::pervasive::unreached(),
        };
        proof {
            lemma_extends_trans(g_a, g_b, g_c);
            lemma_extends_trans(g_a, g_c, g_d);
            lemma_extends_trans(g_a, g_d, *g);
            lemma_diff_wf_extends(g_a, *g, t1);
        }
        let s = match t1.binary_op(ZipKind::Add, &t2, g) {
            Ok(v) => v,
            Err(e) => vstd::pervasive::unreached(),
        };
        let n = s.unary_op(MapKind::Neg, g);
        let out = n.reduce(red, g);
        proof {
            chain_losses(*old(g), *g, *self, *target);
        }
        Ok(out)
    }

    /// The binary cross-entropy loss on raw scores: the prediction is
    /// squashed through the sigmoid first.
    pub fn bce_with_logits<T: Scalar>(&self, target: &Var, red: Reduction, g: &mut Graph<T>) -> (r:
        Result<VarDiff, ShapeError>)
        requires
            old(g).wf(),
            diff_wf(*old(g), *self),
            var_ok(*old(g), *target),
            old(g).node_count() + 14 <= usize::MAX,
        ensures
            loss_ok(*old(g), *final(g), *self, *target, r),
    {
        proof {
            lemma_shape_volume(*old(g), self.node_idx());
        }
        let sp = g.shape_at(self.node());
        let st = g.shape_at(target.node());
        if !shapes_equal(&sp, &st) {
            return Err(ShapeError::Mismatch);
        }
        let p = self.unary_op(MapKind::Sigmoid, g);
        let out = match p.bce(target, red, g) {
            Ok(v) => v,
            Err(e) => vstd::pervasive::unreached(),
        };
        proof {
            chain_losses(*old(g), *g, *self, *target);
        }
        Ok(out)
    }
}

/// Carries the prediction's and target's validity over a chain of
/// appended nodes.
proof fn chain_losses<T: Scalar>(g0: Graph<T>, g1: Graph<T>, pred: VarDiff, target: Var)
    requires
        g0.wf(),
        g1.wf(),
        diff_wf(g0, pred),
        var_ok(g0, target),
        g1.extends(g0),
    ensures
        diff_wf(g1, pred),
        var_ok(g1, target),
{
    lemma_diff_wf_extends(g0, g1, pred);
    assert(g1.op_of(target.node_idx()) == g0.op_of(target.node_idx()));
}

} // verus!
