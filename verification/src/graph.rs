//! The computation graph: an arena of nodes, each holding its operation,
//! its output buffer, its gradient accumulator and a forward-run counter.
//!
//! Nodes refer to their operands by arena index; an operand always has a
//! smaller index than its consumer, so the graph is acyclic by
//! construction and ascending index order is a topological order.  A
//! variable carries a [`History`] tape of the non-leaf nodes of its
//! subtree, keyed by identities whose node identifier and sequence number
//! are both the arena index: sequence numbers are strictly unique, so the
//! tape order is exactly ascending arena order.

use vstd::prelude::*;

use crate::history::{
    lemma_count_below_all, lemma_id_ext, History, HistoryId,
};
use crate::scalar::Scalar;
use crate::tensor::{
    clone_shape, dims_positive, ew_binary, ew_unary, filled_for, map1, map2, matmul2d, matmul_seq,
    scalar_tensor, shapes_equal, sum_all, sum_prefix, transpose2d, transpose_seq, volume,
    zeros_for, MapKind, ShapeError, Tensor, ZipKind,
};

verus! {

/// One operation of the catalog, with its operand indices.
#[derive(Clone, Copy, PartialEq, Eq, Structural, Debug)]
pub enum Op {
    /// A source of data; evaluated by nobody, mutated only by the caller.
    Leaf,
    /// A pointwise one-operand operation.
    Unary { k: MapKind, a: usize },
    /// A pointwise two-operand operation on equal shapes.
    Binary { k: ZipKind, a: usize, b: usize },
    /// The matrix product of two 2-dimensional operands.
    Mm { a: usize, b: usize },
    /// The matrix product against the second operand's transpose.
    MmT { a: usize, b: usize },
    /// A reshape-copy that inserts a length-one axis.
    Unsqueeze { a: usize },
    /// The numerically stabilized normalized exponential along an axis.
    Softmax { a: usize, axis: usize },
    /// Reduction of every element to their sum.
    Sum { a: usize },
    /// Reduction of every element to their average.
    Mean { a: usize },
}

/// The operand indices of an operation, in slot order.
pub open spec fn op_operands(op: Op) -> Seq<usize> {
    match op {
        Op::Leaf => Seq::empty(),
        Op::Unary { k, a } => seq![a],
        Op::Binary { k, a, b } => seq![a, b],
        Op::Mm { a, b } => seq![a, b],
        Op::MmT { a, b } => seq![a, b],
        Op::Unsqueeze { a } => seq![a],
        Op::Softmax { a, axis } => seq![a],
        Op::Sum { a } => seq![a],
        Op::Mean { a } => seq![a],
    }
}

/// The two-operand kernels that stand as graph operations of their own.
pub open spec fn arith_zip(k: ZipKind) -> bool {
    k == ZipKind::Add || k == ZipKind::Sub || k == ZipKind::Mul || k == ZipKind::Div
}

struct Node<T> {
    op: Op,
    data: Tensor<T>,
    grad: Option<Tensor<T>>,
    fwd_count: u64,
}

/// The arena of graph nodes.
pub struct Graph<T> {
    nodes: Vec<Node<T>>,
}

/// A non-differentiable variable: a handle on a constant leaf node.
#[derive(Clone, Copy, PartialEq, Eq, Structural, Debug)]
pub struct Var {
    node: usize,
}

/// A differentiable variable: a handle on a node with a gradient
/// accumulator, together with the tape of its subtree.
#[derive(Clone)]
pub struct VarDiff {
    node: usize,
    past: History<usize>,
}

impl<T> Graph<T> {
    /// Number of nodes in the arena.
    pub closed spec fn node_count(self) -> int {
        self.nodes@.len() as int
    }

    /// The operation of node `i`.
    pub closed spec fn op_of(self, i: int) -> Op {
        self.nodes@[i].op
    }

    /// The shape of node `i`'s output buffer.
    pub closed spec fn shape_of(self, i: int) -> Seq<usize> {
        self.nodes@[i].data.shape_view()
    }

    /// The contents of node `i`'s output buffer, flat.
    pub closed spec fn data_of(self, i: int) -> Seq<T> {
        self.nodes@[i].data.data_view()
    }

    /// Whether node `i` carries a gradient accumulator.
    pub closed spec fn has_grad(self, i: int) -> bool {
        self.nodes@[i].grad is Some
    }

    /// The contents of node `i`'s gradient accumulator, flat.
    pub closed spec fn grad_of(self, i: int) -> Seq<T> {
        match self.nodes@[i].grad {
            Some(t) => t.data_view(),
            None => Seq::empty(),
        }
    }

    /// How many times node `i`'s forward routine has run.
    pub closed spec fn count_of(self, i: int) -> u64 {
        self.nodes@[i].fwd_count
    }

    /// Whether `i` is an arena index.
    pub open spec fn node_in(self, i: int) -> bool {
        0 <= i < self.node_count()
    }

    spec fn node_wf(self, i: int) -> bool {
        let nd = self.nodes@[i];
        &&& nd.data.wf()
        &&& match nd.grad {
            Some(t) => t.wf() && t.shape_view() == nd.data.shape_view(),
            None => true,
        }
        &&& match nd.op {
            Op::Leaf => true,
            Op::Unary { k, a } => {
                &&& a < i
                &&& nd.grad is Some
                &&& self.nodes@[a as int].data.shape_view() == nd.data.shape_view()
            },
            Op::Binary { k, a, b } => {
                &&& a < i
                &&& b < i
                &&& nd.grad is Some
                &&& arith_zip(k)
                &&& self.nodes@[a as int].data.shape_view() == nd.data.shape_view()
                &&& self.nodes@[b as int].data.shape_view() == nd.data.shape_view()
            },
            Op::Mm { a, b } => {
                &&& a < i
                &&& b < i
                &&& nd.grad is Some
                &&& self.nodes@[a as int].data.shape_view().len() == 2
                &&& self.nodes@[b as int].data.shape_view().len() == 2
                &&& self.nodes@[a as int].data.shape_view()[1] == self.nodes@[b as int]
                    .data.shape_view()[0]
                &&& nd.data.shape_view().len() == 2
                &&& nd.data.shape_view()[0] == self.nodes@[a as int].data.shape_view()[0]
                &&& nd.data.shape_view()[1] == self.nodes@[b as int].data.shape_view()[1]
            },
            Op::MmT { a, b } => {
                &&& a < i
                &&& b < i
                &&& nd.grad is Some
                &&& self.nodes@[a as int].data.shape_view().len() == 2
                &&& self.nodes@[b as int].data.shape_view().len() == 2
                &&& self.nodes@[a as int].data.shape_view()[1] == self.nodes@[b as int]
                    .data.shape_view()[1]
                &&& nd.data.shape_view().len() == 2
                &&& nd.data.shape_view()[0] == self.nodes@[a as int].data.shape_view()[0]
                &&& nd.data.shape_view()[1] == self.nodes@[b as int].data.shape_view()[0]
            },
            Op::Unsqueeze { a } => {
                &&& a < i
                &&& nd.grad is Some
                &&& volume(nd.data.shape_view()) == volume(
                    self.nodes@[a as int].data.shape_view(),
                )
            },
            Op::Softmax { a, axis } => {
                &&& a < i
                &&& nd.grad is Some
                &&& (axis as int) < self.nodes@[a as int].data.shape_view().len()
                &&& self.nodes@[a as int].data.shape_view() == nd.data.shape_view()
            },
            Op::Sum { a } => {
                &&& a < i
                &&& nd.grad is Some
                &&& nd.data.shape_view() === Seq::empty()
            },
            Op::Mean { a } => {
                &&& a < i
                &&& nd.grad is Some
                &&& nd.data.shape_view() === Seq::empty()
            },
        }
    }

    /// Well-formedness of the whole arena.
    pub closed spec fn wf(self) -> bool {
        forall|i: int| 0 <= i < self.node_count() ==> #[trigger] self.node_wf(i)
    }

    /// `self` extends `g0`: same nodes up to `g0`'s length (operation,
    /// shape and accumulator presence; buffers may differ), new nodes
    /// appended after.
    pub open spec fn extends(self, g0: Self) -> bool {
        &&& self.node_count() >= g0.node_count()
        &&& forall|i: int| 0 <= i < g0.node_count() ==> #[trigger] self.op_of(i) == g0.op_of(i)
            && self.shape_of(i) == g0.shape_of(i) && self.has_grad(i) == g0.has_grad(i)
    }

    /// Creates an empty graph.
    pub fn new() -> (r: Self)
        ensures
            r.wf(),
            r.node_count() == 0,
    {
        Graph { nodes: Vec::new() }
    }

    /// Number of nodes, executable.
    pub fn len(&self) -> (r: usize)
        ensures
            r == self.node_count(),
    {
        self.nodes.len()
    }

    /// How many times node `n`'s forward routine has run.
    pub fn forward_count(&self, n: usize) -> (r: u64)
        requires
            self.node_in(n as int),
        ensures
            r == self.count_of(n as int),
    {
        self.nodes[n].fwd_count
    }

    /// Wraps a tensor as a constant leaf.
    pub fn leaf(&mut self, t: Tensor<T>) -> (r: Var)
        requires
            old(self).wf(),
            t.wf(),
            old(self).node_count() < usize::MAX,
        ensures
            final(self).wf(),
            final(self).extends(*old(self)),
            final(self).node_count() == old(self).node_count() + 1,
            r.node_idx() == old(self).node_count(),
            final(self).op_of(r.node_idx()) == Op::Leaf,
            final(self).shape_of(r.node_idx()) == t.shape_view(),
            final(self).data_of(r.node_idx()) == t.data_view(),
            !final(self).has_grad(r.node_idx()),
            final(self).count_of(r.node_idx()) == 0,
            var_ok(*final(self), r),
            unchanged_nodes(*old(self), *final(self)),
    {
        let idx = self.nodes.len();
        self.nodes.push(Node { op: Op::Leaf, data: t, grad: None, fwd_count: 0 });
        proof {
            assert forall|i: int| 0 <= i < self.node_count() implies #[trigger] self.node_wf(i) by {
                if i < old(self).node_count() {
                    assert(old(self).node_wf(i));
                    assert(self.nodes@[i] == old(self).nodes@[i]);
                }
            }
        }
        Var { node: idx }
    }
}

/// All nodes of `g0` keep their operation, shape, accumulator presence,
/// buffer contents, gradient contents and counter in `g1`.
pub open spec fn unchanged_nodes<T>(g0: Graph<T>, g1: Graph<T>) -> bool {
    &&& g1.node_count() >= g0.node_count()
    &&& forall|i: int| 0 <= i < g0.node_count() ==> #[trigger] g1.op_of(i) == g0.op_of(i)
        && g1.shape_of(i) == g0.shape_of(i) && g1.has_grad(i) == g0.has_grad(i) && g1.data_of(i)
        == g0.data_of(i) && g1.grad_of(i) == g0.grad_of(i) && g1.count_of(i) == g0.count_of(i)
}

impl Var {
    /// The arena index.
    pub closed spec fn node_idx(self) -> int {
        self.node as int
    }

    /// The arena index, executable.
    pub fn node(&self) -> (r: usize)
        ensures
            r == self.node_idx(),
    {
        self.node
    }
}

/// A valid constant-leaf handle.
pub open spec fn var_ok<T>(g: Graph<T>, v: Var) -> bool {
    &&& g.node_in(v.node_idx())
    &&& g.op_of(v.node_idx()) == Op::Leaf
}

impl VarDiff {
    /// The arena index.
    pub closed spec fn node_idx(self) -> int {
        self.node as int
    }

    /// The tape entries: identity paired with the recorded node index.
    pub open spec fn tape_entries(self) -> Seq<(HistoryId, usize)> {
        self.past_history().entries()
    }

    /// The recorded node indices, ascending.
    pub open spec fn tape(self) -> Seq<usize> {
        Seq::new(self.tape_entries().len(), |i: int| self.tape_entries()[i].1)
    }

    /// The tape's cached buffer.
    pub closed spec fn tape_buffer(self) -> Seq<usize> {
        self.past.buffer_view()
    }

    /// The underlying tape.
    pub closed spec fn past_history(self) -> History<usize> {
        self.past
    }

    /// The arena index, executable.
    pub fn node(&self) -> (r: usize)
        ensures
            r == self.node_idx(),
    {
        self.node
    }
}

/// A tape entry records a non-leaf node under the identity whose node
/// identifier and sequence number are both the arena index.
pub open spec fn entry_ok<T>(g: Graph<T>, root: int, e: (HistoryId, usize)) -> bool {
    &&& e.0.node_id() == e.1
    &&& e.0.seq_no() == e.1
    &&& e.1 <= root
    &&& g.node_in(e.1 as int)
    &&& g.op_of(e.1 as int) != Op::Leaf
}

/// A valid differentiable-variable handle: the node has an accumulator,
/// every tape entry is well formed, the tape is closed under non-leaf
/// operands, and a non-leaf variable records itself.
pub open spec fn diff_wf<T>(g: Graph<T>, v: VarDiff) -> bool {
    &&& g.node_in(v.node_idx())
    &&& g.has_grad(v.node_idx())
    &&& v.past_history().wf()
    &&& forall|k: int| 0 <= k < v.tape_entries().len() ==> entry_ok(
        g,
        v.node_idx(),
        #[trigger] v.tape_entries()[k],
    )
    &&& forall|k: int, s: int|
        #![trigger op_operands(g.op_of(v.tape_entries()[k].1 as int))[s]]
        0 <= k < v.tape_entries().len() && 0 <= s < op_operands(
            g.op_of(v.tape_entries()[k].1 as int),
        ).len() ==> {
            let m = op_operands(g.op_of(v.tape_entries()[k].1 as int))[s];
            g.op_of(m as int) == Op::Leaf || v.past_history().contains_node(m)
        }
    &&& (g.op_of(v.node_idx()) != Op::Leaf ==> v.past_history().contains_node(v.node_idx() as usize))
}

/// Extension is transitive.
pub proof fn lemma_extends_trans<T>(g0: Graph<T>, g1: Graph<T>, g2: Graph<T>)
    requires
        g1.extends(g0),
        g2.extends(g1),
    ensures
        g2.extends(g0),
{
    assert forall|i: int| 0 <= i < g0.node_count() implies #[trigger] g2.op_of(i) == g0.op_of(i)
        && g2.shape_of(i) == g0.shape_of(i) && g2.has_grad(i) == g0.has_grad(i) by {
        assert(g1.op_of(i) == g0.op_of(i) && g1.shape_of(i) == g0.shape_of(i) && g1.has_grad(i)
            == g0.has_grad(i));
    }
}

/// A handle stays valid on any extension of its graph.
pub proof fn lemma_diff_wf_extends<T>(g0: Graph<T>, g1: Graph<T>, v: VarDiff)
    requires
        g0.wf(),
        diff_wf(g0, v),
        g1.extends(g0),
    ensures
        diff_wf(g1, v),
{
    assert forall|k: int| 0 <= k < v.tape_entries().len() implies entry_ok(
        g1,
        v.node_idx(),
        #[trigger] v.tape_entries()[k],
    ) by {
        assert(entry_ok(g0, v.node_idx(), v.tape_entries()[k]));
    }
    assert forall|k: int, s: int|
        #![trigger op_operands(g1.op_of(v.tape_entries()[k].1 as int))[s]]
        0 <= k < v.tape_entries().len() && 0 <= s < op_operands(
            g1.op_of(v.tape_entries()[k].1 as int),
        ).len() implies {
        let m = op_operands(g1.op_of(v.tape_entries()[k].1 as int))[s];
        g1.op_of(m as int) == Op::Leaf || v.past_history().contains_node(m)
    } by {
        let e = v.tape_entries()[k];
        assert(entry_ok(g0, v.node_idx(), e));
        assert(g1.op_of(e.1 as int) == g0.op_of(e.1 as int));
        let m = op_operands(g0.op_of(e.1 as int))[s];
        assert(g0.op_of(m as int) == Op::Leaf || v.past_history().contains_node(m));
        lemma_operands_below(g0, e.1 as int, s);
    }
}

/// In a well-formed graph every operand index lies below its consumer.
pub proof fn lemma_operands_below<T>(g: Graph<T>, c: int, s: int)
    requires
        g.wf(),
        g.node_in(c),
        0 <= s < op_operands(g.op_of(c)).len(),
    ensures
        (op_operands(g.op_of(c))[s] as int) < c,
        g.node_in(op_operands(g.op_of(c))[s] as int),
{
    assert(g.node_wf(c));
}

/// An operand of a well-formed node shares a buffer length bound with it.
pub proof fn lemma_shape_volume<T>(g: Graph<T>, i: int)
    requires
        g.wf(),
        g.node_in(i),
    ensures
        g.data_of(i).len() == volume(g.shape_of(i)),
        dims_positive(g.shape_of(i)),
        g.has_grad(i) ==> g.grad_of(i).len() == volume(g.shape_of(i)),
{
    assert(g.node_wf(i));
}

impl<T: Scalar> Graph<T> {
    /// The shape relation each operation demands of its operands, and the
    /// output shape it determines.
    pub open spec fn op_shape_ok(self, op: Op, sh: Seq<usize>) -> bool {
        match op {
            Op::Leaf => false,
            Op::Unary { k, a } => (a as int) < self.node_count() && self.shape_of(a as int) == sh,
            Op::Binary { k, a, b } => (a as int) < self.node_count() && (b as int)
                < self.node_count() && arith_zip(k) && self.shape_of(a as int) == sh
                && self.shape_of(b as int) == sh,
            Op::Mm { a, b } => {
                &&& (a as int) < self.node_count()
                &&& (b as int) < self.node_count()
                &&& self.shape_of(a as int).len() == 2
                &&& self.shape_of(b as int).len() == 2
                &&& self.shape_of(a as int)[1] == self.shape_of(b as int)[0]
                &&& sh.len() == 2
                &&& sh[0] == self.shape_of(a as int)[0]
                &&& sh[1] == self.shape_of(b as int)[1]
            },
            Op::MmT { a, b } => {
                &&& (a as int) < self.node_count()
                &&& (b as int) < self.node_count()
                &&& self.shape_of(a as int).len() == 2
                &&& self.shape_of(b as int).len() == 2
                &&& self.shape_of(a as int)[1] == self.shape_of(b as int)[1]
                &&& sh.len() == 2
                &&& sh[0] == self.shape_of(a as int)[0]
                &&& sh[1] == self.shape_of(b as int)[0]
            },
            Op::Unsqueeze { a } => (a as int) < self.node_count() && volume(sh) == volume(
                self.shape_of(a as int),
            ),
            Op::Softmax { a, axis } => (a as int) < self.node_count() && (axis as int)
                < self.shape_of(a as int).len() && sh == self.shape_of(a as int),
            Op::Sum { a } => (a as int) < self.node_count() && sh === Seq::empty(),
            Op::Mean { a } => (a as int) < self.node_count() && sh === Seq::empty(),
        }
    }

    /// Appends one operation node with a zeroed output buffer and a
    /// zeroed gradient accumulator.
    fn push_op_node(&mut self, op: Op, sh: Vec<usize>) -> (r: usize)
        requires
            old(self).wf(),
            old(self).op_shape_ok(op, sh@),
            dims_positive(sh@),
            volume(sh@) <= usize::MAX,
            old(self).node_count() < usize::MAX,
        ensures
            final(self).wf(),
            final(self).extends(*old(self)),
            unchanged_nodes(*old(self), *final(self)),
            final(self).node_count() == old(self).node_count() + 1,
            r as int == old(self).node_count(),
            final(self).op_of(r as int) == op,
            final(self).shape_of(r as int) == sh@,
            final(self).data_of(r as int) =~= Seq::new(
                volume(sh@) as nat,
                |i: int| T::spec_zero(),
            ),
            final(self).has_grad(r as int),
            final(self).grad_of(r as int) =~= Seq::new(
                volume(sh@) as nat,
                |i: int| T::spec_zero(),
            ),
            final(self).count_of(r as int) == 0,
    {
        let idx = self.nodes.len();
        let data = zeros_for::<T>(&sh);
        let grad = zeros_for::<T>(&sh);
        self.nodes.push(Node { op, data, grad: Some(grad), fwd_count: 0 });
        proof {
            assert forall|i: int| 0 <= i < self.node_count() implies #[trigger] self.node_wf(i) by {
                if i < old(self).node_count() {
                    assert(old(self).node_wf(i));
                    assert(self.nodes@[i] == old(self).nodes@[i]);
                }
            }
        }
        idx
    }

    /// A node's shape, copied out.
    pub(crate) fn shape_at(&self, n: usize) -> (r: Vec<usize>)
        requires
            self.node_in(n as int),
        ensures
            r@ == self.shape_of(n as int),
    {
        clone_shape(self.nodes[n].data.shape())
    }

    /// Resets every gradient accumulator in the arena to zero.  The core
    /// never calls this: resetting between steps is the caller's duty.
    pub fn zero_grads(&mut self)
        requires
            old(self).wf(),
        ensures
            final(self).wf(),
            final(self).node_count() == old(self).node_count(),
            final(self).extends(*old(self)),
            forall|i: int| 0 <= i < old(self).node_count() ==> #[trigger] final(self).data_of(i)
                == old(self).data_of(i),
            forall|i: int| 0 <= i < old(self).node_count() ==> #[trigger] final(self).count_of(i)
                == old(self).count_of(i),
            forall|i: int| 0 <= i < old(self).node_count() && old(self).has_grad(i) ==> #[trigger]
                final(self).grad_of(i) =~= Seq::new(
                old(self).grad_of(i).len(),
                |j: int| T::spec_zero(),
            ),
    {
        let n = self.nodes.len();
        let mut i: usize = 0;
        while i < n
            invariant
                i <= n,
                n == self.node_count(),
                old(self).wf(),
                self.wf(),
                self.node_count() == old(self).node_count(),
                forall|j: int| 0 <= j < n ==> #[trigger] self.op_of(j) == old(self).op_of(j),
                forall|j: int| 0 <= j < n ==> #[trigger] self.shape_of(j) == old(self).shape_of(j),
                forall|j: int| 0 <= j < n ==> #[trigger] self.has_grad(j) == old(self).has_grad(j),
                forall|j: int| 0 <= j < n ==> #[trigger] self.data_of(j) == old(self).data_of(j),
                forall|j: int| 0 <= j < n ==> #[trigger] self.count_of(j) == old(self).count_of(j),
                forall|j: int| i <= j < n ==> #[trigger] self.grad_of(j) == old(self).grad_of(j),
                forall|j: int| 0 <= j < i && old(self).has_grad(j) ==> #[trigger] self.grad_of(j)
                    =~= Seq::new(old(self).grad_of(j).len(), |w: int| T::spec_zero()),
            decreases n - i,
        {
            let has = match &self.nodes[i].grad {
                Some(_) => true,
                None => false,
            };
            if has {
                proof {
                    lemma_shape_volume(*self, i as int);
                }
                let l = self.nodes[i].data.len();
                let sh = self.shape_at(i);
                let z = zeros_for::<T>(&sh);
                let ghost pre = *self;
                let node = &mut self.nodes[i];
                node.grad = Some(z);
                proof {
                    assert(forall|w: int| 0 <= w < self.nodes@.len() && w != i as int ==> (
                    #[trigger] self.nodes@[w]) == pre.nodes@[w]);
                    assert(self.nodes@[i as int].op == pre.nodes@[i as int].op);
                    assert(self.nodes@[i as int].data == pre.nodes@[i as int].data);
                    assert(self.nodes@[i as int].fwd_count == pre.nodes@[i as int].fwd_count);
                    assert forall|j: int| 0 <= j < n implies #[trigger] self.op_of(j) == pre.op_of(
                        j,
                    ) by {
                        if j != i as int {
                            assert(self.nodes@[j] == pre.nodes@[j]);
                        }
                    }
                    assert forall|j: int| 0 <= j < n implies #[trigger] self.shape_of(j) == pre
                        .shape_of(j) by {
                        if j != i as int {
                            assert(self.nodes@[j] == pre.nodes@[j]);
                        }
                    }
                    assert forall|j: int| 0 <= j < n implies #[trigger] self.has_grad(j) == pre
                        .has_grad(j) by {
                        if j != i as int {
                            assert(self.nodes@[j] == pre.nodes@[j]);
                        }
                    }
                    assert forall|j: int| 0 <= j < n implies #[trigger] self.data_of(j) == pre
                        .data_of(j) by {
                        if j != i as int {
                            assert(self.nodes@[j] == pre.nodes@[j]);
                        }
                    }
                    assert forall|j: int| 0 <= j < n implies #[trigger] self.count_of(j) == pre
                        .count_of(j) by {
                        if j != i as int {
                            assert(self.nodes@[j] == pre.nodes@[j]);
                        }
                    }
                    assert forall|j: int| 0 <= j < n && j != i as int implies #[trigger] self
                        .grad_of(j) == pre.grad_of(j) by {
                        assert(self.nodes@[j] == pre.nodes@[j]);
                    }
                    assert(pre.grad_of(i as int) == old(self).grad_of(i as int));
                    assert(self.grad_of(i as int) =~= Seq::new(
                        old(self).grad_of(i as int).len(),
                        |w: int| T::spec_zero(),
                    ));
                    assert forall|q: int| 0 <= q < self.node_count() implies #[trigger] self.node_wf(
                        q,
                    ) by {
                        assert(pre.node_wf(q));
                        assert(forall|w: int| 0 <= w < self.nodes@.len() ==> (
                        #[trigger] self.nodes@[w]).data == pre.nodes@[w].data);
                        if q != i as int {
                            assert(self.nodes@[q] == pre.nodes@[q]);
                        }
                    }
                }
            }
            i = i + 1;
        }
    }
}

impl Var {
    /// Promotes a constant leaf to a differentiable variable with a
    /// zeroed gradient accumulator and an empty tape.  A leaf that is
    /// already differentiable keeps its accumulator.
    pub fn requires_grad<T: Scalar>(&self, g: &mut Graph<T>) -> (r: VarDiff)
        requires
            old(g).wf(),
            var_ok(*old(g), *self),
        ensures
            final(g).wf(),
            final(g).node_count() == old(g).node_count(),
            forall|i: int| 0 <= i < old(g).node_count() && i != self.node_idx() ==> #[trigger]
                final(g).op_of(i) == old(g).op_of(i) && final(g).shape_of(i) == old(g).shape_of(i)
                && final(g).has_grad(i) == old(g).has_grad(i) && final(g).data_of(i) == old(g).data_of(i) && final(g).grad_of(i) == old(g).grad_of(i) && final(g).count_of(i)
                == old(g).count_of(i),
            final(g).op_of(self.node_idx()) == Op::Leaf,
            final(g).shape_of(self.node_idx()) == old(g).shape_of(self.node_idx()),
            final(g).data_of(self.node_idx()) == old(g).data_of(self.node_idx()),
            final(g).count_of(self.node_idx()) == old(g).count_of(self.node_idx()),
            final(g).has_grad(self.node_idx()),
            old(g).has_grad(self.node_idx()) ==> final(g).grad_of(self.node_idx()) == old(g).grad_of(self.node_idx()),
            !old(g).has_grad(self.node_idx()) ==> final(g).grad_of(self.node_idx()) =~= Seq::new(
                volume(old(g).shape_of(self.node_idx())) as nat,
                |j: int| T::spec_zero(),
            ),
            r.node_idx() == self.node_idx(),
            r.tape_entries() === Seq::empty(),
            diff_wf(*final(g), r),
            var_ok(*final(g), *self),
    {
        let n = self.node;
        let need = match &g.nodes[n].grad {
            Some(_) => false,
            None => true,
        };
        if need {
            proof {
                lemma_shape_volume(*old(g), n as int);
            }
            let l = g.nodes[n].data.len();
            let sh = g.shape_at(n);
            let z = zeros_for::<T>(&sh);
            let ghost pre = *g;
            let node = &mut g.nodes[n];
            node.grad = Some(z);
            proof {
                assert(forall|w: int| 0 <= w < g.nodes@.len() && w != n as int ==> (
                #[trigger] g.nodes@[w]) == pre.nodes@[w]);
                assert(g.nodes@[n as int].op == pre.nodes@[n as int].op);
                assert(g.nodes@[n as int].data == pre.nodes@[n as int].data);
                assert(g.nodes@[n as int].fwd_count == pre.nodes@[n as int].fwd_count);
                assert forall|q: int| 0 <= q < g.node_count() implies #[trigger] g.node_wf(q) by {
                    assert(pre.node_wf(q));
                    assert(forall|w: int| 0 <= w < g.nodes@.len() ==> (#[trigger] g.nodes@[w]).data
                        == pre.nodes@[w].data);
                    if q != n as int {
                        assert(g.nodes@[q] == pre.nodes@[q]);
                    }
                }
            }
        }
        let past: History<usize> = History::new();
        VarDiff { node: n, past }
    }

    /// Read access to the leaf's buffer.
    pub fn data<'a, T>(&self, g: &'a Graph<T>) -> (r: &'a Tensor<T>)
        requires
            g.node_in(self.node_idx()),
        ensures
            r.data_view() == g.data_of(self.node_idx()),
            r.shape_view() == g.shape_of(self.node_idx()),
    {
        &g.nodes[self.node].data
    }

    /// Replaces the leaf's buffer contents, keeping the shape.
    pub fn set_data<T: Scalar>(&self, g: &mut Graph<T>, t: Tensor<T>)
        requires
            old(g).wf(),
            var_ok(*old(g), *self),
            t.wf(),
            t.shape_view() == old(g).shape_of(self.node_idx()),
        ensures
            final(g).wf(),
            final(g).node_count() == old(g).node_count(),
            final(g).extends(*old(g)),
            forall|i: int| 0 <= i < old(g).node_count() && i != self.node_idx() ==> #[trigger]
                final(g).data_of(i) == old(g).data_of(i),
            forall|i: int| 0 <= i < old(g).node_count() ==> #[trigger] final(g).grad_of(i)
                == old(g).grad_of(i),
            forall|i: int| 0 <= i < old(g).node_count() ==> #[trigger] final(g).count_of(i) == old(
                g).count_of(i),
            final(g).data_of(self.node_idx()) == t.data_view(),
    {
        set_node_data(g, self.node, t);
    }
}

/// Replaces one node's buffer contents, keeping the shape.
fn set_node_data<T: Scalar>(g: &mut Graph<T>, n: usize, t: Tensor<T>)
    requires
        old(g).wf(),
        old(g).node_in(n as int),
        t.wf(),
        t.shape_view() == old(g).shape_of(n as int),
    ensures
        final(g).wf(),
        final(g).node_count() == old(g).node_count(),
        final(g).extends(*old(g)),
        forall|i: int| 0 <= i < old(g).node_count() && i != n as int ==> #[trigger] final(g).data_of(i) == old(g).data_of(i),
        forall|i: int| 0 <= i < old(g).node_count() ==> #[trigger] final(g).grad_of(i) == old(
            g).grad_of(i),
        forall|i: int| 0 <= i < old(g).node_count() ==> #[trigger] final(g).count_of(i) == old(
            g).count_of(i),
        final(g).data_of(n as int) == t.data_view(),
{
    let ghost pre = *g;
    let node = &mut g.nodes[n];
    node.data = t;
    proof {
        assert(forall|w: int| 0 <= w < g.nodes@.len() && w != n as int ==> (#[trigger] g.nodes@[w])
            == pre.nodes@[w]);
        assert(g.nodes@[n as int].op == pre.nodes@[n as int].op);
        assert(g.nodes@[n as int].grad == pre.nodes@[n as int].grad);
        assert(g.nodes@[n as int].fwd_count == pre.nodes@[n as int].fwd_count);
        assert forall|q: int| 0 <= q < g.node_count() implies #[trigger] g.node_wf(q) by {
            assert(pre.node_wf(q));
            assert(forall|w: int| 0 <= w < g.nodes@.len() ==> (#[trigger] g.nodes@[w]).data
                .shape_view() == pre.nodes@[w].data.shape_view());
            if q != n as int {
                assert(g.nodes@[q] == pre.nodes@[q]);
            }
        }
    }
}

/// A snapshot of every node's output buffer.
pub open spec fn data_state<T>(g: Graph<T>) -> Seq<Seq<T>> {
    Seq::new(g.node_count() as nat, |i: int| g.data_of(i))
}

/// Flat position of element `s` of the lane `(o, inn)`, for an axis of
/// length `d` with `inner` trailing elements per step and
/// `block == d * inner`.
pub open spec fn lane_idx(block: int, inner: int, o: int, s: int, inn: int) -> int {
    o * block + s * inner + inn
}

/// Running maximum of the first `n` elements of a lane.
pub open spec fn lane_max<T: Scalar>(
    x: Seq<T>,
    block: int,
    inner: int,
    o: int,
    inn: int,
    n: int,
) -> T
    decreases n,
{
    if n <= 1 {
        x[lane_idx(block, inner, o, 0, inn)]
    } else {
        T::spec_max(
            lane_max(x, block, inner, o, inn, n - 1),
            x[lane_idx(block, inner, o, n - 1, inn)],
        )
    }
}

/// Running sum of the stabilized exponentials of the first `n` elements
/// of a lane.
pub open spec fn lane_expsum<T: Scalar>(
    x: Seq<T>,
    block: int,
    inner: int,
    o: int,
    inn: int,
    m: T,
    n: int,
) -> T
    decreases n,
{
    if n <= 0 {
        T::spec_zero()
    } else {
        T::spec_add(
            lane_expsum(x, block, inner, o, inn, m, n - 1),
            T::spec_exp(T::spec_sub(x[lane_idx(block, inner, o, n - 1, inn)], m)),
        )
    }
}

/// Running dot product of a lane of the upstream gradient with the same
/// lane of the node's own output.
pub open spec fn lane_dot<T: Scalar>(
    gv: Seq<T>,
    y: Seq<T>,
    block: int,
    inner: int,
    o: int,
    inn: int,
    n: int,
) -> T
    decreases n,
{
    if n <= 0 {
        T::spec_zero()
    } else {
        T::spec_add(
            lane_dot(gv, y, block, inner, o, inn, n - 1),
            T::spec_mul(
                gv[lane_idx(block, inner, o, n - 1, inn)],
                y[lane_idx(block, inner, o, n - 1, inn)],
            ),
        )
    }
}

/// The volume of the axes after `axis` of node `a`'s shape.
pub open spec fn axis_inner<T>(g: Graph<T>, a: int, axis: int) -> int {
    volume(g.shape_of(a).subrange(axis + 1, g.shape_of(a).len() as int))
}

/// What node `c`'s forward routine computes from a snapshot of buffers: a
/// pure function of the operand buffers' current contents.
pub open spec fn eval_op<T: Scalar>(g: Graph<T>, st: Seq<Seq<T>>, c: int) -> Seq<T> {
    match g.op_of(c) {
        Op::Leaf => st[c],
        Op::Unary { k, a } => Seq::new(st[a as int].len(), |i: int| map1(k, st[a as int][i])),
        Op::Binary { k, a, b } => Seq::new(
            st[a as int].len(),
            |i: int| map2(k, st[a as int][i], st[b as int][i]),
        ),
        Op::Mm { a, b } => matmul_seq(
            st[a as int],
            st[b as int],
            g.shape_of(a as int)[0] as int,
            g.shape_of(a as int)[1] as int,
            g.shape_of(b as int)[1] as int,
        ),
        Op::MmT { a, b } => matmul_seq(
            st[a as int],
            transpose_seq(
                st[b as int],
                g.shape_of(b as int)[0] as int,
                g.shape_of(b as int)[1] as int,
            ),
            g.shape_of(a as int)[0] as int,
            g.shape_of(a as int)[1] as int,
            g.shape_of(b as int)[0] as int,
        ),
        Op::Unsqueeze { a } => st[a as int],
        Op::Softmax { a, axis } => {
            let x = st[a as int];
            let d = g.shape_of(a as int)[axis as int] as int;
            let inner = axis_inner(g, a as int, axis as int);
            let block = d * inner;
            Seq::new(
                x.len(),
                |i: int|
                    {
                        let o = i / block;
                        let inn = (i % block) % inner;
                        let m = lane_max(x, block, inner, o, inn, d);
                        let den = lane_expsum(x, block, inner, o, inn, m, d);
                        T::spec_div(T::spec_exp(T::spec_sub(x[i], m)), den)
                    },
            )
        },
        Op::Sum { a } => seq![sum_prefix(st[a as int], st[a as int].len() as int)],
        Op::Mean { a } => seq![
            T::spec_div(
                sum_prefix(st[a as int], st[a as int].len() as int),
                T::spec_of_count(st[a as int].len() as usize),
            )
        ],
    }
}

/// Buffers after running the first `n` tape records, in order: each
/// record overwrites its node's buffer with the value computed from the
/// buffers as they then stand.
pub open spec fn forward_states<T: Scalar>(g: Graph<T>, tape: Seq<usize>, n: int) -> Seq<Seq<T>>
    decreases n,
{
    if n <= 0 {
        data_state(g)
    } else {
        let st = forward_states(g, tape, n - 1);
        st.update(tape[n - 1] as int, eval_op(g, st, tape[n - 1] as int))
    }
}

/// Unfolds one step of the forward fold.
proof fn lemma_forward_states_step<T: Scalar>(g: Graph<T>, tape: Seq<usize>, n: int)
    requires
        n >= 1,
    ensures
        forward_states(g, tape, n) == forward_states(g, tape, n - 1).update(
            tape[n - 1] as int,
            eval_op(g, forward_states(g, tape, n - 1), tape[n - 1] as int),
        ),
{
}

/// The forward fold never changes the number of buffers.
pub proof fn lemma_forward_states_len<T: Scalar>(g: Graph<T>, tape: Seq<usize>, n: int)
    requires
        n <= tape.len(),
        forall|p: int| 0 <= p < tape.len() ==> (#[trigger] tape[p] as int) < g.node_count(),
    ensures
        forward_states(g, tape, n).len() == g.node_count(),
    decreases n,
{
    if n > 0 {
        lemma_forward_states_len(g, tape, n - 1);
    }
}

/// A snapshot of every node's gradient accumulator.
pub open spec fn grad_state<T>(g: Graph<T>) -> Seq<Seq<T>> {
    Seq::new(g.node_count() as nat, |i: int| g.grad_of(i))
}

/// Element-wise sum of two equally long flat buffers.
pub open spec fn add_seq<T: Scalar>(x: Seq<T>, d: Seq<T>) -> Seq<T> {
    Seq::new(x.len(), |i: int| T::spec_add(x[i], d[i]))
}

/// The local backward contribution node `c` computes for its operand at
/// `slot`, given its own accumulated gradient `gv`.  It is a function of
/// `gv` and of forward values only: either the operand's forward input or
/// the node's own forward output, depending on the operation.
pub open spec fn delta_op<T: Scalar>(g: Graph<T>, c: int, slot: int, gv: Seq<T>) -> Seq<T> {
    match g.op_of(c) {
        Op::Leaf => Seq::empty(),
        Op::Unary { k, a } => {
            let x = g.data_of(a as int);
            let y = g.data_of(c);
            match k {
                MapKind::Neg => Seq::new(gv.len(), |i: int| T::spec_neg(gv[i])),
                MapKind::Abs => Seq::new(gv.len(), |i: int| T::spec_mul(gv[i], T::spec_sgn(x[i]))),
                MapKind::Sgn => Seq::new(gv.len(), |i: int| T::spec_zero()),
                MapKind::Exp => Seq::new(gv.len(), |i: int| map2(ZipKind::ExpGate, gv[i], y[i])),
                MapKind::Ln => Seq::new(gv.len(), |i: int| map2(ZipKind::LnGate, gv[i], x[i])),
                MapKind::Sqrt => Seq::new(gv.len(), |i: int| map2(ZipKind::SqrtGate, gv[i], y[i])),
                MapKind::Tanh => Seq::new(gv.len(), |i: int| map2(ZipKind::TanhGate, gv[i], y[i])),
                MapKind::Relu => Seq::new(gv.len(), |i: int| map2(ZipKind::ReluGate, gv[i], x[i])),
                MapKind::Sigmoid => Seq::new(
                    gv.len(),
                    |i: int| map2(ZipKind::SigmoidGate, gv[i], y[i]),
                ),
                MapKind::SoftPlus => Seq::new(
                    gv.len(),
                    |i: int| map2(ZipKind::SoftPlusGate, gv[i], x[i]),
                ),
            }
        },
        Op::Binary { k, a, b } => {
            let xa = g.data_of(a as int);
            let xb = g.data_of(b as int);
            let y = g.data_of(c);
            if slot == 0 {
                match k {
                    ZipKind::Add => gv,
                    ZipKind::Sub => gv,
                    ZipKind::Mul => Seq::new(gv.len(), |i: int| T::spec_mul(gv[i], xb[i])),
                    _ => Seq::new(gv.len(), |i: int| T::spec_div(gv[i], xb[i])),
                }
            } else {
                match k {
                    ZipKind::Add => gv,
                    ZipKind::Sub => Seq::new(gv.len(), |i: int| T::spec_neg(gv[i])),
                    ZipKind::Mul => Seq::new(gv.len(), |i: int| T::spec_mul(gv[i], xa[i])),
                    _ => Seq::new(
                        gv.len(),
                        |i: int| T::spec_neg(T::spec_div(T::spec_mul(gv[i], y[i]), xb[i])),
                    ),
                }
            }
        },
        Op::Mm { a, b } => {
            let m = g.shape_of(a as int)[0] as int;
            let p = g.shape_of(a as int)[1] as int;
            let n = g.shape_of(b as int)[1] as int;
            if slot == 0 {
                matmul_seq(gv, transpose_seq(g.data_of(b as int), p, n), m, n, p)
            } else {
                matmul_seq(transpose_seq(g.data_of(a as int), m, p), gv, p, m, n)
            }
        },
        Op::MmT { a, b } => {
            let m = g.shape_of(a as int)[0] as int;
            let p = g.shape_of(a as int)[1] as int;
            let n = g.shape_of(b as int)[0] as int;
            if slot == 0 {
                matmul_seq(gv, g.data_of(b as int), m, n, p)
            } else {
                matmul_seq(transpose_seq(gv, m, n), g.data_of(a as int), n, m, p)
            }
        },
        Op::Unsqueeze { a } => gv,
        Op::Softmax { a, axis } => {
            let y = g.data_of(c);
            let d = g.shape_of(a as int)[axis as int] as int;
            let inner = axis_inner(g, a as int, axis as int);
            let block = d * inner;
            Seq::new(
                gv.len(),
                |i: int|
                    {
                        let o = i / block;
                        let inn = (i % block) % inner;
                        let dot = lane_dot(gv, y, block, inner, o, inn, d);
                        T::spec_mul(y[i], T::spec_sub(gv[i], dot))
                    },
            )
        },
        Op::Sum { a } => Seq::new(g.data_of(a as int).len(), |i: int| gv[0]),
        Op::Mean { a } => Seq::new(
            g.data_of(a as int).len(),
            |i: int| T::spec_div(gv[0], T::spec_of_count(g.data_of(a as int).len() as usize)),
        ),
    }
}

/// Adds a contribution into the accumulator of node `m`, if it has one:
/// accumulation, never replacement.
pub open spec fn deposit<T: Scalar>(g: Graph<T>, st: Seq<Seq<T>>, m: int, d: Seq<T>) -> Seq<
    Seq<T>,
> {
    if g.has_grad(m) {
        st.update(m, add_seq(st[m], d))
    } else {
        st
    }
}

/// One backward record: node `c` deposits into each of its operands, in
/// slot order, using its own accumulated gradient as the record begins.
/// By then every consumer of `c` has already deposited into it.
pub open spec fn back_step<T: Scalar>(g: Graph<T>, c: int, st: Seq<Seq<T>>) -> Seq<Seq<T>> {
    let gv = st[c];
    let ops = op_operands(g.op_of(c));
    if ops.len() == 0 {
        st
    } else if ops.len() == 1 {
        deposit(g, st, ops[0] as int, delta_op(g, c, 0, gv))
    } else {
        deposit(
            g,
            deposit(g, st, ops[0] as int, delta_op(g, c, 0, gv)),
            ops[1] as int,
            delta_op(g, c, 1, gv),
        )
    }
}

/// Accumulators after the seed was added into the root's accumulator.
pub open spec fn seeded_state<T: Scalar>(g: Graph<T>, root: int, seed: T) -> Seq<Seq<T>> {
    grad_state(g).update(
        root,
        Seq::new(g.grad_of(root).len(), |i: int| T::spec_add(g.grad_of(root)[i], seed)),
    )
}

/// Accumulators after seeding the root and running the last `n` tape
/// records, in descending order.
pub open spec fn backward_states<T: Scalar>(
    g: Graph<T>,
    tape: Seq<usize>,
    root: int,
    seed: T,
    n: int,
) -> Seq<Seq<T>>
    decreases n,
{
    if n <= 0 {
        seeded_state(g, root, seed)
    } else {
        back_step(
            g,
            tape[tape.len() - n] as int,
            backward_states(g, tape, root, seed, n - 1),
        )
    }
}

/// Unfolds one step of the backward fold.
proof fn lemma_backward_states_step<T: Scalar>(
    g: Graph<T>,
    tape: Seq<usize>,
    root: int,
    seed: T,
    n: int,
)
    requires
        n >= 1,
    ensures
        backward_states(g, tape, root, seed, n) == back_step(
            g,
            tape[tape.len() - n] as int,
            backward_states(g, tape, root, seed, n - 1),
        ),
{
}

/// The backward fold never changes the number of accumulators.
pub proof fn lemma_backward_states_len<T: Scalar>(
    g: Graph<T>,
    tape: Seq<usize>,
    root: int,
    seed: T,
    n: int,
)
    requires
        g.wf(),
        0 <= root < g.node_count(),
        n <= tape.len(),
        forall|p: int| 0 <= p < tape.len() ==> g.node_in(#[trigger] tape[p] as int),
    ensures
        backward_states(g, tape, root, seed, n).len() == g.node_count(),
    decreases n,
{
    if n > 0 {
        lemma_backward_states_len(g, tape, root, seed, n - 1);
        let c = tape[tape.len() - n] as int;
        let ops = op_operands(g.op_of(c));
        if ops.len() >= 1 {
            lemma_operands_below(g, c, 0);
        }
        if ops.len() >= 2 {
            lemma_operands_below(g, c, 1);
        }
    }
}

/// Equal forward values make every contribution the same.
proof fn lemma_delta_agree<T: Scalar>(g1: Graph<T>, g2: Graph<T>, c: int, slot: int, gv: Seq<T>)
    requires
        g1.wf(),
        g1.node_in(c),
        g1.node_count() == g2.node_count(),
        g1.op_of(c) == g2.op_of(c),
        g1.op_of(c) != Op::Leaf,
        forall|m: int| 0 <= m < g1.node_count() ==> #[trigger] g1.data_of(m) == g2.data_of(m),
        forall|m: int| 0 <= m < g1.node_count() ==> #[trigger] g1.shape_of(m) == g2.shape_of(m),
    ensures
        delta_op(g1, c, slot, gv) == delta_op(g2, c, slot, gv),
{
    assert(g1.node_wf(c));
    assert(g1.data_of(c) == g2.data_of(c));
    match g1.op_of(c) {
        Op::Leaf => {
        },
        Op::Unary { k, a } => {
            assert(g1.data_of(a as int) == g2.data_of(a as int));
        },
        Op::Binary { k, a, b } => {
            assert(g1.data_of(a as int) == g2.data_of(a as int));
            assert(g1.data_of(b as int) == g2.data_of(b as int));
        },
        Op::Mm { a, b } => {
            assert(g1.data_of(a as int) == g2.data_of(a as int));
            assert(g1.data_of(b as int) == g2.data_of(b as int));
            assert(g1.shape_of(a as int) == g2.shape_of(a as int));
            assert(g1.shape_of(b as int) == g2.shape_of(b as int));
        },
        Op::MmT { a, b } => {
            assert(g1.data_of(a as int) == g2.data_of(a as int));
            assert(g1.data_of(b as int) == g2.data_of(b as int));
            assert(g1.shape_of(a as int) == g2.shape_of(a as int));
            assert(g1.shape_of(b as int) == g2.shape_of(b as int));
        },
        Op::Unsqueeze { a } => {
        },
        Op::Softmax { a, axis } => {
            assert(g1.shape_of(a as int) == g2.shape_of(a as int));
        },
        Op::Sum { a } => {
            assert(g1.data_of(a as int) == g2.data_of(a as int));
        },
        Op::Mean { a } => {
            assert(g1.data_of(a as int) == g2.data_of(a as int));
        },
    }
}

/// An executable deposit step matches the spec-level one.
proof fn lemma_deposit_matches<T: Scalar>(
    gref: Graph<T>,
    gpre: Graph<T>,
    gnow: Graph<T>,
    st: Seq<Seq<T>>,
    m: int,
    d: Seq<T>,
)
    requires
        st.len() == gref.node_count(),
        gpre.node_count() == gref.node_count(),
        gnow.node_count() == gref.node_count(),
        0 <= m < gref.node_count(),
        forall|i: int| 0 <= i < gref.node_count() ==> #[trigger] gpre.grad_of(i) == st[i],
        forall|i: int| 0 <= i < gref.node_count() && i != m ==> #[trigger] gnow.grad_of(i)
            == gpre.grad_of(i),
        gpre.has_grad(m) == gref.has_grad(m),
        gref.has_grad(m) ==> gnow.grad_of(m) == add_seq(gpre.grad_of(m), d),
        !gref.has_grad(m) ==> gnow.grad_of(m) == gpre.grad_of(m),
    ensures
        forall|i: int| 0 <= i < gref.node_count() ==> #[trigger] gnow.grad_of(i) == deposit(
            gref,
            st,
            m,
            d,
        )[i],
{
    assert forall|i: int| 0 <= i < gref.node_count() implies #[trigger] gnow.grad_of(i) == deposit(
        gref,
        st,
        m,
        d,
    )[i] by {
        if gref.has_grad(m) {
            if i == m {
                assert(gpre.grad_of(m) == st[m]);
                assert(deposit(gref, st, m, d)[i] == add_seq(st[m], d));
            } else {
                assert(deposit(gref, st, m, d)[i] == st[i]);
            }
        } else {
            assert(deposit(gref, st, m, d) == st);
        }
    }
}

/// A forward-run counter after one more pass: saturating so that the
/// count is total.
pub open spec fn count_inc(c: u64) -> u64 {
    if c == u64::MAX {
        c
    } else {
        (c + 1) as u64
    }
}

/// Bounds of the lane decomposition of a flat index.
proof fn lemma_lane_bounds(la: int, block: int, inner: int, d: int, outer: int, i: int)
    requires
        la == outer * block,
        block == d * inner,
        inner >= 1,
        d >= 1,
        outer >= 1,
        0 <= i < la,
    ensures
        0 <= i / block < outer,
        0 <= i % block < block,
        0 <= (i % block) % inner < inner,
        forall|s: int| #![trigger s * inner] 0 <= s < d ==> 0 <= (i / block) * block + s * inner
            + ((i % block) % inner) < la,
{
    assert(block >= 1) by (nonlinear_arith)
        requires
            block == d * inner,
            d >= 1,
            inner >= 1,
    ;
    assert(0 <= i / block && 0 <= i % block < block) by (nonlinear_arith)
        requires
            0 <= i,
            block >= 1,
    ;
    assert(i / block < outer) by (nonlinear_arith)
        requires
            0 <= i < outer * block,
            block >= 1,
    ;
    assert(0 <= (i % block) % inner < inner) by (nonlinear_arith)
        requires
            0 <= i % block,
            inner >= 1,
    ;
    let o = i / block;
    let inn = (i % block) % inner;
    assert forall|s: int| #![trigger s * inner] 0 <= s < d implies 0 <= o * block + s * inner
        + inn < la by {
        assert(0 <= o * block + s * inner + inn < la) by (nonlinear_arith)
            requires
                la == outer * block,
                block == d * inner,
                0 <= o < outer,
                0 <= s < d,
                0 <= inn < inner,
                inner >= 1,
                d >= 1,
        ;
    }
}

/// Two equal snapshots make every operation compute the same value.
proof fn lemma_eval_state_agree<T: Scalar>(
    g1: Graph<T>,
    st1: Seq<Seq<T>>,
    g2: Graph<T>,
    st2: Seq<Seq<T>>,
    c: int,
)
    requires
        g1.wf(),
        g1.node_in(c),
        g1.op_of(c) == g2.op_of(c),
        g1.op_of(c) != Op::Leaf,
        forall|m: int| 0 <= m < g1.node_count() ==> #[trigger] st1[m] == st2[m],
        forall|m: int| 0 <= m < g1.node_count() ==> #[trigger] g1.shape_of(m) == g2.shape_of(m),
    ensures
        eval_op(g1, st1, c) == eval_op(g2, st2, c),
{
    assert(g1.node_wf(c));
    match g1.op_of(c) {
        Op::Leaf => {
        },
        Op::Unary { k, a } => {
            assert(st1[a as int] == st2[a as int]);
        },
        Op::Binary { k, a, b } => {
            assert(st1[a as int] == st2[a as int]);
            assert(st1[b as int] == st2[b as int]);
        },
        Op::Mm { a, b } => {
            assert(st1[a as int] == st2[a as int]);
            assert(st1[b as int] == st2[b as int]);
            assert(g1.shape_of(a as int) == g2.shape_of(a as int));
            assert(g1.shape_of(b as int) == g2.shape_of(b as int));
        },
        Op::MmT { a, b } => {
            assert(st1[a as int] == st2[a as int]);
            assert(st1[b as int] == st2[b as int]);
            assert(g1.shape_of(a as int) == g2.shape_of(a as int));
            assert(g1.shape_of(b as int) == g2.shape_of(b as int));
        },
        Op::Unsqueeze { a } => {
            assert(st1[a as int] == st2[a as int]);
        },
        Op::Softmax { a, axis } => {
            assert(st1[a as int] == st2[a as int]);
            assert(g1.shape_of(a as int) == g2.shape_of(a as int));
        },
        Op::Sum { a } => {
            assert(st1[a as int] == st2[a as int]);
        },
        Op::Mean { a } => {
            assert(st1[a as int] == st2[a as int]);
        },
    }
}

impl<T: Scalar> Graph<T> {
    /// The axis length and trailing volume of node `a` at `axis`, with
    /// the product facts the lane arithmetic needs.
    fn axis_dims(&self, a: usize, axis: usize) -> (r: (usize, usize))
        requires
            self.wf(),
            self.node_in(a as int),
            (axis as int) < self.shape_of(a as int).len(),
        ensures
            r.0 == self.shape_of(a as int)[axis as int],
            r.1 == axis_inner(*self, a as int, axis as int),
            r.0 >= 1,
            r.1 >= 1,
            self.data_of(a as int).len() == volume(self.shape_of(a as int).take(axis as int)) * (
            r.0 * r.1),
            volume(self.shape_of(a as int).take(axis as int)) >= 1,
            r.0 * r.1 <= self.data_of(a as int).len(),
    {
        proof {
            assert(self.node_wf(a as int));
        }
        let la = self.nodes[a].data.len();
        let d = self.nodes[a].data.shape()[axis];
        let rank = self.nodes[a].data.shape().len();
        let mut suffix: Vec<usize> = Vec::new();
        let mut w: usize = axis + 1;
        while w < rank
            invariant
                axis + 1 <= w <= rank,
                self.wf(),
                self.node_in(a as int),
                rank == self.shape_of(a as int).len(),
                suffix@ =~= self.shape_of(a as int).subrange(axis as int + 1, w as int),
            decreases rank - w,
        {
            let dim = self.nodes[a].data.shape()[w];
            suffix.push(dim);
            assert(suffix@ =~= self.shape_of(a as int).subrange(axis as int + 1, w as int + 1));
            w = w + 1;
        }
        let ghost shp = self.shape_of(a as int);
        proof {
            assert(suffix@ =~= shp.subrange(axis as int + 1, rank as int));
            assert(dims_positive(suffix@));
            crate::tensor::lemma_volume_split(shp, axis as int + 1);
            assert(dims_positive(shp.take(axis as int + 1)));
            crate::tensor::lemma_volume_positive(shp.take(axis as int + 1));
            assert(dims_positive(shp.subrange(axis as int + 1, rank as int)));
            crate::tensor::lemma_volume_positive(shp.subrange(axis as int + 1, rank as int));
            assert(volume(shp.subrange(axis as int + 1, rank as int)) <= la) by (nonlinear_arith)
                requires
                    la == volume(shp.take(axis as int + 1)) * volume(
                        shp.subrange(axis as int + 1, rank as int),
                    ),
                    volume(shp.take(axis as int + 1)) >= 1,
                    volume(shp.subrange(axis as int + 1, rank as int)) >= 1,
            ;
        }
        let inner = match crate::tensor::checked_volume(&suffix) {
            Ok(v) => v,
            Err(e) => vstd::pervasive::unreached(),
        };
        proof {
            crate::tensor::lemma_volume_split(shp, axis as int);
            let tail = shp.subrange(axis as int, rank as int);
            crate::tensor::lemma_volume_first(tail);
            assert(tail.drop_first() =~= shp.subrange(axis as int + 1, rank as int));
            assert(tail[0] == shp[axis as int]);
            assert(volume(tail) == d * inner);
            assert(la == volume(shp.take(axis as int)) * (d * inner));
            assert(dims_positive(shp.take(axis as int)));
            crate::tensor::lemma_volume_positive(shp.take(axis as int));
            assert(d * inner <= la) by (nonlinear_arith)
                requires
                    la == volume(shp.take(axis as int)) * (d * inner),
                    volume(shp.take(axis as int)) >= 1,
                    d >= 1,
                    inner >= 1,
            ;
        }
        (d, inner)
    }

    /// Computes the stabilized normalized exponential of every lane of
    /// node `a` along `axis`.
    fn softmax_values(&self, a: usize, axis: usize) -> (r: Tensor<T>)
        requires
            self.wf(),
            self.node_in(a as int),
            (axis as int) < self.shape_of(a as int).len(),
        ensures
            r.wf(),
            r.shape_view() == self.shape_of(a as int),
            r.data_view().len() == self.data_of(a as int).len(),
            forall|i: int| 0 <= i < r.data_view().len() ==> #[trigger] r.data_view()[i] == {
                let x = self.data_of(a as int);
                let d = self.shape_of(a as int)[axis as int] as int;
                let inner = axis_inner(*self, a as int, axis as int);
                let block = d * inner;
                let o = i / block;
                let inn = (i % block) % inner;
                let m = lane_max(x, block, inner, o, inn, d);
                let den = lane_expsum(x, block, inner, o, inn, m, d);
                T::spec_div(T::spec_exp(T::spec_sub(x[i], m)), den)
            },
    {
        proof {
            assert(self.node_wf(a as int));
        }
        let (d, inner) = self.axis_dims(a, axis);
        let la = self.nodes[a].data.len();
        assert(d * inner <= la);
        let block = d * inner;
        let ghost x = self.data_of(a as int);
        let ghost outer = volume(self.shape_of(a as int).take(axis as int));
        let mut data: Vec<T> = Vec::new();
        let mut i: usize = 0;
        while i < la
            invariant
                i <= la,
                self.wf(),
                self.node_in(a as int),
                (axis as int) < self.shape_of(a as int).len(),
                x == self.data_of(a as int),
                la == x.len(),
                d as int == self.shape_of(a as int)[axis as int],
                inner as int == axis_inner(*self, a as int, axis as int),
                d >= 1,
                inner >= 1,
                block == d * inner,
                la == outer * block,
                outer >= 1,
                data@.len() == i,
                forall|w: int| 0 <= w < i ==> #[trigger] data@[w] == {
                    let o = w / block as int;
                    let inn = (w % block as int) % inner as int;
                    let m = lane_max(x, block as int, inner as int, o, inn, d as int);
                    let den = lane_expsum(x, block as int, inner as int, o, inn, m, d as int);
                    T::spec_div(T::spec_exp(T::spec_sub(x[w], m)), den)
                },
            decreases la - i,
        {
            proof {
                lemma_lane_bounds(
                    la as int,
                    block as int,
                    inner as int,
                    d as int,
                    outer,
                    i as int,
                );
            }
            let o = i / block;
            let rem = i % block;
            let inn = rem % inner;
            proof {
                assert((i as int / block as int) * (block as int) + 0 * (inner as int) + ((
                i as int % block as int) % (inner as int)) < la as int);
            }
            let base = o * block + inn;
            let ghost oo = o as int;
            let ghost gi = inn as int;
            let mut m = self.nodes[a].data.get(base);
            proof {
                assert(base as int == lane_idx(block as int, inner as int, oo, 0, gi));
                assert(m == lane_max(x, block as int, inner as int, oo, gi, 1));
            }
            let mut ss: usize = 1;
            while ss < d
                invariant
                    1 <= ss <= d,
                    self.wf(),
                    self.node_in(a as int),
                    x == self.data_of(a as int),
                    la == x.len(),
                    d >= 1,
                    inner >= 1,
                    block == d * inner,
                    la == outer * block,
                    outer >= 1,
                    oo == i as int / block as int,
                    gi == (i as int % block as int) % inner as int,
                    i < la,
                    base as int == oo * block as int + gi,
                    forall|s: int| #![trigger s * inner] 0 <= s < d ==> 0 <= oo * block + s
                        * inner + gi < la,
                    m == lane_max(x, block as int, inner as int, oo, gi, ss as int),
                decreases d - ss,
            {
                proof {
                    assert(oo * block + (ss as int) * (inner as int) + gi < la as int);
                }
                let xe = self.nodes[a].data.get(base + ss * inner);
                proof {
                    assert(base + ss * inner == lane_idx(
                        block as int,
                        inner as int,
                        oo,
                        ss as int,
                        gi,
                    ));
                }
                m = T::max_val(m, xe);
                ss = ss + 1;
            }
            let mut den = T::zero_val();
            let mut ss2: usize = 0;
            while ss2 < d
                invariant
                    ss2 <= d,
                    self.wf(),
                    self.node_in(a as int),
                    x == self.data_of(a as int),
                    la == x.len(),
                    d >= 1,
                    inner >= 1,
                    block == d * inner,
                    la == outer * block,
                    outer >= 1,
                    oo == i as int / block as int,
                    gi == (i as int % block as int) % inner as int,
                    i < la,
                    base as int == oo * block as int + gi,
                    forall|s: int| #![trigger s * inner] 0 <= s < d ==> 0 <= oo * block + s
                        * inner + gi < la,
                    den == lane_expsum(x, block as int, inner as int, oo, gi, m, ss2 as int),
                decreases d - ss2,
            {
                proof {
                    assert(oo * block + (ss2 as int) * (inner as int) + gi < la as int);
                }
                let xe = self.nodes[a].data.get(base + ss2 * inner);
                proof {
                    assert(base + ss2 * inner == lane_idx(
                        block as int,
                        inner as int,
                        oo,
                        ss2 as int,
                        gi,
                    ));
                }
                den = T::add_val(den, T::exp_val(T::sub_val(xe, m)));
                ss2 = ss2 + 1;
            }
            let xi = self.nodes[a].data.get(i);
            let v = T::div_val(T::exp_val(T::sub_val(xi, m)), den);
            data.push(v);
            i = i + 1;
        }
        let sh = self.shape_at(a);
        proof {
            assert(la == volume(sh@)) by {
                assert(self.node_wf(a as int));
            }
        }
        Tensor::from_parts(sh, data)
    }

    /// Computes the backward contribution of a softmax lane: per lane,
    /// the output times the upstream gradient minus the lane's
    /// gradient-output dot product.
    fn softmax_delta(&self, a: usize, axis: usize, c: usize, gv: &Tensor<T>) -> (r: Tensor<T>)
        requires
            self.wf(),
            self.node_in(a as int),
            self.node_in(c as int),
            (axis as int) < self.shape_of(a as int).len(),
            self.shape_of(c as int) == self.shape_of(a as int),
            gv.wf(),
            gv.shape_view() == self.shape_of(c as int),
        ensures
            r.wf(),
            r.shape_view() == self.shape_of(a as int),
            r.data_view().len() == gv.data_view().len(),
            forall|i: int| 0 <= i < r.data_view().len() ==> #[trigger] r.data_view()[i] == {
                let y = self.data_of(c as int);
                let d = self.shape_of(a as int)[axis as int] as int;
                let inner = axis_inner(*self, a as int, axis as int);
                let block = d * inner;
                let o = i / block;
                let inn = (i % block) % inner;
                let dot = lane_dot(gv.data_view(), y, block, inner, o, inn, d);
                T::spec_mul(y[i], T::spec_sub(gv.data_view()[i], dot))
            },
    {
        proof {
            assert(self.node_wf(a as int));
            assert(self.node_wf(c as int));
        }
        let (d, inner) = self.axis_dims(a, axis);
        let la = self.nodes[c].data.len();
        proof {
            assert(self.data_of(c as int).len() == volume(self.shape_of(c as int)));
            assert(self.data_of(a as int).len() == volume(self.shape_of(a as int)));
        }
        assert(d * inner <= la);
        let block = d * inner;
        proof {
            assert(self.data_of(c as int).len() == volume(self.shape_of(c as int)));
            assert(self.data_of(a as int).len() == volume(self.shape_of(a as int)));
        }
        let ghost y = self.data_of(c as int);
        let ghost gvv = gv.data_view();
        let ghost outer = volume(self.shape_of(a as int).take(axis as int));
        let lg = gv.len();
        proof {
            assert(lg == volume(gv.shape_view()));
            assert(lg == la);
        }
        let mut data: Vec<T> = Vec::new();
        let mut i: usize = 0;
        while i < la
            invariant
                i <= la,
                self.wf(),
                self.node_in(a as int),
                self.node_in(c as int),
                (axis as int) < self.shape_of(a as int).len(),
                y == self.data_of(c as int),
                gvv == gv.data_view(),
                la == y.len(),
                la == gvv.len(),
                d as int == self.shape_of(a as int)[axis as int],
                inner as int == axis_inner(*self, a as int, axis as int),
                d >= 1,
                inner >= 1,
                block == d * inner,
                la == outer * block,
                outer >= 1,
                data@.len() == i,
                forall|w: int| 0 <= w < i ==> #[trigger] data@[w] == {
                    let o = w / block as int;
                    let inn = (w % block as int) % inner as int;
                    let dot = lane_dot(gvv, y, block as int, inner as int, o, inn, d as int);
                    T::spec_mul(y[w], T::spec_sub(gvv[w], dot))
                },
            decreases la - i,
        {
            proof {
                lemma_lane_bounds(
                    la as int,
                    block as int,
                    inner as int,
                    d as int,
                    outer,
                    i as int,
                );
            }
            let o = i / block;
            let rem = i % block;
            let inn = rem % inner;
            proof {
                assert((i as int / block as int) * (block as int) + 0 * (inner as int) + ((
                i as int % block as int) % (inner as int)) < la as int);
            }
            let base = o * block + inn;
            let ghost oo = o as int;
            let ghost gi = inn as int;
            let mut dot = T::zero_val();
            let mut ss: usize = 0;
            while ss < d
                invariant
                    ss <= d,
                    self.wf(),
                    self.node_in(c as int),
                    y == self.data_of(c as int),
                    gvv == gv.data_view(),
                    la == y.len(),
                    la == gvv.len(),
                    d >= 1,
                    inner >= 1,
                    block == d * inner,
                    la == outer * block,
                    outer >= 1,
                    i < la,
                    base as int == oo * block as int + gi,
                    forall|s: int| #![trigger s * inner] 0 <= s < d ==> 0 <= oo * block + s
                        * inner + gi < la,
                    dot == lane_dot(gvv, y, block as int, inner as int, oo, gi, ss as int),
                decreases d - ss,
            {
                proof {
                    assert(oo * block + (ss as int) * (inner as int) + gi < la as int);
                }
                let ge = gv.get(base + ss * inner);
                let ye = self.nodes[c].data.get(base + ss * inner);
                proof {
                    assert(base + ss * inner == lane_idx(
                        block as int,
                        inner as int,
                        oo,
                        ss as int,
                        gi,
                    ));
                }
                dot = T::add_val(dot, T::mul_val(ge, ye));
                ss = ss + 1;
            }
            let v = T::mul_val(self.nodes[c].data.get(i), T::sub_val(gv.get(i), dot));
            data.push(v);
            i = i + 1;
        }
        let sh = self.shape_at(a);
        proof {
            assert(la == volume(sh@)) by {
                assert(self.node_wf(a as int));
                assert(self.node_wf(c as int));
            }
        }
        Tensor::from_parts(sh, data)
    }

    /// Runs one node's forward routine against the current buffers.
    fn eval_node(&self, c: usize) -> (r: Tensor<T>)
        requires
            self.wf(),
            self.node_in(c as int),
            self.op_of(c as int) != Op::Leaf,
        ensures
            r.wf(),
            r.shape_view() == self.shape_of(c as int),
            r.data_view() == eval_op(*self, data_state(*self), c as int),
    {
        proof {
            assert(self.node_wf(c as int));
        }
        let node_op = self.nodes[c].op;
        match node_op {
            Op::Leaf => vstd::pervasive::unreached(),
            Op::Unary { k, a } => {
                proof {
                    assert(self.node_wf(a as int));
                }
                let t = ew_unary(k, &self.nodes[a].data);
                proof {
                    assert(t.data_view() =~= eval_op(*self, data_state(*self), c as int));
                }
                t
            },
            Op::Binary { k, a, b } => {
                proof {
                    assert(self.node_wf(a as int));
                    assert(self.node_wf(b as int));
                }
                let t = ew_binary(k, &self.nodes[a].data, &self.nodes[b].data);
                proof {
                    assert(t.data_view() =~= eval_op(*self, data_state(*self), c as int));
                }
                t
            },
            Op::Mm { a, b } => {
                proof {
                    assert(self.node_wf(a as int));
                    assert(self.node_wf(b as int));
                    crate::tensor::lemma_volume2(self.shape_of(c as int));
                }
                let lc = self.nodes[c].data.len();
                let t = matmul2d(&self.nodes[a].data, &self.nodes[b].data);
                proof {
                    assert(t.shape_view() =~= self.shape_of(c as int));
                    assert(t.data_view() =~= eval_op(*self, data_state(*self), c as int));
                }
                t
            },
            Op::MmT { a, b } => {
                proof {
                    assert(self.node_wf(a as int));
                    assert(self.node_wf(b as int));
                    crate::tensor::lemma_volume2(self.shape_of(c as int));
                }
                let lc = self.nodes[c].data.len();
                let bt = transpose2d(&self.nodes[b].data);
                let t = matmul2d(&self.nodes[a].data, &bt);
                proof {
                    assert(t.shape_view() =~= self.shape_of(c as int));
                    assert(t.data_view() =~= eval_op(*self, data_state(*self), c as int));
                }
                t
            },
            Op::Unsqueeze { a } => {
                proof {
                    assert(self.node_wf(a as int));
                }
                let sh = self.shape_at(c);
                let t = crate::tensor::reshape_copy(&self.nodes[a].data, sh);
                proof {
                    assert(t.data_view() =~= eval_op(*self, data_state(*self), c as int));
                }
                t
            },
            Op::Softmax { a, axis } => {
                proof {
                    assert(self.node_wf(a as int));
                }
                let t = self.softmax_values(a, axis);
                proof {
                    assert(t.data_view() =~= eval_op(*self, data_state(*self), c as int));
                }
                t
            },
            Op::Sum { a } => {
                let t = scalar_tensor(sum_all(&self.nodes[a].data));
                proof {
                    assert(t.data_view() =~= eval_op(*self, data_state(*self), c as int));
                    assert(t.shape_view() =~= self.shape_of(c as int));
                }
                t
            },
            Op::Mean { a } => {
                let s = sum_all(&self.nodes[a].data);
                let n_el = self.nodes[a].data.len();
                let t = scalar_tensor(T::div_val(s, T::of_count_val(n_el)));
                proof {
                    assert(t.data_view() =~= eval_op(*self, data_state(*self), c as int));
                    assert(t.shape_view() =~= self.shape_of(c as int));
                }
                t
            },
        }
    }
}

impl<T: Scalar> Graph<T> {
    /// Computes the backward contribution of node `c` for its operand at
    /// `slot`, from the upstream gradient `gv` and the forward values.
    fn compute_delta(&self, c: usize, slot: usize, gv: &Tensor<T>) -> (r: Tensor<T>)
        requires
            self.wf(),
            self.node_in(c as int),
            self.op_of(c as int) != Op::Leaf,
            (slot as int) < op_operands(self.op_of(c as int)).len(),
            gv.wf(),
            gv.shape_view() == self.shape_of(c as int),
        ensures
            r.wf(),
            r.shape_view() == self.shape_of(op_operands(self.op_of(c as int))[slot as int] as int),
            r.data_view() == delta_op(*self, c as int, slot as int, gv.data_view()),
    {
        proof {
            assert(self.node_wf(c as int));
        }
        let node_op = self.nodes[c].op;
        match node_op {
            Op::Leaf => vstd::pervasive::unreached(),
            Op::Unary { k, a } => {
                proof {
                    assert(self.node_wf(a as int));
                }
                let t = match k {
                    MapKind::Neg => ew_unary(MapKind::Neg, gv),
                    MapKind::Abs => {
                        let sg = ew_unary(MapKind::Sgn, &self.nodes[a].data);
                        ew_binary(ZipKind::Mul, gv, &sg)
                    },
                    MapKind::Sgn => {
                        let l = gv.values().len();
                        let sh = clone_shape(gv.shape());
                        filled_for(&sh, T::zero_val())
                    },
                    MapKind::Exp => ew_binary(ZipKind::ExpGate, gv, &self.nodes[c].data),
                    MapKind::Ln => ew_binary(ZipKind::LnGate, gv, &self.nodes[a].data),
                    MapKind::Sqrt => ew_binary(ZipKind::SqrtGate, gv, &self.nodes[c].data),
                    MapKind::Tanh => ew_binary(ZipKind::TanhGate, gv, &self.nodes[c].data),
                    MapKind::Relu => ew_binary(ZipKind::ReluGate, gv, &self.nodes[a].data),
                    MapKind::Sigmoid => ew_binary(ZipKind::SigmoidGate, gv, &self.nodes[c].data),
                    MapKind::SoftPlus => ew_binary(ZipKind::SoftPlusGate, gv, &self.nodes[a].data),
                };
                proof {
                    assert(t.data_view() =~= delta_op(
                        *self,
                        c as int,
                        slot as int,
                        gv.data_view(),
                    ));
                }
                t
            },
            Op::Binary { k, a, b } => {
                proof {
                    assert(self.node_wf(a as int));
                    assert(self.node_wf(b as int));
                }
                let t = if slot == 0 {
                    match k {
                        ZipKind::Add => gv.duplicate(),
                        ZipKind::Sub => gv.duplicate(),
                        ZipKind::Mul => ew_binary(ZipKind::Mul, gv, &self.nodes[b].data),
                        _ => ew_binary(ZipKind::Div, gv, &self.nodes[b].data),
                    }
                } else {
                    match k {
                        ZipKind::Add => gv.duplicate(),
                        ZipKind::Sub => ew_unary(MapKind::Neg, gv),
                        ZipKind::Mul => ew_binary(ZipKind::Mul, gv, &self.nodes[a].data),
                        _ => {
                            let t1 = ew_binary(ZipKind::Mul, gv, &self.nodes[c].data);
                            let t2 = ew_binary(ZipKind::Div, &t1, &self.nodes[b].data);
                            ew_unary(MapKind::Neg, &t2)
                        },
                    }
                };
                proof {
                    assert(t.data_view() =~= delta_op(
                        *self,
                        c as int,
                        slot as int,
                        gv.data_view(),
                    ));
                }
                t
            },
            Op::Mm { a, b } => {
                proof {
                    assert(self.node_wf(a as int));
                    assert(self.node_wf(b as int));
                    crate::tensor::lemma_volume2(self.shape_of(a as int));
                    crate::tensor::lemma_volume2(self.shape_of(b as int));
                }
                let la = self.nodes[a].data.len();
                let lb = self.nodes[b].data.len();
                let t = if slot == 0 {
                    let bt = transpose2d(&self.nodes[b].data);
                    matmul2d(gv, &bt)
                } else {
                    let at = transpose2d(&self.nodes[a].data);
                    matmul2d(&at, gv)
                };
                proof {
                    assert(t.data_view() =~= delta_op(
                        *self,
                        c as int,
                        slot as int,
                        gv.data_view(),
                    ));
                    assert(t.shape_view() =~= self.shape_of(
                        op_operands(self.op_of(c as int))[slot as int] as int,
                    ));
                }
                t
            },
            Op::MmT { a, b } => {
                proof {
                    assert(self.node_wf(a as int));
                    assert(self.node_wf(b as int));
                    crate::tensor::lemma_volume2(self.shape_of(a as int));
                    crate::tensor::lemma_volume2(self.shape_of(b as int));
                }
                let la = self.nodes[a].data.len();
                let lb = self.nodes[b].data.len();
                let t = if slot == 0 {
                    matmul2d(gv, &self.nodes[b].data)
                } else {
                    let gt = transpose2d(gv);
                    matmul2d(&gt, &self.nodes[a].data)
                };
                proof {
                    assert(t.data_view() =~= delta_op(
                        *self,
                        c as int,
                        slot as int,
                        gv.data_view(),
                    ));
                    assert(t.shape_view() =~= self.shape_of(
                        op_operands(self.op_of(c as int))[slot as int] as int,
                    ));
                }
                t
            },
            Op::Unsqueeze { a } => {
                proof {
                    assert(self.node_wf(a as int));
                }
                let sh = self.shape_at(a);
                let t = crate::tensor::reshape_copy(gv, sh);
                t
            },
            Op::Softmax { a, axis } => {
                proof {
                    assert(self.node_wf(a as int));
                }
                let t = self.softmax_delta(a, axis, c, gv);
                proof {
                    assert(t.data_view() =~= delta_op(
                        *self,
                        c as int,
                        slot as int,
                        gv.data_view(),
                    ));
                }
                t
            },
            Op::Sum { a } => {
                proof {
                    assert(self.node_wf(a as int));
                }
                let l = self.nodes[a].data.len();
                let sh = clone_shape(self.nodes[a].data.shape());
                let t = filled_for(&sh, gv.get(0));
                proof {
                    assert(t.data_view() =~= delta_op(
                        *self,
                        c as int,
                        slot as int,
                        gv.data_view(),
                    ));
                }
                t
            },
            Op::Mean { a } => {
                proof {
                    assert(self.node_wf(a as int));
                }
                let l = self.nodes[a].data.len();
                let sh = clone_shape(self.nodes[a].data.shape());
                let t = filled_for(&sh, T::div_val(gv.get(0), T::of_count_val(l)));
                proof {
                    assert(t.data_view() =~= delta_op(
                        *self,
                        c as int,
                        slot as int,
                        gv.data_view(),
                    ));
                }
                t
            },
        }
    }

    /// Adds a contribution into node `m`'s accumulator, if it has one.
    fn deposit_into(&mut self, m: usize, d: Tensor<T>)
        requires
            old(self).wf(),
            old(self).node_in(m as int),
            d.wf(),
            d.shape_view() == old(self).shape_of(m as int),
        ensures
            final(self).wf(),
            final(self).node_count() == old(self).node_count(),
            forall|i: int| 0 <= i < old(self).node_count() ==> #[trigger] final(self).op_of(i)
                == old(self).op_of(i),
            forall|i: int| 0 <= i < old(self).node_count() ==> #[trigger] final(self).shape_of(i)
                == old(self).shape_of(i),
            forall|i: int| 0 <= i < old(self).node_count() ==> #[trigger] final(self).has_grad(i)
                == old(self).has_grad(i),
            forall|i: int| 0 <= i < old(self).node_count() ==> #[trigger] final(self).data_of(i)
                == old(self).data_of(i),
            forall|i: int| 0 <= i < old(self).node_count() ==> #[trigger] final(self).count_of(i)
                == old(self).count_of(i),
            forall|i: int| 0 <= i < old(self).node_count() && i != m as int
                ==> #[trigger] final(self).grad_of(i) == old(self).grad_of(i),
            old(self).has_grad(m as int) ==> final(self).grad_of(m as int) == add_seq(
                old(self).grad_of(m as int),
                d.data_view(),
            ),
            !old(self).has_grad(m as int) ==> final(self).grad_of(m as int) == old(self).grad_of(
                m as int,
            ),
    {
        proof {
            assert(old(self).node_wf(m as int));
        }
        let has = match &self.nodes[m].grad {
            Some(_) => true,
            None => false,
        };
        if has {
            let mut acc = match &self.nodes[m].grad {
                Some(t) => t.duplicate(),
                None => vstd::pervasive::unreached(),
            };
            crate::tensor::add_into(&mut acc, &d);
            let ghost pre = *self;
            let node = &mut self.nodes[m];
            node.grad = Some(acc);
            proof {
                assert(forall|w: int| 0 <= w < self.nodes@.len() && w != m as int ==> (
                #[trigger] self.nodes@[w]) == pre.nodes@[w]);
                assert(self.nodes@[m as int].op == pre.nodes@[m as int].op);
                assert(self.nodes@[m as int].data == pre.nodes@[m as int].data);
                assert(self.nodes@[m as int].fwd_count == pre.nodes@[m as int].fwd_count);
                assert(self.grad_of(m as int) =~= add_seq(
                    old(self).grad_of(m as int),
                    d.data_view(),
                ));
                assert forall|q: int| 0 <= q < self.node_count() implies #[trigger] self.node_wf(
                    q,
                ) by {
                    assert(pre.node_wf(q));
                    assert(forall|w: int| 0 <= w < self.nodes@.len() ==> (
                    #[trigger] self.nodes@[w]).data == pre.nodes@[w].data);
                    if q != m as int {
                        assert(self.nodes@[q] == pre.nodes@[q]);
                    }
                }
                assert forall|i: int| 0 <= i < old(self).node_count() implies #[trigger] self
                    .op_of(i) == pre.op_of(i) by {
                    if i != m as int {
                        assert(self.nodes@[i] == pre.nodes@[i]);
                    }
                }
                assert forall|i: int| 0 <= i < old(self).node_count() implies #[trigger] self
                    .shape_of(i) == pre.shape_of(i) by {
                    if i != m as int {
                        assert(self.nodes@[i] == pre.nodes@[i]);
                    }
                }
                assert forall|i: int| 0 <= i < old(self).node_count() implies #[trigger] self
                    .has_grad(i) == pre.has_grad(i) by {
                    if i != m as int {
                        assert(self.nodes@[i] == pre.nodes@[i]);
                    }
                }
                assert forall|i: int| 0 <= i < old(self).node_count() implies #[trigger] self
                    .data_of(i) == pre.data_of(i) by {
                    if i != m as int {
                        assert(self.nodes@[i] == pre.nodes@[i]);
                    }
                }
                assert forall|i: int| 0 <= i < old(self).node_count() implies #[trigger] self
                    .count_of(i) == pre.count_of(i) by {
                    if i != m as int {
                        assert(self.nodes@[i] == pre.nodes@[i]);
                    }
                }
                assert forall|i: int|
                    0 <= i < old(self).node_count() && i != m as int implies #[trigger] self
                    .grad_of(i) == pre.grad_of(i) by {
                    assert(self.nodes@[i] == pre.nodes@[i]);
                }
            }
        }
    }

    /// Adds the seed into node `root`'s accumulator.
    fn seed_root(&mut self, root: usize, seed: T)
        requires
            old(self).wf(),
            old(self).node_in(root as int),
            old(self).has_grad(root as int),
        ensures
            final(self).wf(),
            final(self).node_count() == old(self).node_count(),
            forall|i: int| 0 <= i < old(self).node_count() ==> #[trigger] final(self).op_of(i)
                == old(self).op_of(i),
            forall|i: int| 0 <= i < old(self).node_count() ==> #[trigger] final(self).shape_of(i)
                == old(self).shape_of(i),
            forall|i: int| 0 <= i < old(self).node_count() ==> #[trigger] final(self).has_grad(i)
                == old(self).has_grad(i),
            forall|i: int| 0 <= i < old(self).node_count() ==> #[trigger] final(self).data_of(i)
                == old(self).data_of(i),
            forall|i: int| 0 <= i < old(self).node_count() ==> #[trigger] final(self).count_of(i)
                == old(self).count_of(i),
            forall|i: int| 0 <= i < old(self).node_count() ==> #[trigger] final(self).grad_of(i)
                == seeded_state(*old(self), root as int, seed)[i],
    {
        proof {
            assert(old(self).node_wf(root as int));
        }
        let mut acc = match &self.nodes[root].grad {
            Some(t) => t.duplicate(),
            None => vstd::pervasive::unreached(),
        };
        crate::tensor::add_scalar_into(&mut acc, seed);
        let ghost pre = *self;
        let node = &mut self.nodes[root];
        node.grad = Some(acc);
        proof {
            assert(forall|w: int| 0 <= w < self.nodes@.len() && w != root as int ==> (
            #[trigger] self.nodes@[w]) == pre.nodes@[w]);
            assert(self.nodes@[root as int].op == pre.nodes@[root as int].op);
            assert(self.nodes@[root as int].data == pre.nodes@[root as int].data);
            assert(self.nodes@[root as int].fwd_count == pre.nodes@[root as int].fwd_count);
            assert forall|q: int| 0 <= q < self.node_count() implies #[trigger] self.node_wf(
                q,
            ) by {
                assert(pre.node_wf(q));
                assert(forall|w: int| 0 <= w < self.nodes@.len() ==> (#[trigger] self.nodes@[w])
                    .data == pre.nodes@[w].data);
                if q != root as int {
                    assert(self.nodes@[q] == pre.nodes@[q]);
                }
            }
            assert forall|i: int| 0 <= i < old(self).node_count() implies #[trigger] self.op_of(i)
                == pre.op_of(i) by {
                if i != root as int {
                    assert(self.nodes@[i] == pre.nodes@[i]);
                }
            }
            assert forall|i: int| 0 <= i < old(self).node_count() implies #[trigger] self.shape_of(
                i,
            ) == pre.shape_of(i) by {
                if i != root as int {
                    assert(self.nodes@[i] == pre.nodes@[i]);
                }
            }
            assert forall|i: int| 0 <= i < old(self).node_count() implies #[trigger] self.has_grad(
                i,
            ) == pre.has_grad(i) by {
                if i != root as int {
                    assert(self.nodes@[i] == pre.nodes@[i]);
                }
            }
            assert forall|i: int| 0 <= i < old(self).node_count() implies #[trigger] self.data_of(
                i,
            ) == pre.data_of(i) by {
                if i != root as int {
                    assert(self.nodes@[i] == pre.nodes@[i]);
                }
            }
            assert forall|i: int| 0 <= i < old(self).node_count() implies #[trigger] self.count_of(
                i,
            ) == pre.count_of(i) by {
                if i != root as int {
                    assert(self.nodes@[i] == pre.nodes@[i]);
                }
            }
            assert forall|i: int| 0 <= i < old(self).node_count() implies #[trigger] self.grad_of(
                i,
            ) == seeded_state(*old(self), root as int, seed)[i] by {
                if i != root as int {
                    assert(self.nodes@[i] == pre.nodes@[i]);
                } else {
                    assert(self.grad_of(i) =~= Seq::new(
                        old(self).grad_of(root as int).len(),
                        |w: int| T::spec_add(old(self).grad_of(root as int)[w], seed),
                    ));
                }
            }
        }
    }
}

/// Entries acceptable as the base tape for a new node at index `idx`:
/// each records an earlier non-leaf node under its own index, and the
/// tape is closed under non-leaf operands.
spec fn base_ok<T>(g: Graph<T>, base: History<usize>, idx: int) -> bool {
    &&& base.wf()
    &&& forall|k: int| 0 <= k < base.entries().len() ==> {
        let e = #[trigger] base.entries()[k];
        &&& e.0.node_id() == e.1
        &&& e.0.seq_no() == e.1
        &&& (e.1 as int) < idx
        &&& g.node_in(e.1 as int)
        &&& g.op_of(e.1 as int) != Op::Leaf
    }
    &&& forall|k: int, s: int|
        #![trigger op_operands(g.op_of(base.entries()[k].1 as int))[s]]
        0 <= k < base.entries().len() && 0 <= s < op_operands(
            g.op_of(base.entries()[k].1 as int),
        ).len() ==> {
            let m = op_operands(g.op_of(base.entries()[k].1 as int))[s];
            g.op_of(m as int) == Op::Leaf || base.contains_node(m)
        }
}

/// Builds the merged base tape of two operand variables, both valid on
/// the graph that already holds the freshly appended node at `idx`.
fn merged_base<T: Scalar>(x: &VarDiff, y: &VarDiff, g: &Graph<T>, idx: usize) -> (base: History<
    usize,
>)
    requires
        g.wf(),
        diff_wf(*g, *x),
        diff_wf(*g, *y),
        x.node_idx() < idx as int,
        y.node_idx() < idx as int,
        idx as int == g.node_count() - 1,
        g.op_of(idx as int) != Op::Leaf,
        op_operands(g.op_of(idx as int)) =~= seq![x.node_idx() as usize, y.node_idx() as usize],
    ensures
        base_ok(*g, base, idx as int),
        forall|s: int| 0 <= s < op_operands(g.op_of(idx as int)).len() ==> {
            let m = #[trigger] op_operands(g.op_of(idx as int))[s];
            g.op_of(m as int) == Op::Leaf || base.contains_node(m)
        },
        forall|e: (HistoryId, usize)| #[trigger] base.entries().contains(e) <==> (
        x.tape_entries().contains(e) || y.tape_entries().contains(e)),
{
    let mut base = x.past.duplicate();
    let dup_b = y.past.duplicate();
    proof {
        assert forall|i: int, j: int|
            0 <= i < base.entries().len() && 0 <= j < dup_b.entries().len() && (
            #[trigger] base.entries()[i]).0.node_id() == (
            #[trigger] dup_b.entries()[j]).0.node_id() implies base.entries()[i]
            == dup_b.entries()[j] by {
            let ea = x.tape_entries()[i];
            let eb = y.tape_entries()[j];
            assert(entry_ok(*g, x.node_idx(), ea));
            assert(entry_ok(*g, y.node_idx(), eb));
            lemma_id_ext(ea.0, eb.0);
        }
    }
    base.merge(dup_b);
    proof {
        assert forall|w: int| 0 <= w < base.entries().len() implies {
            let e = #[trigger] base.entries()[w];
            x.tape_entries().contains(e) || y.tape_entries().contains(e)
        } by {
            let e = base.entries()[w];
            assert(base.entries().contains(e));
        }
        assert forall|w: int| 0 <= w < base.entries().len() implies {
            let e = #[trigger] base.entries()[w];
            &&& e.0.node_id() == e.1
            &&& e.0.seq_no() == e.1
            &&& (e.1 as int) < idx
            &&& g.node_in(e.1 as int)
            &&& g.op_of(e.1 as int) != Op::Leaf
        } by {
            let e = base.entries()[w];
            assert(base.entries().contains(e));
            if x.tape_entries().contains(e) {
                let q = choose|q: int|
                    0 <= q < x.tape_entries().len() && #[trigger] x.tape_entries()[q] == e;
                assert(entry_ok(*g, x.node_idx(), e));
            } else {
                let q = choose|q: int|
                    0 <= q < y.tape_entries().len() && #[trigger] y.tape_entries()[q] == e;
                assert(entry_ok(*g, y.node_idx(), e));
            }
        }
        assert forall|w: int, s: int|
            #![trigger op_operands(g.op_of(base.entries()[w].1 as int))[s]]
            0 <= w < base.entries().len() && 0 <= s < op_operands(
                g.op_of(base.entries()[w].1 as int),
            ).len() implies {
            let m = op_operands(g.op_of(base.entries()[w].1 as int))[s];
            g.op_of(m as int) == Op::Leaf || base.contains_node(m)
        } by {
            let e = base.entries()[w];
            assert(base.entries().contains(e));
            let m = op_operands(g.op_of(e.1 as int))[s];
            if x.tape_entries().contains(e) {
                let q = choose|q: int|
                    0 <= q < x.tape_entries().len() && #[trigger] x.tape_entries()[q] == e;
                assert(op_operands(g.op_of(x.tape_entries()[q].1 as int))[s] == m);
                if g.op_of(m as int) != Op::Leaf {
                    assert(x.past_history().contains_node(m));
                    let p = choose|p: int|
                        0 <= p < x.tape_entries().len() && (
                        #[trigger] x.tape_entries()[p]).0.node_id() == m;
                    assert(base.entries().contains(x.tape_entries()[p]));
                    let u = choose|u: int|
                        0 <= u < base.entries().len() && #[trigger] base.entries()[u]
                            == x.tape_entries()[p];
                    assert(base.entries()[u].0.node_id() == m);
                    assert(base.contains_node(m));
                }
            } else {
                let q = choose|q: int|
                    0 <= q < y.tape_entries().len() && #[trigger] y.tape_entries()[q] == e;
                assert(op_operands(g.op_of(y.tape_entries()[q].1 as int))[s] == m);
                if g.op_of(m as int) != Op::Leaf {
                    assert(y.past_history().contains_node(m));
                    let p = choose|p: int|
                        0 <= p < y.tape_entries().len() && (
                        #[trigger] y.tape_entries()[p]).0.node_id() == m;
                    assert(base.entries().contains(y.tape_entries()[p]));
                    let u = choose|u: int|
                        0 <= u < base.entries().len() && #[trigger] base.entries()[u]
                            == y.tape_entries()[p];
                    assert(base.entries()[u].0.node_id() == m);
                    assert(base.contains_node(m));
                }
            }
        }
        assert forall|s: int| 0 <= s < op_operands(g.op_of(idx as int)).len() implies {
            let m = #[trigger] op_operands(g.op_of(idx as int))[s];
            g.op_of(m as int) == Op::Leaf || base.contains_node(m)
        } by {
            let m = op_operands(g.op_of(idx as int))[s];
            if g.op_of(m as int) != Op::Leaf {
                if s == 0 {
                    assert(m == x.node_idx() as usize);
                    assert(x.past_history().contains_node(m));
                    let p = choose|p: int|
                        0 <= p < x.tape_entries().len() && (
                        #[trigger] x.tape_entries()[p]).0.node_id() == m;
                    assert(base.entries().contains(x.tape_entries()[p]));
                    let u = choose|u: int|
                        0 <= u < base.entries().len() && #[trigger] base.entries()[u]
                            == x.tape_entries()[p];
                    assert(base.contains_node(m));
                } else {
                    assert(m == y.node_idx() as usize);
                    assert(y.past_history().contains_node(m));
                    let p = choose|p: int|
                        0 <= p < y.tape_entries().len() && (
                        #[trigger] y.tape_entries()[p]).0.node_id() == m;
                    assert(base.entries().contains(y.tape_entries()[p]));
                    let u = choose|u: int|
                        0 <= u < base.entries().len() && #[trigger] base.entries()[u]
                            == y.tape_entries()[p];
                    assert(base.contains_node(m));
                }
            }
        }
    }
    base
}

/// Wraps a freshly appended node and its base tape into a variable,
/// recording the node itself at the end of the tape.
fn compose_result<T: Scalar>(g: &Graph<T>, base: History<usize>, idx: usize) -> (r: VarDiff)
    requires
        g.wf(),
        idx as int == g.node_count() - 1,
        g.op_of(idx as int) != Op::Leaf,
        g.has_grad(idx as int),
        base_ok(*g, base, idx as int),
        forall|s: int| 0 <= s < op_operands(g.op_of(idx as int)).len() ==> {
            let m = #[trigger] op_operands(g.op_of(idx as int))[s];
            g.op_of(m as int) == Op::Leaf || base.contains_node(m)
        },
    ensures
        diff_wf(*g, r),
        r.node_idx() == idx,
        r.tape_entries().len() == base.entries().len() + 1,
        r.tape_entries().take(base.entries().len() as int) == base.entries(),
        r.tape_entries().last().0.node_id() == idx,
        r.tape_entries().last().0.seq_no() == idx,
        r.tape_entries().last().1 == idx,
        r.tape() =~= tape_of(base.entries()).push(idx),
        forall|e: (HistoryId, usize)| #[trigger] r.tape_entries().contains(e) <==> (
        base.entries().contains(e) || (e.0.node_id() == idx && e.0.seq_no() == idx && e.1 == idx)),
{
    let mut past = base;
    let id = HistoryId::new(idx, idx);
    proof {
        assert forall|k: int| 0 <= k < past.ids().len() implies (#[trigger] past.ids()[k]).lt(
            id,
        ) by {
            assert(past.entries()[k].0.seq_no() < idx);
        }
        if past.contains_node(id.node_id()) {
            let k = choose|k: int|
                0 <= k < past.entries().len() && (#[trigger] past.entries()[k]).0.node_id()
                    == id.node_id();
            assert(false);
        }
        lemma_count_below_all(past.ids(), id);
    }
    past.insert(id, idx);
    proof {
        assert(past.entries() =~= base.entries().push((id, idx)));
        assert(forall|k: int| 0 <= k < base.entries().len() ==> #[trigger] past.entries()[k]
            == base.entries()[k]);
        assert forall|e: (HistoryId, usize)| #[trigger] past.entries().contains(e) implies (
        base.entries().contains(e) || (e.0.node_id() == idx && e.0.seq_no() == idx && e.1
            == idx)) by {
            let k = choose|k: int|
                0 <= k < past.entries().len() && #[trigger] past.entries()[k] == e;
            if k < base.entries().len() {
                assert(base.entries()[k] == e);
            }
        }
        assert forall|e: (HistoryId, usize)| (base.entries().contains(e) || (e.0.node_id() == idx
            && e.0.seq_no() == idx && e.1 == idx)) implies #[trigger] past.entries().contains(
            e,
        ) by {
            if base.entries().contains(e) {
                let k = choose|k: int|
                    0 <= k < base.entries().len() && #[trigger] base.entries()[k] == e;
                assert(past.entries()[k] == e);
            } else {
                lemma_id_ext(e.0, id);
                assert(past.entries().last() == e);
            }
        }
        assert forall|m: usize| base.contains_node(m) implies past.contains_node(m) by {
            let k = choose|k: int|
                0 <= k < base.entries().len() && (#[trigger] base.entries()[k]).0.node_id() == m;
            assert(past.entries()[k].0.node_id() == m);
        }
    }
    let r = VarDiff { node: idx, past };
    proof {
        assert forall|k: int, s: int|
            #![trigger op_operands(g.op_of(r.tape_entries()[k].1 as int))[s]]
            0 <= k < r.tape_entries().len() && 0 <= s < op_operands(
                g.op_of(r.tape_entries()[k].1 as int),
            ).len() implies {
            let m = op_operands(g.op_of(r.tape_entries()[k].1 as int))[s];
            g.op_of(m as int) == Op::Leaf || r.past_history().contains_node(m)
        } by {
            if k < base.entries().len() {
                assert(r.tape_entries()[k] == base.entries()[k]);
                let m = op_operands(g.op_of(base.entries()[k].1 as int))[s];
                assert(g.op_of(m as int) == Op::Leaf || base.contains_node(m));
            } else {
                assert(r.tape_entries()[k] == r.tape_entries().last());
                let m = op_operands(g.op_of(idx as int))[s];
                assert(g.op_of(m as int) == Op::Leaf || base.contains_node(m));
            }
        }
        assert(diff_wf(*g, r));
        assert(r.tape() =~= tape_of(base.entries()).push(idx));
    }
    r
}

/// The node indices a raw entry sequence records.
pub open spec fn tape_of(s: Seq<(HistoryId, usize)>) -> Seq<usize> {
    Seq::new(s.len(), |i: int| s[i].1)
}

impl VarDiff {
    /// Composes a pointwise one-operand operation: merges no tapes,
    /// appends one node, records it.
    pub fn unary_op<T: Scalar>(&self, k: MapKind, g: &mut Graph<T>) -> (r: VarDiff)
        requires
            old(g).wf(),
            diff_wf(*old(g), *self),
            old(g).node_count() < usize::MAX,
        ensures
            final(g).wf(),
            final(g).extends(*old(g)),
            unchanged_nodes(*old(g), *final(g)),
            final(g).node_count() == old(g).node_count() + 1,
            r.node_idx() == old(g).node_count(),
            final(g).op_of(r.node_idx()) == (Op::Unary { k, a: self.node_idx() as usize }),
            final(g).shape_of(r.node_idx()) == old(g).shape_of(self.node_idx()),
            final(g).data_of(r.node_idx()) =~= Seq::new(
                volume(old(g).shape_of(self.node_idx())) as nat,
                |i: int| T::spec_zero(),
            ),
            final(g).has_grad(r.node_idx()),
            final(g).grad_of(r.node_idx()) =~= Seq::new(
                volume(old(g).shape_of(self.node_idx())) as nat,
                |i: int| T::spec_zero(),
            ),
            final(g).count_of(r.node_idx()) == 0,
            diff_wf(*final(g), r),
            diff_wf(*final(g), *self),
            r.tape_entries().len() == self.tape_entries().len() + 1,
            r.tape_entries().take(self.tape_entries().len() as int) == self.tape_entries(),
            r.tape() =~= self.tape().push(old(g).node_count() as usize),
    {
        proof {
            lemma_shape_volume(*old(g), self.node_idx());
        }
        let l = g.nodes[self.node].data.len();
        assert(volume(old(g).shape_of(self.node_idx())) == l);
        let sh = g.shape_at(self.node);
        let idx = g.push_op_node(Op::Unary { k, a: self.node }, sh);
        proof {
            lemma_diff_wf_extends(*old(g), *g, *self);
        }
        let base = self.past.duplicate();
        let r = compose_result(g, base, idx);
        proof {
            assert(r.tape() =~= self.tape().push(idx));
        }
        r
    }

    /// Composes a pointwise two-operand operation.  The operand shapes
    /// must be equal: construction is the one checked failure point, and
    /// on a mismatch nothing is appended.
    pub fn binary_op<T: Scalar>(&self, k: ZipKind, other: &VarDiff, g: &mut Graph<T>) -> (r:
        Result<VarDiff, ShapeError>)
        requires
            old(g).wf(),
            diff_wf(*old(g), *self),
            diff_wf(*old(g), *other),
            arith_zip(k),
            old(g).node_count() < usize::MAX,
        ensures
            r is Ok <==> old(g).shape_of(self.node_idx()) == old(g).shape_of(other.node_idx()),
            r is Err ==> *final(g) == *old(g) && (r matches Err(e) ==> e == ShapeError::Mismatch),
            r matches Ok(v) ==> {
                &&& final(g).wf()
                &&& final(g).extends(*old(g))
                &&& unchanged_nodes(*old(g), *final(g))
                &&& final(g).node_count() == old(g).node_count() + 1
                &&& v.node_idx() == old(g).node_count()
                &&& final(g).op_of(v.node_idx()) == (Op::Binary {
                    k,
                    a: self.node_idx() as usize,
                    b: other.node_idx() as usize,
                })
                &&& final(g).shape_of(v.node_idx()) == old(g).shape_of(self.node_idx())
                &&& final(g).data_of(v.node_idx()) =~= Seq::new(
                    volume(old(g).shape_of(self.node_idx())) as nat,
                    |i: int| T::spec_zero(),
                )
                &&& final(g).has_grad(v.node_idx())
                &&& final(g).grad_of(v.node_idx()) =~= Seq::new(
                    volume(old(g).shape_of(self.node_idx())) as nat,
                    |i: int| T::spec_zero(),
                )
                &&& final(g).count_of(v.node_idx()) == 0
                &&& diff_wf(*final(g), v)
                &&& diff_wf(*final(g), *self)
                &&& diff_wf(*final(g), *other)
                &&& v.tape_entries().last().1 as int == old(g).node_count()
                &&& forall|e: (HistoryId, usize)| #[trigger] v.tape_entries().contains(e) <==> (
                self.tape_entries().contains(e) || other.tape_entries().contains(e) || (
                e.0.node_id() as int == old(g).node_count() && e.0.seq_no() as int == old(
                    g,
                ).node_count() && e.1 as int == old(g).node_count()))
            },
    {
        proof {
            lemma_shape_volume(*old(g), self.node_idx());
        }
        let l = g.nodes[self.node].data.len();
        assert(volume(old(g).shape_of(self.node_idx())) == l);
        let sa = g.shape_at(self.node);
        let sb = g.shape_at(other.node);
        if !shapes_equal(&sa, &sb) {
            return Err(ShapeError::Mismatch);
        }
        let idx = g.push_op_node(
            Op::Binary { k, a: self.node, b: other.node },
            sa,
        );
        proof {
            lemma_diff_wf_extends(*old(g), *g, *self);
            lemma_diff_wf_extends(*old(g), *g, *other);
        }
        let base = merged_base(self, other, g, idx);
        let v = compose_result(g, base, idx);
        Ok(v)
    }

    /// Composes the matrix product of two 2-dimensional variables.  The
    /// inner dimensions must agree and the result must fit the address
    /// space; construction is the one checked failure point, and on a
    /// rejection nothing is appended.
    pub fn mm<T: Scalar>(&self, other: &VarDiff, g: &mut Graph<T>) -> (r: Result<
        VarDiff,
        ShapeError,
    >)
        requires
            old(g).wf(),
            diff_wf(*old(g), *self),
            diff_wf(*old(g), *other),
            old(g).node_count() < usize::MAX,
        ensures
            r is Ok <==> {
                &&& old(g).shape_of(self.node_idx()).len() == 2
                &&& old(g).shape_of(other.node_idx()).len() == 2
                &&& old(g).shape_of(self.node_idx())[1] == old(g).shape_of(other.node_idx())[0]
                &&& old(g).shape_of(self.node_idx())[0] * old(g).shape_of(other.node_idx())[1]
                    <= usize::MAX
            },
            r is Err ==> *final(g) == *old(g),
            r matches Err(e) ==> (e == ShapeError::Mismatch <==> !{
                &&& old(g).shape_of(self.node_idx()).len() == 2
                &&& old(g).shape_of(other.node_idx()).len() == 2
                &&& old(g).shape_of(self.node_idx())[1] == old(g).shape_of(other.node_idx())[0]
            }) && (e == ShapeError::TooLarge <==> ({
                &&& old(g).shape_of(self.node_idx()).len() == 2
                &&& old(g).shape_of(other.node_idx()).len() == 2
                &&& old(g).shape_of(self.node_idx())[1] == old(g).shape_of(other.node_idx())[0]
            } && old(g).shape_of(self.node_idx())[0] * old(g).shape_of(other.node_idx())[1]
                > usize::MAX)),
            r matches Ok(v) ==> {
                &&& final(g).wf()
                &&& final(g).extends(*old(g))
                &&& unchanged_nodes(*old(g), *final(g))
                &&& final(g).node_count() == old(g).node_count() + 1
                &&& v.node_idx() == old(g).node_count()
                &&& final(g).op_of(v.node_idx()) == (Op::Mm {
                    a: self.node_idx() as usize,
                    b: other.node_idx() as usize,
                })
                &&& final(g).shape_of(v.node_idx()) =~= seq![
                    old(g).shape_of(self.node_idx())[0],
                    old(g).shape_of(other.node_idx())[1],
                ]
                &&& final(g).data_of(v.node_idx()) =~= Seq::new(
                    (old(g).shape_of(self.node_idx())[0] * old(g).shape_of(other.node_idx())[
                        1]) as nat,
                    |i: int| T::spec_zero(),
                )
                &&& final(g).has_grad(v.node_idx())
                &&& final(g).grad_of(v.node_idx()) =~= Seq::new(
                    (old(g).shape_of(self.node_idx())[0] * old(g).shape_of(other.node_idx())[
                        1]) as nat,
                    |i: int| T::spec_zero(),
                )
                &&& final(g).count_of(v.node_idx()) == 0
                &&& diff_wf(*final(g), v)
                &&& diff_wf(*final(g), *self)
                &&& diff_wf(*final(g), *other)
                &&& forall|e: (HistoryId, usize)| #[trigger] v.tape_entries().contains(e) <==> (
                self.tape_entries().contains(e) || other.tape_entries().contains(e) || (
                e.0.node_id() as int == old(g).node_count() && e.0.seq_no() as int == old(
                    g,
                ).node_count() && e.1 as int == old(g).node_count()))
            },
    {
        proof {
            lemma_shape_volume(*old(g), self.node_idx());
            lemma_shape_volume(*old(g), other.node_idx());
        }
        let sa = g.shape_at(self.node);
        let sb = g.shape_at(other.node);
        if sa.len() != 2 || sb.len() != 2 || sa[1] != sb[0] {
            return Err(ShapeError::Mismatch);
        }
        let m = sa[0];
        let n = sb[1];
        let mn = match m.checked_mul(n) {
            Some(v) => v,
            None => {
                return Err(ShapeError::TooLarge);
            },
        };
        let mut sh: Vec<usize> = Vec::new();
        sh.push(m);
        sh.push(n);
        proof {
            crate::tensor::lemma_volume2(sh@);
            assert(sh@ =~= seq![m, n]);
        }
        let idx = g.push_op_node(
            Op::Mm { a: self.node, b: other.node },
            sh,
        );
        proof {
            lemma_diff_wf_extends(*old(g), *g, *self);
            lemma_diff_wf_extends(*old(g), *g, *other);
        }
        let base = merged_base(self, other, g, idx);
        let v = compose_result(g, base, idx);
        Ok(v)
    }

    /// Composes a pointwise two-operand operation whose second operand is
    /// a constant leaf.  The constant gets no tape record and receives no
    /// gradient: it is treated as a constant of the differentiation.
    pub fn binary_with<T: Scalar>(&self, k: ZipKind, other: &Var, g: &mut Graph<T>) -> (r: Result<
        VarDiff,
        ShapeError,
    >)
        requires
            old(g).wf(),
            diff_wf(*old(g), *self),
            var_ok(*old(g), *other),
            arith_zip(k),
            old(g).node_count() < usize::MAX,
        ensures
            r is Ok <==> old(g).shape_of(self.node_idx()) == old(g).shape_of(other.node_idx()),
            r is Err ==> *final(g) == *old(g) && (r matches Err(e) ==> e == ShapeError::Mismatch),
            r matches Ok(v) ==> {
                &&& final(g).wf()
                &&& final(g).extends(*old(g))
                &&& unchanged_nodes(*old(g), *final(g))
                &&& final(g).node_count() == old(g).node_count() + 1
                &&& v.node_idx() == old(g).node_count()
                &&& final(g).op_of(v.node_idx()) == (Op::Binary {
                    k,
                    a: self.node_idx() as usize,
                    b: other.node_idx() as usize,
                })
                &&& final(g).shape_of(v.node_idx()) == old(g).shape_of(self.node_idx())
                &&& final(g).has_grad(v.node_idx())
                &&& final(g).count_of(v.node_idx()) == 0
                &&& diff_wf(*final(g), v)
                &&& diff_wf(*final(g), *self)
                &&& var_ok(*final(g), *other)
                &&& v.tape_entries().len() == self.tape_entries().len() + 1
                &&& v.tape_entries().take(self.tape_entries().len() as int)
                    == self.tape_entries()
                &&& v.tape() =~= self.tape().push(old(g).node_count() as usize)
            },
    {
        proof {
            lemma_shape_volume(*old(g), self.node_idx());
        }
        let l = g.nodes[self.node].data.len();
        assert(volume(old(g).shape_of(self.node_idx())) == l);
        let sa = g.shape_at(self.node);
        let sb = g.shape_at(other.node());
        if !shapes_equal(&sa, &sb) {
            return Err(ShapeError::Mismatch);
        }
        let idx = g.push_op_node(
            Op::Binary { k, a: self.node, b: other.node() },
            sa,
        );
        proof {
            lemma_diff_wf_extends(*old(g), *g, *self);
        }
        let base = self.past.duplicate();
        let r = compose_result(g, base, idx);
        proof {
            assert(r.tape() =~= self.tape().push(idx));
        }
        Ok(r)
    }

    /// Composes the matrix product against the second operand's
    /// transpose: the operands' trailing dimensions must agree and the
    /// result must fit the address space; on a rejection nothing is
    /// appended.
    pub fn mm_t<T: Scalar>(&self, other: &VarDiff, g: &mut Graph<T>) -> (r: Result<
        VarDiff,
        ShapeError,
    >)
        requires
            old(g).wf(),
            diff_wf(*old(g), *self),
            diff_wf(*old(g), *other),
            old(g).node_count() < usize::MAX,
        ensures
            r is Ok <==> {
                &&& old(g).shape_of(self.node_idx()).len() == 2
                &&& old(g).shape_of(other.node_idx()).len() == 2
                &&& old(g).shape_of(self.node_idx())[1] == old(g).shape_of(other.node_idx())[1]
                &&& old(g).shape_of(self.node_idx())[0] * old(g).shape_of(other.node_idx())[0]
                    <= usize::MAX
            },
            r is Err ==> *final(g) == *old(g),
            r matches Ok(v) ==> {
                &&& final(g).wf()
                &&& final(g).extends(*old(g))
                &&& unchanged_nodes(*old(g), *final(g))
                &&& final(g).node_count() == old(g).node_count() + 1
                &&& v.node_idx() == old(g).node_count()
                &&& final(g).op_of(v.node_idx()) == (Op::MmT {
                    a: self.node_idx() as usize,
                    b: other.node_idx() as usize,
                })
                &&& final(g).shape_of(v.node_idx()) =~= seq![
                    old(g).shape_of(self.node_idx())[0],
                    old(g).shape_of(other.node_idx())[0],
                ]
                &&& final(g).has_grad(v.node_idx())
                &&& final(g).count_of(v.node_idx()) == 0
                &&& diff_wf(*final(g), v)
                &&& diff_wf(*final(g), *self)
                &&& diff_wf(*final(g), *other)
            },
    {
        proof {
            lemma_shape_volume(*old(g), self.node_idx());
            lemma_shape_volume(*old(g), other.node_idx());
        }
        let sa = g.shape_at(self.node);
        let sb = g.shape_at(other.node);
        if sa.len() != 2 || sb.len() != 2 || sa[1] != sb[1] {
            return Err(ShapeError::Mismatch);
        }
        let m = sa[0];
        let n = sb[0];
        let mn = match m.checked_mul(n) {
            Some(v) => v,
            None => {
                return Err(ShapeError::TooLarge);
            },
        };
        let mut sh: Vec<usize> = Vec::new();
        sh.push(m);
        sh.push(n);
        proof {
            crate::tensor::lemma_volume2(sh@);
            assert(sh@ =~= seq![m, n]);
        }
        let idx = g.push_op_node(
            Op::MmT { a: self.node, b: other.node },
            sh,
        );
        proof {
            lemma_diff_wf_extends(*old(g), *g, *self);
            lemma_diff_wf_extends(*old(g), *g, *other);
        }
        let base = merged_base(self, other, g, idx);
        let v = compose_result(g, base, idx);
        Ok(v)
    }

    /// Composes the unsqueeze reshape: a copy of the operand under a
    /// shape with one more axis, of length one, at the given position.
    pub fn unsqueeze<T: Scalar>(&self, axis: usize, g: &mut Graph<T>) -> (r: Result<
        VarDiff,
        ShapeError,
    >)
        requires
            old(g).wf(),
            diff_wf(*old(g), *self),
            old(g).node_count() < usize::MAX,
        ensures
            r is Ok <==> axis <= old(g).shape_of(self.node_idx()).len(),
            r is Err ==> *final(g) == *old(g) && (r matches Err(e) ==> e == ShapeError::Mismatch),
            r matches Ok(v) ==> {
                &&& final(g).wf()
                &&& final(g).extends(*old(g))
                &&& unchanged_nodes(*old(g), *final(g))
                &&& final(g).node_count() == old(g).node_count() + 1
                &&& v.node_idx() == old(g).node_count()
                &&& final(g).op_of(v.node_idx()) == (Op::Unsqueeze {
                    a: self.node_idx() as usize,
                })
                &&& final(g).shape_of(v.node_idx()) == old(g).shape_of(self.node_idx()).insert(
                    axis as int,
                    1usize,
                )
                &&& final(g).has_grad(v.node_idx())
                &&& final(g).count_of(v.node_idx()) == 0
                &&& diff_wf(*final(g), v)
                &&& diff_wf(*final(g), *self)
                &&& v.tape() =~= self.tape().push(old(g).node_count() as usize)
            },
    {
        proof {
            lemma_shape_volume(*old(g), self.node_idx());
        }
        let l = g.nodes[self.node].data.len();
        assert(volume(old(g).shape_of(self.node_idx())) == l);
        let mut sh = g.shape_at(self.node);
        if axis > sh.len() {
            return Err(ShapeError::Mismatch);
        }
        sh.insert(axis, 1);
        proof {
            crate::tensor::lemma_volume_insert_one(
                old(g).shape_of(self.node_idx()),
                axis as int,
            );
            assert(dims_positive(sh@));
        }
        let idx = g.push_op_node(Op::Unsqueeze { a: self.node }, sh);
        proof {
            lemma_diff_wf_extends(*old(g), *g, *self);
        }
        let base = self.past.duplicate();
        let r = compose_result(g, base, idx);
        proof {
            assert(r.tape() =~= self.tape().push(idx));
        }
        Ok(r)
    }

    /// Composes the softmax: the numerically stabilized normalized
    /// exponential along the given axis, which must name an axis of the
    /// operand.
    pub fn softmax<T: Scalar>(&self, axis: usize, g: &mut Graph<T>) -> (r: Result<
        VarDiff,
        ShapeError,
    >)
        requires
            old(g).wf(),
            diff_wf(*old(g), *self),
            old(g).node_count() < usize::MAX,
        ensures
            r is Ok <==> (axis as int) < old(g).shape_of(self.node_idx()).len(),
            r is Err ==> *final(g) == *old(g) && (r matches Err(e) ==> e == ShapeError::Mismatch),
            r matches Ok(v) ==> {
                &&& final(g).wf()
                &&& final(g).extends(*old(g))
                &&& unchanged_nodes(*old(g), *final(g))
                &&& final(g).node_count() == old(g).node_count() + 1
                &&& v.node_idx() == old(g).node_count()
                &&& final(g).op_of(v.node_idx()) == (Op::Softmax {
                    a: self.node_idx() as usize,
                    axis,
                })
                &&& final(g).shape_of(v.node_idx()) == old(g).shape_of(self.node_idx())
                &&& final(g).has_grad(v.node_idx())
                &&& final(g).count_of(v.node_idx()) == 0
                &&& diff_wf(*final(g), v)
                &&& diff_wf(*final(g), *self)
                &&& v.tape() =~= self.tape().push(old(g).node_count() as usize)
            },
    {
        proof {
            lemma_shape_volume(*old(g), self.node_idx());
        }
        let l = g.nodes[self.node].data.len();
        assert(volume(old(g).shape_of(self.node_idx())) == l);
        let sh = g.shape_at(self.node);
        if axis >= sh.len() {
            return Err(ShapeError::Mismatch);
        }
        let idx = g.push_op_node(Op::Softmax { a: self.node, axis }, sh);
        proof {
            lemma_diff_wf_extends(*old(g), *g, *self);
        }
        let base = self.past.duplicate();
        let r = compose_result(g, base, idx);
        proof {
            assert(r.tape() =~= self.tape().push(idx));
        }
        Ok(r)
    }

    /// Composes the sum reduction: one scalar node.
    pub fn sum<T: Scalar>(&self, g: &mut Graph<T>) -> (r: VarDiff)
        requires
            old(g).wf(),
            diff_wf(*old(g), *self),
            old(g).node_count() < usize::MAX,
        ensures
            final(g).wf(),
            final(g).extends(*old(g)),
            unchanged_nodes(*old(g), *final(g)),
            final(g).node_count() == old(g).node_count() + 1,
            r.node_idx() == old(g).node_count(),
            final(g).op_of(r.node_idx()) == (Op::Sum { a: self.node_idx() as usize }),
            final(g).shape_of(r.node_idx()) === Seq::empty(),
            final(g).data_of(r.node_idx()) =~= Seq::new(1, |i: int| T::spec_zero()),
            final(g).has_grad(r.node_idx()),
            final(g).grad_of(r.node_idx()) =~= Seq::new(1, |i: int| T::spec_zero()),
            final(g).count_of(r.node_idx()) == 0,
            diff_wf(*final(g), r),
            diff_wf(*final(g), *self),
            r.tape() =~= self.tape().push(old(g).node_count() as usize),
    {
        let sh: Vec<usize> = Vec::new();
        let idx = g.push_op_node(Op::Sum { a: self.node }, sh);
        proof {
            lemma_diff_wf_extends(*old(g), *g, *self);
        }
        let base = self.past.duplicate();
        let r = compose_result(g, base, idx);
        proof {
            assert(r.tape() =~= self.tape().push(idx));
        }
        r
    }

    /// Composes the averaging reduction: one scalar node.
    pub fn mean<T: Scalar>(&self, g: &mut Graph<T>) -> (r: VarDiff)
        requires
            old(g).wf(),
            diff_wf(*old(g), *self),
            old(g).node_count() < usize::MAX,
        ensures
            final(g).wf(),
            final(g).extends(*old(g)),
            unchanged_nodes(*old(g), *final(g)),
            final(g).node_count() == old(g).node_count() + 1,
            r.node_idx() == old(g).node_count(),
            final(g).op_of(r.node_idx()) == (Op::Mean { a: self.node_idx() as usize }),
            final(g).shape_of(r.node_idx()) === Seq::empty(),
            final(g).data_of(r.node_idx()) =~= Seq::new(1, |i: int| T::spec_zero()),
            final(g).has_grad(r.node_idx()),
            final(g).grad_of(r.node_idx()) =~= Seq::new(1, |i: int| T::spec_zero()),
            final(g).count_of(r.node_idx()) == 0,
            diff_wf(*final(g), r),
            diff_wf(*final(g), *self),
            r.tape() =~= self.tape().push(old(g).node_count() as usize),
    {
        let sh: Vec<usize> = Vec::new();
        let idx = g.push_op_node(Op::Mean { a: self.node }, sh);
        proof {
            lemma_diff_wf_extends(*old(g), *g, *self);
        }
        let base = self.past.duplicate();
        let r = compose_result(g, base, idx);
        proof {
            assert(r.tape() =~= self.tape().push(idx));
        }
        r
    }

    /// Runs every recorded forward routine exactly once, in ascending
    /// tape order.  Each node's buffer is overwritten with the value its
    /// operation computes from its operands' buffers as they then stand;
    /// leaves are untouched, gradients are untouched, and every recorded
    /// node's run counter goes up by one, however many consumers it has.
    pub fn forward<T: Scalar>(&mut self, g: &mut Graph<T>)
        requires
            old(g).wf(),
            diff_wf(*old(g), *old(self)),
        ensures
            final(g).wf(),
            final(g).node_count() == old(g).node_count(),
            final(g).extends(*old(g)),
            final(self).node_idx() == old(self).node_idx(),
            final(self).tape_entries() == old(self).tape_entries(),
            diff_wf(*final(g), *final(self)),
            forall|i: int| 0 <= i < old(g).node_count() ==> #[trigger] final(g).grad_of(i) == old(
                g,
            ).grad_of(i),
            forall|i: int| 0 <= i < old(g).node_count() ==> #[trigger] final(g).data_of(i)
                == forward_states(
                *old(g),
                old(self).tape(),
                old(self).tape().len() as int,
            )[i],
            forall|i: int| 0 <= i < old(g).node_count() ==> #[trigger] final(g).count_of(i) == (
            if old(self).tape().contains(i as usize) {
                count_inc(old(g).count_of(i))
            } else {
                old(g).count_of(i)
            }),
    {
        if self.past.buffer_len() == 0 {
            self.past.fill_buffer();
        }
        let ghost tape = old(self).tape();
        proof {
            assert(self.past.buffer_view() =~= tape);
            assert forall|p: int, q: int| #![trigger tape[p], tape[q]] 0 <= p < q < tape.len()
                implies tape[p] != tape[q] by {
                let ids = old(self).past_history().ids();
                assert(ids[p].node_id() != ids[q].node_id());
            }
            assert forall|p: int| 0 <= p < tape.len() implies old(g).node_in(
                #[trigger] tape[p] as int,
            ) && old(g).op_of(tape[p] as int) != Op::Leaf by {
                assert(entry_ok(*old(g), old(self).node_idx(), old(self).tape_entries()[p]));
            }
        }
        let n_rec = self.past.buffer_len();
        let total = g.len();
        assert(old(g).node_count() <= usize::MAX);
        let ghost self_ready = *self;
        let mut k: usize = 0;
        while k < n_rec
            invariant
                k <= n_rec,
                n_rec == tape.len(),
                old(g).node_count() <= usize::MAX,
                *self == self_ready,
                self.past_history().buffer_view() == tape,
                g.wf(),
                g.node_count() == old(g).node_count(),
                forall|p: int, q: int| #![trigger tape[p], tape[q]] 0 <= p < q < tape.len()
                    ==> tape[p] != tape[q],
                forall|p: int| 0 <= p < tape.len() ==> old(g).node_in(#[trigger] tape[p] as int)
                    && old(g).op_of(tape[p] as int) != Op::Leaf,
                forall|i: int| 0 <= i < old(g).node_count() ==> #[trigger] g.op_of(i) == old(
                    g,
                ).op_of(i),
                forall|i: int| 0 <= i < old(g).node_count() ==> #[trigger] g.shape_of(i) == old(
                    g,
                ).shape_of(i),
                forall|i: int| 0 <= i < old(g).node_count() ==> #[trigger] g.has_grad(i) == old(
                    g,
                ).has_grad(i),
                forall|i: int| 0 <= i < old(g).node_count() ==> #[trigger] g.grad_of(i) == old(
                    g,
                ).grad_of(i),
                forall|i: int| 0 <= i < old(g).node_count() ==> #[trigger] g.data_of(i)
                    == forward_states(*old(g), tape, k as int)[i],
                forall|i: int| 0 <= i < old(g).node_count() ==> #[trigger] g.count_of(i) == (
                if tape.take(k as int).contains(i as usize) {
                    count_inc(old(g).count_of(i))
                } else {
                    old(g).count_of(i)
                }),
            decreases n_rec - k,
        {
            let c = self.past.buffer()[k];
            proof {
                assert(c == tape[k as int]);
            }
            let t = g.eval_node(c);
            proof {
                lemma_eval_state_agree(
                    *g,
                    data_state(*g),
                    *old(g),
                    forward_states(*old(g), tape, k as int),
                    c as int,
                );
            }
            let ghost pre = *g;
            let node = &mut g.nodes[c];
            node.data = t;
            node.fwd_count = if node.fwd_count < u64::MAX {
                node.fwd_count + 1
            } else {
                node.fwd_count
            };
            proof {
                assert(forall|w: int| 0 <= w < g.nodes@.len() && w != c as int ==> (
                #[trigger] g.nodes@[w]) == pre.nodes@[w]);
                assert(g.nodes@[c as int].op == pre.nodes@[c as int].op);
                assert(g.nodes@[c as int].grad == pre.nodes@[c as int].grad);
                assert(g.nodes@[c as int].data.shape_view() == pre.nodes@[c as int]
                    .data.shape_view());
                assert forall|q: int| 0 <= q < g.node_count() implies #[trigger] g.node_wf(q) by {
                    assert(pre.node_wf(q));
                    assert(forall|w: int| 0 <= w < g.nodes@.len() ==> (#[trigger] g.nodes@[w]).data
                        .shape_view() == pre.nodes@[w].data.shape_view());
                    if q != c as int {
                        assert(g.nodes@[q] == pre.nodes@[q]);
                    }
                }
                assert forall|i: int| 0 <= i < old(g).node_count() implies #[trigger] g.op_of(i)
                    == pre.op_of(i) by {
                    if i != c as int {
                        assert(g.nodes@[i] == pre.nodes@[i]);
                    }
                }
                assert forall|i: int| 0 <= i < old(g).node_count() implies #[trigger] g.shape_of(i)
                    == pre.shape_of(i) by {
                    if i != c as int {
                        assert(g.nodes@[i] == pre.nodes@[i]);
                    }
                }
                assert forall|i: int| 0 <= i < old(g).node_count() implies #[trigger] g.has_grad(i)
                    == pre.has_grad(i) by {
                    if i != c as int {
                        assert(g.nodes@[i] == pre.nodes@[i]);
                    }
                }
                assert forall|i: int| 0 <= i < old(g).node_count() implies #[trigger] g.grad_of(i)
                    == pre.grad_of(i) by {
                    if i != c as int {
                        assert(g.nodes@[i] == pre.nodes@[i]);
                    }
                }
                let st = forward_states(*old(g), tape, k as int);
                lemma_forward_states_len(*old(g), tape, k as int);
                lemma_forward_states_step(*old(g), tape, k as int + 1);
                assert(tape[k as int] == c);
                assert(forward_states(*old(g), tape, k as int + 1) == st.update(
                    c as int,
                    eval_op(*old(g), st, c as int),
                ));
                assert forall|i: int| 0 <= i < old(g).node_count() implies #[trigger] g.data_of(i)
                    == forward_states(*old(g), tape, k as int + 1)[i] by {
                    if i != c as int {
                        assert(g.nodes@[i] == pre.nodes@[i]);
                        assert(pre.data_of(i) == st[i]);
                    } else {
                        assert(g.nodes@[c as int].data == t);
                        assert(g.data_of(i) == t.data_view());
                        assert(forward_states(*old(g), tape, k as int + 1)[i] == eval_op(
                            *old(g),
                            st,
                            c as int,
                        ));
                    }
                }
                assert(tape.take(k as int + 1) =~= tape.take(k as int).push(tape[k as int]));
                assert forall|i: int| 0 <= i < old(g).node_count() implies #[trigger] g.count_of(i)
                    == (if tape.take(k as int + 1).contains(i as usize) {
                    count_inc(old(g).count_of(i))
                } else {
                    old(g).count_of(i)
                }) by {
                    let tk = tape.take(k as int);
                    let tk1 = tape.take(k as int + 1);
                    if i == c as int {
                        if tk.contains(i as usize) {
                            let w = choose|w: int| 0 <= w < tk.len() && #[trigger] tk[w] == i as usize;
                            assert(tape[w] == tape[k as int]);
                            assert(false);
                        }
                        assert(pre.count_of(i) == old(g).count_of(i));
                        assert(g.count_of(i) == count_inc(pre.count_of(i)));
                        assert(tk1[k as int] == i as usize);
                        assert(tk1.contains(i as usize));
                    } else {
                        assert(g.nodes@[i] == pre.nodes@[i]);
                        assert forall|w: int| 0 <= w < tk1.len() && #[trigger] tk1[w] == i as usize
                            implies tk.contains(i as usize) by {
                            assert(tk1[w] == tape[w]);
                            assert(tape[k as int] == c);
                            if w == k as int {
                                assert(i as usize == c);
                                assert(false);
                            }
                            assert(w < k as int);
                            assert(tk[w] == tape[w]);
                        }
                        assert(g.count_of(i) == pre.count_of(i));
                        if tk.contains(i as usize) {
                            let w = choose|w: int| 0 <= w < tk.len() && #[trigger] tk[w] == i as usize;
                            assert(tk1[w] == i as usize);
                        }
                    }
                }
            }
            k = k + 1;
        }
        proof {
            assert(tape.take(tape.len() as int) =~= tape);
            assert forall|i: int| 0 <= i < old(g).node_count() implies #[trigger] g.count_of(i) == (
            if tape.contains(i as usize) {
                count_inc(old(g).count_of(i))
            } else {
                old(g).count_of(i)
            }) by {
                assert(g.count_of(i) == (if tape.take(tape.len() as int).contains(i as usize) {
                    count_inc(old(g).count_of(i))
                } else {
                    old(g).count_of(i)
                }));
            }
            lemma_diff_wf_extends(*old(g), *g, self_ready);
        }
    }

    /// Accumulates `seed` into this node's gradient accumulator, then
    /// runs every recorded backward routine exactly once, in descending
    /// tape order.  Each routine adds its node's accumulated gradient,
    /// mapped through the operation's local derivative, into each
    /// operand's accumulator — never replacing what is there.  Descending
    /// order means every consumer of a node has already deposited into it
    /// by the time the node's own routine runs.
    pub fn backward<T: Scalar>(&mut self, g: &mut Graph<T>, seed: T)
        requires
            old(g).wf(),
            diff_wf(*old(g), *old(self)),
        ensures
            final(g).wf(),
            final(g).node_count() == old(g).node_count(),
            final(g).extends(*old(g)),
            final(self).node_idx() == old(self).node_idx(),
            final(self).tape_entries() == old(self).tape_entries(),
            diff_wf(*final(g), *final(self)),
            forall|i: int| 0 <= i < old(g).node_count() ==> #[trigger] final(g).data_of(i) == old(
                g,
            ).data_of(i),
            forall|i: int| 0 <= i < old(g).node_count() ==> #[trigger] final(g).count_of(i) == old(
                g,
            ).count_of(i),
            forall|i: int| 0 <= i < old(g).node_count() ==> #[trigger] final(g).grad_of(i)
                == backward_states(
                *old(g),
                old(self).tape(),
                old(self).node_idx(),
                seed,
                old(self).tape().len() as int,
            )[i],
    {
        if self.past.buffer_len() == 0 {
            self.past.fill_buffer();
        }
        let ghost tape = old(self).tape();
        let ghost root = old(self).node_idx();
        proof {
            assert(self.past.buffer_view() =~= tape);
            assert forall|p: int| 0 <= p < tape.len() implies old(g).node_in(
                #[trigger] tape[p] as int,
            ) && old(g).op_of(tape[p] as int) != Op::Leaf by {
                assert(entry_ok(*old(g), old(self).node_idx(), old(self).tape_entries()[p]));
            }
        }
        let total = g.len();
        assert(old(g).node_count() <= usize::MAX);
        g.seed_root(self.node, seed);
        let n_rec = self.past.buffer_len();
        let ghost self_ready = *self;
        let mut k: usize = 0;
        while k < n_rec
            invariant
                k <= n_rec,
                n_rec == tape.len(),
                old(g).node_count() <= usize::MAX,
                *self == self_ready,
                self.past_history().buffer_view() == tape,
                self.node_idx() == root,
                0 <= root < old(g).node_count(),
                old(g).wf(),
                g.wf(),
                g.node_count() == old(g).node_count(),
                forall|p: int| 0 <= p < tape.len() ==> old(g).node_in(#[trigger] tape[p] as int)
                    && old(g).op_of(tape[p] as int) != Op::Leaf,
                forall|i: int| 0 <= i < old(g).node_count() ==> #[trigger] g.op_of(i) == old(
                    g,
                ).op_of(i),
                forall|i: int| 0 <= i < old(g).node_count() ==> #[trigger] g.shape_of(i) == old(
                    g,
                ).shape_of(i),
                forall|i: int| 0 <= i < old(g).node_count() ==> #[trigger] g.has_grad(i) == old(
                    g,
                ).has_grad(i),
                forall|i: int| 0 <= i < old(g).node_count() ==> #[trigger] g.data_of(i) == old(
                    g,
                ).data_of(i),
                forall|i: int| 0 <= i < old(g).node_count() ==> #[trigger] g.count_of(i) == old(
                    g,
                ).count_of(i),
                forall|i: int| 0 <= i < old(g).node_count() ==> #[trigger] g.grad_of(i)
                    == backward_states(*old(g), tape, root, seed, k as int)[i],
            decreases n_rec - k,
        {
            let c = self.past.buffer()[n_rec - 1 - k];
            proof {
                assert(c == tape[tape.len() - (k as int + 1)]);
                assert(g.op_of(c as int) != Op::Leaf);
                assert(g.node_wf(c as int));
                assert(g.has_grad(c as int));
                lemma_backward_states_len(*old(g), tape, root, seed, k as int);
                lemma_backward_states_step(*old(g), tape, root, seed, k as int + 1);
            }
            let ghost st = backward_states(*old(g), tape, root, seed, k as int);
            let gv = match &g.nodes[c].grad {
                Some(t) => t.duplicate(),
                None => vstd::pervasive::unreached(),
            };
            proof {
                assert(gv.data_view() == g.grad_of(c as int));
                assert(g.grad_of(c as int) == st[c as int]);
                assert(gv.shape_view() == g.shape_of(c as int));
            }
            let node_op = g.nodes[c].op;
            match node_op {
                Op::Leaf => vstd::pervasive::unreached(),
                Op::Unary { k: mk, a } => {
                    proof {
                        lemma_operands_below(*g, c as int, 0);
                        lemma_delta_agree(*g, *old(g), c as int, 0, gv.data_view());
                    }
                    let d = g.compute_delta(c, 0, &gv);
                    let ghost gpre = *g;
                    g.deposit_into(a, d);
                    proof {
                        assert(op_operands(old(g).op_of(c as int)) =~= seq![a]);
                        assert(d.data_view() == delta_op(*old(g), c as int, 0, st[c as int]));
                        lemma_deposit_matches(
                            *old(g),
                            gpre,
                            *g,
                            st,
                            a as int,
                            d.data_view(),
                        );
                        assert(backward_states(*old(g), tape, root, seed, k as int + 1)
                            == deposit(
                            *old(g),
                            st,
                            a as int,
                            delta_op(*old(g), c as int, 0, st[c as int]),
                        ));
                    }
                },
                Op::Binary { k: bk, a, b } => {
                    proof {
                        lemma_operands_below(*g, c as int, 0);
                        lemma_operands_below(*g, c as int, 1);
                        lemma_delta_agree(*g, *old(g), c as int, 0, gv.data_view());
                    }
                    let da = g.compute_delta(c, 0, &gv);
                    let ghost gpre_a = *g;
                    g.deposit_into(a, da);
                    let ghost st1 = deposit(
                        *old(g),
                        st,
                        a as int,
                        delta_op(*old(g), c as int, 0, st[c as int]),
                    );
                    proof {
                        assert forall|i: int| 0 <= i < old(g).node_count() implies #[trigger] g
                            .grad_of(i) == st1[i] by {
                            if g.has_grad(a as int) {
                                if i == a as int {
                                    assert(gpre_a.grad_of(i) == st[i]);
                                } else {
                                    assert(g.grad_of(i) == gpre_a.grad_of(i));
                                }
                            }
                        }
                        lemma_delta_agree(*g, *old(g), c as int, 1, gv.data_view());
                    }
                    let db = g.compute_delta(c, 1, &gv);
                    let ghost gpre_b = *g;
                    g.deposit_into(b, db);
                    proof {
                        assert(op_operands(old(g).op_of(c as int)) =~= seq![a, b]);
                        assert(da.data_view() == delta_op(*old(g), c as int, 0, st[c as int]));
                        assert(db.data_view() == delta_op(*old(g), c as int, 1, st[c as int]));
                        assert(st1.len() == old(g).node_count());
                        lemma_deposit_matches(
                            *old(g),
                            gpre_b,
                            *g,
                            st1,
                            b as int,
                            db.data_view(),
                        );
                        assert(backward_states(*old(g), tape, root, seed, k as int + 1)
                            == deposit(*old(g), st1, b as int, delta_op(*old(g), c as int, 1, st[
                            c as int])));
                    }
                },
                Op::MmT { a, b } => {
                    proof {
                        lemma_operands_below(*g, c as int, 0);
                        lemma_operands_below(*g, c as int, 1);
                        lemma_delta_agree(*g, *old(g), c as int, 0, gv.data_view());
                    }
                    let da = g.compute_delta(c, 0, &gv);
                    let ghost gpre_a = *g;
                    g.deposit_into(a, da);
                    let ghost st1 = deposit(
                        *old(g),
                        st,
                        a as int,
                        delta_op(*old(g), c as int, 0, st[c as int]),
                    );
                    proof {
                        assert forall|i: int| 0 <= i < old(g).node_count() implies #[trigger] g
                            .grad_of(i) == st1[i] by {
                            if g.has_grad(a as int) {
                                if i == a as int {
                                    assert(gpre_a.grad_of(i) == st[i]);
                                } else {
                                    assert(g.grad_of(i) == gpre_a.grad_of(i));
                                }
                            }
                        }
                        lemma_delta_agree(*g, *old(g), c as int, 1, gv.data_view());
                    }
                    let db = g.compute_delta(c, 1, &gv);
                    let ghost gpre_b = *g;
                    g.deposit_into(b, db);
                    proof {
                        assert(op_operands(old(g).op_of(c as int)) =~= seq![a, b]);
                        assert(da.data_view() == delta_op(*old(g), c as int, 0, st[c as int]));
                        assert(db.data_view() == delta_op(*old(g), c as int, 1, st[c as int]));
                        assert(st1.len() == old(g).node_count());
                        lemma_deposit_matches(
                            *old(g),
                            gpre_b,
                            *g,
                            st1,
                            b as int,
                            db.data_view(),
                        );
                        assert(backward_states(*old(g), tape, root, seed, k as int + 1)
                            == deposit(*old(g), st1, b as int, delta_op(*old(g), c as int, 1, st[
                            c as int])));
                    }
                },
                Op::Mm { a, b } => {
                    proof {
                        lemma_operands_below(*g, c as int, 0);
                        lemma_operands_below(*g, c as int, 1);
                        lemma_delta_agree(*g, *old(g), c as int, 0, gv.data_view());
                    }
                    let da = g.compute_delta(c, 0, &gv);
                    let ghost gpre_a = *g;
                    g.deposit_into(a, da);
                    let ghost st1 = deposit(
                        *old(g),
                        st,
                        a as int,
                        delta_op(*old(g), c as int, 0, st[c as int]),
                    );
                    proof {
                        assert forall|i: int| 0 <= i < old(g).node_count() implies #[trigger] g
                            .grad_of(i) == st1[i] by {
                            if g.has_grad(a as int) {
                                if i == a as int {
                                    assert(gpre_a.grad_of(i) == st[i]);
                                } else {
                                    assert(g.grad_of(i) == gpre_a.grad_of(i));
                                }
                            }
                        }
                        lemma_delta_agree(*g, *old(g), c as int, 1, gv.data_view());
                    }
                    let db = g.compute_delta(c, 1, &gv);
                    let ghost gpre_b = *g;
                    g.deposit_into(b, db);
                    proof {
                        assert(op_operands(old(g).op_of(c as int)) =~= seq![a, b]);
                        assert(da.data_view() == delta_op(*old(g), c as int, 0, st[c as int]));
                        assert(db.data_view() == delta_op(*old(g), c as int, 1, st[c as int]));
                        assert(st1.len() == old(g).node_count());
                        lemma_deposit_matches(
                            *old(g),
                            gpre_b,
                            *g,
                            st1,
                            b as int,
                            db.data_view(),
                        );
                        assert(backward_states(*old(g), tape, root, seed, k as int + 1)
                            == deposit(*old(g), st1, b as int, delta_op(*old(g), c as int, 1, st[
                            c as int])));
                    }
                },
                Op::Unsqueeze { a } => {
                    proof {
                        lemma_operands_below(*g, c as int, 0);
                        lemma_delta_agree(*g, *old(g), c as int, 0, gv.data_view());
                    }
                    let d = g.compute_delta(c, 0, &gv);
                    let ghost gpre = *g;
                    g.deposit_into(a, d);
                    proof {
                        assert(op_operands(old(g).op_of(c as int)) =~= seq![a]);
                        assert(d.data_view() == delta_op(*old(g), c as int, 0, st[c as int]));
                        lemma_deposit_matches(
                            *old(g),
                            gpre,
                            *g,
                            st,
                            a as int,
                            d.data_view(),
                        );
                        assert(backward_states(*old(g), tape, root, seed, k as int + 1)
                            == deposit(
                            *old(g),
                            st,
                            a as int,
                            delta_op(*old(g), c as int, 0, st[c as int]),
                        ));
                    }
                },
                Op::Softmax { a, axis } => {
                    proof {
                        lemma_operands_below(*g, c as int, 0);
                        lemma_delta_agree(*g, *old(g), c as int, 0, gv.data_view());
                    }
                    let d = g.compute_delta(c, 0, &gv);
                    let ghost gpre = *g;
                    g.deposit_into(a, d);
                    proof {
                        assert(op_operands(old(g).op_of(c as int)) =~= seq![a]);
                        assert(d.data_view() == delta_op(*old(g), c as int, 0, st[c as int]));
                        lemma_deposit_matches(
                            *old(g),
                            gpre,
                            *g,
                            st,
                            a as int,
                            d.data_view(),
                        );
                        assert(backward_states(*old(g), tape, root, seed, k as int + 1)
                            == deposit(
                            *old(g),
                            st,
                            a as int,
                            delta_op(*old(g), c as int, 0, st[c as int]),
                        ));
                    }
                },
                Op::Sum { a } => {
                    proof {
                        lemma_operands_below(*g, c as int, 0);
                        lemma_delta_agree(*g, *old(g), c as int, 0, gv.data_view());
                    }
                    let d = g.compute_delta(c, 0, &gv);
                    let ghost gpre = *g;
                    g.deposit_into(a, d);
                    proof {
                        assert(op_operands(old(g).op_of(c as int)) =~= seq![a]);
                        assert(d.data_view() == delta_op(*old(g), c as int, 0, st[c as int]));
                        lemma_deposit_matches(
                            *old(g),
                            gpre,
                            *g,
                            st,
                            a as int,
                            d.data_view(),
                        );
                        assert(backward_states(*old(g), tape, root, seed, k as int + 1)
                            == deposit(
                            *old(g),
                            st,
                            a as int,
                            delta_op(*old(g), c as int, 0, st[c as int]),
                        ));
                    }
                },
                Op::Mean { a } => {
                    proof {
                        lemma_operands_below(*g, c as int, 0);
                        lemma_delta_agree(*g, *old(g), c as int, 0, gv.data_view());
                    }
                    let d = g.compute_delta(c, 0, &gv);
                    let ghost gpre = *g;
                    g.deposit_into(a, d);
                    proof {
                        assert(op_operands(old(g).op_of(c as int)) =~= seq![a]);
                        assert(d.data_view() == delta_op(*old(g), c as int, 0, st[c as int]));
                        lemma_deposit_matches(
                            *old(g),
                            gpre,
                            *g,
                            st,
                            a as int,
                            d.data_view(),
                        );
                        assert(backward_states(*old(g), tape, root, seed, k as int + 1)
                            == deposit(
                            *old(g),
                            st,
                            a as int,
                            delta_op(*old(g), c as int, 0, st[c as int]),
                        ));
                    }
                },
            }
            proof {
                assert(forall|i: int| 0 <= i < old(g).node_count() ==> #[trigger] g.grad_of(i)
                    == backward_states(*old(g), tape, root, seed, k as int + 1)[i]);
            }
            k = k + 1;
        }
        proof {
            lemma_diff_wf_extends(*old(g), *g, self_ready);
        }
    }

    /// Read access to the node's output buffer.
    pub fn data<'a, T>(&self, g: &'a Graph<T>) -> (r: &'a Tensor<T>)
        requires
            g.node_in(self.node_idx()),
        ensures
            r.data_view() == g.data_of(self.node_idx()),
            r.shape_view() == g.shape_of(self.node_idx()),
    {
        &g.nodes[self.node].data
    }

    /// Read access to the gradient accumulator.
    pub fn grad<'a, T>(&self, g: &'a Graph<T>) -> (r: &'a Tensor<T>)
        requires
            g.wf(),
            g.node_in(self.node_idx()),
            g.has_grad(self.node_idx()),
        ensures
            r.data_view() == g.grad_of(self.node_idx()),
            r.shape_view() == g.shape_of(self.node_idx()),
    {
        proof {
            assert(g.node_wf(self.node_idx()));
        }
        match &g.nodes[self.node].grad {
            Some(t) => t,
            None => vstd::pervasive::unreached(),
        }
    }

    /// Replaces a differentiable leaf's buffer contents, keeping the
    /// shape.  This is how an optimizer applies an update.
    pub fn set_data<T: Scalar>(&self, g: &mut Graph<T>, t: Tensor<T>)
        requires
            old(g).wf(),
            old(g).node_in(self.node_idx()),
            old(g).op_of(self.node_idx()) == Op::Leaf,
            t.wf(),
            t.shape_view() == old(g).shape_of(self.node_idx()),
        ensures
            final(g).wf(),
            final(g).node_count() == old(g).node_count(),
            final(g).extends(*old(g)),
            forall|i: int| 0 <= i < old(g).node_count() && i != self.node_idx() ==> #[trigger]
                final(g).data_of(i) == old(g).data_of(i),
            forall|i: int| 0 <= i < old(g).node_count() ==> #[trigger] final(g).grad_of(i)
                == old(g).grad_of(i),
            forall|i: int| 0 <= i < old(g).node_count() ==> #[trigger] final(g).count_of(i) == old(
                g).count_of(i),
            final(g).data_of(self.node_idx()) == t.data_view(),
    {
        set_node_data(g, self.node, t);
    }
}

} // verus!
