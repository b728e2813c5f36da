//! The properties the engine is built around, stated and proved once and
//! for all: a tape drives each forward routine exactly once in a valid
//! order, a second forward pass over unchanged leaves reproduces every
//! buffer bit for bit, backward order completes every accumulator before
//! it is read, and the seed accumulates rather than overwriting.

use vstd::prelude::*;

use crate::graph::{
    back_step, backward_states, data_state, diff_wf, eval_op, forward_states,
    lemma_backward_states_len, lemma_forward_states_len, lemma_operands_below, op_operands,
    seeded_state, Graph, Op, VarDiff,
};
use crate::scalar::Scalar;

verus! {

/// A valid tape for a graph: every record names a non-leaf node, records
/// come in strictly ascending arena order (hence each node at most once),
/// every non-leaf operand of a recorded node is recorded earlier, and no
/// record lies above the root.
pub open spec fn tape_ok<T>(g: Graph<T>, tape: Seq<usize>, root: int) -> bool {
    &&& forall|p: int| 0 <= p < tape.len() ==> g.node_in(#[trigger] tape[p] as int) && g.op_of(
        tape[p] as int,
    ) != Op::Leaf && (tape[p] as int) <= root
    &&& forall|p: int, q: int| #![trigger tape[p], tape[q]] 0 <= p < q < tape.len()
        ==> tape[p] < tape[q]
    &&& forall|p: int, s: int|
        #![trigger op_operands(g.op_of(tape[p] as int))[s]]
        0 <= p < tape.len() && 0 <= s < op_operands(g.op_of(tape[p] as int)).len() ==> {
            let m = op_operands(g.op_of(tape[p] as int))[s];
            g.op_of(m as int) == Op::Leaf || (exists|q: int|
                0 <= q < p && #[trigger] tape[q] == m)
        }
}

/// The tape a well-formed differentiable variable carries is valid.
pub proof fn lemma_diff_tape_ok<T>(g: Graph<T>, v: VarDiff)
    requires
        g.wf(),
        diff_wf(g, v),
    ensures
        tape_ok(g, v.tape(), v.node_idx()),
{
    let tape = v.tape();
    let h = v.past_history();
    assert forall|p: int| 0 <= p < tape.len() implies g.node_in(#[trigger] tape[p] as int)
        && g.op_of(tape[p] as int) != Op::Leaf && (tape[p] as int) <= v.node_idx() by {
        assert(crate::graph::entry_ok(g, v.node_idx(), v.tape_entries()[p]));
        assert(tape[p] == v.tape_entries()[p].1);
    }
    assert forall|p: int, q: int| #![trigger tape[p], tape[q]] 0 <= p < q < tape.len()
        implies tape[p] < tape[q] by {
        let ids = h.ids();
        assert(crate::graph::entry_ok(g, v.node_idx(), v.tape_entries()[p]));
        assert(crate::graph::entry_ok(g, v.node_idx(), v.tape_entries()[q]));
        assert(ids[p] == v.tape_entries()[p].0);
        assert(ids[q] == v.tape_entries()[q].0);
        assert(ids[p].lt(ids[q]));
        assert(ids[p].seq_no() == tape[p]);
        assert(ids[q].seq_no() == tape[q]);
        assert(ids[p].node_id() == tape[p]);
        assert(ids[q].node_id() == tape[q]);
    }
    assert forall|p: int, s: int|
        #![trigger op_operands(g.op_of(tape[p] as int))[s]]
        0 <= p < tape.len() && 0 <= s < op_operands(g.op_of(tape[p] as int)).len() implies {
        let m = op_operands(g.op_of(tape[p] as int))[s];
        g.op_of(m as int) == Op::Leaf || (exists|q: int| 0 <= q < p && #[trigger] tape[q] == m)
    } by {
        assert(tape[p] == v.tape_entries()[p].1);
        let m = op_operands(g.op_of(v.tape_entries()[p].1 as int))[s];
        if g.op_of(m as int) != Op::Leaf {
            assert(h.contains_node(m));
            let q = choose|q: int|
                0 <= q < h.entries().len() && (#[trigger] h.entries()[q]).0.node_id() == m;
            assert(tape[q] == m);
            lemma_operands_below(g, tape[p] as int, s);
            if q >= p {
                if q > p {
                    assert(tape[p] < tape[q]);
                }
                assert(false);
            }
        }
    }
}

/// A shared sub-expression is recorded once: a valid tape names each
/// node at most once, so one forward pass runs each routine exactly once
/// however many consumers the node has.
pub proof fn lemma_tape_each_node_once<T>(g: Graph<T>, tape: Seq<usize>, root: int, p: int, q: int)
    requires
        tape_ok(g, tape, root),
        0 <= p < q < tape.len(),
    ensures
        tape[p] != tape[q],
{
    assert(tape[p] < tape[q]);
}

/// Nodes that no record between two points names keep their buffer.
proof fn lemma_forward_stable<T: Scalar>(
    g: Graph<T>,
    tape: Seq<usize>,
    m: int,
    n1: int,
    n2: int,
)
    requires
        0 <= n1 <= n2 <= tape.len(),
        0 <= m < g.node_count(),
        forall|p: int| 0 <= p < tape.len() ==> (#[trigger] tape[p] as int) < g.node_count(),
        forall|j: int| n1 <= j < n2 ==> (#[trigger] tape[j] as int) != m,
    ensures
        forward_states(g, tape, n2)[m] == forward_states(g, tape, n1)[m],
    decreases n2 - n1,
{
    if n2 > n1 {
        lemma_forward_stable(g, tape, m, n1, n2 - 1);
        lemma_forward_states_len(g, tape, n2 - 1);
        assert(tape[n2 - 1] as int != m);
    }
}

/// After a full forward pass, every recorded node's buffer equals what
/// its operation computes from the final buffers: the pass reaches a
/// fixed point in one sweep because operands settle before consumers.
pub proof fn lemma_forward_fixpoint<T: Scalar>(g: Graph<T>, tape: Seq<usize>, root: int, p: int)
    requires
        g.wf(),
        tape_ok(g, tape, root),
        0 <= p < tape.len(),
    ensures
        forward_states(g, tape, tape.len() as int)[tape[p] as int] == eval_op(
            g,
            forward_states(g, tape, tape.len() as int),
            tape[p] as int,
        ),
{
    let len = tape.len() as int;
    let c = tape[p] as int;
    let fin = forward_states(g, tape, len);
    assert(forall|q: int| 0 <= q < tape.len() ==> (#[trigger] tape[q] as int) < g.node_count());
    // the node's value was written at step p + 1 and never touched again
    assert forall|j: int| p + 1 <= j < len implies (#[trigger] tape[j] as int) != c by {
        assert(tape[p] < tape[j]);
    }
    lemma_forward_stable(g, tape, c, p + 1, len);
    assert(fin[c] == forward_states(g, tape, p + 1)[c]);
    let st = forward_states(g, tape, p);
    assert(forward_states(g, tape, p + 1) == st.update(c, eval_op(g, st, c)));
    lemma_forward_states_len(g, tape, p);
    assert(forward_states(g, tape, p + 1)[c] == eval_op(g, st, c));
    // each operand's value had already settled by step p
    assert forall|s: int| 0 <= s < op_operands(g.op_of(c)).len() implies st[(
    #[trigger] op_operands(g.op_of(c))[s]) as int] == fin[op_operands(g.op_of(c))[s] as int] by {
        let m = op_operands(g.op_of(c))[s];
        lemma_operands_below(g, c, s);
        if g.op_of(m as int) == Op::Leaf {
            assert forall|j: int| 0 <= j < len implies (#[trigger] tape[j] as int) != m as int by {
                assert(g.op_of(tape[j] as int) != Op::Leaf);
            }
            lemma_forward_stable(g, tape, m as int, 0, p);
            lemma_forward_stable(g, tape, m as int, 0, len);
        } else {
            let q = choose|q: int| 0 <= q < p && #[trigger] tape[q] == m;
            assert forall|j: int| q + 1 <= j < len implies (#[trigger] tape[j] as int)
                != m as int by {
                if j != q {
                    if j < q {
                        assert(tape[j] < tape[q]);
                    } else {
                        assert(tape[q] < tape[j]);
                    }
                }
            }
            lemma_forward_stable(g, tape, m as int, q + 1, p);
            lemma_forward_stable(g, tape, m as int, q + 1, len);
        }
    }
    lemma_eval_operands_agree(g, st, fin, c);
}

/// Two snapshots that agree on a node's operands make its operation
/// compute the same value.
proof fn lemma_eval_operands_agree<T: Scalar>(
    g: Graph<T>,
    st1: Seq<Seq<T>>,
    st2: Seq<Seq<T>>,
    c: int,
)
    requires
        g.op_of(c) != Op::Leaf,
        forall|s: int| 0 <= s < op_operands(g.op_of(c)).len() ==> st1[(
        #[trigger] op_operands(g.op_of(c))[s]) as int] == st2[op_operands(g.op_of(c))[s] as int],
    ensures
        eval_op(g, st1, c) == eval_op(g, st2, c),
{
    match g.op_of(c) {
        Op::Leaf => {
        },
        Op::Unary { k, a } => {
            assert(op_operands(g.op_of(c))[0] == a);
            assert(st1[a as int] == st2[a as int]);
        },
        Op::Binary { k, a, b } => {
            assert(op_operands(g.op_of(c))[0] == a);
            assert(op_operands(g.op_of(c))[1] == b);
            assert(st1[a as int] == st2[a as int]);
            assert(st1[b as int] == st2[b as int]);
        },
        Op::Mm { a, b } => {
            assert(op_operands(g.op_of(c))[0] == a);
            assert(op_operands(g.op_of(c))[1] == b);
            assert(st1[a as int] == st2[a as int]);
            assert(st1[b as int] == st2[b as int]);
        },
        Op::MmT { a, b } => {
            assert(op_operands(g.op_of(c))[0] == a);
            assert(op_operands(g.op_of(c))[1] == b);
            assert(st1[a as int] == st2[a as int]);
            assert(st1[b as int] == st2[b as int]);
        },
        Op::Unsqueeze { a } => {
            assert(op_operands(g.op_of(c))[0] == a);
            assert(st1[a as int] == st2[a as int]);
        },
        Op::Softmax { a, axis } => {
            assert(op_operands(g.op_of(c))[0] == a);
            assert(st1[a as int] == st2[a as int]);
        },
        Op::Sum { a } => {
            assert(op_operands(g.op_of(c))[0] == a);
            assert(st1[a as int] == st2[a as int]);
        },
        Op::Mean { a } => {
            assert(op_operands(g.op_of(c))[0] == a);
            assert(st1[a as int] == st2[a as int]);
        },
    }
}

/// Forward idempotence: running the pass again over the buffers a full
/// pass produced changes nothing — provided no leaf was mutated in
/// between, which is exactly the situation of a repeated `forward()`.
/// `g1` is the graph as the first pass left it.
pub proof fn lemma_forward_idempotent<T: Scalar>(
    g0: Graph<T>,
    g1: Graph<T>,
    tape: Seq<usize>,
    root: int,
)
    requires
        g0.wf(),
        g1.wf(),
        tape_ok(g0, tape, root),
        g1.node_count() == g0.node_count(),
        forall|i: int| 0 <= i < g0.node_count() ==> #[trigger] g1.op_of(i) == g0.op_of(i),
        forall|i: int| 0 <= i < g0.node_count() ==> #[trigger] g1.shape_of(i) == g0.shape_of(i),
        forall|i: int| 0 <= i < g0.node_count() ==> #[trigger] g1.data_of(i) == forward_states(
            g0,
            tape,
            tape.len() as int,
        )[i],
    ensures
        forall|i: int| 0 <= i < g0.node_count() ==> #[trigger] forward_states(
            g1,
            tape,
            tape.len() as int,
        )[i] == g1.data_of(i),
{
    let len = tape.len() as int;
    lemma_second_pass_stationary(g0, g1, tape, root, len);
}

/// Each prefix of a second pass leaves every buffer where the first pass
/// put it.
proof fn lemma_second_pass_stationary<T: Scalar>(
    g0: Graph<T>,
    g1: Graph<T>,
    tape: Seq<usize>,
    root: int,
    n: int,
)
    requires
        g0.wf(),
        g1.wf(),
        tape_ok(g0, tape, root),
        0 <= n <= tape.len(),
        g1.node_count() == g0.node_count(),
        forall|i: int| 0 <= i < g0.node_count() ==> #[trigger] g1.op_of(i) == g0.op_of(i),
        forall|i: int| 0 <= i < g0.node_count() ==> #[trigger] g1.shape_of(i) == g0.shape_of(i),
        forall|i: int| 0 <= i < g0.node_count() ==> #[trigger] g1.data_of(i) == forward_states(
            g0,
            tape,
            tape.len() as int,
        )[i],
    ensures
        forall|i: int| 0 <= i < g0.node_count() ==> #[trigger] forward_states(g1, tape, n)[i]
            == g1.data_of(i),
    decreases n,
{
    let len = tape.len() as int;
    let fin0 = forward_states(g0, tape, len);
    lemma_forward_states_len(g0, tape, len);
    if n == 0 {
        assert forall|i: int| 0 <= i < g0.node_count() implies #[trigger] forward_states(
            g1,
            tape,
            0,
        )[i] == g1.data_of(i) by {
            assert(forward_states(g1, tape, 0) == data_state(g1));
        }
    } else {
        lemma_second_pass_stationary(g0, g1, tape, root, n - 1);
        let st = forward_states(g1, tape, n - 1);
        let c = tape[n - 1] as int;
        assert(forward_states(g1, tape, n) == st.update(c, eval_op(g1, st, c)));
        lemma_forward_states_len(g1, tape, n - 1);
        // the step writes back exactly the settled value
        assert forall|s: int| 0 <= s < op_operands(g1.op_of(c)).len() implies st[(
        #[trigger] op_operands(g1.op_of(c))[s]) as int] == data_state(g1)[op_operands(
            g1.op_of(c),
        )[s] as int] by {
            lemma_operands_below(g0, c, s);
            let m = op_operands(g1.op_of(c))[s];
            assert(st[m as int] == g1.data_of(m as int));
        }
        lemma_eval_operands_agree(g1, st, data_state(g1), c);
        assert forall|s: int| 0 <= s < op_operands(g0.op_of(c)).len() implies g0.shape_of((
        #[trigger] op_operands(g0.op_of(c))[s]) as int) == g1.shape_of(op_operands(g0.op_of(c))[
            s] as int) by {
            lemma_operands_below(g0, c, s);
        }
        lemma_eval_same_ops(g0, g1, data_state(g1), c);
        lemma_forward_fixpoint(g0, tape, root, n - 1);
        // fin0 agrees with g1's buffers everywhere in range
        assert forall|s: int| 0 <= s < op_operands(g0.op_of(c)).len() implies data_state(g1)[(
        #[trigger] op_operands(g0.op_of(c))[s]) as int] == fin0[op_operands(g0.op_of(c))[
            s] as int] by {
            lemma_operands_below(g0, c, s);
        }
        lemma_eval_operands_agree(g0, data_state(g1), fin0, c);
        assert(eval_op(g1, st, c) == eval_op(g0, fin0, c));
        assert(eval_op(g0, fin0, c) == fin0[c]);
        assert(fin0[c] == g1.data_of(c));
        assert forall|i: int| 0 <= i < g0.node_count() implies #[trigger] forward_states(
            g1,
            tape,
            n,
        )[i] == g1.data_of(i) by {
            if i != c {
                assert(forward_states(g1, tape, n)[i] == st[i]);
            }
        }
    }
}

/// Operations and shapes, not buffers, decide what a step computes.
proof fn lemma_eval_same_ops<T: Scalar>(g0: Graph<T>, g1: Graph<T>, st: Seq<Seq<T>>, c: int)
    requires
        g0.op_of(c) == g1.op_of(c),
        forall|s: int| 0 <= s < op_operands(g0.op_of(c)).len() ==> g0.shape_of((
        #[trigger] op_operands(g0.op_of(c))[s]) as int) == g1.shape_of(op_operands(g0.op_of(c))[
            s] as int),
    ensures
        eval_op(g0, st, c) == eval_op(g1, st, c),
{
    match g0.op_of(c) {
        Op::Mm { a, b } => {
            assert(op_operands(g0.op_of(c))[0] == a);
            assert(op_operands(g0.op_of(c))[1] == b);
            assert(g0.shape_of(a as int) == g1.shape_of(a as int));
            assert(g0.shape_of(b as int) == g1.shape_of(b as int));
        },
        Op::MmT { a, b } => {
            assert(op_operands(g0.op_of(c))[0] == a);
            assert(op_operands(g0.op_of(c))[1] == b);
            assert(g0.shape_of(a as int) == g1.shape_of(a as int));
            assert(g0.shape_of(b as int) == g1.shape_of(b as int));
        },
        Op::Softmax { a, axis } => {
            assert(op_operands(g0.op_of(c))[0] == a);
            assert(g0.shape_of(a as int) == g1.shape_of(a as int));
        },
        _ => {
        },
    }
}

/// Accumulators of nodes that no processed record deposits into stay put
/// between two points of the backward pass.
proof fn lemma_backward_stable<T: Scalar>(
    g: Graph<T>,
    tape: Seq<usize>,
    root: int,
    seed: T,
    x: int,
    n1: int,
    n2: int,
)
    requires
        g.wf(),
        0 <= n1 <= n2 <= tape.len(),
        0 <= root < g.node_count(),
        0 <= x < g.node_count(),
        forall|p: int| 0 <= p < tape.len() ==> g.node_in(#[trigger] tape[p] as int),
        // every record processed between the two points lies at or below x
        forall|j: int| n1 <= j < n2 ==> (#[trigger] tape[tape.len() - 1 - j] as int) <= x,
    ensures
        backward_states(g, tape, root, seed, n2)[x] == backward_states(g, tape, root, seed, n1)[x],
    decreases n2 - n1,
{
    if n2 > n1 {
        lemma_backward_stable(g, tape, root, seed, x, n1, n2 - 1);
        let c = tape[tape.len() - n2] as int;
        assert(tape[tape.len() - 1 - (n2 - 1)] as int <= x);
        let st = backward_states(g, tape, root, seed, n2 - 1);
        lemma_backward_states_len(g, tape, root, seed, n2 - 1);
        lemma_deposit_away(g, st, c, x);
    }
}

/// A record deposits only strictly below its own node.
proof fn lemma_deposit_away<T: Scalar>(g: Graph<T>, st: Seq<Seq<T>>, c: int, x: int)
    requires
        g.wf(),
        g.node_in(c),
        c <= x,
        0 <= x < g.node_count(),
        st.len() == g.node_count(),
    ensures
        back_step(g, c, st)[x] == st[x],
{
    let ops = op_operands(g.op_of(c));
    if ops.len() >= 1 {
        lemma_operands_below(g, c, 0);
    }
    if ops.len() >= 2 {
        lemma_operands_below(g, c, 1);
    }
}

/// The topological-order invariant of the backward pass: when a node's
/// own backward record runs, its accumulator already holds its final
/// value — every consumer, having a larger arena index and hence an
/// earlier place in the descending order, has deposited by then.
pub proof fn lemma_grad_complete_before_use<T: Scalar>(
    g: Graph<T>,
    tape: Seq<usize>,
    root: int,
    seed: T,
    p: int,
)
    requires
        g.wf(),
        tape_ok(g, tape, root),
        g.node_in(root),
        0 <= p < tape.len(),
    ensures
        backward_states(g, tape, root, seed, tape.len() - 1 - p)[tape[p] as int]
            == backward_states(g, tape, root, seed, tape.len() as int)[tape[p] as int],
{
    let len = tape.len() as int;
    assert forall|j: int| len - 1 - p <= j < len implies (#[trigger] tape[len - 1 - j] as int)
        <= tape[p] as int by {
        let q = len - 1 - j;
        if q < p {
            assert(tape[q] < tape[p]);
        }
    }
    lemma_backward_stable(g, tape, root, seed, tape[p] as int, len - 1 - p, len);
}

/// The seed accumulates into the root and nothing else ever deposits
/// there: after a pass the root's accumulator is its old contents plus
/// the seed, element-wise.
pub proof fn lemma_backward_accumulates_root<T: Scalar>(
    g: Graph<T>,
    tape: Seq<usize>,
    root: int,
    seed: T,
)
    requires
        g.wf(),
        tape_ok(g, tape, root),
        g.node_in(root),
        g.has_grad(root),
    ensures
        backward_states(g, tape, root, seed, tape.len() as int)[root] == Seq::new(
            g.grad_of(root).len(),
            |i: int| T::spec_add(g.grad_of(root)[i], seed),
        ),
{
    let len = tape.len() as int;
    assert forall|j: int| 0 <= j < len implies (#[trigger] tape[len - 1 - j] as int) <= root by {
        assert(tape[len - 1 - j] as int <= root);
    }
    lemma_backward_stable(g, tape, root, seed, root, 0, len);
    assert(backward_states(g, tape, root, seed, 0) == seeded_state(g, root, seed));
}

/// Accumulation, not overwrite: starting from a zeroed accumulator, one
/// backward pass leaves exactly the seed in the root, and a second pass
/// with the same seed doubles it.
pub proof fn lemma_root_seed_doubles<T: Scalar>(
    g0: Graph<T>,
    g1: Graph<T>,
    tape: Seq<usize>,
    root: int,
    seed: T,
)
    requires
        g0.wf(),
        g1.wf(),
        tape_ok(g0, tape, root),
        tape_ok(g1, tape, root),
        g0.node_in(root),
        g0.has_grad(root),
        g1.node_in(root),
        g1.has_grad(root),
        g0.grad_of(root) =~= Seq::new(g0.grad_of(root).len(), |i: int| T::spec_zero()),
        g1.grad_of(root) == backward_states(g0, tape, root, seed, tape.len() as int)[root],
    ensures
        g1.grad_of(root) =~= Seq::new(g0.grad_of(root).len(), |i: int| seed),
        backward_states(g1, tape, root, seed, tape.len() as int)[root] =~= Seq::new(
            g0.grad_of(root).len(),
            |i: int| T::spec_add(seed, seed),
        ),
{
    lemma_backward_accumulates_root(g0, tape, root, seed);
    assert forall|i: int| 0 <= i < g0.grad_of(root).len() implies g1.grad_of(root)[i] == seed by {
        assert(g1.grad_of(root)[i] == T::spec_add(T::spec_zero(), seed));
        T::add_zero_identity(seed);
    }
    assert(g1.grad_of(root) =~= Seq::new(g0.grad_of(root).len(), |i: int| seed));
    lemma_backward_accumulates_root(g1, tape, root, seed);
}

} // verus!
