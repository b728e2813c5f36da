//! Padding of a one-axis sample, per mode: the unpadded region is copied
//! and the border is filled — with a constant, by mirroring across the
//! edge, or by repeating the edge.  The backward routing sends each
//! border position's gradient back to the source position it was read
//! from, accumulating where several positions mirror one source, and
//! discards the border for constant fills.

use vstd::prelude::*;

use crate::scalar::Scalar;
use crate::tensor::Tensor;

verus! {

/// Zero padding.
#[derive(Clone, Copy, PartialEq, Eq, Structural, Debug)]
pub struct Zero;

/// Constant padding with a fill value.
#[derive(Clone, Copy, PartialEq, Eq, Structural, Debug)]
pub struct Constant<T>(pub T);

/// Reflective padding: mirror across the edge, the edge itself not
/// repeated.
#[derive(Clone, Copy, PartialEq, Eq, Structural, Debug)]
pub struct Reflective;

/// Replicative padding: repeat the edge value.
#[derive(Clone, Copy, PartialEq, Eq, Structural, Debug)]
pub struct Replicative;

/// The padding modes, as one value.
#[derive(Clone, Copy, PartialEq, Eq, Structural, Debug)]
pub enum PadKind<T> {
    /// Fill the border with a constant.
    Constant(T),
    /// Mirror across the edge.
    Reflective,
    /// Repeat the edge.
    Replicative,
}

/// A padding mode: anything that names one of the [`PadKind`]s.
pub trait PaddingMode<T: Scalar>: Sized {
    /// Which border rule this mode stands for.
    spec fn spec_kind(self) -> PadKind<T>;

    /// Executable form of [`Self::spec_kind`].
    fn kind(&self) -> (r: PadKind<T>)
        ensures
            r == self.spec_kind(),
    ;
}

impl<T: Scalar> PaddingMode<T> for Zero {
    /// Zero padding delegates to constant padding with fill value zero.
    open spec fn spec_kind(self) -> PadKind<T> {
        PadKind::Constant(T::spec_zero())
    }

    fn kind(&self) -> PadKind<T> {
        PadKind::Constant(T::zero_val())
    }
}

impl<T: Scalar> PaddingMode<T> for Constant<T> {
    open spec fn spec_kind(self) -> PadKind<T> {
        PadKind::Constant(self.0)
    }

    fn kind(&self) -> PadKind<T> {
        PadKind::Constant(self.0)
    }
}

impl<T: Scalar> PaddingMode<T> for Reflective {
    open spec fn spec_kind(self) -> PadKind<T> {
        PadKind::Reflective
    }

    fn kind(&self) -> PadKind<T> {
        PadKind::Reflective
    }
}

impl<T: Scalar> PaddingMode<T> for Replicative {
    open spec fn spec_kind(self) -> PadKind<T> {
        PadKind::Replicative
    }

    fn kind(&self) -> PadKind<T> {
        PadKind::Replicative
    }
}

/// A sound padding request for a sample of `len` elements: mirroring
/// cannot reach past the opposite edge.
pub open spec fn pad_args_ok<T>(k: PadKind<T>, len: int, before: int, after: int) -> bool {
    &&& len >= 1
    &&& (k is Reflective ==> before <= len - 1 && after <= len - 1)
}

/// Where padded position `i` reads from: a source position, or nothing
/// for a constant-filled border.
pub open spec fn pad_src<T>(k: PadKind<T>, len: int, before: int, i: int) -> Option<int> {
    if before <= i < before + len {
        Some(i - before)
    } else if i < before {
        match k {
            PadKind::Constant(x) => None,
            PadKind::Reflective => Some(before - i),
            PadKind::Replicative => Some(0int),
        }
    } else {
        match k {
            PadKind::Constant(x) => None,
            PadKind::Reflective => Some(len - 2 - (i - before - len)),
            PadKind::Replicative => Some(len - 1),
        }
    }
}

/// The fill value of a mode, used where no source position exists.
pub open spec fn pad_fill<T: Scalar>(k: PadKind<T>) -> T {
    match k {
        PadKind::Constant(x) => x,
        PadKind::Reflective => T::spec_zero(),
        PadKind::Replicative => T::spec_zero(),
    }
}

/// Every source position a sound request maps to is in range.
pub proof fn lemma_pad_src_in_range<T>(k: PadKind<T>, len: int, before: int, after: int, i: int)
    requires
        pad_args_ok(k, len, before, after),
        0 <= i < before + len + after,
    ensures
        match pad_src(k, len, before, i) {
            Some(j) => 0 <= j < len,
            None => true,
        },
{
}

/// Pads a one-axis sample: the source is copied into the middle and the
/// border is produced per mode.
pub fn pad<T: Scalar, M: PaddingMode<T>>(t: &Tensor<T>, before: usize, after: usize, mode: &M) -> (
    r: Tensor<T>)
    requires
        t.wf(),
        t.shape_view().len() == 1,
        pad_args_ok(mode.spec_kind(), t.shape_view()[0] as int, before as int, after as int),
        before + t.shape_view()[0] + after <= usize::MAX,
    ensures
        r.wf(),
        r.shape_view() =~= seq![(before + t.shape_view()[0] + after) as usize],
        r.data_view().len() == before + t.shape_view()[0] + after,
        forall|i: int| 0 <= i < r.data_view().len() ==> #[trigger] r.data_view()[i] == (
        match pad_src(mode.spec_kind(), t.shape_view()[0] as int, before as int, i) {
            Some(j) => t.data_view()[j],
            None => pad_fill(mode.spec_kind()),
        }),
{
    let k = mode.kind();
    let len = t.shape()[0];
    proof {
        crate::tensor::lemma_volume_first(t.shape_view());
        assert(t.shape_view().drop_first() =~= Seq::<usize>::empty());
        assert(t.data_view().len() == len * 1);
        assert(len * 1 == len) by (nonlinear_arith);
    }
    let total = before + len + after;
    let fill = match k {
        PadKind::Constant(x) => x,
        PadKind::Reflective => T::zero_val(),
        PadKind::Replicative => T::zero_val(),
    };
    let mut data: Vec<T> = Vec::new();
    let mut i: usize = 0;
    while i < total
        invariant
            i <= total,
            total == before + len + after,
            t.wf(),
            t.data_view().len() == len,
            k == mode.spec_kind(),
            fill == pad_fill(k),
            pad_args_ok(k, len as int, before as int, after as int),
            data@.len() == i,
            forall|w: int| 0 <= w < i ==> #[trigger] data@[w] == (match pad_src(
                k,
                len as int,
                before as int,
                w,
            ) {
                Some(j) => t.data_view()[j],
                None => pad_fill(k),
            }),
        decreases total - i,
    {
        proof {
            lemma_pad_src_in_range(k, len as int, before as int, after as int, i as int);
        }
        let v = if i >= before && i < before + len {
            t.get(i - before)
        } else if i < before {
            match k {
                PadKind::Constant(x) => x,
                PadKind::Reflective => t.get(before - i),
                PadKind::Replicative => t.get(0),
            }
        } else {
            match k {
                PadKind::Constant(x) => x,
                PadKind::Reflective => t.get(len - 2 - (i - before - len)),
                PadKind::Replicative => t.get(len - 1),
            }
        };
        data.push(v);
        i = i + 1;
    }
    let mut sh: Vec<usize> = Vec::new();
    sh.push(total);
    proof {
        crate::tensor::lemma_volume_first(sh@);
        assert(sh@.drop_first() =~= Seq::<usize>::empty());
        assert(total * 1 == total) by (nonlinear_arith);
    }
    Tensor::from_parts(sh, data)
}

/// The running backward routing: what source position `j` has received
/// from the first `n` padded positions.
pub open spec fn route_acc<T: Scalar>(
    gv: Seq<T>,
    k: PadKind<T>,
    len: int,
    before: int,
    j: int,
    n: int,
) -> T
    decreases n,
{
    if n <= 0 {
        T::spec_zero()
    } else {
        let prev = route_acc(gv, k, len, before, j, n - 1);
        if pad_src(k, len, before, n - 1) == Some(j) {
            T::spec_add(prev, gv[n - 1])
        } else {
            prev
        }
    }
}

/// Routes a padded sample's gradient back to its source positions,
/// accumulating where several padded positions read one source and
/// discarding the constant-filled border.
pub fn pad_backward<T: Scalar, M: PaddingMode<T>>(
    gv: &Tensor<T>,
    src_len: usize,
    before: usize,
    after: usize,
    mode: &M,
) -> (r: Tensor<T>)
    requires
        gv.wf(),
        gv.shape_view().len() == 1,
        pad_args_ok(mode.spec_kind(), src_len as int, before as int, after as int),
        before + src_len + after <= usize::MAX,
        gv.shape_view()[0] == before + src_len + after,
    ensures
        r.wf(),
        r.shape_view() =~= seq![src_len],
        r.data_view().len() == src_len,
        forall|j: int| 0 <= j < src_len ==> #[trigger] r.data_view()[j] == route_acc(
            gv.data_view(),
            mode.spec_kind(),
            src_len as int,
            before as int,
            j,
            gv.data_view().len() as int,
        ),
{
    let k = mode.kind();
    let total = gv.len();
    proof {
        crate::tensor::lemma_volume_first(gv.shape_view());
        assert(gv.shape_view().drop_first() =~= Seq::<usize>::empty());
        assert(gv.data_view().len() == gv.shape_view()[0] * 1);
        assert(gv.shape_view()[0] * 1 == gv.shape_view()[0]) by (nonlinear_arith);
    }
    let mut out: Vec<T> = Vec::new();
    let mut w: usize = 0;
    while w < src_len
        invariant
            w <= src_len,
            out@.len() == w,
            forall|u: int| 0 <= u < w ==> #[trigger] out@[u] == T::spec_zero(),
        decreases src_len - w,
    {
        out.push(T::zero_val());
        w = w + 1;
    }
    let mut i: usize = 0;
    while i < total
        invariant
            i <= total,
            total == gv.data_view().len(),
            total == before + src_len + after,
            gv.wf(),
            k == mode.spec_kind(),
            pad_args_ok(k, src_len as int, before as int, after as int),
            out@.len() == src_len,
            forall|j: int| 0 <= j < src_len ==> #[trigger] out@[j] == route_acc(
                gv.data_view(),
                k,
                src_len as int,
                before as int,
                j,
                i as int,
            ),
        decreases total - i,
    {
        proof {
            lemma_pad_src_in_range(k, src_len as int, before as int, after as int, i as int);
        }
        let src = if i >= before && i < before + src_len {
            Some(i - before)
        } else if i < before {
            match k {
                PadKind::Constant(x) => None,
                PadKind::Reflective => Some(before - i),
                PadKind::Replicative => Some(0usize),
            }
        } else {
            match k {
                PadKind::Constant(x) => None,
                PadKind::Reflective => Some(src_len - 2 - (i - before - src_len)),
                PadKind::Replicative => Some(src_len - 1),
            }
        };
        let ghost pre = out@;
        match src {
            Some(j) => {
                let x = T::add_val(out[j], gv.get(i));
                out.set(j, x);
                proof {
                    assert(pad_src(k, src_len as int, before as int, i as int) == Some(j as int));
                }
            },
            None => {
                proof {
                    assert(pad_src::<T>(k, src_len as int, before as int, i as int) is None);
                }
            },
        }
        proof {
            assert forall|j: int| 0 <= j < src_len implies #[trigger] out@[j] == route_acc(
                gv.data_view(),
                k,
                src_len as int,
                before as int,
                j,
                i as int + 1,
            ) by {
                if pad_src(k, src_len as int, before as int, i as int) == Some(j) {
                    assert(out@[j] == T::spec_add(pre[j], gv.data_view()[i as int]));
                } else {
                    assert(out@[j] == pre[j]);
                }
            }
        }
        i = i + 1;
    }
    let mut sh: Vec<usize> = Vec::new();
    sh.push(src_len);
    proof {
        crate::tensor::lemma_volume_first(sh@);
        assert(sh@.drop_first() =~= Seq::<usize>::empty());
        assert(src_len * 1 == src_len) by (nonlinear_arith);
    }
    Tensor::from_parts(sh, out)
}

} // verus!
