//! Dense tensors: an immutable shape and a flat row-major value buffer.
//!
//! Every dimension is at least one, so even the rank-zero tensor holds a
//! single element.  The pointwise kernels here are the only place the
//! engine touches element values, and each is pinned to its spec-level
//! counterpart over the abstract scalar.

use vstd::prelude::*;

use crate::scalar::Scalar;

verus! {

/// Why a tensor or a graph node could not be built.
#[derive(Clone, Copy, PartialEq, Eq, Structural, Debug)]
pub enum ShapeError {
    /// Operand shapes fail the operation's required relation.
    Mismatch,
    /// A dimension of length zero was supplied.
    EmptyDim,
    /// The element count does not fit the machine's address space.
    TooLarge,
}

/// Number of elements a shape describes.
pub open spec fn volume(s: Seq<usize>) -> int
    decreases s.len(),
{
    if s.len() == 0 {
        1
    } else {
        volume(s.drop_last()) * s.last()
    }
}

/// Every dimension is at least one.
pub open spec fn dims_positive(s: Seq<usize>) -> bool {
    forall|i: int| 0 <= i < s.len() ==> (#[trigger] s[i]) >= 1
}

/// Unfolds the volume of a longer prefix by one axis.
pub proof fn lemma_volume_take_step(s: Seq<usize>, k: int)
    requires
        0 <= k < s.len(),
    ensures
        volume(s.take(k + 1)) == volume(s.take(k)) * s[k],
{
    assert(s.take(k + 1).drop_last() =~= s.take(k));
    assert(s.take(k + 1).last() == s[k]);
}

/// The volume of the full shape is the volume of the full-length prefix.
pub proof fn lemma_volume_take_full(s: Seq<usize>)
    ensures
        volume(s.take(s.len() as int)) == volume(s),
{
    assert(s.take(s.len() as int) =~= s);
}

/// With positive dimensions the volume is positive, and the volume of a
/// prefix never exceeds the volume of the whole.
pub proof fn lemma_volume_positive(s: Seq<usize>)
    requires
        dims_positive(s),
    ensures
        volume(s) >= 1,
        forall|k: int| 0 <= k <= s.len() ==> #[trigger] volume(s.take(k)) >= 1,
        forall|k: int| 0 <= k <= s.len() ==> #[trigger] volume(s.take(k)) <= volume(s),
    decreases s.len(),
{
    if s.len() == 0 {
        assert forall|k: int| 0 <= k <= s.len() implies #[trigger] volume(s.take(k)) >= 1
            && volume(s.take(k)) <= volume(s) by {
            assert(s.take(k) =~= s);
        }
    } else {
        let s0 = s.drop_last();
        assert(dims_positive(s0));
        lemma_volume_positive(s0);
        assert(volume(s) == volume(s0) * s.last());
        assert(volume(s0) * s.last() >= volume(s0) * 1) by (nonlinear_arith)
            requires
                volume(s0) >= 1,
                s.last() >= 1,
        ;
        assert forall|k: int| 0 <= k <= s.len() implies #[trigger] volume(s.take(k)) >= 1
            && volume(s.take(k)) <= volume(s) by {
            if k < s.len() {
                assert(s.take(k) =~= s0.take(k));
            } else {
                assert(s.take(k) =~= s);
            }
        }
    }
}

/// A dense value buffer with its shape.
pub struct Tensor<T> {
    shape: Vec<usize>,
    data: Vec<T>,
}

impl<T> Tensor<T> {
    /// The shape, as a sequence of dimension lengths.
    pub closed spec fn shape_view(self) -> Seq<usize> {
        self.shape@
    }

    /// The elements, flat, in row-major order.
    pub closed spec fn data_view(self) -> Seq<T> {
        self.data@
    }

    /// Well-formedness: positive dimensions and a buffer of exactly the
    /// shape's volume.
    pub open spec fn wf(self) -> bool {
        &&& dims_positive(self.shape_view())
        &&& self.data_view().len() == volume(self.shape_view())
    }

    /// The shape.
    pub fn shape(&self) -> (r: &Vec<usize>)
        ensures
            r@ == self.shape_view(),
    {
        &self.shape
    }

    /// Number of elements.
    pub fn len(&self) -> (r: usize)
        ensures
            r == self.data_view().len(),
    {
        self.data.len()
    }

    /// The flat element buffer.
    pub fn values(&self) -> (r: &Vec<T>)
        ensures
            r@ == self.data_view(),
    {
        &self.data
    }
}

impl<T> Tensor<T> {
    /// Wraps a buffer already known to fit the shape.
    pub fn from_parts(shape: Vec<usize>, data: Vec<T>) -> (r: Self)
        requires
            dims_positive(shape@),
            data@.len() == volume(shape@),
        ensures
            r.wf(),
            r.shape_view() == shape@,
            r.data_view() == data@,
    {
        Tensor { shape, data }
    }
}

impl<T: Copy> Tensor<T> {
    /// One element, by flat index.
    pub fn get(&self, i: usize) -> (r: T)
        requires
            i < self.data_view().len(),
        ensures
            r == self.data_view()[i as int],
    {
        self.data[i]
    }

    /// Replaces one element, by flat index.
    pub fn set(&mut self, i: usize, x: T)
        requires
            i < old(self).data_view().len(),
        ensures
            final(self).shape_view() == old(self).shape_view(),
            final(self).data_view() == old(self).data_view().update(i as int, x),
    {
        self.data.set(i, x);
    }

    /// A deep copy; cloning is a no-op on the contents.
    pub fn duplicate(&self) -> (r: Self)
        ensures
            r.shape_view() == self.shape_view(),
            r.data_view() == self.data_view(),
    {
        let mut shape: Vec<usize> = Vec::new();
        let mut k: usize = 0;
        let ns = self.shape.len();
        while k < ns
            invariant
                k <= ns,
                ns == self.shape.len(),
                shape@ =~= self.shape_view().take(k as int),
            decreases ns - k,
        {
            shape.push(self.shape[k]);
            assert(shape@ =~= self.shape_view().take(k as int + 1));
            k = k + 1;
        }
        let mut data: Vec<T> = Vec::new();
        let n = self.data.len();
        let mut i: usize = 0;
        while i < n
            invariant
                i <= n,
                n == self.data.len(),
                data@ =~= self.data_view().take(i as int),
            decreases n - i,
        {
            data.push(self.data[i]);
            assert(data@ =~= self.data_view().take(i as int + 1));
            i = i + 1;
        }
        proof {
            assert(self.shape_view().take(ns as int) =~= self.shape_view());
            assert(self.data_view().take(n as int) =~= self.data_view());
        }
        Tensor { shape, data }
    }
}

/// Computes the volume of a shape, or nothing if it does not fit the
/// machine's address space; also reports a zero dimension.
pub fn checked_volume(shape: &Vec<usize>) -> (r: Result<usize, ShapeError>)
    ensures
        match r {
            Ok(v) => dims_positive(shape@) && v == volume(shape@),
            Err(ShapeError::EmptyDim) => !dims_positive(shape@),
            Err(ShapeError::TooLarge) => dims_positive(shape@) && volume(shape@) > usize::MAX,
            Err(ShapeError::Mismatch) => false,
        },
{
    let n = shape.len();
    let mut k: usize = 0;
    while k < n
        invariant
            k <= n,
            n == shape.len(),
            forall|j: int| 0 <= j < k ==> (#[trigger] shape@[j]) >= 1,
        decreases n - k,
    {
        if shape[k] == 0 {
            return Err(ShapeError::EmptyDim);
        }
        k = k + 1;
    }
    let mut acc: usize = 1;
    let mut i: usize = 0;
    while i < n
        invariant
            i <= n,
            n == shape.len(),
            dims_positive(shape@),
            acc == volume(shape@.take(i as int)),
        decreases n - i,
    {
        proof {
            lemma_volume_take_step(shape@, i as int);
        }
        let d = shape[i];
        match acc.checked_mul(d) {
            Some(next) => {
                acc = next;
            },
            None => {
                proof {
                    lemma_volume_grows(shape@, i as int + 1);
                }
                return Err(ShapeError::TooLarge);
            },
        }
        i = i + 1;
    }
    proof {
        lemma_volume_take_full(shape@);
    }
    Ok(acc)
}

/// The volume never shrinks as more positive axes are appended.
proof fn lemma_volume_grows(s: Seq<usize>, k: int)
    requires
        dims_positive(s),
        0 <= k <= s.len(),
    ensures
        volume(s) >= volume(s.take(k)),
    decreases s.len() - k,
{
    if k < s.len() {
        lemma_volume_grows(s, k + 1);
        lemma_volume_take_step(s, k);
        lemma_volume_positive(s.take(k));
        assert(volume(s.take(k + 1)) == volume(s.take(k)) * s[k]);
        assert(volume(s.take(k)) * s[k] >= volume(s.take(k)) * 1) by (nonlinear_arith)
            requires
                volume(s.take(k)) >= 1,
                s[k] >= 1,
        ;
    } else {
        assert(s.take(k) =~= s);
    }
}

/// Whether two shape vectors are equal.
pub fn shapes_equal(a: &Vec<usize>, b: &Vec<usize>) -> (r: bool)
    ensures
        r == (a@ == b@),
{
    let n = a.len();
    if n != b.len() {
        assert(a@.len() != b@.len());
        return false;
    }
    let mut k: usize = 0;
    while k < n
        invariant
            k <= n,
            n == a@.len(),
            n == b@.len(),
            forall|j: int| 0 <= j < k ==> a@[j] == #[trigger] b@[j],
        decreases n - k,
    {
        if a[k] != b[k] {
            return false;
        }
        k = k + 1;
    }
    proof {
        assert(a@ =~= b@);
    }
    true
}

/// Copies a shape vector.
pub fn clone_shape(v: &Vec<usize>) -> (r: Vec<usize>)
    ensures
        r@ == v@,
{
    let n = v.len();
    let mut out: Vec<usize> = Vec::new();
    let mut k: usize = 0;
    while k < n
        invariant
            k <= n,
            n == v.len(),
            out@ =~= v@.take(k as int),
        decreases n - k,
    {
        out.push(v[k]);
        assert(out@ =~= v@.take(k as int + 1));
        k = k + 1;
    }
    proof {
        assert(v@.take(n as int) =~= v@);
    }
    out
}

/// The pointwise one-operand kernels.
#[derive(Clone, Copy, PartialEq, Eq, Structural, Debug)]
pub enum MapKind {
    Neg,
    Abs,
    Sgn,
    Exp,
    Ln,
    Sqrt,
    Tanh,
    Relu,
    Sigmoid,
    SoftPlus,
}

/// What each one-operand kernel computes, per element.
pub open spec fn map1<T: Scalar>(k: MapKind, x: T) -> T {
    match k {
        MapKind::Neg => T::spec_neg(x),
        MapKind::Abs => T::spec_abs(x),
        MapKind::Sgn => T::spec_sgn(x),
        MapKind::Exp => T::spec_exp(x),
        MapKind::Ln => T::spec_ln(x),
        MapKind::Sqrt => T::spec_sqrt(x),
        MapKind::Tanh => T::spec_tanh(x),
        MapKind::Relu => T::spec_max(T::spec_zero(), x),
        MapKind::Sigmoid => T::spec_div(
            T::spec_one(),
            T::spec_add(T::spec_one(), T::spec_exp(T::spec_neg(x))),
        ),
        MapKind::SoftPlus => T::spec_ln(T::spec_add(T::spec_one(), T::spec_exp(x))),
    }
}

/// Executable form of [`map1`].
pub fn apply1<T: Scalar>(k: MapKind, x: T) -> (r: T)
    ensures
        r == map1(k, x),
{
    match k {
        MapKind::Neg => T::neg_val(x),
        MapKind::Abs => T::abs_val(x),
        MapKind::Sgn => T::sgn_val(x),
        MapKind::Exp => T::exp_val(x),
        MapKind::Ln => T::ln_val(x),
        MapKind::Sqrt => T::sqrt_val(x),
        MapKind::Tanh => T::tanh_val(x),
        MapKind::Relu => T::max_val(T::zero_val(), x),
        MapKind::Sigmoid => T::div_val(
            T::one_val(),
            T::add_val(T::one_val(), T::exp_val(T::neg_val(x))),
        ),
        MapKind::SoftPlus => T::ln_val(T::add_val(T::one_val(), T::exp_val(x))),
    }
}

/// The pointwise two-operand kernels.  The `Gate` kernels compute a local
/// backward contribution from an upstream gradient element and either the
/// operand's forward input or the node's own forward output.
#[derive(Clone, Copy, PartialEq, Eq, Structural, Debug)]
pub enum ZipKind {
    Add,
    Sub,
    Mul,
    Div,
    Max,
    /// `(g, x)`: the gradient where the pre-activation input is positive.
    ReluGate,
    /// `(g, y)`: `g * y * (1 - y)`, from the node's own output.
    SigmoidGate,
    /// `(g, x)`: `g / (1 + exp(-x))`, from the pre-activation input.
    SoftPlusGate,
    /// `(g, y)`: `g / (y * 2)`, from the node's own output.
    SqrtGate,
    /// `(g, y)`: `g * (1 - y * y)`, from the node's own output.
    TanhGate,
    /// `(g, y)`: `g * y`, from the node's own output.
    ExpGate,
    /// `(g, x)`: `g / x`, from the pre-activation input.
    LnGate,
}

/// What each two-operand kernel computes, per element pair.
pub open spec fn map2<T: Scalar>(k: ZipKind, a: T, b: T) -> T {
    match k {
        ZipKind::Add => T::spec_add(a, b),
        ZipKind::Sub => T::spec_sub(a, b),
        ZipKind::Mul => T::spec_mul(a, b),
        ZipKind::Div => T::spec_div(a, b),
        ZipKind::Max => T::spec_max(a, b),
        ZipKind::ReluGate => if T::spec_is_pos(b) {
            a
        } else {
            T::spec_zero()
        },
        ZipKind::SigmoidGate => T::spec_mul(T::spec_mul(a, b), T::spec_sub(T::spec_one(), b)),
        ZipKind::SoftPlusGate => T::spec_div(
            a,
            T::spec_add(T::spec_one(), T::spec_exp(T::spec_neg(b))),
        ),
        ZipKind::SqrtGate => T::spec_div(a, T::spec_mul(b, T::spec_add(T::spec_one(), T::spec_one()))),
        ZipKind::TanhGate => T::spec_mul(a, T::spec_sub(T::spec_one(), T::spec_mul(b, b))),
        ZipKind::ExpGate => T::spec_mul(a, b),
        ZipKind::LnGate => T::spec_div(a, b),
    }
}

/// Executable form of [`map2`].
pub fn apply2<T: Scalar>(k: ZipKind, a: T, b: T) -> (r: T)
    ensures
        r == map2(k, a, b),
{
    match k {
        ZipKind::Add => T::add_val(a, b),
        ZipKind::Sub => T::sub_val(a, b),
        ZipKind::Mul => T::mul_val(a, b),
        ZipKind::Div => T::div_val(a, b),
        ZipKind::Max => T::max_val(a, b),
        ZipKind::ReluGate => if T::is_pos_val(b) {
            a
        } else {
            T::zero_val()
        },
        ZipKind::SigmoidGate => T::mul_val(T::mul_val(a, b), T::sub_val(T::one_val(), b)),
        ZipKind::SoftPlusGate => T::div_val(
            a,
            T::add_val(T::one_val(), T::exp_val(T::neg_val(b))),
        ),
        ZipKind::SqrtGate => T::div_val(a, T::mul_val(b, T::add_val(T::one_val(), T::one_val()))),
        ZipKind::TanhGate => T::mul_val(a, T::sub_val(T::one_val(), T::mul_val(b, b))),
        ZipKind::ExpGate => T::mul_val(a, b),
        ZipKind::LnGate => T::div_val(a, b),
    }
}

/// Left-to-right sum of the first `n` elements.
pub open spec fn sum_prefix<T: Scalar>(s: Seq<T>, n: int) -> T
    decreases n,
{
    if n <= 0 {
        T::spec_zero()
    } else {
        T::spec_add(sum_prefix(s, n - 1), s[n - 1])
    }
}

/// Applies a one-operand kernel to every element.
pub fn ew_unary<T: Scalar>(k: MapKind, a: &Tensor<T>) -> (r: Tensor<T>)
    requires
        a.wf(),
    ensures
        r.wf(),
        r.shape_view() == a.shape_view(),
        r.data_view().len() == a.data_view().len(),
        forall|i: int| 0 <= i < r.data_view().len() ==> r.data_view()[i] == map1(
            k,
            #[trigger] a.data_view()[i],
        ),
{
    let n = a.len();
    let mut data: Vec<T> = Vec::new();
    let mut i: usize = 0;
    while i < n
        invariant
            i <= n,
            n == a.data_view().len(),
            data@.len() == i,
            forall|j: int| 0 <= j < i ==> data@[j] == map1(k, #[trigger] a.data_view()[j]),
        decreases n - i,
    {
        data.push(apply1(k, a.get(i)));
        i = i + 1;
    }
    let shape = clone_shape(a.shape());
    Tensor { shape, data }
}

/// Applies a two-operand kernel to every element pair of two tensors of
/// one shape.
pub fn ew_binary<T: Scalar>(k: ZipKind, a: &Tensor<T>, b: &Tensor<T>) -> (r: Tensor<T>)
    requires
        a.wf(),
        b.wf(),
        a.shape_view() == b.shape_view(),
    ensures
        r.wf(),
        r.shape_view() == a.shape_view(),
        r.data_view().len() == a.data_view().len(),
        forall|i: int| 0 <= i < r.data_view().len() ==> r.data_view()[i] == map2(
            k,
            #[trigger] a.data_view()[i],
            b.data_view()[i],
        ),
{
    let n = a.len();
    let mut data: Vec<T> = Vec::new();
    let mut i: usize = 0;
    while i < n
        invariant
            i <= n,
            n == a.data_view().len(),
            n == b.data_view().len(),
            data@.len() == i,
            forall|j: int| 0 <= j < i ==> data@[j] == map2(
                k,
                #[trigger] a.data_view()[j],
                b.data_view()[j],
            ),
        decreases n - i,
    {
        data.push(apply2(k, a.get(i), b.get(i)));
        i = i + 1;
    }
    let shape = clone_shape(a.shape());
    Tensor { shape, data }
}

/// Adds `src` element-wise into `dst`: accumulation, never replacement.
pub fn add_into<T: Scalar>(dst: &mut Tensor<T>, src: &Tensor<T>)
    requires
        old(dst).wf(),
        src.wf(),
        old(dst).shape_view() == src.shape_view(),
    ensures
        final(dst).wf(),
        final(dst).shape_view() == old(dst).shape_view(),
        final(dst).data_view().len() == old(dst).data_view().len(),
        forall|i: int| 0 <= i < final(dst).data_view().len() ==> final(dst).data_view()[i]
            == T::spec_add(#[trigger] old(dst).data_view()[i], src.data_view()[i]),
{
    let n = dst.len();
    let mut i: usize = 0;
    while i < n
        invariant
            i <= n,
            n == dst.data_view().len(),
            n == src.data_view().len(),
            n == old(dst).data_view().len(),
            dst.shape_view() == old(dst).shape_view(),
            forall|j: int| 0 <= j < n ==> i <= j ==> dst.data_view()[j] == #[trigger] old(
                dst,
            ).data_view()[j],
            forall|j: int| 0 <= j < i ==> dst.data_view()[j] == T::spec_add(
                #[trigger] old(dst).data_view()[j],
                src.data_view()[j],
            ),
        decreases n - i,
    {
        let x = T::add_val(dst.get(i), src.get(i));
        dst.set(i, x);
        i = i + 1;
    }
}

/// Adds the one value `x` into every element of `dst`.
pub fn add_scalar_into<T: Scalar>(dst: &mut Tensor<T>, x: T)
    requires
        old(dst).wf(),
    ensures
        final(dst).wf(),
        final(dst).shape_view() == old(dst).shape_view(),
        final(dst).data_view().len() == old(dst).data_view().len(),
        forall|i: int| 0 <= i < final(dst).data_view().len() ==> final(dst).data_view()[i]
            == T::spec_add(#[trigger] old(dst).data_view()[i], x),
{
    let n = dst.len();
    let mut i: usize = 0;
    while i < n
        invariant
            i <= n,
            n == dst.data_view().len(),
            n == old(dst).data_view().len(),
            dst.shape_view() == old(dst).shape_view(),
            forall|j: int| 0 <= j < n ==> i <= j ==> dst.data_view()[j] == #[trigger] old(
                dst,
            ).data_view()[j],
            forall|j: int| 0 <= j < i ==> dst.data_view()[j] == T::spec_add(
                #[trigger] old(dst).data_view()[j],
                x,
            ),
        decreases n - i,
    {
        let v = T::add_val(dst.get(i), x);
        dst.set(i, v);
        i = i + 1;
    }
}

/// Sums every element, left to right.
pub fn sum_all<T: Scalar>(a: &Tensor<T>) -> (r: T)
    ensures
        r == sum_prefix(a.data_view(), a.data_view().len() as int),
{
    let n = a.len();
    let mut acc = T::zero_val();
    let mut i: usize = 0;
    while i < n
        invariant
            i <= n,
            n == a.data_view().len(),
            acc == sum_prefix(a.data_view(), i as int),
        decreases n - i,
    {
        acc = T::add_val(acc, a.get(i));
        i = i + 1;
    }
    acc
}

/// A tensor of a shape already known to be sound, with every element
/// equal to `x`.
pub fn filled_for<T: Scalar>(shape: &Vec<usize>, x: T) -> (r: Tensor<T>)
    requires
        dims_positive(shape@),
        volume(shape@) <= usize::MAX,
    ensures
        r.wf(),
        r.shape_view() == shape@,
        r.data_view() =~= Seq::new(volume(shape@) as nat, |i: int| x),
{
    let v = match checked_volume(shape) {
        Ok(v) => v,
        Err(e) => vstd::pervasive::unreached(),
    };
    let mut data: Vec<T> = Vec::new();
    let mut i: usize = 0;
    while i < v
        invariant
            i <= v,
            data@ =~= Seq::new(i as nat, |k: int| x),
        decreases v - i,
    {
        data.push(x);
        assert(data@ =~= Seq::new(i as nat + 1, |k: int| x));
        i = i + 1;
    }
    let sh = clone_shape(shape);
    Tensor { shape: sh, data }
}

/// A tensor of a shape already known to be sound, all zero.
pub fn zeros_for<T: Scalar>(shape: &Vec<usize>) -> (r: Tensor<T>)
    requires
        dims_positive(shape@),
        volume(shape@) <= usize::MAX,
    ensures
        r.wf(),
        r.shape_view() == shape@,
        r.data_view() =~= Seq::new(volume(shape@) as nat, |i: int| T::spec_zero()),
{
    filled_for(shape, T::zero_val())
}

/// A tensor of one element and no axes.
pub fn scalar_tensor<T: Scalar>(x: T) -> (r: Tensor<T>)
    ensures
        r.wf(),
        r.shape_view() === Seq::empty(),
        r.data_view() =~= seq![x],
{
    let shape: Vec<usize> = Vec::new();
    let mut data: Vec<T> = Vec::new();
    data.push(x);
    Tensor { shape, data }
}

/// Running sum of the first `t` products of row `i` of `a` (an `m` by
/// `p` matrix, flat) with column `j` of `b` (a `p` by `n` matrix, flat).
pub open spec fn dot_partial<T: Scalar>(
    a: Seq<T>,
    b: Seq<T>,
    p: int,
    n: int,
    i: int,
    j: int,
    t: int,
) -> T
    decreases t,
{
    if t <= 0 {
        T::spec_zero()
    } else {
        T::spec_add(
            dot_partial(a, b, p, n, i, j, t - 1),
            T::spec_mul(a[i * p + (t - 1)], b[(t - 1) * n + j]),
        )
    }
}

/// The flat contents of the matrix product of an `m` by `p` and a `p` by
/// `n` matrix, row-major.
pub open spec fn matmul_seq<T: Scalar>(a: Seq<T>, b: Seq<T>, m: int, p: int, n: int) -> Seq<T> {
    Seq::new((m * n) as nat, |idx: int| dot_partial(a, b, p, n, idx / n, idx % n, p))
}

/// The flat contents of the transpose of an `r` by `c` matrix: a `c` by
/// `r` matrix, row-major.
pub open spec fn transpose_seq<T>(d: Seq<T>, r: int, c: int) -> Seq<T> {
    Seq::new((r * c) as nat, |idx: int| d[(idx % r) * c + (idx / r)])
}

proof fn lemma_rowcol_bound(i: int, j: int, r: int, c: int)
    requires
        0 <= i < r,
        0 <= j < c,
    ensures
        0 <= i * c + j < r * c,
        (i * c + j) / c == i,
        (i * c + j) % c == j,
{
    assert(0 <= i * c + j < r * c && (i * c + j) / c == i && (i * c + j) % c == j)
        by (nonlinear_arith)
        requires
            0 <= i < r,
            0 <= j < c,
    ;
}

/// The volume of a shape with at least one axis splits into the leading
/// axis times the volume of the rest.
pub proof fn lemma_volume_first(s: Seq<usize>)
    requires
        s.len() >= 1,
    ensures
        volume(s) == s[0] * volume(s.drop_first()),
    decreases s.len(),
{
    if s.len() == 1 {
        assert(s.drop_last() =~= Seq::<usize>::empty());
        assert(s.drop_first() =~= Seq::<usize>::empty());
        assert(volume(Seq::<usize>::empty()) == 1);
        assert(s.last() == s[0]);
        assert(volume(s) == 1 * s[0]);
        assert(1 * s[0] == s[0] * 1) by (nonlinear_arith);
    } else {
        let s0 = s.drop_last();
        lemma_volume_first(s0);
        assert(s0.drop_first() =~= s.drop_first().drop_last());
        assert(s.drop_first().last() == s.last());
        assert(volume(s.drop_first()) == volume(s.drop_first().drop_last()) * s.last());
        assert(volume(s) == volume(s0) * s.last());
        assert(volume(s0) == s[0] * volume(s0.drop_first()));
        assert((s[0] * volume(s0.drop_first())) * s.last() == s[0] * (volume(s0.drop_first())
            * s.last())) by (nonlinear_arith);
    }
}

/// Inserting a length-one axis leaves the volume unchanged.
pub proof fn lemma_volume_insert_one(s: Seq<usize>, k: int)
    requires
        0 <= k <= s.len(),
    ensures
        volume(s.insert(k, 1)) == volume(s),
    decreases s.len(),
{
    let t = s.insert(k, 1);
    if k == s.len() {
        assert(t.drop_last() =~= s);
        assert(t.last() == 1);
        assert(volume(t) == volume(s) * 1);
        assert(volume(s) * 1 == volume(s)) by (nonlinear_arith);
    } else {
        assert(t.drop_last() =~= s.drop_last().insert(k, 1));
        assert(t.last() == s.last());
        lemma_volume_insert_one(s.drop_last(), k);
        assert(volume(t) == volume(s.drop_last()) * s.last());
    }
}

/// A copy of a tensor's elements under another shape of the same volume.
pub fn reshape_copy<T: Copy>(t: &Tensor<T>, sh: Vec<usize>) -> (r: Tensor<T>)
    requires
        t.wf(),
        dims_positive(sh@),
        volume(sh@) == t.data_view().len(),
    ensures
        r.wf(),
        r.shape_view() == sh@,
        r.data_view() == t.data_view(),
{
    let n = t.len();
    let mut data: Vec<T> = Vec::new();
    let mut i: usize = 0;
    while i < n
        invariant
            i <= n,
            n == t.data_view().len(),
            data@ =~= t.data_view().take(i as int),
        decreases n - i,
    {
        data.push(t.get(i));
        assert(data@ =~= t.data_view().take(i as int + 1));
        i = i + 1;
    }
    proof {
        assert(t.data_view().take(n as int) =~= t.data_view());
    }
    Tensor::from_parts(sh, data)
}

/// The volume splits at any axis boundary.
pub proof fn lemma_volume_split(s: Seq<usize>, k: int)
    requires
        0 <= k <= s.len(),
    ensures
        volume(s) == volume(s.take(k)) * volume(s.subrange(k, s.len() as int)),
    decreases s.len(),
{
    if k == s.len() {
        assert(s.take(k) =~= s);
        assert(s.subrange(k, s.len() as int) =~= Seq::<usize>::empty());
        assert(volume(Seq::<usize>::empty()) == 1);
        assert(volume(s) * 1 == volume(s)) by (nonlinear_arith);
    } else {
        let s0 = s.drop_last();
        lemma_volume_split(s0, k);
        assert(s0.take(k) =~= s.take(k));
        assert(s.subrange(k, s.len() as int).drop_last() =~= s0.subrange(k, s0.len() as int));
        assert(s.subrange(k, s.len() as int).last() == s.last());
        assert(volume(s.subrange(k, s.len() as int)) == volume(s0.subrange(k, s0.len() as int))
            * s.last());
        assert(volume(s) == volume(s0) * s.last());
        assert((volume(s.take(k)) * volume(s0.subrange(k, s0.len() as int))) * s.last() == volume(
            s.take(k),
        ) * (volume(s0.subrange(k, s0.len() as int)) * s.last())) by (nonlinear_arith);
    }
}

/// The volume of a two-axis shape is the product of its sides.
pub proof fn lemma_volume2(s: Seq<usize>)
    requires
        s.len() == 2,
    ensures
        volume(s) == s[0] * s[1],
{
    assert(s.take(2) =~= s);
    lemma_volume_take_step(s, 1);
    lemma_volume_take_step(s, 0);
    assert(s.take(0) =~= Seq::<usize>::empty());
}

/// The matrix product of two 2-dimensional tensors.
pub fn matmul2d<T: Scalar>(a: &Tensor<T>, b: &Tensor<T>) -> (r: Tensor<T>)
    requires
        a.wf(),
        b.wf(),
        a.shape_view().len() == 2,
        b.shape_view().len() == 2,
        a.shape_view()[1] == b.shape_view()[0],
        (a.shape_view()[0] * b.shape_view()[1]) <= usize::MAX,
    ensures
        r.wf(),
        r.shape_view() =~= seq![a.shape_view()[0], b.shape_view()[1]],
        r.data_view() == matmul_seq(
            a.data_view(),
            b.data_view(),
            a.shape_view()[0] as int,
            a.shape_view()[1] as int,
            b.shape_view()[1] as int,
        ),
{
    let m = a.shape()[0];
    let p = a.shape()[1];
    let n = b.shape()[1];
    proof {
        assert(volume(a.shape_view()) == m * p) by {
            assert(a.shape_view() =~= seq![m, p]);
            assert(a.shape_view().take(2) =~= a.shape_view());
            lemma_volume_take_step(a.shape_view(), 1);
            lemma_volume_take_step(a.shape_view(), 0);
            assert(a.shape_view().take(0) =~= Seq::<usize>::empty());
        }
        assert(volume(b.shape_view()) == p * n) by {
            assert(b.shape_view() =~= seq![p, n]);
            assert(b.shape_view().take(2) =~= b.shape_view());
            lemma_volume_take_step(b.shape_view(), 1);
            lemma_volume_take_step(b.shape_view(), 0);
            assert(b.shape_view().take(0) =~= Seq::<usize>::empty());
        }
    }
    let la = a.len();
    let lb = b.len();
    proof {
        assert(la == m * p);
        assert(lb == p * n);
    }
    let ghost av = a.data_view();
    let ghost bv = b.data_view();
    let mut data: Vec<T> = Vec::new();
    let mut i: usize = 0;
    while i < m
        invariant
            i <= m,
            a.wf(),
            b.wf(),
            av == a.data_view(),
            bv == b.data_view(),
            a.shape_view() =~= seq![m, p],
            b.shape_view() =~= seq![p, n],
            av.len() == m * p,
            bv.len() == p * n,
            m * p <= usize::MAX,
            p * n <= usize::MAX,
            m * n <= usize::MAX,
            p >= 1,
            n >= 1,
            data@.len() == i * n,
            forall|idx: int| 0 <= idx < i * n ==> #[trigger] data@[idx] == dot_partial(
                av,
                bv,
                p as int,
                n as int,
                idx / n as int,
                idx % n as int,
                p as int,
            ),
        decreases m - i,
    {
        let mut j: usize = 0;
        while j < n
            invariant
                i < m,
                j <= n,
                a.wf(),
                b.wf(),
                av == a.data_view(),
                bv == b.data_view(),
                a.shape_view() =~= seq![m, p],
                b.shape_view() =~= seq![p, n],
                av.len() == m * p,
                bv.len() == p * n,
                m * p <= usize::MAX,
                p * n <= usize::MAX,
                m * n <= usize::MAX,
                p >= 1,
                n >= 1,
                data@.len() == i * n + j,
                forall|idx: int| 0 <= idx < i * n + j ==> #[trigger] data@[idx] == dot_partial(
                    av,
                    bv,
                    p as int,
                    n as int,
                    idx / n as int,
                    idx % n as int,
                    p as int,
                ),
            decreases n - j,
        {
            let mut acc = T::zero_val();
            let mut t: usize = 0;
            while t < p
                invariant
                    i < m,
                    j < n,
                    t <= p,
                    a.wf(),
                    b.wf(),
                    av == a.data_view(),
                    bv == b.data_view(),
                    av.len() == m * p,
                    bv.len() == p * n,
                    m * p <= usize::MAX,
                    p * n <= usize::MAX,
                    acc == dot_partial(av, bv, p as int, n as int, i as int, j as int, t as int),
                decreases p - t,
            {
                proof {
                    lemma_rowcol_bound(i as int, t as int, m as int, p as int);
                    lemma_rowcol_bound(t as int, j as int, p as int, n as int);
                }
                let av_el = a.get(i * p + t);
                let bv_el = b.get(t * n + j);
                acc = T::add_val(acc, T::mul_val(av_el, bv_el));
                t = t + 1;
            }
            proof {
                lemma_rowcol_bound(i as int, j as int, m as int, n as int);
                assert(i * n + j < m * n) by (nonlinear_arith)
                    requires
                        0 <= i < m,
                        0 <= j < n,
                ;
            }
            data.push(acc);
            proof {
                assert(data@.len() == i * n + j + 1);
                assert(data@[(i * n + j) as int] == acc);
                assert((i * n + j) as int / n as int == i as int && (i * n + j) as int % n as int
                    == j as int);
            }
            j = j + 1;
        }
        proof {
            assert(i * n + n == (i + 1) * n) by (nonlinear_arith);
        }
        i = i + 1;
    }
    let mut sh: Vec<usize> = Vec::new();
    sh.push(m);
    sh.push(n);
    proof {
        assert(volume(sh@) == m * n) by {
            assert(sh@ =~= seq![m, n]);
            assert(sh@.take(2) =~= sh@);
            lemma_volume_take_step(sh@, 1);
            lemma_volume_take_step(sh@, 0);
            assert(sh@.take(0) =~= Seq::<usize>::empty());
        }
        assert(data@ =~= matmul_seq(av, bv, m as int, p as int, n as int));
    }
    Tensor { shape: sh, data }
}

/// The transpose of a 2-dimensional tensor.
pub fn transpose2d<T: Scalar>(a: &Tensor<T>) -> (out: Tensor<T>)
    requires
        a.wf(),
        a.shape_view().len() == 2,
    ensures
        out.wf(),
        out.shape_view() =~= seq![a.shape_view()[1], a.shape_view()[0]],
        out.data_view() == transpose_seq(
            a.data_view(),
            a.shape_view()[0] as int,
            a.shape_view()[1] as int,
        ),
{
    let r = a.shape()[0];
    let c = a.shape()[1];
    proof {
        assert(volume(a.shape_view()) == r * c) by {
            assert(a.shape_view() =~= seq![r, c]);
            assert(a.shape_view().take(2) =~= a.shape_view());
            lemma_volume_take_step(a.shape_view(), 1);
            lemma_volume_take_step(a.shape_view(), 0);
            assert(a.shape_view().take(0) =~= Seq::<usize>::empty());
        }
    }
    let la = a.len();
    proof {
        assert(la == r * c);
    }
    let ghost av = a.data_view();
    let mut data: Vec<T> = Vec::new();
    let mut j: usize = 0;
    while j < c
        invariant
            j <= c,
            a.wf(),
            av == a.data_view(),
            a.shape_view() =~= seq![r, c],
            av.len() == r * c,
            r * c <= usize::MAX,
            r >= 1,
            c >= 1,
            data@.len() == j * r,
            forall|idx: int| 0 <= idx < j * r ==> #[trigger] data@[idx] == av[(idx % r as int) * (
            c as int) + (idx / r as int)],
        decreases c - j,
    {
        let mut i: usize = 0;
        while i < r
            invariant
                j < c,
                i <= r,
                a.wf(),
                av == a.data_view(),
                a.shape_view() =~= seq![r, c],
                av.len() == r * c,
                r * c <= usize::MAX,
                r >= 1,
                c >= 1,
                data@.len() == j * r + i,
                forall|idx: int| 0 <= idx < j * r + i ==> #[trigger] data@[idx] == av[(idx
                    % r as int) * (c as int) + (idx / r as int)],
            decreases r - i,
        {
            proof {
                lemma_rowcol_bound(i as int, j as int, r as int, c as int);
                lemma_rowcol_bound(j as int, i as int, c as int, r as int);
            }
            data.push(a.get(i * c + j));
            proof {
                assert(data@[(j * r + i) as int] == av[(i * c + j) as int]);
                assert((j * r + i) as int % r as int == i as int && (j * r + i) as int / r as int
                    == j as int);
            }
            i = i + 1;
        }
        proof {
            assert(j * r + r == (j + 1) * r) by (nonlinear_arith);
        }
        j = j + 1;
    }
    let mut sh: Vec<usize> = Vec::new();
    sh.push(c);
    sh.push(r);
    proof {
        assert(volume(sh@) == c * r) by {
            assert(sh@ =~= seq![c, r]);
            assert(sh@.take(2) =~= sh@);
            lemma_volume_take_step(sh@, 1);
            lemma_volume_take_step(sh@, 0);
            assert(sh@.take(0) =~= Seq::<usize>::empty());
        }
        assert(c * r == r * c) by (nonlinear_arith);
        assert(data@ =~= transpose_seq(av, r as int, c as int));
    }
    Tensor { shape: sh, data }
}

impl<T: Scalar> Tensor<T> {
    /// A tensor of the given shape with every element equal to `x`.
    pub fn filled(shape: &Vec<usize>, x: T) -> (r: Result<Self, ShapeError>)
        ensures
            match r {
                Ok(t) => {
                    &&& t.wf()
                    &&& t.shape_view() == shape@
                    &&& t.data_view() =~= Seq::new(volume(shape@) as nat, |i: int| x)
                },
                Err(ShapeError::EmptyDim) => !dims_positive(shape@),
                Err(ShapeError::TooLarge) => dims_positive(shape@) && volume(shape@) > usize::MAX,
                Err(ShapeError::Mismatch) => false,
            },
    {
        match checked_volume(shape) {
            Ok(v) => Ok(filled_for(shape, x)),
            Err(e) => Err(e),
        }
    }

    /// A tensor of the given shape, all zero.
    pub fn zeros(shape: &Vec<usize>) -> (r: Result<Self, ShapeError>)
        ensures
            match r {
                Ok(t) => {
                    &&& t.wf()
                    &&& t.shape_view() == shape@
                    &&& t.data_view() =~= Seq::new(volume(shape@) as nat, |i: int| T::spec_zero())
                },
                Err(ShapeError::EmptyDim) => !dims_positive(shape@),
                Err(ShapeError::TooLarge) => dims_positive(shape@) && volume(shape@) > usize::MAX,
                Err(ShapeError::Mismatch) => false,
            },
    {
        Self::filled(shape, T::zero_val())
    }

    /// Wraps a flat buffer under a shape.
    pub fn from_vec(shape: Vec<usize>, data: Vec<T>) -> (r: Result<Self, ShapeError>)
        ensures
            match r {
                Ok(t) => {
                    &&& t.wf()
                    &&& t.shape_view() == shape@
                    &&& t.data_view() == data@
                    &&& data@.len() == volume(shape@)
                    &&& dims_positive(shape@)
                },
                Err(ShapeError::EmptyDim) => !dims_positive(shape@),
                Err(ShapeError::TooLarge) => dims_positive(shape@) && volume(shape@) > usize::MAX,
                Err(ShapeError::Mismatch) => dims_positive(shape@) && volume(shape@)
                    <= usize::MAX && data@.len() != volume(shape@),
            },
    {
        let v = match checked_volume(&shape) {
            Ok(v) => v,
            Err(e) => {
                return Err(e);
            },
        };
        if data.len() != v {
            return Err(ShapeError::Mismatch);
        }
        Ok(Tensor { shape, data })
    }
}

} // verus!
