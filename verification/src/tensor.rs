//! Tensors of single-precision numbers.
//!
//! Layout: row-major, the last axis contiguous.
//!
//! Products of matrices have one convention: activations [seq, in] times weights [out, in] give
//! [seq, out], where each number is the dot product of an activation row and a weight row. This is
//! how model files store weights, so no weight is ever transposed.

use rayon::iter::{IndexedParallelIterator, ParallelIterator};
use rayon::slice::ParallelSliceMut;
use vstd::prelude::*;

use crate::error::{ErrorView, FurnaceError};
use crate::float::{greater, greater_of, negate, negated, Arithmetic, NEGATIVE_INFINITY, ONE, ZERO};
use crate::gguf::{elements, GgufFile};
use crate::perf::Op;
use crate::quant::{dequantize, dequantized};

verus! {

/// A piece of parallel work covers this many outputs.
pub const CHUNK: usize = 64;

// ---------------------------------------------------------------------------
// Shapes.
// ---------------------------------------------------------------------------

/// How many numbers a shape holds.
pub open spec fn volume(shape: Seq<usize>) -> nat
    decreases shape.len(),
{
    if shape.len() == 0 {
        1
    } else {
        volume(shape.drop_last()) * shape.last() as nat
    }
}

/// The product of the dimensions from `i` on.
pub open spec fn volume_from(shape: Seq<usize>, i: int) -> nat
    decreases shape.len() - i,
{
    if i >= shape.len() || i < 0 {
        1
    } else {
        shape[i] as nat * volume_from(shape, i + 1)
    }
}

/// How far apart the neighbours along each axis lie.
pub open spec fn strides_of(shape: Seq<usize>) -> Seq<usize> {
    Seq::new(shape.len(), |i: int| volume_from(shape, i + 1) as usize)
}

/// Whether the products of the first dimensions and those of the last fit in a machine word.
pub open spec fn shape_fits(shape: Seq<usize>) -> bool {
    &&& forall|i: int| 0 <= i <= shape.len() ==> volume(#[trigger] shape.take(i)) <= usize::MAX
    &&& forall|i: int| 1 <= i <= shape.len() ==> #[trigger] volume_from(shape, i) <= usize::MAX
}

/// The shape of a vector.
pub proof fn lemma_shape1(n: usize)
    ensures
        volume(seq![n]) == n,
        shape_fits(seq![n]),
{
    let s = seq![n];
    reveal_with_fuel(volume, 2);
    reveal_with_fuel(volume_from, 2);
    assert(s.drop_last() =~= Seq::<usize>::empty());
    assert(volume(Seq::<usize>::empty()) == 1);
    assert(volume(s) == 1nat * (n as nat));
    assert(1nat * (n as nat) == n as nat) by (nonlinear_arith);
    assert forall|i: int| 0 <= i <= s.len() implies volume(#[trigger] s.take(i)) <= usize::MAX by {
        if i == 0 {
            assert(s.take(0) =~= seq![]);
        } else {
            assert(s.take(1) =~= s);
        }
    }
}

/// The shape of a matrix.
pub proof fn lemma_shape2(n: usize, m: usize)
    ensures
        volume(seq![n, m]) == n * m,
        n * m <= usize::MAX ==> shape_fits(seq![n, m]),
        shape_fits(seq![n, m]) ==> n * m <= usize::MAX,
{
    let s = seq![n, m];
    lemma_shape1(n);
    assert(s.drop_last() =~= seq![n]);
    assert(volume(s) == n as nat * m as nat);
    reveal_with_fuel(volume_from, 3);
    assert(volume_from(s, 2) == 1);
    assert(volume_from(s, 1) == m as nat * volume_from(s, 2));
    assert(s.take(2) =~= s);
    assert(s.take(1) =~= seq![n]);
    assert(s.take(0) =~= seq![]);
    if n * m <= usize::MAX {
        assert forall|i: int| 0 <= i <= s.len() implies volume(#[trigger] s.take(i)) <= usize::MAX by {
            assert(i == 0 || i == 1 || i == 2);
        }
        assert forall|i: int| 1 <= i <= s.len() implies #[trigger] volume_from(s, i) <= usize::MAX by {
            assert(i == 1 || i == 2);
        }
    }
}

/// The shape of a list of matrices.
pub proof fn lemma_shape3(a: usize, b: usize, c: usize)
    ensures
        volume(seq![a, b, c]) == a * b * c,
        a * b <= usize::MAX && b * c <= usize::MAX && a * b * c <= usize::MAX ==> shape_fits(seq![a, b, c]),
{
    let s = seq![a, b, c];
    lemma_shape2(a, b);
    lemma_shape1(a);
    assert(s.drop_last() =~= seq![a, b]);
    assert(volume(s) == (a * b) as nat * c as nat);
    reveal_with_fuel(volume_from, 4);
    assert(volume_from(s, 3) == 1);
    assert(volume_from(s, 2) == c as nat * volume_from(s, 3));
    assert(volume_from(s, 1) == b as nat * volume_from(s, 2));
    assert(s.take(3) =~= s);
    assert(s.take(2) =~= seq![a, b]);
    assert(s.take(1) =~= seq![a]);
    assert(s.take(0) =~= seq![]);
    if a * b <= usize::MAX && b * c <= usize::MAX && a * b * c <= usize::MAX {
        assert forall|i: int| 0 <= i <= s.len() implies volume(#[trigger] s.take(i)) <= usize::MAX by {
            assert(i == 0 || i == 1 || i == 2 || i == 3);
        }
        assert forall|i: int| 1 <= i <= s.len() implies #[trigger] volume_from(s, i) <= usize::MAX by {
            assert(i == 1 || i == 2 || i == 3);
        }
    }
}

/// How many numbers a shape holds.
fn volume_of(shape: &[usize]) -> (r: usize)
    requires
        forall|i: int| 0 <= i <= shape@.len() ==> volume(#[trigger] shape@.take(i)) <= usize::MAX,
    ensures
        r == volume(shape@),
{
    let mut n: usize = 1;
    let mut i: usize = 0;
    assert(shape@.take(0) =~= seq![]);
    while i < shape.len()
        invariant
            i <= shape@.len(),
            n == volume(shape@.take(i as int)),
            forall|k: int| 0 <= k <= shape@.len() ==> volume(#[trigger] shape@.take(k)) <= usize::MAX,
        decreases shape@.len() - i,
    {
        assert(shape@.take(i + 1).drop_last() =~= shape@.take(i as int));
        assert(volume(shape@.take(i + 1)) <= usize::MAX);
        n = n * shape[i];
        i = i + 1;
    }
    assert(shape@.take(i as int) =~= shape@);
    n
}

/// Whether a shape fits.
pub fn check_shape(shape: &[usize]) -> (r: bool)
    ensures
        r == shape_fits(shape@),
{
    let mut n: usize = 1;
    let mut i: usize = 0;
    assert(shape@.take(0) =~= seq![]);
    while i < shape.len()
        invariant
            i <= shape@.len(),
            n == volume(shape@.take(i as int)),
            forall|k: int| 0 <= k <= i ==> volume(#[trigger] shape@.take(k)) <= usize::MAX,
        decreases shape@.len() - i,
    {
        assert(shape@.take(i + 1).drop_last() =~= shape@.take(i as int));
        match n.checked_mul(shape[i]) {
            Some(m) => {
                n = m;
            },
            None => {
                assert(volume(shape@.take(i + 1)) > usize::MAX);
                return false;
            },
        }
        i = i + 1;
    }
    if shape.len() == 0 {
        return true;
    }
    let mut tail: usize = 1;
    let mut j: usize = shape.len();
    while j > 1
        invariant
            1 <= j <= shape@.len(),
            tail == volume_from(shape@, j as int),
            forall|k: int| j <= k <= shape@.len() ==> #[trigger] volume_from(shape@, k) <= usize::MAX,
            forall|k: int| 0 <= k <= shape@.len() ==> volume(#[trigger] shape@.take(k)) <= usize::MAX,
        decreases j,
    {
        match shape[j - 1].checked_mul(tail) {
            Some(m) => {
                tail = m;
            },
            None => {
                assert(volume_from(shape@, j - 1) > usize::MAX);
                return false;
            },
        }
        j = j - 1;
    }
    true
}

/// How far apart the neighbours along each axis lie.
fn row_major_strides(shape: &[usize]) -> (r: Vec<usize>)
    requires
        shape_fits(shape@),
    ensures
        r@ == strides_of(shape@),
{
    let mut strides: Vec<usize> = vec![1; shape.len()];
    if shape.len() > 0 {
        let mut i: usize = shape.len() - 1;
        assert(volume_from(shape@, shape@.len() as int) == 1);
        while i > 0
            invariant
                i < shape@.len(),
                shape_fits(shape@),
                strides@.len() == shape@.len(),
                forall|k: int| i <= k < shape@.len() ==> #[trigger] strides@[k] == volume_from(shape@, k + 1),
            decreases i,
        {
            assert(volume_from(shape@, i as int) <= usize::MAX);
            assert(volume_from(shape@, i as int) == shape@[i as int] as nat * volume_from(shape@, i + 1));
            assert(strides@[i as int] == volume_from(shape@, i + 1));
            assert(shape@[i as int] as nat * volume_from(shape@, i + 1) == volume_from(shape@, i + 1) * shape@[i as int]) by (nonlinear_arith);
            strides[i - 1] = strides[i] * shape[i];
            i = i - 1;
        }
    }
    assert(strides@ =~= strides_of(shape@));
    strides
}

// ---------------------------------------------------------------------------
// Tensors.
// ---------------------------------------------------------------------------

/// Numbers in a shape.
#[derive(Debug)]
pub struct Tensor {
    pub data: Vec<u32>,
    pub shape: Vec<usize>,
    pub strides: Vec<usize>,
}

/// The data as `n` rows of `cols` numbers.
pub open spec fn rows(data: Seq<u32>, n: int, cols: int) -> Seq<Seq<u32>> {
    Seq::new(n as nat, |r: int| row(data, r, cols))
}

/// One row of `cols` numbers.
pub open spec fn row(data: Seq<u32>, r: int, cols: int) -> Seq<u32> {
    data.subrange(r * cols, (r + 1) * cols)
}

/// A row lies within the data.
pub proof fn lemma_row_bounds(r: int, n: int, cols: int)
    requires
        0 <= r < n,
        0 <= cols,
    ensures
        0 <= r * cols,
        r * cols + cols == (r + 1) * cols,
        (r + 1) * cols <= n * cols,
{
    assert(0 <= r * cols) by (nonlinear_arith)
        requires
            0 <= r,
            0 <= cols,
    ;
    assert(r * cols + cols == (r + 1) * cols) by (nonlinear_arith);
    assert((r + 1) * cols <= n * cols) by (nonlinear_arith)
        requires
            r + 1 <= n,
            0 <= cols,
    ;
}

/// One row of `cols` numbers.
pub fn row_slice(data: &[u32], r: usize, cols: usize) -> (s: &[u32])
    requires
        (r + 1) * cols <= data@.len(),
    ensures
        s@ == row(data@, r as int, cols as int),
        s@.len() == cols,
{
    proof {
        lemma_row_bounds(r as int, r + 1, cols as int);
        assert(data.len() == data@.len());
    }
    let start: usize = r * cols;
    vstd::slice::slice_subrange(data, start, start + cols)
}

/// Data with one more row.
pub proof fn lemma_push_row(data: Seq<u32>, n: int, cols: int, more: Seq<u32>)
    requires
        0 <= n,
        data.len() == n * cols,
        more.len() == cols,
    ensures
        (data + more).len() == (n + 1) * cols,
        rows(data + more, n + 1, cols) == rows(data, n, cols).push(more),
{
    let all = data + more;
    lemma_row_bounds(n, n + 1, cols);
    assert forall|r: int| 0 <= r < n + 1 implies #[trigger] rows(all, n + 1, cols)[r] == rows(data, n, cols).push(more)[r] by {
        if r < n {
            lemma_row_bounds(r, n, cols);
            assert(row(all, r, cols) =~= row(data, r, cols));
        } else {
            assert(row(all, n, cols) =~= more);
        }
    }
    assert(rows(all, n + 1, cols) =~= rows(data, n, cols).push(more));
}

/// Data are determined by their rows: what is said of a matrix is said of its data.
pub proof fn lemma_rows_injective(a: Seq<u32>, b: Seq<u32>, n: int, cols: int)
    requires
        0 <= n,
        0 < cols,
        a.len() == n * cols,
        b.len() == n * cols,
        rows(a, n, cols) == rows(b, n, cols),
    ensures
        a == b,
{
    assert forall|i: int| 0 <= i < a.len() implies a[i] == b[i] by {
        let r = i / cols;
        let c = i % cols;
        assert(i == r * cols + c && 0 <= c < cols && 0 <= r < n) by (nonlinear_arith)
            requires
                0 <= i < n * cols,
                r == i / cols,
                c == i % cols,
                0 < cols,
        ;
        lemma_row_bounds(r, n, cols);
        assert(rows(a, n, cols)[r] == rows(b, n, cols)[r]);
        assert(row(a, r, cols)[c] == row(b, r, cols)[c]);
    }
    assert(a =~= b);
}

impl Tensor {
    /// Whether the data fill the shape.
    pub open spec fn wf(self) -> bool {
        &&& shape_fits(self.shape@)
        &&& self.data@.len() == volume(self.shape@)
        &&& self.strides@ == strides_of(self.shape@)
    }

    /// Whether this is a matrix of this shape.
    pub open spec fn is_matrix(self, n: int, cols: int) -> bool {
        &&& self.wf()
        &&& self.shape@.len() == 2
        &&& self.shape@[0] == n
        &&& self.shape@[1] == cols
    }

    /// The rows of a matrix.
    pub open spec fn matrix(self) -> Seq<Seq<u32>> {
        rows(self.data@, self.shape@[0] as int, self.shape@[1] as int)
    }

    /// How much a matrix holds.
    pub proof fn lemma_matrix(self)
        requires
            self.wf(),
            self.shape@.len() == 2,
        ensures
            self.data@.len() == self.shape@[0] * self.shape@[1],
            self.data@.len() <= usize::MAX,
            forall|r: int| 0 <= r < self.shape@[0] ==> (#[trigger] self.matrix()[r]).len() == self.shape@[1],
    {
        let n = self.shape@[0];
        let m = self.shape@[1];
        assert(self.shape@ =~= seq![n, m]);
        lemma_shape2(n, m);
        assert forall|r: int| 0 <= r < n implies (#[trigger] self.matrix()[r]).len() == m by {
            lemma_row_bounds(r, n as int, m as int);
        }
    }

    /// A tensor of zeros.
    pub fn zeros(shape: Vec<usize>) -> (r: Tensor)
        requires
            shape_fits(shape@),
        ensures
            r.wf(),
            r.shape == shape,
            forall|i: int| 0 <= i < r.data@.len() ==> #[trigger] r.data@[i] == ZERO,
    {
        let n: usize = volume_of(shape.as_slice());
        let strides: Vec<usize> = row_major_strides(shape.as_slice());
        Tensor { data: vec![ZERO; n], strides, shape }
    }

    /// The numbers in this shape.
    pub fn from_vec(data: Vec<u32>, shape: Vec<usize>) -> (r: Tensor)
        requires
            shape_fits(shape@),
            data@.len() == volume(shape@),
        ensures
            r.wf(),
            r.data == data,
            r.shape == shape,
    {
        let strides: Vec<usize> = row_major_strides(shape.as_slice());
        Tensor { data, strides, shape }
    }

    /// How many numbers the shape holds.
    pub fn numel(&self) -> (r: usize)
        requires
            self.wf(),
        ensures
            r == volume(self.shape@),
            r == self.data@.len(),
    {
        volume_of(self.shape.as_slice())
    }

    /// The number of rows along the last axis, and their length.
    fn rows(&self) -> (r: (usize, usize))
        requires
            self.wf(),
            self.shape@.len() > 0,
            self.shape@.last() > 0,
        ensures
            r.1 == self.shape@.last(),
            r.0 == self.data@.len() as int / r.1 as int,
            r.0 * r.1 == self.data@.len(),
    {
        let cols: usize = self.shape[self.shape.len() - 1];
        let n: usize = self.numel();
        proof {
            let before = volume(self.shape@.drop_last());
            assert(n as nat == before * cols as nat);
            assert(n as int / cols as int == before && (n as int / cols as int) * cols == n) by (nonlinear_arith)
                requires
                    n == before * cols,
                    cols > 0,
            ;
        }
        (n / cols, cols)
    }
}

/// The same shape again.
pub fn copy_shape(shape: &[usize]) -> (r: Vec<usize>)
    ensures
        r@ == shape@,
{
    vstd::slice::slice_to_vec(shape)
}

// ---------------------------------------------------------------------------
// Tensors of a model file.
// ---------------------------------------------------------------------------

/// A tensor's numbers and shape.
pub struct TensorView {
    pub data: Seq<u32>,
    pub shape: Seq<usize>,
}

impl View for Tensor {
    type V = TensorView;

    open spec fn view(&self) -> TensorView {
        TensorView { data: self.data@, shape: self.shape@ }
    }
}

/// The dimensions in row-major order: those of a file, reversed.
pub open spec fn reversed(dims: Seq<u64>) -> Seq<usize> {
    Seq::new(dims.len(), |i: int| dims[dims.len() - 1 - i] as usize)
}

/// The tensor with this name in a file, decoded.
pub open spec fn loaded<F: Arithmetic>(f: &F, file: &GgufFile, name: Seq<char>) -> Result<TensorView, ErrorView> {
    match file.tensor_data(name) {
        Err(e) => Err(e),
        Ok((info, raw)) => match dequantized(f, info.dtype, raw, (elements(info.dims) as u64) as usize) {
            Err(e) => Err(e),
            Ok(data) => if !shape_fits(reversed(info.dims)) || volume(reversed(info.dims)) != data.len() {
                Err(ErrorView::SizeOverflow)
            } else {
                Ok(TensorView { data, shape: reversed(info.dims) })
            },
        },
    }
}

/// A shape with one more dimension in front.
proof fn lemma_volume_front(n: usize, shape: Seq<usize>)
    ensures
        volume(seq![n] + shape) == n * volume(shape),
    decreases shape.len(),
{
    let all = seq![n] + shape;
    if shape.len() == 0 {
        assert(all =~= seq![n]);
        lemma_shape1(n);
        assert(n * 1 == n) by (nonlinear_arith);
    } else {
        lemma_volume_front(n, shape.drop_last());
        assert(all.drop_last() =~= seq![n] + shape.drop_last());
        let v = volume(shape.drop_last());
        let last = shape.last() as nat;
        assert((n * v) * last == n * (v * last)) by (nonlinear_arith);
    }
}

/// Reversed dimensions hold as many numbers, where each fits in a machine word.
pub proof fn lemma_reversed(dims: Seq<u64>)
    requires
        forall|i: int| 0 <= i < dims.len() ==> #[trigger] dims[i] <= usize::MAX,
    ensures
        volume(reversed(dims)) == elements(dims),
    decreases dims.len(),
{
    if dims.len() > 0 {
        let rest = dims.drop_last();
        lemma_reversed(rest);
        let last = dims.last() as usize;
        assert(dims[dims.len() - 1] <= usize::MAX);
        assert(reversed(dims) =~= seq![last] + reversed(rest));
        lemma_volume_front(last, reversed(rest));
        assert(last * elements(rest) == elements(rest) * dims.last() as nat) by (nonlinear_arith)
            requires
                last == dims.last(),
        ;
    } else {
        assert(reversed(dims) =~= seq![]);
    }
}

impl Tensor {
    /// Reads and decodes a tensor of a file. Files list the fastest-varying dimension first, so the
    /// shape is their list reversed, and the data stay where they are.
    pub fn from_gguf<F: Arithmetic>(f: &F, file: &GgufFile, name: &str) -> (r: Result<Tensor, FurnaceError>)
        requires
            f.wf(),
            file.wf(),
        ensures
            match r {
                Ok(t) => t.wf() && loaded(f, file, name@) == Ok::<_, ErrorView>(t@),
                Err(e) => loaded(f, file, name@) == Err::<TensorView, _>(e@),
            },
    {
        let (info, raw) = match file.tensor(name) {
            Ok(found) => found,
            Err(e) => return Err(e),
        };
        let n: usize = info.n_elements();
        let data: Vec<u32> = match dequantize(f, info.dtype, raw, n) {
            Ok(data) => data,
            Err(e) => return Err(e),
        };
        let mut shape: Vec<usize> = Vec::new();
        let mut i: usize = 0;
        let count: usize = info.dims.len();
        while i < count
            invariant
                i <= count,
                count == info.dims@.len(),
                shape@.len() == i,
                forall|k: int| 0 <= k < i ==> #[trigger] shape@[k] == reversed(info.dims@)[k],
            decreases count - i,
        {
            shape.push(info.dims[count - 1 - i] as usize);
            i = i + 1;
        }
        assert(shape@ =~= reversed(info.dims@));
        if !check_shape(shape.as_slice()) {
            return Err(FurnaceError::SizeOverflow);
        }
        proof {
            assert(shape@.take(shape@.len() as int) =~= shape@);
        }
        if volume_of(shape.as_slice()) != data.len() {
            return Err(FurnaceError::SizeOverflow);
        }
        Ok(Tensor::from_vec(data, shape))
    }
}

// ---------------------------------------------------------------------------
// Dot products.
// ---------------------------------------------------------------------------

/// Lane `j` of eight after `c` groups of eight products: every eighth product, added up.
pub open spec fn lane<F: Arithmetic>(f: &F, a: Seq<u32>, b: Seq<u32>, j: int, c: nat) -> u32
    decreases c,
{
    if c == 0 {
        ZERO
    } else {
        let i = 8 * (c - 1) + j;
        f.sum(lane(f, a, b, j, (c - 1) as nat), f.product(a[i], b[i]))
    }
}

/// The first `n` of these numbers, added up from left to right.
pub open spec fn total<F: Arithmetic>(f: &F, x: Seq<u32>, n: nat) -> u32
    decreases n,
{
    if n == 0 {
        ZERO
    } else {
        f.sum(total(f, x, (n - 1) as nat), x[n - 1])
    }
}

/// The products from `from` to `n`, added to `start` from left to right.
pub open spec fn products_added<F: Arithmetic>(f: &F, start: u32, a: Seq<u32>, b: Seq<u32>, from: int, n: int) -> u32
    decreases n - from,
{
    if n <= from {
        start
    } else {
        f.sum(products_added(f, start, a, b, from, n - 1), f.product(a[n - 1], b[n - 1]))
    }
}

/// The eight lanes after all whole groups.
pub open spec fn lanes<F: Arithmetic>(f: &F, a: Seq<u32>, b: Seq<u32>) -> Seq<u32> {
    Seq::new(8, |j: int| lane(f, a, b, j, (a.len() / 8) as nat))
}

/// The dot product: eight lanes, their sum, and to it the products that fill no group.
pub open spec fn dot_product<F: Arithmetic>(f: &F, a: Seq<u32>, b: Seq<u32>) -> u32 {
    let whole = (a.len() / 8) * 8;
    products_added(f, total(f, lanes(f, a, b), 8), a, b, whole as int, a.len() as int)
}

/// Multiplies two rows.
pub fn dot<F: Arithmetic>(f: &F, a: &[u32], b: &[u32]) -> (r: u32)
    requires
        f.wf(),
        a@.len() == b@.len(),
    ensures
        r == dot_product(f, a@, b@),
{
    let n: usize = a.len();
    let groups: usize = n / 8;
    let mut acc: [u32; 8] = [ZERO; 8];
    let mut c: usize = 0;
    while c < groups
        invariant
            c <= groups,
            groups == n / 8,
            n == a@.len(),
            n == b@.len(),
            n <= usize::MAX,
            f.wf(),
            forall|k: int| 0 <= k < 8 ==> #[trigger] acc@[k] == lane(f, a@, b@, k, c as nat),
        decreases groups - c,
    {
        let base: usize = 8 * c;
        let mut j: usize = 0;
        while j < 8
            invariant
                j <= 8,
                base == 8 * c,
                base + 8 <= n,
                n == a@.len(),
                n == b@.len(),
                f.wf(),
                forall|k: int| 0 <= k < j ==> #[trigger] acc@[k] == lane(f, a@, b@, k, (c + 1) as nat),
                forall|k: int| j <= k < 8 ==> #[trigger] acc@[k] == lane(f, a@, b@, k, c as nat),
            decreases 8 - j,
        {
            let term: u32 = f.times(a[base + j], b[base + j]);
            assert(acc@[j as int] == lane(f, a@, b@, j as int, c as nat));
            let more: u32 = f.plus(acc[j], term);
            acc[j] = more;
            j = j + 1;
        }
        c = c + 1;
    }
    let mut sum: u32 = ZERO;
    let mut j: usize = 0;
    while j < 8
        invariant
            j <= 8,
            f.wf(),
            n == a@.len(),
            forall|k: int| 0 <= k < 8 ==> #[trigger] acc@[k] == lanes(f, a@, b@)[k],
            sum == total(f, lanes(f, a@, b@), j as nat),
        decreases 8 - j,
    {
        sum = f.plus(sum, acc[j]);
        j = j + 1;
    }
    let mut i: usize = groups * 8;
    while i < n
        invariant
            groups * 8 <= i <= n,
            groups == n / 8,
            n == a@.len(),
            n == b@.len(),
            f.wf(),
            sum == products_added(f, total(f, lanes(f, a@, b@), 8), a@, b@, groups * 8, i as int),
        decreases n - i,
    {
        sum = f.plus(sum, f.times(a[i], b[i]));
        i = i + 1;
    }
    sum
}

/// The dot product with one sum, from left to right.
pub open spec fn plain_dot<F: Arithmetic>(f: &F, a: Seq<u32>, b: Seq<u32>) -> u32 {
    products_added(f, ZERO, a, b, 0, a.len() as int)
}

// ---------------------------------------------------------------------------
// Work in parallel.
// ---------------------------------------------------------------------------

/// Fills the chunk with this number, of chunks of this size.
fn fill_chunk<G: Fn(usize) -> u32>(index: usize, size: usize, chunk: &mut [u32], cell: &G)
    requires
        index * size + old(chunk)@.len() <= usize::MAX,
        forall|i: usize| index * size <= i < index * size + old(chunk)@.len() ==> call_requires(*cell, (i,)),
    ensures
        final(chunk)@.len() == old(chunk)@.len(),
        forall|j: int| 0 <= j < old(chunk)@.len() ==> call_ensures(*cell, ((index * size + j) as usize,), #[trigger] final(chunk)@[j]),
{
    let ghost n = chunk@.len();
    let base: usize = index * size;
    let mut j: usize = 0;
    while j < chunk.len()
        invariant
            base == index * size,
            chunk@.len() == n,
            n == old(chunk)@.len(),
            j <= n,
            index * size + n <= usize::MAX,
            forall|i: usize| index * size <= i < index * size + n ==> call_requires(*cell, (i,)),
            forall|k: int| 0 <= k < j ==> call_ensures(*cell, ((index * size + k) as usize,), #[trigger] chunk@[k]),
        decreases n - j,
    {
        let v: u32 = cell(base + j);
        chunk[j] = v;
        j = j + 1;
    }
}

/// Fills a slice in parallel, through `rayon`'s `par_chunks_mut`, `enumerate` and `for_each`: the
/// slice is cut into chunks of `size` numbers, of which the last may be shorter, and each is handed
/// once to `fill_chunk` with its number. So every place holds what the function gives for it.
#[verifier::external_body]
fn fill<G: Fn(usize) -> u32 + Sync>(out: &mut [u32], size: usize, cell: &G)
    requires
        size > 0,
        forall|i: usize| i < old(out)@.len() ==> call_requires(*cell, (i,)),
    ensures
        final(out)@.len() == old(out)@.len(),
        forall|i: usize| i < old(out)@.len() ==> call_ensures(*cell, (i,), #[trigger] final(out)@[i as int]),
{
    out.par_chunks_mut(size).enumerate().for_each(|(index, chunk)| fill_chunk(index, size, chunk, cell));
}

/// How one number of a matrix product comes about from an activation row.
pub trait RowKernel: Sync {
    /// Whether the weights have the right size.
    spec fn wf(&self) -> bool;

    /// How many numbers an activation row gives.
    spec fn height(&self) -> nat;

    /// How long an activation row is.
    spec fn width(&self) -> nat;

    /// The number for weight row `o`.
    spec fn value(&self, o: int, a: Seq<u32>) -> u32;

    /// Computes the number for weight row `o`.
    fn cell(&self, o: usize, a: &[u32]) -> (r: u32)
        requires
            self.wf(),
            o < self.height(),
            a@.len() == self.width(),
        ensures
            r == self.value(o as int, a@),
    ;
}

/// The product of activation rows with weights.
pub open spec fn kernel_product<K: RowKernel>(kernel: &K, x: Seq<Seq<u32>>) -> Seq<Seq<u32>> {
    Seq::new(x.len(), |s: int| Seq::new(kernel.height(), |o: int| kernel.value(o, x[s])))
}

/// Multiplies activation rows with weights. Each row is filled in parallel.
pub fn matmul_with<F: Arithmetic, K: RowKernel>(f: &F, a: &Tensor, d_out: usize, d_in: usize, kernel: &K) -> (r: Tensor)
    requires
        f.wf(),
        kernel.wf(),
        kernel.height() == d_out,
        kernel.width() == d_in,
        a.wf(),
        a.shape@.len() == 2,
        a.shape@[1] == d_in,
        a.shape@[0] * d_out <= usize::MAX,
    ensures
        r.is_matrix(a.shape@[0] as int, d_out as int),
        r.matrix() == kernel_product(kernel, a.matrix()),
{
    f.mark(Op::Matmul, true);
    let seq: usize = a.shape[0];
    let ghost x = a.matrix();
    let ghost all = kernel_product(kernel, x);
    proof {
        a.lemma_matrix();
    }
    let mut data: Vec<u32> = Vec::new();
    let mut s: usize = 0;
    assert(rows(data@, 0, d_out as int) =~= all.take(0));
    assert(0 * d_out == 0) by (nonlinear_arith);
    while s < seq
        invariant
            s <= seq,
            f.wf(),
            kernel.wf(),
            kernel.height() == d_out,
            kernel.width() == d_in,
            a.wf(),
            a.shape@.len() == 2,
            a.shape@[0] == seq,
            a.shape@[1] == d_in,
            a.data@.len() == seq * d_in,
            x == a.matrix(),
            all == kernel_product(kernel, x),
            data@.len() == s * d_out,
            rows(data@, s as int, d_out as int) == all.take(s as int),
        decreases seq - s,
    {
        proof {
            lemma_row_bounds(s as int, seq as int, d_in as int);
        }
        let a_row: &[u32] = row_slice(a.data.as_slice(), s, d_in);
        assert(a_row@ == x[s as int]);
        let cell = |o: usize| -> (v: u32)
            requires
                o < d_out,
            ensures
                v == kernel.value(o as int, a_row@),
            { kernel.cell(o, a_row) };
        let mut out: Vec<u32> = vec![ZERO; d_out];
        fill_vec(&mut out, CHUNK, &cell);
        assert(out@ =~= all[s as int]);
        proof {
            lemma_push_row(data@, s as int, d_out as int, out@);
            assert(all.take(s + 1) =~= all.take(s as int).push(all[s as int]));
        }
        data.append(&mut out);
        s = s + 1;
    }
    assert(all.take(seq as int) =~= all);
    let mut shape: Vec<usize> = Vec::new();
    shape.push(seq);
    shape.push(d_out);
    proof {
        assert(shape@ =~= seq![seq, d_out]);
        lemma_shape2(seq, d_out);
    }
    let r: Tensor = Tensor::from_vec(data, shape);
    f.mark(Op::Matmul, false);
    r
}

/// Fills a vector in parallel.
fn fill_vec<G: Fn(usize) -> u32 + Sync>(out: &mut Vec<u32>, size: usize, cell: &G)
    requires
        size > 0,
        forall|i: usize| i < old(out)@.len() ==> call_requires(*cell, (i,)),
    ensures
        final(out)@.len() == old(out)@.len(),
        forall|i: usize| i < old(out)@.len() ==> call_ensures(*cell, (i,), #[trigger] final(out)@[i as int]),
{
    fill(out.as_mut_slice(), size, cell);
}

/// Weights at full precision.
struct PlainKernel<'a, F> {
    f: &'a F,
    weights: &'a [u32],
    d_out: usize,
    d_in: usize,
}

impl<'a, F: Arithmetic> RowKernel for PlainKernel<'a, F> {
    closed spec fn wf(&self) -> bool {
        self.f.wf() && self.weights@.len() == self.d_out * self.d_in
    }

    closed spec fn height(&self) -> nat {
        self.d_out as nat
    }

    closed spec fn width(&self) -> nat {
        self.d_in as nat
    }

    closed spec fn value(&self, o: int, a: Seq<u32>) -> u32 {
        dot_product(self.f, a, row(self.weights@, o, self.d_in as int))
    }

    fn cell(&self, o: usize, a: &[u32]) -> (r: u32) {
        proof {
            lemma_row_bounds(o as int, self.d_out as int, self.d_in as int);
        }
        dot(self.f, a, row_slice(self.weights, o, self.d_in))
    }
}

/// The product of activation rows with weight rows.
pub open spec fn matrix_product<F: Arithmetic>(f: &F, x: Seq<Seq<u32>>, w: Seq<Seq<u32>>) -> Seq<Seq<u32>> {
    Seq::new(x.len(), |s: int| Seq::new(w.len(), |o: int| dot_product(f, x[s], w[o])))
}

/// [seq, in] times [out, in] gives [seq, out].
pub fn matmul<F: Arithmetic>(f: &F, a: &Tensor, w: &Tensor) -> (r: Tensor)
    requires
        f.wf(),
        a.wf(),
        a.shape@.len() == 2,
        w.wf(),
        w.shape@.len() == 2,
        a.shape@[1] == w.shape@[1],
        a.shape@[0] * w.shape@[0] <= usize::MAX,
    ensures
        r.is_matrix(a.shape@[0] as int, w.shape@[0] as int),
        r.matrix() == matrix_product(f, a.matrix(), w.matrix()),
{
    proof {
        w.lemma_matrix();
    }
    let kernel: PlainKernel<F> = PlainKernel { f, weights: w.data.as_slice(), d_out: w.shape[0], d_in: w.shape[1] };
    let r: Tensor = matmul_with(f, a, w.shape[0], w.shape[1], &kernel);
    proof {
        let x = a.matrix();
        assert forall|s: int| 0 <= s < x.len() implies #[trigger] kernel_product(&kernel, x)[s] == matrix_product(f, x, w.matrix())[s] by {
            assert(kernel_product(&kernel, x)[s] =~= matrix_product(f, x, w.matrix())[s]);
        }
        assert(kernel_product(&kernel, x) =~= matrix_product(f, x, w.matrix()));
    }
    r
}

// ---------------------------------------------------------------------------
// Row by row.
// ---------------------------------------------------------------------------

/// The squares of a row.
pub open spec fn squares<F: Arithmetic>(f: &F, x: Seq<u32>) -> Seq<u32> {
    Seq::new(x.len(), |i: int| f.product(x[i], x[i]))
}

/// One over the root of the mean square, with `eps` added below the root.
pub open spec fn inverse_rms<F: Arithmetic>(f: &F, x: Seq<u32>, eps: u32) -> u32 {
    let mean = f.quotient(total(f, squares(f, x), x.len()), f.natural(x.len() as usize));
    f.quotient(ONE, f.root(f.sum(mean, eps)))
}

/// A row divided by its root mean square, times the weights.
pub open spec fn normalized<F: Arithmetic>(f: &F, x: Seq<u32>, weight: Seq<u32>, eps: u32) -> Seq<u32> {
    let inv = inverse_rms(f, x, eps);
    Seq::new(x.len(), |i: int| f.product(f.product(x[i], inv), weight[i]))
}

/// Each row divided by its root mean square, times the weights.
pub open spec fn all_normalized<F: Arithmetic>(f: &F, x: Seq<Seq<u32>>, weight: Seq<u32>, eps: u32) -> Seq<Seq<u32>> {
    Seq::new(x.len(), |r: int| normalized(f, x[r], weight, eps))
}

/// Normalizes one row.
fn normalize_row<F: Arithmetic>(f: &F, x: &[u32], weight: &[u32], eps: u32) -> (r: Vec<u32>)
    requires
        f.wf(),
        weight@.len() == x@.len(),
    ensures
        r@ == normalized(f, x@, weight@, eps),
{
    let ghost sq = squares(f, x@);
    let mut sum: u32 = ZERO;
    let mut i: usize = 0;
    while i < x.len()
        invariant
            i <= x@.len(),
            f.wf(),
            sq == squares(f, x@),
            sum == total(f, sq, i as nat),
        decreases x@.len() - i,
    {
        sum = f.plus(sum, f.times(x[i], x[i]));
        i = i + 1;
    }
    let mean: u32 = f.over(sum, f.from_usize(x.len()));
    let inv: u32 = f.over(ONE, f.sqrt(f.plus(mean, eps)));
    let mut out: Vec<u32> = Vec::with_capacity(x.len());
    let mut k: usize = 0;
    while k < x.len()
        invariant
            k <= x@.len(),
            f.wf(),
            weight@.len() == x@.len(),
            out@.len() == k,
            forall|j: int| 0 <= j < k ==> #[trigger] out@[j] == f.product(f.product(x@[j], inv), weight@[j]),
        decreases x@.len() - k,
    {
        out.push(f.times(f.times(x[k], inv), weight[k]));
        k = k + 1;
    }
    assert(out@ =~= normalized(f, x@, weight@, eps));
    out
}

/// Normalizes each row along the last axis by its root mean square, and weights it.
pub fn rmsnorm<F: Arithmetic>(f: &F, x: &Tensor, weight: &Tensor, eps: u32) -> (r: Tensor)
    requires
        f.wf(),
        x.wf(),
        x.shape@.len() > 0,
        x.shape@.last() > 0,
        weight.wf(),
        weight.shape@ == seq![x.shape@.last()],
    ensures
        r.wf(),
        r.shape@ == x.shape@,
        rows(r.data@, x.data@.len() as int / x.shape@.last() as int, x.shape@.last() as int) == all_normalized(
            f,
            rows(x.data@, x.data@.len() as int / x.shape@.last() as int, x.shape@.last() as int),
            weight.data@,
            eps,
        ),
{
    let (n, cols): (usize, usize) = x.rows();
    f.mark(Op::Rmsnorm, true);
    proof {
        lemma_shape1(cols);
    }
    let ghost all = all_normalized(f, rows(x.data@, n as int, cols as int), weight.data@, eps);
    let mut data: Vec<u32> = Vec::with_capacity(x.data.len());
    let mut r: usize = 0;
    assert(rows(data@, 0, cols as int) =~= all.take(0));
    assert(0 * cols == 0) by (nonlinear_arith);
    while r < n
        invariant
            r <= n,
            f.wf(),
            n * cols == x.data@.len(),
            weight.data@.len() == cols,
            all == all_normalized(f, rows(x.data@, n as int, cols as int), weight.data@, eps),
            data@.len() == r * cols,
            rows(data@, r as int, cols as int) == all.take(r as int),
        decreases n - r,
    {
        proof {
            lemma_row_bounds(r as int, n as int, cols as int);
        }
        let mut out: Vec<u32> = normalize_row(f, row_slice(x.data.as_slice(), r, cols), weight.data.as_slice(), eps);
        proof {
            lemma_push_row(data@, r as int, cols as int, out@);
            assert(all.take(r + 1) =~= all.take(r as int).push(all[r as int]));
        }
        data.append(&mut out);
        r = r + 1;
    }
    assert(all.take(n as int) =~= all);
    let t: Tensor = Tensor::from_vec(data, copy_shape(x.shape.as_slice()));
    f.mark(Op::Rmsnorm, false);
    t
}

/// The greatest of the first `n` numbers, and negative infinity of none.
pub open spec fn greatest(x: Seq<u32>, n: nat) -> u32
    decreases n,
{
    if n == 0 {
        NEGATIVE_INFINITY
    } else {
        greater_of(greatest(x, (n - 1) as nat), x[n - 1])
    }
}

/// The exponentials of a row, its greatest number subtracted from each.
pub open spec fn shifted_exponentials<F: Arithmetic>(f: &F, x: Seq<u32>) -> Seq<u32> {
    let max = greatest(x, x.len());
    Seq::new(x.len(), |i: int| f.exponential(f.difference(x[i], max)))
}

/// A row as probabilities.
pub open spec fn softmaxed<F: Arithmetic>(f: &F, x: Seq<u32>) -> Seq<u32> {
    let e = shifted_exponentials(f, x);
    Seq::new(x.len(), |i: int| f.quotient(e[i], total(f, e, e.len())))
}

/// Each row as probabilities.
pub open spec fn all_softmaxed<F: Arithmetic>(f: &F, x: Seq<Seq<u32>>) -> Seq<Seq<u32>> {
    Seq::new(x.len(), |r: int| softmaxed(f, x[r]))
}

/// Turns one row into probabilities.
pub fn softmax_row<F: Arithmetic>(f: &F, x: &[u32]) -> (r: Vec<u32>)
    requires
        f.wf(),
    ensures
        r@ == softmaxed(f, x@),
{
    let mut max: u32 = NEGATIVE_INFINITY;
    let mut i: usize = 0;
    while i < x.len()
        invariant
            i <= x@.len(),
            max == greatest(x@, i as nat),
        decreases x@.len() - i,
    {
        max = greater(max, x[i]);
        i = i + 1;
    }
    let ghost e = shifted_exponentials(f, x@);
    let mut out: Vec<u32> = Vec::with_capacity(x.len());
    let mut sum: u32 = ZERO;
    let mut k: usize = 0;
    while k < x.len()
        invariant
            k <= x@.len(),
            f.wf(),
            max == greatest(x@, x@.len()),
            e == shifted_exponentials(f, x@),
            out@.len() == k,
            forall|j: int| 0 <= j < k ==> #[trigger] out@[j] == e[j],
            sum == total(f, e, k as nat),
        decreases x@.len() - k,
    {
        let v: u32 = f.exp(f.minus(x[k], max));
        sum = f.plus(sum, v);
        out.push(v);
        k = k + 1;
    }
    let mut k: usize = 0;
    while k < x.len()
        invariant
            k <= x@.len(),
            f.wf(),
            out@.len() == x@.len(),
            e.len() == x@.len(),
            sum == total(f, e, e.len()),
            forall|j: int| 0 <= j < k ==> #[trigger] out@[j] == f.quotient(e[j], sum),
            forall|j: int| k <= j < x@.len() ==> #[trigger] out@[j] == e[j],
        decreases x@.len() - k,
    {
        let v: u32 = f.over(out[k], sum);
        out[k] = v;
        k = k + 1;
    }
    assert(out@ =~= softmaxed(f, x@));
    out
}

/// Turns each row along the last axis into probabilities.
pub fn softmax<F: Arithmetic>(f: &F, x: &mut Tensor)
    requires
        f.wf(),
        old(x).wf(),
        old(x).shape@.len() > 0,
        old(x).shape@.last() > 0,
    ensures
        final(x).wf(),
        final(x).shape == old(x).shape,
        rows(final(x).data@, old(x).data@.len() as int / old(x).shape@.last() as int, old(x).shape@.last() as int) == all_softmaxed(
            f,
            rows(old(x).data@, old(x).data@.len() as int / old(x).shape@.last() as int, old(x).shape@.last() as int),
        ),
{
    f.mark(Op::Softmax, true);
    let (n, cols): (usize, usize) = x.rows();
    let ghost before = x.data@;
    let ghost all = all_softmaxed(f, rows(before, n as int, cols as int));
    let mut data: Vec<u32> = Vec::with_capacity(x.data.len());
    let mut r: usize = 0;
    assert(rows(data@, 0, cols as int) =~= all.take(0));
    assert(0 * cols == 0) by (nonlinear_arith);
    while r < n
        invariant
            r <= n,
            f.wf(),
            x == old(x),
            before == x.data@,
            n * cols == x.data@.len(),
            all == all_softmaxed(f, rows(before, n as int, cols as int)),
            data@.len() == r * cols,
            rows(data@, r as int, cols as int) == all.take(r as int),
        decreases n - r,
    {
        proof {
            lemma_row_bounds(r as int, n as int, cols as int);
        }
        let mut out: Vec<u32> = softmax_row(f, row_slice(x.data.as_slice(), r, cols));
        proof {
            lemma_push_row(data@, r as int, cols as int, out@);
            assert(all.take(r + 1) =~= all.take(r as int).push(all[r as int]));
        }
        data.append(&mut out);
        r = r + 1;
    }
    assert(all.take(n as int) =~= all);
    x.data = data;
    f.mark(Op::Softmax, false);
}

// ---------------------------------------------------------------------------
// Number by number.
// ---------------------------------------------------------------------------

/// `v` times the logistic function of `v`.
pub open spec fn silu_of<F: Arithmetic>(f: &F, v: u32) -> u32 {
    f.quotient(v, f.sum(ONE, f.exponential(negated(v))))
}

/// Takes `v` times the logistic function of `v`.
fn silu_value<F: Arithmetic>(f: &F, v: u32) -> (r: u32)
    requires
        f.wf(),
    ensures
        r == silu_of(f, v),
{
    f.over(v, f.plus(ONE, f.exp(negate(v))))
}

/// Each number times its logistic function.
pub fn silu<F: Arithmetic>(f: &F, x: &Tensor) -> (r: Tensor)
    requires
        f.wf(),
        x.wf(),
    ensures
        r.wf(),
        r.shape@ == x.shape@,
        r.data@ == Seq::new(x.data@.len(), |i: int| silu_of(f, x.data@[i])),
{
    let mut data: Vec<u32> = Vec::with_capacity(x.data.len());
    let mut i: usize = 0;
    while i < x.data.len()
        invariant
            i <= x.data@.len(),
            f.wf(),
            data@.len() == i,
            forall|j: int| 0 <= j < i ==> #[trigger] data@[j] == silu_of(f, x.data@[j]),
        decreases x.data@.len() - i,
    {
        data.push(silu_value(f, x.data[i]));
        i = i + 1;
    }
    assert(data@ =~= Seq::new(x.data@.len(), |j: int| silu_of(f, x.data@[j])));
    Tensor::from_vec(data, copy_shape(x.shape.as_slice()))
}

/// The first number, through `silu`, times the second.
pub open spec fn gated<F: Arithmetic>(f: &F, gate: u32, up: u32) -> u32 {
    f.product(silu_of(f, gate), up)
}

/// Each gate, through `silu`, times the number at its place.
pub fn swiglu<F: Arithmetic>(f: &F, gate: &Tensor, up: &Tensor) -> (r: Tensor)
    requires
        f.wf(),
        gate.wf(),
        up.wf(),
        gate.shape@ == up.shape@,
    ensures
        r.wf(),
        r.shape@ == gate.shape@,
        r.data@ == Seq::new(gate.data@.len(), |i: int| gated(f, gate.data@[i], up.data@[i])),
{
    f.mark(Op::Elementwise, true);
    let mut data: Vec<u32> = Vec::with_capacity(gate.data.len());
    let mut i: usize = 0;
    while i < gate.data.len()
        invariant
            i <= gate.data@.len(),
            gate.data@.len() == up.data@.len(),
            f.wf(),
            data@.len() == i,
            forall|j: int| 0 <= j < i ==> #[trigger] data@[j] == gated(f, gate.data@[j], up.data@[j]),
        decreases gate.data@.len() - i,
    {
        data.push(f.times(silu_value(f, gate.data[i]), up.data[i]));
        i = i + 1;
    }
    assert(data@ =~= Seq::new(gate.data@.len(), |j: int| gated(f, gate.data@[j], up.data@[j])));
    let r: Tensor = Tensor::from_vec(data, copy_shape(gate.shape.as_slice()));
    f.mark(Op::Elementwise, false);
    r
}

/// The sum of two tensors, number by number.
pub fn add<F: Arithmetic>(f: &F, a: &Tensor, b: &Tensor) -> (r: Tensor)
    requires
        f.wf(),
        a.wf(),
        b.wf(),
        a.shape@ == b.shape@,
    ensures
        r.wf(),
        r.shape@ == a.shape@,
        r.data@ == Seq::new(a.data@.len(), |i: int| f.sum(a.data@[i], b.data@[i])),
{
    f.mark(Op::Elementwise, true);
    let mut data: Vec<u32> = Vec::with_capacity(a.data.len());
    let mut i: usize = 0;
    while i < a.data.len()
        invariant
            i <= a.data@.len(),
            a.data@.len() == b.data@.len(),
            f.wf(),
            data@.len() == i,
            forall|j: int| 0 <= j < i ==> #[trigger] data@[j] == f.sum(a.data@[j], b.data@[j]),
        decreases a.data@.len() - i,
    {
        data.push(f.plus(a.data[i], b.data[i]));
        i = i + 1;
    }
    assert(data@ =~= Seq::new(a.data@.len(), |j: int| f.sum(a.data@[j], b.data@[j])));
    let r: Tensor = Tensor::from_vec(data, copy_shape(a.shape.as_slice()));
    f.mark(Op::Elementwise, false);
    r
}

/// The product of two tensors, number by number.
pub fn mul<F: Arithmetic>(f: &F, a: &Tensor, b: &Tensor) -> (r: Tensor)
    requires
        f.wf(),
        a.wf(),
        b.wf(),
        a.shape@ == b.shape@,
    ensures
        r.wf(),
        r.shape@ == a.shape@,
        r.data@ == Seq::new(a.data@.len(), |i: int| f.product(a.data@[i], b.data@[i])),
{
    let mut data: Vec<u32> = Vec::with_capacity(a.data.len());
    let mut i: usize = 0;
    while i < a.data.len()
        invariant
            i <= a.data@.len(),
            a.data@.len() == b.data@.len(),
            f.wf(),
            data@.len() == i,
            forall|j: int| 0 <= j < i ==> #[trigger] data@[j] == f.product(a.data@[j], b.data@[j]),
        decreases a.data@.len() - i,
    {
        data.push(f.times(a.data[i], b.data[i]));
        i = i + 1;
    }
    assert(data@ =~= Seq::new(a.data@.len(), |j: int| f.product(a.data@[j], b.data@[j])));
    Tensor::from_vec(data, copy_shape(a.shape.as_slice()))
}

} // verus!
