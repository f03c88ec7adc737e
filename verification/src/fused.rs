//! What a product with quantized weights has to do with the numbers that the weights decode to.

use vstd::prelude::*;

use crate::float::{Arithmetic, ZERO};
use crate::gguf::GgmlType;
use crate::model::lemma_row_alone;
use crate::quant::{block_at, block_dot, blocks_dot, blocks_of, decoded_blocks, dequantized, elements, fused_dot, fused_fits, fused_product, lemma_decoded_block, lemma_decoded_len, part_at, q8_0_numbers, row_bytes, scale_at, QK8_0};
use crate::tensor::{dot_product, lane, lanes, lemma_row_bounds, matrix_product, products_added, rows, total};
use crate::weights::WeightView;

verus! {

// ---------------------------------------------------------------------------
// Block by block.
// ---------------------------------------------------------------------------

/// The dot product of two rows, block by block: the dot products of the first `n` blocks, added up.
pub open spec fn grouped_dot<F: Arithmetic>(f: &F, a: Seq<u32>, w: Seq<u32>, elems: int, n: nat) -> u32
    decreases n,
{
    if n == 0 {
        ZERO
    } else {
        f.sum(grouped_dot(f, a, w, elems, (n - 1) as nat), dot_product(f, part_at(a, n - 1, elems), part_at(w, n - 1, elems)))
    }
}

/// Whether a number times this sum is the sum of the number times each part.
pub open spec fn distributes<F: Arithmetic>(f: &F, s: u32, x: u32, y: u32) -> bool {
    f.product(s, f.sum(x, y)) == f.sum(f.product(s, x), f.product(s, y))
}

/// Whether scaling the dot product of these rows, in eight lanes, is scaling the second row: nothing
/// is rounded differently. It is so with a scale that is a power of two, where nothing overflows or
/// underflows.
pub open spec fn scales_exactly<F: Arithmetic>(f: &F, s: u32, a: Seq<u32>, q: Seq<u32>) -> bool {
    &&& f.product(s, ZERO) == ZERO
    &&& forall|i: int| 0 <= i < a.len() ==> f.product(s, f.product(#[trigger] a[i], q[i])) == f.product(a[i], f.product(s, q[i]))
    &&& forall|j: int, c: int|
        0 <= j < 8 && 0 <= c < a.len() / 8 ==> distributes(
            f,
            s,
            #[trigger] lane(f, a, q, j, c as nat),
            f.product(a[8 * c + j], q[8 * c + j]),
        )
    &&& forall|k: int| 0 <= k < 8 ==> distributes(f, s, #[trigger] total(f, lanes(f, a, q), k as nat), lanes(f, a, q)[k])
}

/// A lane of products with scaled numbers.
proof fn lemma_scaled_lane<F: Arithmetic>(f: &F, s: u32, a: Seq<u32>, q: Seq<u32>, w: Seq<u32>, j: int, c: nat)
    requires
        scales_exactly(f, s, a, q),
        w.len() == a.len(),
        forall|i: int| 0 <= i < a.len() ==> #[trigger] w[i] == f.product(s, q[i]),
        0 <= j < 8,
        c <= a.len() / 8,
    ensures
        lane(f, a, w, j, c) == f.product(s, lane(f, a, q, j, c)),
    decreases c,
{
    if c > 0 {
        lemma_scaled_lane(f, s, a, q, w, j, (c - 1) as nat);
        let i = 8 * (c - 1) + j;
        assert(0 <= i < a.len());
        assert(distributes(f, s, lane(f, a, q, j, (c - 1) as nat), f.product(a[i], q[i])));
        assert(w[i] == f.product(s, q[i]));
        assert(f.product(s, f.product(a[i], q[i])) == f.product(a[i], w[i]));
    }
}

/// The sum of lanes of products with scaled numbers.
proof fn lemma_scaled_total<F: Arithmetic>(f: &F, s: u32, a: Seq<u32>, q: Seq<u32>, w: Seq<u32>, k: nat)
    requires
        scales_exactly(f, s, a, q),
        w.len() == a.len(),
        forall|i: int| 0 <= i < a.len() ==> #[trigger] w[i] == f.product(s, q[i]),
        k <= 8,
    ensures
        total(f, lanes(f, a, w), k) == f.product(s, total(f, lanes(f, a, q), k)),
    decreases k,
{
    if k > 0 {
        let m = (k - 1) as nat;
        lemma_scaled_total(f, s, a, q, w, m);
        lemma_scaled_lane(f, s, a, q, w, k - 1, (a.len() / 8) as nat);
        assert(distributes(f, s, total(f, lanes(f, a, q), m), lanes(f, a, q)[k - 1]));
    }
}

/// Whether the blocks of a row of weights scale exactly. Only Q8_0 blocks are scaled behind their dot
/// product.
pub open spec fn row_scales_exactly<F: Arithmetic>(f: &F, dtype: GgmlType, weights: Seq<u8>, a: Seq<u32>, n: nat) -> bool {
    dtype == GgmlType::Q8_0 ==> forall|b: int|
        0 <= b < n ==> {
            let block = #[trigger] block_at(weights, b, blocks_of(dtype)->Some_0.1 as int);
            scales_exactly(f, scale_at(f, block, 0), part_at(a, b, QK8_0 as int), q8_0_numbers(f, block))
        }
}

/// What one block adds to a product is the dot product with the numbers that it decodes to.
proof fn lemma_block_is_decoded<F: Arithmetic>(f: &F, dtype: GgmlType, block: Seq<u8>, a: Seq<u32>)
    requires
        blocks_of(dtype) is Some,
        a.len() == blocks_of(dtype)->Some_0.0,
        dtype == GgmlType::Q8_0 ==> scales_exactly(f, scale_at(f, block, 0), a, q8_0_numbers(f, block)),
    ensures
        block_dot(f, dtype, block, a) == dot_product(f, a, elements(f, dtype, block, blocks_of(dtype)->Some_0.0 as nat)),
{
    if dtype == GgmlType::Q8_0 {
        let w = elements(f, dtype, block, QK8_0 as nat);
        lemma_scaled_total(f, scale_at(f, block, 0), a, q8_0_numbers(f, block), w, 8);
        assert((a.len() / 8) * 8 == a.len());
    }
}

/// A product with quantized weights is the product with the numbers that the weights decode to, block
/// by block.
pub proof fn lemma_fused_is_decoded<F: Arithmetic>(f: &F, dtype: GgmlType, weights: Seq<u8>, a: Seq<u32>, n: nat, k: nat)
    requires
        blocks_of(dtype) is Some,
        k <= n,
        n * blocks_of(dtype)->Some_0.0 <= a.len(),
        row_scales_exactly(f, dtype, weights, a, n),
    ensures
        blocks_dot(f, dtype, weights, a, k) == grouped_dot(
            f,
            a,
            decoded_blocks(f, dtype, weights, n),
            blocks_of(dtype)->Some_0.0 as int,
            k,
        ),
    decreases k,
{
    if k > 0 {
        let (elems, bytes) = blocks_of(dtype)->Some_0;
        lemma_fused_is_decoded(f, dtype, weights, a, n, (k - 1) as nat);
        lemma_decoded_block(f, dtype, weights, n, k - 1);
        lemma_row_bounds(k - 1, n as int, elems as int);
        let block = block_at(weights, k - 1, bytes as int);
        lemma_block_is_decoded(f, dtype, block, part_at(a, k - 1, elems as int));
    }
}

// ---------------------------------------------------------------------------
// All at once.
// ---------------------------------------------------------------------------

/// Whether the order of additions does not matter.
#[verifier::opaque]
pub open spec fn order_is_free<F: Arithmetic>(f: &F) -> bool {
    &&& forall|x: u32| #[trigger] f.sum(x, ZERO) == x
    &&& forall|x: u32, y: u32| #[trigger] f.sum(x, y) == f.sum(y, x)
    &&& forall|x: u32, y: u32, z: u32| #[trigger] f.sum(f.sum(x, y), z) == f.sum(x, f.sum(y, z))
}

/// Sums may be grouped otherwise.
proof fn lemma_regroup<F: Arithmetic>(f: &F, x: u32, y: u32, z: u32)
    requires
        order_is_free(f),
    ensures
        f.sum(f.sum(x, y), z) == f.sum(x, f.sum(y, z)),
        f.sum(x, y) == f.sum(y, x),
        f.sum(x, ZERO) == x,
        f.sum(ZERO, x) == x,
{
    reveal(order_is_free);
}

/// Two sums of two, added up, are the sums of the firsts and of the seconds, added up.
proof fn lemma_crosswise<F: Arithmetic>(f: &F, a: u32, b: u32, c: u32, d: u32)
    requires
        order_is_free(f),
    ensures
        f.sum(f.sum(a, b), f.sum(c, d)) == f.sum(f.sum(a, c), f.sum(b, d)),
{
    lemma_regroup(f, a, b, f.sum(c, d));
    lemma_regroup(f, b, c, d);
    lemma_regroup(f, c, b, d);
    lemma_regroup(f, a, c, f.sum(b, d));
}

/// Products that are added to a number are added up, and then added to it.
proof fn lemma_added_behind<F: Arithmetic>(f: &F, start: u32, a: Seq<u32>, b: Seq<u32>, from: int, n: int)
    requires
        order_is_free(f),
    ensures
        products_added(f, start, a, b, from, n) == f.sum(start, products_added(f, ZERO, a, b, from, n)),
    decreases n - from,
{
    if n <= from {
        lemma_regroup(f, start, ZERO, ZERO);
    } else {
        lemma_added_behind(f, start, a, b, from, n - 1);
        lemma_regroup(f, start, products_added(f, ZERO, a, b, from, n - 1), f.product(a[n - 1], b[n - 1]));
    }
}

/// Products are added up to some place, and on from there.
proof fn lemma_added_on<F: Arithmetic>(f: &F, start: u32, a: Seq<u32>, b: Seq<u32>, from: int, mid: int, n: int)
    requires
        from <= mid <= n,
    ensures
        products_added(f, start, a, b, from, n) == products_added(f, products_added(f, start, a, b, from, mid), a, b, mid, n),
    decreases n - mid,
{
    if mid < n {
        lemma_added_on(f, start, a, b, from, mid, n - 1);
    }
}

/// The products of parts of two rows are those of the rows, at their places.
proof fn lemma_added_parts<F: Arithmetic>(f: &F, start: u32, a: Seq<u32>, b: Seq<u32>, at: int, len: int, n: int)
    requires
        0 <= at,
        0 <= n <= len,
        at + len <= a.len(),
        at + len <= b.len(),
    ensures
        products_added(f, start, a.subrange(at, at + len), b.subrange(at, at + len), 0, n) == products_added(f, start, a, b, at, at + n),
    decreases n,
{
    if n > 0 {
        lemma_added_parts(f, start, a, b, at, len, n - 1);
    }
}

/// The lanes after some groups.
spec fn lanes_at<F: Arithmetic>(f: &F, a: Seq<u32>, b: Seq<u32>, c: nat) -> Seq<u32> {
    Seq::new(8, |j: int| lane(f, a, b, j, c))
}

/// The first lanes after no group are zero.
proof fn lemma_no_group<F: Arithmetic>(f: &F, a: Seq<u32>, b: Seq<u32>, k: nat)
    requires
        order_is_free(f),
        k <= 8,
    ensures
        total(f, lanes_at(f, a, b, 0), k) == ZERO,
    decreases k,
{
    if k > 0 {
        lemma_no_group(f, a, b, (k - 1) as nat);
        lemma_regroup(f, ZERO, ZERO, ZERO);
    }
}

/// What one more group adds to the first lanes.
proof fn lemma_one_group<F: Arithmetic>(f: &F, a: Seq<u32>, b: Seq<u32>, c: nat, k: nat)
    requires
        order_is_free(f),
        k <= 8,
    ensures
        total(f, lanes_at(f, a, b, (c + 1) as nat), k) == f.sum(
            total(f, lanes_at(f, a, b, c), k),
            products_added(f, ZERO, a, b, 8 * c as int, 8 * c + k as int),
        ),
    decreases k,
{
    if k == 0 {
        lemma_regroup(f, ZERO, ZERO, ZERO);
    } else {
        let m = (k - 1) as nat;
        lemma_one_group(f, a, b, c, m);
        let i = 8 * c + m;
        lemma_crosswise(
            f,
            total(f, lanes_at(f, a, b, c), m),
            products_added(f, ZERO, a, b, 8 * c as int, i as int),
            lane(f, a, b, m as int, c),
            f.product(a[i as int], b[i as int]),
        );
    }
}

/// The lanes of whole groups hold the products, added up.
proof fn lemma_groups<F: Arithmetic>(f: &F, a: Seq<u32>, b: Seq<u32>, c: nat)
    requires
        order_is_free(f),
    ensures
        total(f, lanes_at(f, a, b, c), 8) == products_added(f, ZERO, a, b, 0, 8 * c as int),
    decreases c,
{
    if c == 0 {
        lemma_no_group(f, a, b, 8);
    } else {
        let m = (c - 1) as nat;
        let at = 8 * m as int;
        lemma_groups(f, a, b, m);
        lemma_one_group(f, a, b, m, 8);
        lemma_added_behind(f, products_added(f, ZERO, a, b, 0, at), a, b, at, at + 8);
        lemma_added_on(f, ZERO, a, b, 0, at, at + 8);
    }
}

/// Where the order of additions does not matter, the dot product in lanes is the one from left to
/// right.
pub proof fn lemma_lanes_are_plain<F: Arithmetic>(f: &F, a: Seq<u32>, b: Seq<u32>)
    requires
        order_is_free(f),
    ensures
        dot_product(f, a, b) == products_added(f, ZERO, a, b, 0, a.len() as int),
{
    let c = (a.len() / 8) as nat;
    assert(lanes(f, a, b) =~= lanes_at(f, a, b, c));
    lemma_groups(f, a, b, c);
    lemma_added_on(f, ZERO, a, b, 0, 8 * c as int, a.len() as int);
}

/// Where the order of additions does not matter, the dot product block by block is the one from left
/// to right.
proof fn lemma_grouped_is_plain<F: Arithmetic>(f: &F, a: Seq<u32>, w: Seq<u32>, elems: int, n: nat)
    requires
        order_is_free(f),
        elems > 0,
        n * elems <= a.len(),
        n * elems <= w.len(),
    ensures
        grouped_dot(f, a, w, elems, n) == products_added(f, ZERO, a, w, 0, n * elems),
    decreases n,
{
    if n > 0 {
        let m = (n - 1) as nat;
        lemma_row_bounds(m as int, n as int, elems);
        assert((m + 1) * elems == m * elems + elems) by (nonlinear_arith);
        assert(0 <= m * elems) by (nonlinear_arith)
            requires
                elems > 0,
        ;
        lemma_grouped_is_plain(f, a, w, elems, m);
        lemma_lanes_are_plain(f, part_at(a, m as int, elems), part_at(w, m as int, elems));
        lemma_added_parts(f, ZERO, a, w, m * elems, elems, elems);
        lemma_added_behind(f, products_added(f, ZERO, a, w, 0, m * elems), a, w, m * elems, n * elems);
        lemma_added_on(f, ZERO, a, w, 0, m * elems, n * elems);
    } else {
        assert(0 * elems == 0) by (nonlinear_arith);
    }
}

/// Where the order of additions does not matter, one number of a product with quantized weights is
/// the dot product with the decoded row. With Q8_0, scaling has to be exact besides.
proof fn lemma_fused_dot<F: Arithmetic>(f: &F, dtype: GgmlType, raw: Seq<u8>, out: int, inn: int, o: int, a: Seq<u32>)
    requires
        order_is_free(f),
        fused_fits(dtype, raw, out, inn),
        0 <= inn,
        0 <= o < out,
        a.len() == inn,
        row_scales_exactly(f, dtype, block_at(raw, o, row_bytes(dtype, inn)), a, (inn / blocks_of(dtype)->Some_0.0 as int) as nat),
    ensures
        ({
            let w = decoded_blocks(f, dtype, block_at(raw, o, row_bytes(dtype, inn)), (inn / blocks_of(dtype)->Some_0.0 as int) as nat);
            w.len() == inn && fused_dot(f, dtype, raw, inn, o, a) == dot_product(f, a, w)
        }),
{
    let (elems, bytes) = blocks_of(dtype)->Some_0;
    let n = (inn / elems as int) as nat;
    assert(inn == n * elems) by (nonlinear_arith)
        requires
            inn % elems as int == 0,
            elems > 0,
            n == inn / elems as int,
    ;
    let weights = block_at(raw, o, row_bytes(dtype, inn));
    let w = decoded_blocks(f, dtype, weights, n);
    lemma_decoded_len(f, dtype, weights, n);
    lemma_fused_is_decoded(f, dtype, weights, a, n, n);
    lemma_grouped_is_plain(f, a, w, elems as int, n);
    lemma_lanes_are_plain(f, a, w);
}

/// Where the order of additions does not matter, a product with quantized weights is the product with
/// the weights decoded as a whole. With Q8_0, scaling has to be exact besides.
pub proof fn lemma_fused_is_matmul<F: Arithmetic>(f: &F, dtype: GgmlType, raw: Seq<u8>, out: usize, inn: usize, x: Seq<Seq<u32>>)
    requires
        order_is_free(f),
        fused_fits(dtype, raw, out as int, inn as int),
        out * inn <= usize::MAX,
        forall|s: int| 0 <= s < x.len() ==> (#[trigger] x[s]).len() == inn,
        forall|s: int, o: int|
            0 <= s < x.len() && 0 <= o < out ==> row_scales_exactly(
                f,
                dtype,
                #[trigger] block_at(raw, o, row_bytes(dtype, inn as int)),
                #[trigger] x[s],
                (inn as int / blocks_of(dtype)->Some_0.0 as int) as nat,
            ),
    ensures
        dequantized(f, dtype, raw, (out * inn) as usize) is Ok,
        fused_product(f, dtype, raw, out as nat, inn as int, x) == matrix_product(
            f,
            x,
            rows(dequantized(f, dtype, raw, (out * inn) as usize)->Ok_0, out as int, inn as int),
        ),
{
    if out == 0 {
        assert(out * inn == 0) by (nonlinear_arith)
            requires
                out == 0,
        ;
        assert(raw.len() == 0) by (nonlinear_arith)
            requires
                raw.len() == out * row_bytes(dtype, inn as int),
                out == 0,
        ;
    } else {
        lemma_row_alone(f, dtype, raw, out, inn, 0);
    }
    let all = dequantized(f, dtype, raw, (out * inn) as usize)->Ok_0;
    let w = rows(all, out as int, inn as int);
    let got = fused_product(f, dtype, raw, out as nat, inn as int, x);
    let want = matrix_product(f, x, w);
    assert forall|s: int| 0 <= s < x.len() implies #[trigger] got[s] == want[s] by {
        assert forall|o: int| 0 <= o < out implies #[trigger] got[s][o] == want[s][o] by {
            lemma_row_alone(f, dtype, raw, out, inn, o);
            let weights = block_at(raw, o, row_bytes(dtype, inn as int));
            assert(row_scales_exactly(f, dtype, weights, x[s], (inn as int / blocks_of(dtype)->Some_0.0 as int) as nat));
            lemma_fused_dot(f, dtype, raw, out as int, inn as int, o, x[s]);
            assert(w[o] == (WeightView::Quant { raw, dtype, out, inn }).decoded_row(f, o));
        }
        assert(got[s] =~= want[s]);
    }
    assert(got =~= want);
}

} // verus!
