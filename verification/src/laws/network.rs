//! What a block of the network computes, number by number.

use vstd::arithmetic::div_mod::*;
use vstd::prelude::*;

use crate::attention::{all_turned, contexts, kv_head, linear_of, probabilities, scores, weighted};
use crate::causal::{lemma_attended_row, lemma_key_count, lemma_key_row, lemma_query_row, lemma_state_count, lemma_value_row};
use crate::float::{is_nan, less, negated, Arithmetic, MINUS_TWO, NEGATIVE_INFINITY, ONE, ZERO};
use crate::gguf::GgmlType;
use crate::fused::{lemma_lanes_are_plain, order_is_free};
use crate::model::{attended, embedded, feed_forward, keys, layer_fits, layer_of_sequence, layer_output, layer_step, queries, replaced, rows_gated, rows_sum, values};
use crate::tensor::{all_normalized, dot_product, gated, greatest, lane, lanes, lemma_row_bounds, normalized, plain_dot, products_added, row, rows, shape_fits, shifted_exponentials, softmaxed, squares, strides_of, total, volume, volume_from, TensorView};
use crate::weights::{Config, LayerView, ModelView, WeightView};

verus! {

// ---------------------------------------------------------------------------
// Sums.
// ---------------------------------------------------------------------------

/// No numbers add up to zero, and one more number is added to the sum of those before it.
pub proof fn lemma_total<F: Arithmetic>(f: &F, x: Seq<u32>, y: u32)
    ensures
        total(f, seq![], 0) == ZERO,
        total(f, x.push(y), (x.len() + 1) as nat) == f.sum(total(f, x, x.len()), y),
{
    lemma_total_of_first(f, x.push(y), x, x.len());
}

/// The sum of the first numbers depends on those alone.
proof fn lemma_total_of_first<F: Arithmetic>(f: &F, x: Seq<u32>, y: Seq<u32>, n: nat)
    requires
        forall|i: int| 0 <= i < n ==> #[trigger] x[i] == y[i],
    ensures
        total(f, x, n) == total(f, y, n),
    decreases n,
{
    if n > 0 {
        lemma_total_of_first(f, x, y, (n - 1) as nat);
    }
}

/// The products of the first numbers depend on those alone.
proof fn lemma_products_of_first<F: Arithmetic>(f: &F, start: u32, a: Seq<u32>, b: Seq<u32>, c: Seq<u32>, d: Seq<u32>, from: int, n: int)
    requires
        forall|i: int| from <= i < n ==> #[trigger] a[i] == c[i],
        forall|i: int| from <= i < n ==> #[trigger] b[i] == d[i],
    ensures
        products_added(f, start, a, b, from, n) == products_added(f, start, c, d, from, n),
    decreases n - from,
{
    if n > from {
        lemma_products_of_first(f, start, a, b, c, d, from, n - 1);
    }
}

/// The lanes of the first numbers depend on those alone.
proof fn lemma_lane_of_first<F: Arithmetic>(f: &F, a: Seq<u32>, b: Seq<u32>, c: Seq<u32>, d: Seq<u32>, j: int, n: nat)
    requires
        0 <= j < 8,
        forall|i: int| 0 <= i < 8 * n ==> #[trigger] a[i] == c[i],
        forall|i: int| 0 <= i < 8 * n ==> #[trigger] b[i] == d[i],
    ensures
        lane(f, a, b, j, n) == lane(f, c, d, j, n),
    decreases n,
{
    if n > 0 {
        lemma_lane_of_first(f, a, b, c, d, j, (n - 1) as nat);
        let i = 8 * (n - 1) + j;
        assert(a[i] == c[i] && b[i] == d[i]);
    }
}

/// The dot product of no numbers is zero, and one more pair adds its product.
pub proof fn lemma_plain_dot<F: Arithmetic>(f: &F, a: Seq<u32>, b: Seq<u32>, x: u32, y: u32)
    requires
        a.len() == b.len(),
    ensures
        plain_dot(f, seq![], seq![]) == ZERO,
        plain_dot(f, a.push(x), b.push(y)) == f.sum(plain_dot(f, a, b), f.product(x, y)),
{
    lemma_products_of_first(f, ZERO, a.push(x), b.push(y), a, b, 0, a.len() as int);
}

/// The dot product in eight lanes: one more pair adds its product, as long as it fills no group of
/// eight. Eight pairs make eight lanes, which are added up from left to right.
pub proof fn lemma_dot<F: Arithmetic>(f: &F, a: Seq<u32>, b: Seq<u32>, x: u32, y: u32)
    requires
        a.len() == b.len(),
    ensures
        a.len() % 8 != 7 ==> dot_product(f, a.push(x), b.push(y)) == f.sum(dot_product(f, a, b), f.product(x, y)),
        a.len() == 8 ==> dot_product(f, a, b) == total(f, Seq::new(8, |i: int| f.sum(ZERO, f.product(a[i], b[i]))), 8),
{
    if a.len() % 8 != 7 {
        let n = a.len() / 8;
        assert(a.push(x).len() / 8 == n);
        assert forall|j: int| 0 <= j < 8 implies #[trigger] lanes(f, a.push(x), b.push(y))[j] == lanes(f, a, b)[j] by {
            lemma_lane_of_first(f, a.push(x), b.push(y), a, b, j, n);
        }
        assert(lanes(f, a.push(x), b.push(y)) =~= lanes(f, a, b));
        let start = total(f, lanes(f, a, b), 8);
        lemma_products_of_first(f, start, a.push(x), b.push(y), a, b, 8 * n as int, a.len() as int);
    }
    if a.len() == 8 {
        let one = Seq::new(8, |i: int| f.sum(ZERO, f.product(a[i], b[i])));
        assert forall|j: int| 0 <= j < 8 implies #[trigger] lanes(f, a, b)[j] == one[j] by {
            reveal_with_fuel(lane, 2);
        }
        assert(lanes(f, a, b) =~= one);
    }
}

/// Eight more pairs behind whole groups of eight add one product to each lane.
pub proof fn lemma_lanes<F: Arithmetic>(f: &F, a: Seq<u32>, b: Seq<u32>, more_a: Seq<u32>, more_b: Seq<u32>, j: int)
    requires
        a.len() == b.len(),
        a.len() % 8 == 0,
        more_a.len() == 8,
        more_b.len() == 8,
        0 <= j < 8,
    ensures
        lanes(f, seq![], seq![])[j] == ZERO,
        lanes(f, a + more_a, b + more_b)[j] == f.sum(lanes(f, a, b)[j], f.product(more_a[j], more_b[j])),
        dot_product(f, a, b) == total(f, lanes(f, a, b), 8),
{
    let n = a.len() / 8;
    lemma_lane_of_first(f, a + more_a, b + more_b, a, b, j, n);
    assert((a + more_a).len() / 8 == n + 1);
    assert((a + more_a)[8 * n + j] == more_a[j]);
    assert((b + more_b)[8 * n + j] == more_b[j]);
}

/// Where the order of additions does not matter, a number of a product with full-precision weights is
/// the sum of the products along one activation row and one weight row, which is one stretch of the
/// weight's data, and the bias of that weight row.
pub proof fn lemma_linear<F: Arithmetic>(f: &F, x: Seq<Seq<u32>>, data: Seq<u32>, out: usize, inn: usize, bias: Seq<u32>, s: int, o: int)
    requires
        order_is_free(f),
        data.len() == out * inn,
        0 <= s < x.len(),
        x[s].len() == inn,
        0 <= o < out,
    ensures
        ({
            let w = WeightView::F32(TensorView { data, shape: seq![out, inn] });
            let along = products_added(f, ZERO, x[s], data.subrange(o * inn, o * inn + inn), 0, inn as int);
            &&& linear_of(f, x, w, None)[s][o] == along
            &&& linear_of(f, x, w, Some(bias))[s][o] == f.sum(along, bias[o])
        }),
{
    lemma_row_bounds(o, out as int, inn as int);
    lemma_lanes_are_plain(f, x[s], row(data, o, inn as int));
}

// ---------------------------------------------------------------------------
// Row by row.
// ---------------------------------------------------------------------------

/// A normalized number is the number over the root of the mean square of its row, times its weight:
/// the mean square is the dot product of the row with itself over its length, and `eps` is added to it.
pub proof fn lemma_normalized<F: Arithmetic>(f: &F, x: Seq<u32>, weight: Seq<u32>, eps: u32, i: int)
    requires
        0 <= i < x.len(),
    ensures
        normalized(f, x, weight, eps).len() == x.len(),
        ({
            let mean = f.quotient(plain_dot(f, x, x), f.natural(x.len() as usize));
            normalized(f, x, weight, eps)[i] == f.product(f.product(x[i], f.quotient(ONE, f.root(f.sum(mean, eps)))), weight[i])
        }),
{
    lemma_squares(f, x, x.len());
}

/// The squares of a row add up to its dot product with itself.
proof fn lemma_squares<F: Arithmetic>(f: &F, x: Seq<u32>, n: nat)
    requires
        n <= x.len(),
    ensures
        total(f, squares(f, x), n) == products_added(f, ZERO, x, x, 0, n as int),
    decreases n,
{
    if n > 0 {
        lemma_squares(f, x, (n - 1) as nat);
    }
}

/// One number gates another: it is divided by one plus the exponential of its negative, and the other
/// is multiplied by that.
pub proof fn lemma_gated<F: Arithmetic>(f: &F, gate: u32, up: u32)
    ensures
        gated(f, gate, up) == f.product(f.quotient(gate, f.sum(ONE, f.exponential(negated(gate)))), up),
{
}

/// The probability of a number is the exponential of its distance from the greatest one, over the sum of
/// these exponentials. None of the numbers exceeds the greatest one, and it is one of them, unless all
/// are negative infinity or missing.
pub proof fn lemma_softmax_formula<F: Arithmetic>(f: &F, x: Seq<u32>, i: int)
    requires
        0 <= i < x.len(),
    ensures
        ({
            let max = greatest(x, x.len());
            let e = Seq::new(x.len(), |j: int| f.exponential(f.difference(x[j], max)));
            &&& softmaxed(f, x).len() == x.len()
            &&& softmaxed(f, x)[i] == f.quotient(e[i], total(f, e, x.len()))
            &&& !less(max, x[i])
            &&& max == NEGATIVE_INFINITY || exists|j: int| 0 <= j < x.len() && #[trigger] x[j] == max
        }),
{
    let max = greatest(x, x.len());
    let e = Seq::new(x.len(), |j: int| f.exponential(f.difference(x[j], max)));
    assert(shifted_exponentials(f, x) =~= e);
    lemma_greatest_of_first(x, x.len());
}

/// The greatest of the first numbers.
proof fn lemma_greatest_of_first(x: Seq<u32>, n: nat)
    requires
        n <= x.len(),
    ensures
        !is_nan(greatest(x, n)),
        forall|i: int| 0 <= i < n ==> !less(greatest(x, n), #[trigger] x[i]),
        greatest(x, n) == NEGATIVE_INFINITY || exists|j: int| 0 <= j < n && #[trigger] x[j] == greatest(x, n),
    decreases n,
{
    if n > 0 {
        lemma_greatest_of_first(x, (n - 1) as nat);
        let before = greatest(x, (n - 1) as nat);
        let max = greatest(x, n);
        assert(max == before || max == x[n - 1]);
        if max == before && max != NEGATIVE_INFINITY {
            let j = choose|j: int| 0 <= j < n - 1 && #[trigger] x[j] == before;
            assert(x[j] == max);
        }
    }
}

/// Whether two numbers divided add up to their sum divided.
pub open spec fn splits<F: Arithmetic>(f: &F, x: u32, y: u32, s: u32) -> bool {
    f.sum(f.quotient(x, s), f.quotient(y, s)) == f.quotient(f.sum(x, y), s)
}

/// Whether dividing is exact: parts of a number divided add up to the number divided, zero divided is
/// zero, and a number divided by itself is one.
pub open spec fn divides_exactly<F: Arithmetic>(f: &F) -> bool {
    &&& forall|x: u32, y: u32, s: u32| s != ZERO ==> #[trigger] splits(f, x, y, s)
    &&& forall|s: u32| s != ZERO ==> #[trigger] f.quotient(ZERO, s) == ZERO
    &&& forall|s: u32| s != ZERO ==> #[trigger] f.quotient(s, s) == ONE
}

/// Where dividing is exact, the probabilities of a row add up to one.
pub proof fn lemma_softmax_adds_up<F: Arithmetic>(f: &F, x: Seq<u32>)
    requires
        divides_exactly(f),
        total(f, shifted_exponentials(f, x), x.len()) != ZERO,
    ensures
        total(f, softmaxed(f, x), x.len()) == ONE,
{
    let e = shifted_exponentials(f, x);
    lemma_parts_add_up(f, e, total(f, e, e.len()), softmaxed(f, x), x.len());
}

/// Parts of a number add up to the number divided.
proof fn lemma_parts_add_up<F: Arithmetic>(f: &F, e: Seq<u32>, s: u32, p: Seq<u32>, n: nat)
    requires
        divides_exactly(f),
        s != ZERO,
        n <= e.len(),
        p.len() == e.len(),
        forall|i: int| 0 <= i < e.len() ==> #[trigger] p[i] == f.quotient(e[i], s),
    ensures
        total(f, p, n) == f.quotient(total(f, e, n), s),
    decreases n,
{
    if n > 0 {
        lemma_parts_add_up(f, e, s, p, (n - 1) as nat);
        assert(p[n - 1] == f.quotient(e[n - 1], s));
        assert(splits(f, total(f, e, (n - 1) as nat), e[n - 1], s));
    }
}

// ---------------------------------------------------------------------------
// Positions.
// ---------------------------------------------------------------------------

/// In each head, the number at `i` in the first half and the one at the same place in the second are
/// turned by one angle, as the two parts of a complex number: the position times the base, raised to
/// minus two times `i` over the size of the head. Row `s` has the position `start + s`.
pub proof fn lemma_turned<F: Arithmetic>(f: &F, x: Seq<Seq<u32>>, head_dim: usize, theta: u32, start: int, s: int, h: int, i: int)
    requires
        0 <= s < x.len(),
        0 <= h,
        0 <= i < head_dim as int / 2,
        (h + 1) * head_dim <= x[s].len(),
    ensures
        ({
            let half = head_dim as int / 2;
            let (a, b) = (x[s][h * head_dim + i], x[s][h * head_dim + half + i]);
            let exponent = f.quotient(f.product(MINUS_TWO, f.natural(i as usize)), f.natural(head_dim));
            let by = f.product(f.natural((start + s) as usize), f.power(theta, exponent));
            let got = all_turned(f, x, head_dim, theta, start)[s];
            &&& got.len() == x[s].len()
            &&& got[h * head_dim + i] == f.difference(f.product(a, f.cosine(by)), f.product(b, f.sine(by)))
            &&& got[h * head_dim + half + i] == f.sum(f.product(a, f.sine(by)), f.product(b, f.cosine(by)))
        }),
{
    let hd = head_dim as int;
    let half = hd / 2;
    lemma_row_bounds(h, h + 1, hd);
    lemma_fundamental_div_mod_converse(h * hd + i, hd, h, i);
    lemma_fundamental_div_mod_converse(h * hd + half + i, hd, h, half + i);
}

// ---------------------------------------------------------------------------
// Attention.
// ---------------------------------------------------------------------------

/// Consecutive heads share keys and values: `group` heads each.
pub proof fn lemma_shared_heads(kv: int, group: int, r: int, n_kv_heads: int)
    requires
        0 <= kv < n_kv_heads,
        0 <= r < group,
    ensures
        kv_head(kv * group + r, n_kv_heads * group, n_kv_heads) == kv,
{
    assert((n_kv_heads * group) / n_kv_heads == group) by (nonlinear_arith)
        requires
            n_kv_heads > 0,
    ;
    lemma_fundamental_div_mod_converse(kv * group + r, group, kv, r);
}

/// A query matches a key with the dot product of its head with the shared head of the key, times one
/// over the root of the head's size. Keys behind its position it does not see.
pub proof fn lemma_scores<F: Arithmetic>(f: &F, q: Seq<u32>, ks: Seq<Seq<u32>>, h: int, kv: int, head_dim: usize, limit: int, t: int)
    requires
        0 <= t < ks.len(),
    ensures
        scores(f, q, ks, h, kv, head_dim, limit).len() == ks.len(),
        t > limit ==> scores(f, q, ks, h, kv, head_dim, limit)[t] == NEGATIVE_INFINITY,
        t <= limit ==> scores(f, q, ks, h, kv, head_dim, limit)[t] == f.product(
            plain_dot(
                f,
                q.subrange(h * head_dim, h * head_dim + head_dim),
                ks[t].subrange(kv * head_dim, kv * head_dim + head_dim),
            ),
            f.quotient(ONE, f.root(f.natural(head_dim))),
        ),
{
    assert((h + 1) * head_dim == h * head_dim + head_dim) by (nonlinear_arith);
    assert((kv + 1) * head_dim == kv * head_dim + head_dim) by (nonlinear_arith);
}

/// What a query reads at one place of one head: the values of the shared head at that place, each times
/// its probability, added up. The probabilities are those of how well the head matches each key.
pub proof fn lemma_attention<F: Arithmetic>(
    f: &F,
    qs: Seq<Seq<u32>>,
    ks: Seq<Seq<u32>>,
    vs: Seq<Seq<u32>>,
    c: Config,
    start: int,
    s: int,
    kv: int,
    group: int,
    r: int,
    d: int,
)
    requires
        0 <= s < qs.len(),
        c.n_heads == c.n_kv_heads * group,
        0 <= kv < c.n_kv_heads,
        0 <= r < group,
        0 <= d < c.head_dim,
    ensures
        ({
            let h = kv * group + r;
            let p = softmaxed(f, scores(f, qs[s], ks, h, kv, c.head_dim, start + s));
            let column = Seq::new(vs.len(), |t: int| vs[t][kv * c.head_dim + d]);
            attended(f, qs, ks, vs, c, start)[s][h * c.head_dim + d] == products_added(f, ZERO, p, column, 0, vs.len() as int)
        }),
{
    let h = kv * group + r;
    let hd = c.head_dim as int;
    let j = h * hd + d;
    lemma_shared_heads(kv, group, r, c.n_kv_heads as int);
    assert(0 <= h < c.n_heads) by (nonlinear_arith)
        requires
            h == kv * group + r,
            0 <= kv < c.n_kv_heads,
            0 <= r < group,
            c.n_heads == c.n_kv_heads * group,
    ;
    lemma_row_bounds(h, c.n_heads as int, hd);
    lemma_fundamental_div_mod_converse(j, hd, h, d);
    lemma_attended_row(f, qs, ks, vs, c, start, s);
    let p = softmaxed(f, scores(f, qs[s], ks, h, kv, c.head_dim, start + s));
    let column = Seq::new(vs.len(), |t: int| vs[t][kv * hd + d]);
    lemma_weighted(f, p, vs, kv * hd + d, column, vs.len());
}

/// What is read at one column is a dot product with that column.
proof fn lemma_weighted<F: Arithmetic>(f: &F, p: Seq<u32>, vs: Seq<Seq<u32>>, col: int, column: Seq<u32>, n: nat)
    requires
        n <= vs.len(),
        column.len() == vs.len(),
        forall|t: int| 0 <= t < vs.len() ==> #[trigger] column[t] == vs[t][col],
    ensures
        weighted(f, p, vs, col, n) == products_added(f, ZERO, p, column, 0, n as int),
    decreases n,
{
    if n > 0 {
        lemma_weighted(f, p, vs, col, column, (n - 1) as nat);
        assert(column[n - 1] == vs[n - 1][col]);
    }
}

/// Where queries, keys and values come from: the normalized row, through the layer's weights and
/// biases for queries, keys and values. Queries and keys are turned by the position of their row.
pub proof fn lemma_projections<F: Arithmetic>(f: &F, x: Seq<Seq<u32>>, l: LayerView, c: Config, start: int, s: int)
    requires
        0 <= s < x.len(),
    ensures
        ({
            let xn = seq![normalized(f, x[s], l.attn_norm.data, c.rms_eps)];
            &&& queries(f, x, l, c, start)[s] == all_turned(f, linear_of(f, xn, l.wq, Some(l.bq.data)), c.head_dim, c.rope_theta, start + s)[0]
            &&& keys(f, x, l, c, start)[s] == all_turned(f, linear_of(f, xn, l.wk, Some(l.bk.data)), c.head_dim, c.rope_theta, start + s)[0]
            &&& values(f, x, l, c)[s] == linear_of(f, xn, l.wv, Some(l.bv.data))[0]
        }),
{
    let xn = seq![normalized(f, x[s], l.attn_norm.data, c.rms_eps)];
    lemma_query_row(f, x, l, c, start, s);
    lemma_key_row(f, x, l, c, start, s);
    lemma_value_row(f, x, l, c, s);
    let one = all_normalized(f, seq![x[s]], l.attn_norm.data, c.rms_eps);
    assert(one =~= xn);
    assert(queries(f, seq![x[s]], l, c, start + s)[0] == queries(f, x, l, c, start)[s]);
    assert(keys(f, seq![x[s]], l, c, start + s)[0] == keys(f, x, l, c, start)[s]);
    assert(values(f, seq![x[s]], l, c)[0] == values(f, x, l, c)[s]);
}

// ---------------------------------------------------------------------------
// A block.
// ---------------------------------------------------------------------------

/// A block keeps both residual connections. With `y` the activations plus what attention gives through
/// its output weights, each number of the block is the number of `y` at its place plus that of the
/// down projection; and what goes into the down projection are the numbers of the up projection of the
/// normalized rows of `y`, gated by those of another projection of them.
pub proof fn lemma_block<F: Arithmetic>(f: &F, x: Seq<Seq<u32>>, ctx: Seq<Seq<u32>>, l: LayerView, c: Config)
    requires
        ctx.len() == x.len(),
    ensures
        ({
            let attention = l.wo.product(f, ctx);
            let y = Seq::new(x.len(), |s: int| Seq::new(x[s].len(), |o: int| f.sum(x[s][o], attention[s][o])));
            let yn = Seq::new(x.len(), |s: int| normalized(f, y[s], l.ffn_norm.data, c.rms_eps));
            let (gate, up) = (l.w_gate.product(f, yn), l.w_up.product(f, yn));
            let inner = Seq::new(gate.len(), |s: int| Seq::new(gate[s].len(), |j: int| gated(f, gate[s][j], up[s][j])));
            let down = l.w_down.product(f, inner);
            let out = feed_forward(f, x, ctx, l, c);
            &&& out.len() == x.len()
            &&& forall|s: int| 0 <= s < x.len() ==> (#[trigger] out[s]).len() == x[s].len()
            &&& forall|s: int, o: int|
                0 <= s < x.len() && 0 <= o < x[s].len() ==> #[trigger] out[s][o] == f.sum(f.sum(x[s][o], attention[s][o]), down[s][o])
        }),
{
    let attention = l.wo.product(f, ctx);
    let y = Seq::new(x.len(), |s: int| Seq::new(x[s].len(), |o: int| f.sum(x[s][o], attention[s][o])));
    let yn = Seq::new(x.len(), |s: int| normalized(f, y[s], l.ffn_norm.data, c.rms_eps));
    let (gate, up) = (l.w_gate.product(f, yn), l.w_up.product(f, yn));
    let inner = Seq::new(gate.len(), |s: int| Seq::new(gate[s].len(), |j: int| gated(f, gate[s][j], up[s][j])));
    assert(rows_sum(f, x, attention) =~= y);
    assert(all_normalized(f, y, l.ffn_norm.data, c.rms_eps) =~= yn);
    assert(rows_gated(f, gate, up) =~= inner);
}

/// Whether a weight gives zeros for every input.
pub open spec fn gives_zeros<F: Arithmetic>(f: &F, w: WeightView) -> bool {
    forall|x: Seq<Seq<u32>>, s: int, o: int| 0 <= s < x.len() ==> #[trigger] w.product(f, x)[s][o] == ZERO
}

/// Where the down projection gives zeros, and adding zero changes nothing, a block gives the activations
/// plus what attention gives; where attention gives zeros too, it gives the activations themselves.
pub proof fn lemma_residuals<F: Arithmetic>(f: &F, x: Seq<Seq<u32>>, l: LayerView, c: Config, ks: Seq<Seq<u32>>, vs: Seq<Seq<u32>>, start: int)
    requires
        forall|v: u32| #[trigger] f.sum(v, ZERO) == v,
        gives_zeros(f, l.w_down),
    ensures
        ({
            let attention = l.wo.product(f, attended(f, queries(f, x, l, c, start), ks, vs, c, start));
            let out = layer_output(f, x, l, c, ks, vs, start);
            &&& out.len() == x.len()
            &&& forall|s: int, o: int| 0 <= s < x.len() && 0 <= o < x[s].len() ==> #[trigger] out[s][o] == f.sum(x[s][o], attention[s][o])
            &&& gives_zeros(f, l.wo) ==> out == x
        }),
{
    let ctx = attended(f, queries(f, x, l, c, start), ks, vs, c, start);
    lemma_key_count(f, x, l, c, start);
    assert(ctx.len() == x.len());
    lemma_block(f, x, ctx, l, c);
    let attention = l.wo.product(f, ctx);
    let y = Seq::new(x.len(), |s: int| Seq::new(x[s].len(), |o: int| f.sum(x[s][o], attention[s][o])));
    let yn = Seq::new(x.len(), |s: int| normalized(f, y[s], l.ffn_norm.data, c.rms_eps));
    let (gate, up) = (l.w_gate.product(f, yn), l.w_up.product(f, yn));
    let inner = Seq::new(gate.len(), |s: int| Seq::new(gate[s].len(), |j: int| gated(f, gate[s][j], up[s][j])));
    let down = l.w_down.product(f, inner);
    let out = layer_output(f, x, l, c, ks, vs, start);
    assert forall|s: int, o: int| 0 <= s < x.len() && 0 <= o < x[s].len() implies #[trigger] out[s][o] == f.sum(x[s][o], attention[s][o]) by {
        assert(out[s][o] == f.sum(f.sum(x[s][o], attention[s][o]), down[s][o]));
        assert(down[s][o] == ZERO);
    }
    if gives_zeros(f, l.wo) {
        assert forall|s: int| 0 <= s < x.len() implies #[trigger] out[s] == x[s] by {
            assert(out[s].len() == x[s].len());
            assert forall|o: int| 0 <= o < x[s].len() implies #[trigger] out[s][o] == x[s][o] by {
                assert(attention[s][o] == ZERO);
            }
            assert(out[s] =~= x[s]);
        }
        assert(out =~= x);
    }
}

/// A block over a sequence attends to the keys and values of that sequence, from position 0 on; one
/// over new tokens to those in the cache before `start`, and behind them to its own.
pub proof fn lemma_what_is_attended_to<F: Arithmetic>(
    f: &F,
    x: Seq<Seq<u32>>,
    l: LayerView,
    c: Config,
    kc: Seq<Seq<u32>>,
    vc: Seq<Seq<u32>>,
    start: int,
)
    requires
        0 <= start <= kc.len(),
        start <= vc.len(),
    ensures
        layer_of_sequence(f, x, l, c) == feed_forward(f, x, attended(f, queries(f, x, l, c, 0), keys(f, x, l, c, 0), values(f, x, l, c), c, 0), l, c),
        ({
            let ks = Seq::new(
                (start + x.len()) as nat,
                |t: int|
                    if t < start {
                        kc[t]
                    } else {
                        keys(f, x, l, c, start)[t - start]
                    },
            );
            let vs = Seq::new(
                (start + x.len()) as nat,
                |t: int|
                    if t < start {
                        vc[t]
                    } else {
                        values(f, x, l, c)[t - start]
                    },
            );
            layer_step(f, x, l, c, kc, vc, start) == feed_forward(f, x, attended(f, queries(f, x, l, c, start), ks, vs, c, start), l, c)
        }),
{
    lemma_key_count(f, x, l, c, start);
    let ks = Seq::new(
        (start + x.len()) as nat,
        |t: int|
            if t < start {
                kc[t]
            } else {
                keys(f, x, l, c, start)[t - start]
            },
    );
    let vs = Seq::new(
        (start + x.len()) as nat,
        |t: int|
            if t < start {
                vc[t]
            } else {
                values(f, x, l, c)[t - start]
            },
    );
    assert(kc.take(start) + keys(f, x, l, c, start) =~= ks);
    assert(vc.take(start) + values(f, x, l, c) =~= vs);
}

/// New rows stand in the cache from their position on, and the other rows stay.
pub proof fn lemma_replaced(old_rows: Seq<Seq<u32>>, at: int, new_rows: Seq<Seq<u32>>, i: int)
    requires
        0 <= at,
        at + new_rows.len() <= old_rows.len(),
        0 <= i < old_rows.len(),
    ensures
        replaced(old_rows, at, new_rows).len() == old_rows.len(),
        replaced(old_rows, at, new_rows)[i] == if at <= i < at + new_rows.len() {
            new_rows[i - at]
        } else {
            old_rows[i]
        },
{
}

// ---------------------------------------------------------------------------
// The whole network.
// ---------------------------------------------------------------------------

/// The activations start as the embeddings of the tokens and go through the layers in order, each
/// once. The logits are those of the last row, normalized with the output norm, through the head.
pub proof fn lemma_network<F: Arithmetic>(f: &F, m: ModelView, tokens: Seq<u32>, n: nat)
    requires
        tokens.len() > 0,
        n < m.layers.len(),
    ensures
        m.states(f, tokens, 0).len() == tokens.len(),
        forall|s: int| 0 <= s < tokens.len() ==> #[trigger] m.states(f, tokens, 0)[s] == m.embedding.decoded_row(f, tokens[s] as int),
        m.states(f, tokens, (n + 1) as nat) == layer_of_sequence(f, m.states(f, tokens, n), m.layers[n as int], m.config),
        m.logits(f, tokens) == m.lm_head.product(
            f,
            seq![normalized(f, m.states(f, tokens, m.layers.len())[tokens.len() - 1], m.output_norm.data, m.config.rms_eps)],
        )[0],
{
    lemma_state_count(f, m, tokens, m.layers.len());
}

/// With a cache, the activations of new tokens start as their embeddings too, and each layer reads its
/// own keys and values; the logits are those of the last row. Behind it each layer's cache has its new
/// keys and values from the position of the first new token on, and what it had before.
pub proof fn lemma_cached_network<F: Arithmetic>(
    f: &F,
    m: ModelView,
    tokens: Seq<u32>,
    kc: Seq<Seq<Seq<u32>>>,
    vc: Seq<Seq<Seq<u32>>>,
    start: int,
    n: nat,
)
    requires
        tokens.len() > 0,
        n < m.layers.len(),
        kc.len() == m.layers.len(),
        vc.len() == m.layers.len(),
    ensures
        ({
            let x = m.cached_states(f, tokens, kc, vc, start, n);
            let i = n as int;
            let last = m.cached_states(f, tokens, kc, vc, start, m.layers.len());
            &&& forall|s: int|
                0 <= s < tokens.len() ==> #[trigger] m.cached_states(f, tokens, kc, vc, start, 0)[s] == m.embedding.decoded_row(f, tokens[s] as int)
            &&& m.cached_states(f, tokens, kc, vc, start, n + 1) == layer_step(f, x, m.layers[i], m.config, kc[i], vc[i], start)
            &&& m.cached_logits(f, tokens, kc, vc, start) == m.lm_head.product(
                f,
                seq![normalized(f, last[last.len() - 1], m.output_norm.data, m.config.rms_eps)],
            )[0]
            &&& m.keys_after(f, tokens, kc, vc, start)[i] == replaced(kc[i], start, keys(f, x, m.layers[i], m.config, start))
            &&& m.values_after(f, tokens, kc, vc, start)[i] == replaced(vc[i], start, values(f, x, m.layers[i], m.config))
        }),
{
}

/// The embedding of a token at full precision is its stretch of the embedding's data.
pub proof fn lemma_embedding<F: Arithmetic>(f: &F, data: Seq<u32>, vocab: usize, hidden: usize, tokens: Seq<u32>, s: int, i: int)
    requires
        data.len() == vocab * hidden,
        0 <= s < tokens.len(),
        tokens[s] < vocab,
        0 <= i < hidden,
    ensures
        ({
            let e = WeightView::F32(TensorView { data, shape: seq![vocab, hidden] });
            &&& embedded(f, e, tokens).len() == tokens.len()
            &&& embedded(f, e, tokens)[s].len() == hidden
            &&& embedded(f, e, tokens)[s][i] == data[tokens[s] * hidden + i]
        }),
{
    lemma_row_bounds(tokens[s] as int, vocab as int, hidden as int);
}

// ---------------------------------------------------------------------------
// Layout.
// ---------------------------------------------------------------------------

/// A matrix lies in memory row by row.
pub proof fn lemma_rows(data: Seq<u32>, n: int, cols: int, r: int, c: int)
    requires
        0 <= r < n,
        0 <= c < cols,
        data.len() == n * cols,
    ensures
        rows(data, n, cols).len() == n,
        rows(data, n, cols)[r].len() == cols,
        rows(data, n, cols)[r][c] == data[r * cols + c],
{
    lemma_row_bounds(r, n, cols);
}

/// A shape holds the product of its dimensions. Along the last axis neighbours lie side by side, and
/// along any other as far apart as the next axis is long in memory.
pub proof fn lemma_strides(shape: Seq<usize>, n: usize, i: int)
    ensures
        volume(seq![]) == 1,
        volume(shape.push(n)) == volume(shape) * n,
        strides_of(shape).len() == shape.len(),
        shape.len() > 0 ==> strides_of(shape)[shape.len() - 1] == 1,
        shape_fits(shape) && 0 <= i < shape.len() - 1 ==> strides_of(shape)[i] == shape[i + 1] * strides_of(shape)[i + 1],
{
    assert(shape.push(n).drop_last() =~= shape);
    if shape_fits(shape) && 0 <= i < shape.len() - 1 {
        assert(volume_from(shape, i + 1) <= usize::MAX);
        assert(volume_from(shape, i + 2) <= usize::MAX);
        assert(volume_from(shape, i + 1) == shape[i + 1] * volume_from(shape, i + 2));
    }
}

/// The probabilities lie head by head, and in each head query by query. What a query reads stands in its
/// row, head by head.
pub proof fn lemma_attention_layout<F: Arithmetic>(
    f: &F,
    qs: Seq<Seq<u32>>,
    ks: Seq<Seq<u32>>,
    vs: Seq<Seq<u32>>,
    probs: Seq<Seq<u32>>,
    n_heads: usize,
    n_kv_heads: usize,
    head_dim: usize,
    start: int,
    h: int,
    s: int,
    d: int,
)
    requires
        0 <= h < n_heads,
        0 <= s < qs.len(),
        0 <= d < head_dim,
    ensures
        ({
            let n = qs.len() as int;
            let kv = kv_head(h, n_heads as int, n_kv_heads as int);
            let column = Seq::new(vs.len(), |t: int| vs[t][kv * head_dim + d]);
            &&& probabilities(f, qs, ks, n_heads, n_kv_heads, head_dim, start).len() == n_heads * n
            &&& probabilities(f, qs, ks, n_heads, n_kv_heads, head_dim, start)[h * n + s] == softmaxed(
                f,
                scores(f, qs[s], ks, h, kv, head_dim, start + s),
            )
            &&& contexts(f, probs, vs, n as nat, n_heads, n_kv_heads, head_dim)[s][h * head_dim + d] == products_added(
                f,
                ZERO,
                probs[h * n + s],
                column,
                0,
                vs.len() as int,
            )
        }),
{
    let n = qs.len() as int;
    let kv = kv_head(h, n_heads as int, n_kv_heads as int);
    let column = Seq::new(vs.len(), |t: int| vs[t][kv * head_dim + d]);
    lemma_row_bounds(h, n_heads as int, n);
    lemma_row_bounds(h, n_heads as int, head_dim as int);
    lemma_fundamental_div_mod_converse(h * n + s, n, h, s);
    lemma_fundamental_div_mod_converse(h * head_dim + d, head_dim as int, h, d);
    lemma_weighted(f, probs[h * n + s], vs, kv * head_dim + d, column, vs.len());
    assert(n_heads * n >= 0) by (nonlinear_arith)
        requires
            n >= 0,
    ;
}

/// In a head of an odd size the last number stays as it is.
pub proof fn lemma_last_of_odd_head<F: Arithmetic>(f: &F, x: Seq<Seq<u32>>, head_dim: usize, theta: u32, start: int, s: int, h: int)
    requires
        0 <= s < x.len(),
        0 <= h,
        head_dim as int % 2 == 1,
        (h + 1) * head_dim <= x[s].len(),
    ensures
        all_turned(f, x, head_dim, theta, start)[s][h * head_dim + head_dim - 1] == x[s][h * head_dim + head_dim - 1],
{
    let hd = head_dim as int;
    lemma_row_bounds(h, h + 1, hd);
    lemma_fundamental_div_mod_converse(h * hd + hd - 1, hd, h, hd - 1);
}

/// Which layers fit a network of `d` numbers: the queries have the heads' numbers, the keys and values
/// those of the shared heads, the outputs go back to `d`, the inner part has one size, and the heads
/// share evenly.
pub proof fn lemma_layer_fits(l: LayerView, c: Config, d: usize, inner: usize)
    requires
        0 < d,
        c.n_heads * c.head_dim <= usize::MAX,
        c.n_kv_heads * c.head_dim <= usize::MAX,
        c.n_kv_heads > 0,
        c.n_heads % c.n_kv_heads == 0,
        l.w_gate.is_matrix(),
        l.w_gate.out_dim() == inner,
    ensures
        ({
            let (q, kv) = ((c.n_heads * c.head_dim) as usize, (c.n_kv_heads * c.head_dim) as usize);
            let weights = l.wq.fits(q as int, d as int) && l.wk.fits(kv as int, d as int) && l.wv.fits(kv as int, d as int) && l.wo.fits(d as int, q as int);
            let vectors = l.attn_norm.shape == seq![d] && l.bq.shape == seq![q] && l.bk.shape == seq![kv] && l.bv.shape == seq![kv] && l.ffn_norm.shape
                == seq![d];
            let inside = l.w_gate.fits(inner as int, d as int) && l.w_up.fits(inner as int, d as int) && l.w_down.fits(d as int, inner as int);
            layer_fits(l, c, d as int) <==> weights && vectors && inside
        }),
{
}

/// Which weights fit: a matrix with a row for each output, each with a number for each input; in blocks,
/// each row is made of whole blocks.
pub proof fn lemma_weight_fits(data: Seq<u32>, raw: Seq<u8>, out: usize, inn: usize, blocks: nat)
    ensures
        (WeightView::F32(TensorView { data, shape: seq![out, inn] })).fits(out as int, inn as int) <==> data.len() == out * inn,
        inn == 32 * blocks ==> ((WeightView::Quant { raw, dtype: GgmlType::Q8_0, out, inn }).fits(out as int, inn as int) <==> raw.len() == out * (34
            * blocks)),
        inn == 32 * blocks ==> ((WeightView::Quant { raw, dtype: GgmlType::Q5_0, out, inn }).fits(out as int, inn as int) <==> raw.len() == out * (22
            * blocks)),
        inn == 256 * blocks ==> ((WeightView::Quant { raw, dtype: GgmlType::Q4K, out, inn }).fits(out as int, inn as int) <==> raw.len() == out * (144
            * blocks)),
        inn == 256 * blocks ==> ((WeightView::Quant { raw, dtype: GgmlType::Q6K, out, inn }).fits(out as int, inn as int) <==> raw.len() == out * (210
            * blocks)),
        inn % 32 != 0 ==> !(WeightView::Quant { raw, dtype: GgmlType::Q8_0, out, inn }).fits(out as int, inn as int),
        inn % 256 != 0 ==> !(WeightView::Quant { raw, dtype: GgmlType::Q4K, out, inn }).fits(out as int, inn as int),
{
}

} // verus!
