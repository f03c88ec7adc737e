//! The qwen2 transformer.
//!
//! Dataflow of a block for `seq` tokens:
//!
//!   x  -> norm                                xn     [seq, hidden]
//!   xn -> Wq, bq / Wk, bk / Wv, bv            q k v
//!   q, k -> rotary positions                  shapes unchanged
//!   q, k -> scores, causal mask, softmax      probs  [n_heads, seq, keys]
//!   probs, v -> weighted sum per head         ctx    [seq, n_heads * head_dim]
//!   ctx -> Wo; x + ..                         h1     [seq, hidden]
//!   h1 -> norm -> gate, up -> silu(gate) * up -> Wd; h1 + ..

use vstd::prelude::*;

use crate::attention::{all_turned, attention_apply, attention_apply_cached, attention_scores, attention_scores_cached, contexts, linear, linear_of, probabilities, rope};
use crate::float::{Arithmetic, ZERO};
use crate::gguf::GgmlType;
use crate::perf::Op;
use crate::quant::{block_at, blocks_of, decoded_blocks, dequantize, dequantized, fused_fits, lemma_decoded_range, lemma_dequantized_len, row_bytes};
use crate::tensor::{all_normalized, gated, lemma_push_row, lemma_row_bounds, lemma_shape2, normalized, rmsnorm, row, row_slice, rows, swiglu, volume, Tensor};
use crate::weights::{Config, Layer, LayerView, Model, ModelView, Weight, WeightView};

verus! {

// ---------------------------------------------------------------------------
// Matrices, number by number.
// ---------------------------------------------------------------------------

/// The sum of two matrices.
pub open spec fn rows_sum<F: Arithmetic>(f: &F, a: Seq<Seq<u32>>, b: Seq<Seq<u32>>) -> Seq<Seq<u32>> {
    Seq::new(a.len(), |s: int| Seq::new(a[s].len(), |o: int| f.sum(a[s][o], b[s][o])))
}

/// The first numbers, through `silu`, times the second ones at their places.
pub open spec fn rows_gated<F: Arithmetic>(f: &F, gate: Seq<Seq<u32>>, up: Seq<Seq<u32>>) -> Seq<Seq<u32>> {
    Seq::new(gate.len(), |s: int| Seq::new(gate[s].len(), |o: int| gated(f, gate[s][o], up[s][o])))
}

/// Normalizes the rows of a matrix.
fn norm_rows<F: Arithmetic>(f: &F, x: &Tensor, weight: &Tensor, eps: u32) -> (r: Tensor)
    requires
        f.wf(),
        x.wf(),
        x.shape@.len() == 2,
        x.shape@[1] > 0,
        weight.wf(),
        weight.shape@ == seq![x.shape@[1]],
    ensures
        r.is_matrix(x.shape@[0] as int, x.shape@[1] as int),
        r.matrix() == all_normalized(f, x.matrix(), weight.data@, eps),
{
    let r: Tensor = rmsnorm(f, x, weight, eps);
    proof {
        x.lemma_matrix();
        let n = x.shape@[0];
        let cols = x.shape@[1];
        assert((n * cols) / cols as int == n) by (nonlinear_arith)
            requires
                cols > 0,
        ;
    }
    r
}

/// Adds two matrices.
fn add_rows<F: Arithmetic>(f: &F, a: &Tensor, b: &Tensor) -> (r: Tensor)
    requires
        f.wf(),
        a.wf(),
        a.shape@.len() == 2,
        b.wf(),
        b.shape@ == a.shape@,
    ensures
        r.is_matrix(a.shape@[0] as int, a.shape@[1] as int),
        r.matrix() == rows_sum(f, a.matrix(), b.matrix()),
{
    let r: Tensor = crate::tensor::add(f, a, b);
    proof {
        a.lemma_matrix();
        b.lemma_matrix();
        let n = a.shape@[0] as int;
        let cols = a.shape@[1] as int;
        let want = rows_sum(f, a.matrix(), b.matrix());
        assert forall|s: int| 0 <= s < n implies #[trigger] r.matrix()[s] == want[s] by {
            lemma_row_bounds(s, n, cols);
            assert(r.matrix()[s] =~= want[s]);
        }
        assert(r.matrix() =~= want);
    }
    r
}

/// Gates a matrix with another.
fn gate_rows<F: Arithmetic>(f: &F, gate: &Tensor, up: &Tensor) -> (r: Tensor)
    requires
        f.wf(),
        gate.wf(),
        gate.shape@.len() == 2,
        up.wf(),
        up.shape@ == gate.shape@,
    ensures
        r.is_matrix(gate.shape@[0] as int, gate.shape@[1] as int),
        r.matrix() == rows_gated(f, gate.matrix(), up.matrix()),
{
    let r: Tensor = swiglu(f, gate, up);
    proof {
        gate.lemma_matrix();
        up.lemma_matrix();
        let n = gate.shape@[0] as int;
        let cols = gate.shape@[1] as int;
        let want = rows_gated(f, gate.matrix(), up.matrix());
        assert forall|s: int| 0 <= s < n implies #[trigger] r.matrix()[s] == want[s] by {
            lemma_row_bounds(s, n, cols);
            assert(r.matrix()[s] =~= want[s]);
        }
        assert(r.matrix() =~= want);
    }
    r
}

// ---------------------------------------------------------------------------
// One block.
// ---------------------------------------------------------------------------

/// Whether the weights of a layer fit together, on activations of `d` numbers.
pub open spec fn layer_fits(l: LayerView, c: Config, d: int) -> bool {
    let q_dim = c.n_heads * c.head_dim;
    let kv_dim = c.n_kv_heads * c.head_dim;
    &&& 0 < d <= usize::MAX
    &&& c.n_kv_heads > 0
    &&& c.n_heads % c.n_kv_heads == 0
    &&& q_dim <= usize::MAX
    &&& kv_dim <= usize::MAX
    &&& l.attn_norm.shape == seq![d as usize]
    &&& l.wq.fits(q_dim, d)
    &&& l.bq.shape == seq![q_dim as usize]
    &&& l.wk.fits(kv_dim, d)
    &&& l.bk.shape == seq![kv_dim as usize]
    &&& l.wv.fits(kv_dim, d)
    &&& l.bv.shape == seq![kv_dim as usize]
    &&& l.wo.fits(d, q_dim)
    &&& l.ffn_norm.shape == seq![d as usize]
    &&& l.w_gate.is_matrix()
    &&& l.w_gate.fits(l.w_gate.out_dim(), d)
    &&& l.w_up.fits(l.w_gate.out_dim(), d)
    &&& l.w_down.fits(d, l.w_gate.out_dim())
}

/// Whether what a layer computes for `n` tokens against `total` keys fits in memory.
pub open spec fn layer_sizes_fit(l: LayerView, c: Config, d: int, n: int, total: int) -> bool {
    &&& n * d <= usize::MAX
    &&& n * (c.n_heads * c.head_dim) <= usize::MAX
    &&& n * (c.n_kv_heads * c.head_dim) <= usize::MAX
    &&& n * l.w_gate.out_dim() <= usize::MAX
    &&& c.n_heads * n <= usize::MAX
    &&& n * total <= usize::MAX
    &&& c.n_heads * n * total <= usize::MAX
}

/// The queries of tokens from position `start` on.
pub open spec fn queries<F: Arithmetic>(f: &F, x: Seq<Seq<u32>>, l: LayerView, c: Config, start: int) -> Seq<Seq<u32>> {
    let xn = all_normalized(f, x, l.attn_norm.data, c.rms_eps);
    all_turned(f, linear_of(f, xn, l.wq, Some(l.bq.data)), c.head_dim, c.rope_theta, start)
}

/// The keys of tokens from position `start` on.
pub open spec fn keys<F: Arithmetic>(f: &F, x: Seq<Seq<u32>>, l: LayerView, c: Config, start: int) -> Seq<Seq<u32>> {
    let xn = all_normalized(f, x, l.attn_norm.data, c.rms_eps);
    all_turned(f, linear_of(f, xn, l.wk, Some(l.bk.data)), c.head_dim, c.rope_theta, start)
}

/// The values of tokens.
pub open spec fn values<F: Arithmetic>(f: &F, x: Seq<Seq<u32>>, l: LayerView, c: Config) -> Seq<Seq<u32>> {
    let xn = all_normalized(f, x, l.attn_norm.data, c.rms_eps);
    linear_of(f, xn, l.wv, Some(l.bv.data))
}

/// What queries from position `start` on read from keys and values.
pub open spec fn attended<F: Arithmetic>(f: &F, qs: Seq<Seq<u32>>, ks: Seq<Seq<u32>>, vs: Seq<Seq<u32>>, c: Config, start: int) -> Seq<Seq<u32>> {
    let probs = probabilities(f, qs, ks, c.n_heads, c.n_kv_heads, c.head_dim, start);
    contexts(f, probs, vs, qs.len(), c.n_heads, c.n_kv_heads, c.head_dim)
}

/// The rest of a block behind attention.
pub open spec fn feed_forward<F: Arithmetic>(f: &F, x: Seq<Seq<u32>>, ctx: Seq<Seq<u32>>, l: LayerView, c: Config) -> Seq<Seq<u32>> {
    let h1 = rows_sum(f, x, linear_of(f, ctx, l.wo, None));
    let hn = all_normalized(f, h1, l.ffn_norm.data, c.rms_eps);
    let gate = linear_of(f, hn, l.w_gate, None);
    let up = linear_of(f, hn, l.w_up, None);
    rows_sum(f, h1, linear_of(f, rows_gated(f, gate, up), l.w_down, None))
}

/// A block over tokens from position `start` on, against these keys and values.
pub open spec fn layer_output<F: Arithmetic>(
    f: &F,
    x: Seq<Seq<u32>>,
    l: LayerView,
    c: Config,
    ks: Seq<Seq<u32>>,
    vs: Seq<Seq<u32>>,
    start: int,
) -> Seq<Seq<u32>> {
    feed_forward(f, x, attended(f, queries(f, x, l, c, start), ks, vs, c, start), l, c)
}

/// A block over a whole sequence.
pub open spec fn layer_of_sequence<F: Arithmetic>(f: &F, x: Seq<Seq<u32>>, l: LayerView, c: Config) -> Seq<Seq<u32>> {
    layer_output(f, x, l, c, keys(f, x, l, c, 0), values(f, x, l, c), 0)
}

/// Queries, keys and values of tokens from position `start_pos` on.
fn project<F: Arithmetic>(f: &F, x: &Tensor, layer: &Layer, config: &Config, start_pos: usize) -> (r: (Tensor, Tensor, Tensor))
    requires
        f.wf(),
        layer.wf(),
        x.wf(),
        x.shape@.len() == 2,
        layer_fits(layer@, *config, x.shape@[1] as int),
        layer_sizes_fit(layer@, *config, x.shape@[1] as int, x.shape@[0] as int, 1),
        start_pos + x.shape@[0] <= usize::MAX,
    ensures
        r.0.is_matrix(x.shape@[0] as int, config.n_heads * config.head_dim),
        r.0.matrix() == queries(f, x.matrix(), layer@, *config, start_pos as int),
        r.1.is_matrix(x.shape@[0] as int, config.n_kv_heads * config.head_dim),
        r.1.matrix() == keys(f, x.matrix(), layer@, *config, start_pos as int),
        r.2.is_matrix(x.shape@[0] as int, config.n_kv_heads * config.head_dim),
        r.2.matrix() == values(f, x.matrix(), layer@, *config),
{
    let xn: Tensor = norm_rows(f, x, &layer.attn_norm, config.rms_eps);
    let mut q: Tensor = linear(f, &xn, &layer.wq, Some(&layer.bq));
    let mut k: Tensor = linear(f, &xn, &layer.wk, Some(&layer.bk));
    let v: Tensor = linear(f, &xn, &layer.wv, Some(&layer.bv));
    rope(f, &mut q, config.n_heads, config.head_dim, config.rope_theta, start_pos);
    rope(f, &mut k, config.n_kv_heads, config.head_dim, config.rope_theta, start_pos);
    (q, k, v)
}

/// The rest of a block behind attention.
fn finish<F: Arithmetic>(f: &F, x: &Tensor, ctx: &Tensor, layer: &Layer, config: &Config) -> (r: Tensor)
    requires
        f.wf(),
        layer.wf(),
        x.wf(),
        x.shape@.len() == 2,
        layer_fits(layer@, *config, x.shape@[1] as int),
        layer_sizes_fit(layer@, *config, x.shape@[1] as int, x.shape@[0] as int, 1),
        ctx.is_matrix(x.shape@[0] as int, config.n_heads * config.head_dim),
    ensures
        r.is_matrix(x.shape@[0] as int, x.shape@[1] as int),
        r.matrix() == feed_forward(f, x.matrix(), ctx.matrix(), layer@, *config),
{
    let attn: Tensor = linear(f, ctx, &layer.wo, None);
    assert(attn.shape@ =~= x.shape@);
    let h1: Tensor = add_rows(f, x, &attn);
    let hn: Tensor = norm_rows(f, &h1, &layer.ffn_norm, config.rms_eps);
    let gate: Tensor = linear(f, &hn, &layer.w_gate, None);
    let up: Tensor = linear(f, &hn, &layer.w_up, None);
    assert(up.shape@ =~= gate.shape@);
    let both: Tensor = gate_rows(f, &gate, &up);
    let ffn: Tensor = linear(f, &both, &layer.w_down, None);
    assert(ffn.shape@ =~= h1.shape@);
    add_rows(f, &h1, &ffn)
}

/// Sizes that fit with all keys fit with one.
proof fn lemma_sizes_one(l: LayerView, c: Config, d: int, n: int, total: int)
    requires
        0 <= n,
        0 < total,
        layer_sizes_fit(l, c, d, n, total),
    ensures
        layer_sizes_fit(l, c, d, n, 1),
{
    let a = c.n_heads * n;
    assert(a * 1 == a) by (nonlinear_arith);
    assert(n * 1 <= n * total) by (nonlinear_arith)
        requires
            0 <= n,
            0 < total,
    ;
}

/// One block over a whole sequence: [seq, hidden] to [seq, hidden].
pub fn layer_forward<F: Arithmetic>(f: &F, x: &Tensor, layer: &Layer, config: &Config) -> (r: Tensor)
    requires
        f.wf(),
        layer.wf(),
        x.wf(),
        x.shape@.len() == 2,
        x.shape@[0] > 0,
        layer_fits(layer@, *config, x.shape@[1] as int),
        layer_sizes_fit(layer@, *config, x.shape@[1] as int, x.shape@[0] as int, x.shape@[0] as int),
    ensures
        r.is_matrix(x.shape@[0] as int, x.shape@[1] as int),
        r.matrix() == layer_of_sequence(f, x.matrix(), layer@, *config),
{
    proof {
        lemma_sizes_one(layer@, *config, x.shape@[1] as int, x.shape@[0] as int, x.shape@[0] as int);
    }
    let (nh, nkv, hd): (usize, usize, usize) = (config.n_heads, config.n_kv_heads, config.head_dim);
    let (q, k, v): (Tensor, Tensor, Tensor) = project(f, x, layer, config, 0);
    let probs: Tensor = attention_scores(f, &q, &k, nh, nkv, hd);
    let ctx: Tensor = attention_apply(f, &probs, &v, nh, nkv, hd);
    finish(f, x, &ctx, layer, config)
}

// ---------------------------------------------------------------------------
// The cache of keys and values.
// ---------------------------------------------------------------------------

/// The keys and values of the tokens so far, for each layer. Keys are turned by their positions
/// already. There is room for `max_ctx` positions, of which `len` are filled.
pub struct KvCache {
    pub k: Vec<Vec<u32>>,
    pub v: Vec<Vec<u32>>,
    pub len: usize,
    pub max_ctx: usize,
    pub kv_dim: usize,
}

/// Rows with some of them replaced, from `at` on.
pub open spec fn replaced<T>(old_rows: Seq<T>, at: int, new_rows: Seq<T>) -> Seq<T> {
    old_rows.take(at) + new_rows + old_rows.skip(at + new_rows.len())
}

impl KvCache {
    /// Whether there is the room that the fields say.
    pub open spec fn wf(self) -> bool {
        &&& self.k@.len() == self.v@.len()
        &&& self.max_ctx * self.kv_dim <= usize::MAX
        &&& forall|i: int| 0 <= i < self.k@.len() ==> (#[trigger] self.k@[i])@.len() == self.max_ctx * self.kv_dim
        &&& forall|i: int| 0 <= i < self.v@.len() ==> (#[trigger] self.v@[i])@.len() == self.max_ctx * self.kv_dim
    }

    /// The rows of keys of a layer, one for each position.
    pub open spec fn key_rows(self, i: int) -> Seq<Seq<u32>> {
        rows(self.k@[i]@, self.max_ctx as int, self.kv_dim as int)
    }

    /// The rows of values of a layer, one for each position.
    pub open spec fn value_rows(self, i: int) -> Seq<Seq<u32>> {
        rows(self.v@[i]@, self.max_ctx as int, self.kv_dim as int)
    }

    /// An empty cache.
    pub fn new(config: &Config, max_ctx: usize) -> (r: KvCache)
        requires
            config.n_kv_heads * config.head_dim <= usize::MAX,
            max_ctx * (config.n_kv_heads * config.head_dim) <= usize::MAX,
        ensures
            r.wf(),
            r.len == 0,
            r.max_ctx == max_ctx,
            r.kv_dim == config.n_kv_heads * config.head_dim,
            r.k@.len() == config.n_layers,
            forall|i: int, j: int| 0 <= i < r.k@.len() && 0 <= j < r.k@[i]@.len() ==> #[trigger] r.k@[i]@[j] == ZERO,
            forall|i: int, j: int| 0 <= i < r.v@.len() && 0 <= j < r.v@[i]@.len() ==> #[trigger] r.v@[i]@[j] == ZERO,
    {
        let kv_dim: usize = config.n_kv_heads * config.head_dim;
        let size: usize = max_ctx * kv_dim;
        let mut k: Vec<Vec<u32>> = Vec::new();
        let mut v: Vec<Vec<u32>> = Vec::new();
        let mut i: usize = 0;
        while i < config.n_layers
            invariant
                i <= config.n_layers,
                k@.len() == i,
                v@.len() == i,
                forall|a: int| 0 <= a < i ==> (#[trigger] k@[a])@.len() == size,
                forall|a: int| 0 <= a < i ==> (#[trigger] v@[a])@.len() == size,
                forall|a: int, j: int| 0 <= a < i && 0 <= j < size ==> #[trigger] k@[a]@[j] == ZERO,
                forall|a: int, j: int| 0 <= a < i && 0 <= j < size ==> #[trigger] v@[a]@[j] == ZERO,
            decreases config.n_layers - i,
        {
            k.push(vec![ZERO; size]);
            v.push(vec![ZERO; size]);
            i = i + 1;
        }
        KvCache { k, v, len: 0, max_ctx, kv_dim }
    }

    /// How many bytes the cache takes.
    pub fn bytes(&self) -> (r: usize)
        requires
            self.wf(),
            2 * self.k@.len() <= usize::MAX,
            2 * self.k@.len() * self.max_ctx <= usize::MAX,
            2 * self.k@.len() * self.max_ctx * self.kv_dim * 4 <= usize::MAX,
        ensures
            r == 2 * self.k@.len() * self.max_ctx * self.kv_dim * 4,
    {
        let layers: usize = self.k.len();
        proof {
            let a = 2 * layers * self.max_ctx;
            assert(0 <= a * self.kv_dim) by (nonlinear_arith)
                requires
                    a == 2 * layers * self.max_ctx,
            ;
        }
        2 * layers * self.max_ctx * self.kv_dim * 4
    }

    /// Writes the keys and values of one layer for the positions from `start_pos` on.
    pub fn append(&mut self, layer_idx: usize, start_pos: usize, k_rows: &[u32], v_rows: &[u32], n: usize)
        requires
            old(self).wf(),
            layer_idx < old(self).k@.len(),
            k_rows@.len() == n * old(self).kv_dim,
            v_rows@.len() == n * old(self).kv_dim,
            start_pos + n <= old(self).max_ctx,
        ensures
            final(self).wf(),
            final(self).len == old(self).len,
            final(self).max_ctx == old(self).max_ctx,
            final(self).kv_dim == old(self).kv_dim,
            final(self).k@.len() == old(self).k@.len(),
            forall|i: int| 0 <= i < old(self).k@.len() && i != layer_idx ==> #[trigger] final(self).k@[i] == old(self).k@[i],
            forall|i: int| 0 <= i < old(self).k@.len() && i != layer_idx ==> #[trigger] final(self).v@[i] == old(self).v@[i],
            final(self).key_rows(layer_idx as int) == replaced(
                old(self).key_rows(layer_idx as int),
                start_pos as int,
                rows(k_rows@, n as int, old(self).kv_dim as int),
            ),
            final(self).value_rows(layer_idx as int) == replaced(
                old(self).value_rows(layer_idx as int),
                start_pos as int,
                rows(v_rows@, n as int, old(self).kv_dim as int),
            ),
    {
        let ghost k_before = self.k@[layer_idx as int]@;
        let ghost v_before = self.v@[layer_idx as int]@;
        proof {
            lemma_replaced_rows(k_before, self.max_ctx as int, self.kv_dim as int, start_pos as int, k_rows@, n as int);
            lemma_replaced_rows(v_before, self.max_ctx as int, self.kv_dim as int, start_pos as int, v_rows@, n as int);
        }
        let at: usize = start_pos * self.kv_dim;
        overwrite(&mut self.k[layer_idx], at, k_rows);
        overwrite(&mut self.v[layer_idx], at, v_rows);
    }

    /// The keys and values of one layer for the first `total` positions.
    pub fn layer(&self, layer_idx: usize, total: usize) -> (r: (&[u32], &[u32]))
        requires
            self.wf(),
            layer_idx < self.k@.len(),
            total <= self.max_ctx,
        ensures
            r.0@.len() == total * self.kv_dim,
            rows(r.0@, total as int, self.kv_dim as int) == self.key_rows(layer_idx as int).take(total as int),
            r.1@.len() == total * self.kv_dim,
            rows(r.1@, total as int, self.kv_dim as int) == self.value_rows(layer_idx as int).take(total as int),
    {
        assert(self.k@[layer_idx as int]@.len() == self.max_ctx * self.kv_dim);
        assert(self.v@[layer_idx as int]@.len() == self.max_ctx * self.kv_dim);
        proof {
            lemma_first_rows(self.k@[layer_idx as int]@, self.max_ctx as int, self.kv_dim as int, total as int);
            lemma_first_rows(self.v@[layer_idx as int]@, self.max_ctx as int, self.kv_dim as int, total as int);
        }
        let end: usize = total * self.kv_dim;
        (
            vstd::slice::slice_subrange(self.k[layer_idx].as_slice(), 0, end),
            vstd::slice::slice_subrange(self.v[layer_idx].as_slice(), 0, end),
        )
    }
}

/// Overwrites some numbers of a vector.
fn overwrite(dst: &mut Vec<u32>, at: usize, src: &[u32])
    requires
        at + src@.len() <= old(dst)@.len(),
    ensures
        final(dst)@ == replaced(old(dst)@, at as int, src@),
{
    let mut i: usize = 0;
    while i < src.len()
        invariant
            i <= src@.len(),
            at + src@.len() <= dst.len(),
            dst@.len() == old(dst)@.len(),
            forall|j: int| 0 <= j < dst@.len() ==> #[trigger] dst@[j] == if at <= j < at + i {
                src@[j - at]
            } else {
                old(dst)@[j]
            },
        decreases src@.len() - i,
    {
        let v: u32 = src[i];
        dst[at + i] = v;
        i = i + 1;
    }
    assert(dst@ =~= replaced(old(dst)@, at as int, src@));
}

/// The rows of data of which some whole rows were overwritten.
proof fn lemma_replaced_rows(data: Seq<u32>, n: int, cols: int, at: int, src: Seq<u32>, m: int)
    requires
        0 <= at,
        0 <= m,
        0 <= cols,
        at + m <= n,
        data.len() == n * cols,
        src.len() == m * cols,
    ensures
        at * cols + src.len() <= data.len(),
        0 <= at * cols,
        replaced(data, at * cols, src).len() == data.len(),
        rows(replaced(data, at * cols, src), n, cols) == replaced(rows(data, n, cols), at, rows(src, m, cols)),
{
    assert(at * cols + m * cols == (at + m) * cols) by (nonlinear_arith);
    assert((at + m) * cols <= n * cols) by (nonlinear_arith)
        requires
            at + m <= n,
            0 <= cols,
    ;
    assert(0 <= at * cols) by (nonlinear_arith)
        requires
            0 <= at,
            0 <= cols,
    ;
    assert(0 <= m * cols) by (nonlinear_arith)
        requires
            0 <= m,
            0 <= cols,
    ;
    let new_data = replaced(data, at * cols, src);
    let want = replaced(rows(data, n, cols), at, rows(src, m, cols));
    assert forall|r: int| 0 <= r < n implies #[trigger] rows(new_data, n, cols)[r] == want[r] by {
        lemma_row_bounds(r, n, cols);
        if r < at {
            assert((r + 1) * cols <= at * cols) by (nonlinear_arith)
                requires
                    r + 1 <= at,
                    0 <= cols,
            ;
            assert(row(new_data, r, cols) =~= row(data, r, cols));
        } else if r < at + m {
            lemma_row_bounds(r - at, m, cols);
            assert(r * cols == at * cols + (r - at) * cols) by (nonlinear_arith);
            assert(row(new_data, r, cols) =~= row(src, r - at, cols));
        } else {
            assert((at + m) * cols <= r * cols) by (nonlinear_arith)
                requires
                    at + m <= r,
                    0 <= cols,
            ;
            assert(row(new_data, r, cols) =~= row(data, r, cols));
        }
    }
    assert(rows(new_data, n, cols) =~= want);
}

/// The first rows of data.
proof fn lemma_first_rows(data: Seq<u32>, n: int, cols: int, m: int)
    requires
        0 <= m <= n,
        0 <= cols,
        data.len() == n * cols,
    ensures
        0 <= m * cols <= data.len(),
        rows(data.subrange(0, m * cols), m, cols) == rows(data, n, cols).take(m),
{
    assert(0 <= m * cols <= n * cols) by (nonlinear_arith)
        requires
            0 <= m <= n,
            0 <= cols,
    ;
    assert forall|r: int| 0 <= r < m implies #[trigger] rows(data.subrange(0, m * cols), m, cols)[r] == rows(data, n, cols).take(m)[r] by {
        lemma_row_bounds(r, m, cols);
        assert(row(data.subrange(0, m * cols), r, cols) =~= row(data, r, cols));
    }
    assert(rows(data.subrange(0, m * cols), m, cols) =~= rows(data, n, cols).take(m));
}

/// What is appended to a cache is read back behind what was there.
pub proof fn lemma_append_reads_back(old_rows: Seq<Seq<u32>>, start: int, new_rows: Seq<Seq<u32>>)
    requires
        0 <= start,
        start + new_rows.len() <= old_rows.len(),
    ensures
        replaced(old_rows, start, new_rows).len() == old_rows.len(),
        replaced(old_rows, start, new_rows).take((start + new_rows.len()) as int) == old_rows.take(start) + new_rows,
{
    assert(replaced(old_rows, start, new_rows).take((start + new_rows.len()) as int) =~= old_rows.take(start) + new_rows);
}

// ---------------------------------------------------------------------------
// A block with the cache.
// ---------------------------------------------------------------------------

/// A block over new tokens from position `start` on, where `kc` and `vc` are the keys and values of
/// the positions before.
pub open spec fn layer_step<F: Arithmetic>(
    f: &F,
    x: Seq<Seq<u32>>,
    l: LayerView,
    c: Config,
    kc: Seq<Seq<u32>>,
    vc: Seq<Seq<u32>>,
    start: int,
) -> Seq<Seq<u32>> {
    layer_output(f, x, l, c, kc.take(start) + keys(f, x, l, c, start), vc.take(start) + values(f, x, l, c), start)
}

/// One block over new tokens, whose keys and values are written to the cache. The tokens are at the
/// positions from `start_pos` on. With an empty cache this is a whole prompt, else mostly one token.
pub fn layer_forward_cached<F: Arithmetic>(
    f: &F,
    x: &Tensor,
    layer: &Layer,
    config: &Config,
    cache: &mut KvCache,
    layer_idx: usize,
    start_pos: usize,
) -> (r: Tensor)
    requires
        f.wf(),
        layer.wf(),
        x.wf(),
        x.shape@.len() == 2,
        layer_fits(layer@, *config, x.shape@[1] as int),
        layer_sizes_fit(layer@, *config, x.shape@[1] as int, x.shape@[0] as int, start_pos + x.shape@[0]),
        old(cache).wf(),
        old(cache).kv_dim == config.n_kv_heads * config.head_dim,
        layer_idx < old(cache).k@.len(),
        0 < start_pos + x.shape@[0] <= old(cache).max_ctx,
    ensures
        r.is_matrix(x.shape@[0] as int, x.shape@[1] as int),
        r.matrix() == layer_step(
            f,
            x.matrix(),
            layer@,
            *config,
            old(cache).key_rows(layer_idx as int),
            old(cache).value_rows(layer_idx as int),
            start_pos as int,
        ),
        final(cache).wf(),
        final(cache).len == old(cache).len,
        final(cache).max_ctx == old(cache).max_ctx,
        final(cache).kv_dim == old(cache).kv_dim,
        final(cache).k@.len() == old(cache).k@.len(),
        forall|i: int| 0 <= i < old(cache).k@.len() && i != layer_idx ==> #[trigger] final(cache).k@[i] == old(cache).k@[i],
        forall|i: int| 0 <= i < old(cache).k@.len() && i != layer_idx ==> #[trigger] final(cache).v@[i] == old(cache).v@[i],
        final(cache).key_rows(layer_idx as int) == replaced(
            old(cache).key_rows(layer_idx as int),
            start_pos as int,
            keys(f, x.matrix(), layer@, *config, start_pos as int),
        ),
        final(cache).value_rows(layer_idx as int) == replaced(
            old(cache).value_rows(layer_idx as int),
            start_pos as int,
            values(f, x.matrix(), layer@, *config),
        ),
{
    let (nh, nkv, hd): (usize, usize, usize) = (config.n_heads, config.n_kv_heads, config.head_dim);
    let n_new: usize = x.shape[0];
    proof {
        lemma_sizes_one(layer@, *config, x.shape@[1] as int, n_new as int, start_pos + n_new);
    }
    let (q, k, v): (Tensor, Tensor, Tensor) = project(f, x, layer, config, start_pos);
    proof {
        k.lemma_matrix();
        v.lemma_matrix();
    }
    cache.append(layer_idx, start_pos, k.data.as_slice(), v.data.as_slice(), n_new);
    let total: usize = start_pos + n_new;
    let (k_cache, v_cache): (&[u32], &[u32]) = cache.layer(layer_idx, total);
    proof {
        lemma_append_reads_back(old(cache).key_rows(layer_idx as int), start_pos as int, k.matrix());
        lemma_append_reads_back(old(cache).value_rows(layer_idx as int), start_pos as int, v.matrix());
    }
    let probs: Tensor = attention_scores_cached(f, &q, k_cache, total, start_pos, nh, nkv, hd);
    let ctx: Tensor = attention_apply_cached(f, &probs, v_cache, nh, nkv, hd);
    finish(f, x, &ctx, layer, config)
}

// ---------------------------------------------------------------------------
// The whole network.
// ---------------------------------------------------------------------------

impl WeightView {
    /// Row `t` of the weight, decoded.
    pub open spec fn decoded_row<F: Arithmetic>(self, f: &F, t: int) -> Seq<u32> {
        match self {
            WeightView::F32(e) => row(e.data, t, e.shape[1] as int),
            WeightView::Quant { raw, dtype, out, inn } => {
                let (elems, bytes) = blocks_of(dtype)->0;
                decoded_blocks(f, dtype, block_at(raw, t, row_bytes(dtype, inn as int)), (inn / elems) as nat)
            },
        }
    }
}

/// A row of a quantized weight, decoded on its own, is the row of the weight decoded as a whole.
pub proof fn lemma_row_alone<F: Arithmetic>(f: &F, dtype: GgmlType, raw: Seq<u8>, out: usize, inn: usize, t: int)
    requires
        fused_fits(dtype, raw, out as int, inn as int),
        out * inn <= usize::MAX,
        0 <= t < out,
    ensures
        dequantized(f, dtype, raw, (out * inn) as usize) is Ok,
        (WeightView::Quant { raw, dtype, out, inn }).decoded_row(f, t) == row(
            dequantized(f, dtype, raw, (out * inn) as usize)->Ok_0,
            t,
            inn as int,
        ),
{
    let (elems, bytes) = blocks_of(dtype)->Some_0;
    let b = inn as int / elems as int;
    let n = out * b;
    let total = out * inn;
    assert(inn == b * elems && 0 <= b) by (nonlinear_arith)
        requires
            inn as int % elems as int == 0,
            elems > 0,
            b == inn as int / elems as int,
    ;
    assert(total == n * elems && 0 <= n) by (nonlinear_arith)
        requires
            inn == b * elems,
            total == out * inn,
            n == out * b,
            0 <= b,
    ;
    assert(total % (elems as int) == 0 && total / (elems as int) == n) by (nonlinear_arith)
        requires
            total == n * elems,
            elems > 0,
    ;
    assert(out * (b * bytes) == n * bytes) by (nonlinear_arith)
        requires
            n == out * b,
    ;
    let (first, last) = (t * b, (t + 1) * b);
    assert(0 <= first <= last <= n && last - first == b) by (nonlinear_arith)
        requires
            first == t * b,
            last == (t + 1) * b,
            n == out * b,
            0 <= t < out,
            0 <= b,
    ;
    assert(first * bytes == t * (b * bytes) && last * bytes == (t + 1) * (b * bytes)) by (nonlinear_arith)
        requires
            first == t * b,
            last == (t + 1) * b,
    ;
    assert(first * elems == t * inn && last * elems == (t + 1) * inn) by (nonlinear_arith)
        requires
            first == t * b,
            last == (t + 1) * b,
            inn == b * elems,
    ;
    lemma_decoded_range(f, dtype, raw, n as nat, first, last);
}

/// The embeddings of tokens.
pub open spec fn embedded<F: Arithmetic>(f: &F, embedding: WeightView, tokens: Seq<u32>) -> Seq<Seq<u32>> {
    Seq::new(tokens.len(), |s: int| embedding.decoded_row(f, tokens[s] as int))
}

/// Decodes one row of a weight.
fn decode_row<F: Arithmetic>(f: &F, w: &Weight, t: usize) -> (r: Vec<u32>)
    requires
        f.wf(),
        w.wf(),
        w@.fits(w@.out_dim(), w@.in_dim()),
        t < w@.out_dim(),
    ensures
        r@ == w@.decoded_row(f, t as int),
        r@.len() == w@.in_dim(),
{
    match w {
        Weight::F32(e) => {
            proof {
                e.lemma_matrix();
                lemma_row_bounds(t as int, e.shape@[0] as int, e.shape@[1] as int);
            }
            vstd::slice::slice_to_vec(row_slice(e.data.as_slice(), t, e.shape[1]))
        },
        Weight::Quant { raw, dtype, out, inn } => {
            let (elems, bytes): (usize, usize) = match dtype.block_layout() {
                Some(layout) => layout,
                None => (1, 1),
            };
            assert(blocks_of(*dtype) == Some((elems, bytes)));
            let ghost width = row_bytes(*dtype, *inn as int);
            let n: usize = *inn / elems;
            proof {
                lemma_row_bounds(t as int, *out as int, n * bytes);
                assert(raw.len() == raw@.len());
                assert(n * bytes <= (t + 1) * (n * bytes)) by (nonlinear_arith)
                    requires
                        n * bytes >= 0,
                        t >= 0,
                ;
                assert(n * bytes >= 0) by (nonlinear_arith);
                assert(t * (n * bytes) >= 0) by (nonlinear_arith);
            }
            let size: usize = n * bytes;
            let start: usize = t * size;
            let row: &[u8] = vstd::slice::slice_subrange(raw, start, start + size);
            assert(row@ == block_at(raw@, t as int, width));
            proof {
                lemma_dequantized_len(f, *dtype, row@, *inn);
            }
            match dequantize(f, *dtype, row, *inn) {
                Ok(values) => values,
                Err(_) => Vec::new(),
            }
        },
    }
}

/// Looks up the embeddings of tokens. Of a quantized embedding only the rows in use are decoded.
pub fn embed<F: Arithmetic>(f: &F, embedding: &Weight, tokens: &[u32]) -> (r: Tensor)
    requires
        f.wf(),
        embedding.wf(),
        embedding@.fits(embedding@.out_dim(), embedding@.in_dim()),
        forall|i: int| 0 <= i < tokens@.len() ==> #[trigger] tokens@[i] < embedding@.out_dim(),
        tokens@.len() * embedding@.in_dim() <= usize::MAX,
    ensures
        r.is_matrix(tokens@.len() as int, embedding@.in_dim()),
        r.matrix() == embedded(f, embedding@, tokens@),
{
    f.mark(Op::Embed, true);
    let hidden: usize = embedding.in_dim();
    let ghost all = embedded(f, embedding@, tokens@);
    let mut data: Vec<u32> = Vec::new();
    let mut s: usize = 0;
    assert(rows(data@, 0, hidden as int) =~= all.take(0));
    assert(0 * hidden == 0) by (nonlinear_arith);
    while s < tokens.len()
        invariant
            s <= tokens@.len(),
            f.wf(),
            embedding.wf(),
            embedding@.fits(embedding@.out_dim(), embedding@.in_dim()),
            hidden == embedding@.in_dim(),
            forall|i: int| 0 <= i < tokens@.len() ==> #[trigger] tokens@[i] < embedding@.out_dim(),
            all == embedded(f, embedding@, tokens@),
            data@.len() == s * hidden,
            rows(data@, s as int, hidden as int) == all.take(s as int),
        decreases tokens@.len() - s,
    {
        let mut out: Vec<u32> = decode_row(f, embedding, tokens[s] as usize);
        proof {
            lemma_push_row(data@, s as int, hidden as int, out@);
            assert(all.take(s + 1) =~= all.take(s as int).push(all[s as int]));
        }
        data.append(&mut out);
        s = s + 1;
    }
    assert(all.take(s as int) =~= all);
    let mut shape: Vec<usize> = Vec::new();
    shape.push(tokens.len());
    shape.push(hidden);
    proof {
        assert(shape@ =~= seq![tokens.len(), hidden]);
        lemma_shape2(tokens.len(), hidden);
    }
    let r: Tensor = Tensor::from_vec(data, shape);
    f.mark(Op::Embed, false);
    r
}

impl ModelView {
    /// Whether the weights fit together.
    pub open spec fn fits(self) -> bool {
        let d = self.config.hidden as int;
        &&& d > 0
        &&& self.embedding.is_matrix()
        &&& self.embedding.fits(self.embedding.out_dim(), d)
        &&& forall|i: int| 0 <= i < self.layers.len() ==> layer_fits(#[trigger] self.layers[i], self.config, d)
        &&& self.output_norm.shape == seq![d as usize]
        &&& self.lm_head.is_matrix()
        &&& self.lm_head.fits(self.lm_head.out_dim(), d)
    }

    /// Whether what the network computes for `n` tokens against `total` keys fits in memory.
    pub open spec fn sizes_fit(self, n: int, total: int) -> bool {
        &&& n * self.config.hidden <= usize::MAX
        &&& forall|i: int|
            0 <= i < self.layers.len() ==> layer_sizes_fit(#[trigger] self.layers[i], self.config, self.config.hidden as int, n, total)
    }

    /// Whether the tokens have embeddings.
    pub open spec fn knows(self, tokens: Seq<u32>) -> bool {
        forall|i: int| 0 <= i < tokens.len() ==> #[trigger] tokens[i] < self.embedding.out_dim()
    }

    /// The activations of a whole sequence behind the first `n` layers.
    pub open spec fn states<F: Arithmetic>(self, f: &F, tokens: Seq<u32>, n: nat) -> Seq<Seq<u32>>
        decreases n,
    {
        if n == 0 {
            embedded(f, self.embedding, tokens)
        } else {
            layer_of_sequence(f, self.states(f, tokens, (n - 1) as nat), self.layers[n - 1], self.config)
        }
    }

    /// The logits for the last of these activations.
    pub open spec fn head<F: Arithmetic>(self, f: &F, x: Seq<Seq<u32>>) -> Seq<u32> {
        linear_of(f, seq![normalized(f, x.last(), self.output_norm.data, self.config.rms_eps)], self.lm_head, None)[0]
    }

    /// The logits behind a whole sequence.
    pub open spec fn logits<F: Arithmetic>(self, f: &F, tokens: Seq<u32>) -> Seq<u32> {
        self.head(f, self.states(f, tokens, self.layers.len()))
    }

    /// The activations of new tokens behind the first `n` layers, where `kc` and `vc` are the keys
    /// and values of each layer for the positions before `start`.
    pub open spec fn cached_states<F: Arithmetic>(
        self,
        f: &F,
        tokens: Seq<u32>,
        kc: Seq<Seq<Seq<u32>>>,
        vc: Seq<Seq<Seq<u32>>>,
        start: int,
        n: nat,
    ) -> Seq<Seq<u32>>
        decreases n,
    {
        if n == 0 {
            embedded(f, self.embedding, tokens)
        } else {
            layer_step(
                f,
                self.cached_states(f, tokens, kc, vc, start, (n - 1) as nat),
                self.layers[n - 1],
                self.config,
                kc[n - 1],
                vc[n - 1],
                start,
            )
        }
    }

    /// The keys that layer `i` computes for new tokens.
    pub open spec fn new_keys<F: Arithmetic>(self, f: &F, tokens: Seq<u32>, kc: Seq<Seq<Seq<u32>>>, vc: Seq<Seq<Seq<u32>>>, start: int, i: int) -> Seq<Seq<u32>> {
        keys(f, self.cached_states(f, tokens, kc, vc, start, i as nat), self.layers[i], self.config, start)
    }

    /// The values that layer `i` computes for new tokens.
    pub open spec fn new_values<F: Arithmetic>(self, f: &F, tokens: Seq<u32>, kc: Seq<Seq<Seq<u32>>>, vc: Seq<Seq<Seq<u32>>>, start: int, i: int) -> Seq<Seq<u32>> {
        values(f, self.cached_states(f, tokens, kc, vc, start, i as nat), self.layers[i], self.config)
    }

    /// The keys of each layer behind new tokens.
    pub open spec fn keys_after<F: Arithmetic>(self, f: &F, tokens: Seq<u32>, kc: Seq<Seq<Seq<u32>>>, vc: Seq<Seq<Seq<u32>>>, start: int) -> Seq<Seq<Seq<u32>>> {
        Seq::new(kc.len(), |i: int| replaced(kc[i], start, self.new_keys(f, tokens, kc, vc, start, i)))
    }

    /// The values of each layer behind new tokens.
    pub open spec fn values_after<F: Arithmetic>(self, f: &F, tokens: Seq<u32>, kc: Seq<Seq<Seq<u32>>>, vc: Seq<Seq<Seq<u32>>>, start: int) -> Seq<Seq<Seq<u32>>> {
        Seq::new(vc.len(), |i: int| replaced(vc[i], start, self.new_values(f, tokens, kc, vc, start, i)))
    }

    /// The logits behind new tokens.
    pub open spec fn cached_logits<F: Arithmetic>(self, f: &F, tokens: Seq<u32>, kc: Seq<Seq<Seq<u32>>>, vc: Seq<Seq<Seq<u32>>>, start: int) -> Seq<u32> {
        self.head(f, self.cached_states(f, tokens, kc, vc, start, self.layers.len()))
    }
}

impl KvCache {
    /// The rows of keys of all layers.
    pub open spec fn all_keys(self) -> Seq<Seq<Seq<u32>>> {
        Seq::new(self.k@.len(), |i: int| self.key_rows(i))
    }

    /// The rows of values of all layers.
    pub open spec fn all_values(self) -> Seq<Seq<Seq<u32>>> {
        Seq::new(self.v@.len(), |i: int| self.value_rows(i))
    }
}

impl<'a> Model<'a> {
    /// Computes the logits of the last row of activations.
    fn last_row_logits<F: Arithmetic>(&self, f: &F, x: &Tensor) -> (r: Tensor)
        requires
            f.wf(),
            self.wf(),
            self@.fits(),
            x.wf(),
            x.shape@.len() == 2,
            x.shape@[0] > 0,
            x.shape@[1] == self.config.hidden,
        ensures
            r.is_matrix(1, self@.lm_head.out_dim()),
            r.data@ == self@.head(f, x.matrix()),
    {
        let hidden: usize = self.config.hidden;
        let xn: Tensor = norm_rows(f, x, &self.output_norm, self.config.rms_eps);
        let n: usize = xn.shape[0];
        proof {
            xn.lemma_matrix();
            lemma_row_bounds(n - 1, n as int, hidden as int);
        }
        let last_row: Vec<u32> = vstd::slice::slice_to_vec(row_slice(xn.data.as_slice(), n - 1, hidden));
        let mut shape: Vec<usize> = Vec::new();
        shape.push(1);
        shape.push(hidden);
        proof {
            assert(shape@ =~= seq![1usize, hidden]);
            lemma_shape2(1, hidden);
            assert(last_row@ == xn.matrix()[n - 1]);
        }
        let last: Tensor = Tensor::from_vec(last_row, shape);
        proof {
            assert(1 * hidden == hidden && 0 * hidden == 0) by (nonlinear_arith);
            assert(row(last.data@, 0, hidden as int) =~= last.data@);
            assert(last.matrix() =~= seq![last.data@]);
            let o = self@.lm_head.out_dim();
            assert(1 * o == o) by (nonlinear_arith);
        }
        let r: Tensor = linear(f, &last, &self.lm_head, None);
        proof {
            r.lemma_matrix();
            let o = self@.lm_head.out_dim();
            assert(0 * o == 0 && (0 + 1) * o == o && 1 * o == o) by (nonlinear_arith);
            assert(row(r.data@, 0, o) =~= r.data@);
            assert(r.matrix()[0] == r.data@);
        }
        r
    }

    /// Computes the logits behind a whole sequence, from scratch: [1, vocab].
    pub fn forward_last<F: Arithmetic>(&self, f: &F, tokens: &[u32]) -> (r: Tensor)
        requires
            f.wf(),
            self.wf(),
            self@.fits(),
            tokens@.len() > 0,
            self@.knows(tokens@),
            self@.sizes_fit(tokens@.len() as int, tokens@.len() as int),
        ensures
            r.is_matrix(1, self@.lm_head.out_dim()),
            r.data@ == self@.logits(f, tokens@),
    {
        let mut x: Tensor = embed(f, &self.embedding, tokens);
        let mut i: usize = 0;
        while i < self.layers.len()
            invariant
                i <= self.layers@.len(),
                f.wf(),
                self.wf(),
                self@.fits(),
                tokens@.len() > 0,
                self@.sizes_fit(tokens@.len() as int, tokens@.len() as int),
                x.is_matrix(tokens@.len() as int, self.config.hidden as int),
                x.matrix() == self@.states(f, tokens@, i as nat),
            decreases self.layers@.len() - i,
        {
            let layer: &Layer = &self.layers[i];
            assert(self@.layers[i as int] == layer@);
            x = layer_forward(f, &x, layer, &self.config);
            i = i + 1;
        }
        self.last_row_logits(f, &x)
    }

    /// Computes the logits behind new tokens, which follow those in the cache: the whole prompt at
    /// first, then one token at a time. The cache gets their keys and values.
    pub fn forward_cached<F: Arithmetic>(&self, f: &F, tokens: &[u32], cache: &mut KvCache) -> (r: Tensor)
        requires
            f.wf(),
            self.wf(),
            self@.fits(),
            tokens@.len() > 0,
            self@.knows(tokens@),
            self@.sizes_fit(tokens@.len() as int, old(cache).len + tokens@.len()),
            old(cache).wf(),
            old(cache).kv_dim == self.config.n_kv_heads * self.config.head_dim,
            old(cache).k@.len() == self.layers@.len(),
            old(cache).len + tokens@.len() <= old(cache).max_ctx,
        ensures
            r.is_matrix(1, self@.lm_head.out_dim()),
            r.data@ == self@.cached_logits(f, tokens@, old(cache).all_keys(), old(cache).all_values(), old(cache).len as int),
            final(cache).wf(),
            final(cache).len == old(cache).len + tokens@.len(),
            final(cache).max_ctx == old(cache).max_ctx,
            final(cache).kv_dim == old(cache).kv_dim,
            final(cache).k@.len() == old(cache).k@.len(),
            forall|i: int| 0 <= i < old(cache).k@.len() ==> #[trigger] final(cache).key_rows(i) == replaced(
                old(cache).key_rows(i),
                old(cache).len as int,
                self@.new_keys(f, tokens@, old(cache).all_keys(), old(cache).all_values(), old(cache).len as int, i),
            ),
            forall|i: int| 0 <= i < old(cache).k@.len() ==> #[trigger] final(cache).value_rows(i) == replaced(
                old(cache).value_rows(i),
                old(cache).len as int,
                self@.new_values(f, tokens@, old(cache).all_keys(), old(cache).all_values(), old(cache).len as int, i),
            ),
    {
        let start: usize = cache.len;
        let ghost before = *cache;
        let ghost kc = cache.all_keys();
        let ghost vc = cache.all_values();
        let mut x: Tensor = embed(f, &self.embedding, tokens);
        let mut i: usize = 0;
        while i < self.layers.len()
            invariant
                i <= self.layers@.len(),
                f.wf(),
                self.wf(),
                self@.fits(),
                tokens@.len() > 0,
                self@.sizes_fit(tokens@.len() as int, start + tokens@.len()),
                before == *old(cache),
                start == before.len,
                kc == before.all_keys(),
                vc == before.all_values(),
                before.wf(),
                before.k@.len() == self.layers@.len(),
                cache.wf(),
                cache.len == before.len,
                cache.max_ctx == before.max_ctx,
                cache.kv_dim == before.kv_dim,
                cache.kv_dim == self.config.n_kv_heads * self.config.head_dim,
                cache.k@.len() == before.k@.len(),
                start + tokens@.len() <= cache.max_ctx,
                x.is_matrix(tokens@.len() as int, self.config.hidden as int),
                x.matrix() == self@.cached_states(f, tokens@, kc, vc, start as int, i as nat),
                forall|a: int| i <= a < before.k@.len() ==> #[trigger] cache.k@[a] == before.k@[a],
                forall|a: int| i <= a < before.k@.len() ==> #[trigger] cache.v@[a] == before.v@[a],
                forall|a: int| 0 <= a < i ==> #[trigger] cache.key_rows(a) == replaced(
                    before.key_rows(a),
                    start as int,
                    self@.new_keys(f, tokens@, kc, vc, start as int, a),
                ),
                forall|a: int| 0 <= a < i ==> #[trigger] cache.value_rows(a) == replaced(
                    before.value_rows(a),
                    start as int,
                    self@.new_values(f, tokens@, kc, vc, start as int, a),
                ),
            decreases self.layers@.len() - i,
        {
            let layer: &Layer = &self.layers[i];
            assert(self@.layers[i as int] == layer@);
            assert(cache.k@[i as int] == before.k@[i as int]);
            assert(cache.v@[i as int] == before.v@[i as int]);
            assert(kc[i as int] == cache.key_rows(i as int));
            assert(vc[i as int] == cache.value_rows(i as int));
            let ghost mid = *cache;
            x = layer_forward_cached(f, &x, layer, &self.config, cache, i, start);
            proof {
                assert forall|a: int| 0 <= a < i + 1 implies #[trigger] cache.key_rows(a) == replaced(
                    before.key_rows(a),
                    start as int,
                    self@.new_keys(f, tokens@, kc, vc, start as int, a),
                ) by {
                    if a < i {
                        assert(cache.k@[a] == mid.k@[a]);
                        assert(cache.key_rows(a) == mid.key_rows(a));
                    }
                }
                assert forall|a: int| 0 <= a < i + 1 implies #[trigger] cache.value_rows(a) == replaced(
                    before.value_rows(a),
                    start as int,
                    self@.new_values(f, tokens@, kc, vc, start as int, a),
                ) by {
                    if a < i {
                        assert(cache.v@[a] == mid.v@[a]);
                        assert(cache.value_rows(a) == mid.value_rows(a));
                    }
                }
            }
            i = i + 1;
        }
        let ghost done = *cache;
        cache.len = start + tokens.len();
        proof {
            assert forall|a: int| 0 <= a < before.k@.len() implies #[trigger] cache.key_rows(a) == done.key_rows(a) by {}
            assert forall|a: int| 0 <= a < before.k@.len() implies #[trigger] cache.value_rows(a) == done.value_rows(a) by {}
        }
        self.last_row_logits(f, &x)
    }
}

// ---------------------------------------------------------------------------
// Whether a network that was read can be run.
// ---------------------------------------------------------------------------

/// Whether a product fits in a machine word.
fn product_fits(a: usize, b: usize) -> (r: bool)
    ensures
        r == (a * b <= usize::MAX),
{
    a.checked_mul(b).is_some()
}

/// Whether a tensor is a vector of this length.
fn is_vector(t: &Tensor, n: usize) -> (r: bool)
    ensures
        r == (t.shape@ == seq![n]),
{
    let r: bool = t.shape.len() == 1 && t.shape[0] == n;
    assert(r == (t.shape@ =~= seq![n]));
    r
}

impl<'a> Layer<'a> {
    /// Whether the weights fit together, on activations of `d` numbers.
    pub fn check(&self, config: &Config, d: usize) -> (r: bool)
        requires
            self.wf(),
        ensures
            r == layer_fits(self@, *config, d as int),
    {
        if d == 0 || config.n_kv_heads == 0 || config.n_heads % config.n_kv_heads != 0 {
            return false;
        }
        if !product_fits(config.n_heads, config.head_dim) || !product_fits(config.n_kv_heads, config.head_dim) {
            return false;
        }
        let q_dim: usize = config.n_heads * config.head_dim;
        let kv_dim: usize = config.n_kv_heads * config.head_dim;
        if !is_vector(&self.attn_norm, d) || !self.wq.check(q_dim, d) || !is_vector(&self.bq, q_dim) || !self.wk.check(kv_dim, d) {
            return false;
        }
        if !is_vector(&self.bk, kv_dim) || !self.wv.check(kv_dim, d) || !is_vector(&self.bv, kv_dim) || !self.wo.check(d, q_dim) {
            return false;
        }
        if !is_vector(&self.ffn_norm, d) || !self.w_gate.is_matrix() {
            return false;
        }
        let ffn: usize = self.w_gate.out_dim();
        self.w_gate.check(ffn, d) && self.w_up.check(ffn, d) && self.w_down.check(d, ffn)
    }

    /// Whether what the layer computes for `n` tokens against `total` keys fits in memory.
    fn check_sizes(&self, config: &Config, d: usize, n: usize, total: usize) -> (r: bool)
        requires
            self.wf(),
            layer_fits(self@, *config, d as int),
        ensures
            r == layer_sizes_fit(self@, *config, d as int, n as int, total as int),
    {
        let q_dim: usize = config.n_heads * config.head_dim;
        let kv_dim: usize = config.n_kv_heads * config.head_dim;
        if !product_fits(n, d) || !product_fits(n, q_dim) || !product_fits(n, kv_dim) || !product_fits(n, self.w_gate.out_dim()) {
            return false;
        }
        if !product_fits(config.n_heads, n) || !product_fits(n, total) {
            return false;
        }
        product_fits(config.n_heads * n, total)
    }
}

/// How many bytes the first `n` layers keep in memory.
pub open spec fn layers_bytes(layers: Seq<LayerView>, n: nat) -> int
    decreases n,
{
    if n == 0 {
        0
    } else {
        layers_bytes(layers, (n - 1) as nat) + layer_bytes(layers[n - 1])
    }
}

/// How many bytes a layer keeps in memory.
pub open spec fn layer_bytes(l: LayerView) -> int {
    let vectors = volume(l.attn_norm.shape) + volume(l.bq.shape) + volume(l.bk.shape) + volume(l.bv.shape) + volume(l.ffn_norm.shape);
    l.wq.bytes() + l.wk.bytes() + l.wv.bytes() + l.wo.bytes() + l.w_gate.bytes() + l.w_up.bytes() + l.w_down.bytes() + vectors * 4
}

/// More layers keep no fewer bytes.
proof fn lemma_layers_bytes(layers: Seq<LayerView>, n: nat, m: nat)
    requires
        n <= m <= layers.len(),
    ensures
        0 <= layers_bytes(layers, n) <= layers_bytes(layers, m),
    decreases m,
{
    if n < m {
        lemma_layers_bytes(layers, n, (m - 1) as nat);
    } else if n > 0 {
        lemma_layers_bytes(layers, (n - 1) as nat, (n - 1) as nat);
    }
}

impl ModelView {
    /// How many bytes the weights keep in memory.
    pub open spec fn param_bytes(self) -> int {
        layers_bytes(self.layers, self.layers.len()) + self.embedding.bytes() + volume(self.output_norm.shape) * 4 + self.lm_head.bytes()
    }
}

impl<'a> Model<'a> {
    /// Whether the weights fit together.
    pub fn check(&self) -> (r: bool)
        requires
            self.wf(),
        ensures
            r == self@.fits(),
    {
        let d: usize = self.config.hidden;
        if d == 0 || !self.embedding.is_matrix() || !self.embedding.check(self.embedding.out_dim(), d) {
            return false;
        }
        let mut i: usize = 0;
        while i < self.layers.len()
            invariant
                i <= self.layers@.len(),
                self.wf(),
                d == self.config.hidden,
                forall|k: int| 0 <= k < i ==> layer_fits(#[trigger] self@.layers[k], self.config, d as int),
            decreases self.layers@.len() - i,
        {
            assert(self@.layers[i as int] == self.layers@[i as int]@);
            if !self.layers[i].check(&self.config, d) {
                assert(!layer_fits(self@.layers[i as int], self.config, d as int));
                return false;
            }
            i = i + 1;
        }
        is_vector(&self.output_norm, d) && self.lm_head.is_matrix() && self.lm_head.check(self.lm_head.out_dim(), d)
    }

    /// Whether what the network computes for `n` tokens against `total` keys fits in memory.
    pub fn check_sizes(&self, n: usize, total: usize) -> (r: bool)
        requires
            self.wf(),
            self@.fits(),
        ensures
            r == self@.sizes_fit(n as int, total as int),
    {
        let d: usize = self.config.hidden;
        if !product_fits(n, d) {
            return false;
        }
        let mut i: usize = 0;
        while i < self.layers.len()
            invariant
                i <= self.layers@.len(),
                self.wf(),
                self@.fits(),
                d == self.config.hidden,
                forall|k: int| 0 <= k < i ==> layer_sizes_fit(#[trigger] self@.layers[k], self.config, d as int, n as int, total as int),
            decreases self.layers@.len() - i,
        {
            assert(self@.layers[i as int] == self.layers@[i as int]@);
            if !self.layers[i].check_sizes(&self.config, d, n, total) {
                assert(!layer_sizes_fit(self@.layers[i as int], self.config, d as int, n as int, total as int));
                return false;
            }
            i = i + 1;
        }
        true
    }

    /// Whether the tokens have embeddings.
    pub fn check_tokens(&self, tokens: &[u32]) -> (r: bool)
        requires
            self.wf(),
            self@.fits(),
        ensures
            r == self@.knows(tokens@),
    {
        let vocab: usize = self.embedding.out_dim();
        let mut i: usize = 0;
        while i < tokens.len()
            invariant
                i <= tokens@.len(),
                vocab == self@.embedding.out_dim(),
                forall|k: int| 0 <= k < i ==> #[trigger] tokens@[k] < vocab,
            decreases tokens@.len() - i,
        {
            if tokens[i] as usize >= vocab {
                return false;
            }
            i = i + 1;
        }
        true
    }

    /// How many bytes the weights keep in memory.
    pub fn param_bytes(&self) -> (r: usize)
        requires
            self.wf(),
            self@.param_bytes() <= usize::MAX,
        ensures
            r == self@.param_bytes(),
    {
        let ghost views = self@.layers;
        let mut sum: usize = 0;
        let mut i: usize = 0;
        proof {
            lemma_layers_bytes(views, 0, views.len());
        }
        while i < self.layers.len()
            invariant
                i <= self.layers@.len(),
                self.wf(),
                views == self@.layers,
                sum == layers_bytes(views, i as nat),
                layers_bytes(views, views.len()) <= usize::MAX,
            decreases self.layers@.len() - i,
        {
            let l: &Layer = &self.layers[i];
            proof {
                assert(views[i as int] == l@);
                lemma_layers_bytes(views, (i + 1) as nat, views.len());
                lemma_layers_bytes(views, 0, i as nat);
            }
            let products: usize = l.wq.bytes() + l.wk.bytes() + l.wv.bytes() + l.wo.bytes() + l.w_gate.bytes() + l.w_up.bytes()
                + l.w_down.bytes();
            let vectors: usize = l.attn_norm.numel() + l.bq.numel() + l.bk.numel() + l.bv.numel() + l.ffn_norm.numel();
            sum = sum + (products + vectors * 4);
            i = i + 1;
        }
        sum + self.embedding.bytes() + self.output_norm.numel() * 4 + self.lm_head.bytes()
    }
}

} // verus!
