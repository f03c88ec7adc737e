//! Why the cache changes nothing: each token is computed on its own, from itself and the tokens
//! before it.

use vstd::arithmetic::div_mod::*;
use vstd::prelude::*;

use crate::attention::{all_turned, context, kv_head, lemma_kv_head, linear_of, probabilities, scores, weighted};
use crate::float::{equal, is_finite, is_nan, less, Arithmetic, NEGATIVE_INFINITY, NEGATIVE_ZERO, ONE, ZERO};
use crate::generate::{advanced, argmax_of, can_run, closing, context_cap, empty_rows, events_with, generated_with, last_tokens, lemma_opening, lemma_step, lemma_uncached_step, lemma_written, prefilled, run, run_events, run_uncached, streamed, uncached_events, written, EventView, Progress};
use crate::model::{attended, embedded, feed_forward, keys, layer_fits, layer_of_sequence, layer_output, layer_step, lemma_append_reads_back, queries, rows_gated, rows_sum, values};
use crate::sampler::{with_penalty, Sampler};
use crate::tensor::{all_normalized, greatest, shifted_exponentials, softmaxed, total};
use crate::tokenizer::TokenizerView;
use crate::weights::{Config, LayerView, ModelView, WeightView};

verus! {

// ---------------------------------------------------------------------------
// Each row on its own.
// ---------------------------------------------------------------------------

/// A row of a product depends on that row alone.
proof fn lemma_linear_row<F: Arithmetic>(f: &F, x: Seq<Seq<u32>>, w: WeightView, bias: Option<Seq<u32>>, s: int)
    requires
        0 <= s < x.len(),
    ensures
        linear_of(f, x, w, bias).len() == x.len(),
        linear_of(f, x, w, bias)[s] == linear_of(f, seq![x[s]], w, bias)[0],
{
    let one = seq![x[s]];
    assert(w.product(f, x)[s] =~= w.product(f, one)[0]);
    assert(linear_of(f, x, w, bias)[s] =~= linear_of(f, one, w, bias)[0]);
}

/// A row of turned products depends on that row and its position alone.
proof fn lemma_turned_row<F: Arithmetic>(f: &F, x: Seq<Seq<u32>>, norm: Seq<u32>, w: WeightView, bias: Seq<u32>, c: Config, start: int, s: int)
    requires
        0 <= s < x.len(),
    ensures
        ({
            let all = all_turned(f, linear_of(f, all_normalized(f, x, norm, c.rms_eps), w, Some(bias)), c.head_dim, c.rope_theta, start);
            let one = all_turned(
                f,
                linear_of(f, all_normalized(f, seq![x[s]], norm, c.rms_eps), w, Some(bias)),
                c.head_dim,
                c.rope_theta,
                start + s,
            );
            all.len() == x.len() && one.len() == 1 && all[s] == one[0]
        }),
{
    let xn = all_normalized(f, x, norm, c.rms_eps);
    let one = all_normalized(f, seq![x[s]], norm, c.rms_eps);
    assert(one =~= seq![xn[s]]);
    lemma_linear_row(f, xn, w, Some(bias), s);
    lemma_linear_row(f, one, w, Some(bias), 0);
}

/// A query depends on its row and its position alone.
pub proof fn lemma_query_row<F: Arithmetic>(f: &F, x: Seq<Seq<u32>>, l: LayerView, c: Config, start: int, s: int)
    requires
        0 <= s < x.len(),
    ensures
        queries(f, x, l, c, start).len() == x.len(),
        queries(f, seq![x[s]], l, c, start + s) == seq![queries(f, x, l, c, start)[s]],
{
    lemma_turned_row(f, x, l.attn_norm.data, l.wq, l.bq.data, c, start, s);
    assert(queries(f, seq![x[s]], l, c, start + s) =~= seq![queries(f, x, l, c, start)[s]]);
}

/// A key depends on its row and its position alone.
pub proof fn lemma_key_row<F: Arithmetic>(f: &F, x: Seq<Seq<u32>>, l: LayerView, c: Config, start: int, s: int)
    requires
        0 <= s < x.len(),
    ensures
        keys(f, x, l, c, start).len() == x.len(),
        keys(f, seq![x[s]], l, c, start + s) == seq![keys(f, x, l, c, start)[s]],
{
    lemma_turned_row(f, x, l.attn_norm.data, l.wk, l.bk.data, c, start, s);
    assert(keys(f, seq![x[s]], l, c, start + s) =~= seq![keys(f, x, l, c, start)[s]]);
}

/// A value depends on its row alone.
pub proof fn lemma_value_row<F: Arithmetic>(f: &F, x: Seq<Seq<u32>>, l: LayerView, c: Config, s: int)
    requires
        0 <= s < x.len(),
    ensures
        values(f, x, l, c).len() == x.len(),
        values(f, seq![x[s]], l, c) == seq![values(f, x, l, c)[s]],
{
    let xn = all_normalized(f, x, l.attn_norm.data, c.rms_eps);
    assert(all_normalized(f, seq![x[s]], l.attn_norm.data, c.rms_eps) =~= seq![xn[s]]);
    lemma_linear_row(f, xn, l.wv, Some(l.bv.data), s);
    lemma_linear_row(f, seq![xn[s]], l.wv, Some(l.bv.data), 0);
    assert(values(f, seq![x[s]], l, c) =~= seq![values(f, x, l, c)[s]]);
}

/// As many queries, keys and values as tokens.
pub proof fn lemma_key_count<F: Arithmetic>(f: &F, x: Seq<Seq<u32>>, l: LayerView, c: Config, start: int)
    ensures
        keys(f, x, l, c, start).len() == x.len(),
        values(f, x, l, c).len() == x.len(),
        queries(f, x, l, c, start).len() == x.len(),
{
    let xn = all_normalized(f, x, l.attn_norm.data, c.rms_eps);
    assert(linear_of(f, xn, l.wk, Some(l.bk.data)).len() == x.len());
    assert(linear_of(f, xn, l.wv, Some(l.bv.data)).len() == x.len());
    assert(linear_of(f, xn, l.wq, Some(l.bq.data)).len() == x.len());
}

/// The keys and values of the first tokens.
pub proof fn lemma_keys_take<F: Arithmetic>(f: &F, x: Seq<Seq<u32>>, l: LayerView, c: Config, m: int)
    requires
        0 <= m <= x.len(),
    ensures
        keys(f, x.take(m), l, c, 0) == keys(f, x, l, c, 0).take(m),
        values(f, x.take(m), l, c) == values(f, x, l, c).take(m),
{
    lemma_key_count(f, x, l, c, 0);
    lemma_key_count(f, x.take(m), l, c, 0);
    assert forall|s: int| 0 <= s < m implies #[trigger] keys(f, x.take(m), l, c, 0)[s] == keys(f, x, l, c, 0).take(m)[s] by {
        lemma_key_row(f, x, l, c, 0, s);
        lemma_key_row(f, x.take(m), l, c, 0, s);
        assert(seq![keys(f, x, l, c, 0)[s]][0] == seq![keys(f, x.take(m), l, c, 0)[s]][0]);
    }
    assert(keys(f, x.take(m), l, c, 0) =~= keys(f, x, l, c, 0).take(m));
    assert forall|s: int| 0 <= s < m implies #[trigger] values(f, x.take(m), l, c)[s] == values(f, x, l, c).take(m)[s] by {
        lemma_value_row(f, x, l, c, s);
        lemma_value_row(f, x.take(m), l, c, s);
        assert(seq![values(f, x, l, c)[s]][0] == seq![values(f, x.take(m), l, c)[s]][0]);
    }
    assert(values(f, x.take(m), l, c) =~= values(f, x, l, c).take(m));
}

/// The keys and values of the last tokens, at the positions where they stand.
proof fn lemma_keys_skip<F: Arithmetic>(f: &F, x: Seq<Seq<u32>>, l: LayerView, c: Config, m: int)
    requires
        0 <= m <= x.len(),
    ensures
        keys(f, x.skip(m), l, c, m) == keys(f, x, l, c, 0).skip(m),
        values(f, x.skip(m), l, c) == values(f, x, l, c).skip(m),
{
    lemma_key_count(f, x, l, c, 0);
    lemma_key_count(f, x.skip(m), l, c, m);
    assert forall|s: int| 0 <= s < x.len() - m implies #[trigger] keys(f, x.skip(m), l, c, m)[s] == keys(f, x, l, c, 0).skip(m)[s] by {
        lemma_key_row(f, x, l, c, 0, m + s);
        lemma_key_row(f, x.skip(m), l, c, m, s);
        assert(x.skip(m)[s] == x[m + s]);
        assert(seq![keys(f, x, l, c, 0)[m + s]][0] == seq![keys(f, x.skip(m), l, c, m)[s]][0]);
    }
    assert(keys(f, x.skip(m), l, c, m) =~= keys(f, x, l, c, 0).skip(m));
    assert forall|s: int| 0 <= s < x.len() - m implies #[trigger] values(f, x.skip(m), l, c)[s] == values(f, x, l, c).skip(m)[s] by {
        lemma_value_row(f, x, l, c, m + s);
        lemma_value_row(f, x.skip(m), l, c, s);
        assert(x.skip(m)[s] == x[m + s]);
        assert(seq![values(f, x, l, c)[m + s]][0] == seq![values(f, x.skip(m), l, c)[s]][0]);
    }
    assert(values(f, x.skip(m), l, c) =~= values(f, x, l, c).skip(m));
}

/// What one query at the position `pos` reads.
pub open spec fn attended_row<F: Arithmetic>(f: &F, q: Seq<u32>, ks: Seq<Seq<u32>>, vs: Seq<Seq<u32>>, c: Config, pos: int) -> Seq<u32> {
    Seq::new(
        (c.n_heads * c.head_dim) as nat,
        |j: int|
            {
                let h = j / c.head_dim as int;
                let kv = kv_head(h, c.n_heads as int, c.n_kv_heads as int);
                weighted(f, softmaxed(f, scores(f, q, ks, h, kv, c.head_dim, pos)), vs, kv * c.head_dim + j % c.head_dim as int, vs.len())
            },
    )
}

/// What queries read, each on its own.
pub proof fn lemma_attended_row<F: Arithmetic>(f: &F, qs: Seq<Seq<u32>>, ks: Seq<Seq<u32>>, vs: Seq<Seq<u32>>, c: Config, start: int, s: int)
    requires
        0 <= s < qs.len(),
    ensures
        attended(f, qs, ks, vs, c, start)[s] == attended_row(f, qs[s], ks, vs, c, start + s),
{
    let n = qs.len() as int;
    let (nh, hd) = (c.n_heads as int, c.head_dim as int);
    let probs = probabilities(f, qs, ks, c.n_heads, c.n_kv_heads, c.head_dim, start);
    let got = context(f, probs, vs, n, s, c.n_heads, c.n_kv_heads, c.head_dim);
    let want = attended_row(f, qs[s], ks, vs, c, start + s);
    assert forall|j: int| 0 <= j < got.len() implies #[trigger] got[j] == want[j] by {
        let h = j / hd;
        assert(hd > 0) by (nonlinear_arith)
            requires
                0 <= j < nh * hd,
                0 <= nh,
                0 <= hd,
        ;
        assert(0 <= h < nh) by (nonlinear_arith)
            requires
                0 <= j < nh * hd,
                hd > 0,
                h == j / hd,
        ;
        let i = h * n + s;
        lemma_fundamental_div_mod_converse(i, n, h, s);
        assert(0 <= i < nh * n) by (nonlinear_arith)
            requires
                0 <= h < nh,
                0 <= s < n,
                i == h * n + s,
        ;
        assert(probs[i] == softmaxed(f, scores(f, qs[s], ks, h, kv_head(h, nh, c.n_kv_heads as int), c.head_dim, start + s)));
    }
    assert(got =~= want);
}

/// The rest of a block, each row on its own.
proof fn lemma_feed_forward_row<F: Arithmetic>(f: &F, x: Seq<Seq<u32>>, ctx: Seq<Seq<u32>>, l: LayerView, c: Config, s: int)
    requires
        0 <= s < x.len(),
        ctx.len() == x.len(),
    ensures
        feed_forward(f, x, ctx, l, c).len() == x.len(),
        feed_forward(f, x, ctx, l, c)[s] == feed_forward(f, seq![x[s]], seq![ctx[s]], l, c)[0],
{
    let one = seq![x[s]];
    let ctx1 = seq![ctx[s]];
    lemma_linear_row(f, ctx, l.wo, None, s);
    lemma_linear_row(f, ctx1, l.wo, None, 0);
    let h1 = rows_sum(f, x, linear_of(f, ctx, l.wo, None));
    let h1_one = rows_sum(f, one, linear_of(f, ctx1, l.wo, None));
    assert(h1_one[0] =~= h1[s]);
    assert(h1_one =~= seq![h1[s]]);
    let hn = all_normalized(f, h1, l.ffn_norm.data, c.rms_eps);
    let hn_one = all_normalized(f, h1_one, l.ffn_norm.data, c.rms_eps);
    assert(hn_one =~= seq![hn[s]]);
    lemma_linear_row(f, hn, l.w_gate, None, s);
    lemma_linear_row(f, hn_one, l.w_gate, None, 0);
    lemma_linear_row(f, hn, l.w_up, None, s);
    lemma_linear_row(f, hn_one, l.w_up, None, 0);
    let both = rows_gated(f, linear_of(f, hn, l.w_gate, None), linear_of(f, hn, l.w_up, None));
    let both_one = rows_gated(f, linear_of(f, hn_one, l.w_gate, None), linear_of(f, hn_one, l.w_up, None));
    assert(both_one[0] =~= both[s]);
    assert(both_one =~= seq![both[s]]);
    lemma_linear_row(f, both, l.w_down, None, s);
    lemma_linear_row(f, both_one, l.w_down, None, 0);
    assert(feed_forward(f, x, ctx, l, c)[s] =~= feed_forward(f, one, ctx1, l, c)[0]);
}

/// A block computes each row on its own, from that row, its position, and the keys and values.
pub proof fn lemma_block_row<F: Arithmetic>(
    f: &F,
    x: Seq<Seq<u32>>,
    l: LayerView,
    c: Config,
    ks: Seq<Seq<u32>>,
    vs: Seq<Seq<u32>>,
    start: int,
    s: int,
)
    requires
        0 <= s < x.len(),
    ensures
        layer_output(f, x, l, c, ks, vs, start).len() == x.len(),
        layer_output(f, x, l, c, ks, vs, start)[s] == layer_output(f, seq![x[s]], l, c, ks, vs, start + s)[0],
        layer_output(f, x, l, c, ks, vs, start)[s] == feed_forward(
            f,
            seq![x[s]],
            seq![attended_row(f, queries(f, x, l, c, start)[s], ks, vs, c, start + s)],
            l,
            c,
        )[0],
{
    let qs = queries(f, x, l, c, start);
    lemma_query_row(f, x, l, c, start, s);
    let one = queries(f, seq![x[s]], l, c, start + s);
    lemma_attended_row(f, qs, ks, vs, c, start, s);
    lemma_attended_row(f, one, ks, vs, c, start + s, 0);
    let ctx = attended(f, qs, ks, vs, c, start);
    lemma_feed_forward_row(f, x, ctx, l, c, s);
    assert(attended(f, one, ks, vs, c, start + s) =~= seq![ctx[s]]);
}

// ---------------------------------------------------------------------------
// Against the cache.
// ---------------------------------------------------------------------------

/// A block over the last tokens, with the keys and values of the tokens before in the cache, gives
/// what the block gives for these tokens when it is computed over all of them.
pub proof fn lemma_step_is_rest<F: Arithmetic>(
    f: &F,
    x: Seq<Seq<u32>>,
    l: LayerView,
    c: Config,
    kc: Seq<Seq<u32>>,
    vc: Seq<Seq<u32>>,
    start: int,
)
    requires
        0 <= start <= x.len(),
        kc.take(start) == keys(f, x.take(start), l, c, 0),
        vc.take(start) == values(f, x.take(start), l, c),
    ensures
        layer_step(f, x.skip(start), l, c, kc, vc, start) == layer_of_sequence(f, x, l, c).skip(start),
        kc.take(start) + keys(f, x.skip(start), l, c, start) == keys(f, x, l, c, 0),
        vc.take(start) + values(f, x.skip(start), l, c) == values(f, x, l, c),
{
    lemma_keys_take(f, x, l, c, start);
    lemma_keys_skip(f, x, l, c, start);
    lemma_key_count(f, x, l, c, 0);
    let ks = keys(f, x, l, c, 0);
    let vs = values(f, x, l, c);
    assert(kc.take(start) + keys(f, x.skip(start), l, c, start) =~= ks);
    assert(vc.take(start) + values(f, x.skip(start), l, c) =~= vs);
    let rest = x.skip(start);
    let got = layer_output(f, rest, l, c, ks, vs, start);
    let want = layer_output(f, x, l, c, ks, vs, 0);
    assert(got.len() == rest.len() && want.len() == x.len());
    assert forall|s: int| 0 <= s < rest.len() implies #[trigger] got[s] == want.skip(start)[s] by {
        lemma_block_row(f, rest, l, c, ks, vs, start, s);
        lemma_block_row(f, x, l, c, ks, vs, 0, start + s);
        assert(rest[s] == x[start + s]);
    }
    assert(got =~= want.skip(start));
}

// ---------------------------------------------------------------------------
// Later tokens change nothing.
// ---------------------------------------------------------------------------

/// What IEEE 754 says of zeros: adding one changes no number, the quotient of zero by a positive
/// number is zero, and the product of zero with a finite number is zero with that number's sign.
/// The exponential of negative infinity is zero. A sum is negative zero only where both numbers are.
pub open spec fn keeps_zeros<F: Arithmetic>(f: &F) -> bool {
    &&& forall|x: u32| !is_nan(x) ==> #[trigger] f.sum(x, NEGATIVE_ZERO) == x
    &&& forall|x: u32| !is_nan(x) && x != NEGATIVE_ZERO ==> #[trigger] f.sum(x, ZERO) == x
    &&& forall|x: u32, y: u32| #[trigger] f.sum(x, y) == NEGATIVE_ZERO ==> x == NEGATIVE_ZERO && y == NEGATIVE_ZERO
    &&& forall|x: u32| less(ZERO, x) ==> #[trigger] f.quotient(ZERO, x) == ZERO
    &&& forall|x: u32|
        is_finite(x) ==> #[trigger] f.product(ZERO, x) == if x < NEGATIVE_ZERO {
            ZERO
        } else {
            NEGATIVE_ZERO
        }
    &&& forall|x: u32|
        !is_nan(x) && x != NEGATIVE_INFINITY ==> f.exponential(#[trigger] f.difference(NEGATIVE_INFINITY, x)) == ZERO
}

/// Whether the values, of `width` numbers each, are finite.
pub open spec fn all_finite(vs: Seq<Seq<u32>>, width: int) -> bool {
    forall|t: int, col: int| 0 <= t < vs.len() && 0 <= col < width ==> is_finite(#[trigger] vs[t][col])
}

/// Whether a query finds keys to read for one place of what it reads: with the head of that place
/// some key matches better than negative infinity, the exponentials add up to a positive number, and
/// what is read is a number.
pub open spec fn reads_number<F: Arithmetic>(f: &F, q: Seq<u32>, ks: Seq<Seq<u32>>, vs: Seq<Seq<u32>>, c: Config, pos: int, j: int) -> bool {
    let h = j / c.head_dim as int;
    let matches = scores(f, q, ks, h, kv_head(h, c.n_heads as int, c.n_kv_heads as int), c.head_dim, pos);
    &&& greatest(matches, matches.len()) != NEGATIVE_INFINITY
    &&& less(ZERO, total(f, shifted_exponentials(f, matches), matches.len()))
    &&& !is_nan(attended_row(f, q, ks, vs, c, pos)[j])
}

/// Whether a query finds keys to read for each place of what it reads.
pub open spec fn reads_numbers<F: Arithmetic>(f: &F, q: Seq<u32>, ks: Seq<Seq<u32>>, vs: Seq<Seq<u32>>, c: Config, pos: int) -> bool {
    forall|j: int| 0 <= j < c.n_heads * c.head_dim ==> #[trigger] reads_number(f, q, ks, vs, c, pos, j)
}

/// Whether the attention of a block over these tokens computes with numbers: each token finds keys
/// to read among those up to its own, and the values are finite.
pub open spec fn block_is_ordinary<F: Arithmetic>(f: &F, x: Seq<Seq<u32>>, l: LayerView, c: Config) -> bool {
    let qs = queries(f, x, l, c, 0);
    let ks = keys(f, x, l, c, 0);
    let vs = values(f, x, l, c);
    &&& all_finite(vs, c.n_kv_heads * c.head_dim)
    &&& forall|s: int| 0 <= s < x.len() ==> reads_numbers(f, #[trigger] qs[s], ks.take(s + 1), vs.take(s + 1), c, s)
}

/// The greatest number is a number, and does not change behind masked places.
proof fn lemma_greatest_tail(x: Seq<u32>, m: nat, n: nat)
    requires
        m <= n <= x.len(),
        forall|t: int| m <= t < n ==> #[trigger] x[t] == NEGATIVE_INFINITY,
    ensures
        !is_nan(greatest(x, m)),
        greatest(x, n) == greatest(x, m),
    decreases n,
{
    if n > m {
        lemma_greatest_tail(x, m, (n - 1) as nat);
    } else if n > 0 {
        lemma_greatest_tail(x, (m - 1) as nat, (n - 1) as nat);
    }
}

/// The greatest of the first numbers depends on those alone.
proof fn lemma_greatest_prefix(x: Seq<u32>, y: Seq<u32>, n: nat)
    requires
        forall|t: int| 0 <= t < n ==> #[trigger] x[t] == y[t],
    ensures
        greatest(x, n) == greatest(y, n),
    decreases n,
{
    if n > 0 {
        lemma_greatest_prefix(x, y, (n - 1) as nat);
    }
}

/// The sum of the first numbers depends on those alone.
proof fn lemma_total_prefix<F: Arithmetic>(f: &F, x: Seq<u32>, y: Seq<u32>, n: nat)
    requires
        forall|t: int| 0 <= t < n ==> #[trigger] x[t] == y[t],
    ensures
        total(f, x, n) == total(f, y, n),
    decreases n,
{
    if n > 0 {
        lemma_total_prefix(f, x, y, (n - 1) as nat);
    }
}

/// Zeros change no sum.
proof fn lemma_total_tail<F: Arithmetic>(f: &F, x: Seq<u32>, m: nat, n: nat)
    requires
        keeps_zeros(f),
        m <= n,
        less(ZERO, total(f, x, m)),
        forall|t: int| m <= t < n ==> #[trigger] x[t] == ZERO,
    ensures
        total(f, x, n) == total(f, x, m),
    decreases n,
{
    if n > m {
        lemma_total_tail(f, x, m, (n - 1) as nat);
    }
}

/// What is read with the first probabilities depends on those and their values alone.
pub proof fn lemma_weighted_prefix<F: Arithmetic>(f: &F, p: Seq<u32>, q: Seq<u32>, vs: Seq<Seq<u32>>, us: Seq<Seq<u32>>, col: int, n: nat)
    requires
        forall|t: int| 0 <= t < n ==> #[trigger] p[t] == q[t],
        forall|t: int| 0 <= t < n ==> #[trigger] vs[t] == us[t],
    ensures
        weighted(f, p, vs, col, n) == weighted(f, q, us, col, n),
    decreases n,
{
    if n > 0 {
        lemma_weighted_prefix(f, p, q, vs, us, col, (n - 1) as nat);
    }
}

/// What is read with probability zero changes nothing.
proof fn lemma_weighted_tail<F: Arithmetic>(f: &F, p: Seq<u32>, vs: Seq<Seq<u32>>, width: int, col: int, m: nat, n: nat)
    requires
        keeps_zeros(f),
        m <= n <= vs.len(),
        !is_nan(weighted(f, p, vs, col, m)),
        forall|t: int| m <= t < n ==> #[trigger] p[t] == ZERO,
        all_finite(vs, width),
        0 <= col < width,
    ensures
        weighted(f, p, vs, col, n) == weighted(f, p, vs, col, m),
        weighted(f, p, vs, col, n) != NEGATIVE_ZERO,
    decreases n,
{
    if n > m {
        lemma_weighted_tail(f, p, vs, width, col, m, (n - 1) as nat);
        assert(is_finite(vs[n - 1][col]));
    } else if n > 0 {
        lemma_weighted_not_negative_zero(f, p, vs, col, n);
    }
}

/// A sum that starts at zero is not negative zero.
proof fn lemma_weighted_not_negative_zero<F: Arithmetic>(f: &F, p: Seq<u32>, vs: Seq<Seq<u32>>, col: int, n: nat)
    requires
        keeps_zeros(f),
    ensures
        weighted(f, p, vs, col, n) != NEGATIVE_ZERO,
    decreases n,
{
    if n > 0 {
        lemma_weighted_not_negative_zero(f, p, vs, col, (n - 1) as nat);
    }
}

/// More keys behind the position of a query change no probability, and have probability zero.
pub proof fn lemma_masked_probabilities<F: Arithmetic>(f: &F, q: Seq<u32>, ks: Seq<Seq<u32>>, h: int, kv: int, head_dim: usize, pos: int)
    requires
        keeps_zeros(f),
        0 <= pos < ks.len(),
        ({
            let first = scores(f, q, ks.take(pos + 1), h, kv, head_dim, pos);
            &&& greatest(first, first.len()) != NEGATIVE_INFINITY
            &&& less(ZERO, total(f, shifted_exponentials(f, first), first.len()))
        }),
    ensures
        ({
            let p = softmaxed(f, scores(f, q, ks, h, kv, head_dim, pos));
            let p1 = softmaxed(f, scores(f, q, ks.take(pos + 1), h, kv, head_dim, pos));
            &&& forall|t: int| 0 <= t <= pos ==> #[trigger] p[t] == p1[t]
            &&& forall|t: int| pos < t < ks.len() ==> #[trigger] p[t] == ZERO
        }),
{
    let m = (pos + 1) as nat;
    let n = ks.len();
    let first = scores(f, q, ks.take(pos + 1), h, kv, head_dim, pos);
    let all = scores(f, q, ks, h, kv, head_dim, pos);
    lemma_greatest_tail(all, m, n);
    lemma_greatest_prefix(all, first, m);
    let e = shifted_exponentials(f, all);
    let e1 = shifted_exponentials(f, first);
    assert(forall|t: int| m <= t < n ==> #[trigger] all[t] == NEGATIVE_INFINITY);
    assert forall|t: int| m <= t < n implies #[trigger] e[t] == ZERO by {
        assert(all[t] == NEGATIVE_INFINITY);
    }
    assert forall|t: int| 0 <= t < m implies #[trigger] e[t] == e1[t] by {
        assert(all[t] == first[t]);
    }
    lemma_total_prefix(f, e, e1, m);
    lemma_total_tail(f, e, m, n);
    let p = softmaxed(f, all);
    let p1 = softmaxed(f, first);
    assert forall|t: int| 0 <= t <= pos implies #[trigger] p[t] == p1[t] by {
        assert(e[t] == e1[t]);
    }
    assert forall|t: int| pos < t < n implies #[trigger] p[t] == ZERO by {
        assert(e[t] == ZERO);
    }
}

/// What a query reads with one head, at one column, does not change when there are more keys behind
/// its position.
proof fn lemma_masked_tail<F: Arithmetic>(
    f: &F,
    q: Seq<u32>,
    ks: Seq<Seq<u32>>,
    vs: Seq<Seq<u32>>,
    h: int,
    kv: int,
    head_dim: usize,
    pos: int,
    width: int,
    col: int,
)
    requires
        keeps_zeros(f),
        0 <= pos < ks.len(),
        vs.len() == ks.len(),
        all_finite(vs, width),
        0 <= col < width,
        ({
            let first = scores(f, q, ks.take(pos + 1), h, kv, head_dim, pos);
            &&& greatest(first, first.len()) != NEGATIVE_INFINITY
            &&& less(ZERO, total(f, shifted_exponentials(f, first), first.len()))
            &&& !is_nan(weighted(f, softmaxed(f, first), vs.take(pos + 1), col, first.len()))
        }),
    ensures
        weighted(f, softmaxed(f, scores(f, q, ks, h, kv, head_dim, pos)), vs, col, vs.len()) == weighted(
            f,
            softmaxed(f, scores(f, q, ks.take(pos + 1), h, kv, head_dim, pos)),
            vs.take(pos + 1),
            col,
            (pos + 1) as nat,
        ),
{
    let m = (pos + 1) as nat;
    let p = softmaxed(f, scores(f, q, ks, h, kv, head_dim, pos));
    let p1 = softmaxed(f, scores(f, q, ks.take(pos + 1), h, kv, head_dim, pos));
    lemma_masked_probabilities(f, q, ks, h, kv, head_dim, pos);
    lemma_weighted_prefix(f, p, p1, vs, vs.take(pos + 1), col, m);
    lemma_weighted_tail(f, p, vs, width, col, m, ks.len());
}

/// The column that a place of a context reads is one of those of the values.
proof fn lemma_column(j: int, c: Config)
    requires
        0 <= j < c.n_heads * c.head_dim,
        c.n_kv_heads > 0,
        c.n_heads % c.n_kv_heads == 0,
    ensures
        0 <= kv_head(j / c.head_dim as int, c.n_heads as int, c.n_kv_heads as int) * c.head_dim + (j % c.head_dim as int) < c.n_kv_heads
            * c.head_dim,
{
    let (nh, hd) = (c.n_heads as int, c.head_dim as int);
    let h = j / hd;
    assert(hd > 0) by (nonlinear_arith)
        requires
            0 <= j < nh * hd,
            0 <= nh,
            0 <= hd,
    ;
    assert(0 <= h < nh && 0 <= j % hd < hd) by (nonlinear_arith)
        requires
            0 <= j < nh * hd,
            hd > 0,
            h == j / hd,
    ;
    lemma_kv_head(h, nh, c.n_kv_heads as int);
    let kv = kv_head(h, nh, c.n_kv_heads as int);
    let r = j % hd;
    assert(0 <= kv * hd + r < c.n_kv_heads * hd) by (nonlinear_arith)
        requires
            0 <= kv < c.n_kv_heads,
            0 <= r < hd,
    ;
}

/// What a query reads does not change when there are more keys behind its position.
proof fn lemma_read_tail<F: Arithmetic>(f: &F, q: Seq<u32>, ks: Seq<Seq<u32>>, vs: Seq<Seq<u32>>, c: Config, pos: int)
    requires
        keeps_zeros(f),
        0 <= pos < ks.len(),
        vs.len() == ks.len(),
        c.n_kv_heads > 0,
        c.n_heads % c.n_kv_heads == 0,
        all_finite(vs, c.n_kv_heads * c.head_dim),
        reads_numbers(f, q, ks.take(pos + 1), vs.take(pos + 1), c, pos),
    ensures
        attended_row(f, q, ks, vs, c, pos) == attended_row(f, q, ks.take(pos + 1), vs.take(pos + 1), c, pos),
{
    let got = attended_row(f, q, ks, vs, c, pos);
    let want = attended_row(f, q, ks.take(pos + 1), vs.take(pos + 1), c, pos);
    assert forall|j: int| 0 <= j < got.len() implies #[trigger] got[j] == want[j] by {
        let h = j / c.head_dim as int;
        let kv = kv_head(h, c.n_heads as int, c.n_kv_heads as int);
        let col = kv * c.head_dim + j % c.head_dim as int;
        lemma_column(j, c);
        assert(reads_number(f, q, ks.take(pos + 1), vs.take(pos + 1), c, pos, j));
        lemma_masked_tail(f, q, ks, vs, h, kv, c.head_dim, pos, c.n_kv_heads * c.head_dim, col);
    }
    assert(got =~= want);
}

/// Later tokens change nothing: a block over the first tokens gives what the block over all tokens
/// gives for them.
pub proof fn lemma_block_is_causal<F: Arithmetic>(f: &F, x: Seq<Seq<u32>>, l: LayerView, c: Config, m: int)
    requires
        keeps_zeros(f),
        c.n_kv_heads > 0,
        c.n_heads % c.n_kv_heads == 0,
        block_is_ordinary(f, x, l, c),
        0 <= m <= x.len(),
    ensures
        layer_of_sequence(f, x.take(m), l, c) == layer_of_sequence(f, x, l, c).take(m),
{
    let qs = queries(f, x, l, c, 0);
    let ks = keys(f, x, l, c, 0);
    let vs = values(f, x, l, c);
    lemma_key_count(f, x, l, c, 0);
    lemma_key_count(f, x.take(m), l, c, 0);
    lemma_keys_take(f, x, l, c, m);
    let got = layer_of_sequence(f, x.take(m), l, c);
    let want = layer_of_sequence(f, x, l, c);
    assert(got.len() == m && want.len() == x.len());
    assert forall|s: int| 0 <= s < m implies #[trigger] got[s] == want.take(m)[s] by {
        lemma_block_row(f, x, l, c, ks, vs, 0, s);
        lemma_block_row(f, x.take(m), l, c, ks.take(m), vs.take(m), 0, s);
        lemma_query_row(f, x, l, c, 0, s);
        lemma_query_row(f, x.take(m), l, c, 0, s);
        assert(seq![qs[s]][0] == seq![queries(f, x.take(m), l, c, 0)[s]][0]);
        assert(reads_numbers(f, qs[s], ks.take(s + 1), vs.take(s + 1), c, s));
        assert(ks.take(m).take(s + 1) =~= ks.take(s + 1));
        assert(vs.take(m).take(s + 1) =~= vs.take(s + 1));
        let width = c.n_kv_heads * c.head_dim;
        assert(all_finite(vs.take(m), width)) by {
            assert forall|t: int, col: int| 0 <= t < m && 0 <= col < width implies is_finite(#[trigger] vs.take(m)[t][col]) by {
                assert(is_finite(vs[t][col]));
            }
        }
        lemma_read_tail(f, qs[s], ks, vs, c, s);
        lemma_read_tail(f, qs[s], ks.take(m), vs.take(m), c, s);
    }
    assert(got =~= want.take(m));
}

// ---------------------------------------------------------------------------
// The whole network.
// ---------------------------------------------------------------------------

/// Whether the attention of each block over these tokens computes with numbers.
pub open spec fn is_ordinary<F: Arithmetic>(f: &F, m: ModelView, tokens: Seq<u32>) -> bool {
    forall|i: int| 0 <= i < m.layers.len() ==> block_is_ordinary(f, m.states(f, tokens, i as nat), #[trigger] m.layers[i], m.config)
}

/// Whether the cache holds the keys and values of these tokens.
pub open spec fn holds<F: Arithmetic>(f: &F, m: ModelView, kc: Seq<Seq<Seq<u32>>>, vc: Seq<Seq<Seq<u32>>>, tokens: Seq<u32>) -> bool {
    &&& kc.len() == m.layers.len()
    &&& vc.len() == m.layers.len()
    &&& forall|i: int|
        0 <= i < m.layers.len() ==> (#[trigger] kc[i]).take(tokens.len() as int) == keys(f, m.states(f, tokens, i as nat), m.layers[i], m.config, 0)
    &&& forall|i: int|
        0 <= i < m.layers.len() ==> (#[trigger] vc[i]).take(tokens.len() as int) == values(f, m.states(f, tokens, i as nat), m.layers[i], m.config)
}

/// As many activations as tokens.
pub proof fn lemma_state_count<F: Arithmetic>(f: &F, m: ModelView, tokens: Seq<u32>, n: nat)
    ensures
        m.states(f, tokens, n).len() == tokens.len(),
    decreases n,
{
    if n > 0 {
        lemma_state_count(f, m, tokens, (n - 1) as nat);
    }
}

/// Any cache holds the keys and values of no tokens.
pub proof fn lemma_holds_nothing<F: Arithmetic>(f: &F, m: ModelView, kc: Seq<Seq<Seq<u32>>>, vc: Seq<Seq<Seq<u32>>>)
    requires
        kc.len() == m.layers.len(),
        vc.len() == m.layers.len(),
    ensures
        holds(f, m, kc, vc, seq![]),
{
    assert forall|i: int| 0 <= i < m.layers.len() implies {
        &&& (#[trigger] kc[i]).take(0) == keys(f, m.states(f, seq![], i as nat), m.layers[i], m.config, 0)
        &&& vc[i].take(0) == values(f, m.states(f, seq![], i as nat), m.layers[i], m.config)
    } by {
        let x = m.states(f, seq![], i as nat);
        lemma_state_count(f, m, seq![], i as nat);
        lemma_key_count(f, x, m.layers[i], m.config, 0);
        assert(kc[i].take(0) =~= keys(f, x, m.layers[i], m.config, 0));
        assert(vc[i].take(0) =~= values(f, x, m.layers[i], m.config));
    }
    assert forall|i: int| 0 <= i < m.layers.len() implies (#[trigger] vc[i]).take(0) == values(
        f,
        m.states(f, seq![], i as nat),
        m.layers[i],
        m.config,
    ) by {
        assert(kc[i].take(0) == keys(f, m.states(f, seq![], i as nat), m.layers[i], m.config, 0));
    }
}

/// Later tokens change nothing: the activations of the first tokens are those of these tokens alone.
pub proof fn lemma_network_is_causal<F: Arithmetic>(f: &F, m: ModelView, tokens: Seq<u32>, count: int, n: nat)
    requires
        keeps_zeros(f),
        m.fits(),
        is_ordinary(f, m, tokens),
        0 <= count <= tokens.len(),
        n <= m.layers.len(),
    ensures
        m.states(f, tokens.take(count), n) == m.states(f, tokens, n).take(count),
    decreases n,
{
    lemma_state_count(f, m, tokens, n);
    if n == 0 {
        assert(embedded(f, m.embedding, tokens.take(count)) =~= embedded(f, m.embedding, tokens).take(count));
    } else {
        lemma_network_is_causal(f, m, tokens, count, (n - 1) as nat);
        lemma_state_count(f, m, tokens, (n - 1) as nat);
        let i = n - 1;
        assert(block_is_ordinary(f, m.states(f, tokens, i as nat), m.layers[i], m.config));
        assert(layer_fits(m.layers[i], m.config, m.config.hidden as int));
        lemma_block_is_causal(f, m.states(f, tokens, i as nat), m.layers[i], m.config, count);
    }
}

/// The activations of new tokens against the cache are those of the whole sequence.
proof fn lemma_cached_states<F: Arithmetic>(
    f: &F,
    m: ModelView,
    tokens: Seq<u32>,
    start: int,
    kc: Seq<Seq<Seq<u32>>>,
    vc: Seq<Seq<Seq<u32>>>,
    n: nat,
)
    requires
        keeps_zeros(f),
        m.fits(),
        is_ordinary(f, m, tokens),
        0 <= start <= tokens.len(),
        n <= m.layers.len(),
        holds(f, m, kc, vc, tokens.take(start)),
    ensures
        m.cached_states(f, tokens.skip(start), kc, vc, start, n) == m.states(f, tokens, n).skip(start),
        n < m.layers.len() ==> kc[n as int].take(start) + m.new_keys(f, tokens.skip(start), kc, vc, start, n as int) == keys(
            f,
            m.states(f, tokens, n),
            m.layers[n as int],
            m.config,
            0,
        ),
        n < m.layers.len() ==> vc[n as int].take(start) + m.new_values(f, tokens.skip(start), kc, vc, start, n as int) == values(
            f,
            m.states(f, tokens, n),
            m.layers[n as int],
            m.config,
        ),
    decreases n,
{
    let rest = tokens.skip(start);
    lemma_state_count(f, m, tokens, n);
    if n == 0 {
        assert(embedded(f, m.embedding, rest) =~= embedded(f, m.embedding, tokens).skip(start));
    } else {
        let i = n - 1;
        lemma_cached_states(f, m, tokens, start, kc, vc, i as nat);
        lemma_state_count(f, m, tokens, i as nat);
        lemma_network_is_causal(f, m, tokens, start, i as nat);
        assert(kc[i].take(start) == keys(f, m.states(f, tokens.take(start), i as nat), m.layers[i], m.config, 0));
        assert(vc[i].take(start) == values(f, m.states(f, tokens.take(start), i as nat), m.layers[i], m.config));
        lemma_step_is_rest(f, m.states(f, tokens, i as nat), m.layers[i], m.config, kc[i], vc[i], start);
    }
    if n < m.layers.len() {
        let i = n as int;
        lemma_network_is_causal(f, m, tokens, start, n);
        assert(kc[i].take(start) == keys(f, m.states(f, tokens.take(start), n), m.layers[i], m.config, 0));
        assert(vc[i].take(start) == values(f, m.states(f, tokens.take(start), n), m.layers[i], m.config));
        lemma_step_is_rest(f, m.states(f, tokens, n), m.layers[i], m.config, kc[i], vc[i], start);
    }
}

/// Reading new tokens with the cache gives the logits that reading the whole sequence from scratch
/// gives, bit for bit, and keeps the cache filled with what the whole sequence computes.
pub proof fn lemma_cache_changes_nothing<F: Arithmetic>(
    f: &F,
    m: ModelView,
    tokens: Seq<u32>,
    start: int,
    kc: Seq<Seq<Seq<u32>>>,
    vc: Seq<Seq<Seq<u32>>>,
    room: int,
)
    requires
        keeps_zeros(f),
        m.fits(),
        is_ordinary(f, m, tokens),
        0 <= start < tokens.len() <= room,
        holds(f, m, kc, vc, tokens.take(start)),
        forall|i: int| 0 <= i < kc.len() ==> (#[trigger] kc[i]).len() == room,
        forall|i: int| 0 <= i < vc.len() ==> (#[trigger] vc[i]).len() == room,
    ensures
        m.cached_logits(f, tokens.skip(start), kc, vc, start) == m.logits(f, tokens),
        holds(
            f,
            m,
            m.keys_after(f, tokens.skip(start), kc, vc, start),
            m.values_after(f, tokens.skip(start), kc, vc, start),
            tokens,
        ),
        forall|i: int| 0 <= i < kc.len() ==> (#[trigger] m.keys_after(f, tokens.skip(start), kc, vc, start)[i]).len() == room,
        forall|i: int| 0 <= i < vc.len() ==> (#[trigger] m.values_after(f, tokens.skip(start), kc, vc, start)[i]).len() == room,
{
    let rest = tokens.skip(start);
    let n = m.layers.len();
    lemma_cached_states(f, m, tokens, start, kc, vc, n);
    lemma_state_count(f, m, tokens, n);
    assert(m.states(f, tokens, n).skip(start).last() == m.states(f, tokens, n).last());
    let ka = m.keys_after(f, rest, kc, vc, start);
    let va = m.values_after(f, rest, kc, vc, start);
    assert forall|i: int| 0 <= i < n implies {
        &&& (#[trigger] ka[i]).take(tokens.len() as int) == keys(f, m.states(f, tokens, i as nat), m.layers[i], m.config, 0)
        &&& ka[i].len() == room
        &&& va[i].take(tokens.len() as int) == values(f, m.states(f, tokens, i as nat), m.layers[i], m.config)
        &&& va[i].len() == room
    } by {
        lemma_cached_states(f, m, tokens, start, kc, vc, i as nat);
        lemma_state_count(f, m, tokens, i as nat);
        let new_k = m.new_keys(f, rest, kc, vc, start, i);
        let new_v = m.new_values(f, rest, kc, vc, start, i);
        let x = m.cached_states(f, rest, kc, vc, start, i as nat);
        lemma_key_count(f, x, m.layers[i], m.config, start);
        assert(kc[i].len() == room && vc[i].len() == room);
        lemma_append_reads_back(kc[i], start, new_k);
        lemma_append_reads_back(vc[i], start, new_v);
    }
    assert forall|i: int| 0 <= i < n implies (#[trigger] va[i]).take(tokens.len() as int) == values(
        f,
        m.states(f, tokens, i as nat),
        m.layers[i],
        m.config,
    ) && va[i].len() == room by {
        assert(ka[i].len() == room);
    }
}

// ---------------------------------------------------------------------------
// With and without a cache.
// ---------------------------------------------------------------------------

/// Whether attention computes with numbers at each step of a run without a cache.
pub open spec fn run_is_ordinary<F: Arithmetic>(f: &F, m: ModelView, t: TokenizerView, stop: Seq<u32>, max_new: int, step: int, ids: Seq<u32>) -> bool
    decreases max_new - step,
{
    step < max_new ==> {
        let next = argmax_of(m.logits(f, ids));
        &&& is_ordinary(f, m, ids)
        &&& !stop.contains(next) && t.token_bytes(next) is Ok ==> run_is_ordinary(f, m, t, stop, max_new, step + 1, ids.push(next))
    }
}

/// Whether a sampler takes the likeliest token: at temperature 0, or of one candidate, with no penalty.
pub open spec fn takes_likeliest(s: Sampler) -> bool {
    s.is_greedy() && equal(s.repeat_penalty, ONE)
}

/// A sampler that takes the likeliest token takes the first of the largest logits, draws nothing, and
/// does not change.
pub proof fn lemma_likeliest<F: Arithmetic>(f: &F, s: Sampler, logits: Seq<u32>, recent: Seq<u32>)
    requires
        takes_likeliest(s),
    ensures
        s.can_choose(f, logits, recent),
        s.chosen(f, logits, recent) == (argmax_of(logits), s),
{
    assert(with_penalty(f, logits, recent, s.repeat_penalty) =~= logits);
}

/// From where the cache holds what was read, a run with it goes on as one without it.
#[verifier::rlimit(40)]
proof fn lemma_runs_agree<F: Arithmetic>(
    f: &F,
    m: ModelView,
    t: TokenizerView,
    stop: Seq<u32>,
    max_new: int,
    step: int,
    p: Progress,
    kept: Seq<u8>,
    room: int,
)
    requires
        keeps_zeros(f),
        m.fits(),
        takes_likeliest(p.sampler),
        p.len == p.context.len(),
        p.context.len() + (max_new - step) <= room,
        step < max_new ==> p.logits == m.logits(f, p.context),
        step < max_new ==> holds(f, m, p.kc, p.vc, p.context),
        forall|i: int| 0 <= i < p.kc.len() ==> (#[trigger] p.kc[i]).len() == room,
        forall|i: int| 0 <= i < p.vc.len() ==> (#[trigger] p.vc[i]).len() == room,
        run_is_ordinary(f, m, t, stop, max_new, step, p.context),
    ensures
        run(f, m, t, stop, max_new, step, p) == (run_uncached(f, m, t, stop, max_new, step, p.context, p.generated), p.sampler),
        written(run_events(f, m, t, stop, max_new, step, p, kept)) == written(uncached_events(f, m, t, stop, max_new, step, p.context, kept)),
    decreases max_new - step,
{
    lemma_step(f, m, t, stop, max_new, step, p, kept);
    lemma_uncached_step(f, m, t, stop, max_new, step, p.context, p.generated, kept);
    if step < max_new {
        let recent = last_tokens(p.context, p.sampler.repeat_window);
        lemma_likeliest(f, p.sampler, p.logits, recent);
        let next = argmax_of(p.logits);
        let decoded = EventView::Decoded { step: step as usize, positions: p.context.len() as usize };
        let after = EventView::Decoded { step: step as usize, positions: (p.len + 1) as usize };
        if stop.contains(next) {
            lemma_written(decoded, closing(kept));
        } else {
            match t.token_bytes(next) {
                Err(_) => {
                    lemma_written(decoded, seq![]);
                    assert(seq![decoded] + Seq::<EventView>::empty() =~= seq![decoded]);
                },
                Ok(bytes) => {
                    let ids = p.context.push(next);
                    let (text, left) = streamed(kept + bytes);
                    let q = advanced(f, m, p, next, p.sampler);
                    if step + 1 < max_new {
                        let start = p.context.len() as int;
                        assert(ids.take(start) =~= p.context);
                        assert(ids.skip(start) =~= seq![next]);
                        assert(run_is_ordinary(f, m, t, stop, max_new, step + 1, ids));
                        assert(is_ordinary(f, m, ids)) by {
                            reveal_with_fuel(run_is_ordinary, 2);
                        }
                        lemma_cache_changes_nothing(f, m, ids, start, p.kc, p.vc, room);
                        lemma_runs_agree(f, m, t, stop, max_new, step + 1, q, left, room);
                        let more = run_events(f, m, t, stop, max_new, step + 1, q, left);
                        lemma_written(after, more);
                        lemma_written(EventView::Text(text), seq![after] + more);
                    } else {
                        lemma_written(EventView::Text(text), closing(left));
                        lemma_uncached_step(f, m, t, stop, max_new, step + 1, ids, p.generated.push(next), left);
                    }
                    let more = uncached_events(f, m, t, stop, max_new, step + 1, ids, left);
                    lemma_written(EventView::Text(text), more);
                    lemma_written(decoded, seq![EventView::Text(text)] + more);
                },
            }
        }
    }
}

/// When the prompt was read, the logits are those from scratch, and the cache holds the prompt.
pub proof fn lemma_prefilled<F: Arithmetic>(f: &F, m: ModelView, prompt: Seq<u32>, sampler: Sampler)
    requires
        keeps_zeros(f),
        can_run(m, prompt),
        prompt.len() <= context_cap(m.config),
        is_ordinary(f, m, prompt),
    ensures
        ({
            let p = prefilled(f, m, prompt, sampler, empty_rows(m.config));
            &&& p.logits == m.logits(f, prompt)
            &&& holds(f, m, p.kc, p.vc, prompt)
            &&& forall|i: int| 0 <= i < p.kc.len() ==> (#[trigger] p.kc[i]).len() == context_cap(m.config)
            &&& forall|i: int| 0 <= i < p.vc.len() ==> (#[trigger] p.vc[i]).len() == context_cap(m.config)
        }),
{
    let empty = empty_rows(m.config);
    lemma_holds_nothing(f, m, empty, empty);
    assert(prompt.take(0) =~= seq![]);
    assert(prompt.skip(0) =~= prompt);
    lemma_cache_changes_nothing(f, m, prompt, 0, empty, empty, context_cap(m.config) as int);
}

/// With a sampler that takes the likeliest token, a run with a cache chooses the tokens that the run
/// without a cache chooses, and gives out the same text. The sampler does not change.
pub proof fn lemma_run_without_cache<F: Arithmetic>(
    f: &F,
    m: ModelView,
    t: TokenizerView,
    prompt: Seq<u32>,
    max_new: usize,
    stop: Seq<u32>,
    sampler: Sampler,
)
    requires
        keeps_zeros(f),
        can_run(m, prompt),
        takes_likeliest(sampler),
        prompt.len() + max_new <= context_cap(m.config),
        run_is_ordinary(f, m, t, stop, max_new as int, 0, prompt),
    ensures
        generated_with(f, m, t, prompt, max_new, stop, sampler) == (run_uncached(f, m, t, stop, max_new as int, 0, prompt, seq![]), sampler),
        written(events_with(f, m, t, prompt, max_new, stop, sampler)) == written(
            uncached_events(f, m, t, stop, max_new as int, 0, prompt, seq![]),
        ),
{
    let cap = context_cap(m.config) as int;
    let p = prefilled(f, m, prompt, sampler, empty_rows(m.config));
    lemma_step(f, m, t, stop, max_new as int, 0, p, seq![]);
    lemma_uncached_step(f, m, t, stop, max_new as int, 0, prompt, seq![], seq![]);
    if max_new > 0 {
        lemma_prefilled(f, m, prompt, sampler);
        lemma_runs_agree(f, m, t, stop, max_new as int, 0, p, seq![], cap);
    }
    lemma_opening(m.config, prompt.len(), run_events(f, m, t, stop, max_new as int, 0, p, seq![]));
}

} // verus!
