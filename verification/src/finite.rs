//! Where the activations are finite, attention computes with numbers.

use vstd::prelude::*;

use crate::attention::{kv_head, score, scores, weighted};
use crate::causal::{all_finite, attended_row, block_is_ordinary, is_ordinary, keeps_zeros, lemma_attended_row, lemma_key_count, lemma_masked_probabilities, lemma_run_without_cache, lemma_weighted_prefix, reads_number, reads_numbers, run_is_ordinary, takes_likeliest};
use crate::float::{is_finite, is_nan, less, rank, Arithmetic, NEGATIVE_INFINITY, ONE, ZERO};
use crate::generate::{argmax_of, can_run, context_cap, events_with, generated_with, run_uncached, uncached_events, written};
use crate::model::{attended, keys, layer_of_sequence, queries, values};
use crate::pieces::{joined, layer_in_pieces, lemma_layer_in_pieces, lemma_network_in_pieces, logits_from_scratch, logits_in_pieces};
use crate::sampler::Sampler;
use crate::tensor::{greatest, shifted_exponentials, softmaxed, total};
use crate::tokenizer::TokenizerView;
use crate::weights::{Config, LayerView, ModelView};

verus! {

/// What IEEE 754 says of finite numbers: one less itself is zero, and a difference of two is a number.
/// An exponential is not negative, that of zero is one, and a sum of numbers that are not negative is
/// not less than either. What is not a number makes no sum a number.
pub open spec fn keeps_numbers<F: Arithmetic>(f: &F) -> bool {
    &&& f.exponential(ZERO) == ONE
    &&& forall|x: u32| is_finite(x) ==> #[trigger] f.difference(x, x) == ZERO
    &&& forall|x: u32, y: u32| is_finite(x) && is_finite(y) ==> !is_nan(#[trigger] f.difference(x, y))
    &&& forall|x: u32| !is_nan(x) ==> !is_nan(#[trigger] f.exponential(x)) && rank(f.exponential(x)) >= 0
    &&& forall|x: u32, y: u32|
        !is_nan(x) && !is_nan(y) && rank(x) >= 0 && rank(y) >= 0 ==> {
            let z = #[trigger] f.sum(x, y);
            !is_nan(z) && rank(z) >= rank(x) && rank(z) >= rank(y)
        }
    &&& forall|x: u32, y: u32| is_nan(x) ==> is_nan(#[trigger] f.sum(x, y))
}

/// Whether the attention of a block over these tokens computes with finite numbers: how well each
/// token matches those up to its own, the values, and what the tokens read.
pub open spec fn block_is_finite<F: Arithmetic>(f: &F, x: Seq<Seq<u32>>, l: LayerView, c: Config) -> bool {
    let qs = queries(f, x, l, c, 0);
    let ks = keys(f, x, l, c, 0);
    let vs = values(f, x, l, c);
    let read = attended(f, qs, ks, vs, c, 0);
    &&& forall|s: int, t: int, h: int|
        0 <= t <= s < x.len() && 0 <= h < c.n_heads ==> is_finite(
            #[trigger] score(f, qs[s], ks[t], h, kv_head(h, c.n_heads as int, c.n_kv_heads as int), c.head_dim),
        )
    &&& all_finite(vs, c.n_kv_heads * c.head_dim)
    &&& all_finite(read, c.n_heads * c.head_dim)
}

/// Whether the attention of each block over these tokens computes with finite numbers.
pub open spec fn computes_finite<F: Arithmetic>(f: &F, m: ModelView, tokens: Seq<u32>) -> bool {
    forall|i: int| 0 <= i < m.layers.len() ==> block_is_finite(f, m.states(f, tokens, i as nat), #[trigger] m.layers[i], m.config)
}

/// The greatest of finite numbers is one of them.
proof fn lemma_greatest_finite(x: Seq<u32>, n: nat) -> (at: int)
    requires
        0 < n <= x.len(),
        forall|t: int| 0 <= t < n ==> is_finite(#[trigger] x[t]),
    ensures
        0 <= at < n,
        greatest(x, n) == x[at],
    decreases n,
{
    assert(is_finite(x[n - 1]));
    if n == 1 {
        reveal_with_fuel(greatest, 2);
        0
    } else {
        let at = lemma_greatest_finite(x, (n - 1) as nat);
        assert(is_finite(x[at]));
        if greatest(x, n) == x[at] {
            at
        } else {
            n - 1
        }
    }
}

/// A sum of numbers that are not negative is not less than any of them.
pub proof fn lemma_total_bounds<F: Arithmetic>(f: &F, x: Seq<u32>, n: nat)
    requires
        keeps_numbers(f),
        n <= x.len(),
        forall|t: int| 0 <= t < n ==> !is_nan(#[trigger] x[t]) && rank(x[t]) >= 0,
    ensures
        !is_nan(total(f, x, n)),
        rank(total(f, x, n)) >= 0,
        forall|t: int| 0 <= t < n ==> rank(total(f, x, n)) >= rank(#[trigger] x[t]),
    decreases n,
{
    if n > 0 {
        lemma_total_bounds(f, x, (n - 1) as nat);
        assert(!is_nan(x[n - 1]));
    }
}

/// Of finite numbers, the greatest is one, and their exponentials add up to a positive number.
proof fn lemma_finite_scores<F: Arithmetic>(f: &F, x: Seq<u32>)
    requires
        keeps_numbers(f),
        x.len() > 0,
        forall|t: int| 0 <= t < x.len() ==> is_finite(#[trigger] x[t]),
    ensures
        greatest(x, x.len()) != NEGATIVE_INFINITY,
        less(ZERO, total(f, shifted_exponentials(f, x), x.len())),
{
    let n = x.len();
    let at = lemma_greatest_finite(x, n);
    assert(is_finite(x[at]));
    let e = shifted_exponentials(f, x);
    assert forall|t: int| 0 <= t < n implies !is_nan(#[trigger] e[t]) && rank(e[t]) >= 0 by {
        assert(is_finite(x[t]));
        assert(!is_nan(f.difference(x[t], x[at])));
    }
    lemma_total_bounds(f, e, n);
    assert(e[at] == ONE);
}

/// Once a sum is no number, it stays none.
proof fn lemma_no_number_stays<F: Arithmetic>(f: &F, p: Seq<u32>, vs: Seq<Seq<u32>>, col: int, m: nat, n: nat)
    requires
        keeps_numbers(f),
        m <= n,
        is_nan(weighted(f, p, vs, col, m)),
    ensures
        is_nan(weighted(f, p, vs, col, n)),
    decreases n,
{
    if n > m {
        lemma_no_number_stays(f, p, vs, col, m, (n - 1) as nat);
    }
}

/// A token that computes with finite numbers finds keys to read.
proof fn lemma_finite_read<F: Arithmetic>(f: &F, q: Seq<u32>, ks: Seq<Seq<u32>>, vs: Seq<Seq<u32>>, c: Config, pos: int)
    requires
        keeps_zeros(f),
        keeps_numbers(f),
        0 <= pos < ks.len(),
        vs.len() == ks.len(),
        forall|t: int, h: int|
            0 <= t <= pos && 0 <= h < c.n_heads ==> is_finite(
                #[trigger] score(f, q, ks[t], h, kv_head(h, c.n_heads as int, c.n_kv_heads as int), c.head_dim),
            ),
        forall|j: int| 0 <= j < c.n_heads * c.head_dim ==> is_finite(#[trigger] attended_row(f, q, ks, vs, c, pos)[j]),
    ensures
        reads_numbers(f, q, ks.take(pos + 1), vs.take(pos + 1), c, pos),
{
    let ks1 = ks.take(pos + 1);
    let vs1 = vs.take(pos + 1);
    let (nh, hd) = (c.n_heads as int, c.head_dim as int);
    assert forall|j: int| 0 <= j < c.n_heads * c.head_dim implies #[trigger] reads_number(f, q, ks1, vs1, c, pos, j) by {
        let h = j / hd;
        assert(hd > 0) by (nonlinear_arith)
            requires
                0 <= j < nh * hd,
                0 <= nh,
                0 <= hd,
        ;
        assert(0 <= h < nh) by (nonlinear_arith)
            requires
                0 <= j < nh * hd,
                hd > 0,
                h == j / hd,
        ;
        let kv = kv_head(h, nh, c.n_kv_heads as int);
        let matches = scores(f, q, ks1, h, kv, c.head_dim, pos);
        assert forall|t: int| 0 <= t < matches.len() implies is_finite(#[trigger] matches[t]) by {
            assert(is_finite(score(f, q, ks[t], h, kv, c.head_dim)));
        }
        lemma_finite_scores(f, matches);
        lemma_masked_probabilities(f, q, ks, h, kv, c.head_dim, pos);
        let p = softmaxed(f, scores(f, q, ks, h, kv, c.head_dim, pos));
        let p1 = softmaxed(f, matches);
        let col = kv * c.head_dim + j % hd;
        let m = (pos + 1) as nat;
        lemma_weighted_prefix(f, p, p1, vs, vs1, col, m);
        assert(is_finite(attended_row(f, q, ks, vs, c, pos)[j]));
        if is_nan(weighted(f, p, vs, col, m)) {
            lemma_no_number_stays(f, p, vs, col, m, vs.len());
        }
    }
}

/// Where the attention of a block computes with finite numbers, it computes with numbers.
pub proof fn lemma_finite_block<F: Arithmetic>(f: &F, x: Seq<Seq<u32>>, l: LayerView, c: Config)
    requires
        keeps_zeros(f),
        keeps_numbers(f),
        block_is_finite(f, x, l, c),
    ensures
        block_is_ordinary(f, x, l, c),
{
    let qs = queries(f, x, l, c, 0);
    let ks = keys(f, x, l, c, 0);
    let vs = values(f, x, l, c);
    let read = attended(f, qs, ks, vs, c, 0);
    lemma_key_count(f, x, l, c, 0);
    assert forall|s: int| 0 <= s < x.len() implies reads_numbers(f, #[trigger] qs[s], ks.take(s + 1), vs.take(s + 1), c, s) by {
        lemma_attended_row(f, qs, ks, vs, c, 0, s);
        assert forall|j: int| 0 <= j < c.n_heads * c.head_dim implies is_finite(#[trigger] attended_row(f, qs[s], ks, vs, c, s)[j]) by {
            assert(is_finite(read[s][j]));
        }
        lemma_finite_read(f, qs[s], ks, vs, c, s);
    }
}

/// Where a network computes with finite numbers, it computes with numbers.
pub proof fn lemma_finite_network<F: Arithmetic>(f: &F, m: ModelView, tokens: Seq<u32>)
    requires
        keeps_zeros(f),
        keeps_numbers(f),
        computes_finite(f, m, tokens),
    ensures
        is_ordinary(f, m, tokens),
{
    assert forall|i: int| 0 <= i < m.layers.len() implies block_is_ordinary(
        f,
        m.states(f, tokens, i as nat),
        #[trigger] m.layers[i],
        m.config,
    ) by {
        lemma_finite_block(f, m.states(f, tokens, i as nat), m.layers[i], m.config);
    }
}

/// Where the activations are finite, a block that is fed a sequence in pieces, with a cache that has
/// room, gives what the block over the whole sequence gives, however the sequence is cut.
pub proof fn lemma_finite_layer_in_pieces<F: Arithmetic>(
    f: &F,
    pieces: Seq<Seq<Seq<u32>>>,
    l: LayerView,
    c: Config,
    kc: Seq<Seq<u32>>,
    vc: Seq<Seq<u32>>,
)
    requires
        keeps_zeros(f),
        keeps_numbers(f),
        c.n_kv_heads > 0,
        c.n_heads % c.n_kv_heads == 0,
        block_is_finite(f, joined(pieces), l, c),
        joined(pieces).len() <= kc.len(),
        joined(pieces).len() <= vc.len(),
    ensures
        layer_in_pieces(f, pieces, l, c, kc, vc, 0) == layer_of_sequence(f, joined(pieces), l, c),
{
    lemma_finite_block(f, joined(pieces), l, c);
    lemma_layer_in_pieces(f, pieces, l, c, kc, vc);
}

/// Where the activations are finite, a network that is fed tokens in pieces, with a cache that has
/// room, gives behind each piece the logits that reading all tokens up to there from scratch gives,
/// however they are cut.
pub proof fn lemma_finite_network_in_pieces<F: Arithmetic>(
    f: &F,
    m: ModelView,
    pieces: Seq<Seq<u32>>,
    kc: Seq<Seq<Seq<u32>>>,
    vc: Seq<Seq<Seq<u32>>>,
    room: int,
)
    requires
        keeps_zeros(f),
        keeps_numbers(f),
        m.fits(),
        computes_finite(f, m, joined(pieces)),
        joined(pieces).len() <= room,
        forall|k: int| 0 <= k < pieces.len() ==> (#[trigger] pieces[k]).len() > 0,
        kc.len() == m.layers.len(),
        vc.len() == m.layers.len(),
        forall|i: int| 0 <= i < kc.len() ==> (#[trigger] kc[i]).len() == room,
        forall|i: int| 0 <= i < vc.len() ==> (#[trigger] vc[i]).len() == room,
    ensures
        logits_in_pieces(f, m, pieces, kc, vc, 0) == logits_from_scratch(f, m, seq![], pieces),
{
    lemma_finite_network(f, m, joined(pieces));
    lemma_network_in_pieces(f, m, pieces, kc, vc, room);
}

/// Whether the activations are finite at each step of a run without a cache.
pub open spec fn run_is_finite<F: Arithmetic>(f: &F, m: ModelView, t: TokenizerView, stop: Seq<u32>, max_new: int, step: int, ids: Seq<u32>) -> bool
    decreases max_new - step,
{
    step < max_new ==> {
        let next = argmax_of(m.logits(f, ids));
        &&& computes_finite(f, m, ids)
        &&& !stop.contains(next) && t.token_bytes(next) is Ok ==> run_is_finite(f, m, t, stop, max_new, step + 1, ids.push(next))
    }
}

/// A run with finite activations computes with numbers.
pub proof fn lemma_finite_run<F: Arithmetic>(f: &F, m: ModelView, t: TokenizerView, stop: Seq<u32>, max_new: int, step: int, ids: Seq<u32>)
    requires
        keeps_zeros(f),
        keeps_numbers(f),
        run_is_finite(f, m, t, stop, max_new, step, ids),
    ensures
        run_is_ordinary(f, m, t, stop, max_new, step, ids),
    decreases max_new - step,
{
    if step < max_new {
        let next = argmax_of(m.logits(f, ids));
        lemma_finite_network(f, m, ids);
        if !stop.contains(next) && t.token_bytes(next) is Ok {
            lemma_finite_run(f, m, t, stop, max_new, step + 1, ids.push(next));
        }
    }
}

/// Where the activations are finite, a run with a cache and a sampler that takes the likeliest token
/// chooses the tokens that the run without a cache chooses, and gives out the same text.
pub proof fn lemma_finite_run_without_cache<F: Arithmetic>(
    f: &F,
    m: ModelView,
    t: TokenizerView,
    prompt: Seq<u32>,
    max_new: usize,
    stop: Seq<u32>,
    sampler: Sampler,
)
    requires
        keeps_zeros(f),
        keeps_numbers(f),
        can_run(m, prompt),
        takes_likeliest(sampler),
        prompt.len() + max_new <= context_cap(m.config),
        run_is_finite(f, m, t, stop, max_new as int, 0, prompt),
    ensures
        generated_with(f, m, t, prompt, max_new, stop, sampler) == (run_uncached(f, m, t, stop, max_new as int, 0, prompt, seq![]), sampler),
        written(events_with(f, m, t, prompt, max_new, stop, sampler)) == written(
            uncached_events(f, m, t, stop, max_new as int, 0, prompt, seq![]),
        ),
{
    lemma_finite_run(f, m, t, stop, max_new as int, 0, prompt);
    lemma_run_without_cache(f, m, t, prompt, max_new, stop, sampler);
}

} // verus!
