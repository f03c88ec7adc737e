//! Tokens that are fed in pieces: how they are cut changes nothing.

use vstd::prelude::*;

use crate::causal::{block_is_ordinary, holds, is_ordinary, keeps_zeros, lemma_block_is_causal, lemma_cache_changes_nothing, lemma_holds_nothing, lemma_key_count, lemma_keys_take, lemma_network_is_causal, lemma_query_row, lemma_state_count, lemma_step_is_rest, reads_numbers};
use crate::float::{is_finite, Arithmetic};
use crate::model::{keys, layer_of_sequence, layer_step, lemma_append_reads_back, queries, replaced, values};
use crate::weights::{Config, LayerView, ModelView};

verus! {

/// The pieces, one behind the other.
pub open spec fn joined<T>(pieces: Seq<Seq<T>>) -> Seq<T>
    decreases pieces.len(),
{
    if pieces.len() == 0 {
        seq![]
    } else {
        pieces[0] + joined(pieces.drop_first())
    }
}

// ---------------------------------------------------------------------------
// One block.
// ---------------------------------------------------------------------------

/// What a block gives for the pieces that it is fed one after the other, from the position `start`
/// on, where `kc` and `vc` are the keys and values in the cache.
pub open spec fn layer_in_pieces<F: Arithmetic>(
    f: &F,
    pieces: Seq<Seq<Seq<u32>>>,
    l: LayerView,
    c: Config,
    kc: Seq<Seq<u32>>,
    vc: Seq<Seq<u32>>,
    start: int,
) -> Seq<Seq<u32>>
    decreases pieces.len(),
{
    if pieces.len() == 0 {
        seq![]
    } else {
        let x = pieces[0];
        layer_step(f, x, l, c, kc, vc, start) + layer_in_pieces(
            f,
            pieces.drop_first(),
            l,
            c,
            replaced(kc, start, keys(f, x, l, c, start)),
            replaced(vc, start, values(f, x, l, c)),
            start + x.len(),
        )
    }
}

/// From where the cache holds the tokens before, a block that is fed the rest in pieces gives what
/// the block over all tokens gives for the rest.
proof fn lemma_rest_in_pieces<F: Arithmetic>(
    f: &F,
    x: Seq<Seq<u32>>,
    pieces: Seq<Seq<Seq<u32>>>,
    l: LayerView,
    c: Config,
    kc: Seq<Seq<u32>>,
    vc: Seq<Seq<u32>>,
    start: int,
)
    requires
        keeps_zeros(f),
        c.n_kv_heads > 0,
        c.n_heads % c.n_kv_heads == 0,
        block_is_ordinary(f, x, l, c),
        0 <= start <= x.len(),
        joined(pieces) == x.skip(start),
        x.len() <= kc.len(),
        x.len() <= vc.len(),
        kc.take(start) == keys(f, x.take(start), l, c, 0),
        vc.take(start) == values(f, x.take(start), l, c),
    ensures
        layer_in_pieces(f, pieces, l, c, kc, vc, start) == layer_of_sequence(f, x, l, c).skip(start),
    decreases pieces.len(),
{
    let all = layer_of_sequence(f, x, l, c);
    assert(all.len() == x.len());
    if pieces.len() == 0 {
        assert(x.skip(start).len() == 0);
        assert(all.skip(start) =~= seq![]);
    } else {
        let piece = pieces[0];
        let more = pieces.drop_first();
        let mid = start + piece.len();
        assert(x.skip(start).len() == piece.len() + joined(more).len());
        let y = x.take(mid);
        assert(y.take(start) =~= x.take(start));
        assert forall|i: int| 0 <= i < piece.len() implies #[trigger] y.skip(start)[i] == piece[i] by {
            assert(x.skip(start)[i] == piece[i]);
        }
        assert(y.skip(start) =~= piece);
        assert forall|i: int| 0 <= i < joined(more).len() implies #[trigger] x.skip(mid)[i] == joined(more)[i] by {
            assert(x.skip(start)[piece.len() + i] == joined(more)[i]);
        }
        assert(x.skip(mid) =~= joined(more));
        lemma_step_is_rest(f, y, l, c, kc, vc, start);
        lemma_block_is_causal(f, x, l, c, mid);
        lemma_key_count(f, piece, l, c, start);
        lemma_append_reads_back(kc, start, keys(f, piece, l, c, start));
        lemma_append_reads_back(vc, start, values(f, piece, l, c));
        let kc1 = replaced(kc, start, keys(f, piece, l, c, start));
        let vc1 = replaced(vc, start, values(f, piece, l, c));
        lemma_rest_in_pieces(f, x, more, l, c, kc1, vc1, mid);
        assert(all.take(mid).skip(start) + all.skip(mid) =~= all.skip(start));
    }
}

/// A block that is fed a sequence in pieces, with a cache that has room, gives what the block over the
/// whole sequence gives, bit for bit, however the sequence is cut.
pub proof fn lemma_layer_in_pieces<F: Arithmetic>(
    f: &F,
    pieces: Seq<Seq<Seq<u32>>>,
    l: LayerView,
    c: Config,
    kc: Seq<Seq<u32>>,
    vc: Seq<Seq<u32>>,
)
    requires
        keeps_zeros(f),
        c.n_kv_heads > 0,
        c.n_heads % c.n_kv_heads == 0,
        block_is_ordinary(f, joined(pieces), l, c),
        joined(pieces).len() <= kc.len(),
        joined(pieces).len() <= vc.len(),
    ensures
        layer_in_pieces(f, pieces, l, c, kc, vc, 0) == layer_of_sequence(f, joined(pieces), l, c),
{
    let x = joined(pieces);
    lemma_key_count(f, x.take(0), l, c, 0);
    assert(kc.take(0) =~= keys(f, x.take(0), l, c, 0));
    assert(vc.take(0) =~= values(f, x.take(0), l, c));
    assert(x.skip(0) =~= x);
    lemma_rest_in_pieces(f, x, pieces, l, c, kc, vc, 0);
    let all = layer_of_sequence(f, x, l, c);
    assert(all.skip(0) =~= all);
}

// ---------------------------------------------------------------------------
// The whole network.
// ---------------------------------------------------------------------------

/// Where attention computes with numbers over tokens, it does so over the first of them.
proof fn lemma_ordinary_block_prefix<F: Arithmetic>(f: &F, x: Seq<Seq<u32>>, l: LayerView, c: Config, m: int)
    requires
        block_is_ordinary(f, x, l, c),
        0 <= m <= x.len(),
    ensures
        block_is_ordinary(f, x.take(m), l, c),
{
    let y = x.take(m);
    let (qs, ks, vs) = (queries(f, x, l, c, 0), keys(f, x, l, c, 0), values(f, x, l, c));
    let (qs1, ks1, vs1) = (queries(f, y, l, c, 0), keys(f, y, l, c, 0), values(f, y, l, c));
    lemma_key_count(f, x, l, c, 0);
    lemma_key_count(f, y, l, c, 0);
    lemma_keys_take(f, x, l, c, m);
    assert forall|t: int, col: int| 0 <= t < vs1.len() && 0 <= col < c.n_kv_heads * c.head_dim implies is_finite(#[trigger] vs1[t][col]) by {
        assert(is_finite(vs[t][col]));
    }
    assert forall|s: int| 0 <= s < y.len() implies reads_numbers(f, #[trigger] qs1[s], ks1.take(s + 1), vs1.take(s + 1), c, s) by {
        lemma_query_row(f, x, l, c, 0, s);
        lemma_query_row(f, y, l, c, 0, s);
        assert(seq![qs[s]][0] == seq![qs1[s]][0]);
        assert(ks1.take(s + 1) =~= ks.take(s + 1));
        assert(vs1.take(s + 1) =~= vs.take(s + 1));
        assert(reads_numbers(f, qs[s], ks.take(s + 1), vs.take(s + 1), c, s));
    }
}

/// Where a network computes with numbers over tokens, it does so over the first of them.
pub proof fn lemma_ordinary_prefix<F: Arithmetic>(f: &F, m: ModelView, tokens: Seq<u32>, count: int)
    requires
        keeps_zeros(f),
        m.fits(),
        is_ordinary(f, m, tokens),
        0 <= count <= tokens.len(),
    ensures
        is_ordinary(f, m, tokens.take(count)),
{
    assert forall|i: int| 0 <= i < m.layers.len() implies block_is_ordinary(
        f,
        m.states(f, tokens.take(count), i as nat),
        #[trigger] m.layers[i],
        m.config,
    ) by {
        lemma_network_is_causal(f, m, tokens, count, i as nat);
        lemma_state_count(f, m, tokens, i as nat);
        lemma_ordinary_block_prefix(f, m.states(f, tokens, i as nat), m.layers[i], m.config, count);
    }
}

/// The logits behind each of the pieces that a network is fed one after the other, from the position
/// `start` on, where `kc` and `vc` are the keys and values in the cache.
pub open spec fn logits_in_pieces<F: Arithmetic>(
    f: &F,
    m: ModelView,
    pieces: Seq<Seq<u32>>,
    kc: Seq<Seq<Seq<u32>>>,
    vc: Seq<Seq<Seq<u32>>>,
    start: int,
) -> Seq<Seq<u32>>
    decreases pieces.len(),
{
    if pieces.len() == 0 {
        seq![]
    } else {
        let tokens = pieces[0];
        seq![m.cached_logits(f, tokens, kc, vc, start)] + logits_in_pieces(
            f,
            m,
            pieces.drop_first(),
            m.keys_after(f, tokens, kc, vc, start),
            m.values_after(f, tokens, kc, vc, start),
            start + tokens.len(),
        )
    }
}

/// The logits behind each of the pieces, all tokens up to there read from scratch.
pub open spec fn logits_from_scratch<F: Arithmetic>(f: &F, m: ModelView, before: Seq<u32>, pieces: Seq<Seq<u32>>) -> Seq<Seq<u32>>
    decreases pieces.len(),
{
    if pieces.len() == 0 {
        seq![]
    } else {
        let tokens = before + pieces[0];
        seq![m.logits(f, tokens)] + logits_from_scratch(f, m, tokens, pieces.drop_first())
    }
}

/// From where the cache holds the tokens before, a network that is fed pieces gives behind each the
/// logits that reading all tokens up to there from scratch gives, bit for bit, however the tokens are
/// cut.
pub proof fn lemma_pieces_behind<F: Arithmetic>(
    f: &F,
    m: ModelView,
    before: Seq<u32>,
    pieces: Seq<Seq<u32>>,
    kc: Seq<Seq<Seq<u32>>>,
    vc: Seq<Seq<Seq<u32>>>,
    room: int,
)
    requires
        keeps_zeros(f),
        m.fits(),
        is_ordinary(f, m, before + joined(pieces)),
        before.len() + joined(pieces).len() <= room,
        holds(f, m, kc, vc, before),
        forall|k: int| 0 <= k < pieces.len() ==> (#[trigger] pieces[k]).len() > 0,
        forall|i: int| 0 <= i < kc.len() ==> (#[trigger] kc[i]).len() == room,
        forall|i: int| 0 <= i < vc.len() ==> (#[trigger] vc[i]).len() == room,
    ensures
        logits_in_pieces(f, m, pieces, kc, vc, before.len() as int) == logits_from_scratch(f, m, before, pieces),
    decreases pieces.len(),
{
    if pieces.len() > 0 {
        let piece = pieces[0];
        let more = pieces.drop_first();
        let whole = before + joined(pieces);
        let tokens = before + piece;
        let start = before.len() as int;
        assert(tokens.take(start) =~= before);
        assert(tokens.skip(start) =~= piece);
        assert(whole.take(tokens.len() as int) =~= tokens);
        assert(tokens + joined(more) =~= whole);
        lemma_ordinary_prefix(f, m, whole, tokens.len() as int);
        lemma_cache_changes_nothing(f, m, tokens, start, kc, vc, room);
        assert forall|k: int| 0 <= k < more.len() implies (#[trigger] more[k]).len() > 0 by {
            assert(pieces[k + 1].len() > 0);
        }
        lemma_pieces_behind(f, m, tokens, more, m.keys_after(f, piece, kc, vc, start), m.values_after(f, piece, kc, vc, start), room);
    }
}

/// A network that is fed tokens in pieces, with a cache that has room, gives behind each piece the
/// logits that reading all tokens up to there from scratch gives, bit for bit, however they are cut.
pub proof fn lemma_network_in_pieces<F: Arithmetic>(
    f: &F,
    m: ModelView,
    pieces: Seq<Seq<u32>>,
    kc: Seq<Seq<Seq<u32>>>,
    vc: Seq<Seq<Seq<u32>>>,
    room: int,
)
    requires
        keeps_zeros(f),
        m.fits(),
        is_ordinary(f, m, joined(pieces)),
        joined(pieces).len() <= room,
        forall|k: int| 0 <= k < pieces.len() ==> (#[trigger] pieces[k]).len() > 0,
        kc.len() == m.layers.len(),
        vc.len() == m.layers.len(),
        forall|i: int| 0 <= i < kc.len() ==> (#[trigger] kc[i]).len() == room,
        forall|i: int| 0 <= i < vc.len() ==> (#[trigger] vc[i]).len() == room,
    ensures
        logits_in_pieces(f, m, pieces, kc, vc, 0) == logits_from_scratch(f, m, seq![], pieces),
{
    let none: Seq<u32> = seq![];
    lemma_holds_nothing(f, m, kc, vc);
    assert(none + joined(pieces) =~= joined(pieces));
    lemma_pieces_behind(f, m, none, pieces, kc, vc, room);
}

} // verus!
