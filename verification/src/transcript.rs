//! What a run gives out is the text of the tokens that it chooses, up to a stop token.

use vstd::prelude::*;
use vstd::utf8::*;

use crate::error::ErrorView;
use crate::float::Arithmetic;
use crate::generate::{advanced, argmax_of, closing, empty_rows, events_with, generated_with, last_tokens, lemma_opening, lemma_step, lemma_stream_gives_text, lemma_uncached_step, lemma_written, prefilled, run, run_events, run_uncached, streamed, streamed_pieces, uncached_events, written, EventView, Progress};
use crate::sampler::Sampler;
use crate::tokenizer::{text_of, TokenizerView};
use crate::weights::ModelView;

verus! {

/// The bytes of tokens, one piece for each.
pub open spec fn token_pieces(t: TokenizerView, ids: Seq<u32>) -> Seq<Seq<u8>> {
    Seq::new(ids.len(), |i: int| t.token_bytes(ids[i])->Ok_0)
}

/// Whether all tokens have bytes.
pub open spec fn have_bytes(t: TokenizerView, ids: Seq<u32>) -> bool {
    forall|i: int| 0 <= i < ids.len() ==> t.token_bytes(#[trigger] ids[i]) is Ok
}

/// What a stream gives out of the pieces of tokens, with what it keeps at the end.
pub open spec fn stream_text(t: TokenizerView, ids: Seq<u32>, kept: Seq<u8>) -> Seq<char> {
    let (text, left) = streamed_pieces(token_pieces(t, ids), kept);
    text + text_of(left)
}

/// What is given out at the end.
proof fn lemma_closing(t: TokenizerView, kept: Seq<u8>)
    ensures
        written(closing(kept)) == stream_text(t, seq![], kept),
{
    let end = seq![EventView::End];
    assert(closing(kept) =~= seq![EventView::Text(text_of(kept))] + end);
    lemma_written(EventView::Text(text_of(kept)), end);
    assert(end =~= seq![EventView::End] + Seq::<EventView>::empty());
    lemma_written(EventView::End, seq![]);
    assert(token_pieces(t, seq![]) =~= seq![]);
    assert(written(closing(kept)) =~= stream_text(t, seq![], kept));
}

/// What is given out of one more token.
proof fn lemma_one_more(t: TokenizerView, next: u32, later: Seq<u32>, kept: Seq<u8>)
    requires
        t.token_bytes(next) is Ok,
        have_bytes(t, later),
    ensures
        have_bytes(t, seq![next] + later),
        ({
            let (text, left) = streamed(kept + t.token_bytes(next)->Ok_0);
            stream_text(t, seq![next] + later, kept) == text + stream_text(t, later, left)
        }),
{
    let ids = seq![next] + later;
    let pieces = token_pieces(t, ids);
    assert forall|i: int| 0 <= i < ids.len() implies t.token_bytes(#[trigger] ids[i]) is Ok by {
        if i > 0 {
            assert(ids[i] == later[i - 1]);
        }
    }
    assert(pieces.drop_first() =~= token_pieces(t, later));
    assert(pieces.first() == t.token_bytes(next)->Ok_0);
    let (text, left) = streamed(kept + t.token_bytes(next)->Ok_0);
    assert(stream_text(t, ids, kept) =~= text + stream_text(t, later, left));
}

/// From some moment on, a run with a cache gives out the text of the tokens that it chooses from then
/// on.
proof fn lemma_rest_of_run<F: Arithmetic>(
    f: &F,
    m: ModelView,
    t: TokenizerView,
    stop: Seq<u32>,
    max_new: int,
    step: int,
    p: Progress,
    kept: Seq<u8>,
) -> (new: Seq<u32>)
    requires
        run(f, m, t, stop, max_new, step, p).0 is Ok,
    ensures
        run(f, m, t, stop, max_new, step, p).0->Ok_0 == p.generated + new,
        have_bytes(t, new),
        written(run_events(f, m, t, stop, max_new, step, p, kept)) == stream_text(t, new, kept),
    decreases max_new - step,
{
    let none = Seq::<u32>::empty();
    let recent = last_tokens(p.context, p.sampler.repeat_window);
    assert(p.generated + none =~= p.generated);
    lemma_step(f, m, t, stop, max_new, step, p, kept);
    lemma_closing(t, kept);
    if step >= max_new {
        none
    } else {
        let (next, sampler) = p.sampler.chosen(f, p.logits, recent);
        if stop.contains(next) {
            none
        } else {
            let (text, left) = streamed(kept + t.token_bytes(next)->Ok_0);
            if step + 1 == max_new {
                lemma_closing(t, left);
                lemma_one_more(t, next, none, kept);
                lemma_written(EventView::Text(text), closing(left));
                assert(seq![next] + none =~= seq![next]);
                assert(p.generated.push(next) =~= p.generated + seq![next]);
                seq![next]
            } else {
                let q = advanced(f, m, p, next, sampler);
                let later = lemma_rest_of_run(f, m, t, stop, max_new, step + 1, q, left);
                let decoded = EventView::Decoded { step: step as usize, positions: (p.len + 1) as usize };
                let more = run_events(f, m, t, stop, max_new, step + 1, q, left);
                lemma_written(decoded, more);
                lemma_written(EventView::Text(text), seq![decoded] + more);
                lemma_one_more(t, next, later, kept);
                assert(p.generated.push(next) + later =~= p.generated + (seq![next] + later));
                seq![next] + later
            }
        }
    }
}

/// From some moment on, a run without a cache gives out the text of the tokens that it chooses from
/// then on.
proof fn lemma_rest_of_uncached_run<F: Arithmetic>(
    f: &F,
    m: ModelView,
    t: TokenizerView,
    stop: Seq<u32>,
    max_new: int,
    step: int,
    ids: Seq<u32>,
    generated: Seq<u32>,
    kept: Seq<u8>,
) -> (new: Seq<u32>)
    requires
        run_uncached(f, m, t, stop, max_new, step, ids, generated) is Ok,
    ensures
        run_uncached(f, m, t, stop, max_new, step, ids, generated)->Ok_0 == generated + new,
        have_bytes(t, new),
        written(uncached_events(f, m, t, stop, max_new, step, ids, kept)) == stream_text(t, new, kept),
    decreases max_new - step,
{
    let none = Seq::<u32>::empty();
    assert(generated + none =~= generated);
    lemma_uncached_step(f, m, t, stop, max_new, step, ids, generated, kept);
    lemma_closing(t, kept);
    if step >= max_new {
        none
    } else {
        let next = argmax_of(m.logits(f, ids));
        let decoded = EventView::Decoded { step: step as usize, positions: ids.len() as usize };
        if stop.contains(next) {
            lemma_written(decoded, closing(kept));
            none
        } else {
            let (text, left) = streamed(kept + t.token_bytes(next)->Ok_0);
            let later = lemma_rest_of_uncached_run(f, m, t, stop, max_new, step + 1, ids.push(next), generated.push(next), left);
            let more = uncached_events(f, m, t, stop, max_new, step + 1, ids.push(next), left);
            lemma_written(EventView::Text(text), more);
            lemma_written(decoded, seq![EventView::Text(text)] + more);
            lemma_one_more(t, next, later, kept);
            assert(generated.push(next) + later =~= generated + (seq![next] + later));
            seq![next] + later
        }
    }
}

/// The pieces of tokens, put together, are their bytes.
proof fn lemma_pieces(t: TokenizerView, ids: Seq<u32>, n: nat)
    requires
        have_bytes(t, ids),
        n <= ids.len(),
    ensures
        t.ids_bytes(ids, n) == Ok::<_, ErrorView>(token_pieces(t, ids.take(n as int)).flatten()),
    decreases n,
{
    let pieces = token_pieces(t, ids.take(n as int));
    if n == 0 {
        assert(pieces =~= seq![]);
        assert(pieces.flatten() =~= seq![]);
    } else {
        lemma_pieces(t, ids, (n - 1) as nat);
        let before = token_pieces(t, ids.take(n - 1));
        let last = t.token_bytes(ids[n - 1])->Ok_0;
        assert(t.token_bytes(ids[n - 1]) is Ok);
        assert(pieces =~= before.push(last));
        before.lemma_flatten_push(last);
    }
}

/// What a stream gives out of tokens whose bytes are a text is the text that they decode to.
proof fn lemma_decoded(t: TokenizerView, ids: Seq<u32>)
    requires
        have_bytes(t, ids),
        valid_utf8(t.ids_bytes(ids, ids.len())->Ok_0),
    ensures
        t.decoded(ids) == Ok::<_, ErrorView>(stream_text(t, ids, seq![])),
{
    lemma_pieces(t, ids, ids.len());
    let pieces = token_pieces(t, ids);
    assert(ids.take(ids.len() as int) =~= ids);
    assert(Seq::<u8>::empty() + pieces.flatten() =~= pieces.flatten());
    lemma_stream_gives_text(pieces, seq![]);
    let text = decode_utf8(pieces.flatten());
    assert(text + text_of(seq![]) =~= text) by {
        assert(valid_utf8(Seq::<u8>::empty()));
        assert(decode_utf8(Seq::<u8>::empty()) =~= seq![]);
    }
}

/// A run with a cache that ends without a fault gives out the text that the new tokens decode to,
/// where their bytes are a text.
pub proof fn lemma_run_gives_text<F: Arithmetic>(
    f: &F,
    m: ModelView,
    t: TokenizerView,
    prompt: Seq<u32>,
    max_new: usize,
    stop: Seq<u32>,
    sampler: Sampler,
)
    requires
        generated_with(f, m, t, prompt, max_new, stop, sampler).0 is Ok,
        ({
            let ids = generated_with(f, m, t, prompt, max_new, stop, sampler).0->Ok_0;
            t.ids_bytes(ids, ids.len()) matches Ok(bytes) ==> valid_utf8(bytes)
        }),
    ensures
        t.decoded(generated_with(f, m, t, prompt, max_new, stop, sampler).0->Ok_0) == Ok::<_, ErrorView>(
            written(events_with(f, m, t, prompt, max_new, stop, sampler)),
        ),
{
    let p = prefilled(f, m, prompt, sampler, empty_rows(m.config));
    let new = lemma_rest_of_run(f, m, t, stop, max_new as int, 0, p, seq![]);
    assert(p.generated + new =~= new);
    lemma_pieces(t, new, new.len());
    lemma_decoded(t, new);
    lemma_opening(m.config, prompt.len(), run_events(f, m, t, stop, max_new as int, 0, p, seq![]));
}

/// A run without a cache that ends without a fault gives out the text that the new tokens decode to,
/// where their bytes are a text.
pub proof fn lemma_uncached_run_gives_text<F: Arithmetic>(f: &F, m: ModelView, t: TokenizerView, prompt: Seq<u32>, max_new: usize, stop: Seq<u32>)
    requires
        run_uncached(f, m, t, stop, max_new as int, 0, prompt, seq![]) is Ok,
        ({
            let ids = run_uncached(f, m, t, stop, max_new as int, 0, prompt, seq![])->Ok_0;
            t.ids_bytes(ids, ids.len()) matches Ok(bytes) ==> valid_utf8(bytes)
        }),
    ensures
        t.decoded(run_uncached(f, m, t, stop, max_new as int, 0, prompt, seq![])->Ok_0) == Ok::<_, ErrorView>(
            written(uncached_events(f, m, t, stop, max_new as int, 0, prompt, seq![])),
        ),
{
    let new = lemma_rest_of_uncached_run(f, m, t, stop, max_new as int, 0, prompt, seq![], seq![]);
    assert(Seq::<u32>::empty() + new =~= new);
    lemma_pieces(t, new, new.len());
    lemma_decoded(t, new);
}

// ---------------------------------------------------------------------------
// Stop tokens.
// ---------------------------------------------------------------------------

/// The tokens before the first stop token.
pub open spec fn until_stop(ids: Seq<u32>, stop: Seq<u32>) -> Seq<u32>
    decreases ids.len(),
{
    if ids.len() == 0 || stop.contains(ids.first()) {
        seq![]
    } else {
        seq![ids.first()] + until_stop(ids.drop_first(), stop)
    }
}

/// The tokens before the first stop token are the longest beginning without a stop token.
pub proof fn lemma_until_stop(ids: Seq<u32>, stop: Seq<u32>)
    ensures
        until_stop(ids, stop).len() <= ids.len(),
        until_stop(ids, stop) == ids.take(until_stop(ids, stop).len() as int),
        forall|i: int| 0 <= i < until_stop(ids, stop).len() ==> !stop.contains(#[trigger] ids[i]),
        until_stop(ids, stop).len() < ids.len() ==> stop.contains(ids[until_stop(ids, stop).len() as int]),
    decreases ids.len(),
{
    let first = until_stop(ids, stop);
    if ids.len() > 0 && !stop.contains(ids.first()) {
        let later = ids.drop_first();
        lemma_until_stop(later, stop);
        assert(first =~= ids.take(first.len() as int));
        assert forall|i: int| 0 <= i < first.len() implies !stop.contains(#[trigger] ids[i]) by {
            if i > 0 {
                assert(ids[i] == later[i - 1]);
            }
        }
    } else {
        assert(first =~= ids.take(0));
    }
}

/// One more token before the first stop token.
proof fn lemma_not_stopped(next: u32, later: Seq<u32>, stop: Seq<u32>)
    requires
        !stop.contains(next),
    ensures
        until_stop(seq![next] + later, stop) == seq![next] + until_stop(later, stop),
{
    assert((seq![next] + later).drop_first() =~= later);
}

/// From some moment on, stop tokens cut a run with a cache off at the first of them.
proof fn lemma_run_stops<F: Arithmetic>(f: &F, m: ModelView, t: TokenizerView, stop: Seq<u32>, max_new: int, step: int, p: Progress) -> (new: Seq<u32>)
    requires
        run(f, m, t, seq![], max_new, step, p).0 is Ok,
    ensures
        run(f, m, t, seq![], max_new, step, p).0->Ok_0 == p.generated + new,
        run(f, m, t, stop, max_new, step, p).0 == Ok::<_, ErrorView>(p.generated + until_stop(new, stop)),
    decreases max_new - step,
{
    let none = Seq::<u32>::empty();
    lemma_step(f, m, t, seq![], max_new, step, p, seq![]);
    lemma_step(f, m, t, stop, max_new, step, p, seq![]);
    assert(p.generated + none =~= p.generated);
    if step >= max_new {
        none
    } else {
        let (next, sampler) = p.sampler.chosen(f, p.logits, last_tokens(p.context, p.sampler.repeat_window));
        assert(!none.contains(next));
        let later = if step + 1 == max_new {
            none
        } else {
            lemma_run_stops(f, m, t, stop, max_new, step + 1, advanced(f, m, p, next, sampler))
        };
        let new = seq![next] + later;
        assert(p.generated.push(next) + later =~= p.generated + new);
        assert(p.generated.push(next) =~= p.generated + seq![next]);
        if stop.contains(next) {
            assert(until_stop(new, stop) =~= none);
        } else {
            lemma_not_stopped(next, later, stop);
            assert(p.generated.push(next) + until_stop(later, stop) =~= p.generated + until_stop(new, stop));
        }
        new
    }
}

/// From some moment on, stop tokens cut a run without a cache off at the first of them.
proof fn lemma_uncached_run_stops<F: Arithmetic>(
    f: &F,
    m: ModelView,
    t: TokenizerView,
    stop: Seq<u32>,
    max_new: int,
    step: int,
    ids: Seq<u32>,
    generated: Seq<u32>,
) -> (new: Seq<u32>)
    requires
        run_uncached(f, m, t, seq![], max_new, step, ids, generated) is Ok,
    ensures
        run_uncached(f, m, t, seq![], max_new, step, ids, generated)->Ok_0 == generated + new,
        run_uncached(f, m, t, stop, max_new, step, ids, generated) == Ok::<_, ErrorView>(generated + until_stop(new, stop)),
    decreases max_new - step,
{
    let none = Seq::<u32>::empty();
    lemma_uncached_step(f, m, t, seq![], max_new, step, ids, generated, seq![]);
    lemma_uncached_step(f, m, t, stop, max_new, step, ids, generated, seq![]);
    assert(generated + none =~= generated);
    if step >= max_new {
        none
    } else {
        let next = argmax_of(m.logits(f, ids));
        assert(!none.contains(next));
        let later = lemma_uncached_run_stops(f, m, t, stop, max_new, step + 1, ids.push(next), generated.push(next));
        let new = seq![next] + later;
        assert(generated.push(next) + later =~= generated + new);
        if stop.contains(next) {
            assert(until_stop(new, stop) =~= none);
        } else {
            lemma_not_stopped(next, later, stop);
            assert(generated.push(next) + until_stop(later, stop) =~= generated + until_stop(new, stop));
        }
        new
    }
}

/// The tokens of a run with a cache and stop tokens are those of the run without stop tokens, up to
/// the first stop token.
pub proof fn lemma_stop_tokens<F: Arithmetic>(
    f: &F,
    m: ModelView,
    t: TokenizerView,
    prompt: Seq<u32>,
    max_new: usize,
    stop: Seq<u32>,
    sampler: Sampler,
)
    requires
        generated_with(f, m, t, prompt, max_new, seq![], sampler).0 is Ok,
    ensures
        generated_with(f, m, t, prompt, max_new, stop, sampler).0 == Ok::<_, ErrorView>(
            until_stop(generated_with(f, m, t, prompt, max_new, seq![], sampler).0->Ok_0, stop),
        ),
{
    let p = prefilled(f, m, prompt, sampler, empty_rows(m.config));
    let new = lemma_run_stops(f, m, t, stop, max_new as int, 0, p);
    assert(p.generated + new =~= new);
    assert(p.generated + until_stop(new, stop) =~= until_stop(new, stop));
}

/// The tokens of a run without a cache and with stop tokens are those of the run without stop tokens,
/// up to the first stop token.
pub proof fn lemma_uncached_stop_tokens<F: Arithmetic>(f: &F, m: ModelView, t: TokenizerView, prompt: Seq<u32>, max_new: usize, stop: Seq<u32>)
    requires
        run_uncached(f, m, t, seq![], max_new as int, 0, prompt, seq![]) is Ok,
    ensures
        run_uncached(f, m, t, stop, max_new as int, 0, prompt, seq![]) == Ok::<_, ErrorView>(
            until_stop(run_uncached(f, m, t, seq![], max_new as int, 0, prompt, seq![])->Ok_0, stop),
        ),
{
    let none = Seq::<u32>::empty();
    let new = lemma_uncached_run_stops(f, m, t, stop, max_new as int, 0, prompt, seq![]);
    assert(none + new =~= new);
    assert(none + until_stop(new, stop) =~= until_stop(new, stop));
}

/// Whether the tokens behind the first `from` are at most `room`, none of them a stop token, and as
/// many as there is room for where there are no stop tokens.
spec fn is_cut(ids: Seq<u32>, from: nat, room: int, stop: Seq<u32>) -> bool {
    &&& from <= ids.len()
    &&& ids.len() - from <= room
    &&& stop.len() == 0 ==> ids.len() - from == room
    &&& forall|i: int| from <= i < ids.len() ==> !stop.contains(#[trigger] ids[i])
}

/// How long a run with a cache is from some moment on.
proof fn lemma_run_length<F: Arithmetic>(f: &F, m: ModelView, t: TokenizerView, stop: Seq<u32>, max_new: int, step: int, p: Progress)
    requires
        step <= max_new,
    ensures
        run(f, m, t, stop, max_new, step, p).0 matches Ok(ids) ==> {
            &&& is_cut(ids, p.generated.len(), max_new - step, stop)
            &&& ids.take(p.generated.len() as int) == p.generated
        },
    decreases max_new - step,
{
    lemma_step(f, m, t, stop, max_new, step, p, seq![]);
    let now = run(f, m, t, stop, max_new, step, p).0;
    if step >= max_new {
        assert(p.generated.take(p.generated.len() as int) =~= p.generated);
    } else if now is Ok {
        let (next, sampler) = p.sampler.chosen(f, p.logits, last_tokens(p.context, p.sampler.repeat_window));
        let ids = now->Ok_0;
        if stop.contains(next) {
            assert(p.generated.take(p.generated.len() as int) =~= p.generated);
        } else {
            let longer = p.generated.push(next);
            if step + 1 < max_new {
                lemma_run_length(f, m, t, stop, max_new, step + 1, advanced(f, m, p, next, sampler));
            } else {
                assert(longer.take(longer.len() as int) =~= longer);
            }
            assert(ids.take(longer.len() as int)[p.generated.len() as int] == next);
            assert(ids.take(longer.len() as int).take(p.generated.len() as int) =~= p.generated);
            assert(ids.take(p.generated.len() as int) =~= ids.take(longer.len() as int).take(p.generated.len() as int));
        }
    }
}

/// How long a run without a cache is from some moment on.
proof fn lemma_uncached_run_length<F: Arithmetic>(
    f: &F,
    m: ModelView,
    t: TokenizerView,
    stop: Seq<u32>,
    max_new: int,
    step: int,
    ids: Seq<u32>,
    generated: Seq<u32>,
)
    requires
        step <= max_new,
    ensures
        run_uncached(f, m, t, stop, max_new, step, ids, generated) matches Ok(got) ==> {
            &&& is_cut(got, generated.len(), max_new - step, stop)
            &&& got.take(generated.len() as int) == generated
        },
    decreases max_new - step,
{
    lemma_uncached_step(f, m, t, stop, max_new, step, ids, generated, seq![]);
    let now = run_uncached(f, m, t, stop, max_new, step, ids, generated);
    let next = argmax_of(m.logits(f, ids));
    if step >= max_new || stop.contains(next) {
        assert(generated.take(generated.len() as int) =~= generated);
    } else if now is Ok {
        let got = now->Ok_0;
        let longer = generated.push(next);
        lemma_uncached_run_length(f, m, t, stop, max_new, step + 1, ids.push(next), longer);
        assert(got.take(longer.len() as int)[generated.len() as int] == next);
        assert(got.take(longer.len() as int).take(generated.len() as int) =~= generated);
        assert(got.take(generated.len() as int) =~= got.take(longer.len() as int).take(generated.len() as int));
    }
}

/// A run with a cache that succeeds chooses at most as many tokens as are asked for, and no stop
/// token; without stop tokens it chooses exactly as many.
pub proof fn lemma_length<F: Arithmetic>(
    f: &F,
    m: ModelView,
    t: TokenizerView,
    prompt: Seq<u32>,
    max_new: usize,
    stop: Seq<u32>,
    sampler: Sampler,
)
    ensures
        generated_with(f, m, t, prompt, max_new, stop, sampler).0 matches Ok(ids) ==> {
            &&& ids.len() <= max_new
            &&& stop.len() == 0 ==> ids.len() == max_new
            &&& forall|i: int| 0 <= i < ids.len() ==> !stop.contains(#[trigger] ids[i])
        },
{
    lemma_run_length(f, m, t, stop, max_new as int, 0, prefilled(f, m, prompt, sampler, empty_rows(m.config)));
}

/// A run without a cache that succeeds chooses at most as many tokens as are asked for, and no stop
/// token; without stop tokens it chooses exactly as many.
pub proof fn lemma_uncached_length<F: Arithmetic>(f: &F, m: ModelView, t: TokenizerView, prompt: Seq<u32>, max_new: usize, stop: Seq<u32>)
    ensures
        run_uncached(f, m, t, stop, max_new as int, 0, prompt, seq![]) matches Ok(ids) ==> {
            &&& ids.len() <= max_new
            &&& stop.len() == 0 ==> ids.len() == max_new
            &&& forall|i: int| 0 <= i < ids.len() ==> !stop.contains(#[trigger] ids[i])
        },
{
    lemma_uncached_run_length(f, m, t, stop, max_new as int, 0, prompt, seq![]);
}

} // verus!
