//! Which tokens a run chooses.

use vstd::prelude::*;
use vstd::utf8::*;

use crate::causal::{holds, is_ordinary, keeps_zeros, lemma_cache_changes_nothing, lemma_prefilled};
use crate::error::ErrorView;
use crate::float::{is_nan, less, Arithmetic};
use crate::generate::{advanced, argmax_of, can_run, closing, context_cap, empty_rows, ends_within, events_with, generated_with, last_tokens, lemma_ends_within_unique, lemma_largest_place, lemma_no_longer_prefix, lemma_step, lemma_uncached_step, opening, prefilled, run, run_events, run_uncached, streamed, templated, EventView, Progress};
use crate::pieces::lemma_ordinary_prefix;
use crate::sampler::Sampler;
use crate::text::is_partial_scalar;
use crate::tokenizer::TokenizerView;
use crate::weights::{Config, ModelView};

verus! {

/// The window holds as many tokens as fit in it, and they are the last ones: counted from the end, its
/// tokens are those of the context. A window with room for one holds the token that was last chosen.
pub proof fn lemma_window(context: Seq<u32>, window: usize)
    ensures
        last_tokens(context, window).len() == if context.len() < window {
            context.len()
        } else {
            window as nat
        },
        forall|k: int|
            1 <= k <= last_tokens(context, window).len() ==> #[trigger] last_tokens(context, window)[last_tokens(context, window).len() - k]
                == context[context.len() - k],
        window >= 1 && context.len() >= 1 ==> last_tokens(context, window).contains(context[context.len() - 1]),
{
    let recent = last_tokens(context, window);
    if window >= 1 && context.len() >= 1 {
        assert(recent[recent.len() - 1] == context[context.len() - 1]);
    }
}

/// What has not fallen out of the window yet does not depend on what lies before it.
pub proof fn lemma_window_forgets(older: Seq<u32>, newer: Seq<u32>, window: usize)
    requires
        newer.len() >= window,
    ensures
        last_tokens(older + newer, window) == last_tokens(newer, window),
{
    assert(last_tokens(older + newer, window) =~= last_tokens(newer, window));
}

/// The likeliest token is the first of those whose logit no other exceeds.
pub proof fn lemma_argmax(logits: Seq<u32>, i: int)
    requires
        0 < logits.len() <= 0x1_0000_0000,
        forall|j: int| 0 <= j < logits.len() ==> !is_nan(#[trigger] logits[j]),
        0 <= i < logits.len(),
    ensures
        argmax_of(logits) < logits.len(),
        !less(logits[argmax_of(logits) as int], logits[i]),
        i < argmax_of(logits) ==> less(logits[i], logits[argmax_of(logits) as int]),
{
    lemma_largest_place(logits, logits.len() as int);
    assert(!is_nan(logits[i]));
    assert(!is_nan(logits[argmax_of(logits) as int]));
}

/// A run is as long as the model's context allows, and at most 4096 tokens, the prompt counted; one
/// that could become longer is refused before anything is chosen, and no other is.
pub proof fn lemma_context<F: Arithmetic>(
    f: &F,
    m: ModelView,
    t: TokenizerView,
    prompt: Seq<u32>,
    max_new: usize,
    stop: Seq<u32>,
    sampler: Sampler,
)
    ensures
        ({
            let room = if m.config.context_length <= 4096 {
                m.config.context_length
            } else {
                4096usize
            };
            let r = generated_with(f, m, t, prompt, max_new, stop, sampler);
            prompt.len() + max_new > room ==> r == (
                Err::<Seq<u32>, ErrorView>(ErrorView::ContextOverflow { prompt: prompt.len() as usize, max_new, cap: room }),
                sampler,
            )
        }),
{
}

/// The sampler before the new token `k` is chosen, where the new tokens are `ids`. Each choice was made
/// from the logits behind all tokens before it, with the last of those tokens as recent ones.
pub open spec fn sampler_before<F: Arithmetic>(f: &F, m: ModelView, prompt: Seq<u32>, ids: Seq<u32>, sampler: Sampler, k: nat) -> Sampler
    decreases k,
{
    if k == 0 {
        sampler
    } else {
        choice(f, m, prompt + ids.take(k - 1), sampler_before(f, m, prompt, ids, sampler, (k - 1) as nat)).1
    }
}

/// What a sampler chooses behind these tokens: from the logits behind them all, with the last of them as
/// recent ones, as many as its window holds.
#[verifier::opaque]
pub open spec fn choice<F: Arithmetic>(f: &F, m: ModelView, seen: Seq<u32>, s: Sampler) -> (u32, Sampler) {
    let recent = if seen.len() <= s.repeat_window {
        seen
    } else {
        seen.subrange(seen.len() - s.repeat_window, seen.len() as int)
    };
    s.chosen(f, m.logits(f, seen), recent)
}

/// What a run with a cache gives begins with what it has so far.
proof fn lemma_run_extends<F: Arithmetic>(f: &F, m: ModelView, t: TokenizerView, stop: Seq<u32>, max_new: int, step: int, p: Progress)
    requires
        run(f, m, t, stop, max_new, step, p).0 is Ok,
    ensures
        ({
            let ids = run(f, m, t, stop, max_new, step, p).0->Ok_0;
            p.generated.len() <= ids.len() && ids.take(p.generated.len() as int) == p.generated
        }),
    decreases max_new - step,
{
    lemma_step(f, m, t, stop, max_new, step, p, seq![]);
    let ids = run(f, m, t, stop, max_new, step, p).0->Ok_0;
    let n = p.generated.len() as int;
    let (next, sampler) = p.sampler.chosen(f, p.logits, last_tokens(p.context, p.sampler.repeat_window));
    if step < max_new && !stop.contains(next) && step + 1 < max_new {
        lemma_run_extends(f, m, t, stop, max_new, step + 1, advanced(f, m, p, next, sampler));
        assert(ids.take(n + 1).take(n) =~= p.generated.push(next).take(n));
        assert(ids.take(n) =~= ids.take(n + 1).take(n));
        assert(p.generated.push(next).take(n) =~= p.generated);
    } else {
        assert(ids.take(n) =~= p.generated);
    }
}

/// Whether the new token `k` is the one that the sampler chooses at its place, and no stop token.
pub open spec fn is_chosen<F: Arithmetic>(f: &F, m: ModelView, prompt: Seq<u32>, ids: Seq<u32>, stop: Seq<u32>, sampler: Sampler, k: int) -> bool {
    &&& ids[k] == choice(f, m, prompt + ids.take(k), sampler_before(f, m, prompt, ids, sampler, k as nat)).0
    &&& !stop.contains(ids[k])
}

/// Whether a run stands before the new token `step`, with a cache that holds all tokens before it.
#[verifier::opaque]
spec fn stands_before<F: Arithmetic>(f: &F, m: ModelView, prompt: Seq<u32>, ids: Seq<u32>, sampler: Sampler, step: int, p: Progress, room: int) -> bool {
    &&& 0 <= step <= ids.len()
    &&& p.generated == ids.take(step)
    &&& p.context == prompt + ids.take(step)
    &&& p.len == p.context.len()
    &&& p.sampler == sampler_before(f, m, prompt, ids, sampler, step as nat)
    &&& p.logits == m.logits(f, p.context)
    &&& holds(f, m, p.kc, p.vc, p.context)
    &&& forall|i: int| 0 <= i < p.kc.len() ==> (#[trigger] p.kc[i]).len() == room
    &&& forall|i: int| 0 <= i < p.vc.len() ==> (#[trigger] p.vc[i]).len() == room
}

/// One step of a run, where each token is chosen from all tokens before it.
proof fn lemma_step_here<F: Arithmetic>(
    f: &F,
    m: ModelView,
    t: TokenizerView,
    stop: Seq<u32>,
    max_new: int,
    step: int,
    p: Progress,
    room: int,
    prompt: Seq<u32>,
    sampler: Sampler,
    ids: Seq<u32>,
)
    requires
        step < max_new,
        stands_before(f, m, prompt, ids, sampler, step, p, room),
        run(f, m, t, stop, max_new, step, p).0 == Ok::<Seq<u32>, ErrorView>(ids),
    ensures
        p.generated == ids.take(step),
        0 <= step <= ids.len(),
        ({
            let (next, after) = choice(f, m, prompt + ids.take(step), sampler_before(f, m, prompt, ids, sampler, step as nat));
            let now = run(f, m, t, stop, max_new, step, p);
            if stop.contains(next) {
                ids == p.generated && now.1 == after
            } else if step + 1 == max_new {
                ids == p.generated.push(next) && now.1 == after
            } else {
                now == run(f, m, t, stop, max_new, step + 1, advanced(f, m, p, next, after))
            }
        }),
{
    reveal(stands_before);
    lemma_step(f, m, t, stop, max_new, step, p, seq![]);
    assert(p.sampler.chosen(f, p.logits, last_tokens(p.context, p.sampler.repeat_window)) == choice(
        f,
        m,
        prompt + ids.take(step),
        sampler_before(f, m, prompt, ids, sampler, step as nat),
    )) by {
        reveal(choice);
        let recent = last_tokens(p.context, p.sampler.repeat_window);
        let w = p.sampler.repeat_window;
        if p.context.len() > w {
            assert(recent =~= p.context.subrange(p.context.len() - w, p.context.len() as int));
        }
    }
}

/// With one more token, the cache holds that too, and the logits are those behind it.
#[verifier::rlimit(30)]
proof fn lemma_cache_goes_on<F: Arithmetic>(f: &F, m: ModelView, p: Progress, next: u32, after: Sampler, room: int)
    requires
        keeps_zeros(f),
        m.fits(),
        is_ordinary(f, m, p.context.push(next)),
        p.len == p.context.len(),
        p.context.len() < room,
        holds(f, m, p.kc, p.vc, p.context),
        forall|i: int| 0 <= i < p.kc.len() ==> (#[trigger] p.kc[i]).len() == room,
        forall|i: int| 0 <= i < p.vc.len() ==> (#[trigger] p.vc[i]).len() == room,
    ensures
        ({
            let q = advanced(f, m, p, next, after);
            &&& q.logits == m.logits(f, p.context.push(next))
            &&& holds(f, m, q.kc, q.vc, p.context.push(next))
            &&& forall|i: int| 0 <= i < q.kc.len() ==> (#[trigger] q.kc[i]).len() == room
            &&& forall|i: int| 0 <= i < q.vc.len() ==> (#[trigger] q.vc[i]).len() == room
        }),
{
    let seen = p.context.push(next);
    let start = p.context.len() as int;
    assert(seen.take(start) =~= p.context);
    assert(seen.skip(start) =~= seq![next]);
    lemma_cache_changes_nothing(f, m, seen, start, p.kc, p.vc, room);
}

/// With the token that was chosen, a run stands before the next one.
proof fn lemma_next_stand<F: Arithmetic>(f: &F, m: ModelView, prompt: Seq<u32>, ids: Seq<u32>, sampler: Sampler, step: int, p: Progress, room: int)
    requires
        keeps_zeros(f),
        m.fits(),
        is_ordinary(f, m, prompt + ids),
        stands_before(f, m, prompt, ids, sampler, step, p, room),
        step < ids.len(),
        prompt.len() + ids.len() <= room,
        ids[step] == choice(f, m, prompt + ids.take(step), sampler_before(f, m, prompt, ids, sampler, step as nat)).0,
    ensures
        ({
            let (next, after) = choice(f, m, prompt + ids.take(step), sampler_before(f, m, prompt, ids, sampler, step as nat));
            stands_before(f, m, prompt, ids, sampler, step + 1, advanced(f, m, p, next, after), room)
        }),
{
    let (next, after) = choice(f, m, prompt + ids.take(step), sampler_before(f, m, prompt, ids, sampler, step as nat));
    reveal(stands_before);
    let seen = p.context.push(next);
    assert(ids.take(step + 1) =~= ids.take(step).push(next));
    assert(seen =~= prompt + ids.take(step + 1));
    assert((prompt + ids).take(prompt.len() + step + 1) =~= seen);
    lemma_ordinary_prefix(f, m, prompt + ids, prompt.len() + step + 1);
    lemma_cache_goes_on(f, m, p, next, after, room);
}

/// From where the cache holds what was read, each token is chosen from all tokens before it.
proof fn lemma_choices_from<F: Arithmetic>(
    f: &F,
    m: ModelView,
    t: TokenizerView,
    stop: Seq<u32>,
    max_new: int,
    step: int,
    p: Progress,
    room: int,
    prompt: Seq<u32>,
    sampler: Sampler,
    ids: Seq<u32>,
)
    requires
        keeps_zeros(f),
        m.fits(),
        0 <= step < max_new,
        run(f, m, t, stop, max_new, step, p).0 == Ok::<Seq<u32>, ErrorView>(ids),
        is_ordinary(f, m, prompt + ids),
        stands_before(f, m, prompt, ids, sampler, step, p, room),
        prompt.len() + max_new <= room,
    ensures
        ids.len() <= max_new,
        forall|k: int| step <= k < ids.len() ==> #[trigger] is_chosen(f, m, prompt, ids, stop, sampler, k),
        ends_as_it_should(f, m, prompt, max_new, stop, sampler, ids, run(f, m, t, stop, max_new, step, p).1),
    decreases max_new - step,
{
    lemma_step_here(f, m, t, stop, max_new, step, p, room, prompt, sampler, ids);
    let here = sampler_before(f, m, prompt, ids, sampler, step as nat);
    let (next, after) = choice(f, m, prompt + ids.take(step), here);
    if stop.contains(next) {
        assert(ids.take(step) =~= ids);
    } else if step + 1 == max_new {
        assert(ids.take(step).len() == step);
        assert(ids[step] == next);
        assert(is_chosen(f, m, prompt, ids, stop, sampler, step));
        assert(sampler_before(f, m, prompt, ids, sampler, max_new as nat) == after);
    } else {
        let q = advanced(f, m, p, next, after);
        lemma_run_extends(f, m, t, stop, max_new, step + 1, q);
        assert(ids.take(step + 1) == p.generated.push(next));
        assert(ids[step] == ids.take(step + 1)[step]);
        assert(is_chosen(f, m, prompt, ids, stop, sampler, step));
        lemma_run_length(f, m, t, stop, max_new, step + 1, q);
        lemma_next_stand(f, m, prompt, ids, sampler, step, p, room);
        lemma_choices_from(f, m, t, stop, max_new, step + 1, q, room, prompt, sampler, ids);
    }
}

/// A run has no more tokens than were asked for.
proof fn lemma_run_length<F: Arithmetic>(f: &F, m: ModelView, t: TokenizerView, stop: Seq<u32>, max_new: int, step: int, p: Progress)
    requires
        step < max_new,
        p.generated.len() == step,
        run(f, m, t, stop, max_new, step, p).0 is Ok,
    ensures
        run(f, m, t, stop, max_new, step, p).0->Ok_0.len() <= max_new,
    decreases max_new - step,
{
    lemma_step(f, m, t, stop, max_new, step, p, seq![]);
    let (next, after) = p.sampler.chosen(f, p.logits, last_tokens(p.context, p.sampler.repeat_window));
    if !stop.contains(next) && step + 1 < max_new {
        lemma_run_length(f, m, t, stop, max_new, step + 1, advanced(f, m, p, next, after));
    }
}

/// Whether a run of these tokens ends as it should, with this sampler: with as many tokens as were asked
/// for, or because a stop token was chosen next.
pub open spec fn ends_as_it_should<F: Arithmetic>(
    f: &F,
    m: ModelView,
    prompt: Seq<u32>,
    max_new: int,
    stop: Seq<u32>,
    sampler: Sampler,
    ids: Seq<u32>,
    end: Sampler,
) -> bool {
    let last = sampler_before(f, m, prompt, ids, sampler, ids.len());
    if ids.len() < max_new {
        &&& stop.contains(choice(f, m, prompt + ids, last).0)
        &&& end == choice(f, m, prompt + ids, last).1
    } else {
        end == last
    }
}

/// A run with a cache chooses each token from the logits behind the prompt and all new tokens before
/// it, as if they were read from scratch, with the last tokens, prompt and new ones, as recent ones.
/// The sampler goes through the choices one after the other. A run that ends before it has `max_new`
/// tokens chose a stop token next, and no stop token is among the tokens.
pub proof fn lemma_choices<F: Arithmetic>(
    f: &F,
    m: ModelView,
    t: TokenizerView,
    prompt: Seq<u32>,
    max_new: usize,
    stop: Seq<u32>,
    sampler: Sampler,
    ids: Seq<u32>,
)
    requires
        keeps_zeros(f),
        can_run(m, prompt),
        generated_with(f, m, t, prompt, max_new, stop, sampler).0 == Ok::<Seq<u32>, ErrorView>(ids),
        is_ordinary(f, m, prompt + ids),
    ensures
        ids.len() <= max_new,
        forall|k: int| 0 <= k < ids.len() ==> #[trigger] is_chosen(f, m, prompt, ids, stop, sampler, k),
        ends_as_it_should(
            f,
            m,
            prompt,
            max_new as int,
            stop,
            sampler,
            ids,
            generated_with(f, m, t, prompt, max_new, stop, sampler).1,
        ),
{
    assert((prompt + ids).take(prompt.len() as int) =~= prompt);
    lemma_ordinary_prefix(f, m, prompt + ids, prompt.len() as int);
    lemma_prefilled(f, m, prompt, sampler);
    let p = prefilled(f, m, prompt, sampler, empty_rows(m.config));
    let room = context_cap(m.config) as int;
    assert(ids.take(0) =~= p.generated);
    assert(p.context =~= prompt + ids.take(0));
    reveal(stands_before);
    if max_new == 0 {
        lemma_step(f, m, t, stop, 0, 0, p, seq![]);
    } else {
        lemma_choices_from(f, m, t, stop, max_new as int, 0, p, room, prompt, sampler, ids);
    }
}

/// What a run without a cache gives begins with what it has so far, and each token behind it is the
/// likeliest.
proof fn lemma_uncached_from<F: Arithmetic>(
    f: &F,
    m: ModelView,
    t: TokenizerView,
    stop: Seq<u32>,
    max_new: int,
    step: int,
    prompt: Seq<u32>,
    so_far: Seq<u32>,
    ids: Seq<u32>,
)
    requires
        0 <= step <= max_new,
        step == so_far.len(),
        run_uncached(f, m, t, stop, max_new, step, prompt + so_far, so_far) == Ok::<Seq<u32>, ErrorView>(ids),
    ensures
        so_far.len() <= ids.len() <= max_new,
        ids.take(so_far.len() as int) == so_far,
        forall|k: int| so_far.len() <= k < ids.len() ==> #[trigger] ids[k] == argmax_of(m.logits(f, prompt + ids.take(k))),
        forall|k: int| so_far.len() <= k < ids.len() ==> !stop.contains(#[trigger] ids[k]),
        ids.len() < max_new ==> stop.contains(argmax_of(m.logits(f, prompt + ids))),
    decreases max_new - step,
{
    lemma_uncached_step(f, m, t, stop, max_new, step, prompt + so_far, so_far, seq![]);
    let next = argmax_of(m.logits(f, prompt + so_far));
    if step >= max_new || stop.contains(next) {
        assert(ids.take(so_far.len() as int) =~= so_far);
    } else {
        let more = so_far.push(next);
        assert((prompt + so_far).push(next) =~= prompt + more);
        lemma_uncached_from(f, m, t, stop, max_new, step + 1, prompt, more, ids);
        assert(ids.take(step) =~= ids.take(step + 1).take(step));
        assert(more.take(step) =~= so_far);
        assert(ids[step] == ids.take(step + 1)[step]);
    }
}

/// A run without a cache takes the likeliest token behind the prompt and all new tokens before it, each
/// time. One that ends before it has `max_new` tokens met a stop token, and no stop token is among the
/// tokens.
pub proof fn lemma_likeliest_each_time<F: Arithmetic>(
    f: &F,
    m: ModelView,
    t: TokenizerView,
    prompt: Seq<u32>,
    max_new: usize,
    stop: Seq<u32>,
    ids: Seq<u32>,
)
    requires
        run_uncached(f, m, t, stop, max_new as int, 0, prompt, seq![]) == Ok::<Seq<u32>, ErrorView>(ids),
    ensures
        ids.len() <= max_new,
        forall|k: int| 0 <= k < ids.len() ==> #[trigger] ids[k] == argmax_of(m.logits(f, prompt + ids.take(k))),
        forall|k: int| 0 <= k < ids.len() ==> !stop.contains(#[trigger] ids[k]),
        ids.len() < max_new ==> stop.contains(argmax_of(m.logits(f, prompt + ids))),
{
    assert(prompt + Seq::<u32>::empty() =~= prompt);
    lemma_uncached_from(f, m, t, stop, max_new as int, 0, prompt, seq![], ids);
}

/// The conversation around a question: the system message in its turn, the question in the user's
/// turn, and the beginning of the assistant's turn.
pub proof fn lemma_conversation(prompt: Seq<char>)
    ensures
        ({
            let system = "<|im_start|>system\nYou are Qwen, created by Alibaba Cloud. You are a helpful assistant.<|im_end|>\n"@;
            let user = "<|im_start|>user\n"@;
            let close = "<|im_end|>\n"@;
            let assistant = "<|im_start|>assistant\n"@;
            templated(prompt) == system + user + prompt + close + assistant
        }),
{
    reveal_strlit("<|im_start|>system\nYou are Qwen, created by Alibaba Cloud. You are a helpful assistant.<|im_end|>\n<|im_start|>user\n");
    reveal_strlit("<|im_end|>\n<|im_start|>assistant\n");
    reveal_strlit("<|im_start|>system\nYou are Qwen, created by Alibaba Cloud. You are a helpful assistant.<|im_end|>\n");
    reveal_strlit("<|im_start|>user\n");
    reveal_strlit("<|im_end|>\n");
    reveal_strlit("<|im_start|>assistant\n");
    let system = "<|im_start|>system\nYou are Qwen, created by Alibaba Cloud. You are a helpful assistant.<|im_end|>\n"@;
    let user = "<|im_start|>user\n"@;
    let close = "<|im_end|>\n"@;
    let assistant = "<|im_start|>assistant\n"@;
    let opened = "<|im_start|>system\nYou are Qwen, created by Alibaba Cloud. You are a helpful assistant.<|im_end|>\n<|im_start|>user\n"@;
    let closed = "<|im_end|>\n<|im_start|>assistant\n"@;
    assert(opened =~= system + user);
    assert(closed =~= close + assistant);
    assert(templated(prompt) =~= system + user + prompt + close + assistant);
}

/// A run begins with what the cache takes, which is four bytes for each number of a key and of a value,
/// in each layer and for each position, and with the length of the prompt. It ends with what is left of
/// the last token, and the end.
pub proof fn lemma_first_and_last_events(c: Config, prompt: nat, kept: Seq<u8>)
    ensures
        ({
            let positions = if c.context_length <= 4096 {
                c.context_length as int
            } else {
                4096
            };
            let numbers = c.n_layers * positions * (c.n_kv_heads * c.head_dim);
            &&& opening(c, prompt).len() == 2
            &&& opening(c, prompt)[0] == (EventView::Cache { bytes: (8 * numbers) as usize, positions: positions as usize })
            &&& opening(c, prompt)[1] == (EventView::Prefilled { tokens: prompt as usize })
        }),
        closing(kept).len() == 2,
        valid_utf8(kept) ==> closing(kept)[0] == EventView::Text(decode_utf8(kept)),
        closing(kept)[1] == EventView::End,
{
    let cap = context_cap(c) as int;
    let (l, w) = (c.n_layers as int, c.n_kv_heads * c.head_dim);
    assert(2 * l * cap * w * 4 == 8 * (l * cap * w)) by (nonlinear_arith);
}

/// Bytes of whole characters are given out at once, and the beginning of a character behind them is kept.
pub proof fn lemma_stream_keeps_beginning(text: Seq<char>, beginning: Seq<u8>)
    requires
        is_partial_scalar(beginning),
    ensures
        streamed(encode_utf8(text)) == (text, Seq::<u8>::empty()),
        streamed(encode_utf8(text) + beginning) == (text, beginning),
{
    let bytes = encode_utf8(text);
    let all = bytes + beginning;
    encode_utf8_valid_utf8(text);
    encode_utf8_decode_utf8(text);
    let v = bytes.len() as int;
    assert(all.subrange(0, v) =~= bytes);
    assert(all.subrange(v, all.len() as int) =~= beginning);
    assert(ends_within(all, v));
    lemma_no_longer_prefix(all, v, all.len() as int);
    assert(all.subrange(0, all.len() as int) =~= all);
    let at = choose|at: int| ends_within(all, at);
    lemma_ends_within_unique(all, v, at);
}

/// A run with a cache is defined for every prompt of known tokens, if the weights fit together, the head
/// chooses among known tokens, and memory holds what is computed.
pub proof fn lemma_can_run(m: ModelView, prompt: Seq<u32>)
    requires
        m.fits(),
        m.layers.len() == m.config.n_layers,
        m.lm_head.out_dim() <= m.embedding.out_dim(),
        m.lm_head.out_dim() <= 0x1_0000_0000,
        prompt.len() > 0,
        forall|i: int| 0 <= i < prompt.len() ==> #[trigger] prompt[i] < m.embedding.out_dim(),
        m.sizes_fit(prompt.len() as int, context_cap(m.config) as int),
        2 * m.config.n_layers <= usize::MAX,
        2 * m.config.n_layers * context_cap(m.config) <= usize::MAX,
        m.config.n_kv_heads * m.config.head_dim <= usize::MAX,
        context_cap(m.config) * (m.config.n_kv_heads * m.config.head_dim) <= usize::MAX,
        2 * m.config.n_layers * context_cap(m.config) * (m.config.n_kv_heads * m.config.head_dim) * 4 <= usize::MAX,
    ensures
        can_run(m, prompt),
{
}

/// After each new token but the last that was asked for, a run with a cache says which step that was,
/// and how many positions the cache holds with it: the prompt and all new tokens.
pub proof fn lemma_steps<F: Arithmetic>(
    f: &F,
    m: ModelView,
    t: TokenizerView,
    prompt: Seq<u32>,
    max_new: usize,
    stop: Seq<u32>,
    sampler: Sampler,
    ids: Seq<u32>,
    k: int,
)
    requires
        generated_with(f, m, t, prompt, max_new, stop, sampler).0 == Ok::<Seq<u32>, ErrorView>(ids),
        0 <= k < ids.len(),
        k + 1 < max_new,
    ensures
        ({
            let events = events_with(f, m, t, prompt, max_new, stop, sampler);
            &&& 2 * k + 3 < events.len()
            &&& events[2 * k + 2] is Text
            &&& events[2 * k + 3] == (EventView::Decoded { step: k as usize, positions: (prompt.len() + k + 1) as usize })
            &&& events[events.len() - 1] == EventView::End
        }),
{
    let p = prefilled(f, m, prompt, sampler, empty_rows(m.config));
    lemma_steps_from(f, m, t, stop, max_new as int, 0, p, seq![], ids, k);
    let rest = run_events(f, m, t, stop, max_new as int, 0, p, seq![]);
    let events = opening(m.config, prompt.len()) + rest;
    assert(events[2 * k + 2] == rest[2 * k]);
    assert(events[2 * k + 3] == rest[2 * k + 1]);
    assert(events[events.len() - 1] == rest[rest.len() - 1]);
}

/// The events of a run from some moment on.
proof fn lemma_steps_from<F: Arithmetic>(
    f: &F,
    m: ModelView,
    t: TokenizerView,
    stop: Seq<u32>,
    max_new: int,
    step: int,
    p: Progress,
    kept: Seq<u8>,
    ids: Seq<u32>,
    k: int,
)
    requires
        run(f, m, t, stop, max_new, step, p).0 == Ok::<Seq<u32>, ErrorView>(ids),
        p.generated.len() == step,
        0 <= step <= k < ids.len(),
        k + 1 < max_new,
    ensures
        ({
            let events = run_events(f, m, t, stop, max_new, step, p, kept);
            &&& 2 * (k - step) + 1 < events.len()
            &&& events[2 * (k - step)] is Text
            &&& events[2 * (k - step) + 1] == (EventView::Decoded { step: k as usize, positions: (p.len + (k - step) + 1) as usize })
            &&& events[events.len() - 1] == EventView::End
        }),
    decreases max_new - step,
{
    lemma_step(f, m, t, stop, max_new, step, p, kept);
    let (next, after) = p.sampler.chosen(f, p.logits, last_tokens(p.context, p.sampler.repeat_window));
    let q = advanced(f, m, p, next, after);
    let bytes = t.token_bytes(next)->Ok_0;
    let left = streamed(kept + bytes).1;
    let events = run_events(f, m, t, stop, max_new, step, p, kept);
    let rest = run_events(f, m, t, stop, max_new, step + 1, q, left);
    assert(events.len() == 2 + rest.len());
    if k == step {
        lemma_ends(f, m, t, stop, max_new, step + 1, q, left);
        assert(events[events.len() - 1] == rest[rest.len() - 1]);
    } else {
        lemma_steps_from(f, m, t, stop, max_new, step + 1, q, left, ids, k);
        let j = 2 * (k - step - 1);
        assert(events[2 + j] == rest[j]);
        assert(events[2 + (j + 1)] == rest[j + 1]);
        assert(events[events.len() - 1] == rest[rest.len() - 1]);
    }
}

/// A run that succeeds ends with its end.
proof fn lemma_ends<F: Arithmetic>(f: &F, m: ModelView, t: TokenizerView, stop: Seq<u32>, max_new: int, step: int, p: Progress, kept: Seq<u8>)
    requires
        run(f, m, t, stop, max_new, step, p).0 is Ok,
    ensures
        ({
            let events = run_events(f, m, t, stop, max_new, step, p, kept);
            events.len() > 0 && events[events.len() - 1] == EventView::End
        }),
    decreases max_new - step,
{
    lemma_step(f, m, t, stop, max_new, step, p, kept);
    let (next, after) = p.sampler.chosen(f, p.logits, last_tokens(p.context, p.sampler.repeat_window));
    if step < max_new && !stop.contains(next) {
        let bytes = t.token_bytes(next)->Ok_0;
        let left = streamed(kept + bytes).1;
        let events = run_events(f, m, t, stop, max_new, step, p, kept);
        if step + 1 < max_new {
            let q = advanced(f, m, p, next, after);
            lemma_ends(f, m, t, stop, max_new, step + 1, q, left);
            let rest = run_events(f, m, t, stop, max_new, step + 1, q, left);
            assert(events[events.len() - 1] == rest[rest.len() - 1]);
        } else {
            assert(events[events.len() - 1] == closing(left)[1]);
        }
    }
}

} // verus!
