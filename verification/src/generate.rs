//! Decoding: chat template, streamed text, and the loops that choose token after token.

use vstd::prelude::*;
use vstd::string::*;
use vstd::utf8::*;

use crate::error::{ErrorView, FurnaceError};
use crate::float::{is_less, is_nan, less, rank, Arithmetic, ZERO};
use crate::model::{layer_sizes_fit, KvCache};
use crate::sampler::Sampler;
use crate::tensor::{lemma_row_bounds, Tensor};
use crate::text::{check_utf8, is_partial_scalar, lemma_decode_concat};
use crate::tokenizer::{lossy, lossy_text, text_of, Tokenizer, TokenizerView};
use crate::weights::{Config, Model, ModelView};

verus! {

/// The place of the largest of the first `n` numbers: of several the first.
pub open spec fn largest_place(x: Seq<u32>, n: int) -> int
    decreases n,
{
    if n <= 1 {
        0
    } else {
        let best = largest_place(x, n - 1);
        if less(x[best], x[n - 1]) {
            n - 1
        } else {
            best
        }
    }
}

/// The place of the largest number: of several the first.
pub open spec fn argmax_of(x: Seq<u32>) -> u32 {
    largest_place(x, x.len() as int) as u32
}

/// Finds the place of the largest number: of several the first.
pub fn argmax(data: &[u32]) -> (r: u32)
    ensures
        r == argmax_of(data@),
{
    let mut best: usize = 0;
    let mut i: usize = 1;
    while i < data.len()
        invariant
            1 <= i,
            i <= data@.len() || i == 1,
            best == largest_place(data@, i as int),
            best < i,
        decreases data@.len() - i,
    {
        if is_less(data[best], data[i]) {
            best = i;
        }
        i = i + 1;
    }
    best as u32
}

/// The place that is found is one of the places.
pub proof fn lemma_largest_place_bound(x: Seq<u32>, n: int)
    ensures
        0 <= largest_place(x, n),
        n > 0 ==> largest_place(x, n) < n,
    decreases n,
{
    if n > 1 {
        lemma_largest_place_bound(x, n - 1);
    }
}

/// Of numbers that can be compared, none is larger than the one that is found, and those before it
/// are smaller.
pub proof fn lemma_largest_place(x: Seq<u32>, n: int)
    requires
        0 < n <= x.len(),
        forall|i: int| 0 <= i < n ==> !is_nan(#[trigger] x[i]),
    ensures
        0 <= largest_place(x, n) < n,
        forall|i: int| 0 <= i < n ==> rank(#[trigger] x[i]) <= rank(x[largest_place(x, n)]),
        forall|i: int| 0 <= i < largest_place(x, n) ==> rank(#[trigger] x[i]) < rank(x[largest_place(x, n)]),
    decreases n,
{
    if n > 1 {
        lemma_largest_place(x, n - 1);
    }
}

// ---------------------------------------------------------------------------
// Text in and out.
// ---------------------------------------------------------------------------

/// The conversation with the default system message and one question, up to where the answer starts.
pub open spec fn templated(prompt: Seq<char>) -> Seq<char> {
    "<|im_start|>system\nYou are Qwen, created by Alibaba Cloud. You are a helpful assistant.<|im_end|>\n<|im_start|>user\n"@ + prompt
        + "<|im_end|>\n<|im_start|>assistant\n"@
}

/// Writes the conversation with the default system message and one question, up to where the answer
/// starts.
pub fn chat_template(prompt: &str) -> (r: String)
    ensures
        r@ == templated(prompt@),
{
    let mut out: String = String::from_str(
        "<|im_start|>system\nYou are Qwen, created by Alibaba Cloud. You are a helpful assistant.<|im_end|>\n<|im_start|>user\n",
    );
    out.append(prompt);
    out.append("<|im_end|>\n<|im_start|>assistant\n");
    out
}

/// Collects the bytes of tokens and gives out whole characters: one token can end within one.
pub struct Utf8Stream {
    pub buf: Vec<u8>,
}

/// Whether the bytes are whole characters and behind them the beginning of one.
pub open spec fn ends_within(bytes: Seq<u8>, valid: int) -> bool {
    &&& 0 <= valid < bytes.len()
    &&& valid_utf8(bytes.subrange(0, valid))
    &&& is_partial_scalar(bytes.subrange(valid, bytes.len() as int))
}

/// What is given out of these bytes, and what is kept: whole characters are given out, the beginning
/// of one behind them is kept. What can no more become a character is given out with replacements.
pub open spec fn streamed(bytes: Seq<u8>) -> (Seq<char>, Seq<u8>) {
    if valid_utf8(bytes) {
        (decode_utf8(bytes), seq![])
    } else if exists|valid: int| ends_within(bytes, valid) {
        let valid = choose|valid: int| ends_within(bytes, valid);
        (decode_utf8(bytes.subrange(0, valid)), bytes.subrange(valid, bytes.len() as int))
    } else {
        (lossy(bytes), seq![])
    }
}

impl View for Utf8Stream {
    type V = Seq<u8>;

    open spec fn view(&self) -> Seq<u8> {
        self.buf@
    }
}

/// Where bytes end within a character, no longer beginning of them is whole characters.
pub proof fn lemma_no_longer_prefix(bytes: Seq<u8>, a: int, b: int)
    requires
        ends_within(bytes, a),
        a < b <= bytes.len(),
    ensures
        !valid_utf8(bytes.subrange(0, b)),
{
    let tail = bytes.subrange(a, bytes.len() as int);
    let head = bytes.subrange(0, b);
    assert(head.subrange(0, a) =~= bytes.subrange(0, a));
    let middle = head.subrange(a, b);
    if valid_utf8(head) {
        if !valid_utf8(middle) {
            partial_valid_partial_invalid_utf8(head, a);
        }
        assert(valid_first_scalar(middle));
        assert(forall|i: int| 0 <= i < middle.len() ==> middle[i] == tail[i]);
        assert(valid_first_scalar(tail));
    }
}

/// There is one place at which bytes can end within a character.
pub proof fn lemma_ends_within_unique(bytes: Seq<u8>, a: int, b: int)
    requires
        ends_within(bytes, a),
        ends_within(bytes, b),
    ensures
        a == b,
{
    if a < b {
        lemma_no_longer_prefix(bytes, a, b);
    } else if b < a {
        lemma_no_longer_prefix(bytes, b, a);
    }
}

impl Utf8Stream {
    /// Nothing collected yet.
    pub fn new() -> (r: Utf8Stream)
        ensures
            r@ == Seq::<u8>::empty(),
    {
        Utf8Stream { buf: Vec::new() }
    }

    /// Collects bytes, and gives out the text that is whole now.
    pub fn push(&mut self, bytes: &[u8]) -> (r: String)
        ensures
            r@ == streamed(old(self)@ + bytes@).0,
            final(self)@ == streamed(old(self)@ + bytes@).1,
    {
        let mut all: Vec<u8> = Vec::new();
        let mut more: Vec<u8> = vstd::slice::slice_to_vec(bytes);
        all.append(&mut self.buf);
        all.append(&mut more);
        assert(all@ =~= old(self)@ + bytes@);
        let ghost input = all@;
        match check_utf8(all.as_slice()) {
            Ok(s) => {
                self.buf = Vec::new();
                assert(self.buf@ =~= seq![]);
                s.to_owned()
            },
            Err((valid, None)) => {
                proof {
                    assert(ends_within(input, valid as int));
                    lemma_ends_within_unique(input, valid as int, choose|v: int| ends_within(input, v));
                }
                let out: String = lossy_text(vstd::slice::slice_subrange(all.as_slice(), 0, valid));
                self.buf = vstd::slice::slice_to_vec(vstd::slice::slice_subrange(all.as_slice(), valid, all.len()));
                out
            },
            Err((valid, Some(_))) => {
                proof {
                    if exists|v: int| ends_within(input, v) {
                        let v = choose|v: int| ends_within(input, v);
                        lemma_longest_prefix(input, valid as int, v);
                    }
                }
                let out: String = lossy_text(all.as_slice());
                self.buf = Vec::new();
                assert(self.buf@ =~= seq![]);
                out
            },
        }
    }

    /// Gives out what is left, with replacements, and starts anew.
    pub fn flush(&mut self) -> (r: String)
        ensures
            r@ == text_of(old(self)@),
            final(self)@ == Seq::<u8>::empty(),
    {
        let out: String = lossy_text(self.buf.as_slice());
        self.buf = Vec::new();
        out
    }
}

/// Where bytes end within a character, the longest valid beginning ends too.
proof fn lemma_longest_prefix(bytes: Seq<u8>, valid: int, v: int)
    requires
        0 <= valid < bytes.len(),
        valid_utf8(bytes.subrange(0, valid)),
        forall|k: int| valid < k <= bytes.len() ==> !valid_utf8(#[trigger] bytes.subrange(0, k)),
        ends_within(bytes, v),
    ensures
        valid == v,
{
    if v < valid {
        lemma_no_longer_prefix(bytes, v, valid);
    }
}

/// What a stream gives out of these pieces, one pushed after the other, and what it keeps.
pub open spec fn streamed_pieces(pieces: Seq<Seq<u8>>, kept: Seq<u8>) -> (Seq<char>, Seq<u8>)
    decreases pieces.len(),
{
    if pieces.len() == 0 {
        (seq![], kept)
    } else {
        let (text, left) = streamed(kept + pieces.first());
        let (more, last) = streamed_pieces(pieces.drop_first(), left);
        (text + more, last)
    }
}

/// The beginning of a text's bytes is whole characters, and behind them at most the beginning of one.
proof fn lemma_beginning_of_text(a: Seq<u8>, b: Seq<u8>)
    requires
        valid_utf8(a + b),
    ensures
        valid_utf8(a) || exists|valid: int| ends_within(a, valid),
    decreases a.len(),
{
    let all = a + b;
    if a.len() > 0 {
        assert(all[0] == a[0]);
        let k = length_of_first_scalar(all);
        if a.len() >= k {
            assert(valid_first_scalar(a) && length_of_first_scalar(a) == k);
            let rest = pop_first_scalar(a);
            assert(pop_first_scalar(all) =~= rest + b);
            lemma_beginning_of_text(rest, b);
            if !valid_utf8(rest) {
                let v = choose|valid: int| ends_within(rest, valid);
                let head = a.subrange(0, k + v);
                assert(valid_first_scalar(head) && length_of_first_scalar(head) == k);
                assert(pop_first_scalar(head) =~= rest.subrange(0, v));
                assert(a.subrange(k + v, a.len() as int) =~= rest.subrange(v, rest.len() as int));
                assert(ends_within(a, k + v));
            }
        } else {
            let rest = all.subrange(a.len() as int, k);
            let one = a + rest;
            assert(one =~= all.subrange(0, k));
            assert(valid_first_scalar(one) && length_of_first_scalar(one) == one.len());
            assert(!valid_first_scalar(a));
            assert(a.subrange(0, 0) =~= Seq::<u8>::empty());
            assert(a.subrange(0, a.len() as int) =~= a);
            assert(is_partial_scalar(a));
            assert(ends_within(a, 0));
        }
    }
}

/// A text that arrives in pieces, wherever they are cut, is given out whole: nothing is replaced,
/// and nothing is kept at the end. At each moment at most the beginning of one character is kept.
pub proof fn lemma_stream_gives_text(pieces: Seq<Seq<u8>>, kept: Seq<u8>)
    requires
        valid_utf8(kept + pieces.flatten()),
        kept.len() == 0 || is_partial_scalar(kept),
    ensures
        streamed_pieces(pieces, kept) == (decode_utf8(kept + pieces.flatten()), Seq::<u8>::empty()),
    decreases pieces.len(),
{
    if pieces.len() == 0 {
        assert(kept + pieces.flatten() =~= kept);
        assert(decode_utf8(kept) =~= seq![]);
    } else {
        let now = kept + pieces.first();
        let later = pieces.drop_first().flatten();
        let all = kept + pieces.flatten();
        assert(all =~= now + later);
        lemma_beginning_of_text(now, later);
        if valid_utf8(now) {
            lemma_rest_of_text(now, later);
            assert(Seq::<u8>::empty() + later =~= later);
            lemma_stream_gives_text(pieces.drop_first(), Seq::empty());
        } else {
            let v = choose|valid: int| ends_within(now, valid);
            let head = now.subrange(0, v);
            let left = now.subrange(v, now.len() as int);
            assert(all =~= head + (left + later));
            lemma_rest_of_text(head, left + later);
            lemma_stream_gives_text(pieces.drop_first(), left);
        }
    }
}

/// Behind whole characters, the rest of a text is one.
proof fn lemma_rest_of_text(head: Seq<u8>, rest: Seq<u8>)
    requires
        valid_utf8(head + rest),
        valid_utf8(head),
    ensures
        valid_utf8(rest),
        decode_utf8(head + rest) == decode_utf8(head) + decode_utf8(rest),
{
    let all = head + rest;
    let k = head.len() as int;
    assert(all.subrange(0, k) =~= head);
    assert(all.subrange(k, all.len() as int) =~= rest);
    if !valid_utf8(rest) {
        partial_valid_partial_invalid_utf8(all, k);
    }
    lemma_decode_concat(head, rest);
}

// ---------------------------------------------------------------------------
// Token after token.
// ---------------------------------------------------------------------------

/// No more positions than this are cached.
pub const CONTEXT_CAP: usize = 4096;

/// How many positions are cached.
pub open spec fn context_cap(c: Config) -> usize {
    if c.context_length < CONTEXT_CAP {
        c.context_length
    } else {
        CONTEXT_CAP
    }
}

/// What happens while tokens are chosen.
pub enum Event<'a> {
    /// The cache is there.
    Cache { bytes: usize, positions: usize },
    /// The prompt was read.
    Prefilled { tokens: usize },
    /// Text that is to be given out.
    Text(&'a str),
    /// One token was read.
    Decoded { step: usize, positions: usize },
    /// No more text follows.
    End,
}

/// What happens while tokens are chosen.
pub enum EventView {
    Cache { bytes: usize, positions: usize },
    Prefilled { tokens: usize },
    Text(Seq<char>),
    Decoded { step: usize, positions: usize },
    End,
}

impl<'a> View for Event<'a> {
    type V = EventView;

    open spec fn view(&self) -> EventView {
        match self {
            Event::Cache { bytes, positions } => EventView::Cache { bytes: *bytes, positions: *positions },
            Event::Prefilled { tokens } => EventView::Prefilled { tokens: *tokens },
            Event::Text(text) => EventView::Text(text@),
            Event::Decoded { step, positions } => EventView::Decoded { step: *step, positions: *positions },
            Event::End => EventView::End,
        }
    }
}

/// Whether a run stops where this event is not taken.
pub open spec fn is_output(e: EventView) -> bool {
    e is Text || e is End
}

/// Whether the output can be handed every event.
pub open spec fn takes_all<S, E: Fn(S, Event) -> (S, bool)>(emit: E) -> bool {
    forall|out: S, e: Event| call_requires(emit, (out, e))
}

/// Whether handing these events over, one after the other, can lead from one output to another.
#[verifier::opaque]
pub open spec fn given_out<S, E: Fn(S, Event) -> (S, bool)>(emit: E, events: Seq<EventView>, first: S, last: S) -> bool
    decreases events.len(),
{
    if events.len() == 0 {
        first == last
    } else {
        exists|before: S, e: Event, taken: bool|
            {
                &&& #[trigger] call_ensures(emit, (before, e), (last, taken))
                &&& given_out(emit, events.drop_last(), first, before)
                &&& e@ == events.last()
                &&& taken || !is_output(e@)
            }
    }
}

/// Whether handing these events over, until event `n`, which is text or the end of it, is not taken,
/// can lead from one output to another.
#[verifier::opaque]
pub open spec fn broken_off_at<S, E: Fn(S, Event) -> (S, bool)>(emit: E, events: Seq<EventView>, n: int, first: S, last: S) -> bool {
    exists|before: S, e: Event|
        {
            &&& 0 <= n < events.len()
            &&& given_out(emit, events.take(n), first, before)
            &&& e@ == events[n]
            &&& is_output(e@)
            &&& #[trigger] call_ensures(emit, (before, e), (last, false))
        }
}

/// Whether handing these events over, until text or the end of it is not taken, can lead from one
/// output to another.
pub open spec fn broken_off<S, E: Fn(S, Event) -> (S, bool)>(emit: E, events: Seq<EventView>, first: S, last: S) -> bool {
    exists|n: int| #[trigger] broken_off_at(emit, events, n, first, last)
}

/// Whether handing these events over, until text or the end of it is not taken, can lead from one
/// output to another, where this is what the moment of that event has for a sampler.
pub open spec fn broken_off_with<S, E: Fn(S, Event) -> (S, bool)>(
    emit: E,
    events: Seq<EventView>,
    samplers: Seq<Sampler>,
    first: S,
    last: S,
    sampler: Sampler,
) -> bool {
    exists|n: int| #[trigger] broken_off_at(emit, events, n, first, last) && sampler == samplers[n]
}

/// One more event.
proof fn lemma_given_out<S, E: Fn(S, Event) -> (S, bool)>(emit: E, events: Seq<EventView>, first: S, before: S, e: Event, last: S, taken: bool)
    requires
        given_out(emit, events, first, before),
        call_ensures(emit, (before, e), (last, taken)),
        taken || !is_output(e@),
    ensures
        given_out(emit, events.push(e@), first, last),
{
    reveal_with_fuel(given_out, 1);
    assert(events.push(e@).drop_last() =~= events);
}

/// One event that is not taken.
proof fn lemma_broken_off<S, E: Fn(S, Event) -> (S, bool)>(
    emit: E,
    events: Seq<EventView>,
    first: S,
    before: S,
    e: Event,
    last: S,
    more: Seq<EventView>,
)
    requires
        given_out(emit, events, first, before),
        call_ensures(emit, (before, e), (last, false)),
        is_output(e@),
    ensures
        broken_off_at(emit, events + seq![e@] + more, events.len() as int, first, last),
{
    reveal(broken_off_at);
    let all = events + seq![e@] + more;
    assert(all.take(events.len() as int) =~= events);
    assert(all[events.len() as int] == e@);
}

/// The text that events give out.
pub open spec fn written(events: Seq<EventView>) -> Seq<char>
    decreases events.len(),
{
    if events.len() == 0 {
        seq![]
    } else {
        match events[0] {
            EventView::Text(text) => text + written(events.skip(1)),
            _ => written(events.skip(1)),
        }
    }
}

/// What one event adds to the text.
pub proof fn lemma_written(e: EventView, rest: Seq<EventView>)
    ensures
        written(seq![e] + rest) == match e {
            EventView::Text(text) => text + written(rest),
            _ => written(rest),
        },
{
    assert((seq![e] + rest).skip(1) =~= rest);
}

/// What is given out behind the last token, where these bytes are kept.
pub open spec fn closing(kept: Seq<u8>) -> Seq<EventView> {
    seq![EventView::Text(text_of(kept)), EventView::End]
}

/// The last `n` tokens, or all if there are fewer.
pub open spec fn last_tokens(context: Seq<u32>, n: usize) -> Seq<u32> {
    if context.len() <= n {
        context
    } else {
        context.skip(context.len() - n)
    }
}

/// Where a run with a cache stands.
pub struct Progress {
    /// The prompt, and behind it the new tokens.
    pub context: Seq<u32>,
    /// The new tokens.
    pub generated: Seq<u32>,
    pub sampler: Sampler,
    pub logits: Seq<u32>,
    /// The keys of each layer.
    pub kc: Seq<Seq<Seq<u32>>>,
    /// The values of each layer.
    pub vc: Seq<Seq<Seq<u32>>>,
    /// How many positions are cached.
    pub len: int,
}

/// Where a run stands when one more token was read.
pub open spec fn advanced<F: Arithmetic>(f: &F, m: ModelView, p: Progress, next: u32, sampler: Sampler) -> Progress {
    Progress {
        context: p.context.push(next),
        generated: p.generated.push(next),
        sampler,
        logits: m.cached_logits(f, seq![next], p.kc, p.vc, p.len),
        kc: m.keys_after(f, seq![next], p.kc, p.vc, p.len),
        vc: m.values_after(f, seq![next], p.kc, p.vc, p.len),
        len: p.len + 1,
    }
}

/// The new tokens of a run with a cache, and the sampler behind them: token after token is chosen,
/// until one of the stop tokens is, or there are `max_new`.
#[verifier::opaque]
pub open spec fn run<F: Arithmetic>(f: &F, m: ModelView, t: TokenizerView, stop: Seq<u32>, max_new: int, step: int, p: Progress) -> (
    Result<Seq<u32>, ErrorView>,
    Sampler,
)
    decreases max_new - step,
{
    let recent = last_tokens(p.context, p.sampler.repeat_window);
    if step >= max_new {
        (Ok(p.generated), p.sampler)
    } else if !p.sampler.can_choose(f, p.logits, recent) {
        (Err(ErrorView::NotComparable), p.sampler)
    } else {
        let (next, sampler) = p.sampler.chosen(f, p.logits, recent);
        if stop.contains(next) {
            (Ok(p.generated), sampler)
        } else {
            match t.token_bytes(next) {
                Err(e) => (Err(e), sampler),
                Ok(bytes) => if step + 1 == max_new {
                    (Ok(p.generated.push(next)), sampler)
                } else {
                    run(f, m, t, stop, max_new, step + 1, advanced(f, m, p, next, sampler))
                },
            }
        }
    }
}

/// What happens in a run with a cache from here on, where these bytes of the last token are kept.
#[verifier::opaque]
pub open spec fn run_events<F: Arithmetic>(
    f: &F,
    m: ModelView,
    t: TokenizerView,
    stop: Seq<u32>,
    max_new: int,
    step: int,
    p: Progress,
    kept: Seq<u8>,
) -> Seq<EventView>
    decreases max_new - step,
{
    let recent = last_tokens(p.context, p.sampler.repeat_window);
    if step >= max_new {
        closing(kept)
    } else if !p.sampler.can_choose(f, p.logits, recent) {
        seq![]
    } else {
        let (next, sampler) = p.sampler.chosen(f, p.logits, recent);
        if stop.contains(next) {
            closing(kept)
        } else {
            match t.token_bytes(next) {
                Err(_) => seq![],
                Ok(bytes) => {
                    let (text, left) = streamed(kept + bytes);
                    seq![EventView::Text(text)] + if step + 1 == max_new {
                        closing(left)
                    } else {
                        seq![EventView::Decoded { step: step as usize, positions: (p.len + 1) as usize }] + run_events(
                            f,
                            m,
                            t,
                            stop,
                            max_new,
                            step + 1,
                            advanced(f, m, p, next, sampler),
                            left,
                        )
                    }
                },
            }
        }
    }
}

/// The samplers of a run with a cache from here on, at the moments at which its events are handed
/// over.
#[verifier::opaque]
pub open spec fn run_samplers<F: Arithmetic>(f: &F, m: ModelView, t: TokenizerView, stop: Seq<u32>, max_new: int, step: int, p: Progress) -> Seq<Sampler>
    decreases max_new - step,
{
    let recent = last_tokens(p.context, p.sampler.repeat_window);
    if step >= max_new {
        seq![p.sampler, p.sampler]
    } else if !p.sampler.can_choose(f, p.logits, recent) {
        seq![]
    } else {
        let (next, sampler) = p.sampler.chosen(f, p.logits, recent);
        if stop.contains(next) {
            seq![sampler, sampler]
        } else if t.token_bytes(next) is Err {
            seq![]
        } else if step + 1 == max_new {
            seq![sampler, sampler, sampler]
        } else {
            seq![sampler, sampler] + run_samplers(f, m, t, stop, max_new, step + 1, advanced(f, m, p, next, sampler))
        }
    }
}

/// One step of a run with a cache.
pub proof fn lemma_step<F: Arithmetic>(f: &F, m: ModelView, t: TokenizerView, stop: Seq<u32>, max_new: int, step: int, p: Progress, kept: Seq<u8>)
    ensures
        ({
            let now = run(f, m, t, stop, max_new, step, p);
            let events = run_events(f, m, t, stop, max_new, step, p, kept);
            let samplers = run_samplers(f, m, t, stop, max_new, step, p);
            let recent = last_tokens(p.context, p.sampler.repeat_window);
            let (next, sampler) = p.sampler.chosen(f, p.logits, recent);
            let after = advanced(f, m, p, next, sampler);
            if step >= max_new {
                now == (Ok::<_, ErrorView>(p.generated), p.sampler) && events == closing(kept) && samplers == seq![p.sampler, p.sampler]
            } else if !p.sampler.can_choose(f, p.logits, recent) {
                now == (Err::<Seq<u32>, _>(ErrorView::NotComparable), p.sampler) && events.len() == 0 && samplers.len() == 0
            } else if stop.contains(next) {
                now == (Ok::<_, ErrorView>(p.generated), sampler) && events == closing(kept) && samplers == seq![sampler, sampler]
            } else {
                match t.token_bytes(next) {
                    Err(e) => now == (Err::<Seq<u32>, _>(e), sampler) && events.len() == 0 && samplers.len() == 0,
                    Ok(bytes) => {
                        let (text, left) = streamed(kept + bytes);
                        if step + 1 == max_new {
                            &&& now == (Ok::<_, ErrorView>(p.generated.push(next)), sampler)
                            &&& events == seq![EventView::Text(text)] + closing(left)
                            &&& samplers == seq![sampler, sampler, sampler]
                        } else {
                            &&& now == run(f, m, t, stop, max_new, step + 1, after)
                            &&& events == seq![EventView::Text(text)] + (seq![
                                EventView::Decoded { step: step as usize, positions: (p.len + 1) as usize },
                            ] + run_events(f, m, t, stop, max_new, step + 1, after, left))
                            &&& samplers == seq![sampler, sampler] + run_samplers(f, m, t, stop, max_new, step + 1, after)
                        }
                    },
                }
            }
        }),
{
    reveal_with_fuel(run, 1);
    reveal_with_fuel(run_events, 1);
    reveal_with_fuel(run_samplers, 1);
}

/// Where a run stands when the prompt was read into an empty cache of this size.
pub open spec fn prefilled<F: Arithmetic>(f: &F, m: ModelView, prompt: Seq<u32>, sampler: Sampler, empty: Seq<Seq<Seq<u32>>>) -> Progress {
    Progress {
        context: prompt,
        generated: seq![],
        sampler,
        logits: m.cached_logits(f, prompt, empty, empty, 0),
        kc: m.keys_after(f, prompt, empty, empty, 0),
        vc: m.values_after(f, prompt, empty, empty, 0),
        len: prompt.len() as int,
    }
}

/// The rows of an empty cache: zeros.
pub open spec fn empty_rows(c: Config) -> Seq<Seq<Seq<u32>>> {
    let width = (c.n_kv_heads * c.head_dim) as nat;
    Seq::new(c.n_layers as nat, |i: int| Seq::new(context_cap(c) as nat, |r: int| Seq::new(width, |j: int| ZERO)))
}

/// The new tokens of a run with a cache, and the sampler behind them.
pub open spec fn generated_with<F: Arithmetic>(
    f: &F,
    m: ModelView,
    t: TokenizerView,
    prompt: Seq<u32>,
    max_new: usize,
    stop: Seq<u32>,
    sampler: Sampler,
) -> (Result<Seq<u32>, ErrorView>, Sampler) {
    let cap = context_cap(m.config);
    if prompt.len() + max_new > cap {
        (Err(ErrorView::ContextOverflow { prompt: prompt.len() as usize, max_new, cap }), sampler)
    } else {
        run(f, m, t, stop, max_new as int, 0, prefilled(f, m, prompt, sampler, empty_rows(m.config)))
    }
}

/// What happens before the first token is chosen.
pub open spec fn opening(c: Config, prompt: nat) -> Seq<EventView> {
    let cap = context_cap(c);
    seq![
        EventView::Cache { bytes: (2 * c.n_layers * cap * (c.n_kv_heads * c.head_dim) * 4) as usize, positions: cap },
        EventView::Prefilled { tokens: prompt as usize },
    ]
}

/// Before the first token is chosen, no text is given out.
pub proof fn lemma_opening(c: Config, prompt: nat, rest: Seq<EventView>)
    ensures
        written(opening(c, prompt) + rest) == written(rest),
{
    let first = opening(c, prompt);
    lemma_written(first[1], rest);
    lemma_written(first[0], seq![first[1]] + rest);
    assert(first + rest =~= seq![first[0]] + (seq![first[1]] + rest));
}

/// What happens in a run with a cache.
pub open spec fn events_with<F: Arithmetic>(
    f: &F,
    m: ModelView,
    t: TokenizerView,
    prompt: Seq<u32>,
    max_new: usize,
    stop: Seq<u32>,
    sampler: Sampler,
) -> Seq<EventView> {
    if prompt.len() + max_new > context_cap(m.config) {
        seq![]
    } else {
        opening(m.config, prompt.len()) + run_events(
            f,
            m,
            t,
            stop,
            max_new as int,
            0,
            prefilled(f, m, prompt, sampler, empty_rows(m.config)),
            seq![],
        )
    }
}

/// The samplers of a run with a cache, at the moments at which its events are handed over.
pub open spec fn samplers_with<F: Arithmetic>(
    f: &F,
    m: ModelView,
    t: TokenizerView,
    prompt: Seq<u32>,
    max_new: usize,
    stop: Seq<u32>,
    sampler: Sampler,
) -> Seq<Sampler> {
    if prompt.len() + max_new > context_cap(m.config) {
        seq![]
    } else {
        seq![sampler, sampler] + run_samplers(
            f,
            m,
            t,
            stop,
            max_new as int,
            0,
            prefilled(f, m, prompt, sampler, empty_rows(m.config)),
        )
    }
}

/// Whether a run with a cache is defined: the weights fit together, every token that can be chosen
/// can be read, and all of it fits in memory.
pub open spec fn can_run(m: ModelView, prompt: Seq<u32>) -> bool {
    let c = m.config;
    let cap = context_cap(c) as int;
    &&& m.fits()
    &&& m.layers.len() == c.n_layers
    &&& m.lm_head.out_dim() <= m.embedding.out_dim()
    &&& m.lm_head.out_dim() <= 0x1_0000_0000
    &&& prompt.len() > 0
    &&& m.knows(prompt)
    &&& c.n_kv_heads * c.head_dim <= usize::MAX
    &&& cap * (c.n_kv_heads * c.head_dim) <= usize::MAX
    &&& 2 * c.n_layers <= usize::MAX
    &&& 2 * c.n_layers * cap <= usize::MAX
    &&& 2 * c.n_layers * cap * (c.n_kv_heads * c.head_dim) * 4 <= usize::MAX
    &&& m.sizes_fit(prompt.len() as int, cap)
}

/// Sizes that fit for more tokens and keys fit for fewer.
pub proof fn lemma_sizes_fewer(m: ModelView, n: int, total: int, n2: int, total2: int)
    requires
        m.sizes_fit(n, total),
        0 <= n2 <= n,
        0 <= total2 <= total,
        forall|i: int| 0 <= i < m.layers.len() ==> (#[trigger] m.layers[i]).w_gate.out_dim() >= 0,
    ensures
        m.sizes_fit(n2, total2),
{
    let c = m.config;
    lemma_product_less(n2, n, c.hidden as int);
    assert forall|i: int| 0 <= i < m.layers.len() implies layer_sizes_fit(#[trigger] m.layers[i], c, c.hidden as int, n2, total2) by {
        let l = m.layers[i];
        assert(layer_sizes_fit(l, c, c.hidden as int, n, total));
        let q = c.n_heads * c.head_dim;
        let kv = c.n_kv_heads * c.head_dim;
        assert(q >= 0) by (nonlinear_arith)
            requires
                q == c.n_heads * c.head_dim,
        ;
        assert(kv >= 0) by (nonlinear_arith)
            requires
                kv == c.n_kv_heads * c.head_dim,
        ;
        lemma_product_less(n2, n, q);
        lemma_product_less(n2, n, kv);
        lemma_product_less(n2, n, l.w_gate.out_dim());
        let h = c.n_heads as int;
        assert(0 <= h * n2 <= h * n) by (nonlinear_arith)
            requires
                0 <= n2 <= n,
                0 <= h,
        ;
        assert(n2 * total2 <= n * total) by (nonlinear_arith)
            requires
                0 <= n2 <= n,
                0 <= total2 <= total,
        ;
        assert((h * n2) * total2 <= (h * n) * total) by (nonlinear_arith)
            requires
                0 <= h * n2 <= h * n,
                0 <= total2 <= total,
        ;
    }
}

/// A smaller factor makes a smaller product.
proof fn lemma_product_less(a: int, b: int, c: int)
    requires
        0 <= a <= b,
        0 <= c,
    ensures
        a * c <= b * c,
{
    assert(a * c <= b * c) by (nonlinear_arith)
        requires
            0 <= a <= b,
            0 <= c,
    ;
}

/// Whether a token is in a list.
fn contains(list: &[u32], x: u32) -> (r: bool)
    ensures
        r == list@.contains(x),
{
    let mut i: usize = 0;
    while i < list.len()
        invariant
            i <= list@.len(),
            forall|k: int| 0 <= k < i ==> list@[k] != x,
        decreases list@.len() - i,
    {
        if list[i] == x {
            return true;
        }
        i = i + 1;
    }
    false
}

/// Chooses new tokens behind a prompt, with a cache: the prompt is read once, then token after token
/// is chosen and read. What happens is handed to the output `out`, text as it becomes whole: `emit`
/// gives the output back, and whether it took the event. Returns the new tokens, and the output.
///
/// Where text is not taken, nothing more is chosen: the sampler is then the one that chose the tokens
/// up to that moment.
pub fn generate<F: Arithmetic, S, E: Fn(S, Event) -> (S, bool)>(
    f: &F,
    model: &Model,
    tokenizer: &Tokenizer,
    prompt_ids: Vec<u32>,
    max_new: usize,
    stop_ids: &[u32],
    sampler: &mut Sampler,
    out: S,
    emit: &E,
) -> (r: (Result<Vec<u32>, FurnaceError>, S))
    requires
        f.wf(),
        model.wf(),
        prompt_ids@.len() + max_new > context_cap(model@.config) || can_run(model@, prompt_ids@),
        tokenizer.wf(),
        takes_all(*emit),
    ensures
        ({
            let want = generated_with(f, model@, tokenizer@, prompt_ids@, max_new, stop_ids@, *old(sampler));
            let events = events_with(f, model@, tokenizer@, prompt_ids@, max_new, stop_ids@, *old(sampler));
            let samplers = samplers_with(f, model@, tokenizer@, prompt_ids@, max_new, stop_ids@, *old(sampler));
            match r.0 {
                Ok(ids) => want == (Ok::<_, ErrorView>(ids@), *final(sampler)) && given_out(*emit, events, out, r.1),
                Err(e) => {
                    ||| want == (Err::<Seq<u32>, _>(e@), *final(sampler)) && given_out(*emit, events, out, r.1)
                    ||| e@ == ErrorView::Output && broken_off_with(*emit, events, samplers, out, r.1, *final(sampler))
                },
            }
        }),
{
    let config: &Config = &model.config;
    let max_ctx: usize = if config.context_length < CONTEXT_CAP {
        config.context_length
    } else {
        CONTEXT_CAP
    };
    let fits: bool = match prompt_ids.len().checked_add(max_new) {
        Some(n) => n <= max_ctx,
        None => false,
    };
    if !fits {
        assert(given_out(*emit, seq![], out, out)) by {
            reveal_with_fuel(given_out, 1);
        }
        return (Err(FurnaceError::ContextOverflow { prompt: prompt_ids.len(), max_new, cap: max_ctx }), out);
    }
    let mut cache: KvCache = KvCache::new(config, max_ctx);
    let ghost empty = empty_rows(*config);
    let ghost start_state = prefilled(f, model@, prompt_ids@, *old(sampler), empty);
    let ghost mut past: Seq<EventView> = seq![];
    let ghost held: Seq<Sampler> = seq![*old(sampler), *old(sampler)];
    assert(given_out(*emit, past, out, out)) by {
        reveal_with_fuel(given_out, 1);
    }
    proof {
        lemma_empty_cache(cache, *config);
        lemma_sizes_smaller(model@, prompt_ids@.len() as int, max_ctx as int, prompt_ids@.len() as int, prompt_ids@.len() as int);
    }
    let cache_event: Event = Event::Cache { bytes: cache.bytes(), positions: max_ctx };
    let ghost e0 = cache_event;
    let (next_out, taken): (S, bool) = emit(out, cache_event);
    proof {
        lemma_given_out(*emit, past, out, out, e0, next_out, taken);
        past = past.push(e0@);
        let (a, b) = (2 * config.n_layers * max_ctx, config.n_kv_heads * config.head_dim);
        assert(2 * cache.k@.len() * cache.max_ctx * cache.kv_dim * 4 == a * b * 4);
    }
    let ghost before_prompt = next_out;
    let first: Tensor = model.forward_cached(f, prompt_ids.as_slice(), &mut cache);
    let (next_out, taken): (S, bool) = emit(next_out, Event::Prefilled { tokens: prompt_ids.len() });
    proof {
        let e1 = Event::Prefilled { tokens: prompt_ids.len() };
        lemma_given_out(*emit, past, out, before_prompt, e1, next_out, taken);
        past = past.push(e1@);
        first.lemma_matrix();
    }
    proof {
        assert(cache.all_keys() =~= start_state.kc);
        assert(cache.all_values() =~= start_state.vc);
        assert(prompt_ids@[0] < model@.embedding.out_dim());
        assert(past =~= opening(*config, prompt_ids@.len()));
    }
    choose_tokens(
        f,
        model,
        tokenizer,
        cache,
        first.data,
        prompt_ids,
        max_new,
        stop_ids,
        sampler,
        next_out,
        emit,
        Ghost(out),
        Ghost(past),
        Ghost(held),
        Ghost(start_state),
    )
}

/// Chooses token after token, where the prompt was read.
#[verifier::rlimit(60)]
fn choose_tokens<F: Arithmetic, S, E: Fn(S, Event) -> (S, bool)>(
    f: &F,
    model: &Model,
    tokenizer: &Tokenizer,
    cache: KvCache,
    first_logits: Vec<u32>,
    prompt_ids: Vec<u32>,
    max_new: usize,
    stop_ids: &[u32],
    sampler: &mut Sampler,
    now: S,
    emit: &E,
    first: Ghost<S>,
    opened: Ghost<Seq<EventView>>,
    held_before: Ghost<Seq<Sampler>>,
    from: Ghost<Progress>,
) -> (r: (Result<Vec<u32>, FurnaceError>, S))
    requires
        f.wf(),
        model.wf(),
        model@.fits(),
        model@.sizes_fit(prompt_ids@.len() as int, cache.max_ctx as int),
        model@.lm_head.out_dim() <= model@.embedding.out_dim(),
        model@.lm_head.out_dim() <= 0x1_0000_0000,
        0 < model@.embedding.out_dim(),
        tokenizer.wf(),
        takes_all(*emit),
        0 < prompt_ids@.len(),
        prompt_ids@.len() + max_new <= cache.max_ctx,
        given_out(*emit, opened@, first@, now),
        held_before@.len() == opened@.len(),
        cache.wf(),
        cache.kv_dim == model.config.n_kv_heads * model.config.head_dim,
        cache.k@.len() == model.layers@.len(),
        cache.len == prompt_ids@.len(),
        cache.all_keys() == from@.kc,
        cache.all_values() == from@.vc,
        from@.len == cache.len,
        from@.context == prompt_ids@,
        from@.generated == Seq::<u32>::empty(),
        from@.logits == first_logits@,
        from@.sampler == *old(sampler),
        first_logits@.len() == model@.lm_head.out_dim(),
    ensures
        ({
            let want = run(f, model@, tokenizer@, stop_ids@, max_new as int, 0, from@);
            let events = opened@ + run_events(f, model@, tokenizer@, stop_ids@, max_new as int, 0, from@, seq![]);
            let samplers = held_before@ + run_samplers(f, model@, tokenizer@, stop_ids@, max_new as int, 0, from@);
            match r.0 {
                Ok(ids) => want == (Ok::<_, ErrorView>(ids@), *final(sampler)) && given_out(*emit, events, first@, r.1),
                Err(e) => {
                    ||| want == (Err::<Seq<u32>, _>(e@), *final(sampler)) && given_out(*emit, events, first@, r.1)
                    ||| e@ == ErrorView::Output && broken_off_with(*emit, events, samplers, first@, r.1, *final(sampler))
                },
            }
        }),
{
    let ghost want = run(f, model@, tokenizer@, stop_ids@, max_new as int, 0, from@);
    let ghost events = opened@ + run_events(f, model@, tokenizer@, stop_ids@, max_new as int, 0, from@, seq![]);
    let ghost samplers = held_before@ + run_samplers(f, model@, tokenizer@, stop_ids@, max_new as int, 0, from@);
    let ghost out = first@;
    let ghost mut past = opened@;
    let ghost mut held = held_before@;
    let config: &Config = &model.config;
    let max_ctx: usize = cache.max_ctx;
    let mut cache: KvCache = cache;
    let mut state: S = now;
    let mut logits: Vec<u32> = first_logits;
    let mut generated: Vec<u32> = Vec::new();
    let mut context: Vec<u32> = vstd::slice::slice_to_vec(prompt_ids.as_slice());
    let mut stream: Utf8Stream = Utf8Stream::new();
    let mut step: usize = 0;
    let ghost mut at: Progress = from@;
    proof {
        assert(generated@ =~= at.generated);
        assert(stream@ =~= seq![]);
    }
    let mut done: bool = false;
    let mut fault: Option<FurnaceError> = None;
    while step < max_new && !done
        invariant
            f.wf(),
            model.wf(),
            model@.fits(),
            model@.sizes_fit(prompt_ids@.len() as int, max_ctx as int),
            model@.lm_head.out_dim() <= model@.embedding.out_dim(),
            model@.lm_head.out_dim() <= 0x1_0000_0000,
            0 < model@.embedding.out_dim(),
            *config == model.config,
            tokenizer.wf(),
            takes_all(*emit),
            step <= max_new,
            0 < prompt_ids@.len(),
            prompt_ids@.len() + max_new <= max_ctx,
            held.len() == past.len(),
            fault is Some ==> done,
            fault is None ==> given_out(*emit, past, out, state),
            done ==> match fault {
                None => {
                    &&& want == (Ok::<_, ErrorView>(generated@), *sampler)
                    &&& events == past + closing(stream@)
                    &&& samplers == held + seq![*sampler, *sampler]
                },
                Some(e) => {
                    ||| want == (Err::<Seq<u32>, _>(e@), *sampler) && events == past && given_out(*emit, past, out, state)
                    ||| e@ == ErrorView::Output && broken_off_with(*emit, events, samplers, out, state, *sampler)
                },
            },
            !done ==> {
                &&& want == run(f, model@, tokenizer@, stop_ids@, max_new as int, step as int, at)
                &&& events == past + run_events(f, model@, tokenizer@, stop_ids@, max_new as int, step as int, at, stream@)
                &&& samplers == held + run_samplers(f, model@, tokenizer@, stop_ids@, max_new as int, step as int, at)
                &&& cache.wf()
                &&& cache.max_ctx == max_ctx
                &&& cache.kv_dim == config.n_kv_heads * config.head_dim
                &&& cache.k@.len() == model.layers@.len()
                &&& cache.len == prompt_ids@.len() + step
                &&& cache.all_keys() == at.kc
                &&& cache.all_values() == at.vc
                &&& at.len == cache.len
                &&& at.context == context@
                &&& at.generated == generated@
                &&& at.logits == logits@
                &&& at.sampler == *sampler
                &&& logits@.len() == model@.lm_head.out_dim()
            },
        decreases max_new - step, if done { 0int } else { 1int },
    {
        let start: usize = if context.len() > sampler.repeat_window {
            context.len() - sampler.repeat_window
        } else {
            0
        };
        let recent: &[u32] = vstd::slice::slice_subrange(context.as_slice(), start, context.len());
        assert(recent@ =~= last_tokens(context@, sampler.repeat_window));
        proof {
            lemma_step(f, model@, tokenizer@, stop_ids@, max_new as int, step as int, at, stream@);
        }
        if !sampler.check(f, logits.as_slice(), recent) {
            assert(events =~= past);
            fault = Some(FurnaceError::NotComparable);
            done = true;
        } else {
            let next: u32 = sampler.sample(f, logits.as_slice(), recent);
            if contains(stop_ids, next) {
                done = true;
            } else {
                match tokenizer.token_bytes(next) {
                    Err(e) => {
                        assert(events =~= past);
                        fault = Some(e);
                        done = true;
                    },
                    Ok(bytes) => {
                        generated.push(next);
                        context.push(next);
                        let text: String = stream.push(bytes.as_slice());
                        let ghost later = if step + 1 == max_new {
                            closing(stream@)
                        } else {
                            seq![EventView::Decoded { step, positions: (at.len + 1) as usize }] + run_events(
                                f,
                                model@,
                                tokenizer@,
                                stop_ids@,
                                max_new as int,
                                step + 1,
                                advanced(f, model@, at, next, *sampler),
                                stream@,
                            )
                        };
                        let ghost before = state;
                        let shown: &str = text.as_str();
                        let ghost e = Event::Text(shown);
                        let (next_out, taken): (S, bool) = emit(state, Event::Text(shown));
                        state = next_out;
                        assert(events =~= past + seq![e@] + later);
                        assert(samplers[past.len() as int] == *sampler);
                        if !taken {
                            proof {
                                lemma_broken_off(*emit, past, out, before, e, state, later);
                            }
                            fault = Some(FurnaceError::Output);
                            done = true;
                        } else {
                            proof {
                                lemma_given_out(*emit, past, out, before, e, state, taken);
                                past = past.push(e@);
                                held = held.push(*sampler);
                                assert(events =~= past + later);
                            }
                            if step + 1 == max_new {
                                assert(samplers =~= held + seq![*sampler, *sampler]);
                                done = true;
                            } else {
                                let one: [u32; 1] = [next];
                                proof {
                                    lemma_sizes_smaller(model@, prompt_ids@.len() as int, max_ctx as int, 1, cache.len + 1);
                                    assert(one@ =~= seq![next]);
                                }
                                let more: Tensor = model.forward_cached(f, one.as_slice(), &mut cache);
                                proof {
                                    more.lemma_matrix();
                                    at = advanced(f, model@, at, next, *sampler);
                                    assert(cache.all_keys() =~= at.kc);
                                    assert(cache.all_values() =~= at.vc);
                                }
                                logits = more.data;
                                let ghost before = state;
                                let ghost e = Event::Decoded { step, positions: cache.len };
                                let (next_out, taken): (S, bool) = emit(state, Event::Decoded { step, positions: cache.len });
                                state = next_out;
                                proof {
                                    lemma_given_out(*emit, past, out, before, e, state, taken);
                                    past = past.push(e@);
                                    held = held.push(*sampler);
                                    let rest = run_events(f, model@, tokenizer@, stop_ids@, max_new as int, step + 1, at, stream@);
                                    assert(events =~= past + rest);
                                    assert(samplers =~= held + run_samplers(f, model@, tokenizer@, stop_ids@, max_new as int, step + 1, at));
                                }
                                step = step + 1;
                            }
                        }
                    },
                }
            }
        }
    }
    if let Some(e) = fault {
        return (Err(e), state);
    }
    proof {
        if !done {
            lemma_step(f, model@, tokenizer@, stop_ids@, max_new as int, step as int, at, stream@);
        }
    }
    let ghost kept = stream@;
    let rest: String = stream.flush();
    match finish_output(rest, state, emit, Ghost(out), Ghost(past), Ghost(kept)) {
        (Ok(()), last) => (Ok(generated), last),
        (Err(e), last) => {
            assert(samplers[past.len() as int] == *sampler && samplers[(past.len() + 1) as int] == *sampler);
            assert(broken_off_with(*emit, events, samplers, out, last, *sampler));
            (Err(e), last)
        },
    }
}

/// Gives out the rest of the text, and that it ends.
fn finish_output<S, E: Fn(S, Event) -> (S, bool)>(
    rest: String,
    out: S,
    emit: &E,
    first: Ghost<S>,
    past: Ghost<Seq<EventView>>,
    kept: Ghost<Seq<u8>>,
) -> (r: (Result<(), FurnaceError>, S))
    requires
        takes_all(*emit),
        rest@ == text_of(kept@),
        given_out(*emit, past@, first@, out),
    ensures
        match r.0 {
            Ok(()) => given_out(*emit, past@ + closing(kept@), first@, r.1),
            Err(e) => {
                &&& e@ == ErrorView::Output
                &&& {
                    ||| broken_off_at(*emit, past@ + closing(kept@), past@.len() as int, first@, r.1)
                    ||| broken_off_at(*emit, past@ + closing(kept@), (past@.len() + 1) as int, first@, r.1)
                }
            },
        },
{
    let shown: &str = rest.as_str();
    let ghost e = Event::Text(shown);
    let ghost all = past@ + closing(kept@);
    let (state, taken): (S, bool) = emit(out, Event::Text(shown));
    assert(all =~= past@ + seq![e@] + seq![EventView::End]);
    if !taken {
        proof {
            lemma_broken_off(*emit, past@, first@, out, e, state, seq![EventView::End]);
        }
        return (Err(FurnaceError::Output), state);
    }
    proof {
        lemma_given_out(*emit, past@, first@, out, e, state, taken);
    }
    let ghost before = state;
    let ghost now = past@.push(e@);
    let (state, taken): (S, bool) = emit(state, Event::End);
    assert(all =~= now + seq![EventView::End] + seq![]);
    assert(all =~= now.push(EventView::End));
    if !taken {
        proof {
            lemma_broken_off(*emit, now, first@, before, Event::End, state, seq![]);
        }
        return (Err(FurnaceError::Output), state);
    }
    proof {
        lemma_given_out(*emit, now, first@, before, Event::End, state, taken);
    }
    (Ok(()), state)
}

/// What an empty cache holds.
proof fn lemma_empty_cache(cache: KvCache, c: Config)
    requires
        cache.wf(),
        cache.max_ctx == context_cap(c),
        cache.kv_dim == c.n_kv_heads * c.head_dim,
        cache.k@.len() == c.n_layers,
        forall|i: int, j: int| 0 <= i < cache.k@.len() && 0 <= j < cache.k@[i]@.len() ==> #[trigger] cache.k@[i]@[j] == ZERO,
        forall|i: int, j: int| 0 <= i < cache.v@.len() && 0 <= j < cache.v@[i]@.len() ==> #[trigger] cache.v@[i]@[j] == ZERO,
    ensures
        cache.all_keys() == empty_rows(c),
        cache.all_values() == empty_rows(c),
{
    let want = empty_rows(c);
    assert forall|i: int| 0 <= i < c.n_layers implies #[trigger] cache.all_keys()[i] == want[i] && cache.all_values()[i] == want[i] by {
        assert(cache.k@[i]@.len() == cache.max_ctx * cache.kv_dim);
        assert(cache.v@[i]@.len() == cache.max_ctx * cache.kv_dim);
        assert forall|r: int| 0 <= r < cache.max_ctx implies #[trigger] cache.key_rows(i)[r] == want[i][r] && cache.value_rows(i)[r] == want[i][r] by {
            lemma_row_bounds(r, cache.max_ctx as int, cache.kv_dim as int);
            assert(cache.key_rows(i)[r] =~= want[i][r]);
            assert(cache.value_rows(i)[r] =~= want[i][r]);
        }
        assert(cache.key_rows(i) =~= want[i]);
        assert(cache.value_rows(i) =~= want[i]);
    }
    assert(cache.all_keys() =~= want);
    assert(cache.all_values() =~= want);
}

/// Sizes that fit for more tokens and keys fit for fewer, where the weights fit together.
proof fn lemma_sizes_smaller(m: ModelView, n: int, total: int, n2: int, total2: int)
    requires
        m.fits(),
        m.sizes_fit(n, total),
        0 <= n2 <= n,
        0 <= total2 <= total,
    ensures
        m.sizes_fit(n2, total2),
{
    assert forall|i: int| 0 <= i < m.layers.len() implies (#[trigger] m.layers[i]).w_gate.out_dim() >= 0 by {}
    lemma_sizes_fewer(m, n, total, n2, total2);
}

// ---------------------------------------------------------------------------
// Without a cache.
// ---------------------------------------------------------------------------

/// The new tokens of a run without a cache: the likeliest token is taken again and again, until it
/// is one of the stop tokens, or there are `max_new`. The logits are those behind the whole sequence.
#[verifier::opaque]
pub open spec fn run_uncached<F: Arithmetic>(
    f: &F,
    m: ModelView,
    t: TokenizerView,
    stop: Seq<u32>,
    max_new: int,
    step: int,
    ids: Seq<u32>,
    generated: Seq<u32>,
) -> Result<Seq<u32>, ErrorView>
    decreases max_new - step,
{
    if step >= max_new {
        Ok(generated)
    } else {
        let next = argmax_of(m.logits(f, ids));
        if stop.contains(next) {
            Ok(generated)
        } else {
            match t.token_bytes(next) {
                Err(e) => Err(e),
                Ok(bytes) => run_uncached(f, m, t, stop, max_new, step + 1, ids.push(next), generated.push(next)),
            }
        }
    }
}

/// What happens in a run without a cache from here on, where these bytes of the last token are kept.
#[verifier::opaque]
pub open spec fn uncached_events<F: Arithmetic>(
    f: &F,
    m: ModelView,
    t: TokenizerView,
    stop: Seq<u32>,
    max_new: int,
    step: int,
    ids: Seq<u32>,
    kept: Seq<u8>,
) -> Seq<EventView>
    decreases max_new - step,
{
    if step >= max_new {
        closing(kept)
    } else {
        let next = argmax_of(m.logits(f, ids));
        seq![EventView::Decoded { step: step as usize, positions: ids.len() as usize }] + if stop.contains(next) {
            closing(kept)
        } else {
            match t.token_bytes(next) {
                Err(_) => seq![],
                Ok(bytes) => {
                    let (text, left) = streamed(kept + bytes);
                    seq![EventView::Text(text)] + uncached_events(f, m, t, stop, max_new, step + 1, ids.push(next), left)
                },
            }
        }
    }
}

/// One step of a run without a cache.
pub proof fn lemma_uncached_step<F: Arithmetic>(
    f: &F,
    m: ModelView,
    t: TokenizerView,
    stop: Seq<u32>,
    max_new: int,
    step: int,
    ids: Seq<u32>,
    generated: Seq<u32>,
    kept: Seq<u8>,
)
    ensures
        ({
            let now = run_uncached(f, m, t, stop, max_new, step, ids, generated);
            let events = uncached_events(f, m, t, stop, max_new, step, ids, kept);
            let next = argmax_of(m.logits(f, ids));
            let decoded = seq![EventView::Decoded { step: step as usize, positions: ids.len() as usize }];
            if step >= max_new {
                now == Ok::<_, ErrorView>(generated) && events == closing(kept)
            } else if stop.contains(next) {
                now == Ok::<_, ErrorView>(generated) && events == decoded + closing(kept)
            } else {
                match t.token_bytes(next) {
                    Err(e) => now == Err::<Seq<u32>, _>(e) && events == decoded + Seq::<EventView>::empty(),
                    Ok(bytes) => {
                        let (text, left) = streamed(kept + bytes);
                        &&& now == run_uncached(f, m, t, stop, max_new, step + 1, ids.push(next), generated.push(next))
                        &&& events == decoded + (seq![EventView::Text(text)] + uncached_events(
                            f,
                            m,
                            t,
                            stop,
                            max_new,
                            step + 1,
                            ids.push(next),
                            left,
                        ))
                    },
                }
            }
        }),
{
    reveal_with_fuel(run_uncached, 1);
    reveal_with_fuel(uncached_events, 1);
}

/// Whether a run without a cache is defined: the weights fit together, every token that can be
/// chosen can be read, and all of it fits in memory.
pub open spec fn can_run_uncached(m: ModelView, prompt: Seq<u32>, max_new: int) -> bool {
    &&& m.fits()
    &&& m.lm_head.out_dim() <= m.embedding.out_dim()
    &&& m.lm_head.out_dim() <= 0x1_0000_0000
    &&& prompt.len() > 0
    &&& m.knows(prompt)
    &&& m.sizes_fit(prompt.len() + max_new, prompt.len() + max_new)
}

/// Chooses new tokens behind a prompt from scratch, without a cache: the likeliest at each step. This
/// is slow, and what the run with a cache is measured by. What happens is handed to the output as in a
/// run with a cache.
pub fn generate_uncached<F: Arithmetic, S, E: Fn(S, Event) -> (S, bool)>(
    f: &F,
    model: &Model,
    tokenizer: &Tokenizer,
    prompt_ids: Vec<u32>,
    max_new: usize,
    stop_ids: &[u32],
    out: S,
    emit: &E,
) -> (r: (Result<Vec<u32>, FurnaceError>, S))
    requires
        f.wf(),
        model.wf(),
        max_new == 0 || can_run_uncached(model@, prompt_ids@, max_new as int),
        tokenizer.wf(),
        takes_all(*emit),
    ensures
        ({
            let want = run_uncached(f, model@, tokenizer@, stop_ids@, max_new as int, 0, prompt_ids@, seq![]);
            let events = uncached_events(f, model@, tokenizer@, stop_ids@, max_new as int, 0, prompt_ids@, seq![]);
            match r.0 {
                Ok(ids) => want == Ok::<_, ErrorView>(ids@) && given_out(*emit, events, out, r.1),
                Err(e) => {
                    ||| want == Err::<Seq<u32>, _>(e@) && given_out(*emit, events, out, r.1)
                    ||| e@ == ErrorView::Output && broken_off(*emit, events, out, r.1)
                },
            }
        }),
{
    let ghost want = run_uncached(f, model@, tokenizer@, stop_ids@, max_new as int, 0, prompt_ids@, seq![]);
    let ghost events = uncached_events(f, model@, tokenizer@, stop_ids@, max_new as int, 0, prompt_ids@, seq![]);
    let ghost prompt = prompt_ids@;
    let ghost mut past: Seq<EventView> = seq![];
    assert(given_out(*emit, past, out, out)) by {
        reveal_with_fuel(given_out, 1);
    }
    let mut ids: Vec<u32> = prompt_ids;
    let mut generated: Vec<u32> = Vec::new();
    let mut stream: Utf8Stream = Utf8Stream::new();
    let mut state: S = out;
    let mut step: usize = 0;
    let mut done: bool = false;
    proof {
        assert(generated@ =~= seq![]);
        assert(stream@ =~= seq![]);
        assert(events =~= past + events);
    }
    while step < max_new && !done
        invariant
            f.wf(),
            model.wf(),
            max_new == 0 || can_run_uncached(model@, prompt, max_new as int),
            prompt == prompt_ids@,
            tokenizer.wf(),
            takes_all(*emit),
            step <= max_new,
            want == run_uncached(f, model@, tokenizer@, stop_ids@, max_new as int, 0, prompt, seq![]),
            events == uncached_events(f, model@, tokenizer@, stop_ids@, max_new as int, 0, prompt, seq![]),
            given_out(*emit, past, out, state),
            done ==> want == Ok::<_, ErrorView>(generated@),
            done ==> events == past + closing(stream@),
            !done ==> want == run_uncached(f, model@, tokenizer@, stop_ids@, max_new as int, step as int, ids@, generated@),
            !done ==> events == past + uncached_events(f, model@, tokenizer@, stop_ids@, max_new as int, step as int, ids@, stream@),
            ids@.len() == prompt.len() + step,
            max_new == 0 || model@.knows(ids@),
        decreases max_new - step, if done { 0int } else { 1int },
    {
        proof {
            assert(prompt[0] < model@.embedding.out_dim());
            lemma_sizes_smaller(model@, prompt.len() + max_new, prompt.len() + max_new, ids@.len() as int, ids@.len() as int);
            lemma_uncached_step(f, model@, tokenizer@, stop_ids@, max_new as int, step as int, ids@, generated@, stream@);
        }
        let logits: Tensor = model.forward_last(f, ids.as_slice());
        proof {
            logits.lemma_matrix();
            lemma_largest_place_bound(logits.data@, logits.data@.len() as int);
        }
        let next: u32 = argmax(logits.data.as_slice());
        let ghost before = state;
        let ghost e = Event::Decoded { step, positions: ids.len() };
        let ghost later = if stop_ids@.contains(next) {
            closing(stream@)
        } else {
            match tokenizer@.token_bytes(next) {
                Err(_) => seq![],
                Ok(bytes) => seq![EventView::Text(streamed(stream@ + bytes).0)] + uncached_events(
                    f,
                    model@,
                    tokenizer@,
                    stop_ids@,
                    max_new as int,
                    step + 1,
                    ids@.push(next),
                    streamed(stream@ + bytes).1,
                ),
            }
        };
        assert(ids.len() == ids@.len());
        assert(events =~= past + seq![e@] + later);
        let (next_out, taken): (S, bool) = emit(state, Event::Decoded { step, positions: ids.len() });
        state = next_out;
        proof {
            lemma_given_out(*emit, past, out, before, e, state, taken);
            past = past.push(e@);
            assert(events =~= past + later);
        }
        if contains(stop_ids, next) {
            done = true;
        } else {
            let bytes: Vec<u8> = match tokenizer.token_bytes(next) {
                Ok(bytes) => bytes,
                Err(e) => {
                    assert(events =~= past);
                    return (Err(e), state);
                },
            };
            generated.push(next);
            ids.push(next);
            let text: String = stream.push(bytes.as_slice());
            let ghost before = state;
            let shown: &str = text.as_str();
            let ghost e = Event::Text(shown);
            let ghost rest = uncached_events(f, model@, tokenizer@, stop_ids@, max_new as int, step + 1, ids@, stream@);
            assert(events =~= past + seq![e@] + rest);
            let (next_out, taken): (S, bool) = emit(state, Event::Text(shown));
            state = next_out;
            if !taken {
                proof {
                    lemma_broken_off(*emit, past, out, before, e, state, rest);
                }
                return (Err(FurnaceError::Output), state);
            }
            proof {
                lemma_given_out(*emit, past, out, before, e, state, taken);
                past = past.push(e@);
                assert(events =~= past + rest);
            }
            step = step + 1;
        }
    }
    proof {
        if !done {
            lemma_uncached_step(f, model@, tokenizer@, stop_ids@, max_new as int, step as int, ids@, generated@, stream@);
        }
    }
    let ghost kept = stream@;
    let rest: String = stream.flush();
    match finish_output(rest, state, emit, Ghost(out), Ghost(past), Ghost(kept)) {
        (Ok(()), last) => (Ok(generated), last),
        (Err(e), last) => (Err(e), last),
    }
}

/// Whether every token that can be chosen can be read.
fn check_vocab(model: &Model) -> (r: bool)
    requires
        model.wf(),
        model@.fits(),
    ensures
        r == (model@.lm_head.out_dim() <= model@.embedding.out_dim() && model@.lm_head.out_dim() <= 0x1_0000_0000),
{
    model.lm_head.out_dim() <= model.embedding.out_dim() && model.lm_head.out_dim() as u64 <= 0x1_0000_0000
}

/// Whether a run with a cache is defined, if only because it ends at once: then the prompt with the
/// new tokens would not fit in the context.
pub fn check_run(model: &Model, prompt_ids: &[u32], max_new: usize) -> (r: bool)
    requires
        model.wf(),
    ensures
        r == (prompt_ids@.len() + max_new > context_cap(model@.config) || can_run(model@, prompt_ids@)),
{
    let c: &Config = &model.config;
    let cap: usize = if c.context_length < CONTEXT_CAP {
        c.context_length
    } else {
        CONTEXT_CAP
    };
    let fits: bool = match prompt_ids.len().checked_add(max_new) {
        Some(n) => n <= cap,
        None => false,
    };
    if !fits {
        return true;
    }
    if !model.check() || model.layers.len() != c.n_layers || !check_vocab(model) {
        return false;
    }
    if prompt_ids.len() == 0 || !model.check_tokens(prompt_ids) {
        return false;
    }
    let kv_dim: usize = match c.n_kv_heads.checked_mul(c.head_dim) {
        Some(n) => n,
        None => return false,
    };
    if cap.checked_mul(kv_dim).is_none() {
        return false;
    }
    let both: usize = match c.n_layers.checked_mul(2) {
        Some(n) => n,
        None => return false,
    };
    let rows: usize = match both.checked_mul(cap) {
        Some(n) => n,
        None => return false,
    };
    let numbers: usize = match rows.checked_mul(kv_dim) {
        Some(n) => n,
        None => return false,
    };
    if numbers.checked_mul(4).is_none() {
        return false;
    }
    model.check_sizes(prompt_ids.len(), cap)
}

/// Whether a run without a cache is defined, if only because no tokens are asked for.
pub fn check_run_uncached(model: &Model, prompt_ids: &[u32], max_new: usize) -> (r: bool)
    requires
        model.wf(),
    ensures
        r ==> max_new == 0 || can_run_uncached(model@, prompt_ids@, max_new as int),
        prompt_ids@.len() + max_new <= usize::MAX && (max_new == 0 || can_run_uncached(model@, prompt_ids@, max_new as int)) ==> r,
{
    if max_new == 0 {
        return true;
    }
    if !model.check() || !check_vocab(model) || prompt_ids.len() == 0 || !model.check_tokens(prompt_ids) {
        return false;
    }
    match prompt_ids.len().checked_add(max_new) {
        Some(n) => model.check_sizes(n, n),
        None => false,
    }
}

} // verus!
