//! What tokens a text is cut into, and what text tokens give back.

use vstd::prelude::*;
use vstd::utf8::*;

use crate::alphabet::{byte_code, lemma_unmapped_mapped, mapped, unprintable_below};
use crate::bpe::{best_pair, byte_symbols, lemma_best_pair, lemma_merge_shortens, lemma_numbering, merge_all, merged, numbering, pair_key};
use crate::error::ErrorView;
use crate::tokenizer::{chunk_ranges, end_before, regex_matches, spans_ordered, stands_at, tokenizer_of, with_gaps, SegmentView, TokenizerView, QWEN2_SPLIT_PATTERN};

verus! {

// ---------------------------------------------------------------------------
// Merging.
// ---------------------------------------------------------------------------

/// The rule for two symbols: the one, a space, the other.
pub open spec fn rule(a: Seq<char>, b: Seq<char>) -> Seq<char> {
    a + seq![' '] + b
}

/// A rule is the key that its pair is looked up with.
proof fn lemma_rule(a: Seq<char>, b: Seq<char>)
    ensures
        pair_key(a, b) == rule(a, b),
{
    reveal_strlit(" ");
    assert(" "@ =~= seq![' ']);
}

/// Whether the symbols at `i` and behind it have a rule.
pub open spec fn has_rule(ranks: Map<Seq<char>, u32>, word: Seq<Seq<char>>, i: int) -> bool {
    0 <= i < word.len() - 1 && ranks.contains_key(rule(word[i], word[i + 1]))
}

/// Each merging step joins the pair of lowest rank, the leftmost of several, wherever it stands.
pub proof fn lemma_lowest_rank_first(ranks: Map<Seq<char>, u32>, word: Seq<Seq<char>>, i: int)
    requires
        has_rule(ranks, word, i),
        forall|j: int|
            #[trigger] has_rule(ranks, word, j) ==> {
                let lowest = ranks[rule(word[i], word[i + 1])];
                let other = ranks[rule(word[j], word[j + 1])];
                lowest <= other && (j < i ==> lowest < other)
            },
    ensures
        merged(ranks, word) == merged(ranks, merge_all(word, word[i], word[i + 1])),
        merge_all(word, word[i], word[i + 1]).len() < word.len(),
{
    lemma_best_pair(ranks, word, word.len() - 1);
    lemma_merge_shortens(word, word[i], word[i + 1], i);
    lemma_rule(word[i], word[i + 1]);
    match best_pair(ranks, word, word.len() - 1) {
        Some(k) => {
            lemma_rule(word[k], word[k + 1]);
            assert(has_rule(ranks, word, k));
            assert(word[i] == word[i]);
            assert(k == i);
        },
        None => {
            assert(!ranks.contains_key(pair_key(word[i], word[i + 1])));
        },
    }
}

/// A word in which no pair has a rule stays as it is.
pub proof fn lemma_nothing_to_merge(ranks: Map<Seq<char>, u32>, word: Seq<Seq<char>>)
    requires
        forall|j: int| !(#[trigger] has_rule(ranks, word, j)),
    ensures
        merged(ranks, word) == word,
{
    if word.len() > 0 {
        lemma_best_pair(ranks, word, word.len() - 1);
        if let Some(k) = best_pair(ranks, word, word.len() - 1) {
            lemma_rule(word[k], word[k + 1]);
            assert(has_rule(ranks, word, k));
        }
    }
}

/// Whether `a` with `b` behind it stands at `i`.
pub open spec fn pair_at(word: Seq<Seq<char>>, a: Seq<char>, b: Seq<char>, i: int) -> bool {
    0 <= i < word.len() - 1 && word[i] == a && word[i + 1] == b
}

/// A word without the pair stays as it is.
pub proof fn lemma_no_pair(word: Seq<Seq<char>>, a: Seq<char>, b: Seq<char>)
    requires
        forall|i: int| !(#[trigger] pair_at(word, a, b, i)),
    ensures
        merge_all(word, a, b) == word,
    decreases word.len(),
{
    if word.len() > 0 {
        let rest = word.skip(1);
        assert forall|i: int| !(#[trigger] pair_at(rest, a, b, i)) by {
            assert(!pair_at(word, a, b, i + 1));
        }
        lemma_no_pair(rest, a, b);
        assert(!pair_at(word, a, b, 0));
        assert(seq![word[0]] + rest =~= word);
    }
}

/// The leftmost pair is joined into one symbol, what stands before it stays as it is, and what stands
/// behind it is merged in the same way.
pub proof fn lemma_leftmost_pair(word: Seq<Seq<char>>, a: Seq<char>, b: Seq<char>, i: int)
    requires
        pair_at(word, a, b, i),
        forall|j: int| j < i ==> !(#[trigger] pair_at(word, a, b, j)),
    ensures
        merge_all(word, a, b) == word.take(i) + seq![a + b] + merge_all(word.skip(i + 2), a, b),
    decreases word.len(),
{
    if i == 0 {
        assert(word.take(0) + seq![a + b] =~= seq![a + b]);
    } else {
        let rest = word.skip(1);
        assert(pair_at(rest, a, b, i - 1));
        assert forall|j: int| j < i - 1 implies !(#[trigger] pair_at(rest, a, b, j)) by {
            assert(!pair_at(word, a, b, j + 1));
        }
        lemma_leftmost_pair(rest, a, b, i - 1);
        assert(!pair_at(word, a, b, 0));
        assert(rest.skip(i + 1) =~= word.skip(i + 2));
        assert(seq![word[0]] + (rest.take(i - 1) + seq![a + b] + merge_all(word.skip(i + 2), a, b)) =~= word.take(i) + seq![a + b] + merge_all(
            word.skip(i + 2),
            a,
            b,
        ));
    }
}

/// A text has the number of the last place where it stands in the list.
pub proof fn lemma_last_place(list: Seq<Seq<char>>, i: int)
    requires
        list.len() <= 0x1_0000_0000,
        0 <= i < list.len(),
        forall|j: int| i < j < list.len() ==> #[trigger] list[j] != list[i],
    ensures
        numbering(list).contains_key(list[i]),
        numbering(list)[list[i]] == i,
    decreases list.len(),
{
    let shorter = list.drop_last();
    if i < list.len() - 1 {
        assert forall|j: int| i < j < shorter.len() implies #[trigger] shorter[j] != shorter[i] by {
            assert(list[j] != list[i]);
        }
        lemma_last_place(shorter, i);
        assert(list[list.len() - 1] != list[i]);
    }
}

// ---------------------------------------------------------------------------
// Chunks.
// ---------------------------------------------------------------------------

/// A chunk is encoded to the tokens whose texts are its symbols, if there are such tokens.
pub proof fn lemma_chunk_tokens(t: TokenizerView, chunk: Seq<u8>)
    requires
        t.vocab.len() <= 0x1_0000_0000,
    ensures
        ({
            let symbols = merged(t.ranks, byte_symbols(chunk));
            match t.chunk_ids(chunk) {
                Ok(ids) => {
                    &&& ids.len() == symbols.len()
                    &&& forall|k: int| 0 <= k < ids.len() ==> #[trigger] ids[k] < t.vocab.len() && t.vocab[ids[k] as int] == symbols[k]
                },
                Err(e) => exists|k: int|
                    {
                        &&& 0 <= k < symbols.len()
                        &&& !t.vocab.contains(#[trigger] symbols[k])
                        &&& e == (ErrorView::UnknownSymbol { symbol: symbols[k] })
                        &&& forall|j: int| 0 <= j < k ==> t.vocab.contains(#[trigger] symbols[j])
                    },
            }
        }),
{
    let symbols = merged(t.ranks, byte_symbols(chunk));
    lemma_symbol_tokens(t, symbols, symbols.len());
}

/// The first symbols are encoded to the tokens whose texts they are.
proof fn lemma_symbol_tokens(t: TokenizerView, symbols: Seq<Seq<char>>, n: nat)
    requires
        t.vocab.len() <= 0x1_0000_0000,
        n <= symbols.len(),
    ensures
        match t.symbol_ids(symbols, n) {
            Ok(ids) => {
                &&& ids.len() == n
                &&& forall|k: int| 0 <= k < n ==> #[trigger] ids[k] < t.vocab.len() && t.vocab[ids[k] as int] == symbols[k]
                &&& forall|k: int| 0 <= k < n ==> t.vocab.contains(#[trigger] symbols[k])
            },
            Err(e) => exists|k: int|
                {
                    &&& 0 <= k < n
                    &&& !t.vocab.contains(#[trigger] symbols[k])
                    &&& e == (ErrorView::UnknownSymbol { symbol: symbols[k] })
                    &&& forall|j: int| 0 <= j < k ==> t.vocab.contains(#[trigger] symbols[j])
                },
        },
    decreases n,
{
    if n > 0 {
        lemma_symbol_tokens(t, symbols, (n - 1) as nat);
        lemma_numbering(t.vocab, symbols[n - 1]);
    }
}

/// Each match of the pattern is a chunk of its own, and the other chunks are what lies between two
/// matches, before the first or behind the last, each as a whole.
pub proof fn lemma_chunks_are_matches(spans: Seq<(usize, usize)>, len: usize, k: int)
    requires
        spans_ordered(spans, len as nat),
    ensures
        0 <= k < spans.len() ==> chunk_ranges(spans, false, len).contains(spans[k]),
        0 <= k < chunk_ranges(spans, false, len).len() ==> {
            let chunk = chunk_ranges(spans, false, len)[k];
            ||| spans.contains(chunk)
            ||| {
                &&& chunk.0 < chunk.1
                &&& exists|j: int|
                    {
                        &&& 0 <= j <= spans.len()
                        &&& chunk.0 == #[trigger] end_before(spans, j)
                        &&& chunk.1 == if j < spans.len() {
                            spans[j].0
                        } else {
                            len
                        }
                    }
            }
        },
{
    let all = with_gaps(spans, spans.len());
    lemma_gaps_are_matches(spans, spans.len(), k, len);
    let chunks = chunk_ranges(spans, false, len);
    if 0 <= k < spans.len() {
        let at = choose|at: int| 0 <= at < all.len() && all[at] == spans[k];
        assert(chunks[at] == spans[k]);
    }
    if 0 <= k < chunks.len() && k >= all.len() {
        assert(chunks[k].0 == end_before(spans, spans.len() as int));
    }
}

/// What the first ranges are among the chunks.
proof fn lemma_gaps_are_matches(spans: Seq<(usize, usize)>, n: nat, k: int, len: usize)
    requires
        n <= spans.len(),
    ensures
        0 <= k < n ==> with_gaps(spans, n).contains(spans[k]),
        0 <= k < with_gaps(spans, n).len() ==> {
            let chunk = with_gaps(spans, n)[k];
            ||| spans.contains(chunk)
            ||| {
                &&& chunk.0 < chunk.1
                &&& exists|j: int| 0 <= j < spans.len() && chunk.0 == #[trigger] end_before(spans, j) && chunk.1 == spans[j].0
            }
        },
    decreases n,
{
    if n > 0 {
        lemma_gaps_are_matches(spans, (n - 1) as nat, k, len);
        let before = with_gaps(spans, (n - 1) as nat);
        let now = with_gaps(spans, n);
        if 0 <= k < n - 1 {
            let at = choose|at: int| 0 <= at < before.len() && before[at] == spans[k];
            assert(now[at] == spans[k]);
        }
        if k == n - 1 {
            assert(now[now.len() - 1] == spans[k]);
        }
        if before.len() <= k < now.len() {
            assert(spans.contains(spans[n - 1]));
            if k < now.len() - 1 {
                assert(now[k].0 == end_before(spans, n - 1));
            }
        }
    }
}

// ---------------------------------------------------------------------------
// Special tokens.
// ---------------------------------------------------------------------------

/// Whether special token `i` stands in the text at `p`.
pub open spec fn special_stands(t: TokenizerView, bytes: Seq<u8>, p: int, i: int) -> bool {
    &&& 0 <= i < t.vocab.len()
    &&& t.special[i]
    &&& 0 <= p
    &&& p + encode_utf8(t.vocab[i]).len() <= bytes.len()
    &&& bytes.subrange(p, p + encode_utf8(t.vocab[i]).len()) == encode_utf8(t.vocab[i])
}

/// A text in which no special token stands is one piece of ordinary text.
pub proof fn lemma_no_special(t: TokenizerView, bytes: Seq<u8>)
    requires
        t.special.len() == t.vocab.len(),
        bytes.len() > 0,
        forall|p: int, i: int| p < bytes.len() ==> !(#[trigger] special_stands(t, bytes, p, i)),
    ensures
        t.split(bytes) == Ok::<Seq<SegmentView>, ErrorView>(seq![SegmentView::Text(bytes)]),
{
    t.lemma_next_special(bytes, 0);
    if let Some((q, i)) = t.next_special(bytes, 0) {
        assert(special_stands(t, bytes, q, i));
    }
}

/// A text is cut at the leftmost place where a special token stands, and of several there the longest
/// is taken, of several with one text the first: what stands before is ordinary text, and what stands
/// behind is cut in the same way.
pub proof fn lemma_first_special(t: TokenizerView, bytes: Seq<u8>, p: int, i: int)
    requires
        t.special.len() == t.vocab.len(),
        p < bytes.len(),
        special_stands(t, bytes, p, i),
        encode_utf8(t.vocab[i]).len() > 0,
        forall|q: int, j: int| q < p ==> !(#[trigger] special_stands(t, bytes, q, j)),
        forall|j: int|
            #[trigger] special_stands(t, bytes, p, j) ==> {
                let (best, other) = (encode_utf8(t.vocab[i]).len(), encode_utf8(t.vocab[j]).len());
                other <= best && (other == best ==> i <= j)
            },
    ensures
        ({
            let before = if p > 0 {
                seq![SegmentView::Text(bytes.take(p))]
            } else {
                seq![]
            };
            match t.split(bytes.skip((p + encode_utf8(t.vocab[i]).len()) as int)) {
                Ok(behind) => t.split(bytes) == Ok::<Seq<SegmentView>, ErrorView>(before + seq![SegmentView::Special(i as u32)] + behind),
                Err(e) => t.split(bytes) == Err::<Seq<SegmentView>, ErrorView>(e),
            }
        }),
{
    t.lemma_next_special(bytes, 0);
    lemma_found(t, bytes, 0, p, i);
    let token = seq![SegmentView::Special(i as u32)];
    assert(t.literal(i) == encode_utf8(t.vocab[i]));
    assert(bytes.subrange(0, p) =~= bytes.take(p));
    let none: Seq<SegmentView> = seq![];
    assert(none + token =~= token);
}

/// The search finds the leftmost place and the longest token.
proof fn lemma_found(t: TokenizerView, bytes: Seq<u8>, from: int, p: int, i: int)
    requires
        t.special.len() == t.vocab.len(),
        0 <= from <= p < bytes.len(),
        special_stands(t, bytes, p, i),
        forall|q: int, j: int| q < p ==> !(#[trigger] special_stands(t, bytes, q, j)),
        forall|j: int|
            #[trigger] special_stands(t, bytes, p, j) ==> {
                let (best, other) = (encode_utf8(t.vocab[i]).len(), encode_utf8(t.vocab[j]).len());
                other <= best && (other == best ==> i <= j)
            },
    ensures
        t.next_special(bytes, from) == Some((p, i)),
    decreases p - from,
{
    if from < p {
        lemma_none_at(t, bytes, from, t.vocab.len() as int);
        assert(t.next_special(bytes, from) == t.next_special(bytes, from + 1));
        lemma_found(t, bytes, from + 1, p, i);
    } else {
        lemma_longest_at(t, bytes, p, i, t.vocab.len() as int);
    }
}

/// Where no special token stands, none is found.
proof fn lemma_none_at(t: TokenizerView, bytes: Seq<u8>, p: int, n: int)
    requires
        0 <= p,
        n <= t.vocab.len(),
        forall|j: int| !(#[trigger] special_stands(t, bytes, p, j)),
    ensures
        t.special_at(bytes, p, n) is None,
    decreases n,
{
    if n > 0 {
        lemma_none_at(t, bytes, p, n - 1);
        assert(!special_stands(t, bytes, p, n - 1));
    }
}

/// Of the special tokens that stand at one place the longest is found, of several the first.
proof fn lemma_longest_at(t: TokenizerView, bytes: Seq<u8>, p: int, i: int, n: int)
    requires
        0 <= p,
        i < n <= t.vocab.len(),
        special_stands(t, bytes, p, i),
        forall|j: int|
            #[trigger] special_stands(t, bytes, p, j) ==> {
                let (best, other) = (encode_utf8(t.vocab[i]).len(), encode_utf8(t.vocab[j]).len());
                other <= best && (other == best ==> i <= j)
            },
    ensures
        t.special_at(bytes, p, n) == Some(i),
    decreases n,
{
    assert(t.literal(n - 1) == encode_utf8(t.vocab[n - 1]));
    if i == n - 1 {
        t.lemma_special_at(bytes, p, n - 1);
        if let Some(k) = t.special_at(bytes, p, n - 1) {
            assert(special_stands(t, bytes, p, k));
        }
    } else {
        lemma_longest_at(t, bytes, p, i, n - 1);
        if t.special[n - 1] && stands_at(bytes, p, t.literal(n - 1)) {
            assert(special_stands(t, bytes, p, n - 1));
        }
    }
}

/// What a tokenizer is made of: its tokens, of which those of type 3 and 4 are special, and its rules,
/// each with its last place in the list as its rank.
pub proof fn lemma_parts(tokens: Seq<Seq<char>>, types: Seq<i64>, merges: Seq<Seq<char>>)
    requires
        tokenizer_of(tokens, types, merges) is Ok,
        merges.len() <= 0x1_0000_0000,
    ensures
        ({
            let t = tokenizer_of(tokens, types, merges)->Ok_0;
            &&& tokens.len() == types.len()
            &&& t.vocab == tokens
            &&& t.special.len() == tokens.len()
            &&& forall|i: int| 0 <= i < tokens.len() ==> #[trigger] t.special[i] == (types[i] == 3 || types[i] == 4)
            &&& forall|s: Seq<char>| #[trigger] t.ranks.contains_key(s) <==> merges.contains(s)
            &&& forall|i: int|
                #![trigger merges[i]]
                0 <= i < merges.len() && (forall|j: int| i < j < merges.len() ==> #[trigger] merges[j] != merges[i]) ==> t.ranks[merges[i]] == i
        }),
{
    let t = tokenizer_of(tokens, types, merges)->Ok_0;
    assert forall|s: Seq<char>| #[trigger] t.ranks.contains_key(s) <==> merges.contains(s) by {
        lemma_numbering(merges, s);
    }
    assert forall|i: int|
        #![trigger merges[i]]
        0 <= i < merges.len() && (forall|j: int| i < j < merges.len() ==> #[trigger] merges[j] != merges[i]) implies t.ranks[merges[i]] == i by {
        lemma_last_place(merges, i);
    }
}

// ---------------------------------------------------------------------------
// The alphabet of bytes.
// ---------------------------------------------------------------------------

/// The character for a byte, in figures: printable bytes stand for themselves, and the 33 bytes up to
/// the space, the 34 from 127 on and the byte 173 follow each other from 256 on.
pub proof fn lemma_alphabet(b: u8)
    ensures
        byte_code(b) == if b <= 32 {
            256 + b
        } else if b <= 126 {
            b as int
        } else if b <= 160 {
            289 + (b - 127)
        } else if b == 173 {
            323
        } else {
            b as int
        },
{
    lemma_unprintable_count(b as int);
}

/// How many bytes below one are not printable, in figures.
proof fn lemma_unprintable_count(b: int)
    requires
        0 <= b <= 256,
    ensures
        unprintable_below(b) == if b <= 33 {
            b
        } else if b <= 127 {
            33
        } else if b <= 161 {
            33 + (b - 127)
        } else if b <= 173 {
            67
        } else {
            68
        },
    decreases b,
{
    if b > 0 {
        lemma_unprintable_count(b - 1);
    }
}

/// A token whose text stands for bytes gives these bytes, and a special token the encoding of its text.
pub proof fn lemma_token_gives_bytes(t: TokenizerView, id: u32, bytes: Seq<u8>)
    requires
        id < t.vocab.len(),
    ensures
        t.special[id as int] ==> t.token_bytes(id) == Ok::<Seq<u8>, ErrorView>(encode_utf8(t.vocab[id as int])),
        !t.special[id as int] && t.vocab[id as int] == mapped(bytes) ==> t.token_bytes(id) == Ok::<Seq<u8>, ErrorView>(bytes),
{
    lemma_unmapped_mapped(bytes);
}

/// A text of valid bytes is decoded from tokens as the text of their bytes.
pub proof fn lemma_valid_text(t: TokenizerView, ids: Seq<u32>, text: Seq<char>)
    requires
        t.ids_bytes(ids, ids.len()) == Ok::<Seq<u8>, ErrorView>(encode_utf8(text)),
    ensures
        t.decoded(ids) == Ok::<Seq<char>, ErrorView>(text),
{
    encode_utf8_valid_utf8(text);
    encode_utf8_decode_utf8(text);
}

/// A text is encoded piece by piece, from left to right: a special token to its number, ordinary text
/// chunk by chunk. What comes first stands first.
pub proof fn lemma_in_order(t: TokenizerView, segments: Seq<SegmentView>, bytes: Seq<u8>, ranges: Seq<(usize, usize)>, id: u32, n: nat)
    requires
        n < segments.len(),
        n < ranges.len(),
    ensures
        t.segments_ids(segments, 0) == Ok::<Seq<u32>, ErrorView>(seq![]),
        t.segments_ids(segments, n) is Ok && t.segment_ids(segments[n as int]) is Ok ==> t.segments_ids(segments, n + 1) == Ok::<Seq<u32>, ErrorView>(
            t.segments_ids(segments, n)->Ok_0 + t.segment_ids(segments[n as int])->Ok_0,
        ),
        t.segment_ids(SegmentView::Special(id)) == Ok::<Seq<u32>, ErrorView>(seq![id]),
        t.segment_ids(SegmentView::Text(bytes)) == t.ordinary_ids(bytes),
        t.ranges_ids(bytes, ranges, 0) == Ok::<Seq<u32>, ErrorView>(seq![]),
        ({
            let chunk = t.chunk_ids(bytes.subrange(ranges[n as int].0 as int, ranges[n as int].1 as int));
            t.ranges_ids(bytes, ranges, n) is Ok && chunk is Ok ==> t.ranges_ids(bytes, ranges, n + 1) == Ok::<Seq<u32>, ErrorView>(
                t.ranges_ids(bytes, ranges, n)->Ok_0 + chunk->Ok_0,
            )
        }),
{
}

/// A text is encoded as its pieces are. Ordinary text is cut by the pattern over its characters, and
/// gives no tokens if the pattern fails on it.
pub proof fn lemma_encoded(t: TokenizerView, text: Seq<char>)
    ensures
        t.split(encode_utf8(text)) matches Ok(segments) ==> t.encoded(text) == t.segments_ids(segments, segments.len()),
        t.split(encode_utf8(text)) matches Err(e) ==> t.encoded(text) == Err::<Seq<u32>, ErrorView>(e),
        ({
            let bytes = encode_utf8(text);
            let (spans, failed) = regex_matches(QWEN2_SPLIT_PATTERN@, text);
            let ranges = chunk_ranges(spans, failed, bytes.len() as usize);
            &&& !failed ==> t.ordinary_ids(bytes) == t.ranges_ids(bytes, ranges, ranges.len())
            &&& failed ==> t.ordinary_ids(bytes) is Err
        }),
{
    encode_utf8_decode_utf8(text);
}

/// What lies behind the last match is the last chunk, unless the pattern failed there: then the chunks
/// end with the last match. A text without a match is one chunk.
pub proof fn lemma_last_chunk(spans: Seq<(usize, usize)>, failed: bool, len: usize)
    ensures
        ({
            let ranges = chunk_ranges(spans, failed, len);
            let end = if spans.len() == 0 {
                0usize
            } else {
                spans[spans.len() - 1].1
            };
            &&& !failed && end < len ==> ranges.len() > 0 && ranges[ranges.len() - 1] == (end, len)
            &&& (failed || end >= len) && spans.len() > 0 ==> ranges.len() > 0 && ranges[ranges.len() - 1] == spans[spans.len() - 1]
            &&& spans.len() == 0 && !failed && len > 0 ==> ranges == seq![(0usize, len)]
            &&& spans.len() == 0 && (failed || len == 0) ==> ranges.len() == 0
        }),
{
    if spans.len() == 0 && !failed && len > 0 {
        assert(chunk_ranges(spans, failed, len) =~= seq![(0usize, len)]);
    }
}

} // verus!
