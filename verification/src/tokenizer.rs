//! Byte-level BPE tokenizer, read from the metadata of a model file.
//!
//! Encoding:
//!   1. special tokens are split out where their text stands,
//!   2. the text between them is cut into chunks with the qwen2 pattern,
//!   3. per chunk: bytes, one symbol for each, merged by rank, token numbers.
//! Decoding: token numbers, token texts, their bytes, UTF-8.

use fancy_regex::Regex;
use std::collections::HashMap;
use vstd::hash_map::StringHashMap;
use vstd::prelude::*;
use vstd::std_specs::hash::*;
use vstd::string::*;
use vstd::utf8::*;

use crate::alphabet::{byte_char, byte_code, byte_unicode_map, lemma_byte_code, lemma_char_byte, lemma_unmapped_concat, lemma_unmapped_mapped, unmapped, unmapped_char};
use crate::bpe::{byte_symbols, joined, lemma_byte_symbols, lemma_merged_keeps_text, lemma_numbering, merge_word, merged, number_texts, numbering, texts};
use crate::error::{ErrorView, FurnaceError};
use crate::gguf::{value_views, GgufFile, GgufValue, ValueView};
use crate::text::{same_text, split_text};

verus! {

/// How text is cut into chunks before merging. A look-ahead keeps the last of several spaces with
/// the word behind it.
pub const QWEN2_SPLIT_PATTERN: &'static str = r"(?i:'s|'t|'re|'ve|'m|'ll|'d)|[^\r\n\p{L}\p{N}]?\p{L}+|\p{N}| ?[^\s\p{L}\p{N}]+[\r\n]*|\s*[\r\n]+|\s+(?!\S)|\s+";

/// The token type of control tokens.
pub const TOKEN_TYPE_CONTROL: i64 = 3;

/// The token type of user-defined tokens.
pub const TOKEN_TYPE_USER_DEFINED: i64 = 4;

// ---------------------------------------------------------------------------
// The regular expression.
// ---------------------------------------------------------------------------

/// A compiled pattern of `fancy_regex`.
#[verifier::external_type_specification]
#[verifier::external_body]
pub struct ExRegex(fancy_regex::Regex);

/// Why `fancy_regex` failed.
#[verifier::external_type_specification]
#[verifier::external_body]
pub struct ExRegexError(fancy_regex::Error);

/// The pattern that a compiled regular expression was made from.
pub uninterp spec fn regex_source(re: Regex) -> Seq<char>;

/// Whether `fancy_regex` compiles the pattern.
pub uninterp spec fn regex_compiles(pattern: Seq<char>) -> bool;

/// The matches of a pattern in a text, from left to right, as ranges of bytes, up to the end or to
/// the first search that failed; and whether one failed.
pub uninterp spec fn regex_matches(pattern: Seq<char>, text: Seq<char>) -> (Seq<(usize, usize)>, bool);

/// Compiles the pattern that cuts text into chunks, through `fancy_regex::Regex::new`, which
/// overflows on patterns with very large repetition counts. Whether it compiles depends on the
/// pattern alone. The result was made from it.
#[verifier::external_body]
fn compile_pattern(pattern: &str) -> (r: Result<Regex, fancy_regex::Error>)
    requires
        pattern@ == QWEN2_SPLIT_PATTERN@,
    ensures
        r is Ok <==> regex_compiles(pattern@),
        r matches Ok(re) ==> regex_source(re) == pattern@,
{
    Regex::new(pattern)
}

/// Searches a text, through `fancy_regex::Regex::find_iter`, and stops at the first failed search.
/// What comes back depends on the pattern and the text alone. For the pattern that it is used with,
/// which has neither look-behind nor a way to move a match's start, a match starts where the one
/// before it has ended or further right, and ends in the text, not before its start.
#[verifier::external_body]
fn find_matches(re: &Regex, text: &str) -> (r: (Vec<(usize, usize)>, Option<fancy_regex::Error>))
    requires
        regex_source(*re) == QWEN2_SPLIT_PATTERN@,
    ensures
        (r.0@, r.1 is Some) == regex_matches(regex_source(*re), text@),
        spans_ordered(r.0@, encode_utf8(text@).len()),
{
    let mut found: Vec<(usize, usize)> = Vec::new();
    for item in re.find_iter(text) {
        match item {
            Ok(m) => found.push((m.start(), m.end())),
            Err(e) => return (found, Some(e)),
        }
    }
    (found, None)
}

/// The text that `String::from_utf8_lossy` makes of a byte string.
pub uninterp spec fn lossy(bytes: Seq<u8>) -> Seq<char>;

/// Makes a text of a byte string, through `String::from_utf8_lossy`: of valid UTF-8 the text that it
/// encodes, else a text that depends on the bytes alone, with replacement characters.
#[verifier::external_body]
pub(crate) fn lossy_text(bytes: &[u8]) -> (r: String)
    ensures
        r@ == lossy(bytes@),
        valid_utf8(bytes@) ==> r@ == decode_utf8(bytes@),
{
    std::string::String::from_utf8_lossy(bytes).into_owned()
}

/// The text of a byte string: that which valid UTF-8 encodes, else one with replacement characters.
pub open spec fn text_of(bytes: Seq<u8>) -> Seq<char> {
    if valid_utf8(bytes) {
        decode_utf8(bytes)
    } else {
        lossy(bytes)
    }
}

// ---------------------------------------------------------------------------
// Cutting text into chunks.
// ---------------------------------------------------------------------------

/// Where the first `n` ranges end.
pub open spec fn end_before(spans: Seq<(usize, usize)>, n: int) -> usize {
    if n <= 0 {
        0
    } else {
        spans[n - 1].1
    }
}

/// Whether the ranges follow each other from left to right within `len` bytes.
pub open spec fn spans_ordered(spans: Seq<(usize, usize)>, len: nat) -> bool {
    forall|k: int|
        0 <= k < spans.len() ==> end_before(spans, k) <= (#[trigger] spans[k]).0 && spans[k].0 <= spans[k].1 && spans[k].1 <= len
}

/// The first `n` ranges, and before each of them what it leaves out behind the one before.
pub open spec fn with_gaps(spans: Seq<(usize, usize)>, n: nat) -> Seq<(usize, usize)>
    decreases n,
{
    if n == 0 {
        seq![]
    } else {
        let before = with_gaps(spans, (n - 1) as nat);
        let last = end_before(spans, n - 1);
        let span = spans[n - 1];
        if span.0 > last {
            before.push((last, span.0)).push(span)
        } else {
            before.push(span)
        }
    }
}

/// The chunks of a text of `len` bytes: the matches, and what no match covers. If the search failed,
/// what is behind the last match is left out.
pub open spec fn chunk_ranges(spans: Seq<(usize, usize)>, failed: bool, len: usize) -> Seq<(usize, usize)> {
    let all = with_gaps(spans, spans.len());
    let last = end_before(spans, spans.len() as int);
    if !failed && last < len {
        all.push((last, len))
    } else {
        all
    }
}

/// Finds the chunks of a text of `len` bytes.
pub fn find_chunks(spans: &[(usize, usize)], failed: bool, len: usize) -> (r: Vec<(usize, usize)>)
    requires
        spans_ordered(spans@, len as nat),
    ensures
        r@ == chunk_ranges(spans@, failed, len),
{
    let mut out: Vec<(usize, usize)> = Vec::new();
    let mut last: usize = 0;
    let mut k: usize = 0;
    while k < spans.len()
        invariant
            k <= spans@.len(),
            last == end_before(spans@, k as int),
            out@ == with_gaps(spans@, k as nat),
        decreases spans@.len() - k,
    {
        let span: (usize, usize) = spans[k];
        if span.0 > last {
            out.push((last, span.0));
        }
        out.push(span);
        last = span.1;
        k = k + 1;
    }
    if !failed && last < len {
        out.push((last, len));
    }
    out
}

/// Whether the ranges lie one directly behind the other, from 0 to `end`.
pub open spec fn tiles(ranges: Seq<(usize, usize)>, end: int) -> bool
    decreases ranges.len(),
{
    if ranges.len() == 0 {
        end == 0
    } else {
        &&& ranges.last().1 == end
        &&& ranges.last().0 <= end
        &&& tiles(ranges.drop_last(), ranges.last().0 as int)
    }
}

/// Ranges with what they leave out lie one directly behind the other.
proof fn lemma_with_gaps(spans: Seq<(usize, usize)>, n: nat, len: nat)
    requires
        spans_ordered(spans, len),
        n <= spans.len(),
    ensures
        tiles(with_gaps(spans, n), end_before(spans, n as int) as int),
        end_before(spans, n as int) <= len,
    decreases n,
{
    if n > 0 {
        lemma_with_gaps(spans, (n - 1) as nat, len);
        let before = with_gaps(spans, (n - 1) as nat);
        let last = end_before(spans, n - 1);
        let span = spans[n - 1];
        if span.0 > last {
            let mid = before.push((last, span.0));
            assert(mid.drop_last() =~= before);
            assert(tiles(mid, span.0 as int));
            assert(mid.push(span).drop_last() =~= mid);
        } else {
            assert(before.push(span).drop_last() =~= before);
        }
    }
}

/// The chunks of a text cover it, one directly behind the other, unless the search failed.
pub proof fn lemma_chunks_tile(spans: Seq<(usize, usize)>, len: usize)
    requires
        spans_ordered(spans, len as nat),
    ensures
        tiles(chunk_ranges(spans, false, len), len as int),
{
    lemma_with_gaps(spans, spans.len(), len as nat);
    let all = with_gaps(spans, spans.len());
    let last = end_before(spans, spans.len() as int);
    if last < len {
        assert(all.push((last, len)).drop_last() =~= all);
    }
}

/// Ranges one directly behind the other end where each of them ends, or behind it.
proof fn lemma_tiles_bound(ranges: Seq<(usize, usize)>, end: int, k: int)
    requires
        tiles(ranges, end),
        0 <= k < ranges.len(),
    ensures
        ranges[k].0 <= ranges[k].1 <= end,
    decreases ranges.len(),
{
    if k < ranges.len() - 1 {
        lemma_tiles_bound(ranges.drop_last(), ranges.last().0 as int, k);
    }
}

// ---------------------------------------------------------------------------
// The tokenizer.
// ---------------------------------------------------------------------------

/// What a tokenizer is made of.
pub struct TokenizerView {
    /// The text of each token.
    pub vocab: Seq<Seq<char>>,
    /// Which tokens are special: matched where their text stands, and never merged.
    pub special: Seq<bool>,
    /// The rank of each merge rule. The lower ranks merge first.
    pub ranks: Map<Seq<char>, u32>,
}

/// A piece of a text that is to be encoded.
pub enum SegmentView {
    /// Ordinary text, as bytes.
    Text(Seq<u8>),
    /// The number of a special token.
    Special(u32),
}

/// Whether the literal stands in the text at `p`.
pub open spec fn stands_at(bytes: Seq<u8>, p: int, literal: Seq<u8>) -> bool {
    0 <= p && p + literal.len() <= bytes.len() && bytes.subrange(p, p + literal.len()) == literal
}

/// The segments, put behind others.
pub open spec fn behind(before: Seq<SegmentView>, rest: Result<Seq<SegmentView>, ErrorView>) -> Result<Seq<SegmentView>, ErrorView> {
    match rest {
        Ok(segments) => Ok(before + segments),
        Err(e) => Err(e),
    }
}

impl TokenizerView {
    /// The bytes of a token's text.
    pub open spec fn literal(self, i: int) -> Seq<u8> {
        encode_utf8(self.vocab[i])
    }

    /// Among the first `n` tokens, the longest special one that stands in the text at `p`; the first
    /// of several with one text.
    pub open spec fn special_at(self, bytes: Seq<u8>, p: int, n: int) -> Option<int>
        decreases n,
    {
        if n <= 0 {
            None
        } else {
            let before = self.special_at(bytes, p, n - 1);
            if self.special[n - 1] && stands_at(bytes, p, self.literal(n - 1)) && (before matches Some(i) ==> self.literal(n - 1).len()
                > self.literal(i).len()) {
                Some(n - 1)
            } else {
                before
            }
        }
    }

    /// The leftmost place from `p` on where a special token stands, and the longest one there.
    pub open spec fn next_special(self, bytes: Seq<u8>, p: int) -> Option<(int, int)>
        decreases bytes.len() - p,
    {
        if p < 0 || p >= bytes.len() {
            None
        } else {
            match self.special_at(bytes, p, self.vocab.len() as int) {
                Some(i) => Some((p, i)),
                None => self.next_special(bytes, p + 1),
            }
        }
    }

    /// The text split at its special tokens. It cannot be split at an empty one.
    pub open spec fn split(self, bytes: Seq<u8>) -> Result<Seq<SegmentView>, ErrorView>
        decreases bytes.len(),
    {
        if bytes.len() == 0 {
            Ok(seq![])
        } else {
            match self.next_special(bytes, 0) {
                None => Ok(seq![SegmentView::Text(bytes)]),
                Some((p, i)) => if self.literal(i).len() == 0 {
                    Err(ErrorView::EmptySpecial)
                } else {
                    proof {
                        self.lemma_next_special(bytes, 0);
                    }
                    let token = seq![SegmentView::Special(i as u32)];
                    behind(
                        if p > 0 {
                            seq![SegmentView::Text(bytes.subrange(0, p))] + token
                        } else {
                            token
                        },
                        self.split(bytes.skip((p + self.literal(i).len()) as int)),
                    )
                },
            }
        }
    }

    /// The symbols that one chunk is merged to.
    pub open spec fn chunk_symbols(self, chunk: Seq<u8>) -> Seq<Seq<char>> {
        merged(self.ranks, byte_symbols(chunk))
    }

    /// The numbers of the first `n` symbols. Each has to be a token.
    pub open spec fn symbol_ids(self, symbols: Seq<Seq<char>>, n: nat) -> Result<Seq<u32>, ErrorView>
        decreases n,
    {
        if n == 0 {
            Ok(seq![])
        } else {
            match self.symbol_ids(symbols, (n - 1) as nat) {
                Ok(ids) => if numbering(self.vocab).contains_key(symbols[n - 1]) {
                    Ok(ids.push(numbering(self.vocab)[symbols[n - 1]]))
                } else {
                    Err(ErrorView::UnknownSymbol { symbol: symbols[n - 1] })
                },
                Err(e) => Err(e),
            }
        }
    }

    /// The numbers that one chunk is encoded to.
    pub open spec fn chunk_ids(self, chunk: Seq<u8>) -> Result<Seq<u32>, ErrorView> {
        self.symbol_ids(self.chunk_symbols(chunk), self.chunk_symbols(chunk).len())
    }

    /// The numbers that the first `n` chunks are encoded to.
    pub open spec fn ranges_ids(self, bytes: Seq<u8>, ranges: Seq<(usize, usize)>, n: nat) -> Result<Seq<u32>, ErrorView>
        decreases n,
    {
        if n == 0 {
            Ok(seq![])
        } else {
            match self.ranges_ids(bytes, ranges, (n - 1) as nat) {
                Ok(ids) => match self.chunk_ids(bytes.subrange(ranges[n - 1].0 as int, ranges[n - 1].1 as int)) {
                    Ok(more) => Ok(ids + more),
                    Err(e) => Err(e),
                },
                Err(e) => Err(e),
            }
        }
    }

    /// The numbers that ordinary text is encoded to, where the pattern has these matches in it.
    pub open spec fn spans_ids(self, bytes: Seq<u8>, spans: Seq<(usize, usize)>, failed: bool) -> Result<Seq<u32>, ErrorView> {
        let ranges = chunk_ranges(spans, failed, bytes.len() as usize);
        match self.ranges_ids(bytes, ranges, ranges.len()) {
            Ok(ids) => if failed {
                Err(ErrorView::SplitFailed)
            } else {
                Ok(ids)
            },
            Err(e) => Err(e),
        }
    }

    /// The numbers that ordinary text is encoded to.
    pub open spec fn ordinary_ids(self, bytes: Seq<u8>) -> Result<Seq<u32>, ErrorView> {
        let (spans, failed) = regex_matches(QWEN2_SPLIT_PATTERN@, decode_utf8(bytes));
        self.spans_ids(bytes, spans, failed)
    }

    /// The numbers that one segment is encoded to.
    pub open spec fn segment_ids(self, segment: SegmentView) -> Result<Seq<u32>, ErrorView> {
        match segment {
            SegmentView::Special(id) => Ok(seq![id]),
            SegmentView::Text(bytes) => self.ordinary_ids(bytes),
        }
    }

    /// The numbers that the first `n` segments are encoded to.
    pub open spec fn segments_ids(self, segments: Seq<SegmentView>, n: nat) -> Result<Seq<u32>, ErrorView>
        decreases n,
    {
        if n == 0 {
            Ok(seq![])
        } else {
            match self.segments_ids(segments, (n - 1) as nat) {
                Ok(ids) => match self.segment_ids(segments[n - 1]) {
                    Ok(more) => Ok(ids + more),
                    Err(e) => Err(e),
                },
                Err(e) => Err(e),
            }
        }
    }

    /// The numbers that a text is encoded to.
    pub open spec fn encoded(self, text: Seq<char>) -> Result<Seq<u32>, ErrorView> {
        match self.split(encode_utf8(text)) {
            Ok(segments) => self.segments_ids(segments, segments.len()),
            Err(e) => Err(e),
        }
    }

    /// The bytes of one token: the encoding of a special token's text, and what another token's text
    /// stands for.
    pub open spec fn token_bytes(self, id: u32) -> Result<Seq<u8>, ErrorView> {
        if id >= self.vocab.len() {
            Err(ErrorView::NoSuchToken(id))
        } else if self.special[id as int] {
            Ok(self.literal(id as int))
        } else {
            Ok(unmapped(self.vocab[id as int]))
        }
    }

    /// The bytes of the first `n` tokens.
    pub open spec fn ids_bytes(self, ids: Seq<u32>, n: nat) -> Result<Seq<u8>, ErrorView>
        decreases n,
    {
        if n == 0 {
            Ok(seq![])
        } else {
            match self.ids_bytes(ids, (n - 1) as nat) {
                Ok(bytes) => match self.token_bytes(ids[n - 1]) {
                    Ok(more) => Ok(bytes + more),
                    Err(e) => Err(e),
                },
                Err(e) => Err(e),
            }
        }
    }

    /// The text that tokens are decoded to.
    pub open spec fn decoded(self, ids: Seq<u32>) -> Result<Seq<char>, ErrorView> {
        match self.ids_bytes(ids, ids.len()) {
            Ok(bytes) => Ok(text_of(bytes)),
            Err(e) => Err(e),
        }
    }
}

/// A piece of a text that is to be encoded.
pub enum Segment<'a> {
    Text(&'a str),
    Special(u32),
}

impl<'a> View for Segment<'a> {
    type V = SegmentView;

    open spec fn view(&self) -> SegmentView {
        match self {
            Segment::Text(s) => SegmentView::Text(encode_utf8(s@)),
            Segment::Special(id) => SegmentView::Special(*id),
        }
    }
}

/// The segments' views.
pub open spec fn segment_views(segments: Seq<Segment>) -> Seq<SegmentView> {
    Seq::new(segments.len(), |i: int| segments[i]@)
}

/// Turns text into token numbers and back.
pub struct Tokenizer {
    /// The text of each token, in the alphabet of bytes.
    pub vocab: Vec<String>,
    pub token_to_id: StringHashMap<u32>,
    /// The two symbols with a space between, and their rank.
    pub merge_ranks: StringHashMap<u32>,
    pub is_special: Vec<bool>,
    /// The numbers of the special tokens.
    pub specials: Vec<usize>,
    pub splitter: Regex,
    pub byte_to_char: [char; 256],
    pub char_to_byte: HashMap<u32, u8>,
}

impl View for Tokenizer {
    type V = TokenizerView;

    open spec fn view(&self) -> TokenizerView {
        TokenizerView { vocab: texts(self.vocab@), special: self.is_special@, ranks: self.merge_ranks@ }
    }
}

/// Whether the list holds, in order, the places of the special tokens among the first `n`.
pub open spec fn lists_specials(list: Seq<usize>, special: Seq<bool>, n: int) -> bool {
    &&& forall|k: int| 0 <= k < list.len() ==> #[trigger] list[k] < n && special[list[k] as int]
    &&& forall|j: int, k: int| 0 <= j < k < list.len() ==> list[j] < list[k]
    &&& forall|i: int| 0 <= i < n && #[trigger] special[i] ==> exists|k: int| 0 <= k < list.len() && #[trigger] list[k] == i
}

/// Whether the type is that of a special token.
pub open spec fn is_special_type(t: i64) -> bool {
    t == TOKEN_TYPE_CONTROL || t == TOKEN_TYPE_USER_DEFINED
}

/// What a tokenizer with these tokens, token types and merge rules is made of.
pub open spec fn tokenizer_of(tokens: Seq<Seq<char>>, types: Seq<i64>, merges: Seq<Seq<char>>) -> Result<TokenizerView, ErrorView> {
    if types.len() != tokens.len() {
        Err(ErrorView::TokenTypeCount { tokens: tokens.len() as usize, types: types.len() as usize })
    } else if !regex_compiles(QWEN2_SPLIT_PATTERN@) {
        Err(ErrorView::BadPattern)
    } else {
        Ok(
            TokenizerView {
                vocab: tokens,
                special: Seq::new(types.len(), |i: int| is_special_type(types[i])),
                ranks: numbering(merges),
            },
        )
    }
}

impl Tokenizer {
    /// Whether the parts fit together.
    pub open spec fn wf(self) -> bool {
        &&& self.token_to_id@ == numbering(texts(self.vocab@))
        &&& self.is_special@.len() == self.vocab@.len()
        &&& lists_specials(self.specials@, self.is_special@, self.is_special@.len() as int)
        &&& regex_source(self.splitter) == QWEN2_SPLIT_PATTERN@
        &&& forall|b: u8| #[trigger] self.byte_to_char@[b as int] == byte_char(b)
        &&& forall|b: u8| self.char_to_byte@.contains_key(#[trigger] byte_code(b)) && self.char_to_byte@[byte_code(b)] == b
        &&& forall|k: u32| #[trigger] self.char_to_byte@.contains_key(k) ==> exists|b: u8| #[trigger] byte_code(b) == k
    }

    /// A tokenizer with these tokens, token types and merge rules.
    pub fn new(tokens: Vec<String>, token_types: &[i64], merges: &[String]) -> (r: Result<Tokenizer, FurnaceError>)
        ensures
            match r {
                Ok(t) => t.wf() && tokenizer_of(texts(tokens@), token_types@, texts(merges@)) == Ok::<_, ErrorView>(t@),
                Err(e) => tokenizer_of(texts(tokens@), token_types@, texts(merges@)) == Err::<TokenizerView, _>(e@),
            },
    {
        if token_types.len() != tokens.len() {
            return Err(FurnaceError::TokenTypeCount { tokens: tokens.len(), types: token_types.len() });
        }
        let token_to_id: StringHashMap<u32> = number_texts(tokens.as_slice());
        let merge_ranks: StringHashMap<u32> = number_texts(merges);
        let mut is_special: Vec<bool> = Vec::new();
        let mut specials: Vec<usize> = Vec::new();
        let mut i: usize = 0;
        while i < token_types.len()
            invariant
                i <= token_types@.len(),
                is_special@.len() == i,
                lists_specials(specials@, is_special@, i as int),
                forall|k: int| 0 <= k < i ==> #[trigger] is_special@[k] == is_special_type(token_types@[k]),
            decreases token_types@.len() - i,
        {
            let t: i64 = token_types[i];
            let is: bool = t == TOKEN_TYPE_CONTROL || t == TOKEN_TYPE_USER_DEFINED;
            let ghost before = is_special@;
            let ghost list = specials@;
            is_special.push(is);
            if is {
                specials.push(i);
            }
            proof {
                assert forall|x: int| 0 <= x < i + 1 && #[trigger] is_special@[x] implies exists|k: int| 0 <= k < specials@.len() && #[trigger] specials@[k] == x by {
                    if x < i {
                        assert(before[x]);
                        let k = choose|k: int| 0 <= k < list.len() && #[trigger] list[k] == x;
                        assert(specials@[k] == x);
                    } else {
                        assert(specials@[specials@.len() - 1] == x);
                    }
                }
            }
            i = i + 1;
        }
        assert(is_special@ =~= Seq::new(token_types@.len(), |k: int| is_special_type(token_types@[k])));
        let splitter: Regex = match compile_pattern(QWEN2_SPLIT_PATTERN) {
            Ok(re) => re,
            Err(_) => return Err(FurnaceError::BadPattern),
        };
        let (byte_to_char, char_to_byte): ([char; 256], HashMap<u32, u8>) = byte_unicode_map();
        Ok(Tokenizer { vocab: tokens, token_to_id, merge_ranks, is_special, specials, splitter, byte_to_char, char_to_byte })
    }

    /// The longest special token that stands in the text at `p`.
    fn find_special_at(&self, bytes: &[u8], p: usize) -> (r: Option<usize>)
        requires
            self.wf(),
            p <= bytes@.len(),
        ensures
            match r {
                Some(i) => i < self.vocab@.len() && self@.special_at(bytes@, p as int, self.vocab@.len() as int) == Some(i as int),
                None => self@.special_at(bytes@, p as int, self.vocab@.len() as int) is None,
            },
    {
        let mut best: Option<usize> = None;
        let ghost mut seen: int = 0;
        let mut k: usize = 0;
        while k < self.specials.len()
            invariant
                k <= self.specials@.len(),
                self.wf(),
                p <= bytes@.len(),
                seen == if k == 0 {
                    0
                } else {
                    self.specials@[k - 1] + 1
                },
                match best {
                    Some(i) => i < seen && i < self.vocab@.len() && self@.special_at(bytes@, p as int, seen) == Some(i as int),
                    None => self@.special_at(bytes@, p as int, seen) is None,
                },
            decreases self.specials@.len() - k,
        {
            let n: usize = self.specials[k];
            proof {
                assert forall|i: int| seen <= i < n implies !(#[trigger] self@.special[i]) by {
                    if self.is_special@[i] {
                        let j = choose|j: int| 0 <= j < self.specials@.len() && #[trigger] self.specials@[j] == i;
                        assert(self.specials@[j] < self.specials@[k as int]);
                        assert(k > 0 ==> self.specials@[k - 1] < self.specials@[j]);
                    }
                }
                self@.lemma_special_at_same(bytes@, p as int, seen, n as int);
                seen = n + 1;
            }
            let literal: &[u8] = self.vocab[n].as_str().as_bytes();
            assert(literal@ == self@.literal(n as int));
            assert(self@.special[n as int]);
            let longer: bool = match best {
                Some(i) => literal.len() > self.vocab[i].as_str().as_bytes().len(),
                None => true,
            };
            if longer && literal_stands_at(bytes, p, literal) {
                best = Some(n);
            }
            k = k + 1;
        }
        proof {
            assert forall|i: int| seen <= i < self.vocab@.len() implies !(#[trigger] self@.special[i]) by {
                if self.is_special@[i] {
                    let j = choose|j: int| 0 <= j < self.specials@.len() && #[trigger] self.specials@[j] == i;
                    assert(j < k);
                    assert(self.specials@[j] <= self.specials@[k - 1]);
                }
            }
            self@.lemma_special_at_same(bytes@, p as int, seen, self.vocab@.len() as int);
        }
        best
    }

    /// The leftmost place where a special token stands, and the longest one there.
    fn find_next_special(&self, bytes: &[u8]) -> (r: Option<(usize, usize)>)
        requires
            self.wf(),
        ensures
            match r {
                Some((p, i)) => p < bytes@.len() && i < self.vocab@.len() && self@.next_special(bytes@, 0) == Some((p as int, i as int))
                    && self@.special_at(bytes@, p as int, self.vocab@.len() as int) == Some(i as int),
                None => self@.next_special(bytes@, 0) is None,
            },
    {
        let mut p: usize = 0;
        while p < bytes.len()
            invariant
                p <= bytes@.len(),
                self.wf(),
                self@.next_special(bytes@, 0) == self@.next_special(bytes@, p as int),
            decreases bytes@.len() - p,
        {
            if let Some(i) = self.find_special_at(bytes, p) {
                return Some((p, i));
            }
            p = p + 1;
        }
        None
    }

    /// Splits a text at its special tokens: leftmost first, and of several at one place the longest.
    pub fn split_specials<'a>(&self, text: &'a str) -> (r: Result<Vec<Segment<'a>>, FurnaceError>)
        requires
            self.wf(),
        ensures
            match r {
                Ok(segments) => self@.split(encode_utf8(text@)) == Ok::<_, ErrorView>(segment_views(segments@)),
                Err(e) => self@.split(encode_utf8(text@)) == Err::<Seq<SegmentView>, _>(e@),
            },
    {
        let mut segments: Vec<Segment<'a>> = Vec::new();
        let mut rest: &'a str = text;
        assert(behind(segment_views(segments@), self@.split(encode_utf8(rest@))) == self@.split(encode_utf8(rest@))) by {
            if let Ok(s) = self@.split(encode_utf8(rest@)) {
                assert(segment_views(segments@) + s =~= s);
            }
        }
        while rest.as_bytes().len() > 0
            invariant
                self.wf(),
                self@.split(encode_utf8(text@)) == behind(segment_views(segments@), self@.split(encode_utf8(rest@))),
            decreases encode_utf8(rest@).len(),
        {
            let ghost bytes = encode_utf8(rest@);
            let ghost before = segment_views(segments@);
            match self.find_next_special(rest.as_bytes()) {
                Some((p, i)) => {
                    let len: usize = self.vocab[i].as_str().as_bytes().len();
                    if len == 0 {
                        return Err(FurnaceError::EmptySpecial);
                    }
                    proof {
                        self@.lemma_special_at(bytes, p as int, self.vocab@.len() as int);
                        lemma_literal_boundaries(rest@, self.vocab@[i as int]@, p as int);
                    }
                    let (head, tail): (&'a str, &'a str) = split_text(rest, p);
                    if p > 0 {
                        segments.push(Segment::Text(head));
                        assert(segment_views(segments@) =~= before.push(SegmentView::Text(bytes.subrange(0, p as int))));
                    }
                    let ghost middle = segment_views(segments@);
                    segments.push(Segment::Special(i as u32));
                    assert(segment_views(segments@) =~= middle.push(SegmentView::Special(i as u32)));
                    let (_, after): (&'a str, &'a str) = split_text(tail, len);
                    rest = after;
                    proof {
                        assert(encode_utf8(rest@) =~= bytes.skip((p + len) as int));
                        if let Ok(s) = self@.split(encode_utf8(rest@)) {
                            let token = seq![SegmentView::Special(i as u32)];
                            let step = if p > 0 {
                                seq![SegmentView::Text(bytes.subrange(0, p as int))] + token
                            } else {
                                token
                            };
                            assert(before + (step + s) =~= segment_views(segments@) + s);
                        }
                    }
                },
                None => {
                    segments.push(Segment::Text(rest));
                    assert(segment_views(segments@) =~= before + seq![SegmentView::Text(bytes)]);
                    return Ok(segments);
                },
            }
        }
        assert(segment_views(segments@) + seq![] =~= segment_views(segments@));
        Ok(segments)
    }
}

impl TokenizerView {
    /// What is found at a place is a special token that stands there, and no longer one does.
    pub proof fn lemma_special_at(self, bytes: Seq<u8>, p: int, n: int)
        ensures
            self.special_at(bytes, p, n) matches Some(i) ==> {
                &&& 0 <= i < n
                &&& self.special[i]
                &&& stands_at(bytes, p, self.literal(i))
                &&& forall|j: int|
                    0 <= j < n && #[trigger] self.special[j] && stands_at(bytes, p, self.literal(j)) ==> self.literal(j).len() <= self.literal(i).len()
            },
            self.special_at(bytes, p, n) is None ==> forall|j: int| 0 <= j < n && #[trigger] self.special[j] ==> !stands_at(bytes, p, self.literal(j)),
        decreases n,
    {
        if n > 0 {
            self.lemma_special_at(bytes, p, n - 1);
        }
    }

    /// Tokens that are not special change nothing.
    proof fn lemma_special_at_same(self, bytes: Seq<u8>, p: int, m: int, n: int)
        requires
            0 <= m <= n,
            forall|i: int| m <= i < n ==> !(#[trigger] self.special[i]),
        ensures
            self.special_at(bytes, p, n) == self.special_at(bytes, p, m),
        decreases n,
    {
        if m < n {
            self.lemma_special_at_same(bytes, p, m, n - 1);
            assert(!self.special[n - 1]);
        }
    }

    /// The place that is found is the leftmost: at none before it does a special token stand.
    pub proof fn lemma_next_special(self, bytes: Seq<u8>, p: int)
        requires
            0 <= p,
        ensures
            self.next_special(bytes, p) matches Some((q, i)) ==> {
                &&& p <= q < bytes.len()
                &&& 0 <= i < self.vocab.len()
                &&& self.special[i]
                &&& stands_at(bytes, q, self.literal(i))
                &&& forall|j: int|
                    0 <= j < self.vocab.len() && #[trigger] self.special[j] && stands_at(bytes, q, self.literal(j)) ==> self.literal(j).len()
                        <= self.literal(i).len()
                &&& forall|x: int, j: int|
                    p <= x < q && 0 <= j < self.vocab.len() && self.special[j] ==> !(#[trigger] stands_at(bytes, x, self.literal(j)))
            },
            self.next_special(bytes, p) is None ==> forall|x: int, j: int|
                p <= x < bytes.len() && 0 <= j < self.vocab.len() && self.special[j] ==> !(#[trigger] stands_at(bytes, x, self.literal(j))),
        decreases bytes.len() - p,
    {
        if p < bytes.len() {
            self.lemma_special_at(bytes, p, self.vocab.len() as int);
            if self.special_at(bytes, p, self.vocab.len() as int) is None {
                self.lemma_next_special(bytes, p + 1);
            }
        }
    }
}

/// Whether the literal stands in the text at `p`.
fn literal_stands_at(bytes: &[u8], p: usize, literal: &[u8]) -> (r: bool)
    requires
        p <= bytes@.len(),
    ensures
        r == stands_at(bytes@, p as int, literal@),
{
    if bytes.len() - p < literal.len() {
        return false;
    }
    let mut i: usize = 0;
    while i < literal.len()
        invariant
            i <= literal@.len(),
            p + literal@.len() <= bytes.len(),
            forall|k: int| 0 <= k < i ==> bytes@[p + k] == literal@[k],
        decreases literal@.len() - i,
    {
        if bytes[p + i] != literal[i] {
            assert(bytes@.subrange(p as int, p + literal@.len())[i as int] != literal@[i as int]);
            return false;
        }
        i = i + 1;
    }
    assert(bytes@.subrange(p as int, p + literal@.len()) =~= literal@);
    true
}

/// Where a literal stands in a text, it starts and ends between characters.
proof fn lemma_literal_boundaries(text: Seq<char>, literal: Seq<char>, p: int)
    requires
        stands_at(encode_utf8(text), p, encode_utf8(literal)),
        encode_utf8(literal).len() > 0,
    ensures
        is_char_boundary(encode_utf8(text), p),
        valid_utf8(encode_utf8(text).skip(p)),
        is_char_boundary(encode_utf8(text).skip(p), encode_utf8(literal).len() as int),
        encode_utf8(text).subrange(p, encode_utf8(text).len() as int) == encode_utf8(text).skip(p),
{
    let bytes = encode_utf8(text);
    let lit = encode_utf8(literal);
    encode_utf8_valid_utf8(text);
    encode_utf8_valid_utf8(literal);
    is_char_boundary_start_end_of_seq(lit);
    is_char_boundary_iff_not_is_continuation_byte(lit, 0);
    assert(bytes.subrange(p, (p + lit.len()) as int)[0] == bytes[p]);
    is_char_boundary_iff_not_is_continuation_byte(bytes, p);
    valid_utf8_split(bytes, p);
    let tail = bytes.skip(p);
    assert(tail =~= bytes.subrange(p, bytes.len() as int));
    let n = lit.len() as int;
    assert(tail.subrange(0, n) =~= lit);
    if !valid_utf8(tail.subrange(n, tail.len() as int)) {
        partial_valid_partial_invalid_utf8(tail, n);
    }
    let after = tail.subrange(n, tail.len() as int);
    if n == tail.len() {
        is_char_boundary_start_end_of_seq(tail);
    } else {
        is_char_boundary_start_end_of_seq(after);
        is_char_boundary_iff_not_is_continuation_byte(after, 0);
        assert(after[0] == tail[n]);
        is_char_boundary_iff_not_is_continuation_byte(tail, n);
    }
}

impl TokenizerView {
    /// Once a list of symbols has failed to encode, a longer one fails in the same way.
    proof fn lemma_symbols_err(self, symbols: Seq<Seq<char>>, n: nat, m: nat)
        requires
            n <= m,
            self.symbol_ids(symbols, n) is Err,
        ensures
            self.symbol_ids(symbols, m) == self.symbol_ids(symbols, n),
        decreases m,
    {
        if n < m {
            self.lemma_symbols_err(symbols, n, (m - 1) as nat);
        }
    }

    /// Once a list of chunks has failed to encode, a longer one fails in the same way.
    proof fn lemma_ranges_err(self, bytes: Seq<u8>, ranges: Seq<(usize, usize)>, n: nat, m: nat)
        requires
            n <= m,
            self.ranges_ids(bytes, ranges, n) is Err,
        ensures
            self.ranges_ids(bytes, ranges, m) == self.ranges_ids(bytes, ranges, n),
        decreases m,
    {
        if n < m {
            self.lemma_ranges_err(bytes, ranges, n, (m - 1) as nat);
        }
    }

    /// Once a list of segments has failed to encode, a longer one fails in the same way.
    proof fn lemma_segments_err(self, segments: Seq<SegmentView>, n: nat, m: nat)
        requires
            n <= m,
            self.segments_ids(segments, n) is Err,
        ensures
            self.segments_ids(segments, m) == self.segments_ids(segments, n),
        decreases m,
    {
        if n < m {
            self.lemma_segments_err(segments, n, (m - 1) as nat);
        }
    }

    /// Once a list of tokens has failed to decode, a longer one fails in the same way.
    proof fn lemma_ids_err(self, ids: Seq<u32>, n: nat, m: nat)
        requires
            n <= m,
            self.ids_bytes(ids, n) is Err,
        ensures
            self.ids_bytes(ids, m) == self.ids_bytes(ids, n),
        decreases m,
    {
        if n < m {
            self.lemma_ids_err(ids, n, (m - 1) as nat);
        }
    }
}

impl Tokenizer {
    /// Encodes one chunk: one symbol for each byte, merged by rank, each of them a token.
    pub fn bpe_chunk(&self, chunk: &[u8]) -> (r: Result<Vec<u32>, FurnaceError>)
        requires
            self.wf(),
        ensures
            match r {
                Ok(ids) => self@.chunk_ids(chunk@) == Ok::<_, ErrorView>(ids@),
                Err(e) => self@.chunk_ids(chunk@) == Err::<Seq<u32>, _>(e@),
            },
    {
        let mut start: Vec<String> = Vec::new();
        let mut i: usize = 0;
        while i < chunk.len()
            invariant
                i <= chunk@.len(),
                self.wf(),
                start@.len() == i,
                forall|k: int| 0 <= k < i ==> (#[trigger] start@[k])@ == seq![byte_char(chunk@[k])],
            decreases chunk@.len() - i,
        {
            let mut symbol: String = String::new();
            let b: u8 = chunk[i];
            symbol.push(self.byte_to_char[b as usize]);
            assert(self.byte_to_char@[b as int] == byte_char(b));
            assert(symbol@ =~= seq![byte_char(chunk@[i as int])]);
            start.push(symbol);
            i = i + 1;
        }
        assert(texts(start@) =~= byte_symbols(chunk@));
        let word: Vec<String> = merge_word(&self.merge_ranks, start);
        let ghost symbols = self@.chunk_symbols(chunk@);
        assert(texts(word@) == symbols);
        let mut ids: Vec<u32> = Vec::new();
        let mut n: usize = 0;
        while n < word.len()
            invariant
                n <= word@.len(),
                self.wf(),
                symbols == texts(word@),
                symbols == self@.chunk_symbols(chunk@),
                self@.symbol_ids(symbols, n as nat) == Ok::<_, ErrorView>(ids@),
            decreases word@.len() - n,
        {
            match self.token_to_id.get(word[n].as_str()) {
                Some(id) => {
                    ids.push(*id);
                },
                None => {
                    proof {
                        self@.lemma_symbols_err(symbols, (n + 1) as nat, symbols.len());
                    }
                    return Err(FurnaceError::UnknownSymbol { symbol: word[n].clone() });
                },
            }
            n = n + 1;
        }
        Ok(ids)
    }

    /// Encodes ordinary text in which the pattern has these matches.
    pub fn encode_spans(&self, text: &str, spans: &[(usize, usize)], failed: bool) -> (r: Result<Vec<u32>, FurnaceError>)
        requires
            self.wf(),
            spans_ordered(spans@, encode_utf8(text@).len()),
        ensures
            match r {
                Ok(ids) => self@.spans_ids(encode_utf8(text@), spans@, failed) == Ok::<_, ErrorView>(ids@),
                Err(e) => self@.spans_ids(encode_utf8(text@), spans@, failed) == Err::<Seq<u32>, _>(e@),
            },
            r matches Ok(ids) ==> self@.spans_read_back(encode_utf8(text@), spans@) ==> self@.ids_bytes(ids@, ids@.len()) == Ok::<_, ErrorView>(encode_utf8(text@)),
    {
        let bytes: &[u8] = text.as_bytes();
        let ranges: Vec<(usize, usize)> = find_chunks(spans, failed, bytes.len());
        let mut ids: Vec<u32> = Vec::new();
        let mut n: usize = 0;
        proof {
            lemma_with_gaps(spans@, spans@.len(), bytes@.len());
            if !failed {
                lemma_chunks_tile(spans@, bytes.len());
            }
        }
        let ghost end: int = if failed {
            end_before(spans@, spans@.len() as int) as int
        } else {
            bytes@.len() as int
        };
        while n < ranges.len()
            invariant
                n <= ranges@.len(),
                self.wf(),
                bytes@ == encode_utf8(text@),
                tiles(ranges@, end),
                end <= bytes@.len(),
                ranges@ == chunk_ranges(spans@, failed, bytes@.len() as usize),
                self@.ranges_ids(bytes@, ranges@, n as nat) == Ok::<_, ErrorView>(ids@),
            decreases ranges@.len() - n,
        {
            proof {
                lemma_tiles_bound(ranges@, end, n as int);
            }
            let chunk: &[u8] = vstd::slice::slice_subrange(bytes, ranges[n].0, ranges[n].1);
            match self.bpe_chunk(chunk) {
                Ok(more) => {
                    let mut more: Vec<u32> = more;
                    ids.append(&mut more);
                },
                Err(e) => {
                    proof {
                        self@.lemma_ranges_err(bytes@, ranges@, (n + 1) as nat, ranges@.len());
                    }
                    return Err(e);
                },
            }
            n = n + 1;
        }
        if failed {
            return Err(FurnaceError::SplitFailed);
        }
        proof {
            if self@.spans_read_back(bytes@, spans@) {
                self@.lemma_ranges_bytes(bytes@, ranges@, ranges@.len());
                if ranges@.len() == 0 {
                    assert(bytes@ =~= seq![]);
                } else {
                    assert(bytes@.take(bytes@.len() as int) =~= bytes@);
                }
            }
        }
        Ok(ids)
    }

    /// Encodes ordinary text.
    fn encode_ordinary(&self, text: &str) -> (r: Result<Vec<u32>, FurnaceError>)
        requires
            self.wf(),
        ensures
            match r {
                Ok(ids) => self@.ordinary_ids(encode_utf8(text@)) == Ok::<_, ErrorView>(ids@),
                Err(e) => self@.ordinary_ids(encode_utf8(text@)) == Err::<Seq<u32>, _>(e@),
            },
            r matches Ok(ids) ==> self@.ordinary_reads_back(encode_utf8(text@)) ==> self@.ids_bytes(ids@, ids@.len()) == Ok::<_, ErrorView>(encode_utf8(text@)),
    {
        let (spans, failure): (Vec<(usize, usize)>, Option<fancy_regex::Error>) = find_matches(&self.splitter, text);
        proof {
            encode_utf8_decode_utf8(text@);
        }
        self.encode_spans(text, spans.as_slice(), failure.is_some())
    }

    /// Turns a text into token numbers. Where the symbols of its ordinary parts read back, the bytes of
    /// the tokens are the bytes of the text, and decoding them gives the text back.
    pub fn encode(&self, text: &str) -> (r: Result<Vec<u32>, FurnaceError>)
        requires
            self.wf(),
        ensures
            match r {
                Ok(ids) => self@.encoded(text@) == Ok::<_, ErrorView>(ids@),
                Err(e) => self@.encoded(text@) == Err::<Seq<u32>, _>(e@),
            },
            r matches Ok(ids) ==> self@.vocab.len() <= 0x1_0000_0000 && self@.reads_back(text@) ==> {
                &&& self@.ids_bytes(ids@, ids@.len()) == Ok::<_, ErrorView>(encode_utf8(text@))
                &&& self@.decoded(ids@) == Ok::<_, ErrorView>(text@)
            },
    {
        let segments: Vec<Segment> = match self.split_specials(text) {
            Ok(segments) => segments,
            Err(e) => return Err(e),
        };
        let ghost views = segment_views(segments@);
        let ghost fits = self@.vocab.len() <= 0x1_0000_0000;
        let mut ids: Vec<u32> = Vec::new();
        let mut n: usize = 0;
        while n < segments.len()
            invariant
                n <= segments@.len(),
                self.wf(),
                views == segment_views(segments@),
                self@.split(encode_utf8(text@)) == Ok::<_, ErrorView>(views),
                self@.segments_ids(views, n as nat) == Ok::<_, ErrorView>(ids@),
                fits && self@.reads_back(text@) ==> self@.ids_bytes(ids@, ids@.len()) == Ok::<_, ErrorView>(self@.segments_bytes(views, n as nat)),
                fits == (self@.vocab.len() <= 0x1_0000_0000),
            decreases segments@.len() - n,
        {
            assert(views[n as int] == segments@[n as int]@);
            let ghost start = ids@;
            match &segments[n] {
                Segment::Special(id) => {
                    ids.push(*id);
                    assert(ids@ =~= start + seq![*id]);
                    proof {
                        if fits && self@.reads_back(text@) {
                            self@.lemma_split_ids(encode_utf8(text@));
                            self@.lemma_ids_concat(start, seq![*id]);
                            reveal_with_fuel(TokenizerView::ids_bytes, 2);
                            assert(seq![] + self@.literal(*id as int) =~= self@.literal(*id as int));
                        }
                    }
                },
                Segment::Text(span) => match self.encode_ordinary(span) {
                    Ok(more) => {
                        let ghost tail = more@;
                        let mut more: Vec<u32> = more;
                        ids.append(&mut more);
                        proof {
                            if fits && self@.reads_back(text@) {
                                assert(views[n as int] is Text);
                                self@.lemma_ids_concat(start, tail);
                            }
                        }
                    },
                    Err(e) => {
                        proof {
                            self@.lemma_segments_err(views, (n + 1) as nat, views.len());
                        }
                        return Err(e);
                    },
                },
            }
            n = n + 1;
        }
        proof {
            self@.lemma_split_bytes(encode_utf8(text@));
            encode_utf8_valid_utf8(text@);
            encode_utf8_decode_utf8(text@);
        }
        Ok(ids)
    }

    /// The bytes of one token. They may be a part of a character: who prints them as they come has
    /// to wait for the rest.
    pub fn token_bytes(&self, id: u32) -> (r: Result<Vec<u8>, FurnaceError>)
        requires
            self.wf(),
        ensures
            match r {
                Ok(bytes) => self@.token_bytes(id) == Ok::<_, ErrorView>(bytes@),
                Err(e) => self@.token_bytes(id) == Err::<Seq<u8>, _>(e@),
            },
    {
        broadcast use group_hash_axioms;

        let index: usize = id as usize;
        if index >= self.vocab.len() {
            return Err(FurnaceError::NoSuchToken(id));
        }
        let token: &str = self.vocab[index].as_str();
        if self.is_special[index] {
            return Ok(vstd::slice::slice_to_vec(token.as_bytes()));
        }
        let mut bytes: Vec<u8> = Vec::new();
        let count: usize = token.unicode_len();
        let mut k: usize = 0;
        assert(token@.take(0) =~= seq![]);
        while k < count
            invariant
                k <= count,
                count == token@.len(),
                self.wf(),
                bytes@ == unmapped(token@.take(k as int)),
            decreases count - k,
        {
            let c: char = token.get_char(k);
            let ghost before = bytes@;
            assert(token@.take(k + 1).drop_last() =~= token@.take(k as int));
            match self.char_to_byte.get(&(c as u32)) {
                Some(b) => {
                    bytes.push(*b);
                    proof {
                        let x = choose|x: u8| #[trigger] byte_code(x) == c as u32;
                        lemma_byte_code(x);
                        char_u32_cast(c, c as u32);
                        assert(byte_char(x) == c);
                        lemma_char_byte(x);
                        assert(bytes@ =~= before + unmapped_char(c));
                    }
                },
                None => {
                    let mut one: String = String::new();
                    one.push(c);
                    assert(one@ =~= seq![c]);
                    let mut more: Vec<u8> = vstd::slice::slice_to_vec(one.as_str().as_bytes());
                    bytes.append(&mut more);
                    proof {
                        if exists|x: u8| #[trigger] byte_char(x) == c {
                            let x = choose|x: u8| #[trigger] byte_char(x) == c;
                            lemma_byte_code(x);
                            assert(self.char_to_byte@.contains_key(byte_code(x)));
                        }
                        assert(bytes@ =~= before + unmapped_char(c));
                    }
                },
            }
            k = k + 1;
        }
        assert(token@.take(k as int) =~= token@);
        Ok(bytes)
    }

    /// Turns token numbers into text.
    pub fn decode(&self, ids: &[u32]) -> (r: Result<String, FurnaceError>)
        requires
            self.wf(),
        ensures
            match r {
                Ok(s) => self@.decoded(ids@) == Ok::<_, ErrorView>(s@),
                Err(e) => self@.decoded(ids@) == Err::<Seq<char>, _>(e@),
            },
    {
        let mut bytes: Vec<u8> = Vec::new();
        let mut n: usize = 0;
        while n < ids.len()
            invariant
                n <= ids@.len(),
                self.wf(),
                self@.ids_bytes(ids@, n as nat) == Ok::<_, ErrorView>(bytes@),
            decreases ids@.len() - n,
        {
            match self.token_bytes(ids[n]) {
                Ok(more) => {
                    let mut more: Vec<u8> = more;
                    bytes.append(&mut more);
                },
                Err(e) => {
                    proof {
                        self@.lemma_ids_err(ids@, (n + 1) as nat, ids@.len());
                    }
                    return Err(e);
                },
            }
            n = n + 1;
        }
        Ok(lossy_text(bytes.as_slice()))
    }
}

// ---------------------------------------------------------------------------
// Decoding what was encoded.
// ---------------------------------------------------------------------------

impl TokenizerView {
    /// Whether the token that a symbol is encoded to has the symbol's bytes. It has not where the
    /// token is special and its text, taken as it stands, reads differently.
    pub open spec fn symbol_reads_back(self, s: Seq<char>) -> bool {
        numbering(self.vocab).contains_key(s) ==> self.token_bytes(numbering(self.vocab)[s]) == Ok::<_, ErrorView>(unmapped(s))
    }

    /// Whether the symbols of a chunk read back.
    pub open spec fn chunk_reads_back(self, chunk: Seq<u8>) -> bool {
        forall|k: int| 0 <= k < self.chunk_symbols(chunk).len() ==> self.symbol_reads_back(#[trigger] self.chunk_symbols(chunk)[k])
    }

    /// Whether the symbols of ordinary text read back, where the pattern has these matches in it.
    pub open spec fn spans_read_back(self, bytes: Seq<u8>, spans: Seq<(usize, usize)>) -> bool {
        let ranges = chunk_ranges(spans, false, bytes.len() as usize);
        forall|k: int| 0 <= k < ranges.len() ==> self.chunk_reads_back(bytes.subrange((#[trigger] ranges[k]).0 as int, ranges[k].1 as int))
    }

    /// Whether the symbols of ordinary text read back.
    pub open spec fn ordinary_reads_back(self, bytes: Seq<u8>) -> bool {
        self.spans_read_back(bytes, regex_matches(QWEN2_SPLIT_PATTERN@, decode_utf8(bytes)).0)
    }

    /// Whether the symbols of a text's ordinary parts read back.
    pub open spec fn reads_back(self, text: Seq<char>) -> bool {
        self.split(encode_utf8(text)) matches Ok(segments) ==> forall|i: int|
            0 <= i < segments.len() ==> (#[trigger] segments[i] matches SegmentView::Text(bytes) ==> self.ordinary_reads_back(bytes))
    }

    /// The bytes of the first `n` segments.
    pub open spec fn segments_bytes(self, segments: Seq<SegmentView>, n: nat) -> Seq<u8>
        decreases n,
    {
        if n == 0 {
            seq![]
        } else {
            self.segments_bytes(segments, (n - 1) as nat) + match segments[n - 1] {
                SegmentView::Text(bytes) => bytes,
                SegmentView::Special(id) => self.literal(id as int),
            }
        }
    }

    /// Tokens put behind others have their bytes behind those of the others.
    pub proof fn lemma_ids_concat(self, a: Seq<u32>, b: Seq<u32>)
        ensures
            self.ids_bytes(a + b, (a + b).len()) == match (self.ids_bytes(a, a.len()), self.ids_bytes(b, b.len())) {
                (Ok(x), Ok(y)) => Ok(x + y),
                (Err(e), _) => Err(e),
                (_, Err(e)) => Err(e),
            },
        decreases b.len(),
    {
        if b.len() == 0 {
            assert(a + b =~= a);
            if let Ok(x) = self.ids_bytes(a, a.len()) {
                assert(x + seq![] =~= x);
            }
        } else {
            let c = b.drop_last();
            self.lemma_ids_concat(a, c);
            self.lemma_ids_prefix(a + b, a + c, (a + c).len());
            self.lemma_ids_prefix(b, c, c.len());
            if let (Ok(x), Ok(y)) = (self.ids_bytes(a, a.len()), self.ids_bytes(c, c.len())) {
                if let Ok(z) = self.token_bytes(b.last()) {
                    assert(x + (y + z) =~= (x + y) + z);
                }
            }
        }
    }

    /// The bytes of the first tokens depend on those alone.
    proof fn lemma_ids_prefix(self, a: Seq<u32>, b: Seq<u32>, n: nat)
        requires
            n <= a.len(),
            n <= b.len(),
            forall|i: int| 0 <= i < n ==> a[i] == b[i],
        ensures
            self.ids_bytes(a, n) == self.ids_bytes(b, n),
        decreases n,
    {
        if n > 0 {
            self.lemma_ids_prefix(a, b, (n - 1) as nat);
        }
    }

    /// The tokens of symbols that read back have the bytes of the symbols.
    proof fn lemma_symbols_bytes(self, symbols: Seq<Seq<char>>, n: nat)
        requires
            n <= symbols.len(),
            self.symbol_ids(symbols, n) is Ok,
            forall|k: int| 0 <= k < n ==> self.symbol_reads_back(#[trigger] symbols[k]),
        ensures
            self.ids_bytes(self.symbol_ids(symbols, n)->Ok_0, n) == Ok::<_, ErrorView>(unmapped(joined(symbols.take(n as int)))),
            self.symbol_ids(symbols, n)->Ok_0.len() == n,
        decreases n,
    {
        if n > 0 {
            let m = (n - 1) as nat;
            self.lemma_symbols_bytes(symbols, m);
            let ids = self.symbol_ids(symbols, n)->Ok_0;
            let before = self.symbol_ids(symbols, m)->Ok_0;
            self.lemma_ids_prefix(ids, before, m);
            assert(symbols.take(n as int) =~= symbols.take(m as int).push(symbols[m as int]));
            lemma_joined_push(symbols.take(m as int), symbols[m as int]);
            lemma_unmapped_concat(joined(symbols.take(m as int)), symbols[m as int]);
            assert(self.symbol_reads_back(symbols[m as int]));
        } else {
            assert(joined(symbols.take(0)) =~= seq![]);
            assert(unmapped(joined(symbols.take(0))) =~= seq![]);
        }
    }

    /// The tokens of a chunk whose symbols read back have the bytes of the chunk.
    pub proof fn lemma_chunk_bytes(self, chunk: Seq<u8>)
        requires
            self.chunk_ids(chunk) is Ok,
            self.chunk_reads_back(chunk),
        ensures
            self.ids_bytes(self.chunk_ids(chunk)->Ok_0, self.chunk_ids(chunk)->Ok_0.len()) == Ok::<_, ErrorView>(chunk),
    {
        let symbols = self.chunk_symbols(chunk);
        self.lemma_symbols_bytes(symbols, symbols.len());
        assert(symbols.take(symbols.len() as int) =~= symbols);
        lemma_merged_keeps_text(self.ranks, byte_symbols(chunk));
        lemma_byte_symbols(chunk);
        lemma_unmapped_mapped(chunk);
    }

    /// The tokens of chunks that lie one directly behind the other have the bytes that these cover.
    proof fn lemma_ranges_bytes(self, bytes: Seq<u8>, ranges: Seq<(usize, usize)>, n: nat)
        requires
            n <= ranges.len(),
            tiles(ranges, bytes.len() as int),
            self.ranges_ids(bytes, ranges, n) is Ok,
            forall|k: int| 0 <= k < n ==> self.chunk_reads_back(bytes.subrange((#[trigger] ranges[k]).0 as int, ranges[k].1 as int)),
        ensures
            self.ids_bytes(self.ranges_ids(bytes, ranges, n)->Ok_0, self.ranges_ids(bytes, ranges, n)->Ok_0.len()) == Ok::<_, ErrorView>(
                if n == 0 {
                    seq![]
                } else {
                    bytes.take(ranges[n - 1].1 as int)
                },
            ),
        decreases n,
    {
        if n > 0 {
            let m = (n - 1) as nat;
            self.lemma_ranges_bytes(bytes, ranges, m);
            let range = ranges[m as int];
            let chunk = bytes.subrange(range.0 as int, range.1 as int);
            self.lemma_chunk_bytes(chunk);
            let before = self.ranges_ids(bytes, ranges, m)->Ok_0;
            let more = self.chunk_ids(chunk)->Ok_0;
            self.lemma_ids_concat(before, more);
            lemma_tiles_bound(ranges, bytes.len() as int, m as int);
            lemma_tiles_link(ranges, bytes.len() as int, m as int);
            if m == 0 {
                assert(seq![] + chunk =~= bytes.take(range.1 as int));
            } else {
                assert(bytes.take(ranges[m - 1].1 as int) + chunk =~= bytes.take(range.1 as int));
            }
        }
    }

    /// The numbers of special tokens that a text is split at.
    proof fn lemma_split_ids(self, bytes: Seq<u8>)
        requires
            self.split(bytes) is Ok,
            self.vocab.len() <= 0x1_0000_0000,
        ensures
            forall|i: int|
                0 <= i < self.split(bytes)->Ok_0.len() ==> (#[trigger] self.split(bytes)->Ok_0[i] matches SegmentView::Special(id) ==> id < self.vocab.len()
                    && self.special[id as int]),
        decreases bytes.len(),
    {
        if bytes.len() > 0 {
            self.lemma_next_special(bytes, 0);
            if let Some((p, i)) = self.next_special(bytes, 0) {
                let rest = bytes.skip((p + self.literal(i).len()) as int);
                self.lemma_split_ids(rest);
                let tail = self.split(rest)->Ok_0;
                let all = self.split(bytes)->Ok_0;
                let k = all.len() - tail.len();
                assert forall|j: int| 0 <= j < all.len() implies (#[trigger] all[j] matches SegmentView::Special(id) ==> id < self.vocab.len()
                    && self.special[id as int]) by {
                    if j >= k {
                        assert(all[j] == tail[j - k]);
                    }
                }
            }
        }
    }

    /// The segments that a text is split into have the bytes of the text.
    pub proof fn lemma_split_bytes(self, bytes: Seq<u8>)
        requires
            self.split(bytes) is Ok,
        ensures
            self.vocab.len() <= 0x1_0000_0000 ==> self.segments_bytes(self.split(bytes)->Ok_0, self.split(bytes)->Ok_0.len()) == bytes,
        decreases bytes.len(),
    {
        let all = self.split(bytes)->Ok_0;
        if bytes.len() == 0 {
            assert(bytes =~= seq![]);
        } else {
            self.lemma_next_special(bytes, 0);
            if let Some((p, i)) = self.next_special(bytes, 0) {
                let end = (p + self.literal(i).len()) as int;
                let rest = bytes.skip(end);
                self.lemma_split_bytes(rest);
                let tail = self.split(rest)->Ok_0;
                let token = seq![SegmentView::Special(i as u32)];
                let head = if p > 0 {
                    seq![SegmentView::Text(bytes.subrange(0, p))] + token
                } else {
                    token
                };
                self.lemma_segments_concat(head, tail);
                reveal_with_fuel(TokenizerView::segments_bytes, 3);
                if self.vocab.len() <= 0x1_0000_0000 {
                    if p > 0 {
                        assert(self.segments_bytes(head, head.len()) =~= bytes.subrange(0, p) + self.literal(i));
                    } else {
                        assert(self.segments_bytes(head, head.len()) =~= self.literal(i));
                    }
                    assert(self.segments_bytes(head, head.len()) =~= bytes.take(end));
                    assert(bytes.take(end) + rest =~= bytes);
                }
            } else {
                reveal_with_fuel(TokenizerView::segments_bytes, 2);
                assert(self.segments_bytes(all, 1) =~= bytes);
            }
        }
    }

    /// Segments put behind others have their bytes behind those of the others.
    proof fn lemma_segments_concat(self, a: Seq<SegmentView>, b: Seq<SegmentView>)
        ensures
            self.segments_bytes(a + b, (a + b).len()) == self.segments_bytes(a, a.len()) + self.segments_bytes(b, b.len()),
        decreases b.len(),
    {
        if b.len() == 0 {
            assert(a + b =~= a);
            assert(self.segments_bytes(a, a.len()) + seq![] =~= self.segments_bytes(a, a.len()));
        } else {
            let c = b.drop_last();
            self.lemma_segments_concat(a, c);
            self.lemma_segments_prefix(a + b, a + c, (a + c).len());
            self.lemma_segments_prefix(b, c, c.len());
            assert(self.segments_bytes(a + b, (a + b).len()) =~= self.segments_bytes(a, a.len()) + self.segments_bytes(b, b.len()));
        }
    }

    /// The bytes of the first segments depend on those alone.
    proof fn lemma_segments_prefix(self, a: Seq<SegmentView>, b: Seq<SegmentView>, n: nat)
        requires
            n <= a.len(),
            n <= b.len(),
            forall|i: int| 0 <= i < n ==> a[i] == b[i],
        ensures
            self.segments_bytes(a, n) == self.segments_bytes(b, n),
        decreases n,
    {
        if n > 0 {
            self.lemma_segments_prefix(a, b, (n - 1) as nat);
        }
    }

    /// If the text of every special token stands for its own encoding, as it does if it is of printable
    /// ASCII characters, every text reads back: what it is encoded to is decoded to it.
    pub proof fn lemma_plain_specials_read_back(self, text: Seq<char>)
        requires
            self.special.len() == self.vocab.len(),
            self.vocab.len() <= 0x1_0000_0000,
            forall|i: int| 0 <= i < self.vocab.len() && #[trigger] self.special[i] ==> unmapped(self.vocab[i]) == self.literal(i),
        ensures
            self.reads_back(text),
    {
        assert forall|s: Seq<char>| #[trigger] self.symbol_reads_back(s) by {
            lemma_numbering(self.vocab, s);
            if numbering(self.vocab).contains_key(s) {
                assert(self.special[numbering(self.vocab)[s] as int] || !self.special[numbering(self.vocab)[s] as int]);
            }
        }
    }
}

/// The text of a word with one more symbol.
proof fn lemma_joined_push(word: Seq<Seq<char>>, s: Seq<char>)
    ensures
        joined(word.push(s)) == joined(word) + s,
    decreases word.len(),
{
    let all = word.push(s);
    if word.len() == 0 {
        reveal_with_fuel(joined, 2);
        assert(joined(all) =~= joined(word) + s);
    } else {
        assert(all.skip(1) =~= word.skip(1).push(s));
        lemma_joined_push(word.skip(1), s);
        assert(joined(all) =~= joined(word) + s);
    }
}

/// Of ranges one directly behind the other, each starts where the one before it ends.
proof fn lemma_tiles_link(ranges: Seq<(usize, usize)>, end: int, k: int)
    requires
        tiles(ranges, end),
        0 <= k < ranges.len(),
    ensures
        ranges[k].0 == if k == 0 {
            0
        } else {
            ranges[k - 1].1
        },
    decreases ranges.len(),
{
    reveal_with_fuel(tiles, 2);
    if k < ranges.len() - 1 {
        lemma_tiles_link(ranges.drop_last(), ranges.last().0 as int, k);
    }
}

// ---------------------------------------------------------------------------
// The tokenizer of a model file.
// ---------------------------------------------------------------------------

/// The values as texts, if each is a string.
pub open spec fn as_texts(values: Seq<ValueView>) -> Option<Seq<Seq<char>>> {
    if forall|i: int| 0 <= i < values.len() ==> (#[trigger] values[i]).as_str() is Some {
        Some(Seq::new(values.len(), |i: int| values[i].as_str()->0))
    } else {
        None
    }
}

/// The values as integers, if each is one.
pub open spec fn as_integers(values: Seq<ValueView>) -> Option<Seq<i64>> {
    if forall|i: int| 0 <= i < values.len() ==> (#[trigger] values[i]).as_i64() is Some {
        Some(Seq::new(values.len(), |i: int| values[i].as_i64()->0))
    } else {
        None
    }
}

/// The strings of an array.
fn read_texts(values: &[GgufValue]) -> (r: Option<Vec<String>>)
    ensures
        match r {
            Some(list) => as_texts(value_views(values@)) == Some(texts(list@)),
            None => as_texts(value_views(values@)) is None,
        },
{
    let ghost views = value_views(values@);
    let mut list: Vec<String> = Vec::new();
    let mut i: usize = 0;
    while i < values.len()
        invariant
            i <= values@.len(),
            views == value_views(values@),
            list@.len() == i,
            forall|k: int| 0 <= k < i ==> (#[trigger] views[k]).as_str() == Some(list@[k]@),
        decreases values@.len() - i,
    {
        assert(views[i as int] == values@[i as int]@);
        match values[i].as_str() {
            Some(s) => list.push(s.to_owned()),
            None => return None,
        }
        i = i + 1;
    }
    assert(texts(list@) =~= Seq::new(views.len(), |k: int| views[k].as_str()->0));
    Some(list)
}

/// The integers of an array.
fn read_integers(values: &[GgufValue]) -> (r: Option<Vec<i64>>)
    ensures
        match r {
            Some(list) => as_integers(value_views(values@)) == Some(list@),
            None => as_integers(value_views(values@)) is None,
        },
{
    let ghost views = value_views(values@);
    let mut list: Vec<i64> = Vec::new();
    let mut i: usize = 0;
    while i < values.len()
        invariant
            i <= values@.len(),
            views == value_views(values@),
            list@.len() == i,
            forall|k: int| 0 <= k < i ==> (#[trigger] views[k]).as_i64() == Some(list@[k]),
        decreases values@.len() - i,
    {
        assert(views[i as int] == values@[i as int]@);
        match values[i].as_i64() {
            Some(n) => list.push(n),
            None => return None,
        }
        i = i + 1;
    }
    assert(list@ =~= Seq::new(views.len(), |k: int| views[k].as_i64()->0));
    Some(list)
}

impl<'a> GgufFile<'a> {
    /// The array of strings with this key; another array gives the error.
    pub open spec fn texts_at_key(self, key: Seq<char>, other: ErrorView) -> Result<Seq<Seq<char>>, ErrorView> {
        match self.array_at_key(key) {
            Ok(items) => match as_texts(items) {
                Some(list) => Ok(list),
                None => Err(other),
            },
            Err(e) => Err(e),
        }
    }

    /// The array of integers with this key; another array gives the error.
    pub open spec fn integers_at_key(self, key: Seq<char>, other: ErrorView) -> Result<Seq<i64>, ErrorView> {
        match self.array_at_key(key) {
            Ok(items) => match as_integers(items) {
                Some(list) => Ok(list),
                None => Err(other),
            },
            Err(e) => Err(e),
        }
    }

    /// The tokens, token types and merge rules of the file.
    pub open spec fn tokenizer_lists(self) -> Result<(Seq<Seq<char>>, Seq<i64>, Seq<Seq<char>>), ErrorView> {
        match self.texts_at_key("tokenizer.ggml.tokens"@, ErrorView::TokenNotAString) {
            Ok(tokens) => match self.integers_at_key("tokenizer.ggml.token_type"@, ErrorView::TokenTypeNotAnInteger) {
                Ok(types) => match self.texts_at_key("tokenizer.ggml.merges"@, ErrorView::MergeNotAString) {
                    Ok(merges) => Ok((tokens, types, merges)),
                    Err(e) => Err(e),
                },
                Err(e) => Err(e),
            },
            Err(e) => Err(e),
        }
    }

    /// What the file's tokenizer is made of.
    pub open spec fn tokenizer(self) -> Result<TokenizerView, ErrorView> {
        match self.string_at_key("tokenizer.ggml.model"@) {
            Err(e) => Err(e),
            Ok(model) => if model != "gpt2"@ {
                Err(ErrorView::UnsupportedTokenizer { model })
            } else {
                match self.string_at_key("tokenizer.ggml.pre"@) {
                    Err(e) => Err(e),
                    Ok(pre) => if pre != "qwen2"@ {
                        Err(ErrorView::UnsupportedPreTokenizer { pre })
                    } else {
                        match self.tokenizer_lists() {
                            Err(e) => Err(e),
                            Ok((tokens, types, merges)) => tokenizer_of(tokens, types, merges),
                        }
                    },
                }
            },
        }
    }
}

/// The array of strings with this key; another array gives the error.
fn texts_of(file: &GgufFile, key: &str, other: FurnaceError) -> (r: Result<Vec<String>, FurnaceError>)
    requires
        file.wf(),
    ensures
        match r {
            Ok(list) => file.texts_at_key(key@, other@) == Ok::<_, ErrorView>(texts(list@)),
            Err(e) => file.texts_at_key(key@, other@) == Err::<Seq<Seq<char>>, _>(e@),
        },
{
    match file.meta_array(key) {
        Ok(items) => match read_texts(items) {
            Some(list) => Ok(list),
            None => Err(other),
        },
        Err(e) => Err(e),
    }
}

impl Tokenizer {
    /// The tokenizer of a model file.
    pub fn from_gguf(file: &GgufFile) -> (r: Result<Tokenizer, FurnaceError>)
        requires
            file.wf(),
        ensures
            match r {
                Ok(t) => t.wf() && file.tokenizer() == Ok::<_, ErrorView>(t@),
                Err(e) => file.tokenizer() == Err::<TokenizerView, _>(e@),
            },
    {
        match file.meta_str("tokenizer.ggml.model") {
            Ok(model) => if !same_text(model, "gpt2") {
                return Err(FurnaceError::UnsupportedTokenizer { model: model.to_owned() });
            },
            Err(e) => return Err(e),
        }
        match file.meta_str("tokenizer.ggml.pre") {
            Ok(pre) => if !same_text(pre, "qwen2") {
                return Err(FurnaceError::UnsupportedPreTokenizer { pre: pre.to_owned() });
            },
            Err(e) => return Err(e),
        }
        let tokens: Vec<String> = match texts_of(file, "tokenizer.ggml.tokens", FurnaceError::TokenNotAString) {
            Ok(list) => list,
            Err(e) => return Err(e),
        };
        let types: Vec<i64> = match file.meta_array("tokenizer.ggml.token_type") {
            Ok(items) => match read_integers(items) {
                Some(list) => list,
                None => return Err(FurnaceError::TokenTypeNotAnInteger),
            },
            Err(e) => return Err(e),
        };
        let merges: Vec<String> = match texts_of(file, "tokenizer.ggml.merges", FurnaceError::MergeNotAString) {
            Ok(list) => list,
            Err(e) => return Err(e),
        };
        Tokenizer::new(tokens, types.as_slice(), merges.as_slice())
    }
}

} // verus!
