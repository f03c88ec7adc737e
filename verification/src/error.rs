//! The ways in which reading a model, tokenizing or generating can fail.

use vstd::prelude::*;
use vstd::string::*;

use crate::dump::{dtype_name, dtype_text, quoted, quoted_text};
use crate::gguf::GgmlType;
use crate::text::{decimal, decimal_text, long_decimal_text};

verus! {

/// Why bytes of a file cannot be read.
#[derive(Debug, Clone, Copy, PartialEq, Eq, Structural)]
pub enum ReadError {
    /// Fewer than `need` bytes are left at `offset`.
    UnexpectedEof { need: usize, offset: usize },
    /// A string's bytes are not valid UTF-8.
    InvalidUtf8,
    /// No metadata value type has this tag.
    UnknownValueTag(u32),
    /// No tensor data type has this tag.
    UnknownTensorType(u32),
}

/// Why an operation of this library did not succeed. `N` is what a name is held in.
#[derive(Debug, PartialEq, Eq)]
pub enum Failure<N> {
    /// The bytes of a file cannot be read.
    Read(ReadError),
    /// The value of a metadata key cannot be read.
    InKey { key: N, cause: ReadError },
    /// What the file says of a tensor cannot be read.
    InTensor { tensor: N, cause: ReadError },
    /// The file starts with these four bytes.
    BadMagic(u8, u8, u8, u8),
    /// Only versions 2 and 3 are read.
    UnsupportedVersion(u32),
    /// A tensor has more than four dimensions.
    TooManyDims { tensor: N, n_dims: u32 },
    /// `general.alignment` is not a power of two.
    BadAlignment(u32),
    /// The tensor data would start at `data_start`, behind the file's end.
    Truncated { data_start: u128, file_len: usize },
    /// The metadata have no entry with the key, or one that is not a string.
    NotAString { key: N },
    /// The metadata have no entry with the key, or one that is not an array.
    NotAnArray { key: N },
    /// The metadata have no entry with the key, or one that is not a u32.
    NotAU32 { key: N },
    /// The metadata have no entry with the key, or one that is not a float.
    NotAFloat { key: N },
    /// The file has no tensor with the name.
    NoSuchTensor { tensor: N },
    /// The size of a block of this type is not known.
    UnsupportedType(GgmlType),
    /// A tensor does not consist of whole blocks.
    PartialTensor { tensor: N, elements: usize, block: usize },
    /// The numbers to decode are not those of whole blocks.
    PartialBlock { dtype: GgmlType, elements: usize, block: usize },
    /// A size does not fit in the machine's word.
    SizeOverflow,
    /// The data of a tensor, which start at `at`, would end behind the file's end.
    PastEndOfFile { tensor: N, at: u128, size: usize, file_len: usize },
    /// The data to decode are not those of so many blocks.
    WrongLength { dtype: GgmlType, bytes: usize, blocks: usize, block_bytes: usize },
    /// Data of this type are not decoded.
    NotDecoded(GgmlType),
    /// `tokenizer.ggml.model` is not `gpt2`.
    UnsupportedTokenizer { model: N },
    /// `tokenizer.ggml.pre` is not `qwen2`.
    UnsupportedPreTokenizer { pre: N },
    /// An item of `tokenizer.ggml.tokens` is not a string.
    TokenNotAString,
    /// An item of `tokenizer.ggml.token_type` is not an integer.
    TokenTypeNotAnInteger,
    /// An item of `tokenizer.ggml.merges` is not a string.
    MergeNotAString,
    /// There are not as many token types as tokens.
    TokenTypeCount { tokens: usize, types: usize },
    /// The pattern that splits text does not compile.
    BadPattern,
    /// The special token that the text would be split at is the empty text.
    EmptySpecial,
    /// The pattern that splits text gave up on it.
    SplitFailed,
    /// A symbol is not a token.
    UnknownSymbol { symbol: N },
    /// No token has this number.
    NoSuchToken(u32),
    /// `general.architecture` is not `qwen2`.
    UnsupportedArchitecture { architecture: N },
    /// The hidden numbers do not divide evenly among the heads.
    UnevenHeads { hidden: usize, heads: usize },
    /// A weight has not two dimensions, but these.
    NotAMatrix { tensor: N, dims: N },
    /// The token embedding has not the shape that the metadata say.
    EmbeddingShape { out: usize, inn: usize, vocab: usize, hidden: usize },
    /// The feed-forward gate of a layer has not the shape that the metadata say.
    GateShape { layer: usize, out: usize, inn: usize, ffn: usize, hidden: usize },
    /// The output head has not the shape that the metadata say.
    HeadShape { out: usize, inn: usize, vocab: usize, hidden: usize },
    /// The prompt with the new tokens would not fit in the context.
    ContextOverflow { prompt: usize, max_new: usize, cap: usize },
    /// A logit is not a number where logits have to be compared.
    NotComparable,
    /// Text could not be given out.
    Output,
    /// A range does not lie within a tensor.
    OutOfRange { start: usize, count: usize, elements: usize },
    /// A range is empty.
    EmptyRange,
    /// A piece of a list of token numbers is not a number, or too large a one.
    BadTokenId { piece: N },
}

/// Why an operation of this library did not succeed.
pub type FurnaceError = Failure<String>;

/// What an error says, its names as sequences of characters.
pub type ErrorView = Failure<Seq<char>>;

impl View for Failure<String> {
    type V = Failure<Seq<char>>;

    open spec fn view(&self) -> Failure<Seq<char>> {
        match *self {
            Failure::Read(read) => Failure::Read(read),
            Failure::InKey { key, cause } => Failure::InKey { key: key@, cause },
            Failure::InTensor { tensor, cause } => Failure::InTensor { tensor: tensor@, cause },
            Failure::BadMagic(a, b, c, d) => Failure::BadMagic(a, b, c, d),
            Failure::UnsupportedVersion(version) => Failure::UnsupportedVersion(version),
            Failure::TooManyDims { tensor, n_dims } => Failure::TooManyDims { tensor: tensor@, n_dims },
            Failure::BadAlignment(alignment) => Failure::BadAlignment(alignment),
            Failure::Truncated { data_start, file_len } => Failure::Truncated { data_start, file_len },
            Failure::NotAString { key } => Failure::NotAString { key: key@ },
            Failure::NotAnArray { key } => Failure::NotAnArray { key: key@ },
            Failure::NotAU32 { key } => Failure::NotAU32 { key: key@ },
            Failure::NotAFloat { key } => Failure::NotAFloat { key: key@ },
            Failure::NoSuchTensor { tensor } => Failure::NoSuchTensor { tensor: tensor@ },
            Failure::UnsupportedType(dtype) => Failure::UnsupportedType(dtype),
            Failure::PartialTensor { tensor, elements, block } => Failure::PartialTensor { tensor: tensor@, elements, block },
            Failure::PartialBlock { dtype, elements, block } => Failure::PartialBlock { dtype, elements, block },
            Failure::SizeOverflow => Failure::SizeOverflow,
            Failure::PastEndOfFile { tensor, at, size, file_len } => Failure::PastEndOfFile { tensor: tensor@, at, size, file_len },
            Failure::WrongLength { dtype, bytes, blocks, block_bytes } => Failure::WrongLength { dtype, bytes, blocks, block_bytes },
            Failure::NotDecoded(dtype) => Failure::NotDecoded(dtype),
            Failure::UnsupportedTokenizer { model } => Failure::UnsupportedTokenizer { model: model@ },
            Failure::UnsupportedPreTokenizer { pre } => Failure::UnsupportedPreTokenizer { pre: pre@ },
            Failure::TokenNotAString => Failure::TokenNotAString,
            Failure::TokenTypeNotAnInteger => Failure::TokenTypeNotAnInteger,
            Failure::MergeNotAString => Failure::MergeNotAString,
            Failure::TokenTypeCount { tokens, types } => Failure::TokenTypeCount { tokens, types },
            Failure::BadPattern => Failure::BadPattern,
            Failure::EmptySpecial => Failure::EmptySpecial,
            Failure::SplitFailed => Failure::SplitFailed,
            Failure::UnknownSymbol { symbol } => Failure::UnknownSymbol { symbol: symbol@ },
            Failure::NoSuchToken(id) => Failure::NoSuchToken(id),
            Failure::UnsupportedArchitecture { architecture } => Failure::UnsupportedArchitecture { architecture: architecture@ },
            Failure::UnevenHeads { hidden, heads } => Failure::UnevenHeads { hidden, heads },
            Failure::NotAMatrix { tensor, dims } => Failure::NotAMatrix { tensor: tensor@, dims: dims@ },
            Failure::EmbeddingShape { out, inn, vocab, hidden } => Failure::EmbeddingShape { out, inn, vocab, hidden },
            Failure::GateShape { layer, out, inn, ffn, hidden } => Failure::GateShape { layer, out, inn, ffn, hidden },
            Failure::HeadShape { out, inn, vocab, hidden } => Failure::HeadShape { out, inn, vocab, hidden },
            Failure::ContextOverflow { prompt, max_new, cap } => Failure::ContextOverflow { prompt, max_new, cap },
            Failure::NotComparable => Failure::NotComparable,
            Failure::Output => Failure::Output,
            Failure::OutOfRange { start, count, elements } => Failure::OutOfRange { start, count, elements },
            Failure::EmptyRange => Failure::EmptyRange,
            Failure::BadTokenId { piece } => Failure::BadTokenId { piece: piece@ },
        }
    }
}

/// A byte as two hexadecimal digits.
pub open spec fn hex(b: u8) -> Seq<char> {
    seq![hex_digit(b / 16), hex_digit(b % 16)]
}

/// The hexadecimal digit for `d`.
pub open spec fn hex_digit(d: u8) -> char {
    if d < 10 {
        (48 + d) as char
    } else {
        (87 + d) as char
    }
}

/// What stands before the words on data of this type.
pub open spec fn prefix(dtype: GgmlType) -> Seq<char> {
    match dtype {
        GgmlType::F32 => "F32 "@,
        GgmlType::Q8_0 => "Q8_0 "@,
        _ => ""@,
    }
}

/// Of how many blocks data of this type should consist.
pub open spec fn layout_words(dtype: GgmlType, blocks: usize, block_bytes: usize) -> Seq<char> {
    match dtype {
        GgmlType::F32 => seq![],
        _ => " ("@ + decimal(blocks as nat) + " blocks of "@ + decimal(block_bytes as nat) + ")"@,
    }
}

/// Appends a byte as two hexadecimal digits.
fn push_hex(out: &mut String, b: u8)
    ensures
        final(out)@ == old(out)@ + hex(b),
{
    let (high, low): (u8, u8) = (b / 16, b % 16);
    let first: char = if high < 10 {
        (48 + high) as char
    } else {
        (87 + high) as char
    };
    let second: char = if low < 10 {
        (48 + low) as char
    } else {
        (87 + low) as char
    };
    out.push(first);
    out.push(second);
    assert(out@ =~= old(out)@ + hex(b));
}

/// Appends a number in decimal.
fn push_decimal(out: &mut String, n: u64)
    ensures
        final(out)@ == old(out)@ + decimal(n as nat),
{
    let text: String = decimal_text(n);
    out.append(text.as_str());
}

/// Appends a long number in decimal.
fn push_long(out: &mut String, n: u128)
    ensures
        final(out)@ == old(out)@ + decimal(n as nat),
{
    let text: String = long_decimal_text(n);
    out.append(text.as_str());
}

/// Appends the product of two numbers in decimal.
fn push_product(out: &mut String, a: usize, b: usize)
    ensures
        final(out)@ == old(out)@ + decimal((a * b) as nat),
{
    assert(a * b <= 0xFFFF_FFFF_FFFF_FFFF * 0xFFFF_FFFF_FFFF_FFFF) by (nonlinear_arith)
        requires
            a <= 0xFFFF_FFFF_FFFF_FFFF,
            b <= 0xFFFF_FFFF_FFFF_FFFF,
    ;
    push_long(out, a as u128 * b as u128);
}

/// What stands before the words on data of this type.
fn type_prefix(dtype: GgmlType) -> (r: &'static str)
    ensures
        r@ == prefix(dtype),
{
    match dtype {
        GgmlType::F32 => "F32 ",
        GgmlType::Q8_0 => "Q8_0 ",
        _ => "",
    }
}

/// Appends of how many blocks data of this type should consist.
fn push_layout(out: &mut String, dtype: GgmlType, blocks: usize, block_bytes: usize)
    ensures
        final(out)@ == old(out)@ + layout_words(dtype, blocks, block_bytes),
{
    match dtype {
        GgmlType::F32 => {},
        _ => {
            out.append(" (");
            push_decimal(out, blocks as u64);
            out.append(" blocks of ");
            push_decimal(out, block_bytes as u64);
            out.append(")");
        },
    }
    assert(out@ =~= old(out)@ + layout_words(dtype, blocks, block_bytes));
}

impl ReadError {
    /// What went wrong, in words.
    pub open spec fn words(self) -> Seq<char> {
        match self {
            ReadError::UnexpectedEof { need, offset } => "unexpected EOF: need "@ + decimal(need as nat) + " bytes at offset "@ + decimal(offset as nat),
            ReadError::InvalidUtf8 => "string is not valid UTF-8"@,
            ReadError::UnknownValueTag(tag) => "unknown metadata value type tag "@ + decimal(tag as nat),
            ReadError::UnknownTensorType(tag) => "unsupported ggml tensor type "@ + decimal(tag as nat),
        }
    }

    /// Appends what went wrong.
    fn say(self, said: &mut String)
        ensures
            final(said)@ == old(said)@ + self.words(),
    {
        match self {
            ReadError::UnexpectedEof { need, offset } => {
                said.append("unexpected EOF: need ");
                push_decimal(said, need as u64);
                said.append(" bytes at offset ");
                push_decimal(said, offset as u64);
            },
            ReadError::InvalidUtf8 => {
                said.append("string is not valid UTF-8");
            },
            ReadError::UnknownValueTag(tag) => {
                said.append("unknown metadata value type tag ");
                push_decimal(said, tag as u64);
            },
            ReadError::UnknownTensorType(tag) => {
                said.append("unsupported ggml tensor type ");
                push_decimal(said, tag as u64);
            },
        }
        assert(said@ =~= old(said)@ + self.words());
    }
}

impl Failure<Seq<char>> {
    /// What went wrong, in words.
    pub open spec fn words(self) -> Seq<char> {
        match self {
            Failure::Read(read) => read.words(),
            Failure::InKey { key, cause } => "metadata key '"@ + key + "': "@ + cause.words(),
            Failure::InTensor { tensor, cause } => "tensor '"@ + tensor + "': "@ + cause.words(),
            Failure::BadMagic(a, b, c, d) => "not a GGUF file (bad magic ["@ + hex(a) + ", "@ + hex(b) + ", "@ + hex(c) + ", "@ + hex(d) + "])"@,
            Failure::UnsupportedVersion(version) => "unsupported GGUF version "@ + decimal(version as nat) + " (only 2 and 3)"@,
            Failure::TooManyDims { tensor, n_dims } => "tensor '"@ + tensor + "' has "@ + decimal(n_dims as nat) + " dims, max is 4"@,
            Failure::BadAlignment(alignment) => "general.alignment "@ + decimal(alignment as nat) + " is not a power of two"@,
            Failure::Truncated { data_start, file_len } => "file truncated: tensor data would start at "@ + decimal(data_start as nat) + " but file is "@ + decimal(file_len as nat) + " bytes"@,
            Failure::NotAString { key } => "metadata key '"@ + key + "' missing or not a string"@,
            Failure::NotAnArray { key } => "metadata key '"@ + key + "' missing or not an array"@,
            Failure::NotAU32 { key } => "metadata key '"@ + key + "' missing or not a u32"@,
            Failure::NotAFloat { key } => "metadata key '"@ + key + "' missing or not a float"@,
            Failure::NoSuchTensor { tensor } => "no tensor named '"@ + tensor + "'"@,
            Failure::UnsupportedType(dtype) => "dtype "@ + dtype_text(dtype) + " not supported yet"@,
            Failure::PartialTensor { tensor, elements, block } => "tensor '"@ + tensor + "' has "@ + decimal(elements as nat) + " elements, not a multiple of block size "@ + decimal(block as nat),
            Failure::PartialBlock { dtype, elements, block } => prefix(dtype) + "element count "@ + decimal(elements as nat) + " is not a multiple of "@ + decimal(block as nat),
            Failure::SizeOverflow => "tensor size does not fit in memory"@,
            Failure::PastEndOfFile { tensor, at, size, file_len } => "tensor '"@ + tensor + "' data ["@ + decimal(at as nat) + ", "@ + decimal(at as nat) + "+"@ + decimal(size as nat) + ") runs past end of file ("@ + decimal(file_len as nat) + " bytes)"@,
            Failure::WrongLength { dtype, bytes, blocks, block_bytes } => prefix(dtype) + "data is "@ + decimal(bytes as nat) + " bytes, expected "@ + decimal((blocks * block_bytes) as nat) + layout_words(dtype, blocks, block_bytes),
            Failure::NotDecoded(dtype) => "dequantization for "@ + dtype_text(dtype) + " is not implemented"@,
            Failure::UnsupportedTokenizer { model } => "tokenizer model '"@ + model + "' not supported (only gpt2 byte-level BPE)"@,
            Failure::UnsupportedPreTokenizer { pre } => "pre-tokenizer '"@ + pre + "' not supported (only qwen2)"@,
            Failure::TokenNotAString => "token is not a string"@,
            Failure::TokenTypeNotAnInteger => "token_type is not an integer"@,
            Failure::MergeNotAString => "merge is not a string"@,
            Failure::TokenTypeCount { tokens, types } => decimal(tokens as nat) + " tokens but "@ + decimal(types as nat) + " token types"@,
            Failure::BadPattern => "pre-tokenizer pattern failed to compile"@,
            Failure::EmptySpecial => "a special token is empty"@,
            Failure::SplitFailed => "pre-tokenizer regex failed"@,
            Failure::UnknownSymbol { symbol } => "symbol "@ + quoted(symbol) + " not in vocab"@,
            Failure::NoSuchToken(id) => "token id "@ + decimal(id as nat) + " out of range"@,
            Failure::UnsupportedArchitecture { architecture } => "architecture '"@ + architecture + "' not supported"@,
            Failure::UnevenHeads { hidden, heads } => "hidden "@ + decimal(hidden as nat) + " not divisible by "@ + decimal(heads as nat) + " heads"@,
            Failure::NotAMatrix { tensor, dims } => "weight '"@ + tensor + "' is not 2-D: ["@ + dims + "]"@,
            Failure::EmbeddingShape { out, inn, vocab, hidden } => "token_embd is ["@ + decimal(out as nat) + ", "@ + decimal(inn as nat) + "], config says ["@ + decimal(vocab as nat) + ", "@ + decimal(hidden as nat) + "]"@,
            Failure::GateShape { layer, out, inn, ffn, hidden } => "blk."@ + decimal(layer as nat) + " ffn_gate is ["@ + decimal(out as nat) + ", "@ + decimal(inn as nat) + "], expected ["@ + decimal(ffn as nat) + ", "@ + decimal(hidden as nat) + "]"@,
            Failure::HeadShape { out, inn, vocab, hidden } => "lm_head is ["@ + decimal(out as nat) + ", "@ + decimal(inn as nat) + "], config says ["@ + decimal(vocab as nat) + ", "@ + decimal(hidden as nat) + "]"@,
            Failure::ContextOverflow { prompt, max_new, cap } => "prompt ("@ + decimal(prompt as nat) + ") + max tokens ("@ + decimal(max_new as nat) + ") exceeds context cap "@ + decimal(cap as nat),
            Failure::NotComparable => "a logit is not a number"@,
            Failure::Output => "text could not be written"@,
            Failure::OutOfRange { start, count, elements } => "range ["@ + decimal(start as nat) + ", "@ + decimal(start as nat) + "+"@ + decimal(count as nat) + ") out of bounds, tensor has "@ + decimal(elements as nat) + " elements"@,
            Failure::EmptyRange => "count must be at least 1"@,
            Failure::BadTokenId { piece } => "bad token id '"@ + piece + "'"@,
        }
    }
}

impl Failure<String> {
    /// Says what went wrong.
    pub fn message(&self) -> (r: String)
        ensures
            r@ == self@.words(),
    {
        let mut said: String = String::new();
        match self {
            Failure::Read(read) => {
                read.say(&mut said);
            },
            Failure::InKey { key, cause } => {
                said.append("metadata key '");
                said.append(key.as_str());
                said.append("': ");
                cause.say(&mut said);
            },
            Failure::InTensor { tensor, cause } => {
                said.append("tensor '");
                said.append(tensor.as_str());
                said.append("': ");
                cause.say(&mut said);
            },
            Failure::BadMagic(a, b, c, d) => {
                said.append("not a GGUF file (bad magic [");
                push_hex(&mut said, *a);
                said.append(", ");
                push_hex(&mut said, *b);
                said.append(", ");
                push_hex(&mut said, *c);
                said.append(", ");
                push_hex(&mut said, *d);
                said.append("])");
            },
            Failure::UnsupportedVersion(version) => {
                said.append("unsupported GGUF version ");
                push_decimal(&mut said, *version as u64);
                said.append(" (only 2 and 3)");
            },
            Failure::TooManyDims { tensor, n_dims } => {
                said.append("tensor '");
                said.append(tensor.as_str());
                said.append("' has ");
                push_decimal(&mut said, *n_dims as u64);
                said.append(" dims, max is 4");
            },
            Failure::BadAlignment(alignment) => {
                said.append("general.alignment ");
                push_decimal(&mut said, *alignment as u64);
                said.append(" is not a power of two");
            },
            Failure::Truncated { data_start, file_len } => {
                said.append("file truncated: tensor data would start at ");
                push_long(&mut said, *data_start);
                said.append(" but file is ");
                push_decimal(&mut said, *file_len as u64);
                said.append(" bytes");
            },
            Failure::NotAString { key } => {
                said.append("metadata key '");
                said.append(key.as_str());
                said.append("' missing or not a string");
            },
            Failure::NotAnArray { key } => {
                said.append("metadata key '");
                said.append(key.as_str());
                said.append("' missing or not an array");
            },
            Failure::NotAU32 { key } => {
                said.append("metadata key '");
                said.append(key.as_str());
                said.append("' missing or not a u32");
            },
            Failure::NotAFloat { key } => {
                said.append("metadata key '");
                said.append(key.as_str());
                said.append("' missing or not a float");
            },
            Failure::NoSuchTensor { tensor } => {
                said.append("no tensor named '");
                said.append(tensor.as_str());
                said.append("'");
            },
            Failure::UnsupportedType(dtype) => {
                said.append("dtype ");
                said.append(dtype_name(*dtype));
                said.append(" not supported yet");
            },
            Failure::PartialTensor { tensor, elements, block } => {
                said.append("tensor '");
                said.append(tensor.as_str());
                said.append("' has ");
                push_decimal(&mut said, *elements as u64);
                said.append(" elements, not a multiple of block size ");
                push_decimal(&mut said, *block as u64);
            },
            Failure::PartialBlock { dtype, elements, block } => {
                said.append(type_prefix(*dtype));
                said.append("element count ");
                push_decimal(&mut said, *elements as u64);
                said.append(" is not a multiple of ");
                push_decimal(&mut said, *block as u64);
            },
            Failure::SizeOverflow => {
                said.append("tensor size does not fit in memory");
            },
            Failure::PastEndOfFile { tensor, at, size, file_len } => {
                said.append("tensor '");
                said.append(tensor.as_str());
                said.append("' data [");
                push_long(&mut said, *at);
                said.append(", ");
                push_long(&mut said, *at);
                said.append("+");
                push_decimal(&mut said, *size as u64);
                said.append(") runs past end of file (");
                push_decimal(&mut said, *file_len as u64);
                said.append(" bytes)");
            },
            Failure::WrongLength { dtype, bytes, blocks, block_bytes } => {
                said.append(type_prefix(*dtype));
                said.append("data is ");
                push_decimal(&mut said, *bytes as u64);
                said.append(" bytes, expected ");
                push_product(&mut said, *blocks, *block_bytes);
                push_layout(&mut said, *dtype, *blocks, *block_bytes);
            },
            Failure::NotDecoded(dtype) => {
                said.append("dequantization for ");
                said.append(dtype_name(*dtype));
                said.append(" is not implemented");
            },
            Failure::UnsupportedTokenizer { model } => {
                said.append("tokenizer model '");
                said.append(model.as_str());
                said.append("' not supported (only gpt2 byte-level BPE)");
            },
            Failure::UnsupportedPreTokenizer { pre } => {
                said.append("pre-tokenizer '");
                said.append(pre.as_str());
                said.append("' not supported (only qwen2)");
            },
            Failure::TokenNotAString => {
                said.append("token is not a string");
            },
            Failure::TokenTypeNotAnInteger => {
                said.append("token_type is not an integer");
            },
            Failure::MergeNotAString => {
                said.append("merge is not a string");
            },
            Failure::TokenTypeCount { tokens, types } => {
                push_decimal(&mut said, *tokens as u64);
                said.append(" tokens but ");
                push_decimal(&mut said, *types as u64);
                said.append(" token types");
            },
            Failure::BadPattern => {
                said.append("pre-tokenizer pattern failed to compile");
            },
            Failure::EmptySpecial => {
                said.append("a special token is empty");
            },
            Failure::SplitFailed => {
                said.append("pre-tokenizer regex failed");
            },
            Failure::UnknownSymbol { symbol } => {
                said.append("symbol ");
                let text: String = quoted_text(symbol.as_str());
                said.append(text.as_str());
                said.append(" not in vocab");
            },
            Failure::NoSuchToken(id) => {
                said.append("token id ");
                push_decimal(&mut said, *id as u64);
                said.append(" out of range");
            },
            Failure::UnsupportedArchitecture { architecture } => {
                said.append("architecture '");
                said.append(architecture.as_str());
                said.append("' not supported");
            },
            Failure::UnevenHeads { hidden, heads } => {
                said.append("hidden ");
                push_decimal(&mut said, *hidden as u64);
                said.append(" not divisible by ");
                push_decimal(&mut said, *heads as u64);
                said.append(" heads");
            },
            Failure::NotAMatrix { tensor, dims } => {
                said.append("weight '");
                said.append(tensor.as_str());
                said.append("' is not 2-D: [");
                said.append(dims.as_str());
                said.append("]");
            },
            Failure::EmbeddingShape { out, inn, vocab, hidden } => {
                said.append("token_embd is [");
                push_decimal(&mut said, *out as u64);
                said.append(", ");
                push_decimal(&mut said, *inn as u64);
                said.append("], config says [");
                push_decimal(&mut said, *vocab as u64);
                said.append(", ");
                push_decimal(&mut said, *hidden as u64);
                said.append("]");
            },
            Failure::GateShape { layer, out, inn, ffn, hidden } => {
                said.append("blk.");
                push_decimal(&mut said, *layer as u64);
                said.append(" ffn_gate is [");
                push_decimal(&mut said, *out as u64);
                said.append(", ");
                push_decimal(&mut said, *inn as u64);
                said.append("], expected [");
                push_decimal(&mut said, *ffn as u64);
                said.append(", ");
                push_decimal(&mut said, *hidden as u64);
                said.append("]");
            },
            Failure::HeadShape { out, inn, vocab, hidden } => {
                said.append("lm_head is [");
                push_decimal(&mut said, *out as u64);
                said.append(", ");
                push_decimal(&mut said, *inn as u64);
                said.append("], config says [");
                push_decimal(&mut said, *vocab as u64);
                said.append(", ");
                push_decimal(&mut said, *hidden as u64);
                said.append("]");
            },
            Failure::ContextOverflow { prompt, max_new, cap } => {
                said.append("prompt (");
                push_decimal(&mut said, *prompt as u64);
                said.append(") + max tokens (");
                push_decimal(&mut said, *max_new as u64);
                said.append(") exceeds context cap ");
                push_decimal(&mut said, *cap as u64);
            },
            Failure::NotComparable => {
                said.append("a logit is not a number");
            },
            Failure::Output => {
                said.append("text could not be written");
            },
            Failure::OutOfRange { start, count, elements } => {
                said.append("range [");
                push_decimal(&mut said, *start as u64);
                said.append(", ");
                push_decimal(&mut said, *start as u64);
                said.append("+");
                push_decimal(&mut said, *count as u64);
                said.append(") out of bounds, tensor has ");
                push_decimal(&mut said, *elements as u64);
                said.append(" elements");
            },
            Failure::EmptyRange => {
                said.append("count must be at least 1");
            },
            Failure::BadTokenId { piece } => {
                said.append("bad token id '");
                said.append(piece.as_str());
                said.append("'");
            },
        }
        assert(said@ =~= self@.words());
        said
    }
}

} // verus!
