use furnace::dump::{dtype_name, dump_tensor, format_value, write_dims, FloatText, FloatWriters};
use furnace::error::{FurnaceError, ReadError};
use furnace::float::{Arithmetic, FloatOps};
use furnace::gguf::{GgmlType, GgufFile, GgufValue};
use furnace::perf::Op;
use furnace::quant::dequantize;

fn bits(x: f32) -> u32 {
    x.to_bits()
}

fn number(x: u32) -> f32 {
    f32::from_bits(x)
}

/// The arithmetic of the machine.
fn ops() -> impl Arithmetic {
    FloatOps {
        add: |a: u32, b: u32| bits(number(a) + number(b)),
        sub: |a: u32, b: u32| bits(number(a) - number(b)),
        mul: |a: u32, b: u32| bits(number(a) * number(b)),
        div: |a: u32, b: u32| bits(number(a) / number(b)),
        powf: |a: u32, b: u32| bits(number(a).powf(number(b))),
        exp: |a: u32| bits(number(a).exp()),
        sqrt: |a: u32| bits(number(a).sqrt()),
        sin: |a: u32| bits(number(a).sin()),
        cos: |a: u32| bits(number(a).cos()),
        from_usize: |n: usize| bits(n as f32),
        from_i32: |n: i32| bits(n as f32),
        from_half: |h: u16| bits(half::f16::from_bits(h).to_f32()),
        mark: |_: Op, _: bool| {},
    }
}

fn writers() -> impl FloatText {
    FloatWriters {
        single: |x: u32| format!("{}", f32::from_bits(x)),
        double: |x: u64| format!("{}", f64::from_bits(x)),
    }
}

struct Builder(Vec<u8>);

impl Builder {
    fn u32(&mut self, v: u32) -> &mut Self {
        self.0.extend_from_slice(&v.to_le_bytes());
        self
    }
    fn u64(&mut self, v: u64) -> &mut Self {
        self.0.extend_from_slice(&v.to_le_bytes());
        self
    }
    fn string(&mut self, s: &str) -> &mut Self {
        self.u64(s.len() as u64);
        self.0.extend_from_slice(s.as_bytes());
        self
    }
}

/// Two metadata entries, a quantized tensor of 96 numbers, one of 6 numbers at full precision, and
/// one of a type that is not decoded.
fn small_file() -> Vec<u8> {
    let mut b = Builder(Vec::new());
    b.0.extend_from_slice(b"GGUF");
    b.u32(3).u64(3).u64(2);
    b.string("general.name").u32(8).string("tiny");
    b.string("a.scale").u32(6).u32(0.5f32.to_bits());
    b.string("w").u32(2).u64(32).u64(3).u32(8).u64(0);
    b.string("v").u32(1).u64(6).u32(0).u64(128);
    b.string("h").u32(1).u64(4).u32(1).u64(160);
    while b.0.len() % 32 != 0 {
        b.0.push(0);
    }
    let start = b.0.len();
    for block in 0..3u8 {
        b.0.extend_from_slice(&half::f16::from_f32(0.25 * (block + 1) as f32).to_le_bytes());
        for i in 0..32u8 {
            b.0.push(i.wrapping_sub(16));
        }
    }
    b.0.resize(start + 128, 0);
    for i in 0..6 {
        b.0.extend_from_slice(&(i as f32 + 0.5).to_le_bytes());
    }
    b.0.resize(start + 160, 0);
    b.0.extend_from_slice(&[0; 8]);
    b.0
}

#[test]
fn file_is_written_out() {
    let bytes = small_file();
    let file = GgufFile::open(&bytes).ok().unwrap();
    let head = format!("gguf version 3 | 2 metadata keys | 3 tensors | data starts at byte {}\n", file.data_start);
    let meta = "\nmetadata:\n  a.scale = 0.5\n  general.name = \"tiny\"\n";
    let mut table = String::from("\ntensors (dims in ggml order, fastest-varying first):\n");
    for (i, (name, dims, dtype, offset)) in
        [("w", "32, 3", "Q8_0", 0), ("v", "6", "F32", 128), ("h", "4", "F16", 160)].iter().enumerate()
    {
        table.push_str(&format!("  {:4}  {:40}  [{}]  {}  offset {}\n", i, name, dims, dtype, offset));
    }
    assert_eq!(file.dump(true, &writers()), format!("{}{}{}", head, meta, table));
    assert_eq!(file.dump(false, &writers()), format!("{}{}", head, table));
}

#[test]
fn values_are_written() {
    let text = |v: &GgufValue| format_value(v, &writers());
    assert_eq!(text(&GgufValue::U8(200)), "200");
    assert_eq!(text(&GgufValue::I8(-5)), "-5");
    assert_eq!(text(&GgufValue::I64(i64::MIN)), "-9223372036854775808");
    assert_eq!(text(&GgufValue::U64(u64::MAX)), "18446744073709551615");
    assert_eq!(text(&GgufValue::Bool(true)), "true");
    assert_eq!(text(&GgufValue::Bool(false)), "false");
    assert_eq!(text(&GgufValue::F32(1.5f32.to_bits())), "1.5");
    assert_eq!(text(&GgufValue::F64((-0.25f64).to_bits())), "-0.25");
    assert_eq!(text(&GgufValue::String("a\n\"b\"".into())), "\"a\\n\\\"b\\\"\"");
    // cut off at 80 bytes, and not within a character
    let long = format!("{}\u{928}\u{928}", "x".repeat(78));
    assert_eq!(text(&GgufValue::String(long)), format!("\"{}\"", "x".repeat(78)));
    let list = |n: u32| GgufValue::Array((0..n).map(GgufValue::U32).collect());
    assert_eq!(text(&list(0)), "[] (0 items)");
    assert_eq!(text(&list(2)), "[0, 1] (2 items)");
    assert_eq!(text(&list(8)), "[0, 1, 2, 3, 4, 5, 6, 7] (8 items)");
    assert_eq!(text(&list(9)), "[0, 1, 2, 3, 4, 5, 6, 7, ...] (9 items)");
    assert_eq!(write_dims(&[3, 4, 5]), "3, 4, 5");
    assert_eq!(dtype_name(GgmlType::Q4K), "Q4K");
}

#[test]
fn numbers_of_a_tensor_are_those_of_the_whole() {
    let bytes = small_file();
    let file = GgufFile::open(&bytes).ok().unwrap();
    let (info, raw) = file.tensor("w").ok().unwrap();
    let all = dequantize(&ops(), info.dtype, raw, 96).ok().unwrap();
    for (start, count) in [(0, 96), (0, 1), (95, 1), (31, 2), (30, 40), (32, 32), (33, 63)] {
        let got = dump_tensor(&ops(), &file, "w", start, count).ok().unwrap();
        assert_eq!(got, all[start..start + count]);
    }
    let got = dump_tensor(&ops(), &file, "v", 2, 3).ok().unwrap();
    assert_eq!(got, vec![bits(2.5), bits(3.5), bits(4.5)]);
}

#[test]
fn bad_ranges_are_told_apart() {
    let bytes = small_file();
    let file = GgufFile::open(&bytes).ok().unwrap();
    let fault = |name: &str, start: usize, count: usize| dump_tensor(&ops(), &file, name, start, count).err().unwrap();
    assert_eq!(fault("w", 96, 1), FurnaceError::OutOfRange { start: 96, count: 1, elements: 96 });
    assert_eq!(
        fault("w", 1, usize::MAX),
        FurnaceError::OutOfRange { start: 1, count: usize::MAX, elements: 96 }
    );
    assert_eq!(fault("w", 96, 0), FurnaceError::EmptyRange);
    assert_eq!(fault("x", 0, 1), FurnaceError::NoSuchTensor { tensor: "x".to_string() });
    // half precision has no known block size here
    assert!(matches!(fault("h", 0, 1), FurnaceError::NotDecoded(_) | FurnaceError::UnsupportedType(_)));
}

#[test]
fn errors_say_what_went_wrong() {
    let words = |e: FurnaceError| e.message();
    assert_eq!(words(FurnaceError::Read(ReadError::UnexpectedEof { need: 8, offset: 12 })), "unexpected EOF: need 8 bytes at offset 12");
    assert_eq!(words(FurnaceError::BadMagic(0x47, 0x0a, 0xff, 0)), "not a GGUF file (bad magic [47, 0a, ff, 00])");
    assert_eq!(words(FurnaceError::UnsupportedVersion(1)), "unsupported GGUF version 1 (only 2 and 3)");
    assert_eq!(words(FurnaceError::NotDecoded(GgmlType::Q2K)), "dequantization for Q2K is not implemented");
    assert_eq!(words(FurnaceError::TokenTypeCount { tokens: 3, types: 2 }), "3 tokens but 2 token types");
    assert_eq!(words(FurnaceError::NoSuchToken(9)), "token id 9 out of range");
    assert_eq!(
        words(FurnaceError::ContextOverflow { prompt: 5, max_new: 6, cap: 10 }),
        "prompt (5) + max tokens (6) exceeds context cap 10"
    );
    assert_eq!(
        words(FurnaceError::OutOfRange { start: 1, count: 2, elements: 2 }),
        "range [1, 1+2) out of bounds, tensor has 2 elements"
    );
    assert_eq!(words(FurnaceError::EmptyRange), "count must be at least 1");
    assert_eq!(words(FurnaceError::Read(ReadError::InvalidUtf8)), "string is not valid UTF-8");
}

#[test]
fn errors_name_what_they_are_about() {
    let words = |e: FurnaceError| e.message();
    let name = |s: &str| s.to_string();
    assert_eq!(words(FurnaceError::NotAString { key: name("a.b") }), "metadata key 'a.b' missing or not a string");
    assert_eq!(words(FurnaceError::NotAnArray { key: name("a.b") }), "metadata key 'a.b' missing or not an array");
    assert_eq!(words(FurnaceError::NoSuchTensor { tensor: name("w") }), "no tensor named 'w'");
    assert_eq!(
        words(FurnaceError::UnsupportedTokenizer { model: name("llama") }),
        "tokenizer model 'llama' not supported (only gpt2 byte-level BPE)"
    );
    assert_eq!(
        words(FurnaceError::UnsupportedPreTokenizer { pre: name("llama") }),
        "pre-tokenizer 'llama' not supported (only qwen2)"
    );
    assert_eq!(
        words(FurnaceError::UnsupportedArchitecture { architecture: name("llama") }),
        "architecture 'llama' not supported"
    );
    assert_eq!(words(FurnaceError::UnknownSymbol { symbol: name("a\"b") }), "symbol \"a\\\"b\" not in vocab");
    assert_eq!(words(FurnaceError::BadTokenId { piece: name(" 2x") }), "bad token id ' 2x'");
    assert_eq!(
        words(FurnaceError::NotAMatrix { tensor: name("w"), dims: name("2, 3, 4") }),
        "weight 'w' is not 2-D: [2, 3, 4]"
    );
    assert_eq!(
        words(FurnaceError::EmbeddingShape { out: 1, inn: 2, vocab: 3, hidden: 4 }),
        "token_embd is [1, 2], config says [3, 4]"
    );
    assert_eq!(
        words(FurnaceError::GateShape { layer: 7, out: 1, inn: 2, ffn: 3, hidden: 4 }),
        "blk.7 ffn_gate is [1, 2], expected [3, 4]"
    );
    assert_eq!(
        words(FurnaceError::HeadShape { out: 1, inn: 2, vocab: 3, hidden: 4 }),
        "lm_head is [1, 2], config says [3, 4]"
    );
    assert_eq!(
        words(FurnaceError::PartialBlock { dtype: GgmlType::Q8_0, elements: 31, block: 32 }),
        "Q8_0 element count 31 is not a multiple of 32"
    );
    assert_eq!(
        words(FurnaceError::PartialBlock { dtype: GgmlType::Q4K, elements: 31, block: 256 }),
        "element count 31 is not a multiple of 256"
    );
    assert_eq!(
        words(FurnaceError::WrongLength { dtype: GgmlType::F32, bytes: 5, blocks: 2, block_bytes: 4 }),
        "F32 data is 5 bytes, expected 8"
    );
    assert_eq!(
        words(FurnaceError::WrongLength { dtype: GgmlType::Q8_0, bytes: 5, blocks: 2, block_bytes: 34 }),
        "Q8_0 data is 5 bytes, expected 68 (2 blocks of 34)"
    );
    assert_eq!(
        words(FurnaceError::WrongLength { dtype: GgmlType::Q6K, bytes: 5, blocks: 1, block_bytes: 210 }),
        "data is 5 bytes, expected 210 (1 blocks of 210)"
    );
}
