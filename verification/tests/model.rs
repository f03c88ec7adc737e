use furnace::attention::{attention_apply, attention_scores, linear, rope};
use furnace::error::FurnaceError;
use furnace::float::{Arithmetic, FloatOps};
use furnace::generate::{argmax, check_run, check_run_uncached, generate, generate_uncached, Event};
use furnace::gguf::{GgmlType, GgufFile};
use furnace::model::{embed, layer_forward, layer_forward_cached, KvCache};
use furnace::perf::Op;
use furnace::quant::dequantize;
use furnace::sampler::Sampler;
use furnace::tensor::Tensor;
use furnace::tokenizer::Tokenizer;
use furnace::weights::{load_weight, Config, Layer, Model, Weight};

fn bits(x: f32) -> u32 {
    x.to_bits()
}

fn number(x: u32) -> f32 {
    f32::from_bits(x)
}

fn bits_of(x: &[f32]) -> Vec<u32> {
    x.iter().map(|v| v.to_bits()).collect()
}

fn numbers_of(x: &[u32]) -> Vec<f32> {
    x.iter().map(|v| f32::from_bits(*v)).collect()
}

/// The arithmetic of the machine.
fn ops() -> impl Arithmetic {
    FloatOps {
        add: |a: u32, b: u32| bits(number(a) + number(b)),
        sub: |a: u32, b: u32| bits(number(a) - number(b)),
        mul: |a: u32, b: u32| bits(number(a) * number(b)),
        div: |a: u32, b: u32| bits(number(a) / number(b)),
        powf: |a: u32, b: u32| bits(number(a).powf(number(b))),
        exp: |a: u32| bits(number(a).exp()),
        sqrt: |a: u32| bits(number(a).sqrt()),
        sin: |a: u32| bits(number(a).sin()),
        cos: |a: u32| bits(number(a).cos()),
        from_usize: |n: usize| bits(n as f32),
        from_i32: |n: i32| bits(n as f32),
        from_half: |h: u16| bits(half::f16::from_bits(h).to_f32()),
        mark: |_: Op, _: bool| {},
    }
}

fn tensor(data: &[f32], shape: Vec<usize>) -> Tensor {
    Tensor::from_vec(bits_of(data), shape)
}

fn assert_close(got: &[f32], want: &[f32], tol: f32) {
    assert_eq!(got.len(), want.len());
    for (i, (&g, &w)) in got.iter().zip(want).enumerate() {
        assert!((g - w).abs() <= tol, "element {}: got {}, want {}", i, g, w);
    }
}

#[test]
fn rope_position_zero_is_identity() {
    // row 0 is position 0: all angles are 0, rotation is identity
    let mut x = tensor(&[1., 2., 3., 4.], vec![1, 4]);
    rope(&ops(), &mut x, 1, 4, bits(1e6), 0);
    assert_eq!(numbers_of(&x.data), vec![1., 2., 3., 4.]);
}

#[test]
fn rope_known_vector_at_position_one() {
    // head_dim 4, theta 4: pair (x0,x2) rotates by pos*4^0 = 1 rad,
    // pair (x1,x3) by pos*4^(-1/2) = 0.5 rad. At pos 1, x = [1,2,3,4]:
    //   x0' = 1*cos1 - 3*sin1 = 0.5403023 - 2.5244131 = -1.9841108
    //   x1' = 2*cos.5 - 4*sin.5 = 1.7551652 - 1.9177020 = -0.1625368
    //   x2' = 1*sin1 + 3*cos1 = 0.8414710 + 1.6209068 =  2.4623778
    //   x3' = 2*sin.5 + 4*cos.5 = 0.9588511 + 3.5103304 = 4.4691815
    let mut x = tensor(&[9., 9., 9., 9., 1., 2., 3., 4.], vec![2, 4]);
    rope(&ops(), &mut x, 1, 4, bits(4.0), 0);
    assert_close(&numbers_of(&x.data[4..]), &[-1.9841108, -0.1625368, 2.4623778, 4.4691815], 1e-5);
}

#[test]
fn rope_goes_by_the_absolute_position() {
    let mut whole = tensor(&[9., 9., 9., 9., 1., 2., 3., 4.], vec![2, 4]);
    rope(&ops(), &mut whole, 1, 4, bits(4.0), 0);
    let mut row = tensor(&[1., 2., 3., 4.], vec![1, 4]);
    rope(&ops(), &mut row, 1, 4, bits(4.0), 1);
    assert_eq!(row.data, whole.data[4..].to_vec());
}

#[test]
fn causal_mask_zeroes_future_tokens() {
    let q = tensor(&[1., 0., 0., 1., 1., 1.], vec![3, 2]);
    let k = tensor(&[1., 1., 0., 1., 1., 0.], vec![3, 2]);
    let probs = attention_scores(&ops(), &q, &k, 1, 1, 2);
    assert_eq!(probs.shape, vec![1, 3, 3]);
    let data = numbers_of(&probs.data);
    // token 0 may only see itself: probability exactly 1, futures exactly 0
    assert_eq!(data[0], 1.0);
    assert_eq!(data[1], 0.0);
    assert_eq!(data[2], 0.0);
    // token 1 must not see token 2
    assert_eq!(data[5], 0.0);
    // every row sums to 1
    for row in data.chunks_exact(3) {
        let sum: f32 = row.iter().sum();
        assert!((sum - 1.0).abs() < 1e-6, "row sums to {}", sum);
    }
}

/// Deterministic pseudo-random values, same every run.
fn fill(n: usize, salt: f32) -> Vec<f32> {
    (0..n).map(|i| ((i as f32 * 0.37 + salt).sin()) * 0.5).collect()
}

fn filled(n: usize, salt: f32, shape: Vec<usize>) -> Tensor {
    tensor(&fill(n, salt), shape)
}

fn tiny_config() -> Config {
    Config {
        n_layers: 1,
        n_heads: 2,
        n_kv_heads: 1,
        hidden: 8,
        ffn: 16,
        head_dim: 4,
        rope_theta: bits(100.0),
        rms_eps: bits(1e-6),
        vocab: 1,
        context_length: 32,
    }
}

fn tiny_layer(c: &Config) -> Layer<'static> {
    let (h, f, qd, kd) = (c.hidden, c.ffn, c.n_heads * c.head_dim, c.n_kv_heads * c.head_dim);
    Layer {
        attn_norm: filled(h, 1.0, vec![h]),
        wq: Weight::F32(filled(qd * h, 2.0, vec![qd, h])),
        bq: filled(qd, 3.0, vec![qd]),
        wk: Weight::F32(filled(kd * h, 4.0, vec![kd, h])),
        bk: filled(kd, 5.0, vec![kd]),
        wv: Weight::F32(filled(kd * h, 6.0, vec![kd, h])),
        bv: filled(kd, 7.0, vec![kd]),
        wo: Weight::F32(filled(h * qd, 8.0, vec![h, qd])),
        ffn_norm: filled(h, 9.0, vec![h]),
        w_gate: Weight::F32(filled(f * h, 10.0, vec![f, h])),
        w_up: Weight::F32(filled(f * h, 11.0, vec![f, h])),
        w_down: Weight::F32(filled(h * f, 12.0, vec![h, f])),
    }
}

#[test]
fn cached_path_is_bit_identical_to_uncached() {
    // 3-token prefill + 2 single-token decode steps must equal one
    // 5-token uncached forward EXACTLY: both paths execute the same
    // dot products in the same order, so even f32 rounding agrees.
    let config = tiny_config();
    let layer = tiny_layer(&config);
    let x = filled(5 * config.hidden, 20.0, vec![5, config.hidden]);

    let uncached = layer_forward(&ops(), &x, &layer, &config);

    let mut cache = KvCache::new(&config, 32);
    let prefill_in = Tensor::from_vec(x.data[..3 * config.hidden].to_vec(), vec![3, config.hidden]);
    let prefill_out = layer_forward_cached(&ops(), &prefill_in, &layer, &config, &mut cache, 0, 0);
    cache.len = 3;
    // prefill rows must already match rows 0..3
    assert_eq!(prefill_out.data, uncached.data[..3 * config.hidden]);

    for s in 3..5 {
        let row = Tensor::from_vec(
            x.data[s * config.hidden..(s + 1) * config.hidden].to_vec(),
            vec![1, config.hidden],
        );
        let start = cache.len;
        let out = layer_forward_cached(&ops(), &row, &layer, &config, &mut cache, 0, start);
        cache.len += 1;
        assert_eq!(
            out.data,
            uncached.data[s * config.hidden..(s + 1) * config.hidden],
            "decode step for position {} diverged from uncached",
            s
        );
    }
}

#[test]
fn gqa_maps_q_heads_to_shared_kv_heads() {
    // 4 Q heads, 2 KV heads, head_dim 2, seq 1: probs are trivially 1,
    // so out head h must equal V of KV head h/2:
    // heads 0,1 -> kv0 = [10,20]; heads 2,3 -> kv1 = [30,40]
    let q = tensor(&[1.; 8], vec![1, 8]);
    let k = tensor(&[1.; 4], vec![1, 4]);
    let v = tensor(&[10., 20., 30., 40.], vec![1, 4]);
    let probs = attention_scores(&ops(), &q, &k, 4, 2, 2);
    let out = attention_apply(&ops(), &probs, &v, 4, 2, 2);
    assert_eq!(out.shape, vec![1, 8]);
    assert_eq!(numbers_of(&out.data), vec![10., 20., 10., 20., 30., 40., 30., 40.]);
}

#[test]
fn later_tokens_change_nothing() {
    let config = tiny_config();
    let layer = tiny_layer(&config);
    let x = filled(5 * config.hidden, 20.0, vec![5, config.hidden]);
    let whole = layer_forward(&ops(), &x, &layer, &config);
    for n in 1..5 {
        let first = Tensor::from_vec(x.data[..n * config.hidden].to_vec(), vec![n, config.hidden]);
        let out = layer_forward(&ops(), &first, &layer, &config);
        assert_eq!(out.data, whole.data[..n * config.hidden]);
    }
}

#[test]
fn zeros_are_neutral_in_the_machine() {
    let f = ops();
    let zero = bits(0.0);
    let minus_zero = bits(-0.0);
    for x in [1.5f32, -1.5, 0.0, -0.0, f32::MAX, f32::MIN_POSITIVE, f32::INFINITY, f32::NEG_INFINITY, 1e-45] {
        assert_eq!(f.plus(bits(x), minus_zero), bits(x));
        if bits(x) != minus_zero {
            assert_eq!(f.plus(bits(x), zero), bits(x));
        }
        if x > 0.0 {
            assert_eq!(f.over(zero, bits(x)), zero);
        }
        if x.is_finite() {
            let want = if x.is_sign_negative() { minus_zero } else { zero };
            assert_eq!(f.times(zero, bits(x)), want);
        }
        if x != f32::NEG_INFINITY {
            assert_eq!(f.exp(f.minus(bits(f32::NEG_INFINITY), bits(x))), zero);
        }
    }
    assert_eq!(f.plus(bits(2.0), bits(-2.0)), zero);
}

#[test]
fn linear_adds_the_bias_to_each_row() {
    let w = Weight::F32(tensor(&[1., 2., 3., 4., 5., 6.], vec![3, 2]));
    let x = tensor(&[1., 1., 2., 0.], vec![2, 2]);
    let b = tensor(&[10., 20., 30.], vec![3]);
    let out = linear(&ops(), &x, &w, Some(&b));
    assert_eq!(out.shape, vec![2, 3]);
    assert_eq!(numbers_of(&out.data), vec![13., 27., 41., 12., 26., 40.]);
    let out = linear(&ops(), &x, &w, None);
    assert_eq!(numbers_of(&out.data), vec![3., 7., 11., 2., 6., 10.]);
}

#[test]
fn cache_reads_back_what_was_appended() {
    let config = tiny_config();
    let mut cache = KvCache::new(&config, 4);
    assert_eq!(cache.bytes(), 2 * 1 * 4 * 4 * 4);
    let (k, v) = cache.layer(0, 4);
    assert_eq!(k, &[0u32; 16][..]);
    assert_eq!(v, &[0u32; 16][..]);
    cache.append(0, 0, &[1, 2, 3, 4, 5, 6, 7, 8], &[11, 12, 13, 14, 15, 16, 17, 18], 2);
    cache.append(0, 2, &[21, 22, 23, 24], &[31, 32, 33, 34], 1);
    let (k, v) = cache.layer(0, 3);
    assert_eq!(k, &[1, 2, 3, 4, 5, 6, 7, 8, 21, 22, 23, 24][..]);
    assert_eq!(v, &[11, 12, 13, 14, 15, 16, 17, 18, 31, 32, 33, 34][..]);
}

#[test]
fn quantized_embedding_rows_are_those_of_the_whole() {
    // 3 rows of 64 numbers, two blocks each
    let mut raw: Vec<u8> = Vec::new();
    for b in 0..6u8 {
        raw.extend_from_slice(&half::f16::from_f32(0.5 + b as f32).to_le_bytes());
        for i in 0..32u8 {
            raw.push(i.wrapping_mul(7).wrapping_add(b));
        }
    }
    let all = dequantize(&ops(), GgmlType::Q8_0, &raw, 192).ok().unwrap();
    let w = Weight::Quant { raw: &raw, dtype: GgmlType::Q8_0, out: 3, inn: 64 };
    let x = embed(&ops(), &w, &[2, 0, 1, 2]);
    assert_eq!(x.shape, vec![4, 64]);
    assert_eq!(x.data[..64], all[128..]);
    assert_eq!(x.data[64..128], all[..64]);
    assert_eq!(x.data[128..192], all[64..128]);
    assert_eq!(x.data[192..], all[128..]);
}

// ---------------------------------------------------------------------------
// A small model in a file.
// ---------------------------------------------------------------------------

struct Builder(Vec<u8>);

impl Builder {
    fn u32(&mut self, v: u32) -> &mut Self {
        self.0.extend_from_slice(&v.to_le_bytes());
        self
    }
    fn u64(&mut self, v: u64) -> &mut Self {
        self.0.extend_from_slice(&v.to_le_bytes());
        self
    }
    fn string(&mut self, s: &str) -> &mut Self {
        self.u64(s.len() as u64);
        self.0.extend_from_slice(s.as_bytes());
        self
    }
    fn meta_u32(&mut self, key: &str, v: u32) -> &mut Self {
        self.string(key).u32(4).u32(v)
    }
}

/// The characters that stand for bytes in tokens.
fn byte_char(b: u8) -> char {
    let printable = |b: u8| (33..=126).contains(&b) || (161..=172).contains(&b) || b >= 174;
    if printable(b) {
        return b as char;
    }
    let before = (0..b).filter(|x| !printable(*x)).count() as u32;
    char::from_u32(256 + before).unwrap()
}

/// What a file says, where it differs from the small model.
#[derive(Clone, Default)]
struct Twist {
    architecture: Option<&'static str>,
    heads: Option<u32>,
    context: Option<u32>,
    embedding_rows: Option<u64>,
    gate_rows: Option<u64>,
    head_rows: Option<u64>,
    flat_gate: bool,
    missing: Option<&'static str>,
    quantized: bool,
    no_merge_key: bool,
    tokenizer: Option<&'static str>,
    pre: Option<&'static str>,
    bad_token: bool,
    bad_type: bool,
    bad_merge: bool,
    types: Option<usize>,
}

const HIDDEN: u64 = 32;
const FFN: u64 = 64;
const VOCAB: u64 = 257;

/// A model with two layers whose tokens are the 256 bytes and an end token.
fn model_file(t: &Twist) -> Vec<u8> {
    let mut b = Builder(Vec::new());
    let mut meta = Builder(Vec::new());
    let mut n_meta = 0u64;
    meta.string("general.architecture").u32(8).string(t.architecture.unwrap_or("qwen2"));
    meta.meta_u32("qwen2.block_count", 2);
    meta.meta_u32("qwen2.attention.head_count", t.heads.unwrap_or(4));
    meta.meta_u32("qwen2.attention.head_count_kv", 2);
    meta.meta_u32("qwen2.embedding_length", HIDDEN as u32);
    meta.meta_u32("qwen2.feed_forward_length", FFN as u32);
    meta.meta_u32("qwen2.context_length", t.context.unwrap_or(64));
    meta.string("qwen2.rope.freq_base").u32(6).u32(bits(10000.0));
    meta.string("qwen2.attention.layer_norm_rms_epsilon").u32(6).u32(bits(1e-6));
    meta.string("tokenizer.ggml.model").u32(8).string(t.tokenizer.unwrap_or("gpt2"));
    meta.string("tokenizer.ggml.pre").u32(8).string(t.pre.unwrap_or("qwen2"));
    n_meta += 11;
    if t.bad_token {
        meta.string("tokenizer.ggml.tokens").u32(9).u32(4).u64(VOCAB);
        for _ in 0..VOCAB {
            meta.u32(1);
        }
    } else {
        meta.string("tokenizer.ggml.tokens").u32(9).u32(8).u64(VOCAB);
        for i in 0..=255u8 {
            meta.string(&byte_char(i).to_string());
        }
        meta.string("<|end|>");
    }
    let types = t.types.unwrap_or(VOCAB as usize);
    if t.bad_type {
        meta.string("tokenizer.ggml.token_type").u32(9).u32(8).u64(1).string("x");
    } else {
        meta.string("tokenizer.ggml.token_type").u32(9).u32(5).u64(types as u64);
        for i in 0..types {
            meta.u32(if i == 256 { 3 } else { 1 });
        }
    }
    n_meta += 2;
    if !t.no_merge_key {
        if t.bad_merge {
            meta.string("tokenizer.ggml.merges").u32(9).u32(4).u64(1).u32(1);
        } else {
            meta.string("tokenizer.ggml.merges").u32(9).u32(8).u64(0);
        }
        n_meta += 1;
    }

    // name, dims (fastest first), salt
    let mut list: Vec<(String, Vec<u64>, f32)> = Vec::new();
    list.push(("token_embd.weight".into(), vec![HIDDEN, t.embedding_rows.unwrap_or(VOCAB)], 0.5));
    for l in 0..2u64 {
        let s = l as f32 * 20.0;
        let name = |x: &str| format!("blk.{}.{}", l, x);
        list.push((name("attn_norm.weight"), vec![HIDDEN], s + 1.0));
        list.push((name("attn_q.weight"), vec![HIDDEN, HIDDEN], s + 2.0));
        list.push((name("attn_q.bias"), vec![HIDDEN], s + 3.0));
        list.push((name("attn_k.weight"), vec![HIDDEN, HIDDEN / 2], s + 4.0));
        list.push((name("attn_k.bias"), vec![HIDDEN / 2], s + 5.0));
        list.push((name("attn_v.weight"), vec![HIDDEN, HIDDEN / 2], s + 6.0));
        list.push((name("attn_v.bias"), vec![HIDDEN / 2], s + 7.0));
        list.push((name("attn_output.weight"), vec![HIDDEN, HIDDEN], s + 8.0));
        list.push((name("ffn_norm.weight"), vec![HIDDEN], s + 9.0));
        if t.flat_gate {
            list.push((name("ffn_gate.weight"), vec![HIDDEN * FFN], s + 10.0));
        } else {
            list.push((name("ffn_gate.weight"), vec![HIDDEN, t.gate_rows.unwrap_or(FFN)], s + 10.0));
        }
        list.push((name("ffn_up.weight"), vec![HIDDEN, FFN], s + 11.0));
        list.push((name("ffn_down.weight"), vec![FFN, HIDDEN], s + 12.0));
    }
    list.push(("output_norm.weight".into(), vec![HIDDEN], 50.0));
    if let Some(rows) = t.head_rows {
        list.push(("output.weight".into(), vec![HIDDEN, rows], 60.0));
    }
    list.retain(|x| Some(x.0.as_str()) != t.missing);

    b.0.extend_from_slice(b"GGUF");
    b.u32(3).u64(list.len() as u64).u64(n_meta);
    b.0.extend_from_slice(&meta.0);
    let mut data: Vec<u8> = Vec::new();
    for (name, dims, salt) in &list {
        let n: u64 = dims.iter().product();
        let quant = t.quantized && name.ends_with("weight") && !name.contains("norm");
        b.string(name).u32(dims.len() as u32);
        for d in dims {
            b.u64(*d);
        }
        b.u32(if quant { 8 } else { 0 }).u64(data.len() as u64);
        let values = fill(n as usize, *salt);
        if quant {
            for block in values.chunks_exact(32) {
                let scale = half::f16::from_f32(1.0 / 256.0);
                data.extend_from_slice(&scale.to_le_bytes());
                for v in block {
                    data.push((v * 254.0) as i8 as u8);
                }
            }
        } else {
            for v in &values {
                data.extend_from_slice(&v.to_le_bytes());
            }
        }
        while data.len() % 32 != 0 {
            data.push(0);
        }
    }
    while b.0.len() % 32 != 0 {
        b.0.push(0);
    }
    b.0.extend_from_slice(&data);
    b.0
}

fn load_error(t: &Twist) -> FurnaceError {
    let bytes = model_file(t);
    let file = GgufFile::open(&bytes).ok().unwrap();
    let r = Model::load(&ops(), &file, false).err().unwrap();
    r
}

#[test]
fn model_is_loaded_from_a_file() {
    for quantized in [false, true] {
        let bytes = model_file(&Twist { quantized, ..Twist::default() });
        let file = GgufFile::open(&bytes).ok().unwrap();
        let m = Model::load(&ops(), &file, false).ok().unwrap();
        assert_eq!(m.config.n_layers, 2);
        assert_eq!(m.config.head_dim, 8);
        assert_eq!(m.config.vocab, 257);
        assert_eq!(number(m.config.rope_theta), 10000.0);
        assert_eq!(m.layers.len(), 2);
        // tied to the embedding where the file has no head
        assert_eq!(m.lm_head.out_dim(), 257);
        assert_eq!(m.lm_head.in_dim(), 32);
        assert_eq!(matches!(m.embedding, Weight::Quant { .. }), quantized);
        assert!(m.check());
        assert!(m.check_tokens(&[0, 256]));
        assert!(!m.check_tokens(&[257]));
        assert!(check_run(&m, &[1, 2], 5));
        assert!(!check_run(&m, &[], 5));
        assert!(!check_run(&m, &[300], 5));
        // a run that does not fit ends at once, whatever the prompt is
        assert!(check_run(&m, &[300], 64));
        assert!(check_run_uncached(&m, &[1, 2], 5));
        assert!(!check_run_uncached(&m, &[], 5));
        assert!(check_run_uncached(&m, &[], 0));
        assert!(!check_run_uncached(&m, &[1, 2], usize::MAX));
        let weights: usize = 257 * 32 * 2 + 2 * (32 * 32 * 2 + 16 * 32 * 2 + 3 * 64 * 32);
        let small: usize = 2 * (32 * 3 + 16 * 2) + 32;
        let per: usize = if quantized { weights / 32 * 34 } else { weights * 4 };
        assert_eq!(m.param_bytes(), per + small * 4);
    }
}

#[test]
fn full_precision_is_loaded_on_request() {
    let bytes = model_file(&Twist { quantized: true, ..Twist::default() });
    let file = GgufFile::open(&bytes).ok().unwrap();
    let m = Model::load(&ops(), &file, true).ok().unwrap();
    assert!(matches!(m.embedding, Weight::F32(_)));
    // the same numbers as those of the quantized rows
    let q = load_weight(&ops(), &file, "token_embd.weight", false).ok().unwrap();
    let tokens = [0u32, 5, 256];
    assert_eq!(embed(&ops(), &m.embedding, &tokens).data, embed(&ops(), &q, &tokens).data);
}

#[test]
fn model_faults_are_told_apart() {
    assert_eq!(load_error(&Twist { architecture: Some("llama"), ..Twist::default() }), FurnaceError::UnsupportedArchitecture { architecture: "llama".to_string() });
    assert_eq!(
        load_error(&Twist { heads: Some(5), ..Twist::default() }),
        FurnaceError::UnevenHeads { hidden: 32, heads: 5 }
    );
    assert_eq!(
        load_error(&Twist { embedding_rows: Some(256), ..Twist::default() }),
        FurnaceError::EmbeddingShape { out: 256, inn: 32, vocab: 257, hidden: 32 }
    );
    assert_eq!(
        load_error(&Twist { gate_rows: Some(63), ..Twist::default() }),
        FurnaceError::GateShape { layer: 0, out: 63, inn: 32, ffn: 64, hidden: 32 }
    );
    assert_eq!(
        load_error(&Twist { head_rows: Some(3), ..Twist::default() }),
        FurnaceError::HeadShape { out: 3, inn: 32, vocab: 257, hidden: 32 }
    );
    assert_eq!(
        load_error(&Twist { flat_gate: true, quantized: true, ..Twist::default() }),
        FurnaceError::NotAMatrix { tensor: "blk.0.ffn_gate.weight".to_string(), dims: "2048".to_string() }
    );
    assert_eq!(
        load_error(&Twist { missing: Some("blk.1.ffn_up.weight"), ..Twist::default() }),
        FurnaceError::NoSuchTensor { tensor: "blk.1.ffn_up.weight".to_string() }
    );
}

#[test]
fn tokenizer_faults_are_told_apart() {
    let fault = |t: &Twist| {
        let bytes = model_file(t);
        let file = GgufFile::open(&bytes).ok().unwrap();
        let r = Tokenizer::from_gguf(&file).err().unwrap();
        r
    };
    let plain = Twist::default();
    assert_eq!(fault(&Twist { tokenizer: Some("llama"), ..plain.clone() }), FurnaceError::UnsupportedTokenizer { model: "llama".to_string() });
    assert_eq!(fault(&Twist { pre: Some("llama"), ..plain.clone() }), FurnaceError::UnsupportedPreTokenizer { pre: "llama".to_string() });
    assert_eq!(fault(&Twist { bad_token: true, ..plain.clone() }), FurnaceError::TokenNotAString);
    assert_eq!(fault(&Twist { bad_type: true, ..plain.clone() }), FurnaceError::TokenTypeNotAnInteger);
    assert_eq!(fault(&Twist { bad_merge: true, ..plain.clone() }), FurnaceError::MergeNotAString);
    assert_eq!(fault(&Twist { no_merge_key: true, ..plain.clone() }), FurnaceError::NotAnArray { key: "tokenizer.ggml.merges".to_string() });
    assert_eq!(
        fault(&Twist { types: Some(256), ..plain.clone() }),
        FurnaceError::TokenTypeCount { tokens: 257, types: 256 }
    );
}

#[test]
fn logits_with_the_cache_are_those_from_scratch() {
    for quantized in [false, true] {
        let bytes = model_file(&Twist { quantized, ..Twist::default() });
        let file = GgufFile::open(&bytes).ok().unwrap();
        let m = Model::load(&ops(), &file, false).ok().unwrap();
        let tokens: Vec<u32> = vec![72, 105, 33, 10, 200, 7];
        let mut cache = KvCache::new(&m.config, 16);
        let first = m.forward_cached(&ops(), &tokens[..3], &mut cache);
        assert_eq!(cache.len, 3);
        assert_eq!(first.shape, vec![1, 257]);
        assert_eq!(first.data, m.forward_last(&ops(), &tokens[..3]).data);
        for n in 3..6 {
            let next = m.forward_cached(&ops(), &tokens[n..n + 1], &mut cache);
            assert_eq!(next.data, m.forward_last(&ops(), &tokens[..n + 1]).data);
        }
        assert_eq!(cache.len, 6);
    }
}

/// What a run hands over.
#[derive(Default, Debug, PartialEq)]
struct Record {
    text: String,
    pieces: usize,
    cache: Option<(usize, usize)>,
    prefilled: Option<usize>,
    decoded: Vec<(usize, usize)>,
    ended: bool,
    refuse_at: Option<usize>,
}

fn record(mut r: Record, e: Event) -> (Record, bool) {
    match e {
        Event::Cache { bytes, positions } => r.cache = Some((bytes, positions)),
        Event::Prefilled { tokens } => r.prefilled = Some(tokens),
        Event::Text(s) => {
            if r.refuse_at == Some(r.pieces) {
                return (r, false);
            }
            r.text.push_str(s);
            r.pieces += 1;
        }
        Event::Decoded { step, positions } => r.decoded.push((step, positions)),
        Event::End => r.ended = true,
    }
    (r, true)
}

fn greedy() -> Sampler {
    Sampler::new(bits(0.0), 40, bits(0.9), bits(1.0), 1)
}

#[test]
fn greedy_run_with_the_cache_is_the_run_without() {
    let bytes = model_file(&Twist::default());
    let file = GgufFile::open(&bytes).ok().unwrap();
    let m = Model::load(&ops(), &file, false).ok().unwrap();
    let tok = Tokenizer::from_gguf(&file).ok().unwrap();
    let prompt = tok.encode("Hi there").ok().unwrap();
    assert_eq!(prompt.len(), 8);
    let mut s = greedy();
    let (a, ra) = generate(&ops(), &m, &tok, prompt.clone(), 6, &[256], &mut s, Record::default(), &record);
    let (b, rb) = generate_uncached(&ops(), &m, &tok, prompt.clone(), 6, &[256], Record::default(), &record);
    let ids = a.ok().unwrap();
    assert_eq!(ids, b.ok().unwrap());
    assert_eq!(ra.text, rb.text);
    assert_eq!(s.draws(), 0);
    assert!(ra.ended && rb.ended);
    // two layers, keys and values, 64 positions of 16 numbers of 4 bytes
    assert_eq!(ra.cache, Some((2 * 2 * 64 * 16 * 4, 64)));
    assert_eq!(ra.prefilled, Some(8));
    // the text is that of the tokens
    assert_eq!(ra.text, tok.decode(&ids).ok().unwrap());
    // the first token is the likeliest
    assert_eq!(ids[0], argmax(&m.forward_last(&ops(), &prompt).data));
    let steps = ids.len();
    assert_eq!(ra.decoded.len(), if steps == 6 { 5 } else { steps });
    assert_eq!(ra.decoded[0], (0, 9));
    assert_eq!(rb.decoded[0], (0, 8));
}

#[test]
fn run_ends_at_a_stop_token() {
    let bytes = model_file(&Twist::default());
    let file = GgufFile::open(&bytes).ok().unwrap();
    let m = Model::load(&ops(), &file, false).ok().unwrap();
    let tok = Tokenizer::from_gguf(&file).ok().unwrap();
    let prompt: Vec<u32> = vec![72, 105];
    let first = argmax(&m.forward_last(&ops(), &prompt).data);
    let mut s = greedy();
    let (r, out) = generate(&ops(), &m, &tok, prompt.clone(), 6, &[first], &mut s, Record::default(), &record);
    assert_eq!(r.ok().unwrap(), Vec::<u32>::new());
    assert_eq!(out.text, "");
    assert!(out.ended);
    let (r, out) = generate_uncached(&ops(), &m, &tok, prompt, 6, &[first], Record::default(), &record);
    assert_eq!(r.ok().unwrap(), Vec::<u32>::new());
    assert!(out.ended);
}

#[test]
fn no_tokens_are_chosen_where_none_are_asked_for() {
    let bytes = model_file(&Twist::default());
    let file = GgufFile::open(&bytes).ok().unwrap();
    let m = Model::load(&ops(), &file, false).ok().unwrap();
    let tok = Tokenizer::from_gguf(&file).ok().unwrap();
    let mut s = greedy();
    let (r, out) = generate(&ops(), &m, &tok, vec![1], 0, &[], &mut s, Record::default(), &record);
    assert_eq!(r.ok().unwrap(), Vec::<u32>::new());
    assert!(out.ended && out.decoded.is_empty() && out.pieces == 1);
}

#[test]
fn run_fails_where_the_context_is_too_small() {
    let bytes = model_file(&Twist { context: Some(8), ..Twist::default() });
    let file = GgufFile::open(&bytes).ok().unwrap();
    let m = Model::load(&ops(), &file, false).ok().unwrap();
    let tok = Tokenizer::from_gguf(&file).ok().unwrap();
    let mut s = greedy();
    let (r, out) = generate(&ops(), &m, &tok, vec![1, 2, 3], 6, &[], &mut s, Record::default(), &record);
    assert_eq!(r.err().unwrap(), FurnaceError::ContextOverflow { prompt: 3, max_new: 6, cap: 8 });
    assert_eq!(out, Record::default());
    // just enough room
    let (r, _) = generate(&ops(), &m, &tok, vec![1, 2, 3], 5, &[], &mut s, Record::default(), &record);
    assert!(r.is_ok());
}

#[test]
fn run_breaks_off_where_text_is_not_taken() {
    let bytes = model_file(&Twist::default());
    let file = GgufFile::open(&bytes).ok().unwrap();
    let m = Model::load(&ops(), &file, false).ok().unwrap();
    let tok = Tokenizer::from_gguf(&file).ok().unwrap();
    let refusing = || Record { refuse_at: Some(1), ..Record::default() };
    let mut s = greedy();
    let (r, out) = generate(&ops(), &m, &tok, vec![72, 105], 6, &[256], &mut s, refusing(), &record);
    assert_eq!(r.err().unwrap(), FurnaceError::Output);
    assert!(!out.ended);
    assert_eq!(out.pieces, 1);
    let (r, out) = generate_uncached(&ops(), &m, &tok, vec![72, 105], 6, &[256], refusing(), &record);
    assert_eq!(r.err().unwrap(), FurnaceError::Output);
    assert!(!out.ended);
}

#[test]
fn sampled_runs_with_one_seed_are_one_run() {
    let bytes = model_file(&Twist::default());
    let file = GgufFile::open(&bytes).ok().unwrap();
    let m = Model::load(&ops(), &file, false).ok().unwrap();
    let tok = Tokenizer::from_gguf(&file).ok().unwrap();
    let run = |seed: u64| {
        let mut s = Sampler::new(bits(5.0), 0, bits(1.0), bits(1.1), seed);
        let (r, _) = generate(&ops(), &m, &tok, vec![72, 105], 12, &[], &mut s, Record::default(), &record);
        (r.ok().unwrap(), s.draws())
    };
    let (a, draws) = run(3);
    assert_eq!(draws, 12);
    assert_eq!(a.len(), 12);
    assert_eq!(a, run(3).0);
    assert_ne!(a, run(4).0);
}

#[test]
fn run_fails_where_logits_cannot_be_compared() {
    let mut bytes = model_file(&Twist::default());
    // the norm in front of the head is not a number
    let n = bytes.len();
    for i in 0..32 {
        let at = n - 128 + i * 4;
        bytes[at..at + 4].copy_from_slice(&f32::NAN.to_le_bytes());
    }
    let file = GgufFile::open(&bytes).ok().unwrap();
    let m = Model::load(&ops(), &file, false).ok().unwrap();
    let tok = Tokenizer::from_gguf(&file).ok().unwrap();
    let mut s = Sampler::new(bits(1.0), 0, bits(1.0), bits(1.0), 3);
    let (r, _) = generate(&ops(), &m, &tok, vec![72, 105], 2, &[], &mut s, Record::default(), &record);
    assert_eq!(r.err().unwrap(), FurnaceError::NotComparable);
}

#[test]
fn finite_numbers_stay_numbers_in_the_machine() {
    let f = ops();
    assert_eq!(f.exp(bits(0.0)), bits(1.0));
    let finite = [1.5f32, -1.5, 0.0, -0.0, f32::MAX, f32::MIN, f32::MIN_POSITIVE, 1e-45, 3e38];
    for x in finite {
        assert_eq!(f.minus(bits(x), bits(x)), bits(0.0));
        for y in finite {
            assert!(!number(f.minus(bits(x), bits(y))).is_nan());
        }
    }
    let numbers = [1.5f32, -1.5, 0.0, -0.0, f32::MAX, f32::MIN, 1e-45, f32::INFINITY, f32::NEG_INFINITY];
    for x in numbers {
        assert!(number(f.exp(bits(x))) >= 0.0);
        for y in numbers {
            if x >= 0.0 && y >= 0.0 {
                let z = number(f.plus(bits(x), bits(y)));
                assert!(z >= x && z >= y);
            }
        }
        assert!(number(f.plus(bits(f32::NAN), bits(x))).is_nan());
    }
}

/// All ways to cut `n` tokens into pieces: a bit for each place between two.
fn cuts(n: usize) -> Vec<Vec<usize>> {
    (0..1usize << (n - 1))
        .map(|mask| {
            let mut ends: Vec<usize> = (1..n).filter(|i| mask >> (i - 1) & 1 == 1).collect();
            ends.push(n);
            ends
        })
        .collect()
}

#[test]
fn block_fed_in_pieces_is_the_block_over_all() {
    let config = tiny_config();
    let layer = tiny_layer(&config);
    let h = config.hidden;
    let x = filled(5 * h, 20.0, vec![5, h]);
    let whole = layer_forward(&ops(), &x, &layer, &config);
    assert_eq!(cuts(5).len(), 16);
    for ends in cuts(5) {
        let mut cache = KvCache::new(&config, 6);
        let mut out: Vec<u32> = Vec::new();
        let mut start = 0;
        for end in ends {
            let piece = Tensor::from_vec(x.data[start * h..end * h].to_vec(), vec![end - start, h]);
            out.extend(layer_forward_cached(&ops(), &piece, &layer, &config, &mut cache, 0, start).data);
            start = end;
        }
        assert_eq!(out, whole.data);
    }
}

#[test]
fn network_fed_in_pieces_gives_the_logits_from_scratch() {
    let bytes = model_file(&Twist::default());
    let file = GgufFile::open(&bytes).ok().unwrap();
    let m = Model::load(&ops(), &file, false).ok().unwrap();
    let tokens: Vec<u32> = vec![72, 105, 33, 10, 200];
    let scratch: Vec<Vec<u32>> = (1..6).map(|n| m.forward_last(&ops(), &tokens[..n]).data).collect();
    for ends in cuts(5) {
        let mut cache = KvCache::new(&m.config, 5);
        let mut start = 0;
        for end in ends {
            let got = m.forward_cached(&ops(), &tokens[start..end], &mut cache);
            assert_eq!(got.data, scratch[end - 1]);
            start = end;
        }
    }
}

#[test]
fn stop_token_cuts_the_run_short() {
    let bytes = model_file(&Twist::default());
    let file = GgufFile::open(&bytes).ok().unwrap();
    let m = Model::load(&ops(), &file, false).ok().unwrap();
    let tok = Tokenizer::from_gguf(&file).ok().unwrap();
    let run = |stop: &[u32]| {
        let mut s = Sampler::new(bits(5.0), 0, bits(1.0), bits(1.1), 3);
        let (r, _) = generate(&ops(), &m, &tok, vec![72, 105], 12, stop, &mut s, Record::default(), &record);
        r.ok().unwrap()
    };
    let all = run(&[]);
    assert_eq!(all.len(), 12);
    for stop in [vec![all[0]], vec![all[4]], vec![all[11]], vec![all[7], all[3]]] {
        let n = all.iter().position(|t| stop.contains(t)).unwrap();
        assert_eq!(run(&stop), all[..n]);
    }
    let greedy_run = |stop: &[u32]| {
        let (r, _) = generate_uncached(&ops(), &m, &tok, vec![72, 105], 6, stop, Record::default(), &record);
        r.ok().unwrap()
    };
    let all = greedy_run(&[]);
    for t in all.clone() {
        let n = all.iter().position(|&u| u == t).unwrap();
        assert_eq!(greedy_run(&[t]), all[..n]);
    }
}

#[test]
fn refused_text_leaves_the_sampler_that_chose_it() {
    let bytes = model_file(&Twist::default());
    let file = GgufFile::open(&bytes).ok().unwrap();
    let m = Model::load(&ops(), &file, false).ok().unwrap();
    let tok = Tokenizer::from_gguf(&file).ok().unwrap();
    let sampler = || Sampler::new(bits(5.0), 0, bits(1.0), bits(1.1), 3);
    for n in 1..5usize {
        // a sampler that chose `n` tokens
        let mut a = sampler();
        let (r, _) = generate(&ops(), &m, &tok, vec![72, 105], n, &[], &mut a, Record::default(), &record);
        assert_eq!(r.ok().unwrap().len(), n);
        // the text of token `n` is refused
        let mut b = sampler();
        let refusing = Record { refuse_at: Some(n - 1), ..Record::default() };
        let (r, out) = generate(&ops(), &m, &tok, vec![72, 105], 12, &[], &mut b, refusing, &record);
        assert_eq!(r.err().unwrap(), FurnaceError::Output);
        assert!(!out.ended);
        assert_eq!(b.draws(), n as u64);
        assert_eq!(b.rng, a.rng);
    }
}

#[test]
fn run_has_full_length_without_stop_tokens() {
    let bytes = model_file(&Twist::default());
    let file = GgufFile::open(&bytes).ok().unwrap();
    let m = Model::load(&ops(), &file, false).ok().unwrap();
    let tok = Tokenizer::from_gguf(&file).ok().unwrap();
    for n in 0..5 {
        let mut s = Sampler::new(bits(2.0), 0, bits(0.95), bits(1.1), 11);
        let (r, _) = generate(&ops(), &m, &tok, vec![72, 105], n, &[], &mut s, Record::default(), &record);
        assert_eq!(r.ok().unwrap().len(), n);
        let (r, _) = generate_uncached(&ops(), &m, &tok, vec![72, 105], n, &[], Record::default(), &record);
        assert_eq!(r.ok().unwrap().len(), n);
    }
}

#[test]
fn head_may_be_smaller_than_the_embedding() {
    let bytes = model_file(&Twist::default());
    let file = GgufFile::open(&bytes).ok().unwrap();
    let mut m = Model::load(&ops(), &file, true).ok().unwrap();
    let tok = Tokenizer::from_gguf(&file).ok().unwrap();
    let all = m.forward_last(&ops(), &[72, 105]).data;
    m.lm_head = match m.lm_head {
        Weight::F32(t) => Weight::F32(Tensor::from_vec(t.data[..100 * 32].to_vec(), vec![100, 32])),
        other => other,
    };
    assert_eq!(m.forward_last(&ops(), &[72, 105]).data, all[..100]);
    assert!(check_run(&m, &[72, 105], 4));
    assert!(check_run_uncached(&m, &[72, 105], 4));
    let mut s = greedy();
    let (a, _) = generate(&ops(), &m, &tok, vec![72, 105], 4, &[], &mut s, Record::default(), &record);
    let (b, _) = generate_uncached(&ops(), &m, &tok, vec![72, 105], 4, &[], Record::default(), &record);
    let ids = a.ok().unwrap();
    assert_eq!(ids, b.ok().unwrap());
    assert!(ids.iter().all(|&t| t < 100));
    assert_eq!(ids[0], argmax(&all[..100]));
}
