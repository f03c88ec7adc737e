//! The weights of a model, as a model file has them.

use vstd::arithmetic::div_mod::lemma_fundamental_div_mod;
use vstd::prelude::*;
use vstd::string::*;

use crate::dump::{dims_text, write_dims};
use crate::error::{ErrorView, FurnaceError};
use crate::float::Arithmetic;
use crate::gguf::{first_named, lemma_first_named, lemma_some_named, tensor_views, GgmlType, GgufFile};
use crate::quant::{block_dequant, blocks_of, fused_fits, fused_product, matmul_quant, row_bytes};
use crate::tensor::{loaded, matmul, matrix_product, rows, volume, Tensor, TensorView};
use crate::text::{decimal, decimal_text, same_text};

verus! {

/// The shape of the network.
#[derive(Debug, Clone, Copy, PartialEq, Eq, Structural)]
pub struct Config {
    pub n_layers: usize,
    pub n_heads: usize,
    pub n_kv_heads: usize,
    pub hidden: usize,
    pub ffn: usize,
    pub head_dim: usize,
    /// The bit pattern of a single-precision number.
    pub rope_theta: u32,
    /// The bit pattern of a single-precision number.
    pub rms_eps: u32,
    pub vocab: usize,
    pub context_length: usize,
}

/// The part of a network's shape that is read behind the heads.
pub open spec fn config_rest(file: &GgufFile, n_heads: usize, hidden: usize) -> Result<Config, ErrorView> {
    match file.u32_at_key("qwen2.block_count"@) {
        Err(e) => Err(e),
        Ok(n_layers) => match file.u32_at_key("qwen2.attention.head_count_kv"@) {
            Err(e) => Err(e),
            Ok(n_kv_heads) => match file.u32_at_key("qwen2.feed_forward_length"@) {
                Err(e) => Err(e),
                Ok(ffn) => match file.float_at_key("qwen2.rope.freq_base"@) {
                    Err(e) => Err(e),
                    Ok(rope_theta) => match file.float_at_key("qwen2.attention.layer_norm_rms_epsilon"@) {
                        Err(e) => Err(e),
                        Ok(rms_eps) => match file.array_at_key("tokenizer.ggml.tokens"@) {
                            Err(e) => Err(e),
                            Ok(tokens) => match file.u32_at_key("qwen2.context_length"@) {
                                Err(e) => Err(e),
                                Ok(context_length) => Ok(
                                    Config {
                                        n_layers: n_layers as usize,
                                        n_heads,
                                        n_kv_heads: n_kv_heads as usize,
                                        hidden,
                                        ffn: ffn as usize,
                                        head_dim: hidden / n_heads,
                                        rope_theta,
                                        rms_eps,
                                        vocab: tokens.len() as usize,
                                        context_length: context_length as usize,
                                    },
                                ),
                            },
                        },
                    },
                },
            },
        },
    }
}

/// The shape of the network in a file.
#[verifier::opaque]
pub open spec fn config_of(file: &GgufFile) -> Result<Config, ErrorView> {
    match file.string_at_key("general.architecture"@) {
        Err(e) => Err(e),
        Ok(arch) => if arch != "qwen2"@ {
            Err(ErrorView::UnsupportedArchitecture { architecture: arch })
        } else {
            match file.u32_at_key("qwen2.attention.head_count"@) {
                Err(e) => Err(e),
                Ok(heads) => match file.u32_at_key("qwen2.embedding_length"@) {
                    Err(e) => Err(e),
                    Ok(hidden) => if heads == 0 || hidden % heads != 0 {
                        Err(ErrorView::UnevenHeads { hidden: hidden as usize, heads: heads as usize })
                    } else {
                        config_rest(file, heads as usize, hidden as usize)
                    },
                },
            }
        },
    }
}

/// Each number of the network's shape is the number of the file with its key, and the heads share the
/// hidden numbers evenly.
pub proof fn lemma_config(file: &GgufFile, c: Config)
    requires
        config_of(file) == Ok::<Config, ErrorView>(c),
    ensures
        file.metadata@.contains_key("general.architecture"@) && file.metadata@["general.architecture"@].as_str() == Some("qwen2"@),
        file.metadata@.contains_key("qwen2.block_count"@) && file.metadata@["qwen2.block_count"@].as_u32() == Some(c.n_layers as u32),
        c.n_layers <= u32::MAX,
        file.metadata@.contains_key("qwen2.attention.head_count"@) && file.metadata@["qwen2.attention.head_count"@].as_u32() == Some(c.n_heads as u32),
        c.n_heads <= u32::MAX,
        file.metadata@.contains_key("qwen2.attention.head_count_kv"@) && file.metadata@["qwen2.attention.head_count_kv"@].as_u32() == Some(c.n_kv_heads as u32),
        c.n_kv_heads <= u32::MAX,
        file.metadata@.contains_key("qwen2.embedding_length"@) && file.metadata@["qwen2.embedding_length"@].as_u32() == Some(c.hidden as u32),
        c.hidden <= u32::MAX,
        file.metadata@.contains_key("qwen2.feed_forward_length"@) && file.metadata@["qwen2.feed_forward_length"@].as_u32() == Some(c.ffn as u32),
        c.ffn <= u32::MAX,
        file.metadata@.contains_key("qwen2.rope.freq_base"@) && file.metadata@["qwen2.rope.freq_base"@].as_f32() == Some(c.rope_theta),
        file.metadata@.contains_key("qwen2.attention.layer_norm_rms_epsilon"@) && file.metadata@["qwen2.attention.layer_norm_rms_epsilon"@].as_f32() == Some(c.rms_eps),
        file.metadata@.contains_key("qwen2.context_length"@) && file.metadata@["qwen2.context_length"@].as_u32() == Some(c.context_length as u32),
        c.context_length <= u32::MAX,
        file.metadata@.contains_key("tokenizer.ggml.tokens"@) && (file.metadata@["tokenizer.ggml.tokens"@].as_array() matches Some(tokens) && c.vocab == tokens.len() as usize),
        c.head_dim * c.n_heads == c.hidden,
{
    reveal(config_of);
    let heads = file.u32_at_key("qwen2.attention.head_count"@)->Ok_0;
    let hidden = file.u32_at_key("qwen2.embedding_length"@)->Ok_0;
    lemma_fundamental_div_mod(hidden as int, heads as int);
    assert(c.head_dim * c.n_heads == c.n_heads * c.head_dim) by (nonlinear_arith);
}

impl Config {
    /// Reads the shape of the network in a file.
    pub fn from_gguf(file: &GgufFile) -> (r: Result<Config, FurnaceError>)
        requires
            file.wf(),
        ensures
            match r {
                Ok(c) => config_of(file) == Ok::<Config, ErrorView>(c),
                Err(e) => config_of(file) == Err::<Config, ErrorView>(e@),
            },
            r matches Ok(c) ==> ({
                &&& file.metadata@.contains_key("general.architecture"@) && file.metadata@["general.architecture"@].as_str() == Some("qwen2"@)
                &&& file.metadata@.contains_key("qwen2.block_count"@) && file.metadata@["qwen2.block_count"@].as_u32() == Some(c.n_layers as u32)
                &&& c.n_layers <= u32::MAX
                &&& file.metadata@.contains_key("qwen2.attention.head_count"@) && file.metadata@["qwen2.attention.head_count"@].as_u32() == Some(c.n_heads as u32)
                &&& c.n_heads <= u32::MAX
                &&& file.metadata@.contains_key("qwen2.attention.head_count_kv"@) && file.metadata@["qwen2.attention.head_count_kv"@].as_u32() == Some(c.n_kv_heads as u32)
                &&& c.n_kv_heads <= u32::MAX
                &&& file.metadata@.contains_key("qwen2.embedding_length"@) && file.metadata@["qwen2.embedding_length"@].as_u32() == Some(c.hidden as u32)
                &&& c.hidden <= u32::MAX
                &&& file.metadata@.contains_key("qwen2.feed_forward_length"@) && file.metadata@["qwen2.feed_forward_length"@].as_u32() == Some(c.ffn as u32)
                &&& c.ffn <= u32::MAX
                &&& file.metadata@.contains_key("qwen2.rope.freq_base"@) && file.metadata@["qwen2.rope.freq_base"@].as_f32() == Some(c.rope_theta)
                &&& file.metadata@.contains_key("qwen2.attention.layer_norm_rms_epsilon"@) && file.metadata@["qwen2.attention.layer_norm_rms_epsilon"@].as_f32() == Some(c.rms_eps)
                &&& file.metadata@.contains_key("qwen2.context_length"@) && file.metadata@["qwen2.context_length"@].as_u32() == Some(c.context_length as u32)
                &&& c.context_length <= u32::MAX
                &&& file.metadata@.contains_key("tokenizer.ggml.tokens"@) && (file.metadata@["tokenizer.ggml.tokens"@].as_array() matches Some(tokens) && c.vocab == tokens.len() as usize)
                &&& c.head_dim * c.n_heads == c.hidden
            }),
    {
        proof {
            reveal(config_of);
        }
        match file.meta_str("general.architecture") {
            Ok(arch) => if !same_text(arch, "qwen2") {
                return Err(FurnaceError::UnsupportedArchitecture { architecture: arch.to_owned() });
            },
            Err(e) => return Err(e),
        }
        let n_heads: usize = match file.meta_u32("qwen2.attention.head_count") {
            Ok(n) => n as usize,
            Err(e) => return Err(e),
        };
        let hidden: usize = match file.meta_u32("qwen2.embedding_length") {
            Ok(n) => n as usize,
            Err(e) => return Err(e),
        };
        if n_heads == 0 || hidden % n_heads != 0 {
            return Err(FurnaceError::UnevenHeads { hidden, heads: n_heads });
        }
        let n_layers: usize = match file.meta_u32("qwen2.block_count") {
            Ok(n) => n as usize,
            Err(e) => return Err(e),
        };
        let n_kv_heads: usize = match file.meta_u32("qwen2.attention.head_count_kv") {
            Ok(n) => n as usize,
            Err(e) => return Err(e),
        };
        let ffn: usize = match file.meta_u32("qwen2.feed_forward_length") {
            Ok(n) => n as usize,
            Err(e) => return Err(e),
        };
        let rope_theta: u32 = match file.meta_f32("qwen2.rope.freq_base") {
            Ok(bits) => bits,
            Err(e) => return Err(e),
        };
        let rms_eps: u32 = match file.meta_f32("qwen2.attention.layer_norm_rms_epsilon") {
            Ok(bits) => bits,
            Err(e) => return Err(e),
        };
        let vocab: usize = match file.meta_array("tokenizer.ggml.tokens") {
            Ok(items) => items.len(),
            Err(e) => return Err(e),
        };
        let context_length: usize = match file.meta_u32("qwen2.context_length") {
            Ok(n) => n as usize,
            Err(e) => return Err(e),
        };
        let c: Config = Config {
            n_layers,
            n_heads,
            n_kv_heads,
            hidden,
            ffn,
            head_dim: hidden / n_heads,
            rope_theta,
            rms_eps,
            vocab,
            context_length,
        };
        proof {
            lemma_config(file, c);
        }
        Ok(c)
    }
}

/// A weight matrix: numbers at full precision, or the quantized bytes of a file.
pub enum WeightView {
    F32(TensorView),
    Quant { raw: Seq<u8>, dtype: GgmlType, out: usize, inn: usize },
}

impl WeightView {
    /// Whether products with this weight are defined: it is a matrix of `out` rows of `inn` numbers.
    pub open spec fn fits(self, out: int, inn: int) -> bool {
        match self {
            WeightView::F32(t) => t.shape.len() == 2 && t.shape[0] == out && t.shape[1] == inn && t.data.len() == out * inn,
            WeightView::Quant { raw, dtype, out: o, inn: i } => o == out && i == inn && fused_fits(dtype, raw, out, inn),
        }
    }

    /// How many numbers a product has in a row. A weight without dimensions has none.
    pub open spec fn out_dim(self) -> int {
        match self {
            WeightView::F32(t) => t.shape[0] as int,
            WeightView::Quant { raw, dtype, out, inn } => out as int,
        }
    }

    /// How long an activation row has to be.
    pub open spec fn in_dim(self) -> int {
        match self {
            WeightView::F32(t) => t.shape[1] as int,
            WeightView::Quant { raw, dtype, out, inn } => inn as int,
        }
    }

    /// Whether the weight has two dimensions.
    pub open spec fn is_matrix(self) -> bool {
        match self {
            WeightView::F32(t) => t.shape.len() == 2,
            WeightView::Quant { raw, dtype, out, inn } => true,
        }
    }

    /// How many bytes the weight keeps in memory.
    pub open spec fn bytes(self) -> int {
        match self {
            WeightView::F32(t) => volume(t.shape) as int * 4,
            WeightView::Quant { raw, dtype, out, inn } => raw.len() as int,
        }
    }

    /// The product of activation rows with this weight.
    pub open spec fn product<F: Arithmetic>(self, f: &F, x: Seq<Seq<u32>>) -> Seq<Seq<u32>> {
        match self {
            WeightView::F32(t) => matrix_product(f, x, rows(t.data, t.shape[0] as int, t.shape[1] as int)),
            WeightView::Quant { raw, dtype, out, inn } => fused_product(f, dtype, raw, out as nat, inn as int, x),
        }
    }
}

/// A weight matrix: numbers at full precision, or the quantized bytes of a file.
pub enum Weight<'a> {
    F32(Tensor),
    Quant { raw: &'a [u8], dtype: GgmlType, out: usize, inn: usize },
}

impl<'a> View for Weight<'a> {
    type V = WeightView;

    open spec fn view(&self) -> WeightView {
        match self {
            Weight::F32(t) => WeightView::F32(t@),
            Weight::Quant { raw, dtype, out, inn } => WeightView::Quant { raw: raw@, dtype: *dtype, out: *out, inn: *inn },
        }
    }
}

impl<'a> Weight<'a> {
    /// Whether numbers at full precision fill their shape.
    pub open spec fn wf(self) -> bool {
        self matches Weight::F32(t) ==> t.wf()
    }

    /// How many numbers a product has in a row.
    pub fn out_dim(&self) -> (r: usize)
        requires
            self.wf(),
            self matches Weight::F32(t) ==> t.shape@.len() >= 1,
        ensures
            r == self@.out_dim(),
    {
        match self {
            Weight::F32(t) => t.shape[0],
            Weight::Quant { raw: _, dtype: _, out, inn: _ } => *out,
        }
    }

    /// How long an activation row has to be.
    pub fn in_dim(&self) -> (r: usize)
        requires
            self.wf(),
            self matches Weight::F32(t) ==> t.shape@.len() >= 2,
        ensures
            r == self@.in_dim(),
    {
        match self {
            Weight::F32(t) => t.shape[1],
            Weight::Quant { raw: _, dtype: _, out: _, inn } => *inn,
        }
    }

    /// Whether the weight has two dimensions.
    pub fn is_matrix(&self) -> (r: bool)
        ensures
            r == self@.is_matrix(),
    {
        match self {
            Weight::F32(t) => t.shape.len() == 2,
            Weight::Quant { raw: _, dtype: _, out: _, inn: _ } => true,
        }
    }

    /// How many bytes the weight keeps in memory.
    pub fn bytes(&self) -> (r: usize)
        requires
            self.wf(),
            self@.bytes() <= usize::MAX,
        ensures
            r == self@.bytes(),
    {
        match self {
            Weight::F32(t) => t.numel() * 4,
            Weight::Quant { raw, dtype: _, out: _, inn: _ } => raw.len(),
        }
    }

    /// Whether products with this weight are defined, with `out` rows of `inn` numbers.
    pub fn check(&self, out: usize, inn: usize) -> (r: bool)
        requires
            self.wf(),
        ensures
            r == self@.fits(out as int, inn as int),
    {
        match self {
            Weight::F32(t) => {
                if t.shape.len() != 2 {
                    return false;
                }
                proof {
                    t.lemma_matrix();
                }
                t.shape[0] == out && t.shape[1] == inn
            },
            Weight::Quant { raw, dtype, out: o, inn: i } => *o == out && *i == inn && check_fused(*dtype, raw, out, inn),
        }
    }

    /// Multiplies activation rows with this weight.
    pub fn matmul<F: Arithmetic>(&self, f: &F, x: &Tensor) -> (r: Tensor)
        requires
            f.wf(),
            self.wf(),
            self@.fits(self@.out_dim(), self@.in_dim()),
            x.wf(),
            x.shape@.len() == 2,
            x.shape@[1] == self@.in_dim(),
            x.shape@[0] * self@.out_dim() <= usize::MAX,
        ensures
            r.is_matrix(x.shape@[0] as int, self@.out_dim()),
            r.matrix() == self@.product(f, x.matrix()),
    {
        match self {
            Weight::F32(t) => matmul(f, x, t),
            Weight::Quant { raw, dtype, out, inn } => matmul_quant(f, x, raw, *out, *inn, *dtype),
        }
    }
}

/// Whether these are the bytes of a quantized weight matrix.
fn check_fused(dtype: GgmlType, raw: &[u8], out: usize, inn: usize) -> (r: bool)
    ensures
        r == fused_fits(dtype, raw@, out as int, inn as int),
{
    let layout: Option<(usize, usize)> = match dtype {
        GgmlType::Q8_0 => GgmlType::Q8_0.block_layout(),
        other => block_dequant(other),
    };
    assert(layout == blocks_of(dtype));
    let (elems, bytes): (usize, usize) = match layout {
        Some(sizes) => sizes,
        None => return false,
    };
    if inn % elems != 0 {
        return false;
    }
    let n: usize = inn / elems;
    assert(row_bytes(dtype, inn as int) == n * bytes);
    assert(raw.len() == raw@.len());
    if out == 0 {
        assert(0 * (n * bytes) == 0) by (nonlinear_arith);
        return raw.len() == 0;
    }
    let width: usize = match n.checked_mul(bytes) {
        Some(width) => width,
        None => {
            assert(out * (n * bytes) > usize::MAX) by (nonlinear_arith)
                requires
                    out >= 1,
                    n * bytes > usize::MAX,
            ;
            return false;
        },
    };
    match out.checked_mul(width) {
        Some(size) => size == raw.len(),
        None => false,
    }
}

impl WeightView {
    /// The dimensions as a file lists them, in words: the fastest-varying first.
    pub open spec fn dims_words(self) -> Seq<char> {
        match self {
            WeightView::F32(t) => dims_text(listed(t.shape), t.shape.len()),
            WeightView::Quant { out, inn, .. } => dims_text(seq![inn as u64, out as u64], 2),
        }
    }

    /// That the weight with this name is no matrix.
    pub open spec fn refused(self, name: Seq<char>) -> ErrorView {
        ErrorView::NotAMatrix { tensor: name, dims: self.dims_words() }
    }
}

/// A shape as a file lists it: the fastest-varying dimension first.
pub open spec fn listed(shape: Seq<usize>) -> Seq<u64> {
    Seq::new(shape.len(), |i: int| shape[shape.len() - 1 - i] as u64)
}

/// Says that a weight is no matrix.
fn refuse(weight: &Weight, name: &str) -> (r: FurnaceError)
    ensures
        r@ == weight@.refused(name@),
{
    let mut dims: Vec<u64> = Vec::new();
    match weight {
        Weight::F32(t) => {
            let count: usize = t.shape.len();
            let mut i: usize = 0;
            while i < count
                invariant
                    i <= count,
                    count == t.shape@.len(),
                    dims@.len() == i,
                    forall|k: int| 0 <= k < i ==> #[trigger] dims@[k] == listed(t.shape@)[k],
                decreases count - i,
            {
                dims.push(t.shape[count - 1 - i] as u64);
                i = i + 1;
            }
            assert(dims@ =~= listed(t.shape@));
        },
        Weight::Quant { out, inn, .. } => {
            dims.push(*inn as u64);
            dims.push(*out as u64);
            assert(dims@ =~= seq![*inn as u64, *out as u64]);
        },
    }
    FurnaceError::NotAMatrix { tensor: name.to_owned(), dims: write_dims(dims.as_slice()) }
}

/// The weight with this name in a file. Quantized types that have a product kernel stay as they
/// are, unless full precision is asked for.
pub open spec fn weight_of<F: Arithmetic>(f: &F, file: &GgufFile, name: Seq<char>, full: bool) -> Result<WeightView, ErrorView> {
    match file.tensor_data(name) {
        Err(e) => Err(e),
        Ok((info, raw)) => if full || blocks_of(info.dtype) is None {
            match loaded(f, file, name) {
                Ok(t) => Ok(WeightView::F32(t)),
                Err(e) => Err(e),
            }
        } else if info.dims.len() != 2 {
            Err(ErrorView::NotAMatrix { tensor: name, dims: dims_text(info.dims, info.dims.len()) })
        } else {
            Ok(WeightView::Quant { raw, dtype: info.dtype, out: info.dims[1] as usize, inn: info.dims[0] as usize })
        },
    }
}

/// Reads a weight of a file.
pub fn load_weight<'a, F: Arithmetic>(f: &F, file: &GgufFile<'a>, name: &str, use_f32: bool) -> (r: Result<Weight<'a>, FurnaceError>)
    requires
        f.wf(),
        file.wf(),
    ensures
        match r {
            Ok(w) => w.wf() && weight_of(f, file, name@, use_f32) == Ok::<_, ErrorView>(w@),
            Err(e) => weight_of(f, file, name@, use_f32) == Err::<WeightView, _>(e@),
        },
{
    let (info, raw) = match file.tensor(name) {
        Ok(found) => found,
        Err(e) => return Err(e),
    };
    let has_kernel: bool = match info.dtype {
        GgmlType::Q8_0 => true,
        other => block_dequant(other).is_some(),
    };
    if use_f32 || !has_kernel {
        return match Tensor::from_gguf(f, file, name) {
            Ok(t) => Ok(Weight::F32(t)),
            Err(e) => Err(e),
        };
    }
    if info.dims.len() != 2 {
        return Err(FurnaceError::NotAMatrix { tensor: name.to_owned(), dims: write_dims(info.dims.as_slice()) });
    }
    Ok(Weight::Quant { raw, dtype: info.dtype, out: info.dims[1] as usize, inn: info.dims[0] as usize })
}

// ---------------------------------------------------------------------------
// Layers.
// ---------------------------------------------------------------------------

/// The weights of one transformer block.
pub struct LayerView {
    pub attn_norm: TensorView,
    pub wq: WeightView,
    pub bq: TensorView,
    pub wk: WeightView,
    pub bk: TensorView,
    pub wv: WeightView,
    pub bv: TensorView,
    pub wo: WeightView,
    pub ffn_norm: TensorView,
    pub w_gate: WeightView,
    pub w_up: WeightView,
    pub w_down: WeightView,
}

/// The weights of one transformer block. Norms and biases are at full precision.
pub struct Layer<'a> {
    pub attn_norm: Tensor,
    /// [n_heads * head_dim, hidden]
    pub wq: Weight<'a>,
    pub bq: Tensor,
    /// [n_kv_heads * head_dim, hidden]
    pub wk: Weight<'a>,
    pub bk: Tensor,
    pub wv: Weight<'a>,
    pub bv: Tensor,
    /// [hidden, n_heads * head_dim], without bias
    pub wo: Weight<'a>,
    pub ffn_norm: Tensor,
    /// [ffn, hidden]
    pub w_gate: Weight<'a>,
    /// [ffn, hidden]
    pub w_up: Weight<'a>,
    /// [hidden, ffn]
    pub w_down: Weight<'a>,
}

impl<'a> View for Layer<'a> {
    type V = LayerView;

    open spec fn view(&self) -> LayerView {
        LayerView {
            attn_norm: self.attn_norm@,
            wq: self.wq@,
            bq: self.bq@,
            wk: self.wk@,
            bk: self.bk@,
            wv: self.wv@,
            bv: self.bv@,
            wo: self.wo@,
            ffn_norm: self.ffn_norm@,
            w_gate: self.w_gate@,
            w_up: self.w_up@,
            w_down: self.w_down@,
        }
    }
}

/// The name of a tensor of a layer.
pub open spec fn layer_name(idx: nat, suffix: Seq<char>) -> Seq<char> {
    "blk."@ + decimal(idx) + "."@ + suffix
}

/// Writes the name of a tensor of a layer.
fn write_layer_name(idx: usize, suffix: &str) -> (r: String)
    ensures
        r@ == layer_name(idx as nat, suffix@),
{
    let mut name: String = String::from_str("blk.");
    let number: String = decimal_text(idx as u64);
    name.append(number.as_str());
    name.append(".");
    name.append(suffix);
    name
}

/// The name of each tensor of a layer, in one piece behind the layer's number.
pub proof fn lemma_layer_names(idx: nat)
    ensures
        ({
            let blk = "blk."@ + decimal(idx);
            &&& layer_name(idx, "attn_norm.weight"@) == blk + ".attn_norm.weight"@
            &&& layer_name(idx, "attn_q.weight"@) == blk + ".attn_q.weight"@
            &&& layer_name(idx, "attn_q.bias"@) == blk + ".attn_q.bias"@
            &&& layer_name(idx, "attn_k.weight"@) == blk + ".attn_k.weight"@
            &&& layer_name(idx, "attn_k.bias"@) == blk + ".attn_k.bias"@
            &&& layer_name(idx, "attn_v.weight"@) == blk + ".attn_v.weight"@
            &&& layer_name(idx, "attn_v.bias"@) == blk + ".attn_v.bias"@
            &&& layer_name(idx, "attn_output.weight"@) == blk + ".attn_output.weight"@
            &&& layer_name(idx, "ffn_norm.weight"@) == blk + ".ffn_norm.weight"@
            &&& layer_name(idx, "ffn_gate.weight"@) == blk + ".ffn_gate.weight"@
            &&& layer_name(idx, "ffn_up.weight"@) == blk + ".ffn_up.weight"@
            &&& layer_name(idx, "ffn_down.weight"@) == blk + ".ffn_down.weight"@
        }),
{
    let blk = "blk."@ + decimal(idx);
    reveal_strlit(".");
    reveal_strlit("attn_norm.weight");
    reveal_strlit(".attn_norm.weight");
    assert(layer_name(idx, "attn_norm.weight"@) =~= blk + ".attn_norm.weight"@);
    reveal_strlit("attn_q.weight");
    reveal_strlit(".attn_q.weight");
    assert(layer_name(idx, "attn_q.weight"@) =~= blk + ".attn_q.weight"@);
    reveal_strlit("attn_q.bias");
    reveal_strlit(".attn_q.bias");
    assert(layer_name(idx, "attn_q.bias"@) =~= blk + ".attn_q.bias"@);
    reveal_strlit("attn_k.weight");
    reveal_strlit(".attn_k.weight");
    assert(layer_name(idx, "attn_k.weight"@) =~= blk + ".attn_k.weight"@);
    reveal_strlit("attn_k.bias");
    reveal_strlit(".attn_k.bias");
    assert(layer_name(idx, "attn_k.bias"@) =~= blk + ".attn_k.bias"@);
    reveal_strlit("attn_v.weight");
    reveal_strlit(".attn_v.weight");
    assert(layer_name(idx, "attn_v.weight"@) =~= blk + ".attn_v.weight"@);
    reveal_strlit("attn_v.bias");
    reveal_strlit(".attn_v.bias");
    assert(layer_name(idx, "attn_v.bias"@) =~= blk + ".attn_v.bias"@);
    reveal_strlit("attn_output.weight");
    reveal_strlit(".attn_output.weight");
    assert(layer_name(idx, "attn_output.weight"@) =~= blk + ".attn_output.weight"@);
    reveal_strlit("ffn_norm.weight");
    reveal_strlit(".ffn_norm.weight");
    assert(layer_name(idx, "ffn_norm.weight"@) =~= blk + ".ffn_norm.weight"@);
    reveal_strlit("ffn_gate.weight");
    reveal_strlit(".ffn_gate.weight");
    assert(layer_name(idx, "ffn_gate.weight"@) =~= blk + ".ffn_gate.weight"@);
    reveal_strlit("ffn_up.weight");
    reveal_strlit(".ffn_up.weight");
    assert(layer_name(idx, "ffn_up.weight"@) =~= blk + ".ffn_up.weight"@);
    reveal_strlit("ffn_down.weight");
    reveal_strlit(".ffn_down.weight");
    assert(layer_name(idx, "ffn_down.weight"@) =~= blk + ".ffn_down.weight"@);
}

/// The weights of layer `idx` in a file. Of several that cannot be read the first counts.
#[verifier::opaque]
pub open spec fn layer_of<F: Arithmetic>(f: &F, file: &GgufFile, idx: nat, full: bool) -> Result<LayerView, ErrorView> {
    let attn_norm = loaded(f, file, layer_name(idx, "attn_norm.weight"@));
    let wq = weight_of(f, file, layer_name(idx, "attn_q.weight"@), full);
    let bq = loaded(f, file, layer_name(idx, "attn_q.bias"@));
    let wk = weight_of(f, file, layer_name(idx, "attn_k.weight"@), full);
    let bk = loaded(f, file, layer_name(idx, "attn_k.bias"@));
    let wv = weight_of(f, file, layer_name(idx, "attn_v.weight"@), full);
    let bv = loaded(f, file, layer_name(idx, "attn_v.bias"@));
    let wo = weight_of(f, file, layer_name(idx, "attn_output.weight"@), full);
    let ffn_norm = loaded(f, file, layer_name(idx, "ffn_norm.weight"@));
    let w_gate = weight_of(f, file, layer_name(idx, "ffn_gate.weight"@), full);
    let w_up = weight_of(f, file, layer_name(idx, "ffn_up.weight"@), full);
    let w_down = weight_of(f, file, layer_name(idx, "ffn_down.weight"@), full);
    if attn_norm is Err {
        Err(attn_norm->Err_0)
    } else if wq is Err {
        Err(wq->Err_0)
    } else if bq is Err {
        Err(bq->Err_0)
    } else if wk is Err {
        Err(wk->Err_0)
    } else if bk is Err {
        Err(bk->Err_0)
    } else if wv is Err {
        Err(wv->Err_0)
    } else if bv is Err {
        Err(bv->Err_0)
    } else if wo is Err {
        Err(wo->Err_0)
    } else if ffn_norm is Err {
        Err(ffn_norm->Err_0)
    } else if w_gate is Err {
        Err(w_gate->Err_0)
    } else if w_up is Err {
        Err(w_up->Err_0)
    } else if w_down is Err {
        Err(w_down->Err_0)
    } else {
        Ok(
            LayerView {
                attn_norm: attn_norm->Ok_0,
                wq: wq->Ok_0,
                bq: bq->Ok_0,
                wk: wk->Ok_0,
                bk: bk->Ok_0,
                wv: wv->Ok_0,
                bv: bv->Ok_0,
                wo: wo->Ok_0,
                ffn_norm: ffn_norm->Ok_0,
                w_gate: w_gate->Ok_0,
                w_up: w_up->Ok_0,
                w_down: w_down->Ok_0,
            },
        )
    }
}

/// Each part of a layer is the tensor of the file with the name of that part.
pub proof fn lemma_layer_tensors<F: Arithmetic>(f: &F, file: &GgufFile, idx: nat, full: bool, l: LayerView)
    requires
        layer_of(f, file, idx, full) == Ok::<LayerView, ErrorView>(l),
    ensures
        ({
            let blk = "blk."@ + decimal(idx);
            &&& loaded(f, file, blk + ".attn_norm.weight"@) == Ok::<TensorView, ErrorView>(l.attn_norm)
            &&& weight_of(f, file, blk + ".attn_q.weight"@, full) == Ok::<WeightView, ErrorView>(l.wq)
            &&& loaded(f, file, blk + ".attn_q.bias"@) == Ok::<TensorView, ErrorView>(l.bq)
            &&& weight_of(f, file, blk + ".attn_k.weight"@, full) == Ok::<WeightView, ErrorView>(l.wk)
            &&& loaded(f, file, blk + ".attn_k.bias"@) == Ok::<TensorView, ErrorView>(l.bk)
            &&& weight_of(f, file, blk + ".attn_v.weight"@, full) == Ok::<WeightView, ErrorView>(l.wv)
            &&& loaded(f, file, blk + ".attn_v.bias"@) == Ok::<TensorView, ErrorView>(l.bv)
            &&& weight_of(f, file, blk + ".attn_output.weight"@, full) == Ok::<WeightView, ErrorView>(l.wo)
            &&& loaded(f, file, blk + ".ffn_norm.weight"@) == Ok::<TensorView, ErrorView>(l.ffn_norm)
            &&& weight_of(f, file, blk + ".ffn_gate.weight"@, full) == Ok::<WeightView, ErrorView>(l.w_gate)
            &&& weight_of(f, file, blk + ".ffn_up.weight"@, full) == Ok::<WeightView, ErrorView>(l.w_up)
            &&& weight_of(f, file, blk + ".ffn_down.weight"@, full) == Ok::<WeightView, ErrorView>(l.w_down)
        }),
{
    reveal(layer_of);
    lemma_layer_names(idx);
}

impl<'a> Layer<'a> {
    /// Whether all tensors fill their shapes.
    pub open spec fn wf(self) -> bool {
        &&& self.attn_norm.wf()
        &&& self.wq.wf()
        &&& self.bq.wf()
        &&& self.wk.wf()
        &&& self.bk.wf()
        &&& self.wv.wf()
        &&& self.bv.wf()
        &&& self.wo.wf()
        &&& self.ffn_norm.wf()
        &&& self.w_gate.wf()
        &&& self.w_up.wf()
        &&& self.w_down.wf()
    }

    /// Reads the weights of one layer.
    pub fn load<F: Arithmetic>(f: &F, file: &GgufFile<'a>, idx: usize, use_f32: bool) -> (r: Result<Layer<'a>, FurnaceError>)
        requires
            f.wf(),
            file.wf(),
        ensures
            match r {
                Ok(l) => l.wf() && layer_of(f, file, idx as nat, use_f32) == Ok::<_, ErrorView>(l@),
                Err(e) => layer_of(f, file, idx as nat, use_f32) == Err::<LayerView, _>(e@),
            },
            r matches Ok(l) ==> ({
                let blk = "blk."@ + decimal(idx as nat);
                &&& loaded(f, file, blk + ".attn_norm.weight"@) == Ok::<TensorView, ErrorView>(l.attn_norm@)
                &&& weight_of(f, file, blk + ".attn_q.weight"@, use_f32) == Ok::<WeightView, ErrorView>(l.wq@)
                &&& loaded(f, file, blk + ".attn_q.bias"@) == Ok::<TensorView, ErrorView>(l.bq@)
                &&& weight_of(f, file, blk + ".attn_k.weight"@, use_f32) == Ok::<WeightView, ErrorView>(l.wk@)
                &&& loaded(f, file, blk + ".attn_k.bias"@) == Ok::<TensorView, ErrorView>(l.bk@)
                &&& weight_of(f, file, blk + ".attn_v.weight"@, use_f32) == Ok::<WeightView, ErrorView>(l.wv@)
                &&& loaded(f, file, blk + ".attn_v.bias"@) == Ok::<TensorView, ErrorView>(l.bv@)
                &&& weight_of(f, file, blk + ".attn_output.weight"@, use_f32) == Ok::<WeightView, ErrorView>(l.wo@)
                &&& loaded(f, file, blk + ".ffn_norm.weight"@) == Ok::<TensorView, ErrorView>(l.ffn_norm@)
                &&& weight_of(f, file, blk + ".ffn_gate.weight"@, use_f32) == Ok::<WeightView, ErrorView>(l.w_gate@)
                &&& weight_of(f, file, blk + ".ffn_up.weight"@, use_f32) == Ok::<WeightView, ErrorView>(l.w_up@)
                &&& weight_of(f, file, blk + ".ffn_down.weight"@, use_f32) == Ok::<WeightView, ErrorView>(l.w_down@)
            }),
    {
        proof {
            reveal(layer_of);
            lemma_layer_names(idx as nat);
        }
        let attn_norm: Tensor = match Tensor::from_gguf(f, file, write_layer_name(idx, "attn_norm.weight").as_str()) {
            Ok(t) => t,
            Err(e) => return Err(e),
        };
        let wq: Weight<'a> = match load_weight(f, file, write_layer_name(idx, "attn_q.weight").as_str(), use_f32) {
            Ok(w) => w,
            Err(e) => return Err(e),
        };
        let bq: Tensor = match Tensor::from_gguf(f, file, write_layer_name(idx, "attn_q.bias").as_str()) {
            Ok(t) => t,
            Err(e) => return Err(e),
        };
        let wk: Weight<'a> = match load_weight(f, file, write_layer_name(idx, "attn_k.weight").as_str(), use_f32) {
            Ok(w) => w,
            Err(e) => return Err(e),
        };
        let bk: Tensor = match Tensor::from_gguf(f, file, write_layer_name(idx, "attn_k.bias").as_str()) {
            Ok(t) => t,
            Err(e) => return Err(e),
        };
        let wv: Weight<'a> = match load_weight(f, file, write_layer_name(idx, "attn_v.weight").as_str(), use_f32) {
            Ok(w) => w,
            Err(e) => return Err(e),
        };
        let bv: Tensor = match Tensor::from_gguf(f, file, write_layer_name(idx, "attn_v.bias").as_str()) {
            Ok(t) => t,
            Err(e) => return Err(e),
        };
        let wo: Weight<'a> = match load_weight(f, file, write_layer_name(idx, "attn_output.weight").as_str(), use_f32) {
            Ok(w) => w,
            Err(e) => return Err(e),
        };
        let ffn_norm: Tensor = match Tensor::from_gguf(f, file, write_layer_name(idx, "ffn_norm.weight").as_str()) {
            Ok(t) => t,
            Err(e) => return Err(e),
        };
        let w_gate: Weight<'a> = match load_weight(f, file, write_layer_name(idx, "ffn_gate.weight").as_str(), use_f32) {
            Ok(w) => w,
            Err(e) => return Err(e),
        };
        let w_up: Weight<'a> = match load_weight(f, file, write_layer_name(idx, "ffn_up.weight").as_str(), use_f32) {
            Ok(w) => w,
            Err(e) => return Err(e),
        };
        let w_down: Weight<'a> = match load_weight(f, file, write_layer_name(idx, "ffn_down.weight").as_str(), use_f32) {
            Ok(w) => w,
            Err(e) => return Err(e),
        };
        Ok(Layer { attn_norm, wq, bq, wk, bk, wv, bv, wo, ffn_norm, w_gate, w_up, w_down })
    }
}

/// The weights of the first `n` layers. Of several that cannot be read the first counts.
pub open spec fn layers_of<F: Arithmetic>(f: &F, file: &GgufFile, n: nat, full: bool) -> Result<Seq<LayerView>, ErrorView>
    decreases n,
{
    if n == 0 {
        Ok(seq![])
    } else {
        match layers_of(f, file, (n - 1) as nat, full) {
            Ok(layers) => match layer_of(f, file, (n - 1) as nat, full) {
                Ok(l) => Ok(layers.push(l)),
                Err(e) => Err(e),
            },
            Err(e) => Err(e),
        }
    }
}

/// Once a list of layers has failed to read, a longer one fails in the same way.
proof fn lemma_layers_err<F: Arithmetic>(f: &F, file: &GgufFile, n: nat, m: nat, full: bool)
    requires
        n <= m,
        layers_of(f, file, n, full) is Err,
    ensures
        layers_of(f, file, m, full) == layers_of(f, file, n, full),
    decreases m,
{
    if n < m {
        lemma_layers_err(f, file, n, (m - 1) as nat, full);
    }
}

/// There are as many layers as asked for, and each is the layer of the file with its number.
pub proof fn lemma_layers<F: Arithmetic>(f: &F, file: &GgufFile, n: nat, full: bool, layers: Seq<LayerView>)
    requires
        layers_of(f, file, n, full) == Ok::<Seq<LayerView>, ErrorView>(layers),
    ensures
        layers.len() == n,
        forall|i: int| 0 <= i < n ==> layer_of(f, file, i as nat, full) == Ok::<LayerView, ErrorView>(#[trigger] layers[i]),
    decreases n,
{
    if n > 0 {
        let before = layers_of(f, file, (n - 1) as nat, full)->Ok_0;
        lemma_layers(f, file, (n - 1) as nat, full, before);
        assert(layers == before.push(layer_of(f, file, (n - 1) as nat, full)->Ok_0));
        assert forall|i: int| 0 <= i < n implies layer_of(f, file, i as nat, full) == Ok::<LayerView, ErrorView>(#[trigger] layers[i]) by {
            if i < n - 1 {
                assert(layers[i] == before[i]);
            }
        }
    }
}

/// The views of layers.
pub open spec fn layer_views(layers: Seq<Layer>) -> Seq<LayerView> {
    Seq::new(layers.len(), |i: int| layers[i]@)
}

/// Reads the weights of all layers.
fn load_layers<'a, F: Arithmetic>(f: &F, file: &GgufFile<'a>, n: usize, use_f32: bool) -> (r: Result<Vec<Layer<'a>>, FurnaceError>)
    requires
        f.wf(),
        file.wf(),
    ensures
        match r {
            Ok(layers) => {
                &&& forall|i: int| 0 <= i < layers@.len() ==> (#[trigger] layers@[i]).wf()
                &&& layers_of(f, file, n as nat, use_f32) == Ok::<_, ErrorView>(layer_views(layers@))
            },
            Err(e) => layers_of(f, file, n as nat, use_f32) == Err::<Seq<LayerView>, _>(e@),
        },
{
    let mut layers: Vec<Layer<'a>> = Vec::new();
    let mut i: usize = 0;
    assert(layer_views(layers@) =~= seq![]);
    while i < n
        invariant
            i <= n,
            f.wf(),
            file.wf(),
            forall|k: int| 0 <= k < layers@.len() ==> (#[trigger] layers@[k]).wf(),
            layers_of(f, file, i as nat, use_f32) == Ok::<_, ErrorView>(layer_views(layers@)),
        decreases n - i,
    {
        let ghost before = layers@;
        match Layer::load(f, file, i, use_f32) {
            Ok(l) => {
                layers.push(l);
                assert(layer_views(layers@) =~= layer_views(before).push(l@));
            },
            Err(e) => {
                proof {
                    lemma_layers_err(f, file, (i + 1) as nat, n as nat, use_f32);
                }
                return Err(e);
            },
        }
        i = i + 1;
    }
    Ok(layers)
}

// ---------------------------------------------------------------------------
// Models.
// ---------------------------------------------------------------------------

/// The whole network: embedding, layers, the last norm, the output head.
pub struct ModelView {
    pub config: Config,
    pub embedding: WeightView,
    pub layers: Seq<LayerView>,
    pub output_norm: TensorView,
    pub lm_head: WeightView,
}

/// The whole network: embedding, layers, the last norm, the output head. Quantized weights stay in
/// the file unless full precision was asked for.
pub struct Model<'a> {
    pub config: Config,
    /// [vocab, hidden]
    pub embedding: Weight<'a>,
    pub layers: Vec<Layer<'a>>,
    pub output_norm: Tensor,
    /// [vocab, hidden]
    pub lm_head: Weight<'a>,
}

impl<'a> View for Model<'a> {
    type V = ModelView;

    open spec fn view(&self) -> ModelView {
        ModelView {
            config: self.config,
            embedding: self.embedding@,
            layers: layer_views(self.layers@),
            output_norm: self.output_norm@,
            lm_head: self.lm_head@,
        }
    }
}

/// The first of the first `n` layers whose gate has not the shape that the metadata say.
pub open spec fn bad_gate(layers: Seq<LayerView>, config: Config, n: nat) -> Option<ErrorView>
    decreases n,
{
    if n == 0 {
        None
    } else {
        match bad_gate(layers, config, (n - 1) as nat) {
            Some(e) => Some(e),
            None => {
                let gate = layers[n - 1].w_gate;
                if !gate.is_matrix() {
                    Some(gate.refused(layer_name((n - 1) as nat, "ffn_gate.weight"@)))
                } else if gate.out_dim() != config.ffn || gate.in_dim() != config.hidden {
                    Some(
                        ErrorView::GateShape {
                            layer: (n - 1) as usize,
                            out: gate.out_dim() as usize,
                            inn: gate.in_dim() as usize,
                            ffn: config.ffn,
                            hidden: config.hidden,
                        },
                    )
                } else {
                    None
                }
            },
        }
    }
}

/// Once a gate is bad, it is the first of more layers too.
proof fn lemma_bad_gate(layers: Seq<LayerView>, config: Config, n: nat, m: nat)
    requires
        n <= m,
        bad_gate(layers, config, n) is Some,
    ensures
        bad_gate(layers, config, m) == bad_gate(layers, config, n),
    decreases m,
{
    if n < m {
        lemma_bad_gate(layers, config, n, (m - 1) as nat);
    }
}

/// The name of the tensor with the output head. Where a file has none of its own, it is the token
/// embedding.
pub open spec fn head_name(file: &GgufFile) -> Seq<char> {
    if first_named(tensor_views(file.tensors@), "output.weight"@) is Some {
        "output.weight"@
    } else {
        "token_embd.weight"@
    }
}

/// The parts of the network behind the embedding.
pub open spec fn model_rest<F: Arithmetic>(f: &F, file: &GgufFile, full: bool, config: Config, embedding: WeightView) -> Result<ModelView, ErrorView> {
    match layers_of(f, file, config.n_layers as nat, full) {
        Err(e) => Err(e),
        Ok(layers) => match bad_gate(layers, config, layers.len()) {
            Some(e) => Err(e),
            None => match loaded(f, file, "output_norm.weight"@) {
                Err(e) => Err(e),
                Ok(output_norm) => match weight_of(f, file, head_name(file), full) {
                    Err(e) => Err(e),
                    Ok(lm_head) => if !lm_head.is_matrix() {
                        Err(lm_head.refused(head_name(file)))
                    } else if lm_head.out_dim() != config.vocab || lm_head.in_dim() != config.hidden {
                        Err(
                            ErrorView::HeadShape {
                                out: lm_head.out_dim() as usize,
                                inn: lm_head.in_dim() as usize,
                                vocab: config.vocab,
                                hidden: config.hidden,
                            },
                        )
                    } else {
                        Ok(ModelView { config, embedding, layers, output_norm, lm_head })
                    },
                },
            },
        },
    }
}

/// The network in a file.
pub open spec fn model_of<F: Arithmetic>(f: &F, file: &GgufFile, full: bool) -> Result<ModelView, ErrorView> {
    match config_of(file) {
        Err(e) => Err(e),
        Ok(config) => match weight_of(f, file, "token_embd.weight"@, full) {
            Err(e) => Err(e),
            Ok(embedding) => if !embedding.is_matrix() {
                Err(embedding.refused("token_embd.weight"@))
            } else if embedding.out_dim() != config.vocab || embedding.in_dim() != config.hidden {
                Err(
                    ErrorView::EmbeddingShape {
                        out: embedding.out_dim() as usize,
                        inn: embedding.in_dim() as usize,
                        vocab: config.vocab,
                        hidden: config.hidden,
                    },
                )
            } else {
                model_rest(f, file, full, config, embedding)
            },
        },
    }
}

/// Looks for the first gate that has not the shape that the metadata say.
fn check_gates(layers: &[Layer], config: &Config) -> (r: Option<FurnaceError>)
    requires
        forall|i: int| 0 <= i < layers@.len() ==> (#[trigger] layers@[i]).wf(),
    ensures
        match r {
            Some(e) => bad_gate(layer_views(layers@), *config, layers@.len()) == Some(e@),
            None => bad_gate(layer_views(layers@), *config, layers@.len()) is None,
        },
{
    let ghost views = layer_views(layers@);
    let mut i: usize = 0;
    while i < layers.len()
        invariant
            i <= layers@.len(),
            views == layer_views(layers@),
            forall|k: int| 0 <= k < layers@.len() ==> (#[trigger] layers@[k]).wf(),
            bad_gate(views, *config, i as nat) is None,
        decreases layers@.len() - i,
    {
        let gate: &Weight = &layers[i].w_gate;
        assert(views[i as int].w_gate == gate@);
        if !gate.is_matrix() {
            proof {
                lemma_bad_gate(views, *config, (i + 1) as nat, layers@.len());
            }
            return Some(refuse(gate, write_layer_name(i, "ffn_gate.weight").as_str()));
        }
        let (out, inn): (usize, usize) = (gate.out_dim(), gate.in_dim());
        if out != config.ffn || inn != config.hidden {
            proof {
                lemma_bad_gate(views, *config, (i + 1) as nat, layers@.len());
            }
            return Some(FurnaceError::GateShape { layer: i, out, inn, ffn: config.ffn, hidden: config.hidden });
        }
        i = i + 1;
    }
    None
}

/// Whether a file has a tensor with this name.
fn has_tensor(file: &GgufFile, name: &str) -> (r: bool)
    ensures
        r == first_named(tensor_views(file.tensors@), name@) is Some,
{
    let ghost views = tensor_views(file.tensors@);
    let mut i: usize = 0;
    while i < file.tensors.len()
        invariant
            i <= file.tensors@.len(),
            views == tensor_views(file.tensors@),
            first_named(views.take(i as int), name@) is None,
        decreases file.tensors@.len() - i,
    {
        assert(views.take(i + 1).drop_last() =~= views.take(i as int));
        if same_text(file.tensors[i].name.as_str(), name) {
            proof {
                lemma_first_named(views, name@, i + 1);
            }
            return true;
        }
        i = i + 1;
    }
    assert(views.take(i as int) =~= views);
    false
}

impl<'a> Model<'a> {
    /// Whether all tensors fill their shapes.
    pub open spec fn wf(self) -> bool {
        &&& self.embedding.wf()
        &&& forall|i: int| 0 <= i < self.layers@.len() ==> (#[trigger] self.layers@[i]).wf()
        &&& self.output_norm.wf()
        &&& self.lm_head.wf()
    }

    /// Reads the network of a file.
    pub fn load<F: Arithmetic>(f: &F, file: &GgufFile<'a>, use_f32: bool) -> (r: Result<Model<'a>, FurnaceError>)
        requires
            f.wf(),
            file.wf(),
        ensures
            match r {
                Ok(m) => m.wf() && model_of(f, file, use_f32) == Ok::<_, ErrorView>(m@),
                Err(e) => model_of(f, file, use_f32) == Err::<ModelView, _>(e@),
            },
            r matches Ok(m) ==> ({
                &&& config_of(file) == Ok::<Config, ErrorView>(m.config)
                &&& weight_of(f, file, "token_embd.weight"@, use_f32) == Ok::<WeightView, ErrorView>(m.embedding@)
                &&& loaded(f, file, "output_norm.weight"@) == Ok::<TensorView, ErrorView>(m.output_norm@)
                &&& (exists|i: int| 0 <= i < file.tensors@.len() && #[trigger] file.tensors@[i].name@ == "output.weight"@)
                    ==> weight_of(f, file, "output.weight"@, use_f32) == Ok::<WeightView, ErrorView>(m.lm_head@)
                &&& !(exists|i: int| 0 <= i < file.tensors@.len() && #[trigger] file.tensors@[i].name@ == "output.weight"@)
                    ==> m.lm_head@ == m.embedding@
                &&& m.layers@.len() == m.config.n_layers
                &&& forall|i: int|
                    0 <= i < m.layers@.len() ==> layer_of(f, file, i as nat, use_f32) == Ok::<LayerView, ErrorView>(#[trigger] m.layers@[i]@)
            }),
    {
        let config: Config = match Config::from_gguf(file) {
            Ok(c) => c,
            Err(e) => return Err(e),
        };
        let embedding: Weight<'a> = match load_weight(f, file, "token_embd.weight", use_f32) {
            Ok(w) => w,
            Err(e) => return Err(e),
        };
        if !embedding.is_matrix() {
            return Err(refuse(&embedding, "token_embd.weight"));
        }
        let (out, inn): (usize, usize) = (embedding.out_dim(), embedding.in_dim());
        if out != config.vocab || inn != config.hidden {
            return Err(FurnaceError::EmbeddingShape { out, inn, vocab: config.vocab, hidden: config.hidden });
        }
        let layers: Vec<Layer<'a>> = match load_layers(f, file, config.n_layers, use_f32) {
            Ok(layers) => layers,
            Err(e) => return Err(e),
        };
        if let Some(e) = check_gates(layers.as_slice(), &config) {
            return Err(e);
        }
        let output_norm: Tensor = match Tensor::from_gguf(f, file, "output_norm.weight") {
            Ok(t) => t,
            Err(e) => return Err(e),
        };
        let head: &str = if has_tensor(file, "output.weight") {
            "output.weight"
        } else {
            "token_embd.weight"
        };
        let lm_head: Weight<'a> = match load_weight(f, file, head, use_f32) {
            Ok(w) => w,
            Err(e) => return Err(e),
        };
        if !lm_head.is_matrix() {
            return Err(refuse(&lm_head, head));
        }
        let (head_out, head_inn): (usize, usize) = (lm_head.out_dim(), lm_head.in_dim());
        if head_out != config.vocab || head_inn != config.hidden {
            return Err(FurnaceError::HeadShape { out: head_out, inn: head_inn, vocab: config.vocab, hidden: config.hidden });
        }
        proof {
            let views = layer_views(layers@);
            lemma_layers(f, file, config.n_layers as nat, use_f32, views);
            assert forall|i: int| 0 <= i < layers@.len() implies layer_of(f, file, i as nat, use_f32) == Ok::<LayerView, ErrorView>(#[trigger] layers@[i]@) by {
                assert(views[i] == layers@[i]@);
            }
            lemma_some_named(tensor_views(file.tensors@), "output.weight"@);
            if first_named(tensor_views(file.tensors@), "output.weight"@) is Some {
                let i = choose|i: int| 0 <= i < file.tensors@.len() && tensor_views(file.tensors@)[i].name == "output.weight"@;
                assert(file.tensors@[i].name@ == "output.weight"@);
            } else {
                assert forall|i: int| 0 <= i < file.tensors@.len() implies #[trigger] file.tensors@[i].name@ != "output.weight"@ by {
                    assert(tensor_views(file.tensors@)[i].name != "output.weight"@);
                }
            }
        }
        Ok(Model { config, embedding, layers, output_norm, lm_head })
    }
}

} // verus!
