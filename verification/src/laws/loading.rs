//! What is read out of a model file, tensor by tensor and key by key.

use vstd::arithmetic::div_mod::{lemma_div_multiples_vanish, lemma_mod_multiples_basic};
use vstd::prelude::*;

use crate::bpe::numbering;
use crate::dump::numbers_of;
use crate::error::ErrorView;
use crate::float::Arithmetic;
use crate::gguf::{elements, first_named, lemma_some_named, tensor_views, GgmlType, GgufFile, TensorInfoView, ValueView};
use crate::model::{layer_bytes, layers_bytes};
use crate::tensor::{loaded, volume, TensorView};
use crate::text::decimal;
use crate::tokenizer::TokenizerView;
use crate::weights::{bad_gate, config_of, head_name, layer_of, layers_of, lemma_layer_names, model_of, weight_of, Config, LayerView, ModelView, WeightView};

verus! {

/// A tensor has the dimensions of the file from the last to the first. At full precision its numbers
/// are the four bytes each, the lowest first.
pub proof fn lemma_loaded<F: Arithmetic>(f: &F, file: &GgufFile, name: Seq<char>, info: TensorInfoView, raw: Seq<u8>, t: TensorView)
    requires
        file.tensor_data(name) == Ok::<(TensorInfoView, Seq<u8>), ErrorView>((info, raw)),
        loaded(f, file, name) == Ok::<TensorView, ErrorView>(t),
    ensures
        t.shape.len() == info.dims.len(),
        forall|i: int| 0 <= i < t.shape.len() ==> #[trigger] t.shape[i] == info.dims[info.dims.len() - 1 - i] as usize,
        t.data.len() == volume(t.shape),
        info.dtype == GgmlType::F32 ==> raw.len() == 4 * t.data.len() && forall|k: int|
            0 <= k < t.data.len() ==> #[trigger] t.data[k] == raw[4 * k] + 0x100 * raw[4 * k + 1] + 0x1_0000 * raw[4 * k + 2] + 0x100_0000 * raw[4 * k
                + 3],
{
}

/// Weights in blocks stay as the file has them, with the second dimension as the number of outputs and
/// the first as the number of inputs, unless full precision is asked for. Others are decoded.
pub proof fn lemma_weight<F: Arithmetic>(f: &F, file: &GgufFile, name: Seq<char>, full: bool, info: TensorInfoView, raw: Seq<u8>, w: WeightView)
    requires
        file.tensor_data(name) == Ok::<(TensorInfoView, Seq<u8>), ErrorView>((info, raw)),
        weight_of(f, file, name, full) == Ok::<WeightView, ErrorView>(w),
    ensures
        ({
            let in_blocks = info.dtype == GgmlType::Q8_0 || info.dtype == GgmlType::Q5_0 || info.dtype == GgmlType::Q4K || info.dtype == GgmlType::Q6K;
            if in_blocks && !full {
                &&& info.dims.len() == 2
                &&& w == (WeightView::Quant { raw, dtype: info.dtype, out: info.dims[1] as usize, inn: info.dims[0] as usize })
            } else {
                w matches WeightView::F32(t) && loaded(f, file, name) == Ok::<TensorView, ErrorView>(t)
            }
        }),
{
}

/// Some numbers of a tensor are those that stand there in the whole tensor.
pub proof fn lemma_numbers<F: Arithmetic>(f: &F, file: &GgufFile, name: Seq<char>, start: usize, count: usize, t: TensorView)
    requires
        loaded(f, file, name) == Ok::<TensorView, ErrorView>(t),
        count > 0,
        start + count <= t.data.len(),
        t.data.len() == (elements(file.tensor_data(name)->Ok_0.0.dims) as u64) as usize,
    ensures
        numbers_of(f, file, name, start, count) matches Ok(v) && v.len() == count && forall|k: int|
            0 <= k < count ==> #[trigger] v[k] == t.data[start + k],
{
}

/// The tokenizer of a file: its tokens are the strings of one array, a token is special if its number in
/// another array is 3 or 4, and its rules are the strings of a third, each with its place as its rank.
/// The file says that it has byte-level tokens, split in the way of its family.
pub proof fn lemma_tokenizer(file: GgufFile, t: TokenizerView)
    requires
        file.tokenizer() == Ok::<TokenizerView, ErrorView>(t),
    ensures
        ({
            let m = file.metadata@;
            let tokens = m["tokenizer.ggml.tokens"@]->Array_0;
            let types = m["tokenizer.ggml.token_type"@]->Array_0;
            let merges = m["tokenizer.ggml.merges"@]->Array_0;
            &&& m.contains_key("tokenizer.ggml.model"@) && m["tokenizer.ggml.model"@] == ValueView::String("gpt2"@)
            &&& m.contains_key("tokenizer.ggml.pre"@) && m["tokenizer.ggml.pre"@] == ValueView::String("qwen2"@)
            &&& m.contains_key("tokenizer.ggml.tokens"@) && m["tokenizer.ggml.tokens"@] is Array
            &&& m.contains_key("tokenizer.ggml.token_type"@) && m["tokenizer.ggml.token_type"@] is Array
            &&& m.contains_key("tokenizer.ggml.merges"@) && m["tokenizer.ggml.merges"@] is Array
            &&& t.vocab.len() == tokens.len() == types.len() == t.special.len()
            &&& forall|i: int| 0 <= i < tokens.len() ==> tokens[i] == ValueView::String(#[trigger] t.vocab[i])
            &&& forall|i: int| 0 <= i < types.len() ==> #[trigger] t.special[i] == (types[i].as_i64() == Some(3i64) || types[i].as_i64() == Some(4i64))
            &&& exists|rules: Seq<Seq<char>>| #[trigger] are_strings(merges, rules) && t.ranks == numbering(rules)
        }),
{
    let m = file.metadata@;
    let merges = m["tokenizer.ggml.merges"@]->Array_0;
    let (_, _, rules) = file.tokenizer_lists()->Ok_0;
    assert(are_strings(merges, rules));
}

/// Whether values are these strings.
pub open spec fn are_strings(values: Seq<ValueView>, list: Seq<Seq<char>>) -> bool {
    &&& values.len() == list.len()
    &&& forall|i: int| 0 <= i < values.len() ==> #[trigger] values[i] == ValueView::String(list[i])
}

/// An integer of any size and sign is read as the number it is, if 64 bits with a sign hold it.
pub proof fn lemma_integers(v: ValueView, n: i64)
    ensures
        v.as_i64() == Some(n) <==> match v {
            ValueView::U8(k) => n == k,
            ValueView::I8(k) => n == k,
            ValueView::U16(k) => n == k,
            ValueView::I16(k) => n == k,
            ValueView::U32(k) => n == k,
            ValueView::I32(k) => n == k,
            ValueView::U64(k) => n == k,
            ValueView::I64(k) => n == k,
            _ => false,
        },
{
}

/// The bytes of the weights: four for each number at full precision, and those of the file for weights
/// in blocks. Each tensor of a layer counts once, each layer once, and with them the embedding, the
/// output norm and the head.
pub proof fn lemma_bytes(m: ModelView, l: LayerView)
    ensures
        layer_bytes(l) == l.wq.bytes() + l.wk.bytes() + l.wv.bytes() + l.wo.bytes() + l.w_gate.bytes() + l.w_up.bytes() + l.w_down.bytes() + 4 * volume(
            l.attn_norm.shape,
        ) + 4 * volume(l.bq.shape) + 4 * volume(l.bk.shape) + 4 * volume(l.bv.shape) + 4 * volume(l.ffn_norm.shape),
        (ModelView { layers: m.layers.push(l), ..m }).param_bytes() == m.param_bytes() + layer_bytes(l),
        m.layers.len() == 0 ==> m.param_bytes() == m.embedding.bytes() + 4 * volume(m.output_norm.shape) + m.lm_head.bytes(),
{
    lemma_first_layers(m.layers, l, m.layers.len());
}

/// The bytes of the first layers are those without a layer behind them.
proof fn lemma_first_layers(layers: Seq<LayerView>, l: LayerView, n: nat)
    requires
        n <= layers.len(),
    ensures
        layers_bytes(layers.push(l), n) == layers_bytes(layers, n),
    decreases n,
{
    if n > 0 {
        lemma_first_layers(layers, l, (n - 1) as nat);
    }
}

/// The bytes of one weight.
pub proof fn lemma_weight_bytes(t: TensorView, raw: Seq<u8>, dtype: GgmlType, out: usize, inn: usize)
    ensures
        WeightView::F32(t).bytes() == 4 * volume(t.shape),
        (WeightView::Quant { raw, dtype, out, inn }).bytes() == raw.len(),
{
}

/// Which values are unsigned numbers of 32 bits: those of four bytes, and those of eight that fit. Texts
/// and arrays are what they are, and only a number of single precision is one.
pub proof fn lemma_kinds(v: ValueView, n: u32)
    ensures
        v.as_u32() == Some(n) <==> v == ValueView::U32(n) || v == ValueView::U64(n as u64),
        v.as_f32() == Some(n) <==> v == ValueView::F32(n),
        v.as_str() matches Some(s) ==> v == ValueView::String(s),
        v.as_array() matches Some(items) ==> v == ValueView::Array(items),
        v is String ==> v.as_str() is Some,
        v is Array ==> v.as_array() is Some,
{
}

/// What a key that has no such value, or none at all, is answered with.
pub proof fn lemma_missing_key(file: GgufFile, key: Seq<char>)
    ensures
        ({
            let m = file.metadata@;
            let there = m.contains_key(key);
            &&& !there || m[key].as_u32() is None ==> file.u32_at_key(key) == Err::<u32, ErrorView>(ErrorView::NotAU32 { key })
            &&& !there || m[key].as_f32() is None ==> file.float_at_key(key) == Err::<u32, ErrorView>(ErrorView::NotAFloat { key })
            &&& !there || m[key].as_str() is None ==> file.string_at_key(key) == Err::<Seq<char>, ErrorView>(ErrorView::NotAString { key })
            &&& !there || m[key].as_array() is None ==> file.array_at_key(key) == Err::<Seq<ValueView>, ErrorView>(ErrorView::NotAnArray { key })
            &&& there && m[key].as_u32() is Some ==> file.u32_at_key(key) == Ok::<u32, ErrorView>(m[key].as_u32()->0)
            &&& there && m[key].as_f32() is Some ==> file.float_at_key(key) == Ok::<u32, ErrorView>(m[key].as_f32()->0)
            &&& there && m[key].as_str() is Some ==> file.string_at_key(key) == Ok::<Seq<char>, ErrorView>(m[key].as_str()->0)
            &&& there && m[key].as_array() is Some ==> file.array_at_key(key) == Ok::<Seq<ValueView>, ErrorView>(m[key].as_array()->0)
        }),
{
}

/// Whether a weight is a matrix of `out` rows of `inn` numbers.
pub open spec fn is_matrix_of(w: WeightView, out: usize, inn: usize) -> bool {
    w.is_matrix() && w.out_dim() == out && w.in_dim() == inn
}

/// A network is read from a file if, and only if, its shape can be read, each of its tensors can, and
/// the embedding, the head and the first projection of each inner part have the sizes that the shape
/// asks for. It is made of these.
pub proof fn lemma_model<F: Arithmetic>(f: &F, file: &GgufFile, full: bool, m: ModelView)
    ensures
        model_of(f, file, full) == Ok::<ModelView, ErrorView>(m) <==> {
            let c = m.config;
            &&& config_of(file) == Ok::<Config, ErrorView>(c)
            &&& weight_of(f, file, "token_embd.weight"@, full) == Ok::<WeightView, ErrorView>(m.embedding)
            &&& is_matrix_of(m.embedding, c.vocab, c.hidden)
            &&& layers_of(f, file, c.n_layers as nat, full) == Ok::<Seq<LayerView>, ErrorView>(m.layers)
            &&& forall|i: int| 0 <= i < m.layers.len() ==> is_matrix_of((#[trigger] m.layers[i]).w_gate, c.ffn, c.hidden)
            &&& loaded(f, file, "output_norm.weight"@) == Ok::<TensorView, ErrorView>(m.output_norm)
            &&& weight_of(f, file, head_name(file), full) == Ok::<WeightView, ErrorView>(m.lm_head)
            &&& is_matrix_of(m.lm_head, c.vocab, c.hidden)
        },
{
    if config_of(file) is Ok && layers_of(f, file, config_of(file)->Ok_0.n_layers as nat, full) is Ok {
        let c = config_of(file)->Ok_0;
        let layers = layers_of(f, file, c.n_layers as nat, full)->Ok_0;
        lemma_sizes_checked(layers, c, layers.len());
    }
}

/// The sizes of the first `n` layers are found good if, and only if, they are.
proof fn lemma_sizes_checked(layers: Seq<LayerView>, c: Config, n: nat)
    ensures
        bad_gate(layers, c, n) is None <==> forall|i: int| 0 <= i < n ==> is_matrix_of((#[trigger] layers[i]).w_gate, c.ffn, c.hidden),
    decreases n,
{
    if n > 0 {
        lemma_sizes_checked(layers, c, (n - 1) as nat);
        let last = layers[n - 1];
        assert(bad_gate(layers, c, n) is None <==> bad_gate(layers, c, (n - 1) as nat) is None && is_matrix_of(last.w_gate, c.ffn, c.hidden));
        if forall|i: int| 0 <= i < n ==> is_matrix_of((#[trigger] layers[i]).w_gate, c.ffn, c.hidden) {
            assert(is_matrix_of(layers[n - 1].w_gate, c.ffn, c.hidden));
        }
    }
}

/// The head is the tensor `output.weight` if there is one, and the embedding if not.
pub proof fn lemma_head(file: &GgufFile)
    ensures
        (exists|i: int| 0 <= i < file.tensors@.len() && #[trigger] file.tensors@[i].name@ == "output.weight"@) ==> head_name(file) == "output.weight"@,
        !(exists|i: int| 0 <= i < file.tensors@.len() && #[trigger] file.tensors@[i].name@ == "output.weight"@) ==> head_name(file)
            == "token_embd.weight"@,
{
    let views = tensor_views(file.tensors@);
    lemma_some_named(views, "output.weight"@);
    if first_named(views, "output.weight"@) is Some {
        let i = choose|i: int| 0 <= i < views.len() && views[i].name == "output.weight"@;
        assert(file.tensors@[i].name@ == "output.weight"@);
    } else {
        assert forall|i: int| 0 <= i < file.tensors@.len() implies #[trigger] file.tensors@[i].name@ != "output.weight"@ by {
            assert(views[i].name != "output.weight"@);
        }
    }
}

/// A layer is read if, and only if, each of its twelve tensors can be, and is made of these.
pub proof fn lemma_layer<F: Arithmetic>(f: &F, file: &GgufFile, idx: nat, full: bool, l: LayerView)
    ensures
        layer_of(f, file, idx, full) == Ok::<LayerView, ErrorView>(l) <==> {
            let blk = "blk."@ + decimal(idx);
            &&& loaded(f, file, blk + ".attn_norm.weight"@) == Ok::<TensorView, ErrorView>(l.attn_norm)
            &&& weight_of(f, file, blk + ".attn_q.weight"@, full) == Ok::<WeightView, ErrorView>(l.wq)
            &&& loaded(f, file, blk + ".attn_q.bias"@) == Ok::<TensorView, ErrorView>(l.bq)
            &&& weight_of(f, file, blk + ".attn_k.weight"@, full) == Ok::<WeightView, ErrorView>(l.wk)
            &&& loaded(f, file, blk + ".attn_k.bias"@) == Ok::<TensorView, ErrorView>(l.bk)
            &&& weight_of(f, file, blk + ".attn_v.weight"@, full) == Ok::<WeightView, ErrorView>(l.wv)
            &&& loaded(f, file, blk + ".attn_v.bias"@) == Ok::<TensorView, ErrorView>(l.bv)
            &&& weight_of(f, file, blk + ".attn_output.weight"@, full) == Ok::<WeightView, ErrorView>(l.wo)
            &&& loaded(f, file, blk + ".ffn_norm.weight"@) == Ok::<TensorView, ErrorView>(l.ffn_norm)
            &&& weight_of(f, file, blk + ".ffn_gate.weight"@, full) == Ok::<WeightView, ErrorView>(l.w_gate)
            &&& weight_of(f, file, blk + ".ffn_up.weight"@, full) == Ok::<WeightView, ErrorView>(l.w_up)
            &&& weight_of(f, file, blk + ".ffn_down.weight"@, full) == Ok::<WeightView, ErrorView>(l.w_down)
        },
{
    reveal(layer_of);
    lemma_layer_names(idx);
}

/// A file with all the numbers of a network's shape, whose heads share the hidden numbers evenly, gives
/// that shape.
pub proof fn lemma_shape_is_read(file: &GgufFile, c: Config, tokens: Seq<ValueView>)
    requires
        file.string_at_key("general.architecture"@) == Ok::<Seq<char>, ErrorView>("qwen2"@),
        file.u32_at_key("qwen2.block_count"@) == Ok::<u32, ErrorView>(c.n_layers as u32),
        c.n_layers <= u32::MAX,
        file.u32_at_key("qwen2.attention.head_count"@) == Ok::<u32, ErrorView>(c.n_heads as u32),
        c.n_heads <= u32::MAX,
        file.u32_at_key("qwen2.attention.head_count_kv"@) == Ok::<u32, ErrorView>(c.n_kv_heads as u32),
        c.n_kv_heads <= u32::MAX,
        file.u32_at_key("qwen2.embedding_length"@) == Ok::<u32, ErrorView>(c.hidden as u32),
        c.hidden <= u32::MAX,
        file.u32_at_key("qwen2.feed_forward_length"@) == Ok::<u32, ErrorView>(c.ffn as u32),
        c.ffn <= u32::MAX,
        file.float_at_key("qwen2.rope.freq_base"@) == Ok::<u32, ErrorView>(c.rope_theta),
        file.float_at_key("qwen2.attention.layer_norm_rms_epsilon"@) == Ok::<u32, ErrorView>(c.rms_eps),
        file.u32_at_key("qwen2.context_length"@) == Ok::<u32, ErrorView>(c.context_length as u32),
        c.context_length <= u32::MAX,
        file.array_at_key("tokenizer.ggml.tokens"@) == Ok::<Seq<ValueView>, ErrorView>(tokens),
        c.vocab == tokens.len() as usize,
        c.n_heads > 0,
        c.hidden == c.n_heads * c.head_dim,
    ensures
        config_of(file) == Ok::<Config, ErrorView>(c),
{
    reveal(config_of);
    lemma_div_multiples_vanish(c.head_dim as int, c.n_heads as int);
    lemma_mod_multiples_basic(c.head_dim as int, c.n_heads as int);
    assert(c.n_heads * c.head_dim == c.head_dim * c.n_heads) by (nonlinear_arith);
}

/// A file of another family is refused with its family, and heads that cannot share the hidden numbers
/// evenly are refused with both numbers.
pub proof fn lemma_shape_is_refused(file: &GgufFile, family: Seq<char>, heads: u32, hidden: u32)
    requires
        file.string_at_key("general.architecture"@) == Ok::<Seq<char>, ErrorView>(family),
    ensures
        family != "qwen2"@ ==> config_of(file) == Err::<Config, ErrorView>(ErrorView::UnsupportedArchitecture { architecture: family }),
        family == "qwen2"@ && file.u32_at_key("qwen2.attention.head_count"@) == Ok::<u32, ErrorView>(heads) && file.u32_at_key("qwen2.embedding_length"@)
            == Ok::<u32, ErrorView>(hidden) && (heads == 0 || hidden % heads != 0) ==> config_of(file) == Err::<Config, ErrorView>(
            ErrorView::UnevenHeads { hidden: hidden as usize, heads: heads as usize },
        ),
{
    reveal(config_of);
}

} // verus!
