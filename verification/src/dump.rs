//! What a model file holds, as text.

use vstd::prelude::*;
use vstd::string::*;
use vstd::utf8::*;

use crate::error::{ErrorView, FurnaceError};
use crate::float::Arithmetic;
use crate::gguf::{elements, entries_map, lemma_array_view, lemma_entries_map, value_views, GgmlType, GgufFile, GgufValue, Metadata, ParsedView, TensorInfo, TensorInfoView, ValueView};
use crate::quant::{dequantize, dequantized, lemma_decoded_range, lemma_dequantized_len};
use crate::text::{bytes_before, clip, clipped, comes_before, decimal, decimal_text, lemma_before_asymmetric, lemma_before_transitive, lemma_encode_injective, push_spaces, signed_decimal, signed_text, spaces};

verus! {

/// Longer strings are cut off.
pub const SHOWN_BYTES: usize = 80;

/// Of an array, this many items are shown.
pub const SHOWN_ITEMS: usize = 8;

/// How floating-point numbers, given by their bit patterns, are written.
pub trait FloatText {
    /// Whether every number has one text.
    spec fn wf(&self) -> bool;

    /// The text of a single-precision number.
    spec fn single(&self, bits: u32) -> Seq<char>;

    /// The text of a double-precision number.
    spec fn double(&self, bits: u64) -> Seq<char>;

    /// Writes a single-precision number.
    fn single_text(&self, bits: u32) -> (r: String)
        requires
            self.wf(),
        ensures
            r@ == self.single(bits),
    ;

    /// Writes a double-precision number.
    fn double_text(&self, bits: u64) -> (r: String)
        requires
            self.wf(),
        ensures
            r@ == self.double(bits),
    ;
}

/// Two functions that write floating-point numbers.
pub struct FloatWriters<A, B> {
    pub single: A,
    pub double: B,
}

impl<A: Fn(u32) -> String, B: Fn(u64) -> String> FloatText for FloatWriters<A, B> {
    open spec fn wf(&self) -> bool {
        &&& forall|bits: u32| call_requires(self.single, (bits,))
        &&& forall|bits: u32, r: String, s: String| call_ensures(self.single, (bits,), r) && call_ensures(self.single, (bits,), s) ==> r@ == s@
        &&& forall|bits: u64| call_requires(self.double, (bits,))
        &&& forall|bits: u64, r: String, s: String| call_ensures(self.double, (bits,), r) && call_ensures(self.double, (bits,), s) ==> r@ == s@
    }

    open spec fn single(&self, bits: u32) -> Seq<char> {
        (choose|r: String| call_ensures(self.single, (bits,), r))@
    }

    open spec fn double(&self, bits: u64) -> Seq<char> {
        (choose|r: String| call_ensures(self.double, (bits,), r))@
    }

    fn single_text(&self, bits: u32) -> (r: String) {
        (self.single)(bits)
    }

    fn double_text(&self, bits: u64) -> (r: String) {
        (self.double)(bits)
    }
}

/// The text in double quotes, with escapes, as `std`'s `Debug` for `str` writes it.
pub uninterp spec fn quoted(s: Seq<char>) -> Seq<char>;

/// Writes a text in double quotes through `std`'s `Debug` for `str` (the `{:?}` of `format!`), whose
/// result depends on the text alone.
#[verifier::external_body]
pub(crate) fn quoted_text(s: &str) -> (r: String)
    ensures
        r@ == quoted(s@),
{
    format!("{:?}", s)
}

/// What stands for the items that are not shown.
pub open spec fn ellipsis(n: nat) -> Seq<char> {
    if n > SHOWN_ITEMS {
        ", ..."@
    } else {
        ""@
    }
}

/// The text of a metadata value. Long strings are cut off, and of long arrays the first items are
/// shown.
pub open spec fn value_text<T: FloatText>(v: ValueView, texts: &T) -> Seq<char>
    decreases v, 0nat,
{
    match v {
        ValueView::U8(n) => decimal(n as nat),
        ValueView::I8(n) => signed_decimal(n as int),
        ValueView::U16(n) => decimal(n as nat),
        ValueView::I16(n) => signed_decimal(n as int),
        ValueView::U32(n) => decimal(n as nat),
        ValueView::I32(n) => signed_decimal(n as int),
        ValueView::F32(bits) => texts.single(bits),
        ValueView::Bool(b) => if b {
            "true"@
        } else {
            "false"@
        },
        ValueView::String(s) => quoted(clipped(s, SHOWN_BYTES as nat)),
        ValueView::Array(items) => "["@ + items_text(
            items,
            if items.len() > SHOWN_ITEMS {
                SHOWN_ITEMS as nat
            } else {
                items.len()
            },
            texts,
        ) + ellipsis(items.len()) + "] ("@ + decimal(items.len()) + " items)"@,
        ValueView::U64(n) => decimal(n as nat),
        ValueView::I64(n) => signed_decimal(n as int),
        ValueView::F64(bits) => texts.double(bits),
    }
}

/// The texts of the first `n` items, with commas between them.
pub open spec fn items_text<T: FloatText>(items: Seq<ValueView>, n: nat, texts: &T) -> Seq<char>
    decreases items, n,
{
    if n == 0 || n > items.len() {
        seq![]
    } else if n == 1 {
        value_text(items[0], texts)
    } else {
        items_text(items, (n - 1) as nat, texts) + ", "@ + value_text(items[n - 1], texts)
    }
}

/// Writes a metadata value.
pub fn format_value<T: FloatText>(v: &GgufValue, texts: &T) -> (r: String)
    requires
        texts.wf(),
    ensures
        r@ == value_text(v@, texts),
    decreases v,
{
    match v {
        GgufValue::U8(n) => decimal_text(*n as u64),
        GgufValue::I8(n) => signed_text(*n as i64),
        GgufValue::U16(n) => decimal_text(*n as u64),
        GgufValue::I16(n) => signed_text(*n as i64),
        GgufValue::U32(n) => decimal_text(*n as u64),
        GgufValue::I32(n) => signed_text(*n as i64),
        GgufValue::F32(bits) => texts.single_text(*bits),
        GgufValue::Bool(b) => if *b {
            String::from_str("true")
        } else {
            String::from_str("false")
        },
        GgufValue::String(s) => quoted_text(clip(s.as_str(), SHOWN_BYTES)),
        GgufValue::Array(items) => {
            proof {
                lemma_array_view(*items);
            }
            let shown: usize = if items.len() > SHOWN_ITEMS {
                SHOWN_ITEMS
            } else {
                items.len()
            };
            let ghost views = value_views(items@);
            let mut list: String = String::new();
            let mut i: usize = 0;
            assert(list@ =~= items_text(views, 0, texts));
            while i < shown
                invariant
                    i <= shown <= items@.len(),
                    views == value_views(items@),
                    list@ == items_text(views, i as nat, texts),
                    texts.wf(),
                    *v is Array,
                    *items == v->Array_0,
                decreases shown - i,
            {
                assert(decreases_to!(v => v->Array_0@[i as int]));
                let text: String = format_value(&items[i], texts);
                if i == 0 {
                    list = text;
                } else {
                    list.append(", ");
                    list.append(text.as_str());
                }
                i = i + 1;
            }
            let mut out: String = String::from_str("[");
            out.append(list.as_str());
            if items.len() > SHOWN_ITEMS {
                out.append(", ...");
            } else {
                out.append("");
            }
            out.append("] (");
            let count: String = decimal_text(items.len() as u64);
            out.append(count.as_str());
            out.append(" items)");
            out
        },
        GgufValue::U64(n) => decimal_text(*n),
        GgufValue::I64(n) => signed_text(*n),
        GgufValue::F64(bits) => texts.double_text(*bits),
    }
}

/// The name of a tensor data type.
pub open spec fn dtype_text(t: GgmlType) -> Seq<char> {
    match t {
        GgmlType::F32 => "F32"@,
        GgmlType::F16 => "F16"@,
        GgmlType::Q4_0 => "Q4_0"@,
        GgmlType::Q4_1 => "Q4_1"@,
        GgmlType::Q5_0 => "Q5_0"@,
        GgmlType::Q5_1 => "Q5_1"@,
        GgmlType::Q8_0 => "Q8_0"@,
        GgmlType::Q8_1 => "Q8_1"@,
        GgmlType::Q2K => "Q2K"@,
        GgmlType::Q3K => "Q3K"@,
        GgmlType::Q4K => "Q4K"@,
        GgmlType::Q5K => "Q5K"@,
        GgmlType::Q6K => "Q6K"@,
        GgmlType::Q8K => "Q8K"@,
        GgmlType::I8 => "I8"@,
        GgmlType::I16 => "I16"@,
        GgmlType::I32 => "I32"@,
        GgmlType::I64 => "I64"@,
        GgmlType::F64 => "F64"@,
        GgmlType::Bf16 => "Bf16"@,
    }
}

/// The name of a tensor data type.
pub fn dtype_name(t: GgmlType) -> (r: &'static str)
    ensures
        r@ == dtype_text(t),
{
    match t {
        GgmlType::F32 => "F32",
        GgmlType::F16 => "F16",
        GgmlType::Q4_0 => "Q4_0",
        GgmlType::Q4_1 => "Q4_1",
        GgmlType::Q5_0 => "Q5_0",
        GgmlType::Q5_1 => "Q5_1",
        GgmlType::Q8_0 => "Q8_0",
        GgmlType::Q8_1 => "Q8_1",
        GgmlType::Q2K => "Q2K",
        GgmlType::Q3K => "Q3K",
        GgmlType::Q4K => "Q4K",
        GgmlType::Q5K => "Q5K",
        GgmlType::Q6K => "Q6K",
        GgmlType::Q8K => "Q8K",
        GgmlType::I8 => "I8",
        GgmlType::I16 => "I16",
        GgmlType::I32 => "I32",
        GgmlType::I64 => "I64",
        GgmlType::F64 => "F64",
        GgmlType::Bf16 => "Bf16",
    }
}

/// The first `n` dimensions, with commas between them.
pub open spec fn dims_text(dims: Seq<u64>, n: nat) -> Seq<char>
    decreases n,
{
    if n == 0 {
        seq![]
    } else if n == 1 {
        decimal(dims[0] as nat)
    } else {
        dims_text(dims, (n - 1) as nat) + ", "@ + decimal(dims[n - 1] as nat)
    }
}

/// Writes dimensions, with commas between them.
pub fn write_dims(dims: &[u64]) -> (r: String)
    ensures
        r@ == dims_text(dims@, dims@.len()),
{
    let mut list: String = String::new();
    let mut i: usize = 0;
    assert(list@ =~= dims_text(dims@, 0));
    while i < dims.len()
        invariant
            i <= dims@.len(),
            list@ == dims_text(dims@, i as nat),
        decreases dims@.len() - i,
    {
        let text: String = decimal_text(dims[i]);
        if i == 0 {
            list = text;
        } else {
            list.append(", ");
            list.append(text.as_str());
        }
        i = i + 1;
    }
    list
}

/// The line on the tensor with number `i`: the number to the right of four columns, the name to the
/// left of forty.
pub open spec fn tensor_line(i: nat, t: TensorInfoView) -> Seq<char> {
    "  "@ + spaces(4 - decimal(i).len()) + decimal(i) + "  "@ + t.name + spaces(40 - t.name.len()) + "  ["@ + dims_text(t.dims, t.dims.len())
        + "]  "@ + dtype_text(t.dtype) + "  offset "@ + decimal(t.offset as nat) + "\n"@
}

/// Writes the line on one tensor.
fn write_tensor_line(i: usize, t: &TensorInfo) -> (r: String)
    ensures
        r@ == tensor_line(i as nat, t@),
{
    let mut out: String = String::from_str("  ");
    let number: String = decimal_text(i as u64);
    let digits: usize = number.as_str().unicode_len();
    push_spaces(
        &mut out,
        if digits < 4 {
            4 - digits
        } else {
            0
        },
    );
    assert(spaces(4 - digits) =~= spaces(if digits < 4 { 4 - digits } else { 0 }));
    out.append(number.as_str());
    out.append("  ");
    out.append(t.name.as_str());
    let width: usize = t.name.as_str().unicode_len();
    push_spaces(
        &mut out,
        if width < 40 {
            40 - width
        } else {
            0
        },
    );
    assert(spaces(40 - width) =~= spaces(if width < 40 { 40 - width } else { 0 }));
    out.append("  [");
    let dims: String = write_dims(t.dims.as_slice());
    out.append(dims.as_str());
    out.append("]  ");
    out.append(dtype_name(t.dtype));
    out.append("  offset ");
    let offset: String = decimal_text(t.offset);
    out.append(offset.as_str());
    out.append("\n");
    out
}

/// Whether these are the keys of the metadata in the order of their bytes, each once.
pub open spec fn is_key_order(keys: Seq<Seq<char>>, all: Set<Seq<char>>) -> bool {
    &&& forall|i: int, j: int| 0 <= i < j < keys.len() ==> comes_before(encode_utf8(#[trigger] keys[i]), encode_utf8(#[trigger] keys[j]))
    &&& forall|k: Seq<char>| #[trigger] all.contains(k) <==> exists|i: int| 0 <= i < keys.len() && #[trigger] keys[i] == k
}

/// There is one order of the keys.
pub proof fn lemma_key_order_unique(a: Seq<Seq<char>>, b: Seq<Seq<char>>, all: Set<Seq<char>>)
    requires
        is_key_order(a, all),
        is_key_order(b, all),
    ensures
        a == b,
    decreases a.len(),
{
    if a.len() == 0 {
        if b.len() > 0 {
            assert(all.contains(b[0]));
        }
        assert(a =~= b);
    } else {
        let n = a.len() - 1;
        let m = b.len() - 1;
        assert(all.contains(a[n]));
        let i = choose|i: int| 0 <= i < b.len() && #[trigger] b[i] == a[n];
        assert(all.contains(b[m]));
        let j = choose|j: int| 0 <= j < a.len() && #[trigger] a[j] == b[m];
        if i < m {
            assert(comes_before(encode_utf8(b[i]), encode_utf8(b[m])));
            lemma_before_asymmetric(encode_utf8(b[i]), encode_utf8(b[m]));
            if j < n {
                assert(comes_before(encode_utf8(a[j]), encode_utf8(a[n])));
            }
        }
        assert(a[n] == b[m]);
        let last = a[n];
        lemma_without_last(a, all);
        lemma_without_last(b, all);
        lemma_key_order_unique(a.drop_last(), b.drop_last(), all.remove(last));
        assert(a =~= a.drop_last().push(last));
        assert(b =~= b.drop_last().push(last));
    }
}

/// An order without its last key is the order of the other keys.
proof fn lemma_without_last(a: Seq<Seq<char>>, all: Set<Seq<char>>)
    requires
        is_key_order(a, all),
        a.len() > 0,
    ensures
        is_key_order(a.drop_last(), all.remove(a.last())),
{
    let n = a.len() - 1;
    let rest = all.remove(a[n]);
    assert forall|k: Seq<char>| #[trigger] rest.contains(k) <==> exists|i: int| 0 <= i < a.drop_last().len() && #[trigger] a.drop_last()[i] == k by {
        if rest.contains(k) {
            assert(all.contains(k));
            let i = choose|i: int| 0 <= i < a.len() && #[trigger] a[i] == k;
            assert(a.drop_last()[i] == k);
        }
        if exists|i: int| 0 <= i < a.drop_last().len() && #[trigger] a.drop_last()[i] == k {
            let i = choose|i: int| 0 <= i < a.drop_last().len() && #[trigger] a.drop_last()[i] == k;
            assert(a[i] == k);
            assert(all.contains(k));
            assert(comes_before(encode_utf8(a[i]), encode_utf8(a[n])));
            lemma_before_asymmetric(encode_utf8(a[i]), encode_utf8(a[n]));
        }
    }
}

/// The keys of the entries with these numbers.
pub open spec fn keys_at(entries: Seq<(String, GgufValue)>, order: Seq<usize>) -> Seq<Seq<char>> {
    Seq::new(order.len(), |i: int| entries[order[i] as int].0@)
}

/// Whether the number occurs in the list.
spec fn listed(order: Seq<usize>, t: int) -> bool {
    exists|j: int| 0 <= j < order.len() && #[trigger] order[j] == t
}

/// The numbers of the entries in the order of their keys.
fn key_order(m: &Metadata) -> (r: Vec<usize>)
    requires
        m.wf(),
    ensures
        forall|i: int| 0 <= i < r@.len() ==> #[trigger] r@[i] < m.entries@.len(),
        is_key_order(keys_at(m.entries@, r@), m@.dom()),
{
    let ghost entries = m.entries@;
    let mut order: Vec<usize> = Vec::new();
    let mut i: usize = 0;
    while i < m.entries.len()
        invariant
            i <= m.entries@.len(),
            m.wf(),
            entries == m.entries@,
            forall|j: int| 0 <= j < order@.len() ==> #[trigger] order@[j] < i,
            forall|t: int| 0 <= t < i ==> #[trigger] listed(order@, t),
            forall|a: int, b: int| 0 <= a < b < order@.len() ==> comes_before(
                encode_utf8(entries[#[trigger] order@[a] as int].0@),
                encode_utf8(entries[#[trigger] order@[b] as int].0@),
            ),
        decreases m.entries@.len() - i,
    {
        let ghost key = encode_utf8(entries[i as int].0@);
        let ghost before = order@;
        let mut p: usize = 0;
        while p < order.len() && bytes_before(m.entries[order[p]].0.as_str().as_bytes(), m.entries[i].0.as_str().as_bytes())
            invariant
                p <= order@.len(),
                i < m.entries@.len(),
                entries == m.entries@,
                before == order@,
                key == encode_utf8(entries[i as int].0@),
                forall|j: int| 0 <= j < order@.len() ==> #[trigger] order@[j] < i,
                forall|j: int| 0 <= j < p ==> comes_before(encode_utf8(entries[#[trigger] order@[j] as int].0@), key),
            decreases order@.len() - p,
        {
            p = p + 1;
        }
        proof {
            if p < before.len() {
                let at = encode_utf8(entries[before[p as int] as int].0@);
                if at == key {
                    lemma_encode_injective(entries[before[p as int] as int].0@, entries[i as int].0@);
                    assert(entries[before[p as int] as int].0@ != entries[i as int].0@);
                }
                assert(comes_before(key, at));
                assert forall|j: int| p <= j < before.len() implies comes_before(key, encode_utf8(entries[#[trigger] before[j] as int].0@)) by {
                    if p < j {
                        assert(comes_before(at, encode_utf8(entries[before[j] as int].0@)));
                        lemma_before_transitive(key, at, encode_utf8(entries[before[j] as int].0@));
                    }
                }
            }
        }
        order.insert(p, i);
        proof {
            assert forall|t: int| 0 <= t < i + 1 implies #[trigger] listed(order@, t) by {
                if t == i {
                    assert(order@[p as int] == t);
                } else {
                    assert(listed(before, t));
                    let j = choose|j: int| 0 <= j < before.len() && #[trigger] before[j] == t;
                    if j < p {
                        assert(order@[j] == t);
                    } else {
                        assert(order@[j + 1] == t);
                    }
                }
            }
            assert forall|a: int, b: int| 0 <= a < b < order@.len() implies comes_before(
                encode_utf8(entries[#[trigger] order@[a] as int].0@),
                encode_utf8(entries[#[trigger] order@[b] as int].0@),
            ) by {
                let a0 = if a < p {
                    a
                } else {
                    a - 1
                };
                let b0 = if b < p {
                    b
                } else {
                    b - 1
                };
                if a != p && b != p {
                    assert(before[a0] == order@[a]);
                    assert(before[b0] == order@[b]);
                } else if a == p {
                    assert(before[b0] == order@[b]);
                } else {
                    assert(before[a0] == order@[a]);
                }
            }
        }
        i = i + 1;
    }
    proof {
        lemma_entries_map(entries);
        let keys = keys_at(entries, order@);
        assert forall|k: Seq<char>| #[trigger] m@.dom().contains(k) <==> exists|j: int| 0 <= j < keys.len() && #[trigger] keys[j] == k by {
            if m@.dom().contains(k) {
                let t = choose|t: int| 0 <= t < entries.len() && (#[trigger] entries[t]).0@ == k;
                assert(listed(order@, t));
                let j = choose|j: int| 0 <= j < order@.len() && #[trigger] order@[j] == t;
                assert(keys[j] == k);
            }
            if exists|j: int| 0 <= j < keys.len() && #[trigger] keys[j] == k {
                let j = choose|j: int| 0 <= j < keys.len() && #[trigger] keys[j] == k;
                assert(entries[order@[j] as int].0@ == k);
            }
        }
        assert forall|a: int, b: int| 0 <= a < b < keys.len() implies comes_before(encode_utf8(#[trigger] keys[a]), encode_utf8(#[trigger] keys[b])) by {
            assert(order@[a] < entries.len() && order@[b] < entries.len());
        }
    }
    order
}

/// The first line: what the file holds, in numbers.
pub open spec fn head_line(h: ParsedView) -> Seq<char> {
    "gguf version "@ + decimal(h.version as nat) + " | "@ + decimal(h.metadata.dom().len()) + " metadata keys | "@ + decimal(h.tensors.len())
        + " tensors | data starts at byte "@ + decimal(h.data_start as nat) + "\n"@
}

/// The lines on the first `n` of these keys.
pub open spec fn metadata_lines<T: FloatText>(metadata: Map<Seq<char>, ValueView>, keys: Seq<Seq<char>>, n: nat, texts: &T) -> Seq<char>
    decreases n,
{
    if n == 0 {
        seq![]
    } else {
        metadata_lines(metadata, keys, (n - 1) as nat, texts) + ("  "@ + keys[n - 1] + " = "@ + value_text(metadata[keys[n - 1]], texts) + "\n"@)
    }
}

/// The lines on the first `n` tensors.
pub open spec fn tensor_lines(tensors: Seq<TensorInfoView>, n: nat) -> Seq<char>
    decreases n,
{
    if n == 0 {
        seq![]
    } else {
        tensor_lines(tensors, (n - 1) as nat) + tensor_line((n - 1) as nat, tensors[n - 1])
    }
}

/// The part on the metadata.
pub open spec fn metadata_part<T: FloatText>(h: ParsedView, keys: Seq<Seq<char>>, with_metadata: bool, texts: &T) -> Seq<char> {
    if with_metadata {
        "\nmetadata:\n"@ + metadata_lines(h.metadata, keys, keys.len(), texts)
    } else {
        seq![]
    }
}

/// What a file with this header holds, with its metadata keys in this order.
pub open spec fn dump_text<T: FloatText>(h: ParsedView, keys: Seq<Seq<char>>, with_metadata: bool, texts: &T) -> Seq<char> {
    head_line(h) + metadata_part(h, keys, with_metadata, texts) + "\ntensors (dims in ggml order, fastest-varying first):\n"@ + tensor_lines(
        h.tensors,
        h.tensors.len(),
    )
}

/// Whether this text is the part on the metadata, with their keys in order.
spec fn is_metadata_part<T: FloatText>(text: Seq<char>, m: Map<Seq<char>, ValueView>, with_metadata: bool, texts: &T, keys: Seq<Seq<char>>) -> bool {
    &&& is_key_order(keys, m.dom())
    &&& text == if with_metadata {
        "\nmetadata:\n"@ + metadata_lines(m, keys, keys.len(), texts)
    } else {
        seq![]
    }
}

/// Writes the part on the metadata.
fn write_metadata<T: FloatText>(m: &Metadata, with_metadata: bool, texts: &T) -> (r: String)
    requires
        m.wf(),
        texts.wf(),
    ensures
        exists|keys: Seq<Seq<char>>| is_metadata_part(r@, m@, with_metadata, texts, keys),
{
    let order: Vec<usize> = key_order(m);
    let ghost keys = keys_at(m.entries@, order@);
    if !with_metadata {
        let out: String = String::new();
        assert(out@ =~= seq![]);
        assert(is_metadata_part(out@, m@, with_metadata, texts, keys));
        return out;
    }
    let mut lines: String = String::new();
    let mut i: usize = 0;
    assert(lines@ =~= metadata_lines(m@, keys, 0, texts));
    proof {
        lemma_entries_map(m.entries@);
    }
    while i < order.len()
        invariant
            i <= order@.len(),
            keys == keys_at(m.entries@, order@),
            texts.wf(),
            m@ == entries_map(m.entries@),
            forall|j: int| 0 <= j < order@.len() ==> #[trigger] order@[j] < m.entries@.len(),
            forall|j: int| 0 <= j < m.entries@.len() ==> entries_map(m.entries@)[(#[trigger] m.entries@[j]).0@] == m.entries@[j].1@,
            lines@ == metadata_lines(m@, keys, i as nat, texts),
        decreases order@.len() - i,
    {
        let entry: &(String, GgufValue) = &m.entries[order[i]];
        let mut line: String = String::from_str("  ");
        line.append(entry.0.as_str());
        line.append(" = ");
        let value: String = format_value(&entry.1, texts);
        line.append(value.as_str());
        line.append("\n");
        lines.append(line.as_str());
        i = i + 1;
        assert(keys[i - 1] == entry.0@);
    }
    let mut out: String = String::from_str("\nmetadata:\n");
    out.append(lines.as_str());
    assert(is_metadata_part(out@, m@, with_metadata, texts, keys));
    out
}

impl<'a> GgufFile<'a> {
    /// Writes what the file holds: one line in numbers, on request its metadata in the order of
    /// their keys, and its tensors.
    pub fn dump<T: FloatText>(&self, with_metadata: bool, texts: &T) -> (r: String)
        requires
            self.wf(),
            texts.wf(),
        ensures
            exists|keys: Seq<Seq<char>>| #[trigger] is_key_order(keys, self.metadata@.dom()) && r@ == dump_text(self.header(), keys, with_metadata, texts),
    {
        let mut out: String = String::from_str("gguf version ");
        let version: String = decimal_text(self.version as u64);
        out.append(version.as_str());
        out.append(" | ");
        let keys: String = decimal_text(self.metadata.len() as u64);
        out.append(keys.as_str());
        out.append(" metadata keys | ");
        let tensors: String = decimal_text(self.tensors.len() as u64);
        out.append(tensors.as_str());
        out.append(" tensors | data starts at byte ");
        let start: String = decimal_text(self.data_start as u64);
        out.append(start.as_str());
        out.append("\n");
        assert(out@ == head_line(self.header()));
        let ghost head = out@;
        let metadata: String = write_metadata(&self.metadata, with_metadata, texts);
        let ghost order = choose|keys: Seq<Seq<char>>| is_metadata_part(metadata@, self.metadata@, with_metadata, texts, keys);
        out.append(metadata.as_str());
        assert(out@ =~= head + metadata_part(self.header(), order, with_metadata, texts));
        out.append("\ntensors (dims in ggml order, fastest-varying first):\n");
        let ghost views = self.header().tensors;
        let mut lines: String = String::new();
        let mut i: usize = 0;
        assert(lines@ =~= tensor_lines(views, 0));
        while i < self.tensors.len()
            invariant
                i <= self.tensors@.len(),
                views == self.header().tensors,
                lines@ == tensor_lines(views, i as nat),
            decreases self.tensors@.len() - i,
        {
            let line: String = write_tensor_line(i, &self.tensors[i]);
            lines.append(line.as_str());
            i = i + 1;
        }
        out.append(lines.as_str());
        assert(out@ == dump_text(self.header(), order, with_metadata, texts));
        out
    }
}

// ---------------------------------------------------------------------------
// The numbers of a tensor.
// ---------------------------------------------------------------------------

/// The numbers from `start` on, `count` of them, of the tensor with this name.
pub open spec fn numbers_of<F: Arithmetic>(f: &F, file: &GgufFile, name: Seq<char>, start: usize, count: usize) -> Result<Seq<u32>, ErrorView> {
    match file.tensor_data(name) {
        Err(e) => Err(e),
        Ok((info, raw)) => {
            let n = (elements(info.dims) as u64) as usize;
            if start + count > n {
                Err(ErrorView::OutOfRange { start, count, elements: n })
            } else if count == 0 {
                Err(ErrorView::EmptyRange)
            } else {
                match dequantized(f, info.dtype, raw, n) {
                    Ok(all) => Ok(all.subrange(start as int, start + count)),
                    Err(e) => Err(e),
                }
            }
        },
    }
}

/// Decodes some numbers of a tensor. Only the blocks that hold them are decoded.
pub fn dump_tensor<F: Arithmetic>(f: &F, file: &GgufFile, name: &str, start: usize, count: usize) -> (r: Result<Vec<u32>, FurnaceError>)
    requires
        f.wf(),
        file.wf(),
    ensures
        match r {
            Ok(v) => numbers_of(f, file, name@, start, count) == Ok::<_, ErrorView>(v@),
            Err(e) => numbers_of(f, file, name@, start, count) == Err::<Seq<u32>, _>(e@),
        },
{
    let (info, raw) = match file.tensor(name) {
        Ok(found) => found,
        Err(e) => return Err(e),
    };
    let n: usize = info.n_elements();
    let end: usize = match start.checked_add(count) {
        Some(end) => end,
        None => return Err(FurnaceError::OutOfRange { start, count, elements: n }),
    };
    if end > n {
        return Err(FurnaceError::OutOfRange { start, count, elements: n });
    }
    if count == 0 {
        return Err(FurnaceError::EmptyRange);
    }
    decode_range(f, info.dtype, raw, n, start, count)
}

/// Decodes some numbers of the data of a tensor.
fn decode_range<F: Arithmetic>(f: &F, dtype: GgmlType, raw: &[u8], n: usize, start: usize, count: usize) -> (r: Result<Vec<u32>, FurnaceError>)
    requires
        f.wf(),
        0 < count,
        start + count <= n,
        dtype.layout() is Some,
        n % dtype.layout()->Some_0.0 == 0,
        raw@.len() == (n / dtype.layout()->Some_0.0) * dtype.layout()->Some_0.1,
    ensures
        match dequantized(f, dtype, raw@, n) {
            Ok(all) => r matches Ok(v) && v@ == all.subrange(start as int, start + count),
            Err(e) => r matches Err(got) && got@ == e,
        },
{
    let (elems, bytes): (usize, usize) = match dtype.block_layout() {
        Some(layout) => layout,
        None => return Err(FurnaceError::UnsupportedType(dtype)),
    };
    let end: usize = start + count;
    let first: usize = start / elems;
    proof {
        lemma_blocks_around(start as int, end as int, n as int, elems as int);
        assert(raw.len() == raw@.len());
    }
    let last: usize = if end % elems == 0 {
        end / elems
    } else {
        end / elems + 1
    };
    proof {
        let total = n / elems;
        assert(0 <= first * bytes <= last * bytes <= total * bytes) by (nonlinear_arith)
            requires
                0 <= first <= last <= total,
                bytes >= 0,
        ;
        assert(0 <= first * elems && (last - first) * elems <= total * elems) by (nonlinear_arith)
            requires
                0 <= first <= last <= total,
                elems >= 0,
        ;
        assert(last * elems == first * elems + (last - first) * elems) by (nonlinear_arith);
    }
    let part: &[u8] = vstd::slice::slice_subrange(raw, first * bytes, last * bytes);
    let values: Vec<u32> = match dequantize(f, dtype, part, (last - first) * elems) {
        Ok(values) => values,
        Err(e) => {
            proof {
                lemma_part_fails(f, dtype, raw@, n, first, last, elems, bytes);
            }
            return Err(e);
        },
    };
    let local: usize = start - first * elems;
    proof {
        lemma_part_decodes(f, dtype, raw@, n, first, last, elems, bytes);
        let all = dequantized(f, dtype, raw@, n)->Ok_0;
        assert(all.subrange(first * elems, last * elems).subrange(local as int, local + count) =~= all.subrange(start as int, end as int));
    }
    Ok(vstd::slice::slice_to_vec(vstd::slice::slice_subrange(values.as_slice(), local, local + count)))
}

/// The blocks around a range lie within all blocks, and hold it.
proof fn lemma_blocks_around(start: int, end: int, n: int, elems: int)
    requires
        0 <= start < end <= n,
        elems > 0,
        n % elems == 0,
    ensures
        ({
            let first = start / elems;
            let last = if end % elems == 0 {
                end / elems
            } else {
                end / elems + 1
            };
            &&& 0 <= first < last <= n / elems
            &&& first * elems <= start
            &&& end <= last * elems
            &&& (n / elems) * elems == n
        }),
{
    let first = start / elems;
    let down = end / elems;
    let total = n / elems;
    assert(first * elems <= start && start < (first + 1) * elems && first >= 0) by (nonlinear_arith)
        requires
            first == start / elems,
            0 <= start,
            elems > 0,
    ;
    assert(end == down * elems + end % elems && 0 <= end % elems < elems) by (nonlinear_arith)
        requires
            down == end / elems,
            elems > 0,
    ;
    assert(total * elems == n) by (nonlinear_arith)
        requires
            total == n / elems,
            n % elems == 0,
            elems > 0,
    ;
    assert((down + 1) * elems == down * elems + elems) by (nonlinear_arith);
    let last = if end % elems == 0 {
        down
    } else {
        down + 1
    };
    assert(last <= total) by (nonlinear_arith)
        requires
            end <= n,
            total * elems == n,
            elems > 0,
            last == down && end == down * elems || last == down + 1 && down * elems < n,
    ;
    assert(first < last) by (nonlinear_arith)
        requires
            first * elems <= start,
            start < end,
            end <= last * elems,
            elems > 0,
    ;
}

/// Whole blocks of data that decode give what stands at their place.
proof fn lemma_part_decodes<F: Arithmetic>(f: &F, dtype: GgmlType, raw: Seq<u8>, n: usize, first: usize, last: usize, elems: usize, bytes: usize)
    requires
        dtype.layout() == Some((elems, bytes)),
        0 <= first <= last <= n / elems,
        n % elems == 0,
        raw.len() == (n / elems) * bytes,
        (last - first) * elems <= usize::MAX,
        dequantized(f, dtype, raw.subrange(first * bytes, last * bytes), ((last - first) * elems) as usize) is Ok,
    ensures
        dequantized(f, dtype, raw, n) is Ok,
        dequantized(f, dtype, raw, n)->Ok_0.len() == n,
        0 <= first * elems <= last * elems <= n,
        dequantized(f, dtype, raw.subrange(first * bytes, last * bytes), ((last - first) * elems) as usize)->Ok_0 == dequantized(f, dtype, raw, n)->Ok_0.subrange(
            first * elems,
            last * elems,
        ),
{
    let k = ((last - first) * elems) as usize;
    let part = raw.subrange(first * bytes, last * bytes);
    let total = n / elems;
    assert(total * elems == n) by (nonlinear_arith)
        requires
            total == n / elems,
            n % elems == 0,
            elems > 0,
    ;
    assert(0 <= first * elems <= last * elems <= total * elems) by (nonlinear_arith)
        requires
            0 <= first <= last <= total,
            elems >= 0,
    ;
    assert(0 <= first * bytes <= last * bytes <= total * bytes) by (nonlinear_arith)
        requires
            0 <= first <= last <= total,
            bytes >= 0,
    ;
    lemma_dequantized_len(f, dtype, raw, n);
    if dtype == GgmlType::F32 {
        let all = dequantized(f, dtype, raw, n)->Ok_0;
        let got = dequantized(f, dtype, part, k)->Ok_0;
        assert forall|i: int| 0 <= i < k implies #[trigger] got[i] == all[first + i] by {
            assert(part[4 * i] == raw[4 * (first + i)]);
        }
        assert(got =~= all.subrange(first * elems, last * elems));
    } else {
        assert(k / elems == last - first) by (nonlinear_arith)
            requires
                k == (last - first) * elems,
                elems > 0,
        ;
        lemma_decoded_range(f, dtype, raw, total as nat, first as int, last as int);
    }
}

/// Whole blocks of data do not decode for the reason that all of them do not.
proof fn lemma_part_fails<F: Arithmetic>(f: &F, dtype: GgmlType, raw: Seq<u8>, n: usize, first: usize, last: usize, elems: usize, bytes: usize)
    requires
        dtype.layout() == Some((elems, bytes)),
        0 <= first <= last <= n / elems,
        n % elems == 0,
        raw.len() == (n / elems) * bytes,
        (last - first) * elems <= usize::MAX,
        dequantized(f, dtype, raw.subrange(first * bytes, last * bytes), ((last - first) * elems) as usize) is Err,
    ensures
        dequantized(f, dtype, raw, n) is Err,
        dequantized(f, dtype, raw, n)->Err_0 == dequantized(
            f,
            dtype,
            raw.subrange(first * bytes, last * bytes),
            ((last - first) * elems) as usize,
        )->Err_0,
{
    let m = last - first;
    let k = (m * elems) as usize;
    assert(0 <= first * bytes <= last * bytes <= (n / elems) * bytes) by (nonlinear_arith)
        requires
            0 <= first <= last <= n / elems,
            bytes >= 0,
    ;
    assert(last * bytes - first * bytes == m * bytes) by (nonlinear_arith)
        requires
            m == last - first,
    ;
    assert(k % elems == 0 && k / elems == m) by (nonlinear_arith)
        requires
            k == m * elems,
            m >= 0,
            elems > 0,
    ;
}

} // verus!
