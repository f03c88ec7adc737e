//! Model files: what a writer puts down is what the reader gives back.

use vstd::arithmetic::div_mod::{lemma_div_multiples_vanish, lemma_fundamental_div_mod, lemma_mod_bound, lemma_mod_multiples_basic};
use vstd::arithmetic::power2::is_pow2;
use vstd::prelude::*;
use vstd::utf8::*;

use crate::error::{ErrorView, ReadError};
use crate::gguf::{data_start_of, dims_at, elements, elements_fit, entry_at, first_named, lemma_some_named, little_endian, metadata_at, parsed, string_at, tensor_at, tensor_views, tensors_at, take_at, uint_at, value_at, values_at, GgmlType, GgufFile, ParsedView, TensorInfoView, ValueView};

verus! {

// ---------------------------------------------------------------------------
// Bytes at a place.
// ---------------------------------------------------------------------------

/// Whether these bytes stand at a place of the data.
pub open spec fn stands(data: Seq<u8>, pos: int, bytes: Seq<u8>) -> bool {
    &&& 0 <= pos
    &&& pos + bytes.len() <= data.len()
    &&& data.subrange(pos, pos + bytes.len()) == bytes
}

/// Two parts stand one behind the other.
proof fn lemma_two_parts(data: Seq<u8>, pos: int, a: Seq<u8>, b: Seq<u8>)
    requires
        stands(data, pos, a + b),
    ensures
        stands(data, pos, a),
        stands(data, pos + a.len(), b),
{
    let both = data.subrange(pos, pos + a.len() + b.len());
    assert(both.subrange(0, a.len() as int) =~= a);
    assert(both.subrange(a.len() as int, (a.len() + b.len()) as int) =~= b);
    assert(data.subrange(pos, pos + a.len()) =~= both.subrange(0, a.len() as int));
    assert(data.subrange(pos + a.len(), pos + a.len() + b.len()) =~= both.subrange(a.len() as int, (a.len() + b.len()) as int));
}

// ---------------------------------------------------------------------------
// Integers and strings.
// ---------------------------------------------------------------------------

/// The bytes of a number, the lowest first.
pub open spec fn written_uint(n: nat, size: nat) -> Seq<u8>
    decreases size,
{
    if size == 0 {
        seq![]
    } else {
        seq![(n % 256) as u8] + written_uint(n / 256, (size - 1) as nat)
    }
}

/// Whether a number needs no more bytes than these.
pub open spec fn takes(n: nat, size: nat) -> bool
    decreases size,
{
    if size == 0 {
        n == 0
    } else {
        takes(n / 256, (size - 1) as nat)
    }
}

/// The bytes of a number are as many as asked for, and stand for the number.
pub proof fn lemma_written_uint(n: nat, size: nat)
    ensures
        written_uint(n, size).len() == size,
        takes(n, size) ==> little_endian(written_uint(n, size)) == n,
    decreases size,
{
    if size > 0 {
        lemma_written_uint(n / 256, (size - 1) as nat);
        assert(written_uint(n, size).drop_first() =~= written_uint(n / 256, (size - 1) as nat));
    }
}

/// How large a number of one, two, four or eight bytes can be.
proof fn lemma_takes(n: nat)
    ensures
        n <= 0xFF ==> takes(n, 1),
        n <= 0xFFFF ==> takes(n, 2),
        n <= 0xFFFF_FFFF ==> takes(n, 4),
        n <= 0xFFFF_FFFF_FFFF_FFFF ==> takes(n, 8),
{
    reveal_with_fuel(takes, 9);
}

/// A number that stands at a place is read there, and the reader goes on behind it.
pub proof fn lemma_uint_reads_back(data: Seq<u8>, pos: int, n: nat, size: usize)
    requires
        stands(data, pos, written_uint(n, size as nat)),
        takes(n, size as nat),
    ensures
        uint_at(data, pos, size) == (Ok::<nat, ReadError>(n), pos + size),
{
    lemma_written_uint(n, size as nat);
}

/// The bytes of a string: how many there are, as eight bytes, and its UTF-8.
pub open spec fn written_string(s: Seq<char>) -> Seq<u8> {
    written_uint(encode_utf8(s).len(), 8) + encode_utf8(s)
}

/// A string that stands at a place is read there.
pub proof fn lemma_string_reads_back(data: Seq<u8>, pos: int, s: Seq<char>)
    requires
        stands(data, pos, written_string(s)),
        data.len() <= usize::MAX,
    ensures
        string_at(data, pos) == (Ok::<Seq<char>, ReadError>(s), pos + written_string(s).len()),
{
    let bytes = encode_utf8(s);
    lemma_two_parts(data, pos, written_uint(bytes.len(), 8), bytes);
    lemma_takes(bytes.len());
    lemma_written_uint(bytes.len(), 8);
    lemma_uint_reads_back(data, pos, bytes.len(), 8);
    encode_utf8_valid_utf8(s);
    encode_utf8_decode_utf8(s);
}

// ---------------------------------------------------------------------------
// Metadata.
// ---------------------------------------------------------------------------

/// The number that a file writes for the type of a value.
pub open spec fn value_tag(v: ValueView) -> u32 {
    match v {
        ValueView::U8(_) => 0,
        ValueView::I8(_) => 1,
        ValueView::U16(_) => 2,
        ValueView::I16(_) => 3,
        ValueView::U32(_) => 4,
        ValueView::I32(_) => 5,
        ValueView::F32(_) => 6,
        ValueView::Bool(_) => 7,
        ValueView::String(_) => 8,
        ValueView::Array(_) => 9,
        ValueView::U64(_) => 10,
        ValueView::I64(_) => 11,
        ValueView::F64(_) => 12,
    }
}

/// A negative number is written as itself plus `all`.
pub open spec fn wrapped(n: int, all: int) -> nat {
    if n < 0 {
        (n + all) as nat
    } else {
        n as nat
    }
}

/// The number that a file writes for the type of the items of an array. All have one type; where there
/// are none, it is that of bytes.
pub open spec fn item_tag(items: Seq<ValueView>) -> u32 {
    if items.len() == 0 {
        0
    } else {
        value_tag(items[0])
    }
}

/// The bytes of a value.
pub open spec fn written_value(v: ValueView) -> Seq<u8>
    decreases v, 0nat,
{
    match v {
        ValueView::U8(n) => written_uint(n as nat, 1),
        ValueView::I8(n) => written_uint(wrapped(n as int, 0x100), 1),
        ValueView::U16(n) => written_uint(n as nat, 2),
        ValueView::I16(n) => written_uint(wrapped(n as int, 0x1_0000), 2),
        ValueView::U32(n) => written_uint(n as nat, 4),
        ValueView::I32(n) => written_uint(wrapped(n as int, 0x1_0000_0000), 4),
        ValueView::F32(n) => written_uint(n as nat, 4),
        ValueView::Bool(b) => written_uint(
            if b {
                1
            } else {
                0
            },
            1,
        ),
        ValueView::String(s) => written_string(s),
        ValueView::Array(items) => written_uint(item_tag(items) as nat, 4) + (written_uint(items.len(), 8) + written_values(items, items.len())),
        ValueView::U64(n) => written_uint(n as nat, 8),
        ValueView::I64(n) => written_uint(wrapped(n as int, 0x1_0000_0000_0000_0000), 8),
        ValueView::F64(n) => written_uint(n as nat, 8),
    }
}

/// The bytes of the first `n` values, one behind the other.
pub open spec fn written_values(items: Seq<ValueView>, n: nat) -> Seq<u8>
    decreases items, n,
{
    if n == 0 || n > items.len() {
        seq![]
    } else {
        written_values(items, (n - 1) as nat) + written_value(items[n - 1])
    }
}

/// Whether the items of all arrays in a value have one type each, and can be counted.
pub open spec fn is_uniform(v: ValueView) -> bool
    decreases v,
{
    match v {
        ValueView::Array(items) => {
            &&& items.len() <= usize::MAX
            &&& forall|i: int| 0 <= i < items.len() ==> value_tag(#[trigger] items[i]) == value_tag(items[0]) && is_uniform(items[i])
        },
        _ => true,
    }
}

/// Numbers with a sign, from the bytes of a number without one.
proof fn lemma_wrapped()
    ensures
        forall|n: i8| ((#[trigger] wrapped(n as int, 0x100) as u8) as i8) == n,
        forall|n: i16| ((#[trigger] wrapped(n as int, 0x1_0000) as u16) as i16) == n,
        forall|n: i32| ((#[trigger] wrapped(n as int, 0x1_0000_0000) as u32) as i32) == n,
        forall|n: i64| ((#[trigger] wrapped(n as int, 0x1_0000_0000_0000_0000) as u64) as i64) == n,
{
    assert forall|n: i8| ((#[trigger] wrapped(n as int, 0x100) as u8) as i8) == n by {
        let b = wrapped(n as int, 0x100) as u8;
        assert(b < 128 ==> (b as i8) == b) by (bit_vector);
        assert(b >= 128 ==> (b as i8) == b - 256) by (bit_vector);
    }
    assert forall|n: i16| ((#[trigger] wrapped(n as int, 0x1_0000) as u16) as i16) == n by {
        let b = wrapped(n as int, 0x1_0000) as u16;
        assert(b < 0x8000 ==> (b as i16) == b) by (bit_vector);
        assert(b >= 0x8000 ==> (b as i16) == b - 0x1_0000) by (bit_vector);
    }
    assert forall|n: i32| ((#[trigger] wrapped(n as int, 0x1_0000_0000) as u32) as i32) == n by {
        let b = wrapped(n as int, 0x1_0000_0000) as u32;
        assert(b < 0x8000_0000 ==> (b as i32) == b) by (bit_vector);
        assert(b >= 0x8000_0000 ==> (b as i32) == b - 0x1_0000_0000) by (bit_vector);
    }
    assert forall|n: i64| ((#[trigger] wrapped(n as int, 0x1_0000_0000_0000_0000) as u64) as i64) == n by {
        let b = wrapped(n as int, 0x1_0000_0000_0000_0000) as u64;
        assert(b < 0x8000_0000_0000_0000 ==> (b as i64) == b) by (bit_vector);
        assert(b >= 0x8000_0000_0000_0000 ==> (b as i64) == b - 0x1_0000_0000_0000_0000) by (bit_vector);
    }
}

/// A value that stands at a place is read there, by the number of its type.
pub proof fn lemma_value_reads_back(data: Seq<u8>, pos: int, v: ValueView)
    requires
        stands(data, pos, written_value(v)),
        is_uniform(v),
        data.len() <= usize::MAX,
    ensures
        value_at(data, pos, value_tag(v)) == (Ok::<ValueView, ReadError>(v), pos + written_value(v).len()),
    decreases v, 0nat,
{
    let bytes = written_value(v);
    match v {
        ValueView::String(s) => {
            lemma_string_reads_back(data, pos, s);
        },
        ValueView::Array(items) => {
            let tag = item_tag(items);
            let (head, count, rest) = (written_uint(tag as nat, 4), written_uint(items.len(), 8), written_values(items, items.len()));
            lemma_two_parts(data, pos, head, count + rest);
            lemma_written_uint(tag as nat, 4);
            lemma_written_uint(items.len(), 8);
            lemma_two_parts(data, pos + 4, count, rest);
            lemma_takes(tag as nat);
            lemma_takes(items.len());
            lemma_uint_reads_back(data, pos, tag as nat, 4);
            lemma_uint_reads_back(data, pos + 4, items.len(), 8);
            lemma_values_read_back(data, pos + 12, items, items.len());
            assert(items.take(items.len() as int) =~= items);
        },
        _ => {
            lemma_scalar_reads_back(data, pos, v);
        },
    }
}

/// A value of fixed size that stands at a place is read there.
proof fn lemma_scalar_reads_back(data: Seq<u8>, pos: int, v: ValueView)
    requires
        stands(data, pos, written_value(v)),
        !(v is String),
        !(v is Array),
    ensures
        value_at(data, pos, value_tag(v)) == (Ok::<ValueView, ReadError>(v), pos + written_value(v).len()),
{
    lemma_wrapped();
    match v {
        ValueView::U8(n) => lemma_number(data, pos, n as nat, 1),
        ValueView::I8(n) => lemma_number(data, pos, wrapped(n as int, 0x100), 1),
        ValueView::U16(n) => lemma_number(data, pos, n as nat, 2),
        ValueView::I16(n) => lemma_number(data, pos, wrapped(n as int, 0x1_0000), 2),
        ValueView::U32(n) => lemma_number(data, pos, n as nat, 4),
        ValueView::I32(n) => lemma_number(data, pos, wrapped(n as int, 0x1_0000_0000), 4),
        ValueView::F32(n) => lemma_number(data, pos, n as nat, 4),
        ValueView::Bool(b) => lemma_number(
            data,
            pos,
            if b {
                1
            } else {
                0
            },
            1,
        ),
        ValueView::U64(n) => lemma_number(data, pos, n as nat, 8),
        ValueView::I64(n) => lemma_number(data, pos, wrapped(n as int, 0x1_0000_0000_0000_0000), 8),
        ValueView::F64(n) => lemma_number(data, pos, n as nat, 8),
        _ => {},
    }
}

/// A number of one, two, four or eight bytes.
proof fn lemma_number(data: Seq<u8>, pos: int, n: nat, size: usize)
    requires
        stands(data, pos, written_uint(n, size as nat)),
        size == 1 && n <= 0xFF || size == 2 && n <= 0xFFFF || size == 4 && n <= 0xFFFF_FFFF || size == 8 && n <= 0xFFFF_FFFF_FFFF_FFFF,
    ensures
        uint_at(data, pos, size) == (Ok::<nat, ReadError>(n), pos + size),
        written_uint(n, size as nat).len() == size,
{
    lemma_takes(n);
    lemma_written_uint(n, size as nat);
    lemma_uint_reads_back(data, pos, n, size);
}

/// The first `n` of values of one type that stand at a place are read there.
proof fn lemma_values_read_back(data: Seq<u8>, pos: int, items: Seq<ValueView>, n: nat)
    requires
        stands(data, pos, written_values(items, n)),
        n <= items.len(),
        is_uniform(ValueView::Array(items)),
        data.len() <= usize::MAX,
    ensures
        values_at(data, pos, item_tag(items), n) == (Ok::<Seq<ValueView>, ReadError>(items.take(n as int)), pos + written_values(items, n).len()),
    decreases items, n,
{
    if n == 0 {
        assert(items.take(0) =~= seq![]);
    } else {
        let before = written_values(items, (n - 1) as nat);
        let v = items[n - 1];
        lemma_two_parts(data, pos, before, written_value(v));
        lemma_values_read_back(data, pos, items, (n - 1) as nat);
        assert(value_tag(items[n - 1]) == value_tag(items[0]) && is_uniform(items[n - 1]));
        lemma_value_reads_back(data, pos + before.len(), v);
        assert(items.take(n - 1).push(v) =~= items.take(n as int));
    }
}

/// The bytes of a metadata entry: the key, the number of the value's type, the value.
pub open spec fn written_entry(key: Seq<char>, v: ValueView) -> Seq<u8> {
    written_string(key) + (written_uint(value_tag(v) as nat, 4) + written_value(v))
}

/// A metadata entry that stands at a place is read there.
pub proof fn lemma_entry_reads_back(data: Seq<u8>, pos: int, key: Seq<char>, v: ValueView)
    requires
        stands(data, pos, written_entry(key, v)),
        is_uniform(v),
        data.len() <= usize::MAX,
    ensures
        entry_at(data, pos) == (Ok::<(Seq<char>, ValueView), ErrorView>((key, v)), pos + written_entry(key, v).len()),
{
    let (head, tag) = (written_string(key), written_uint(value_tag(v) as nat, 4));
    lemma_two_parts(data, pos, head, tag + written_value(v));
    lemma_two_parts(data, pos + head.len(), tag, written_value(v));
    lemma_string_reads_back(data, pos, key);
    lemma_number(data, pos + head.len(), value_tag(v) as nat, 4);
    lemma_value_reads_back(data, pos + head.len() + 4, v);
}

/// The bytes of the first `n` entries, one behind the other.
pub open spec fn written_entries(entries: Seq<(Seq<char>, ValueView)>, n: nat) -> Seq<u8>
    decreases n,
{
    if n == 0 {
        seq![]
    } else {
        written_entries(entries, (n - 1) as nat) + written_entry(entries[n - 1].0, entries[n - 1].1)
    }
}

/// Whether the first `n` entries are what a map holds: it has their keys and no others, and each key has
/// the value of its last entry.
pub open spec fn holds_entries(m: Map<Seq<char>, ValueView>, entries: Seq<(Seq<char>, ValueView)>, n: nat) -> bool {
    &&& forall|key: Seq<char>| #[trigger] m.contains_key(key) ==> exists|i: int| 0 <= i < n && (#[trigger] entries[i]).0 == key
    &&& forall|i: int| 0 <= i < n ==> m.contains_key((#[trigger] entries[i]).0)
    &&& forall|i: int|
        0 <= i < n && (forall|j: int| i < j < n ==> (#[trigger] entries[j]).0 != entries[i].0) ==> m[(#[trigger] entries[i]).0] == entries[i].1
}

/// One more entry.
proof fn lemma_one_more_entry(old_map: Map<Seq<char>, ValueView>, entries: Seq<(Seq<char>, ValueView)>, n: nat)
    requires
        0 < n <= entries.len(),
        holds_entries(old_map, entries, (n - 1) as nat),
    ensures
        holds_entries(old_map.insert(entries[n - 1].0, entries[n - 1].1), entries, n),
{
    let (key, v) = entries[n - 1];
    let m = old_map.insert(key, v);
    assert forall|k: Seq<char>| #[trigger] m.contains_key(k) implies exists|i: int| 0 <= i < n && (#[trigger] entries[i]).0 == k by {
        if k == key {
            assert(entries[n - 1].0 == k);
        } else {
            assert(old_map.contains_key(k));
        }
    }
    assert forall|i: int| 0 <= i < n && (forall|j: int| i < j < n ==> (#[trigger] entries[j]).0 != entries[i].0) implies m[(#[trigger] entries[i]).0]
        == entries[i].1 by {
        if i < n - 1 {
            assert(entries[n - 1].0 != entries[i].0);
        }
    }
}

/// Metadata entries that stand at a place are read there. Of two with one key the later stays.
pub proof fn lemma_metadata_reads_back(data: Seq<u8>, pos: int, entries: Seq<(Seq<char>, ValueView)>, n: nat)
    requires
        stands(data, pos, written_entries(entries, n)),
        n <= entries.len(),
        forall|i: int| 0 <= i < entries.len() ==> is_uniform((#[trigger] entries[i]).1),
        data.len() <= usize::MAX,
    ensures
        metadata_at(data, pos, n).1 == pos + written_entries(entries, n).len(),
        metadata_at(data, pos, n).0 matches Ok(m) && holds_entries(m, entries, n),
    decreases n,
{
    if n > 0 {
        let before = written_entries(entries, (n - 1) as nat);
        let (key, v) = entries[n - 1];
        lemma_two_parts(data, pos, before, written_entry(key, v));
        lemma_metadata_reads_back(data, pos, entries, (n - 1) as nat);
        lemma_entry_reads_back(data, pos + before.len(), key, v);
        let old_map = metadata_at(data, pos, (n - 1) as nat).0->Ok_0;
        let m = metadata_at(data, pos, n).0->Ok_0;
        assert(m == old_map.insert(key, v));
        lemma_one_more_entry(old_map, entries, n);
    }
}

// ---------------------------------------------------------------------------
// Tensors.
// ---------------------------------------------------------------------------

/// The number that a file writes for a data type.
pub open spec fn type_tag(t: GgmlType) -> u32 {
    match t {
        GgmlType::F32 => 0,
        GgmlType::F16 => 1,
        GgmlType::Q4_0 => 2,
        GgmlType::Q4_1 => 3,
        GgmlType::Q5_0 => 6,
        GgmlType::Q5_1 => 7,
        GgmlType::Q8_0 => 8,
        GgmlType::Q8_1 => 9,
        GgmlType::Q2K => 10,
        GgmlType::Q3K => 11,
        GgmlType::Q4K => 12,
        GgmlType::Q5K => 13,
        GgmlType::Q6K => 14,
        GgmlType::Q8K => 15,
        GgmlType::I8 => 24,
        GgmlType::I16 => 25,
        GgmlType::I32 => 26,
        GgmlType::I64 => 27,
        GgmlType::F64 => 28,
        GgmlType::Bf16 => 30,
    }
}

/// A data type is known by the number that a file writes for it, and by no other.
pub proof fn lemma_type_tag(t: GgmlType, n: u32)
    ensures
        GgmlType::of_tag(n) == Some(t) <==> n == type_tag(t),
{
}

/// The bytes of the first `n` dimensions.
pub open spec fn written_dims(dims: Seq<u64>, n: nat) -> Seq<u8>
    decreases n,
{
    if n == 0 {
        seq![]
    } else {
        written_dims(dims, (n - 1) as nat) + written_uint(dims[n - 1] as nat, 8)
    }
}

/// Dimensions that stand at a place are read there.
proof fn lemma_dims_read_back(data: Seq<u8>, pos: int, dims: Seq<u64>, n: nat)
    requires
        stands(data, pos, written_dims(dims, n)),
        n <= dims.len(),
    ensures
        dims_at(data, pos, n) == (Ok::<Seq<u64>, ReadError>(dims.take(n as int)), pos + written_dims(dims, n).len()),
    decreases n,
{
    if n == 0 {
        assert(dims.take(0) =~= seq![]);
    } else {
        let before = written_dims(dims, (n - 1) as nat);
        lemma_two_parts(data, pos, before, written_uint(dims[n - 1] as nat, 8));
        lemma_dims_read_back(data, pos, dims, (n - 1) as nat);
        lemma_number(data, pos + before.len(), dims[n - 1] as nat, 8);
        assert(dims.take(n - 1).push(dims[n - 1]) =~= dims.take(n as int));
    }
}

/// The bytes of what a file says of a tensor: its name, the number of dimensions, the dimensions, the
/// number of the data type, the offset.
pub open spec fn written_tensor(t: TensorInfoView) -> Seq<u8> {
    written_string(t.name) + (written_uint(t.dims.len(), 4) + (written_dims(t.dims, t.dims.len()) + (written_uint(type_tag(t.dtype) as nat, 4)
        + written_uint(t.offset as nat, 8))))
}

/// What stands at a place of a tensor of at most four dimensions is read there.
pub proof fn lemma_tensor_reads_back(data: Seq<u8>, pos: int, t: TensorInfoView)
    requires
        stands(data, pos, written_tensor(t)),
        t.dims.len() <= 4,
        data.len() <= usize::MAX,
    ensures
        tensor_at(data, pos) == (Ok::<TensorInfoView, ErrorView>(t), pos + written_tensor(t).len()),
{
    let name = written_string(t.name);
    let count = written_uint(t.dims.len(), 4);
    let dims = written_dims(t.dims, t.dims.len());
    let tag = written_uint(type_tag(t.dtype) as nat, 4);
    let offset = written_uint(t.offset as nat, 8);
    lemma_two_parts(data, pos, name, count + (dims + (tag + offset)));
    let q = pos + name.len();
    lemma_two_parts(data, q, count, dims + (tag + offset));
    lemma_two_parts(data, q + count.len(), dims, tag + offset);
    lemma_two_parts(data, q + count.len() + dims.len(), tag, offset);
    lemma_string_reads_back(data, pos, t.name);
    lemma_number(data, q, t.dims.len(), 4);
    lemma_dims_read_back(data, q + 4, t.dims, t.dims.len());
    assert(t.dims.take(t.dims.len() as int) =~= t.dims);
    lemma_number(data, q + 4 + dims.len(), type_tag(t.dtype) as nat, 4);
    lemma_type_tag(t.dtype, type_tag(t.dtype));
    lemma_number(data, q + 8 + dims.len(), t.offset as nat, 8);
}

/// The bytes of what a file says of the first `n` tensors.
pub open spec fn written_tensors(tensors: Seq<TensorInfoView>, n: nat) -> Seq<u8>
    decreases n,
{
    if n == 0 {
        seq![]
    } else {
        written_tensors(tensors, (n - 1) as nat) + written_tensor(tensors[n - 1])
    }
}

/// What stands at a place of several tensors is read there, in order.
pub proof fn lemma_tensors_read_back(data: Seq<u8>, pos: int, tensors: Seq<TensorInfoView>, n: nat)
    requires
        stands(data, pos, written_tensors(tensors, n)),
        n <= tensors.len(),
        forall|i: int| 0 <= i < tensors.len() ==> (#[trigger] tensors[i]).dims.len() <= 4,
        data.len() <= usize::MAX,
    ensures
        tensors_at(data, pos, n) == (Ok::<Seq<TensorInfoView>, ErrorView>(tensors.take(n as int)), pos + written_tensors(tensors, n).len()),
    decreases n,
{
    if n == 0 {
        assert(tensors.take(0) =~= seq![]);
    } else {
        let before = written_tensors(tensors, (n - 1) as nat);
        lemma_two_parts(data, pos, before, written_tensor(tensors[n - 1]));
        lemma_tensors_read_back(data, pos, tensors, (n - 1) as nat);
        lemma_tensor_reads_back(data, pos + before.len(), tensors[n - 1]);
        assert(tensors.take(n - 1).push(tensors[n - 1]) =~= tensors.take(n as int));
    }
}

// ---------------------------------------------------------------------------
// Files.
// ---------------------------------------------------------------------------

/// The bytes of a file's header: the letters GGUF, the version, how many tensors and metadata entries
/// there are, the entries, the tensors.
pub open spec fn written_header(version: u32, entries: Seq<(Seq<char>, ValueView)>, tensors: Seq<TensorInfoView>) -> Seq<u8> {
    seq![0x47u8, 0x47u8, 0x55u8, 0x46u8] + (written_uint(version as nat, 4) + (written_uint(tensors.len(), 8) + (written_uint(entries.len(), 8) + (
    written_entries(entries, entries.len()) + written_tensors(tensors, tensors.len())))))
}

/// The alignment that metadata ask for: the number with the key `general.alignment`, and 32 where there
/// is none.
pub open spec fn asked_alignment(m: Map<Seq<char>, ValueView>) -> u32 {
    match m.get("general.alignment"@) {
        Some(ValueView::U32(n)) => n,
        Some(ValueView::U64(n)) => if n <= 0xFFFF_FFFF {
            n as u32
        } else {
            32
        },
        _ => 32,
    }
}

/// A file that begins with a header is read as that header says: its version, its metadata, its tensors.
/// The tensor data start at the first multiple of the alignment that is not within the header. A file
/// with an alignment that is no power of two, or that ends before its tensor data start, is refused.
pub proof fn lemma_file_reads_back(data: Seq<u8>, version: u32, entries: Seq<(Seq<char>, ValueView)>, tensors: Seq<TensorInfoView>)
    requires
        stands(data, 0, written_header(version, entries, tensors)),
        version == 2 || version == 3,
        forall|i: int| 0 <= i < entries.len() ==> is_uniform((#[trigger] entries[i]).1),
        forall|i: int| 0 <= i < tensors.len() ==> (#[trigger] tensors[i]).dims.len() <= 4,
        entries.len() <= usize::MAX,
        tensors.len() <= usize::MAX,
        data.len() <= usize::MAX,
    ensures
        ({
            let end = written_header(version, entries, tensors).len();
            match parsed(data) {
                Ok(p) => {
                    let step = asked_alignment(p.metadata);
                    &&& p.version == version
                    &&& holds_entries(p.metadata, entries, entries.len())
                    &&& p.tensors == tensors
                    &&& is_pow2(step as int)
                    &&& p.data_start % (step as usize) == 0
                    &&& end <= p.data_start < end + step
                    &&& p.data_start <= data.len()
                },
                Err(ErrorView::BadAlignment(step)) => !is_pow2(step as int) && exists|m: Map<Seq<char>, ValueView>|
                    holds_entries(m, entries, entries.len()) && step == #[trigger] asked_alignment(m),
                Err(ErrorView::Truncated { data_start, file_len }) => {
                    &&& data_start > data.len()
                    &&& file_len == data.len()
                    &&& exists|m: Map<Seq<char>, ValueView>|
                        holds_entries(m, entries, entries.len()) && end <= data_start < end + #[trigger] asked_alignment(m)
                },
                Err(_) => false,
            }
        }),
{
    let magic = seq![0x47u8, 0x47u8, 0x55u8, 0x46u8];
    let v = written_uint(version as nat, 4);
    let t = written_uint(tensors.len(), 8);
    let n = written_uint(entries.len(), 8);
    let list = written_entries(entries, entries.len());
    let infos = written_tensors(tensors, tensors.len());
    lemma_two_parts(data, 0, magic, v + (t + (n + (list + infos))));
    lemma_two_parts(data, 4, v, t + (n + (list + infos)));
    lemma_number(data, 4, version as nat, 4);
    lemma_two_parts(data, 8, t, n + (list + infos));
    lemma_number(data, 8, tensors.len(), 8);
    lemma_two_parts(data, 16, n, list + infos);
    lemma_number(data, 16, entries.len(), 8);
    lemma_two_parts(data, 24, list, infos);
    lemma_metadata_reads_back(data, 24, entries, entries.len());
    lemma_tensors_read_back(data, 24int + list.len(), tensors, tensors.len());
    assert(tensors.take(tensors.len() as int) =~= tensors);
    let m = metadata_at(data, 24, entries.len()).0->Ok_0;
    let end = (24 + list.len() + infos.len()) as int;
    assert(written_header(version, entries, tensors).len() == end);
    lemma_start(m, end, data.len());
}

/// Where tensor data start.
proof fn lemma_start(m: Map<Seq<char>, ValueView>, end: int, len: nat)
    requires
        0 <= end <= len <= usize::MAX,
    ensures
        match data_start_of(m, end, len) {
            Ok(start) => {
                let step = asked_alignment(m);
                &&& is_pow2(step as int)
                &&& start % (step as usize) == 0
                &&& end <= start < end + step
                &&& start <= len
            },
            Err(ErrorView::BadAlignment(step)) => !is_pow2(step as int) && step == asked_alignment(m),
            Err(ErrorView::Truncated { data_start, file_len }) => {
                &&& data_start > len
                &&& file_len == len
                &&& end <= data_start < end + asked_alignment(m)
            },
            Err(_) => false,
        },
{
    let step = asked_alignment(m) as int;
    reveal(is_pow2);
    if is_pow2(step) {
        let up = end + step - 1;
        let q = up / step;
        lemma_fundamental_div_mod(up, step);
        lemma_mod_bound(up, step);
        assert(q * step == step * q) by (nonlinear_arith);
        lemma_mod_multiples_basic(q, step);
    }
}

/// The bytes of a tensor are those at its offset behind the start of the tensor data, as many as its
/// blocks take. The first tensor with a name counts.
pub proof fn lemma_tensor_bytes(file: GgufFile, name: Seq<char>, i: int, blocks: usize)
    requires
        0 <= i < file.tensors@.len(),
        file.tensors@[i].name@ == name,
        forall|j: int| 0 <= j < i ==> (#[trigger] file.tensors@[j]).name@ != name,
        ({
            let t = file.tensors@[i]@;
            let (elems, bytes) = type_sizes(t.dtype)->0;
            &&& type_sizes(t.dtype) is Some
            &&& blocks * elems <= usize::MAX
            &&& blocks * bytes <= usize::MAX
            &&& elements_fit(t.dims)
            &&& elements(t.dims) == blocks * elems
            &&& t.offset <= usize::MAX
            &&& file.data_start + t.offset + blocks * bytes <= file.bytes@.len()
        }),
    ensures
        ({
            let t = file.tensors@[i]@;
            let start = file.data_start + t.offset;
            let (elems, bytes) = type_sizes(t.dtype)->0;
            let size = blocks * bytes;
            file.tensor_data(name) == Ok::<(TensorInfoView, Seq<u8>), ErrorView>((t, file.bytes@.subrange(start, start + size)))
        }),
{
    let views = tensor_views(file.tensors@);
    let t = file.tensors@[i]@;
    lemma_some_named(views, name);
    assert(views[i] == t);
    match first_named(views, name) {
        Some(u) => {
            let k = choose|k: int|
                0 <= k < views.len() && #[trigger] views[k] == u && u.name == name && forall|j: int| 0 <= j < k ==> (#[trigger] views[j]).name != name;
            if k < i {
                assert(file.tensors@[k].name@ == name);
            }
            assert(k == i);
        },
        None => {},
    }
    let (elems, bytes) = type_sizes(t.dtype)->0;
    lemma_div_multiples_vanish(blocks as int, elems as int);
    lemma_mod_multiples_basic(blocks as int, elems as int);
    assert(elems * blocks == blocks * elems) by (nonlinear_arith);
}

/// How many elements a block of a data type has, and how many bytes.
pub open spec fn type_sizes(t: GgmlType) -> Option<(usize, usize)> {
    match t {
        GgmlType::F32 => Some((1, 4)),
        GgmlType::F16 => Some((1, 2)),
        GgmlType::Q5_0 => Some((32, 22)),
        GgmlType::Q8_0 => Some((32, 34)),
        GgmlType::Q4K => Some((256, 144)),
        GgmlType::Q6K => Some((256, 210)),
        _ => None,
    }
}

// ---------------------------------------------------------------------------
// Refusals.
// ---------------------------------------------------------------------------

/// Where fewer bytes are left than are needed, the reader says how many it needs and where it stands,
/// and stays there.
pub proof fn lemma_too_short(data: Seq<u8>, pos: int, size: usize)
    requires
        0 <= pos <= data.len() <= usize::MAX,
        pos + size > data.len(),
    ensures
        take_at(data, pos, size) == (Err::<Seq<u8>, ReadError>(ReadError::UnexpectedEof { need: size, offset: pos as usize }), pos),
        uint_at(data, pos, size) == (Err::<nat, ReadError>(ReadError::UnexpectedEof { need: size, offset: pos as usize }), pos),
{
}

/// A string whose bytes are no UTF-8 is refused.
pub proof fn lemma_no_text(data: Seq<u8>, pos: int, bytes: Seq<u8>)
    requires
        stands(data, pos, written_uint(bytes.len(), 8) + bytes),
        data.len() <= usize::MAX,
        !valid_utf8(bytes),
    ensures
        string_at(data, pos).0 == Err::<Seq<char>, ReadError>(ReadError::InvalidUtf8),
{
    lemma_two_parts(data, pos, written_uint(bytes.len(), 8), bytes);
    lemma_number(data, pos, bytes.len(), 8);
}

/// Numbers that stand for no type are refused, and named.
pub proof fn lemma_unknown_types(data: Seq<u8>, pos: int, tag: u32)
    ensures
        tag > 12 ==> value_at(data, pos, tag).0 == Err::<ValueView, ReadError>(ReadError::UnknownValueTag(tag)),
        GgmlType::of_tag(tag) is None <==> forall|t: GgmlType| #[trigger] type_tag(t) != tag,
{
    if GgmlType::of_tag(tag) is Some {
        let t = GgmlType::of_tag(tag)->0;
        lemma_type_tag(t, tag);
        assert(type_tag(t) == tag);
    } else {
        assert forall|t: GgmlType| #[trigger] type_tag(t) != tag by {
            lemma_type_tag(t, tag);
        }
    }
}

/// A file that does not begin with the letters GGUF is refused with the bytes that it begins with, and
/// one of another version than 2 or 3 with its version.
pub proof fn lemma_other_files(data: Seq<u8>, version: u32)
    requires
        4 <= data.len() <= usize::MAX,
    ensures
        data.subrange(0, 4) != seq![0x47u8, 0x47u8, 0x55u8, 0x46u8] ==> parsed(data) == Err::<ParsedView, ErrorView>(
            ErrorView::BadMagic(data[0], data[1], data[2], data[3]),
        ),
        stands(data, 0, seq![0x47u8, 0x47u8, 0x55u8, 0x46u8] + written_uint(version as nat, 4)) && version != 2 && version != 3 ==> parsed(data) == Err::<
            ParsedView,
            ErrorView,
        >(ErrorView::UnsupportedVersion(version)),
{
    let magic = seq![0x47u8, 0x47u8, 0x55u8, 0x46u8];
    let v = written_uint(version as nat, 4);
    if stands(data, 0, magic + v) {
        lemma_two_parts(data, 0, magic, v);
        lemma_number(data, 4, version as nat, 4);
    }
}

/// A tensor that is not there, or whose bytes are not all there, is refused.
pub proof fn lemma_missing_tensor(file: GgufFile, name: Seq<char>)
    requires
        forall|j: int| 0 <= j < file.tensors@.len() ==> (#[trigger] file.tensors@[j]).name@ != name,
    ensures
        file.tensor_data(name) == Err::<(TensorInfoView, Seq<u8>), ErrorView>(ErrorView::NoSuchTensor { tensor: name }),
{
    let views = tensor_views(file.tensors@);
    lemma_some_named(views, name);
    if first_named(views, name) is Some {
        let k = choose|k: int| 0 <= k < views.len() && #[trigger] views[k] == first_named(views, name)->0 && views[k].name == name;
        assert(file.tensors@[k].name@ == name);
    }
}

/// The number of elements is the product of the dimensions.
pub proof fn lemma_elements(dims: Seq<u64>, d: u64)
    ensures
        elements(seq![]) == 1,
        elements(dims.push(d)) == elements(dims) * d,
        elements_fit(dims.push(d)) <==> elements_fit(dims) && elements(dims) * d <= u64::MAX,
{
    assert(dims.push(d).drop_last() =~= dims);
}

} // verus!
