//! GGUF model files.
//!
//! Layout of a file (all integers little-endian):
//!   magic "GGUF" | version u32 | tensor count u64 | metadata entry count u64
//!   metadata entries (key: string, type tag: u32, value)
//!   tensor infos (name, dimension count u32, dims u64 each, data type u32, offset u64)
//!   padding to `general.alignment` (32 where the file does not say)
//!   tensor data (tensor offsets count from the start of this part)

use vstd::arithmetic::power2::*;
use vstd::prelude::*;
use vstd::string::*;
use vstd::utf8::*;

use crate::error::{ErrorView, FurnaceError, ReadError};
use crate::quant::{Q4_K_BLOCK_BYTES, Q5_0_BLOCK_BYTES, Q6_K_BLOCK_BYTES, Q8_0_BLOCK_BYTES, QK5_0, QK8_0, QK_K};
use crate::text::{check_utf8, same_text};

verus! {

/// Where tensor data starts, if the file does not say: the next multiple of this.
pub const DEFAULT_ALIGNMENT: u32 = 32;

// ---------------------------------------------------------------------------
// What the bytes of a file mean. Each `.._at` function reads at `pos` and gives
// the value, or the error, with the position that the reader is left at.
// ---------------------------------------------------------------------------

/// The number that the bytes write, least significant byte first.
pub open spec fn little_endian(s: Seq<u8>) -> nat
    decreases s.len(),
{
    if s.len() == 0 {
        0
    } else {
        s[0] as nat + 256 * little_endian(s.drop_first())
    }
}

/// The next `n` bytes.
pub open spec fn take_at(data: Seq<u8>, pos: int, n: usize) -> (Result<Seq<u8>, ReadError>, int) {
    if pos + n <= data.len() {
        (Ok(data.subrange(pos, pos + n)), pos + n)
    } else {
        (Err(ReadError::UnexpectedEof { need: n, offset: pos as usize }), pos)
    }
}

/// An unsigned integer of `n` bytes.
pub open spec fn uint_at(data: Seq<u8>, pos: int, n: usize) -> (Result<nat, ReadError>, int) {
    match take_at(data, pos, n) {
        (Ok(bytes), end) => (Ok(little_endian(bytes)), end),
        (Err(e), end) => (Err(e), end),
    }
}

/// A string: its length in bytes as eight bytes, then UTF-8.
pub open spec fn string_at(data: Seq<u8>, pos: int) -> (Result<Seq<char>, ReadError>, int) {
    match uint_at(data, pos, 8) {
        (Ok(len), start) => match take_at(data, start, (len as u64) as usize) {
            (Ok(bytes), end) => if valid_utf8(bytes) {
                (Ok(decode_utf8(bytes)), end)
            } else {
                (Err(ReadError::InvalidUtf8), end)
            },
            (Err(e), end) => (Err(e), end),
        },
        (Err(e), start) => (Err(e), start),
    }
}

/// A metadata value. Floating-point numbers are their IEEE 754 bit patterns.
pub enum ValueView {
    U8(u8),
    I8(i8),
    U16(u16),
    I16(i16),
    U32(u32),
    I32(i32),
    F32(u32),
    Bool(bool),
    String(Seq<char>),
    Array(Seq<ValueView>),
    U64(u64),
    I64(i64),
    F64(u64),
}

/// How many bytes a value of this type takes, for the types of fixed size.
pub open spec fn scalar_size(tag: u32) -> Option<usize> {
    if tag == 0 || tag == 1 || tag == 7 {
        Some(1)
    } else if tag == 2 || tag == 3 {
        Some(2)
    } else if tag == 4 || tag == 5 || tag == 6 {
        Some(4)
    } else if tag == 10 || tag == 11 || tag == 12 {
        Some(8)
    } else {
        None
    }
}

/// The value of a fixed-size type that the number `n` stands for.
pub open spec fn scalar_value(tag: u32, n: nat) -> ValueView {
    if tag == 0 {
        ValueView::U8(n as u8)
    } else if tag == 1 {
        ValueView::I8((n as u8) as i8)
    } else if tag == 2 {
        ValueView::U16(n as u16)
    } else if tag == 3 {
        ValueView::I16((n as u16) as i16)
    } else if tag == 4 {
        ValueView::U32(n as u32)
    } else if tag == 5 {
        ValueView::I32((n as u32) as i32)
    } else if tag == 6 {
        ValueView::F32(n as u32)
    } else if tag == 7 {
        ValueView::Bool(n != 0)
    } else if tag == 10 {
        ValueView::U64(n as u64)
    } else if tag == 11 {
        ValueView::I64((n as u64) as i64)
    } else {
        ValueView::F64(n as u64)
    }
}

/// The array value of a list of values.
pub open spec fn as_array_value(list: (Result<Seq<ValueView>, ReadError>, int)) -> (Result<ValueView, ReadError>, int) {
    match list {
        (Ok(items), end) => (Ok(ValueView::Array(items)), end),
        (Err(e), end) => (Err(e), end),
    }
}

/// A metadata value of the type with this tag.
pub open spec fn value_at(data: Seq<u8>, pos: int, tag: u32) -> (Result<ValueView, ReadError>, int)
    decreases data.len() - pos, 0nat,
{
    match scalar_size(tag) {
        Some(size) => match uint_at(data, pos, size) {
            (Ok(n), end) => (Ok(scalar_value(tag, n)), end),
            (Err(e), end) => (Err(e), end),
        },
        None => if tag == 8 {
            match string_at(data, pos) {
                (Ok(s), end) => (Ok(ValueView::String(s)), end),
                (Err(e), end) => (Err(e), end),
            }
        } else if tag == 9 {
            match uint_at(data, pos, 4) {
                (Ok(elem_tag), p) => match uint_at(data, p, 8) {
                    (Ok(count), q) => as_array_value(
                        values_at(data, q, elem_tag as u32, ((count as u64) as usize) as nat),
                    ),
                    (Err(e), q) => (Err(e), q),
                },
                (Err(e), p) => (Err(e), p),
            }
        } else {
            (Err(ReadError::UnknownValueTag(tag)), pos)
        },
    }
}

/// `count` values of one type, one after the other.
pub open spec fn values_at(data: Seq<u8>, pos: int, tag: u32, count: nat) -> (Result<Seq<ValueView>, ReadError>, int)
    decreases data.len() - pos, count,
{
    if count == 0 {
        (Ok(seq![]), pos)
    } else {
        let (before, p) = values_at(data, pos, tag, (count - 1) as nat);
        match before {
            Ok(items) => if pos <= p <= data.len() {
                match value_at(data, p, tag) {
                    (Ok(v), end) => (Ok(items.push(v)), end),
                    (Err(e), end) => (Err(e), end),
                }
            } else {
                (before, p)
            },
            Err(e) => (Err(e), p),
        }
    }
}

/// One metadata entry: key, type tag, value.
pub open spec fn entry_at(data: Seq<u8>, pos: int) -> (Result<(Seq<char>, ValueView), ErrorView>, int) {
    match string_at(data, pos) {
        (Ok(key), p) => match uint_at(data, p, 4) {
            (Ok(tag), q) => match value_at(data, q, tag as u32) {
                (Ok(v), end) => (Ok((key, v)), end),
                (Err(cause), end) => (Err(ErrorView::InKey { key, cause }), end),
            },
            (Err(e), q) => (Err(ErrorView::Read(e)), q),
        },
        (Err(e), p) => (Err(ErrorView::Read(e)), p),
    }
}

/// `count` metadata entries. Of two with one key the later stays.
pub open spec fn metadata_at(data: Seq<u8>, pos: int, count: nat) -> (Result<Map<Seq<char>, ValueView>, ErrorView>, int)
    decreases count,
{
    if count == 0 {
        (Ok(Map::empty()), pos)
    } else {
        match metadata_at(data, pos, (count - 1) as nat) {
            (Ok(m), p) => match entry_at(data, p) {
                (Ok((key, v)), end) => (Ok(m.insert(key, v)), end),
                (Err(e), end) => (Err(e), end),
            },
            (Err(e), p) => (Err(e), p),
        }
    }
}

/// `count` dimensions.
pub open spec fn dims_at(data: Seq<u8>, pos: int, count: nat) -> (Result<Seq<u64>, ReadError>, int)
    decreases count,
{
    if count == 0 {
        (Ok(seq![]), pos)
    } else {
        match dims_at(data, pos, (count - 1) as nat) {
            (Ok(dims), p) => match uint_at(data, p, 8) {
                (Ok(d), end) => (Ok(dims.push(d as u64)), end),
                (Err(e), end) => (Err(e), end),
            },
            (Err(e), p) => (Err(e), p),
        }
    }
}

/// What a file says of one tensor.
pub struct TensorInfoView {
    pub name: Seq<char>,
    pub dims: Seq<u64>,
    pub dtype: GgmlType,
    pub offset: u64,
}

/// One tensor info: name, dimensions, data type, offset.
pub open spec fn tensor_at(data: Seq<u8>, pos: int) -> (Result<TensorInfoView, ErrorView>, int) {
    match string_at(data, pos) {
        (Ok(name), p) => match uint_at(data, p, 4) {
            (Ok(n_dims), q) => if n_dims > 4 {
                (Err(ErrorView::TooManyDims { tensor: name, n_dims: n_dims as u32 }), q)
            } else {
                match dims_at(data, q, n_dims) {
                    (Ok(dims), r) => match uint_at(data, r, 4) {
                        (Ok(tag), s) => match GgmlType::of_tag(tag as u32) {
                            Some(dtype) => match uint_at(data, s, 8) {
                                (Ok(offset), end) => (
                                    Ok(TensorInfoView { name, dims, dtype, offset: offset as u64 }),
                                    end,
                                ),
                                (Err(e), end) => (Err(ErrorView::Read(e)), end),
                            },
                            None => (
                                Err(ErrorView::InTensor { tensor: name, cause: ReadError::UnknownTensorType(tag as u32) }),
                                s,
                            ),
                        },
                        (Err(e), s) => (Err(ErrorView::Read(e)), s),
                    },
                    (Err(e), r) => (Err(ErrorView::Read(e)), r),
                }
            },
            (Err(e), q) => (Err(ErrorView::Read(e)), q),
        },
        (Err(e), p) => (Err(ErrorView::Read(e)), p),
    }
}

/// `count` tensor infos.
pub open spec fn tensors_at(data: Seq<u8>, pos: int, count: nat) -> (Result<Seq<TensorInfoView>, ErrorView>, int)
    decreases count,
{
    if count == 0 {
        (Ok(seq![]), pos)
    } else {
        match tensors_at(data, pos, (count - 1) as nat) {
            (Ok(tensors), p) => match tensor_at(data, p) {
                (Ok(t), end) => (Ok(tensors.push(t)), end),
                (Err(e), end) => (Err(e), end),
            },
            (Err(e), p) => (Err(e), p),
        }
    }
}

// ---------------------------------------------------------------------------
// Cursor: a bounds-checked reader.
// ---------------------------------------------------------------------------

/// A position in a byte string, from which values are read.
pub struct Cursor<'a> {
    pub data: &'a [u8],
    pub pos: usize,
}

impl<'a> Cursor<'a> {
    /// Whether the position lies within the data.
    pub open spec fn wf(self) -> bool {
        self.pos <= self.data@.len()
    }

    /// A reader at the start of `data`.
    pub fn new(data: &'a [u8]) -> (r: Self)
        ensures
            r.data == data,
            r.pos == 0,
            r.wf(),
    {
        Cursor { data, pos: 0 }
    }

    /// Reads the next `n` bytes.
    pub fn take(&mut self, n: usize) -> (r: Result<&'a [u8], ReadError>)
        requires
            old(self).wf(),
        ensures
            final(self).wf(),
            final(self).data == old(self).data,
            final(self).pos == take_at(old(self).data@, old(self).pos as int, n).1,
            match r {
                Ok(bytes) => take_at(old(self).data@, old(self).pos as int, n).0 == Ok::<_, ReadError>(bytes@),
                Err(e) => take_at(old(self).data@, old(self).pos as int, n).0 == Err::<Seq<u8>, _>(e),
            },
    {
        if n > self.data.len() - self.pos {
            return Err(ReadError::UnexpectedEof { need: n, offset: self.pos });
        }
        let end: usize = self.pos + n;
        let bytes = vstd::slice::slice_subrange(self.data, self.pos, end);
        self.pos = end;
        Ok(bytes)
    }

    /// Reads an unsigned integer of one byte.
    pub fn read_u8(&mut self) -> (r: Result<u8, ReadError>)
        requires
            old(self).wf(),
        ensures
            final(self).wf(),
            final(self).data == old(self).data,
            final(self).pos == uint_at(old(self).data@, old(self).pos as int, 1).1,
            match r {
                Ok(n) => uint_at(old(self).data@, old(self).pos as int, 1).0 == Ok::<_, ReadError>(n as nat),
                Err(e) => uint_at(old(self).data@, old(self).pos as int, 1).0 == Err::<nat, _>(e),
            },
    {
        match self.take(1) {
            Ok(b) => {
                proof {
                    reveal_with_fuel(little_endian, 2);
                }
                Ok(b[0])
            },
            Err(e) => Err(e),
        }
    }

    /// Reads an unsigned integer of two bytes.
    pub fn read_u16(&mut self) -> (r: Result<u16, ReadError>)
        requires
            old(self).wf(),
        ensures
            final(self).wf(),
            final(self).data == old(self).data,
            final(self).pos == uint_at(old(self).data@, old(self).pos as int, 2).1,
            match r {
                Ok(n) => uint_at(old(self).data@, old(self).pos as int, 2).0 == Ok::<_, ReadError>(n as nat),
                Err(e) => uint_at(old(self).data@, old(self).pos as int, 2).0 == Err::<nat, _>(e),
            },
    {
        match self.take(2) {
            Ok(b) => {
                proof {
                    reveal_with_fuel(little_endian, 3);
                }
                Ok(b[0] as u16 + 256 * (b[1] as u16))
            },
            Err(e) => Err(e),
        }
    }

    /// Reads an unsigned integer of four bytes.
    pub fn read_u32(&mut self) -> (r: Result<u32, ReadError>)
        requires
            old(self).wf(),
        ensures
            final(self).wf(),
            final(self).data == old(self).data,
            final(self).pos == uint_at(old(self).data@, old(self).pos as int, 4).1,
            match r {
                Ok(n) => uint_at(old(self).data@, old(self).pos as int, 4).0 == Ok::<_, ReadError>(n as nat),
                Err(e) => uint_at(old(self).data@, old(self).pos as int, 4).0 == Err::<nat, _>(e),
            },
    {
        match self.take(4) {
            Ok(b) => Ok(u32_of(b)),
            Err(e) => Err(e),
        }
    }

    /// Reads an unsigned integer of eight bytes.
    pub fn read_u64(&mut self) -> (r: Result<u64, ReadError>)
        requires
            old(self).wf(),
        ensures
            final(self).wf(),
            final(self).data == old(self).data,
            final(self).pos == uint_at(old(self).data@, old(self).pos as int, 8).1,
            match r {
                Ok(n) => uint_at(old(self).data@, old(self).pos as int, 8).0 == Ok::<_, ReadError>(n as nat),
                Err(e) => uint_at(old(self).data@, old(self).pos as int, 8).0 == Err::<nat, _>(e),
            },
    {
        match self.take(8) {
            Ok(b) => {
                let low: u32 = u32_of(vstd::slice::slice_subrange(b, 0, 4));
                let high: u32 = u32_of(vstd::slice::slice_subrange(b, 4, 8));
                proof {
                    lemma_little_endian_split(b@, 4);
                    assert(pow256(4) == 0x1_0000_0000) by {
                        reveal_with_fuel(pow256, 5);
                    }
                }
                let wide: u64 = high as u64;
                assert(0x1_0000_0000 * wide <= 0x1_0000_0000 * 0xFFFF_FFFF) by (nonlinear_arith)
                    requires
                        wide <= 0xFFFF_FFFF,
                ;
                Ok(low as u64 + 0x1_0000_0000 * wide)
            },
            Err(e) => Err(e),
        }
    }

    /// Reads a string: eight bytes of length, then UTF-8 without a terminator.
    pub fn read_string(&mut self) -> (r: Result<String, ReadError>)
        requires
            old(self).wf(),
        ensures
            final(self).wf(),
            final(self).data == old(self).data,
            final(self).pos == string_at(old(self).data@, old(self).pos as int).1,
            match r {
                Ok(s) => string_at(old(self).data@, old(self).pos as int).0 == Ok::<_, ReadError>(s@),
                Err(e) => string_at(old(self).data@, old(self).pos as int).0 == Err::<Seq<char>, _>(e),
            },
    {
        let len: usize = match self.read_u64() {
            Ok(n) => n as usize,
            Err(e) => return Err(e),
        };
        let bytes = match self.take(len) {
            Ok(bytes) => bytes,
            Err(e) => return Err(e),
        };
        match check_utf8(bytes) {
            Ok(s) => Ok(s.to_owned()),
            Err(_) => Err(ReadError::InvalidUtf8),
        }
    }
}

/// 256 to the power of `n`.
pub open spec fn pow256(n: nat) -> nat
    decreases n,
{
    if n == 0 {
        1
    } else {
        256 * pow256((n - 1) as nat)
    }
}

/// A number is its low bytes plus its high bytes, shifted.
proof fn lemma_little_endian_split(s: Seq<u8>, k: int)
    requires
        0 <= k <= s.len(),
    ensures
        little_endian(s) == little_endian(s.subrange(0, k)) + pow256(k as nat) * little_endian(
            s.subrange(k, s.len() as int),
        ),
    decreases k,
{
    if k == 0 {
        assert(s.subrange(0, s.len() as int) =~= s);
        assert(little_endian(s.subrange(0, 0)) == 0);
        assert(pow256(0) == 1);
        assert(1 * little_endian(s) == little_endian(s));
    } else {
        let t = s.drop_first();
        lemma_little_endian_split(t, k - 1);
        assert(s.subrange(0, k).drop_first() =~= t.subrange(0, k - 1));
        assert(s.subrange(k, s.len() as int) =~= t.subrange(k - 1, t.len() as int));
        let low = little_endian(t.subrange(0, k - 1));
        let p = pow256((k - 1) as nat);
        let high = little_endian(s.subrange(k, s.len() as int));
        assert(256 * (low + p * high) == 256 * low + (256 * p) * high) by (nonlinear_arith);
        assert(little_endian(s) == s[0] as nat + 256 * (low + p * high));
        assert(little_endian(s.subrange(0, k)) == s[0] as nat + 256 * low);
    }
}

/// The number that four bytes write.
fn u32_of(b: &[u8]) -> (r: u32)
    requires
        b@.len() == 4,
    ensures
        r == little_endian(b@),
{
    proof {
        reveal_with_fuel(little_endian, 5);
    }
    b[0] as u32 + 256 * (b[1] as u32) + 65536 * (b[2] as u32) + 16777216 * (b[3] as u32)
}

// ---------------------------------------------------------------------------
// Metadata.
// ---------------------------------------------------------------------------

/// A metadata value. `F32` and `F64` hold IEEE 754 bit patterns.
#[derive(Debug, PartialEq)]
pub enum GgufValue {
    U8(u8),
    I8(i8),
    U16(u16),
    I16(i16),
    U32(u32),
    I32(i32),
    F32(u32),
    Bool(bool),
    String(String),
    Array(Vec<GgufValue>),
    U64(u64),
    I64(i64),
    F64(u64),
}

impl View for GgufValue {
    type V = ValueView;

    open spec fn view(&self) -> ValueView
        decreases self,
    {
        match *self {
            GgufValue::U8(v) => ValueView::U8(v),
            GgufValue::I8(v) => ValueView::I8(v),
            GgufValue::U16(v) => ValueView::U16(v),
            GgufValue::I16(v) => ValueView::I16(v),
            GgufValue::U32(v) => ValueView::U32(v),
            GgufValue::I32(v) => ValueView::I32(v),
            GgufValue::F32(v) => ValueView::F32(v),
            GgufValue::Bool(v) => ValueView::Bool(v),
            GgufValue::String(s) => ValueView::String(s@),
            GgufValue::Array(items) => ValueView::Array(
                Seq::new(
                    items@.len(),
                    |i: int|
                        if 0 <= i < items@.len() {
                            items@[i]@
                        } else {
                            ValueView::U8(0)
                        },
                ),
            ),
            GgufValue::U64(v) => ValueView::U64(v),
            GgufValue::I64(v) => ValueView::I64(v),
            GgufValue::F64(v) => ValueView::F64(v),
        }
    }
}

/// The values that a list of metadata values holds.
pub open spec fn value_views(items: Seq<GgufValue>) -> Seq<ValueView> {
    Seq::new(items.len(), |i: int| items[i]@)
}

/// An array's view lists the views of its items.
pub proof fn lemma_array_view(items: Vec<GgufValue>)
    ensures
        GgufValue::Array(items)@ == ValueView::Array(value_views(items@)),
{
    let v = GgufValue::Array(items);
    reveal_with_fuel(<GgufValue as View>::view, 2);
    assert(v@->Array_0 =~= value_views(items@));
}

/// Once a list of values has failed to read, a longer one fails in the same way.
proof fn lemma_values_err(data: Seq<u8>, pos: int, tag: u32, n: nat, m: nat)
    requires
        n <= m,
        values_at(data, pos, tag, n).0 is Err,
    ensures
        values_at(data, pos, tag, m) == values_at(data, pos, tag, n),
    decreases m,
{
    if n < m {
        lemma_values_err(data, pos, tag, n, (m - 1) as nat);
    }
}

impl GgufValue {
    /// Reads a value of the type with this tag.
    pub fn read(cur: &mut Cursor, type_tag: u32) -> (r: Result<GgufValue, ReadError>)
        requires
            old(cur).wf(),
        ensures
            final(cur).wf(),
            final(cur).data == old(cur).data,
            final(cur).pos >= old(cur).pos,
            final(cur).pos == value_at(old(cur).data@, old(cur).pos as int, type_tag).1,
            match r {
                Ok(v) => value_at(old(cur).data@, old(cur).pos as int, type_tag).0 == Ok::<_, ReadError>(v@),
                Err(e) => value_at(old(cur).data@, old(cur).pos as int, type_tag).0 == Err::<ValueView, _>(e),
            },
        decreases old(cur).data@.len() - old(cur).pos,
    {
        let v = match type_tag {
            0 => match cur.read_u8() {
                Ok(n) => GgufValue::U8(n),
                Err(e) => return Err(e),
            },
            1 => match cur.read_u8() {
                Ok(n) => GgufValue::I8(n as i8),
                Err(e) => return Err(e),
            },
            2 => match cur.read_u16() {
                Ok(n) => GgufValue::U16(n),
                Err(e) => return Err(e),
            },
            3 => match cur.read_u16() {
                Ok(n) => GgufValue::I16(n as i16),
                Err(e) => return Err(e),
            },
            4 => match cur.read_u32() {
                Ok(n) => GgufValue::U32(n),
                Err(e) => return Err(e),
            },
            5 => match cur.read_u32() {
                Ok(n) => GgufValue::I32(n as i32),
                Err(e) => return Err(e),
            },
            6 => match cur.read_u32() {
                Ok(n) => GgufValue::F32(n),
                Err(e) => return Err(e),
            },
            7 => match cur.read_u8() {
                Ok(n) => GgufValue::Bool(n != 0),
                Err(e) => return Err(e),
            },
            8 => match cur.read_string() {
                Ok(s) => GgufValue::String(s),
                Err(e) => return Err(e),
            },
            9 => {
                let elem_tag: u32 = match cur.read_u32() {
                    Ok(n) => n,
                    Err(e) => return Err(e),
                };
                let count: usize = match cur.read_u64() {
                    Ok(n) => n as usize,
                    Err(e) => return Err(e),
                };
                let ghost data = cur.data@;
                let ghost start = cur.pos as int;
                let ghost first = old(cur).pos as int;
                let mut items: Vec<GgufValue> = Vec::new();
                let mut i: usize = 0;
                assert(value_views(items@) =~= seq![]);
                while i < count
                    invariant
                        i <= count,
                        cur.wf(),
                        cur.data == old(cur).data,
                        data == cur.data@,
                        first == old(cur).pos,
                        first < start <= cur.pos,
                        type_tag == 9,
                        value_at(data, first, type_tag) == as_array_value(
                            values_at(data, start, elem_tag, count as nat),
                        ),
                        values_at(data, start, elem_tag, i as nat) == (
                            Ok::<_, ReadError>(value_views(items@)),
                            cur.pos as int,
                        ),
                    decreases count - i,
                {
                    match GgufValue::read(cur, elem_tag) {
                        Ok(v) => {
                            let ghost before = items@;
                            items.push(v);
                            assert(value_views(items@) =~= value_views(before).push(v@));
                        },
                        Err(e) => {
                            proof {
                                lemma_values_err(data, start, elem_tag, (i + 1) as nat, count as nat);
                            }
                            return Err(e);
                        },
                    }
                    i = i + 1;
                }
                proof {
                    lemma_array_view(items);
                }
                GgufValue::Array(items)
            },
            10 => match cur.read_u64() {
                Ok(n) => GgufValue::U64(n),
                Err(e) => return Err(e),
            },
            11 => match cur.read_u64() {
                Ok(n) => GgufValue::I64(n as i64),
                Err(e) => return Err(e),
            },
            12 => match cur.read_u64() {
                Ok(n) => GgufValue::F64(n),
                Err(e) => return Err(e),
            },
            other => return Err(ReadError::UnknownValueTag(other)),
        };
        Ok(v)
    }

    /// The number, if this is an unsigned integer of four or eight bytes that fits in four.
    pub fn as_u32(&self) -> (r: Option<u32>)
        ensures
            r == self@.as_u32(),
    {
        match self {
            GgufValue::U32(v) => Some(*v),
            GgufValue::U64(v) => if *v <= 0xFFFF_FFFF {
                Some(*v as u32)
            } else {
                None
            },
            _ => None,
        }
    }

    /// The number, if this is an integer that fits.
    pub fn as_i64(&self) -> (r: Option<i64>)
        ensures
            r == self@.as_i64(),
    {
        match self {
            GgufValue::U8(v) => Some(*v as i64),
            GgufValue::I8(v) => Some(*v as i64),
            GgufValue::U16(v) => Some(*v as i64),
            GgufValue::I16(v) => Some(*v as i64),
            GgufValue::U32(v) => Some(*v as i64),
            GgufValue::I32(v) => Some(*v as i64),
            GgufValue::U64(v) => if *v <= 0x7FFF_FFFF_FFFF_FFFF {
                Some(*v as i64)
            } else {
                None
            },
            GgufValue::I64(v) => Some(*v),
            _ => None,
        }
    }

    /// The bit pattern, if this is a single-precision number.
    pub fn as_f32(&self) -> (r: Option<u32>)
        ensures
            r == self@.as_f32(),
    {
        match self {
            GgufValue::F32(v) => Some(*v),
            _ => None,
        }
    }

    /// The text, if this is a string.
    pub fn as_str(&self) -> (r: Option<&str>)
        ensures
            match r {
                Some(s) => self@.as_str() == Some(s@),
                None => self@.as_str() is None,
            },
    {
        match self {
            GgufValue::String(s) => Some(s.as_str()),
            _ => None,
        }
    }

    /// The items, if this is an array.
    pub fn as_array(&self) -> (r: Option<&[GgufValue]>)
        ensures
            match r {
                Some(items) => self@.as_array() == Some(value_views(items@)),
                None => self@.as_array() is None,
            },
    {
        match self {
            GgufValue::Array(items) => {
                proof {
                    lemma_array_view(*items);
                }
                Some(items.as_slice())
            },
            _ => None,
        }
    }
}

impl ValueView {
    /// The number, if this is an unsigned integer of four or eight bytes that fits in four.
    pub open spec fn as_u32(self) -> Option<u32> {
        match self {
            ValueView::U32(v) => Some(v),
            ValueView::U64(v) => if v <= u32::MAX {
                Some(v as u32)
            } else {
                None
            },
            _ => None,
        }
    }

    /// The number, if this is an integer that fits.
    pub open spec fn as_i64(self) -> Option<i64> {
        match self {
            ValueView::U8(v) => Some(v as i64),
            ValueView::I8(v) => Some(v as i64),
            ValueView::U16(v) => Some(v as i64),
            ValueView::I16(v) => Some(v as i64),
            ValueView::U32(v) => Some(v as i64),
            ValueView::I32(v) => Some(v as i64),
            ValueView::U64(v) => if v <= i64::MAX {
                Some(v as i64)
            } else {
                None
            },
            ValueView::I64(v) => Some(v),
            _ => None,
        }
    }

    /// The bit pattern, if this is a single-precision number.
    pub open spec fn as_f32(self) -> Option<u32> {
        match self {
            ValueView::F32(v) => Some(v),
            _ => None,
        }
    }

    /// The text, if this is a string.
    pub open spec fn as_str(self) -> Option<Seq<char>> {
        match self {
            ValueView::String(s) => Some(s),
            _ => None,
        }
    }

    /// The items, if this is an array.
    pub open spec fn as_array(self) -> Option<Seq<ValueView>> {
        match self {
            ValueView::Array(items) => Some(items),
            _ => None,
        }
    }
}

/// The metadata of a file: values by key.
pub struct Metadata {
    pub entries: Vec<(String, GgufValue)>,
}

/// The values by key that a list of entries holds.
pub open spec fn entries_map(s: Seq<(String, GgufValue)>) -> Map<Seq<char>, ValueView>
    decreases s.len(),
{
    if s.len() == 0 {
        Map::empty()
    } else {
        entries_map(s.drop_last()).insert(s.last().0@, s.last().1@)
    }
}

/// Whether no key occurs twice.
pub open spec fn keys_distinct(s: Seq<(String, GgufValue)>) -> bool {
    forall|i: int, j: int| 0 <= i < j < s.len() ==> (#[trigger] s[i]).0@ != (#[trigger] s[j]).0@
}

/// What the map of entries with distinct keys holds.
pub proof fn lemma_entries_map(s: Seq<(String, GgufValue)>)
    requires
        keys_distinct(s),
    ensures
        entries_map(s).dom().finite(),
        entries_map(s).dom().len() == s.len(),
        forall|i: int| 0 <= i < s.len() ==> entries_map(s).contains_key((#[trigger] s[i]).0@) && entries_map(s)[s[i].0@] == s[i].1@,
        forall|k: Seq<char>| entries_map(s).contains_key(k) ==> exists|i: int| 0 <= i < s.len() && (#[trigger] s[i]).0@ == k,
    decreases s.len(),
{
    if s.len() > 0 {
        let t = s.drop_last();
        lemma_entries_map(t);
        assert forall|i: int| 0 <= i < s.len() implies entries_map(s).contains_key((#[trigger] s[i]).0@) && entries_map(s)[s[i].0@] == s[i].1@ by {
            if i < s.len() - 1 {
                assert(t[i] == s[i]);
                assert(s[i].0@ != s[s.len() - 1].0@);
            }
        }
        assert forall|k: Seq<char>| entries_map(s).contains_key(k) implies exists|i: int| 0 <= i < s.len() && (#[trigger] s[i]).0@ == k by {
            if k == s.last().0@ {
                assert(s[s.len() - 1].0@ == k);
            } else {
                let i = choose|i: int| 0 <= i < t.len() && (#[trigger] t[i]).0@ == k;
                assert(s[i] == t[i]);
            }
        }
        if entries_map(t).contains_key(s.last().0@) {
            let i = choose|i: int| 0 <= i < t.len() && (#[trigger] t[i]).0@ == s.last().0@;
            assert(s[i] == t[i]);
            assert(s[i].0@ != s[s.len() - 1].0@);
        }
        assert(entries_map(s).dom() =~= entries_map(t).dom().insert(s.last().0@));
    }
}

impl View for Metadata {
    type V = Map<Seq<char>, ValueView>;

    open spec fn view(&self) -> Map<Seq<char>, ValueView> {
        entries_map(self.entries@)
    }
}

impl Metadata {
    /// Whether no key occurs twice.
    pub open spec fn wf(self) -> bool {
        keys_distinct(self.entries@)
    }

    /// No metadata.
    pub fn new() -> (r: Metadata)
        ensures
            r.wf(),
            r@ == Map::<Seq<char>, ValueView>::empty(),
    {
        Metadata { entries: Vec::new() }
    }

    /// How many keys there are.
    pub fn len(&self) -> (r: usize)
        requires
            self.wf(),
        ensures
            r == self@.dom().len(),
    {
        proof {
            lemma_entries_map(self.entries@);
        }
        self.entries.len()
    }

    /// Where the entry with this key stands.
    fn find(&self, key: &str) -> (r: Option<usize>)
        requires
            self.wf(),
        ensures
            match r {
                Some(i) => i < self.entries@.len() && self.entries@[i as int].0@ == key@ && self@.contains_key(key@)
                    && self@[key@] == self.entries@[i as int].1@,
                None => !self@.contains_key(key@) && forall|i: int| 0 <= i < self.entries@.len() ==> (#[trigger] self.entries@[i]).0@ != key@,
            },
    {
        proof {
            lemma_entries_map(self.entries@);
        }
        let mut i: usize = 0;
        while i < self.entries.len()
            invariant
                i <= self.entries@.len(),
                forall|j: int| 0 <= j < i ==> (#[trigger] self.entries@[j]).0@ != key@,
                forall|j: int| 0 <= j < self.entries@.len() ==> self@.contains_key((#[trigger] self.entries@[j]).0@)
                    && self@[self.entries@[j].0@] == self.entries@[j].1@,
            decreases self.entries@.len() - i,
        {
            if same_text(self.entries[i].0.as_str(), key) {
                return Some(i);
            }
            i = i + 1;
        }
        None
    }

    /// The value with this key.
    pub fn get(&self, key: &str) -> (r: Option<&GgufValue>)
        requires
            self.wf(),
        ensures
            match r {
                Some(v) => self@.contains_key(key@) && self@[key@] == v@,
                None => !self@.contains_key(key@),
            },
    {
        match self.find(key) {
            Some(i) => Some(&self.entries[i].1),
            None => None,
        }
    }

    /// Gives the key this value, in place of an earlier one.
    pub fn insert(&mut self, key: String, value: GgufValue)
        requires
            old(self).wf(),
        ensures
            final(self).wf(),
            final(self)@ == old(self)@.insert(key@, value@),
    {
        let ghost before = self.entries@;
        match self.find(key.as_str()) {
            Some(i) => {
                self.entries[i] = (key, value);
                proof {
                    lemma_entries_replaced(before, i as int, (key, value));
                }
            },
            None => {
                self.entries.push((key, value));
                assert(self.entries@.drop_last() =~= before);
            },
        }
    }
}

/// To replace the entry of a key is to replace its value.
proof fn lemma_entries_replaced(s: Seq<(String, GgufValue)>, i: int, e: (String, GgufValue))
    requires
        keys_distinct(s),
        0 <= i < s.len(),
        s[i].0@ == e.0@,
    ensures
        keys_distinct(s.update(i, e)),
        entries_map(s.update(i, e)) == entries_map(s).insert(e.0@, e.1@),
    decreases s.len(),
{
    let u = s.update(i, e);
    assert forall|a: int, b: int| 0 <= a < b < u.len() implies (#[trigger] u[a]).0@ != (#[trigger] u[b]).0@ by {
        assert(s[a].0@ != s[b].0@);
    }
    if i == s.len() - 1 {
        assert(u.drop_last() =~= s.drop_last());
    } else {
        lemma_entries_replaced(s.drop_last(), i, e);
        assert(u.drop_last() =~= s.drop_last().update(i, e));
        assert(s[i].0@ != s[s.len() - 1].0@);
    }
    assert(entries_map(u) =~= entries_map(s).insert(e.0@, e.1@));
}

// ---------------------------------------------------------------------------
// Tensor info.
// ---------------------------------------------------------------------------

/// ggml tensor data types.
#[derive(Debug, Clone, Copy, PartialEq, Eq, Structural)]
#[allow(non_camel_case_types)]
pub enum GgmlType {
    F32,
    F16,
    Q4_0,
    Q4_1,
    Q5_0,
    Q5_1,
    Q8_0,
    Q8_1,
    Q2K,
    Q3K,
    Q4K,
    Q5K,
    Q6K,
    Q8K,
    I8,
    I16,
    I32,
    I64,
    F64,
    Bf16,
}

impl GgmlType {
    /// The type that a file writes as this number.
    pub open spec fn of_tag(v: u32) -> Option<GgmlType> {
        if v == 0 {
            Some(GgmlType::F32)
        } else if v == 1 {
            Some(GgmlType::F16)
        } else if v == 2 {
            Some(GgmlType::Q4_0)
        } else if v == 3 {
            Some(GgmlType::Q4_1)
        } else if v == 6 {
            Some(GgmlType::Q5_0)
        } else if v == 7 {
            Some(GgmlType::Q5_1)
        } else if v == 8 {
            Some(GgmlType::Q8_0)
        } else if v == 9 {
            Some(GgmlType::Q8_1)
        } else if v == 10 {
            Some(GgmlType::Q2K)
        } else if v == 11 {
            Some(GgmlType::Q3K)
        } else if v == 12 {
            Some(GgmlType::Q4K)
        } else if v == 13 {
            Some(GgmlType::Q5K)
        } else if v == 14 {
            Some(GgmlType::Q6K)
        } else if v == 15 {
            Some(GgmlType::Q8K)
        } else if v == 24 {
            Some(GgmlType::I8)
        } else if v == 25 {
            Some(GgmlType::I16)
        } else if v == 26 {
            Some(GgmlType::I32)
        } else if v == 27 {
            Some(GgmlType::I64)
        } else if v == 28 {
            Some(GgmlType::F64)
        } else if v == 30 {
            Some(GgmlType::Bf16)
        } else {
            None
        }
    }

    /// The type that a file writes as this number.
    pub fn from_u32(v: u32) -> (r: Result<Self, ReadError>)
        ensures
            match r {
                Ok(t) => GgmlType::of_tag(v) == Some(t),
                Err(e) => GgmlType::of_tag(v) is None && e == ReadError::UnknownTensorType(v),
            },
    {
        Ok(match v {
            0 => GgmlType::F32,
            1 => GgmlType::F16,
            2 => GgmlType::Q4_0,
            3 => GgmlType::Q4_1,
            6 => GgmlType::Q5_0,
            7 => GgmlType::Q5_1,
            8 => GgmlType::Q8_0,
            9 => GgmlType::Q8_1,
            10 => GgmlType::Q2K,
            11 => GgmlType::Q3K,
            12 => GgmlType::Q4K,
            13 => GgmlType::Q5K,
            14 => GgmlType::Q6K,
            15 => GgmlType::Q8K,
            24 => GgmlType::I8,
            25 => GgmlType::I16,
            26 => GgmlType::I32,
            27 => GgmlType::I64,
            28 => GgmlType::F64,
            30 => GgmlType::Bf16,
            other => return Err(ReadError::UnknownTensorType(other)),
        })
    }

    /// Elements per block and bytes per block, for the types whose data can be located.
    pub open spec fn layout(self) -> Option<(usize, usize)> {
        match self {
            GgmlType::F32 => Some((1, 4)),
            GgmlType::F16 => Some((1, 2)),
            GgmlType::Q8_0 => Some((QK8_0, Q8_0_BLOCK_BYTES)),
            GgmlType::Q5_0 => Some((QK5_0, Q5_0_BLOCK_BYTES)),
            GgmlType::Q4K => Some((QK_K, Q4_K_BLOCK_BYTES)),
            GgmlType::Q6K => Some((QK_K, Q6_K_BLOCK_BYTES)),
            _ => None,
        }
    }

    /// Elements per block and bytes per block, for the types whose data can be located.
    pub fn block_layout(self) -> (r: Option<(usize, usize)>)
        ensures
            r == self.layout(),
    {
        match self {
            GgmlType::F32 => Some((1, 4)),
            GgmlType::F16 => Some((1, 2)),
            GgmlType::Q8_0 => Some((QK8_0, Q8_0_BLOCK_BYTES)),
            GgmlType::Q5_0 => Some((QK5_0, Q5_0_BLOCK_BYTES)),
            GgmlType::Q4K => Some((QK_K, Q4_K_BLOCK_BYTES)),
            GgmlType::Q6K => Some((QK_K, Q6_K_BLOCK_BYTES)),
            _ => None,
        }
    }
}

/// The product of the dimensions.
pub open spec fn elements(dims: Seq<u64>) -> nat
    decreases dims.len(),
{
    if dims.len() == 0 {
        1
    } else {
        elements(dims.drop_last()) * dims.last() as nat
    }
}

/// Whether the product, taken dimension by dimension, stays within 64 bits.
pub open spec fn elements_fit(dims: Seq<u64>) -> bool
    decreases dims.len(),
{
    dims.len() > 0 ==> elements_fit(dims.drop_last()) && elements(dims) <= u64::MAX
}

/// What a file says of one tensor.
#[derive(Debug)]
pub struct TensorInfo {
    pub name: String,
    /// The first dimension varies fastest.
    pub dims: Vec<u64>,
    pub dtype: GgmlType,
    /// In bytes, from the start of the tensor data.
    pub offset: u64,
}

impl View for TensorInfo {
    type V = TensorInfoView;

    open spec fn view(&self) -> TensorInfoView {
        TensorInfoView { name: self.name@, dims: self.dims@, dtype: self.dtype, offset: self.offset }
    }
}

impl TensorInfoView {
    /// How many bytes the tensor's data take.
    pub open spec fn byte_size(self) -> Result<usize, ErrorView> {
        match self.dtype.layout() {
            None => Err(ErrorView::UnsupportedType(self.dtype)),
            Some((block, bytes)) => {
                let n = (elements(self.dims) as u64) as usize;
                if !elements_fit(self.dims) {
                    Err(ErrorView::SizeOverflow)
                } else if n % block != 0 {
                    Err(ErrorView::PartialTensor { tensor: self.name, elements: n, block })
                } else if (n / block) * bytes > usize::MAX {
                    Err(ErrorView::SizeOverflow)
                } else {
                    Ok(((n / block) * bytes) as usize)
                }
            },
        }
    }
}

/// The tensors that a list of infos describes.
pub open spec fn tensor_views(tensors: Seq<TensorInfo>) -> Seq<TensorInfoView> {
    Seq::new(tensors.len(), |i: int| tensors[i]@)
}

/// A prefix of dimensions that fit does too.
proof fn lemma_elements_fit_prefix(dims: Seq<u64>, k: int)
    requires
        elements_fit(dims),
        0 <= k <= dims.len(),
    ensures
        elements_fit(dims.take(k)),
    decreases dims.len(),
{
    if k == dims.len() {
        assert(dims.take(k) =~= dims);
    } else {
        lemma_elements_fit_prefix(dims.drop_last(), k);
        assert(dims.drop_last().take(k) =~= dims.take(k));
    }
}

impl TensorInfo {
    /// How many elements the tensor has.
    pub fn n_elements(&self) -> (r: usize)
        requires
            elements_fit(self.dims@),
        ensures
            r == (elements(self.dims@) as u64) as usize,
    {
        match self.checked_elements() {
            Some(n) => n,
            None => 0,
        }
    }

    /// How many elements the tensor has, if their number fits in 64 bits.
    pub fn checked_elements(&self) -> (r: Option<usize>)
        ensures
            match r {
                Some(n) => elements_fit(self.dims@) && n == (elements(self.dims@) as u64) as usize,
                None => !elements_fit(self.dims@),
            },
    {
        let mut n: u64 = 1;
        let mut i: usize = 0;
        while i < self.dims.len()
            invariant
                i <= self.dims@.len(),
                n == elements(self.dims@.take(i as int)),
                elements_fit(self.dims@.take(i as int)),
            decreases self.dims@.len() - i,
        {
            assert(self.dims@.take(i + 1).drop_last() =~= self.dims@.take(i as int));
            match n.checked_mul(self.dims[i]) {
                Some(m) => {
                    n = m;
                },
                None => {
                    proof {
                        if elements_fit(self.dims@) {
                            lemma_elements_fit_prefix(self.dims@, i + 1);
                        }
                    }
                    return None;
                },
            }
            i = i + 1;
        }
        assert(self.dims@.take(i as int) =~= self.dims@);
        Some(n as usize)
    }

    /// How many bytes the tensor's data take.
    pub fn byte_size(&self) -> (r: Result<usize, FurnaceError>)
        ensures
            match r {
                Ok(n) => self@.byte_size() == Ok::<usize, ErrorView>(n),
                Err(e) => self@.byte_size() == Err::<usize, ErrorView>(e@),
            },
    {
        let (block, bytes): (usize, usize) = match self.dtype.block_layout() {
            Some(layout) => layout,
            None => return Err(FurnaceError::UnsupportedType(self.dtype)),
        };
        let n: usize = match self.checked_elements() {
            Some(n) => n,
            None => return Err(FurnaceError::SizeOverflow),
        };
        if n % block != 0 {
            return Err(FurnaceError::PartialTensor { tensor: self.name.clone(), elements: n, block });
        }
        match (n / block).checked_mul(bytes) {
            Some(size) => Ok(size),
            None => Err(FurnaceError::SizeOverflow),
        }
    }

    /// Reads one tensor info.
    pub fn read(cur: &mut Cursor) -> (r: Result<TensorInfo, FurnaceError>)
        requires
            old(cur).wf(),
        ensures
            final(cur).wf(),
            final(cur).data == old(cur).data,
            final(cur).pos == tensor_at(old(cur).data@, old(cur).pos as int).1,
            match r {
                Ok(t) => tensor_at(old(cur).data@, old(cur).pos as int).0 == Ok::<_, ErrorView>(t@),
                Err(e) => tensor_at(old(cur).data@, old(cur).pos as int).0 == Err::<TensorInfoView, _>(e@),
            },
    {
        let name: String = match cur.read_string() {
            Ok(s) => s,
            Err(e) => return Err(FurnaceError::Read(e)),
        };
        let n_dims: u32 = match cur.read_u32() {
            Ok(n) => n,
            Err(e) => return Err(FurnaceError::Read(e)),
        };
        if n_dims > 4 {
            return Err(FurnaceError::TooManyDims { tensor: name, n_dims });
        }
        let ghost data = cur.data@;
        let ghost first = old(cur).pos as int;
        let ghost whole = tensor_at(data, first);
        let ghost start = cur.pos as int;
        let mut dims: Vec<u64> = Vec::new();
        let mut i: u32 = 0;
        while i < n_dims
            invariant
                i <= n_dims,
                cur.wf(),
                cur.data == old(cur).data,
                data == cur.data@,
                n_dims <= 4,
                dims_at(data, start, i as nat) == (Ok::<_, ReadError>(dims@), cur.pos as int),
                first == old(cur).pos,
                whole == tensor_at(data, first),
                dims_at(data, start, n_dims as nat).0 matches Err(e) ==> whole == (Err::<TensorInfoView, ErrorView>(ErrorView::Read(e)), dims_at(data, start, n_dims as nat).1),
            decreases n_dims - i,
        {
            match cur.read_u64() {
                Ok(d) => {
                    dims.push(d);
                    i = i + 1;
                },
                Err(e) => {
                    proof {
                        lemma_dims_err(data, start, (i + 1) as nat, n_dims as nat);
                    }
                    return Err(FurnaceError::Read(e));
                },
            }
        }
        let tag: u32 = match cur.read_u32() {
            Ok(n) => n,
            Err(e) => return Err(FurnaceError::Read(e)),
        };
        let dtype: GgmlType = match GgmlType::from_u32(tag) {
            Ok(t) => t,
            Err(cause) => return Err(FurnaceError::InTensor { tensor: name, cause }),
        };
        let offset: u64 = match cur.read_u64() {
            Ok(n) => n,
            Err(e) => return Err(FurnaceError::Read(e)),
        };
        Ok(TensorInfo { name, dims, dtype, offset })
    }
}

/// Once a list of dimensions has failed to read, a longer one fails in the same way.
proof fn lemma_dims_err(data: Seq<u8>, pos: int, n: nat, m: nat)
    requires
        n <= m,
        dims_at(data, pos, n).0 is Err,
    ensures
        dims_at(data, pos, m) == dims_at(data, pos, n),
    decreases m,
{
    if n < m {
        lemma_dims_err(data, pos, n, (m - 1) as nat);
    }
}

/// Once a list of metadata entries has failed to read, a longer one fails in the same way.
proof fn lemma_metadata_err(data: Seq<u8>, pos: int, n: nat, m: nat)
    requires
        n <= m,
        metadata_at(data, pos, n).0 is Err,
    ensures
        metadata_at(data, pos, m) == metadata_at(data, pos, n),
    decreases m,
{
    if n < m {
        lemma_metadata_err(data, pos, n, (m - 1) as nat);
    }
}

/// Once a list of tensor infos has failed to read, a longer one fails in the same way.
proof fn lemma_tensors_err(data: Seq<u8>, pos: int, n: nat, m: nat)
    requires
        n <= m,
        tensors_at(data, pos, n).0 is Err,
    ensures
        tensors_at(data, pos, m) == tensors_at(data, pos, n),
    decreases m,
{
    if n < m {
        lemma_tensors_err(data, pos, n, (m - 1) as nat);
    }
}

// ---------------------------------------------------------------------------
// The file itself.
// ---------------------------------------------------------------------------

/// What the header of a file says.
pub struct ParsedView {
    pub version: u32,
    pub metadata: Map<Seq<char>, ValueView>,
    pub tensors: Seq<TensorInfoView>,
    pub data_start: usize,
}

/// The alignment of the tensor data.
pub open spec fn alignment_of(metadata: Map<Seq<char>, ValueView>) -> u32 {
    let key = "general.alignment"@;
    if metadata.contains_key(key) && metadata[key].as_u32() is Some {
        metadata[key].as_u32()->0
    } else {
        DEFAULT_ALIGNMENT
    }
}

/// The smallest multiple of `step` that is not below `n`.
pub open spec fn round_up(n: int, step: int) -> int {
    ((n + step - 1) / step) * step
}

/// Where the tensor data start, behind a header that ends at `header_end`.
pub open spec fn data_start_of(metadata: Map<Seq<char>, ValueView>, header_end: int, file_len: nat) -> Result<usize, ErrorView> {
    let alignment = alignment_of(metadata);
    if !is_pow2(alignment as int) {
        Err(ErrorView::BadAlignment(alignment))
    } else if round_up(header_end, alignment as int) > file_len {
        Err(ErrorView::Truncated { data_start: round_up(header_end, alignment as int) as u128, file_len: file_len as usize })
    } else {
        Ok(round_up(header_end, alignment as int) as usize)
    }
}

/// The parts of a header behind the counts.
pub open spec fn parse_lists(data: Seq<u8>, pos: int, version: u32, tensor_count: usize, entry_count: usize) -> Result<ParsedView, ErrorView> {
    match metadata_at(data, pos, entry_count as nat) {
        (Ok(metadata), p) => match tensors_at(data, p, tensor_count as nat) {
            (Ok(tensors), q) => match data_start_of(metadata, q, data.len()) {
                Ok(data_start) => Ok(ParsedView { version, metadata, tensors, data_start }),
                Err(e) => Err(e),
            },
            (Err(e), q) => Err(e),
        },
        (Err(e), p) => Err(e),
    }
}

/// The header behind the magic bytes.
pub open spec fn parse_numbers(data: Seq<u8>, pos: int) -> Result<ParsedView, ErrorView> {
    match uint_at(data, pos, 4) {
        (Ok(version), p) => if version != 2 && version != 3 {
            Err(ErrorView::UnsupportedVersion(version as u32))
        } else {
            match uint_at(data, p, 8) {
                (Ok(tensor_count), q) => match uint_at(data, q, 8) {
                    (Ok(entry_count), r) => parse_lists(
                        data,
                        r,
                        version as u32,
                        (tensor_count as u64) as usize,
                        (entry_count as u64) as usize,
                    ),
                    (Err(e), r) => Err(ErrorView::Read(e)),
                },
                (Err(e), q) => Err(ErrorView::Read(e)),
            }
        },
        (Err(e), p) => Err(ErrorView::Read(e)),
    }
}

/// The header of a file with these bytes, or why there is none.
pub open spec fn parsed(data: Seq<u8>) -> Result<ParsedView, ErrorView> {
    match take_at(data, 0, 4) {
        (Ok(magic), p) => if magic != seq![0x47u8, 0x47u8, 0x55u8, 0x46u8] {
            Err(ErrorView::BadMagic(magic[0], magic[1], magic[2], magic[3]))
        } else {
            parse_numbers(data, p)
        },
        (Err(e), p) => Err(ErrorView::Read(e)),
    }
}

/// The header of a file.
pub struct Parsed {
    pub version: u32,
    pub metadata: Metadata,
    pub tensors: Vec<TensorInfo>,
    pub data_start: usize,
}

impl View for Parsed {
    type V = ParsedView;

    open spec fn view(&self) -> ParsedView {
        ParsedView {
            version: self.version,
            metadata: self.metadata@,
            tensors: tensor_views(self.tensors@),
            data_start: self.data_start,
        }
    }
}

/// Whether the number is a power of two.
fn power_of_two(n: u32) -> (r: bool)
    ensures
        r == is_pow2(n as int),
{
    let mut m: u32 = n;
    proof {
        reveal(is_pow2);
    }
    while m > 1
        invariant
            is_pow2(m as int) == is_pow2(n as int),
        decreases m,
    {
        proof {
            reveal(is_pow2);
        }
        if m % 2 != 0 {
            return false;
        }
        m = m / 2;
    }
    m == 1
}

/// Reads the metadata entries.
fn parse_metadata(cur: &mut Cursor, count: usize) -> (r: Result<Metadata, FurnaceError>)
    requires
        old(cur).wf(),
    ensures
        final(cur).wf(),
        final(cur).data == old(cur).data,
        final(cur).pos == metadata_at(old(cur).data@, old(cur).pos as int, count as nat).1,
        match r {
            Ok(m) => m.wf() && metadata_at(old(cur).data@, old(cur).pos as int, count as nat).0 == Ok::<_, ErrorView>(m@),
            Err(e) => metadata_at(old(cur).data@, old(cur).pos as int, count as nat).0 == Err::<Map<Seq<char>, ValueView>, _>(e@),
        },
{
    let ghost data = cur.data@;
    let ghost start = cur.pos as int;
    let mut metadata: Metadata = Metadata::new();
    let mut i: usize = 0;
    while i < count
        invariant
            i <= count,
            cur.wf(),
            cur.data == old(cur).data,
            data == cur.data@,
            start == old(cur).pos,
            metadata.wf(),
            metadata_at(data, start, i as nat) == (Ok::<_, ErrorView>(metadata@), cur.pos as int),
        decreases count - i,
    {
        let ghost at = cur.pos as int;
        assert(metadata_at(data, start, (i + 1) as nat) == match entry_at(data, at) {
            (Ok((key, v)), end) => (Ok(metadata@.insert(key, v)), end),
            (Err(e), end) => (Err(e), end),
        });
        proof {
            if entry_at(data, at).0 is Err {
                lemma_metadata_err(data, start, (i + 1) as nat, count as nat);
            }
        }
        let key: String = match cur.read_string() {
            Ok(s) => s,
            Err(e) => return Err(FurnaceError::Read(e)),
        };
        let tag: u32 = match cur.read_u32() {
            Ok(n) => n,
            Err(e) => return Err(FurnaceError::Read(e)),
        };
        let value: GgufValue = match GgufValue::read(cur, tag) {
            Ok(v) => v,
            Err(cause) => return Err(FurnaceError::InKey { key, cause }),
        };
        metadata.insert(key, value);
        i = i + 1;
    }
    Ok(metadata)
}

/// Reads the tensor infos.
fn parse_tensors(cur: &mut Cursor, count: usize) -> (r: Result<Vec<TensorInfo>, FurnaceError>)
    requires
        old(cur).wf(),
    ensures
        final(cur).wf(),
        final(cur).data == old(cur).data,
        final(cur).pos == tensors_at(old(cur).data@, old(cur).pos as int, count as nat).1,
        match r {
            Ok(t) => tensors_at(old(cur).data@, old(cur).pos as int, count as nat).0 == Ok::<_, ErrorView>(tensor_views(t@)),
            Err(e) => tensors_at(old(cur).data@, old(cur).pos as int, count as nat).0 == Err::<Seq<TensorInfoView>, _>(e@),
        },
{
    let ghost data = cur.data@;
    let ghost start = cur.pos as int;
    let mut tensors: Vec<TensorInfo> = Vec::new();
    let mut i: usize = 0;
    assert(tensor_views(tensors@) =~= seq![]);
    while i < count
        invariant
            i <= count,
            cur.wf(),
            cur.data == old(cur).data,
            data == cur.data@,
            start == old(cur).pos,
            tensors_at(data, start, i as nat) == (Ok::<_, ErrorView>(tensor_views(tensors@)), cur.pos as int),
        decreases count - i,
    {
        let ghost before = tensors@;
        match TensorInfo::read(cur) {
            Ok(t) => {
                tensors.push(t);
                assert(tensor_views(tensors@) =~= tensor_views(before).push(t@));
            },
            Err(e) => {
                proof {
                    lemma_tensors_err(data, start, (i + 1) as nat, count as nat);
                }
                return Err(e);
            },
        }
        i = i + 1;
    }
    Ok(tensors)
}

/// Finds where the tensor data start.
fn find_data_start(metadata: &Metadata, header_end: usize, file_len: usize) -> (r: Result<usize, FurnaceError>)
    requires
        metadata.wf(),
    ensures
        match r {
            Ok(n) => data_start_of(metadata@, header_end as int, file_len as nat) == Ok::<usize, ErrorView>(n),
            Err(e) => data_start_of(metadata@, header_end as int, file_len as nat) == Err::<usize, ErrorView>(e@),
        },
{
    let said: Option<u32> = match metadata.get("general.alignment") {
        Some(v) => v.as_u32(),
        None => None,
    };
    let alignment: u32 = match said {
        Some(v) => v,
        None => DEFAULT_ALIGNMENT,
    };
    assert(alignment == alignment_of(metadata@));
    if !power_of_two(alignment) {
        return Err(FurnaceError::BadAlignment(alignment));
    }
    assert(alignment > 0) by {
        reveal(is_pow2);
    }
    let step: usize = alignment as usize;
    let rest: usize = header_end % step;
    proof {
        lemma_round_up(header_end as int, step as int);
    }
    let start: u128 = if rest == 0 {
        header_end as u128
    } else {
        header_end as u128 + (step - rest) as u128
    };
    if start <= file_len as u128 {
        Ok(start as usize)
    } else {
        Err(FurnaceError::Truncated { data_start: start, file_len })
    }
}

/// What rounding up adds.
proof fn lemma_round_up(n: int, step: int)
    requires
        n >= 0,
        step > 0,
    ensures
        round_up(n, step) == if n % step == 0 {
            n
        } else {
            n + step - n % step
        },
{
    let q = n / step;
    let r = n % step;
    assert(n == step * q + r && 0 <= r < step) by (nonlinear_arith)
        requires
            step > 0,
            q == n / step,
            r == n % step,
    ;
    if r == 0 {
        assert((n + step - 1) / step == q) by (nonlinear_arith)
            requires
                n == step * q,
                step > 0,
        ;
        assert(q * step == step * q) by (nonlinear_arith);
    } else {
        assert((n + step - 1) / step == q + 1) by (nonlinear_arith)
            requires
                n == step * q + r,
                0 < r < step,
        ;
        assert((q + 1) * step == step * q + step) by (nonlinear_arith);
    }
}

/// Reads the header of a file.
pub fn parse(data: &[u8]) -> (r: Result<Parsed, FurnaceError>)
    ensures
        match r {
            Ok(p) => p.metadata.wf() && parsed(data@) == Ok::<_, ErrorView>(p@),
            Err(e) => parsed(data@) == Err::<ParsedView, _>(e@),
        },
{
    let mut cur: Cursor = Cursor::new(data);
    let magic: &[u8] = match cur.take(4) {
        Ok(bytes) => bytes,
        Err(e) => return Err(FurnaceError::Read(e)),
    };
    let known: bool = magic[0] == 0x47 && magic[1] == 0x47 && magic[2] == 0x55 && magic[3] == 0x46;
    assert(known == (magic@ =~= seq![0x47u8, 0x47u8, 0x55u8, 0x46u8]));
    if !known {
        return Err(FurnaceError::BadMagic(magic[0], magic[1], magic[2], magic[3]));
    }
    let version: u32 = match cur.read_u32() {
        Ok(n) => n,
        Err(e) => return Err(FurnaceError::Read(e)),
    };
    if version != 2 && version != 3 {
        return Err(FurnaceError::UnsupportedVersion(version));
    }
    let tensor_count: usize = match cur.read_u64() {
        Ok(n) => n as usize,
        Err(e) => return Err(FurnaceError::Read(e)),
    };
    let entry_count: usize = match cur.read_u64() {
        Ok(n) => n as usize,
        Err(e) => return Err(FurnaceError::Read(e)),
    };
    let metadata: Metadata = match parse_metadata(&mut cur, entry_count) {
        Ok(m) => m,
        Err(e) => return Err(e),
    };
    let tensors: Vec<TensorInfo> = match parse_tensors(&mut cur, tensor_count) {
        Ok(t) => t,
        Err(e) => return Err(e),
    };
    let data_start: usize = match find_data_start(&metadata, cur.pos, data.len()) {
        Ok(n) => n,
        Err(e) => return Err(e),
    };
    Ok(Parsed { version, metadata, tensors, data_start })
}

/// A model file: its header, and its bytes.
pub struct GgufFile<'a> {
    pub bytes: &'a [u8],
    pub version: u32,
    pub metadata: Metadata,
    pub tensors: Vec<TensorInfo>,
    /// Where in `bytes` the tensor data start.
    pub data_start: usize,
}

/// The first tensor with this name.
pub open spec fn first_named(tensors: Seq<TensorInfoView>, name: Seq<char>) -> Option<TensorInfoView>
    decreases tensors.len(),
{
    if tensors.len() == 0 {
        None
    } else {
        match first_named(tensors.drop_last(), name) {
            Some(t) => Some(t),
            None => if tensors.last().name == name {
                Some(tensors.last())
            } else {
                None
            },
        }
    }
}

/// If a prefix has a tensor with this name, the first one stands there.
pub proof fn lemma_first_named(tensors: Seq<TensorInfoView>, name: Seq<char>, k: int)
    requires
        0 <= k <= tensors.len(),
        first_named(tensors.take(k), name) is Some,
    ensures
        first_named(tensors, name) == first_named(tensors.take(k), name),
    decreases tensors.len(),
{
    if k == tensors.len() {
        assert(tensors.take(k) =~= tensors);
    } else {
        assert(tensors.drop_last().take(k) =~= tensors.take(k));
        lemma_first_named(tensors.drop_last(), name, k);
    }
}

/// There is a first tensor with a name if and only if some tensor has it. It has that name, and none
/// before it does.
pub proof fn lemma_some_named(tensors: Seq<TensorInfoView>, name: Seq<char>)
    ensures
        match first_named(tensors, name) {
            Some(t) => exists|i: int|
                0 <= i < tensors.len() && #[trigger] tensors[i] == t && t.name == name && forall|j: int| 0 <= j < i ==> (#[trigger] tensors[j]).name != name,
            None => forall|j: int| 0 <= j < tensors.len() ==> (#[trigger] tensors[j]).name != name,
        },
    decreases tensors.len(),
{
    if tensors.len() > 0 {
        let before = tensors.drop_last();
        lemma_some_named(before, name);
        match first_named(before, name) {
            Some(t) => {
                let i = choose|i: int|
                    0 <= i < before.len() && #[trigger] before[i] == t && t.name == name && forall|j: int| 0 <= j < i ==> (#[trigger] before[j]).name != name;
                assert(tensors[i] == t);
                assert forall|j: int| 0 <= j < i implies (#[trigger] tensors[j]).name != name by {
                    assert(tensors[j] == before[j]);
                }
            },
            None => {
                assert forall|j: int| 0 <= j < before.len() implies (#[trigger] tensors[j]).name != name by {
                    assert(tensors[j] == before[j]);
                }
                assert(tensors[tensors.len() - 1] == tensors.last());
            },
        }
    }
}

impl<'a> GgufFile<'a> {
    /// Whether no metadata key occurs twice, and the tensor data start within the file.
    pub open spec fn wf(self) -> bool {
        self.metadata.wf() && self.data_start <= self.bytes@.len()
    }

    /// What the header says.
    pub open spec fn header(self) -> ParsedView {
        ParsedView {
            version: self.version,
            metadata: self.metadata@,
            tensors: tensor_views(self.tensors@),
            data_start: self.data_start,
        }
    }

    /// The metadata value with this key.
    pub open spec fn meta(self, key: Seq<char>) -> Option<ValueView> {
        if self.metadata@.contains_key(key) {
            Some(self.metadata@[key])
        } else {
            None
        }
    }

    /// The string with this key.
    pub open spec fn string_at_key(self, key: Seq<char>) -> Result<Seq<char>, ErrorView> {
        match self.meta(key) {
            Some(v) => match v.as_str() {
                Some(s) => Ok(s),
                None => Err(ErrorView::NotAString { key }),
            },
            None => Err(ErrorView::NotAString { key }),
        }
    }

    /// The array with this key.
    pub open spec fn array_at_key(self, key: Seq<char>) -> Result<Seq<ValueView>, ErrorView> {
        match self.meta(key) {
            Some(v) => match v.as_array() {
                Some(items) => Ok(items),
                None => Err(ErrorView::NotAnArray { key }),
            },
            None => Err(ErrorView::NotAnArray { key }),
        }
    }

    /// The unsigned number with this key.
    pub open spec fn u32_at_key(self, key: Seq<char>) -> Result<u32, ErrorView> {
        match self.meta(key) {
            Some(v) => match v.as_u32() {
                Some(n) => Ok(n),
                None => Err(ErrorView::NotAU32 { key }),
            },
            None => Err(ErrorView::NotAU32 { key }),
        }
    }

    /// The bit pattern of the single-precision number with this key.
    pub open spec fn float_at_key(self, key: Seq<char>) -> Result<u32, ErrorView> {
        match self.meta(key) {
            Some(v) => match v.as_f32() {
                Some(n) => Ok(n),
                None => Err(ErrorView::NotAFloat { key }),
            },
            None => Err(ErrorView::NotAFloat { key }),
        }
    }

    /// The first tensor with this name, and its bytes.
    pub open spec fn tensor_data(self, name: Seq<char>) -> Result<(TensorInfoView, Seq<u8>), ErrorView> {
        match first_named(tensor_views(self.tensors@), name) {
            None => Err(ErrorView::NoSuchTensor { tensor: name }),
            Some(t) => match t.byte_size() {
                Err(e) => Err(e),
                Ok(size) => {
                    let start = self.data_start + t.offset as usize;
                    if start + size > self.bytes@.len() {
                        Err(ErrorView::PastEndOfFile { tensor: t.name, at: start as u128, size, file_len: self.bytes@.len() as usize })
                    } else {
                        Ok((t, self.bytes@.subrange(start, start + size)))
                    }
                },
            },
        }
    }

    /// Reads the header of the file with these bytes.
    pub fn open(bytes: &'a [u8]) -> (r: Result<GgufFile<'a>, FurnaceError>)
        ensures
            match r {
                Ok(file) => file.wf() && file.bytes == bytes && parsed(bytes@) == Ok::<_, ErrorView>(file.header()),
                Err(e) => parsed(bytes@) == Err::<ParsedView, _>(e@),
            },
    {
        match parse(bytes) {
            Ok(p) => {
                proof {
                    assert(bytes.len() == bytes@.len());
                    lemma_data_start(bytes@);
                }
                Ok(
                    GgufFile {
                        bytes,
                        version: p.version,
                        metadata: p.metadata,
                        tensors: p.tensors,
                        data_start: p.data_start,
                    },
                )
            },
            Err(e) => Err(e),
        }
    }

    /// The string with this key.
    pub fn meta_str(&self, key: &str) -> (r: Result<&str, FurnaceError>)
        requires
            self.wf(),
        ensures
            match r {
                Ok(s) => self.string_at_key(key@) == Ok::<_, ErrorView>(s@),
                Err(e) => self.string_at_key(key@) == Err::<Seq<char>, _>(e@),
            },
    {
        if let Some(v) = self.metadata.get(key) {
            if let Some(s) = v.as_str() {
                return Ok(s);
            }
        }
        Err(FurnaceError::NotAString { key: key.to_owned() })
    }

    /// The array with this key.
    pub fn meta_array(&self, key: &str) -> (r: Result<&[GgufValue], FurnaceError>)
        requires
            self.wf(),
        ensures
            match r {
                Ok(items) => self.array_at_key(key@) == Ok::<_, ErrorView>(value_views(items@)),
                Err(e) => self.array_at_key(key@) == Err::<Seq<ValueView>, _>(e@),
            },
    {
        if let Some(v) = self.metadata.get(key) {
            if let Some(items) = v.as_array() {
                return Ok(items);
            }
        }
        Err(FurnaceError::NotAnArray { key: key.to_owned() })
    }

    /// The unsigned number with this key.
    pub fn meta_u32(&self, key: &str) -> (r: Result<u32, FurnaceError>)
        requires
            self.wf(),
        ensures
            match r {
                Ok(n) => self.u32_at_key(key@) == Ok::<u32, ErrorView>(n),
                Err(e) => self.u32_at_key(key@) == Err::<u32, ErrorView>(e@),
            },
    {
        if let Some(v) = self.metadata.get(key) {
            if let Some(n) = v.as_u32() {
                return Ok(n);
            }
        }
        Err(FurnaceError::NotAU32 { key: key.to_owned() })
    }

    /// The bit pattern of the single-precision number with this key.
    pub fn meta_f32(&self, key: &str) -> (r: Result<u32, FurnaceError>)
        requires
            self.wf(),
        ensures
            match r {
                Ok(n) => self.float_at_key(key@) == Ok::<u32, ErrorView>(n),
                Err(e) => self.float_at_key(key@) == Err::<u32, ErrorView>(e@),
            },
    {
        if let Some(v) = self.metadata.get(key) {
            if let Some(n) = v.as_f32() {
                return Ok(n);
            }
        }
        Err(FurnaceError::NotAFloat { key: key.to_owned() })
    }

    /// The first tensor with this name, and its bytes.
    pub fn tensor(&self, name: &str) -> (r: Result<(&TensorInfo, &'a [u8]), FurnaceError>)
        requires
            self.wf(),
        ensures
            match r {
                Ok((info, data)) => self.tensor_data(name@) == Ok::<_, ErrorView>((info@, data@)),
                Err(e) => self.tensor_data(name@) == Err::<(TensorInfoView, Seq<u8>), _>(e@),
            },
    {
        let ghost views = tensor_views(self.tensors@);
        let mut i: usize = 0;
        while i < self.tensors.len()
            invariant
                i <= self.tensors@.len(),
                views == tensor_views(self.tensors@),
                first_named(views.take(i as int), name@) is None,
                self.wf(),
            decreases self.tensors@.len() - i,
        {
            let info: &TensorInfo = &self.tensors[i];
            assert(views.take(i + 1).drop_last() =~= views.take(i as int));
            if same_text(info.name.as_str(), name) {
                proof {
                    lemma_first_named(views, name@, i + 1);
                }
                return self.located(info);
            }
            i = i + 1;
        }
        assert(views.take(i as int) =~= views);
        Err(FurnaceError::NoSuchTensor { tensor: name.to_owned() })
    }

    /// A tensor with its bytes.
    fn located<'b>(&'b self, info: &'b TensorInfo) -> (r: Result<(&'b TensorInfo, &'a [u8]), FurnaceError>)
        requires
            self.wf(),
        ensures
            match info@.byte_size() {
                Err(e) => r matches Err(got) && got@ == e,
                Ok(size) => {
                    let start = self.data_start + info.offset as usize;
                    if start + size > self.bytes@.len() {
                        r matches Err(got) && got@ == (ErrorView::PastEndOfFile {
                            tensor: info.name@,
                            at: start as u128,
                            size,
                            file_len: self.bytes@.len() as usize,
                        })
                    } else {
                        r matches Ok((i, d)) && i == info && d@ == self.bytes@.subrange(start, start + size)
                    }
                },
            },
    {
        let size: usize = match info.byte_size() {
            Ok(n) => n,
            Err(e) => return Err(e),
        };
        let file_len: usize = self.bytes.len();
        let start: u128 = self.data_start as u128 + (info.offset as usize) as u128;
        if start + size as u128 > file_len as u128 {
            return Err(FurnaceError::PastEndOfFile { tensor: info.name.clone(), at: start, size, file_len });
        }
        Ok((info, vstd::slice::slice_subrange(self.bytes, start as usize, start as usize + size)))
    }
}

/// Reading a value moves forward, within the data.
pub proof fn lemma_value_pos(data: Seq<u8>, pos: int, tag: u32)
    requires
        0 <= pos <= data.len(),
    ensures
        pos <= value_at(data, pos, tag).1 <= data.len(),
    decreases data.len() - pos, 0nat,
{
    if tag == 9 {
        let (elem_tag, p) = uint_at(data, pos, 4);
        if elem_tag is Ok {
            let (count, q) = uint_at(data, p, 8);
            if count is Ok {
                lemma_values_pos(data, q, elem_tag->Ok_0 as u32, ((count->Ok_0 as u64) as usize) as nat);
            }
        }
    }
}

/// Reading a list of values moves forward, within the data.
pub proof fn lemma_values_pos(data: Seq<u8>, pos: int, tag: u32, count: nat)
    requires
        0 <= pos <= data.len(),
    ensures
        pos <= values_at(data, pos, tag, count).1 <= data.len(),
    decreases data.len() - pos, count,
{
    if count > 0 {
        lemma_values_pos(data, pos, tag, (count - 1) as nat);
        lemma_value_pos(data, values_at(data, pos, tag, (count - 1) as nat).1, tag);
    }
}

/// Reading metadata moves forward, within the data.
pub proof fn lemma_metadata_pos(data: Seq<u8>, pos: int, count: nat)
    requires
        0 <= pos <= data.len(),
    ensures
        pos <= metadata_at(data, pos, count).1 <= data.len(),
    decreases count,
{
    if count > 0 {
        lemma_metadata_pos(data, pos, (count - 1) as nat);
        let (before, p) = metadata_at(data, pos, (count - 1) as nat);
        if before is Ok {
            let (key, q) = string_at(data, p);
            if key is Ok {
                let (tag, r) = uint_at(data, q, 4);
                if tag is Ok {
                    lemma_value_pos(data, r, tag->Ok_0 as u32);
                }
            }
        }
    }
}

/// Reading dimensions moves forward, within the data.
proof fn lemma_dims_pos(data: Seq<u8>, pos: int, count: nat)
    requires
        0 <= pos <= data.len(),
    ensures
        pos <= dims_at(data, pos, count).1 <= data.len(),
    decreases count,
{
    if count > 0 {
        lemma_dims_pos(data, pos, (count - 1) as nat);
    }
}

/// Reading tensor infos moves forward, within the data.
pub proof fn lemma_tensors_pos(data: Seq<u8>, pos: int, count: nat)
    requires
        0 <= pos <= data.len(),
    ensures
        pos <= tensors_at(data, pos, count).1 <= data.len(),
    decreases count,
{
    if count > 0 {
        lemma_tensors_pos(data, pos, (count - 1) as nat);
        let (before, p) = tensors_at(data, pos, (count - 1) as nat);
        if before is Ok {
            let (name, q) = string_at(data, p);
            if name is Ok {
                let (n_dims, r) = uint_at(data, q, 4);
                if n_dims is Ok && n_dims->Ok_0 <= 4 {
                    lemma_dims_pos(data, r, n_dims->Ok_0);
                }
            }
        }
    }
}

/// The tensor data start at or behind the header's end and within the file, on the alignment that
/// the metadata ask for, which is a power of two.
pub proof fn lemma_data_start(data: Seq<u8>)
    requires
        parsed(data) is Ok,
        data.len() <= usize::MAX,
    ensures
        parsed(data)->Ok_0.data_start <= data.len(),
        is_pow2(alignment_of(parsed(data)->Ok_0.metadata) as int),
        parsed(data)->Ok_0.data_start as int % alignment_of(parsed(data)->Ok_0.metadata) as int == 0,
{
    let p = parsed(data)->Ok_0;
    let a = alignment_of(p.metadata) as int;
    assert(a > 0) by {
        reveal(is_pow2);
    }
    let (_, at) = uint_at(data, 4, 4);
    let (tensor_count, q) = uint_at(data, at, 8);
    let (entry_count, r) = uint_at(data, q, 8);
    let (_, m) = metadata_at(data, r, ((entry_count->Ok_0 as u64) as usize) as nat);
    let (_, end) = tensors_at(data, m, ((tensor_count->Ok_0 as u64) as usize) as nat);
    assert(data_start_of(p.metadata, end, data.len()) == Ok::<usize, ErrorView>(p.data_start));
    let k = (end + a - 1) / a;
    lemma_metadata_pos(data, r, ((entry_count->Ok_0 as u64) as usize) as nat);
    lemma_tensors_pos(data, m, ((tensor_count->Ok_0 as u64) as usize) as nat);
    assert(k >= 0) by (nonlinear_arith)
        requires
            k == (end + a - 1) / a,
            end >= 0,
            a > 0,
    ;
    assert(k * a >= 0) by (nonlinear_arith)
        requires
            k >= 0,
            a > 0,
    ;
    assert((k * a) % a == 0) by (nonlinear_arith)
        requires
            a > 0,
    ;
}

// ---------------------------------------------------------------------------
// Files that were cut off.
// ---------------------------------------------------------------------------

/// Whether what is read from the first `limit` bytes is what is read from all, if it ends within
/// them, and nothing else.
spec fn agrees<T, E>(whole: (Result<T, E>, int), cut: (Result<T, E>, int), limit: int) -> bool {
    whole.0 is Ok ==> if whole.1 <= limit {
        cut == whole
    } else {
        cut.0 is Err
    }
}

/// Integers in a cut file.
proof fn lemma_uint_cut(data: Seq<u8>, limit: int, pos: int, n: usize)
    requires
        0 <= pos <= limit <= data.len(),
    ensures
        agrees(take_at(data, pos, n), take_at(data.take(limit), pos, n), limit),
        agrees(uint_at(data, pos, n), uint_at(data.take(limit), pos, n), limit),
        take_at(data, pos, n).1 >= pos,
{
    if pos + n <= limit {
        assert(data.take(limit).subrange(pos, pos + n) =~= data.subrange(pos, pos + n));
    }
}

/// Strings in a cut file.
proof fn lemma_string_cut(data: Seq<u8>, limit: int, pos: int)
    requires
        0 <= pos <= limit <= data.len(),
    ensures
        agrees(string_at(data, pos), string_at(data.take(limit), pos), limit),
        string_at(data, pos).1 >= pos,
{
    lemma_uint_cut(data, limit, pos, 8);
    let (len, start) = uint_at(data, pos, 8);
    if len is Ok && start <= limit {
        lemma_uint_cut(data, limit, start, (len->Ok_0 as u64) as usize);
    }
}

/// Values in a cut file.
proof fn lemma_value_cut(data: Seq<u8>, limit: int, pos: int, tag: u32)
    requires
        0 <= pos <= limit <= data.len(),
    ensures
        agrees(value_at(data, pos, tag), value_at(data.take(limit), pos, tag), limit),
    decreases data.len() - pos, 0nat,
{
    if scalar_size(tag) is Some {
        lemma_uint_cut(data, limit, pos, scalar_size(tag)->Some_0);
    } else if tag == 8 {
        lemma_string_cut(data, limit, pos);
    } else if tag == 9 {
        lemma_uint_cut(data, limit, pos, 4);
        let (elem_tag, p) = uint_at(data, pos, 4);
        if elem_tag is Ok {
            if p <= limit {
                lemma_uint_cut(data, limit, p, 8);
            }
            let (count, q) = uint_at(data, p, 8);
            if count is Ok {
                let n = ((count->Ok_0 as u64) as usize) as nat;
                lemma_values_pos(data, q, elem_tag->Ok_0 as u32, n);
                if q <= limit {
                    lemma_values_cut(data, limit, q, elem_tag->Ok_0 as u32, n);
                    assert(value_at(data, pos, tag) == as_array_value(values_at(data, q, elem_tag->Ok_0 as u32, n)));
                    assert(uint_at(data.take(limit), p, 8) == (count, q));
                    assert(value_at(data.take(limit), pos, tag) == as_array_value(values_at(data.take(limit), q, elem_tag->Ok_0 as u32, n)));
                }
            }
        }
    }
}

/// Lists of values in a cut file.
proof fn lemma_values_cut(data: Seq<u8>, limit: int, pos: int, tag: u32, count: nat)
    requires
        0 <= pos <= limit <= data.len(),
    ensures
        agrees(values_at(data, pos, tag, count), values_at(data.take(limit), pos, tag, count), limit),
    decreases data.len() - pos, count,
{
    if count > 0 {
        let m = (count - 1) as nat;
        lemma_values_cut(data, limit, pos, tag, m);
        lemma_values_pos(data, pos, tag, m);
        let (before, p) = values_at(data, pos, tag, m);
        if before is Ok {
            lemma_value_pos(data, p, tag);
            if p <= limit {
                lemma_value_cut(data, limit, p, tag);
            }
        }
    }
}

/// Metadata in a cut file.
proof fn lemma_metadata_cut(data: Seq<u8>, limit: int, pos: int, count: nat)
    requires
        0 <= pos <= limit <= data.len(),
    ensures
        agrees(metadata_at(data, pos, count), metadata_at(data.take(limit), pos, count), limit),
    decreases count,
{
    if count > 0 {
        let m = (count - 1) as nat;
        lemma_metadata_cut(data, limit, pos, m);
        lemma_metadata_pos(data, pos, m);
        let (before, p) = metadata_at(data, pos, m);
        if before is Ok {
            lemma_entry_cut(data, limit, p);
        }
    }
}

/// A metadata entry in a cut file.
proof fn lemma_entry_cut(data: Seq<u8>, limit: int, pos: int)
    requires
        0 <= pos <= data.len(),
        0 <= limit <= data.len(),
    ensures
        pos <= limit ==> agrees(entry_at(data, pos), entry_at(data.take(limit), pos), limit),
        entry_at(data, pos).0 is Ok ==> entry_at(data, pos).1 >= pos,
{
    lemma_string_cut(data, data.len() as int, pos);
    if pos <= limit {
        lemma_string_cut(data, limit, pos);
    }
    let (key, p) = string_at(data, pos);
    if key is Ok {
        lemma_uint_cut(data, data.len() as int, p, 4);
        if p <= limit {
            lemma_uint_cut(data, limit, p, 4);
        }
        let (tag, q) = uint_at(data, p, 4);
        if tag is Ok {
            lemma_value_pos(data, q, tag->Ok_0 as u32);
            if q <= limit {
                lemma_value_cut(data, limit, q, tag->Ok_0 as u32);
            }
        }
    }
}

/// Dimensions in a cut file.
proof fn lemma_dims_cut(data: Seq<u8>, limit: int, pos: int, count: nat)
    requires
        0 <= pos <= limit <= data.len(),
    ensures
        agrees(dims_at(data, pos, count), dims_at(data.take(limit), pos, count), limit),
    decreases count,
{
    if count > 0 {
        let m = (count - 1) as nat;
        lemma_dims_cut(data, limit, pos, m);
        lemma_dims_pos(data, pos, m);
        let (before, p) = dims_at(data, pos, m);
        if before is Ok && p <= limit {
            lemma_uint_cut(data, limit, p, 8);
        }
    }
}

/// A tensor info in a cut file.
proof fn lemma_tensor_cut(data: Seq<u8>, limit: int, pos: int)
    requires
        0 <= pos <= data.len(),
        0 <= limit <= data.len(),
    ensures
        pos <= limit ==> agrees(tensor_at(data, pos), tensor_at(data.take(limit), pos), limit),
        tensor_at(data, pos).0 is Ok ==> tensor_at(data, pos).1 >= pos,
{
    lemma_string_cut(data, data.len() as int, pos);
    if pos <= limit {
        lemma_string_cut(data, limit, pos);
    }
    let (name, p) = string_at(data, pos);
    if name is Ok {
        if p <= limit {
            lemma_uint_cut(data, limit, p, 4);
        }
        let (n_dims, q) = uint_at(data, p, 4);
        if n_dims is Ok && n_dims->Ok_0 <= 4 {
            lemma_dims_pos(data, q, n_dims->Ok_0);
            if q <= limit {
                lemma_dims_cut(data, limit, q, n_dims->Ok_0);
            }
            let (dims, r) = dims_at(data, q, n_dims->Ok_0);
            if dims is Ok {
                if r <= limit {
                    lemma_uint_cut(data, limit, r, 4);
                }
                let (tag, u) = uint_at(data, r, 4);
                if tag is Ok && u <= limit {
                    lemma_uint_cut(data, limit, u, 8);
                }
            }
        }
    }
}

/// Tensor infos in a cut file.
proof fn lemma_tensors_cut(data: Seq<u8>, limit: int, pos: int, count: nat)
    requires
        0 <= pos <= limit <= data.len(),
    ensures
        agrees(tensors_at(data, pos, count), tensors_at(data.take(limit), pos, count), limit),
    decreases count,
{
    if count > 0 {
        let m = (count - 1) as nat;
        lemma_tensors_cut(data, limit, pos, m);
        lemma_tensors_pos(data, pos, m);
        let (before, p) = tensors_at(data, pos, m);
        if before is Ok {
            lemma_tensor_cut(data, limit, p);
        }
    }
}

/// Of a file that was cut off, the header is read exactly if the cut is not before the start of the
/// tensor data, and is then the same.
pub proof fn lemma_cut_file(data: Seq<u8>, limit: int)
    requires
        parsed(data) is Ok,
        data.len() <= usize::MAX,
        0 <= limit <= data.len(),
    ensures
        parsed(data.take(limit)) is Ok <==> limit >= parsed(data)->Ok_0.data_start,
        parsed(data.take(limit)) is Ok ==> parsed(data.take(limit)) == parsed(data),
{
    lemma_data_start(data);
    let end = lemma_header_end(data);
    lemma_uint_cut(data, limit, 0, 4);
    if limit >= 4 {
        lemma_uint_cut(data, limit, 4, 4);
        if limit >= 8 {
            lemma_uint_cut(data, limit, 8, 8);
            if limit >= 16 {
                lemma_uint_cut(data, limit, 16, 8);
                if limit >= 24 {
                    let tensor_count = ((uint_at(data, 8, 8).0->Ok_0 as u64) as usize) as nat;
                    let entry_count = ((uint_at(data, 16, 8).0->Ok_0 as u64) as usize) as nat;
                    lemma_metadata_cut(data, limit, 24, entry_count);
                    lemma_metadata_pos(data, 24, entry_count);
                    let (_, m) = metadata_at(data, 24, entry_count);
                    if m <= limit {
                        lemma_tensors_cut(data, limit, m, tensor_count);
                    }
                }
            }
        }
    }
}

/// The tensor data start behind the counts, the metadata and the tensor infos.
proof fn lemma_header_end(data: Seq<u8>) -> (end: int)
    requires
        parsed(data) is Ok,
        data.len() <= usize::MAX,
    ensures
        ({
            let tensor_count = ((uint_at(data, 8, 8).0->Ok_0 as u64) as usize) as nat;
            let entry_count = ((uint_at(data, 16, 8).0->Ok_0 as u64) as usize) as nat;
            let (metadata, m) = metadata_at(data, 24, entry_count);
            let (tensors, e) = tensors_at(data, m, tensor_count);
            &&& 24 <= m <= e == end
            &&& metadata is Ok && tensors is Ok
            &&& end <= parsed(data)->Ok_0.data_start
            &&& parsed(data)->Ok_0.data_start == round_up(end, alignment_of(parsed(data)->Ok_0.metadata) as int)
        }),
{
    let whole = parsed(data)->Ok_0;
    let tensor_count = ((uint_at(data, 8, 8).0->Ok_0 as u64) as usize) as nat;
    let entry_count = ((uint_at(data, 16, 8).0->Ok_0 as u64) as usize) as nat;
    assert(take_at(data, 0, 4).1 == 4);
    assert(uint_at(data, 4, 4).1 == 8);
    assert(uint_at(data, 8, 8).1 == 16);
    assert(uint_at(data, 16, 8).1 == 24);
    lemma_metadata_pos(data, 24, entry_count);
    let (_, m) = metadata_at(data, 24, entry_count);
    lemma_tensors_pos(data, m, tensor_count);
    let (_, end) = tensors_at(data, m, tensor_count);
    let a = alignment_of(whole.metadata) as int;
    assert(a > 0) by {
        reveal(is_pow2);
    }
    assert(end <= ((end + a - 1) / a) * a) by (nonlinear_arith)
        requires
            a > 0,
    ;
    end
}

} // verus!
