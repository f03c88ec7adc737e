//! Quantized tensor data, and products with them.
//!
//! A block holds a fixed number of elements in few bits each, with the scales that turn them into
//! numbers. Matrix products read the blocks as they lie in the file.

use vstd::prelude::*;

use crate::error::{ErrorView, FurnaceError};
use crate::float::{Arithmetic, ZERO};
use crate::gguf::GgmlType;
use crate::tensor::{dot, dot_product, kernel_product, lanes, lemma_row_bounds, matmul_with, row_slice, total, RowKernel, Tensor};

verus! {

/// Elements per Q8_0 block.
pub const QK8_0: usize = 32;

/// Bytes per Q8_0 block: a half-precision scale and 32 signed bytes.
pub const Q8_0_BLOCK_BYTES: usize = 34;

/// Elements per Q5_0 block.
pub const QK5_0: usize = 32;

/// Bytes per Q5_0 block: a half-precision scale, 4 bytes of packed high bits, 16 nibble bytes.
pub const Q5_0_BLOCK_BYTES: usize = 22;

/// Elements per superblock of the K formats.
pub const QK_K: usize = 256;

/// Bytes per Q4_K superblock: two half-precision scales, 12 bytes of packed 6-bit scales and
/// minimums, 128 bytes of 4-bit quants.
pub const Q4_K_BLOCK_BYTES: usize = 144;

/// Bytes per Q6_K superblock: 128 bytes of low bits, 64 bytes of high bits, 16 signed scales, a
/// half-precision scale.
pub const Q6_K_BLOCK_BYTES: usize = 210;

// ---------------------------------------------------------------------------
// Half-precision numbers.
// ---------------------------------------------------------------------------

/// The half-precision pattern of two bytes.
pub open spec fn half_bits(lo: u8, hi: u8) -> u16 {
    (lo + 256 * hi) as u16
}

/// The scale that two bytes of a block write.
pub open spec fn scale_at<F: Arithmetic>(f: &F, block: Seq<u8>, i: int) -> u32 {
    f.widened(half_bits(block[i], block[i + 1]))
}

/// Reads the scale that two bytes of a block write.
fn read_scale<F: Arithmetic>(f: &F, block: &[u8], i: usize) -> (r: u32)
    requires
        f.wf(),
        i + 1 < block@.len(),
    ensures
        r == scale_at(f, block@, i as int),
{
    assert(block.len() == block@.len());
    let h: u16 = block[i] as u16 + 256 * (block[i + 1] as u16);
    f.from_half(h)
}

// ---------------------------------------------------------------------------
// The elements of a block.
// ---------------------------------------------------------------------------

/// Element `i` of a Q8_0 block: the scale times the signed byte.
pub open spec fn q8_0_quant(block: Seq<u8>, i: int) -> i32 {
    (block[2 + i] as i8) as i32
}

/// Element `i` of a Q5_0 block, before scaling. The fifth bit is bit `i` of the four bytes behind
/// the scale; the first sixteen elements have the low nibbles, the others the high ones.
pub open spec fn q5_0_quant(block: Seq<u8>, i: int) -> i32 {
    let low: int = if i < 16 {
        block[6 + i] as int % 16
    } else {
        block[6 + i - 16] as int / 16
    };
    let high: int = ((block[2 + i / 8] >> ((i % 8) as u8)) & 1u8) as int;
    (low + 16 * high - 16) as i32
}

/// The scale of sub-block `j` of a Q4_K superblock. The first four lie in the low 6 bits of bytes 0
/// to 3; of the others the low 4 bits lie in bytes 8 to 11, the high 2 in the top of bytes 0 to 3.
pub open spec fn q4_k_scale(scales: Seq<u8>, j: int) -> int {
    if j < 4 {
        scales[j] as int % 64
    } else {
        scales[j + 4] as int % 16 + 16 * (scales[j - 4] as int / 64)
    }
}

/// The minimum of sub-block `j` of a Q4_K superblock. The first four lie in the low 6 bits of bytes
/// 4 to 7; of the others the low 4 bits lie on top in bytes 8 to 11, the high 2 in the top of bytes
/// 4 to 7.
pub open spec fn q4_k_minimum(scales: Seq<u8>, j: int) -> int {
    if j < 4 {
        scales[j + 4] as int % 64
    } else {
        scales[j + 4] as int / 16 + 16 * (scales[j] as int / 64)
    }
}

/// Element `i` of a Q4_K superblock, before scaling. Each 64 elements share 32 bytes: first the low
/// nibbles, then the high ones.
pub open spec fn q4_k_quant(block: Seq<u8>, i: int) -> int {
    let byte = block[16 + 32 * (i / 64) + i % 32] as int;
    if i % 64 < 32 {
        byte % 16
    } else {
        byte / 16
    }
}

/// Element `i` of a Q4_K superblock: scale times quant, less the minimum, of its sub-block of 32.
pub open spec fn q4_k_value<F: Arithmetic>(f: &F, block: Seq<u8>, i: int) -> u32 {
    let scales = block.subrange(4, 16);
    let scale = f.product(scale_at(f, block, 0), f.integer(q4_k_scale(scales, i / 32) as i32));
    let minimum = f.product(scale_at(f, block, 2), f.integer(q4_k_minimum(scales, i / 32) as i32));
    f.difference(f.product(scale, f.integer(q4_k_quant(block, i) as i32)), minimum)
}

/// Element `i` of a Q6_K superblock, before scaling. In each half of 128 elements there are four
/// parts of 32: the low 4 bits are nibbles of 64 bytes, the high 2 bits are pairs in 32 bytes.
pub open spec fn q6_k_quant(block: Seq<u8>, i: int) -> int {
    let h = i / 128;
    let part = (i % 128) / 32;
    let l = i % 32;
    let byte = block[64 * h + 32 * (part % 2) + l] as int;
    let low = if part < 2 {
        byte % 16
    } else {
        byte / 16
    };
    let pairs = block[128 + 32 * h + l] as int;
    let high = if part == 0 {
        pairs % 4
    } else if part == 1 {
        (pairs / 4) % 4
    } else if part == 2 {
        (pairs / 16) % 4
    } else {
        pairs / 64
    };
    low + 16 * high - 32
}

/// The signed scale of element `i` of a Q6_K superblock: one for each 16 elements.
pub open spec fn q6_k_scale(block: Seq<u8>, i: int) -> i32 {
    (block[192 + i / 16] as i8) as i32
}

/// The number that element `i` of a block stands for.
pub open spec fn element<F: Arithmetic>(f: &F, dtype: GgmlType, block: Seq<u8>, i: int) -> u32 {
    match dtype {
        GgmlType::Q8_0 => f.product(scale_at(f, block, 0), f.integer(q8_0_quant(block, i))),
        GgmlType::Q5_0 => f.product(scale_at(f, block, 0), f.integer(q5_0_quant(block, i))),
        GgmlType::Q4K => q4_k_value(f, block, i),
        _ => f.product(f.product(scale_at(f, block, 208), f.integer(q6_k_scale(block, i))), f.integer(q6_k_quant(block, i) as i32)),
    }
}

/// The numbers that a block stands for.
pub open spec fn elements<F: Arithmetic>(f: &F, dtype: GgmlType, block: Seq<u8>, n: nat) -> Seq<u32> {
    Seq::new(n, |i: int| element(f, dtype, block, i))
}

/// Decodes a Q8_0 block.
pub fn dequant_block_q8_0<F: Arithmetic>(f: &F, block: &[u8], out: &mut [u32])
    requires
        f.wf(),
        block@.len() >= Q8_0_BLOCK_BYTES,
        old(out)@.len() >= QK8_0,
    ensures
        final(out)@ == elements(f, GgmlType::Q8_0, block@, QK8_0 as nat) + old(out)@.skip(QK8_0 as int),
{
    let d: u32 = read_scale(f, block, 0);
    let mut i: usize = 0;
    while i < QK8_0
        invariant
            i <= QK8_0,
            f.wf(),
            block@.len() >= Q8_0_BLOCK_BYTES,
            d == scale_at(f, block@, 0),
            out@.len() == old(out)@.len(),
            out@.len() >= QK8_0,
            forall|k: int| 0 <= k < i ==> #[trigger] out@[k] == element(f, GgmlType::Q8_0, block@, k),
            forall|k: int| QK8_0 <= k < out@.len() ==> #[trigger] out@[k] == old(out)@[k],
        decreases QK8_0 - i,
    {
        let q: i32 = (block[2 + i] as i8) as i32;
        let v: u32 = f.times(d, f.from_i32(q));
        out[i] = v;
        i = i + 1;
    }
    assert(out@ =~= elements(f, GgmlType::Q8_0, block@, QK8_0 as nat) + old(out)@.skip(QK8_0 as int));
}

/// Decodes a Q5_0 block.
pub fn dequant_block_q5_0<F: Arithmetic>(f: &F, block: &[u8], out: &mut [u32])
    requires
        f.wf(),
        block@.len() >= Q5_0_BLOCK_BYTES,
        old(out)@.len() >= QK5_0,
    ensures
        final(out)@ == elements(f, GgmlType::Q5_0, block@, QK5_0 as nat) + old(out)@.skip(QK5_0 as int),
{
    let d: u32 = read_scale(f, block, 0);
    let mut i: usize = 0;
    while i < QK5_0
        invariant
            i <= QK5_0,
            f.wf(),
            block@.len() >= Q5_0_BLOCK_BYTES,
            d == scale_at(f, block@, 0),
            out@.len() == old(out)@.len(),
            out@.len() >= QK5_0,
            forall|k: int| 0 <= k < i ==> #[trigger] out@[k] == element(f, GgmlType::Q5_0, block@, k),
            forall|k: int| QK5_0 <= k < out@.len() ==> #[trigger] out@[k] == old(out)@[k],
        decreases QK5_0 - i,
    {
        let low: u8 = if i < 16 {
            block[6 + i] % 16
        } else {
            block[6 + i - 16] / 16
        };
        let bits: u8 = block[2 + i / 8];
        let at: u8 = (i % 8) as u8;
        let high: u8 = (bits >> at) & 1;
        assert((bits >> at) & 1u8 <= 1) by (bit_vector);
        let q: i32 = low as i32 + 16 * (high as i32) - 16;
        assert(q == q5_0_quant(block@, i as int));
        let v: u32 = f.times(d, f.from_i32(q));
        out[i] = v;
        i = i + 1;
    }
    assert(out@ =~= elements(f, GgmlType::Q5_0, block@, QK5_0 as nat) + old(out)@.skip(QK5_0 as int));
}

/// The scale and the minimum of a sub-block of a Q4_K superblock.
fn q4k_scale_min(j: usize, scales: &[u8]) -> (r: (u8, u8))
    requires
        j < 8,
        scales@.len() == 12,
    ensures
        r.0 == q4_k_scale(scales@, j as int),
        r.1 == q4_k_minimum(scales@, j as int),
{
    if j < 4 {
        (scales[j] % 64, scales[j + 4] % 64)
    } else {
        (scales[j + 4] % 16 + 16 * (scales[j - 4] / 64), scales[j + 4] / 16 + 16 * (scales[j] / 64))
    }
}

/// Decodes a Q4_K superblock.
pub fn dequant_block_q4_k<F: Arithmetic>(f: &F, block: &[u8], out: &mut [u32])
    requires
        f.wf(),
        block@.len() >= Q4_K_BLOCK_BYTES,
        old(out)@.len() >= QK_K,
    ensures
        final(out)@ == elements(f, GgmlType::Q4K, block@, QK_K as nat) + old(out)@.skip(QK_K as int),
{
    let d: u32 = read_scale(f, block, 0);
    let dmin: u32 = read_scale(f, block, 2);
    let scales: &[u8] = vstd::slice::slice_subrange(block, 4, 16);
    let mut j: usize = 0;
    while j < 8
        invariant
            j <= 8,
            f.wf(),
            block@.len() >= Q4_K_BLOCK_BYTES,
            d == scale_at(f, block@, 0),
            dmin == scale_at(f, block@, 2),
            scales@ == block@.subrange(4, 16),
            out@.len() == old(out)@.len(),
            out@.len() >= QK_K,
            forall|k: int| 0 <= k < 32 * j ==> #[trigger] out@[k] == element(f, GgmlType::Q4K, block@, k),
            forall|k: int| QK_K <= k < out@.len() ==> #[trigger] out@[k] == old(out)@[k],
        decreases 8 - j,
    {
        let (sc, m): (u8, u8) = q4k_scale_min(j, scales);
        let scale: u32 = f.times(d, f.from_i32(sc as i32));
        let minimum: u32 = f.times(dmin, f.from_i32(m as i32));
        let base: usize = 16 + 32 * (j / 2);
        let mut l: usize = 0;
        while l < 32
            invariant
                j < 8,
                l <= 32,
                f.wf(),
                block@.len() >= Q4_K_BLOCK_BYTES,
                base == 16 + 32 * (j / 2),
                scales@ == block@.subrange(4, 16),
                scale == f.product(scale_at(f, block@, 0), f.integer(q4_k_scale(scales@, j as int) as i32)),
                minimum == f.product(scale_at(f, block@, 2), f.integer(q4_k_minimum(scales@, j as int) as i32)),
                out@.len() == old(out)@.len(),
                out@.len() >= QK_K,
                forall|k: int| 0 <= k < 32 * j + l ==> #[trigger] out@[k] == element(f, GgmlType::Q4K, block@, k),
                forall|k: int| QK_K <= k < out@.len() ==> #[trigger] out@[k] == old(out)@[k],
            decreases 32 - l,
        {
            let byte: u8 = block[base + l];
            let q: u8 = if j % 2 == 0 {
                byte % 16
            } else {
                byte / 16
            };
            let v: u32 = f.minus(f.times(scale, f.from_i32(q as i32)), minimum);
            proof {
                let i = 32 * j + l;
                assert(i / 32 == j);
                assert(i / 64 == j / 2);
                assert(i % 32 == l);
                assert((i % 64 < 32) == (j % 2 == 0));
            }
            out[32 * j + l] = v;
            l = l + 1;
        }
        j = j + 1;
    }
    assert(out@ =~= elements(f, GgmlType::Q4K, block@, QK_K as nat) + old(out)@.skip(QK_K as int));
}

/// The quant of element `i` of a Q6_K superblock.
fn q6k_quant(block: &[u8], i: usize) -> (r: i32)
    requires
        block@.len() >= Q6_K_BLOCK_BYTES,
        i < QK_K,
    ensures
        r == q6_k_quant(block@, i as int),
        -32 <= r < 32,
{
    let h: usize = i / 128;
    let part: usize = (i % 128) / 32;
    let l: usize = i % 32;
    let byte: u8 = block[64 * h + 32 * (part % 2) + l];
    let low: u8 = if part < 2 {
        byte % 16
    } else {
        byte / 16
    };
    let pairs: u8 = block[128 + 32 * h + l];
    let high: u8 = if part == 0 {
        pairs % 4
    } else if part == 1 {
        (pairs / 4) % 4
    } else if part == 2 {
        (pairs / 16) % 4
    } else {
        pairs / 64
    };
    low as i32 + 16 * (high as i32) - 32
}

/// Decodes a Q6_K superblock.
pub fn dequant_block_q6_k<F: Arithmetic>(f: &F, block: &[u8], out: &mut [u32])
    requires
        f.wf(),
        block@.len() >= Q6_K_BLOCK_BYTES,
        old(out)@.len() >= QK_K,
    ensures
        final(out)@ == elements(f, GgmlType::Q6K, block@, QK_K as nat) + old(out)@.skip(QK_K as int),
{
    let d: u32 = read_scale(f, block, 208);
    let mut i: usize = 0;
    while i < QK_K
        invariant
            i <= QK_K,
            f.wf(),
            block@.len() >= Q6_K_BLOCK_BYTES,
            d == scale_at(f, block@, 208),
            out@.len() == old(out)@.len(),
            out@.len() >= QK_K,
            forall|k: int| 0 <= k < i ==> #[trigger] out@[k] == element(f, GgmlType::Q6K, block@, k),
            forall|k: int| QK_K <= k < out@.len() ==> #[trigger] out@[k] == old(out)@[k],
        decreases QK_K - i,
    {
        let q: i32 = q6k_quant(block, i);
        let sc: i32 = (block[192 + i / 16] as i8) as i32;
        let v: u32 = f.times(f.times(d, f.from_i32(sc)), f.from_i32(q));
        out[i] = v;
        i = i + 1;
    }
    assert(out@ =~= elements(f, GgmlType::Q6K, block@, QK_K as nat) + old(out)@.skip(QK_K as int));
}

/// Elements and bytes per block of the types that the general product kernel decodes. Q8_0 has a
/// kernel of its own.
pub open spec fn block_dequant_of(dtype: GgmlType) -> Option<(usize, usize)> {
    match dtype {
        GgmlType::Q5_0 => Some((QK5_0, Q5_0_BLOCK_BYTES)),
        GgmlType::Q4K => Some((QK_K, Q4_K_BLOCK_BYTES)),
        GgmlType::Q6K => Some((QK_K, Q6_K_BLOCK_BYTES)),
        _ => None,
    }
}

/// Elements and bytes per block of the types that the general product kernel decodes.
pub fn block_dequant(dtype: GgmlType) -> (r: Option<(usize, usize)>)
    ensures
        r == block_dequant_of(dtype),
{
    match dtype {
        GgmlType::Q5_0 => Some((QK5_0, Q5_0_BLOCK_BYTES)),
        GgmlType::Q4K => Some((QK_K, Q4_K_BLOCK_BYTES)),
        GgmlType::Q6K => Some((QK_K, Q6_K_BLOCK_BYTES)),
        _ => None,
    }
}

/// Elements and bytes per block of the types that are decoded block by block.
pub open spec fn blocks_of(dtype: GgmlType) -> Option<(usize, usize)> {
    if dtype == GgmlType::Q8_0 {
        Some((QK8_0, Q8_0_BLOCK_BYTES))
    } else {
        block_dequant_of(dtype)
    }
}

/// Decodes one block.
fn dequant_block<F: Arithmetic>(f: &F, dtype: GgmlType, block: &[u8], out: &mut [u32])
    requires
        f.wf(),
        blocks_of(dtype) is Some,
        block@.len() >= blocks_of(dtype)->Some_0.1,
        old(out)@.len() == blocks_of(dtype)->Some_0.0,
    ensures
        final(out)@ == elements(f, dtype, block@, blocks_of(dtype)->Some_0.0 as nat),
{
    match dtype {
        GgmlType::Q8_0 => dequant_block_q8_0(f, block, out),
        GgmlType::Q5_0 => dequant_block_q5_0(f, block, out),
        GgmlType::Q4K => dequant_block_q4_k(f, block, out),
        _ => dequant_block_q6_k(f, block, out),
    }
    assert(old(out)@.skip(old(out)@.len() as int) =~= seq![]);
    assert(out@ =~= elements(f, dtype, block@, blocks_of(dtype)->Some_0.0 as nat));
}

// ---------------------------------------------------------------------------
// Whole tensors.
// ---------------------------------------------------------------------------

/// Block `b` of data in blocks of `size` bytes.
pub open spec fn block_at(raw: Seq<u8>, b: int, size: int) -> Seq<u8> {
    raw.subrange(b * size, (b + 1) * size)
}

/// Block `b` of data in blocks of `size` bytes.
fn block_slice(raw: &[u8], b: usize, size: usize) -> (r: &[u8])
    requires
        (b + 1) * size <= raw@.len(),
    ensures
        r@ == block_at(raw@, b as int, size as int),
        r@.len() == size,
{
    proof {
        lemma_row_bounds(b as int, b + 1, size as int);
        assert(raw.len() == raw@.len());
    }
    let start: usize = b * size;
    vstd::slice::slice_subrange(raw, start, start + size)
}

/// The numbers of the first `n` blocks, one block behind the other.
pub open spec fn decoded_blocks<F: Arithmetic>(f: &F, dtype: GgmlType, raw: Seq<u8>, n: nat) -> Seq<u32>
    decreases n,
{
    if n == 0 {
        seq![]
    } else {
        let (elems, bytes) = blocks_of(dtype)->0;
        decoded_blocks(f, dtype, raw, (n - 1) as nat) + elements(f, dtype, block_at(raw, n - 1, bytes as int), elems as nat)
    }
}

/// The single-precision pattern of four bytes, least significant first.
pub open spec fn pattern_at(raw: Seq<u8>, i: int) -> u32 {
    (raw[4 * i] + 0x100 * raw[4 * i + 1] + 0x1_0000 * raw[4 * i + 2] + 0x100_0000 * raw[4 * i + 3]) as u32
}

/// The `n` numbers that the data of this type write, or why they write none.
pub open spec fn dequantized<F: Arithmetic>(f: &F, dtype: GgmlType, raw: Seq<u8>, n: usize) -> Result<Seq<u32>, ErrorView> {
    if dtype == GgmlType::F32 {
        if raw.len() != n * 4 {
            Err(ErrorView::WrongLength { dtype, bytes: raw.len() as usize, blocks: n, block_bytes: 4 })
        } else {
            Ok(Seq::new(n as nat, |i: int| pattern_at(raw, i)))
        }
    } else {
        match blocks_of(dtype) {
            None => Err(ErrorView::NotDecoded(dtype)),
            Some((elems, bytes)) => if n % elems != 0 {
                Err(ErrorView::PartialBlock { dtype, elements: n, block: elems })
            } else if raw.len() != (n / elems) * bytes {
                Err(ErrorView::WrongLength { dtype, bytes: raw.len() as usize, blocks: n / elems, block_bytes: bytes })
            } else {
                Ok(decoded_blocks(f, dtype, raw, (n / elems) as nat))
            },
        }
    }
}

/// How many numbers blocks hold.
pub proof fn lemma_decoded_len<F: Arithmetic>(f: &F, dtype: GgmlType, raw: Seq<u8>, n: nat)
    requires
        blocks_of(dtype) is Some,
    ensures
        decoded_blocks(f, dtype, raw, n).len() == n * blocks_of(dtype)->Some_0.0,
    decreases n,
{
    let elems = blocks_of(dtype)->Some_0.0;
    if n > 0 {
        lemma_decoded_len(f, dtype, raw, (n - 1) as nat);
        assert((n - 1) * elems + elems == n * elems) by (nonlinear_arith);
    } else {
        assert(0 * elems == 0) by (nonlinear_arith);
    }
}

/// The numbers of each block stand at its place among all.
pub proof fn lemma_decoded_block<F: Arithmetic>(f: &F, dtype: GgmlType, raw: Seq<u8>, n: nat, b: int)
    requires
        blocks_of(dtype) is Some,
        0 <= b < n,
    ensures
        decoded_blocks(f, dtype, raw, n).subrange(b * blocks_of(dtype)->Some_0.0, (b + 1) * blocks_of(dtype)->Some_0.0) == elements(
            f,
            dtype,
            block_at(raw, b, blocks_of(dtype)->Some_0.1 as int),
            blocks_of(dtype)->Some_0.0 as nat,
        ),
        0 <= b * blocks_of(dtype)->Some_0.0,
        (b + 1) * blocks_of(dtype)->Some_0.0 <= decoded_blocks(f, dtype, raw, n).len(),
    decreases n,
{
    let (elems, bytes) = blocks_of(dtype)->Some_0;
    let all = decoded_blocks(f, dtype, raw, n);
    let m = (n - 1) as nat;
    lemma_decoded_len(f, dtype, raw, n);
    lemma_decoded_len(f, dtype, raw, m);
    lemma_row_bounds(b, n as int, elems as int);
    let one = elements(f, dtype, block_at(raw, b, bytes as int), elems as nat);
    if b < m {
        lemma_decoded_block(f, dtype, raw, m, b);
        lemma_row_bounds(b, m as int, elems as int);
        assert(all.subrange(b * elems, (b + 1) * elems) =~= decoded_blocks(f, dtype, raw, m).subrange(b * elems, (b + 1) * elems));
    } else {
        assert(all.subrange(b * elems, (b + 1) * elems) =~= one);
    }
}

/// Decodes data in blocks.
fn dequantize_blocks<F: Arithmetic>(f: &F, dtype: GgmlType, raw: &[u8], n_elements: usize, elems: usize, bytes: usize) -> (r: Result<
    Vec<u32>,
    FurnaceError,
>)
    requires
        f.wf(),
        blocks_of(dtype) == Some((elems, bytes)),
        dtype != GgmlType::F32,
    ensures
        match r {
            Ok(v) => dequantized(f, dtype, raw@, n_elements) == Ok::<_, ErrorView>(v@),
            Err(e) => dequantized(f, dtype, raw@, n_elements) == Err::<Seq<u32>, _>(e@),
        },
{
    if n_elements % elems != 0 {
        return Err(FurnaceError::PartialBlock { dtype, elements: n_elements, block: elems });
    }
    let n: usize = n_elements / elems;
    let fits: bool = match n.checked_mul(bytes) {
        Some(size) => size == raw.len(),
        None => false,
    };
    if !fits {
        return Err(FurnaceError::WrongLength { dtype, bytes: raw.len(), blocks: n, block_bytes: bytes });
    }
    let mut out: Vec<u32> = Vec::new();
    let mut b: usize = 0;
    while b < n
        invariant
            b <= n,
            f.wf(),
            blocks_of(dtype) == Some((elems, bytes)),
            raw@.len() == n * bytes,
            out@ == decoded_blocks(f, dtype, raw@, b as nat),
        decreases n - b,
    {
        proof {
            lemma_row_bounds(b as int, n as int, bytes as int);
        }
        let mut buf: Vec<u32> = vec![ZERO; elems];
        dequant_block(f, dtype, block_slice(raw, b, bytes), buf.as_mut_slice());
        out.append(&mut buf);
        b = b + 1;
    }
    Ok(out)
}

/// Decodes Q8_0 data.
pub fn dequantize_q8_0<F: Arithmetic>(f: &F, raw: &[u8], n_elements: usize) -> (r: Result<Vec<u32>, FurnaceError>)
    requires
        f.wf(),
    ensures
        match r {
            Ok(v) => dequantized(f, GgmlType::Q8_0, raw@, n_elements) == Ok::<_, ErrorView>(v@),
            Err(e) => dequantized(f, GgmlType::Q8_0, raw@, n_elements) == Err::<Seq<u32>, _>(e@),
        },
{
    dequantize_blocks(f, GgmlType::Q8_0, raw, n_elements, QK8_0, Q8_0_BLOCK_BYTES)
}

/// Reads numbers that are stored at full precision.
fn read_patterns(raw: &[u8], n: usize) -> (r: Vec<u32>)
    requires
        raw@.len() == n * 4,
    ensures
        r@ == Seq::new(n as nat, |i: int| pattern_at(raw@, i)),
{
    let mut out: Vec<u32> = Vec::with_capacity(n);
    let mut i: usize = 0;
    while i < n
        invariant
            i <= n,
            raw@.len() == n * 4,
            raw@.len() == raw.len(),
            out@.len() == i,
            forall|k: int| 0 <= k < i ==> #[trigger] out@[k] == pattern_at(raw@, k),
        decreases n - i,
    {
        let base: usize = 4 * i;
        let v: u32 = raw[base] as u32 + 0x100 * (raw[base + 1] as u32) + 0x1_0000 * (raw[base + 2] as u32) + 0x100_0000 * (raw[base + 3] as u32);
        out.push(v);
        i = i + 1;
    }
    assert(out@ =~= Seq::new(n as nat, |k: int| pattern_at(raw@, k)));
    out
}

/// Decodes data of any type that is supported.
pub fn dequantize<F: Arithmetic>(f: &F, dtype: GgmlType, raw: &[u8], n_elements: usize) -> (r: Result<Vec<u32>, FurnaceError>)
    requires
        f.wf(),
    ensures
        match r {
            Ok(v) => dequantized(f, dtype, raw@, n_elements) == Ok::<_, ErrorView>(v@),
            Err(e) => dequantized(f, dtype, raw@, n_elements) == Err::<Seq<u32>, _>(e@),
        },
{
    match dtype {
        GgmlType::F32 => {
            let fits: bool = match n_elements.checked_mul(4) {
                Some(size) => size == raw.len(),
                None => false,
            };
            if !fits {
                return Err(FurnaceError::WrongLength { dtype, bytes: raw.len(), blocks: n_elements, block_bytes: 4 });
            }
            Ok(read_patterns(raw, n_elements))
        },
        GgmlType::Q8_0 => dequantize_q8_0(f, raw, n_elements),
        other => match block_dequant(other) {
            Some((elems, bytes)) => dequantize_blocks(f, other, raw, n_elements, elems, bytes),
            None => Err(FurnaceError::NotDecoded(other)),
        },
    }
}

/// Data that decode give as many numbers as are asked for.
pub proof fn lemma_dequantized_len<F: Arithmetic>(f: &F, dtype: GgmlType, raw: Seq<u8>, n: usize)
    ensures
        dequantized(f, dtype, raw, n) matches Ok(v) ==> v.len() == n,
{
    if dtype != GgmlType::F32 && blocks_of(dtype) is Some {
        let elems = blocks_of(dtype)->Some_0.0;
        lemma_decoded_len(f, dtype, raw, (n / elems) as nat);
        if n % elems == 0 {
            assert((n / elems) * elems == n) by (nonlinear_arith)
                requires
                    n % elems == 0,
                    elems > 0,
            ;
        }
    }
}

/// Some whole blocks in a row, taken out of the data, decode to what stands at their place among all.
pub proof fn lemma_decoded_range<F: Arithmetic>(f: &F, dtype: GgmlType, raw: Seq<u8>, n: nat, first: int, last: int)
    requires
        blocks_of(dtype) is Some,
        0 <= first <= last <= n,
        raw.len() == n * blocks_of(dtype)->Some_0.1,
    ensures
        0 <= first * blocks_of(dtype)->Some_0.1 <= last * blocks_of(dtype)->Some_0.1 <= raw.len(),
        decoded_blocks(
            f,
            dtype,
            raw.subrange(first * blocks_of(dtype)->Some_0.1, last * blocks_of(dtype)->Some_0.1),
            (last - first) as nat,
        ) == decoded_blocks(f, dtype, raw, n).subrange(first * blocks_of(dtype)->Some_0.0, last * blocks_of(dtype)->Some_0.0),
        0 <= first * blocks_of(dtype)->Some_0.0 <= last * blocks_of(dtype)->Some_0.0 <= decoded_blocks(f, dtype, raw, n).len(),
    decreases last - first,
{
    let (elems, bytes) = blocks_of(dtype)->Some_0;
    let all = decoded_blocks(f, dtype, raw, n);
    lemma_decoded_len(f, dtype, raw, n);
    assert(0 <= first * bytes <= last * bytes <= n * bytes) by (nonlinear_arith)
        requires
            0 <= first <= last <= n,
            bytes >= 0,
    ;
    assert(0 <= first * elems <= last * elems <= n * elems) by (nonlinear_arith)
        requires
            0 <= first <= last <= n,
            elems >= 0,
    ;
    let part = raw.subrange(first * bytes, last * bytes);
    let k = (last - first) as nat;
    if k == 0 {
        assert(decoded_blocks(f, dtype, part, 0) =~= all.subrange(first * elems, last * elems));
    } else {
        let mid = last - 1;
        lemma_decoded_range(f, dtype, raw, n, first, mid);
        lemma_decoded_block(f, dtype, raw, n, mid);
        lemma_row_bounds(mid, n as int, bytes as int);
        lemma_row_bounds(mid, n as int, elems as int);
        let shorter = raw.subrange(first * bytes, mid * bytes);
        assert((k - 1) * bytes == mid * bytes - first * bytes && k * bytes == last * bytes - first * bytes) by (nonlinear_arith)
            requires
                k == last - first,
                mid == last - 1,
        ;
        lemma_decoded_prefix(f, dtype, part, shorter, (k - 1) as nat);
        assert(block_at(part, k - 1, bytes as int) =~= block_at(raw, mid, bytes as int));
        assert(all.subrange(first * elems, last * elems) =~= all.subrange(first * elems, mid * elems) + all.subrange(mid * elems, last * elems));
    }
}

/// The numbers of the first blocks depend on those alone.
proof fn lemma_decoded_prefix<F: Arithmetic>(f: &F, dtype: GgmlType, a: Seq<u8>, b: Seq<u8>, n: nat)
    requires
        blocks_of(dtype) is Some,
        n * blocks_of(dtype)->Some_0.1 <= a.len(),
        n * blocks_of(dtype)->Some_0.1 <= b.len(),
        forall|i: int| 0 <= i < n * blocks_of(dtype)->Some_0.1 ==> a[i] == b[i],
    ensures
        decoded_blocks(f, dtype, a, n) == decoded_blocks(f, dtype, b, n),
    decreases n,
{
    let bytes = blocks_of(dtype)->Some_0.1;
    if n > 0 {
        lemma_row_bounds(n - 1, n as int, bytes as int);
        lemma_decoded_prefix(f, dtype, a, b, (n - 1) as nat);
        assert(block_at(a, n - 1, bytes as int) =~= block_at(b, n - 1, bytes as int));
    }
}

// ---------------------------------------------------------------------------
// Products with quantized weights.
// ---------------------------------------------------------------------------

/// The quants of a Q8_0 block as numbers.
pub open spec fn q8_0_numbers<F: Arithmetic>(f: &F, block: Seq<u8>) -> Seq<u32> {
    Seq::new(QK8_0 as nat, |i: int| f.integer(q8_0_quant(block, i)))
}

/// What one block adds to a dot product: for Q8_0 the scale times the dot product of the activations
/// and the quants, in eight lanes; else the dot product of the activations and the decoded block.
pub open spec fn block_dot<F: Arithmetic>(f: &F, dtype: GgmlType, block: Seq<u8>, a: Seq<u32>) -> u32 {
    if dtype == GgmlType::Q8_0 {
        f.product(scale_at(f, block, 0), total(f, lanes(f, a, q8_0_numbers(f, block)), 8))
    } else {
        dot_product(f, a, elements(f, dtype, block, blocks_of(dtype)->Some_0.0 as nat))
    }
}

/// The part of an activation row that meets block `b`.
pub open spec fn part_at(a: Seq<u32>, b: int, elems: int) -> Seq<u32> {
    a.subrange(b * elems, (b + 1) * elems)
}

/// The dot product of an activation row and the first `n` blocks of a weight row, block by block.
pub open spec fn blocks_dot<F: Arithmetic>(f: &F, dtype: GgmlType, weights: Seq<u8>, a: Seq<u32>, n: nat) -> u32
    decreases n,
{
    if n == 0 {
        ZERO
    } else {
        let (elems, bytes) = blocks_of(dtype)->0;
        f.sum(
            blocks_dot(f, dtype, weights, a, (n - 1) as nat),
            block_dot(f, dtype, block_at(weights, n - 1, bytes as int), part_at(a, n - 1, elems as int)),
        )
    }
}

/// How many bytes a weight row takes.
pub open spec fn row_bytes(dtype: GgmlType, d_in: int) -> int {
    let (elems, bytes) = blocks_of(dtype)->0;
    (d_in / elems as int) * bytes
}

/// The dot product of an activation row and weight row `o`.
pub open spec fn fused_dot<F: Arithmetic>(f: &F, dtype: GgmlType, raw: Seq<u8>, d_in: int, o: int, a: Seq<u32>) -> u32 {
    let (elems, bytes) = blocks_of(dtype)->0;
    blocks_dot(f, dtype, block_at(raw, o, row_bytes(dtype, d_in)), a, (d_in / elems as int) as nat)
}

/// The product of activation rows with quantized weight rows.
pub open spec fn fused_product<F: Arithmetic>(f: &F, dtype: GgmlType, raw: Seq<u8>, d_out: nat, d_in: int, x: Seq<Seq<u32>>) -> Seq<Seq<u32>> {
    Seq::new(x.len(), |s: int| Seq::new(d_out, |o: int| fused_dot(f, dtype, raw, d_in, o, x[s])))
}

/// Whether these are the bytes of a quantized weight matrix.
pub open spec fn fused_fits(dtype: GgmlType, raw: Seq<u8>, d_out: int, d_in: int) -> bool {
    &&& blocks_of(dtype) is Some
    &&& d_in % blocks_of(dtype)->Some_0.0 as int == 0
    &&& raw.len() == d_out * row_bytes(dtype, d_in)
}

/// The scale times the dot product of activations and quants, in eight lanes.
fn dot_block_q8_0<F: Arithmetic>(f: &F, block: &[u8], a: &[u32]) -> (r: u32)
    requires
        f.wf(),
        block@.len() == Q8_0_BLOCK_BYTES,
        a@.len() == QK8_0,
    ensures
        r == block_dot(f, GgmlType::Q8_0, block@, a@),
{
    let mut quants: Vec<u32> = Vec::with_capacity(QK8_0);
    let mut i: usize = 0;
    while i < QK8_0
        invariant
            i <= QK8_0,
            f.wf(),
            block@.len() == Q8_0_BLOCK_BYTES,
            quants@.len() == i,
            forall|k: int| 0 <= k < i ==> #[trigger] quants@[k] == f.integer(q8_0_quant(block@, k)),
        decreases QK8_0 - i,
    {
        quants.push(f.from_i32((block[2 + i] as i8) as i32));
        i = i + 1;
    }
    assert(quants@ =~= q8_0_numbers(f, block@));
    let sum: u32 = dot(f, a, quants.as_slice());
    assert(sum == total(f, lanes(f, a@, quants@), 8));
    f.times(read_scale(f, block, 0), sum)
}

/// Quantized weights.
struct BlockKernel<'a, F> {
    f: &'a F,
    raw: &'a [u8],
    d_out: usize,
    d_in: usize,
    dtype: GgmlType,
    elems: usize,
    bytes: usize,
}

impl<'a, F: Arithmetic> RowKernel for BlockKernel<'a, F> {
    closed spec fn wf(&self) -> bool {
        &&& self.f.wf()
        &&& blocks_of(self.dtype) == Some((self.elems, self.bytes))
        &&& fused_fits(self.dtype, self.raw@, self.d_out as int, self.d_in as int)
    }

    closed spec fn height(&self) -> nat {
        self.d_out as nat
    }

    closed spec fn width(&self) -> nat {
        self.d_in as nat
    }

    closed spec fn value(&self, o: int, a: Seq<u32>) -> u32 {
        fused_dot(self.f, self.dtype, self.raw@, self.d_in as int, o, a)
    }

    fn cell(&self, o: usize, a: &[u32]) -> (r: u32) {
        let n: usize = self.d_in / self.elems;
        let ghost width = row_bytes(self.dtype, self.d_in as int);
        proof {
            lemma_row_bounds(o as int, self.d_out as int, width);
            assert(self.raw.len() == self.raw@.len());
            assert(n * self.bytes == width);
            assert(n * self.elems == self.d_in) by (nonlinear_arith)
                requires
                    n == self.d_in / self.elems,
                    self.d_in % self.elems == 0,
                    self.elems > 0,
            ;
            assert(width >= 0) by (nonlinear_arith)
                requires
                    width == n * self.bytes,
            ;
            assert(width <= (o + 1) * width) by (nonlinear_arith)
                requires
                    width >= 0,
                    o >= 0,
            ;
        }
        let size: usize = n * self.bytes;
        let weights: &[u8] = block_slice(self.raw, o, size);
        let mut buf: Vec<u32> = vec![ZERO; self.elems];
        let mut acc: u32 = ZERO;
        let mut b: usize = 0;
        while b < n
            invariant
                b <= n,
                self.f.wf(),
                blocks_of(self.dtype) == Some((self.elems, self.bytes)),
                weights@.len() == n * self.bytes,
                a@.len() == n * self.elems,
                buf@.len() == self.elems,
                acc == blocks_dot(self.f, self.dtype, weights@, a@, b as nat),
            decreases n - b,
        {
            proof {
                lemma_row_bounds(b as int, n as int, self.bytes as int);
                lemma_row_bounds(b as int, n as int, self.elems as int);
            }
            let block: &[u8] = block_slice(weights, b, self.bytes);
            let part: &[u32] = row_slice(a, b, self.elems);
            let more: u32 = match self.dtype {
                GgmlType::Q8_0 => dot_block_q8_0(self.f, block, part),
                other => {
                    dequant_block(self.f, other, block, buf.as_mut_slice());
                    dot(self.f, part, buf.as_slice())
                },
            };
            acc = self.f.plus(acc, more);
            b = b + 1;
        }
        acc
    }
}

/// Multiplies activation rows with quantized weight rows, of any type that has a kernel. No weight
/// is decoded but the block at hand.
pub fn matmul_quant<F: Arithmetic>(f: &F, a: &Tensor, raw: &[u8], d_out: usize, d_in: usize, dtype: GgmlType) -> (r: Tensor)
    requires
        f.wf(),
        a.wf(),
        a.shape@.len() == 2,
        a.shape@[1] == d_in,
        a.shape@[0] * d_out <= usize::MAX,
        fused_fits(dtype, raw@, d_out as int, d_in as int),
    ensures
        r.is_matrix(a.shape@[0] as int, d_out as int),
        r.matrix() == fused_product(f, dtype, raw@, d_out as nat, d_in as int, a.matrix()),
{
    let (elems, bytes): (usize, usize) = match block_dequant(dtype) {
        Some(layout) => layout,
        None => (QK8_0, Q8_0_BLOCK_BYTES),
    };
    let kernel: BlockKernel<F> = BlockKernel { f, raw, d_out, d_in, dtype, elems, bytes };
    let r: Tensor = matmul_with(f, a, d_out, d_in, &kernel);
    proof {
        let x = a.matrix();
        let want = fused_product(f, dtype, raw@, d_out as nat, d_in as int, x);
        assert forall|s: int| 0 <= s < x.len() implies #[trigger] kernel_product(&kernel, x)[s] == want[s] by {
            assert(kernel_product(&kernel, x)[s] =~= want[s]);
        }
        assert(kernel_product(&kernel, x) =~= want);
    }
    r
}

/// Multiplies activation rows with Q8_0 weight rows.
pub fn matmul_q8_0<F: Arithmetic>(f: &F, a: &Tensor, raw: &[u8], d_out: usize, d_in: usize) -> (r: Tensor)
    requires
        f.wf(),
        a.wf(),
        a.shape@.len() == 2,
        a.shape@[1] == d_in,
        a.shape@[0] * d_out <= usize::MAX,
        fused_fits(GgmlType::Q8_0, raw@, d_out as int, d_in as int),
    ensures
        r.is_matrix(a.shape@[0] as int, d_out as int),
        r.matrix() == fused_product(f, GgmlType::Q8_0, raw@, d_out as nat, d_in as int, a.matrix()),
{
    matmul_quant(f, a, raw, d_out, d_in, GgmlType::Q8_0)
}

} // verus!
