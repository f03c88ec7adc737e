//! Quantized data give back what was written into them.
//!
//! Each law starts from the writer's side: which byte holds which quant and which scale.

use vstd::prelude::*;

use crate::float::{Arithmetic, ZERO};
use crate::gguf::GgmlType;
use crate::quant::{block_dot, blocks_dot, decoded_blocks, dequantized, elements, fused_product, half_bits, lemma_decoded_block, lemma_decoded_len, pattern_at, q4_k_minimum, q4_k_quant, q4_k_scale, q6_k_quant, q8_0_numbers};
use crate::tensor::{dot_product, lanes, total};

verus! {

/// The byte that a signed number between -128 and 127 is written as.
pub open spec fn signed_byte(q: int) -> int {
    if q < 0 {
        q + 256
    } else {
        q
    }
}

/// A signed number is read back from its byte.
proof fn lemma_signed_byte(b: u8, q: int)
    requires
        -128 <= q < 128,
        b == signed_byte(q),
    ensures
        ((b as i8) as i32) == q,
{
    assert(b < 128 ==> (b as i8) == b) by (bit_vector);
    assert(b >= 128 ==> (b as i8) == b - 256) by (bit_vector);
}

/// Bits are read back from the byte that they were written into.
proof fn lemma_bits_of(b: u8, b0: u8, b1: u8, b2: u8, b3: u8, b4: u8, b5: u8, b6: u8, b7: u8)
    by (bit_vector)
    requires
        b0 <= 1,
        b1 <= 1,
        b2 <= 1,
        b3 <= 1,
        b4 <= 1,
        b5 <= 1,
        b6 <= 1,
        b7 <= 1,
        b == b0 + 2 * b1 + 4 * b2 + 8 * b3 + 16 * b4 + 32 * b5 + 64 * b6 + 128 * b7,
    ensures
        (b >> 0u8) & 1 == b0,
        (b >> 1u8) & 1 == b1,
        (b >> 2u8) & 1 == b2,
        (b >> 3u8) & 1 == b3,
        (b >> 4u8) & 1 == b4,
        (b >> 5u8) & 1 == b5,
        (b >> 6u8) & 1 == b6,
        (b >> 7u8) & 1 == b7,
{
}

/// Whether a half-precision pattern stands at this place of a block, its low byte first.
pub open spec fn holds_half(block: Seq<u8>, at: int, d: u16) -> bool {
    block[at] == d % 256 && block[at + 1] == d / 256
}

/// A half-precision pattern is read back.
proof fn lemma_half(block: Seq<u8>, at: int, d: u16)
    requires
        holds_half(block, at, d),
    ensures
        half_bits(block[at], block[at + 1]) == d,
{
}

/// A Q8_0 block that was written with the scale `d` and 32 signed quants, a byte each behind the
/// scale, decodes to the scale times each quant.
pub proof fn lemma_q8_0<F: Arithmetic>(f: &F, block: Seq<u8>, d: u16, quants: Seq<int>)
    requires
        holds_half(block, 0, d),
        quants.len() == 32,
        forall|i: int| 0 <= i < 32 ==> -128 <= #[trigger] quants[i] < 128 && block[2 + i] == signed_byte(quants[i]),
    ensures
        elements(f, GgmlType::Q8_0, block, 32) == Seq::new(32, |i: int| f.product(f.widened(d), f.integer(quants[i] as i32))),
{
    lemma_half(block, 0, d);
    let got = elements(f, GgmlType::Q8_0, block, 32);
    let want = Seq::new(32, |i: int| f.product(f.widened(d), f.integer(quants[i] as i32)));
    assert forall|i: int| 0 <= i < 32 implies #[trigger] got[i] == want[i] by {
        assert(-128 <= quants[i] < 128);
        lemma_signed_byte(block[2 + i], quants[i]);
    }
    assert(got =~= want);
}

/// A Q5_0 block that was written with the scale `d` and 32 quants of five bits, decodes to the scale
/// times each quant less 16. The fifth bits lie in four bytes behind the scale, the lowest bit first;
/// quant `j` and quant `16 + j` share byte `j` of the sixteen behind, the first in the low nibble.
pub proof fn lemma_q5_0<F: Arithmetic>(f: &F, block: Seq<u8>, d: u16, low: Seq<u8>, fifth: Seq<u8>)
    requires
        holds_half(block, 0, d),
        low.len() == 32,
        fifth.len() == 32,
        forall|i: int| 0 <= i < 32 ==> #[trigger] low[i] < 16,
        forall|i: int| 0 <= i < 32 ==> #[trigger] fifth[i] <= 1,
        forall|m: int|
            0 <= m < 4 ==> #[trigger] block[2 + m] == fifth[8 * m] + 2 * fifth[8 * m + 1] + 4 * fifth[8 * m + 2] + 8 * fifth[8 * m + 3] + 16
                * fifth[8 * m + 4] + 32 * fifth[8 * m + 5] + 64 * fifth[8 * m + 6] + 128 * fifth[8 * m + 7],
        forall|j: int| 0 <= j < 16 ==> #[trigger] block[6 + j] == low[j] + 16 * low[16 + j],
    ensures
        elements(f, GgmlType::Q5_0, block, 32) == Seq::new(
            32,
            |i: int| f.product(f.widened(d), f.integer((low[i] + 16 * fifth[i] - 16) as i32)),
        ),
{
    lemma_half(block, 0, d);
    let got = elements(f, GgmlType::Q5_0, block, 32);
    let want = Seq::new(32, |i: int| f.product(f.widened(d), f.integer((low[i] + 16 * fifth[i] - 16) as i32)));
    assert forall|i: int| 0 <= i < 32 implies #[trigger] got[i] == want[i] by {
        let m = i / 8;
        let t = i % 8;
        assert(0 <= m < 4 && i == 8 * m + t);
        assert(block[2 + m] == fifth[8 * m] + 2 * fifth[8 * m + 1] + 4 * fifth[8 * m + 2] + 8 * fifth[8 * m + 3] + 16 * fifth[8 * m + 4] + 32
            * fifth[8 * m + 5] + 64 * fifth[8 * m + 6] + 128 * fifth[8 * m + 7]);
        lemma_bits_of(
            block[2 + m],
            fifth[8 * m],
            fifth[8 * m + 1],
            fifth[8 * m + 2],
            fifth[8 * m + 3],
            fifth[8 * m + 4],
            fifth[8 * m + 5],
            fifth[8 * m + 6],
            fifth[8 * m + 7],
        );
        assert(((block[2 + m] >> (t as u8)) & 1u8) == fifth[i]);
        if i < 16 {
            assert(block[6 + i] == low[i] + 16 * low[16 + i]);
            assert(low[i] < 16 && low[16 + i] < 16);
        } else {
            assert(block[6 + (i - 16)] == low[i - 16] + 16 * low[i]);
            assert(low[i] < 16 && low[i - 16] < 16);
        }
    }
    assert(got =~= want);
}

/// The scales and minimums of six bits are read back.
proof fn lemma_q4_k_scales(packed: Seq<u8>, j: int, scales: Seq<u8>, minimums: Seq<u8>)
    requires
        0 <= j < 8,
        ({
            let k = if j < 4 {
                j
            } else {
                j - 4
            };
            &&& scales[k] < 64 && minimums[k] < 64 && scales[4 + k] < 64 && minimums[4 + k] < 64
            &&& packed[k] == scales[k] + 64 * (scales[4 + k] / 16)
            &&& packed[k + 4] == minimums[k] + 64 * (minimums[4 + k] / 16)
            &&& packed[k + 8] == scales[4 + k] % 16 + 16 * (minimums[4 + k] % 16)
        }),
    ensures
        q4_k_scale(packed, j) == scales[j],
        q4_k_minimum(packed, j) == minimums[j],
{
}

/// The quants of four bits are read back.
proof fn lemma_q4_k_quant(block: Seq<u8>, j: int, l: int, quants: Seq<u8>)
    requires
        0 <= j < 8,
        0 <= l < 32,
        ({
            let g = j / 2;
            &&& quants[64 * g + l] < 16 && quants[64 * g + 32 + l] < 16
            &&& block[16 + 32 * g + l] == quants[64 * g + l] + 16 * quants[64 * g + 32 + l]
        }),
    ensures
        q4_k_quant(block, 32 * j + l) == quants[32 * j + l],
{
    let i = 32 * j + l;
    let g = j / 2;
    assert(i / 64 == g && i % 32 == l);
    assert(j == 2 * g || j == 2 * g + 1);
}

/// A Q4_K superblock that was written with the two scales `d` and `dmin`, a scale and a minimum of six
/// bits for each of its eight sub-blocks, and 256 quants of four bits, decodes to `d` times its scale
/// times the quant, less `dmin` times its minimum, in each sub-block of 32.
///
/// Of the twelve bytes behind the two scales, the first four hold the first scales and, on top, the
/// high bits of the last scales; the next four do so for the minimums; the last four hold the low
/// bits of the last scales and, on top, of the last minimums. Sub-blocks `2 * g` and `2 * g + 1` share
/// 32 bytes, the first in the low nibbles.
pub proof fn lemma_q4_k<F: Arithmetic>(f: &F, block: Seq<u8>, d: u16, dmin: u16, scales: Seq<u8>, minimums: Seq<u8>, quants: Seq<u8>)
    requires
        block.len() >= 144,
        holds_half(block, 0, d),
        holds_half(block, 2, dmin),
        scales.len() == 8,
        minimums.len() == 8,
        quants.len() == 256,
        forall|j: int| 0 <= j < 8 ==> #[trigger] scales[j] < 64,
        forall|j: int| 0 <= j < 8 ==> #[trigger] minimums[j] < 64,
        forall|i: int| 0 <= i < 256 ==> #[trigger] quants[i] < 16,
        forall|j: int|
            #![trigger scales[j]]
            0 <= j < 4 ==> {
                &&& block[4 + j] == scales[j] + 64 * (scales[4 + j] / 16)
                &&& block[8 + j] == minimums[j] + 64 * (minimums[4 + j] / 16)
                &&& block[12 + j] == scales[4 + j] % 16 + 16 * (minimums[4 + j] % 16)
            },
        forall|g: int, l: int|
            #![trigger quants[64 * g + l]]
            0 <= g < 4 && 0 <= l < 32 ==> block[16 + 32 * g + l] == quants[64 * g + l] + 16 * quants[64 * g + 32 + l],
    ensures
        forall|j: int, l: int|
            0 <= j < 8 && 0 <= l < 32 ==> #[trigger] elements(f, GgmlType::Q4K, block, 256)[32 * j + l] == f.difference(
                f.product(f.product(f.widened(d), f.integer(scales[j] as i32)), f.integer(quants[32 * j + l] as i32)),
                f.product(f.widened(dmin), f.integer(minimums[j] as i32)),
            ),
{
    lemma_half(block, 0, d);
    lemma_half(block, 2, dmin);
    assert forall|j: int, l: int| 0 <= j < 8 && 0 <= l < 32 implies #[trigger] elements(f, GgmlType::Q4K, block, 256)[32 * j + l] == f.difference(
        f.product(f.product(f.widened(d), f.integer(scales[j] as i32)), f.integer(quants[32 * j + l] as i32)),
        f.product(f.widened(dmin), f.integer(minimums[j] as i32)),
    ) by {
        let i = 32 * j + l;
        let g = j / 2;
        assert(i / 32 == j && i % 32 == l && i / 64 == g);
        assert(quants[64 * g + l] < 16 && quants[64 * g + 32 + l] < 16);
        assert(block[16 + 32 * g + l] == quants[64 * g + l] + 16 * quants[64 * g + 32 + l]);
        let packed = block.subrange(4, 16);
        let k = if j < 4 {
            j
        } else {
            j - 4
        };
        assert(scales[k] < 64 && minimums[k] < 64);
        assert(scales[4 + k] < 64 && minimums[4 + k] < 64);
        lemma_q4_k_scales(packed, j, scales, minimums);
        lemma_q4_k_quant(block, j, l, quants);
    }
}

/// Nibbles are read back from their byte.
proof fn lemma_nibbles(b: int, low: int, high: int)
    requires
        0 <= low < 16,
        0 <= high < 16,
        b == low + 16 * high,
    ensures
        b % 16 == low,
        b / 16 == high,
{
}

/// Pairs of bits are read back from their byte.
proof fn lemma_pairs(b: int, p: int, q: int, r: int, s: int)
    requires
        0 <= p < 4,
        0 <= q < 4,
        0 <= r < 4,
        0 <= s < 4,
        b == p + 4 * q + 16 * r + 64 * s,
    ensures
        b % 4 == p,
        (b / 4) % 4 == q,
        (b / 16) % 4 == r,
        b / 64 == s,
{
    assert(b / 4 == q + 4 * r + 16 * s);
    assert(b / 16 == r + 4 * s);
}

/// The quants that share their bytes are read back.
proof fn lemma_q6_k_parts(block: Seq<u8>, h: int, part: int, l: int, low: Seq<u8>, high: Seq<u8>)
    requires
        0 <= h < 2,
        0 <= part < 4,
        0 <= l < 32,
        low.len() == 4,
        high.len() == 4,
        low[0] < 16 && low[1] < 16 && low[2] < 16 && low[3] < 16,
        high[0] < 4 && high[1] < 4 && high[2] < 4 && high[3] < 4,
        block[64 * h + l] == low[0] + 16 * low[2],
        block[64 * h + 32 + l] == low[1] + 16 * low[3],
        block[128 + 32 * h + l] == high[0] + 4 * high[1] + 16 * high[2] + 64 * high[3],
    ensures
        q6_k_quant(block, 128 * h + 32 * part + l) == low[part] + 16 * high[part] - 32,
{
    let i = 128 * h + 32 * part + l;
    assert(i / 128 == h);
    assert(i % 128 == 32 * part + l);
    assert((i % 128) / 32 == part);
    assert(i % 32 == l);
    lemma_nibbles(block[64 * h + l] as int, low[0] as int, low[2] as int);
    lemma_nibbles(block[64 * h + 32 + l] as int, low[1] as int, low[3] as int);
    lemma_pairs(block[128 + 32 * h + l] as int, high[0] as int, high[1] as int, high[2] as int, high[3] as int);
    assert(part == 0 || part == 1 || part == 2 || part == 3);
}

/// A Q6_K superblock that was written with the scale `d`, a signed scale for each of its sixteen
/// sub-blocks, and 256 quants of six bits, decodes to `d` times its scale times the quant less 32, in
/// each sub-block of 16.
///
/// Each half of 128 quants has four parts of 32. Their low four bits share 64 bytes, the first two
/// parts in the low nibbles; their high two bits share 32 bytes, the first part lowest. The scales
/// are the bytes from 192 on, one for each sub-block.
pub proof fn lemma_q6_k<F: Arithmetic>(f: &F, block: Seq<u8>, d: u16, scales: Seq<int>, low: Seq<u8>, high: Seq<u8>)
    requires
        holds_half(block, 208, d),
        scales.len() == 16,
        low.len() == 256,
        high.len() == 256,
        forall|j: int| 0 <= j < 16 ==> -128 <= #[trigger] scales[j] < 128 && block[192 + j] == signed_byte(scales[j]),
        forall|i: int| 0 <= i < 256 ==> #[trigger] low[i] < 16,
        forall|i: int| 0 <= i < 256 ==> #[trigger] high[i] < 4,
        forall|h: int, l: int|
            #![trigger low[128 * h + l]]
            0 <= h < 2 && 0 <= l < 32 ==> {
                &&& block[64 * h + l] == low[128 * h + l] + 16 * low[128 * h + 64 + l]
                &&& block[64 * h + 32 + l] == low[128 * h + 32 + l] + 16 * low[128 * h + 96 + l]
                &&& block[128 + 32 * h + l] == high[128 * h + l] + 4 * high[128 * h + 32 + l] + 16 * high[128 * h + 64 + l] + 64 * high[128 * h + 96
                    + l]
            },
    ensures
        forall|j: int, k: int|
            0 <= j < 16 && 0 <= k < 16 ==> #[trigger] elements(f, GgmlType::Q6K, block, 256)[16 * j + k] == f.product(
                f.product(f.widened(d), f.integer(scales[j] as i32)),
                f.integer((low[16 * j + k] + 16 * high[16 * j + k] - 32) as i32),
            ),
{
    lemma_half(block, 208, d);
    assert forall|j: int, k: int| 0 <= j < 16 && 0 <= k < 16 implies #[trigger] elements(f, GgmlType::Q6K, block, 256)[16 * j + k] == f.product(
        f.product(f.widened(d), f.integer(scales[j] as i32)),
        f.integer((low[16 * j + k] + 16 * high[16 * j + k] - 32) as i32),
    ) by {
        let i = 16 * j + k;
        assert(-128 <= scales[j] < 128);
        lemma_signed_byte(block[192 + j], scales[j]);
        assert(i / 16 == j);
        let h = i / 128;
        let part = (i % 128) / 32;
        let l = i % 32;
        let at = 128 * h + l;
        assert(i == 128 * h + 32 * part + l);
        assert(low[at] < 16 && low[at + 32] < 16 && low[at + 64] < 16 && low[at + 96] < 16);
        assert(high[at] < 4 && high[at + 32] < 4 && high[at + 64] < 4 && high[at + 96] < 4);
        assert(low[128 * h + l] < 16);
        let lows = seq![low[at], low[at + 32], low[at + 64], low[at + 96]];
        let highs = seq![high[at], high[at + 32], high[at + 64], high[at + 96]];
        lemma_q6_k_parts(block, h, part, l, lows, highs);
        assert(lows[part] == low[i] && highs[part] == high[i]);
    }
}

/// A byte with the scale of one sub-block of a Q6_K superblock is that sub-block's alone: two blocks
/// that differ there only decode to the same numbers elsewhere.
pub proof fn lemma_q6_k_scale_is_local<F: Arithmetic>(f: &F, a: Seq<u8>, b: Seq<u8>, j: int)
    requires
        a.len() == 210,
        b.len() == 210,
        0 <= j < 16,
        forall|n: int| 0 <= n < 210 && n != 192 + j ==> #[trigger] a[n] == b[n],
    ensures
        forall|i: int|
            0 <= i < 256 && !(16 * j <= i < 16 * j + 16) ==> #[trigger] elements(f, GgmlType::Q6K, a, 256)[i] == elements(f, GgmlType::Q6K, b, 256)[i],
{
    assert forall|i: int| 0 <= i < 256 && !(16 * j <= i < 16 * j + 16) implies #[trigger] elements(f, GgmlType::Q6K, a, 256)[i] == elements(
        f,
        GgmlType::Q6K,
        b,
        256,
    )[i] by {
        let h = i / 128;
        let part = (i % 128) / 32;
        let l = i % 32;
        assert(a[64 * h + 32 * (part % 2) + l] == b[64 * h + 32 * (part % 2) + l]);
        assert(a[128 + 32 * h + l] == b[128 + 32 * h + l]);
        assert(i / 16 != j);
        assert(a[192 + i / 16] == b[192 + i / 16]);
        assert(a[208] == b[208] && a[209] == b[209]);
    }
}

/// A number that was written at full precision, four bytes with the lowest first, is read back.
pub proof fn lemma_full_precision<F: Arithmetic>(f: &F, raw: Seq<u8>, numbers: Seq<u32>)
    requires
        numbers.len() <= usize::MAX,
        raw.len() == 4 * numbers.len(),
        forall|i: int|
            #![trigger numbers[i]]
            0 <= i < numbers.len() ==> {
                &&& raw[4 * i] == numbers[i] as int % 256
                &&& raw[4 * i + 1] == numbers[i] as int / 256 % 256
                &&& raw[4 * i + 2] == numbers[i] as int / 65536 % 256
                &&& raw[4 * i + 3] == numbers[i] as int / 16777216
            },
    ensures
        dequantized(f, GgmlType::F32, raw, numbers.len() as usize) matches Ok(v) && v == numbers,
{
    let n = numbers.len();
    let got = Seq::new(n, |i: int| pattern_at(raw, i));
    assert forall|i: int| 0 <= i < n implies #[trigger] got[i] == numbers[i] by {
        let x = numbers[i] as int;
        assert(x == x % 256 + 256 * (x / 256 % 256) + 65536 * (x / 65536 % 256) + 16777216 * (x / 16777216));
    }
    assert(got =~= numbers);
    assert(raw.len() == n * 4);
}

/// How many numbers and bytes a block has, and that data of `n` blocks decode block by block: number
/// `i` of block `b` is number `i` of what the bytes of block `b` decode to.
pub proof fn lemma_block_by_block<F: Arithmetic>(f: &F, dtype: GgmlType, raw: Seq<u8>, n: nat, b: int, i: int)
    requires
        0 <= b < n,
        dtype == GgmlType::Q8_0 || dtype == GgmlType::Q5_0 || dtype == GgmlType::Q4K || dtype == GgmlType::Q6K,
        ({
            let (elems, bytes) = block_sizes(dtype);
            &&& 0 <= i < elems
            &&& n * elems <= usize::MAX
            &&& raw.len() == n * bytes
        }),
    ensures
        ({
            let (elems, bytes) = block_sizes(dtype);
            &&& dequantized(f, dtype, raw, (n * elems) as usize) matches Ok(v)
            &&& v.len() == n * elems
            &&& v[b * elems + i] == elements(f, dtype, raw.subrange(b * bytes, b * bytes + bytes), elems as nat)[i]
        }),
{
    let (elems, bytes) = block_sizes(dtype);
    assert((n * elems) % elems == 0 && (n * elems) / elems == n) by (nonlinear_arith)
        requires
            elems > 0,
    ;
    assert((b + 1) * elems == b * elems + elems && (b + 1) * bytes == b * bytes + bytes) by (nonlinear_arith);
    assert(b * elems + elems <= n * elems && b * elems >= 0) by (nonlinear_arith)
        requires
            0 <= b < n,
            elems > 0,
    ;
    lemma_decoded_block(f, dtype, raw, n, b);
    lemma_decoded_len(f, dtype, raw, n);
    let v = decoded_blocks(f, dtype, raw, n);
    assert(v.subrange(b * elems, (b + 1) * elems)[i] == v[b * elems + i]);
}

/// Numbers and bytes per block.
pub open spec fn block_sizes(dtype: GgmlType) -> (int, int) {
    if dtype == GgmlType::Q8_0 {
        (32, 34)
    } else if dtype == GgmlType::Q5_0 {
        (32, 22)
    } else if dtype == GgmlType::Q4K {
        (256, 144)
    } else {
        (256, 210)
    }
}

/// A number of a product with weights in blocks adds up the blocks of one weight row: row `o` is the
/// stretch of its bytes behind those of the rows before it, and each block meets its own part of the
/// activations. A block of eight-bit quants adds its scale times the dot product with the quants, any
/// other the dot product with its decoded numbers.
pub proof fn lemma_fused_row<F: Arithmetic>(f: &F, dtype: GgmlType, raw: Seq<u8>, out: nat, blocks: nat, x: Seq<Seq<u32>>, s: int, o: int)
    requires
        dtype == GgmlType::Q8_0 || dtype == GgmlType::Q5_0 || dtype == GgmlType::Q4K || dtype == GgmlType::Q6K,
        0 <= s < x.len(),
        0 <= o < out,
    ensures
        ({
            let (elems, bytes) = block_sizes(dtype);
            let row = raw.subrange(o * (blocks * bytes), (o + 1) * (blocks * bytes));
            fused_product(f, dtype, raw, out, blocks * elems, x)[s][o] == blocks_dot(f, dtype, row, x[s], blocks)
        }),
        blocks_dot(f, dtype, raw, x[s], 0) == ZERO,
        ({
            let (elems, bytes) = block_sizes(dtype);
            let block = raw.subrange(blocks * bytes, blocks * bytes + bytes);
            let part = x[s].subrange(blocks * elems, blocks * elems + elems);
            blocks_dot(f, dtype, raw, x[s], blocks + 1) == f.sum(blocks_dot(f, dtype, raw, x[s], blocks), block_dot(f, dtype, block, part))
        }),
{
    let (elems, bytes) = block_sizes(dtype);
    let b = blocks as int;
    assert(b * elems / elems == b) by (nonlinear_arith)
        requires
            elems > 0,
    ;
    assert((b + 1) * bytes == b * bytes + bytes) by (nonlinear_arith);
    assert((b + 1) * elems == b * elems + elems) by (nonlinear_arith);
}

/// What one block adds to a product.
pub proof fn lemma_block_dot<F: Arithmetic>(f: &F, dtype: GgmlType, block: Seq<u8>, a: Seq<u32>)
    requires
        dtype == GgmlType::Q8_0 || dtype == GgmlType::Q5_0 || dtype == GgmlType::Q4K || dtype == GgmlType::Q6K,
        a.len() == block_sizes(dtype).0,
    ensures
        dtype != GgmlType::Q8_0 ==> block_dot(f, dtype, block, a) == dot_product(f, a, elements(f, dtype, block, a.len())),
        dtype == GgmlType::Q8_0 ==> block_dot(f, dtype, block, a) == f.product(
            f.widened((block[0] + 256 * block[1]) as u16),
            dot_product(f, a, Seq::new(32, |i: int| f.integer((block[2 + i] as i8) as i32))),
        ),
{
    if dtype == GgmlType::Q8_0 {
        let quants = Seq::new(32, |i: int| f.integer((block[2 + i] as i8) as i32));
        assert(q8_0_numbers(f, block) =~= quants);
        assert(dot_product(f, a, quants) == total(f, lanes(f, a, quants), 8));
    }
}

} // verus!
