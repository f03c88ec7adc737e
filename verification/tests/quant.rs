use furnace::error::FurnaceError;
use furnace::float::{Arithmetic, FloatOps};
use furnace::gguf::GgmlType;
use furnace::perf::Op;
use furnace::quant::{
    block_dequant, dequant_block_q4_k, dequant_block_q5_0, dequant_block_q6_k, dequantize, dequantize_q8_0, matmul_q8_0,
    matmul_quant, Q4_K_BLOCK_BYTES, Q5_0_BLOCK_BYTES, Q6_K_BLOCK_BYTES, QK5_0, QK_K,
};
use furnace::tensor::{matmul, Tensor};

fn bits(x: f32) -> u32 {
    x.to_bits()
}

fn number(x: u32) -> f32 {
    f32::from_bits(x)
}

fn bits_of(x: &[f32]) -> Vec<u32> {
    x.iter().map(|v| v.to_bits()).collect()
}

fn numbers_of(x: &[u32]) -> Vec<f32> {
    x.iter().map(|v| f32::from_bits(*v)).collect()
}

/// The arithmetic of the machine.
fn ops() -> impl Arithmetic {
    FloatOps {
        add: |a: u32, b: u32| bits(number(a) + number(b)),
        sub: |a: u32, b: u32| bits(number(a) - number(b)),
        mul: |a: u32, b: u32| bits(number(a) * number(b)),
        div: |a: u32, b: u32| bits(number(a) / number(b)),
        powf: |a: u32, b: u32| bits(number(a).powf(number(b))),
        exp: |a: u32| bits(number(a).exp()),
        sqrt: |a: u32| bits(number(a).sqrt()),
        sin: |a: u32| bits(number(a).sin()),
        cos: |a: u32| bits(number(a).cos()),
        from_usize: |n: usize| bits(n as f32),
        from_i32: |n: i32| bits(n as f32),
        from_half: |h: u16| bits(half::f16::from_bits(h).to_f32()),
        mark: |_: Op, _: bool| {},
    }
}

/// One Q8_0 block from a scale and 32 quants.
fn block(scale: f32, quants: [i8; 32]) -> Vec<u8> {
    let mut b = half::f16::from_f32(scale).to_le_bytes().to_vec();
    b.extend(quants.iter().map(|&q| q as u8));
    b
}

#[test]
fn one_block_with_negative_quants() {
    // scale 0.5 is exactly representable in half precision, quants -16..16,
    // so every output is exact: y[i] = 0.5 * (i - 16)
    let quants: [i8; 32] = std::array::from_fn(|i| i as i8 - 16);
    let raw = block(0.5, quants);
    let out = dequantize_q8_0(&ops(), &raw, 32).unwrap();
    for (i, &y) in numbers_of(&out).iter().enumerate() {
        assert_eq!(y, 0.5 * (i as f32 - 16.0), "element {}", i);
    }
}

#[test]
fn zero_scale_gives_exact_zeros() {
    let raw = block(0.0, [127; 32]);
    let out = dequantize_q8_0(&ops(), &raw, 32).unwrap();
    assert!(numbers_of(&out).iter().all(|&y| y == 0.0));
}

#[test]
fn two_blocks_use_their_own_scales() {
    let mut raw = block(1.0, [3; 32]);
    raw.extend(block(2.0, [3; 32]));
    let out = numbers_of(&dequantize_q8_0(&ops(), &raw, 64).unwrap());
    assert_eq!(out[0], 3.0);
    assert_eq!(out[32], 6.0);
}

#[test]
fn rejects_wrong_length() {
    let raw = block(1.0, [0; 32]);
    assert!(dequantize_q8_0(&ops(), &raw[..33], 32).is_err()); // truncated block
    assert!(dequantize_q8_0(&ops(), &raw, 64).is_err()); // count/bytes mismatch
    assert!(dequantize_q8_0(&ops(), &raw, 31).is_err()); // not a multiple of 32
}

#[test]
fn fused_q8_matmul_matches_dequant_reference() {
    // weight: 3 output rows x 64 inputs = 2 blocks per row, varied scales and
    // signed quants; the fused kernel has to agree with dequantize-then-matmul
    // to rounding
    let mut raw = Vec::new();
    for o in 0..3i32 {
        for b in 0..2i32 {
            let quants: [i8; 32] = std::array::from_fn(|j| ((j as i32 * 7 + o * 13 + b * 5) % 255 - 127) as i8);
            raw.extend(block(0.5 + o as f32 * 0.25, quants));
        }
    }
    let data: Vec<f32> = (0..2 * 64).map(|i| ((i as f32) * 0.31).sin()).collect();
    let x = Tensor::from_vec(bits_of(&data), vec![2, 64]);

    let weights = dequantize_q8_0(&ops(), &raw, 3 * 64).unwrap();
    let w = Tensor::from_vec(weights, vec![3, 64]);
    let reference = matmul(&ops(), &x, &w);
    let fused = matmul_q8_0(&ops(), &x, &raw, 3, 64);

    assert_eq!(fused.shape, reference.shape);
    for (f, r) in numbers_of(&fused.data).iter().zip(&numbers_of(&reference.data)) {
        assert!((f - r).abs() < 1e-4, "fused {} vs reference {}", f, r);
    }
}

#[test]
fn q4_k_block_hand_computed() {
    // d = 1.0 (half 0x3C00), dmin = 0.5 (half 0x3800)
    // sub-block 0: sc=3 (scales[0]), m=2 (scales[4])
    // sub-block 1: sc=5 (scales[1]), m=1 (scales[5])
    // sub-block 4: split encoding, low 4 bits in scales[8]=7, high bits 0
    // qs[0] = 0x51: elem 0 gets low nibble 1, elem 32 gets high nibble 5
    // qs[64] = 0x04: elem 128 (sub-block 4) gets low nibble 4
    let mut block = vec![0u8; Q4_K_BLOCK_BYTES];
    block[0..2].copy_from_slice(&[0x00, 0x3C]);
    block[2..4].copy_from_slice(&[0x00, 0x38]);
    block[4] = 3; // scales[0]: sc for sub-block 0
    block[8] = 2; // scales[4]: m for sub-block 0
    block[5] = 5; // scales[1]: sc for sub-block 1
    block[9] = 1; // scales[5]: m for sub-block 1
    block[12] = 7; // scales[8]: low 4 bits of sc for sub-block 4
    block[16] = 0x51; // qs[0]
    block[16 + 64] = 0x04; // qs[64]
    let mut out = [0u32; QK_K];
    dequant_block_q4_k(&ops(), &block, &mut out);
    // y[0]   = 1.0*3*1 - 0.5*2 = 2.0
    assert_eq!(number(out[0]), 2.0);
    // y[32]  = 1.0*5*5 - 0.5*1 = 24.5
    assert_eq!(number(out[32]), 24.5);
    // y[128] = 1.0*7*4 - 0.5*0 = 28.0
    assert_eq!(number(out[128]), 28.0);
    // an untouched element in sub-block 0: q=0 -> y = 0 - dmin*m0 = -1.0
    assert_eq!(number(out[1]), -1.0);
}

#[test]
fn q6_k_block_hand_computed() {
    // d = 0.5 (half 0x3800) at bytes 208..210; signed sub-scales at
    // 192..208: sc[0]=2, sc[2]=1, sc[4]=3, sc[6]=-1
    // ql[0] = 0x21 (low nibble 1 -> q1, high nibble 2 -> q3), ql[32]=0
    // qh[0] = 0xC4: q1 high bits 0, q2 high bits 1, q3 0, q4 3
    let mut block = vec![0u8; Q6_K_BLOCK_BYTES];
    block[208..210].copy_from_slice(&[0x00, 0x38]);
    block[192] = 2;
    block[194] = 1;
    block[196] = 3;
    block[198] = (-1i8) as u8;
    block[0] = 0x21;
    block[128] = 0xC4;
    let mut out = [0u32; QK_K];
    dequant_block_q6_k(&ops(), &block, &mut out);
    // q1 = (1 | 0<<4) - 32 = -31   y[0]  = 0.5 * 2 * -31 = -31
    assert_eq!(number(out[0]), -31.0);
    // q2 = (0 | 1<<4) - 32 = -16   y[32] = 0.5 * 1 * -16 = -8
    assert_eq!(number(out[32]), -8.0);
    // q3 = (2 | 0<<4) - 32 = -30   y[64] = 0.5 * 3 * -30 = -45
    assert_eq!(number(out[64]), -45.0);
    // q4 = (0 | 3<<4) - 32 = 16    y[96] = 0.5 * -1 * 16 = -8
    assert_eq!(number(out[96]), -8.0);
}

#[test]
fn q5_0_block_hand_computed() {
    // d = 0.5; qs[0] = 0x51: elem 0 low nibble 1, elem 16 high nibble 5;
    // qh bit 0 set -> elem 0 gets its fifth bit, elem 16 does not
    let mut block = vec![0u8; Q5_0_BLOCK_BYTES];
    block[0..2].copy_from_slice(&[0x00, 0x38]);
    block[2] = 0b0000_0001; // qh low byte
    block[6] = 0x51; // first quant byte
    let mut out = [0u32; QK5_0];
    dequant_block_q5_0(&ops(), &block, &mut out);
    // elem 0:  q = (1 | 16) - 16 = 1   -> 0.5
    assert_eq!(number(out[0]), 0.5);
    // elem 16: q = 5 - 16 = -11        -> -5.5
    assert_eq!(number(out[16]), -5.5);
    // elem 1:  q = 0 - 16 = -16        -> -8.0
    assert_eq!(number(out[1]), -8.0);
}

#[test]
fn fused_k_matmul_matches_dequant_reference() {
    // two Q4_K rows of one superblock each, pseudo-random bytes; the fused
    // kernel has to agree with dequantize-then-matmul
    let raw: Vec<u8> = (0..2 * Q4_K_BLOCK_BYTES).map(|i| ((i * 37 + 11) % 251) as u8).collect();
    let data: Vec<f32> = (0..3 * QK_K).map(|i| ((i as f32) * 0.17).sin()).collect();
    let x = Tensor::from_vec(bits_of(&data), vec![3, QK_K]);
    let w = Tensor::from_vec(dequantize(&ops(), GgmlType::Q4K, &raw, 2 * QK_K).unwrap(), vec![2, QK_K]);
    let reference = matmul(&ops(), &x, &w);
    let fused = matmul_quant(&ops(), &x, &raw, 2, QK_K, GgmlType::Q4K);
    assert_eq!(fused.shape, reference.shape);
    for (f, r) in numbers_of(&fused.data).iter().zip(&numbers_of(&reference.data)) {
        assert!((f - r).abs() <= 1e-3 * r.abs().max(1.0), "fused {} vs ref {}", f, r);
    }
}

#[test]
fn f32_passthrough_reads_le() {
    let mut raw = Vec::new();
    for v in [1.5f32, -2.25, 0.0] {
        raw.extend_from_slice(&v.to_le_bytes());
    }
    let out = dequantize(&ops(), GgmlType::F32, &raw, 3).unwrap();
    assert_eq!(numbers_of(&out), vec![1.5, -2.25, 0.0]);
}

#[test]
fn single_row_products_equal_the_decoded_row() {
    // one block per row: fused and decoded products add in the same order
    for (dtype, elems, bytes) in [(GgmlType::Q5_0, 32, 22), (GgmlType::Q4K, 256, 144), (GgmlType::Q6K, 256, 210)] {
        let mut raw: Vec<u8> = (0..2 * bytes).map(|i| ((i * 29 + 5) % 253) as u8).collect();
        if dtype == GgmlType::Q6K {
            for row in 0..2 {
                raw[row * bytes + 209] = 0x30;
            }
        } else {
            for row in 0..2 {
                raw[row * bytes + 1] = 0x30;
            }
        }
        if dtype == GgmlType::Q4K {
            for row in 0..2 {
                raw[row * bytes + 3] = 0x2C;
            }
        }
        let data: Vec<f32> = (0..elems).map(|i| ((i as f32) * 0.3).cos()).collect();
        let x = Tensor::from_vec(bits_of(&data), vec![1, elems]);
        let w = Tensor::from_vec(dequantize(&ops(), dtype, &raw, 2 * elems).unwrap(), vec![2, elems]);
        assert_eq!(matmul_quant(&ops(), &x, &raw, 2, elems, dtype).data, matmul(&ops(), &x, &w).data);
    }
}

#[test]
fn split_scales_of_q4_k() {
    // sub-block 5: scale 0b11_0101 = low 4 bits in byte 9, high 2 in the top of byte 1;
    // minimum 0b10_0011 = high nibble of byte 9, high 2 in the top of byte 5
    let mut block = vec![0u8; Q4_K_BLOCK_BYTES];
    block[1] = 0x3C;
    block[3] = 0x3C;
    block[4 + 9] = 0x35;
    block[4 + 1] = 0b1100_0000;
    block[4 + 5] = 0b1000_0000;
    block[16 + 64] = 0x20; // elem 160 is the high nibble of qs[64]
    let mut out = [0u32; QK_K];
    dequant_block_q4_k(&ops(), &block, &mut out);
    assert_eq!(number(out[160]), 53.0 * 2.0 - 35.0);
}

#[test]
fn unsupported_and_misfitting_data_are_told_apart() {
    assert_eq!(dequantize(&ops(), GgmlType::F16, &[0, 0], 1), Err(FurnaceError::NotDecoded(GgmlType::F16)));
    assert_eq!(dequantize(&ops(), GgmlType::F32, &[0; 5], 1), Err(FurnaceError::WrongLength { dtype: GgmlType::F32, bytes: 5, blocks: 1, block_bytes: 4 }));
    assert_eq!(
        dequantize(&ops(), GgmlType::Q4K, &[0; 144], 255),
        Err(FurnaceError::PartialBlock { dtype: GgmlType::Q4K, elements: 255, block: 256 })
    );
    assert_eq!(
        dequantize(&ops(), GgmlType::Q6K, &[0; 209], 256),
        Err(FurnaceError::WrongLength { dtype: GgmlType::Q6K, bytes: 209, blocks: 1, block_bytes: 210 })
    );
    assert_eq!(block_dequant(GgmlType::Q8_0), None);
    assert_eq!(block_dequant(GgmlType::Q6K), Some((256, 210)));
}

#[test]
fn fused_product_uses_the_decoded_numbers() {
    // one block in a row: block by block is all at once
    let mut raw: Vec<u8> = Vec::new();
    for row in 0..3u8 {
        raw.extend_from_slice(&half::f16::from_f32(0.03 + row as f32).to_le_bytes());
        for i in 0..(Q5_0_BLOCK_BYTES - 2) as u8 {
            raw.push(i.wrapping_mul(37).wrapping_add(row));
        }
    }
    let decoded = dequantize(&ops(), GgmlType::Q5_0, &raw, 3 * QK5_0).ok().unwrap();
    let w = Tensor::from_vec(decoded, vec![3, QK5_0]);
    let x: Vec<f32> = (0..2 * QK5_0).map(|i| (i as f32 * 0.7).sin()).collect();
    let a = Tensor::from_vec(bits_of(&x), vec![2, QK5_0]);
    let fused = matmul_quant(&ops(), &a, &raw, 3, QK5_0, GgmlType::Q5_0);
    assert_eq!(fused.data, matmul(&ops(), &a, &w).data);
}

#[test]
fn fused_product_is_that_of_the_decoded_weights_where_sums_are_exact() {
    // scales that are powers of two, and activations that are small whole numbers: nothing is rounded,
    // so neither the order of additions nor the place of the scale matters
    let one = half::f16::from_f32(1.0).to_le_bytes();
    for (dtype, elems, bytes) in [
        (GgmlType::Q8_0, 32, 34),
        (GgmlType::Q5_0, 32, 22),
        (GgmlType::Q4K, 256, 144),
        (GgmlType::Q6K, 256, 210),
    ] {
        let inn = 2 * elems;
        let mut raw: Vec<u8> = (0..3 * 2 * bytes).map(|i| ((i * 31 + 7) % 251) as u8).collect();
        for block in raw.chunks_mut(bytes) {
            let at = if dtype == GgmlType::Q6K { bytes - 2 } else { 0 };
            block[at..at + 2].copy_from_slice(&one);
            if dtype == GgmlType::Q4K {
                block[2..4].copy_from_slice(&one);
            }
        }
        let data: Vec<f32> = (0..2 * inn).map(|i| (i % 5) as f32 - 2.0).collect();
        let x = Tensor::from_vec(bits_of(&data), vec![2, inn]);
        let w = Tensor::from_vec(dequantize(&ops(), dtype, &raw, 3 * inn).unwrap(), vec![3, inn]);
        let fused = matmul_quant(&ops(), &x, &raw, 3, inn, dtype);
        assert_eq!(numbers_of(&fused.data), numbers_of(&matmul(&ops(), &x, &w).data), "{:?}", dtype);
        assert!(numbers_of(&fused.data).iter().any(|&v| v != 0.0));
    }
}

#[test]
fn q8_scale_that_is_a_power_of_two_commutes_with_the_sum() {
    // one block in a row: scaling the sum is scaling its terms, bit for bit
    for scale in [0.5f32, 2.0, 0.0078125] {
        let quants: [i8; 32] = std::array::from_fn(|i| (i as i32 * 11 % 255 - 127) as i8);
        let raw = block(scale, quants);
        let data: Vec<f32> = (0..32).map(|i| ((i as f32) * 0.7).sin()).collect();
        let x = Tensor::from_vec(bits_of(&data), vec![1, 32]);
        let w = Tensor::from_vec(dequantize_q8_0(&ops(), &raw, 32).unwrap(), vec![1, 32]);
        assert_eq!(matmul_q8_0(&ops(), &x, &raw, 1, 32).data, matmul(&ops(), &x, &w).data);
    }
}
