use furnace::float::{Arithmetic, FloatOps};
use furnace::gguf::GgufFile;
use furnace::perf::Op;
use furnace::tensor::{dot, matmul, rmsnorm, silu, softmax, swiglu, Tensor};

fn bits(x: f32) -> u32 {
    x.to_bits()
}

fn number(x: u32) -> f32 {
    f32::from_bits(x)
}

fn bits_of(x: &[f32]) -> Vec<u32> {
    x.iter().map(|v| v.to_bits()).collect()
}

fn numbers_of(x: &[u32]) -> Vec<f32> {
    x.iter().map(|v| f32::from_bits(*v)).collect()
}

/// The arithmetic of the machine.
fn ops() -> impl Arithmetic {
    FloatOps {
        add: |a: u32, b: u32| bits(number(a) + number(b)),
        sub: |a: u32, b: u32| bits(number(a) - number(b)),
        mul: |a: u32, b: u32| bits(number(a) * number(b)),
        div: |a: u32, b: u32| bits(number(a) / number(b)),
        powf: |a: u32, b: u32| bits(number(a).powf(number(b))),
        exp: |a: u32| bits(number(a).exp()),
        sqrt: |a: u32| bits(number(a).sqrt()),
        sin: |a: u32| bits(number(a).sin()),
        cos: |a: u32| bits(number(a).cos()),
        from_usize: |n: usize| bits(n as f32),
        from_i32: |n: i32| bits(n as f32),
        from_half: |h: u16| bits(half::f16::from_bits(h).to_f32()),
        mark: |_: Op, _: bool| {},
    }
}

fn tensor(data: &[f32], shape: Vec<usize>) -> Tensor {
    Tensor::from_vec(bits_of(data), shape)
}

fn assert_close(got: &[f32], want: &[f32], tol: f32) {
    assert_eq!(got.len(), want.len());
    for (i, (&g, &w)) in got.iter().zip(want).enumerate() {
        assert!((g - w).abs() <= tol, "element {}: got {}, want {} (tol {})", i, g, w, tol);
    }
}

#[test]
fn matmul_hand_computed() {
    // A = [[1,2,3],   W = [[1,0,1],     C[s][o] = dot(A row s, W row o)
    //      [4,5,6]]        [0,1,0]]
    // C[0][0] = 1*1 + 2*0 + 3*1 = 4     C[0][1] = 1*0 + 2*1 + 3*0 = 2
    // C[1][0] = 4*1 + 5*0 + 6*1 = 10    C[1][1] = 4*0 + 5*1 + 6*0 = 5
    let a = tensor(&[1., 2., 3., 4., 5., 6.], vec![2, 3]);
    let w = tensor(&[1., 0., 1., 0., 1., 0.], vec![2, 3]);
    let c = matmul(&ops(), &a, &w);
    assert_eq!(c.shape, vec![2, 2]);
    assert_eq!(numbers_of(&c.data), vec![4., 2., 10., 5.]);
}

#[test]
fn rmsnorm_hand_computed() {
    // x = [3,4]: mean(x^2) = (9+16)/2 = 12.5, rms = sqrt(12.5) = 3.53553
    // y = [3/3.53553 * 2, 4/3.53553 * 0.5] = [1.69706, 0.56569]
    let x = tensor(&[3., 4.], vec![1, 2]);
    let w = tensor(&[2., 0.5], vec![2]);
    let y = rmsnorm(&ops(), &x, &w, bits(0.0));
    assert_close(&numbers_of(&y.data), &[1.69706, 0.56569], 1e-5);
}

#[test]
fn rmsnorm_zero_row_stays_finite() {
    // eps inside the sqrt: the denominator is sqrt(0 + eps), not 0
    let x = tensor(&[0., 0., 0.], vec![1, 3]);
    let w = tensor(&[1., 1., 1.], vec![3]);
    let y = rmsnorm(&ops(), &x, &w, bits(1e-5));
    assert!(numbers_of(&y.data).iter().all(|v| v.is_finite()));
    assert_eq!(numbers_of(&y.data), vec![0., 0., 0.]);
}

#[test]
fn softmax_hand_computed() {
    // row [0, ln 2]: exp = [1, 2], sum = 3 -> [1/3, 2/3]
    let mut x = tensor(&[0., 2f32.ln()], vec![1, 2]);
    softmax(&ops(), &mut x);
    assert_close(&numbers_of(&x.data), &[1.0 / 3.0, 2.0 / 3.0], 1e-6);
}

#[test]
fn softmax_survives_large_logits() {
    // exp(1001) overflows; max subtraction makes it exp(0) and exp(-1)
    let mut x = tensor(&[1000., 1001.], vec![1, 2]);
    softmax(&ops(), &mut x);
    let data = numbers_of(&x.data);
    assert!(data.iter().all(|v| v.is_finite()));
    let sum: f32 = data.iter().sum();
    assert!((sum - 1.0).abs() < 1e-6);
    assert!(data[1] > data[0]);
}

#[test]
fn silu_and_swiglu_known_points() {
    // silu(0) = 0, silu(1) = 1/(1+e^-1) = 0.731059, silu(-1) = -0.268941
    let x = tensor(&[0., 1., -1.], vec![3]);
    let y = silu(&ops(), &x);
    assert_close(&numbers_of(&y.data), &[0.0, 0.731059, -0.268941], 1e-5);

    // swiglu(gate=1, up=2) = silu(1) * 2 = 1.462117
    let gate = tensor(&[1.], vec![1]);
    let up = tensor(&[2.], vec![1]);
    assert_close(&numbers_of(&swiglu(&ops(), &gate, &up).data), &[1.462117], 1e-5);
}

#[test]
fn add_mul_elementwise() {
    let a = tensor(&[1., 2.], vec![2]);
    let b = tensor(&[10., 0.5], vec![2]);
    assert_eq!(numbers_of(&furnace::tensor::add(&ops(), &a, &b).data), vec![11., 2.5]);
    assert_eq!(numbers_of(&furnace::tensor::mul(&ops(), &a, &b).data), vec![10., 1.]);
}

fn string(b: &mut Vec<u8>, s: &str) {
    b.extend_from_slice(&(s.len() as u64).to_le_bytes());
    b.extend_from_slice(s.as_bytes());
}

#[test]
fn from_gguf_reverses_dims_to_row_major() {
    let mut b: Vec<u8> = b"GGUF".to_vec();
    b.extend_from_slice(&3u32.to_le_bytes());
    b.extend_from_slice(&1u64.to_le_bytes());
    b.extend_from_slice(&0u64.to_le_bytes());
    string(&mut b, "blk.0.ffn_gate.weight");
    b.extend_from_slice(&2u32.to_le_bytes());
    b.extend_from_slice(&896u64.to_le_bytes());
    b.extend_from_slice(&4864u64.to_le_bytes());
    b.extend_from_slice(&8u32.to_le_bytes());
    b.extend_from_slice(&0u64.to_le_bytes());
    while b.len() % 32 != 0 {
        b.push(0);
    }
    let start = b.len();
    b.resize(start + 896 * 4864 / 32 * 34, 0);
    // the first block of the second row: scale 1, first quant 7
    b[start + 28 * 34 + 1] = 0x3C;
    b[start + 28 * 34 + 2] = 7;
    let file = GgufFile::open(&b).ok().unwrap();
    let t = Tensor::from_gguf(&ops(), &file, "blk.0.ffn_gate.weight").ok().unwrap();
    // dims [896, 4864] in the file -> shape [4864, 896]
    assert_eq!(t.shape, vec![4864, 896]);
    assert_eq!(t.strides, vec![896, 1]);
    assert_eq!(t.numel(), 4864 * 896);
    assert_eq!(number(t.data[896]), 7.0);
    assert_eq!(number(t.data[897]), 0.0);
}

#[test]
fn dot_adds_in_eight_lanes() {
    // 2^24 + 1 is lost in one sum, but not where each lane has its own
    let mut a = vec![0.0f32; 16];
    a[0] = 16_777_216.0;
    a[1] = 1.0;
    a[9] = 1.0;
    let ones = vec![1.0f32; 16];
    let r = number(dot(&ops(), &bits_of(&a), &bits_of(&ones)));
    assert_eq!(r, 16_777_218.0);
    // what fills no group of eight is added one by one behind the lanes
    let x: Vec<f32> = (1..=11).map(|i| i as f32).collect();
    assert_eq!(number(dot(&ops(), &bits_of(&x), &bits_of(&x))), 506.0);
    assert_eq!(number(dot(&ops(), &[], &[])), 0.0);
}

#[test]
fn products_beyond_one_chunk_keep_their_places() {
    // 200 outputs: more than one piece of parallel work, the last one short
    let w: Vec<f32> = (0..200 * 3).map(|i| (i % 7) as f32).collect();
    let a = vec![1.0f32, 2.0, 3.0, -1.0, 0.5, 4.0];
    let c = matmul(&ops(), &tensor(&a, vec![2, 3]), &tensor(&w, vec![200, 3]));
    assert_eq!(c.shape, vec![2, 200]);
    for s in 0..2 {
        for o in 0..200 {
            let want: f32 = (0..3).map(|i| a[3 * s + i] * w[3 * o + i]).sum();
            assert_eq!(number(c.data[200 * s + o]), want);
        }
    }
}

#[test]
fn strides_are_row_major() {
    let t = Tensor::zeros(vec![2, 3, 4]);
    assert_eq!(t.strides, vec![12, 4, 1]);
    assert_eq!(t.data, vec![0; 24]);
    assert_eq!(Tensor::zeros(vec![]).numel(), 1);
}

#[test]
fn softmax_ignores_what_is_no_number_for_the_maximum() {
    let mut x = tensor(&[f32::NEG_INFINITY, 0.0, f32::NEG_INFINITY], vec![3]);
    softmax(&ops(), &mut x);
    assert_eq!(numbers_of(&x.data), vec![0.0, 1.0, 0.0]);
}

#[test]
fn softmax_keeps_the_order_and_stays_between_zero_and_one() {
    let row = [3.0f32, -2.0, 1000.0, 3.0, 1000.5, f32::NEG_INFINITY, -1e30, 999.0];
    let mut x = Tensor::from_vec(row.iter().map(|v| v.to_bits()).collect(), vec![1, row.len()]);
    softmax(&ops(), &mut x);
    let p: Vec<f32> = x.data.iter().map(|v| f32::from_bits(*v)).collect();
    for i in 0..row.len() {
        assert!(p[i].is_finite() && p[i] >= 0.0 && p[i] <= 1.0);
        for j in 0..row.len() {
            if row[i] <= row[j] {
                assert!(p[i] <= p[j]);
            }
        }
    }
    assert!(p[4] > 0.0);
    assert_eq!(p[0], p[3]);
}
