use furnace::float::{Arithmetic, FloatOps};
use furnace::perf::Op;
use furnace::sampler::{apply_repeat_penalty, draw, Pcg32, Sampler};

fn bits(x: f32) -> u32 {
    x.to_bits()
}

fn number(x: u32) -> f32 {
    f32::from_bits(x)
}

fn bits_of(x: &[f32]) -> Vec<u32> {
    x.iter().map(|v| v.to_bits()).collect()
}

fn numbers_of(x: &[u32]) -> Vec<f32> {
    x.iter().map(|v| f32::from_bits(*v)).collect()
}

/// The arithmetic of the machine.
fn ops() -> impl Arithmetic {
    FloatOps {
        add: |a: u32, b: u32| bits(number(a) + number(b)),
        sub: |a: u32, b: u32| bits(number(a) - number(b)),
        mul: |a: u32, b: u32| bits(number(a) * number(b)),
        div: |a: u32, b: u32| bits(number(a) / number(b)),
        powf: |a: u32, b: u32| bits(number(a).powf(number(b))),
        exp: |a: u32| bits(number(a).exp()),
        sqrt: |a: u32| bits(number(a).sqrt()),
        sin: |a: u32| bits(number(a).sin()),
        cos: |a: u32| bits(number(a).cos()),
        from_usize: |n: usize| bits(n as f32),
        from_i32: |n: i32| bits(n as f32),
        from_half: |h: u16| bits(half::f16::from_bits(h).to_f32()),
        mark: |_: Op, _: bool| {},
    }
}

fn sampler(temperature: f32, top_k: usize, top_p: f32) -> Sampler {
    Sampler::new(bits(temperature), top_k, bits(top_p), bits(1.0), 7)
}

fn filtered(s: &Sampler, logits: &[f32]) -> Vec<(u32, f32)> {
    s.filtered(&ops(), &bits_of(logits)).iter().map(|c| (c.0, number(c.1))).collect()
}

fn assert_close(got: f32, want: f32) {
    assert!((got - want).abs() < 1e-5, "got {}, want {}", got, want);
}

#[test]
fn temperature_reshapes_the_distribution() {
    // logits [0, ln 3]: at T=1 probs are [0.25, 0.75].
    // At T=0.5 gaps double, ratios square: [1:9] -> [0.1, 0.9].
    let logits = vec![0.0, 3.0f32.ln()];
    let c = filtered(&sampler(1.0, 0, 1.0), &logits);
    assert_eq!(c[0].0, 1);
    assert_close(c[0].1, 0.75);
    assert_close(c[1].1, 0.25);

    let c = filtered(&sampler(0.5, 0, 1.0), &logits);
    assert_close(c[0].1, 0.9);
    assert_close(c[1].1, 0.1);
}

#[test]
fn top_k_keeps_exactly_k() {
    let logits = vec![5.0, 1.0, 4.0, 2.0, 3.0];
    let c = filtered(&sampler(1.0, 2, 1.0), &logits);
    let ids: Vec<u32> = c.iter().map(|c| c.0).collect();
    assert_eq!(ids, vec![0, 2]); // the two largest, sorted desc
    assert_close(c.iter().map(|c| c.1).sum::<f32>(), 1.0);
}

#[test]
fn top_p_cuts_at_the_crossing_token() {
    // probs 0.5 / 0.3 / 0.15 / 0.05; p=0.8 -> cumulative hits 0.8 at the
    // second token, so exactly two survive, renormalized to 0.625/0.375
    let logits: Vec<f32> = [0.5f32, 0.3, 0.15, 0.05].iter().map(|p| p.ln()).collect();
    let c = filtered(&sampler(1.0, 0, 0.8), &logits);
    assert_eq!(c.len(), 2);
    assert_eq!((c[0].0, c[1].0), (0, 1));
    assert_close(c[0].1, 0.625);
    assert_close(c[1].1, 0.375);
}

#[test]
fn repeat_penalty_follows_llama_cpp_sign_convention() {
    let mut logits = bits_of(&[2.0, -2.0, 1.0]);
    // ids 0 and 1 are recent (id 0 twice: penalized once, not twice)
    apply_repeat_penalty(&ops(), &mut logits, &[0, 1, 0], bits(2.0));
    assert_eq!(number(logits[0]), 1.0); // positive: divided
    assert_eq!(number(logits[1]), -4.0); // negative: multiplied
    assert_eq!(number(logits[2]), 1.0); // not recent: untouched
}

#[test]
fn degenerate_filters_disable_cleanly() {
    // top_k=0 and top_p=1.0: full vocab survives, probs sum to 1
    let logits = vec![1.0, 0.5, 0.0, -0.5];
    let c = filtered(&sampler(1.0, 0, 1.0), &logits);
    assert_eq!(c.len(), 4);
    assert_close(c.iter().map(|c| c.1).sum::<f32>(), 1.0);
}

#[test]
fn temperature_zero_is_argmax_with_no_rng_draw() {
    let logits = bits_of(&[0.1, 3.0, 0.2]);
    let mut s = sampler(0.0, 40, 0.9);
    assert_eq!(s.sample(&ops(), &logits, &[]), 1);
    assert_eq!(s.draws(), 0);
    // top_k == 1 short-circuits too
    let mut s = sampler(0.7, 1, 0.9);
    assert_eq!(s.sample(&ops(), &logits, &[]), 1);
    assert_eq!(s.draws(), 0);
    // a real sampling call does draw
    let mut s = sampler(0.7, 40, 0.9);
    s.sample(&ops(), &logits, &[]);
    assert_eq!(s.draws(), 1);
}

#[test]
fn same_seed_same_stream_different_seed_different_stream() {
    // near-uniform logits so different streams almost surely diverge
    let logits: Vec<u32> = (0..100).map(|i| bits((i % 7) as f32 * 0.01)).collect();
    let run = |seed: u64| -> Vec<u32> {
        let mut s = Sampler::new(bits(1.0), 0, bits(1.0), bits(1.0), seed);
        (0..20).map(|_| s.sample(&ops(), &logits, &[])).collect()
    };
    assert_eq!(run(42), run(42));
    assert_ne!(run(42), run(43));
}

#[test]
fn greedy_leaves_the_sampler_as_it_was() {
    let logits = bits_of(&[0.1, 3.0, 3.0]);
    let before = sampler(0.0, 40, 0.9);
    let mut s = sampler(0.0, 40, 0.9);
    assert_eq!(s.sample(&ops(), &logits, &[1, 2]), 1);
    assert_eq!(s.rng, before.rng);
    // a penalty changes which token is the likeliest
    let mut s = Sampler::new(bits(0.0), 40, bits(0.9), bits(2.0), 7);
    assert_eq!(s.sample(&ops(), &logits, &[1]), 2);
    assert_eq!(s.rng, before.rng);
}

#[test]
fn candidates_are_the_likeliest_tokens_in_order() {
    let logits = vec![0.0, 2.0, -1.0, 2.0, 1.0, 0.5];
    let c = filtered(&sampler(1.0, 4, 1.0), &logits);
    let ids: Vec<u32> = c.iter().map(|c| c.0).collect();
    // of two equal ones the first is first
    assert_eq!(ids, vec![1, 3, 4, 5]);
    // as many as there are, where more are asked for
    assert_eq!(filtered(&sampler(1.0, 100, 1.0), &logits).len(), 6);
    // one at least, however small p is
    assert_eq!(filtered(&sampler(1.0, 0, 0.0), &logits).len(), 1);
}

#[test]
fn draw_falls_on_the_sum_that_exceeds() {
    let cand: Vec<(u32, u32)> = vec![(7, bits(0.5)), (3, bits(0.25)), (9, bits(0.25))];
    let at = |u: f32| draw(&ops(), &cand, bits(u));
    assert_eq!(at(0.0), 7);
    assert_eq!(at(0.499), 7);
    assert_eq!(at(0.5), 3);
    assert_eq!(at(0.75), 9);
    // above all sums: the last
    assert_eq!(at(1.0), 9);
}

#[test]
fn generator_is_pcg32() {
    let mut rng = Pcg32::new(42);
    let mut state: u64 = 0;
    let inc: u64 = (0xda3e_39cb_94b9_5bdbu64 << 1) | 1;
    let step = |s: u64| s.wrapping_mul(6_364_136_223_846_793_005).wrapping_add(inc);
    state = step(step(state).wrapping_add(42));
    for _ in 0..5 {
        let word = ((((state >> 18) ^ state) >> 27) as u32).rotate_right((state >> 59) as u32);
        state = step(state);
        assert_eq!(rng.next_u32(), word);
    }
    let mut a = Pcg32::new(1);
    let mut b = Pcg32::new(1);
    let word = a.next_u32();
    let unit = number(b.next_f32(&ops()));
    assert_eq!(unit, (word >> 8) as f32 / 16_777_216.0);
    assert!((0.0..1.0).contains(&unit));
    assert_eq!(a, b);
}

#[test]
fn check_tells_what_can_be_chosen() {
    let s = sampler(1.0, 0, 1.0);
    assert!(s.check(&ops(), &bits_of(&[1.0, 2.0]), &[]));
    // two logits cannot be compared when one is not a number
    assert!(!s.check(&ops(), &bits_of(&[1.0, f32::NAN]), &[]));
    // one logit needs no comparison
    assert!(s.check(&ops(), &bits_of(&[f32::NAN]), &[]));
    // a recent token without a logit cannot be penalized
    let p = Sampler::new(bits(1.0), 0, bits(1.0), bits(1.5), 7);
    assert!(!p.check(&ops(), &bits_of(&[1.0, 2.0]), &[2]));
    assert!(p.check(&ops(), &bits_of(&[1.0, 2.0]), &[1]));
    // without logits there is nothing to draw
    assert!(!s.check(&ops(), &[], &[]));
}

#[test]
fn each_call_draws_once_and_changes_no_setting() {
    let logits: Vec<u32> = (0..50).map(|i| bits((i % 7) as f32 * 0.01)).collect();
    let mut a = Sampler::new(bits(0.8), 20, bits(0.95), bits(1.1), 9);
    let mut b = Sampler::new(bits(0.8), 20, bits(0.95), bits(1.1), 9);
    for n in 0..10u64 {
        assert_eq!(a.draws(), n);
        let x = a.sample(&ops(), &logits, &[3, 4]);
        assert_eq!(x, b.sample(&ops(), &logits, &[3, 4]));
        assert!(x < 50);
        assert_eq!(a.rng, b.rng);
    }
    assert_eq!((a.temperature, a.top_k, a.top_p), (bits(0.8), 20, bits(0.95)));
    assert_eq!((a.repeat_penalty, a.repeat_window), (bits(1.1), b.repeat_window));
    // the likeliest token is taken without a draw
    let mut g = sampler(0.0, 40, 0.9);
    for _ in 0..3 {
        assert_eq!(g.sample(&ops(), &logits, &[]), 6);
    }
    assert_eq!(g.draws(), 0);
}

#[test]
fn candidates_are_probabilities_that_fall() {
    let logits: Vec<f32> = (0..60).map(|i| ((i * 37 % 60) as f32 * 0.21).sin() * 9.0).collect();
    for (temperature, top_k, top_p) in [(1.0, 0, 1.0), (0.3, 20, 0.9), (2.5, 7, 0.5), (1e-30, 0, 0.9), (1e30, 0, 0.1)] {
        let cand = filtered(&sampler(temperature, top_k, top_p), &logits);
        assert!(!cand.is_empty());
        assert!(cand.iter().all(|c| c.1.is_finite() && c.1 >= 0.0 && c.1 <= 1.0));
        for pair in cand.windows(2) {
            assert!(pair[1].1 <= pair[0].1);
        }
        let sum: f32 = cand.iter().map(|c| c.1).sum();
        assert!((sum - 1.0).abs() < 1e-5);
    }
}

#[test]
fn order_is_kept_by_the_machine() {
    let f = ops();
    let values = [f32::NEG_INFINITY, f32::MIN, -90.0, -1.5, -1e-45, -0.0, 0.0, 1e-45, 0.25, 1.0, 88.0, f32::MAX, f32::INFINITY];
    for &x in &values {
        for &y in &values {
            for &m in values.iter().filter(|m| m.is_finite()) {
                assert!(!number(f.minus(bits(x), bits(m))).is_nan());
                if x <= y {
                    assert!(number(f.minus(bits(x), bits(m))) <= number(f.minus(bits(y), bits(m))));
                    if m > 0.0 {
                        assert!(number(f.over(bits(x), bits(m))) <= number(f.over(bits(y), bits(m))));
                    }
                }
                if m > 0.0 {
                    assert!(number(f.over(bits(1.0), bits(m))) > 0.0);
                    if (0.0..=m).contains(&x) {
                        assert!((0.0..=1.0).contains(&number(f.over(bits(x), bits(m)))));
                    }
                }
                if m >= 0.0 && (0.0..=1.0).contains(&x) {
                    assert!(number(f.plus(bits(m), bits(x))).is_finite());
                }
                if x.is_finite() {
                    assert!(!number(f.times(bits(x), bits(m))).is_nan());
                }
                if m != 0.0 || (x > 0.0 && x.is_finite()) {
                    assert!(!number(f.over(bits(x), bits(m))).is_nan());
                }
            }
            if x <= y {
                assert!(number(f.exp(bits(x))) <= number(f.exp(bits(y))));
            }
        }
    }
    let mut last = 0.0;
    for i in -2000..2000 {
        let e = number(f.exp(bits(i as f32 * 0.05)));
        assert!(e >= last);
        last = e;
    }
}
