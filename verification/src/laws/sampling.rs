//! How a token is drawn, down to the bits of the random numbers.

use vstd::arithmetic::div_mod::{lemma_add_mod_noop, lemma_fundamental_div_mod, lemma_mod_multiples_vanish, lemma_mod_twice};
use vstd::prelude::*;

use crate::float::{equal, greater_of, is_nan, less, negated, Arithmetic, ONE};
use crate::generate::argmax_of;
use crate::sampler::{ahead, at_least, candidates, crossing, descending_order, drawn, falls_on, is_candidate, lemma_candidates, lemma_descending_order, nucleus, order_exponentials, scaled, top_k_count, with_penalty, Pcg32, Sampler};
use crate::tensor::total;

verus! {

// ---------------------------------------------------------------------------
// Numbers.
// ---------------------------------------------------------------------------

/// Patterns above that of infinity, the sign aside, are not numbers, and compare with nothing. Positive
/// numbers are ordered as their patterns, negative ones the other way round; a negative number is less
/// than a positive one, and the two zeros are equal.
pub proof fn lemma_order(a: u32, b: u32)
    ensures
        is_nan(a) <==> 0x7F80_0000 < a < 0x8000_0000 || 0xFF80_0000 < a,
        is_nan(a) || is_nan(b) ==> !less(a, b) && !equal(a, b),
        !is_nan(a) && !is_nan(b) && a < 0x8000_0000 && b < 0x8000_0000 ==> (less(a, b) <==> a < b) && (equal(a, b) <==> a == b),
        !is_nan(a) && !is_nan(b) && a >= 0x8000_0000 && b >= 0x8000_0000 ==> (less(a, b) <==> a > b) && (equal(a, b) <==> a == b),
        !is_nan(a) && !is_nan(b) && a >= 0x8000_0000 && b < 0x8000_0000 ==> (less(a, b) <==> a > 0x8000_0000 || b > 0) && !less(b, a) && (equal(
            a,
            b,
        ) <==> a == 0x8000_0000 && b == 0),
{
}

/// A number and its negative differ in the top bit alone.
pub proof fn lemma_negated(x: u32)
    ensures
        negated(x) == x ^ 0x8000_0000u32,
        negated(negated(x)) == x,
{
    assert(x >= 0x8000_0000u32 ==> x ^ 0x8000_0000u32 == x - 0x8000_0000u32) by (bit_vector);
    assert(x < 0x8000_0000u32 ==> x ^ 0x8000_0000u32 == x + 0x8000_0000u32) by (bit_vector);
}

/// The greater of two numbers is one of them, and neither exceeds it; what is not a number loses.
pub proof fn lemma_greater(a: u32, b: u32)
    ensures
        greater_of(a, b) == a || greater_of(a, b) == b,
        !less(greater_of(a, b), a),
        !less(greater_of(a, b), b),
        is_nan(greater_of(a, b)) ==> is_nan(a) && is_nan(b),
{
}

// ---------------------------------------------------------------------------
// Repeat penalty.
// ---------------------------------------------------------------------------

/// A token that did not occur keeps its logit. One that did has it divided by the penalty if it is
/// positive, and multiplied by the penalty if not, once, however often the token occurred. The penalty
/// one changes nothing.
pub proof fn lemma_penalty<F: Arithmetic>(f: &F, logits: Seq<u32>, recent: Seq<u32>, penalty: u32, i: u32)
    requires
        i < logits.len(),
    ensures
        with_penalty(f, logits, recent, penalty).len() == logits.len(),
        !recent.contains(i) || penalty == 0x3F80_0000 ==> with_penalty(f, logits, recent, penalty)[i as int] == logits[i as int],
        recent.contains(i) && penalty != 0x3F80_0000 && 0 < logits[i as int] <= 0x7F80_0000 ==> with_penalty(f, logits, recent, penalty)[i as int]
            == f.quotient(logits[i as int], penalty),
        recent.contains(i) && penalty != 0x3F80_0000 && !(0 < logits[i as int] <= 0x7F80_0000) ==> with_penalty(f, logits, recent, penalty)[i as int]
            == f.product(logits[i as int], penalty),
{
}

// ---------------------------------------------------------------------------
// Candidates.
// ---------------------------------------------------------------------------

/// Top-p below one keeps the fewest first candidates whose probabilities reach it together, and all if
/// they never do; each keeps its part of what is kept. From one on nothing changes.
pub proof fn lemma_top_p<F: Arithmetic>(f: &F, p: Seq<u32>, top_p: u32)
    ensures
        !less(top_p, ONE) ==> nucleus(f, p, top_p) == p,
        less(top_p, ONE) ==> ({
            let n = nucleus(f, p, top_p);
            let kept = p.take(n.len() as int);
            &&& n.len() <= p.len()
            &&& forall|j: nat| j < n.len() ==> !at_least(#[trigger] total(f, p, j), top_p) || j == 0
            &&& n.len() < p.len() ==> at_least(total(f, p, n.len()), top_p)
            &&& p.len() > 0 ==> n.len() > 0
            &&& forall|i: int| 0 <= i < n.len() ==> #[trigger] n[i] == f.quotient(p[i], total(f, kept, n.len()))
        }),
{
    if less(top_p, ONE) {
        lemma_first_crossing(f, p, top_p, p.len());
    }
}

/// The sum is reached at the first probability at which it is reached.
proof fn lemma_first_crossing<F: Arithmetic>(f: &F, p: Seq<u32>, top_p: u32, n: nat)
    ensures
        match crossing(f, p, top_p, n) {
            Some(k) => 0 < k <= n && at_least(total(f, p, k), top_p) && forall|j: nat| 0 < j < k ==> !at_least(#[trigger] total(f, p, j), top_p),
            None => forall|j: nat| 0 < j <= n ==> !at_least(#[trigger] total(f, p, j), top_p),
        },
    decreases n,
{
    if n > 0 {
        lemma_first_crossing(f, p, top_p, (n - 1) as nat);
    }
}

/// Whether the candidates before `i` and it reach beyond `u` together.
pub open spec fn reaches_beyond<F: Arithmetic>(f: &F, p: Seq<u32>, u: u32, i: int) -> bool {
    less(u, total(f, p, (i + 1) as nat))
}

/// The number that is drawn picks the first candidate up to which the probabilities exceed it, and the
/// last one if they never do.
pub proof fn lemma_draw<F: Arithmetic>(f: &F, cand: Seq<(u32, u32)>, u: u32) -> (i: int)
    requires
        cand.len() > 0,
    ensures
        0 <= i < cand.len(),
        drawn(f, cand, u) == cand[i].0,
        ({
            let p = Seq::new(cand.len(), |k: int| cand[k].1);
            &&& forall|j: int| 0 <= j < i ==> !#[trigger] reaches_beyond(f, p, u, j)
            &&& i < cand.len() - 1 ==> reaches_beyond(f, p, u, i)
        }),
{
    let p = Seq::new(cand.len(), |k: int| cand[k].1);
    lemma_first_beyond(f, p, u, p.len());
    match falls_on(f, p, u, p.len()) {
        Some(i) => i,
        None => cand.len() - 1,
    }
}

/// A number falls on the first place at which the sum exceeds it.
proof fn lemma_first_beyond<F: Arithmetic>(f: &F, p: Seq<u32>, u: u32, n: nat)
    ensures
        match falls_on(f, p, u, n) {
            Some(i) => 0 <= i < n && reaches_beyond(f, p, u, i) && forall|j: int| 0 <= j < i ==> !#[trigger] reaches_beyond(f, p, u, j),
            None => forall|j: int| 0 <= j < n ==> !#[trigger] reaches_beyond(f, p, u, j),
        },
    decreases n,
{
    if n > 0 {
        lemma_first_beyond(f, p, u, (n - 1) as nat);
        if falls_on(f, p, u, (n - 1) as nat) is None {
            assert forall|j: int| 0 <= j < n && !less(u, total(f, p, n)) implies !#[trigger] reaches_beyond(f, p, u, j) by {}
            assert(reaches_beyond(f, p, u, n - 1) == less(u, total(f, p, n)));
        }
    }
}

/// Where `k` candidates are kept, and the limit of top-p is one, the probability of each is its part of
/// all: the exponential of its scaled logit, less the greatest one, over the sum of those of the
/// candidates.
pub proof fn lemma_probabilities<F: Arithmetic>(f: &F, logits: Seq<u32>, temperature: u32, top_k: usize, i: int)
    requires
        0 < logits.len() <= 0x1_0000_0000,
        0 <= i < candidates(f, logits, temperature, top_k, ONE).len(),
    ensures
        ({
            let c = candidates(f, logits, temperature, top_k, ONE);
            let greatest = f.quotient(logits[c[0].0 as int], temperature);
            let e = Seq::new(c.len(), |j: int| f.exponential(f.difference(f.quotient(logits[c[j].0 as int], temperature), greatest)));
            c[i].1 == f.quotient(e[i], total(f, e, e.len()))
        }),
{
    lemma_candidates(f, logits, temperature, top_k, ONE);
    let c = candidates(f, logits, temperature, top_k, ONE);
    let greatest = f.quotient(logits[c[0].0 as int], temperature);
    let e = Seq::new(c.len(), |j: int| f.exponential(f.difference(f.quotient(logits[c[j].0 as int], temperature), greatest)));
    let z = scaled(f, logits, temperature);
    let order = descending_order(z);
    lemma_descending_order(z);
    let k = top_k_count(top_k, logits.len());
    assert(order_exponentials(f, z, order, k) =~= e);
}

/// A sampler at temperature zero, or of one candidate, takes the likeliest token and draws no number.
/// Any other draws one number, and takes the candidate that it picks; nothing else of it changes.
pub proof fn lemma_choice<F: Arithmetic>(f: &F, s: Sampler, logits: Seq<u32>, recent: Seq<u32>)
    requires
        s.can_choose(f, logits, recent),
    ensures
        ({
            let lg = with_penalty(f, logits, recent, s.repeat_penalty);
            let (token, after) = s.chosen(f, logits, recent);
            let exact = s.temperature == 0 || s.temperature == 0x8000_0000 || s.top_k == 1;
            &&& exact ==> token == argmax_of(lg) && after == s
            &&& !exact ==> {
                &&& token == drawn(f, candidates(f, lg, s.temperature, s.top_k, s.top_p), s.rng.unit(f))
                &&& after.draws == s.draws + 1
                &&& after.rng == s.rng.stepped()
                &&& after == Sampler { draws: after.draws, rng: after.rng, ..s }
            }
        }),
{
}

/// A new sampler looks back at the last 64 tokens and has drawn nothing.
pub proof fn lemma_new_sampler(temperature: u32, top_k: usize, top_p: u32, repeat_penalty: u32, seed: u64)
    ensures
        ({
            let s = Sampler::made(temperature, top_k, top_p, repeat_penalty, seed);
            &&& s.temperature == temperature
            &&& s.top_k == top_k
            &&& s.top_p == top_p
            &&& s.repeat_penalty == repeat_penalty
            &&& s.repeat_window == 64
            &&& s.draws == 0
            &&& s.rng == Pcg32::seeded(seed)
        }),
{
}

// ---------------------------------------------------------------------------
// Random numbers.
// ---------------------------------------------------------------------------

/// Each number moves the state on by the linear step of the generator, over the integers modulo two to
/// the 64, and leaves the stream alone.
pub proof fn lemma_random_step(g: Pcg32)
    ensures
        g.stepped().inc == g.inc,
        g.stepped().state == (g.state * 6364136223846793005 + g.inc) % 0x1_0000_0000_0000_0000,
{
    let m = 6364136223846793005u64;
    let once = g.state.wrapping_mul(m);
    assert(once == (g.state * m) % 0x1_0000_0000_0000_0000);
    assert(once.wrapping_add(g.inc) == (once + g.inc) % 0x1_0000_0000_0000_0000);
    lemma_add_mod_noop(g.state * m, g.inc as int, 0x1_0000_0000_0000_0000);
    lemma_add_mod_noop(once as int, g.inc as int, 0x1_0000_0000_0000_0000);
    lemma_mod_twice(g.state * m, 0x1_0000_0000_0000_0000);
}

/// A generator starts from state zero in its stream, is moved on once, takes the seed in, and is moved
/// on once more.
pub proof fn lemma_seeded(seed: u64)
    ensures
        Pcg32::seeded(seed).inc == 0xb47c_7397_2972_b7b7,
        ({
            let inc = 0xb47c_7397_2972_b7b7int;
            Pcg32::seeded(seed).state == ((inc + seed) * 6364136223846793005 + inc) % 0x1_0000_0000_0000_0000
        }),
{
    let inc = 0xb47c_7397_2972_b7b7u64;
    let m = 6364136223846793005int;
    let all = 0x1_0000_0000_0000_0000int;
    let first = Pcg32 { state: 0, inc };
    lemma_random_step(first);
    assert(first.stepped().state == inc);
    let mixed = inc.wrapping_add(seed);
    assert(mixed == (inc + seed) % all);
    let g = Pcg32 { state: mixed, inc };
    lemma_random_step(g);
    assert(Pcg32::seeded(seed) == g.stepped());
    let q = (inc + seed) / all;
    lemma_fundamental_div_mod(inc + seed, all);
    lemma_mod_multiples_vanish(q * m, mixed * m + inc, all);
    assert(all * (q * m) + (mixed * m + inc) == (inc + seed) * m + inc) by (nonlinear_arith)
        requires
            inc + seed == all * q + mixed,
    ;
}

/// The number is the high bits of the state, folded into 32, and turned right by the five highest: its
/// bit `j` is the one `turn` places up, round the end.
pub proof fn lemma_random_bits(state: u64, j: u32)
    requires
        j < 32,
    ensures
        ({
            let folded = (((state >> 18u64) ^ state) >> 27u64) as u32;
            let turn = (state >> 59u64) as u32;
            (Pcg32::output(state) >> j) & 1 == (folded >> (((j + turn) % 32) as u32)) & 1
        }),
{
    let folded = (((state >> 18u64) ^ state) >> 27u64) as u32;
    let turn = (state >> 59u64) as u32;
    assert((state >> 59u64) as u32 <= 31) by (bit_vector);
    let out = Pcg32::output(state);
    let at = ((j + turn) % 32) as u32;
    if turn == 0 {
        assert(at == j);
    } else {
        let left = (32 - turn) as u32;
        assert((out >> j) & 1 == (folded >> at) & 1) by (bit_vector)
            requires
                0 < turn < 32,
                j < 32,
                left == 32 - turn,
                out == (folded >> turn) | (folded << left),
                at == (j + turn) % 32,
        ;
    }
}

/// A number between zero and one is the 24 highest bits of a random number over two to the 24.
pub proof fn lemma_unit<F: Arithmetic>(f: &F, g: Pcg32)
    ensures
        g.unit(f) == f.quotient(f.natural((Pcg32::output(g.state) as int / 256) as usize), f.natural(16777216)),
{
    let x = Pcg32::output(g.state);
    assert(x >> 8u32 == x / 256u32) by (bit_vector);
}

/// Candidates are ordered by their logits over the temperature, the greatest first, and of equal ones
/// the token with the lower number first. Nothing that is left out is greater than a candidate. Top-k
/// leaves the first `top_k`, and 0 or more than there are leaves all.
pub proof fn lemma_candidate_order<F: Arithmetic>(f: &F, logits: Seq<u32>, temperature: u32, top_k: usize, top_p: u32, i: int, x: u32)
    requires
        0 < logits.len() <= 0x1_0000_0000,
        forall|j: int| 0 <= j < logits.len() ==> !is_nan(f.quotient(#[trigger] logits[j], temperature)),
        0 <= i < candidates(f, logits, temperature, top_k, top_p).len(),
        x < logits.len(),
    ensures
        ({
            let c = candidates(f, logits, temperature, top_k, top_p);
            let all = if top_k == 0 || top_k >= logits.len() {
                logits.len()
            } else {
                top_k as nat
            };
            let here = f.quotient(logits[c[i].0 as int], temperature);
            let there = f.quotient(logits[x as int], temperature);
            &&& 0 < c.len() <= all
            &&& !less(top_p, ONE) ==> c.len() == all
            &&& (forall|j: int| 0 <= j < i ==> (#[trigger] c[j]).0 != x) ==> !less(here, there) && (equal(here, there) ==> c[i].0 <= x)
        }),
{
    lemma_candidates(f, logits, temperature, top_k, top_p);
    let c = candidates(f, logits, temperature, top_k, top_p);
    let z = scaled(f, logits, temperature);
    assert(!is_nan(f.quotient(logits[c[i].0 as int], temperature)));
    assert(!is_nan(f.quotient(logits[x as int], temperature)));
    if forall|j: int| 0 <= j < i ==> (#[trigger] c[j]).0 != x {
        if is_candidate(c, x) {
            let k = choose|k: int| 0 <= k < c.len() && (#[trigger] c[k]).0 == x;
            if k > i {
                assert(ahead(z, c[i].0, c[k].0));
            }
        } else {
            assert(ahead(z, c[i].0, x));
        }
    }
}

} // verus!
