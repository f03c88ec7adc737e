//! What probabilities are: numbers between zero and one, in the order of the numbers that they were
//! made from. And what a sampler does with finite logits, call after call.

use vstd::prelude::*;

use crate::finite::{keeps_numbers, lemma_total_bounds};
use crate::float::{is_finite, is_nan, less, rank, Arithmetic, NEGATIVE_INFINITY, ONE, ZERO};
use crate::generate::argmax_of;
use crate::sampler::{ahead, candidate_shares, candidates, descending_order, is_descending, lemma_candidates, lemma_crossing_count, lemma_descending_order, lemma_order_is_all, lemma_sampled, nucleus, order_exponentials, sampled, scaled, shares, top_k_count, top_p_count, with_penalty, Sampler};
use crate::tensor::{greatest, shifted_exponentials, softmaxed, total};

verus! {

/// Whether arithmetic keeps the order of numbers. Of differences, quotients and sums IEEE 754 says
/// what is asked for here: what is subtracted from two numbers, or what they are divided by, changes
/// nothing in their order; a part of a finite sum is at most one of it, and one over a finite number
/// is not zero; adding no more than one to a finite number gives a finite number. The exponential
/// function has to grow with its argument.
pub open spec fn keeps_order<F: Arithmetic>(f: &F) -> bool {
    &&& forall|x: u32, m: u32| !is_nan(x) && is_finite(m) ==> !is_nan(#[trigger] f.difference(x, m))
    &&& forall|x: u32, y: u32, m: u32|
        !is_nan(x) && !is_nan(y) && is_finite(m) && rank(x) <= rank(y) ==> rank(#[trigger] f.difference(x, m)) <= rank(
            #[trigger] f.difference(y, m),
        )
    &&& forall|x: u32, y: u32|
        !is_nan(x) && !is_nan(y) && rank(x) <= rank(y) ==> rank(#[trigger] f.exponential(x)) <= rank(#[trigger] f.exponential(y))
    &&& forall|x: u32, y: u32|
        is_finite(x) && rank(x) >= 0 && !is_nan(y) && 0 <= rank(y) <= rank(ONE) ==> is_finite(#[trigger] f.sum(x, y))
    &&& forall|x: u32, s: u32|
        !is_nan(x) && is_finite(s) && 0 <= rank(x) <= rank(s) && rank(s) > 0 ==> {
            let q = #[trigger] f.quotient(x, s);
            !is_nan(q) && 0 <= rank(q) <= rank(ONE)
        }
    &&& forall|x: u32, y: u32, s: u32|
        !is_nan(x) && !is_nan(y) && is_finite(s) && rank(s) > 0 && rank(x) <= rank(y) ==> rank(#[trigger] f.quotient(x, s)) <= rank(
            #[trigger] f.quotient(y, s),
        )
    &&& forall|s: u32| is_finite(s) && rank(s) > 0 ==> rank(#[trigger] f.quotient(ONE, s)) > 0
}

/// Whether these are probabilities: finite numbers from zero to one.
pub open spec fn are_probabilities(p: Seq<u32>) -> bool {
    forall|i: int| 0 <= i < p.len() ==> is_finite(#[trigger] p[i]) && rank(ZERO) <= rank(p[i]) <= rank(ONE)
}

// ---------------------------------------------------------------------------
// Softmax.
// ---------------------------------------------------------------------------

/// No number is greater than the greatest, which is one of them if it is finite.
proof fn lemma_greatest(x: Seq<u32>, n: nat) -> (at: int)
    requires
        n <= x.len(),
        forall|i: int| 0 <= i < n ==> !is_nan(#[trigger] x[i]),
    ensures
        !is_nan(greatest(x, n)),
        forall|i: int| 0 <= i < n ==> rank(#[trigger] x[i]) <= rank(greatest(x, n)),
        greatest(x, n) != NEGATIVE_INFINITY ==> 0 <= at < n && x[at] == greatest(x, n),
    decreases n,
{
    if n == 0 {
        0
    } else {
        let at = lemma_greatest(x, (n - 1) as nat);
        assert(!is_nan(x[n - 1]));
        if greatest(x, n) == greatest(x, (n - 1) as nat) {
            at
        } else {
            n - 1
        }
    }
}

/// Numbers from zero to one add up to a finite number.
proof fn lemma_finite_total<F: Arithmetic>(f: &F, e: Seq<u32>, n: nat)
    requires
        keeps_numbers(f),
        keeps_order(f),
        n <= e.len(),
        are_probabilities(e),
    ensures
        is_finite(total(f, e, n)),
        rank(total(f, e, n)) >= 0,
        forall|i: int| 0 <= i < n ==> rank(#[trigger] e[i]) <= rank(total(f, e, n)),
    decreases n,
{
    lemma_total_bounds(f, e, n);
    if n > 0 {
        lemma_finite_total(f, e, (n - 1) as nat);
        assert(is_finite(e[n - 1]));
    }
}

/// An exponential that is not behind the greatest number.
proof fn lemma_exponential<F: Arithmetic>(f: &F, x: u32, max: u32)
    requires
        keeps_numbers(f),
        keeps_order(f),
        !is_nan(x),
        is_finite(max),
        rank(x) <= rank(max),
    ensures
        ({
            let e = f.exponential(f.difference(x, max));
            is_finite(e) && rank(ZERO) <= rank(e) <= rank(ONE)
        }),
{
    let d = f.difference(x, max);
    assert(rank(d) <= rank(f.difference(max, max)));
    assert(rank(f.exponential(d)) <= rank(f.exponential(ZERO)));
}

/// Shares of numbers from zero to one, of which one is not zero, are probabilities in the same order.
proof fn lemma_shares<F: Arithmetic>(f: &F, e: Seq<u32>)
    requires
        keeps_numbers(f),
        keeps_order(f),
        are_probabilities(e),
        exists|at: int| 0 <= at < e.len() && rank(#[trigger] e[at]) > 0,
    ensures
        shares(f, e).len() == e.len(),
        are_probabilities(shares(f, e)),
        forall|i: int, j: int|
            0 <= i < e.len() && 0 <= j < e.len() && rank(e[i]) <= rank(e[j]) ==> rank(#[trigger] shares(f, e)[i]) <= rank(
                #[trigger] shares(f, e)[j],
            ),
{
    let s = total(f, e, e.len());
    lemma_finite_total(f, e, e.len());
    let p = shares(f, e);
    assert forall|i: int| 0 <= i < p.len() implies is_finite(#[trigger] p[i]) && rank(ZERO) <= rank(p[i]) <= rank(ONE) by {
        assert(is_finite(e[i]));
        assert(p[i] == f.quotient(e[i], s));
    }
    assert forall|i: int, j: int| 0 <= i < e.len() && 0 <= j < e.len() && rank(e[i]) <= rank(e[j]) implies rank(#[trigger] p[i]) <= rank(
        #[trigger] p[j],
    ) by {
        assert(is_finite(e[i]) && is_finite(e[j]));
    }
}

/// Where none of the numbers is missing and the greatest is finite, softmax makes probabilities of
/// them, which stay finite, and keeps their order. The greatest number has a probability that is not
/// zero.
pub proof fn lemma_softmax<F: Arithmetic>(f: &F, x: Seq<u32>)
    requires
        keeps_numbers(f),
        keeps_order(f),
        forall|i: int| 0 <= i < x.len() ==> !is_nan(#[trigger] x[i]),
        is_finite(greatest(x, x.len())),
    ensures
        softmaxed(f, x).len() == x.len(),
        are_probabilities(softmaxed(f, x)),
        forall|i: int, j: int|
            0 <= i < x.len() && 0 <= j < x.len() && rank(x[i]) <= rank(x[j]) ==> rank(#[trigger] softmaxed(f, x)[i]) <= rank(
                #[trigger] softmaxed(f, x)[j],
            ),
        forall|i: int|
            0 <= i < x.len() && rank(x[i]) == rank(greatest(x, x.len())) ==> rank(#[trigger] softmaxed(f, x)[i]) > 0,
{
    let max = greatest(x, x.len());
    let at = lemma_greatest(x, x.len());
    let e = shifted_exponentials(f, x);
    assert forall|i: int| 0 <= i < e.len() implies is_finite(#[trigger] e[i]) && rank(ZERO) <= rank(e[i]) <= rank(ONE) by {
        assert(!is_nan(x[i]));
        lemma_exponential(f, x[i], max);
    }
    assert(e[at] == ONE);
    lemma_shares(f, e);
    let p = softmaxed(f, x);
    assert(p =~= shares(f, e));
    assert forall|i: int, j: int| 0 <= i < x.len() && 0 <= j < x.len() && rank(x[i]) <= rank(x[j]) implies rank(#[trigger] p[i]) <= rank(
        #[trigger] p[j],
    ) by {
        assert(!is_nan(x[i]) && !is_nan(x[j]));
        assert(rank(f.difference(x[i], max)) <= rank(f.difference(x[j], max)));
        assert(rank(e[i]) <= rank(e[j]));
        assert(rank(shares(f, e)[i]) <= rank(shares(f, e)[j]));
    }
    lemma_finite_total(f, e, e.len());
    assert(rank(e[at]) <= rank(total(f, e, e.len())));
    assert(p[at] == f.quotient(ONE, total(f, e, e.len())));
    assert forall|i: int| 0 <= i < x.len() && rank(x[i]) == rank(max) implies rank(#[trigger] p[i]) > 0 by {
        assert(rank(x[at]) <= rank(x[i]));
        assert(rank(p[at]) <= rank(p[i]));
    }
}

// ---------------------------------------------------------------------------
// Candidates.
// ---------------------------------------------------------------------------

/// A temperature that is a positive finite number keeps the order of logits.
pub proof fn lemma_temperature<F: Arithmetic>(f: &F, logits: Seq<u32>, temperature: u32)
    requires
        keeps_order(f),
        is_finite(temperature),
        less(ZERO, temperature),
        forall|i: int| 0 <= i < logits.len() ==> !is_nan(#[trigger] logits[i]),
    ensures
        forall|i: int, j: int|
            0 <= i < logits.len() && 0 <= j < logits.len() && rank(logits[i]) <= rank(logits[j]) ==> rank(
                #[trigger] scaled(f, logits, temperature)[i],
            ) <= rank(#[trigger] scaled(f, logits, temperature)[j]),
{
    let z = scaled(f, logits, temperature);
    assert forall|i: int, j: int| 0 <= i < logits.len() && 0 <= j < logits.len() && rank(logits[i]) <= rank(logits[j]) implies rank(
        #[trigger] z[i],
    ) <= rank(#[trigger] z[j]) by {
        assert(!is_nan(logits[i]) && !is_nan(logits[j]));
    }
}

/// Whether no number is greater than one before it.
pub open spec fn is_falling(p: Seq<u32>) -> bool {
    forall|i: int, j: int| 0 <= i <= j < p.len() ==> rank(#[trigger] p[j]) <= rank(#[trigger] p[i])
}

/// The shares of falling numbers from zero to one fall, and the first is not zero.
proof fn lemma_falling_shares<F: Arithmetic>(f: &F, e: Seq<u32>)
    requires
        keeps_numbers(f),
        keeps_order(f),
        e.len() > 0,
        are_probabilities(e),
        is_falling(e),
        rank(e[0]) > 0,
    ensures
        shares(f, e).len() == e.len(),
        are_probabilities(shares(f, e)),
        is_falling(shares(f, e)),
{
    let p = shares(f, e);
    lemma_shares(f, e);
    assert forall|i: int, j: int| 0 <= i <= j < p.len() implies rank(#[trigger] p[j]) <= rank(#[trigger] p[i]) by {
        assert(rank(e[j]) <= rank(e[i]));
    }
}

/// What top-p leaves of falling probabilities are falling probabilities.
proof fn lemma_nucleus<F: Arithmetic>(f: &F, p: Seq<u32>, top_p: u32)
    requires
        keeps_numbers(f),
        keeps_order(f),
        p.len() > 0,
        are_probabilities(p),
        is_falling(p),
        rank(p[0]) > 0,
    ensures
        are_probabilities(nucleus(f, p, top_p)),
        is_falling(nucleus(f, p, top_p)),
{
    lemma_crossing_count(f, p, top_p, p.len());
    let first = p.take(top_p_count(f, p, top_p) as int);
    assert forall|i: int| 0 <= i < first.len() implies is_finite(#[trigger] first[i]) && rank(ZERO) <= rank(first[i]) <= rank(ONE) by {
        assert(is_finite(p[i]));
    }
    assert forall|i: int, j: int| 0 <= i <= j < first.len() implies rank(#[trigger] first[j]) <= rank(#[trigger] first[i]) by {
        assert(rank(p[j]) <= rank(p[i]));
    }
    lemma_falling_shares(f, first);
}

/// Where none of the logits over the temperature is missing and the greatest is finite, the
/// candidates have probabilities: finite numbers from zero to one. No candidate is likelier than one
/// before it.
pub proof fn lemma_candidate_probabilities<F: Arithmetic>(f: &F, logits: Seq<u32>, temperature: u32, top_k: usize, top_p: u32)
    requires
        keeps_numbers(f),
        keeps_order(f),
        0 < logits.len() <= 0x1_0000_0000,
        ({
            let z = scaled(f, logits, temperature);
            &&& forall|i: int| 0 <= i < z.len() ==> !is_nan(#[trigger] z[i])
            &&& is_finite(greatest(z, z.len()))
        }),
    ensures
        ({
            let cand = candidates(f, logits, temperature, top_k, top_p);
            &&& forall|i: int| 0 <= i < cand.len() ==> is_finite((#[trigger] cand[i]).1) && rank(ZERO) <= rank(cand[i].1) <= rank(ONE)
            &&& forall|i: int, j: int| 0 <= i <= j < cand.len() ==> rank((#[trigger] cand[j]).1) <= rank((#[trigger] cand[i]).1)
        }),
{
    let z = scaled(f, logits, temperature);
    let order = descending_order(z);
    let k = top_k_count(top_k, logits.len());
    lemma_descending_order(z);
    lemma_candidates(f, logits, temperature, top_k, top_p);
    let at = lemma_greatest(z, z.len());
    let max = z[order[0] as int];
    lemma_first_is_greatest(z, order, at);
    let e = order_exponentials(f, z, order, k);
    assert forall|i: int| 0 <= i < e.len() implies is_finite(#[trigger] e[i]) && rank(ZERO) <= rank(e[i]) <= rank(ONE) by {
        assert(order[i] < z.len());
        assert(!is_nan(z[order[i] as int]));
        lemma_exponential(f, z[order[i] as int], max);
    }
    assert forall|i: int, j: int| 0 <= i <= j < e.len() implies rank(#[trigger] e[j]) <= rank(#[trigger] e[i]) by {
        let (a, b) = (z[order[i] as int], z[order[j] as int]);
        assert(order[i] < z.len() && order[j] < z.len());
        assert(!is_nan(a) && !is_nan(b));
        assert(rank(b) <= rank(a));
        assert(rank(f.difference(b, max)) <= rank(f.difference(a, max)));
    }
    assert(e[0] == ONE);
    lemma_falling_shares(f, e);
    let p = shares(f, e);
    lemma_finite_total(f, e, e.len());
    assert(rank(e[0]) <= rank(total(f, e, e.len())));
    assert(p[0] == f.quotient(ONE, total(f, e, e.len())));
    lemma_nucleus(f, p, top_p);
    let q = candidate_shares(f, logits, temperature, top_k, top_p, order);
    let cand = candidates(f, logits, temperature, top_k, top_p);
    assert forall|i: int| 0 <= i < cand.len() implies is_finite((#[trigger] cand[i]).1) && rank(ZERO) <= rank(cand[i].1) <= rank(ONE) by {
        assert(is_finite(q[i]));
    }
    assert forall|i: int, j: int| 0 <= i <= j < cand.len() implies rank((#[trigger] cand[j]).1) <= rank((#[trigger] cand[i]).1) by {
        assert(rank(q[j]) <= rank(q[i]));
    }
}

/// The first number in a list by size is as great as the greatest.
proof fn lemma_first_is_greatest(z: Seq<u32>, order: Seq<u32>, at: int)
    requires
        is_descending(z, order),
        0 <= at < z.len() <= 0x1_0000_0000,
        forall|i: int| 0 <= i < z.len() ==> !is_nan(#[trigger] z[i]) && rank(z[i]) <= rank(z[at]),
        is_finite(z[at]),
    ensures
        is_finite(z[order[0] as int]),
        forall|i: int| 0 <= i < z.len() ==> rank(#[trigger] z[i]) <= rank(z[order[0] as int]),
{
    lemma_order_is_all(z, order);
    assert(order.contains(at as u32));
    let k = choose|k: int| 0 <= k < order.len() && order[k] == at as u32;
    assert(order[0] < z.len());
    assert(!is_nan(z[order[0] as int]));
    if k > 0 {
        assert(ahead(z, order[0], order[k]));
    }
    assert(rank(z[order[0] as int]) == rank(z[at]));
}

// ---------------------------------------------------------------------------
// Call after call.
// ---------------------------------------------------------------------------

/// Whether products and quotients of numbers are numbers, as IEEE 754 says: a quotient of any number
/// by a finite one that is not zero, one of a positive finite number by any finite one, and a product
/// of finite numbers.
pub open spec fn stays_number<F: Arithmetic>(f: &F) -> bool {
    &&& forall|x: u32, y: u32| !is_nan(x) && is_finite(y) && rank(y) != 0 ==> !is_nan(#[trigger] f.quotient(x, y))
    &&& forall|x: u32, y: u32| is_finite(x) && rank(x) > 0 && is_finite(y) ==> !is_nan(#[trigger] f.quotient(x, y))
    &&& forall|x: u32, y: u32| is_finite(x) && is_finite(y) ==> !is_nan(#[trigger] f.product(x, y))
}

/// Whether a call has finite logits, one for each recent token.
pub open spec fn is_finite_call(call: (Seq<u32>, Seq<u32>)) -> bool {
    &&& 0 < call.0.len() <= 0x1_0000_0000
    &&& forall|i: int| 0 <= i < call.0.len() ==> is_finite(#[trigger] call.0[i])
    &&& forall|i: int| 0 <= i < call.1.len() ==> #[trigger] call.1[i] < call.0.len()
}

/// With finite settings, a sampler can choose among finite logits.
pub proof fn lemma_can_choose<F: Arithmetic>(f: &F, s: Sampler, logits: Seq<u32>, recent: Seq<u32>)
    requires
        stays_number(f),
        is_finite_call((logits, recent)),
        is_finite(s.temperature),
        is_finite(s.repeat_penalty),
        s.draws < u64::MAX,
    ensures
        s.can_choose(f, logits, recent),
{
    let call = (logits, recent);
    assert forall|i: int| 0 <= i < recent.len() implies #[trigger] recent[i] < logits.len() by {
        assert(call.1[i] < call.0.len());
    }
    if !s.is_greedy() {
        let lg = with_penalty(f, logits, recent, s.repeat_penalty);
        assert forall|i: int| 0 <= i < lg.len() implies !is_nan(f.quotient(#[trigger] lg[i], s.temperature)) by {
            assert(is_finite(call.0[i]));
            assert(!is_nan(lg[i]));
        }
    }
}

/// Two samplers that were made with equal arguments choose equal tokens in equal calls, if the
/// settings and the logits are finite, and can choose in each of them. Each token has a logit. Where
/// the likeliest token is taken, it is that of the penalized logits, and neither the count of draws nor
/// the generator changes; else each call draws once. The settings never change.
pub proof fn lemma_same_stream<F: Arithmetic>(
    f: &F,
    a: Sampler,
    b: Sampler,
    temperature: u32,
    top_k: usize,
    top_p: u32,
    repeat_penalty: u32,
    seed: u64,
    calls: Seq<(Seq<u32>, Seq<u32>)>,
)
    requires
        stays_number(f),
        a == Sampler::made(temperature, top_k, top_p, repeat_penalty, seed),
        b == Sampler::made(temperature, top_k, top_p, repeat_penalty, seed),
        is_finite(temperature),
        is_finite(repeat_penalty),
        calls.len() <= u64::MAX,
        forall|i: int| 0 <= i < calls.len() ==> is_finite_call(#[trigger] calls[i]),
    ensures
        sampled(f, a, calls, calls.len()) == sampled(f, b, calls, calls.len()),
        forall|i: int| 0 <= i < calls.len() ==> sampled(f, a, calls, i as nat).1.can_choose(f, (#[trigger] calls[i]).0, calls[i].1),
        ({
            let (ids, after) = sampled(f, a, calls, calls.len());
            &&& ids.len() == calls.len()
            &&& forall|i: int| 0 <= i < ids.len() ==> #[trigger] ids[i] < calls[i].0.len()
            &&& a.is_greedy() ==> after == a && forall|i: int|
                0 <= i < ids.len() ==> #[trigger] ids[i] == argmax_of(with_penalty(f, calls[i].0, calls[i].1, repeat_penalty))
            &&& !a.is_greedy() ==> after.draws == calls.len()
            &&& after.temperature == temperature
            &&& after.top_k == top_k
            &&& after.top_p == top_p
            &&& after.repeat_penalty == repeat_penalty
            &&& after.repeat_window == a.repeat_window
        }),
{
    assert forall|i: int| 0 <= i < calls.len() implies 0 < (#[trigger] calls[i]).0.len() <= 0x1_0000_0000 by {
        assert(is_finite_call(calls[i]));
    }
    assert forall|i: int| 0 <= i < calls.len() implies sampled(f, a, calls, i as nat).1.can_choose(f, (#[trigger] calls[i]).0, calls[i].1) by {
        lemma_sampled(f, a, calls, i as nat);
        assert(is_finite_call(calls[i]));
        lemma_can_choose(f, sampled(f, a, calls, i as nat).1, calls[i].0, calls[i].1);
    }
    lemma_sampled(f, a, calls, calls.len());
}

} // verus!
