//! Token sampling: repeat penalty, temperature, top-k, top-p, renormalization, draw. The order is
//! fixed: another order would sample another distribution.

use vstd::prelude::*;
use vstd::seq_lib::*;
use vstd::set_lib::*;

use crate::float::{equal, is_equal, is_less, is_nan, less, nan, rank, rank_of, Arithmetic, ONE, ZERO};
use crate::generate::{argmax, argmax_of, lemma_largest_place_bound};
use crate::perf::Op;
use crate::tensor::total;

verus! {

// ---------------------------------------------------------------------------
// Random numbers.
// ---------------------------------------------------------------------------

/// What is added in each step of the generator.
pub const PCG_INCREMENT: u64 = 0xb47c_7397_2972_b7b7;

/// What is multiplied with in each step of the generator.
pub const PCG_MULTIPLIER: u64 = 6_364_136_223_846_793_005;

/// A minimal PCG32. The seed determines the whole stream.
#[derive(Debug, Clone, Copy, PartialEq, Eq, Structural)]
pub struct Pcg32 {
    pub state: u64,
    pub inc: u64,
}

/// The bits of `x`, moved right by `r` places, those that fall out put in on the left.
pub open spec fn rotated_right(x: u32, r: u32) -> u32 {
    if r == 0 {
        x
    } else {
        (x >> r) | (x << ((32 - r) as u32))
    }
}

impl Pcg32 {
    /// The number that a state gives.
    pub open spec fn output(state: u64) -> u32 {
        rotated_right((((state >> 18u64) ^ state) >> 27u64) as u32, (state >> 59u64) as u32)
    }

    /// The generator after one number.
    pub open spec fn stepped(self) -> Pcg32 {
        Pcg32 { state: self.state.wrapping_mul(PCG_MULTIPLIER).wrapping_add(self.inc), inc: self.inc }
    }

    /// The generator for a seed.
    pub open spec fn seeded(seed: u64) -> Pcg32 {
        let first = (Pcg32 { state: 0, inc: PCG_INCREMENT }).stepped();
        (Pcg32 { state: first.state.wrapping_add(seed), inc: first.inc }).stepped()
    }

    /// Starts a generator from a seed.
    pub fn new(seed: u64) -> (r: Pcg32)
        ensures
            r == Pcg32::seeded(seed),
    {
        let mut rng: Pcg32 = Pcg32 { state: 0, inc: PCG_INCREMENT };
        rng.next_u32();
        rng.state = rng.state.wrapping_add(seed);
        rng.next_u32();
        rng
    }

    /// The next number.
    pub fn next_u32(&mut self) -> (r: u32)
        ensures
            r == Pcg32::output(old(self).state),
            *final(self) == old(self).stepped(),
    {
        let before: u64 = self.state;
        self.state = before.wrapping_mul(PCG_MULTIPLIER).wrapping_add(self.inc);
        let x: u32 = (((before >> 18u64) ^ before) >> 27u64) as u32;
        let r: u32 = (before >> 59u64) as u32;
        assert((before >> 59u64) as u32 <= 31) by (bit_vector);
        if r == 0 {
            x
        } else {
            let l: u32 = 32 - r;
            (x >> r) | (x << l)
        }
    }

    /// The next number between 0 and 1, of 24 bits.
    pub open spec fn unit<F: Arithmetic>(self, f: &F) -> u32 {
        f.quotient(f.natural((Pcg32::output(self.state) >> 8u32) as usize), f.natural(0x100_0000))
    }

    /// The next number between 0 and 1, of 24 bits.
    pub fn next_f32<F: Arithmetic>(&mut self, f: &F) -> (r: u32)
        requires
            f.wf(),
        ensures
            r == old(self).unit(f),
            *final(self) == old(self).stepped(),
    {
        let x: u32 = self.next_u32();
        f.over(f.from_usize((x >> 8u32) as usize), f.from_usize(0x100_0000))
    }
}

// ---------------------------------------------------------------------------
// Repeat penalty.
// ---------------------------------------------------------------------------

/// A logit made less likely: a positive one divided by the penalty, another multiplied with it.
pub open spec fn penalized<F: Arithmetic>(f: &F, logit: u32, penalty: u32) -> u32 {
    if less(ZERO, logit) {
        f.quotient(logit, penalty)
    } else {
        f.product(logit, penalty)
    }
}

/// The logits with each recent token penalized, once however often it occurs. A penalty of 1
/// changes nothing.
pub open spec fn with_penalty<F: Arithmetic>(f: &F, logits: Seq<u32>, recent: Seq<u32>, penalty: u32) -> Seq<u32> {
    Seq::new(
        logits.len(),
        |i: int|
            if !equal(penalty, ONE) && i <= u32::MAX && recent.contains(i as u32) {
                penalized(f, logits[i], penalty)
            } else {
                logits[i]
            },
    )
}

/// Penalizes recent tokens.
pub fn apply_repeat_penalty<F: Arithmetic>(f: &F, logits: &mut Vec<u32>, recent: &[u32], penalty: u32)
    requires
        f.wf(),
        !equal(penalty, ONE) ==> forall|i: int| 0 <= i < recent@.len() ==> #[trigger] recent@[i] < old(logits)@.len(),
    ensures
        final(logits)@ == with_penalty(f, old(logits)@, recent@, penalty),
{
    let ghost before = logits@;
    if is_equal(penalty, ONE) {
        assert(logits@ =~= with_penalty(f, before, recent@, penalty));
        return;
    }
    let mut j: usize = 0;
    while j < recent.len()
        invariant
            j <= recent@.len(),
            f.wf(),
            before == old(logits)@,
            logits@.len() == before.len(),
            !equal(penalty, ONE),
            forall|i: int| 0 <= i < recent@.len() ==> #[trigger] recent@[i] < before.len(),
            forall|i: int| 0 <= i < before.len() ==> #[trigger] logits@[i] == if i <= u32::MAX && recent@.take(j as int).contains(i as u32) {
                penalized(f, before[i], penalty)
            } else {
                before[i]
            },
        decreases recent@.len() - j,
    {
        let t: u32 = recent[j];
        let ghost seen = recent@.take(j as int);
        let ghost now = recent@.take(j + 1);
        let known: bool = contains(recent, j, t);
        proof {
            assert(now =~= seen.push(t));
            assert forall|x: u32| #[trigger] now.contains(x) == (seen.contains(x) || x == t) by {
                if seen.contains(x) {
                    let k = choose|k: int| 0 <= k < seen.len() && seen[k] == x;
                    assert(now[k] == x);
                }
                if x == t {
                    assert(now[j as int] == x);
                }
            }
        }
        if !known {
            let at: usize = t as usize;
            assert(logits@[at as int] == before[at as int]);
            let l: u32 = logits[at];
            let v: u32 = if is_less(ZERO, l) {
                f.over(l, penalty)
            } else {
                f.times(l, penalty)
            };
            logits[at] = v;
        }
        j = j + 1;
    }
    assert(recent@.take(j as int) =~= recent@);
    assert(logits@ =~= with_penalty(f, before, recent@, penalty));
}

/// Whether a number occurs among the first `n`.
fn contains(list: &[u32], n: usize, x: u32) -> (r: bool)
    requires
        n <= list@.len(),
    ensures
        r == list@.take(n as int).contains(x),
{
    let mut i: usize = 0;
    while i < n
        invariant
            i <= n <= list@.len(),
            forall|k: int| 0 <= k < i ==> list@[k] != x,
        decreases n - i,
    {
        if list[i] == x {
            assert(list@.take(n as int)[i as int] == x);
            return true;
        }
        i = i + 1;
    }
    false
}

// ---------------------------------------------------------------------------
// Candidates.
// ---------------------------------------------------------------------------

/// The logits over the temperature.
pub open spec fn scaled<F: Arithmetic>(f: &F, logits: Seq<u32>, temperature: u32) -> Seq<u32> {
    Seq::new(logits.len(), |i: int| f.quotient(logits[i], temperature))
}

/// Whether `a` comes before `b`: its number is greater, or as great and its place is lower.
pub open spec fn ahead(z: Seq<u32>, a: u32, b: u32) -> bool {
    rank(z[a as int]) > rank(z[b as int]) || (rank(z[a as int]) == rank(z[b as int]) && a < b)
}

/// Whether this lists all places of the numbers, the greatest number first.
pub open spec fn is_descending(z: Seq<u32>, order: Seq<u32>) -> bool {
    &&& order.len() == z.len()
    &&& forall|i: int| 0 <= i < order.len() ==> #[trigger] order[i] < z.len()
    &&& forall|i: int, j: int| 0 <= i < j < order.len() ==> ahead(z, #[trigger] order[i], #[trigger] order[j])
}

/// How many candidates top-k leaves of `n`.
pub open spec fn top_k_count(top_k: usize, n: nat) -> nat {
    if top_k > 0 && top_k < n {
        top_k as nat
    } else {
        n
    }
}

/// The exponentials of the first `k` numbers in this order, the first of them subtracted from each.
pub open spec fn order_exponentials<F: Arithmetic>(f: &F, z: Seq<u32>, order: Seq<u32>, k: nat) -> Seq<u32> {
    let max = z[order[0] as int];
    Seq::new(k, |i: int| f.exponential(f.difference(z[order[i] as int], max)))
}

/// The numbers over their sum.
pub open spec fn shares<F: Arithmetic>(f: &F, x: Seq<u32>) -> Seq<u32> {
    Seq::new(x.len(), |i: int| f.quotient(x[i], total(f, x, x.len())))
}

/// Whether `a >= b`, as numbers.
pub open spec fn at_least(a: u32, b: u32) -> bool {
    less(b, a) || equal(b, a)
}

/// How many of the first `n` probabilities are needed until their sum reaches `top_p`, and none if
/// it does not.
pub open spec fn crossing<F: Arithmetic>(f: &F, p: Seq<u32>, top_p: u32, n: nat) -> Option<nat>
    decreases n,
{
    if n == 0 {
        None
    } else {
        match crossing(f, p, top_p, (n - 1) as nat) {
            Some(k) => Some(k),
            None => if at_least(total(f, p, n), top_p) {
                Some(n)
            } else {
                None
            },
        }
    }
}

/// How many candidates top-p leaves. The one that crosses the limit stays.
pub open spec fn top_p_count<F: Arithmetic>(f: &F, p: Seq<u32>, top_p: u32) -> nat {
    match crossing(f, p, top_p, p.len()) {
        Some(k) => k,
        None => p.len(),
    }
}

/// The probabilities that top-p leaves, renormalized. From 1 on it leaves all as they are.
pub open spec fn nucleus<F: Arithmetic>(f: &F, p: Seq<u32>, top_p: u32) -> Seq<u32> {
    if less(top_p, ONE) {
        shares(f, p.take(top_p_count(f, p, top_p) as int))
    } else {
        p
    }
}

/// The probabilities of the candidates, where this lists the places of the logits by size.
pub open spec fn candidate_shares<F: Arithmetic>(f: &F, logits: Seq<u32>, temperature: u32, top_k: usize, top_p: u32, order: Seq<u32>) -> Seq<u32> {
    let k = top_k_count(top_k, logits.len());
    nucleus(f, shares(f, order_exponentials(f, scaled(f, logits, temperature), order, k)), top_p)
}

/// Whether no number is missing where numbers have to be compared.
pub open spec fn comparable<F: Arithmetic>(f: &F, logits: Seq<u32>, temperature: u32) -> bool {
    logits.len() > 1 ==> forall|i: int| 0 <= i < logits.len() ==> !is_nan(f.quotient(#[trigger] logits[i], temperature))
}

/// Sorts pairs of integers, through `std`'s `sort_unstable` on a slice: the result has the same
/// pairs, and of two neighbours the first is not the greater. Pairs are ordered by their first
/// integer, and by their second where the first are equal.
#[verifier::external_body]
fn sort_pairs(list: &mut Vec<(i64, u32)>)
    ensures
        final(list)@.to_multiset() == old(list)@.to_multiset(),
        forall|i: int, j: int| 0 <= i < j < final(list)@.len() ==> pair_order(#[trigger] final(list)@[i], #[trigger] final(list)@[j]),
{
    list.sort_unstable();
}

/// Whether `a` is not greater than `b`.
pub open spec fn pair_order(a: (i64, u32), b: (i64, u32)) -> bool {
    a.0 < b.0 || (a.0 == b.0 && a.1 <= b.1)
}

/// The pairs that are sorted: what stands for each number, the greatest lowest, with its place.
pub open spec fn sort_keys(z: Seq<u32>) -> Seq<(i64, u32)> {
    Seq::new(z.len(), |i: int| ((-rank(z[i])) as i64, i as u32))
}

/// Lists the places of the numbers, the greatest number first.
fn descending(z: &[u32]) -> (r: Vec<u32>)
    requires
        z@.len() <= 0x1_0000_0000,
    ensures
        is_descending(z@, r@),
{
    let ghost want = sort_keys(z@);
    let mut list: Vec<(i64, u32)> = Vec::with_capacity(z.len());
    let mut i: usize = 0;
    while i < z.len()
        invariant
            i <= z@.len(),
            z@.len() <= 0x1_0000_0000,
            want == sort_keys(z@),
            list@.len() == i,
            forall|k: int| 0 <= k < i ==> #[trigger] list@[k] == want[k],
        decreases z@.len() - i,
    {
        let r: i64 = rank_of(z[i]);
        list.push((-r, i as u32));
        i = i + 1;
    }
    assert(list@ =~= want);
    sort_pairs(&mut list);
    proof {
        lemma_sorted_keys(z@, list@);
    }
    let mut out: Vec<u32> = Vec::with_capacity(z.len());
    let mut k: usize = 0;
    while k < list.len()
        invariant
            k <= list@.len(),
            out@.len() == k,
            forall|j: int| 0 <= j < k ==> #[trigger] out@[j] == list@[j].1,
        decreases list@.len() - k,
    {
        out.push(list[k].1);
        k = k + 1;
    }
    proof {
        assert forall|a: int, b: int| 0 <= a < b < out@.len() implies ahead(z@, #[trigger] out@[a], #[trigger] out@[b]) by {
            assert(list@[a].1 < z@.len() && list@[b].1 < z@.len());
        }
    }
    out
}

/// What sorted keys say.
proof fn lemma_sorted_keys(z: Seq<u32>, list: Seq<(i64, u32)>)
    requires
        z.len() <= 0x1_0000_0000,
        list.to_multiset() == sort_keys(z).to_multiset(),
        forall|i: int, j: int| 0 <= i < j < list.len() ==> pair_order(#[trigger] list[i], #[trigger] list[j]),
    ensures
        list.len() == z.len(),
        forall|i: int| 0 <= i < list.len() ==> (#[trigger] list[i]).1 < z.len() && list[i].0 == -rank(z[list[i].1 as int]),
        forall|i: int, j: int| 0 <= i < j < list.len() ==> ahead(z, (#[trigger] list[i]).1, (#[trigger] list[j]).1),
{
    let want = sort_keys(z);
    broadcast use group_to_multiset_ensures;

    assert(list.len() == list.to_multiset().len());
    assert(want.len() == want.to_multiset().len());
    assert forall|i: int| 0 <= i < list.len() implies (#[trigger] list[i]).1 < z.len() && list[i].0 == -rank(z[list[i].1 as int]) by {
        assert(list.contains(list[i]));
        assert(list.to_multiset().count(list[i]) > 0);
        assert(want.contains(list[i]));
        let k = choose|k: int| 0 <= k < want.len() && want[k] == list[i];
        assert(want[k] == ((-rank(z[k])) as i64, k as u32));
    }
    assert(want.no_duplicates()) by {
        assert forall|i: int, j: int| 0 <= i < want.len() && 0 <= j < want.len() && i != j implies want[i] != want[j] by {
            assert(want[i].1 == i && want[j].1 == j);
        }
    }
    want.lemma_multiset_has_no_duplicates();
    assert forall|i: int, j: int| 0 <= i < j < list.len() implies ahead(z, (#[trigger] list[i]).1, (#[trigger] list[j]).1) by {
        assert(pair_order(list[i], list[j]));
        if list[i] == list[j] {
            lemma_twice(list, i, j);
            assert(want.to_multiset().count(list[i]) <= 1) by {
                assert(want.to_multiset().contains(list[i]));
            }
        }
    }
}

/// What stands at two places occurs at least twice.
proof fn lemma_twice(list: Seq<(i64, u32)>, i: int, j: int)
    requires
        0 <= i < j < list.len(),
        list[i] == list[j],
    ensures
        list.to_multiset().count(list[i]) >= 2,
{
    broadcast use group_to_multiset_ensures;

    let without = list.remove(i);
    assert(without[j - 1] == list[j]);
    assert(without.contains(list[i]));
    assert(without.to_multiset() == list.to_multiset().remove(list[i]));
    assert(without.to_multiset().count(list[i]) > 0);
}

/// There is one such order.
pub proof fn lemma_descending_unique(z: Seq<u32>, a: Seq<u32>, b: Seq<u32>)
    requires
        is_descending(z, a),
        is_descending(z, b),
    ensures
        a == b,
{
    lemma_order_is_all(z, a);
    lemma_order_is_all(z, b);
    if a != b {
        let k = first_difference(a, b, 0);
        lemma_first_difference(a, b, 0);
        let i = choose|i: int| 0 <= i < b.len() && b[i] == a[k];
        assert(b.contains(a[k]));
        assert(a.contains(b[k]));
        let j = choose|j: int| 0 <= j < a.len() && a[j] == b[k];
        if i < k {
            assert(a[i] == b[i]);
            assert(ahead(z, a[i], a[k]));
        } else if j < k {
            assert(b[j] == a[j]);
            assert(ahead(z, b[j], b[k]));
        } else {
            assert(i > k && j > k);
            assert(ahead(z, b[k], b[i]));
            assert(ahead(z, a[k], a[j]));
        }
    }
}

/// The first place from `k` on where two lists differ.
spec fn first_difference(a: Seq<u32>, b: Seq<u32>, k: int) -> int
    decreases a.len() - k,
{
    if k >= a.len() || a[k] != b[k] {
        k
    } else {
        first_difference(a, b, k + 1)
    }
}

/// Two different lists of one length that agree before `k` differ at a first place.
proof fn lemma_first_difference(a: Seq<u32>, b: Seq<u32>, k: int)
    requires
        a.len() == b.len(),
        a != b,
        0 <= k <= a.len(),
        forall|i: int| 0 <= i < k ==> a[i] == b[i],
    ensures
        0 <= first_difference(a, b, k) < a.len(),
        a[first_difference(a, b, k)] != b[first_difference(a, b, k)],
        forall|i: int| 0 <= i < first_difference(a, b, k) ==> a[i] == b[i],
    decreases a.len() - k,
{
    if k == a.len() {
        assert(a =~= b);
    } else if a[k] == b[k] {
        lemma_first_difference(a, b, k + 1);
    }
}

/// A list of all places without repetition holds each place.
pub proof fn lemma_order_is_all(z: Seq<u32>, order: Seq<u32>)
    requires
        is_descending(z, order),
    ensures
        forall|x: u32| x < z.len() ==> #[trigger] order.contains(x),
{
    assert(order.no_duplicates()) by {
        assert forall|i: int, j: int| 0 <= i < order.len() && 0 <= j < order.len() && i != j implies order[i] != order[j] by {
            if i < j {
                assert(ahead(z, order[i], order[j]));
            } else {
                assert(ahead(z, order[j], order[i]));
            }
        }
    }
    order.unique_seq_to_set();
    let n = z.len() as int;
    let range = set_int_range(0, n);
    lemma_int_range(0, n);
    let ints = order.map_values(|x: u32| x as int);
    assert(ints.no_duplicates());
    ints.unique_seq_to_set();
    assert(ints.to_set().subset_of(range)) by {
        assert forall|x: int| ints.to_set().contains(x) implies range.contains(x) by {
            let i = choose|i: int| 0 <= i < ints.len() && ints[i] == x;
            assert(order[i] < z.len());
        }
    }
    lemma_set_subset_finite(range, ints.to_set());
    lemma_subset_equality(ints.to_set(), range);
    assert forall|x: u32| x < z.len() implies #[trigger] order.contains(x) by {
        assert(range.contains(x as int));
        let i = choose|i: int| 0 <= i < ints.len() && ints[i] == x as int;
        assert(order[i] == x);
    }
}

/// The places of the numbers, the greatest number first; of equal ones the first first.
pub open spec fn descending_order(z: Seq<u32>) -> Seq<u32> {
    choose|order: Seq<u32>| is_descending(z, order)
}

/// The candidates, with their probabilities.
pub open spec fn candidates<F: Arithmetic>(f: &F, logits: Seq<u32>, temperature: u32, top_k: usize, top_p: u32) -> Seq<(u32, u32)> {
    let order = descending_order(scaled(f, logits, temperature));
    let p = candidate_shares(f, logits, temperature, top_k, top_p, order);
    Seq::new(p.len(), |i: int| (order[i], p[i]))
}

/// The place of the candidate that the number `u` between 0 and 1 falls on: the first of the first
/// `n` at which the sum of the probabilities exceeds it.
pub open spec fn falls_on<F: Arithmetic>(f: &F, p: Seq<u32>, u: u32, n: nat) -> Option<int>
    decreases n,
{
    if n == 0 {
        None
    } else {
        match falls_on(f, p, u, (n - 1) as nat) {
            Some(i) => Some(i),
            None => if less(u, total(f, p, n)) {
                Some(n - 1)
            } else {
                None
            },
        }
    }
}

/// The candidate that the number `u` falls on, and the last one if it falls on none.
pub open spec fn drawn<F: Arithmetic>(f: &F, cand: Seq<(u32, u32)>, u: u32) -> u32 {
    let p = Seq::new(cand.len(), |i: int| cand[i].1);
    match falls_on(f, p, u, p.len()) {
        Some(i) => cand[i].0,
        None => cand.last().0,
    }
}

/// Turns numbers into their shares of their sum.
fn take_shares<F: Arithmetic>(f: &F, x: &[u32]) -> (r: Vec<u32>)
    requires
        f.wf(),
    ensures
        r@ == shares(f, x@),
{
    let mut sum: u32 = ZERO;
    let mut i: usize = 0;
    while i < x.len()
        invariant
            i <= x@.len(),
            f.wf(),
            sum == total(f, x@, i as nat),
        decreases x@.len() - i,
    {
        sum = f.plus(sum, x[i]);
        i = i + 1;
    }
    let mut out: Vec<u32> = Vec::with_capacity(x.len());
    let mut k: usize = 0;
    while k < x.len()
        invariant
            k <= x@.len(),
            f.wf(),
            sum == total(f, x@, x@.len()),
            out@.len() == k,
            forall|j: int| 0 <= j < k ==> #[trigger] out@[j] == f.quotient(x@[j], sum),
        decreases x@.len() - k,
    {
        out.push(f.over(x[k], sum));
        k = k + 1;
    }
    assert(out@ =~= shares(f, x@));
    out
}

/// Once the limit is crossed, more probabilities change nothing.
proof fn lemma_crossing<F: Arithmetic>(f: &F, p: Seq<u32>, top_p: u32, n: nat, m: nat)
    requires
        n <= m,
        crossing(f, p, top_p, n) is Some,
    ensures
        crossing(f, p, top_p, m) == crossing(f, p, top_p, n),
    decreases m,
{
    if n < m {
        lemma_crossing(f, p, top_p, n, (m - 1) as nat);
    }
}

/// Cuts probabilities off where their sum reaches `top_p`, and renormalizes them.
fn take_nucleus<F: Arithmetic>(f: &F, p: Vec<u32>, top_p: u32) -> (r: Vec<u32>)
    requires
        f.wf(),
    ensures
        r@ == nucleus(f, p@, top_p),
        r@.len() <= p@.len(),
{
    if !is_less(top_p, ONE) {
        return p;
    }
    let mut cum: u32 = ZERO;
    let mut i: usize = 0;
    let mut keep: usize = p.len();
    let mut crossed: bool = false;
    while i < p.len() && !crossed
        invariant
            i <= p@.len(),
            f.wf(),
            cum == total(f, p@, i as nat),
            keep <= p@.len(),
            crossed ==> crossing(f, p@, top_p, p@.len()) == Some(keep as nat),
            !crossed ==> keep == p@.len() && crossing(f, p@, top_p, i as nat) is None,
        decreases p@.len() - i,
    {
        cum = f.plus(cum, p[i]);
        i = i + 1;
        if is_less(top_p, cum) || is_equal(top_p, cum) {
            keep = i;
            crossed = true;
            proof {
                lemma_crossing(f, p@, top_p, i as nat, p@.len());
            }
        }
    }
    assert(keep == top_p_count(f, p@, top_p));
    let kept: &[u32] = vstd::slice::slice_subrange(p.as_slice(), 0, keep);
    assert(kept@ =~= p@.take(keep as int));
    take_shares(f, kept)
}

/// Once a candidate is found, more change nothing.
proof fn lemma_falls_on<F: Arithmetic>(f: &F, p: Seq<u32>, u: u32, n: nat, m: nat)
    requires
        n <= m,
        falls_on(f, p, u, n) is Some,
    ensures
        falls_on(f, p, u, m) == falls_on(f, p, u, n),
    decreases m,
{
    if n < m {
        lemma_falls_on(f, p, u, n, (m - 1) as nat);
    }
}

/// Finds the candidate that the number `u` falls on.
pub fn draw<F: Arithmetic>(f: &F, cand: &[(u32, u32)], u: u32) -> (r: u32)
    requires
        f.wf(),
        cand@.len() > 0,
    ensures
        r == drawn(f, cand@, u),
        exists|i: int| 0 <= i < cand@.len() && (#[trigger] cand@[i]).0 == r,
{
    let ghost p = Seq::new(cand@.len(), |i: int| cand@[i].1);
    let mut cum: u32 = ZERO;
    let mut i: usize = 0;
    while i < cand.len()
        invariant
            i <= cand@.len(),
            f.wf(),
            p == Seq::new(cand@.len(), |k: int| cand@[k].1),
            cum == total(f, p, i as nat),
            falls_on(f, p, u, i as nat) is None,
        decreases cand@.len() - i,
    {
        cum = f.plus(cum, cand[i].1);
        if is_less(u, cum) {
            proof {
                lemma_falls_on(f, p, u, (i + 1) as nat, p.len());
            }
            return cand[i].0;
        }
        i = i + 1;
    }
    assert(cand@[cand@.len() - 1].0 == cand@.last().0);
    cand[cand.len() - 1].0
}

// ---------------------------------------------------------------------------
// The sampler.
// ---------------------------------------------------------------------------

/// How many of the last tokens the repeat penalty looks at.
pub const REPEAT_WINDOW: usize = 64;

/// Chooses tokens. Numbers are single-precision patterns.
#[derive(Debug, Clone, Copy, PartialEq, Eq, Structural)]
pub struct Sampler {
    pub temperature: u32,
    /// 0 cuts nothing off.
    pub top_k: usize,
    /// 1 cuts nothing off.
    pub top_p: u32,
    /// 1 penalizes nothing.
    pub repeat_penalty: u32,
    pub repeat_window: usize,
    pub rng: Pcg32,
    pub draws: u64,
}

impl Sampler {
    /// Whether the likeliest token is taken without a draw.
    pub open spec fn is_greedy(self) -> bool {
        equal(self.temperature, ZERO) || self.top_k == 1
    }

    /// The sampler after one draw.
    pub open spec fn after_draw(self) -> Sampler {
        Sampler {
            temperature: self.temperature,
            top_k: self.top_k,
            top_p: self.top_p,
            repeat_penalty: self.repeat_penalty,
            repeat_window: self.repeat_window,
            rng: self.rng.stepped(),
            draws: (self.draws + 1) as u64,
        }
    }

    /// The token that is chosen, and the sampler behind it.
    pub open spec fn chosen<F: Arithmetic>(self, f: &F, logits: Seq<u32>, recent: Seq<u32>) -> (u32, Sampler) {
        let lg = with_penalty(f, logits, recent, self.repeat_penalty);
        if self.is_greedy() {
            (argmax_of(lg), self)
        } else {
            (drawn(f, candidates(f, lg, self.temperature, self.top_k, self.top_p), self.rng.unit(f)), self.after_draw())
        }
    }

    /// Whether a token can be chosen: the recent tokens have logits, and where numbers have to be
    /// compared none is missing.
    pub open spec fn can_choose<F: Arithmetic>(self, f: &F, logits: Seq<u32>, recent: Seq<u32>) -> bool {
        &&& !equal(self.repeat_penalty, ONE) ==> forall|i: int| 0 <= i < recent.len() ==> #[trigger] recent[i] < logits.len()
        &&& !self.is_greedy() ==> {
            &&& 0 < logits.len() <= 0x1_0000_0000
            &&& self.draws < u64::MAX
            &&& comparable(f, with_penalty(f, logits, recent, self.repeat_penalty), self.temperature)
        }
    }

    /// A sampler with these settings, before the first draw.
    pub open spec fn made(temperature: u32, top_k: usize, top_p: u32, repeat_penalty: u32, seed: u64) -> Sampler {
        Sampler {
            temperature,
            top_k,
            top_p,
            repeat_penalty,
            repeat_window: REPEAT_WINDOW,
            rng: Pcg32::seeded(seed),
            draws: 0,
        }
    }

    /// A sampler with these settings, whose draws the seed determines.
    pub fn new(temperature: u32, top_k: usize, top_p: u32, repeat_penalty: u32, seed: u64) -> (r: Sampler)
        ensures
            r == Sampler::made(temperature, top_k, top_p, repeat_penalty, seed),
    {
        Sampler { temperature, top_k, top_p, repeat_penalty, repeat_window: REPEAT_WINDOW, rng: Pcg32::new(seed), draws: 0 }
    }

    /// How many draws were taken so far.
    pub fn draws(&self) -> (r: u64)
        ensures
            r == self.draws,
    {
        self.draws
    }

    /// The candidates, with their probabilities, the likeliest first: temperature, top-k, softmax,
    /// top-p, renormalization.
    pub fn filtered<F: Arithmetic>(&self, f: &F, logits: &[u32]) -> (r: Vec<(u32, u32)>)
        requires
            f.wf(),
            0 < logits@.len() <= 0x1_0000_0000,
            comparable(f, logits@, self.temperature),
        ensures
            r@ == candidates(f, logits@, self.temperature, self.top_k, self.top_p),
            forall|i: int| 0 <= i < r@.len() ==> (#[trigger] r@[i]).0 < logits@.len(),
    {
        let n: usize = logits.len();
        let mut z: Vec<u32> = Vec::with_capacity(n);
        let mut i: usize = 0;
        while i < n
            invariant
                i <= n,
                n == logits@.len(),
                f.wf(),
                z@.len() == i,
                forall|k: int| 0 <= k < i ==> #[trigger] z@[k] == f.quotient(logits@[k], self.temperature),
            decreases n - i,
        {
            z.push(f.over(logits[i], self.temperature));
            i = i + 1;
        }
        assert(z@ =~= scaled(f, logits@, self.temperature));
        let order: Vec<u32> = descending(z.as_slice());
        proof {
            lemma_descending_unique(z@, order@, descending_order(z@));
        }
        let k: usize = if self.top_k > 0 && self.top_k < n {
            self.top_k
        } else {
            n
        };
        assert(order@[0] < z@.len());
        let max: u32 = z[order[0] as usize];
        let ghost e = order_exponentials(f, z@, order@, k as nat);
        let mut exps: Vec<u32> = Vec::with_capacity(k);
        let mut j: usize = 0;
        while j < k
            invariant
                j <= k <= n,
                f.wf(),
                n == z@.len(),
                order@.len() == n,
                forall|a: int| 0 <= a < order@.len() ==> #[trigger] order@[a] < z@.len(),
                max == z@[order@[0] as int],
                e == order_exponentials(f, z@, order@, k as nat),
                exps@.len() == j,
                forall|a: int| 0 <= a < j ==> #[trigger] exps@[a] == e[a],
            decreases k - j,
        {
            let at: usize = order[j] as usize;
            exps.push(f.exp(f.minus(z[at], max)));
            j = j + 1;
        }
        assert(exps@ =~= e);
        let p: Vec<u32> = take_shares(f, exps.as_slice());
        let kept: Vec<u32> = take_nucleus(f, p, self.top_p);
        let mut out: Vec<(u32, u32)> = Vec::with_capacity(kept.len());
        let mut a: usize = 0;
        while a < kept.len()
            invariant
                a <= kept@.len(),
                kept@.len() <= order@.len(),
                out@.len() == a,
                forall|b: int| 0 <= b < a ==> #[trigger] out@[b] == (order@[b], kept@[b]),
            decreases kept@.len() - a,
        {
            out.push((order[a], kept[a]));
            a = a + 1;
        }
        assert(out@ =~= candidates(f, logits@, self.temperature, self.top_k, self.top_p));
        out
    }

    /// Chooses a token: the likeliest where the temperature is 0 or one candidate is asked for, and
    /// without a draw; else one of the candidates by a draw.
    pub fn sample<F: Arithmetic>(&mut self, f: &F, logits: &[u32], recent: &[u32]) -> (r: u32)
        requires
            f.wf(),
            old(self).can_choose(f, logits@, recent@),
        ensures
            (r, *final(self)) == old(self).chosen(f, logits@, recent@),
            0 < logits@.len() <= 0x1_0000_0000 ==> r < logits@.len(),
    {
        f.mark(Op::Sample, true);
        let mut lg: Vec<u32> = vstd::slice::slice_to_vec(logits);
        apply_repeat_penalty(f, &mut lg, recent, self.repeat_penalty);
        if is_equal(self.temperature, ZERO) || self.top_k == 1 {
            let best: u32 = argmax(lg.as_slice());
            proof {
                lemma_largest_place_bound(lg@, lg@.len() as int);
            }
            f.mark(Op::Sample, false);
            return best;
        }
        let cand: Vec<(u32, u32)> = self.filtered(f, lg.as_slice());
        let u: u32 = self.rng.next_f32(f);
        self.draws = self.draws + 1;
        proof {
            lemma_candidates(f, lg@, self.temperature, self.top_k, self.top_p);
        }
        let chosen: u32 = draw(f, cand.as_slice(), u);
        f.mark(Op::Sample, false);
        chosen
    }

    /// Whether a token can be chosen.
    pub fn check<F: Arithmetic>(&self, f: &F, logits: &[u32], recent: &[u32]) -> (r: bool)
        requires
            f.wf(),
        ensures
            r == self.can_choose(f, logits@, recent@),
    {
        if !is_equal(self.repeat_penalty, ONE) {
            let mut i: usize = 0;
            while i < recent.len()
                invariant
                    i <= recent@.len(),
                    !equal(self.repeat_penalty, ONE),
                    forall|k: int| 0 <= k < i ==> #[trigger] recent@[k] < logits@.len(),
                decreases recent@.len() - i,
            {
                if recent[i] as usize >= logits.len() {
                    return false;
                }
                i = i + 1;
            }
        }
        if is_equal(self.temperature, ZERO) || self.top_k == 1 {
            return true;
        }
        if logits.len() == 0 || logits.len() as u64 > 0x1_0000_0000 || self.draws == u64::MAX {
            return false;
        }
        let mut lg: Vec<u32> = vstd::slice::slice_to_vec(logits);
        apply_repeat_penalty(f, &mut lg, recent, self.repeat_penalty);
        if lg.len() == 1 {
            return true;
        }
        let mut k: usize = 0;
        while k < lg.len()
            invariant
                k <= lg@.len(),
                f.wf(),
                !self.is_greedy(),
                lg@ == with_penalty(f, logits@, recent@, self.repeat_penalty),
                lg@.len() > 1,
                forall|j: int| 0 <= j < k ==> !is_nan(f.quotient(#[trigger] lg@[j], self.temperature)),
            decreases lg@.len() - k,
        {
            if nan(f.over(lg[k], self.temperature)) {
                assert(is_nan(f.quotient(lg@[k as int], self.temperature)));
                return false;
            }
            k = k + 1;
        }
        true
    }
}

/// A sum is reached at one of the probabilities.
pub proof fn lemma_crossing_count<F: Arithmetic>(f: &F, p: Seq<u32>, top_p: u32, n: nat)
    ensures
        crossing(f, p, top_p, n) matches Some(k) ==> 0 < k <= n,
    decreases n,
{
    if n > 0 {
        lemma_crossing_count(f, p, top_p, (n - 1) as nat);
    }
}

/// The places of numbers can be listed by size.
pub proof fn lemma_descending_order(z: Seq<u32>)
    requires
        z.len() <= 0x1_0000_0000,
    ensures
        is_descending(z, descending_order(z)),
{
    let keys = sort_keys(z);
    let leq = |a: (i64, u32), b: (i64, u32)| pair_order(a, b);
    keys.lemma_sort_by_ensures(leq);
    let list = keys.sort_by(leq);
    assert forall|i: int, j: int| 0 <= i < j < list.len() implies pair_order(#[trigger] list[i], #[trigger] list[j]) by {
        assert(leq(list[i], list[j]));
    }
    lemma_sorted_keys(z, list);
    let order = Seq::new(list.len(), |i: int| list[i].1);
    assert(is_descending(z, order));
}

/// Whether a token is one of the candidates.
pub open spec fn is_candidate(cand: Seq<(u32, u32)>, x: u32) -> bool {
    exists|i: int| 0 <= i < cand.len() && (#[trigger] cand[i]).0 == x
}

/// There is a candidate where there is a logit, and no more of them than logits. Top-k leaves as many
/// as it asks for, where there are more logits; 0 leaves all. Top-p from 1 on leaves all. The
/// candidates are different tokens, the likeliest first, and the other tokens are less likely.
pub proof fn lemma_candidates<F: Arithmetic>(f: &F, logits: Seq<u32>, temperature: u32, top_k: usize, top_p: u32)
    requires
        0 < logits.len() <= 0x1_0000_0000,
    ensures
        ({
            let z = scaled(f, logits, temperature);
            let cand = candidates(f, logits, temperature, top_k, top_p);
            &&& 0 < cand.len() <= top_k_count(top_k, logits.len()) <= logits.len()
            &&& !less(top_p, ONE) ==> cand.len() == top_k_count(top_k, logits.len())
            &&& forall|i: int| 0 <= i < cand.len() ==> (#[trigger] cand[i]).0 < logits.len()
            &&& forall|i: int, j: int| 0 <= i < j < cand.len() ==> ahead(z, (#[trigger] cand[i]).0, (#[trigger] cand[j]).0)
            &&& forall|i: int, x: u32|
                0 <= i < cand.len() && x < logits.len() && !(#[trigger] is_candidate(cand, x)) ==> ahead(z, (#[trigger] cand[i]).0, x)
        }),
{
    let z = scaled(f, logits, temperature);
    let order = descending_order(z);
    let k = top_k_count(top_k, logits.len());
    let p = shares(f, order_exponentials(f, z, order, k));
    let cand = candidates(f, logits, temperature, top_k, top_p);
    lemma_crossing_count(f, p, top_p, p.len());
    lemma_descending_order(z);
    lemma_order_is_all(z, order);
    assert forall|i: int, x: u32| 0 <= i < cand.len() && x < logits.len() && !(#[trigger] is_candidate(cand, x)) implies ahead(
        z,
        (#[trigger] cand[i]).0,
        x,
    ) by {
        assert(order.contains(x));
        let at = choose|at: int| 0 <= at < order.len() && order[at] == x;
        if at < cand.len() {
            assert(cand[at].0 == x);
        }
        assert(ahead(z, order[i], order[at]));
    }
}

/// The token that is drawn is one of the candidates.
pub proof fn lemma_drawn_is_candidate<F: Arithmetic>(f: &F, cand: Seq<(u32, u32)>, u: u32)
    requires
        cand.len() > 0,
    ensures
        is_candidate(cand, drawn(f, cand, u)),
{
    let p = Seq::new(cand.len(), |i: int| cand[i].1);
    lemma_place_of_draw(f, p, u, p.len());
    match falls_on(f, p, u, p.len()) {
        Some(i) => {
            assert(drawn(f, cand, u) == cand[i].0);
        },
        None => {
            assert(drawn(f, cand, u) == cand[cand.len() - 1].0);
        },
    }
}

/// A number falls on one of the first candidates.
proof fn lemma_place_of_draw<F: Arithmetic>(f: &F, p: Seq<u32>, u: u32, n: nat)
    ensures
        falls_on(f, p, u, n) matches Some(i) ==> 0 <= i < n,
    decreases n,
{
    if n > 0 {
        lemma_place_of_draw(f, p, u, (n - 1) as nat);
    }
}

// ---------------------------------------------------------------------------
// Call after call.
// ---------------------------------------------------------------------------

/// The tokens that a sampler chooses in the first `n` of these calls, each with its logits and recent
/// tokens, and the sampler behind them.
pub open spec fn sampled<F: Arithmetic>(f: &F, s: Sampler, calls: Seq<(Seq<u32>, Seq<u32>)>, n: nat) -> (Seq<u32>, Sampler)
    decreases n,
{
    if n == 0 {
        (seq![], s)
    } else {
        let (before, at) = sampled(f, s, calls, (n - 1) as nat);
        let (next, after) = at.chosen(f, calls[n - 1].0, calls[n - 1].1);
        (before.push(next), after)
    }
}

/// What holds of a sampler after some calls: its settings are the same. If it takes the likeliest
/// token it has drawn nothing, and its generator is as it was; else it has drawn once for each call.
/// Each token has a logit, and a greedy one is the first of the largest logits, penalized.
pub proof fn lemma_sampled<F: Arithmetic>(f: &F, s: Sampler, calls: Seq<(Seq<u32>, Seq<u32>)>, n: nat)
    requires
        n <= calls.len(),
        s.draws + n <= u64::MAX,
        forall|i: int| 0 <= i < n ==> 0 < (#[trigger] calls[i]).0.len() <= 0x1_0000_0000,
    ensures
        ({
            let (ids, at) = sampled(f, s, calls, n);
            &&& ids.len() == n
            &&& forall|i: int| 0 <= i < n ==> #[trigger] ids[i] < calls[i].0.len()
            &&& at.temperature == s.temperature
            &&& at.top_k == s.top_k
            &&& at.top_p == s.top_p
            &&& at.repeat_penalty == s.repeat_penalty
            &&& at.repeat_window == s.repeat_window
            &&& s.is_greedy() ==> at == s && forall|i: int|
                0 <= i < n ==> #[trigger] ids[i] == argmax_of(with_penalty(f, calls[i].0, calls[i].1, s.repeat_penalty))
            &&& !s.is_greedy() ==> at.draws == s.draws + n
        }),
    decreases n,
{
    if n > 0 {
        let m = (n - 1) as nat;
        lemma_sampled(f, s, calls, m);
        let (before, at) = sampled(f, s, calls, m);
        let (logits, recent) = calls[m as int];
        assert(0 < logits.len() <= 0x1_0000_0000);
        let lg = with_penalty(f, logits, recent, at.repeat_penalty);
        if at.is_greedy() {
            lemma_largest_place_bound(lg, lg.len() as int);
        } else {
            lemma_candidates(f, lg, at.temperature, at.top_k, at.top_p);
            let cand = candidates(f, lg, at.temperature, at.top_k, at.top_p);
            lemma_drawn_is_candidate(f, cand, at.rng.unit(f));
        }
    }
}

/// The seed determines the stream: samplers made with equal arguments choose equal tokens in equal
/// calls, and are equal behind them.
pub proof fn lemma_same_seed<F: Arithmetic>(f: &F, a: Sampler, b: Sampler, temperature: u32, top_k: usize, top_p: u32, repeat_penalty: u32, seed: u64, calls: Seq<(Seq<u32>, Seq<u32>)>)
    requires
        a == Sampler::made(temperature, top_k, top_p, repeat_penalty, seed),
        b == Sampler::made(temperature, top_k, top_p, repeat_penalty, seed),
    ensures
        sampled(f, a, calls, calls.len()) == sampled(f, b, calls, calls.len()),
{
}

} // verus!
