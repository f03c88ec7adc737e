//! The parts of a transformer block: biased products, rotary positions, attention.

use vstd::arithmetic::div_mod::*;
use vstd::prelude::*;

use crate::float::{Arithmetic, MINUS_TWO, NEGATIVE_INFINITY, ONE, ZERO};
use crate::perf::Op;
use crate::tensor::{all_softmaxed, copy_shape, lemma_push_row, lemma_row_bounds, lemma_shape2, lemma_shape3, plain_dot, products_added, row, row_slice, rows, softmax, softmaxed, Tensor};
use crate::weights::{Weight, WeightView};

verus! {

// ---------------------------------------------------------------------------
// Products with a bias.
// ---------------------------------------------------------------------------

/// The bias added to each row.
pub open spec fn biased<F: Arithmetic>(f: &F, x: Seq<Seq<u32>>, bias: Seq<u32>) -> Seq<Seq<u32>> {
    Seq::new(x.len(), |s: int| Seq::new(x[s].len(), |o: int| f.sum(x[s][o], bias[o])))
}

/// The product of activation rows with a weight, with a bias where there is one.
pub open spec fn linear_of<F: Arithmetic>(f: &F, x: Seq<Seq<u32>>, w: WeightView, bias: Option<Seq<u32>>) -> Seq<Seq<u32>> {
    match bias {
        Some(b) => biased(f, w.product(f, x), b),
        None => w.product(f, x),
    }
}

/// [seq, in] times [out, in] gives [seq, out], with the bias added to each row.
pub fn linear<F: Arithmetic>(f: &F, x: &Tensor, w: &Weight, bias: Option<&Tensor>) -> (r: Tensor)
    requires
        f.wf(),
        w.wf(),
        w@.fits(w@.out_dim(), w@.in_dim()),
        x.wf(),
        x.shape@.len() == 2,
        x.shape@[1] == w@.in_dim(),
        x.shape@[0] * w@.out_dim() <= usize::MAX,
        bias matches Some(b) ==> b.wf() && b.shape@ == seq![w@.out_dim() as usize],
    ensures
        r.is_matrix(x.shape@[0] as int, w@.out_dim()),
        r.matrix() == linear_of(
            f,
            x.matrix(),
            w@,
            match bias {
                Some(b) => Some(b.data@),
                None => None,
            },
        ),
{
    let product: Tensor = w.matmul(f, x);
    let b: &Tensor = match bias {
        Some(b) => b,
        None => return product,
    };
    let n: usize = product.shape[0];
    let cols: usize = product.shape[1];
    let ghost before = product.matrix();
    let ghost all = biased(f, before, b.data@);
    proof {
        product.lemma_matrix();
        crate::tensor::lemma_shape1(cols);
    }
    let mut data: Vec<u32> = Vec::with_capacity(product.data.len());
    let mut s: usize = 0;
    assert(rows(data@, 0, cols as int) =~= all.take(0));
    assert(0 * cols == 0) by (nonlinear_arith);
    while s < n
        invariant
            s <= n,
            f.wf(),
            product.data@.len() == n * cols,
            product.data@.len() <= usize::MAX,
            b.data@.len() == cols,
            before == rows(product.data@, n as int, cols as int),
            all == biased(f, before, b.data@),
            data@.len() == s * cols,
            rows(data@, s as int, cols as int) == all.take(s as int),
        decreases n - s,
    {
        proof {
            lemma_row_bounds(s as int, n as int, cols as int);
        }
        let from: &[u32] = row_slice(product.data.as_slice(), s, cols);
        let mut out: Vec<u32> = Vec::with_capacity(cols);
        let mut o: usize = 0;
        while o < cols
            invariant
                o <= cols,
                f.wf(),
                from@.len() == cols,
                b.data@.len() == cols,
                out@.len() == o,
                forall|k: int| 0 <= k < o ==> #[trigger] out@[k] == f.sum(from@[k], b.data@[k]),
            decreases cols - o,
        {
            out.push(f.plus(from[o], b.data[o]));
            o = o + 1;
        }
        proof {
            assert(before[s as int] == from@);
            assert(out@ =~= all[s as int]);
            lemma_push_row(data@, s as int, cols as int, out@);
            assert(all.take(s + 1) =~= all.take(s as int).push(all[s as int]));
        }
        data.append(&mut out);
        s = s + 1;
    }
    assert(all.take(n as int) =~= all);
    proof {
        assert(product.shape@ =~= seq![n, cols]);
        lemma_shape2(n, cols);
    }
    Tensor::from_vec(data, copy_shape(product.shape.as_slice()))
}

// ---------------------------------------------------------------------------
// Rotary positions.
// ---------------------------------------------------------------------------

/// The angle by which the pair `i` of a head is turned at a position: the position times
/// theta^(-2i/head_dim).
pub open spec fn angle<F: Arithmetic>(f: &F, i: int, head_dim: usize, theta: u32, pos: int) -> u32 {
    let exponent = f.quotient(f.product(MINUS_TWO, f.natural(i as usize)), f.natural(head_dim));
    f.product(f.natural(pos as usize), f.power(theta, exponent))
}

/// A row with each head turned: the number at `i` in a head pairs with that at `i + head_dim / 2`.
pub open spec fn turned<F: Arithmetic>(f: &F, x: Seq<u32>, head_dim: usize, theta: u32, pos: int) -> Seq<u32> {
    let half = head_dim as int / 2;
    Seq::new(
        x.len(),
        |j: int|
            {
                let i = j % head_dim as int;
                if i < half {
                    let a = angle(f, i, head_dim, theta, pos);
                    f.difference(f.product(x[j], f.cosine(a)), f.product(x[j + half], f.sine(a)))
                } else if i < 2 * half {
                    let a = angle(f, i - half, head_dim, theta, pos);
                    f.sum(f.product(x[j - half], f.sine(a)), f.product(x[j], f.cosine(a)))
                } else {
                    x[j]
                }
            },
    )
}

/// Rows with their heads turned. Row `s` is at position `start + s`.
pub open spec fn all_turned<F: Arithmetic>(f: &F, x: Seq<Seq<u32>>, head_dim: usize, theta: u32, start: int) -> Seq<Seq<u32>> {
    Seq::new(x.len(), |s: int| turned(f, x[s], head_dim, theta, start + s))
}

/// Takes the angle of a pair.
fn angle_of<F: Arithmetic>(f: &F, i: usize, head_dim: usize, theta: u32, pos: usize) -> (r: u32)
    requires
        f.wf(),
    ensures
        r == angle(f, i as int, head_dim, theta, pos as int),
{
    let exponent: u32 = f.over(f.times(MINUS_TWO, f.from_usize(i)), f.from_usize(head_dim));
    let freq: u32 = f.raised(theta, exponent);
    f.times(f.from_usize(pos), freq)
}

/// Turns the heads of one row.
fn turn_row<F: Arithmetic>(f: &F, x: &[u32], n_heads: usize, head_dim: usize, theta: u32, pos: usize) -> (r: Vec<u32>)
    requires
        f.wf(),
        x@.len() == n_heads * head_dim,
    ensures
        r@ == turned(f, x@, head_dim, theta, pos as int),
{
    let half: usize = head_dim / 2;
    let mut out: Vec<u32> = Vec::with_capacity(x.len());
    let mut j: usize = 0;
    let ghost want = turned(f, x@, head_dim, theta, pos as int);
    while j < x.len()
        invariant
            j <= x@.len(),
            f.wf(),
            x@.len() == n_heads * head_dim,
            half == head_dim / 2,
            want == turned(f, x@, head_dim, theta, pos as int),
            out@.len() == j,
            forall|k: int| 0 <= k < j ==> #[trigger] out@[k] == want[k],
        decreases x@.len() - j,
    {
        proof {
            assert(head_dim > 0) by (nonlinear_arith)
                requires
                    j < n_heads * head_dim,
            ;
            let h = j as int / head_dim as int;
            lemma_fundamental_div_mod(j as int, head_dim as int);
            assert(0 <= h < n_heads) by (nonlinear_arith)
                requires
                    0 <= j < n_heads * head_dim,
                    head_dim > 0,
                    h == j as int / head_dim as int,
            ;
            lemma_row_bounds(h, n_heads as int, head_dim as int);
            assert(head_dim * h == h * head_dim) by (nonlinear_arith);
        }
        let i: usize = j % head_dim;
        assert(j + (head_dim - i) <= x@.len());
        let v: u32 = if i < half {
            let a: u32 = angle_of(f, i, head_dim, theta, pos);
            f.minus(f.times(x[j], f.cos(a)), f.times(x[j + half], f.sin(a)))
        } else if i - half < half {
            let a: u32 = angle_of(f, i - half, head_dim, theta, pos);
            f.plus(f.times(x[j - half], f.sin(a)), f.times(x[j], f.cos(a)))
        } else {
            x[j]
        };
        assert(v == want[j as int]);
        out.push(v);
        j = j + 1;
    }
    assert(out@ =~= want);
    out
}

/// Turns the heads of queries or keys by their positions. Row `s` is at the absolute position
/// `start_pos + s`.
pub fn rope<F: Arithmetic>(f: &F, x: &mut Tensor, n_heads: usize, head_dim: usize, theta: u32, start_pos: usize)
    requires
        f.wf(),
        old(x).wf(),
        old(x).shape@.len() == 2,
        old(x).shape@[1] == n_heads * head_dim,
        start_pos + old(x).shape@[0] <= usize::MAX,
    ensures
        final(x).wf(),
        final(x).shape == old(x).shape,
        final(x).matrix() == all_turned(f, old(x).matrix(), head_dim, theta, start_pos as int),
{
    f.mark(Op::Rope, true);
    let n: usize = x.shape[0];
    let cols: usize = x.shape[1];
    let ghost before = x.matrix();
    let ghost all = all_turned(f, before, head_dim, theta, start_pos as int);
    proof {
        x.lemma_matrix();
    }
    let mut data: Vec<u32> = Vec::with_capacity(x.data.len());
    let mut s: usize = 0;
    assert(rows(data@, 0, cols as int) =~= all.take(0));
    assert(0 * cols == 0) by (nonlinear_arith);
    while s < n
        invariant
            s <= n,
            f.wf(),
            x == old(x),
            x.data@.len() == n * cols,
            cols == n_heads * head_dim,
            start_pos + n <= usize::MAX,
            before == rows(x.data@, n as int, cols as int),
            all == all_turned(f, before, head_dim, theta, start_pos as int),
            data@.len() == s * cols,
            rows(data@, s as int, cols as int) == all.take(s as int),
        decreases n - s,
    {
        proof {
            lemma_row_bounds(s as int, n as int, cols as int);
        }
        let mut out: Vec<u32> = turn_row(f, row_slice(x.data.as_slice(), s, cols), n_heads, head_dim, theta, start_pos + s);
        proof {
            lemma_push_row(data@, s as int, cols as int, out@);
            assert(all.take(s + 1) =~= all.take(s as int).push(all[s as int]));
        }
        data.append(&mut out);
        s = s + 1;
    }
    assert(all.take(n as int) =~= all);
    x.data = data;
    f.mark(Op::Rope, false);
}

// ---------------------------------------------------------------------------
// Attention.
// ---------------------------------------------------------------------------

/// The key and value head that query head `h` reads: several query heads in a row share one.
pub open spec fn kv_head(h: int, n_heads: int, n_kv_heads: int) -> int {
    h / (n_heads / n_kv_heads)
}

/// How well a query matches a key: the dot product of their heads over the root of the head's size.
pub open spec fn score<F: Arithmetic>(f: &F, q: Seq<u32>, k: Seq<u32>, h: int, kv: int, head_dim: usize) -> u32 {
    let dot = plain_dot(f, row(q, h, head_dim as int), row(k, kv, head_dim as int));
    f.product(dot, f.quotient(ONE, f.root(f.natural(head_dim))))
}

/// How well a query matches each key. Keys behind the position `limit` match with negative infinity.
pub open spec fn scores<F: Arithmetic>(f: &F, q: Seq<u32>, ks: Seq<Seq<u32>>, h: int, kv: int, head_dim: usize, limit: int) -> Seq<u32> {
    Seq::new(
        ks.len(),
        |t: int|
            if t <= limit {
                score(f, q, ks[t], h, kv, head_dim)
            } else {
                NEGATIVE_INFINITY
            },
    )
}

/// The attention probabilities, one row for each head and query: row `h * n + s` for head `h` and
/// query `s` of `n`, which is at position `start + s`.
pub open spec fn probabilities<F: Arithmetic>(
    f: &F,
    qs: Seq<Seq<u32>>,
    ks: Seq<Seq<u32>>,
    n_heads: usize,
    n_kv_heads: usize,
    head_dim: usize,
    start: int,
) -> Seq<Seq<u32>> {
    let n = qs.len() as int;
    Seq::new(
        (n_heads * n) as nat,
        |i: int|
            softmaxed(
                f,
                scores(f, qs[i % n], ks, i / n, kv_head(i / n, n_heads as int, n_kv_heads as int), head_dim, start + i % n),
            ),
    )
}

/// The first `n` values at one column, each times its probability, added up.
pub open spec fn weighted<F: Arithmetic>(f: &F, p: Seq<u32>, vs: Seq<Seq<u32>>, col: int, n: nat) -> u32
    decreases n,
{
    if n == 0 {
        ZERO
    } else {
        f.sum(weighted(f, p, vs, col, (n - 1) as nat), f.product(p[n - 1], vs[n - 1][col]))
    }
}

/// What each of `n` queries reads from the values: the heads side by side.
pub open spec fn contexts<F: Arithmetic>(
    f: &F,
    probs: Seq<Seq<u32>>,
    vs: Seq<Seq<u32>>,
    n: nat,
    n_heads: usize,
    n_kv_heads: usize,
    head_dim: usize,
) -> Seq<Seq<u32>> {
    Seq::new(n, |s: int| context(f, probs, vs, n as int, s, n_heads, n_kv_heads, head_dim))
}

/// What query `s` of `n` reads from the values.
pub open spec fn context<F: Arithmetic>(
    f: &F,
    probs: Seq<Seq<u32>>,
    vs: Seq<Seq<u32>>,
    n: int,
    s: int,
    n_heads: usize,
    n_kv_heads: usize,
    head_dim: usize,
) -> Seq<u32> {
    Seq::new(
        (n_heads * head_dim) as nat,
        |j: int|
            {
                let h = j / head_dim as int;
                let kv = kv_head(h, n_heads as int, n_kv_heads as int);
                weighted(f, probs[h * n + s], vs, kv * head_dim + j % head_dim as int, vs.len())
            },
    )
}

/// The shared heads fit side by side.
pub proof fn lemma_kv_head(h: int, n_heads: int, n_kv_heads: int)
    requires
        0 <= h < n_heads,
        0 < n_kv_heads,
        n_heads % n_kv_heads == 0,
    ensures
        n_heads / n_kv_heads > 0,
        0 <= kv_head(h, n_heads, n_kv_heads) < n_kv_heads,
{
    let group = n_heads / n_kv_heads;
    lemma_fundamental_div_mod(n_heads, n_kv_heads);
    assert(group > 0) by (nonlinear_arith)
        requires
            n_heads == n_kv_heads * group,
            n_heads > 0,
            n_kv_heads > 0,
    ;
    let kv = h / group;
    assert(0 <= kv < n_kv_heads) by (nonlinear_arith)
        requires
            kv == h / group,
            0 <= h < n_kv_heads * group,
            group > 0,
    ;
}

/// The quotient and the remainder of a place in a list of lists.
proof fn lemma_place(i: int, n_heads: int, n: int)
    requires
        0 <= i < n_heads * n,
        0 <= n_heads,
        0 <= n,
    ensures
        n > 0,
        0 <= i / n < n_heads,
        0 <= i % n < n,
{
    assert(n > 0) by (nonlinear_arith)
        requires
            0 <= i < n_heads * n,
            0 <= n_heads,
            0 <= n,
    ;
    assert(0 <= i / n < n_heads && 0 <= i % n < n) by (nonlinear_arith)
        requires
            0 <= i < n_heads * n,
            n > 0,
    ;
}

/// Takes the dot product of two rows with one sum, from left to right.
fn dot_plain<F: Arithmetic>(f: &F, a: &[u32], b: &[u32]) -> (r: u32)
    requires
        f.wf(),
        a@.len() == b@.len(),
    ensures
        r == plain_dot(f, a@, b@),
{
    let mut sum: u32 = ZERO;
    let mut i: usize = 0;
    while i < a.len()
        invariant
            i <= a@.len(),
            a@.len() == b@.len(),
            f.wf(),
            sum == products_added(f, ZERO, a@, b@, 0, i as int),
        decreases a@.len() - i,
    {
        sum = f.plus(sum, f.times(a[i], b[i]));
        i = i + 1;
    }
    sum
}

/// Scores one query against all keys.
fn score_row<F: Arithmetic>(f: &F, q: &[u32], k: &[u32], total: usize, kv_dim: usize, h: usize, kv: usize, head_dim: usize, limit: usize) -> (r: Vec<u32>)
    requires
        f.wf(),
        (h + 1) * head_dim <= q@.len(),
        (kv + 1) * head_dim <= kv_dim,
        k@.len() == total * kv_dim,
    ensures
        r@ == scores(f, q@, rows(k@, total as int, kv_dim as int), h as int, kv as int, head_dim, limit as int),
{
    let ghost ks = rows(k@, total as int, kv_dim as int);
    let scale: u32 = f.over(ONE, f.sqrt(f.from_usize(head_dim)));
    let q_head: &[u32] = row_slice(q, h, head_dim);
    let mut out: Vec<u32> = Vec::with_capacity(total);
    let mut t: usize = 0;
    while t < total
        invariant
            t <= total,
            f.wf(),
            (kv + 1) * head_dim <= kv_dim,
            k@.len() == total * kv_dim,
            ks == rows(k@, total as int, kv_dim as int),
            q_head@ == row(q@, h as int, head_dim as int),
            q_head@.len() == head_dim,
            scale == f.quotient(ONE, f.root(f.natural(head_dim))),
            out@.len() == t,
            forall|i: int| 0 <= i < t ==> #[trigger] out@[i] == scores(f, q@, ks, h as int, kv as int, head_dim, limit as int)[i],
        decreases total - t,
    {
        let v: u32 = if t <= limit {
            proof {
                lemma_row_bounds(t as int, total as int, kv_dim as int);
            }
            let k_row: &[u32] = row_slice(k, t, kv_dim);
            let k_head: &[u32] = row_slice(k_row, kv, head_dim);
            assert(ks[t as int] == k_row@);
            f.times(dot_plain(f, q_head, k_head), scale)
        } else {
            NEGATIVE_INFINITY
        };
        out.push(v);
        t = t + 1;
    }
    assert(out@ =~= scores(f, q@, ks, h as int, kv as int, head_dim, limit as int));
    out
}

/// Scores queries against all keys up to their positions, and turns the scores of each head and
/// query into probabilities.
pub(crate) fn attention_scores_cached<F: Arithmetic>(
    f: &F,
    q: &Tensor,
    k: &[u32],
    total: usize,
    start_pos: usize,
    n_heads: usize,
    n_kv_heads: usize,
    head_dim: usize,
) -> (r: Tensor)
    requires
        f.wf(),
        q.wf(),
        q.shape@.len() == 2,
        q.shape@[1] == n_heads * head_dim,
        k@.len() == total * (n_kv_heads * head_dim),
        n_kv_heads * head_dim <= usize::MAX,
        n_kv_heads > 0,
        n_heads % n_kv_heads == 0,
        total > 0,
        start_pos + q.shape@[0] <= usize::MAX,
        n_heads * q.shape@[0] <= usize::MAX,
        q.shape@[0] * total <= usize::MAX,
        n_heads * q.shape@[0] * total <= usize::MAX,
    ensures
        r.wf(),
        r.shape@ == seq![n_heads, q.shape@[0], total],
        rows(r.data@, n_heads * q.shape@[0], total as int) == probabilities(
            f,
            q.matrix(),
            rows(k@, total as int, n_kv_heads * head_dim),
            n_heads,
            n_kv_heads,
            head_dim,
            start_pos as int,
        ),
{
    f.mark(Op::AttnScores, true);
    let n: usize = q.shape[0];
    let cols: usize = q.shape[1];
    let kv_dim: usize = n_kv_heads * head_dim;
    let group: usize = n_heads / n_kv_heads;
    let count: usize = n_heads * n;
    let ghost qs = q.matrix();
    let ghost ks = rows(k@, total as int, kv_dim as int);
    let ghost all = Seq::new(
        count as nat,
        |i: int|
            scores(
                f,
                qs[i % (n as int)],
                ks,
                i / (n as int),
                kv_head(i / (n as int), n_heads as int, n_kv_heads as int),
                head_dim,
                start_pos + i % (n as int),
            ),
    );
    proof {
        q.lemma_matrix();
    }
    let mut data: Vec<u32> = Vec::with_capacity(count * total);
    let mut i: usize = 0;
    assert(rows(data@, 0, total as int) =~= all.take(0));
    assert(0 * total == 0) by (nonlinear_arith);
    while i < count
        invariant
            i <= count,
            count == n_heads * n,
            f.wf(),
            n_kv_heads > 0,
            n_heads % n_kv_heads == 0,
            group == n_heads / n_kv_heads,
            cols == n_heads * head_dim,
            kv_dim == n_kv_heads * head_dim,
            q.data@.len() == n * cols,
            k@.len() == total * kv_dim,
            start_pos + n <= usize::MAX,
            qs == rows(q.data@, n as int, cols as int),
            ks == rows(k@, total as int, kv_dim as int),
            all.len() == count,
            forall|j: int| 0 <= j < count ==> #[trigger] all[j] == scores(
                f,
                qs[j % (n as int)],
                ks,
                j / (n as int),
                kv_head(j / (n as int), n_heads as int, n_kv_heads as int),
                head_dim,
                start_pos + j % (n as int),
            ),
            data@.len() == i * total,
            rows(data@, i as int, total as int) == all.take(i as int),
        decreases count - i,
    {
        proof {
            lemma_place(i as int, n_heads as int, n as int);
        }
        let h: usize = i / n;
        let s: usize = i % n;
        proof {
            lemma_kv_head(h as int, n_heads as int, n_kv_heads as int);
        }
        let kv: usize = h / group;
        proof {
            lemma_row_bounds(s as int, n as int, cols as int);
            lemma_row_bounds(h as int, n_heads as int, head_dim as int);
            lemma_row_bounds(kv as int, n_kv_heads as int, head_dim as int);
        }
        let mut out: Vec<u32> = score_row(f, row_slice(q.data.as_slice(), s, cols), k, total, kv_dim, h, kv, head_dim, start_pos + s);
        proof {
            assert(out@ == all[i as int]);
            lemma_push_row(data@, i as int, total as int, out@);
            assert(all.take(i + 1) =~= all.take(i as int).push(all[i as int]));
        }
        data.append(&mut out);
        i = i + 1;
    }
    assert(all.take(count as int) =~= all);
    let mut shape: Vec<usize> = Vec::new();
    shape.push(n_heads);
    shape.push(n);
    shape.push(total);
    proof {
        assert(shape@ =~= seq![n_heads, n, total]);
        lemma_shape3(n_heads, n, total);
    }
    let mut probs: Tensor = Tensor::from_vec(data, shape);
    f.mark(Op::AttnScores, false);
    proof {
        assert(probs.data@.len() as int / total as int == count) by (nonlinear_arith)
            requires
                probs.data@.len() == count * total,
                total > 0,
        ;
    }
    softmax(f, &mut probs);
    proof {
        let want = probabilities(f, qs, ks, n_heads, n_kv_heads, head_dim, start_pos as int);
        assert(all_softmaxed(f, all) =~= want);
    }
    probs
}

/// Adds up the values, each times its probability.
pub(crate) fn attention_apply_cached<F: Arithmetic>(f: &F, probs: &Tensor, v: &[u32], n_heads: usize, n_kv_heads: usize, head_dim: usize) -> (r: Tensor)
    requires
        f.wf(),
        probs.wf(),
        probs.shape@.len() == 3,
        probs.shape@[0] == n_heads,
        v@.len() == probs.shape@[2] * (n_kv_heads * head_dim),
        n_kv_heads * head_dim <= usize::MAX,
        n_heads * head_dim <= usize::MAX,
        n_kv_heads > 0,
        n_heads % n_kv_heads == 0,
        n_heads * probs.shape@[1] <= usize::MAX,
        probs.shape@[1] * (n_heads * head_dim) <= usize::MAX,
    ensures
        r.is_matrix(probs.shape@[1] as int, n_heads * head_dim),
        r.matrix() == contexts(
            f,
            rows(probs.data@, n_heads * probs.shape@[1], probs.shape@[2] as int),
            rows(v@, probs.shape@[2] as int, n_kv_heads * head_dim),
            probs.shape@[1] as nat,
            n_heads,
            n_kv_heads,
            head_dim,
        ),
{
    f.mark(Op::AttnApply, true);
    let n: usize = probs.shape[1];
    let total: usize = probs.shape[2];
    let cols: usize = n_heads * head_dim;
    let kv_dim: usize = n_kv_heads * head_dim;
    let group: usize = n_heads / n_kv_heads;
    let ghost ps = rows(probs.data@, n_heads * n, total as int);
    let ghost vs = rows(v@, total as int, kv_dim as int);
    let ghost all = contexts(f, ps, vs, n as nat, n_heads, n_kv_heads, head_dim);
    proof {
        assert(probs.shape@ =~= seq![n_heads, n, total]);
        lemma_shape3(n_heads, n, total);
    }
    let mut data: Vec<u32> = Vec::with_capacity(n * cols);
    let mut s: usize = 0;
    assert(rows(data@, 0, cols as int) =~= all.take(0));
    assert(0 * cols == 0) by (nonlinear_arith);
    while s < n
        invariant
            s <= n,
            f.wf(),
            n_kv_heads > 0,
            n_heads % n_kv_heads == 0,
            group == n_heads / n_kv_heads,
            cols == n_heads * head_dim,
            kv_dim == n_kv_heads * head_dim,
            n_heads * n <= usize::MAX,
            probs.data@.len() == (n_heads * n) * total,
            v@.len() == total * kv_dim,
            ps == rows(probs.data@, n_heads * n, total as int),
            vs == rows(v@, total as int, kv_dim as int),
            all == contexts(f, ps, vs, n as nat, n_heads, n_kv_heads, head_dim),
            data@.len() == s * cols,
            rows(data@, s as int, cols as int) == all.take(s as int),
        decreases n - s,
    {
        let mut out: Vec<u32> = Vec::with_capacity(cols);
        let mut j: usize = 0;
        while j < cols
            invariant
                j <= cols,
                s < n,
                f.wf(),
                n_kv_heads > 0,
                n_heads % n_kv_heads == 0,
                group == n_heads / n_kv_heads,
                cols == n_heads * head_dim,
                kv_dim == n_kv_heads * head_dim,
                n_heads * n <= usize::MAX,
                probs.data@.len() == (n_heads * n) * total,
                v@.len() == total * kv_dim,
                ps == rows(probs.data@, n_heads * n, total as int),
                vs == rows(v@, total as int, kv_dim as int),
                out@.len() == j,
                forall|i: int| 0 <= i < j ==> #[trigger] out@[i] == context(f, ps, vs, n as int, s as int, n_heads, n_kv_heads, head_dim)[i],
            decreases cols - j,
        {
            proof {
                lemma_place(j as int, n_heads as int, head_dim as int);
            }
            let h: usize = j / head_dim;
            let d: usize = j % head_dim;
            proof {
                lemma_kv_head(h as int, n_heads as int, n_kv_heads as int);
            }
            let kv: usize = h / group;
            proof {
                lemma_row_bounds(kv as int, n_kv_heads as int, head_dim as int);
                lemma_row_bounds(h as int, n_heads as int, n as int);
                lemma_row_bounds(h * n + s, n_heads * n, total as int);
            }
            let p: &[u32] = row_slice(probs.data.as_slice(), h * n + s, total);
            assert(p@ == ps[h * n + s]);
            let value: u32 = weigh(f, p, v, kv_dim, kv * head_dim + d);
            out.push(value);
            j = j + 1;
        }
        proof {
            assert(out@ =~= all[s as int]);
            lemma_push_row(data@, s as int, cols as int, out@);
            assert(all.take(s + 1) =~= all.take(s as int).push(all[s as int]));
        }
        data.append(&mut out);
        s = s + 1;
    }
    assert(all.take(n as int) =~= all);
    let mut shape: Vec<usize> = Vec::new();
    shape.push(n);
    shape.push(cols);
    proof {
        assert(shape@ =~= seq![n, cols]);
        lemma_shape2(n, cols);
    }
    let r: Tensor = Tensor::from_vec(data, shape);
    f.mark(Op::AttnApply, false);
    r
}

/// Adds up the values at one column, each times its probability.
fn weigh<F: Arithmetic>(f: &F, p: &[u32], v: &[u32], kv_dim: usize, col: usize) -> (r: u32)
    requires
        f.wf(),
        v@.len() == p@.len() * kv_dim,
        col < kv_dim,
    ensures
        r == weighted(f, p@, rows(v@, p@.len() as int, kv_dim as int), col as int, p@.len()),
{
    let ghost vs = rows(v@, p@.len() as int, kv_dim as int);
    let mut acc: u32 = ZERO;
    let mut t: usize = 0;
    while t < p.len()
        invariant
            t <= p@.len(),
            f.wf(),
            v@.len() == p@.len() * kv_dim,
            v@.len() == v.len(),
            col < kv_dim,
            vs == rows(v@, p@.len() as int, kv_dim as int),
            acc == weighted(f, p@, vs, col as int, t as nat),
        decreases p@.len() - t,
    {
        proof {
            lemma_row_bounds(t as int, p@.len() as int, kv_dim as int);
            assert(vs[t as int][col as int] == v@[t * kv_dim + col]);
        }
        acc = f.plus(acc, f.times(p[t], v[t * kv_dim + col]));
        t = t + 1;
    }
    acc
}

/// The causal attention probabilities of a whole sequence, for each head and query: [n_heads, seq,
/// seq]. Query heads in a row share a key head, and no query reads a key behind its position.
pub fn attention_scores<F: Arithmetic>(f: &F, q: &Tensor, k: &Tensor, n_heads: usize, n_kv_heads: usize, head_dim: usize) -> (r: Tensor)
    requires
        f.wf(),
        q.wf(),
        q.shape@.len() == 2,
        q.shape@[1] == n_heads * head_dim,
        q.shape@[0] > 0,
        k.wf(),
        k.shape@.len() == 2,
        k.shape@[0] == q.shape@[0],
        k.shape@[1] == n_kv_heads * head_dim,
        n_kv_heads > 0,
        n_heads % n_kv_heads == 0,
        n_heads * q.shape@[0] <= usize::MAX,
        q.shape@[0] * q.shape@[0] <= usize::MAX,
        n_heads * q.shape@[0] * q.shape@[0] <= usize::MAX,
    ensures
        r.wf(),
        r.shape@ == seq![n_heads, q.shape@[0], q.shape@[0]],
        rows(r.data@, n_heads * q.shape@[0], q.shape@[0] as int) == probabilities(f, q.matrix(), k.matrix(), n_heads, n_kv_heads, head_dim, 0),
{
    proof {
        k.lemma_matrix();
    }
    attention_scores_cached(f, q, k.data.as_slice(), k.shape[0], 0, n_heads, n_kv_heads, head_dim)
}

/// The values of a whole sequence, added up by the attention probabilities: [n_heads, seq, seq] and
/// [seq, n_kv_heads * head_dim] give [seq, n_heads * head_dim].
pub fn attention_apply<F: Arithmetic>(f: &F, probs: &Tensor, v: &Tensor, n_heads: usize, n_kv_heads: usize, head_dim: usize) -> (r: Tensor)
    requires
        f.wf(),
        v.wf(),
        v.shape@.len() == 2,
        v.shape@[1] == n_kv_heads * head_dim,
        probs.wf(),
        probs.shape@ == seq![n_heads, v.shape@[0], v.shape@[0]],
        n_kv_heads > 0,
        n_heads % n_kv_heads == 0,
        n_heads * head_dim <= usize::MAX,
        n_heads * v.shape@[0] <= usize::MAX,
        v.shape@[0] * (n_heads * head_dim) <= usize::MAX,
    ensures
        r.is_matrix(v.shape@[0] as int, n_heads * head_dim),
        r.matrix() == contexts(
            f,
            rows(probs.data@, n_heads * v.shape@[0], v.shape@[0] as int),
            v.matrix(),
            v.shape@[0] as nat,
            n_heads,
            n_kv_heads,
            head_dim,
        ),
{
    proof {
        v.lemma_matrix();
    }
    attention_apply_cached(f, probs, v.data.as_slice(), n_heads, n_kv_heads, head_dim)
}

} // verus!
