//! The mathematical model of the IMDCT reduction.
//!
//! Everything here is stated over unbounded integers: the two in-place
//! recurrences that turn DCT-II output into DCT-IV coefficients, and the
//! symmetry expansion that fills the four quarters of the output buffer.
//! The executable code in [`crate::transform`] is proved to compute these
//! sequences exactly; the lemmas at the end state the algebraic laws of
//! the transform (determinism, linearity, scale homogeneity).

use vstd::prelude::*;

verus! {

/// Whether `n` is a positive power of two.
pub open spec fn is_pow2(n: int) -> bool
    decreases n,
{
    if n <= 0 {
        false
    } else if n == 1 {
        true
    } else {
        n % 2 == 0 && is_pow2(n / 2)
    }
}

/// `-v / 2` with the quotient rounded toward zero: the integer analogue of
/// the `-0.5 * v` normalization of the first DCT-II output.
pub open spec fn neg_half(v: int) -> int {
    if v >= 0 {
        -(v / 2)
    } else {
        (-v) / 2
    }
}

/// A buffer of machine integers, viewed as a sequence of unbounded integers.
pub open spec fn to_ints(v: Seq<i64>) -> Seq<int> {
    v.map_values(|x: i64| x as int)
}

/// The elementwise linear combination `a * x + b * y` of two buffers.
pub open spec fn combo(a: int, x: Seq<int>, b: int, y: Seq<int>) -> Seq<int> {
    Seq::new(x.len(), |i: int| a * x[i] + b * y[i])
}

/// The pre-rotation: each input sample multiplied by its twiddle coefficient.
pub open spec fn rotated(src: Seq<int>, table: Seq<int>) -> Seq<int> {
    Seq::new(src.len(), |i: int| src[i] * table[i])
}

/// The first recurrence of the DCT-II to DCT-IV step, mapping quarter `c`
/// onto quarter `b`: `b[0] = -c[0] / 2` and `b[i] = -(c[i] + b[i - 1])`.
pub open spec fn brec(c: Seq<int>, i: int) -> int
    decreases i,
{
    if i <= 0 {
        neg_half(c[0])
    } else {
        -(c[i] + brec(c, i - 1))
    }
}

/// The second recurrence, mapping quarter `d` onto quarter `c` in place:
/// `c'[0] = d[0] + b[q - 1]` and `c'[i] = d[i] - c'[i - 1]`.
pub open spec fn crec(c: Seq<int>, d: Seq<int>, i: int) -> int
    decreases i,
{
    if i <= 0 {
        d[0] + brec(c, c.len() - 1)
    } else {
        d[i] - crec(c, d, i - 1)
    }
}

/// The length of one quarter region of a working buffer.
pub open spec fn quarter(v: Seq<int>) -> int {
    v.len() as int / 4
}

/// The value the symmetry expansion leaves at index `k` of the output,
/// given the whole working buffer `v` as it stands after the DCT-II
/// (quarters `c` and `d` hold DCT-II output; `a` and `b` are scratch).
pub open spec fn expand_at(v: Seq<int>, scale: int, k: int) -> int {
    let q = quarter(v);
    let c = v.subrange(2 * q, 3 * q);
    let d = v.subrange(3 * q, 4 * q);
    if k < q {
        scale * crec(c, d, k)
    } else if k < 2 * q {
        -(scale * crec(c, d, 2 * q - 1 - k))
    } else if k < 3 * q {
        scale * brec(c, 3 * q - 1 - k)
    } else {
        scale * brec(c, k - 3 * q)
    }
}

/// The whole output of the DCT-II to DCT-IV step followed by the symmetry
/// expansion, as one sequence.
pub open spec fn expand_spec(v: Seq<int>, scale: int) -> Seq<int> {
    Seq::new(v.len(), |k: int| expand_at(v, scale, k))
}

/// `neg_half` never grows a value.
pub proof fn lemma_neg_half_bound(v: int, m: int)
    requires
        0 <= m,
        -m <= v <= m,
    ensures
        -m <= neg_half(v) <= m,
{
}

/// The first recurrence grows at most linearly: after `i + 1` steps over
/// inputs bounded by `m`, the value is bounded by `(i + 1) * m`.
pub proof fn lemma_brec_bound(c: Seq<int>, i: int, m: int)
    requires
        0 <= i < c.len(),
        0 <= m,
        forall|j: int| 0 <= j < c.len() ==> -m <= #[trigger] c[j] <= m,
    ensures
        -((i + 1) * m) <= brec(c, i) <= (i + 1) * m,
    decreases i,
{
    if i <= 0 {
        lemma_neg_half_bound(c[0], m);
    } else {
        lemma_brec_bound(c, i - 1, m);
        assert((i + 1) * m == i * m + m) by (nonlinear_arith);
    }
}

/// The second recurrence is likewise bounded: its seed already carries the
/// full weight of the first recurrence, hence the extra `c.len()` term.
pub proof fn lemma_crec_bound(c: Seq<int>, d: Seq<int>, i: int, m: int)
    requires
        0 <= i < d.len(),
        c.len() == d.len(),
        1 <= c.len(),
        0 <= m,
        forall|j: int| 0 <= j < c.len() ==> -m <= #[trigger] c[j] <= m,
        forall|j: int| 0 <= j < d.len() ==> -m <= #[trigger] d[j] <= m,
    ensures
        -((i + 1 + c.len()) * m) <= crec(c, d, i) <= (i + 1 + c.len()) * m,
    decreases i,
{
    if i <= 0 {
        lemma_brec_bound(c, c.len() - 1, m);
        assert((1 + c.len()) * m == m + c.len() * m) by (nonlinear_arith);
    } else {
        lemma_crec_bound(c, d, i - 1, m);
        assert((i + 1 + c.len()) * m == m + (i + c.len()) * m) by (nonlinear_arith);
    }
}

/// Determinism: the expansion is a pure function of its buffer and its
/// scale factor; identical inputs give identical outputs.
pub proof fn lemma_expand_deterministic(v1: Seq<int>, s1: int, v2: Seq<int>, s2: int)
    requires
        v1 == v2,
        s1 == s2,
    ensures
        expand_spec(v1, s1) == expand_spec(v2, s2),
{
}

/// For even arguments the halving inside `neg_half` is exact.
pub proof fn lemma_neg_half_even(t: int)
    ensures
        neg_half(2 * t) == -t,
{
    if 2 * t >= 0 {
        assert((2 * t) / 2 == t);
    } else {
        assert((-(2 * t)) / 2 == -t);
    }
}

/// The first recurrence is linear in its buffer, provided both seed
/// values are even: the seed is the one place where the recurrence
/// halves, and on odd seeds that halving rounds.
pub proof fn lemma_brec_linear(a: int, x: Seq<int>, b: int, y: Seq<int>, i: int)
    requires
        x.len() == y.len(),
        1 <= x.len(),
        0 <= i < x.len(),
        x[0] % 2 == 0,
        y[0] % 2 == 0,
    ensures
        brec(combo(a, x, b, y), i) == a * brec(x, i) + b * brec(y, i),
    decreases i,
{
    let z = combo(a, x, b, y);
    if i <= 0 {
        let u = x[0] / 2;
        let w = y[0] / 2;
        assert(x[0] == 2 * u && y[0] == 2 * w);
        assert(z[0] == a * (2 * u) + b * (2 * w));
        assert(a * (2 * u) + b * (2 * w) == 2 * (a * u + b * w)) by (nonlinear_arith);
        lemma_neg_half_even(a * u + b * w);
        lemma_neg_half_even(u);
        lemma_neg_half_even(w);
        assert(a * (-u) + b * (-w) == -(a * u + b * w)) by (nonlinear_arith);
    } else {
        lemma_brec_linear(a, x, b, y, i - 1);
        assert(z[i] == a * x[i] + b * y[i]);
        assert(-((a * x[i] + b * y[i]) + (a * brec(x, i - 1) + b * brec(y, i - 1))) == a
            * (-(x[i] + brec(x, i - 1))) + b * (-(y[i] + brec(y, i - 1))))
            by (nonlinear_arith);
    }
}

/// The second recurrence is linear in both buffers, under the same
/// proviso on the seeds of the first.
pub proof fn lemma_crec_linear(
    a: int,
    xc: Seq<int>,
    xd: Seq<int>,
    b: int,
    yc: Seq<int>,
    yd: Seq<int>,
    i: int,
)
    requires
        xc.len() == yc.len(),
        xd.len() == yd.len(),
        xc.len() == xd.len(),
        1 <= xc.len(),
        0 <= i < xd.len(),
        xc[0] % 2 == 0,
        yc[0] % 2 == 0,
    ensures
        crec(combo(a, xc, b, yc), combo(a, xd, b, yd), i) == a * crec(xc, xd, i) + b
            * crec(yc, yd, i),
    decreases i,
{
    let zc = combo(a, xc, b, yc);
    let zd = combo(a, xd, b, yd);
    if i <= 0 {
        lemma_brec_linear(a, xc, b, yc, xc.len() - 1);
        assert(zd[0] == a * xd[0] + b * yd[0]);
        assert((a * xd[0] + b * yd[0]) + (a * brec(xc, xc.len() - 1) + b * brec(
            yc,
            yc.len() - 1,
        )) == a * (xd[0] + brec(xc, xc.len() - 1)) + b * (yd[0] + brec(yc, yc.len() - 1)))
            by (nonlinear_arith);
    } else {
        lemma_crec_linear(a, xc, xd, b, yc, yd, i - 1);
        assert(zd[i] == a * xd[i] + b * yd[i]);
        assert((a * xd[i] + b * yd[i]) - (a * crec(xc, xd, i - 1) + b * crec(
            yc,
            yd,
            i - 1,
        )) == a * (xd[i] - crec(xc, xd, i - 1)) + b * (yd[i] - crec(yc, yd, i - 1)))
            by (nonlinear_arith);
    }
}

/// Linearity of the whole expansion: expanding a linear combination of
/// two buffers gives the same combination of their expansions. The two
/// seed samples of quarter `c` must be even; on odd seeds the exact
/// integer recurrence rounds its seed halving and the law fails there.
pub proof fn lemma_expand_linear(a: int, x: Seq<int>, b: int, y: Seq<int>, s: int)
    requires
        x.len() == y.len(),
        4 <= x.len(),
        x.len() % 4 == 0,
        x[2 * quarter(x)] % 2 == 0,
        y[2 * quarter(y)] % 2 == 0,
    ensures
        forall|j: int|
            0 <= j < x.len() ==> #[trigger] expand_spec(combo(a, x, b, y), s)[j] == a
                * expand_spec(x, s)[j] + b * expand_spec(y, s)[j],
{
    let z = combo(a, x, b, y);
    let q = quarter(x);
    let xc = x.subrange(2 * q, 3 * q);
    let xd = x.subrange(3 * q, 4 * q);
    let yc = y.subrange(2 * q, 3 * q);
    let yd = y.subrange(3 * q, 4 * q);
    assert(z.len() == x.len());
    assert(quarter(z) == q && quarter(y) == q);
    assert(z.subrange(2 * q, 3 * q) =~= combo(a, xc, b, yc));
    assert(z.subrange(3 * q, 4 * q) =~= combo(a, xd, b, yd));
    assert forall|j: int|
        0 <= j < x.len() implies #[trigger] expand_spec(z, s)[j] == a * expand_spec(x, s)[j]
        + b * expand_spec(y, s)[j] by {
        if j < q {
            lemma_crec_linear(a, xc, xd, b, yc, yd, j);
            assert(s * (a * crec(xc, xd, j) + b * crec(yc, yd, j)) == a * (s * crec(
                xc,
                xd,
                j,
            )) + b * (s * crec(yc, yd, j))) by (nonlinear_arith);
        } else if j < 2 * q {
            lemma_crec_linear(a, xc, xd, b, yc, yd, 2 * q - 1 - j);
            assert(-(s * (a * crec(xc, xd, 2 * q - 1 - j) + b * crec(yc, yd, 2 * q - 1 - j)))
                == a * (-(s * crec(xc, xd, 2 * q - 1 - j))) + b * (-(s * crec(
                yc,
                yd,
                2 * q - 1 - j,
            )))) by (nonlinear_arith);
        } else if j < 3 * q {
            lemma_brec_linear(a, xc, b, yc, 3 * q - 1 - j);
            assert(s * (a * brec(xc, 3 * q - 1 - j) + b * brec(yc, 3 * q - 1 - j)) == a * (s
                * brec(xc, 3 * q - 1 - j)) + b * (s * brec(yc, 3 * q - 1 - j)))
                by (nonlinear_arith);
        } else {
            lemma_brec_linear(a, xc, b, yc, j - 3 * q);
            assert(s * (a * brec(xc, j - 3 * q) + b * brec(yc, j - 3 * q)) == a * (s * brec(
                xc,
                j - 3 * q,
            )) + b * (s * brec(yc, j - 3 * q))) by (nonlinear_arith);
        }
    }
}

/// Scale homogeneity: scaling the scale factor scales every output
/// sample, with no proviso — the scale enters only in the final
/// multiplications of the expansion.
pub proof fn lemma_scale_homogeneity(v: Seq<int>, k: int, s: int)
    ensures
        forall|j: int|
            0 <= j < v.len() ==> #[trigger] expand_spec(v, k * s)[j] == k * expand_spec(
                v,
                s,
            )[j],
{
    let q = quarter(v);
    let c = v.subrange(2 * q, 3 * q);
    let d = v.subrange(3 * q, 4 * q);
    assert forall|j: int|
        0 <= j < v.len() implies #[trigger] expand_spec(v, k * s)[j] == k * expand_spec(
        v,
        s,
    )[j] by {
        if j < q {
            assert((k * s) * crec(c, d, j) == k * (s * crec(c, d, j))) by (nonlinear_arith);
        } else if j < 2 * q {
            assert((k * s) * crec(c, d, 2 * q - 1 - j) == k * (s * crec(c, d, 2 * q - 1 - j)))
                by (nonlinear_arith);
            assert(k * (-(s * crec(c, d, 2 * q - 1 - j))) == -(k * (s * crec(
                c,
                d,
                2 * q - 1 - j,
            )))) by (nonlinear_arith);
        } else if j < 3 * q {
            assert((k * s) * brec(c, 3 * q - 1 - j) == k * (s * brec(c, 3 * q - 1 - j)))
                by (nonlinear_arith);
        } else {
            assert((k * s) * brec(c, j - 3 * q) == k * (s * brec(c, j - 3 * q)))
                by (nonlinear_arith);
        }
    }
}

/// The pre-rotation is linear in the input samples.
pub proof fn lemma_rotated_linear(a: int, x: Seq<int>, b: int, y: Seq<int>, t: Seq<int>)
    requires
        x.len() == y.len(),
        t.len() == x.len(),
    ensures
        forall|j: int|
            0 <= j < x.len() ==> #[trigger] rotated(combo(a, x, b, y), t)[j] == a * rotated(
                x,
                t,
            )[j] + b * rotated(y, t)[j],
{
    assert forall|j: int|
        0 <= j < x.len() implies #[trigger] rotated(combo(a, x, b, y), t)[j] == a * rotated(
        x,
        t,
    )[j] + b * rotated(y, t)[j] by {
        assert((a * x[j] + b * y[j]) * t[j] == a * (x[j] * t[j]) + b * (y[j] * t[j]))
            by (nonlinear_arith);
    }
}

/// A product of two bounded factors is bounded by the product of the bounds.
pub proof fn lemma_mul_bound(a: int, b: int, ma: int, mb: int)
    by (nonlinear_arith)
    requires
        0 <= ma,
        0 <= mb,
        -ma <= a <= ma,
        -mb <= b <= mb,
    ensures
        -(ma * mb) <= a * b <= ma * mb,
{
}

} // verus!
