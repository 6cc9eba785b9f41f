//! The executable IMDCT core over exact 64-bit integer samples.
//!
//! One instance holds a fixed size `n` (a power of two) and a twiddle
//! table of `n` coefficients. The transform itself runs in three steps
//! over a single output buffer of length `2n`:
//!
//! 1. [`Imdct::pre_rotate`] writes the twiddled input into the second
//!    half of the buffer.
//! 2. The caller runs its DCT-II engine in place over that second half.
//!    The engine is an external collaborator and is out of scope here.
//! 3. [`Imdct::expand`] turns the DCT-II output into DCT-IV coefficients
//!    by two in-place recurrences and expands them by symmetry over the
//!    whole buffer, applying the scale factor.
//!
//! Steps 1 and 3 are verified exactly against [`crate::model`]; the order
//! of the in-place writes in step 3 is the delicate part, since the four
//! quarter regions of the buffer are read after some of them have already
//! been overwritten. [`Imdct::imdct`] composes the whole pipeline, taking
//! the engine as a function value.

use vstd::prelude::*;

use crate::model::brec;
use crate::model::crec;
use crate::model::expand_spec;
use crate::model::is_pow2;
use crate::model::lemma_brec_bound;
use crate::model::lemma_crec_bound;
use crate::model::lemma_mul_bound;
use crate::model::neg_half;
use crate::model::quarter;
use crate::model::to_ints;

verus! {

/// The two contract violations the core detects; neither is recoverable.
#[derive(Clone, Copy, Debug, PartialEq, Eq, Structural)]
pub enum ImdctError {
    /// The requested transform size is not a power of two, is smaller
    /// than two, or exceeds the supported maximum, or the twiddle table
    /// does not match it.
    ConfigurationError,
    /// A buffer handed to the transform has the wrong length.
    PreconditionViolation,
}

/// The largest supported transform size.
pub const MAX_SIZE: u32 = 8192;

/// Largest magnitude allowed for the samples entering [`Imdct::expand`].
/// Together with [`SCALE_LIMIT`] it leaves the whole recurrence and the
/// final scaling free of 64-bit overflow for every supported size.
pub const COEFF_LIMIT: i64 = 0x80_0000_0000;

/// Largest magnitude allowed for the scale factor of [`Imdct::expand`].
pub const SCALE_LIMIT: i64 = 1024;

/// Decides whether `x` is a power of two, against the recursive model.
fn is_power_of_two(x: u32) -> (r: bool)
    ensures
        r == is_pow2(x as int),
{
    if x == 0 {
        return false;
    }
    let mut v: u32 = x;
    while v % 2 == 0
        invariant
            1 <= v,
            is_pow2(x as int) == is_pow2(v as int),
        decreases v,
    {
        v = v / 2;
    }
    v == 1
}

/// Half of the negated value, rounded toward zero: the integer analogue
/// of the `-0.5 * v` normalization of the first DCT-II output.
fn neg_half_i64(v: i64) -> (r: i64)
    requires
        i64::MIN < v,
    ensures
        r as int == neg_half(v as int),
{
    if v >= 0 {
        let h: u64 = (v as u64) / 2;
        -(h as i64)
    } else {
        let h: u64 = ((-v) as u64) / 2;
        h as i64
    }
}

/// One fixed-size IMDCT instance: the size and the twiddle table.
///
/// The table is supplied at construction: its coefficients come from a
/// cosine, which the caller evaluates in its own numeric domain and
/// quantizes to integers. The instance never changes afterward.
pub struct Imdct {
    n: u32,
    table: Vec<i64>,
}

impl Imdct {
    /// The transform size `N`: the instance maps `N` inputs to `2N` outputs.
    pub closed spec fn size_spec(self) -> int {
        self.n as int
    }

    /// The twiddle table of the instance.
    pub closed spec fn twiddles(self) -> Seq<i64> {
        self.table@
    }

    /// Well-formedness: the size is a supported power of two and the
    /// table matches it. Established by [`Imdct::new`], never lost.
    pub closed spec fn wf(self) -> bool {
        &&& 2 <= self.n <= MAX_SIZE
        &&& is_pow2(self.n as int)
        &&& self.table@.len() == self.n as int
    }

    /// Instantiates an `n`-point IMDCT with the given twiddle table.
    ///
    /// `n` must be a power of two, at least `2` and at most [`MAX_SIZE`],
    /// and the table must hold exactly `n` coefficients; any violation is
    /// a [`ImdctError::ConfigurationError`]. A size of one is rejected
    /// explicitly: the quarter-region recurrence needs at least one
    /// element per quarter.
    pub fn new(n: u32, table: Vec<i64>) -> (r: Result<Imdct, ImdctError>)
        ensures
            r is Ok <==> (2 <= n && n <= MAX_SIZE && is_pow2(n as int) && table@.len()
                == n as int),
            r matches Ok(im) ==> im.wf() && im.size_spec() == n as int && im.twiddles()
                == table@,
            r is Err ==> r == Err::<Imdct, ImdctError>(ImdctError::ConfigurationError),
    {
        if n < 2 || n > MAX_SIZE {
            return Err(ImdctError::ConfigurationError);
        }
        if !is_power_of_two(n) {
            return Err(ImdctError::ConfigurationError);
        }
        if table.len() != n as usize {
            return Err(ImdctError::ConfigurationError);
        }
        Ok(Imdct { n, table })
    }

    /// The size the instance was built for.
    pub fn size(&self) -> (r: u32)
        ensures
            r as int == self.size_spec(),
    {
        self.n
    }

    /// Step 1 of the transform: writes the pre-rotated input — each
    /// sample times its twiddle coefficient — into the second half of
    /// `dst`, leaving the first half untouched. The caller then runs its
    /// DCT-II engine in place over that second half.
    ///
    /// `src` must hold `N` samples and `dst` `2N`; a violation is a
    /// [`ImdctError::PreconditionViolation`] and leaves `dst` unchanged.
    pub fn pre_rotate(&self, src: &Vec<i64>, dst: &mut Vec<i64>) -> (r: Result<
        (),
        ImdctError,
    >)
        requires
            self.wf(),
            (src@.len() == self.size_spec() && old(dst)@.len() == 2 * self.size_spec())
                ==> forall|j: int|
                0 <= j < self.size_spec() ==> i64::MIN <= (src@[j] as int) * (
                #[trigger] self.twiddles()[j] as int) <= i64::MAX,
        ensures
            r is Ok <==> (src@.len() == self.size_spec() && old(dst)@.len() == 2
                * self.size_spec()),
            final(dst)@.len() == old(dst)@.len(),
            r is Err ==> final(dst)@ == old(dst)@ && r == Err::<(), ImdctError>(
                ImdctError::PreconditionViolation,
            ),
            r is Ok ==> forall|j: int|
                0 <= j < self.size_spec() ==> (#[trigger] final(dst)@[self.size_spec()
                    + j]) as int == (src@[j] as int) * (self.twiddles()[j] as int),
            r is Ok ==> forall|j: int|
                0 <= j < self.size_spec() ==> #[trigger] final(dst)@[j] == old(dst)@[j],
    {
        let n = self.n as usize;
        if src.len() != n || dst.len() != 2 * n {
            return Err(ImdctError::PreconditionViolation);
        }
        let mut i: usize = 0;
        while i < n
            invariant
                0 <= i <= n,
                n == self.size_spec(),
                src@.len() == n,
                self.wf(),
                dst@.len() == 2 * n,
                forall|j: int|
                    0 <= j < self.size_spec() ==> i64::MIN <= (src@[j] as int) * (
                    #[trigger] self.twiddles()[j] as int) <= i64::MAX,
                forall|j: int|
                    0 <= j < i ==> (#[trigger] dst@[n + j]) as int == (src@[j] as int)
                        * (self.twiddles()[j] as int),
                forall|k: int|
                    0 <= k < 2 * n && !(n <= k < n + i) ==> #[trigger] dst@[k] == old(
                        dst,
                    )@[k],
            decreases n - i,
        {
            proof {
                let ghost j: int = i as int;
                assert(i64::MIN <= (src@[j] as int) * (self.twiddles()[j] as int)
                    <= i64::MAX);
            }
            let prod = src[i] * self.table[i];
            dst.set(n + i, prod);
            i = i + 1;
        }
        Ok(())
    }

    /// Steps 3 and 4 of the transform, in place over `dst`, whose second
    /// half must hold the DCT-II output (quarter regions `c` and `d`);
    /// the first half is scratch. Two recurrences map quarter `c` onto
    /// `b` and quarter `d` onto `c`, yielding the DCT-IV coefficients,
    /// and the symmetry expansion then fills all four quarters from
    /// them, applying `scale`. The write order is the delicate part:
    /// `b` is computed before `c` is overwritten, quarter `a` is
    /// finalized before `b` reads it in reverse, and quarter `c` is
    /// rewritten from `b` only after `a` has consumed it.
    ///
    /// `dst` must hold `2N` samples; a violation is a
    /// [`ImdctError::PreconditionViolation`] and leaves `dst` unchanged.
    /// The magnitude limits on the incoming samples and on `scale` keep
    /// every intermediate value inside 64 bits for every supported size.
    #[verifier::loop_isolation(false)]
    #[verifier::rlimit(60)]
    pub fn expand(&self, dst: &mut Vec<i64>, scale: i64) -> (r: Result<(), ImdctError>)
        requires
            self.wf(),
            -SCALE_LIMIT <= scale <= SCALE_LIMIT,
            old(dst)@.len() == 2 * self.size_spec() ==> forall|j: int|
                self.size_spec() <= j < 2 * self.size_spec() ==> -COEFF_LIMIT
                    <= #[trigger] old(dst)@[j] <= COEFF_LIMIT,
        ensures
            r is Ok <==> old(dst)@.len() == 2 * self.size_spec(),
            final(dst)@.len() == old(dst)@.len(),
            r is Err ==> final(dst)@ == old(dst)@ && r == Err::<(), ImdctError>(
                ImdctError::PreconditionViolation,
            ),
            r is Ok ==> forall|k: int|
                0 <= k < old(dst)@.len() ==> (#[trigger] final(dst)@[k]) as int
                    == expand_spec(to_ints(old(dst)@), scale as int)[k],
    {
        let n = self.n as usize;
        if dst.len() != 2 * n {
            return Err(ImdctError::PreconditionViolation);
        }
        let q = n / 2;
        let ghost v0: Seq<i64> = dst@;
        let ghost vi: Seq<int> = to_ints(v0);
        let ghost cin: Seq<int> = vi.subrange(2 * q as int, 3 * q as int);
        let ghost din: Seq<int> = vi.subrange(3 * q as int, 4 * q as int);
        proof {
            assert(self.n as int % 2 == 0);
            assert(2 * q == n);
            assert forall|j: int|
                n <= j < 2 * n implies -COEFF_LIMIT <= #[trigger] v0[j]
                <= COEFF_LIMIT by {
                assert(v0[j] == old(dst)@[j]);
            }
            assert forall|j: int|
                0 <= j < q implies -COEFF_LIMIT <= #[trigger] cin[j] <= COEFF_LIMIT
                    && -COEFF_LIMIT <= #[trigger] din[j] <= COEFF_LIMIT by {
                assert(cin[j] == v0[2 * q + j] as int);
                assert(din[j] == v0[3 * q + j] as int);
            }
        }
        // Map quarter c onto quarter b: b[0] = -c[0] / 2, b[i] = -(c[i] + b[i-1]).
        let c0 = dst[2 * q];
        let b0 = neg_half_i64(c0);
        dst.set(q, b0);
        proof {
            assert(brec(cin, 0) == neg_half(cin[0]));
        }
        let mut i: usize = 1;
        while i < q
            invariant
                1 <= i <= q,
                dst@.len() == v0.len(),
                forall|k: int|
                    q <= k < q + i ==> (#[trigger] dst@[k]) as int == brec(cin, k - q),
                forall|k: int|
                    0 <= k < v0.len() && !(q <= k < q + i) ==> #[trigger] dst@[k]
                        == v0[k],
            decreases q - i,
        {
            proof {
                let ghost ii: int = i as int;
                lemma_brec_bound(cin, ii - 1, COEFF_LIMIT as int);
            }
            let prev = dst[q + i - 1];
            let ci = dst[2 * q + i];
            dst.set(q + i, -(ci + prev));
            proof {
                let ghost ii: int = i as int;
                assert(cin[ii] == v0[2 * q + ii] as int);
                assert(brec(cin, ii) == -(cin[ii] + brec(cin, ii - 1)));
            }
            i = i + 1;
        }
        // Map quarter d onto quarter c: c'[0] = d[0] + b[q-1], c'[i] = d[i] - c'[i-1].
        proof {
            lemma_brec_bound(cin, q as int - 1, COEFF_LIMIT as int);
        }
        let d0 = dst[3 * q];
        let blast = dst[2 * q - 1];
        dst.set(2 * q, d0 + blast);
        proof {
            assert(din[0] == v0[3 * q] as int);
            assert(crec(cin, din, 0) == din[0] + brec(cin, q as int - 1));
        }
        let mut i: usize = 1;
        while i < q
            invariant
                1 <= i <= q,
                dst@.len() == v0.len(),
                forall|k: int|
                    q <= k < 2 * q ==> (#[trigger] dst@[k]) as int == brec(cin, k - q),
                forall|k: int|
                    2 * q <= k < 2 * q + i ==> (#[trigger] dst@[k]) as int == crec(
                        cin,
                        din,
                        k - 2 * q,
                    ),
                forall|k: int|
                    0 <= k < v0.len() && !(q <= k < 2 * q + i) ==> #[trigger] dst@[k]
                        == v0[k],
            decreases q - i,
        {
            proof {
                let ghost ii: int = i as int;
                lemma_crec_bound(cin, din, ii - 1, COEFF_LIMIT as int);
            }
            let di = dst[3 * q + i];
            let cprev = dst[2 * q + i - 1];
            dst.set(2 * q + i, di - cprev);
            proof {
                let ghost ii: int = i as int;
                assert(din[ii] == v0[3 * q + ii] as int);
                assert(crec(cin, din, ii) == din[ii] - crec(cin, din, ii - 1));
            }
            i = i + 1;
        }
        // Quarter a becomes a scaled copy of the new quarter c.
        let mut i: usize = 0;
        while i < q
            invariant
                0 <= i <= q,
                dst@.len() == v0.len(),
                forall|k: int|
                    0 <= k < i ==> (#[trigger] dst@[k]) as int == scale as int * crec(
                        cin,
                        din,
                        k,
                    ),
                forall|k: int|
                    q <= k < 2 * q ==> (#[trigger] dst@[k]) as int == brec(cin, k - q),
                forall|k: int|
                    2 * q <= k < 3 * q ==> (#[trigger] dst@[k]) as int == crec(
                        cin,
                        din,
                        k - 2 * q,
                    ),
            decreases q - i,
        {
            proof {
                let ghost ii: int = i as int;
                lemma_crec_bound(cin, din, ii, COEFF_LIMIT as int);
                lemma_mul_bound(
                    scale as int,
                    crec(cin, din, ii),
                    SCALE_LIMIT as int,
                    8192 * (COEFF_LIMIT as int),
                );
            }
            let ci = dst[2 * q + i];
            dst.set(i, scale * ci);
            i = i + 1;
        }
        // Quarter d becomes a scaled copy of quarter b; quarter c a scaled,
        // index-reversed copy of it.
        let mut i: usize = 0;
        while i < q
            invariant
                0 <= i <= q,
                dst@.len() == v0.len(),
                forall|k: int|
                    0 <= k < q ==> (#[trigger] dst@[k]) as int == scale as int * crec(
                        cin,
                        din,
                        k,
                    ),
                forall|k: int|
                    q <= k < 2 * q ==> (#[trigger] dst@[k]) as int == brec(cin, k - q),
                forall|k: int|
                    3 * q <= k < 3 * q + i ==> (#[trigger] dst@[k]) as int == scale as int
                        * brec(cin, k - 3 * q),
                forall|k: int|
                    3 * q - i <= k < 3 * q ==> (#[trigger] dst@[k]) as int == scale as int
                        * brec(cin, 3 * q - 1 - k),
            decreases q - i,
        {
            proof {
                let ghost ii: int = i as int;
                lemma_brec_bound(cin, ii, COEFF_LIMIT as int);
                lemma_mul_bound(
                    scale as int,
                    brec(cin, ii),
                    SCALE_LIMIT as int,
                    4096 * (COEFF_LIMIT as int),
                );
            }
            let bi = dst[q + i];
            let s = scale * bi;
            dst.set(3 * q + i, s);
            dst.set(2 * q + (q - 1 - i), s);
            i = i + 1;
        }
        // Quarter b becomes an inverted, index-reversed copy of quarter a.
        let mut i: usize = 0;
        while i < q
            invariant
                0 <= i <= q,
                dst@.len() == v0.len(),
                forall|k: int|
                    0 <= k < q ==> (#[trigger] dst@[k]) as int == scale as int * crec(
                        cin,
                        din,
                        k,
                    ),
                forall|k: int|
                    q <= k < q + i ==> (#[trigger] dst@[k]) as int == -(scale as int
                        * crec(cin, din, 2 * q - 1 - k)),
                forall|k: int|
                    2 * q <= k < 3 * q ==> (#[trigger] dst@[k]) as int == scale as int
                        * brec(cin, 3 * q - 1 - k),
                forall|k: int|
                    3 * q <= k < 4 * q ==> (#[trigger] dst@[k]) as int == scale as int
                        * brec(cin, k - 3 * q),
            decreases q - i,
        {
            proof {
                let ghost ii: int = i as int;
                lemma_crec_bound(cin, din, q as int - 1 - ii, COEFF_LIMIT as int);
                lemma_mul_bound(
                    scale as int,
                    crec(cin, din, q as int - 1 - ii),
                    SCALE_LIMIT as int,
                    8192 * (COEFF_LIMIT as int),
                );
            }
            let av = dst[q - 1 - i];
            dst.set(q + i, -av);
            i = i + 1;
        }
        proof {
            assert(quarter(vi) == q as int);
            assert(vi.subrange(2 * (q as int), 3 * (q as int)) == cin);
            assert(vi.subrange(3 * (q as int), 4 * (q as int)) == din);
            assert forall|k: int|
                0 <= k < v0.len() implies (#[trigger] dst@[k]) as int == expand_spec(
                vi,
                scale as int,
            )[k] by {
                assert(expand_spec(vi, scale as int)[k] == crate::model::expand_at(
                    vi,
                    scale as int,
                    k,
                ));
            }
        }
        Ok(())
    }

    /// The whole transform: pre-rotation of `src`, the caller's DCT-II
    /// engine over the pre-rotated samples, then the recurrences and the
    /// symmetry expansion into `dst`, scaled by `scale`.
    ///
    /// The engine is the external collaborator of this core: it receives
    /// the `N` pre-rotated samples by value and returns the transformed
    /// buffer. Nothing is assumed about it here, so the contract states
    /// what holds whatever it returns: on success the final buffer is
    /// the expansion of some engine output for exactly the pre-rotated
    /// input, as the engine's own contract describes it.
    ///
    /// Fails with a [`ImdctError::PreconditionViolation`], leaving `dst`
    /// unchanged, when `src` or `dst` has the wrong length, and also
    /// when the engine returns a buffer of the wrong length or with a
    /// sample beyond [`COEFF_LIMIT`], the fixed-point range that keeps
    /// the expansion free of overflow.
    #[verifier::loop_isolation(false)]
    #[verifier::rlimit(60)]
    pub fn imdct<F: Fn(Vec<i64>) -> Vec<i64>>(
        &self,
        src: &Vec<i64>,
        dst: &mut Vec<i64>,
        scale: i64,
        engine: F,
    ) -> (r: Result<(), ImdctError>)
        requires
            self.wf(),
            -SCALE_LIMIT <= scale <= SCALE_LIMIT,
            forall|v: Vec<i64>| #[trigger] call_requires(engine, (v,)),
            (src@.len() == self.size_spec() && old(dst)@.len() == 2 * self.size_spec())
                ==> forall|j: int|
                0 <= j < self.size_spec() ==> i64::MIN <= (src@[j] as int) * (
                #[trigger] self.twiddles()[j] as int) <= i64::MAX,
        ensures
            final(dst)@.len() == old(dst)@.len(),
            r is Err ==> final(dst)@ == old(dst)@ && r == Err::<(), ImdctError>(
                ImdctError::PreconditionViolation,
            ),
            r is Ok ==> src@.len() == self.size_spec() && old(dst)@.len() == 2
                * self.size_spec(),
            r is Ok ==> exists|w: Vec<i64>, m: Vec<i64>|
                {
                    &&& w@.len() == self.size_spec()
                    &&& forall|j: int|
                        0 <= j < self.size_spec() ==> (#[trigger] w@[j]) as int == (
                        src@[j] as int) * (self.twiddles()[j] as int)
                    &&& #[trigger] call_ensures(engine, (w,), m)
                    &&& m@.len() == self.size_spec()
                    &&& forall|k: int|
                        0 <= k < old(dst)@.len() ==> (#[trigger] final(dst)@[k]) as int
                            == expand_spec(
                            to_ints(old(dst)@.subrange(0, self.size_spec()) + m@),
                            scale as int,
                        )[k]
                },
            (r is Err && src@.len() == self.size_spec() && old(dst)@.len() == 2
                * self.size_spec()) ==> exists|w: Vec<i64>, m: Vec<i64>|
                {
                    &&& w@.len() == self.size_spec()
                    &&& forall|j: int|
                        0 <= j < self.size_spec() ==> (#[trigger] w@[j]) as int == (
                        src@[j] as int) * (self.twiddles()[j] as int)
                    &&& #[trigger] call_ensures(engine, (w,), m)
                    &&& (m@.len() != self.size_spec() || exists|j: int|
                        0 <= j < m@.len() && !(-COEFF_LIMIT <= #[trigger] m@[j]
                            <= COEFF_LIMIT))
                },
    {
        let n = self.n as usize;
        if src.len() != n || dst.len() != 2 * n {
            return Err(ImdctError::PreconditionViolation);
        }
        let mut work: Vec<i64> = Vec::new();
        let mut i: usize = 0;
        while i < n
            invariant
                0 <= i <= n,
                n == self.size_spec(),
                src@.len() == n,
                self.wf(),
                work@.len() == i,
                forall|j: int|
                    0 <= j < self.size_spec() ==> i64::MIN <= (src@[j] as int) * (
                    #[trigger] self.twiddles()[j] as int) <= i64::MAX,
                forall|j: int|
                    0 <= j < i ==> (#[trigger] work@[j]) as int == (src@[j] as int) * (
                    self.twiddles()[j] as int),
            decreases n - i,
        {
            proof {
                let ghost j: int = i as int;
                assert(i64::MIN <= (src@[j] as int) * (self.twiddles()[j] as int)
                    <= i64::MAX);
            }
            work.push(src[i] * self.table[i]);
            i = i + 1;
        }
        let ghost gw: Vec<i64> = work;
        let mid = engine(work);
        let ghost gm: Vec<i64> = mid;
        if mid.len() != n {
            proof {
                assert(call_ensures(engine, (gw,), gm));
            }
            return Err(ImdctError::PreconditionViolation);
        }
        let mut i: usize = 0;
        while i < n
            invariant
                0 <= i <= n,
                n <= 8192,
                mid@.len() == n,
                forall|j: int|
                    0 <= j < i ==> -COEFF_LIMIT <= #[trigger] mid@[j] <= COEFF_LIMIT,
            decreases n - i,
        {
            let x = mid[i];
            if x < -COEFF_LIMIT || x > COEFF_LIMIT {
                proof {
                    assert(call_ensures(engine, (gw,), gm));
                    assert(!(-COEFF_LIMIT <= gm@[i as int] <= COEFF_LIMIT));
                }
                return Err(ImdctError::PreconditionViolation);
            }
            i = i + 1;
        }
        let mut i: usize = 0;
        while i < n
            invariant
                0 <= i <= n,
                n == self.size_spec(),
                n <= 8192,
                mid@.len() == n,
                dst@.len() == 2 * n,
                forall|j: int|
                    0 <= j < n ==> -COEFF_LIMIT <= #[trigger] mid@[j] <= COEFF_LIMIT,
                forall|j: int| 0 <= j < i ==> #[trigger] dst@[n + j] == mid@[j],
                forall|k: int|
                    0 <= k < 2 * n && !(n <= k < n + i) ==> #[trigger] dst@[k] == old(
                        dst,
                    )@[k],
            decreases n - i,
        {
            let x = mid[i];
            dst.set(n + i, x);
            i = i + 1;
        }
        let ghost filled: Seq<i64> = dst@;
        proof {
            assert forall|k: int|
                0 <= k < 2 * n implies filled[k] == (old(dst)@.subrange(0, n as int)
                + gm@)[k] by {
                if n <= k {
                    assert(filled[n + (k - n)] == mid@[k - n]);
                }
            }
            assert(filled =~= old(dst)@.subrange(0, n as int) + gm@);
            assert forall|j: int|
                n <= j < 2 * n implies -COEFF_LIMIT <= #[trigger] filled[j]
                <= COEFF_LIMIT by {
                assert(filled[n + (j - n)] == mid@[j - n]);
            }
        }
        let e = self.expand(dst, scale);
        proof {
            assert(e is Ok);
            assert(call_ensures(engine, (gw,), gm));
        }
        Ok(())
    }
}

} // verus!
