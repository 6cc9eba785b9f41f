use imdct::Imdct;
use imdct::ImdctError;

fn zeros(len: usize) -> Vec<i64> {
    let mut v = Vec::new();
    for _ in 0..len {
        v.push(0i64);
    }
    v
}

#[test]
fn construction_accepts_maximum_size() {
    let im = Imdct::new(8192, zeros(8192)).unwrap();
    assert_eq!(im.size(), 8192);
}

#[test]
fn construction_rejects_above_maximum() {
    assert_eq!(
        Imdct::new(8193, zeros(8193)).err(),
        Some(ImdctError::ConfigurationError)
    );
    // The next power of two is also over the limit.
    assert_eq!(
        Imdct::new(16384, zeros(16384)).err(),
        Some(ImdctError::ConfigurationError)
    );
}

#[test]
fn construction_rejects_non_power_of_two() {
    assert_eq!(
        Imdct::new(100, zeros(100)).err(),
        Some(ImdctError::ConfigurationError)
    );
    assert_eq!(
        Imdct::new(0, zeros(0)).err(),
        Some(ImdctError::ConfigurationError)
    );
}

#[test]
fn construction_rejects_size_one() {
    assert_eq!(
        Imdct::new(1, zeros(1)).err(),
        Some(ImdctError::ConfigurationError)
    );
}

#[test]
fn construction_rejects_table_length_mismatch() {
    assert_eq!(
        Imdct::new(32, zeros(31)).err(),
        Some(ImdctError::ConfigurationError)
    );
}

#[test]
fn pre_rotate_writes_second_half_only() {
    let im = Imdct::new(4, vec![2, 3, 4, 5]).unwrap();
    let src: Vec<i64> = vec![1, -2, 3, -4];
    let mut dst: Vec<i64> = vec![7, 7, 7, 7, 7, 7, 7, 7];
    assert_eq!(im.pre_rotate(&src, &mut dst), Ok(()));
    assert_eq!(dst, vec![7, 7, 7, 7, 2, -6, 12, -20]);
}

#[test]
fn pre_rotate_rejects_wrong_lengths() {
    let im = Imdct::new(4, vec![2, 3, 4, 5]).unwrap();
    let short_src: Vec<i64> = vec![1, -2, 3];
    let mut dst: Vec<i64> = vec![0, 0, 0, 0, 0, 0, 0, 0];
    assert_eq!(
        im.pre_rotate(&short_src, &mut dst),
        Err(ImdctError::PreconditionViolation)
    );
    assert_eq!(dst, vec![0, 0, 0, 0, 0, 0, 0, 0]);

    let src: Vec<i64> = vec![1, -2, 3, -4];
    let mut short_dst: Vec<i64> = vec![0, 0, 0, 0, 0, 0, 0];
    assert_eq!(
        im.pre_rotate(&src, &mut short_dst),
        Err(ImdctError::PreconditionViolation)
    );
    assert_eq!(short_dst, vec![0, 0, 0, 0, 0, 0, 0]);
}

#[test]
fn expand_smallest_size_exact_values() {
    // Size 2: one element per quarter. c = [6], d = [10], scale 3:
    // b = -6/2 = -3, c' = 10 + (-3) = 7; output a = 21, b = -21,
    // c = d = 3 * (-3) = -9.
    let im = Imdct::new(2, zeros(2)).unwrap();
    let mut dst: Vec<i64> = vec![9, 9, 6, 10];
    assert_eq!(im.expand(&mut dst, 3), Ok(()));
    assert_eq!(dst, vec![21, -21, -9, -9]);
}

#[test]
fn expand_size_four_exact_values() {
    // c = [4, 5], d = [7, 1]: b = [-2, -3], c' = [4, -3]; with scale 2
    // the quarters become a = [8, -6], b = [6, -8], c = [-6, -4],
    // d = [-4, -6].
    let im = Imdct::new(4, zeros(4)).unwrap();
    let mut dst: Vec<i64> = vec![0, 0, 0, 0, 4, 5, 7, 1];
    assert_eq!(im.expand(&mut dst, 2), Ok(()));
    assert_eq!(dst, vec![8, -6, 6, -8, -6, -4, -4, -6]);
}

#[test]
fn expand_rounds_odd_seed_toward_zero() {
    // The seed halving truncates toward zero: -(-7)/2 = 3.
    let im = Imdct::new(2, zeros(2)).unwrap();
    let mut dst: Vec<i64> = vec![0, 0, -7, 0];
    assert_eq!(im.expand(&mut dst, 1), Ok(()));
    assert_eq!(dst, vec![3, -3, 3, 3]);
}

#[test]
fn expand_rejects_wrong_length() {
    let im = Imdct::new(4, zeros(4)).unwrap();
    let mut dst: Vec<i64> = vec![1, 2, 3, 4, 5, 6, 7];
    assert_eq!(
        im.expand(&mut dst, 1),
        Err(ImdctError::PreconditionViolation)
    );
    assert_eq!(dst, vec![1, 2, 3, 4, 5, 6, 7]);
}

#[test]
fn imdct_composes_the_pipeline() {
    // With the identity as the stand-in engine, the output is exactly
    // the expansion of the pre-rotated input: src = [3, 5] against
    // table [2, 2] pre-rotates to [6, 10], which expands with scale 3
    // to [21, -21, -9, -9].
    let im = Imdct::new(2, vec![2, 2]).unwrap();
    let src: Vec<i64> = vec![3, 5];
    let mut dst: Vec<i64> = vec![0, 0, 0, 0];
    assert_eq!(im.imdct(&src, &mut dst, 3, |v: Vec<i64>| v), Ok(()));
    assert_eq!(dst, vec![21, -21, -9, -9]);
}

#[test]
fn imdct_rejects_wrong_source_length() {
    let im = Imdct::new(2, vec![2, 2]).unwrap();
    let src: Vec<i64> = vec![3, 5, 7];
    let mut dst: Vec<i64> = vec![1, 2, 3, 4];
    assert_eq!(
        im.imdct(&src, &mut dst, 3, |v: Vec<i64>| v),
        Err(ImdctError::PreconditionViolation)
    );
    assert_eq!(dst, vec![1, 2, 3, 4]);
}

#[test]
fn imdct_rejects_misbehaving_engine() {
    let im = Imdct::new(2, vec![2, 2]).unwrap();
    let src: Vec<i64> = vec![3, 5];

    // An engine that returns the wrong number of samples.
    let mut dst: Vec<i64> = vec![1, 2, 3, 4];
    assert_eq!(
        im.imdct(&src, &mut dst, 3, |_v: Vec<i64>| vec![1i64]),
        Err(ImdctError::PreconditionViolation)
    );
    assert_eq!(dst, vec![1, 2, 3, 4]);

    // An engine that returns a sample outside the fixed-point range.
    assert_eq!(
        im.imdct(&src, &mut dst, 3, |_v: Vec<i64>| vec![0i64, i64::MAX]),
        Err(ImdctError::PreconditionViolation)
    );
    assert_eq!(dst, vec![1, 2, 3, 4]);
}

fn analytic_imdct(x: &[f64], scale: f64) -> Vec<f64> {
    let n_in = x.len();
    let n_out = n_in * 2;
    let pi_2n = std::f64::consts::PI / (2 * n_out) as f64;
    let mut y = Vec::new();
    for i in 0..n_out {
        let mut accum = 0.0f64;
        for j in 0..n_in {
            accum += x[j] * (pi_2n * ((2 * i + 1 + n_in) * (2 * j + 1)) as f64).cos();
        }
        y.push(scale * accum);
    }
    y
}

#[test]
fn verify_imdct() {
    // The reference scenario: a 32-point transform of [1, 2, ..., 32]
    // with scale sqrt(2/64), against the closed-form IMDCT, within
    // 0.00001 at every one of the 64 outputs. The library runs in fixed
    // point: the twiddle table carries 40 fractional bits, the DCT-II
    // engine (a direct-formula double implementation here) returns its
    // output with 28 fractional bits, and the scale is applied after
    // dequantization.
    const TABLE_ONE: f64 = 1099511627776.0; // 2^40
    const ENGINE_ONE: f64 = 268435456.0; // 2^28

    let n: usize = 32;
    let c = std::f64::consts::PI / (4 * n) as f64;
    let mut table_fx: Vec<i64> = Vec::new();
    for i in 0..n {
        let t = 2.0 * (c * (2 * i + 1) as f64).cos();
        table_fx.push((t * TABLE_ONE).round() as i64);
    }
    let im = Imdct::new(32, table_fx).unwrap();

    let src: Vec<i64> = (1..=32).collect();
    let mut dst: Vec<i64> = vec![0; 64];
    let scale = (2.0f64 / 64.0).sqrt();

    let engine = |v: Vec<i64>| -> Vec<i64> {
        let xs: Vec<f64> = v.iter().map(|&p| p as f64 / TABLE_ONE).collect();
        let m = xs.len();
        let mut out: Vec<i64> = Vec::new();
        for k in 0..m {
            let mut accum = 0.0f64;
            for j in 0..m {
                accum += xs[j]
                    * (std::f64::consts::PI * (k * (2 * j + 1)) as f64 / (2 * m) as f64)
                        .cos();
            }
            out.push((accum * ENGINE_ONE).round() as i64);
        }
        out
    };
    assert_eq!(im.imdct(&src, &mut dst, 1, engine), Ok(()));

    let test_vector: Vec<f64> = (1..=32).map(|i| i as f64).collect();
    let expected = analytic_imdct(&test_vector, scale);
    for i in 0..64 {
        let actual = scale * dst[i] as f64 / ENGINE_ONE;
        assert!((actual - expected[i]).abs() < 0.00001);
    }
}

#[test]
fn transform_is_deterministic() {
    // The same input buffer, table and scale give the same output,
    // run after run, through the whole pipeline.
    let table: Vec<i64> = vec![3, -1, 4, -1, 5, -9, 2, -6];
    let src: Vec<i64> = vec![31, 41, -59, 26, -53, 58, 97, -93];
    let mut first: Vec<i64> = zeros(16);
    let mut second: Vec<i64> = zeros(16);
    for run in 0..2 {
        let im = Imdct::new(8, table.clone()).unwrap();
        let dst = if run == 0 { &mut first } else { &mut second };
        assert_eq!(im.pre_rotate(&src, dst), Ok(()));
        // Stand-in for the DCT-II engine, which is out of scope: any
        // in-place pass over the second half; here a fixed permutation
        // of signs.
        for k in 8..16 {
            if k % 2 == 1 {
                dst[k] = -dst[k];
            }
        }
        assert_eq!(im.expand(dst, 4), Ok(()));
    }
    assert_eq!(first, second);
}

#[test]
fn expand_is_linear_on_even_seeds() {
    // expand(2x + 3y) == 2 expand(x) + 3 expand(y), elementwise, when
    // both seed samples (the first of quarter c) are even.
    let im = Imdct::new(4, zeros(4)).unwrap();
    let x: Vec<i64> = vec![0, 0, 0, 0, 4, 5, 7, 1];
    let y: Vec<i64> = vec![0, 0, 0, 0, 2, -3, 5, 9];
    let mut cx: Vec<i64> = x.clone();
    let mut cy: Vec<i64> = y.clone();
    let mut cz: Vec<i64> = Vec::new();
    for k in 0..8 {
        cz.push(2 * x[k] + 3 * y[k]);
    }
    assert_eq!(im.expand(&mut cx, 2), Ok(()));
    assert_eq!(im.expand(&mut cy, 2), Ok(()));
    assert_eq!(im.expand(&mut cz, 2), Ok(()));
    for k in 0..8 {
        assert_eq!(cz[k], 2 * cx[k] + 3 * cy[k]);
    }
}

#[test]
fn expand_is_scale_homogeneous() {
    // expand(v, 5 * s) == 5 * expand(v, s), elementwise, with no
    // proviso: the odd seed here shows the rounding happens before the
    // scale is applied.
    let im = Imdct::new(4, zeros(4)).unwrap();
    let v: Vec<i64> = vec![0, 0, 0, 0, 9, -5, 7, 11];
    let mut once: Vec<i64> = v.clone();
    let mut five: Vec<i64> = v.clone();
    assert_eq!(im.expand(&mut once, 2), Ok(()));
    assert_eq!(im.expand(&mut five, 10), Ok(()));
    for k in 0..8 {
        assert_eq!(five[k], 5 * once[k]);
    }
}

#[test]
fn pre_rotate_is_linear() {
    // pre-rotation of 2x + 3y equals 2 rot(x) + 3 rot(y) in the second
    // half of the buffer.
    let im = Imdct::new(4, vec![2, -3, 5, 7]).unwrap();
    let x: Vec<i64> = vec![1, -2, 3, -4];
    let y: Vec<i64> = vec![5, 0, -6, 2];
    let mut z: Vec<i64> = Vec::new();
    for k in 0..4 {
        z.push(2 * x[k] + 3 * y[k]);
    }
    let mut ox: Vec<i64> = zeros(8);
    let mut oy: Vec<i64> = zeros(8);
    let mut oz: Vec<i64> = zeros(8);
    assert_eq!(im.pre_rotate(&x, &mut ox), Ok(()));
    assert_eq!(im.pre_rotate(&y, &mut oy), Ok(()));
    assert_eq!(im.pre_rotate(&z, &mut oz), Ok(()));
    for k in 4..8 {
        assert_eq!(oz[k], 2 * ox[k] + 3 * oy[k]);
    }
}
