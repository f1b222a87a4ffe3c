use quip_miner_cpu::matrix::transpose;
use quip_miner_cpu::mps::svd::{keep_count, rank_desc, JACOBI_MAX_SWEEPS};
use quip_miner_cpu::scalar::{Scalar, Thousandths};
use rand::rngs::SmallRng;
use rand::{Rng, SeedableRng};

#[derive(Clone, Copy, Debug, PartialEq)]
struct Double(f64);

impl Scalar for Double {
    fn from_milli(m: i32) -> Self {
        Double(f64::from(m) / 1000.0)
    }
    fn ratio(num: usize, den: usize) -> Self {
        Double(num as f64 / den as f64)
    }
    fn sum(self, other: Self) -> Self {
        Double(self.0 + other.0)
    }
    fn difference(self, other: Self) -> Self {
        Double(self.0 - other.0)
    }
    fn product(self, other: Self) -> Self {
        Double(self.0 * other.0)
    }
    fn quotient(self, other: Self) -> Self {
        Double(self.0 / other.0)
    }
    fn square_root(self) -> Self {
        Double(self.0.sqrt())
    }
    fn less(self, other: Self) -> bool {
        self.0 < other.0
    }
    fn at_least(self, other: Self) -> bool {
        self.0 >= other.0
    }
}

fn doubles(v: &[f64]) -> Vec<Double> {
    v.iter().map(|&x| Double(x)).collect()
}

fn floats(v: &[Double]) -> Vec<f64> {
    v.iter().map(|x| x.0).collect()
}

/// Tolerance of the factorizations.
const EPS: Double = Double(1e-14);

struct Svd {
    u: Vec<f64>,
    s: Vec<f64>,
    vt: Vec<f64>,
    k: usize,
}

fn jacobi_svd(a: &[f64], m: usize, n: usize, max_sweeps: usize) -> Option<Svd> {
    quip_miner_cpu::mps::svd::jacobi_svd(EPS, &doubles(a), m, n, max_sweeps)
        .map(|d| Svd { u: floats(&d.u), s: floats(&d.s), vt: floats(&d.vt), k: d.k })
}

struct Factor {
    q: Vec<f64>,
    carry: Vec<f64>,
    k: usize,
    fell_back: bool,
}

fn truncated_svd_sweeps(a: &[f64], m: usize, n: usize, chi: usize, max_sweeps: usize) -> Factor {
    let a = doubles(a);
    let f = quip_miner_cpu::mps::svd::truncated_svd_sweeps(EPS, &a, m, n, chi, max_sweeps);
    Factor { q: floats(&f.q), carry: floats(&f.carry), k: f.k, fell_back: f.fell_back }
}

fn truncated_svd(a: &[f64], m: usize, n: usize, chi: usize) -> Factor {
    truncated_svd_sweeps(a, m, n, chi, JACOBI_MAX_SWEEPS)
}

fn random_matrix(m: usize, n: usize, seed: u64) -> Vec<f64> {
    let mut rng = SmallRng::seed_from_u64(seed);
    (0..m * n).map(|_| rng.gen::<f64>() * 2.0 - 1.0).collect()
}

fn reconstruct(svd: &Svd, m: usize, n: usize) -> Vec<f64> {
    let mut out = vec![0.0; m * n];
    for i in 0..m {
        for b in 0..svd.k {
            let uv = svd.u[i * svd.k + b] * svd.s[b];
            if uv == 0.0 {
                continue;
            }
            for j in 0..n {
                out[i * n + j] += uv * svd.vt[b * n + j];
            }
        }
    }
    out
}

fn frob(a: &[f64]) -> f64 {
    a.iter().map(|x| x * x).sum::<f64>().sqrt()
}

/// Columns of the `rows x cols` row-major matrix are orthonormal.
fn assert_columns_orthonormal(a: &[f64], rows: usize, cols: usize, what: &str) {
    for p in 0..cols {
        for q in 0..cols {
            let mut dot = 0.0;
            for i in 0..rows {
                dot += a[i * cols + p] * a[i * cols + q];
            }
            let want = if p == q { 1.0 } else { 0.0 };
            assert!(
                (dot - want).abs() <= 1e-12,
                "{what}: column {p} dot column {q} = {dot}, want {want}"
            );
        }
    }
}

#[test]
fn jacobi_svd_reconstructs_and_is_orthonormal() {
    for &(m, n) in &[
        (1, 1),
        (1, 4),
        (4, 1),
        (2, 3),
        (3, 2),
        (5, 5),
        (8, 6),
        (6, 8),
        (16, 32),
        (32, 16),
    ] {
        let a = random_matrix(m, n, 1000 + (m * 97 + n) as u64);
        let svd = jacobi_svd(&a, m, n, JACOBI_MAX_SWEEPS).expect("Jacobi must converge");
        assert_eq!(svd.k, m.min(n));
        assert_eq!(svd.u.len(), m * svd.k);
        assert_eq!(svd.vt.len(), svd.k * n);

        let back = reconstruct(&svd, m, n);
        let scale = frob(&a).max(1.0);
        for i in 0..m * n {
            assert!(
                (back[i] - a[i]).abs() <= 1e-12 * scale,
                "{m}x{n} entry {i}: got {} want {}",
                back[i],
                a[i]
            );
        }

        assert_columns_orthonormal(&svd.u, m, svd.k, "U");
        let v = transpose(&svd.vt, svd.k, n);
        assert_columns_orthonormal(&v, n, svd.k, "V");
    }
}

#[test]
fn singular_values_are_non_negative_and_sorted_descending() {
    let a = random_matrix(7, 5, 4242);
    let svd = jacobi_svd(&a, 7, 5, JACOBI_MAX_SWEEPS).expect("converge");
    for b in 0..svd.k {
        assert!(svd.s[b] >= 0.0, "s[{b}] = {} is negative", svd.s[b]);
    }
    for w in svd.s.windows(2) {
        assert!(w[0] >= w[1], "singular values not descending: {:?}", svd.s);
    }
}

#[test]
fn sign_convention_puts_the_largest_left_component_positive() {
    let a = random_matrix(6, 4, 777);
    let svd = jacobi_svd(&a, 6, 4, JACOBI_MAX_SWEEPS).expect("converge");
    for b in 0..svd.k {
        let mut best = 0.0f64;
        let mut best_val = 0.0f64;
        for i in 0..6 {
            let x = svd.u[i * svd.k + b];
            if x.abs() > best {
                best = x.abs();
                best_val = x;
            }
        }
        assert!(
            best_val > 0.0,
            "column {b}: largest-magnitude component {best_val} must be positive"
        );
    }
}

#[test]
fn zero_matrix_gives_zero_singular_values_and_an_orthonormal_basis() {
    let a = vec![0.0; 12];
    let svd = jacobi_svd(&a, 4, 3, JACOBI_MAX_SWEEPS).expect("converge");
    assert_eq!(svd.k, 3);
    assert!(svd.s.iter().all(|&x| x == 0.0), "{:?}", svd.s);
    assert_columns_orthonormal(&svd.u, 4, 3, "U of the zero matrix");
    let v = transpose(&svd.vt, 3, 3);
    assert_columns_orthonormal(&v, 3, 3, "V of the zero matrix");
}

#[test]
fn rank_deficient_input_puts_the_deficiency_in_the_trailing_values() {
    // A = outer(x, y) has rank 1 exactly.
    let x = [0.3f64, -0.7, 1.1, 0.5];
    let y = [1.0f64, -0.25, 0.6];
    let mut a = vec![0.0; 12];
    for i in 0..4 {
        for j in 0..3 {
            a[i * 3 + j] = x[i] * y[j];
        }
    }
    let svd = jacobi_svd(&a, 4, 3, JACOBI_MAX_SWEEPS).expect("converge");
    assert!(svd.s[0] > 0.5, "leading value {} too small", svd.s[0]);
    assert!(svd.s[1] <= 1e-12 * svd.s[0], "s[1] = {}", svd.s[1]);
    assert!(svd.s[2] <= 1e-12 * svd.s[0], "s[2] = {}", svd.s[2]);
    let back = reconstruct(&svd, 4, 3);
    for i in 0..12 {
        assert!((back[i] - a[i]).abs() <= 1e-12, "entry {i}");
    }
    assert_columns_orthonormal(&svd.u, 4, 3, "U of a rank-1 matrix");
}

#[test]
fn repeated_singular_values_stay_exact() {
    // 2 * I_4: every singular value is 2, which is the hardest tie case for
    // a rotation-based method.
    let mut a = vec![0.0; 16];
    for i in 0..4 {
        a[i * 4 + i] = 2.0;
    }
    let svd = jacobi_svd(&a, 4, 4, JACOBI_MAX_SWEEPS).expect("converge");
    for b in 0..4 {
        assert!((svd.s[b] - 2.0).abs() <= 1e-13, "s[{b}] = {}", svd.s[b]);
    }
    let back = reconstruct(&svd, 4, 4);
    for i in 0..16 {
        assert!((back[i] - a[i]).abs() <= 1e-13, "entry {i}");
    }
    assert_columns_orthonormal(&svd.u, 4, 4, "U");
}

#[test]
fn transpose_round_trips() {
    let a = random_matrix(3, 5, 9);
    let t = transpose(&a, 3, 5);
    assert_eq!(t.len(), 15);
    for i in 0..3 {
        for j in 0..5 {
            assert_eq!(t[j * 3 + i], a[i * 5 + j]);
        }
    }
    assert_eq!(transpose(&t, 5, 3), a);
}

#[test]
fn a_capped_sweep_budget_reports_non_convergence_instead_of_guessing() {
    let a = random_matrix(6, 4, 31337);
    assert!(jacobi_svd(&a, 6, 4, 0).is_none());
}
fn product(q: &[f64], carry: &[f64], m: usize, k: usize, n: usize) -> Vec<f64> {
    let mut out = vec![0.0; m * n];
    for i in 0..m {
        for b in 0..k {
            let qv = q[i * k + b];
            if qv == 0.0 {
                continue;
            }
            for j in 0..n {
                out[i * n + j] += qv * carry[b * n + j];
            }
        }
    }
    out
}

#[test]
fn truncated_svd_at_full_rank_reconstructs_exactly() {
    let a = random_matrix(6, 4, 5150);
    let f = truncated_svd(&a, 6, 4, 4);
    assert_eq!(f.k, 4);
    assert_columns_orthonormal(&f.q, 6, 4, "Q");
    let back = product(&f.q, &f.carry, 6, 4, 4);
    for i in 0..24 {
        assert!((back[i] - a[i]).abs() <= 1e-12, "entry {i}");
    }
}

#[test]
fn truncated_svd_caps_the_bond_and_keeps_the_isometry() {
    let a = random_matrix(8, 8, 606);
    let f = truncated_svd(&a, 8, 8, 3);
    assert_eq!(f.k, 3);
    assert_eq!(f.q.len(), 24);
    assert_eq!(f.carry.len(), 24);
    assert_columns_orthonormal(&f.q, 8, 3, "Q");
    // The rank-3 truncation is optimal, so its residual must not exceed the
    // residual of any other rank-3 product. Check it against the discarded
    // singular values, which is exactly that bound.
    let svd = jacobi_svd(&a, 8, 8, JACOBI_MAX_SWEEPS).expect("converge");
    let tail: f64 = svd.s[3..].iter().map(|x| x * x).sum::<f64>().sqrt();
    let back = product(&f.q, &f.carry, 8, 3, 8);
    let mut resid = 0.0;
    for i in 0..64 {
        let d = back[i] - a[i];
        resid += d * d;
    }
    assert!(
        resid.sqrt() <= tail + 1e-10,
        "residual {} exceeds the optimal {tail}",
        resid.sqrt()
    );
}

#[test]
fn truncated_svd_never_returns_a_zero_rank_bond() {
    let a = vec![0.0; 12];
    let f = truncated_svd(&a, 4, 3, 8);
    assert_eq!(f.k, 1);
    assert_columns_orthonormal(&f.q, 4, 1, "Q of the zero matrix");
    assert!(f.carry.iter().all(|&x| x == 0.0));
}

#[test]
fn non_convergence_falls_back_to_qr_and_counts_the_event() {
    let a = random_matrix(6, 4, 99);
    // A zero sweep budget forces the fallback deterministically; a
    // pathological matrix would be a flaky way to reach the same path.
    let f = truncated_svd_sweeps(&a, 6, 4, 4, 0);
    assert!(f.fell_back);
    assert_eq!(f.k, 4);
    assert_columns_orthonormal(&f.q, 6, 4, "Q of the QR fallback");
    // At full rank the QR fallback is exact, so quality only drops when the
    // bond is also capped.
    let back = product(&f.q, &f.carry, 6, 4, 4);
    for i in 0..24 {
        assert!((back[i] - a[i]).abs() <= 1e-12, "entry {i}");
    }
}

#[test]
fn the_qr_fallback_still_produces_an_isometry_when_the_bond_is_capped() {
    let a = random_matrix(8, 6, 1234);
    let f = truncated_svd_sweeps(&a, 8, 6, 2, 0);
    assert_eq!(f.k, 2);
    assert_columns_orthonormal(&f.q, 8, 2, "Q of the capped QR fallback");
    let back = product(&f.q, &f.carry, 8, 2, 6);
    assert!(back.iter().all(|x| x.is_finite()));
}

#[test]
fn the_qr_fallback_handles_a_linearly_dependent_column() {
    // Column 2 is column 0 twice over, so its residual is zero and the
    // fallback must fill that slot from the basis instead of leaving it.
    let mut a = vec![0.0; 12];
    let col0 = [1.0f64, 0.0, 0.0, 0.0];
    let col1 = [0.0f64, 2.0, 0.0, 0.0];
    for i in 0..4 {
        a[i * 3] = col0[i];
        a[i * 3 + 1] = col1[i];
        a[i * 3 + 2] = 2.0 * col0[i];
    }
    let f = truncated_svd_sweeps(&a, 4, 3, 3, 0);
    assert_eq!(f.k, 3);
    assert_columns_orthonormal(&f.q, 4, 3, "Q with a dependent column");
    let back = product(&f.q, &f.carry, 4, 3, 3);
    for i in 0..12 {
        assert!(
            (back[i] - a[i]).abs() <= 1e-12,
            "entry {i}: {} vs {}",
            back[i],
            a[i]
        );
    }
}
/// A factorization that converges does not report the fallback.
#[test]
fn a_converged_factorization_reports_no_fallback() {
    let a = random_matrix(5, 4, 12);
    assert!(!truncated_svd(&a, 5, 4, 4).fell_back);
}

#[test]
fn ranking_is_descending_and_stable() {
    let s = vec![Thousandths(3), Thousandths(9), Thousandths(3), Thousandths(12)];
    assert_eq!(rank_desc(&s), vec![3, 1, 0, 2]);
}

#[test]
fn small_values_are_cut_but_one_stays() {
    let none = doubles(&[0.0, 0.0]);
    assert_eq!(keep_count(EPS, &none, 2), 1);
    let some = doubles(&[1.0, 0.5, 1e-16]);
    assert_eq!(keep_count(EPS, &some, 3), 2);
    assert_eq!(keep_count(EPS, &some, 1), 1);
}

#[test]
fn the_fallback_gives_each_new_direction_the_next_slot() {
    // The second column repeats the first, the third does not.
    let a = [1.0, 2.0, 0.0, 0.0, 0.0, 1.0];
    let f = quip_miner_cpu::mps::svd::qr_truncate(&doubles(&a), 2, 3, 2);
    let (q, carry) = (floats(&f.q), floats(&f.carry));
    assert_eq!(f.k, 2);
    assert!(f.fell_back);
    assert_columns_orthonormal(&q, 2, 2, "q");
    for i in 0..2 {
        for j in 0..3 {
            let got: f64 = (0..2).map(|b| q[i * 2 + b] * carry[b * 3 + j]).sum();
            assert!((got - a[i * 3 + j]).abs() <= 1e-12, "entry {i}, {j}: {got}");
        }
    }
}
