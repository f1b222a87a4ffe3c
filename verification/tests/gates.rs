#[test]
fn rank_two_coupling_gate_equals_the_dense_exponential() {
    let z = [1.0f64, -1.0];
    for step in 0..=40 {
        let theta = -10.0 + 0.5 * f64::from(step);
        let t = theta.tanh();
        // Dense 4x4 of exp(-theta Z(x)Z) / cosh(theta); it is diagonal.
        for p in 0..2 {
            for q in 0..2 {
                let dense = (-theta * z[p] * z[q]).exp() / theta.cosh();
                let rank2 = 1.0 - t * z[p] * z[q];
                assert!(
                    (dense - rank2).abs() <= 1e-14 * dense.abs().max(1.0),
                    "theta {theta}, entry ({p},{q}): dense {dense} rank2 {rank2}"
                );
            }
        }
    }
}
