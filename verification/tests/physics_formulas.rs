use mddem::measure::MsdConfig;

#[test]
fn msd_config_default() {
    let config = MsdConfig::default();
    assert_eq!(config.interval, 10);
    assert_eq!(config.output_interval, 1000);
}

#[test]
fn diffusion_coefficient_formula() {
    // D = MSD / (6 * t) — verify the formula
    let msd: f64 = 12.0;
    let time: f64 = 100.0;
    let d = msd / (6.0 * time);
    assert!((d - 0.02).abs() < 1e-10, "D should be 0.02, got {}", d);
}

#[test]
fn ree_straight_chain() {
    // For a straight chain of N beads with bond length b, R_ee = (N-1) * b
    let n = 10;
    let b = 1.0;
    let expected_ree = (n - 1) as f64 * b;

    let mut positions = Vec::new();
    for i in 0..n {
        positions.push([i as f64 * b, 0.0, 0.0]);
    }
    let first = positions[0];
    let last = positions[n - 1];
    let ree = ((last[0] - first[0]).powi(2) + (last[1] - first[1]).powi(2) + (last[2] - first[2]).powi(2)).sqrt();
    assert!((ree - expected_ree).abs() < 1e-10);
}

#[test]
fn rg_straight_chain() {
    // For a straight chain of N beads equally spaced, R_g^2 = (N^2 - 1) * b^2 / 12
    let n = 10;
    let b = 1.0;
    let expected_rg2 = ((n * n - 1) as f64) * b * b / 12.0;

    let mut positions = Vec::new();
    for i in 0..n {
        positions.push([i as f64 * b, 0.0, 0.0]);
    }

    let nf = n as f64;
    let mut com = [0.0; 3];
    for p in &positions {
        com[0] += p[0];
    }
    com[0] /= nf;

    let mut rg2 = 0.0;
    for p in &positions {
        rg2 += (p[0] - com[0]).powi(2);
    }
    rg2 /= nf;

    assert!((rg2 - expected_rg2).abs() < 1e-10, "R_g^2={}, expected={}", rg2, expected_rg2);
}

#[test]
fn langevin_random_force_coefficient() {
    // sigma_F = sqrt(2 * gamma * m * kT / dt)
    let gamma = 3.0;
    let mass = 2.0;
    let kt = 1.5;
    let dt = 0.005;

    let expected_sigma = (2.0_f64 * gamma * mass * kt / dt).sqrt();

    let drag_coeff = gamma * mass;
    let code_sigma = (2.0_f64 * drag_coeff * kt / dt).sqrt();

    assert!(
        (code_sigma - expected_sigma).abs() < 1e-10,
        "FDT coefficient mismatch: code={}, expected={}",
        code_sigma,
        expected_sigma
    );
}
