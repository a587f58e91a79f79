use pabs_crf::gaussian::CdtGaussianSampler;
use pabs_crf::keygen::keygen_structured;
use pabs_crf::setup::setup_structured;

fn cdt_sampler(sigma: f64) -> CdtGaussianSampler {
    let tail_cutoff = (sigma * 14.0).ceil() as usize;
    let sigma_sq_2 = 2.0 * sigma * sigma;
    let scale = (u64::MAX as f64) + 1.0;
    let rho: Vec<f64> = (0..=tail_cutoff).map(|x| (-((x as f64) * (x as f64)) / sigma_sq_2).exp()).collect();
    let z: f64 = rho[0] + 2.0 * rho[1..].iter().sum::<f64>();
    let mut table = Vec::with_capacity(tail_cutoff + 1);
    let mut cumulative: f64 = 0.0;
    for x in 0..=tail_cutoff {
        cumulative += if x == 0 { rho[x] } else { 2.0 * rho[x] };
        table.push(((cumulative / z).min(1.0) * scale) as u64);
    }
    CdtGaussianSampler::from_table(table, (sigma * 256.0) as u64, u64::MAX)
}

#[test]
fn test_cdt_zero_centered() {
    let sampler = cdt_sampler(3.0);
    let mut rng = rand::thread_rng();
    let n = 10000;
    let sum: f64 = (0..n).map(|_| sampler.sample(&mut rng) as f64).sum();
    let mean = sum / n as f64;
    assert!(mean.abs() < 0.2, "CDT sampler should be approximately zero-centered, got mean={}", mean);
}

#[test]
fn test_cdt_variance() {
    let sigma = 3.0;
    let sampler = cdt_sampler(sigma);
    let mut rng = rand::thread_rng();
    let n = 10000;
    let samples: Vec<i32> = (0..n).map(|_| sampler.sample(&mut rng)).collect();
    let mean: f64 = samples.iter().map(|&x| x as f64).sum::<f64>() / n as f64;
    let variance: f64 = samples.iter().map(|&x| (x as f64 - mean).powi(2)).sum::<f64>() / n as f64;
    let expected_var = sigma * sigma;
    assert!(
        (variance - expected_var).abs() / expected_var < 0.15,
        "CDT sampler variance should be close to sigma^2={}, got {}",
        expected_var,
        variance
    );
}

#[test]
fn test_cdt_bounded() {
    let sampler = cdt_sampler(3.0);
    let mut rng = rand::thread_rng();
    let samples: Vec<i32> = (0..1000).map(|_| sampler.sample(&mut rng)).collect();
    let max_abs = samples.iter().map(|&x| x.unsigned_abs()).max().unwrap();
    assert!((max_abs as f64) < 3.0 * 14.0, "CDT samples should be bounded by ~14*sigma, got max={}", max_abs);
}

#[test]
fn test_cdt_symmetry() {
    let sampler = cdt_sampler(3.0);
    let mut rng = rand::thread_rng();
    let n = 10000;
    let samples: Vec<i32> = (0..n).map(|_| sampler.sample(&mut rng)).collect();
    let pos_count = samples.iter().filter(|&&x| x > 0).count();
    let neg_count = samples.iter().filter(|&&x| x < 0).count();
    let ratio = pos_count as f64 / neg_count as f64;
    assert!(ratio > 0.85 && ratio < 1.15, "CDT sampler should be approximately symmetric, pos/neg ratio={}", ratio);
}

#[test]
fn test_cdt_sample_poly() {
    let sampler = cdt_sampler(3.0);
    let mut rng = rand::thread_rng();
    let poly = sampler.sample_poly(256, &mut rng);
    assert_eq!(poly.coeffs.len(), 256);
    let max_abs = poly.coeffs.iter().map(|&x| x.unsigned_abs()).max().unwrap();
    assert!((max_abs as f64) < 3.0 * 14.0, "Poly coefficients should be bounded by ~14*sigma, got max={}", max_abs);
}

#[test]
fn cdt_sampler_reports_its_parameters() {
    let sampler = cdt_sampler(3.0);
    assert_eq!(sampler.sigma_times_256(), 768);
    assert_eq!(sampler.tail_cutoff(), 42);
}

#[test]
fn test_keygen_uses_configured_revocation_tree_depth() {
    let (mut pp, mut msk) = setup_structured(128);
    pp.parameter_model.implementation.revocation_tree_depth = 12;
    msk.parameter_model.implementation.revocation_tree_depth = 12;

    let sampler = cdt_sampler(f64::from_bits(pp.params.sigma_bits));
    let mut rng = rand::thread_rng();
    let sk = keygen_structured(&pp, &msk, &["attr1"], &sampler, &mut rng).unwrap();

    assert_eq!(sk.puncture_tree.max_depth, 12);
}
