use sketches_ddsketch::errors::DDSketchError;
use sketches_ddsketch::sketch::clamp_enc;
use sketches_ddsketch::sketch::rank_bucket;
use sketches_ddsketch::sketch::SketchCore;

// ---- float-side glue: the logarithmic mapping and the order-preserving
// ---- encoding that a caller of the verified core supplies

#[derive(Copy, Clone, PartialEq, Debug)]
struct TestConfig {
    max_num_bins: u32,
    gamma: f64,
    gamma_ln: f64,
    min_value: f64,
    offset: i32,
}

impl TestConfig {
    fn new(alpha: f64, max_num_bins: u32, min_value: f64) -> Self {
        let gamma_ln = ((2.0 * alpha) / (1.0 - alpha)).ln_1p();
        TestConfig {
            max_num_bins,
            gamma: 1.0 + (2.0 * alpha) / (1.0 - alpha),
            gamma_ln,
            min_value,
            offset: 1 - ((min_value.ln() / gamma_ln) as i32),
        }
    }

    fn defaults() -> Self {
        Self::new(0.01, 2048, 1.0e-9)
    }

    fn key(&self, v: f64) -> i32 {
        if v < -self.min_value {
            -(((-v).ln() / self.gamma_ln).ceil() as i32) - self.offset
        } else if v > self.min_value {
            ((v.ln() / self.gamma_ln).ceil() as i32) + self.offset
        } else {
            0
        }
    }

    fn pow_gamma(&self, key: i64) -> f64 {
        ((key as f64) * self.gamma_ln).exp()
    }
}

fn encode(v: f64) -> u64 {
    let bits = v.to_bits();
    if bits >> 63 == 1 {
        !bits
    } else {
        bits | 0x8000_0000_0000_0000
    }
}

fn decode(e: u64) -> f64 {
    if e >> 63 == 1 {
        f64::from_bits(e & 0x7fff_ffff_ffff_ffff)
    } else {
        f64::from_bits(!e)
    }
}

struct TestSketch {
    config: TestConfig,
    core: SketchCore,
    sum: f64,
}

impl TestSketch {
    fn new(config: TestConfig) -> Self {
        TestSketch {
            config,
            core: SketchCore::new(config.max_num_bins as i32),
            sum: 0.0,
        }
    }

    fn add(&mut self, v: f64) {
        self.core.add(self.config.key(v), encode(v));
        self.sum += v;
    }

    fn quantile(&self, q: f64) -> Result<Option<f64>, DDSketchError> {
        if q < 0.0 || q > 1.0 {
            return Err(DDSketchError::Quantile);
        }
        let min_enc = match self.core.min_enc() {
            None => return Ok(None),
            Some(e) => e,
        };
        let max_enc = self.core.max_enc().unwrap();
        if q == 0.0 {
            return Ok(Some(decode(min_enc)));
        }
        if q == 1.0 {
            return Ok(Some(decode(max_enc)));
        }
        let rank = (q * self.core.count() as f64).ceil() as u64;
        let key = self.core.key_at_rank(rank);
        let (sign, adj) = rank_bucket(key, self.config.offset);
        let raw = if sign < 0 {
            -2.0 * self.config.pow_gamma(adj) / (1.0 + self.config.gamma)
        } else if sign > 0 {
            2.0 * self.config.pow_gamma(adj) / (1.0 + self.config.gamma)
        } else {
            0.0
        };
        Ok(Some(decode(clamp_enc(encode(raw), min_enc, max_enc))))
    }

    fn min(&self) -> Option<f64> {
        self.core.min_enc().map(decode)
    }

    fn max(&self) -> Option<f64> {
        self.core.max_enc().map(decode)
    }

    fn sum(&self) -> Option<f64> {
        if self.core.count() == 0 {
            None
        } else {
            Some(self.sum)
        }
    }

    fn count(&self) -> usize {
        self.core.count() as usize
    }

    fn merge(&mut self, o: &TestSketch) -> Result<(), DDSketchError> {
        if self.config != o.config {
            return Err(DDSketchError::Merge);
        }
        self.core.merge(&o.core)?;
        self.sum += o.sum;
        Ok(())
    }
}

fn assert_close(got: f64, want: f64, tol: f64) {
    let scale = got.abs().max(want.abs());
    assert!(
        (got - want).abs() <= tol * scale,
        "got {}, want {} within relative {}",
        got,
        want,
        tol
    );
}

// ---- scenarios

#[test]
fn test_quartiles() {
    let alpha = 0.01;
    let c = TestConfig::new(alpha, 2048, 10e-9);
    let mut dd = TestSketch::new(c);

    for i in 1i32..5i32 {
        dd.add(i as f64);
    }

    let test_cases: Vec<(f64, f64)> = vec![
        (0.0, 1.0),
        (0.25, 1.0),
        (0.26, 2.0),
        (0.5, 2.0),
        (0.51, 3.0),
        (0.75, 3.0),
        (0.76, 4.0),
        (1.0, 4.0),
    ];

    for (q, val) in test_cases {
        assert_close(dd.quantile(q).unwrap().unwrap(), val, alpha);
    }
}

#[test]
fn ddsketch_test_simple_quantile() {
    let c = TestConfig::defaults();
    let mut dd = TestSketch::new(c);

    for i in 1i32..101i32 {
        dd.add(i as f64);
    }

    assert_eq!(dd.quantile(0.95).unwrap().unwrap().ceil(), 95.0);

    assert!(dd.quantile(-1.01).is_err());
    assert!(dd.quantile(1.01).is_err());
}

#[test]
fn ddsketch_test_empty_sketch() {
    let c = TestConfig::defaults();
    let dd = TestSketch::new(c);

    assert_eq!(dd.quantile(0.98).unwrap(), None);
    assert_eq!(dd.max(), None);
    assert_eq!(dd.min(), None);
    assert_eq!(dd.sum(), None);
    assert_eq!(dd.count(), 0);

    assert!(dd.quantile(1.01).is_err());
}

#[test]
fn test_basic_histogram_data() {
    let values: &[f64] = &[
        0.754225035,
        0.752900282,
        0.752812246,
        0.752602367,
        0.754310155,
        0.753525981,
        0.752981082,
        0.752715536,
        0.751667941,
        0.755079054,
        0.753528150,
        0.755188464,
        0.752508723,
        0.750064549,
        0.753960428,
        0.751139298,
        0.752523560,
        0.753253428,
        0.753498342,
        0.751858358,
        0.752104636,
        0.753841300,
        0.754467374,
        0.753814334,
        0.750881719,
        0.753182556,
        0.752576884,
        0.753945708,
        0.753571911,
        0.752314573,
        0.752586651,
    ];

    let c = TestConfig::defaults();
    let mut dd = TestSketch::new(c);

    for value in values {
        dd.add(*value);
    }

    assert_eq!(dd.max(), Some(0.755188464));
    assert_eq!(dd.min(), Some(0.750064549));
    assert_eq!(dd.count(), 31);
    assert_eq!(dd.sum(), Some(23.343630625000003));

    assert!(dd.quantile(0.25).unwrap().is_some());
    assert!(dd.quantile(0.5).unwrap().is_some());
    assert!(dd.quantile(0.75).unwrap().is_some());
}

#[test]
fn test_constant() {
    // two hundred copies of one value: every quantile is that value exactly
    let c = TestConfig::defaults();
    let mut dd = TestSketch::new(c);
    for _ in 0i32..200i32 {
        dd.add(42.0);
    }

    let qs: &[f64] = &[0.0, 0.1, 0.25, 0.5, 0.75, 0.9, 0.95, 0.99, 0.999, 1.0];
    for q in qs {
        assert_eq!(dd.quantile(*q).unwrap(), Some(42.0));
    }
    assert_eq!(dd.min(), Some(42.0));
    assert_eq!(dd.max(), Some(42.0));
    assert_eq!(dd.sum(), Some(8400.0));
    assert_eq!(dd.count(), 200);
}

#[test]
fn test_extremes_are_exact() {
    // the endpoints bypass the approximate mapping entirely
    let c = TestConfig::defaults();
    let mut dd = TestSketch::new(c);
    for i in 1i32..=37i32 {
        dd.add((i * i) as f64 * 0.125);
    }

    assert_eq!(dd.quantile(0.0).unwrap(), dd.min());
    assert_eq!(dd.quantile(1.0).unwrap(), dd.max());
}

#[test]
fn test_quantiles_stay_clamped() {
    // every returned quantile lies inside the observed extremes
    let c = TestConfig::defaults();
    let mut dd = TestSketch::new(c);
    for i in -50i32..=50i32 {
        dd.add(i as f64 * 3.5);
    }

    let lo = dd.min().unwrap();
    let hi = dd.max().unwrap();
    let qs: &[f64] = &[0.0, 0.01, 0.2, 0.35, 0.5, 0.64, 0.8, 0.99, 1.0];
    for q in qs {
        let est = dd.quantile(*q).unwrap().unwrap();
        assert!(lo <= est && est <= hi, "estimate {} outside [{}, {}]", est, lo, hi);
    }
}

#[test]
fn test_accuracy_against_exact_quantiles() {
    // the estimate lies within the relative accuracy of the true empirical
    // quantiles at the same rank
    let alpha = 0.01;
    let c = TestConfig::new(alpha, 1024, 1.0e-9);
    let mut dd = TestSketch::new(c);
    let mut data: Vec<f64> = Vec::new();
    for i in 0i32..1000i32 {
        let v = (i as f64) * 0.25 + 1.0;
        dd.add(v);
        data.push(v);
    }
    data.sort_by(|a, b| a.partial_cmp(b).unwrap());

    let qs: &[f64] = &[0.001, 0.1, 0.25, 0.5, 0.75, 0.9, 0.95, 0.99, 0.999];
    for q in qs {
        let rank = (q * data.len() as f64).ceil().max(1.0) as usize;
        let exact = data[rank - 1];
        let est = dd.quantile(*q).unwrap().unwrap();
        let bound = alpha * exact.abs() + 1e-9;
        assert!(
            (est - exact).abs() <= bound,
            "q {}: estimate {} not within {} of {}",
            q,
            est,
            bound,
            exact
        );
    }
}

#[test]
fn test_merge_statistics_both_orders() {
    // merged count, sum, min and max equal combining each sketch's own
    // exact statistics, in either merge order
    let c = TestConfig::defaults();
    let mut a1 = TestSketch::new(c);
    let mut b1 = TestSketch::new(c);
    for i in 1i32..=60i32 {
        a1.add(i as f64 * 1.5);
    }
    for i in -20i32..=10i32 {
        b1.add(i as f64 * 2.25);
    }
    let (a_min, a_max, a_sum) = (a1.min().unwrap(), a1.max().unwrap(), a1.sum().unwrap());
    let (b_min, b_max, b_sum) = (b1.min().unwrap(), b1.max().unwrap(), b1.sum().unwrap());

    let mut a2 = TestSketch::new(c);
    let mut b2 = TestSketch::new(c);
    for i in 1i32..=60i32 {
        a2.add(i as f64 * 1.5);
    }
    for i in -20i32..=10i32 {
        b2.add(i as f64 * 2.25);
    }

    a1.merge(&b1).unwrap();
    b2.merge(&a2).unwrap();

    assert_eq!(a1.count(), 91);
    assert_eq!(b2.count(), 91);
    assert_eq!(a1.min(), Some(a_min.min(b_min)));
    assert_eq!(b2.min(), Some(a_min.min(b_min)));
    assert_eq!(a1.max(), Some(a_max.max(b_max)));
    assert_eq!(b2.max(), Some(a_max.max(b_max)));
    assert_eq!(a1.sum(), Some(a_sum + b_sum));
    assert_eq!(b2.sum(), Some(b_sum + a_sum));
}

#[test]
fn test_merge_empty_keeps_statistics() {
    let c = TestConfig::defaults();
    let mut dd = TestSketch::new(c);
    for i in 1i32..=25i32 {
        dd.add(i as f64);
    }
    let empty = TestSketch::new(c);

    dd.merge(&empty).unwrap();
    assert_eq!(dd.count(), 25);
    assert_eq!(dd.min(), Some(1.0));
    assert_eq!(dd.max(), Some(25.0));
    assert_eq!(dd.sum(), Some(325.0));

    let mut other = TestSketch::new(c);
    other.merge(&dd).unwrap();
    assert_eq!(other.count(), 25);
    assert_eq!(other.min(), Some(1.0));
    assert_eq!(other.max(), Some(25.0));
    assert_eq!(other.sum(), Some(325.0));
}

#[test]
fn test_merge_disjoint_ranges_matches_direct() {
    let c = TestConfig::defaults();
    let mut lo = TestSketch::new(c);
    for i in 1i32..=50i32 {
        lo.add(i as f64);
    }
    let mut hi = TestSketch::new(c);
    for i in 951i32..=1000i32 {
        hi.add(i as f64);
    }
    let mut direct = TestSketch::new(c);
    for i in 1i32..=50i32 {
        direct.add(i as f64);
    }
    for i in 951i32..=1000i32 {
        direct.add(i as f64);
    }

    lo.merge(&hi).unwrap();

    assert_eq!(lo.count(), direct.count());
    assert_eq!(lo.min(), direct.min());
    assert_eq!(lo.max(), direct.max());
    assert_eq!(lo.sum(), direct.sum());
}

#[test]
fn test_quantile_domain_errors() {
    let c = TestConfig::defaults();
    let mut dd = TestSketch::new(c);
    dd.add(1.0);

    assert_eq!(dd.quantile(-0.01).unwrap_err(), DDSketchError::Quantile);
    assert_eq!(dd.quantile(1.01).unwrap_err(), DDSketchError::Quantile);
    let empty = TestSketch::new(c);
    assert_eq!(empty.quantile(-0.01).unwrap_err(), DDSketchError::Quantile);
    assert_eq!(empty.quantile(1.01).unwrap_err(), DDSketchError::Quantile);
}

#[test]
fn test_merge_incompatible_capacity() {
    // the verified core refuses to merge sketches of different capacity
    // and leaves the receiver unchanged
    let mut a = SketchCore::new(1024);
    a.add(3, encode(1.5));
    let mut b = SketchCore::new(2048);
    b.add(7, encode(9.5));

    assert_eq!(a.merge(&b).unwrap_err(), DDSketchError::Merge);
    assert_eq!(a.count(), 1);
    assert_eq!(a.min_enc(), Some(encode(1.5)));
    assert_eq!(a.max_enc(), Some(encode(1.5)));
}

#[test]
fn test_core_tracks_extremes() {
    let mut core = SketchCore::new(2048);
    assert_eq!(core.min_enc(), None);
    assert_eq!(core.max_enc(), None);

    core.add(10, encode(4.0));
    core.add(-4, encode(-2.5));
    core.add(2, encode(0.75));

    assert_eq!(core.count(), 3);
    assert_eq!(decode(core.min_enc().unwrap()), -2.5);
    assert_eq!(decode(core.max_enc().unwrap()), 4.0);
}

#[test]
fn test_encoding_preserves_order() {
    let samples: &[f64] = &[-1.0e9, -42.5, -1.0, -1.0e-12, 0.0, 1.0e-12, 0.5, 1.0, 7.25, 3.0e8];
    for i in 0..samples.len() {
        assert_eq!(decode(encode(samples[i])), samples[i]);
        for j in 0..samples.len() {
            assert_eq!(samples[i] < samples[j], encode(samples[i]) < encode(samples[j]));
        }
    }
}

#[test]
fn test_clamp_enc_bounds() {
    assert_eq!(clamp_enc(5, 10, 20), 10);
    assert_eq!(clamp_enc(15, 10, 20), 15);
    assert_eq!(clamp_enc(25, 10, 20), 20);
    assert_eq!(clamp_enc(10, 10, 20), 10);
    assert_eq!(clamp_enc(20, 10, 20), 20);
}

#[test]
fn test_rank_bucket_sides() {
    assert_eq!(rank_bucket(-5, 3), (-1, 2));
    assert_eq!(rank_bucket(0, 3), (0, 0));
    assert_eq!(rank_bucket(5, 3), (1, 2));
    assert_eq!(rank_bucket(1040, 1037), (1, 3));
}
