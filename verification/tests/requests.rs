use poisson_ticker::requests::DistributionType;
use poisson_ticker::requests::PacketDistribution;
use poisson_ticker::requests::RequestSchedule;
use poisson_ticker::requests::SamplerError;
use poisson_ticker::requests::nanos_to_hz;
use poisson_ticker::requests::rate_pps_to_interarrival_nanos;
use rand::thread_rng;
use rand_distr::Distribution;
use rand_distr::Exp;

#[test]
fn rate_to_interarrival_basics() {
    assert_eq!(rate_pps_to_interarrival_nanos(1), 1_000_000_000);
    assert_eq!(rate_pps_to_interarrival_nanos(1000), 1_000_000);
    assert_eq!(rate_pps_to_interarrival_nanos(200), 5_000_000);
    // rounded down
    assert_eq!(rate_pps_to_interarrival_nanos(3), 333_333_333);
}

#[test]
fn nanos_to_hz_exact() {
    // a 2 GHz clock ticks twice per nanosecond
    assert_eq!(nanos_to_hz(2_000_000_000, 5), 10);
    // one full second of a 3 GHz clock
    assert_eq!(nanos_to_hz(3_000_000_000, 1_000_000_000), 3_000_000_000);
    // rounded down
    assert_eq!(nanos_to_hz(1, 999_999_999), 0);
}

#[test]
fn distribution_type_from_str_synonyms() {
    assert_eq!(
        DistributionType::from_str("uniform").unwrap(),
        DistributionType::Uniform
    );
    assert_eq!(
        DistributionType::from_str("Uniform").unwrap(),
        DistributionType::Uniform
    );
    assert_eq!(
        DistributionType::from_str("UNIFORM").unwrap(),
        DistributionType::Uniform
    );
    assert_eq!(
        DistributionType::from_str("exponential").unwrap(),
        DistributionType::Exponential
    );
    assert_eq!(
        DistributionType::from_str("Exponential").unwrap(),
        DistributionType::Exponential
    );
    assert_eq!(
        DistributionType::from_str("EXPONENTIAL").unwrap(),
        DistributionType::Exponential
    );
    assert_eq!(
        DistributionType::from_str("exp").unwrap(),
        DistributionType::Exponential
    );
    assert_eq!(
        DistributionType::from_str("EXP").unwrap(),
        DistributionType::Exponential
    );
    // the match ignores ASCII case entirely
    assert_eq!(
        DistributionType::from_str("uNIFORM").unwrap(),
        DistributionType::Uniform
    );
    assert_eq!(
        DistributionType::from_str("UnIfOrM").unwrap(),
        DistributionType::Uniform
    );
    assert_eq!(
        DistributionType::from_str("eXpOnEnTiAl").unwrap(),
        DistributionType::Exponential
    );
    assert_eq!(
        DistributionType::from_str("Exp").unwrap(),
        DistributionType::Exponential
    );
    match DistributionType::from_str("gaussian") {
        Err(SamplerError::UnknownDistribution { name }) => assert_eq!(name, "gaussian"),
        other => panic!("expected UnknownDistribution, got {:?}", other),
    }
}

#[test]
fn packet_distribution_mean() {
    let u = PacketDistribution::new(DistributionType::Uniform, 1000).unwrap();
    assert_eq!(u, PacketDistribution::Uniform(1_000_000));
    assert_eq!(u.get_interarrival_avg(), 1_000_000);
    let e = PacketDistribution::new(DistributionType::Exponential, 500).unwrap();
    assert_eq!(e, PacketDistribution::Exponential(2_000_000));
    assert_eq!(e.get_interarrival_avg(), 2_000_000);
}

#[test]
fn zero_rate_is_a_configuration_error() {
    assert_eq!(
        PacketDistribution::new(DistributionType::Uniform, 0),
        Err(SamplerError::ZeroRate)
    );
    let r = RequestSchedule::new(10, 0, DistributionType::Exponential, Vec::new());
    assert_eq!(r.unwrap_err(), SamplerError::ZeroRate);
}

#[test]
fn uniform_schedule_every_interarrival_equals_mean() {
    // every sampled interarrival of a uniform schedule equals the mean
    let s = RequestSchedule::new(1000, 200, DistributionType::Uniform, Vec::new()).unwrap();
    assert_eq!(s.len(), 1000);
    assert_eq!(s.get_avg_interarrival(), 5_000_000);
    for i in 0..s.len() {
        assert_eq!(s.get(i), 5_000_000);
    }
}

#[test]
fn exponential_schedule_takes_the_given_draws() {
    let draws = vec![10, 2_000_000, 30];
    let s = RequestSchedule::new(3, 1000, DistributionType::Exponential, draws.clone()).unwrap();
    assert_eq!(s.len(), 3);
    assert_eq!(s.get_avg_interarrival(), 1_000_000);
    for i in 0..3 {
        assert_eq!(s.get(i), draws[i]);
    }
}

#[test]
fn exponential_schedule_rejects_wrong_draw_count() {
    let r = RequestSchedule::new(3, 1000, DistributionType::Exponential, vec![1, 2]);
    assert_eq!(
        r.unwrap_err(),
        SamplerError::DrawCountMismatch {
            expected: 3,
            actual: 2
        }
    );
}

#[test]
fn exponential_empirical_mean_converges() {
    // an exponential schedule with target mean m over many draws has an
    // empirical mean within a few percent of m
    let n = 20_000usize;
    let rate = 1000u64;
    let mean_ns = 1_000_000f64;
    let exp = Exp::new(1.0 / mean_ns).expect("exponential distribution");
    let mut rng = thread_rng();
    let draws: Vec<u64> = (0..n).map(|_| exp.sample(&mut rng) as u64).collect();
    let s = RequestSchedule::new(n, rate, DistributionType::Exponential, draws).unwrap();
    let sum: u128 = (0..n).map(|i| s.get(i) as u128).sum();
    let empirical = sum as f64 / n as f64;
    let deviation = (empirical - mean_ns).abs() / mean_ns;
    assert!(
        deviation < 0.05,
        "empirical mean {} deviates {} from target {}",
        empirical,
        deviation,
        mean_ns
    );
}
