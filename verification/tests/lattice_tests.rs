use percolation::ConfigError;
use percolation::Fraction;
use percolation::Percolation;
use percolation::Probability;

#[test]
fn probability_rejects_ratios_outside_unit_interval() {
    assert!(Probability::new(1, 2).is_ok());
    assert!(Probability::new(0, 1).is_ok());
    assert!(Probability::new(1, 1).is_ok());
    assert_eq!(Probability::new(3, 2).unwrap_err(), ConfigError::InvalidProbability);
    assert_eq!(Probability::new(0, 0).unwrap_err(), ConfigError::InvalidProbability);
}

#[test]
fn zero_side_is_rejected() {
    let p = Probability::new(1, 2).unwrap();
    match Percolation::new(0, p) {
        Err(e) => assert_eq!(e, ConfigError::ZeroSide),
        Ok(_) => panic!("a zero side must be rejected"),
    }
}

#[test]
fn huge_side_is_rejected() {
    let p = Probability::new(1, 2).unwrap();
    match Percolation::new(usize::MAX, p) {
        Err(e) => assert_eq!(e, ConfigError::SideTooLarge),
        Ok(_) => panic!("an overflowing site count must be rejected"),
    }
}

#[test]
fn invalid_probability_is_rejected_by_the_sampler() {
    let p = Probability { num: 5, den: 4 };
    match Percolation::new(3, p) {
        Err(e) => assert_eq!(e, ConfigError::InvalidProbability),
        Ok(_) => panic!("a ratio above 1 must be rejected"),
    }
}

#[test]
fn l2_p1_fills_the_whole_lattice() {
    let p = Probability::new(1, 1).unwrap();
    let mut pc = Percolation::new(2, p).unwrap();
    assert_eq!(pc.num_sites(), 4);
    assert_eq!(pc.side_len(), 2);
    let f = pc.percolation_probability(true);
    assert_eq!(f, Fraction { num: 4, den: 4 });
}

#[test]
fn l4_p1_fills_the_whole_lattice() {
    let p = Probability::new(1, 1).unwrap();
    let mut pc = Percolation::new(4, p).unwrap();
    let vals = pc.monte_carlo(3);
    assert_eq!(vals.len(), 3);
    for f in vals {
        assert_eq!(f, Fraction { num: 16, den: 16 });
    }
}

#[test]
fn l3_p0_always_measures_one_ninth() {
    let p = Probability::new(0, 1).unwrap();
    let mut pc = Percolation::new(3, p).unwrap();
    for _ in 0..4 {
        let f = pc.percolation_probability(true);
        assert_eq!(f, Fraction { num: 1, den: 9 });
    }
}

#[test]
fn p0_sweep_leaves_singletons() {
    let p = Probability::new(0, 7).unwrap();
    let mut pc = Percolation::new(4, p).unwrap();
    let f0 = pc.percolation_probability(false);
    assert_eq!(f0, Fraction { num: 1, den: 16 });
    pc.one_step();
    let f1 = pc.percolation_probability(false);
    assert_eq!(f1, Fraction { num: 1, den: 16 });
    let f2 = pc.percolation_probability(true);
    assert_eq!(f2, Fraction { num: 1, den: 16 });
}

#[test]
fn p1_connect_activates_the_bond() {
    let p = Probability::new(1, 1).unwrap();
    let mut pc = Percolation::new(3, p).unwrap();
    pc.connect(0, 1);
    let f = pc.percolation_probability(false);
    assert_eq!(f, Fraction { num: 2, den: 9 });
}

#[test]
fn p0_connect_never_activates() {
    let p = Probability::new(0, 1).unwrap();
    let mut pc = Percolation::new(3, p).unwrap();
    for _ in 0..10 {
        pc.connect(0, 1);
    }
    let f = pc.percolation_probability(false);
    assert_eq!(f, Fraction { num: 1, den: 9 });
}

#[test]
fn monte_carlo_returns_one_fraction_per_trial() {
    let p = Probability::new(1, 2).unwrap();
    let mut pc = Percolation::new(4, p).unwrap();
    let vals = pc.monte_carlo(10);
    assert_eq!(vals.len(), 10);
    for f in vals {
        assert_eq!(f.den, 16);
        assert!(f.num >= 1 && f.num <= 16);
    }
}

#[test]
fn single_site_lattice_is_always_full() {
    let p = Probability::new(1, 3).unwrap();
    let mut pc = Percolation::new(1, p).unwrap();
    let f = pc.percolation_probability(true);
    assert_eq!(f, Fraction { num: 1, den: 1 });
}
