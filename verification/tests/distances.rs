use infogeom::{adopt, rao_coefficient, stabilize, Binary64, Error, SNAP_FACTOR};

fn encode(x: f64) -> Binary64 {
    Binary64 { bits: x.to_bits() }
}

fn decode(x: Binary64) -> f64 {
    f64::from_bits(x.bits)
}

fn rao_distance_categorical(p: &[f64], q: &[f64], tol: f64) -> Result<f64, Error> {
    let coefficient = logp::bhattacharyya_coeff(p, q, tol).map(encode);
    let stabilized = rao_coefficient(coefficient, encode(tol))?;
    Ok(2.0 * decode(stabilized).acos())
}

fn hellinger(p: &[f64], q: &[f64], tol: f64) -> Result<f64, Error> {
    adopt(logp::hellinger(p, q, tol))
}

fn step(state: &mut u64) -> u64 {
    *state ^= *state << 13;
    *state ^= *state >> 7;
    *state ^= *state << 17;
    *state
}

fn simplex_vec(len: usize, state: &mut u64) -> Vec<f64> {
    let mut v: Vec<f64> = (0..len)
        .map(|_| 10.0 * ((step(state) >> 11) as f64) / ((1u64 << 53) as f64))
        .collect();
    let s: f64 = v.iter().sum();
    if s == 0.0 {
        v[0] = 1.0;
        return v;
    }
    for x in v.iter_mut() {
        *x /= s;
    }
    v
}

#[test]
fn rao_is_symmetric() {
    let mut state: u64 = 0x1357_9BDF_0246_8ACE;
    for _ in 0..2000 {
        let p = simplex_vec(8, &mut state);
        let q = simplex_vec(8, &mut state);
        let d1 = rao_distance_categorical(&p, &q, 1e-9).unwrap();
        let d2 = rao_distance_categorical(&q, &p, 1e-9).unwrap();
        assert!((d1 - d2).abs() < 1e-12);
    }
}

#[test]
fn rao_self_is_zero() {
    let mut state: u64 = 0x0BAD_CAFE_DEAD_BEEF;
    for _ in 0..2000 {
        let p = simplex_vec(12, &mut state);
        let d = rao_distance_categorical(&p, &p, 1e-9).unwrap();
        assert!(d.abs() < 1e-12);
        assert_eq!(d, 0.0);
    }
}

#[test]
fn rao_is_bounded() {
    let mut state: u64 = 0x5DEE_CE66_D1CE_4E5B;
    for _ in 0..2000 {
        let p = simplex_vec(10, &mut state);
        let q = simplex_vec(10, &mut state);
        let d = rao_distance_categorical(&p, &q, 1e-9).unwrap();
        assert!(d >= -1e-12);
        assert!(d <= core::f64::consts::PI + 1e-12);
    }
}

#[test]
fn hellinger_is_symmetric() {
    let mut state: u64 = 0x2C1B_3C6D_A5A5_5A5A;
    for _ in 0..2000 {
        let p = simplex_vec(8, &mut state);
        let q = simplex_vec(8, &mut state);
        let h1 = hellinger(&p, &q, 1e-9).unwrap();
        let h2 = hellinger(&q, &p, 1e-9).unwrap();
        assert!((h1 - h2).abs() < 1e-12);
    }
}

#[test]
fn hellinger_is_bounded() {
    let mut state: u64 = 0x7F4A_7C15_9E37_79B9;
    for _ in 0..2000 {
        let p = simplex_vec(8, &mut state);
        let q = simplex_vec(8, &mut state);
        let h = hellinger(&p, &q, 1e-9).unwrap();
        assert!(h >= -1e-12);
        assert!(h <= 1.0 + 1e-12);
    }
}

#[test]
fn rao_matches_bhattacharyya_formula() {
    let mut state: u64 = 0x6A09_E667_F3BC_C908;
    for _ in 0..2000 {
        let p = simplex_vec(10, &mut state);
        let q = simplex_vec(10, &mut state);
        let tol = 1e-9;
        let rao = rao_distance_categorical(&p, &q, tol).unwrap();
        let mut bc = logp::bhattacharyya_coeff(&p, &q, tol).unwrap();
        bc = bc.clamp(0.0, 1.0);
        if (1.0 - bc).abs() <= 10.0 * tol {
            bc = 1.0;
        }
        let expected = 2.0 * bc.acos();
        assert!((rao - expected).abs() < 1e-12, "rao={rao} expected={expected} bc={bc}");
        assert_eq!(rao, expected);
    }
}

#[test]
fn distances_of_a_skewed_pair_and_its_mirror() {
    let p = [0.70, 0.20, 0.10];
    let q = [0.10, 0.20, 0.70];
    let rao = rao_distance_categorical(&p, &q, 1e-12).unwrap();
    let hel = hellinger(&p, &q, 1e-12).unwrap();
    let bc = 2.0 * 0.07f64.sqrt() + 0.2;
    assert!(rao > 0.0 && rao < core::f64::consts::PI);
    assert!((rao - 2.0 * bc.acos()).abs() < 1e-12);
    assert!((rao - 1.5074337273066094).abs() < 1e-12);
    assert!(hel > 0.0 && hel < 1.0);
    assert!((hel - (1.0 - bc).sqrt()).abs() < 1e-12);
    assert!((hel - 0.5204322605172375).abs() < 1e-12);
}

#[test]
fn a_vector_that_sums_to_one_half_is_rejected_by_validation() {
    let p = [0.25, 0.25];
    let q = [0.5, 0.5];
    for (a, b) in [(&p, &q), (&q, &p), (&p, &p)] {
        match rao_distance_categorical(a, b, 1e-9) {
            Err(Error::Logp(logp::Error::NotNormalized { sum })) => assert_eq!(sum, 0.5),
            other => panic!("unexpected {other:?}"),
        }
        match hellinger(a, b, 1e-9) {
            Err(Error::Logp(logp::Error::NotNormalized { sum })) => assert_eq!(sum, 0.5),
            other => panic!("unexpected {other:?}"),
        }
    }
}

#[test]
fn every_validation_failure_keeps_its_cause() {
    let tol = 1e-9;
    assert!(matches!(
        rao_distance_categorical(&[1.0], &[0.5, 0.5], tol),
        Err(Error::Logp(logp::Error::LengthMismatch(1, 2)))
    ));
    assert!(matches!(rao_distance_categorical(&[], &[], tol), Err(Error::Logp(logp::Error::Empty))));
    assert!(matches!(
        rao_distance_categorical(&[1.5, -0.5], &[0.5, 0.5], tol),
        Err(Error::Logp(logp::Error::Negative { idx: 1, .. }))
    ));
    assert!(matches!(
        hellinger(&[0.5, 0.5], &[f64::NAN, 1.0], tol),
        Err(Error::Logp(logp::Error::NonFinite { idx: 0, .. }))
    ));
}

#[test]
fn adopt_hands_a_success_on_unchanged() {
    assert!(matches!(adopt::<u32>(Ok(7)), Ok(7)));
    assert!(matches!(adopt(Ok::<&str, logp::Error>("kept")), Ok("kept")));
    assert!(matches!(adopt::<u32>(Err(logp::Error::Empty)), Err(Error::Logp(logp::Error::Empty))));
}

#[test]
fn from_wraps_the_cause() {
    assert!(matches!(Error::from(logp::Error::Empty), Error::Logp(logp::Error::Empty)));
    assert!(matches!(
        Error::from(logp::Error::Domain("inner")),
        Error::Logp(logp::Error::Domain("inner"))
    ));
}

#[test]
fn the_domain_error_carries_its_message() {
    let e = Error::Domain("not raised by any function");
    assert!(matches!(e, Error::Domain("not raised by any function")));
    assert_eq!(format!("{e:?}"), "Domain(\"not raised by any function\")");
}

#[test]
fn rao_coefficient_stabilizes_a_success_and_passes_a_failure() {
    let tol = encode(1e-9);
    assert!(matches!(rao_coefficient(Ok(encode(0.5)), tol), Ok(c) if c == encode(0.5)));
    assert!(matches!(rao_coefficient(Ok(encode(1.0 - 1e-9)), tol), Ok(c) if c == encode(1.0)));
    assert!(matches!(rao_coefficient(Ok(encode(1.5)), tol), Ok(c) if c == encode(1.0)));
    assert!(matches!(rao_coefficient(Ok(encode(-0.5)), tol), Ok(c) if c == encode(0.0)));
    assert!(matches!(
        rao_coefficient(Err(logp::Error::Empty), tol),
        Err(Error::Logp(logp::Error::Empty))
    ));
}

#[test]
fn the_snap_margin_is_ten_tolerances() {
    assert_eq!(SNAP_FACTOR, 10);
    let tol = 0.0009765625;
    let edge: f64 = 0.990234375;
    let short_of_edge = f64::from_bits(edge.to_bits() - 1);
    assert_eq!(decode(stabilize(encode(edge), encode(tol))), 1.0);
    assert_eq!(decode(stabilize(encode(short_of_edge), encode(tol))), short_of_edge);
    assert_eq!(decode(stabilize(encode(0.5), encode(0.05))), 1.0);
    assert_eq!(decode(stabilize(encode(0.49), encode(0.05))), 0.49);
}

#[test]
fn a_snapped_coefficient_gives_a_distance_of_exactly_zero() {
    let p = [0.1, 0.2, 0.3, 0.4];
    let bc = logp::bhattacharyya_coeff(&p, &p, 1e-9).unwrap();
    let stabilized = decode(stabilize(encode(bc), encode(1e-9)));
    assert_eq!(stabilized.to_bits(), 1.0f64.to_bits());
    assert_eq!(2.0 * stabilized.acos(), 0.0);
    assert_eq!(rao_distance_categorical(&p, &p, 1e-9).unwrap(), 0.0);
}

#[test]
fn a_tolerance_below_the_rounding_of_the_sum_does_not_snap() {
    let p = [0.1, 0.9];
    let tol = 1e-17;
    let bc = logp::bhattacharyya_coeff(&p, &p, tol).unwrap();
    assert_eq!(bc, 0.9999999999999999);
    assert_eq!(stabilize(encode(bc), encode(tol)), encode(bc));
    let d = rao_distance_categorical(&p, &p, tol).unwrap();
    assert_eq!(d, 2.0 * bc.acos());
    assert!(d > 0.0 && d < 1e-7);
    assert_eq!(rao_distance_categorical(&p, &p, 1e-12).unwrap(), 0.0);
}

#[test]
fn stabilize_keeps_the_unit_interval() {
    for bc in [-3.0, -1e-17, -0.0, 0.0, 1e-300, 0.3, 0.999, 1.0, 1.0000000000000002, 7.0, f64::INFINITY] {
        for tol in [0.0, 1e-12, 1e-9, 0.5, -1.0, f64::INFINITY, f64::NAN] {
            let s = decode(stabilize(encode(bc), encode(tol)));
            assert!((0.0..=1.0).contains(&s), "bc={bc} tol={tol} s={s}");
            let d = 2.0 * s.acos();
            assert!((0.0..=core::f64::consts::PI).contains(&d));
        }
    }
}

#[test]
fn stabilize_leaves_one_as_it_is_under_every_tolerance() {
    for tol in [0.0, -0.0, 1e-12, -1e-12, f64::INFINITY, f64::NEG_INFINITY, f64::NAN, 5e-324] {
        assert_eq!(stabilize(encode(1.0), encode(tol)), encode(1.0));
    }
}

#[test]
fn stabilize_with_a_zero_tolerance_snaps_nothing_but_one() {
    let below = f64::from_bits(1.0f64.to_bits() - 1);
    assert_eq!(stabilize(encode(below), encode(0.0)), encode(below));
    assert_eq!(stabilize(encode(1.0), encode(0.0)), encode(1.0));
    assert_eq!(stabilize(encode(1.5), encode(0.0)), encode(1.0));
}

#[test]
fn stabilize_never_snaps_under_a_nan_or_negative_tolerance() {
    for tol in [f64::NAN, -1e-9, f64::NEG_INFINITY] {
        assert_eq!(stabilize(encode(0.999999999), encode(tol)), encode(0.999999999));
    }
}

#[test]
fn stabilize_returns_a_nan_coefficient_as_it_is() {
    let nan = Binary64 { bits: 0xFFF8_0000_0000_0ABC };
    assert_eq!(stabilize(nan, encode(1e-9)), nan);
    assert_eq!(stabilize(nan, encode(f64::INFINITY)), nan);
}

#[test]
fn disjoint_supports_are_a_half_turn_apart() {
    let a = [1.0, 0.0];
    let b = [0.0, 1.0];
    let d = rao_distance_categorical(&a, &b, 1e-9).unwrap();
    assert_eq!(d, core::f64::consts::PI);
    assert!((hellinger(&a, &b, 1e-9).unwrap() - 1.0).abs() < 1e-12);
}
