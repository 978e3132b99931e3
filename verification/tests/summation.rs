use train_sim::fixed::Fixed;
use train_sim::summation::{
    left_riemann, mid_riemann, right_riemann, simpsons, trapezoidal, Callable, InterpolateLookup,
    Quadratic, SimError,
};

fn fx(v: f64) -> Fixed {
    Fixed::from_bits((v * 4294967296.0).round() as i128)
}

fn to_f64(v: Fixed) -> f64 {
    v.bits() as f64 / 4294967296.0
}

fn simple_curve() -> Quadratic {
    Quadratic { a2: fx(-1.0), a1: fx(4.0), a0: fx(0.0) }
}

#[test]
fn left() {
    let calc = left_riemann(fx(0.0), fx(4.0), 4, &simple_curve()).unwrap();

    assert_eq!(to_f64(calc), 10.0);
}

#[test]
fn mid() {
    let calc = mid_riemann(fx(0.0), fx(4.0), 4, &simple_curve()).unwrap();

    assert_eq!(to_f64(calc), 11.0);
}

#[test]
fn right() {
    let calc = right_riemann(fx(0.0), fx(4.0), 4, &simple_curve()).unwrap();

    assert_eq!(to_f64(calc), 10.0);
}

#[test]
fn trap() {
    let calc = trapezoidal(fx(0.0), fx(4.0), 4, &simple_curve()).unwrap();

    assert_eq!(to_f64(calc), 10.0);
}

#[test]
fn interpolate() {
    let lookup = InterpolateLookup::from(vec![fx(0.0), fx(1.0), fx(2.0)]);

    assert_eq!(to_f64(lookup.call(fx(0.0))), 0.0);
    assert_eq!(to_f64(lookup.call(fx(1.0))), 1.0);
    assert_eq!(to_f64(lookup.call(fx(0.5))), 0.5);
    assert_eq!(to_f64(lookup.call(fx(1.5))), 1.5);
}

#[test]
fn simpsons_curve() {
    let calc = simpsons(fx(0.0), fx(4.0), 4, &simple_curve()).unwrap();

    // The exact integral of 4x - x^2 over [0, 4] is 32/3; Simpson's rule is
    // exact on quadratics, so the only deviation is the final truncating
    // division of 32 << 32 by three.
    assert_eq!(calc.bits(), 137438953472 / 3);
}

#[test]
fn zero_subdivisions_left() {
    let res = left_riemann(fx(0.0), fx(4.0), 0, &simple_curve());

    assert_eq!(res, Err(SimError::ConfigurationError));
}

#[test]
fn zero_subdivisions_mid() {
    let res = mid_riemann(fx(0.0), fx(4.0), 0, &simple_curve());

    assert_eq!(res, Err(SimError::ConfigurationError));
}

#[test]
fn zero_subdivisions_right() {
    let res = right_riemann(fx(0.0), fx(4.0), 0, &simple_curve());

    assert_eq!(res, Err(SimError::ConfigurationError));
}

#[test]
fn zero_subdivisions_trapezoidal() {
    let res = trapezoidal(fx(0.0), fx(4.0), 0, &simple_curve());

    assert_eq!(res, Err(SimError::ConfigurationError));
}

#[test]
fn zero_subdivisions_simpsons() {
    let res = simpsons(fx(0.0), fx(4.0), 0, &simple_curve());

    assert_eq!(res, Err(SimError::ConfigurationError));
}

#[test]
fn interpolate_table_of_lookups() {
    let mut lookup = InterpolateLookup::from(Vec::new());
    lookup.push(fx(0.0));
    lookup.push(fx(1.5));
    lookup.push(fx(3.0));

    assert_eq!(lookup.len(), 3);
    assert_eq!(to_f64(lookup.call(fx(1.5))), 2.25);
}

#[test]
fn out_of_domain_query_fails() {
    let lookup = InterpolateLookup::from(vec![fx(0.0), fx(1.0), fx(2.0)]);

    // A query at the table's length is past the last stored sample.
    assert_eq!(lookup.try_call(fx(3.0)), Err(SimError::IndexOutOfRange));
    assert_eq!(lookup.try_call(fx(2.5)), Err(SimError::IndexOutOfRange));
    assert_eq!(lookup.try_call(fx(-0.5)), Err(SimError::IndexOutOfRange));
    assert_eq!(lookup.try_call(fx(2.0)), Ok(fx(2.0)));
}

#[test]
fn index_lookups() {
    let lookup = InterpolateLookup::from(vec![fx(0.0), fx(1.0), fx(2.0)]);

    assert_eq!(lookup.try_get_index(fx(1.0)), Some(fx(1.0)));
    assert_eq!(lookup.try_get_index(fx(1.9)), Some(fx(1.0)));
    assert_eq!(lookup.try_get_index(fx(3.0)), None);
    // A negative position saturates to the first sample, as a saturating
    // cast to an index does.
    assert_eq!(lookup.try_get_index(fx(-1.0)), Some(fx(0.0)));
    assert_eq!(lookup.get_index(fx(2.0)), fx(2.0));
}
