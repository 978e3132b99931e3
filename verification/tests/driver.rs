use train_sim::fixed::Fixed;
use train_sim::sim::{run_sim, run_sim_rayon, AppAlgo};
use train_sim::summation::{InterpolateLookup, SimError};

fn fx(v: f64) -> Fixed {
    Fixed::from_bits((v * 4294967296.0).round() as i128)
}

fn to_f64(v: Fixed) -> f64 {
    v.bits() as f64 / 4294967296.0
}

fn ramp() -> InterpolateLookup {
    InterpolateLookup::from(vec![fx(0.0), fx(1.0), fx(2.0)])
}

#[test]
fn sequential_left_riemann_values() {
    let outcome = run_sim(AppAlgo::LeftRiemann, 2, &ramp()).unwrap();

    // Velocity deltas with two slices per unit interval: the first interval
    // samples 0 and 0.5, the second samples 1 and 1.5.
    assert_eq!(to_f64(outcome.vel_final), 1.5);
    assert_eq!(to_f64(outcome.velocity.get_index(fx(0.0))), 0.0);
    assert_eq!(to_f64(outcome.velocity.get_index(fx(1.0))), 0.25);
    assert_eq!(to_f64(outcome.velocity.get_index(fx(2.0))), 1.5);
    // Position deltas over the velocity table [0, 0.25, 1.5].
    assert_eq!(to_f64(outcome.pos_final), 0.0625 + 0.5625);
}

#[test]
fn single_sample_yields_zero_tables() {
    let single = InterpolateLookup::from(vec![fx(3.5)]);
    let outcome = run_sim(AppAlgo::Trapezoidal, 100, &single).unwrap();

    assert_eq!(outcome.velocity.len(), 1);
    assert_eq!(outcome.position.len(), 1);
    assert_eq!(to_f64(outcome.velocity.get_index(fx(0.0))), 0.0);
    assert_eq!(to_f64(outcome.position.get_index(fx(0.0))), 0.0);
    assert_eq!(to_f64(outcome.vel_final), 0.0);
    assert_eq!(to_f64(outcome.pos_final), 0.0);
}

#[test]
fn zero_step_fails() {
    let res = run_sim(AppAlgo::Simpsons, 0, &ramp());
    assert!(matches!(res, Err(SimError::ConfigurationError)));

    let res = run_sim_rayon(AppAlgo::Simpsons, 0, &ramp());
    assert!(matches!(res, Err(SimError::ConfigurationError)));
}

#[test]
fn sequential_runs_are_identical() {
    for algo in [
        AppAlgo::LeftRiemann,
        AppAlgo::MidRiemann,
        AppAlgo::RightRiemann,
        AppAlgo::Trapezoidal,
        AppAlgo::Simpsons,
    ] {
        let first = run_sim(algo, 100, &ramp()).unwrap();
        let second = run_sim(algo, 100, &ramp()).unwrap();

        assert_eq!(first.vel_final, second.vel_final);
        assert_eq!(first.pos_final, second.pos_final);
    }
}

#[test]
fn parallel_agrees_with_sequential() {
    let accel = InterpolateLookup::from(vec![
        fx(0.0),
        fx(0.25),
        fx(-1.5),
        fx(3.0),
        fx(2.0),
        fx(-0.5),
    ]);

    for algo in [
        AppAlgo::LeftRiemann,
        AppAlgo::MidRiemann,
        AppAlgo::RightRiemann,
        AppAlgo::Trapezoidal,
        AppAlgo::Simpsons,
    ] {
        let sequential = run_sim(algo, 100, &accel).unwrap();
        let (vel_table, vel_final, pos_final) = run_sim_rayon(algo, 100, &accel).unwrap();

        // Exact agreement, well within any numeric tolerance.
        assert_eq!(sequential.vel_final, vel_final);
        assert_eq!(sequential.pos_final, pos_final);
        assert_eq!(vel_table.len(), sequential.velocity.len());
        for k in 0..vel_table.len() {
            let at = Fixed::from_bits((k as i128) * 4294967296);
            assert_eq!(sequential.velocity.get_index(at), vel_table.get_index(at));
        }
    }
}
