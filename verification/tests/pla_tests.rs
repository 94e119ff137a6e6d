use rmi_lib::data::RMITrainingData;
use rmi_lib::models::{LinearModel, ModelParam, ModelType, TrainedModel};
use rmi_lib::pla::OptimalPLAModel;
use rmi_lib::rat::Rat;

fn container(pts: Vec<(u64, u64)>) -> RMITrainingData {
    RMITrainingData::new(pts).expect("pairs must be sorted")
}

#[test]
fn fits_linear_run() {
    let mut pts = Vec::new();
    for i in 0..50u64 {
        pts.push((i, i * 2));
    }
    let md = container(pts);
    let pla = OptimalPLAModel::new(&md);

    assert_eq!(pla.num_segments(), 1);
    assert_eq!(pla.predict_to_int(10), 20);
    assert_eq!(pla.predict_to_int(49), 98);
}

#[test]
fn makes_multiple_segments_when_needed() {
    let md = container(vec![
        (0, 0),
        (1, 1),
        (2, 2), // first segment
        (100, 120),
        (101, 121),
        (102, 122), // second far apart
    ]);

    let pla = OptimalPLAModel::new(&md);
    assert!(pla.num_segments() >= 2);

    assert_eq!(pla.predict_to_int(0), 0);
    assert_eq!(pla.predict_to_int(101), 121);
}

#[test]
fn empty_defaults_to_zero() {
    let md = RMITrainingData::empty();
    let pla = OptimalPLAModel::new(&md);
    assert_eq!(pla.predict_to_int(5), 0);
}

#[test]
fn per_segment_error_within_one_position() {
    let pts = vec![(0, 0), (1, 1), (2, 2), (100, 120), (101, 121), (102, 122)];
    let md = container(pts.clone());
    let pla = OptimalPLAModel::new(&md);
    for (k, pos) in pts {
        let p = pla.predict_to_int(k);
        let err = if p >= pos { p - pos } else { pos - p };
        assert!(err <= 1);
    }
}

#[test]
fn boundary_key_stays_in_its_own_segment() {
    let md = container(vec![(0, 0), (1, 1), (2, 2), (100, 120), (101, 121), (102, 122)]);
    let pla = OptimalPLAModel::new(&md);
    assert!(pla.num_segments() >= 2);
    // Key 2 is the first segment's boundary key (the last key that segment
    // covers): querying it selects that segment's own line, not the next
    // segment's.
    assert_eq!(pla.predict_to_int(2), 2);
    // A key inside the second cluster is predicted by its own segment.
    assert_eq!(pla.predict_to_int(101), 121);
    // A query above every boundary clamps to the last segment, whose line
    // extrapolates.
    assert_eq!(pla.predict_to_int(4000), 4020);
}

#[test]
fn exact_rational_prediction() {
    let mut pts = Vec::new();
    for i in 0..10u64 {
        pts.push((i, 3 * i + 7));
    }
    let md = container(pts);
    let pla = OptimalPLAModel::new(&md);
    let r = pla.predict(4);
    // The exact line 3k + 7 at key 4.
    assert_eq!(r.num * 1, 19 * r.den);
}

#[test]
fn set_to_constant_model_forces_constant() {
    let md = container(vec![(1, 1), (2, 2), (3, 3)]);
    let mut pla = OptimalPLAModel::new(&md);
    assert!(pla.set_to_constant_model(42));
    assert_eq!(pla.predict_to_int(0), 42);
    assert_eq!(pla.predict_to_int(9999), 42);
    assert_eq!(pla.num_segments(), 1);
}

#[test]
fn pla_params_shape() {
    let md = container(vec![(0, 0), (1, 2), (2, 4)]);
    let pla = OptimalPLAModel::new(&md);
    let params = pla.params();
    assert_eq!(params.len(), 4);
    match &params[0] {
        ModelParam::Int(n) => assert_eq!(*n, pla.num_segments() as u64),
        _ => panic!("first parameter must be the segment count"),
    }
    match &params[1] {
        ModelParam::FloatArray(v) => assert_eq!(v.len(), pla.num_segments()),
        _ => panic!("second parameter must be the intercepts"),
    }
    match &params[3] {
        ModelParam::IntArray(v) => assert_eq!(v.len(), pla.num_segments()),
        _ => panic!("fourth parameter must be the boundaries"),
    }
}

#[test]
fn pla_codegen_surface() {
    let md = RMITrainingData::empty();
    let pla = OptimalPLAModel::new(&md);
    assert!(!pla.needs_bounds_check());
    assert_eq!(pla.error_bound(), Some(1));
    assert_eq!(pla.function_name(), "optimal_pla");
    assert_eq!(pla.model_name(), "optimal_pla");
    assert_eq!(pla.standard_functions().len(), 1);
    assert!(pla.code().contains("optimal_pla"));
}

#[test]
fn linear_model_fits_exact_line() {
    let mut pts = Vec::new();
    for i in 0..20u64 {
        pts.push((i, 3 * i));
    }
    let md = container(pts);
    let lm = LinearModel::fit(&md);
    assert_eq!(lm.predict_to_int(5), 15);
    assert_eq!(lm.predict_to_int(19), 57);
}

#[test]
fn trained_model_dispatch() {
    let md = container(vec![(0, 0), (1, 1), (2, 2)]);
    let m = TrainedModel::fit(ModelType::OptimalPla, &md);
    assert_eq!(m.predict_to_int(1), 1);
    assert_eq!(m.error_bound(), Some(1));
    let lin = TrainedModel::fit(ModelType::Linear, &md);
    assert_eq!(lin.predict_to_int(2), 2);
    assert_eq!(lin.error_bound(), None);
}

#[test]
fn unsorted_pairs_are_rejected() {
    assert!(RMITrainingData::new(vec![(3, 0), (1, 1)]).is_none());
    assert!(RMITrainingData::new(vec![(1, 5), (2, 3)]).is_none());
    assert!(RMITrainingData::new(vec![(1, 0), (2, 1)]).is_some());
}

#[test]
fn rat_whole_values() {
    let r = Rat::whole(9);
    assert_eq!(r.num, 9);
    assert_eq!(r.den, 1);
}
