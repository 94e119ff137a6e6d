use rmi_lib::data::RMITrainingData;
use rmi_lib::manifest::{ParamKind, ParamValue, ParameterDescriptor, RmiMetadata};
use rmi_lib::models::{ModelParam, ModelType};
use rmi_lib::optimizer::{find_pareto_efficient_configs, pareto_frontier, rmi_size, ParetoCandidate};
use rmi_lib::train::{train, ConfigError, TrainConfig};

fn line_data(n: u64) -> RMITrainingData {
    let mut pts = Vec::new();
    for i in 0..n {
        pts.push((i * 3, i));
    }
    RMITrainingData::new(pts).expect("sorted")
}

#[test]
fn train_two_layers() {
    let data = line_data(64);
    let cfg = TrainConfig {
        model_types: vec![ModelType::Linear, ModelType::OptimalPla],
        branching_factor: 4,
    };
    let t = train(&data, &cfg).expect("valid configuration");
    assert_eq!(t.layers.len(), 2);
    assert_eq!(t.layers[0].len(), 1);
    assert_eq!(t.layers[1].len(), 4);
    assert_eq!(t.num_data_rows, 64);
    assert_eq!(t.branching_factor, 4);
    // Exact-line data through exact fits: every leaf prediction is within
    // one position, so the leaf layer's bound is certified.
    assert!(t.model_max_error <= 1);
    assert!(t.last_layer_reports_error);
}

#[test]
fn train_single_layer_exact() {
    let data = line_data(32);
    let cfg = TrainConfig { model_types: vec![ModelType::OptimalPla], branching_factor: 1 };
    let t = train(&data, &cfg).expect("valid configuration");
    assert_eq!(t.layers.len(), 1);
    assert_eq!(t.model_max_error, 0);
    assert_eq!(t.sum_abs_err, 0);
    assert_eq!(t.sum_sq_err, 0);
}

#[test]
fn train_rejects_bad_configs() {
    let data = line_data(4);
    let empty = TrainConfig { model_types: Vec::new(), branching_factor: 2 };
    match train(&data, &empty) {
        Err(e) => assert_eq!(e, ConfigError::EmptyModelList),
        Ok(_) => panic!("an empty model list must be rejected"),
    }
    let zero = TrainConfig { model_types: vec![ModelType::Linear], branching_factor: 0 };
    match train(&data, &zero) {
        Err(e) => assert_eq!(e, ConfigError::ZeroBranchingFactor),
        Ok(_) => panic!("a zero branching factor must be rejected"),
    }
    let huge = TrainConfig {
        model_types: vec![ModelType::Linear, ModelType::Linear, ModelType::Linear],
        branching_factor: u64::MAX,
    };
    match train(&data, &huge) {
        Err(e) => assert_eq!(e, ConfigError::LayerSizeOverflow),
        Ok(_) => panic!("an oversized layer must be rejected"),
    }
}

#[test]
fn train_empty_data() {
    let data = RMITrainingData::empty();
    let cfg = TrainConfig { model_types: vec![ModelType::OptimalPla], branching_factor: 1 };
    let t = train(&data, &cfg).expect("valid configuration");
    assert_eq!(t.model_max_error, 0);
    assert_eq!(t.num_data_rows, 0);
}

#[test]
fn frontier_drops_dominated_candidates() {
    let cands = vec![
        ParetoCandidate { config_index: 0, size: 5, max_error: 5 },
        ParetoCandidate { config_index: 1, size: 3, max_error: 7 },
        ParetoCandidate { config_index: 2, size: 6, max_error: 4 },
        ParetoCandidate { config_index: 3, size: 5, max_error: 6 },
        ParetoCandidate { config_index: 4, size: 4, max_error: 6 },
    ];
    let front = pareto_frontier(&cands);
    // (5, 6) is dominated by (5, 5) and by (4, 6); everything else survives.
    assert_eq!(front.len(), 4);
    for a in &front {
        for b in &front {
            let dominates =
                a.size <= b.size && a.max_error <= b.max_error && (a.size < b.size
                    || a.max_error < b.max_error);
            assert!(!dominates);
        }
    }
}

#[test]
fn optimizer_output_is_sorted_and_nondominated() {
    let data = line_data(32);
    let configs = vec![
        TrainConfig { model_types: vec![ModelType::OptimalPla], branching_factor: 1 },
        TrainConfig {
            model_types: vec![ModelType::Linear, ModelType::OptimalPla],
            branching_factor: 4,
        },
        TrainConfig { model_types: vec![ModelType::Linear], branching_factor: 0 },
    ];
    let out = find_pareto_efficient_configs(&data, &configs);
    assert!(!out.is_empty());
    for w in out.windows(2) {
        assert!(
            w[0].size < w[1].size || (w[0].size == w[1].size && w[0].max_error <= w[1].max_error)
        );
    }
    for c in &out {
        assert!(c.config_index < configs.len());
    }
}

#[test]
fn rmi_size_counts_parameters() {
    let data = line_data(16);
    let cfg = TrainConfig { model_types: vec![ModelType::OptimalPla], branching_factor: 1 };
    let t = train(&data, &cfg).expect("valid configuration");
    // One linear run: a single segment, so 1 + 3 * 1 parameter elements.
    assert_eq!(rmi_size(&t), 4);
}

#[test]
fn descriptors_and_values_mirror_params() {
    let p = ModelParam::IntArray(vec![4, 5, 6]);
    let d = ParameterDescriptor::from_param(&p);
    assert_eq!(d.kind, ParamKind::IntArray);
    assert_eq!(d.len, 3);
    match ParamValue::from_param(&p) {
        ParamValue::IntArray(v) => assert_eq!(v, vec![4, 5, 6]),
        _ => panic!("kind must be preserved"),
    }
    let scalar = ModelParam::Int(9);
    let ds = ParameterDescriptor::from_param(&scalar);
    assert_eq!(ds.kind, ParamKind::Int);
    assert_eq!(ds.len, 1);
}

#[test]
fn metadata_assembles_structural_fields() {
    let data = line_data(16);
    let cfg = TrainConfig {
        model_types: vec![ModelType::Linear, ModelType::OptimalPla],
        branching_factor: 2,
    };
    let t = train(&data, &cfg).expect("valid configuration");
    let md = RmiMetadata::assemble(
        "ns".to_string(),
        "uint64".to_string(),
        &t,
        1234,
        Vec::new(),
        None,
    );
    assert_eq!(md.namespace, "ns");
    assert_eq!(md.key_type, "uint64");
    assert_eq!(md.models, vec!["linear".to_string(), "optimal_pla".to_string()]);
    assert_eq!(md.branching_factor, 2);
    assert_eq!(md.build_time_ns, 1234);
    assert_eq!(md.num_data_rows, 16);
    assert_eq!(md.model_max_error, t.model_max_error);
    assert!(md.cache_fix.is_none());
}
