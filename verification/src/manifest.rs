//! The structural metadata of a trained index: the parameter descriptors,
//! per-layer descriptions, and the top-level record an external writer
//! persists.  Assembling the record is pure; reading and writing the
//! persisted document is the caller's concern.
use vstd::prelude::*;
use crate::models::{ModelParam, ModelType};
use crate::rat::Rat;
use crate::train::TrainedRMI;

verus! {

/// The kind tag of a serialized parameter.
#[derive(Clone, Copy, Debug, PartialEq, Eq, Structural)]
pub enum ParamKind {
    Int,
    Float,
    ShortArray,
    IntArray,
    Int32Array,
    FloatArray,
}

/// A serialized parameter value.  Fractional values are exact rationals.
#[derive(Clone, Debug)]
pub enum ParamValue {
    Int(u64),
    Float(Rat),
    ShortArray(Vec<u16>),
    IntArray(Vec<u64>),
    Int32Array(Vec<u32>),
    FloatArray(Vec<Rat>),
}

/// The kind a parameter serializes under.
pub open spec fn spec_kind_of(p: ModelParam) -> ParamKind {
    match p {
        ModelParam::Int(_) => ParamKind::Int,
        ModelParam::Float(_) => ParamKind::Float,
        ModelParam::ShortArray(_) => ParamKind::ShortArray,
        ModelParam::IntArray(_) => ParamKind::IntArray,
        ModelParam::Int32Array(_) => ParamKind::Int32Array,
        ModelParam::FloatArray(_) => ParamKind::FloatArray,
    }
}

fn copy_u16s(v: &Vec<u16>) -> (r: Vec<u16>)
    ensures
        r@ == v@,
{
    let mut r: Vec<u16> = Vec::new();
    let mut i: usize = 0;
    while i < v.len()
        invariant
            0 <= i <= v@.len(),
            r@ == v@.subrange(0, i as int),
        decreases v@.len() - i,
    {
        r.push(v[i]);
        proof {
            assert(r@ =~= v@.subrange(0, i + 1));
        }
        i = i + 1;
    }
    proof {
        assert(r@ =~= v@);
    }
    r
}

fn copy_u32s(v: &Vec<u32>) -> (r: Vec<u32>)
    ensures
        r@ == v@,
{
    let mut r: Vec<u32> = Vec::new();
    let mut i: usize = 0;
    while i < v.len()
        invariant
            0 <= i <= v@.len(),
            r@ == v@.subrange(0, i as int),
        decreases v@.len() - i,
    {
        r.push(v[i]);
        proof {
            assert(r@ =~= v@.subrange(0, i + 1));
        }
        i = i + 1;
    }
    proof {
        assert(r@ =~= v@);
    }
    r
}

fn copy_u64s(v: &Vec<u64>) -> (r: Vec<u64>)
    ensures
        r@ == v@,
{
    let mut r: Vec<u64> = Vec::new();
    let mut i: usize = 0;
    while i < v.len()
        invariant
            0 <= i <= v@.len(),
            r@ == v@.subrange(0, i as int),
        decreases v@.len() - i,
    {
        r.push(v[i]);
        proof {
            assert(r@ =~= v@.subrange(0, i + 1));
        }
        i = i + 1;
    }
    proof {
        assert(r@ =~= v@);
    }
    r
}

fn copy_rats(v: &Vec<Rat>) -> (r: Vec<Rat>)
    ensures
        r@ == v@,
{
    let mut r: Vec<Rat> = Vec::new();
    let mut i: usize = 0;
    while i < v.len()
        invariant
            0 <= i <= v@.len(),
            r@ == v@.subrange(0, i as int),
        decreases v@.len() - i,
    {
        r.push(v[i]);
        proof {
            assert(r@ =~= v@.subrange(0, i + 1));
        }
        i = i + 1;
    }
    proof {
        assert(r@ =~= v@);
    }
    r
}

impl ParamValue {
    /// The serialized form of a model parameter: the same tagged value.
    pub fn from_param(p: &ModelParam) -> (r: ParamValue)
        ensures
            (*p) matches ModelParam::Int(v) ==> r == ParamValue::Int(v),
            (*p) matches ModelParam::Float(v) ==> r == ParamValue::Float(v),
            (*p) matches ModelParam::ShortArray(v) ==> r matches ParamValue::ShortArray(w) && w@
                == v@,
            (*p) matches ModelParam::IntArray(v) ==> r matches ParamValue::IntArray(w) && w@
                == v@,
            (*p) matches ModelParam::Int32Array(v) ==> r matches ParamValue::Int32Array(w) && w@
                == v@,
            (*p) matches ModelParam::FloatArray(v) ==> r matches ParamValue::FloatArray(w) && w@
                == v@,
    {
        match p {
            ModelParam::Int(v) => ParamValue::Int(*v),
            ModelParam::Float(v) => ParamValue::Float(*v),
            ModelParam::ShortArray(v) => ParamValue::ShortArray(copy_u16s(v)),
            ModelParam::IntArray(v) => ParamValue::IntArray(copy_u64s(v)),
            ModelParam::Int32Array(v) => ParamValue::Int32Array(copy_u32s(v)),
            ModelParam::FloatArray(v) => ParamValue::FloatArray(copy_rats(v)),
        }
    }
}

/// The self-describing shape of one parameter: its kind and element count.
#[derive(Clone, Copy, Debug, PartialEq, Eq, Structural)]
pub struct ParameterDescriptor {
    pub kind: ParamKind,
    pub len: usize,
}

impl ParameterDescriptor {
    /// The descriptor of a model parameter.
    pub fn from_param(p: &ModelParam) -> (r: ParameterDescriptor)
        ensures
            r.kind == spec_kind_of(*p),
            r.len == crate::models::param_len(*p),
    {
        let kind = match p {
            ModelParam::Int(_) => ParamKind::Int,
            ModelParam::Float(_) => ParamKind::Float,
            ModelParam::ShortArray(_) => ParamKind::ShortArray,
            ModelParam::IntArray(_) => ParamKind::IntArray,
            ModelParam::Int32Array(_) => ParamKind::Int32Array,
            ModelParam::FloatArray(_) => ParamKind::FloatArray,
        };
        ParameterDescriptor { kind, len: p.len() }
    }
}

/// How a layer's parameters are stored: inline constants, or a named
/// out-of-line array file.
#[derive(Clone, Debug)]
pub enum LayerStorage {
    Constant { values: Vec<ParamValue> },
    Array { file: String },
    MixedArray { file: String },
}

/// The description of one layer of the hierarchy.
#[derive(Clone, Debug)]
pub struct LayerMetadata {
    pub index: usize,
    pub model_type: String,
    pub num_models: usize,
    pub params_per_model: usize,
    pub parameters: Vec<ParameterDescriptor>,
    pub storage: LayerStorage,
}

/// The descriptor of an external cache-layout pass over the leaf arrays.
#[derive(Clone, Debug)]
pub struct CacheFixMetadata {
    pub file: String,
    pub line_size: usize,
    pub points: usize,
}

/// The structural record of a trained index.  Mean errors are carried as
/// exact sums over the data-row count.
#[derive(Debug)]
pub struct RmiMetadata {
    pub namespace: String,
    pub key_type: String,
    pub models: Vec<String>,
    pub branching_factor: u64,
    pub build_time_ns: u128,
    pub num_rmi_rows: usize,
    pub num_data_rows: usize,
    pub model_sum_error: u128,
    pub model_sum_l2_error: u128,
    pub model_max_error: u64,
    pub model_max_error_idx: usize,
    pub last_layer_reports_error: bool,
    pub layers: Vec<LayerMetadata>,
    pub cache_fix: Option<CacheFixMetadata>,
}

impl RmiMetadata {
    /// Assembles the record of a trained hierarchy: every structural field
    /// copied from the training result, the layer descriptions and timing
    /// supplied by the caller.
    pub fn assemble(
        namespace: String,
        key_type: String,
        rmi: &TrainedRMI,
        build_time_ns: u128,
        layers: Vec<LayerMetadata>,
        cache_fix: Option<CacheFixMetadata>,
    ) -> (r: RmiMetadata)
        ensures
            r.namespace == namespace,
            r.key_type == key_type,
            r.models@.len() == rmi.model_types@.len(),
            forall|i: int|
                0 <= i < r.models@.len() ==> (#[trigger] r.models@[i])@ == name_of(
                    rmi.model_types@[i],
                ),
            r.branching_factor == rmi.branching_factor,
            r.build_time_ns == build_time_ns,
            r.num_rmi_rows == rmi.num_rmi_rows,
            r.num_data_rows == rmi.num_data_rows,
            r.model_sum_error == rmi.sum_abs_err,
            r.model_sum_l2_error == rmi.sum_sq_err,
            r.model_max_error == rmi.model_max_error,
            r.model_max_error_idx == rmi.model_max_error_idx,
            r.last_layer_reports_error == rmi.last_layer_reports_error,
            r.layers == layers,
            r.cache_fix == cache_fix,
    {
        let mut models: Vec<String> = Vec::new();
        let mut i: usize = 0;
        while i < rmi.model_types.len()
            invariant
                0 <= i <= rmi.model_types@.len(),
                models@.len() == i,
                forall|k: int|
                    0 <= k < i ==> (#[trigger] models@[k])@ == name_of(rmi.model_types@[k]),
            decreases rmi.model_types@.len() - i,
        {
            let name = rmi.model_types[i].name().to_owned();
            models.push(name);
            i = i + 1;
        }
        RmiMetadata {
            namespace,
            key_type,
            models,
            branching_factor: rmi.branching_factor,
            build_time_ns,
            num_rmi_rows: rmi.num_rmi_rows,
            num_data_rows: rmi.num_data_rows,
            model_sum_error: rmi.sum_abs_err,
            model_sum_l2_error: rmi.sum_sq_err,
            model_max_error: rmi.model_max_error,
            model_max_error_idx: rmi.model_max_error_idx,
            last_layer_reports_error: rmi.last_layer_reports_error,
            layers,
            cache_fix,
        }
    }
}

/// The canonical name of a model variant.
pub open spec fn name_of(mt: ModelType) -> Seq<char> {
    match mt {
        ModelType::Linear => "linear"@,
        ModelType::OptimalPla => "optimal_pla"@,
    }
}

} // verus!
