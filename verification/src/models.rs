//! The model abstraction: the closed set of regressor variants, their
//! serializable parameters, and the tagged dispatch the trainer uses.
use vstd::prelude::*;
use crate::data::RMITrainingData;
use crate::pla::{boundaries_of, fit_fits, fit_of, line_sat_int, segs_wf, spec_predict_to_int, LrAcc, OptimalPLAModel, Segment};
use crate::rat::Rat;

verus! {

/// The closed registry of model variants a layer can use.
#[derive(Clone, Copy, Debug, PartialEq, Eq, Structural)]
pub enum ModelType {
    Linear,
    OptimalPla,
}

impl ModelType {
    /// The canonical name of the variant.
    pub fn name(&self) -> (r: &'static str)
        ensures
            self is Linear ==> r@ == "linear"@,
            self is OptimalPla ==> r@ == "optimal_pla"@,
    {
        match self {
            ModelType::Linear => "linear",
            ModelType::OptimalPla => "optimal_pla",
        }
    }
}

/// The code-generation types a model reads and produces.
#[derive(Clone, Copy, Debug, PartialEq, Eq, Structural)]
pub enum ModelDataType {
    Int,
    Float,
}

/// The standard routines a generated lookup needs from its runtime.
#[derive(Clone, Copy, Debug, PartialEq, Eq, Structural)]
pub enum StdFunction {
    BinarySearch,
}

/// A tagged parameter value of a trained model: the serialization contract
/// between the numeric core and the external code generator.  Fractional
/// values are exact rationals.
#[derive(Clone, Debug)]
pub enum ModelParam {
    Int(u64),
    Float(Rat),
    ShortArray(Vec<u16>),
    IntArray(Vec<u64>),
    Int32Array(Vec<u32>),
    FloatArray(Vec<Rat>),
}

/// The element count of a parameter: one for a scalar, the length for an
/// array.
pub open spec fn param_len(p: ModelParam) -> int {
    match p {
        ModelParam::Int(_) => 1,
        ModelParam::Float(_) => 1,
        ModelParam::ShortArray(v) => v@.len() as int,
        ModelParam::IntArray(v) => v@.len() as int,
        ModelParam::Int32Array(v) => v@.len() as int,
        ModelParam::FloatArray(v) => v@.len() as int,
    }
}

impl ModelParam {
    pub fn len(&self) -> (r: usize)
        ensures
            r == param_len(*self),
    {
        match self {
            ModelParam::Int(_) => 1,
            ModelParam::Float(_) => 1,
            ModelParam::ShortArray(v) => v.len(),
            ModelParam::IntArray(v) => v.len(),
            ModelParam::Int32Array(v) => v.len(),
            ModelParam::FloatArray(v) => v.len(),
        }
    }
}

/// The simple least-squares line over a whole container, as an exact
/// rational; a fit whose 128-bit products fall out of range degenerates to
/// the constant-zero line.
#[derive(Clone, Copy, Debug, PartialEq, Eq, Structural)]
pub struct LinearModel {
    pub slope_num: i128,
    pub intercept_num: i128,
    pub den: i128,
}

impl LinearModel {
    pub open spec fn wf(&self) -> bool {
        self.den >= 1
    }

    pub open spec fn spec_predict_to_int(&self, q: u64) -> u64 {
        line_sat_int(self.slope_num as int, self.intercept_num as int, self.den as int, q)
    }

    /// Fits the line over the whole container in one pass.
    pub fn fit(data: &RMITrainingData) -> (r: LinearModel)
        requires
            data.wf(),
        ensures
            r.wf(),
            fit_fits(data@) ==> (r.slope_num as int, r.intercept_num as int, r.den as int)
                == fit_of(data@),
            !fit_fits(data@) ==> r == (LinearModel { slope_num: 0, intercept_num: 0, den: 1 }),
    {
        let n = data.len();
        let mut acc = LrAcc::new();
        let mut i: usize = 0;
        while i < n
            invariant
                n == data@.len(),
                0 <= i <= n,
                acc.wf(),
                acc.points_seq() == data@.subrange(0, i as int),
            decreases n - i,
        {
            let p = data.get(i);
            acc.push(p.0, p.1);
            proof {
                assert(acc.points_seq() =~= data@.subrange(0, i + 1));
            }
            i = i + 1;
        }
        proof {
            assert(acc.points_seq() =~= data@);
        }
        match acc.try_fit() {
            Some((a, b, d)) => LinearModel { slope_num: a, intercept_num: b, den: d },
            None => LinearModel { slope_num: 0, intercept_num: 0, den: 1 },
        }
    }

    pub fn predict_to_int(&self, q: u64) -> (r: u64)
        requires
            self.wf(),
        ensures
            r == self.spec_predict_to_int(q),
    {
        crate::pla::eval_line_int(self.slope_num, self.intercept_num, self.den, q)
    }
}

/// What fitting a model of variant `mt` over the pairs `s` yields: the
/// dispatcher's training contract as a predicate, used by the trainer to
/// state where each layer's models came from.
pub open spec fn spec_fitted(mt: ModelType, s: Seq<(u64, u64)>, m: TrainedModel) -> bool {
    &&& m.wf()
    &&& m.spec_model_type() == mt
    &&& (mt is Linear ==> (m matches TrainedModel::Linear(lm) && (fit_fits(s) ==> (
        lm.slope_num as int,
        lm.intercept_num as int,
        lm.den as int,
    ) == fit_of(s)) && (!fit_fits(s) ==> lm == (LinearModel {
        slope_num: 0,
        intercept_num: 0,
        den: 1,
    }))))
    &&& (mt is OptimalPla ==> (m matches TrainedModel::Pla(pm) && (s.len() == 0 ==> pm@.len() == 1
        && pm@[0] == (Segment { slope_num: 0, intercept_num: 0, den: 1, boundary: u64::MAX }))
        && (s.len() > 0 ==> exists|cuts: Seq<int>| segs_wf(s, pm@, cuts))))
}

/// One trained model instance: the closed tagged dispatch over the model
/// variants.
pub enum TrainedModel {
    Linear(LinearModel),
    Pla(OptimalPLAModel),
}

impl TrainedModel {
    pub open spec fn wf(&self) -> bool {
        match self {
            TrainedModel::Linear(m) => m.wf(),
            TrainedModel::Pla(m) => m.wf(),
        }
    }

    pub open spec fn spec_model_type(&self) -> ModelType {
        match self {
            TrainedModel::Linear(_) => ModelType::Linear,
            TrainedModel::Pla(_) => ModelType::OptimalPla,
        }
    }

    pub open spec fn spec_predict_to_int(&self, q: u64) -> u64 {
        match self {
            TrainedModel::Linear(m) => m.spec_predict_to_int(q),
            TrainedModel::Pla(m) => spec_predict_to_int(m@, q),
        }
    }

    /// Fits one model of the requested variant over the container, with
    /// the variant's own training contract carried through the dispatch.
    pub fn fit(mt: ModelType, data: &RMITrainingData) -> (r: TrainedModel)
        requires
            data.wf(),
        ensures
            r.wf(),
            r.spec_model_type() == mt,
            mt is Linear ==> (r matches TrainedModel::Linear(m) && (fit_fits(data@) ==> (
            m.slope_num as int,
            m.intercept_num as int,
            m.den as int,
            ) == fit_of(data@)) && (!fit_fits(data@) ==> m == (LinearModel {
                slope_num: 0,
                intercept_num: 0,
                den: 1,
            }))),
            mt is OptimalPla ==> (r matches TrainedModel::Pla(m) && (data@.len() == 0 ==> m@.len()
                == 1 && m@[0] == (Segment {
                slope_num: 0,
                intercept_num: 0,
                den: 1,
                boundary: u64::MAX,
            })) && (data@.len() > 0 ==> exists|cuts: Seq<int>| segs_wf(data@, m@, cuts))),
    {
        match mt {
            ModelType::Linear => TrainedModel::Linear(LinearModel::fit(data)),
            ModelType::OptimalPla => TrainedModel::Pla(OptimalPLAModel::new(data)),
        }
    }

    pub fn predict_to_int(&self, q: u64) -> (r: u64)
        requires
            self.wf(),
        ensures
            r == self.spec_predict_to_int(q),
    {
        match self {
            TrainedModel::Linear(m) => m.predict_to_int(q),
            TrainedModel::Pla(m) => m.predict_to_int(q),
        }
    }

    /// Forces the model to predict `constant` for every key.  Both variants
    /// can represent a constant, so this always succeeds.
    pub fn set_to_constant_model(&mut self, constant: u64) -> (r: bool)
        ensures
            r == true,
            final(self).wf(),
            final(self).spec_model_type() == old(self).spec_model_type(),
            forall|q: u64| final(self).spec_predict_to_int(q) == constant,
            (*old(self)) is Linear ==> *final(self) == TrainedModel::Linear(
                LinearModel { slope_num: 0, intercept_num: constant as i128, den: 1 },
            ),
            (*old(self)) is Pla ==> ((*final(self)) matches TrainedModel::Pla(m) && m@.len() == 1
                && m@[0] == (Segment {
                slope_num: 0,
                intercept_num: constant as i128,
                den: 1,
                boundary: u64::MAX,
            })),
    {
        match self {
            TrainedModel::Linear(m) => {
                m.slope_num = 0;
                m.intercept_num = constant as i128;
                m.den = 1;
                proof {
                    assert forall|q: u64| self.spec_predict_to_int(q) == constant by {
                        crate::pla::lemma_line_const(constant, q);
                    }
                }
                true
            },
            TrainedModel::Pla(m) => {
                let ok = m.set_to_constant_model(constant);
                proof {
                    assert forall|q: u64| self.spec_predict_to_int(q) == constant by {
                        crate::pla::lemma_constant_model_predicts(m@, constant, q);
                    }
                }
                ok
            },
        }
    }

    /// The declared absolute error bound: the construction bound for the
    /// piecewise-linear variant, none for plain least squares.
    pub fn error_bound(&self) -> (r: Option<u64>)
        ensures
            self is Pla ==> r == Some(1u64),
            self is Linear ==> r is None,
    {
        match self {
            TrainedModel::Linear(_) => None,
            TrainedModel::Pla(m) => m.error_bound(),
        }
    }

    /// The ordered parameter list that fully captures the trained state.
    pub fn params(&self) -> (r: Vec<ModelParam>)
        ensures
            self matches TrainedModel::Linear(m) ==> r@.len() == 2 && r@[0]
                == ModelParam::Float(Rat { num: m.intercept_num, den: m.den }) && r@[1]
                == ModelParam::Float(Rat { num: m.slope_num, den: m.den }),
            self matches TrainedModel::Pla(m) ==> r@.len() == 4 && r@[0] == ModelParam::Int(
                m@.len() as u64,
            ) && (r@[1] matches ModelParam::FloatArray(v) && v@ == m@.map_values(
                |g: Segment| Rat { num: g.intercept_num, den: g.den },
            )) && (r@[2] matches ModelParam::FloatArray(v) && v@ == m@.map_values(
                |g: Segment| Rat { num: g.slope_num, den: g.den },
            )) && (r@[3] matches ModelParam::IntArray(v) && v@ == boundaries_of(m@)),
    {
        match self {
            TrainedModel::Linear(m) => {
                let mut v: Vec<ModelParam> = Vec::new();
                v.push(ModelParam::Float(Rat { num: m.intercept_num, den: m.den }));
                v.push(ModelParam::Float(Rat { num: m.slope_num, den: m.den }));
                v
            },
            TrainedModel::Pla(m) => m.params(),
        }
    }
}

} // verus!
