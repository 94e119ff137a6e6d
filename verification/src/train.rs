//! The recursive layer-by-layer trainer: layer 0 holds one model over the
//! whole container; every internal layer routes each pair into one of the
//! next layer's buckets; the leaf layer predicts the final position.  A
//! single pass afterwards collects calibrated error statistics and decides
//! whether the leaf layer may report its own error window.
use vstd::prelude::*;
use vstd::arithmetic::div_mod::lemma_div_pos_is_pos;
use crate::data::RMITrainingData;
use crate::models::{spec_fitted, ModelType, TrainedModel};
use crate::pla::{fit_fits, fit_of};

verus! {

/// Configuration errors, all detected before any training work begins.
#[derive(Clone, Copy, Debug, PartialEq, Eq, Structural)]
pub enum ConfigError {
    EmptyModelList,
    ZeroBranchingFactor,
    LayerSizeOverflow,
}

/// One trial configuration: a model variant per layer and the branching
/// factor between layers.
#[derive(Clone, Debug)]
pub struct TrainConfig {
    pub model_types: Vec<ModelType>,
    pub branching_factor: u64,
}

/// The number of models at depth `d`: the branching factor raised to `d`.
pub open spec fn layer_pow(b: int, d: int) -> int
    decreases d,
{
    if d <= 0 {
        1
    } else {
        b * layer_pow(b, d - 1)
    }
}

/// The total number of models across depths `0..l`: the summed layer
/// sizes.
pub open spec fn layer_pow_sum(b: int, l: int) -> int
    decreases l,
{
    if l <= 0 {
        0
    } else {
        layer_pow_sum(b, l - 1) + layer_pow(b, l - 1)
    }
}

/// A well-formed configuration: at least one layer, a positive branching
/// factor, and every layer size representable.
pub open spec fn spec_config_ok(types: Seq<ModelType>, b: int) -> bool {
    &&& types.len() >= 1
    &&& b >= 1
    &&& forall|d: int| 0 <= d < types.len() ==> #[trigger] layer_pow(b, d) <= usize::MAX
}

/// The routing function: scales a predicted position over `n` rows into one
/// of `m` buckets, clamped so every bucket index is in range even under
/// extrapolation.
pub open spec fn spec_route(pred: u64, n: int, m: int) -> int {
    let g = (pred as int) * m / n;
    if g >= m {
        m - 1
    } else {
        g
    }
}

proof fn lemma_layer_pow_sum_nonneg(b: int, l: int)
    requires
        b >= 1,
    ensures
        layer_pow_sum(b, l) >= 0,
        l >= 0 ==> forall|d: int| 0 <= d < l ==> #[trigger] layer_pow(b, d) >= 1,
    decreases l,
{
    if l > 0 {
        lemma_layer_pow_sum_nonneg(b, l - 1);
        assert(layer_pow(b, l - 1) >= 1) by (nonlinear_arith)
            requires
                b >= 1,
                l - 1 == 0 || layer_pow(b, l - 1) == b * layer_pow(b, l - 2),
                l - 1 <= 0 || layer_pow(b, l - 2) >= 1,
        ;
    }
}

proof fn lemma_route_in_range(pred: u64, n: int, m: int)
    requires
        n >= 1,
        m >= 1,
    ensures
        0 <= spec_route(pred, n, m) < m,
{
    assert((pred as int) * m >= 0) by (nonlinear_arith)
        requires
            pred as int >= 0,
            m >= 1,
    ;
    lemma_div_pos_is_pos((pred as int) * m, n);
}

/// Routes a predicted position into a bucket of the next layer; the result
/// is always within `[0, m)`.
pub fn route(pred: u64, n: usize, m: usize) -> (r: usize)
    requires
        n >= 1,
        m >= 1,
    ensures
        r as int == spec_route(pred, n as int, m as int),
        r < m,
{
    proof {
        lemma_route_in_range(pred, n as int, m as int);
        assert((pred as u128) * (m as u128) <= u128::MAX) by (nonlinear_arith)
            requires
                pred as u128 <= u64::MAX,
                m as u128 <= u64::MAX,
                u128::MAX >= (u64::MAX as u128) * (u64::MAX as u128),
        ;
    }
    let t: u128 = (pred as u128) * (m as u128);
    let g: u128 = t / (n as u128);
    if g >= m as u128 {
        m - 1
    } else {
        g as usize
    }
}

/// The bucket a query key reaches at depth `d`, following the routing
/// decisions of depths `0..d`.
pub open spec fn spec_bucket_at(layers: Seq<Vec<TrainedModel>>, n: int, q: u64, d: int) -> int
    decreases d,
{
    if d <= 0 {
        0
    } else {
        let prev = spec_bucket_at(layers, n, q, d - 1);
        spec_route(layers[d - 1]@[prev].spec_predict_to_int(q), n, layers[d]@.len() as int)
    }
}

/// The final position the trained hierarchy predicts for a query key.
pub open spec fn spec_rmi_predict(layers: Seq<Vec<TrainedModel>>, n: int, q: u64) -> u64 {
    let l = layers.len() as int;
    layers[l - 1]@[spec_bucket_at(layers, n, q, l - 1)].spec_predict_to_int(q)
}

/// Every layer nonempty and every model well formed.
pub open spec fn layers_wf(layers: Seq<Vec<TrainedModel>>) -> bool {
    &&& layers.len() >= 1
    &&& forall|d: int| 0 <= d < layers.len() ==> (#[trigger] layers[d])@.len() >= 1
    &&& forall|d: int, j: int|
        #![trigger layers[d]@[j]]
        0 <= d < layers.len() && 0 <= j < layers[d]@.len() ==> layers[d]@[j].wf()
}

/// Recursive routing coverage: at every depth the reached bucket index is
/// within the layer, whatever the models predict.
pub proof fn lemma_routing_coverage(layers: Seq<Vec<TrainedModel>>, n: int, q: u64, d: int)
    requires
        layers_wf(layers),
        n >= 1,
        0 <= d < layers.len(),
    ensures
        0 <= spec_bucket_at(layers, n, q, d) < layers[d]@.len(),
    decreases d,
{
    if d > 0 {
        lemma_routing_coverage(layers, n, q, d - 1);
        let prev = spec_bucket_at(layers, n, q, d - 1);
        lemma_route_in_range(layers[d - 1]@[prev].spec_predict_to_int(q), n, layers[d]@.len() as int);
    }
}

/// The absolute error of the hierarchy on one training pair.
pub open spec fn spec_err_at(layers: Seq<Vec<TrainedModel>>, n: int, p: (u64, u64)) -> u64 {
    let pred = spec_rmi_predict(layers, n, p.0);
    if pred >= p.1 {
        (pred - p.1) as u64
    } else {
        (p.1 - pred) as u64
    }
}

pub open spec fn spec_err_sum(layers: Seq<Vec<TrainedModel>>, n: int, s: Seq<(u64, u64)>) -> int
    decreases s.len(),
{
    if s.len() == 0 {
        0
    } else {
        spec_err_sum(layers, n, s.drop_last()) + spec_err_at(layers, n, s.last())
    }
}

pub open spec fn spec_err_sq_sum(layers: Seq<Vec<TrainedModel>>, n: int, s: Seq<(u64, u64)>) -> int
    decreases s.len(),
{
    if s.len() == 0 {
        0
    } else {
        spec_err_sq_sum(layers, n, s.drop_last()) + spec_err_at(layers, n, s.last()) * spec_err_at(
            layers,
            n,
            s.last(),
        )
    }
}

proof fn lemma_err_sums_nonneg(layers: Seq<Vec<TrainedModel>>, n: int, s: Seq<(u64, u64)>)
    ensures
        spec_err_sum(layers, n, s) >= 0,
        spec_err_sq_sum(layers, n, s) >= 0,
    decreases s.len(),
{
    if s.len() > 0 {
        lemma_err_sums_nonneg(layers, n, s.drop_last());
        let e = spec_err_at(layers, n, s.last());
        assert(e * e >= 0) by (nonlinear_arith);
    }
}

/// Evaluates the trained hierarchy on one key, walking the routing chain
/// from layer 0 to the leaf.
fn rmi_eval(layers: &Vec<Vec<TrainedModel>>, n: usize, q: u64) -> (r: u64)
    requires
        layers_wf(layers@),
        n >= 1,
    ensures
        r == spec_rmi_predict(layers@, n as int, q),
{
    let l = layers.len();
    let mut b: usize = 0;
    let mut d: usize = 0;
    while d < l - 1
        invariant
            layers_wf(layers@),
            n >= 1,
            l == layers@.len() >= 1,
            0 <= d < l,
            b as int == spec_bucket_at(layers@, n as int, q, d as int),
            b < layers@[d as int]@.len(),
        decreases l - d,
    {
        let p = layers[d][b].predict_to_int(q);
        let m_next = layers[d + 1].len();
        b = route(p, n, m_next);
        d = d + 1;
    }
    layers[l - 1][b].predict_to_int(q)
}

/// The trained result: the layer hierarchy and its calibrated statistics.
/// Mean errors are exact sums over the row count; the squared-error sum
/// saturates at the 128-bit limit.
pub struct TrainedRMI {
    pub model_types: Vec<ModelType>,
    pub branching_factor: u64,
    pub num_rmi_rows: usize,
    pub num_data_rows: usize,
    pub sum_abs_err: u128,
    pub sum_sq_err: u128,
    pub model_max_error: u64,
    pub model_max_error_idx: usize,
    pub last_layer_reports_error: bool,
    pub layers: Vec<Vec<TrainedModel>>,
}

impl TrainedRMI {
    pub open spec fn wf(&self) -> bool {
        &&& layers_wf(self.layers@)
        &&& self.layers@.len() == self.model_types@.len()
        &&& forall|d: int| 0 <= d < self.layers@.len() ==> (#[trigger] self.layers@[d])@.len()
            == layer_pow(self.branching_factor as int, d)
    }

    /// The position the trained hierarchy predicts for a key, following
    /// the routing chain from layer 0 to the leaf over the trained row
    /// count.  An index trained on no rows predicts zero.
    pub fn predict(&self, key: u64) -> (r: u64)
        requires
            self.wf(),
        ensures
            self.num_data_rows >= 1 ==> r == spec_rmi_predict(
                self.layers@,
                self.num_data_rows as int,
                key,
            ),
            self.num_data_rows == 0 ==> r == 0,
    {
        if self.num_data_rows == 0 {
            0
        } else {
            rmi_eval(&self.layers, self.num_data_rows, key)
        }
    }
}

/// The subsequence of pairs the assignment sends to bucket `g`, in order.
pub open spec fn spec_bucket(s: Seq<(u64, u64)>, assign: Seq<usize>, g: usize) -> Seq<(u64, u64)>
    decreases s.len(),
{
    if s.len() == 0 || assign.len() != s.len() {
        Seq::empty()
    } else if assign.last() == g {
        spec_bucket(s.drop_last(), assign.drop_last(), g).push(s.last())
    } else {
        spec_bucket(s.drop_last(), assign.drop_last(), g)
    }
}

/// How a trained hierarchy came about: `assigns[d]` sends every pair to a
/// bucket of depth `d`; every pair starts in the single bucket of depth 0;
/// each model of depth `d` is the fit of its bucket; and each next
/// assignment follows the routing of the model that owned the pair.
pub open spec fn spec_trained(
    data: Seq<(u64, u64)>,
    types: Seq<ModelType>,
    layers: Seq<Vec<TrainedModel>>,
    assigns: Seq<Seq<usize>>,
) -> bool {
    let l = types.len() as int;
    let n = data.len() as int;
    &&& assigns.len() == l
    &&& layers.len() == l
    &&& forall|d: int| 0 <= d < l ==> (#[trigger] assigns[d]).len() == n
    &&& (l > 0 ==> forall|i: int| 0 <= i < n ==> (#[trigger] assigns[0][i]) == 0)
    &&& forall|d: int, g: int|
        #![trigger layers[d]@[g]]
        0 <= d < l && 0 <= g < layers[d]@.len() ==> spec_fitted(
            types[d],
            spec_bucket(data, assigns[d], g as usize),
            layers[d]@[g],
        )
    &&& forall|d: int, i: int|
        #![trigger assigns[d + 1][i]]
        0 <= d < l - 1 && 0 <= i < n ==> assigns[d + 1][i] as int == spec_route(
            layers[d]@[assigns[d][i] as int].spec_predict_to_int(data[i].0),
            n,
            layers[d + 1]@.len() as int,
        )
}

/// Builds the container of the pairs the current assignment sends to
/// bucket `g`.
#[verifier::loop_isolation(false)]
fn collect_bucket(data: &RMITrainingData, assign: &Vec<usize>, g: usize) -> (r: RMITrainingData)
    requires
        data.wf(),
        assign@.len() == data@.len(),
    ensures
        r.wf(),
        r@ == spec_bucket(data@, assign@, g),
{
    let n = data.len();
    let mut c = RMITrainingData::empty();
    let mut i: usize = 0;
    while i < n
        invariant
            data.wf(),
            n == data@.len() == assign@.len(),
            0 <= i <= n,
            c.wf(),
            c@.len() <= i,
            c@.len() > 0 ==> i > 0 && c@.last().0 <= data@[i - 1].0 && c@.last().1 <= data@[i
                - 1].1,
            c@ == spec_bucket(
                data@.subrange(0, i as int),
                assign@.subrange(0, i as int),
                g,
            ),
        decreases n - i,
    {
        let p = data.get(i);
        proof {
            let sp = data@.subrange(0, i + 1);
            let ap = assign@.subrange(0, i + 1);
            assert(sp.drop_last() =~= data@.subrange(0, i as int));
            assert(ap.drop_last() =~= assign@.subrange(0, i as int));
            assert(sp.last() == data@[i as int] && ap.last() == assign@[i as int]);
        }
        if assign[i] == g {
            c.push_pair(p.0, p.1);
        }
        i = i + 1;
    }
    proof {
        assert(data@.subrange(0, n as int) =~= data@);
        assert(assign@.subrange(0, n as int) =~= assign@);
    }
    c
}

/// Trains the hierarchy for one configuration.  Configuration errors are
/// reported before any training work; degenerate data never fails: an empty
/// bucket trains a model forced to the constant zero.
#[verifier::rlimit(100)]
#[verifier::loop_isolation(false)]
pub fn train(data: &RMITrainingData, config: &TrainConfig) -> (r: Result<TrainedRMI, ConfigError>)
    requires
        data.wf(),
    ensures
        r is Ok <==> spec_config_ok(config.model_types@, config.branching_factor as int),
        r == Err::<TrainedRMI, ConfigError>(ConfigError::EmptyModelList) <==> config.model_types@.len() == 0,
        r == Err::<TrainedRMI, ConfigError>(ConfigError::ZeroBranchingFactor) <==> config.model_types@.len() >= 1
            && config.branching_factor == 0,
        r == Err::<TrainedRMI, ConfigError>(ConfigError::LayerSizeOverflow) <==> config.model_types@.len() >= 1
            && config.branching_factor >= 1 && !(forall|d: int|
            0 <= d < config.model_types@.len() ==> #[trigger] layer_pow(
                config.branching_factor as int,
                d,
            ) <= usize::MAX),
        r matches Ok(t) ==> {
            let n = data@.len() as int;
            &&& t.wf()
            &&& t.model_types@ == config.model_types@
            &&& t.branching_factor == config.branching_factor
            &&& t.num_data_rows == data@.len()
            &&& t.layers@.len() == config.model_types@.len()
            &&& t.num_rmi_rows as int == if layer_pow_sum(
                config.branching_factor as int,
                config.model_types@.len() as int,
            ) <= usize::MAX {
                layer_pow_sum(config.branching_factor as int, config.model_types@.len() as int)
            } else {
                usize::MAX as int
            }
            &&& (data@.len() > 0 ==> {
                &&& t.model_max_error_idx < data@.len()
                &&& t.model_max_error == spec_err_at(t.layers@, n, data@[t.model_max_error_idx as int])
                &&& forall|i: int|
                    0 <= i < n ==> spec_err_at(t.layers@, n, #[trigger] data@[i]) <= t.model_max_error
                &&& forall|i: int|
                    0 <= i < t.model_max_error_idx ==> spec_err_at(t.layers@, n, #[trigger] data@[i])
                        < t.model_max_error
                &&& t.sum_abs_err as int == if spec_err_sum(t.layers@, n, data@) <= u128::MAX {
                    spec_err_sum(t.layers@, n, data@)
                } else {
                    u128::MAX as int
                }
                &&& t.sum_sq_err as int == if spec_err_sq_sum(t.layers@, n, data@) <= u128::MAX {
                    spec_err_sq_sum(t.layers@, n, data@)
                } else {
                    u128::MAX as int
                }
            })
            &&& (data@.len() == 0 ==> t.model_max_error == 0 && t.model_max_error_idx == 0
                && t.sum_abs_err == 0 && t.sum_sq_err == 0)
            &&& (exists|assigns: Seq<Seq<usize>>| spec_trained(
                data@,
                config.model_types@,
                t.layers@,
                assigns,
            ))
            &&& (t.last_layer_reports_error <==> t.model_max_error <= 1 && forall|j: int|
                0 <= j < t.layers@.last()@.len() ==> (#[trigger] t.layers@.last()@[j])
                    is Pla)
        },
{
    let l = config.model_types.len();
    if l == 0 {
        return Err(ConfigError::EmptyModelList);
    }
    let b = config.branching_factor;
    if b == 0 {
        return Err(ConfigError::ZeroBranchingFactor);
    }
    // Layer sizes, checked up front: m_d = b^d.
    let mut sizes: Vec<usize> = Vec::new();
    sizes.push(1);
    proof {
        assert(layer_pow(b as int, 0) == 1);
    }
    let mut d: usize = 1;
    while d < l
        invariant
            1 <= d <= l,
            b >= 1,
            sizes@.len() == d,
            forall|e: int| 0 <= e < d ==> #[trigger] sizes@[e] == layer_pow(b as int, e)
                && sizes@[e] >= 1,
        decreases l - d,
    {
        let prev = sizes[d - 1];
        if b > usize::MAX as u64 {
            proof {
                assert(layer_pow(b as int, d as int) == b * layer_pow(b as int, d as int - 1));
                assert(b * layer_pow(b as int, d as int - 1) > usize::MAX) by (nonlinear_arith)
                    requires
                        b > usize::MAX,
                        layer_pow(b as int, d as int - 1) >= 1,
                ;
            }
            proof {
                assert((d as int) < config.model_types@.len());
                assert(layer_pow(b as int, d as int) > usize::MAX);
                assert(!spec_config_ok(config.model_types@, b as int)) by {
                    if spec_config_ok(config.model_types@, b as int) {
                        assert((d as int) < config.model_types@.len());
                        assert(layer_pow(b as int, d as int) <= usize::MAX);
                    }
                }
            }
            return Err(ConfigError::LayerSizeOverflow);
        }
        let bu = b as usize;
        match prev.checked_mul(bu) {
            Some(m) => {
                proof {
                    assert(prev * bu == bu * prev) by (nonlinear_arith);
                    assert(m >= 1) by (nonlinear_arith)
                        requires
                            m as int == bu * prev,
                            bu >= 1,
                            prev >= 1,
                    ;
                }
                sizes.push(m);
            },
            None => {
                proof {
                    assert(prev * bu == bu * prev) by (nonlinear_arith);
                    assert(layer_pow(b as int, d as int) == b * layer_pow(b as int, d as int - 1));
                    assert(layer_pow(b as int, d as int) > usize::MAX);
                    assert(!spec_config_ok(config.model_types@, b as int)) by {
                        if spec_config_ok(config.model_types@, b as int) {
                            assert(layer_pow(b as int, d as int) <= usize::MAX);
                        }
                    }
                }
                return Err(ConfigError::LayerSizeOverflow);
            },
        }
        d = d + 1;
    }
    let n = data.len();
    // Every pair starts in the single bucket of layer 0.
    let mut assign: Vec<usize> = Vec::new();
    let mut i: usize = 0;
    while i < n
        invariant
            0 <= i <= n,
            assign@.len() == i,
            forall|k: int| 0 <= k < i ==> #[trigger] assign@[k] == 0,
        decreases n - i,
    {
        assign.push(0);
        i = i + 1;
    }
    let mut layers: Vec<Vec<TrainedModel>> = Vec::new();
    let ghost mut hist: Seq<Seq<usize>> = Seq::empty();
    let mut depth: usize = 0;
    while depth < l
        invariant
            data.wf(),
            1 <= l == config.model_types@.len(),
            b >= 1,
            n == data@.len(),
            sizes@.len() == l,
            forall|e: int| 0 <= e < l ==> #[trigger] sizes@[e] == layer_pow(b as int, e)
                && sizes@[e] >= 1,
            0 <= depth <= l,
            layers@.len() == depth,
            forall|e: int| 0 <= e < depth ==> (#[trigger] layers@[e])@.len() == sizes@[e],
            forall|e: int, j: int|
                #![trigger layers@[e]@[j]]
                0 <= e < depth && 0 <= j < layers@[e]@.len() ==> layers@[e]@[j].wf()
                    && layers@[e]@[j].spec_model_type() == config.model_types@[e],
            assign@.len() == n,
            depth < l ==> forall|k: int| 0 <= k < n ==> #[trigger] assign@[k] < sizes@[depth as int],
            hist.len() == depth,
            forall|e: int| 0 <= e < depth ==> (#[trigger] hist[e]).len() == n,
            depth > 0 ==> forall|i: int| 0 <= i < n ==> (#[trigger] hist[0][i]) == 0,
            depth == 0 ==> forall|k: int| 0 <= k < n ==> #[trigger] assign@[k] == 0,
            forall|e: int, j: int|
                #![trigger layers@[e]@[j]]
                0 <= e < depth && 0 <= j < layers@[e]@.len() ==> spec_fitted(
                    config.model_types@[e],
                    spec_bucket(data@, hist[e], j as usize),
                    layers@[e]@[j],
                ),
            forall|e: int, i: int|
                #![trigger hist[e + 1][i]]
                0 <= e < depth - 1 && 0 <= i < n ==> hist[e + 1][i] as int == spec_route(
                    layers@[e]@[hist[e][i] as int].spec_predict_to_int(data@[i].0),
                    n as int,
                    layers@[e + 1]@.len() as int,
                ),
            0 < depth < l ==> forall|i: int|
                0 <= i < n ==> #[trigger] assign@[i] as int == spec_route(
                    layers@[depth - 1]@[hist[depth - 1][i] as int].spec_predict_to_int(
                        data@[i].0,
                    ),
                    n as int,
                    sizes@[depth as int] as int,
                ),
        decreases l - depth,
    {
        let m_d = sizes[depth];
        let mt = config.model_types[depth];
        let ghost cur_assign = assign@;
        let mut models: Vec<TrainedModel> = Vec::new();
        let mut g: usize = 0;
        while g < m_d
            invariant
                data.wf(),
                n == data@.len(),
                assign@.len() == n,
                assign@ == cur_assign,
                mt == config.model_types@[depth as int],
                0 <= g <= m_d,
                models@.len() == g,
                forall|j: int| 0 <= j < g ==> (#[trigger] models@[j]).wf(),
                forall|j: int| 0 <= j < g ==> (#[trigger] models@[j]).spec_model_type() == mt,
                forall|j: int|
                    0 <= j < g ==> spec_fitted(
                        mt,
                        spec_bucket(data@, cur_assign, j as usize),
                        #[trigger] models@[j],
                    ),
            decreases m_d - g,
        {
            let c = collect_bucket(data, &assign, g);
            let mut m = TrainedModel::fit(mt, &c);
            if c.len() == 0 {
                m.set_to_constant_model(0);
                proof {
                    assert(c@.len() == 0);
                    assert(fit_fits(c@));
                    assert(fit_of(c@) == (0int, 0int, 1int));
                    assert(spec_fitted(mt, c@, m));
                }
            } else {
                proof {
                    assert(spec_fitted(mt, c@, m));
                }
            }
            models.push(m);
            g = g + 1;
        }
        // Route every pair into the next layer's buckets.
        if depth + 1 < l {
            let m_next = sizes[depth + 1];
            let mut i2: usize = 0;
            while i2 < n
                invariant
                    data.wf(),
                    n == data@.len(),
                    assign@.len() == n,
                    m_next == sizes@[depth + 1],
                    m_next >= 1,
                    models@.len() == m_d,
                    forall|j: int| 0 <= j < m_d ==> (#[trigger] models@[j]).wf(),
                    0 <= i2 <= n,
                    forall|k: int| 0 <= k < i2 ==> #[trigger] assign@[k] < m_next,
                    forall|k: int| i2 <= k < n ==> #[trigger] assign@[k] < m_d,
                    forall|k: int| i2 <= k < n ==> #[trigger] assign@[k] == cur_assign[k],
                    forall|k: int|
                        0 <= k < i2 ==> #[trigger] assign@[k] as int == spec_route(
                            models@[cur_assign[k] as int].spec_predict_to_int(data@[k].0),
                            n as int,
                            m_next as int,
                        ),
                decreases n - i2,
            {
                let bkt = assign[i2];
                let key = data.get_key(i2);
                let p = models[bkt].predict_to_int(key);
                let gnext = route(p, n, m_next);
                assign.set(i2, gnext);
                i2 = i2 + 1;
            }
        }
        layers.push(models);
        proof {
            hist = hist.push(cur_assign);
        }
        depth = depth + 1;
    }
    proof {
        assert(spec_trained(data@, config.model_types@, layers@, hist));
    }
    proof {
        assert(layers_wf(layers@)) by {
            assert(forall|e: int| 0 <= e < l ==> (#[trigger] layers@[e])@.len() == sizes@[e]);
        }
    }
    // One pass of calibrated error statistics over the full dataset.
    let mut sum_abs: u128 = 0;
    let mut sum_sq: u128 = 0;
    let mut max_err: u64 = 0;
    let mut max_idx: usize = 0;
    let ghost gl = layers@;
    let ghost gn = n as int;
    let mut i3: usize = 0;
    while i3 < n
        invariant
            data.wf(),
            n == data@.len(),
            layers_wf(gl),
            gl == layers@,
            gn == n as int,
            0 <= i3 <= n,
            sum_abs as int == if spec_err_sum(gl, gn, data@.subrange(0, i3 as int)) <= u128::MAX {
                spec_err_sum(gl, gn, data@.subrange(0, i3 as int))
            } else {
                u128::MAX as int
            },
            sum_sq as int == if spec_err_sq_sum(gl, gn, data@.subrange(0, i3 as int)) <= u128::MAX {
                spec_err_sq_sum(gl, gn, data@.subrange(0, i3 as int))
            } else {
                u128::MAX as int
            },
            i3 == 0 ==> max_err == 0 && max_idx == 0,
            i3 > 0 ==> max_idx < i3 && max_err == spec_err_at(gl, gn, data@[max_idx as int]),
            forall|k: int| 0 <= k < i3 ==> spec_err_at(gl, gn, #[trigger] data@[k]) <= max_err,
            forall|k: int| 0 <= k < max_idx ==> spec_err_at(gl, gn, #[trigger] data@[k]) < max_err,
            i3 == 0 ==> max_err == 0,
        decreases n - i3,
    {
        let p = data.get(i3);
        let pred = rmi_eval(&layers, n, p.0);
        let e: u64 = if pred >= p.1 {
            pred - p.1
        } else {
            p.1 - pred
        };
        proof {
            let pre = data@.subrange(0, i3 as int);
            let cur = data@.subrange(0, i3 + 1);
            assert(cur.drop_last() =~= pre);
            assert(cur.last() == data@[i3 as int]);
            assert(e == spec_err_at(gl, gn, data@[i3 as int]));
            lemma_err_sums_nonneg(gl, gn, pre);
        }
        sum_abs = match sum_abs.checked_add(e as u128) {
            Some(v) => v,
            None => u128::MAX,
        };
        proof {
            assert((e as u128) * (e as u128) <= u128::MAX) by (nonlinear_arith)
                requires
                    e as u128 <= u64::MAX,
                    u128::MAX >= (u64::MAX as u128) * (u64::MAX as u128),
            ;
        }
        let esq: u128 = (e as u128) * (e as u128);
        sum_sq = match sum_sq.checked_add(esq) {
            Some(v) => v,
            None => u128::MAX,
        };
        if e > max_err {
            max_err = e;
            max_idx = i3;
        }
        i3 = i3 + 1;
    }
    proof {
        assert(data@.subrange(0, n as int) =~= data@);
    }
    // Certify the leaf layer's declared error bound against the observed
    // maximum error.
    let leaf = &layers[l - 1];
    let leaf_len = leaf.len();
    let mut certified = true;
    let mut j: usize = 0;
    while j < leaf_len
        invariant
            leaf_len == leaf@.len(),
            leaf@ == layers@[layers@.len() - 1]@,
            forall|k: int| 0 <= k < leaf@.len() ==> (#[trigger] leaf@[k]).wf(),
            0 <= j <= leaf_len,
            certified <==> (forall|k: int| 0 <= k < j ==> (#[trigger] leaf@[k]) is Pla)
                && (j > 0 ==> max_err <= 1),
        decreases leaf_len - j,
    {
        match leaf[j].error_bound() {
            None => {
                certified = false;
            },
            Some(bd) => {
                if max_err > bd {
                    certified = false;
                }
            },
        }
        j = j + 1;
    }
    // Total parameter rows across the hierarchy, saturating at the machine
    // limit.
    let mut rows: usize = 0;
    let mut d2: usize = 0;
    while d2 < l
        invariant
            sizes@.len() == l,
            0 <= d2 <= l,
            rows as int == if layer_pow_sum(b as int, d2 as int) <= usize::MAX {
                layer_pow_sum(b as int, d2 as int)
            } else {
                usize::MAX as int
            },
        decreases l - d2,
    {
        proof {
            assert(sizes@[d2 as int] == layer_pow(b as int, d2 as int));
            lemma_layer_pow_sum_nonneg(b as int, d2 as int);
        }
        rows = match rows.checked_add(sizes[d2]) {
            Some(v) => v,
            None => usize::MAX,
        };
        d2 = d2 + 1;
    }
    proof {
        assert forall|dd: int| 0 <= dd < config.model_types@.len() implies #[trigger] layer_pow(
            b as int,
            dd,
        ) <= usize::MAX by {
            assert(sizes@[dd] == layer_pow(b as int, dd));
        }
        assert(spec_config_ok(config.model_types@, b as int));
        assert(spec_trained(data@, config.model_types@, layers@, hist));
    }
    let mut mts: Vec<ModelType> = Vec::new();
    let mut c2: usize = 0;
    while c2 < l
        invariant
            l == config.model_types@.len(),
            0 <= c2 <= l,
            mts@.len() == c2,
            forall|k: int| 0 <= k < c2 ==> #[trigger] mts@[k] == config.model_types@[k],
        decreases l - c2,
    {
        mts.push(config.model_types[c2]);
        c2 = c2 + 1;
    }
    proof {
        assert(mts@ =~= config.model_types@);
    }
    Ok(TrainedRMI {
        model_types: mts,
        branching_factor: b,
        num_rmi_rows: rows,
        num_data_rows: n,
        sum_abs_err: sum_abs,
        sum_sq_err: sum_sq,
        model_max_error: max_err,
        model_max_error_idx: max_idx,
        last_layer_reports_error: certified,
        layers,
    })
}

} // verus!
