//! The configuration-space optimizer: trains one hierarchy per candidate
//! configuration and keeps only the size/error Pareto frontier, sorted by
//! size ascending with ties broken by error.
use vstd::prelude::*;
use crate::data::RMITrainingData;
use crate::models::TrainedModel;
use crate::train::{spec_config_ok, train, TrainConfig, TrainedRMI};

verus! {

/// One surviving trial: the index of its configuration in the searched
/// sequence, its serialized-size estimate, and its worst-case error.
#[derive(Clone, Copy, Debug, PartialEq, Eq, Structural)]
pub struct ParetoCandidate {
    pub config_index: usize,
    pub size: u64,
    pub max_error: u64,
}

/// Strict Pareto domination: at least as good on both axes and strictly
/// better on one.
pub open spec fn dominates(a: ParetoCandidate, b: ParetoCandidate) -> bool {
    a.size <= b.size && a.max_error <= b.max_error && (a.size < b.size || a.max_error < b.max_error)
}

/// Sort order of the output: size ascending, ties by error.
pub open spec fn cand_le(a: ParetoCandidate, b: ParetoCandidate) -> bool {
    a.size < b.size || (a.size == b.size && a.max_error <= b.max_error)
}

/// Whether `x` occurs in `s`.
pub open spec fn contains_cand(s: Seq<ParetoCandidate>, x: ParetoCandidate) -> bool {
    exists|k: int| 0 <= k < s.len() && s[k] == x
}

fn dominates_exec(a: &ParetoCandidate, b: &ParetoCandidate) -> (r: bool)
    ensures
        r == dominates(*a, *b),
{
    a.size <= b.size && a.max_error <= b.max_error && (a.size < b.size || a.max_error < b.max_error)
}

proof fn lemma_dominates_trans(a: ParetoCandidate, b: ParetoCandidate, c: ParetoCandidate)
    requires
        dominates(a, b),
        dominates(b, c),
    ensures
        dominates(a, c),
{
}

/// Incremental frontier maintenance: each candidate is skipped if an
/// already-kept candidate dominates it, and evicts the kept candidates it
/// dominates.  No two kept candidates dominate one another, every kept
/// candidate is an input, and every input either survives or is dominated
/// by a survivor.
#[verifier::rlimit(100)]
#[verifier::loop_isolation(false)]
pub fn pareto_frontier(cands: &Vec<ParetoCandidate>) -> (r: Vec<ParetoCandidate>)
    ensures
        forall|i: int, j: int|
            0 <= i < r@.len() && 0 <= j < r@.len() ==> !dominates(#[trigger] r@[i], #[trigger] r@[j]),
        forall|i: int| 0 <= i < r@.len() ==> contains_cand(cands@, #[trigger] r@[i]),
        forall|k: int|
            0 <= k < cands@.len() ==> contains_cand(r@, #[trigger] cands@[k]) || (exists|i: int|
                0 <= i < r@.len() && dominates(r@[i], cands@[k])),
        cands@.len() > 0 ==> r@.len() > 0,
{
    let n = cands.len();
    let mut front: Vec<ParetoCandidate> = Vec::new();
    let mut p: usize = 0;
    while p < n
        invariant
            n == cands@.len(),
            0 <= p <= n,
            forall|i: int, j: int|
                0 <= i < front@.len() && 0 <= j < front@.len() ==> !dominates(
                    #[trigger] front@[i],
                    #[trigger] front@[j],
                ),
            forall|i: int| 0 <= i < front@.len() ==> contains_cand(cands@, #[trigger] front@[i]),
            forall|k: int|
                0 <= k < p ==> contains_cand(front@, #[trigger] cands@[k]) || (exists|i: int|
                    0 <= i < front@.len() && dominates(front@[i], cands@[k])),
            p > 0 ==> front@.len() > 0,
        decreases n - p,
    {
        let c = cands[p];
        // Skip the candidate if a kept one dominates it.
        let mut skip = false;
        let mut s: usize = 0;
        while s < front.len()
            invariant
                0 <= s <= front@.len(),
                skip ==> exists|i: int| 0 <= i < front@.len() && dominates(#[trigger] front@[i], c),
                !skip ==> forall|i: int| 0 <= i < s ==> !dominates(#[trigger] front@[i], c),
            decreases front@.len() - s,
        {
            if dominates_exec(&front[s], &c) {
                skip = true;
            }
            s = s + 1;
        }
        if !skip {
            // Evict the kept candidates this one dominates.
            let ghost old_front = front@;
            let mut kept: Vec<ParetoCandidate> = Vec::new();
            let mut t: usize = 0;
            while t < front.len()
                invariant
                    0 <= t <= front@.len(),
                    front@ == old_front,
                    forall|i: int|
                        #![trigger kept@[i]]
                        0 <= i < kept@.len() ==> exists|j: int|
                            0 <= j < front@.len() && kept@[i] == front@[j],
                    forall|i: int| 0 <= i < kept@.len() ==> !dominates(c, #[trigger] kept@[i]),
                    forall|j: int|
                        0 <= j < t ==> dominates(c, #[trigger] front@[j]) || (exists|i: int|
                            0 <= i < kept@.len() && kept@[i] == front@[j]),
                decreases front@.len() - t,
            {
                let f = front[t];
                if !dominates_exec(&c, &f) {
                    let ghost kb = kept@;
                    kept.push(f);
                    proof {
                        assert(kept@[kb.len() as int] == front@[t as int]);
                        assert forall|j: int|
                            0 <= j < t + 1 implies dominates(c, #[trigger] front@[j]) || (exists|
                            i: int,
                        |
                            0 <= i < kept@.len() && kept@[i] == front@[j]) by {
                            if j < t {
                                if !dominates(c, front@[j]) {
                                    let i = choose|i: int| 0 <= i < kb.len() && kb[i] == front@[j];
                                    assert(kept@[i] == front@[j]);
                                }
                            } else {
                                assert(kept@[kb.len() as int] == front@[j]);
                            }
                        }
                    }
                }
                t = t + 1;
            }
            let ghost kept_before = kept@;
            kept.push(c);
            proof {
                let newf = kept@;
                let pi = p as int;
                assert(newf[newf.len() - 1] == c);
                assert forall|i: int| 0 <= i < newf.len() implies contains_cand(
                    cands@,
                    #[trigger] newf[i],
                ) by {
                    if i < newf.len() - 1 {
                        assert(newf[i] == kept_before[i]);
                        let j = choose|j: int|
                            0 <= j < old_front.len() && kept_before[i] == old_front[j];
                        assert(contains_cand(cands@, old_front[j]));
                    } else {
                        assert(newf[i] == cands@[pi]);
                        assert(contains_cand(cands@, cands@[pi]));
                    }
                }
                assert forall|k: int|
                    0 <= k < pi + 1 implies contains_cand(newf, #[trigger] cands@[k]) || (exists|
                    i: int,
                |
                    0 <= i < newf.len() && dominates(newf[i], cands@[k])) by {
                    if k == pi {
                        assert(newf[newf.len() - 1] == cands@[pi]);
                        assert(contains_cand(newf, cands@[pi]));
                    } else if contains_cand(old_front, cands@[k]) {
                        let j = choose|j: int|
                            0 <= j < old_front.len() && old_front[j] == cands@[k];
                        if dominates(c, old_front[j]) {
                            assert(dominates(newf[newf.len() - 1], cands@[k]));
                        } else {
                            let i2 = choose|i2: int|
                                0 <= i2 < kept_before.len() && kept_before[i2] == old_front[j];
                            assert(newf[i2] == cands@[k]);
                            assert(contains_cand(newf, cands@[k]));
                        }
                    } else {
                        let i0 = choose|i0: int|
                            0 <= i0 < old_front.len() && dominates(old_front[i0], cands@[k]);
                        if dominates(c, old_front[i0]) {
                            lemma_dominates_trans(c, old_front[i0], cands@[k]);
                            assert(dominates(newf[newf.len() - 1], cands@[k]));
                        } else {
                            let i2 = choose|i2: int|
                                0 <= i2 < kept_before.len() && kept_before[i2] == old_front[i0];
                            assert(dominates(newf[i2], cands@[k]));
                        }
                    }
                }
                assert forall|i: int, j: int|
                    0 <= i < newf.len() && 0 <= j < newf.len() implies !dominates(
                    #[trigger] newf[i],
                    #[trigger] newf[j],
                ) by {
                    if i < newf.len() - 1 && j < newf.len() - 1 {
                        assert(newf[i] == kept_before[i] && newf[j] == kept_before[j]);
                        let ii = choose|x: int|
                            0 <= x < old_front.len() && kept_before[i] == old_front[x];
                        let jj = choose|x: int|
                            0 <= x < old_front.len() && kept_before[j] == old_front[x];
                        assert(!dominates(old_front[ii], old_front[jj]));
                    } else if i < newf.len() - 1 && j == newf.len() - 1 {
                        assert(newf[i] == kept_before[i]);
                        let ii = choose|x: int|
                            0 <= x < old_front.len() && kept_before[i] == old_front[x];
                        assert(!dominates(old_front[ii], c));
                    } else if i == newf.len() - 1 && j < newf.len() - 1 {
                        assert(newf[j] == kept_before[j]);
                        assert(!dominates(c, kept_before[j]));
                    }
                }
            }
            front = kept;
        } else {
            proof {
                let pi = p as int;
                let i0 = choose|i0: int| 0 <= i0 < front@.len() && dominates(front@[i0], c);
                assert(dominates(front@[i0], cands@[pi]));
            }
        }
        p = p + 1;
    }
    proof {
        assert forall|k: int|
            0 <= k < cands@.len() implies contains_cand(front@, #[trigger] cands@[k]) || (exists|
            i: int,
        |
            0 <= i < front@.len() && dominates(front@[i], cands@[k])) by {
            assert(0 <= k < p);
        }
    }
    front
}

/// The summed parameter-element count of one model.
pub open spec fn spec_model_size(m: TrainedModel) -> int {
    match m {
        TrainedModel::Linear(_) => 2int,
        TrainedModel::Pla(p) => 1 + 3 * (p@.len() as int),
    }
}

/// The summed parameter-element count of one layer.
pub open spec fn spec_layer_size(models: Seq<TrainedModel>) -> int
    decreases models.len(),
{
    if models.len() == 0 {
        0
    } else {
        spec_layer_size(models.drop_last()) + spec_model_size(models.last())
    }
}

/// The summed parameter-element count of the whole hierarchy.
pub open spec fn spec_rmi_size(layers: Seq<Vec<TrainedModel>>) -> int
    decreases layers.len(),
{
    if layers.len() == 0 {
        0
    } else {
        spec_rmi_size(layers.drop_last()) + spec_layer_size(layers.last()@)
    }
}

proof fn lemma_model_size_nonneg(m: TrainedModel)
    ensures
        spec_model_size(m) >= 0,
{
}

proof fn lemma_layer_size_nonneg(models: Seq<TrainedModel>)
    ensures
        spec_layer_size(models) >= 0,
    decreases models.len(),
{
    if models.len() > 0 {
        lemma_layer_size_nonneg(models.drop_last());
        lemma_model_size_nonneg(models.last());
    }
}

proof fn lemma_rmi_size_nonneg(layers: Seq<Vec<TrainedModel>>)
    ensures
        spec_rmi_size(layers) >= 0,
    decreases layers.len(),
{
    if layers.len() > 0 {
        lemma_rmi_size_nonneg(layers.drop_last());
        lemma_layer_size_nonneg(layers.last()@);
    }
}

fn model_size(m: &TrainedModel) -> (r: u64)
    ensures
        r as int == if spec_model_size(*m) <= u64::MAX {
            spec_model_size(*m)
        } else {
            u64::MAX as int
        },
{
    match m {
        TrainedModel::Linear(_) => 2,
        TrainedModel::Pla(p) => {
            let ns = p.num_segments();
            let ns64 = ns as u64;
            let three = match ns64.checked_mul(3) {
                Some(v) => v,
                None => u64::MAX,
            };
            match three.checked_add(1) {
                Some(v) => v,
                None => u64::MAX,
            }
        },
    }
}

/// The summed parameter-element count of one layer, saturating at the
/// 64-bit limit.
#[verifier::loop_isolation(false)]
fn layer_size(models: &Vec<TrainedModel>) -> (r: u64)
    ensures
        r as int == if spec_layer_size(models@) <= u64::MAX {
            spec_layer_size(models@)
        } else {
            u64::MAX as int
        },
{
    let mut total: u64 = 0;
    let mut j: usize = 0;
    while j < models.len()
        invariant
            0 <= j <= models@.len(),
            total as int == if spec_layer_size(models@.subrange(0, j as int)) <= u64::MAX {
                spec_layer_size(models@.subrange(0, j as int))
            } else {
                u64::MAX as int
            },
        decreases models@.len() - j,
    {
        let ms = model_size(&models[j]);
        proof {
            let pre = models@.subrange(0, j as int);
            let cur = models@.subrange(0, j + 1);
            assert(cur.drop_last() =~= pre);
            assert(cur.last() == models@[j as int]);
            lemma_layer_size_nonneg(pre);
            lemma_model_size_nonneg(models@[j as int]);
        }
        if ms == u64::MAX {
            total = u64::MAX;
        } else {
            total = match total.checked_add(ms) {
                Some(v) => v,
                None => u64::MAX,
            };
        }
        j = j + 1;
    }
    proof {
        assert(models@.subrange(0, models@.len() as int) =~= models@);
    }
    total
}

/// The serialized-size estimate of a trained hierarchy: the summed
/// parameter-element counts of all its models, saturating at the 64-bit
/// limit.
#[verifier::loop_isolation(false)]
pub fn rmi_size(t: &TrainedRMI) -> (r: u64)
    ensures
        r as int == if spec_rmi_size(t.layers@) <= u64::MAX {
            spec_rmi_size(t.layers@)
        } else {
            u64::MAX as int
        },
{
    let mut total: u64 = 0;
    let mut d: usize = 0;
    while d < t.layers.len()
        invariant
            0 <= d <= t.layers@.len(),
            total as int == if spec_rmi_size(t.layers@.subrange(0, d as int)) <= u64::MAX {
                spec_rmi_size(t.layers@.subrange(0, d as int))
            } else {
                u64::MAX as int
            },
        decreases t.layers@.len() - d,
    {
        let ls = layer_size(&t.layers[d]);
        proof {
            let pre = t.layers@.subrange(0, d as int);
            let cur = t.layers@.subrange(0, d + 1);
            assert(cur.drop_last() =~= pre);
            assert(cur.last() == t.layers@[d as int]);
            lemma_rmi_size_nonneg(pre);
            lemma_layer_size_nonneg(t.layers@[d as int]@);
        }
        if ls == u64::MAX {
            total = u64::MAX;
        } else {
            total = match total.checked_add(ls) {
                Some(v) => v,
                None => u64::MAX,
            };
        }
        d = d + 1;
    }
    proof {
        assert(t.layers@.subrange(0, t.layers@.len() as int) =~= t.layers@);
    }
    total
}

/// Insertion sort by size ascending, ties by error: deterministic output
/// order for deterministic input.
#[verifier::rlimit(100)]
#[verifier::loop_isolation(false)]
fn sort_candidates(v: &Vec<ParetoCandidate>) -> (r: Vec<ParetoCandidate>)
    ensures
        r@.len() == v@.len(),
        forall|i: int, j: int| 0 <= i <= j < r@.len() ==> cand_le(#[trigger] r@[i], #[trigger] r@[j]),
        forall|i: int| 0 <= i < r@.len() ==> contains_cand(v@, #[trigger] r@[i]),
        r@.to_multiset() == v@.to_multiset(),
{
    let n = v.len();
    let mut out: Vec<ParetoCandidate> = Vec::new();
    let mut p: usize = 0;
    proof {
        assert(out@ =~= v@.subrange(0, 0));
    }
    while p < n
        invariant
            n == v@.len(),
            0 <= p <= n,
            out@.len() == p,
            forall|i: int, j: int|
                0 <= i <= j < out@.len() ==> cand_le(#[trigger] out@[i], #[trigger] out@[j]),
            forall|i: int| 0 <= i < out@.len() ==> contains_cand(v@, #[trigger] out@[i]),
            out@.to_multiset() == v@.subrange(0, p as int).to_multiset(),
        decreases n - p,
    {
        let c = v[p];
        // Find the insertion point: after every element at or below c.
        let mut pos: usize = 0;
        let mut stop = false;
        while pos < out.len() && !stop
            invariant
                0 <= pos <= out@.len(),
                forall|i: int| 0 <= i < pos ==> cand_le(#[trigger] out@[i], c),
                stop ==> pos < out@.len() && !cand_le(out@[pos as int], c),
            decreases out@.len() - pos + (if stop {
                0int
            } else {
                1int
            }),
        {
            let o = &out[pos];
            if o.size < c.size || (o.size == c.size && o.max_error <= c.max_error) {
                pos = pos + 1;
            } else {
                stop = true;
            }
        }
        let ghost old_out = out@;
        out.insert(pos, c);
        proof {
            let pi = pos as int;
            broadcast use vstd::seq_lib::group_to_multiset_ensures;

            assert(out@.remove(pi) =~= old_out);
            assert(out@[pi] == c);
            assert(out@.contains(c));
            assert(out@.to_multiset().count(c) > 0);
            assert(out@.remove(pi).to_multiset() =~= out@.to_multiset().remove(out@[pi]));
            assert(out@.to_multiset() =~= old_out.to_multiset().insert(c));
            let pre = v@.subrange(0, p as int);
            let cur = v@.subrange(0, p + 1);
            assert(cur =~= pre.push(v@[p as int]));
            assert(pre.push(v@[p as int]).to_multiset() =~= pre.to_multiset().insert(
                v@[p as int],
            ));
            assert(out@.to_multiset() == cur.to_multiset());
            assert forall|i: int, j: int| 0 <= i <= j < out@.len() implies cand_le(
                #[trigger] out@[i],
                #[trigger] out@[j],
            ) by {
                if i == j {
                } else if j < pi {
                    assert(out@[i] == old_out[i] && out@[j] == old_out[j]);
                } else if i > pi {
                    assert(out@[i] == old_out[i - 1] && out@[j] == old_out[j - 1]);
                } else if i < pi && j == pi {
                    assert(out@[i] == old_out[i]);
                    assert(cand_le(old_out[i], c));
                } else if i == pi && j > pi {
                    assert(out@[j] == old_out[j - 1]);
                    assert(pi < old_out.len());
                    assert(!cand_le(old_out[pi], c));
                    assert(cand_le(c, old_out[pi]));
                    assert(cand_le(old_out[pi], old_out[j - 1]));
                } else {
                    assert(i < pi && j > pi);
                    assert(out@[i] == old_out[i] && out@[j] == old_out[j - 1]);
                    assert(cand_le(old_out[i], old_out[j - 1]));
                }
            }
            assert forall|i: int| 0 <= i < out@.len() implies contains_cand(
                v@,
                #[trigger] out@[i],
            ) by {
                if i == pi {
                    assert(out@[i] == v@[p as int]);
                    assert(contains_cand(v@, v@[p as int]));
                } else if i < pi {
                    assert(out@[i] == old_out[i]);
                } else {
                    assert(out@[i] == old_out[i - 1]);
                }
            }
        }
        p = p + 1;
    }
    proof {
        assert(v@.subrange(0, n as int) =~= v@);
    }
    out
}

/// Whether the configuration at `k` is well formed.
pub open spec fn config_ok_at(configs: Seq<TrainConfig>, k: int) -> bool {
    spec_config_ok(configs[k].model_types@, configs[k].branching_factor as int)
}

/// Trains every configuration, discards the ones whose configuration is
/// rejected, and reduces the rest to the non-dominated frontier, sorted by
/// size then error.  No output candidate dominates another; every output
/// names a well-formed input configuration; if any configuration is well
/// formed, the output is nonempty.
#[verifier::loop_isolation(false)]
pub fn find_pareto_efficient_configs(
    data: &RMITrainingData,
    configs: &Vec<TrainConfig>,
) -> (r: Vec<ParetoCandidate>)
    requires
        data.wf(),
    ensures
        forall|i: int, j: int|
            0 <= i < r@.len() && 0 <= j < r@.len() ==> !dominates(#[trigger] r@[i], #[trigger] r@[j]),
        forall|i: int, j: int| 0 <= i <= j < r@.len() ==> cand_le(#[trigger] r@[i], #[trigger] r@[j]),
        forall|i: int|
            0 <= i < r@.len() ==> (#[trigger] r@[i]).config_index < configs@.len() && config_ok_at(
                configs@,
                r@[i].config_index as int,
            ),
        (exists|k: int| 0 <= k < configs@.len() && #[trigger] config_ok_at(configs@, k))
            ==> r@.len() > 0,
{
    let mut cands: Vec<ParetoCandidate> = Vec::new();
    let mut i: usize = 0;
    while i < configs.len()
        invariant
            data.wf(),
            0 <= i <= configs@.len(),
            forall|k: int|
                0 <= k < cands@.len() ==> (#[trigger] cands@[k]).config_index < configs@.len()
                    && config_ok_at(configs@, cands@[k].config_index as int),
            (exists|k: int| 0 <= k < i && #[trigger] config_ok_at(configs@, k)) ==> cands@.len()
                > 0,
        decreases configs@.len() - i,
    {
        let cfg = &configs[i];
        match train(data, cfg) {
            Ok(t) => {
                let size = rmi_size(&t);
                cands.push(ParetoCandidate { config_index: i, size, max_error: t.model_max_error });
                proof {
                    assert(config_ok_at(configs@, i as int));
                }
            },
            Err(_) => {
                // A rejected configuration is discarded, never fatal.
                proof {
                    assert(!config_ok_at(configs@, i as int));
                }
            },
        }
        i = i + 1;
    }
    let front = pareto_frontier(&cands);
    let sorted = sort_candidates(&front);
    proof {
        assert forall|i2: int, j2: int|
            0 <= i2 < sorted@.len() && 0 <= j2 < sorted@.len() implies !dominates(
            #[trigger] sorted@[i2],
            #[trigger] sorted@[j2],
        ) by {
            let k1 = choose|k: int| 0 <= k < front@.len() && sorted@[i2] == front@[k];
            let k2 = choose|k: int| 0 <= k < front@.len() && sorted@[j2] == front@[k];
            assert(!dominates(front@[k1], front@[k2]));
        }
        assert forall|i2: int|
            0 <= i2 < sorted@.len() implies (#[trigger] sorted@[i2]).config_index < configs@.len()
            && config_ok_at(configs@, sorted@[i2].config_index as int) by {
            let k1 = choose|k: int| 0 <= k < front@.len() && front@[k] == sorted@[i2];
            assert(contains_cand(cands@, front@[k1]));
            let k2 = choose|k: int| 0 <= k < cands@.len() && cands@[k] == front@[k1];
            assert(cands@[k2].config_index < configs@.len());
        }
        if exists|k: int| 0 <= k < configs@.len() && #[trigger] config_ok_at(configs@, k) {
            assert(cands@.len() > 0);
            assert(front@.len() > 0);
        }
    }
    sorted
}

} // verus!
