//! The error-bounded optimal piecewise-linear model.
//!
//! A segment's line is the exact least-squares fit over its pairs, kept as a
//! rational with a common denominator: the line at key `x` has value
//! `(slope_num * x + intercept_num) / den`.  The greedy builder extends a
//! segment while the exact fit keeps every residual within one position and
//! the 128-bit accumulators stay in range; the first extension that would
//! break either closes the segment.
use vstd::prelude::*;

verus! {

/// A value the signed 128-bit accumulators can hold.
pub open spec fn fits_i128(v: int) -> bool {
    i128::MIN <= v <= i128::MAX
}

pub open spec fn sum_x(s: Seq<(u64, u64)>) -> int
    decreases s.len(),
{
    if s.len() == 0 {
        0
    } else {
        sum_x(s.drop_last()) + s.last().0
    }
}

pub open spec fn sum_y(s: Seq<(u64, u64)>) -> int
    decreases s.len(),
{
    if s.len() == 0 {
        0
    } else {
        sum_y(s.drop_last()) + s.last().1
    }
}

pub open spec fn sum_xx(s: Seq<(u64, u64)>) -> int
    decreases s.len(),
{
    if s.len() == 0 {
        0
    } else {
        sum_xx(s.drop_last()) + s.last().0 * s.last().0
    }
}

pub open spec fn sum_xy(s: Seq<(u64, u64)>) -> int
    decreases s.len(),
{
    if s.len() == 0 {
        0
    } else {
        sum_xy(s.drop_last()) + s.last().0 * s.last().1
    }
}

/// n times the centered second moment of the keys.
pub open spec fn sxx_of(s: Seq<(u64, u64)>) -> int {
    s.len() * sum_xx(s) - sum_x(s) * sum_x(s)
}

/// n times the centered cross moment of keys and positions.
pub open spec fn sxy_of(s: Seq<(u64, u64)>) -> int {
    s.len() * sum_xy(s) - sum_x(s) * sum_y(s)
}

/// The exact least-squares line over `s` as (slope numerator, intercept
/// numerator, denominator).  A zero-variance or short segment falls back to
/// the constant line at the mean position; an empty one to constant zero.
pub open spec fn fit_of(s: Seq<(u64, u64)>) -> (int, int, int) {
    if s.len() == 0 {
        (0, 0, 1)
    } else if sxx_of(s) <= 0 {
        (0, sum_y(s), s.len() as int)
    } else {
        (
            s.len() * sxy_of(s),
            sum_y(s) * sxx_of(s) - sxy_of(s) * sum_x(s),
            s.len() * sxx_of(s),
        )
    }
}

/// All running sums of `s` stay within the accumulator range.
pub open spec fn sums_fit(s: Seq<(u64, u64)>) -> bool {
    sum_x(s) <= i128::MAX && sum_y(s) <= i128::MAX && sum_xx(s) <= i128::MAX && sum_xy(s)
        <= i128::MAX
}

/// The products the least-squares fit takes stay within the accumulator
/// range, following the order in which the fit computes them.
pub open spec fn fit_fits(s: Seq<(u64, u64)>) -> bool {
    s.len() == 0 || (sums_fit(s) && fits_i128(s.len() * sum_xx(s)) && fits_i128(
        sum_x(s) * sum_x(s),
    ) && (sxx_of(s) <= 0 || (fits_i128(s.len() * sum_xy(s)) && fits_i128(sum_x(s) * sum_y(s))
        && fits_i128(s.len() * sxy_of(s)) && fits_i128(s.len() * sxx_of(s)) && fits_i128(
        sum_y(s) * sxx_of(s),
    ) && fits_i128(sxy_of(s) * sum_x(s)) && fits_i128(
        sum_y(s) * sxx_of(s) - sxy_of(s) * sum_x(s),
    ))))
}

proof fn lemma_sums_nonneg(s: Seq<(u64, u64)>)
    ensures
        sum_x(s) >= 0,
        sum_y(s) >= 0,
        sum_xx(s) >= 0,
        sum_xy(s) >= 0,
    decreases s.len(),
{
    if s.len() > 0 {
        lemma_sums_nonneg(s.drop_last());
        assert(s.last().0 * s.last().0 >= 0) by (nonlinear_arith);
        assert(s.last().0 * s.last().1 >= 0) by (nonlinear_arith);
    }
}

/// The fitted denominator is always positive.
pub proof fn lemma_fit_den_pos(s: Seq<(u64, u64)>)
    ensures
        fit_of(s).2 >= 1,
{
    if s.len() == 0 {
    } else if sxx_of(s) <= 0 {
    } else {
        assert(s.len() * sxx_of(s) >= 1) by (nonlinear_arith)
            requires
                s.len() >= 1,
                sxx_of(s) >= 1,
        ;
    }
}

/// The running least-squares accumulator: a single pass over the pairs of a
/// candidate segment, keeping exact sums in 128-bit integers.  `ok` records
/// whether every sum so far stayed in range.
#[derive(Clone, Copy)]
pub struct LrAcc {
    n: usize,
    sx: i128,
    sy: i128,
    sxx: i128,
    sxy: i128,
    ok: bool,
    points: Ghost<Seq<(u64, u64)>>,
}

impl LrAcc {
    pub closed spec fn points_seq(self) -> Seq<(u64, u64)> {
        self.points@
    }

    pub closed spec fn wf(self) -> bool {
        &&& self.n == self.points@.len()
        &&& (self.ok <==> sums_fit(self.points@))
        &&& (self.ok ==> self.sx == sum_x(self.points@) && self.sy == sum_y(self.points@)
            && self.sxx == sum_xx(self.points@) && self.sxy == sum_xy(self.points@))
    }

    pub fn new() -> (r: LrAcc)
        ensures
            r.wf(),
            r.points_seq() == Seq::<(u64, u64)>::empty(),
    {
        LrAcc { n: 0, sx: 0, sy: 0, sxx: 0, sxy: 0, ok: true, points: Ghost(Seq::empty()) }
    }

    /// Extends the accumulated segment by one pair.
    pub fn push(&mut self, x: u64, y: u64)
        requires
            old(self).wf(),
            old(self).points_seq().len() < usize::MAX,
        ensures
            final(self).wf(),
            final(self).points_seq() == old(self).points_seq().push((x, y)),
    {
        proof {
            let s = self.points@;
            let t = s.push((x, y));
            assert(t.drop_last() =~= s);
            assert(t.last() == (x, y));
            lemma_sums_nonneg(s);
        }
        let ghost olds = self.points@;
        self.points = Ghost(self.points@.push((x, y)));
        self.n = self.n + 1;
        if self.ok {
            let xi = x as i128;
            let yi = y as i128;
            let mut done = false;
            if let Some(v1) = self.sx.checked_add(xi) {
                if let Some(v2) = self.sy.checked_add(yi) {
                    if let Some(p1) = xi.checked_mul(xi) {
                        if let Some(v3) = self.sxx.checked_add(p1) {
                            if let Some(p2) = xi.checked_mul(yi) {
                                if let Some(v4) = self.sxy.checked_add(p2) {
                                    self.sx = v1;
                                    self.sy = v2;
                                    self.sxx = v3;
                                    self.sxy = v4;
                                    done = true;
                                }
                            }
                        }
                    }
                }
            }
            if !done {
                self.ok = false;
                proof {
                    assert(!sums_fit(self.points@)) by {
                        lemma_sums_nonneg(olds);
                    }
                }
            }
        } else {
            proof {
                lemma_sums_nonneg(olds);
            }
        }
    }

    /// The exact least-squares fit of the accumulated pairs, as
    /// (slope numerator, intercept numerator, denominator), or None when a
    /// product falls outside the 128-bit range.
    pub fn try_fit(&self) -> (r: Option<(i128, i128, i128)>)
        requires
            self.wf(),
        ensures
            r is Some <==> fit_fits(self.points_seq()),
            r matches Some(f) ==> (f.0 as int, f.1 as int, f.2 as int) == fit_of(
                self.points_seq(),
            ) && f.2 >= 1,
    {
        let ghost s = self.points@;
        if self.n == 0 {
            return Some((0, 0, 1));
        }
        if !self.ok {
            return None;
        }
        proof {
            lemma_sums_nonneg(s);
        }
        let ni = self.n as i128;
        let c1 = match ni.checked_mul(self.sxx) {
            Some(v) => v,
            None => {
                return None;
            },
        };
        let c2 = match self.sx.checked_mul(self.sx) {
            Some(v) => v,
            None => {
                return None;
            },
        };
        let sxx_v = c1 - c2;
        if sxx_v <= 0 {
            return Some((0, self.sy, ni));
        }
        let c3 = match ni.checked_mul(self.sxy) {
            Some(v) => v,
            None => {
                return None;
            },
        };
        let c4 = match self.sx.checked_mul(self.sy) {
            Some(v) => v,
            None => {
                return None;
            },
        };
        let sxy_v = c3 - c4;
        let a = match ni.checked_mul(sxy_v) {
            Some(v) => v,
            None => {
                return None;
            },
        };
        let d = match ni.checked_mul(sxx_v) {
            Some(v) => v,
            None => {
                return None;
            },
        };
        let t1 = match self.sy.checked_mul(sxx_v) {
            Some(v) => v,
            None => {
                return None;
            },
        };
        let t2 = match sxy_v.checked_mul(self.sx) {
            Some(v) => v,
            None => {
                return None;
            },
        };
        let b = match t1.checked_sub(t2) {
            Some(v) => v,
            None => {
                return None;
            },
        };
        proof {
            assert(sxx_v as int == sxx_of(s));
            assert(sxy_v as int == sxy_of(s));
            assert(a as int == s.len() * sxy_of(s));
            assert(b as int == sum_y(s) * sxx_of(s) - sxy_of(s) * sum_x(s));
            assert(d as int == s.len() * sxx_of(s));
            assert(d >= 1) by (nonlinear_arith)
                requires
                    d as int == s.len() * sxx_of(s),
                    s.len() >= 1,
                    sxx_of(s) >= 1,
            ;
        }
        Some((a, b, d))
    }

    /// Whether the accumulated keys determine no slope yet: zero centered
    /// key variance.
    pub fn slope_undetermined(&self) -> (r: bool)
        requires
            self.wf(),
            fit_fits(self.points_seq()),
            self.points_seq().len() >= 1,
        ensures
            r == (sxx_of(self.points_seq()) <= 0),
    {
        proof {
            lemma_sums_nonneg(self.points@);
            assert((self.n as int) * (self.sxx as int) >= 0) by (nonlinear_arith)
                requires
                    self.n as int >= 0,
                    self.sxx as int >= 0,
            ;
            assert((self.sx as int) * (self.sx as int) >= 0) by (nonlinear_arith);
        }
        let ni = self.n as i128;
        let c1 = ni * self.sxx;
        let c2 = self.sx * self.sx;
        c1 - c2 <= 0
    }
}

/// The residual of `p` under the line (a, b, d) stays within one position,
/// and its evaluation stays within the 128-bit range.
pub open spec fn resid_within(p: (u64, u64), a: int, b: int, d: int) -> bool {
    &&& fits_i128(a * p.0)
    &&& fits_i128(d * p.1)
    &&& fits_i128(a * p.0 + b)
    &&& fits_i128(a * p.0 + b - d * p.1)
    &&& -d <= a * p.0 + b - d * p.1 <= d
}

/// Every pair of the segment has its residual within one position.
pub open spec fn seg_ok(s: Seq<(u64, u64)>, a: int, b: int, d: int) -> bool {
    forall|i: int| 0 <= i < s.len() ==> resid_within(#[trigger] s[i], a, b, d)
}

/// The refit test: the exact fit of `s` is computable in range and keeps
/// every residual within one position.
pub open spec fn acceptable(s: Seq<(u64, u64)>) -> bool {
    fit_fits(s) && seg_ok(s, fit_of(s).0, fit_of(s).1, fit_of(s).2)
}

/// The greedy extension test.  A segment whose keys carry no slope
/// information yet (a single pair, or zero key variance) extends whenever
/// the refitted segment passes; once a slope is determined, the candidate
/// pair must also lie within one position of the current line, so that a
/// far-apart cluster opens a new segment.
pub open spec fn extendable(t: Seq<(u64, u64)>, p: (u64, u64)) -> bool {
    &&& (sxx_of(t) <= 0 || resid_within(p, fit_of(t).0, fit_of(t).1, fit_of(t).2))
    &&& acceptable(t.push(p))
}

/// One fitted segment: the exact line `(slope_num * x + intercept_num) / den`
/// and the last key the segment covers.
#[derive(Clone, Copy, Debug, PartialEq, Eq, Structural)]
pub struct Segment {
    pub slope_num: i128,
    pub intercept_num: i128,
    pub den: i128,
    pub boundary: u64,
}

/// Segment j of the partition `cuts` carries the exact fit of its pairs,
/// keeps every residual within one position, ends at its last key, grew
/// pair by pair (every proper prefix of it was extendable), and (the greedy
/// maximality) could not have been extended by the next pair.
pub open spec fn seg_piece_ok(s: Seq<(u64, u64)>, segs: Seq<Segment>, cuts: Seq<int>, j: int) -> bool {
    let lo = cuts[j];
    let hi = cuts[j + 1];
    let t = s.subrange(lo, hi);
    &&& 0 <= lo < hi <= s.len()
    &&& (segs[j].slope_num as int, segs[j].intercept_num as int, segs[j].den as int) == fit_of(t)
    &&& seg_ok(t, segs[j].slope_num as int, segs[j].intercept_num as int, segs[j].den as int)
    &&& segs[j].boundary == s[hi - 1].0
    &&& (forall|p: int| lo < p < hi ==> extendable(s.subrange(lo, p), #[trigger] s[p]))
    &&& (hi < s.len() ==> !extendable(s.subrange(lo, hi), s[hi]))
}

/// `cuts` partitions the whole of `s` into the greedy segments `segs`.
pub open spec fn segs_wf(s: Seq<(u64, u64)>, segs: Seq<Segment>, cuts: Seq<int>) -> bool {
    &&& cuts.len() == segs.len() + 1
    &&& segs.len() >= 1
    &&& cuts[0] == 0
    &&& cuts.last() == s.len()
    &&& forall|j: int| 0 <= j < segs.len() ==> #[trigger] seg_piece_ok(s, segs, cuts, j)
}

/// What every well-formed model guarantees of its segment list: nonempty,
/// positive denominators, boundaries nondecreasing.
pub open spec fn seg_views_wf(segs: Seq<Segment>) -> bool {
    &&& segs.len() >= 1
    &&& forall|j: int| 0 <= j < segs.len() ==> (#[trigger] segs[j]).den >= 1
    &&& forall|i: int, j: int|
        0 <= i <= j < segs.len() ==> (#[trigger] segs[i]).boundary <= (#[trigger] segs[j]).boundary
}

proof fn lemma_cuts_increasing(s: Seq<(u64, u64)>, segs: Seq<Segment>, cuts: Seq<int>, i: int, j: int)
    requires
        segs_wf(s, segs, cuts),
        0 <= i <= j < cuts.len(),
    ensures
        cuts[i] <= cuts[j],
    decreases j - i,
{
    if i < j {
        lemma_cuts_increasing(s, segs, cuts, i, j - 1);
        assert(seg_piece_ok(s, segs, cuts, j - 1));
    }
}

/// A greedy partition yields a well-formed segment list.
pub proof fn lemma_segs_views_wf(s: Seq<(u64, u64)>, segs: Seq<Segment>, cuts: Seq<int>)
    requires
        segs_wf(s, segs, cuts),
        crate::data::pairs_sorted(s),
    ensures
        seg_views_wf(segs),
{
    assert forall|j: int| 0 <= j < segs.len() implies (#[trigger] segs[j]).den >= 1 by {
        assert(seg_piece_ok(s, segs, cuts, j));
        lemma_fit_den_pos(s.subrange(cuts[j], cuts[j + 1]));
    }
    assert forall|i: int, j: int| 0 <= i <= j < segs.len() implies (#[trigger] segs[i]).boundary
        <= (#[trigger] segs[j]).boundary by {
        assert(seg_piece_ok(s, segs, cuts, i));
        assert(seg_piece_ok(s, segs, cuts, j));
        lemma_cuts_increasing(s, segs, cuts, i + 1, j + 1);
        assert(0 <= cuts[i + 1] - 1 <= cuts[j + 1] - 1 < s.len());
        assert(s[cuts[i + 1] - 1].0 <= s[cuts[j + 1] - 1].0);
    }
}

/// The maximum-residual check of a candidate segment, as a threshold test:
/// whether every pair of data[start..end] lies within one position of the
/// line (a, b, d).
fn segment_error_ok(
    data: &crate::data::RMITrainingData,
    start: usize,
    end: usize,
    a: i128,
    b: i128,
    d: i128,
) -> (r: bool)
    requires
        start <= end <= data@.len(),
        d >= 1,
    ensures
        r == seg_ok(data@.subrange(start as int, end as int), a as int, b as int, d as int),
{
    let ghost t = data@.subrange(start as int, end as int);
    let mut i = start;
    while i < end
        invariant
            start <= i <= end <= data@.len(),
            d >= 1,
            t == data@.subrange(start as int, end as int),
            forall|k: int| 0 <= k < i - start ==> resid_within(#[trigger] t[k], a as int, b as int, d as int),
        decreases end - i,
    {
        let p = data.get(i);
        proof {
            assert(t[i - start] == data@[i as int]);
        }
        let xi = p.0 as i128;
        let yi = p.1 as i128;
        let m1 = match a.checked_mul(xi) {
            Some(v) => v,
            None => {
                return false;
            },
        };
        let m2 = match d.checked_mul(yi) {
            Some(v) => v,
            None => {
                return false;
            },
        };
        let m3 = match m1.checked_add(b) {
            Some(v) => v,
            None => {
                return false;
            },
        };
        let resid = match m3.checked_sub(m2) {
            Some(v) => v,
            None => {
                return false;
            },
        };
        if resid < -d || resid > d {
            return false;
        }
        i = i + 1;
    }
    true
}

pub proof fn lemma_singleton_fit(p: (u64, u64))
    ensures
        fit_of(seq![p]) == (0int, p.1 as int, 1int),
        seg_ok(seq![p], 0, p.1 as int, 1),
        sxx_of(seq![p]) == 0,
{
    let s = seq![p];
    let e = Seq::<(u64, u64)>::empty();
    assert(s.drop_last() =~= e);
    assert(s.last() == p);
    assert(sum_x(e) == 0 && sum_y(e) == 0 && sum_xx(e) == 0 && sum_xy(e) == 0);
    assert(sum_x(s) == sum_x(e) + p.0);
    assert(sum_y(s) == sum_y(e) + p.1);
    assert(sum_xx(s) == sum_xx(e) + p.0 * p.0);
    assert(sum_xy(s) == sum_xy(e) + p.0 * p.1);
    assert(sxx_of(s) == 1 * (p.0 * p.0) - p.0 * p.0);
    assert(sxx_of(s) == 0);
    assert(fit_of(s) == (0int, p.1 as int, 1int));
    assert forall|i: int| 0 <= i < s.len() implies resid_within(#[trigger] s[i], 0, p.1 as int, 1) by {
        assert(s[i] == p);
        assert(0 * p.0 == 0) by (nonlinear_arith);
        assert(1 * p.1 == p.1) by (nonlinear_arith);
    }
}

/// Grows one greedy segment from `start`: extends while the candidate pair
/// stays within one position of the current line (once a slope is
/// determined) and the refitted segment keeps every residual within one
/// position.  Returns the exclusive end of the segment and its fitted line.
#[verifier::rlimit(100)]
#[verifier::loop_isolation(false)]
fn grow_segment(data: &crate::data::RMITrainingData, start: usize) -> (r: (usize, i128, i128, i128))
    requires
        start < data@.len(),
    ensures
        start < r.0 <= data@.len(),
        (r.1 as int, r.2 as int, r.3 as int) == fit_of(data@.subrange(start as int, r.0 as int)),
        seg_ok(data@.subrange(start as int, r.0 as int), r.1 as int, r.2 as int, r.3 as int),
        forall|p: int| start < p < r.0 ==> extendable(
            data@.subrange(start as int, p),
            #[trigger] data@[p],
        ),
        r.0 < data@.len() ==> !extendable(
            data@.subrange(start as int, r.0 as int),
            data@[r.0 as int],
        ),
        r.3 >= 1,
{
    let n = data.len();
    let p0 = data.get(start);
    let mut acc = LrAcc::new();
    acc.push(p0.0, p0.1);
    let mut end = start + 1;
    let mut a: i128 = 0;
    let mut b: i128 = p0.1 as i128;
    let mut d: i128 = 1;
    let mut undet = true;
    proof {
        assert(acc.points_seq() =~= seq![p0]);
        assert(data@.subrange(start as int, end as int) =~= seq![p0]);
        lemma_singleton_fit(p0);
    }
    while end < n
        invariant
            n == data@.len(),
            start < end <= n,
            acc.wf(),
            acc.points_seq() == data@.subrange(start as int, end as int),
            (a as int, b as int, d as int) == fit_of(data@.subrange(start as int, end as int)),
            seg_ok(data@.subrange(start as int, end as int), a as int, b as int, d as int),
            d >= 1,
            undet == (sxx_of(data@.subrange(start as int, end as int)) <= 0),
            forall|p: int| start < p < end ==> extendable(
                data@.subrange(start as int, p),
                #[trigger] data@[p],
            ),
        decreases n - end,
    {
        let p = data.get(end);
        let ghost cur = data@.subrange(start as int, end as int);
        if !undet {
            // Once a slope is fitted, the candidate pair must lie within
            // one position of the current line.
            if !segment_error_ok(data, end, end + 1, a, b, d) {
                proof {
                    let t1 = data@.subrange(end as int, end as int + 1);
                    assert(t1.len() == 1 && t1[0] == data@[end as int]);
                    if resid_within(data@[end as int], a as int, b as int, d as int) {
                        assert forall|i: int| 0 <= i < t1.len() implies resid_within(
                            #[trigger] t1[i],
                            a as int,
                            b as int,
                            d as int,
                        ) by {
                            assert(t1[i] == data@[end as int]);
                        }
                    }
                    assert(!extendable(cur, data@[end as int]));
                }
                return (end, a, b, d);
            }
        }
        let mut cand = acc;
        cand.push(p.0, p.1);
        proof {
            assert(cand.points_seq() =~= data@.subrange(start as int, end as int + 1));
            assert(cur.push(data@[end as int]) =~= data@.subrange(start as int, end as int + 1));
        }
        match cand.try_fit() {
            None => {
                proof {
                    assert(!acceptable(cur.push(data@[end as int])));
                }
                return (end, a, b, d);
            },
            Some((ca, cb, cd)) => {
                if segment_error_ok(data, start, end + 1, ca, cb, cd) {
                    proof {
                        if !undet {
                            let t1 = data@.subrange(end as int, end as int + 1);
                            assert(seg_ok(t1, a as int, b as int, d as int));
                            assert(resid_within(t1[0], a as int, b as int, d as int));
                            assert(t1[0] == data@[end as int]);
                        }
                        assert(acceptable(cur.push(data@[end as int])));
                        assert(extendable(cur, data@[end as int]));
                    }
                    acc = cand;
                    a = ca;
                    b = cb;
                    d = cd;
                    undet = cand.slope_undetermined();
                    end = end + 1;
                } else {
                    proof {
                        assert(!acceptable(cur.push(data@[end as int])));
                    }
                    return (end, a, b, d);
                }
            },
        }
    }
    (end, a, b, d)
}

/// Greedy error-bounded segmentation of the whole container: a left-to-right
/// scan that closes a segment at the first extension whose exact fit would
/// push a residual beyond one position.  An empty container yields the single
/// catch-all constant-zero segment whose boundary matches every key.
pub(crate) fn build_segments(data: &crate::data::RMITrainingData) -> (r: Vec<Segment>)
    requires
        data.wf(),
    ensures
        r@.len() >= 1,
        seg_views_wf(r@),
        data@.len() == 0 ==> r@.len() == 1 && r@[0] == (Segment {
            slope_num: 0,
            intercept_num: 0,
            den: 1,
            boundary: u64::MAX,
        }),
        data@.len() > 0 ==> exists|cuts: Seq<int>| segs_wf(data@, r@, cuts),
{
    let n = data.len();
    let mut segs: Vec<Segment> = Vec::new();
    if n == 0 {
        segs.push(Segment { slope_num: 0, intercept_num: 0, den: 1, boundary: u64::MAX });
        return segs;
    }
    let ghost mut cuts: Seq<int> = seq![0int];
    let mut start: usize = 0;
    while start < n
        invariant
            n == data@.len(),
            n > 0,
            0 <= start <= n,
            cuts.len() == segs@.len() + 1,
            cuts[0] == 0,
            cuts.last() == start as int,
            forall|j: int| 0 <= j < segs@.len() ==> #[trigger] seg_piece_ok(data@, segs@, cuts, j),
        decreases n - start,
    {
        let (end, a, b, d) = grow_segment(data, start);
        let boundary = data.get_key(end - 1);
        let ghost old_segs = segs@;
        let ghost old_cuts = cuts;
        segs.push(Segment { slope_num: a, intercept_num: b, den: d, boundary });
        proof {
            cuts = cuts.push(end as int);
        }
        proof {
            assert forall|j: int| 0 <= j < segs@.len() implies #[trigger] seg_piece_ok(
                data@,
                segs@,
                cuts,
                j,
            ) by {
                if j < old_segs.len() {
                    assert(seg_piece_ok(data@, old_segs, old_cuts, j));
                    assert(segs@[j] == old_segs[j]);
                    assert(cuts[j] == old_cuts[j] && cuts[j + 1] == old_cuts[j + 1]);
                } else {
                    assert(cuts[j] == start as int && cuts[j + 1] == end as int);
                    assert(segs@[j] == (Segment { slope_num: a, intercept_num: b, den: d, boundary }));
                }
            }
        }
        start = end;
    }
    proof {
        assert(segs@.len() >= 1) by {
            assert(cuts.last() == n as int && n > 0);
            if segs@.len() == 0 {
                assert(cuts.len() == 1 && cuts[0] == 0);
            }
        }
        assert(segs_wf(data@, segs@, cuts));
        lemma_segs_views_wf(data@, segs@, cuts);
    }
    segs
}

pub open spec fn boundaries_of(segs: Seq<Segment>) -> Seq<u64> {
    segs.map_values(|g: Segment| g.boundary)
}

/// Nondecreasing boundary keys.
pub open spec fn bounds_sorted(bs: Seq<u64>) -> bool {
    forall|i: int, j: int| 0 <= i <= j < bs.len() ==> #[trigger] bs[i] <= #[trigger] bs[j]
}

/// The number of boundaries strictly below the query key: the query's
/// segment before clamping.  A boundary is the last key its segment covers,
/// so an exact match stays in its own segment.
pub open spec fn lower_idx(bs: Seq<u64>, q: u64) -> int
    decreases bs.len(),
{
    if bs.len() == 0 {
        0
    } else if bs[0] < q {
        1 + lower_idx(bs.drop_first(), q)
    } else {
        0
    }
}

proof fn lemma_lower_idx_bounds(bs: Seq<u64>, q: u64)
    requires
        bounds_sorted(bs),
    ensures
        0 <= lower_idx(bs, q) <= bs.len(),
        forall|i: int| 0 <= i < lower_idx(bs, q) ==> bs[i] < q,
        forall|i: int| lower_idx(bs, q) <= i < bs.len() ==> bs[i] >= q,
    decreases bs.len(),
{
    if bs.len() > 0 {
        let t = bs.drop_first();
        assert(forall|i: int| 0 <= i < t.len() ==> t[i] == bs[i + 1]);
        assert(bounds_sorted(t));
        lemma_lower_idx_bounds(t, q);
        if bs[0] < q {
            let u = lower_idx(bs, q);
            assert(u == 1 + lower_idx(t, q));
            assert forall|i: int| 0 <= i < u implies bs[i] < q by {
                if i > 0 {
                    assert(t[i - 1] < q);
                }
            }
            assert forall|i: int| u <= i < bs.len() implies bs[i] >= q by {
                assert(t[i - 1] >= q);
            }
        }
    }
}

/// The segment a query key selects: the boundary search result, clamped to
/// the last segment.
pub open spec fn spec_seg_index(segs: Seq<Segment>, q: u64) -> int {
    let u = lower_idx(boundaries_of(segs), q);
    if u >= segs.len() {
        segs.len() - 1
    } else {
        u
    }
}

/// The exact value of the line (a, b, d) at `q`, as (numerator,
/// denominator).  An evaluation that leaves the 128-bit range saturates to
/// the nearest representable whole value.
pub open spec fn line_sat(a: int, b: int, d: int, q: u64) -> (int, int) {
    let prod = a * q;
    if prod > i128::MAX {
        (i128::MAX as int, 1)
    } else if prod < i128::MIN {
        (i128::MIN as int, 1)
    } else {
        let t = prod + b;
        if t > i128::MAX {
            (i128::MAX as int, 1)
        } else if t < i128::MIN {
            (i128::MIN as int, 1)
        } else {
            (t, d)
        }
    }
}

/// The line value truncated toward zero and clamped to the unsigned range,
/// as a float-to-integer cast would round.
pub open spec fn line_sat_int(a: int, b: int, d: int, q: u64) -> u64 {
    let pr = line_sat(a, b, d, q);
    if pr.0 <= 0 {
        0
    } else if pr.0 / pr.1 > u64::MAX {
        u64::MAX
    } else {
        (pr.0 / pr.1) as u64
    }
}

/// The exact prediction of the selected segment at `q`.
pub open spec fn spec_predict(segs: Seq<Segment>, q: u64) -> (int, int) {
    let g = segs[spec_seg_index(segs, q)];
    line_sat(g.slope_num as int, g.intercept_num as int, g.den as int, q)
}

/// The integral prediction of the selected segment at `q`.
pub open spec fn spec_predict_to_int(segs: Seq<Segment>, q: u64) -> u64 {
    let g = segs[spec_seg_index(segs, q)];
    line_sat_int(g.slope_num as int, g.intercept_num as int, g.den as int, q)
}

/// Evaluates the line (a, b, d) at `q` exactly, saturating an evaluation
/// that leaves the 128-bit range.
pub fn eval_line(a: i128, b: i128, d: i128, q: u64) -> (r: (i128, i128))
    requires
        d >= 1,
    ensures
        (r.0 as int, r.1 as int) == line_sat(a as int, b as int, d as int, q),
        r.1 >= 1,
{
    let qi = q as i128;
    match a.checked_mul(qi) {
        None => {
            proof {
                if a > 0 {
                    assert(a * qi >= 0) by (nonlinear_arith)
                        requires
                            a > 0,
                            qi >= 0,
                    ;
                } else {
                    assert(a * qi <= 0) by (nonlinear_arith)
                        requires
                            a <= 0,
                            qi >= 0,
                    ;
                }
            }
            if a > 0 {
                (i128::MAX, 1)
            } else {
                (i128::MIN, 1)
            }
        },
        Some(prod) => {
            match prod.checked_add(b) {
                None => {
                    if b > 0 {
                        (i128::MAX, 1)
                    } else {
                        (i128::MIN, 1)
                    }
                },
                Some(t) => (t, d),
            }
        },
    }
}

/// Evaluates the line at `q` and truncates toward zero, clamped to the
/// unsigned range.
pub fn eval_line_int(a: i128, b: i128, d: i128, q: u64) -> (r: u64)
    requires
        d >= 1,
    ensures
        r == line_sat_int(a as int, b as int, d as int, q),
{
    let (num, den) = eval_line(a, b, d, q);
    if num <= 0 {
        0
    } else {
        let f = match num.checked_div(den) {
            Some(v) => v,
            None => 0,
        };
        proof {
            assert(f as int == num as int / den as int);
        }
        if f > u64::MAX as i128 {
            u64::MAX
        } else {
            f as u64
        }
    }
}

proof fn lemma_lower_idx_unique(bs: Seq<u64>, q: u64, u: int)
    requires
        bounds_sorted(bs),
        0 <= u <= bs.len(),
        forall|i: int| 0 <= i < u ==> bs[i] < q,
        forall|i: int| u <= i < bs.len() ==> bs[i] >= q,
    ensures
        lower_idx(bs, q) == u,
{
    lemma_lower_idx_bounds(bs, q);
    let w = lower_idx(bs, q);
    if w < u {
        assert(0 <= w < u);
        assert(bs[w] < q);
        assert(w <= w < bs.len());
        assert(bs[w] >= q);
    }
    if u < w {
        assert(0 <= u < w);
        assert(bs[u] < q);
        assert(u <= u < bs.len());
        assert(bs[u] >= q);
    }
}

/// Per-segment error bound: every pair of every greedy segment lies within
/// one position of its segment's line, in exact terms
/// `|slope_num * key + intercept_num - den * pos| <= den`.
pub proof fn lemma_per_segment_error_bound(
    s: Seq<(u64, u64)>,
    segs: Seq<Segment>,
    cuts: Seq<int>,
    j: int,
    k: int,
)
    requires
        segs_wf(s, segs, cuts),
        0 <= j < segs.len(),
        cuts[j] <= k < cuts[j + 1],
    ensures
        -(segs[j].den as int) <= segs[j].slope_num * s[k].0 + segs[j].intercept_num - segs[j].den
            * s[k].1 <= segs[j].den as int,
{
    assert(seg_piece_ok(s, segs, cuts, j));
    let t = s.subrange(cuts[j], cuts[j + 1]);
    assert(t[k - cuts[j]] == s[k]);
    assert(resid_within(
        t[k - cuts[j]],
        segs[j].slope_num as int,
        segs[j].intercept_num as int,
        segs[j].den as int,
    ));
}

/// Empty-input policy: the catch-all constant-zero segment predicts zero
/// for every query key.
pub proof fn lemma_empty_input_predicts_zero(segs: Seq<Segment>, q: u64)
    requires
        segs.len() == 1,
        segs[0] == (Segment { slope_num: 0, intercept_num: 0, den: 1, boundary: u64::MAX }),
    ensures
        spec_predict_to_int(segs, q) == 0,
{
    let g = segs[spec_seg_index(segs, q)];
    assert(0 <= spec_seg_index(segs, q) < 1) by {
        let bs = boundaries_of(segs);
        assert(bs.len() == 1);
        assert(lower_idx(bs, q) == if bs[0] < q { 1 + lower_idx(bs.drop_first(), q) } else { 0 });
        assert(lower_idx(bs.drop_first(), q) == 0);
    }
    assert(g == segs[0]);
    assert(g.slope_num * q == 0) by (nonlinear_arith)
        requires
            g.slope_num == 0,
    ;
    assert(spec_predict(segs, q) == (0int, 1int));
}

/// The constant line at `c` evaluates to `c` for every query key.
pub proof fn lemma_line_const(c: u64, q: u64)
    ensures
        line_sat_int(0, c as int, 1, q) == c,
{
    assert(0 * q == 0) by (nonlinear_arith);
    assert(line_sat(0, c as int, 1, q) == (c as int, 1int));
    if c > 0 {
        assert(c as int / 1int == c);
    }
}

/// A single constant segment predicts its constant for every query key.
pub proof fn lemma_constant_model_predicts(segs: Seq<Segment>, c: u64, q: u64)
    requires
        segs.len() == 1,
        segs[0] == (Segment { slope_num: 0, intercept_num: c as i128, den: 1, boundary: u64::MAX }),
    ensures
        spec_predict_to_int(segs, q) == c,
{
    assert(0 <= spec_seg_index(segs, q) < 1) by {
        let bs = boundaries_of(segs);
        assert(bs.len() == 1);
        assert(lower_idx(bs, q) == if bs[0] < q { 1 + lower_idx(bs.drop_first(), q) } else { 0 });
        assert(lower_idx(bs.drop_first(), q) == 0);
    }
    lemma_line_const(c, q);
}

/// The boundary tie rule: a boundary key is the last key its segment
/// covers, so querying it selects that very segment, not the next one.
pub proof fn lemma_boundary_query_stays(segs: Seq<Segment>, i: int)
    requires
        seg_views_wf(segs),
        0 <= i < segs.len(),
        forall|j: int| 0 <= j < i ==> (#[trigger] segs[j]).boundary < segs[i].boundary,
    ensures
        spec_seg_index(segs, segs[i].boundary) == i,
{
    let bs = boundaries_of(segs);
    let q = segs[i].boundary;
    assert(forall|k: int| 0 <= k < bs.len() ==> bs[k] == segs[k].boundary);
    assert forall|k: int| 0 <= k < i implies bs[k] < q by {
        assert(segs[k].boundary < segs[i].boundary);
    }
    assert forall|k: int| i <= k < bs.len() implies bs[k] >= q by {
        assert(segs[i].boundary <= segs[k].boundary);
    }
    lemma_lower_idx_unique(bs, q, i);
}

/// The clamp of the boundary search: a query key above every boundary
/// clamps to the last segment.
pub proof fn lemma_query_clamps_last(segs: Seq<Segment>, q: u64)
    requires
        seg_views_wf(segs),
        q > segs[segs.len() - 1].boundary,
    ensures
        spec_seg_index(segs, q) == segs.len() - 1,
{
    let bs = boundaries_of(segs);
    assert(forall|k: int| 0 <= k < bs.len() ==> bs[k] == segs[k].boundary);
    assert forall|k: int| 0 <= k < bs.len() implies bs[k] < q by {
        assert(segs[k].boundary <= segs[segs.len() - 1].boundary);
    }
    lemma_lower_idx_unique(bs, q, bs.len() as int);
}

/// The optimal piecewise-linear model: greedy error-bounded segments over a
/// sorted container, looked up by binary search over the boundary keys.
pub struct OptimalPLAModel {
    segments: Vec<Segment>,
}

impl View for OptimalPLAModel {
    type V = Seq<Segment>;

    closed spec fn view(&self) -> Seq<Segment> {
        self.segments@
    }
}

impl OptimalPLAModel {
    pub open spec fn wf(&self) -> bool {
        seg_views_wf(self@)
    }

    /// Trains the model: greedy segmentation of the sorted container.
    pub fn new(data: &crate::data::RMITrainingData) -> (r: OptimalPLAModel)
        requires
            data.wf(),
        ensures
            r.wf(),
            data@.len() == 0 ==> r@.len() == 1 && r@[0] == (Segment {
                slope_num: 0,
                intercept_num: 0,
                den: 1,
                boundary: u64::MAX,
            }),
            data@.len() > 0 ==> exists|cuts: Seq<int>| segs_wf(data@, r@, cuts),
    {
        let segments = build_segments(data);
        let r = OptimalPLAModel { segments };
        proof {
            if data@.len() > 0 {
                let cuts = choose|cuts: Seq<int>| segs_wf(data@, r.segments@, cuts);
                assert(segs_wf(data@, r@, cuts));
            }
        }
        r
    }

    pub fn num_segments(&self) -> (r: usize)
        ensures
            r == self@.len(),
    {
        self.segments.len()
    }

    /// Binary search for the query's segment: the first boundary at or
    /// above the key, clamped to the last segment.
    fn seg_index(&self, q: u64) -> (r: usize)
        requires
            self.wf(),
        ensures
            r as int == spec_seg_index(self@, q),
            r < self@.len(),
    {
        let ghost bs = boundaries_of(self@);
        proof {
            assert(forall|i: int| 0 <= i < bs.len() ==> bs[i] == self@[i].boundary);
            assert(bounds_sorted(bs));
            lemma_lower_idx_bounds(bs, q);
        }
        let len = self.segments.len();
        let mut lo: usize = 0;
        let mut hi: usize = len;
        while lo < hi
            invariant
                0 <= lo <= hi <= len,
                len == self@.len() >= 1,
                self.wf(),
                bs == boundaries_of(self@),
                forall|i: int| 0 <= i < lo ==> bs[i] < q,
                forall|i: int| hi <= i < len ==> bs[i] >= q,
            decreases hi - lo,
        {
            let mid = lo + (hi - lo) / 2;
            if self.segments[mid].boundary < q {
                proof {
                    assert forall|i: int| 0 <= i < mid + 1 implies bs[i] < q by {
                        assert(self@[i].boundary <= self@[mid as int].boundary);
                    }
                }
                lo = mid + 1;
            } else {
                proof {
                    assert forall|i: int| mid <= i < len implies bs[i] >= q by {
                        assert(self@[mid as int].boundary <= self@[i].boundary);
                    }
                }
                hi = mid;
            }
        }
        proof {
            let u = lower_idx(bs, q);
            if (lo as int) < u {
                assert(bs[lo as int] < q);
                assert(false);
            }
            if u < lo as int {
                assert(bs[u] >= q);
                assert(false);
            }
        }
        if lo >= len {
            len - 1
        } else {
            lo
        }
    }

    /// The exact prediction at `q` as a rational.
    pub fn predict(&self, q: u64) -> (r: crate::rat::Rat)
        requires
            self.wf(),
        ensures
            (r.num as int, r.den as int) == spec_predict(self@, q),
            r.wf(),
    {
        let j = self.seg_index(q);
        let g = self.segments[j];
        let (num, den) = eval_line(g.slope_num, g.intercept_num, g.den, q);
        crate::rat::Rat { num, den }
    }

    /// The prediction truncated toward zero and clamped to the unsigned
    /// range.
    pub fn predict_to_int(&self, q: u64) -> (r: u64)
        requires
            self.wf(),
        ensures
            r == spec_predict_to_int(self@, q),
    {
        let j = self.seg_index(q);
        let g = self.segments[j];
        eval_line_int(g.slope_num, g.intercept_num, g.den, q)
    }

    /// Forces the model to predict `constant` for every key; always
    /// representable for this model, so always succeeds.
    pub fn set_to_constant_model(&mut self, constant: u64) -> (r: bool)
        ensures
            r == true,
            final(self).wf(),
            final(self)@.len() == 1,
            final(self)@[0] == (Segment {
                slope_num: 0,
                intercept_num: constant as i128,
                den: 1,
                boundary: u64::MAX,
            }),
    {
        let mut segs: Vec<Segment> = Vec::new();
        segs.push(Segment { slope_num: 0, intercept_num: constant as i128, den: 1, boundary: u64::MAX });
        self.segments = segs;
        true
    }

    /// The ordered parameter list that fully captures the trained state:
    /// the segment count, the intercepts, the slopes, and the boundary keys.
    pub fn params(&self) -> (r: Vec<crate::models::ModelParam>)
        ensures
            r@.len() == 4,
            r@[0] == crate::models::ModelParam::Int(self@.len() as u64),
            r@[1] matches crate::models::ModelParam::FloatArray(v) && v@ == self@.map_values(
                |g: Segment| crate::rat::Rat { num: g.intercept_num, den: g.den },
            ),
            r@[2] matches crate::models::ModelParam::FloatArray(v) && v@ == self@.map_values(
                |g: Segment| crate::rat::Rat { num: g.slope_num, den: g.den },
            ),
            r@[3] matches crate::models::ModelParam::IntArray(v) && v@ == boundaries_of(self@),
    {
        let n = self.segments.len();
        let mut intercepts: Vec<crate::rat::Rat> = Vec::new();
        let mut slopes: Vec<crate::rat::Rat> = Vec::new();
        let mut bounds: Vec<u64> = Vec::new();
        let mut i: usize = 0;
        while i < n
            invariant
                n == self@.len(),
                0 <= i <= n,
                intercepts@.len() == i && slopes@.len() == i && bounds@.len() == i,
                forall|k: int| 0 <= k < i ==> #[trigger] intercepts@[k] == (crate::rat::Rat {
                    num: self@[k].intercept_num,
                    den: self@[k].den,
                }),
                forall|k: int| 0 <= k < i ==> #[trigger] slopes@[k] == (crate::rat::Rat {
                    num: self@[k].slope_num,
                    den: self@[k].den,
                }),
                forall|k: int| 0 <= k < i ==> #[trigger] bounds@[k] == self@[k].boundary,
            decreases n - i,
        {
            let g = self.segments[i];
            intercepts.push(crate::rat::Rat { num: g.intercept_num, den: g.den });
            slopes.push(crate::rat::Rat { num: g.slope_num, den: g.den });
            bounds.push(g.boundary);
            i = i + 1;
        }
        proof {
            assert(intercepts@ =~= self@.map_values(
                |g: Segment| crate::rat::Rat { num: g.intercept_num, den: g.den },
            ));
            assert(slopes@ =~= self@.map_values(
                |g: Segment| crate::rat::Rat { num: g.slope_num, den: g.den },
            ));
            assert(bounds@ =~= boundaries_of(self@));
        }
        let mut r: Vec<crate::models::ModelParam> = Vec::new();
        r.push(crate::models::ModelParam::Int(n as u64));
        r.push(crate::models::ModelParam::FloatArray(intercepts));
        r.push(crate::models::ModelParam::FloatArray(slopes));
        r.push(crate::models::ModelParam::IntArray(bounds));
        r
    }

    /// The evaluation template the external code generator emits for this
    /// model.
    pub fn code(&self) -> (r: String)
        ensures
            r@ == "inline double optimal_pla(uint64_t length, const double intercepts[], const double slopes[], const uint64_t boundaries[], double inp) {\n    uint64_t idx = bs_upper_bound(boundaries, length, (uint64_t)inp);\n    if (idx >= length) { idx = length - 1; }\n    return std::fma(slopes[idx], inp, intercepts[idx]);\n}"@,
    {
        "inline double optimal_pla(uint64_t length, const double intercepts[], const double slopes[], const uint64_t boundaries[], double inp) {\n    uint64_t idx = bs_upper_bound(boundaries, length, (uint64_t)inp);\n    if (idx >= length) { idx = length - 1; }\n    return std::fma(slopes[idx], inp, intercepts[idx]);\n}".to_owned()
    }

    /// The standard routines the generated lookup needs.
    pub fn standard_functions(&self) -> (r: Vec<crate::models::StdFunction>)
        ensures
            r@.len() == 1,
            r@[0] == crate::models::StdFunction::BinarySearch,
    {
        let mut r: Vec<crate::models::StdFunction> = Vec::new();
        r.push(crate::models::StdFunction::BinarySearch);
        r
    }

    pub fn function_name(&self) -> (r: &'static str)
        ensures
            r@ == "optimal_pla"@,
    {
        "optimal_pla"
    }

    pub fn model_name(&self) -> (r: &'static str)
        ensures
            r@ == "optimal_pla"@,
    {
        "optimal_pla"
    }

    pub fn input_type(&self) -> (r: crate::models::ModelDataType)
        ensures
            r == crate::models::ModelDataType::Float,
    {
        crate::models::ModelDataType::Float
    }

    pub fn output_type(&self) -> (r: crate::models::ModelDataType)
        ensures
            r == crate::models::ModelDataType::Float,
    {
        crate::models::ModelDataType::Float
    }

    /// Whether callers must clamp predictions to the data range: never, the
    /// boundary search already clamps to a valid segment.
    pub fn needs_bounds_check(&self) -> (r: bool)
        ensures
            r == false,
    {
        false
    }

    /// The construction bound: each segment keeps its own pairs within one
    /// position.  The trainer certifies it against the observed maximum
    /// error before trusting it.
    pub fn error_bound(&self) -> (r: Option<u64>)
        ensures
            r == Some(1u64),
    {
        Some(1u64)
    }
}

} // verus!
