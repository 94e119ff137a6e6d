//! Linear-fit exactness: on data generated by an exact integer line, the
//! greedy segmentation produces a single segment whose line reproduces every
//! position exactly.
use vstd::prelude::*;
use crate::pla::{
    acceptable, extendable, fit_fits, fit_of, resid_within, seg_ok, seg_piece_ok, segs_wf, sum_x,
    sum_xx, sum_xy, sum_y, sums_fit, sxx_of, sxy_of, Segment,
};

verus! {

/// The pairs lie on the integer line `pos == alpha + beta * key`.
pub open spec fn colinear(s: Seq<(u64, u64)>, alpha: int, beta: int) -> bool {
    forall|i: int| 0 <= i < s.len() ==> (#[trigger] s[i]).1 == alpha + beta * s[i].0
}

/// Strictly increasing keys.
pub open spec fn keys_strict(s: Seq<(u64, u64)>) -> bool {
    forall|i: int, j: int| 0 <= i < j < s.len() ==> (#[trigger] s[i]).0 < (#[trigger] s[j]).0
}

/// Keys, positions, length and line coefficients small enough that the
/// 128-bit fit arithmetic provably stays in range.
pub open spec fn modest_line_data(s: Seq<(u64, u64)>, alpha: int, beta: int) -> bool {
    &&& s.len() <= 0x100000
    &&& forall|i: int| 0 <= i < s.len() ==> (#[trigger] s[i]).0 <= 0x100000 && s[i].1 <= 0x100000
    &&& -0x100000 <= alpha <= 0x100000
    &&& -0x100000 <= beta <= 0x100000
}

proof fn lemma_sum_bounds(s: Seq<(u64, u64)>, k: int)
    requires
        k >= 1,
        forall|i: int| 0 <= i < s.len() ==> (#[trigger] s[i]).0 <= k && s[i].1 <= k,
    ensures
        0 <= sum_x(s) <= s.len() * k,
        0 <= sum_y(s) <= s.len() * k,
        0 <= sum_xx(s) <= s.len() * (k * k),
        0 <= sum_xy(s) <= s.len() * (k * k),
    decreases s.len(),
{
    if s.len() == 0 {
        assert(0 * k == 0) by (nonlinear_arith);
        assert(0 * (k * k) == 0) by (nonlinear_arith);
    } else {
        let t = s.drop_last();
        let n = s.len() as int;
        let x = s.last().0 as int;
        let y = s.last().1 as int;
        assert(forall|i: int| 0 <= i < t.len() ==> t[i] == s[i]);
        lemma_sum_bounds(t, k);
        assert(0 <= x <= k && 0 <= y <= k);
        assert(x * x <= k * k && x * x >= 0 && x * y <= k * k && x * y >= 0) by (nonlinear_arith)
            requires
                0 <= x <= k,
                0 <= y <= k,
        ;
        assert((n - 1) * k + k == n * k) by (nonlinear_arith);
        assert((n - 1) * (k * k) + k * k == n * (k * k)) by (nonlinear_arith);
    }
}

proof fn lemma_colinear_sums(s: Seq<(u64, u64)>, alpha: int, beta: int)
    requires
        colinear(s, alpha, beta),
    ensures
        sum_y(s) == alpha * s.len() + beta * sum_x(s),
        sum_xy(s) == alpha * sum_x(s) + beta * sum_xx(s),
    decreases s.len(),
{
    if s.len() == 0 {
        assert(alpha * 0 == 0) by (nonlinear_arith);
        assert(beta * 0 == 0) by (nonlinear_arith);
        assert(alpha * 0 + beta * 0 == 0) by (nonlinear_arith);
    } else {
        let t = s.drop_last();
        let n = s.len() as int;
        let x = s.last().0 as int;
        let y = s.last().1 as int;
        assert(forall|i: int| 0 <= i < t.len() ==> t[i] == s[i]);
        assert(colinear(t, alpha, beta));
        lemma_colinear_sums(t, alpha, beta);
        assert(s[n - 1] == s.last());
        assert(y == alpha + beta * x);
        assert(alpha * (n - 1) + beta * sum_x(t) + (alpha + beta * x) == alpha * n + beta * (sum_x(
            t,
        ) + x)) by (nonlinear_arith);
        assert(x * y == alpha * x + beta * (x * x)) by (nonlinear_arith)
            requires
                y == alpha + beta * x,
        ;
        assert(alpha * sum_x(t) + beta * sum_xx(t) + (alpha * x + beta * (x * x)) == alpha * (sum_x(
            t,
        ) + x) + beta * (sum_xx(t) + x * x)) by (nonlinear_arith);
    }
}

proof fn lemma_colinear_sxy(s: Seq<(u64, u64)>, alpha: int, beta: int)
    requires
        colinear(s, alpha, beta),
    ensures
        sxy_of(s) == beta * sxx_of(s),
{
    lemma_colinear_sums(s, alpha, beta);
    let n = s.len() as int;
    let sx = sum_x(s);
    let q = sum_xx(s);
    assert(n * (alpha * sx + beta * q) - sx * (alpha * n + beta * sx) == beta * (n * q - sx * sx))
        by (nonlinear_arith);
}

/// The summed squared deviation of the keys of `s` from `x`.
pub open spec fn sq_dev(s: Seq<(u64, u64)>, x: int) -> int
    decreases s.len(),
{
    if s.len() == 0 {
        0
    } else {
        sq_dev(s.drop_last(), x) + (s.last().0 - x) * (s.last().0 - x)
    }
}

proof fn lemma_sq_dev_expand(s: Seq<(u64, u64)>, x: int)
    ensures
        sq_dev(s, x) == sum_xx(s) + s.len() * (x * x) - 2 * sum_x(s) * x,
    decreases s.len(),
{
    if s.len() == 0 {
        assert(0 * (x * x) == 0) by (nonlinear_arith);
        assert(2 * 0 * x == 0) by (nonlinear_arith);
    } else {
        let t = s.drop_last();
        let n = s.len() as int;
        let a = s.last().0 as int;
        lemma_sq_dev_expand(t, x);
        assert((a - x) * (a - x) == a * a + x * x - 2 * a * x) by (nonlinear_arith);
        assert(sum_xx(t) + (n - 1) * (x * x) - 2 * sum_x(t) * x + (a * a + x * x - 2 * a * x)
            == sum_xx(t) + a * a + n * (x * x) - 2 * (sum_x(t) + a) * x) by (nonlinear_arith);
    }
}

proof fn lemma_sq_dev_nonneg(s: Seq<(u64, u64)>, x: int)
    ensures
        sq_dev(s, x) >= 0,
    decreases s.len(),
{
    if s.len() > 0 {
        lemma_sq_dev_nonneg(s.drop_last(), x);
        let a = s.last().0 as int;
        assert((a - x) * (a - x) >= 0) by (nonlinear_arith);
    }
}

proof fn lemma_sq_dev_pos(s: Seq<(u64, u64)>, x: int, w: int)
    requires
        0 <= w < s.len(),
        s[w].0 != x,
    ensures
        sq_dev(s, x) >= 1,
    decreases s.len(),
{
    let t = s.drop_last();
    let a = s.last().0 as int;
    if w == s.len() - 1 {
        lemma_sq_dev_nonneg(t, x);
        assert((a - x) * (a - x) >= 1) by (nonlinear_arith)
            requires
                a != x,
        ;
    } else {
        assert(t[w] == s[w]);
        lemma_sq_dev_pos(t, x, w);
        assert((a - x) * (a - x) >= 0) by (nonlinear_arith);
    }
}

proof fn lemma_sxx_push(s: Seq<(u64, u64)>, p: (u64, u64))
    ensures
        sxx_of(s.push(p)) == sxx_of(s) + sq_dev(s, p.0 as int),
{
    let u = s.push(p);
    assert(u.drop_last() =~= s);
    assert(u.last() == p);
    let n = s.len() as int;
    let x = p.0 as int;
    let sx = sum_x(s);
    let q = sum_xx(s);
    assert(sum_x(u) == sx + x && sum_xx(u) == q + x * x);
    lemma_sq_dev_expand(s, x);
    assert((n + 1) * (q + x * x) - (sx + x) * (sx + x) == (n * q - sx * sx) + (q + n * (x * x) - 2
        * sx * x)) by (nonlinear_arith);
}

proof fn lemma_sxx_nonneg(s: Seq<(u64, u64)>)
    ensures
        sxx_of(s) >= 0,
    decreases s.len(),
{
    if s.len() == 0 {
        assert(0 * 0 == 0) by (nonlinear_arith);
    } else {
        let t = s.drop_last();
        lemma_sxx_nonneg(t);
        lemma_sxx_push(t, s.last());
        assert(t.push(s.last()) =~= s);
        lemma_sq_dev_nonneg(t, s.last().0 as int);
    }
}

proof fn lemma_sxx_pos(s: Seq<(u64, u64)>)
    requires
        keys_strict(s),
        s.len() >= 2,
    ensures
        sxx_of(s) >= 1,
{
    let t = s.drop_last();
    assert(forall|i: int| 0 <= i < t.len() ==> t[i] == s[i]);
    assert(t[0].0 < s.last().0) by {
        assert(s[0].0 < s[s.len() - 1].0);
    }
    lemma_sxx_push(t, s.last());
    assert(t.push(s.last()) =~= s);
    lemma_sxx_nonneg(t);
    lemma_sq_dev_pos(t, s.last().0 as int, 0);
}

/// On collinear data within range, the exact fit is computable, reproduces
/// every position exactly, and the segment check accepts the whole range.
proof fn lemma_colinear_acceptable(s: Seq<(u64, u64)>, alpha: int, beta: int)
    requires
        colinear(s, alpha, beta),
        keys_strict(s),
        modest_line_data(s, alpha, beta),
        s.len() >= 1,
    ensures
        acceptable(s),
        forall|k: int| 0 <= k < s.len() ==> fit_of(s).0 * (#[trigger] s[k]).0 + fit_of(s).1
            == fit_of(s).2 * s[k].1,
        sxx_of(s) > 0 ==> forall|x: u64, y: u64|
            #![trigger resid_within((x, y), fit_of(s).0, fit_of(s).1, fit_of(s).2)]
            x <= 0x100000 && y <= 0x100000 && y == alpha + beta * x ==> resid_within(
                (x, y),
                fit_of(s).0,
                fit_of(s).1,
                fit_of(s).2,
            ),
{
    let kb = 0x100000int;
    let n = s.len() as int;
    lemma_sum_bounds(s, kb);
    let sx = sum_x(s);
    let sy = sum_y(s);
    let q = sum_xx(s);
    let xy = sum_xy(s);
    assert(n * kb <= kb * kb && n * (kb * kb) <= kb * kb * kb) by (nonlinear_arith)
        requires
            1 <= n <= kb,
    ;
    assert(kb * kb <= i128::MAX && kb * kb * kb <= i128::MAX && kb * (kb * kb * kb) <= i128::MAX
        && (kb * kb) * (kb * kb) <= i128::MAX && 0 <= kb * (kb * kb * kb) && 0 <= (kb * kb) * (kb
        * kb)) by (nonlinear_arith)
        requires
            kb == 0x100000,
    ;
    assert(sums_fit(s));
    assert(0 <= n * q <= kb * (kb * kb * kb)) by (nonlinear_arith)
        requires
            1 <= n <= kb,
            0 <= q <= kb * kb * kb,
    ;
    assert(0 <= sx * sx <= (kb * kb) * (kb * kb)) by (nonlinear_arith)
        requires
            0 <= sx <= kb * kb,
    ;
    if s.len() == 1 {
        crate::pla::lemma_singleton_fit(s[0]);
        assert(s =~= seq![s[0]]);
        assert(sxx_of(s) == 0);
        assert(fit_of(s).0 * s[0].0 == 0) by (nonlinear_arith)
            requires
                fit_of(s).0 == 0,
        ;
        assert(fit_fits(s));
    } else {
        lemma_sxx_pos(s);
        lemma_colinear_sums(s, alpha, beta);
        lemma_colinear_sxy(s, alpha, beta);
        let sxx = sxx_of(s);
        let sxy = sxy_of(s);
        assert(1 <= sxx <= kb * (kb * kb * kb));
        assert(0 <= n * xy <= kb * (kb * kb * kb)) by (nonlinear_arith)
            requires
                1 <= n <= kb,
                0 <= xy <= kb * kb * kb,
        ;
        assert(0 <= sx * sy <= (kb * kb) * (kb * kb)) by (nonlinear_arith)
            requires
                0 <= sx <= kb * kb,
                0 <= sy <= kb * kb,
        ;
        let big = kb * (kb * kb * kb) + (kb * kb) * (kb * kb);
        assert(kb * big <= i128::MAX && (kb * kb) * big <= i128::MAX && big + big <= i128::MAX)
            by (nonlinear_arith)
            requires
                kb == 0x100000,
                big == kb * (kb * kb * kb) + (kb * kb) * (kb * kb),
        ;
        assert(-big <= sxy <= big);
        assert(-(kb * big) <= n * sxy <= kb * big) by (nonlinear_arith)
            requires
                1 <= n <= kb,
                -big <= sxy <= big,
        ;
        assert(0 < n * sxx <= kb * big) by (nonlinear_arith)
            requires
                1 <= n <= kb,
                1 <= sxx <= big,
        ;
        assert(0 <= sy * sxx <= (kb * kb) * big) by (nonlinear_arith)
            requires
                0 <= sy <= kb * kb,
                0 <= sxx <= big,
        ;
        assert(-((kb * kb) * big) <= sxy * sx <= (kb * kb) * big) by (nonlinear_arith)
            requires
                -big <= sxy <= big,
                0 <= sx <= kb * kb,
        ;
        assert(fit_fits(s));
        let a = n * sxy;
        let b = sy * sxx - sxy * sx;
        let d = n * sxx;
        assert(b == alpha * n * sxx) by (nonlinear_arith)
            requires
                sy == alpha * n + beta * sx,
                sxy == beta * sxx,
                b == sy * sxx - sxy * sx,
                sxx == n * q - sx * sx,
        ;
        assert forall|k: int| 0 <= k < s.len() implies fit_of(s).0 * (#[trigger] s[k]).0 + fit_of(
            s,
        ).1 == fit_of(s).2 * s[k].1 by {
            let x = s[k].0 as int;
            let y = s[k].1 as int;
            assert(y == alpha + beta * x);
            assert(a * x + b == d * y) by (nonlinear_arith)
                requires
                    a == n * sxy,
                    sxy == beta * sxx,
                    b == alpha * n * sxx,
                    d == n * sxx,
                    y == alpha + beta * x,
            ;
        }
        assert forall|x: u64, y: u64|
            #![trigger resid_within((x, y), a, b, d)]
            x <= 0x100000 && y <= 0x100000 && y == alpha + beta * x implies resid_within(
            (x, y),
            a,
            b,
            d,
        ) by {
            let xi = x as int;
            let yi = y as int;
            assert(a * xi + b == d * yi) by (nonlinear_arith)
                requires
                    a == n * sxy,
                    sxy == beta * sxx,
                    b == alpha * n * sxx,
                    d == n * sxx,
                    yi == alpha + beta * xi,
            ;
            assert(-(kb * big * kb) <= a * xi <= kb * big * kb) by (nonlinear_arith)
                requires
                    -(kb * big) <= a <= kb * big,
                    0 <= xi <= kb,
            ;
            assert(0 <= d * yi <= kb * big * kb) by (nonlinear_arith)
                requires
                    0 < d <= kb * big,
                    0 <= yi <= kb,
            ;
            assert(a * xi + b - d * yi == 0);
        }
        assert forall|k: int| 0 <= k < s.len() implies resid_within(#[trigger] s[k], a, b, d) by {
            assert(s[k] == (s[k].0, s[k].1));
            assert(s[k].1 == alpha + beta * s[k].0);
            assert(resid_within((s[k].0, s[k].1), a, b, d));
        }
        assert(seg_ok(s, a, b, d));
    }
}

/// Linear-fit exactness: a greedy segmentation of a sorted dataset that an
/// exact integer line generates (within the stated magnitude bounds) yields
/// exactly one segment, and that segment's line reproduces every position
/// exactly.
pub proof fn lemma_linear_fit_exactness(
    s: Seq<(u64, u64)>,
    segs: Seq<Segment>,
    cuts: Seq<int>,
    alpha: int,
    beta: int,
)
    requires
        segs_wf(s, segs, cuts),
        colinear(s, alpha, beta),
        keys_strict(s),
        modest_line_data(s, alpha, beta),
        s.len() >= 1,
    ensures
        segs.len() == 1,
        forall|k: int| 0 <= k < s.len() ==> segs[0].slope_num * (#[trigger] s[k]).0
            + segs[0].intercept_num == segs[0].den * s[k].1,
{
    if segs.len() >= 2 {
        assert(seg_piece_ok(s, segs, cuts, 0));
        assert(seg_piece_ok(s, segs, cuts, 1));
        let hi = cuts[1];
        assert(hi < s.len());
        let t0 = s.subrange(0, hi);
        let t = s.subrange(0, hi + 1);
        let p = s[hi];
        assert(forall|i: int| 0 <= i < t.len() ==> t[i] == s[i]);
        assert(forall|i: int| 0 <= i < t0.len() ==> t0[i] == s[i]);
        assert(colinear(t, alpha, beta) && colinear(t0, alpha, beta));
        assert(keys_strict(t) && keys_strict(t0));
        assert(modest_line_data(t, alpha, beta) && modest_line_data(t0, alpha, beta));
        lemma_colinear_acceptable(t, alpha, beta);
        assert(t0.push(p) =~= t);
        if sxx_of(t0) > 0 {
            lemma_colinear_acceptable(t0, alpha, beta);
            assert(p == (p.0, p.1));
            assert(p.1 == alpha + beta * p.0);
            assert(resid_within((p.0, p.1), fit_of(t0).0, fit_of(t0).1, fit_of(t0).2));
        }
        assert(extendable(t0, p));
        assert(!extendable(t0, p));
        assert(false);
    }
    assert(seg_piece_ok(s, segs, cuts, 0));
    let t = s.subrange(cuts[0], cuts[1]);
    assert(cuts[1] == s.len());
    assert(t =~= s);
    lemma_colinear_acceptable(s, alpha, beta);
}

} // verus!
