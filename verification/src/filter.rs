use vstd::prelude::*;

use vstd::arithmetic::div_mod::{
    lemma_div_by_multiple, lemma_div_is_ordered, lemma_div_of0, lemma_div_pos_is_pos,
    lemma_fundamental_div_mod, lemma_hoist_over_denominator, lemma_mod_division_less_than_divisor,
};
use vstd::arithmetic::mul::{
    lemma_mul_inequality, lemma_mul_is_commutative, lemma_mul_is_distributive_add_other_way,
    lemma_mul_is_distributive_sub_other_way, lemma_mul_nonnegative,
};

use crate::error::Error;
use crate::fixed::{fx_views, pt_views, Fx, Point};

verus! {

/// Sum of a sequence of values.
pub open spec fn seq_sum(s: Seq<int>) -> int
    decreases s.len(),
{
    if s.len() == 0 {
        0
    } else {
        seq_sum(s.drop_last()) + s.last()
    }
}

/// Integer division rounding toward zero (for a positive divisor).
pub open spec fn div_trunc(a: int, b: int) -> int {
    if a >= 0 {
        a / b
    } else {
        -((-a) / b)
    }
}

/// Mean of `s[lo..hi]`, rounded toward zero.
pub open spec fn seg_mean(s: Seq<int>, lo: int, hi: int) -> int {
    div_trunc(seq_sum(s.subrange(lo, hi)), hi - lo)
}

/// First index of segment `j` when `n` samples are split into `k`
/// balanced contiguous segments; segment `j` covers the indices
/// `[seg_bound(n, k, j), seg_bound(n, k, j + 1))`.
pub open spec fn seg_bound(n: int, k: int, j: int) -> int {
    (j * n) / k
}

/// Abscissa of the `j`-th diagnostic coefficient: the centre of the
/// `j`-th of `k` equal subdivisions of the domain, at the library's
/// fixed-point resolution. It depends on the order and the domain
/// alone, never on the sampled values.
pub open spec fn omega(start: int, end: int, k: int, j: int) -> int {
    let w = (end - start) / k;
    start + j * w + w / 2
}

/// The denoised values of segments `0..j`, concatenated in order: every
/// sample of a segment is replaced by that segment's mean.
pub open spec fn means_upto(s: Seq<int>, k: int, j: int) -> Seq<int>
    decreases j,
{
    if j <= 0 {
        Seq::empty()
    } else {
        let lo = seg_bound(s.len() as int, k, j - 1);
        let hi = seg_bound(s.len() as int, k, j);
        means_upto(s, k, j - 1) + Seq::new((hi - lo) as nat, |q: int| seg_mean(s, lo, hi))
    }
}

/// The denoised sequence for samples `s` at order `k`.
pub open spec fn denoised_spec(s: Seq<int>, k: int) -> Seq<int> {
    means_upto(s, k, k)
}

/// The diagnostic pairs of segments `0..j`, in segment order.
pub open spec fn diag_upto(s: Seq<int>, k: int, dom: (int, int), j: int) -> Seq<(int, int)>
    decreases j,
{
    if j <= 0 {
        Seq::empty()
    } else {
        let lo = seg_bound(s.len() as int, k, j - 1);
        let hi = seg_bound(s.len() as int, k, j);
        diag_upto(s, k, dom, j - 1).push((omega(dom.0, dom.1, k, j - 1), seg_mean(s, lo, hi)))
    }
}

/// The diagnostic sequence for samples `s` at order `k` over `dom`:
/// one `(omega, delta)` pair per segment, `delta` being the fitted
/// coefficient (the segment mean).
pub open spec fn diagnostics_spec(s: Seq<int>, k: int, dom: (int, int)) -> Seq<(int, int)> {
    diag_upto(s, k, dom, k)
}

/// The whole filter as a function of its inputs: which error each
/// invalid input earns, and both output sequences for the valid ones.
pub open spec fn filter_spec(s: Seq<int>, k: int, dom: (int, int)) -> Result<
    (Seq<int>, Seq<(int, int)>),
    Error,
> {
    if s.len() == 0 {
        Err(Error::EmptyInput)
    } else if dom.1 <= dom.0 {
        Err(Error::InvalidDomain)
    } else if k > s.len() {
        Err(Error::IllConditionedOrder)
    } else {
        Ok((denoised_spec(s, k), diagnostics_spec(s, k, dom)))
    }
}

/// Balanced segment bounds run forward: each segment is non-empty and
/// stays within `[0, n]`.
pub proof fn lemma_seg_bounds(n: int, k: int, j: int)
    requires
        1 <= k <= n,
        0 <= j < k,
    ensures
        0 <= seg_bound(n, k, j),
        seg_bound(n, k, j) < seg_bound(n, k, j + 1),
        seg_bound(n, k, j + 1) <= n,
{
    lemma_mul_nonnegative(j, n);
    lemma_div_pos_is_pos(j * n, k);
    lemma_mul_is_distributive_add_other_way(n, j, 1);
    lemma_hoist_over_denominator(j * n, 1, k as nat);
    lemma_div_is_ordered(j * n + k, (j + 1) * n, k);
    lemma_mul_inequality(j + 1, k, n);
    lemma_div_is_ordered((j + 1) * n, k * n, k);
    lemma_mul_is_commutative(k, n);
    lemma_div_by_multiple(n, k);
}

/// The denoised prefix for segments `0..j` holds exactly the samples of
/// those segments: its length is the `j`-th segment bound.
pub proof fn lemma_means_upto_len(s: Seq<int>, k: int, j: int)
    requires
        1 <= k <= s.len(),
        0 <= j <= k,
    ensures
        means_upto(s, k, j).len() == seg_bound(s.len() as int, k, j),
    decreases j,
{
    let n = s.len() as int;
    if j == 0 {
        lemma_div_of0(k);
    } else {
        lemma_means_upto_len(s, k, j - 1);
        lemma_seg_bounds(n, k, j - 1);
    }
}

/// There is one diagnostic pair per segment.
pub proof fn lemma_diag_upto_len(s: Seq<int>, k: int, dom: (int, int), j: int)
    requires
        0 <= j,
    ensures
        diag_upto(s, k, dom, j).len() == j,
    decreases j,
{
    if j > 0 {
        lemma_diag_upto_len(s, k, dom, j - 1);
    }
}

/// Each diagnostic abscissa is the `omega` of its own index, whatever
/// the sampled data.
proof fn lemma_diag_abscissa(s: Seq<int>, k: int, dom: (int, int), j: int, m: int)
    requires
        0 <= j < m,
    ensures
        diag_upto(s, k, dom, m)[j].0 == omega(dom.0, dom.1, k, j),
    decreases m,
{
    lemma_diag_upto_len(s, k, dom, m - 1);
    if j < m - 1 {
        lemma_diag_abscissa(s, k, dom, j, m - 1);
    }
}

/// The diagnostic grid is a function of the order and the domain alone:
/// over two sample sequences, however different, the diagnostics have
/// the same cardinality and the same abscissas. The data only moves the
/// ordinates (the fitted coefficients).
pub proof fn lemma_diag_grid_data_independent(s1: Seq<int>, s2: Seq<int>, k: int, dom: (int, int))
    requires
        1 <= k,
    ensures
        diagnostics_spec(s1, k, dom).len() == diagnostics_spec(s2, k, dom).len(),
        forall|j: int|
            0 <= j < k ==> #[trigger] diagnostics_spec(s1, k, dom)[j].0 == diagnostics_spec(
                s2,
                k,
                dom,
            )[j].0,
{
    lemma_diag_upto_len(s1, k, dom, k);
    lemma_diag_upto_len(s2, k, dom, k);
    assert forall|j: int|
        0 <= j < k implies #[trigger] diagnostics_spec(s1, k, dom)[j].0 == diagnostics_spec(
        s2,
        k,
        dom,
    )[j].0 by {
        lemma_diag_abscissa(s1, k, dom, j, k);
        lemma_diag_abscissa(s2, k, dom, j, k);
    }
}

/// The filter never changes the length of what it denoises: on every
/// accepted input the denoised sequence is exactly as long as the
/// sample sequence.
pub proof fn lemma_filter_preserves_length(s: Seq<int>, k: int, dom: (int, int))
    requires
        filter_spec(s, k, dom) is Ok,
        k >= 1,
    ensures
        filter_spec(s, k, dom)->Ok_0.0.len() == s.len(),
{
    lemma_means_upto_len(s, k, k);
    lemma_mul_is_commutative(k, s.len() as int);
    lemma_div_by_multiple(s.len() as int, k);
}

/// The filter is deterministic: two runs over identical samples, order
/// and domain return the very same value, because each equals the one
/// model value `filter_spec` assigns to those inputs. All randomness is
/// already baked into the samples; the filter adds none.
pub proof fn lemma_filter_deterministic(
    s: Seq<int>,
    k: int,
    dom: (int, int),
    r1: Result<(Seq<int>, Seq<(int, int)>), Error>,
    r2: Result<(Seq<int>, Seq<(int, int)>), Error>,
)
    requires
        r1 == filter_spec(s, k, dom),
        r2 == filter_spec(s, k, dom),
    ensures
        r1 == r2,
{
}

/// The order parameter is not vacuous: over the same accepted samples
/// and domain, two different orders give diagnostic sequences of
/// different cardinality, one pair per degree of freedom.
pub proof fn lemma_order_shapes_diagnostics(s: Seq<int>, k1: int, k2: int, dom: (int, int))
    requires
        1 <= k1,
        1 <= k2,
        filter_spec(s, k1, dom) is Ok,
        filter_spec(s, k2, dom) is Ok,
        k1 != k2,
    ensures
        filter_spec(s, k1, dom)->Ok_0.1.len() != filter_spec(s, k2, dom)->Ok_0.1.len(),
{
    lemma_diag_upto_len(s, k1, dom, k1);
    lemma_diag_upto_len(s, k2, dom, k2);
}

/// First index of segment `j`, computed in wide arithmetic.
fn seg_bound_exec(n: usize, k: usize, j: usize) -> (r: usize)
    requires
        1 <= k <= n,
        j <= k,
    ensures
        r as int == seg_bound(n as int, k as int, j as int),
        r <= n,
{
    proof {
        let jj = j as int;
        let nn = n as int;
        let kk = k as int;
        lemma_mul_nonnegative(jj, nn);
        lemma_mul_inequality(jj, kk, nn);
        lemma_div_is_ordered(jj * nn, kk * nn, kk);
        lemma_mul_is_commutative(kk, nn);
        lemma_div_by_multiple(nn, kk);
        lemma_div_pos_is_pos(jj * nn, kk);
        lemma_mul_inequality(jj, 0xffff_ffff_ffff_ffff, nn);
        lemma_mul_inequality(nn, 0xffff_ffff_ffff_ffff, 0xffff_ffff_ffff_ffff);
        lemma_mul_is_commutative(nn, 0xffff_ffff_ffff_ffff);
    }
    (((j as u128) * (n as u128)) / (k as u128)) as usize
}

/// Quotient of `a` by a positive divisor, rounded toward zero.
fn div_trunc_exec(a: i128, b: u64) -> (r: i64)
    requires
        1 <= b,
        (i64::MIN as int) * (b as int) <= a <= (i64::MAX as int) * (b as int),
    ensures
        r as int == div_trunc(a as int, b as int),
{
    if a >= 0 {
        proof {
            lemma_div_is_ordered(a as int, (i64::MAX as int) * (b as int), b as int);
            lemma_div_by_multiple(i64::MAX as int, b as int);
            lemma_div_pos_is_pos(a as int, b as int);
        }
        ((a as u128) / (b as u128)) as i64
    } else {
        proof {
            lemma_mul_inequality(b as int, 0xffff_ffff_ffff_ffff, 0x8000_0000_0000_0000);
            lemma_mul_is_commutative(b as int, 0x8000_0000_0000_0000);
            lemma_div_is_ordered(-a as int, 0x8000_0000_0000_0000 * (b as int), b as int);
            lemma_div_by_multiple(0x8000_0000_0000_0000, b as int);
            lemma_div_pos_is_pos(-a as int, b as int);
        }
        let q: u128 = ((-a) as u128) / (b as u128);
        let r128: i128 = -(q as i128);
        r128 as i64
    }
}

/// Abscissa of the `j`-th diagnostic pair, computed in wide arithmetic;
/// it always falls inside the domain.
fn omega_exec(start: i64, end: i64, k: usize, j: usize) -> (r: i64)
    requires
        1 <= k,
        j < k,
        start < end,
    ensures
        r as int == omega(start as int, end as int, k as int, j as int),
        (start as int) <= (r as int) < (end as int),
{
    let span: u64 = (end as i128 - start as i128) as u64;
    let w: u64 = span / (k as u64);
    let half: u64 = w / 2;
    proof {
        let ss = span as int;
        let kk = k as int;
        let jj = j as int;
        let ww = w as int;
        lemma_fundamental_div_mod(ss, kk);
        lemma_mod_division_less_than_divisor(ss, kk);
        lemma_fundamental_div_mod(ww, 2);
        lemma_mod_division_less_than_divisor(ww, 2);
        lemma_mul_nonnegative(jj, ww);
        lemma_mul_inequality(jj, kk - 1, ww);
        lemma_mul_is_distributive_sub_other_way(ww, kk, 1);
        lemma_mul_inequality(jj, 0xffff_ffff_ffff_ffff, ww);
        lemma_mul_inequality(ww, 0xffff_ffff_ffff_ffff, 0xffff_ffff_ffff_ffff);
        lemma_mul_is_commutative(ww, 0xffff_ffff_ffff_ffff);
    }
    let prod: u128 = (j as u128) * (w as u128);
    let om: i128 = (start as i128) + (prod as i128) + (half as i128);
    om as i64
}

/// What the filter returns on an accepted input: the denoised sequence
/// and the diagnostic coefficients.
pub struct Filtered {
    pub denoised: Vec<Fx>,
    pub diagnostics: Vec<Point>,
}

impl View for Filtered {
    type V = (Seq<int>, Seq<(int, int)>);

    open spec fn view(&self) -> (Seq<int>, Seq<(int, int)>) {
        (fx_views(self.denoised@), pt_views(self.diagnostics@))
    }
}

/// Denoise a sample sequence with a piecewise-mean stochastic filter of
/// the given order over the given `(start, end)` domain.
///
/// The filter is a least-squares fit of a piecewise-constant model with
/// `order` degrees of freedom: the samples are split into `order`
/// balanced contiguous segments and every sample is replaced by its
/// segment's mean (the least-squares coefficient for that indicator
/// basis function), rounded toward zero at the fixed-point resolution.
/// A larger order tracks the noisy data more closely at the cost of
/// retaining more noise.
///
/// The denoised sequence has exactly the length of `samples`. The
/// diagnostics hold one `(omega, delta)` pair per segment, in segment
/// order: `omega` the centre of the segment's share of the domain
/// (a function of order and domain alone), `delta` the fitted
/// coefficient. The whole result equals `filter_spec` of the inputs:
/// the filter is deterministic and introduces no randomness.
///
/// Errors, each if and only if its guard holds, tested in this order:
/// `EmptyInput` for an empty sample sequence, `InvalidDomain` for an
/// inverted or degenerate domain, `IllConditionedOrder` when the order
/// exceeds the number of samples.
pub fn filter(samples: &Vec<Fx>, order: usize, domain: (Fx, Fx)) -> (r: Result<Filtered, Error>)
    requires
        order >= 1,
    ensures
        match r {
            Ok(f) => {
                &&& Ok::<(Seq<int>, Seq<(int, int)>), Error>(f@) == filter_spec(
                    fx_views(samples@),
                    order as int,
                    (domain.0@, domain.1@),
                )
                &&& f.denoised@.len() == samples@.len()
                &&& f.diagnostics@.len() == order
            },
            Err(e) => Err::<(Seq<int>, Seq<(int, int)>), Error>(e) == filter_spec(
                fx_views(samples@),
                order as int,
                (domain.0@, domain.1@),
            ),
        },
{
    let ghost s = fx_views(samples@);
    let ghost dom = (domain.0@, domain.1@);
    let n = samples.len();
    if n == 0 {
        return Err(Error::EmptyInput);
    }
    if domain.1.m <= domain.0.m {
        return Err(Error::InvalidDomain);
    }
    if order > n {
        return Err(Error::IllConditionedOrder);
    }
    let mut denoised: Vec<Fx> = Vec::new();
    let mut diagnostics: Vec<Point> = Vec::new();
    let mut j: usize = 0;
    let mut lo: usize = 0;
    proof {
        lemma_div_of0(order as int);
        assert(fx_views(denoised@) =~= means_upto(s, order as int, 0));
        assert(pt_views(diagnostics@) =~= diag_upto(s, order as int, dom, 0));
    }
    while j < order
        invariant
            1 <= order <= n,
            n == samples@.len(),
            s == fx_views(samples@),
            dom == (domain.0@, domain.1@),
            domain.0@ < domain.1@,
            j <= order,
            lo as int == seg_bound(n as int, order as int, j as int),
            lo <= n,
            denoised@.len() == lo,
            fx_views(denoised@) == means_upto(s, order as int, j as int),
            diagnostics@.len() == j,
            pt_views(diagnostics@) == diag_upto(s, order as int, dom, j as int),
        decreases order - j,
    {
        proof {
            lemma_seg_bounds(n as int, order as int, j as int);
        }
        let hi = seg_bound_exec(n, order, j + 1);
        let mut sum: i128 = 0;
        let mut i: usize = lo;
        while i < hi
            invariant
                lo <= i <= hi <= n,
                n == samples@.len(),
                s == fx_views(samples@),
                sum == seq_sum(s.subrange(lo as int, i as int)),
                (i64::MIN as int) * ((i - lo) as int) <= sum <= (i64::MAX as int) * ((i
                    - lo) as int),
            decreases hi - i,
        {
            let v = samples[i].m;
            proof {
                assert(s.subrange(lo as int, i + 1).drop_last() =~= s.subrange(
                    lo as int,
                    i as int,
                ));
                assert(s.subrange(lo as int, i + 1).last() == samples@[i as int]@);
            }
            sum = sum + v as i128;
            i = i + 1;
        }
        let cnt: u64 = (hi - lo) as u64;
        let mean: i64 = div_trunc_exec(sum, cnt);
        proof {
            assert(mean as int == seg_mean(s, lo as int, hi as int));
        }
        let om: i64 = omega_exec(domain.0.m, domain.1.m, order, j);
        let ghost old_diag = pt_views(diagnostics@);
        diagnostics.push(Point { x: Fx { m: om }, y: Fx { m: mean } });
        proof {
            assert(pt_views(diagnostics@) =~= old_diag.push((om as int, mean as int)));
            assert(pt_views(diagnostics@) =~= diag_upto(s, order as int, dom, j + 1));
        }
        let ghost base = fx_views(denoised@);
        let mut i2: usize = lo;
        while i2 < hi
            invariant
                lo <= i2 <= hi,
                denoised@.len() == i2,
                fx_views(denoised@) == base + Seq::new((i2 - lo) as nat, |q: int| mean as int),
                base == means_upto(s, order as int, j as int),
                base.len() == lo,
            decreases hi - i2,
        {
            let ghost before = fx_views(denoised@);
            denoised.push(Fx { m: mean });
            proof {
                assert(fx_views(denoised@) =~= before.push(mean as int));
                assert(fx_views(denoised@) =~= base + Seq::new(
                    (i2 + 1 - lo) as nat,
                    |q: int| mean as int,
                ));
            }
            i2 = i2 + 1;
        }
        proof {
            assert(fx_views(denoised@) =~= means_upto(s, order as int, j + 1));
        }
        lo = hi;
        j = j + 1;
    }
    proof {
        lemma_means_upto_len(s, order as int, order as int);
        lemma_mul_is_commutative(order as int, n as int);
        lemma_div_by_multiple(n as int, order as int);
        lemma_diag_upto_len(s, order as int, dom, order as int);
    }
    Ok(Filtered { denoised, diagnostics })
}

} // verus!
