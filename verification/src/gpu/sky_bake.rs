//! Bakes the reference sky: each job (a view direction and a sun) runs as a power-of-two number of
//! replicas, and each dispatch adds a number of samples per thread.
use crate::gpu::bytes::power_of_two;
use crate::gpu::fields::{named_sizes, offset_at, packed, pushed, shapes_of, structs, ParamView};
use crate::gpu::mesh::{is_next_power, next_power};
use crate::gpu::reflect::Param;
use vstd::prelude::*;

verus! {

/// Threads a dispatch aims for.
pub const THREADS: u32 = 32768;

/// The shader's push constants.
#[derive(Clone, Copy, Debug, PartialEq, Eq, Structural)]
pub struct Params {
    pub count: u32,
    pub jobs: u32,
    pub first: u32,
    pub samples: u32,
    pub seed: u32,
    pub steps: u32,
    pub sun_steps: u32,
    /// Global index of job 0, the key of its random stream.
    pub base: u32,
}

pub open spec fn job_fields() -> Seq<(Seq<char>, u64)> {
    seq![
        ("dir"@, 16),
        ("sun"@, 16),
    ]
}

pub open spec fn acc_fields() -> Seq<(Seq<char>, u64)> {
    seq![
        ("sum"@, 16),
        ("sum_sq"@, 16),
    ]
}

pub open spec fn param_fields() -> Seq<(Seq<char>, u64)> {
    seq![
        ("count"@, 4),
        ("jobs"@, 4),
        ("first"@, 4),
        ("samples"@, 4),
        ("seed"@, 4),
        ("steps"@, 4),
        ("sun_steps"@, 4),
        ("base"@, 4),
    ]
}

pub open spec fn layout_view() -> Seq<ParamView> {
    seq![
        ParamView::Descriptor("jobs"@, 0, packed(job_fields())),
        ParamView::Descriptor("acc"@, 1, packed(acc_fields())),
        ParamView::PushConstants("params"@, packed(param_fields())),
    ]
}

/// What the host code assumes about the bake module.
pub fn host_layout() -> (r: Vec<Param>)
    ensures
        shapes_of(r@) == layout_view(),
{
    let jobs: [(&'static str, u64); 2] = [
        ("dir", 16),
        ("sun", 16),
    ];
    let accs: [(&'static str, u64); 2] = [
        ("sum", 16),
        ("sum_sq", 16),
    ];
    let params: [(&'static str, u64); 8] = [
        ("count", 4),
        ("jobs", 4),
        ("first", 4),
        ("samples", 4),
        ("seed", 4),
        ("steps", 4),
        ("sun_steps", 4),
        ("base", 4),
    ];
    proof {
        reveal_with_fuel(offset_at, 10);
        assert(named_sizes(jobs@) =~= job_fields());
        assert(named_sizes(accs@) =~= acc_fields());
        assert(named_sizes(params@) =~= param_fields());
    }
    let r = vec![
        structs("jobs", 0, &jobs),
        structs("acc", 1, &accs),
        pushed("params", &params),
    ];
    assert(shapes_of(r@) =~= layout_view());
    r
}

/// The share of the threads that a job gets, rounded up.
pub open spec fn share(jobs: int) -> int {
    if jobs > 1 {
        (THREADS + jobs - 1) / jobs
    } else {
        THREADS as int
    }
}

/// Replicas per job for `jobs` jobs: a power of two giving at least [`THREADS`] threads.
pub fn replicas(jobs: usize) -> (r: u32)
    ensures
        is_next_power(r as int, share(jobs as int)),
        r >= 1,
        r <= THREADS,
{
    let each: u64 = if jobs > 1 {
        let n: u64 = jobs as u64;
        let whole: u64 = THREADS as u64 / n;
        proof {
            lemma_ceil(THREADS as int, n as int);
        }
        if THREADS as u64 % n == 0 {
            whole
        } else {
            whole + 1
        }
    } else {
        THREADS as u64
    };
    proof {
        lemma_share(jobs as int);
        vstd::arithmetic::power2::lemma2_to64();
    }
    let r: u64 = next_power(each);
    proof {
        assert(vstd::arithmetic::power2::pow2(15) == THREADS);
    }
    r as u32
}

proof fn lemma_ceil(a: int, n: int)
    requires
        a >= 0,
        n > 0,
    ensures
        (a + n - 1) / n == if a % n == 0 {
            a / n
        } else {
            a / n + 1
        },
{
    vstd::arithmetic::div_mod::lemma_fundamental_div_mod(a, n);
    vstd::arithmetic::div_mod::lemma_mod_bound(a, n);
    let (q, r) = (a / n, a % n);
    if r == 0 {
        assert(a + n - 1 == q * n + (n - 1)) by (nonlinear_arith)
            requires
                a == n * q + r,
                r == 0,
        ;
        vstd::arithmetic::div_mod::lemma_fundamental_div_mod_converse(a + n - 1, n, q, n - 1);
    } else {
        assert(a + n - 1 == (q + 1) * n + (r - 1)) by (nonlinear_arith)
            requires
                a == n * q + r,
        ;
        vstd::arithmetic::div_mod::lemma_fundamental_div_mod_converse(a + n - 1, n, q + 1, r - 1);
    }
}

proof fn lemma_share(jobs: int)
    requires
        jobs >= 0,
    ensures
        1 <= share(jobs) <= THREADS,
        jobs >= 1 ==> share(jobs) * jobs >= THREADS,
{
    if jobs > 1 {
        let t = THREADS as int;
        vstd::arithmetic::div_mod::lemma_fundamental_div_mod(t + jobs - 1, jobs);
        vstd::arithmetic::div_mod::lemma_mod_bound(t + jobs - 1, jobs);
        let q = share(jobs);
        let r = (t + jobs - 1) % jobs;
        assert(q * jobs >= t) by (nonlinear_arith)
            requires
                t + jobs - 1 == jobs * q + r,
                r <= jobs - 1,
        ;
        assert(q >= 1) by (nonlinear_arith)
            requires
                q * jobs >= t,
                t == 32768,
                jobs > 1,
        ;
        assert(q <= t) by (nonlinear_arith)
            requires
                t + jobs - 1 == jobs * q + r,
                r >= 0,
                jobs > 1,
                t == 32768,
        ;
    }
}

/// The replicas of all jobs fill the threads, and are a power of two.
pub proof fn law_replicas_fill_the_threads(jobs: int, r: int)
    requires
        jobs >= 1,
        is_next_power(r, share(jobs)),
    ensures
        jobs * r >= THREADS,
        power_of_two(r),
{
    lemma_share(jobs);
    let s = share(jobs);
    assert(jobs * r >= s * jobs) by (nonlinear_arith)
        requires
            r >= s,
            jobs >= 1,
    ;
}

/// Where the samples of each dispatch start.
pub open spec fn starts(samples: int, step: int) -> Seq<u32> {
    Seq::new((samples / step) as nat, |i: int| (i * step) as u32)
}

/// The push constants of every dispatch: `samples` samples per job, `per_dispatch` per thread and
/// dispatch.
pub fn dispatches(jobs: u32, base: u32, steps: u32, sun_steps: u32, seed: u32, samples: u32, per_dispatch: u32, reps: u32) -> (r: Vec<
    Params,
>)
    requires
        per_dispatch * reps <= u32::MAX,
        per_dispatch > 0,
        reps > 0,
        samples as int % (per_dispatch * reps) == 0,
        jobs * reps <= u32::MAX,
    ensures
        r@.len() == starts(samples as int, per_dispatch * reps).len(),
        forall|i: int|
            0 <= i < r@.len() ==> #[trigger] r@[i] == (Params {
                count: (jobs * reps) as u32,
                jobs,
                first: starts(samples as int, per_dispatch * reps)[i],
                samples: per_dispatch,
                seed,
                steps,
                sun_steps,
                base,
            }),
{
    let step: u32 = per_dispatch * reps;
    let count: u32 = jobs * reps;
    let ghost s = step as int;
    proof {
        assert(s >= 1) by (nonlinear_arith)
            requires
                s == per_dispatch * reps,
                per_dispatch >= 1,
                reps >= 1,
        ;
        vstd::arithmetic::div_mod::lemma_fundamental_div_mod(samples as int, s);
    }
    let n: u32 = samples / step;
    let mut out: Vec<Params> = Vec::new();
    let mut i: u32 = 0;
    while i < n
        invariant
            i <= n,
            n == samples as int / s,
            samples == s * n,
            s == step,
            s == per_dispatch * reps,
            count == jobs * reps,
            out@.len() == i,
            forall|j: int|
                0 <= j < i ==> #[trigger] out@[j] == (Params {
                    count: (jobs * reps) as u32,
                    jobs,
                    first: starts(samples as int, s)[j],
                    samples: per_dispatch,
                    seed,
                    steps,
                    sun_steps,
                    base,
                }),
        decreases n - i,
    {
        proof {
            assert(i * s <= samples) by (nonlinear_arith)
                requires
                    samples == s * n,
                    i <= n,
                    s >= 0,
            ;
        }
        out.push(Params { count, jobs, first: i * step, samples: per_dispatch, seed, steps, sun_steps, base });
        i += 1;
    }
    out
}

/// The dispatches cover every sample of a job once: each starts where the one before it ends, and
/// the last ends with the samples.
pub proof fn law_dispatches_cover_the_samples(samples: int, step: int)
    requires
        0 <= samples <= u32::MAX,
        step > 0,
        samples % step == 0,
    ensures
        starts(samples, step).len() > 0 ==> starts(samples, step)[0] == 0 && starts(samples, step).last() + step == samples,
        forall|i: int| 0 <= i < starts(samples, step).len() - 1 ==> (#[trigger] starts(samples, step)[i]) + step == starts(samples, step)[i + 1],
        starts(samples, step).len() == 0 ==> samples == 0,
{
    let n = samples / step;
    vstd::arithmetic::div_mod::lemma_fundamental_div_mod(samples, step);
    assert(n >= 0) by {
        vstd::arithmetic::div_mod::lemma_div_pos_is_pos(samples, step);
    }
    assert forall|i: int| 0 <= i < n implies 0 <= #[trigger] (i * step) && i * step + step <= samples by {
        assert(0 <= i * step && i * step + step <= samples) by (nonlinear_arith)
            requires
                samples == step * n,
                0 <= i <= n - 1,
                step > 0,
        ;
    }
    assert forall|i: int| 0 <= i < starts(samples, step).len() - 1 implies (#[trigger] starts(samples, step)[i]) + step == starts(samples, step)[i
        + 1] by {
        assert(0 <= i * step && i * step + step <= samples);
        assert(0 <= (i + 1) * step && (i + 1) * step + step <= samples);
        assert((i + 1) * step == i * step + step) by (nonlinear_arith);
    }
    if n > 0 {
        assert(0 * step == 0) by (nonlinear_arith);
        assert(0 <= (n - 1) * step && (n - 1) * step + step <= samples);
        assert((n - 1) * step + step == samples) by (nonlinear_arith)
            requires
                samples == step * n,
        ;
    } else {
        assert(samples == 0) by (nonlinear_arith)
            requires
                samples == step * n,
                n == 0,
        ;
    }
}

/// The slices from `a` up to `b` have one sample count.
pub open spec fn alike(samples: Seq<u32>, a: int, b: int) -> bool {
    forall|k: int| a <= k < b ==> #[trigger] samples[k] == samples[a]
}

/// `r` are the longest runs of slices with one sample count: they follow one another from the first
/// slice up to slice `n`, and neighbours differ.
pub open spec fn equal_runs(samples: Seq<u32>, r: Seq<(usize, usize)>, n: int) -> bool {
    &&& r.len() == 0 ==> n == 0
    &&& r.len() > 0 ==> r[0].0 == 0 && r.last().1 == n
    &&& forall|i: int| 0 <= i < r.len() ==> (#[trigger] r[i]).0 < r[i].1 <= n && alike(samples, r[i].0 as int, r[i].1 as int)
    &&& forall|i: int| 0 <= i < r.len() - 1 ==> (#[trigger] r[i]).1 == r[i + 1].0 && samples[r[i].0 as int] != samples[r[i + 1].0 as int]
}

/// The slices that are baked together: runs with the same sample count, from and up to.
pub fn runs(samples: &[u32]) -> (r: Vec<(usize, usize)>)
    ensures
        equal_runs(samples@, r@, samples@.len() as int),
{
    let n: usize = samples.len();
    let mut out: Vec<(usize, usize)> = Vec::new();
    let mut k: usize = 0;
    while k < n
        invariant
            n == samples@.len(),
            k <= n,
            equal_runs(samples@, out@, k as int),
            out@.len() > 0 && k < n ==> samples@[out@.last().0 as int] != samples@[k as int],
        decreases n - k,
    {
        let mut end: usize = k + 1;
        while end < n && samples[end] == samples[k]
            invariant
                n == samples@.len(),
                k < end <= n,
                alike(samples@, k as int, end as int),
            decreases n - end,
        {
            end += 1;
        }
        let ghost before = out@;
        out.push((k, end));
        proof {
            assert(out@.last() == (k, end));
            assert forall|i: int| 0 <= i < out@.len() - 1 implies (#[trigger] out@[i]).1 == out@[i + 1].0 && samples@[out@[i].0 as int]
                != samples@[out@[i + 1].0 as int] by {
                if i < before.len() - 1 {
                    assert(before[i].1 == before[i + 1].0);
                } else {
                    assert(out@[i] == before.last());
                }
            }
        }
        k = end;
    }
    out
}

/// Every slice is baked once: it lies in exactly one run.
pub proof fn law_every_slice_is_in_one_run(samples: Seq<u32>, r: Seq<(usize, usize)>, n: int, k: int)
    requires
        equal_runs(samples, r, n),
        0 <= k < n,
    ensures
        exists|i: int| 0 <= i < r.len() && (#[trigger] r[i]).0 <= k < r[i].1,
        forall|i: int, j: int| 0 <= i < r.len() && 0 <= j < r.len() && (#[trigger] r[i]).0 <= k < r[i].1 && (#[trigger] r[j]).0 <= k < r[j].1 ==> i == j,
{
    lemma_run_of(samples, r, n, k, r.len() as int);
    assert forall|i: int, j: int| 0 <= i < j < r.len() implies (#[trigger] r[i]).1 <= (#[trigger] r[j]).0 by {
        lemma_runs_in_order(samples, r, n, i, j);
    }
}

proof fn lemma_run_of(samples: Seq<u32>, r: Seq<(usize, usize)>, n: int, k: int, m: int)
    requires
        equal_runs(samples, r, n),
        0 < m <= r.len(),
        0 <= k < r[m - 1].1,
    ensures
        exists|i: int| 0 <= i < m && (#[trigger] r[i]).0 <= k < r[i].1,
    decreases m,
{
    if r[m - 1].0 > k {
        assert(m > 1);
        assert(r[m - 2].1 == r[m - 1].0);
        lemma_run_of(samples, r, n, k, m - 1);
    }
}

proof fn lemma_runs_in_order(samples: Seq<u32>, r: Seq<(usize, usize)>, n: int, i: int, j: int)
    requires
        equal_runs(samples, r, n),
        0 <= i < j < r.len(),
    ensures
        r[i].1 <= r[j].0,
    decreases j - i,
{
    assert(r[j - 1].1 == r[j].0);
    if i < j - 1 {
        lemma_runs_in_order(samples, r, n, i, j - 1);
    }
}

/// The share of a job is the least that gives every thread work.
pub proof fn law_shares_are_the_least_that_fill_the_threads(jobs: int, s: int)
    requires
        jobs >= 1,
        s >= 0,
        jobs * s >= 32768,
    ensures
        jobs * share(jobs) >= 32768,
        share(jobs) <= s,
{
    let x = share(jobs);
    if jobs > 1 {
        vstd::arithmetic::div_mod::lemma_fundamental_div_mod(32768 + jobs - 1, jobs);
        vstd::arithmetic::div_mod::lemma_mod_pos_bound(32768 + jobs - 1, jobs);
        if x > s {
            assert(jobs * s <= jobs * (x - 1)) by (nonlinear_arith)
                requires
                    s <= x - 1,
                    jobs >= 1,
            ;
            assert(jobs * (x - 1) == jobs * x - jobs) by (nonlinear_arith);
        }
    }
}

/// Two neighbouring slices are baked together exactly when they have the same sample count.
pub proof fn law_neighbours_with_one_count_are_baked_together(samples: Seq<u32>, r: Seq<(usize, usize)>, n: int, k: int, i: int)
    requires
        equal_runs(samples, r, n),
        0 <= k,
        k + 1 < n,
        0 <= i < r.len(),
        r[i].0 <= k < r[i].1,
    ensures
        samples[k] == samples[k + 1] <==> k + 1 < r[i].1,
{
    assert(samples[k] == samples[r[i].0 as int]);
    if k + 1 < r[i].1 {
        assert(samples[k + 1] == samples[r[i].0 as int]);
    } else {
        if i == r.len() - 1 {
            assert(r.last().1 == n);
        }
        assert(r[i].1 == r[i + 1].0);
        assert(samples[r[i].0 as int] != samples[r[i + 1].0 as int]);
    }
}

/// The shader's bindings, by name, have the numbers of their places, and the push constants come last.
pub proof fn law_bindings_are_numbered_in_order(i: int)
    requires
        0 <= i < 2,
    ensures
        layout_view().len() == 3,
        layout_view()[i] is Descriptor && layout_view()[i]->Descriptor_1 == i,
        layout_view()[i]->Descriptor_0 == seq!["jobs"@, "acc"@][i],
        layout_view()[2] is PushConstants && layout_view()[2]->PushConstants_0 == "params"@,
{
}

/// The push constants are one word each, in the shader's order.
pub proof fn law_params_are_words_in_order()
    ensures
        packed(param_fields()).len() == 8,
        packed(param_fields())[0] == ("count"@, 0u64, 4u64),
        packed(param_fields())[1] == ("jobs"@, 4u64, 4u64),
        packed(param_fields())[2] == ("first"@, 8u64, 4u64),
        packed(param_fields())[3] == ("samples"@, 12u64, 4u64),
        packed(param_fields())[4] == ("seed"@, 16u64, 4u64),
        packed(param_fields())[5] == ("steps"@, 20u64, 4u64),
        packed(param_fields())[6] == ("sun_steps"@, 24u64, 4u64),
        packed(param_fields())[7] == ("base"@, 28u64, 4u64),
{
    reveal_with_fuel(offset_at, 10);
}

} // verus!
