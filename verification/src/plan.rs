//! Which native output files feed each requested step.
use crate::order;
use crate::steps;
use crate::text;
use vstd::prelude::*;
use vstd::string::*;

verus! {

/// One native file and the length of the native interval it covers (minutes).
#[derive(Debug, Clone, Copy, PartialEq)]
pub struct SourceStep {
    pub step: i64,
    pub duration: i64,
}

/// One output time step and the native files that feed it.
#[derive(Debug, PartialEq)]
pub struct OutputStep {
    pub step: i64,
    /// Interval (minutes since init) covered by interval variables.
    pub interval: (i64, i64),
    /// Native files to read, ascending; the last one is `step` itself.
    pub sources: Vec<SourceStep>,
}

#[derive(Debug, Default, PartialEq)]
pub struct StepPlan {
    pub outputs: Vec<OutputStep>,
    /// True when, without accumulation, native output times fall between requested steps.
    pub subsampled: bool,
    /// The steps of all native files that are read, ascending and each once.
    pub unique: Vec<i64>,
}

/// The largest of the times before `x`.
pub open spec fn latest_before(av: Seq<i64>, x: int) -> Option<int>
    decreases av.len(),
{
    if av.len() == 0 {
        None
    } else {
        let rest = latest_before(av.drop_last(), x);
        let a = av.last() as int;
        if a < x && (rest matches Some(b) ==> b <= a) {
            Some(a)
        } else {
            rest
        }
    }
}

/// The native output time before `x`: init where there is none, but never behind `x`.
pub open spec fn prev_native(available: Option<Seq<i64>>, x: int) -> int {
    match available {
        Some(av) => match latest_before(av, x) {
            Some(a) => a,
            None => order::min(0, x),
        },
        None => order::min(0, x),
    }
}

/// The native files in `(start, end]`, each with the length of the part of
/// `(start, end]` that lies behind the native output time before it.
pub open spec fn sources_between(av: Seq<i64>, start: int, end: int) -> Seq<(int, int)> {
    sources_among(av, av, start, end)
}

/// Those of the files `some` of `av` that lie in `(start, end]`.
pub open spec fn sources_among(some: Seq<i64>, av: Seq<i64>, start: int, end: int) -> Seq<(int, int)>
    decreases some.len(),
{
    if some.len() == 0 {
        Seq::empty()
    } else {
        let rest = sources_among(some.drop_last(), av, start, end);
        let a = some.last() as int;
        if start < a <= end {
            rest.push((a, a - order::max(prev_native(Some(av), a), start)))
        } else {
            rest
        }
    }
}

/// Where the interval of the output step `i` starts.
pub open spec fn interval_start(
    steps: Seq<i64>,
    available: Option<Seq<i64>>,
    accumulate: bool,
    i: int,
) -> int {
    let s = steps[i] as int;
    if available is None {
        s
    } else if accumulate {
        if i == 0 {
            order::min(0, s)
        } else {
            steps[i - 1] as int
        }
    } else {
        prev_native(available, s)
    }
}

/// The native files of the output step `i` with their durations.
pub open spec fn planned_sources(
    steps: Seq<i64>,
    available: Option<Seq<i64>>,
    accumulate: bool,
    i: int,
) -> Seq<(int, int)> {
    let s = steps[i] as int;
    let own = seq![(s, s - prev_native(available, s))];
    match available {
        Some(av) => if accumulate {
            let src = sources_between(av, interval_start(steps, available, accumulate, i), s);
            if src.len() == 0 {
                own
            } else {
                src
            }
        } else {
            own
        },
        None => seq![(s, 0)],
    }
}

/// A native output time falls between the steps `i - 1` and `i`, and is not read.
pub open spec fn skips_native(steps: Seq<i64>, available: Option<Seq<i64>>, i: int) -> bool {
    0 < i < steps.len() && available is Some && prev_native(available, steps[i] as int) > steps[i
        - 1]
}

/// Files as pairs of step and duration.
pub open spec fn pairs(v: Seq<SourceStep>) -> Seq<(int, int)> {
    Seq::new(v.len(), |i: int| (v[i].step as int, v[i].duration as int))
}

/// Some output reads the native file of the step `x`.
pub open spec fn reads(outputs: Seq<OutputStep>, x: int) -> bool {
    exists|i: int, j: int|
        0 <= i < outputs.len() && 0 <= j < outputs[i].sources@.len() && #[trigger]
        outputs[i].sources@[j].step == x
}

/// Every duration of the plan can be held.
pub open spec fn durations_fit(
    steps: Seq<i64>,
    available: Option<Seq<i64>>,
    accumulate: bool,
) -> bool {
    forall|i: int, j: int|
        0 <= i < steps.len() && 0 <= j < planned_sources(steps, available, accumulate, i).len()
            ==> (#[trigger] planned_sources(steps, available, accumulate, i)[j]).1 <= i64::MAX
}

pub open spec fn slice_view(available: Option<&[i64]>) -> Option<Seq<i64>> {
    match available {
        Some(av) => Some(av@),
        None => None,
    }
}

impl StepPlan {
    /// This is the plan for the given steps.
    pub open spec fn is_plan(
        self,
        steps: Seq<i64>,
        available: Option<Seq<i64>>,
        accumulate: bool,
    ) -> bool {
        &&& self.outputs@.len() == steps.len()
        &&& forall|i: int|
            #![trigger self.outputs@[i]]
            0 <= i < steps.len() ==> {
                let out = self.outputs@[i];
                &&& out.step == steps[i]
                &&& out.interval.0 == interval_start(steps, available, accumulate, i)
                &&& out.interval.1 == steps[i]
                &&& pairs(out.sources@) == planned_sources(steps, available, accumulate, i)
            }
        &&& self.subsampled <==> !accumulate && exists|i: int|
            #[trigger] skips_native(steps, available, i)
        &&& order::ascending(self.unique@)
        &&& forall|x: i64| #[trigger]
            self.unique@.contains(x) <==> reads(self.outputs@, x as int)
    }

    /// The steps of all native files that are read, ascending and each once.
    pub fn unique_steps(&self) -> (r: &[i64])
        ensures
            r@ == self.unique@,
    {
        self.unique.as_slice()
    }

    /// The interval of each output step.
    pub fn intervals(&self) -> (r: Vec<(i64, i64)>)
        ensures
            r@ == self.outputs@.map_values(|o: OutputStep| o.interval),
    {
        let mut out: Vec<(i64, i64)> = Vec::new();
        let mut i: usize = 0;
        while i < self.outputs.len()
            invariant
                i <= self.outputs.len(),
                out@.len() == i,
                forall|k: int| 0 <= k < i ==> out@[k] == self.outputs@[k].interval,
            decreases self.outputs.len() - i,
        {
            out.push(self.outputs[i].interval);
            i += 1;
        }
        out
    }
}

fn native_before(av: &[i64], x: i64) -> (r: Option<i64>)
    ensures
        match r {
            Some(a) => latest_before(av@, x as int) == Some(a as int) && a < x,
            None => latest_before(av@, x as int) is None,
        },
{
    let mut best: Option<i64> = None;
    let mut i: usize = 0;
    assert(av@.take(0) == Seq::<i64>::empty());
    while i < av.len()
        invariant
            i <= av.len(),
            match best {
                Some(a) => latest_before(av@.take(i as int), x as int) == Some(a as int) && a < x,
                None => latest_before(av@.take(i as int), x as int) is None,
            },
        decreases av.len() - i,
    {
        assert(av@.take(i + 1).drop_last() == av@.take(i as int));
        let a: i64 = av[i];
        if a < x {
            match best {
                Some(b) => {
                    if b <= a {
                        best = Some(a);
                    }
                },
                None => {
                    best = Some(a);
                },
            }
        }
        i += 1;
    }
    assert(av@.take(i as int) == av@);
    best
}

fn previous_native(available: Option<&[i64]>, x: i64) -> (r: i64)
    ensures
        r == prev_native(slice_view(available), x as int),
        r <= x,
{
    let init: i64 = if 0 <= x {
        0
    } else {
        x
    };
    match available {
        Some(av) => match native_before(av, x) {
            Some(a) => a,
            None => init,
        },
        None => init,
    }
}

/// The native files in `(start, end]`.
fn collect_sources(av: &[i64], start: i64, end: i64) -> (r: Vec<SourceStep>)
    requires
        forall|j: int|
            0 <= j < sources_between(av@, start as int, end as int).len() ==> (
            #[trigger] sources_between(av@, start as int, end as int)[j]).1 <= i64::MAX,
    ensures
        pairs(r@) == sources_between(av@, start as int, end as int),
{
    let ghost all = sources_between(av@, start as int, end as int);
    let mut out: Vec<SourceStep> = Vec::new();
    let mut i: usize = 0;
    assert(av@.take(0) == Seq::<i64>::empty());
    assert(pairs(out@) == Seq::<(int, int)>::empty());
    while i < av.len()
        invariant
            i <= av.len(),
            all == sources_between(av@, start as int, end as int),
            forall|j: int| 0 <= j < all.len() ==> (#[trigger] all[j]).1 <= i64::MAX,
            pairs(out@) == sources_among(av@.take(i as int), av@, start as int, end as int),
        decreases av.len() - i,
    {
        let ghost before = out@;
        assert(av@.take(i + 1).drop_last() == av@.take(i as int));
        let a: i64 = av[i];
        if start < a && a <= end {
            let p: i64 = previous_native(Some(av), a);
            let from: i64 = if p >= start {
                p
            } else {
                start
            };
            proof {
                let next = sources_among(av@.take(i + 1), av@, start as int, end as int);
                lemma_sources_prefix(av@, i + 1, start as int, end as int);
                assert(next.last() == all[next.len() - 1]);
            }
            out.push(SourceStep { step: a, duration: a - from });
            assert(pairs(out@) == pairs(before).push((a as int, a - from)));
        }
        i += 1;
    }
    assert(av@.take(i as int) == av@);
    out
}

/// The files among the first `n` come first.
proof fn lemma_sources_prefix(av: Seq<i64>, n: int, start: int, end: int)
    requires
        0 <= n <= av.len(),
    ensures
        sources_among(av.take(n), av, start, end).len() <= sources_between(av, start, end).len(),
        forall|j: int|
            0 <= j < sources_among(av.take(n), av, start, end).len() ==> sources_among(
                av.take(n),
                av,
                start,
                end,
            )[j] == sources_between(av, start, end)[j],
    decreases av.len() - n,
{
    if n == av.len() {
        assert(av.take(n) == av);
    } else {
        assert(av.take(n + 1).drop_last() == av.take(n));
        lemma_sources_prefix(av, n + 1, start, end);
    }
}

/// The plan of one output step.
fn plan_step(steps: &[i64], available: Option<&[i64]>, accumulate: bool, i: usize) -> (r: OutputStep)
    requires
        i < steps.len(),
        durations_fit(steps@, slice_view(available), accumulate),
    ensures
        r.step == steps@[i as int],
        r.interval.0 == interval_start(steps@, slice_view(available), accumulate, i as int),
        r.interval.1 == steps@[i as int],
        pairs(r.sources@) == planned_sources(steps@, slice_view(available), accumulate, i as int),
{
    let ghost want = planned_sources(steps@, slice_view(available), accumulate, i as int);
    let s: i64 = steps[i];
    let native_start: i64 = previous_native(available, s);
    let mut start: i64 = native_start;
    let mut sources: Vec<SourceStep> = Vec::new();
    match available {
        Some(av) => {
            if accumulate {
                start = if i > 0 {
                    steps[i - 1]
                } else if s < 0 {
                    s
                } else {
                    0
                };
                proof {
                    let src = sources_between(av@, start as int, s as int);
                    assert forall|j: int| 0 <= j < src.len() implies (#[trigger] src[j]).1
                        <= i64::MAX by {
                        assert(want[j].1 <= i64::MAX);
                    }
                }
                sources = collect_sources(av, start, s);
                assert(pairs(sources@).len() == sources@.len());
            }
            if sources.len() == 0 {
                assert(want[0].1 <= i64::MAX);
                sources.push(SourceStep { step: s, duration: s - native_start });
            }
        },
        None => {
            start = s;
            sources.push(SourceStep { step: s, duration: 0 });
        },
    }
    assert(pairs(sources@) == want);
    OutputStep { step: s, interval: (start, s), sources }
}

/// The steps of all files that the outputs read, one behind the other.
fn all_source_steps(outputs: &Vec<OutputStep>) -> (r: Vec<i64>)
    ensures
        forall|x: i64| #[trigger] r@.contains(x) <==> reads(outputs@, x as int),
{
    let mut all: Vec<i64> = Vec::new();
    let mut i: usize = 0;
    while i < outputs.len()
        invariant
            i <= outputs.len(),
            forall|x: i64| #[trigger]
                all@.contains(x) <==> exists|a: int, b: int|
                    0 <= a < i && 0 <= b < outputs@[a].sources@.len() && #[trigger]
                    outputs@[a].sources@[b].step == x,
        decreases outputs.len() - i,
    {
        let ghost before = all@;
        let mut j: usize = 0;
        while j < outputs[i].sources.len()
            invariant
                i < outputs.len(),
                j <= outputs@[i as int].sources@.len(),
                forall|x: i64| #[trigger]
                    all@.contains(x) <==> (before.contains(x) || exists|b: int|
                        0 <= b < j && #[trigger] outputs@[i as int].sources@[b].step == x),
            decreases outputs@[i as int].sources@.len() - j,
        {
            let ghost was = all@;
            let x: i64 = outputs[i].sources[j].step;
            all.push(x);
            proof {
                assert forall|y: i64| #[trigger] all@.contains(y) <==> (was.contains(y) || y == x) by {
                    if was.contains(y) {
                        let k = choose|k: int| 0 <= k < was.len() && was[k] == y;
                        assert(all@[k] == y);
                    }
                    assert(all@[was.len() as int] == x);
                    if all@.contains(y) && y != x {
                        let k = choose|k: int| 0 <= k < all@.len() && all@[k] == y;
                        assert(was[k] == y);
                    }
                }
                assert(outputs@[i as int].sources@[j as int].step == x);
            }
            j += 1;
        }
        i += 1;
    }
    all
}

/// Decide which native files feed each requested step.
///
/// * Without `accumulate`, each step reads its own file; its interval is
///   `(previous native time, step]`.
/// * With `accumulate`, every native file in `(previous requested step, step]`
///   is read (from init for the first step) so interval variables can be
///   combined across the gap.
///
/// `available` is the run's native output times; `None` when unknown.
pub fn plan_steps(steps: &[i64], available: Option<&[i64]>, accumulate: bool) -> (r: StepPlan)
    requires
        durations_fit(steps@, slice_view(available), accumulate),
    ensures
        r.is_plan(steps@, slice_view(available), accumulate),
{
    let ghost av = slice_view(available);
    let mut outputs: Vec<OutputStep> = Vec::new();
    let mut subsampled = false;
    let mut i: usize = 0;
    while i < steps.len()
        invariant
            i <= steps.len(),
            av == slice_view(available),
            durations_fit(steps@, av, accumulate),
            outputs@.len() == i,
            forall|k: int|
                #![trigger outputs@[k]]
                0 <= k < i ==> {
                    let out = outputs@[k];
                    &&& out.step == steps@[k]
                    &&& out.interval.0 == interval_start(steps@, av, accumulate, k)
                    &&& out.interval.1 == steps@[k]
                    &&& pairs(out.sources@) == planned_sources(steps@, av, accumulate, k)
                },
            subsampled <==> !accumulate && exists|k: int|
                k < i && #[trigger] skips_native(steps@, av, k),
        decreases steps.len() - i,
    {
        let out = plan_step(steps, available, accumulate, i);
        if available.is_some() && !accumulate && i > 0 && out.interval.0 > steps[i - 1] {
            assert(skips_native(steps@, av, i as int));
            subsampled = true;
        }
        outputs.push(out);
        i += 1;
    }
    let all = all_source_steps(&outputs);
    let unique = order::sort_dedup(all.as_slice());
    let plan = StepPlan { outputs, subsampled, unique };
    proof {
        assert forall|x: i64| #[trigger] plan.unique@.contains(x) <==> reads(
            plan.outputs@,
            x as int,
        ) by {
            order::lemma_values_contains(unique@, x);
            order::lemma_values_contains(all@, x);
        }
        if plan.subsampled {
            let k = choose|k: int| k < i && #[trigger] skips_native(steps@, av, k);
            assert(skips_native(steps@, av, k));
        }
        if !accumulate && (exists|k: int| #[trigger] skips_native(steps@, av, k)) {
            let k = choose|k: int| #[trigger] skips_native(steps@, av, k);
            assert(k < i);
        }
    }
    plan
}

/// The native cadence as runs of equal spacing: for each run the spacing and
/// the last step.
pub open spec fn cadence_runs(av: Seq<i64>) -> Seq<(int, int)>
    decreases av.len(),
{
    if av.len() < 2 {
        Seq::empty()
    } else {
        let before = cadence_runs(av.drop_last());
        let spacing = av.last() - av[av.len() - 2];
        let last = av.last() as int;
        if before.len() > 0 && before.last().0 == spacing {
            before.drop_last().push((spacing, last))
        } else {
            before.push((spacing, last))
        }
    }
}

/// One run in words: "1 h to +90 h".
pub open spec fn run_text(run: (int, int)) -> Seq<char> {
    steps::hours_text(run.0) + " h to +"@ + steps::hours_text(run.1) + " h"@
}

/// The native cadence in words: "1 h to +90 h, 3 h to +144 h".
pub open spec fn cadence_text(av: Seq<i64>) -> Seq<char> {
    text::join(cadence_runs(av).map_values(|r: (int, int)| run_text(r)), ", "@)
}

pub open spec fn comment_text(available: Option<Seq<i64>>, accumulate: bool) -> Seq<char> {
    match available {
        None => "Value covers the interval since the previous model output time; the native output interval of this run is unknown."@,
        Some(av) => if accumulate {
            "Combined by om2nc --accumulate from the model's native output files so that each value covers the interval between consecutive output steps (time_bnds). Native output interval of this run: "@
                + cadence_text(av) + "."@
        } else {
            "Value covers only the interval since the previous native model output time (time_bnds), not since the previous step in this file. Native output interval of this run: "@
                + cadence_text(av) + "."@
        },
    }
}

/// The spacings of neighbouring times can be held.
pub open spec fn spacings_fit(av: Seq<i64>) -> bool {
    forall|i: int, j: int|
        #![trigger av[i], av[j]]
        0 <= i && j == i + 1 && j < av.len() ==> i64::MIN <= av[j] - av[i] <= i64::MAX
}

fn runs_of(av: &[i64]) -> (r: Vec<(i64, i64)>)
    requires
        spacings_fit(av@),
    ensures
        r@.map_values(|p: (i64, i64)| (p.0 as int, p.1 as int)) == cadence_runs(av@),
{
    let mut runs: Vec<(i64, i64)> = Vec::new();
    let ghost f = |p: (i64, i64)| (p.0 as int, p.1 as int);
    if av.len() == 0 {
        assert(runs@.map_values(f) == cadence_runs(av@));
        return runs;
    }
    let mut i: usize = 1;
    assert(runs@.map_values(f) == cadence_runs(av@.take(1)));
    while i < av.len()
        invariant
            1 <= i <= av.len(),
            spacings_fit(av@),
            f == (|p: (i64, i64)| (p.0 as int, p.1 as int)),
            runs@.map_values(f) == cadence_runs(av@.take(i as int)),
        decreases av.len() - i,
    {
        let ghost before = runs@;
        let ghost now = av@.take(i + 1);
        assert(now.drop_last() == av@.take(i as int));
        assert(now[now.len() - 2] == av@[i - 1]);
        let last: i64 = av[i];
        let spacing: i64 = last - av[i - 1];
        let n: usize = runs.len();
        if n > 0 && runs[n - 1].0 == spacing {
            runs.set(n - 1, (spacing, last));
            assert(runs@.map_values(f) == before.map_values(f).drop_last().push(
                (spacing as int, last as int),
            ));
        } else {
            runs.push((spacing, last));
            assert(runs@.map_values(f) == before.map_values(f).push((spacing as int, last as int)));
        }
        assert(before.map_values(f).len() == n);
        i += 1;
    }
    assert(av@.take(i as int) == av@);
    runs
}

fn cadence(av: &[i64]) -> (r: String)
    requires
        spacings_fit(av@),
    ensures
        r@ == cadence_text(av@),
{
    let runs = runs_of(av);
    let ghost want = cadence_runs(av@).map_values(|r: (int, int)| run_text(r));
    let mut parts: Vec<String> = Vec::new();
    let mut i: usize = 0;
    while i < runs.len()
        invariant
            i <= runs.len(),
            runs@.map_values(|p: (i64, i64)| (p.0 as int, p.1 as int)) == cadence_runs(av@),
            want == cadence_runs(av@).map_values(|r: (int, int)| run_text(r)),
            parts@.len() == i,
            forall|k: int| 0 <= k < i ==> (#[trigger] parts@[k])@ == want[k],
        decreases runs.len() - i,
    {
        let (spacing, last) = runs[i];
        let mut s = steps::minutes_to_hours_string(spacing);
        s.append(" h to +");
        s.append(steps::minutes_to_hours_string(last).as_str());
        s.append(" h");
        assert(cadence_runs(av@)[i as int] == (spacing as int, last as int));
        parts.push(s);
        i += 1;
    }
    assert(runs@.map_values(|p: (i64, i64)| (p.0 as int, p.1 as int)).len() == runs@.len());
    assert(text::texts(parts@) == want);
    text::join_texts(parts.as_slice(), ", ")
}

/// Text for the `comment` attribute of interval variables.
pub fn interval_comment(available: Option<&[i64]>, accumulate: bool) -> (r: String)
    requires
        available matches Some(av) ==> spacings_fit(av@),
    ensures
        r@ == comment_text(slice_view(available), accumulate),
{
    let mut out;
    match available {
        None => {
            out = "Value covers the interval since the previous model output time; the native output interval of this run is unknown.".to_owned();
        },
        Some(av) => {
            if accumulate {
                out = "Combined by om2nc --accumulate from the model's native output files so that each value covers the interval between consecutive output steps (time_bnds). Native output interval of this run: ".to_owned();
            } else {
                out = "Value covers only the interval since the previous native model output time (time_bnds), not since the previous step in this file. Native output interval of this run: ".to_owned();
            }
            out.append(cadence(av).as_str());
            out.append(".");
        },
    }
    out
}

/// The latest time before `x` is one of the times, lies before `x`, and no
/// other of them lies between the two.
pub proof fn lemma_latest_before(av: Seq<i64>, x: int)
    ensures
        match latest_before(av, x) {
            Some(a) => {
                &&& a < x
                &&& exists|k: int| 0 <= k < av.len() && av[k] == a
                &&& forall|k: int| 0 <= k < av.len() && av[k] < x ==> av[k] <= a
            },
            None => forall|k: int| 0 <= k < av.len() ==> av[k] >= x,
        },
    decreases av.len(),
{
    if av.len() > 0 {
        let rest = av.drop_last();
        lemma_latest_before(rest, x);
        assert(av == rest.push(av.last()));
        if let Some(a) = latest_before(av, x) {
            if a == av.last() {
                assert(av[av.len() - 1] == a);
            } else {
                let k = choose|k: int| 0 <= k < rest.len() && rest[k] == a;
                assert(av[k] == a);
            }
            assert forall|k: int| 0 <= k < av.len() && av[k] < x implies av[k] <= a by {
                if k < rest.len() {
                    assert(rest[k] == av[k]);
                }
            }
        } else {
            assert forall|k: int| 0 <= k < av.len() implies av[k] >= x by {
                if k < rest.len() {
                    assert(rest[k] == av[k]);
                }
            }
        }
    }
}

/// In an ascending list the native output time before an entry is the entry before it.
proof fn lemma_prev_in_ascending(av: Seq<i64>, k: int)
    requires
        order::ascending(av),
        0 <= k < av.len(),
    ensures
        prev_native(Some(av), av[k] as int) == if k > 0 {
            av[k - 1] as int
        } else {
            order::min(0, av[0] as int)
        },
{
    let x = av[k] as int;
    lemma_latest_before(av, x);
    if k > 0 {
        assert(av[k - 1] < x);
        let a = latest_before(av, x)->0;
        let m = choose|m: int| 0 <= m < av.len() && av[m] == a;
        assert(m <= k - 1);
    }
}

/// The sum of the durations.
pub open spec fn total_duration(src: Seq<(int, int)>) -> int
    decreases src.len(),
{
    if src.len() == 0 {
        0
    } else {
        total_duration(src.drop_last()) + src.last().1
    }
}

/// The pieces `(step - duration, step]` of the files lie one behind the other,
/// from `start` on, and none is empty.
pub open spec fn tiles(src: Seq<(int, int)>, start: int) -> bool {
    forall|j: int|
        #![trigger src[j]]
        0 <= j < src.len() ==> src[j].1 > 0 && src[j].0 - src[j].1 == (if j == 0 {
            start
        } else {
            src[j - 1].0
        })
}

proof fn lemma_total_of_tiles(src: Seq<(int, int)>, start: int)
    requires
        tiles(src, start),
    ensures
        total_duration(src) == (if src.len() == 0 {
            0
        } else {
            src.last().0 - start
        }),
    decreases src.len(),
{
    if src.len() > 0 {
        let rest = src.drop_last();
        assert forall|j: int| #![trigger rest[j]] 0 <= j < rest.len() implies rest[j].1 > 0
            && rest[j].0 - rest[j].1 == (if j == 0 {
            start
        } else {
            rest[j - 1].0
        }) by {
            assert(rest[j] == src[j]);
        }
        lemma_total_of_tiles(rest, start);
        assert(src[src.len() - 1] == src.last());
    }
}

/// Some native time lies at or before `start`, or `start` is not before init.
pub open spec fn starts_in_run(av: Seq<i64>, start: int) -> bool {
    start >= 0 || exists|k: int| 0 <= k < av.len() && #[trigger] av[k] <= start
}

#[verifier::spinoff_prover]
#[verifier::rlimit(60)]
proof fn lemma_sources_tile(av: Seq<i64>, n: int, start: int, end: int)
    requires
        order::ascending(av),
        0 <= n <= av.len(),
        starts_in_run(av, start),
    ensures
        tiles(sources_among(av.take(n), av, start, end), start),
        ({
            let src = sources_among(av.take(n), av, start, end);
            if src.len() == 0 {
                forall|k: int| 0 <= k < n ==> !(start < #[trigger] av[k] <= end)
            } else {
                &&& start < src.last().0 <= end
                &&& exists|k: int| 0 <= k < n && av[k] == src.last().0
                &&& forall|k: int|
                    0 <= k < n && start < #[trigger] av[k] <= end ==> av[k] <= src.last().0
            }
        }),
    decreases n,
{
    if n > 0 {
        let was = sources_among(av.take(n - 1), av, start, end);
        let src = sources_among(av.take(n), av, start, end);
        lemma_sources_tile(av, n - 1, start, end);
        assert(av.take(n).drop_last() == av.take(n - 1));
        let a = av[n - 1] as int;
        if start < a <= end {
            lemma_prev_in_ascending(av, n - 1);
            assert(src == was.push((a, a - order::max(prev_native(Some(av), a), start))));
            if was.len() > 0 {
                let m = choose|m: int| 0 <= m < n - 1 && av[m] == was.last().0;
                assert(av[n - 2] >= av[m]);
                assert(start < av[n - 2] <= end);
                assert(av[n - 2] == was.last().0);
            } else if n > 1 {
                assert(!(start < av[n - 2] <= end));
                assert(av[n - 2] < a);
            } else if start < 0 {
                let m = choose|m: int| 0 <= m < av.len() && #[trigger] av[m] <= start;
                assert(av[0] <= av[m]);
            }
            assert(tiles(src, start)) by {
                assert forall|j: int| #![trigger src[j]] 0 <= j < src.len() implies src[j].1 > 0
                    && src[j].0 - src[j].1 == (if j == 0 {
                    start
                } else {
                    src[j - 1].0
                }) by {
                    if j < was.len() {
                        assert(src[j] == was[j]);
                        if j > 0 {
                            assert(src[j - 1] == was[j - 1]);
                        }
                    } else if j > 0 {
                        assert(src[j - 1] == was[j - 1]);
                    }
                }
            }
            assert(av[n - 1] == src.last().0);
        } else {
            assert(src == was);
            if was.len() > 0 {
                let m = choose|m: int| 0 <= m < n - 1 && av[m] == was.last().0;
                assert(av[m] == src.last().0);
            }
        }
    } else {
        assert(av.take(0).len() == 0);
    }
}

/// With accumulation the native files of a step cover its interval: their
/// native intervals lie one behind the other from the start of the interval to
/// the step itself, which is the last file, and their lengths add up to the
/// length of the interval.
pub proof fn law_accumulated_files_cover_interval(steps: Seq<i64>, av: Seq<i64>, i: int)
    requires
        order::ascending(av),
        0 <= i < steps.len(),
        av.contains(steps[i]),
        interval_start(steps, Some(av), true, i) < steps[i],
        starts_in_run(av, interval_start(steps, Some(av), true, i)),
    ensures
        ({
            let src = planned_sources(steps, Some(av), true, i);
            let start = interval_start(steps, Some(av), true, i);
            &&& src.len() > 0
            &&& src.last().0 == steps[i]
            &&& tiles(src, start)
            &&& total_duration(src) == steps[i] - start
        }),
{
    let start = interval_start(steps, Some(av), true, i);
    let s = steps[i] as int;
    assert(av.take(av.len() as int) == av);
    lemma_sources_tile(av, av.len() as int, start, s);
    let m = choose|m: int| 0 <= m < av.len() && av[m] == steps[i];
    assert(start < av[m] <= s);
    lemma_total_of_tiles(sources_between(av, start, s), start);
}

proof fn lemma_sources_are_the_files(
    some: Seq<i64>,
    av: Seq<i64>,
    start: int,
    end: int,
    x: int,
)
    ensures
        (exists|j: int|
            0 <= j < sources_among(some, av, start, end).len() && (#[trigger] sources_among(
                some,
                av,
                start,
                end,
            )[j]).0 == x) <==> start < x <= end && exists|k: int|
            0 <= k < some.len() && #[trigger] some[k] == x,
    decreases some.len(),
{
    if some.len() > 0 {
        let rest = some.drop_last();
        let was = sources_among(rest, av, start, end);
        let src = sources_among(some, av, start, end);
        lemma_sources_are_the_files(rest, av, start, end, x);
        if exists|j: int| 0 <= j < src.len() && (#[trigger] src[j]).0 == x {
            let j = choose|j: int| 0 <= j < src.len() && (#[trigger] src[j]).0 == x;
            if j < was.len() {
                assert(was[j].0 == x);
                let k = choose|k: int| 0 <= k < rest.len() && #[trigger] rest[k] == x;
                assert(some[k] == x);
            } else {
                assert(some[some.len() - 1] == x);
            }
        }
        if start < x <= end && exists|k: int| 0 <= k < some.len() && #[trigger] some[k] == x {
            let k = choose|k: int| 0 <= k < some.len() && #[trigger] some[k] == x;
            if k < rest.len() {
                assert(rest[k] == x);
                let j = choose|j: int| 0 <= j < was.len() && (#[trigger] was[j]).0 == x;
                assert(src[j] == was[j]);
            } else {
                assert(src[was.len() as int].0 == x);
            }
        }
    }
}

/// `y` is a native time behind `start` and not behind `end`.
pub open spec fn in_gap(av: Seq<i64>, start: int, end: i64, y: i64) -> bool {
    start < y <= end && av.contains(y)
}

/// With accumulation a step reads the native files between the step before it
/// and itself, and no others; where there are none it reads its own file.
pub proof fn law_accumulate_reads_the_gap(steps: Seq<i64>, av: Seq<i64>, i: int, x: i64)
    requires
        0 <= i < steps.len(),
    ensures
        ({
            let src = planned_sources(steps, Some(av), true, i);
            let start = interval_start(steps, Some(av), true, i);
            (exists|j: int| 0 <= j < src.len() && (#[trigger] src[j]).0 == x) <==> in_gap(
                av,
                start,
                steps[i],
                x,
            ) || (x == steps[i] && forall|y: i64| !#[trigger] in_gap(av, start, steps[i], y))
        }),
{
    let start = interval_start(steps, Some(av), true, i);
    let s = steps[i] as int;
    let among = sources_between(av, start, s);
    let src = planned_sources(steps, Some(av), true, i);
    lemma_sources_are_the_files(av, av, start, s, x as int);
    if among.len() == 0 {
        assert(src[0].0 == s);
        assert forall|y: i64| !#[trigger] in_gap(av, start, steps[i], y) by {
            lemma_sources_are_the_files(av, av, start, s, y as int);
            if in_gap(av, start, steps[i], y) {
                let k = choose|k: int| 0 <= k < av.len() && av[k] == y;
                assert(av[k] == y as int);
            }
        }
    } else {
        let y = among[0].0;
        assert(among[0].0 == y);
        lemma_sources_are_the_files(av, av, start, s, y);
        let k = choose|k: int| 0 <= k < av.len() && #[trigger] av[k] == y;
        assert(in_gap(av, start, steps[i], av[k]));
    }
    if in_gap(av, start, steps[i], x) {
        let k = choose|k: int| 0 <= k < av.len() && av[k] == x;
        assert(av[k] == x as int);
    }
}

/// Without accumulation each step reads its own file and nothing else.
pub proof fn law_own_file_without_accumulate(plan: StepPlan, steps: Seq<i64>, available: Option<Seq<i64>>)
    requires
        plan.is_plan(steps, available, false),
    ensures
        forall|i: int|
            0 <= i < steps.len() ==> (#[trigger] plan.outputs@[i]).sources@.len() == 1
                && plan.outputs@[i].sources@[0].step == steps[i],
        forall|x: i64| plan.unique@.contains(x) <==> steps.contains(x),
{
    assert forall|i: int| 0 <= i < steps.len() implies (#[trigger] plan.outputs@[i]).sources@.len()
        == 1 && plan.outputs@[i].sources@[0].step == steps[i] by {
        let src = plan.outputs@[i].sources@;
        assert(pairs(src).len() == src.len());
        assert(pairs(src)[0].0 == steps[i]);
    }
    assert forall|x: i64| plan.unique@.contains(x) <==> steps.contains(x) by {
        if plan.unique@.contains(x) {
            let (i, j) = choose|i: int, j: int|
                0 <= i < plan.outputs@.len() && 0 <= j < plan.outputs@[i].sources@.len()
                    && #[trigger] plan.outputs@[i].sources@[j].step == x;
            assert(steps[i] == x);
        }
        if steps.contains(x) {
            let i = choose|i: int| 0 <= i < steps.len() && steps[i] == x;
            assert(plan.outputs@[i].sources@[0].step == x);
            assert(reads(plan.outputs@, x as int));
        }
    }
}

/// With accumulation the intervals of consecutive steps join, the first one
/// starts at init, and no native output time is skipped.
pub proof fn law_accumulated_intervals_join(plan: StepPlan, steps: Seq<i64>, av: Seq<i64>)
    requires
        plan.is_plan(steps, Some(av), true),
    ensures
        !plan.subsampled,
        steps.len() > 0 && steps[0] >= 0 ==> plan.outputs@[0].interval.0 == 0,
        forall|i: int|
            0 < i < steps.len() ==> (#[trigger] plan.outputs@[i]).interval.0 == plan.outputs@[i
                - 1].interval.1,
{
    assert forall|i: int| 0 < i < steps.len() implies (#[trigger] plan.outputs@[i]).interval.0
        == plan.outputs@[i - 1].interval.1 by {
        assert(plan.outputs@[i - 1].interval.1 == steps[i - 1]);
    }
    if steps.len() > 0 {
        assert(plan.outputs@[0].interval.0 == order::min(0, steps[0] as int));
    }
}

/// Requesting every native step is not subsampled.
pub proof fn law_native_steps_are_not_subsampled(plan: StepPlan, av: Seq<i64>, accumulate: bool)
    requires
        order::ascending(av),
        plan.is_plan(av, Some(av), accumulate),
    ensures
        !plan.subsampled,
{
    assert forall|i: int| !#[trigger] skips_native(av, Some(av), i) by {
        if 0 < i < av.len() {
            lemma_prev_in_ascending(av, i);
        }
    }
}

proof fn lemma_prev_native_bounds(available: Option<Seq<i64>>, x: int)
    ensures
        prev_native(available, x) <= x,
{
    if let Some(av) = available {
        lemma_latest_before(av, x);
    }
}

proof fn lemma_durations_among(some: Seq<i64>, av: Seq<i64>, start: int, end: int)
    ensures
        forall|j: int|
            0 <= j < sources_among(some, av, start, end).len() ==> (#[trigger] sources_among(
                some,
                av,
                start,
                end,
            )[j]).1 >= 0 && sources_among(some, av, start, end)[j].1 <= end - start,
    decreases some.len(),
{
    if some.len() > 0 {
        let was = sources_among(some.drop_last(), av, start, end);
        let src = sources_among(some, av, start, end);
        lemma_durations_among(some.drop_last(), av, start, end);
        lemma_prev_native_bounds(Some(av), some.last() as int);
        assert forall|j: int| 0 <= j < src.len() implies (#[trigger] src[j]).1 >= 0 && src[j].1
            <= end - start by {
            if j < was.len() {
                assert(src[j] == was[j]);
            }
        }
    }
}

/// No duration is negative.
pub proof fn law_durations_are_not_negative(
    steps: Seq<i64>,
    available: Option<Seq<i64>>,
    accumulate: bool,
    i: int,
)
    requires
        0 <= i < steps.len(),
    ensures
        forall|j: int|
            0 <= j < planned_sources(steps, available, accumulate, i).len() ==> (
            #[trigger] planned_sources(steps, available, accumulate, i)[j]).1 >= 0,
{
    lemma_prev_native_bounds(available, steps[i] as int);
    if let Some(av) = available {
        lemma_durations_among(
            av,
            av,
            interval_start(steps, available, accumulate, i),
            steps[i] as int,
        );
    }
}

/// All of the steps are at most `bound` away from init.
pub open spec fn within(steps: Seq<i64>, bound: int) -> bool {
    forall|i: int| 0 <= i < steps.len() ==> -bound <= #[trigger] steps[i] <= bound
}

/// Steps that lie well inside the range of a 64-bit integer can be planned.
pub proof fn lemma_bounded_steps_fit(
    steps: Seq<i64>,
    available: Option<Seq<i64>>,
    accumulate: bool,
    bound: int,
)
    requires
        within(steps, bound),
        available matches Some(av) ==> within(av, bound) && spacing_bound(bound),
        bound >= 0,
    ensures
        durations_fit(steps, available, accumulate),
        available matches Some(av) ==> spacings_fit(av),
{
    assert forall|i: int, j: int|
        0 <= i < steps.len() && 0 <= j < planned_sources(
            steps,
            available,
            accumulate,
            i,
        ).len() implies (#[trigger] planned_sources(steps, available, accumulate, i)[j]).1
        <= i64::MAX by {
        let s = steps[i] as int;
        if let Some(av) = available {
            lemma_latest_before(av, s);
            if i > 0 {
                assert(-bound <= steps[i - 1]);
            }
            lemma_durations_among(av, av, interval_start(steps, available, accumulate, i), s);
            if let Some(a) = latest_before(av, s) {
                let k = choose|k: int| 0 <= k < av.len() && av[k] == a;
                assert(-bound <= av[k]);
            }
        }
    }
}

pub open spec fn spacing_bound(bound: int) -> bool {
    2 * bound <= i64::MAX
}

/// Neighbouring runs of the cadence differ in their spacing, and the last run
/// ends with the last native step.
pub proof fn law_cadence_runs(av: Seq<i64>)
    requires
        av.len() >= 2,
    ensures
        cadence_runs(av).len() > 0,
        cadence_runs(av).last().1 == av.last(),
        cadence_runs(av).last().0 == av.last() - av[av.len() - 2],
        forall|i: int, j: int|
            #![trigger cadence_runs(av)[i], cadence_runs(av)[j]]
            0 <= i && j == i + 1 && j < cadence_runs(av).len() ==> cadence_runs(av)[i].0
                != cadence_runs(av)[j].0,
    decreases av.len(),
{
    if av.len() > 2 {
        law_cadence_runs(av.drop_last());
    } else {
        assert(cadence_runs(av.drop_last()).len() == 0);
    }
}

/// Without accumulation the interval of a step reaches back to the native output
/// time before it, the first step being no exception: it starts at a native time
/// before the step, or at init (or the step itself, where that lies before init)
/// if there is none, and no native time lies inside it. It is as long as what the
/// one file of the step covers.
pub proof fn law_native_interval(plan: StepPlan, steps: Seq<i64>, av: Seq<i64>, i: int)
    requires
        plan.is_plan(steps, Some(av), false),
        0 <= i < steps.len(),
    ensures
        ({
            let out = plan.outputs@[i];
            let (start, end) = out.interval;
            &&& out.step == steps[i]
            &&& end == steps[i]
            &&& forall|a: i64| #[trigger] av.contains(a) ==> !(start < a < end)
            &&& if exists|a: i64| #[trigger] av.contains(a) && a < end {
                av.contains(start) && start < end
            } else {
                start == if steps[i] < 0 {
                    steps[i]
                } else {
                    0
                }
            }
            &&& out.sources@.len() == 1
            &&& out.sources@[0].step == steps[i]
            &&& out.sources@[0].duration == end - start
        }),
{
    let out = plan.outputs@[i];
    let s = steps[i] as int;
    lemma_latest_before(av, s);
    assert(pairs(out.sources@).len() == out.sources@.len());
    assert(pairs(out.sources@)[0] == (s, s - prev_native(Some(av), s)));
    assert forall|a: i64| #[trigger] av.contains(a) implies !(out.interval.0 < a < s) by {
        let k = choose|k: int| 0 <= k < av.len() && av[k] == a;
        assert(av[k] < s ==> av[k] <= prev_native(Some(av), s));
    }
    match latest_before(av, s) {
        Some(a) => {
            let k = choose|k: int| 0 <= k < av.len() && av[k] == a;
            assert(av.contains(av[k]) && av[k] < s);
        },
        None => {
            assert forall|a: i64| #[trigger] av.contains(a) implies a >= s by {
                let k = choose|k: int| 0 <= k < av.len() && av[k] == a;
            }
        },
    }
}

/// Where the native output times are unknown, a step reads its own file, of which
/// it is not known what interval it covers, and no time is known to be skipped.
pub proof fn law_unknown_cadence(plan: StepPlan, steps: Seq<i64>, accumulate: bool)
    requires
        plan.is_plan(steps, None, accumulate),
    ensures
        !plan.subsampled,
        forall|i: int|
            0 <= i < steps.len() ==> {
                let out = #[trigger] plan.outputs@[i];
                &&& out.step == steps[i]
                &&& out.interval == (steps[i], steps[i])
                &&& out.sources@.len() == 1
                &&& out.sources@[0].step == steps[i]
                &&& out.sources@[0].duration == 0
            },
{
    assert forall|i: int| 0 <= i < steps.len() implies {
        let out = #[trigger] plan.outputs@[i];
        &&& out.interval == (steps[i], steps[i])
        &&& out.sources@.len() == 1
        &&& out.sources@[0].step == steps[i]
        &&& out.sources@[0].duration == 0
    } by {
        let src = plan.outputs@[i].sources@;
        assert(pairs(src).len() == src.len());
        assert(pairs(src)[0] == (steps[i] as int, 0int));
    }
}

/// With accumulation the interval of a step starts at the step before it, for the
/// first step at init, and it reads exactly the native files inside the interval;
/// where there are none it reads its own file.
pub proof fn law_accumulated_step(plan: StepPlan, steps: Seq<i64>, av: Seq<i64>, i: int, x: i64)
    requires
        plan.is_plan(steps, Some(av), true),
        0 <= i < steps.len(),
    ensures
        ({
            let out = plan.outputs@[i];
            let (start, end) = out.interval;
            let read = exists|j: int|
                0 <= j < out.sources@.len() && (#[trigger] out.sources@[j]).step == x;
            &&& out.step == steps[i]
            &&& end == steps[i]
            &&& i > 0 ==> start == steps[i - 1]
            &&& i == 0 && steps[i] >= 0 ==> start == 0
            &&& i == 0 && steps[i] < 0 ==> start == steps[i]
            &&& av.contains(x) && start < x <= end ==> read
            &&& read && !(av.contains(x) && start < x <= end) ==> x == steps[i] && forall|a: i64|
                #[trigger] av.contains(a) ==> !(start < a <= end)
        }),
{
    let out = plan.outputs@[i];
    let src = planned_sources(steps, Some(av), true, i);
    let start = interval_start(steps, Some(av), true, i);
    law_accumulate_reads_the_gap(steps, av, i, x);
    assert(pairs(out.sources@).len() == out.sources@.len());
    let read = exists|j: int|
        0 <= j < out.sources@.len() && (#[trigger] out.sources@[j]).step == x;
    if read {
        let j = choose|j: int|
            0 <= j < out.sources@.len() && (#[trigger] out.sources@[j]).step == x;
        assert(src[j].0 == x);
        if !(av.contains(x) && start < x <= steps[i]) {
            assert forall|a: i64| #[trigger] av.contains(a) implies !(start < a <= steps[i]) by {
                assert(!in_gap(av, start, steps[i], a));
            }
        }
    }
    if av.contains(x) && start < x <= steps[i] {
        assert(in_gap(av, start, steps[i], x));
        let j = choose|j: int| 0 <= j < src.len() && (#[trigger] src[j]).0 == x;
        assert(pairs(out.sources@)[j].0 == x);
        assert(out.sources@[j].step == x);
    }
}

/// The files that a plan reads are all listed, once and in order, and no others.
pub proof fn law_files_that_are_read(
    plan: StepPlan,
    steps: Seq<i64>,
    available: Option<Seq<i64>>,
    accumulate: bool,
)
    requires
        plan.is_plan(steps, available, accumulate),
    ensures
        forall|i: int, j: int|
            0 <= i < plan.outputs@.len() && 0 <= j < plan.outputs@[i].sources@.len()
                ==> plan.unique@.contains((#[trigger] plan.outputs@[i].sources@[j]).step),
        forall|x: i64| #[trigger]
            plan.unique@.contains(x) ==> exists|i: int, j: int|
                0 <= i < plan.outputs@.len() && 0 <= j < plan.outputs@[i].sources@.len() && (
                #[trigger] plan.outputs@[i].sources@[j]).step == x,
        forall|i: int, j: int|
            0 <= i < j < plan.unique@.len() ==> plan.unique@[i] < plan.unique@[j],
{
    assert forall|i: int, j: int|
        0 <= i < plan.outputs@.len() && 0 <= j < plan.outputs@[i].sources@.len() implies plan.unique@.contains(
    (#[trigger] plan.outputs@[i].sources@[j]).step) by {
        let x = plan.outputs@[i].sources@[j].step;
        assert(reads(plan.outputs@, x as int));
    }
    assert forall|x: i64| #[trigger] plan.unique@.contains(x) implies exists|i: int, j: int|
        0 <= i < plan.outputs@.len() && 0 <= j < plan.outputs@[i].sources@.len() && (
        #[trigger] plan.outputs@[i].sources@[j]).step == x by {
        let (i, j) = choose|i: int, j: int|
            0 <= i < plan.outputs@.len() && 0 <= j < plan.outputs@[i].sources@.len()
                && #[trigger] plan.outputs@[i].sources@[j].step == x as int;
        assert(plan.outputs@[i].sources@[j].step == x);
    }
}

/// Steps of the run are subsampled exactly when, without accumulation, a native
/// output time lies between two consecutive ones.
pub proof fn law_subsampled_iff_a_time_is_skipped(
    plan: StepPlan,
    steps: Seq<i64>,
    av: Seq<i64>,
    accumulate: bool,
)
    requires
        plan.is_plan(steps, Some(av), accumulate),
        order::ascending(steps),
        forall|i: int| 0 <= i < steps.len() ==> av.contains(#[trigger] steps[i]),
    ensures
        plan.subsampled <==> !accumulate && exists|i: int, a: i64|
            #![trigger steps[i], av.contains(a)]
            0 < i < steps.len() && av.contains(a) && steps[i - 1] < a < steps[i],
{
    if plan.subsampled {
        let i = choose|i: int| #[trigger] skips_native(steps, Some(av), i);
        let s = steps[i] as int;
        lemma_latest_before(av, s);
        assert(av.contains(steps[i - 1]));
        let m = choose|m: int| 0 <= m < av.len() && av[m] == steps[i - 1];
        assert(av[m] < s);
        let b = latest_before(av, s)->0;
        let k = choose|k: int| 0 <= k < av.len() && av[k] == b;
        assert(av.contains(av[k]));
        assert(steps[i - 1] < av[k] && av[k] < steps[i]);
    }
    if !accumulate && (exists|i: int, a: i64|
        #![trigger steps[i], av.contains(a)]
        0 < i < steps.len() && av.contains(a) && steps[i - 1] < a < steps[i]) {
        let (i, a) = choose|i: int, a: i64|
            #![trigger steps[i], av.contains(a)]
            0 < i < steps.len() && av.contains(a) && steps[i - 1] < a < steps[i];
        let s = steps[i] as int;
        lemma_latest_before(av, s);
        let k = choose|k: int| 0 <= k < av.len() && av[k] == a;
        assert(av[k] < s);
        assert(skips_native(steps, Some(av), i));
    }
}

/// The runs of the cadence describe the spacing of every native output time: it
/// is the spacing of the first run that does not end before the time.
pub proof fn law_cadence_describes_every_time(av: Seq<i64>, k: int)
    requires
        order::ascending(av),
        0 < k < av.len(),
    ensures
        exists|j: int|
            0 <= j < cadence_runs(av).len() && (#[trigger] cadence_runs(av)[j]).0 == av[k] - av[k
                - 1] && av[k] <= cadence_runs(av)[j].1 && (j > 0 ==> cadence_runs(av)[j - 1].1
                < av[k]),
    decreases av.len(),
{
    let r = cadence_runs(av);
    let rest = av.drop_last();
    let before = cadence_runs(rest);
    let n = av.len() as int;
    assert forall|a: int, b: int| 0 <= a < b < rest.len() implies rest[a] < rest[b] by {
        assert(rest[a] == av[a] && rest[b] == av[b]);
    }
    if before.len() > 0 {
        law_cadence_runs(rest);
    }
    if k < n - 1 {
        law_cadence_describes_every_time(rest, k);
        let j = choose|j: int|
            0 <= j < before.len() && (#[trigger] before[j]).0 == rest[k] - rest[k - 1] && rest[k]
                <= before[j].1 && (j > 0 ==> before[j - 1].1 < rest[k]);
        if j > 0 {
            assert(r[j - 1] == before[j - 1]);
        }
        assert(av[k] < av[n - 1]);
        assert(r[j].0 == av[k] - av[k - 1] && av[k] <= r[j].1);
    } else {
        let j = r.len() - 1;
        assert(r[j] == (av[n - 1] - av[n - 2], av[n - 1] as int));
        if j > 0 {
            if r.len() == before.len() {
                // The last run has grown; the one before it is older.
                law_runs_ascend(rest, j - 1);
                assert(r[j - 1] == before[j - 1]);
            } else {
                assert(r[j - 1] == before[j - 1]);
                assert(before[j - 1] == before.last());
            }
        }
    }
}

/// Each run of the cadence ends behind the one before it.
pub proof fn law_runs_ascend(av: Seq<i64>, j: int)
    requires
        order::ascending(av),
        0 <= j,
        j + 1 < cadence_runs(av).len(),
    ensures
        cadence_runs(av)[j].1 < cadence_runs(av)[j + 1].1,
    decreases av.len(),
{
    let rest = av.drop_last();
    let before = cadence_runs(rest);
    let r = cadence_runs(av);
    assert forall|a: int, b: int| 0 <= a < b < rest.len() implies rest[a] < rest[b] by {
        assert(rest[a] == av[a] && rest[b] == av[b]);
    }
    law_cadence_runs(av);
    if j + 1 < before.len() {
        law_runs_ascend(rest, j);
        assert(r[j] == before[j]);
        if j + 2 == r.len() {
            law_cadence_runs(rest);
            assert(rest.last() == av[av.len() - 2]);
            assert(r[j + 1] == r.last());
            assert(before[j + 1] == before.last());
        } else {
            assert(r[j + 1] == before[j + 1]);
        }
    } else {
        law_cadence_runs(rest);
        assert(r[j] == before[j]);
        assert(before[j] == before.last());
        assert(rest.last() == av[av.len() - 2]);
    }
}

/// The comment on intervals describes the native cadence where it is known, and says
/// whether the values are combined.
pub proof fn law_comments_describe_the_cadence(av: Seq<i64>, accumulate: bool)
    ensures
        exists|i: int| #[trigger]
            text::occurs_at(comment_text(Some(av), accumulate), cadence_text(av), i),
        accumulate <==> text::occurs_at(
            comment_text(Some(av), accumulate),
            "Combined by om2nc --accumulate"@,
            0,
        ),
{
    reveal_strlit("Combined by om2nc --accumulate");
    reveal_strlit(
        "Combined by om2nc --accumulate from the model's native output files so that each value covers the interval between consecutive output steps (time_bnds). Native output interval of this run: ",
    );
    reveal_strlit(
        "Value covers only the interval since the previous native model output time (time_bnds), not since the previous step in this file. Native output interval of this run: ",
    );
    let c = comment_text(Some(av), accumulate);
    let head = if accumulate {
        "Combined by om2nc --accumulate from the model's native output files so that each value covers the interval between consecutive output steps (time_bnds). Native output interval of this run: "@
    } else {
        "Value covers only the interval since the previous native model output time (time_bnds), not since the previous step in this file. Native output interval of this run: "@
    };
    let n = head.len() as int;
    let text = cadence_text(av);
    assert(c == head + text + "."@);
    assert(c.subrange(n, n + text.len()) == text);
    assert(text::occurs_at(c, text, n));
    let start = "Combined by om2nc --accumulate"@;
    if accumulate {
        assert(c.subrange(0, start.len() as int) == start);
    } else {
        assert(c[0] == 'V');
        assert(start[0] == 'C');
        assert(c.subrange(0, start.len() as int)[0] == c[0]);
    }
}

} // verus!
