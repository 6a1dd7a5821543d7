//! The decisions of a fetch: resolving the request against the status of the
//! model, checking the files of the run, choosing variables, and deciding what
//! is read from each file and how it is combined.
use crate::cf;
use crate::cf::Reduction;
use crate::meta;
use crate::meta::{ModelStatus, RunKind, RunMeta};
use crate::nc::VarSpec;
use crate::om;
use crate::om::VarInfo;
use crate::order;
use crate::plan;
use crate::plan::{SourceStep, StepPlan};
use crate::steps;
use crate::store::SPATIAL_PREFIX;
use crate::text;
use crate::timefmt;
use crate::timefmt::UtcTime;
use vstd::prelude::*;
use vstd::string::*;

verus! {

/// What is to be fetched, apart from the output grid.
#[derive(Debug)]
pub struct FetchRequest {
    pub model: String,
    /// `None` means "latest completed run".
    pub init: Option<UtcTime>,
    /// `None` means "every step the run provides".
    pub steps_minutes: Option<Vec<i64>>,
    /// Empty means "every variable the run provides".
    pub vars: Vec<String>,
    /// The output path, as it is shown to the user.
    pub output: String,
    pub concurrency: usize,
    pub allow_incomplete: bool,
    /// Fill NaN (with a warning) when a step file lacks a variable, instead of failing.
    pub missing_as_nan: bool,
    /// Combine native output files so interval variables cover the whole gap
    /// between consecutive requested steps.
    pub accumulate: bool,
    pub overwrite: bool,
    pub deflate_level: i32,
    pub block_size: u64,
    pub io_merge: u64,
    pub history: String,
    pub bucket: String,
}

#[derive(Debug)]
pub struct FetchSummary {
    pub init: UtcTime,
    pub steps: usize,
    pub vars: usize,
    pub ny: usize,
    pub nx: usize,
    pub bytes_remote: u64,
}

/// An existing output is replaced on request only.
pub fn check_output(output: &str, already: bool, overwrite: bool) -> (r: Result<(), String>)
    ensures
        match r {
            Ok(_) => !already || overwrite,
            Err(e) => already && !overwrite && e@ == output@
                + " exists; pass --overwrite to replace it"@,
        },
{
    if already && !overwrite {
        let mut e = output.to_owned();
        e.append(" exists; pass --overwrite to replace it");
        return Err(e);
    }
    Ok(())
}

/// The reference time of the run to fetch.
pub open spec fn chosen_init(status: ModelStatus, init: Option<UtcTime>) -> Result<
    UtcTime,
    Seq<char>,
> {
    match init {
        Some(t) => Ok(t),
        None => match status.latest {
            Some(m) => m.reference(),
            None => Err(
                "no completed run available (latest.json missing); pass --init explicitly"@,
            ),
        },
    }
}

pub open spec fn in_progress_error(model: Seq<char>, init: UtcTime, steps: nat) -> Seq<char> {
    "run "@ + timefmt::iso_text(init) + " of "@ + model
        + " is still being processed (in-progress.json, "@ + text::dec(steps)
        + " steps so far); wait for latest.json to advance or pass --allow-incomplete"@
}

/// The requested steps, or all steps of the run.
pub open spec fn asked_steps(meta: RunMeta, asked: Option<Seq<i64>>) -> Result<
    Seq<i64>,
    Seq<char>,
> {
    match asked {
        Some(s) => Ok(s),
        None => match meta.listed_minutes() {
            Ok(l) => Ok(order::sorted_set(l)),
            Err(e) => Err(e),
        },
    }
}

/// The steps to fetch of a run that a status file describes.
pub open spec fn described_steps(
    req: FetchRequest,
    init: UtcTime,
    meta: RunMeta,
    kind: RunKind,
) -> Result<Seq<i64>, Seq<char>> {
    if kind == RunKind::InProgress && !meta.completed && !req.allow_incomplete {
        Err(in_progress_error(req.model@, init, meta.valid_times@.len()))
    } else {
        match asked_steps(meta, req.asked()) {
            Err(e) => Err(e),
            Ok(steps) => match meta::request_error(meta, steps, text::texts(req.vars@)) {
                Some(e) => Err(e),
                None => Ok(steps),
            },
        }
    }
}

/// The steps to fetch of a run that no status file describes.
pub open spec fn undescribed_steps(req: FetchRequest, init: UtcTime) -> Result<
    Seq<i64>,
    Seq<char>,
> {
    match req.asked() {
        Some(s) => Ok(s),
        None => Err(
            "run "@ + timefmt::iso_text(init)
                + " is not described by latest.json/in-progress.json; pass --step explicitly"@,
        ),
    }
}

/// What a request comes down to: the run, the steps, the variables as far as
/// they are known before a file is read, and the native output times of the run
/// where they are known.
#[verifier::ext_equal]
pub struct Resolution {
    pub init: UtcTime,
    pub steps: Seq<i64>,
    pub vars: Seq<Seq<char>>,
    pub available: Option<Seq<i64>>,
}

impl FetchRequest {
    pub open spec fn asked(self) -> Option<Seq<i64>> {
        match self.steps_minutes {
            Some(v) => Some(v@),
            None => None,
        }
    }
}

/// The request resolved against a run that a status file describes.
pub open spec fn described_resolution(
    req: FetchRequest,
    init: UtcTime,
    meta: RunMeta,
    kind: RunKind,
) -> Result<Resolution, Seq<char>> {
    match described_steps(req, init, meta, kind) {
        Err(e) => Err(e),
        Ok(steps) => if steps.len() == 0 {
            Err("no steps selected"@)
        } else {
            Ok(
                Resolution {
                    init,
                    steps,
                    vars: text::texts(
                        if req.vars@.len() == 0 {
                            meta.variables@
                        } else {
                            req.vars@
                        },
                    ),
                    available: Some(order::sorted_set(meta.listed_minutes()->Ok_0)),
                },
            )
        },
    }
}

/// The request resolved against a run that no status file describes.
pub open spec fn undescribed_resolution(req: FetchRequest, init: UtcTime) -> Result<
    Resolution,
    Seq<char>,
> {
    match undescribed_steps(req, init) {
        Err(e) => Err(e),
        Ok(steps) => if steps.len() == 0 {
            Err("no steps selected"@)
        } else if req.accumulate {
            Err(
                "--accumulate needs the run's native output times, which only latest.json/in-progress.json provide"@,
            )
        } else {
            Ok(Resolution { init, steps, vars: text::texts(req.vars@), available: None })
        },
    }
}

/// The request resolved against the status of the model.
pub open spec fn resolution(status: ModelStatus, req: FetchRequest) -> Result<
    Resolution,
    Seq<char>,
> {
    match chosen_init(status, req.init) {
        Err(e) => Err(e),
        Ok(init) => match status.run_kind(init) {
            Err(e) => Err(e),
            Ok(Some(kind)) => described_resolution(req, init, status.file(kind)->0, kind),
            Ok(None) => undescribed_resolution(req, init),
        },
    }
}

/// A resolved request with its plan.
#[derive(Debug)]
pub struct Resolved {
    pub init: UtcTime,
    pub steps: Vec<i64>,
    /// Empty where the variables are those of the first file.
    pub vars: Vec<String>,
    pub available: Option<Vec<i64>>,
    pub plan: StepPlan,
    pub interval_comment: String,
}

impl Resolved {
    pub open spec fn native_times(self) -> Option<Seq<i64>> {
        match self.available {
            Some(v) => Some(v@),
            None => None,
        }
    }

    pub open spec fn as_resolution(self) -> Resolution {
        Resolution {
            init: self.init,
            steps: self.steps@,
            vars: text::texts(self.vars@),
            available: self.native_times(),
        }
    }

    /// Where the native output times are known, they are in order, each once,
    /// and every step is one of them.
    pub open spec fn steps_are_provided(self) -> bool {
        self.native_times() matches Some(av) ==> order::ascending(av) && (forall|i: int|
            0 <= i < self.steps@.len() ==> av.contains(#[trigger] self.steps@[i]))
    }

    /// The native output times are those that the status file of the run lists.
    pub open spec fn lists_times_of(self, status: ModelStatus) -> bool {
        self.native_times() matches Some(av) ==> {
            &&& status.run_kind(self.init) matches Ok(Some(kind))
            &&& status.file(status.run_kind(self.init)->Ok_0->0) matches Some(m)
            &&& m.listed_minutes() matches Ok(l)
            &&& order::is_sorted_set(av, l)
        }
    }

    pub open spec fn is_planned(self, accumulate: bool) -> bool {
        &&& self.init.valid()
        &&& self.plan.is_plan(self.steps@, self.native_times(), accumulate)
        &&& self.interval_comment@ == plan::comment_text(self.native_times(), accumulate)
    }
}

fn choose_init(status: &ModelStatus, init: Option<UtcTime>) -> (r: Result<UtcTime, String>)
    requires
        init matches Some(t) ==> t.valid(),
    ensures
        match r {
            Ok(t) => chosen_init(*status, init) == Ok::<_, Seq<char>>(t) && t.valid(),
            Err(e) => chosen_init(*status, init) == Err::<UtcTime, _>(e@),
        },
{
    match init {
        Some(t) => Ok(t),
        None => match &status.latest {
            Some(m) => m.reference_time(),
            None => Err(
                "no completed run available (latest.json missing); pass --init explicitly".to_owned(),
            ),
        },
    }
}

fn steps_of_described(
    req: &FetchRequest,
    init: UtcTime,
    meta: &RunMeta,
    kind: RunKind,
) -> (r: Result<Vec<i64>, String>)
    requires
        init.valid(),
    ensures
        match r {
            Ok(v) => described_steps(*req, init, *meta, kind) == Ok::<_, Seq<char>>(v@),
            Err(e) => described_steps(*req, init, *meta, kind) == Err::<Seq<i64>, _>(e@),
        },
{
    if kind == RunKind::InProgress && !meta.completed && !req.allow_incomplete {
        let mut e = "run ".to_owned();
        e.append(timefmt::iso(init).as_str());
        e.append(" of ");
        e.append(req.model.as_str());
        e.append(" is still being processed (in-progress.json, ");
        text::push_dec(&mut e, meta.valid_times.len() as u128);
        e.append(" steps so far); wait for latest.json to advance or pass --allow-incomplete");
        return Err(e);
    }
    let steps = match &req.steps_minutes {
        Some(s) => order::copy(s.as_slice()),
        None => match meta.steps_minutes() {
            Ok(v) => {
                proof {
                    order::lemma_sorted_set(v@, meta.listed_minutes()->Ok_0);
                }
                v
            },
            Err(e) => {
                return Err(e);
            },
        },
    };
    match meta::validate_request(meta, steps.as_slice(), req.vars.as_slice()) {
        Ok(_) => Ok(steps),
        Err(e) => Err(e),
    }
}

/// Steps that the run lists lie well inside the range of a 64-bit integer.
proof fn lemma_listed_steps_bounded(meta: RunMeta, steps: Seq<i64>, names: Seq<Seq<char>>, av: Seq<i64>)
    requires
        meta::request_error(meta, steps, names) is None,
        meta.listed_minutes() matches Ok(l) && order::is_sorted_set(av, l),
        plan::within(av, timefmt::MAX_MINUTES as int),
    ensures
        plan::within(steps, timefmt::MAX_MINUTES as int),
        forall|i: int| 0 <= i < steps.len() ==> av.contains(#[trigger] steps[i]),
{
    meta::law_request_passes_iff_listed(meta, steps, names);
    let have = meta.listed_minutes()->Ok_0;
    assert forall|i: int| 0 <= i < steps.len() implies av.contains(#[trigger] steps[i])
        && -timefmt::MAX_MINUTES <= steps[i] <= timefmt::MAX_MINUTES by {
        assert(have.contains(steps[i] as int));
        order::lemma_values_contains(av, steps[i]);
        let k = choose|k: int| 0 <= k < av.len() && av[k] == steps[i];
        assert(-timefmt::MAX_MINUTES <= av[k] <= timefmt::MAX_MINUTES);
    }
}

/// Resolve a request against the status of its model, and plan its reads.
pub fn resolve(status: &ModelStatus, req: &FetchRequest) -> (r: Result<Resolved, String>)
    requires
        req.init matches Some(t) ==> t.valid(),
    ensures
        match r {
            Ok(x) => resolution(*status, *req) == Ok::<_, Seq<char>>(x.as_resolution())
                && x.is_planned(req.accumulate) && x.steps_are_provided() && (req.accumulate
                ==> x.available is Some) && (req.steps_minutes is None ==> x.native_times()
                == Some(x.steps@)) && x.lists_times_of(*status) && (req.vars@.len() > 0
                ==> text::texts(x.vars@) == text::texts(req.vars@)) && (req.steps_minutes matches Some(
                v,
            ) ==> x.steps@ == v@) && (req.init matches Some(t) ==> x.init == t),
            Err(e) => resolution(*status, *req) == Err::<Resolution, _>(e@),
        },
{
    let init = match choose_init(status, req.init) {
        Ok(t) => t,
        Err(e) => {
            return Err(e);
        },
    };
    match status.run(init) {
        Err(e) => Err(e),
        Ok(Some((meta, kind))) => {
            let steps = match steps_of_described(req, init, meta, kind) {
                Ok(v) => v,
                Err(e) => {
                    return Err(e);
                },
            };
            if steps.len() == 0 {
                return Err("no steps selected".to_owned());
            }
            let vars = if req.vars.len() == 0 {
                text::copy_texts(meta.variables.as_slice())
            } else {
                text::copy_texts(req.vars.as_slice())
            };
            let available = match meta.steps_minutes() {
                Ok(v) => v,
                Err(e) => {
                    proof {
                        meta::law_request_passes_iff_listed(
                            *meta,
                            steps@,
                            text::texts(req.vars@),
                        );
                    }
                    return Err(e);
                },
            };
            proof {
                order::lemma_sorted_set(available@, meta.listed_minutes()->Ok_0);
                lemma_listed_steps_bounded(*meta, steps@, text::texts(req.vars@), available@);
                plan::lemma_bounded_steps_fit(
                    steps@,
                    Some(available@),
                    req.accumulate,
                    timefmt::MAX_MINUTES as int,
                );
            }
            let plan = plan::plan_steps(
                steps.as_slice(),
                Some(available.as_slice()),
                req.accumulate,
            );
            let interval_comment = plan::interval_comment(
                Some(available.as_slice()),
                req.accumulate,
            );
            Ok(
                Resolved {
                    init,
                    steps,
                    vars,
                    available: Some(available),
                    plan,
                    interval_comment,
                },
            )
        },
        Ok(None) => {
            let steps = match &req.steps_minutes {
                Some(s) => order::copy(s.as_slice()),
                None => {
                    let mut e = "run ".to_owned();
                    e.append(timefmt::iso(init).as_str());
                    e.append(
                        " is not described by latest.json/in-progress.json; pass --step explicitly",
                    );
                    return Err(e);
                },
            };
            if steps.len() == 0 {
                return Err("no steps selected".to_owned());
            }
            if req.accumulate {
                return Err(
                    "--accumulate needs the run's native output times, which only latest.json/in-progress.json provide".to_owned(),
                );
            }
            let vars = text::copy_texts(req.vars.as_slice());
            let plan = plan::plan_steps(steps.as_slice(), None, req.accumulate);
            let interval_comment = plan::interval_comment(None, req.accumulate);
            Ok(Resolved { init, steps, vars, available: None, plan, interval_comment })
        },
    }
}

/// The object keys of the given steps.
pub fn step_keys(model: &str, init: UtcTime, steps: &[i64]) -> (r: Vec<String>)
    requires
        init.valid(),
        forall|i: int|
            0 <= i < steps@.len() ==> timefmt::can_shift(init, #[trigger] steps@[i] as int),
    ensures
        text::texts(r@) == steps@.map_values(
            |m: i64| timefmt::step_key_text(model@, init, m as int),
        ),
{
    let mut out: Vec<String> = Vec::new();
    let mut i: usize = 0;
    while i < steps.len()
        invariant
            i <= steps.len(),
            init.valid(),
            forall|k: int|
                0 <= k < steps@.len() ==> timefmt::can_shift(init, #[trigger] steps@[k] as int),
            out@.len() == i,
            forall|k: int|
                0 <= k < i ==> (#[trigger] out@[k])@ == timefmt::step_key_text(
                    model@,
                    init,
                    steps@[k] as int,
                ),
        decreases steps.len() - i,
    {
        out.push(timefmt::step_key(model, init, steps[i]));
        i += 1;
    }
    out
}

/// The hours of those steps whose files are missing.
pub open spec fn absent_hours(sizes: Seq<Option<u64>>, steps: Seq<i64>) -> Seq<Seq<char>>
    decreases sizes.len(),
{
    if sizes.len() == 0 {
        Seq::empty()
    } else {
        let rest = absent_hours(sizes.drop_last(), steps);
        if sizes.last() is None {
            rest.push(steps::hours_text(steps[sizes.len() - 1] as int))
        } else {
            rest
        }
    }
}

/// The size of all files that are there.
pub open spec fn total_size(sizes: Seq<Option<u64>>) -> int
    decreases sizes.len(),
{
    if sizes.len() == 0 {
        0
    } else {
        total_size(sizes.drop_last()) + match sizes.last() {
            Some(n) => n as int,
            None => 0,
        }
    }
}

pub open spec fn missing_files_error(
    model: Seq<char>,
    init: UtcTime,
    hours: Seq<Seq<char>>,
    files: nat,
) -> Seq<char> {
    "run "@ + timefmt::iso_text(init) + " of "@ + model + ": "@ + text::dec(hours.len()) + " of "@
        + text::dec(files) + " step files are missing (hours: "@ + text::join(hours, ","@) + ")"@
}

/// Part of the files are no larger than all of them.
proof fn lemma_part_size(sizes: Seq<Option<u64>>, n: int)
    requires
        0 <= n <= sizes.len(),
    ensures
        0 <= total_size(sizes.take(n)) <= total_size(sizes),
    decreases sizes.len() - n, n,
{
    if n < sizes.len() {
        assert(sizes.take(n + 1).drop_last() == sizes.take(n));
        lemma_part_size(sizes, n + 1);
        lemma_size_not_negative(sizes.take(n));
    } else {
        assert(sizes.take(n) == sizes);
        lemma_size_not_negative(sizes);
    }
}

pub proof fn lemma_size_not_negative(sizes: Seq<Option<u64>>)
    ensures
        total_size(sizes) >= 0,
    decreases sizes.len(),
{
    if sizes.len() > 0 {
        lemma_size_not_negative(sizes.drop_last());
    }
}

/// Whether the size of all files can be held.
pub fn total_fits(sizes: &[Option<u64>]) -> (r: bool)
    ensures
        r == (total_size(sizes@) <= u64::MAX),
{
    let mut bytes: u64 = 0;
    let mut i: usize = 0;
    assert(sizes@.take(0) == Seq::<Option<u64>>::empty());
    while i < sizes.len()
        invariant
            i <= sizes.len(),
            bytes == total_size(sizes@.take(i as int)),
        decreases sizes.len() - i,
    {
        proof {
            assert(sizes@.take(i + 1).drop_last() == sizes@.take(i as int));
            lemma_part_size(sizes@, i + 1);
        }
        if let Some(n) = sizes[i] {
            match bytes.checked_add(n) {
                Some(sum) => {
                    bytes = sum;
                },
                None => {
                    return false;
                },
            }
        }
        i += 1;
    }
    assert(sizes@.take(i as int) == sizes@);
    true
}

/// Every source file must exist. `sizes` holds the size of the file of each of
/// the steps, `None` where there is none. The result is the size of all of them.
pub fn check_files(model: &str, init: UtcTime, steps: &[i64], sizes: &[Option<u64>]) -> (r: Result<
    u64,
    String,
>)
    requires
        init.valid(),
        sizes@.len() == steps@.len(),
        absent_hours(sizes@, steps@).len() == 0 ==> total_size(sizes@) <= u64::MAX,
    ensures
        match r {
            Ok(n) => absent_hours(sizes@, steps@).len() == 0 && n == total_size(sizes@),
            Err(e) => absent_hours(sizes@, steps@).len() > 0 && e@ == missing_files_error(
                model@,
                init,
                absent_hours(sizes@, steps@),
                steps@.len(),
            ),
        },
{
    let mut missing: Vec<String> = Vec::new();
    let mut i: usize = 0;
    assert(sizes@.take(0) == Seq::<Option<u64>>::empty());
    assert(text::texts(missing@) == Seq::<Seq<char>>::empty());
    while i < sizes.len()
        invariant
            i <= sizes.len(),
            sizes@.len() == steps@.len(),
            text::texts(missing@) == absent_hours(sizes@.take(i as int), steps@),
        decreases sizes.len() - i,
    {
        let ghost before = missing@;
        assert(sizes@.take(i + 1).drop_last() == sizes@.take(i as int));
        if sizes[i].is_none() {
            missing.push(steps::minutes_to_hours_string(steps[i]));
            assert(text::texts(missing@) == text::texts(before).push(
                steps::hours_text(steps@[i as int] as int),
            ));
        }
        i += 1;
    }
    assert(sizes@.take(i as int) == sizes@);
    assert(text::texts(missing@).len() == missing@.len());
    if missing.len() > 0 {
        let mut e = "run ".to_owned();
        e.append(timefmt::iso(init).as_str());
        e.append(" of ");
        e.append(model);
        e.append(": ");
        text::push_dec(&mut e, missing.len() as u128);
        e.append(" of ");
        text::push_dec(&mut e, steps.len() as u128);
        e.append(" step files are missing (hours: ");
        text::join_onto(&mut e, missing.as_slice(), ",");
        e.append(")");
        return Err(e);
    }
    let mut bytes: u64 = 0;
    let mut k: usize = 0;
    while k < sizes.len()
        invariant
            k <= sizes.len(),
            total_size(sizes@) <= u64::MAX,
            bytes == total_size(sizes@.take(k as int)),
        decreases sizes.len() - k,
    {
        proof {
            assert(sizes@.take(k + 1).drop_last() == sizes@.take(k as int));
            lemma_part_size(sizes@, k + 1);
        }
        if let Some(n) = sizes[k] {
            bytes += n;
        }
        k += 1;
    }
    assert(sizes@.take(k as int) == sizes@);
    Ok(bytes)
}

/// Whether every file is there.
pub fn all_there(sizes: &[Option<u64>]) -> (r: bool)
    ensures
        r == forall|i: int| 0 <= i < sizes@.len() ==> #[trigger] sizes@[i] is Some,
{
    let mut i: usize = 0;
    while i < sizes.len()
        invariant
            i <= sizes.len(),
            forall|k: int| 0 <= k < i ==> #[trigger] sizes@[k] is Some,
        decreases sizes.len() - i,
    {
        if sizes[i].is_none() {
            assert(!(sizes@[i as int] is Some));
            return false;
        }
        i += 1;
    }
    true
}

proof fn lemma_absent_hours(sizes: Seq<Option<u64>>, steps: Seq<i64>)
    ensures
        absent_hours(sizes, steps).len() == 0 <==> forall|i: int|
            0 <= i < sizes.len() ==> #[trigger] sizes[i] is Some,
    decreases sizes.len(),
{
    if sizes.len() > 0 {
        let rest = sizes.drop_last();
        lemma_absent_hours(rest, steps);
        if absent_hours(sizes, steps).len() == 0 {
            assert forall|i: int| 0 <= i < sizes.len() implies #[trigger] sizes[i] is Some by {
                if i < rest.len() {
                    assert(rest[i] == sizes[i]);
                }
            }
        }
        if forall|i: int| 0 <= i < sizes.len() ==> #[trigger] sizes[i] is Some {
            assert(sizes[sizes.len() - 1] is Some);
            assert forall|i: int| 0 <= i < rest.len() implies #[trigger] rest[i] is Some by {
                assert(sizes[i] is Some);
            }
        }
    }
}

/// No file is missing exactly when there is a size for every file.
pub proof fn law_files_pass_iff_all_there(sizes: Seq<Option<u64>>, steps: Seq<i64>)
    requires
        sizes.len() == steps.len(),
    ensures
        absent_hours(sizes, steps).len() == 0 <==> forall|i: int|
            0 <= i < sizes.len() ==> #[trigger] sizes[i] is Some,
{
    lemma_absent_hours(sizes, steps);
}

pub open spec fn expected_error(
    key: Seq<char>,
    what: Seq<char>,
    is: UtcTime,
    want: UtcTime,
) -> Seq<char> {
    key + ": "@ + what + " is "@ + timefmt::iso_text(is) + " but expected "@ + timefmt::iso_text(
        want,
    )
}

fn not_expected(key: &str, what: &str, is: UtcTime, want: UtcTime) -> (r: String)
    requires
        is.valid(),
        want.valid(),
    ensures
        r@ == expected_error(key@, what@, is, want),
{
    let mut e = key.to_owned();
    e.append(": ");
    e.append(what);
    e.append(" is ");
    e.append(timefmt::iso(is).as_str());
    e.append(" but expected ");
    e.append(timefmt::iso(want).as_str());
    e
}

/// What is wrong with the times that a file of the run and step holds itself.
pub open spec fn times_error(
    key: Seq<char>,
    reference: Option<UtcTime>,
    valid: Option<UtcTime>,
    init: UtcTime,
    step: int,
) -> Option<Seq<char>> {
    let want = timefmt::at_step(init, step);
    if reference is Some && reference->0 != init {
        Some(expected_error(key, "forecast_reference_time"@, reference->0, init))
    } else if valid is Some && valid->0 != want {
        Some(expected_error(key, "valid_time"@, valid->0, want))
    } else {
        None
    }
}

/// Sanity check the file's own timestamps against what the key promised.
pub fn check_times(
    key: &str,
    reference: Option<UtcTime>,
    valid: Option<UtcTime>,
    init: UtcTime,
    step_minutes: i64,
) -> (r: Result<(), String>)
    requires
        init.valid(),
        reference matches Some(t) ==> t.valid(),
        valid matches Some(t) ==> t.valid() && timefmt::can_shift(init, step_minutes as int),
    ensures
        match r {
            Ok(_) => times_error(key@, reference, valid, init, step_minutes as int) is None,
            Err(e) => times_error(key@, reference, valid, init, step_minutes as int) == Some(e@),
        },
{
    if let Some(t) = reference {
        if t != init {
            return Err(not_expected(key, "forecast_reference_time", t, init));
        }
    }
    if let Some(t) = valid {
        if let Some(want) = init.plus_minutes(step_minutes) {
            if t != want {
                return Err(not_expected(key, "valid_time", t, want));
            }
        }
    }
    Ok(())
}

/// The variables to fetch, and those of them that the first file lacks.
#[derive(Debug)]
pub struct Selection {
    pub vars: Vec<String>,
    pub absent: Vec<String>,
}

/// The requested variables, or all of the file.
pub open spec fn chosen_vars(vars: Seq<Seq<char>>, present: Seq<Seq<char>>) -> Seq<Seq<char>> {
    if vars.len() == 0 {
        present
    } else {
        vars
    }
}

/// What is wrong with the choice of variables, given those of the first file.
pub open spec fn selection_error(
    first_key: Seq<char>,
    vars: Seq<Seq<char>>,
    present: Seq<Seq<char>>,
    missing_as_nan: bool,
) -> Option<Seq<char>> {
    let chosen = chosen_vars(vars, present);
    let absent = meta::missing_names(present, chosen);
    if chosen.len() == 0 {
        Some(first_key + " contains no array variables"@)
    } else if absent.len() > 0 && !missing_as_nan {
        Some(
            first_key + ": variables not present in file: "@ + text::join(absent, ","@)
                + "\n  (accumulated variables such as precipitation are usually absent at step 0: drop step 0 or pass --missing-as-nan)\n  available: "@
                + text::join(present, ","@),
        )
    } else {
        None
    }
}

/// Choose the variables to fetch, given the names in the first file.
pub fn select_variables(
    first_key: &str,
    vars: &[String],
    present: &[String],
    missing_as_nan: bool,
) -> (r: Result<Selection, String>)
    ensures
        match r {
            Ok(s) => {
                &&& selection_error(
                    first_key@,
                    text::texts(vars@),
                    text::texts(present@),
                    missing_as_nan,
                ) is None
                &&& text::texts(s.vars@) == chosen_vars(text::texts(vars@), text::texts(present@))
                &&& text::texts(s.absent@) == meta::missing_names(
                    text::texts(present@),
                    text::texts(s.vars@),
                )
            },
            Err(e) => selection_error(
                first_key@,
                text::texts(vars@),
                text::texts(present@),
                missing_as_nan,
            ) == Some(e@),
        },
{
    let chosen = if vars.len() == 0 {
        text::copy_texts(present)
    } else {
        text::copy_texts(vars)
    };
    assert(text::texts(chosen@).len() == chosen@.len());
    if chosen.len() == 0 {
        let mut e = first_key.to_owned();
        e.append(" contains no array variables");
        return Err(e);
    }
    let absent = meta::absent_names(present, chosen.as_slice());
    assert(text::texts(absent@).len() == absent@.len());
    if absent.len() > 0 && !missing_as_nan {
        let mut e = first_key.to_owned();
        e.append(": variables not present in file: ");
        text::join_onto(&mut e, absent.as_slice(), ",");
        e.append(
            "\n  (accumulated variables such as precipitation are usually absent at step 0: drop step 0 or pass --missing-as-nan)\n  available: ",
        );
        text::join_onto(&mut e, present, ",");
        return Err(e);
    }
    Ok(Selection { vars: chosen, absent })
}

/// Those of the variables that cover an interval.
pub open spec fn interval_names(vars: Seq<Seq<char>>) -> Seq<Seq<char>>
    decreases vars.len(),
{
    if vars.len() == 0 {
        Seq::empty()
    } else if cf::reduction_of(vars.last()) is Some {
        interval_names(vars.drop_last()).push(vars.last())
    } else {
        interval_names(vars.drop_last())
    }
}

/// The warning that interval variables cover less than the gap between steps.
pub fn subsample_warning(subsampled: bool, vars: &[String]) -> (r: Option<String>)
    ensures
        match r {
            Some(w) => subsampled && interval_names(text::texts(vars@)).len() > 0 && w@
                == "requested steps skip native output times: "@ + text::join(
                interval_names(text::texts(vars@)),
                ","@,
            )
                + " will only cover the last native interval before each step (see time_bnds); pass --accumulate to combine them"@,
            None => !(subsampled && interval_names(text::texts(vars@)).len() > 0),
        },
{
    if !subsampled {
        return None;
    }
    let ghost all = text::texts(vars@);
    let mut out: Vec<String> = Vec::new();
    let mut i: usize = 0;
    assert(all.take(0) == Seq::<Seq<char>>::empty());
    assert(text::texts(out@) == Seq::<Seq<char>>::empty());
    while i < vars.len()
        invariant
            i <= vars.len(),
            all == text::texts(vars@),
            text::texts(out@) == interval_names(all.take(i as int)),
        decreases vars.len() - i,
    {
        let ghost before = out@;
        assert(all.take(i + 1).drop_last() == all.take(i as int));
        if cf::interval_reduction(vars[i].as_str()).is_some() {
            out.push(vars[i].as_str().to_owned());
            assert(text::texts(out@) == text::texts(before).push(all[i as int]));
        }
        i += 1;
    }
    assert(all.take(i as int) == all);
    assert(text::texts(out@).len() == out@.len());
    if out.len() == 0 {
        return None;
    }
    let mut w = "requested steps skip native output times: ".to_owned();
    text::join_onto(&mut w, out.as_slice(), ",");
    w.append(
        " will only cover the last native interval before each step (see time_bnds); pass --accumulate to combine them",
    );
    Some(w)
}

/// Which of the open step files, counted from the first one, a variable is
/// looked up in: in the first one where that has it, and else in `later`, which
/// must be open.
pub fn info_file(
    var: &str,
    first_key: &str,
    present: &[String],
    later: usize,
    open_files: usize,
) -> (r: Result<usize, String>)
    ensures
        match r {
            Ok(f) => if text::texts(present@).contains(var@) {
                f == 0
            } else {
                f == later && later < open_files
            },
            Err(e) => !text::texts(present@).contains(var@) && later >= open_files && e@ == var@
                + " is not present in "@ + first_key@,
        },
{
    if text::holds(present, var) {
        Ok(0)
    } else if later < open_files {
        Ok(later)
    } else {
        let mut e = var.to_owned();
        e.append(" is not present in ");
        e.append(first_key);
        Err(e)
    }
}

/// The error for a variable that none of the `files` step files has, of which
/// there are at least two.
pub open spec fn absent_text(
    var: Seq<char>,
    first_key: Seq<char>,
    last_key: Seq<char>,
    files: int,
    cause: Seq<char>,
) -> Seq<char> {
    if files == 2 {
        var + " is present in neither "@ + first_key + " nor "@ + last_key + ": "@ + cause
    } else {
        var + " is present in none of the "@ + text::dec(files as nat) + " step files from "@
            + first_key + " to "@ + last_key + ": "@ + cause
    }
}

/// The error for a variable that no step file has.
pub fn in_no_file(var: &str, first_key: &str, last_key: &str, files: usize, cause: &str) -> (r:
    String)
    ensures
        r@ == absent_text(var@, first_key@, last_key@, files as int, cause@),
{
    let mut e = var.to_owned();
    if files == 2 {
        e.append(" is present in neither ");
        e.append(first_key);
        e.append(" nor ");
    } else {
        e.append(" is present in none of the ");
        text::push_dec(&mut e, files as u128);
        e.append(" step files from ");
        e.append(first_key);
        e.append(" to ");
    }
    e.append(last_key);
    e.append(": ");
    e.append(cause);
    e
}

/// The variables of the output as far as they have been looked at, all of one shape.
#[derive(Debug)]
pub struct VarList {
    pub specs: Vec<VarSpec>,
    pub dims: Vec<u64>,
}

pub open spec fn is_var_spec(spec: VarSpec, var: Seq<char>, units: Seq<char>) -> bool {
    &&& spec.name@ == var
    &&& spec.om_units@ == units
    &&& spec.reduction == cf::reduction_of(var)
}

pub open spec fn shape_error(
    var: Seq<char>,
    dims: Seq<u64>,
    first: Seq<char>,
    want: Seq<u64>,
) -> Seq<char> {
    "variable "@ + var + " has shape "@ + om::shape_text(dims) + " but "@ + first + " has "@
        + om::shape_text(want)
}

impl VarList {
    /// No variable has been looked at.
    pub fn new() -> (r: Self)
        ensures
            r.specs@.len() == 0,
            r.dims@.len() == 0,
    {
        VarList { specs: Vec::new(), dims: Vec::new() }
    }

    /// Add a variable. The first one decides the shape; the others must have it too.
    pub fn push(&mut self, var: &str, info: VarInfo) -> (r: Result<(), String>)
        ensures
            match r {
                Ok(_) => {
                    &&& old(self).specs@.len() == 0 || old(self).dims@ == info.dims@
                    &&& final(self).dims@ == info.dims@
                    &&& final(self).specs@.len() == old(self).specs@.len() + 1
                    &&& final(self).specs@.drop_last() == old(self).specs@
                    &&& is_var_spec(final(self).specs@.last(), var@, info.units@)
                },
                Err(e) => {
                    &&& old(self).specs@.len() > 0
                    &&& old(self).dims@ != info.dims@
                    &&& *final(self) == *old(self)
                    &&& e@ == shape_error(
                        var@,
                        info.dims@,
                        old(self).specs@[0].name@,
                        old(self).dims@,
                    )
                },
            },
    {
        if self.specs.len() > 0 && !same_dims(self.dims.as_slice(), info.dims.as_slice()) {
            let mut e = "variable ".to_owned();
            e.append(var);
            e.append(" has shape ");
            e.append(om::shape(info.dims.as_slice()).as_str());
            e.append(" but ");
            e.append(self.specs[0].name.as_str());
            e.append(" has ");
            e.append(om::shape(self.dims.as_slice()).as_str());
            return Err(e);
        }
        self.dims = info.dims;
        self.specs.push(
            VarSpec {
                name: var.to_owned(),
                om_units: info.units,
                reduction: cf::interval_reduction(var),
            },
        );
        assert(self.specs@.drop_last() == old(self).specs@);
        Ok(())
    }
}

fn same_dims(a: &[u64], b: &[u64]) -> (r: bool)
    ensures
        r == (a@ == b@),
{
    if a.len() != b.len() {
        return false;
    }
    let mut i: usize = 0;
    while i < a.len()
        invariant
            i <= a.len(),
            a.len() == b.len(),
            forall|k: int| 0 <= k < i ==> a@[k] == b@[k],
        decreases a.len() - i,
    {
        if a[i] != b[i] {
            return false;
        }
        i += 1;
    }
    assert(a@ == b@);
    true
}

pub open spec fn source_text(bucket: Seq<char>, model: Seq<char>, init: UtcTime) -> Seq<char> {
    "Open-Meteo open data, s3://"@ + bucket + "/"@ + SPATIAL_PREFIX@ + "/"@ + model + "/ (model "@
        + model + ", reference time "@ + timefmt::iso_text(init) + ")"@
}

/// The `source` attribute of the output.
pub fn source_attribute(bucket: &str, model: &str, init: UtcTime) -> (r: String)
    requires
        init.valid(),
    ensures
        r@ == source_text(bucket@, model@, init),
{
    let mut out = "Open-Meteo open data, s3://".to_owned();
    out.append(bucket);
    out.append("/");
    out.append(SPATIAL_PREFIX);
    out.append("/");
    out.append(model);
    out.append("/ (model ");
    out.append(model);
    out.append(", reference time ");
    out.append(timefmt::iso(init).as_str());
    out.append(")");
    out
}

/// A variable is read from a source file when it covers an interval, and from
/// the last source, which is the file of the step itself, in any case.
pub open spec fn is_read(var: Seq<char>, source: int, sources: int) -> bool {
    cf::reduction_of(var) is Some || source + 1 == sources
}

/// The indices of those variables that are read from one of the source files of
/// an output step, ascending.
pub fn variables_to_read(vars: &[String], source: usize, sources: usize) -> (r: Vec<usize>)
    requires
        source < sources,
    ensures
        forall|i: int, j: int| 0 <= i < j < r@.len() ==> r@[i] < r@[j],
        forall|k: usize| #[trigger]
            r@.contains(k) <==> k < vars@.len() && is_read(
                vars@[k as int]@,
                source as int,
                sources as int,
            ),
{
    let is_last = source + 1 == sources;
    let mut out: Vec<usize> = Vec::new();
    let mut i: usize = 0;
    while i < vars.len()
        invariant
            i <= vars.len(),
            is_last == (source + 1 == sources),
            forall|a: int, b: int| 0 <= a < b < out@.len() ==> out@[a] < out@[b],
            forall|a: int| 0 <= a < out@.len() ==> out@[a] < i,
            forall|k: usize| #[trigger]
                out@.contains(k) <==> k < i && is_read(
                    vars@[k as int]@,
                    source as int,
                    sources as int,
                ),
        decreases vars.len() - i,
    {
        let ghost before = out@;
        if is_last || cf::interval_reduction(vars[i].as_str()).is_some() {
            out.push(i);
            proof {
                assert forall|k: usize| #[trigger] out@.contains(k) <==> (before.contains(k) || k
                    == i) by {
                    if before.contains(k) {
                        let a = choose|a: int| 0 <= a < before.len() && before[a] == k;
                        assert(out@[a] == k);
                    }
                    assert(out@[before.len() as int] == i);
                    if out@.contains(k) && k != i {
                        let a = choose|a: int| 0 <= a < out@.len() && out@[a] == k;
                        assert(before[a] == k);
                    }
                }
            }
        }
        i += 1;
    }
    out
}

/// What is combined was read: a variable that covers an interval from every
/// source of the output step, and any variable from the last one.
pub proof fn law_what_is_combined_was_read(var: Seq<char>, sources: int)
    requires
        sources > 0,
    ensures
        is_read(var, sources - 1, sources),
        cf::reduction_of(var) is Some ==> forall|i: int|
            0 <= i < sources ==> #[trigger] is_read(var, i, sources),
        cf::reduction_of(var) is None ==> forall|i: int|
            0 <= i < sources - 1 ==> !#[trigger] is_read(var, i, sources),
{
}

/// What to do for one slab of one file.
#[derive(Debug, Clone, Copy, PartialEq, Eq, Structural)]
pub enum SlabAction {
    Read,
    FillMissing,
}

/// One slab from one file: a variable that the file lacks is filled on request only.
pub fn slab_action(key: &str, var: &str, present: bool, missing_as_nan: bool) -> (r: Result<
    SlabAction,
    String,
>)
    ensures
        match r {
            Ok(SlabAction::Read) => present,
            Ok(SlabAction::FillMissing) => !present && missing_as_nan,
            Err(e) => !present && !missing_as_nan && e@ == key@ + ": variable "@ + var@
                + " not present in file (pass --missing-as-nan to fill)"@,
        },
{
    if present {
        Ok(SlabAction::Read)
    } else if missing_as_nan {
        Ok(SlabAction::FillMissing)
    } else {
        let mut e = key.to_owned();
        e.append(": variable ");
        e.append(var);
        e.append(" not present in file (pass --missing-as-nan to fill)");
        Err(e)
    }
}

/// How the slab of one source file enters the combined slab.
#[derive(Debug, Clone, Copy, PartialEq, Eq, Structural)]
pub enum Fold {
    /// Take the slab as it is, in place of what there was.
    Keep,
    /// Start with the slab times the duration.
    KeepWeighted(i64),
    /// Add the slab.
    Add,
    /// Add the slab times the duration.
    AddWeighted(i64),
    /// Take the larger value.
    Larger,
    /// Take the smaller value.
    Smaller,
}

/// The length of the native intervals of the sources together.
pub open spec fn total_minutes(sources: Seq<SourceStep>) -> int {
    plan::total_duration(plan::pairs(sources))
}

/// The slabs are weighted by duration: several of them make up a mean, and
/// there are durations to weight by.
pub open spec fn is_weighted(reduction: Reduction, sources: Seq<SourceStep>) -> bool {
    reduction == Reduction::Mean && sources.len() > 1 && total_minutes(sources) > 0
}

/// How the slab of the source `i` enters the combined slab. A mean that is not
/// weighted is the slab of the last source, which is the file of the step itself.
pub open spec fn fold_of(reduction: Reduction, sources: Seq<SourceStep>, i: int) -> Fold {
    match reduction {
        Reduction::Sum => if i == 0 {
            Fold::Keep
        } else {
            Fold::Add
        },
        Reduction::Mean => if !is_weighted(reduction, sources) {
            Fold::Keep
        } else if i == 0 {
            Fold::KeepWeighted(sources[i].duration)
        } else {
            Fold::AddWeighted(sources[i].duration)
        },
        Reduction::Maximum => if i == 0 {
            Fold::Keep
        } else {
            Fold::Larger
        },
        Reduction::Minimum => if i == 0 {
            Fold::Keep
        } else {
            Fold::Smaller
        },
    }
}

/// A combined mean is divided by the sum of the durations, where it is weighted by them.
pub fn divides_by_total(reduction: Reduction, sources: &[SourceStep]) -> (r: bool)
    ensures
        r == is_weighted(reduction, sources@),
{
    let mut total: i128 = 0;
    let mut i: usize = 0;
    let ghost all = plan::pairs(sources@);
    assert(all.take(0) == Seq::<(int, int)>::empty());
    while i < sources.len()
        invariant
            i <= sources.len(),
            all == plan::pairs(sources@),
            total == plan::total_duration(all.take(i as int)),
            -i * 0x8000_0000_0000_0000 <= total <= i * 0x8000_0000_0000_0000,
        decreases sources.len() - i,
    {
        assert(all.take(i + 1).drop_last() == all.take(i as int));
        total = total + sources[i].duration as i128;
        i += 1;
    }
    assert(all.take(i as int) == all);
    reduction == Reduction::Mean && sources.len() > 1 && total > 0
}

/// How the slabs of the sources of an output step are combined, in order.
pub fn combine_plan(reduction: Reduction, sources: &[SourceStep]) -> (r: Vec<Fold>)
    ensures
        r@.len() == sources@.len(),
        forall|i: int| 0 <= i < r@.len() ==> #[trigger] r@[i] == fold_of(reduction, sources@, i),
{
    let weighted = divides_by_total(reduction, sources);
    let mut out: Vec<Fold> = Vec::new();
    let mut i: usize = 0;
    while i < sources.len()
        invariant
            i <= sources.len(),
            weighted == is_weighted(reduction, sources@),
            out@.len() == i,
            forall|k: int| 0 <= k < i ==> #[trigger] out@[k] == fold_of(reduction, sources@, k),
        decreases sources.len() - i,
    {
        let d: i64 = sources[i].duration;
        let f = match reduction {
            Reduction::Sum => if i == 0 {
                Fold::Keep
            } else {
                Fold::Add
            },
            Reduction::Mean => if !weighted {
                Fold::Keep
            } else if i == 0 {
                Fold::KeepWeighted(d)
            } else {
                Fold::AddWeighted(d)
            },
            Reduction::Maximum => if i == 0 {
                Fold::Keep
            } else {
                Fold::Larger
            },
            Reduction::Minimum => if i == 0 {
                Fold::Keep
            } else {
                Fold::Smaller
            },
        };
        out.push(f);
        i += 1;
    }
    out
}

/// The slabs are combined as planned.
pub open spec fn is_combined(
    reduction: Reduction,
    sources: Seq<SourceStep>,
    folds: Seq<Fold>,
) -> bool {
    &&& folds.len() == sources.len()
    &&& forall|i: int|
        0 <= i < folds.len() ==> #[trigger] folds[i] == fold_of(reduction, sources, i)
}

/// What the slab of a source is multiplied with.
pub open spec fn weight(fold: Fold) -> int {
    match fold {
        Fold::KeepWeighted(d) => d as int,
        Fold::AddWeighted(d) => d as int,
        _ => 1,
    }
}

/// What the combined slab is divided by.
pub open spec fn divisor(reduction: Reduction, sources: Seq<SourceStep>) -> int {
    if is_weighted(reduction, sources) {
        total_minutes(sources)
    } else {
        1
    }
}

/// In a mean each source has the share of its duration in all durations.
pub proof fn law_mean_is_weighted_by_duration(
    sources: Seq<SourceStep>,
    folds: Seq<Fold>,
    i: int,
)
    requires
        is_combined(Reduction::Mean, sources, folds),
        total_minutes(sources) > 0,
        0 <= i < sources.len(),
    ensures
        weight(folds[i]) * total_minutes(sources) == sources[i].duration * divisor(
            Reduction::Mean,
            sources,
        ),
{
    assert(folds[i] == fold_of(Reduction::Mean, sources, i));
    if sources.len() == 1 {
        let p = plan::pairs(sources);
        assert(p.drop_last() == Seq::<(int, int)>::empty());
        assert(plan::total_duration(p.drop_last()) == 0);
        assert(total_minutes(sources) == sources[0].duration);
    }
}

/// A step that reads a single file keeps the values of the file, whatever
/// interval the file covers.
pub proof fn law_a_single_file_is_kept(
    reduction: Reduction,
    sources: Seq<SourceStep>,
    folds: Seq<Fold>,
)
    requires
        is_combined(reduction, sources, folds),
        sources.len() == 1,
    ensures
        folds == seq![Fold::Keep],
        divisor(reduction, sources) == 1,
{
    assert(folds[0] == fold_of(reduction, sources, 0));
}

/// A mean of files that cover no time is the file of the step itself.
pub proof fn law_a_mean_over_no_time_is_the_last_file(sources: Seq<SourceStep>, folds: Seq<Fold>)
    requires
        is_combined(Reduction::Mean, sources, folds),
        sources.len() > 0,
        total_minutes(sources) == 0,
    ensures
        folds.last() == Fold::Keep,
        divisor(Reduction::Mean, sources) == 1,
{
    assert(folds[folds.len() - 1] == fold_of(Reduction::Mean, sources, folds.len() - 1));
}

/// What the slabs come to in one cell, where the slab of each source holds the
/// given value there: the folds are carried out in order.
pub open spec fn folded(folds: Seq<Fold>, values: Seq<int>) -> int
    decreases folds.len(),
{
    if folds.len() == 0 {
        0
    } else {
        let x = values[folds.len() - 1];
        let so_far = folded(folds.drop_last(), values);
        match folds.last() {
            Fold::Keep => x,
            Fold::KeepWeighted(d) => x * d,
            Fold::Add => so_far + x,
            Fold::AddWeighted(d) => so_far + x * d,
            Fold::Larger => if so_far >= x {
                so_far
            } else {
                x
            },
            Fold::Smaller => if so_far <= x {
                so_far
            } else {
                x
            },
        }
    }
}

pub open spec fn sum(values: Seq<int>) -> int {
    values.fold_left(0, |a: int, b: int| a + b)
}

proof fn lemma_sum_push(values: Seq<int>, x: int)
    ensures
        sum(values.push(x)) == sum(values) + x,
        sum(Seq::empty()) == 0,
{
    assert(values.push(x).drop_last() == values);
}

proof fn lemma_folds_drop(reduction: Reduction, sources: Seq<SourceStep>, folds: Seq<Fold>, n: int)
    requires
        is_combined(reduction, sources, folds),
        0 < n <= folds.len(),
    ensures
        folds.take(n).last() == fold_of(reduction, sources, n - 1),
        folds.take(n).drop_last() == folds.take(n - 1),
{
    assert(folds[n - 1] == fold_of(reduction, sources, n - 1));
}

proof fn lemma_added(sources: Seq<SourceStep>, folds: Seq<Fold>, values: Seq<int>, n: int)
    requires
        is_combined(Reduction::Sum, sources, folds),
        values.len() == sources.len(),
        0 <= n <= folds.len(),
    ensures
        folded(folds.take(n), values) == sum(values.take(n)),
    decreases n,
{
    lemma_sum_push(Seq::empty(), 0);
    if n > 0 {
        lemma_folds_drop(Reduction::Sum, sources, folds, n);
        lemma_added(sources, folds, values, n - 1);
        lemma_sum_push(values.take(n - 1), values[n - 1]);
        assert(values.take(n) == values.take(n - 1).push(values[n - 1]));
    } else {
        assert(values.take(0) == Seq::<int>::empty());
    }
}

/// An amount is the sum of the amounts of all sources, whatever they cover.
pub proof fn law_amounts_add_up(sources: Seq<SourceStep>, folds: Seq<Fold>, values: Seq<int>)
    requires
        is_combined(Reduction::Sum, sources, folds),
        values.len() == sources.len(),
    ensures
        folded(folds, values) == sum(values),
        !is_weighted(Reduction::Sum, sources),
{
    lemma_added(sources, folds, values, folds.len() as int);
    assert(folds.take(folds.len() as int) == folds);
    assert(values.take(folds.len() as int) == values);
}

proof fn lemma_extreme(
    sources: Seq<SourceStep>,
    folds: Seq<Fold>,
    values: Seq<int>,
    n: int,
    largest: bool,
)
    requires
        is_combined(
            if largest {
                Reduction::Maximum
            } else {
                Reduction::Minimum
            },
            sources,
            folds,
        ),
        values.len() == sources.len(),
        0 < n <= folds.len(),
    ensures
        exists|k: int| 0 <= k < n && #[trigger] values[k] == folded(folds.take(n), values),
        forall|k: int|
            0 <= k < n ==> if largest {
                #[trigger] values[k] <= folded(folds.take(n), values)
            } else {
                values[k] >= folded(folds.take(n), values)
            },
    decreases n,
{
    let r = if largest {
        Reduction::Maximum
    } else {
        Reduction::Minimum
    };
    lemma_folds_drop(r, sources, folds, n);
    let v = folded(folds.take(n), values);
    if n > 1 {
        lemma_extreme(sources, folds, values, n - 1, largest);
        let was = folded(folds.take(n - 1), values);
        let k = choose|k: int| 0 <= k < n - 1 && #[trigger] values[k] == was;
        if v == was {
            assert(values[k] == v);
        } else {
            assert(values[n - 1] == v);
        }
    } else {
        assert(values[0] == v);
    }
}

/// A maximum is the largest of the values of all sources.
pub proof fn law_maxima_are_the_largest(
    sources: Seq<SourceStep>,
    folds: Seq<Fold>,
    values: Seq<int>,
)
    requires
        is_combined(Reduction::Maximum, sources, folds),
        values.len() == sources.len(),
        sources.len() > 0,
    ensures
        values.contains(folded(folds, values)),
        forall|k: int| 0 <= k < values.len() ==> #[trigger] values[k] <= folded(folds, values),
        !is_weighted(Reduction::Maximum, sources),
{
    assert(folds.take(folds.len() as int) == folds);
    lemma_extreme(sources, folds, values, folds.len() as int, true);
}

/// A minimum is the smallest of the values of all sources.
pub proof fn law_minima_are_the_smallest(
    sources: Seq<SourceStep>,
    folds: Seq<Fold>,
    values: Seq<int>,
)
    requires
        is_combined(Reduction::Minimum, sources, folds),
        values.len() == sources.len(),
        sources.len() > 0,
    ensures
        values.contains(folded(folds, values)),
        forall|k: int| 0 <= k < values.len() ==> #[trigger] values[k] >= folded(folds, values),
        !is_weighted(Reduction::Minimum, sources),
{
    assert(folds.take(folds.len() as int) == folds);
    lemma_extreme(sources, folds, values, folds.len() as int, false);
}

/// The durations of the sources.
pub open spec fn lengths(sources: Seq<SourceStep>) -> Seq<int> {
    Seq::new(sources.len(), |i: int| sources[i].duration as int)
}

/// Each value times the duration of its source.
pub open spec fn weighted(sources: Seq<SourceStep>, values: Seq<int>) -> Seq<int> {
    Seq::new(sources.len(), |i: int| values[i] * sources[i].duration)
}

proof fn lemma_total_is_the_sum(sources: Seq<SourceStep>, n: int)
    requires
        0 <= n <= sources.len(),
    ensures
        plan::total_duration(plan::pairs(sources).take(n)) == sum(lengths(sources).take(n)),
    decreases n,
{
    let p = plan::pairs(sources);
    let l = lengths(sources);
    lemma_sum_push(Seq::empty(), 0);
    if n > 0 {
        lemma_total_is_the_sum(sources, n - 1);
        assert(p.take(n).drop_last() == p.take(n - 1));
        lemma_sum_push(l.take(n - 1), l[n - 1]);
        assert(l.take(n) == l.take(n - 1).push(l[n - 1]));
    } else {
        assert(l.take(0) == Seq::<int>::empty());
    }
}

proof fn lemma_weighted_sum(sources: Seq<SourceStep>, folds: Seq<Fold>, values: Seq<int>, n: int)
    requires
        is_combined(Reduction::Mean, sources, folds),
        is_weighted(Reduction::Mean, sources),
        values.len() == sources.len(),
        0 <= n <= folds.len(),
    ensures
        folded(folds.take(n), values) == sum(weighted(sources, values).take(n)),
    decreases n,
{
    let w = weighted(sources, values);
    lemma_sum_push(Seq::empty(), 0);
    if n > 0 {
        lemma_folds_drop(Reduction::Mean, sources, folds, n);
        lemma_weighted_sum(sources, folds, values, n - 1);
        lemma_sum_push(w.take(n - 1), w[n - 1]);
        assert(w.take(n) == w.take(n - 1).push(w[n - 1]));
    } else {
        assert(w.take(0) == Seq::<int>::empty());
    }
}

/// A mean is the duration-weighted mean of the values of all sources. Without
/// fractions: what the folds come to, divided by the sum of the durations where it
/// is to be, is the sum of value times duration over the sum of the durations.
/// `divides` is what `divides_by_total` gives.
pub proof fn law_means_are_duration_weighted(
    sources: Seq<SourceStep>,
    folds: Seq<Fold>,
    values: Seq<int>,
    divides: bool,
)
    requires
        is_combined(Reduction::Mean, sources, folds),
        divides == is_weighted(Reduction::Mean, sources),
        values.len() == sources.len(),
        sum(lengths(sources)) > 0,
    ensures
        ({
            let time = sum(lengths(sources));
            folded(folds, values) * time == sum(weighted(sources, values)) * (if divides {
                time
            } else {
                1
            })
        }),
{
    let n = sources.len() as int;
    let l = lengths(sources);
    let w = weighted(sources, values);
    lemma_total_is_the_sum(sources, n);
    assert(plan::pairs(sources).take(n) == plan::pairs(sources));
    assert(l.take(n) == l);
    assert(folds.take(n) == folds);
    assert(w.take(n) == w);
    lemma_sum_push(Seq::empty(), 0);
    if n == 0 {
        assert(l == Seq::<int>::empty());
    } else if n == 1 {
        lemma_folds_drop(Reduction::Mean, sources, folds, 1);
        lemma_sum_push(Seq::empty(), l[0]);
        lemma_sum_push(Seq::empty(), w[0]);
        assert(l == Seq::<int>::empty().push(l[0]));
        assert(w == Seq::<int>::empty().push(w[0]));
        assert(folded(folds, values) == values[0]);
    } else {
        lemma_weighted_sum(sources, folds, values, n);
    }
}

/// Pick the values at the given positions.
pub fn gather<T: Copy>(src: &[T], map: &[u32]) -> (r: Vec<T>)
    requires
        forall|k: int| 0 <= k < map@.len() ==> (#[trigger] map@[k]) < src@.len(),
    ensures
        r@.len() == map@.len(),
        forall|k: int| 0 <= k < map@.len() ==> #[trigger] r@[k] == src@[map@[k] as int],
{
    let mut out: Vec<T> = Vec::new();
    let mut i: usize = 0;
    while i < map.len()
        invariant
            i <= map.len(),
            forall|k: int| 0 <= k < map@.len() ==> (#[trigger] map@[k]) < src@.len(),
            out@.len() == i,
            forall|k: int| 0 <= k < i ==> #[trigger] out@[k] == src@[map@[k] as int],
        decreases map.len() - i,
    {
        assert(map@[i as int] < src@.len());
        out.push(src[map[i] as usize]);
        i += 1;
    }
    out
}

/// With accumulation the files of each step after init cover the whole gap
/// since the step before it, or since init: their native intervals lie one
/// behind the other, the last file is that of the step itself, and their
/// lengths add up to the length of the gap.
pub proof fn law_accumulated_steps_cover_the_gaps(x: Resolved, i: int)
    requires
        x.is_planned(true),
        x.steps_are_provided(),
        x.available is Some,
        order::ascending(x.steps@),
        0 <= i < x.steps@.len(),
        x.steps@[0] >= 0,
        x.steps@[i] > 0,
    ensures
        ({
            let out = x.plan.outputs@[i];
            let src = plan::pairs(out.sources@);
            &&& out.step == x.steps@[i]
            &&& out.interval == (if i == 0 {
                0i64
            } else {
                x.steps@[i - 1]
            }, x.steps@[i])
            &&& src.len() > 0
            &&& src.last().0 == out.step
            &&& plan::tiles(src, out.interval.0 as int)
            &&& plan::total_duration(src) == out.interval.1 - out.interval.0
        }),
{
    let av = x.native_times()->0;
    let out = x.plan.outputs@[i];
    assert(out.step == x.steps@[i]);
    if i > 0 {
        assert(x.steps@[i - 1] < x.steps@[i]);
        if i - 1 > 0 {
            assert(x.steps@[0] < x.steps@[i - 1]);
        }
    }
    plan::law_accumulated_files_cover_interval(x.steps@, av, i);
}

/// A run that is still being written is refused, unless it may be incomplete.
pub proof fn law_incomplete_runs_need_permission(status: ModelStatus, req: FetchRequest)
    requires
        chosen_init(status, req.init) matches Ok(init) && status.run_kind(init) == Ok::<
            _,
            Seq<char>,
        >(Some(RunKind::InProgress)),
        status.in_progress matches Some(m) && !m.completed,
        !req.allow_incomplete,
    ensures
        resolution(status, req) is Err,
{
}

/// The status file describes the run with the given reference time.
pub open spec fn is_file_of(file: Option<RunMeta>, init: UtcTime) -> bool {
    file matches Some(m) && m.reference() == Ok::<_, Seq<char>>(init)
}

/// A request names a run, steps and variables, and gets these and no others:
/// `latest.json` names the run where the request names none.
pub proof fn law_what_is_named_is_fetched(status: ModelStatus, req: FetchRequest, x: Resolved)
    requires
        resolution(status, req) == Ok::<_, Seq<char>>(x.as_resolution()),
    ensures
        match req.init {
            Some(t) => x.init == t,
            None => is_file_of(status.latest, x.init),
        },
        req.steps_minutes matches Some(v) ==> x.steps@ == v@,
        req.vars@.len() > 0 ==> text::texts(x.vars@) == text::texts(req.vars@),
        x.steps@.len() > 0,
{
}

/// A request that leaves out the variables or the steps gets all of the run, as
/// far as a status file describes it; the native times are then those of the file.
/// `latest.json` comes before `in-progress.json`.
pub proof fn law_what_is_left_out_comes_from_the_run(
    status: ModelStatus,
    req: FetchRequest,
    x: Resolved,
    m: RunMeta,
)
    requires
        resolution(status, req) == Ok::<_, Seq<char>>(x.as_resolution()),
        x.lists_times_of(status),
        status.latest == Some(m) || (status.in_progress == Some(m) && !is_file_of(
            status.latest,
            x.init,
        )),
        is_file_of(Some(m), x.init),
    ensures
        req.vars@.len() == 0 ==> text::texts(x.vars@) == text::texts(m.variables@),
        x.available matches Some(av) && order::ascending(av@) && (m.listed_minutes() matches Ok(l)
            && forall|v: i64| #[trigger] av@.contains(v) <==> l.contains(v as int)),
        req.steps_minutes is None ==> Some(x.steps@) == x.native_times(),
        forall|i: int|
            0 <= i < x.steps@.len() ==> x.native_times()->0.contains(#[trigger] x.steps@[i]),
        forall|i: int|
            0 <= i < req.vars@.len() ==> text::texts(m.variables@).contains(
                #[trigger] req.vars@[i]@,
            ),
        status.latest != Some(m) ==> m.completed || req.allow_incomplete,
{
    let kind = status.run_kind(x.init)->Ok_0->0;
    let names = text::texts(req.vars@);
    assert(status.file(kind) == Some(m));
    meta::law_request_passes_iff_listed(m, x.steps@, names);
    let l = m.listed_minutes()->Ok_0;
    let av = x.native_times()->0;
    assert forall|v: i64| #[trigger] av.contains(v) <==> l.contains(v as int) by {
        order::lemma_values_contains(av, v);
    }
    assert forall|i: int| 0 <= i < x.steps@.len() implies av.contains(#[trigger] x.steps@[i]) by {
        assert(l.contains(x.steps@[i] as int));
    }
    assert forall|i: int| 0 <= i < req.vars@.len() implies text::texts(m.variables@).contains(
        #[trigger] req.vars@[i]@,
    ) by {
        assert(names[i] == req.vars@[i]@);
    }
}

/// Of a run that no status file describes, the steps must be named, nothing is
/// known of its native times, and so nothing can be accumulated.
pub proof fn law_older_runs(status: ModelStatus, req: FetchRequest, x: Resolved)
    requires
        resolution(status, req) == Ok::<_, Seq<char>>(x.as_resolution()),
        !is_file_of(status.latest, x.init),
        !is_file_of(status.in_progress, x.init),
    ensures
        req.steps_minutes is Some,
        x.available is None,
        !req.accumulate,
        text::texts(x.vars@) == text::texts(req.vars@),
{
}

/// A request for steps and variables that the latest run lists is not refused.
pub proof fn law_listed_requests_are_resolved(
    status: ModelStatus,
    req: FetchRequest,
    m: RunMeta,
    init: UtcTime,
)
    requires
        status.latest == Some(m),
        is_file_of(Some(m), init),
        req.init is None || req.init == Some(init),
        m.listed_minutes() is Ok,
        req.steps_minutes matches Some(v) && v@.len() > 0 && forall|i: int|
            0 <= i < v@.len() ==> m.listed_minutes()->Ok_0.contains(#[trigger] v@[i] as int),
        forall|i: int|
            0 <= i < req.vars@.len() ==> text::texts(m.variables@).contains(
                #[trigger] req.vars@[i]@,
            ),
    ensures
        resolution(status, req) is Ok,
{
    let steps = req.steps_minutes->0@;
    let names = text::texts(req.vars@);
    assert forall|k: int| 0 <= k < names.len() implies text::texts(m.variables@).contains(
        #[trigger] names[k],
    ) by {
        assert(names[k] == req.vars@[k]@);
    }
    meta::law_request_passes_iff_listed(m, steps, names);
}

/// Named steps of a run that no status file describes are not refused, unless
/// they are to be accumulated.
pub proof fn law_older_runs_are_resolved(status: ModelStatus, req: FetchRequest, init: UtcTime)
    requires
        req.init == Some(init),
        status.latest matches Some(m) ==> m.reference() is Ok && m.reference()->Ok_0 != init,
        status.in_progress matches Some(m) ==> m.reference() is Ok && m.reference()->Ok_0 != init,
        req.steps_minutes matches Some(v) && v@.len() > 0,
        !req.accumulate,
    ensures
        resolution(status, req) is Ok,
{
}

/// The files that are reported missing are those without a size, by the hours of
/// their steps and in their order.
pub proof fn law_missing_files_are_named(sizes: Seq<Option<u64>>, steps: Seq<i64>, k: int)
    requires
        sizes.len() == steps.len(),
        0 <= k < absent_hours(sizes, steps).len(),
    ensures
        exists|i: int|
            k <= i < sizes.len() && #[trigger] sizes[i] is None && absent_hours(sizes, steps)[k]
                == steps::hours_text(steps[i] as int) && absent_hours(sizes.take(i), steps).len()
                == k,
    decreases sizes.len(),
{
    lemma_missing_file(sizes, steps, k);
}

proof fn lemma_missing_file(sizes: Seq<Option<u64>>, steps: Seq<i64>, k: int)
    requires
        sizes.len() <= steps.len(),
        0 <= k < absent_hours(sizes, steps).len(),
    ensures
        exists|i: int|
            k <= i < sizes.len() && #[trigger] sizes[i] is None && absent_hours(sizes, steps)[k]
                == steps::hours_text(steps[i] as int) && absent_hours(sizes.take(i), steps).len()
                == k,
    decreases sizes.len(),
{
    let n = sizes.len() - 1;
    let rest = sizes.drop_last();
    assert(sizes.take(n) == rest);
    lemma_absent_count(rest, steps);
    if k < absent_hours(rest, steps).len() {
        lemma_missing_file(rest, steps, k);
        let i = choose|i: int|
            k <= i < rest.len() && #[trigger] rest[i] is None && absent_hours(rest, steps)[k]
                == steps::hours_text(steps[i] as int) && absent_hours(rest.take(i), steps).len()
                == k;
        assert(sizes[i] is None);
        assert(rest.take(i) == sizes.take(i));
    } else {
        assert(sizes[n] is None);
    }
}

proof fn lemma_absent_count(sizes: Seq<Option<u64>>, steps: Seq<i64>)
    ensures
        absent_hours(sizes, steps).len() <= sizes.len(),
    decreases sizes.len(),
{
    if sizes.len() > 0 {
        lemma_absent_count(sizes.drop_last(), steps);
    }
}

/// The size of all files is that of some of them and that of the others.
pub proof fn law_sizes_add_up(a: Seq<Option<u64>>, b: Seq<Option<u64>>)
    ensures
        total_size(a + b) == total_size(a) + total_size(b),
        forall|n: u64| #[trigger] total_size(seq![Some(n)]) == n,
        total_size(seq![None]) == 0,
    decreases b.len(),
{
    assert forall|n: u64| #[trigger] total_size(seq![Some(n)]) == n by {
        assert(seq![Some(n)].drop_last() == Seq::<Option<u64>>::empty());
        assert(total_size(Seq::<Option<u64>>::empty()) == 0);
    }
    assert(seq![None::<u64>].drop_last() == Seq::<Option<u64>>::empty());
    assert(total_size(Seq::<Option<u64>>::empty()) == 0);
    assert(total_size(seq![None::<u64>]) == 0);
    if b.len() == 0 {
        assert(a + b == a);
    } else {
        assert((a + b).drop_last() == a + b.drop_last());
        assert((a + b).last() == b.last());
        law_sizes_add_up(a, b.drop_last());
    }
}

/// The times of a file pass exactly when it is of the run, and of the step: its
/// valid time lies as many minutes behind the reference time. Times that the file
/// does not hold are not looked at.
pub proof fn law_times_pass_iff_they_fit(
    key: Seq<char>,
    reference: Option<UtcTime>,
    valid: Option<UtcTime>,
    init: UtcTime,
    step: int,
)
    requires
        init.valid(),
        init.nanos < 1_000_000_000,
        timefmt::can_shift(init, step),
    ensures
        times_error(key, reference, valid, init, step) is None <==> (reference matches Some(t)
            ==> t == init) && (valid matches Some(t) ==> t.nanos == init.nanos && t.secs
            == init.secs + 60 * step),
{
    timefmt::lemma_at_step_valid(init, step);
}

/// Which variables are fetched: the requested ones, or all of the first file. It
/// is an error only that there are none, or that the first file lacks one of them
/// and that is not to be filled.
pub proof fn law_selection(
    key: Seq<char>,
    vars: Seq<Seq<char>>,
    present: Seq<Seq<char>>,
    missing_as_nan: bool,
)
    ensures
        vars.len() > 0 ==> chosen_vars(vars, present) == vars,
        vars.len() == 0 ==> chosen_vars(vars, present) == present,
        vars.len() > 0 ==> (selection_error(key, vars, present, missing_as_nan) is None
            <==> missing_as_nan || forall|k: int|
            0 <= k < vars.len() ==> present.contains(#[trigger] vars[k])),
        vars.len() == 0 ==> (selection_error(key, vars, present, missing_as_nan) is None
            <==> present.len() > 0),
{
    meta::law_missing_names(present, vars);
    meta::law_missing_names(present, present);
    assert forall|k: int| 0 <= k < present.len() implies present.contains(#[trigger] present[k]) by {}
}

/// A warning names exactly the requested variables that cover an interval.
pub proof fn law_interval_names(vars: Seq<Seq<char>>, v: Seq<char>)
    ensures
        interval_names(vars).contains(v) <==> vars.contains(v) && cf::reduction_of(v) is Some,
        interval_names(vars).len() <= vars.len(),
    decreases vars.len(),
{
    if vars.len() > 0 {
        let rest = vars.drop_last();
        law_interval_names(rest, v);
        let was = interval_names(rest);
        let now = interval_names(vars);
        if vars.contains(v) {
            let k = choose|k: int| 0 <= k < vars.len() && vars[k] == v;
            if k < rest.len() {
                assert(rest[k] == v);
            }
        }
        if rest.contains(v) {
            let k = choose|k: int| 0 <= k < rest.len() && rest[k] == v;
            assert(vars[k] == v);
        }
        assert(vars[vars.len() - 1] == vars.last());
        if was.contains(v) {
            let k = choose|k: int| 0 <= k < was.len() && was[k] == v;
            assert(now[k] == v);
        }
        if cf::reduction_of(vars.last()) is Some {
            assert(now[now.len() - 1] == vars.last());
        }
        if now.contains(v) {
            let k = choose|k: int| 0 <= k < now.len() && now[k] == v;
            if k < was.len() {
                assert(was[k] == v);
            }
        }
    }
}

} // verus!
