//! `latest.json` and `in-progress.json`, and request validation.
use crate::order;
use crate::plan;
use crate::steps;
use crate::store::SPATIAL_PREFIX;
use crate::text;
use crate::timefmt;
use crate::timefmt::UtcTime;
use vstd::prelude::*;
use vstd::slice::slice_subrange;
use vstd::string::*;

verus! {

/// One model run as described by `latest.json` or `in-progress.json`.
#[derive(Debug, Clone)]
pub struct RunMeta {
    pub completed: bool,
    pub reference_time: String,
    pub valid_times: Vec<String>,
    pub variables: Vec<String>,
    pub crs_wkt: Option<String>,
    pub last_modified_time: Option<String>,
}

/// The minutes from `init` to each of the times, or what is wrong with the
/// first one that is no time.
pub open spec fn minutes_list(init: UtcTime, times: Seq<Seq<char>>) -> Result<Seq<int>, Seq<char>>
    decreases times.len(),
{
    if times.len() == 0 {
        Ok(Seq::empty())
    } else {
        match minutes_list(init, times.drop_last()) {
            Ok(v) => match timefmt::utc_of(times.last()) {
                Some(t) => Ok(v.push(timefmt::minutes_from(init, t))),
                None => Err(timefmt::json_time_error(times.last())),
            },
            Err(e) => Err(e),
        }
    }
}

/// A bad time stays the reason whatever follows.
proof fn lemma_first_bad_time(init: UtcTime, times: Seq<Seq<char>>, n: int, e: Seq<char>)
    requires
        0 <= n <= times.len(),
        minutes_list(init, times.take(n)) == Err::<Seq<int>, _>(e),
    ensures
        minutes_list(init, times) == Err::<Seq<int>, _>(e),
    decreases times.len() - n,
{
    if n == times.len() {
        assert(times.take(n) == times);
    } else {
        assert(times.take(n + 1).drop_last() == times.take(n));
        lemma_first_bad_time(init, times, n + 1, e);
    }
}

impl RunMeta {
    /// The reference time, or what is wrong with it.
    pub open spec fn reference(self) -> Result<UtcTime, Seq<char>> {
        match timefmt::utc_of(self.reference_time@) {
            Some(t) => Ok(t),
            None => Err(timefmt::json_time_error(self.reference_time@)),
        }
    }

    /// The steps of the valid times in the order in which they are listed, or
    /// what is wrong with the first bad time.
    pub open spec fn listed_minutes(self) -> Result<Seq<int>, Seq<char>> {
        match self.reference() {
            Ok(init) => minutes_list(init, text::texts(self.valid_times@)),
            Err(e) => Err(e),
        }
    }

    pub fn reference_time(&self) -> (r: Result<UtcTime, String>)
        ensures
            match r {
                Ok(t) => self.reference() == Ok::<_, Seq<char>>(t) && t.valid(),
                Err(e) => self.reference() == Err::<UtcTime, _>(e@),
            },
    {
        timefmt::parse_json_time(self.reference_time.as_str())
    }

    /// Available steps in minutes since the reference time, sorted.
    pub fn steps_minutes(&self) -> (r: Result<Vec<i64>, String>)
        ensures
            match r {
                Ok(v) => self.listed_minutes() matches Ok(l) && order::is_sorted_set(v@, l)
                    && plan::within(v@, timefmt::MAX_MINUTES as int),
                Err(e) => self.listed_minutes() == Err::<Seq<int>, _>(e@),
            },
    {
        let init = match self.reference_time() {
            Ok(t) => t,
            Err(e) => {
                return Err(e);
            },
        };
        let ghost times = text::texts(self.valid_times@);
        let mut out: Vec<i64> = Vec::new();
        let mut i: usize = 0;
        assert(times.take(0) == Seq::<Seq<char>>::empty());
        assert(order::values(out@) == Seq::<int>::empty());
        while i < self.valid_times.len()
            invariant
                i <= self.valid_times.len(),
                times == text::texts(self.valid_times@),
                init.valid(),
                plan::within(out@, timefmt::MAX_MINUTES as int),
                self.reference() == Ok::<_, Seq<char>>(init),
                minutes_list(init, times.take(i as int)) == Ok::<_, Seq<char>>(order::values(out@)),
            decreases self.valid_times.len() - i,
        {
            let ghost before = out@;
            assert(times.take(i + 1).drop_last() == times.take(i as int));
            match timefmt::parse_json_time(self.valid_times[i].as_str()) {
                Ok(t) => {
                    proof {
                        timefmt::lemma_minutes_bounded(init, t);
                    }
                    out.push(timefmt::minutes_since(init, t));
                    assert(order::values(out@) == order::values(before).push(
                        timefmt::minutes_from(init, t),
                    ));
                },
                Err(e) => {
                    proof {
                        lemma_first_bad_time(init, times, i + 1, e@);
                    }
                    return Err(e);
                },
            }
            i += 1;
        }
        assert(times.take(i as int) == times);
        let sorted = order::sort_dedup(out.as_slice());
        assert forall|k: int| 0 <= k < sorted@.len() implies -timefmt::MAX_MINUTES
            <= #[trigger] sorted@[k] <= timefmt::MAX_MINUTES by {
            order::lemma_values_contains(sorted@, sorted@[k]);
            order::lemma_values_contains(out@, sorted@[k]);
            assert(sorted@.contains(sorted@[k]));
            let j = choose|j: int| 0 <= j < out@.len() && out@[j] == sorted@[k];
            assert(-timefmt::MAX_MINUTES <= out@[j] <= timefmt::MAX_MINUTES);
        }
        Ok(sorted)
    }
}

/// Both status files of a model. Either may be absent.
#[derive(Debug, Default)]
pub struct ModelStatus {
    pub latest: Option<RunMeta>,
    pub in_progress: Option<RunMeta>,
}

#[derive(Debug, Clone, Copy, PartialEq, Eq, Structural)]
pub enum RunKind {
    Latest,
    InProgress,
}

/// Whether the file, where it is there, describes the run with the reference
/// time `init`, or what is wrong with its reference time.
pub open spec fn describes(file: Option<RunMeta>, init: UtcTime) -> Result<bool, Seq<char>> {
    match file {
        None => Ok(false),
        Some(m) => match m.reference() {
            Ok(t) => Ok(t == init),
            Err(e) => Err(e),
        },
    }
}

pub open spec fn model_not_found(model: Seq<char>) -> Seq<char> {
    "model "@ + text::quoted(model)
        + " not found: neither latest.json nor in-progress.json exist under "@ + SPATIAL_PREFIX@
        + "/"@ + model + "/ (run `om2nc models` to list available models)"@
}

impl ModelStatus {
    /// Which of the status files describes the run with the reference time
    /// `init`. The reference time of a file that is not reached is not looked at.
    pub open spec fn run_kind(self, init: UtcTime) -> Result<Option<RunKind>, Seq<char>> {
        match describes(self.latest, init) {
            Err(e) => Err(e),
            Ok(true) => Ok(Some(RunKind::Latest)),
            Ok(false) => match describes(self.in_progress, init) {
                Err(e) => Err(e),
                Ok(true) => Ok(Some(RunKind::InProgress)),
                Ok(false) => Ok(None),
            },
        }
    }

    /// The file of the given kind.
    pub open spec fn file(self, kind: RunKind) -> Option<RunMeta> {
        match kind {
            RunKind::Latest => self.latest,
            RunKind::InProgress => self.in_progress,
        }
    }

    /// The status of a model from what its two status files hold.
    pub fn from_files(
        model: &str,
        latest: Option<RunMeta>,
        in_progress: Option<RunMeta>,
    ) -> (r: Result<Self, String>)
        ensures
            match r {
                Ok(s) => s.latest == latest && s.in_progress == in_progress && !(latest is None
                    && in_progress is None),
                Err(e) => latest is None && in_progress is None && e@ == model_not_found(model@),
            },
    {
        if latest.is_none() && in_progress.is_none() {
            let mut e = "model ".to_owned();
            e.append(text::quote(model).as_str());
            e.append(" not found: neither latest.json nor in-progress.json exist under ");
            e.append(SPATIAL_PREFIX);
            e.append("/");
            e.append(model);
            e.append("/ (run `om2nc models` to list available models)");
            return Err(e);
        }
        Ok(ModelStatus { latest, in_progress })
    }

    /// Metadata for the run with the given reference time, if a status file describes it.
    pub fn run(&self, init: UtcTime) -> (r: Result<Option<(&RunMeta, RunKind)>, String>)
        ensures
            match r {
                Ok(Some((m, k))) => self.run_kind(init) == Ok::<_, Seq<char>>(Some(k))
                    && self.file(k) == Some(*m) && m.reference() == Ok::<_, Seq<char>>(init),
                Ok(None) => self.run_kind(init) == Ok::<Option<RunKind>, Seq<char>>(None),
                Err(e) => self.run_kind(init) == Err::<Option<RunKind>, _>(e@),
            },
    {
        if let Some(m) = &self.latest {
            match m.reference_time() {
                Ok(t) => {
                    if t == init {
                        return Ok(Some((m, RunKind::Latest)));
                    }
                },
                Err(e) => {
                    return Err(e);
                },
            }
        }
        if let Some(m) = &self.in_progress {
            match m.reference_time() {
                Ok(t) => {
                    if t == init {
                        return Ok(Some((m, RunKind::InProgress)));
                    }
                },
                Err(e) => {
                    return Err(e);
                },
            }
        }
        Ok(None)
    }
}

/// Object key of a status file: `data_spatial/{model}/{file}`.
pub fn status_key(model: &str, file: &str) -> (r: String)
    ensures
        r@ == SPATIAL_PREFIX@ + "/"@ + model@ + "/"@ + file@,
{
    let mut out = SPATIAL_PREFIX.to_owned();
    out.append("/");
    out.append(model);
    out.append("/");
    out.append(file);
    out
}

/// The hours of the requested steps that are not there, in the order of the request.
pub open spec fn missing_steps(have: Seq<int>, steps: Seq<i64>) -> Seq<Seq<char>>
    decreases steps.len(),
{
    if steps.len() == 0 {
        Seq::empty()
    } else if have.contains(steps.last() as int) {
        missing_steps(have, steps.drop_last())
    } else {
        missing_steps(have, steps.drop_last()).push(steps::hours_text(steps.last() as int))
    }
}

/// The names that are not there, in the order of the request.
pub open spec fn missing_names(have: Seq<Seq<char>>, names: Seq<Seq<char>>) -> Seq<Seq<char>>
    decreases names.len(),
{
    if names.len() == 0 {
        Seq::empty()
    } else if have.contains(names.last()) {
        missing_names(have, names.drop_last())
    } else {
        missing_names(have, names.drop_last()).push(names.last())
    }
}

/// A list in full, or its ends and its length where it is long.
pub open spec fn summary(items: Seq<Seq<char>>) -> Seq<char> {
    if items.len() <= 12 {
        text::join(items, ","@)
    } else {
        text::join(items.take(6), ","@) + " ... "@ + text::join(
            items.skip(items.len() - 3),
            ","@,
        ) + " ("@ + text::dec(items.len()) + " total)"@
    }
}

pub open spec fn steps_report(have: Seq<int>, missing: Seq<Seq<char>>) -> Seq<char> {
    "\n  missing steps (hours): "@ + text::join(missing, ","@) + "\n  available steps: "@ + summary(
        steps::hours_texts(order::sorted_set(have)),
    )
}

pub open spec fn variables_report(have: Seq<Seq<char>>, missing: Seq<Seq<char>>) -> Seq<char> {
    "\n  missing variables: "@ + text::join(missing, ","@) + "\n  available variables: "@
        + text::join(have, ","@)
}

/// What a run does not provide of a request; none where it provides everything.
pub open spec fn shortfall(
    reference_time: Seq<char>,
    have_steps: Seq<int>,
    have_names: Seq<Seq<char>>,
    steps: Seq<i64>,
    names: Seq<Seq<char>>,
) -> Option<Seq<char>> {
    let no_steps = missing_steps(have_steps, steps);
    let no_names = missing_names(have_names, names);
    if no_steps.len() == 0 && no_names.len() == 0 {
        None
    } else {
        Some(
            "run "@ + reference_time + " does not provide everything requested:"@ + (
            if no_steps.len() == 0 {
                Seq::empty()
            } else {
                steps_report(have_steps, no_steps)
            }) + (if no_names.len() == 0 {
                Seq::empty()
            } else {
                variables_report(have_names, no_names)
            }),
        )
    }
}

/// What is wrong with a request for `steps` and `names` of the run.
pub open spec fn request_error(meta: RunMeta, steps: Seq<i64>, names: Seq<Seq<char>>) -> Option<
    Seq<char>,
> {
    match meta.listed_minutes() {
        Err(e) => Some(e),
        Ok(have) => shortfall(
            meta.reference_time@,
            have,
            text::texts(meta.variables@),
            steps,
            names,
        ),
    }
}

fn absent_steps(have: &[i64], steps: &[i64]) -> (r: Vec<String>)
    ensures
        text::texts(r@) == missing_steps(order::values(have@), steps@),
{
    let mut out: Vec<String> = Vec::new();
    let mut i: usize = 0;
    assert(steps@.take(0) == Seq::<i64>::empty());
    assert(text::texts(out@) == Seq::<Seq<char>>::empty());
    while i < steps.len()
        invariant
            i <= steps.len(),
            text::texts(out@) == missing_steps(order::values(have@), steps@.take(i as int)),
        decreases steps.len() - i,
    {
        let ghost before = out@;
        proof {
            assert(steps@.take(i + 1).drop_last() == steps@.take(i as int));
            order::lemma_values_contains(have@, steps@[i as int]);
        }
        if !order::holds(have, steps[i]) {
            out.push(steps::minutes_to_hours_string(steps[i]));
            assert(text::texts(out@) == text::texts(before).push(
                steps::hours_text(steps@[i as int] as int),
            ));
        }
        i += 1;
    }
    assert(steps@.take(i as int) == steps@);
    out
}

/// The names that are not in `have`, in order.
pub fn absent_names(have: &[String], names: &[String]) -> (r: Vec<String>)
    ensures
        text::texts(r@) == missing_names(text::texts(have@), text::texts(names@)),
{
    let mut out: Vec<String> = Vec::new();
    let mut i: usize = 0;
    let ghost all = text::texts(names@);
    assert(all.take(0) == Seq::<Seq<char>>::empty());
    assert(text::texts(out@) == Seq::<Seq<char>>::empty());
    while i < names.len()
        invariant
            i <= names.len(),
            all == text::texts(names@),
            text::texts(out@) == missing_names(text::texts(have@), all.take(i as int)),
        decreases names.len() - i,
    {
        let ghost before = out@;
        assert(all.take(i + 1).drop_last() == all.take(i as int));
        if !text::holds(have, names[i].as_str()) {
            out.push(names[i].as_str().to_owned());
            assert(text::texts(out@) == text::texts(before).push(all[i as int]));
        }
        i += 1;
    }
    assert(all.take(i as int) == all);
    out
}

/// Append a list in full, or its ends and its length where it is long.
fn summarise(out: &mut String, items: &[String])
    ensures
        final(out)@ == old(out)@ + summary(text::texts(items@)),
{
    let ghost all = text::texts(items@);
    if items.len() <= 12 {
        text::join_onto(out, items, ",");
    } else {
        let n: usize = items.len();
        text::join_onto(out, slice_subrange(items, 0, 6), ",");
        out.append(" ... ");
        text::join_onto(out, slice_subrange(items, n - 3, n), ",");
        out.append(" (");
        text::push_dec(out, n as u128);
        out.append(" total)");
        assert(text::texts(items@.subrange(0, 6)) == all.take(6));
        assert(text::texts(items@.subrange(n - 3, n as int)) == all.skip(n - 3));
        assert(out@ == old(out)@ + summary(all));
    }
}

/// Check that every requested step and variable is listed in `meta`.
pub fn validate_request(meta: &RunMeta, steps: &[i64], vars: &[String]) -> (r: Result<(), String>)
    ensures
        match r {
            Ok(_) => request_error(*meta, steps@, text::texts(vars@)) is None,
            Err(e) => request_error(*meta, steps@, text::texts(vars@)) == Some(e@),
        },
{
    let have = match meta.steps_minutes() {
        Ok(v) => v,
        Err(e) => {
            return Err(e);
        },
    };
    let ghost listed = meta.listed_minutes()->Ok_0;
    let no_steps = absent_steps(have.as_slice(), steps);
    let no_names = absent_names(meta.variables.as_slice(), vars);
    proof {
        order::lemma_sorted_set(have@, listed);
        lemma_same_missing(order::values(have@), listed, steps@);
    }
    if no_steps.len() == 0 && no_names.len() == 0 {
        return Ok(());
    }
    let mut e = "run ".to_owned();
    e.append(meta.reference_time.as_str());
    e.append(" does not provide everything requested:");
    let ghost head = e@;
    if no_steps.len() > 0 {
        e.append("\n  missing steps (hours): ");
        text::join_onto(&mut e, no_steps.as_slice(), ",");
        e.append("\n  available steps: ");
        let hours = steps::hours_strings(have.as_slice());
        summarise(&mut e, hours.as_slice());
    }
    let ghost first = if no_steps@.len() == 0 {
        Seq::empty()
    } else {
        steps_report(listed, text::texts(no_steps@))
    };
    assert(e@ == head + first);
    if no_names.len() > 0 {
        e.append("\n  missing variables: ");
        text::join_onto(&mut e, no_names.as_slice(), ",");
        e.append("\n  available variables: ");
        text::join_onto(&mut e, meta.variables.as_slice(), ",");
    }
    let ghost second = if no_names@.len() == 0 {
        Seq::empty()
    } else {
        variables_report(text::texts(meta.variables@), text::texts(no_names@))
    };
    assert(e@ == head + first + second);
    Err(e)
}

proof fn lemma_same_missing(a: Seq<int>, b: Seq<int>, steps: Seq<i64>)
    requires
        forall|x: int| a.contains(x) <==> b.contains(x),
    ensures
        missing_steps(a, steps) == missing_steps(b, steps),
    decreases steps.len(),
{
    if steps.len() > 0 {
        lemma_same_missing(a, b, steps.drop_last());
    }
}

proof fn lemma_missing_steps(have: Seq<int>, steps: Seq<i64>)
    ensures
        missing_steps(have, steps).len() == 0 <==> forall|k: int|
            0 <= k < steps.len() ==> have.contains(#[trigger] steps[k] as int),
    decreases steps.len(),
{
    if steps.len() > 0 {
        let rest = steps.drop_last();
        lemma_missing_steps(have, rest);
        if missing_steps(have, steps).len() == 0 {
            assert forall|k: int| 0 <= k < steps.len() implies have.contains(
                #[trigger] steps[k] as int,
            ) by {
                if k < rest.len() {
                    assert(rest[k] == steps[k]);
                }
            }
        }
        if forall|k: int| 0 <= k < steps.len() ==> have.contains(#[trigger] steps[k] as int) {
            assert(have.contains(steps[steps.len() - 1] as int));
            assert forall|k: int| 0 <= k < rest.len() implies have.contains(
                #[trigger] rest[k] as int,
            ) by {
                assert(have.contains(steps[k] as int));
            }
        }
    }
}

proof fn lemma_missing_names(have: Seq<Seq<char>>, names: Seq<Seq<char>>)
    ensures
        missing_names(have, names).len() == 0 <==> forall|k: int|
            0 <= k < names.len() ==> have.contains(#[trigger] names[k]),
    decreases names.len(),
{
    if names.len() > 0 {
        let rest = names.drop_last();
        lemma_missing_names(have, rest);
        if missing_names(have, names).len() == 0 {
            assert forall|k: int| 0 <= k < names.len() implies have.contains(
                #[trigger] names[k],
            ) by {
                if k < rest.len() {
                    assert(rest[k] == names[k]);
                }
            }
        }
        if forall|k: int| 0 <= k < names.len() ==> have.contains(#[trigger] names[k]) {
            assert(have.contains(names[names.len() - 1]));
            assert forall|k: int| 0 <= k < rest.len() implies have.contains(#[trigger] rest[k]) by {
                assert(have.contains(names[k]));
            }
        }
    }
}

/// A request passes exactly when the times of the run can be read and the run
/// lists every requested step and every requested variable.
pub proof fn law_request_passes_iff_listed(meta: RunMeta, steps: Seq<i64>, names: Seq<Seq<char>>)
    ensures
        request_error(meta, steps, names) is None <==> (meta.listed_minutes() matches Ok(have) && (
        forall|k: int| 0 <= k < steps.len() ==> have.contains(#[trigger] steps[k] as int)) && (
        forall|k: int|
            0 <= k < names.len() ==> text::texts(meta.variables@).contains(#[trigger] names[k]))),
{
    if let Ok(have) = meta.listed_minutes() {
        lemma_missing_steps(have, steps);
        lemma_missing_names(text::texts(meta.variables@), names);
    }
}

/// A run provides every step that it lists itself: a request for all of them
/// and for all of its variables passes.
pub proof fn law_whole_run_passes(meta: RunMeta, steps: Seq<i64>)
    requires
        meta.listed_minutes() matches Ok(have) && order::is_sorted_set(steps, have),
    ensures
        request_error(meta, steps, text::texts(meta.variables@)) is None,
{
    let names = text::texts(meta.variables@);
    let have = meta.listed_minutes()->Ok_0;
    assert forall|k: int| 0 <= k < steps.len() implies have.contains(#[trigger] steps[k] as int) by {
        order::lemma_values_contains(steps, steps[k]);
        assert(steps.contains(steps[k]));
        assert(order::values(steps).contains(steps[k] as int));
    }
    assert forall|k: int| 0 <= k < names.len() implies names.contains(#[trigger] names[k]) by {}
    law_request_passes_iff_listed(meta, steps, names);
}

/// The names that are reported missing are those of the request that are not there.
pub proof fn law_missing_names(have: Seq<Seq<char>>, names: Seq<Seq<char>>)
    ensures
        missing_names(have, names).len() == 0 <==> forall|k: int|
            0 <= k < names.len() ==> have.contains(#[trigger] names[k]),
        forall|x: Seq<char>| #[trigger]
            missing_names(have, names).contains(x) <==> names.contains(x) && !have.contains(x),
        missing_names(have, names).len() <= names.len(),
    decreases names.len(),
{
    lemma_missing_names(have, names);
    if names.len() > 0 {
        let rest = names.drop_last();
        law_missing_names(have, rest);
        let was = missing_names(have, rest);
        let now = missing_names(have, names);
        assert forall|x: Seq<char>| #[trigger] now.contains(x) <==> names.contains(x)
            && !have.contains(x) by {
            assert(was.contains(x) <==> rest.contains(x) && !have.contains(x));
            lemma_in_pushed(rest, names.last(), x);
            assert(rest.push(names.last()) == names);
            lemma_in_pushed(was, names.last(), x);
        }
    }
}

proof fn lemma_in_pushed(s: Seq<Seq<char>>, y: Seq<char>, x: Seq<char>)
    ensures
        s.push(y).contains(x) <==> s.contains(x) || x == y,
{
    let t = s.push(y);
    if s.contains(x) {
        let k = choose|k: int| 0 <= k < s.len() && s[k] == x;
        assert(t[k] == x);
    }
    assert(t[s.len() as int] == y);
    if t.contains(x) && x != y {
        let k = choose|k: int| 0 <= k < t.len() && t[k] == x;
        assert(s[k] == x);
    }
}

/// The listed steps are the minutes from the reference time to each of the valid
/// times, in their order; they are known exactly when all of these can be read.
pub proof fn law_listed_minutes(meta: RunMeta)
    ensures
        meta.listed_minutes() is Ok <==> timefmt::utc_of(meta.reference_time@) is Some && forall|
            k: int,
        |
            0 <= k < meta.valid_times@.len() ==> timefmt::utc_of(
                (#[trigger] meta.valid_times@[k])@,
            ) is Some,
        meta.listed_minutes() matches Ok(l) ==> l.len() == meta.valid_times@.len() && forall|k: int|
            0 <= k < l.len() ==> #[trigger] l[k] == timefmt::minutes_from(
                timefmt::utc_of(meta.reference_time@)->0,
                timefmt::utc_of(meta.valid_times@[k]@)->0,
            ),
{
    if let Ok(init) = meta.reference() {
        let times = text::texts(meta.valid_times@);
        lemma_minutes_list(init, times);
        assert forall|k: int| 0 <= k < times.len() implies times[k] == (
        #[trigger] meta.valid_times@[k])@ by {}
        if forall|k: int|
            0 <= k < meta.valid_times@.len() ==> timefmt::utc_of(
                (#[trigger] meta.valid_times@[k])@,
            ) is Some {
            assert forall|k: int| 0 <= k < times.len() implies timefmt::utc_of(
                #[trigger] times[k],
            ) is Some by {
                assert(timefmt::utc_of(meta.valid_times@[k]@) is Some);
            }
        }
        if meta.listed_minutes() is Ok {
            assert forall|k: int| 0 <= k < meta.valid_times@.len() implies timefmt::utc_of(
                (#[trigger] meta.valid_times@[k])@,
            ) is Some by {
                assert(timefmt::utc_of(times[k]) is Some);
            }
        }
    }
}

proof fn lemma_minutes_list(init: UtcTime, times: Seq<Seq<char>>)
    ensures
        minutes_list(init, times) is Ok <==> forall|k: int|
            0 <= k < times.len() ==> timefmt::utc_of(#[trigger] times[k]) is Some,
        minutes_list(init, times) matches Ok(l) ==> l.len() == times.len() && forall|k: int|
            0 <= k < l.len() ==> #[trigger] l[k] == timefmt::minutes_from(
                init,
                timefmt::utc_of(times[k])->0,
            ),
    decreases times.len(),
{
    if times.len() > 0 {
        let rest = times.drop_last();
        lemma_minutes_list(init, rest);
        if forall|k: int| 0 <= k < times.len() ==> timefmt::utc_of(#[trigger] times[k]) is Some {
            assert forall|k: int| 0 <= k < rest.len() implies timefmt::utc_of(
                #[trigger] rest[k],
            ) is Some by {
                assert(timefmt::utc_of(times[k]) is Some);
            }
            assert(timefmt::utc_of(times[times.len() - 1]) is Some);
        }
        if minutes_list(init, times) is Ok {
            assert forall|k: int| 0 <= k < times.len() implies timefmt::utc_of(
                #[trigger] times[k],
            ) is Some by {
                if k < rest.len() {
                    assert(timefmt::utc_of(rest[k]) is Some);
                }
            }
        }
    }
}

/// The file that describes a run is one with its reference time: `latest.json`
/// where that has it, and else `in-progress.json`. There is none only where neither
/// has it.
pub proof fn law_run_is_found_by_its_time(status: ModelStatus, init: UtcTime)
    ensures
        status.run_kind(init) matches Ok(Some(k)) ==> (match k {
            RunKind::Latest => status.latest,
            RunKind::InProgress => status.in_progress,
        } matches Some(m) && m.reference() == Ok::<_, Seq<char>>(init)),
        (status.latest matches Some(m) && m.reference() == Ok::<_, Seq<char>>(init))
            ==> status.run_kind(init) == Ok::<_, Seq<char>>(Some(RunKind::Latest)),
        status.run_kind(init) == Ok::<Option<RunKind>, Seq<char>>(None) ==> (
        status.latest matches Some(m) ==> m.reference() is Ok && m.reference()->Ok_0 != init) && (
        status.in_progress matches Some(m) ==> m.reference() is Ok && m.reference()->Ok_0 != init),
{
}

/// The steps that are reported missing are those of the request that are not there, by
/// their hours and in the order of the request.
pub proof fn law_missing_steps(have: Seq<int>, steps: Seq<i64>, k: int)
    requires
        0 <= k < missing_steps(have, steps).len(),
    ensures
        exists|i: int|
            0 <= i < steps.len() && !have.contains(#[trigger] steps[i] as int) && missing_steps(
                have,
                steps,
            )[k] == steps::hours_text(steps[i] as int) && missing_steps(have, steps.take(i)).len()
                == k,
    decreases steps.len(),
{
    let rest = steps.drop_last();
    let n = rest.len() as int;
    assert(steps.take(n) == rest);
    if k < missing_steps(have, rest).len() {
        law_missing_steps(have, rest, k);
        let i = choose|i: int|
            0 <= i < rest.len() && !have.contains(#[trigger] rest[i] as int) && missing_steps(
                have,
                rest,
            )[k] == steps::hours_text(rest[i] as int) && missing_steps(have, rest.take(i)).len()
                == k;
        assert(steps[i] == rest[i]);
        assert(rest.take(i) == steps.take(i));
    } else {
        assert(!have.contains(steps[n] as int));
    }
}

/// The text holds the other one somewhere.
pub open spec fn mentions(s: Seq<char>, part: Seq<char>) -> bool {
    exists|i: int| #[trigger] text::occurs_at(s, part, i)
}

proof fn lemma_mentions(a: Seq<char>, part: Seq<char>, b: Seq<char>)
    ensures
        mentions(a + part + b, part),
{
    let s = a + part + b;
    let i = a.len() as int;
    assert(s.subrange(i, i + part.len()) == part);
    assert(text::occurs_at(s, part, i));
}

/// A refusal names the run, the missing steps with the steps that are available, and
/// the missing variables with those that are available.
pub proof fn law_refusals_name_what_is_missing(
    meta: RunMeta,
    steps: Seq<i64>,
    names: Seq<Seq<char>>,
    have: Seq<int>,
)
    requires
        meta.listed_minutes() == Ok::<_, Seq<char>>(have),
        request_error(meta, steps, names) is Some,
    ensures
        ({
            let e = request_error(meta, steps, names)->0;
            let no_steps = missing_steps(have, steps);
            let no_names = missing_names(text::texts(meta.variables@), names);
            &&& mentions(e, meta.reference_time@)
            &&& no_steps.len() > 0 ==> mentions(e, text::join(no_steps, ","@)) && mentions(
                e,
                summary(steps::hours_texts(order::sorted_set(have))),
            )
            &&& no_names.len() > 0 ==> mentions(e, text::join(no_names, ","@)) && mentions(
                e,
                text::join(text::texts(meta.variables@), ","@),
            )
        }),
{
    let e = request_error(meta, steps, names)->0;
    let no_steps = missing_steps(have, steps);
    let no_names = missing_names(text::texts(meta.variables@), names);
    let end = " does not provide everything requested:"@;
    let head = "run "@ + meta.reference_time@ + end;
    let first = if no_steps.len() == 0 {
        Seq::empty()
    } else {
        steps_report(have, no_steps)
    };
    let second = if no_names.len() == 0 {
        Seq::empty()
    } else {
        variables_report(text::texts(meta.variables@), no_names)
    };
    assert(e == head + first + second);
    lemma_mentions("run "@, meta.reference_time@, end + first + second);
    assert("run "@ + meta.reference_time@ + (end + first + second) == e);
    if no_steps.len() > 0 {
        let (a, b) = ("\n  missing steps (hours): "@, "\n  available steps: "@);
        let m = text::join(no_steps, ","@);
        let l = summary(steps::hours_texts(order::sorted_set(have)));
        lemma_mentions(head + a, m, b + l + second);
        assert(head + a + m + (b + l + second) == e);
        lemma_mentions(head + a + m + b, l, second);
        assert(head + a + m + b + l + second == e);
    }
    if no_names.len() > 0 {
        let (a, b) = ("\n  missing variables: "@, "\n  available variables: "@);
        let m = text::join(no_names, ","@);
        let l = text::join(text::texts(meta.variables@), ","@);
        lemma_mentions(head + first + a, m, b + l);
        assert(head + first + a + m + (b + l) == e);
        lemma_mentions(head + first + a + m + b, l, Seq::empty());
        assert(head + first + a + m + b + l + Seq::<char>::empty() == e);
    }
}

/// A list of up to twelve is shown in full; a longer one by its first six, its last
/// three, and its length.
pub proof fn law_long_lists_are_cut(items: Seq<Seq<char>>)
    ensures
        items.len() <= 12 ==> summary(items) == text::join(items, ","@),
        items.len() > 12 ==> mentions(summary(items), text::join(items.subrange(0, 6), ","@))
            && mentions(
            summary(items),
            text::join(items.subrange(items.len() - 3, items.len() as int), ","@),
        ) && mentions(summary(items), text::dec(items.len())),
{
    if items.len() > 12 {
        let n = items.len() as int;
        let a = text::join(items.take(6), ","@);
        let b = text::join(items.skip(n - 3), ","@);
        assert(items.take(6) == items.subrange(0, 6));
        assert(items.skip(n - 3) == items.subrange(n - 3, n));
        let (d, o, t) = (" ... "@, " ("@, " total)"@);
        let c = text::dec(items.len());
        let s = summary(items);
        lemma_mentions(Seq::empty(), a, d + b + o + c + t);
        assert(Seq::<char>::empty() + a + (d + b + o + c + t) == s);
        lemma_mentions(a + d, b, o + c + t);
        assert(a + d + b + (o + c + t) == s);
        lemma_mentions(a + d + b + o, c, t);
        assert(a + d + b + o + c + t == s);
    }
}

} // verus!
