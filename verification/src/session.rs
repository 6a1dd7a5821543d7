//! One fetch from start to end: which action comes next, given what the last
//! one found.
//!
//! The session performs nothing itself. It hands out an action, is handed back
//! the event that tells how the action went, and decides. Everything is checked
//! before the output is created; the output is written under a temporary name
//! and moved to its own name only when all of it has been written and closed.
use crate::cf;
use crate::fetch;
use crate::fetch::{FetchRequest, FetchSummary, Resolved, VarList};
use crate::meta;
use crate::meta::ModelStatus;
use crate::nc;
use crate::nc::{Layout, NcSpec};
use crate::om;
use crate::om::{StepFile, VarInfo};
use crate::order;
use crate::plan;
use crate::text;
use crate::timefmt;
use crate::timefmt::UtcTime;
use vstd::prelude::*;
use vstd::string::*;

verus! {

/// What is to be done next.
#[derive(Debug)]
pub enum Action {
    /// See whether the output is there already.
    LookAtOutput,
    /// Read the status files of the model.
    ReadStatus,
    /// Find out the sizes of the objects with these keys.
    StatObjects(Vec<String>),
    /// Open the step file with this key.
    Open(String),
    /// Look up the shape and the units of a variable in one of the open step
    /// files, counted from the first one.
    Describe(usize, String),
    /// Lay out the output grid for arrays of this shape.
    PlanGrid { crs_wkt: String, dims: Vec<u64> },
    /// Create the output under its temporary name.
    Create(Layout),
    /// Read the slabs of all output steps and write them.
    WriteSlabs,
    /// Close the output.
    Close,
    /// Move the output to its own name.
    Rename,
    /// Remove the output under its temporary name.
    RemovePart,
    /// The fetch is done.
    Finish(FetchSummary),
    /// The fetch has failed.
    Fail(String),
    /// The request cannot be computed with at all.
    Abort(String),
}

/// How the output grid came out.
#[derive(Debug)]
pub struct GridPlan {
    pub ny: usize,
    pub nx: usize,
    /// Set when the data is resampled: the source grid and the method.
    pub regrid: Option<(String, &'static str)>,
}

/// Why there is no output grid.
#[derive(Debug)]
pub enum GridFailure {
    /// The source grid is not supported.
    Unsupported(String),
    /// The requested box or resolution does not fit the source grid.
    Refused(String),
}

/// How an action went. A text tells why it failed.
#[derive(Debug)]
pub enum Event {
    Output { already: bool },
    Status(Result<ModelStatus, String>),
    Sizes(Result<Vec<Option<u64>>, String>),
    /// The tree of the opened file, `None` where there is no such object.
    Opened(Result<Option<StepFile>, String>),
    Described(Result<VarInfo, String>),
    Grid(Result<GridPlan, GridFailure>),
    Created(Result<(), String>),
    Written(Result<(), String>),
    Closed(Result<(), String>),
    Moved(Result<(), String>),
    Removed,
}

/// What is known once the files of the run have been checked.
#[derive(Debug)]
pub struct Sources {
    pub resolved: Resolved,
    pub bytes_remote: u64,
}

/// What is known once the first file has been looked at.
#[derive(Debug)]
pub struct Survey {
    pub sources: Sources,
    pub first_key: String,
    pub crs_wkt: String,
    /// The variables of the first file.
    pub present: Vec<String>,
    /// The variables to fetch.
    pub vars: Vec<String>,
    /// How many of the step files are open, from the first one on. The later
    /// ones are for the variables that the first one lacks.
    pub open_files: usize,
    /// The variables that have been looked up so far.
    pub list: VarList,
}

/// What is known once the output grid is laid out.
#[derive(Debug)]
pub struct Writing {
    pub survey: Survey,
    pub ny: usize,
    pub nx: usize,
}

#[derive(Debug)]
pub enum Stage {
    Output,
    Status,
    Sizes(Resolved),
    First(Sources),
    /// The step file behind the open ones is being opened.
    Later(Survey),
    /// A variable is being looked up in the step file with this number.
    Describing(Survey, usize),
    Grid(Survey),
    Creating(Writing),
    Writing(Writing),
    Closing(Writing),
    Moving(Writing),
    Removing(String),
    Done(Writing),
    Failed,
}

/// A fetch under way.
#[derive(Debug)]
pub struct Session {
    pub request: FetchRequest,
    pub stage: Stage,
}

/// The fetch fails with the given text.
pub open spec fn fails(next: Session, action: Action, message: Seq<char>) -> bool {
    next.stage is Failed && (action matches Action::Fail(m) && m@ == message)
}

/// The fetch is given up with the given text.
pub open spec fn aborts(next: Session, action: Action, message: Seq<char>) -> bool {
    next.stage is Failed && (action matches Action::Abort(m) && m@ == message)
}

/// The times of all steps and of all files that they read can be held.
pub open spec fn steps_in_range(r: Resolved) -> bool {
    &&& forall|i: int|
        0 <= i < r.steps@.len() ==> timefmt::can_shift(r.init, #[trigger] r.steps@[i] as int)
    &&& forall|i: int|
        0 <= i < r.plan.unique@.len() ==> timefmt::can_shift(
            r.init,
            #[trigger] r.plan.unique@[i] as int,
        )
}

/// The request is resolved and planned.
pub open spec fn is_ready(req: FetchRequest, r: Resolved) -> bool {
    &&& r.is_planned(req.accumulate)
    &&& r.steps@.len() > 0
    &&& steps_in_range(r)
}

/// The keys of the given steps.
pub open spec fn key_texts(model: Seq<char>, init: UtcTime, steps: Seq<i64>) -> Seq<Seq<char>> {
    steps.map_values(|m: i64| timefmt::step_key_text(model, init, m as int))
}

pub open spec fn vanished(key: Seq<char>) -> Seq<char> {
    "object vanished: "@ + key
}

/// The time that a scalar of a file stands for.
pub open spec fn file_time(tree: StepFile, name: Seq<char>) -> Option<UtcTime> {
    match tree.integer(name) {
        Some(v) => if timefmt::in_range(v) {
            Some(UtcTime { secs: v as i64, nanos: 0 })
        } else {
            None
        },
        None => None,
    }
}

/// The coordinate system that a file holds.
pub open spec fn file_crs(tree: StepFile) -> Option<Seq<char>> {
    match tree.child("crs_wkt"@) {
        Some(d) => om::text_of(d),
        None => None,
    }
}

/// What is wrong with the first file of a request.
pub open spec fn first_file_error(req: FetchRequest, r: Resolved, tree: StepFile) -> Option<
    Seq<char>,
> {
    match fetch::times_error(
        tree.key@,
        file_time(tree, "forecast_reference_time"@),
        file_time(tree, "valid_time"@),
        r.init,
        r.steps@[0] as int,
    ) {
        Some(e) => Some(e),
        None => if file_crs(tree) is None {
            Some(tree.key@ + ": missing crs_wkt scalar"@)
        } else {
            fetch::selection_error(
                tree.key@,
                text::texts(r.vars@),
                om::array_names(tree.children@),
                req.missing_as_nan,
            )
        },
    }
}

/// The first file lacks variables that a later one may have.
pub open spec fn looks_further(
    r: Resolved,
    present: Seq<Seq<char>>,
    vars: Seq<Seq<char>>,
) -> bool {
    r.steps@.len() > 1 && meta::missing_names(present, vars).len() > 0
}

/// The key of the file of the requested step with the given number.
pub open spec fn file_key(req: FetchRequest, r: Resolved, i: int) -> Seq<char> {
    timefmt::step_key_text(req.model@, r.init, r.steps@[i] as int)
}

impl Survey {
    /// This is what the first file shows.
    pub open spec fn is_survey_of(self, sources: Sources, tree: StepFile) -> bool {
        &&& self.sources == sources
        &&& self.first_key@ == tree.key@
        &&& file_crs(tree) == Some(self.crs_wkt@)
        &&& text::texts(self.present@) == om::array_names(tree.children@)
        &&& text::texts(self.vars@) == fetch::chosen_vars(
            text::texts(sources.resolved.vars@),
            text::texts(self.present@),
        )
        &&& self.open_files == 1
        &&& self.list.specs@.len() == 0
    }

    /// There are variables to fetch, not more have been looked up, and not more
    /// files are open than there are steps.
    pub open spec fn well_formed(self) -> bool {
        &&& self.vars@.len() > 0
        &&& self.list.specs@.len() <= self.vars@.len()
        &&& 1 <= self.open_files <= self.sources.resolved.steps@.len()
    }

    /// The variable that is looked up next.
    pub open spec fn current(self) -> Seq<char> {
        self.vars@[self.list.specs@.len() as int]@
    }

    /// The same survey with one more file open.
    pub open spec fn with_next_file(self) -> Survey {
        Survey { open_files: (self.open_files + 1) as usize, ..self }
    }

    /// The same survey but for the variables that have been looked up.
    pub open spec fn same_but_list(self, other: Survey) -> bool {
        &&& self.sources == other.sources
        &&& self.first_key == other.first_key
        &&& self.crs_wkt == other.crs_wkt
        &&& self.present == other.present
        &&& self.vars == other.vars
        &&& self.open_files == other.open_files
    }
}

/// The next variable is looked up in the first file where that has it, and else
/// in the file `later`; without a next one, the output grid is laid out.
pub open spec fn goes_on(survey: Survey, later: int, next: Session, action: Action) -> bool {
    if survey.list.specs@.len() == survey.vars@.len() {
        &&& next.stage == Stage::Grid(survey)
        &&& action matches Action::PlanGrid { crs_wkt, dims } && crs_wkt@ == survey.crs_wkt@
            && dims@ == survey.list.dims@
    } else if text::texts(survey.present@).contains(survey.current()) {
        looks_up(survey, 0, next, action)
    } else if later < survey.open_files {
        looks_up(survey, later, next, action)
    } else {
        fails(next, action, survey.current() + " is not present in "@ + survey.first_key@)
    }
}

/// The current variable is looked up in an open file.
pub open spec fn looks_up(survey: Survey, file: int, next: Session, action: Action) -> bool {
    &&& next.stage == Stage::Describing(survey, file as usize)
    &&& action matches Action::Describe(f, v) && f == file && v@ == survey.current()
}

/// The step file behind the open ones is opened.
pub open spec fn opens_next(
    req: FetchRequest,
    survey: Survey,
    next: Session,
    action: Action,
) -> bool {
    &&& next.stage == Stage::Later(survey)
    &&& action matches Action::Open(k) && k@ == file_key(
        req,
        survey.sources.resolved,
        survey.open_files as int,
    )
}

/// What the output file is described from.
pub open spec fn layout_source(req: FetchRequest, survey: Survey, grid: GridPlan) -> nc::NcText {
    let r = survey.sources.resolved;
    nc::NcText {
        model: req.model@,
        init: r.init,
        steps: r.steps@,
        intervals: if r.available is Some {
            Some(r.plan.outputs@.map_values(|o: plan::OutputStep| o.interval))
        } else {
            None
        },
        interval_comment: r.interval_comment@,
        ny: grid.ny,
        nx: grid.nx,
        vars: survey.list.specs@,
        crs_wkt: survey.crs_wkt@,
        history: req.history@,
        source: fetch::source_text(req.bucket@, req.model@, r.init),
        source_grid: match grid.regrid {
            Some((g, _)) => Some(g@),
            None => None,
        },
        regrid_method: match grid.regrid {
            Some((_, m)) => Some(m@),
            None => None,
        },
        level: req.deflate_level,
    }
}

/// The output file is described by `l`.
pub open spec fn is_layout(source: nc::NcText, l: Layout) -> bool {
    &&& nc::attribute_texts(l.attributes@) == source.global_attributes()
    &&& nc::dimension_texts(l.dimensions@) == source.dimension_list()
    &&& nc::variable_texts(l.variables@) == source.variable_list()
}

pub open spec fn after_output(req: FetchRequest, already: bool, next: Session, action: Action) -> bool {
    if already && !req.overwrite {
        fails(next, action, req.output@ + " exists; pass --overwrite to replace it"@)
    } else {
        next.stage is Status && action is ReadStatus
    }
}

pub open spec fn after_status(
    req: FetchRequest,
    status: ModelStatus,
    next: Session,
    action: Action,
) -> bool {
    match fetch::resolution(status, req) {
        Err(e) => fails(next, action, e),
        Ok(x) => {
            ||| aborts(next, action, "a step is out of range"@) && exists|r: Resolved|
                #![trigger r.as_resolution()]
                r.as_resolution() == x && r.is_planned(req.accumulate) && !steps_in_range(r)
            ||| next.stage matches Stage::Sizes(r) && r.as_resolution() == x && is_ready(req, r)
                && r.steps_are_provided() && (action matches Action::StatObjects(keys)
                && text::texts(keys@) == key_texts(req.model@, r.init, r.plan.unique@))
        },
    }
}

pub open spec fn after_sizes(
    req: FetchRequest,
    r: Resolved,
    sizes: Seq<Option<u64>>,
    next: Session,
    action: Action,
) -> bool {
    let missing = fetch::absent_hours(sizes, r.plan.unique@);
    if missing.len() > 0 {
        fails(
            next,
            action,
            fetch::missing_files_error(req.model@, r.init, missing, r.plan.unique@.len()),
        )
    } else if fetch::total_size(sizes) > u64::MAX {
        aborts(next, action, "the size of the files is out of range"@)
    } else {
        &&& next.stage == Stage::First(
            Sources { resolved: r, bytes_remote: fetch::total_size(sizes) as u64 },
        )
        &&& action matches Action::Open(k) && k@ == file_key(req, r, 0)
    }
}

pub open spec fn after_first(
    req: FetchRequest,
    sources: Sources,
    tree: StepFile,
    next: Session,
    action: Action,
) -> bool {
    match first_file_error(req, sources.resolved, tree) {
        Some(e) => fails(next, action, e),
        None => exists|s: Survey|
            #![trigger s.is_survey_of(sources, tree)]
            s.is_survey_of(sources, tree) && s.well_formed() && (if looks_further(
                sources.resolved,
                text::texts(s.present@),
                text::texts(s.vars@),
            ) {
                opens_next(req, s, next, action)
            } else {
                goes_on(s, 1, next, action)
            }),
    }
}

pub open spec fn after_description(
    survey: Survey,
    info: VarInfo,
    next: Session,
    action: Action,
) -> bool {
    let i = survey.list.specs@.len() as int;
    let var = survey.current();
    if i > 0 && survey.list.dims@ != info.dims@ {
        fails(
            next,
            action,
            fetch::shape_error(
                var,
                info.dims@,
                survey.list.specs@[0].name@,
                survey.list.dims@,
            ),
        )
    } else {
        exists|s: Survey|
            #![trigger s.same_but_list(survey)]
            {
                &&& s.same_but_list(survey)
                &&& s.list.dims@ == info.dims@
                &&& s.list.specs@.len() == i + 1
                &&& s.list.specs@.drop_last() == survey.list.specs@
                &&& fetch::is_var_spec(s.list.specs@.last(), var, info.units@)
                &&& goes_on(s, 1, next, action)
            }
    }
}

/// A variable that one of the later files lacks is looked up in the file of the
/// next step, which is opened first where it is not open yet. It is an error
/// that the file of the last step lacks it too.
pub open spec fn after_failed_lookup(
    req: FetchRequest,
    survey: Survey,
    file: int,
    cause: Seq<char>,
    next: Session,
    action: Action,
) -> bool {
    let r = survey.sources.resolved;
    if file == 0 {
        fails(next, action, cause)
    } else if file + 1 == r.steps@.len() {
        fails(
            next,
            action,
            fetch::absent_text(
                survey.current(),
                survey.first_key@,
                file_key(req, r, file),
                r.steps@.len() as int,
                cause,
            ),
        )
    } else if file + 1 == survey.open_files {
        opens_next(req, survey, next, action)
    } else {
        looks_up(survey, file + 1, next, action)
    }
}

pub open spec fn after_grid(
    req: FetchRequest,
    survey: Survey,
    grid: GridPlan,
    next: Session,
    action: Action,
) -> bool {
    &&& next.stage == Stage::Creating(Writing { survey, ny: grid.ny, nx: grid.nx })
    &&& action matches Action::Create(l) && is_layout(layout_source(req, survey, grid), l)
}

pub open spec fn is_summary(s: FetchSummary, w: Writing) -> bool {
    &&& s.init == w.survey.sources.resolved.init
    &&& s.steps == w.survey.sources.resolved.steps@.len()
    &&& s.vars == w.survey.vars@.len()
    &&& s.ny == w.ny
    &&& s.nx == w.nx
    &&& s.bytes_remote == w.survey.sources.bytes_remote
}

impl Session {
    /// What holds of a session at every stage.
    pub open spec fn well_formed(self) -> bool {
        let req = self.request;
        &&& req.init matches Some(t) ==> t.valid()
        &&& match self.stage {
            Stage::Sizes(r) => is_ready(req, r),
            Stage::First(s) => is_ready(req, s.resolved),
            Stage::Later(v) => is_ready(req, v.sources.resolved) && v.well_formed()
                && v.list.specs@.len() < v.vars@.len() && v.open_files
                < v.sources.resolved.steps@.len(),
            Stage::Describing(v, f) => is_ready(req, v.sources.resolved) && v.well_formed()
                && v.list.specs@.len() < v.vars@.len() && f < v.open_files,
            Stage::Grid(v) => is_ready(req, v.sources.resolved) && v.well_formed(),
            _ => true,
        }
    }

    /// The event tells of the action that this session is waiting for.
    pub open spec fn expects(self, event: Event) -> bool {
        match (self.stage, event) {
            (Stage::Output, Event::Output { .. }) => true,
            (Stage::Status, Event::Status(_)) => true,
            (Stage::Sizes(r), Event::Sizes(Ok(v))) => v@.len() == r.plan.unique@.len(),
            (Stage::Sizes(_), Event::Sizes(Err(_))) => true,
            (Stage::First(s), Event::Opened(Ok(Some(tree)))) => tree.well_formed() && tree.key@
                == file_key(self.request, s.resolved, 0),
            (Stage::First(_), Event::Opened(_)) => true,
            (Stage::Later(_), Event::Opened(_)) => true,
            (Stage::Describing(_, _), Event::Described(_)) => true,
            (Stage::Grid(_), Event::Grid(_)) => true,
            (Stage::Creating(_), Event::Created(_)) => true,
            (Stage::Writing(_), Event::Written(_)) => true,
            (Stage::Closing(_), Event::Closed(_)) => true,
            (Stage::Moving(_), Event::Moved(_)) => true,
            (Stage::Removing(_), Event::Removed) => true,
            _ => false,
        }
    }

    /// After `event` the session goes on as `next`, with `action`.
    pub open spec fn follows(self, event: Event, next: Session, action: Action) -> bool {
        let req = self.request;
        &&& next.request == req
        &&& match (self.stage, event) {
            (Stage::Output, Event::Output { already }) => after_output(req, already, next, action),
            (Stage::Status, Event::Status(Ok(s))) => after_status(req, s, next, action),
            (Stage::Status, Event::Status(Err(e))) => fails(next, action, e@),
            (Stage::Sizes(r), Event::Sizes(Ok(v))) => after_sizes(req, r, v@, next, action),
            (Stage::Sizes(_), Event::Sizes(Err(e))) => fails(next, action, e@),
            (Stage::First(s), Event::Opened(Ok(Some(t)))) => after_first(req, s, t, next, action),
            (Stage::First(s), Event::Opened(Ok(None))) => fails(
                next,
                action,
                vanished(file_key(req, s.resolved, 0)),
            ),
            (Stage::First(_), Event::Opened(Err(e))) => fails(next, action, e@),
            (Stage::Later(v), Event::Opened(Ok(Some(_)))) => goes_on(
                v.with_next_file(),
                v.open_files as int,
                next,
                action,
            ),
            (Stage::Later(v), Event::Opened(Ok(None))) => fails(
                next,
                action,
                vanished(file_key(req, v.sources.resolved, v.open_files as int)),
            ),
            (Stage::Later(_), Event::Opened(Err(e))) => fails(next, action, e@),
            (Stage::Describing(v, _), Event::Described(Ok(i))) => after_description(
                v,
                i,
                next,
                action,
            ),
            (Stage::Describing(v, f), Event::Described(Err(e))) => after_failed_lookup(
                req,
                v,
                f as int,
                e@,
                next,
                action,
            ),
            (Stage::Grid(v), Event::Grid(Ok(g))) => after_grid(req, v, g, next, action),
            (Stage::Grid(_), Event::Grid(Err(GridFailure::Unsupported(e)))) => fails(
                next,
                action,
                "model "@ + req.model@ + " cannot be written as a lat/lon NetCDF: "@ + e@,
            ),
            (Stage::Grid(_), Event::Grid(Err(GridFailure::Refused(e)))) => fails(next, action, e@),
            (Stage::Creating(w), Event::Created(Ok(_))) => next.stage == Stage::Writing(w)
                && action is WriteSlabs,
            (Stage::Creating(_), Event::Created(Err(e))) => fails(next, action, e@),
            (Stage::Writing(w), Event::Written(Ok(_))) => next.stage == Stage::Closing(w)
                && action is Close,
            (Stage::Writing(_), Event::Written(Err(e))) => next.stage == Stage::Removing(e)
                && action is RemovePart,
            (Stage::Closing(w), Event::Closed(Ok(_))) => next.stage == Stage::Moving(w)
                && action is Rename,
            (Stage::Closing(_), Event::Closed(Err(e))) => fails(next, action, e@),
            (Stage::Moving(w), Event::Moved(Ok(_))) => next.stage == Stage::Done(w) && (
            action matches Action::Finish(s) && is_summary(s, w)),
            (Stage::Moving(_), Event::Moved(Err(e))) => fails(next, action, e@),
            (Stage::Removing(e), Event::Removed) => fails(next, action, e@),
            _ => false,
        }
    }

    /// A fetch starts with a look at the output.
    pub fn start(request: FetchRequest) -> (r: (Session, Action))
        requires
            request.init matches Some(t) ==> t.valid(),
        ensures
            r.0.request == request,
            r.0.stage is Output,
            r.0.well_formed(),
            r.1 is LookAtOutput,
    {
        (Session { request, stage: Stage::Output }, Action::LookAtOutput)
    }

    fn failed(request: FetchRequest, message: String) -> (r: (Session, Action))
        ensures
            r.0.request == request,
            fails(r.0, r.1, message@),
    {
        (Session { request, stage: Stage::Failed }, Action::Fail(message))
    }

    fn aborted(request: FetchRequest, message: &str) -> (r: (Session, Action))
        ensures
            r.0.request == request,
            aborts(r.0, r.1, message@),
    {
        (Session { request, stage: Stage::Failed }, Action::Abort(message.to_owned()))
    }
}

fn all_in_range(init: UtcTime, steps: &[i64]) -> (r: bool)
    requires
        init.valid(),
    ensures
        r == forall|i: int|
            0 <= i < steps@.len() ==> timefmt::can_shift(init, #[trigger] steps@[i] as int),
{
    let mut i: usize = 0;
    while i < steps.len()
        invariant
            i <= steps.len(),
            init.valid(),
            forall|k: int| 0 <= k < i ==> timefmt::can_shift(init, #[trigger] steps@[k] as int),
        decreases steps.len() - i,
    {
        if init.plus_minutes(steps[i]).is_none() {
            assert(!timefmt::can_shift(init, steps@[i as int] as int));
            return false;
        }
        i += 1;
    }
    true
}

fn status_known(request: FetchRequest, status: &ModelStatus) -> (r: (Session, Action))
    requires
        request.init matches Some(t) ==> t.valid(),
    ensures
        r.0.request == request,
        r.0.well_formed(),
        after_status(request, *status, r.0, r.1),
{
    let resolved = match fetch::resolve(status, &request) {
        Ok(x) => x,
        Err(e) => {
            return Session::failed(request, e);
        },
    };
    let ghost x = resolved.as_resolution();
    if !all_in_range(resolved.init, resolved.steps.as_slice()) || !all_in_range(
        resolved.init,
        resolved.plan.unique_steps(),
    ) {
        assert(resolved.as_resolution() == x && !steps_in_range(resolved));
        return Session::aborted(request, "a step is out of range");
    }
    let keys = fetch::step_keys(
        request.model.as_str(),
        resolved.init,
        resolved.plan.unique_steps(),
    );
    (Session { request, stage: Stage::Sizes(resolved) }, Action::StatObjects(keys))
}

fn sizes_known(request: FetchRequest, resolved: Resolved, sizes: &[Option<u64>]) -> (r: (
    Session,
    Action,
))
    requires
        request.init matches Some(t) ==> t.valid(),
        is_ready(request, resolved),
        sizes@.len() == resolved.plan.unique@.len(),
    ensures
        r.0.request == request,
        r.0.well_formed(),
        after_sizes(request, resolved, sizes@, r.0, r.1),
{
    proof {
        fetch::law_files_pass_iff_all_there(sizes@, resolved.plan.unique@);
    }
    if fetch::all_there(sizes) && !fetch::total_fits(sizes) {
        return Session::aborted(request, "the size of the files is out of range");
    }
    let bytes_remote: u64 = match fetch::check_files(
        request.model.as_str(),
        resolved.init,
        resolved.plan.unique_steps(),
        sizes,
    ) {
        Ok(n) => n,
        Err(e) => {
            return Session::failed(request, e);
        },
    };
    let key = key_of(&request, &resolved, 0);
    (
        Session { request, stage: Stage::First(Sources { resolved, bytes_remote }) },
        Action::Open(key),
    )
}

/// The next variable is looked up, or the output grid laid out.
fn go_on(request: FetchRequest, survey: Survey, later: usize) -> (r: (Session, Action))
    requires
        request.init matches Some(t) ==> t.valid(),
        is_ready(request, survey.sources.resolved),
        survey.well_formed(),
    ensures
        r.0.request == request,
        r.0.well_formed(),
        goes_on(survey, later as int, r.0, r.1),
{
    let i: usize = survey.list.specs.len();
    if i == survey.vars.len() {
        let action = Action::PlanGrid {
            crs_wkt: survey.crs_wkt.as_str().to_owned(),
            dims: om::copy_dims(survey.list.dims.as_slice()),
        };
        return (Session { request, stage: Stage::Grid(survey) }, action);
    }
    match fetch::info_file(
        survey.vars[i].as_str(),
        survey.first_key.as_str(),
        survey.present.as_slice(),
        later,
        survey.open_files,
    ) {
        Ok(file) => look_up(request, survey, file),
        Err(e) => Session::failed(request, e),
    }
}

fn look_up(request: FetchRequest, survey: Survey, file: usize) -> (r: (Session, Action))
    requires
        request.init matches Some(t) ==> t.valid(),
        is_ready(request, survey.sources.resolved),
        survey.well_formed(),
        survey.list.specs@.len() < survey.vars@.len(),
        file < survey.open_files,
    ensures
        r.0.request == request,
        r.0.well_formed(),
        looks_up(survey, file as int, r.0, r.1),
{
    let var = survey.vars[survey.list.specs.len()].as_str().to_owned();
    (Session { request, stage: Stage::Describing(survey, file) }, Action::Describe(file, var))
}

fn open_next(request: FetchRequest, survey: Survey) -> (r: (Session, Action))
    requires
        request.init matches Some(t) ==> t.valid(),
        is_ready(request, survey.sources.resolved),
        survey.well_formed(),
        survey.list.specs@.len() < survey.vars@.len(),
        survey.open_files < survey.sources.resolved.steps@.len(),
    ensures
        r.0.request == request,
        r.0.well_formed(),
        opens_next(request, survey, r.0, r.1),
{
    let key = key_of(&request, &survey.sources.resolved, survey.open_files);
    (Session { request, stage: Stage::Later(survey) }, Action::Open(key))
}

fn key_of(request: &FetchRequest, resolved: &Resolved, i: usize) -> (r: String)
    requires
        is_ready(*request, *resolved),
        i < resolved.steps@.len(),
    ensures
        r@ == file_key(*request, *resolved, i as int),
{
    assert(timefmt::can_shift(resolved.init, resolved.steps@[i as int] as int));
    timefmt::step_key(request.model.as_str(), resolved.init, resolved.steps[i])
}

fn vanished_object(request: FetchRequest, key: &str) -> (r: (Session, Action))
    ensures
        r.0.request == request,
        fails(r.0, r.1, vanished(key@)),
{
    let mut e = "object vanished: ".to_owned();
    e.append(key);
    Session::failed(request, e)
}

fn time_of(tree: &StepFile, name: &str) -> (r: Option<UtcTime>)
    requires
        tree.well_formed(),
    ensures
        r == file_time(*tree, name@),
        r matches Some(t) ==> t.valid(),
{
    tree.scalar_time(name)
}

fn first_opened(request: FetchRequest, sources: Sources, tree: &StepFile) -> (r: (Session, Action))
    requires
        request.init matches Some(t) ==> t.valid(),
        is_ready(request, sources.resolved),
        tree.well_formed(),
    ensures
        r.0.request == request,
        r.0.well_formed(),
        after_first(request, sources, *tree, r.0, r.1),
{
    let ghost resolved = sources.resolved;
    let init = sources.resolved.init;
    let step: i64 = sources.resolved.steps[0];
    assert(timefmt::can_shift(init, step as int));
    if let Err(e) = fetch::check_times(
        tree.key.as_str(),
        time_of(tree, "forecast_reference_time"),
        time_of(tree, "valid_time"),
        init,
        step,
    ) {
        return Session::failed(request, e);
    }
    let crs_wkt = match tree.crs_wkt() {
        Ok(w) => w,
        Err(e) => {
            return Session::failed(request, e);
        },
    };
    let present = tree.variable_names();
    let chosen = match fetch::select_variables(
        tree.key.as_str(),
        sources.resolved.vars.as_slice(),
        present.as_slice(),
        request.missing_as_nan,
    ) {
        Ok(c) => c,
        Err(e) => {
            return Session::failed(request, e);
        },
    };
    assert(text::texts(chosen.absent@).len() == chosen.absent@.len());
    assert(text::texts(chosen.vars@).len() == chosen.vars@.len());
    let further = sources.resolved.steps.len() > 1 && chosen.absent.len() > 0;
    let survey = Survey {
        sources,
        first_key: tree.key.as_str().to_owned(),
        crs_wkt,
        present,
        vars: chosen.vars,
        open_files: 1,
        list: VarList::new(),
    };
    assert(survey.is_survey_of(sources, *tree));
    if further {
        open_next(request, survey)
    } else {
        go_on(request, survey, 1)
    }
}

fn later_opened(request: FetchRequest, survey: Survey) -> (r: (Session, Action))
    requires
        request.init matches Some(t) ==> t.valid(),
        is_ready(request, survey.sources.resolved),
        survey.well_formed(),
        survey.open_files < survey.sources.resolved.steps@.len(),
    ensures
        r.0.request == request,
        r.0.well_formed(),
        goes_on(survey.with_next_file(), survey.open_files as int, r.0, r.1),
{
    let ghost before = survey;
    let mut survey = survey;
    let file: usize = survey.open_files;
    assert(survey.sources.resolved.steps.len() == survey.sources.resolved.steps@.len());
    survey.open_files = file + 1;
    assert(survey == before.with_next_file());
    go_on(request, survey, file)
}

fn lookup_failed(request: FetchRequest, survey: Survey, file: usize, cause: String) -> (r: (
    Session,
    Action,
))
    requires
        request.init matches Some(t) ==> t.valid(),
        is_ready(request, survey.sources.resolved),
        survey.well_formed(),
        survey.list.specs@.len() < survey.vars@.len(),
        file < survey.open_files,
    ensures
        r.0.request == request,
        r.0.well_formed(),
        after_failed_lookup(request, survey, file as int, cause@, r.0, r.1),
{
    if file == 0 {
        return Session::failed(request, cause);
    }
    let files: usize = survey.sources.resolved.steps.len();
    if file + 1 == files {
        let last_key = key_of(&request, &survey.sources.resolved, file);
        let e = fetch::in_no_file(
            survey.vars[survey.list.specs.len()].as_str(),
            survey.first_key.as_str(),
            last_key.as_str(),
            files,
            cause.as_str(),
        );
        return Session::failed(request, e);
    }
    if file + 1 == survey.open_files {
        open_next(request, survey)
    } else {
        look_up(request, survey, file + 1)
    }
}

fn described(request: FetchRequest, survey: Survey, info: VarInfo) -> (r: (Session, Action))
    requires
        request.init matches Some(t) ==> t.valid(),
        is_ready(request, survey.sources.resolved),
        survey.well_formed(),
        survey.list.specs@.len() < survey.vars@.len(),
    ensures
        r.0.request == request,
        r.0.well_formed(),
        after_description(survey, info, r.0, r.1),
{
    let ghost before = survey;
    let mut survey = survey;
    let var = survey.vars[survey.list.specs.len()].as_str().to_owned();
    if let Err(e) = survey.list.push(var.as_str(), info) {
        return Session::failed(request, e);
    }
    assert(survey.same_but_list(before));
    go_on(request, survey, 1)
}

fn describe_layout(request: &FetchRequest, survey: &Survey, grid: &GridPlan) -> (r: Result<
    Layout,
    String,
>)
    requires
        is_ready(*request, survey.sources.resolved),
    ensures
        r matches Ok(l) && is_layout(layout_source(*request, *survey, *grid), l),
{
    let r = &survey.sources.resolved;
    let intervals = r.plan.intervals();
    let interval_minutes = if r.available.is_some() {
        Some(intervals.as_slice())
    } else {
        None
    };
    let (source_grid, regrid_method) = match &grid.regrid {
        Some((g, m)) => (Some(g.as_str()), Some(*m)),
        None => (None, None),
    };
    let source = fetch::source_attribute(request.bucket.as_str(), request.model.as_str(), r.init);
    let spec = NcSpec {
        model: request.model.as_str(),
        init: r.init,
        steps_minutes: r.steps.as_slice(),
        interval_minutes,
        interval_comment: r.interval_comment.as_str(),
        ny: grid.ny,
        nx: grid.nx,
        vars: survey.list.specs.as_slice(),
        crs_wkt: survey.crs_wkt.as_str(),
        history: request.history.as_str(),
        source: source.as_str(),
        source_grid,
        regrid_method,
        deflate_level: request.deflate_level,
    };
    assert(spec@ == layout_source(*request, *survey, *grid));
    nc::layout(&spec)
}

fn grid_known(request: FetchRequest, survey: Survey, grid: GridPlan) -> (r: (Session, Action))
    requires
        request.init matches Some(t) ==> t.valid(),
        is_ready(request, survey.sources.resolved),
    ensures
        r.0.request == request,
        r.0.well_formed(),
        after_grid(request, survey, grid, r.0, r.1),
{
    match describe_layout(&request, &survey, &grid) {
        Ok(l) => (
            Session {
                request,
                stage: Stage::Creating(Writing { survey, ny: grid.ny, nx: grid.nx }),
            },
            Action::Create(l),
        ),
        Err(e) => Session::failed(request, e),
    }
}

impl Session {
    /// Decide what comes next.
    pub fn next(self, event: Event) -> (r: (Session, Action))
        requires
            self.well_formed(),
            self.expects(event),
        ensures
            r.0.well_formed(),
            self.follows(event, r.0, r.1),
    {
        let request = self.request;
        match (self.stage, event) {
            (Stage::Output, Event::Output { already }) => match fetch::check_output(
                request.output.as_str(),
                already,
                request.overwrite,
            ) {
                Ok(_) => (Session { request, stage: Stage::Status }, Action::ReadStatus),
                Err(e) => Session::failed(request, e),
            },
            (Stage::Status, Event::Status(Ok(status))) => status_known(request, &status),
            (Stage::Sizes(r), Event::Sizes(Ok(sizes))) => sizes_known(request, r, sizes.as_slice()),
            (Stage::First(s), Event::Opened(Ok(Some(tree)))) => first_opened(request, s, &tree),
            (Stage::First(s), Event::Opened(Ok(None))) => {
                let key = key_of(&request, &s.resolved, 0);
                vanished_object(request, key.as_str())
            },
            (Stage::Later(v), Event::Opened(Ok(Some(_)))) => later_opened(request, v),
            (Stage::Later(v), Event::Opened(Ok(None))) => {
                let key = key_of(&request, &v.sources.resolved, v.open_files);
                vanished_object(request, key.as_str())
            },
            (Stage::Describing(v, _), Event::Described(Ok(info))) => described(request, v, info),
            (Stage::Describing(v, file), Event::Described(Err(e))) => lookup_failed(
                request,
                v,
                file,
                e,
            ),
            (Stage::Grid(v), Event::Grid(Ok(g))) => grid_known(request, v, g),
            (Stage::Grid(_), Event::Grid(Err(GridFailure::Unsupported(cause)))) => {
                let mut e = "model ".to_owned();
                e.append(request.model.as_str());
                e.append(" cannot be written as a lat/lon NetCDF: ");
                e.append(cause.as_str());
                Session::failed(request, e)
            },
            (Stage::Grid(_), Event::Grid(Err(GridFailure::Refused(e)))) => Session::failed(
                request,
                e,
            ),
            (Stage::Creating(w), Event::Created(Ok(_))) => (
                Session { request, stage: Stage::Writing(w) },
                Action::WriteSlabs,
            ),
            (Stage::Writing(w), Event::Written(Ok(_))) => (
                Session { request, stage: Stage::Closing(w) },
                Action::Close,
            ),
            (Stage::Writing(_), Event::Written(Err(e))) => (
                Session { request, stage: Stage::Removing(e) },
                Action::RemovePart,
            ),
            (Stage::Closing(w), Event::Closed(Ok(_))) => (
                Session { request, stage: Stage::Moving(w) },
                Action::Rename,
            ),
            (Stage::Moving(w), Event::Moved(Ok(_))) => {
                let summary = FetchSummary {
                    init: w.survey.sources.resolved.init,
                    steps: w.survey.sources.resolved.steps.len(),
                    vars: w.survey.vars.len(),
                    ny: w.ny,
                    nx: w.nx,
                    bytes_remote: w.survey.sources.bytes_remote,
                };
                (Session { request, stage: Stage::Done(w) }, Action::Finish(summary))
            },
            (Stage::Removing(e), Event::Removed) => Session::failed(request, e),
            (_, Event::Status(Err(e))) => Session::failed(request, e),
            (_, Event::Sizes(Err(e))) => Session::failed(request, e),
            (_, Event::Opened(Err(e))) => Session::failed(request, e),
            (_, Event::Created(Err(e))) => Session::failed(request, e),
            (_, Event::Closed(Err(e))) => Session::failed(request, e),
            (_, Event::Moved(Err(e))) => Session::failed(request, e),
            _ => Session::failed(request, String::new()),
        }
    }
}

/// A fetch for `req` to which `events` have happened can be in the state `s`.
pub open spec fn reaches(req: FetchRequest, events: Seq<Event>, s: Session) -> bool
    decreases events.len(),
{
    if events.len() == 0 {
        s.request == req && s.stage is Output
    } else {
        exists|p: Session, a: Action| #[trigger]
            p.follows(events.last(), s, a) && p.expects(events.last()) && reaches(
                req,
                events.drop_last(),
                p,
            )
    }
}

/// The output was not there, or may be replaced.
pub open spec fn output_is_free(req: FetchRequest, e: Event) -> bool {
    e matches Event::Output { already } && (!already || req.overwrite)
}

/// The status files provide what is requested.
pub open spec fn status_provides(req: FetchRequest, r: Resolved, e: Event) -> bool {
    e matches Event::Status(Ok(s)) && fetch::resolution(s, req) == Ok::<_, Seq<char>>(
        r.as_resolution(),
    )
}

/// Every file that is to be read is there.
pub open spec fn files_are_there(e: Event) -> bool {
    e matches Event::Sizes(Ok(v)) && forall|i: int|
        0 <= i < v@.len() ==> #[trigger] v@[i] is Some
}

/// The first file holds the requested run and step, its coordinate system, and
/// the requested variables as far as they must be there.
pub open spec fn first_file_fits(req: FetchRequest, r: Resolved, e: Event) -> bool {
    e matches Event::Opened(Ok(Some(tree))) && first_file_error(req, r, tree) is None
}

/// The resolved request of a stage, from the stage on at which it is known.
pub open spec fn resolved_of(stage: Stage) -> Option<Resolved> {
    match stage {
        Stage::Sizes(r) => Some(r),
        Stage::First(s) => Some(s.resolved),
        Stage::Later(v) => Some(v.sources.resolved),
        Stage::Describing(v, _) => Some(v.sources.resolved),
        Stage::Grid(v) => Some(v.sources.resolved),
        Stage::Creating(w) => Some(w.survey.sources.resolved),
        Stage::Writing(w) => Some(w.survey.sources.resolved),
        Stage::Closing(w) => Some(w.survey.sources.resolved),
        Stage::Moving(w) => Some(w.survey.sources.resolved),
        Stage::Done(w) => Some(w.survey.sources.resolved),
        _ => None,
    }
}

/// The stage comes behind the look at the first file.
pub open spec fn is_behind_first(stage: Stage) -> bool {
    resolved_of(stage) is Some && !(stage is Sizes) && !(stage is First)
}

/// What must have happened before a fetch is at the given stage.
pub open spec fn checked(req: FetchRequest, events: Seq<Event>, stage: Stage) -> bool {
    &&& stage is Status || resolved_of(stage) is Some ==> exists|i: int|
        0 <= i < events.len() && #[trigger] output_is_free(req, events[i])
    &&& resolved_of(stage) matches Some(r) ==> exists|i: int|
        0 <= i < events.len() && #[trigger] status_provides(req, r, events[i])
    &&& resolved_of(stage) is Some && !(stage is Sizes) ==> exists|i: int|
        0 <= i < events.len() && #[trigger] files_are_there(events[i])
    &&& is_behind_first(stage) ==> exists|i: int|
        0 <= i < events.len() && #[trigger] first_file_fits(
            req,
            resolved_of(stage)->0,
            events[i],
        )
}

/// How a check is passed on from one state to the next.
proof fn lemma_checks_of_a_step(p: Session, e: Event, s: Session, a: Action)
    requires
        p.expects(e),
        p.follows(e, s, a),
    ensures
        s.request == p.request,
        s.stage is Status ==> output_is_free(p.request, e),
        resolved_of(s.stage) is Some ==> if p.stage is Status {
            s.stage is Sizes && status_provides(p.request, resolved_of(s.stage)->0, e)
        } else {
            resolved_of(p.stage) == resolved_of(s.stage)
        },
        resolved_of(s.stage) is Some && !(s.stage is Sizes) && p.stage is Sizes ==> files_are_there(
            e,
        ),
        s.stage is Sizes ==> p.stage is Status,
        s.stage is First ==> p.stage is Sizes,
        is_behind_first(s.stage) && p.stage is First ==> first_file_fits(
            p.request,
            resolved_of(s.stage)->0,
            e,
        ),
        is_behind_first(s.stage) ==> p.stage is First || is_behind_first(p.stage),
{
    match (p.stage, e) {
        (Stage::Sizes(r), Event::Sizes(Ok(v))) => {
            fetch::law_files_pass_iff_all_there(v@, r.plan.unique@);
        },
        (Stage::First(src), Event::Opened(Ok(Some(tree)))) => {
            if first_file_error(p.request, src.resolved, tree) is None {
                let v = choose|v: Survey|
                    #![trigger v.is_survey_of(src, tree)]
                    v.is_survey_of(src, tree) && v.well_formed() && (if looks_further(
                        src.resolved,
                        text::texts(v.present@),
                        text::texts(v.vars@),
                    ) {
                        opens_next(p.request, v, s, a)
                    } else {
                        goes_on(v, 1, s, a)
                    });
                assert(v.sources == src);
            }
        },
        _ => {},
    }
}

proof fn lemma_checked(req: FetchRequest, events: Seq<Event>, s: Session)
    requires
        reaches(req, events, s),
    ensures
        s.request == req,
        checked(req, events, s.stage),
    decreases events.len(),
{
    if events.len() > 0 {
        let before = events.drop_last();
        let e = events.last();
        let n = before.len() as int;
        let (p, a) = choose|p: Session, a: Action| #[trigger]
            p.follows(e, s, a) && p.expects(e) && reaches(req, before, p);
        lemma_checked(req, before, p);
        lemma_checks_of_a_step(p, e, s, a);
        lemma_checks_are_kept(req, before, e, p.stage);
        assert(events == before.push(e));
        assert(events[n] == e);
        let stage = s.stage;
        if stage is Status {
            assert(output_is_free(req, events[n]));
        }
        if let Some(r) = resolved_of(stage) {
            if p.stage is Status {
                assert(status_provides(req, r, events[n]));
            }
            if !(stage is Sizes) && p.stage is Sizes {
                assert(files_are_there(events[n]));
            }
            if is_behind_first(stage) && p.stage is First {
                assert(first_file_fits(req, r, events[n]));
            }
        }
    } else {
        assert(resolved_of(s.stage) is None);
    }
}

/// What has happened has happened.
proof fn lemma_checks_are_kept(req: FetchRequest, before: Seq<Event>, e: Event, stage: Stage)
    requires
        checked(req, before, stage),
    ensures
        checked(req, before.push(e), stage),
{
    let events = before.push(e);
    if stage is Status || resolved_of(stage) is Some {
        let i = choose|i: int| 0 <= i < before.len() && #[trigger] output_is_free(req, before[i]);
        assert(output_is_free(req, events[i]));
    }
    if let Some(r) = resolved_of(stage) {
        let i = choose|i: int|
            0 <= i < before.len() && #[trigger] status_provides(req, r, before[i]);
        assert(status_provides(req, r, events[i]));
        if !(stage is Sizes) {
            let j = choose|j: int| 0 <= j < before.len() && #[trigger] files_are_there(before[j]);
            assert(files_are_there(events[j]));
        }
        if is_behind_first(stage) {
            let k = choose|k: int|
                0 <= k < before.len() && #[trigger] first_file_fits(req, r, before[k]);
            assert(first_file_fits(req, r, events[k]));
        }
    }
}

/// Everything is checked before anything is written: when the output is
/// created, it was not there or may be replaced, the status files provide the
/// request, every file to be read is there, and the first file holds what it
/// should.
pub proof fn law_everything_is_checked_before_the_output_is_created(
    req: FetchRequest,
    events: Seq<Event>,
    s: Session,
)
    requires
        reaches(req, events, s),
        s.stage is Creating || s.stage is Writing || s.stage is Closing || s.stage is Moving
            || s.stage is Done,
    ensures
        exists|i: int| 0 <= i < events.len() && #[trigger] output_is_free(req, events[i]),
        exists|i: int|
            0 <= i < events.len() && #[trigger] status_provides(
                req,
                resolved_of(s.stage)->0,
                events[i],
            ),
        exists|i: int| 0 <= i < events.len() && #[trigger] files_are_there(events[i]),
        exists|i: int|
            0 <= i < events.len() && #[trigger] first_file_fits(
                req,
                resolved_of(s.stage)->0,
                events[i],
            ),
{
    lemma_checked(req, events, s);
}

/// What comes right before the last stages.
proof fn lemma_stage_before(p: Session, e: Event, s: Session, a: Action)
    requires
        p.follows(e, s, a),
    ensures
        s.stage is Moving ==> p.stage is Closing && (e matches Event::Closed(Ok(_))),
        s.stage is Closing ==> p.stage is Writing && (e matches Event::Written(Ok(_))),
        s.stage is Writing ==> p.stage is Creating && (e matches Event::Created(Ok(_))),
{
}

proof fn lemma_session_before(req: FetchRequest, events: Seq<Event>, s: Session) -> (p: Session)
    requires
        reaches(req, events, s),
        s.stage is Moving || s.stage is Closing || s.stage is Writing,
    ensures
        events.len() > 0,
        reaches(req, events.drop_last(), p),
        s.stage is Moving ==> p.stage is Closing && (events.last() matches Event::Closed(Ok(_))),
        s.stage is Closing ==> p.stage is Writing && (events.last() matches Event::Written(Ok(_))),
        s.stage is Writing ==> p.stage is Creating && (events.last() matches Event::Created(
            Ok(_),
        )),
{
    assert(events.len() > 0);
    let (p, a) = choose|p: Session, a: Action| #[trigger]
        p.follows(events.last(), s, a) && p.expects(events.last()) && reaches(
            req,
            events.drop_last(),
            p,
        );
    lemma_stage_before(p, events.last(), s, a);
    p
}

/// The output gets its own name only when it has been created, completely
/// written and closed, one right behind the other.
pub proof fn law_the_output_is_renamed_only_when_complete(
    req: FetchRequest,
    events: Seq<Event>,
    s: Session,
)
    requires
        reaches(req, events, s),
        s.stage is Moving,
    ensures
        events.len() >= 3,
        events[events.len() - 1] matches Event::Closed(Ok(_)),
        events[events.len() - 2] matches Event::Written(Ok(_)),
        events[events.len() - 3] matches Event::Created(Ok(_)),
{
    let p = lemma_session_before(req, events, s);
    let q = lemma_session_before(req, events.drop_last(), p);
    let o = lemma_session_before(req, events.drop_last().drop_last(), q);
}

/// A write that fails is followed by the removal of what was written, and then
/// by the failure.
pub proof fn law_a_failed_write_is_removed(s: Session, e: String, next: Session, a: Action)
    requires
        s.stage is Writing,
        s.follows(Event::Written(Err(e)), next, a),
    ensures
        a is RemovePart,
        forall|last: Session, b: Action| #[trigger]
            next.follows(Event::Removed, last, b) ==> fails(last, b, e@),
{
}

/// The event fits step files of which those for which `found` holds have the
/// variable that is looked up: a look-up finds it exactly in those, and every
/// file can be opened.
pub open spec fn answers(s: Session, e: Event, found: spec_fn(int) -> bool) -> bool {
    match (s.stage, e) {
        (Stage::Describing(_, f), Event::Described(r)) => r is Ok == found(f as int),
        (Stage::Later(_), Event::Opened(r)) => r matches Ok(Some(_)),
        _ => true,
    }
}

/// However the session goes on, it comes in at most `steps` steps to look up the
/// variable behind those of `list` in the given file.
pub open spec fn comes_to(
    s: Session,
    found: spec_fn(int) -> bool,
    list: VarList,
    file: int,
    steps: nat,
) -> bool
    decreases steps,
{
    ||| s.stage matches Stage::Describing(v, f) && v.list == list && f == file
    ||| steps > 0 && forall|e: Event, n: Session, a: Action| #[trigger]
        s.follows(e, n, a) && s.expects(e) && answers(s, e, found) ==> comes_to(
            n,
            found,
            list,
            file,
            (steps - 1) as nat,
        )
}

proof fn lemma_more_steps(
    s: Session,
    found: spec_fn(int) -> bool,
    list: VarList,
    file: int,
    steps: nat,
)
    requires
        comes_to(s, found, list, file, steps),
    ensures
        comes_to(s, found, list, file, steps + 1),
    decreases steps,
{
    if !(s.stage matches Stage::Describing(v, f) && v.list == list && f == file) {
        assert forall|e: Event, n: Session, a: Action| #[trigger]
            s.follows(e, n, a) && s.expects(e) && answers(s, e, found) implies comes_to(
            n,
            found,
            list,
            file,
            steps,
        ) by {
            lemma_more_steps(n, found, list, file, (steps - 1) as nat);
        }
    }
}

/// What a session in search of a variable does next.
proof fn lemma_search_step(s: Session, e: Event, n: Session, a: Action, found: spec_fn(int) -> bool)
    requires
        s.well_formed(),
        s.expects(e),
        s.follows(e, n, a),
        answers(s, e, found),
    ensures
        s.stage matches Stage::Describing(v, f) ==> !found(f as int) && 0 < f && f + 1
            < v.sources.resolved.steps@.len() ==> n.well_formed() && (if f + 1 == v.open_files {
            n.stage == Stage::Later(v)
        } else {
            n.stage == Stage::Describing(v, (f + 1) as usize)
        }),
        s.stage matches Stage::Later(v) ==> !text::texts(v.present@).contains(v.current())
            ==> n.well_formed() && n.stage == Stage::Describing(v.with_next_file(), v.open_files),
{
    if let Stage::Later(v) = s.stage {
        assert(v.with_next_file().current() == v.current());
        assert(v.sources.resolved.steps.len() == v.sources.resolved.steps@.len());
    }
}

/// A variable that the first file lacks is found in the first of the later step
/// files that has it, however many lie between: a look-up that fails leads on to
/// the file of the next step.
pub proof fn law_a_variable_of_a_later_file_is_found(
    s: Session,
    found: spec_fn(int) -> bool,
    file: int,
)
    requires
        s.well_formed(),
        s.stage matches Stage::Describing(v, f) && 0 < f <= file && !text::texts(
            v.present@,
        ).contains(v.current()) && file < v.sources.resolved.steps@.len(),
        forall|k: int| s.stage->Describing_1 <= k < file ==> !#[trigger] found(k),
    ensures
        comes_to(
            s,
            found,
            s.stage->Describing_0.list,
            file,
            (2 * (file - s.stage->Describing_1)) as nat,
        ),
    decreases file - s.stage->Describing_1,
{
    let v = s.stage->Describing_0;
    let f = s.stage->Describing_1 as int;
    if f < file {
        let steps = (2 * (file - f)) as nat;
        assert(!found(f));
        assert forall|e: Event, n: Session, a: Action| #[trigger]
            s.follows(e, n, a) && s.expects(e) && answers(s, e, found) implies comes_to(
            n,
            found,
            v.list,
            file,
            (steps - 1) as nat,
        ) by {
            lemma_search_step(s, e, n, a, found);
            if f + 1 == v.open_files {
                assert forall|e2: Event, n2: Session, a2: Action| #[trigger]
                    n.follows(e2, n2, a2) && n.expects(e2) && answers(n, e2, found) implies comes_to(
                    n2,
                    found,
                    v.list,
                    file,
                    (steps - 2) as nat,
                ) by {
                    lemma_search_step(n, e2, n2, a2, found);
                    assert(v.with_next_file().current() == v.current());
                    law_a_variable_of_a_later_file_is_found(n2, found, file);
                }
            } else {
                law_a_variable_of_a_later_file_is_found(n, found, file);
                lemma_more_steps(n, found, v.list, file, (steps - 2) as nat);
            }
        }
    }
}

/// A fetch that is done or has failed waits for nothing.
pub proof fn law_the_end_is_the_end(s: Session, e: Event)
    requires
        s.stage is Done || s.stage is Failed,
    ensures
        !s.expects(e),
{
}

/// Once the request is resolved, every file that any output step reads is looked for,
/// under its key.
pub proof fn law_every_source_is_looked_for(
    s: Session,
    status: ModelStatus,
    next: Session,
    action: Action,
)
    requires
        s.stage is Status,
        s.follows(Event::Status(Ok(status)), next, action),
        next.stage is Sizes,
    ensures
        ({
            let r = next.stage->Sizes_0;
            &&& action matches Action::StatObjects(keys) && forall|i: int, j: int|
                0 <= i < r.plan.outputs@.len() && 0 <= j < r.plan.outputs@[i].sources@.len()
                    ==> text::texts(keys@).contains(
                    timefmt::step_key_text(
                        s.request.model@,
                        r.init,
                        (#[trigger] r.plan.outputs@[i].sources@[j]).step as int,
                    ),
                )
            &&& r.plan.outputs@.len() == r.steps@.len()
            &&& forall|i: int|
                0 <= i < r.steps@.len() ==> (#[trigger] r.plan.outputs@[i]).step == r.steps@[i]
        }),
{
    let r = next.stage->Sizes_0;
    let keys = action->StatObjects_0;
    let req = s.request;
    plan::law_files_that_are_read(r.plan, r.steps@, r.native_times(), req.accumulate);
    assert forall|i: int, j: int|
        0 <= i < r.plan.outputs@.len() && 0 <= j
            < r.plan.outputs@[i].sources@.len() implies text::texts(keys@).contains(
        timefmt::step_key_text(
            req.model@,
            r.init,
            (#[trigger] r.plan.outputs@[i].sources@[j]).step as int,
        ),
    ) by {
        let x = r.plan.outputs@[i].sources@[j].step;
        let k = choose|k: int| 0 <= k < r.plan.unique@.len() && r.plan.unique@[k] == x;
        assert(text::texts(keys@)[k] == timefmt::step_key_text(req.model@, r.init, x as int));
    }
}

/// Where all files are there, the size of all of them is remembered and the file of
/// the first step is opened.
pub proof fn law_the_first_file_is_opened(
    s: Session,
    sizes: Vec<Option<u64>>,
    next: Session,
    action: Action,
)
    requires
        s.stage is Sizes,
        s.expects(Event::Sizes(Ok(sizes))),
        s.follows(Event::Sizes(Ok(sizes)), next, action),
        forall|i: int| 0 <= i < sizes@.len() ==> #[trigger] sizes@[i] is Some,
        fetch::total_size(sizes@) <= u64::MAX,
    ensures
        ({
            let r = s.stage->Sizes_0;
            &&& next.stage matches Stage::First(src) && src.resolved == r && src.bytes_remote
                == fetch::total_size(sizes@)
            &&& action matches Action::Open(k) && k@ == timefmt::step_key_text(
                s.request.model@,
                r.init,
                r.steps@[0] as int,
            )
        }),
{
    fetch::law_files_pass_iff_all_there(sizes@, s.stage->Sizes_0.plan.unique@);
    fetch::lemma_size_not_negative(sizes@);
}

/// The file holds a variable of the given name with the given values.
pub open spec fn lays_out(l: Layout, name: Seq<char>, content: nc::Content) -> bool {
    exists|i: int|
        0 <= i < l.variables@.len() && (#[trigger] l.variables@[i]).name@ == name
            && l.variables@[i].values.content() == content
}

proof fn lemma_lays_out(l: Layout, spec: nc::NcText, i: int)
    requires
        is_layout(spec, l),
        0 <= i < spec.variable_list().len(),
    ensures
        lays_out(l, spec.variable_list()[i].name, spec.variable_list()[i].content),
{
    let t = nc::variable_texts(l.variables@);
    assert(t[i] == l.variables@[i].as_text());
    assert(l.variables@[i].name@ == spec.variable_list()[i].name);
}

/// The output is laid out for what was asked for: the times are the steps of the
/// request, every variable that was looked up is there with slabs of the size of the
/// output grid, the dimensions are the numbers of steps, latitudes and longitudes, and
/// the intervals are those of the plan where they are known.
pub proof fn law_the_output_is_laid_out_for_the_request(
    s: Session,
    grid: GridPlan,
    next: Session,
    action: Action,
)
    requires
        s.stage is Grid,
        s.follows(Event::Grid(Ok(grid)), next, action),
    ensures
        ({
            let v = s.stage->Grid_0;
            let r = v.sources.resolved;
            &&& next.stage matches Stage::Creating(w) && w.survey == v && w.ny == grid.ny && w.nx
                == grid.nx
            &&& action matches Action::Create(l)
            &&& lays_out(l, "time"@, nc::Content::Hours(r.steps@))
            &&& lays_out(l, "step"@, nc::Content::Hours(r.steps@))
            &&& lays_out(l, "forecast_reference_time"@, nc::Content::Seconds(r.init.secs))
            &&& forall|k: int|
                0 <= k < v.list.specs@.len() ==> lays_out(
                    l,
                    (#[trigger] v.list.specs@[k]).name@,
                    nc::Content::Slabs { ny: grid.ny, nx: grid.nx, level: s.request.deflate_level },
                )
            &&& nc::has_length(
                nc::dimension_texts(l.dimensions@),
                "time"@,
                r.steps@.len() as int,
            )
            &&& nc::has_length(nc::dimension_texts(l.dimensions@), "latitude"@, grid.ny as int)
            &&& nc::has_length(nc::dimension_texts(l.dimensions@), "longitude"@, grid.nx as int)
            &&& nc::says(nc::attribute_texts(l.attributes@), "model"@, s.request.model@)
            &&& nc::says(nc::attribute_texts(l.attributes@), "history"@, s.request.history@)
            &&& r.available is Some ==> exists|iv: Seq<(i64, i64)>| #[trigger]
                lays_out(l, "time_bnds"@, nc::Content::Bounds(iv)) && iv.len()
                    == r.plan.outputs@.len() && forall|i: int|
                    0 <= i < iv.len() ==> #[trigger] iv[i] == r.plan.outputs@[i].interval
        }),
{
    let v = s.stage->Grid_0;
    let r = v.sources.resolved;
    let l = action->Create_0;
    let spec = layout_source(s.request, v, grid);
    let vars = spec.variable_list();
    let n = if spec.intervals is Some {
        1int
    } else {
        0
    };
    nc::law_global_attributes(spec);
    nc::lemma_lengths(spec);
    assert(vars[0] == spec.time_variable());
    lemma_lays_out(l, spec, 0);
    assert(vars[n + 1] == spec.step_variable());
    lemma_lays_out(l, spec, n + 1);
    assert(vars[n + 2] == spec.reference_variable());
    lemma_lays_out(l, spec, n + 2);
    if let Some(iv) = spec.intervals {
        assert(vars[1] == spec.bounds_variable(iv));
        lemma_lays_out(l, spec, 1);
        assert(lays_out(l, "time_bnds"@, nc::Content::Bounds(iv)));
    }
    assert forall|k: int| 0 <= k < v.list.specs@.len() implies lays_out(
        l,
        (#[trigger] v.list.specs@[k]).name@,
        nc::Content::Slabs { ny: grid.ny, nx: grid.nx, level: s.request.deflate_level },
    ) by {
        nc::law_data_variables(spec, k);
        lemma_lays_out(l, spec, vars.len() - spec.vars.len() + k);
    }
}

/// The survey that a stage holds.
pub open spec fn survey_of(stage: Stage) -> Option<Survey> {
    match stage {
        Stage::Later(v) => Some(v),
        Stage::Describing(v, _) => Some(v),
        Stage::Grid(v) => Some(v),
        Stage::Creating(w) => Some(w.survey),
        Stage::Writing(w) => Some(w.survey),
        Stage::Closing(w) => Some(w.survey),
        Stage::Moving(w) => Some(w.survey),
        Stage::Done(w) => Some(w.survey),
        _ => None,
    }
}

/// The variables that have been looked up are those to fetch, in their order.
pub open spec fn is_in_order(v: Survey) -> bool {
    &&& v.list.specs@.len() <= v.vars@.len()
    &&& forall|i: int|
        0 <= i < v.list.specs@.len() ==> (#[trigger] v.list.specs@[i]).name@ == v.vars@[i]@
            && v.list.specs@[i].reduction == cf::reduction_of(v.vars@[i]@)
    &&& v.sources.resolved.vars@.len() > 0 ==> text::texts(v.vars@) == text::texts(
        v.sources.resolved.vars@,
    )
}

proof fn lemma_goes_on(v: Survey, later: int, n: Session, a: Action)
    requires
        is_in_order(v),
        goes_on(v, later, n, a),
    ensures
        survey_of(n.stage) matches Some(w) ==> is_in_order(w),
        n.stage matches Stage::Grid(w) ==> w.list.specs@.len() == w.vars@.len(),
        !(n.stage is Creating || n.stage is Writing || n.stage is Closing || n.stage is Moving
            || n.stage is Done),
{
}

#[verifier::spinoff_prover]
#[verifier::rlimit(60)]
proof fn lemma_order_of_a_step(p: Session, e: Event, s: Session, a: Action)
    requires
        p.expects(e),
        p.follows(e, s, a),
        survey_of(p.stage) matches Some(v) ==> is_in_order(v),
        survey_of(p.stage) is Some && !(p.stage is Later || p.stage is Describing)
            ==> survey_of(p.stage)->0.list.specs@.len() == survey_of(p.stage)->0.vars@.len(),
        p.stage matches Stage::Describing(v, _) ==> v.list.specs@.len() < v.vars@.len(),
    ensures
        survey_of(s.stage) matches Some(v) ==> is_in_order(v),
        survey_of(s.stage) is Some && !(s.stage is Later || s.stage is Describing)
            ==> survey_of(s.stage)->0.list.specs@.len() == survey_of(s.stage)->0.vars@.len(),
        s.stage matches Stage::Describing(v, _) ==> v.list.specs@.len() < v.vars@.len(),
{
    match (p.stage, e) {
        (Stage::First(src), Event::Opened(Ok(Some(tree)))) => {
            if first_file_error(p.request, src.resolved, tree) is None {
                let v = choose|v: Survey|
                    #![trigger v.is_survey_of(src, tree)]
                    v.is_survey_of(src, tree) && v.well_formed() && (if looks_further(
                        src.resolved,
                        text::texts(v.present@),
                        text::texts(v.vars@),
                    ) {
                        opens_next(p.request, v, s, a)
                    } else {
                        goes_on(v, 1, s, a)
                    });
                assert(text::texts(src.resolved.vars@).len() == src.resolved.vars@.len());
                assert(is_in_order(v));
                if !looks_further(
                    src.resolved,
                    text::texts(v.present@),
                    text::texts(v.vars@),
                ) {
                    lemma_goes_on(v, 1, s, a);
                }
            }
        },
        (Stage::Later(v), Event::Opened(Ok(Some(_)))) => {
            assert(is_in_order(v.with_next_file()));
            lemma_goes_on(v.with_next_file(), v.open_files as int, s, a);
        },
        (Stage::Describing(v, _), Event::Described(Ok(info))) => {
            let i = v.list.specs@.len() as int;
            if !(i > 0 && v.list.dims@ != info.dims@) {
                let w = choose|w: Survey|
                    #![trigger w.same_but_list(v)]
                    {
                        &&& w.same_but_list(v)
                        &&& w.list.dims@ == info.dims@
                        &&& w.list.specs@.len() == i + 1
                        &&& w.list.specs@.drop_last() == v.list.specs@
                        &&& fetch::is_var_spec(w.list.specs@.last(), v.current(), info.units@)
                        &&& goes_on(w, 1, s, a)
                    };
                assert forall|k: int| 0 <= k < w.list.specs@.len() implies (
                #[trigger] w.list.specs@[k]).name@ == w.vars@[k]@ && w.list.specs@[k].reduction
                    == cf::reduction_of(w.vars@[k]@) by {
                    if k < i {
                        assert(w.list.specs@.drop_last()[k] == v.list.specs@[k]);
                    }
                }
                assert(is_in_order(w));
                lemma_goes_on(w, 1, s, a);
            }
        },
        _ => {},
    }
}

proof fn lemma_order(req: FetchRequest, events: Seq<Event>, s: Session)
    requires
        reaches(req, events, s),
    ensures
        survey_of(s.stage) matches Some(v) ==> is_in_order(v),
        survey_of(s.stage) is Some && !(s.stage is Later || s.stage is Describing)
            ==> survey_of(s.stage)->0.list.specs@.len() == survey_of(s.stage)->0.vars@.len(),
        s.stage matches Stage::Describing(v, _) ==> v.list.specs@.len() < v.vars@.len(),
    decreases events.len(),
{
    if events.len() > 0 {
        let e = events.last();
        let (p, a) = choose|p: Session, a: Action| #[trigger]
            p.follows(e, s, a) && p.expects(e) && reaches(req, events.drop_last(), p);
        lemma_order(req, events.drop_last(), p);
        lemma_order_of_a_step(p, e, s, a);
    }
}

/// When the output is created, every variable to fetch has been looked up, in order,
/// with the way in which it covers its interval; and these are the variables of the
/// resolved request, where that has any.
pub proof fn law_every_variable_is_looked_up(req: FetchRequest, events: Seq<Event>, s: Session)
    requires
        reaches(req, events, s),
        s.stage is Creating || s.stage is Writing || s.stage is Closing || s.stage is Moving
            || s.stage is Done,
    ensures
        ({
            let v = survey_of(s.stage)->0;
            let wanted = v.sources.resolved.vars@;
            &&& v.list.specs@.len() == v.vars@.len()
            &&& forall|i: int|
                0 <= i < v.vars@.len() ==> v.list.specs@[i].name@ == (#[trigger] v.vars@[i])@
                    && v.list.specs@[i].reduction == cf::reduction_of(v.vars@[i]@)
            &&& wanted.len() > 0 ==> v.vars@.len() == wanted.len() && forall|i: int|
                0 <= i < wanted.len() ==> v.vars@[i]@ == (#[trigger] wanted[i])@
        }),
{
    lemma_order(req, events, s);
    let v = survey_of(s.stage)->0;
    let wanted = v.sources.resolved.vars@;
    if wanted.len() > 0 {
        assert(text::texts(v.vars@).len() == v.vars@.len());
        assert(text::texts(wanted).len() == wanted.len());
        assert forall|i: int| 0 <= i < wanted.len() implies v.vars@[i]@ == (
        #[trigger] wanted[i])@ by {
            assert(text::texts(v.vars@)[i] == text::texts(wanted)[i]);
        }
    }
    assert forall|i: int| 0 <= i < v.vars@.len() implies v.list.specs@[i].name@ == (
    #[trigger] v.vars@[i])@ && v.list.specs@[i].reduction == cf::reduction_of(v.vars@[i]@) by {
        assert(v.list.specs@[i].name@ == v.vars@[i]@);
    }
}

/// A fetch that is done sums up what was fetched.
pub proof fn law_the_summary(s: Session, next: Session, action: Action)
    requires
        s.stage is Moving,
        s.follows(Event::Moved(Ok(())), next, action),
    ensures
        ({
            let w = s.stage->Moving_0;
            let r = w.survey.sources.resolved;
            &&& action matches Action::Finish(f) && f.init == r.init && f.steps == r.steps@.len()
                && f.vars == w.survey.vars@.len() && f.ny == w.ny && f.nx == w.nx && f.bytes_remote
                == w.survey.sources.bytes_remote
            &&& next.stage == Stage::Done(w)
        }),
{
}

/// The first file passes exactly when it is of the run and of the first step, as far as
/// it says so itself, holds its coordinate system, and has variables to fetch: all of
/// them, unless those that it lacks are to be filled.
pub proof fn law_the_first_file_is_checked(req: FetchRequest, r: Resolved, tree: StepFile)
    requires
        r.init.valid(),
        r.init.nanos == 0,
        r.steps@.len() > 0,
        timefmt::can_shift(r.init, r.steps@[0] as int),
    ensures
        ({
            let present = om::array_names(tree.children@);
            let is_time = |v: int| timefmt::FIRST_SECOND <= v <= timefmt::LAST_SECOND;
            first_file_error(req, r, tree) is None <==> {
                &&& tree.integer("forecast_reference_time"@) matches Some(v) ==> is_time(v) ==> v
                    == r.init.secs
                &&& tree.integer("valid_time"@) matches Some(v) ==> is_time(v) ==> v == r.init.secs
                    + 60 * r.steps@[0]
                &&& tree.child("crs_wkt"@) matches Some(d) && om::text_of(d) is Some
                &&& if r.vars@.len() == 0 {
                    present.len() > 0
                } else {
                    req.missing_as_nan || forall|k: int|
                        0 <= k < r.vars@.len() ==> present.contains((#[trigger] r.vars@[k])@)
                }
            }
        }),
{
    let present = om::array_names(tree.children@);
    let vars = text::texts(r.vars@);
    let step = r.steps@[0] as int;
    let reference = file_time(tree, "forecast_reference_time"@);
    let valid = file_time(tree, "valid_time"@);
    fetch::law_times_pass_iff_they_fit(tree.key@, reference, valid, r.init, step);
    fetch::law_selection(tree.key@, vars, present, req.missing_as_nan);
    assert(vars.len() == r.vars@.len());
    if forall|k: int| 0 <= k < r.vars@.len() ==> present.contains((#[trigger] r.vars@[k])@) {
        assert forall|k: int| 0 <= k < vars.len() implies present.contains(#[trigger] vars[k]) by {
            assert(present.contains(r.vars@[k]@));
        }
    }
    if forall|k: int| 0 <= k < vars.len() ==> present.contains(#[trigger] vars[k]) {
        assert forall|k: int| 0 <= k < r.vars@.len() implies present.contains(
            (#[trigger] r.vars@[k])@,
        ) by {
            assert(present.contains(vars[k]));
        }
    }
}

/// Every variable must have the shape of those before it. What was found of it is kept
/// behind what was found before: its name, its unit and the shape, for which the output
/// grid is laid out in the end.
pub proof fn law_variables_have_one_shape(
    s: Session,
    info: VarInfo,
    next: Session,
    action: Action,
)
    requires
        s.stage is Describing,
        s.follows(Event::Described(Ok(info)), next, action),
    ensures
        ({
            let v = s.stage->Describing_0;
            let n = v.list.specs@.len() as int;
            &&& n > 0 && v.list.dims@ != info.dims@ ==> next.stage is Failed
            &&& survey_of(next.stage) matches Some(w) ==> {
                &&& w.list.dims@ == info.dims@
                &&& w.list.specs@.len() == n + 1
                &&& w.list.specs@[n].name@ == v.vars@[n]@
                &&& w.list.specs@[n].om_units@ == info.units@
                &&& forall|i: int| 0 <= i < n ==> #[trigger] w.list.specs@[i] == v.list.specs@[i]
                &&& w.vars == v.vars
                &&& next.stage is Grid ==> (action matches Action::PlanGrid { crs_wkt, dims }
                    && crs_wkt@ == v.crs_wkt@ && dims@ == info.dims@)
            }
        }),
{
    let v = s.stage->Describing_0;
    let n = v.list.specs@.len() as int;
    if !(n > 0 && v.list.dims@ != info.dims@) {
        let w = choose|w: Survey|
            #![trigger w.same_but_list(v)]
            {
                &&& w.same_but_list(v)
                &&& w.list.dims@ == info.dims@
                &&& w.list.specs@.len() == n + 1
                &&& w.list.specs@.drop_last() == v.list.specs@
                &&& fetch::is_var_spec(w.list.specs@.last(), v.current(), info.units@)
                &&& goes_on(w, 1, next, action)
            };
        assert forall|i: int| 0 <= i < n implies #[trigger] w.list.specs@[i] == v.list.specs@[i] by {
            assert(w.list.specs@.drop_last()[i] == w.list.specs@[i]);
        }
    }
}

/// The steps of a request are in range exactly when the times of all of them, and of
/// all files that they read, are.
pub proof fn law_steps_in_range(r: Resolved)
    requires
        r.init.valid(),
        r.init.nanos < 1_000_000_000,
    ensures
        steps_in_range(r) <==> forall|m: i64|
            #![trigger r.steps@.contains(m)]
            #![trigger r.plan.unique@.contains(m)]
            r.steps@.contains(m) || r.plan.unique@.contains(m) ==> timefmt::FIRST_SECOND
                <= r.init.secs + 60 * m <= timefmt::LAST_SECOND,
{
    if steps_in_range(r) {
        assert forall|m: i64|
            #![trigger r.steps@.contains(m)]
            #![trigger r.plan.unique@.contains(m)]
            r.steps@.contains(m) || r.plan.unique@.contains(m) implies timefmt::FIRST_SECOND
            <= r.init.secs + 60 * m <= timefmt::LAST_SECOND by {
            timefmt::law_moved_times(r.init, m as int);
            if r.steps@.contains(m) {
                let i = choose|i: int| 0 <= i < r.steps@.len() && r.steps@[i] == m;
                assert(timefmt::can_shift(r.init, r.steps@[i] as int));
            } else {
                let i = choose|i: int| 0 <= i < r.plan.unique@.len() && r.plan.unique@[i] == m;
                assert(timefmt::can_shift(r.init, r.plan.unique@[i] as int));
            }
        }
    }
    if forall|m: i64|
        #![trigger r.steps@.contains(m)]
        #![trigger r.plan.unique@.contains(m)]
        r.steps@.contains(m) || r.plan.unique@.contains(m) ==> timefmt::FIRST_SECOND <= r.init.secs
            + 60 * m <= timefmt::LAST_SECOND {
        assert forall|i: int| 0 <= i < r.steps@.len() implies timefmt::can_shift(
            r.init,
            #[trigger] r.steps@[i] as int,
        ) by {
            assert(r.steps@.contains(r.steps@[i]));
            timefmt::law_moved_times(r.init, r.steps@[i] as int);
        }
        assert forall|i: int| 0 <= i < r.plan.unique@.len() implies timefmt::can_shift(
            r.init,
            #[trigger] r.plan.unique@[i] as int,
        ) by {
            assert(r.plan.unique@.contains(r.plan.unique@[i]));
            timefmt::law_moved_times(r.init, r.plan.unique@[i] as int);
        }
    }
}

} // verus!
