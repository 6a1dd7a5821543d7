//! Times of model runs: parsing, object keys and differences.
use crate::calendar;
use crate::shortest;
use crate::store::SPATIAL_PREFIX;
use crate::text;
use vstd::prelude::*;
use vstd::string::*;

verus! {

/// The first second that a time can hold: -262143-01-01T00:00:00Z.
pub const FIRST_SECOND: i64 = -8334601228800;

/// The last second that a time can hold: 262142-12-31T23:59:59Z.
pub const LAST_SECOND: i64 = 8210266876799;

/// A moment in UTC: seconds since 1970-01-01T00:00:00Z and nanoseconds behind
/// that second. Nanoseconds from 1,000,000,000 on mean the leap second behind
/// the last second of a minute.
#[derive(Debug, Clone, Copy, PartialEq, Eq, Structural)]
pub struct UtcTime {
    pub secs: i64,
    pub nanos: u32,
}

pub open spec fn in_range(secs: int) -> bool {
    FIRST_SECOND <= secs <= LAST_SECOND
}

impl UtcTime {
    pub open spec fn valid(self) -> bool {
        &&& in_range(self.secs as int)
        &&& self.nanos < 2_000_000_000
        &&& self.nanos >= 1_000_000_000 ==> self.secs as int % 60 == 59
    }
}

/// What `NaiveDateTime::parse_from_str` makes of `text` in the format `format`,
/// read as UTC.
pub uninterp spec fn naive_parse(text: Seq<char>, format: Seq<char>) -> Option<UtcTime>;

/// What `DateTime::<Utc>::format` writes for the given time.
pub uninterp spec fn formatted(time: UtcTime, format: Seq<char>) -> Seq<char>;

/// A time of the years 0 to 9999 that is no leap second.
pub open spec fn is_plain_time(t: UtcTime) -> bool {
    calendar::has_plain_year(t.secs as int) && t.nanos < 1_000_000_000
}

/// The time without its seconds.
pub open spec fn whole_minute(secs: int) -> UtcTime {
    UtcTime { secs: (secs - secs % 60) as i64, nanos: 0 }
}

/// The time of a second.
pub open spec fn whole_second(secs: int) -> UtcTime {
    UtcTime { secs: secs as i64, nanos: 0 }
}

/// `chrono::NaiveDateTime::parse_from_str`, the result taken as UTC. It is a
/// function of the two texts, and what it gives lies in the range of
/// `DateTime<Utc>`. For a year of four digits, a text with the very fields of
/// the format is read as the time that it shows, without seconds where it shows
/// none. A text with a colon behind the hour, or with more fields, is refused by
/// a format without them. What it makes of other texts is not said.
#[verifier::external_body]
fn parse_naive(text: &str, format: &str) -> (r: Option<UtcTime>)
    ensures
        r == naive_parse(text@, format@),
        r matches Some(t) ==> t.valid(),
        forall|u: int|
            #![trigger calendar::minute_text(u)]
            calendar::has_plain_year(u) && format@ == "%Y-%m-%dT%H%M"@ && text@
                == calendar::minute_text(u) ==> r == Some(whole_minute(u)),
        forall|u: int|
            #![trigger calendar::colon_minute_text(u)]
            calendar::has_plain_year(u) && format@ == "%Y-%m-%dT%H:%M"@ && text@
                == calendar::colon_minute_text(u) ==> r == Some(whole_minute(u)),
        forall|u: int|
            #![trigger calendar::second_text(u)]
            calendar::has_plain_year(u) && format@ == "%Y-%m-%dT%H:%M:%S"@ && text@
                == calendar::second_text(u) ==> r == Some(whole_second(u)),
        forall|u: int|
            #![trigger calendar::colon_minute_text(u)]
            calendar::has_plain_year(u) && format@ == "%Y-%m-%dT%H%M"@ && text@
                == calendar::colon_minute_text(u) ==> r is None,
        forall|u: int|
            #![trigger calendar::second_text(u)]
            calendar::has_plain_year(u) && (format@ == "%Y-%m-%dT%H%M"@ || format@
                == "%Y-%m-%dT%H:%M"@) && text@ == calendar::second_text(u) ==> r is None,
{
    let t = chrono::NaiveDateTime::parse_from_str(text, format).ok()?.and_utc();
    Some(UtcTime { secs: t.timestamp(), nanos: t.timestamp_subsec_nanos() })
}

/// The formats that this library writes times in.
pub open spec fn is_output_format(format: Seq<char>) -> bool {
    ||| format == "%Y/%m/%d/%H%MZ"@
    ||| format == "%Y-%m-%dT%H%M"@
    ||| format == "%Y-%m-%dT%H:%M:%SZ"@
    ||| format == "%Y-%m-%d %H:%M:%S"@
}

/// `chrono::DateTime::<Utc>::format`, written out. It is a function of the time
/// and the format; in the years 0 to 9999 and but for leap seconds it is the
/// year in four digits and the other fields in two. What it writes for other
/// times is not said. It fails on unknown specifiers, of which none stands in
/// the formats that are admitted.
#[verifier::external_body]
pub(crate) fn format_time(t: UtcTime, format: &str) -> (r: String)
    requires
        t.valid(),
        is_output_format(format@),
    ensures
        r@ == formatted(t, format@),
        is_plain_time(t) && format@ == "%Y/%m/%d/%H%MZ"@ ==> r@ == calendar::run_text(
            t.secs as int,
        ),
        is_plain_time(t) && format@ == "%Y-%m-%dT%H%M"@ ==> r@ == calendar::minute_text(
            t.secs as int,
        ),
        is_plain_time(t) && format@ == "%Y-%m-%dT%H:%M:%SZ"@ ==> r@ == calendar::second_text(
            t.secs as int,
        ) + "Z"@,
        is_plain_time(t) && format@ == "%Y-%m-%d %H:%M:%S"@ ==> r@ == calendar::spaced_text(
            t.secs as int,
        ),
{
    chrono::DateTime::<chrono::Utc>::from_timestamp(t.secs, t.nanos).unwrap().format(format).to_string()
}

/// `t` moved by `m` minutes. Moving away from a leap second counts from the
/// second before it when going forward, and from the one behind it when going back.
pub open spec fn shifted(t: UtcTime, m: int) -> (int, int) {
    if t.nanos < 1_000_000_000 || m == 0 {
        (t.secs + 60 * m, t.nanos as int)
    } else if m > 0 {
        (t.secs + 60 * m, t.nanos - 1_000_000_000)
    } else {
        (t.secs + 1 + 60 * m, t.nanos - 1_000_000_000)
    }
}

/// `t` moved by `m` minutes can be held.
pub open spec fn can_shift(t: UtcTime, m: int) -> bool {
    in_range(shifted(t, m).0)
}

/// `t` moved by `m` minutes.
pub open spec fn at_step(t: UtcTime, m: int) -> UtcTime {
    UtcTime { secs: shifted(t, m).0 as i64, nanos: shifted(t, m).1 as u32 }
}

/// `chrono::DateTime::checked_add_signed` with a `TimeDelta` of whole minutes.
/// It is none exactly where the moved time leaves the range of `DateTime<Utc>`.
#[verifier::external_body]
fn add_minutes(t: UtcTime, m: i64) -> (r: Option<UtcTime>)
    requires
        t.valid(),
    ensures
        r == (if can_shift(t, m as int) {
            Some(at_step(t, m as int))
        } else {
            None
        }),
{
    let d = chrono::TimeDelta::try_minutes(m)?;
    let s = chrono::DateTime::<chrono::Utc>::from_timestamp(t.secs, t.nanos).unwrap();
    let t = s.checked_add_signed(d)?;
    Some(UtcTime { secs: t.timestamp(), nanos: t.timestamp_subsec_nanos() })
}

/// The nanoseconds from `init` to `valid`. A leap second at one of the two is
/// counted where the time of day of the other lies on its far side.
pub open spec fn elapsed_nanos(init: UtcTime, valid: UtcTime) -> int {
    let a = valid.secs as int % 86400;
    let b = init.secs as int % 86400;
    let leap = if a > b && init.nanos >= 1_000_000_000 {
        1int
    } else if a < b && valid.nanos >= 1_000_000_000 {
        -1int
    } else {
        0int
    };
    (valid.secs - init.secs + leap) * 1_000_000_000 + valid.nanos - init.nanos
}

/// The quotient without its fraction.
pub open spec fn toward_zero(n: int, d: int) -> int {
    if n < 0 {
        -((-n) / d)
    } else {
        n / d
    }
}

/// The whole minutes from `init` to `valid`.
pub open spec fn minutes_from(init: UtcTime, valid: UtcTime) -> int {
    toward_zero(elapsed_nanos(init, valid), 60_000_000_000)
}

/// No two times lie further apart, in minutes.
pub const MAX_MINUTES: i64 = 275747801761;

/// The minutes between two times are bounded by the range of times.
pub proof fn lemma_minutes_bounded(init: UtcTime, valid: UtcTime)
    requires
        init.valid(),
        valid.valid(),
    ensures
        -MAX_MINUTES <= minutes_from(init, valid) <= MAX_MINUTES,
{
}

/// The difference of two `chrono::DateTime<Utc>` and its `num_minutes`: whole
/// minutes, rounded toward zero.
#[verifier::external_body]
fn difference_in_minutes(init: UtcTime, valid: UtcTime) -> (r: i64)
    requires
        init.valid(),
        valid.valid(),
    ensures
        r == minutes_from(init, valid),
{
    let a = chrono::DateTime::<chrono::Utc>::from_timestamp(init.secs, init.nanos).unwrap();
    let b = chrono::DateTime::<chrono::Utc>::from_timestamp(valid.secs, valid.nanos).unwrap();
    (b - a).num_minutes()
}

/// `chrono::DateTime::<Utc>::from_timestamp` without nanoseconds: none exactly
/// for the seconds out of its range.
#[verifier::external_body]
fn from_seconds(secs: i64) -> (r: Option<UtcTime>)
    ensures
        r == (if in_range(secs as int) {
            Some(UtcTime { secs, nanos: 0 })
        } else {
            None
        }),
{
    let t = chrono::DateTime::<chrono::Utc>::from_timestamp(secs, 0)?;
    Some(UtcTime { secs: t.timestamp(), nanos: t.timestamp_subsec_nanos() })
}

impl UtcTime {
    /// The time `secs` seconds behind 1970-01-01T00:00:00Z, where it can be held.
    pub fn from_timestamp(secs: i64) -> (r: Option<Self>)
        ensures
            r == (if in_range(secs as int) {
                Some(UtcTime { secs, nanos: 0 })
            } else {
                None
            }),
            r matches Some(t) ==> t.valid(),
    {
        from_seconds(secs)
    }

    /// This time moved by `m` minutes; none where that leaves the range.
    pub fn plus_minutes(self, m: i64) -> (r: Option<Self>)
        requires
            self.valid(),
        ensures
            r == (if can_shift(self, m as int) {
                Some(at_step(self, m as int))
            } else {
                None
            }),
            r matches Some(t) ==> t.valid(),
    {
        add_minutes(self, m)
    }
}

/// A moved time that can be held is a valid time.
pub proof fn lemma_at_step_valid(t: UtcTime, m: int)
    requires
        t.valid(),
        can_shift(t, m),
    ensures
        at_step(t, m).valid(),
        at_step(t, m).secs == shifted(t, m).0,
        at_step(t, m).nanos == shifted(t, m).1,
{
}

/// The time of day, in seconds.
pub open spec fn time_of_day(t: UtcTime) -> int {
    t.secs as int % 86400
}

/// A step and back again: the time `m` minutes behind an initial time lies `m`
/// minutes from it. From a leap second on this needs that the step goes forward
/// in the day exactly when it goes forward in time.
pub proof fn law_minutes_of_a_step(init: UtcTime, m: int)
    requires
        init.valid(),
        can_shift(init, m),
        init.nanos < 1_000_000_000 || m == 0 || (m > 0 <==> time_of_day(at_step(init, m))
            > time_of_day(init)),
    ensures
        minutes_from(init, at_step(init, m)) == m,
{
    lemma_at_step_valid(init, m);
}

/// The text that is held against the time formats: trimmed, without a `Z` at its
/// end, and with the minutes of a bare hour filled in.
pub open spec fn time_text(s: Seq<char>) -> Seq<char> {
    let t = text::strip_end(text::trimmed(s), 'Z');
    if text::utf8_len(t) == 13 {
        t + "00"@
    } else {
        t
    }
}

/// The text that is held against the time formats.
pub fn timestamp_text(s: &str) -> (r: String)
    ensures
        r@ == time_text(s@),
{
    let c = text::chars_of(s);
    let t = text::strip_end_chars(text::trim_chars(c.as_slice()), 'Z');
    let mut out = text::string_of(t);
    // A minute is needed behind the hour of "2026-09-15T00".
    if text::has_utf8_len(t, 13) {
        out.append("00");
    }
    out
}

/// The first of the attempts that succeeded.
pub open spec fn first_success(attempts: Seq<Option<UtcTime>>) -> Option<UtcTime>
    decreases attempts.len(),
{
    if attempts.len() == 0 {
        None
    } else if attempts[0] is Some {
        attempts[0]
    } else {
        first_success(attempts.drop_first())
    }
}

/// The attempts to read a text, format by format.
pub open spec fn attempts(t: Seq<char>) -> Seq<Option<UtcTime>> {
    seq![
        naive_parse(t, "%Y-%m-%dT%H%M"@),
        naive_parse(t, "%Y-%m-%dT%H:%M"@),
        naive_parse(t, "%Y-%m-%dT%H:%M:%S"@),
        naive_parse(t, "%Y-%m-%d %H:%M:%S"@),
    ]
}

/// The time that a text stands for.
pub open spec fn utc_of(s: Seq<char>) -> Option<UtcTime> {
    first_success(attempts(time_text(s)))
}

pub open spec fn utc_error(s: Seq<char>) -> Seq<char> {
    "cannot parse time "@ + text::quoted(s) + " (expected e.g. 2026-09-15T00Z)"@
}

/// Take the first attempt that succeeded; without one, `s` is no time.
pub fn accept_first(s: &str, attempts: &[Option<UtcTime>]) -> (r: Result<UtcTime, String>)
    ensures
        match r {
            Ok(t) => first_success(attempts@) == Some(t),
            Err(e) => first_success(attempts@) is None && e@ == utc_error(s@),
        },
{
    let mut i: usize = 0;
    assert(attempts@.skip(0) == attempts@);
    while i < attempts.len()
        invariant
            i <= attempts.len(),
            first_success(attempts@) == first_success(attempts@.skip(i as int)),
        decreases attempts.len() - i,
    {
        assert(attempts@.skip(i as int).drop_first() == attempts@.skip(i + 1));
        if let Some(t) = attempts[i] {
            return Ok(t);
        }
        i += 1;
    }
    let mut e = "cannot parse time ".to_owned();
    e.append(text::quote(s).as_str());
    e.append(" (expected e.g. 2026-09-15T00Z)");
    Err(e)
}

/// The second `secs` to the hour, to the minute with or without a colon, or to
/// the second, where it is that round.
pub open spec fn is_bare_form(s: Seq<char>, secs: int) -> bool {
    ||| secs % 3600 == 0 && s == calendar::hour_text(secs)
    ||| secs % 60 == 0 && s == calendar::minute_text(secs)
    ||| secs % 60 == 0 && s == calendar::colon_minute_text(secs)
    ||| s == calendar::second_text(secs)
}

/// One of the forms that a time can be given in: `2026-09-15T00Z`,
/// `2026-09-15T0000Z`, `2026-09-15T00:00Z`, `2026-09-15T00:00:00Z`, with or
/// without the `Z`.
pub open spec fn is_form_of(s: Seq<char>, secs: int) -> bool {
    &&& calendar::has_plain_year(secs)
    &&& is_bare_form(s, secs) || (s.len() > 0 && s.last() == 'Z' && is_bare_form(
        s.drop_last(),
        secs,
    ))
}

proof fn lemma_bare_form(s: Seq<char>, secs: int)
    requires
        is_bare_form(s, secs),
    ensures
        s.len() > 0,
        calendar::is_plain(s),
        text::is_digit(s[0]),
        text::is_digit(s.last()),
        s.len() == 13 ==> s == calendar::hour_text(secs) && secs % 3600 == 0,
        text::utf8_len(s) == s.len(),
{
    calendar::lemma_time_texts(secs);
    assert forall|i: int| 0 <= i < s.len() implies (#[trigger] s[i] as int) < 0x80 by {
        assert(text::is_digit(s[i]) || s[i] == '-' || s[i] == 'T' || s[i] == ':');
    }
    text::lemma_ascii_len(s);
}

/// What a form of a time is held against the formats as.
proof fn lemma_form(s: Seq<char>, secs: int)
    requires
        is_form_of(s, secs),
    ensures
        ({
            let t = time_text(s);
            ||| secs % 60 == 0 && t == calendar::minute_text(secs)
            ||| secs % 60 == 0 && t == calendar::colon_minute_text(secs)
            ||| t == calendar::second_text(secs)
        }),
{
    let bare = if is_bare_form(s, secs) {
        s
    } else {
        s.drop_last()
    };
    lemma_bare_form(bare, secs);
    text::lemma_digit_is_no_space(bare[0]);
    text::lemma_digit_is_no_space(bare.last());
    text::lemma_strip_end(bare, 'Z');
    if !is_bare_form(s, secs) {
        assert(s == bare.push('Z'));
        assert(s[0] == bare[0]);
    }
    text::lemma_nothing_to_trim(s);
    assert(text::strip_end(text::trimmed(s), 'Z') == bare);
    if bare.len() == 13 {
        reveal_strlit("00");
        reveal_with_fuel(shortest::dec_padded, 3);
        assert(secs % 3600 / 60 == 0);
        assert(calendar::padded(0, 2) == "00"@);
        assert(time_text(s) == calendar::minute_text(secs));
        assert(secs % 60 == 0);
    } else {
        calendar::lemma_time_texts(secs);
        assert(time_text(s) == bare);
    }
}

/// Parse an init or valid time. Accepts `2026-09-15T00Z`, `2026-09-15T0000Z`,
/// `2026-09-15T00:00Z`, `2026-09-15T00:00:00Z` (a trailing `Z` is optional).
pub fn parse_utc(s: &str) -> (r: Result<UtcTime, String>)
    ensures
        match r {
            Ok(t) => utc_of(s@) == Some(t) && t.valid(),
            Err(e) => utc_of(s@) is None && e@ == utc_error(s@),
        },
        forall|secs: int| #[trigger]
            is_form_of(s@, secs) ==> r == Ok::<UtcTime, String>(whole_second(secs)),
{
    let t = timestamp_text(s);
    let mut tried: Vec<Option<UtcTime>> = Vec::new();
    tried.push(parse_naive(t.as_str(), "%Y-%m-%dT%H%M"));
    tried.push(parse_naive(t.as_str(), "%Y-%m-%dT%H:%M"));
    tried.push(parse_naive(t.as_str(), "%Y-%m-%dT%H:%M:%S"));
    tried.push(parse_naive(t.as_str(), "%Y-%m-%d %H:%M:%S"));
    assert(tried@ == attempts(time_text(s@)));
    proof {
        reveal_with_fuel(first_success, 5);
        assert forall|secs: int| #[trigger] is_form_of(s@, secs) implies utc_of(s@) == Some(
            whole_second(secs),
        ) by {
            lemma_form(s@, secs);
            if secs % 60 == 0 {
                assert(whole_minute(secs) == whole_second(secs));
            }
        }
    }
    accept_first(s, tried.as_slice())
}

/// `latest`, in any case, stands for the latest run.
pub open spec fn is_latest(s: Seq<char>) -> bool {
    text::ascii_lower(s) == text::ascii_lower("latest"@)
}

/// Parse an init time or `latest`, which gives none.
pub fn parse_init(s: &str) -> (r: Result<Option<UtcTime>, String>)
    ensures
        match r {
            Ok(None) => is_latest(s@),
            Ok(Some(t)) => !is_latest(s@) && utc_of(s@) == Some(t) && t.valid(),
            Err(e) => !is_latest(s@) && utc_of(s@) is None && e@ == utc_error(s@),
        },
        forall|secs: int| #[trigger]
            is_form_of(s@, secs) && !is_latest(s@) ==> r == Ok::<Option<UtcTime>, String>(
                Some(whole_second(secs)),
            ),
{
    if text::same_ignoring_case(s, "latest") {
        return Ok(None);
    }
    match parse_utc(s) {
        Ok(t) => Ok(Some(t)),
        Err(e) => Err(e),
    }
}

pub open spec fn json_time_error(s: Seq<char>) -> Seq<char> {
    "bad timestamp in JSON: "@ + text::quoted(s) + ": "@ + utc_error(s)
}

/// Parse a JSON timestamp from `latest.json` (`2026-09-15T00:00:00Z`, `2026-09-15T03:00Z`).
pub fn parse_json_time(s: &str) -> (r: Result<UtcTime, String>)
    ensures
        match r {
            Ok(t) => utc_of(s@) == Some(t) && t.valid(),
            Err(e) => utc_of(s@) is None && e@ == json_time_error(s@),
        },
        forall|secs: int| #[trigger]
            is_form_of(s@, secs) ==> r == Ok::<UtcTime, String>(whole_second(secs)),
{
    match parse_utc(s) {
        Ok(t) => Ok(t),
        Err(cause) => {
            let mut e = "bad timestamp in JSON: ".to_owned();
            e.append(text::quote(s).as_str());
            e.append(": ");
            e.append(cause.as_str());
            Err(e)
        },
    }
}

pub open spec fn iso_text(t: UtcTime) -> Seq<char> {
    formatted(t, "%Y-%m-%dT%H:%M:%SZ"@)
}

pub fn iso(t: UtcTime) -> (r: String)
    requires
        t.valid(),
    ensures
        r@ == iso_text(t),
        is_plain_time(t) ==> r@ == calendar::second_text(t.secs as int) + "Z"@,
{
    format_time(t, "%Y-%m-%dT%H:%M:%SZ")
}

/// `data_spatial/{model}/YYYY/MM/DD/HHMMZ/`.
pub open spec fn prefix_text(model: Seq<char>, init: UtcTime) -> Seq<char> {
    SPATIAL_PREFIX@ + "/"@ + model + "/"@ + formatted(init, "%Y/%m/%d/%H%MZ"@) + "/"@
}

/// The prefix of a run of the years 0 to 9999.
pub open spec fn plain_prefix(model: Seq<char>, init: int) -> Seq<char> {
    SPATIAL_PREFIX@ + "/"@ + model + "/"@ + calendar::run_text(init) + "/"@
}

/// Object key prefix of one model run: `data_spatial/{model}/YYYY/MM/DD/HHMMZ/`.
pub fn run_prefix(model: &str, init: UtcTime) -> (r: String)
    requires
        init.valid(),
    ensures
        r@ == prefix_text(model@, init),
        is_plain_time(init) ==> r@ == plain_prefix(model@, init.secs as int),
{
    let mut out = SPATIAL_PREFIX.to_owned();
    out.append("/");
    out.append(model);
    out.append("/");
    out.append(format_time(init, "%Y/%m/%d/%H%MZ").as_str());
    out.append("/");
    out
}

pub open spec fn step_key_text(model: Seq<char>, init: UtcTime, m: int) -> Seq<char> {
    prefix_text(model, init) + formatted(at_step(init, m), "%Y-%m-%dT%H%M"@) + ".om"@
}

/// The key of a step of the years 0 to 9999.
pub open spec fn plain_key(model: Seq<char>, init: int, valid: int) -> Seq<char> {
    plain_prefix(model, init) + calendar::minute_text(valid) + ".om"@
}

/// Object key of one forecast step file inside a run.
pub fn step_key(model: &str, init: UtcTime, step_minutes: i64) -> (r: String)
    requires
        init.valid(),
        can_shift(init, step_minutes as int),
    ensures
        r@ == step_key_text(model@, init, step_minutes as int),
        is_plain_time(init) && is_plain_time(at_step(init, step_minutes as int)) ==> r@ == plain_key(
            model@,
            init.secs as int,
            at_step(init, step_minutes as int).secs as int,
        ),
{
    let mut out = run_prefix(model, init);
    if let Some(valid) = init.plus_minutes(step_minutes) {
        out.append(format_time(valid, "%Y-%m-%dT%H%M").as_str());
    }
    out.append(".om");
    out
}

/// Minutes between `valid` and `init` (may be negative for bogus input).
pub fn minutes_since(init: UtcTime, valid: UtcTime) -> (r: i64)
    requires
        init.valid(),
        valid.valid(),
    ensures
        r == minutes_from(init, valid),
{
    difference_in_minutes(init, valid)
}

/// A time that is shown is read back as the same time: what `iso` writes is one
/// of the forms that `parse_utc` reads.
pub proof fn law_shown_times_are_read_back(t: UtcTime)
    requires
        is_plain_time(t),
    ensures
        is_form_of(calendar::second_text(t.secs as int) + "Z"@, t.secs as int),
{
    reveal_strlit("Z");
    let bare = calendar::second_text(t.secs as int);
    let s = bare + "Z"@;
    assert(s.drop_last() == bare);
    assert(s.last() == 'Z');
}

/// Every step of a run has a key of its own.
pub proof fn law_steps_have_their_own_keys(model: Seq<char>, init: UtcTime, a: int, b: int)
    requires
        is_plain_time(init),
        can_shift(init, a),
        can_shift(init, b),
        is_plain_time(at_step(init, a)),
        is_plain_time(at_step(init, b)),
        init.valid(),
        plain_key(model, init.secs as int, at_step(init, a).secs as int) == plain_key(
            model,
            init.secs as int,
            at_step(init, b).secs as int,
        ),
    ensures
        a == b,
{
    let (x, y) = (at_step(init, a).secs as int, at_step(init, b).secs as int);
    let p = plain_prefix(model, init.secs as int);
    let (s, t) = (calendar::minute_text(x), calendar::minute_text(y));
    lemma_at_step_valid(init, a);
    lemma_at_step_valid(init, b);
    calendar::lemma_time_texts(x);
    calendar::lemma_time_texts(y);
    let n = p.len() as int;
    assert((p + s + ".om"@).subrange(n, n + 15) == s);
    assert((p + t + ".om"@).subrange(n, n + 15) == t);
    calendar::lemma_minute_text_injective(x, y);
}

/// The file of a step is named after the time for which it is valid: the key is the
/// prefix of the run, a form of the time `m` minutes behind the initial time, and the
/// ending.
pub proof fn law_keys_name_the_valid_time(model: Seq<char>, init: UtcTime, m: int)
    requires
        init.valid(),
        is_plain_time(init),
        init.secs as int % 60 == 0,
        can_shift(init, m),
        is_plain_time(at_step(init, m)),
    ensures
        exists|s: Seq<char>| #[trigger]
            is_form_of(s, init.secs + 60 * m) && plain_key(
                model,
                init.secs as int,
                at_step(init, m).secs as int,
            ) == plain_prefix(model, init.secs as int) + s + ".om"@,
{
    lemma_at_step_valid(init, m);
    let valid = init.secs + 60 * m;
    assert(at_step(init, m).secs == valid);
    assert(valid % 60 == 0);
    let s = calendar::minute_text(valid);
    assert(is_bare_form(s, valid));
    assert(is_form_of(s, valid));
}

/// The latest run can be asked for in capitals and small letters, and by no other word.
pub proof fn law_latest_in_any_case(s: Seq<char>)
    ensures
        is_latest(s) <==> s.len() == 6 && (s[0] == 'l' || s[0] == 'L') && (s[1] == 'a' || s[1]
            == 'A') && (s[2] == 't' || s[2] == 'T') && (s[3] == 'e' || s[3] == 'E') && (s[4] == 's'
            || s[4] == 'S') && (s[5] == 't' || s[5] == 'T'),
{
    reveal_strlit("latest");
    let l = text::ascii_lower("latest"@);
    let t = text::ascii_lower(s);
    assert(l.len() == 6);
    assert(l[0] == 'l' && l[1] == 'a' && l[2] == 't' && l[3] == 'e' && l[4] == 's' && l[5] == 't');
    if is_latest(s) {
        assert(t.len() == 6);
        assert(t[0] == l[0] && t[1] == l[1] && t[2] == l[2] && t[3] == l[3] && t[4] == l[4] && t[5]
            == l[5]);
        lemma_lower(s[0]);
        lemma_lower(s[1]);
        lemma_lower(s[2]);
        lemma_lower(s[3]);
        lemma_lower(s[4]);
        lemma_lower(s[5]);
    }
    if s.len() == 6 && (s[0] == 'l' || s[0] == 'L') && (s[1] == 'a' || s[1] == 'A') && (s[2] == 't'
        || s[2] == 'T') && (s[3] == 'e' || s[3] == 'E') && (s[4] == 's' || s[4] == 'S') && (s[5]
        == 't' || s[5] == 'T') {
        assert forall|i: int| 0 <= i < 6 implies t[i] == l[i] by {
            lemma_lower(s[i]);
            assert(i == 0 || i == 1 || i == 2 || i == 3 || i == 4 || i == 5);
        }
        assert(t == l);
    }
}

/// A character as a small letter.
proof fn lemma_lower(c: char)
    ensures
        'A' <= c <= 'Z' ==> text::lower_char(c) as int == c as int + 32,
        !('A' <= c <= 'Z') ==> text::lower_char(c) == c,
{
    if 'A' <= c <= 'Z' {
        assert(c as int + 32 < 0x80);
    }
}

/// A time can be moved by minutes exactly as far as the range of times goes, and then
/// lies that many minutes away.
pub proof fn law_moved_times(t: UtcTime, m: int)
    requires
        t.valid(),
        t.nanos < 1_000_000_000,
    ensures
        can_shift(t, m) <==> FIRST_SECOND <= t.secs + 60 * m <= LAST_SECOND,
        can_shift(t, m) ==> at_step(t, m).secs == t.secs + 60 * m && at_step(t, m).nanos == t.nanos,
{
}

} // verus!
