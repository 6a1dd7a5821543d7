//! Forecast-step specifications.
//!
//! Grammar (hours, decimals allowed): `0..144:3`, `0..48` (1 h stride),
//! `0,6,12`, `3`, and comma-separated combinations. Steps are kept in minutes
//! so that 15-minute models work.
use crate::number;
use crate::order;
use crate::shortest;
use crate::text;
use vstd::arithmetic::div_mod::*;
use vstd::prelude::*;
use vstd::slice::slice_subrange;
use vstd::string::*;

verus! {

/// Why a step specification was refused.
#[derive(Debug, PartialEq)]
pub struct StepError {
    pub spec: String,
    pub reason: String,
}

impl StepError {
    pub open spec fn text(self) -> Seq<char> {
        "invalid step spec "@ + text::quoted(self.spec@) + ": "@ + self.reason@
    }

    pub fn message(&self) -> (r: String)
        ensures
            r@ == self.text(),
    {
        let mut out = "invalid step spec ".to_owned();
        out.append(text::quote(self.spec.as_str()).as_str());
        out.append(": ");
        out.append(self.reason.as_str());
        out
    }
}

/// `start`, `start + stride`, ... up to and including `end`.
pub open spec fn range_steps(start: int, end: int, stride: int) -> Seq<int> {
    Seq::new(((end - start) / stride + 1) as nat, |k: int| start + k * stride)
}

/// The two ends and the stride of a range element, or the reason why it is refused.
pub open spec fn range_element(first: Seq<char>, rest: Seq<char>) -> Result<
    (int, int, int),
    Seq<char>,
> {
    let stride = match text::split_once(rest, ":"@) {
        Some((_, s)) => number::minutes_of_text(s),
        None => Some(60int),
    };
    let last = match text::split_once(rest, ":"@) {
        Some((e, _)) => e,
        None => rest,
    };
    match (stride, number::minutes_of_text(first), number::minutes_of_text(last)) {
        (None, _, _) => Err("bad stride"@),
        (_, None, _) => Err("bad range start"@),
        (_, _, None) => Err("bad range end"@),
        (Some(d), Some(a), Some(b)) => if d <= 0 {
            Err("stride must be > 0"@)
        } else if b < a {
            Err("range end before start"@)
        } else {
            Ok((a, b, d))
        },
    }
}

/// The steps of one element of a specification, or the reason why it is refused.
pub open spec fn element_steps(element: Seq<char>) -> Result<Seq<int>, Seq<char>> {
    let item = text::trimmed(element);
    if item.len() == 0 {
        Err("empty element"@)
    } else {
        match text::split_once(item, ".."@) {
            Some((first, rest)) => match range_element(first, rest) {
                Ok((a, b, d)) => Ok(range_steps(a, b, d)),
                Err(reason) => Err(reason),
            },
            None => match number::minutes_of_text(item) {
                Some(m) => Ok(seq![m]),
                None => Err("bad value"@),
            },
        }
    }
}

/// The steps of a list of elements one behind the other, or the reason why
/// the first bad element is refused.
pub open spec fn elements_steps(elements: Seq<Seq<char>>) -> Result<Seq<int>, Seq<char>>
    decreases elements.len(),
{
    if elements.len() == 0 {
        Ok(Seq::empty())
    } else {
        match elements_steps(elements.drop_last()) {
            Ok(v) => match element_steps(elements.last()) {
                Ok(w) => Ok(v + w),
                Err(reason) => Err(reason),
            },
            Err(reason) => Err(reason),
        }
    }
}

/// The steps that a specification lists, in the order in which it lists them.
pub open spec fn listed_steps(spec: Seq<char>) -> Result<Seq<int>, Seq<char>> {
    elements_steps(text::split(spec, ','))
}

/// Minutes as hours: an integer where they are full hours, else the
/// double-precision quotient.
pub open spec fn hours_text(m: int) -> Seq<char> {
    if m % 60 == 0 {
        text::dec_int(m / 60)
    } else {
        shortest::sixtieth_text(m)
    }
}

/// The minutes in a number of hours; none for text that is no number, and for
/// infinite and negative numbers.
pub fn hours_to_minutes(s: &str) -> (r: Option<i64>)
    ensures
        match r {
            Some(m) => number::minutes_of_text(s@) == Some(m as int),
            None => number::minutes_of_text(s@) is None,
        },
{
    let c = text::chars_of(s);
    number::minutes_of_chars(c.as_slice())
}

/// The two parts of `s` around the first `pat`.
fn split_once_at<'a>(s: &'a [char], pat: &str) -> (r: Option<(&'a [char], &'a [char])>)
    ensures
        match r {
            Some((a, b)) => text::split_once(s@, pat@) == Some((a@, b@)),
            None => text::split_once(s@, pat@) is None,
        },
{
    let p = text::chars_of(pat);
    match text::find_chars(s, p.as_slice()) {
        Some(i) => {
            let a = slice_subrange(s, 0, i);
            let b = slice_subrange(s, i + p.len(), s.len());
            assert(a@ == s@.take(i as int));
            assert(b@ == s@.skip(i + p@.len()));
            Some((a, b))
        },
        None => None,
    }
}

fn parse_range(first: &[char], rest: &[char]) -> (r: Result<(i64, i64, i64), &'static str>)
    ensures
        match r {
            Ok((a, b, d)) => range_element(first@, rest@) == Ok::<_, Seq<char>>(
                (a as int, b as int, d as int),
            ) && a <= b && d > 0,
            Err(reason) => range_element(first@, rest@) == Err::<(int, int, int), _>(reason@),
        },
{
    let mut last = rest;
    let mut stride: i64 = 60;
    if let Some((e, s)) = split_once_at(rest, ":") {
        last = e;
        match number::minutes_of_chars(s) {
            Some(d) => {
                stride = d;
            },
            None => {
                return Err("bad stride");
            },
        }
    }
    match number::minutes_of_chars(first) {
        None => Err("bad range start"),
        Some(a) => match number::minutes_of_chars(last) {
            None => Err("bad range end"),
            Some(b) => if stride <= 0 {
                Err("stride must be > 0")
            } else if b < a {
                Err("range end before start")
            } else {
                Ok((a, b, stride))
            },
        },
    }
}

/// Append the steps of a range.
fn push_range(out: &mut Vec<i64>, start: i64, end: i64, stride: i64)
    requires
        start <= end,
        stride > 0,
    ensures
        order::values(final(out)@) == order::values(old(out)@) + range_steps(
            start as int,
            end as int,
            stride as int,
        ),
{
    let ghost all = range_steps(start as int, end as int, stride as int);
    let ghost before = order::values(out@);
    let mut m: i64 = start;
    let mut more = true;
    let ghost mut k: int = 0;
    proof {
        lemma_div_pos_is_pos(end - start, stride as int);
        assert(start + 0 * stride == start);
        assert(all.take(0) == Seq::<int>::empty());
        assert(order::values(out@) == before + all.take(0));
    }
    while more
        invariant
            stride > 0,
            start <= end,
            all == range_steps(start as int, end as int, stride as int),
            0 <= k <= all.len(),
            more ==> k < all.len() && m == start + k * stride && m <= end,
            !more ==> k == all.len(),
            order::values(out@) == before + all.take(k),
        decreases all.len() - k,
    {
        let ghost pushed = out@;
        out.push(m);
        proof {
            assert(order::values(out@) == order::values(pushed).push(m as int));
            assert(all[k] == m);
            assert(all.take(k + 1) == all.take(k).push(m as int));
            assert(order::values(out@) == before + all.take(k + 1));
            let d = stride as int;
            let n = (end - start) / d;
            lemma_fundamental_div_mod(end - start, d);
            assert(start + (k + 1) * d == m + d) by (nonlinear_arith)
                requires
                    m == start + k * d,
            ;
            if k + 1 < all.len() {
                assert((k + 1) * d <= d * n) by (nonlinear_arith)
                    requires
                        k + 1 <= n,
                        d > 0,
                ;
            } else {
                assert((k + 1) * d == d * n + d) by (nonlinear_arith)
                    requires
                        k == n,
                ;
            }
            k = k + 1;
        }
        match m.checked_add(stride) {
            Some(next) => {
                more = next <= end;
                m = next;
            },
            None => {
                more = false;
            },
        }
    }
    assert(all.take(k) == all);
}

/// Append the steps of one element, or give the reason why it is refused.
fn push_element(out: &mut Vec<i64>, element: &[char]) -> (r: Result<(), &'static str>)
    ensures
        match r {
            Ok(_) => element_steps(element@) matches Ok(v) && order::values(final(out)@)
                == order::values(old(out)@) + v,
            Err(reason) => element_steps(element@) == Err::<Seq<int>, _>(reason@),
        },
{
    let item = text::trim_chars(element);
    if item.len() == 0 {
        return Err("empty element");
    }
    match split_once_at(item, "..") {
        Some((first, rest)) => match parse_range(first, rest) {
            Ok((a, b, d)) => {
                push_range(out, a, b, d);
                Ok(())
            },
            Err(reason) => Err(reason),
        },
        None => match number::minutes_of_chars(item) {
            Some(m) => {
                out.push(m);
                assert(order::values(out@) == order::values(old(out)@) + seq![m as int]);
                Ok(())
            },
            None => Err("bad value"),
        },
    }
}

/// Parse a step specification into a sorted list of minutes since init, each once.
pub fn parse_steps(spec: &str) -> (r: Result<Vec<i64>, StepError>)
    ensures
        match r {
            Ok(steps) => listed_steps(spec@) matches Ok(v) && order::is_sorted_set(steps@, v),
            Err(e) => listed_steps(spec@) == Err::<Seq<int>, _>(e.reason@) && e.spec@ == spec@,
        },
{
    let c = text::chars_of(spec);
    let elements = text::split_chars(c.as_slice(), ',');
    let ghost parts = text::split(spec@, ',');
    let mut out: Vec<i64> = Vec::new();
    let mut i: usize = 0;
    assert(parts.take(0) == Seq::<Seq<char>>::empty());
    assert(order::values(out@) == Seq::<int>::empty());
    while i < elements.len()
        invariant
            i <= elements.len(),
            elements@.len() == parts.len(),
            parts == text::split(spec@, ','),
            forall|k: int| 0 <= k < elements@.len() ==> (#[trigger] elements@[k])@ == parts[k],
            elements_steps(parts.take(i as int)) == Ok::<_, Seq<char>>(order::values(out@)),
        decreases elements.len() - i,
    {
        let ghost before = order::values(out@);
        assert(parts.take(i + 1).drop_last() == parts.take(i as int));
        match push_element(&mut out, elements[i].as_slice()) {
            Ok(_) => {},
            Err(reason) => {
                proof {
                    assert(elements_steps(parts.take(i + 1)) == Err::<Seq<int>, _>(reason@));
                    lemma_first_error(parts, i + 1, reason@);
                }
                return Err(StepError { spec: spec.to_owned(), reason: reason.to_owned() });
            },
        }
        i += 1;
    }
    assert(parts.take(i as int) == parts);
    Ok(order::sort_dedup(out.as_slice()))
}

/// A bad element stays the reason whatever follows.
proof fn lemma_first_error(parts: Seq<Seq<char>>, n: int, reason: Seq<char>)
    requires
        0 <= n <= parts.len(),
        elements_steps(parts.take(n)) == Err::<Seq<int>, _>(reason),
    ensures
        elements_steps(parts) == Err::<Seq<int>, _>(reason),
    decreases parts.len() - n,
{
    if n == parts.len() {
        assert(parts.take(n) == parts);
    } else {
        assert(parts.take(n + 1).drop_last() == parts.take(n));
        lemma_first_error(parts, n + 1, reason);
    }
}

/// Append minutes as a human readable hour value (`3`, `0.25`).
pub fn push_hours(out: &mut String, m: i64)
    ensures
        final(out)@ == old(out)@ + hours_text(m as int),
{
    let a: u64 = if m < 0 { (-(m as i128)) as u64 } else { m as u64 };
    if a % 60 == 0 {
        if m < 0 {
            out.push('-');
        }
        text::push_dec(out, (a / 60) as u128);
        assert(out@ == old(out)@ + hours_text(m as int));
    } else {
        shortest::push_sixtieth(out, m);
    }
}

/// Format minutes as a human readable hour value (`3`, `0.25`).
pub fn minutes_to_hours_string(m: i64) -> (r: String)
    ensures
        r@ == hours_text(m as int),
{
    let mut out = String::new();
    push_hours(&mut out, m);
    assert(Seq::<char>::empty() + hours_text(m as int) == hours_text(m as int));
    out
}

/// Each of the steps as a human readable hour value.
pub open spec fn hours_texts(steps: Seq<i64>) -> Seq<Seq<char>> {
    Seq::new(steps.len(), |i: int| hours_text(steps[i] as int))
}

/// Each of the steps as a human readable hour value.
pub fn hours_strings(steps: &[i64]) -> (r: Vec<String>)
    ensures
        text::texts(r@) == hours_texts(steps@),
{
    let mut out: Vec<String> = Vec::new();
    let mut i: usize = 0;
    while i < steps.len()
        invariant
            i <= steps.len(),
            out@.len() == i,
            forall|k: int| 0 <= k < i ==> (#[trigger] out@[k])@ == hours_text(steps@[k] as int),
        decreases steps.len() - i,
    {
        out.push(minutes_to_hours_string(steps[i]));
        i += 1;
    }
    out
}

proof fn lemma_element_not_negative(element: Seq<char>)
    ensures
        element_steps(element) matches Ok(v) ==> forall|i: int|
            0 <= i < v.len() ==> #[trigger] v[i] >= 0,
{
    let item = text::trimmed(element);
    if let Some((first, rest)) = text::split_once(item, ".."@) {
        if let Ok((a, b, d)) = range_element(first, rest) {
            let v = range_steps(a, b, d);
            assert forall|i: int| 0 <= i < v.len() implies #[trigger] v[i] >= 0 by {
                assert(i * d >= 0) by (nonlinear_arith)
                    requires
                        i >= 0,
                        d > 0,
                ;
            }
        }
    }
}

proof fn lemma_elements_not_negative(elements: Seq<Seq<char>>)
    ensures
        elements_steps(elements) matches Ok(v) ==> forall|i: int|
            0 <= i < v.len() ==> #[trigger] v[i] >= 0,
    decreases elements.len(),
{
    if elements.len() > 0 {
        lemma_elements_not_negative(elements.drop_last());
        lemma_element_not_negative(elements.last());
    }
}

/// No step of a specification lies before init.
pub proof fn law_listed_steps_are_not_negative(spec: Seq<char>)
    ensures
        listed_steps(spec) matches Ok(v) ==> forall|i: int|
            0 <= i < v.len() ==> #[trigger] v[i] >= 0,
{
    lemma_elements_not_negative(text::split(spec, ','));
}

/// A range holds its start and whatever lies a whole number of strides behind it, up
/// to and including its end, and nothing else.
pub proof fn law_ranges(start: int, end: int, stride: int, x: int)
    requires
        start <= end,
        stride > 0,
    ensures
        range_steps(start, end, stride).contains(x) <==> start <= x <= end && (x - start) % stride
            == 0,
        range_steps(start, end, stride).contains(start),
{
    let all = range_steps(start, end, stride);
    lemma_fundamental_div_mod(end - start, stride);
    lemma_div_pos_is_pos(end - start, stride);
    assert(start + 0 * stride == start);
    assert(all[0] == start);
    if all.contains(x) {
        let k = choose|k: int| 0 <= k < all.len() && all[k] == x;
        let n = (end - start) / stride;
        assert(0 <= k * stride <= stride * n) by (nonlinear_arith)
            requires
                0 <= k <= n,
                stride > 0,
        ;
        lemma_fundamental_div_mod_converse(x - start, stride, k, 0);
    }
    if start <= x <= end && (x - start) % stride == 0 {
        let k = (x - start) / stride;
        lemma_fundamental_div_mod(x - start, stride);
        lemma_div_pos_is_pos(x - start, stride);
        lemma_div_is_ordered(x - start, end - start, stride);
        assert(stride * k == k * stride) by (nonlinear_arith);
        assert(all[k] == x);
    }
}

/// A specification is refused exactly when one of its elements is.
#[verifier::spinoff_prover]
#[verifier::rlimit(60)]
pub proof fn law_refused_elements(elements: Seq<Seq<char>>)
    ensures
        elements_steps(elements) is Ok <==> forall|k: int|
            0 <= k < elements.len() ==> element_steps(#[trigger] elements[k]) is Ok,
    decreases elements.len(),
{
    if elements.len() > 0 {
        let rest = elements.drop_last();
        let n = rest.len() as int;
        law_refused_elements(rest);
        if forall|k: int|
            0 <= k < elements.len() ==> element_steps(#[trigger] elements[k]) is Ok {
            assert forall|k: int| 0 <= k < n implies element_steps(#[trigger] rest[k]) is Ok by {
                assert(element_steps(elements[k]) is Ok);
            }
            assert(element_steps(elements[n]) is Ok);
        }
        if elements_steps(elements) is Ok {
            assert forall|k: int| 0 <= k < elements.len() implies element_steps(
                #[trigger] elements[k],
            ) is Ok by {
                if k < n {
                    assert(element_steps(rest[k]) is Ok);
                }
            }
        }
    }
}

/// The element lists the step.
pub open spec fn lists(element: Seq<char>, x: int) -> bool {
    element_steps(element) matches Ok(v) && v.contains(x)
}

proof fn lemma_in_either(a: Seq<int>, b: Seq<int>, x: int)
    ensures
        (a + b).contains(x) <==> a.contains(x) || b.contains(x),
{
    let c = a + b;
    if a.contains(x) {
        let i = choose|i: int| 0 <= i < a.len() && a[i] == x;
        assert(c[i] == x);
    }
    if b.contains(x) {
        let i = choose|i: int| 0 <= i < b.len() && b[i] == x;
        assert(c[a.len() + i] == x);
    }
    if c.contains(x) {
        let i = choose|i: int| 0 <= i < c.len() && c[i] == x;
        if i < a.len() {
            assert(a[i] == x);
        } else {
            assert(b[i - a.len()] == x);
        }
    }
}

/// The elements of a specification add their steps to one another: a step is listed
/// exactly when one of the elements lists it.
pub proof fn law_elements_add_up(elements: Seq<Seq<char>>, x: int)
    requires
        elements_steps(elements) is Ok,
    ensures
        elements_steps(elements)->Ok_0.contains(x) <==> exists|k: int|
            0 <= k < elements.len() && lists(#[trigger] elements[k], x),
    decreases elements.len(),
{
    if elements.len() > 0 {
        let rest = elements.drop_last();
        let n = rest.len() as int;
        law_elements_add_up(rest, x);
        lemma_in_either(elements_steps(rest)->Ok_0, element_steps(elements[n])->Ok_0, x);
        if exists|k: int| 0 <= k < n && lists(#[trigger] rest[k], x) {
            let k = choose|k: int| 0 <= k < n && lists(#[trigger] rest[k], x);
            assert(lists(elements[k], x));
        }
        if exists|k: int| 0 <= k < elements.len() && lists(#[trigger] elements[k], x) {
            let k = choose|k: int| 0 <= k < elements.len() && lists(#[trigger] elements[k], x);
            if k < n {
                assert(lists(rest[k], x));
            }
        }
        if element_steps(elements[n])->Ok_0.contains(x) {
            assert(lists(elements[n], x));
        }
    }
}

/// A single value lists its own minutes.
pub proof fn law_single_values(element: Seq<char>)
    requires
        text::trimmed(element).len() > 0,
        text::find(text::trimmed(element), ".."@) is None,
    ensures
        match number::minutes_of_text(text::trimmed(element)) {
            Some(m) => element_steps(element) == Ok::<_, Seq<char>>(seq![m]),
            None => element_steps(element) is Err,
        },
{
}

/// A range with a stride, `first..last:stride`, lists the steps from the first to the
/// last one in strides; it is refused exactly when one of the three is no number of
/// hours, the stride is nothing, or it ends before it starts.
pub proof fn law_ranges_with_a_stride(
    element: Seq<char>,
    first: Seq<char>,
    last: Seq<char>,
    stride: Seq<char>,
)
    requires
        text::trimmed(element) == first + ".."@ + last + ":"@ + stride,
        text::find(text::trimmed(element), ".."@) == Some(first.len() as int),
        forall|i: int| 0 <= i < last.len() ==> #[trigger] last[i] != ':',
    ensures
        match (
            number::minutes_of_text(first),
            number::minutes_of_text(last),
            number::minutes_of_text(stride),
        ) {
            (Some(a), Some(b), Some(d)) if a <= b && d > 0 => element_steps(element) matches Ok(v)
                && forall|x: int| #[trigger]
                v.contains(x) <==> a <= x <= b && (x - a) % d == 0,
            _ => element_steps(element) is Err,
        },
{
    reveal_strlit("..");
    reveal_strlit(":");
    let item = text::trimmed(element);
    let rest = item.skip(first.len() as int + 2);
    assert(item.take(first.len() as int) == first);
    assert(rest == last + ":"@ + stride);
    text::law_find(rest, ":"@);
    let n = last.len() as int;
    assert(text::occurs_at(rest, ":"@, n)) by {
        assert(rest.subrange(n, n + 1) == ":"@);
    }
    assert forall|i: int| 0 <= i < n implies !text::occurs_at(rest, ":"@, i) by {
        assert(last[i] != ':');
        if text::occurs_at(rest, ":"@, i) {
            assert(rest.subrange(i, i + 1)[0] == rest[i]);
        }
    }
    assert(text::find(rest, ":"@) == Some(n));
    assert(rest.take(n) == last);
    assert(rest.skip(n + 1) == stride);
    match (
        number::minutes_of_text(first),
        number::minutes_of_text(last),
        number::minutes_of_text(stride),
    ) {
        (Some(a), Some(b), Some(d)) => {
            if a <= b && d > 0 {
                assert forall|x: int| #[trigger] range_steps(a, b, d).contains(x) <==> a <= x <= b
                    && (x - a) % d == 0 by {
                    law_ranges(a, b, d, x);
                }
            }
        },
        _ => {},
    }
}

/// A range without a stride, `first..last`, lists the steps hour by hour.
pub proof fn law_ranges_without_a_stride(element: Seq<char>, first: Seq<char>, last: Seq<char>)
    requires
        text::trimmed(element) == first + ".."@ + last,
        text::find(text::trimmed(element), ".."@) == Some(first.len() as int),
        forall|i: int| 0 <= i < last.len() ==> #[trigger] last[i] != ':',
    ensures
        match (number::minutes_of_text(first), number::minutes_of_text(last)) {
            (Some(a), Some(b)) if a <= b => element_steps(element) matches Ok(v) && forall|x: int|
                #[trigger]
                v.contains(x) <==> a <= x <= b && (x - a) % 60 == 0,
            _ => element_steps(element) is Err,
        },
{
    reveal_strlit("..");
    reveal_strlit(":");
    let item = text::trimmed(element);
    let rest = item.skip(first.len() as int + 2);
    assert(item.take(first.len() as int) == first);
    assert(rest == last);
    text::law_find(rest, ":"@);
    assert forall|i: int| !text::occurs_at(rest, ":"@, i) by {
        if text::occurs_at(rest, ":"@, i) {
            assert(rest.subrange(i, i + 1)[0] == rest[i]);
            assert(last[i] != ':');
        }
    }
    assert(text::find(rest, ":"@) is None);
    match (number::minutes_of_text(first), number::minutes_of_text(last)) {
        (Some(a), Some(b)) => {
            if a <= b {
                assert forall|x: int| #[trigger] range_steps(a, b, 60).contains(x) <==> a <= x <= b
                    && (x - a) % 60 == 0 by {
                    law_ranges(a, b, 60, x);
                }
            }
        },
        _ => {},
    }
}

} // verus!
