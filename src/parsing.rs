use vstd::prelude::*;

use crate::error::{CrontabError, NumberError};
use crate::text::{
    cut_once, split, split_all, split_once, split_words, to_chars, views, words,
};

verus! {

/// The components of a crontab schedule.
/// The values in each field are both unique and ordered.
#[derive(Clone, Debug, Default)]
pub struct ScheduleComponents {
    /// Minutes in the schedule.
    /// Range [0,59] inclusive.
    pub minutes: Vec<u32>,
    /// Hours in the schedule.
    /// Range [0,23] inclusive.
    pub hours: Vec<u32>,
    /// Days of the month in the schedule.
    /// Range [1,31] inclusive.
    pub days: Vec<u32>,
    /// Months in the schedule.
    /// Range [1,12] inclusive.
    pub months: Vec<u32>,
    /// Days of the week in the schedule.
    /// Range [0,6] inclusive.
    pub weekdays: Vec<u32>,
    /// Seconds in the schedule; never filled, the schedule has minute resolution.
    pub seconds: Vec<u32>,
}

/// The values of the five fields of a schedule.
pub struct ScheduleView {
    pub minutes: Seq<u32>,
    pub hours: Seq<u32>,
    pub days: Seq<u32>,
    pub months: Seq<u32>,
    pub weekdays: Seq<u32>,
}

impl ScheduleView {
    /// Each field holds strictly increasing values within its range, and at
    /// least one.
    pub open spec fn wf(&self) -> bool {
        &&& ascending_within(self.minutes, 0, 59)
        &&& ascending_within(self.hours, 0, 23)
        &&& ascending_within(self.days, 1, 31)
        &&& ascending_within(self.months, 1, 12)
        &&& ascending_within(self.weekdays, 0, 6)
    }
}

impl View for ScheduleComponents {
    type V = ScheduleView;

    open spec fn view(&self) -> ScheduleView {
        ScheduleView {
            minutes: self.minutes@,
            hours: self.hours@,
            days: self.days@,
            months: self.months@,
            weekdays: self.weekdays@,
        }
    }
}

impl ScheduleComponents {
    /// Each field holds strictly increasing values within its range, and at
    /// least one.
    pub open spec fn wf(&self) -> bool {
        self@.wf()
    }
}

/// The kind of a failed parse, without its diagnostic text.
#[derive(Copy, Clone, PartialEq, Eq, Debug, Structural)]
pub enum ParseFailure {
    /// The schedule does not have exactly five fields.
    Format,
    /// A number could not be read.
    Number(NumberError),
    /// A value, bound or step lies outside what the field permits.
    OutOfRange,
}

/// The kind of a parse error.
pub open spec fn failure_of(e: CrontabError) -> ParseFailure {
    match e {
        CrontabError::ErrCronFormat(_) => ParseFailure::Format,
        CrontabError::ErrParseInt(n) => ParseFailure::Number(n),
        CrontabError::FieldOutsideRange { .. } => ParseFailure::OutOfRange,
    }
}

/// Whether `c` is one of the digits 0 to 9.
pub open spec fn is_digit(c: char) -> bool {
    '0' <= c <= '9'
}

/// The value of a decimal digit.
pub open spec fn digit_value(c: char) -> int {
    (c as u32) - ('0' as u32)
}

/// Reads the digits of `s` from position `i` on after the value `acc` read so
/// far, failing at the first character that is no digit or makes the value
/// pass `limit`.
pub open spec fn scan_digits(s: Seq<char>, i: int, acc: int, limit: int) -> Result<int, NumberError>
    decreases s.len() - i,
{
    if i >= s.len() {
        Ok(acc)
    } else if !is_digit(s[i]) {
        Err(NumberError::InvalidDigit)
    } else if acc * 10 + digit_value(s[i]) > limit {
        Err(NumberError::Overflow)
    } else {
        scan_digits(s, i + 1, acc * 10 + digit_value(s[i]), limit)
    }
}

/// The unsigned decimal number that `s` spells, with an optional leading `+`,
/// if it is at most `limit`.
pub open spec fn decimal(s: Seq<char>, limit: int) -> Result<int, NumberError> {
    if s.len() == 0 {
        Err(NumberError::Empty)
    } else if s[0] == '+' {
        if s.len() == 1 {
            Err(NumberError::InvalidDigit)
        } else {
            scan_digits(s, 1, 0, limit)
        }
    } else {
        scan_digits(s, 0, 0, limit)
    }
}

/// Reads an unsigned decimal number of at most `limit`.
pub fn parse_decimal(s: &Vec<char>, limit: u64) -> (r: Result<u64, NumberError>)
    ensures
        r is Ok <==> decimal(s@, limit as int) is Ok,
        r matches Ok(v) ==> decimal(s@, limit as int) == Ok::<int, NumberError>(v as int) && v
            <= limit,
        r matches Err(e) ==> decimal(s@, limit as int) == Err::<int, NumberError>(e),
{
    let n = s.len();
    if n == 0 {
        return Err(NumberError::Empty);
    }
    let mut i: usize = 0;
    if s[0] == '+' {
        if n == 1 {
            return Err(NumberError::InvalidDigit);
        }
        i = 1;
    }
    let mut acc: u64 = 0;
    while i < n
        invariant
            n == s@.len(),
            i <= n,
            acc <= limit,
            scan_digits(s@, i as int, acc as int, limit as int) == decimal(s@, limit as int),
        decreases n - i,
    {
        let c = s[i];
        if !('0' <= c && c <= '9') {
            return Err(NumberError::InvalidDigit);
        }
        let d: u64 = (c as u32 - '0' as u32) as u64;
        if d > limit || acc > (limit - d) / 10 {
            assert(acc * 10 + d > limit) by (nonlinear_arith)
                requires
                    d > limit || acc > (limit - d) / 10,
                    acc >= 0,
                    d >= 0,
            ;
            return Err(NumberError::Overflow);
        }
        assert(acc * 10 + d <= limit) by (nonlinear_arith)
            requires
                d <= limit,
                acc <= (limit - d) / 10,
                acc >= 0,
                d >= 0,
        ;
        acc = acc * 10 + d;
        i = i + 1;
    }
    Ok(acc)
}

/// The values `a`, `a + step`, ... up to `b`.
pub open spec fn stepped(a: int, b: int, step: int) -> Set<int> {
    Set::new(|v: int| a <= v <= b && (v - a) % step == 0)
}

/// The least value, greatest value and step that one comma-separated part of
/// a field selects, for a field whose values lie in `lo..=hi`.
///
/// `a-b` is a range, `*` and a part with a step but no range cover the whole
/// field, any other part is a single value; `/n` gives a step.
pub open spec fn part_bounds(p: Seq<char>, lo: int, hi: int) -> Result<(int, int, int), ParseFailure> {
    let (head, tail) = split_once(p, '/');
    let (first, second) = split_once(head, '-');
    let step: Result<int, NumberError> = match tail {
        Some(t) => decimal(t, usize::MAX as int),
        None => Ok(1),
    };
    let bounds: Result<(int, int), NumberError> = match second {
        Some(x) => match decimal(first, u32::MAX as int) {
            Err(e) => Err(e),
            Ok(a) => match decimal(x, u32::MAX as int) {
                Err(e) => Err(e),
                Ok(b) => Ok((a, b)),
            },
        },
        None => if tail is None && p != seq!['*'] {
            match decimal(p, u32::MAX as int) {
                Err(e) => Err(e),
                Ok(a) => Ok((a, a)),
            }
        } else {
            Ok((lo, hi))
        },
    };
    match step {
        Err(e) => Err(ParseFailure::Number(e)),
        Ok(st) => match bounds {
            Err(e) => Err(ParseFailure::Number(e)),
            Ok((a, b)) => if a < lo || b > hi || st == 0 {
                Err(ParseFailure::OutOfRange)
            } else {
                Ok((a, b, st))
            },
        },
    }
}

/// The values that the first `n` parts select together, or the failure of
/// the first part that fails.
pub open spec fn parts_values(parts: Seq<Seq<char>>, n: int, lo: int, hi: int) -> Result<
    Set<int>,
    ParseFailure,
>
    decreases n,
{
    if n <= 0 {
        Ok(Set::empty())
    } else {
        match parts_values(parts, n - 1, lo, hi) {
            Err(e) => Err(e),
            Ok(vals) => match part_bounds(parts[n - 1], lo, hi) {
                Err(e) => Err(e),
                Ok((a, b, st)) => Ok(vals.union(stepped(a, b, st))),
            },
        }
    }
}

/// The values that a field selects: all of `lo..=hi` for `*`, else the union
/// of what its comma-separated parts select.
pub open spec fn field_values(f: Seq<char>, lo: int, hi: int) -> Result<Set<int>, ParseFailure> {
    if f == seq!['*'] {
        Ok(Set::new(|v: int| lo <= v <= hi))
    } else {
        let parts = split(f, ',');
        parts_values(parts, parts.len() as int, lo, hi)
    }
}

/// The members of `vals` in `lo..k`, in ascending order.
pub open spec fn listed(vals: Set<int>, lo: int, k: int) -> Seq<u32>
    decreases k - lo,
{
    if k <= lo {
        seq![]
    } else {
        listed(vals, lo, k - 1) + if vals.contains(k - 1) {
            seq![(k - 1) as u32]
        } else {
            seq![]
        }
    }
}

/// The ascending values that a field selects; a field that selects nothing
/// is out of range.
pub open spec fn field_list(f: Seq<char>, lo: int, hi: int) -> Result<Seq<u32>, ParseFailure> {
    match field_values(f, lo, hi) {
        Err(e) => Err(e),
        Ok(vals) => if listed(vals, lo, hi + 1).len() == 0 {
            Err(ParseFailure::OutOfRange)
        } else {
            Ok(listed(vals, lo, hi + 1))
        },
    }
}

/// Whether `s` is strictly increasing, non-empty and within `lo..=hi`.
pub open spec fn ascending_within(s: Seq<u32>, lo: int, hi: int) -> bool {
    &&& s.len() > 0
    &&& forall|i: int, j: int| 0 <= i < j < s.len() ==> s[i] < s[j]
    &&& forall|i: int| 0 <= i < s.len() ==> lo <= #[trigger] s[i] <= hi
}

/// `listed` is ascending and stays within its bounds.
pub proof fn lemma_listed(vals: Set<int>, lo: int, k: int)
    requires
        0 <= lo,
        k <= u32::MAX + 1,
    ensures
        forall|i: int, j: int|
            0 <= i < j < listed(vals, lo, k).len() ==> listed(vals, lo, k)[i] < listed(vals, lo, k)[j],
        forall|i: int|
            0 <= i < listed(vals, lo, k).len() ==> lo <= #[trigger] listed(vals, lo, k)[i] < k,
    decreases k - lo,
{
    if k > lo {
        lemma_listed(vals, lo, k - 1);
        let prev = listed(vals, lo, k - 1);
        let cur = listed(vals, lo, k);
        if vals.contains(k - 1) {
            assert(cur == prev.push((k - 1) as u32));
            assert(((k - 1) as u32) as int == k - 1);
            assert forall|i: int| 0 <= i < cur.len() implies lo <= #[trigger] cur[i] < k by {
                if i < prev.len() {
                    assert(cur[i] == prev[i]);
                }
            }
            assert forall|i: int, j: int| 0 <= i < j < cur.len() implies cur[i] < cur[j] by {
                assert(cur[i] == prev[i]);
                if j < prev.len() {
                    assert(cur[j] == prev[j]);
                }
            }
        } else {
            assert(cur =~= prev);
        }
    }
}

/// Reads one comma-separated part of a field whose values lie in `lo..=hi`.
fn parse_part(p: &Vec<char>, lo: u32, hi: u32) -> (r: Result<(u32, u32, u64), CrontabError>)
    ensures
        r is Ok <==> part_bounds(p@, lo as int, hi as int) is Ok,
        r matches Ok(t) ==> part_bounds(p@, lo as int, hi as int) == Ok::<(int, int, int), ParseFailure>(
            (t.0 as int, t.1 as int, t.2 as int),
        ),
        r matches Err(e) ==> part_bounds(p@, lo as int, hi as int) == Err::<(int, int, int), ParseFailure>(
            failure_of(e),
        ),
{
    let (head, tail) = cut_once(p, '/');
    let (first, second) = cut_once(&head, '-');
    let mut step: u64 = 1;
    match &tail {
        Some(t) => match parse_decimal(t, usize::MAX as u64) {
            Ok(v) => {
                step = v;
            },
            Err(e) => {
                return Err(CrontabError::ErrParseInt(e));
            },
        },
        None => {},
    }
    let mut min: u32 = lo;
    let mut max: u32 = hi;
    let is_star = p.len() == 1 && p[0] == '*';
    assert(is_star == (p@ == seq!['*'])) by {
        if p@.len() == 1 && p@[0] == '*' {
            assert(p@ =~= seq!['*']);
        }
    }
    match &second {
        Some(x) => {
            match parse_decimal(&first, u32::MAX as u64) {
                Ok(v) => {
                    min = v as u32;
                },
                Err(e) => {
                    return Err(CrontabError::ErrParseInt(e));
                },
            }
            match parse_decimal(x, u32::MAX as u64) {
                Ok(v) => {
                    max = v as u32;
                },
                Err(e) => {
                    return Err(CrontabError::ErrParseInt(e));
                },
            }
        },
        None => {
            if tail.is_none() && !is_star {
                match parse_decimal(p, u32::MAX as u64) {
                    Ok(v) => {
                        min = v as u32;
                        max = min;
                    },
                    Err(e) => {
                        return Err(CrontabError::ErrParseInt(e));
                    },
                }
            }
        },
    }
    if min < lo {
        return Err(
            CrontabError::FieldOutsideRange {
                description: String::from_str("Value is less than the field minimum"),
            },
        );
    }
    if max > hi {
        return Err(
            CrontabError::FieldOutsideRange {
                description: String::from_str("Value is greater than the field maximum"),
            },
        );
    }
    if step == 0 {
        return Err(
            CrontabError::FieldOutsideRange { description: String::from_str("Step must be at least one") },
        );
    }
    Ok((min, max, step))
}

/// Reads one field whose values lie in `lo..=hi` into its ascending values.
fn parse_field(field: &Vec<char>, lo: u32, hi: u32) -> (r: Result<Vec<u32>, CrontabError>)
    requires
        lo <= hi < 60,
    ensures
        r is Ok <==> field_list(field@, lo as int, hi as int) is Ok,
        r matches Ok(v) ==> field_list(field@, lo as int, hi as int) == Ok::<Seq<u32>, ParseFailure>(
            v@,
        ),
        r matches Err(e) ==> field_list(field@, lo as int, hi as int) == Err::<Seq<u32>, ParseFailure>(
            failure_of(e),
        ),
{
    let ghost lo_i = lo as int;
    let ghost hi_i = hi as int;
    let mut mask: Vec<bool> = vec![false; (hi + 1) as usize];
    let ghost vals: Set<int>;
    if field.len() == 1 && field[0] == '*' {
        assert(field@ =~= seq!['*']);
        proof {
            vals = Set::new(|v: int| lo_i <= v <= hi_i);
        }
        let mut u: usize = lo as usize;
        while u <= hi as usize
            invariant
                lo <= u <= hi + 1,
                hi < 60,
                mask@.len() == hi + 1,
                forall|v: int| lo <= v < u ==> mask@[v],
            decreases hi + 1 - u,
        {
            mask.set(u, true);
            u = u + 1;
        }
    } else {
        assert(field@ != seq!['*']) by {
            if field@ == seq!['*'] {
                assert(field@.len() == 1 && field@[0] == '*');
            }
        }
        let parts = split_all(field, ',');
        let ghost pv = views(parts@);
        assert(pv == split(field@, ','));
        let mut i: usize = 0;
        let ghost mut acc: Set<int> = Set::empty();
        while i < parts.len()
            invariant
                field@ != seq!['*'],
                pv == views(parts@),
                pv == split(field@, ','),
                i <= parts@.len(),
                hi < 60,
                mask@.len() == hi + 1,
                parts_values(pv, i as int, lo as int, hi as int) == Ok::<Set<int>, ParseFailure>(acc),
                forall|v: int| lo <= v <= hi ==> mask@[v] == acc.contains(v),
            decreases parts@.len() - i,
        {
            assert(pv[i as int] == parts@[i as int]@);
            let (a, b, st) = match parse_part(&parts[i], lo, hi) {
                Ok(t) => t,
                Err(e) => {
                    assert(parts_values(pv, i + 1, lo as int, hi as int) == Err::<Set<int>, ParseFailure>(
                        failure_of(e),
                    ));
                    assert(pv.len() == parts@.len());
                    proof {
                        lemma_parts_values_fail(pv, i + 1, pv.len() as int, lo as int, hi as int);
                        assert(field@ != seq!['*']);
                        assert(field_values(field@, lo as int, hi as int) == parts_values(
                            pv,
                            pv.len() as int,
                            lo as int,
                            hi as int,
                        ));
                    }
                    return Err(e);
                },
            };
            let ghost next = acc.union(stepped(a as int, b as int, st as int));
            let mut u: u32 = a;
            while u <= b
                invariant
                    lo <= a,
                    b <= hi < 60,
                    st > 0,
                    a <= u,
                    u <= b + 1 || u == a,
                    mask@.len() == hi + 1,
                    forall|v: int|
                        lo <= v <= hi ==> #[trigger] mask@[v] == (acc.contains(v) || (a <= v < u
                            && (v - a) % (st as int) == 0)),
                decreases b + 1 - u,
            {
                if ((u - a) as u64) % st == 0 {
                    mask.set(u as usize, true);
                }
                u = u + 1;
            }
            assert(u > b);
            assert forall|v: int| lo <= v <= hi implies mask@[v] == next.contains(v) by {
                assert(stepped(a as int, b as int, st as int).contains(v) == (a <= v <= b && (v - a) % (
                st as int) == 0));
                assert(mask@[v] == (acc.contains(v) || (a <= v < u && (v - a) % (st as int) == 0)));
                assert((a <= v < u) == (a <= v <= b));
            }
            assert(parts_values(pv, i + 1, lo as int, hi as int) == Ok::<Set<int>, ParseFailure>(next));
            proof {
                acc = next;
            }
            i = i + 1;
        }
        proof {
            vals = acc;
        }
        assert(pv.len() == parts@.len());
        assert(field_values(field@, lo as int, hi as int) == Ok::<Set<int>, ParseFailure>(vals));
    }
    assert(field_values(field@, lo as int, hi as int) == Ok::<Set<int>, ParseFailure>(vals));
    assert(forall|v: int| lo <= v <= hi ==> mask@[v] == vals.contains(v));
    let mut out: Vec<u32> = Vec::new();
    let mut u: u32 = lo;
    while u <= hi
        invariant
            lo <= u <= hi + 1,
            hi < 60,
            mask@.len() == hi + 1,
            forall|v: int| lo <= v <= hi ==> mask@[v] == vals.contains(v),
            out@ == listed(vals, lo as int, u as int),
        decreases hi + 1 - u,
    {
        if mask[u as usize] {
            out.push(u);
        }
        u = u + 1;
    }
    if out.len() == 0 {
        return Err(
            CrontabError::FieldOutsideRange { description: String::from_str("Field selects no value") },
        );
    }
    Ok(out)
}

/// The five fields that a schedule text selects, from minutes to weekdays,
/// or the failure of the first field that fails.
pub open spec fn cron_fields(s: Seq<char>) -> Result<ScheduleView, ParseFailure> {
    let w = words(s);
    if w.len() != 5 {
        Err(ParseFailure::Format)
    } else {
        match field_list(w[0], 0, 59) {
            Err(e) => Err(e),
            Ok(minutes) => match field_list(w[1], 0, 23) {
                Err(e) => Err(e),
                Ok(hours) => match field_list(w[2], 1, 31) {
                    Err(e) => Err(e),
                    Ok(days) => match field_list(w[3], 1, 12) {
                        Err(e) => Err(e),
                        Ok(months) => match field_list(w[4], 0, 6) {
                            Err(e) => Err(e),
                            Ok(weekdays) => Ok(ScheduleView { minutes, hours, days, months, weekdays }),
                        },
                    },
                },
            },
        }
    }
}

/// A field that `field_list` accepts is ascending within its range.
proof fn lemma_field_list(f: Seq<char>, lo: int, hi: int)
    requires
        0 <= lo <= hi < 60,
        field_list(f, lo, hi) is Ok,
    ensures
        ascending_within(field_list(f, lo, hi)->Ok_0, lo, hi),
{
    lemma_listed(field_values(f, lo, hi)->Ok_0, lo, hi + 1);
}

/// Parses a five-field crontab schedule.
pub fn parse_cron(schedule: &str) -> (r: Result<ScheduleComponents, CrontabError>)
    ensures
        r is Ok <==> cron_fields(schedule@) is Ok,
        r matches Ok(sc) ==> cron_fields(schedule@) == Ok::<ScheduleView, ParseFailure>(sc@)
            && sc.seconds@.len() == 0 && sc.wf(),
        r matches Err(e) ==> cron_fields(schedule@) == Err::<ScheduleView, ParseFailure>(
            failure_of(e),
        ),
{
    let chars = to_chars(schedule);
    let fields = split_words(&chars);
    let ghost w = views(fields@);
    assert(w == words(schedule@));
    if fields.len() != 5 {
        return Err(CrontabError::ErrCronFormat(String::from_str("Invalid format: ").concat(schedule)));
    }
    assert(w[0] == fields@[0]@ && w[1] == fields@[1]@ && w[2] == fields@[2]@ && w[3] == fields@[3]@
        && w[4] == fields@[4]@);
    let minutes = parse_field(&fields[0], 0, 59)?;
    let hours = parse_field(&fields[1], 0, 23)?;
    let days = parse_field(&fields[2], 1, 31)?;
    let months = parse_field(&fields[3], 1, 12)?;
    let weekdays = parse_field(&fields[4], 0, 6)?;
    proof {
        lemma_field_list(w[0], 0, 59);
        lemma_field_list(w[1], 0, 23);
        lemma_field_list(w[2], 1, 31);
        lemma_field_list(w[3], 1, 12);
        lemma_field_list(w[4], 0, 6);
    }
    let sc = ScheduleComponents { minutes, hours, days, months, weekdays, seconds: Vec::new() };
    Ok(sc)
}

/// Once a prefix of the parts fails, every longer prefix fails the same way.
proof fn lemma_parts_values_fail(parts: Seq<Seq<char>>, n: int, m: int, lo: int, hi: int)
    requires
        n <= m,
        parts_values(parts, n, lo, hi) is Err,
    ensures
        parts_values(parts, m, lo, hi) == parts_values(parts, n, lo, hi),
    decreases m - n,
{
    if n < m {
        lemma_parts_values_fail(parts, n, m - 1, lo, hi);
    }
}

} // verus!
