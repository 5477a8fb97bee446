use crate::domain::model::{all_identity_chars, CallbackRecord, Identity};
use crate::http::calendar::{
    date_of_day, days_from_civil, is_valid_date, lemma_date_of_day, lemma_dates_ordered,
    lemma_four_digit_year, lemma_month_of_year_bv, lemma_year_of_era_bv,
};
use crate::text::{
    chars_of, dec_digits, digit_char, int_text, padded_int_text, push_char, push_i64,
    push_padded_i64, push_u64, zero_pad,
};
use vstd::prelude::*;
use vstd::string::*;

verus! {

/// The days for which the computation stays within its machine types: the
/// year fits in an `i32`, and so do the intermediate era and year values.
pub open spec fn civil_days_in_range(days: int) -> bool {
    let z = days + 719468;
    let era = z / 146097;
    let doe = z - era * 146097;
    let yoe = (doe - doe / 1460 + doe / 36524 - doe / 146096) / 365;
    &&& z <= i64::MAX
    &&& i32::MIN <= era * 400 <= i32::MAX
    &&& era * 400 + yoe <= i32::MAX
    &&& date_of_day(days).0 <= i32::MAX
}

/// Every day within 694 billion days (about 1.9 billion years) of the
/// epoch has its calendar date computed without overflow.
pub proof fn lemma_civil_wide_range(days: int)
    requires
        -694000000000 <= days <= 694000000000,
    ensures
        civil_days_in_range(days),
{
    let z = days + 719468;
    let era = z / 146097;
    assert(-4800000 <= era <= 4800000) by (nonlinear_arith)
        requires
            -694000000000 + 719468 <= z <= 694000000000 + 719468,
            era == z / 146097,
    ;
    vstd::arithmetic::div_mod::lemma_fundamental_div_mod(z, 146097);
    let doe = z - era * 146097;
    lemma_year_of_era_bv(doe as u32);
    lemma_date_of_day(days);
}

proof fn lemma_floor_era(z: int, e: int)
    requires
        z >= 0 ==> e == z / 146097,
        z < 0 ==> z - 146096 <= e * 146097 <= z,
    ensures
        e == z / 146097,
{
    if z < 0 {
        vstd::arithmetic::div_mod::lemma_fundamental_div_mod_converse(z, 146097, e, z - e * 146097);
    }
}

/// The 400-year era (of 146097 days) that day `z` after 0000-03-01 falls
/// in, rounding down.
fn era_of(z: i64) -> (era: i64)
    requires
        -4611686018427387904 < z,
    ensures
        era == z / 146097,
{
    let era = (if z >= 0 { z } else { z - 146_096 }) / 146_097;
    proof {
        if z < 0 {
            let n: int = z - 146096;
            vstd::arithmetic::div_mod::lemma_fundamental_div_mod(-n, 146097);
            assert(era == -((-n) / 146097));
        }
        lemma_floor_era(z as int, era as int);
    }
    era
}

/// Converts days since the Unix epoch to a proleptic Gregorian
/// (year, month, day), by Howard Hinnant's `civil_from_days`.
pub fn civil_from_days(days: i64) -> (r: (i32, u32, u32))
    requires
        civil_days_in_range(days as int),
    ensures
        (r.0 as int, r.1 as int, r.2 as int) == date_of_day(days as int),
        is_valid_date(r.0 as int, r.1 as int, r.2 as int),
        days_from_civil(r.0 as int, r.1 as int, r.2 as int) == days,
{
    proof {
        lemma_date_of_day(days as int);
    }
    let z = days + 719_468;
    let era = era_of(z);
    let doe = (z - era * 146_097) as u32;
    proof {
        lemma_year_of_era_bv(doe);
    }
    let yoe = (doe - doe / 1_460 + doe / 36_524 - doe / 146_096) / 365;
    let y = yoe as i32 + era as i32 * 400;
    let doy = doe - (365 * yoe + yoe / 4 - yoe / 100);
    proof {
        lemma_month_of_year_bv(doy);
    }
    let mp = (5 * doy + 2) / 153;
    let d = doy - (153 * mp + 2) / 5 + 1;
    let m = if mp < 10 { mp + 3 } else { mp - 9 };
    let year = y + if m <= 2 { 1 } else { 0 };
    (year, m, d)
}

// ---------------------------------------------------------------------
// Label escaping and the Prometheus text format
// ---------------------------------------------------------------------

/// How one character is written inside a Prometheus label value.
pub open spec fn escape_char(c: char) -> Seq<char> {
    if c == '\\' {
        seq!['\\', '\\']
    } else if c == '"' {
        seq!['\\', '"']
    } else {
        seq![c]
    }
}

/// A label value with `\` and `"` escaped by a backslash.
pub open spec fn escape_text(s: Seq<char>) -> Seq<char>
    decreases s.len(),
{
    if s.len() == 0 {
        Seq::empty()
    } else {
        escape_text(s.drop_last()) + escape_char(s.last())
    }
}

/// Text made of identity characters needs no escaping.
pub proof fn lemma_escape_identity(s: Seq<char>)
    requires
        all_identity_chars(s),
    ensures
        escape_text(s) == s,
    decreases s.len(),
{
    if s.len() > 0 {
        assert(all_identity_chars(s.drop_last()));
        lemma_escape_identity(s.drop_last());
        assert(s.drop_last().push(s.last()) =~= s);
    }
}

/// Escapes `\` and `"` in a Prometheus label value.
pub fn escape_label_value(value: &str) -> (r: String)
    ensures
        r@ == escape_text(value@),
{
    let v = chars_of(value);
    let mut out = String::new();
    let mut i: usize = 0;
    while i < v.len()
        invariant
            i <= v.len(),
            out@ == escape_text(v@.take(i as int)),
        decreases v.len() - i,
    {
        let c = v[i];
        proof {
            assert(v@.take(i + 1).drop_last() =~= v@.take(i as int));
        }
        if c == '\\' {
            push_char(&mut out, '\\');
            push_char(&mut out, '\\');
        } else if c == '"' {
            push_char(&mut out, '\\');
            push_char(&mut out, '"');
        } else {
            push_char(&mut out, c);
        }
        i = i + 1;
        proof {
            assert(out@ =~= escape_text(v@.take(i as int)));
        }
    }
    proof {
        assert(v@.take(i as int) =~= v@);
    }
    out
}

pub open spec fn gauge_header() -> Seq<char> {
    "# HELP cronbird_last_callback_timestamp_seconds Unix timestamp of the last successful callback\n"@
        + "# TYPE cronbird_last_callback_timestamp_seconds gauge\n"@
}

pub open spec fn counter_header() -> Seq<char> {
    "# HELP cronbird_callback_total Total number of callbacks received\n"@
        + "# TYPE cronbird_callback_total counter\n"@
}

/// The gauge sample of one identity: its last callback time.
pub open spec fn gauge_line(identity: Seq<char>, record: CallbackRecord) -> Seq<char> {
    "cronbird_last_callback_timestamp_seconds{identity=\""@ + escape_text(identity) + "\"} "@
        + int_text(record.last_callback_ts as int) + "\n"@
}

/// The counter sample of one identity: its number of callbacks.
pub open spec fn counter_line(identity: Seq<char>, record: CallbackRecord) -> Seq<char> {
    "cronbird_callback_total{identity=\""@ + escape_text(identity) + "\"} "@ + dec_digits(
        record.callback_count as nat,
    ) + "\n"@
}

pub open spec fn gauge_lines(v: Seq<(Seq<char>, CallbackRecord)>) -> Seq<char>
    decreases v.len(),
{
    if v.len() == 0 {
        Seq::empty()
    } else {
        gauge_lines(v.drop_last()) + gauge_line(v.last().0, v.last().1)
    }
}

pub open spec fn counter_lines(v: Seq<(Seq<char>, CallbackRecord)>) -> Seq<char>
    decreases v.len(),
{
    if v.len() == 0 {
        Seq::empty()
    } else {
        counter_lines(v.drop_last()) + counter_line(v.last().0, v.last().1)
    }
}

/// The Prometheus text exposition of a list of records: the gauge family,
/// one sample per record in list order, a blank line, then the counter
/// family in the same order.
pub open spec fn prometheus_text(v: Seq<(Seq<char>, CallbackRecord)>) -> Seq<char> {
    gauge_header() + gauge_lines(v) + "\n"@ + counter_header() + counter_lines(v)
}

/// The sample lines of a list joined are the lines of the first list
/// followed by those of the second, for both families.
pub proof fn lemma_sample_lines_concat(a: Seq<(Seq<char>, CallbackRecord)>, b: Seq<(Seq<char>, CallbackRecord)>)
    ensures
        gauge_lines(a + b) == gauge_lines(a) + gauge_lines(b),
        counter_lines(a + b) == counter_lines(a) + counter_lines(b),
    decreases b.len(),
{
    if b.len() == 0 {
        assert(a + b =~= a);
        assert(gauge_lines(a) + gauge_lines(b) =~= gauge_lines(a));
        assert(counter_lines(a) + counter_lines(b) =~= counter_lines(a));
    } else {
        lemma_sample_lines_concat(a, b.drop_last());
        assert((a + b).drop_last() =~= a + b.drop_last());
        assert((a + b).last() == b.last());
        assert(gauge_lines(a + b) =~= gauge_lines(a) + gauge_lines(b));
        assert(counter_lines(a + b) =~= counter_lines(a) + counter_lines(b));
    }
}

/// The exposition of one record under an identity: both samples carry the
/// identity itself as their label (identity characters need no escaping),
/// the gauge the record's timestamp in decimal and the counter its count.
pub proof fn lemma_prometheus_one(identity: Seq<char>, record: CallbackRecord)
    requires
        all_identity_chars(identity),
    ensures
        prometheus_text(seq![(identity, record)]) == gauge_header()
            + "cronbird_last_callback_timestamp_seconds{identity=\""@ + identity + "\"} "@
            + int_text(record.last_callback_ts as int) + "\n"@ + "\n"@ + counter_header()
            + "cronbird_callback_total{identity=\""@ + identity + "\"} "@ + dec_digits(
            record.callback_count as nat,
        ) + "\n"@,
{
    lemma_escape_identity(identity);
    let v = seq![(identity, record)];
    assert(v.drop_last() =~= Seq::<(Seq<char>, CallbackRecord)>::empty());
    assert(v.last() == (identity, record));
    assert(gauge_lines(v.drop_last()) == Seq::<char>::empty());
    assert(counter_lines(v.drop_last()) == Seq::<char>::empty());
    assert(gauge_lines(v) =~= gauge_line(identity, record));
    assert(counter_lines(v) =~= counter_line(identity, record));
    assert(prometheus_text(v) =~= gauge_header()
        + "cronbird_last_callback_timestamp_seconds{identity=\""@ + identity + "\"} "@
        + int_text(record.last_callback_ts as int) + "\n"@ + "\n"@ + counter_header()
        + "cronbird_callback_total{identity=\""@ + identity + "\"} "@ + dec_digits(
        record.callback_count as nat,
    ) + "\n"@);
}

/// A list of records seen as plain values.
pub open spec fn records_view(v: Seq<(Identity, CallbackRecord)>) -> Seq<(Seq<char>, CallbackRecord)> {
    v.map_values(|e: (Identity, CallbackRecord)| (e.0@, e.1))
}

/// Formats metrics in Prometheus text exposition format.
pub fn format_prometheus(records: &[(Identity, CallbackRecord)]) -> (r: String)
    ensures
        r@ == prometheus_text(records_view(records@)),
{
    let ghost rv = records_view(records@);
    let mut output = String::new();
    output.append(
        "# HELP cronbird_last_callback_timestamp_seconds Unix timestamp of the last successful callback\n",
    );
    output.append("# TYPE cronbird_last_callback_timestamp_seconds gauge\n");
    let ghost head = output@;
    let mut i: usize = 0;
    while i < records.len()
        invariant
            i <= records@.len(),
            rv == records_view(records@),
            head == gauge_header(),
            output@ == head + gauge_lines(rv.take(i as int)),
        decreases records.len() - i,
    {
        let ghost before = output@;
        let identity = &records[i].0;
        let record = records[i].1;
        output.append("cronbird_last_callback_timestamp_seconds{identity=\"");
        let escaped = escape_label_value(identity.as_str());
        output.append(escaped.as_str());
        output.append("\"} ");
        push_i64(&mut output, record.last_callback_ts);
        output.append("\n");
        proof {
            assert(rv.take(i + 1).drop_last() =~= rv.take(i as int));
            assert(rv.take(i + 1).last() == rv[i as int]);
            assert(output@ =~= before + gauge_line(rv[i as int].0, rv[i as int].1));
        }
        i = i + 1;
    }
    proof {
        assert(rv.take(i as int) =~= rv);
    }
    push_char(&mut output, '\n');
    output.append("# HELP cronbird_callback_total Total number of callbacks received\n");
    output.append("# TYPE cronbird_callback_total counter\n");
    let ghost mid = output@;
    proof {
        assert(mid =~= gauge_header() + gauge_lines(rv) + "\n"@ + counter_header()) by {
            reveal_strlit("\n");
        }
    }
    let mut j: usize = 0;
    while j < records.len()
        invariant
            j <= records@.len(),
            rv == records_view(records@),
            output@ == mid + counter_lines(rv.take(j as int)),
        decreases records.len() - j,
    {
        let ghost before = output@;
        let identity = &records[j].0;
        let record = records[j].1;
        output.append("cronbird_callback_total{identity=\"");
        let escaped = escape_label_value(identity.as_str());
        output.append(escaped.as_str());
        output.append("\"} ");
        push_u64(&mut output, record.callback_count);
        output.append("\n");
        proof {
            assert(rv.take(j + 1).drop_last() =~= rv.take(j as int));
            assert(rv.take(j + 1).last() == rv[j as int]);
            assert(output@ =~= before + counter_line(rv[j as int].0, rv[j as int].1));
        }
        j = j + 1;
    }
    proof {
        assert(rv.take(j as int) =~= rv);
        assert(output@ =~= prometheus_text(rv));
    }
    output
}

// ---------------------------------------------------------------------
// RFC 3339 timestamps and the JSON representation
// ---------------------------------------------------------------------

/// The timestamps whose calendar date the conversion can compute: the day
/// they fall on keeps the year within an `i32`.
pub open spec fn rfc3339_in_range(timestamp: int) -> bool {
    civil_days_in_range(timestamp / 86400)
}

/// Every timestamp within 10^16 seconds (about 300 million years) of the
/// epoch can be written as RFC 3339 text.
pub proof fn lemma_rfc3339_wide_range(timestamp: int)
    requires
        -10000000000000000 <= timestamp <= 10000000000000000,
    ensures
        rfc3339_in_range(timestamp),
{
    let days = timestamp / 86400;
    assert(-115740740741 <= days <= 115740740740) by (nonlinear_arith)
        requires
            -10000000000000000 <= timestamp <= 10000000000000000,
            days == timestamp / 86400,
    ;
    lemma_civil_wide_range(days);
}

/// `YYYY-MM-DDTHH:MM:SSZ` for a Unix timestamp, in UTC; years are padded
/// to four places, with a leading minus sign counted in the width.
pub open spec fn rfc3339_text(timestamp: int) -> Seq<char> {
    let days = timestamp / 86400;
    let secs = timestamp % 86400;
    let date = date_of_day(days);
    padded_int_text(date.0, 4) + "-"@ + padded_int_text(date.1, 2) + "-"@ + padded_int_text(
        date.2,
        2,
    ) + "T"@ + padded_int_text(secs / 3600, 2) + ":"@ + padded_int_text((secs % 3600) / 60, 2)
        + ":"@ + padded_int_text(secs % 60, 2) + "Z"@
}

/// Whether the calendar date of `timestamp` can be computed, that is,
/// whether its year and the intermediate values fit their machine types.
pub fn rfc3339_representable(timestamp: i64) -> (b: bool)
    ensures
        b == rfc3339_in_range(timestamp as int),
{
    let days: i64 = match timestamp.checked_div_euclid(86400) {
        Some(q) => q,
        None => 0,
    };
    assert(-106751991167301 <= days <= 106751991167300) by (nonlinear_arith)
        requires
            days == timestamp as int / 86400,
    ;
    let z = days + 719_468;
    let era = era_of(z);
    assert(-800000000 < era < 800000000) by (nonlinear_arith)
        requires
            era == z / 146097,
            -106751991167301 + 719468 <= z <= 106751991167300 + 719468,
    ;
    let doe = z - era * 146_097;
    proof {
        lemma_date_of_day(days as int);
        vstd::arithmetic::div_mod::lemma_fundamental_div_mod(z as int, 146097);
        lemma_year_of_era_bv(doe as u32);
    }
    let yoe = (doe - doe / 1_460 + doe / 36_524 - doe / 146_096) / 365;
    let doy = doe - (365 * yoe + yoe / 4 - yoe / 100);
    proof {
        lemma_month_of_year_bv(doy as u32);
    }
    let mp = (5 * doy + 2) / 153;
    let m = if mp < 10 { mp + 3 } else { mp - 9 };
    let base = era * 400;
    let year = base + yoe + if m <= 2 { 1 } else { 0 };
    (i32::MIN as i64) <= base && base <= (i32::MAX as i64) && base + yoe <= (i32::MAX as i64)
        && year <= (i32::MAX as i64)
}

/// Converts a Unix timestamp to RFC 3339 text in UTC.
pub fn timestamp_to_rfc3339(timestamp: i64) -> (r: String)
    requires
        rfc3339_in_range(timestamp as int),
    ensures
        r@ == rfc3339_text(timestamp as int),
{
    let days: i64 = match timestamp.checked_div_euclid(86400) {
        Some(q) => q,
        None => 0,
    };
    let day_secs: i64 = match timestamp.checked_rem_euclid(86400) {
        Some(q) => q,
        None => 0,
    };
    let hours = day_secs / 3600;
    let minutes = (day_secs % 3600) / 60;
    let seconds = day_secs % 60;
    let (year, month, day) = civil_from_days(days);
    let mut out = String::new();
    push_padded_i64(&mut out, year as i64, 4);
    out.append("-");
    push_padded_i64(&mut out, month as i64, 2);
    out.append("-");
    push_padded_i64(&mut out, day as i64, 2);
    out.append("T");
    push_padded_i64(&mut out, hours, 2);
    out.append(":");
    push_padded_i64(&mut out, minutes, 2);
    out.append(":");
    push_padded_i64(&mut out, seconds, 2);
    out.append("Z");
    proof {
        assert(out@ =~= rfc3339_text(timestamp as int));
    }
    out
}

/// JSON representation of a single metric record.
#[derive(Debug)]
pub struct JsonMetric {
    pub identity: String,
    pub last_callback_ts: i64,
    pub last_callback_rfc3339: String,
    pub callback_count: u64,
}

/// The metric of one record, as plain values.
pub open spec fn metric_fields(metric: JsonMetric) -> (Seq<char>, i64, Seq<char>, u64) {
    (metric.identity@, metric.last_callback_ts, metric.last_callback_rfc3339@, metric.callback_count)
}

/// What the metric of `identity` with `record` holds.
pub open spec fn metric_of(identity: Seq<char>, record: CallbackRecord) -> (Seq<char>, i64, Seq<char>, u64) {
    (identity, record.last_callback_ts, rfc3339_text(record.last_callback_ts as int), record.callback_count)
}

impl JsonMetric {
    /// The metric of an identity and its record.
    pub fn from_record(identity: &Identity, record: &CallbackRecord) -> (r: Self)
        requires
            rfc3339_in_range(record.last_callback_ts as int),
        ensures
            metric_fields(r) == metric_of(identity@, *record),
            r.identity@ == identity@,
            r.last_callback_ts == record.last_callback_ts,
            r.last_callback_rfc3339@ == rfc3339_text(record.last_callback_ts as int),
            r.callback_count == record.callback_count,
    {
        let rfc3339 = timestamp_to_rfc3339(record.last_callback_ts);
        JsonMetric {
            identity: String::from_str(identity.as_str()),
            last_callback_ts: record.last_callback_ts,
            last_callback_rfc3339: rfc3339,
            callback_count: record.callback_count,
        }
    }
}

/// The metrics of a list of records, one per record, in order.
pub open spec fn metrics_of(v: Seq<(Seq<char>, CallbackRecord)>) -> Seq<(Seq<char>, i64, Seq<char>, u64)> {
    v.map_values(|e: (Seq<char>, CallbackRecord)| metric_of(e.0, e.1))
}

/// The metrics of two lists joined are the metrics of the first followed by
/// those of the second.
pub proof fn lemma_metrics_concat(a: Seq<(Seq<char>, CallbackRecord)>, b: Seq<(Seq<char>, CallbackRecord)>)
    ensures
        metrics_of(a + b) == metrics_of(a) + metrics_of(b),
{
    assert(metrics_of(a + b) =~= metrics_of(a) + metrics_of(b));
}

/// Every record's timestamp can be converted.
pub open spec fn all_in_range(v: Seq<(Identity, CallbackRecord)>) -> bool {
    forall|i: int| 0 <= i < v.len() ==> rfc3339_in_range(#[trigger] v[i].1.last_callback_ts as int)
}

/// Container for the JSON metrics response.
#[derive(Debug)]
pub struct JsonMetricsResponse {
    pub metrics: Vec<JsonMetric>,
}

impl JsonMetricsResponse {
    /// One metric per record, in the same order.
    pub fn from_records(records: &[(Identity, CallbackRecord)]) -> (r: Self)
        requires
            all_in_range(records@),
        ensures
            r.metrics@.len() == records@.len(),
            forall|i: int|
                0 <= i < records@.len() ==> metric_fields(#[trigger] r.metrics@[i]) == metric_of(
                    records@[i].0@,
                    records@[i].1,
                ),
            r.metrics@.map_values(|m: JsonMetric| metric_fields(m)) == metrics_of(
                records_view(records@),
            ),
            forall|i: int|
                0 <= i < records@.len() ==> {
                    &&& (#[trigger] r.metrics@[i]).identity@ == records@[i].0@
                    &&& r.metrics@[i].last_callback_ts == records@[i].1.last_callback_ts
                    &&& r.metrics@[i].last_callback_rfc3339@ == rfc3339_text(
                        records@[i].1.last_callback_ts as int,
                    )
                    &&& r.metrics@[i].callback_count == records@[i].1.callback_count
                },
    {
        let mut metrics: Vec<JsonMetric> = Vec::new();
        let mut i: usize = 0;
        while i < records.len()
            invariant
                i <= records@.len(),
                all_in_range(records@),
                metrics@.len() == i,
                forall|k: int|
                    0 <= k < i ==> metric_fields(#[trigger] metrics@[k]) == metric_of(
                        records@[k].0@,
                        records@[k].1,
                    ),
            decreases records.len() - i,
        {
            let m = JsonMetric::from_record(&records[i].0, &records[i].1);
            metrics.push(m);
            i = i + 1;
        }
        proof {
            assert(metrics@.map_values(|m: JsonMetric| metric_fields(m)) =~= metrics_of(
                records_view(records@),
            ));
        }
        JsonMetricsResponse { metrics }
    }
}

// ---------------------------------------------------------------------
// The shape and order of RFC 3339 text in four-digit years
// ---------------------------------------------------------------------

/// Ten to the power `w`.
pub open spec fn pow10(w: nat) -> nat
    decreases w,
{
    if w == 0 {
        1
    } else {
        10 * pow10((w - 1) as nat)
    }
}

/// The `w` lowest decimal digits of `n`, most significant first.
pub open spec fn fixed_digits(n: nat, w: nat) -> Seq<char>
    decreases w,
{
    if w == 0 {
        Seq::empty()
    } else {
        fixed_digits(n / 10, (w - 1) as nat).push(digit_char(n % 10))
    }
}

/// `a` and `b` agree before position `i`, where `a` has the smaller
/// character.
pub open spec fn before_at(a: Seq<char>, b: Seq<char>, i: int) -> bool {
    0 <= i < a.len() && i < b.len() && a.subrange(0, i) == b.subrange(0, i) && (a[i] as int) < (
    b[i] as int)
}

/// `a` sorts before `b`: at the first place where they differ, `a` has the
/// character with the smaller code point.
pub open spec fn text_before(a: Seq<char>, b: Seq<char>) -> bool {
    exists|i: int| #[trigger] before_at(a, b, i)
}

/// RFC 3339 text of a date and time of day whose fields all fit their
/// widths.
pub open spec fn stamp_text(y: nat, mo: nat, d: nat, h: nat, mi: nat, s: nat) -> Seq<char> {
    fixed_digits(y, 4) + ("-"@ + (fixed_digits(mo, 2) + ("-"@ + (fixed_digits(d, 2) + ("T"@ + (
    fixed_digits(h, 2) + (":"@ + (fixed_digits(mi, 2) + (":"@ + (fixed_digits(s, 2)
        + "Z"@))))))))))
}

proof fn lemma_fixed_len(n: nat, w: nat)
    ensures
        fixed_digits(n, w).len() == w,
    decreases w,
{
    if w > 0 {
        lemma_fixed_len(n / 10, (w - 1) as nat);
    }
}

proof fn lemma_fixed_zero(k: nat)
    ensures
        fixed_digits(0, k) =~= Seq::new(k, |i: int| '0'),
    decreases k,
{
    if k > 0 {
        lemma_fixed_zero((k - 1) as nat);
    }
}

/// Zero-padding the decimal digits of a number that has at most `w` digits
/// gives exactly its `w` lowest digits.
proof fn lemma_pad_fixed(n: nat, w: nat)
    requires
        1 <= w,
        n < pow10(w),
    ensures
        zero_pad(dec_digits(n), w) == fixed_digits(n, w),
    decreases w,
{
    if n < 10 {
        lemma_fixed_zero((w - 1) as nat);
        assert(n / 10 == 0);
        assert(n % 10 == n);
        assert(dec_digits(n) == seq![digit_char(n)]);
        assert(zero_pad(dec_digits(n), w) =~= fixed_digits(n, w));
    } else {
        if w == 1 {
            assert(pow10(1) == 10 * pow10(0));
        }
        let w1 = (w - 1) as nat;
        assert(pow10(w) == 10 * pow10(w1));
        assert(n / 10 < pow10(w1)) by (nonlinear_arith)
            requires
                n < pow10(w),
                pow10(w) == 10 * pow10(w1),
        ;
        lemma_pad_fixed(n / 10, w1);
        let s = dec_digits(n / 10);
        assert(dec_digits(n) == s.push(digit_char(n % 10)));
        assert(zero_pad(s.push(digit_char(n % 10)), w) =~= zero_pad(s, w1).push(
            digit_char(n % 10),
        ));
    }
}

proof fn lemma_digit_order(a: nat, b: nat)
    requires
        a < b < 10,
    ensures
        (digit_char(a) as int) < (digit_char(b) as int),
{
}

/// Of two numbers below `10^w`, the smaller one's `w` digits sort first.
proof fn lemma_fixed_order(a: nat, b: nat, w: nat)
    requires
        a < b < pow10(w),
    ensures
        text_before(fixed_digits(a, w), fixed_digits(b, w)),
    decreases w,
{
    let w1 = (w - 1) as nat;
    let fa = fixed_digits(a, w);
    let fb = fixed_digits(b, w);
    let pa = fixed_digits(a / 10, w1);
    let pb = fixed_digits(b / 10, w1);
    lemma_fixed_len(a / 10, w1);
    lemma_fixed_len(b / 10, w1);
    assert(pow10(w) == 10 * pow10(w1));
    assert(a / 10 <= b / 10 && b / 10 < pow10(w1)) by (nonlinear_arith)
        requires
            a < b < pow10(w),
            pow10(w) == 10 * pow10(w1),
    ;
    if a / 10 < b / 10 {
        lemma_fixed_order(a / 10, b / 10, w1);
        let i = choose|i: int| before_at(pa, pb, i);
        assert(fa.subrange(0, i) =~= pa.subrange(0, i));
        assert(fb.subrange(0, i) =~= pb.subrange(0, i));
        assert(before_at(fa, fb, i));
    } else {
        assert(a % 10 < b % 10) by (nonlinear_arith)
            requires
                a < b,
                a / 10 == b / 10,
        ;
        lemma_digit_order(a % 10, b % 10);
        assert(fa.subrange(0, w1 as int) =~= pa);
        assert(fb.subrange(0, w1 as int) =~= pb);
        assert(before_at(fa, fb, w1 as int));
    }
}

/// Text that starts with an earlier piece of the same length, or with the
/// same piece and goes on with earlier text, sorts first.
proof fn lemma_before_concat(a1: Seq<char>, a2: Seq<char>, b1: Seq<char>, b2: Seq<char>)
    requires
        a1.len() == b1.len(),
        text_before(a1, b1) || (a1 == b1 && text_before(a2, b2)),
    ensures
        text_before(a1 + a2, b1 + b2),
{
    if text_before(a1, b1) {
        let i = choose|i: int| before_at(a1, b1, i);
        assert((a1 + a2).subrange(0, i) =~= a1.subrange(0, i));
        assert((b1 + b2).subrange(0, i) =~= b1.subrange(0, i));
        assert(before_at(a1 + a2, b1 + b2, i));
    } else {
        let i = choose|i: int| before_at(a2, b2, i);
        let j = a1.len() + i;
        assert((a1 + a2).subrange(0, j) =~= a1 + a2.subrange(0, i));
        assert((b1 + b2).subrange(0, j) =~= b1 + b2.subrange(0, i));
        assert(before_at(a1 + a2, b1 + b2, j));
    }
}

/// One field of a stamp, a separator, and the rest: an earlier field, or
/// the same field and an earlier rest, sorts first.
proof fn lemma_field_order(x1: nat, x2: nat, w: nat, sep: Seq<char>, r1: Seq<char>, r2: Seq<char>)
    requires
        x1 < pow10(w),
        x2 < pow10(w),
        x1 < x2 || (x1 == x2 && text_before(r1, r2)),
    ensures
        text_before(fixed_digits(x1, w) + (sep + r1), fixed_digits(x2, w) + (sep + r2)),
{
    lemma_fixed_len(x1, w);
    lemma_fixed_len(x2, w);
    if x1 < x2 {
        lemma_fixed_order(x1, x2, w);
    } else {
        lemma_before_concat(sep, r1, sep, r2);
    }
    lemma_before_concat(fixed_digits(x1, w), sep + r1, fixed_digits(x2, w), sep + r2);
}

/// The time of day `secs` split into hours, minutes and seconds.
pub open spec fn time_fields(secs: int) -> (int, int, int) {
    (secs / 3600, (secs % 3600) / 60, secs % 60)
}

proof fn lemma_time_fields(secs: int)
    requires
        0 <= secs < 86400,
    ensures
        0 <= time_fields(secs).0 < 24,
        0 <= time_fields(secs).1 < 60,
        0 <= time_fields(secs).2 < 60,
        time_fields(secs).0 * 3600 + time_fields(secs).1 * 60 + time_fields(secs).2 == secs,
{
    let h = secs / 3600;
    let r = secs % 3600;
    vstd::arithmetic::div_mod::lemma_fundamental_div_mod(secs, 3600);
    vstd::arithmetic::div_mod::lemma_fundamental_div_mod(r, 60);
    assert(0 <= h < 24) by (nonlinear_arith)
        requires
            0 <= secs < 86400,
            h == secs / 3600,
    ;
    assert(secs % 60 == r % 60) by (nonlinear_arith)
        requires
            secs == 3600 * h + r,
            0 <= r < 3600,
            0 <= secs,
    {
        vstd::arithmetic::div_mod::lemma_fundamental_div_mod_converse(secs, 60, 60 * h + r / 60, r % 60);
    }
}

/// In the years 0000 to 9999, the RFC 3339 text of a timestamp is 20
/// characters of the form `YYYY-MM-DDTHH:MM:SSZ`: a real date, whose day
/// number and time of day give the timestamp back, then an hour below 24
/// and a minute and second below 60.
pub proof fn lemma_rfc3339_shape(t: int)
    requires
        -62167219200 <= t <= 253402300799,
    ensures
        rfc3339_in_range(t),
        rfc3339_text(t).len() == 20,
        ({
            let (y, mo, d) = date_of_day(t / 86400);
            let (h, mi, s) = time_fields(t % 86400);
            &&& 0 <= y <= 9999
            &&& is_valid_date(y, mo, d)
            &&& 0 <= h < 24 && 0 <= mi < 60 && 0 <= s < 60
            &&& rfc3339_text(t) == stamp_text(
                y as nat,
                mo as nat,
                d as nat,
                h as nat,
                mi as nat,
                s as nat,
            )
            &&& days_from_civil(y, mo, d) * 86400 + h * 3600 + mi * 60 + s == t
        }),
{
    lemma_rfc3339_wide_range(t);
    let days = t / 86400;
    let secs = t % 86400;
    vstd::arithmetic::div_mod::lemma_fundamental_div_mod(t, 86400);
    assert(-719528 <= days <= 2932896) by (nonlinear_arith)
        requires
            -62167219200 <= t <= 253402300799,
            t == 86400 * days + secs,
            0 <= secs < 86400,
    ;
    lemma_four_digit_year(days);
    lemma_date_of_day(days);
    lemma_time_fields(secs);
    let (y, mo, d) = date_of_day(days);
    let (h, mi, s) = time_fields(secs);
    assert(pow10(2) == 100) by {
        reveal_with_fuel(pow10, 3);
    }
    assert(pow10(4) == 10000) by {
        reveal_with_fuel(pow10, 5);
    }
    lemma_pad_fixed(y as nat, 4);
    lemma_pad_fixed(mo as nat, 2);
    lemma_pad_fixed(d as nat, 2);
    lemma_pad_fixed(h as nat, 2);
    lemma_pad_fixed(mi as nat, 2);
    lemma_pad_fixed(s as nat, 2);
    lemma_fixed_len(y as nat, 4);
    lemma_fixed_len(mo as nat, 2);
    lemma_fixed_len(d as nat, 2);
    lemma_fixed_len(h as nat, 2);
    lemma_fixed_len(mi as nat, 2);
    lemma_fixed_len(s as nat, 2);
    reveal_strlit("-");
    reveal_strlit("T");
    reveal_strlit(":");
    reveal_strlit("Z");
    assert(rfc3339_text(t) =~= stamp_text(
        y as nat,
        mo as nat,
        d as nat,
        h as nat,
        mi as nat,
        s as nat,
    ));
}

/// In the years 0000 to 9999, RFC 3339 text sorts as the timestamps do.
pub proof fn lemma_rfc3339_sorted(t1: int, t2: int)
    requires
        -62167219200 <= t1 < t2 <= 253402300799,
    ensures
        text_before(rfc3339_text(t1), rfc3339_text(t2)),
{
    lemma_rfc3339_shape(t1);
    lemma_rfc3339_shape(t2);
    let days1 = t1 / 86400;
    let days2 = t2 / 86400;
    let secs1 = t1 % 86400;
    let secs2 = t2 % 86400;
    vstd::arithmetic::div_mod::lemma_fundamental_div_mod(t1, 86400);
    vstd::arithmetic::div_mod::lemma_fundamental_div_mod(t2, 86400);
    lemma_time_fields(secs1);
    lemma_time_fields(secs2);
    let (y1, mo1, d1) = date_of_day(days1);
    let (y2, mo2, d2) = date_of_day(days2);
    let (h1, mi1, s1) = time_fields(secs1);
    let (h2, mi2, s2) = time_fields(secs2);
    assert(days1 <= days2) by (nonlinear_arith)
        requires
            t1 < t2,
            t1 == 86400 * days1 + secs1,
            t2 == 86400 * days2 + secs2,
            0 <= secs1 < 86400,
            0 <= secs2 < 86400,
    ;
    let date_earlier = days1 < days2;
    if date_earlier {
        lemma_date_of_day(days1);
        lemma_date_of_day(days2);
        lemma_dates_ordered(y1, mo1, d1, y2, mo2, d2);
    } else {
        assert(secs1 < secs2);
        assert(h1 < h2 || (h1 == h2 && mi1 < mi2) || (h1 == h2 && mi1 == mi2 && s1 < s2))
            by (nonlinear_arith)
            requires
                secs1 < secs2,
                h1 * 3600 + mi1 * 60 + s1 == secs1,
                h2 * 3600 + mi2 * 60 + s2 == secs2,
                0 <= mi1 < 60,
                0 <= s1 < 60,
                0 <= mi2 < 60,
                0 <= s2 < 60,
        ;
    }
    assert(pow10(2) == 100) by {
        reveal_with_fuel(pow10, 3);
    }
    assert(pow10(4) == 10000) by {
        reveal_with_fuel(pow10, 5);
    }
    let ts1 = fixed_digits(s1 as nat, 2) + "Z"@;
    let ts2 = fixed_digits(s2 as nat, 2) + "Z"@;
    let tm1 = fixed_digits(mi1 as nat, 2) + (":"@ + ts1);
    let tm2 = fixed_digits(mi2 as nat, 2) + (":"@ + ts2);
    let th1 = fixed_digits(h1 as nat, 2) + (":"@ + tm1);
    let th2 = fixed_digits(h2 as nat, 2) + (":"@ + tm2);
    let td1 = fixed_digits(d1 as nat, 2) + ("T"@ + th1);
    let td2 = fixed_digits(d2 as nat, 2) + ("T"@ + th2);
    let tmo1 = fixed_digits(mo1 as nat, 2) + ("-"@ + td1);
    let tmo2 = fixed_digits(mo2 as nat, 2) + ("-"@ + td2);
    if !date_earlier && h1 == h2 && mi1 == mi2 {
        lemma_fixed_len(s1 as nat, 2);
        lemma_fixed_order(s1 as nat, s2 as nat, 2);
        lemma_before_concat(fixed_digits(s1 as nat, 2), "Z"@, fixed_digits(s2 as nat, 2), "Z"@);
    }
    if !date_earlier && h1 == h2 {
        lemma_field_order(mi1 as nat, mi2 as nat, 2, ":"@, ts1, ts2);
    }
    if !date_earlier {
        lemma_field_order(h1 as nat, h2 as nat, 2, ":"@, tm1, tm2);
        assert(text_before(th1, th2));
    }
    if date_earlier && y1 == y2 && mo1 == mo2 || !date_earlier {
        lemma_field_order(d1 as nat, d2 as nat, 2, "T"@, th1, th2);
    }
    if date_earlier && y1 == y2 || !date_earlier {
        lemma_field_order(mo1 as nat, mo2 as nat, 2, "-"@, td1, td2);
    }
    lemma_field_order(y1 as nat, y2 as nat, 4, "-"@, tmo1, tmo2);
}

/// The JSON metric of a record names its identity, keeps its timestamp and
/// count, and, in the years 0000 to 9999, writes as RFC 3339 time the UTC
/// date and time of day that give that very timestamp back.
pub proof fn lemma_metric_of_record(identity: Seq<char>, record: CallbackRecord)
    requires
        -62167219200 <= record.last_callback_ts <= 253402300799,
    ensures
        metric_of(identity, record).0 == identity,
        metric_of(identity, record).1 == record.last_callback_ts,
        metric_of(identity, record).3 == record.callback_count,
        ({
            let t = record.last_callback_ts as int;
            let (y, mo, d) = date_of_day(t / 86400);
            let (h, mi, s) = time_fields(t % 86400);
            &&& metric_of(identity, record).2 == stamp_text(
                y as nat,
                mo as nat,
                d as nat,
                h as nat,
                mi as nat,
                s as nat,
            )
            &&& is_valid_date(y, mo, d)
            &&& 0 <= h < 24 && 0 <= mi < 60 && 0 <= s < 60
            &&& days_from_civil(y, mo, d) * 86400 + h * 3600 + mi * 60 + s == t
        }),
{
    lemma_rfc3339_shape(record.last_callback_ts as int);
}

} // verus!
