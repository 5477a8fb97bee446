use crate::domain::model::{
    identity_check, identity_error_text, is_valid_identity, CallbackRecord, Identity,
};
use crate::domain::ports::{
    admits, listing_view, lists_records, lookup, records_after_callback, valid_records, CallbackStore,
    StoreError,
};
use crate::domain::tables::lemma_entries_map_value;
use crate::http::errors::ApiError;
use crate::http::metrics_format::{
    all_in_range, format_prometheus, metric_fields, metric_of, prometheus_text, records_view,
    rfc3339_in_range, JsonMetricsResponse,
};
use crate::text::{
    chars_contain, chars_eq_ignore_ascii_case, chars_of, contains_text, eq_ignore_ascii_case,
    occurs_at,
};
use vstd::prelude::*;
use vstd::string::*;

verus! {

/// Status of a successful callback: 204 No Content.
pub const NO_CONTENT: u16 = 204;

/// Query parameters for format selection.
#[derive(Debug)]
pub struct FormatQuery {
    pub format: Option<String>,
}

/// The representations of metrics.
#[derive(Debug, Clone, Copy, PartialEq, Eq, Structural)]
pub enum MetricsFormat {
    Json,
    Prometheus,
}

/// The `format` query parameter as plain characters.
pub open spec fn query_format(q: FormatQuery) -> Option<Seq<char>> {
    match q.format {
        None => None,
        Some(f) => Some(f@),
    }
}

/// An optional string as plain characters.
pub open spec fn opt_text(o: Option<&str>) -> Option<Seq<char>> {
    match o {
        None => None,
        Some(s) => Some(s@),
    }
}

/// The format a request asks for. A `format` query parameter decides
/// alone: JSON when it reads `json` (in any ASCII case), Prometheus text
/// otherwise. Without it, an `Accept` header that mentions
/// `application/json` asks for JSON; Prometheus text is the default.
pub open spec fn format_for(accept: Option<Seq<char>>, format_param: Option<Seq<char>>) -> MetricsFormat {
    match format_param {
        Some(f) => if eq_ignore_ascii_case(f, "json"@) {
            MetricsFormat::Json
        } else {
            MetricsFormat::Prometheus
        },
        None => if accept matches Some(a) && contains_text(a, "application/json"@) {
            MetricsFormat::Json
        } else {
            MetricsFormat::Prometheus
        },
    }
}

/// Determines the metrics format from the `Accept` header and the `format`
/// query parameter. The query parameter takes precedence.
pub fn determine_format(accept: Option<&str>, format_param: Option<&str>) -> (r: MetricsFormat)
    ensures
        r == format_for(opt_text(accept), opt_text(format_param)),
{
    if let Some(format) = format_param {
        let f = chars_of(format);
        let json = chars_of("json");
        if chars_eq_ignore_ascii_case(&f, &json) {
            return MetricsFormat::Json;
        }
        return MetricsFormat::Prometheus;
    }
    if let Some(accept) = accept {
        let a = chars_of(accept);
        let json = chars_of("application/json");
        if chars_contain(&a, &json) {
            return MetricsFormat::Json;
        }
    }
    MetricsFormat::Prometheus
}

/// A rendered metrics body, before it becomes an HTTP response.
#[derive(Debug)]
pub enum MetricsBody {
    Json(JsonMetricsResponse),
    Prometheus(String),
}

/// `body` renders the records `v`, in order, in `format`.
pub open spec fn renders(
    body: MetricsBody,
    v: Seq<(Seq<char>, CallbackRecord)>,
    format: MetricsFormat,
) -> bool {
    match format {
        MetricsFormat::Json => body matches MetricsBody::Json(resp) && resp.metrics@.len() == v.len()
            && forall|i: int|
            0 <= i < v.len() ==> metric_fields(#[trigger] resp.metrics@[i]) == metric_of(
                v[i].0,
                v[i].1,
            ),
        MetricsFormat::Prometheus => body matches MetricsBody::Prometheus(text) && text@
            == prometheus_text(v),
    }
}

/// The timestamp of every record listed (those under a valid identity) can
/// be written as RFC 3339 text.
pub open spec fn timestamps_in_range(records: Map<Seq<char>, CallbackRecord>) -> bool {
    forall|k: Seq<char>|
        records.contains_key(k) && is_valid_identity(k) ==> rfc3339_in_range(
            #[trigger] records[k].last_callback_ts as int,
        )
}

/// Renders records in the chosen format.
pub fn render(records: &Vec<(Identity, CallbackRecord)>, format: MetricsFormat) -> (r: MetricsBody)
    requires
        format == MetricsFormat::Json ==> all_in_range(records@),
    ensures
        renders(r, records_view(records@), format),
{
    match format {
        MetricsFormat::Json => {
            let response = JsonMetricsResponse::from_records(records.as_slice());
            MetricsBody::Json(response)
        },
        MetricsFormat::Prometheus => MetricsBody::Prometheus(format_prometheus(records.as_slice())),
    }
}

/// Callback handler: records a callback for the identity in the path.
pub fn callback<S: CallbackStore>(store: &mut S, identity_str: String) -> (r: Result<u16, ApiError>)
    ensures
        final(store).allow_list() == old(store).allow_list(),
        identity_check(identity_str@) matches Err(e) ==> (r matches Err(ApiError::BadRequest(msg))
            && msg@ == identity_error_text(e)),
        r is Err ==> final(store).records() == old(store).records(),
        r is Ok ==> r == Ok::<u16, ApiError>(NO_CONTENT) && identity_check(identity_str@) is Ok
            && admits(old(store).allow_list(), identity_str@) && exists|timestamp: i64|
            final(store).records() == records_after_callback(
                old(store).records(),
                identity_str@,
                timestamp,
            ),
        old(store).is_infallible() && identity_check(identity_str@) is Ok && admits(
            old(store).allow_list(),
            identity_str@,
        ) ==> r == Ok::<u16, ApiError>(NO_CONTENT),
        identity_check(identity_str@) is Ok && !admits(old(store).allow_list(), identity_str@) ==> (
        r matches Err(ApiError::Forbidden(msg)) && msg@ == "Identity not allowed: "@
            + identity_str@),
{
    let identity = match Identity::new(identity_str) {
        Ok(identity) => identity,
        Err(e) => {
            return Err(ApiError::from_identity_error(e));
        },
    };
    match store.record_callback(&identity) {
        Ok(()) => Ok(NO_CONTENT),
        Err(e) => Err(ApiError::from_store_error(e)),
    }
}

proof fn lemma_listing_in_range(v: Seq<(Identity, CallbackRecord)>, records: Map<Seq<char>, CallbackRecord>)
    requires
        lists_records(listing_view(v), records),
        timestamps_in_range(records),
    ensures
        all_in_range(v),
{
    let lv = listing_view(v);
    assert forall|i: int| 0 <= i < v.len() implies rfc3339_in_range(
        #[trigger] v[i].1.last_callback_ts as int,
    ) by {
        assert(lv[i] == (v[i].0@, v[i].1));
        lemma_entries_map_value(lv, i);
        assert(valid_records(records).contains_key(v[i].0@));
        assert(records.contains_key(v[i].0@));
    }
}

/// What the listing handler answers once the store has given `found`:
/// an internal error when the store failed, otherwise the listing
/// rendered, in its order, in `format`.
pub open spec fn answers_listing(
    r: Result<MetricsBody, ApiError>,
    found: Result<Vec<(Identity, CallbackRecord)>, StoreError>,
    format: MetricsFormat,
) -> bool {
    match found {
        Err(_) => r == Err::<MetricsBody, ApiError>(ApiError::InternalError),
        Ok(v) => r matches Ok(body) && renders(body, records_view(v@), format),
    }
}

/// A result that `get_all_records` may give for a store holding `records`.
pub open spec fn listing_outcome(
    found: Result<Vec<(Identity, CallbackRecord)>, StoreError>,
    records: Map<Seq<char>, CallbackRecord>,
    infallible: bool,
) -> bool {
    &&& infallible ==> found is Ok
    &&& found matches Ok(v) ==> lists_records(listing_view(v@), records)
}

/// The listing handler's answer to what the store gave.
pub fn listing_response(
    found: Result<Vec<(Identity, CallbackRecord)>, StoreError>,
    format: MetricsFormat,
) -> (r: Result<MetricsBody, ApiError>)
    requires
        format == MetricsFormat::Json && found is Ok ==> all_in_range(found->Ok_0@),
    ensures
        answers_listing(r, found, format),
{
    match found {
        Ok(records) => Ok(render(&records, format)),
        Err(_) => Err(ApiError::InternalError),
    }
}

/// Metrics handler: every record, in the format the request asks for.
pub fn metrics<S: CallbackStore>(store: &S, accept: Option<&str>, params: &FormatQuery) -> (r: Result<
    MetricsBody,
    ApiError,
>)
    requires
        format_for(opt_text(accept), query_format(*params)) == MetricsFormat::Json
            ==> timestamps_in_range(store.records()),
    ensures
        exists|found: Result<Vec<(Identity, CallbackRecord)>, StoreError>|
            listing_outcome(found, store.records(), store.is_infallible()) && #[trigger] answers_listing(
                r,
                found,
                format_for(opt_text(accept), query_format(*params)),
            ),
        r matches Ok(body) ==> exists|v: Seq<(Seq<char>, CallbackRecord)>|
            lists_records(v, store.records()) && renders(
                body,
                v,
                format_for(opt_text(accept), query_format(*params)),
            ),
        r is Err ==> r == Err::<MetricsBody, ApiError>(ApiError::InternalError),
        store.is_infallible() ==> r is Ok,
{
    let found = store.get_all_records();
    let ghost g = found;
    let format = match &params.format {
        Some(f) => determine_format(accept, Some(f.as_str())),
        None => determine_format(accept, None),
    };
    proof {
        if format == MetricsFormat::Json && found is Ok {
            lemma_listing_in_range(found->Ok_0@, store.records());
        }
        if found is Ok {
            assert(records_view(found->Ok_0@) == listing_view(found->Ok_0@));
        }
    }
    let r = listing_response(found, format);
    proof {
        assert(listing_outcome(g, store.records(), store.is_infallible()));
        assert(answers_listing(r, g, format));
    }
    r
}

/// What the handler for one identity answers once the store has given
/// `found` for `identity`: an internal error when the store failed, not
/// found when it holds no record, otherwise the record rendered in `format`.
pub open spec fn answers_single(
    r: Result<MetricsBody, ApiError>,
    identity: Seq<char>,
    found: Result<Option<CallbackRecord>, StoreError>,
    format: MetricsFormat,
) -> bool {
    match found {
        Err(_) => r == Err::<MetricsBody, ApiError>(ApiError::InternalError),
        Ok(None) => r == Err::<MetricsBody, ApiError>(ApiError::NotFound),
        Ok(Some(record)) => r matches Ok(body) && renders(body, seq![(identity, record)], format),
    }
}

/// A result that `get_record` may give for `identity` in a store holding
/// `records`.
pub open spec fn record_outcome(
    found: Result<Option<CallbackRecord>, StoreError>,
    records: Map<Seq<char>, CallbackRecord>,
    identity: Seq<char>,
    infallible: bool,
) -> bool {
    &&& infallible ==> found is Ok
    &&& found matches Ok(o) ==> o == lookup(records, identity)
}

/// The answer of the handler for one identity to what the store gave.
pub fn single_response(
    identity: Identity,
    found: Result<Option<CallbackRecord>, StoreError>,
    format: MetricsFormat,
) -> (r: Result<MetricsBody, ApiError>)
    requires
        format == MetricsFormat::Json ==> (found matches Ok(Some(record)) ==> rfc3339_in_range(
            record.last_callback_ts as int,
        )),
    ensures
        answers_single(r, identity@, found, format),
{
    match found {
        Ok(Some(record)) => {
            let ghost id = identity@;
            let mut metrics: Vec<(Identity, CallbackRecord)> = Vec::new();
            metrics.push((identity, record));
            proof {
                assert(records_view(metrics@) =~= seq![(id, record)]);
            }
            Ok(render(&metrics, format))
        },
        Ok(None) => Err(ApiError::NotFound),
        Err(_) => Err(ApiError::InternalError),
    }
}

/// Metrics handler for one identity.
pub fn metrics_single<S: CallbackStore>(
    store: &S,
    identity_str: String,
    accept: Option<&str>,
    params: &FormatQuery,
) -> (r: Result<MetricsBody, ApiError>)
    requires
        format_for(opt_text(accept), query_format(*params)) == MetricsFormat::Json
            && identity_check(identity_str@) is Ok && store.records().contains_key(identity_str@)
            ==> rfc3339_in_range(
            store.records()[identity_str@].last_callback_ts as int,
        ),
    ensures
        identity_check(identity_str@) matches Err(e) ==> (r matches Err(ApiError::BadRequest(msg))
            && msg@ == identity_error_text(e)),
        identity_check(identity_str@) is Ok ==> exists|found: Result<Option<CallbackRecord>, StoreError>|
            record_outcome(found, store.records(), identity_str@, store.is_infallible())
                && #[trigger] answers_single(
                r,
                identity_str@,
                found,
                format_for(opt_text(accept), query_format(*params)),
            ),
        r matches Ok(body) ==> {
            &&& identity_check(identity_str@) is Ok
            &&& store.records().contains_key(identity_str@)
            &&& renders(
                body,
                seq![(identity_str@, store.records()[identity_str@])],
                format_for(opt_text(accept), query_format(*params)),
            )
        },
        identity_check(identity_str@) is Ok ==> (r matches Err(e) ==> (e == ApiError::NotFound
            && !store.records().contains_key(identity_str@)) || e == ApiError::InternalError),
        store.is_infallible() && identity_check(identity_str@) is Ok ==> if store.records().contains_key(
            identity_str@,
        ) {
            r is Ok
        } else {
            r == Err::<MetricsBody, ApiError>(ApiError::NotFound)
        },
{
    let ghost name = identity_str@;
    let identity = match Identity::new(identity_str) {
        Ok(identity) => identity,
        Err(e) => {
            return Err(ApiError::from_identity_error(e));
        },
    };
    let found = store.get_record(&identity);
    let ghost g = found;
    let format = match &params.format {
        Some(f) => determine_format(accept, Some(f.as_str())),
        None => determine_format(accept, None),
    };
    let r = single_response(identity, found, format);
    proof {
        assert(record_outcome(g, store.records(), name, store.is_infallible()));
        assert(answers_single(r, name, g, format));
    }
    r
}

/// How the format is chosen: a `format` parameter decides alone, JSON
/// exactly when it reads `json` in any ASCII case; without one, JSON
/// exactly when the `Accept` header holds `application/json` anywhere in
/// it; Prometheus text when neither asks for JSON.
pub proof fn lemma_format_choice(
    accept: Option<Seq<char>>,
    param: Seq<char>,
    before: Seq<char>,
    after: Seq<char>,
)
    ensures
        (format_for(accept, Some(param)) == MetricsFormat::Json) == eq_ignore_ascii_case(
            param,
            "json"@,
        ),
        format_for(Some(before + "application/json"@ + after), None) == MetricsFormat::Json,
        format_for(None, None) == MetricsFormat::Prometheus,
        accept matches Some(a) ==> ((format_for(accept, None) == MetricsFormat::Json) == (exists|
            i: int,
        |
            0 <= i && i + "application/json"@.len() <= a.len() && #[trigger] a.subrange(
                i,
                i + "application/json"@.len(),
            ) == "application/json"@)),
{
    let a = before + "application/json"@ + after;
    let n = "application/json"@.len();
    assert(a.subrange(before.len() as int, before.len() + n as int) =~= "application/json"@);
    assert(occurs_at(a, "application/json"@, before.len() as int));
    if accept is Some {
        let x = accept->Some_0;
        if exists|i: int|
            0 <= i && i + n <= x.len() && #[trigger] x.subrange(i, i + n) == "application/json"@ {
            let i = choose|i: int|
                0 <= i && i + n <= x.len() && #[trigger] x.subrange(i, i + n) == "application/json"@;
            assert(occurs_at(x, "application/json"@, i));
        }
    }
}

} // verus!
