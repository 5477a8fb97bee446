use cronbird::adapters::InMemoryStore;
use cronbird::domain::{CallbackStore, Identity, IdentitySet};
use cronbird::http::errors::ApiError;
use cronbird::domain::{CallbackRecord, StoreError};
use cronbird::http::handlers::{
    callback, determine_format, listing_response, metrics, metrics_single, single_response,
    FormatQuery, MetricsBody, MetricsFormat, NO_CONTENT,
};

#[test]
fn test_callback() {
    let mut store = InMemoryStore::new(None);
    let identity = "test-job".to_string();

    let result = callback(&mut store, identity.clone());
    assert!(result.is_ok());
    assert_eq!(result.unwrap(), NO_CONTENT);

    // Verify record was created
    let identity_obj = Identity::new(identity).unwrap();
    let record = store.get_record(&identity_obj).unwrap();
    assert!(record.is_some());
}

#[test]
fn test_callback_invalid_identity() {
    let mut store = InMemoryStore::new(None);
    let identity = "invalid/identity".to_string();

    let result = callback(&mut store, identity);
    assert!(result.is_err());
}

#[test]
fn test_determine_format_json_query() {
    let format = determine_format(None, Some("json"));
    assert!(matches!(format, MetricsFormat::Json));
}

#[test]
fn test_determine_format_json_header() {
    let format = determine_format(Some("application/json"), None);
    assert!(matches!(format, MetricsFormat::Json));
}

#[test]
fn test_determine_format_default() {
    let format = determine_format(None, None);
    assert!(matches!(format, MetricsFormat::Prometheus));
}

#[test]
fn test_metrics_empty_store() {
    let store = InMemoryStore::new(None);
    let result = metrics(&store, None, &FormatQuery { format: None });
    assert!(result.is_ok());
}

#[test]
fn test_metrics_json_format() {
    let mut store = InMemoryStore::new(None);
    let id = Identity::new("job1").unwrap();
    store.record_callback(&id).unwrap();

    let result = metrics(
        &store,
        None,
        &FormatQuery {
            format: Some("json".to_string()),
        },
    );
    assert!(matches!(result, Ok(MetricsBody::Json(_))));
}

#[test]
fn test_metrics_single_returns_record() {
    let mut store = InMemoryStore::new(None);
    let id = Identity::new("job1").unwrap();
    store.record_callback(&id).unwrap();

    let result = metrics_single(&store, "job1".to_string(), None, &FormatQuery { format: None });
    assert!(result.is_ok());
}

#[test]
fn test_metrics_single_not_found() {
    let store = InMemoryStore::new(None);

    let result = metrics_single(
        &store,
        "nonexistent".to_string(),
        None,
        &FormatQuery { format: None },
    );
    assert!(matches!(result, Err(ApiError::NotFound)));
}

#[test]
fn format_selection_details() {
    assert_eq!(determine_format(None, Some("JSON")), MetricsFormat::Json);
    assert_eq!(determine_format(None, Some("jsonx")), MetricsFormat::Prometheus);
    assert_eq!(
        determine_format(Some("text/html, application/json;q=0.9"), None),
        MetricsFormat::Json
    );
    assert_eq!(
        determine_format(Some("application/json"), Some("prometheus")),
        MetricsFormat::Prometheus
    );
    assert_eq!(determine_format(Some("text/plain"), None), MetricsFormat::Prometheus);
    assert_eq!(determine_format(Some("application/JSON"), None), MetricsFormat::Prometheus);
}

#[test]
fn callback_statuses() {
    let mut allowed = IdentitySet::new();
    allowed.insert("ok".to_string());
    let mut store = InMemoryStore::new(Some(allowed));
    assert_eq!(callback(&mut store, "ok".to_string()).unwrap(), 204);
    match callback(&mut store, "nope".to_string()) {
        Err(e) => {
            assert_eq!(e.status(), 403);
            assert_eq!(e.message(), "Identity not allowed: nope");
        }
        Ok(_) => panic!("refused identity accepted"),
    }
    match callback(&mut store, "".to_string()) {
        Err(e) => {
            assert_eq!(e.status(), 400);
            assert_eq!(e.message(), "Identity cannot be empty");
        }
        Ok(_) => panic!("empty identity accepted"),
    }
}

#[test]
fn metrics_bodies() {
    let mut store = InMemoryStore::new(None);
    store.record_callback_at(&Identity::new("job1").unwrap(), 0).unwrap();
    match metrics(&store, None, &FormatQuery { format: None }) {
        Ok(MetricsBody::Prometheus(text)) => {
            assert!(text.contains("cronbird_last_callback_timestamp_seconds{identity=\"job1\"} 0\n"));
            assert!(text.contains("cronbird_callback_total{identity=\"job1\"} 1\n"));
        }
        _ => panic!("expected Prometheus text"),
    }
    match metrics_single(&store, "job1".to_string(), Some("application/json"), &FormatQuery { format: None }) {
        Ok(MetricsBody::Json(resp)) => {
            assert_eq!(resp.metrics.len(), 1);
            assert_eq!(resp.metrics[0].last_callback_rfc3339, "1970-01-01T00:00:00Z");
        }
        _ => panic!("expected JSON"),
    }
    match metrics_single(&store, "bad/id".to_string(), None, &FormatQuery { format: None }) {
        Err(ApiError::BadRequest(msg)) => assert_eq!(
            msg,
            "Identity contains invalid characters (only a-zA-Z0-9_- allowed)"
        ),
        _ => panic!("expected bad request"),
    }
}

#[test]
fn api_error_responses() {
    assert_eq!(ApiError::Unauthorized.status(), 401);
    assert_eq!(ApiError::Unauthorized.message(), "Unauthorized");
    assert_eq!(ApiError::NotFound.status(), 404);
    assert_eq!(ApiError::InternalError.status(), 500);
    assert_eq!(ApiError::Forbidden("f".to_string()).message(), "f");
}

#[test]
fn store_failures_become_internal_errors() {
    let id = Identity::new("job1").unwrap();
    let failed = single_response(
        id.clone(),
        Err(StoreError::Internal("disk".to_string())),
        MetricsFormat::Prometheus,
    );
    assert!(matches!(failed, Err(ApiError::InternalError)));
    let absent = single_response(id.clone(), Ok(None), MetricsFormat::Json);
    assert!(matches!(absent, Err(ApiError::NotFound)));
    let record = CallbackRecord { last_callback_ts: 0, callback_count: 2 };
    match single_response(id.clone(), Ok(Some(record)), MetricsFormat::Json) {
        Ok(MetricsBody::Json(resp)) => {
            assert_eq!(resp.metrics.len(), 1);
            assert_eq!(resp.metrics[0].identity, "job1");
            assert_eq!(resp.metrics[0].callback_count, 2);
        }
        _ => panic!("expected a JSON body"),
    }
    let listing = listing_response(Err(StoreError::StoreFull), MetricsFormat::Json);
    assert!(matches!(listing, Err(ApiError::InternalError)));
    match listing_response(Ok(Vec::new()), MetricsFormat::Json) {
        Ok(MetricsBody::Json(resp)) => assert!(resp.metrics.is_empty()),
        _ => panic!("expected an empty JSON body"),
    }
}
