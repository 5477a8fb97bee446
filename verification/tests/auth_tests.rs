use cronbird::http::router::{security_headers, MAX_BODY_BYTES};
use cronbird::http::auth::{secure_compare, AuthMiddleware};
use cronbird::http::router::{requires_token, RouteGroup};

#[test]
fn test_secure_compare() {
    assert!(secure_compare("secret", "secret"));
    assert!(!secure_compare("secret", "public"));
    assert!(!secure_compare("secret", "Secret"));
    assert!(!secure_compare("short", "longer"));
}

#[test]
fn test_auth_middleware_disabled() {
    let middleware = AuthMiddleware::new(None);
    assert!(!middleware.is_enabled());
}

#[test]
fn test_auth_middleware_enabled() {
    let middleware = AuthMiddleware::new(Some("secret-token".to_string()));
    assert!(middleware.is_enabled());
}

#[test]
fn open_middleware_lets_everything_through() {
    let middleware = AuthMiddleware::new(None);
    assert!(middleware.authorizes(None));
    assert!(middleware.authorizes(Some("Basic abc")));
}

#[test]
fn bearer_token_is_checked() {
    let middleware = AuthMiddleware::new(Some("secret".to_string()));
    assert!(middleware.authorizes(Some("Bearer secret")));
    assert!(!middleware.authorizes(None));
    assert!(!middleware.authorizes(Some("Bearer wrong")));
    assert!(!middleware.authorizes(Some("bearer secret")));
    assert!(!middleware.authorizes(Some("secret")));
    assert!(!middleware.authorizes(Some("Bearer  secret")));
    assert!(!middleware.authorizes(Some("Bearer")));
}

#[test]
fn route_guards() {
    use_route_guards();
}

fn use_route_guards() {
    use_guard_cases(&AuthMiddleware::new(None), false, false, false);
    use_guard_cases(&AuthMiddleware::new(None), true, false, false);
    use_guard_cases(&AuthMiddleware::new(Some("t".to_string())), false, true, false);
    use_guard_cases(&AuthMiddleware::new(Some("t".to_string())), true, true, true);
}

fn use_guard_cases(auth: &AuthMiddleware, protect: bool, callback: bool, metrics: bool) {
    assert_eq!(requires_token(RouteGroup::Callback, auth, protect), callback);
    assert_eq!(requires_token(RouteGroup::Metrics, auth, protect), metrics);
    assert!(!requires_token(RouteGroup::Health, auth, protect));
}

#[test]
fn secure_compare_is_string_equality() {
    assert!(secure_compare("", ""));
    assert!(!secure_compare("", "a"));
    assert!(!secure_compare("abc", "ab"));
    assert!(!secure_compare("abc", "abd"));
    assert!(secure_compare("tökén", "tökén"));
    assert!(!secure_compare("tökén", "token"));
}

#[test]
fn another_token_is_refused() {
    let auth = AuthMiddleware::new(Some("s3cret".to_string()));
    assert!(auth.authorizes(Some("Bearer s3cret")));
    assert!(!auth.authorizes(Some("Bearer s3cres")));
    assert!(!auth.authorizes(Some("Bearer s3cret ")));
    assert!(!auth.authorizes(Some("Bearer ")));
}

#[test]
fn response_hardening_values() {
    assert_eq!(MAX_BODY_BYTES, 1024);
    assert_eq!(
        security_headers(),
        vec![
            ("x-content-type-options", "nosniff"),
            ("x-frame-options", "DENY"),
            ("cache-control", "no-store"),
        ]
    );
}
