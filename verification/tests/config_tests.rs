use cronbird::config::{Config, ConfigError, ConfigVars};

#[test]
fn test_allowed_identities_dynamic_mode() {
    let config = Config {
        listen_addr: "0.0.0.0:8080".parse().unwrap(),
        identities: vec!["job1".to_string(), "job2".to_string()],
        allow_dynamic: true,
        auth_token: None,
        protect_metrics: false,
        persist_path: String::from("./state.json"),
        persist_interval: 60,
        log_level: "info".to_string(),
    };

    assert!(config.allowed_identities().is_none());
}

#[test]
fn test_allowed_identities_static_mode() {
    let config = Config {
        listen_addr: "0.0.0.0:8080".parse().unwrap(),
        identities: vec!["job1".to_string(), "job2".to_string()],
        allow_dynamic: false,
        auth_token: None,
        protect_metrics: false,
        persist_path: String::from("./state.json"),
        persist_interval: 60,
        log_level: "info".to_string(),
    };

    let allowed = config.allowed_identities().unwrap();
    assert_eq!(allowed.len(), 2);
    assert!(allowed.contains("job1"));
    assert!(allowed.contains("job2"));
}

#[test]
fn test_validate_no_identities_no_dynamic() {
    let config = Config {
        listen_addr: "0.0.0.0:8080".parse().unwrap(),
        identities: vec![],
        allow_dynamic: false,
        auth_token: None,
        protect_metrics: false,
        persist_path: String::from("./state.json"),
        persist_interval: 60,
        log_level: "info".to_string(),
    };

    assert!(matches!(
        config.validate(),
        Err(ConfigError::NoIdentitiesConfigured)
    ));
}

#[test]
fn test_validate_zero_persist_interval() {
    let config = Config {
        listen_addr: "0.0.0.0:8080".parse().unwrap(),
        identities: vec!["job1".to_string()],
        allow_dynamic: false,
        auth_token: None,
        protect_metrics: false,
        persist_path: String::from("./state.json"),
        persist_interval: 0,
        log_level: "info".to_string(),
    };

    assert!(matches!(
        config.validate(),
        Err(ConfigError::InvalidPersistInterval)
    ));
}

#[test]
fn test_validate_empty_identities_with_dynamic_allowed() {
    let config = Config {
        listen_addr: "0.0.0.0:8080".parse().unwrap(),
        identities: vec![],
        allow_dynamic: true,
        auth_token: None,
        protect_metrics: false,
        persist_path: String::from("./state.json"),
        persist_interval: 60,
        log_level: "info".to_string(),
    };

    assert!(config.validate().is_ok());
}

#[test]
fn test_protect_metrics_default_false() {
    let config = Config {
        listen_addr: "0.0.0.0:8080".parse().unwrap(),
        identities: vec!["job1".to_string()],
        allow_dynamic: false,
        auth_token: None,
        protect_metrics: false,
        persist_path: String::from("./state.json"),
        persist_interval: 60,
        log_level: "info".to_string(),
    };

    assert!(!config.protect_metrics);
}

#[test]
fn test_protect_metrics_enabled() {
    let config = Config {
        listen_addr: "0.0.0.0:8080".parse().unwrap(),
        identities: vec!["job1".to_string()],
        allow_dynamic: false,
        auth_token: Some("secret".to_string()),
        protect_metrics: true,
        persist_path: String::from("./state.json"),
        persist_interval: 60,
        log_level: "info".to_string(),
    };

    assert!(config.protect_metrics);
    assert!(config.auth_token.is_some());
}

fn no_vars() -> ConfigVars {
    ConfigVars {
        listen: None,
        identities: None,
        allow_dynamic: None,
        auth_token: None,
        protect_metrics: None,
        persist_path: None,
        persist_interval: None,
        log_level: None,
    }
}

#[test]
fn config_defaults() {
    let config = Config::from_vars(&no_vars(), Ok(())).unwrap();
    assert_eq!(config.listen_addr, "0.0.0.0:8080");
    assert!(config.identities.is_empty());
    assert!(!config.allow_dynamic);
    assert!(config.auth_token.is_none());
    assert!(!config.protect_metrics);
    assert_eq!(config.persist_path, "./cronbird-state.json");
    assert_eq!(config.persist_interval, 60);
    assert_eq!(config.log_level, "info");
    assert!(matches!(config.validate(), Err(ConfigError::NoIdentitiesConfigured)));
}

#[test]
fn config_from_values() {
    let vars = ConfigVars {
        listen: Some("127.0.0.1:9000".to_string()),
        identities: Some(" job1 ,,job2,\tjob3 , ".to_string()),
        allow_dynamic: Some("true".to_string()),
        auth_token: Some("".to_string()),
        protect_metrics: Some("TRUE".to_string()),
        persist_path: Some("/var/lib/state.json".to_string()),
        persist_interval: Some("+15".to_string()),
        log_level: Some("debug".to_string()),
    };
    let config = Config::from_vars(&vars, Ok(())).unwrap();
    assert_eq!(config.listen_addr, "127.0.0.1:9000");
    assert_eq!(config.identities, vec!["job1", "job2", "job3"]);
    assert!(config.allow_dynamic);
    assert!(config.auth_token.is_none());
    assert!(!config.protect_metrics);
    assert_eq!(config.persist_path, "/var/lib/state.json");
    assert_eq!(config.persist_interval, 15);
    assert_eq!(config.log_level, "debug");
    assert!(config.validate().is_ok());
}

#[test]
fn config_bad_interval_falls_back() {
    let mut vars = no_vars();
    vars.persist_interval = Some("ten".to_string());
    assert_eq!(Config::from_vars(&vars, Ok(())).unwrap().persist_interval, 60);
    vars.persist_interval = Some("18446744073709551616".to_string());
    assert_eq!(Config::from_vars(&vars, Ok(())).unwrap().persist_interval, 60);
    vars.persist_interval = Some("0".to_string());
    let config = Config::from_vars(&vars, Ok(())).unwrap();
    assert_eq!(config.persist_interval, 0);
    vars.auth_token = Some("tok".to_string());
    assert_eq!(Config::from_vars(&vars, Ok(())).unwrap().auth_token, Some("tok".to_string()));
}

#[test]
fn allowed_identities_collapse_duplicates() {
    let mut vars = no_vars();
    vars.identities = Some("a,b,a".to_string());
    let config = Config::from_vars(&vars, Ok(())).unwrap();
    let allowed = config.allowed_identities().unwrap();
    assert_eq!(allowed.len(), 2);
    assert!(allowed.contains("a"));
    assert!(!allowed.contains("c"));
}

#[test]
fn config_error_messages() {
    assert_eq!(
        ConfigError::InvalidListenAddr("bad".to_string()).to_string(),
        "Invalid listen address: bad"
    );
    assert_eq!(
        ConfigError::NoIdentitiesConfigured.to_string(),
        "No identities configured and ALLOW_DYNAMIC is false"
    );
    assert_eq!(
        ConfigError::InvalidPersistInterval.to_string(),
        "Persist interval must be greater than 0"
    );
}

#[test]
fn listen_address_refused_by_parser() {
    let mut vars = no_vars();
    assert_eq!(Config::listen_text(&vars), "0.0.0.0:8080");
    vars.listen = Some("not-an-address".to_string());
    assert_eq!(Config::listen_text(&vars), "not-an-address");
    let r = Config::from_vars(&vars, Err("invalid socket address syntax".to_string()));
    match r {
        Err(ConfigError::InvalidListenAddr(msg)) => {
            assert_eq!(msg, "invalid socket address syntax")
        }
        _ => panic!("expected InvalidListenAddr"),
    }
}
