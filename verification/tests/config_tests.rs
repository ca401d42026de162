use jev_sentinel::config::{
    interpolate_env_vars_with, AlertingSettings, DaemonSettings, JevSettings, SelfHealingSettings,
    SentinelConfig, TargetConfig, WebSettings,
};
use jev_sentinel::error::SentinelError;

fn base() -> SentinelConfig {
    SentinelConfig {
        version: "1".into(),
        jev: JevSettings {
            api_key: "test".into(),
            model: "jev-latest".into(),
            base_url: "https://api.typesafe.ai".into(),
            egress_proxy: None,
            timeout_seconds: 15,
            eval_cadence_normal_seconds: 120,
            eval_cadence_alert_seconds: 30,
            adaptive_digest_enabled: true,
        },
        daemon: DaemonSettings::default(),
        targets: vec![],
        alerting: AlertingSettings::default(),
        self_healing: SelfHealingSettings::default(),
        web: WebSettings::default(),
    }
}

fn probe(name: &str) -> TargetConfig {
    TargetConfig::TcpPing { name: name.into(), host: "localhost".into(), port: 80, timeout_seconds: 5 }
}

#[test]
fn rejects_ambiguous_probe_identity_and_invalid_schedule() {
    let mut c = base();
    c.daemon.interval_seconds = 0;
    assert!(c.validate().is_err());
    let mut c = base();
    c.daemon.concurrency = 0;
    assert!(c.validate().is_err());
    let mut c = base();
    c.targets = vec![probe("same"), probe("same")];
    assert!(c.validate().is_err());
    let mut c = base();
    c.targets = vec![probe("same")];
    assert!(c.validate().is_ok());
    let mut c = base();
    c.targets = vec![probe("")];
    assert!(c.validate().is_err());
}

#[test]
fn validation_errors_name_their_rule() {
    let mut c = base();
    c.daemon.interval_seconds = 0;
    match c.validate() {
        Err(SentinelError::Config(m)) => assert_eq!(m, "interval_seconds and concurrency must be positive"),
        _ => panic!("expected a configuration error"),
    }
    let mut c = base();
    c.targets = (0..1025).map(|i| probe(&format!("p{i}"))).collect();
    match c.validate() {
        Err(SentinelError::Config(m)) => assert_eq!(m, "at most 1024 probes are supported"),
        _ => panic!("expected a configuration error"),
    }
    let mut c = base();
    c.targets = vec![probe(&"n".repeat(129))];
    match c.validate() {
        Err(SentinelError::Config(m)) => assert_eq!(m, "probe names must be unique, nonempty and at most 128 bytes"),
        _ => panic!("expected a configuration error"),
    }
    let mut c = base();
    c.targets = vec![probe("   ")];
    assert!(c.validate().is_err());
}

#[test]
fn test_interpolate_env_vars_with_default() {
    let input = "proxy: \"${NON_EXISTENT_VAR:-http://10.0.0.2:8080}\"";
    let out = interpolate_env_vars_with(input, &vec![]);
    assert_eq!(out, "proxy: \"http://10.0.0.2:8080\"");
}

#[test]
fn test_interpolate_env_vars_with_actual_env() {
    let env = vec![("JEV_TEST_SENTINEL_KEY".to_string(), "secret-test-key-12345".to_string())];
    let input = "api_key: \"${JEV_TEST_SENTINEL_KEY}\"";
    let out = interpolate_env_vars_with(input, &env);
    assert_eq!(out, "api_key: \"secret-test-key-12345\"");
}

#[test]
fn interpolation_edge_cases() {
    let env = vec![("A".to_string(), "x".to_string())];
    assert_eq!(interpolate_env_vars_with("${A:-d}", &env), "x");
    assert_eq!(interpolate_env_vars_with("${MISSING}", &env), "");
    assert_eq!(interpolate_env_vars_with("$A and ${A", &env), "$A and x");
    assert_eq!(interpolate_env_vars_with("cost: $5", &env), "cost: $5");
}

#[test]
fn probe_names_and_types() {
    let p = probe("db");
    assert_eq!(p.name(), "db");
    assert_eq!(p.probe_type(), "tcp_ping");
}

#[test]
fn test_parse_config_with_telegram_proxy() {
    let yaml = r#"
jev:
  api_key: "test-key"
alerting:
  telegram:
    bot_token: "test-token"
    chat_id: "123456"
    min_severity: "warning"
    proxy: "http://10.0.0.2:8080"
"#;
    // The document holds no `${..}`, so interpolation leaves it as it is; the YAML mapping onto
    // the settings is the program's serde step, written out here.
    assert_eq!(interpolate_env_vars_with(yaml, &vec![]), yaml);
    let mut config = base();
    config.jev.api_key = "test-key".into();
    config.alerting.telegram = Some(jev_sentinel::config::TelegramAlertSettings {
        bot_token: "test-token".into(),
        chat_id: "123456".into(),
        min_severity: "warning".into(),
        proxy: Some("http://10.0.0.2:8080".into()),
    });
    assert!(config.validate().is_ok());
    assert_eq!(config.jev.api_key, "test-key");
    let tg = config.alerting.telegram.expect("Telegram config missing");
    assert_eq!(tg.bot_token, "test-token");
    assert_eq!(tg.chat_id, "123456");
    assert_eq!(tg.min_severity, "warning");
    assert_eq!(tg.proxy.as_deref(), Some("http://10.0.0.2:8080"));
}
