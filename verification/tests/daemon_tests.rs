use jev_sentinel::config::TelegramAlertSettings;
use jev_sentinel::daemon::{
    advisor_unavailable_message, decision_severity, evaluation_kind, local_alert, queue_decision, risk_cleared, send_decision, Cadence, Evaluation,
    CadenceSettings, ProbeOutcome,
};
use jev_sentinel::models::TargetStatus;
use jev_sentinel::notifier::{AlertReason, AlertSeverity};
use jev_sentinel::self_healing::{HealAction, SelfHealingManager};
use jev_sentinel::config::SelfHealingSettings;

fn outcome(status: TargetStatus, kind: &str, code: Option<u64>, err: Option<&str>) -> ProbeOutcome {
    ProbeOutcome {
        name: "web".into(),
        target_type: kind.into(),
        status,
        status_code: code,
        error_message: err.map(|s| s.to_string()),
    }
}

#[test]
fn local_alerts_follow_the_probe_status() {
    assert!(local_alert(&outcome(TargetStatus::Online, "tcp_ping", None, None)).is_none());
    let a = local_alert(&outcome(TargetStatus::Timeout, "tcp_ping", None, None)).unwrap();
    assert_eq!(a.severity, AlertSeverity::Warning);
    assert_eq!(a.reason, AlertReason::ObservationUnavailable);
    assert_eq!(a.message, "Не удалось проверить цель 'web' (tcp_ping): таймаут");
    let a = local_alert(&outcome(TargetStatus::Unreachable, "http_probe", Some(503), Some("Unexpected HTTP status 503"))).unwrap();
    assert_eq!(a.reason, AlertReason::ServiceCheckFailed);
    assert_eq!(a.title, "Service Check Failed");
    assert_eq!(a.message, "Проверка HTTP-сервиса 'web' вернула статус 503: Unexpected HTTP status 503");
    let a = local_alert(&outcome(TargetStatus::Unreachable, "http_probe", None, None)).unwrap();
    assert_eq!(a.message, "Не удалось проверить цель 'web' (http_probe): недоступен");
    let a = local_alert(&outcome(TargetStatus::Degraded, "exec_probe", None, None)).unwrap();
    assert_eq!(a.message, "Проверка сервиса 'web' зафиксировала деградацию: ошибка проверки");
    let a = local_alert(&outcome(TargetStatus::Unknown, "exec_probe", None, None)).unwrap();
    assert_eq!(a.title, "Observation Inconclusive");
    assert_eq!(a.message, "Не удалось получить валидные данные от цели 'web': некорректный формат ответа");
}

#[test]
fn cadence_preempts_on_mode_changes_and_waits_otherwise() {
    let s = CadenceSettings { adaptive: true, normal_seconds: 120, alert_seconds: 30 };
    let sec: u64 = 1_000_000_000;
    let mut c = Cadence::new();
    assert!(c.step(s, false, 0));
    assert!(!c.step(s, false, 60 * sec));
    assert!(c.step(s, true, 61 * sec));
    assert!(c.alert_mode);
    assert!(!c.step(s, true, 70 * sec));
    assert!(c.step(s, true, 91 * sec));
    assert!(c.step(s, false, 92 * sec));
    assert!(!c.alert_mode);
    let fixed = CadenceSettings { adaptive: false, normal_seconds: 120, alert_seconds: 30 };
    assert!(c.step(fixed, false, 93 * sec));
    assert!(c.step(fixed, false, 93 * sec));
}

fn tg(min: &str) -> Option<TelegramAlertSettings> {
    Some(TelegramAlertSettings { bot_token: "t".into(), chat_id: "1".into(), min_severity: min.into(), proxy: None })
}

#[test]
fn test_decision_severity_flags() {
    assert_eq!(decision_severity(false, false), AlertSeverity::Info);
    assert_eq!(decision_severity(true, false), AlertSeverity::Warning);
    assert_eq!(decision_severity(true, true), AlertSeverity::Critical);
    assert!(queue_decision(&tg("INFO"), false, false));
    assert!(!queue_decision(&tg("warning"), false, false));
    assert!(queue_decision(&None, true, false));
    assert!(send_decision(&tg("info"), false, false));
    assert!(!send_decision(&tg("critical"), true, false));
    assert!(send_decision(&tg("critical"), true, true));
    assert!(send_decision(&tg("bogus"), true, false));
    assert!(!send_decision(&None, true, true));
    assert_eq!(
        advisor_unavailable_message("HTTP 500"),
        "AI-рекомендации временно недоступны: HTTP 500. Локальный мониторинг активен."
    );
}

#[test]
fn self_healing_acts_only_when_enabled_and_required() {
    let off = SelfHealingManager::new(SelfHealingSettings { enabled: false, allowed_services: vec![], require_confirmation: true });
    assert_eq!(off.plan(true, "purge_cache"), HealAction::Skip);
    let on = SelfHealingManager::new(SelfHealingSettings { enabled: true, allowed_services: vec![], require_confirmation: true });
    assert_eq!(on.plan(false, "purge_cache"), HealAction::Skip);
    assert_eq!(on.plan(true, "purge_cache"), HealAction::PurgeCache);
    assert_eq!(on.plan(true, "restart_unhealthy_service"), HealAction::RestartService);
    assert_eq!(on.plan(true, "alert_operator"), HealAction::Unhandled);
}

#[test]
fn quiet_fleets_are_digested_and_calm_decisions_clear_risk() {
    assert_eq!(evaluation_kind(true, false), Evaluation::Digest);
    assert_eq!(evaluation_kind(true, true), Evaluation::Snapshot);
    assert_eq!(evaluation_kind(false, false), Evaluation::Snapshot);
    assert!(risk_cleared(false, false));
    assert!(!risk_cleared(true, false));
    assert!(!risk_cleared(false, true));
}
