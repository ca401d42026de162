use jev_sentinel::config::TelegramAlertSettings;
use jev_sentinel::models::TargetStatus;
use jev_sentinel::notifier::{
    extract_retry_after, format_decision_message, AlertEvent, DeliveryStart, SummaryLine, AlertReason, AlertSeverity, AlertSource, Notifier,
};

const STAMP: &str = "2025-01-01T00:00:00+00:00";

fn telegram(min: &str) -> Option<TelegramAlertSettings> {
    Some(TelegramAlertSettings {
        bot_token: "fake-token".to_string(),
        chat_id: "123456".to_string(),
        min_severity: min.to_string(),
        proxy: None,
    })
}

fn review_notifier() -> Notifier {
    Notifier::new(telegram("info"))
}

fn risk(n: &mut Notifier, severity: AlertSeverity, message: &str) -> AlertEvent {
    let title = format!("Risk {severity:?}");
    n.build_alert_event(AlertSource::JevAdvisor, None, severity, AlertReason::RiskElevated, &title, message, STAMP)
}

fn local(n: &mut Notifier, target: &str, severity: AlertSeverity) -> AlertEvent {
    n.build_alert_event(
        AlertSource::LocalRule,
        Some(target.into()),
        severity,
        AlertReason::ServiceCheckFailed,
        "Service check failed",
        "A confirmed service-check error", STAMP,
    )
}

fn local_titled(n: &mut Notifier, severity: AlertSeverity, title: &str, message: &str) -> AlertEvent {
    n.build_alert_event(
        AlertSource::LocalRule,
        Some("node-a".into()),
        severity,
        AlertReason::ServiceCheckFailed,
        title,
        message, STAMP,
    )
}

#[test]
fn test_deduplication_lifecycle_and_advisor_recovery() {
    let mut notifier = Notifier::new(telegram("warning"));
    let event = notifier.build_alert_event(
        AlertSource::LocalRule,
        Some("server-1".to_string()),
        AlertSeverity::Warning,
        AlertReason::ServiceDegraded,
        "Service Degraded",
        "High latency detected", STAMP,
    );
    assert!(notifier.enqueue_alert(event.clone()));
    assert!(notifier.commit_delivery(&event));
    assert!(!notifier.enqueue_alert(event.clone()));
    let crit_event = AlertEvent { severity: AlertSeverity::Critical, ..event.clone() };
    assert!(notifier.enqueue_alert(crit_event));
    notifier.recover_target("server-1");
    let new_event = notifier.build_alert_event(
        AlertSource::LocalRule,
        Some("server-1".to_string()),
        AlertSeverity::Warning,
        AlertReason::ServiceDegraded,
        "Service Degraded",
        "High latency detected", STAMP,
    );
    assert!(notifier.enqueue_alert(new_event));
    let adv_event = notifier.build_alert_event(
        AlertSource::LocalRule,
        None,
        AlertSeverity::Warning,
        AlertReason::AdvisorUnavailable,
        "Advisor Unavailable",
        "Network timeout", STAMP,
    );
    assert!(notifier.enqueue_alert(adv_event.clone()));
    notifier.commit_delivery(&adv_event);
    assert!(!notifier.enqueue_alert(adv_event.clone()));
    notifier.recover_advisor_unavailable();
    let fresh_adv = notifier.build_alert_event(
        AlertSource::LocalRule,
        None,
        AlertSeverity::Warning,
        AlertReason::AdvisorUnavailable,
        "Advisor Unavailable",
        "Network timeout", STAMP,
    );
    assert!(notifier.enqueue_alert(fresh_adv));
}

#[test]
fn test_late_ack_race_does_not_suppress_new_incident() {
    let mut notifier = Notifier::new(telegram("warning"));
    let target_id = "node-A";
    let i1 = notifier.build_alert_event(
        AlertSource::LocalRule,
        Some(target_id.to_string()),
        AlertSeverity::Warning,
        AlertReason::ServiceCheckFailed,
        "Service Check Failed",
        "Error 500", STAMP,
    );
    assert_eq!(i1.generation, 0);
    notifier.recover_target(target_id);
    assert!(!notifier.commit_delivery(&i1));
    let i2 = notifier.build_alert_event(
        AlertSource::LocalRule,
        Some(target_id.to_string()),
        AlertSeverity::Warning,
        AlertReason::ServiceCheckFailed,
        "Service Check Failed",
        "Error 500", STAMP,
    );
    assert_eq!(i2.generation, 1);
    assert!(notifier.enqueue_alert(i2), "Incident 2 must not be suppressed by late ACK of Incident 1");
}

#[test]
fn test_pending_coalescing_and_priority_admission() {
    let mut notifier = Notifier::new(telegram("warning"));
    let warn_event = notifier.build_alert_event(
        AlertSource::LocalRule,
        Some("node-A".to_string()),
        AlertSeverity::Warning,
        AlertReason::ServiceDegraded,
        "Degraded",
        "Load high", STAMP,
    );
    for _ in 0..128 {
        assert!(notifier.enqueue_alert(warn_event.clone()));
    }
    assert_eq!(notifier.delivery_state().pending.len(), 1, "Duplicates must coalesce into 1 pending slot");
    let crit_event = notifier.build_alert_event(
        AlertSource::JevAdvisor,
        None,
        AlertSeverity::Critical,
        AlertReason::RiskElevated,
        "Critical Outage",
        "Urgent action required", STAMP,
    );
    assert!(notifier.enqueue_alert(crit_event));
    let popped = notifier.pop_next_pending().expect("Must have pending event");
    assert_eq!(popped.severity, AlertSeverity::Critical);
}

#[test]
fn test_risk_elevated_recovery_and_repeated_critical() {
    let mut notifier = Notifier::new(telegram("warning"));
    let crit = notifier.build_alert_event(
        AlertSource::JevAdvisor,
        None,
        AlertSeverity::Critical,
        AlertReason::RiskElevated,
        "Critical",
        "OOM imminent", STAMP,
    );
    assert!(notifier.enqueue_alert(crit.clone()));
    assert!(notifier.commit_delivery(&crit));
    assert!(!notifier.enqueue_alert(crit.clone()));
    notifier.recover_risk_elevated();
    let crit_fresh = notifier.build_alert_event(
        AlertSource::JevAdvisor,
        None,
        AlertSeverity::Critical,
        AlertReason::RiskElevated,
        "Critical",
        "OOM imminent", STAMP,
    );
    assert!(notifier.enqueue_alert(crit_fresh));
}

#[test]
fn pass_generation_stamped_before_queue_and_late_ack_rejected() {
    let mut n = review_notifier();
    let old = local(&mut n, "node-a", AlertSeverity::Warning);
    assert!(n.enqueue_alert(old.clone()));
    let in_flight = n.pop_next_pending().expect("old event");
    n.recover_target("node-a");
    let fresh = local(&mut n, "node-a", AlertSeverity::Warning);
    assert_ne!(old.generation, fresh.generation);
    assert!(!n.commit_delivery(&in_flight));
    assert!(n.enqueue_alert(fresh.clone()));
    let next = n.pop_next_pending().expect("new incident");
    assert_eq!(next.generation, fresh.generation);
}

#[test]
fn pass_advisor_unavailable_has_its_own_generation() {
    let mut n = review_notifier();
    let old = n.build_alert_event(
        AlertSource::LocalRule,
        None,
        AlertSeverity::Warning,
        AlertReason::AdvisorUnavailable,
        "Advisor unavailable",
        "timeout", STAMP,
    );
    assert!(n.enqueue_alert(old.clone()));
    let sent = n.pop_next_pending().expect("advisor event");
    n.recover_advisor_unavailable();
    assert!(!n.commit_delivery(&sent));
    let fresh = n.build_alert_event(
        AlertSource::LocalRule,
        None,
        AlertSeverity::Warning,
        AlertReason::AdvisorUnavailable,
        "Advisor unavailable",
        "timeout", STAMP,
    );
    assert_ne!(old.generation, fresh.generation);
    assert!(n.enqueue_alert(fresh));
}

#[test]
fn pass_successful_advisor_call_does_not_reset_risk_cooldown() {
    let mut n = review_notifier();
    let first = risk(&mut n, AlertSeverity::Critical, "risk elevated");
    assert!(n.enqueue_alert(first));
    let sent = n.pop_next_pending().expect("risk event");
    assert!(n.commit_delivery(&sent));
    n.recover_advisor_unavailable();
    let repeat = risk(&mut n, AlertSeverity::Critical, "risk still elevated");
    assert!(!n.enqueue_alert(repeat));
    n.recover_risk_elevated();
    let rebound = risk(&mut n, AlertSeverity::Critical, "new elevated-risk incident");
    assert!(n.enqueue_alert(rebound));
}

#[test]
fn pass_full_64_unique_warnings_admits_critical_first() {
    let mut n = review_notifier();
    for i in 0..64 {
        let event = local(&mut n, &format!("node-{i}"), AlertSeverity::Warning);
        assert!(n.enqueue_alert(event));
    }
    let critical = risk(&mut n, AlertSeverity::Critical, "critical incident");
    assert!(n.enqueue_alert(critical));
    assert_eq!(n.pop_next_pending().expect("critical admitted").severity, AlertSeverity::Critical);
    let mut remaining = 0;
    while n.pop_next_pending().is_some() {
        remaining += 1;
    }
    assert_eq!(remaining, 63);
}

#[test]
fn fail_pending_repeat_must_not_be_selected_after_first_ack() {
    let mut n = review_notifier();
    let first = risk(&mut n, AlertSeverity::Critical, "same problem");
    assert!(n.enqueue_alert(first));
    let in_flight = n.pop_next_pending().expect("start first send");
    let repeat = risk(&mut n, AlertSeverity::Critical, "same problem");
    let _ = n.enqueue_alert(repeat);
    assert!(n.commit_delivery(&in_flight));
    assert!(
        n.pop_next_pending().is_none(),
        "worker must not send a redundant same-generation event after a valid ACK",
    );
}

#[test]
fn pass_escalation_during_warning_send_must_not_be_discarded() {
    let mut n = review_notifier();
    let w = risk(&mut n, AlertSeverity::Warning, "moderate risk");
    assert!(n.enqueue_alert(w));
    let warning_in_flight = n.pop_next_pending().expect("warning send");
    let c = risk(&mut n, AlertSeverity::Critical, "urgent risk");
    assert!(n.enqueue_alert(c));
    assert!(n.commit_delivery(&warning_in_flight));
    let next = n.pop_next_pending().expect("escalation must survive ACK cleanup");
    assert_eq!(next.severity, AlertSeverity::Critical);
    assert_eq!(next.message, "urgent risk");
}

#[test]
fn fail_lower_severity_refresh_must_not_erase_critical_evidence() {
    let mut n = review_notifier();
    let critical = risk(&mut n, AlertSeverity::Critical, "critical evidence: OOM imminent");
    let critical_title = critical.title.clone();
    assert!(n.enqueue_alert(critical));
    let w = risk(&mut n, AlertSeverity::Warning, "current condition improved, but no recovery");
    assert!(n.enqueue_alert(w));
    let selected = n.pop_next_pending().expect("pending critical event");
    assert_eq!(selected.severity, AlertSeverity::Critical);
    assert_eq!(selected.title, critical_title);
    assert_eq!(selected.message, "critical evidence: OOM imminent");
}

#[test]
fn fail_recovery_must_not_silently_erase_an_accepted_undelivered_incident() {
    let mut n = review_notifier();
    let old = local(&mut n, "brief-outage", AlertSeverity::Warning);
    assert!(n.enqueue_alert(old.clone()));
    n.recover_target("brief-outage");
    let historical = n.pop_next_pending().expect("retain accepted historical alert");
    assert_eq!(historical.generation, old.generation);
    assert!(!n.commit_delivery(&historical));
}

fn assert_two_unmodified_generations(n: &mut Notifier, old: &AlertEvent, fresh: &AlertEvent) {
    let mut selected = Vec::new();
    while let Some(e) = n.pop_next_pending() {
        selected.push(e);
        assert!(selected.len() <= 2, "unexpected additional work");
    }
    assert_eq!(selected.len(), 2, "two accepted incidents must not silently coalesce");
    for expected in [old, fresh] {
        let actual = selected
            .iter()
            .find(|e| e.generation == expected.generation)
            .expect("the accepted generation is missing");
        assert_eq!(actual.severity, expected.severity);
        assert_eq!(actual.title, expected.title);
        assert_eq!(actual.message, expected.message);
    }
}

#[test]
fn rebound_equal_severity_preserves_both_accepted_generations() {
    let mut n = review_notifier();
    let old = local_titled(&mut n, AlertSeverity::Warning, "I0 old", "old evidence");
    assert!(n.enqueue_alert(old.clone()));
    n.recover_target("node-a");
    let fresh = local_titled(&mut n, AlertSeverity::Warning, "I1 new", "new evidence");
    assert_ne!(old.generation, fresh.generation);
    assert!(n.enqueue_alert(fresh.clone()));
    assert_two_unmodified_generations(&mut n, &old, &fresh);
}

#[test]
fn rebound_higher_severity_does_not_silently_erase_accepted_history() {
    let mut n = review_notifier();
    let old = local_titled(&mut n, AlertSeverity::Warning, "I0 warning", "old evidence");
    assert!(n.enqueue_alert(old.clone()));
    n.recover_target("node-a");
    let fresh = local_titled(&mut n, AlertSeverity::Critical, "I1 critical", "new urgent evidence");
    assert!(n.enqueue_alert(fresh.clone()));
    assert_two_unmodified_generations(&mut n, &old, &fresh);
}

#[test]
fn rebound_lower_severity_must_not_disappear_behind_historical_peak() {
    let mut n = review_notifier();
    let old = local_titled(&mut n, AlertSeverity::Critical, "I0 critical", "old urgent evidence");
    assert!(n.enqueue_alert(old.clone()));
    n.recover_target("node-a");
    let fresh = local_titled(&mut n, AlertSeverity::Warning, "I1 warning", "new distinct evidence");
    assert!(n.enqueue_alert(fresh.clone()));
    assert_two_unmodified_generations(&mut n, &old, &fresh);
}

#[test]
fn advisor_risk_rebound_preserves_both_pending_incidents() {
    let mut n = review_notifier();
    let old = n.build_alert_event(
        AlertSource::JevAdvisor,
        None,
        AlertSeverity::Critical,
        AlertReason::RiskElevated,
        "I0 risk",
        "old risk evidence", STAMP,
    );
    assert!(n.enqueue_alert(old.clone()));
    n.recover_risk_elevated();
    let fresh = n.build_alert_event(
        AlertSource::JevAdvisor,
        None,
        AlertSeverity::Critical,
        AlertReason::RiskElevated,
        "I1 risk",
        "new risk evidence", STAMP,
    );
    assert!(n.enqueue_alert(fresh.clone()));
    assert_two_unmodified_generations(&mut n, &old, &fresh);
}

#[test]
fn recovery_does_not_resurrect_a_repeat_already_covered_by_ack() {
    let mut n = review_notifier();
    let first = local_titled(&mut n, AlertSeverity::Warning, "I0", "same evidence");
    assert!(n.enqueue_alert(first.clone()));
    let sending = n.pop_next_pending().expect("first attempt reserved by worker");
    let repeat = local_titled(&mut n, AlertSeverity::Warning, "I0", "same evidence");
    assert!(n.enqueue_alert(repeat));
    assert!(n.commit_delivery(&sending));
    n.recover_target("node-a");
    assert!(n.pop_next_pending().is_none());
}

#[test]
fn admission_reports_closed_after_idle_worker_has_terminated() {
    let mut n = review_notifier();
    n.close_admission();
    let event = local_titled(&mut n, AlertSeverity::Warning, "after stop", "no consumer exists");
    assert!(!n.enqueue_alert(event));
}

#[test]
fn unconfigured_notifier_admits_nothing_and_info_threshold_filters() {
    let mut none = Notifier::new(None);
    assert!(!none.is_configured());
    let e = local(&mut none, "x", AlertSeverity::Critical);
    assert!(!none.enqueue_alert(e));
    let mut crit_only = Notifier::new(telegram("CRITICAL"));
    let w = local(&mut crit_only, "x", AlertSeverity::Warning);
    assert!(!crit_only.enqueue_alert(w));
    let c = local(&mut crit_only, "y", AlertSeverity::Critical);
    assert!(crit_only.enqueue_alert(c));
}

#[test]
fn retry_after_is_read_from_telegram_errors() {
    assert_eq!(extract_retry_after(r#"{"ok":false,"parameters":{"retry_after":2}}"#), 2);
    assert_eq!(extract_retry_after("not json"), 5);
}

#[test]
fn changed_message_restarts_delivery_and_repeat_resumes() {
    let mut n = review_notifier();
    let e = local(&mut n, "node-a", AlertSeverity::Critical);
    assert!(n.enqueue_alert(e.clone()));
    let (chunks, start) = n.plan_delivery(&e, "first text");
    assert_eq!(chunks, vec!["first text".to_string()]);
    assert!(matches!(start, DeliveryStart::From(0)));
    n.confirm_chunks(&e, 1);
    let (_, again) = n.plan_delivery(&e, "first text");
    assert!(matches!(again, DeliveryStart::AlreadyDelivered));
    let (_, changed) = n.plan_delivery(&e, "second text");
    assert!(matches!(changed, DeliveryStart::From(0)));
}

fn render_html(text: &str) -> String {
    let mut out = String::new();
    let mut rest = text;
    while let Some(c) = rest.chars().next() {
        if c == '<' {
            let end = rest.find('>').unwrap();
            rest = &rest[end + 1..];
        } else if c == '&' {
            let end = rest.find(';').unwrap();
            out.push(match &rest[1..end] {
                "amp" => '&',
                "lt" => '<',
                "gt" => '>',
                "quot" => '"',
                other => panic!("unexpected entity {other}"),
            });
            rest = &rest[end + 1..];
        } else {
            out.push(c);
            rest = &rest[c.len_utf8()..];
        }
    }
    out
}

fn assert_alert_roundtrip(payload: &str) {
    let mut n = review_notifier();
    let e = n.build_alert_event(
        AlertSource::LocalRule,
        Some("node-a".into()),
        AlertSeverity::Warning,
        AlertReason::ServiceCheckFailed,
        "Review",
        payload,
        STAMP,
    );
    let text = n.format_alert_event(&e);
    let (chunks, _) = n.plan_delivery(&e, &text);
    let mut visible = String::new();
    for c in &chunks {
        assert!(c.chars().count() <= 3900);
        let shown = render_html(c);
        assert!(shown.chars().count() <= 4096);
        visible.push_str(&shown);
    }
    let begin = visible.find("PAYLOAD|").unwrap();
    let end = visible.rfind("|END").unwrap() + "|END".len();
    assert_eq!(&visible[begin..end], payload);
}

#[test]
fn long_plain_alert_keeps_all_text() {
    assert_alert_roundtrip(&format!("PAYLOAD|{}|END", "X".repeat(5000)));
}

#[test]
fn quoted_alert_survives_entity_safe_splits() {
    assert_alert_roundtrip(&format!("PAYLOAD|{}|END", "\"".repeat(1000)));
}

#[test]
fn ampersand_alert_survives_entity_safe_splits() {
    assert_alert_roundtrip(&format!("PAYLOAD|{}|END", "&".repeat(1000)));
}

#[test]
fn alerts_carry_the_given_timestamp() {
    let mut n = review_notifier();
    let e = local(&mut n, "node-a", AlertSeverity::Warning);
    assert_eq!(e.timestamp, STAMP);
    assert!(n.format_alert_event(&e).contains(STAMP));
}

#[test]
fn decision_messages_are_laid_out_and_escaped() {
    let targets = vec![
        SummaryLine {
            status: TargetStatus::Online,
            name: "web<1>".into(),
            target_type: "http_probe".into(),
            latency_ms: "12.5".into(),
            error: None,
        },
        SummaryLine {
            status: TargetStatus::Timeout,
            name: "db".into(),
            target_type: "tcp_ping".into(),
            latency_ms: "5000.0".into(),
            error: Some("timed\nout".into()),
        },
    ];
    let text = format_decision_message("degraded", "DEGRADED", "0.42", "alert_operator", &Some("87".into()), &targets);
    assert_eq!(
        text,
        "<b>⚠️ Jev Sentinel Alert: DEGRADED</b>\n<b>Risk score:</b> 0.42 / 1.00\n<b>Suggested Action:</b> <code>alert_operator</code>\n<b>Confidence:</b> 87%\n\n<b>Target Telemetry Summary:</b>\n• 🟢 <b>web&lt;1&gt;</b> (http_probe): 12.5ms\n• ⏱️ <b>db</b> (tcp_ping): 5000.0ms\n  <i>Error:</i> <code>timed out</code>"
    );
    let calm = format_decision_message("healthy", "HEALTHY", "0.05", "none", &None, &vec![]);
    assert_eq!(
        calm,
        "<b>✅ Jev Sentinel Alert: HEALTHY</b>\n<b>Risk score:</b> 0.05 / 1.00\n<b>Suggested Action:</b> <code>none</code>\n\n<b>Target Telemetry Summary:</b>"
    );
}
