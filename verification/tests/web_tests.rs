use jev_sentinel::models::TargetStatus;
use jev_sentinel::web::{
    age_ms, category_edit, clear_category, default_categories, delete_request_from_query, key_status,
    is_public_metric, key_update, lex_less, mask_key, metric_text, MAX_METRIC_ROWS, MAX_SERVICES, observation, order_by_id, probe_id, refresh, remove_category,
    stale_after_ms, target_error, trim, upsert_category, AdvisorState, AdvisorStatus, CategoryDefinition,
    CategoryEdit, CategoryRefusal, CategoryRequest, Freshness, KeyUpdate, ObservationState, ProbeSignals,
};

#[test]
fn test_mask_key_logic() {
    assert_eq!(mask_key("apikey_2238ba52dd6634bf465d"), "apikey_2...465d");
    assert_eq!(mask_key("short"), "***");
    assert_eq!(mask_key(""), "none");
    assert_eq!(mask_key("🔒секретный-токен"), "***");
}

#[test]
fn mask_key_needs_more_than_fourteen_characters() {
    assert_eq!(mask_key("abcdefghijklmn"), "***");
    assert_eq!(mask_key("abcdefghijklmno"), "abcdefgh...lmno");
}

#[test]
fn key_status_prefers_the_custom_key() {
    let s = key_status(&None, "apikey_2238ba52dd6634bf465d");
    assert!(!s.has_custom_key);
    assert_eq!(s.active_key_masked, "apikey_2...465d");
    let s = key_status(&Some("short".into()), "apikey_2238ba52dd6634bf465d");
    assert!(s.has_custom_key);
    assert_eq!(s.active_key_masked, "***");
    assert_eq!(s.default_key_masked, "apikey_2...465d");
}

#[test]
fn key_updates_trim_and_reset() {
    assert_eq!(key_update(&None), KeyUpdate::Reset);
    assert_eq!(key_update(&Some("   ".into())), KeyUpdate::Reset);
    assert_eq!(key_update(&Some(" k1 ".into())), KeyUpdate::Verify("k1".into()));
}

#[test]
fn test_category_localization_and_serialization() {
    let cats = default_categories();
    assert_eq!(cats.len(), 5);
    for c in &cats {
        assert!(c.label_key.is_some());
        assert_eq!(c.label_key, Some(format!("category.{}", c.id)));
    }
    assert_eq!(cats[0].id, "ai_compute");
    assert_eq!(cats[4].label, "Workstations & Desktops");
}

fn req(id: &str, delete: bool, label: Option<&str>, description: Option<&str>) -> CategoryRequest {
    CategoryRequest {
        id: id.into(),
        delete,
        label: label.map(|s| s.to_string()),
        description: description.map(|s| s.to_string()),
    }
}

#[test]
fn category_requests_are_checked_and_trimmed() {
    match category_edit(&req(" databases ", false, Some(" Database Clusters "), Some(" Postgres "))) {
        Ok(CategoryEdit::Upsert(c)) => {
            assert_eq!(c.id, "databases");
            assert_eq!(c.label, "Database Clusters");
            assert_eq!(c.description, "Postgres");
            assert_eq!(c.label_key, None);
        },
        _ => panic!("expected an upsert"),
    }
    match category_edit(&req("databases", true, None, None)) {
        Ok(CategoryEdit::Delete(id)) => assert_eq!(id, "databases"),
        _ => panic!("expected a deletion"),
    }
    assert_eq!(category_edit(&req("  ", false, Some("x"), None)).err(), Some(CategoryRefusal::InvalidId));
    assert_eq!(category_edit(&req("a", false, Some(" "), None)).err(), Some(CategoryRefusal::MissingLabel));
    assert_eq!(category_edit(&req("a", false, None, None)).err(), Some(CategoryRefusal::MissingLabel));
    assert_eq!(CategoryRefusal::MissingLabel.code(), "missing_label");
    assert_eq!(CategoryRefusal::InvalidId.message(), "Category ID cannot be empty");
    match delete_request_from_query("/api/categories?id=databases") {
        Ok(r) => {
            assert_eq!(r.id, "databases");
            assert!(r.delete);
        },
        Err(_) => panic!("expected a request"),
    }
    assert_eq!(delete_request_from_query("/api/categories").err(), Some(CategoryRefusal::MissingId));
}

#[test]
fn categories_are_replaced_by_id_and_removed() {
    let mut cats = default_categories();
    let new_cat = CategoryDefinition {
        id: "databases".into(),
        label: "Database Clusters".into(),
        description: "Postgres and Redis".into(),
        label_key: None,
    };
    upsert_category(&mut cats, new_cat);
    assert_eq!(cats.len(), 6);
    assert_eq!(cats[5].id, "databases");
    let replaced = CategoryDefinition { id: "ai_compute".into(), label: "AI".into(), description: String::new(), label_key: None };
    upsert_category(&mut cats, replaced);
    assert_eq!(cats.len(), 6);
    assert_eq!(cats[0].label, "AI");
    remove_category(&mut cats, &"databases".to_string());
    assert_eq!(cats.len(), 5);
    assert!(cats.iter().all(|c| c.id != "databases"));
    let mut filed = vec![Some("databases".to_string()), None, Some("ai_compute".to_string())];
    clear_category(&mut filed, &"databases".to_string());
    assert_eq!(filed, vec![None, None, Some("ai_compute".to_string())]);
}

fn sig(internal: bool, parse: bool, code: bool) -> ProbeSignals {
    ProbeSignals { internal_error: internal, parse_error: parse, has_status_code: code }
}

#[test]
fn observations_are_classified() {
    assert_eq!(observation(TargetStatus::Online, sig(false, false, false)), ObservationState::Healthy);
    assert_eq!(observation(TargetStatus::Degraded, sig(false, false, false)), ObservationState::Degraded);
    assert_eq!(observation(TargetStatus::Unreachable, sig(false, false, true)), ObservationState::Failed);
    assert_eq!(observation(TargetStatus::Unreachable, sig(false, false, false)), ObservationState::Unknown);
    assert_eq!(observation(TargetStatus::Timeout, sig(false, false, false)), ObservationState::Unknown);
    assert_eq!(observation(TargetStatus::Online, sig(false, true, false)), ObservationState::Unknown);
    assert_eq!(observation(TargetStatus::Online, sig(true, false, false)), ObservationState::Unknown);
}

#[test]
fn test_localization_metadata_status_and_target_error_codes() {
    let mut status = AdvisorStatus::starting();
    assert_eq!(status.error_message, None);
    assert_eq!(status.phase, "starting");
    status.set_error(true);
    assert_eq!(status.error_code, Some("invalid_decision".into()));
    assert_eq!(status.error_message, Some("Jev returned an invalid decision; no advice is available.".into()));
    assert_eq!(status.advisor_state, AdvisorState::InvalidResponse);
    status.set_decision("healthy".into(), false, "none".into());
    assert_eq!(status.error_code, None);
    assert_eq!(status.error_message, None);
    status.set_error(false);
    assert_eq!(status.error_code, Some("jev_unavailable".into()));
    assert_eq!(status.error_message, Some("Jev is unavailable; probe observations remain independent.".into()));
    assert_eq!(target_error(ObservationState::Degraded).1, "probe_degraded");
    assert_eq!(target_error(ObservationState::Failed), ("Probe received an unexpected HTTP status.", "unexpected_http_status"));
    assert_eq!(target_error(ObservationState::Unknown).1, "observation_unavailable");
}

#[test]
fn wall_clock_jump_does_not_change_monotonic_age() {
    let second: u64 = 1_000_000_000;
    let probes = vec![Freshness { observed_ns: Some(7 * second), observed_state: ObservationState::Healthy }];
    let (shown, online) = refresh(&probes, 12 * second, stale_after_ms(10));
    assert_eq!(shown[0].age_ms, Some(5000));
    assert_eq!(shown[0].state, ObservationState::Healthy);
    assert_eq!(online, 1);
    let (stale, online) = refresh(&probes, 38 * second, stale_after_ms(10));
    assert_eq!(stale[0].state, ObservationState::Stale);
    assert_eq!(online, 0);
    let unknown = vec![Freshness { observed_ns: None, observed_state: ObservationState::Healthy }];
    assert_eq!(refresh(&unknown, 5, 30_000).0[0].state, ObservationState::Unknown);
    assert_eq!(age_ms(5, Some(10)), None);
}

#[test]
fn stale_limit_is_two_intervals_and_at_least_thirty_seconds() {
    assert_eq!(stale_after_ms(10), 30_000);
    assert_eq!(stale_after_ms(60), 120_000);
    assert_eq!(stale_after_ms(u64::MAX), u64::MAX);
}

#[test]
fn probes_are_ordered_by_id_stably() {
    let ids = vec!["tcp_ping:b".to_string(), "exec_probe:z".to_string(), "tcp_ping:a".to_string(), "exec_probe:z".to_string()];
    assert_eq!(order_by_id(&ids), vec![1, 3, 2, 0]);
    assert!(lex_less("a", "b"));
    assert!(lex_less("a", "ab"));
    assert!(!lex_less("b", "ab"));
    assert_eq!(probe_id("tcp_ping", "one"), "tcp_ping:one");
    assert_eq!(trim("  x y \n"), "x y");
}

#[test]
fn listing_order_ignores_configured_order() {
    let first = vec!["tcp_ping:b".to_string(), "exec_probe:z".to_string(), "tcp_ping:a".to_string()];
    let second = vec!["tcp_ping:a".to_string(), "tcp_ping:b".to_string(), "exec_probe:z".to_string()];
    let listed = |ids: &Vec<String>| -> Vec<String> { order_by_id(ids).into_iter().map(|k| ids[k].clone()).collect() };
    assert_eq!(listed(&first), listed(&second));
    assert_eq!(listed(&first), vec!["exec_probe:z".to_string(), "tcp_ping:a".to_string(), "tcp_ping:b".to_string()]);
}

#[test]
fn added_categories_are_found_and_deleting_undoes_adding() {
    let ids = |cats: &Vec<CategoryDefinition>| -> Vec<String> { cats.iter().map(|c| c.id.clone()).collect() };
    let mut cats = default_categories();
    let before = ids(&cats);
    let cat = CategoryDefinition { id: "queues".into(), label: "Queues".into(), description: "MQ".into(), label_key: None };
    upsert_category(&mut cats, cat);
    let found = cats.iter().find(|c| c.id == "queues").unwrap();
    assert_eq!(found.label, "Queues");
    remove_category(&mut cats, &"queues".to_string());
    assert_eq!(ids(&cats), before);
    assert!(cats.iter().all(|c| c.id != "queues"));
    let renamed = CategoryDefinition { id: "ai_compute".into(), label: "AI".into(), description: String::new(), label_key: None };
    upsert_category(&mut cats, renamed);
    assert_eq!(cats.iter().find(|c| c.id == "ai_compute").unwrap().label, "AI");
    remove_category(&mut cats, &"ai_compute".to_string());
    let expected: Vec<String> = before.iter().filter(|id| id.as_str() != "ai_compute").cloned().collect();
    assert_eq!(ids(&cats), expected);
}

#[test]
fn only_allowlisted_metrics_are_published() {
    for key in ["cpu", "status_code", "exit_code", "free_ram_mb", "parse_error", "vmid"] {
        assert!(is_public_metric(key));
    }
    for key in ["raw_output", "url", "stderr", "error_body", "CPU", "services"] {
        assert!(!is_public_metric(key));
    }
    assert_eq!(metric_text("short"), "short");
    let long = "й".repeat(200);
    assert_eq!(metric_text(&long).chars().count(), 128);
    assert_eq!(MAX_METRIC_ROWS, 128);
    assert_eq!(MAX_SERVICES, 64);
}
