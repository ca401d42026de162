//! The daemon's decisions in each collection cycle: which local alerts the observations raise,
//! when the advisor is asked, and which of its decisions are forwarded.
use vstd::prelude::*;
use crate::models::TargetStatus;
use crate::notifier::{AlertReason, AlertSeverity, threshold_rank, spells_exec, spells};
use crate::config::TelegramAlertSettings;
use crate::http::{decimal, decimal_string};
use crate::text::owned;

verus! {

/// An alert raised by the daemon's own rules.
#[derive(Clone, Debug)]
pub struct LocalAlert {
    pub severity: AlertSeverity,
    pub reason: AlertReason,
    pub title: String,
    pub message: String,
}

/// What the daemon knows of one probe run when it decides on a local alert.
#[derive(Clone, Debug)]
pub struct ProbeOutcome {
    pub name: String,
    pub target_type: String,
    pub status: TargetStatus,
    /// The HTTP status code the probe's metrics report, if any.
    pub status_code: Option<u64>,
    pub error_message: Option<String>,
}

pub open spec fn or_text(o: Option<String>, fallback: Seq<char>) -> Seq<char> {
    match o {
        Some(s) => s@,
        None => fallback,
    }
}

/// The local alert for a probe run, or none for a run that came back online (which instead
/// clears the probe's incidents). Every local alert is a warning.
pub open spec fn local_alert_spec(p: ProbeOutcome) -> Option<(AlertReason, Seq<char>, Seq<char>)> {
    match p.status {
        TargetStatus::Online => None,
        TargetStatus::Timeout => Some((
            AlertReason::ObservationUnavailable,
            "Observation Unavailable"@,
            "Не удалось проверить цель '"@ + p.name@ + "' ("@ + p.target_type@ + "): таймаут"@,
        )),
        TargetStatus::Unreachable => {
            if p.target_type@ == "http_probe"@ && p.status_code is Some && p.status_code->0 >= 400 {
                Some((
                    AlertReason::ServiceCheckFailed,
                    "Service Check Failed"@,
                    "Проверка HTTP-сервиса '"@ + p.name@ + "' вернула статус "@ + decimal(p.status_code->0 as nat)
                        + ": "@ + or_text(p.error_message, "ошибка статуса"@),
                ))
            } else {
                Some((
                    AlertReason::ObservationUnavailable,
                    "Observation Unavailable"@,
                    "Не удалось проверить цель '"@ + p.name@ + "' ("@ + p.target_type@ + "): "@
                        + or_text(p.error_message, "недоступен"@),
                ))
            }
        },
        TargetStatus::Degraded => Some((
            AlertReason::ServiceDegraded,
            "Service Degraded"@,
            "Проверка сервиса '"@ + p.name@ + "' зафиксировала деградацию: "@
                + or_text(p.error_message, "ошибка проверки"@),
        )),
        TargetStatus::Unknown => Some((
            AlertReason::ObservationUnavailable,
            "Observation Inconclusive"@,
            "Не удалось получить валидные данные от цели '"@ + p.name@ + "': "@
                + or_text(p.error_message, "некорректный формат ответа"@),
        )),
    }
}

fn text_or(o: &Option<String>, fallback: &str) -> (r: String)
    ensures
        r@ == or_text(*o, fallback@),
{
    match o {
        Some(s) => s.clone(),
        None => owned(fallback),
    }
}

/// Decides the local alert for one probe run (see `local_alert_spec`).
pub fn local_alert(p: &ProbeOutcome) -> (r: Option<LocalAlert>)
    ensures
        match r {
            Some(a) => local_alert_spec(*p) is Some && a.severity == AlertSeverity::Warning
                && (a.reason, a.title@, a.message@) == local_alert_spec(*p)->0,
            None => local_alert_spec(*p) is None,
        },
{
    match p.status {
        TargetStatus::Online => None,
        TargetStatus::Timeout => {
            let mut m = owned("Не удалось проверить цель '");
            m.append(p.name.as_str());
            m.append("' (");
            m.append(p.target_type.as_str());
            m.append("): таймаут");
            Some(LocalAlert {
                severity: AlertSeverity::Warning,
                reason: AlertReason::ObservationUnavailable,
                title: owned("Observation Unavailable"),
                message: m,
            })
        },
        TargetStatus::Unreachable => {
            let http_failure = match p.status_code {
                Some(c) => c >= 400 && crate::config::str_eq(p.target_type.as_str(), "http_probe"),
                None => false,
            };
            if http_failure {
                let code = match p.status_code {
                    Some(c) => c,
                    None => 0,
                };
                let mut m = owned("Проверка HTTP-сервиса '");
                m.append(p.name.as_str());
                m.append("' вернула статус ");
                let digits = decimal_string(code);
                m.append(digits.as_str());
                m.append(": ");
                let detail = text_or(&p.error_message, "ошибка статуса");
                m.append(detail.as_str());
                Some(LocalAlert {
                    severity: AlertSeverity::Warning,
                    reason: AlertReason::ServiceCheckFailed,
                    title: owned("Service Check Failed"),
                    message: m,
                })
            } else {
                let mut m = owned("Не удалось проверить цель '");
                m.append(p.name.as_str());
                m.append("' (");
                m.append(p.target_type.as_str());
                m.append("): ");
                let detail = text_or(&p.error_message, "недоступен");
                m.append(detail.as_str());
                Some(LocalAlert {
                    severity: AlertSeverity::Warning,
                    reason: AlertReason::ObservationUnavailable,
                    title: owned("Observation Unavailable"),
                    message: m,
                })
            }
        },
        TargetStatus::Degraded => {
            let mut m = owned("Проверка сервиса '");
            m.append(p.name.as_str());
            m.append("' зафиксировала деградацию: ");
            let detail = text_or(&p.error_message, "ошибка проверки");
            m.append(detail.as_str());
            Some(LocalAlert {
                severity: AlertSeverity::Warning,
                reason: AlertReason::ServiceDegraded,
                title: owned("Service Degraded"),
                message: m,
            })
        },
        TargetStatus::Unknown => {
            let mut m = owned("Не удалось получить валидные данные от цели '");
            m.append(p.name.as_str());
            m.append("': ");
            let detail = text_or(&p.error_message, "некорректный формат ответа");
            m.append(detail.as_str());
            Some(LocalAlert {
                severity: AlertSeverity::Warning,
                reason: AlertReason::ObservationUnavailable,
                title: owned("Observation Inconclusive"),
                message: m,
            })
        },
    }
}

/// How probe runs are filed: only a run that came back online raises nothing; a degraded run
/// is filed as a degraded service, titled "Service Degraded"; a failed service check is an
/// HTTP probe that got an error status (400 and up) and is titled "Service Check Failed"; every
/// other run is an unavailable observation. Every local alert is a warning.
pub proof fn probe_runs_are_filed_by_what_failed(p: ProbeOutcome)
    ensures
        local_alert_spec(p) is None <==> p.status == TargetStatus::Online,
        local_alert_spec(p) matches Some(a) ==> {
            &&& (a.0 == AlertReason::ServiceDegraded <==> p.status == TargetStatus::Degraded)
            &&& (a.0 == AlertReason::ServiceDegraded ==> a.1 == "Service Degraded"@)
            &&& (a.0 == AlertReason::ServiceCheckFailed <==> (p.status == TargetStatus::Unreachable
                && p.target_type@ == "http_probe"@ && p.status_code is Some && p.status_code->0 >= 400))
            &&& (a.0 == AlertReason::ServiceCheckFailed ==> a.1 == "Service Check Failed"@)
            &&& (p.status == TargetStatus::Unknown ==> a.0 == AlertReason::ObservationUnavailable && a.1 == "Observation Inconclusive"@)
            &&& (p.status == TargetStatus::Timeout ==> a.0 == AlertReason::ObservationUnavailable && a.1 == "Observation Unavailable"@)
            &&& (a.0 == AlertReason::ServiceDegraded || a.0 == AlertReason::ServiceCheckFailed
                || a.0 == AlertReason::ObservationUnavailable)
        },
{
}

// ---------------------------------------------------------------------------------------------
// Evaluation cadence
// ---------------------------------------------------------------------------------------------

/// When the advisor was last asked, and whether the fleet is in alert mode.
#[derive(PartialEq, Eq, Structural, Clone, Copy, Debug)]
pub struct Cadence {
    pub alert_mode: bool,
    /// Monotonic nanoseconds of the last evaluation.
    pub last_eval_ns: Option<u64>,
}

/// How the advisor is consulted: with adaptive digests on, at the normal cadence while the
/// fleet is healthy and at the alert cadence while it shows anomalies.
#[derive(PartialEq, Eq, Structural, Clone, Copy, Debug)]
pub struct CadenceSettings {
    pub adaptive: bool,
    pub normal_seconds: u64,
    pub alert_seconds: u64,
}

pub open spec fn secs_ns(s: u64) -> nat {
    (s * 1_000_000_000) as nat
}

/// At least `secs` have passed since `last` (or nothing was evaluated yet).
pub open spec fn due(last: Option<u64>, now_ns: u64, secs: u64) -> bool {
    match last {
        Some(t) => now_ns >= t && now_ns - t >= secs_ns(secs),
        None => true,
    }
}

/// Whether this cycle asks the advisor, and the cadence state after the cycle: entering or
/// leaving alert mode asks at once; otherwise the cadence of the current mode decides. Without
/// adaptive digests every cycle asks.
pub open spec fn cadence_step(c: Cadence, s: CadenceSettings, anomalies: bool, now_ns: u64) -> (bool, Cadence) {
    let (ask, mode) = if !s.adaptive {
        (true, c.alert_mode)
    } else if anomalies {
        if !c.alert_mode { (true, true) } else { (due(c.last_eval_ns, now_ns, s.alert_seconds), true) }
    } else if c.alert_mode {
        (true, false)
    } else {
        (due(c.last_eval_ns, now_ns, s.normal_seconds), false)
    };
    (ask, Cadence { alert_mode: mode, last_eval_ns: if ask { Some(now_ns) } else { c.last_eval_ns } })
}

fn due_exec(last: Option<u64>, now_ns: u64, secs: u64) -> (r: bool)
    ensures
        r == due(last, now_ns, secs),
{
    match last {
        Some(t) => {
            if now_ns < t {
                false
            } else if secs > u64::MAX / 1_000_000_000 {
                false
            } else {
                now_ns - t >= secs * 1_000_000_000
            }
        },
        None => true,
    }
}

impl Cadence {
    pub fn new() -> (r: Cadence)
        ensures
            !r.alert_mode,
            r.last_eval_ns is None,
    {
        Cadence { alert_mode: false, last_eval_ns: None }
    }

    /// Decides whether this cycle asks the advisor (see `cadence_step`).
    pub fn step(&mut self, s: CadenceSettings, anomalies: bool, now_ns: u64) -> (r: bool)
        ensures
            (r, *final(self)) == cadence_step(*old(self), s, anomalies, now_ns),
    {
        let ask;
        if !s.adaptive {
            ask = true;
        } else if anomalies {
            if !self.alert_mode {
                self.alert_mode = true;
                ask = true;
            } else {
                ask = due_exec(self.last_eval_ns, now_ns, s.alert_seconds);
            }
        } else if self.alert_mode {
            self.alert_mode = false;
            ask = true;
        } else {
            ask = due_exec(self.last_eval_ns, now_ns, s.normal_seconds);
        }
        if ask {
            self.last_eval_ns = Some(now_ns);
        }
        ask
    }
}

/// Entering alert mode, and leaving it, each ask the advisor at once, whatever the timer says.
pub proof fn mode_changes_preempt_the_timer(c: Cadence, s: CadenceSettings, anomalies: bool, now_ns: u64)
    requires
        s.adaptive,
        c.alert_mode != anomalies,
    ensures
        cadence_step(c, s, anomalies, now_ns).0,
        cadence_step(c, s, anomalies, now_ns).1.alert_mode == anomalies,
{
}

/// Within one mode, the advisor is not asked again before the mode's cadence has passed.
pub proof fn cadence_spaces_evaluations(c: Cadence, s: CadenceSettings, anomalies: bool, t1: u64, t2: u64)
    requires
        s.adaptive,
        c.alert_mode == anomalies,
        cadence_step(c, s, anomalies, t1).0,
        t1 <= t2,
        t2 - t1 < secs_ns(if anomalies { s.alert_seconds } else { s.normal_seconds }),
    ensures
        !cadence_step(cadence_step(c, s, anomalies, t1).1, s, anomalies, t2).0,
{
}

/// The cadence is live: a step asks the advisor whenever its mode's cadence has passed since
/// the last evaluation (or there was none), whether or not the mode changes, and always when
/// adaptive digests are off; the evaluation it asks for is then the last one.
pub proof fn cadence_asks_once_due(c: Cadence, s: CadenceSettings, anomalies: bool, now_ns: u64)
    requires
        !s.adaptive || c.alert_mode != anomalies || match c.last_eval_ns {
            Some(t) => t <= now_ns && now_ns - t >= (if anomalies { s.alert_seconds } else { s.normal_seconds }) * 1_000_000_000,
            None => true,
        },
    ensures
        cadence_step(c, s, anomalies, now_ns).0,
        cadence_step(c, s, anomalies, now_ns).1.last_eval_ns == Some(now_ns),
{
}

/// The mode follows the fleet: with adaptive digests on, a step leaves the cadence in alert
/// mode exactly when the fleet shows anomalies; without them the mode never changes. A step
/// that does not ask keeps the time of the last evaluation.
pub proof fn cadence_mode_follows_the_fleet(c: Cadence, s: CadenceSettings, anomalies: bool, now_ns: u64)
    ensures
        s.adaptive ==> cadence_step(c, s, anomalies, now_ns).1.alert_mode == anomalies,
        !s.adaptive ==> cadence_step(c, s, anomalies, now_ns).1.alert_mode == c.alert_mode,
        !cadence_step(c, s, anomalies, now_ns).0 ==> cadence_step(c, s, anomalies, now_ns).1.last_eval_ns == c.last_eval_ns,
        cadence_step(c, s, anomalies, now_ns).0 ==> cadence_step(c, s, anomalies, now_ns).1.last_eval_ns == Some(now_ns),
{
}

// ---------------------------------------------------------------------------------------------
// Advisor decisions
// ---------------------------------------------------------------------------------------------

/// The severity of a decision: critical, warning, or otherwise informational.
pub open spec fn decision_severity_spec(is_warning: bool, is_critical: bool) -> AlertSeverity {
    if is_critical {
        AlertSeverity::Critical
    } else if is_warning {
        AlertSeverity::Warning
    } else {
        AlertSeverity::Info
    }
}

pub fn decision_severity(is_warning: bool, is_critical: bool) -> (r: AlertSeverity)
    ensures
        r == decision_severity_spec(is_warning, is_critical),
{
    if is_critical {
        AlertSeverity::Critical
    } else if is_warning {
        AlertSeverity::Warning
    } else {
        AlertSeverity::Info
    }
}

/// The daemon queues an advisor decision when it is a warning or critical, or when Telegram is
/// set to forward everything (`info`, in any case).
pub open spec fn queue_decision_spec(telegram: Option<TelegramAlertSettings>, is_warning: bool, is_critical: bool) -> bool {
    let info = match telegram {
        Some(tg) => spells(tg.min_severity@, "info"@),
        None => false,
    };
    info || is_warning || is_critical
}

pub fn queue_decision(telegram: &Option<TelegramAlertSettings>, is_warning: bool, is_critical: bool) -> (r: bool)
    ensures
        r == queue_decision_spec(*telegram, is_warning, is_critical),
{
    let info = match telegram {
        Some(tg) => spells_exec(tg.min_severity.as_str(), "info"),
        None => false,
    };
    info || is_warning || is_critical
}

/// A decision is as severe as its worst flag: critical when it is critical, otherwise a
/// warning when it is one, otherwise informational. The daemon forwards every warning and
/// critical decision, and every decision when Telegram is set to `info` (in any case); without
/// Telegram, `check --alert` sends nothing, `info` sends everything, `critical` only critical
/// decisions, and any other setting warnings and above.
pub proof fn decisions_are_forwarded_by_severity(tg: Option<TelegramAlertSettings>, is_warning: bool, is_critical: bool)
    ensures
        is_critical ==> decision_severity_spec(is_warning, is_critical) == AlertSeverity::Critical,
        !is_critical && is_warning ==> decision_severity_spec(is_warning, is_critical) == AlertSeverity::Warning,
        !is_critical && !is_warning ==> decision_severity_spec(is_warning, is_critical) == AlertSeverity::Info,
        is_warning || is_critical ==> queue_decision_spec(tg, is_warning, is_critical),
        tg is None ==> (queue_decision_spec(tg, is_warning, is_critical) == (is_warning || is_critical))
            && !send_decision_spec(tg, is_warning, is_critical),
        tg matches Some(t) && spells(t.min_severity@, "info"@) ==> queue_decision_spec(tg, is_warning, is_critical)
            && send_decision_spec(tg, is_warning, is_critical),
        tg matches Some(t) && spells(t.min_severity@, "critical"@) ==> send_decision_spec(tg, is_warning, is_critical) == is_critical,
        tg matches Some(t) && !spells(t.min_severity@, "info"@) && !spells(t.min_severity@, "critical"@)
            ==> send_decision_spec(tg, is_warning, is_critical) == (is_warning || is_critical),
{
    reveal_strlit("info");
    reveal_strlit("critical");
    assert("info"@ =~= seq!['i', 'n', 'f', 'o']);
    assert("critical"@ =~= seq!['c', 'r', 'i', 't', 'i', 'c', 'a', 'l']);
}

/// What the advisor is shown when an evaluation is due.
#[derive(PartialEq, Eq, Structural, Clone, Copy, Debug)]
pub enum Evaluation {
    /// The compact digest of the fleet's load.
    Digest,
    /// The whole snapshot of every probe.
    Snapshot,
}

/// A quiet fleet is shown as a digest when adaptive digests are on; a fleet with anomalies,
/// or any fleet when they are off, is shown in full.
pub fn evaluation_kind(adaptive_digest: bool, has_anomalies: bool) -> (r: Evaluation)
    ensures
        r == (if adaptive_digest && !has_anomalies { Evaluation::Digest } else { Evaluation::Snapshot }),
{
    if adaptive_digest && !has_anomalies { Evaluation::Digest } else { Evaluation::Snapshot }
}

/// A decision that is neither a warning nor critical ends the elevated-risk incident, so that
/// a later rise in risk is alerted afresh.
pub fn risk_cleared(is_warning: bool, is_critical: bool) -> (r: bool)
    ensures
        r == (!is_warning && !is_critical),
{
    !is_warning && !is_critical
}

/// Whether a decision is sent when the operator asked for alerts (`check --alert`): the
/// configured minimum severity decides (`info` sends all, `critical` only critical decisions,
/// anything else warnings and above); without Telegram nothing is sent.
pub open spec fn send_decision_spec(telegram: Option<TelegramAlertSettings>, is_warning: bool, is_critical: bool) -> bool {
    match telegram {
        Some(tg) => decision_severity_spec(is_warning, is_critical).rank_spec() >= threshold_rank(tg.min_severity@),
        None => false,
    }
}

pub fn send_decision(telegram: &Option<TelegramAlertSettings>, is_warning: bool, is_critical: bool) -> (r: bool)
    ensures
        r == send_decision_spec(*telegram, is_warning, is_critical),
{
    match telegram {
        Some(tg) => {
            let sev = decision_severity(is_warning, is_critical);
            sev.rank() >= crate::notifier::threshold_rank_exec(tg.min_severity.as_str())
        },
        None => false,
    }
}

/// The text of the alert raised when the advisor cannot be reached.
pub fn advisor_unavailable_message(error: &str) -> (r: String)
    ensures
        r@ == "AI-рекомендации временно недоступны: "@ + error@ + ". Локальный мониторинг активен."@,
{
    let mut m = owned("AI-рекомендации временно недоступны: ");
    m.append(error);
    m.append(". Локальный мониторинг активен.");
    m
}

} // verus!
