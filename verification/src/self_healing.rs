//! What the daemon does with an advisor's suggested action.
use vstd::prelude::*;
use crate::config::SelfHealingSettings;

verus! {

/// The step self-healing takes for a decision.
#[derive(PartialEq, Eq, Structural, Clone, Copy, Debug)]
pub enum HealAction {
    /// Self-healing is off, or the decision asks for no action.
    Skip,
    /// A service restart was suggested (recorded in the audit log).
    RestartService,
    /// A cache purge was suggested.
    PurgeCache,
    /// An action without an automated handler.
    Unhandled,
}

/// Acts on the advisor's decisions within the configured limits.
pub struct SelfHealingManager {
    settings: SelfHealingSettings,
}

impl SelfHealingManager {
    pub closed spec fn enabled(&self) -> bool {
        self.settings.enabled
    }

    pub fn new(settings: SelfHealingSettings) -> (r: SelfHealingManager)
        ensures
            r.enabled() == settings.enabled,
    {
        SelfHealingManager { settings }
    }

    /// The step for a decision: nothing unless self-healing is on and the decision requires
    /// action; then the suggested action picks the handler.
    pub fn plan(&self, action_required: bool, suggested_action: &str) -> (r: HealAction)
        ensures
            !self.enabled() || !action_required ==> r == HealAction::Skip,
            self.enabled() && action_required ==> r == (if suggested_action@ == "restart_unhealthy_service"@ {
                HealAction::RestartService
            } else if suggested_action@ == "purge_cache"@ {
                HealAction::PurgeCache
            } else {
                HealAction::Unhandled
            }),
    {
        if !self.settings.enabled || !action_required {
            return HealAction::Skip;
        }
        if crate::config::str_eq(suggested_action, "restart_unhealthy_service") {
            HealAction::RestartService
        } else if crate::config::str_eq(suggested_action, "purge_cache") {
            HealAction::PurgeCache
        } else {
            HealAction::Unhandled
        }
    }
}

} // verus!
