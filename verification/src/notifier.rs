//! Alert admission and delivery bookkeeping: incident generations, deduplication,
//! bounded coalescing of pending alerts and severity-ordered selection.
use vstd::prelude::*;
use crate::config::TelegramAlertSettings;
use crate::models::TargetStatus;
use crate::text::{chars_of, owned, escape_html, escape_html_spec, unescape_html, sanitize_inline_field, single_line_spec, truncate_field, truncate_spec};
use crate::assoc::{assoc_map, keys_unique, lemma_assoc_dom, lemma_assoc_index, lemma_assoc_ext, lemma_assoc_update, lemma_assoc_push, lemma_assoc_remove, lemma_assoc_len};

verus! {

/// Who raised an alert.
#[derive(Debug, Clone, Copy, PartialEq, Eq, Structural, Hash)]
pub enum AlertSource {
    LocalRule,
    JevAdvisor,
}

/// How urgent an alert is; `Info < Warning < Critical`.
#[derive(Debug, Clone, Copy, PartialEq, Eq, Structural, Hash)]
pub enum AlertSeverity {
    Info,
    Warning,
    Critical,
}

/// Why an alert was raised.
#[derive(Debug, Clone, Copy, PartialEq, Eq, Structural, Hash)]
pub enum AlertReason {
    ObservationUnavailable,
    ServiceCheckFailed,
    ServiceDegraded,
    AdvisorUnavailable,
    RiskElevated,
}

impl AlertSeverity {
    /// Position in the order `Info < Warning < Critical`.
    pub open spec fn rank_spec(self) -> nat {
        match self {
            AlertSeverity::Info => 0,
            AlertSeverity::Warning => 1,
            AlertSeverity::Critical => 2,
        }
    }

    pub fn rank(&self) -> (r: u8)
        ensures
            r == self.rank_spec(),
    {
        match self {
            AlertSeverity::Info => 0,
            AlertSeverity::Warning => 1,
            AlertSeverity::Critical => 2,
        }
    }
}

/// One alert, stamped with the incident generation current when it was built.
#[derive(Debug, Clone)]
pub struct AlertEvent {
    pub source: AlertSource,
    pub target_id: Option<String>,
    pub severity: AlertSeverity,
    pub reason_code: AlertReason,
    pub generation: u64,
    pub title: String,
    pub message: String,
    /// RFC 3339 time at which the event was built.
    pub timestamp: String,
}

/// What identifies an incident: who raised it, about which probe, and why.
#[derive(Debug, Clone)]
pub struct DeduplicationKey {
    pub source: AlertSource,
    pub target_id: Option<String>,
    pub reason_code: AlertReason,
}

/// One generation of an incident.
#[derive(Debug, Clone)]
pub struct IncidentId {
    pub key: DeduplicationKey,
    pub generation: u64,
}

/// Delivery progress of one incident generation. Times are monotonic milliseconds.
#[derive(Debug, Clone, Copy)]
pub struct GenerationRecord {
    pub plan_hash: u64,
    pub confirmed_chunks: usize,
    pub attempts: usize,
    pub exhausted: bool,
    /// Severity and time of the last confirmed delivery.
    pub delivered_cooldown: Option<(AlertSeverity, u64)>,
}

/// The generation counter of an incident key and the records of its generations.
#[derive(Debug, Clone)]
pub struct IncidentState {
    pub current_generation: u64,
    pub records: Vec<(u64, GenerationRecord)>,
}

/// All delivery bookkeeping of a notifier.
#[derive(Debug, Clone)]
pub struct DeliveryState {
    pub is_closed: bool,
    pub incidents: Vec<(DeduplicationKey, IncidentState)>,
    pub pending: Vec<(IncidentId, AlertEvent)>,
}

/// Abstract incident key.
pub struct KeyView {
    pub source: AlertSource,
    pub target_id: Option<Seq<char>>,
    pub reason_code: AlertReason,
}

/// Abstract incident generation.
pub struct IdView {
    pub key: KeyView,
    pub generation: u64,
}

/// Abstract alert event.
pub struct EventView {
    pub source: AlertSource,
    pub target_id: Option<Seq<char>>,
    pub severity: AlertSeverity,
    pub reason_code: AlertReason,
    pub generation: u64,
    pub title: Seq<char>,
    pub message: Seq<char>,
    pub timestamp: Seq<char>,
}

/// Abstract incident: its current generation and its records by generation.
pub struct IncidentView {
    pub current_generation: u64,
    pub records: Map<u64, GenerationRecord>,
}

/// Abstract delivery state.
pub struct StateView {
    pub is_closed: bool,
    pub incidents: Map<KeyView, IncidentView>,
    pub pending: Map<IdView, EventView>,
}

pub open spec fn opt_view(o: Option<String>) -> Option<Seq<char>> {
    match o {
        Some(s) => Some(s@),
        None => None,
    }
}

impl View for DeduplicationKey {
    type V = KeyView;

    open spec fn view(&self) -> KeyView {
        KeyView { source: self.source, target_id: opt_view(self.target_id), reason_code: self.reason_code }
    }
}

impl View for IncidentId {
    type V = IdView;

    open spec fn view(&self) -> IdView {
        IdView { key: self.key@, generation: self.generation }
    }
}

impl View for AlertEvent {
    type V = EventView;

    open spec fn view(&self) -> EventView {
        EventView {
            source: self.source,
            target_id: opt_view(self.target_id),
            severity: self.severity,
            reason_code: self.reason_code,
            generation: self.generation,
            title: self.title@,
            message: self.message@,
            timestamp: self.timestamp@,
        }
    }
}

impl View for IncidentState {
    type V = IncidentView;

    open spec fn view(&self) -> IncidentView {
        IncidentView { current_generation: self.current_generation, records: assoc_map(self.records@) }
    }
}

pub open spec fn incident_pairs(s: Seq<(DeduplicationKey, IncidentState)>) -> Seq<(KeyView, IncidentView)> {
    s.map_values(|p: (DeduplicationKey, IncidentState)| (p.0@, p.1@))
}

pub open spec fn pending_pairs(s: Seq<(IncidentId, AlertEvent)>) -> Seq<(IdView, EventView)> {
    s.map_values(|p: (IncidentId, AlertEvent)| (p.0@, p.1@))
}

impl View for DeliveryState {
    type V = StateView;

    open spec fn view(&self) -> StateView {
        StateView {
            is_closed: self.is_closed,
            incidents: assoc_map(incident_pairs(self.incidents@)),
            pending: assoc_map(pending_pairs(self.pending@)),
        }
    }
}

/// Most alerts that wait for delivery at once.
pub const MAX_PENDING: usize = 64;
/// A delivered generation suppresses repeats of no higher severity for this long (ms).
pub const COOLDOWN_MS: u64 = 300_000;
/// Records of old generations are kept at least this long after delivery (ms).
pub const RECORD_RETENTION_MS: u64 = 600_000;

/// The incident key of an event.
pub open spec fn key_of(e: EventView) -> KeyView {
    KeyView { source: e.source, target_id: e.target_id, reason_code: e.reason_code }
}

/// The incident generation an event belongs to.
pub open spec fn id_of(e: EventView) -> IdView {
    IdView { key: key_of(e), generation: e.generation }
}

/// Monotonic time elapsed since `at`, saturating at zero.
pub open spec fn elapsed(now: u64, at: u64) -> int {
    if now >= at { now - at } else { 0 }
}

/// An event for this generation would repeat what was delivered or given up on: the
/// generation is exhausted, or it was delivered within the cooldown at no lower severity.
pub open spec fn covered(rec: Option<GenerationRecord>, severity: AlertSeverity, now: u64) -> bool {
    match rec {
        Some(r) => r.exhausted || match r.delivered_cooldown {
            Some((prev, at)) => severity.rank_spec() <= prev.rank_spec() && elapsed(now, at) < COOLDOWN_MS,
            None => false,
        },
        None => false,
    }
}

/// The record of a generation, if the incident has one.
pub open spec fn record_of(s: StateView, k: KeyView, generation: u64) -> Option<GenerationRecord> {
    if s.incidents.contains_key(k) && s.incidents[k].records.contains_key(generation) {
        Some(s.incidents[k].records[generation])
    } else {
        None
    }
}

/// A new incident key starts at generation zero with no records.
pub open spec fn fresh_incident() -> IncidentView {
    IncidentView { current_generation: 0, records: Map::empty() }
}

/// `s` with an incident entry for `k`, created fresh when missing.
pub open spec fn with_incident(s: StateView, k: KeyView) -> StateView {
    if s.incidents.contains_key(k) {
        s
    } else {
        StateView { incidents: s.incidents.insert(k, fresh_incident()), ..s }
    }
}

impl GenerationRecord {
    /// A generation with no delivery progress.
    pub open spec fn empty_spec() -> GenerationRecord {
        GenerationRecord { plan_hash: 0, confirmed_chunks: 0, attempts: 0, exhausted: false, delivered_cooldown: None }
    }

    pub fn empty() -> (r: GenerationRecord)
        ensures
            r == GenerationRecord::empty_spec(),
    {
        GenerationRecord { plan_hash: 0, confirmed_chunks: 0, attempts: 0, exhausted: false, delivered_cooldown: None }
    }
}

impl Default for GenerationRecord {
    fn default() -> (r: GenerationRecord)
        ensures
            r == GenerationRecord::empty_spec(),
    {
        GenerationRecord::empty()
    }
}

impl IncidentState {
    pub open spec fn wf(&self) -> bool {
        keys_unique(self.records@)
    }
}

impl DeliveryState {
    /// Well-formedness: keys occur once, every incident's records are keyed uniquely, each
    /// pending event is filed under its own generation, and at most 64 events wait.
    pub open spec fn wf(&self) -> bool {
        &&& keys_unique(incident_pairs(self.incidents@))
        &&& forall|i: int| 0 <= i < self.incidents@.len() ==> (#[trigger] self.incidents@[i]).1.wf()
        &&& keys_unique(pending_pairs(self.pending@))
        &&& forall|i: int| 0 <= i < self.pending@.len() ==> (#[trigger] self.pending@[i]).0@ == id_of(self.pending@[i].1@)
        &&& self.pending@.len() <= MAX_PENDING
    }

    /// An empty, open delivery state.
    pub fn new() -> (r: DeliveryState)
        ensures
            r.wf(),
            !r@.is_closed,
            r@.incidents == Map::<KeyView, IncidentView>::empty(),
            r@.pending == Map::<IdView, EventView>::empty(),
    {
        let r = DeliveryState { is_closed: false, incidents: Vec::new(), pending: Vec::new() };
        assert(incident_pairs(r.incidents@) =~= Seq::empty());
        assert(pending_pairs(r.pending@) =~= Seq::empty());
        r
    }
}

impl Default for DeliveryState {
    fn default() -> (r: DeliveryState)
        ensures
            r.wf(),
            !r@.is_closed,
            r@.incidents == Map::<KeyView, IncidentView>::empty(),
            r@.pending == Map::<IdView, EventView>::empty(),
    {
        DeliveryState::new()
    }
}

/// Equality of optional strings by content.
pub fn opt_str_eq(a: &Option<String>, b: &Option<String>) -> (r: bool)
    ensures
        r == (opt_view(*a) == opt_view(*b)),
{
    match (a, b) {
        (Some(x), Some(y)) => crate::config::str_eq(x.as_str(), y.as_str()),
        (None, None) => true,
        _ => false,
    }
}

impl DeduplicationKey {
    pub fn same(&self, other: &DeduplicationKey) -> (r: bool)
        ensures
            r == (self@ == other@),
    {
        self.source == other.source && self.reason_code == other.reason_code && opt_str_eq(
            &self.target_id,
            &other.target_id,
        )
    }

    pub fn duplicate(&self) -> (r: DeduplicationKey)
        ensures
            r@ == self@,
    {
        DeduplicationKey { source: self.source, target_id: dup_opt(&self.target_id), reason_code: self.reason_code }
    }
}

/// A copy of an optional string.
pub fn dup_opt(o: &Option<String>) -> (r: Option<String>)
    ensures
        opt_view(r) == opt_view(*o),
{
    match o {
        Some(s) => Some(s.clone()),
        None => None,
    }
}

impl AlertEvent {
    pub fn duplicate(&self) -> (r: AlertEvent)
        ensures
            r@ == self@,
    {
        AlertEvent {
            source: self.source,
            target_id: dup_opt(&self.target_id),
            severity: self.severity,
            reason_code: self.reason_code,
            generation: self.generation,
            title: self.title.clone(),
            message: self.message.clone(),
            timestamp: self.timestamp.clone(),
        }
    }

    /// The incident key this event belongs to.
    pub fn key(&self) -> (r: DeduplicationKey)
        ensures
            r@ == key_of(self@),
    {
        DeduplicationKey { source: self.source, target_id: dup_opt(&self.target_id), reason_code: self.reason_code }
    }
}

} // verus!

verus! {

proof fn lemma_incident_pairs_update(s: Seq<(DeduplicationKey, IncidentState)>, i: int, x: (DeduplicationKey, IncidentState))
    requires
        0 <= i < s.len(),
    ensures
        incident_pairs(s.update(i, x)) == incident_pairs(s).update(i, (x.0@, x.1@)),
{
    assert(incident_pairs(s.update(i, x)) =~= incident_pairs(s).update(i, (x.0@, x.1@)));
}

proof fn lemma_incident_pairs_push(s: Seq<(DeduplicationKey, IncidentState)>, x: (DeduplicationKey, IncidentState))
    ensures
        incident_pairs(s.push(x)) == incident_pairs(s).push((x.0@, x.1@)),
{
    assert(incident_pairs(s.push(x)) =~= incident_pairs(s).push((x.0@, x.1@)));
}

proof fn lemma_pending_pairs_push(s: Seq<(IncidentId, AlertEvent)>, x: (IncidentId, AlertEvent))
    ensures
        pending_pairs(s.push(x)) == pending_pairs(s).push((x.0@, x.1@)),
{
    assert(pending_pairs(s.push(x)) =~= pending_pairs(s).push((x.0@, x.1@)));
}

proof fn lemma_pending_pairs_update(s: Seq<(IncidentId, AlertEvent)>, i: int, x: (IncidentId, AlertEvent))
    requires
        0 <= i < s.len(),
    ensures
        pending_pairs(s.update(i, x)) == pending_pairs(s).update(i, (x.0@, x.1@)),
{
    assert(pending_pairs(s.update(i, x)) =~= pending_pairs(s).update(i, (x.0@, x.1@)));
}

proof fn lemma_pending_pairs_remove(s: Seq<(IncidentId, AlertEvent)>, i: int)
    requires
        0 <= i < s.len(),
    ensures
        pending_pairs(s.remove(i)) == pending_pairs(s).remove(i),
{
    assert(pending_pairs(s.remove(i)) =~= pending_pairs(s).remove(i));
}

impl IncidentState {
    /// A fresh incident: generation zero, no records.
    pub fn fresh() -> (r: IncidentState)
        ensures
            r.wf(),
            r@ == fresh_incident(),
    {
        let r = IncidentState { current_generation: 0, records: Vec::new() };
        assert(r@.records =~= Map::<u64, GenerationRecord>::empty());
        r
    }

    /// Position of the record of `generation`.
    pub fn find_record(&self, generation: u64) -> (r: Option<usize>)
        ensures
            r matches Some(i) ==> i < self.records@.len() && self.records@[i as int].0 == generation,
            r is None ==> forall|i: int| 0 <= i < self.records@.len() ==> self.records@[i].0 != generation,
    {
        let mut i: usize = 0;
        while i < self.records.len()
            invariant
                i <= self.records@.len(),
                forall|j: int| 0 <= j < i ==> self.records@[j].0 != generation,
            decreases self.records.len() - i,
        {
            if self.records[i].0 == generation {
                return Some(i);
            }
            i = i + 1;
        }
        None
    }

    /// The record of `generation`, if any.
    pub fn get_record(&self, generation: u64) -> (r: Option<GenerationRecord>)
        requires
            self.wf(),
        ensures
            r == (if self@.records.contains_key(generation) { Some(self@.records[generation]) } else { None }),
    {
        proof {
            lemma_assoc_dom(self.records@);
        }
        match self.find_record(generation) {
            Some(i) => {
                proof {
                    lemma_assoc_index(self.records@, i as int);
                }
                Some(self.records[i].1)
            },
            None => None,
        }
    }

    /// Stores `rec` as the record of `generation`.
    pub fn put_record(&mut self, generation: u64, rec: GenerationRecord)
        requires
            old(self).wf(),
        ensures
            final(self).wf(),
            final(self)@.current_generation == old(self)@.current_generation,
            final(self)@.records == old(self)@.records.insert(generation, rec),
    {
        proof {
            lemma_assoc_dom(self.records@);
        }
        match self.find_record(generation) {
            Some(i) => {
                proof {
                    lemma_assoc_update(self.records@, i as int, rec);
                }
                self.records.set(i, (generation, rec));
            },
            None => {
                proof {
                    lemma_assoc_push(self.records@, generation, rec);
                }
                self.records.push((generation, rec));
            },
        }
    }

    /// The record of `generation`, or an empty one.
    pub fn record_or_empty(&self, generation: u64) -> (r: GenerationRecord)
        requires
            self.wf(),
        ensures
            r == (if self@.records.contains_key(generation) { self@.records[generation] } else { GenerationRecord::empty_spec() }),
    {
        match self.get_record(generation) {
            Some(r) => r,
            None => GenerationRecord::empty(),
        }
    }
}

impl DeliveryState {
    /// Position of the incident keyed `k`.
    pub fn find_incident(&self, k: &DeduplicationKey) -> (r: Option<usize>)
        ensures
            r matches Some(i) ==> i < self.incidents@.len() && incident_pairs(self.incidents@)[i as int].0 == k@,
            r is None ==> forall|i: int| 0 <= i < self.incidents@.len() ==> incident_pairs(self.incidents@)[i].0 != k@,
    {
        let mut i: usize = 0;
        while i < self.incidents.len()
            invariant
                i <= self.incidents@.len(),
                forall|j: int| 0 <= j < i ==> incident_pairs(self.incidents@)[j].0 != k@,
            decreases self.incidents.len() - i,
        {
            if self.incidents[i].0.same(k) {
                return Some(i);
            }
            i = i + 1;
        }
        None
    }

    /// Position of the pending event filed under `id`.
    pub fn find_pending(&self, k: &DeduplicationKey, generation: u64) -> (r: Option<usize>)
        ensures
            r matches Some(i) ==> i < self.pending@.len() && pending_pairs(self.pending@)[i as int].0 == (IdView { key: k@, generation }),
            r is None ==> forall|i: int| 0 <= i < self.pending@.len() ==> pending_pairs(self.pending@)[i].0 != (IdView { key: k@, generation }),
    {
        let mut i: usize = 0;
        while i < self.pending.len()
            invariant
                i <= self.pending@.len(),
                forall|j: int| 0 <= j < i ==> pending_pairs(self.pending@)[j].0 != (IdView { key: k@, generation }),
            decreases self.pending.len() - i,
        {
            if self.pending[i].0.generation == generation && self.pending[i].0.key.same(k) {
                return Some(i);
            }
            i = i + 1;
        }
        None
    }

    /// Replaces the incident at position `i` (keeping its key).
    fn set_incident_at(&mut self, i: usize, inc: IncidentState)
        requires
            old(self).wf(),
            i < old(self).incidents@.len(),
            inc.wf(),
        ensures
            final(self).wf(),
            final(self).is_closed == old(self).is_closed,
            final(self).pending == old(self).pending,
            final(self)@.incidents == old(self)@.incidents.insert(incident_pairs(old(self).incidents@)[i as int].0, inc@),
            final(self).incidents@.len() == old(self).incidents@.len(),
            forall|j: int| 0 <= j < final(self).incidents@.len() ==> incident_pairs(final(self).incidents@)[j].0 == incident_pairs(old(self).incidents@)[j].0,
    {
        let k = self.incidents[i].0.duplicate();
        proof {
            lemma_incident_pairs_update(self.incidents@, i as int, (k, inc));
            lemma_assoc_update(incident_pairs(self.incidents@), i as int, inc@);
        }
        self.incidents.set(i, (k, inc));
    }

    /// Makes sure an incident keyed `k` exists (fresh at generation zero if it did not) and
    /// returns its position.
    pub fn ensure_incident(&mut self, k: &DeduplicationKey) -> (r: usize)
        requires
            old(self).wf(),
        ensures
            final(self).wf(),
            final(self)@ == with_incident(old(self)@, k@),
            final(self).pending == old(self).pending,
            r < final(self).incidents@.len(),
            incident_pairs(final(self).incidents@)[r as int].0 == k@,
    {
        proof {
            lemma_assoc_dom(incident_pairs(self.incidents@));
        }
        match self.find_incident(k) {
            Some(i) => {
                proof {
                    assert(incident_pairs(self.incidents@)[i as int].0 == k@);
                }
                i
            },
            None => {
                let inc = IncidentState::fresh();
                let kk = k.duplicate();
                proof {
                    lemma_incident_pairs_push(self.incidents@, (kk, inc));
                    lemma_assoc_push(incident_pairs(self.incidents@), k@, inc@);
                }
                self.incidents.push((kk, inc));
                let ghost n = self.incidents@.len();
                assert(forall|j: int| 0 <= j < n - 1 ==> #[trigger] self.incidents@[j] == old(self).incidents@[j]);
                self.incidents.len() - 1
            },
        }
    }
}

} // verus!

verus! {

/// The next generation number (wrapping at `u64::MAX`).
pub open spec fn next_generation(g: u64) -> u64 {
    if g == u64::MAX { 0 } else { (g + 1) as u64 }
}

/// An incident moved on to its next generation.
pub open spec fn advanced(i: IncidentView) -> IncidentView {
    IncidentView { current_generation: next_generation(i.current_generation), ..i }
}

/// Every incident about probe `target` moved on to its next generation.
pub open spec fn recover_target_spec(s: StateView, target: Seq<char>) -> StateView {
    StateView {
        incidents: Map::new(
            |k: KeyView| s.incidents.contains_key(k),
            |k: KeyView| if k.target_id == Some(target) { advanced(s.incidents[k]) } else { s.incidents[k] },
        ),
        ..s
    }
}

/// The incident keyed `k` moved on to its next generation, if it exists.
pub open spec fn recover_key_spec(s: StateView, k: KeyView) -> StateView {
    if s.incidents.contains_key(k) {
        StateView { incidents: s.incidents.insert(k, advanced(s.incidents[k])), ..s }
    } else {
        s
    }
}

/// The key of incidents about the advisor being unavailable.
pub open spec fn advisor_key() -> KeyView {
    KeyView { source: AlertSource::LocalRule, target_id: None, reason_code: AlertReason::AdvisorUnavailable }
}

/// The key of incidents about elevated risk reported by the advisor.
pub open spec fn risk_key() -> KeyView {
    KeyView { source: AlertSource::JevAdvisor, target_id: None, reason_code: AlertReason::RiskElevated }
}

pub fn next_generation_exec(g: u64) -> (r: u64)
    ensures
        r == next_generation(g),
{
    if g == u64::MAX { 0 } else { g + 1 }
}

impl DeliveryState {
    /// Moves the incident at position `i` to its next generation.
    fn advance_at(&mut self, i: usize)
        requires
            old(self).wf(),
            i < old(self).incidents@.len(),
        ensures
            final(self).wf(),
            final(self).is_closed == old(self).is_closed,
            final(self).pending == old(self).pending,
            final(self).incidents@.len() == old(self).incidents@.len(),
            forall|j: int| 0 <= j < old(self).incidents@.len() && j != i ==> #[trigger] final(self).incidents@[j] == old(self).incidents@[j],
            incident_pairs(final(self).incidents@)[i as int] == (incident_pairs(old(self).incidents@)[i as int].0, advanced(incident_pairs(old(self).incidents@)[i as int].1)),
            final(self)@.incidents == old(self)@.incidents.insert(incident_pairs(old(self).incidents@)[i as int].0, advanced(incident_pairs(old(self).incidents@)[i as int].1)),
    {
        let ghost before = self.incidents@;
        let mut pair = self.incidents.remove(i);
        pair.1.current_generation = next_generation_exec(pair.1.current_generation);
        self.incidents.insert(i, pair);
        proof {
            assert(self.incidents@ =~= before.update(i as int, pair));
            assert(pair.1@ == advanced(before[i as int].1@));
            assert(pair.1.wf());
            lemma_incident_pairs_update(before, i as int, pair);
            lemma_assoc_update(incident_pairs(before), i as int, pair.1@);
        }
    }

    /// Moves every incident about probe `target` to its next generation: alerts stamped before
    /// the recovery no longer count as current.
    pub fn recover_target(&mut self, target: &str)
        requires
            old(self).wf(),
        ensures
            final(self).wf(),
            final(self)@ == recover_target_spec(old(self)@, target@),
    {
        let ghost before = self.incidents@;
        let mut i: usize = 0;
        while i < self.incidents.len()
            invariant
                self.wf(),
                self.is_closed == old(self).is_closed,
                self.pending == old(self).pending,
                self.incidents@.len() == before.len(),
                i <= before.len(),
                forall|j: int| 0 <= j < before.len() ==> #[trigger] incident_pairs(self.incidents@)[j].0 == incident_pairs(before)[j].0,
                forall|j: int| 0 <= j < i ==> #[trigger] incident_pairs(self.incidents@)[j].1 == (if incident_pairs(before)[j].0.target_id == Some(target@) { advanced(incident_pairs(before)[j].1) } else { incident_pairs(before)[j].1 }),
                forall|j: int| i <= j < before.len() ==> #[trigger] incident_pairs(self.incidents@)[j].1 == incident_pairs(before)[j].1,
            decreases before.len() - i,
        {
            let hit = match &self.incidents[i].0.target_id {
                Some(t) => crate::config::str_eq(t.as_str(), target),
                None => false,
            };
            let ghost prev = self.incidents@;
            assert(hit == (incident_pairs(prev)[i as int].0.target_id == Some(target@)));
            if hit {
                self.advance_at(i);
                proof {
                    assert forall|j: int| 0 <= j < before.len() && j != i implies #[trigger] incident_pairs(self.incidents@)[j] == incident_pairs(prev)[j] by {
                        assert(self.incidents@[j] == prev[j]);
                    }
                }
            }
            i = i + 1;
        }
        proof {
            let m = recover_target_spec(old(self)@, target@).incidents;
            let np = incident_pairs(self.incidents@);
            let op = incident_pairs(before);
            lemma_assoc_dom(op);
            assert forall|k: KeyView| m.contains_key(k) <==> exists|j: int| 0 <= j < np.len() && np[j].0 == k by {
                if m.contains_key(k) {
                    let j = choose|j: int| 0 <= j < op.len() && op[j].0 == k;
                    assert(np[j].0 == k);
                }
                if exists|j: int| 0 <= j < np.len() && np[j].0 == k {
                    let j = choose|j: int| 0 <= j < np.len() && np[j].0 == k;
                    assert(op[j].0 == k);
                }
            }
            assert forall|j: int| 0 <= j < np.len() implies m[#[trigger] np[j].0] == np[j].1 by {
                lemma_assoc_index(op, j);
                assert(np[j].0 == op[j].0);
            }
            lemma_assoc_ext(np, m);
            assert(self@.incidents == m);
        }
    }

    /// Moves the incident keyed `k` to its next generation, if there is one.
    pub fn recover_key(&mut self, k: &DeduplicationKey)
        requires
            old(self).wf(),
        ensures
            final(self).wf(),
            final(self)@ == recover_key_spec(old(self)@, k@),
    {
        proof {
            lemma_assoc_dom(incident_pairs(self.incidents@));
        }
        match self.find_incident(k) {
            Some(i) => {
                proof {
                    lemma_assoc_index(incident_pairs(self.incidents@), i as int);
                }
                self.advance_at(i);
            },
            None => {},
        }
    }
}

} // verus!

verus! {

/// Generations of incident `k` that have an event waiting.
pub open spec fn pending_generations(s: StateView, k: KeyView) -> Set<u64> {
    Set::new(|g: u64| s.pending.contains_key(IdView { key: k, generation: g }))
}

/// A record survives pruning when it is the current generation's, has an event waiting, was
/// delivered less than ten minutes ago, or was never delivered and not given up on.
pub open spec fn keep_record(g: u64, r: GenerationRecord, current: u64, waiting: Set<u64>, now: u64) -> bool {
    g == current || waiting.contains(g) || match r.delivered_cooldown {
        Some((_, at)) => elapsed(now, at) < RECORD_RETENTION_MS,
        None => !r.exhausted,
    }
}

/// The records that survive pruning.
pub open spec fn pruned(recs: Map<u64, GenerationRecord>, current: u64, waiting: Set<u64>, now: u64) -> Map<u64, GenerationRecord> {
    Map::new(|g: u64| recs.contains_key(g) && keep_record(g, recs[g], current, waiting, now), |g: u64| recs[g])
}

/// `rec` marked as delivered at `severity` at time `now`.
pub open spec fn delivered(rec: GenerationRecord, severity: AlertSeverity, now: u64) -> GenerationRecord {
    GenerationRecord { delivered_cooldown: Some((severity, now)), ..rec }
}

/// Confirming delivery of `e` at `now`: when its incident exists, its generation's record is
/// marked delivered and the incident's records are pruned; the answer is whether `e` still
/// belongs to the incident's current generation.
pub open spec fn commit_spec(s: StateView, e: EventView, now: u64) -> (StateView, bool) {
    let k = key_of(e);
    if !s.incidents.contains_key(k) {
        (s, false)
    } else {
        let inc = s.incidents[k];
        let rec = if inc.records.contains_key(e.generation) { inc.records[e.generation] } else { GenerationRecord::empty_spec() };
        let recs = inc.records.insert(e.generation, delivered(rec, e.severity, now));
        let kept = pruned(recs, inc.current_generation, pending_generations(s, k), now);
        (
            StateView { incidents: s.incidents.insert(k, IncidentView { records: kept, ..inc }), ..s },
            inc.current_generation == e.generation,
        )
    }
}

pub fn elapsed_exec(now: u64, at: u64) -> (r: u64)
    ensures
        r == elapsed(now, at),
{
    if now >= at { now - at } else { 0 }
}

fn contains_u64(v: &Vec<u64>, x: u64) -> (r: bool)
    ensures
        r == v@.contains(x),
{
    let mut i: usize = 0;
    while i < v.len()
        invariant
            i <= v@.len(),
            forall|j: int| 0 <= j < i ==> v@[j] != x,
        decreases v.len() - i,
    {
        if v[i] == x {
            return true;
        }
        i = i + 1;
    }
    false
}

impl IncidentState {
    /// Drops the records that `keep_record` does not keep.
    pub fn prune_records(&mut self, waiting: &Vec<u64>, now: u64)
        requires
            old(self).wf(),
        ensures
            final(self).wf(),
            final(self)@.current_generation == old(self)@.current_generation,
            final(self)@.records == pruned(old(self)@.records, old(self)@.current_generation, waiting@.to_set(), now),
    {
        let ghost olds = self.records@;
        let current = self.current_generation;
        let mut kept: Vec<(u64, GenerationRecord)> = Vec::new();
        let ghost mut src: Seq<int> = Seq::empty();
        let mut i: usize = 0;
        while i < self.records.len()
            invariant
                olds == self.records@,
                keys_unique(olds),
                i <= olds.len(),
                src.len() == kept@.len(),
                forall|a: int, b: int| 0 <= a < b < src.len() ==> src[a] < src[b],
                forall|a: int| 0 <= a < src.len() ==> 0 <= #[trigger] src[a] < i && kept@[a] == olds[src[a]]
                    && keep_record(olds[src[a]].0, olds[src[a]].1, current, waiting@.to_set(), now),
                forall|j: int| 0 <= j < i && keep_record(olds[j].0, olds[j].1, current, waiting@.to_set(), now)
                    ==> exists|a: int| 0 <= a < src.len() && src[a] == j,
            decreases olds.len() - i,
        {
            let (g, r) = self.records[i];
            let keep = g == current || contains_u64(waiting, g) || match r.delivered_cooldown {
                Some((_, at)) => elapsed_exec(now, at) < RECORD_RETENTION_MS,
                None => !r.exhausted,
            };
            assert(keep == keep_record(g, r, current, waiting@.to_set(), now)) by {
                assert(waiting@.to_set().contains(g) == waiting@.contains(g));
            }
            let ghost src_prev = src;
            if keep {
                kept.push((g, r));
                proof {
                    src = src.push(i as int);
                }
            }
            proof {
                assert forall|j: int| 0 <= j < i + 1 && keep_record(olds[j].0, olds[j].1, current, waiting@.to_set(), now)
                    implies exists|a: int| 0 <= a < src.len() && src[a] == j by {
                    if j == i {
                        assert(src[src.len() - 1] == j);
                    } else {
                        let a = choose|a: int| 0 <= a < src_prev.len() && src_prev[a] == j;
                        assert(src[a] == j);
                    }
                }
            }
            i = i + 1;
        }
        proof {
            assert(keys_unique(kept@)) by {
                assert forall|a: int, b: int| 0 <= a < kept@.len() && 0 <= b < kept@.len() && a != b implies #[trigger] kept@[a].0 != #[trigger] kept@[b].0 by {
                    if a < b {
                        assert(src[a] < src[b]);
                    } else {
                        assert(src[b] < src[a]);
                    }
                    assert(kept@[a] == olds[src[a]] && kept@[b] == olds[src[b]]);
                }
            }
            let m = pruned(assoc_map(olds), current, waiting@.to_set(), now);
            lemma_assoc_dom(olds);
            assert forall|g: u64| m.contains_key(g) <==> exists|a: int| 0 <= a < kept@.len() && kept@[a].0 == g by {
                if m.contains_key(g) {
                    let j = choose|j: int| 0 <= j < olds.len() && olds[j].0 == g;
                    lemma_assoc_index(olds, j);
                    let a = choose|a: int| 0 <= a < src.len() && src[a] == j;
                    assert(kept@[a].0 == g);
                }
                if exists|a: int| 0 <= a < kept@.len() && kept@[a].0 == g {
                    let a = choose|a: int| 0 <= a < kept@.len() && kept@[a].0 == g;
                    lemma_assoc_index(olds, src[a]);
                }
            }
            assert forall|a: int| 0 <= a < kept@.len() implies m[#[trigger] kept@[a].0] == kept@[a].1 by {
                lemma_assoc_index(olds, src[a]);
            }
            lemma_assoc_ext(kept@, m);
        }
        self.records = kept;
    }
}

impl DeliveryState {
    /// Generations of incident `k` that have an event waiting.
    fn waiting_generations(&self, k: &DeduplicationKey) -> (r: Vec<u64>)
        requires
            self.wf(),
        ensures
            r@.to_set() == pending_generations(self@, k@),
    {
        let ghost pp = pending_pairs(self.pending@);
        let mut gens: Vec<u64> = Vec::new();
        let mut i: usize = 0;
        while i < self.pending.len()
            invariant
                pp == pending_pairs(self.pending@),
                i <= self.pending@.len(),
                forall|g: u64| gens@.contains(g) <==> exists|j: int| 0 <= j < i && pp[j].0 == (IdView { key: k@, generation: g }),
            decreases self.pending.len() - i,
        {
            if self.pending[i].0.key.same(k) {
                let g = self.pending[i].0.generation;
                let ghost prev = gens@;
                gens.push(g);
                proof {
                    assert forall|h: u64| gens@.contains(h) <==> exists|j: int| 0 <= j < i + 1 && pp[j].0 == (IdView { key: k@, generation: h }) by {
                        if gens@.contains(h) {
                            let a = choose|a: int| 0 <= a < gens@.len() && gens@[a] == h;
                            if a < prev.len() {
                                assert(prev[a] == h);
                                assert(prev.contains(h));
                                let j = choose|j: int| 0 <= j < i && pp[j].0 == (IdView { key: k@, generation: h });
                                assert(0 <= j < i + 1);
                            } else {
                                assert(pp[i as int].0 == (IdView { key: k@, generation: h }));
                            }
                        }
                        if exists|j: int| 0 <= j < i + 1 && pp[j].0 == (IdView { key: k@, generation: h }) {
                            let j = choose|j: int| 0 <= j < i + 1 && pp[j].0 == (IdView { key: k@, generation: h });
                            if j < i {
                                assert(prev.contains(h));
                                let a = choose|a: int| 0 <= a < prev.len() && prev[a] == h;
                                assert(gens@[a] == h);
                            } else {
                                assert(gens@[gens@.len() - 1] == h);
                            }
                        }
                    }
                }
            }
            i = i + 1;
        }
        proof {
            lemma_assoc_dom(pp);
            assert(gens@.to_set() =~= pending_generations(self@, k@)) by {
                assert forall|g: u64| gens@.to_set().contains(g) <==> pending_generations(self@, k@).contains(g) by {
                    assert(gens@.to_set().contains(g) == gens@.contains(g));
                }
            }
        }
        gens
    }

    /// Records a confirmed delivery of `e` at `now` (see `commit_spec`): its generation enters the
    /// cooldown at `e`'s severity and old records are pruned. Answers whether `e` belongs to the
    /// incident's current generation, so that a late confirmation of an earlier generation does
    /// not count for a newer incident.
    pub fn commit_delivery_at(&mut self, e: &AlertEvent, now: u64) -> (r: bool)
        requires
            old(self).wf(),
        ensures
            final(self).wf(),
            (final(self)@, r) == commit_spec(old(self)@, e@, now),
    {
        let k = e.key();
        proof {
            lemma_assoc_dom(incident_pairs(self.incidents@));
        }
        match self.find_incident(&k) {
            None => false,
            Some(i) => {
                proof {
                    lemma_assoc_index(incident_pairs(self.incidents@), i as int);
                }
                let waiting = self.waiting_generations(&k);
                let ghost before = self.incidents@;
                let mut pair = self.incidents.remove(i);
                let rec = pair.1.record_or_empty(e.generation);
                let rec2 = GenerationRecord { delivered_cooldown: Some((e.severity, now)), ..rec };
                pair.1.put_record(e.generation, rec2);
                pair.1.prune_records(&waiting, now);
                let current = pair.1.current_generation;
                self.incidents.insert(i, pair);
                proof {
                    assert(self.incidents@ =~= before.update(i as int, pair));
                    lemma_incident_pairs_update(before, i as int, pair);
                    lemma_assoc_update(incident_pairs(before), i as int, pair.1@);
                    assert(pair.1@.records =~= commit_spec(old(self)@, e@, now).0.incidents[k@].records);
                }
                current == e.generation
            },
        }
    }
}

} // verus!

verus! {

/// `e` may wait for delivery at `now`: admission is open, `e` is not stamped with an outdated
/// generation, and it does not repeat what its generation already delivered or gave up on.
pub open spec fn admissible(s: StateView, e: EventView, now: u64) -> bool {
    let s1 = with_incident(s, key_of(e));
    &&& !s.is_closed
    &&& e.generation >= s1.incidents[key_of(e)].current_generation
    &&& !covered(record_of(s1, key_of(e), e.generation), e.severity, now)
}

/// A waiting event coalesced with a newer one for the same generation: a higher severity
/// replaces it; an equal one refreshes its time and message; a lower one refreshes only the
/// time, keeping the peak severity, title and evidence.
pub open spec fn merged(existing: EventView, e: EventView) -> EventView {
    if e.severity.rank_spec() > existing.severity.rank_spec() {
        e
    } else if e.severity.rank_spec() == existing.severity.rank_spec() {
        EventView { timestamp: e.timestamp, message: e.message, ..existing }
    } else {
        EventView { timestamp: e.timestamp, ..existing }
    }
}

/// Some waiting event is less severe than `severity`.
pub open spec fn has_less_severe(p: Map<IdView, EventView>, severity: AlertSeverity) -> bool {
    exists|id: IdView| p.contains_key(id) && #[trigger] p[id].severity.rank_spec() < severity.rank_spec()
}

/// `e` finds a place among the waiting events: its generation already waits (and coalesces),
/// there is room, or a less severe event can make room.
pub open spec fn finds_place(p: Map<IdView, EventView>, e: EventView) -> bool {
    p.contains_key(id_of(e)) || p.dom().len() < MAX_PENDING || has_less_severe(p, e.severity)
}

pub fn covered_exec(rec: Option<GenerationRecord>, severity: AlertSeverity, now: u64) -> (r: bool)
    ensures
        r == covered(rec, severity, now),
{
    match rec {
        Some(r) => r.exhausted || match r.delivered_cooldown {
            Some((prev, at)) => severity.rank() <= prev.rank() && elapsed_exec(now, at) < COOLDOWN_MS,
            None => false,
        },
        None => false,
    }
}

impl DeliveryState {
    /// Position of the first waiting event less severe than `severity`.
    fn find_less_severe(&self, severity: AlertSeverity) -> (r: Option<usize>)
        ensures
            r matches Some(i) ==> i < self.pending@.len() && self.pending@[i as int].1.severity.rank_spec() < severity.rank_spec(),
            r is None ==> forall|i: int| 0 <= i < self.pending@.len() ==> self.pending@[i].1.severity.rank_spec() >= severity.rank_spec(),
    {
        let mut i: usize = 0;
        while i < self.pending.len()
            invariant
                i <= self.pending@.len(),
                forall|j: int| 0 <= j < i ==> self.pending@[j].1.severity.rank_spec() >= severity.rank_spec(),
            decreases self.pending.len() - i,
        {
            if self.pending[i].1.severity.rank() < severity.rank() {
                return Some(i);
            }
            i = i + 1;
        }
        None
    }

    /// Admits `event` for delivery at time `now` (monotonic ms), coalescing it with a waiting
    /// event of the same incident generation and keeping at most 64 events waiting: when full,
    /// a less severe waiting event makes room. Building the incident entry for the event's key
    /// happens whenever admission is open, even if the event is then refused.
    pub fn admit_at(&mut self, event: AlertEvent, now: u64) -> (r: bool)
        requires
            old(self).wf(),
        ensures
            final(self).wf(),
            r == (admissible(old(self)@, event@, now) && finds_place(old(self)@.pending, event@)),
            old(self)@.is_closed ==> final(self)@ == old(self)@,
            !old(self)@.is_closed ==> final(self)@.incidents == with_incident(old(self)@, key_of(event@)).incidents
                && !final(self)@.is_closed,
            !r ==> final(self)@.pending == old(self)@.pending,
            r && old(self)@.pending.contains_key(id_of(event@)) ==> final(self)@.pending == old(self)@.pending.insert(
                id_of(event@),
                merged(old(self)@.pending[id_of(event@)], event@),
            ),
            r && !old(self)@.pending.contains_key(id_of(event@)) && old(self)@.pending.dom().len() < MAX_PENDING
                ==> final(self)@.pending == old(self)@.pending.insert(id_of(event@), event@),
            r && !old(self)@.pending.contains_key(id_of(event@)) && old(self)@.pending.dom().len() >= MAX_PENDING
                ==> exists|victim: IdView| #[trigger] old(self)@.pending.contains_key(victim)
                && old(self)@.pending[victim].severity.rank_spec() < event@.severity.rank_spec()
                && final(self)@.pending == old(self)@.pending.remove(victim).insert(id_of(event@), event@),
    {
        proof {
            lemma_assoc_len(pending_pairs(self.pending@));
            lemma_assoc_dom(pending_pairs(self.pending@));
        }
        if self.is_closed {
            return false;
        }
        let k = event.key();
        let idx = self.ensure_incident(&k);
        proof {
            lemma_assoc_index(incident_pairs(self.incidents@), idx as int);
        }
        let current = self.incidents[idx].1.current_generation;
        if event.generation < current {
            return false;
        }
        let rec = self.incidents[idx].1.get_record(event.generation);
        assert(self.incidents@[idx as int].1.wf());
        if covered_exec(rec, event.severity, now) {
            return false;
        }
        let ghost pp = pending_pairs(self.pending@);
        let ghost ev = event@;
        match self.find_pending(&k, event.generation) {
            Some(j) => {
                proof {
                    lemma_assoc_index(pp, j as int);
                }
                let ghost before = self.pending@;
                let (id, mut existing) = self.pending.remove(j);
                let ghost ex0 = existing@;
                if event.severity.rank() > existing.severity.rank() {
                    existing = event;
                } else if event.severity.rank() == existing.severity.rank() {
                    existing.timestamp = event.timestamp;
                    existing.message = event.message;
                } else {
                    existing.timestamp = event.timestamp;
                }
                proof {
                    assert(existing@ == merged(ex0, ev));
                    assert(id_of(existing@) == id_of(ex0));
                }
                self.pending.insert(j, (id, existing));
                proof {
                    assert(self.pending@ =~= before.update(j as int, (id, existing)));
                    lemma_pending_pairs_update(before, j as int, (id, existing));
                    lemma_assoc_update(pp, j as int, existing@);
                    assert forall|i: int| 0 <= i < self.pending@.len() implies (#[trigger] self.pending@[i]).0@ == id_of(self.pending@[i].1@) by {
                        if i != j {
                            assert(self.pending@[i] == before[i]);
                        }
                    }
                }
                true
            },
            None => {
                proof {
                    assert(!self@.pending.contains_key(id_of(ev))) by {
                        if self@.pending.contains_key(id_of(ev)) {
                            let i = choose|i: int| 0 <= i < pp.len() && pp[i].0 == id_of(ev);
                        }
                    }
                }
                let id = IncidentId { key: k, generation: event.generation };
                if self.pending.len() >= MAX_PENDING {
                    match self.find_less_severe(event.severity) {
                        None => {
                            proof {
                                assert(!has_less_severe(self@.pending, ev.severity)) by {
                                    if has_less_severe(self@.pending, ev.severity) {
                                        let v = choose|v: IdView| self@.pending.contains_key(v) && #[trigger] self@.pending[v].severity.rank_spec() < ev.severity.rank_spec();
                                        let i = choose|i: int| 0 <= i < pp.len() && pp[i].0 == v;
                                        lemma_assoc_index(pp, i);
                                    }
                                }
                            }
                            false
                        },
                        Some(v) => {
                            let ghost before = self.pending@;
                            let ghost victim = pp[v as int].0;
                            proof {
                                lemma_assoc_index(pp, v as int);
                                lemma_pending_pairs_remove(before, v as int);
                                lemma_assoc_remove(pp, v as int);
                            }
                            self.pending.remove(v);
                            proof {
                                lemma_assoc_dom(pp.remove(v as int));
                                lemma_pending_pairs_push(self.pending@, (id, event));
                                lemma_assoc_push(pending_pairs(self.pending@), id_of(ev), ev);
                            }
                            let ghost mid = self.pending@;
                            self.pending.push((id, event));
                            proof {
                                assert forall|i: int| 0 <= i < self.pending@.len() implies (#[trigger] self.pending@[i]).0@ == id_of(self.pending@[i].1@) by {
                                    if i < mid.len() {
                                        assert(self.pending@[i] == mid[i]);
                                        let i2 = if i < v { i } else { i + 1 };
                                        assert(mid[i] == before[i2]);
                                    }
                                }
                                assert(old(self)@.pending.contains_key(victim));
                                assert(old(self)@.pending[victim] == pp[v as int].1);
                                assert(old(self)@.pending[victim].severity.rank_spec() < ev.severity.rank_spec());
                                assert(has_less_severe(old(self)@.pending, ev.severity));
                            }
                            true
                        },
                    }
                } else {
                    proof {
                        lemma_pending_pairs_push(self.pending@, (id, event));
                        lemma_assoc_push(pp, id_of(ev), ev);
                    }
                    let ghost before = self.pending@;
                    self.pending.push((id, event));
                    proof {
                        assert forall|i: int| 0 <= i < self.pending@.len() implies (#[trigger] self.pending@[i]).0@ == id_of(self.pending@[i].1@) by {
                            if i < before.len() {
                                assert(self.pending@[i] == before[i]);
                            }
                        }
                    }
                    true
                }
            },
        }
    }
}

} // verus!

verus! {

/// The waiting event filed under `id` would only repeat a delivery (see `covered`).
pub open spec fn stale_at(s: StateView, id: IdView, now: u64) -> bool {
    covered(record_of(s, id.key, id.generation), s.pending[id].severity, now)
}

/// `new` keeps a subset of `old`'s waiting events, unchanged.
pub open spec fn pending_subset(new: Map<IdView, EventView>, old: Map<IdView, EventView>) -> bool {
    forall|id: IdView| #[trigger] new.contains_key(id) ==> old.contains_key(id) && new[id] == old[id]
}

/// What selecting the next event does: the chosen event was waiting, is not stale, and is at
/// least as severe as every event left waiting; every other event removed on the way was stale
/// and at least as severe as the chosen one. With nothing chosen, every waiting event was stale
/// and none is left.
pub open spec fn pop_spec(old: StateView, new: StateView, r: Option<EventView>, now: u64) -> bool {
    &&& new.is_closed == old.is_closed
    &&& new.incidents == old.incidents
    &&& pending_subset(new.pending, old.pending)
    &&& match r {
        None => {
            &&& new.pending.dom().is_empty()
            &&& forall|id: IdView| #[trigger] old.pending.contains_key(id) ==> stale_at(old, id, now)
        },
        Some(e) => exists|id: IdView| {
            &&& #[trigger] old.pending.contains_key(id)
            &&& old.pending[id] == e
            &&& !new.pending.contains_key(id)
            &&& !stale_at(old, id, now)
            &&& forall|o: IdView| #[trigger] new.pending.contains_key(o) ==> new.pending[o].severity.rank_spec() <= e.severity.rank_spec()
            &&& forall|o: IdView| #[trigger] old.pending.contains_key(o) && !new.pending.contains_key(o) && o != id
                ==> stale_at(old, o, now) && old.pending[o].severity.rank_spec() >= e.severity.rank_spec()
        },
    }
}

impl DeliveryState {
    /// Position of a most severe waiting event (the first one).
    fn most_severe(&self) -> (r: usize)
        requires
            self.pending@.len() > 0,
        ensures
            r < self.pending@.len(),
            forall|i: int| 0 <= i < self.pending@.len() ==> self.pending@[i].1.severity.rank_spec() <= self.pending@[r as int].1.severity.rank_spec(),
    {
        let mut best: usize = 0;
        let mut i: usize = 1;
        while i < self.pending.len()
            invariant
                best < i <= self.pending@.len(),
                forall|j: int| 0 <= j < i ==> self.pending@[j].1.severity.rank_spec() <= self.pending@[best as int].1.severity.rank_spec(),
            decreases self.pending.len() - i,
        {
            if self.pending[i].1.severity.rank() > self.pending[best].1.severity.rank() {
                best = i;
            }
            i = i + 1;
        }
        best
    }

    /// The record of the generation that a waiting event belongs to.
    fn record_for(&self, k: &DeduplicationKey, generation: u64) -> (r: Option<GenerationRecord>)
        requires
            self.wf(),
        ensures
            r == record_of(self@, k@, generation),
    {
        proof {
            lemma_assoc_dom(incident_pairs(self.incidents@));
        }
        match self.find_incident(k) {
            Some(i) => {
                proof {
                    lemma_assoc_index(incident_pairs(self.incidents@), i as int);
                }
                assert(self.incidents@[i as int].1.wf());
                self.incidents[i].1.get_record(generation)
            },
            None => None,
        }
    }

    /// Takes the most severe waiting event at time `now`, dropping on the way every more severe
    /// event whose generation was already delivered (within the cooldown) or given up on.
    pub fn pop_next_at(&mut self, now: u64) -> (r: Option<AlertEvent>)
        requires
            old(self).wf(),
        ensures
            final(self).wf(),
            pop_spec(old(self)@, final(self)@, opt_event(r), now),
    {
        let ghost o = old(self)@;
        while self.pending.len() > 0
            invariant
                self.wf(),
                self.is_closed == old(self).is_closed,
                self.incidents == old(self).incidents,
                o == old(self)@,
                pending_subset(self@.pending, o.pending),
                forall|x: IdView| #[trigger] o.pending.contains_key(x) && !self@.pending.contains_key(x)
                    ==> stale_at(o, x, now) && forall|y: IdView| #[trigger] self@.pending.contains_key(y)
                    ==> o.pending[x].severity.rank_spec() >= self@.pending[y].severity.rank_spec(),
            decreases self.pending.len(),
        {
            let ghost pp = pending_pairs(self.pending@);
            let ghost cur = self@.pending;
            proof {
                lemma_assoc_dom(pp);
            }
            let best = self.most_severe();
            proof {
                lemma_assoc_index(pp, best as int);
            }
            let ghost id = pp[best as int].0;
            let ghost before = self.pending@;
            let (pid, e) = self.pending.remove(best);
            proof {
                lemma_pending_pairs_remove(before, best as int);
                lemma_assoc_remove(pp, best as int);
                assert forall|i: int| 0 <= i < self.pending@.len() implies (#[trigger] self.pending@[i]).0@ == id_of(self.pending@[i].1@) by {
                    let i2 = if i < best { i } else { i + 1 };
                    assert(self.pending@[i] == before[i2]);
                }
                lemma_assoc_dom(pending_pairs(self.pending@));
                assert forall|y: IdView| #[trigger] self@.pending.contains_key(y) implies cur[y].severity.rank_spec() <= e@.severity.rank_spec() by {
                    let i = choose|i: int| 0 <= i < pp.len() && pp[i].0 == y;
                    lemma_assoc_index(pp, i);
                }
            }
            let rec = self.record_for(&pid.key, pid.generation);
            assert(o.pending[id] == e@ && id == pid@);
            if !covered_exec(rec, e.severity, now) {
                proof {
                    assert(!stale_at(o, id, now));
                }
                return Some(e);
            }
        }
        proof {
            lemma_assoc_len(pending_pairs(self.pending@));
            assert(self@.pending.dom() =~= Set::<IdView>::empty());
        }
        None
    }
}

} // verus!

verus! {

#[verifier::external_type_specification]
#[verifier::external_body]
pub struct ExInstant(std::time::Instant);

/// `std::time::Instant::now`: a reading of the monotonic clock.
#[verifier::external_body]
fn instant_now() -> std::time::Instant {
    std::time::Instant::now()
}

/// `Instant::elapsed` of `since`, in whole milliseconds. Nothing is promised of the value: it
/// comes from the machine's clock.
#[verifier::external_body]
fn elapsed_millis(since: &std::time::Instant) -> u64 {
    since.elapsed().as_millis() as u64
}


/// `c` equals the lowercase ASCII letter or symbol `w`, ignoring ASCII case.
pub open spec fn char_matches_lower(c: char, w: char) -> bool {
    let n = c as u32;
    if 65 <= n <= 90 { n + 32 == w as u32 } else { c == w }
}

/// `s` spells the lowercase word `w`, ignoring ASCII case.
pub open spec fn spells(s: Seq<char>, w: Seq<char>) -> bool {
    s.len() == w.len() && forall|i: int| 0 <= i < s.len() ==> char_matches_lower(#[trigger] s[i], w[i])
}

/// Lowest severity that the `min_severity` setting lets through: `info` lets all through,
/// `critical` only critical alerts, and `warning` or anything else warnings and above.
pub open spec fn threshold_rank(setting: Seq<char>) -> nat {
    if spells(setting, seq!['i', 'n', 'f', 'o']) {
        0
    } else if spells(setting, seq!['c', 'r', 'i', 't', 'i', 'c', 'a', 'l']) {
        2
    } else {
        1
    }
}

pub fn spells_exec(s: &str, w: &str) -> (r: bool)
    ensures
        r == spells(s@, w@),
{
    let a = chars_of(s);
    let b = chars_of(w);
    if a.len() != b.len() {
        return false;
    }
    let mut i: usize = 0;
    while i < a.len()
        invariant
            i <= a.len(),
            a.len() == b.len(),
            a@ == s@,
            b@ == w@,
            forall|j: int| 0 <= j < i ==> char_matches_lower(#[trigger] a@[j], b@[j]),
        decreases a.len() - i,
    {
        let n = a[i] as u32;
        let ok = if 65 <= n && n <= 90 { n + 32 == b[i] as u32 } else { a[i] == b[i] };
        if !ok {
            return false;
        }
        i = i + 1;
    }
    true
}

pub fn threshold_rank_exec(setting: &str) -> (r: u8)
    ensures
        r == threshold_rank(setting@),
{
    proof {
        reveal_strlit("info");
        reveal_strlit("critical");
    }
    if spells_exec(setting, "info") {
        0
    } else if spells_exec(setting, "critical") {
        2
    } else {
        1
    }
}

/// The Telegram side of alerting: which alerts pass the configured threshold, which of them
/// wait for delivery, and how far delivery of each incident generation has come.
pub struct Notifier {
    telegram: Option<TelegramAlertSettings>,
    delivery_state: DeliveryState,
    rate_limit_until: Option<u64>,
    started: std::time::Instant,
}

/// An alert of `severity` passes the threshold of the given settings.
pub open spec fn passes(telegram: Option<TelegramAlertSettings>, severity: AlertSeverity) -> bool {
    match telegram {
        Some(tg) => severity.rank_spec() >= threshold_rank(tg.min_severity@),
        None => false,
    }
}

impl Notifier {
    /// The delivery bookkeeping.
    pub closed spec fn state(&self) -> StateView {
        self.delivery_state@
    }

    pub closed spec fn settings(&self) -> Option<TelegramAlertSettings> {
        self.telegram
    }

    /// The end of the current Telegram rate-limit embargo (monotonic ms), if any.
    pub closed spec fn embargo(&self) -> Option<u64> {
        self.rate_limit_until
    }

    pub closed spec fn inv(&self) -> bool {
        self.delivery_state.wf()
    }

    /// A notifier for the given Telegram settings (alerting is off without them), with empty
    /// delivery bookkeeping and no rate-limit embargo.
    pub fn new(telegram: Option<TelegramAlertSettings>) -> (r: Notifier)
        ensures
            r.inv(),
            r.settings() == telegram,
            !r.state().is_closed,
            r.state().incidents == Map::<KeyView, IncidentView>::empty(),
            r.state().pending == Map::<IdView, EventView>::empty(),
            r.embargo() is None,
    {
        Notifier { telegram, delivery_state: DeliveryState::new(), rate_limit_until: None, started: instant_now() }
    }

    /// At most 64 alerts ever wait for delivery in a notifier.
    pub proof fn pending_stays_bounded(&self)
        requires
            self.inv(),
        ensures
            self.state().pending.dom().finite(),
            self.state().pending.dom().len() <= MAX_PENDING,
    {
        lemma_assoc_dom(pending_pairs(self.delivery_state.pending@));
        lemma_assoc_len(pending_pairs(self.delivery_state.pending@));
    }

    /// Whether Telegram alerting is configured.
    pub fn is_configured(&self) -> (r: bool)
        ensures
            r == self.settings() is Some,
    {
        self.telegram.is_some()
    }

    /// The Telegram settings.
    pub fn telegram(&self) -> (r: &Option<TelegramAlertSettings>)
        ensures
            *r == self.settings(),
    {
        &self.telegram
    }

    /// The delivery bookkeeping.
    pub fn delivery_state(&self) -> (r: &DeliveryState)
        ensures
            r@ == self.state(),
            self.inv() ==> r.wf(),
    {
        &self.delivery_state
    }

    /// Milliseconds of the notifier's monotonic clock.
    pub fn now_ms(&self) -> u64 {
        elapsed_millis(&self.started)
    }

    /// Whether an alert of `severity` passes the configured threshold.
    pub fn should_alert(&self, severity: AlertSeverity) -> (r: bool)
        ensures
            r == passes(self.settings(), severity),
    {
        match &self.telegram {
            Some(tg) => severity.rank() >= threshold_rank_exec(tg.min_severity.as_str()),
            None => false,
        }
    }

    /// Builds an alert stamped with the current generation of its incident, creating the
    /// incident (at generation zero) if it is new. `timestamp` is the time of the alert as the
    /// caller read it from the clock (RFC 3339).
    pub fn build_alert_event(
        &mut self,
        source: AlertSource,
        target_id: Option<String>,
        severity: AlertSeverity,
        reason_code: AlertReason,
        title: &str,
        message: &str,
        timestamp: &str,
    ) -> (r: AlertEvent)
        requires
            old(self).inv(),
        ensures
            final(self).inv(),
            final(self).settings() == old(self).settings(),
            final(self).embargo() == old(self).embargo(),
            final(self).state() == with_incident(old(self).state(), key_of(r@)),
            r.source == source && opt_view(r.target_id) == opt_view(target_id) && r.severity == severity
                && r.reason_code == reason_code,
            r.title@ == title@ && r.message@ == message@ && r.timestamp@ == timestamp@,
            r.generation == final(self).state().incidents[key_of(r@)].current_generation,
    {
        let key = DeduplicationKey { source, target_id: dup_opt(&target_id), reason_code };
        let idx = self.delivery_state.ensure_incident(&key);
        proof {
            lemma_assoc_index(incident_pairs(self.delivery_state.incidents@), idx as int);
        }
        let generation = self.delivery_state.incidents[idx].1.current_generation;
        AlertEvent {
            source,
            target_id,
            severity,
            reason_code,
            generation,
            title: owned(title),
            message: owned(message),
            timestamp: owned(timestamp),
        }
    }

    /// Admits `event` for delivery at time `now` (monotonic ms) when Telegram is configured and
    /// the event passes the severity threshold; see `DeliveryState::admit_at`.
    pub fn enqueue_alert_at(&mut self, event: AlertEvent, now: u64) -> (r: bool)
        requires
            old(self).inv(),
        ensures
            final(self).inv(),
            final(self).settings() == old(self).settings(),
            final(self).embargo() == old(self).embargo(),
            !passes(old(self).settings(), event@.severity) ==> !r && final(self).state() == old(self).state(),
            passes(old(self).settings(), event@.severity) ==> (r == (admissible(old(self).state(), event@, now)
                && finds_place(old(self).state().pending, event@))),
            passes(old(self).settings(), event@.severity) ==> admission(old(self).state(), final(self).state(), event@, now, r),
    {
        if !self.should_alert(event.severity) {
            return false;
        }
        self.delivery_state.admit_at(event, now)
    }

    /// `enqueue_alert_at` at the current time of the notifier's clock.
    pub fn enqueue_alert(&mut self, event: AlertEvent) -> (r: bool)
        requires
            old(self).inv(),
        ensures
            final(self).inv(),
            final(self).settings() == old(self).settings(),
            exists|now: u64| #[trigger] enqueue_outcome(old(self).settings(), old(self).state(), final(self).state(), event@, now, r),
    {
        let now = self.now_ms();
        let ghost ev = event@;
        let r = self.enqueue_alert_at(event, now);
        assert(enqueue_outcome(old(self).settings(), old(self).state(), self.state(), ev, now, r));
        r
    }

    /// Refuses every later admission.
    pub fn close_admission(&mut self)
        requires
            old(self).inv(),
        ensures
            final(self).inv(),
            final(self).settings() == old(self).settings(),
            final(self).state() == (StateView { is_closed: true, ..old(self).state() }),
    {
        self.delivery_state.is_closed = true;
    }

    /// The next alert to send at time `now`; see `pop_spec`.
    pub fn pop_next_pending_at(&mut self, now: u64) -> (r: Option<AlertEvent>)
        requires
            old(self).inv(),
        ensures
            final(self).inv(),
            final(self).settings() == old(self).settings(),
            final(self).embargo() == old(self).embargo(),
            pop_spec(old(self).state(), final(self).state(), opt_event(r), now),
    {
        self.delivery_state.pop_next_at(now)
    }

    /// `pop_next_pending_at` at the current time of the notifier's clock.
    pub fn pop_next_pending(&mut self) -> (r: Option<AlertEvent>)
        requires
            old(self).inv(),
        ensures
            final(self).inv(),
            final(self).settings() == old(self).settings(),
            exists|now: u64| #[trigger] pop_spec(old(self).state(), final(self).state(), opt_event(r), now),
    {
        let now = self.now_ms();
        self.pop_next_pending_at(now)
    }

    /// Confirms delivery of `event` at time `now`; see `commit_spec`.
    pub fn commit_delivery_at(&mut self, event: &AlertEvent, now: u64) -> (r: bool)
        requires
            old(self).inv(),
        ensures
            final(self).inv(),
            final(self).settings() == old(self).settings(),
            final(self).embargo() == old(self).embargo(),
            (final(self).state(), r) == commit_spec(old(self).state(), event@, now),
    {
        self.delivery_state.commit_delivery_at(event, now)
    }

    /// `commit_delivery_at` at the current time of the notifier's clock.
    pub fn commit_delivery(&mut self, event: &AlertEvent) -> (r: bool)
        requires
            old(self).inv(),
        ensures
            final(self).inv(),
            final(self).settings() == old(self).settings(),
            exists|now: u64| (final(self).state(), r) == #[trigger] commit_spec(old(self).state(), event@, now),
    {
        let now = self.now_ms();
        self.commit_delivery_at(event, now)
    }

    /// A recovered probe starts new incident generations for all its incidents.
    pub fn recover_target(&mut self, target_id: &str)
        requires
            old(self).inv(),
        ensures
            final(self).inv(),
            final(self).settings() == old(self).settings(),
            final(self).embargo() == old(self).embargo(),
            final(self).state() == recover_target_spec(old(self).state(), target_id@),
    {
        self.delivery_state.recover_target(target_id)
    }

    /// A successful advisor call starts a new advisor-unavailable generation.
    pub fn recover_advisor_unavailable(&mut self)
        requires
            old(self).inv(),
        ensures
            final(self).inv(),
            final(self).settings() == old(self).settings(),
            final(self).embargo() == old(self).embargo(),
            final(self).state() == recover_key_spec(old(self).state(), advisor_key()),
    {
        let k = DeduplicationKey { source: AlertSource::LocalRule, target_id: None, reason_code: AlertReason::AdvisorUnavailable };
        self.delivery_state.recover_key(&k)
    }

    /// Normalized risk starts a new elevated-risk generation.
    pub fn recover_risk_elevated(&mut self)
        requires
            old(self).inv(),
        ensures
            final(self).inv(),
            final(self).settings() == old(self).settings(),
            final(self).embargo() == old(self).embargo(),
            final(self).state() == recover_key_spec(old(self).state(), risk_key()),
    {
        let k = DeduplicationKey { source: AlertSource::JevAdvisor, target_id: None, reason_code: AlertReason::RiskElevated };
        self.delivery_state.recover_key(&k)
    }
}

/// What `enqueue_alert_at` promises for an admission at time `now`.
pub open spec fn enqueue_outcome(
    settings: Option<TelegramAlertSettings>,
    old: StateView,
    new: StateView,
    e: EventView,
    now: u64,
    r: bool,
) -> bool {
    &&& !passes(settings, e.severity) ==> !r && new == old
    &&& passes(settings, e.severity) ==> (r == (admissible(old, e, now) && finds_place(old.pending, e)))
    &&& passes(settings, e.severity) ==> admission(old, new, e, now, r)
}

/// The abstract view of an optional event.
pub open spec fn opt_event(r: Option<AlertEvent>) -> Option<EventView> {
    match r {
        Some(e) => Some(e@),
        None => None,
    }
}

/// How admission at `now` moved the bookkeeping from `old` to `new`, answering `r`
/// (the contract of `DeliveryState::admit_at`).
pub open spec fn admission(old: StateView, new: StateView, e: EventView, now: u64, r: bool) -> bool {
    &&& old.is_closed ==> new == old
    &&& !old.is_closed ==> new.incidents == with_incident(old, key_of(e)).incidents && !new.is_closed
    &&& !r ==> new.pending == old.pending
    &&& r && old.pending.contains_key(id_of(e)) ==> new.pending == old.pending.insert(id_of(e), merged(old.pending[id_of(e)], e))
    &&& r && !old.pending.contains_key(id_of(e)) && old.pending.dom().len() < MAX_PENDING ==> new.pending == old.pending.insert(id_of(e), e)
    &&& r && !old.pending.contains_key(id_of(e)) && old.pending.dom().len() >= MAX_PENDING ==> exists|victim: IdView|
        #[trigger] old.pending.contains_key(victim) && old.pending[victim].severity.rank_spec() < e.severity.rank_spec()
        && new.pending == old.pending.remove(victim).insert(id_of(e), e)
}

} // verus!

verus! {

/// The icon that opens an alert of each severity.
pub open spec fn severity_icon(s: AlertSeverity) -> Seq<char> {
    match s {
        AlertSeverity::Info => "ℹ️"@,
        AlertSeverity::Warning => "⚠️"@,
        AlertSeverity::Critical => "🚨"@,
    }
}

/// The severity's name as alerts print it.
pub open spec fn severity_name(s: AlertSeverity) -> Seq<char> {
    match s {
        AlertSeverity::Info => "Info"@,
        AlertSeverity::Warning => "Warning"@,
        AlertSeverity::Critical => "Critical"@,
    }
}

/// The reason's name as alerts print it.
pub open spec fn reason_name(r: AlertReason) -> Seq<char> {
    match r {
        AlertReason::ObservationUnavailable => "ObservationUnavailable"@,
        AlertReason::ServiceCheckFailed => "ServiceCheckFailed"@,
        AlertReason::ServiceDegraded => "ServiceDegraded"@,
        AlertReason::AdvisorUnavailable => "AdvisorUnavailable"@,
        AlertReason::RiskElevated => "RiskElevated"@,
    }
}

impl AlertSeverity {
    pub fn icon(&self) -> (r: &'static str)
        ensures
            r@ == severity_icon(*self),
    {
        match self {
            AlertSeverity::Info => "ℹ️",
            AlertSeverity::Warning => "⚠️",
            AlertSeverity::Critical => "🚨",
        }
    }

    pub fn name(&self) -> (r: &'static str)
        ensures
            r@ == severity_name(*self),
    {
        match self {
            AlertSeverity::Info => "Info",
            AlertSeverity::Warning => "Warning",
            AlertSeverity::Critical => "Critical",
        }
    }
}

impl AlertReason {
    pub fn name(&self) -> (r: &'static str)
        ensures
            r@ == reason_name(*self),
    {
        match self {
            AlertReason::ObservationUnavailable => "ObservationUnavailable",
            AlertReason::ServiceCheckFailed => "ServiceCheckFailed",
            AlertReason::ServiceDegraded => "ServiceDegraded",
            AlertReason::AdvisorUnavailable => "AdvisorUnavailable",
            AlertReason::RiskElevated => "RiskElevated",
        }
    }
}

/// A field shown on one line: single-lined, cut to `max` characters, HTML-escaped.
pub open spec fn inline_html(s: Seq<char>, max: nat) -> Seq<char> {
    escape_html_spec(truncate_spec(single_line_spec(s), max))
}

/// The Telegram HTML text of an alert: a bold title line with the severity icon, the target
/// (when there is one), severity, reason and time lines, an empty line, then the whole message.
/// Every untrusted field is HTML-escaped; a long message is split into messages by the chunker
/// (`split_into_chunks`), never cut.
pub open spec fn format_alert_spec(e: EventView) -> Seq<char> {
    let target = match e.target_id {
        Some(t) => "\n<b>Target:</b> <code>"@ + inline_html(t, 80) + "</code>"@,
        None => Seq::empty(),
    };
    "<b>"@ + severity_icon(e.severity) + " Jev Sentinel: "@ + inline_html(e.title, 80) + "</b>"@ + target
        + "\n<b>Severity:</b> "@ + severity_name(e.severity) + "\n<b>Reason:</b> "@ + reason_name(e.reason_code)
        + "\n<b>Timestamp:</b> "@ + e.timestamp + "\n\n"@ + escape_html_spec(e.message)
}

/// An alert carries its whole message: the text ends, after a blank line, with the message
/// HTML-escaped, which reads back as the message itself; it opens with the bold icon of its
/// severity. Reasons and severities are written under names of their own.
pub proof fn alerts_carry_their_message_whole(e: EventView, r1: AlertReason, r2: AlertReason, s1: AlertSeverity, s2: AlertSeverity)
    ensures
        ({
            let t = format_alert_spec(e);
            let m = escape_html_spec(e.message);
            &&& t.len() >= m.len() + 2
            &&& t.skip(t.len() - m.len()) == m
            &&& unescape_html(t.skip(t.len() - m.len())) == e.message
            &&& t[t.len() - m.len() - 1] == '\n' && t[t.len() - m.len() - 2] == '\n'
            &&& t.take(3 + severity_icon(e.severity).len() as int) == seq!['<', 'b', '>'] + severity_icon(e.severity)
        }),
        reason_name(r1) == reason_name(r2) ==> r1 == r2,
        severity_name(s1) == severity_name(s2) ==> s1 == s2,
{
    let t = format_alert_spec(e);
    let m = escape_html_spec(e.message);
    reveal_strlit("\n\n");
    reveal_strlit("<b>");
    let target = match e.target_id {
        Some(tg) => "\n<b>Target:</b> <code>"@ + inline_html(tg, 80) + "</code>"@,
        None => Seq::<char>::empty(),
    };
    let front = "<b>"@ + severity_icon(e.severity) + " Jev Sentinel: "@ + inline_html(e.title, 80) + "</b>"@ + target
        + "\n<b>Severity:</b> "@ + severity_name(e.severity) + "\n<b>Reason:</b> "@ + reason_name(e.reason_code)
        + "\n<b>Timestamp:</b> "@ + e.timestamp;
    assert(t =~= front + "\n\n"@ + m);
    assert(t.skip(t.len() - m.len()) =~= m);
    assert(t[t.len() - m.len() - 1] == ("\n\n"@)[1]);
    assert(t[t.len() - m.len() - 2] == ("\n\n"@)[0]);
    assert(t.take(3 + severity_icon(e.severity).len() as int) =~= seq!['<', 'b', '>'] + severity_icon(e.severity));
    crate::text::escaping_is_safe_and_reversible(e.message);
    reveal_strlit("ObservationUnavailable");
    reveal_strlit("ServiceCheckFailed");
    reveal_strlit("ServiceDegraded");
    reveal_strlit("AdvisorUnavailable");
    reveal_strlit("RiskElevated");
    reveal_strlit("Info");
    reveal_strlit("Warning");
    reveal_strlit("Critical");
    if reason_name(r1) == reason_name(r2) && r1 != r2 {
        assert(reason_name(r1)[0] == reason_name(r2)[0] && reason_name(r1).len() == reason_name(r2).len());
    }
    if severity_name(s1) == severity_name(s2) && s1 != s2 {
        assert(severity_name(s1)[0] == severity_name(s2)[0]);
    }
}

/// Renders an alert as Telegram HTML (see `format_alert_spec`).
pub fn format_alert_event(event: &AlertEvent) -> (r: String)
    ensures
        r@ == format_alert_spec(event@),
{
    let mut out = owned("<b>");
    out.append(event.severity.icon());
    out.append(" Jev Sentinel: ");
    let title = escape_html(sanitize_inline_field(event.title.as_str(), 80).as_str());
    out.append(title.as_str());
    out.append("</b>");
    let ghost head = out@;
    match &event.target_id {
        Some(t) => {
            let shown = escape_html(sanitize_inline_field(t.as_str(), 80).as_str());
            out.append("\n<b>Target:</b> <code>");
            out.append(shown.as_str());
            out.append("</code>");
        },
        None => {},
    }
    out.append("\n<b>Severity:</b> ");
    out.append(event.severity.name());
    out.append("\n<b>Reason:</b> ");
    out.append(event.reason_code.name());
    out.append("\n<b>Timestamp:</b> ");
    out.append(event.timestamp.as_str());
    out.append("\n\n");
    let body = escape_html(event.message.as_str());
    out.append(body.as_str());
    proof {
        let e = event@;
        let target = match e.target_id {
            Some(t) => "\n<b>Target:</b> <code>"@ + inline_html(t, 80) + "</code>"@,
            None => Seq::<char>::empty(),
        };
        assert(out@ =~= format_alert_spec(e));
    }
    out
}

/// A probe's line in the telemetry summary of an advisor decision; the latency comes already
/// written out (in milliseconds, one decimal).
pub struct SummaryLine {
    pub status: TargetStatus,
    pub name: String,
    pub target_type: String,
    pub latency_ms: String,
    pub error: Option<String>,
}

pub struct SummaryLineView {
    pub status: TargetStatus,
    pub name: Seq<char>,
    pub target_type: Seq<char>,
    pub latency_ms: Seq<char>,
    pub error: Option<Seq<char>>,
}

impl View for SummaryLine {
    type V = SummaryLineView;

    open spec fn view(&self) -> SummaryLineView {
        SummaryLineView {
            status: self.status,
            name: self.name@,
            target_type: self.target_type@,
            latency_ms: self.latency_ms@,
            error: opt_view(self.error),
        }
    }
}

/// The icon that opens a decision message of each health.
pub open spec fn health_icon(health: Seq<char>) -> Seq<char> {
    if health == "healthy"@ { "✅"@ } else if health == "degraded"@ { "⚠️"@ } else if health == "critical"@ { "🚨"@ } else { "ℹ️"@ }
}

/// The mark of a probe's status in the telemetry summary.
pub open spec fn status_mark(s: TargetStatus) -> Seq<char> {
    match s {
        TargetStatus::Online => "🟢"@,
        TargetStatus::Degraded => "🟡"@,
        TargetStatus::Unreachable => "🔴"@,
        TargetStatus::Timeout => "⏱️"@,
        TargetStatus::Unknown => "❔"@,
    }
}

/// The summary marks tell probe runs apart: no two statuses share a mark; an online run is
/// green, a degraded one yellow and an unreachable one red.
pub proof fn summary_marks_tell_statuses_apart(a: TargetStatus, b: TargetStatus)
    ensures
        status_mark(a) == status_mark(b) ==> a == b,
        status_mark(TargetStatus::Online) == seq!['🟢'],
        status_mark(TargetStatus::Degraded) == seq!['🟡'],
        status_mark(TargetStatus::Unreachable) == seq!['🔴'],
{
    reveal_strlit("🟢");
    reveal_strlit("🟡");
    reveal_strlit("🔴");
    reveal_strlit("⏱️");
    reveal_strlit("❔");
    if status_mark(a) == status_mark(b) && a != b {
        assert(status_mark(a)[0] == status_mark(b)[0]);
    }
}

/// Severities and healths are told apart by their icons: no two severities share an icon, a
/// healthy, degraded and critical decision each get their own, and any other health gets the
/// informational one.
pub proof fn icons_tell_severities_and_healths_apart(a: AlertSeverity, b: AlertSeverity, h: Seq<char>)
    ensures
        severity_icon(a) == severity_icon(b) ==> a == b,
        severity_icon(AlertSeverity::Critical) == seq!['🚨'],
        health_icon("healthy"@) == seq!['✅'],
        health_icon("critical"@) == seq!['🚨'],
        health_icon("degraded"@) == severity_icon(AlertSeverity::Warning),
        h != "healthy"@ && h != "degraded"@ && h != "critical"@ ==> health_icon(h) == severity_icon(AlertSeverity::Info),
        health_icon("healthy"@) != health_icon("degraded"@) && health_icon("degraded"@) != health_icon("critical"@)
            && health_icon("healthy"@) != health_icon("critical"@),
{
    reveal_strlit("ℹ️");
    reveal_strlit("⚠️");
    reveal_strlit("🚨");
    reveal_strlit("✅");
    reveal_strlit("healthy");
    reveal_strlit("degraded");
    reveal_strlit("critical");
    if severity_icon(a) == severity_icon(b) && a != b {
        assert(severity_icon(a)[0] == severity_icon(b)[0]);
    }
    assert("critical"@[0] != "degraded"@[0]);
    assert("critical"@ != "degraded"@ && "critical"@ != "healthy"@ && "degraded"@ != "healthy"@);
    assert(health_icon("healthy"@)[0] != health_icon("degraded"@)[0]);
}

/// A probe's summary line (and its error line, if any), each after a line break.
pub open spec fn summary_line_spec(t: SummaryLineView) -> Seq<char> {
    let error = match t.error {
        Some(e) => "\n  <i>Error:</i> <code>"@ + inline_html(e, 180) + "</code>"@,
        None => Seq::empty(),
    };
    "\n• "@ + status_mark(t.status) + " <b>"@ + inline_html(t.name, 60) + "</b> ("@ + inline_html(t.target_type, 30)
        + "): "@ + t.latency_ms + "ms"@ + error
}

pub open spec fn summary_spec(ts: Seq<SummaryLineView>) -> Seq<char>
    decreases ts.len(),
{
    if ts.len() == 0 { Seq::empty() } else { summary_spec(ts.drop_last()) + summary_line_spec(ts.last()) }
}

pub open spec fn summary_view(ts: Seq<SummaryLine>) -> Seq<SummaryLineView> {
    ts.map_values(|t: SummaryLine| t@)
}

/// The Telegram HTML text of an advisor decision: a bold title with the health's icon and the
/// health in capitals, the risk score, the suggested action, the confidence when the advisor
/// gave one, then a summary line per probe. The numbers come already written out; every
/// untrusted text is single-lined, cut and HTML-escaped.
pub open spec fn decision_message_spec(
    health: Seq<char>,
    health_caps: Seq<char>,
    risk: Seq<char>,
    action: Seq<char>,
    confidence_pct: Option<Seq<char>>,
    targets: Seq<SummaryLineView>,
) -> Seq<char> {
    let confidence = match confidence_pct {
        Some(c) => "\n<b>Confidence:</b> "@ + c + "%"@,
        None => Seq::empty(),
    };
    "<b>"@ + health_icon(health) + " Jev Sentinel Alert: "@ + inline_html(health_caps, 40) + "</b>"@
        + "\n<b>Risk score:</b> "@ + risk + " / 1.00"@
        + "\n<b>Suggested Action:</b> <code>"@ + inline_html(action, 80) + "</code>"@
        + confidence + "\n\n<b>Target Telemetry Summary:</b>"@ + summary_spec(targets)
}

fn health_icon_of(health: &str) -> (r: &'static str)
    ensures
        r@ == health_icon(health@),
{
    if crate::config::str_eq(health, "healthy") {
        "✅"
    } else if crate::config::str_eq(health, "degraded") {
        "⚠️"
    } else if crate::config::str_eq(health, "critical") {
        "🚨"
    } else {
        "ℹ️"
    }
}

fn status_mark_of(s: TargetStatus) -> (r: &'static str)
    ensures
        r@ == status_mark(s),
{
    match s {
        TargetStatus::Online => "🟢",
        TargetStatus::Degraded => "🟡",
        TargetStatus::Unreachable => "🔴",
        TargetStatus::Timeout => "⏱️",
        TargetStatus::Unknown => "❔",
    }
}

fn inline_html_of(s: &str, max: usize) -> (r: String)
    ensures
        r@ == inline_html(s@, max as nat),
{
    escape_html(sanitize_inline_field(s, max).as_str())
}

/// A probe's lines of the telemetry summary (see `summary_line_spec`).
fn summary_line(t: &SummaryLine) -> (r: String)
    ensures
        r@ == summary_line_spec(t@),
{
    let mut out = owned("\n• ");
    out.append(status_mark_of(t.status));
    out.append(" <b>");
    out.append(inline_html_of(t.name.as_str(), 60).as_str());
    out.append("</b> (");
    out.append(inline_html_of(t.target_type.as_str(), 30).as_str());
    out.append("): ");
    out.append(t.latency_ms.as_str());
    out.append("ms");
    let ghost main = out@;
    match &t.error {
        Some(e) => {
            out.append("\n  <i>Error:</i> <code>");
            out.append(inline_html_of(e.as_str(), 180).as_str());
            out.append("</code>");
        },
        None => {},
    }
    proof {
        let error = match t@.error {
            Some(e) => "\n  <i>Error:</i> <code>"@ + inline_html(e, 180) + "</code>"@,
            None => Seq::<char>::empty(),
        };
        assert(out@ =~= main + error);
        assert(out@ =~= summary_line_spec(t@));
    }
    out
}

/// Renders an advisor decision as Telegram HTML (see `decision_message_spec`).
pub fn format_decision_message(
    health: &str,
    health_caps: &str,
    risk: &str,
    action: &str,
    confidence_pct: &Option<String>,
    targets: &Vec<SummaryLine>,
) -> (r: String)
    ensures
        r@ == decision_message_spec(health@, health_caps@, risk@, action@, opt_view(*confidence_pct), summary_view(targets@)),
{
    let mut out = owned("<b>");
    out.append(health_icon_of(health));
    out.append(" Jev Sentinel Alert: ");
    out.append(inline_html_of(health_caps, 40).as_str());
    out.append("</b>");
    out.append("\n<b>Risk score:</b> ");
    out.append(risk);
    out.append(" / 1.00");
    out.append("\n<b>Suggested Action:</b> <code>");
    out.append(inline_html_of(action, 80).as_str());
    out.append("</code>");
    match confidence_pct {
        Some(c) => {
            out.append("\n<b>Confidence:</b> ");
            out.append(c.as_str());
            out.append("%");
        },
        None => {},
    }
    out.append("\n\n<b>Target Telemetry Summary:</b>");
    let ghost head = out@;
    proof {
        let confidence = match opt_view(*confidence_pct) {
            Some(c) => "\n<b>Confidence:</b> "@ + c + "%"@,
            None => Seq::<char>::empty(),
        };
        assert(head =~= decision_message_spec(health@, health_caps@, risk@, action@, opt_view(*confidence_pct), Seq::empty()));
    }
    let mut i: usize = 0;
    while i < targets.len()
        invariant
            i <= targets.len(),
            out@ == head + summary_spec(summary_view(targets@).take(i as int)),
        decreases targets.len() - i,
    {
        let t = &targets[i];
        let ghost before = out@;
        let line = summary_line(t);
        out.append(line.as_str());
        proof {
            let v = summary_view(targets@);
            assert(v.take(i + 1).drop_last() =~= v.take(i as int));
            assert(v.take(i + 1).last() == t@);
        }
        i = i + 1;
    }
    assert(summary_view(targets@).take(targets.len() as int) =~= summary_view(targets@));
    out
}

impl Notifier {
    /// Renders an alert as Telegram HTML.
    pub fn format_alert_event(&self, event: &AlertEvent) -> (r: String)
        ensures
            r@ == format_alert_spec(event@),
    {
        format_alert_event(event)
    }
}

} // verus!

verus! {

/// Where a delivery of an event's message stands before sending.
pub enum DeliveryStart {
    /// Earlier deliveries of this generation gave up; nothing is sent.
    Exhausted,
    /// Every chunk of this exact message was already confirmed.
    AlreadyDelivered,
    /// Sending resumes at this chunk.
    From(usize),
}

/// `rec` prepared for sending a message whose chunk plan hashes to `hash`: a different plan
/// restarts chunk progress.
pub open spec fn planned(rec: GenerationRecord, hash: u64) -> GenerationRecord {
    if rec.plan_hash != hash {
        GenerationRecord { plan_hash: hash, confirmed_chunks: 0, ..rec }
    } else {
        rec
    }
}

/// The record an event's generation has in `s`, or an empty one.
pub open spec fn record_or_empty(s: StateView, k: KeyView, g: u64) -> GenerationRecord {
    match record_of(s, k, g) {
        Some(r) => r,
        None => GenerationRecord::empty_spec(),
    }
}

/// `s` with the record of generation `g` of the existing incident `k` set to `rec`.
pub open spec fn with_record(s: StateView, k: KeyView, g: u64, rec: GenerationRecord) -> StateView {
    StateView {
        incidents: s.incidents.insert(k, IncidentView { records: s.incidents[k].records.insert(g, rec), ..s.incidents[k] }),
        ..s
    }
}

/// Starting delivery of `e` as `count` chunks whose plan hashes to `hash`: an exhausted
/// generation sends nothing; otherwise the record keeps the plan and the confirmed-chunk count
/// of an unchanged plan, and sending resumes after the confirmed chunks.
pub open spec fn begin_spec(s: StateView, e: EventView, count: nat, hash: u64) -> (StateView, DeliveryStart) {
    let k = key_of(e);
    if !s.incidents.contains_key(k) {
        (s, if count == 0 { DeliveryStart::AlreadyDelivered } else { DeliveryStart::From(0) })
    } else {
        let rec = record_or_empty(s, k, e.generation);
        if rec.exhausted {
            (with_record(s, k, e.generation, rec), DeliveryStart::Exhausted)
        } else {
            let p = planned(rec, hash);
            (
                with_record(s, k, e.generation, p),
                if p.confirmed_chunks >= count { DeliveryStart::AlreadyDelivered } else { DeliveryStart::From(p.confirmed_chunks) },
            )
        }
    }
}

/// After a chunk is confirmed, the generation's record counts `confirmed` chunks.
pub open spec fn confirm_spec(s: StateView, e: EventView, confirmed: usize) -> StateView {
    let k = key_of(e);
    if !s.incidents.contains_key(k) {
        s
    } else {
        let rec = record_or_empty(s, k, e.generation);
        with_record(s, k, e.generation, GenerationRecord { confirmed_chunks: confirmed, ..rec })
    }
}

/// After the last attempt failed, the generation's record counts three more attempts
/// (saturating) and is exhausted from three attempts on.
pub open spec fn give_up_spec(s: StateView, e: EventView) -> StateView {
    let k = key_of(e);
    if !s.incidents.contains_key(k) {
        s
    } else {
        let rec = record_or_empty(s, k, e.generation);
        let attempts = if rec.attempts + 3 > usize::MAX { usize::MAX as int } else { rec.attempts + 3 };
        with_record(s, k, e.generation, GenerationRecord { attempts: attempts as usize, exhausted: rec.exhausted || attempts >= 3, ..rec })
    }
}

impl DeliveryState {
    /// Sets the record of generation `g` of the incident at position `i` to `rec`.
    fn store_record(&mut self, i: usize, g: u64, rec: GenerationRecord)
        requires
            old(self).wf(),
            i < old(self).incidents@.len(),
        ensures
            final(self).wf(),
            final(self)@ == with_record(old(self)@, incident_pairs(old(self).incidents@)[i as int].0, g, rec),
    {
        proof {
            lemma_assoc_index(incident_pairs(self.incidents@), i as int);
        }
        let ghost before = self.incidents@;
        let mut pair = self.incidents.remove(i);
        assert(pair.1.wf()) by {
            assert(pair == before[i as int]);
        }
        pair.1.put_record(g, rec);
        self.incidents.insert(i, pair);
        proof {
            assert(self.incidents@ =~= before.update(i as int, pair));
            lemma_incident_pairs_update(before, i as int, pair);
            lemma_assoc_update(incident_pairs(before), i as int, pair.1@);
            assert(pair.1@ == (IncidentView { records: old(self)@.incidents[incident_pairs(before)[i as int].0].records.insert(g, rec), ..old(self)@.incidents[incident_pairs(before)[i as int].0] }));
        }
    }

    /// The record of generation `g` of the incident at position `i`, or an empty one.
    fn record_at(&self, i: usize, g: u64) -> (r: GenerationRecord)
        requires
            self.wf(),
            i < self.incidents@.len(),
        ensures
            r == record_or_empty(self@, incident_pairs(self.incidents@)[i as int].0, g),
    {
        proof {
            lemma_assoc_index(incident_pairs(self.incidents@), i as int);
        }
        assert(self.incidents@[i as int].1.wf());
        self.incidents[i].1.record_or_empty(g)
    }
}

impl Notifier {
    /// Splits `message_text` into the chunks Telegram accepts and prepares their delivery for
    /// `event`: the hash of the chunk plan tells a changed message, which starts again from its
    /// first chunk, from a repeated one, which resumes after the chunks already confirmed.
    pub fn plan_delivery(&mut self, event: &AlertEvent, message_text: &str) -> (r: (Vec<String>, DeliveryStart))
        requires
            old(self).inv(),
        ensures
            final(self).inv(),
            final(self).settings() == old(self).settings(),
            final(self).embargo() == old(self).embargo(),
            crate::text::strings_view(r.0@) == crate::text::chunks_spec(message_text@),
            (final(self).state(), r.1) == begin_spec(
                old(self).state(),
                event@,
                crate::text::chunks_spec(message_text@).len(),
                chunks_hash(crate::text::chunks_spec(message_text@)),
            ),
    {
        let chunks = crate::text::split_into_chunks(message_text);
        let hash = compute_chunks_hash(&chunks);
        let start = self.begin_delivery(event, chunks.len(), hash);
        (chunks, start)
    }

    /// Prepares delivery of `event` as `count` chunks whose plan hashes to `hash` (see
    /// `begin_spec`).
    pub fn begin_delivery(&mut self, event: &AlertEvent, count: usize, hash: u64) -> (r: DeliveryStart)
        requires
            old(self).inv(),
        ensures
            final(self).inv(),
            final(self).settings() == old(self).settings(),
            final(self).embargo() == old(self).embargo(),
            (final(self).state(), r) == begin_spec(old(self).state(), event@, count as nat, hash),
    {
        let k = event.key();
        proof {
            lemma_assoc_dom(incident_pairs(self.delivery_state.incidents@));
        }
        match self.delivery_state.find_incident(&k) {
            None => if count == 0 { DeliveryStart::AlreadyDelivered } else { DeliveryStart::From(0) },
            Some(i) => {
                proof {
                    lemma_assoc_index(incident_pairs(self.delivery_state.incidents@), i as int);
                }
                let rec = self.delivery_state.record_at(i, event.generation);
                if rec.exhausted {
                    self.delivery_state.store_record(i, event.generation, rec);
                    DeliveryStart::Exhausted
                } else {
                    let p = if rec.plan_hash != hash {
                        GenerationRecord { plan_hash: hash, confirmed_chunks: 0, ..rec }
                    } else {
                        rec
                    };
                    self.delivery_state.store_record(i, event.generation, p);
                    if p.confirmed_chunks >= count { DeliveryStart::AlreadyDelivered } else { DeliveryStart::From(p.confirmed_chunks) }
                }
            },
        }
    }

    /// Records that `confirmed` chunks of `event`'s message are delivered.
    pub fn confirm_chunks(&mut self, event: &AlertEvent, confirmed: usize)
        requires
            old(self).inv(),
        ensures
            final(self).inv(),
            final(self).settings() == old(self).settings(),
            final(self).embargo() == old(self).embargo(),
            final(self).state() == confirm_spec(old(self).state(), event@, confirmed),
    {
        let k = event.key();
        proof {
            lemma_assoc_dom(incident_pairs(self.delivery_state.incidents@));
        }
        match self.delivery_state.find_incident(&k) {
            None => {},
            Some(i) => {
                proof {
                    lemma_assoc_index(incident_pairs(self.delivery_state.incidents@), i as int);
                }
                let rec = self.delivery_state.record_at(i, event.generation);
                self.delivery_state.store_record(i, event.generation, GenerationRecord { confirmed_chunks: confirmed, ..rec });
            },
        }
    }

    /// Records that all attempts to deliver `event` failed.
    pub fn give_up_delivery(&mut self, event: &AlertEvent)
        requires
            old(self).inv(),
        ensures
            final(self).inv(),
            final(self).settings() == old(self).settings(),
            final(self).embargo() == old(self).embargo(),
            final(self).state() == give_up_spec(old(self).state(), event@),
    {
        let k = event.key();
        proof {
            lemma_assoc_dom(incident_pairs(self.delivery_state.incidents@));
        }
        match self.delivery_state.find_incident(&k) {
            None => {},
            Some(i) => {
                proof {
                    lemma_assoc_index(incident_pairs(self.delivery_state.incidents@), i as int);
                }
                let rec = self.delivery_state.record_at(i, event.generation);
                let attempts = rec.attempts.saturating_add(3);
                let exhausted = rec.exhausted || attempts >= 3;
                self.delivery_state.store_record(i, event.generation, GenerationRecord { attempts, exhausted, ..rec });
            },
        }
    }

    /// Extends the Telegram rate-limit embargo to at least `wait_sec` seconds after `now`.
    pub fn record_rate_limit_at(&mut self, wait_sec: u64, now: u64)
        requires
            old(self).inv(),
            now + wait_sec * 1000 <= u64::MAX,
        ensures
            final(self).inv(),
            final(self).settings() == old(self).settings(),
            final(self).state() == old(self).state(),
            final(self).embargo() == Some(match old(self).embargo() {
                Some(old_until) => if old_until >= now + wait_sec * 1000 { old_until } else { (now + wait_sec * 1000) as u64 },
                None => (now + wait_sec * 1000) as u64,
            }),
    {
        let deadline = now + wait_sec * 1000;
        self.rate_limit_until = Some(match self.rate_limit_until {
            Some(old_until) => if old_until >= deadline { old_until } else { deadline },
            None => deadline,
        });
    }

    /// How long (ms) sending must still wait at `now` under the rate-limit embargo.
    pub fn rate_limit_wait_at(&self, now: u64) -> (r: Option<u64>)
        ensures
            r == (match self.embargo() {
                Some(until) => if until > now { Some((until - now) as u64) } else { None },
                None => None,
            }),
    {
        match self.rate_limit_until {
            Some(until) => if until > now { Some(until - now) } else { None },
            None => None,
        }
    }
}

/// Seconds that Telegram asks to wait in a 429 reply (`parameters.retry_after` of the JSON
/// body), as `serde_json` reads it.
pub uninterp spec fn telegram_retry_after(body: Seq<char>) -> Option<u64>;

/// Parses a Telegram error body with `serde_json::from_str` and reads its
/// `parameters.retry_after` number as `u64` (`Value::get`, `Value::as_u64`). The contract only
/// names the result: it is a function of the body text alone.
#[verifier::external_body]
fn parse_retry_after(body: &str) -> (r: Option<u64>)
    ensures
        r == telegram_retry_after(body@),
{
    serde_json::from_str::<serde_json::Value>(body).ok().and_then(|v| v.get("parameters")?.get("retry_after")?.as_u64())
}

/// Seconds to wait after a 429 reply: what Telegram asked for, or 5 when it did not say.
pub fn retry_after_or_default(parsed: Option<u64>) -> (r: u64)
    ensures
        r == (match parsed {
            Some(s) => s,
            None => 5,
        }),
{
    match parsed {
        Some(s) => s,
        None => 5,
    }
}

/// What the sender of a chunk does with Telegram's reply to one request.
#[derive(Debug, Clone, Copy, PartialEq, Eq, Structural)]
pub enum ReplyAction {
    /// 429: the wait Telegram asks for is recorded as a rate-limit embargo, and this attempt
    /// fails.
    RateLimited,
    /// 400 to the HTML request: once any rate-limit embargo has passed, the same chunk is sent
    /// again as plain text.
    RetryPlain,
    /// Any other reply: it confirms the chunk when it is a success whose body says `"ok": true`.
    Check,
}

/// The action for a reply with `status` to a request sent as HTML (`plain` false) or as
/// plain text (`plain` true).
pub fn reply_action(status: u16, plain: bool) -> (r: ReplyAction)
    ensures
        r == (if status == 429 {
            ReplyAction::RateLimited
        } else if status == 400 && !plain {
            ReplyAction::RetryPlain
        } else {
            ReplyAction::Check
        }),
{
    if status == 429 {
        ReplyAction::RateLimited
    } else if status == 400 && !plain {
        ReplyAction::RetryPlain
    } else {
        ReplyAction::Check
    }
}

/// Whether a reply confirms its chunk: a 2xx status and a body whose `ok` field is `true`.
pub fn reply_confirms(status: u16, ok: Option<bool>) -> (r: bool)
    ensures
        r == (200 <= status <= 299 && ok == Some(true)),
{
    200 <= status && status <= 299 && match ok {
        Some(b) => b,
        None => false,
    }
}

/// Seconds to wait after a 429 reply with this body.
pub fn extract_retry_after(body: &str) -> (r: u64)
    ensures
        r == (match telegram_retry_after(body@) {
            Some(s) => s,
            None => 5,
        }),
{
    retry_after_or_default(parse_retry_after(body))
}

/// Progress of one delivery: chunks confirmed so far and the attempt under way (of three).
pub struct DeliveryRun {
    pub total: usize,
    pub confirmed: usize,
    pub attempt: usize,
}

/// What to do next in a delivery.
pub enum DeliveryStep {
    /// Send this chunk.
    SendChunk(usize),
    /// Wait 250 ms, then retry from the first unconfirmed chunk.
    Backoff,
    /// Every chunk is confirmed.
    Delivered,
    /// The third attempt failed.
    GiveUp,
}

impl DeliveryRun {
    /// A delivery of `total` chunks of which the first `confirmed` are already confirmed.
    pub fn start(total: usize, confirmed: usize) -> (r: DeliveryRun)
        ensures
            r.total == total && r.confirmed == confirmed && r.attempt == 0,
    {
        DeliveryRun { total, confirmed, attempt: 0 }
    }

    /// The next chunk to send, or completion.
    pub fn next(&self) -> (r: DeliveryStep)
        ensures
            self.confirmed >= self.total ==> r is Delivered,
            self.confirmed < self.total ==> r == DeliveryStep::SendChunk(self.confirmed),
    {
        if self.confirmed >= self.total { DeliveryStep::Delivered } else { DeliveryStep::SendChunk(self.confirmed) }
    }

    /// The chunk just sent was confirmed.
    pub fn on_confirmed(&mut self)
        requires
            old(self).confirmed < old(self).total,
        ensures
            final(self).confirmed == old(self).confirmed + 1,
            final(self).total == old(self).total,
            final(self).attempt == old(self).attempt,
    {
        self.confirmed = self.confirmed + 1;
    }

    /// The chunk just sent failed: retry after a pause, unless this was the third attempt.
    pub fn on_failure(&mut self) -> (r: DeliveryStep)
        ensures
            final(self).confirmed == old(self).confirmed,
            final(self).total == old(self).total,
            old(self).attempt < 2 ==> r is Backoff && final(self).attempt == old(self).attempt + 1,
            old(self).attempt >= 2 ==> r is GiveUp && final(self).attempt == old(self).attempt,
    {
        if self.attempt < 2 {
            self.attempt = self.attempt + 1;
            DeliveryStep::Backoff
        } else {
            DeliveryStep::GiveUp
        }
    }
}


/// The hash of a chunk plan, as `BuildHasherDefault<DefaultHasher>::hash_one` computes it over
/// the chunk list.
pub uninterp spec fn chunks_hash(chunks: Seq<Seq<char>>) -> u64;

/// Hashes the chunks of a message with `BuildHasher::hash_one` of the standard library's
/// `BuildHasherDefault<DefaultHasher>`, whose hashers start from fixed keys; the contract only
/// names the result, a function of the chunk texts alone.
#[verifier::external_body]
fn compute_chunks_hash(chunks: &Vec<String>) -> (r: u64)
    ensures
        r == chunks_hash(crate::text::strings_view(chunks@)),
{
    let builder = std::hash::BuildHasherDefault::<std::collections::hash_map::DefaultHasher>::default();
    std::hash::BuildHasher::hash_one(&builder, chunks.as_slice())
}

} // verus!
