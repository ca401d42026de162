//! Bounded numeric history: a fixed-capacity ring of samples per probe.
use vstd::prelude::*;
use crate::assoc::{assoc_map, keys_unique, lemma_assoc_dom, lemma_assoc_index, lemma_assoc_update, lemma_assoc_push, lemma_assoc_remove};

verus! {

/// Samples kept per probe.
pub const HISTORY_CAPACITY: usize = 128;
/// Samples the dashboard API shows per probe.
pub const VISIBLE_SAMPLES: usize = 20;
/// `Sample::valid` bit: latency was measured.
pub const LATENCY: u16 = 1;
/// `Sample::valid` bit: available memory was reported.
pub const AVAILABLE: u16 = 2;
/// `Sample::valid` bit: used swap was reported.
pub const SWAP: u16 = 4;
/// `Sample::valid` bit: CPU load was reported.
pub const CPU: u16 = 8;
/// `Sample::valid` bit: RAM use was reported.
pub const RAM: u16 = 16;

/// One observation of a probe in fixed-point numbers; `valid` says which fields were measured.
#[derive(Clone, Copy, Default, Debug)]
pub struct Sample {
    pub t_ms: u64,
    pub latency_us: u32,
    pub available_mib: u32,
    pub swap_used_mib: u32,
    pub swapout_kib_s: u32,
    pub io_await_us: u32,
    pub io_queue_milli: u32,
    pub cpu_bp: u16,
    pub ram_used_bp: u16,
    pub valid: u16,
    pub pressure: u8,
    pub status: u8,
}

/// The last `N` values pushed, oldest first.
pub struct Ring<T: Copy, const N: usize> {
    slots: Vec<T>,
    next: usize,
}

/// The items of a ring of capacity `n` after `value` is pushed: appended, the oldest dropped
/// when the ring was full.
pub open spec fn pushed<T>(items: Seq<T>, value: T, n: nat) -> Seq<T> {
    if items.len() < n { items.push(value) } else { items.drop_first().push(value) }
}

/// The items of a ring of capacity `n` that started empty and received `values`, in order.
pub open spec fn after_pushes<T>(values: Seq<T>, n: nat) -> Seq<T>
    decreases values.len(),
{
    if values.len() == 0 {
        Seq::empty()
    } else {
        pushed(after_pushes(values.drop_last(), n), values.last(), n)
    }
}

/// The newest `min(count, len)` items, oldest first.
pub open spec fn newest_items<T>(items: Seq<T>, count: nat) -> Seq<T> {
    items.skip(items.len() - (if count < items.len() { count as int } else { items.len() as int }))
}

/// A ring remembers the last pushes: after `m` values are pushed into an empty ring of
/// capacity `n`, it holds the last `min(m, n)` of them, oldest first, and its newest `k`
/// items are the last `min(k, m, n)` values pushed.
pub proof fn ring_keeps_the_last_pushes<T>(values: Seq<T>, n: nat, k: nat)
    requires
        n > 0,
    ensures
        after_pushes(values, n) == values.skip(values.len() - (if values.len() < n { values.len() as int } else { n as int })),
        newest_items(after_pushes(values, n), k) == values.skip(values.len() - (if k < values.len() && k < n {
            k as int
        } else if values.len() < n {
            values.len() as int
        } else {
            n as int
        })),
    decreases values.len(),
{
    let m = values.len();
    if m > 0 {
        ring_keeps_the_last_pushes(values.drop_last(), n, k);
        let before = after_pushes(values.drop_last(), n);
        if m - 1 < n {
            assert(values.drop_last().skip(0) =~= values.drop_last());
            assert(before.push(values.last()) =~= values);
            assert(values.skip(0) =~= values);
        } else {
            assert(before.drop_first().push(values.last()) =~= values.skip(m - n));
        }
    }
    let items = after_pushes(values, n);
    let c: int = if k < values.len() && k < n { k as int } else if values.len() < n { values.len() as int } else { n as int };
    assert(newest_items(items, k) =~= values.skip(m - c));
}

/// Pushing keeps what the ring held: afterwards it holds `min(len + 1, n)` items, and its
/// newest `n` items are its newest `n - 1` items before the push followed by the new value;
/// the oldest item is dropped only when the ring was full.
pub proof fn push_keeps_the_newest<T>(items: Seq<T>, value: T, n: nat)
    requires
        n > 0,
        items.len() <= n,
    ensures
        pushed(items, value, n).len() == (if items.len() < n { items.len() + 1 } else { n }),
        newest_items(pushed(items, value, n), n) == newest_items(items, (n - 1) as nat).push(value),
{
    let p = pushed(items, value, n);
    if items.len() < n {
        assert(newest_items(items, (n - 1) as nat) =~= items);
        assert(newest_items(p, n) =~= p);
    } else {
        assert(newest_items(items, (n - 1) as nat) =~= items.drop_first());
        assert(newest_items(p, n) =~= p);
    }
}

impl<T: Copy, const N: usize> Ring<T, N> {
    pub closed spec fn wf(&self) -> bool {
        &&& self.slots@.len() <= N
        &&& self.slots@.len() < N ==> self.next == self.slots@.len()
        &&& self.slots@.len() == N ==> (self.next < N || self.next == 0)
    }

    /// The values held, oldest first.
    pub closed spec fn items(&self) -> Seq<T> {
        if self.slots@.len() < N {
            self.slots@
        } else {
            self.slots@.skip(self.next as int) + self.slots@.take(self.next as int)
        }
    }

    pub proof fn lemma_items_bounded(&self)
        requires
            self.wf(),
        ensures
            self.items().len() <= N,
    {
    }

    /// An empty ring.
    pub fn new() -> (r: Self)
        ensures
            r.wf(),
            r.items() == Seq::<T>::empty(),
    {
        Ring { slots: Vec::new(), next: 0 }
    }

    /// Adds `value` as the newest item; when full, the oldest item is dropped.
    pub fn push(&mut self, value: T)
        requires
            N > 0,
            old(self).wf(),
        ensures
            final(self).wf(),
            old(self).items().len() < N ==> final(self).items() == old(self).items().push(value),
            old(self).items().len() == N ==> final(self).items() == old(self).items().drop_first().push(value),
            final(self).items() == pushed(old(self).items(), value, N as nat),
    {
        if self.slots.len() < N {
            self.slots.push(value);
            self.next = if self.slots.len() == N { 0 } else { self.slots.len() };
            proof {
                if self.slots@.len() == N {
                    assert(self.slots@.skip(0) =~= self.slots@);
                    assert(self.slots@.take(0) =~= Seq::<T>::empty());
                    assert(self.items() =~= old(self).items().push(value));
                }
            }
        } else {
            let ghost before = self.slots@;
            let ghost nx = self.next as int;
            self.slots.set(self.next, value);
            self.next = if self.next + 1 == N { 0 } else { self.next + 1 };
            proof {
                let old_items = before.skip(nx) + before.take(nx);
                assert(old(self).items() == old_items);
                assert(self.items() =~= old_items.drop_first().push(value)) by {
                    let s = self.slots@;
                    let nn = self.next as int;
                    assert forall|j: int| 0 <= j < N implies #[trigger] self.items()[j] == old_items.drop_first().push(value)[j] by {
                        if j < N - 1 {
                            assert(old_items.drop_first()[j] == old_items[j + 1]);
                            if nx + 1 + j < N {
                                assert(old_items[j + 1] == before[nx + 1 + j]);
                            } else {
                                assert(old_items[j + 1] == before[nx + 1 + j - N]);
                            }
                        }
                    }
                }
            }
        }
    }

    /// Item `j` of `items()`.
    fn item(&self, j: usize) -> (r: T)
        requires
            self.wf(),
            j < self.items().len(),
        ensures
            r == self.items()[j as int],
    {
        if self.slots.len() < N {
            self.slots[j]
        } else if j < N - self.next {
            self.slots[self.next + j]
        } else {
            self.slots[j - (N - self.next)]
        }
    }

    /// The newest `min(count, len)` items, oldest first.
    pub fn recent(&self, count: usize) -> (r: Vec<T>)
        requires
            self.wf(),
        ensures
            r@ == self.items().skip(self.items().len() - (if count < self.items().len() { count as int } else { self.items().len() as int })),
            r@ == newest_items(self.items(), count as nat),
    {
        let len = if self.slots.len() < N { self.slots.len() } else { N };
        assert(len == self.items().len());
        let take = if count < len { count } else { len };
        let start = len - take;
        let mut out: Vec<T> = Vec::new();
        let mut j = start;
        while j < len
            invariant
                self.wf(),
                len == self.items().len(),
                start <= j <= len,
                out@ == self.items().subrange(start as int, j as int),
            decreases len - j,
        {
            out.push(self.item(j));
            j = j + 1;
            assert(out@ =~= self.items().subrange(start as int, j as int));
        }
        assert(self.items().skip(start as int) =~= self.items().subrange(start as int, len as int));
        out
    }

    /// Number of items held.
    pub fn len(&self) -> (r: usize)
        requires
            self.wf(),
        ensures
            r == self.items().len(),
    {
        if self.slots.len() < N { self.slots.len() } else { N }
    }
}

impl<T: Copy, const N: usize> Default for Ring<T, N> {
    fn default() -> (r: Self)
        ensures
            r.wf(),
            r.items() == Seq::<T>::empty(),
    {
        Ring::new()
    }
}


/// A point of a probe's history as the dashboard API shows it; a value is present only when
/// it was measured. `break_before` marks a gap in observation before this point.
#[derive(PartialEq, Eq, Structural, Clone, Copy, Debug)]
pub struct HistoryPoint {
    pub t_ms: u64,
    pub latency_us: Option<u32>,
    pub ram_used_bp: Option<u16>,
    pub available_mib: Option<u32>,
    pub swap_mib: Option<u32>,
    pub break_before: bool,
}

pub open spec fn bit_if(present: bool, bit: u16) -> u16 {
    if present { bit } else { 0 }
}

impl Sample {
    /// A sample at `t_ms` holding the measured values that are present; `successful` records
    /// whether the run reached its target.
    pub fn from_parts(
        t_ms: u64,
        successful: bool,
        latency_us: Option<u32>,
        available_mib: Option<u32>,
        swap_used_mib: Option<u32>,
        cpu_bp: Option<u16>,
        ram_used_bp: Option<u16>,
    ) -> (r: Sample)
        ensures
            r.t_ms == t_ms,
            r.status == (if successful { 1u8 } else { 0u8 }),
            r.valid == bit_if(latency_us is Some, LATENCY) | bit_if(available_mib is Some, AVAILABLE) | bit_if(
                swap_used_mib is Some,
                SWAP,
            ) | bit_if(cpu_bp is Some, CPU) | bit_if(ram_used_bp is Some, RAM),
            r.latency_us == (match latency_us { Some(v) => v, None => 0 }),
            r.available_mib == (match available_mib { Some(v) => v, None => 0 }),
            r.swap_used_mib == (match swap_used_mib { Some(v) => v, None => 0 }),
            r.cpu_bp == (match cpu_bp { Some(v) => v, None => 0 }),
            r.ram_used_bp == (match ram_used_bp { Some(v) => v, None => 0 }),
            r.swapout_kib_s == 0,
            r.io_await_us == 0,
            r.io_queue_milli == 0,
            r.pressure == 0,
    {
        let l = if latency_us.is_some() { LATENCY } else { 0 };
        let a = if available_mib.is_some() { AVAILABLE } else { 0 };
        let w = if swap_used_mib.is_some() { SWAP } else { 0 };
        let c = if cpu_bp.is_some() { CPU } else { 0 };
        let m = if ram_used_bp.is_some() { RAM } else { 0 };
        Sample {
            t_ms,
            latency_us: match latency_us { Some(v) => v, None => 0 },
            available_mib: match available_mib { Some(v) => v, None => 0 },
            swap_used_mib: match swap_used_mib { Some(v) => v, None => 0 },
            swapout_kib_s: 0,
            io_await_us: 0,
            io_queue_milli: 0,
            cpu_bp: match cpu_bp { Some(v) => v, None => 0 },
            ram_used_bp: match ram_used_bp { Some(v) => v, None => 0 },
            valid: l | a | w | c | m,
            pressure: 0,
            status: if successful { 1 } else { 0 },
        }
    }

    pub open spec fn has(self, bit: u16) -> bool {
        self.valid & bit != 0
    }

    pub open spec fn point_spec(self, break_before: bool) -> HistoryPoint {
        HistoryPoint {
            t_ms: self.t_ms,
            latency_us: if self.has(LATENCY) { Some(self.latency_us) } else { None },
            ram_used_bp: if self.has(RAM) { Some(self.ram_used_bp) } else { None },
            available_mib: if self.has(AVAILABLE) { Some(self.available_mib) } else { None },
            swap_mib: if self.has(SWAP) { Some(self.swap_used_mib) } else { None },
            break_before,
        }
    }

    /// The history point of this sample: each value whose bit is set in `valid`.
    pub fn point(&self, break_before: bool) -> (r: HistoryPoint)
        ensures
            r == self.point_spec(break_before),
    {
        HistoryPoint {
            t_ms: self.t_ms,
            latency_us: if self.valid & LATENCY != 0 { Some(self.latency_us) } else { None },
            ram_used_bp: if self.valid & RAM != 0 { Some(self.ram_used_bp) } else { None },
            available_mib: if self.valid & AVAILABLE != 0 { Some(self.available_mib) } else { None },
            swap_mib: if self.valid & SWAP != 0 { Some(self.swap_used_mib) } else { None },
            break_before,
        }
    }
}

/// A sample's point gives back exactly the values the sample was built from: a measured
/// zero stays a zero, and a value that was not measured stays absent.
pub proof fn point_returns_recorded_values(
    t_ms: u64,
    successful: bool,
    latency_us: Option<u32>,
    available_mib: Option<u32>,
    swap_used_mib: Option<u32>,
    ram_used_bp: Option<u16>,
    cpu_bp: Option<u16>,
    s: Sample,
    gap: bool,
)
    requires
        s.t_ms == t_ms,
        s.valid == bit_if(latency_us is Some, LATENCY) | bit_if(available_mib is Some, AVAILABLE) | bit_if(
            swap_used_mib is Some,
            SWAP,
        ) | bit_if(cpu_bp is Some, CPU) | bit_if(ram_used_bp is Some, RAM),
        s.latency_us == (match latency_us { Some(v) => v, None => 0 }),
        s.available_mib == (match available_mib { Some(v) => v, None => 0 }),
        s.swap_used_mib == (match swap_used_mib { Some(v) => v, None => 0 }),
        s.ram_used_bp == (match ram_used_bp { Some(v) => v, None => 0 }),
    ensures
        s.point_spec(gap) == (HistoryPoint {
            t_ms,
            latency_us,
            ram_used_bp,
            available_mib,
            swap_mib: swap_used_mib,
            break_before: gap,
        }),
{
    let l = bit_if(latency_us is Some, LATENCY);
    let a = bit_if(available_mib is Some, AVAILABLE);
    let w = bit_if(swap_used_mib is Some, SWAP);
    let c = bit_if(cpu_bp is Some, CPU);
    let m = bit_if(ram_used_bp is Some, RAM);
    assert((l == 0 || l == 1) && (a == 0 || a == 2) && (w == 0 || w == 4) && (c == 0 || c == 8) && (m == 0 || m == 16));
    assert((l == 0 || l == 1u16) && (a == 0 || a == 2u16) && (w == 0 || w == 4u16) && (c == 0 || c == 8u16) && (m == 0
        || m == 16u16) ==> ((l | a | w | c | m) & 1u16 != 0) == (l == 1u16) && ((l | a | w | c | m) & 2u16 != 0) == (a
        == 2u16) && ((l | a | w | c | m) & 4u16 != 0) == (w == 4u16) && ((l | a | w | c | m) & 16u16 != 0) == (m
        == 16u16)) by (bit_vector);
}

/// For each point of a history (oldest first), whether the time since the previous point
/// exceeds `stale_after_ms`.
pub open spec fn gap_before(ts: Seq<u64>, i: int, stale_after_ms: u64) -> bool {
    i > 0 && ts[i] > ts[i - 1] && ts[i] - ts[i - 1] > stale_after_ms
}

/// A history marks exactly its long silences: a point is marked as following a gap when, and
/// only when, more than the stale limit passed since the point before it; the first point
/// never is, and each point keeps its sample's time.
pub proof fn gaps_mark_long_silences(samples: Seq<Sample>, stale_after_ms: u64, i: int)
    requires
        0 <= i < samples.len(),
    ensures
        points_spec(samples, stale_after_ms)[i].break_before
            <==> (i > 0 && samples[i].t_ms > samples[i - 1].t_ms + stale_after_ms),
        points_spec(samples, stale_after_ms)[i].t_ms == samples[i].t_ms,
        points_spec(samples, stale_after_ms).len() == samples.len(),
{
    let ts = samples.map_values(|s: Sample| s.t_ms);
    if i > 0 {
        assert(ts[i] == samples[i].t_ms && ts[i - 1] == samples[i - 1].t_ms);
    }
}

/// The points of a history, each marked where observation had a gap before it.
pub fn history_points(samples: &Vec<Sample>, stale_after_ms: u64) -> (r: Vec<HistoryPoint>)
    ensures
        r@.len() == samples@.len(),
        forall|i: int| 0 <= i < samples@.len() ==> #[trigger] r@[i] == samples@[i].point_spec(
            gap_before(samples@.map_values(|s: Sample| s.t_ms), i, stale_after_ms),
        ),
{
    let ghost ts = samples@.map_values(|s: Sample| s.t_ms);
    let mut out: Vec<HistoryPoint> = Vec::new();
    let mut i: usize = 0;
    while i < samples.len()
        invariant
            i <= samples.len(),
            ts == samples@.map_values(|s: Sample| s.t_ms),
            out@.len() == i,
            forall|j: int| 0 <= j < i ==> #[trigger] out@[j] == samples@[j].point_spec(gap_before(ts, j, stale_after_ms)),
        decreases samples.len() - i,
    {
        let gap = i > 0 && samples[i].t_ms > samples[i - 1].t_ms && samples[i].t_ms - samples[i - 1].t_ms > stale_after_ms;
        assert(gap == gap_before(ts, i as int, stale_after_ms));
        out.push(samples[i].point(gap));
        i = i + 1;
    }
    out
}


// ---------------------------------------------------------------------------------------------
// Per-probe series
// ---------------------------------------------------------------------------------------------

/// A probe's history: its samples (oldest first, at most `HISTORY_CAPACITY`), when the last
/// one was observed, and how many were ever recorded (saturating).
pub struct SeriesView {
    pub samples: Seq<Sample>,
    pub last_observed_ns: Option<u64>,
    pub sequence: u64,
}

pub open spec fn empty_series() -> SeriesView {
    SeriesView { samples: Seq::empty(), last_observed_ns: None, sequence: 0 }
}

/// The samples after `x` was added to a full-or-not ring of `HISTORY_CAPACITY`.
pub open spec fn ring_push(s: Seq<Sample>, x: Sample) -> Seq<Sample> {
    if s.len() < HISTORY_CAPACITY { s.push(x) } else { s.drop_first().push(x) }
}

/// An observation made at `at` is newer than the last one recorded.
pub open spec fn is_newer(last: Option<u64>, at: u64) -> bool {
    match last {
        Some(l) => at > l,
        None => true,
    }
}

/// The series after an observation: only an observation newer than the last one recorded
/// adds a sample; a repeated or older reading (such as a status poll) changes nothing.
pub open spec fn observed(s: SeriesView, at_ns: Option<u64>, sample: Sample) -> SeriesView {
    match at_ns {
        Some(at) => if is_newer(s.last_observed_ns, at) {
            SeriesView {
                samples: ring_push(s.samples, sample),
                last_observed_ns: Some(at),
                sequence: if s.sequence == u64::MAX { s.sequence } else { (s.sequence + 1) as u64 },
            }
        } else {
            s
        },
        None => s,
    }
}

/// The newest `count` samples (all when there are fewer), oldest first.
pub open spec fn newest(s: Seq<Sample>, count: nat) -> Seq<Sample> {
    s.skip(s.len() - (if count < s.len() { count as int } else { s.len() as int }))
}

pub struct Series {
    ring: Ring<Sample, HISTORY_CAPACITY>,
    last_observed_ns: Option<u64>,
    sequence: u64,
}

impl Series {
    pub closed spec fn wf(&self) -> bool {
        self.ring.wf()
    }

    pub closed spec fn view(&self) -> SeriesView {
        SeriesView { samples: self.ring.items(), last_observed_ns: self.last_observed_ns, sequence: self.sequence }
    }

    pub fn new() -> (r: Series)
        ensures
            r.wf(),
            r.view() == empty_series(),
    {
        Series { ring: Ring::new(), last_observed_ns: None, sequence: 0 }
    }

    pub fn observe(&mut self, at_ns: Option<u64>, sample: Sample)
        requires
            old(self).wf(),
        ensures
            final(self).wf(),
            final(self).view() == observed(old(self).view(), at_ns, sample),
    {
        proof {
            self.ring.lemma_items_bounded();
        }
        match at_ns {
            Some(at) => {
                let newer = match self.last_observed_ns {
                    Some(l) => at > l,
                    None => true,
                };
                if newer {
                    self.ring.push(sample);
                    self.sequence = if self.sequence == u64::MAX { self.sequence } else { self.sequence + 1 };
                    self.last_observed_ns = Some(at);
                }
            },
            None => {},
        }
    }

    pub fn sequence(&self) -> (r: u64)
        ensures
            r == self.view().sequence,
    {
        self.sequence
    }

    pub fn recent(&self, count: usize) -> (r: Vec<Sample>)
        requires
            self.wf(),
        ensures
            r@ == newest(self.view().samples, count as nat),
    {
        self.ring.recent(count)
    }
}

/// The series of every probe, by probe id.
pub struct SeriesStore {
    entries: Vec<(String, Series)>,
}

pub open spec fn ids_view(ids: Seq<String>) -> Seq<Seq<char>> {
    ids.map_values(|s: String| s@)
}

impl SeriesStore {
    pub closed spec fn pairs(&self) -> Seq<(Seq<char>, SeriesView)> {
        self.entries@.map_values(|e: (String, Series)| (e.0@, e.1.view()))
    }

    /// The series held, by probe id.
    pub closed spec fn series(&self) -> Map<Seq<char>, SeriesView> {
        assoc_map(self.pairs())
    }

    pub closed spec fn wf(&self) -> bool {
        &&& keys_unique(self.pairs())
        &&& forall|i: int| 0 <= i < self.entries@.len() ==> (#[trigger] self.entries@[i]).1.wf()
    }

    pub fn new() -> (r: SeriesStore)
        ensures
            r.wf(),
            r.series() == Map::<Seq<char>, SeriesView>::empty(),
    {
        let r = SeriesStore { entries: Vec::new() };
        assert(r.pairs() =~= Seq::<(Seq<char>, SeriesView)>::empty());
        r
    }

    fn find(&self, id: &String) -> (r: Option<usize>)
        ensures
            match r {
                Some(i) => i < self.entries@.len() && self.entries@[i as int].0@ == id@,
                None => forall|i: int| 0 <= i < self.entries@.len() ==> self.entries@[i].0@ != id@,
            },
    {
        let mut i: usize = 0;
        while i < self.entries.len()
            invariant
                i <= self.entries@.len(),
                forall|j: int| 0 <= j < i ==> self.entries@[j].0@ != id@,
            decreases self.entries.len() - i,
        {
            if crate::config::str_eq(self.entries[i].0.as_str(), id.as_str()) {
                return Some(i);
            }
            i = i + 1;
        }
        None
    }

    /// Records an observation of probe `id` (see `observed`; a probe seen for the first time
    /// starts an empty series) and returns its sequence number and newest samples.
    pub fn observe(&mut self, id: &String, at_ns: Option<u64>, sample: Sample) -> (r: (u64, Vec<Sample>))
        requires
            old(self).wf(),
        ensures
            final(self).wf(),
            final(self).series() == old(self).series().insert(
                id@,
                observed(
                    if old(self).series().contains_key(id@) { old(self).series()[id@] } else { empty_series() },
                    at_ns,
                    sample,
                ),
            ),
            r.0 == final(self).series()[id@].sequence,
            r.1@ == newest(final(self).series()[id@].samples, VISIBLE_SAMPLES as nat),
    {
        let ghost p0 = self.pairs();
        proof {
            lemma_assoc_dom(p0);
        }
        match self.find(id) {
            Some(i) => {
                proof {
                    lemma_assoc_index(p0, i as int);
                    assert(p0[i as int].0 == id@);
                }
                let (k, mut ser) = self.entries.remove(i);
                assert(ser.wf());
                ser.observe(at_ns, sample);
                let ghost v = ser.view();
                let seq = ser.sequence();
                let recent = ser.recent(VISIBLE_SAMPLES);
                self.entries.insert(i, (k, ser));
                proof {
                    assert(self.pairs() =~= p0.update(i as int, (p0[i as int].0, v)));
                    lemma_assoc_update(p0, i as int, v);
                    assert forall|j: int| 0 <= j < self.entries@.len() implies (#[trigger] self.entries@[j]).1.wf() by {
                        if j != i {
                            assert(self.entries@[j] == old(self).entries@[j]);
                        }
                    }
                }
                (seq, recent)
            },
            None => {
                proof {
                    assert(!assoc_map(p0).contains_key(id@)) by {
                        if assoc_map(p0).contains_key(id@) {
                            let j = choose|j: int| 0 <= j < p0.len() && p0[j].0 == id@;
                            assert(self.entries@[j].0@ == id@);
                        }
                    }
                }
                let mut ser = Series::new();
                ser.observe(at_ns, sample);
                let ghost v = ser.view();
                let seq = ser.sequence();
                let recent = ser.recent(VISIBLE_SAMPLES);
                let k = id.clone();
                self.entries.push((k, ser));
                proof {
                    assert(self.pairs() =~= p0.push((id@, v)));
                    lemma_assoc_push(p0, id@, v);
                }
                (seq, recent)
            },
        }
    }

    /// Keeps only the series of the probes in `ids`; a probe removed from the configuration
    /// loses its history.
    pub fn retain(&mut self, ids: &Vec<String>)
        requires
            old(self).wf(),
        ensures
            final(self).wf(),
            forall|k: Seq<char>| #[trigger] final(self).series().contains_key(k) <==> (old(self).series().contains_key(k)
                && ids_view(ids@).contains(k)),
            forall|k: Seq<char>| #[trigger] final(self).series().contains_key(k) ==> final(self).series()[k] == old(self).series()[k],
    {
        let ghost p0 = self.pairs();
        let ghost m0 = self.series();
        let mut i = self.entries.len();
        proof {
            lemma_assoc_dom(p0);
        }
        while i > 0
            invariant
                i <= self.entries@.len(),
                self.entries@.len() <= p0.len(),
                self.wf(),
                m0 == old(self).series(),
                p0 == old(self).pairs(),
                keys_unique(p0),
                forall|j: int| 0 <= j < i ==> self.pairs()[j] == #[trigger] p0[j],
                forall|k: Seq<char>| #[trigger] self.series().contains_key(k) <==> (m0.contains_key(k) && (ids_view(ids@).contains(k)
                    || exists|j: int| 0 <= j < i && p0[j].0 == k)),
                forall|k: Seq<char>| #[trigger] self.series().contains_key(k) ==> self.series()[k] == m0[k],
            decreases i,
        {
            let ghost p = self.pairs();
            let ghost mb = self.series();
            let ghost kk = p0[i - 1].0;
            assert(p[i - 1] == p0[i - 1]);
            assert(self.entries@[i - 1].0@ == kk);
            proof {
                lemma_assoc_dom(p0);
                lemma_assoc_index(p0, i - 1);
            }
            let keep = contains_id(ids, &self.entries[i - 1].0);
            if !keep {
                proof {
                    lemma_assoc_remove(p, i - 1);
                    lemma_assoc_dom(p);
                }
                let ghost before = self.entries@;
                self.entries.remove(i - 1);
                proof {
                    assert(self.pairs() =~= p.remove(i - 1));
                    assert(self.series() == assoc_map(p).remove(kk));
                    assert(!ids_view(ids@).contains(kk));
                    assert forall|j: int| 0 <= j < self.entries@.len() implies (#[trigger] self.entries@[j]).1.wf() by {
                        if j < i - 1 {
                            assert(self.entries@[j] == before[j]);
                        } else {
                            assert(self.entries@[j] == before[j + 1]);
                        }
                    }
                    assert forall|j: int| 0 <= j < i - 1 implies self.pairs()[j] == #[trigger] p0[j] by {
                        assert(self.pairs()[j] == p[j]);
                    }
                    assert forall|k: Seq<char>| #[trigger] self.series().contains_key(k) implies self.series()[k] == m0[k] by {
                        assert(mb.contains_key(k));
                    }
                    assert forall|k: Seq<char>| #[trigger] self.series().contains_key(k) <==> (m0.contains_key(k) && (ids_view(ids@).contains(k)
                        || exists|j: int| 0 <= j < i - 1 && p0[j].0 == k)) by {
                        assert(self.series().contains_key(k) == (mb.contains_key(k) && k != kk));
                        if k == kk {
                            if exists|j: int| 0 <= j < i - 1 && p0[j].0 == k {
                                let j = choose|j: int| 0 <= j < i - 1 && p0[j].0 == k;
                                assert(p0[j].0 != p0[i - 1].0);
                            }
                        } else {
                            if exists|j: int| 0 <= j < i && p0[j].0 == k {
                                let j = choose|j: int| 0 <= j < i && p0[j].0 == k;
                                assert(j != i - 1);
                            }
                        }
                    }
                }
            } else {
                proof {
                    assert forall|k: Seq<char>| #[trigger] self.series().contains_key(k) <==> (m0.contains_key(k) && (ids_view(ids@).contains(k)
                        || exists|j: int| 0 <= j < i - 1 && p0[j].0 == k)) by {
                        if exists|j: int| 0 <= j < i && p0[j].0 == k {
                            let j = choose|j: int| 0 <= j < i && p0[j].0 == k;
                            if j == i - 1 {
                                assert(k == kk);
                            }
                        }
                    }
                }
            }
            i = i - 1;
        }
    }
}

/// Whether `ids` holds `k`.
pub fn contains_id(ids: &Vec<String>, k: &String) -> (r: bool)
    ensures
        r == ids_view(ids@).contains(k@),
{
    let mut i: usize = 0;
    while i < ids.len()
        invariant
            i <= ids.len(),
            forall|j: int| 0 <= j < i ==> ids@[j]@ != k@,
        decreases ids.len() - i,
    {
        if crate::config::str_eq(ids[i].as_str(), k.as_str()) {
            assert(ids_view(ids@)[i as int] == k@);
            return true;
        }
        i = i + 1;
    }
    assert(!ids_view(ids@).contains(k@)) by {
        if ids_view(ids@).contains(k@) {
            let j = choose|j: int| 0 <= j < ids_view(ids@).len() && ids_view(ids@)[j] == k@;
            assert(ids@[j]@ == k@);
        }
    }
    false
}


// ---------------------------------------------------------------------------------------------
// The dashboard's history of all probes
// ---------------------------------------------------------------------------------------------

/// Probes shown per snapshot (the configuration allows no more).
pub const MAX_SHOWN_PROBES: usize = 1024;

/// One probe of a snapshot: its dashboard id, when its observation was made (nanoseconds on the
/// daemon's monotonic clock) and the sample it gave.
#[derive(Clone, Debug)]
pub struct ProbeObservation {
    pub id: String,
    pub observed_ns: Option<u64>,
    pub sample: Sample,
}

/// What the dashboard shows of a probe's history after a snapshot.
#[derive(Clone, Debug)]
pub struct ObservedProbe {
    pub sequence: u64,
    pub history: Vec<HistoryPoint>,
}

pub open spec fn series_or_empty(m: Map<Seq<char>, SeriesView>, k: Seq<char>) -> SeriesView {
    if m.contains_key(k) { m[k] } else { empty_series() }
}

/// The series after the probes were observed in order.
pub open spec fn after_probes(m: Map<Seq<char>, SeriesView>, ps: Seq<ProbeObservation>) -> Map<Seq<char>, SeriesView>
    decreases ps.len(),
{
    if ps.len() == 0 {
        m
    } else {
        let m1 = after_probes(m, ps.drop_last());
        let p = ps.last();
        m1.insert(p.id@, observed(series_or_empty(m1, p.id@), p.observed_ns, p.sample))
    }
}

pub open spec fn probe_ids(ps: Seq<ProbeObservation>) -> Seq<Seq<char>> {
    ps.map_values(|p: ProbeObservation| p.id@)
}

proof fn lemma_after_probes_other(m: Map<Seq<char>, SeriesView>, ps: Seq<ProbeObservation>, id: Seq<char>)
    requires
        !probe_ids(ps).contains(id),
    ensures
        after_probes(m, ps).contains_key(id) == m.contains_key(id),
        series_or_empty(after_probes(m, ps), id) == series_or_empty(m, id),
    decreases ps.len(),
{
    if ps.len() > 0 {
        let d = ps.drop_last();
        assert(probe_ids(d) =~= probe_ids(ps).drop_last());
        assert(probe_ids(ps)[ps.len() - 1] == ps.last().id@);
        if probe_ids(d).contains(id) {
            let j = choose|j: int| 0 <= j < probe_ids(d).len() && probe_ids(d)[j] == id;
            assert(probe_ids(ps)[j] == id);
        }
        lemma_after_probes_other(m, d, id);
    }
}

/// Histories do not depend on the order of probes: with distinct probe ids, what a snapshot
/// leaves of a probe's series depends only on that probe's observation and the series it had
/// before, never on the other probes or where they stand; probes not in the snapshot keep
/// their series.
pub proof fn observation_ignores_order(m: Map<Seq<char>, SeriesView>, ps: Seq<ProbeObservation>, j: int, id: Seq<char>)
    requires
        probe_ids(ps).no_duplicates(),
        0 <= j < ps.len(),
    ensures
        after_probes(m, ps).contains_key(ps[j].id@),
        after_probes(m, ps)[ps[j].id@] == observed(series_or_empty(m, ps[j].id@), ps[j].observed_ns, ps[j].sample),
        after_probes(m, ps.take(j + 1))[ps[j].id@] == observed(series_or_empty(m, ps[j].id@), ps[j].observed_ns, ps[j].sample),
        !probe_ids(ps).contains(id) ==> after_probes(m, ps).contains_key(id) == m.contains_key(id)
            && series_or_empty(after_probes(m, ps), id) == series_or_empty(m, id),
    decreases ps.len(),
{
    if !probe_ids(ps).contains(id) {
        lemma_after_probes_other(m, ps, id);
    }
    let d = ps.drop_last();
    let last = ps.len() - 1;
    assert(probe_ids(d) =~= probe_ids(ps).drop_last());
    assert(probe_ids(ps)[j] == ps[j].id@);
    assert(probe_ids(ps)[last] == ps.last().id@);
    if j == last {
        assert(!probe_ids(d).contains(ps[j].id@)) by {
            if probe_ids(d).contains(ps[j].id@) {
                let i = choose|i: int| 0 <= i < probe_ids(d).len() && probe_ids(d)[i] == ps[j].id@;
                assert(probe_ids(ps)[i] == probe_ids(ps)[last]);
            }
        }
        lemma_after_probes_other(m, d, ps[j].id@);
        assert(ps.take(j + 1) =~= ps);
    } else {
        assert(probe_ids(d).no_duplicates()) by {
            assert forall|a: int, b: int| 0 <= a < probe_ids(d).len() && 0 <= b < probe_ids(d).len() && a != b
                implies probe_ids(d)[a] != probe_ids(d)[b] by {
                assert(probe_ids(d)[a] == probe_ids(ps)[a] && probe_ids(d)[b] == probe_ids(ps)[b]);
            }
        }
        assert(ps[j].id@ != ps.last().id@);
        observation_ignores_order(m, d, j, id);
        assert(d.take(j + 1) =~= ps.take(j + 1));
        assert(d[j] == ps[j]);
    }
}

/// A probe left out of a snapshot loses its history: after the snapshot its series is gone,
/// and when it is observed again its series starts over, at sequence one with that single
/// sample.
pub proof fn absent_probe_starts_over(
    m: Map<Seq<char>, SeriesView>,
    ps: Seq<ProbeObservation>,
    id: Seq<char>,
    at: u64,
    x: Sample,
)
    requires
        !probe_ids(ps).contains(id),
    ensures
        !after_probes(m.restrict(probe_ids(ps).to_set()), ps).contains_key(id),
        observed(series_or_empty(after_probes(m.restrict(probe_ids(ps).to_set()), ps), id), Some(at), x)
            == (SeriesView { samples: seq![x], last_observed_ns: Some(at), sequence: 1 }),
{
    let base = m.restrict(probe_ids(ps).to_set());
    assert(!base.contains_key(id));
    lemma_after_probes_other(base, ps, id);
    assert(Seq::<Sample>::empty().push(x) =~= seq![x]);
}

/// The history points shown for these samples.
pub open spec fn points_spec(samples: Seq<Sample>, stale_after_ms: u64) -> Seq<HistoryPoint> {
    Seq::new(
        samples.len(),
        |j: int| samples[j].point_spec(gap_before(samples.map_values(|s: Sample| s.t_ms), j, stale_after_ms)),
    )
}

pub open spec fn shown_count(n: nat) -> nat {
    if n < MAX_SHOWN_PROBES { n } else { MAX_SHOWN_PROBES as nat }
}

/// The history of every probe the dashboard shows.
pub struct DashboardHistory {
    stale_after_ms: u64,
    store: SeriesStore,
}

impl DashboardHistory {
    pub closed spec fn wf(&self) -> bool {
        self.store.wf()
    }

    /// The series held, by probe id.
    pub closed spec fn series(&self) -> Map<Seq<char>, SeriesView> {
        self.store.series()
    }

    pub closed spec fn stale_after(&self) -> u64 {
        self.stale_after_ms
    }

    /// An empty history for a daemon collecting every `interval_seconds`.
    pub fn new(interval_seconds: u64) -> (r: DashboardHistory)
        ensures
            r.wf(),
            r.series() == Map::<Seq<char>, SeriesView>::empty(),
            r.stale_after() == crate::web::stale_after_spec(interval_seconds),
    {
        DashboardHistory { stale_after_ms: crate::web::stale_after_ms(interval_seconds), store: SeriesStore::new() }
    }

    pub fn stale_after_ms(&self) -> (r: u64)
        ensures
            r == self.stale_after(),
    {
        self.stale_after_ms
    }

    /// Takes in a snapshot: drops the series of probes no longer present, then records each
    /// of the first `MAX_SHOWN_PROBES` probes in order and reports its sequence number and its
    /// newest `VISIBLE_SAMPLES` points.
    pub fn observe(&mut self, probes: &Vec<ProbeObservation>) -> (r: Vec<ObservedProbe>)
        requires
            old(self).wf(),
        ensures
            final(self).wf(),
            final(self).stale_after() == old(self).stale_after(),
            r@.len() == shown_count(probes@.len()),
            final(self).series() == after_probes(
                old(self).series().restrict(probe_ids(probes@).to_set()),
                probes@.take(shown_count(probes@.len()) as int),
            ),
            forall|i: int| 0 <= i < r@.len() ==> {
                let m = after_probes(
                    old(self).series().restrict(probe_ids(probes@).to_set()),
                    probes@.take(i + 1),
                );
                &&& (#[trigger] r@[i]).sequence == m[probes@[i].id@].sequence
                &&& r@[i].history@ == points_spec(
                    newest(m[probes@[i].id@].samples, VISIBLE_SAMPLES as nat),
                    old(self).stale_after(),
                )
            },
    {
        let ghost m0 = self.series();
        let mut ids: Vec<String> = Vec::new();
        let mut k: usize = 0;
        while k < probes.len()
            invariant
                k <= probes.len(),
                ids_view(ids@) == probe_ids(probes@).take(k as int),
            decreases probes.len() - k,
        {
            let id = probes[k].id.clone();
            assert(id@ == probe_ids(probes@)[k as int]);
            let ghost before = ids@;
            ids.push(id);
            assert(ids_view(ids@) =~= ids_view(before).push(id@));
            assert(ids_view(ids@) =~= probe_ids(probes@).take(k + 1));
            k = k + 1;
        }
        assert(ids_view(ids@) =~= probe_ids(probes@));
        self.store.retain(&ids);
        let ghost base = m0.restrict(probe_ids(probes@).to_set());
        assert(self.store.series() =~= base) by {
            assert forall|key: Seq<char>| #[trigger] self.store.series().contains_key(key) <==> base.contains_key(key) by {
                if probe_ids(probes@).contains(key) {
                    assert(probe_ids(probes@).to_set().contains(key));
                }
            }
        }
        let n = if probes.len() < MAX_SHOWN_PROBES { probes.len() } else { MAX_SHOWN_PROBES };
        let mut out: Vec<ObservedProbe> = Vec::new();
        let mut i: usize = 0;
        assert(probes@.take(0) =~= Seq::<ProbeObservation>::empty());
        while i < n
            invariant
                i <= n <= probes.len(),
                n == shown_count(probes@.len()),
                self.store.wf(),
                self.stale_after_ms == old(self).stale_after_ms,
                base == old(self).series().restrict(probe_ids(probes@).to_set()),
                self.store.series() == after_probes(base, probes@.take(i as int)),
                out@.len() == i,
                forall|j: int| 0 <= j < i ==> {
                    let m = after_probes(base, probes@.take(j + 1));
                    &&& (#[trigger] out@[j]).sequence == m[probes@[j].id@].sequence
                    &&& out@[j].history@ == points_spec(newest(m[probes@[j].id@].samples, VISIBLE_SAMPLES as nat), self.stale_after_ms)
                },
            decreases n - i,
        {
            let ghost mi = self.store.series();
            let (seq, recent) = self.store.observe(&probes[i].id, probes[i].observed_ns, probes[i].sample);
            let history = history_points(&recent, self.stale_after_ms);
            proof {
                let t = probes@.take(i + 1);
                assert(t.drop_last() =~= probes@.take(i as int));
                assert(t.last() == probes@[i as int]);
                assert(history@ =~= points_spec(recent@, self.stale_after_ms));
            }
            out.push(ObservedProbe { sequence: seq, history });
            i = i + 1;
        }
        out
    }
}


/// Reading the same observation again (a status poll, an advisor update) adds no sample and
/// does not advance the sequence.
pub proof fn repeated_observation_adds_nothing(s: SeriesView, at: u64, first: Sample, again: Sample)
    ensures
        observed(observed(s, Some(at), first), Some(at), again) == observed(s, Some(at), first),
{
}

/// A series never holds more than `HISTORY_CAPACITY` samples, and the dashboard never shows
/// more than `VISIBLE_SAMPLES` of them.
pub proof fn history_stays_bounded(s: SeriesView, at: Option<u64>, x: Sample)
    requires
        s.samples.len() <= HISTORY_CAPACITY,
    ensures
        observed(s, at, x).samples.len() <= HISTORY_CAPACITY,
        newest(observed(s, at, x).samples, VISIBLE_SAMPLES as nat).len() <= VISIBLE_SAMPLES,
{
}

/// A newer observation becomes the newest sample, and the samples before it keep their order.
pub proof fn newer_observation_is_newest(s: SeriesView, at: u64, x: Sample)
    requires
        is_newer(s.last_observed_ns, at),
        s.samples.len() <= HISTORY_CAPACITY,
    ensures
        observed(s, Some(at), x).samples.last() == x,
        observed(s, Some(at), x).samples.drop_last() == (if s.samples.len() < HISTORY_CAPACITY {
            s.samples
        } else {
            s.samples.drop_first()
        }),
{
    assert(s.samples.push(x).drop_last() =~= s.samples);
    assert(s.samples.drop_first().push(x).drop_last() =~= s.samples.drop_first());
}

} // verus!
