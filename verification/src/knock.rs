//! Per-source tracking of knock sequence progress.
//!
//! Times are nanoseconds on a monotonic clock; durations are nanoseconds.
use crate::config::{KnockStep, Protocol, DEFAULT_MAX_PARTIAL_STATES};
use crate::net::{lemma_ip_eq_is_equality, IpAddress};
use crate::store::KeyedStore;
use vstd::prelude::*;

verus! {

/// One observed knock packet.
#[derive(Clone, Copy, Debug, PartialEq, Eq)]
pub struct KnockPacket {
    pub source_ip: IpAddress,
    pub protocol: Protocol,
    pub port: Option<u16>,
    pub payload_size: usize,
}

/// Progress of one source through the sequence.
#[derive(Clone, Copy, Debug, PartialEq, Eq, Structural)]
pub struct SourceState {
    /// Index of the step that the source must send next.
    pub next_step: usize,
    /// When the source sent its first valid step.
    pub first_seen: u64,
    /// When the source last advanced.
    pub last_seen: u64,
}

/// What a packet did to its source's progress.
#[derive(Clone, Copy, Debug, PartialEq, Eq, Structural)]
pub enum KnockOutcome {
    /// The packet completed the sequence.
    Accepted,
    /// The packet advanced the source; `next_step` is the step it must send next.
    Progress { next_step: usize },
    /// The packet matched neither the expected step nor the first step, or
    /// no room was left for a new partial state.
    Rejected,
    /// The payload was larger than allowed.
    Oversized,
}

/// Time from `then` to `now`, zero when `now` is earlier.
pub open spec fn elapsed(now: u64, then: u64) -> int {
    if now >= then {
        now - then
    } else {
        0
    }
}

fn elapsed_exec(now: u64, then: u64) -> (r: u64)
    ensures
        r == elapsed(now, then),
{
    if now >= then {
        now - then
    } else {
        0
    }
}

/// Whether `packet` is step `i` of `sequence`.
pub open spec fn matches_step(sequence: Seq<KnockStep>, i: int, packet: KnockPacket) -> bool {
    &&& 0 <= i < sequence.len()
    &&& sequence[i].protocol == packet.protocol
    &&& sequence[i].port == packet.port
    &&& sequence[i].size == packet.payload_size
}

/// Whether a partial state is still inside both its idle timeout and the sequence window.
pub open spec fn state_live(s: SourceState, now: u64, window: u64, timeout: u64) -> bool {
    elapsed(now, s.last_seen) <= timeout && elapsed(now, s.first_seen) <= window
}

/// The partial states that survive expiry at `now`.
pub open spec fn expire_states(
    m: Map<IpAddress, SourceState>,
    now: u64,
    window: u64,
    timeout: u64,
) -> Map<IpAddress, SourceState> {
    Map::new(|k: IpAddress| m.contains_key(k) && state_live(m[k], now, window, timeout), |k: IpAddress| m[k])
}

/// The settings that decide how packets are judged.
pub struct TrackerSettings {
    pub sequence: Seq<KnockStep>,
    pub sequence_window: u64,
    pub partial_state_timeout: u64,
    pub max_partial_states: usize,
    pub max_payload_size: usize,
}

/// Opens a partial state for a source at its first step, unless the source is
/// new and the table of partial states is full.
pub open spec fn start_partial_spec(
    cfg: TrackerSettings,
    m: Map<IpAddress, SourceState>,
    ip: IpAddress,
    now: u64,
) -> (Map<IpAddress, SourceState>, KnockOutcome) {
    if !m.contains_key(ip) && m.len() >= cfg.max_partial_states {
        (m, KnockOutcome::Rejected)
    } else {
        (
            m.insert(ip, SourceState { next_step: 1, first_seen: now, last_seen: now }),
            KnockOutcome::Progress { next_step: 1 },
        )
    }
}

/// A packet that broke a source's progress may still begin a new attempt.
pub open spec fn start_or_reject_spec(
    cfg: TrackerSettings,
    m: Map<IpAddress, SourceState>,
    packet: KnockPacket,
    now: u64,
) -> (Map<IpAddress, SourceState>, KnockOutcome) {
    if matches_step(cfg.sequence, 0, packet) {
        start_partial_spec(cfg, m, packet.source_ip, now)
    } else {
        (m, KnockOutcome::Rejected)
    }
}

/// The partial states and the outcome after `packet` arrives at `now`.
pub open spec fn process_spec(
    cfg: TrackerSettings,
    states: Map<IpAddress, SourceState>,
    packet: KnockPacket,
    now: u64,
) -> (Map<IpAddress, SourceState>, KnockOutcome) {
    let m = expire_states(states, now, cfg.sequence_window, cfg.partial_state_timeout);
    let ip = packet.source_ip;
    if packet.payload_size > cfg.max_payload_size {
        (m.remove(ip), KnockOutcome::Oversized)
    } else {
        let expected: int = if m.contains_key(ip) {
            m[ip].next_step as int
        } else {
            0
        };
        if !matches_step(cfg.sequence, expected, packet) {
            start_or_reject_spec(cfg, m.remove(ip), packet, now)
        } else if expected + 1 == cfg.sequence.len() {
            (m.remove(ip), KnockOutcome::Accepted)
        } else if expected == 0 {
            start_partial_spec(cfg, m, ip, now)
        } else {
            (
                m.insert(
                    ip,
                    SourceState {
                        next_step: (expected + 1) as usize,
                        first_seen: m[ip].first_seen,
                        last_seen: now,
                    },
                ),
                KnockOutcome::Progress { next_step: (expected + 1) as usize },
            )
        }
    }
}

/// Tracks, per source address, how far it has come through the knock sequence.
pub struct KnockTracker {
    sequence: Vec<KnockStep>,
    sequence_window: u64,
    partial_state_timeout: u64,
    max_partial_states: usize,
    max_payload_size: usize,
    states: KeyedStore<IpAddress, SourceState>,
}

impl KnockTracker {
    /// The settings the tracker was made with.
    pub closed spec fn settings(&self) -> TrackerSettings {
        TrackerSettings {
            sequence: self.sequence@,
            sequence_window: self.sequence_window,
            partial_state_timeout: self.partial_state_timeout,
            max_partial_states: self.max_partial_states,
            max_payload_size: self.max_payload_size,
        }
    }

    /// The in-progress partial states, by source address.
    pub closed spec fn partial_states(&self) -> Map<IpAddress, SourceState> {
        self.states@
    }

    /// Well-formedness: the table never exceeds its capacity, and every
    /// partial state points strictly inside the sequence.
    pub closed spec fn wf(&self) -> bool {
        &&& self.states.wf()
        &&& self.states@.dom().finite()
        &&& self.states@.len() <= self.max_partial_states
        &&& forall|k: IpAddress| #[trigger]
            self.states@.contains_key(k) ==> 1 <= self.states@[k].next_step < self.sequence@.len()
    }

    /// Creates a tracker with room for `max_partial_states` partial states.
    pub fn new_with_capacity(
        sequence: Vec<KnockStep>,
        sequence_window: u64,
        partial_state_timeout: u64,
        max_partial_states: usize,
        max_payload_size: usize,
    ) -> (r: Self)
        ensures
            r.wf(),
            r.settings() == (TrackerSettings {
                sequence: sequence@,
                sequence_window,
                partial_state_timeout,
                max_partial_states,
                max_payload_size,
            }),
            r.partial_states() == Map::<IpAddress, SourceState>::empty(),
    {
        let r = KnockTracker {
            sequence,
            sequence_window,
            partial_state_timeout,
            max_partial_states,
            max_payload_size,
            states: KeyedStore::new(),
        };
        proof {
            r.states.lemma_finite();
        }
        r
    }

    /// Creates a tracker with the default partial-state capacity.
    pub fn new(
        sequence: Vec<KnockStep>,
        sequence_window: u64,
        partial_state_timeout: u64,
        max_payload_size: usize,
    ) -> (r: Self)
        ensures
            r.wf(),
            r.settings() == (TrackerSettings {
                sequence: sequence@,
                sequence_window,
                partial_state_timeout,
                max_partial_states: DEFAULT_MAX_PARTIAL_STATES,
                max_payload_size,
            }),
            r.partial_states() == Map::<IpAddress, SourceState>::empty(),
    {
        Self::new_with_capacity(
            sequence,
            sequence_window,
            partial_state_timeout,
            DEFAULT_MAX_PARTIAL_STATES,
            max_payload_size,
        )
    }

    /// Returns the number of in-progress partial knock states.
    pub fn len(&self) -> (r: usize)
        requires
            self.wf(),
        ensures
            r == self.partial_states().len(),
    {
        self.states.len()
    }

    /// Returns whether there are no in-progress partial knock states.
    pub fn is_empty(&self) -> (r: bool)
        requires
            self.wf(),
        ensures
            r == (self.partial_states().len() == 0),
    {
        self.states.len() == 0
    }

    /// Removes expired partial sequence state.
    pub fn expire(&mut self, now: u64)
        requires
            old(self).wf(),
        ensures
            final(self).wf(),
            final(self).settings() == old(self).settings(),
            final(self).partial_states() == expire_states(
                old(self).partial_states(),
                now,
                old(self).settings().sequence_window,
                old(self).settings().partial_state_timeout,
            ),
    {
        let window = self.sequence_window;
        let timeout = self.partial_state_timeout;
        let ghost old_states = self.states@;
        let live = |_k: &IpAddress, s: &SourceState| -> (keep: bool)
            ensures
                keep == state_live(*s, now, window, timeout),
            { elapsed_exec(now, s.last_seen) <= timeout && elapsed_exec(now, s.first_seen) <= window };
        self.states.retain(live);
        proof {
            let target = expire_states(old_states, now, window, timeout);
            assert(self.states@ =~= target);
            self.states.lemma_finite();
            vstd::set_lib::lemma_len_subset(self.states@.dom(), old_states.dom());
        }
    }

    fn matches_step(&self, step_index: usize, packet: &KnockPacket) -> (r: bool)
        ensures
            r == matches_step(self.sequence@, step_index as int, *packet),
    {
        if step_index >= self.sequence.len() {
            return false;
        }
        let step = &self.sequence[step_index];
        step.protocol == packet.protocol && step.port == packet.port && step.size == packet.payload_size
    }
    fn start_partial_state(&mut self, source_ip: IpAddress, now: u64) -> (r: KnockOutcome)
        requires
            old(self).wf(),
            old(self).sequence@.len() >= 2,
        ensures
            final(self).wf(),
            final(self).settings() == old(self).settings(),
            (final(self).partial_states(), r) == start_partial_spec(
                old(self).settings(),
                old(self).partial_states(),
                source_ip,
                now,
            ),
    {
        proof {
            lemma_ip_eq_is_equality();
        }
        if !self.states.contains_key(&source_ip) && self.states.len() >= self.max_partial_states {
            return KnockOutcome::Rejected;
        }
        let ghost pre = self.states@;
        self.states.insert(source_ip, SourceState { next_step: 1, first_seen: now, last_seen: now });
        proof {
            self.states.lemma_finite();
            if pre.contains_key(source_ip) {
                assert(self.states@.dom() =~= pre.dom());
            } else {
                assert(self.states@.dom() =~= pre.dom().insert(source_ip));
            }
        }
        KnockOutcome::Progress { next_step: 1 }
    }

    fn start_or_reject(&mut self, packet: KnockPacket, now: u64) -> (r: KnockOutcome)
        requires
            old(self).wf(),
            old(self).sequence@.len() >= 2 || !matches_step(old(self).sequence@, 0, packet),
        ensures
            final(self).wf(),
            final(self).settings() == old(self).settings(),
            (final(self).partial_states(), r) == start_or_reject_spec(
                old(self).settings(),
                old(self).partial_states(),
                packet,
                now,
            ),
    {
        if self.matches_step(0, &packet) {
            self.start_partial_state(packet.source_ip, now)
        } else {
            KnockOutcome::Rejected
        }
    }

    fn forget(&mut self, source_ip: &IpAddress)
        requires
            old(self).wf(),
        ensures
            final(self).wf(),
            final(self).settings() == old(self).settings(),
            final(self).partial_states() == old(self).partial_states().remove(*source_ip),
    {
        proof {
            lemma_ip_eq_is_equality();
        }
        let ghost pre = self.states@;
        self.states.remove(source_ip);
        proof {
            self.states.lemma_finite();
            vstd::set_lib::lemma_len_subset(self.states@.dom(), pre.dom());
        }
    }

    /// Processes a packet and returns whether it completed the configured sequence.
    pub fn process(&mut self, packet: KnockPacket, now: u64) -> (r: KnockOutcome)
        requires
            old(self).wf(),
        ensures
            final(self).wf(),
            final(self).settings() == old(self).settings(),
            (final(self).partial_states(), r) == process_spec(
                old(self).settings(),
                old(self).partial_states(),
                packet,
                now,
            ),
    {
        proof {
            lemma_ip_eq_is_equality();
        }
        self.expire(now);
        let ip = packet.source_ip;
        if packet.payload_size > self.max_payload_size {
            self.forget(&ip);
            return KnockOutcome::Oversized;
        }
        let (expected, first_seen) = match self.states.get(&ip) {
            Some(state) => (state.next_step, state.first_seen),
            None => (0, now),
        };
        if expected > 0 && elapsed_exec(now, first_seen) > self.sequence_window {
            // Expiry has already dropped every state older than the window.
            self.forget(&ip);
            return self.start_or_reject(packet, now);
        }
        if !self.matches_step(expected, &packet) {
            self.forget(&ip);
            return self.start_or_reject(packet, now);
        }
        let len = self.sequence.len();
        let next_step = expected + 1;
        if next_step == len {
            self.forget(&ip);
            KnockOutcome::Accepted
        } else if expected == 0 {
            self.start_partial_state(ip, now)
        } else {
            let ghost pre = self.states@;
            self.states.insert(ip, SourceState { next_step, first_seen, last_seen: now });
            proof {
                assert(self.states@.dom() =~= pre.dom());
            }
            KnockOutcome::Progress { next_step }
        }
    }
}

} // verus!

verus! {

/// A well-formed tracker never holds more partial states than its capacity,
/// and every partial state points strictly inside the sequence.
pub proof fn lemma_tracker_bounded(t: &KnockTracker)
    requires
        t.wf(),
    ensures
        t.partial_states().dom().finite(),
        t.partial_states().len() <= t.settings().max_partial_states,
        forall|k: IpAddress| #[trigger]
            t.partial_states().contains_key(k) ==> 1 <= t.partial_states()[k].next_step
                < t.settings().sequence.len(),
{
}

/// Processing a packet leaves every other source's partial state as expiry
/// alone would leave it.
pub proof fn lemma_process_isolates_sources(
    cfg: TrackerSettings,
    states: Map<IpAddress, SourceState>,
    packet: KnockPacket,
    now: u64,
    other: IpAddress,
)
    requires
        other != packet.source_ip,
    ensures
        ({
            let after = process_spec(cfg, states, packet, now).0;
            let expired = expire_states(states, now, cfg.sequence_window, cfg.partial_state_timeout);
            &&& after.contains_key(other) == expired.contains_key(other)
            &&& after.contains_key(other) ==> after[other] == expired[other]
        }),
{
}

/// The outcome and the source's partial state agree: only `Progress` leaves a
/// partial state behind, and it records the step the outcome names.
pub proof fn lemma_outcome_matches_state(
    cfg: TrackerSettings,
    states: Map<IpAddress, SourceState>,
    packet: KnockPacket,
    now: u64,
)
    ensures
        ({
            let (after, outcome) = process_spec(cfg, states, packet, now);
            let ip = packet.source_ip;
            &&& (outcome is Progress ==> after.contains_key(ip) && after[ip].next_step
                == outcome->next_step && after[ip].last_seen == now)
            &&& (outcome is Accepted || outcome is Oversized ==> !after.contains_key(ip))
            &&& (outcome is Rejected ==> !after.contains_key(ip) || after[ip] == expire_states(
                states,
                now,
                cfg.sequence_window,
                cfg.partial_state_timeout,
            )[ip])
            &&& (outcome is Oversized <==> packet.payload_size > cfg.max_payload_size)
        }),
{
}

/// A packet completes the sequence only when it is the last step and the
/// source had, within the window and the idle timeout, reached that step
/// (or the sequence has a single step).
pub proof fn lemma_accept_requires_progress(
    cfg: TrackerSettings,
    states: Map<IpAddress, SourceState>,
    packet: KnockPacket,
    now: u64,
)
    requires
        process_spec(cfg, states, packet, now).1 is Accepted,
    ensures
        cfg.sequence.len() >= 1,
        matches_step(cfg.sequence, cfg.sequence.len() - 1, packet),
        cfg.sequence.len() == 1 || ({
            let ip = packet.source_ip;
            &&& states.contains_key(ip)
            &&& states[ip].next_step == cfg.sequence.len() - 1
            &&& elapsed(now, states[ip].first_seen) <= cfg.sequence_window
            &&& elapsed(now, states[ip].last_seen) <= cfg.partial_state_timeout
        }),
{
}

/// A wrong step (wrong protocol, port or payload size) resets the source's
/// progress: afterwards it either has no partial state, or, when the packet
/// is itself the first step, a fresh one at step one.
pub proof fn lemma_wrong_step_resets(
    cfg: TrackerSettings,
    states: Map<IpAddress, SourceState>,
    packet: KnockPacket,
    now: u64,
)
    requires
        packet.payload_size <= cfg.max_payload_size,
        ({
            let live = expire_states(states, now, cfg.sequence_window, cfg.partial_state_timeout);
            live.contains_key(packet.source_ip) && !matches_step(
                cfg.sequence,
                live[packet.source_ip].next_step as int,
                packet,
            )
        }),
    ensures
        ({
            let (after, outcome) = process_spec(cfg, states, packet, now);
            let ip = packet.source_ip;
            &&& after.contains_key(ip) ==> after[ip] == (SourceState {
                next_step: 1,
                first_seen: now,
                last_seen: now,
            }) && outcome == (KnockOutcome::Progress { next_step: 1 })
            &&& !after.contains_key(ip) ==> outcome is Rejected
        }),
{
}

/// A partial state that has outlived the sequence window or the idle timeout
/// counts for nothing: the packet is judged as if the source had none.
pub proof fn lemma_stale_state_ignored(
    cfg: TrackerSettings,
    states: Map<IpAddress, SourceState>,
    packet: KnockPacket,
    now: u64,
)
    requires
        states.contains_key(packet.source_ip),
        !state_live(
            states[packet.source_ip],
            now,
            cfg.sequence_window,
            cfg.partial_state_timeout,
        ),
    ensures
        process_spec(cfg, states, packet, now) == process_spec(
            cfg,
            states.remove(packet.source_ip),
            packet,
            now,
        ),
{
    let ip = packet.source_ip;
    assert(expire_states(states, now, cfg.sequence_window, cfg.partial_state_timeout) =~= expire_states(
        states.remove(ip),
        now,
        cfg.sequence_window,
        cfg.partial_state_timeout,
    ));
}

/// A source with no partial state is accepted only by a one-step sequence:
/// a single packet never opens a longer sequence.
pub proof fn lemma_fresh_source_not_accepted(
    cfg: TrackerSettings,
    states: Map<IpAddress, SourceState>,
    packet: KnockPacket,
    now: u64,
)
    requires
        !states.contains_key(packet.source_ip),
        cfg.sequence.len() >= 2,
    ensures
        !(process_spec(cfg, states, packet, now).1 is Accepted),
{
}

} // verus!

verus! {

/// The partial states after the first `n` events (each a packet and its arrival
/// time), starting with no partial state.
pub open spec fn states_after(cfg: TrackerSettings, events: Seq<(KnockPacket, u64)>, n: int) -> Map<
    IpAddress,
    SourceState,
>
    decreases n,
{
    if n <= 0 {
        Map::empty()
    } else {
        process_spec(cfg, states_after(cfg, events, n - 1), events[n - 1].0, events[n - 1].1).0
    }
}

/// The outcome of event `n`.
pub open spec fn outcome_at(cfg: TrackerSettings, events: Seq<(KnockPacket, u64)>, n: int) -> KnockOutcome {
    process_spec(cfg, states_after(cfg, events, n), events[n].0, events[n].1).1
}

/// `w` lists, in increasing order and before `bound`, events from `ip` that
/// match steps 0, 1, 2, ... of the sequence.
pub open spec fn ordered_steps(
    cfg: TrackerSettings,
    events: Seq<(KnockPacket, u64)>,
    ip: IpAddress,
    w: Seq<int>,
    bound: int,
) -> bool {
    &&& forall|j: int|
        0 <= j < w.len() ==> {
            &&& 0 <= #[trigger] w[j] < bound
            &&& events[w[j]].0.source_ip == ip
            &&& matches_step(cfg.sequence, j, events[w[j]].0)
        }
    &&& forall|j: int, k: int| 0 <= j < k < w.len() ==> #[trigger] w[j] < #[trigger] w[k]
}

/// `w` (the events listed, all from `ip`) is a run with nothing between: no
/// other packet from `ip` comes between two of its events, and each follows
/// the one before within the idle timeout.
pub open spec fn unbroken_run(cfg: TrackerSettings, events: Seq<(KnockPacket, u64)>, ip: IpAddress, w: Seq<int>) -> bool {
    &&& forall|j: int, k: int|
        #![trigger w[j], events[k]]
        0 <= j < w.len() - 1 && w[j] < k < w[j + 1] ==> events[k].0.source_ip != ip
    &&& forall|j: int|
        0 <= j < w.len() - 1 ==> elapsed(events[#[trigger] w[j + 1]].1, events[w[j]].1)
            <= cfg.partial_state_timeout
}

/// `w` is the unbroken run of events from `ip`, among the first `n`, that
/// brought it to the partial state `st`, with no packet from `ip` after it.
pub open spec fn run_backs_state(
    cfg: TrackerSettings,
    events: Seq<(KnockPacket, u64)>,
    ip: IpAddress,
    w: Seq<int>,
    n: int,
    st: SourceState,
) -> bool {
    &&& ordered_steps(cfg, events, ip, w, n)
    &&& w.len() == st.next_step
    &&& w.len() >= 1
    &&& events[w[0]].1 == st.first_seen
    &&& events[w[w.len() - 1]].1 == st.last_seen
    &&& unbroken_run(cfg, events, ip, w)
    &&& forall|k: int| w[w.len() - 1] < k < n ==> (#[trigger] events[k]).0.source_ip != ip
}

/// Every partial state is backed by the events that brought it there.
pub open spec fn history_backs_states(cfg: TrackerSettings, events: Seq<(KnockPacket, u64)>, n: int) -> bool {
    forall|ip: IpAddress| #[trigger]
        states_after(cfg, events, n).contains_key(ip) ==> exists|w: Seq<int>|
            #[trigger] run_backs_state(cfg, events, ip, w, n, states_after(cfg, events, n)[ip])
}

proof fn lemma_run_keeps(
    cfg: TrackerSettings,
    events: Seq<(KnockPacket, u64)>,
    ip: IpAddress,
    w: Seq<int>,
    n: int,
    st: SourceState,
)
    requires
        0 <= n < events.len(),
        run_backs_state(cfg, events, ip, w, n, st),
        events[n].0.source_ip != ip,
    ensures
        run_backs_state(cfg, events, ip, w, n + 1, st),
{
    assert forall|k: int| w[w.len() - 1] < k < n + 1 implies (#[trigger] events[k]).0.source_ip != ip by {
        if k < n {
            assert(w[w.len() - 1] < k < n);
        }
    }
}

proof fn lemma_run_extends(
    cfg: TrackerSettings,
    events: Seq<(KnockPacket, u64)>,
    ip: IpAddress,
    w0: Seq<int>,
    n: int,
    old: SourceState,
)
    requires
        0 <= n < events.len(),
        run_backs_state(cfg, events, ip, w0, n, old),
        events[n].0.source_ip == ip,
        matches_step(cfg.sequence, old.next_step as int, events[n].0),
        elapsed(events[n].1, old.last_seen) <= cfg.partial_state_timeout,
        old.next_step + 1 <= usize::MAX,
    ensures
        run_backs_state(
            cfg,
            events,
            ip,
            w0.push(n),
            n + 1,
            SourceState {
                next_step: (old.next_step + 1) as usize,
                first_seen: old.first_seen,
                last_seen: events[n].1,
            },
        ),
{
    let w = w0.push(n);
    let last = w0.len() - 1;
    assert(w[w0.len() as int] == n);
    assert(w[0] == w0[0]);
    assert(w[last] == w0[last]);
    assert(ordered_steps(cfg, events, ip, w, n + 1));
    assert forall|j: int, k: int|
        #![trigger w[j], events[k]]
        0 <= j < w.len() - 1 && w[j] < k < w[j + 1] implies events[k].0.source_ip != ip by {
        assert(w[j] == w0[j]);
        if j < last {
            assert(w[j + 1] == w0[j + 1]);
            assert(w0[j] < k < w0[j + 1]);
        } else {
            assert(w0[last] < k < n);
        }
    }
    assert forall|j: int| 0 <= j < w.len() - 1 implies elapsed(
        events[#[trigger] w[j + 1]].1,
        events[w[j]].1,
    ) <= cfg.partial_state_timeout by {
        assert(w[j] == w0[j]);
        if j < last {
            assert(w[j + 1] == w0[j + 1]);
        }
    }
}

#[verifier::rlimit(30)]
proof fn lemma_history_step(cfg: TrackerSettings, events: Seq<(KnockPacket, u64)>, n: int)
    requires
        0 <= n < events.len(),
        cfg.sequence.len() <= usize::MAX,
        history_backs_states(cfg, events, n),
    ensures
        history_backs_states(cfg, events, n + 1),
{
    let m = states_after(cfg, events, n);
    let packet = events[n].0;
    let now = events[n].1;
    let src = packet.source_ip;
    let m1 = expire_states(m, now, cfg.sequence_window, cfg.partial_state_timeout);
    let after = states_after(cfg, events, n + 1);
    assert(after == process_spec(cfg, m, packet, now).0);
    assert forall|ip: IpAddress| #[trigger] after.contains_key(ip) implies exists|w: Seq<int>|
        #[trigger] run_backs_state(cfg, events, ip, w, n + 1, after[ip]) by {
        if ip != src {
            lemma_process_isolates_sources(cfg, m, packet, now, ip);
            assert(m.contains_key(ip));
            let w = choose|w: Seq<int>| run_backs_state(cfg, events, ip, w, n, m[ip]);
            lemma_run_keeps(cfg, events, ip, w, n, m[ip]);
            assert(after[ip] == m[ip]);
        } else {
            let expected: int = if m1.contains_key(src) {
                m1[src].next_step as int
            } else {
                0
            };
            assert(packet.payload_size <= cfg.max_payload_size);
            if !matches_step(cfg.sequence, expected, packet) || expected == 0 {
                // A fresh partial state opened by this packet as the first step.
                assert(matches_step(cfg.sequence, 0, packet));
                let s = SourceState { next_step: 1, first_seen: now, last_seen: now };
                assert(after[ip] == s);
                let w = seq![n];
                assert(ordered_steps(cfg, events, ip, w, n + 1));
                assert(w[0] == n);
                assert(unbroken_run(cfg, events, ip, w));
                assert(run_backs_state(cfg, events, ip, w, n + 1, s));
            } else {
                assert(m1.contains_key(src));
                assert(expected + 1 != cfg.sequence.len());
                let old = m[src];
                assert(m1[src] == old);
                assert(state_live(old, now, cfg.sequence_window, cfg.partial_state_timeout));
                let w0 = choose|w: Seq<int>| run_backs_state(cfg, events, src, w, n, old);
                lemma_run_extends(cfg, events, src, w0, n, old);
                assert(after[ip] == SourceState {
                    next_step: (old.next_step + 1) as usize,
                    first_seen: old.first_seen,
                    last_seen: now,
                });
            }
        }
    }
}

proof fn lemma_history_always(cfg: TrackerSettings, events: Seq<(KnockPacket, u64)>, n: int)
    requires
        0 <= n <= events.len(),
        cfg.sequence.len() <= usize::MAX,
    ensures
        history_backs_states(cfg, events, n),
    decreases n,
{
    if n == 0 {
        assert(states_after(cfg, events, 0) == Map::<IpAddress, SourceState>::empty());
    } else {
        lemma_history_always(cfg, events, n - 1);
        lemma_history_step(cfg, events, n - 1);
    }
}

/// A source is let in only after it sent every step of the sequence, in
/// order, each with the right protocol, port and payload size, as its last
/// packets: none of its other packets comes between them, each follows the
/// one before within the idle timeout, and the first is no longer than the
/// sequence window before the last.
pub proof fn lemma_accepted_source_sent_every_step(
    cfg: TrackerSettings,
    events: Seq<(KnockPacket, u64)>,
    n: int,
)
    requires
        0 <= n < events.len(),
        cfg.sequence.len() <= usize::MAX,
        outcome_at(cfg, events, n) is Accepted,
    ensures
        exists|w: Seq<int>|
            {
                &&& ordered_steps(cfg, events, events[n].0.source_ip, w, n + 1)
                &&& unbroken_run(cfg, events, events[n].0.source_ip, w)
                &&& w.len() == cfg.sequence.len()
                &&& w[w.len() - 1] == n
                &&& elapsed(events[n].1, events[w[0]].1) <= cfg.sequence_window
            },
{
    lemma_history_always(cfg, events, n);
    let m = states_after(cfg, events, n);
    let packet = events[n].0;
    let now = events[n].1;
    let src = packet.source_ip;
    lemma_accept_requires_progress(cfg, m, packet, now);
    if cfg.sequence.len() == 1 {
        let w = seq![n];
        assert(ordered_steps(cfg, events, src, w, n + 1));
        assert(unbroken_run(cfg, events, src, w));
        assert(w[w.len() - 1] == n);
    } else {
        let old = m[src];
        let w0 = choose|w: Seq<int>| run_backs_state(cfg, events, src, w, n, old);
        lemma_run_extends(cfg, events, src, w0, n, old);
        let w = w0.push(n);
        assert(w[w0.len() as int] == n);
        assert(w[0] == w0[0]);
        assert(w[w.len() - 1] == n);
    }
}

proof fn lemma_states_in_range(cfg: TrackerSettings, events: Seq<(KnockPacket, u64)>, n: int)
    requires
        0 <= n <= events.len(),
        cfg.sequence.len() <= usize::MAX,
    ensures
        forall|ip: IpAddress| #[trigger]
            states_after(cfg, events, n).contains_key(ip) ==> 1 <= states_after(cfg, events, n)[ip].next_step
                < cfg.sequence.len(),
    decreases n,
{
    if n > 0 {
        lemma_states_in_range(cfg, events, n - 1);
        let m = states_after(cfg, events, n - 1);
        let packet = events[n - 1].0;
        let now = events[n - 1].1;
        let m1 = expire_states(m, now, cfg.sequence_window, cfg.partial_state_timeout);
        assert(states_after(cfg, events, n) == process_spec(cfg, m, packet, now).0);
        assert forall|ip: IpAddress| #[trigger] m1.contains_key(ip) implies 1 <= m1[ip].next_step
            < cfg.sequence.len() by {
            assert(m.contains_key(ip));
        }
    }
}

proof fn lemma_state_survives(
    cfg: TrackerSettings,
    events: Seq<(KnockPacket, u64)>,
    s: IpAddress,
    st: SourceState,
    a: int,
    b: int,
    until: u64,
)
    requires
        0 <= a <= b <= events.len(),
        states_after(cfg, events, a).contains_key(s),
        states_after(cfg, events, a)[s] == st,
        state_live(st, until, cfg.sequence_window, cfg.partial_state_timeout),
        forall|k: int| a <= k < b ==> (#[trigger] events[k]).0.source_ip != s && events[k].1 <= until,
    ensures
        states_after(cfg, events, b).contains_key(s),
        states_after(cfg, events, b)[s] == st,
    decreases b - a,
{
    if b > a {
        lemma_state_survives(cfg, events, s, st, a, b - 1, until);
        let k = b - 1;
        let m = states_after(cfg, events, k);
        assert(events[k].0.source_ip != s && events[k].1 <= until);
        lemma_process_isolates_sources(cfg, m, events[k].0, events[k].1, s);
        assert(state_live(st, events[k].1, cfg.sequence_window, cfg.partial_state_timeout));
    }
}

/// Hypotheses of the completeness law: `w` lists, in order, the packets of
/// `s` that carry the sequence's steps, with no other packet from `s` among
/// them; the steps differ from the first; every step fits the payload limit;
/// the clock never runs back; each gap is within the idle timeout and the
/// whole span within the window; and the first step found room for a
/// partial state (or the sequence has one step).
pub open spec fn sent_sequence_in_time(
    cfg: TrackerSettings,
    events: Seq<(KnockPacket, u64)>,
    s: IpAddress,
    w: Seq<int>,
) -> bool {
    let n = cfg.sequence.len() as int;
    &&& n >= 1
    &&& w.len() == n
    &&& ordered_steps(cfg, events, s, w, events.len() as int)
    &&& forall|j: int, k: int|
        #![trigger w[j], events[k]]
        0 <= j < n - 1 && w[j] < k < w[j + 1] ==> events[k].0.source_ip != s
    &&& forall|e: int| 1 <= e < n ==> #[trigger] cfg.sequence[e] != cfg.sequence[0]
    &&& forall|e: int| 0 <= e < n ==> #[trigger] cfg.sequence[e].size <= cfg.max_payload_size
    &&& forall|i: int, k: int|
        #![trigger events[i], events[k]]
        0 <= i <= k < events.len() ==> events[i].1 <= events[k].1
    &&& events[w[n - 1]].1 - events[w[0]].1 <= cfg.sequence_window
    &&& forall|j: int|
        0 <= j < n - 1 ==> events[#[trigger] w[j + 1]].1 - events[w[j]].1 <= cfg.partial_state_timeout
    &&& (n == 1 || expire_states(
        states_after(cfg, events, w[0]),
        events[w[0]].1,
        cfg.sequence_window,
        cfg.partial_state_timeout,
    ).remove(s).len() < cfg.max_partial_states)
}

proof fn lemma_step_progress(
    cfg: TrackerSettings,
    events: Seq<(KnockPacket, u64)>,
    s: IpAddress,
    w: Seq<int>,
    j: int,
)
    requires
        cfg.sequence.len() <= usize::MAX,
        sent_sequence_in_time(cfg, events, s, w),
        0 <= j < w.len(),
    ensures
        outcome_at(cfg, events, w[j]) == (if j + 1 == w.len() {
            KnockOutcome::Accepted
        } else {
            KnockOutcome::Progress { next_step: (j + 1) as usize }
        }),
        j + 1 < w.len() ==> states_after(cfg, events, w[j] + 1).contains_key(s)
            && states_after(cfg, events, w[j] + 1)[s] == (SourceState {
            next_step: (j + 1) as usize,
            first_seen: events[w[0]].1,
            last_seen: events[w[j]].1,
        }),
    decreases j,
{
    let n = w.len();
    let k = w[j];
    assert(0 <= k < events.len() && events[k].0.source_ip == s && matches_step(cfg.sequence, j, events[k].0));
    let m = states_after(cfg, events, k);
    let packet = events[k].0;
    let now = events[k].1;
    let m1 = expire_states(m, now, cfg.sequence_window, cfg.partial_state_timeout);
    assert(states_after(cfg, events, k + 1) == process_spec(cfg, m, packet, now).0);
    assert(cfg.sequence[j].size <= cfg.max_payload_size);
    if j == 0 {
        lemma_states_in_range(cfg, events, k);
        if m1.contains_key(s) {
            let e = m1[s].next_step as int;
            assert(m.contains_key(s));
            assert(1 <= e < cfg.sequence.len());
            assert(cfg.sequence[e] != cfg.sequence[0]);
            assert(!matches_step(cfg.sequence, e, packet));
        } else {
            assert(m1.remove(s) =~= m1);
        }
    } else {
        lemma_step_progress(cfg, events, s, w, j - 1);
        let prev = w[j - 1];
        let st = SourceState {
            next_step: j as usize,
            first_seen: events[w[0]].1,
            last_seen: events[prev].1,
        };
        assert(prev < k);
        assert(events[k].1 - events[prev].1 <= cfg.partial_state_timeout);
        assert(events[w[0]].1 <= events[k].1 <= events[w[n - 1]].1) by {
            assert(w[0] <= k) by {
                if j > 0 {
                    assert(w[0] < w[j]);
                }
            }
            if j < n - 1 {
                assert(w[j] < w[n - 1]);
            }
        }
        assert forall|i: int| prev + 1 <= i < k implies (#[trigger] events[i]).0.source_ip != s
            && events[i].1 <= now by {
            assert(w[j - 1] < i < w[j]);
        }
        lemma_state_survives(cfg, events, s, st, prev + 1, k, now);
    }
}

/// A source that sends every step of the sequence in order, each within the
/// idle timeout of the one before and all within the sequence window, is let
/// in on its last step (when the steps differ from the first, fit the payload
/// limit, and the first step found room for a partial state): the converse of
/// `lemma_accepted_source_sent_every_step`.
pub proof fn lemma_every_step_in_time_accepted(
    cfg: TrackerSettings,
    events: Seq<(KnockPacket, u64)>,
    s: IpAddress,
    w: Seq<int>,
)
    requires
        cfg.sequence.len() <= usize::MAX,
        sent_sequence_in_time(cfg, events, s, w),
    ensures
        outcome_at(cfg, events, w[w.len() - 1]) is Accepted,
{
    lemma_step_progress(cfg, events, s, w, w.len() - 1);
}

} // verus!
