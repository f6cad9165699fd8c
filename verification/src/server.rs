//! The daemon's packet handling: bans, knock tracking, rate limits, and the
//! audit events each packet produces.
//!
//! Times are nanoseconds on a monotonic clock.
use crate::config::{text_bytes, Config, Protocol};
use crate::firewall::{
    add_member_args, text_of, CommandError, CommandLog, CommandRecord, CommandRunner, CommandText, Firewall,
    FirewallError,
};
use crate::knock::{
    process_spec, KnockOutcome, KnockPacket, KnockTracker, SourceState, TrackerSettings,
};
use crate::net::{ip_text, lemma_ip_eq_is_equality, IpAddress};
use crate::rate_limit::{
    allow_spec, lemma_fresh_key_gets_capacity, lemma_refill_adds_to_remaining, min_int, requests_at,
    Bucket, NANOS_PER_SECOND, LimiterSettings, TokenBucketLimiter};
use crate::store::KeyedStore;
use crate::text::{ascii_case_eq, dec_text, eq_ignore_case, push_decimal};
use vstd::laws_eq::*;
use vstd::prelude::*;

verus! {

/// The key of the packet telemetry limiter: one shared channel.
#[derive(Clone, Copy, Debug)]
pub enum TelemetryChannel {
    Packet,
}

impl PartialEq for TelemetryChannel {
    fn eq(&self, other: &TelemetryChannel) -> (r: bool) {
        true
    }
}

impl Eq for TelemetryChannel {

}

impl vstd::std_specs::cmp::PartialEqSpecImpl for TelemetryChannel {
    open spec fn obeys_eq_spec() -> bool {
        true
    }

    open spec fn eq_spec(&self, other: &TelemetryChannel) -> bool {
        true
    }
}

proof fn lemma_channel_eq_is_equality()
    ensures
        obeys_concrete_eq::<TelemetryChannel>(),
{
    reveal(obeys_concrete_eq);
}

/// One audit log entry: an event name and its message.
#[derive(Clone, Debug, PartialEq, Eq)]
pub struct AuditEvent {
    pub event: String,
    pub message: String,
}

/// The line an audit entry is written as, stamped with `timestamp` seconds.
pub open spec fn audit_line_text(timestamp: u64, event: Seq<char>, message: Seq<char>) -> Seq<char> {
    "ts="@ + dec_text(timestamp as nat) + " event="@ + event + " "@ + message
}

/// Formats an audit entry as the line written to the log (without its line end).
pub fn audit_line(timestamp: u64, event: &str, message: &str) -> (r: String)
    ensures
        r@ == audit_line_text(timestamp, event@, message@),
{
    let mut line = String::from_str("ts=");
    push_decimal(&mut line, timestamp);
    line.append(" event=");
    line.append(event);
    line.append(" ");
    line.append(message);
    line
}

/// Audit entries as (event, message) texts.
pub open spec fn events_view(es: Seq<AuditEvent>) -> Seq<(Seq<char>, Seq<char>)> {
    es.map_values(|e: AuditEvent| (e.event@, e.message@))
}

/// A firewall command failed while a packet was handled: the entries written
/// so far and the failure.
#[derive(Clone, Debug, PartialEq, Eq)]
pub struct PacketFailure {
    pub events: Vec<AuditEvent>,
    pub error: CommandError,
}

/// `secs` seconds in nanoseconds, saturating.
pub open spec fn secs_to_ns(secs: u64) -> u64 {
    if secs * NANOS_PER_SECOND > u64::MAX {
        u64::MAX
    } else {
        (secs * NANOS_PER_SECOND) as u64
    }
}

fn secs_to_ns_exec(secs: u64) -> (r: u64)
    ensures
        r == secs_to_ns(secs),
{
    match secs.checked_mul(NANOS_PER_SECOND) {
        Some(v) => v,
        None => u64::MAX,
    }
}

/// One minute, the refill interval of both limiters, in nanoseconds.
pub const LIMITER_INTERVAL_NS: u64 = 60_000_000_000;

/// `a * 10`, saturating.
pub open spec fn times_ten(a: u32) -> u32 {
    if a * 10 > u32::MAX {
        u32::MAX
    } else {
        (a * 10) as u32
    }
}

fn times_ten_exec(a: u32) -> (r: u32)
    ensures
        r == times_ten(a),
{
    match a.checked_mul(10) {
        Some(v) => v,
        None => u32::MAX,
    }
}

/// When a ban made at `now` ends.
pub open spec fn ban_expiry(now: u64, ban_timeout_secs: u64) -> u64 {
    if now + secs_to_ns(ban_timeout_secs) > u64::MAX {
        u64::MAX
    } else {
        (now + secs_to_ns(ban_timeout_secs)) as u64
    }
}

/// Most bans remembered at once. The ban set in the firewall holds every ban
/// regardless; the daemon only remembers them to skip packets from banned
/// sources, so a flood of spoofed sources cannot grow this memory without end.
pub const MAX_BANNED_SOURCES: usize = 4096;

/// The remembered bans after recording one for `ip` that ends at `expires_at`:
/// recorded when `ip` is already remembered or there is room, dropped otherwise.
pub open spec fn remember_ban(m: Map<IpAddress, u64>, ip: IpAddress, expires_at: u64) -> Map<
    IpAddress,
    u64,
> {
    if m.contains_key(ip) || m.len() < MAX_BANNED_SOURCES {
        m.insert(ip, expires_at)
    } else {
        m
    }
}

/// The bans still in force at `now`.
pub open spec fn live_bans(m: Map<IpAddress, u64>, now: u64) -> Map<IpAddress, u64> {
    Map::new(|k: IpAddress| m.contains_key(k) && m[k] > now, |k: IpAddress| m[k])
}

/// Whether a log level asks for packet telemetry (`debug` or `trace`, any case).
pub open spec fn telemetry_level(level: Seq<char>) -> bool {
    ascii_case_eq(text_bytes(level), text_bytes("debug"@)) || ascii_case_eq(
        text_bytes(level),
        text_bytes("trace"@),
    )
}

/// The redacted class of an outcome, as logged.
pub open spec fn outcome_class(o: KnockOutcome) -> Seq<char> {
    match o {
        KnockOutcome::Accepted => "accepted"@,
        KnockOutcome::Progress { .. } => "progress"@,
        KnockOutcome::Rejected => "rejected"@,
        KnockOutcome::Oversized => "oversized"@,
    }
}

/// The two telemetry entries of a packet: that the source was seen, and the
/// class of the outcome.
pub open spec fn telemetry_events(ip: IpAddress, o: KnockOutcome) -> Seq<(Seq<char>, Seq<char>)> {
    seq![
        ("packet_seen"@, "source_ip="@ + ip_text(ip) + " observed=true"@),
        ("knock_outcome"@, "source_ip="@ + ip_text(ip) + " outcome="@ + outcome_class(o)),
    ]
}

/// The entry of a rate-limit ban.
pub open spec fn ban_event(ip: IpAddress, ban_timeout: u64) -> (Seq<char>, Seq<char>) {
    (
        "rate_limit_ban"@,
        "source_ip="@ + ip_text(ip) + " ban_timeout_seconds="@ + dec_text(ban_timeout as nat),
    )
}

/// The entry of a temporary SSH allow.
pub open spec fn allow_event(ip: IpAddress, ip_timeout: u64) -> (Seq<char>, Seq<char>) {
    (
        "ssh_allow"@,
        "source_ip="@ + ip_text(ip) + " allow_timeout_seconds="@ + dec_text(ip_timeout as nat),
    )
}

/// The entry of a failed firewall command.
pub open spec fn failure_event(event: Seq<char>, ip: IpAddress, error: Seq<char>) -> (
    Seq<char>,
    Seq<char>,
) {
    (event, "source_ip="@ + ip_text(ip) + " error="@ + error)
}

/// Whether a log went from `before` to `after` by running exactly one more
/// command, `command`.
pub open spec fn ran_one(before: Seq<CommandRecord>, after: Seq<CommandRecord>, command: CommandText) -> bool {
    &&& after.len() == before.len() + 1
    &&& after.take(before.len() as int) == before
    &&& text_of(after.last().0) == command
}

proof fn lemma_one_command(
    before: Seq<CommandRecord>,
    after: Seq<CommandRecord>,
    command: CommandText,
    r: Result<(), CommandError>,
)
    requires
        crate::firewall::ran_plan(before, after, seq![(command, None::<CommandText>)], r),
    ensures
        ran_one(before, after, command),
        after.last().1 == r,
{
    reveal_with_fuel(crate::firewall::follows_plan, 2);
    let t = after.skip(before.len() as int);
    assert(t[0] == after.last());
    if t[0].1 is Ok {
        assert(t.drop_first().len() == 0);
        assert(t[0].1->Ok_0 == ());
        assert(r->Ok_0 == ());
    }
}

/// The daemon's decision state.
pub struct Server {
    config: Config,
    tracker: KnockTracker,
    firewall: Firewall,
    source_limiter: TokenBucketLimiter<IpAddress>,
    packet_telemetry_limiter: TokenBucketLimiter<TelemetryChannel>,
    banned_sources: KeyedStore<IpAddress, u64>,
}

/// The tracker settings a configuration asks for.
pub open spec fn tracker_settings_of(c: Config) -> TrackerSettings {
    TrackerSettings {
        sequence: c.knock.sequence@,
        sequence_window: secs_to_ns(c.sequence_window),
        partial_state_timeout: secs_to_ns(c.partial_state_timeout),
        max_partial_states: c.max_partial_states,
        max_payload_size: c.max_payload_size,
    }
}

/// The per-source invalid-packet limiter settings a configuration asks for.
pub open spec fn source_limiter_settings_of(c: Config) -> LimiterSettings {
    LimiterSettings {
        capacity: c.invalid_burst_limit,
        refill: c.invalid_refill_per_minute,
        interval: LIMITER_INTERVAL_NS,
    }
}

/// The packet telemetry limiter settings a configuration asks for: ten times
/// the per-source allowance, shared by all sources.
pub open spec fn telemetry_limiter_settings_of(c: Config) -> LimiterSettings {
    LimiterSettings {
        capacity: times_ten(c.invalid_burst_limit),
        refill: times_ten(c.invalid_refill_per_minute),
        interval: LIMITER_INTERVAL_NS,
    }
}

fn copy_steps(steps: &Vec<crate::config::KnockStep>) -> (r: Vec<crate::config::KnockStep>)
    ensures
        r@ == steps@,
{
    let mut r: Vec<crate::config::KnockStep> = Vec::new();
    let mut i: usize = 0;
    while i < steps.len()
        invariant
            i <= steps@.len(),
            r@ == steps@.subrange(0, i as int),
        decreases steps@.len() - i,
    {
        r.push(steps[i]);
        i = i + 1;
        assert(r@ =~= steps@.subrange(0, i as int));
    }
    assert(r@ =~= steps@);
    r
}

fn event(name: &str, message: String) -> (r: AuditEvent)
    ensures
        r.event@ == name@,
        r.message@ == message@,
{
    AuditEvent { event: String::from_str(name), message }
}

fn source_prefix(ip: IpAddress) -> (r: String)
    ensures
        r@ == "source_ip="@ + ip_text(ip),
{
    let mut s = String::from_str("source_ip=");
    let t = ip.to_text();
    s.append(t.as_str());
    s
}

impl Server {
    /// The configuration the server was made from.
    pub closed spec fn config(&self) -> Config {
        self.config
    }

    /// The knock tracker's partial states.
    pub closed spec fn partial_states(&self) -> Map<IpAddress, SourceState> {
        self.tracker.partial_states()
    }

    /// The per-source invalid-packet buckets.
    pub closed spec fn source_buckets(&self) -> Map<IpAddress, Bucket> {
        self.source_limiter.buckets()
    }

    /// The shared telemetry bucket.
    pub closed spec fn telemetry_buckets(&self) -> Map<TelemetryChannel, Bucket> {
        self.packet_telemetry_limiter.buckets()
    }

    /// Banned sources and when each ban ends.
    pub closed spec fn bans(&self) -> Map<IpAddress, u64> {
        self.banned_sources@
    }

    /// The firewall integration.
    pub closed spec fn firewall(&self) -> Firewall {
        self.firewall
    }

    /// Every part is well formed and set up as the configuration asks.
    pub closed spec fn wf(&self) -> bool {
        &&& self.tracker.wf()
        &&& self.source_limiter.wf()
        &&& self.packet_telemetry_limiter.wf()
        &&& self.banned_sources.wf()
        &&& self.banned_sources@.dom().finite()
        &&& self.banned_sources@.len() <= MAX_BANNED_SOURCES
        &&& self.firewall.wf()
        &&& self.tracker.settings() == tracker_settings_of(self.config)
        &&& self.source_limiter.settings() == source_limiter_settings_of(self.config)
        &&& self.packet_telemetry_limiter.settings() == telemetry_limiter_settings_of(self.config)
        &&& self.firewall.allow_set() == self.config.ipset_name@
        &&& self.firewall.ban_set() == self.config.ban_ipset_name@
        &&& self.firewall.allow_timeout() == self.config.ip_timeout
        &&& self.firewall.ban_duration() == self.config.ban_timeout
        &&& self.firewall.backend() == self.config.firewall_backend
        &&& self.firewall.family() == self.config.address_family
    }

    /// Creates a server from a configuration.
    pub fn new(config: Config) -> (r: Result<Self, FirewallError>)
        ensures
            r is Ok <==> (crate::config::ipset_name_error(text_bytes(config.ipset_name@)) is None
                && crate::config::ipset_name_error(text_bytes(config.ban_ipset_name@)) is None
                && config.ip_timeout > 0 && config.ban_timeout > 0),
            r matches Ok(s) ==> {
                &&& s.wf()
                &&& s.config() == config
                &&& s.partial_states() == Map::<IpAddress, SourceState>::empty()
                &&& s.source_buckets() == Map::<IpAddress, Bucket>::empty()
                &&& s.telemetry_buckets() == Map::<TelemetryChannel, Bucket>::empty()
                &&& s.bans() == Map::<IpAddress, u64>::empty()
            },
    {
        let tracker = KnockTracker::new_with_capacity(
            copy_steps(&config.knock.sequence),
            secs_to_ns_exec(config.sequence_window),
            secs_to_ns_exec(config.partial_state_timeout),
            config.max_partial_states,
            config.max_payload_size,
        );
        let firewall = match Firewall::new(
            config.ipset_name.clone(),
            config.ban_ipset_name.clone(),
            config.ip_timeout,
            config.ban_timeout,
            config.firewall_backend,
            config.address_family,
        ) {
            Ok(f) => f,
            Err(e) => return Err(e),
        };
        let source_burst = config.invalid_burst_limit;
        let source_refill = config.invalid_refill_per_minute;
        let source_limiter = TokenBucketLimiter::new(source_burst, source_refill, LIMITER_INTERVAL_NS);
        let packet_telemetry_limiter = TokenBucketLimiter::new(
            times_ten_exec(source_burst),
            times_ten_exec(source_refill),
            LIMITER_INTERVAL_NS,
        );
        Ok(Server {
            config,
            tracker,
            firewall,
            source_limiter,
            packet_telemetry_limiter,
            banned_sources: KeyedStore::new(),
        })
    }

    /// The firewall integration the server bans and allows through.
    pub fn firewall_rules(&self) -> (r: &Firewall)
        ensures
            *r == self.firewall(),
    {
        &self.firewall
    }

    /// Drops bans that have ended by `now`.
    pub fn expire_banned_sources(&mut self, now: u64)
        requires
            old(self).wf(),
        ensures
            final(self).wf(),
            final(self).config() == old(self).config(),
            final(self).partial_states() == old(self).partial_states(),
            final(self).source_buckets() == old(self).source_buckets(),
            final(self).telemetry_buckets() == old(self).telemetry_buckets(),
            final(self).bans() == live_bans(old(self).bans(), now),
    {
        let ghost before = self.banned_sources@;
        let live = |_k: &IpAddress, expires_at: &u64| -> (keep: bool)
            ensures
                keep == (*expires_at > now),
            { *expires_at > now };
        self.banned_sources.retain(live);
        assert(self.banned_sources@ =~= live_bans(before, now));
        proof {
            self.banned_sources.lemma_finite();
            vstd::set_lib::lemma_len_subset(self.banned_sources@.dom(), before.dom());
        }
    }

    /// Whether `source_ip` is banned at `now`, after dropping ended bans.
    pub fn is_source_banned(&mut self, source_ip: IpAddress, now: u64) -> (r: bool)
        requires
            old(self).wf(),
        ensures
            final(self).wf(),
            final(self).config() == old(self).config(),
            final(self).partial_states() == old(self).partial_states(),
            final(self).source_buckets() == old(self).source_buckets(),
            final(self).telemetry_buckets() == old(self).telemetry_buckets(),
            final(self).bans() == live_bans(old(self).bans(), now),
            r == live_bans(old(self).bans(), now).contains_key(source_ip),
    {
        proof {
            lemma_ip_eq_is_equality();
        }
        self.expire_banned_sources(now);
        self.banned_sources.contains_key(&source_ip)
    }

    /// Records that `source_ip` was banned at `now`, for the configured ban timeout.
    pub fn remember_banned_source(&mut self, source_ip: IpAddress, now: u64)
        requires
            old(self).wf(),
        ensures
            final(self).wf(),
            final(self).config() == old(self).config(),
            final(self).partial_states() == old(self).partial_states(),
            final(self).source_buckets() == old(self).source_buckets(),
            final(self).telemetry_buckets() == old(self).telemetry_buckets(),
            final(self).bans() == remember_ban(
                old(self).bans(),
                source_ip,
                ban_expiry(now, old(self).config().ban_timeout),
            ),
    {
        proof {
            lemma_ip_eq_is_equality();
            self.banned_sources.lemma_finite();
        }
        let ns = secs_to_ns_exec(self.config.ban_timeout);
        let expires_at = match now.checked_add(ns) {
            Some(v) => v,
            None => u64::MAX,
        };
        if self.banned_sources.contains_key(&source_ip)
            || self.banned_sources.len() < MAX_BANNED_SOURCES {
            let ghost pre = self.banned_sources@;
            self.banned_sources.insert(source_ip, expires_at);
            proof {
                self.banned_sources.lemma_finite();
                if pre.contains_key(source_ip) {
                    assert(self.banned_sources@.dom() =~= pre.dom());
                } else {
                    assert(self.banned_sources@.dom() =~= pre.dom().insert(source_ip));
                }
            }
        }
    }

    /// Returns the number of recorded bans.
    pub fn banned_source_count(&self) -> (r: usize)
        requires
            self.wf(),
        ensures
            r == self.bans().len(),
    {
        self.banned_sources.len()
    }

    /// Whether a ban for `source_ip` is recorded, ended or not.
    pub fn has_ban_record(&self, source_ip: IpAddress) -> (r: bool)
        requires
            self.wf(),
        ensures
            r == self.bans().contains_key(source_ip),
    {
        proof {
            lemma_ip_eq_is_equality();
        }
        self.banned_sources.contains_key(&source_ip)
    }

    /// Whether the configured log level asks for packet telemetry.
    pub fn packet_telemetry_enabled(&self) -> (r: bool)
        ensures
            r == telemetry_level(self.config().log_level@),
    {
        eq_ignore_case(self.config.log_level.as_str(), "debug") || eq_ignore_case(
            self.config.log_level.as_str(),
            "trace",
        )
    }

    /// The redacted class of an outcome, as logged.
    pub fn redacted_outcome(outcome: &KnockOutcome) -> (r: &'static str)
        ensures
            r@ == outcome_class(*outcome),
    {
        match outcome {
            KnockOutcome::Accepted => "accepted",
            KnockOutcome::Progress { .. } => "progress",
            KnockOutcome::Rejected => "rejected",
            KnockOutcome::Oversized => "oversized",
        }
    }
    /// The telemetry entries for a packet: both entries when the log level asks
    /// for telemetry and the shared telemetry limiter allows, none otherwise.
    /// The limiter is consulted only when the level asks for telemetry.
    pub fn log_packet_telemetry(&mut self, source_ip: IpAddress, outcome: &KnockOutcome, now: u64) -> (r:
        Vec<AuditEvent>)
        requires
            old(self).wf(),
        ensures
            final(self).wf(),
            final(self).config() == old(self).config(),
            final(self).partial_states() == old(self).partial_states(),
            final(self).source_buckets() == old(self).source_buckets(),
            final(self).bans() == old(self).bans(),
            ({
                let enabled = telemetry_level(old(self).config().log_level@);
                let step = allow_spec(
                    telemetry_limiter_settings_of(old(self).config()),
                    old(self).telemetry_buckets(),
                    TelemetryChannel::Packet,
                    now,
                );
                &&& final(self).telemetry_buckets() == (if enabled {
                    step.0
                } else {
                    old(self).telemetry_buckets()
                })
                &&& events_view(r@) == (if enabled && step.1 {
                    telemetry_events(source_ip, *outcome)
                } else {
                    Seq::empty()
                })
            }),
    {
        proof {
            lemma_channel_eq_is_equality();
        }
        let mut events: Vec<AuditEvent> = Vec::new();
        if !self.packet_telemetry_enabled() || !self.packet_telemetry_limiter.allow(
            TelemetryChannel::Packet,
            now,
        ) {
            assert(events_view(events@) =~= Seq::empty());
            return events;
        }
        let mut seen = source_prefix(source_ip);
        seen.append(" observed=true");
        events.push(event("packet_seen", seen));
        let mut classed = source_prefix(source_ip);
        classed.append(" outcome=");
        classed.append(Self::redacted_outcome(outcome));
        events.push(event("knock_outcome", classed));
        assert(events_view(events@) =~= telemetry_events(source_ip, *outcome));
        events
    }
    /// Handles one knock packet from `source_ip` at `now`.
    ///
    /// A banned source is ignored. Otherwise the packet goes to the knock
    /// tracker; a rejected or oversized packet spends one of the source's
    /// invalid-packet tokens, and when none is left the source is banned
    /// through the firewall (a ban the firewall refuses is reported and not
    /// remembered, and handling goes on). Otherwise telemetry is produced as
    /// configured, and a completed sequence allows the source through the
    /// firewall. Returns the audit entries to write, or, when the firewall
    /// refuses an allow, the failure together with the entries written before it.
    pub fn process_packet<R: CommandRunner>(
        &mut self,
        source_ip: IpAddress,
        protocol: Protocol,
        port: Option<u16>,
        payload_size: usize,
        now: u64,
        runner: &mut CommandLog<R>,
    ) -> (r: Result<Vec<AuditEvent>, PacketFailure>)
        requires
            old(self).wf(),
        ensures
            final(self).wf(),
            final(self).config() == old(self).config(),
            ({
                let cfg = old(self).config();
                let bans = live_bans(old(self).bans(), now);
                let packet = KnockPacket { source_ip, protocol, port, payload_size };
                let before = old(runner).history();
                let after = final(runner).history();
                if bans.contains_key(source_ip) {
                    &&& r matches Ok(events) && events@.len() == 0
                    &&& after == before
                    &&& final(self).bans() == bans
                    &&& final(self).partial_states() == old(self).partial_states()
                    &&& final(self).source_buckets() == old(self).source_buckets()
                    &&& final(self).telemetry_buckets() == old(self).telemetry_buckets()
                } else {
                    let (states, outcome) = process_spec(
                        tracker_settings_of(cfg),
                        old(self).partial_states(),
                        packet,
                        now,
                    );
                    let invalid = outcome is Rejected || outcome is Oversized;
                    let src = allow_spec(
                        source_limiter_settings_of(cfg),
                        old(self).source_buckets(),
                        source_ip,
                        now,
                    );
                    &&& final(self).partial_states() == states
                    &&& final(self).source_buckets() == (if invalid {
                        src.0
                    } else {
                        old(self).source_buckets()
                    })
                    &&& if invalid && !src.1 {
                        &&& final(self).telemetry_buckets() == old(self).telemetry_buckets()
                        &&& ran_one(before, after, ("ipset"@, add_member_args(cfg.ban_ipset_name@, source_ip, cfg.ban_timeout)))
                        &&& r matches Ok(events)
                        &&& match after.last().1 {
                            Ok(_) => {
                                &&& events_view(events@) == seq![ban_event(source_ip, cfg.ban_timeout)]
                                &&& final(self).bans() == remember_ban(
                                    bans,
                                    source_ip,
                                    ban_expiry(now, cfg.ban_timeout),
                                )
                            },
                            Err(e) => {
                                &&& events_view(events@) == seq![
                                    failure_event("firewall_ban_failed"@, source_ip, e.message@),
                                ]
                                &&& final(self).bans() == bans
                            },
                        }
                    } else {
                        let enabled = telemetry_level(cfg.log_level@);
                        let tel = allow_spec(
                            telemetry_limiter_settings_of(cfg),
                            old(self).telemetry_buckets(),
                            TelemetryChannel::Packet,
                            now,
                        );
                        let seen = if enabled && tel.1 {
                            telemetry_events(source_ip, outcome)
                        } else {
                            Seq::empty()
                        };
                        &&& final(self).telemetry_buckets() == (if enabled {
                            tel.0
                        } else {
                            old(self).telemetry_buckets()
                        })
                        &&& final(self).bans() == bans
                        &&& if outcome is Accepted {
                            &&& ran_one(before, after, ("ipset"@, add_member_args(cfg.ipset_name@, source_ip, cfg.ip_timeout)))
                            &&& match after.last().1 {
                                Ok(_) => r matches Ok(events) && events_view(events@) == seen.push(
                                    allow_event(source_ip, cfg.ip_timeout),
                                ),
                                Err(e) => r matches Err(f) && f.error == e && events_view(f.events@)
                                    == seen.push(
                                    failure_event("firewall_allow_failed"@, source_ip, e.message@),
                                ),
                            }
                        } else {
                            &&& after == before
                            &&& r matches Ok(events) && events_view(events@) == seen
                        }
                    }
                }
            }),
    {
        if self.is_source_banned(source_ip, now) {
            let none: Vec<AuditEvent> = Vec::new();
            return Ok(none);
        }
        let outcome = self.tracker.process(
            KnockPacket { source_ip, protocol, port, payload_size },
            now,
        );
        let invalid = match outcome {
            KnockOutcome::Rejected | KnockOutcome::Oversized => true,
            _ => false,
        };
        if invalid {
            proof {
                lemma_ip_eq_is_equality();
            }
            if !self.source_limiter.allow(source_ip, now) {
                let answer = self.firewall.ban_ip(runner, source_ip);
                proof {
                    lemma_one_command(old(runner).history(), runner.history(), ("ipset"@, add_member_args(self.config.ban_ipset_name@, source_ip, self.config.ban_timeout)), answer);
                }
                match answer {
                    Err(error) => {
                        // A failed ban is reported and the daemon goes on: the
                        // source stays rate limited and the next invalid packet
                        // tries again.
                        let mut message = source_prefix(source_ip);
                        message.append(" error=");
                        message.append(error.message.as_str());
                        let mut events: Vec<AuditEvent> = Vec::new();
                        events.push(event("firewall_ban_failed", message));
                        assert(events_view(events@) =~= seq![
                            failure_event("firewall_ban_failed"@, source_ip, error.message@),
                        ]);
                        return Ok(events);
                    },
                    Ok(u) => {
                        assert(u == ());
                    },
                }
                self.remember_banned_source(source_ip, now);
                let mut message = source_prefix(source_ip);
                message.append(" ban_timeout_seconds=");
                push_decimal(&mut message, self.config.ban_timeout);
                let mut events: Vec<AuditEvent> = Vec::new();
                events.push(event("rate_limit_ban", message));
                assert(events_view(events@) =~= seq![ban_event(source_ip, self.config.ban_timeout)]);
                return Ok(events);
            }
        }
        let mut events = self.log_packet_telemetry(source_ip, &outcome, now);
        if outcome == KnockOutcome::Accepted {
            let answer = self.firewall.add_ip(runner, source_ip);
            proof {
                lemma_one_command(old(runner).history(), runner.history(), ("ipset"@, add_member_args(self.config.ipset_name@, source_ip, self.config.ip_timeout)), answer);
            }
            match answer {
                Err(error) => {
                    let mut message = source_prefix(source_ip);
                    message.append(" error=");
                    message.append(error.message.as_str());
                    let ghost before = events@;
                    events.push(event("firewall_allow_failed", message));
                    assert(events_view(events@) =~= events_view(before).push(
                        failure_event("firewall_allow_failed"@, source_ip, error.message@),
                    ));
                    return Err(PacketFailure { events, error });
                },
                Ok(u) => {
                    assert(u == ());
                },
            }
            let mut message = source_prefix(source_ip);
            message.append(" allow_timeout_seconds=");
            push_decimal(&mut message, self.config.ip_timeout);
            let ghost before = events@;
            events.push(event("ssh_allow", message));
            assert(events_view(events@) =~= events_view(before).push(
                allow_event(source_ip, self.config.ip_timeout),
            ));
        }
        Ok(events)
    }
}

} // verus!

verus! {

/// A ban remembered at `now` (the source already remembered, or room left) is
/// in force before its timeout has passed and gone once it has (unless the
/// timeout overflows the clock).
pub proof fn lemma_ban_lifetime(
    bans: Map<IpAddress, u64>,
    ip: IpAddress,
    now: u64,
    ban_timeout_secs: u64,
    later: u64,
)
    requires
        bans.contains_key(ip) || bans.len() < MAX_BANNED_SOURCES,
        ban_timeout_secs > 0,
        now + ban_timeout_secs * NANOS_PER_SECOND <= u64::MAX,
    ensures
        live_bans(remember_ban(bans, ip, ban_expiry(now, ban_timeout_secs)), later).contains_key(ip)
            <==> later < now + ban_timeout_secs * NANOS_PER_SECOND,
{
}

/// Remembering a ban never takes the remembered bans past their bound.
pub proof fn lemma_remember_ban_bounded(bans: Map<IpAddress, u64>, ip: IpAddress, expires_at: u64)
    requires
        bans.dom().finite(),
        bans.len() <= MAX_BANNED_SOURCES,
    ensures
        remember_ban(bans, ip, expires_at).dom().finite(),
        remember_ban(bans, ip, expires_at).len() <= MAX_BANNED_SOURCES,
{
    if bans.contains_key(ip) {
        assert(bans.insert(ip, expires_at).dom() =~= bans.dom());
    }
}

/// A well-formed server remembers at most `MAX_BANNED_SOURCES` bans.
pub proof fn lemma_bans_bounded(s: &Server)
    requires
        s.wf(),
    ensures
        s.bans().dom().finite(),
        s.bans().len() <= MAX_BANNED_SOURCES,
{
}

/// A source the server has no bucket for may send `invalid_burst_limit`
/// invalid packets at one instant: of its invalid packets, exactly the first
/// `invalid_burst_limit` are allowed, and each later one finds the limiter
/// refusing, which bans the source.
pub proof fn lemma_invalid_burst_before_ban(
    c: Config,
    buckets: Map<IpAddress, Bucket>,
    ip: IpAddress,
    now: u64,
    n: nat,
)
    requires
        !buckets.contains_key(ip),
    ensures
        requests_at(source_limiter_settings_of(c), buckets, ip, now, n).1 == Seq::new(
            n,
            |j: int| j < c.invalid_burst_limit,
        ),
{
    lemma_fresh_key_gets_capacity(source_limiter_settings_of(c), buckets, ip, now, n);
}

/// A source gets `invalid_refill_per_minute` invalid packets back per whole
/// minute, up to `invalid_burst_limit`: with `tokens` left when its bucket
/// was last refilled at `t`, and no invalid packet since, exactly
/// `min(invalid_burst_limit, tokens + minutes * invalid_refill_per_minute)`
/// of its invalid packets `minutes` whole minutes later are allowed.
pub proof fn lemma_invalid_refill_per_minute(
    c: Config,
    buckets: Map<IpAddress, Bucket>,
    ip: IpAddress,
    t: u64,
    tokens: u32,
    minutes: nat,
    n: nat,
)
    requires
        buckets.contains_key(ip),
        buckets[ip] == (Bucket { tokens, last_refill: t }),
        minutes >= 1,
        t + minutes * (60 * NANOS_PER_SECOND) <= u64::MAX,
    ensures
        requests_at(
            source_limiter_settings_of(c),
            buckets,
            ip,
            (t + minutes * (60 * NANOS_PER_SECOND)) as u64,
            n,
        ).1 == Seq::new(
            n,
            |j: int| j < min_int(
                c.invalid_burst_limit as int,
                tokens + minutes * c.invalid_refill_per_minute,
            ),
        ),
{
    lemma_refill_adds_to_remaining(source_limiter_settings_of(c), buckets, ip, t, tokens, minutes, n);
}

/// Telemetry never reveals more than the source and the outcome's class: two
/// outcomes of one class (say, progress to different steps) log the same entries.
pub proof fn lemma_telemetry_redacted(ip: IpAddress, a: KnockOutcome, b: KnockOutcome)
    requires
        outcome_class(a) == outcome_class(b),
    ensures
        telemetry_events(ip, a) == telemetry_events(ip, b),
{
}

/// Expiring bans never adds one and keeps each surviving ban's end time.
pub proof fn lemma_live_bans_shrink(bans: Map<IpAddress, u64>, now: u64, ip: IpAddress)
    ensures
        live_bans(bans, now).contains_key(ip) ==> bans.contains_key(ip) && live_bans(bans, now)[ip]
            == bans[ip] && bans[ip] > now,
        bans.contains_key(ip) && bans[ip] > now ==> live_bans(bans, now).contains_key(ip),
{
}

} // verus!

verus! {

use crate::config::KnockStep;

/// The sockets the daemon opens for a knock sequence: each UDP and TCP port
/// once, in order of first use, and whether an ICMP echo socket is needed.
#[derive(Clone, Debug, PartialEq, Eq)]
pub struct ListenerPlan {
    pub udp_ports: Vec<u16>,
    pub tcp_ports: Vec<u16>,
    pub ping: bool,
}

/// Why no listener plan exists for a sequence.
#[derive(Clone, Copy, Debug, PartialEq, Eq, Structural)]
pub enum ListenerError {
    MissingUdpPort,
    MissingTcpPort,
}

/// The human-readable reason for a `ListenerError`.
pub open spec fn listener_error_text(e: ListenerError) -> Seq<char> {
    match e {
        ListenerError::MissingUdpPort => "validated udp step has port"@,
        ListenerError::MissingTcpPort => "validated tcp step has port"@,
    }
}

impl ListenerError {
    /// The human-readable reason.
    pub fn message(&self) -> (r: &'static str)
        ensures
            r@ == listener_error_text(*self),
    {
        match self {
            ListenerError::MissingUdpPort => "validated udp step has port",
            ListenerError::MissingTcpPort => "validated tcp step has port",
        }
    }
}

/// `ports` with `p` added at the end unless already present.
pub open spec fn add_port(ports: Seq<u16>, p: u16) -> Seq<u16> {
    if ports.contains(p) {
        ports
    } else {
        ports.push(p)
    }
}

/// The listener plan of the first `n` steps, or the first step that lacks a port.
pub open spec fn plan_of(steps: Seq<KnockStep>, n: int) -> Result<(Seq<u16>, Seq<u16>, bool), ListenerError>
    decreases n,
{
    if n <= 0 {
        Ok((Seq::empty(), Seq::empty(), false))
    } else {
        match plan_of(steps, n - 1) {
            Err(e) => Err(e),
            Ok(p) => {
                let s = steps[n - 1];
                match s.protocol {
                    Protocol::Udp => match s.port {
                        None => Err(ListenerError::MissingUdpPort),
                        Some(port) => Ok((add_port(p.0, port), p.1, p.2)),
                    },
                    Protocol::Tcp => match s.port {
                        None => Err(ListenerError::MissingTcpPort),
                        Some(port) => Ok((p.0, add_port(p.1, port), p.2)),
                    },
                    _ => Ok((p.0, p.1, true)),
                }
            },
        }
    }
}

proof fn lemma_plan_error_persists(steps: Seq<KnockStep>, k: int, n: int)
    requires
        0 <= k <= n,
        plan_of(steps, k) is Err,
    ensures
        plan_of(steps, n) == plan_of(steps, k),
    decreases n - k,
{
    if k < n {
        lemma_plan_error_persists(steps, k, n - 1);
    }
}

fn add_unique(ports: &mut Vec<u16>, p: u16)
    ensures
        final(ports)@ == add_port(old(ports)@, p),
{
    let mut i: usize = 0;
    while i < ports.len()
        invariant
            ports@ == old(ports)@,
            i <= ports@.len(),
            forall|j: int| 0 <= j < i ==> ports@[j] != p,
        decreases ports@.len() - i,
    {
        if ports[i] == p {
            return;
        }
        i = i + 1;
    }
    ports.push(p);
}

/// Plans the knock listeners for a sequence.
pub fn listener_plan(sequence: &Vec<KnockStep>) -> (r: Result<ListenerPlan, ListenerError>)
    ensures
        match plan_of(sequence@, sequence@.len() as int) {
            Ok(p) => r matches Ok(plan) && plan.udp_ports@ == p.0 && plan.tcp_ports@ == p.1
                && plan.ping == p.2,
            Err(e) => r == Err::<ListenerPlan, ListenerError>(e),
        },
{
    let mut udp: Vec<u16> = Vec::new();
    let mut tcp: Vec<u16> = Vec::new();
    let mut ping = false;
    let mut i: usize = 0;
    while i < sequence.len()
        invariant
            i <= sequence@.len(),
            plan_of(sequence@, i as int) == Ok::<(Seq<u16>, Seq<u16>, bool), ListenerError>(
                (udp@, tcp@, ping),
            ),
        decreases sequence@.len() - i,
    {
        let step = sequence[i];
        match step.protocol {
            Protocol::Udp => match step.port {
                None => {
                    proof {
                        lemma_plan_error_persists(sequence@, i + 1, sequence@.len() as int);
                    }
                    return Err(ListenerError::MissingUdpPort);
                },
                Some(port) => add_unique(&mut udp, port),
            },
            Protocol::Tcp => match step.port {
                None => {
                    proof {
                        lemma_plan_error_persists(sequence@, i + 1, sequence@.len() as int);
                    }
                    return Err(ListenerError::MissingTcpPort);
                },
                Some(port) => add_unique(&mut tcp, port),
            },
            _ => {
                ping = true;
            },
        }
        i = i + 1;
    }
    Ok(ListenerPlan { udp_ports: udp, tcp_ports: tcp, ping })
}

/// Bytes of the ICMP echo header that precede the payload in what a datagram
/// ICMP socket receives (such a socket hands over no IP header).
pub const ECHO_HEADER_BYTES: usize = 8;

/// The length of the buffer that receives a UDP or TCP knock: one byte more
/// than the largest accepted payload, so that an oversized one shows.
pub fn receive_buffer_len(max_payload_size: usize) -> (r: usize)
    ensures
        r == (if max_payload_size < usize::MAX { max_payload_size + 1 } else { usize::MAX as int }),
{
    max_payload_size.saturating_add(1)
}

/// The length of the buffer that receives an ICMP echo request: the echo
/// header and one byte more than the largest accepted payload.
pub fn echo_buffer_len(max_payload_size: usize) -> (r: usize)
    ensures
        r == (if max_payload_size + ECHO_HEADER_BYTES + 1 <= usize::MAX {
            max_payload_size + ECHO_HEADER_BYTES + 1
        } else {
            usize::MAX as int
        }),
{
    max_payload_size.saturating_add(ECHO_HEADER_BYTES + 1)
}

/// The payload size of an ICMP echo request of `received` bytes, echo header
/// included; zero when it is shorter than the header.
pub fn echo_payload_size(received: usize) -> (r: usize)
    ensures
        r == (if received >= ECHO_HEADER_BYTES { received - ECHO_HEADER_BYTES } else { 0 }),
{
    received.saturating_sub(ECHO_HEADER_BYTES)
}

} // verus!
