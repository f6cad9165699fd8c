//! Daemon configuration: the knock sequence, limits, and firewall settings.
use vstd::prelude::*;

verus! {

/// Transport of a knock step.
#[derive(Clone, Copy, Debug, PartialEq, Eq, Structural)]
pub enum Protocol {
    Tcp,
    Udp,
    Icmp,
}

/// Firewall command family.
#[derive(Clone, Copy, Debug, PartialEq, Eq, Structural)]
pub enum FirewallBackend {
    Iptables,
    Ip6tables,
}

/// ipset address family.
#[derive(Clone, Copy, Debug, PartialEq, Eq, Structural)]
pub enum AddressFamily {
    Ipv4,
    Ipv6,
}

/// One step of the knock sequence: a transport, a destination port for TCP
/// and UDP, and the exact payload size.
#[derive(Clone, Copy, Debug, PartialEq, Eq, Structural)]
pub struct KnockStep {
    pub protocol: Protocol,
    pub port: Option<u16>,
    pub size: usize,
}

} // verus!

verus! {

pub const DEFAULT_SEQUENCE_WINDOW: u64 = 5;

pub const DEFAULT_IP_TIMEOUT: u64 = 10;

pub const DEFAULT_PARTIAL_STATE_TIMEOUT: u64 = 10;

pub const DEFAULT_MAX_PARTIAL_STATES: usize = 4096;

pub const DEFAULT_MAX_PAYLOAD_SIZE: usize = 512;

pub const DEFAULT_INVALID_BURST_LIMIT: u32 = 20;

pub const DEFAULT_INVALID_REFILL_PER_MINUTE: u32 = 10;

pub const DEFAULT_BAN_TIMEOUT: u64 = 86_400;

/// The `[knock]` section: the ordered knock sequence.
#[derive(Clone, Debug, PartialEq, Eq)]
pub struct KnockSection {
    pub sequence: Vec<KnockStep>,
}

/// The daemon configuration. Durations are in seconds.
#[derive(Clone, Debug, PartialEq, Eq)]
pub struct Config {
    pub listen: String,
    pub ssh_port: u16,
    pub ipset_name: String,
    pub firewall_backend: FirewallBackend,
    pub address_family: AddressFamily,
    pub sequence_window: u64,
    pub ip_timeout: u64,
    pub partial_state_timeout: u64,
    pub max_partial_states: usize,
    pub max_payload_size: usize,
    pub log_level: String,
    pub log_file: String,
    pub invalid_burst_limit: u32,
    pub invalid_refill_per_minute: u32,
    pub ban_timeout: u64,
    pub ban_ipset_name: String,
    pub knock: KnockSection,
}

/// Default firewall backend.
pub fn default_firewall_backend() -> (r: FirewallBackend)
    ensures
        r == FirewallBackend::Iptables,
{
    FirewallBackend::Iptables
}

/// Default ipset address family.
pub fn default_address_family() -> (r: AddressFamily)
    ensures
        r == AddressFamily::Ipv4,
{
    AddressFamily::Ipv4
}

/// Default sequence window, in seconds.
pub fn default_sequence_window() -> (r: u64)
    ensures
        r == DEFAULT_SEQUENCE_WINDOW,
{
    DEFAULT_SEQUENCE_WINDOW
}

/// Default allow timeout, in seconds.
pub fn default_ip_timeout() -> (r: u64)
    ensures
        r == DEFAULT_IP_TIMEOUT,
{
    DEFAULT_IP_TIMEOUT
}

/// Default idle timeout of a partial knock state, in seconds.
pub fn default_partial_state_timeout() -> (r: u64)
    ensures
        r == DEFAULT_PARTIAL_STATE_TIMEOUT,
{
    DEFAULT_PARTIAL_STATE_TIMEOUT
}

/// Default capacity of the partial-state table.
pub fn default_max_partial_states() -> (r: usize)
    ensures
        r == DEFAULT_MAX_PARTIAL_STATES,
{
    DEFAULT_MAX_PARTIAL_STATES
}

/// Default largest accepted knock payload.
pub fn default_max_payload_size() -> (r: usize)
    ensures
        r == DEFAULT_MAX_PAYLOAD_SIZE,
{
    DEFAULT_MAX_PAYLOAD_SIZE
}

/// Default audit verbosity.
pub fn default_log_level() -> (r: String)
    ensures
        r@ == "info"@,
{
    String::from_str("info")
}

/// Default audit log path.
pub fn default_log_file() -> (r: String)
    ensures
        r@ == "/var/log/sshknockd/sshknockd.log"@,
{
    String::from_str("/var/log/sshknockd/sshknockd.log")
}

/// Default invalid-packet burst per source.
pub fn default_invalid_burst_limit() -> (r: u32)
    ensures
        r == DEFAULT_INVALID_BURST_LIMIT,
{
    DEFAULT_INVALID_BURST_LIMIT
}

/// Default invalid-packet allowance restored per minute.
pub fn default_invalid_refill_per_minute() -> (r: u32)
    ensures
        r == DEFAULT_INVALID_REFILL_PER_MINUTE,
{
    DEFAULT_INVALID_REFILL_PER_MINUTE
}

/// Default ban duration, in seconds.
pub fn default_ban_timeout() -> (r: u64)
    ensures
        r == DEFAULT_BAN_TIMEOUT,
{
    DEFAULT_BAN_TIMEOUT
}

/// Default ban ipset name.
pub fn default_ban_ipset_name() -> (r: String)
    ensures
        r@ == "sshknockd_ban"@,
{
    String::from_str("sshknockd_ban")
}

/// Why an ipset name was refused.
#[derive(Clone, Copy, Debug, PartialEq, Eq, Structural)]
pub enum IpsetNameError {
    /// Empty, or longer than 31 bytes.
    Length,
    /// A byte outside ASCII letters, digits, `_`, `.`, `:` and `-`.
    InvalidCharacters,
}

/// Why a configuration was refused, in the order the checks are made.
#[derive(Clone, Copy, Debug, PartialEq, Eq, Structural)]
pub enum ConfigError {
    SequenceTooShort,
    SequenceWindowOutOfRange,
    PartialStateTimeoutZero,
    MaxPartialStatesZero,
    IpTimeoutZero,
    MaxPayloadSizeZero,
    IpsetName(IpsetNameError),
    RateLimitZero,
    BanTimeoutZero,
    StepSizeOutOfRange,
    MissingPort,
    ZeroPort,
    SshPortOverlap,
    DuplicatePort,
    UnexpectedPort,
}

/// The human-readable reason for a `IpsetNameError`.
pub open spec fn ipset_name_error_text(e: IpsetNameError) -> Seq<char> {
    match e {
        IpsetNameError::Length => "ipset_name length must be between 1 and 31 characters"@,
        IpsetNameError::InvalidCharacters => "ipset_name contains invalid characters"@,
    }
}

impl IpsetNameError {
    /// The human-readable reason.
    pub fn message(&self) -> (r: &'static str)
        ensures
            r@ == ipset_name_error_text(*self),
    {
        match self {
            IpsetNameError::Length => "ipset_name length must be between 1 and 31 characters",
            IpsetNameError::InvalidCharacters => "ipset_name contains invalid characters",
        }
    }
}

/// The human-readable reason for a `ConfigError`.
pub open spec fn config_error_text(e: ConfigError) -> Seq<char> {
    match e {
        ConfigError::SequenceTooShort => "knock sequence must contain at least three steps"@,
        ConfigError::SequenceWindowOutOfRange => "sequence_window must be between 1 and 60 seconds"@,
        ConfigError::PartialStateTimeoutZero => "partial_state_timeout must be greater than zero"@,
        ConfigError::MaxPartialStatesZero => "max_partial_states must be greater than zero"@,
        ConfigError::IpTimeoutZero => "ip_timeout must be greater than zero"@,
        ConfigError::MaxPayloadSizeZero => "max_payload_size must be greater than zero"@,
        ConfigError::IpsetName(inner) => ipset_name_error_text(inner),
        ConfigError::RateLimitZero => "invalid rate limit values must be greater than zero"@,
        ConfigError::BanTimeoutZero => "ban_timeout must be greater than zero"@,
        ConfigError::StepSizeOutOfRange => "knock step size must be between 1 and max_payload_size"@,
        ConfigError::MissingPort => "tcp and udp knock steps require a port"@,
        ConfigError::ZeroPort => "tcp and udp knock step ports must be greater than zero"@,
        ConfigError::SshPortOverlap => "ssh_port must not overlap knock listener ports"@,
        ConfigError::DuplicatePort => "knock ports must be unique within the active sequence"@,
        ConfigError::UnexpectedPort => "icmp knock steps must not define a port"@,
    }
}

impl ConfigError {
    /// The human-readable reason.
    pub fn message(&self) -> (r: &'static str)
        ensures
            r@ == config_error_text(*self),
    {
        match self {
            ConfigError::SequenceTooShort => "knock sequence must contain at least three steps",
            ConfigError::SequenceWindowOutOfRange => "sequence_window must be between 1 and 60 seconds",
            ConfigError::PartialStateTimeoutZero => "partial_state_timeout must be greater than zero",
            ConfigError::MaxPartialStatesZero => "max_partial_states must be greater than zero",
            ConfigError::IpTimeoutZero => "ip_timeout must be greater than zero",
            ConfigError::MaxPayloadSizeZero => "max_payload_size must be greater than zero",
            ConfigError::IpsetName(e) => e.message(),
            ConfigError::RateLimitZero => "invalid rate limit values must be greater than zero",
            ConfigError::BanTimeoutZero => "ban_timeout must be greater than zero",
            ConfigError::StepSizeOutOfRange => "knock step size must be between 1 and max_payload_size",
            ConfigError::MissingPort => "tcp and udp knock steps require a port",
            ConfigError::ZeroPort => "tcp and udp knock step ports must be greater than zero",
            ConfigError::SshPortOverlap => "ssh_port must not overlap knock listener ports",
            ConfigError::DuplicatePort => "knock ports must be unique within the active sequence",
            ConfigError::UnexpectedPort => "icmp knock steps must not define a port",
        }
    }
}

/// The UTF-8 bytes of a text.
pub open spec fn text_bytes(t: Seq<char>) -> Seq<u8> {
    vstd::utf8::encode_utf8(t)
}

/// The bytes an ipset name may hold: ASCII letters and digits, `_`, `.`, `:`, `-`.
pub open spec fn ipset_name_byte(b: u8) -> bool {
    ||| 48 <= b <= 57
    ||| 65 <= b <= 90
    ||| 97 <= b <= 122
    ||| b == 95
    ||| b == 46
    ||| b == 58
    ||| b == 45
}

/// Why the ipset name with these bytes is refused, if it is.
pub open spec fn ipset_name_error(name: Seq<u8>) -> Option<IpsetNameError> {
    if name.len() == 0 || name.len() > 31 {
        Some(IpsetNameError::Length)
    } else if exists|i: int| 0 <= i < name.len() && !ipset_name_byte(#[trigger] name[i]) {
        Some(IpsetNameError::InvalidCharacters)
    } else {
        None
    }
}

fn is_ipset_name_byte(b: u8) -> (r: bool)
    ensures
        r == ipset_name_byte(b),
{
    (48 <= b && b <= 57) || (65 <= b && b <= 90) || (97 <= b && b <= 122) || b == 95 || b == 46
        || b == 58 || b == 45
}

/// Validates an ipset name for safe argv-based command execution.
pub fn validate_ipset_name(name: &str) -> (r: Result<(), IpsetNameError>)
    ensures
        r == match ipset_name_error(text_bytes(name@)) {
            Some(e) => Err(e),
            None => Ok(()),
        },
{
    let bytes = name.as_bytes();
    let n = bytes.len();
    if n == 0 || n > 31 {
        return Err(IpsetNameError::Length);
    }
    let mut i: usize = 0;
    while i < n
        invariant
            n == bytes@.len(),
            0 < n <= 31,
            bytes@ == text_bytes(name@),
            i <= n,
            forall|j: int| 0 <= j < i ==> ipset_name_byte(#[trigger] bytes@[j]),
        decreases n - i,
    {
        if !is_ipset_name_byte(bytes[i]) {
            assert(!ipset_name_byte(bytes@[i as int]));
            return Err(IpsetNameError::InvalidCharacters);
        }
        i = i + 1;
    }
    Ok(())
}

} // verus!

verus! {

/// Whether a step listens on a port (TCP or UDP).
pub open spec fn is_port_step(s: KnockStep) -> bool {
    s.protocol == Protocol::Tcp || s.protocol == Protocol::Udp
}

/// Whether some step before `i` listens on `port`.
pub open spec fn port_used_before(steps: Seq<KnockStep>, i: int, port: u16) -> bool {
    exists|j: int| 0 <= j < i && is_port_step(#[trigger] steps[j]) && steps[j].port == Some(port)
}

/// Why step `i` of the sequence is refused, given that the steps before it passed.
pub open spec fn step_error(c: Config, i: int) -> Option<ConfigError> {
    let steps = c.knock.sequence@;
    let s = steps[i];
    if s.size == 0 || s.size > c.max_payload_size {
        Some(ConfigError::StepSizeOutOfRange)
    } else if is_port_step(s) {
        match s.port {
            None => Some(ConfigError::MissingPort),
            Some(p) => if p == 0 {
                Some(ConfigError::ZeroPort)
            } else if p == c.ssh_port {
                Some(ConfigError::SshPortOverlap)
            } else if port_used_before(steps, i, p) {
                Some(ConfigError::DuplicatePort)
            } else {
                None
            },
        }
    } else if s.port is Some {
        Some(ConfigError::UnexpectedPort)
    } else {
        None
    }
}

/// The first refused step at or after `i`.
pub open spec fn first_step_error(c: Config, i: int) -> Option<ConfigError>
    decreases c.knock.sequence@.len() - i,
{
    if i < 0 || i >= c.knock.sequence@.len() {
        None
    } else if step_error(c, i) is Some {
        step_error(c, i)
    } else {
        first_step_error(c, i + 1)
    }
}

/// Why a configuration is refused, if it is: the first failing check.
pub open spec fn config_error(c: Config) -> Option<ConfigError> {
    if c.knock.sequence@.len() < 3 {
        Some(ConfigError::SequenceTooShort)
    } else if c.sequence_window == 0 || c.sequence_window > 60 {
        Some(ConfigError::SequenceWindowOutOfRange)
    } else if c.partial_state_timeout == 0 {
        Some(ConfigError::PartialStateTimeoutZero)
    } else if c.max_partial_states == 0 {
        Some(ConfigError::MaxPartialStatesZero)
    } else if c.ip_timeout == 0 {
        Some(ConfigError::IpTimeoutZero)
    } else if c.max_payload_size == 0 {
        Some(ConfigError::MaxPayloadSizeZero)
    } else if ipset_name_error(text_bytes(c.ipset_name@)) is Some {
        Some(ConfigError::IpsetName(ipset_name_error(text_bytes(c.ipset_name@))->0))
    } else if ipset_name_error(text_bytes(c.ban_ipset_name@)) is Some {
        Some(ConfigError::IpsetName(ipset_name_error(text_bytes(c.ban_ipset_name@))->0))
    } else if c.invalid_burst_limit == 0 || c.invalid_refill_per_minute == 0 {
        Some(ConfigError::RateLimitZero)
    } else if c.ban_timeout == 0 {
        Some(ConfigError::BanTimeoutZero)
    } else {
        first_step_error(c, 0)
    }
}

fn contains_port(ports: &Vec<u16>, port: u16) -> (r: bool)
    ensures
        r == ports@.contains(port),
{
    let mut i: usize = 0;
    while i < ports.len()
        invariant
            i <= ports@.len(),
            forall|j: int| 0 <= j < i ==> ports@[j] != port,
        decreases ports@.len() - i,
    {
        if ports[i] == port {
            return true;
        }
        i = i + 1;
    }
    false
}

impl Config {
    /// Validates configuration values before the daemon starts.
    pub fn validate(&self) -> (r: Result<(), ConfigError>)
        ensures
            r == match config_error(*self) {
                Some(e) => Err(e),
                None => Ok(()),
            },
    {
        if self.knock.sequence.len() < 3 {
            return Err(ConfigError::SequenceTooShort);
        }
        if self.sequence_window == 0 || self.sequence_window > 60 {
            return Err(ConfigError::SequenceWindowOutOfRange);
        }
        if self.partial_state_timeout == 0 {
            return Err(ConfigError::PartialStateTimeoutZero);
        }
        if self.max_partial_states == 0 {
            return Err(ConfigError::MaxPartialStatesZero);
        }
        if self.ip_timeout == 0 {
            return Err(ConfigError::IpTimeoutZero);
        }
        if self.max_payload_size == 0 {
            return Err(ConfigError::MaxPayloadSizeZero);
        }
        match validate_ipset_name(self.ipset_name.as_str()) {
            Err(e) => return Err(ConfigError::IpsetName(e)),
            Ok(()) => {},
        }
        match validate_ipset_name(self.ban_ipset_name.as_str()) {
            Err(e) => return Err(ConfigError::IpsetName(e)),
            Ok(()) => {},
        }
        if self.invalid_burst_limit == 0 || self.invalid_refill_per_minute == 0 {
            return Err(ConfigError::RateLimitZero);
        }
        if self.ban_timeout == 0 {
            return Err(ConfigError::BanTimeoutZero);
        }
        let ghost c = *self;
        assert(config_error(c) == first_step_error(c, 0));
        let ghost steps = self.knock.sequence@;
        let mut ports: Vec<u16> = Vec::new();
        let n = self.knock.sequence.len();
        let mut i: usize = 0;
        while i < n
            invariant
                c == *self,
                config_error(c) == first_step_error(c, 0),
                steps == c.knock.sequence@,
                n == steps.len(),
                i <= n,
                first_step_error(c, 0) == first_step_error(c, i as int),
                forall|p: u16| ports@.contains(p) <==> port_used_before(steps, i as int, p),
            decreases n - i,
        {
            let step = self.knock.sequence[i];
            proof {
                assert(step == steps[i as int]);
            }
            if step.size == 0 || step.size > self.max_payload_size {
                return Err(ConfigError::StepSizeOutOfRange);
            }
            match step.protocol {
                Protocol::Tcp | Protocol::Udp => {
                    let port = match step.port {
                        Some(p) => p,
                        None => return Err(ConfigError::MissingPort),
                    };
                    if port == 0 {
                        return Err(ConfigError::ZeroPort);
                    }
                    if port == self.ssh_port {
                        return Err(ConfigError::SshPortOverlap);
                    }
                    if contains_port(&ports, port) {
                        return Err(ConfigError::DuplicatePort);
                    }
                    let ghost old_ports = ports@;
                    ports.push(port);
                    proof {
                        assert forall|p: u16| ports@.contains(p) <==> port_used_before(
                            steps,
                            i + 1,
                            p,
                        ) by {
                            assert(ports@ == old_ports.push(port));
                            assert(ports@.contains(p) <==> (old_ports.contains(p) || p == port)) by {
                                if ports@.contains(p) && p != port {
                                    let k = choose|k: int| 0 <= k < ports@.len() && ports@[k] == p;
                                    assert(old_ports[k] == p);
                                }
                                if old_ports.contains(p) {
                                    let k = choose|k: int|
                                        0 <= k < old_ports.len() && old_ports[k] == p;
                                    assert(ports@[k] == p);
                                }
                                if p == port {
                                    assert(ports@[old_ports.len() as int] == p);
                                }
                            }
                            assert(port_used_before(steps, i + 1, p) <==> (port_used_before(
                                steps,
                                i as int,
                                p,
                            ) || p == port)) by {
                                if port_used_before(steps, i + 1, p) && p != port {
                                    let j = choose|j: int|
                                        0 <= j < i + 1 && is_port_step(#[trigger] steps[j])
                                            && steps[j].port == Some(p);
                                    assert(j < i);
                                }
                                if p == port {
                                    assert(is_port_step(steps[i as int]));
                                }
                            }
                        }
                    }
                },
                _ => {
                    if step.port.is_some() {
                        return Err(ConfigError::UnexpectedPort);
                    }
                    proof {
                        assert forall|p: u16| port_used_before(steps, i as int, p)
                            <==> port_used_before(steps, i + 1, p) by {
                            if port_used_before(steps, i + 1, p) {
                                let j = choose|j: int|
                                    0 <= j < i + 1 && is_port_step(#[trigger] steps[j])
                                        && steps[j].port == Some(p);
                                assert(j != i);
                            }
                        }
                    }
                },
            }
            proof {
                assert(step_error(c, i as int) is None);
            }
            i = i + 1;
        }
        Ok(())
    }
}

} // verus!

verus! {

proof fn lemma_no_step_error_from(c: Config, i: int, j: int)
    requires
        0 <= i <= j < c.knock.sequence@.len(),
        first_step_error(c, i) is None,
    ensures
        step_error(c, j) is None,
    decreases j - i,
{
    if i < j {
        lemma_no_step_error_from(c, i + 1, j);
    }
}

/// An accepted configuration has a sequence of at least three steps, a window
/// of one to sixty seconds, nonzero limits and timeouts, safe ipset names, step
/// sizes from one to the payload limit, and TCP and UDP steps on nonzero,
/// distinct ports other than the SSH port, while ICMP steps name no port.
pub proof fn lemma_accepted_config(c: Config)
    requires
        config_error(c) is None,
    ensures
        c.knock.sequence@.len() >= 3,
        1 <= c.sequence_window <= 60,
        c.partial_state_timeout > 0,
        c.max_partial_states > 0,
        c.ip_timeout > 0,
        c.max_payload_size > 0,
        c.invalid_burst_limit > 0,
        c.invalid_refill_per_minute > 0,
        c.ban_timeout > 0,
        ipset_name_error(text_bytes(c.ipset_name@)) is None,
        ipset_name_error(text_bytes(c.ban_ipset_name@)) is None,
        forall|i: int|
            0 <= i < c.knock.sequence@.len() ==> {
                let s = #[trigger] c.knock.sequence@[i];
                &&& 1 <= s.size <= c.max_payload_size
                &&& is_port_step(s) ==> (s.port matches Some(p) && p != 0 && p != c.ssh_port)
                &&& !is_port_step(s) ==> s.port is None
            },
        forall|i: int, j: int|
            0 <= i < j < c.knock.sequence@.len() && is_port_step(c.knock.sequence@[i])
                && is_port_step(c.knock.sequence@[j]) ==> c.knock.sequence@[i].port
                != c.knock.sequence@[j].port,
{
    let steps = c.knock.sequence@;
    assert forall|i: int| 0 <= i < steps.len() implies {
        let s = #[trigger] steps[i];
        &&& 1 <= s.size <= c.max_payload_size
        &&& is_port_step(s) ==> (s.port matches Some(p) && p != 0 && p != c.ssh_port)
        &&& !is_port_step(s) ==> s.port is None
    } by {
        lemma_no_step_error_from(c, 0, i);
    }
    assert forall|i: int, j: int|
        0 <= i < j < steps.len() && is_port_step(steps[i]) && is_port_step(
            steps[j],
        ) implies steps[i].port != steps[j].port by {
        lemma_no_step_error_from(c, 0, j);
        lemma_no_step_error_from(c, 0, i);
        let p = steps[j].port->0;
        if steps[i].port == steps[j].port {
            assert(port_used_before(steps, j, p));
        }
    }
}

proof fn lemma_no_step_error_after(c: Config, i: int)
    requires
        0 <= i,
        forall|k: int|
            0 <= k < c.knock.sequence@.len() ==> {
                let s = #[trigger] c.knock.sequence@[k];
                &&& 1 <= s.size <= c.max_payload_size
                &&& (s.protocol == Protocol::Tcp || s.protocol == Protocol::Udp) ==> (s.port matches Some(
                    p,
                ) && p != 0 && p != c.ssh_port)
                &&& s.protocol == Protocol::Icmp ==> s.port is None
            },
        forall|j: int, k: int|
            0 <= j < k < c.knock.sequence@.len() && (c.knock.sequence@[j].protocol == Protocol::Tcp
                || c.knock.sequence@[j].protocol == Protocol::Udp) && (c.knock.sequence@[k].protocol
                == Protocol::Tcp || c.knock.sequence@[k].protocol == Protocol::Udp) ==> #[trigger] c.knock.sequence@[j].port
                != #[trigger] c.knock.sequence@[k].port,
    ensures
        first_step_error(c, i) is None,
    decreases c.knock.sequence@.len() - i,
{
    let steps = c.knock.sequence@;
    if i < steps.len() {
        let s = steps[i];
        if is_port_step(s) {
            let p = s.port->0;
            if port_used_before(steps, i, p) {
                let j = choose|j: int| 0 <= j < i && is_port_step(#[trigger] steps[j]) && steps[j].port == Some(p);
                assert(steps[j].port != steps[i].port);
            }
        } else {
            assert(s.protocol == Protocol::Icmp);
        }
        assert(step_error(c, i) is None);
        lemma_no_step_error_after(c, i + 1);
    }
}

/// Every configuration that passes each documented check is accepted: a
/// sequence of at least three steps, a window of one to sixty seconds, nonzero
/// limits and timeouts, ipset names of one to thirty-one bytes drawn from
/// ASCII letters, digits, `_`, `.`, `:` and `-`, step sizes from one to the
/// payload limit, and TCP and UDP steps on nonzero, distinct ports other than
/// the SSH port, while ICMP steps name no port. With `lemma_accepted_config`,
/// these are exactly the configurations `Config::validate` accepts.
pub proof fn lemma_valid_config_accepted(c: Config)
    requires
        c.knock.sequence@.len() >= 3,
        1 <= c.sequence_window <= 60,
        c.partial_state_timeout > 0,
        c.max_partial_states > 0,
        c.ip_timeout > 0,
        c.max_payload_size > 0,
        c.invalid_burst_limit > 0,
        c.invalid_refill_per_minute > 0,
        c.ban_timeout > 0,
        1 <= text_bytes(c.ipset_name@).len() <= 31,
        forall|i: int| 0 <= i < text_bytes(c.ipset_name@).len() ==> ipset_name_byte(#[trigger] text_bytes(c.ipset_name@)[i]),
        1 <= text_bytes(c.ban_ipset_name@).len() <= 31,
        forall|i: int|
            0 <= i < text_bytes(c.ban_ipset_name@).len() ==> ipset_name_byte(#[trigger] text_bytes(c.ban_ipset_name@)[i]),
        forall|k: int|
            0 <= k < c.knock.sequence@.len() ==> {
                let s = #[trigger] c.knock.sequence@[k];
                &&& 1 <= s.size <= c.max_payload_size
                &&& (s.protocol == Protocol::Tcp || s.protocol == Protocol::Udp) ==> (s.port matches Some(
                    p,
                ) && p != 0 && p != c.ssh_port)
                &&& s.protocol == Protocol::Icmp ==> s.port is None
            },
        forall|j: int, k: int|
            0 <= j < k < c.knock.sequence@.len() && (c.knock.sequence@[j].protocol == Protocol::Tcp
                || c.knock.sequence@[j].protocol == Protocol::Udp) && (c.knock.sequence@[k].protocol
                == Protocol::Tcp || c.knock.sequence@[k].protocol == Protocol::Udp) ==> #[trigger] c.knock.sequence@[j].port
                != #[trigger] c.knock.sequence@[k].port,
    ensures
        config_error(c) is None,
{
    lemma_no_step_error_after(c, 0);
}

} // verus!
