use ssh_knock::config::{
    AddressFamily, Config, FirewallBackend, KnockSection, KnockStep, Protocol,
};
use ssh_knock::firewall::{CommandError, CommandLog, CommandRunner, CommandSpec};
use ssh_knock::net::IpAddress;
use ssh_knock::server::{audit_line, AuditEvent, Server, MAX_BANNED_SOURCES};
use std::cell::RefCell;

fn test_config(log_level: &str, ban_timeout: u64) -> Config {
    Config {
        listen: "127.0.0.1".to_string(),
        ssh_port: 22,
        ipset_name: "ssh_allow".to_string(),
        firewall_backend: FirewallBackend::Iptables,
        address_family: AddressFamily::Ipv4,
        sequence_window: 5,
        ip_timeout: 10,
        partial_state_timeout: 10,
        max_partial_states: 4096,
        max_payload_size: 512,
        log_level: log_level.to_string(),
        log_file: "/tmp/sshknockd-test.log".to_string(),
        invalid_burst_limit: 1,
        invalid_refill_per_minute: 1,
        ban_timeout,
        ban_ipset_name: "ssh_ban".to_string(),
        knock: KnockSection {
            sequence: vec![
                KnockStep { protocol: Protocol::Tcp, port: Some(7001), size: 1 },
                KnockStep { protocol: Protocol::Udp, port: Some(7002), size: 2 },
                KnockStep { protocol: Protocol::Tcp, port: Some(7003), size: 3 },
            ],
        },
    }
}

fn test_server(ban_timeout: u64) -> Server {
    Server::new(test_config("info", ban_timeout)).expect("valid server config")
}

fn test_server_with_log_level(log_level: &str, ban_timeout: u64) -> Server {
    Server::new(test_config(log_level, ban_timeout)).expect("valid server config")
}

#[derive(Debug, Default)]
struct RecordingRunner {
    commands: RefCell<Vec<CommandSpec>>,
}

impl CommandRunner for RecordingRunner {
    fn run(&self, spec: &CommandSpec) -> Result<(), CommandError> {
        self.commands.borrow_mut().push(spec.clone());
        Ok(())
    }
}

struct RefusingRunner;

impl CommandRunner for RefusingRunner {
    fn run(&self, _spec: &CommandSpec) -> Result<(), CommandError> {
        Err(CommandError { message: "ipset missing".to_string() })
    }
}

const NOW: u64 = 9_000_000;

/// One millisecond, in the nanoseconds the library counts time in.
const MS: u64 = 1_000_000;

fn ip(text: &str) -> IpAddress {
    let parts: Vec<u8> = text.split('.').map(|p| p.parse().unwrap()).collect();
    IpAddress::v4(parts[0], parts[1], parts[2], parts[3])
}

fn log_lines(events: &[AuditEvent]) -> String {
    events.iter().map(|e| format!("{}\n", audit_line(0, &e.event, &e.message))).collect()
}

fn process_partial_knock(server: &mut Server, source_ip: &str) -> String {
    let runner = RecordingRunner::default();
    let events = server
        .process_packet(ip(source_ip), Protocol::Tcp, Some(7001), 1, NOW, &mut CommandLog::new(&runner))
        .expect("partial knock needs no firewall command");
    log_lines(&events)
}

fn process_oversized_knock(server: &mut Server, runner: &RecordingRunner, source_ip: &str) -> String {
    let events = server
        .process_packet(ip(source_ip), Protocol::Tcp, Some(7001), 513, NOW, &mut CommandLog::new(runner))
        .expect("recording runner succeeds");
    log_lines(&events)
}

fn count_packet_telemetry(content: &str) -> usize {
    content
        .lines()
        .filter(|line| line.contains("event=packet_seen") || line.contains("event=knock_outcome"))
        .count()
}

#[test]
fn info_suppresses_packet_telemetry_because_default_logs_must_not_be_high_volume() {
    let mut server = test_server_with_log_level("info", 2);
    let content = process_partial_knock(&mut server, "192.0.2.10");
    assert!(!content.contains("event=packet_seen"));
    assert!(!content.contains("event=knock_outcome"));
}

#[test]
fn debug_writes_packet_telemetry_because_verbose_logs_need_packet_observability() {
    let mut server = test_server_with_log_level("debug", 2);
    let content = process_partial_knock(&mut server, "192.0.2.11");
    assert!(content.contains("event=packet_seen"));
    assert!(content.contains("event=knock_outcome"));
    assert!(content.contains("outcome=progress"));
    assert!(!content.contains("protocol="));
    assert!(!content.contains("port=7001"));
    assert!(!content.contains("size=1"));
    assert!(!content.contains("next_step"));
    assert!(!content.contains("Progress {"));
}

#[test]
fn trace_writes_packet_telemetry_because_trace_uses_the_verbose_packet_path() {
    let mut server = test_server_with_log_level("trace", 2);
    let content = process_partial_knock(&mut server, "192.0.2.12");
    assert!(content.contains("event=packet_seen"));
    assert!(content.contains("event=knock_outcome"));
}

#[test]
fn debug_packet_telemetry_is_bounded_because_packet_logs_must_not_grow_unbounded() {
    let mut server = test_server_with_log_level("debug", 2);
    let mut content = String::new();
    for offset in 0..12 {
        content.push_str(&process_partial_knock(&mut server, &format!("192.0.2.{}", 20 + offset)));
    }
    assert_eq!(count_packet_telemetry(&content), 20);
}

#[test]
fn does_not_ban_unrelated_sources_when_aggregate_invalid_traffic_is_high_because_bans_are_per_source() {
    let mut server = test_server(2);
    let runner = RecordingRunner::default();
    for offset in 1..=12 {
        process_oversized_knock(&mut server, &runner, &format!("192.0.2.{offset}"));
    }
    assert_eq!(server.banned_source_count(), 0);
    assert!(runner.commands.borrow().is_empty());
}

#[test]
fn bans_source_after_its_own_invalid_limit_is_exceeded_because_rate_limits_are_per_source() {
    let mut server = test_server(2);
    let runner = RecordingRunner::default();
    let source_ip = "192.0.2.20";

    process_oversized_knock(&mut server, &runner, source_ip);
    let content = process_oversized_knock(&mut server, &runner, source_ip);

    let commands = runner.commands.borrow();
    assert!(server.has_ban_record(ip(source_ip)));
    assert_eq!(commands.len(), 1);
    assert_eq!(commands[0].program, "ipset");
    assert_eq!(
        commands[0].args,
        vec![
            "add".to_string(),
            "ssh_ban".to_string(),
            source_ip.to_string(),
            "timeout".to_string(),
            "2".to_string(),
            "-exist".to_string(),
        ]
    );
    assert!(content.contains("event=rate_limit_ban source_ip=192.0.2.20 ban_timeout_seconds=2"));
}

#[test]
fn keeps_source_banned_before_timeout_because_rate_limit_bans_must_fail_closed() {
    let mut server = test_server(2);
    let source_ip = ip("192.0.2.10");
    let now = NOW;
    server.remember_banned_source(source_ip, now);
    assert!(server.is_source_banned(source_ip, now + 1_000 * MS));
}

#[test]
fn expires_source_ban_at_timeout_because_configured_ban_duration_is_finite() {
    let mut server = test_server(2);
    let source_ip = ip("192.0.2.10");
    let now = NOW;
    server.remember_banned_source(source_ip, now);
    assert!(!server.is_source_banned(source_ip, now + 2_000 * MS));
}

#[test]
fn removes_expired_source_ban_because_stale_memory_must_not_extend_ipset_timeout() {
    let mut server = test_server(2);
    let source_ip = ip("192.0.2.10");
    let now = NOW;
    server.remember_banned_source(source_ip, now);
    server.expire_banned_sources(now + 2_000 * MS);
    assert!(!server.has_ban_record(source_ip));
}

#[test]
fn banned_source_is_ignored_until_the_ban_ends() {
    let mut server = test_server(2);
    let runner = RecordingRunner::default();
    let source = ip("198.51.100.7");
    server.remember_banned_source(source, NOW);
    let events = server
        .process_packet(source, Protocol::Tcp, Some(7001), 1, NOW + 1_999 * MS, &mut CommandLog::new(&runner))
        .unwrap();
    assert!(events.is_empty());
    assert!(server.has_ban_record(source));
    let events = server
        .process_packet(source, Protocol::Tcp, Some(7001), 1, NOW + 2_000 * MS, &mut CommandLog::new(&runner))
        .unwrap();
    assert!(events.is_empty());
    assert!(!server.has_ban_record(source));
}

#[test]
fn completed_sequence_allows_the_source() {
    let mut server = test_server(2);
    let runner = RecordingRunner::default();
    let source = ip("203.0.113.5");
    server.process_packet(source, Protocol::Tcp, Some(7001), 1, NOW, &mut CommandLog::new(&runner)).unwrap();
    server.process_packet(source, Protocol::Udp, Some(7002), 2, NOW + 10 * MS, &mut CommandLog::new(&runner)).unwrap();
    let events = server
        .process_packet(source, Protocol::Tcp, Some(7003), 3, NOW + 20 * MS, &mut CommandLog::new(&runner))
        .unwrap();
    assert_eq!(
        log_lines(&events),
        "ts=0 event=ssh_allow source_ip=203.0.113.5 allow_timeout_seconds=10\n"
    );
    let commands = runner.commands.borrow();
    assert_eq!(commands.len(), 1);
    assert_eq!(commands[0].args, vec!["add", "ssh_allow", "203.0.113.5", "timeout", "10", "-exist"]);
}

#[test]
fn failed_ban_is_reported_and_not_remembered() {
    let mut server = test_server(2);
    let source = ip("192.0.2.99");
    server.process_packet(source, Protocol::Tcp, Some(7001), 513, NOW, &mut CommandLog::new(&RefusingRunner)).unwrap();
    let events = server
        .process_packet(source, Protocol::Tcp, Some(7001), 513, NOW, &mut CommandLog::new(&RefusingRunner))
        .expect("a failed ban does not stop the daemon");
    assert_eq!(
        log_lines(&events),
        "ts=0 event=firewall_ban_failed source_ip=192.0.2.99 error=ipset missing\n"
    );
    assert!(!server.has_ban_record(source));
    let again = server
        .process_packet(source, Protocol::Tcp, Some(7001), 513, NOW, &mut CommandLog::new(&RefusingRunner))
        .expect("a failed ban does not stop the daemon");
    assert_eq!(log_lines(&again), log_lines(&events));
}

#[test]
fn remembered_bans_are_bounded() {
    let mut server = test_server(2);
    for n in 0..MAX_BANNED_SOURCES as u32 {
        server.remember_banned_source(IpAddress::V4(0x0a00_0000 + n), NOW);
    }
    assert_eq!(server.banned_source_count(), MAX_BANNED_SOURCES);
    let late = ip("192.0.2.77");
    server.remember_banned_source(late, NOW);
    assert_eq!(server.banned_source_count(), MAX_BANNED_SOURCES);
    assert!(!server.has_ban_record(late));
    let known = IpAddress::V4(0x0a00_0000);
    server.remember_banned_source(known, NOW + 1_000 * MS);
    assert!(server.is_source_banned(known, NOW + 2_500 * MS));
    assert!(!server.is_source_banned(IpAddress::V4(0x0a00_0001), NOW + 2_500 * MS));
    assert_eq!(server.banned_source_count(), 1);
    server.remember_banned_source(late, NOW + 2_500 * MS);
    assert!(server.has_ban_record(late));
}

#[test]
fn telemetry_level_ignores_ascii_case() {
    assert!(test_server_with_log_level("DeBuG", 2).packet_telemetry_enabled());
    assert!(test_server_with_log_level("TRACE", 2).packet_telemetry_enabled());
    assert!(!test_server_with_log_level("info", 2).packet_telemetry_enabled());
    assert!(!test_server_with_log_level("debugx", 2).packet_telemetry_enabled());
}

#[test]
fn failed_allow_is_reported_as_a_failure() {
    let mut server = test_server(2);
    let source = ip("192.0.2.55");
    server.process_packet(source, Protocol::Tcp, Some(7001), 1, NOW, &mut CommandLog::new(&RefusingRunner)).unwrap();
    server.process_packet(source, Protocol::Udp, Some(7002), 2, NOW + 10 * MS, &mut CommandLog::new(&RefusingRunner)).unwrap();
    let failure = server
        .process_packet(source, Protocol::Tcp, Some(7003), 3, NOW + 20 * MS, &mut CommandLog::new(&RefusingRunner))
        .unwrap_err();
    assert_eq!(failure.error.message, "ipset missing");
    assert_eq!(
        log_lines(&failure.events),
        "ts=0 event=firewall_allow_failed source_ip=192.0.2.55 error=ipset missing\n"
    );
}

#[test]
fn audit_lines_carry_time_event_and_message() {
    assert_eq!(
        audit_line(1_700_000_000, "ssh_allow", "source_ip=192.0.2.1 allow_timeout_seconds=10"),
        "ts=1700000000 event=ssh_allow source_ip=192.0.2.1 allow_timeout_seconds=10"
    );
    assert_eq!(audit_line(0, "daemon_start", "sshknockd starting"), "ts=0 event=daemon_start sshknockd starting");
}
