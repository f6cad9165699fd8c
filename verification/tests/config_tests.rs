use ssh_knock::config::{
    default_log_file, AddressFamily, Config, ConfigError, FirewallBackend, IpsetNameError,
    KnockSection, KnockStep, Protocol, validate_ipset_name,
};

fn valid_config() -> Config {
    Config {
        listen: "0.0.0.0".to_string(),
        ssh_port: 10022,
        ipset_name: "ssh_allow".to_string(),
        firewall_backend: FirewallBackend::Iptables,
        address_family: AddressFamily::Ipv4,
        sequence_window: 5,
        ip_timeout: 10,
        partial_state_timeout: 10,
        max_partial_states: 4096,
        max_payload_size: 512,
        log_level: "info".to_string(),
        log_file: default_log_file(),
        invalid_burst_limit: 20,
        invalid_refill_per_minute: 10,
        ban_timeout: 86_400,
        ban_ipset_name: "sshknockd_ban".to_string(),
        knock: KnockSection {
            sequence: vec![
                KnockStep { protocol: Protocol::Udp, port: Some(40101), size: 64 },
                KnockStep { protocol: Protocol::Udp, port: Some(40102), size: 128 },
                KnockStep { protocol: Protocol::Udp, port: Some(40103), size: 96 },
            ],
        },
    }
}

#[test]
fn accepts_valid_configuration_because_daemon_needs_safe_startup_inputs() {
    let config = valid_config();
    assert!(config.validate().is_ok());
}

#[test]
fn rejects_short_sequences_because_single_packets_are_too_easy_to_guess() {
    let mut config = valid_config();
    config.knock.sequence.truncate(2);
    assert!(config.validate().is_err());
}

#[test]
fn rejects_duplicate_ports_because_sequence_steps_must_be_unambiguous() {
    let mut config = valid_config();
    config.knock.sequence[1].port = config.knock.sequence[0].port;
    assert!(config.validate().is_err());
}

#[test]
fn rejects_oversized_steps_because_large_packets_must_not_drive_processing() {
    let mut config = valid_config();
    config.knock.sequence[0].size = 513;
    assert!(config.validate().is_err());
}

#[test]
fn rejects_shell_metacharacters_in_ipset_name_because_firewall_commands_use_config_values() {
    assert!(validate_ipset_name("ssh_allow").is_ok());
    assert!(validate_ipset_name("ssh_allow;rm").is_err());
}

#[test]
fn names_each_refusal_in_check_order() {
    let mut c = valid_config();
    c.knock.sequence.truncate(2);
    c.sequence_window = 0;
    assert_eq!(c.validate(), Err(ConfigError::SequenceTooShort));

    let mut c = valid_config();
    c.sequence_window = 61;
    assert_eq!(c.validate(), Err(ConfigError::SequenceWindowOutOfRange));
    c.sequence_window = 60;
    assert_eq!(c.validate(), Ok(()));

    let mut c = valid_config();
    c.partial_state_timeout = 0;
    assert_eq!(c.validate(), Err(ConfigError::PartialStateTimeoutZero));

    let mut c = valid_config();
    c.max_partial_states = 0;
    assert_eq!(c.validate(), Err(ConfigError::MaxPartialStatesZero));

    let mut c = valid_config();
    c.ip_timeout = 0;
    assert_eq!(c.validate(), Err(ConfigError::IpTimeoutZero));

    let mut c = valid_config();
    c.max_payload_size = 0;
    assert_eq!(c.validate(), Err(ConfigError::MaxPayloadSizeZero));

    let mut c = valid_config();
    c.ipset_name = String::new();
    assert_eq!(c.validate(), Err(ConfigError::IpsetName(IpsetNameError::Length)));

    let mut c = valid_config();
    c.ban_ipset_name = "ban set".to_string();
    assert_eq!(c.validate(), Err(ConfigError::IpsetName(IpsetNameError::InvalidCharacters)));

    let mut c = valid_config();
    c.invalid_refill_per_minute = 0;
    assert_eq!(c.validate(), Err(ConfigError::RateLimitZero));

    let mut c = valid_config();
    c.ban_timeout = 0;
    assert_eq!(c.validate(), Err(ConfigError::BanTimeoutZero));

    let mut c = valid_config();
    c.knock.sequence[2].size = 0;
    assert_eq!(c.validate(), Err(ConfigError::StepSizeOutOfRange));

    let mut c = valid_config();
    c.knock.sequence[1].port = None;
    assert_eq!(c.validate(), Err(ConfigError::MissingPort));

    let mut c = valid_config();
    c.knock.sequence[1].port = Some(0);
    assert_eq!(c.validate(), Err(ConfigError::ZeroPort));

    let mut c = valid_config();
    c.knock.sequence[2].port = Some(10022);
    assert_eq!(c.validate(), Err(ConfigError::SshPortOverlap));

    let mut c = valid_config();
    c.knock.sequence[2].protocol = Protocol::Tcp;
    c.knock.sequence[2].port = Some(40101);
    assert_eq!(c.validate(), Err(ConfigError::DuplicatePort));

    let mut c = valid_config();
    c.knock.sequence[0].protocol = Protocol::Icmp;
    assert_eq!(c.validate(), Err(ConfigError::UnexpectedPort));
    c.knock.sequence[0].port = None;
    assert_eq!(c.validate(), Ok(()));
}

#[test]
fn ipset_name_limits_are_exact() {
    assert!(validate_ipset_name(&"a".repeat(31)).is_ok());
    assert_eq!(validate_ipset_name(&"a".repeat(32)), Err(IpsetNameError::Length));
    assert_eq!(validate_ipset_name(""), Err(IpsetNameError::Length));
    assert!(validate_ipset_name("Set_1.2:3-4").is_ok());
    assert_eq!(validate_ipset_name("sét"), Err(IpsetNameError::InvalidCharacters));
    assert_eq!(
        ConfigError::IpsetName(IpsetNameError::InvalidCharacters).message(),
        "ipset_name contains invalid characters"
    );
}
