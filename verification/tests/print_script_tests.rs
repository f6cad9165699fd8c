use ssh_knock::config::{
    default_ban_ipset_name, default_log_file, AddressFamily, Config, FirewallBackend, KnockSection,
    KnockStep, Protocol,
};
use ssh_knock::script::{print_script, ScriptError};

fn write_config() -> Config {
    Config {
        listen: "0.0.0.0".to_string(),
        ssh_port: 10022,
        ipset_name: "ssh_allow".to_string(),
        firewall_backend: FirewallBackend::Iptables,
        address_family: AddressFamily::Ipv4,
        sequence_window: 5,
        ip_timeout: 10,
        partial_state_timeout: 10,
        max_partial_states: 4096,
        max_payload_size: 512,
        log_level: "info".to_string(),
        log_file: default_log_file(),
        invalid_burst_limit: 20,
        invalid_refill_per_minute: 10,
        ban_timeout: 86_400,
        ban_ipset_name: default_ban_ipset_name(),
        knock: KnockSection {
            sequence: vec![
                KnockStep { protocol: Protocol::Udp, port: Some(40101), size: 64 },
                KnockStep { protocol: Protocol::Tcp, port: Some(40102), size: 32 },
                KnockStep { protocol: Protocol::Icmp, port: None, size: 16 },
            ],
        },
    }
}

fn run_print_script(server: &str) -> Result<String, ScriptError> {
    let config = write_config();
    config.validate().expect("fixture config is valid");
    let lines = print_script(&config, server)?;
    Ok(lines.iter().map(|l| format!("{l}\n")).collect())
}

#[test]
fn quotes_shell_metacharacters_because_generated_commands_must_treat_server_as_data() {
    let stdout = run_print_script("example.com; touch /tmp/pwned").expect("script succeeds");
    assert!(stdout.contains("nc -u -w1 'example.com; touch /tmp/pwned' 40101"));
    assert!(stdout.contains("nc -w1 'example.com; touch /tmp/pwned' 40102"));
    assert!(stdout.contains("ping -c 1 -s 16 'example.com; touch /tmp/pwned'"));
    assert!(stdout.contains("ssh -p 10022 'user@example.com; touch /tmp/pwned'"));
    assert!(!stdout.contains("nc -u -w1 example.com; touch /tmp/pwned"));
    assert!(!stdout.contains("ssh -p 10022 user@example.com; touch /tmp/pwned"));
}

#[test]
fn escapes_single_quotes_because_posix_single_quotes_must_not_terminate_the_argument() {
    let stdout = run_print_script("bad'host").expect("script succeeds");
    assert!(stdout.contains("'bad'\\''host'"));
    assert!(stdout.contains("'user@bad'\\''host'"));
}

#[test]
fn rejects_option_like_servers_because_shell_quoting_does_not_stop_command_option_injection() {
    let err = run_print_script("-e/bin/sh").unwrap_err();
    assert!(err.message().contains("server must not start with '-'"));
}

#[test]
fn rejects_control_characters_because_generated_shell_output_must_not_be_split_by_input() {
    let err = run_print_script("example.com\nid").unwrap_err();
    assert!(err.message().contains("server must not contain control characters"));
}

#[test]
fn prints_every_step_then_ssh() {
    let stdout = run_print_script("host.example").unwrap();
    assert_eq!(
        stdout,
        "printf '%064s' '' | tr ' ' K | nc -u -w1 'host.example' 40101\n\
         printf '%032s' '' | tr ' ' K | nc -w1 'host.example' 40102\n\
         ping -c 1 -s 16 'host.example'\n\
         ssh -p 10022 'user@host.example'\n"
    );
}

#[test]
fn c1_control_characters_are_refused_too() {
    assert_eq!(run_print_script("a\u{85}b").unwrap_err(), ScriptError::ServerHasControlCharacter);
    assert_eq!(run_print_script("a\u{7f}").unwrap_err(), ScriptError::ServerHasControlCharacter);
    assert!(run_print_script("h\u{e9}te").is_ok());
}

#[test]
fn missing_port_is_reported() {
    let mut config = write_config();
    config.knock.sequence[1].port = None;
    assert_eq!(print_script(&config, "h").unwrap_err(), ScriptError::MissingTcpPort);
}
