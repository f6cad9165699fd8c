use ssh_knock::config::{AddressFamily, FirewallBackend, IpsetNameError};
use ssh_knock::firewall::{
    bounded_command_output, CommandError, CommandLog, CommandRunner, CommandSpec, Firewall,
    FirewallError,
};
use ssh_knock::net::IpAddress;
use std::cell::RefCell;

#[derive(Default)]
struct RecordingRunner {
    commands: RefCell<Vec<CommandSpec>>,
}

impl CommandRunner for RecordingRunner {
    fn run(&self, spec: &CommandSpec) -> Result<(), CommandError> {
        self.commands.borrow_mut().push(spec.clone());
        Ok(())
    }
}

struct FailingRunner {
    commands: RefCell<Vec<CommandSpec>>,
}

impl CommandRunner for FailingRunner {
    fn run(&self, spec: &CommandSpec) -> Result<(), CommandError> {
        self.commands.borrow_mut().push(spec.clone());
        if self.commands.borrow().len() == 2 {
            Err(CommandError { message: "boom".to_string() })
        } else {
            Ok(())
        }
    }
}

fn ipv4_firewall() -> Firewall {
    Firewall::new(
        "ssh_allow".to_string(),
        "ssh_ban".to_string(),
        10,
        86_400,
        FirewallBackend::Iptables,
        AddressFamily::Ipv4,
    )
    .expect("valid firewall config")
}

#[test]
fn builds_ipset_argv_because_shell_interpolation_must_never_be_used() {
    let firewall = ipv4_firewall();
    let command = firewall.add_ip_command(IpAddress::v4(1, 2, 3, 4));
    assert_eq!(command.program, "ipset");
    assert_eq!(
        command.args,
        vec!["add", "ssh_allow", "1.2.3.4", "timeout", "10", "-exist"]
    );
}

#[test]
fn preflights_ipset_and_iptables_because_daemon_must_fail_closed_before_listening() {
    let firewall = ipv4_firewall();
    let runner = RecordingRunner::default();
    firewall
        .preflight(&mut CommandLog::new(&runner))
        .expect("preflight should call runner");
    let commands = runner.commands.borrow();
    assert_eq!(commands.len(), 3);
    assert_eq!(commands[0].program, "ipset");
    assert_eq!(commands[1].program, "ipset");
    assert_eq!(commands[2].program, "iptables");
}

#[test]
fn builds_ipv6_firewall_commands_because_ipv6_clients_need_matching_allow_rules() {
    let firewall = Firewall::new(
        "ssh6_allow".to_string(),
        "ssh6_ban".to_string(),
        10,
        86_400,
        FirewallBackend::Ip6tables,
        AddressFamily::Ipv6,
    )
    .expect("valid ipv6 firewall config");
    let create = firewall.create_ipset_command();
    assert_eq!(create.program, "ipset");
    assert!(create.args.contains(&"family".to_string()));
    assert!(create.args.contains(&"inet6".to_string()));
    let allow = firewall.iptables_allow_command(10022);
    assert_eq!(allow.program, "ip6tables");
    let add = firewall.add_ip_command(IpAddress::V6(1));
    assert_eq!(add.args[2], "::1");
}

/// Answers like ipset and iptables on a machine whose INPUT chain it keeps.
#[derive(Default)]
struct ChainRunner {
    commands: RefCell<Vec<CommandSpec>>,
    chain: RefCell<Vec<Vec<String>>>,
}

impl CommandRunner for ChainRunner {
    fn run(&self, spec: &CommandSpec) -> Result<(), CommandError> {
        self.commands.borrow_mut().push(spec.clone());
        let args = &spec.args;
        let mut chain = self.chain.borrow_mut();
        match args.first().map(String::as_str) {
            Some("-C") => {
                if chain.contains(&args[2..].to_vec()) {
                    Ok(())
                } else {
                    Err(CommandError { message: "Bad rule".to_string() })
                }
            }
            Some("-I") => {
                chain.insert(0, args[3..].to_vec());
                Ok(())
            }
            Some("-A") => {
                chain.push(args[2..].to_vec());
                Ok(())
            }
            _ => Ok(()),
        }
    }
}

#[test]
fn setup_checks_then_adds_every_rule_in_order() {
    let firewall = ipv4_firewall();
    let runner = ChainRunner::default();
    firewall.setup(&mut CommandLog::new(&runner), 10022).expect("setup should succeed");
    let commands = runner.commands.borrow();
    assert_eq!(commands.len(), 8);
    assert_eq!(commands[0].args, vec!["create", "ssh_allow", "hash:ip", "timeout", "10", "-exist"]);
    assert_eq!(commands[1].args, vec!["create", "ssh_ban", "hash:ip", "timeout", "86400", "-exist"]);
    assert_eq!(commands[2].program, "iptables");
    assert_eq!(
        commands[2].args,
        vec![
            "-C", "INPUT", "-p", "tcp", "--dport", "10022", "-m", "set", "--match-set", "ssh_allow",
            "src", "-j", "ACCEPT"
        ]
    );
    assert_eq!(
        commands[3].args,
        vec![
            "-I", "INPUT", "1", "-p", "tcp", "--dport", "10022", "-m", "set", "--match-set",
            "ssh_allow", "src", "-j", "ACCEPT"
        ]
    );
    assert_eq!(commands[4].args, vec!["-C", "INPUT", "-p", "tcp", "--dport", "10022", "-j", "DROP"]);
    assert_eq!(commands[5].args, vec!["-A", "INPUT", "-p", "tcp", "--dport", "10022", "-j", "DROP"]);
    assert_eq!(
        commands[6].args,
        vec!["-C", "INPUT", "-m", "set", "--match-set", "ssh_ban", "src", "-j", "DROP"]
    );
    assert_eq!(
        commands[7].args,
        vec!["-I", "INPUT", "1", "-m", "set", "--match-set", "ssh_ban", "src", "-j", "DROP"]
    );
    assert_eq!(runner.chain.borrow().len(), 3);
}

#[test]
fn second_setup_adds_no_rule() {
    let firewall = ipv4_firewall();
    let runner = ChainRunner::default();
    firewall.setup(&mut CommandLog::new(&runner), 10022).unwrap();
    let chain_after_first = runner.chain.borrow().clone();
    firewall.setup(&mut CommandLog::new(&runner), 10022).unwrap();
    assert_eq!(*runner.chain.borrow(), chain_after_first);
    let commands = runner.commands.borrow();
    assert_eq!(commands.len(), 8 + 5);
    assert!(commands[8..].iter().all(|c| c.args[0] == "create" || c.args[0] == "-C"));
}

#[test]
fn setup_stops_at_first_failure() {
    let firewall = ipv4_firewall();
    let runner = FailingRunner { commands: RefCell::new(Vec::new()) };
    let err = firewall.setup(&mut CommandLog::new(&runner), 10022).unwrap_err();
    assert_eq!(err.message, "boom");
    assert_eq!(runner.commands.borrow().len(), 2);
}

#[test]
fn ban_and_allow_go_through_the_runner() {
    let firewall = ipv4_firewall();
    let runner = RecordingRunner::default();
    let mut log = CommandLog::new(&runner);
    firewall.ban_ip(&mut log, IpAddress::v4(10, 0, 0, 255)).unwrap();
    firewall.add_ip(&mut log, IpAddress::v4(10, 0, 0, 1)).unwrap();
    drop(log);
    let commands = runner.commands.borrow();
    assert_eq!(commands.len(), 2);
    assert_eq!(commands[0].args, vec!["add", "ssh_ban", "10.0.0.255", "timeout", "86400", "-exist"]);
    assert_eq!(commands[1].args, vec!["add", "ssh_allow", "10.0.0.1", "timeout", "10", "-exist"]);
}

#[test]
fn refuses_unsafe_names_and_zero_timeouts() {
    let bad = Firewall::new(
        "ssh allow".to_string(),
        "ssh_ban".to_string(),
        10,
        10,
        FirewallBackend::Iptables,
        AddressFamily::Ipv4,
    );
    assert_eq!(bad.unwrap_err(), FirewallError::IpsetName(IpsetNameError::InvalidCharacters));
    let zero = Firewall::new(
        "a".to_string(),
        "b".to_string(),
        0,
        10,
        FirewallBackend::Iptables,
        AddressFamily::Ipv4,
    );
    assert_eq!(zero.unwrap_err(), FirewallError::ZeroTimeout);
}

#[test]
fn ipv4_create_has_no_family() {
    let create = ipv4_firewall().create_ban_ipset_command();
    assert_eq!(create.args, vec!["create", "ssh_ban", "hash:ip", "timeout", "86400", "-exist"]);
}

#[test]
fn command_output_is_trimmed_and_bounded() {
    assert_eq!(bounded_command_output(b"  no such set \n"), "no such set");
    let long = vec![b'x'; 5000];
    let shown = bounded_command_output(&long);
    assert!(shown.starts_with(&"x".repeat(4096)));
    assert!(shown.ends_with(" <truncated: showing first 4096 of 5000 bytes>"));
    assert_eq!(shown.len(), 4096 + " <truncated: showing first 4096 of 5000 bytes>".len());
    assert_eq!(bounded_command_output(&[0x66, 0xff, 0x67]), "f\u{fffd}g");
}

#[test]
fn preflight_stops_at_first_failure() {
    let firewall = ipv4_firewall();
    let runner = FailingRunner { commands: RefCell::new(Vec::new()) };
    let err = firewall.preflight(&mut CommandLog::new(&runner)).unwrap_err();
    assert_eq!(err.message, "boom");
    let commands = runner.commands.borrow();
    assert_eq!(commands.len(), 2);
    assert_eq!(commands[0].args, vec!["list", "ssh_allow"]);
    assert_eq!(commands[1].args, vec!["list", "ssh_ban"]);
}

#[test]
fn command_output_is_trimmed_of_unicode_white_space() {
    let text = "\u{3000}\t ipset: missing \u{2028}\n\u{85}";
    assert_eq!(bounded_command_output(text.as_bytes()), "ipset: missing");
    assert_eq!(bounded_command_output(" \u{a0} ".as_bytes()), "");
}
