//! Firewall integration: the ipset and iptables command lines the daemon runs.
//!
//! Every command is an explicit program and argument vector; nothing passes
//! through a shell.
use crate::config::{
    ipset_name_error, text_bytes, validate_ipset_name, AddressFamily, FirewallBackend,
    IpsetNameError,
};
use crate::net::{ip_text, IpAddress};
use crate::text::{chars_of, dec_text, decimal_string, push_char, push_decimal};
use vstd::prelude::*;

verus! {

/// A program and its arguments, run without shell interpolation.
#[derive(Clone, Debug, PartialEq, Eq)]
pub struct CommandSpec {
    pub program: String,
    pub args: Vec<String>,
}

/// Why a command failed to start or exited unsuccessfully.
#[derive(Clone, Debug, PartialEq, Eq)]
pub struct CommandError {
    pub message: String,
}

/// Runs commands. Implemented by callers; the daemon's own runner executes
/// the program directly.
pub trait CommandRunner {
    /// Runs a command without shell interpolation.
    fn run(&self, spec: &CommandSpec) -> Result<(), CommandError>;
}

/// A command handed to a runner and the answer the runner gave.
pub type CommandRecord = (CommandSpec, Result<(), CommandError>);

/// A runner together with the record, in order, of every command handed to it
/// through this log and of each answer. The firewall operations take their
/// runner in this form, so their contracts can say exactly which commands ran.
pub struct CommandLog<'a, R> {
    runner: &'a R,
    history: Ghost<Seq<CommandRecord>>,
}

impl<'a, R: CommandRunner> CommandLog<'a, R> {
    /// The commands handed to the runner so far, with its answers.
    pub closed spec fn history(&self) -> Seq<CommandRecord> {
        self.history@
    }

    /// A log of `runner` with nothing run yet.
    pub fn new(runner: &'a R) -> (r: Self)
        ensures
            r.history() == Seq::<CommandRecord>::empty(),
    {
        CommandLog { runner, history: Ghost(Seq::empty()) }
    }

    /// Hands `command` to the runner and records it with the answer.
    pub fn run(&mut self, command: &CommandSpec) -> (r: Result<(), CommandError>)
        ensures
            final(self).history() == old(self).history().push((*command, r)),
    {
        let r = self.runner.run(command);
        proof {
            self.history@ = self.history@.push((*command, r));
        }
        r
    }
}

/// The arguments of a command as texts.
pub open spec fn argv(c: CommandSpec) -> Seq<Seq<char>> {
    c.args@.map_values(|a: String| a@)
}

/// Whether `c` runs `program` with exactly the arguments `args`.
pub open spec fn command_is(c: CommandSpec, program: Seq<char>, args: Seq<Seq<char>>) -> bool {
    c.program@ == program && argv(c) == args
}

/// Why a firewall integration could not be made.
#[derive(Clone, Copy, Debug, PartialEq, Eq, Structural)]
pub enum FirewallError {
    IpsetName(IpsetNameError),
    ZeroTimeout,
}

/// The human-readable reason for a `FirewallError`.
pub open spec fn firewall_error_text(e: FirewallError) -> Seq<char> {
    match e {
        FirewallError::IpsetName(inner) => crate::config::ipset_name_error_text(inner),
        FirewallError::ZeroTimeout => "firewall timeouts must be greater than zero"@,
    }
}

impl FirewallError {
    /// The human-readable reason.
    pub fn message(&self) -> (r: &'static str)
        ensures
            r@ == firewall_error_text(*self),
    {
        match self {
            FirewallError::IpsetName(e) => e.message(),
            FirewallError::ZeroTimeout => "firewall timeouts must be greater than zero",
        }
    }
}

/// The program that manages rules for a backend.
pub open spec fn backend_program(b: FirewallBackend) -> Seq<char> {
    match b {
        FirewallBackend::Iptables => "iptables"@,
        FirewallBackend::Ip6tables => "ip6tables"@,
    }
}

/// Arguments that create an ipset `name` of addresses with a default timeout.
pub open spec fn create_set_args(name: Seq<char>, timeout: u64, family: AddressFamily) -> Seq<Seq<char>> {
    seq!["create"@, name, "hash:ip"@, "timeout"@, dec_text(timeout as nat)] + (if family
        == AddressFamily::Ipv6 {
        seq!["family"@, "inet6"@]
    } else {
        Seq::empty()
    }) + seq!["-exist"@]
}

/// The body of the rule that accepts sources in set `allow` on TCP port `port`.
pub open spec fn allow_rule(allow: Seq<char>, port: u16) -> Seq<Seq<char>> {
    seq![
        "-p"@,
        "tcp"@,
        "--dport"@,
        dec_text(port as nat),
        "-m"@,
        "set"@,
        "--match-set"@,
        allow,
        "src"@,
        "-j"@,
        "ACCEPT"@,
    ]
}

/// The body of the rule that drops TCP port `port`.
pub open spec fn drop_rule(port: u16) -> Seq<Seq<char>> {
    seq!["-p"@, "tcp"@, "--dport"@, dec_text(port as nat), "-j"@, "DROP"@]
}

/// The body of the rule that drops sources in set `ban`.
pub open spec fn ban_drop_rule(ban: Seq<char>) -> Seq<Seq<char>> {
    seq!["-m"@, "set"@, "--match-set"@, ban, "src"@, "-j"@, "DROP"@]
}

/// Arguments that insert a rule first in INPUT.
pub open spec fn insert_args(rule: Seq<Seq<char>>) -> Seq<Seq<char>> {
    seq!["-I"@, "INPUT"@, "1"@] + rule
}

/// Arguments that append a rule to INPUT.
pub open spec fn append_args(rule: Seq<Seq<char>>) -> Seq<Seq<char>> {
    seq!["-A"@, "INPUT"@] + rule
}

/// Arguments that ask whether INPUT holds a rule; the command succeeds
/// exactly when it does.
pub open spec fn check_args(rule: Seq<Seq<char>>) -> Seq<Seq<char>> {
    seq!["-C"@, "INPUT"@] + rule
}

/// Arguments that insert, first in INPUT, a rule dropping sources in set `ban`.
pub open spec fn ban_drop_args(ban: Seq<char>) -> Seq<Seq<char>> {
    insert_args(ban_drop_rule(ban))
}

/// Arguments that insert, first in INPUT, a rule accepting sources in set
/// `allow` on TCP port `port`.
pub open spec fn allow_args(allow: Seq<char>, port: u16) -> Seq<Seq<char>> {
    insert_args(allow_rule(allow, port))
}

/// Arguments that append to INPUT a rule dropping TCP port `port`.
pub open spec fn drop_args(port: u16) -> Seq<Seq<char>> {
    append_args(drop_rule(port))
}

/// Arguments that add `ip` to set `name` with a timeout, idempotently.
pub open spec fn add_member_args(name: Seq<char>, ip: IpAddress, timeout: u64) -> Seq<Seq<char>> {
    seq!["add"@, name, ip_text(ip), "timeout"@, dec_text(timeout as nat), "-exist"@]
}

fn arg(s: &str) -> (r: String)
    ensures
        r@ == s@,
{
    String::from_str(s)
}

/// The firewall settings and the commands built from them.
#[derive(Clone, Debug)]
pub struct Firewall {
    ipset_name: String,
    ban_ipset_name: String,
    ip_timeout: u64,
    ban_timeout: u64,
    backend: FirewallBackend,
    address_family: AddressFamily,
}

impl Firewall {
    /// Name of the allow set.
    pub closed spec fn allow_set(&self) -> Seq<char> {
        self.ipset_name@
    }

    /// Name of the ban set.
    pub closed spec fn ban_set(&self) -> Seq<char> {
        self.ban_ipset_name@
    }

    /// Seconds an allowed source stays in the allow set.
    pub closed spec fn allow_timeout(&self) -> u64 {
        self.ip_timeout
    }

    /// Seconds a banned source stays in the ban set.
    pub closed spec fn ban_duration(&self) -> u64 {
        self.ban_timeout
    }

    /// The rule program family.
    pub closed spec fn backend(&self) -> FirewallBackend {
        self.backend
    }

    /// The set address family.
    pub closed spec fn family(&self) -> AddressFamily {
        self.address_family
    }

    /// Both set names are safe and both timeouts nonzero.
    pub open spec fn wf(&self) -> bool {
        &&& ipset_name_error(text_bytes(self.allow_set())) is None
        &&& ipset_name_error(text_bytes(self.ban_set())) is None
        &&& self.allow_timeout() > 0
        &&& self.ban_duration() > 0
    }

    /// Creates a firewall integration with validated command arguments.
    pub fn new(
        ipset_name: String,
        ban_ipset_name: String,
        ip_timeout: u64,
        ban_timeout: u64,
        backend: FirewallBackend,
        address_family: AddressFamily,
    ) -> (r: Result<Self, FirewallError>)
        ensures
            match r {
                Ok(f) => {
                    &&& f.wf()
                    &&& f.allow_set() == ipset_name@
                    &&& f.ban_set() == ban_ipset_name@
                    &&& f.allow_timeout() == ip_timeout
                    &&& f.ban_duration() == ban_timeout
                    &&& f.backend() == backend
                    &&& f.family() == address_family
                },
                Err(e) => e == (if ipset_name_error(text_bytes(ipset_name@)) is Some {
                    FirewallError::IpsetName(ipset_name_error(text_bytes(ipset_name@))->0)
                } else if ipset_name_error(text_bytes(ban_ipset_name@)) is Some {
                    FirewallError::IpsetName(ipset_name_error(text_bytes(ban_ipset_name@))->0)
                } else {
                    FirewallError::ZeroTimeout
                }),
            },
            r is Ok <==> (ipset_name_error(text_bytes(ipset_name@)) is None && ipset_name_error(
                text_bytes(ban_ipset_name@),
            ) is None && ip_timeout > 0 && ban_timeout > 0),
    {
        match validate_ipset_name(ipset_name.as_str()) {
            Err(e) => return Err(FirewallError::IpsetName(e)),
            Ok(()) => {},
        }
        match validate_ipset_name(ban_ipset_name.as_str()) {
            Err(e) => return Err(FirewallError::IpsetName(e)),
            Ok(()) => {},
        }
        if ip_timeout == 0 || ban_timeout == 0 {
            return Err(FirewallError::ZeroTimeout);
        }
        Ok(Firewall { ipset_name, ban_ipset_name, ip_timeout, ban_timeout, backend, address_family })
    }

    fn create_set_command(&self, name: &str, timeout: u64) -> (r: CommandSpec)
        ensures
            command_is(r, "ipset"@, create_set_args(name@, timeout, self.family())),
    {
        let mut args: Vec<String> = Vec::new();
        args.push(arg("create"));
        args.push(arg(name));
        args.push(arg("hash:ip"));
        args.push(arg("timeout"));
        args.push(decimal_string(timeout));
        if self.address_family == AddressFamily::Ipv6 {
            args.push(arg("family"));
            args.push(arg("inet6"));
        }
        args.push(arg("-exist"));
        let r = CommandSpec { program: arg("ipset"), args };
        assert(argv(r) =~= create_set_args(name@, timeout, self.family()));
        r
    }

    /// Returns the ipset create command for initial firewall setup.
    pub fn create_ipset_command(&self) -> (r: CommandSpec)
        ensures
            command_is(r, "ipset"@, create_set_args(self.allow_set(), self.allow_timeout(), self.family())),
    {
        self.create_set_command(self.ipset_name.as_str(), self.ip_timeout)
    }

    /// Returns the ban ipset create command for initial firewall setup.
    pub fn create_ban_ipset_command(&self) -> (r: CommandSpec)
        ensures
            command_is(r, "ipset"@, create_set_args(self.ban_set(), self.ban_duration(), self.family())),
    {
        self.create_set_command(self.ban_ipset_name.as_str(), self.ban_timeout)
    }

    fn firewall_program(&self) -> (r: String)
        ensures
            r@ == backend_program(self.backend()),
    {
        match self.backend {
            FirewallBackend::Iptables => arg("iptables"),
            FirewallBackend::Ip6tables => arg("ip6tables"),
        }
    }

    /// Returns the firewall ban drop command for initial firewall setup.
    pub fn iptables_ban_drop_command(&self) -> (r: CommandSpec)
        ensures
            command_is(r, backend_program(self.backend()), ban_drop_args(self.ban_set())),
    {
        let mut args: Vec<String> = Vec::new();
        args.push(arg("-I"));
        args.push(arg("INPUT"));
        args.push(arg("1"));
        args.push(arg("-m"));
        args.push(arg("set"));
        args.push(arg("--match-set"));
        args.push(self.ban_ipset_name.clone());
        args.push(arg("src"));
        args.push(arg("-j"));
        args.push(arg("DROP"));
        let r = CommandSpec { program: self.firewall_program(), args };
        assert(argv(r) =~= ban_drop_args(self.ban_set()));
        r
    }

    /// Returns the firewall allow command for initial firewall setup.
    pub fn iptables_allow_command(&self, ssh_port: u16) -> (r: CommandSpec)
        ensures
            command_is(r, backend_program(self.backend()), allow_args(self.allow_set(), ssh_port)),
    {
        let mut args: Vec<String> = Vec::new();
        args.push(arg("-I"));
        args.push(arg("INPUT"));
        args.push(arg("1"));
        args.push(arg("-p"));
        args.push(arg("tcp"));
        args.push(arg("--dport"));
        args.push(decimal_string(ssh_port as u64));
        args.push(arg("-m"));
        args.push(arg("set"));
        args.push(arg("--match-set"));
        args.push(self.ipset_name.clone());
        args.push(arg("src"));
        args.push(arg("-j"));
        args.push(arg("ACCEPT"));
        let r = CommandSpec { program: self.firewall_program(), args };
        assert(argv(r) =~= allow_args(self.allow_set(), ssh_port));
        r
    }

    /// Returns the firewall drop command for initial firewall setup.
    pub fn iptables_drop_command(&self, ssh_port: u16) -> (r: CommandSpec)
        ensures
            command_is(r, backend_program(self.backend()), drop_args(ssh_port)),
    {
        let mut args: Vec<String> = Vec::new();
        args.push(arg("-A"));
        args.push(arg("INPUT"));
        args.push(arg("-p"));
        args.push(arg("tcp"));
        args.push(arg("--dport"));
        args.push(decimal_string(ssh_port as u64));
        args.push(arg("-j"));
        args.push(arg("DROP"));
        let r = CommandSpec { program: self.firewall_program(), args };
        assert(argv(r) =~= drop_args(ssh_port));
        r
    }

    fn add_member_command(&self, name: &String, ip: IpAddress, timeout: u64) -> (r: CommandSpec)
        ensures
            command_is(r, "ipset"@, add_member_args(name@, ip, timeout)),
    {
        let mut args: Vec<String> = Vec::new();
        args.push(arg("add"));
        args.push(name.clone());
        args.push(ip.to_text());
        args.push(arg("timeout"));
        args.push(decimal_string(timeout));
        args.push(arg("-exist"));
        let r = CommandSpec { program: arg("ipset"), args };
        assert(argv(r) =~= add_member_args(name@, ip, timeout));
        r
    }

    /// Returns the ipset add command for a source IP.
    pub fn add_ip_command(&self, ip: IpAddress) -> (r: CommandSpec)
        ensures
            command_is(r, "ipset"@, add_member_args(self.allow_set(), ip, self.allow_timeout())),
    {
        self.add_member_command(&self.ipset_name, ip, self.ip_timeout)
    }

    /// Returns the ban ipset add command for a source IP.
    pub fn ban_ip_command(&self, ip: IpAddress) -> (r: CommandSpec)
        ensures
            command_is(r, "ipset"@, add_member_args(self.ban_set(), ip, self.ban_duration())),
    {
        self.add_member_command(&self.ban_ipset_name, ip, self.ban_timeout)
    }
    fn preflight_steps(&self) -> (r: Vec<PlannedCommand>)
        ensures
            plan_text(r@) == self.preflight_plan(),
    {
        let mut r: Vec<PlannedCommand> = Vec::new();
        let mut a1: Vec<String> = Vec::new();
        a1.push(arg("list"));
        a1.push(self.ipset_name.clone());
        r.push(PlannedCommand { command: CommandSpec { program: arg("ipset"), args: a1 }, check: None });
        let mut a2: Vec<String> = Vec::new();
        a2.push(arg("list"));
        a2.push(self.ban_ipset_name.clone());
        r.push(PlannedCommand { command: CommandSpec { program: arg("ipset"), args: a2 }, check: None });
        let mut a3: Vec<String> = Vec::new();
        a3.push(arg("-S"));
        r.push(PlannedCommand { command: CommandSpec { program: self.firewall_program(), args: a3 }, check: None });
        assert(argv(r@[0].command) =~= seq!["list"@, self.allow_set()]);
        assert(argv(r@[1].command) =~= seq!["list"@, self.ban_set()]);
        assert(argv(r@[2].command) =~= seq!["-S"@]);
        assert(plan_text(r@) =~= self.preflight_plan());
        r
    }

    /// The rules that setup makes sure INPUT holds, in the order it sees to
    /// them, each with whether it goes first in INPUT (otherwise last): accept
    /// allowed sources on the SSH port, drop the SSH port, drop banned sources.
    pub open spec fn setup_rules(&self, ssh_port: u16) -> Seq<(Seq<Seq<char>>, bool)> {
        seq![
            (allow_rule(self.allow_set(), ssh_port), true),
            (drop_rule(ssh_port), false),
            (ban_drop_rule(self.ban_set()), true),
        ]
    }

    /// The plan of the initial setup: create the allow set and the ban set
    /// (both idempotent, through `-exist`), then add each setup rule unless a
    /// check finds it in INPUT already.
    pub open spec fn setup_plan(&self, ssh_port: u16) -> Seq<PlanStep> {
        let program = backend_program(self.backend());
        let rules = self.setup_rules(ssh_port);
        seq![
            (("ipset"@, create_set_args(self.allow_set(), self.allow_timeout(), self.family())), None),
            (("ipset"@, create_set_args(self.ban_set(), self.ban_duration(), self.family())), None),
            rule_step(program, rules[0]),
            rule_step(program, rules[1]),
            rule_step(program, rules[2]),
        ]
    }

    /// The plan of the preflight: list the allow set, list the ban set, list
    /// the rules.
    pub open spec fn preflight_plan(&self) -> Seq<PlanStep> {
        seq![
            (("ipset"@, seq!["list"@, self.allow_set()]), None),
            (("ipset"@, seq!["list"@, self.ban_set()]), None),
            ((backend_program(self.backend()), seq!["-S"@]), None),
        ]
    }

    fn setup_steps(&self, ssh_port: u16) -> (r: Vec<PlannedCommand>)
        ensures
            plan_text(r@) == self.setup_plan(ssh_port),
    {
        let allow = self.iptables_allow_command(ssh_port);
        assert(allow.args@.len() == argv(allow).len());
        let allow_check = check_command(&allow, 3);
        let drop = self.iptables_drop_command(ssh_port);
        assert(drop.args@.len() == argv(drop).len());
        let drop_check = check_command(&drop, 2);
        let ban = self.iptables_ban_drop_command();
        assert(ban.args@.len() == argv(ban).len());
        let ban_check = check_command(&ban, 3);
        let mut r: Vec<PlannedCommand> = Vec::new();
        r.push(PlannedCommand { command: self.create_ipset_command(), check: None });
        r.push(PlannedCommand { command: self.create_ban_ipset_command(), check: None });
        r.push(PlannedCommand { command: allow, check: Some(allow_check) });
        r.push(PlannedCommand { command: drop, check: Some(drop_check) });
        r.push(PlannedCommand { command: ban, check: Some(ban_check) });
        proof {
            let rules = self.setup_rules(ssh_port);
            assert(allow_args(self.allow_set(), ssh_port).skip(3) =~= rules[0].0);
            assert(drop_args(ssh_port).skip(2) =~= rules[1].0);
            assert(ban_drop_args(self.ban_set()).skip(3) =~= rules[2].0);
            assert(plan_text(r@) =~= self.setup_plan(ssh_port));
        }
        r
    }

    /// Applies the initial ipset and iptables rules, idempotently: creates the
    /// two sets, then for each setup rule checks whether INPUT holds it and
    /// adds it only when the check fails. Stops at the first failure, which it
    /// returns.
    pub fn setup<R: CommandRunner>(&self, runner: &mut CommandLog<R>, ssh_port: u16) -> (r: Result<
        (),
        CommandError,
    >)
        ensures
            ran_plan(old(runner).history(), final(runner).history(), self.setup_plan(ssh_port), r),
    {
        let steps = self.setup_steps(ssh_port);
        run_plan(runner, &steps)
    }

    /// Adds a source IP to the configured ipset.
    pub fn add_ip<R: CommandRunner>(&self, runner: &mut CommandLog<R>, ip: IpAddress) -> (r: Result<
        (),
        CommandError,
    >)
        ensures
            ran_plan(
                old(runner).history(),
                final(runner).history(),
                seq![(("ipset"@, add_member_args(self.allow_set(), ip, self.allow_timeout())), None)],
                r,
            ),
    {
        let command = self.add_ip_command(ip);
        run_one(runner, &command)
    }

    /// Adds a source IP to the ban ipset.
    pub fn ban_ip<R: CommandRunner>(&self, runner: &mut CommandLog<R>, ip: IpAddress) -> (r: Result<
        (),
        CommandError,
    >)
        ensures
            ran_plan(
                old(runner).history(),
                final(runner).history(),
                seq![(("ipset"@, add_member_args(self.ban_set(), ip, self.ban_duration())), None)],
                r,
            ),
    {
        let command = self.ban_ip_command(ip);
        run_one(runner, &command)
    }

    /// Verifies ipset and iptables availability before the daemon starts: runs
    /// the preflight commands in order and stops at the first failure.
    pub fn preflight<R: CommandRunner>(&self, runner: &mut CommandLog<R>) -> (r: Result<
        (),
        CommandError,
    >)
        ensures
            ran_plan(old(runner).history(), final(runner).history(), self.preflight_plan(), r),
    {
        let steps = self.preflight_steps();
        run_plan(runner, &steps)
    }
}

/// A command as texts: its program and its arguments.
pub type CommandText = (Seq<char>, Seq<Seq<char>>);

/// The texts of a command.
pub open spec fn text_of(c: CommandSpec) -> CommandText {
    (c.program@, argv(c))
}

/// One planned command, as texts, with the check that decides whether it
/// runs: without a check it always runs; with one, the check runs first and
/// the command runs only when the check fails.
pub type PlanStep = (CommandText, Option<CommandText>);

/// The step that adds `rule` (first in INPUT, or last) unless a check finds it.
pub open spec fn rule_step(program: Seq<char>, rule: (Seq<Seq<char>>, bool)) -> PlanStep {
    (
        (program, if rule.1 {
            insert_args(rule.0)
        } else {
            append_args(rule.0)
        }),
        Some((program, check_args(rule.0))),
    )
}

/// Whether `trace` is exactly what carrying out `plan` hands to a runner,
/// stopping at the first command that fails, and `r` what it then returns:
/// each step's check (if any) and then, when there is no check or the check
/// failed, its command; `r` is the failure of the last command run if it
/// failed, and success otherwise. A failed check is no failure.
pub open spec fn follows_plan(plan: Seq<PlanStep>, trace: Seq<CommandRecord>, r: Result<
    (),
    CommandError,
>) -> bool
    decreases plan.len(),
{
    if plan.len() == 0 {
        trace.len() == 0 && r is Ok
    } else {
        let command = plan[0].0;
        let rest = plan.drop_first();
        match plan[0].1 {
            None => {
                &&& trace.len() >= 1
                &&& text_of(trace[0].0) == command
                &&& match trace[0].1 {
                    Ok(_) => follows_plan(rest, trace.drop_first(), r),
                    Err(e) => trace.len() == 1 && r == Err::<(), CommandError>(e),
                }
            },
            Some(check) => {
                &&& trace.len() >= 1
                &&& text_of(trace[0].0) == check
                &&& match trace[0].1 {
                    Ok(_) => follows_plan(rest, trace.drop_first(), r),
                    Err(_) => {
                        &&& trace.len() >= 2
                        &&& text_of(trace[1].0) == command
                        &&& match trace[1].1 {
                            Ok(_) => follows_plan(rest, trace.skip(2), r),
                            Err(e) => trace.len() == 2 && r == Err::<(), CommandError>(e),
                        }
                    },
                }
            },
        }
    }
}

/// Whether a log went from `before` to `after` by carrying out `plan` and
/// nothing else, with result `r`.
pub open spec fn ran_plan(
    before: Seq<CommandRecord>,
    after: Seq<CommandRecord>,
    plan: Seq<PlanStep>,
    r: Result<(), CommandError>,
) -> bool {
    &&& before.len() <= after.len()
    &&& after.take(before.len() as int) == before
    &&& follows_plan(plan, after.skip(before.len() as int), r)
}

/// INPUT, as the bodies of its rules in order, after adding `rule` the way a
/// setup step does when its check answers whether INPUT holds the rule: kept
/// as it is when it does, otherwise with the rule inserted first or appended.
pub open spec fn add_rule(chain: Seq<Seq<Seq<char>>>, rule: (Seq<Seq<char>>, bool)) -> Seq<
    Seq<Seq<char>>,
> {
    if chain.contains(rule.0) {
        chain
    } else if rule.1 {
        seq![rule.0] + chain
    } else {
        chain.push(rule.0)
    }
}

/// INPUT after adding each of `rules` in turn.
pub open spec fn add_rules(chain: Seq<Seq<Seq<char>>>, rules: Seq<(Seq<Seq<char>>, bool)>) -> Seq<
    Seq<Seq<char>>,
>
    decreases rules.len(),
{
    if rules.len() == 0 {
        chain
    } else {
        add_rules(add_rule(chain, rules[0]), rules.drop_first())
    }
}

proof fn lemma_add_rules_keeps(
    chain: Seq<Seq<Seq<char>>>,
    rules: Seq<(Seq<Seq<char>>, bool)>,
    x: Seq<Seq<char>>,
)
    requires
        chain.contains(x),
    ensures
        add_rules(chain, rules).contains(x),
    decreases rules.len(),
{
    if rules.len() > 0 {
        let next = add_rule(chain, rules[0]);
        let i = choose|i: int| 0 <= i < chain.len() && chain[i] == x;
        if !chain.contains(rules[0].0) {
            if rules[0].1 {
                assert(next[i + 1] == x);
            } else {
                assert(next[i] == x);
            }
        }
        lemma_add_rules_keeps(next, rules.drop_first(), x);
    }
}

proof fn lemma_add_rules_holds(chain: Seq<Seq<Seq<char>>>, rules: Seq<(Seq<Seq<char>>, bool)>, k: int)
    requires
        0 <= k < rules.len(),
    ensures
        add_rules(chain, rules).contains(rules[k].0),
    decreases rules.len(),
{
    let next = add_rule(chain, rules[0]);
    if k == 0 {
        if !chain.contains(rules[0].0) {
            if rules[0].1 {
                assert(next[0] == rules[0].0);
            } else {
                assert(next[next.len() - 1] == rules[0].0);
            }
        }
        lemma_add_rules_keeps(next, rules.drop_first(), rules[0].0);
    } else {
        lemma_add_rules_holds(next, rules.drop_first(), k - 1);
    }
}

proof fn lemma_add_rules_present(chain: Seq<Seq<Seq<char>>>, rules: Seq<(Seq<Seq<char>>, bool)>)
    requires
        forall|k: int| 0 <= k < rules.len() ==> chain.contains(#[trigger] rules[k].0),
    ensures
        add_rules(chain, rules) == chain,
    decreases rules.len(),
{
    if rules.len() > 0 {
        assert(chain.contains(rules[0].0));
        assert forall|k: int| 0 <= k < rules.drop_first().len() implies chain.contains(
            #[trigger] rules.drop_first()[k].0,
        ) by {
            assert(rules.drop_first()[k] == rules[k + 1]);
        }
        lemma_add_rules_present(chain, rules.drop_first());
    }
}

/// Setup is idempotent. Model the firewall as the set of ipset names and the
/// INPUT chain, and a setup as its plan carried out by a runner whose set
/// creation (with `-exist`) makes sure the set exists and whose check of a
/// rule succeeds exactly when INPUT holds it: then setup leaves the sets
/// `sets + {allow, ban}` and the chain `add_rules(chain, setup_rules)`, and
/// running it a second time changes neither: no second set, no rule twice.
pub proof fn lemma_setup_idempotent(
    f: Firewall,
    ssh_port: u16,
    sets: Set<Seq<char>>,
    chain: Seq<Seq<Seq<char>>>,
)
    ensures
        ({
            let rules = f.setup_rules(ssh_port);
            let sets1 = sets.insert(f.allow_set()).insert(f.ban_set());
            let chain1 = add_rules(chain, rules);
            &&& sets1.insert(f.allow_set()).insert(f.ban_set()) == sets1
            &&& add_rules(chain1, rules) == chain1
            &&& forall|k: int| 0 <= k < rules.len() ==> chain1.contains(#[trigger] rules[k].0)
        }),
{
    let rules = f.setup_rules(ssh_port);
    let sets1 = sets.insert(f.allow_set()).insert(f.ban_set());
    assert(sets1.insert(f.allow_set()).insert(f.ban_set()) =~= sets1);
    let chain1 = add_rules(chain, rules);
    assert forall|k: int| 0 <= k < rules.len() implies chain1.contains(#[trigger] rules[k].0) by {
        lemma_add_rules_holds(chain, rules, k);
    }
    lemma_add_rules_present(chain1, rules);
}

/// A command to run, and the check that decides whether it runs.
pub struct PlannedCommand {
    pub command: CommandSpec,
    pub check: Option<CommandSpec>,
}

/// The texts of a planned command.
pub open spec fn step_text(p: PlannedCommand) -> PlanStep {
    (
        text_of(p.command),
        match p.check {
            Some(c) => Some(text_of(c)),
            None => None,
        },
    )
}

/// The texts of a plan.
pub open spec fn plan_text(ps: Seq<PlannedCommand>) -> Seq<PlanStep> {
    ps.map_values(|p: PlannedCommand| step_text(p))
}

/// The command that checks whether INPUT holds the rule that `add` adds,
/// whose rule body starts after its first `skip` arguments.
fn check_command(add: &CommandSpec, skip: usize) -> (r: CommandSpec)
    requires
        skip <= add.args@.len(),
    ensures
        r.program@ == add.program@,
        argv(r) == check_args(argv(*add).skip(skip as int)),
{
    let mut args: Vec<String> = Vec::new();
    args.push(arg("-C"));
    args.push(arg("INPUT"));
    let mut i: usize = skip;
    while i < add.args.len()
        invariant
            skip <= i <= add.args@.len(),
            args@.len() == 2 + i - skip,
            args@[0]@ == "-C"@,
            args@[1]@ == "INPUT"@,
            forall|j: int| 2 <= j < args@.len() ==> #[trigger] args@[j]@ == add.args@[j - 2 + skip]@,
        decreases add.args@.len() - i,
    {
        args.push(add.args[i].clone());
        i = i + 1;
    }
    let r = CommandSpec { program: add.program.clone(), args };
    assert(argv(r) =~= check_args(argv(*add).skip(skip as int)));
    r
}

proof fn lemma_follows_push(
    plan: Seq<PlanStep>,
    t: Seq<CommandRecord>,
    step: PlanStep,
    t2: Seq<CommandRecord>,
    r: Result<(), CommandError>,
)
    requires
        follows_plan(plan, t, Ok(())),
        follows_plan(seq![step], t2, r),
    ensures
        follows_plan(plan.push(step), t + t2, r),
    decreases plan.len(),
{
    if plan.len() == 0 {
        assert(plan.push(step) =~= seq![step]);
        assert(t + t2 =~= t2);
    } else {
        let rest = plan.drop_first();
        assert(plan.push(step).drop_first() =~= rest.push(step));
        assert((t + t2)[0] == t[0]);
        match plan[0].1 {
            None => {
                assert((t + t2).drop_first() =~= t.drop_first() + t2);
                lemma_follows_push(rest, t.drop_first(), step, t2, r);
            },
            Some(_) => {
                if t[0].1 is Ok {
                    assert((t + t2).drop_first() =~= t.drop_first() + t2);
                    lemma_follows_push(rest, t.drop_first(), step, t2, r);
                } else {
                    assert((t + t2)[1] == t[1]);
                    assert((t + t2).skip(2) =~= t.skip(2) + t2);
                    lemma_follows_push(rest, t.skip(2), step, t2, r);
                }
            },
        }
    }
}

proof fn lemma_follows_fail(plan: Seq<PlanStep>, more: Seq<PlanStep>, t: Seq<CommandRecord>, r: Result<
    (),
    CommandError,
>)
    requires
        follows_plan(plan, t, r),
        r is Err,
    ensures
        follows_plan(plan + more, t, r),
    decreases plan.len(),
{
    if plan.len() > 0 {
        let rest = plan.drop_first();
        assert((plan + more).drop_first() =~= rest + more);
        assert((plan + more)[0] == plan[0]);
        match plan[0].1 {
            None => {
                if t[0].1 is Ok {
                    lemma_follows_fail(rest, more, t.drop_first(), r);
                }
            },
            Some(_) => {
                if t[0].1 is Ok {
                    lemma_follows_fail(rest, more, t.drop_first(), r);
                } else if t[1].1 is Ok {
                    lemma_follows_fail(rest, more, t.skip(2), r);
                }
            },
        }
    }
}

/// Runs one command that has no check.
fn run_one<R: CommandRunner>(log: &mut CommandLog<R>, command: &CommandSpec) -> (r: Result<
    (),
    CommandError,
>)
    ensures
        ran_plan(old(log).history(), final(log).history(), seq![(text_of(*command), None::<CommandText>)], r),
{
    let ghost before = log.history();
    let r = log.run(command);
    proof {
        reveal_with_fuel(follows_plan, 2);
        let after = log.history();
        assert(after.take(before.len() as int) =~= before);
        assert(after.skip(before.len() as int) =~= seq![(*command, r)]);
        let plan = seq![(text_of(*command), None::<CommandText>)];
        assert(plan.drop_first() =~= Seq::<PlanStep>::empty());
        assert(after.skip(before.len() as int).drop_first() =~= Seq::<CommandRecord>::empty());
    }
    r
}

/// Carries out one planned step.
fn run_step<R: CommandRunner>(log: &mut CommandLog<R>, step: &PlannedCommand) -> (r: Result<
    (),
    CommandError,
>)
    ensures
        ran_plan(old(log).history(), final(log).history(), seq![step_text(*step)], r),
{
    match &step.check {
        None => run_one(log, &step.command),
        Some(check) => {
            let ghost before = log.history();
            let first = log.run(check);
            match first {
                Ok(u) => {
                    proof {
                        reveal_with_fuel(follows_plan, 2);
                        let after = log.history();
                        assert(after.take(before.len() as int) =~= before);
                        assert(after.skip(before.len() as int) =~= seq![(*check, first)]);
                        assert(seq![step_text(*step)].drop_first() =~= Seq::<PlanStep>::empty());
                        assert(after.skip(before.len() as int).drop_first() =~= Seq::<CommandRecord>::empty());
                    }
                    Ok(u)
                },
                Err(_) => {
                    let second = log.run(&step.command);
                    proof {
                        reveal_with_fuel(follows_plan, 2);
                        let after = log.history();
                        assert(after.take(before.len() as int) =~= before);
                        assert(after.skip(before.len() as int) =~= seq![(*check, first), (step.command, second)]);
                        assert(seq![step_text(*step)].drop_first() =~= Seq::<PlanStep>::empty());
                        assert(after.skip(before.len() as int).skip(2) =~= Seq::<CommandRecord>::empty());
                    }
                    second
                },
            }
        },
    }
}

/// Carries out a plan, step after step, stopping at the first failure.
fn run_plan<R: CommandRunner>(log: &mut CommandLog<R>, steps: &Vec<PlannedCommand>) -> (r: Result<
    (),
    CommandError,
>)
    ensures
        ran_plan(old(log).history(), final(log).history(), plan_text(steps@), r),
{
    let ghost start = log.history();
    let ghost plan = plan_text(steps@);
    let mut i: usize = 0;
    proof {
        assert(log.history().take(start.len() as int) =~= start);
        assert(log.history().skip(start.len() as int) =~= Seq::<CommandRecord>::empty());
        assert(plan.take(0) =~= Seq::<PlanStep>::empty());
    }
    while i < steps.len()
        invariant
            i <= steps@.len(),
            plan == plan_text(steps@),
            start == old(log).history(),
            start.len() <= log.history().len(),
            log.history().take(start.len() as int) == start,
            follows_plan(plan.take(i as int), log.history().skip(start.len() as int), Ok(())),
        decreases steps@.len() - i,
    {
        let ghost before = log.history();
        let answer = run_step(log, &steps[i]);
        proof {
            let after = log.history();
            let t = before.skip(start.len() as int);
            let t2 = after.skip(before.len() as int);
            assert(after.take(start.len() as int) =~= start);
            assert(after.skip(start.len() as int) =~= t + t2);
            assert(plan.take(i + 1) =~= plan.take(i as int).push(step_text(steps@[i as int])));
            lemma_follows_push(plan.take(i as int), t, step_text(steps@[i as int]), t2, answer);
        }
        match answer {
            Err(e) => {
                proof {
                    assert(plan =~= plan.take(i + 1) + plan.skip(i + 1));
                    lemma_follows_fail(plan.take(i + 1), plan.skip(i + 1), log.history().skip(start.len() as int), answer);
                }
                return Err(e);
            },
            Ok(u) => {
                assert(u == ());
            },
        }
        i = i + 1;
    }
    assert(plan.take(i as int) =~= plan);
    Ok(())
}

} // verus!

verus! {

/// Longest command output quoted in a failure report, in bytes.
pub const COMMAND_OUTPUT_LIMIT_BYTES: usize = 4096;

/// The text `String::from_utf8_lossy` decodes from `bytes`: invalid sequences
/// become U+FFFD.
pub uninterp spec fn lossy_utf8(bytes: Seq<u8>) -> Seq<char>;

/// Characters with the Unicode `White_Space` property.
pub open spec fn unicode_white_space(c: char) -> bool {
    ||| '\u{9}' <= c <= '\u{d}'
    ||| c == ' '
    ||| c == '\u{85}'
    ||| c == '\u{a0}'
    ||| c == '\u{1680}'
    ||| '\u{2000}' <= c <= '\u{200a}'
    ||| c == '\u{2028}'
    ||| c == '\u{2029}'
    ||| c == '\u{202f}'
    ||| c == '\u{205f}'
    ||| c == '\u{3000}'
}

/// `t` without leading white space.
pub open spec fn trim_start_ws(t: Seq<char>) -> Seq<char>
    decreases t.len(),
{
    if t.len() > 0 && unicode_white_space(t[0]) {
        trim_start_ws(t.drop_first())
    } else {
        t
    }
}

/// `t` without trailing white space.
pub open spec fn trim_end_ws(t: Seq<char>) -> Seq<char>
    decreases t.len(),
{
    if t.len() > 0 && unicode_white_space(t.last()) {
        trim_end_ws(t.drop_last())
    } else {
        t
    }
}

/// Decodes bytes as UTF-8, replacing invalid sequences (`String::from_utf8_lossy`).
#[verifier::external_body]
fn decode_lossy(bytes: &[u8]) -> (r: String)
    ensures
        r@ == lossy_utf8(bytes@),
        vstd::utf8::valid_utf8(bytes@) ==> r@ == vstd::utf8::decode_utf8(bytes@),
{
    String::from_utf8_lossy(bytes).into_owned()
}

fn is_white_space(c: char) -> (r: bool)
    ensures
        r == unicode_white_space(c),
{
    ('\u{9}' <= c && c <= '\u{d}') || c == ' ' || c == '\u{85}' || c == '\u{a0}' || c == '\u{1680}'
        || ('\u{2000}' <= c && c <= '\u{200a}') || c == '\u{2028}' || c == '\u{2029}' || c
        == '\u{202f}' || c == '\u{205f}' || c == '\u{3000}'
}

/// Removes leading and trailing white space, as `str::trim` does.
fn trim_white_space(s: &str) -> (r: String)
    ensures
        r@ == trim_end_ws(trim_start_ws(s@)),
{
    let cs = chars_of(s);
    let n = cs.len();
    let mut a: usize = 0;
    assert(cs@.skip(0) =~= cs@);
    while a < n && is_white_space(cs[a])
        invariant
            n == cs@.len(),
            cs@ == s@,
            a <= n,
            trim_start_ws(s@) == trim_start_ws(cs@.skip(a as int)),
        decreases n - a,
    {
        assert(cs@.skip(a as int).drop_first() =~= cs@.skip(a + 1));
        a = a + 1;
    }
    let ghost rest = cs@.skip(a as int);
    assert(trim_start_ws(rest) == rest);
    let mut b: usize = n;
    assert(rest =~= cs@.subrange(a as int, n as int));
    while b > a && is_white_space(cs[b - 1])
        invariant
            n == cs@.len(),
            a <= b <= n,
            trim_end_ws(rest) == trim_end_ws(cs@.subrange(a as int, b as int)),
        decreases b - a,
    {
        assert(cs@.subrange(a as int, b as int).drop_last() =~= cs@.subrange(a as int, b - 1));
        b = b - 1;
    }
    assert(trim_end_ws(cs@.subrange(a as int, b as int)) == cs@.subrange(a as int, b as int));
    let mut r = String::new();
    let mut i: usize = a;
    while i < b
        invariant
            a <= i <= b <= n,
            n == cs@.len(),
            r@ == cs@.subrange(a as int, i as int),
        decreases b - i,
    {
        push_char(&mut r, cs[i]);
        i = i + 1;
        assert(r@ =~= cs@.subrange(a as int, i as int));
    }
    r
}

/// The text shown for a command's output: at most the first
/// `COMMAND_OUTPUT_LIMIT_BYTES` bytes, decoded and trimmed, followed by a
/// truncation note when the output was longer.
pub open spec fn bounded_output_text(bytes: Seq<u8>) -> Seq<char> {
    let limit = COMMAND_OUTPUT_LIMIT_BYTES as int;
    let shown = if bytes.len() > limit {
        bytes.subrange(0, limit)
    } else {
        bytes
    };
    let text = trim_end_ws(trim_start_ws(lossy_utf8(shown)));
    if bytes.len() > limit {
        text + " <truncated: showing first "@ + dec_text(limit as nat) + " of "@ + dec_text(
            bytes.len(),
        ) + " bytes>"@
    } else {
        text
    }
}

/// Renders a command's captured output for a failure report.
pub fn bounded_command_output(bytes: &[u8]) -> (r: String)
    ensures
        r@ == bounded_output_text(bytes@),
{
    let n = bytes.len();
    let shown = if n > COMMAND_OUTPUT_LIMIT_BYTES {
        vstd::slice::slice_subrange(bytes, 0, COMMAND_OUTPUT_LIMIT_BYTES)
    } else {
        bytes
    };
    let decoded = decode_lossy(shown);
    let mut text = trim_white_space(decoded.as_str());
    if n > COMMAND_OUTPUT_LIMIT_BYTES {
        text.append(" <truncated: showing first ");
        push_decimal(&mut text, COMMAND_OUTPUT_LIMIT_BYTES as u64);
        text.append(" of ");
        push_decimal(&mut text, n as u64);
        text.append(" bytes>");
    }
    text
}

} // verus!

verus! {

use crate::config::ipset_name_byte;
use crate::net::{hex_groups, ipv4_text, ipv6_segments, ipv6_text, longest_zero_run};
use crate::text::{digit_char, hex_text};

/// Whether an argument is non-empty and its UTF-8 bytes are only ASCII
/// letters, digits, `_`, `.`, `:` and `-`: nothing a shell or a tool could
/// read as a separator, a quote, an expansion or a second command.
pub open spec fn safe_arg(a: Seq<char>) -> bool {
    &&& text_bytes(a).len() > 0
    &&& forall|i: int| 0 <= i < text_bytes(a).len() ==> ipset_name_byte(#[trigger] text_bytes(a)[i])
}

/// Whether every argument of a list is safe.
pub open spec fn all_args_safe(args: Seq<Seq<char>>) -> bool {
    forall|i: int| 0 <= i < args.len() ==> safe_arg(#[trigger] args[i])
}

/// An ASCII character from the safe set.
pub open spec fn safe_char(c: char) -> bool {
    '\0' <= c && c <= '\u{7f}' && ipset_name_byte(c as u8)
}

/// Every character is from the safe set.
pub open spec fn all_safe_chars(s: Seq<char>) -> bool {
    forall|i: int| 0 <= i < s.len() ==> safe_char(#[trigger] s[i])
}

proof fn lemma_safe_chars_make_safe_arg(s: Seq<char>)
    requires
        s.len() > 0,
        all_safe_chars(s),
    ensures
        safe_arg(s),
{
    assert forall|i: int| 0 <= i < s.len() implies '\0' <= #[trigger] s[i] && s[i] <= '\u{7f}' by {
        assert(safe_char(s[i]));
    }
    assert(vstd::utf8::is_ascii_chars(s));
    vstd::utf8::is_ascii_chars_encode_utf8(s);
    assert forall|i: int| 0 <= i < text_bytes(s).len() implies ipset_name_byte(
        #[trigger] text_bytes(s)[i],
    ) by {
        assert(s[i] as u8 == text_bytes(s)[i]);
        assert(safe_char(s[i]));
    }
}

proof fn lemma_concat_safe(a: Seq<char>, b: Seq<char>)
    requires
        all_safe_chars(a),
        all_safe_chars(b),
    ensures
        all_safe_chars(a + b),
{
    assert forall|i: int| 0 <= i < (a + b).len() implies safe_char(#[trigger] (a + b)[i]) by {
        if i < a.len() {
            assert((a + b)[i] == a[i]);
        } else {
            assert((a + b)[i] == b[i - a.len()]);
        }
    }
}

proof fn lemma_digit_safe(d: nat)
    requires
        d < 16,
    ensures
        safe_char(digit_char(d)),
{
}

proof fn lemma_dec_safe(n: nat)
    ensures
        all_safe_chars(dec_text(n)),
        dec_text(n).len() > 0,
    decreases n,
{
    if n < 10 {
        lemma_digit_safe(n);
    } else {
        lemma_dec_safe(n / 10);
        lemma_digit_safe(n % 10);
        lemma_concat_safe(dec_text(n / 10), seq![digit_char(n % 10)]);
        assert(dec_text(n / 10) + seq![digit_char(n % 10)] =~= dec_text(n / 10).push(digit_char(n % 10)));
    }
}

proof fn lemma_hex_safe(n: nat)
    ensures
        all_safe_chars(hex_text(n)),
        hex_text(n).len() > 0,
    decreases n,
{
    if n < 16 {
        lemma_digit_safe(n);
    } else {
        lemma_hex_safe(n / 16);
        lemma_digit_safe(n % 16);
        lemma_concat_safe(hex_text(n / 16), seq![digit_char(n % 16)]);
        assert(hex_text(n / 16) + seq![digit_char(n % 16)] =~= hex_text(n / 16).push(digit_char(n % 16)));
    }
}

proof fn lemma_groups_safe(s: Seq<int>, a: int, b: int)
    requires
        forall|i: int| 0 <= i < s.len() ==> 0 <= #[trigger] s[i],
        0 <= a,
        b <= s.len(),
    ensures
        all_safe_chars(hex_groups(s, a, b)),
    decreases b - a,
{
    if b <= a {
    } else if b == a + 1 {
        lemma_hex_safe(s[a] as nat);
    } else {
        lemma_groups_safe(s, a, b - 1);
        lemma_hex_safe(s[b - 1] as nat);
        lemma_concat_safe(hex_groups(s, a, b - 1), seq![':']);
        lemma_concat_safe(hex_groups(s, a, b - 1) + seq![':'], hex_text(s[b - 1] as nat));
    }
}

proof fn lemma_ipv4_safe(x: u32)
    ensures
        all_safe_chars(ipv4_text(x)),
        ipv4_text(x).len() > 0,
{
    let o0 = dec_text(((x / 16777216) % 256) as nat);
    let o1 = dec_text(((x / 65536) % 256) as nat);
    let o2 = dec_text(((x / 256) % 256) as nat);
    let o3 = dec_text((x % 256) as nat);
    lemma_dec_safe(((x / 16777216) % 256) as nat);
    lemma_dec_safe(((x / 65536) % 256) as nat);
    lemma_dec_safe(((x / 256) % 256) as nat);
    lemma_dec_safe((x % 256) as nat);
    let dot = seq!['.'];
    lemma_concat_safe(o0, dot);
    lemma_concat_safe(o0 + dot, o1);
    lemma_concat_safe(o0 + dot + o1, dot);
    lemma_concat_safe(o0 + dot + o1 + dot, o2);
    lemma_concat_safe(o0 + dot + o1 + dot + o2, dot);
    lemma_concat_safe(o0 + dot + o1 + dot + o2 + dot, o3);
}

proof fn lemma_segments_nonnegative(x: u128)
    ensures
        ipv6_segments(x).len() == 8,
        forall|i: int| 0 <= i < ipv6_segments(x).len() ==> 0 <= #[trigger] ipv6_segments(x)[i],
{
}

proof fn lemma_zero_run_bound(s: Seq<int>, i: int)
    requires
        0 <= i <= 8,
    ensures
        0 <= crate::net::zero_run(s, i) <= 8 - i,
    decreases 8 - i,
{
    if i < 8 {
        lemma_zero_run_bound(s, i + 1);
    }
}

proof fn lemma_longest_run_bounds(s: Seq<int>, i: int)
    requires
        0 <= i <= 8,
    ensures
        0 <= longest_zero_run(s, i).0,
        0 <= longest_zero_run(s, i).1,
        longest_zero_run(s, i).0 + longest_zero_run(s, i).1 <= 8,
    decreases 8 - i,
{
    if i < 8 {
        lemma_longest_run_bounds(s, i + 1);
        lemma_zero_run_bound(s, i);
    }
}

proof fn lemma_ipv6_groups_safe(x: u128)
    ensures
        all_safe_chars(ipv6_text(x)),
        ipv6_text(x).len() > 0,
{
    let s = ipv6_segments(x);
    lemma_segments_nonnegative(x);
    if x / 4294967296 == 65535 {
        let pre = seq![':', ':', 'f', 'f', 'f', 'f', ':'];
        lemma_ipv4_safe((x % 4294967296) as u32);
        lemma_concat_safe(pre, ipv4_text((x % 4294967296) as u32));
    } else {
        let run = longest_zero_run(s, 0);
        lemma_longest_run_bounds(s, 0);
        if run.1 > 1 {
            lemma_groups_safe(s, 0, run.0);
            lemma_groups_safe(s, run.0 + run.1, 8);
            lemma_concat_safe(hex_groups(s, 0, run.0), seq![':', ':']);
            lemma_concat_safe(
                hex_groups(s, 0, run.0) + seq![':', ':'],
                hex_groups(s, run.0 + run.1, 8),
            );
        } else {
            lemma_groups_safe(s, 0, 8);
            lemma_hex_safe(s[7] as nat);
        }
    }
}

proof fn lemma_ip_text_safe(ip: IpAddress)
    ensures
        all_safe_chars(ip_text(ip)),
        ip_text(ip).len() > 0,
{
    match ip {
        IpAddress::V4(x) => lemma_ipv4_safe(x),
        IpAddress::V6(x) => lemma_ipv6_groups_safe(x),
    }
}

} // verus!

verus! {

proof fn lemma_fixed_words_safe()
    ensures
        safe_arg("create"@),
        safe_arg("hash:ip"@),
        safe_arg("timeout"@),
        safe_arg("family"@),
        safe_arg("inet6"@),
        safe_arg("-exist"@),
        safe_arg("-I"@),
        safe_arg("INPUT"@),
        safe_arg("1"@),
        safe_arg("-m"@),
        safe_arg("set"@),
        safe_arg("--match-set"@),
        safe_arg("src"@),
        safe_arg("-j"@),
        safe_arg("DROP"@),
        safe_arg("-p"@),
        safe_arg("tcp"@),
        safe_arg("--dport"@),
        safe_arg("ACCEPT"@),
        safe_arg("-A"@),
        safe_arg("add"@),
        safe_arg("list"@),
        safe_arg("-S"@),
        safe_arg("-C"@),
{
    reveal_strlit("create");
    reveal_strlit("hash:ip");
    reveal_strlit("timeout");
    reveal_strlit("family");
    reveal_strlit("inet6");
    reveal_strlit("-exist");
    reveal_strlit("-I");
    reveal_strlit("INPUT");
    reveal_strlit("1");
    reveal_strlit("-m");
    reveal_strlit("set");
    reveal_strlit("--match-set");
    reveal_strlit("src");
    reveal_strlit("-j");
    reveal_strlit("DROP");
    reveal_strlit("-p");
    reveal_strlit("tcp");
    reveal_strlit("--dport");
    reveal_strlit("ACCEPT");
    reveal_strlit("-A");
    reveal_strlit("add");
    reveal_strlit("list");
    reveal_strlit("-S");
    reveal_strlit("-C");
    lemma_safe_chars_make_safe_arg("create"@);
    lemma_safe_chars_make_safe_arg("hash:ip"@);
    lemma_safe_chars_make_safe_arg("timeout"@);
    lemma_safe_chars_make_safe_arg("family"@);
    lemma_safe_chars_make_safe_arg("inet6"@);
    lemma_safe_chars_make_safe_arg("-exist"@);
    lemma_safe_chars_make_safe_arg("-I"@);
    lemma_safe_chars_make_safe_arg("INPUT"@);
    lemma_safe_chars_make_safe_arg("1"@);
    lemma_safe_chars_make_safe_arg("-m"@);
    lemma_safe_chars_make_safe_arg("set"@);
    lemma_safe_chars_make_safe_arg("--match-set"@);
    lemma_safe_chars_make_safe_arg("src"@);
    lemma_safe_chars_make_safe_arg("-j"@);
    lemma_safe_chars_make_safe_arg("DROP"@);
    lemma_safe_chars_make_safe_arg("-p"@);
    lemma_safe_chars_make_safe_arg("tcp"@);
    lemma_safe_chars_make_safe_arg("--dport"@);
    lemma_safe_chars_make_safe_arg("ACCEPT"@);
    lemma_safe_chars_make_safe_arg("-A"@);
    lemma_safe_chars_make_safe_arg("add"@);
    lemma_safe_chars_make_safe_arg("list"@);
    lemma_safe_chars_make_safe_arg("-S"@);
    lemma_safe_chars_make_safe_arg("-C"@);
}

proof fn lemma_name_safe(name: Seq<char>)
    requires
        crate::config::ipset_name_error(text_bytes(name)) is None,
    ensures
        safe_arg(name),
{
}

proof fn lemma_number_safe(n: nat)
    ensures
        safe_arg(dec_text(n)),
{
    lemma_dec_safe(n);
    lemma_safe_chars_make_safe_arg(dec_text(n));
}

proof fn lemma_create_args_safe(name: Seq<char>, timeout: u64, family: AddressFamily)
    requires
        safe_arg(name),
    ensures
        all_args_safe(create_set_args(name, timeout, family)),
{
    lemma_fixed_words_safe();
    lemma_number_safe(timeout as nat);
}

proof fn lemma_allow_args_safe(allow: Seq<char>, port: u16)
    requires
        safe_arg(allow),
    ensures
        all_args_safe(allow_args(allow, port)),
{
    lemma_fixed_words_safe();
    lemma_number_safe(port as nat);
}

proof fn lemma_drop_args_safe(ban: Seq<char>, port: u16)
    requires
        safe_arg(ban),
    ensures
        all_args_safe(drop_args(port)),
        all_args_safe(ban_drop_args(ban)),
{
    lemma_fixed_words_safe();
    lemma_number_safe(port as nat);
}

proof fn lemma_list_args_safe(allow: Seq<char>, ban: Seq<char>)
    requires
        safe_arg(allow),
        safe_arg(ban),
    ensures
        all_args_safe(seq!["list"@, allow]),
        all_args_safe(seq!["list"@, ban]),
        all_args_safe(seq!["-S"@]),
{
    lemma_fixed_words_safe();
}

proof fn lemma_rule_args_safe(allow: Seq<char>, ban: Seq<char>, port: u16)
    requires
        safe_arg(allow),
        safe_arg(ban),
    ensures
        all_args_safe(allow_args(allow, port)),
        all_args_safe(drop_args(port)),
        all_args_safe(ban_drop_args(ban)),
        all_args_safe(seq!["list"@, allow]),
        all_args_safe(seq!["list"@, ban]),
        all_args_safe(seq!["-S"@]),
{
    lemma_allow_args_safe(allow, port);
    lemma_drop_args_safe(ban, port);
    lemma_list_args_safe(allow, ban);
}

proof fn lemma_member_args_safe(name: Seq<char>, ip: IpAddress, timeout: u64)
    requires
        safe_arg(name),
    ensures
        all_args_safe(add_member_args(name, ip, timeout)),
{
    lemma_fixed_words_safe();
    lemma_number_safe(timeout as nat);
    lemma_ip_text_safe(ip);
    lemma_safe_chars_make_safe_arg(ip_text(ip));
}

/// Configuration values cannot inject anything into a firewall command: for a
/// well-formed firewall, every argument of every command it builds (setup,
/// its rule checks, preflight, allow and ban) is non-empty and made only of ASCII letters,
/// digits, `_`, `.`, `:` and `-`.
pub proof fn lemma_firewall_arguments_safe(f: Firewall, ssh_port: u16, ip: IpAddress)
    requires
        f.wf(),
    ensures
        all_args_safe(create_set_args(f.allow_set(), f.allow_timeout(), f.family())),
        all_args_safe(create_set_args(f.ban_set(), f.ban_duration(), f.family())),
        all_args_safe(allow_args(f.allow_set(), ssh_port)),
        all_args_safe(drop_args(ssh_port)),
        all_args_safe(ban_drop_args(f.ban_set())),
        all_args_safe(seq!["list"@, f.allow_set()]),
        all_args_safe(seq!["list"@, f.ban_set()]),
        all_args_safe(seq!["-S"@]),
        all_args_safe(add_member_args(f.allow_set(), ip, f.allow_timeout())),
        all_args_safe(add_member_args(f.ban_set(), ip, f.ban_duration())),
        all_args_safe(check_args(allow_rule(f.allow_set(), ssh_port))),
        all_args_safe(check_args(drop_rule(ssh_port))),
        all_args_safe(check_args(ban_drop_rule(f.ban_set()))),
{
    lemma_name_safe(f.allow_set());
    lemma_name_safe(f.ban_set());
    lemma_create_args_safe(f.allow_set(), f.allow_timeout(), f.family());
    lemma_create_args_safe(f.ban_set(), f.ban_duration(), f.family());
    lemma_rule_args_safe(f.allow_set(), f.ban_set(), ssh_port);
    lemma_member_args_safe(f.allow_set(), ip, f.allow_timeout());
    lemma_member_args_safe(f.ban_set(), ip, f.ban_duration());
    lemma_fixed_words_safe();
    lemma_check_args_safe(allow_rule(f.allow_set(), ssh_port), 3);
    lemma_check_args_safe(drop_rule(ssh_port), 2);
    lemma_check_args_safe(ban_drop_rule(f.ban_set()), 3);
}

proof fn lemma_check_args_safe(rule: Seq<Seq<char>>, skip: int)
    requires
        skip == 2 || skip == 3,
        skip == 3 ==> all_args_safe(insert_args(rule)),
        skip == 2 ==> all_args_safe(append_args(rule)),
        safe_arg("-C"@),
        safe_arg("INPUT"@),
    ensures
        all_args_safe(check_args(rule)),
{
    assert forall|i: int| 0 <= i < check_args(rule).len() implies safe_arg(#[trigger] check_args(rule)[i]) by {
        if i >= 2 {
            if skip == 3 {
                assert(check_args(rule)[i] == insert_args(rule)[i + 1]);
            } else {
                assert(check_args(rule)[i] == append_args(rule)[i]);
            }
        }
    }
}

} // verus!
