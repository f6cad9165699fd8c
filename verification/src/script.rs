//! Shell commands that reproduce the knock sequence with standard tools.
//!
//! The server argument is data: it is always single-quoted, and a server that
//! could be read as an option or that holds control characters is refused.
use crate::config::{Config, KnockStep, Protocol};
use crate::text::{dec_text, push_char, push_decimal};
use vstd::prelude::*;

verus! {

/// Why no script was produced.
#[derive(Clone, Copy, Debug, PartialEq, Eq, Structural)]
pub enum ScriptError {
    ServerStartsWithDash,
    ServerHasControlCharacter,
    MissingUdpPort,
    MissingTcpPort,
}

/// The human-readable reason for a `ScriptError`.
pub open spec fn script_error_text(e: ScriptError) -> Seq<char> {
    match e {
        ScriptError::ServerStartsWithDash => "server must not start with '-'"@,
        ScriptError::ServerHasControlCharacter => "server must not contain control characters"@,
        ScriptError::MissingUdpPort => "validated udp step has port"@,
        ScriptError::MissingTcpPort => "validated tcp step has port"@,
    }
}

impl ScriptError {
    /// The human-readable reason.
    pub fn message(&self) -> (r: &'static str)
        ensures
            r@ == script_error_text(*self),
    {
        match self {
            ScriptError::ServerStartsWithDash => "server must not start with '-'",
            ScriptError::ServerHasControlCharacter => "server must not contain control characters",
            ScriptError::MissingUdpPort => "validated udp step has port",
            ScriptError::MissingTcpPort => "validated tcp step has port",
        }
    }
}

/// Unicode control characters (general category Cc).
pub open spec fn control_char(c: char) -> bool {
    c <= '\u{1f}' || ('\u{7f}' <= c && c <= '\u{9f}')
}

/// Why a server argument is refused, if it is.
pub open spec fn server_error(s: Seq<char>) -> Option<ScriptError> {
    if s.len() > 0 && s[0] == '-' {
        Some(ScriptError::ServerStartsWithDash)
    } else if exists|i: int| 0 <= i < s.len() && control_char(#[trigger] s[i]) {
        Some(ScriptError::ServerHasControlCharacter)
    } else {
        None
    }
}

/// One character inside single quotes; a quote closes, escapes and reopens.
pub open spec fn quote_char(c: char) -> Seq<char> {
    if c == '\'' {
        seq!['\'', '\\', '\'', '\'']
    } else {
        seq![c]
    }
}

/// The characters of `s` as they stand inside single quotes.
pub open spec fn quote_body(s: Seq<char>) -> Seq<char>
    decreases s.len(),
{
    if s.len() == 0 {
        Seq::empty()
    } else {
        quote_body(s.drop_last()) + quote_char(s.last())
    }
}

/// `s` as one POSIX shell word.
pub open spec fn shell_quote(s: Seq<char>) -> Seq<char> {
    seq!['\''] + quote_body(s) + seq!['\'']
}

/// The shell line that sends one knock step to `server`.
pub open spec fn step_line(step: KnockStep, server: Seq<char>) -> Result<Seq<char>, ScriptError> {
    match step.protocol {
        Protocol::Udp => match step.port {
            None => Err(ScriptError::MissingUdpPort),
            Some(p) => Ok("printf '%0"@ + dec_text(step.size as nat) + "s' '' | tr ' ' K | nc -u -w1 "@
                + shell_quote(server) + seq![' '] + dec_text(p as nat)),
        },
        Protocol::Tcp => match step.port {
            None => Err(ScriptError::MissingTcpPort),
            Some(p) => Ok("printf '%0"@ + dec_text(step.size as nat) + "s' '' | tr ' ' K | nc -w1 "@
                + shell_quote(server) + seq![' '] + dec_text(p as nat)),
        },
        _ => Ok("ping -c 1 -s "@ + dec_text(step.size as nat) + seq![' '] + shell_quote(server)),
    }
}

/// The lines for the first `n` steps, or the first step that lacks a port.
pub open spec fn step_lines(steps: Seq<KnockStep>, server: Seq<char>, n: int) -> Result<
    Seq<Seq<char>>,
    ScriptError,
>
    decreases n,
{
    if n <= 0 {
        Ok(Seq::empty())
    } else {
        match step_lines(steps, server, n - 1) {
            Err(e) => Err(e),
            Ok(lines) => match step_line(steps[n - 1], server) {
                Err(e) => Err(e),
                Ok(line) => Ok(lines.push(line)),
            },
        }
    }
}

/// The closing line that connects with ssh.
pub open spec fn ssh_line(ssh_port: u16, server: Seq<char>) -> Seq<char> {
    "ssh -p "@ + dec_text(ssh_port as nat) + seq![' '] + shell_quote("user@"@ + server)
}

/// The whole script for a configuration and server, or why there is none.
pub open spec fn script_spec(c: Config, server: Seq<char>) -> Result<Seq<Seq<char>>, ScriptError> {
    match server_error(server) {
        Some(e) => Err(e),
        None => match step_lines(c.knock.sequence@, server, c.knock.sequence@.len() as int) {
            Err(e) => Err(e),
            Ok(lines) => Ok(lines.push(ssh_line(c.ssh_port, server))),
        },
    }
}

fn check_server(server: &str) -> (r: Option<ScriptError>)
    ensures
        r == server_error(server@),
{
    broadcast use vstd::string::axiom_spec_iter;

    let mut first = true;
    let mut control = false;
    let mut dash = false;
    for c in it: server.chars()
        invariant
            it.seq() == server@,
            first == (it.index() == 0),
            dash == (it.index() > 0 && server@[0] == '-'),
            control == exists|i: int| 0 <= i < it.index() && control_char(#[trigger] server@[i]),
    {
        if first && c == '-' {
            dash = true;
        }
        first = false;
        if c <= '\u{1f}' || ('\u{7f}' <= c && c <= '\u{9f}') {
            control = true;
        }
    }
    if dash {
        Some(ScriptError::ServerStartsWithDash)
    } else if control {
        Some(ScriptError::ServerHasControlCharacter)
    } else {
        None
    }
}

fn push_quoted_chars(out: &mut String, s: &str)
    ensures
        final(out)@ == old(out)@ + quote_body(s@),
{
    broadcast use vstd::string::axiom_spec_iter;

    for c in it: s.chars()
        invariant
            it.seq() == s@,
            out@ == old(out)@ + quote_body(s@.take(it.index() as int)),
    {
        let ghost before = out@;
        if c == '\'' {
            push_char(out, '\'');
            push_char(out, '\\');
            push_char(out, '\'');
            push_char(out, '\'');
        } else {
            push_char(out, c);
        }
        proof {
            let k = it.index() as int;
            assert(s@.take(k + 1).drop_last() =~= s@.take(k));
            assert(out@ =~= before + quote_char(c));
        }
    }
    assert(s@.take(s@.len() as int) =~= s@);
}

fn push_quoted(out: &mut String, prefix: &str, s: &str)
    ensures
        final(out)@ == old(out)@ + shell_quote(prefix@ + s@),
{
    push_char(out, '\'');
    push_quoted_chars(out, prefix);
    push_quoted_chars(out, s);
    push_char(out, '\'');
    proof {
        lemma_quote_body_concat(prefix@, s@);
    }
    assert(out@ =~= old(out)@ + shell_quote(prefix@ + s@));
}

proof fn lemma_quote_body_concat(a: Seq<char>, b: Seq<char>)
    ensures
        quote_body(a + b) == quote_body(a) + quote_body(b),
    decreases b.len(),
{
    if b.len() == 0 {
        assert(a + b =~= a);
        assert(quote_body(a) + quote_body(b) =~= quote_body(a));
    } else {
        lemma_quote_body_concat(a, b.drop_last());
        assert((a + b).drop_last() =~= a + b.drop_last());
        assert((a + b).last() == b.last());
        assert(quote_body(a + b) =~= quote_body(a) + quote_body(b));
    }
}

proof fn lemma_step_lines_error_persists(steps: Seq<KnockStep>, server: Seq<char>, k: int, n: int)
    requires
        0 <= k <= n,
        step_lines(steps, server, k) is Err,
    ensures
        step_lines(steps, server, n) == step_lines(steps, server, k),
    decreases n - k,
{
    if k < n {
        lemma_step_lines_error_persists(steps, server, k, n - 1);
    }
}

fn step_command(step: KnockStep, server: &str) -> (r: Result<String, ScriptError>)
    ensures
        match step_line(step, server@) {
            Ok(line) => r matches Ok(s) && s@ == line,
            Err(e) => r == Err::<String, ScriptError>(e),
        },
{
    let mut line = String::new();
    match step.protocol {
        Protocol::Udp => match step.port {
            None => return Err(ScriptError::MissingUdpPort),
            Some(p) => {
                line.append("printf '%0");
                push_decimal(&mut line, step.size as u64);
                line.append("s' '' | tr ' ' K | nc -u -w1 ");
                push_quoted(&mut line, "", server);
                push_char(&mut line, ' ');
                push_decimal(&mut line, p as u64);
            },
        },
        Protocol::Tcp => match step.port {
            None => return Err(ScriptError::MissingTcpPort),
            Some(p) => {
                line.append("printf '%0");
                push_decimal(&mut line, step.size as u64);
                line.append("s' '' | tr ' ' K | nc -w1 ");
                push_quoted(&mut line, "", server);
                push_char(&mut line, ' ');
                push_decimal(&mut line, p as u64);
            },
        },
        _ => {
            line.append("ping -c 1 -s ");
            push_decimal(&mut line, step.size as u64);
            push_char(&mut line, ' ');
            push_quoted(&mut line, "", server);
        },
    }
    proof {
        reveal_strlit("");
        assert(""@ + server@ =~= server@);
    }
    assert(line@ =~= step_line(step, server@)->Ok_0);
    Ok(line)
}

/// The shell lines that reproduce the configured knock sequence against
/// `server`, one per step, then the ssh command; the caller prints them.
pub fn print_script(config: &Config, server: &str) -> (r: Result<Vec<String>, ScriptError>)
    ensures
        match script_spec(*config, server@) {
            Ok(lines) => r matches Ok(v) && v@.map_values(|s: String| s@) == lines,
            Err(e) => r == Err::<Vec<String>, ScriptError>(e),
        },
{
    match check_server(server) {
        Some(e) => return Err(e),
        None => {},
    }
    let steps = &config.knock.sequence;
    let mut lines: Vec<String> = Vec::new();
    let mut i: usize = 0;
    while i < steps.len()
        invariant
            steps@ == config.knock.sequence@,
            server_error(server@) is None,
            i <= steps@.len(),
            step_lines(steps@, server@, i as int) matches Ok(ls) && lines@.map_values(|s: String| s@)
                == ls,
        decreases steps@.len() - i,
    {
        match step_command(steps[i], server) {
            Err(e) => {
                proof {
                    lemma_step_lines_error_persists(steps@, server@, i + 1, steps@.len() as int);
                }
                return Err(e);
            },
            Ok(line) => {
                let ghost before = lines@;
                lines.push(line);
                assert(lines@.map_values(|s: String| s@) =~= before.map_values(|s: String| s@).push(
                    line@,
                ));
            },
        }
        i = i + 1;
    }
    let mut last = String::from_str("ssh -p ");
    push_decimal(&mut last, config.ssh_port as u64);
    push_char(&mut last, ' ');
    push_quoted(&mut last, "user@", server);
    let ghost before = lines@;
    lines.push(last);
    assert(lines@.map_values(|s: String| s@) =~= before.map_values(|s: String| s@).push(last@));
    assert(last@ =~= ssh_line(config.ssh_port, server@));
    Ok(lines)
}

} // verus!

verus! {

/// `Some(c + w)` from `Some(w)`.
pub open spec fn prepend(c: char, r: Option<Seq<char>>) -> Option<Seq<char>> {
    match r {
        Some(w) => Some(seq![c] + w),
        None => None,
    }
}

/// How a POSIX shell reads `q` as a single word made only of single-quoted
/// runs and backslash-escaped characters (`in_quote`: inside a single-quoted
/// run). `None` when the word ends inside quotes or holds any other unquoted
/// character, such as a space, a `;` or a `$`.
pub open spec fn read_quoted_word(q: Seq<char>, in_quote: bool) -> Option<Seq<char>>
    decreases q.len(),
{
    if q.len() == 0 {
        if in_quote {
            None
        } else {
            Some(Seq::empty())
        }
    } else if in_quote {
        if q[0] == '\'' {
            read_quoted_word(q.drop_first(), false)
        } else {
            prepend(q[0], read_quoted_word(q.drop_first(), true))
        }
    } else if q[0] == '\'' {
        read_quoted_word(q.drop_first(), true)
    } else if q[0] == '\\' && q.len() >= 2 {
        prepend(q[1], read_quoted_word(q.subrange(2, q.len() as int), false))
    } else {
        None
    }
}

/// `Some(s + w)` from `Some(w)`.
pub open spec fn prepend_all(s: Seq<char>, r: Option<Seq<char>>) -> Option<Seq<char>> {
    match r {
        Some(w) => Some(s + w),
        None => None,
    }
}

proof fn lemma_read_quoted_body(s: Seq<char>, t: Seq<char>)
    ensures
        read_quoted_word(quote_body(s) + seq!['\''] + t, true) == prepend_all(s, read_quoted_word(t, false)),
    decreases s.len(),
{
    if s.len() == 0 {
        assert(quote_body(s) + seq!['\''] + t =~= seq!['\''] + t);
        assert((seq!['\''] + t).drop_first() =~= t);
        match read_quoted_word(t, false) {
            Some(w) => assert(s + w =~= w),
            None => {},
        }
    } else {
        let c = s[0];
        let rest = s.drop_first();
        assert(s =~= seq![c] + rest);
        lemma_quote_body_concat(seq![c], rest);
        assert(seq![c].drop_last() =~= Seq::<char>::empty());
        assert(quote_body(Seq::<char>::empty()) == Seq::<char>::empty());
        assert(quote_body(seq![c]) == quote_body(seq![c].drop_last()) + quote_char(seq![c].last()));
        assert(quote_body(seq![c]) =~= quote_char(c));
        lemma_read_quoted_body(rest, t);
        let x = quote_body(rest) + seq!['\''] + t;
        assert(quote_body(s) + seq!['\''] + t =~= quote_char(c) + x);
        let tail = read_quoted_word(t, false);
        if c == '\'' {
            let q = quote_char(c) + x;
            let q1 = seq!['\\', '\'', '\''] + x;
            let q2 = seq!['\''] + x;
            assert(q.drop_first() =~= q1);
            assert(q1.subrange(2, q1.len() as int) =~= q2);
            assert(q2.drop_first() =~= x);
            assert(read_quoted_word(q2, false) == read_quoted_word(x, true));
            assert(read_quoted_word(q1, false) == prepend('\'', read_quoted_word(q2, false)));
            assert(read_quoted_word(q, true) == read_quoted_word(q1, false));
        } else {
            let q = seq![c] + x;
            assert(q.drop_first() =~= x);
            assert(read_quoted_word(q, true) == prepend(c, read_quoted_word(x, true)));
        }
        match tail {
            Some(w) => {
                assert(seq![c] + (rest + w) =~= s + w);
            },
            None => {},
        }
    }
}

proof fn lemma_step_lines_ok(steps: Seq<KnockStep>, server: Seq<char>, n: int)
    requires
        0 <= n <= steps.len(),
        forall|k: int|
            0 <= k < steps.len() && (steps[k].protocol == Protocol::Udp || steps[k].protocol
                == Protocol::Tcp) ==> (#[trigger] steps[k]).port is Some,
    ensures
        step_lines(steps, server, n) matches Ok(lines) && lines.len() == n && forall|k: int|
            0 <= k < n ==> step_line(steps[k], server) == Ok::<Seq<char>, ScriptError>(
                #[trigger] lines[k],
            ),
    decreases n,
{
    if n > 0 {
        lemma_step_lines_ok(steps, server, n - 1);
        let prev = step_lines(steps, server, n - 1)->Ok_0;
        let s = steps[n - 1];
        assert(step_line(s, server) is Ok);
        let lines = prev.push(step_line(s, server)->Ok_0);
        assert forall|k: int| 0 <= k < n implies step_line(steps[k], server) == Ok::<
            Seq<char>,
            ScriptError,
        >(#[trigger] lines[k]) by {
            if k < n - 1 {
                assert(lines[k] == prev[k]);
            }
        }
    }
}

/// A server is refused only when it starts with `-` or holds a control
/// character (Unicode Cc); every other server gets the script. For a
/// sequence whose TCP and UDP steps all have ports, the script is one line
/// per step, in order (`nc -u` for UDP, `nc` for TCP, `ping` for ICMP, each
/// sending the step's payload size to the quoted server), then the `ssh`
/// line for the SSH port.
pub proof fn lemma_script_refusals(c: Config, server: Seq<char>)
    ensures
        (server.len() > 0 && server[0] == '-') ==> script_spec(c, server) == Err::<
            Seq<Seq<char>>,
            ScriptError,
        >(ScriptError::ServerStartsWithDash),
        !(server.len() > 0 && server[0] == '-') && (exists|i: int|
            0 <= i < server.len() && (#[trigger] server[i] <= '\u{1f}' || ('\u{7f}' <= server[i]
                && server[i] <= '\u{9f}'))) ==> script_spec(c, server) == Err::<
            Seq<Seq<char>>,
            ScriptError,
        >(ScriptError::ServerHasControlCharacter),
        ({
            let steps = c.knock.sequence@;
            (!(server.len() > 0 && server[0] == '-') && (forall|i: int|
                0 <= i < server.len() ==> !(#[trigger] server[i] <= '\u{1f}' || ('\u{7f}'
                    <= server[i] && server[i] <= '\u{9f}'))) && (forall|k: int|
                0 <= k < steps.len() && (steps[k].protocol == Protocol::Udp || steps[k].protocol
                    == Protocol::Tcp) ==> (#[trigger] steps[k]).port is Some)) ==> (script_spec(
                c,
                server,
            ) matches Ok(lines) && lines.len() == steps.len() + 1 && lines[steps.len() as int]
                == "ssh -p "@ + dec_text(c.ssh_port as nat) + seq![' '] + shell_quote(
                "user@"@ + server,
            ) && forall|k: int|
                0 <= k < steps.len() ==> #[trigger] lines[k] == match steps[k].protocol {
                    Protocol::Udp => "printf '%0"@ + dec_text(steps[k].size as nat)
                        + "s' '' | tr ' ' K | nc -u -w1 "@ + shell_quote(server) + seq![' ']
                        + dec_text(steps[k].port->0 as nat),
                    Protocol::Tcp => "printf '%0"@ + dec_text(steps[k].size as nat)
                        + "s' '' | tr ' ' K | nc -w1 "@ + shell_quote(server) + seq![' ']
                        + dec_text(steps[k].port->0 as nat),
                    _ => "ping -c 1 -s "@ + dec_text(steps[k].size as nat) + seq![' ']
                        + shell_quote(server),
                })
        }),
{
    let steps = c.knock.sequence@;
    if !(server.len() > 0 && server[0] == '-') && (forall|i: int|
        0 <= i < server.len() ==> !(#[trigger] server[i] <= '\u{1f}' || ('\u{7f}' <= server[i]
            && server[i] <= '\u{9f}'))) && (forall|k: int|
        0 <= k < steps.len() && (steps[k].protocol == Protocol::Udp || steps[k].protocol
            == Protocol::Tcp) ==> (#[trigger] steps[k]).port is Some) {
        assert(!exists|i: int| 0 <= i < server.len() && control_char(#[trigger] server[i]));
        lemma_step_lines_ok(steps, server, steps.len() as int);
        let prev = step_lines(steps, server, steps.len() as int)->Ok_0;
        let lines = prev.push(ssh_line(c.ssh_port, server));
        assert forall|k: int| 0 <= k < steps.len() implies #[trigger] lines[k] == match steps[k].protocol {
            Protocol::Udp => "printf '%0"@ + dec_text(steps[k].size as nat)
                + "s' '' | tr ' ' K | nc -u -w1 "@ + shell_quote(server) + seq![' ']
                + dec_text(steps[k].port->0 as nat),
            Protocol::Tcp => "printf '%0"@ + dec_text(steps[k].size as nat)
                + "s' '' | tr ' ' K | nc -w1 "@ + shell_quote(server) + seq![' ']
                + dec_text(steps[k].port->0 as nat),
            _ => "ping -c 1 -s "@ + dec_text(steps[k].size as nat) + seq![' ']
                + shell_quote(server),
        } by {
            assert(lines[k] == prev[k]);
            assert(step_line(steps[k], server) == Ok::<Seq<char>, ScriptError>(prev[k]));
        }
    }
    if !(server.len() > 0 && server[0] == '-') && (exists|i: int|
        0 <= i < server.len() && (#[trigger] server[i] <= '\u{1f}' || ('\u{7f}' <= server[i]
            && server[i] <= '\u{9f}'))) {
        let i = choose|i: int|
            0 <= i < server.len() && (#[trigger] server[i] <= '\u{1f}' || ('\u{7f}' <= server[i]
                && server[i] <= '\u{9f}'));
        assert(control_char(server[i]));
    }
}


/// The quoted server reads back, as one shell word, exactly as given: no
/// character of it can end the word or start another command.
pub proof fn lemma_shell_quote_round_trip(s: Seq<char>)
    ensures
        read_quoted_word(shell_quote(s), false) == Some(s),
{
    let q = shell_quote(s);
    assert(q.drop_first() =~= quote_body(s) + seq!['\''] + Seq::<char>::empty());
    lemma_read_quoted_body(s, Seq::<char>::empty());
    assert(s + Seq::<char>::empty() =~= s);
}

} // verus!
