//! A run: what its arguments ask for, which port it gets, when it ends, and with
//! what exit code.

use crate::cli::{target_url, usage, usage_text, Config, ParseOutcome, TargetUrl};
use crate::localapi::{port_taken, port_taken_message};
use crate::number::{decimal, decimal_string};
use crate::serve::{is_funnel_port, is_reserved};
use crate::tailscale::{port_used, route_owned, ServeConfig, TailnetNode};
use crate::text::{chars_of, contains_text, find_sub, texts};
use vstd::prelude::*;

verus! {

/// The cadence of listener discovery and client readiness checks, in
/// nanoseconds. It matters at startup only.
pub const POLL_INTERVAL: u64 = 150_000_000;

/// How often a foreground session is started.
pub const MAX_SERVE_ATTEMPTS: u64 = 4;

/// How long a child may take to end by itself, in nanoseconds.
pub const TERMINATE_GRACE: u64 = 5_000_000_000;

/// How long a killed child is waited for, in nanoseconds.
pub const KILL_GRACE: u64 = 1_000_000_000;

/// How long the client may take to end by itself, in nanoseconds.
pub const STOP_GRACE: u64 = 3_000_000_000;

// ---------------------------------------------------------------- the outcome

/// Why a run failed: its exit code, and what is said.
#[derive(Debug)]
pub struct Failure {
    pub code: i32,
    pub message: Option<String>,
}

impl Failure {
    /// A failure that is told.
    pub fn error(message: &str) -> (r: Failure)
        ensures
            r.code == 1,
            r.message matches Some(text) && text@ == message@,
    {
        Failure { code: 1, message: Some(message.to_owned()) }
    }

    /// A failure that its exit code tells.
    pub fn plain(code: i32) -> (r: Failure)
        ensures
            r == (Failure { code, message: None }),
    {
        Failure { code, message: None }
    }
}

/// What to do with the arguments.
#[derive(Debug)]
pub enum Dispatch {
    /// Print this and end.
    Print(String),
    /// Run the dashboard.
    Dashboard,
    Run(Config),
    /// Say this on the error output and end with this code.
    Refuse(String, i32),
}

/// Decides what the arguments lead to.
pub fn run(outcome: Result<ParseOutcome, String>) -> (r: Dispatch)
    ensures
        match outcome {
            Ok(ParseOutcome::Help) => r matches Dispatch::Print(text) && text@ == usage(),
            Ok(ParseOutcome::Version(version)) => r matches Dispatch::Print(text) && text@
                == version@ + "\n"@,
            Ok(ParseOutcome::Config(config)) => r == Dispatch::Run(config),
            Ok(ParseOutcome::Dashboard) => r == Dispatch::Dashboard,
            Err(error) => r matches Dispatch::Refuse(text, code) && text@ == "poros: "@ + error@
                + "\n"@ && code == 2,
        },
{
    match outcome {
        Ok(ParseOutcome::Help) => Dispatch::Print(usage_text()),
        Ok(ParseOutcome::Version(version)) => {
            let mut text: String = version;
            text.append("\n");
            Dispatch::Print(text)
        },
        Ok(ParseOutcome::Config(config)) => Dispatch::Run(config),
        Ok(ParseOutcome::Dashboard) => Dispatch::Dashboard,
        Err(error) => {
            let mut text: String = "poros: ".to_owned();
            text.append(error.as_str());
            text.append("\n");
            Dispatch::Refuse(text, 2)
        },
    }
}

/// The exit code of a run, and what is said on the error output: nothing where a
/// signal ended it.
pub fn run_config(outcome: Result<(), Failure>, last_signal: i32) -> (r: (i32, Option<String>))
    ensures
        match outcome {
            Ok(()) => r == (0i32, None::<String>),
            Err(failure) => {
                &&& r.0 == if failure.code == 0 {
                    1
                } else {
                    failure.code
                }
                &&& match failure.message {
                    Some(message) => if last_signal == 0 {
                        r.1 matches Some(text) && text@ == "poros: "@ + message@ + "\n"@
                    } else {
                        r.1 is None
                    },
                    None => r.1 is None,
                }
            },
        },
{
    match outcome {
        Ok(()) => (0, None),
        Err(failure) => {
            let code: i32 = if failure.code == 0 {
                1
            } else {
                failure.code
            };
            match failure.message {
                Some(message) => {
                    if last_signal == 0 {
                        let mut text: String = "poros: ".to_owned();
                        text.append(message.as_str());
                        text.append("\n");
                        (code, Some(text))
                    } else {
                        (code, None)
                    }
                },
                None => (code, None),
            }
        },
    }
}

// --------------------------------------------------------------- preparation

/// What a run starts from.
#[derive(Debug)]
pub struct RunPlan {
    pub https_port: u16,
    /// The public authority: the node's name and the port.
    pub authority: String,
    /// Whether a command is to be started.
    pub spawn: bool,
}

/// The port of a run: the one that was asked for, and otherwise an unused one.
pub open spec fn chosen_port(port: u16, unused: u16) -> u16 {
    if port == 0 {
        unused
    } else {
        port
    }
}

/// The authority of a route.
pub open spec fn authority_of(name: Seq<char>, port: nat) -> Seq<char> {
    name + ":"@ + decimal(port)
}

/// Why a run cannot start: its port is reserved for Funnel, its port is already
/// served, or discovery lacks a tool.
pub open spec fn obstacle(
    config: Config,
    initial: ServeConfig,
    unused: u16,
    missing: Option<Seq<char>>,
) -> Option<Seq<char>> {
    let port = chosen_port(config.port, unused);
    if is_reserved(port) {
        Some("choose a dedicated HTTPS port, excluding Funnel ports 443, 8443, and 10000"@)
    } else if port_used(initial, port as nat) {
        Some(port_taken(port as nat))
    } else if config.target is None && config.command@.len() > 0 && missing is Some {
        Some("automatic discovery requires "@ + missing.unwrap())
    } else {
        None
    }
}

/// Prepares a run: the node is known, `initial` is what is served so far,
/// `unused` is a free port where none was asked for, and `missing` a tool that
/// discovery lacks.
pub fn prepare(
    config: &Config,
    node: &TailnetNode,
    initial: &ServeConfig,
    unused: u16,
    missing: Option<String>,
) -> (r: Result<RunPlan, Failure>)
    ensures
        match (
            r,
            obstacle(
                *config,
                *initial,
                unused,
                match missing {
                    Some(tool) => Some(tool@),
                    None => None,
                },
            ),
        ) {
            (Ok(plan), None) => {
                &&& plan.https_port == chosen_port(config.port, unused)
                &&& plan.authority@ == authority_of(node.dns_name@, plan.https_port as nat)
                &&& plan.spawn == (config.command@.len() > 0)
            },
            (Err(failure), Some(message)) => failure.code == 1 && (failure.message matches Some(
                text,
            ) && text@ == message),
            _ => false,
        },
{
    let port: u16 = if config.port == 0 {
        unused
    } else {
        config.port
    };
    if is_funnel_port(port) {
        return Err(
            Failure::error(
                "choose a dedicated HTTPS port, excluding Funnel ports 443, 8443, and 10000",
            ),
        );
    }
    if initial.uses_port(port) {
        let message: String = port_taken_message(port);
        return Err(Failure::error(message.as_str()));
    }
    if config.target.is_none() && config.command.len() > 0 {
        match missing {
            Some(tool) => {
                let mut message: String = "automatic discovery requires ".to_owned();
                message.append(tool.as_str());
                return Err(Failure::error(message.as_str()));
            },
            None => {},
        }
    }
    let mut authority: String = node.dns_name.clone();
    authority.append(":");
    let number: String = decimal_string(port as u64);
    authority.append(number.as_str());
    Ok(RunPlan { https_port: port, authority, spawn: config.command.len() > 0 })
}

/// The URL of the bridge on this machine.
pub fn bridge_url(port: u16) -> (r: String)
    ensures
        r@ == "http://127.0.0.1:"@ + decimal(port as nat),
{
    let mut text: String = "http://127.0.0.1:".to_owned();
    let number: String = decimal_string(port as u64);
    text.append(number.as_str());
    text
}

/// What is announced once the route is up.
pub fn announce(authority: &str, target: &TargetUrl) -> (r: String)
    ensures
        r@ == "Poros URL: https://"@ + authority@ + "/\nLocal target: "@ + target_url(target@)
            + "\n"@,
{
    let mut text: String = "Poros URL: https://".to_owned();
    text.append(authority);
    text.append("/\nLocal target: ");
    let url: String = target.url();
    text.append(url.as_str());
    text.append("\n");
    text
}

// --------------------------------------------------------------- supervision

/// Why supervision ended; cleanup depends on it.
#[derive(Debug)]
pub enum Exit {
    Signal(i32),
    ChildExited(i32),
    Failed(Failure),
}

/// What happens to the child when supervision has ended.
#[derive(Clone, Copy, Debug, PartialEq, Eq, Structural)]
pub enum Cleanup {
    /// Pass the signal on and wait for the child's group.
    Forward(i32),
    /// The child is gone; end what is left of its group.
    Sweep,
    /// Ask the child's group to end.
    Terminate,
}

/// A failure that is told.
pub open spec fn failed_with(exit: Exit, message: Seq<char>) -> bool {
    exit matches Exit::Failed(failure) && failure.code == 1 && (failure.message matches Some(text)
        && text@ == message)
}

fn failed(message: &str) -> (r: Exit)
    ensures
        failed_with(r, message@),
{
    Exit::Failed(Failure::error(message))
}

/// What cleanup an end asks for, and how the run failed. A signal shows as 128
/// and its number, as shells have it.
pub fn conclude(exit: Exit) -> (r: (Cleanup, Failure))
    requires
        exit matches Exit::Signal(number) ==> number <= 0x7fff_ff7f,
    ensures
        match exit {
            Exit::Signal(number) => r == (
                Cleanup::Forward(number),
                Failure { code: (128 + number) as i32, message: None },
            ),
            Exit::ChildExited(code) => r == (Cleanup::Sweep, Failure { code, message: None }),
            Exit::Failed(failure) => r == (Cleanup::Terminate, failure),
        },
{
    match exit {
        Exit::Signal(number) => (Cleanup::Forward(number), Failure::plain(128 + number)),
        Exit::ChildExited(code) => (Cleanup::Sweep, Failure::plain(code)),
        Exit::Failed(failure) => (Cleanup::Terminate, failure),
    }
}

/// What a look at the child gave.
#[derive(Clone, Copy, Debug, PartialEq, Eq, Structural)]
pub enum ChildStatus {
    Running,
    /// It ended, with a code unless a signal ended it.
    Exited(Option<i32>),
    /// It could not be looked at.
    Unknown,
}

/// The exit code of a child that is gone.
pub fn child_exit_code(child: Option<ChildStatus>) -> (r: Option<i32>)
    ensures
        r == match child {
            None => None::<i32>,
            Some(ChildStatus::Running) => None::<i32>,
            Some(ChildStatus::Exited(Some(code))) => Some(code),
            Some(ChildStatus::Exited(None)) => Some(1i32),
            Some(ChildStatus::Unknown) => Some(1i32),
        },
{
    match child {
        None => None,
        Some(ChildStatus::Running) => None,
        Some(ChildStatus::Exited(Some(code))) => Some(code),
        Some(ChildStatus::Exited(None)) => Some(1),
        Some(ChildStatus::Unknown) => Some(1),
    }
}

/// What ends a run whatever it is doing: a signal, and otherwise the child's
/// exit.
pub fn interrupted(signal: Option<i32>, exited: Option<i32>) -> (r: Option<Exit>)
    ensures
        r == match (signal, exited) {
            (Some(number), _) => Some(Exit::Signal(number)),
            (None, Some(code)) => Some(Exit::ChildExited(code)),
            (None, None) => None,
        },
{
    match signal {
        Some(number) => Some(Exit::Signal(number)),
        None => match exited {
            Some(code) => Some(Exit::ChildExited(code)),
            None => None,
        },
    }
}

/// What one look for the child's listener leads to.
#[derive(Debug)]
pub enum Discovery {
    Found(TargetUrl),
    Ended(Exit),
    /// Look again after this many nanoseconds, or a signal.
    Wait(u64),
}

/// One round of discovery: without a child there is nothing to look for, a found
/// target ends it, and so do an error and the deadline.
pub fn discover(
    has_child: bool,
    found: Result<Option<TargetUrl>, String>,
    now: u64,
    deadline: u64,
) -> (r: Discovery)
    ensures
        if !has_child {
            r matches Discovery::Ended(exit) && failed_with(exit, "provide a command or --target"@)
        } else {
            match found {
                Ok(Some(target)) => r == Discovery::Found(target),
                Err(error) => r matches Discovery::Ended(exit) && failed_with(exit, error@),
                Ok(None) => if now >= deadline {
                    r matches Discovery::Ended(exit) && failed_with(
                        exit,
                        "no unique loopback HTTP listener found before timeout; bind to localhost or select --target"@,
                    )
                } else {
                    r == Discovery::Wait(POLL_INTERVAL)
                },
            }
        },
{
    if !has_child {
        return Discovery::Ended(failed("provide a command or --target"));
    }
    match found {
        Ok(Some(target)) => Discovery::Found(target),
        Err(error) => Discovery::Ended(failed(error.as_str())),
        Ok(None) => {
            if now >= deadline {
                Discovery::Ended(
                    failed(
                        "no unique loopback HTTP listener found before timeout; bind to localhost or select --target",
                    ),
                )
            } else {
                Discovery::Wait(POLL_INTERVAL)
            }
        },
    }
}

/// What one round of supervision leads to.
#[derive(Debug)]
pub enum Supervision {
    Ended(Exit),
    /// Sleep until something happens.
    Sleep,
    /// Look at the client that serves the route.
    LookAtClient,
}

/// One round of supervision. Every wakeup is real work: a signal or the child's
/// exit ends the run, and so does the end of tailscaled's session, which shows
/// once it is readable; a route that a client serves is looked at.
/// `session` says of a LocalAPI session whether it became readable and, if so,
/// whether it is still open.
pub fn supervise(signal: Option<i32>, exited: Option<i32>, session: Option<(bool, bool)>) -> (r:
    Supervision)
    ensures
        match (signal, exited, session) {
            (Some(number), _, _) => r == Supervision::Ended(Exit::Signal(number)),
            (None, Some(code), _) => r == Supervision::Ended(Exit::ChildExited(code)),
            (None, None, Some((readable, open))) => if readable && !open {
                r matches Supervision::Ended(exit) && failed_with(
                    exit,
                    "Tailscale ended the Serve session: tailscaled restarted or its Serve config was replaced"@,
                )
            } else {
                r is Sleep
            },
            (None, None, None) => r is LookAtClient,
        },
{
    match interrupted(signal, exited) {
        Some(exit) => Supervision::Ended(exit),
        None => match session {
            Some((readable, open)) => {
                if readable && !open {
                    Supervision::Ended(
                        failed(
                            "Tailscale ended the Serve session: tailscaled restarted or its Serve config was replaced",
                        ),
                    )
                } else {
                    Supervision::Sleep
                }
            },
            None => Supervision::LookAtClient,
        },
    }
}

// ------------------------------------------------------------ the CLI's route

/// The lifecycle of the client that serves the route where there is no socket:
/// start, retry on config races, poll Serve status until the route appears.
/// Times are nanoseconds on one clock.
#[derive(Clone, Copy, Debug, PartialEq, Eq, Structural)]
pub struct CliRoute {
    /// Whether the client is running.
    pub running: bool,
    pub attempts: u64,
    pub retry_at: Option<u64>,
}

/// What a look at the client leads to.
#[derive(Debug)]
pub enum CliStep {
    /// Sleep until something happens, for at most this long.
    Sleep(Option<u64>),
    /// End the run; show the client's output first, where it is given.
    Ended(Exit, Option<String>),
    /// Ask for the Serve status.
    CheckStatus,
}

/// A retry waits longer each time, in nanoseconds.
pub open spec fn retry_delay(attempts: u64) -> int {
    100_000_000 * attempts
}

/// Whether a client that ended before the route was up is started again: another
/// client changed the configuration meanwhile, and not too often.
pub open spec fn may_retry(route: CliRoute, ready: bool, output: Seq<char>) -> bool {
    !ready && route.attempts < MAX_SERVE_ATTEMPTS && find_sub(output, "etag mismatch"@) is Some
}

/// The time after a delay, or the last time that there is.
pub open spec fn later(now: u64, delay: int) -> u64 {
    if now + delay > u64::MAX {
        u64::MAX
    } else {
        (now + delay) as u64
    }
}

impl CliRoute {
    /// The client has been started at least once and at most as often as allowed,
    /// and a start is scheduled only where one more is allowed.
    pub open spec fn well_formed(self) -> bool {
        &&& 1 <= self.attempts <= MAX_SERVE_ATTEMPTS
        &&& self.retry_at is Some ==> self.attempts < MAX_SERVE_ATTEMPTS
    }

    /// The client has been started once.
    pub fn new() -> (r: CliRoute)
        ensures
            r.well_formed(),
            r == (CliRoute { running: true, attempts: 1, retry_at: None }),
    {
        CliRoute { running: true, attempts: 1, retry_at: None }
    }

    /// Whether the client is to be started again now.
    pub fn restart_due(&self, now: u64) -> (r: bool)
        ensures
            r == (self.retry_at matches Some(when) && now >= when),
    {
        match self.retry_at {
            Some(when) => now >= when,
            None => false,
        }
    }

    /// Takes in what became of the start that was due.
    pub fn restarted(&mut self, failure: Option<String>) -> (r: Option<Exit>)
        requires
            old(self).well_formed(),
            old(self).retry_at is Some,
        ensures
            final(self).well_formed(),
            match failure {
                Some(error) => *final(self) == (CliRoute { retry_at: None, ..*old(self) }) && (
                r matches Some(exit) && failed_with(exit, error@)),
                None => r is None && *final(self) == (CliRoute {
                    running: true,
                    attempts: (old(self).attempts + 1) as u64,
                    retry_at: None,
                }),
            },
    {
        self.retry_at = None;
        match failure {
            Some(error) => Some(failed(error.as_str())),
            None => {
                self.running = true;
                self.attempts = self.attempts + 1;
                None
            },
        }
    }

    /// One look at the client: `output` is what it wrote where it has ended,
    /// `ready` says whether the route is up.
    pub fn step(&mut self, output: Option<String>, ready: bool, now: u64, deadline: u64) -> (r:
        CliStep)
        requires
            old(self).well_formed(),
        ensures
            final(self).well_formed(),
            match output {
                Some(text) => if may_retry(*old(self), ready, text@) {
                    r == CliStep::Sleep(Some(retry_delay(old(self).attempts) as u64))
                        && *final(self) == (CliRoute {
                        running: false,
                        retry_at: Some(later(now, retry_delay(old(self).attempts))),
                        ..*old(self)
                    })
                } else {
                    &&& *final(self) == (CliRoute { running: false, ..*old(self) })
                    &&& if ready {
                        r == CliStep::Ended(
                            Exit::Failed(Failure { code: 1, message: None }),
                            None,
                        )
                    } else {
                        r matches CliStep::Ended(exit, shown) && shown == Some(text)
                            && failed_with(
                            exit,
                            "Tailscale Serve stopped; check HTTPS setup, permissions, and port conflicts"@,
                        )
                    }
                },
                None => {
                    &&& *final(self) == *old(self)
                    &&& match old(self).retry_at {
                        Some(when) => r == CliStep::Sleep(
                            Some(
                                if when > now {
                                    (when - now) as u64
                                } else {
                                    0
                                },
                            ),
                        ),
                        None => if ready {
                            r == CliStep::Sleep(None)
                        } else if now >= deadline {
                            r matches CliStep::Ended(exit, shown) && shown is None && failed_with(
                                exit,
                                "Tailscale Serve startup timed out; check HTTPS setup and permissions"@,
                            )
                        } else {
                            r is CheckStatus
                        },
                    }
                },
            },
    {
        match output {
            Some(text) => {
                self.running = false;
                let chars: Vec<char> = chars_of(text.as_str());
                let mark: Vec<char> = chars_of("etag mismatch");
                if !ready && self.attempts < MAX_SERVE_ATTEMPTS && contains_text(
                    chars.as_slice(),
                    mark.as_slice(),
                ) {
                    let delay: u64 = 100_000_000 * self.attempts;
                    let when: u64 = if now > u64::MAX - delay {
                        u64::MAX
                    } else {
                        now + delay
                    };
                    self.retry_at = Some(when);
                    return CliStep::Sleep(Some(delay));
                }
                if ready {
                    return CliStep::Ended(Exit::Failed(Failure::plain(1)), None);
                }
                CliStep::Ended(
                    failed(
                        "Tailscale Serve stopped; check HTTPS setup, permissions, and port conflicts",
                    ),
                    Some(text),
                )
            },
            None => match self.retry_at {
                Some(when) => {
                    if when > now {
                        CliStep::Sleep(Some(when - now))
                    } else {
                        CliStep::Sleep(Some(0))
                    }
                },
                None => {
                    if ready {
                        CliStep::Sleep(None)
                    } else if now >= deadline {
                        CliStep::Ended(
                            failed(
                                "Tailscale Serve startup timed out; check HTTPS setup and permissions",
                            ),
                            None,
                        )
                    } else {
                        CliStep::CheckStatus
                    }
                },
            },
        }
    }
}

/// What the Serve status leads to while the route is awaited.
#[derive(Debug)]
pub enum StatusStep {
    /// The route is up: announce it.
    Up,
    Ended(Exit),
    /// Ask again after this many nanoseconds.
    Wait(u64),
}

/// Judges the Serve status while the route is awaited.
pub fn judge_status(status: Result<ServeConfig, String>, authority: &str, bridge: &str) -> (r:
    StatusStep)
    ensures
        match status {
            Err(error) => r matches StatusStep::Ended(exit) && failed_with(exit, error@),
            Ok(config) => if route_owned(config, authority@, bridge@) {
                r is Up
            } else {
                r == StatusStep::Wait(POLL_INTERVAL)
            },
        },
{
    match status {
        Err(error) => StatusStep::Ended(failed(error.as_str())),
        Ok(config) => {
            if config.owns_route(authority, bridge) {
                StatusStep::Up
            } else {
                StatusStep::Wait(POLL_INTERVAL)
            }
        },
    }
}

// ------------------------------------------------------------- ending children

/// The program of a command, and its arguments.
pub fn spawn_parts(command: &Vec<String>) -> (r: Result<(String, Vec<String>), String>)
    ensures
        match r {
            Ok((program, arguments)) => command@.len() > 0 && program@ == command@[0]@ && texts(
                arguments@,
            ) == texts(command@).skip(1),
            Err(error) => command@.len() == 0 && error@ == "empty command"@,
        },
{
    if command.len() == 0 {
        return Err("empty command".to_owned());
    }
    let program: String = command[0].clone();
    let mut arguments: Vec<String> = Vec::new();
    let mut i: usize = 1;
    while i < command.len()
        invariant
            1 <= i <= command@.len(),
            texts(arguments@) == texts(command@).subrange(1, i as int),
        decreases command@.len() - i,
    {
        let ghost before = arguments@;
        arguments.push(command[i].clone());
        i = i + 1;
        assert(texts(arguments@) =~= texts(before).push(command@[i - 1]@));
        assert(texts(command@).subrange(1, i as int) =~= texts(command@).subrange(1, i - 1).push(
            command@[i - 1]@,
        ));
    }
    assert(texts(command@).subrange(1, i as int) =~= texts(command@).skip(1));
    Ok((program, arguments))
}

/// The process group of a child, which it leads.
pub fn child_group(pid: u32) -> (r: Result<i32, String>)
    ensures
        match r {
            Ok(group) => group == pid,
            Err(error) => pid > 0x7fff_ffff && error@ == "child pid out of range"@,
        },
{
    if pid <= 0x7fff_ffff {
        Ok(pid as i32)
    } else {
        Err("child pid out of range".to_owned())
    }
}

/// How far the ending of a process group has come.
#[derive(Clone, Copy, Debug, PartialEq, Eq, Structural)]
pub enum Ending {
    /// It was asked to end.
    Asked,
    /// It was killed.
    Killed,
}

/// What to do next about a process, or a group of them, that is to end.
#[derive(Clone, Copy, Debug, PartialEq, Eq, Structural)]
pub enum EndStep {
    Wait,
    Kill,
    Done,
}

/// What to do next about a process group: it gets a grace period after it was
/// asked, is killed then, and is not waited for much longer.
pub open spec fn end_step(stage: Ending, alive: bool, waited: u64) -> EndStep {
    if !alive {
        EndStep::Done
    } else {
        match stage {
            Ending::Asked => if waited >= TERMINATE_GRACE {
                EndStep::Kill
            } else {
                EndStep::Wait
            },
            Ending::Killed => if waited >= KILL_GRACE {
                EndStep::Done
            } else {
                EndStep::Wait
            },
        }
    }
}

/// What to do next about a process group that is to end; `waited` counts from
/// the last signal.
pub fn wait_group_exit(stage: Ending, alive: bool, waited: u64) -> (r: EndStep)
    ensures
        r == end_step(stage, alive, waited),
{
    if !alive {
        EndStep::Done
    } else {
        match stage {
            Ending::Asked => {
                if waited >= TERMINATE_GRACE {
                    EndStep::Kill
                } else {
                    EndStep::Wait
                }
            },
            Ending::Killed => {
                if waited >= KILL_GRACE {
                    EndStep::Done
                } else {
                    EndStep::Wait
                }
            },
        }
    }
}

/// Whether what is left of a child's group must be ended.
pub fn must_sweep(process_group_id: u32, alive: bool) -> (r: bool)
    ensures
        r == (process_group_id != 0 && alive),
{
    process_group_id != 0 && alive
}

/// What to do next about a tool that was started: it is killed where it runs for
/// as long as it may, in nanoseconds, and has not ended.
pub fn await_tool(running: bool, waited: u64, limit: u64) -> (r: EndStep)
    ensures
        r == if !running {
            EndStep::Done
        } else if waited >= limit {
            EndStep::Kill
        } else {
            EndStep::Wait
        },
{
    if !running {
        EndStep::Done
    } else if waited >= limit {
        EndStep::Kill
    } else {
        EndStep::Wait
    }
}

/// What to do next about the client after it was interrupted: it removes its own
/// session, and the kill is only the fallback.
pub fn stop_client(running: bool, waited: u64) -> (r: EndStep)
    ensures
        r == if !running {
            EndStep::Done
        } else if waited >= STOP_GRACE {
            EndStep::Kill
        } else {
            EndStep::Wait
        },
{
    await_tool(running, waited, STOP_GRACE)
}

/// The name of the client's output file; it is unlinked as soon as it is open.
pub fn temp_file_name(pid: u32, stamp: u32, attempt: u32) -> (r: String)
    ensures
        r@ == "poros-serve-"@ + decimal(pid as nat) + "-"@ + decimal(stamp as nat) + "-"@ + decimal(
            attempt as nat,
        ),
{
    let mut name: String = "poros-serve-".to_owned();
    let number: String = decimal_string(pid as u64);
    name.append(number.as_str());
    name.append("-");
    let time: String = decimal_string(stamp as u64);
    name.append(time.as_str());
    name.append("-");
    let count: String = decimal_string(attempt as u64);
    name.append(count.as_str());
    name
}

/// The client's output is shown only where the route never became ready: normal
/// route announcements stay hidden.
pub fn shown_output(output: String, ready: bool) -> (r: Option<String>)
    ensures
        r == if ready {
            None
        } else {
            Some(output)
        },
{
    if ready {
        None
    } else {
        Some(output)
    }
}

// --------------------------------------------------------------------- laws

/// A run never starts on a Funnel port or on one that is already served.
pub proof fn started_runs_own_their_port(
    config: Config,
    initial: ServeConfig,
    unused: u16,
    missing: Option<Seq<char>>,
)
    requires
        obstacle(config, initial, unused, missing) is None,
    ensures
        !is_reserved(chosen_port(config.port, unused)),
        !port_used(initial, chosen_port(config.port, unused) as nat),
        config.port != 0 ==> chosen_port(config.port, unused) == config.port,
{
}

/// A retry is scheduled only while the route is not up and one more start is
/// allowed; it waits longer each time, and never longer than a third of a second.
pub proof fn retries_are_bounded(route: CliRoute, ready: bool, output: Seq<char>)
    requires
        route.well_formed(),
        may_retry(route, ready, output),
    ensures
        route.attempts + 1 <= MAX_SERVE_ATTEMPTS,
        !ready,
        0 < retry_delay(route.attempts) <= 300_000_000,
        retry_delay(route.attempts) < retry_delay((route.attempts + 1) as u64),
{
}

/// A group that is asked to end is asked before it is killed, and is not killed
/// within its grace period; nothing is done to a group that is gone.
pub proof fn groups_are_asked_first(stage: Ending, alive: bool, waited: u64)
    ensures
        end_step(stage, alive, waited) is Kill ==> stage is Asked && alive && waited
            >= TERMINATE_GRACE,
        !alive ==> end_step(stage, alive, waited) is Done,
{
}

} // verus!
