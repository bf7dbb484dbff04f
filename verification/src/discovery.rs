//! Finding the development server: which processes belong to the command, where
//! they listen, and which one of those answers.

use crate::bytes::bytes_of;
use crate::cli::{Target, TargetUrl};
use crate::duration::{debug_text, quoted};
use crate::ip::IpAddr;
use crate::number::{parse_decimal, word_number};
use crate::order::{sort_strings, sort_texts};
use crate::text::{
    chars_of, find, find_char, join, join_strings, lemma_find_from, lemma_rfind_to, rfind,
    rfind_char, string_of, texts,
};
use vstd::prelude::*;
use vstd::slice::slice_subrange;
use vstd::utf8::encode_utf8;

pub mod fallback_scan;
pub mod proc_scan;

verus! {

/// A listening TCP socket and the process that holds it.
#[derive(Clone, Copy, Debug, PartialEq, Eq, Structural)]
pub struct Listener {
    pub pid: u32,
    pub ip: IpAddr,
    pub port: u16,
}

/// A process: its parent, its group, its name and its command line.
#[derive(Clone, Debug, PartialEq, Eq)]
pub struct ProcessInfo {
    pub pid: u32,
    pub ppid: u32,
    pub pgid: u32,
    pub name: String,
    pub command: String,
}

/// What a `ProcessInfo` holds.
pub struct Process {
    pub pid: u32,
    pub ppid: u32,
    pub pgid: u32,
    pub name: Seq<char>,
    pub command: Seq<char>,
}

impl View for ProcessInfo {
    type V = Process;

    open spec fn view(&self) -> Process {
        Process {
            pid: self.pid,
            ppid: self.ppid,
            pgid: self.pgid,
            name: self.name@,
            command: self.command@,
        }
    }
}

/// What a list of processes holds.
pub open spec fn processes_of(list: Seq<ProcessInfo>) -> Seq<Process> {
    list.map_values(|process: ProcessInfo| process@)
}

// ---------------------------------------------------------------- addresses

/// The host and port of a listener's address, brackets taken off.
pub open spec fn listener_parts(address: Seq<char>) -> Result<(Seq<char>, nat), Seq<char>> {
    let invalid = "invalid listener address "@ + debug_text(address);
    let parts = if address.len() > 0 && address[0] == '[' {
        let inner = address.skip(1);
        match find(inner, ']') {
            None => None,
            Some(close) => {
                let after = inner.skip(close + 1);
                if after.len() > 0 && after[0] == ':' {
                    Some((inner.take(close), after.skip(1)))
                } else {
                    None
                }
            },
        }
    } else {
        match rfind(address, ':') {
            None => None,
            Some(colon) => Some((address.take(colon), address.skip(colon + 1))),
        }
    };
    match parts {
        None => Err(invalid),
        Some((host, port)) => match parse_decimal(port, 0xffff_ffff) {
            Some(number) => Ok((host, number)),
            None => Err("invalid listener port "@ + debug_text(address)),
        },
    }
}

fn message_about(message: &str, address: &str) -> (r: String)
    ensures
        r@ == message@ + debug_text(address@),
{
    let mut text: String = message.to_owned();
    let shown: String = quoted(address);
    text.append(shown.as_str());
    text
}

/// Splits a listener's address.
pub fn split_host_port(address: &str) -> (r: Result<(String, u32), String>)
    ensures
        match (r, listener_parts(address@)) {
            (Ok((host, port)), Ok((h, p))) => host@ == h && port == p,
            (Err(error), Err(message)) => error@ == message,
            _ => false,
        },
{
    let chars: Vec<char> = chars_of(address);
    let n: usize = chars.len();
    let host: &[char];
    let port: &[char];
    if n > 0 && chars[0] == '[' {
        let inner: &[char] = slice_subrange(chars.as_slice(), 1, n);
        assert(inner@ =~= address@.skip(1));
        proof {
            lemma_find_from(inner@, ']', 0);
        }
        match find_char(inner, ']') {
            None => return Err(message_about("invalid listener address ", address)),
            Some(close) => {
                let after: &[char] = slice_subrange(inner, close + 1, n - 1);
                assert(after@ =~= inner@.skip(close + 1));
                let m: usize = after.len();
                if m == 0 || after[0] != ':' {
                    return Err(message_about("invalid listener address ", address));
                }
                host = slice_subrange(inner, 0, close);
                port = slice_subrange(after, 1, m);
                assert(host@ =~= inner@.take(close as int));
                assert(port@ =~= after@.skip(1));
            },
        }
    } else {
        proof {
            lemma_rfind_to(chars@, ':', chars@.len() as int);
        }
        match rfind_char(chars.as_slice(), ':') {
            None => return Err(message_about("invalid listener address ", address)),
            Some(colon) => {
                host = slice_subrange(chars.as_slice(), 0, colon);
                port = slice_subrange(chars.as_slice(), colon + 1, n);
                assert(host@ =~= address@.take(colon as int));
                assert(port@ =~= address@.skip(colon + 1));
            },
        }
    }
    match word_number(port) {
        Some(number) => Ok((string_of(host), number)),
        None => Err(message_about("invalid listener port ", address)),
    }
}

/// A list of texts in brackets, each in quotes.
pub open spec fn debug_list(list: Seq<Seq<char>>) -> Seq<char> {
    "["@ + join(list.map_values(|text: Seq<char>| debug_text(text)), ", "@) + "]"@
}

fn quoted_list(list: &Vec<String>) -> (r: String)
    ensures
        r@ == debug_list(texts(list@)),
{
    let mut shown: Vec<String> = Vec::new();
    let ghost all = texts(list@).map_values(|text: Seq<char>| debug_text(text));
    let mut i: usize = 0;
    while i < list.len()
        invariant
            i <= list@.len(),
            all == texts(list@).map_values(|text: Seq<char>| debug_text(text)),
            texts(shown@) == all.take(i as int),
        decreases list@.len() - i,
    {
        let ghost before = shown@;
        let text: String = quoted(list[i].as_str());
        let ghost item = text@;
        shown.push(text);
        i = i + 1;
        assert(texts(shown@) =~= texts(before).push(item));
        assert(all.take(i as int) =~= all.take(i - 1).push(item));
    }
    assert(all.take(i as int) =~= all);
    let mut text: String = "[".to_owned();
    let body: String = join_strings(&shown, ", ");
    text.append(body.as_str());
    text.append("]");
    text
}

/// The target among the addresses that answered: none yet, the only one, or an
/// error where there are several.
pub open spec fn target_among(responding: Seq<Seq<char>>) -> Result<Option<Target>, Seq<char>> {
    let candidates = sort_texts(responding);
    if candidates.len() == 0 {
        Ok(None)
    } else if candidates.len() == 1 {
        match listener_parts(candidates[0]) {
            Ok((host, port)) => Ok(Some(Target { host, port: port % 0x1_0000 })),
            Err(message) => Err(message),
        }
    } else {
        Err(
            "multiple child HTTP listeners found: "@ + debug_list(candidates)
                + "; select one with --target"@,
        )
    }
}

/// Chooses the target among the addresses that answered an HTTP request: the
/// child's owned process set must have exactly one live loopback HTTP listener.
/// Returns Ok(None) while nothing is listening yet.
pub fn discover_target(responding: Vec<String>) -> (r: Result<Option<TargetUrl>, String>)
    ensures
        match (r, target_among(texts(responding@))) {
            (Ok(None), Ok(None)) => true,
            (Ok(Some(target)), Ok(Some(t))) => target@ == t,
            (Err(error), Err(message)) => error@ == message,
            _ => false,
        },
{
    let candidates: Vec<String> = sort_strings(responding);
    assert(texts(candidates@).len() == candidates@.len());
    if candidates.len() == 0 {
        return Ok(None);
    }
    if candidates.len() == 1 {
        assert(texts(candidates@)[0] == candidates@[0]@);
        return match split_host_port(candidates[0].as_str()) {
            Ok((host, port)) => Ok(Some(TargetUrl { host, port: (port % 0x1_0000) as u16 })),
            Err(error) => Err(error),
        };
    }
    let mut message: String = "multiple child HTTP listeners found: ".to_owned();
    let shown: String = quoted_list(&candidates);
    message.append(shown.as_str());
    message.append("; select one with --target");
    Err(message)
}

/// The request that a listener is asked to answer.
pub open spec fn probe_text(address: Seq<char>) -> Seq<char> {
    "GET / HTTP/1.1\r\nHost: "@ + address + "\r\nConnection: close\r\n\r\n"@
}

/// The request that a listener is asked to answer.
pub fn probe_request(address: &str) -> (r: Vec<u8>)
    ensures
        r@ == encode_utf8(probe_text(address@)),
{
    let mut text: String = "GET / HTTP/1.1\r\nHost: ".to_owned();
    text.append(address);
    text.append("\r\nConnection: close\r\n\r\n");
    bytes_of(text.as_str())
}

// ------------------------------------------------------------------- waiting

/// How long to wait between two looks for the target, in nanoseconds.
pub const TICK: u64 = 150_000_000;

/// What a look for the target leads to.
#[derive(Debug)]
pub enum Wait {
    Found(TargetUrl),
    Failed(String),
    /// The deadline has passed, or the wait was called off.
    GiveUp,
    /// Look again after this many nanoseconds.
    Sleep(u64),
}

/// One round of the wait for a target: what was found ends it, an error ends it,
/// and otherwise the deadline or a call to stop. Times are nanoseconds on one
/// clock.
pub fn wait_for_target(
    found: Result<Option<TargetUrl>, String>,
    now: u64,
    deadline: u64,
    should_stop: bool,
) -> (r: Wait)
    ensures
        match found {
            Ok(Some(target)) => r == Wait::Found(target),
            Err(error) => r == Wait::Failed(error),
            Ok(None) => if now >= deadline || should_stop {
                r == Wait::GiveUp
            } else if deadline - now < TICK {
                r == Wait::Sleep((deadline - now) as u64)
            } else {
                r == Wait::Sleep(TICK)
            },
        },
{
    match found {
        Ok(Some(target)) => Wait::Found(target),
        Err(error) => Wait::Failed(error),
        Ok(None) => {
            if now >= deadline || should_stop {
                Wait::GiveUp
            } else if deadline - now < TICK {
                Wait::Sleep(deadline - now)
            } else {
                Wait::Sleep(TICK)
            }
        },
    }
}

/// What discovery lacks on this machine: nothing on Linux, where the kernel is
/// asked directly, and elsewhere nothing as long as the process lister stands in
/// one of the searched directories, each of which `present` answers for.
pub fn required_tools_missing(linux: bool, present: &[bool]) -> (r: Option<String>)
    ensures
        match r {
            None => linux || present@.contains(true),
            Some(tool) => !linux && !present@.contains(true) && tool@ == "lsof"@,
        },
{
    if linux {
        return None;
    }
    let mut i: usize = 0;
    while i < present.len()
        invariant
            i <= present@.len(),
            forall|k: int| 0 <= k < i ==> !present@[k],
        decreases present@.len() - i,
    {
        if present[i] {
            assert(present@[i as int] == true);
            return None;
        }
        i = i + 1;
    }
    Some("lsof".to_owned())
}

} // verus!
