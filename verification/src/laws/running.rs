//! A run: its port, its retries, and how it ends what it started.

use crate::cli::Config;
use crate::laws::texts::{all_white, found_where_it_stands, tight, trimming_takes_white_space_alone};
use crate::localapi::port_taken;
use crate::number::decimal;
use crate::runner::{
    authority_of, chosen_port, end_step, failed_with, later, may_retry, obstacle, retry_delay,
    CliRoute, EndStep, Ending, Exit,
};
use crate::serve::is_reserved;
use crate::signal::{poll_limit, taken};
use crate::tailscale::{
    capture_text, client_selected, document_in, first_usable, port_used, Capture, ServeConfig,
};
use crate::text::{has_prefix, occurs_at};
use vstd::prelude::*;
use vstd::utf8::{encode_utf8, encode_utf8_decode_utf8, encode_utf8_valid_utf8};

verus! {

/// The ports that Funnel uses, and no others, are left to it.
pub proof fn funnel_ports_are_reserved(port: u16)
    ensures
        is_reserved(port) <==> port == 443 || port == 8443 || port == 10000,
{
    let ports = crate::serve::RESERVED_FUNNEL_PORTS@;
    assert(ports.len() == 3 && ports[0] == 443 && ports[1] == 8443 && ports[2] == 10000);
    if port == 443 {
        assert(ports[0] == port);
    } else if port == 8443 {
        assert(ports[1] == port);
    } else if port == 10000 {
        assert(ports[2] == port);
    }
}

/// A run starts exactly where its port is neither left to Funnel nor served
/// already, and where the tool that it needs to find its own server is there; the
/// port is the one asked for, or an unused one.
pub proof fn runs_start_where_nothing_is_in_the_way(
    config: Config,
    initial: ServeConfig,
    unused: u16,
    missing: Option<Seq<char>>,
)
    ensures
        ({
            let port = if config.port != 0 {
                config.port
            } else {
                unused
            };
            let reserved = port == 443 || port == 8443 || port == 10000;
            let taken = port_used(initial, port as nat);
            let lacking = config.target is None && config.command@.len() > 0 && missing is Some;
            let result = obstacle(config, initial, unused, missing);
            &&& chosen_port(config.port, unused) == port
            &&& result is None <==> !reserved && !taken && !lacking
            &&& reserved ==> result == Some(
                "choose a dedicated HTTPS port, excluding Funnel ports 443, 8443, and 10000"@,
            )
            &&& !reserved && taken ==> result == Some(
                "HTTPS port "@ + decimal(port as nat)
                    + " is already configured in Tailscale Serve; choose another with --https"@,
            )
            &&& !reserved && !taken && lacking ==> result == Some(
                "automatic discovery requires "@ + missing.unwrap(),
            )
        }),
{
    funnel_ports_are_reserved(chosen_port(config.port, unused));
}

/// The client is started again where another one changed the configuration
/// meanwhile, up to four starts in all, a tenth of a second later each time.
pub proof fn conflicts_are_retried(
    route: CliRoute,
    before: Seq<char>,
    after: Seq<char>,
    other: Seq<char>,
    now: u64,
)
    requires
        route.well_formed(),
        forall|j: int| 0 <= j ==> !occurs_at(other, "etag mismatch"@, j),
        now <= u64::MAX - 400_000_000,
    ensures
        may_retry(route, false, before + "etag mismatch"@ + after) <==> route.attempts < 4,
        !may_retry(route, false, other),
        !may_retry(route, true, before + "etag mismatch"@ + after),
        1 <= route.attempts <= 4,
        later(now, retry_delay(route.attempts)) == now + route.attempts * 100_000_000,
{
    reveal_strlit("etag mismatch");
    let mark = "etag mismatch"@;
    let output = before + mark + after;
    let n = before.len() as int;
    assert(output.subrange(n, n + mark.len()) =~= mark);
    assert(occurs_at(output, mark, n));
    found_where_it_stands(output, mark);
    found_where_it_stands(other, mark);
}

/// A group gets five seconds to end after it was asked, is killed then, and is
/// waited for one more second.
pub proof fn groups_get_their_time(waited: u64)
    ensures
        end_step(Ending::Asked, true, waited) == (if waited < 5_000_000_000 {
            EndStep::Wait
        } else {
            EndStep::Kill
        }),
        end_step(Ending::Killed, true, waited) == (if waited < 1_000_000_000 {
            EndStep::Wait
        } else {
            EndStep::Done
        }),
        end_step(Ending::Asked, false, waited) == EndStep::Done,
        end_step(Ending::Killed, false, waited) == EndStep::Done,
{
}

/// A run goes by the machine's name and its port.
pub proof fn runs_go_by_name_and_port(name: Seq<char>, port: nat)
    ensures
        authority_of(name, port) == name + ":"@ + decimal(port),
        has_prefix(authority_of(name, port), name),
        port_taken(port) == "HTTPS port "@ + decimal(port)
            + " is already configured in Tailscale Serve; choose another with --https"@,
{
    assert(authority_of(name, port).take(name.len() as int) =~= name);
}

/// Of several paths the first that can be used is taken.
pub proof fn the_first_usable_path_is_taken(paths: Seq<(String, bool)>, k: int)
    ensures
        0 <= k < paths.len() && paths[k].1 && (forall|j: int|
            0 <= j < k ==> !(#[trigger] paths[j]).1) ==> first_usable(paths, 0) == Some(
            paths[k].0@,
        ),
        (forall|j: int| 0 <= j < paths.len() ==> !(#[trigger] paths[j]).1) ==> first_usable(
            paths,
            0,
        ) is None,
{
    if 0 <= k < paths.len() && paths[k].1 && (forall|j: int|
        0 <= j < k ==> !(#[trigger] paths[j]).1) {
        lemma_usable(paths, k, 0);
    }
    if forall|j: int| 0 <= j < paths.len() ==> !(#[trigger] paths[j]).1 {
        lemma_none_usable(paths, 0);
    }
}

proof fn lemma_usable(paths: Seq<(String, bool)>, k: int, i: int)
    requires
        0 <= i <= k < paths.len(),
        paths[k].1,
        forall|j: int| i <= j < k ==> !(#[trigger] paths[j]).1,
    ensures
        first_usable(paths, i) == Some(paths[k].0@),
    decreases k - i,
{
    if i < k {
        lemma_usable(paths, k, i + 1);
    }
}

proof fn lemma_none_usable(paths: Seq<(String, bool)>, i: int)
    requires
        0 <= i,
        forall|j: int| i <= j < paths.len() ==> !(#[trigger] paths[j]).1,
    ensures
        first_usable(paths, i) is None,
    decreases paths.len() - i,
{
    if i < paths.len() {
        lemma_none_usable(paths, i + 1);
    }
}

/// What a Serve status prints is its document, white space aside; nothing, or
/// null, is none.
pub proof fn documents_are_what_is_printed(
    before: Seq<char>,
    document: Seq<char>,
    after: Seq<char>,
)
    requires
        all_white(before),
        all_white(after),
        tight(document),
    ensures
        document != "null"@ ==> document_in(before + document + after) == Some(document),
        document_in(before + "null"@ + after) is None,
        document_in(before) is None,
{
    reveal_strlit("null");
    trimming_takes_white_space_alone(before, document, after);
    trimming_takes_white_space_alone(before, "null"@, after);
    let none = Seq::<char>::empty();
    trimming_takes_white_space_alone(before, none, none);
    assert(before + none + none =~= before);
}

/// A sleep without a limit has none; any other is the time asked for in
/// milliseconds, rounded up.
pub proof fn sleeps_are_in_milliseconds(millis: u64, part: u64)
    requires
        millis < 0x7fff_ffff,
        0 < part < 1_000_000,
    ensures
        poll_limit(None) == -1,
        poll_limit(Some((millis * 1_000_000) as u64)) == millis,
        poll_limit(Some((millis * 1_000_000 + part) as u64)) == millis + 1,
{
}

/// A client is selected on the command line, or by a value of the environment that
/// is not empty.
pub proof fn clients_are_selected_by_name(explicit: Option<String>, variable: Option<String>)
    ensures
        explicit is Some ==> client_selected(explicit, variable),
        explicit is None && variable is None ==> !client_selected(explicit, variable),
        variable matches Some(path) ==> (explicit is None ==> (client_selected(explicit, variable)
            <==> path@.len() > 0)),
{
}

/// What the client printed is taken as it is; where it failed, it is told what was
/// read and what the client said.
pub proof fn clients_are_taken_at_their_word(
    label: Seq<char>,
    stdout: Vec<u8>,
    text: Seq<char>,
    stderr: Vec<u8>,
    error: String,
)
    requires
        stdout@ == encode_utf8(text),
    ensures
        capture_text(label, Capture::Done(stdout)) == Ok::<Seq<char>, Seq<char>>(text),
        capture_text(label, Capture::TimedOut) == Err::<Seq<char>, Seq<char>>(
            "read "@ + label + ": timed out"@,
        ),
        capture_text(label, Capture::NotStarted(error)) == Err::<Seq<char>, Seq<char>>(
            "read "@ + label + ": "@ + error@,
        ),
        capture_text(label, Capture::Failed(stderr)) matches Err(message) && has_prefix(
            message,
            "read "@ + label + ": "@,
        ),
        capture_text(label, Capture::Lost(error)) is Err,
{
    reveal_strlit(": ");
    reveal_strlit("timed out");
    reveal_strlit(": timed out");
    encode_utf8_valid_utf8(text);
    encode_utf8_decode_utf8(text);
    let start = "read "@ + label + ": "@;
    assert(start + "timed out"@ =~= "read "@ + label + ": timed out"@);
    let message = capture_text(label, Capture::Failed(stderr))->Err_0;
    assert(message.take(start.len() as int) =~= start);
}

/// A failure that is told has the exit code one and its message.
pub proof fn failures_are_told(exit: Exit, message: Seq<char>)
    ensures
        failed_with(exit, message) <==> (exit matches Exit::Failed(failure) && failure.code == 1
            && failure.message is Some && failure.message.unwrap()@ == message),
{
}

/// A time that would lie behind the end of the clock is its end.
pub proof fn clocks_do_not_run_over(now: u64, delay: u64)
    requires
        now + delay > u64::MAX,
    ensures
        later(now, delay as int) == u64::MAX,
        crate::dashboard::state::ahead(now, delay) == u64::MAX,
{
}

} // verus!
