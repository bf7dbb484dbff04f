//! Signals: what is recorded of them, how long to sleep, and whom to signal.

use vstd::prelude::*;

verus! {

/// The signals that only wake the program: a child changed, the terminal was
/// resized.
#[derive(Clone, Copy, Debug, PartialEq, Eq, Structural)]
pub struct WakeSignals {
    pub child: i32,
    pub resize: i32,
}

/// What is remembered of the signals that arrived; zero stands for none.
#[derive(Clone, Copy, Debug, PartialEq, Eq, Structural)]
pub struct Events {
    pub last: i32,
    pub pending: i32,
}

/// What is remembered after one more signal: a termination signal is kept, one
/// that only wakes is not.
pub open spec fn recorded(events: Events, signal: i32, wake: WakeSignals) -> Events {
    if signal != wake.child && signal != wake.resize {
        Events { last: signal, pending: signal }
    } else {
        events
    }
}

/// What is left, and what is handed out, when a pending signal is asked for.
pub open spec fn taken(events: Events) -> (Events, Option<i32>) {
    (
        Events { pending: 0, ..events },
        if events.pending == 0 {
            None
        } else {
            Some(events.pending)
        },
    )
}

/// The most recent termination signal, or 0.
pub fn last_signal(events: &Events) -> (r: i32)
    ensures
        r == events.last,
{
    events.last
}

/// Which descriptors became ready during `Events::wait_with`.
#[derive(Clone, Copy, Debug, PartialEq, Eq, Structural)]
pub struct Ready {
    pub woken: bool,
    pub extra: bool,
}

impl Events {
    /// Nothing has arrived.
    pub fn new() -> (r: Events)
        ensures
            r == (Events { last: 0, pending: 0 }),
    {
        Events { last: 0, pending: 0 }
    }

    /// Records a signal.
    pub fn on_signal(&mut self, signal: i32, wake: &WakeSignals)
        ensures
            *final(self) == recorded(*old(self), signal, *wake),
    {
        if signal != wake.child && signal != wake.resize {
            self.last = signal;
            self.pending = signal;
        }
    }

    /// Takes a pending termination signal, if any.
    pub fn take_signal(&mut self) -> (r: Option<i32>)
        ensures
            (*final(self), r) == taken(*old(self)),
    {
        let signal: i32 = self.pending;
        self.pending = 0;
        if signal == 0 {
            None
        } else {
            Some(signal)
        }
    }

    /// What a poll of the signal pipe, and of one more descriptor where one is
    /// given, means: its result, and which of the two have events. A poll that
    /// timed out or was interrupted has found nothing.
    pub fn wait_with(result: i32, woken: bool, extra_given: bool, extra: bool) -> (r: Ready)
        ensures
            r == if result <= 0 {
                Ready { woken: false, extra: false }
            } else {
                Ready { woken, extra: extra_given && extra }
            },
    {
        if result <= 0 {
            Ready { woken: false, extra: false }
        } else {
            Ready { woken, extra: extra_given && extra }
        }
    }
}

/// The milliseconds to sleep at most: rounded up, as many as fit, and -1 for no
/// limit.
pub open spec fn poll_limit(timeout: Option<u64>) -> int {
    match timeout {
        None => -1,
        Some(nanos) => if (nanos as int + 999_999) / 1_000_000 > 0x7fff_ffff {
            0x7fff_ffff
        } else {
            (nanos as int + 999_999) / 1_000_000
        },
    }
}

/// The milliseconds to sleep at most, for a timeout in nanoseconds.
pub fn poll_millis(timeout: Option<u64>) -> (r: i32)
    ensures
        r == poll_limit(timeout),
{
    match timeout {
        None => -1,
        Some(nanos) => {
            let whole: u64 = nanos / 1_000_000;
            let rounded: u64 = if nanos % 1_000_000 != 0 {
                whole + 1
            } else {
                whole
            };
            assert(rounded == (nanos as int + 999_999) / 1_000_000);
            if rounded > 0x7fff_ffff {
                0x7fff_ffff
            } else {
                rounded as i32
            }
        },
    }
}

/// The number under which a process group is signalled; none where it is no pid.
pub fn signal_process_group(process_group_id: u32) -> (r: Option<i32>)
    ensures
        r == if process_group_id <= 0x7fff_ffff {
            Some((-(process_group_id as int)) as i32)
        } else {
            None::<i32>
        },
{
    if process_group_id <= 0x7fff_ffff {
        Some(-(process_group_id as i32))
    } else {
        None
    }
}

/// The number under which a process is signalled; none where it is no pid.
pub fn signal_pid(pid: u32) -> (r: Option<i32>)
    ensures
        r == if pid <= 0x7fff_ffff {
            Some(pid as i32)
        } else {
            None::<i32>
        },
{
    if pid <= 0x7fff_ffff {
        Some(pid as i32)
    } else {
        None
    }
}

/// Whether a group is alive, from what signalling it with nothing gave: it is
/// unless the kernel reports that it no longer exists.
pub fn process_group_alive(process_group_id: u32, sent: bool, no_such_process: bool) -> (r: bool)
    ensures
        r == (process_group_id <= 0x7fff_ffff && (sent || !no_such_process)),
{
    process_group_id <= 0x7fff_ffff && (sent || !no_such_process)
}

// --------------------------------------------------------------------- laws

/// A termination signal is handed out once, and stays known as the last one; a
/// signal that only wakes leaves no trace.
pub proof fn signals_are_taken_once(events: Events, signal: i32, wake: WakeSignals)
    requires
        signal != 0,
    ensures
        ({
            let arrived = recorded(events, signal, wake);
            let (rest, first) = taken(arrived);
            if signal == wake.child || signal == wake.resize {
                arrived == events
            } else {
                first == Some(signal) && taken(rest).1 is None && rest.last == signal
            }
        }),
{
}

/// A sleep is never shorter than asked for, and less than a millisecond longer.
pub proof fn sleeps_are_rounded_up(nanos: u64)
    ensures
        poll_limit(Some(nanos)) < 0x7fff_ffff ==> poll_limit(Some(nanos)) * 1_000_000 >= nanos
            && poll_limit(Some(nanos)) * 1_000_000 < nanos + 1_000_000,
        nanos > 0 ==> poll_limit(Some(nanos)) > 0,
{
}

} // verus!
