//! When to rebind the underlay after the network link changes.
//!
//! Each settled link change asks for a rebind of the underlay sockets and, once that is done, for a
//! new latency measurement. Rebinds keep a distance: a change that comes too soon after the last
//! completed rebind is put off to the end of the interval, and further ones are folded into it.
//! Shutdown comes before everything.
//!
//! Instants are nanoseconds of a monotonic clock.

use vstd::prelude::*;

verus! {

/// How many nanoseconds lie at least between a completed rebind and the next.
pub const MIN_REBIND_INTERVAL: u64 = 1_000_000_000;

/// What may happen to the supervisor.
#[derive(Clone, Copy, Debug, PartialEq, Eq, Structural)]
pub enum Input {
    /// The shutdown signal changed to this.
    Shutdown(bool),
    /// The link changed, and settled.
    LinkChange,
    /// No link change can come any more.
    StreamClosed,
    /// The instant of [`Supervisor::deadline`] has come.
    Deadline,
}

/// What the supervisor does.
#[derive(Clone, Copy, Debug, PartialEq, Eq, Structural)]
pub enum Step {
    /// Wait for the next input.
    Wait,
    /// Rebind and probe again, then report to [`Supervisor::rebound`].
    Rebind,
    /// Measure latencies again.
    MeasureNow,
    /// End.
    Stop,
}

/// What is ready at once.
#[derive(Clone, Copy, Debug, PartialEq, Eq, Structural)]
pub struct Ready {
    /// The shutdown signal changed to this.
    pub shutdown: Option<bool>,
    /// The link changed, or (`false`) no change can come any more.
    pub link: Option<bool>,
    /// The deadline has come.
    pub deadline: bool,
}

/// The input that comes first of those that are ready: shutdown, then the link, then the deadline.
pub open spec fn first_input(ready: Ready) -> Option<Input> {
    if ready.shutdown is Some {
        Some(Input::Shutdown(ready.shutdown->0))
    } else if ready.link == Some(true) {
        Some(Input::LinkChange)
    } else if ready.link == Some(false) {
        Some(Input::StreamClosed)
    } else if ready.deadline {
        Some(Input::Deadline)
    } else {
        None
    }
}

/// Picks the input that comes first of those that are ready.
pub fn next_input(ready: Ready) -> (r: Option<Input>)
    ensures
        r == first_input(ready),
{
    match ready.shutdown {
        Some(value) => {
            return Some(Input::Shutdown(value));
        },
        None => {},
    }
    match ready.link {
        Some(true) => Some(Input::LinkChange),
        Some(false) => Some(Input::StreamClosed),
        None => if ready.deadline {
            Some(Input::Deadline)
        } else {
            None
        },
    }
}

/// What the supervisor remembers.
#[derive(Clone, Copy, Debug, PartialEq, Eq, Structural)]
pub struct Supervisor {
    /// When the last rebind was done.
    pub last_rebind: Option<u64>,
    /// Whether a rebind is owed.
    pub pending: bool,
}

impl Supervisor {
    /// A rebind is owed only after another, and the end of the interval after it is an instant.
    pub open spec fn wf(self) -> bool {
        &&& self.pending ==> self.last_rebind is Some
        &&& self.last_rebind is Some ==> self.last_rebind->0 + MIN_REBIND_INTERVAL <= u64::MAX
    }

    /// Whether `now` is too soon after the last rebind.
    pub open spec fn too_soon(self, now: u64) -> bool {
        self.last_rebind is Some && now < self.last_rebind->0 + MIN_REBIND_INTERVAL
    }

    /// The state after `input` at `now`, and what is done.
    pub open spec fn next(self, input: Input, now: u64) -> (Supervisor, Step) {
        match input {
            Input::Shutdown(value) => (self, if value {
                Step::Stop
            } else {
                Step::Wait
            }),
            Input::StreamClosed => (self, Step::Stop),
            Input::LinkChange => if self.too_soon(now) {
                (Supervisor { pending: true, ..self }, Step::Wait)
            } else {
                (Supervisor { pending: false, ..self }, Step::Rebind)
            },
            Input::Deadline => if self.pending {
                (Supervisor { pending: false, ..self }, Step::Rebind)
            } else {
                (self, Step::Wait)
            },
        }
    }

    /// The supervisor before anything happened.
    pub fn new() -> (r: Self)
        ensures
            r == (Supervisor { last_rebind: None, pending: false }),
            r.wf(),
    {
        Supervisor { last_rebind: None, pending: false }
    }

    /// When the owed rebind is due.
    pub fn deadline(&self) -> (r: Option<u64>)
        requires
            self.wf(),
        ensures
            r == (if self.pending {
                Some((self.last_rebind->0 + MIN_REBIND_INTERVAL) as u64)
            } else {
                None
            }),
    {
        match self.last_rebind {
            Some(at) => if self.pending {
                Some(at + MIN_REBIND_INTERVAL)
            } else {
                None
            },
            None => None,
        }
    }

    /// Takes an input that came at `now`.
    pub fn step(&mut self, input: Input, now: u64) -> (r: Step)
        requires
            old(self).wf(),
        ensures
            (*final(self), r) == old(self).next(input, now),
            final(self).wf(),
    {
        match input {
            Input::Shutdown(value) => if value {
                Step::Stop
            } else {
                Step::Wait
            },
            Input::StreamClosed => Step::Stop,
            Input::LinkChange => {
                let soon = match self.last_rebind {
                    Some(at) => now < at + MIN_REBIND_INTERVAL,
                    None => false,
                };
                if soon {
                    self.pending = true;
                    Step::Wait
                } else {
                    self.pending = false;
                    Step::Rebind
                }
            },
            Input::Deadline => if self.pending {
                self.pending = false;
                Step::Rebind
            } else {
                Step::Wait
            },
        }
    }

    /// Takes note that a rebind, failed or not, was done at `now`. The measurement is next.
    pub fn rebound(&mut self, now: u64) -> (r: Step)
        requires
            old(self).wf(),
            now + MIN_REBIND_INTERVAL <= u64::MAX,
        ensures
            *final(self) == (Supervisor { last_rebind: Some(now), ..*old(self) }),
            final(self).wf(),
            r == Step::MeasureNow,
    {
        self.last_rebind = Some(now);
        Step::MeasureNow
    }
}

/// The state after link changes at `times`, where none of them leads to a rebind.
pub open spec fn stormed(s: Supervisor, times: Seq<u64>) -> Supervisor
    decreases times.len(),
{
    if times.len() == 0 {
        s
    } else {
        stormed(s, times.drop_last()).next(Input::LinkChange, times.last()).0
    }
}

/// However many link changes come too soon after a rebind, none of them leads to a rebind at once,
/// and together they owe exactly one.
pub proof fn a_storm_owes_one_rebind(s: Supervisor, times: Seq<u64>)
    requires
        s.wf(),
        s.last_rebind is Some,
        forall|i: int| 0 <= i < times.len() ==> s.too_soon(#[trigger] times[i]),
    ensures
        times.len() > 0 ==> stormed(s, times) == (Supervisor { pending: true, ..s }),
        forall|i: int|
            0 <= i < times.len() ==> stormed(s, times.take(i)).next(
                Input::LinkChange,
                #[trigger] times[i],
            ).1 == Step::Wait,
    decreases times.len(),
{
    if times.len() > 0 {
        let short = times.drop_last();
        assert forall|i: int| 0 <= i < short.len() implies s.too_soon(#[trigger] short[i]) by {
            assert(short[i] == times[i]);
        }
        a_storm_owes_one_rebind(s, short);
        assert(s.too_soon(times[times.len() - 1]));
        assert forall|i: int| 0 <= i < times.len() implies stormed(s, times.take(i)).next(
            Input::LinkChange,
            #[trigger] times[i],
        ).1 == Step::Wait by {
            if i < short.len() {
                assert(short[i] == times[i]);
                assert(short.take(i) =~= times.take(i));
            } else {
                assert(times.take(i) =~= short);
                if short.len() == 0 {
                    assert(stormed(s, short) == s);
                }
            }
        }
    }
}

/// An owed rebind is done when the interval has passed, and is then owed no more.
pub proof fn an_owed_rebind_is_done_once(s: Supervisor, now: u64)
    requires
        s.wf(),
        s.pending,
    ensures
        s.next(Input::Deadline, now).1 == Step::Rebind,
        !s.next(Input::Deadline, now).0.pending,
        s.next(Input::Deadline, now).0.next(Input::Deadline, now).1 == Step::Wait,
{
}

/// A link change is never lost: it leads to a rebind at once, or one is owed.
pub proof fn no_link_change_is_lost(s: Supervisor, now: u64)
    ensures
        s.next(Input::LinkChange, now).1 == Step::Rebind || s.next(
            Input::LinkChange,
            now,
        ).0.pending,
{
}

/// Rebinds keep their distance: one that starts at `now`, with deadlines kept, starts no sooner
/// than the interval after the last.
pub proof fn rebinds_keep_their_distance(s: Supervisor, input: Input, now: u64)
    requires
        s.wf(),
        s.next(input, now).1 == Step::Rebind,
        s.last_rebind is Some,
        input == Input::Deadline ==> now >= s.last_rebind->0 + MIN_REBIND_INTERVAL,
    ensures
        now >= s.last_rebind->0 + MIN_REBIND_INTERVAL,
{
}

/// A shutdown ends the supervisor, whatever else is ready and whatever is owed.
pub proof fn shutdown_comes_first(s: Supervisor, ready: Ready, now: u64)
    requires
        ready.shutdown == Some(true),
    ensures
        first_input(ready) == Some(Input::Shutdown(true)),
        s.next(Input::Shutdown(true), now).1 == Step::Stop,
{
}

} // verus!
