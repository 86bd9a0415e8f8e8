//! Session lifecycle decisions.
//!
//! A session is one start-to-stop lifetime of the external transcription
//! process and its reader loop. The decisions — which process to spawn or
//! terminate, and what the reader loop does after each read — are made here;
//! performing them (spawning, killing, the blocking reads) is the caller's
//! task. At most one session is active at a time, and every session gets a
//! fresh identifier, so events tagged with their session can never be
//! attributed to an earlier one.

use vstd::prelude::*;

verus! {

/// What a `start` request decides: the fresh identifier of the session to
/// spawn, and the previously active session to replace, if any.
#[derive(Debug, Clone, Copy, PartialEq, Eq, Structural)]
pub struct StartDecision {
    /// Identifier of the session to spawn.
    pub session: u64,
    /// Identifier of the session whose process the new one replaces.
    pub replaces: Option<u64>,
}

/// The shared session state: which session is active and which identifier the
/// next one gets.
pub struct SessionManager {
    active: Option<u64>,
    next_id: u64,
}

impl SessionManager {
    /// The identifier of the active session, if one is running.
    pub closed spec fn active_session(self) -> Option<u64> {
        self.active
    }

    /// The identifier the next `start` will hand out.
    pub closed spec fn next_session(self) -> u64 {
        self.next_id
    }

    /// Every identifier already handed out lies strictly below
    /// `next_session`.
    pub closed spec fn wf(self) -> bool {
        match self.active {
            Some(id) => id < self.next_id,
            None => true,
        }
    }

    /// A manager with no session active.
    pub fn new() -> (r: Self)
        ensures
            r.wf(),
            r.active_session() is None,
            r.next_session() == 0,
    {
        SessionManager { active: None, next_id: 0 }
    }

    /// True while fresh identifiers remain, so `start` may be called.
    pub fn can_start(&self) -> (r: bool)
        ensures
            r == (self.next_session() < u64::MAX),
    {
        self.next_id < u64::MAX
    }

    /// Decide a `start` request: hand out a fresh session identifier, record
    /// it as active, and name the session whose process must be replaced, if
    /// one was running.
    pub fn start(&mut self) -> (d: StartDecision)
        requires
            old(self).wf(),
            old(self).next_session() < u64::MAX,
        ensures
            final(self).wf(),
            d.session == old(self).next_session(),
            d.replaces == old(self).active_session(),
            final(self).active_session() == Some(d.session),
            final(self).next_session() == d.session + 1,
            d.replaces matches Some(o) ==> o < d.session,
    {
        let session = self.next_id;
        let replaces = self.active;
        self.active = Some(session);
        self.next_id = session + 1;
        StartDecision { session, replaces }
    }

    /// Decide a `stop` request: clear the stored session unconditionally —
    /// even a failed termination must not leave stuck state — and name the
    /// session whose process must be terminated, if one was running.
    pub fn stop(&mut self) -> (r: Option<u64>)
        ensures
            final(self).active_session() is None,
            final(self).next_session() == old(self).next_session(),
            r == old(self).active_session(),
            old(self).wf() ==> final(self).wf(),
    {
        let r = self.active;
        self.active = None;
        r
    }
}

/// Law: the active session's identifier was handed out earlier, so any
/// session started from here on gets a strictly larger identifier: two
/// sessions never share one, and an event tagged with its session identifier
/// is never attributed to a session started later.
pub proof fn lemma_active_session_is_fresh(m: SessionManager)
    requires
        m.wf(),
    ensures
        m.active_session() matches Some(id) ==> id < m.next_session(),
{
}

/// What one read against the byte source produced.
#[derive(Debug, Clone, Copy, PartialEq, Eq, Structural)]
pub enum ReadOutcome {
    /// A non-empty chunk of bytes arrived.
    Chunk,
    /// A zero-byte read: the source is exhausted.
    EndOfStream,
    /// The read failed; the loop ends without surfacing the error.
    Failure,
}

/// The reader loop's state. It keeps running while chunks arrive, drains the
/// unterminated tail once the source ends, and terminates for good.
#[derive(Debug, Clone, Copy, PartialEq, Eq, Structural)]
pub enum ReaderState {
    /// Blocked on the next read.
    Running,
    /// The source ended; the accumulated tail is flushed as a final event.
    Draining,
    /// The loop is over; no transition leads back out.
    Terminated,
}

impl ReaderState {
    /// The state after one read, as a function: chunks keep the loop running,
    /// end of stream sends it to drain the tail, a failure terminates it at
    /// once, and a terminated or draining loop never runs again.
    pub open spec fn spec_step(self, outcome: ReadOutcome) -> ReaderState {
        match self {
            ReaderState::Running => match outcome {
                ReadOutcome::Chunk => ReaderState::Running,
                ReadOutcome::EndOfStream => ReaderState::Draining,
                ReadOutcome::Failure => ReaderState::Terminated,
            },
            ReaderState::Draining => ReaderState::Terminated,
            ReaderState::Terminated => ReaderState::Terminated,
        }
    }

    /// Advance the reader loop by one read outcome.
    pub fn step(self, outcome: ReadOutcome) -> (r: ReaderState)
        ensures
            r == self.spec_step(outcome),
    {
        match self {
            ReaderState::Running => match outcome {
                ReadOutcome::Chunk => ReaderState::Running,
                ReadOutcome::EndOfStream => ReaderState::Draining,
                ReadOutcome::Failure => ReaderState::Terminated,
            },
            ReaderState::Draining => ReaderState::Terminated,
            ReaderState::Terminated => ReaderState::Terminated,
        }
    }
}

/// Law: no outcome leads out of the terminated state.
pub proof fn lemma_terminated_is_absorbing(outcome: ReadOutcome)
    ensures
        ReaderState::Terminated.spec_step(outcome) == ReaderState::Terminated,
{
}

} // verus!
