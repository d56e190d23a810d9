//! One positioned read, from the call that asks for it to its result.
//!
//! The operation never touches the kernel. Each call of [`ReadComplection::poll`]
//! takes what has just happened and returns what the driver must do next.

use crate::buffer::AsIoVec;
use crate::ring::{abandoned, drained, has_free, is_first_free, released, slot_at, taken, Ring, Slot};
use crate::wire::{outcome_of, read_outcome, submission_of, Completion, IoError, Request, Submission};
use vstd::prelude::*;

verus! {

/// How far an operation has come.
#[derive(Clone, Copy, Debug, PartialEq, Eq, Structural)]
pub enum Stage {
    /// Nothing has been done for the operation yet.
    Unsubmitted,
    /// The operation owns the slot of this token; the submission queue has not
    /// accepted its request yet.
    Queued(u64),
    /// The request is in flight under this token.
    Submitted(u64),
    /// The operation has given its result and owns no slot.
    Resolved,
}

/// What the driver reports to an operation.
#[derive(Debug, PartialEq, Eq)]
pub enum Event {
    /// The scheduler polls the operation.
    Polled,
    /// The request was offered to the submission queue, which accepted it
    /// (`true`) or had no room for it (`false`).
    Pushed(bool),
    /// The ring was flushed: the completions that were then drained from the
    /// kernel, or the error that stopped the flush.
    Drained(Result<Vec<Completion>, IoError>),
}

/// What an operation asks of the driver.
#[derive(Clone, Copy, Debug, PartialEq, Eq)]
pub enum Action {
    /// Offer this request to the submission queue and report `Pushed`.
    Push(Submission),
    /// Flush the ring, drain the completion queue and report `Drained`.
    Drain,
    /// Ask the scheduler for another poll and tell it that the operation is not
    /// ready.
    Wake,
    /// Tell the scheduler that the operation is ready, with this result.
    Resolve(Result<usize, IoError>),
}

/// The table after an operation at `stage` has let go of its slot.
pub open spec fn given_up(slots: Seq<Slot>, stage: Stage) -> Seq<Slot> {
    match stage {
        Stage::Queued(token) => released(slots, token),
        Stage::Submitted(token) => abandoned(slots, token),
        _ => slots,
    }
}

/// The slot that stays taken for an operation abandoned at `stage`: the one of
/// a request in flight whose completion has not arrived.
pub open spec fn orphan_of(slots: Seq<Slot>, stage: Stage) -> Option<u64> {
    match stage {
        Stage::Submitted(token) => if slot_at(slots, token) is Waiting {
            Some(token)
        } else {
            None
        },
        _ => None,
    }
}

/// A poll. An operation that has not started takes the first free slot and
/// asks for its request to be pushed, or waits where the table is full; one
/// whose request was refused offers the same request again; one in flight
/// asks for a drain.
pub open spec fn on_polled(
    stage: Stage,
    request: Request,
    slots: Seq<Slot>,
    next: Stage,
    after: Seq<Slot>,
    action: Action,
) -> bool {
    match stage {
        Stage::Unsubmitted => if has_free(slots) {
            &&& next matches Stage::Queued(token)
            &&& is_first_free(slots, token)
            &&& after == slots.update(token as int, Slot::Waiting)
            &&& action == Action::Push(submission_of(request, token))
        } else {
            next == stage && after == slots && action == Action::Wake
        },
        Stage::Queued(token) => {
            &&& next == stage
            &&& after == slots
            &&& action == Action::Push(submission_of(request, token))
        },
        Stage::Submitted(_) => next == stage && after == slots && action == Action::Drain,
        Stage::Resolved => next == stage && after == slots && action == Action::Wake,
    }
}

/// The answer of the submission queue. Only an operation that waits for it
/// moves: to flight where its request was accepted.
pub open spec fn on_pushed(stage: Stage, accepted: bool, next: Stage, action: Action) -> bool {
    match stage {
        Stage::Queued(token) => if accepted {
            next == Stage::Submitted(token) && action == Action::Drain
        } else {
            next == stage && action == Action::Wake
        },
        _ => next == stage && action == Action::Wake,
    }
}

/// The end of a flush. A failed flush is the poll's result, and nothing else
/// changes: the request may still be in flight, so the operation keeps its
/// slot. Else every completion is delivered, and an operation in flight whose
/// slot now holds a result takes it, frees the slot and ends with what the
/// result code means.
pub open spec fn on_drained(
    stage: Stage,
    slots: Seq<Slot>,
    flushed: Result<Vec<Completion>, IoError>,
    next: Stage,
    after: Seq<Slot>,
    action: Action,
) -> bool {
    match flushed {
        Err(error) => next == stage && after == slots && action == Action::Resolve(Err(error)),
        Ok(events) => {
            let filled = drained(slots, events@);
            match stage {
                Stage::Submitted(token) => match slot_at(filled, token) {
                    Slot::Done(code) => {
                        &&& next == Stage::Resolved
                        &&& after == taken(filled, token)
                        &&& action == Action::Resolve(outcome_of(code))
                    },
                    _ => next == stage && after == filled && action == Action::Wake,
                },
                _ => next == stage && after == filled && action == Action::Wake,
            }
        },
    }
}

/// One step of the protocol: from an operation at `stage` and the table
/// `slots`, on `event`, to the stage `next`, the table `after` and the action
/// that the driver is asked for.
pub open spec fn step(
    stage: Stage,
    request: Request,
    slots: Seq<Slot>,
    event: Event,
    next: Stage,
    after: Seq<Slot>,
    action: Action,
) -> bool {
    match event {
        Event::Polled => on_polled(stage, request, slots, next, after, action),
        Event::Pushed(accepted) => on_pushed(stage, accepted, next, action) && after == slots,
        Event::Drained(flushed) => on_drained(stage, slots, flushed, next, after, action),
    }
}

/// One positioned read that was asked of a ring.
pub struct ReadComplection {
    request: Request,
    stage: Stage,
}

impl ReadComplection {
    /// What the operation reads, from where and to where.
    pub closed spec fn spec_request(&self) -> Request {
        self.request
    }

    /// How far the operation has come.
    pub closed spec fn spec_stage(&self) -> Stage {
        self.stage
    }

    /// What the operation reads, from where and to where.
    #[verifier::when_used_as_spec(spec_request)]
    pub fn request(&self) -> (request: Request)
        ensures
            request == self.spec_request(),
    {
        self.request
    }

    /// How far the operation has come.
    #[verifier::when_used_as_spec(spec_stage)]
    pub fn stage(&self) -> (stage: Stage)
        ensures
            stage == self.spec_stage(),
    {
        self.stage
    }

    /// An operation that reads from `fd` at `offset` into `buf`, with nothing
    /// done for it yet.
    pub(crate) fn new<B: AsIoVec + ?Sized>(fd: i32, buf: &B, offset: u64) -> (operation: Self)
        ensures
            operation.stage() == Stage::Unsubmitted,
            operation.request().fd == fd,
            operation.request().len == buf.region().len(),
            operation.request().offset == offset,
    {
        let (addr, len) = buf.as_io_vec();
        ReadComplection { request: Request { fd, addr, len, offset }, stage: Stage::Unsubmitted }
    }

    /// The poll's first part: what to do about the request.
    fn try_push_submission_queue(&mut self, ring: &mut Ring) -> (action: Action)
        ensures
            final(self).request() == old(self).request(),
            on_polled(
                old(self).stage(),
                old(self).request(),
                old(ring)@,
                final(self).stage(),
                final(ring)@,
                action,
            ),
    {
        match self.stage {
            Stage::Unsubmitted => match ring.reserve() {
                Some(token) => {
                    self.stage = Stage::Queued(token);
                    Action::Push(self.request.submission(token))
                },
                None => Action::Wake,
            },
            Stage::Queued(token) => Action::Push(self.request.submission(token)),
            Stage::Submitted(_) => Action::Drain,
            Stage::Resolved => Action::Wake,
        }
    }

    /// The answer of the submission queue.
    fn pushed(&mut self, accepted: bool) -> (action: Action)
        ensures
            final(self).request() == old(self).request(),
            on_pushed(old(self).stage(), accepted, final(self).stage(), action),
    {
        match self.stage {
            Stage::Queued(token) => if accepted {
                self.stage = Stage::Submitted(token);
                Action::Drain
            } else {
                Action::Wake
            },
            _ => Action::Wake,
        }
    }

    /// The poll's last part: the end of the flush.
    fn complete(&mut self, ring: &mut Ring, flushed: Result<Vec<Completion>, IoError>) -> (action: Action)
        ensures
            final(self).request() == old(self).request(),
            on_drained(
                old(self).stage(),
                old(ring)@,
                flushed,
                final(self).stage(),
                final(ring)@,
                action,
            ),
    {
        if let Err(error) = ring.submit(flushed) {
            return Action::Resolve(Err(error));
        }
        if let Stage::Submitted(token) = self.stage {
            if let Some(code) = ring.take(token) {
                self.stage = Stage::Resolved;
                return Action::Resolve(read_outcome(code));
            }
        }
        Action::Wake
    }

    /// Takes the protocol one step on: `event` is what has just happened, the
    /// result is what the driver must do next.
    pub fn poll(&mut self, ring: &mut Ring, event: Event) -> (action: Action)
        ensures
            final(self).request() == old(self).request(),
            step(
                old(self).stage(),
                old(self).request(),
                old(ring)@,
                event,
                final(self).stage(),
                final(ring)@,
                action,
            ),
    {
        match event {
            Event::Polled => self.try_push_submission_queue(ring),
            Event::Pushed(accepted) => self.pushed(accepted),
            Event::Drained(flushed) => self.complete(ring, flushed),
        }
    }

    /// Ends an operation that its owner drops, and lets go of its slot. Where
    /// the request is in flight and its completion has not arrived, the slot
    /// stays taken until it has, and the result is the slot's token: until that
    /// slot is no longer `Orphaned` the kernel may write to the destination.
    pub fn abandon(&mut self, ring: &mut Ring) -> (in_flight: Option<u64>)
        ensures
            final(self).request() == old(self).request(),
            final(self).stage() == Stage::Resolved,
            final(ring)@ == given_up(old(ring)@, old(self).stage()),
            in_flight == orphan_of(old(ring)@, old(self).stage()),
    {
        let in_flight = match self.stage {
            Stage::Queued(token) => {
                ring.release(token);
                None
            },
            Stage::Submitted(token) => {
                let pending = match ring.slot(token) {
                    Slot::Waiting => Some(token),
                    _ => None,
                };
                ring.abandon(token);
                pending
            },
            _ => None,
        };
        self.stage = Stage::Resolved;
        in_flight
    }
}

} // verus!
