//! What the protocol guarantees, whatever the kernel, the scheduler and the
//! other operations of the ring do.

use crate::read::{step, Action, Event, Stage};
use crate::ring::{
    drained, has_free, lemma_drained_delivers, lemma_drained_elsewhere, lemma_drained_len, owned, slot_at, Slot,
};
use crate::wire::{outcome_of, request_len, submission_of, Completion, IoError, Request};
use vstd::prelude::*;
use vstd::set_lib::lemma_len_subset;

verus! {

/// One step that an operation took: where it stood, what happened, and what
/// came of it.
pub struct Move {
    /// The operation's stage before the step.
    pub stage: Stage,
    /// The table before the step.
    pub slots: Seq<Slot>,
    /// What the operation was told.
    pub event: Event,
    /// The operation's stage after the step.
    pub next: Stage,
    /// The table after the step.
    pub after: Seq<Slot>,
    /// What the operation asked for.
    pub action: Action,
}

/// Whether `moves` is a history of one operation that reads `request`: each
/// move is a step of the protocol and starts at the stage where the move
/// before it ended. The table is free to change between two moves, since other
/// operations use it too.
pub open spec fn is_history(request: Request, moves: Seq<Move>) -> bool {
    &&& forall|i: int|
        0 <= i < moves.len() ==> step(
            (#[trigger] moves[i]).stage,
            request,
            moves[i].slots,
            moves[i].event,
            moves[i].next,
            moves[i].after,
            moves[i].action,
        )
    &&& forall|i: int| 0 < i < moves.len() ==> (#[trigger] moves[i]).stage == moves[i - 1].next
}

/// Whether, in this move, the submission queue accepts the operation's
/// request.
pub open spec fn accepts(m: Move) -> bool {
    m.stage is Queued && m.event == Event::Pushed(true)
}

/// Whether an operation at `stage` is past the submission of its request.
pub open spec fn past_submission(stage: Stage) -> bool {
    stage is Submitted || stage is Resolved
}

/// After the move in which its request was accepted, an operation stays past
/// its submission.
proof fn lemma_stays_past_submission(request: Request, moves: Seq<Move>, first: int, later: int)
    requires
        is_history(request, moves),
        0 <= first < later < moves.len(),
        accepts(moves[first]),
    ensures
        past_submission(moves[later].stage),
    decreases later - first,
{
    if later > first + 1 {
        lemma_stays_past_submission(request, moves, first, later - 1);
    }
    assert(moves[later].stage == moves[later - 1].next);
}

/// No request is submitted twice. Once the submission queue has accepted an
/// operation's request, no later move of the operation asks for a push, and
/// none is an acceptance.
pub proof fn lemma_submitted_once(request: Request, moves: Seq<Move>, first: int, later: int)
    requires
        is_history(request, moves),
        0 <= first < later < moves.len(),
        accepts(moves[first]),
    ensures
        !(moves[later].action is Push),
        !accepts(moves[later]),
{
    lemma_stays_past_submission(request, moves, first, later);
}

/// No request is altered. A step that asks for a push asks for the operation's
/// own request, under the token of the slot that the operation then owns.
pub proof fn lemma_push_is_the_request(
    stage: Stage,
    request: Request,
    slots: Seq<Slot>,
    event: Event,
    next: Stage,
    after: Seq<Slot>,
    action: Action,
)
    requires
        step(stage, request, slots, event, next, after, action),
        action is Push,
    ensures
        next is Queued,
        action == Action::Push(submission_of(request, next->Queued_0)),
        action->Push_0.fd == request.fd,
        action->Push_0.addr == request.addr,
        action->Push_0.len == request_len(request.len),
        action->Push_0.offset == request.offset,
{
}

/// The tokens below `bound`.
spec fn tokens_below(bound: nat) -> Set<u64> {
    Set::new(|token: u64| token < bound)
}

/// There are `bound` tokens below `bound`.
proof fn lemma_tokens_below(bound: nat)
    requires
        bound <= u64::MAX + 1,
    ensures
        tokens_below(bound).finite(),
        tokens_below(bound).len() == bound,
    decreases bound,
{
    if bound == 0 {
        assert(tokens_below(bound) =~= Set::<u64>::empty());
    } else {
        let fewer = (bound - 1) as nat;
        lemma_tokens_below(fewer);
        assert(tokens_below(bound) =~= tokens_below(fewer).insert(fewer as u64));
    }
}

/// The ring holds what it was sized for and no more. Operations that own
/// slots at the same time are at most as many as the table has slots, and
/// where they are as many, no slot is free: every further request is delayed.
pub proof fn lemma_at_most_entries_in_flight(slots: Seq<Slot>, tokens: Seq<u64>)
    requires
        tokens.no_duplicates(),
        forall|i: int| 0 <= i < tokens.len() ==> !(slot_at(slots, #[trigger] tokens[i]) is Free),
    ensures
        tokens.len() <= slots.len(),
        tokens.len() == slots.len() ==> !has_free(slots),
{
    let bound: nat = if slots.len() <= u64::MAX {
        slots.len()
    } else {
        (u64::MAX + 1) as nat
    };
    let holders = tokens.to_set();
    tokens.unique_seq_to_set();
    lemma_tokens_below(bound);
    assert(holders.subset_of(tokens_below(bound))) by {
        assert forall|token: u64| holders.contains(token) implies tokens_below(bound).contains(token) by {
            let i = choose|i: int| 0 <= i < tokens.len() && tokens[i] == token;
            assert(!(slot_at(slots, tokens[i]) is Free));
        }
    }
    lemma_len_subset(holders, tokens_below(bound));
    if tokens.len() == slots.len() && has_free(slots) {
        let free = choose|i: int| 0 <= i < slots.len() && slots[i] is Free;
        let rest = tokens_below(bound).remove(free as u64);
        assert(holders.subset_of(rest)) by {
            assert forall|token: u64| holders.contains(token) implies rest.contains(token) by {
                let i = choose|i: int| 0 <= i < tokens.len() && tokens[i] == token;
                assert(!(slot_at(slots, tokens[i]) is Free));
            }
        }
        lemma_len_subset(holders, rest);
    }
}

/// A full table delays. Where every slot is taken, the poll of an operation
/// that has not started asks for another poll and changes nothing: the
/// operation can start as soon as a slot is free.
pub proof fn lemma_full_table_delays(request: Request, slots: Seq<Slot>, next: Stage, after: Seq<Slot>, action: Action)
    requires
        !has_free(slots),
        step(Stage::Unsubmitted, request, slots, Event::Polled, next, after, action),
    ensures
        action == Action::Wake,
        next == Stage::Unsubmitted,
        after == slots,
{
}

/// No request is lost. A refusal by the submission queue asks for another poll
/// and changes nothing, and that poll offers the same submission again.
pub proof fn lemma_refused_is_offered_again(
    request: Request,
    token: u64,
    slots: Seq<Slot>,
    next: Stage,
    after: Seq<Slot>,
    action: Action,
    slots_then: Seq<Slot>,
    next_then: Stage,
    after_then: Seq<Slot>,
    action_then: Action,
)
    requires
        step(Stage::Queued(token), request, slots, Event::Pushed(false), next, after, action),
        step(next, request, slots_then, Event::Polled, next_then, after_then, action_then),
    ensures
        action == Action::Wake,
        next == Stage::Queued(token),
        after == slots,
        action_then == Action::Push(submission_of(request, token)),
        next_then == Stage::Queued(token),
        after_then == slots_then,
{
}

/// A new request gets a slot of its own. The token that a starting operation
/// is given names a slot that was free, so it differs from the token of every
/// slot that is taken, and no other slot changes.
pub proof fn lemma_token_is_fresh(
    request: Request,
    slots: Seq<Slot>,
    next: Stage,
    after: Seq<Slot>,
    action: Action,
    other: u64,
)
    requires
        step(Stage::Unsubmitted, request, slots, Event::Polled, next, after, action),
        next is Queued,
    ensures
        slot_at(slots, next->Queued_0) is Free,
        slot_at(after, next->Queued_0) is Waiting,
        !(slot_at(slots, other) is Free) ==> other != next->Queued_0,
        other != next->Queued_0 ==> slot_at(after, other) == slot_at(slots, other),
{
}

/// The result is the kernel's. An operation in flight that is told of
/// completions for its token ends at once, with what the result code of the last
/// of them means: that many bytes where the code is not negative, else the error
/// whose code is the code's magnitude. Its slot is free again.
pub proof fn lemma_completion_resolves(
    request: Request,
    token: u64,
    slots: Seq<Slot>,
    events: Vec<Completion>,
    last: int,
    next: Stage,
    after: Seq<Slot>,
    action: Action,
)
    requires
        owned(slot_at(slots, token)),
        0 <= last < events@.len(),
        events@[last].user_data == token,
        forall|i: int| last < i < events@.len() ==> events@[i].user_data != token,
        step(Stage::Submitted(token), request, slots, Event::Drained(Ok(events)), next, after, action),
    ensures
        next == Stage::Resolved,
        action == Action::Resolve(outcome_of(events@[last].result)),
        events@[last].result >= 0 ==> action == Action::Resolve(Ok(events@[last].result as usize)),
        events@[last].result < 0 ==> action == Action::Resolve(
            Err(IoError { code: (-events@[last].result) as u32 }),
        ),
        slot_at(after, token) is Free,
{
    lemma_drained_delivers(slots, events@, token, last);
    lemma_drained_len(slots, events@);
}

/// No result comes from nowhere. An operation in flight that waits for its
/// completion, and is told of none for its token, asks for another poll and
/// goes on waiting.
pub proof fn lemma_waits_for_its_completion(
    request: Request,
    token: u64,
    slots: Seq<Slot>,
    events: Vec<Completion>,
    next: Stage,
    after: Seq<Slot>,
    action: Action,
)
    requires
        slot_at(slots, token) is Waiting,
        forall|i: int| 0 <= i < events@.len() ==> events@[i].user_data != token,
        step(Stage::Submitted(token), request, slots, Event::Drained(Ok(events)), next, after, action),
    ensures
        next == Stage::Submitted(token),
        action == Action::Wake,
        slot_at(after, token) is Waiting,
{
    lemma_drained_elsewhere(slots, events@, token);
}

/// A result is given once. An operation that has read its result stays where
/// it is: no step takes anything from the table for it or gives a byte count
/// again, and the only thing it still reports is a flush that failed.
pub proof fn lemma_resolved_is_final(
    request: Request,
    slots: Seq<Slot>,
    event: Event,
    next: Stage,
    after: Seq<Slot>,
    action: Action,
)
    requires
        step(Stage::Resolved, request, slots, event, next, after, action),
    ensures
        next == Stage::Resolved,
        match event {
            Event::Drained(Ok(events)) => after == drained(slots, events@) && action == Action::Wake,
            Event::Drained(Err(error)) => after == slots && action == Action::Resolve(Err(error)),
            _ => after == slots && action == Action::Wake,
        },
{
}

/// An empty destination asks for nothing. The request for it has length 0, and
/// the result code 0, which is how the kernel answers it, means that 0 bytes
/// were read.
pub proof fn lemma_empty_read(request: Request, token: u64)
    requires
        request.len == 0,
    ensures
        submission_of(request, token).len == 0,
        outcome_of(0) == Ok::<usize, IoError>(0),
{
}

} // verus!
