//! How the table, the operations and the kernel fit together.
//!
//! A [`World`] is a ring as a whole: its table, the operations that were asked
//! of it, and the requests that the kernel holds. The operations of the library
//! keep every world consistent, whatever the order in which they are called and
//! whatever the kernel answers: each request in flight has a slot of its own,
//! which its operation waits at or which stays taken after the operation was
//! abandoned, and no completion can arrive for a slot that is free or that holds
//! a result.

use crate::read::{given_up, orphan_of, step, Action, Event, Stage};
use crate::ring::{
    drained, lemma_drained_delivers, lemma_drained_elsewhere, lemma_drained_len, lemma_drained_slot, names, owned,
    slot_at, Slot,
};
use crate::wire::{outcome_of, Completion, Request};
use vstd::prelude::*;

verus! {

/// The token of the slot that an operation at `stage` owns.
pub open spec fn token_of(stage: Stage) -> Option<u64> {
    match stage {
        Stage::Queued(token) | Stage::Submitted(token) => Some(token),
        _ => None,
    }
}

/// A ring as a whole.
pub struct World {
    /// The table.
    pub slots: Seq<Slot>,
    /// The stage of each operation that was asked of the ring.
    pub stages: Seq<Stage>,
    /// The tokens of the requests that the submission queue has accepted and
    /// whose completions have not been drained.
    pub in_flight: Set<u64>,
}

impl World {
    /// Whether operation `op` owns the slot of `token`.
    pub open spec fn owns(self, op: int, token: u64) -> bool {
        0 <= op < self.stages.len() && token_of(self.stages[op]) == Some(token)
    }

    /// Whether operation `op` and its slot agree: an operation whose request
    /// was not accepted waits at a slot for which nothing is in flight, and an
    /// operation in flight waits at its slot until the completion has come.
    pub open spec fn fits(self, op: int) -> bool {
        match self.stages[op] {
            Stage::Queued(token) => slot_at(self.slots, token) is Waiting && !self.in_flight.contains(token),
            Stage::Submitted(token) => match slot_at(self.slots, token) {
                Slot::Waiting => self.in_flight.contains(token),
                Slot::Done(_) => !self.in_flight.contains(token),
                _ => false,
            },
            _ => true,
        }
    }

    /// Whether a slot and the kernel agree: a slot with an owner has one, a
    /// slot without an owner is taken exactly as long as a request is in flight
    /// for it.
    pub open spec fn accounted(self, token: u64) -> bool {
        match slot_at(self.slots, token) {
            Slot::Free => !self.in_flight.contains(token),
            Slot::Waiting => exists|op: int| self.owns(op, token),
            Slot::Done(_) => !self.in_flight.contains(token) && exists|op: int| self.owns(op, token),
            Slot::Orphaned => self.in_flight.contains(token),
        }
    }

    /// Whether the world is consistent: every operation fits its slot, no two
    /// operations own one slot, and every slot is accounted for.
    pub open spec fn consistent(self) -> bool {
        &&& forall|op: int| 0 <= op < self.stages.len() ==> #[trigger] self.fits(op)
        &&& forall|op: int, other: int, token: u64|
            #![trigger self.owns(op, token), self.owns(other, token)]
            self.owns(op, token) && self.owns(other, token) ==> op == other
        &&& forall|token: u64| #[trigger] self.accounted(token)
    }

    /// A new ring of `entries` slots, of which nothing was asked yet.
    pub open spec fn start(entries: nat) -> World {
        World {
            slots: Seq::new(entries, |i: int| Slot::Free),
            stages: Seq::empty(),
            in_flight: Set::empty(),
        }
    }

    /// The world after a read was asked of the ring.
    pub open spec fn asked(self) -> World {
        World { stages: self.stages.push(Stage::Unsubmitted), ..self }
    }

    /// The requests in flight after an operation at `stage` was told `event`:
    /// an accepted request is in flight, and a request whose completion was
    /// drained is not.
    pub open spec fn in_flight_after(self, stage: Stage, event: Event) -> Set<u64> {
        match event {
            Event::Pushed(accepted) => match stage {
                Stage::Queued(token) => if accepted {
                    self.in_flight.insert(token)
                } else {
                    self.in_flight
                },
                _ => self.in_flight,
            },
            Event::Drained(Ok(events)) => self.swept(events@).in_flight,
            _ => self.in_flight,
        }
    }

    /// The world after operation `op` took a step on `event` that left it at
    /// `next` and the table as `after`.
    pub open spec fn stepped(self, op: int, event: Event, next: Stage, after: Seq<Slot>) -> World {
        World {
            slots: after,
            stages: self.stages.update(op, next),
            in_flight: self.in_flight_after(self.stages[op], event),
        }
    }

    /// The world after operation `op` was abandoned.
    pub open spec fn dropped(self, op: int) -> World {
        World {
            slots: given_up(self.slots, self.stages[op]),
            stages: self.stages.update(op, Stage::Resolved),
            ..self
        }
    }

    /// The world after `events` were drained with no operation polled.
    pub open spec fn swept(self, events: Seq<Completion>) -> World {
        World {
            slots: drained(self.slots, events),
            in_flight: Set::new(|token: u64| self.in_flight.contains(token) && !names(events, token)),
            ..self
        }
    }

    /// Whether the kernel can have posted `events`: each answers a request
    /// that is in flight.
    pub open spec fn can_post(self, events: Seq<Completion>) -> bool {
        forall|i: int| 0 <= i < events.len() ==> self.in_flight.contains(#[trigger] events[i].user_data)
    }
}

/// A new ring is consistent.
pub proof fn lemma_start_is_consistent(entries: nat)
    ensures
        World::start(entries).consistent(),
{
    let world = World::start(entries);
    assert forall|token: u64| #[trigger] world.accounted(token) by {
        assert(slot_at(world.slots, token) is Free);
    }
}

/// Asking for a read keeps the world consistent.
pub proof fn lemma_asking_keeps_consistent(world: World)
    requires
        world.consistent(),
    ensures
        world.asked().consistent(),
{
    let then = world.asked();
    assert forall|op: int| 0 <= op < then.stages.len() implies #[trigger] then.fits(op) by {
        if op < world.stages.len() {
            assert(world.fits(op));
        }
    }
    assert forall|op: int, other: int, token: u64|
        #![trigger then.owns(op, token), then.owns(other, token)]
        then.owns(op, token) && then.owns(other, token) implies op == other by {
        assert(world.owns(op, token) && world.owns(other, token));
    }
    assert forall|token: u64| #[trigger] then.accounted(token) by {
        assert(world.accounted(token));
        if owned(slot_at(world.slots, token)) {
            let op = choose|op: int| world.owns(op, token);
            assert(then.owns(op, token));
        }
    }
}

/// Draining keeps the world consistent: each completion that the kernel can
/// have posted lands where its request is waited for.
pub proof fn lemma_sweeping_keeps_consistent(world: World, events: Seq<Completion>)
    requires
        world.consistent(),
        world.can_post(events),
    ensures
        world.swept(events).consistent(),
{
    let then = world.swept(events);
    lemma_drained_len(world.slots, events);
    assert forall|token: u64| names(events, token) implies world.in_flight.contains(token) by {
        let i = choose|i: int| 0 <= i < events.len() && events[i].user_data == token;
        assert(world.in_flight.contains(events[i].user_data));
    }
    assert forall|op: int| 0 <= op < then.stages.len() implies #[trigger] then.fits(op) by {
        assert(world.fits(op));
        if let Some(token) = token_of(world.stages[op]) {
            lemma_drained_slot(world.slots, events, token);
        }
    }
    assert forall|op: int, other: int, token: u64|
        #![trigger then.owns(op, token), then.owns(other, token)]
        then.owns(op, token) && then.owns(other, token) implies op == other by {
        assert(world.owns(op, token) && world.owns(other, token));
    }
    assert forall|token: u64| #[trigger] then.accounted(token) by {
        assert(world.accounted(token));
        lemma_drained_slot(world.slots, events, token);
        if owned(slot_at(world.slots, token)) {
            let op = choose|op: int| world.owns(op, token);
            assert(then.owns(op, token));
        }
    }
}

/// A change to one operation and to the slot of one token keeps the world
/// consistent where the operation owned that token or none before, owns that
/// token or none afterwards, and is left in order together with the slot.
proof fn lemma_moving_one_keeps_consistent(world: World, then: World, op: int, token: u64)
    requires
        world.consistent(),
        0 <= op < world.stages.len(),
        then.stages == world.stages.update(op, then.stages[op]),
        forall|other: u64|
            other != token ==> slot_at(then.slots, other) == slot_at(world.slots, other) && (
            then.in_flight.contains(other) <==> world.in_flight.contains(other)),
        token_of(world.stages[op]) is Some ==> token_of(world.stages[op]) == Some(token),
        token_of(world.stages[op]) is None ==> !owned(slot_at(world.slots, token)),
        token_of(then.stages[op]) is Some ==> token_of(then.stages[op]) == Some(token),
        then.fits(op),
        then.accounted(token),
    ensures
        then.consistent(),
{
    assert forall|other: int| 0 <= other < then.stages.len() implies #[trigger] then.fits(other) by {
        assert(world.fits(other));
        if other != op && token_of(world.stages[other]) == Some(token) {
            assert(world.owns(other, token));
            assert(world.owns(op, token));
        }
    }
    assert forall|one: int, other: int, named: u64|
        #![trigger then.owns(one, named), then.owns(other, named)]
        then.owns(one, named) && then.owns(other, named) implies one == other by {
        if one != op {
            assert(world.owns(one, named));
            assert(world.fits(one));
        }
        if other != op {
            assert(world.owns(other, named));
            assert(world.fits(other));
        }
        if token_of(world.stages[op]) is Some {
            assert(world.owns(op, token));
        }
    }
    assert forall|named: u64| #[trigger] then.accounted(named) by {
        assert(world.accounted(named));
        if named != token && owned(slot_at(world.slots, named)) {
            let owner = choose|owner: int| world.owns(owner, named);
            assert(then.owns(owner, named));
        }
    }
}

/// Abandoning an operation keeps the world consistent.
pub proof fn lemma_dropping_keeps_consistent(world: World, op: int)
    requires
        world.consistent(),
        0 <= op < world.stages.len(),
    ensures
        world.dropped(op).consistent(),
{
    let then = world.dropped(op);
    assert(world.fits(op));
    match token_of(world.stages[op]) {
        Some(token) => lemma_moving_one_keeps_consistent(world, then, op, token),
        None => {
            assert forall|other: int| 0 <= other < then.stages.len() implies #[trigger] then.fits(other) by {
                assert(world.fits(other));
            }
            assert forall|one: int, other: int, token: u64|
                #![trigger then.owns(one, token), then.owns(other, token)]
                then.owns(one, token) && then.owns(other, token) implies one == other by {
                assert(world.owns(one, token) && world.owns(other, token));
            }
            assert forall|token: u64| #[trigger] then.accounted(token) by {
                assert(world.accounted(token));
                if owned(slot_at(world.slots, token)) {
                    let owner = choose|owner: int| world.owns(owner, token);
                    assert(then.owns(owner, token));
                }
            }
        },
    }
}

/// A step of the protocol keeps the world consistent, whichever operation
/// takes it and whatever it is told, as long as the completions it is told of
/// are ones that the kernel can have posted.
pub proof fn lemma_step_keeps_consistent(
    world: World,
    op: int,
    request: Request,
    event: Event,
    next: Stage,
    after: Seq<Slot>,
    action: Action,
)
    requires
        world.consistent(),
        0 <= op < world.stages.len(),
        step(world.stages[op], request, world.slots, event, next, after, action),
        event matches Event::Drained(Ok(events)) ==> world.can_post(events@),
    ensures
        world.stepped(op, event, next, after).consistent(),
{
    let then = world.stepped(op, event, next, after);
    let stage = world.stages[op];
    assert(world.fits(op));
    match event {
        Event::Drained(Ok(events)) => {
            let swept = world.swept(events@);
            lemma_sweeping_keeps_consistent(world, events@);
            lemma_drained_len(world.slots, events@);
            assert(swept.fits(op));
            if next == stage {
                assert(then.stages =~= swept.stages);
            } else {
                lemma_moving_one_keeps_consistent(swept, then, op, stage->Submitted_0);
            }
        },
        _ => {
            if next == stage {
                assert(then.stages =~= world.stages);
            } else {
                let token = token_of(next)->Some_0;
                assert(world.accounted(token));
                assert(then.owns(op, token));
                lemma_moving_one_keeps_consistent(world, then, op, token);
            }
        },
    }
}

/// One thing that happens to a ring.
pub enum Change {
    /// A read is asked of the ring.
    Asked,
    /// Operation `op`, which reads `request`, takes a step of the protocol on
    /// `event`, which leaves it at `next` and the table as `after`.
    Stepped { op: int, request: Request, event: Event, next: Stage, after: Seq<Slot>, action: Action },
    /// Operation `op` is abandoned.
    Dropped { op: int },
    /// `events` are drained with no operation polled.
    Swept { events: Seq<Completion> },
}

impl World {
    /// Whether `change` can happen in this world.
    pub open spec fn allows(self, change: Change) -> bool {
        match change {
            Change::Asked => true,
            Change::Stepped { op, request, event, next, after, action } => {
                &&& 0 <= op < self.stages.len()
                &&& step(self.stages[op], request, self.slots, event, next, after, action)
                &&& event matches Event::Drained(Ok(events)) ==> self.can_post(events@)
            },
            Change::Dropped { op } => 0 <= op < self.stages.len(),
            Change::Swept { events } => self.can_post(events),
        }
    }

    /// The world after `change`.
    pub open spec fn changed(self, change: Change) -> World {
        match change {
            Change::Asked => self.asked(),
            Change::Stepped { op, request, event, next, after, action } => self.stepped(op, event, next, after),
            Change::Dropped { op } => self.dropped(op),
            Change::Swept { events } => self.swept(events),
        }
    }

    /// The world that a new ring of `entries` slots has come to after
    /// `changes`, first to last.
    pub open spec fn after(entries: nat, changes: Seq<Change>) -> World
        decreases changes.len(),
    {
        if changes.len() == 0 {
            World::start(entries)
        } else {
            World::after(entries, changes.drop_last()).changed(changes.last())
        }
    }

    /// Whether `changes` can happen, one after the other, to a new ring of
    /// `entries` slots.
    pub open spec fn possible(entries: nat, changes: Seq<Change>) -> bool
        decreases changes.len(),
    {
        changes.len() > 0 ==> {
            &&& World::possible(entries, changes.drop_last())
            &&& World::after(entries, changes.drop_last()).allows(changes.last())
        }
    }
}

/// Every world that a ring can come to is consistent.
pub proof fn lemma_every_world_is_consistent(entries: nat, changes: Seq<Change>)
    requires
        World::possible(entries, changes),
    ensures
        World::after(entries, changes).consistent(),
    decreases changes.len(),
{
    if changes.len() == 0 {
        lemma_start_is_consistent(entries);
    } else {
        let before = World::after(entries, changes.drop_last());
        lemma_every_world_is_consistent(entries, changes.drop_last());
        match changes.last() {
            Change::Asked => lemma_asking_keeps_consistent(before),
            Change::Stepped { op, request, event, next, after, action } => lemma_step_keeps_consistent(
                before,
                op,
                request,
                event,
                next,
                after,
                action,
            ),
            Change::Dropped { op } => lemma_dropping_keeps_consistent(before, op),
            Change::Swept { events } => lemma_sweeping_keeps_consistent(before, events),
        }
    }
}

/// Each operation has a slot of its own: two operations that own slots own
/// different ones, and each waits at its slot or finds its result there.
pub proof fn lemma_one_slot_each(world: World, op: int, other: int)
    requires
        world.consistent(),
        0 <= op < world.stages.len(),
        0 <= other < world.stages.len(),
        op != other,
        token_of(world.stages[op]) is Some,
    ensures
        token_of(world.stages[op]) != token_of(world.stages[other]),
        owned(slot_at(world.slots, token_of(world.stages[op])->Some_0)),
{
    let token = token_of(world.stages[op])->Some_0;
    assert(world.fits(op));
    assert(world.owns(op, token));
    if token_of(world.stages[other]) == Some(token) {
        assert(world.owns(other, token));
    }
}

/// Each completion finds its operation. The slot of a request in flight is
/// the slot at which the one operation that submitted the request waits, or it
/// is a slot that stays taken for an operation that was abandoned; in no case
/// is it free, or another operation's, or one that holds a result already.
pub proof fn lemma_completion_finds_its_operation(world: World, token: u64)
    requires
        world.consistent(),
        world.in_flight.contains(token),
    ensures
        slot_at(world.slots, token) is Waiting || slot_at(world.slots, token) is Orphaned,
        slot_at(world.slots, token) is Waiting ==> exists|op: int|
            0 <= op < world.stages.len() && world.stages[op] == Stage::Submitted(token),
        slot_at(world.slots, token) is Orphaned ==> forall|op: int|
            0 <= op < world.stages.len() ==> token_of(#[trigger] world.stages[op]) != Some(token),
        forall|op: int, other: int|
            #![trigger world.stages[op], world.stages[other]]
            0 <= op < world.stages.len() && 0 <= other < world.stages.len() && token_of(world.stages[op])
                == Some(token) && token_of(world.stages[other]) == Some(token) ==> op == other,
{
    assert(world.accounted(token));
    if slot_at(world.slots, token) is Waiting {
        let op = choose|op: int| world.owns(op, token);
        assert(world.fits(op));
    }
    assert forall|op: int| 0 <= op < world.stages.len() && slot_at(world.slots, token) is Orphaned implies token_of(
        #[trigger] world.stages[op],
    ) != Some(token) by {
        assert(world.fits(op));
    }
    assert forall|op: int, other: int|
        #![trigger world.stages[op], world.stages[other]]
        0 <= op < world.stages.len() && 0 <= other < world.stages.len() && token_of(world.stages[op]) == Some(
            token,
        ) && token_of(world.stages[other]) == Some(token) implies op == other by {
        assert(world.owns(op, token) && world.owns(other, token));
    }
}

/// No token is in flight twice. The token of a request that waits to be
/// accepted is the token of no request in flight, so the kernel never holds two
/// requests under one token.
pub proof fn lemma_no_token_twice(world: World, op: int, token: u64)
    requires
        world.consistent(),
        0 <= op < world.stages.len(),
        world.stages[op] == Stage::Queued(token),
    ensures
        !world.in_flight.contains(token),
{
    assert(world.fits(op));
}

/// Abandoning tells when the destination is the owner's again. Where it
/// reports nothing in flight, the kernel holds no request of the operation.
/// Where it reports a token, the request is in flight and its slot is orphaned;
/// and the first drain after which that slot is no longer orphaned has brought
/// the request's completion.
pub proof fn lemma_abandoning_is_safe(world: World, op: int, events: Seq<Completion>)
    requires
        world.consistent(),
        0 <= op < world.stages.len(),
        world.dropped(op).can_post(events),
    ensures
        match orphan_of(world.slots, world.stages[op]) {
            None => token_of(world.stages[op]) is Some ==> !world.in_flight.contains(
                token_of(world.stages[op])->Some_0,
            ),
            Some(token) => {
                &&& world.stages[op] == Stage::Submitted(token)
                &&& world.in_flight.contains(token)
                &&& slot_at(world.dropped(op).slots, token) is Orphaned
                &&& slot_at(world.dropped(op).swept(events).slots, token) is Orphaned
                    || !world.dropped(op).swept(events).in_flight.contains(token)
            },
        },
{
    assert(world.fits(op));
    if let Some(token) = orphan_of(world.slots, world.stages[op]) {
        lemma_dropping_keeps_consistent(world, op);
        lemma_sweeping_keeps_consistent(world.dropped(op), events);
        lemma_drained_slot(world.dropped(op).slots, events, token);
    }
}

/// No result waits longer than until its operation's next drain. Where the
/// drain of another operation has found the result, the operation ends with it
/// at its own next drain, whatever the kernel has posted by then.
pub proof fn lemma_found_result_resolves(
    world: World,
    op: int,
    request: Request,
    events: Vec<Completion>,
    next: Stage,
    after: Seq<Slot>,
    action: Action,
)
    requires
        world.consistent(),
        0 <= op < world.stages.len(),
        world.stages[op] is Submitted,
        slot_at(world.slots, world.stages[op]->Submitted_0) is Done,
        world.can_post(events@),
        step(world.stages[op], request, world.slots, Event::Drained(Ok(events)), next, after, action),
    ensures
        next == Stage::Resolved,
        action == Action::Resolve(outcome_of(slot_at(world.slots, world.stages[op]->Submitted_0)->Done_0)),
{
    let token = world.stages[op]->Submitted_0;
    assert(world.fits(op));
    assert forall|i: int| 0 <= i < events@.len() implies events@[i].user_data != token by {
        assert(world.in_flight.contains(events@[i].user_data));
    }
    lemma_drained_elsewhere(world.slots, events@, token);
}

/// Operations in flight do not disturb one another. When the drain of one
/// operation brings the completions of two, that operation ends with its own
/// result, and the other ends with its own at its next drain, whatever the
/// kernel posts in between.
pub proof fn lemma_reads_resolve_apart(
    world: World,
    op: int,
    request: Request,
    events: Vec<Completion>,
    last: int,
    next: Stage,
    after: Seq<Slot>,
    action: Action,
    other: int,
    other_request: Request,
    other_last: int,
    other_events: Vec<Completion>,
    other_next: Stage,
    other_after: Seq<Slot>,
    other_action: Action,
)
    requires
        world.consistent(),
        0 <= op < world.stages.len(),
        0 <= other < world.stages.len(),
        op != other,
        world.stages[op] is Submitted,
        world.stages[other] is Submitted,
        world.can_post(events@),
        0 <= last < events@.len(),
        events@[last].user_data == world.stages[op]->Submitted_0,
        forall|i: int| last < i < events@.len() ==> events@[i].user_data != world.stages[op]->Submitted_0,
        0 <= other_last < events@.len(),
        events@[other_last].user_data == world.stages[other]->Submitted_0,
        forall|i: int|
            other_last < i < events@.len() ==> events@[i].user_data != world.stages[other]->Submitted_0,
        step(world.stages[op], request, world.slots, Event::Drained(Ok(events)), next, after, action),
        world.stepped(op, Event::Drained(Ok(events)), next, after).can_post(other_events@),
        step(
            world.stages[other],
            other_request,
            after,
            Event::Drained(Ok(other_events)),
            other_next,
            other_after,
            other_action,
        ),
    ensures
        action == Action::Resolve(outcome_of(events@[last].result)),
        other_action == Action::Resolve(outcome_of(events@[other_last].result)),
{
    let token = world.stages[op]->Submitted_0;
    let other_token = world.stages[other]->Submitted_0;
    let then = world.stepped(op, Event::Drained(Ok(events)), next, after);
    lemma_one_slot_each(world, op, other);
    lemma_one_slot_each(world, other, op);
    lemma_drained_delivers(world.slots, events@, token, last);
    lemma_drained_delivers(world.slots, events@, other_token, other_last);
    lemma_drained_len(world.slots, events@);
    assert(!then.in_flight.contains(other_token));
    assert forall|i: int| 0 <= i < other_events@.len() implies other_events@[i].user_data != other_token by {
        assert(then.in_flight.contains(other_events@[i].user_data));
    }
    lemma_drained_elsewhere(after, other_events@, other_token);
}

} // verus!
