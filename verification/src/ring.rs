//! The ring's table of completion slots.
//!
//! A request in flight is known to the kernel by a token: the index of the
//! slot that waits for its completion. The table has one slot for each request
//! that the ring was sized for, and a slot is free again only once nothing can
//! arrive for it any more.

use crate::buffer::{AsIoVec, AsIoVecMut};
use crate::read::{ReadComplection, Stage};
use crate::wire::{Completion, IoError};
use vstd::prelude::*;

verus! {

/// What one slot of the table holds.
#[derive(Clone, Copy, Debug, PartialEq, Eq, Structural)]
pub enum Slot {
    /// No operation owns the slot.
    Free,
    /// An operation owns the slot and no completion has arrived for it.
    Waiting,
    /// The completion has arrived with this result code; its operation has not
    /// read it yet.
    Done(i32),
    /// The operation gave the slot up while its request was in flight: the slot
    /// stays taken until the completion arrives.
    Orphaned,
}

/// The slot that `token` names in `slots`; a token beyond the table names no
/// slot, which reads as a free one.
pub open spec fn slot_at(slots: Seq<Slot>, token: u64) -> Slot {
    if token < slots.len() {
        slots[token as int]
    } else {
        Slot::Free
    }
}

/// Whether an operation owns the slot: it waits for a result or holds one.
pub open spec fn owned(slot: Slot) -> bool {
    slot is Waiting || slot is Done
}

/// Whether a request can still be taken in.
pub open spec fn has_free(slots: Seq<Slot>) -> bool {
    exists|i: int| 0 <= i < slots.len() && slots[i] is Free
}

/// Whether `token` names the free slot of lowest index, which is the one that
/// the next request gets.
pub open spec fn is_first_free(slots: Seq<Slot>, token: u64) -> bool {
    &&& token < slots.len()
    &&& slots[token as int] is Free
    &&& forall|i: int| 0 <= i < token ==> !(slots[i] is Free)
}

/// The table after one completion has been delivered: the result lands in the
/// slot that the token names, an orphaned slot becomes free, and a completion
/// for a free slot or for no slot changes nothing.
pub open spec fn deposited(slots: Seq<Slot>, event: Completion) -> Seq<Slot> {
    match slot_at(slots, event.user_data) {
        Slot::Free => slots,
        Slot::Waiting | Slot::Done(_) => slots.update(event.user_data as int, Slot::Done(event.result)),
        Slot::Orphaned => slots.update(event.user_data as int, Slot::Free),
    }
}

/// The table after each of `events` has been delivered, first to last.
pub open spec fn drained(slots: Seq<Slot>, events: Seq<Completion>) -> Seq<Slot>
    decreases events.len(),
{
    if events.len() == 0 {
        slots
    } else {
        deposited(drained(slots, events.drop_last()), events.last())
    }
}

/// The table after the owner of `token` has read its result: a slot that
/// holds one becomes free.
pub open spec fn taken(slots: Seq<Slot>, token: u64) -> Seq<Slot> {
    match slot_at(slots, token) {
        Slot::Done(_) => slots.update(token as int, Slot::Free),
        _ => slots,
    }
}

/// The table after the owner of `token` has given the slot up before its
/// request reached the kernel.
pub open spec fn released(slots: Seq<Slot>, token: u64) -> Seq<Slot> {
    match slot_at(slots, token) {
        Slot::Waiting | Slot::Done(_) => slots.update(token as int, Slot::Free),
        _ => slots,
    }
}

/// The table after the owner of `token` has given the slot up with its request
/// in flight: the slot is kept for the completion still to come, and is free
/// where that has come already.
pub open spec fn abandoned(slots: Seq<Slot>, token: u64) -> Seq<Slot> {
    match slot_at(slots, token) {
        Slot::Waiting => slots.update(token as int, Slot::Orphaned),
        Slot::Done(_) => slots.update(token as int, Slot::Free),
        _ => slots,
    }
}

/// Whether one of `events` is for `token`.
pub open spec fn names(events: Seq<Completion>, token: u64) -> bool {
    exists|i: int| 0 <= i < events.len() && events[i].user_data == token
}

/// A drain neither adds a slot to the table nor removes one.
pub proof fn lemma_drained_len(slots: Seq<Slot>, events: Seq<Completion>)
    ensures
        drained(slots, events).len() == slots.len(),
    decreases events.len(),
{
    if events.len() > 0 {
        lemma_drained_len(slots, events.drop_last());
    }
}

/// A drain leaves alone every slot that none of its completions names.
pub proof fn lemma_drained_elsewhere(slots: Seq<Slot>, events: Seq<Completion>, token: u64)
    requires
        forall|i: int| 0 <= i < events.len() ==> events[i].user_data != token,
    ensures
        slot_at(drained(slots, events), token) == slot_at(slots, token),
    decreases events.len(),
{
    if events.len() > 0 {
        lemma_drained_elsewhere(slots, events.drop_last(), token);
        lemma_drained_len(slots, events.drop_last());
    }
}

/// A drain takes no slot from its owner and gives no free slot away: a slot
/// that an operation owns is still that operation's afterwards, and a free slot
/// is still free.
pub proof fn lemma_drained_keeps_owner(slots: Seq<Slot>, events: Seq<Completion>, token: u64)
    ensures
        owned(slot_at(slots, token)) ==> owned(slot_at(drained(slots, events), token)),
        slot_at(slots, token) is Free ==> slot_at(drained(slots, events), token) is Free,
    decreases events.len(),
{
    if events.len() > 0 {
        lemma_drained_keeps_owner(slots, events.drop_last(), token);
        lemma_drained_len(slots, events.drop_last());
    }
}

/// What a drain does to one slot. A slot that no completion names stays as it
/// is. One that a completion names holds a result afterwards where an operation
/// owns it, and is free afterwards where none does.
pub proof fn lemma_drained_slot(slots: Seq<Slot>, events: Seq<Completion>, token: u64)
    ensures
        !names(events, token) ==> slot_at(drained(slots, events), token) == slot_at(slots, token),
        names(events, token) && owned(slot_at(slots, token)) ==> slot_at(drained(slots, events), token) is Done,
        names(events, token) && !owned(slot_at(slots, token)) ==> slot_at(drained(slots, events), token) is Free,
    decreases events.len(),
{
    if events.len() > 0 {
        let earlier = events.drop_last();
        lemma_drained_slot(slots, earlier, token);
        lemma_drained_len(slots, earlier);
        if names(earlier, token) {
            let i = choose|i: int| 0 <= i < earlier.len() && earlier[i].user_data == token;
            assert(events[i].user_data == token);
        }
        if names(events, token) && events.last().user_data != token {
            let i = choose|i: int| 0 <= i < events.len() && events[i].user_data == token;
            assert(earlier[i].user_data == token);
        }
    }
}

/// A drain delivers: where completions name a slot that an operation owns,
/// the slot then holds the result of the last of them.
pub proof fn lemma_drained_delivers(slots: Seq<Slot>, events: Seq<Completion>, token: u64, last: int)
    requires
        owned(slot_at(slots, token)),
        0 <= last < events.len(),
        events[last].user_data == token,
        forall|i: int| last < i < events.len() ==> events[i].user_data != token,
    ensures
        slot_at(drained(slots, events), token) == Slot::Done(events[last].result),
    decreases events.len(),
{
    let earlier = events.drop_last();
    lemma_drained_len(slots, earlier);
    if last == events.len() - 1 {
        lemma_drained_keeps_owner(slots, earlier, token);
    } else {
        lemma_drained_delivers(slots, earlier, token, last);
    }
}

/// The library's side of one completion ring: the slots of the requests that
/// the ring was sized for. Its view is the table, one entry per slot.
pub struct Ring {
    entries: u32,
    slots: Vec<Slot>,
}

impl View for Ring {
    type V = Seq<Slot>;

    closed spec fn view(&self) -> Seq<Slot> {
        Seq::new(
            self.entries as nat,
            |i: int|
                if i < self.slots.len() {
                    self.slots[i]
                } else {
                    Slot::Free
                },
        )
    }
}

impl Ring {
    #[verifier::type_invariant]
    spec fn well_formed(&self) -> bool {
        self.slots.len() <= self.entries
    }

    /// A ring sized for `entries` requests in flight, with every slot free.
    pub fn new(entries: u32) -> (ring: Ring)
        ensures
            ring@ == Seq::new(entries as nat, |i: int| Slot::Free),
    {
        Ring { entries, slots: Vec::new() }
    }

    /// The number of requests that the ring was sized for.
    pub fn entries(&self) -> (entries: u32)
        ensures
            entries == self@.len(),
    {
        self.entries
    }

    /// Asks for a read from `fd`, starting at `offset` in the file, into `buf`.
    /// Nothing is done for the operation before its first poll: the table and
    /// the buffer are as they were.
    pub fn read_at<B: AsIoVec + AsIoVecMut + ?Sized>(
        &self,
        fd: i32,
        buf: &mut B,
        offset: u64,
    ) -> (operation: ReadComplection)
        ensures
            operation.stage() == Stage::Unsubmitted,
            operation.request().fd == fd,
            operation.request().len == old(buf).region().len(),
            operation.request().offset == offset,
            final(buf).region() == old(buf).region(),
    {
        ReadComplection::new(fd, &*buf, offset)
    }

    /// What the slot of `token` holds.
    pub fn slot(&self, token: u64) -> (slot: Slot)
        ensures
            slot == slot_at(self@, token),
    {
        proof {
            use_type_invariant(self);
        }
        if token < self.slots.len() as u64 {
            self.slots[token as usize]
        } else {
            Slot::Free
        }
    }

    /// Writes `slot` at `index`.
    fn put(&mut self, index: usize, slot: Slot)
        requires
            index < old(self).slots.len(),
        ensures
            final(self)@ == old(self)@.update(index as int, slot),
            final(self).slots.len() == old(self).slots.len(),
    {
        proof {
            use_type_invariant(&*self);
        }
        self.slots[index] = slot;
    }

    /// Takes a free slot for a new request and returns its token; `None` where
    /// no slot is free.
    pub(crate) fn reserve(&mut self) -> (token: Option<u64>)
        ensures
            match token {
                Some(t) => {
                    &&& is_first_free(old(self)@, t)
                    &&& final(self)@ == old(self)@.update(t as int, Slot::Waiting)
                },
                None => final(self)@ == old(self)@ && !has_free(old(self)@),
            },
    {
        proof {
            use_type_invariant(&*self);
        }
        let mut index: usize = 0;
        while index < self.slots.len()
            invariant
                index <= self.slots.len(),
                self.slots.len() <= self.entries,
                *self == *old(self),
                forall|i: int| 0 <= i < index ==> !(self.slots[i] is Free),
            decreases self.slots.len() - index,
        {
            if let Slot::Free = self.slots[index] {
                self.put(index, Slot::Waiting);
                return Some(index as u64);
            }
            index += 1;
        }
        if self.slots.len() < self.entries as usize {
            // The vector grows outside the ring, so that the ring is whole
            // wherever the push could unwind.
            let mut slots: Vec<Slot> = Vec::new();
            std::mem::swap(&mut self.slots, &mut slots);
            slots.push(Slot::Waiting);
            std::mem::swap(&mut self.slots, &mut slots);
            Some(index as u64)
        } else {
            None
        }
    }
    /// Delivers one completion.
    fn deposit(&mut self, event: Completion)
        ensures
            final(self)@ == deposited(old(self)@, event),
    {
        proof {
            use_type_invariant(&*self);
        }
        if event.user_data < self.slots.len() as u64 {
            let index = event.user_data as usize;
            match self.slots[index] {
                Slot::Free => {},
                Slot::Waiting | Slot::Done(_) => self.put(index, Slot::Done(event.result)),
                Slot::Orphaned => self.put(index, Slot::Free),
            }
        }
    }

    /// Ends one flush of the ring: `flushed` is what the flush gave, the
    /// completions that were then drained from the kernel or the error that
    /// stopped it. Each completion is delivered to its slot, in order; after a
    /// failed flush the table is as it was and the error is handed on.
    pub fn submit(&mut self, flushed: Result<Vec<Completion>, IoError>) -> (ended: Result<(), IoError>)
        ensures
            match flushed {
                Ok(events) => ended is Ok && final(self)@ == drained(old(self)@, events@),
                Err(error) => ended == Err::<(), IoError>(error) && final(self)@ == old(self)@,
            },
    {
        match flushed {
            Err(error) => Err(error),
            Ok(events) => {
                let mut count: usize = 0;
                while count < events.len()
                    invariant
                        count <= events.len(),
                        self@ == drained(old(self)@, events@.take(count as int)),
                    decreases events.len() - count,
                {
                    self.deposit(events[count]);
                    proof {
                        let seen = events@.take(count + 1);
                        assert(seen.drop_last() =~= events@.take(count as int));
                    }
                    count += 1;
                }
                proof {
                    assert(events@.take(count as int) =~= events@);
                }
                Ok(())
            },
        }
    }

    /// Reads the result that waits in the slot of `token` and frees the slot;
    /// `None`, and nothing changes, where no result waits there.
    pub(crate) fn take(&mut self, token: u64) -> (result: Option<i32>)
        ensures
            final(self)@ == taken(old(self)@, token),
            match slot_at(old(self)@, token) {
                Slot::Done(code) => result == Some(code),
                _ => result is None,
            },
    {
        proof {
            use_type_invariant(&*self);
        }
        if token < self.slots.len() as u64 {
            let index = token as usize;
            if let Slot::Done(code) = self.slots[index] {
                self.put(index, Slot::Free);
                return Some(code);
            }
        }
        None
    }

    /// Gives up the slot of `token`, whose request never reached the kernel.
    pub(crate) fn release(&mut self, token: u64)
        ensures
            final(self)@ == released(old(self)@, token),
    {
        proof {
            use_type_invariant(&*self);
        }
        if token < self.slots.len() as u64 {
            let index = token as usize;
            match self.slots[index] {
                Slot::Waiting | Slot::Done(_) => self.put(index, Slot::Free),
                _ => {},
            }
        }
    }

    /// Gives up the slot of `token`, whose request is in flight.
    pub(crate) fn abandon(&mut self, token: u64)
        ensures
            final(self)@ == abandoned(old(self)@, token),
    {
        proof {
            use_type_invariant(&*self);
        }
        if token < self.slots.len() as u64 {
            let index = token as usize;
            match self.slots[index] {
                Slot::Waiting => self.put(index, Slot::Orphaned),
                Slot::Done(_) => self.put(index, Slot::Free),
                _ => {},
            }
        }
    }
}

} // verus!
