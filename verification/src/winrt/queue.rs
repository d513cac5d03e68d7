//! Queues of the Windows backend: one GATT procedure in flight at a time, and entries
//! handed out in the order of their sequence numbers.

use std::collections::VecDeque;

use vstd::prelude::*;

verus! {

/// The items of `items` whose decision is `keep`, in order.
pub open spec fn chosen<T>(items: Seq<T>, decisions: Seq<bool>, keep: bool) -> Seq<T>
    decreases items.len(),
{
    if items.len() == 0 || decisions.len() != items.len() {
        Seq::empty()
    } else if decisions.last() == keep {
        chosen(items.drop_last(), decisions.drop_last(), keep).push(items.last())
    } else {
        chosen(items.drop_last(), decisions.drop_last(), keep)
    }
}

/// A FIFO with at most one entry in flight.
pub struct ProcedureQueue<T> {
    waiting: VecDeque<T>,
    in_flight: Option<T>,
}

impl<T> Default for ProcedureQueue<T> {
    fn default() -> (queue: Self)
        ensures
            queue.waiting() == Seq::<T>::empty(),
            queue.current() is None,
    {
        let queue = ProcedureQueue { waiting: VecDeque::new(), in_flight: None };
        assert(queue.waiting() =~= Seq::<T>::empty());
        queue
    }
}

impl<T> ProcedureQueue<T> {
    /// The waiting entries, first to run first.
    pub closed spec fn waiting(&self) -> Seq<T> {
        self.waiting@
    }

    /// The entry in flight.
    pub closed spec fn current(&self) -> Option<T> {
        self.in_flight
    }

    pub fn push(&mut self, item: T)
        ensures
            final(self).waiting() == old(self).waiting().push(item),
            final(self).current() == old(self).current(),
    {
        self.waiting.push_back(item);
    }

    /// Queues `item` ahead of every waiting entry, to run right after the one in flight.
    pub fn push_front(&mut self, item: T)
        ensures
            final(self).waiting() == seq![item] + old(self).waiting(),
            final(self).current() == old(self).current(),
    {
        self.waiting.push_front(item);
        assert(self.waiting() =~= seq![item] + old(self).waiting());
    }

    /// Moves the next waiting entry in flight when none is, and returns it.
    pub fn start_next(&mut self) -> (started: Option<&T>)
        ensures
            old(self).current() is Some ==> started is None && final(self).waiting() == old(
                self,
            ).waiting() && final(self).current() == old(self).current(),
            old(self).current() is None && old(self).waiting().len() == 0 ==> started is None
                && final(self).waiting() == old(self).waiting() && final(self).current() is None,
            old(self).current() is None && old(self).waiting().len() > 0 ==> {
                &&& started == Some(&old(self).waiting()[0])
                &&& final(self).current() == Some(old(self).waiting()[0])
                &&& final(self).waiting() == old(self).waiting().drop_first()
            },
    {
        if self.in_flight.is_some() {
            return None;
        }
        match self.waiting.pop_front() {
            Some(item) => {
                self.in_flight = Some(item);
                assert(self.waiting() =~= old(self).waiting().drop_first());
                self.in_flight.as_ref()
            },
            None => None,
        }
    }

    pub fn in_flight(&self) -> (current: Option<&T>)
        ensures
            match self.current() {
                Some(item) => current == Some(&item),
                None => current is None,
            },
    {
        self.in_flight.as_ref()
    }

    /// The entry in flight, to change in place.
    pub fn in_flight_mut(&mut self) -> (current: Option<&mut T>)
        ensures
            final(self).waiting() == old(self).waiting(),
            match old(self).current() {
                Some(item) => current matches Some(r) && *r == item && final(self).current() == Some(
                    *final(r),
                ),
                None => current is None && final(self).current() is None,
            },
    {
        self.in_flight.as_mut()
    }

    /// Ends the entry in flight when `matches` accepts it.
    pub fn finish<F: FnOnce(&T) -> bool>(&mut self, matches: F) -> (finished: Option<T>)
        requires
            old(self).current() matches Some(item) ==> call_requires(matches, (&item,)),
        ensures
            final(self).waiting() == old(self).waiting(),
            match old(self).current() {
                None => finished is None && final(self).current() is None,
                Some(item) => (call_ensures(matches, (&item,), true) && finished == Some(item)
                    && final(self).current() is None) || (call_ensures(matches, (&item,), false)
                    && finished is None && final(self).current() == Some(item)),
            },
    {
        let accepted = match &self.in_flight {
            Some(item) => matches(item),
            None => false,
        };
        if accepted {
            self.in_flight.take()
        } else {
            None
        }
    }

    /// Takes out the waiting entries that `matches` accepts, keeping the others in order.
    pub fn remove_waiting<F: Fn(&T) -> bool>(&mut self, matches: F) -> (removed: Vec<T>)
        requires
            forall|item: T| call_requires(matches, (&item,)),
        ensures
            final(self).current() == old(self).current(),
            exists|decisions: Seq<bool>|
                {
                    &&& decisions.len() == old(self).waiting().len()
                    &&& forall|i: int|
                        0 <= i < decisions.len() ==> call_ensures(
                            matches,
                            (&old(self).waiting()[i],),
                            #[trigger] decisions[i],
                        )
                    &&& removed@ == chosen(old(self).waiting(), decisions, true)
                    &&& final(self).waiting() == chosen(old(self).waiting(), decisions, false)
                },
    {
        let ghost original = self.waiting@;
        let mut removed: Vec<T> = Vec::new();
        let mut kept: VecDeque<T> = VecDeque::new();
        let ghost mut decisions: Seq<bool> = Seq::empty();
        let ghost mut done: int = 0;
        assert(original.subrange(0, 0) =~= Seq::<T>::empty());
        while self.waiting.len() > 0
            invariant
                forall|item: T| call_requires(matches, (&item,)),
                self.in_flight == old(self).in_flight,
                original == old(self).waiting(),
                0 <= done <= original.len(),
                decisions.len() == done,
                self.waiting@ == original.subrange(done, original.len() as int),
                forall|i: int|
                    0 <= i < done ==> call_ensures(matches, (&original[i],), #[trigger] decisions[i]),
                removed@ == chosen(original.subrange(0, done), decisions, true),
                kept@ == chosen(original.subrange(0, done), decisions, false),
            decreases self.waiting@.len(),
        {
            let ghost prefix = original.subrange(0, done + 1);
            assert(prefix.drop_last() =~= original.subrange(0, done));
            let item = self.waiting.pop_front().unwrap();
            assert(item == original[done]);
            let take = matches(&item);
            let ghost prev = decisions;
            let ghost removed_before = removed@;
            let ghost kept_before = kept@;
            proof {
                decisions = decisions.push(take);
                assert(decisions.drop_last() =~= prev);
            }
            if take {
                removed.push(item);
            } else {
                kept.push_back(item);
            }
            proof {
                assert(chosen(prefix, decisions, true) == if take {
                    chosen(prefix.drop_last(), prev, true).push(prefix.last())
                } else {
                    chosen(prefix.drop_last(), prev, true)
                });
                assert(chosen(prefix, decisions, false) == if !take {
                    chosen(prefix.drop_last(), prev, false).push(prefix.last())
                } else {
                    chosen(prefix.drop_last(), prev, false)
                });
                assert(prefix.last() == item);
                if take {
                    assert(removed@ =~= removed_before.push(item));
                } else {
                    assert(kept@ =~= kept_before.push(item));
                }
                done = done + 1;
            }
            assert(self.waiting@ =~= original.subrange(done, original.len() as int));
        }
        assert(original.subrange(0, done) =~= original);
        self.waiting = kept;
        removed
    }

    /// Removes every entry, the one in flight first.
    pub fn drain(&mut self) -> (all: Vec<T>)
        ensures
            all@ == match old(self).current() {
                Some(item) => seq![item] + old(self).waiting(),
                None => old(self).waiting(),
            },
            final(self).waiting() == Seq::<T>::empty(),
            final(self).current() is None,
    {
        let mut all: Vec<T> = Vec::new();
        match self.in_flight.take() {
            Some(item) => all.push(item),
            None => {},
        }
        let ghost start = all@;
        while self.waiting.len() > 0
            invariant
                self.in_flight is None,
                all@ + self.waiting@ == start + old(self).waiting(),
            decreases self.waiting@.len(),
        {
            let ghost before = self.waiting@;
            let item = self.waiting.pop_front().unwrap();
            all.push(item);
            assert(all@ + self.waiting@ =~= start + old(self).waiting());
        }
        assert(self.waiting() =~= Seq::<T>::empty());
        assert(all@ =~= start + old(self).waiting());
        all
    }
}

/// A sequence number's slot.
pub enum Slot<T> {
    Pending,
    Ready(T),
    Skipped,
}

/// The slot last stored for `sequence`.
pub open spec fn slot_at<T>(slots: Seq<(u64, Slot<T>)>, sequence: u64) -> Option<Slot<T>>
    decreases slots.len(),
{
    if slots.len() == 0 {
        None
    } else if slots.last().0 == sequence {
        Some(slots.last().1)
    } else {
        slot_at(slots.drop_last(), sequence)
    }
}

/// The slots without those of `sequence`.
pub open spec fn without_slot<T>(slots: Seq<(u64, Slot<T>)>, sequence: u64) -> Seq<(u64, Slot<T>)>
    decreases slots.len(),
{
    if slots.len() == 0 {
        slots
    } else if slots.last().0 == sequence {
        without_slot(slots.drop_last(), sequence)
    } else {
        without_slot(slots.drop_last(), sequence).push(slots.last())
    }
}

pub proof fn lemma_without_slot_shorter<T>(slots: Seq<(u64, Slot<T>)>, sequence: u64)
    ensures
        without_slot(slots, sequence).len() <= slots.len(),
        slot_at(slots, sequence) is Some ==> without_slot(slots, sequence).len() < slots.len(),
        slot_at(without_slot(slots, sequence), sequence) is None,
        forall|other: u64|
            other != sequence ==> #[trigger] slot_at(without_slot(slots, sequence), other)
                == slot_at(slots, other),
    decreases slots.len(),
{
    if slots.len() > 0 {
        lemma_without_slot_shorter(slots.drop_last(), sequence);
        let rest = without_slot(slots.drop_last(), sequence);
        assert(rest.push(slots.last()).drop_last() =~= rest);
        assert forall|other: u64| other != sequence implies #[trigger] slot_at(
            without_slot(slots, sequence),
            other,
        ) == slot_at(slots, other) by {
            assert(slot_at(rest, other) == slot_at(slots.drop_last(), other));
            if slots.last().0 != sequence {
                assert(without_slot(slots, sequence) == rest.push(slots.last()));
                assert(slot_at(rest.push(slots.last()), other) == if slots.last().0 == other {
                    Some(slots.last().1)
                } else {
                    slot_at(rest, other)
                });
            } else {
                assert(without_slot(slots, sequence) == rest);
            }
        }
    }
}

/// What popping gives from `next`: the entries of skipped numbers are passed over, a
/// pending or missing number stops.
pub open spec fn popped<T>(next: nat, slots: Seq<(u64, Slot<T>)>) -> (nat, Seq<(u64, Slot<T>)>, Option<T>)
    decreases slots.len(),
{
    if next > u64::MAX {
        (next, slots, None)
    } else {
        match slot_at(slots, next as u64) {
            None => (next, slots, None),
            Some(Slot::Pending) => (next, slots, None),
            Some(Slot::Ready(item)) => (next + 1, without_slot(slots, next as u64), Some(item)),
            Some(Slot::Skipped) => {
                proof {
                    lemma_without_slot_shorter(slots, next as u64);
                }
                popped(next + 1, without_slot(slots, next as u64))
            },
        }
    }
}

/// Hands out entries in the order of their sequence numbers, while they become ready
/// in any order. A number that has not arrived yet holds back every later one.
pub struct InOrder<T> {
    next: u64,
    slots: Vec<(u64, Slot<T>)>,
}

impl<T> Default for InOrder<T> {
    fn default() -> (order: Self)
        ensures
            order.next_number() == 0,
            order.slots() == Seq::<(u64, Slot<T>)>::empty(),
    {
        let order = InOrder { next: 0, slots: Vec::new() };
        assert(order.slots() =~= Seq::<(u64, Slot<T>)>::empty());
        order
    }
}

impl<T> InOrder<T> {
    pub closed spec fn next_number(&self) -> nat {
        self.next as nat
    }

    pub closed spec fn slots(&self) -> Seq<(u64, Slot<T>)> {
        self.slots@
    }

    fn store(&mut self, sequence: u64, slot: Slot<T>)
        ensures
            final(self).slots() == without_slot(old(self).slots(), sequence).push((sequence, slot)),
            final(self).next_number() == old(self).next_number(),
    {
        let ghost original = self.slots@;
        let mut rest: Vec<(u64, Slot<T>)> = Vec::new();
        std::mem::swap(&mut rest, &mut self.slots);
        let mut kept: Vec<(u64, Slot<T>)> = Vec::new();
        let ghost mut done: int = 0;
        assert(original.subrange(0, 0) =~= Seq::<(u64, Slot<T>)>::empty());
        while rest.len() > 0
            invariant
                0 <= done <= original.len(),
                rest@ == original.subrange(done, original.len() as int),
                kept@ == without_slot(original.subrange(0, done), sequence),
            decreases rest@.len(),
        {
            let ghost prefix = original.subrange(0, done + 1);
            assert(prefix.drop_last() =~= original.subrange(0, done));
            let entry = rest.remove(0);
            assert(entry == original[done]);
            if entry.0 != sequence {
                kept.push(entry);
            }
            proof {
                done = done + 1;
            }
            assert(rest@ =~= original.subrange(done, original.len() as int));
        }
        assert(original.subrange(0, done) =~= original);
        kept.push((sequence, slot));
        self.slots = kept;
    }

    /// Notes that `sequence` arrived and becomes ready later.
    pub fn expect(&mut self, sequence: u64)
        ensures
            final(self).slots() == without_slot(old(self).slots(), sequence).push(
                (sequence, Slot::Pending),
            ),
            final(self).next_number() == old(self).next_number(),
    {
        self.store(sequence, Slot::Pending);
    }

    /// Fills `sequence` with its entry, or skips it with `None`.
    pub fn fill(&mut self, sequence: u64, item: Option<T>)
        ensures
            final(self).slots() == without_slot(old(self).slots(), sequence).push(
                (
                    sequence,
                    match item {
                        Some(entry) => Slot::Ready(entry),
                        None => Slot::Skipped,
                    },
                ),
            ),
            final(self).next_number() == old(self).next_number(),
    {
        let slot = match item {
            Some(entry) => Slot::Ready(entry),
            None => Slot::Skipped,
        };
        self.store(sequence, slot);
    }

    fn take_slot(&mut self, sequence: u64) -> (slot: Option<Slot<T>>)
        ensures
            slot == slot_at(old(self).slots(), sequence),
            slot is Some ==> final(self).slots() == without_slot(old(self).slots(), sequence),
            slot is None ==> final(self).slots() == old(self).slots(),
            final(self).next_number() == old(self).next_number(),
    {
        let ghost original = self.slots@;
        let mut rest: Vec<(u64, Slot<T>)> = Vec::new();
        std::mem::swap(&mut rest, &mut self.slots);
        let mut kept: Vec<(u64, Slot<T>)> = Vec::new();
        let mut found: Option<Slot<T>> = None;
        let ghost mut done: int = 0;
        assert(original.subrange(0, 0) =~= Seq::<(u64, Slot<T>)>::empty());
        while rest.len() > 0
            invariant
                0 <= done <= original.len(),
                rest@ == original.subrange(done, original.len() as int),
                kept@ == without_slot(original.subrange(0, done), sequence),
                found == slot_at(original.subrange(0, done), sequence),
            decreases rest@.len(),
        {
            let ghost prefix = original.subrange(0, done + 1);
            assert(prefix.drop_last() =~= original.subrange(0, done));
            let entry = rest.remove(0);
            assert(entry == original[done]);
            if entry.0 != sequence {
                kept.push(entry);
            } else {
                found = Some(entry.1);
            }
            proof {
                done = done + 1;
            }
            assert(rest@ =~= original.subrange(done, original.len() as int));
        }
        assert(original.subrange(0, done) =~= original);
        proof {
            lemma_without_slot_shorter(original, sequence);
            if found is None {
                lemma_no_slot_keeps_all(original, sequence);
            }
        }
        self.slots = kept;
        found
    }

    /// The next entry in sequence, when it is ready.
    pub fn pop(&mut self) -> (item: Option<T>)
        requires
            old(self).next_number() + old(self).slots().len() <= u64::MAX,
        ensures
            ({
                let (next, slots, popped_item) = popped(old(self).next_number(), old(self).slots());
                &&& item == popped_item
                &&& final(self).next_number() == next
                &&& final(self).slots() == slots
            }),
    {
        loop
            invariant
                self.next_number() + self.slots().len() <= u64::MAX,
                popped(old(self).next_number(), old(self).slots()) == popped(
                    self.next_number(),
                    self.slots(),
                ),
            decreases self.slots().len(),
        {
            match self.slot_state() {
                None => {
                    return None;
                },
                Some(false) => {
                    return None;
                },
                Some(true) => {},
            }
            let ghost before = self.slots();
            let slot = self.take_slot(self.next);
            proof {
                lemma_without_slot_shorter(before, self.next);
            }
            self.next = self.next + 1;
            match slot {
                Some(Slot::Ready(item)) => {
                    return Some(item);
                },
                _ => {},
            }
        }
    }

    /// Whether the slot of the next number is filled (`Some(true)`), pending
    /// (`Some(false)`) or missing (`None`).
    fn slot_state(&self) -> (state: Option<bool>)
        ensures
            match slot_at(self.slots(), self.next_number() as u64) {
                None => state is None,
                Some(Slot::Pending) => state == Some(false),
                Some(_) => state == Some(true),
            },
    {
        let ghost all = self.slots@;
        let mut i = self.slots.len();
        assert(all.subrange(0, i as int) =~= all);
        while i > 0
            invariant
                all == self.slots@,
                i <= self.slots@.len(),
                slot_at(all, self.next) == slot_at(all.subrange(0, i as int), self.next),
            decreases i,
        {
            let ghost part = all.subrange(0, i as int);
            assert(part.drop_last() =~= all.subrange(0, i - 1));
            if self.slots[i - 1].0 == self.next {
                return match &self.slots[i - 1].1 {
                    Slot::Pending => Some(false),
                    _ => Some(true),
                };
            }
            i = i - 1;
        }
        None
    }
}

proof fn lemma_no_slot_keeps_all<T>(slots: Seq<(u64, Slot<T>)>, sequence: u64)
    requires
        slot_at(slots, sequence) is None,
    ensures
        without_slot(slots, sequence) == slots,
    decreases slots.len(),
{
    if slots.len() > 0 {
        lemma_no_slot_keeps_all(slots.drop_last(), sequence);
        assert(slots.drop_last().push(slots.last()) =~= slots);
    }
}

/// Choosing by decisions splits the items: every item goes to the side of its
/// decision, and nothing else does.
pub proof fn law_choosing_splits_the_items<T>(items: Seq<T>, decisions: Seq<bool>, keep: bool)
    requires
        decisions.len() == items.len(),
    ensures
        chosen(items, decisions, true).len() + chosen(items, decisions, false).len() == items.len(),
        forall|i: int| 0 <= i < items.len() && #[trigger] decisions[i] == keep ==> chosen(
            items,
            decisions,
            keep,
        ).contains(items[i]),
        forall|x: T| #[trigger] chosen(items, decisions, keep).contains(x) ==> exists|i: int|
            0 <= i < items.len() && items[i] == x && #[trigger] decisions[i] == keep,
    decreases items.len(),
{
    if items.len() > 0 {
        let rest = items.drop_last();
        let rd = decisions.drop_last();
        law_choosing_splits_the_items(rest, rd, keep);
        let n = items.len() - 1;
        let prev = chosen(rest, rd, keep);
        assert forall|i: int| 0 <= i < items.len() && #[trigger] decisions[i] == keep implies chosen(
            items,
            decisions,
            keep,
        ).contains(items[i]) by {
            if i < n {
                assert(rd[i] == decisions[i]);
                assert(rest[i] == items[i]);
                let j = choose|j: int| 0 <= j < prev.len() && prev[j] == items[i];
                if decisions.last() == keep {
                    assert(prev.push(items.last())[j] == items[i]);
                }
            } else {
                assert(chosen(items, decisions, keep) == prev.push(items.last()));
                assert(prev.push(items.last())[prev.len() as int] == items[i]);
            }
        }
        assert forall|x: T| #[trigger] chosen(items, decisions, keep).contains(x) implies exists|i: int|
            0 <= i < items.len() && items[i] == x && #[trigger] decisions[i] == keep by {
            let c = chosen(items, decisions, keep);
            let j = choose|j: int| 0 <= j < c.len() && c[j] == x;
            if decisions.last() == keep && j == prev.len() {
                assert(items[n] == x && decisions[n] == keep);
            } else {
                assert(prev[j] == x);
                assert(prev.contains(x));
                let i = choose|i: int| 0 <= i < rest.len() && rest[i] == x && #[trigger] rd[i] == keep;
                assert(items[i] == x && decisions[i] == keep);
            }
        }
    }
}

} // verus!
