use std::collections::VecDeque;
use vstd::prelude::*;

verus! {

/// How many unclaimed events a backlog carries from one delivery cycle into the next.
pub const CAPACITY: usize = 2000;

/// The events that stay unclaimed when `claimed[i]` is the answer given for `events[i]`,
/// in the order in which they were offered.
pub open spec fn unclaimed<E>(events: Seq<E>, claimed: Seq<bool>) -> Seq<E>
    decreases events.len(),
{
    if events.len() == 0 {
        Seq::empty()
    } else {
        let earlier = unclaimed(events.drop_last(), claimed.drop_last());
        if claimed.last() {
            earlier
        } else {
            earlier.push(events.last())
        }
    }
}

/// How many of the oldest entries a backlog of `len` entries gives up at the start of a cycle.
pub open spec fn excess(len: nat) -> nat {
    if len > CAPACITY {
        (len - CAPACITY) as nat
    } else {
        0
    }
}

/// What replaying `backlog` leaves of it: the oldest `excess` entries go whatever the
/// answer, the others stay exactly when they were not claimed.
pub open spec fn replayed<E>(backlog: Seq<E>, claimed: Seq<bool>) -> Seq<E> {
    let gone = excess(backlog.len()) as int;
    unclaimed(backlog.skip(gone), claimed.skip(gone))
}

/// The backlog after one delivery cycle that offered `backlog` and then `fresh`,
/// `claimed` holding one answer per offered event in that order.
pub open spec fn after_cycle<E>(backlog: Seq<E>, fresh: Seq<E>, claimed: Seq<bool>) -> Seq<E> {
    let replay = backlog.len() as int;
    replayed(backlog, claimed.take(replay)) + unclaimed(fresh, claimed.skip(replay))
}

/// `claimed` holds, for each of `events` in turn, an answer that `handler` can give for it.
pub open spec fn answered<E, H: FnMut(&E) -> bool>(
    handler: H,
    events: Seq<E>,
    claimed: Seq<bool>,
) -> bool {
    &&& claimed.len() == events.len()
    &&& forall|i: int|
        0 <= i < events.len() ==> call_ensures(handler, (&events[i],), #[trigger] claimed[i])
}

/// `handler` may be called on every one of `events`.
pub open spec fn accepts<E, H: FnMut(&E) -> bool>(handler: H, events: Seq<E>) -> bool {
    forall|i: int| 0 <= i < events.len() ==> call_requires(handler, (&#[trigger] events[i],))
}

/// Offering events never yields more unclaimed ones than were offered.
pub proof fn lemma_unclaimed_len<E>(events: Seq<E>, claimed: Seq<bool>)
    ensures
        unclaimed(events, claimed).len() <= events.len(),
    decreases events.len(),
{
    if events.len() > 0 {
        lemma_unclaimed_len(events.drop_last(), claimed.drop_last());
    }
}

proof fn lemma_unclaimed_push<E>(events: Seq<E>, claimed: Seq<bool>, event: E, answer: bool)
    ensures
        unclaimed(events.push(event), claimed.push(answer)) == if answer {
            unclaimed(events, claimed)
        } else {
            unclaimed(events, claimed).push(event)
        },
{
    assert(events.push(event).drop_last() =~= events);
    assert(claimed.push(answer).drop_last() =~= claimed);
}

/// The rule of replay for one entry: at place `place` of a backlog that held `len` entries
/// when the replay began, and with the handler's answer `claimed`, the entry goes back
/// into the backlog only if it was not claimed and is not one of the oldest that exceed
/// `CAPACITY`.
pub fn survives_replay(place: usize, len: usize, claimed: bool) -> (kept: bool)
    ensures
        kept == (!claimed && place >= excess(len as nat)),
{
    if claimed {
        false
    } else if len > CAPACITY {
        place >= len - CAPACITY
    } else {
        true
    }
}

/// The queue of events that no handler has claimed yet, oldest first. Several handlers
/// may take turns at it, each claiming what is its own; what none of them claims is kept
/// for the next, up to `CAPACITY` events from one cycle to the next.
pub struct EventBacklog<E> {
    events: VecDeque<E>,
}

impl<E> View for EventBacklog<E> {
    type V = Seq<E>;

    closed spec fn view(&self) -> Seq<E> {
        self.events@
    }
}

impl<E> EventBacklog<E> {
    /// An empty backlog.
    pub fn new() -> (backlog: Self)
        ensures
            backlog@ == Seq::<E>::empty(),
    {
        EventBacklog { events: VecDeque::new() }
    }

    /// The number of events waiting to be claimed.
    pub fn len(&self) -> (n: usize)
        ensures
            n == self@.len(),
    {
        self.events.len()
    }

    /// Whether no event is waiting.
    pub fn is_empty(&self) -> (empty: bool)
        ensures
            empty == (self@.len() == 0),
    {
        self.events.len() == 0
    }

    /// The event at place `index`, counted from the oldest.
    pub fn get(&self, index: usize) -> (event: Option<&E>)
        ensures
            event == if index < self@.len() {
                Some(&self@[index as int])
            } else {
                None
            },
    {
        if index < self.events.len() {
            Some(&self.events[index])
        } else {
            None
        }
    }

    /// Phase one of a cycle: offers every entry to `handler`, oldest first. What it
    /// claims leaves the backlog, and so do the oldest entries by which the backlog
    /// exceeded `CAPACITY` when the phase began, claimed or not.
    pub fn replay<H: FnMut(&E) -> bool>(&mut self, handler: H)
        requires
            accepts(handler, old(self)@),
        ensures
            exists|claimed: Seq<bool>|
                answered(handler, old(self)@, claimed) && final(self)@ == replayed(
                    old(self)@,
                    claimed,
                ),
            final(self)@.len() <= CAPACITY,
            final(self)@.len() <= old(self)@.len(),
    {
        let mut handler = handler;
        self.replay_each(&mut handler);
    }

    /// Phase two of a cycle: offers each of `fresh` to `handler` in arrival order and
    /// queues what it leaves unclaimed behind everything already waiting. Nothing is
    /// given up here, however long the backlog grows: the next replay restores the bound.
    pub fn deliver<H: FnMut(&E) -> bool>(&mut self, fresh: Vec<E>, handler: H)
        requires
            accepts(handler, fresh@),
        ensures
            exists|claimed: Seq<bool>|
                answered(handler, fresh@, claimed) && final(self)@ == old(self)@ + unclaimed(
                    fresh@,
                    claimed,
                ),
            old(self)@.len() <= final(self)@.len() <= old(self)@.len() + fresh@.len(),
    {
        let mut handler = handler;
        self.deliver_each(fresh, &mut handler);
    }

    /// One delivery cycle: replays the backlog, oldest first, then delivers `fresh`, the
    /// events newly taken from the event source.
    pub fn dispatch<H: FnMut(&E) -> bool>(&mut self, fresh: Vec<E>, handler: H)
        requires
            accepts(handler, old(self)@ + fresh@),
        ensures
            exists|claimed: Seq<bool>|
                answered(handler, old(self)@ + fresh@, claimed) && final(self)@ == after_cycle(
                    old(self)@,
                    fresh@,
                    claimed,
                ),
            final(self)@.len() <= CAPACITY + fresh@.len(),
    {
        let ghost before = self.events@;
        let ghost offered = before + fresh@;
        let mut handler = handler;
        proof {
            assert forall|i: int| 0 <= i < before.len() implies call_requires(
                handler,
                (&#[trigger] before[i],),
            ) by {
                assert(offered[i] == before[i]);
            }
            assert forall|i: int| 0 <= i < fresh@.len() implies call_requires(
                handler,
                (&#[trigger] fresh@[i],),
            ) by {
                assert(offered[before.len() + i] == fresh@[i]);
            }
        }
        let ghost h = handler;
        self.replay_each(&mut handler);
        let ghost kept = self.events@;
        self.deliver_each(fresh, &mut handler);
        proof {
            let first = choose|claimed: Seq<bool>|
                answered(h, before, claimed) && kept == replayed(before, claimed);
            let second = choose|claimed: Seq<bool>|
                answered(h, fresh@, claimed) && self.events@ == kept + unclaimed(fresh@, claimed);
            let claimed = first + second;
            assert(claimed.take(before.len() as int) =~= first);
            assert(claimed.skip(before.len() as int) =~= second);
            assert(self.events@ == after_cycle(before, fresh@, claimed));
        }
    }

    /// The loop of `replay`; the handler comes back as it went in, for the next phase.
    fn replay_each<H: FnMut(&E) -> bool>(&mut self, handler: &mut H)
        requires
            accepts(*old(handler), old(self)@),
        ensures
            *final(handler) == *old(handler),
            exists|claimed: Seq<bool>|
                answered(*old(handler), old(self)@, claimed) && final(self)@ == replayed(
                    old(self)@,
                    claimed,
                ),
            final(self)@.len() <= CAPACITY,
            final(self)@.len() <= old(self)@.len(),
    {
        let len = self.events.len();
        let ghost gone = excess(len as nat);
        let ghost before = self.events@;
        let ghost mut claimed: Seq<bool> = Seq::empty();
        let mut i: usize = 0;
        while i < len
            invariant
                i <= len,
                len == before.len(),
                gone == excess(before.len()),
                *handler == *old(handler),
                accepts(*handler, before),
                answered(*handler, before.take(i as int), claimed),
                self.events@ == before.skip(i as int) + if i <= gone {
                    Seq::<E>::empty()
                } else {
                    unclaimed(
                        before.subrange(gone as int, i as int),
                        claimed.subrange(gone as int, i as int),
                    )
                },
            decreases len - i,
        {
            let event = self.events.pop_front().unwrap();
            let answer = handler(&event);
            proof {
                let ghost earlier = claimed;
                claimed = claimed.push(answer);
                assert(before.take(i + 1) =~= before.take(i as int).push(event));
                if i >= gone {
                    lemma_unclaimed_push(
                        before.subrange(gone as int, i as int),
                        earlier.subrange(gone as int, i as int),
                        event,
                        answer,
                    );
                    assert(before.subrange(gone as int, i + 1) =~= before.subrange(
                        gone as int,
                        i as int,
                    ).push(event));
                    assert(claimed.subrange(gone as int, i + 1) =~= earlier.subrange(
                        gone as int,
                        i as int,
                    ).push(answer));
                }
            }
            if survives_replay(i, len, answer) {
                self.events.push_back(event);
            }
            i += 1;
        }
        proof {
            assert(before.take(len as int) =~= before);
            assert(before.subrange(gone as int, len as int) =~= before.skip(gone as int));
            assert(claimed.subrange(gone as int, len as int) =~= claimed.skip(gone as int));
            assert(self.events@ =~= replayed(before, claimed));
            lemma_unclaimed_len(before.skip(gone as int), claimed.skip(gone as int));
        }
    }

    /// The loop of `deliver`; the handler comes back as it went in.
    fn deliver_each<H: FnMut(&E) -> bool>(&mut self, fresh: Vec<E>, handler: &mut H)
        requires
            accepts(*old(handler), fresh@),
        ensures
            *final(handler) == *old(handler),
            exists|claimed: Seq<bool>|
                answered(*old(handler), fresh@, claimed) && final(self)@ == old(self)@ + unclaimed(
                    fresh@,
                    claimed,
                ),
            old(self)@.len() <= final(self)@.len() <= old(self)@.len() + fresh@.len(),
    {
        let ghost before = self.events@;
        let ghost mut claimed: Seq<bool> = Seq::empty();
        for event in it: fresh.into_iter()
            invariant
                it.seq() == fresh@,
                *handler == *old(handler),
                accepts(*handler, fresh@),
                answered(*handler, fresh@.take(it.index() as int), claimed),
                self.events@ == before + unclaimed(fresh@.take(it.index() as int), claimed),
        {
            let answer = handler(&event);
            proof {
                let ghost n = it.index() as int;
                lemma_unclaimed_push(fresh@.take(n), claimed, event, answer);
                assert(fresh@.take(n + 1) =~= fresh@.take(n).push(event));
                claimed = claimed.push(answer);
            }
            if !answer {
                self.events.push_back(event);
            }
        }
        proof {
            assert(fresh@.take(fresh@.len() as int) =~= fresh@);
            lemma_unclaimed_len(fresh@, claimed);
        }
    }
}

} // verus!
