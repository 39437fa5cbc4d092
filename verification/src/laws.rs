use crate::backlog::{after_cycle, excess, lemma_unclaimed_len, replayed, unclaimed, CAPACITY};
use crate::protocol::{Command, OwnerState};
use vstd::prelude::*;

verus! {

/// No answer in `claimed` is a claim.
pub open spec fn none_claimed(claimed: Seq<bool>) -> bool {
    forall|i: int| 0 <= i < claimed.len() ==> !#[trigger] claimed[i]
}

/// The event offered `i`-th in a cycle stays in the backlog: it is not one of the oldest
/// entries that the cycle gives up, and it was not claimed.
pub open spec fn stays(backlog_len: nat, claimed: Seq<bool>, i: int) -> bool {
    excess(backlog_len) <= i < claimed.len() && !claimed[i]
}

/// `at` names, in increasing order, the places of `whole` whose entries make up `part`.
pub open spec fn picks<E>(at: Seq<int>, part: Seq<E>, whole: Seq<E>) -> bool {
    &&& at.len() == part.len()
    &&& forall|k: int|
        0 <= k < at.len() ==> 0 <= #[trigger] at[k] < whole.len() && whole[at[k]] == part[k]
    &&& forall|j: int, k: int| 0 <= j < k < at.len() ==> at[j] < at[k]
}

/// `part` lists some of the entries of `whole`, in the order in which `whole` has them.
pub open spec fn in_order_within<E>(part: Seq<E>, whole: Seq<E>) -> bool {
    exists|at: Seq<int>| picks(at, part, whole)
}

/// The backlog after a run of cycles, each given as its fresh events and the answers of
/// that cycle.
pub open spec fn after_cycles<E>(backlog: Seq<E>, cycles: Seq<(Seq<E>, Seq<bool>)>) -> Seq<E>
    decreases cycles.len(),
{
    if cycles.len() == 0 {
        backlog
    } else {
        after_cycle(
            after_cycles(backlog, cycles.drop_last()),
            cycles.last().0,
            cycles.last().1,
        )
    }
}

/// An event is among the unclaimed ones exactly when it was offered at a place whose
/// answer was not a claim.
pub proof fn lemma_unclaimed_contains<E>(events: Seq<E>, claimed: Seq<bool>, event: E)
    requires
        claimed.len() == events.len(),
    ensures
        unclaimed(events, claimed).contains(event) <==> exists|i: int|
            0 <= i < events.len() && events[i] == event && !claimed[i],
    decreases events.len(),
{
    if events.len() > 0 {
        let earlier_events = events.drop_last();
        let earlier_claimed = claimed.drop_last();
        let earlier = unclaimed(earlier_events, earlier_claimed);
        let last = events.len() - 1;
        lemma_unclaimed_contains(earlier_events, earlier_claimed, event);
        if unclaimed(events, claimed).contains(event) {
            if earlier.contains(event) {
                let i = choose|i: int|
                    0 <= i < earlier_events.len() && earlier_events[i] == event
                        && !earlier_claimed[i];
                assert(events[i] == event && !claimed[i]);
            } else {
                assert(!claimed.last());
                let k = choose|k: int|
                    0 <= k < earlier.push(events.last()).len() && earlier.push(events.last())[k]
                        == event;
                assert(k == earlier.len());
                assert(events[last] == event && !claimed[last]);
            }
        }
        if exists|i: int| 0 <= i < events.len() && events[i] == event && !claimed[i] {
            let i = choose|i: int| 0 <= i < events.len() && events[i] == event && !claimed[i];
            if i < last {
                assert(earlier_events[i] == event && !earlier_claimed[i]);
                assert(earlier.contains(event));
                let k = choose|k: int| 0 <= k < earlier.len() && earlier[k] == event;
                if !claimed.last() {
                    assert(earlier.push(events.last())[k] == event);
                }
            } else {
                assert(earlier.push(events.last())[earlier.len() as int] == event);
            }
        }
    }
}

/// The unclaimed events come in the order in which they were offered.
pub proof fn lemma_unclaimed_in_order<E>(events: Seq<E>, claimed: Seq<bool>)
    ensures
        in_order_within(unclaimed(events, claimed), events),
    decreases events.len(),
{
    if events.len() == 0 {
        assert(picks(Seq::<int>::empty(), unclaimed(events, claimed), events));
    } else {
        let earlier = unclaimed(events.drop_last(), claimed.drop_last());
        lemma_unclaimed_in_order(events.drop_last(), claimed.drop_last());
        let at = choose|at: Seq<int>| picks(at, earlier, events.drop_last());
        if claimed.last() {
            assert(picks(at, earlier, events));
        } else {
            let longer = at.push(events.len() - 1);
            assert(picks(longer, earlier.push(events.last()), events));
        }
    }
}

/// When nothing is claimed, everything offered stays unclaimed.
pub proof fn lemma_unclaimed_all<E>(events: Seq<E>, claimed: Seq<bool>)
    requires
        claimed.len() == events.len(),
        none_claimed(claimed),
    ensures
        unclaimed(events, claimed) == events,
    decreases events.len(),
{
    if events.len() > 0 {
        lemma_unclaimed_all(events.drop_last(), claimed.drop_last());
        assert(events.drop_last().push(events.last()) =~= events);
    } else {
        assert(events =~= Seq::<E>::empty());
    }
}

/// The backlog stays bounded: whatever the handler answers, a replay leaves at most
/// `CAPACITY` of the entries it started with, and a whole cycle at most that plus the
/// fresh events.
pub proof fn lemma_backlog_is_bounded<E>(backlog: Seq<E>, fresh: Seq<E>, claimed: Seq<bool>)
    ensures
        replayed(backlog, claimed).len() <= CAPACITY,
        after_cycle(backlog, fresh, claimed).len() <= CAPACITY + fresh.len(),
{
    let gone = excess(backlog.len()) as int;
    let answers = claimed.take(backlog.len() as int);
    lemma_unclaimed_len(backlog.skip(gone), claimed.skip(gone));
    lemma_unclaimed_len(backlog.skip(gone), answers.skip(gone));
    lemma_unclaimed_len(fresh, claimed.skip(backlog.len() as int));
}

/// Eviction takes the oldest: a cycle in which nothing is claimed keeps the backlog
/// without its oldest `excess` entries, followed by the fresh events. A backlog of one
/// entry more than `CAPACITY` loses exactly its first.
pub proof fn lemma_unclaimed_cycle_drops_oldest<E>(
    backlog: Seq<E>,
    fresh: Seq<E>,
    claimed: Seq<bool>,
)
    requires
        claimed.len() == backlog.len() + fresh.len(),
        none_claimed(claimed),
    ensures
        after_cycle(backlog, fresh, claimed) == backlog.skip(excess(backlog.len()) as int) + fresh,
        backlog.len() <= CAPACITY ==> after_cycle(backlog, fresh, claimed) == backlog + fresh,
        backlog.len() == CAPACITY + 1 ==> after_cycle(backlog, fresh, claimed)
            == backlog.drop_first() + fresh,
{
    let gone = excess(backlog.len()) as int;
    let answers = claimed.take(backlog.len() as int);
    lemma_unclaimed_all(backlog.skip(gone), answers.skip(gone));
    lemma_unclaimed_all(fresh, claimed.skip(backlog.len() as int));
    assert(backlog.skip(0) =~= backlog);
}

/// What a cycle leaves: an event is in the backlog after a cycle exactly when it was
/// offered at a place that stays.
pub proof fn lemma_after_cycle_contains<E>(
    backlog: Seq<E>,
    fresh: Seq<E>,
    claimed: Seq<bool>,
    event: E,
)
    requires
        claimed.len() == backlog.len() + fresh.len(),
    ensures
        after_cycle(backlog, fresh, claimed).contains(event) <==> exists|i: int|
            stays(backlog.len(), claimed, i) && (backlog + fresh)[i] == event,
{
    let offered = backlog + fresh;
    let n = backlog.len() as int;
    let gone = excess(backlog.len()) as int;
    let old_events = backlog.skip(gone);
    let old_claimed = claimed.take(n).skip(gone);
    let new_claimed = claimed.skip(n);
    let kept = unclaimed(old_events, old_claimed);
    let added = unclaimed(fresh, new_claimed);
    lemma_unclaimed_contains(old_events, old_claimed, event);
    lemma_unclaimed_contains(fresh, new_claimed, event);
    if after_cycle(backlog, fresh, claimed).contains(event) {
        let k = choose|k: int| 0 <= k < (kept + added).len() && (kept + added)[k] == event;
        if k < kept.len() {
            assert(kept[k] == event);
            let j = choose|j: int|
                0 <= j < old_events.len() && old_events[j] == event && !old_claimed[j];
            assert(stays(backlog.len(), claimed, gone + j) && offered[gone + j] == event);
        } else {
            assert(added[k - kept.len()] == event);
            let j = choose|j: int| 0 <= j < fresh.len() && fresh[j] == event && !new_claimed[j];
            assert(stays(backlog.len(), claimed, n + j) && offered[n + j] == event);
        }
    }
    if exists|i: int| stays(backlog.len(), claimed, i) && offered[i] == event {
        let i = choose|i: int| stays(backlog.len(), claimed, i) && offered[i] == event;
        if i < n {
            assert(old_events[i - gone] == event && !old_claimed[i - gone]);
            let k = choose|k: int| 0 <= k < kept.len() && kept[k] == event;
            assert((kept + added)[k] == event);
        } else {
            assert(fresh[i - n] == event && !new_claimed[i - n]);
            let k = choose|k: int| 0 <= k < added.len() && added[k] == event;
            assert((kept + added)[kept.len() + k] == event);
        }
    }
}

/// A cycle adds nothing of its own: whatever is in the backlog after it was in the
/// backlog before it or among its fresh events.
pub proof fn lemma_after_cycle_from_offered<E>(
    backlog: Seq<E>,
    fresh: Seq<E>,
    claimed: Seq<bool>,
    event: E,
)
    requires
        after_cycle(backlog, fresh, claimed).contains(event),
    ensures
        backlog.contains(event) || fresh.contains(event),
{
    let n = backlog.len() as int;
    let gone = excess(backlog.len()) as int;
    let kept = unclaimed(backlog.skip(gone), claimed.take(n).skip(gone));
    let added = unclaimed(fresh, claimed.skip(n));
    lemma_unclaimed_in_order(backlog.skip(gone), claimed.take(n).skip(gone));
    lemma_unclaimed_in_order(fresh, claimed.skip(n));
    let kept_at = choose|at: Seq<int>| picks(at, kept, backlog.skip(gone));
    let added_at = choose|at: Seq<int>| picks(at, added, fresh);
    let k = choose|k: int| 0 <= k < (kept + added).len() && (kept + added)[k] == event;
    if k < kept.len() {
        assert(backlog[gone + kept_at[k]] == event);
    } else {
        assert(fresh[added_at[k - kept.len()]] == event);
    }
}

/// Order is kept: the backlog after a cycle lists what stayed in the order in which the
/// cycle offered it, the old backlog first and then the fresh events, so the next replay
/// offers it in that order again.
pub proof fn lemma_after_cycle_in_order<E>(backlog: Seq<E>, fresh: Seq<E>, claimed: Seq<bool>)
    ensures
        in_order_within(after_cycle(backlog, fresh, claimed), backlog + fresh),
{
    let offered = backlog + fresh;
    let n = backlog.len() as int;
    let gone = excess(backlog.len()) as int;
    let kept = unclaimed(backlog.skip(gone), claimed.take(n).skip(gone));
    let added = unclaimed(fresh, claimed.skip(n));
    lemma_unclaimed_in_order(backlog.skip(gone), claimed.take(n).skip(gone));
    lemma_unclaimed_in_order(fresh, claimed.skip(n));
    let kept_at = choose|at: Seq<int>| picks(at, kept, backlog.skip(gone));
    let added_at = choose|at: Seq<int>| picks(at, added, fresh);
    let at = Seq::new(
        kept.len() + added.len(),
        |k: int|
            if k < kept.len() {
                gone + kept_at[k]
            } else {
                n + added_at[k - kept.len()]
            },
    );
    assert forall|k: int| 0 <= k < at.len() implies 0 <= #[trigger] at[k] < offered.len()
        && offered[at[k]] == (kept + added)[k] by {
        if k < kept.len() {
            assert(0 <= kept_at[k] < backlog.skip(gone).len());
        } else {
            assert(0 <= added_at[k - kept.len()] < fresh.len());
        }
    }
    assert forall|j: int, k: int| 0 <= j < k < at.len() implies at[j] < at[k] by {
        if j < kept.len() {
            assert(0 <= kept_at[j] < backlog.skip(gone).len());
        } else {
            assert(0 <= added_at[j - kept.len()] < fresh.len());
        }
        if k < kept.len() {
            assert(0 <= kept_at[k] < backlog.skip(gone).len());
        } else {
            assert(0 <= added_at[k - kept.len()] < fresh.len());
        }
    }
    assert(picks(at, after_cycle(backlog, fresh, claimed), offered));
}

/// A claim is final for the cycle: an event that was offered once in a cycle and claimed
/// there is not in the backlog after it.
pub proof fn lemma_claimed_event_leaves<E>(
    backlog: Seq<E>,
    fresh: Seq<E>,
    claimed: Seq<bool>,
    i: int,
)
    requires
        claimed.len() == backlog.len() + fresh.len(),
        0 <= i < claimed.len(),
        claimed[i],
        forall|j: int|
            0 <= j < claimed.len() && j != i ==> (backlog + fresh)[j] != (backlog + fresh)[i],
    ensures
        !after_cycle(backlog, fresh, claimed).contains((backlog + fresh)[i]),
{
    lemma_after_cycle_contains(backlog, fresh, claimed, (backlog + fresh)[i]);
}

/// An event that is neither in the backlog nor polled in any of the cycles is not in the
/// backlog after them.
pub proof fn lemma_absent_event_stays_absent<E>(
    backlog: Seq<E>,
    cycles: Seq<(Seq<E>, Seq<bool>)>,
    event: E,
)
    requires
        !backlog.contains(event),
        forall|k: int| 0 <= k < cycles.len() ==> !(#[trigger] cycles[k]).0.contains(event),
    ensures
        !after_cycles(backlog, cycles).contains(event),
    decreases cycles.len(),
{
    if cycles.len() > 0 {
        let earlier = cycles.drop_last();
        assert forall|k: int| 0 <= k < earlier.len() implies !(#[trigger] earlier[k]).0.contains(
            event,
        ) by {
            assert(earlier[k] == cycles[k]);
        }
        lemma_absent_event_stays_absent(backlog, earlier, event);
        let before = after_cycles(backlog, earlier);
        assert(!cycles[cycles.len() - 1].0.contains(event));
        if after_cycle(before, cycles.last().0, cycles.last().1).contains(event) {
            lemma_after_cycle_from_offered(before, cycles.last().0, cycles.last().1, event);
        }
    }
}

/// A claim lasts: once a handler has claimed an event, it is in no later backlog, and so
/// is offered to no later handler, however many cycles follow, unless the event source
/// hands out the same event again.
pub proof fn lemma_claimed_event_never_returns<E>(
    backlog: Seq<E>,
    fresh: Seq<E>,
    claimed: Seq<bool>,
    i: int,
    later: Seq<(Seq<E>, Seq<bool>)>,
)
    requires
        claimed.len() == backlog.len() + fresh.len(),
        0 <= i < claimed.len(),
        claimed[i],
        forall|j: int|
            0 <= j < claimed.len() && j != i ==> (backlog + fresh)[j] != (backlog + fresh)[i],
        forall|k: int|
            0 <= k < later.len() ==> !(#[trigger] later[k]).0.contains((backlog + fresh)[i]),
    ensures
        !after_cycles(after_cycle(backlog, fresh, claimed), later).contains((backlog + fresh)[i]),
{
    lemma_claimed_event_leaves(backlog, fresh, claimed, i);
    lemma_absent_event_stays_absent(
        after_cycle(backlog, fresh, claimed),
        later,
        (backlog + fresh)[i],
    );
}

/// Registered windows stay reachable: two windows registered under different ids are
/// both held afterwards, each under its own id, and so is every window held before.
pub proof fn lemma_registered_windows_stay_reachable<W>(
    held: Map<u32, W>,
    first: (u32, W),
    second: (u32, W),
)
    requires
        first.0 != second.0,
    ensures
        ({
            let after = held.insert(first.0, first.1).insert(second.0, second.1);
            &&& after.contains_key(first.0) && after[first.0] == first.1
            &&& after.contains_key(second.0) && after[second.0] == second.1
            &&& forall|id: u32| held.contains_key(id) ==> after.contains_key(id)
            &&& forall|id: u32|
                held.contains_key(id) && id != first.0 && id != second.0 ==> after[id] == held[id]
        }),
{
}

/// Termination is final: a loop that has terminated stays so whatever is sent.
pub proof fn lemma_terminated_is_final(inputs: Seq<Option<Command>>)
    ensures
        OwnerState::Terminated.after_all(inputs) == OwnerState::Terminated,
    decreases inputs.len(),
{
    if inputs.len() > 0 {
        lemma_terminated_is_final(inputs.drop_last());
    }
}

/// Nothing runs after the end: once an `Exit` has been received or the channel was found
/// closed, the loop has terminated and executes none of the commands that follow.
pub proof fn lemma_nothing_runs_after_exit(
    state: OwnerState,
    inputs: Seq<Option<Command>>,
    k: int,
    received: Option<Command>,
)
    requires
        0 <= k < inputs.len(),
        inputs[k] == Some(Command::Exit) || inputs[k].is_none(),
    ensures
        state.after_all(inputs) == OwnerState::Terminated,
        !state.after_all(inputs).executes(received),
    decreases inputs.len(),
{
    if k < inputs.len() - 1 {
        lemma_nothing_runs_after_exit(state, inputs.drop_last(), k, received);
    }
}

} // verus!
