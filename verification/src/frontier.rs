//! The frontier of the decoder: the states waiting to be expanded, and the
//! order in which they leave.

use vstd::prelude::*;

verus! {

/// One step of a route: the edge number `index` among the edges out of
/// `from`.
pub struct Hop {
    pub from: usize,
    pub index: int,
}

/// A state of the search, as a mathematical value: a node, what it cost to
/// get there, what was consumed on the way, the node's rank in the
/// chromosome, and the route that was taken.
pub struct Entry {
    pub node: usize,
    pub cost: nat,
    pub usage: Seq<u64>,
    pub priority: usize,
    pub route: Seq<Hop>,
}

/// A state of the search, with the nodes it came by. The route is kept for
/// the proofs only.
pub(crate) struct State {
    pub(crate) node: usize,
    pub(crate) cost: u128,
    pub(crate) resources: Vec<u64>,
    pub(crate) priority: usize,
    pub(crate) path: Vec<usize>,
    pub(crate) route: Ghost<Seq<Hop>>,
}

/// The entry that a state stands for.
pub(crate) open spec fn entry_of(state: State) -> Entry {
    Entry {
        node: state.node,
        cost: state.cost as nat,
        usage: state.resources@,
        priority: state.priority,
        route: state.route@,
    }
}

/// The entries that a list of states stands for.
pub(crate) open spec fn entries(states: Seq<State>) -> Seq<Entry> {
    states.map_values(|state: State| entry_of(state))
}

/// `a` leaves the frontier before `b`: it has the lower priority value, or
/// the same and the lower cost.
pub open spec fn precedes(a: Entry, b: Entry) -> bool {
    a.priority < b.priority || (a.priority == b.priority && a.cost < b.cost)
}

/// The position of the entry that leaves the frontier next: the earliest of
/// those that no other entry precedes.
pub open spec fn front(frontier: Seq<Entry>) -> int
    decreases frontier.len(),
{
    if frontier.len() <= 1 {
        0
    } else {
        let best = front(frontier.drop_last());
        if precedes(frontier.last(), frontier[best]) {
            frontier.len() - 1
        } else {
            best
        }
    }
}

/// In a frontier that is not empty, `front` is the position of an entry that
/// none precedes, and which precedes every entry that was pushed before it.
pub proof fn lemma_front_is_first_least(frontier: Seq<Entry>)
    requires
        frontier.len() > 0,
    ensures
        0 <= front(frontier) < frontier.len(),
        forall|i: int|
            0 <= i < frontier.len() ==> !precedes(#[trigger] frontier[i], frontier[front(frontier)]),
        forall|i: int|
            0 <= i < front(frontier) ==> precedes(frontier[front(frontier)], #[trigger] frontier[i]),
    decreases frontier.len(),
{
    if frontier.len() > 1 {
        let earlier = frontier.drop_last();
        lemma_front_is_first_least(earlier);
        let best = front(earlier);
        assert(forall|i: int| 0 <= i < earlier.len() ==> earlier[i] == frontier[i]);
        if precedes(frontier.last(), frontier[best]) {
            assert forall|i: int| 0 <= i < frontier.len() implies !precedes(
                #[trigger] frontier[i],
                frontier.last(),
            ) by {
                if i < earlier.len() {
                    assert(!precedes(earlier[i], earlier[best]));
                }
            }
            assert forall|i: int| 0 <= i < frontier.len() - 1 implies precedes(
                frontier.last(),
                #[trigger] frontier[i],
            ) by {
                assert(!precedes(earlier[i], earlier[best]));
            }
        } else {
            assert forall|i: int| 0 <= i < frontier.len() implies !precedes(
                #[trigger] frontier[i],
                frontier[best],
            ) by {
                if i < earlier.len() {
                    assert(!precedes(earlier[i], earlier[best]));
                }
            }
        }
    }
}

/// Takes the next state out of the frontier; the others keep their order.
pub(crate) fn pop_front(frontier: &mut Vec<State>) -> (current: State)
    requires
        old(frontier)@.len() > 0,
    ensures
        entry_of(current) == entries(old(frontier)@)[front(entries(old(frontier)@))],
        current == old(frontier)@[front(entries(old(frontier)@))],
        final(frontier)@ == old(frontier)@.remove(front(entries(old(frontier)@))),
        entries(final(frontier)@) == entries(old(frontier)@).remove(
            front(entries(old(frontier)@)),
        ),
{
    let ghost all = entries(frontier@);
    let mut best: usize = 0;
    let mut i: usize = 1;
    assert(all.take(1).len() == 1);
    while i < frontier.len()
        invariant
            1 <= i <= frontier@.len(),
            all == entries(frontier@),
            best < i,
            best == front(all.take(i as int)),
        decreases frontier@.len() - i,
    {
        proof {
            let upto = all.take(i + 1);
            assert(upto.drop_last() =~= all.take(i as int));
            assert(upto.last() == entry_of(frontier@[i as int]));
            assert(upto[best as int] == entry_of(frontier@[best as int]));
        }
        let challenger = &frontier[i];
        let holder = &frontier[best];
        if challenger.priority < holder.priority || (challenger.priority == holder.priority
            && challenger.cost < holder.cost) {
            best = i;
        }
        i += 1;
    }
    assert(all.take(i as int) =~= all);
    let current = frontier.remove(best);
    assert(entries(frontier@) =~= all.remove(best as int));
    current
}

} // verus!
