use vstd::prelude::*;
use std::collections::HashMap;
use crate::bits::{marks_of, Marks};
use crate::raptor::journey::{bus_count, legs_connected};
use crate::data::structures::{
    leg_from, leg_to, sum_times, walk_count, Journey, JourneyLeg, Network, RouteId, StopId, Time,
    lemma_routes_serving_bounded, law_routes_for_stop, route_ids,
};

verus! {

/// `a - b`, or zero when `b` exceeds `a`.
pub open spec fn sat_sub(a: Time, b: int) -> Time {
    if a >= b {
        (a - b) as Time
    } else {
        0
    }
}

/// Every route has a travel time for each pair of consecutive stops, and its whole
/// length in seconds fits in a `u32`.
pub open spec fn routes_usable(net: Network) -> bool {
    forall|ri: int| 0 <= ri < net.routes@.len() ==> {
        &&& (#[trigger] net.routes@[ri]).times_cover_stops()
        &&& sum_times(net.routes@[ri].travel_times@) <= u32::MAX
    }
}

/// Route `ri` passes the stop with identifier `from` at position `p` and the stop
/// with identifier `to` at a later position `q`.
pub open spec fn rides(net: Network, ri: int, p: int, q: int, from: StopId, to: StopId) -> bool {
    &&& 0 <= ri < net.routes@.len()
    &&& 0 <= p < q < net.routes@[ri].stops@.len()
    &&& net.routes@[ri].stops@[p] == from
    &&& net.routes@[ri].stops@[q] == to
}

/// A ride on a route with identifier `route_id` from stop `from` to stop `to`, which
/// must leave `from` at `dep` to reach `to` at `arr` (times before midnight clip to zero).
pub open spec fn bus_hop(net: Network, route_id: RouteId, from: StopId, to: StopId, dep: Time, arr: Time) -> bool {
    exists|ri: int, p: int, q: int|
        #[trigger] rides(net, ri, p, q, from, to)
        && net.routes@[ri].id == route_id
        && dep == sat_sub(arr, net.routes@[ri].time_between(p, q))
}

/// The network has a walking transfer from stop `from` to stop `to`.
pub open spec fn walk_hop(net: Network, from: StopId, to: StopId) -> bool {
    exists|t: int|
        0 <= t < net.transfers@.len()
        && (#[trigger] net.transfers@[t]).from_stop == from
        && net.transfers@[t].to_stop == to
}

/// Some route uses `u32::MAX`, the identifier that journey reconstruction reads as
/// a walk.
pub open spec fn uses_walk_marker(net: Network) -> bool {
    route_ids(net.routes@).contains(u32::MAX)
}

/// A journey leg that the network supports: a bus leg rides a route of the network
/// and its departure is its arrival minus the route's travel time; a walk leg is a
/// transfer of the network, or a ride on a route whose identifier is the walk marker.
pub open spec fn leg_in_network(net: Network, leg: JourneyLeg) -> bool {
    match leg {
        JourneyLeg::Bus { route_id, from_stop, to_stop, departure_time, arrival_time } =>
            bus_hop(net, route_id, from_stop, to_stop, departure_time, arrival_time),
        JourneyLeg::Walk { from_stop, to_stop, .. } =>
            walk_hop(net, from_stop, to_stop)
            || exists|ri: int, p: int, q: int|
                #[trigger] rides(net, ri, p, q, from_stop, to_stop) && net.routes@[ri].id == u32::MAX,
    }
}

/// The time on the clock after `legs`, starting at `t`: a ride ends at its arrival, a
/// walk adds its duration.
pub open spec fn clock(legs: Seq<JourneyLeg>, t: int) -> int
    decreases legs.len(),
{
    if legs.len() == 0 {
        t
    } else {
        match legs.last() {
            JourneyLeg::Bus { arrival_time, .. } => arrival_time as int,
            JourneyLeg::Walk { duration, .. } => clock(legs.drop_last(), t) + duration,
        }
    }
}

/// The legs run on the clock from `t`: each ride leaves at the time that the legs
/// before it reach (a ride's arrival plus the walks after it is the next ride's
/// departure).
pub open spec fn on_time(legs: Seq<JourneyLeg>, t: int) -> bool
    decreases legs.len(),
{
    legs.len() == 0 || (on_time(legs.drop_last(), t)
        && (legs.last() is Bus ==> legs.last()->departure_time == clock(legs.drop_last(), t)))
}

/// Legs `i..=j` are all walks.
pub open spec fn walk_run(legs: Seq<JourneyLeg>, i: int, j: int) -> bool {
    forall|k: int| i <= k <= j ==> (#[trigger] legs[k]) is Walk
}

/// Within each run of walks between rides, no stop is passed twice.
pub open spec fn walks_simple(legs: Seq<JourneyLeg>) -> bool {
    forall|i: int, j: int| 0 <= i <= j < legs.len() && #[trigger] walk_run(legs, i, j)
        ==> leg_from(legs[i]) != leg_to(legs[j])
}

/// One more leg keeps the legs on the clock when a ride leaves at the time reached.
proof fn lemma_clock_push(legs: Seq<JourneyLeg>, leg: JourneyLeg, t: int)
    ensures
        clock(legs.push(leg), t) == match leg {
            JourneyLeg::Bus { arrival_time, .. } => arrival_time as int,
            JourneyLeg::Walk { duration, .. } => clock(legs, t) + duration,
        },
        on_time(legs.push(leg), t) == (on_time(legs, t)
            && (leg is Bus ==> leg->departure_time == clock(legs, t))),
{
    assert(legs.push(leg).drop_last() =~= legs);
}

/// A ride, or a walk to a stop that the current run of walks (from position `base`
/// on) has not passed, keeps the walks simple.
proof fn lemma_walks_simple_push(legs: Seq<JourneyLeg>, leg: JourneyLeg, base: int)
    requires
        walks_simple(legs),
        0 <= base <= legs.len(),
        base > 0 ==> legs[base - 1] is Bus,
        leg is Walk ==> leg_from(leg) != leg_to(leg),
        leg is Walk ==> forall|i: int| base <= i < legs.len() ==> leg_from(#[trigger] legs[i]) != leg_to(leg),
    ensures
        walks_simple(legs.push(leg)),
{
    let nl = legs.push(leg);
    assert forall|i: int, j: int| 0 <= i <= j < nl.len() && #[trigger] walk_run(nl, i, j)
        implies leg_from(nl[i]) != leg_to(nl[j]) by {
        if j < legs.len() {
            assert forall|k: int| i <= k <= j implies (#[trigger] legs[k]) is Walk by {
                assert(nl[k] is Walk);
            }
            assert(walk_run(legs, i, j));
        } else {
            assert(nl[j] == leg);
            assert(leg is Walk);
            if i < j {
                if i < base {
                    assert(nl[base - 1] is Walk);
                }
                assert(nl[i] == legs[i]);
            }
        }
    }
}

/// What a journey found by `find_route` satisfies. Its legs run in travel order from
/// its start stop (the given `start`, when there is one): consecutive legs meet, each
/// leg is supported by the network, the first leg, when a ride, leaves at the journey's
/// departure, and consecutive rides hand over at the same time. The journey arrives at
/// the target time, departs no later, lasts the difference, and counts every walk as a
/// transfer. Where no route uses the walk marker, the last leg is a ride that reaches
/// the destination at the target time.
pub open spec fn found_journey(net: Network, j: Journey, destination_id: StopId, target: Time, start: Option<StopId>) -> bool {
    let legs = j.legs@;
    &&& legs.len() > 0
    &&& j.arrival_time == target
    &&& j.departure_time <= target
    &&& j.total_time == target - j.departure_time
    &&& j.num_transfers == walk_count(legs)
    &&& chain_from(net, legs, leg_from(legs[0]), j.departure_time)
    &&& (start matches Some(id) ==> leg_from(legs[0]) == id)
    &&& (!uses_walk_marker(net) ==> {
        &&& legs.last() is Bus
        &&& leg_to(legs.last()) == destination_id
        &&& legs.last()->arrival_time == target
        &&& on_time(legs, j.departure_time as int)
        &&& clock(legs, j.departure_time as int) == target
        &&& walks_simple(legs)
    })
}

/// A journey that `find_route` can return is valid in the sense of `Journey::is_valid`
/// (it has legs, and each starts where the one before ends), starts at the requested
/// stop when one was given, and, where no route uses the walk marker, ends at the
/// destination searched for.
pub proof fn law_found_journey_is_valid(net: Network, j: Journey, destination_id: StopId, target: Time, start: Option<StopId>)
    requires
        found_journey(net, j, destination_id, target, start),
    ensures
        j.legs@.len() > 0 && legs_connected(j.legs@),
        start matches Some(o) ==> leg_from(j.legs@[0]) == o,
        !uses_walk_marker(net) ==> leg_to(j.legs@.last()) == destination_id,
{
}

/// Legs in travel order from the stop `start_id`: each leg ends where the next one
/// starts, each is supported by the network, the first departs at `dep` if it is a
/// ride, consecutive rides hand over at the same time; where no route uses the walk
/// marker, the last leg is a ride that reaches `dest_id` at `target`.
pub open spec fn forward_chain(net: Network, legs: Seq<JourneyLeg>, start_id: StopId, dep: Time, dest_id: StopId, target: Time) -> bool {
    &&& chain_from(net, legs, start_id, dep)
    &&& (!uses_walk_marker(net) ==> {
        &&& legs.last() is Bus
        &&& leg_to(legs.last()) == dest_id
        &&& legs.last()->arrival_time == target
        &&& on_time(legs, dep as int)
        &&& clock(legs, dep as int) == target
        &&& walks_simple(legs)
    })
}

/// Legs in travel order from the stop `start_id`: each leg ends where the next one
/// starts, each is supported by the network, the first departs at `dep` if it is a
/// ride, and consecutive rides hand over at the same time.
pub open spec fn chain_from(net: Network, legs: Seq<JourneyLeg>, start_id: StopId, dep: Time) -> bool {
    &&& legs.len() > 0
    &&& leg_from(legs[0]) == start_id
    &&& forall|i: int| 0 <= i < legs.len() - 1 ==> #[trigger] leg_to(legs[i]) == leg_from(legs[i + 1])
    &&& forall|i: int| 0 <= i < legs.len() ==> leg_in_network(net, #[trigger] legs[i])
    &&& (legs[0] is Bus ==> legs[0]->departure_time == dep)
    &&& forall|i: int| 0 <= i < legs.len() - 1 && #[trigger] legs[i] is Bus && legs[i + 1] is Bus
        ==> legs[i]->arrival_time == legs[i + 1]->departure_time
}

/// Appending a leg that starts where the chain ends, and that takes over the time
/// of a ride before it, extends the chain.
proof fn lemma_chain_push(net: Network, legs: Seq<JourneyLeg>, leg: JourneyLeg, start_id: StopId, dep: Time)
    requires
        legs.len() > 0 ==> chain_from(net, legs, start_id, dep),
        leg_in_network(net, leg),
        legs.len() == 0 ==> leg_from(leg) == start_id && (leg is Bus ==> leg->departure_time == dep),
        legs.len() > 0 ==> leg_to(legs.last()) == leg_from(leg),
        legs.len() > 0 && legs.last() is Bus && leg is Bus ==> legs.last()->arrival_time == leg->departure_time,
    ensures
        chain_from(net, legs.push(leg), start_id, dep),
{
    let nl = legs.push(leg);
    assert(nl.last() == leg);
    assert forall|i: int| 0 <= i < nl.len() - 1 implies #[trigger] leg_to(nl[i]) == leg_from(nl[i + 1]) by {
        assert(nl[i] == legs[i]);
        if i < legs.len() - 1 {
            assert(nl[i + 1] == legs[i + 1]);
        }
    }
    assert forall|i: int| 0 <= i < nl.len() - 1 && #[trigger] nl[i] is Bus && nl[i + 1] is Bus
        implies nl[i]->arrival_time == nl[i + 1]->departure_time by {
        assert(nl[i] == legs[i]);
        if i < legs.len() - 1 {
            assert(nl[i + 1] == legs[i + 1]);
        }
    }
    assert forall|i: int| 0 <= i < nl.len() implies leg_in_network(net, #[trigger] nl[i]) by {
        if i < legs.len() {
            assert(nl[i] == legs[i]);
        }
    }
    if legs.len() > 0 {
        assert(nl[0] == legs[0]);
    }
}

/// What a parent entry gives the journey rebuilt from it: a walk entry, when no route
/// uses the walk marker, leads to a stop with a time in the same round; a ride entry
/// leads to a stop with a time in the round before.
proof fn lemma_parent_step(net: Network, st: RaptorState, s: int, r: int, l: Parent)
    requires
        link_ok(net, st, s, r, l),
    ensures
        l.1 == u32::MAX && !uses_walk_marker(net) ==> st.time(r, l.0 as int) < u32::MAX
            && walk_hop(net, net.stops@[s].id, net.stops@[l.0 as int].id),
        l.1 != u32::MAX ==> r >= 1 && st.time(r - 1, l.0 as int) < u32::MAX,
        l.1 != u32::MAX ==> bus_hop(net, l.1, net.stops@[s].id, net.stops@[l.0 as int].id,
            st.time(r, s), st.time(r - 1, l.0 as int)),
{
    let p0 = l.0 as int;
    if l.1 == u32::MAX && !uses_walk_marker(net)
        && !(st.time(r, p0) < u32::MAX && walk_hop(net, net.stops@[s].id, net.stops@[p0].id)) {
        let from = net.stops@[s].id;
        let to = net.stops@[p0].id;
        assert(bus_hop(net, l.1, from, to, st.time(r, s), st.time(r - 1, p0)));
        let (ri, p, q) = choose|ri: int, p: int, q: int|
            #[trigger] rides(net, ri, p, q, from, to)
            && net.routes@[ri].id == l.1
            && st.time(r, s) == sat_sub(st.time(r - 1, p0), net.routes@[ri].time_between(p, q));
        assert(route_ids(net.routes@)[ri] == u32::MAX);
    }
}

/// A walk parent entry gives a walk leg that the network supports.
proof fn lemma_walk_leg(net: Network, st: RaptorState, s: int, r: int, l: Parent, duration: Time)
    requires
        link_ok(net, st, s, r, l),
        l.1 == u32::MAX,
        0 <= s < net.stops@.len(),
    ensures
        leg_in_network(net, JourneyLeg::Walk {
            from_stop: net.stops@[s].id,
            to_stop: net.stops@[l.0 as int].id,
            duration,
        }),
{
    let from = net.stops@[s].id;
    let to = net.stops@[l.0 as int].id;
    if !walk_hop(net, from, to) {
        let p0 = l.0 as int;
        assert(bus_hop(net, l.1, from, to, st.time(r, s), st.time(r - 1, p0)));
        let (ri, p, q) = choose|ri: int, p: int, q: int|
            #[trigger] rides(net, ri, p, q, from, to)
            && net.routes@[ri].id == l.1
            && st.time(r, s) == sat_sub(st.time(r - 1, p0), net.routes@[ri].time_between(p, q));
        assert(rides(net, ri, p, q, from, to) && net.routes@[ri].id == u32::MAX);
    }
}

/// Where transfer `t` walks to the stop with table index `s`, which has a time in
/// round `round` of `before`, from a stop the network knows, and that time less the
/// walk is no earlier than `floor`, the walking stop has a time in `after` no earlier
/// than that.
spec fn walk_relaxed(net: Network, before: RaptorState, after: RaptorState, round: int, floor: Time, s: int, t: int) -> bool {
    0 <= t < net.transfers@.len() && net.transfers@[t].to_stop == net.stops@[s].id
        && net.stop_index_of(net.transfers@[t].from_stop) is Some
        && before.time(round, s) < u32::MAX
        && sat_sub(before.time(round, s), net.transfers@[t].walk_time as int) >= floor
        ==> after.time(round, net.stop_index_of(net.transfers@[t].from_stop)->0 as int) != u32::MAX
            && after.time(round, net.stop_index_of(net.transfers@[t].from_stop)->0 as int)
                >= sat_sub(before.time(round, s), net.transfers@[t].walk_time as int)
}

/// Improving times of a round keeps a walk bound.
proof fn lemma_walk_relaxed_raise(net: Network, before: RaptorState, a: RaptorState, b: RaptorState, round: int, floor: Time, s: int, t: int)
    requires
        net.wf(),
        walk_relaxed(net, before, a, round, floor, s, t),
        forall|x: int| 0 <= x < net.stops@.len() ==> no_worse(#[trigger] b.time(round, x), a.time(round, x)),
    ensures
        walk_relaxed(net, before, b, round, floor, s, t),
{
    if 0 <= t < net.transfers@.len() {
        net.lemma_stop_index(net.transfers@[t].from_stop);
        if net.stop_index_of(net.transfers@[t].from_stop) is Some {
            let f = net.stop_index_of(net.transfers@[t].from_stop)->0 as int;
            assert(no_worse(b.time(round, f), a.time(round, f)));
        }
    }
}

/// A backward RAPTOR router: from a destination and a time to arrive there, it
/// works back round by round, one more ride per round, keeping at each stop the
/// latest departure found that still arrives in time.
#[derive(Debug)]
pub struct BackwardRaptor {
    pub network: Network,
    max_rounds: usize,
    max_departure_delay: Time,
}

/// Where a stop's best time in a round came from: the stop it leads to, the route
/// ridden (`u32::MAX` for a walk), and the round.
pub type Parent = (usize, RouteId, usize);

/// The tables of one search.
struct RaptorState {
    /// `best_times[r][s]`: the best time found at stop index `s` in round `r`, `u32::MAX` when none.
    best_times: Vec<Vec<Time>>,
    /// `parents[s]`: for each round where stop `s` has a time, where that time came from.
    parents: Vec<HashMap<usize, Parent>>,
    /// Stops improved in the previous round.
    marked_stops: Marks,
    /// Routes to scan in the current round.
    marked_routes: Marks,
    /// A rank per round and stop that orders the walks recorded in a round: a stop
    /// that walks to another has an earlier time, or the same time and a higher rank.
    ranks: Ghost<Map<(int, int), nat>>,
}

impl RaptorState {
    spec fn time(&self, r: int, s: int) -> Time {
        self.best_times@[r]@[s]
    }

    spec fn parent_map(&self, s: int) -> Map<usize, Parent> {
        self.parents@[s]@
    }

    spec fn rank(&self, r: int, s: int) -> nat {
        self.ranks@[(r, s)]
    }

    /// The tables have one row per round `0..=rounds`, one column per stop, and the
    /// marks have one flag per stop and per route.
    spec fn shaped(&self, n: nat, nroutes: nat, rounds: nat) -> bool {
        &&& self.best_times@.len() == rounds + 1
        &&& forall|r: int| 0 <= r <= rounds ==> (#[trigger] self.best_times@[r])@.len() == n
        &&& self.parents@.len() == n
        &&& marks_of(self.marked_stops).len() == n
        &&& marks_of(self.marked_routes).len() == nroutes
    }
}

/// What a parent entry of stop `s` in round `r` says holds in the network: a walk
/// to a stop with a time in the same round, or a ride to a stop with a time in the
/// previous round that leaves `s` exactly at `s`'s time.
spec fn link_ok(net: Network, st: RaptorState, s: int, r: int, link: Parent) -> bool {
    let p = link.0 as int;
    &&& link.2 == r
    &&& 0 <= p < net.stops@.len()
    &&& {
        ||| (link.1 == u32::MAX && st.time(r, p) < u32::MAX
            && walk_hop(net, net.stops@[s].id, net.stops@[p].id))
        ||| (r >= 1 && st.time(r - 1, p) < u32::MAX
            && bus_hop(net, link.1, net.stops@[s].id, net.stops@[p].id, st.time(r, s), st.time(r - 1, p)))
    }
}

/// The invariant of the search tables: round 0 holds only the destination at the
/// target time; no time exceeds the target; every time of a later round has a
/// parent entry that the network supports, and every parent entry has a time.
spec fn table_ok(net: Network, st: RaptorState, rounds: nat, dest: int, target: Time) -> bool {
    let n = net.stops@.len();
    &&& st.shaped(n, net.routes@.len(), rounds)
    &&& forall|s: int| 0 <= s < n ==> #[trigger] st.time(0, s) == (if s == dest { target } else { u32::MAX })
    &&& forall|r: int, s: int| 0 <= r <= rounds && 0 <= s < n
        ==> #[trigger] st.time(r, s) == u32::MAX || st.time(r, s) <= target
    &&& forall|r: int, s: int| 1 <= r <= rounds && 0 <= s < n && #[trigger] st.time(r, s) < u32::MAX
        ==> st.parent_map(s).contains_key(r as usize) && link_ok(net, st, s, r, st.parent_map(s)[r as usize])
    &&& forall|s: int, k: usize| 0 <= s < n && #[trigger] st.parent_map(s).contains_key(k)
        ==> 1 <= k <= rounds && st.time(k as int, s) < u32::MAX
    &&& walks_ordered(net, st, n)
    &&& forall|r: int, s: int| 1 <= r <= rounds && 0 <= s < n && #[trigger] st.time(r, s) < u32::MAX
        ==> net.stop_index_of(net.stops@[s].id) == Some(s as usize)
}

/// In round `r`, stop `a` comes before stop `b` in walking order: an earlier time, or
/// the same time and a higher rank.
spec fn walk_before(st: RaptorState, r: int, a: int, b: int) -> bool {
    ||| st.time(r, a) < st.time(r, b)
    ||| (st.time(r, a) == st.time(r, b) && st.rank(r, a) > st.rank(r, b))
}

/// Where no route uses the walk marker, every walk entry leads to a stop later in
/// walking order, so the walk entries of a round never lead round in a circle.
spec fn walks_ordered(net: Network, st: RaptorState, n: nat) -> bool {
    !uses_walk_marker(net) ==> forall|s: int, k: usize| 0 <= s < n && #[trigger] st.parent_map(s).contains_key(k)
        && st.parent_map(s)[k].1 == u32::MAX
        ==> walk_before(st, k as int, s, st.parent_map(s)[k].0 as int)
            && st.time(k as int, st.parent_map(s)[k].0 as int) < u32::MAX
}

/// An improvement found while scanning route `ri` in round `round`: stop `imp.0`
/// can leave at `imp.1` by riding that route to stop `imp.2.0`, which has a time in
/// the previous round; the time is no earlier than `floor` and later than the stop's
/// time in this round, if it has one.
spec fn improvement_ok(net: Network, st: RaptorState, ri: int, round: int, floor: Time, imp: (usize, Time, Parent)) -> bool {
    let s = imp.0 as int;
    let p = imp.2.0 as int;
    &&& 0 <= s < net.stops@.len()
    &&& 0 <= p < net.stops@.len()
    &&& imp.2.1 == net.routes@[ri].id
    &&& imp.2.2 == round
    &&& st.time(round - 1, p) < u32::MAX
    &&& imp.1 <= st.time(round - 1, p)
    &&& bus_hop(net, imp.2.1, net.stops@[s].id, net.stops@[p].id, imp.1, st.time(round - 1, p))
    &&& imp.1 >= floor
    &&& (st.time(round, s) == u32::MAX || imp.1 > st.time(round, s))
    &&& net.stop_index_of(net.stops@[s].id) == Some(imp.0)
}

/// Every time of a round after the first is at least `floor`.
spec fn above_floor(st: RaptorState, rounds: nat, n: nat, floor: Time) -> bool {
    forall|r: int, s: int| 1 <= r <= rounds && 0 <= s < n
        ==> #[trigger] st.time(r, s) == u32::MAX || st.time(r, s) >= floor
}

/// `new` is at least as good as `old`: `old` is no time, or `new` is a time no earlier.
spec fn no_worse(new: Time, old: Time) -> bool {
    old == u32::MAX || (new != u32::MAX && new >= old)
}

/// No stop has a time in a round after `cur`.
spec fn later_rows_empty(st: RaptorState, cur: int, rounds: nat, n: nat) -> bool {
    forall|r: int, s: int| cur < r <= rounds && 0 <= s < n ==> #[trigger] st.time(r, s) == u32::MAX
}

/// `b` is `a` with the time of stop `s` in round `round` set to `t` and its parent
/// entry for that round set to `link`.
spec fn lowered(a: RaptorState, b: RaptorState, round: int, s: int, t: Time, link: Parent) -> bool {
    &&& b.best_times@.len() == a.best_times@.len()
    &&& forall|r: int| 0 <= r < a.best_times@.len() && r != round ==> #[trigger] b.best_times@[r] == a.best_times@[r]
    &&& b.best_times@[round]@ == a.best_times@[round]@.update(s, t)
    &&& b.parents@.len() == a.parents@.len()
    &&& forall|x: int| 0 <= x < a.parents@.len() && x != s ==> #[trigger] b.parents@[x] == a.parents@[x]
    &&& b.parents@[s]@ == a.parents@[s]@.insert(round as usize, link)
    &&& b.marked_stops == a.marked_stops
    &&& b.marked_routes == a.marked_routes
}

/// Setting a time in the current round to a value the network supports keeps the
/// table invariant.
proof fn lemma_lower_time(
    net: Network,
    a: RaptorState,
    b: RaptorState,
    rounds: nat,
    dest: int,
    target: Time,
    round: int,
    s: int,
    t: Time,
    link: Parent,
)
    requires
        table_ok(net, a, rounds, dest, target),
        later_rows_empty(a, round, rounds, net.stops@.len()),
        1 <= round <= rounds,
        0 <= s < net.stops@.len(),
        t < u32::MAX,
        t <= target,
        lowered(a, b, round, s, t, link),
        link_ok(net, b, s, round, link),
        a.time(round, s) == u32::MAX || t > a.time(round, s),
        forall|r: int, x: int| !(r == round && x == s) ==> #[trigger] b.rank(r, x) == a.rank(r, x),
        link.1 == u32::MAX && !uses_walk_marker(net) ==> walk_before(b, round, s, link.0 as int)
            && b.time(round, link.0 as int) < u32::MAX,
        net.stop_index_of(net.stops@[s].id) == Some(s as usize),
    ensures
        table_ok(net, b, rounds, dest, target),
        later_rows_empty(b, round, rounds, net.stops@.len()),
{
    let n = net.stops@.len();
    assert forall|r: int| 0 <= r <= rounds implies (#[trigger] b.best_times@[r])@.len() == n by {
        if r != round {
            assert(b.best_times@[r] == a.best_times@[r]);
        }
    }
    assert forall|r: int, x: int| 0 <= r <= rounds && 0 <= x < n && !(r == round && x == s)
        implies #[trigger] b.time(r, x) == a.time(r, x) by {
        if r != round {
            assert(b.best_times@[r] == a.best_times@[r]);
        }
    }
    assert forall|x: int| 0 <= x < n implies #[trigger] b.time(0, x) == (if x == dest { target } else { u32::MAX }) by {
        assert(a.time(0, x) == (if x == dest { target } else { u32::MAX }));
    }
    assert forall|r: int, x: int| 0 <= r <= rounds && 0 <= x < n
        implies #[trigger] b.time(r, x) == u32::MAX || b.time(r, x) <= target by {
        assert(a.time(r, x) == u32::MAX || a.time(r, x) <= target);
    }
    assert forall|x: int| 0 <= x < n && x != s implies #[trigger] b.parent_map(x) == a.parent_map(x) by {
        assert(b.parents@[x] == a.parents@[x]);
    }
    assert forall|r: int, x: int| 1 <= r <= rounds && 0 <= x < n && #[trigger] b.time(r, x) < u32::MAX
        implies b.parent_map(x).contains_key(r as usize) && link_ok(net, b, x, r, b.parent_map(x)[r as usize]) by {
        if r == round && x == s {
        } else {
            assert(a.time(r, x) < u32::MAX);
            assert(a.parent_map(x).contains_key(r as usize));
            let l = a.parent_map(x)[r as usize];
            assert(link_ok(net, a, x, r, l));
            if x == s {
                assert(r != round);
                assert(b.parent_map(x)[r as usize] == l);
            }
            let p = l.0 as int;
            assert(b.parent_map(x)[r as usize] == l);
            if l.1 == u32::MAX && a.time(r, p) < u32::MAX && walk_hop(net, net.stops@[x].id, net.stops@[p].id) {
                if r == round && p == s {
                    assert(b.time(r, p) == t);
                } else {
                    assert(b.time(r, p) == a.time(r, p));
                }
            } else {
                assert(r >= 1 && a.time(r - 1, p) < u32::MAX);
                assert(r - 1 != round);
                assert(b.time(r - 1, p) == a.time(r - 1, p));
                assert(b.time(r, x) == a.time(r, x));
            }
        }
    }
    assert forall|x: int, k: usize| 0 <= x < n && #[trigger] b.parent_map(x).contains_key(k)
        implies 1 <= k <= rounds && b.time(k as int, x) < u32::MAX by {
        if x == s && k == round as usize {
        } else {
            assert(a.parent_map(x).contains_key(k));
        }
    }
    assert forall|r: int, x: int| round < r <= rounds && 0 <= x < n implies #[trigger] b.time(r, x) == u32::MAX by {
        assert(a.time(r, x) == u32::MAX);
    }
    if !uses_walk_marker(net) {
        assert forall|x: int, k: usize| 0 <= x < n && #[trigger] b.parent_map(x).contains_key(k)
            && b.parent_map(x)[k].1 == u32::MAX
            implies walk_before(b, k as int, x, b.parent_map(x)[k].0 as int)
                && b.time(k as int, b.parent_map(x)[k].0 as int) < u32::MAX by {
            if !(x == s && k == round as usize) {
                assert(a.parent_map(x).contains_key(k));
                let l = a.parent_map(x)[k];
                assert(b.parent_map(x)[k] == l);
                assert(walk_before(a, k as int, x, l.0 as int));
                let p = l.0 as int;
                assert(1 <= k <= rounds && a.time(k as int, x) < u32::MAX);
                assert(b.time(k as int, x) == a.time(k as int, x));
                assert(b.rank(k as int, x) == a.rank(k as int, x));
                if !(k == round as usize && p == s) {
                    assert(b.rank(k as int, p) == a.rank(k as int, p));
                    if 0 <= p < n {
                        assert(b.time(k as int, p) == a.time(k as int, p));
                    } else {
                        if k as int != round {
                            assert(b.best_times@[k as int] == a.best_times@[k as int]);
                        }
                    }
                }
            }
        }
    }
}

/// The invariant depends on the tables only, and on the marks' lengths.
proof fn lemma_same_tables(net: Network, a: RaptorState, b: RaptorState, rounds: nat, dest: int, target: Time, cur: int)
    requires
        table_ok(net, a, rounds, dest, target),
        later_rows_empty(a, cur, rounds, net.stops@.len()),
        a.best_times@ == b.best_times@,
        a.parents@ == b.parents@,
        a.ranks@ == b.ranks@,
        marks_of(b.marked_stops).len() == net.stops@.len(),
        marks_of(b.marked_routes).len() == net.routes@.len(),
    ensures
        table_ok(net, b, rounds, dest, target),
        later_rows_empty(b, cur, rounds, net.stops@.len()),
        forall|r: int, s: int| #[trigger] b.time(r, s) == a.time(r, s),
{
    assert forall|r: int, s: int| #![trigger b.time(r, s)] b.time(r, s) == a.time(r, s) by {}
    let n = net.stops@.len();
    assert forall|s: int| #![trigger b.parent_map(s)] b.parent_map(s) == a.parent_map(s) by {}
    assert forall|r: int, s: int, l: Parent| #![trigger link_ok(net, b, s, r, l)]
        link_ok(net, b, s, r, l) == link_ok(net, a, s, r, l) by {}
}

/// Sets the time of stop `s` in round `r`.
fn set_time(rows: &mut Vec<Vec<Time>>, r: usize, s: usize, t: Time)
    requires
        r < old(rows)@.len(),
        s < old(rows)@[r as int]@.len(),
    ensures
        final(rows)@.len() == old(rows)@.len(),
        forall|i: int| 0 <= i < old(rows)@.len() && i != r ==> #[trigger] final(rows)@[i] == old(rows)@[i],
        final(rows)@[r as int]@ == old(rows)@[r as int]@.update(s as int, t),
{
    rows[r][s] = t;
}

/// Records the parent entry of stop `s` for round `round`.
fn set_parent(parents: &mut Vec<HashMap<usize, Parent>>, s: usize, round: usize, link: Parent)
    requires
        s < old(parents)@.len(),
    ensures
        final(parents)@.len() == old(parents)@.len(),
        forall|i: int| 0 <= i < old(parents)@.len() && i != s ==> #[trigger] final(parents)@[i] == old(parents)@[i],
        final(parents)@[s as int]@ == old(parents)@[s as int]@.insert(round, link),
{
    broadcast use vstd::std_specs::hash::group_hash_axioms;

    parents[s].insert(round, link);
}

/// The table index of the stop at position `x` of route `ri` (meaningful when the
/// network knows that stop).
spec fn idx_at(net: Network, ri: int, x: int) -> int {
    net.stop_index_of(net.routes@[ri].stops@[x])->0 as int
}

/// Positions `p < q` of route `ri` whose stops the network knows, the later one with a
/// time in the previous round.
spec fn scan_case(net: Network, st: RaptorState, ri: int, round: int, p: int, q: int) -> bool {
    let stops = net.routes@[ri].stops@;
    &&& 0 <= p < q < stops.len()
    &&& net.stop_index_of(stops[p]) is Some
    &&& net.stop_index_of(stops[q]) is Some
    &&& st.time(round - 1, idx_at(net, ri, q)) < u32::MAX
}

/// Every scan case of route `ri` in round `round` whose ride leaves no earlier than
/// `floor` is met by the current time or by a proposal: the stop at `p` gets at least
/// the time of the stop at `q` less the ride between them.
#[verifier::opaque]
spec fn scan_bounded(net: Network, st: RaptorState, ri: int, round: int, floor: Time, imps: Seq<(usize, Time, Parent)>) -> bool {
    forall|p: int, q: int| #[trigger] scan_case(net, st, ri, round, p, q)
        && sat_sub(st.time(round - 1, idx_at(net, ri, q)), net.routes@[ri].time_between(p, q)) >= floor
        ==> proposed(st, imps, round, idx_at(net, ri, p),
            sat_sub(st.time(round - 1, idx_at(net, ri, q)), net.routes@[ri].time_between(p, q)) as int)
}

/// After the proposals were applied, each proposal's stop has a time no earlier than
/// its proposed time.
#[verifier::opaque]
spec fn applied(st: RaptorState, imps: Seq<(usize, Time, Parent)>, round: int) -> bool {
    forall|j: int| 0 <= j < imps.len() ==> st.time(round, (#[trigger] imps[j]).0 as int) != u32::MAX
        && st.time(round, imps[j].0 as int) >= imps[j].1
}

/// Stop `s` already has a time no earlier than `t` in round `round`, or one of the
/// proposals gives it a time no earlier than `t`.
spec fn proposed(st: RaptorState, imps: Seq<(usize, Time, Parent)>, round: int, s: int, t: int) -> bool {
    ||| (st.time(round, s) != u32::MAX && st.time(round, s) >= t)
    ||| exists|k: int| 0 <= k < imps.len() && (#[trigger] imps[k]).0 == s && imps[k].1 >= t
}

/// A hop of a journey: an optional walk (transfer `h.0`, or -1 for none) to the stop at
/// position `h.2` of route `h.1`, then a ride on that route to position `h.3`. The
/// network knows every stop it touches.
pub open spec fn hop_ok(net: Network, h: (int, int, int, int)) -> bool {
    &&& 0 <= h.1 < net.routes@.len()
    &&& 0 <= h.2 < h.3 < net.routes@[h.1].stops@.len()
    &&& net.stop_index_of(net.routes@[h.1].stops@[h.2]) is Some
    &&& net.stop_index_of(net.routes@[h.1].stops@[h.3]) is Some
    &&& (h.0 == -1 || (0 <= h.0 < net.transfers@.len()
        && net.transfers@[h.0].to_stop == net.routes@[h.1].stops@[h.2]
        && net.stop_index_of(net.transfers@[h.0].from_stop) is Some))
}

/// The stop where a hop starts: where its walk starts, or where its ride boards.
pub open spec fn hop_start(net: Network, h: (int, int, int, int)) -> StopId {
    if h.0 == -1 { net.routes@[h.1].stops@[h.2] } else { net.transfers@[h.0].from_stop }
}

/// The stop where a hop's ride alights.
pub open spec fn hop_end(net: Network, h: (int, int, int, int)) -> StopId {
    net.routes@[h.1].stops@[h.3]
}

/// When a hop must start to reach its end at `arr`: the ride's time, then the walk's,
/// taken off `arr` (clipped at zero).
pub open spec fn hop_departure(net: Network, h: (int, int, int, int), arr: Time) -> Time {
    let d = sat_sub(arr, net.routes@[h.1].time_between(h.2, h.3));
    if h.0 == -1 { d } else { sat_sub(d, net.transfers@[h.0].walk_time as int) }
}

/// When a chain of hops must start to reach its end at `target`.
pub open spec fn hops_departure(net: Network, hops: Seq<(int, int, int, int)>, target: Time) -> Time
    decreases hops.len(),
{
    if hops.len() == 0 {
        target
    } else {
        hop_departure(net, hops[0], hops_departure(net, hops.drop_first(), target))
    }
}

/// A journey of hops from stop `start` to stop `dest`: each hop is valid and ends where
/// the next one starts.
pub open spec fn hops_chain(net: Network, hops: Seq<(int, int, int, int)>, start: StopId, dest: StopId) -> bool {
    &&& hops.len() > 0
    &&& forall|i: int| 0 <= i < hops.len() ==> hop_ok(net, #[trigger] hops[i])
    &&& hop_start(net, hops[0]) == start
    &&& forall|i: int| 0 <= i < hops.len() - 1 ==> hop_end(net, #[trigger] hops[i]) == hop_start(net, hops[i + 1])
    &&& hop_end(net, hops.last()) == dest
}

/// How long a chain of hops takes in all: each hop's walk, if any, and ride.
pub open spec fn hops_duration(net: Network, hops: Seq<(int, int, int, int)>) -> int
    decreases hops.len(),
{
    if hops.len() == 0 {
        0
    } else {
        let h = hops[0];
        net.routes@[h.1].time_between(h.2, h.3)
            + (if h.0 == -1 { 0 } else { net.transfers@[h.0].walk_time as int })
            + hops_duration(net, hops.drop_first())
    }
}

/// A chain of hops must start no earlier than its whole duration before its arrival.
pub(crate) proof fn lemma_hops_departure_bound(net: Network, hops: Seq<(int, int, int, int)>, target: Time)
    requires
        forall|i: int| 0 <= i < hops.len() ==> hop_ok(net, #[trigger] hops[i]),
    ensures
        hops_duration(net, hops) >= 0,
        hops_departure(net, hops, target) >= sat_sub(target, hops_duration(net, hops)),
    decreases hops.len(),
{
    if hops.len() > 0 {
        let rest = hops.drop_first();
        assert forall|i: int| 0 <= i < rest.len() implies hop_ok(net, #[trigger] rest[i]) by {
            assert(rest[i] == hops[i + 1]);
        }
        lemma_hops_departure_bound(net, rest, target);
        let h = hops[0];
        assert(hop_ok(net, h));
        let a = sat_sub(target, hops_duration(net, rest));
        lemma_hop_departure_mono(net, h, a, hops_departure(net, rest, target));
        crate::data::structures::lemma_sum_nonneg(net.routes@[h.1].travel_times@.subrange(h.2, h.3));
    }
}

/// A journey of at most `rides` hops to `dest` (from `start`, when one is given) that
/// leaves no earlier than `floor` to arrive at `target`.
pub open spec fn journey_exists(net: Network, dest: StopId, target: Time, floor: Time, rides: nat, start: Option<StopId>) -> bool {
    exists|hops: Seq<(int, int, int, int)>| #[trigger] hops_chain(net, hops, hop_start(net, hops[0]), dest)
        && hops.len() <= rides
        && hops_departure(net, hops, target) >= floor
        && (start matches Some(o) ==> hop_start(net, hops[0]) == o)
}

/// No journey of at most `rides` hops from `start` to `dest` that leaves no earlier
/// than `floor` leaves later than `dep`.
pub open spec fn no_later_journey(net: Network, dep: Time, dest: StopId, target: Time, floor: Time, rides: nat, start: StopId) -> bool {
    forall|hops: Seq<(int, int, int, int)>| #[trigger] hops_chain(net, hops, start, dest)
        && hops.len() <= rides
        && hops_departure(net, hops, target) >= floor
        ==> hops_departure(net, hops, target) <= dep
}

/// The table index of a stop (meaningful when the network knows it).
spec fn ix(net: Network, id: StopId) -> int {
    net.stop_index_of(id)->0 as int
}

/// Round `r` is closed: every hop that ends at a stop with a time in round `r - 1`, and
/// leaves no earlier than `floor` by that time, gives its start stop a time in round `r`
/// no earlier than the hop's departure.
#[verifier::opaque]
spec fn closed_round(net: Network, st: RaptorState, r: int, floor: Time) -> bool {
    forall|h: (int, int, int, int)| #[trigger] hop_ok(net, h)
        && st.time(r - 1, ix(net, hop_end(net, h))) < u32::MAX
        && hop_departure(net, h, st.time(r - 1, ix(net, hop_end(net, h)))) >= floor
        ==> st.time(r, ix(net, hop_start(net, h))) != u32::MAX
            && st.time(r, ix(net, hop_start(net, h))) >= hop_departure(net, h, st.time(r - 1, ix(net, hop_end(net, h))))
}

/// Every ride of route `ri` to a stop with a time in round `r - 1`, leaving no earlier
/// than `floor`, gives its boarding stop a time in round `r` no earlier than that.
#[verifier::opaque]
spec fn route_closed(net: Network, st: RaptorState, ri: int, r: int, floor: Time) -> bool {
    forall|p: int, q: int| #[trigger] scan_case(net, st, ri, r, p, q)
        && sat_sub(st.time(r - 1, idx_at(net, ri, q)), net.routes@[ri].time_between(p, q)) >= floor
        ==> st.time(r, idx_at(net, ri, p)) != u32::MAX
            && st.time(r, idx_at(net, ri, p)) >= sat_sub(st.time(r - 1, idx_at(net, ri, q)), net.routes@[ri].time_between(p, q))
}

/// Scanning route `ri` in round `r` and applying what it proposed closes the route.
proof fn lemma_route_closed_by_scan(net: Network, st0: RaptorState, st1: RaptorState, ri: int, r: int, floor: Time,
    imps: Seq<(usize, Time, Parent)>, n: nat)
    requires
        n == net.stops@.len(),
        scan_bounded(net, st0, ri, r, floor, imps),
        applied(st1, imps, r),
        forall|x: int| 0 <= x < n ==> no_worse(#[trigger] st1.time(r, x), st0.time(r, x)),
        st1.best_times@[r - 1] == st0.best_times@[r - 1],
        net.wf(),
    ensures
        route_closed(net, st1, ri, r, floor),
{
    reveal(route_closed);
    reveal(scan_bounded);
    reveal(applied);
    assert forall|p: int, q: int| #[trigger] scan_case(net, st1, ri, r, p, q)
        && sat_sub(st1.time(r - 1, idx_at(net, ri, q)), net.routes@[ri].time_between(p, q)) >= floor
        implies st1.time(r, idx_at(net, ri, p)) != u32::MAX
            && st1.time(r, idx_at(net, ri, p)) >= sat_sub(st1.time(r - 1, idx_at(net, ri, q)), net.routes@[ri].time_between(p, q)) by {
        assert(st1.time(r - 1, idx_at(net, ri, q)) == st0.time(r - 1, idx_at(net, ri, q)));
        assert(scan_case(net, st0, ri, r, p, q));
        net.lemma_stop_index(net.routes@[ri].stops@[p]);
        let ip = idx_at(net, ri, p);
        let v = sat_sub(st0.time(r - 1, idx_at(net, ri, q)), net.routes@[ri].time_between(p, q)) as int;
        assert(proposed(st0, imps, r, ip, v));
        if st0.time(r, ip) != u32::MAX && st0.time(r, ip) >= v {
            assert(no_worse(st1.time(r, ip), st0.time(r, ip)));
        } else {
            let w = choose|w: int| 0 <= w < imps.len() && (#[trigger] imps[w]).0 == ip && imps[w].1 >= v;
            assert(st1.time(r, imps[w].0 as int) != u32::MAX && st1.time(r, imps[w].0 as int) >= imps[w].1);
        }
    }
}

/// Improving times of round `r`, with round `r - 1` unchanged, keeps a route closed.
proof fn lemma_route_closed_raise(net: Network, a: RaptorState, b: RaptorState, ri: int, r: int, floor: Time)
    requires
        net.wf(),
        route_closed(net, a, ri, r, floor),
        forall|x: int| 0 <= x < net.stops@.len() ==> no_worse(#[trigger] b.time(r, x), a.time(r, x)),
        b.best_times@[r - 1] == a.best_times@[r - 1],
    ensures
        route_closed(net, b, ri, r, floor),
{
    reveal(route_closed);
    assert forall|p: int, q: int| #[trigger] scan_case(net, b, ri, r, p, q)
        && sat_sub(b.time(r - 1, idx_at(net, ri, q)), net.routes@[ri].time_between(p, q)) >= floor
        implies b.time(r, idx_at(net, ri, p)) != u32::MAX
            && b.time(r, idx_at(net, ri, p)) >= sat_sub(b.time(r - 1, idx_at(net, ri, q)), net.routes@[ri].time_between(p, q)) by {
        assert(b.time(r - 1, idx_at(net, ri, q)) == a.time(r - 1, idx_at(net, ri, q)));
        assert(scan_case(net, a, ri, r, p, q));
        net.lemma_stop_index(net.routes@[ri].stops@[p]);
        assert(no_worse(b.time(r, idx_at(net, ri, p)), a.time(r, idx_at(net, ri, p))));
    }
}

/// A closed round stays closed while its row and the row before it are unchanged.
proof fn lemma_closed_same(net: Network, a: RaptorState, b: RaptorState, r: int, floor: Time)
    requires
        closed_round(net, a, r, floor),
        b.best_times@[r - 1] == a.best_times@[r - 1],
        b.best_times@[r] == a.best_times@[r],
    ensures
        closed_round(net, b, r, floor),
{
    reveal(closed_round);
    assert forall|h: (int, int, int, int)| #[trigger] hop_ok(net, h)
        && b.time(r - 1, ix(net, hop_end(net, h))) < u32::MAX
        && hop_departure(net, h, b.time(r - 1, ix(net, hop_end(net, h)))) >= floor
        implies b.time(r, ix(net, hop_start(net, h))) != u32::MAX
            && b.time(r, ix(net, hop_start(net, h))) >= hop_departure(net, h, b.time(r - 1, ix(net, hop_end(net, h)))) by {
        assert(b.time(r - 1, ix(net, hop_end(net, h))) == a.time(r - 1, ix(net, hop_end(net, h))));
        assert(b.time(r, ix(net, hop_start(net, h))) == a.time(r, ix(net, hop_start(net, h))));
    }
}

/// A round whose previous row has no time is closed: no hop ends at a reached stop.
proof fn lemma_closed_empty(net: Network, st: RaptorState, r: int, floor: Time)
    requires
        net.wf(),
        forall|x: int| 0 <= x < net.stops@.len() ==> #[trigger] st.time(r - 1, x) == u32::MAX,
    ensures
        closed_round(net, st, r, floor),
{
    reveal(closed_round);
    assert forall|h: (int, int, int, int)| #[trigger] hop_ok(net, h)
        && st.time(r - 1, ix(net, hop_end(net, h))) < u32::MAX
        && hop_departure(net, h, st.time(r - 1, ix(net, hop_end(net, h)))) >= floor
        implies st.time(r, ix(net, hop_start(net, h))) != u32::MAX
            && st.time(r, ix(net, hop_start(net, h))) >= hop_departure(net, h, st.time(r - 1, ix(net, hop_end(net, h)))) by {
        net.lemma_stop_index(hop_end(net, h));
    }
}

/// A hop's departure is monotone in its arrival, and no later than its ride alone.
proof fn lemma_hop_departure_mono(net: Network, h: (int, int, int, int), a: Time, b: Time)
    requires
        hop_ok(net, h),
        a <= b,
    ensures
        hop_departure(net, h, a) <= hop_departure(net, h, b),
        hop_departure(net, h, b) <= sat_sub(b, net.routes@[h.1].time_between(h.2, h.3)),
        hop_departure(net, h, b) <= b,
{
    crate::data::structures::lemma_sum_nonneg(net.routes@[h.1].travel_times@.subrange(h.2, h.3));
}

/// After a round whose marked routes were all scanned and whose walks were taken, the
/// round is closed.
proof fn lemma_closed_after_round(
    net: Network,
    marks_st: RaptorState,
    scanned: RaptorState,
    fin: RaptorState,
    marked: Seq<usize>,
    improved: Seq<bool>,
    r: int,
    floor: Time,
)
    requires
        net.wf(),
        r >= 1,
        forall|x: int| 0 <= x < net.stops@.len() ==> (#[trigger] marks_of(marks_st.marked_stops)[x]
            <==> marks_st.time(r - 1, x) < u32::MAX),
        forall|rr: int| 0 <= rr < net.routes@.len() ==>
            (#[trigger] marks_of(marks_st.marked_routes)[rr] <==> exists|s: int|
                0 <= s < net.stops@.len() && marks_of(marks_st.marked_stops)[s]
                && #[trigger] net.stop_routes@[s]@.contains(rr as usize)),
        forall|k: int| 0 <= k < net.routes@.len() && marks_of(marks_st.marked_routes)[k] ==> marked.contains(k as usize),
        forall|a: int| 0 <= a < marked.len() ==> #[trigger] route_closed(net, scanned, marked[a] as int, r, floor),
        scanned.best_times@[r - 1] == marks_st.best_times@[r - 1],
        fin.best_times@[r - 1] == marks_st.best_times@[r - 1],
        improved.len() == net.stops@.len(),
        forall|x: int| 0 <= x < net.stops@.len() ==> (#[trigger] improved[x] <==> scanned.time(r, x) < u32::MAX),
        forall|s: int, t: int| 0 <= s < net.stops@.len() && improved[s]
            ==> #[trigger] walk_relaxed(net, scanned, fin, r, floor, s, t),
        forall|x: int| 0 <= x < net.stops@.len() ==> no_worse(#[trigger] fin.time(r, x), scanned.time(r, x)),
    ensures
        closed_round(net, fin, r, floor),
{
    reveal(closed_round);
    reveal(route_closed);
    assert(net.routes.len() == net.routes@.len());
    assert(net.stops.len() == net.stops@.len());
    assert forall|h: (int, int, int, int)| #[trigger] hop_ok(net, h)
        && fin.time(r - 1, ix(net, hop_end(net, h))) < u32::MAX
        && hop_departure(net, h, fin.time(r - 1, ix(net, hop_end(net, h)))) >= floor
        implies fin.time(r, ix(net, hop_start(net, h))) != u32::MAX
            && fin.time(r, ix(net, hop_start(net, h))) >= hop_departure(net, h, fin.time(r - 1, ix(net, hop_end(net, h)))) by {
        let ri = h.1;
        let p = h.2;
        let q = h.3;
        let stops = net.routes@[ri].stops@;
        net.lemma_stop_index(stops[p]);
        net.lemma_stop_index(stops[q]);
        let iq = ix(net, stops[q]);
        let arr = marks_st.time(r - 1, iq);
        assert(fin.time(r - 1, iq) == arr);
        assert(scanned.time(r - 1, iq) == arr);
        assert(marks_of(marks_st.marked_stops)[iq]);
        law_routes_for_stop(net, iq, ri);
        assert(net.stop_index_of(stops[q]) == Some(iq as usize));
        assert(net.stop_routes@[iq]@.contains(ri as usize));
        assert(marks_of(marks_st.marked_routes)[ri]);
        let a = choose|a: int| 0 <= a < marked.len() && marked[a] == ri as usize;
        assert(marked[a] as int == ri);
        assert(route_closed(net, scanned, marked[a] as int, r, floor));
        let v = sat_sub(arr, net.routes@[ri].time_between(p, q));
        lemma_hop_departure_mono(net, h, arr, arr);
        assert(idx_at(net, ri, q) == iq);
        assert(scan_case(net, scanned, ri, r, p, q));
        let ip = idx_at(net, ri, p);
        assert(scanned.time(r, ip) != u32::MAX && scanned.time(r, ip) >= v);
        assert(no_worse(fin.time(r, ip), scanned.time(r, ip)));
        if h.0 != -1 {
            let t = h.0;
            net.lemma_stop_index(net.transfers@[t].from_stop);
            assert(improved[ip]);
            assert(net.stops@[ip].id == stops[p]);
            assert(walk_relaxed(net, scanned, fin, r, floor, ip, t));
        }
    }
}

/// The bound a closed table gives a journey: over the first `hops.len()` rounds, its
/// start stop has a time no earlier than the journey's departure.
proof fn lemma_hops_bound(
    net: Network,
    st: RaptorState,
    rounds: nat,
    dest: int,
    dest_id: StopId,
    target: Time,
    floor: Time,
    hops: Seq<(int, int, int, int)>,
    start: StopId,
)
    requires
        net.wf(),
        forall|r: int| 1 <= r <= rounds ==> #[trigger] closed_round(net, st, r, floor),
        forall|s: int| 0 <= s < net.stops@.len() ==> #[trigger] st.time(0, s) == (if s == dest { target } else { u32::MAX }),
        net.stop_index_of(dest_id) == Some(dest as usize),
        0 <= dest < net.stops@.len(),
        target < u32::MAX,
        hops_chain(net, hops, start, dest_id),
        hops.len() <= rounds,
        hops_departure(net, hops, target) >= floor,
    ensures
        exists|j: int| 1 <= j <= hops.len() && #[trigger] st.time(j, ix(net, start)) != u32::MAX
            && st.time(j, ix(net, start)) >= hops_departure(net, hops, target),
    decreases hops.len(),
{
    reveal(closed_round);
    let h = hops[0];
    assert(hop_ok(net, h));
    let rest = hops.drop_first();
    let arr_need = hops_departure(net, rest, target);
    assert(hops_departure(net, hops, target) == hop_departure(net, h, arr_need));
    net.lemma_stop_index(hop_end(net, h));
    assert(net.stops.len() == net.stops@.len());
    if rest.len() == 0 {
        assert(hop_end(net, h) == dest_id);
        assert(ix(net, hop_end(net, h)) == dest);
        assert(st.time(0, dest) == target);
        assert(arr_need == target);
        assert(closed_round(net, st, 1, floor));
        assert(st.time(1 - 1, ix(net, hop_end(net, h))) == target);
    } else {
        assert forall|i: int| 0 <= i < rest.len() implies hop_ok(net, #[trigger] rest[i]) by {
            assert(rest[i] == hops[i + 1]);
        }
        assert forall|i: int| 0 <= i < rest.len() - 1 implies hop_end(net, #[trigger] rest[i]) == hop_start(net, rest[i + 1]) by {
            assert(rest[i] == hops[i + 1]);
            assert(rest[i + 1] == hops[i + 2]);
        }
        assert(rest.last() == hops.last());
        assert(hop_end(net, hops[0]) == hop_start(net, hops[1]));
        assert(rest[0] == hops[1]);
        lemma_hop_departure_mono(net, h, arr_need, arr_need);
        assert(arr_need >= floor);
        lemma_hops_bound(net, st, rounds, dest, dest_id, target, floor, rest, hop_end(net, h));
        let j = choose|j: int| 1 <= j <= rest.len() && #[trigger] st.time(j, ix(net, hop_end(net, h))) != u32::MAX
            && st.time(j, ix(net, hop_end(net, h))) >= arr_need;
        let arr = st.time(j, ix(net, hop_end(net, h)));
        lemma_hop_departure_mono(net, h, arr_need, arr);
        assert(closed_round(net, st, j + 1, floor));
        assert(st.time(j + 1 - 1, ix(net, hop_end(net, h))) == arr);
        assert(st.time(j + 1, ix(net, hop_start(net, h))) >= hop_departure(net, h, arr));
    }
}

/// The stop a search is held to start from: the requested stop, when the network
/// knows it; otherwise the search may start anywhere.
pub open spec fn search_start(net: Network, from_stop_id: Option<StopId>) -> Option<StopId> {
    match from_stop_id {
        Some(id) => if net.stop_index_of(id) is Some { Some(id) } else { None },
        None => None,
    }
}

/// The latest time of stop `x` in rounds `1..=k`, or -1 when it has none there.
spec fn latest_upto(st: RaptorState, x: int, k: int) -> int
    decreases k,
{
    if k < 1 {
        -1
    } else {
        let prev = latest_upto(st, x, k - 1);
        let t = st.time(k, x);
        if t < u32::MAX && t > prev { t as int } else { prev }
    }
}

/// A latest time is -1 or a time of the stop.
proof fn lemma_latest_upto_nonneg(st: RaptorState, x: int, k: int)
    ensures
        latest_upto(st, x, k) >= -1,
        latest_upto(st, x, k) < u32::MAX,
    decreases k,
{
    if k >= 1 {
        lemma_latest_upto_nonneg(st, x, k - 1);
    }
}

/// The latest time over rounds `1..=k` is no earlier than the time of any of them.
proof fn lemma_latest_upto_ge(st: RaptorState, x: int, k: int, r: int)
    requires
        1 <= r <= k,
        st.time(r, x) < u32::MAX,
    ensures
        st.time(r, x) <= latest_upto(st, x, k),
    decreases k,
{
    if r < k {
        lemma_latest_upto_ge(st, x, k - 1, r);
    }
}

/// A latest time that is not -1 is the time of the stop in one of the rounds.
proof fn lemma_latest_upto_witness(st: RaptorState, x: int, k: int)
    requires
        latest_upto(st, x, k) >= 0,
    ensures
        exists|r: int| 1 <= r <= k && #[trigger] st.time(r, x) < u32::MAX && st.time(r, x) == latest_upto(st, x, k),
    decreases k,
{
    if k >= 1 {
        let t = st.time(k, x);
        if !(t < u32::MAX && t > latest_upto(st, x, k - 1)) {
            lemma_latest_upto_witness(st, x, k - 1);
            let r = choose|r: int| 1 <= r <= k - 1 && #[trigger] st.time(r, x) < u32::MAX
                && st.time(r, x) == latest_upto(st, x, k - 1);
            assert(1 <= r <= k);
        }
    }
}

/// Every stop from which a journey of at most `rides` hops to `dest`, leaving within
/// `floor`, exists also has a journey of the kind the router returns that leaves no
/// earlier than `dep`: without a start stop, the router starts where the latest
/// departure is earliest.
#[verifier::opaque]
pub open spec fn start_no_later(net: Network, dep: Time, dest: StopId, target: Time, floor: Time, rides: nat) -> bool {
    forall|o: StopId| #[trigger] journey_exists(net, dest, target, floor, rides, Some(o))
        ==> exists|legs: Seq<JourneyLeg>, d: Time| d >= dep && leg_journey(net, legs, o, d, dest, target, rides)
}

/// The table invariant, kept folded where only a few of its facts are needed.
#[verifier::opaque]
spec fn tables_sound(net: Network, st: RaptorState, rounds: nat, dest: int, target: Time) -> bool {
    table_ok(net, st, rounds, dest, target)
}

/// Legs of the kind the router returns: from stop `start`, on the clock from `dep`, each
/// supported by the network, ending with a ride that reaches `dest` at `target`, with at
/// most `rides` rides.
pub open spec fn leg_journey(net: Network, legs: Seq<JourneyLeg>, start: StopId, dep: Time, dest: StopId, target: Time, rides: nat) -> bool {
    &&& chain_from(net, legs, start, dep)
    &&& legs.last() is Bus
    &&& leg_to(legs.last()) == dest
    &&& on_time(legs, dep as int)
    &&& clock(legs, dep as int) == target
    &&& bus_count(legs) <= rides
}

/// Following the parent entries from a time in the tables, after the legs `acc` that
/// led there from stop `start` at `dep`, reaches the destination at the target time:
/// every time in the tables is the departure of a journey of the kind the router returns.
proof fn lemma_label_journey(
    net: Network,
    st: RaptorState,
    rounds: nat,
    dest: int,
    target: Time,
    start: int,
    dep: Time,
    acc: Seq<JourneyLeg>,
    r: int,
    x: int,
)
    requires
        net.wf(),
        !uses_walk_marker(net),
        tables_sound(net, st, rounds, dest, target),
        0 <= dest < net.stops@.len(),
        0 <= start < net.stops@.len(),
        0 <= x < net.stops@.len(),
        0 <= r <= rounds,
        st.time(r, x) < u32::MAX,
        acc.len() == 0 ==> x == start && st.time(r, x) == dep && r >= 1,
        acc.len() > 0 ==> chain_from(net, acc, net.stops@[start].id, dep) && leg_to(acc.last()) == net.stops@[x].id,
        on_time(acc, dep as int),
        clock(acc, dep as int) == st.time(r, x),
        r == 0 ==> acc.len() > 0 && acc.last() is Bus,
        bus_count(acc) + r <= rounds,
    ensures
        exists|legs: Seq<JourneyLeg>| #[trigger] leg_journey(net, legs, net.stops@[start].id, dep, net.stops@[dest].id, target, rounds),
    decreases r, u32::MAX - st.time(r, x), st.rank(r, x),
{
    reveal(tables_sound);
    let n = net.stops@.len();
    let start_id = net.stops@[start].id;
    if r == 0 {
        assert(x == dest);
        assert(leg_journey(net, acc, start_id, dep, net.stops@[dest].id, target, rounds));
    } else {
        assert(st.parent_map(x).contains_key(r as usize));
        let l = st.parent_map(x)[r as usize];
        assert(link_ok(net, st, x, r, l));
        lemma_parent_step(net, st, x, r, l);
        let p = l.0 as int;
        let from = net.stops@[x].id;
        let to = net.stops@[p].id;
        if l.1 == u32::MAX {
            assert(walk_before(st, r, x, p) && st.time(r, p) < u32::MAX);
            let duration = sat_sub(st.time(r, p), st.time(r, x) as int);
            let leg = JourneyLeg::Walk { from_stop: from, to_stop: to, duration };
            lemma_walk_leg(net, st, x, r, l, duration);
            lemma_chain_push(net, acc, leg, start_id, dep);
            lemma_clock_push(acc, leg, dep as int);
            let nacc = acc.push(leg);
            assert(nacc.last() == leg);
            assert(bus_count(nacc) == bus_count(acc)) by {
                assert(nacc.drop_last() =~= acc);
            }
            lemma_label_journey(net, st, rounds, dest, target, start, dep, nacc, r, p);
        } else {
            let leg = JourneyLeg::Bus {
                route_id: l.1,
                from_stop: from,
                to_stop: to,
                departure_time: st.time(r, x),
                arrival_time: st.time(r - 1, p),
            };
            if acc.len() > 0 && acc.last() is Bus {
                assert(clock(acc, dep as int) == acc.last()->arrival_time);
            }
            lemma_chain_push(net, acc, leg, start_id, dep);
            lemma_clock_push(acc, leg, dep as int);
            let nacc = acc.push(leg);
            assert(nacc.last() == leg);
            assert(bus_count(nacc) == bus_count(acc) + 1) by {
                assert(nacc.drop_last() =~= acc);
            }
            lemma_label_journey(net, st, rounds, dest, target, start, dep, nacc, r - 1, p);
        }
    }
}

/// A journey of hops from stop `o` that a closed table bounds gives a journey of the kind
/// the router returns from `o`, leaving no earlier than `dep` when `dep` is no later
/// than the latest time of any stop.
#[verifier::spinoff_prover]
#[verifier::rlimit(50)]
proof fn lemma_stop_journey(
    net: Network,
    state: RaptorState,
    rounds: nat,
    dest: int,
    destination_id: StopId,
    target: Time,
    floor: Time,
    dep: Time,
    o: StopId,
    hops: Seq<(int, int, int, int)>,
)
    requires
        net.wf(),
        !uses_walk_marker(net),
        tables_sound(net, state, rounds, dest, target),
        forall|q: int| 0 <= q < net.stops@.len() ==> #[trigger] state.time(0, q) == (if q == dest { target } else { u32::MAX }),
        forall|r: int| 1 <= r <= rounds ==> #[trigger] closed_round(net, state, r, floor),
        net.stop_index_of(destination_id) == Some(dest as usize),
        0 <= dest < net.stops@.len(),
        target < u32::MAX,
        forall|x: int| 0 <= x < net.stops@.len() && #[trigger] latest_upto(state, x, rounds as int) >= 0
            ==> dep <= latest_upto(state, x, rounds as int),
        hops_chain(net, hops, o, destination_id),
        hops.len() <= rounds,
        hops_departure(net, hops, target) >= floor,
    ensures
        exists|legs: Seq<JourneyLeg>, d: Time| d >= dep && leg_journey(net, legs, o, d, destination_id, target, rounds),
{
    assert(hop_ok(net, hops[0]));
    net.lemma_stop_index(o);
    net.lemma_stop_index(destination_id);
    let x = ix(net, o);
    lemma_hops_bound(net, state, rounds, dest, destination_id, target, floor, hops, o);
    let jr = choose|jr: int| 1 <= jr <= hops.len() && #[trigger] state.time(jr, ix(net, o)) != u32::MAX
        && state.time(jr, ix(net, o)) >= hops_departure(net, hops, target);
    lemma_latest_upto_ge(state, x, rounds as int, jr);
    lemma_latest_upto_witness(state, x, rounds as int);
    let rw = choose|rw: int| 1 <= rw <= rounds && #[trigger] state.time(rw, x) < u32::MAX
        && state.time(rw, x) == latest_upto(state, x, rounds as int);
    let d = state.time(rw, x);
    lemma_label_journey(net, state, rounds, dest, target, x, d, Seq::empty(), rw, x);
    let legs = choose|legs: Seq<JourneyLeg>| #[trigger] leg_journey(net, legs, net.stops@[x].id, d,
        net.stops@[dest].id, target, rounds);
    assert(net.stop_index_of(o) is Some);
    assert(net.stops@[x].id == o);
    assert(net.stops.len() == net.stops@.len());
    assert((dest as usize) as int == dest);
    assert(net.stops@[dest].id == destination_id);
    assert(leg_journey(net, legs, o, d, destination_id, target, rounds));
}

/// Where the search had no start stop and took a departure no later than the latest
/// time of any stop, every stop from which a journey exists has a journey of the kind
/// the router returns that leaves no earlier than that departure.
proof fn lemma_no_start_choice(
    net: Network,
    state: RaptorState,
    rounds: nat,
    dest: int,
    destination_id: StopId,
    target: Time,
    floor: Time,
    dep: Time,
)
    requires
        net.wf(),
        !uses_walk_marker(net),
        tables_sound(net, state, rounds, dest, target),
        forall|q: int| 0 <= q < net.stops@.len() ==> #[trigger] state.time(0, q) == (if q == dest { target } else { u32::MAX }),
        forall|r: int| 1 <= r <= rounds ==> #[trigger] closed_round(net, state, r, floor),
        net.stop_index_of(destination_id) == Some(dest as usize),
        0 <= dest < net.stops@.len(),
        target < u32::MAX,
        forall|x: int| 0 <= x < net.stops@.len() && #[trigger] latest_upto(state, x, rounds as int) >= 0
            ==> dep <= latest_upto(state, x, rounds as int),
    ensures
        start_no_later(net, dep, destination_id, target, floor, rounds),
{
    reveal(start_no_later);
    assert forall|o: StopId| #[trigger] journey_exists(net, destination_id, target, floor, rounds, Some(o))
        implies exists|legs: Seq<JourneyLeg>, d: Time| d >= dep
            && leg_journey(net, legs, o, d, destination_id, target, rounds) by {
        let hops = choose|hops: Seq<(int, int, int, int)>| #[trigger] hops_chain(net, hops, hop_start(net, hops[0]), destination_id)
            && hops.len() <= rounds
            && hops_departure(net, hops, target) >= floor
            && hop_start(net, hops[0]) == o;
        lemma_stop_journey(net, state, rounds, dest, destination_id, target, floor, dep, o, hops);
    }
}

/// What the tables give the journey picked from them: no journey from its first stop
/// leaves later, and, where the search had no start stop and took the earliest of the
/// latest times, every stop with a journey has one of the router's kind that leaves no
/// earlier.
proof fn lemma_route_result(
    net: Network,
    state: RaptorState,
    rounds: nat,
    dest: int,
    destination_id: StopId,
    target: Time,
    floor: Time,
    j: Journey,
    no_start: bool,
)
    requires
        net.wf(),
        tables_sound(net, state, rounds, dest, target),
        forall|q: int| 0 <= q < net.stops@.len() ==> #[trigger] state.time(0, q) == (if q == dest { target } else { u32::MAX }),
        forall|r: int, s: int| 1 <= r <= rounds && 0 <= s < net.stops@.len() && #[trigger] state.time(r, s) < u32::MAX
            ==> net.stop_index_of(net.stops@[s].id) == Some(s as usize),
        forall|r: int| 1 <= r <= rounds ==> #[trigger] closed_round(net, state, r, floor),
        net.stop_index_of(destination_id) == Some(dest as usize),
        0 <= dest < net.stops@.len(),
        target < u32::MAX,
        j.legs@.len() > 0,
        exists|f: int| 0 <= f < net.stops@.len() && leg_from(j.legs@[0]) == net.stops@[f].id
            && j.departure_time == #[trigger] latest_upto(state, f, rounds as int),
        no_start ==> forall|x: int| 0 <= x < net.stops@.len() && #[trigger] latest_upto(state, x, rounds as int) >= 0
            ==> j.departure_time <= latest_upto(state, x, rounds as int),
    ensures
        no_later_journey(net, j.departure_time, destination_id, target, floor, rounds, leg_from(j.legs@[0])),
        no_start && !uses_walk_marker(net) ==> start_no_later(net, j.departure_time, destination_id, target, floor, rounds),
{
    let n = net.stops@.len();
    let f = choose|f: int| 0 <= f < n && leg_from(j.legs@[0]) == net.stops@[f].id
        && j.departure_time == #[trigger] latest_upto(state, f, rounds as int);
    let o = net.stops@[f].id;
    lemma_latest_upto_nonneg(state, f, rounds as int);
    lemma_latest_upto_witness(state, f, rounds as int);
    let rw = choose|rw: int| 1 <= rw <= rounds && #[trigger] state.time(rw, f) < u32::MAX
        && state.time(rw, f) == latest_upto(state, f, rounds as int);
    assert(net.stops.len() == net.stops@.len());
    assert(net.stop_index_of(o) == Some(f as usize));
    assert(ix(net, o) == f);
    assert forall|hops: Seq<(int, int, int, int)>| #[trigger] hops_chain(net, hops, o, destination_id)
        && hops.len() <= rounds
        && hops_departure(net, hops, target) >= floor
        implies hops_departure(net, hops, target) <= j.departure_time by {
        lemma_hops_bound(net, state, rounds, dest, destination_id, target, floor, hops, o);
        let jr = choose|jr: int| 1 <= jr <= hops.len() && #[trigger] state.time(jr, ix(net, o)) != u32::MAX
            && state.time(jr, ix(net, o)) >= hops_departure(net, hops, target);
        lemma_latest_upto_ge(state, f, rounds as int, jr);
    }
    if no_start && !uses_walk_marker(net) {
        lemma_no_start_choice(net, state, rounds, dest, destination_id, target, floor, j.departure_time);
    }
}

/// Distinct stop indices below `n` number at most `n`.
proof fn lemma_distinct_below(c: Seq<int>, n: nat)
    requires
        forall|i: int, j: int| 0 <= i < j < c.len() ==> c[i] != c[j],
        forall|i: int| 0 <= i < c.len() ==> 0 <= #[trigger] c[i] < n,
    ensures
        c.len() <= n,
{
    assert forall|i: int, j: int| 0 <= i < c.len() && 0 <= j < c.len() && i != j implies c[i] != c[j] by {
        if i > j {
            assert(c[j] != c[i]);
        }
    }
    assert(c.no_duplicates());
    c.unique_seq_to_set();
    let range = vstd::set_lib::set_int_range(0, n as int);
    vstd::set_lib::lemma_int_range(0, n as int);
    assert forall|x: int| c.to_set().contains(x) implies range.contains(x) by {
        assert(c.contains(x));
        let i = choose|i: int| 0 <= i < c.len() && c[i] == x;
        assert(0 <= c[i] < n);
    }
    vstd::set_lib::lemma_len_subset(c.to_set(), range);
}

impl BackwardRaptor {
    /// The network the router searches.
    pub closed spec fn net(&self) -> Network {
        self.network
    }

    /// The number of rounds the search runs at most.
    pub closed spec fn round_limit(&self) -> usize {
        self.max_rounds
    }

    /// What a search needs of the router: a well-formed network whose routes have their
    /// travel times, whose lengths fit the flag vectors, and a round count below `usize::MAX`.
    pub open spec fn searchable(&self) -> bool {
        &&& self.net().wf()
        &&& routes_usable(self.net())
        &&& self.round_limit() < usize::MAX
        &&& self.net().stops@.len() <= usize::MAX / 8
        &&& self.net().routes@.len() <= usize::MAX / 8
    }

    /// The departure delay setting.
    pub closed spec fn departure_delay(&self) -> Time {
        self.max_departure_delay
    }

    pub fn new(network: Network, max_rounds: usize) -> (r: Self)
        ensures
            r.net() == network,
            r.round_limit() == max_rounds,
            r.departure_delay() == 3600,
    {
        BackwardRaptor { network, max_rounds, max_departure_delay: 3600 }
    }

    /// The network the router searches.
    pub(crate) fn network_ref(&self) -> (n: &Network)
        ensures
            *n == self.net(),
    {
        &self.network
    }

    pub fn with_max_departure_delay(self, max_delay: Time) -> (r: Self)
        ensures
            r.net() == self.net(),
            r.round_limit() == self.round_limit(),
            r.departure_delay() == max_delay,
    {
        BackwardRaptor { network: self.network, max_rounds: self.max_rounds, max_departure_delay: max_delay }
    }

    /// Scans a route: for each stop the network knows, finds the latest departure that
    /// a ride to a later stop with a time in the previous round allows (the first such
    /// stop wins a tie), and proposes it where it leaves no earlier than `floor` and
    /// beats the stop's time in this round.
    fn process_route_backward(&self, state: &RaptorState, route_idx: usize, round: usize, floor: Time)
        -> (imps: Vec<(usize, Time, Parent)>)
        requires
            self.network.wf(),
            routes_usable(self.network),
            route_idx < self.network.routes@.len(),
            1 <= round <= self.max_rounds,
            state.shaped(self.network.stops@.len(), self.network.routes@.len(), self.max_rounds as nat),
        ensures
            forall|k: int| 0 <= k < imps@.len()
                ==> improvement_ok(self.network, *state, route_idx as int, round as int, floor, #[trigger] imps@[k]),
            scan_bounded(self.network, *state, route_idx as int, round as int, floor, imps@),
    {
        let route = &self.network.routes[route_idx];
        let ghost net = self.network;
        let ghost n = net.stops@.len();
        let ghost ri = route_idx as int;
        let len = route.stops.len();
        let mut improvements: Vec<(usize, Time, Parent)> = Vec::new();
        proof {
            assert(net.routes@[ri] == *route);
            assert(route.times_cover_stops());
        }
        let mut p: usize = 0;
        while p < len
            invariant
                net == self.network,
                net.wf(),
                routes_usable(net),
                route_idx < net.routes@.len(),
                *route == net.routes@[ri],
                ri == route_idx as int,
                len == route.stops@.len(),
                route.times_cover_stops(),
                1 <= round <= self.max_rounds,
                state.shaped(n, net.routes@.len(), self.max_rounds as nat),
                n == net.stops@.len(),
                p <= len,
                forall|j: int| 0 <= j < improvements@.len()
                    ==> improvement_ok(net, *state, ri, round as int, floor, #[trigger] improvements@[j]),
                forall|p2: int, q: int| p2 < p && #[trigger] scan_case(net, *state, ri, round as int, p2, q)
                    && sat_sub(state.time(round - 1, idx_at(net, ri, q)), route.time_between(p2, q)) >= floor
                    ==> proposed(*state, improvements@, round as int, idx_at(net, ri, p2),
                        sat_sub(state.time(round - 1, idx_at(net, ri, q)), route.time_between(p2, q)) as int),
            decreases len - p,
        {
            let ghost old_imps = improvements@;
            proof {
                net.lemma_stop_index(route.stops@[p as int]);
            }
            match self.network.get_stop_index(route.stops[p]) {
                Some(stop_idx) => {
                    let mut best: Option<(Time, usize, usize)> = None;
                    let mut travel: Time = 0;
                    let mut q: usize = p + 1;
                    if q < len {
                        proof {
                            assert(route.travel_times@.subrange(p as int, q as int) =~= seq![route.travel_times@[p as int]]);
                            assert(seq![route.travel_times@[p as int]].drop_last() =~= Seq::<Time>::empty());
                            assert(sum_times(seq![route.travel_times@[p as int]]) == route.travel_times@[p as int]) by {
                                reveal_with_fuel(sum_times, 2);
                            }
                        }
                        travel = route.travel_times[p];
                    }
                    while q < len
                        invariant
                            net == self.network,
                            net.wf(),
                            routes_usable(net),
                            route_idx < net.routes@.len(),
                            *route == net.routes@[ri],
                            len == route.stops@.len(),
                            route.times_cover_stops(),
                            1 <= round <= self.max_rounds,
                            state.shaped(n, net.routes@.len(), self.max_rounds as nat),
                            n == net.stops@.len(),
                            p < q <= len,
                            ri == route_idx as int,
                            stop_idx < n,
                            net.stop_index_of(route.stops@[p as int]) == Some(stop_idx),
                            q < len ==> travel == route.time_between(p as int, q as int),
                            match best {
                                Some((d, a, apos)) => {
                                    &&& p < apos < q
                                    &&& a < n
                                    &&& net.stop_index_of(route.stops@[apos as int]) == Some(a)
                                    &&& state.time(round - 1, a as int) < u32::MAX
                                    &&& d == sat_sub(state.time(round - 1, a as int), route.time_between(p as int, apos as int))
                                },
                                None => true,
                            },
                            forall|q2: int| p < q2 < q && #[trigger] scan_case(net, *state, ri, round as int, p as int, q2)
                                ==> (best matches Some((d, _, _)) && d >= sat_sub(state.time(round - 1, idx_at(net, ri, q2)),
                                    route.time_between(p as int, q2 as int))),
                        decreases len - q,
                    {
                        proof {
                            net.lemma_stop_index(route.stops@[q as int]);
                        }
                        match self.network.get_stop_index(route.stops[q]) {
                            Some(a) => {
                                let label = state.best_times[round - 1][a];
                                if label < u32::MAX {
                                    let d = label.saturating_sub(travel);
                                    let better = match best {
                                        Some((bd, _, _)) => d > bd,
                                        None => true,
                                    };
                                    if better {
                                        best = Some((d, a, q));
                                    }
                                }
                            },
                            None => {},
                        }
                        if q + 1 < len {
                            proof {
                                crate::data::structures::lemma_sum_subrange_le(route.travel_times@, p as int, q + 1);
                                assert(sum_times(net.routes@[ri].travel_times@) <= u32::MAX);
                                assert(route.travel_times@.subrange(p as int, q + 1).drop_last()
                                    =~= route.travel_times@.subrange(p as int, q as int));
                                assert(route.travel_times@.subrange(p as int, q + 1).last() == route.travel_times@[q as int]);
                            }
                            travel = travel + route.travel_times[q];
                        }
                        q = q + 1;
                    }
                    match best {
                        Some((d, a, apos)) => {
                            let cur = state.best_times[round][stop_idx];
                            if d >= floor && (cur == u32::MAX || d > cur) {
                                proof {
                                    net.lemma_stop_index(route.stops@[apos as int]);
                                    assert(rides(net, ri, p as int, apos as int,
                                        net.stops@[stop_idx as int].id, net.stops@[a as int].id));
                                    crate::data::structures::lemma_sum_nonneg(
                                        route.travel_times@.subrange(p as int, apos as int));
                                }
                                improvements.push((stop_idx, d, (a, route.id, round)));
                            }
                        },
                        None => {},
                    }
                },
                None => {},
            }
            proof {
                assert forall|p2: int, q: int| p2 < p + 1 && #[trigger] scan_case(net, *state, ri, round as int, p2, q)
                    && sat_sub(state.time(round - 1, idx_at(net, ri, q)), route.time_between(p2, q)) >= floor
                    implies proposed(*state, improvements@, round as int, idx_at(net, ri, p2),
                        sat_sub(state.time(round - 1, idx_at(net, ri, q)), route.time_between(p2, q)) as int) by {
                    let v = sat_sub(state.time(round - 1, idx_at(net, ri, q)), route.time_between(p2, q)) as int;
                    if p2 == p {
                        if improvements@.len() > old_imps.len() {
                            assert(improvements@[old_imps.len() as int].0 == idx_at(net, ri, p2));
                        }
                    } else {
                        assert(proposed(*state, old_imps, round as int, idx_at(net, ri, p2), v));
                        if !(state.time(round as int, idx_at(net, ri, p2)) != u32::MAX
                            && state.time(round as int, idx_at(net, ri, p2)) >= v) {
                            let w = choose|w: int| 0 <= w < old_imps.len() && (#[trigger] old_imps[w]).0
                                == idx_at(net, ri, p2) && old_imps[w].1 >= v;
                            assert(improvements@[w] == old_imps[w]);
                        }
                    }
                }
            }
            p = p + 1;
        }
        proof {
            reveal(scan_bounded);
        }
        improvements
    }

    /// Marks every route that serves a stop marked in the previous round.
    fn mark_routes_for_round(&self, state: &mut RaptorState, prev_round: usize)
        requires
            self.network.wf(),
            old(state).shaped(self.network.stops@.len(), self.network.routes@.len(), self.max_rounds as nat),
        ensures
            final(state).best_times@ == old(state).best_times@,
            final(state).parents@ == old(state).parents@,
            final(state).ranks@ == old(state).ranks@,
            final(state).marked_stops == old(state).marked_stops,
            final(state).shaped(self.network.stops@.len(), self.network.routes@.len(), self.max_rounds as nat),
            forall|r: int| 0 <= r < self.network.routes@.len() ==>
                (#[trigger] marks_of(final(state).marked_routes)[r] <==> exists|s: int|
                    0 <= s < self.network.stops@.len() && marks_of(old(state).marked_stops)[s]
                    && #[trigger] self.network.stop_routes@[s]@.contains(r as usize)),
    {
        let ghost net = self.network;
        let ghost n = net.stops@.len();
        state.marked_routes.fill(false);
        let ones = state.marked_stops.iter_ones();
        let mut i: usize = 0;
        while i < ones.len()
            invariant
                net == self.network,
                net.wf(),
                n == net.stops@.len(),
                state.shaped(n, net.routes@.len(), self.max_rounds as nat),
                state.best_times@ == old(state).best_times@,
                state.parents@ == old(state).parents@,
                state.ranks@ == old(state).ranks@,
                state.marked_stops == old(state).marked_stops,
                i <= ones@.len(),
                forall|a: int, b: int| 0 <= a < b < ones@.len() ==> ones@[a] < ones@[b],
                forall|a: int| 0 <= a < ones@.len() ==> ones@[a] < n,
                forall|a: int| 0 <= a < ones@.len() ==> marks_of(state.marked_stops)[ones@[a] as int],
                forall|k: int| 0 <= k < n && marks_of(state.marked_stops)[k] ==> ones@.contains(k as usize),
                forall|r: int| 0 <= r < net.routes@.len() ==>
                    (#[trigger] marks_of(state.marked_routes)[r] <==> exists|a: int|
                        0 <= a < i && #[trigger] net.stop_routes@[ones@[a] as int]@.contains(r as usize)),
            decreases ones@.len() - i,
        {
            let stop_idx = ones[i];
            let routes = &self.network.stop_routes[stop_idx];
            proof {
                assert(net.routes.len() == net.routes@.len());
                lemma_routes_serving_bounded(net.routes@, net.stop_id_to_index@, stop_idx);
            }
            let ghost before = marks_of(state.marked_routes);
            let mut j: usize = 0;
            while j < routes.len()
                invariant
                    net == self.network,
                    net.wf(),
                    n == net.stops@.len(),
                    state.shaped(n, net.routes@.len(), self.max_rounds as nat),
                    state.best_times@ == old(state).best_times@,
                    state.parents@ == old(state).parents@,
                    state.ranks@ == old(state).ranks@,
                    state.marked_stops == old(state).marked_stops,
                    i < ones@.len(),
                    stop_idx == ones@[i as int],
                    stop_idx < n,
                    *routes == net.stop_routes@[stop_idx as int],
                    forall|q: int| 0 <= q < routes@.len() ==> routes@[q] < net.routes@.len(),
                    before.len() == net.routes@.len(),
                    j <= routes@.len(),
                    forall|r: int| 0 <= r < net.routes@.len() ==>
                        (#[trigger] marks_of(state.marked_routes)[r] <==> before[r] || routes@.take(j as int).contains(r as usize)),
                decreases routes@.len() - j,
            {
                let route_idx = routes[j];
                state.marked_routes.set(route_idx, true);
                proof {
                    assert(routes@.take(j + 1) =~= routes@.take(j as int).push(route_idx));
                    assert forall|r: int| 0 <= r < net.routes@.len() implies
                        (#[trigger] marks_of(state.marked_routes)[r] <==> before[r] || routes@.take(j + 1).contains(r as usize)) by {
                        assert(routes@.take(j + 1)[j as int] == route_idx);
                        assert(net.routes.len() == net.routes@.len());
                        if r == route_idx {
                        } else {
                            if routes@.take(j + 1).contains(r as usize) {
                                let q = choose|q: int| 0 <= q < routes@.take(j + 1).len() && #[trigger] routes@.take(j + 1)[q] == r as usize;
                                assert(q != j);
                                assert(routes@.take(j as int)[q] == r as usize);
                            }
                            if routes@.take(j as int).contains(r as usize) {
                                let q = choose|q: int| 0 <= q < routes@.take(j as int).len() && #[trigger] routes@.take(j as int)[q] == r as usize;
                                assert(routes@.take(j + 1)[q] == r as usize);
                            }
                        }
                    }
                }
                j = j + 1;
            }
            proof {
                assert(routes@.take(routes@.len() as int) =~= routes@);
                assert forall|r: int| 0 <= r < net.routes@.len() implies
                    (#[trigger] marks_of(state.marked_routes)[r] <==> exists|a: int|
                        0 <= a < i + 1 && #[trigger] net.stop_routes@[ones@[a] as int]@.contains(r as usize)) by {
                    if marks_of(state.marked_routes)[r] && !before[r] {
                        assert(net.stop_routes@[ones@[i as int] as int]@.contains(r as usize));
                    }
                }
            }
            i = i + 1;
        }
        proof {
            assert forall|r: int| 0 <= r < net.routes@.len() implies
                (#[trigger] marks_of(state.marked_routes)[r] <==> exists|s: int|
                    0 <= s < n && marks_of(old(state).marked_stops)[s]
                    && #[trigger] net.stop_routes@[s]@.contains(r as usize)) by {
                if marks_of(state.marked_routes)[r] {
                    let a = choose|a: int| 0 <= a < ones@.len() && #[trigger] net.stop_routes@[ones@[a] as int]@.contains(r as usize);
                    assert(marks_of(old(state).marked_stops)[ones@[a] as int]);
                }
                if exists|s: int| 0 <= s < n && marks_of(old(state).marked_stops)[s]
                    && #[trigger] net.stop_routes@[s]@.contains(r as usize) {
                    let s = choose|s: int| 0 <= s < n && marks_of(old(state).marked_stops)[s]
                        && #[trigger] net.stop_routes@[s]@.contains(r as usize);
                    assert(ones@.contains(s as usize));
                    let a = choose|a: int| 0 <= a < ones@.len() && #[trigger] ones@[a] == s as usize;
                    assert(net.stop_routes@[ones@[a] as int]@.contains(r as usize));
                }
            }
        }
    }


    /// Walks backward along transfers: each stop improved in this round lets the
    /// stops that walk to it leave by its time less the walking time, where that is no
    /// earlier than `floor` and later than their time in this round.
    #[verifier::rlimit(90)]
    #[verifier::spinoff_prover]
    fn process_transfers_backward(
        &self,
        state: &mut RaptorState,
        round: usize,
        improved_stops: &mut Marks,
        Ghost(dest): Ghost<int>,
        Ghost(target): Ghost<Time>,
        floor: Time,
    )
        requires
            self.network.wf(),
            1 <= round <= self.max_rounds,
            table_ok(self.network, *old(state), self.max_rounds as nat, dest, target),
            later_rows_empty(*old(state), round as int, self.max_rounds as nat, self.network.stops@.len()),
            above_floor(*old(state), self.max_rounds as nat, self.network.stops@.len(), floor),
            marks_of(*old(improved_stops)).len() == self.network.stops@.len(),
            forall|s: int| 0 <= s < self.network.stops@.len() && #[trigger] marks_of(*old(improved_stops))[s]
                ==> old(state).time(round as int, s) < u32::MAX,
        ensures
            table_ok(self.network, *final(state), self.max_rounds as nat, dest, target),
            later_rows_empty(*final(state), round as int, self.max_rounds as nat, self.network.stops@.len()),
            above_floor(*final(state), self.max_rounds as nat, self.network.stops@.len(), floor),
            forall|r: int| 0 <= r <= self.max_rounds && r != round
                ==> #[trigger] final(state).best_times@[r] == old(state).best_times@[r],
            marks_of(*final(improved_stops)).len() == self.network.stops@.len(),
            forall|s: int| 0 <= s < self.network.stops@.len() && #[trigger] marks_of(*old(improved_stops))[s]
                ==> marks_of(*final(improved_stops))[s],
            forall|s: int| 0 <= s < self.network.stops@.len() && #[trigger] marks_of(*final(improved_stops))[s]
                ==> final(state).time(round as int, s) < u32::MAX,
            forall|s: int| 0 <= s < self.network.stops@.len()
                ==> no_worse(#[trigger] final(state).time(round as int, s), old(state).time(round as int, s)),
            forall|s: int, t: int| 0 <= s < self.network.stops@.len() && marks_of(*old(improved_stops))[s]
                ==> #[trigger] walk_relaxed(self.network, *old(state), *final(state), round as int, floor, s, t),
            forall|x: int| 0 <= x < self.network.stops@.len() ==> (#[trigger] marks_of(*final(improved_stops))[x]
                <==> marks_of(*old(improved_stops))[x] || final(state).time(round as int, x) != old(state).time(round as int, x)),
            forall|x: int| 0 <= x < self.network.stops@.len()
                && #[trigger] final(state).time(round as int, x) != old(state).time(round as int, x)
                ==> final(state).parent_map(x).contains_key(round) && final(state).parent_map(x)[round].1 == u32::MAX,
    {
        let ghost net = self.network;
        let ghost n = net.stops@.len();
        let ghost rounds = self.max_rounds as nat;
        let ghost old_marks = marks_of(*improved_stops);
        let current = improved_stops.iter_ones();
        let mut i: usize = 0;
        while i < current.len()
            invariant
                net == self.network,
                net.wf(),
                n == net.stops@.len(),
                rounds == self.max_rounds,
                1 <= round <= rounds,
                table_ok(net, *state, rounds, dest, target),
                later_rows_empty(*state, round as int, rounds, n),
                above_floor(*state, rounds, n, floor),
                forall|r: int| 0 <= r <= rounds && r != round
                    ==> #[trigger] state.best_times@[r] == old(state).best_times@[r],
                forall|a: int| 0 <= a < current@.len() ==> current@[a] < n,
                forall|a: int| 0 <= a < current@.len() ==> marks_of(*old(improved_stops))[current@[a] as int],
                marks_of(*improved_stops).len() == n,
                forall|x: int| 0 <= x < n && #[trigger] marks_of(*old(improved_stops))[x]
                    ==> marks_of(*improved_stops)[x],
                forall|x: int| 0 <= x < n && #[trigger] marks_of(*improved_stops)[x]
                    ==> state.time(round as int, x) < u32::MAX,
                forall|x: int| 0 <= x < n ==> no_worse(#[trigger] state.time(round as int, x), old(state).time(round as int, x)),
                old_marks == marks_of(*old(improved_stops)),
                forall|k: int| 0 <= k < n && old_marks[k] ==> current@.contains(k as usize),
                forall|a: int, t: int| 0 <= a < i
                    ==> #[trigger] walk_relaxed(net, *old(state), *state, round as int, floor, current@[a] as int, t),
                forall|x: int| 0 <= x < n ==> (#[trigger] marks_of(*improved_stops)[x]
                    <==> old_marks[x] || state.time(round as int, x) != old(state).time(round as int, x)),
                forall|x: int| 0 <= x < n && #[trigger] state.time(round as int, x) != old(state).time(round as int, x)
                    ==> state.parent_map(x).contains_key(round) && state.parent_map(x)[round].1 == u32::MAX,
            decreases current@.len() - i,
        {
            let stop_idx = current[i];
            let stop_id = self.network.stops[stop_idx].id;
            let arrival_time = state.best_times[round][stop_idx];
            assert(marks_of(*improved_stops)[stop_idx as int]);
            let mut k: usize = 0;
            while k < self.network.transfers.len()
                invariant
                    net == self.network,
                    net.wf(),
                    n == net.stops@.len(),
                    rounds == self.max_rounds,
                    1 <= round <= rounds,
                    table_ok(net, *state, rounds, dest, target),
                    later_rows_empty(*state, round as int, rounds, n),
                    above_floor(*state, rounds, n, floor),
                    forall|r: int| 0 <= r <= rounds && r != round
                        ==> #[trigger] state.best_times@[r] == old(state).best_times@[r],
                    stop_idx < n,
                    stop_id == net.stops@[stop_idx as int].id,
                    arrival_time < u32::MAX,
                    arrival_time <= target,
                    state.time(round as int, stop_idx as int) != u32::MAX,
                    state.time(round as int, stop_idx as int) >= arrival_time,
                    marks_of(*improved_stops).len() == n,
                    marks_of(*improved_stops)[stop_idx as int],
                    forall|x: int| 0 <= x < n && #[trigger] marks_of(*old(improved_stops))[x]
                        ==> marks_of(*improved_stops)[x],
                    forall|x: int| 0 <= x < n && #[trigger] marks_of(*improved_stops)[x]
                        ==> state.time(round as int, x) < u32::MAX,
                    forall|x: int| 0 <= x < n ==> no_worse(#[trigger] state.time(round as int, x), old(state).time(round as int, x)),
                    i < current@.len(),
                    stop_idx == current@[i as int],
                    no_worse(arrival_time, old(state).time(round as int, stop_idx as int)),
                    old_marks == marks_of(*old(improved_stops)),
                    forall|a: int, t: int| 0 <= a < i
                        ==> #[trigger] walk_relaxed(net, *old(state), *state, round as int, floor, current@[a] as int, t),
                    forall|t: int| 0 <= t < k ==> #[trigger] walk_relaxed(net, *old(state), *state, round as int, floor, stop_idx as int, t),
                    forall|x: int| 0 <= x < n ==> (#[trigger] marks_of(*improved_stops)[x]
                        <==> old_marks[x] || state.time(round as int, x) != old(state).time(round as int, x)),
                    forall|x: int| 0 <= x < n && #[trigger] state.time(round as int, x) != old(state).time(round as int, x)
                        ==> state.parent_map(x).contains_key(round) && state.parent_map(x)[round].1 == u32::MAX,
                decreases net.transfers@.len() - k,
            {
                let transfer = self.network.transfers[k];
                if transfer.to_stop == stop_id {
                    proof {
                        net.lemma_stop_index(transfer.from_stop);
                    }
                    match self.network.get_stop_index(transfer.from_stop) {
                        Some(from_idx) => {
                            let departure_time = arrival_time.saturating_sub(transfer.walk_time);
                            let cur = state.best_times[round][from_idx];
                            if departure_time >= floor && (cur == u32::MAX || departure_time > cur) {
                                let ghost a = *state;
                                let link: Parent = (stop_idx, u32::MAX, round);
                                assert(from_idx != stop_idx);
                                set_time(&mut state.best_times, round, from_idx, departure_time);
                                set_parent(&mut state.parents, from_idx, round, link);
                                state.ranks = Ghost(a.ranks@.insert((round as int, from_idx as int),
                                    a.rank(round as int, stop_idx as int) + 1));
                                proof {
                                    assert(lowered(a, *state, round as int, from_idx as int, departure_time, link));
                                    assert(state.time(round as int, stop_idx as int) < u32::MAX) by {
                                        if stop_idx != from_idx {
                                            assert(state.time(round as int, stop_idx as int) == a.time(round as int, stop_idx as int));
                                        }
                                    }
                                    assert(net.transfers@[k as int] == transfer);
                                    assert(walk_hop(net, net.stops@[from_idx as int].id, net.stops@[stop_idx as int].id));
                                    lemma_lower_time(net, a, *state, rounds, dest, target, round as int,
                                        from_idx as int, departure_time, link);
                                    assert forall|r: int| 0 <= r <= rounds && r != round
                                        implies #[trigger] state.best_times@[r] == old(state).best_times@[r] by {
                                        assert(state.best_times@[r] == a.best_times@[r]);
                                    }
                                }
                                assert forall|x: int| 0 <= x < n implies no_worse(#[trigger] state.time(round as int, x),
                                    old(state).time(round as int, x)) by {
                                    assert(no_worse(a.time(round as int, x), old(state).time(round as int, x)));
                                }
                                assert forall|r: int, x: int| 1 <= r <= rounds && 0 <= x < n implies
                                    #[trigger] state.time(r, x) == u32::MAX || state.time(r, x) >= floor by {
                                    if r != round {
                                        assert(state.best_times@[r] == a.best_times@[r]);
                                    }
                                    assert(a.time(r, x) == u32::MAX || a.time(r, x) >= floor);
                                }
                                let ghost before = marks_of(*improved_stops);
                                improved_stops.set(from_idx, true);
                                proof {
                                    assert forall|x: int| 0 <= x < n && #[trigger] marks_of(*improved_stops)[x]
                                        implies state.time(round as int, x) < u32::MAX by {
                                        if x != from_idx {
                                            assert(before[x]);
                                            assert(state.time(round as int, x) == a.time(round as int, x));
                                        }
                                    }
                                    assert forall|x: int| 0 <= x < n && x != from_idx implies
                                        #[trigger] state.time(round as int, x) == a.time(round as int, x) by {}
                                    assert forall|x: int| 0 <= x < n implies no_worse(#[trigger] state.time(round as int, x),
                                        a.time(round as int, x)) by {}
                                    assert forall|a2: int, t: int| 0 <= a2 < i implies
                                        #[trigger] walk_relaxed(net, *old(state), *state, round as int, floor, current@[a2] as int, t) by {
                                        lemma_walk_relaxed_raise(net, *old(state), a, *state, round as int, floor, current@[a2] as int, t);
                                    }
                                    assert forall|t: int| 0 <= t < k + 1 implies
                                        #[trigger] walk_relaxed(net, *old(state), *state, round as int, floor, stop_idx as int, t) by {
                                        if t < k {
                                            lemma_walk_relaxed_raise(net, *old(state), a, *state, round as int, floor, stop_idx as int, t);
                                        }
                                    }
                                    assert forall|x: int| 0 <= x < n implies (#[trigger] marks_of(*improved_stops)[x]
                                        <==> old_marks[x] || state.time(round as int, x) != old(state).time(round as int, x)) by {
                                        if x != from_idx {
                                            assert(marks_of(*improved_stops)[x] == before[x]);
                                        }
                                    }
                                    assert forall|x: int| 0 <= x < n
                                        && #[trigger] state.time(round as int, x) != old(state).time(round as int, x)
                                        implies state.parent_map(x).contains_key(round) && state.parent_map(x)[round].1 == u32::MAX by {
                                        if x != from_idx {
                                            assert(state.parents@[x] == a.parents@[x]);
                                        }
                                    }
                                }
                            } else {
                                assert(walk_relaxed(net, *old(state), *state, round as int, floor, stop_idx as int, k as int));
                            }
                        },
                        None => {
                            assert(walk_relaxed(net, *old(state), *state, round as int, floor, stop_idx as int, k as int));
                        },
                    }
                }
                k = k + 1;
            }
            proof {
                assert forall|a: int, t: int| 0 <= a < i + 1
                    implies #[trigger] walk_relaxed(net, *old(state), *state, round as int, floor, current@[a] as int, t) by {
                    if a == i {
                        if 0 <= t < net.transfers@.len() {
                            assert(walk_relaxed(net, *old(state), *state, round as int, floor, stop_idx as int, t));
                        }
                    }
                }
            }
            i = i + 1;
        }
        proof {
            assert(net.stops.len() == net.stops@.len());
            assert forall|s: int, t: int| 0 <= s < n && marks_of(*old(improved_stops))[s]
                implies #[trigger] walk_relaxed(net, *old(state), *state, round as int, floor, s, t) by {
                assert(current@.contains(s as usize));
                let a = choose|a: int| 0 <= a < current@.len() && current@[a] == s as usize;
                assert(current@[a] as int == s);
                assert(walk_relaxed(net, *old(state), *state, round as int, floor, current@[a] as int, t));
            }
        }
    }


    /// The latest time of a stop over rounds `1..=max_rounds` (the first round wins a
    /// tie), at the given start stop; without one, the stop whose latest time is the
    /// earliest (the first such stop wins a tie). Returns the time, its round and its stop.
    fn select_best(
        &self,
        state: &RaptorState,
        from_stop_idx: Option<usize>,
        Ghost(dest): Ghost<int>,
        Ghost(target): Ghost<Time>,
    ) -> (res: (Time, usize, Option<usize>))
        requires
            self.max_rounds < usize::MAX,
            table_ok(self.network, *state, self.max_rounds as nat, dest, target),
            from_stop_idx matches Some(f) ==> f < self.network.stops@.len(),
        ensures
            match res.2 {
                Some(st) => {
                    &&& st < self.network.stops@.len()
                    &&& (from_stop_idx matches Some(f) ==> st == f)
                    &&& 1 <= res.1 <= self.max_rounds
                    &&& state.time(res.1 as int, st as int) == res.0
                    &&& res.0 < u32::MAX
                    &&& res.0 == latest_upto(*state, st as int, self.max_rounds as int)
                },
                None => true,
            },
            from_stop_idx matches Some(f) ==> (res.2 is Some <==> latest_upto(*state, f as int, self.max_rounds as int) >= 0),
            from_stop_idx is None ==> (res.2 is Some <==> exists|x: int| 0 <= x < self.network.stops@.len()
                && #[trigger] latest_upto(*state, x, self.max_rounds as int) >= 0),
            from_stop_idx is None ==> forall|x: int| 0 <= x < self.network.stops@.len()
                && #[trigger] latest_upto(*state, x, self.max_rounds as int) >= 0
                ==> res.0 <= latest_upto(*state, x, self.max_rounds as int),
    {
        let ghost n = self.network.stops@.len();
        let ghost rounds = self.max_rounds as int;
        match from_stop_idx {
            Some(f) => {
                let (t, r) = self.latest_of(state, f, Ghost(dest), Ghost(target));
                if r == 0 {
                    (u32::MAX, 0, None)
                } else {
                    (t, r, Some(f))
                }
            },
            None => {
                let mut best_departure_time: Time = u32::MAX;
                let mut best_round: usize = 0;
                let mut best_start_stop: Option<usize> = None;
                let num_stops = self.network.stops.len();
                let mut x: usize = 0;
                while x < num_stops
                    invariant
                        self.max_rounds < usize::MAX,
                        table_ok(self.network, *state, self.max_rounds as nat, dest, target),
                        n == self.network.stops@.len(),
                        num_stops == n,
                        rounds == self.max_rounds as int,
                        x <= n,
                        match best_start_stop {
                            Some(st) => st < n && 1 <= best_round <= rounds
                                && state.time(best_round as int, st as int) == best_departure_time
                                && best_departure_time < u32::MAX
                                && best_departure_time == latest_upto(*state, st as int, rounds),
                            None => true,
                        },
                        best_start_stop is Some <==> exists|y: int| 0 <= y < x && #[trigger] latest_upto(*state, y, rounds) >= 0,
                        forall|y: int| 0 <= y < x && #[trigger] latest_upto(*state, y, rounds) >= 0
                            ==> best_departure_time <= latest_upto(*state, y, rounds),
                    decreases n - x,
                {
                    let (t, r) = self.latest_of(state, x, Ghost(dest), Ghost(target));
                    if r != 0 && (best_start_stop.is_none() || t < best_departure_time) {
                        best_departure_time = t;
                        best_round = r;
                        best_start_stop = Some(x);
                    }
                    proof {
                        assert forall|y: int| 0 <= y < x + 1 && #[trigger] latest_upto(*state, y, rounds) >= 0
                            implies best_departure_time <= latest_upto(*state, y, rounds) by {}
                        if best_start_stop is Some {
                            if latest_upto(*state, x as int, rounds) >= 0 {
                                assert(exists|y: int| 0 <= y < x + 1 && #[trigger] latest_upto(*state, y, rounds) >= 0);
                            } else {
                                let y = choose|y: int| 0 <= y < x && #[trigger] latest_upto(*state, y, rounds) >= 0;
                                assert(0 <= y < x + 1 && latest_upto(*state, y, rounds) >= 0);
                            }
                        }
                    }
                    x = x + 1;
                }
                (best_departure_time, best_round, best_start_stop)
            },
        }
    }

    /// The latest time of stop `x` over rounds `1..=max_rounds` and the first round
    /// that has it; round 0 when the stop has no time in those rounds.
    fn latest_of(&self, state: &RaptorState, x: usize, Ghost(dest): Ghost<int>, Ghost(target): Ghost<Time>) -> (res: (Time, usize))
        requires
            self.max_rounds < usize::MAX,
            table_ok(self.network, *state, self.max_rounds as nat, dest, target),
            x < self.network.stops@.len(),
        ensures
            res.1 == 0 <==> latest_upto(*state, x as int, self.max_rounds as int) < 0,
            res.1 != 0 ==> 1 <= res.1 <= self.max_rounds && res.0 < u32::MAX && state.time(res.1 as int, x as int) == res.0
                && res.0 == latest_upto(*state, x as int, self.max_rounds as int),
    {
        let mut best: Time = 0;
        let mut best_round: usize = 0;
        let mut r: usize = 1;
        while r <= self.max_rounds
            invariant
                self.max_rounds < usize::MAX,
                table_ok(self.network, *state, self.max_rounds as nat, dest, target),
                x < self.network.stops@.len(),
                1 <= r <= self.max_rounds + 1,
                best_round == 0 <==> latest_upto(*state, x as int, r - 1) < 0,
                best_round != 0 ==> 1 <= best_round < r && best < u32::MAX
                    && state.time(best_round as int, x as int) == best && best == latest_upto(*state, x as int, r - 1),
            decreases self.max_rounds + 1 - r,
        {
            let t = state.best_times[r][x];
            if t < u32::MAX && (best_round == 0 || t > best) {
                best = t;
                best_round = r;
            }
            proof {
                lemma_latest_upto_nonneg(*state, x as int, r - 1);
            }
            r = r + 1;
        }
        (best, best_round)
    }

    /// Follows the parent entries from `start` in round `best_round` down to round 0,
    /// one leg per entry, in travel order. Returns the legs and how many are walks, or
    /// `None` when the walk entries of a round lead round in a circle; since walks are
    /// recorded in walking order, that happens only where some route's identifier is
    /// the walk marker, so that its rides read back as walks.
    #[verifier::rlimit(100)]
    #[verifier::spinoff_prover]
    fn rebuild_legs(
        &self,
        state: &RaptorState,
        start: usize,
        best_round: usize,
        best_departure_time: Time,
        Ghost(dest): Ghost<int>,
        Ghost(target): Ghost<Time>,
    ) -> (res: Option<(Vec<JourneyLeg>, usize)>)
        requires
            self.network.wf(),
            table_ok(self.network, *state, self.max_rounds as nat, dest, target),
            0 <= dest < self.network.stops@.len(),
            start < self.network.stops@.len(),
            1 <= best_round <= self.max_rounds,
            state.time(best_round as int, start as int) == best_departure_time,
            best_departure_time < u32::MAX,
        ensures
            res matches Some((legs, walks)) ==> {
                &&& walks == walk_count(legs@)
                &&& bus_count(legs@) <= best_round
                &&& forward_chain(self.network, legs@, self.network.stops@[start as int].id, best_departure_time,
                    self.network.stops@[dest].id, target)
            },
            res is None ==> uses_walk_marker(self.network),
    {
        let ghost net = self.network;
        let ghost n = net.stops@.len();
        let ghost rounds = self.max_rounds as nat;
        let ghost start_id = net.stops@[start as int].id;
        let ghost marker = uses_walk_marker(net);
        let mut legs: Vec<JourneyLeg> = Vec::new();
        let mut walks: usize = 0;
        let mut current_stop_idx: usize = start;
        let mut current_round: usize = best_round;
        let mut walk_steps: usize = 0;
        let mut stuck: bool = false;
        let num_stops: usize = self.network.stops.len();
        let ghost mut chain: Seq<int> = seq![start as int];
        while current_round > 0 && !stuck
            invariant
                net == self.network,
                net.wf(),
                table_ok(net, *state, rounds, dest, target),
                rounds == self.max_rounds,
                n == net.stops@.len(),
                num_stops == n,
                start < n,
                start_id == net.stops@[start as int].id,
                marker == uses_walk_marker(net),
                1 <= best_round <= rounds,
                state.time(best_round as int, start as int) == best_departure_time,
                best_departure_time < u32::MAX,
                current_stop_idx < n,
                current_round <= best_round,
                walk_steps <= n,
                legs@.len() == 0 ==> current_stop_idx == start && current_round == best_round,
                legs@.len() > 0 ==> chain_from(net, legs@, start_id, best_departure_time),
                legs@.len() > 0 ==> leg_to(legs@.last()) == net.stops@[current_stop_idx as int].id,
                legs@.len() > 0 && legs@.last() is Bus
                    ==> legs@.last()->arrival_time == state.time(current_round as int, current_stop_idx as int),
                walks == walk_count(legs@),
                walks <= legs@.len(),
                bus_count(legs@) + current_round == best_round,
                !marker ==> state.time(current_round as int, current_stop_idx as int) < u32::MAX,
                !marker ==> !stuck,
                current_round == 0 ==> legs@.len() > 0 && legs@.last() is Bus,
                legs@.len() == 0 ==> !stuck,
                !marker ==> chain.len() == walk_steps + 1 && chain.last() == current_stop_idx as int,
                !marker ==> forall|i: int| 0 <= i < chain.len() ==> 0 <= #[trigger] chain[i] < n,
                !marker ==> forall|i: int, j: int| 0 <= i < j < chain.len()
                    ==> #[trigger] walk_before(*state, current_round as int, chain[i], chain[j]),
                !marker ==> on_time(legs@, best_departure_time as int),
                !marker ==> clock(legs@, best_departure_time as int) == state.time(current_round as int, current_stop_idx as int),
                !marker ==> walks_simple(legs@),
                !marker ==> walk_steps <= legs@.len(),
                !marker ==> (legs@.len() - walk_steps > 0 ==> legs@[legs@.len() - walk_steps - 1] is Bus),
                !marker ==> forall|k: int| 0 <= k < walk_steps ==> leg_from(#[trigger] legs@[legs@.len() - walk_steps + k])
                    == net.stops@[chain[k]].id,
            decreases current_round, num_stops - walk_steps, if stuck { 0int } else { 1int },
        {
            match self.parent_of(state, current_stop_idx, current_round) {
                Some(link) => {
                    let parent_stop_idx = link.0;
                    let route_id = link.1;
                    let ghost l = state.parent_map(current_stop_idx as int)[current_round as usize];
                    proof {
                        lemma_parent_step(net, *state, current_stop_idx as int, current_round as int, l);
                    }
                    let from_stop_id = self.network.stops[current_stop_idx].id;
                    let to_stop_id = self.network.stops[parent_stop_idx].id;
                    let ghost before = legs@;
                    if route_id == u32::MAX {
                        proof {
                            if !marker {
                                let t = choose|t: int| 0 <= t < net.transfers@.len()
                                    && (#[trigger] net.transfers@[t]).from_stop == from_stop_id
                                    && net.transfers@[t].to_stop == to_stop_id;
                                assert(net.transfers@.len() > 0);
                            }
                        }
                        if walk_steps >= num_stops {
                            // The walk entries of this round lead round in a circle: the chain never ends.
                            proof {
                                if !marker {
                                    assert forall|i: int, j: int| 0 <= i < j < chain.len() implies chain[i] != chain[j] by {
                                        assert(walk_before(*state, current_round as int, chain[i], chain[j]));
                                    }
                                    lemma_distinct_below(chain, n);
                                }
                            }
                            return None;
                        }
                        let departure_time = state.best_times[current_round][current_stop_idx];
                        let arrival_time = state.best_times[current_round][parent_stop_idx];
                        let duration = arrival_time.saturating_sub(departure_time);
                        let leg = JourneyLeg::Walk { from_stop: from_stop_id, to_stop: to_stop_id, duration };
                        proof {
                            lemma_walk_leg(net, *state, current_stop_idx as int, current_round as int, l, duration);
                            lemma_chain_push(net, before, leg, start_id, best_departure_time);
                            lemma_clock_push(before, leg, best_departure_time as int);
                            if !marker {
                                let r = current_round as int;
                                let cur = current_stop_idx as int;
                                let p = parent_stop_idx as int;
                                assert(walk_before(*state, r, cur, p));
                                assert(state.time(r, p) < u32::MAX);
                                assert(net.stop_index_of(net.stops@[p].id) == Some(p as usize));
                                assert(net.stop_index_of(net.stops@[cur].id) == Some(cur as usize));
                                let base = before.len() - walk_steps;
                                assert forall|i: int| base <= i < before.len() implies leg_from(#[trigger] before[i]) != leg_to(leg) by {
                                    let k = i - base;
                                    assert(before[before.len() - walk_steps + k] == before[i]);
                                    let x = chain[k];
                                    if k < chain.len() - 1 {
                                        assert(walk_before(*state, r, chain[k], chain[chain.len() - 1]));
                                    }
                                    assert(state.time(r, x) < u32::MAX);
                                    assert(net.stop_index_of(net.stops@[x].id) == Some(x as usize));
                                    assert(x != p);
                                }
                                lemma_walks_simple_push(before, leg, base);
                            }
                        }
                        legs.push(leg);
                        assert(legs.len() == legs@.len());
                        walks = walks + 1;
                        let ghost cur = current_stop_idx as int;
                        current_stop_idx = parent_stop_idx;
                        walk_steps = walk_steps + 1;
                        proof {
                            assert(legs@.drop_last() =~= before);
                            if !marker {
                                let r = current_round as int;
                                let p = parent_stop_idx as int;
                                assert(walk_before(*state, r, cur, p));
                                let old_chain = chain;
                                chain = chain.push(p);
                                assert forall|k: int| 0 <= k < walk_steps implies leg_from(#[trigger] legs@[legs@.len() - walk_steps + k])
                                    == net.stops@[chain[k]].id by {
                                    if k < walk_steps - 1 {
                                        assert(legs@[legs@.len() - walk_steps + k] == before[before.len() - (walk_steps - 1) + k]);
                                    } else {
                                        assert(legs@[legs@.len() - walk_steps + k] == leg);
                                    }
                                }
                                assert(legs@.len() - walk_steps == before.len() - (walk_steps - 1));
                                if legs@.len() - walk_steps > 0 {
                                    assert(legs@[legs@.len() - walk_steps - 1] == before[before.len() - (walk_steps - 1) - 1]);
                                }
                                assert forall|i: int, j: int| 0 <= i < j < chain.len()
                                    implies #[trigger] walk_before(*state, r, chain[i], chain[j]) by {
                                    if j == old_chain.len() {
                                        if i < old_chain.len() - 1 {
                                            assert(walk_before(*state, r, old_chain[i], old_chain[old_chain.len() - 1]));
                                        }
                                    } else {
                                        assert(walk_before(*state, r, old_chain[i], old_chain[j]));
                                    }
                                }
                            }
                        }
                    } else {
                        let departure_time = state.best_times[current_round][current_stop_idx];
                        let arrival_time = state.best_times[current_round - 1][parent_stop_idx];
                        let leg = JourneyLeg::Bus {
                            route_id,
                            from_stop: from_stop_id,
                            to_stop: to_stop_id,
                            departure_time,
                            arrival_time,
                        };
                        proof {
                            lemma_chain_push(net, before, leg, start_id, best_departure_time);
                            lemma_clock_push(before, leg, best_departure_time as int);
                            if !marker {
                                lemma_walks_simple_push(before, leg, before.len() - walk_steps);
                            }
                        }
                        legs.push(leg);
                        current_stop_idx = parent_stop_idx;
                        current_round = current_round - 1;
                        walk_steps = 0;
                        proof {
                            assert(legs@.drop_last() =~= before);
                            chain = seq![parent_stop_idx as int];
                        }
                    }
                },
                None => {
                    assert(state.time(current_round as int, current_stop_idx as int) == u32::MAX);
                    assert(legs@.len() > 0);
                    stuck = true;
                },
            }
        }
        proof {
            assert(legs@.len() > 0);
            if !marker {
                assert(current_round == 0);
                assert(state.time(0, current_stop_idx as int) < u32::MAX);
                assert(current_stop_idx == dest);
                assert(state.time(0, dest) == target);
            }
        }
        Some((legs, walks))
    }

    /// Picks the departure that `select_best` chooses and rebuilds its journey from the
    /// parent entries, in travel order.
    fn find_best_journey(
        &self,
        state: &RaptorState,
        from_stop_idx: Option<usize>,
        destination_idx: usize,
        target_arrival_time: Time,
        Ghost(dest_id): Ghost<StopId>,
        Ghost(floor): Ghost<Time>,
    ) -> (r: Option<Journey>)
        requires
            self.network.wf(),
            self.max_rounds < usize::MAX,
            self.network.stop_index_of(dest_id) == Some(destination_idx),
            target_arrival_time < u32::MAX ==> forall|k: int| 1 <= k <= self.max_rounds
                ==> #[trigger] closed_round(self.network, *state, k, floor),
            table_ok(self.network, *state, self.max_rounds as nat, destination_idx as int, target_arrival_time),
            destination_idx < self.network.stops@.len(),
            from_stop_idx matches Some(f) ==> f < self.network.stops@.len(),
        ensures
            r matches Some(j) ==> found_journey(
                self.network,
                j,
                self.network.stops@[destination_idx as int].id,
                target_arrival_time,
                match from_stop_idx {
                    Some(f) => Some(self.network.stops@[f as int].id),
                    None => None,
                },
            ),
            r matches Some(j) ==> {
                &&& self.max_rounds >= 1
                &&& bus_count(j.legs@) <= self.max_rounds
                &&& exists|rr: int, x: int| 1 <= rr <= self.max_rounds && 0 <= x < self.network.stops@.len()
                    && j.departure_time == #[trigger] state.time(rr, x)
                &&& (from_stop_idx matches Some(f) ==> j.departure_time == latest_upto(*state, f as int, self.max_rounds as int))
                &&& (from_stop_idx is None ==> forall|x: int| 0 <= x < self.network.stops@.len()
                    && #[trigger] latest_upto(*state, x, self.max_rounds as int) >= 0
                    ==> j.departure_time <= latest_upto(*state, x, self.max_rounds as int))
                &&& exists|x: int| 0 <= x < self.network.stops@.len()
                    && leg_from(j.legs@[0]) == self.network.stops@[x].id
                    && j.departure_time == #[trigger] latest_upto(*state, x, self.max_rounds as int)
            },
            (from_stop_idx matches Some(f) ==> latest_upto(*state, f as int, self.max_rounds as int) < 0)
                && (from_stop_idx is None ==> forall|x: int| 0 <= x < self.network.stops@.len()
                    ==> #[trigger] latest_upto(*state, x, self.max_rounds as int) < 0)
                ==> r is None,
            !uses_walk_marker(self.network)
                && (from_stop_idx matches Some(f) ==> latest_upto(*state, f as int, self.max_rounds as int) >= 0)
                && (from_stop_idx is None ==> exists|x: int| 0 <= x < self.network.stops@.len()
                    && #[trigger] latest_upto(*state, x, self.max_rounds as int) >= 0)
                ==> r is Some,
            tables_sound(self.network, *state, self.max_rounds as nat, destination_idx as int, target_arrival_time),
            r matches Some(j) ==> (target_arrival_time < u32::MAX ==> no_later_journey(self.network, j.departure_time,
                dest_id, target_arrival_time, floor, self.max_rounds as nat, leg_from(j.legs@[0]))),
            r matches Some(j) ==> (target_arrival_time < u32::MAX && from_stop_idx is None && !uses_walk_marker(self.network)
                ==> start_no_later(self.network, j.departure_time, dest_id, target_arrival_time, floor, self.max_rounds as nat)),
    {
        proof {
            reveal(tables_sound);
        }
        let (best_departure_time, best_round, best_start_stop) =
            self.select_best(state, from_stop_idx, Ghost(destination_idx as int), Ghost(target_arrival_time));
        match best_start_stop {
            Some(start) => {
                proof {
                    assert(best_departure_time <= target_arrival_time);
                }
                match self.rebuild_legs(state, start, best_round, best_departure_time,
                    Ghost(destination_idx as int), Ghost(target_arrival_time)) {
                    Some((legs, walks)) => {
                        let mut journey = Journey {
                            legs,
                            total_time: 0,
                            num_transfers: walks,
                            departure_time: 0,
                            arrival_time: 0,
                        };
                        journey.finalize(best_departure_time, target_arrival_time);
                        proof {
                            assert(1 <= best_round <= self.max_rounds && start < self.network.stops@.len()
                                && journey.departure_time == state.time(best_round as int, start as int));
                            assert(journey.departure_time == latest_upto(*state, start as int, self.max_rounds as int));
                            assert(leg_from(journey.legs@[0]) == self.network.stops@[start as int].id);
                            if target_arrival_time < u32::MAX {
                                let rounds = self.max_rounds as nat;
                                assert(journey.departure_time == latest_upto(*state, start as int, rounds as int));
                                lemma_route_result(self.network, *state, rounds, destination_idx as int, dest_id,
                                    target_arrival_time, floor, journey, from_stop_idx is None);
                            }
                        }
                        Some(journey)
                    },
                    None => None,
                }
            },
            None => None,
        }
    }

    /// The parent entry of a stop for a round, if any.
    fn parent_of(&self, state: &RaptorState, stop_idx: usize, round: usize) -> (r: Option<Parent>)
        requires
            stop_idx < state.parents@.len(),
        ensures
            r == (if state.parent_map(stop_idx as int).contains_key(round) {
                Some(state.parent_map(stop_idx as int)[round])
            } else {
                None
            }),
    {
        broadcast use vstd::std_specs::hash::group_hash_axioms;

        match state.parents[stop_idx].get(&round) {
            Some(link) => Some(*link),
            None => None,
        }
    }


    /// A journey that reaches `destination_id` by `target_arrival_time`: works back
    /// from the destination round by round, one more ride per round, keeping at each
    /// stop the latest departure found that leaves no more than the maximum departure
    /// delay before the target. It rebuilds the journey of the latest departure at
    /// `from_stop_id` when the network knows that stop; else, among all stops, at the
    /// one whose latest departure is earliest. The legs run in travel order. Where a
    /// route's identifier is the walk marker `u32::MAX`, its rides read back as walks;
    /// where those lead round in a circle, no journey can be rebuilt and the result is
    /// `None`.
    #[verifier::rlimit(100)]
    #[verifier::spinoff_prover]
    pub fn find_route(&self, from_stop_id: Option<StopId>, destination_id: StopId, target_arrival_time: Time) -> (r: Option<Journey>)
        requires
            self.searchable(),
        ensures
            self.net().stop_index_of(destination_id) is None ==> r is None,
            r matches Some(j) ==> found_journey(
                self.net(),
                j,
                destination_id,
                target_arrival_time,
                search_start(self.net(), from_stop_id),
            ),
            r matches Some(j) ==> bus_count(j.legs@) <= self.round_limit(),
            r matches Some(j) ==> j.departure_time >= sat_sub(target_arrival_time, self.departure_delay() as int),
            r matches Some(j) ==> (target_arrival_time < u32::MAX ==> no_later_journey(self.net(), j.departure_time,
                destination_id, target_arrival_time, sat_sub(target_arrival_time, self.departure_delay() as int),
                self.round_limit() as nat, leg_from(j.legs@[0]))),
            r matches Some(j) ==> (target_arrival_time < u32::MAX && !uses_walk_marker(self.net())
                && search_start(self.net(), from_stop_id) is None ==> start_no_later(self.net(), j.departure_time,
                    destination_id, target_arrival_time, sat_sub(target_arrival_time, self.departure_delay() as int),
                    self.round_limit() as nat)),
            target_arrival_time < u32::MAX && !uses_walk_marker(self.net())
                && journey_exists(self.net(), destination_id, target_arrival_time,
                    sat_sub(target_arrival_time, self.departure_delay() as int), self.round_limit() as nat,
                    search_start(self.net(), from_stop_id)) ==> r is Some,
    {
        let ghost net = self.network;
        let destination_idx = match self.network.get_stop_index(destination_id) {
            Some(i) => i,
            None => {
                return None;
            },
        };
        let from_stop_idx = match from_stop_id {
            Some(id) => self.network.get_stop_index(id),
            None => None,
        };
        proof {
            net.lemma_stop_index(destination_id);
            if let Some(id) = from_stop_id {
                net.lemma_stop_index(id);
            }
        }
        let floor = target_arrival_time.saturating_sub(self.max_departure_delay);
        let mut state = self.initial_state(destination_idx, target_arrival_time);
        let ghost n = net.stops@.len();
        let ghost rounds = self.max_rounds as nat;
        let ghost dest = destination_idx as int;
        let ghost target = target_arrival_time;
        let ghost bounding = target_arrival_time < u32::MAX;
        let num_stops = self.network.stops.len();
        proof {
            assert forall|r: int, x: int| 1 <= r <= rounds && 0 <= x < n implies
                #[trigger] state.time(r, x) == u32::MAX || state.time(r, x) >= floor by {}
        }

        let mut round: usize = 1;
        while round <= self.max_rounds
            invariant_except_break
                later_rows_empty(state, round - 1, rounds, n),
                bounding ==> forall|x: int| 0 <= x < n ==> (#[trigger] marks_of(state.marked_stops)[x]
                    <==> state.time(round - 1, x) < u32::MAX),
            invariant
                net == self.network,
                net.wf(),
                routes_usable(net),
                self.max_rounds < usize::MAX,
                n == net.stops@.len(),
                num_stops == n,
                n <= usize::MAX / 8,
                rounds == self.max_rounds,
                dest == destination_idx,
                destination_idx < n,
                target == target_arrival_time,
                1 <= round <= rounds + 1,
                table_ok(net, state, rounds, dest, target),
                bounding == (target < u32::MAX),
                net.stop_index_of(destination_id) == Some(destination_idx),
                bounding ==> forall|r: int| 1 <= r < round ==> #[trigger] closed_round(net, state, r, floor),
                above_floor(state, rounds, n, floor),
                floor == sat_sub(target, self.max_departure_delay as int),
            ensures
                table_ok(net, state, rounds, dest, target),
                above_floor(state, rounds, n, floor),
                bounding ==> forall|r: int| 1 <= r <= rounds ==> #[trigger] closed_round(net, state, r, floor),
            decreases rounds + 1 - round,
        {
            let mut improved_stops = Marks::cleared(num_stops);
            let ghost before_marking = state;
            self.mark_routes_for_round(&mut state, round - 1);
            proof {
                lemma_same_tables(net, before_marking, state, rounds, dest, target, round - 1);
                if bounding {
                    assert forall|r: int| 1 <= r < round implies #[trigger] closed_round(net, state, r, floor) by {
                        lemma_closed_same(net, before_marking, state, r, floor);
                    }
                }
            }
            if state.marked_routes.not_any() {
                proof {
                    if bounding {
                        let ghost empty_marks = marks_of(improved_stops);
                        assert forall|x: int| 0 <= x < n implies (#[trigger] empty_marks[x]
                            <==> state.time(round as int, x) < u32::MAX) by {
                            assert(state.time(round as int, x) == u32::MAX);
                        }
                        assert forall|x: int| 0 <= x < n implies no_worse(#[trigger] state.time(round as int, x), state.time(round as int, x)) by {}
                        lemma_closed_after_round(net, state, state, state, Seq::empty(), empty_marks, round as int, floor);
                        assert forall|r: int| 1 <= r <= rounds implies #[trigger] closed_round(net, state, r, floor) by {
                            if r > round {
                                assert forall|x: int| 0 <= x < n implies #[trigger] state.time(r - 1, x) == u32::MAX by {}
                                lemma_closed_empty(net, state, r, floor);
                            }
                        }
                    }
                }
                break;
            }
            let marked = state.marked_routes.iter_ones();
            let ghost st_k = state;
            self.scan_routes(&mut state, &marked, round, &mut improved_stops,
                Ghost(dest), Ghost(target), Ghost(destination_id), floor);
            let ghost before_transfers = state;
            let ghost scanned_marks = marks_of(improved_stops);
            self.process_transfers_backward(&mut state, round, &mut improved_stops, Ghost(dest), Ghost(target), floor);
            proof {
                if bounding {
                    lemma_closed_after_round(net, st_k, before_transfers, state, marked@, scanned_marks, round as int, floor);
                    assert forall|r: int| 1 <= r < round implies #[trigger] closed_round(net, state, r, floor) by {
                        assert(state.best_times@[r] == st_k.best_times@[r]);
                        assert(state.best_times@[r - 1] == st_k.best_times@[r - 1]);
                        lemma_closed_same(net, st_k, state, r, floor);
                    }
                }
            }
            let ghost before_marking = state;
            state.marked_stops = improved_stops;
            proof {
                lemma_same_tables(net, before_marking, state, rounds, dest, target, round as int);
                if bounding {
                    assert forall|r: int| 1 <= r <= round implies #[trigger] closed_round(net, state, r, floor) by {
                        lemma_closed_same(net, before_marking, state, r, floor);
                    }
                    assert forall|x: int| 0 <= x < n implies (#[trigger] marks_of(state.marked_stops)[x]
                        <==> state.time(round as int, x) < u32::MAX) by {
                        assert(no_worse(state.time(round as int, x), before_transfers.time(round as int, x)));
                    }
                }
            }
            if state.marked_stops.not_any() {
                proof {
                    if bounding {
                        assert forall|r: int| 1 <= r <= rounds implies #[trigger] closed_round(net, state, r, floor) by {
                            if r > round {
                                assert forall|x: int| 0 <= x < n implies #[trigger] state.time(r - 1, x) == u32::MAX by {
                                    if r - 1 == round {
                                        assert(!marks_of(state.marked_stops)[x]);
                                    }
                                }
                                lemma_closed_empty(net, state, r, floor);
                            }
                        }
                    }
                }
                break;
            }
            round = round + 1;
        }
        let ghost start = search_start(net, from_stop_id);
        proof {
            if bounding && journey_exists(net, destination_id, target, floor, rounds, start) {
                let hops = choose|hops: Seq<(int, int, int, int)>| #[trigger] hops_chain(net, hops, hop_start(net, hops[0]), destination_id)
                    && hops.len() <= rounds
                    && hops_departure(net, hops, target) >= floor
                    && (start matches Some(o) ==> hop_start(net, hops[0]) == o);
                let s0 = hop_start(net, hops[0]);
                lemma_hops_bound(net, state, rounds, dest, destination_id, target, floor, hops, s0);
                let jr = choose|jr: int| 1 <= jr <= hops.len() && #[trigger] state.time(jr, ix(net, s0)) != u32::MAX
                    && state.time(jr, ix(net, s0)) >= hops_departure(net, hops, target);
                assert(hop_ok(net, hops[0]));
                net.lemma_stop_index(s0);
                lemma_latest_upto_ge(state, ix(net, s0), rounds as int, jr);
                if let Some(f) = from_stop_idx {
                    assert(ix(net, s0) == f as int);
                }
            }
        }
        let r = self.find_best_journey(&state, from_stop_idx, destination_idx, target_arrival_time,
            Ghost(destination_id), Ghost(floor));
        proof {
            if r is Some {
                let j = r->0;
                let (rr, x) = choose|rr: int, x: int| 1 <= rr <= rounds && 0 <= x < n
                    && j.departure_time == #[trigger] state.time(rr, x);
                assert(state.time(rr, x) == u32::MAX || state.time(rr, x) >= floor);
            }
        }
        r
    }

    /// Scans the marked routes of a round one after another, applying the times each
    /// scan proposes before the next one.
    fn scan_routes(
        &self,
        state: &mut RaptorState,
        marked: &Vec<usize>,
        round: usize,
        improved_stops: &mut Marks,
        Ghost(dest): Ghost<int>,
        Ghost(target): Ghost<Time>,
        Ghost(dest_id): Ghost<StopId>,
        floor: Time,
    )
        requires
            self.network.wf(),
            routes_usable(self.network),
            1 <= round <= self.max_rounds,
            table_ok(self.network, *old(state), self.max_rounds as nat, dest, target),
            0 <= dest < self.network.stops@.len(),
            later_rows_empty(*old(state), round as int, self.max_rounds as nat, self.network.stops@.len()),
            above_floor(*old(state), self.max_rounds as nat, self.network.stops@.len(), floor),
            forall|a: int| 0 <= a < marked@.len() ==> marked@[a] < self.network.routes@.len(),
            marks_of(*old(improved_stops)).len() == self.network.stops@.len(),
            forall|x: int| 0 <= x < self.network.stops@.len() && #[trigger] marks_of(*old(improved_stops))[x]
                ==> old(state).time(round as int, x) < u32::MAX,
            forall|x: int| 0 <= x < self.network.stops@.len() && #[trigger] old(state).time(round as int, x) < u32::MAX
                ==> marks_of(*old(improved_stops))[x],
        ensures
            table_ok(self.network, *final(state), self.max_rounds as nat, dest, target),
            later_rows_empty(*final(state), round as int, self.max_rounds as nat, self.network.stops@.len()),
            above_floor(*final(state), self.max_rounds as nat, self.network.stops@.len(), floor),
            forall|r: int| 0 <= r <= self.max_rounds && r != round
                ==> #[trigger] final(state).best_times@[r] == old(state).best_times@[r],
            forall|x: int| 0 <= x < self.network.stops@.len()
                ==> no_worse(#[trigger] final(state).time(round as int, x), old(state).time(round as int, x)),
            final(state).marked_stops == old(state).marked_stops,
            marks_of(*final(improved_stops)).len() == self.network.stops@.len(),
            forall|x: int| 0 <= x < self.network.stops@.len() && #[trigger] marks_of(*final(improved_stops))[x]
                ==> final(state).time(round as int, x) < u32::MAX,
            forall|x: int| 0 <= x < self.network.stops@.len() && #[trigger] final(state).time(round as int, x) < u32::MAX
                ==> marks_of(*final(improved_stops))[x],
            forall|a: int| 0 <= a < marked@.len()
                ==> #[trigger] route_closed(self.network, *final(state), marked@[a] as int, round as int, floor),
    {
        let ghost net = self.network;
        let ghost n = net.stops@.len();
        let ghost rounds = self.max_rounds as nat;
        let ghost st_in = *state;
        let mut k: usize = 0;
        while k < marked.len()
            invariant
                net == self.network,
                net.wf(),
                routes_usable(net),
                n == net.stops@.len(),
                rounds == self.max_rounds,
                1 <= round <= rounds,
                st_in == *old(state),
                0 <= dest < n,
                table_ok(net, *state, rounds, dest, target),
                later_rows_empty(*state, round as int, rounds, n),
                above_floor(*state, rounds, n, floor),
                forall|a: int| 0 <= a < marked@.len() ==> marked@[a] < net.routes@.len(),
                marks_of(*improved_stops).len() == n,
                forall|x: int| 0 <= x < n && #[trigger] marks_of(*improved_stops)[x]
                    ==> state.time(round as int, x) < u32::MAX,
                forall|x: int| 0 <= x < n && #[trigger] state.time(round as int, x) < u32::MAX
                    ==> marks_of(*improved_stops)[x],
                forall|r: int| 0 <= r <= rounds && r != round ==> #[trigger] state.best_times@[r] == st_in.best_times@[r],
                forall|x: int| 0 <= x < n ==> no_worse(#[trigger] state.time(round as int, x), st_in.time(round as int, x)),
                state.marked_stops == st_in.marked_stops,
                forall|a: int| 0 <= a < k ==> #[trigger] route_closed(net, *state, marked@[a] as int, round as int, floor),
            decreases marked@.len() - k,
        {
            let route_idx = marked[k];
            let ghost st0 = *state;
            let improvements = self.process_route_backward(&*state, route_idx, round, floor);
            self.apply_improvements(state, &improvements, route_idx, round, improved_stops,
                Ghost(dest), Ghost(target), floor);
            proof {
                assert(state.best_times@[round - 1] == st_in.best_times@[round - 1]);
                assert(st0.best_times@[round - 1] == st_in.best_times@[round - 1]);
                assert forall|r: int| 0 <= r <= rounds && r != round implies #[trigger] state.best_times@[r]
                    == st_in.best_times@[r] by {
                    assert(state.best_times@[r] == st0.best_times@[r]);
                }
                assert forall|x: int| 0 <= x < n implies no_worse(#[trigger] state.time(round as int, x),
                    st_in.time(round as int, x)) by {
                    assert(no_worse(state.time(round as int, x), st0.time(round as int, x)));
                    assert(no_worse(st0.time(round as int, x), st_in.time(round as int, x)));
                }
                assert(state.best_times@[round - 1] == st0.best_times@[round - 1]);
                assert forall|a: int| 0 <= a < k + 1 implies #[trigger] route_closed(net, *state, marked@[a] as int, round as int, floor) by {
                    if a == k {
                        lemma_route_closed_by_scan(net, st0, *state, route_idx as int, round as int, floor, improvements@, n);
                    } else {
                        lemma_route_closed_raise(net, st0, *state, marked@[a] as int, round as int, floor);
                    }
                }
            }
            k = k + 1;
        }
    }

    /// Applies the times a route scan proposed: each one that still beats the stop's
    /// time in this round (is later, or the stop has none) replaces it, with its parent
    /// entry, and marks the stop.
    fn apply_improvements(
        &self,
        state: &mut RaptorState,
        improvements: &Vec<(usize, Time, Parent)>,
        route_idx: usize,
        round: usize,
        improved_stops: &mut Marks,
        Ghost(dest): Ghost<int>,
        Ghost(target): Ghost<Time>,
        floor: Time,
    )
        requires
            self.network.wf(),
            1 <= round <= self.max_rounds,
            route_idx < self.network.routes@.len(),
            table_ok(self.network, *old(state), self.max_rounds as nat, dest, target),
            later_rows_empty(*old(state), round as int, self.max_rounds as nat, self.network.stops@.len()),
            above_floor(*old(state), self.max_rounds as nat, self.network.stops@.len(), floor),
            forall|j: int| 0 <= j < improvements@.len()
                ==> improvement_ok(self.network, *old(state), route_idx as int, round as int, floor, #[trigger] improvements@[j]),
            marks_of(*old(improved_stops)).len() == self.network.stops@.len(),
            forall|x: int| 0 <= x < self.network.stops@.len() && #[trigger] marks_of(*old(improved_stops))[x]
                ==> old(state).time(round as int, x) < u32::MAX,
            forall|x: int| 0 <= x < self.network.stops@.len() && #[trigger] old(state).time(round as int, x) < u32::MAX
                ==> marks_of(*old(improved_stops))[x],
        ensures
            table_ok(self.network, *final(state), self.max_rounds as nat, dest, target),
            later_rows_empty(*final(state), round as int, self.max_rounds as nat, self.network.stops@.len()),
            above_floor(*final(state), self.max_rounds as nat, self.network.stops@.len(), floor),
            forall|r: int| 0 <= r <= self.max_rounds && r != round
                ==> #[trigger] final(state).best_times@[r] == old(state).best_times@[r],
            forall|x: int| 0 <= x < self.network.stops@.len()
                ==> no_worse(#[trigger] final(state).time(round as int, x), old(state).time(round as int, x)),
            final(state).marked_stops == old(state).marked_stops,
            final(state).marked_routes == old(state).marked_routes,
            marks_of(*final(improved_stops)).len() == self.network.stops@.len(),
            forall|x: int| 0 <= x < self.network.stops@.len() && #[trigger] marks_of(*final(improved_stops))[x]
                ==> final(state).time(round as int, x) < u32::MAX,
            applied(*final(state), improvements@, round as int),
            forall|x: int| 0 <= x < self.network.stops@.len() && #[trigger] final(state).time(round as int, x) < u32::MAX
                ==> marks_of(*final(improved_stops))[x],
    {
        let ghost net = self.network;
        let ghost n = net.stops@.len();
        let ghost rounds = self.max_rounds as nat;
        let ghost st0 = *state;
        let mut m: usize = 0;
        while m < improvements.len()
            invariant
                net == self.network,
                net.wf(),
                n == net.stops@.len(),
                rounds == self.max_rounds,
                1 <= round <= rounds,
                route_idx < net.routes@.len(),
                st0 == *old(state),
                table_ok(net, *state, rounds, dest, target),
                later_rows_empty(*state, round as int, rounds, n),
                above_floor(*state, rounds, n, floor),
                forall|r: int| 0 <= r <= rounds && r != round ==> #[trigger] state.best_times@[r] == st0.best_times@[r],
                table_ok(net, st0, rounds, dest, target),
                forall|j: int| 0 <= j < improvements@.len()
                    ==> improvement_ok(net, st0, route_idx as int, round as int, floor, #[trigger] improvements@[j]),
                marks_of(*improved_stops).len() == n,
                forall|x: int| 0 <= x < n && #[trigger] marks_of(*improved_stops)[x]
                    ==> state.time(round as int, x) < u32::MAX,
                forall|x: int| 0 <= x < n && #[trigger] state.time(round as int, x) < u32::MAX
                    ==> marks_of(*improved_stops)[x],
                forall|x: int| 0 <= x < n ==> no_worse(#[trigger] state.time(round as int, x), st0.time(round as int, x)),
                state.marked_stops == st0.marked_stops,
                state.marked_routes == st0.marked_routes,
                forall|j: int| 0 <= j < m ==> state.time(round as int, (#[trigger] improvements@[j]).0 as int) != u32::MAX
                    && state.time(round as int, improvements@[j].0 as int) >= improvements@[j].1,
            decreases improvements@.len() - m,
        {
            let (stop_idx, new_time, parent_info) = improvements[m];
            assert(improvement_ok(net, st0, route_idx as int, round as int, floor, improvements@[m as int]));
            let ghost a = *state;
            let cur = state.best_times[round][stop_idx];
            if cur == u32::MAX || new_time > cur {
                set_time(&mut state.best_times, round, stop_idx, new_time);
                set_parent(&mut state.parents, stop_idx, round, parent_info);
                proof {
                    let p = parent_info.0 as int;
                    assert(lowered(a, *state, round as int, stop_idx as int, new_time, parent_info));
                    assert(state.best_times@[round - 1] == a.best_times@[round - 1]);
                    assert(a.best_times@[round - 1] == st0.best_times@[round - 1]);
                    assert(state.time(round - 1, p) == st0.time(round - 1, p));
                    assert(state.time(round as int, stop_idx as int) == new_time);
                    assert(st0.time(round - 1, p) <= target);
                    if parent_info.1 == u32::MAX {
                        assert(route_ids(net.routes@)[route_idx as int] == net.routes@[route_idx as int].id);
                        assert(uses_walk_marker(net));
                    }
                    lemma_lower_time(net, a, *state, rounds, dest, target, round as int,
                        stop_idx as int, new_time, parent_info);
                    assert forall|x: int| 0 <= x < n implies no_worse(#[trigger] state.time(round as int, x),
                        st0.time(round as int, x)) by {
                        assert(no_worse(a.time(round as int, x), st0.time(round as int, x)));
                    }
                    assert forall|r: int, x: int| 1 <= r <= rounds && 0 <= x < n implies
                        #[trigger] state.time(r, x) == u32::MAX || state.time(r, x) >= floor by {
                        if r != round {
                            assert(state.best_times@[r] == a.best_times@[r]);
                        }
                        assert(a.time(r, x) == u32::MAX || a.time(r, x) >= floor);
                    }
                    assert forall|r: int| 0 <= r <= rounds && r != round implies #[trigger] state.best_times@[r]
                        == st0.best_times@[r] by {
                        assert(state.best_times@[r] == a.best_times@[r]);
                    }
                    assert forall|j: int| 0 <= j < m + 1 implies state.time(round as int, (#[trigger] improvements@[j]).0 as int) != u32::MAX
                        && state.time(round as int, improvements@[j].0 as int) >= improvements@[j].1 by {
                        let x = improvements@[j].0 as int;
                        if j < m {
                            assert(improvement_ok(net, st0, route_idx as int, round as int, floor, improvements@[j]));
                            assert(no_worse(state.time(round as int, x), a.time(round as int, x)));
                        }
                    }
                }
                let ghost before = marks_of(*improved_stops);
                improved_stops.set(stop_idx, true);
                proof {
                    assert forall|x: int| 0 <= x < n && #[trigger] marks_of(*improved_stops)[x]
                        implies state.time(round as int, x) < u32::MAX by {
                        if x != stop_idx {
                            assert(before[x]);
                            assert(state.time(round as int, x) == a.time(round as int, x));
                        }
                    }
                    assert forall|x: int| 0 <= x < n && #[trigger] state.time(round as int, x) < u32::MAX
                        implies marks_of(*improved_stops)[x] by {
                        if x != stop_idx {
                            assert(state.time(round as int, x) == a.time(round as int, x));
                            assert(before[x]);
                        }
                    }
                }
            } else {
                assert(state.time(round as int, stop_idx as int) != u32::MAX && state.time(round as int, stop_idx as int) >= new_time);
                assert forall|j: int| 0 <= j < m + 1 implies state.time(round as int, (#[trigger] improvements@[j]).0 as int) != u32::MAX
                    && state.time(round as int, improvements@[j].0 as int) >= improvements@[j].1 by {
                    if j == m {
                        assert(improvements@[j].0 == stop_idx);
                    }
                }
            }
            m = m + 1;
        }
        proof {
            reveal(applied);
        }
    }

    /// Tables with only the destination reached, in round 0, at the target time.
    fn initial_state(&self, destination_idx: usize, target_arrival_time: Time) -> (st: RaptorState)
        requires
            self.network.wf(),
            self.max_rounds < usize::MAX,
            destination_idx < self.network.stops@.len(),
            self.network.stops@.len() <= usize::MAX / 8,
            self.network.routes@.len() <= usize::MAX / 8,
        ensures
            table_ok(self.network, st, self.max_rounds as nat, destination_idx as int, target_arrival_time),
            later_rows_empty(st, 0, self.max_rounds as nat, self.network.stops@.len()),
            forall|x: int| 0 <= x < self.network.stops@.len()
                ==> (#[trigger] marks_of(st.marked_stops)[x] <==> x == destination_idx),
    {
        let num_stops = self.network.stops.len();
        let num_routes = self.network.routes.len();
        let mut best_times: Vec<Vec<Time>> = Vec::new();
        let mut r: usize = 0;
        while r <= self.max_rounds
            invariant
                self.max_rounds < usize::MAX,
                r <= self.max_rounds + 1,
                best_times@.len() == r,
                forall|i: int, j: int| 0 <= i < r && 0 <= j < num_stops ==> #[trigger] best_times@[i]@[j] == u32::MAX,
                forall|i: int| 0 <= i < r ==> (#[trigger] best_times@[i])@.len() == num_stops,
            decreases self.max_rounds + 1 - r,
        {
            let mut row: Vec<Time> = Vec::new();
            let mut j: usize = 0;
            while j < num_stops
                invariant
                    j <= num_stops,
                    row@.len() == j,
                    forall|q: int| 0 <= q < j ==> #[trigger] row@[q] == u32::MAX,
                decreases num_stops - j,
            {
                row.push(u32::MAX);
                j = j + 1;
            }
            best_times.push(row);
            r = r + 1;
        }
        let mut parents: Vec<HashMap<usize, Parent>> = Vec::new();
        let mut k: usize = 0;
        while k < num_stops
            invariant
                k <= num_stops,
                parents@.len() == k,
                forall|i: int| 0 <= i < k ==> (#[trigger] parents@[i])@ == Map::<usize, Parent>::empty(),
            decreases num_stops - k,
        {
            parents.push(HashMap::new());
            k = k + 1;
        }
        let ghost before = best_times@;
        set_time(&mut best_times, 0, destination_idx, target_arrival_time);
        let mut marked_stops = Marks::cleared(num_stops);
        marked_stops.set(destination_idx, true);
        let st = RaptorState {
            best_times,
            parents,
            marked_stops,
            marked_routes: Marks::cleared(num_routes),
            ranks: Ghost(Map::empty()),
        };
        proof {
            assert forall|r: int, s: int| 0 <= r <= self.max_rounds && 0 <= s < num_stops && !(r == 0 && s == destination_idx)
                implies #[trigger] st.time(r, s) == u32::MAX by {
                if r != 0 {
                    assert(st.best_times@[r] == before[r]);
                }
                assert(before[r]@[s] == u32::MAX);
            }
            assert forall|r: int| 0 <= r <= self.max_rounds implies (#[trigger] st.best_times@[r])@.len() == num_stops by {
                if r != 0 {
                    assert(st.best_times@[r] == before[r]);
                }
            }
            assert forall|s: int, k: usize| 0 <= s < num_stops && #[trigger] st.parent_map(s).contains_key(k)
                implies 1 <= k <= self.max_rounds && st.time(k as int, s) < u32::MAX by {
                assert(st.parents@[s]@ == Map::<usize, Parent>::empty());
            }
        }
        st
    }

}









} // verus!
