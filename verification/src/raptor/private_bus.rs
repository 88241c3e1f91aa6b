use vstd::prelude::*;
use crate::data::structures::{stop_ids, stop_named, walk_count, Journey, JourneyLeg, Network, StopId, Time};
use crate::raptor::backward::{
    found_journey, hops_chain, hops_departure, hops_duration, journey_exists, leg_in_network, lemma_hops_departure_bound,
    sat_sub, search_start, uses_walk_marker, BackwardRaptor,
};
use crate::text::{decimal, push_decimal};

verus! {

/// The message of a failed segment search between two stops.
pub open spec fn no_route_message(from: StopId, to: StopId) -> Seq<char> {
    "No route found from stop "@ + decimal(from as nat) + " to "@ + decimal(to as nat)
}

/// The message when the destination name matches no stop.
pub open spec fn unknown_destination_message(name: Seq<char>) -> Seq<char> {
    "Destination '"@ + name + "' not found."@
}

/// The first stop is known to the network, and a journey of at most `rides` hops (each
/// an optional walk, then a ride) leads from it to the second stop and takes no longer
/// than `delay` in all.
pub open spec fn segment_within(net: Network, from: StopId, to: StopId, delay: Time, rides: nat) -> bool {
    &&& net.stop_index_of(from) is Some
    &&& exists|hops: Seq<(int, int, int, int)>| #[trigger] hops_chain(net, hops, from, to)
        && hops.len() <= rides && hops_duration(net, hops) <= delay
}

/// A journey that takes no longer than the delay leaves no earlier than the target less
/// the delay, so it is a journey the router looks for.
proof fn lemma_segment_found(net: Network, from: StopId, to: StopId, delay: Time, rides: nat, target: Time)
    requires
        segment_within(net, from, to, delay, rides),
    ensures
        journey_exists(net, to, target, sat_sub(target, delay as int), rides, search_start(net, Some(from))),
{
    let hops = choose|hops: Seq<(int, int, int, int)>| #[trigger] hops_chain(net, hops, from, to)
        && hops.len() <= rides && hops_duration(net, hops) <= delay;
    lemma_hops_departure_bound(net, hops, target);
    assert(hops_departure(net, hops, target) >= sat_sub(target, delay as int));
    assert(hops_chain(net, hops, crate::raptor::backward::hop_start(net, hops[0]), to));
}

/// How many of the legs are walks.
fn count_walks(legs: &Vec<JourneyLeg>) -> (c: usize)
    ensures
        c == walk_count(legs@),
{
    let mut c: usize = 0;
    let mut i: usize = 0;
    while i < legs.len()
        invariant
            i <= legs@.len(),
            c == walk_count(legs@.take(i as int)),
            c <= i,
        decreases legs@.len() - i,
    {
        proof {
            assert(legs@.take(i + 1).drop_last() =~= legs@.take(i as int));
            assert(legs@.take(i + 1).last() == legs@[i as int]);
        }
        match legs[i] {
            JourneyLeg::Walk { .. } => {
                c = c + 1;
            },
            JourneyLeg::Bus { .. } => {},
        }
        i = i + 1;
    }
    proof {
        assert(legs@.take(legs@.len() as int) =~= legs@);
    }
    c
}

/// The legs of the segments, one segment after the other.
pub open spec fn legs_of(segs: Seq<Journey>) -> Seq<JourneyLeg>
    decreases segs.len(),
{
    if segs.len() == 0 {
        Seq::empty()
    } else {
        legs_of(segs.drop_last()) + segs.last().legs@
    }
}

/// Segment `i` is a journey the router finds from `visits[i]` to `visits[i + 1]`,
/// arriving by `arrival` for the last segment and by the departure of the next
/// segment for the others.
pub open spec fn planned_segments(net: Network, segs: Seq<Journey>, visits: Seq<StopId>, arrival: Time) -> bool {
    &&& segs.len() + 1 == visits.len()
    &&& forall|i: int| 0 <= i < segs.len() ==> found_journey(
        net,
        #[trigger] segs[i],
        visits[i + 1],
        if i + 1 == segs.len() { arrival } else { segs[i + 1].departure_time },
        search_start(net, Some(visits[i])),
    )
}

/// Segment `k` of the search, which runs from the last stop back to the first, is a
/// journey the router finds to the `k`-th stop from the end, from the stop before it,
/// arriving by `arrival` for the first segment found and by the departure of the
/// segment found before it for the others.
#[verifier::opaque]
spec fn found_backward(net: Network, segs: Seq<Journey>, all: Seq<StopId>, arrival: Time) -> bool {
    forall|k: int| 0 <= k < segs.len() ==> found_journey(
        net,
        #[trigger] segs[k],
        all[all.len() - 1 - k],
        if k == 0 { arrival } else { segs[k - 1].departure_time },
        search_start(net, Some(all[all.len() - 2 - k])),
    )
}

/// One more segment found on the way back extends the search.
proof fn lemma_found_backward_push(net: Network, segs: Seq<Journey>, seg: Journey, all: Seq<StopId>, arrival: Time)
    requires
        found_backward(net, segs, all, arrival),
        found_journey(
            net,
            seg,
            all[all.len() - 1 - segs.len()],
            if segs.len() == 0 { arrival } else { segs.last().departure_time },
            search_start(net, Some(all[all.len() - 2 - segs.len()])),
        ),
    ensures
        found_backward(net, segs.push(seg), all, arrival),
{
    reveal(found_backward);
    let ns = segs.push(seg);
    assert forall|k: int| 0 <= k < ns.len() implies found_journey(
        net,
        #[trigger] ns[k],
        all[all.len() - 1 - k],
        if k == 0 { arrival } else { ns[k - 1].departure_time },
        search_start(net, Some(all[all.len() - 2 - k])),
    ) by {
        if k > 0 {
            assert(ns[k - 1] == segs[k - 1]);
        }
        if k < segs.len() {
            assert(ns[k] == segs[k]);
        }
    }
}

/// Read in travel order, the segments found on the way back are the planned segments.
proof fn lemma_found_backward_planned(net: Network, segs: Seq<Journey>, ordered: Seq<Journey>, all: Seq<StopId>, arrival: Time)
    requires
        found_backward(net, segs, all, arrival),
        segs.len() + 1 == all.len(),
        ordered.len() == segs.len(),
        forall|x: int| 0 <= x < segs.len() ==> #[trigger] ordered[x] == segs[segs.len() - 1 - x],
    ensures
        planned_segments(net, ordered, all, arrival),
{
    reveal(found_backward);
    let count = segs.len();
    assert forall|x: int| 0 <= x < ordered.len() implies found_journey(
        net,
        #[trigger] ordered[x],
        all[x + 1],
        if x + 1 == ordered.len() { arrival } else { ordered[x + 1].departure_time },
        search_start(net, Some(all[x])),
    ) by {
        let k = count - 1 - x;
        assert(ordered[x] == segs[k]);
        assert(found_journey(net, segs[k], all[all.len() - 1 - k],
            if k == 0 { arrival } else { segs[k - 1].departure_time },
            search_start(net, Some(all[all.len() - 2 - k]))));
        if x + 1 < ordered.len() {
            assert(ordered[x + 1] == segs[k - 1]);
        }
    }
}

/// The router, asked for a journey from `from` to `to` arriving by `target`, may come
/// back with none: some route uses the walk marker, the target is the largest time, or
/// no journey of at most `rides` hops from `from` leaves within `delay` of the target.
pub open spec fn segment_may_fail(net: Network, from: StopId, to: StopId, target: Time, delay: Time, rides: nat) -> bool {
    ||| uses_walk_marker(net)
    ||| target == u32::MAX
    ||| !journey_exists(net, to, target, sat_sub(target, delay as int), rides, search_start(net, Some(from)))
}

/// The planner stopped at segment `i` of `visits` (from `visits[i]` to `visits[i + 1]`):
/// every later segment was found (they are `segs`, in travel order), and the router
/// could come back with none for segment `i`, arriving by the departure of the first
/// of them, or by `arrival` when segment `i` is the last.
pub open spec fn stopped_at(router: BackwardRaptor, visits: Seq<StopId>, i: int, segs: Seq<Journey>, arrival: Time) -> bool {
    &&& 0 <= i < visits.len() - 1
    &&& planned_segments(router.net(), segs, visits.subrange(i + 1, visits.len() as int), arrival)
    &&& segment_may_fail(router.net(), visits[i], visits[i + 1],
        if segs.len() == 0 { arrival } else { segs[0].departure_time },
        router.departure_delay(), router.round_limit() as nat)
}

/// The search on the way back, read against the stops from `start` on.
proof fn lemma_found_backward_suffix(net: Network, segs: Seq<Journey>, all: Seq<StopId>, start: int, arrival: Time)
    requires
        found_backward(net, segs, all, arrival),
        0 <= start,
        segs.len() + 1 + start == all.len(),
    ensures
        found_backward(net, segs, all.subrange(start, all.len() as int), arrival),
{
    reveal(found_backward);
    let sub = all.subrange(start, all.len() as int);
    assert forall|k: int| 0 <= k < segs.len() implies found_journey(
        net,
        #[trigger] segs[k],
        sub[sub.len() - 1 - k],
        if k == 0 { arrival } else { segs[k - 1].departure_time },
        search_start(net, Some(sub[sub.len() - 2 - k])),
    ) by {
        assert(sub[sub.len() - 1 - k] == all[all.len() - 1 - k]);
        assert(sub[sub.len() - 2 - k] == all[all.len() - 2 - k]);
    }
}

/// A planner for a single private bus journey that visits stops in a given order.
#[derive(Debug)]
pub struct PrivateBusPlanner {
    raptor: BackwardRaptor,
}

impl PrivateBusPlanner {
    /// The router the planner searches with.
    pub closed spec fn router(&self) -> BackwardRaptor {
        self.raptor
    }

    pub fn new(network: Network, max_rounds: usize) -> (p: Self)
        ensures
            p.router().net() == network,
            p.router().round_limit() == max_rounds,
    {
        PrivateBusPlanner { raptor: BackwardRaptor::new(network, max_rounds) }
    }

    /// A journey that visits `stops` in order and then the stop named
    /// `destination_name`, arriving there by `arrival_time`: each segment is searched
    /// backward from the next stop, arriving by the departure of the segment after it.
    #[verifier::rlimit(100)]
    #[verifier::spinoff_prover]
    pub fn find_journey(&self, stops: Vec<StopId>, destination_name: &str, arrival_time: Time) -> (r: Result<Journey, String>)
        requires
            self.router().searchable(),
        ensures
            stops@.len() == 0 ==> (r matches Err(e) && e@ == "At least one stop must be provided."@),
            stops@.len() > 0 && stop_named(self.router().net().stops@, destination_name@) is None
                ==> (r matches Err(e) && e@ == unknown_destination_message(destination_name@)),
            r matches Err(e) ==> {
                ||| stops@.len() == 0
                ||| stop_named(self.router().net().stops@, destination_name@) is None
                ||| exists|i: int, segs: Seq<Journey>| #[trigger] stopped_at(self.router(),
                    stops@.push(stop_named(self.router().net().stops@, destination_name@)->0), i, segs, arrival_time)
                    && e@ == no_route_message(
                        stops@.push(stop_named(self.router().net().stops@, destination_name@)->0)[i],
                        stops@.push(stop_named(self.router().net().stops@, destination_name@)->0)[i + 1])
            },
            r matches Ok(j) ==> {
                &&& stops@.len() > 0
                &&& j.arrival_time == arrival_time
                &&& j.departure_time <= arrival_time
                &&& j.total_time == arrival_time - j.departure_time
                &&& j.num_transfers == walk_count(j.legs@)
                &&& forall|k: int| 0 <= k < j.legs@.len() ==> leg_in_network(self.router().net(), #[trigger] j.legs@[k])
                &&& exists|segs: Seq<Journey>| planned_segments(self.router().net(), segs,
                    stops@.push(stop_named(self.router().net().stops@, destination_name@)->0), arrival_time)
                    && j.legs@ == legs_of(segs) && segs.len() > 0 && j.departure_time == segs[0].departure_time
            },
            stops@.len() > 0 && stop_named(self.router().net().stops@, destination_name@) is Some
                && !uses_walk_marker(self.router().net()) && arrival_time < u32::MAX
                && (forall|i: int| 0 <= i < stops@.len() ==> #[trigger] segment_within(self.router().net(),
                    stops@.push(stop_named(self.router().net().stops@, destination_name@)->0)[i],
                    stops@.push(stop_named(self.router().net().stops@, destination_name@)->0)[i + 1],
                    self.router().departure_delay(), self.router().round_limit() as nat))
                ==> r is Ok,
    {
        if stops.len() == 0 {
            return Err(String::from_str("At least one stop must be provided."));
        }
        let ghost net = self.raptor.net();
        let destination_id = match self.raptor.network_ref().get_stop_by_name(destination_name) {
            Some(id) => id,
            None => {
                let mut msg = String::from_str("Destination '");
                msg.append(destination_name);
                msg.append("' not found.");
                return Err(msg);
            },
        };
        let mut all_stops: Vec<StopId> = stops.clone();
        assert(all_stops@ == stops@);
        all_stops.push(destination_id);

        let mut current_arrival_time = arrival_time;
        proof {
            reveal(found_backward);
        }
        let mut journey_segments: Vec<Journey> = Vec::new();
        let mut i: usize = all_stops.len() - 1;
        while i > 0
            invariant
                self.router().searchable(),
                net == self.raptor.net(),
                all_stops@ == stops@.push(destination_id),
                stop_named(net.stops@, destination_name@) == Some(destination_id),
                net == self.router().net(),
                stops@.len() > 0,
                i < all_stops@.len(),
                forall|k: int| 0 <= k < journey_segments@.len() ==>
                    forall|q: int| 0 <= q < (#[trigger] journey_segments@[k]).legs@.len()
                        ==> leg_in_network(net, #[trigger] journey_segments@[k].legs@[q]),
                journey_segments@.len() + i + 1 == all_stops@.len(),
                found_backward(net, journey_segments@, all_stops@, arrival_time),
                current_arrival_time == if journey_segments@.len() == 0 { arrival_time }
                    else { journey_segments@.last().departure_time },
                current_arrival_time <= arrival_time,
            decreases i,
        {
            i = i - 1;
            let from_stop = all_stops[i];
            let to_stop = all_stops[i + 1];
            match self.raptor.find_route(Some(from_stop), to_stop, current_arrival_time) {
                Some(segment_journey) => {
                    current_arrival_time = segment_journey.departure_time;
                    let ghost before = journey_segments@;
                    journey_segments.push(segment_journey);
                    proof {
                        lemma_found_backward_push(net, before, segment_journey, all_stops@, arrival_time);
                    }
                },
                None => {
                    proof {
                        let visits = stops@.push(stop_named(self.router().net().stops@, destination_name@)->0);
                        assert(visits == all_stops@);
                        if !uses_walk_marker(net) && arrival_time < u32::MAX
                            && (forall|j: int| 0 <= j < stops@.len() ==> #[trigger] segment_within(net, visits[j], visits[j + 1],
                                self.router().departure_delay(), self.router().round_limit() as nat)) {
                            assert(segment_within(net, visits[i as int], visits[i + 1], self.router().departure_delay(),
                                self.router().round_limit() as nat));
                            lemma_segment_found(net, from_stop, to_stop, self.router().departure_delay(),
                                self.router().round_limit() as nat, current_arrival_time);
                            assert(false);
                        }
                    }
                    let mut msg = String::from_str("No route found from stop ");
                    push_decimal(&mut msg, from_stop as u64);
                    msg.append(" to ");
                    push_decimal(&mut msg, to_stop as u64);
                    assert(msg@ =~= no_route_message(all_stops@[i as int], all_stops@[i + 1]));
                    assert(msg@ == no_route_message(
                        stops@.push(stop_named(self.router().net().stops@, destination_name@)->0)[i as int],
                        stops@.push(stop_named(self.router().net().stops@, destination_name@)->0)[i + 1]));
                    proof {
                        let visits = all_stops@;
                        let segs = journey_segments@;
                        let count = segs.len();
                        let ordered = Seq::new(count, |x: int| segs[count - 1 - x]);
                        let sub = visits.subrange(i + 1, visits.len() as int);
                        lemma_found_backward_suffix(net, segs, visits, i + 1, arrival_time);
                        lemma_found_backward_planned(net, segs, ordered, sub, arrival_time);
                        if count > 0 {
                            assert(ordered[0] == segs[count - 1]);
                        }
                        assert(stopped_at(self.router(), visits, i as int, ordered, arrival_time));
                    }
                    return Err(msg);
                },
            }
        }

        let ghost count = journey_segments@.len();
        let ghost ordered = Seq::new(count, |x: int| journey_segments@[count - 1 - x]);
        proof {
            assert(ordered.take(0) =~= Seq::<Journey>::empty());
        }
        let mut final_journey = Journey::new();
        let mut k: usize = journey_segments.len();
        while k > 0
            invariant
                k <= journey_segments@.len(),
                forall|s: int| 0 <= s < journey_segments@.len() ==>
                    forall|q: int| 0 <= q < (#[trigger] journey_segments@[s]).legs@.len()
                        ==> leg_in_network(net, #[trigger] journey_segments@[s].legs@[q]),
                forall|q: int| 0 <= q < final_journey.legs@.len() ==> leg_in_network(net, #[trigger] final_journey.legs@[q]),
                final_journey.total_time == 0,
                final_journey.num_transfers == 0,
                final_journey.departure_time == 0,
                final_journey.arrival_time == 0,
                count == journey_segments@.len(),
                ordered.len() == count,
                forall|x: int| 0 <= x < count ==> #[trigger] ordered[x] == journey_segments@[count - 1 - x],
                final_journey.legs@ == legs_of(ordered.take(count - k)),
            decreases k,
        {
            k = k - 1;
            let mut segment_legs = journey_segments[k].legs.clone();
            assert(segment_legs@ =~= journey_segments@[k as int].legs@);
            let ghost before = final_journey.legs@;
            final_journey.legs.append(&mut segment_legs);
            proof {
                assert(ordered.take(count - k).drop_last() =~= ordered.take(count - k - 1));
                assert(ordered.take(count - k).last() == journey_segments@[k as int]);
            }
            assert forall|q: int| 0 <= q < final_journey.legs@.len() implies leg_in_network(net, #[trigger] final_journey.legs@[q]) by {
                if q >= before.len() {
                    assert(final_journey.legs@[q] == journey_segments@[k as int].legs@[q - before.len()]);
                }
            }
        }

        let walks = count_walks(&final_journey.legs);
        final_journey.num_transfers = walks;
        final_journey.finalize(current_arrival_time, arrival_time);
        proof {
            assert(count >= 1);
            assert(ordered[0] == journey_segments@[count - 1]);
            assert(ordered.take(count as int) =~= ordered);
            let visits = stops@.push(stop_named(self.router().net().stops@, destination_name@)->0);
            assert(visits == all_stops@);
            lemma_found_backward_planned(net, journey_segments@, ordered, all_stops@, arrival_time);
        }
        Ok(final_journey)
    }
}

} // verus!
