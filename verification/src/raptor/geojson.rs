use vstd::prelude::*;
use crate::data::structures::{leg_from, leg_to, Journey, JourneyLeg, Network, StopId};

verus! {

/// The role of a stop on a map of a journey.
#[derive(Debug, Clone, Copy, PartialEq, Eq)]
pub enum StopMarker {
    Start,
    Intermediate,
    Destination,
}

/// The stops that the legs reach, those the network knows, as intermediate markers.
pub open spec fn leg_end_markers(net: Network, legs: Seq<JourneyLeg>) -> Seq<(usize, StopMarker)>
    decreases legs.len(),
{
    if legs.len() == 0 {
        Seq::empty()
    } else {
        leg_end_markers(net, legs.drop_last()) + match net.stop_index_of(leg_to(legs.last())) {
            Some(i) => seq![(i, StopMarker::Intermediate)],
            None => Seq::empty(),
        }
    }
}

/// The markers of a journey's map, in order: the stop where the first leg starts,
/// then the stop where each leg ends, leaving out stops the network does not know;
/// the last marker is the destination.
pub open spec fn journey_markers(net: Network, legs: Seq<JourneyLeg>) -> Seq<(usize, StopMarker)> {
    if legs.len() == 0 {
        Seq::empty()
    } else {
        let start = match net.stop_index_of(leg_from(legs[0])) {
            Some(i) => seq![(i, StopMarker::Start)],
            None => Seq::empty(),
        };
        let all = start + leg_end_markers(net, legs);
        if all.len() == 0 {
            all
        } else {
            all.update(all.len() - 1, (all.last().0, StopMarker::Destination))
        }
    }
}

/// Every marker for the stops the legs reach is an intermediate stop.
proof fn lemma_leg_end_markers_intermediate(net: Network, legs: Seq<JourneyLeg>)
    ensures
        forall|k: int| 0 <= k < leg_end_markers(net, legs).len()
            ==> (#[trigger] leg_end_markers(net, legs)[k]).1 == StopMarker::Intermediate,
    decreases legs.len(),
{
    if legs.len() > 0 {
        lemma_leg_end_markers_intermediate(net, legs.drop_last());
    }
}

/// The map of a journey with legs begins where its first leg starts, whether that leg is
/// a ride or a walk: where the network knows that stop, the first marker is that stop, as
/// the start (or as the destination when it is the only marker). The last marker is the
/// destination, and is the stop the last leg reaches where the network knows it; every
/// marker in between is an intermediate stop.
pub proof fn law_markers_start_and_end(net: Network, legs: Seq<JourneyLeg>)
    requires
        legs.len() > 0,
    ensures
        net.stop_index_of(leg_from(legs[0])) matches Some(i) ==> {
            &&& journey_markers(net, legs).len() >= 1
            &&& journey_markers(net, legs)[0].0 == i
            &&& journey_markers(net, legs)[0].1 == if journey_markers(net, legs).len() == 1 {
                StopMarker::Destination
            } else {
                StopMarker::Start
            }
        },
        journey_markers(net, legs).len() > 0 ==> journey_markers(net, legs).last().1 == StopMarker::Destination,
        net.stop_index_of(leg_to(legs.last())) matches Some(e) ==> journey_markers(net, legs).len() > 0
            && journey_markers(net, legs).last().0 == e,
        forall|k: int| 0 < k < journey_markers(net, legs).len() - 1
            ==> (#[trigger] journey_markers(net, legs)[k]).1 == StopMarker::Intermediate,
{
    lemma_leg_end_markers_intermediate(net, legs);
    let start = match net.stop_index_of(leg_from(legs[0])) {
        Some(i) => seq![(i, StopMarker::Start)],
        None => Seq::empty(),
    };
    let ends = leg_end_markers(net, legs);
    let all = start + ends;
    if let Some(e) = net.stop_index_of(leg_to(legs.last())) {
        assert(ends.len() > 0 && ends.last() == (e, StopMarker::Intermediate));
        assert(all.last() == ends.last());
    }
    assert forall|k: int| 0 < k < all.len() - 1 implies all[k].1 == StopMarker::Intermediate by {
        if start.len() == 1 {
            assert(all[k] == ends[k - 1]);
        } else {
            assert(all[k] == ends[k]);
        }
    }
}

/// The stop indices to draw for a journey, with their roles, in travel order.
pub fn journey_markers_of(journey: &Journey, network: &Network) -> (r: Vec<(usize, StopMarker)>)
    ensures
        r@ == journey_markers(*network, journey.legs@),
{
    let mut out: Vec<(usize, StopMarker)> = Vec::new();
    if journey.legs.len() == 0 {
        return out;
    }
    let first_from: StopId = match journey.legs[0] {
        JourneyLeg::Bus { from_stop, .. } => from_stop,
        JourneyLeg::Walk { from_stop, .. } => from_stop,
    };
    match network.get_stop_index(first_from) {
        Some(i) => out.push((i, StopMarker::Start)),
        None => {},
    }
    let ghost start = out@;
    let mut k: usize = 0;
    while k < journey.legs.len()
        invariant
            k <= journey.legs@.len(),
            out@ == start + leg_end_markers(*network, journey.legs@.take(k as int)),
        decreases journey.legs@.len() - k,
    {
        let to: StopId = match journey.legs[k] {
            JourneyLeg::Bus { to_stop, .. } => to_stop,
            JourneyLeg::Walk { to_stop, .. } => to_stop,
        };
        proof {
            assert(journey.legs@.take(k + 1).drop_last() =~= journey.legs@.take(k as int));
            assert(journey.legs@.take(k + 1).last() == journey.legs@[k as int]);
        }
        let ghost before = out@;
        match network.get_stop_index(to) {
            Some(i) => {
                out.push((i, StopMarker::Intermediate));
                assert(out@ =~= start + leg_end_markers(*network, journey.legs@.take(k + 1)));
            },
            None => {
                assert(out@ =~= start + leg_end_markers(*network, journey.legs@.take(k + 1)));
            },
        }
        k = k + 1;
    }
    assert(journey.legs@.take(journey.legs@.len() as int) =~= journey.legs@);
    let len = out.len();
    if len > 0 {
        let last = out[len - 1].0;
        out.set(len - 1, (last, StopMarker::Destination));
    }
    out
}

} // verus!
