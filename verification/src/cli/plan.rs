use vstd::prelude::*;
use crate::cli::config::{parse_destination, DestinationSpec};
use crate::data::structures::{leg_from, stop_named, Journey, Network, StopId, Time};
use crate::raptor::backward::{
    found_journey, journey_exists, no_later_journey, routes_usable, sat_sub, start_no_later, uses_walk_marker,
    BackwardRaptor,
};
use crate::raptor::journey::{bus_count, parse_time, time_of_text};
use crate::text::u32_outcome;

verus! {

/// The stop that a destination given on the command line names: the identifier it reads
/// as, or else the stop with that name.
pub open spec fn public_destination(net: Network, text: Seq<char>) -> Result<StopId, Seq<char>> {
    match u32_outcome(text) {
        Ok(id) => Ok(id),
        Err(_) => match stop_named(net.stops@, text) {
            Some(id) => Ok(id),
            None => Err("Stop '"@ + text + "' not found"@),
        },
    }
}

/// How many rides a public search allows: one more than the transfers, which are 3 when
/// not given.
pub open spec fn public_rounds(max_transfers: Option<usize>) -> int {
    match max_transfers {
        Some(m) => m + 1,
        None => 4,
    }
}

/// How long before the arrival a public search may leave, in seconds: the minutes
/// given, or an hour.
pub open spec fn public_delay(max_delay_min: Option<u32>) -> int {
    match max_delay_min {
        Some(m) => m * 60,
        None => 3600,
    }
}

/// Without a departure delay given, the public search allows what sixty minutes given
/// allow, and a delay of `m` minutes allows `m * 60` seconds: leaving out the setting is
/// the same as asking for an hour.
pub proof fn law_default_delay_is_an_hour(m: u32)
    ensures
        public_delay(None) == public_delay(Some(60u32)),
        public_delay(Some(m)) == 60 * m,
{
}

/// Without a transfer limit given, the public search allows what three transfers given
/// allow, and a limit of `t` transfers allows `t + 1` rides.
pub proof fn law_default_transfers_are_three(t: usize)
    ensures
        public_rounds(None) == public_rounds(Some(3usize)),
        public_rounds(Some(t)) == t + 1,
{
}

/// What a search with no start stop answers: a journey that the router may return, with
/// at most `rides` rides, leaving within `delay`, that no journey from its first stop
/// beats and that starts where the latest departure is earliest; and a journey whenever
/// one exists.
pub open spec fn public_answer(net: Network, dest: StopId, target: Time, rides: nat, delay: Time, res: Option<Journey>) -> bool {
    &&& (res matches Some(j) ==> {
        &&& found_journey(net, j, dest, target, None)
        &&& bus_count(j.legs@) <= rides
        &&& j.departure_time >= sat_sub(target, delay as int)
        &&& (target < u32::MAX ==> no_later_journey(net, j.departure_time, dest, target,
            sat_sub(target, delay as int), rides, leg_from(j.legs@[0])))
        &&& (target < u32::MAX && !uses_walk_marker(net) ==> start_no_later(net, j.departure_time, dest, target,
            sat_sub(target, delay as int), rides))
    })
    &&& (target < u32::MAX && !uses_walk_marker(net)
        && journey_exists(net, dest, target, sat_sub(target, delay as int), rides, None) ==> res is Some)
    &&& (net.stop_index_of(dest) is None ==> res is None)
}

/// The public search of the command line: the destination by identifier or by name,
/// the time to arrive by as `HH:MM`, at most `max_transfers` transfers (3 when not
/// given), a departure at most `max_delay_min` minutes before the arrival (60 when not
/// given), and no start stop.
pub fn plan_public(
    network: Network,
    destination: &str,
    arrive_by: &str,
    max_transfers: Option<usize>,
    max_delay_min: Option<u32>,
) -> (r: Result<Option<Journey>, String>)
    requires
        network.wf(),
        routes_usable(network),
        network.stops@.len() <= usize::MAX / 8,
        network.routes@.len() <= usize::MAX / 8,
        public_rounds(max_transfers) < usize::MAX,
        public_delay(max_delay_min) <= u32::MAX,
    ensures
        match public_destination(network, destination@) {
            Err(m) => r matches Err(e) && e@ == m,
            Ok(dest) => match time_of_text(arrive_by@) {
                Err(m) => r matches Err(e) && e@ == m,
                Ok(t) => r matches Ok(res) && public_answer(network, dest, t, public_rounds(max_transfers) as nat,
                    public_delay(max_delay_min) as Time, res),
            },
        },
{
    let destination_id = match parse_destination(destination) {
        DestinationSpec::Id(id) => id,
        DestinationSpec::Name(name) => {
            match network.get_stop_by_name(name.as_str()) {
                Some(id) => id,
                None => {
                    let mut msg = String::from_str("Stop '");
                    msg.append(name.as_str());
                    msg.append("' not found");
                    return Err(msg);
                },
            }
        },
    };
    let target = match parse_time(arrive_by) {
        Ok(t) => t,
        Err(e) => {
            return Err(e);
        },
    };
    let max_rounds = match max_transfers {
        Some(m) => m + 1,
        None => 4,
    };
    let mut raptor = BackwardRaptor::new(network, max_rounds);
    match max_delay_min {
        Some(m) => {
            raptor = raptor.with_max_departure_delay(m * 60);
        },
        None => {},
    }
    Ok(raptor.find_route(None, destination_id, target))
}

} // verus!
