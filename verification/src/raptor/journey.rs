use vstd::prelude::*;
use crate::data::structures::{
    leg_from, leg_to, walk_count, Journey, JourneyLeg, Network, StopId, Time,
};
use crate::text::{
    chars_of, clock, decimal, digit_char, digit_value, is_digit, parse_u32_range, push_clock, push_decimal,
    scan_digits, two_digits, u32_outcome, IntParseFailure,
};

verus! {

/// Consecutive legs meet: each leg ends where the next one starts.
pub open spec fn legs_connected(legs: Seq<JourneyLeg>) -> bool {
    forall|i: int| 0 <= i < legs.len() - 1 ==> #[trigger] leg_to(legs[i]) == leg_from(legs[i + 1])
}

/// The stops a sequence of legs passes, in order: the first leg's start, then
/// the end of every leg.
pub open spec fn stops_visited(legs: Seq<JourneyLeg>) -> Seq<StopId> {
    if legs.len() == 0 {
        Seq::empty()
    } else {
        seq![leg_from(legs[0])] + legs.map_values(|l: JourneyLeg| leg_to(l))
    }
}

/// Every bus leg departs no later than it arrives.
pub open spec fn bus_legs_ordered(legs: Seq<JourneyLeg>) -> bool {
    forall|i: int| 0 <= i < legs.len() ==> match #[trigger] legs[i] {
        JourneyLeg::Bus { departure_time, arrival_time, .. } => departure_time <= arrival_time,
        JourneyLeg::Walk { .. } => true,
    }
}

/// Time spent on buses: the sum over bus legs of arrival minus departure.
pub open spec fn bus_time_of(legs: Seq<JourneyLeg>) -> int
    decreases legs.len(),
{
    if legs.len() == 0 {
        0
    } else {
        bus_time_of(legs.drop_last()) + match legs.last() {
            JourneyLeg::Bus { departure_time, arrival_time, .. } => arrival_time - departure_time,
            JourneyLeg::Walk { .. } => 0,
        }
    }
}

/// Time spent walking: the sum of the walk legs' durations.
pub open spec fn walk_time_of(legs: Seq<JourneyLeg>) -> int
    decreases legs.len(),
{
    if legs.len() == 0 {
        0
    } else {
        walk_time_of(legs.drop_last()) + match legs.last() {
            JourneyLeg::Bus { .. } => 0,
            JourneyLeg::Walk { duration, .. } => duration as int,
        }
    }
}

/// How many of the legs are bus rides.
pub open spec fn bus_count(legs: Seq<JourneyLeg>) -> nat
    decreases legs.len(),
{
    if legs.len() == 0 {
        0
    } else {
        bus_count(legs.drop_last()) + if legs.last() is Bus { 1nat } else { 0nat }
    }
}

/// With ordered bus legs, the times of a prefix never exceed those of the whole,
/// and the counts of a prefix never exceed its length.
proof fn lemma_summary_prefix(legs: Seq<JourneyLeg>, i: int)
    requires
        0 <= i <= legs.len(),
        bus_legs_ordered(legs),
    ensures
        0 <= bus_time_of(legs.take(i)) <= bus_time_of(legs),
        0 <= walk_time_of(legs.take(i)) <= walk_time_of(legs),
        bus_count(legs.take(i)) + walk_count(legs.take(i)) == i,
    decreases legs.len() - i,
{
    if i == legs.len() {
        assert(legs.take(i) =~= legs);
        lemma_summary_nonneg(legs);
    } else {
        lemma_summary_prefix(legs, i + 1);
        assert(legs.take(i + 1).drop_last() =~= legs.take(i));
        assert(legs.take(i + 1).last() == legs[i]);
        lemma_summary_nonneg(legs.take(i));
    }
}

proof fn lemma_summary_nonneg(legs: Seq<JourneyLeg>)
    requires
        bus_legs_ordered(legs),
    ensures
        bus_time_of(legs) >= 0,
        walk_time_of(legs) >= 0,
        bus_count(legs) + walk_count(legs) == legs.len(),
    decreases legs.len(),
{
    if legs.len() > 0 {
        assert(bus_legs_ordered(legs.drop_last())) by {
            assert forall|i: int| 0 <= i < legs.drop_last().len() implies match #[trigger] legs.drop_last()[i] {
                JourneyLeg::Bus { departure_time, arrival_time, .. } => departure_time <= arrival_time,
                JourneyLeg::Walk { .. } => true,
            } by {
                assert(legs.drop_last()[i] == legs[i]);
            }
        }
        lemma_summary_nonneg(legs.drop_last());
        assert(legs.last() == legs[legs.len() - 1]);
    }
}

/// The name of a stop as a journey description shows it.
pub open spec fn stop_label(net: Network, id: StopId) -> Seq<char> {
    match net.stop_index_of(id) {
        Some(i) => net.stops@[i as int].name@,
        None => "Unknown"@,
    }
}

/// The name of a route as a journey description shows it.
pub open spec fn route_label(net: Network, id: u32) -> Seq<char> {
    match net.route_index_of(id) {
        Some(i) => net.routes@[i as int].name@,
        None => "Unknown Route"@,
    }
}

/// `prefix` followed by the description of one leg, numbered `number`.
pub open spec fn with_leg(prefix: Seq<char>, net: Network, leg: JourneyLeg, number: nat) -> Seq<char> {
    match leg {
        JourneyLeg::Bus { route_id, from_stop, to_stop, departure_time, arrival_time } =>
            prefix + decimal(number) + ". Bus - "@ + route_label(net, route_id) + " from "@
                + stop_label(net, from_stop) + " to "@ + stop_label(net, to_stop) + "\n"@
                + "   Depart: "@ + clock(departure_time) + " -> Arrive: "@ + clock(arrival_time)
                + " ("@ + decimal(((arrival_time - departure_time) / 60) as nat) + " min)\n"@,
        JourneyLeg::Walk { from_stop, to_stop, duration } =>
            prefix + decimal(number) + ". Walk from "@ + stop_label(net, from_stop) + " to "@
                + stop_label(net, to_stop) + " ("@ + decimal((duration / 60) as nat) + " min)\n"@,
    }
}

/// `prefix` followed by the descriptions of the legs, numbered from 1.
pub open spec fn with_legs(prefix: Seq<char>, net: Network, legs: Seq<JourneyLeg>) -> Seq<char>
    decreases legs.len(),
{
    if legs.len() == 0 {
        prefix
    } else {
        with_leg(with_legs(prefix, net, legs.drop_last()), net, legs.last(), legs.len())
    }
}

/// The heading of a journey description: its times, duration and transfers.
pub open spec fn journey_heading(j: Journey) -> Seq<char> {
    "Journey from "@ + clock(j.departure_time) + " to "@ + clock(j.arrival_time) + "\n"@
        + "Total time: "@ + decimal((j.total_time / 60) as nat) + " minutes, Transfers: "@
        + decimal(j.num_transfers as nat) + "\n\n"@
}

/// The description of a journey that `format_journey` returns: the heading, then
/// one numbered entry per leg.
pub open spec fn journey_text(j: Journey, net: Network) -> Seq<char> {
    with_legs(journey_heading(j), net, j.legs@)
}

impl Journey {
    /// A readable description of the journey, one numbered entry per leg.
    pub fn format_journey(&self, network: &Network) -> (s: String)
        requires
            network.wf(),
            bus_legs_ordered(self.legs@),
        ensures
            s@ == journey_text(*self, *network),
    {
        let mut output = String::new();
        output.append("Journey from ");
        push_clock(&mut output, self.departure_time);
        output.append(" to ");
        push_clock(&mut output, self.arrival_time);
        output.append("\n");
        output.append("Total time: ");
        push_decimal(&mut output, (self.total_time / 60) as u64);
        output.append(" minutes, Transfers: ");
        push_decimal(&mut output, self.num_transfers as u64);
        output.append("\n\n");
        let ghost head = output@;
        assert(head =~= journey_heading(*self));

        let mut i: usize = 0;
        while i < self.legs.len()
            invariant
                network.wf(),
                bus_legs_ordered(self.legs@),
                i <= self.legs@.len(),
                output@ == with_legs(head, *network, self.legs@.take(i as int)),
            decreases self.legs@.len() - i,
        {
            let leg = self.legs[i];
            assert(self.legs@.take(i + 1).drop_last() =~= self.legs@.take(i as int));
            assert(self.legs@.take(i + 1).last() == leg);
            assert(leg is Bus ==> leg->departure_time <= leg->arrival_time);
            self.append_leg(&mut output, network, leg, i + 1);
            i = i + 1;
        }
        assert(self.legs@.take(self.legs@.len() as int) =~= self.legs@);
        output
    }

    fn append_leg(&self, output: &mut String, network: &Network, leg: JourneyLeg, number: usize)
        requires
            network.wf(),
            leg is Bus ==> leg->departure_time <= leg->arrival_time,
        ensures
            final(output)@ == with_leg(old(output)@, *network, leg, number as nat),
    {
        match leg {
            JourneyLeg::Bus { route_id, from_stop, to_stop, departure_time, arrival_time } => {
                push_decimal(output, number as u64);
                output.append(". Bus - ");
                self.append_route_name(output, network, route_id);
                output.append(" from ");
                self.append_stop_name(output, network, from_stop);
                output.append(" to ");
                self.append_stop_name(output, network, to_stop);
                output.append("\n");
                output.append("   Depart: ");
                push_clock(output, departure_time);
                output.append(" -> Arrive: ");
                push_clock(output, arrival_time);
                output.append(" (");
                push_decimal(output, ((arrival_time - departure_time) / 60) as u64);
                output.append(" min)\n");
            },
            JourneyLeg::Walk { from_stop, to_stop, duration } => {
                push_decimal(output, number as u64);
                output.append(". Walk from ");
                self.append_stop_name(output, network, from_stop);
                output.append(" to ");
                self.append_stop_name(output, network, to_stop);
                output.append(" (");
                push_decimal(output, (duration / 60) as u64);
                output.append(" min)\n");
            },
        }
    }

    fn append_stop_name(&self, out: &mut String, network: &Network, id: StopId)
        requires
            network.wf(),
        ensures
            final(out)@ == old(out)@ + stop_label(*network, id),
    {
        match network.get_stop(id) {
            Some(stop) => out.append(stop.name.as_str()),
            None => out.append("Unknown"),
        }
    }

    fn append_route_name(&self, out: &mut String, network: &Network, id: u32)
        requires
            network.wf(),
        ensures
            final(out)@ == old(out)@ + route_label(*network, id),
    {
        match network.get_route(id) {
            Some(route) => out.append(route.name.as_str()),
            None => out.append("Unknown Route"),
        }
    }

    /// A time of day as `HH:MM`.
    fn format_time(&self, seconds: Time) -> (s: String)
        ensures
            s@ == clock(seconds),
    {
        let mut out = String::new();
        push_clock(&mut out, seconds);
        out
    }

    /// The stop where the journey starts: that of its first leg.
    pub fn get_origin_stop(&self) -> (r: Option<StopId>)
        ensures
            r == if self.legs@.len() == 0 { None } else { Some(leg_from(self.legs@[0])) },
    {
        if self.legs.len() == 0 {
            return None;
        }
        match self.legs[0] {
            JourneyLeg::Bus { from_stop, .. } => Some(from_stop),
            JourneyLeg::Walk { from_stop, .. } => Some(from_stop),
        }
    }

    /// The stop where the journey ends: that of its last leg.
    pub fn get_destination_stop(&self) -> (r: Option<StopId>)
        ensures
            r == if self.legs@.len() == 0 { None } else { Some(leg_to(self.legs@.last())) },
    {
        if self.legs.len() == 0 {
            return None;
        }
        match self.legs[self.legs.len() - 1] {
            JourneyLeg::Bus { to_stop, .. } => Some(to_stop),
            JourneyLeg::Walk { to_stop, .. } => Some(to_stop),
        }
    }

    /// A journey is valid when it has legs and each leg starts where the previous one ended.
    pub fn is_valid(&self) -> (r: bool)
        ensures
            r == (self.legs@.len() > 0 && legs_connected(self.legs@)),
    {
        if self.legs.len() == 0 {
            return false;
        }
        let mut i: usize = 0;
        while i < self.legs.len() - 1
            invariant
                self.legs@.len() > 0,
                i < self.legs@.len(),
                forall|k: int| 0 <= k < i ==> #[trigger] leg_to(self.legs@[k]) == leg_from(self.legs@[k + 1]),
            decreases self.legs@.len() - i,
        {
            let end_of_first = match self.legs[i] {
                JourneyLeg::Bus { to_stop, .. } => to_stop,
                JourneyLeg::Walk { to_stop, .. } => to_stop,
            };
            let start_of_second = match self.legs[i + 1] {
                JourneyLeg::Bus { from_stop, .. } => from_stop,
                JourneyLeg::Walk { from_stop, .. } => from_stop,
            };
            if end_of_first != start_of_second {
                assert(leg_to(self.legs@[i as int]) != leg_from(self.legs@[i + 1]));
                return false;
            }
            i = i + 1;
        }
        true
    }

    /// The stops the journey passes, in order.
    pub fn get_stops_visited(&self) -> (r: Vec<StopId>)
        ensures
            r@ == stops_visited(self.legs@),
    {
        let mut stops: Vec<StopId> = Vec::new();
        let mut i: usize = 0;
        while i < self.legs.len()
            invariant
                i <= self.legs@.len(),
                i == 0 ==> stops@.len() == 0,
                i > 0 ==> stops@ == seq![leg_from(self.legs@[0])]
                    + self.legs@.take(i as int).map_values(|l: JourneyLeg| leg_to(l)),
            decreases self.legs@.len() - i,
        {
            let leg = self.legs[i];
            let (from_stop, to_stop) = match leg {
                JourneyLeg::Bus { from_stop, to_stop, .. } => (from_stop, to_stop),
                JourneyLeg::Walk { from_stop, to_stop, .. } => (from_stop, to_stop),
            };
            if stops.len() == 0 {
                stops.push(from_stop);
            }
            stops.push(to_stop);
            proof {
                assert(stops@ =~= seq![leg_from(self.legs@[0])]
                    + self.legs@.take(i + 1).map_values(|l: JourneyLeg| leg_to(l)));
            }
            i = i + 1;
        }
        proof {
            assert(self.legs@.take(self.legs@.len() as int) =~= self.legs@);
        }
        stops
    }

    /// Time on buses and on foot, leg counts, transfers and the journey's times.
    pub fn get_summary(&self) -> (s: JourneySummary)
        requires
            bus_legs_ordered(self.legs@),
            bus_time_of(self.legs@) <= u32::MAX,
            walk_time_of(self.legs@) <= u32::MAX,
        ensures
            s.total_time == self.total_time,
            s.bus_time == bus_time_of(self.legs@),
            s.walk_time == walk_time_of(self.legs@),
            s.bus_legs == bus_count(self.legs@),
            s.walk_legs == walk_count(self.legs@),
            s.total_transfers == self.num_transfers,
            s.departure_time == self.departure_time,
            s.arrival_time == self.arrival_time,
    {
        let mut bus_time: Time = 0;
        let mut walk_time: Time = 0;
        let mut bus_legs: usize = 0;
        let mut walk_legs: usize = 0;
        let mut i: usize = 0;
        while i < self.legs.len()
            invariant
                i <= self.legs@.len(),
                bus_legs_ordered(self.legs@),
                bus_time_of(self.legs@) <= u32::MAX,
                walk_time_of(self.legs@) <= u32::MAX,
                bus_time == bus_time_of(self.legs@.take(i as int)),
                walk_time == walk_time_of(self.legs@.take(i as int)),
                bus_legs == bus_count(self.legs@.take(i as int)),
                walk_legs == walk_count(self.legs@.take(i as int)),
            decreases self.legs@.len() - i,
        {
            proof {
                lemma_summary_prefix(self.legs@, i + 1);
                assert(self.legs@.take(i + 1).drop_last() =~= self.legs@.take(i as int));
                assert(self.legs@.take(i + 1).last() == self.legs@[i as int]);
            }
            match self.legs[i] {
                JourneyLeg::Bus { departure_time, arrival_time, .. } => {
                    bus_time = bus_time + (arrival_time - departure_time);
                    bus_legs = bus_legs + 1;
                },
                JourneyLeg::Walk { duration, .. } => {
                    walk_time = walk_time + duration;
                    walk_legs = walk_legs + 1;
                },
            }
            i = i + 1;
        }
        proof {
            assert(self.legs@.take(self.legs@.len() as int) =~= self.legs@);
        }
        JourneySummary {
            total_time: self.total_time,
            bus_time,
            walk_time,
            bus_legs,
            walk_legs,
            total_transfers: self.num_transfers,
            departure_time: self.departure_time,
            arrival_time: self.arrival_time,
        }
    }
}

/// Totals of a journey, by mode of travel.
#[derive(Debug, Clone)]
pub struct JourneySummary {
    pub total_time: Time,
    pub bus_time: Time,
    pub walk_time: Time,
    pub bus_legs: usize,
    pub walk_legs: usize,
    pub total_transfers: usize,
    pub departure_time: Time,
    pub arrival_time: Time,
}

/// The text that `format_summary` returns.
pub open spec fn summary_text(s: JourneySummary) -> Seq<char> {
    "Journey Summary:\n  Total Time: "@ + decimal((s.total_time / 60) as nat)
        + " minutes\n  Bus Time: "@ + decimal((s.bus_time / 60) as nat)
        + " minutes ("@ + decimal(s.bus_legs as nat)
        + " legs)\n  Walk Time: "@ + decimal((s.walk_time / 60) as nat)
        + " minutes ("@ + decimal(s.walk_legs as nat)
        + " legs)\n  Transfers: "@ + decimal(s.total_transfers as nat)
        + "\n  Departure: "@ + clock(s.departure_time)
        + "\n  Arrival: "@ + clock(s.arrival_time)
}

impl JourneySummary {
    pub fn format_summary(&self) -> (s: String)
        ensures
            s@ == summary_text(*self),
    {
        let mut out = String::new();
        out.append("Journey Summary:\n  Total Time: ");
        push_decimal(&mut out, (self.total_time / 60) as u64);
        out.append(" minutes\n  Bus Time: ");
        push_decimal(&mut out, (self.bus_time / 60) as u64);
        out.append(" minutes (");
        push_decimal(&mut out, self.bus_legs as u64);
        out.append(" legs)\n  Walk Time: ");
        push_decimal(&mut out, (self.walk_time / 60) as u64);
        out.append(" minutes (");
        push_decimal(&mut out, self.walk_legs as u64);
        out.append(" legs)\n  Transfers: ");
        push_decimal(&mut out, self.total_transfers as u64);
        out.append("\n  Departure: ");
        let dep = self.format_time(self.departure_time);
        out.append(dep.as_str());
        out.append("\n  Arrival: ");
        let arr = self.format_time(self.arrival_time);
        out.append(arr.as_str());
        assert(out@ =~= summary_text(*self));
        out
    }

    /// A time of day as `HH:MM`.
    fn format_time(&self, seconds: Time) -> (s: String)
        ensures
            s@ == clock(seconds),
    {
        let mut out = String::new();
        push_clock(&mut out, seconds);
        out
    }
}


/// How many times `c` occurs in `s`.
pub open spec fn count_char(s: Seq<char>, c: char) -> nat
    decreases s.len(),
{
    if s.len() == 0 {
        0
    } else {
        count_char(s.drop_last(), c) + if s.last() == c { 1nat } else { 0nat }
    }
}

/// The value std's `u32::from_str` gives for a string, if any.
pub open spec fn parsed_u32(s: Seq<char>) -> Option<u32> {
    match u32_outcome(s) {
        Ok(v) => Some(v),
        Err(_) => None,
    }
}

/// What `parse_time` gives for a string: `HH:MM`, split at its only colon, hours
/// at most 23 and minutes at most 59, as seconds since midnight.
pub open spec fn time_of_text(s: Seq<char>) -> Result<Time, Seq<char>> {
    if count_char(s, ':') != 1 {
        Err("Time must be in HH:MM format"@)
    } else {
        let k = choose|k: int| 0 <= k < s.len() && s[k] == ':';
        match parsed_u32(s.take(k)) {
            None => Err("Invalid hours"@),
            Some(hours) => match parsed_u32(s.skip(k + 1)) {
                None => Err("Invalid minutes"@),
                Some(minutes) => if hours > 23 || minutes > 59 {
                    Err("Invalid time values"@)
                } else {
                    Ok((hours * 3600 + minutes * 60) as Time)
                },
            },
        }
    }
}

/// Parses a time written `HH:MM` into seconds since midnight.
pub fn parse_time(time_str: &str) -> (r: Result<Time, String>)
    ensures
        match r {
            Ok(t) => time_of_text(time_str@) == Ok::<Time, Seq<char>>(t),
            Err(e) => time_of_text(time_str@) == Err::<Time, Seq<char>>(e@),
        },
{
    let cs = chars_of(time_str);
    let mut colons: usize = 0;
    let mut colon_at: usize = 0;
    let mut i: usize = 0;
    while i < cs.len()
        invariant
            i <= cs@.len(),
            colons == count_char(cs@.take(i as int), ':'),
            colons <= i,
            colons >= 1 ==> colon_at < i && cs@[colon_at as int] == ':',
            colons == 1 ==> forall|j: int| 0 <= j < i && j != colon_at ==> cs@[j] != ':',
            colons == 0 ==> forall|j: int| 0 <= j < i ==> cs@[j] != ':',
        decreases cs@.len() - i,
    {
        proof {
            assert(cs@.take(i + 1).drop_last() =~= cs@.take(i as int));
            assert(cs@.take(i + 1).last() == cs@[i as int]);
        }
        if cs[i] == ':' {
            if colons == 0 {
                colon_at = i;
            }
            colons = colons + 1;
        }
        i = i + 1;
    }
    assert(cs@.take(cs@.len() as int) =~= cs@);
    if colons != 1 {
        return Err(String::from_str("Time must be in HH:MM format"));
    }
    let ghost k = choose|k: int| 0 <= k < cs@.len() && cs@[k] == ':';
    assert(k == colon_at);
    assert(cs@.take(k) =~= cs@.subrange(0, colon_at as int));
    assert(cs@.skip(k + 1) =~= cs@.subrange(colon_at + 1, cs@.len() as int));
    let hours = match parse_u32_range(&cs, 0, colon_at) {
        Ok(h) => h,
        Err(_) => {
            return Err(String::from_str("Invalid hours"));
        },
    };
    let minutes = match parse_u32_range(&cs, colon_at + 1, cs.len()) {
        Ok(m) => m,
        Err(_) => {
            return Err(String::from_str("Invalid minutes"));
        },
    };
    if hours > 23 || minutes > 59 {
        return Err(String::from_str("Invalid time values"));
    }
    Ok(hours * 3600 + minutes * 60)
}

/// The stops a journey visits start at its origin and end at its destination, one
/// more than it has legs: `get_stops_visited` begins with what `get_origin_stop`
/// gives and ends with what `get_destination_stop` gives.
pub proof fn law_stops_visited_ends(legs: Seq<JourneyLeg>)
    requires
        legs.len() > 0,
    ensures
        stops_visited(legs).len() == legs.len() + 1,
        stops_visited(legs)[0] == leg_from(legs[0]),
        stops_visited(legs).last() == leg_to(legs.last()),
{
}

/// Every leg of a journey is a bus leg or a walk leg: the summary's two leg counts
/// add up to the number of legs.
pub proof fn law_summary_counts_legs(legs: Seq<JourneyLeg>)
    ensures
        bus_count(legs) + walk_count(legs) == legs.len(),
    decreases legs.len(),
{
    if legs.len() > 0 {
        law_summary_counts_legs(legs.drop_last());
    }
}

/// Walking time adds up over a journey: the walk time of two runs of legs, one after the
/// other, is the sum of their walk times, a walk leg alone counts its duration and a bus
/// leg counts nothing. So the summary's walk time is the total of all walk durations.
pub proof fn law_walk_time_adds_up(a: Seq<JourneyLeg>, b: Seq<JourneyLeg>)
    ensures
        walk_time_of(a + b) == walk_time_of(a) + walk_time_of(b),
        walk_time_of(Seq::<JourneyLeg>::empty()) == 0,
        forall|from: StopId, to: StopId, d: Time| #[trigger] walk_time_of(seq![JourneyLeg::Walk { from_stop: from, to_stop: to, duration: d }]) == d,
        forall|r: u32, from: StopId, to: StopId, dep: Time, arr: Time|
            #[trigger] walk_time_of(seq![JourneyLeg::Bus { route_id: r, from_stop: from, to_stop: to, departure_time: dep, arrival_time: arr }]) == 0,
    decreases b.len(),
{
    assert forall|from: StopId, to: StopId, d: Time| #[trigger] walk_time_of(seq![JourneyLeg::Walk { from_stop: from, to_stop: to, duration: d }]) == d by {
        let l = seq![JourneyLeg::Walk { from_stop: from, to_stop: to, duration: d }];
        assert(l.drop_last() =~= Seq::<JourneyLeg>::empty());
        assert(walk_time_of(l.drop_last()) == 0);
        assert(l.last() == JourneyLeg::Walk { from_stop: from, to_stop: to, duration: d });
    }
    assert forall|r: u32, from: StopId, to: StopId, dep: Time, arr: Time|
        #[trigger] walk_time_of(seq![JourneyLeg::Bus { route_id: r, from_stop: from, to_stop: to, departure_time: dep, arrival_time: arr }]) == 0 by {
        let l = seq![JourneyLeg::Bus { route_id: r, from_stop: from, to_stop: to, departure_time: dep, arrival_time: arr }];
        assert(l.drop_last() =~= Seq::<JourneyLeg>::empty());
        assert(walk_time_of(l.drop_last()) == 0);
        assert(l.last() == JourneyLeg::Bus { route_id: r, from_stop: from, to_stop: to, departure_time: dep, arrival_time: arr });
    }
    if b.len() == 0 {
        assert(a + b =~= a);
    } else {
        law_walk_time_adds_up(a, b.drop_last());
        assert((a + b).drop_last() =~= a + b.drop_last());
        assert((a + b).last() == b.last());
    }
}

/// Bus time adds up over a journey in the same way: the bus time of two runs of legs,
/// one after the other, is the sum of their bus times.
pub proof fn law_bus_time_adds_up(a: Seq<JourneyLeg>, b: Seq<JourneyLeg>)
    ensures
        bus_time_of(a + b) == bus_time_of(a) + bus_time_of(b),
    decreases b.len(),
{
    if b.len() == 0 {
        assert(a + b =~= a);
    } else {
        law_bus_time_adds_up(a, b.drop_last());
        assert((a + b).drop_last() =~= a + b.drop_last());
        assert((a + b).last() == b.last());
    }
}

/// Leg counts add up over a journey: the rides and the walks of two runs of legs, one
/// after the other, are the rides and the walks of each added together.
pub proof fn law_leg_counts_add_up(a: Seq<JourneyLeg>, b: Seq<JourneyLeg>)
    ensures
        bus_count(a + b) == bus_count(a) + bus_count(b),
        walk_count(a + b) == walk_count(a) + walk_count(b),
    decreases b.len(),
{
    if b.len() == 0 {
        assert(a + b =~= a);
    } else {
        law_leg_counts_add_up(a, b.drop_last());
        assert((a + b).drop_last() =~= a + b.drop_last());
        assert((a + b).last() == b.last());
    }
}

/// A journey whose legs do not meet is not valid: where leg `i`, of any kind, ends at a
/// stop other than the one where leg `i + 1` starts, the legs are not connected (and
/// `is_valid` answers false); where every leg ends where the next starts, they are.
pub proof fn law_valid_means_legs_meet(legs: Seq<JourneyLeg>, i: int)
    ensures
        0 <= i < legs.len() - 1 && leg_to(legs[i]) != leg_from(legs[i + 1]) ==> !legs_connected(legs),
        (forall|k: int| 0 <= k < legs.len() - 1 ==> leg_to(#[trigger] legs[k]) == leg_from(legs[k + 1]))
            ==> legs_connected(legs),
{
}

/// Describing one more leg keeps what came before.
#[verifier::spinoff_prover]
#[verifier::rlimit(40)]
proof fn lemma_with_leg_extends(prefix: Seq<char>, net: Network, leg: JourneyLeg, number: nat)
    ensures
        with_leg(prefix, net, leg, number).len() >= prefix.len(),
        with_leg(prefix, net, leg, number).subrange(0, prefix.len() as int) == prefix,
{
    let w = with_leg(prefix, net, leg, number);
    let rest = w.subrange(prefix.len() as int, w.len() as int);
    match leg {
        JourneyLeg::Bus { route_id, from_stop, to_stop, departure_time, arrival_time } => {
            let tail = decimal(number) + ". Bus - "@ + route_label(net, route_id) + " from "@
                + stop_label(net, from_stop) + " to "@ + stop_label(net, to_stop) + "\n"@
                + "   Depart: "@ + clock(departure_time) + " -> Arrive: "@ + clock(arrival_time)
                + " ("@ + decimal(((arrival_time - departure_time) / 60) as nat) + " min)\n"@;
            assert(w =~= prefix + tail);
            assert((prefix + tail).subrange(0, prefix.len() as int) =~= prefix);
        },
        JourneyLeg::Walk { from_stop, to_stop, duration } => {
            let tail = decimal(number) + ". Walk from "@ + stop_label(net, from_stop) + " to "@
                + stop_label(net, to_stop) + " ("@ + decimal((duration / 60) as nat) + " min)\n"@;
            assert(w =~= prefix + tail);
            assert((prefix + tail).subrange(0, prefix.len() as int) =~= prefix);
        },
    }
}

/// The description of the first `m` legs begins the description of all of them.
#[verifier::spinoff_prover]
proof fn lemma_with_legs_prefix(prefix: Seq<char>, net: Network, legs: Seq<JourneyLeg>, m: int)
    requires
        0 <= m <= legs.len(),
    ensures
        with_legs(prefix, net, legs.take(m)).len() <= with_legs(prefix, net, legs).len(),
        with_legs(prefix, net, legs).subrange(0, with_legs(prefix, net, legs.take(m)).len() as int)
            == with_legs(prefix, net, legs.take(m)),
    decreases legs.len(),
{
    if m == legs.len() {
        assert(legs.take(m) =~= legs);
        let w = with_legs(prefix, net, legs);
        assert(w.subrange(0, w.len() as int) =~= w);
    } else {
        let dl = legs.drop_last();
        lemma_with_legs_prefix(prefix, net, dl, m);
        assert(dl.take(m) =~= legs.take(m));
        let inner = with_legs(prefix, net, dl);
        lemma_with_leg_extends(inner, net, legs.last(), legs.len());
        let full = with_legs(prefix, net, legs);
        assert(full == with_leg(inner, net, legs.last(), legs.len()));
        let t = with_legs(prefix, net, legs.take(m));
        assert(full.subrange(0, t.len() as int) =~= full.subrange(0, inner.len() as int).subrange(0, t.len() as int));
    }
}

/// The description of a journey holds, for each leg in turn, the line that `format_journey`
/// shows for it, numbered from 1: a bus leg names its route and the stops it leaves from
/// and reaches, with both times and the minutes between; a walk leg names the stop it
/// leaves from and then, after " to ", the stop it reaches, with its minutes. A stop the
/// network does not know is shown as "Unknown".
#[verifier::spinoff_prover]
#[verifier::rlimit(40)]
pub proof fn law_description_lines(j: Journey, net: Network, k: int) -> (parts: (Seq<char>, Seq<char>))
    requires
        0 <= k < j.legs@.len(),
    ensures
        j.legs@[k] matches JourneyLeg::Walk { from_stop, to_stop, duration } ==> journey_text(j, net) == parts.0
            + decimal((k + 1) as nat) + ". Walk from "@ + stop_label(net, from_stop)
            + " to "@ + stop_label(net, to_stop) + " ("@ + decimal((duration / 60) as nat) + " min)\n"@ + parts.1,
        j.legs@[k] matches JourneyLeg::Bus { route_id, from_stop, to_stop, departure_time, arrival_time } ==>
            journey_text(j, net) == parts.0 + decimal((k + 1) as nat) + ". Bus - "@ + route_label(net, route_id) + " from "@
                + stop_label(net, from_stop) + " to "@ + stop_label(net, to_stop) + "\n"@
                + "   Depart: "@ + clock(departure_time) + " -> Arrive: "@ + clock(arrival_time)
                + " ("@ + decimal(((arrival_time - departure_time) / 60) as nat) + " min)\n"@ + parts.1,
{
    let legs = j.legs@;
    let h = journey_heading(j);
    let full = journey_text(j, net);
    lemma_with_legs_prefix(h, net, legs, k + 1);
    let upto = legs.take(k + 1);
    assert(upto.drop_last() =~= legs.take(k));
    assert(upto.last() == legs[k]);
    let before = with_legs(h, net, legs.take(k));
    let with_k = with_legs(h, net, upto);
    assert(with_k == with_leg(before, net, legs[k], (k + 1) as nat));
    let after = full.subrange(with_k.len() as int, full.len() as int);
    assert(full =~= with_k + after);
    match legs[k] {
        JourneyLeg::Walk { from_stop, to_stop, duration } => {
            let line = decimal((k + 1) as nat) + ". Walk from "@ + stop_label(net, from_stop)
                + " to "@ + stop_label(net, to_stop) + " ("@ + decimal((duration / 60) as nat) + " min)\n"@;
            assert(with_k =~= before + line);
            assert(full =~= before + decimal((k + 1) as nat) + ". Walk from "@ + stop_label(net, from_stop)
                + " to "@ + stop_label(net, to_stop) + " ("@ + decimal((duration / 60) as nat) + " min)\n"@ + after);
        },
        JourneyLeg::Bus { route_id, from_stop, to_stop, departure_time, arrival_time } => {
            assert(full =~= before + decimal((k + 1) as nat) + ". Bus - "@ + route_label(net, route_id) + " from "@
                + stop_label(net, from_stop) + " to "@ + stop_label(net, to_stop) + "\n"@
                + "   Depart: "@ + clock(departure_time) + " -> Arrive: "@ + clock(arrival_time)
                + " ("@ + decimal(((arrival_time - departure_time) / 60) as nat) + " min)\n"@ + after);
        },
    }
    (before, after)
}

/// Counting a character in two pieces adds up the counts of the pieces.
proof fn lemma_count_char_concat(s: Seq<char>, t: Seq<char>, c: char)
    ensures
        count_char(s + t, c) == count_char(s, c) + count_char(t, c),
    decreases t.len(),
{
    if t.len() > 0 {
        lemma_count_char_concat(s, t.drop_last(), c);
        assert((s + t).drop_last() =~= s + t.drop_last());
        assert((s + t).last() == t.last());
    } else {
        assert(s + t =~= s);
    }
}

/// The two-digit text of `v < 100` is two decimal digits and reads back as `v`.
proof fn lemma_two_digits_read(v: nat)
    requires
        v < 100,
    ensures
        two_digits(v).len() == 2,
        is_digit(two_digits(v)[0]),
        is_digit(two_digits(v)[1]),
        count_char(two_digits(v), ':') == 0,
        u32_outcome(two_digits(v)) == Ok::<u32, IntParseFailure>(v as u32),
{
    let s = two_digits(v);
    let a = v / 10;
    let b = v % 10;
    if v < 10 {
        assert(decimal(v) == seq![digit_char(v)]);
        assert(s =~= seq!['0', digit_char(v)]);
        assert(digit_char(0) == '0');
    } else {
        assert(decimal(a) == seq![digit_char(a)]);
        assert(decimal(v) == decimal(a).push(digit_char(b)));
        assert(s =~= seq![digit_char(a), digit_char(b)]);
    }
    assert(s[0] == digit_char(a));
    assert(s[1] == digit_char(b));
    assert(digit_value(digit_char(a)) == a);
    assert(digit_value(digit_char(b)) == b);
    assert(s.drop_last() =~= seq![s[0]]);
    assert(s.drop_last().drop_last() =~= Seq::<char>::empty());
    reveal_with_fuel(count_char, 3);
    reveal_with_fuel(scan_digits, 3);
}

/// The `HH:MM` text that journeys show for a time of day reads back, through
/// `parse_time`, as that time rounded down to the minute.
pub proof fn law_clock_text_reads_back(t: u32)
    requires
        t < 86400,
    ensures
        time_of_text(clock(t)) == Ok::<Time, Seq<char>>((t - t % 60) as Time),
{
    let h = (t / 3600) as nat;
    let m = ((t % 3600) / 60) as nat;
    lemma_two_digits_read(h);
    lemma_two_digits_read(m);
    let hs = two_digits(h);
    let ms = two_digits(m);
    let s = clock(t);
    assert(s =~= hs + seq![':'] + ms);
    lemma_count_char_concat(hs + seq![':'], ms, ':');
    lemma_count_char_concat(hs, seq![':'], ':');
    assert(seq![':'].drop_last() =~= Seq::<char>::empty());
    assert(count_char(seq![':'], ':') == 1) by {
        assert(seq![':'].last() == ':');
        reveal_with_fuel(count_char, 2);
    }
    assert(s[2] == ':');
    let k = choose|k: int| 0 <= k < s.len() && s[k] == ':';
    if k < 2 {
        assert(s[k] == hs[k]);
    } else if k > 2 {
        assert(s[k] == ms[k - 3]);
    }
    assert(k == 2);
    assert(s.take(2) =~= hs);
    assert(s.skip(3) =~= ms);
    assert(h * 3600 + m * 60 == t - t % 60) by (nonlinear_arith)
        requires
            h == t / 3600,
            m == (t % 3600) / 60,
            t < 86400,
    {
        assert(t == 3600 * (t / 3600) + t % 3600);
        assert(t % 3600 == 60 * ((t % 3600) / 60) + (t % 3600) % 60);
        assert(t % 60 == (t % 3600) % 60);
    }
}

/// A time that `parse_time` accepts is a whole minute of one day.
pub proof fn law_parsed_time_in_day(s: Seq<char>)
    ensures
        time_of_text(s) matches Ok(t) ==> t < 86400 && t % 60 == 0,
{
    if let Ok(t) = time_of_text(s) {
        let k = choose|k: int| 0 <= k < s.len() && s[k] == ':';
        let hours = parsed_u32(s.take(k))->0;
        let minutes = parsed_u32(s.skip(k + 1))->0;
        assert(t == hours * 3600 + minutes * 60);
        assert((hours * 3600 + minutes * 60) % 60 == 0) by (nonlinear_arith)
            requires
                hours <= 23,
                minutes <= 59,
        {
            assert(hours * 3600 + minutes * 60 == 60 * (hours * 60 + minutes));
        }
    }
}

} // verus!
