use vstd::prelude::*;
use std::collections::HashMap;
use crate::text::{chars_of, ranges_eq_ignore_ascii_case, same_ignoring_ascii_case, trim_bounds, trimmed};

verus! {

/// Identifier of a stop, as the data files give it.
pub type StopId = u32;

/// Identifier of a route, as the data files give it.
pub type RouteId = u32;

/// A time of day or a duration, in seconds since midnight.
pub type Time = u32;

/// A bus stop. The coordinates are carried as the IEEE-754 bit patterns of `f32`
/// degrees: the routing never reads them, distance computations do.
#[derive(Debug, Clone)]
pub struct Stop {
    pub id: StopId,
    pub name: String,
    pub lat_bits: u32,
    pub lon_bits: u32,
}

impl Stop {
    pub fn new(id: StopId, name: String, lat_bits: u32, lon_bits: u32) -> (s: Self)
        ensures
            s.id == id,
            s.name@ == name@,
            s.lat_bits == lat_bits,
            s.lon_bits == lon_bits,
    {
        Stop { id, name, lat_bits, lon_bits }
    }
}

/// The sum of a sequence of durations, as a mathematical integer.
pub open spec fn sum_times(s: Seq<Time>) -> int
    decreases s.len(),
{
    if s.len() == 0 {
        0
    } else {
        sum_times(s.drop_last()) + s.last()
    }
}

/// Adding one more duration to a prefix adds that duration to the prefix's sum.
pub proof fn lemma_sum_take_succ(s: Seq<Time>, i: int)
    requires
        0 <= i < s.len(),
    ensures
        sum_times(s.take(i + 1)) == sum_times(s.take(i)) + s[i],
{
    assert(s.take(i + 1).drop_last() =~= s.take(i));
}

/// A prefix never sums to more than the whole sequence.
pub proof fn lemma_sum_take_le(s: Seq<Time>, i: int)
    requires
        0 <= i <= s.len(),
    ensures
        0 <= sum_times(s.take(i)) <= sum_times(s),
    decreases s.len() - i,
{
    if i == s.len() {
        assert(s.take(i) =~= s);
        lemma_sum_nonneg(s);
    } else {
        lemma_sum_take_succ(s, i);
        lemma_sum_take_le(s, i + 1);
        lemma_sum_nonneg(s.take(i));
    }
}

/// A sum of durations is never negative.
pub proof fn lemma_sum_nonneg(s: Seq<Time>)
    ensures
        sum_times(s) >= 0,
    decreases s.len(),
{
    if s.len() > 0 {
        lemma_sum_nonneg(s.drop_last());
    }
}

/// A stretch of consecutive travel times never sums to more than all of them.
pub proof fn lemma_sum_subrange_le(s: Seq<Time>, i: int, j: int)
    requires
        0 <= i <= j <= s.len(),
    ensures
        0 <= sum_times(s.subrange(i, j)) <= sum_times(s),
    decreases s.len() - j + i,
{
    if j < s.len() {
        lemma_sum_subrange_le(s, i, j + 1);
        assert(s.subrange(i, j + 1).take(j - i) =~= s.subrange(i, j));
        lemma_sum_take_le(s.subrange(i, j + 1), j - i);
    } else if i > 0 {
        lemma_sum_subrange_le(s, i - 1, j);
        assert(s.subrange(i - 1, j).drop_first() =~= s.subrange(i, j));
        lemma_sum_drop_first(s.subrange(i - 1, j));
        lemma_sum_nonneg(s.subrange(i, j));
    } else {
        assert(s.subrange(i, j) =~= s);
        lemma_sum_nonneg(s);
    }
}

/// Leaving out the first duration leaves out exactly that duration from the sum.
pub proof fn lemma_sum_drop_first(s: Seq<Time>)
    requires
        s.len() > 0,
    ensures
        sum_times(s) == s[0] + sum_times(s.drop_first()),
    decreases s.len(),
{
    if s.len() > 1 {
        lemma_sum_drop_first(s.drop_last());
        assert(s.drop_last().drop_first() =~= s.drop_first().drop_last());
        assert(s.drop_first().last() == s.last());
        assert(s.drop_last()[0] == s[0]);
    } else {
        assert(s.drop_first() =~= Seq::<Time>::empty());
        assert(s.drop_last() =~= Seq::<Time>::empty());
    }
}

/// The sum of two stretches one after the other is the sum of their sums.
pub proof fn lemma_sum_concat(a: Seq<Time>, b: Seq<Time>)
    ensures
        sum_times(a + b) == sum_times(a) + sum_times(b),
    decreases b.len(),
{
    if b.len() > 0 {
        lemma_sum_concat(a, b.drop_last());
        assert((a + b).drop_last() =~= a + b.drop_last());
        assert((a + b).last() == b.last());
    } else {
        assert(a + b =~= a);
    }
}

/// A bus route: the stops it serves in order, and the travel time between
/// each stop and the next.
#[derive(Debug, Clone)]
pub struct Route {
    pub id: RouteId,
    pub name: String,
    pub stops: Vec<StopId>,
    pub travel_times: Vec<Time>,
}

impl Route {
    /// One travel time for each pair of consecutive stops.
    pub open spec fn wf(&self) -> bool {
        self.stops@.len() == self.travel_times@.len() + 1
    }

    /// The travel times reach at least to the last stop, so that every pair
    /// of stop positions has its travel times.
    pub open spec fn times_cover_stops(&self) -> bool {
        self.stops@.len() <= self.travel_times@.len() + 1
    }

    /// The travel time from the stop at position `from` to the one at position `to`.
    pub open spec fn time_between(&self, from: int, to: int) -> int {
        sum_times(self.travel_times@.subrange(from, to))
    }

    pub fn new(id: RouteId, name: String, stops: Vec<StopId>, travel_times: Vec<Time>) -> (r: Self)
        requires
            stops@.len() == travel_times@.len() + 1,
        ensures
            r.id == id,
            r.name@ == name@,
            r.stops@ == stops@,
            r.travel_times@ == travel_times@,
            r.wf(),
    {
        Route { id, name, stops, travel_times }
    }

    /// Cumulative travel time from the first stop to the stop at `stop_index`:
    /// the sum of the first `stop_index` travel times (all of them when there are fewer).
    pub fn cumulative_time_to(&self, stop_index: usize) -> (t: Time)
        requires
            sum_times(self.travel_times@.take(
                if stop_index <= self.travel_times@.len() { stop_index as int } else { self.travel_times@.len() as int },
            )) <= u32::MAX,
        ensures
            t == sum_times(self.travel_times@.take(
                if stop_index <= self.travel_times@.len() { stop_index as int } else { self.travel_times@.len() as int },
            )),
    {
        let n: usize = if stop_index <= self.travel_times.len() { stop_index } else { self.travel_times.len() };
        let mut total: Time = 0;
        let mut i: usize = 0;
        while i < n
            invariant
                n <= self.travel_times@.len(),
                i <= n,
                sum_times(self.travel_times@.take(n as int)) <= u32::MAX,
                total == sum_times(self.travel_times@.take(i as int)),
            decreases n - i,
        {
            proof {
                lemma_sum_take_succ(self.travel_times@, i as int);
                lemma_sum_take_le(self.travel_times@.take(n as int), i + 1);
                assert(self.travel_times@.take(n as int).take(i + 1) =~= self.travel_times@.take(i + 1));
            }
            total = total + self.travel_times[i];
            i = i + 1;
        }
        total
    }

    /// Travel time between two stop positions on this route: `None` unless
    /// `from_index < to_index < stops.len()`.
    pub fn travel_time_between(&self, from_index: usize, to_index: usize) -> (t: Option<Time>)
        requires
            self.times_cover_stops(),
            from_index < to_index < self.stops@.len() ==> self.time_between(from_index as int, to_index as int) <= u32::MAX,
        ensures
            t == if from_index >= to_index || to_index >= self.stops@.len() {
                None
            } else {
                Some(self.time_between(from_index as int, to_index as int) as Time)
            },
    {
        if from_index >= to_index || to_index >= self.stops.len() {
            return None;
        }
        let ghost seg = self.travel_times@.subrange(from_index as int, to_index as int);
        let mut total: Time = 0;
        let mut i: usize = from_index;
        while i < to_index
            invariant
                from_index <= i <= to_index,
                to_index <= self.travel_times@.len(),
                seg == self.travel_times@.subrange(from_index as int, to_index as int),
                sum_times(seg) <= u32::MAX,
                total == sum_times(seg.take(i - from_index)),
            decreases to_index - i,
        {
            proof {
                lemma_sum_take_succ(seg, i - from_index);
                lemma_sum_take_le(seg, i - from_index + 1);
            }
            total = total + self.travel_times[i];
            i = i + 1;
        }
        proof {
            assert(seg.take(to_index - from_index) =~= seg);
        }
        Some(total)
    }
}

/// The travel time between two stops of a route is the difference of their
/// cumulative times from the first stop: what `travel_time_between(i, j)` returns
/// is `cumulative_time_to(j)` less `cumulative_time_to(i)`.
pub proof fn law_travel_time_is_difference(route: Route, i: int, j: int)
    requires
        route.wf(),
        0 <= i < j < route.stops@.len(),
    ensures
        route.time_between(i, j) == sum_times(route.travel_times@.take(j)) - sum_times(route.travel_times@.take(i)),
{
    let t = route.travel_times@;
    assert(t.take(j) =~= t.take(i) + t.subrange(i, j));
    lemma_sum_concat(t.take(i), t.subrange(i, j));
}

/// Adding a leg adds one transfer exactly when it is a walk: a journey built leg by
/// leg from `Journey::new` with `add_bus_leg` and `add_walk_leg` counts its walks as
/// its transfers.
pub proof fn law_walks_are_transfers(legs: Seq<JourneyLeg>, leg: JourneyLeg)
    ensures
        walk_count(legs.push(leg)) == walk_count(legs) + if leg is Walk { 1nat } else { 0nat },
{
    assert(legs.push(leg).drop_last() =~= legs);
}

/// A walking connection from one stop to another.
/// The distance is carried as the IEEE-754 bit pattern of `f32` meters.
#[derive(Debug, Clone, Copy)]
pub struct Transfer {
    pub from_stop: StopId,
    pub to_stop: StopId,
    pub walk_time: Time,
    pub distance_bits: u32,
}

impl Transfer {
    pub fn new(from_stop: StopId, to_stop: StopId, walk_time: Time, distance_bits: u32) -> (t: Self)
        ensures
            t == (Transfer { from_stop, to_stop, walk_time, distance_bits }),
    {
        Transfer { from_stop, to_stop, walk_time, distance_bits }
    }
}


/// The identifiers of a sequence of stops, in order.
pub open spec fn stop_ids(stops: Seq<Stop>) -> Seq<StopId> {
    stops.map_values(|s: Stop| s.id)
}

/// The identifiers of a sequence of routes, in order.
pub open spec fn route_ids(routes: Seq<Route>) -> Seq<RouteId> {
    routes.map_values(|r: Route| r.id)
}

/// The index of each identifier in `ids`; where an identifier occurs more than
/// once, the last occurrence wins.
pub open spec fn index_by_id(ids: Seq<u32>) -> Map<u32, usize>
    decreases ids.len(),
{
    if ids.len() == 0 {
        Map::empty()
    } else {
        index_by_id(ids.drop_last()).insert(ids.last(), (ids.len() - 1) as usize)
    }
}

/// `index_by_id` knows exactly the identifiers of `ids`, and sends each to its
/// last position in `ids`.
pub proof fn lemma_index_by_id(ids: Seq<u32>, k: u32)
    requires
        ids.len() <= usize::MAX,
    ensures
        index_by_id(ids).contains_key(k) <==> ids.contains(k),
        index_by_id(ids).contains_key(k) ==> {
            let v = index_by_id(ids)[k];
            &&& v < ids.len()
            &&& ids[v as int] == k
            &&& forall|j: int| v < j < ids.len() ==> ids[j] != k
        },
    decreases ids.len(),
{
    if ids.len() > 0 {
        let front = ids.drop_last();
        lemma_index_by_id(front, k);
        if ids.last() != k {
            if front.contains(k) {
                let j = choose|j: int| 0 <= j < front.len() && front[j] == k;
                assert(ids[j] == k);
            }
            if ids.contains(k) {
                let j = choose|j: int| 0 <= j < ids.len() && ids[j] == k;
                assert(front[j] == k);
            }
            if index_by_id(front).contains_key(k) {
                let v = index_by_id(front)[k];
                assert(ids[v as int] == front[v as int]);
                assert forall|j: int| v < j < ids.len() implies ids[j] != k by {
                    if j < ids.len() - 1 {
                        assert(ids[j] == front[j]);
                    }
                }
            }
        } else {
            assert(ids[ids.len() - 1] == k);
        }
    }
}

/// How many positions of `ids` name a stop that `index` sends to stop index `s`.
pub open spec fn count_at(ids: Seq<StopId>, index: Map<StopId, usize>, s: usize) -> nat
    decreases ids.len(),
{
    if ids.len() == 0 {
        0
    } else {
        count_at(ids.drop_last(), index, s) + if index.contains_key(ids.last()) && index[ids.last()] == s {
            1nat
        } else {
            0nat
        }
    }
}

/// The indices of the routes that serve stop index `s`, in route order, each
/// route repeated once for every position of it at that stop.
pub open spec fn routes_serving(routes: Seq<Route>, index: Map<StopId, usize>, s: usize) -> Seq<usize>
    decreases routes.len(),
{
    if routes.len() == 0 {
        Seq::empty()
    } else {
        routes_serving(routes.drop_last(), index, s) + Seq::new(
            count_at(routes.last().stops@, index, s),
            |_i: int| (routes.len() - 1) as usize,
        )
    }
}

/// Every route index that `routes_serving` lists is an index of `routes`.
pub proof fn lemma_routes_serving_bounded(routes: Seq<Route>, index: Map<StopId, usize>, s: usize)
    requires
        routes.len() <= usize::MAX,
    ensures
        forall|i: int| 0 <= i < routes_serving(routes, index, s).len()
            ==> routes_serving(routes, index, s)[i] < routes.len(),
    decreases routes.len(),
{
    if routes.len() > 0 {
        lemma_routes_serving_bounded(routes.drop_last(), index, s);
        let front = routes_serving(routes.drop_last(), index, s);
        let back = Seq::new(count_at(routes.last().stops@, index, s), |_i: int| (routes.len() - 1) as usize);
        assert forall|i: int| 0 <= i < (front + back).len() implies (front + back)[i] < routes.len() by {
            if i < front.len() {
                assert((front + back)[i] == front[i]);
            } else {
                assert((front + back)[i] == back[i - front.len()]);
            }
        }
    }
}

/// A stop name matches a query when both, trimmed of white space, are equal up to
/// ASCII letter case.
pub open spec fn name_matches(name: Seq<char>, query: Seq<char>) -> bool {
    same_ignoring_ascii_case(trimmed(name), trimmed(query))
}

/// The identifier of the first stop whose name matches `query`, if any.
pub open spec fn stop_named(stops: Seq<Stop>, query: Seq<char>) -> Option<StopId>
    decreases stops.len(),
{
    if stops.len() == 0 {
        None
    } else if name_matches(stops[0].name@, query) {
        Some(stops[0].id)
    } else {
        stop_named(stops.drop_first(), query)
    }
}

/// `count_at` is positive exactly when some position names a stop sent to `s`.
proof fn lemma_count_at_positive(ids: Seq<StopId>, index: Map<StopId, usize>, s: usize)
    ensures
        count_at(ids, index, s) > 0 <==> exists|q: int|
            0 <= q < ids.len() && index.contains_key(#[trigger] ids[q]) && index[ids[q]] == s,
    decreases ids.len(),
{
    if ids.len() > 0 {
        let front = ids.drop_last();
        lemma_count_at_positive(front, index, s);
        if exists|q: int| 0 <= q < front.len() && index.contains_key(#[trigger] front[q]) && index[front[q]] == s {
            let q = choose|q: int| 0 <= q < front.len() && index.contains_key(#[trigger] front[q]) && index[front[q]] == s;
            assert(ids[q] == front[q]);
        }
        if exists|q: int| 0 <= q < ids.len() && index.contains_key(#[trigger] ids[q]) && index[ids[q]] == s {
            let q = choose|q: int| 0 <= q < ids.len() && index.contains_key(#[trigger] ids[q]) && index[ids[q]] == s;
            if q < front.len() {
                assert(front[q] == ids[q]);
            } else {
                assert(ids[q] == ids.last());
            }
        }
    }
}

/// Route `ri` is listed for stop `s` exactly when one of its positions names a stop
/// sent to `s`.
proof fn lemma_routes_serving_contains(routes: Seq<Route>, index: Map<StopId, usize>, s: usize, ri: int)
    requires
        routes.len() <= usize::MAX,
        0 <= ri < routes.len(),
    ensures
        routes_serving(routes, index, s).contains(ri as usize) <==> count_at(routes[ri].stops@, index, s) > 0,
    decreases routes.len(),
{
    let front = routes_serving(routes.drop_last(), index, s);
    let back = Seq::new(count_at(routes.last().stops@, index, s), |_i: int| (routes.len() - 1) as usize);
    let all = front + back;
    lemma_routes_serving_bounded(routes.drop_last(), index, s);
    if ri < routes.len() - 1 {
        lemma_routes_serving_contains(routes.drop_last(), index, s, ri);
        assert(routes.drop_last()[ri] == routes[ri]);
        if all.contains(ri as usize) {
            let k = choose|k: int| 0 <= k < all.len() && all[k] == ri as usize;
            if k >= front.len() {
                assert(all[k] == back[k - front.len()]);
            } else {
                assert(front[k] == all[k]);
            }
        }
        if front.contains(ri as usize) {
            let k = choose|k: int| 0 <= k < front.len() && front[k] == ri as usize;
            assert(all[k] == front[k]);
        }
    } else {
        assert(routes.last() == routes[ri]);
        if back.len() > 0 {
            assert(all[front.len() as int] == back[0]);
        }
        if all.contains(ri as usize) {
            let k = choose|k: int| 0 <= k < all.len() && all[k] == ri as usize;
            if k < front.len() {
                assert(front[k] == all[k]);
                assert(front[k] < routes.len() - 1);
            }
        }
    }
}

/// The routes listed for a stop are exactly the routes that pass it: route `ri` is
/// listed for stop index `s` when, and only when, one of its stops leads to `s`.
pub proof fn law_routes_for_stop(net: Network, s: int, ri: int)
    requires
        net.wf(),
        0 <= s < net.stops@.len(),
        0 <= ri < net.routes@.len(),
    ensures
        net.stop_routes@[s]@.contains(ri as usize) <==> exists|q: int|
            0 <= q < net.routes@[ri].stops@.len()
            && net.stop_index_of(#[trigger] net.routes@[ri].stops@[q]) == Some(s as usize),
{
    assert(net.routes.len() == net.routes@.len());
    assert(net.stops.len() == net.stops@.len());
    lemma_routes_serving_contains(net.routes@, net.stop_id_to_index@, s as usize, ri);
    lemma_count_at_positive(net.routes@[ri].stops@, net.stop_id_to_index@, s as usize);
    let ids = net.routes@[ri].stops@;
    if exists|q: int| 0 <= q < ids.len() && net.stop_index_of(#[trigger] ids[q]) == Some(s as usize) {
        let q = choose|q: int| 0 <= q < ids.len() && net.stop_index_of(#[trigger] ids[q]) == Some(s as usize);
        assert(net.stop_id_to_index@.contains_key(ids[q]));
    }
    if exists|q: int| 0 <= q < ids.len() && net.stop_id_to_index@.contains_key(#[trigger] ids[q])
        && net.stop_id_to_index@[ids[q]] == s as usize {
        let q = choose|q: int| 0 <= q < ids.len() && net.stop_id_to_index@.contains_key(#[trigger] ids[q])
            && net.stop_id_to_index@[ids[q]] == s as usize;
        assert(net.stop_index_of(ids[q]) == Some(s as usize));
    }
}

/// `routes_serving` lists route indices in ascending order.
proof fn lemma_routes_serving_sorted(routes: Seq<Route>, index: Map<StopId, usize>, s: usize)
    requires
        routes.len() <= usize::MAX,
    ensures
        forall|i: int, j: int| 0 <= i <= j < routes_serving(routes, index, s).len()
            ==> routes_serving(routes, index, s)[i] <= routes_serving(routes, index, s)[j],
    decreases routes.len(),
{
    if routes.len() > 0 {
        lemma_routes_serving_sorted(routes.drop_last(), index, s);
        lemma_routes_serving_bounded(routes.drop_last(), index, s);
        let front = routes_serving(routes.drop_last(), index, s);
        let back = Seq::new(count_at(routes.last().stops@, index, s), |_i: int| (routes.len() - 1) as usize);
        let all = front + back;
        assert forall|i: int, j: int| 0 <= i <= j < all.len() implies all[i] <= all[j] by {
            if j < front.len() {
                assert(all[i] == front[i] && all[j] == front[j]);
            } else if i < front.len() {
                assert(all[i] == front[i] && all[j] == back[j - front.len()]);
            } else {
                assert(all[i] == back[i - front.len()] && all[j] == back[j - front.len()]);
            }
        }
    }
}

/// In a well-formed network, the routes listed for a stop come in ascending order of
/// their index.
pub proof fn law_stop_routes_ascending(net: Network, s: int)
    requires
        net.wf(),
        0 <= s < net.stops@.len(),
    ensures
        forall|i: int, j: int| 0 <= i <= j < net.stop_routes@[s]@.len()
            ==> net.stop_routes@[s]@[i] <= net.stop_routes@[s]@[j],
{
    assert(net.routes.len() == net.routes@.len());
    lemma_routes_serving_sorted(net.routes@, net.stop_id_to_index@, s as usize);
}

/// In a well-formed network whose stop identifiers are all different, each stop's
/// identifier leads back to that stop's index.
pub proof fn law_distinct_stop_ids_lead_back(net: Network, i: int)
    requires
        net.wf(),
        stop_ids(net.stops@).no_duplicates(),
        0 <= i < net.stops@.len(),
    ensures
        net.stop_index_of(net.stops@[i].id) == Some(i as usize),
{
    assert(net.stops.len() == net.stops@.len());
    let ids = stop_ids(net.stops@);
    assert(ids[i] == net.stops@[i].id);
    lemma_index_by_id(ids, ids[i]);
}

/// In a well-formed network whose route identifiers are all different, each route's
/// identifier leads back to that route's index.
pub proof fn law_distinct_route_ids_lead_back(net: Network, i: int)
    requires
        net.wf(),
        route_ids(net.routes@).no_duplicates(),
        0 <= i < net.routes@.len(),
    ensures
        net.route_index_of(net.routes@[i].id) == Some(i as usize),
{
    assert(net.routes.len() == net.routes@.len());
    let ids = route_ids(net.routes@);
    assert(ids[i] == net.routes@[i].id);
    lemma_index_by_id(ids, ids[i]);
}

/// A transit network: stops, routes and walking transfers, with the lookups
/// that routing needs.
#[derive(Debug, Clone)]
pub struct Network {
    pub stops: Vec<Stop>,
    pub routes: Vec<Route>,
    pub transfers: Vec<Transfer>,
    pub stop_id_to_index: HashMap<StopId, usize>,
    pub route_id_to_index: HashMap<RouteId, usize>,
    pub stop_routes: Vec<Vec<usize>>,
}

impl Network {
    /// The lookups agree with the stops and routes they were built from.
    pub open spec fn wf(&self) -> bool {
        &&& self.stop_id_to_index@ == index_by_id(stop_ids(self.stops@))
        &&& self.route_id_to_index@ == index_by_id(route_ids(self.routes@))
        &&& self.stop_routes@.len() == self.stops@.len()
        &&& forall|s: int| 0 <= s < self.stops@.len()
            ==> #[trigger] self.stop_routes@[s]@ == routes_serving(self.routes@, self.stop_id_to_index@, s as usize)
    }

    /// The index of the stop with identifier `id`, if any.
    pub open spec fn stop_index_of(&self, id: StopId) -> Option<usize> {
        if self.stop_id_to_index@.contains_key(id) {
            Some(self.stop_id_to_index@[id])
        } else {
            None
        }
    }

    /// The index of the route with identifier `id`, if any.
    pub open spec fn route_index_of(&self, id: RouteId) -> Option<usize> {
        if self.route_id_to_index@.contains_key(id) {
            Some(self.route_id_to_index@[id])
        } else {
            None
        }
    }

    /// In a well-formed network a stop identifier leads to a stop with that identifier.
    pub proof fn lemma_stop_index(&self, id: StopId)
        requires
            self.wf(),
        ensures
            self.stop_index_of(id) matches Some(i) ==> i < self.stops@.len() && self.stops@[i as int].id == id,
            self.stop_index_of(id) is None <==> !stop_ids(self.stops@).contains(id),
    {
        assert(self.stops.len() == self.stops@.len());
        lemma_index_by_id(stop_ids(self.stops@), id);
    }

    /// In a well-formed network a route identifier leads to a route with that identifier.
    pub proof fn lemma_route_index(&self, id: RouteId)
        requires
            self.wf(),
        ensures
            self.route_index_of(id) matches Some(i) ==> i < self.routes@.len() && self.routes@[i as int].id == id,
            self.route_index_of(id) is None <==> !route_ids(self.routes@).contains(id),
    {
        assert(self.routes.len() == self.routes@.len());
        lemma_index_by_id(route_ids(self.routes@), id);
    }

    pub fn new(stops: Vec<Stop>, routes: Vec<Route>, transfers: Vec<Transfer>) -> (n: Self)
        ensures
            n.stops@ == stops@,
            n.routes@ == routes@,
            n.transfers@ == transfers@,
            n.wf(),
    {
        broadcast use vstd::std_specs::hash::group_hash_axioms;

        let mut stop_id_to_index: HashMap<StopId, usize> = HashMap::new();
        let mut i: usize = 0;
        while i < stops.len()
            invariant
                i <= stops@.len(),
                stop_id_to_index@ == index_by_id(stop_ids(stops@).take(i as int)),
            decreases stops@.len() - i,
        {
            proof {
                assert(stop_ids(stops@).take(i + 1).drop_last() =~= stop_ids(stops@).take(i as int));
            }
            stop_id_to_index.insert(stops[i].id, i);
            i = i + 1;
        }
        proof {
            assert(stop_ids(stops@).take(stops@.len() as int) =~= stop_ids(stops@));
        }

        let mut route_id_to_index: HashMap<RouteId, usize> = HashMap::new();
        let mut j: usize = 0;
        while j < routes.len()
            invariant
                j <= routes@.len(),
                route_id_to_index@ == index_by_id(route_ids(routes@).take(j as int)),
            decreases routes@.len() - j,
        {
            proof {
                assert(route_ids(routes@).take(j + 1).drop_last() =~= route_ids(routes@).take(j as int));
            }
            route_id_to_index.insert(routes[j].id, j);
            j = j + 1;
        }
        proof {
            assert(route_ids(routes@).take(routes@.len() as int) =~= route_ids(routes@));
        }

        let ghost index = stop_id_to_index@;
        let mut stop_routes: Vec<Vec<usize>> = Vec::new();
        let mut k: usize = 0;
        while k < stops.len()
            invariant
                k <= stops@.len(),
                stop_routes@.len() == k,
                forall|s: int| 0 <= s < k ==> (#[trigger] stop_routes@[s])@ == Seq::<usize>::empty(),
            decreases stops@.len() - k,
        {
            stop_routes.push(Vec::new());
            k = k + 1;
        }

        let mut r: usize = 0;
        while r < routes.len()
            invariant
                r <= routes@.len(),
                index == stop_id_to_index@,
                index == index_by_id(stop_ids(stops@)),
                stop_routes@.len() == stops@.len(),
                forall|s: int| 0 <= s < stops@.len()
                    ==> (#[trigger] stop_routes@[s])@ == routes_serving(routes@.take(r as int), index, s as usize),
            decreases routes@.len() - r,
        {
            let route = &routes[r];
            let mut p: usize = 0;
            while p < route.stops.len()
                invariant
                    r < routes@.len(),
                    *route == routes@[r as int],
                    p <= route.stops@.len(),
                    index == stop_id_to_index@,
                    index == index_by_id(stop_ids(stops@)),
                    stop_routes@.len() == stops@.len(),
                    forall|s: int| 0 <= s < stops@.len()
                        ==> (#[trigger] stop_routes@[s])@ == routes_serving(routes@.take(r as int), index, s as usize)
                            + Seq::new(count_at(route.stops@.take(p as int), index, s as usize), |_i: int| r),
                decreases route.stops@.len() - p,
            {
                let stop_id = route.stops[p];
                let ghost before = stop_routes@;
                proof {
                    assert(route.stops@.take(p + 1).drop_last() =~= route.stops@.take(p as int));
                    assert(stops.len() == stops@.len());
                    lemma_index_by_id(stop_ids(stops@), stop_id);
                }
                match stop_id_to_index.get(&stop_id) {
                    Some(si) => {
                        let si: usize = *si;
                        stop_routes[si].push(r);
                        assert forall|s: int| 0 <= s < stops@.len() implies
                            (#[trigger] stop_routes@[s])@ == routes_serving(routes@.take(r as int), index, s as usize)
                                + Seq::new(count_at(route.stops@.take(p + 1), index, s as usize), |_i: int| r) by {
                            if s == si {
                                let a = routes_serving(routes@.take(r as int), index, s as usize);
                                let b = Seq::new(count_at(route.stops@.take(p as int), index, s as usize), |_i: int| r);
                                assert(route.stops@.take(p + 1).last() == stop_id);
                                assert(count_at(route.stops@.take(p + 1), index, s as usize)
                                    == count_at(route.stops@.take(p as int), index, s as usize) + 1);
                                assert(Seq::new(count_at(route.stops@.take(p + 1), index, s as usize), |_i: int| r)
                                    =~= b.push(r));
                                assert(stop_routes@[s]@ == before[s]@.push(r));
                                assert((a + b).push(r) =~= a + b.push(r));
                            } else {
                                assert(stop_routes@[s] == before[s]);
                            }
                        }
                    },
                    None => {
                        assert forall|s: int| 0 <= s < stops@.len() implies
                            (#[trigger] stop_routes@[s])@ == routes_serving(routes@.take(r as int), index, s as usize)
                                + Seq::new(count_at(route.stops@.take(p + 1), index, s as usize), |_i: int| r) by {
                            assert(route.stops@.take(p + 1).last() == stop_id);
                            assert(count_at(route.stops@.take(p + 1), index, s as usize)
                                == count_at(route.stops@.take(p as int), index, s as usize));
                        }
                    },
                }
                p = p + 1;
            }
            proof {
                assert(route.stops@.take(route.stops@.len() as int) =~= route.stops@);
                assert(routes@.take(r + 1).drop_last() =~= routes@.take(r as int));
                assert forall|s: int| 0 <= s < stops@.len() implies
                    (#[trigger] stop_routes@[s])@ == routes_serving(routes@.take(r + 1), index, s as usize) by {
                    assert(routes@.take(r + 1).last() == routes@[r as int]);
                    assert(routes@.take(r + 1).len() - 1 == r);
                    assert(Seq::new(count_at(route.stops@.take(route.stops@.len() as int), index, s as usize), |_i: int| r)
                        =~= Seq::new(count_at(routes@.take(r + 1).last().stops@, index, s as usize),
                            |_i: int| (routes@.take(r + 1).len() - 1) as usize));
                }
            }
            r = r + 1;
        }
        proof {
            assert(routes@.take(routes@.len() as int) =~= routes@);
        }
        Network { stops, routes, transfers, stop_id_to_index, route_id_to_index, stop_routes }
    }

    pub fn get_stop_index(&self, stop_id: StopId) -> (r: Option<usize>)
        ensures
            r == self.stop_index_of(stop_id),
    {
        broadcast use vstd::std_specs::hash::group_hash_axioms;

        match self.stop_id_to_index.get(&stop_id) {
            Some(i) => Some(*i),
            None => None,
        }
    }

    pub fn get_route_index(&self, route_id: RouteId) -> (r: Option<usize>)
        ensures
            r == self.route_index_of(route_id),
    {
        broadcast use vstd::std_specs::hash::group_hash_axioms;

        match self.route_id_to_index.get(&route_id) {
            Some(i) => Some(*i),
            None => None,
        }
    }

    pub fn get_stop(&self, stop_id: StopId) -> (r: Option<&Stop>)
        requires
            self.wf(),
        ensures
            r == (match self.stop_index_of(stop_id) {
                Some(i) => Some(&self.stops@[i as int]),
                None => None,
            }),
    {
        proof {
            self.lemma_stop_index(stop_id);
        }
        match self.get_stop_index(stop_id) {
            Some(idx) => Some(&self.stops[idx]),
            None => None,
        }
    }

    pub fn get_route(&self, route_id: RouteId) -> (r: Option<&Route>)
        requires
            self.wf(),
        ensures
            r == (match self.route_index_of(route_id) {
                Some(i) => Some(&self.routes@[i as int]),
                None => None,
            }),
    {
        proof {
            self.lemma_route_index(route_id);
        }
        match self.get_route_index(route_id) {
            Some(idx) => Some(&self.routes[idx]),
            None => None,
        }
    }

    /// The identifier of the first stop whose name matches `stop_name`.
    pub fn get_stop_by_name(&self, stop_name: &str) -> (r: Option<StopId>)
        ensures
            r == stop_named(self.stops@, stop_name@),
    {
        let query = chars_of(stop_name);
        let (q0, q1) = trim_bounds(&query, 0, query.len());
        assert(query@.subrange(0, query@.len() as int) =~= stop_name@);
        let mut i: usize = 0;
        assert(self.stops@.skip(0) =~= self.stops@);
        while i < self.stops.len()
            invariant
                i <= self.stops@.len(),
                q0 <= q1 <= query@.len(),
                query@.subrange(q0 as int, q1 as int) == trimmed(stop_name@),
                stop_named(self.stops@, stop_name@) == stop_named(self.stops@.skip(i as int), stop_name@),
            decreases self.stops@.len() - i,
        {
            let name = chars_of(self.stops[i].name.as_str());
            let (n0, n1) = trim_bounds(&name, 0, name.len());
            assert(name@.subrange(0, name@.len() as int) =~= self.stops@[i as int].name@);
            assert(self.stops@.skip(i as int)[0] == self.stops@[i as int]);
            assert(self.stops@.skip(i as int).drop_first() =~= self.stops@.skip(i + 1));
            if ranges_eq_ignore_ascii_case(&name, n0, n1, &query, q0, q1) {
                return Some(self.stops[i].id);
            }
            i = i + 1;
        }
        None
    }

    /// All transfers that leave from `stop_id`, in network order.
    pub fn get_transfers_from(&self, stop_id: StopId) -> (r: Vec<Transfer>)
        ensures
            r@ == self.transfers@.filter(|t: Transfer| t.from_stop == stop_id),
    {
        let ghost pred = |t: Transfer| t.from_stop == stop_id;
        let mut out: Vec<Transfer> = Vec::new();
        let mut i: usize = 0;
        while i < self.transfers.len()
            invariant
                i <= self.transfers@.len(),
                pred == (|t: Transfer| t.from_stop == stop_id),
                out@ == self.transfers@.take(i as int).filter(pred),
            decreases self.transfers@.len() - i,
        {
            proof {
                assert(self.transfers@.take(i + 1) =~= self.transfers@.take(i as int).push(self.transfers@[i as int]));
                self.transfers@.take(i as int).lemma_filter_push(self.transfers@[i as int], pred);
            }
            let t = self.transfers[i];
            if t.from_stop == stop_id {
                out.push(t);
            }
            i = i + 1;
        }
        proof {
            assert(self.transfers@.take(self.transfers@.len() as int) =~= self.transfers@);
        }
        out
    }

    /// The indices of the routes serving `stop_id`, if the stop is known.
    pub fn get_routes_for_stop(&self, stop_id: StopId) -> (r: Option<&Vec<usize>>)
        requires
            self.wf(),
        ensures
            r == (match self.stop_index_of(stop_id) {
                Some(i) => Some(&self.stop_routes@[i as int]),
                None => None,
            }),
    {
        proof {
            self.lemma_stop_index(stop_id);
        }
        match self.get_stop_index(stop_id) {
            Some(idx) => Some(&self.stop_routes[idx]),
            None => None,
        }
    }
}


/// One leg of a journey: a ride on a route, or a walk between two stops.
#[derive(Debug, Clone, Copy)]
pub enum JourneyLeg {
    Bus { route_id: RouteId, from_stop: StopId, to_stop: StopId, departure_time: Time, arrival_time: Time },
    Walk { from_stop: StopId, to_stop: StopId, duration: Time },
}

/// The stop where a leg starts.
pub open spec fn leg_from(leg: JourneyLeg) -> StopId {
    match leg {
        JourneyLeg::Bus { from_stop, .. } => from_stop,
        JourneyLeg::Walk { from_stop, .. } => from_stop,
    }
}

/// The stop where a leg ends.
pub open spec fn leg_to(leg: JourneyLeg) -> StopId {
    match leg {
        JourneyLeg::Bus { to_stop, .. } => to_stop,
        JourneyLeg::Walk { to_stop, .. } => to_stop,
    }
}

/// How many of the legs are walks.
pub open spec fn walk_count(legs: Seq<JourneyLeg>) -> nat
    decreases legs.len(),
{
    if legs.len() == 0 {
        0
    } else {
        walk_count(legs.drop_last()) + if legs.last() is Walk { 1nat } else { 0nat }
    }
}

/// A journey: its legs, its departure and arrival times, and how long it takes.
#[derive(Debug, Clone)]
pub struct Journey {
    pub legs: Vec<JourneyLeg>,
    pub total_time: Time,
    pub num_transfers: usize,
    pub departure_time: Time,
    pub arrival_time: Time,
}

impl Journey {
    pub fn new() -> (j: Self)
        ensures
            j.legs@ == Seq::<JourneyLeg>::empty(),
            j.total_time == 0,
            j.num_transfers == 0,
            j.departure_time == 0,
            j.arrival_time == 0,
    {
        Journey { legs: Vec::new(), total_time: 0, num_transfers: 0, departure_time: 0, arrival_time: 0 }
    }

    pub fn add_bus_leg(
        &mut self,
        route_id: RouteId,
        from_stop: StopId,
        to_stop: StopId,
        departure_time: Time,
        arrival_time: Time,
    )
        ensures
            final(self).legs@ == old(self).legs@.push(
                JourneyLeg::Bus { route_id, from_stop, to_stop, departure_time, arrival_time },
            ),
            final(self).total_time == old(self).total_time,
            final(self).num_transfers == old(self).num_transfers,
            final(self).departure_time == old(self).departure_time,
            final(self).arrival_time == old(self).arrival_time,
    {
        self.legs.push(JourneyLeg::Bus { route_id, from_stop, to_stop, departure_time, arrival_time });
    }

    /// Adds a walk; every walk counts as one transfer.
    pub fn add_walk_leg(&mut self, from_stop: StopId, to_stop: StopId, duration: Time)
        requires
            old(self).num_transfers < usize::MAX,
        ensures
            final(self).legs@ == old(self).legs@.push(JourneyLeg::Walk { from_stop, to_stop, duration }),
            final(self).num_transfers == old(self).num_transfers + 1,
            final(self).total_time == old(self).total_time,
            final(self).departure_time == old(self).departure_time,
            final(self).arrival_time == old(self).arrival_time,
    {
        self.legs.push(JourneyLeg::Walk { from_stop, to_stop, duration });
        self.num_transfers = self.num_transfers + 1;
    }

    pub fn finalize(&mut self, departure_time: Time, arrival_time: Time)
        requires
            departure_time <= arrival_time,
        ensures
            final(self).legs@ == old(self).legs@,
            final(self).num_transfers == old(self).num_transfers,
            final(self).departure_time == departure_time,
            final(self).arrival_time == arrival_time,
            final(self).total_time == arrival_time - departure_time,
    {
        self.departure_time = departure_time;
        self.arrival_time = arrival_time;
        self.total_time = arrival_time - departure_time;
    }
}

} // verus!
