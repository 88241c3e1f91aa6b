use bus_raptor::data::structures::{Journey, JourneyLeg, Network, Route, Stop, Transfer};
use bus_raptor::raptor::backward::BackwardRaptor;
use bus_raptor::raptor::journey::parse_time;
use bus_raptor::raptor::private_bus::PrivateBusPlanner;

fn stop(id: u32, name: &str, lat: f32, lon: f32) -> Stop {
    Stop::new(id, name.to_string(), lat.to_bits(), lon.to_bits())
}

/// Great-circle distance in meters, as the command line tool computes it.
fn haversine(lat1: f32, lon1: f32, lat2: f32, lon2: f32) -> f32 {
    let lat1_rad = lat1.to_radians();
    let lat2_rad = lat2.to_radians();
    let delta_lat = (lat2 - lat1).to_radians();
    let delta_lon = (lon2 - lon1).to_radians();
    let a = (delta_lat / 2.0).sin().powi(2)
        + lat1_rad.cos() * lat2_rad.cos() * (delta_lon / 2.0).sin().powi(2);
    let c = 2.0 * a.sqrt().asin();
    6_371_000.0 * c
}

/// Walking transfers between all ordered pairs of distinct stops within `max_m` meters.
fn walking_transfers(stops: &[Stop], max_m: f32, speed_ms: f32) -> Vec<Transfer> {
    let mut out = Vec::new();
    for (i, a) in stops.iter().enumerate() {
        for (j, b) in stops.iter().enumerate() {
            if i != j {
                let d = haversine(
                    f32::from_bits(a.lat_bits),
                    f32::from_bits(a.lon_bits),
                    f32::from_bits(b.lat_bits),
                    f32::from_bits(b.lon_bits),
                );
                if d <= max_m {
                    let walk = (d / speed_ms).ceil() as u32;
                    out.push(Transfer::new(a.id, b.id, walk, d.to_bits()));
                }
            }
        }
    }
    out
}

#[test]
fn test_backward_raptor_simple() {
    let stops = vec![
        stop(1, "Stop A", 35.0, 139.0),
        stop(2, "Stop B", 35.1, 139.1),
        stop(3, "Stop C", 35.2, 139.2),
    ];
    let routes = vec![Route::new(1, "Route 1".to_string(), vec![1, 2, 3], vec![600, 600])];
    let network = Network::new(stops, routes, vec![]);
    let raptor = BackwardRaptor::new(network, 3);

    let result = raptor.find_route(None, 3, 28800);

    assert!(result.is_some());
    let journey = result.unwrap();
    assert!(journey.departure_time <= 28800);
    assert_eq!(journey.arrival_time, 28800);
}

#[test]
fn test_complete_routing_scenario() {
    let stops = vec![
        stop(1, "Stop A", 35.0, 139.0),
        stop(2, "Stop B", 35.001, 139.001),
        stop(3, "Stop C", 35.002, 139.002),
        stop(4, "Stop D", 35.001, 139.0015),
    ];
    let routes = vec![Route::new(1, "Route 1".to_string(), vec![1, 2, 3], vec![300, 300])];
    let transfers = walking_transfers(&stops, 100.0, 1.4);
    let network = Network::new(stops, routes, transfers);
    let raptor = BackwardRaptor::new(network, 3);

    let journey = raptor.find_route(None, 3, 28800);

    assert!(journey.is_some());
    let journey = journey.unwrap();
    assert_eq!(journey.arrival_time, 28800);
    assert!(journey.departure_time <= 28800);
    assert!(journey.total_time >= 600);
}

#[test]
fn test_time_parsing() {
    assert_eq!(parse_time("00:00").unwrap(), 0);
    assert_eq!(parse_time("08:00").unwrap(), 28800);
    assert_eq!(parse_time("12:30").unwrap(), 45000);
    assert_eq!(parse_time("23:59").unwrap(), 86340);

    assert!(parse_time("25:00").is_err());
    assert!(parse_time("12:60").is_err());
    assert!(parse_time("abc").is_err());
}

#[test]
fn test_parse_time() {
    assert_eq!(parse_time("08:00").unwrap(), 28800);
    assert_eq!(parse_time("12:30").unwrap(), 45000);
    assert_eq!(parse_time("00:00").unwrap(), 0);

    assert!(parse_time("25:00").is_err());
    assert!(parse_time("12:60").is_err());
    assert!(parse_time("12").is_err());
}

#[test]
fn test_journey_validation() {
    let mut journey = Journey::new();
    journey.add_bus_leg(1, 1, 2, 1000, 1600);
    journey.add_walk_leg(2, 3, 300);
    journey.add_bus_leg(2, 3, 4, 1900, 2400);
    journey.finalize(1000, 2400);

    assert!(journey.is_valid());
    assert_eq!(journey.get_origin_stop(), Some(1));
    assert_eq!(journey.get_destination_stop(), Some(4));
    assert_eq!(journey.get_stops_visited(), vec![1, 2, 3, 4]);
}

#[test]
fn test_journey_validation_and_formatting() {
    let stops = vec![
        stop(1, "Stop A", 35.0, 139.0),
        stop(2, "Stop B", 35.001, 139.001),
        stop(3, "Stop C", 35.002, 139.002),
    ];
    let routes = vec![
        Route::new(1, "Route 1".to_string(), vec![1, 2], vec![600]),
        Route::new(2, "Route 2".to_string(), vec![2, 3], vec![300]),
    ];
    let network = Network::new(stops, routes, vec![]);
    let mut journey = Journey::new();

    journey.add_bus_leg(1, 1, 2, 28800, 29400);
    journey.add_walk_leg(2, 2, 60);
    journey.add_bus_leg(2, 2, 3, 29460, 29760);

    journey.finalize(28800, 29760);

    assert!(journey.is_valid());
    assert_eq!(journey.get_origin_stop(), Some(1));
    assert_eq!(journey.get_destination_stop(), Some(3));
    assert_eq!(journey.total_time, 960);
    assert_eq!(journey.num_transfers, 1);

    let formatted = journey.format_journey(&network);
    assert!(formatted.contains("Stop A"));
    assert!(formatted.contains("Stop C"));
    assert!(formatted.contains("Route 1"));
}

#[test]
fn test_network_indexing() {
    let stops = vec![stop(101, "Stop A", 35.0, 139.0), stop(205, "Stop B", 35.1, 139.1)];
    let routes = vec![Route::new(301, "Route X".to_string(), vec![101, 205], vec![600])];
    let network = Network::new(stops, routes, vec![]);

    assert_eq!(network.get_stop_index(101), Some(0));
    assert_eq!(network.get_stop_index(205), Some(1));
    assert_eq!(network.get_stop_index(999), None);

    assert_eq!(network.get_route_index(301), Some(0));
    assert_eq!(network.get_route_index(999), None);

    let stop_a = network.get_stop(101).unwrap();
    assert_eq!(stop_a.name, "Stop A");

    let routes_for_stop = network.get_routes_for_stop(101).unwrap();
    assert_eq!(routes_for_stop.len(), 1);
    assert_eq!(routes_for_stop[0], 0);
}

#[test]
fn test_route_travel_time_calculations() {
    let route = Route::new(1, "Test Route".to_string(), vec![1, 2, 3, 4], vec![300, 600, 900]);

    assert_eq!(route.cumulative_time_to(0), 0);
    assert_eq!(route.cumulative_time_to(1), 300);
    assert_eq!(route.cumulative_time_to(2), 900);
    assert_eq!(route.cumulative_time_to(3), 1800);

    assert_eq!(route.travel_time_between(0, 1), Some(300));
    assert_eq!(route.travel_time_between(0, 2), Some(900));
    assert_eq!(route.travel_time_between(1, 3), Some(1500));
    assert_eq!(route.travel_time_between(2, 1), None);
    assert_eq!(route.travel_time_between(0, 4), None);
}

#[test]
fn test_multi_round_routing() {
    let stops = vec![
        stop(1, "Stop A", 35.0, 139.0),
        stop(2, "Stop B", 35.001, 139.001),
        stop(3, "Stop C", 35.001, 139.0015),
        stop(4, "Stop D", 35.002, 139.002),
    ];
    let routes = vec![
        Route::new(1, "Route AB".to_string(), vec![1, 2], vec![600]),
        Route::new(2, "Route CD".to_string(), vec![3, 4], vec![300]),
    ];
    let transfers = vec![
        Transfer::new(2, 3, 120, 100.0f32.to_bits()),
        Transfer::new(3, 2, 120, 100.0f32.to_bits()),
    ];
    let network = Network::new(stops, routes, transfers);
    let raptor = BackwardRaptor::new(network, 4);

    let journey = raptor.find_route(None, 4, 28800);

    assert!(journey.is_some());
    let journey = journey.unwrap();
    assert!(journey.legs.len() >= 3);
    assert!(journey.num_transfers >= 1);
    assert_eq!(journey.arrival_time, 28800);
    assert!(journey.total_time >= 1020);
}
