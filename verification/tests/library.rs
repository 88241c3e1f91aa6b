use bus_raptor::cli::plan::plan_public;
use bus_raptor::cli::config::{check_max_transfers, parse_destination, DestinationSpec, OutputFormat};
use bus_raptor::data::records::{join_ids, parse_id_list, parse_route_lists, route_record, RouteCsv};
use bus_raptor::data::structures::{Journey, JourneyLeg, Network, Route, Stop, Transfer};
use bus_raptor::raptor::backward::BackwardRaptor;
use bus_raptor::raptor::geojson::{journey_markers_of, StopMarker};
use bus_raptor::raptor::journey::parse_time;
use bus_raptor::raptor::private_bus::PrivateBusPlanner;
use bus_raptor::text::IntParseFailure;

fn stop(id: u32, name: &str, lat: f32, lon: f32) -> Stop {
    Stop::new(id, name.to_string(), lat.to_bits(), lon.to_bits())
}

/// Reads route rows from routes-file text with the csv crate.
fn route_rows(text: &str) -> Vec<RouteCsv> {
    let mut reader = csv::Reader::from_reader(text.as_bytes());
    reader
        .records()
        .map(|r| {
            let r = r.unwrap();
            RouteCsv {
                id: r[0].parse().unwrap(),
                name: r[1].to_string(),
                stops: r[2].to_string(),
                travel_times: r[3].to_string(),
            }
        })
        .collect()
}

/// Reads stops from stops-file text with the csv crate.
fn stop_rows(text: &str) -> Vec<Stop> {
    let mut reader = csv::Reader::from_reader(text.as_bytes());
    reader
        .records()
        .map(|r| {
            let r = r.unwrap();
            let lat: f32 = r[2].parse().unwrap();
            let lon: f32 = r[3].parse().unwrap();
            Stop::new(r[0].parse().unwrap(), r[1].to_string(), lat.to_bits(), lon.to_bits())
        })
        .collect()
}

fn line_network() -> Network {
    let stops = vec![
        stop(1, "Stop A", 35.0, 139.0),
        stop(2, "Stop B", 35.001, 139.001),
        stop(3, "Stop C", 35.002, 139.002),
    ];
    let routes = vec![
        Route::new(1, "Route 1".to_string(), vec![1, 2], vec![600]),
        Route::new(2, "Route 2".to_string(), vec![2, 3], vec![300]),
    ];
    Network::new(stops, routes, vec![])
}

fn sample_journey() -> Journey {
    let mut journey = Journey::new();
    journey.add_bus_leg(1, 1, 2, 28800, 29400);
    journey.add_walk_leg(2, 2, 60);
    journey.add_bus_leg(2, 2, 3, 29460, 29760);
    journey.finalize(28800, 29760);
    journey
}

#[test]
fn test_destination_parsing() {
    match parse_destination("123") {
        DestinationSpec::Id(id) => assert_eq!(id, 123),
        _ => panic!("Expected ID destination"),
    }
    match parse_destination("Tokyo Station") {
        DestinationSpec::Name(name) => assert_eq!(name, "Tokyo Station"),
        _ => panic!("Expected name destination"),
    }
}

#[test]
fn destination_that_overflows_is_a_name() {
    match parse_destination("4294967296") {
        DestinationSpec::Name(name) => assert_eq!(name, "4294967296"),
        _ => panic!("Expected name destination"),
    }
    match parse_destination("+7") {
        DestinationSpec::Id(id) => assert_eq!(id, 7),
        _ => panic!("Expected ID destination"),
    }
}

#[test]
fn output_format_defaults_to_text() {
    assert_eq!(OutputFormat::default(), OutputFormat::Text);
}

#[test]
fn test_csv_round_trip_routes() {
    let rows = route_rows("id,name,stops,travel_times\n1,Route 1,\"1,2,3\",\"600,600\"\n");
    let loaded_routes: Vec<Route> = rows
        .iter()
        .map(|r| {
            let (stops, times) = parse_route_lists(r).unwrap();
            Route::new(r.id, r.name.clone(), stops, times)
        })
        .collect();

    assert_eq!(loaded_routes.len(), 1);
    assert_eq!(loaded_routes[0].id, 1);
    assert_eq!(loaded_routes[0].stops, vec![1, 2, 3]);
    assert_eq!(loaded_routes[0].travel_times, vec![600, 600]);
}

#[test]
fn test_csv_round_trip_stops() {
    let loaded_stops = stop_rows("id,name,lat,lon\n1,Station A,35.0,139.0\n2,Station B,35.1,139.1\n");

    assert_eq!(loaded_stops.len(), 2);
    assert_eq!(loaded_stops[0].id, 1);
    assert_eq!(loaded_stops[0].name, "Station A");
    assert_eq!(f32::from_bits(loaded_stops[0].lat_bits), 35.0);
}

#[test]
fn id_lists_are_trimmed_and_checked() {
    assert_eq!(parse_id_list(" 1, 2 ,3 ").unwrap(), vec![1, 2, 3]);
    assert_eq!(parse_id_list("+5").unwrap(), vec![5]);
    assert_eq!(parse_id_list("").unwrap_err(), IntParseFailure::Empty);
    assert_eq!(parse_id_list("1,,2").unwrap_err(), IntParseFailure::Empty);
    assert_eq!(parse_id_list("1,x").unwrap_err(), IntParseFailure::InvalidDigit);
    assert_eq!(parse_id_list("-1").unwrap_err(), IntParseFailure::InvalidDigit);
    assert_eq!(parse_id_list("4294967295").unwrap(), vec![4294967295]);
    assert_eq!(parse_id_list("4294967296").unwrap_err(), IntParseFailure::PosOverflow);
}

#[test]
fn parse_failures_describe_themselves() {
    assert_eq!(IntParseFailure::Empty.describe(), "cannot parse integer from empty string");
    assert_eq!(IntParseFailure::InvalidDigit.describe(), "invalid digit found in string");
    assert_eq!(IntParseFailure::PosOverflow.describe(), "number too large to fit in target type");
}

#[test]
fn route_rows_report_which_list_failed() {
    let bad_stops = RouteCsv {
        id: 1,
        name: "R".to_string(),
        stops: "1,x".to_string(),
        travel_times: "600".to_string(),
    };
    assert_eq!(
        parse_route_lists(&bad_stops).unwrap_err(),
        "Failed to parse stop IDs: invalid digit found in string"
    );
    let bad_times = RouteCsv {
        id: 1,
        name: "R".to_string(),
        stops: "1,2".to_string(),
        travel_times: "600,,".to_string(),
    };
    assert_eq!(
        parse_route_lists(&bad_times).unwrap_err(),
        "Failed to parse travel times: cannot parse integer from empty string"
    );
}

#[test]
fn route_rows_round_trip() {
    let route = Route::new(4, "Line".to_string(), vec![10, 2, 300], vec![600, 45]);
    let row = route_record(&route);
    assert_eq!(row.id, 4);
    assert_eq!(row.name, "Line");
    assert_eq!(row.stops, "10,2,300");
    assert_eq!(row.travel_times, "600,45");
    let (stops, times) = parse_route_lists(&row).unwrap();
    assert_eq!(stops, vec![10, 2, 300]);
    assert_eq!(times, vec![600, 45]);
    assert_eq!(join_ids(&vec![]), "");
    assert_eq!(join_ids(&vec![0]), "0");
}

#[test]
fn single_stop_route_row_does_not_read_back() {
    let route = Route::new(5, "Stay".to_string(), vec![7], vec![]);
    let row = route_record(&route);
    assert_eq!(row.travel_times, "");
    assert_eq!(
        parse_route_lists(&row).unwrap_err(),
        "Failed to parse travel times: cannot parse integer from empty string"
    );
}

#[test]
fn cumulative_time_stops_at_the_last_travel_time() {
    let route = Route::new(1, "Test Route".to_string(), vec![1, 2, 3, 4], vec![300, 600, 900]);
    assert_eq!(route.cumulative_time_to(10), 1800);
    assert_eq!(route.travel_time_between(1, 3), Some(route.cumulative_time_to(3) - route.cumulative_time_to(1)));
    assert_eq!(route.travel_time_between(2, 2), None);
}

#[test]
fn parse_time_messages() {
    assert_eq!(parse_time("12").unwrap_err(), "Time must be in HH:MM format");
    assert_eq!(parse_time("1:2:3").unwrap_err(), "Time must be in HH:MM format");
    assert_eq!(parse_time("ab:00").unwrap_err(), "Invalid hours");
    assert_eq!(parse_time("12:").unwrap_err(), "Invalid minutes");
    assert_eq!(parse_time("24:00").unwrap_err(), "Invalid time values");
    assert_eq!(parse_time("7:5").unwrap(), 25500);
    assert_eq!(parse_time("07:05").unwrap(), 25500);
}

#[test]
fn displayed_times_read_back() {
    let mut journey = Journey::new();
    journey.finalize(25530, 86399);
    let text = journey.get_summary().format_summary();
    assert!(text.contains("Departure: 07:05"));
    assert!(text.contains("Arrival: 23:59"));
    assert_eq!(parse_time("07:05").unwrap(), 25530 - 25530 % 60);
    assert_eq!(parse_time("23:59").unwrap(), 86399 - 86399 % 60);
}

#[test]
fn journey_text_is_exact() {
    let network = line_network();
    let journey = sample_journey();
    assert_eq!(
        journey.format_journey(&network),
        "Journey from 08:00 to 08:16\n\
         Total time: 16 minutes, Transfers: 1\n\n\
         1. Bus - Route 1 from Stop A to Stop B\n   \
         Depart: 08:00 -> Arrive: 08:10 (10 min)\n\
         2. Walk from Stop B to Stop B (1 min)\n\
         3. Bus - Route 2 from Stop B to Stop C\n   \
         Depart: 08:11 -> Arrive: 08:16 (5 min)\n"
    );
}

#[test]
fn journey_text_names_unknown_stops_and_routes() {
    let network = line_network();
    let mut journey = Journey::new();
    journey.add_bus_leg(9, 8, 1, 0, 120);
    journey.finalize(0, 120);
    assert_eq!(
        journey.format_journey(&network),
        "Journey from 00:00 to 00:02\n\
         Total time: 2 minutes, Transfers: 0\n\n\
         1. Bus - Unknown Route from Unknown to Stop A\n   \
         Depart: 00:00 -> Arrive: 00:02 (2 min)\n"
    );
}

#[test]
fn summary_counts_and_text() {
    let summary = sample_journey().get_summary();
    assert_eq!(summary.total_time, 960);
    assert_eq!(summary.bus_time, 900);
    assert_eq!(summary.walk_time, 60);
    assert_eq!(summary.bus_legs, 2);
    assert_eq!(summary.walk_legs, 1);
    assert_eq!(summary.bus_legs + summary.walk_legs, 3);
    assert_eq!(summary.total_transfers, 1);
    assert_eq!(
        summary.format_summary(),
        "Journey Summary:\n  Total Time: 16 minutes\n  Bus Time: 15 minutes (2 legs)\n  \
         Walk Time: 1 minutes (1 legs)\n  Transfers: 1\n  Departure: 08:00\n  Arrival: 08:16"
    );
}

#[test]
fn empty_and_broken_journeys_are_invalid() {
    let journey = Journey::new();
    assert!(!journey.is_valid());
    assert_eq!(journey.get_origin_stop(), None);
    assert_eq!(journey.get_destination_stop(), None);
    assert!(journey.get_stops_visited().is_empty());

    let mut broken = Journey::new();
    broken.add_bus_leg(1, 1, 2, 0, 60);
    broken.add_bus_leg(1, 3, 4, 60, 120);
    assert!(!broken.is_valid());
    assert_eq!(broken.get_stops_visited(), vec![1, 2, 4]);
}

#[test]
fn walks_count_as_transfers() {
    let mut journey = Journey::new();
    journey.add_walk_leg(1, 2, 30);
    journey.add_bus_leg(1, 2, 3, 30, 90);
    journey.add_walk_leg(3, 4, 30);
    assert_eq!(journey.num_transfers, 2);
    assert_eq!(journey.get_summary().walk_legs, 2);
}

#[test]
fn stops_are_found_by_trimmed_name_ignoring_case() {
    let network = line_network();
    assert_eq!(network.get_stop_by_name("  stop a  "), Some(1));
    assert_eq!(network.get_stop_by_name("STOP B"), Some(2));
    assert_eq!(network.get_stop_by_name("Stop"), None);
}

#[test]
fn transfers_from_a_stop_keep_network_order() {
    let stops = vec![stop(2, "B", 0.0, 0.0), stop(3, "C", 0.0, 0.0), stop(4, "D", 0.0, 0.0)];
    let transfers = vec![
        Transfer::new(2, 3, 60, 80.0f32.to_bits()),
        Transfer::new(3, 2, 60, 80.0f32.to_bits()),
        Transfer::new(2, 4, 90, 120.0f32.to_bits()),
    ];
    let network = Network::new(stops, vec![], transfers);
    let from_b = network.get_transfers_from(2);
    assert_eq!(from_b.len(), 2);
    assert_eq!((from_b[0].to_stop, from_b[0].walk_time), (3, 60));
    assert_eq!((from_b[1].to_stop, from_b[1].walk_time), (4, 90));
    assert!(network.get_transfers_from(4).is_empty());
}

#[test]
fn routes_are_listed_for_every_stop_they_pass() {
    let stops = vec![stop(1, "A", 0.0, 0.0), stop(2, "B", 0.0, 0.0), stop(3, "C", 0.0, 0.0)];
    let routes = vec![
        Route::new(9, "Loop".to_string(), vec![1, 2, 1], vec![60, 60]),
        Route::new(10, "Line".to_string(), vec![2, 3], vec![60]),
    ];
    let network = Network::new(stops, routes, vec![]);
    assert_eq!(network.get_routes_for_stop(1).unwrap(), &vec![0, 0]);
    assert_eq!(network.get_routes_for_stop(2).unwrap(), &vec![0, 1]);
    assert_eq!(network.get_routes_for_stop(3).unwrap(), &vec![1]);
    assert!(network.get_routes_for_stop(4).is_none());
    assert_eq!(network.get_route(10).unwrap().name, "Line");
}

#[test]
fn a_repeated_stop_id_leads_to_its_last_stop() {
    let stops = vec![stop(1, "First", 0.0, 0.0), stop(1, "Second", 0.0, 0.0)];
    let network = Network::new(stops, vec![], vec![]);
    assert_eq!(network.get_stop_index(1), Some(1));
    assert_eq!(network.get_stop(1).unwrap().name, "Second");
}

#[test]
fn journey_markers_follow_the_legs() {
    let network = line_network();
    let journey = sample_journey();
    assert_eq!(
        journey_markers_of(&journey, &network),
        vec![
            (0, StopMarker::Start),
            (1, StopMarker::Intermediate),
            (1, StopMarker::Intermediate),
            (2, StopMarker::Destination),
        ]
    );
    assert!(journey_markers_of(&Journey::new(), &network).is_empty());

    let mut partly_unknown = Journey::new();
    partly_unknown.add_bus_leg(1, 9, 1, 0, 60);
    partly_unknown.add_walk_leg(1, 8, 30);
    assert_eq!(journey_markers_of(&partly_unknown, &network), vec![(0, StopMarker::Destination)]);
}

#[test]
fn backward_search_reaches_the_farthest_stop_without_a_start() {
    let stops = vec![stop(1, "Stop A", 35.0, 139.0), stop(2, "Stop B", 35.1, 139.1), stop(3, "Stop C", 35.2, 139.2)];
    let routes = vec![Route::new(1, "Route 1".to_string(), vec![1, 2, 3], vec![600, 600])];
    let raptor = BackwardRaptor::new(Network::new(stops, routes, vec![]), 3);

    let journey = raptor.find_route(None, 3, 28800).unwrap();
    assert_eq!(journey.departure_time, 27600);
    assert_eq!(journey.total_time, 1200);
    assert_eq!(journey.num_transfers, 0);
    assert_eq!(journey.legs.len(), 1);
    assert!(matches!(
        journey.legs[0],
        JourneyLeg::Bus { route_id: 1, from_stop: 1, to_stop: 3, departure_time: 27600, arrival_time: 28800 }
    ));

    let from_b = raptor.find_route(Some(2), 3, 28800).unwrap();
    assert_eq!(from_b.departure_time, 28200);
    assert!(matches!(from_b.legs[0], JourneyLeg::Bus { from_stop: 2, to_stop: 3, .. }));

    assert!(raptor.find_route(None, 99, 28800).is_none());
}

#[test]
fn backward_search_legs_run_in_travel_order() {
    let network = line_network();
    let raptor = BackwardRaptor::new(network, 4).with_max_departure_delay(1800);
    let journey = raptor.find_route(None, 3, 28800).unwrap();
    assert_eq!(journey.departure_time, 27900);
    assert_eq!(journey.legs.len(), 2);
    assert!(matches!(
        journey.legs[0],
        JourneyLeg::Bus { route_id: 1, from_stop: 1, to_stop: 2, departure_time: 27900, arrival_time: 28500 }
    ));
    assert!(matches!(
        journey.legs[1],
        JourneyLeg::Bus { route_id: 2, from_stop: 2, to_stop: 3, departure_time: 28500, arrival_time: 28800 }
    ));
    assert!(journey.is_valid());
    assert_eq!(journey.get_origin_stop(), Some(1));
    assert_eq!(journey.get_destination_stop(), Some(3));
}

#[test]
fn backward_search_finds_the_latest_departure_from_a_start() {
    let stops = vec![stop(1, "A", 35.0, 139.0), stop(2, "B", 35.1, 139.1), stop(3, "D", 35.2, 139.2)];
    let routes = vec![
        Route::new(1, "R1".to_string(), vec![1, 3], vec![600]),
        Route::new(2, "R2".to_string(), vec![1, 2, 3], vec![600, 600]),
    ];
    let raptor = BackwardRaptor::new(Network::new(stops, routes, vec![]), 1);
    let journey = raptor.find_route(Some(1), 3, 28800).unwrap();
    assert_eq!(journey.legs.len(), 1);
    assert!(matches!(
        journey.legs[0],
        JourneyLeg::Bus { route_id: 1, from_stop: 1, to_stop: 3, departure_time: 28200, arrival_time: 28800 }
    ));
    assert_eq!(journey.departure_time, 28200);
    assert_eq!(journey.arrival_time, 28800);
    assert_eq!(journey.total_time, 600);
    assert_eq!(journey.num_transfers, 0);
}

#[test]
fn departures_earlier_than_the_delay_allows_are_not_found() {
    let stops = vec![stop(1, "A", 35.0, 139.0), stop(2, "B", 35.1, 139.1)];
    let routes = vec![Route::new(1, "Long".to_string(), vec![1, 2], vec![7200])];
    let network = Network::new(stops, routes, vec![]);
    let default_delay = BackwardRaptor::new(network.clone(), 3);
    assert!(default_delay.find_route(None, 2, 28800).is_none());
    let longer = BackwardRaptor::new(network, 3).with_max_departure_delay(7200);
    let journey = longer.find_route(Some(1), 2, 28800).unwrap();
    assert_eq!(journey.departure_time, 21600);
}

#[test]
fn walking_transfers_join_rides_in_travel_order() {
    let stops = vec![
        stop(1, "Stop A", 35.0, 139.0),
        stop(2, "Stop B", 35.001, 139.001),
        stop(3, "Stop C", 35.001, 139.0015),
        stop(4, "Stop D", 35.002, 139.002),
    ];
    let routes = vec![
        Route::new(1, "Route AB".to_string(), vec![1, 2], vec![600]),
        Route::new(2, "Route CD".to_string(), vec![3, 4], vec![300]),
    ];
    let transfers = vec![
        Transfer::new(2, 3, 120, 100.0f32.to_bits()),
        Transfer::new(3, 2, 120, 100.0f32.to_bits()),
    ];
    let raptor = BackwardRaptor::new(Network::new(stops, routes, transfers), 4);
    let journey = raptor.find_route(None, 4, 28800).unwrap();
    assert_eq!(journey.legs.len(), 3);
    assert!(matches!(journey.legs[0], JourneyLeg::Bus { from_stop: 1, to_stop: 2, departure_time: 27780, arrival_time: 28380, .. }));
    assert!(matches!(journey.legs[1], JourneyLeg::Walk { from_stop: 2, to_stop: 3, duration: 120 }));
    assert!(matches!(journey.legs[2], JourneyLeg::Bus { from_stop: 3, to_stop: 4, departure_time: 28500, arrival_time: 28800, .. }));
    assert_eq!(journey.num_transfers, 1);
    assert_eq!(journey.total_time, 1020);
    assert!(journey.is_valid());
}

#[test]
fn walks_of_no_time_both_ways_still_give_a_journey() {
    let stops = vec![
        stop(1, "Stop A", 35.0, 139.0),
        stop(2, "Stop B", 35.0, 139.0),
        stop(3, "Stop C", 35.01, 139.01),
    ];
    let routes = vec![Route::new(1, "Route BC".to_string(), vec![2, 3], vec![600])];
    let transfers = vec![
        Transfer::new(1, 2, 0, 0.0f32.to_bits()),
        Transfer::new(2, 1, 0, 0.0f32.to_bits()),
    ];
    let raptor = BackwardRaptor::new(Network::new(stops, routes, transfers), 3);
    let journey = raptor.find_route(Some(1), 3, 28800).unwrap();
    assert_eq!(journey.legs.len(), 2);
    assert!(matches!(journey.legs[0], JourneyLeg::Walk { from_stop: 1, to_stop: 2, duration: 0 }));
    assert!(matches!(journey.legs[1], JourneyLeg::Bus { from_stop: 2, to_stop: 3, departure_time: 28200, arrival_time: 28800, .. }));
    assert_eq!(journey.departure_time, 28200);
    assert_eq!(journey.num_transfers, 1);
    assert!(journey.is_valid());
}

#[test]
fn transfer_limit_is_ten() {
    assert_eq!(check_max_transfers(None), Ok(()));
    assert_eq!(check_max_transfers(Some(10)), Ok(()));
    assert_eq!(check_max_transfers(Some(11)), Err("Max transfers cannot exceed 10".to_string()));
}

#[test]
fn private_planner_joins_segments() {
    let planner = PrivateBusPlanner::new(line_network(), 5);
    let journey = planner.find_journey(vec![1, 2], "Stop C", 28800).unwrap();
    assert_eq!(journey.legs.len(), 2);
    assert!(matches!(
        journey.legs[0],
        JourneyLeg::Bus { from_stop: 1, to_stop: 2, departure_time: 27900, arrival_time: 28500, .. }
    ));
    assert!(matches!(
        journey.legs[1],
        JourneyLeg::Bus { from_stop: 2, to_stop: 3, departure_time: 28500, arrival_time: 28800, .. }
    ));
    assert_eq!(journey.departure_time, 27900);
    assert_eq!(journey.arrival_time, 28800);
    assert_eq!(journey.total_time, 900);
    assert_eq!(journey.num_transfers, 0);
    assert!(journey.is_valid());
}

#[test]
fn private_planner_segments_may_take_several_rides() {
    let planner = PrivateBusPlanner::new(line_network(), 5);
    let journey = planner.find_journey(vec![1], "Stop C", 28800).unwrap();
    assert_eq!(journey.legs.len(), 2);
    assert!(matches!(
        journey.legs[0],
        JourneyLeg::Bus { route_id: 1, from_stop: 1, to_stop: 2, departure_time: 27900, arrival_time: 28500 }
    ));
    assert!(matches!(
        journey.legs[1],
        JourneyLeg::Bus { route_id: 2, from_stop: 2, to_stop: 3, departure_time: 28500, arrival_time: 28800 }
    ));
    assert_eq!(journey.departure_time, 27900);
    assert_eq!(journey.total_time, 900);
    let one_ride = PrivateBusPlanner::new(line_network(), 1);
    assert_eq!(
        one_ride.find_journey(vec![1], "Stop C", 28800).unwrap_err(),
        "No route found from stop 1 to 3"
    );
}

#[test]
fn distinct_stop_ids_lead_back_to_their_index() {
    let network = line_network();
    for (i, s) in network.stops.iter().enumerate() {
        assert_eq!(network.get_stop_index(s.id), Some(i));
    }
    for (i, r) in network.routes.iter().enumerate() {
        assert_eq!(network.get_route_index(r.id), Some(i));
    }
    let stop_routes = network.get_routes_for_stop(2).unwrap();
    assert!(stop_routes.windows(2).all(|w| w[0] <= w[1]));
}

#[test]
fn private_planner_errors() {
    let planner = PrivateBusPlanner::new(line_network(), 5);
    assert_eq!(
        planner.find_journey(vec![], "Stop C", 28800).unwrap_err(),
        "At least one stop must be provided."
    );
    assert_eq!(
        planner.find_journey(vec![1], "Nowhere", 28800).unwrap_err(),
        "Destination 'Nowhere' not found."
    );
    assert_eq!(
        planner.find_journey(vec![3], "stop a", 28800).unwrap_err(),
        "No route found from stop 3 to 1"
    );
}

#[test]
fn stops_visited_start_at_origin_and_end_at_destination() {
    let journey = sample_journey();
    let visited = journey.get_stops_visited();
    assert_eq!(visited.len(), journey.legs.len() + 1);
    assert_eq!(Some(visited[0]), journey.get_origin_stop());
    assert_eq!(Some(*visited.last().unwrap()), journey.get_destination_stop());
}

#[test]
fn parsed_times_are_whole_minutes_of_a_day() {
    for text in ["00:00", "00:01", "09:30", "23:59", "7:05"] {
        let t = parse_time(text).unwrap();
        assert!(t < 86400);
        assert_eq!(t % 60, 0);
    }
}

#[test]
fn public_search_reads_its_settings() {
    let journey = plan_public(line_network(), "Stop C", "08:00", None, None).unwrap().unwrap();
    assert_eq!(journey.departure_time, 27900);
    assert_eq!(journey.legs.len(), 2);
    assert_eq!(journey.arrival_time, 28800);
    let by_id = plan_public(line_network(), "3", "08:00", None, None).unwrap().unwrap();
    assert_eq!(by_id.departure_time, 27900);
    let one_ride = plan_public(line_network(), "Stop C", "08:00", Some(0), None).unwrap().unwrap();
    assert_eq!(one_ride.departure_time, 28500);
    assert_eq!(one_ride.legs.len(), 1);
    let short_delay = plan_public(line_network(), "Stop C", "08:00", None, Some(5)).unwrap().unwrap();
    assert_eq!(short_delay.departure_time, 28500);
    assert_eq!(
        plan_public(line_network(), "Nowhere", "08:00", None, None).unwrap_err(),
        "Stop 'Nowhere' not found"
    );
    assert_eq!(
        plan_public(line_network(), "Stop C", "25:00", None, None).unwrap_err(),
        parse_time("25:00").unwrap_err()
    );
    assert!(plan_public(line_network(), "Stop A", "08:00", None, None).unwrap().is_none());
}

#[test]
fn private_planner_names_the_segment_that_failed() {
    let planner = PrivateBusPlanner::new(line_network(), 5);
    assert_eq!(
        planner.find_journey(vec![3, 2], "Stop C", 28800).unwrap_err(),
        "No route found from stop 3 to 2"
    );
    assert_eq!(
        planner.find_journey(vec![2, 3], "Stop A", 28800).unwrap_err(),
        "No route found from stop 3 to 1"
    );
}
