use lib::data::{Config, ContainerRequest, Truck, ROUTE_DEPOT_LOAD_20};
use lib::format::config_from_numbers;
use lib::solver::{solve, solve_for_truck, AllKnownOptions, KnownRoutesForTruck, MergeSummary, Route, SearchState};

/// One request node (1), one fuel station (2), the depot (0); the request delivers an
/// empty 20 foot container, which the truck has to load at the depot first.
fn small_config(trucks: Vec<Truck>, latest: u32) -> Config {
    // nodes 0, 1, 2; the dummy depot is 3
    let distances = vec![0, 10, 5, 10, 0, 5, 5, 5, 0];
    let times = vec![0, 10, 5, 10, 0, 5, 5, 5, 0];
    let requests = vec![ContainerRequest { full_20: 0, empty_20: -1, full_40: 0, empty_40: 0 }];
    Config::new(0, 0, 1, 0, trucks, distances, times, 2, vec![5], vec![0], vec![latest], requests)
}

fn one_truck() -> Vec<Truck> {
    vec![Truck::new(1, 0, 100)]
}

#[test]
fn truck_new_stores_fuel_in_hundredths() {
    let truck = Truck::new(2, 0, 100);
    assert_eq!(truck.get_fuel(), 10000);
    assert_eq!(truck.get_num_20_foot_containers(), 2);
    assert_eq!(truck.get_num_40_foot_containers(), 0);
}

#[test]
fn refueling_minutes_round_up() {
    let truck = Truck::new(1, 0, 100);
    assert_eq!(truck.get_minutes_for_refueling(10000), 0);
    assert_eq!(truck.get_minutes_for_refueling(9990), 1);
    assert_eq!(truck.get_minutes_for_refueling(9995), 1);
    assert_eq!(truck.get_minutes_for_refueling(9775), 23);
    assert_eq!(truck.get_minutes_for_refueling(0), 1000);
}

#[test]
fn truck_order_is_lexicographic() {
    let a = Truck::new(0, 1, 50);
    let b = Truck::new(1, 0, 10);
    let c = Truck::new(1, 0, 20);
    assert!(a.le(&b));
    assert!(!b.le(&a));
    assert!(b.le(&c));
    assert!(c.le(&c));
    assert!(a < b && b < c);
}

#[test]
fn config_sorts_trucks() {
    let trucks = vec![Truck::new(1, 0, 50), Truck::new(0, 1, 20), Truck::new(1, 0, 10)];
    let config = small_config(trucks, 1000);
    assert_eq!(config.get_num_trucks(), 3);
    assert_eq!(config.get_truck(0).get_num_20_foot_containers(), 0);
    assert_eq!(config.get_truck(1).get_fuel(), 1000);
    assert_eq!(config.get_truck(2).get_fuel(), 5000);
}

#[test]
fn config_node_layout() {
    let config = Config::new(
        2,
        1,
        1,
        3,
        one_truck(),
        vec![],
        vec![],
        4,
        vec![],
        vec![],
        vec![],
        vec![],
    );
    assert_eq!(config.get_first_afs(), 7);
    assert_eq!(config.get_dummy_depot(), 11);
    assert_eq!(config.get_first_full_dropoff(), 4);
    assert_eq!(config.get_first_empty_dropoff(), 6);
    assert_eq!(config.get_pick_node_for_full_dropoff(4), 1);
    assert_eq!(config.get_pick_node_for_full_dropoff(5), 2);
    assert_eq!(config.get_full_pickup(), 2);
    assert_eq!(config.get_empty_pickup(), 1);
    assert_eq!(config.get_empty_delivery(), 1);
    assert_eq!(config.get_afs(), 3);
    assert_eq!(config.get_depot_service_time(), 4);
    assert_eq!(config.get_t_max(), u32::MAX);
    assert!(!config.is_well_formed());
}

#[test]
fn config_lookups() {
    let config = small_config(one_truck(), 1000);
    assert!(config.is_well_formed());
    assert_eq!(config.get_distance_between(0, 1), 10);
    assert_eq!(config.get_distance_between(1, 2), 5);
    assert_eq!(config.get_time_between(2, 0), 5);
    assert_eq!(config.fuel_needed_for_route(0, 1), 450);
    assert_eq!(config.get_service_time_at_request_node(1), 5);
    assert_eq!(config.get_earliest_visiting_time_at_request_node(1), 0);
    assert_eq!(config.get_latest_visiting_time_at_request_node(1), 1000);
    assert_eq!(config.get_request_at_node(1).empty_20, -1);
    let limited = config.with_t_max(30);
    assert_eq!(limited.get_t_max(), 30);
    assert_eq!(limited.get_distance_between(0, 1), 10);
}

#[test]
fn config_rejects_unsearchable_data() {
    // a truck for three containers
    let config = small_config(vec![Truck::new(2, 1, 100)], 1000);
    assert!(!config.is_well_formed());
    // a matrix that is too small
    let config = Config::new(
        0,
        0,
        1,
        0,
        one_truck(),
        vec![0, 1],
        vec![0, 1],
        2,
        vec![5],
        vec![0],
        vec![10],
        vec![ContainerRequest { full_20: 0, empty_20: -1, full_40: 0, empty_40: 0 }],
    );
    assert!(!config.is_well_formed());
    // no request at all
    let config = Config::new(0, 0, 0, 0, one_truck(), vec![0; 4], vec![0; 4], 2, vec![], vec![], vec![], vec![]);
    assert!(!config.is_well_formed());
}

#[test]
fn start_state_is_at_the_depot() {
    let config = small_config(one_truck(), 1000);
    let truck = config.get_truck(0);
    let state = SearchState::start_state(&config, truck);
    assert_eq!(state.get_current_node(), 0);
    assert!(!state.is_carrying_full_container());
    assert!(!state.get_request_visited(1));
    // one path leaves after loading the empty container, one without; both cover no distance
    assert_eq!(state.get_best_path_index_and_total_distance(), (0, 0));
}

#[test]
fn container_options_at_a_delivery_need_the_container_on_board() {
    let config = small_config(one_truck(), 1000);
    let truck = config.get_truck(0);
    let state = SearchState::start_state(&config, truck);
    // only the start option that loaded the empty container can deliver it
    let options = state.get_container_options_at_node(&config, truck, 1);
    assert_eq!(options.len(), 1);
    assert!(options[0].comparable_to(&options[0]));
    assert!(options[0].at_least_as_good_as(&options[0]));
    assert!(!options[0].partially_superior_to(&options[0]));
    assert!(!options[0].comparable_and_completely_superior_to(&options[0]));
}

#[test]
fn route_to_the_request_and_back() {
    let config = small_config(one_truck(), 1000);
    let truck = config.get_truck(0);
    let root = SearchState::start_state(&config, truck);
    let options = root.get_container_options_at_node(&config, truck, 1);
    let at_request = SearchState::route_to_node(&config, truck, &root, 1, options).unwrap();
    assert_eq!(at_request.get_current_node(), 1);
    assert!(at_request.get_request_visited(1));
    assert_eq!(at_request.get_best_path_index_and_total_distance(), (0, 10));
    // the request was served: it offers nothing more
    assert_eq!(at_request.get_container_options_at_node(&config, truck, 1).len(), 0);
    // at the depot the empty 20 foot container can be loaded again
    let depot = at_request.get_depot_visit_options(&config, truck);
    assert_eq!(depot.len(), 1);
    let back = SearchState::route_to_node(&config, truck, &at_request, 0, depot).unwrap();
    assert_eq!(back.get_current_node(), 0);
    assert_eq!(back.get_best_path_index_and_total_distance(), (0, 20));
}

#[test]
fn late_request_cannot_be_reached() {
    // the request must be served by minute 5, but it is 10 minutes away
    let config = small_config(one_truck(), 5);
    let truck = config.get_truck(0);
    let root = SearchState::start_state(&config, truck);
    let options = root.get_container_options_at_node(&config, truck, 1);
    assert!(SearchState::route_to_node(&config, truck, &root, 1, options).is_none());
}

#[test]
fn time_limit_cuts_routes() {
    let config = small_config(one_truck(), 1000).with_t_max(16);
    let truck = config.get_truck(0);
    let root = SearchState::start_state(&config, truck);
    let options = root.get_container_options_at_node(&config, truck, 1);
    assert!(SearchState::route_to_node(&config, truck, &root, 1, options).is_none());
}

#[test]
fn empty_route_is_always_known() {
    let config = small_config(one_truck(), 5);
    let known = solve_for_truck(&config, 0);
    let mut all = AllKnownOptions::new(false);
    all.inital_merge(&known);
    // the only request cannot be served, so no solution exists
    let solution = all.get_solution(config, 7);
    assert_eq!(solution.get_routes().len(), 0);
    assert_eq!(solution.get_total_distance(), 0);
    assert_eq!(solution.get_seconds_taken(), 7);
}

#[test]
fn solve_small_instance() {
    let config = small_config(one_truck(), 1000);
    let all = solve(&config, false);
    let solution = all.get_solution(config, 3);
    // depot, load the empty container, request, back to the (dummy) depot
    assert_eq!(solution.get_routes(), &vec![vec![0, ROUTE_DEPOT_LOAD_20, 1, 3]]);
    assert_eq!(solution.get_total_distance(), 20);
    assert_eq!(solution.get_seconds_taken(), 3);
}

#[test]
fn two_equal_trucks_share_the_work() {
    let config = small_config(vec![Truck::new(1, 0, 100), Truck::new(1, 0, 100)], 1000);
    let all = solve(&config, false);
    let solution = all.get_solution(config, 0);
    assert_eq!(solution.get_total_distance(), 20);
    let routes = solution.get_routes();
    assert_eq!(routes.len(), 2);
    let served = vec![0, ROUTE_DEPOT_LOAD_20, 1, 3];
    assert!(
        (routes[0] == served && routes[1] == vec![0]) || (routes[0] == vec![0] && routes[1] == served)
    );
}

#[test]
fn known_routes_keep_the_best() {
    let config = small_config(one_truck(), 1000);
    let truck = config.get_truck(0);
    let root = SearchState::start_state(&config, truck);
    let mut known = KnownRoutesForTruck::new();
    known.possibly_add(&root);
    known.possibly_add(&root);
    let mut all = AllKnownOptions::new(false);
    all.inital_merge(&known);
    let mut other = KnownRoutesForTruck::new();
    other.possibly_add(&root);
    all.subsequent_merge(&other);
    // two empty routes combine to the empty combination; no request is served
    let solution = all.get_solution(config, 0);
    assert_eq!(solution.get_routes().len(), 0);
}

/// A full 20 foot container to take from request node 1 to request node 2; node 3 is a
/// fuel station.
fn full_config() -> Config {
    let distances = vec![0, 10, 10, 5, 10, 0, 10, 5, 10, 10, 0, 5, 5, 5, 5, 0];
    let requests = vec![
        ContainerRequest { full_20: 1, empty_20: 0, full_40: 0, empty_40: 0 },
        ContainerRequest { full_20: -1, empty_20: 0, full_40: 0, empty_40: 0 },
    ];
    Config::new(
        1,
        0,
        0,
        0,
        one_truck(),
        distances.clone(),
        distances,
        2,
        vec![5, 5],
        vec![0, 0],
        vec![1000, 1000],
        requests,
    )
}

fn count_node(routes: &Vec<Vec<u8>>, node: u8) -> usize {
    routes.iter().map(|r| r.iter().filter(|&&n| n == node).count()).sum()
}

#[test]
fn a_route_cannot_end_with_a_full_container() {
    let config = full_config();
    assert!(config.is_well_formed());
    let truck = config.get_truck(0);
    let root = SearchState::start_state(&config, truck);
    let options = root.get_container_options_at_node(&config, truck, 1);
    assert!(!options.is_empty());
    let loaded = SearchState::route_to_node(&config, truck, &root, 1, options).unwrap();
    assert!(loaded.is_carrying_full_container());
    let mut known = KnownRoutesForTruck::new();
    known.possibly_add(&loaded);
    assert_eq!(known.num_routes(), 0);
    assert_eq!(known.get_valid_insertions(), 0);
    known.possibly_add(&root);
    assert_eq!(known.num_routes(), 1);
    assert_eq!(known.get_valid_insertions(), 1);
}

#[test]
fn full_container_is_delivered_once() {
    let config = full_config();
    let all = solve(&config, false);
    let solution = all.get_solution(config, 0);
    let routes = solution.get_routes();
    assert_eq!(routes.len(), 1);
    assert_eq!(solution.get_total_distance(), 30);
    assert_eq!(count_node(routes, 1), 1);
    assert_eq!(count_node(routes, 2), 1);
    // the pickup comes before the dropoff, and the route ends at the dummy depot
    let route = &routes[0];
    let pickup = route.iter().position(|&n| n == 1).unwrap();
    let dropoff = route.iter().position(|&n| n == 2).unwrap();
    assert!(pickup < dropoff);
    assert_eq!(route[0], 0);
    assert_eq!(*route.last().unwrap(), 4);
}

#[test]
fn every_combination_has_a_route_per_truck() {
    let config = small_config(vec![Truck::new(1, 0, 100), Truck::new(0, 1, 100), Truck::new(1, 0, 100)], 1000);
    let all = solve(&config, false);
    // the empty combination and the one serving the request
    assert_eq!(all.num_options(), 2);
    let solution = all.get_solution(config, 0);
    assert_eq!(solution.get_routes().len(), 3);
    assert_eq!(count_node(solution.get_routes(), 1), 1);
    assert_eq!(solution.get_total_distance(), 20);
}

#[test]
fn known_routes_count_offers() {
    let config = small_config(one_truck(), 1000);
    let known = solve_for_truck(&config, 0);
    // the empty route and the route that serves the request
    assert_eq!(known.num_routes(), 2);
    assert!(known.get_valid_insertions() >= 2);
}

#[test]
fn two_fuel_stops_in_a_row_are_not_searched() {
    // depot 0, request 1, fuel stations 2 and 3, node 4 far away; the tank holds enough for
    // two units of distance, so the request is reachable only through both stations in a
    // row, and the search tries at most one station between two request nodes or the depot
    let far = 100;
    let mut distances = vec![far; 25];
    for node in 0..5 {
        distances[node * 5 + node] = 0;
    }
    for (a, b) in [(0, 2), (2, 3), (3, 1)] {
        distances[a * 5 + b] = 2;
        distances[b * 5 + a] = 2;
    }
    let requests = vec![ContainerRequest { full_20: 0, empty_20: -1, full_40: 0, empty_40: 0 }];
    let config = Config::new(
        0,
        0,
        1,
        2,
        vec![Truck::new(1, 0, 1)],
        distances.clone(),
        distances,
        2,
        vec![5],
        vec![0],
        vec![1000],
        requests,
    );
    assert!(config.is_well_formed());
    let all = solve(&config, false);
    let solution = all.get_solution(config, 0);
    assert_eq!(solution.get_routes().len(), 0);
    assert_eq!(solution.get_total_distance(), 0);
}

#[test]
fn full_dropoffs_pair_with_their_pickups() {
    // two full pickups, one empty pickup, three empty deliveries
    let config = Config::new(2, 1, 3, 0, one_truck(), vec![], vec![], 0, vec![], vec![], vec![], vec![]);
    assert_eq!(config.get_first_full_dropoff(), 4);
    assert_eq!(config.get_first_empty_dropoff(), 6);
    assert_eq!(config.get_pick_node_for_full_dropoff(config.get_first_full_dropoff()), 1);
    assert_eq!(config.get_pick_node_for_full_dropoff(config.get_first_full_dropoff() + 1), 2);
    assert_eq!(config.get_first_afs(), 9);
}

#[test]
fn a_depot_visit_offers_every_new_load() {
    // a truck for one 20 and one 40 foot container delivers an empty 20 foot container
    let config = small_config(vec![Truck::new(1, 1, 100)], 1000);
    let truck = config.get_truck(0);
    let root = SearchState::start_state(&config, truck);
    let options = root.get_container_options_at_node(&config, truck, 1);
    // the start loads with an empty 20 foot container: (1, 0) and (1, 1)
    assert_eq!(options.len(), 2);
    let at_request = SearchState::route_to_node(&config, truck, &root, 1, options).unwrap();
    // on board now: nothing, or one empty 40; at the depot the loads (1, 0) and (1, 1) are new
    let depot = at_request.get_depot_visit_options(&config, truck);
    let loads: Vec<(i8, i8)> = depot.iter().map(|o| (o.get_empty_20(), o.get_empty_40())).collect();
    assert!(loads.contains(&(1, 0)));
    assert!(loads.contains(&(1, 1)));
    assert!(loads.iter().all(|&l| l == (1, 0) || l == (1, 1)));
}

#[test]
fn container_options_need_no_matrices() {
    let z = || ContainerRequest { full_20: 0, empty_20: 0, full_40: 0, empty_40: 0 };
    let requests = vec![z(), z(), z(), ContainerRequest { full_20: 0, empty_20: 0, full_40: 0, empty_40: -1 }];
    let config = Config::new(1, 1, 1, 0, vec![Truck::new(1, 1, 1)], vec![], vec![], 0, vec![], vec![], vec![], requests);
    let truck = Truck::new(1, 1, 1);
    let root = SearchState::start_state(&config, &truck);
    assert_eq!(root.get_current_node(), 0);
    // node 4 is the empty delivery: it takes an empty 40 foot container off the truck
    let options = root.get_container_options_at_node(&config, &truck, 4);
    assert_eq!(options.len(), 2);
    assert_eq!((options[0].get_empty_20(), options[0].get_empty_40()), (0, 0));
    assert_eq!((options[1].get_empty_20(), options[1].get_empty_40()), (1, 0));
}

#[test]
fn full_containers_are_tracked() {
    let config = full_config();
    let truck = config.get_truck(0);
    let root = SearchState::start_state(&config, truck);
    // the pickup has a free slot; the dropoff's container is not on board yet
    assert!(root.can_track_containers_at(&config, 1));
    assert!(!root.can_track_containers_at(&config, 2));
    let options = root.get_container_options_at_node(&config, truck, 1);
    let loaded = SearchState::route_to_node(&config, truck, &root, 1, options).unwrap();
    assert!(loaded.can_track_containers_at(&config, 2));
}

#[test]
fn a_route_from_the_start_state_is_the_depot() {
    let config = Config::new(1, 1, 1, 0, vec![Truck::new(1, 1, 1)], vec![], vec![], 0, vec![], vec![], vec![], vec![]);
    let root = SearchState::start_state(&config, config.get_truck(0));
    let route = Route::new(&root, 0, 42);
    assert_eq!(route.get_path(), &vec![0u8]);
    assert_eq!(route.get_total_distance(), 42);
}

#[test]
fn verbose_merges_are_summarised() {
    let config = small_config(vec![Truck::new(1, 0, 100), Truck::new(1, 0, 100)], 1000);
    let known = solve_for_truck(&config, 0);
    // the empty route and the route that serves request 1
    assert_eq!(known.num_routes(), 2);
    let mut all = AllKnownOptions::new(true);
    assert!(all.is_verbose());
    assert_eq!(all.get_num_compatible_combinations(), 0);
    all.inital_merge(&known);
    assert_eq!(all.get_merge_summaries().len(), 0);
    all.subsequent_merge(&known);
    // of the four pairs, only the two routes that both serve request 1 conflict
    assert_eq!(all.get_num_compatible_combinations(), 3);
    assert_eq!(
        all.get_merge_summaries(),
        &vec![MergeSummary { previous_options: 2, truck_options: 2, options: 2, compatible_combinations: 3 }]
    );
    let quiet = solve(&config, false);
    assert!(!quiet.is_verbose());
    assert_eq!(quiet.get_merge_summaries().len(), 0);
    let loud = solve(&config, true);
    assert_eq!(loud.get_merge_summaries().len(), 1);
    assert_eq!(loud.get_num_compatible_combinations(), 3);
}

/// The numbers of `small_config(one_truck(), 1000)` in the instance format.
fn small_numbers() -> Vec<i64> {
    let mut numbers = vec![1, 1, 0, 100];
    numbers.extend_from_slice(&[0, 10, 5, 10, 0, 5, 5, 5, 0]);
    numbers.extend_from_slice(&[0, 10, 5, 10, 0, 5, 5, 5, 0]);
    numbers.extend_from_slice(&[2, 5, 0, 1000]);
    numbers.extend_from_slice(&[0, -1, 0, 0]);
    numbers
}

#[test]
fn instance_from_numbers() {
    let config = config_from_numbers(0, 0, 1, 0, &small_numbers()).unwrap();
    assert!(config.is_well_formed());
    assert_eq!(config.get_num_trucks(), 1);
    assert_eq!(config.get_truck(0).get_fuel(), 10000);
    assert_eq!(config.get_distance_between(0, 1), 10);
    assert_eq!(config.get_time_between(2, 0), 5);
    assert_eq!(config.get_depot_service_time(), 2);
    assert_eq!(config.get_latest_visiting_time_at_request_node(1), 1000);
    assert_eq!(config.get_request_at_node(1).empty_20, -1);
    assert_eq!(config.get_t_max(), u32::MAX);
    let solution = solve(&config, false).get_solution(config, 0);
    assert_eq!(solution.get_total_distance(), 20);
    // one more number is the time limit
    let mut limited = small_numbers();
    limited.push(30);
    assert_eq!(config_from_numbers(0, 0, 1, 0, &limited).unwrap().get_t_max(), 30);
}

#[test]
fn instance_from_bad_numbers() {
    let mut short = small_numbers();
    short.pop();
    assert!(config_from_numbers(0, 0, 1, 0, &short).is_none());
    let mut negative_distance = small_numbers();
    negative_distance[5] = -10;
    assert!(config_from_numbers(0, 0, 1, 0, &negative_distance).is_none());
    let mut huge_fuel = small_numbers();
    huge_fuel[3] = 50_000_000;
    assert!(config_from_numbers(0, 0, 1, 0, &huge_fuel).is_none());
    let mut negative_limit = small_numbers();
    negative_limit.push(-1);
    assert!(config_from_numbers(0, 0, 1, 0, &negative_limit).is_none());
    assert!(config_from_numbers(0, 0, 1, 0, &vec![]).is_none());
    assert!(config_from_numbers(0, 0, 1, 0, &vec![-1]).is_none());
}

#[test]
fn depot_offers_only_new_loads() {
    let config = small_config(one_truck(), 1000);
    let truck = config.get_truck(0);
    let root = SearchState::start_state(&config, truck);
    // the start state has both loads of the truck already: nothing new at the depot
    assert_eq!(root.get_depot_visit_options(&config, truck).len(), 0);
    let options = root.get_container_options_at_node(&config, truck, 1);
    assert_eq!(options[0].get_empty_20(), 0);
    let at_request = SearchState::route_to_node(&config, truck, &root, 1, options).unwrap();
    // after the delivery the truck is empty; loading one empty container is the new load
    let depot = at_request.get_depot_visit_options(&config, truck);
    assert_eq!(depot.len(), 1);
    assert_eq!(depot[0].get_empty_20(), 1);
    assert_eq!(depot[0].get_empty_40(), 0);
}
