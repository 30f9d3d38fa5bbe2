use vstd::prelude::*;

verus! {

/// Fuel is stored in hundredths of a litre; a kilometre costs 0.45 l.
pub const FUEL_CONSUMPTION_PER_KM: u32 = 45;

/// Largest matrix dimension: node numbers and the markers below must fit in a `u8`.
pub const MAX_MATRIX_DIMENSION: usize = 250;

/// Route marker: refuelling at the depot.
pub const ROUTE_DEPOT_REFUEL: u8 = 255;

/// Route marker: an empty 20 foot container is loaded at the depot.
pub const ROUTE_DEPOT_LOAD_20: u8 = 254;

/// Route marker: an empty 20 foot container is unloaded at the depot.
pub const ROUTE_DEPOT_DELOAD_20: u8 = 253;

/// Route marker: an empty 40 foot container is loaded at the depot.
pub const ROUTE_DEPOT_LOAD_40: u8 = 252;

/// Route marker: an empty 40 foot container is unloaded at the depot.
pub const ROUTE_DEPOT_DELOAD_40: u8 = 251;

#[derive(PartialEq, Eq, PartialOrd, Ord, Structural)]
pub struct Truck {
    num_20_foot_containers: i32,
    num_40_foot_containers: i32,
    /// in 0.01 l, so that the consumption of 0.45 l/km and the refuel rate of 10 l/min stay integral
    fuel: u32,
}

/// The lexicographic order of the fields, which is the order that `derive(Ord)` gives.
pub open spec fn truck_le(a: Truck, b: Truck) -> bool {
    a.num_20() < b.num_20() || (a.num_20() == b.num_20() && (a.num_40() < b.num_40() || (
    a.num_40() == b.num_40() && a.fuel_capacity() <= b.fuel_capacity())))
}

pub open spec fn trucks_sorted(s: Seq<Truck>) -> bool {
    forall|i: int, j: int| 0 <= i < j < s.len() ==> truck_le(#[trigger] s[i], #[trigger] s[j])
}

impl Truck {
    pub closed spec fn num_20(self) -> int {
        self.num_20_foot_containers as int
    }

    pub closed spec fn num_40(self) -> int {
        self.num_40_foot_containers as int
    }

    /// The tank's capacity in hundredths of a litre.
    pub closed spec fn fuel_capacity(self) -> nat {
        self.fuel as nat
    }

    /// The capacities that the search can represent: at most two containers in all,
    /// so that one depot visit moves at most two of them.
    pub open spec fn wf(self) -> bool {
        &&& 0 <= self.num_20()
        &&& 0 <= self.num_40()
        &&& self.num_20() + self.num_40() <= 2
    }

    /// The capacity is held in a `u32`.
    pub proof fn lemma_capacity_fits(self)
        ensures
            self.fuel_capacity() <= u32::MAX,
    {
    }

    /// `fuel` is given in litres.
    pub fn new(num_20_foot_containers: i32, num_40_foot_containers: i32, fuel: u32) -> (t: Truck)
        requires
            fuel * 100 <= u32::MAX,
        ensures
            t.num_20() == num_20_foot_containers,
            t.num_40() == num_40_foot_containers,
            t.fuel_capacity() == fuel * 100,
    {
        return Truck { num_20_foot_containers, num_40_foot_containers, fuel: fuel * 100 };
    }

    pub fn get_num_20_foot_containers(&self) -> (r: i32)
        ensures
            r == self.num_20(),
    {
        return self.num_20_foot_containers;
    }

    pub fn get_num_40_foot_containers(&self) -> (r: i32)
        ensures
            r == self.num_40(),
    {
        return self.num_40_foot_containers;
    }

    pub fn get_fuel(&self) -> (r: u32)
        ensures
            r == self.fuel_capacity(),
    {
        return self.fuel;
    }

    /// Whole minutes needed to fill the tank from `old_fuel`: the missing amount divided
    /// by ten, rounded up.
    pub fn get_minutes_for_refueling(&self, old_fuel: u32) -> (r: u32)
        requires
            old_fuel <= self.fuel_capacity(),
        ensures
            r == refuel_minutes(self.fuel_capacity() - old_fuel),
    {
        let fuel_needed = self.fuel - old_fuel;
        let minutes_needed_at_least = fuel_needed / 10;
        if minutes_needed_at_least * 10 == fuel_needed {
            return minutes_needed_at_least;
        } else {
            return minutes_needed_at_least + 1;
        }
    }

    /// Whether `self` comes no later than `other` in the order of `derive(Ord)`.
    pub fn le(&self, other: &Truck) -> (r: bool)
        ensures
            r == truck_le(*self, *other),
    {
        self.num_20_foot_containers < other.num_20_foot_containers || (self.num_20_foot_containers
            == other.num_20_foot_containers && (self.num_40_foot_containers
            < other.num_40_foot_containers || (self.num_40_foot_containers
            == other.num_40_foot_containers && self.fuel <= other.fuel)))
    }
}

/// Minutes to refuel `missing` units: a tenth of them, rounded up.
pub open spec fn refuel_minutes(missing: int) -> int {
    (missing + 9) / 10
}

/// Sorts the trucks into the order of `derive(Ord)` by insertion.
pub fn sort_trucks(trucks: Vec<Truck>) -> (sorted: Vec<Truck>)
    ensures
        trucks_sorted(sorted@),
        sorted@.to_multiset() == trucks@.to_multiset(),
{
    broadcast use vstd::seq_lib::group_to_multiset_ensures;

    let ghost given = trucks@;
    let mut rest = trucks;
    let mut sorted: Vec<Truck> = Vec::new();
    while rest.len() > 0
        invariant
            trucks_sorted(sorted@),
            sorted@.to_multiset().add(rest@.to_multiset()) == given.to_multiset(),
        decreases rest.len(),
    {
        let ghost rest_before = rest@;
        let t = rest.pop().unwrap();
        assert(rest_before == rest@.push(t));
        let mut i: usize = 0;
        while i < sorted.len() && sorted[i].le(&t)
            invariant
                i <= sorted.len(),
                forall|k: int| 0 <= k < i ==> truck_le(#[trigger] sorted@[k], t),
            decreases sorted.len() - i,
        {
            i = i + 1;
        }
        let ghost before = sorted@;
        sorted.insert(i, t);
        proof {
            vstd::seq_lib::to_multiset_insert(before, i as int, t);
            vstd::seq_lib::to_multiset_build(rest@, t);
            assert(sorted@.to_multiset().add(rest@.to_multiset()) =~= before.to_multiset().add(
                rest_before.to_multiset(),
            ));
            assert forall|a: int, b: int| 0 <= a < b < sorted@.len() implies truck_le(
                #[trigger] sorted@[a],
                #[trigger] sorted@[b],
            ) by {
                if i < before.len() {
                    assert(!truck_le(before[i as int], t));
                }
                if a < i && b > i {
                    assert(truck_le(before[a], t));
                    assert(sorted@[b] == before[b - 1]);
                }
                if a == i && b > i {
                    assert(sorted@[b] == before[b - 1]);
                    assert(truck_le(before[i as int], before[b - 1]) || b - 1 == i);
                }
            }
        }
    }
    assert(rest@ =~= Seq::<Truck>::empty());
    sorted
}

/// The containers a request node adds to the truck's load (picked up, positive) or takes
/// from it (delivered, negative), by kind and size.
pub struct ContainerRequest {
    pub full_20: i32,
    pub empty_20: i32,
    pub full_40: i32,
    pub empty_40: i32,
}

/// An instance. Node 0 is the depot and the request nodes `1..first_afs()` follow: the full
/// pickups, the empty pickups, the full dropoffs from `first_full_dropoff()` on (in the order
/// of their pickups) and the empty deliveries from `first_empty_dropoff()` on; then come the
/// fuel stations (AFS). The matrices are indexed `from * dimension + to`.
pub struct Config {
    full_pickup: usize,
    empty_pickup: usize,
    empty_delivery: usize,
    afs: usize,
    trucks: Vec<Truck>,
    /// in km
    distance_matrix: Vec<u32>,
    /// in minutes
    time_matrix: Vec<u32>,
    /// in minutes, per container moved at the depot
    depot_service_time: u32,
    /// in minutes, per request node (index node - 1)
    service_times: Vec<u32>,
    /// in minutes
    earliest_visiting_times: Vec<u32>,
    /// in minutes
    latest_visiting_times: Vec<u32>,
    matrix_dimension: usize,
    /// latest time at which any node may be reached, in minutes
    t_max: u32,
    requests: Vec<ContainerRequest>,
}

impl Config {
    #[verifier::type_invariant]
    spec fn dimension_matches(self) -> bool {
        self.matrix_dimension == 2 * self.full_pickup + self.empty_pickup + self.empty_delivery
            + self.afs + 2
    }

    pub closed spec fn full_pickups(self) -> nat {
        self.full_pickup as nat
    }

    pub closed spec fn empty_pickups(self) -> nat {
        self.empty_pickup as nat
    }

    pub closed spec fn empty_deliveries(self) -> nat {
        self.empty_delivery as nat
    }

    pub closed spec fn afs_count(self) -> nat {
        self.afs as nat
    }

    pub closed spec fn trucks(self) -> Seq<Truck> {
        self.trucks@
    }

    pub closed spec fn distances(self) -> Seq<u32> {
        self.distance_matrix@
    }

    pub closed spec fn times(self) -> Seq<u32> {
        self.time_matrix@
    }

    pub closed spec fn depot_service(self) -> nat {
        self.depot_service_time as nat
    }

    pub closed spec fn service_times(self) -> Seq<u32> {
        self.service_times@
    }

    pub closed spec fn earliest_times(self) -> Seq<u32> {
        self.earliest_visiting_times@
    }

    pub closed spec fn latest_times(self) -> Seq<u32> {
        self.latest_visiting_times@
    }

    pub closed spec fn dimension(self) -> nat {
        (2 * self.full_pickup + self.empty_pickup + self.empty_delivery + self.afs + 2) as nat
    }

    pub closed spec fn time_limit(self) -> nat {
        self.t_max as nat
    }

    /// The matrices have a row for the depot and one for the dummy depot at least, and the
    /// dummy depot comes after every request node.
    pub proof fn lemma_dimension_positive(self)
        ensures
            self.dimension() >= 2,
            self.first_afs() >= 1,
            self.first_afs() < self.dimension(),
    {
    }

    /// The time limit is held in a `u32`.
    pub proof fn lemma_time_limit_fits(self)
        ensures
            self.time_limit() <= u32::MAX,
    {
    }

    pub closed spec fn requests(self) -> Seq<ContainerRequest> {
        self.requests@
    }

    /// The first AFS node; the request nodes are `1..first_afs()`.
    pub open spec fn first_afs(self) -> int {
        (2 * self.full_pickups() + self.empty_pickups() + self.empty_deliveries() + 1) as int
    }

    /// The full dropoffs follow the full and the empty pickups, so that the dropoff
    /// `first_full_dropoff() + k` delivers what pickup `k + 1` picked up.
    pub open spec fn first_full_dropoff(self) -> int {
        (self.full_pickups() + self.empty_pickups() + 1) as int
    }

    pub open spec fn first_empty_dropoff(self) -> int {
        self.first_full_dropoff() + self.full_pickups()
    }

    pub open spec fn distance(self, from: int, to: int) -> int {
        self.distances()[from * self.dimension() + to] as int
    }

    pub open spec fn travel_time(self, from: int, to: int) -> int {
        self.times()[from * self.dimension() + to] as int
    }

    /// What the search needs of the data: at most 63 requests (one bit each in a `u64`),
    /// nodes that fit in a `u8` beside the route markers, full matrices, one entry per
    /// request node in each table, fuel needs that fit in a `u32`, trucks of at most two
    /// containers, a full dropoff node for each full pickup node after the empty pickups,
    /// a number of trucks whose summed distances fit in a `u64`, and a service time for two
    /// containers at the depot that fits in a `u32`.
    pub open spec fn wf(self) -> bool {
        &&& self.dimension() == self.first_afs() + self.afs_count() + 1
        &&& self.dimension() <= MAX_MATRIX_DIMENSION
        &&& 2 <= self.first_afs() <= 64
        &&& self.distances().len() >= self.dimension() * self.dimension()
        &&& self.times().len() >= self.dimension() * self.dimension()
        &&& forall|i: int|
            0 <= i < self.distances().len() ==> #[trigger] self.distances()[i]
                * FUEL_CONSUMPTION_PER_KM <= u32::MAX
        &&& self.service_times().len() >= self.first_afs() - 1
        &&& self.earliest_times().len() >= self.first_afs() - 1
        &&& self.latest_times().len() >= self.first_afs() - 1
        &&& self.requests().len() >= self.first_afs() - 1
        &&& forall|i: int| 0 <= i < self.trucks().len() ==> (#[trigger] self.trucks()[i]).wf()
        &&& self.trucks().len() < u32::MAX
        &&& 2 * self.depot_service() <= u32::MAX
    }

    /// Builds the configuration; the trucks are sorted into the order of `derive(Ord)`
    /// and there is no time limit (see `with_t_max`).
    pub fn new(
        full_pickup: usize,
        empty_pickup: usize,
        empty_delivery: usize,
        afs: usize,
        trucks: Vec<Truck>,
        distance_matrix: Vec<u32>,
        time_matrix: Vec<u32>,
        depot_service_time: u32,
        service_times: Vec<u32>,
        earliest_visiting_times: Vec<u32>,
        latest_visiting_times: Vec<u32>,
        requests: Vec<ContainerRequest>,
    ) -> (c: Config)
        requires
            2 * full_pickup + empty_pickup + empty_delivery + afs + 2 <= usize::MAX,
        ensures
            c.full_pickups() == full_pickup,
            c.empty_pickups() == empty_pickup,
            c.empty_deliveries() == empty_delivery,
            c.afs_count() == afs,
            trucks_sorted(c.trucks()),
            c.trucks().to_multiset() == trucks@.to_multiset(),
            c.distances() == distance_matrix@,
            c.times() == time_matrix@,
            c.depot_service() == depot_service_time,
            c.service_times() == service_times@,
            c.earliest_times() == earliest_visiting_times@,
            c.latest_times() == latest_visiting_times@,
            c.requests() == requests@,
            c.dimension() == 2 * full_pickup + empty_pickup + empty_delivery + afs + 2,
            c.time_limit() == u32::MAX,
    {
        let matrix_dimension = (2 * full_pickup) + empty_pickup + empty_delivery + afs + 2;
        let trucks = sort_trucks(trucks);
        return Config {
            full_pickup,
            empty_pickup,
            empty_delivery,
            afs,
            trucks,
            distance_matrix,
            time_matrix,
            depot_service_time,
            service_times,
            earliest_visiting_times,
            latest_visiting_times,
            matrix_dimension,
            t_max: u32::MAX,
            requests,
        };
    }

    /// The same configuration with the latest time `t_max` at which any node may be reached.
    pub fn with_t_max(self, t_max: u32) -> (c: Config)
        ensures
            c.time_limit() == t_max,
            c.full_pickups() == self.full_pickups(),
            c.empty_pickups() == self.empty_pickups(),
            c.empty_deliveries() == self.empty_deliveries(),
            c.afs_count() == self.afs_count(),
            c.trucks() == self.trucks(),
            c.distances() == self.distances(),
            c.times() == self.times(),
            c.depot_service() == self.depot_service(),
            c.service_times() == self.service_times(),
            c.earliest_times() == self.earliest_times(),
            c.latest_times() == self.latest_times(),
            c.requests() == self.requests(),
            c.dimension() == self.dimension(),
    {
        proof {
            use_type_invariant(&self);
        }
        let mut c = self;
        c.t_max = t_max;
        c
    }

    pub fn get_distance_between(&self, from: usize, to: usize) -> (r: u32)
        requires
            from * self.dimension() + to < self.distances().len(),
        ensures
            r == self.distance(from as int, to as int),
    {
        proof {
            use_type_invariant(self);
        }
        let len = self.distance_matrix.len();
        assert((from as int) * (self.matrix_dimension as int) + (to as int) < len);
        let index = from * self.matrix_dimension + to;
        return self.distance_matrix[index];
    }

    pub fn get_time_between(&self, from: usize, to: usize) -> (r: u32)
        requires
            from * self.dimension() + to < self.times().len(),
        ensures
            r == self.travel_time(from as int, to as int),
    {
        proof {
            use_type_invariant(self);
        }
        let len = self.time_matrix.len();
        assert((from as int) * (self.matrix_dimension as int) + (to as int) < len);
        let index = from * self.matrix_dimension + to;
        return self.time_matrix[index];
    }

    pub fn get_num_trucks(&self) -> (r: usize)
        ensures
            r == self.trucks().len(),
    {
        return self.trucks.len();
    }

    pub fn get_truck(&self, index: usize) -> (r: &Truck)
        requires
            index < self.trucks().len(),
        ensures
            *r == self.trucks()[index as int],
    {
        return &self.trucks[index];
    }

    pub fn get_depot_service_time(&self) -> (r: u32)
        ensures
            r == self.depot_service(),
    {
        return self.depot_service_time;
    }

    pub fn get_t_max(&self) -> (r: u32)
        ensures
            r == self.time_limit(),
    {
        return self.t_max;
    }

    pub fn get_service_time_at_request_node(&self, request_node: usize) -> (r: u32)
        requires
            1 <= request_node <= self.service_times().len(),
        ensures
            r == self.service_times()[request_node - 1],
    {
        return self.service_times[request_node - 1];
    }

    pub fn get_earliest_visiting_time_at_request_node(&self, request_node: usize) -> (r: u32)
        requires
            1 <= request_node <= self.earliest_times().len(),
        ensures
            r == self.earliest_times()[request_node - 1],
    {
        return self.earliest_visiting_times[request_node - 1];
    }

    pub fn get_latest_visiting_time_at_request_node(&self, request_node: usize) -> (r: u32)
        requires
            1 <= request_node <= self.latest_times().len(),
        ensures
            r == self.latest_times()[request_node - 1],
    {
        return self.latest_visiting_times[request_node - 1];
    }

    pub fn get_full_pickup(&self) -> (r: usize)
        ensures
            r == self.full_pickups(),
    {
        return self.full_pickup;
    }

    pub fn get_empty_pickup(&self) -> (r: usize)
        ensures
            r == self.empty_pickups(),
    {
        return self.empty_pickup;
    }

    pub fn get_empty_delivery(&self) -> (r: usize)
        ensures
            r == self.empty_deliveries(),
    {
        return self.empty_delivery;
    }

    pub fn get_afs(&self) -> (r: usize)
        ensures
            r == self.afs_count(),
    {
        return self.afs;
    }

    pub fn get_request_at_node(&self, request_node: usize) -> (r: &ContainerRequest)
        requires
            1 <= request_node <= self.requests().len(),
        ensures
            *r == self.requests()[request_node - 1],
    {
        return &self.requests[request_node - 1];
    }

    /// Fuel, in hundredths of a litre, that the leg from `from` to `to` consumes.
    pub fn fuel_needed_for_route(&self, from: usize, to: usize) -> (r: u32)
        requires
            from * self.dimension() + to < self.distances().len(),
            self.distance(from as int, to as int) * FUEL_CONSUMPTION_PER_KM <= u32::MAX,
        ensures
            r == self.distance(from as int, to as int) * FUEL_CONSUMPTION_PER_KM,
    {
        return self.get_distance_between(from, to) * FUEL_CONSUMPTION_PER_KM;
    }

    pub fn get_first_afs(&self) -> (r: usize)
        ensures
            r == self.first_afs(),
    {
        proof {
            use_type_invariant(self);
        }
        return 2 * self.full_pickup + self.empty_pickup + self.empty_delivery + 1;
    }

    /// The full pickup node whose containers `dropoff_node` delivers.
    pub fn get_pick_node_for_full_dropoff(&self, dropoff_node: usize) -> (r: usize)
        requires
            self.empty_pickups() + self.full_pickups() < dropoff_node,
        ensures
            r == dropoff_node - self.empty_pickups() - self.full_pickups(),
    {
        return dropoff_node - self.empty_pickup - self.full_pickup;
    }

    pub fn get_dummy_depot(&self) -> (r: usize)
        ensures
            r == self.dimension(),
    {
        proof {
            use_type_invariant(self);
        }
        return self.matrix_dimension;
    }

    pub fn get_first_full_dropoff(&self) -> (r: usize)
        ensures
            r == self.first_full_dropoff(),
    {
        proof {
            use_type_invariant(self);
        }
        return self.full_pickup + self.empty_pickup + 1;
    }

    pub fn get_first_empty_dropoff(&self) -> (r: usize)
        ensures
            r == self.first_empty_dropoff(),
    {
        proof {
            use_type_invariant(self);
        }
        return self.get_first_full_dropoff() + self.full_pickup;
    }

    /// Checks `wf`, so that a caller can test the data before searching.
    pub fn is_well_formed(&self) -> (r: bool)
        ensures
            r == self.wf(),
    {
        proof {
            use_type_invariant(self);
        }
        let dim = self.matrix_dimension;
        let first_afs = self.get_first_afs();
        if dim > MAX_MATRIX_DIMENSION || first_afs < 2 || first_afs > 64 {
            return false;
        }
        assert(dim * dim <= MAX_MATRIX_DIMENSION * MAX_MATRIX_DIMENSION) by (nonlinear_arith)
            requires
                dim <= MAX_MATRIX_DIMENSION,
        ;
        if self.distance_matrix.len() < dim * dim || self.time_matrix.len() < dim * dim {
            return false;
        }
        let requests_count = first_afs - 1;
        if self.service_times.len() < requests_count || self.earliest_visiting_times.len()
            < requests_count || self.latest_visiting_times.len() < requests_count
            || self.requests.len() < requests_count {
            return false;
        }
        if self.trucks.len() >= u32::MAX as usize {
            return false;
        }
        if self.depot_service_time > u32::MAX / 2 {
            return false;
        }
        let mut i: usize = 0;
        while i < self.distance_matrix.len()
            invariant
                i <= self.distance_matrix@.len(),
                forall|k: int|
                    0 <= k < i ==> #[trigger] self.distance_matrix@[k] * FUEL_CONSUMPTION_PER_KM
                        <= u32::MAX,
            decreases self.distance_matrix@.len() - i,
        {
            if self.distance_matrix[i] > u32::MAX / FUEL_CONSUMPTION_PER_KM {
                return false;
            }
            i = i + 1;
        }
        let mut j: usize = 0;
        while j < self.trucks.len()
            invariant
                j <= self.trucks@.len(),
                forall|k: int| 0 <= k < j ==> (#[trigger] self.trucks@[k]).wf(),
            decreases self.trucks@.len() - j,
        {
            let t = &self.trucks[j];
            if t.get_num_20_foot_containers() < 0 || t.get_num_40_foot_containers() < 0
                || t.get_num_20_foot_containers() > 2 - t.get_num_40_foot_containers() {
                return false;
            }
            j = j + 1;
        }
        true
    }
}

/// The result of the search: one route per truck (none when no combination serves every
/// request), their total distance and the seconds the search took.
pub struct Solution {
    routes: Vec<Vec<u8>>,
    total_distance: u64,
    seconds_taken: u64,
}

impl Solution {
    pub closed spec fn route_nodes(&self) -> Seq<Seq<u8>> {
        self.routes@.map_values(|r: Vec<u8>| r@)
    }

    pub closed spec fn distance(&self) -> int {
        self.total_distance as int
    }

    pub closed spec fn seconds(&self) -> int {
        self.seconds_taken as int
    }

    pub fn new(routes: Vec<Vec<u8>>, total_distance: u64, seconds_taken: u64) -> (s: Solution)
        ensures
            s.route_nodes() == routes@.map_values(|r: Vec<u8>| r@),
            s.distance() == total_distance,
            s.seconds() == seconds_taken,
    {
        Solution { routes, total_distance, seconds_taken }
    }

    pub fn get_routes(&self) -> (r: &Vec<Vec<u8>>)
        ensures
            r@.map_values(|v: Vec<u8>| v@) == self.route_nodes(),
    {
        &self.routes
    }

    pub fn get_total_distance(&self) -> (r: u64)
        ensures
            r == self.distance(),
    {
        self.total_distance
    }

    pub fn get_seconds_taken(&self) -> (r: u64)
        ensures
            r == self.seconds(),
    {
        self.seconds_taken
    }
}

} // verus!
