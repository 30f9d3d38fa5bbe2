use std::collections::HashMap;
use std::rc::Rc;
use vstd::prelude::*;

use crate::data::{
    Config, ContainerRequest, Solution, Truck, refuel_minutes, FUEL_CONSUMPTION_PER_KM, MAX_MATRIX_DIMENSION, ROUTE_DEPOT_DELOAD_20,
    ROUTE_DEPOT_DELOAD_40, ROUTE_DEPOT_LOAD_20, ROUTE_DEPOT_LOAD_40, ROUTE_DEPOT_REFUEL,
};

verus! {

/// Every bit of `b` is also set in `a`.
pub open spec fn covers(a: u32, b: u32) -> bool {
    b & !a == 0
}

proof fn lemma_covers_xor(a: u32, b: u32)
    ensures
        ((a ^ b) & b == 0) == covers(a, b),
        ((b ^ a) & b == 0) == covers(a, b),
{
    assert(((a ^ b) & b == 0) == (b & !a == 0)) by (bit_vector);
    assert(((b ^ a) & b == 0) == (b & !a == 0)) by (bit_vector);
}

/// `covers` is a preorder.
pub proof fn lemma_covers_preorder(a: u32, b: u32, c: u32)
    ensures
        covers(a, a),
        covers(a, b) && covers(b, c) ==> covers(a, c),
{
    assert(a & !a == 0) by (bit_vector);
    assert((b & !a == 0 && c & !b == 0) ==> c & !a == 0) by (bit_vector);
}

// ---------------------------------------------------------------------------------------------
// Container loads
// ---------------------------------------------------------------------------------------------

/// The containers a `SearchState` may carry: the empty and the total (empty + full)
/// numbers of each size, the option it came from in the previous state, how many containers
/// were moved at the last depot visit (0, 1 or 2; lower is better) and the path options of
/// the previous state that it is compatible with.
#[derive(Clone, Copy)]
pub struct ContainerOption {
    empty_20: i8,
    empty_40: i8,
    num_20: i8,
    num_40: i8,
    previous_index: usize,
    last_loading_distance: i8,
    compatible_path_options: u32,
}

impl ContainerOption {
    pub closed spec fn empty_20(self) -> int {
        self.empty_20 as int
    }

    pub closed spec fn empty_40(self) -> int {
        self.empty_40 as int
    }

    pub closed spec fn num_20(self) -> int {
        self.num_20 as int
    }

    pub closed spec fn num_40(self) -> int {
        self.num_40 as int
    }

    pub closed spec fn previous(self) -> int {
        self.previous_index as int
    }

    pub closed spec fn loading_distance(self) -> int {
        self.last_loading_distance as int
    }

    pub closed spec fn compatible(self) -> u32 {
        self.compatible_path_options
    }

    /// A load the truck can carry: per size, no more empties than containers and no
    /// more containers than places; at most two containers moved at the last depot visit.
    pub open spec fn fits(self, truck: Truck) -> bool {
        &&& 0 <= self.empty_20() <= self.num_20() <= truck.num_20()
        &&& 0 <= self.empty_40() <= self.num_40() <= truck.num_40()
        &&& 0 <= self.loading_distance() <= 2
    }

    /// The same empty containers on board.
    pub open spec fn comparable_to_spec(self, other: ContainerOption) -> bool {
        self.empty_20() == other.empty_20() && self.empty_40() == other.empty_40()
    }

    /// Lower loading distance, or compatible with a path option that `other` is not.
    pub open spec fn partially_superior_to_spec(self, other: ContainerOption) -> bool {
        self.loading_distance() < other.loading_distance() || !covers(other.compatible(), self.compatible())
    }

    /// No higher loading distance, and compatible with every path option that `other` is.
    pub open spec fn at_least_as_good_as_spec(self, other: ContainerOption) -> bool {
        self.loading_distance() <= other.loading_distance() && covers(self.compatible(), other.compatible())
    }

    pub open spec fn comparable_and_completely_superior_to_spec(
        self,
        other: ContainerOption,
    ) -> bool {
        self.comparable_to_spec(other) && self.partially_superior_to_spec(other)
            && self.at_least_as_good_as_spec(other)
    }

    /// The empty 20 foot containers on board.
    pub fn get_empty_20(&self) -> (r: i8)
        ensures
            r == self.empty_20(),
    {
        self.empty_20
    }

    /// The empty 40 foot containers on board.
    pub fn get_empty_40(&self) -> (r: i8)
        ensures
            r == self.empty_40(),
    {
        self.empty_40
    }

    /// Checks whether `empty_20` and `empty_40` are identical.
    pub fn comparable_to(&self, other: &ContainerOption) -> (r: bool)
        ensures
            r == self.comparable_to_spec(*other),
    {
        return self.empty_20 == other.empty_20 && self.empty_40 == other.empty_40;
    }

    /// Whether `self` is better than `other` in at least one regard.
    pub fn partially_superior_to(&self, other: &ContainerOption) -> (r: bool)
        ensures
            r == self.partially_superior_to_spec(*other),
    {
        return self.last_loading_distance < other.last_loading_distance
            || !other.covers_completely(self);
    }

    /// Whether `self` is at least as good as `other` in every regard.
    pub fn at_least_as_good_as(&self, other: &ContainerOption) -> (r: bool)
        ensures
            r == self.at_least_as_good_as_spec(*other),
    {
        return self.last_loading_distance <= other.last_loading_distance
            && self.covers_completely(other);
    }

    pub fn comparable_and_completely_superior_to(&self, other: &ContainerOption) -> (r: bool)
        ensures
            r == self.comparable_and_completely_superior_to_spec(*other),
    {
        return self.comparable_to(other) && self.partially_superior_to(other)
            && self.at_least_as_good_as(other);
    }

    /// True when `self` is compatible with every path option that `other` is.
    fn covers_completely(&self, other: &ContainerOption) -> (r: bool)
        ensures
            r == covers(self.compatible_path_options, other.compatible_path_options),
    {
        let difference = self.compatible_path_options ^ other.compatible_path_options;
        let bits_only_in_other = difference & other.compatible_path_options;
        proof {
            lemma_covers_xor(self.compatible_path_options, other.compatible_path_options);
        }
        return bits_only_in_other == 0;
    }

    /// Records that path option `path_index` is compatible with this option.
    fn set_compatible(&mut self, path_index: usize)
        requires
            path_index < 32,
        ensures
            *final(self) == (ContainerOption {
                compatible_path_options: old(self).compatible_path_options | (1u32 << path_index),
                ..*old(self)
            }),
    {
        let mask: u32 = 1u32 << path_index;
        self.compatible_path_options = self.compatible_path_options | mask;
    }
}

/// `at_least_as_good_as` is reflexive and transitive.
pub proof fn lemma_container_at_least_as_good_as_preorder(
    a: ContainerOption,
    b: ContainerOption,
    c: ContainerOption,
)
    ensures
        a.at_least_as_good_as_spec(a),
        a.at_least_as_good_as_spec(b) && b.at_least_as_good_as_spec(c)
            ==> a.at_least_as_good_as_spec(c),
{
    lemma_covers_preorder(a.compatible(), a.compatible(), a.compatible());
    lemma_covers_preorder(a.compatible(), b.compatible(), c.compatible());
}

/// Being partially superior to another option is exactly not being at most as good
/// as it: `a` is better than `b` somewhere iff `b` is not at least as good as `a`.
pub proof fn lemma_container_partially_superior_duality(a: ContainerOption, b: ContainerOption)
    ensures
        a.partially_superior_to_spec(b) == !b.at_least_as_good_as_spec(a),
{
}

/// `comparable_to` is an equivalence: reflexive, symmetric and transitive.
pub proof fn lemma_comparable_equivalence(a: ContainerOption, b: ContainerOption, c: ContainerOption)
    ensures
        a.comparable_to_spec(a),
        a.comparable_to_spec(b) ==> b.comparable_to_spec(a),
        a.comparable_to_spec(b) && b.comparable_to_spec(c) ==> a.comparable_to_spec(c),
{
}

/// No option is completely superior to itself.
pub proof fn lemma_container_completely_superior_irreflexive(a: ContainerOption)
    ensures
        !a.comparable_and_completely_superior_to_spec(a),
{
    lemma_covers_preorder(a.compatible(), a.compatible(), a.compatible());
}

// ---------------------------------------------------------------------------------------------
// Path summaries
// ---------------------------------------------------------------------------------------------

/// A node index into a square matrix of side `dimension` is in range.
pub proof fn lemma_matrix_index(from: int, to: int, dimension: int)
    requires
        0 <= from < dimension,
        0 <= to < dimension,
    ensures
        0 <= from * dimension + to < dimension * dimension,
{
    assert(0 <= from * dimension + to < dimension * dimension) by (nonlinear_arith)
        requires
            0 <= from < dimension,
            0 <= to < dimension,
    ;
}

/// The values by which paths to the same node are compared: the fuel level at the last node
/// (higher is better), the distance and the time so far, waits and refuelling included (lower
/// is better), and the container options of the state it leads to that it is compatible with
/// (bit `n` for option `n`; more is better).
#[derive(Clone, Copy)]
pub struct PathOptionSummary {
    fuel_level: u32,
    total_distance: u32,
    total_time: u32,
    compatible_container_options: u32,
}

/// Travelling on from the node that `s` summarises at `from` to `to`: whether the truck
/// arrives, and its fuel, distance and time there. It does not arrive when the fuel does
/// not reach `to`, when a request node is reached after its latest visiting time, when the
/// time limit is passed (at any kind of node), or when the distance no longer fits a `u32`.
/// Before a request's service the truck waits for its earliest visiting time; at an AFS, and
/// at the depot when `depot_refuel` holds, the tank is filled on arrival, at one minute per
/// ten units missing then. `loading_distance` containers moved at the depot before leaving
/// cost the depot service time each.
pub open spec fn next_values(
    s: PathOptionSummary,
    config: Config,
    truck: Truck,
    from: int,
    to: int,
    depot_refuel: bool,
    loading_distance: int,
) -> (bool, int, int, int) {
    let distance = config.distance(from, to);
    let fuel_needed = distance * FUEL_CONSUMPTION_PER_KM;
    let time_before = s.time() + config.travel_time(from, to) + config.depot_service() * loading_distance;
    let total_distance = s.distance() + distance;
    let refuel = refuel_minutes(truck.fuel_capacity() - (s.fuel() - fuel_needed));
    let is_request = 0 < to < config.first_afs();
    let keeps_fuel = is_request || (to == 0 && !depot_refuel);
    let total_time = if is_request {
        let earliest = config.earliest_times()[to - 1] as int;
        (if time_before < earliest {
            earliest
        } else {
            time_before
        }) + config.service_times()[to - 1]
    } else if keeps_fuel {
        time_before
    } else {
        time_before + refuel
    };
    let fuel_level = if keeps_fuel {
        s.fuel() - fuel_needed
    } else {
        truck.fuel_capacity() as int
    };
    let arrives = !(fuel_needed > s.fuel() || (is_request && time_before > config.latest_times()[to - 1])
        || total_time > config.time_limit() || total_distance > u32::MAX);
    (arrives, fuel_level, total_distance, total_time)
}

impl PathOptionSummary {
    pub closed spec fn fuel(self) -> int {
        self.fuel_level as int
    }

    pub closed spec fn distance(self) -> int {
        self.total_distance as int
    }

    pub closed spec fn time(self) -> int {
        self.total_time as int
    }

    pub closed spec fn compatible(self) -> u32 {
        self.compatible_container_options
    }

    /// Fuel, distance and time are each held in a `u32`.
    pub proof fn lemma_bounds(self)
        ensures
            0 <= self.fuel() <= u32::MAX,
            0 <= self.distance() <= u32::MAX,
            0 <= self.time() <= u32::MAX,
    {
    }

    /// Shorter, quicker, with more fuel, or compatible with a container option that `other`
    /// is not.
    pub open spec fn partly_superior_to_spec(self, other: PathOptionSummary) -> bool {
        self.distance() < other.distance() || self.time() < other.time() || self.fuel() > other.fuel()
            || !covers(other.compatible(), self.compatible())
    }

    /// No longer, no slower, no less fuel, and compatible with every container option that
    /// `other` is.
    pub open spec fn at_least_as_good_as_spec(self, other: PathOptionSummary) -> bool {
        self.distance() <= other.distance() && self.time() <= other.time() && self.fuel() >= other.fuel()
            && covers(self.compatible(), other.compatible())
    }

    /// The summary after travelling on from the node that `self` summarises at `from` to
    /// `to` (see `next_values`), recording the compatible container options given.
    pub closed spec fn next_summary_spec(
        self,
        config: Config,
        truck: Truck,
        from: int,
        to: int,
        depot_refuel: bool,
        compatible_container_options: u32,
        loading_distance: int,
    ) -> Option<PathOptionSummary> {
        let v = next_values(self, config, truck, from, to, depot_refuel, loading_distance);
        if v.0 {
            Some(
                PathOptionSummary {
                    fuel_level: v.1 as u32,
                    total_distance: v.2 as u32,
                    total_time: v.3 as u32,
                    compatible_container_options,
                },
            )
        } else {
            None
        }
    }

    /// `next_summary_spec` arrives exactly when `next_values` says so, with its fuel,
    /// distance and time, and the compatible container options given.
    pub proof fn lemma_next_summary_values(
        self,
        config: Config,
        truck: Truck,
        from: int,
        to: int,
        depot_refuel: bool,
        compatible_container_options: u32,
        loading_distance: int,
    )
        requires
            self.fuel() <= truck.fuel_capacity(),
            0 <= loading_distance,
        ensures
            ({
                let v = next_values(self, config, truck, from, to, depot_refuel, loading_distance);
                let r = self.next_summary_spec(
                    config,
                    truck,
                    from,
                    to,
                    depot_refuel,
                    compatible_container_options,
                    loading_distance,
                );
                &&& r is Some <==> v.0
                &&& r matches Some(t) ==> t.fuel() == v.1 && t.distance() == v.2 && t.time() == v.3
                    && t.compatible() == compatible_container_options
            }),
    {
        truck.lemma_capacity_fits();
        config.lemma_time_limit_fits();
    }

    /// What travelling on from `from` to `to` gives, when the truck arrives: the distance
    /// grows by the leg; the fuel needed for the leg was in the tank; the time stays within
    /// the time limit. At a request node the truck arrives no later than the latest visiting
    /// time, and leaves after its service, which starts at the arrival or, when the truck is
    /// early, at the earliest visiting time: it waits, and no longer than needed. At the depot
    /// without refuelling it keeps the fuel left and the arrival time; at a fuel station or
    /// for a refuel at the depot it fills the tank, which takes a minute per 10 l missing.
    pub proof fn lemma_next_summary_travel(
        self,
        config: Config,
        truck: Truck,
        from: int,
        to: int,
        depot_refuel: bool,
        compatible_container_options: u32,
        loading_distance: int,
    )
        requires
            self.fuel() <= truck.fuel_capacity(),
            0 <= loading_distance,
        ensures
            ({
                let arrival = self.time() + config.travel_time(from, to) + config.depot_service() * loading_distance;
                let needed = config.distance(from, to) * FUEL_CONSUMPTION_PER_KM;
                match self.next_summary_spec(
                    config,
                    truck,
                    from,
                    to,
                    depot_refuel,
                    compatible_container_options,
                    loading_distance,
                ) {
                    Some(n) => {
                        &&& n.distance() == self.distance() + config.distance(from, to)
                        &&& needed <= self.fuel()
                        &&& n.time() <= config.time_limit()
                        &&& n.compatible() == compatible_container_options
                        &&& 0 < to < config.first_afs() ==> {
                            &&& arrival <= config.latest_times()[to - 1]
                            &&& n.time() >= arrival + config.service_times()[to - 1]
                            &&& n.time() >= config.earliest_times()[to - 1] + config.service_times()[to - 1]
                            &&& (n.time() == arrival + config.service_times()[to - 1] || n.time()
                                == config.earliest_times()[to - 1] + config.service_times()[to - 1])
                            &&& n.fuel() == self.fuel() - needed
                        }
                        &&& to == 0 && !depot_refuel ==> n.time() == arrival && n.fuel() == self.fuel() - needed
                        &&& !(0 <= to < config.first_afs()) || (to == 0 && depot_refuel) ==> n.fuel()
                            == truck.fuel_capacity() && n.time() == arrival + (truck.fuel_capacity() - (self.fuel()
                            - needed) + 9) / 10
                    },
                    None => {
                        ||| needed > self.fuel()
                        ||| 0 < to < config.first_afs() && arrival > config.latest_times()[to - 1]
                        ||| self.distance() + config.distance(from, to) > u32::MAX
                        ||| 0 < to < config.first_afs() && (if arrival < config.earliest_times()[to - 1] {
                            config.earliest_times()[to - 1] as int
                        } else {
                            arrival
                        }) + config.service_times()[to - 1] > config.time_limit()
                        ||| to == 0 && !depot_refuel && arrival > config.time_limit()
                        ||| (!(0 <= to < config.first_afs()) || (to == 0 && depot_refuel)) && arrival + (
                        truck.fuel_capacity() - (self.fuel() - needed) + 9) / 10 > config.time_limit()
                    },
                }
            }),
    {
        self.lemma_next_summary_values(
            config,
            truck,
            from,
            to,
            depot_refuel,
            compatible_container_options,
            loading_distance,
        );
    }

    /// Whether this summary is better than `other` in at least one regard.
    pub fn partly_superior_to(&self, other: &PathOptionSummary) -> (r: bool)
        ensures
            r == self.partly_superior_to_spec(*other),
    {
        return (self.total_distance < other.total_distance) || (self.total_time
            < other.total_time) || (self.fuel_level > other.fuel_level)
            || !other.covers_completely(self);
    }

    /// Whether this summary is not worse than `other` in any regard.
    pub fn at_least_as_good_as(&self, other: &PathOptionSummary) -> (r: bool)
        ensures
            r == self.at_least_as_good_as_spec(*other),
    {
        return (self.total_distance <= other.total_distance) && (self.total_time
            <= other.total_time) && (self.fuel_level >= other.fuel_level)
            && self.covers_completely(other);
    }

    /// Whether `self` is compatible with every container option that `other` is compatible with.
    fn covers_completely(&self, other: &PathOptionSummary) -> (r: bool)
        ensures
            r == covers(self.compatible_container_options, other.compatible_container_options),
    {
        let difference = self.compatible_container_options ^ other.compatible_container_options;
        proof {
            lemma_covers_xor(self.compatible_container_options, other.compatible_container_options);
        }
        return (difference & other.compatible_container_options) == 0;
    }

    /// The summary after moving on from `from` to `to`; see `next_summary_spec`.
    pub fn next_summary(
        &self,
        config: &Config,
        truck: &Truck,
        from: usize,
        to: usize,
        depot_refuel: bool,
        compatible_container_options: u32,
        loading_distance: u32,
    ) -> (r: Option<PathOptionSummary>)
        requires
            config.wf(),
            from < config.dimension(),
            to < config.dimension(),
            self.fuel() <= truck.fuel_capacity(),
            loading_distance <= 2,
        ensures
            r == self.next_summary_spec(
                *config,
                *truck,
                from as int,
                to as int,
                depot_refuel,
                compatible_container_options,
                loading_distance as int,
            ),
            r matches Some(s) ==> s.fuel() <= truck.fuel_capacity() && s.compatible()
                == compatible_container_options,
    {
        proof {
            lemma_matrix_index(from as int, to as int, config.dimension() as int);
            let i = from * config.dimension() + to;
            assert(config.distances()[i] * FUEL_CONSUMPTION_PER_KM <= u32::MAX);
        }
        let additional_distance = config.get_distance_between(from, to);
        let fuel_needed = config.fuel_needed_for_route(from, to);
        if fuel_needed > self.fuel_level {
            return Option::None;
        }
        let mut fuel_level = self.fuel_level - fuel_needed;
        let total_distance: u64 = self.total_distance as u64 + additional_distance as u64;
        let mut total_time: u64 = self.total_time as u64 + config.get_time_between(from, to) as u64;
        let service = config.get_depot_service_time();
        assert((service as int) * (loading_distance as int) <= 2 * (u32::MAX as int))
            by (nonlinear_arith)
            requires
                loading_distance <= 2,
                service <= u32::MAX,
        ;
        total_time = total_time + service as u64 * loading_distance as u64;
        let first_afs = config.get_first_afs();
        if to < first_afs {
            if to != 0 {
                let latest = config.get_latest_visiting_time_at_request_node(to);
                let earliest = config.get_earliest_visiting_time_at_request_node(to);
                if total_time > latest as u64 {
                    return Option::None;
                } else if total_time < earliest as u64 {
                    total_time = earliest as u64;
                }
                total_time = total_time + config.get_service_time_at_request_node(to) as u64;
            } else if depot_refuel {
                total_time = total_time + truck.get_minutes_for_refueling(fuel_level) as u64;
                fuel_level = truck.get_fuel();
            }
        } else {
            total_time = total_time + truck.get_minutes_for_refueling(fuel_level) as u64;
            fuel_level = truck.get_fuel();
        }
        if total_time > config.get_t_max() as u64 {
            return Option::None;
        }
        if total_distance > u32::MAX as u64 {
            return Option::None;
        }
        return Option::Some(
            PathOptionSummary {
                total_distance: total_distance as u32,
                total_time: total_time as u32,
                fuel_level,
                compatible_container_options,
            },
        );
    }
}

/// `at_least_as_good_as` is reflexive and transitive.
pub proof fn lemma_summary_at_least_as_good_as_preorder(
    a: PathOptionSummary,
    b: PathOptionSummary,
    c: PathOptionSummary,
)
    ensures
        a.at_least_as_good_as_spec(a),
        a.at_least_as_good_as_spec(b) && b.at_least_as_good_as_spec(c)
            ==> a.at_least_as_good_as_spec(c),
{
    lemma_covers_preorder(a.compatible(), a.compatible(), a.compatible());
    lemma_covers_preorder(a.compatible(), b.compatible(), c.compatible());
}

/// A summary is better than another in some regard exactly when the other is not at least
/// as good as it.
pub proof fn lemma_summary_partly_superior_duality(a: PathOptionSummary, b: PathOptionSummary)
    ensures
        a.partly_superior_to_spec(b) == !b.at_least_as_good_as_spec(a),
{
}

/// Paths can be compared by their summaries alone: moving on the same way from a summary
/// that is at least as good as another, with at least the compatible options of the other,
/// arrives wherever the other arrives, with a summary at least as good.
pub proof fn lemma_next_summary_monotone(
    a: PathOptionSummary,
    b: PathOptionSummary,
    config: Config,
    truck: Truck,
    from: int,
    to: int,
    depot_refuel: bool,
    compatible_a: u32,
    compatible_b: u32,
    loading_distance: int,
)
    requires
        a.fuel() <= truck.fuel_capacity(),
        b.fuel() <= truck.fuel_capacity(),
        a.at_least_as_good_as_spec(b),
        covers(compatible_a, compatible_b),
        0 <= loading_distance,
    ensures
        b.next_summary_spec(config, truck, from, to, depot_refuel, compatible_b, loading_distance) matches Some(
            next_b,
        ) ==> a.next_summary_spec(config, truck, from, to, depot_refuel, compatible_a, loading_distance) matches Some(
            next_a,
        ) && next_a.at_least_as_good_as_spec(next_b),
{
    truck.lemma_capacity_fits();
    config.lemma_time_limit_fits();
    let need = config.distance(from, to) * FUEL_CONSUMPTION_PER_KM;
    let missing_a = truck.fuel_capacity() - (a.fuel() - need);
    let missing_b = truck.fuel_capacity() - (b.fuel() - need);
    assert(refuel_minutes(missing_a) <= refuel_minutes(missing_b));
}

/// Moving on from the depot to the depot itself, where that costs no distance and no time,
/// changes nothing but the refuel: the distance stays, the tank is filled and the refuel time
/// is added (without a refuel, fuel and time stay too), and the summary takes the compatible
/// options given; it arrives exactly when the time limit is kept.
pub proof fn lemma_depot_stay(
    s: PathOptionSummary,
    config: Config,
    truck: Truck,
    depot_refuel: bool,
    compatible_container_options: u32,
)
    requires
        config.wf(),
        config.distance(0, 0) == 0,
        config.travel_time(0, 0) == 0,
        s.fuel() <= truck.fuel_capacity(),
    ensures
        ({
            let r = s.next_summary_spec(config, truck, 0, 0, depot_refuel, compatible_container_options, 0);
            let new_time = if depot_refuel {
                s.time() + refuel_minutes(truck.fuel_capacity() - s.fuel())
            } else {
                s.time()
            };
            let new_fuel = if depot_refuel {
                truck.fuel_capacity() as int
            } else {
                s.fuel()
            };
            &&& r is Some <==> new_time <= config.time_limit()
            &&& r matches Some(t) ==> t.distance() == s.distance() && t.time() == new_time
                && t.fuel() == new_fuel && t.compatible() == compatible_container_options
        }),
{
    truck.lemma_capacity_fits();
    config.lemma_time_limit_fits();
}

// ---------------------------------------------------------------------------------------------
// Path options
// ---------------------------------------------------------------------------------------------

/// A path option as a value: its summary, the nodes it traverses and the index of the path
/// option of the previous state that it extends.
pub type PathOptionModel = (PathOptionSummary, Seq<usize>, int);

/// A path option in a list, with the tag that tells the options a list started with from
/// those added to it.
pub type TaggedPathOption = (PathOptionModel, int);

/// The tag of a path option created by adding to a list.
pub const NEW_OPTION_TAG: usize = usize::MAX;

/// The node a path ends at; a refuel at the depot ends at the depot.
pub open spec fn path_current_node(path: Seq<usize>) -> int {
    if path.last() == ROUTE_DEPOT_REFUEL as usize {
        0
    } else {
        path.last() as int
    }
}

pub open spec fn model_node(m: PathOptionModel) -> int {
    path_current_node(m.1)
}

/// A path option at `node` that `summary` beats in some regard and matches in all others.
pub open spec fn model_inferior(m: PathOptionModel, summary: PathOptionSummary, node: int) -> bool {
    &&& model_node(m) == node
    &&& summary.partly_superior_to_spec(m.0)
    &&& summary.at_least_as_good_as_spec(m.0)
}

/// The nodes of the option that extends `m` to `node`: a new path starts empty, otherwise
/// `m`'s path is kept; a refuel at the depot appends the depot (unless the previous last
/// node is the depot) and the refuel marker; otherwise `node` is appended.
pub open spec fn next_path(m: PathOptionModel, node: int, depot_refuel: bool, new_path: bool) -> Seq<
    usize,
> {
    let base = if new_path {
        Seq::<usize>::empty()
    } else {
        m.1
    };
    let last_node = if new_path {
        model_node(m)
    } else {
        m.1.last() as int
    };
    if depot_refuel {
        (if last_node != 0 {
            base.push(0)
        } else {
            base
        }).push(ROUTE_DEPOT_REFUEL as usize)
    } else {
        base.push(node as usize)
    }
}

pub open spec fn created_model(
    m: PathOptionModel,
    own_index: int,
    summary: PathOptionSummary,
    node: int,
    depot_refuel: bool,
    new_path: bool,
) -> PathOptionModel {
    (summary, next_path(m, node, depot_refuel, new_path), own_index)
}

/// Adds `created`, whose summary is `summary`, to `list` under the dominance rule: the
/// options at `node` that it beats are removed, and if any was, it is added; otherwise it is
/// added unless an option at `node` is already at least as good.
pub open spec fn add_path_option(
    list: Seq<TaggedPathOption>,
    summary: PathOptionSummary,
    node: int,
    created: PathOptionModel,
) -> Seq<TaggedPathOption> {
    let kept = list.filter(|e: TaggedPathOption| !model_inferior(e.0, summary, node));
    if kept.len() < list.len() {
        kept.push((created, NEW_OPTION_TAG as int))
    } else if exists|i: int|
        0 <= i < list.len() && model_node(#[trigger] list[i].0) == node
            && list[i].0.0.at_least_as_good_as_spec(summary) {
        list
    } else {
        list.push((created, NEW_OPTION_TAG as int))
    }
}

pub open spec fn tagged(options: Seq<PathOption>, tags: Seq<usize>) -> Seq<TaggedPathOption> {
    Seq::new(options.len(), |i: int| (options[i]@, tags[i] as int))
}

/// One way to travel from the node of the previous `SearchState` towards the next one,
/// possibly through fuel stations.
pub struct PathOption {
    summary: PathOptionSummary,
    path: Vec<usize>,
    previous_index: usize,
}

impl View for PathOption {
    type V = PathOptionModel;

    closed spec fn view(&self) -> PathOptionModel {
        (self.summary, self.path@, self.previous_index as int)
    }
}

impl PathOption {
    /// Whether `self` is at `node` and `other` beats it in some regard and matches it in all.
    fn completely_inferior_to(&self, other: &PathOptionSummary, node: usize) -> (r: bool)
        requires
            self@.1.len() > 0,
        ensures
            r == model_inferior(self@, *other, node as int),
    {
        return (self.get_current_node() == node) && (other.partly_superior_to(&self.summary))
            && (other.at_least_as_good_as(&self.summary));
    }

    /// The option that extends `self` (the option at `own_index`) with `new_summary`.
    fn create_next_option(
        &self,
        own_index: usize,
        new_summary: PathOptionSummary,
        node: usize,
        depot_refuel: bool,
        new_path: bool,
    ) -> (r: PathOption)
        requires
            self@.1.len() > 0,
        ensures
            r@ == created_model(self@, own_index as int, new_summary, node as int, depot_refuel, new_path),
    {
        let mut path: Vec<usize> = Vec::new();
        let last_node;
        if new_path {
            last_node = self.get_current_node();
        } else {
            let mut i: usize = 0;
            while i < self.path.len()
                invariant
                    i <= self.path@.len(),
                    path@ == self.path@.take(i as int),
                decreases self.path@.len() - i,
            {
                path.push(self.path[i]);
                proof {
                    assert(self.path@.take(i + 1) == self.path@.take(i as int).push(self.path@[i as int]));
                }
                i = i + 1;
            }
            assert(path@ == self.path@);
            last_node = path[path.len() - 1];
        }
        if depot_refuel {
            if last_node != 0 {
                path.push(0);
            }
            path.push(ROUTE_DEPOT_REFUEL as usize);
        } else {
            path.push(node);
        }
        return PathOption { summary: new_summary, path, previous_index: own_index };
    }

    /// Removes the options at `node` that `new_summary` beats, then adds the option that
    /// extends `self` with it as `add_path_option` says; `tags` are kept beside the options.
    fn possibly_add_to_path_options(
        &self,
        own_index: usize,
        path_options: &mut Vec<PathOption>,
        tags: &mut Vec<usize>,
        new_summary: Option<PathOptionSummary>,
        node: usize,
        depot_refuel: bool,
        new_path: bool,
    )
        requires
            self@.1.len() > 0,
            old(path_options)@.len() == old(tags)@.len(),
            forall|i: int| 0 <= i < old(path_options)@.len() ==> (#[trigger] old(path_options)@[i])@.1.len() > 0,
        ensures
            final(path_options)@.len() == final(tags)@.len(),
            tagged(final(path_options)@, final(tags)@) == match new_summary {
                None => tagged(old(path_options)@, old(tags)@),
                Some(s) => add_path_option(
                    tagged(old(path_options)@, old(tags)@),
                    s,
                    node as int,
                    created_model(self@, own_index as int, s, node as int, depot_refuel, new_path),
                ),
            },
            antichain(tagged(old(path_options)@, old(tags)@)) && tagged(old(path_options)@, old(tags)@).no_duplicates()
                && node < 255 && (depot_refuel ==> node == 0) ==> antichain(tagged(final(path_options)@, final(tags)@))
                && tagged(final(path_options)@, final(tags)@).no_duplicates(),
            node < 255 && (depot_refuel ==> node == 0) ==> kept_or_beaten(
                tagged(old(path_options)@, old(tags)@),
                tagged(final(path_options)@, final(tags)@),
            ),
    {
        proof {
            let start = tagged(path_options@, tags@);
            if antichain(start) && start.no_duplicates() && node < 255 && (depot_refuel ==> node == 0) {
                lemma_add_summary_antichain(start, self@, own_index as int, new_summary, node as int, depot_refuel, new_path);
            }
            if node < 255 && (depot_refuel ==> node == 0) {
                lemma_add_summary_kept_or_beaten(start, self@, own_index as int, new_summary, node as int, depot_refuel, new_path);
            }
        }
        let new_summary = match new_summary {
            Option::None => return ,
            Option::Some(x) => x,
        };
        let length_before = path_options.len();
        let ghost start = tagged(path_options@, tags@);
        retain_not_inferior(path_options, tags, &new_summary, node);
        if path_options.len() != length_before {
            let created = self.create_next_option(own_index, new_summary, node, depot_refuel, new_path);
            path_options.push(created);
            tags.push(NEW_OPTION_TAG);
            proof {
                assert(tagged(path_options@, tags@) =~= add_path_option(
                    start,
                    new_summary,
                    node as int,
                    created@,
                ));
            }
            return ;
        }
        proof {
            lemma_filter_full_len(start, |e: TaggedPathOption| !model_inferior(e.0, new_summary, node as int));
        }
        if some_option_at_least_as_good(path_options, &new_summary, node) {
            proof {
                let w = choose|i: int|
                    0 <= i < path_options@.len() && model_node((#[trigger] path_options@[i])@)
                        == node && path_options@[i]@.0.at_least_as_good_as_spec(new_summary);
                assert(start[w].0 == path_options@[w]@);
            }
            return ;
        }
        let created = self.create_next_option(own_index, new_summary, node, depot_refuel, new_path);
        path_options.push(created);
        tags.push(NEW_OPTION_TAG);
        proof {
            assert(tagged(path_options@, tags@) =~= start.push((created@, NEW_OPTION_TAG as int)));
        }
    }

    /// Whether bit `index` of `mask` is set.
    fn decode_loading_mask(mask: u32, index: usize) -> (r: bool)
        requires
            index < 32,
        ensures
            r == (mask & (1u32 << index) != 0),
    {
        let index_mask: u32 = 1 << index;
        return (mask & index_mask) != 0;
    }

    /// `mask` with bit `index` cleared.
    fn remove_index_from_mask(mask: u32, index: usize) -> (r: u32)
        requires
            index < 32,
        ensures
            r == (!(1u32 << index)) & mask,
    {
        let index_mask: u32 = 1 << index;
        return (!index_mask) & mask;
    }

    /// The node this option ends at; a refuel at the depot ends at the depot (0), not at
    /// the refuel marker.
    pub fn get_current_node(&self) -> (r: usize)
        requires
            self@.1.len() > 0,
        ensures
            r == model_node(self@),
    {
        let last_el = self.path[self.path.len() - 1];
        if last_el == ROUTE_DEPOT_REFUEL as usize {
            return 0;
        }
        return last_el;
    }
}

/// Removes, in place and in order, the options at `node` that `summary` beats; their tags go
/// with them.
fn retain_not_inferior(
    path_options: &mut Vec<PathOption>,
    tags: &mut Vec<usize>,
    summary: &PathOptionSummary,
    node: usize,
)
    requires
        old(path_options)@.len() == old(tags)@.len(),
        forall|i: int| 0 <= i < old(path_options)@.len() ==> (#[trigger] old(path_options)@[i])@.1.len() > 0,
    ensures
        final(path_options)@.len() == final(tags)@.len(),
        forall|i: int| 0 <= i < final(path_options)@.len() ==> (#[trigger] final(path_options)@[i])@.1.len() > 0,
        tagged(final(path_options)@, final(tags)@) == tagged(old(path_options)@, old(tags)@).filter(
            |e: TaggedPathOption| !model_inferior(e.0, *summary, node as int),
        ),
{
    let ghost start = tagged(path_options@, tags@);
    let ghost keep = |e: TaggedPathOption| !model_inferior(e.0, *summary, node as int);
    let mut i: usize = 0;
    let ghost mut j: int = 0;
    while i < path_options.len()
        invariant
            path_options@.len() == tags@.len(),
            0 <= i <= j <= start.len(),
            tagged(path_options@, tags@) == start.take(j).filter(keep) + start.skip(j),
            i == start.take(j).filter(keep).len(),
            forall|k: int| 0 <= k < path_options@.len() ==> (#[trigger] path_options@[k])@.1.len() > 0,
            start == tagged(old(path_options)@, old(tags)@),
            keep == (|e: TaggedPathOption| !model_inferior(e.0, *summary, node as int)),
        decreases path_options@.len() - i,
    {
        let ghost before = tagged(path_options@, tags@);
        proof {
            assert(start.take(j + 1) =~= start.take(j).push(start[j]));
            broadcast use Seq::lemma_filter_push;
            assert(before[i as int] == start[j]);
            assert(start.skip(j) =~= seq![start[j]] + start.skip(j + 1));
        }
        if path_options[i].completely_inferior_to(summary, node) {
            path_options.remove(i);
            tags.remove(i);
            proof {
                assert(tagged(path_options@, tags@) =~= before.remove(i as int));
                assert(!keep(start[j]));
                assert(before.remove(i as int) =~= start.take(j + 1).filter(keep) + start.skip(j + 1));
                j = j + 1;
            }
        } else {
            proof {
                assert(keep(start[j]));
                assert(before =~= start.take(j + 1).filter(keep) + start.skip(j + 1));
                j = j + 1;
            }
            i = i + 1;
        }
    }
    proof {
        assert(start.take(j) =~= start);
        assert(tagged(path_options@, tags@) =~= start.filter(keep));
    }
}

/// Whether an option at `node` is at least as good as `summary`.
fn some_option_at_least_as_good(
    path_options: &Vec<PathOption>,
    summary: &PathOptionSummary,
    node: usize,
) -> (r: bool)
    requires
        forall|i: int| 0 <= i < path_options@.len() ==> (#[trigger] path_options@[i])@.1.len() > 0,
    ensures
        r == exists|i: int|
            0 <= i < path_options@.len() && model_node((#[trigger] path_options@[i])@) == node
                && path_options@[i]@.0.at_least_as_good_as_spec(*summary),
{
    let mut k: usize = 0;
    while k < path_options.len()
        invariant
            k <= path_options@.len(),
            forall|i: int| 0 <= i < path_options@.len() ==> (#[trigger] path_options@[i])@.1.len() > 0,
            forall|q: int|
                0 <= q < k ==> !(model_node((#[trigger] path_options@[q])@) == node
                    && path_options@[q]@.0.at_least_as_good_as_spec(*summary)),
        decreases path_options@.len() - k,
    {
        if (path_options[k].get_current_node() == node) && (path_options[k].summary.at_least_as_good_as(summary)) {
            return true;
        }
        k = k + 1;
    }
    false
}

/// Some option of `list` at the node of `m` is at least as good as `m`.
pub open spec fn dominated_in(m: PathOptionModel, list: Seq<TaggedPathOption>) -> bool {
    exists|k: int|
        0 <= k < list.len() && model_node(#[trigger] list[k].0) == model_node(m)
            && list[k].0.0.at_least_as_good_as_spec(m.0)
}

/// Every option of `a` is dominated in `b`.
pub open spec fn all_dominated(a: Seq<TaggedPathOption>, b: Seq<TaggedPathOption>) -> bool {
    forall|i: int| 0 <= i < a.len() ==> dominated_in(#[trigger] a[i].0, b)
}

/// Domination carries over: what `a` dominates, `b` dominates when `b` dominates all of `a`.
pub proof fn lemma_dominated_transitive(
    m: PathOptionModel,
    a: Seq<TaggedPathOption>,
    b: Seq<TaggedPathOption>,
)
    requires
        dominated_in(m, a),
        all_dominated(a, b),
    ensures
        dominated_in(m, b),
{
    let k = choose|k: int|
        0 <= k < a.len() && model_node(#[trigger] a[k].0) == model_node(m)
            && a[k].0.0.at_least_as_good_as_spec(m.0);
    assert(dominated_in(a[k].0, b));
    let q = choose|q: int|
        0 <= q < b.len() && model_node(#[trigger] b[q].0) == model_node(a[k].0)
            && b[q].0.0.at_least_as_good_as_spec(a[k].0.0);
    lemma_summary_at_least_as_good_as_preorder(b[q].0.0, a[k].0.0, m.0);
}

/// Every list dominates itself.
pub proof fn lemma_all_dominated_reflexive(a: Seq<TaggedPathOption>)
    ensures
        all_dominated(a, a),
{
    assert forall|i: int| 0 <= i < a.len() implies dominated_in(#[trigger] a[i].0, a) by {
        lemma_summary_at_least_as_good_as_preorder(a[i].0.0, a[i].0.0, a[i].0.0);
    }
}

/// `all_dominated` is transitive.
pub proof fn lemma_all_dominated_transitive(
    a: Seq<TaggedPathOption>,
    b: Seq<TaggedPathOption>,
    c: Seq<TaggedPathOption>,
)
    requires
        all_dominated(a, b),
        all_dominated(b, c),
    ensures
        all_dominated(a, c),
{
    assert forall|i: int| 0 <= i < a.len() implies dominated_in(#[trigger] a[i].0, c) by {
        lemma_dominated_transitive(a[i].0, b, c);
    }
}

/// The dominance rule never loses a path: after an addition, every option that was in the
/// list, and the added one, has an option at its node that is at least as good; and the
/// list holds nothing but what it held and the created option.
pub proof fn lemma_add_path_option_keeps_dominance(
    list: Seq<TaggedPathOption>,
    summary: PathOptionSummary,
    node: int,
    created: PathOptionModel,
)
    requires
        model_node(created) == node,
        created.0 == summary,
    ensures
        all_dominated(list, add_path_option(list, summary, node, created)),
        dominated_in(created, add_path_option(list, summary, node, created)),
        forall|k: int|
            0 <= k < add_path_option(list, summary, node, created).len() ==> list.contains(
                #[trigger] add_path_option(list, summary, node, created)[k],
            ) || add_path_option(list, summary, node, created)[k] == (
                created,
                NEW_OPTION_TAG as int,
            ),
{
    broadcast use Seq::lemma_filter_contains, Seq::lemma_filter_contains_rev;

    let result = add_path_option(list, summary, node, created);
    let keep = |e: TaggedPathOption| !model_inferior(e.0, summary, node);
    let kept = list.filter(keep);
    lemma_summary_at_least_as_good_as_preorder(summary, summary, summary);
    if kept.len() < list.len() {
        assert(result == kept.push((created, NEW_OPTION_TAG as int)));
        assert forall|i: int| 0 <= i < list.len() implies dominated_in(#[trigger] list[i].0, result) by {
            if keep(list[i]) {
                assert(kept.contains(list[i]));
                let k = choose|k: int| 0 <= k < kept.len() && kept[k] == list[i];
                assert(result[k] == list[i]);
                lemma_summary_at_least_as_good_as_preorder(list[i].0.0, list[i].0.0, list[i].0.0);
                assert(model_node(result[k].0) == model_node(list[i].0));
            } else {
                let k = kept.len() as int;
                assert(result[k] == (created, NEW_OPTION_TAG as int));
                assert(model_node(result[k].0) == model_node(list[i].0));
                assert(result[k].0.0.at_least_as_good_as_spec(list[i].0.0));
            }
        }
        let k = kept.len() as int;
        assert(result[k] == (created, NEW_OPTION_TAG as int));
        assert(model_node(result[k].0) == model_node(created));
        assert forall|k: int| 0 <= k < result.len() implies list.contains(#[trigger] result[k]) || result[k] == (
            created,
            NEW_OPTION_TAG as int,
        ) by {
            if k < kept.len() {
                assert(kept.contains(kept[k]));
            }
        }
    } else if exists|i: int|
        0 <= i < list.len() && model_node(#[trigger] list[i].0) == node
            && list[i].0.0.at_least_as_good_as_spec(summary) {
        lemma_all_dominated_reflexive(list);
        let w = choose|i: int|
            0 <= i < list.len() && model_node(#[trigger] list[i].0) == node
                && list[i].0.0.at_least_as_good_as_spec(summary);
        assert(model_node(result[w].0) == model_node(created));
        assert forall|k: int| 0 <= k < result.len() implies list.contains(#[trigger] result[k]) || result[k] == (
            created,
            NEW_OPTION_TAG as int,
        ) by {
        }
    } else {
        assert(result == list.push((created, NEW_OPTION_TAG as int)));
        assert forall|i: int| 0 <= i < list.len() implies dominated_in(#[trigger] list[i].0, result) by {
            assert(result[i] == list[i]);
            lemma_summary_at_least_as_good_as_preorder(list[i].0.0, list[i].0.0, list[i].0.0);
            assert(model_node(result[i].0) == model_node(list[i].0));
        }
        let k = list.len() as int;
        assert(result[k] == (created, NEW_OPTION_TAG as int));
        assert(model_node(result[k].0) == model_node(created));
        assert forall|k: int| 0 <= k < result.len() implies list.contains(#[trigger] result[k]) || result[k] == (
            created,
            NEW_OPTION_TAG as int,
        ) by {
            if k < list.len() {
                assert(result[k] == list[k]);
            }
        }
    }
}

/// A filter keeps a sequence free of duplicates.
proof fn lemma_filter_no_duplicates<A>(s: Seq<A>, p: spec_fn(A) -> bool)
    requires
        s.no_duplicates(),
    ensures
        s.filter(p).no_duplicates(),
    decreases s.len(),
{
    broadcast use Seq::lemma_filter_push, Seq::lemma_filter_contains_rev;

    if s.len() > 0 {
        let t = s.drop_last();
        assert(s == t.push(s.last()));
        assert(t.no_duplicates());
        lemma_filter_no_duplicates(t, p);
        if p(s.last()) {
            let f = t.filter(p);
            if f.contains(s.last()) {
                assert(t.contains(s.last()));
                let k = choose|k: int| 0 <= k < t.len() && t[k] == s.last();
                assert(s[k] == s[s.len() - 1]);
            }
            assert forall|i: int, j: int| 0 <= i < f.push(s.last()).len() && 0 <= j < f.push(s.last()).len() && i != j implies f.push(
                s.last(),
            )[i] != f.push(s.last())[j] by {
                if i < f.len() && j < f.len() {
                } else if i < f.len() {
                    assert(f.contains(f[i]));
                } else {
                    assert(f.contains(f[j]));
                }
            }
        }
    }
}

/// No two different options of `list` at the same node are such that one is at least as
/// good as the other.
pub open spec fn antichain(list: Seq<TaggedPathOption>) -> bool {
    forall|i: int, j: int|
        0 <= i < list.len() && 0 <= j < list.len() && list[i] != list[j] && model_node(list[i].0) == model_node(
            list[j].0,
        ) ==> !(#[trigger] list[i]).0.0.at_least_as_good_as_spec((#[trigger] list[j]).0.0)
}

/// The dominance rule keeps the options an antichain: an addition leaves no option at least
/// as good as another at the same node.
pub proof fn lemma_add_path_option_antichain(
    list: Seq<TaggedPathOption>,
    summary: PathOptionSummary,
    node: int,
    created: PathOptionModel,
)
    requires
        antichain(list),
        list.no_duplicates(),
        model_node(created) == node,
        created.0 == summary,
    ensures
        antichain(add_path_option(list, summary, node, created)),
        add_path_option(list, summary, node, created).no_duplicates(),
{
    broadcast use Seq::lemma_filter_contains_rev, Seq::lemma_filter_pred;

    lemma_add_path_option_subset(list, summary, node, created);
    let result = add_path_option(list, summary, node, created);
    let keep = |e: TaggedPathOption| !model_inferior(e.0, summary, node);
    let kept = list.filter(keep);
    let c = (created, NEW_OPTION_TAG as int);
    if kept.len() < list.len() {
        assert(result == kept.push(c));
        lemma_filter_no_duplicates(list, keep);
        if forall|q: int| 0 <= q < list.len() ==> keep(list[q]) {
            lemma_filter_all(list, keep);
            assert(false);
        }
        let r = choose|q: int| 0 <= q < list.len() && !keep(list[q]);
        let y = list[r];
        assert forall|i: int, j: int|
            0 <= i < result.len() && 0 <= j < result.len() && result[i] != result[j] && model_node(result[i].0)
                == model_node(result[j].0) implies !(#[trigger] result[i]).0.0.at_least_as_good_as_spec(
            (#[trigger] result[j]).0.0,
        ) by {
            // an option kept is never at least as good as the created one
            assert forall|x: TaggedPathOption|
                kept.contains(x) && x != c && model_node(x.0) == node implies !x.0.0.at_least_as_good_as_spec(summary) by {
                if x.0.0.at_least_as_good_as_spec(summary) {
                    lemma_summary_at_least_as_good_as_preorder(x.0.0, summary, y.0.0);
                    assert(keep(x));
                    assert(x != y);
                    let a = choose|a: int| 0 <= a < list.len() && list[a] == x;
                    assert(list[a].0.0.at_least_as_good_as_spec(list[r].0.0));
                }
            }
            if i < kept.len() && j < kept.len() {
                assert(kept.contains(result[i]) && kept.contains(result[j]));
                let a = choose|a: int| 0 <= a < list.len() && list[a] == result[i];
                let b = choose|b: int| 0 <= b < list.len() && list[b] == result[j];
                assert(list[a] != list[b]);
            } else if i < kept.len() {
                assert(result[j] == c);
                assert(kept.contains(result[i]));
                assert(!result[i].0.0.at_least_as_good_as_spec(summary));
            } else if j < kept.len() {
                assert(result[i] == c);
                let x = result[j];
                assert(kept.contains(x));
                assert(keep(x));
                lemma_summary_partly_superior_duality(summary, x.0.0);
            }
        }
        if kept.contains(c) {
            lemma_summary_at_least_as_good_as_preorder(summary, summary, y.0.0);
            assert(keep(c));
            let a = choose|a: int| 0 <= a < list.len() && list[a] == c;
            assert(list[a].0.0.at_least_as_good_as_spec(list[r].0.0));
            assert(false);
        }
        assert forall|i: int, j: int| 0 <= i < result.len() && 0 <= j < result.len() && i != j implies result[i]
            != result[j] by {
            if i < kept.len() && j < kept.len() {
            } else if i < kept.len() {
                assert(kept.contains(result[i]));
            } else {
                assert(kept.contains(result[j]));
            }
        }
    } else if exists|q: int|
        0 <= q < list.len() && model_node(#[trigger] list[q].0) == node && list[q].0.0.at_least_as_good_as_spec(
            summary,
        ) {
        assert(result == list);
    } else {
        assert(result == list.push(c));
        lemma_filter_full_len(list, keep);
        if list.contains(c) {
            let a = choose|a: int| 0 <= a < list.len() && list[a] == c;
            lemma_summary_at_least_as_good_as_preorder(summary, summary, summary);
            assert(model_node(list[a].0) == node && list[a].0.0.at_least_as_good_as_spec(summary));
            assert(false);
        }
        assert forall|i: int, j: int| 0 <= i < result.len() && 0 <= j < result.len() && i != j implies result[i]
            != result[j] by {
            if i < list.len() && j < list.len() {
            } else if i < list.len() {
                assert(result[i] == list[i]);
            } else {
                assert(result[j] == list[j]);
            }
        }
        assert forall|i: int, j: int|
            0 <= i < result.len() && 0 <= j < result.len() && result[i] != result[j] && model_node(result[i].0)
                == model_node(result[j].0) implies !(#[trigger] result[i]).0.0.at_least_as_good_as_spec(
            (#[trigger] result[j]).0.0,
        ) by {
            if i < list.len() && j < list.len() {
                assert(result[i] == list[i] && result[j] == list[j]);
            } else if i < list.len() {
                assert(result[i] == list[i]);
            } else if j < list.len() {
                assert(result[j] == list[j]);
                assert(kept.contains(list[j]));
                assert(keep(list[j]));
                lemma_summary_partly_superior_duality(summary, list[j].0.0);
            }
        }
    }
}

/// A filter that keeps as many elements as there are keeps them all.
proof fn lemma_filter_full_len<A>(s: Seq<A>, p: spec_fn(A) -> bool)
    requires
        s.filter(p).len() == s.len(),
    ensures
        s.filter(p) == s,
    decreases s.len(),
{
    broadcast use Seq::lemma_filter_push;
    if s.len() > 0 {
        let t = s.drop_last();
        assert(s == t.push(s.last()));
        t.lemma_filter_len(p);
        assert(p(s.last()));
        lemma_filter_full_len(t, p);
    }
}

// ---------------------------------------------------------------------------------------------
// Search states
// ---------------------------------------------------------------------------------------------

/// Whether request `node` (1..64) is marked in `requests_visited`: bit `node - 1`.
pub open spec fn visited(requests_visited: u64, node: int) -> bool {
    requests_visited & (1u64 << ((node - 1) as u64)) != 0
}

/// Setting bit `node - 1` marks `node` and changes no other request.
pub proof fn lemma_mark_visited(requests_visited: u64, node: int, other: int)
    requires
        1 <= node < 64,
        1 <= other < 64,
    ensures
        visited(requests_visited | (1u64 << ((node - 1) as u64)), other) == (visited(
            requests_visited,
            other,
        ) || other == node),
{
    let a = (node - 1) as u64;
    let b = (other - 1) as u64;
    assert(a < 64 && b < 64 ==> ((requests_visited | (1u64 << a)) & (1u64 << b) != 0) == ((
    requests_visited & (1u64 << b) != 0) || a == b)) by (bit_vector);
}

/// The mask of the options in `c` whose loading distance is `ld`: bit `i` for option `i`.
pub open spec fn container_mask(c: Seq<ContainerOption>, ld: int) -> u32
    decreases c.len(),
{
    if c.len() == 0 {
        0
    } else {
        let rest = container_mask(c.drop_last(), ld);
        if c.last().loading_distance() == ld {
            rest | (1u32 << ((c.len() - 1) as usize))
        } else {
            rest
        }
    }
}

/// The state of the search at a request node or the depot (fuel stations are covered in the
/// path options): the ways to get here from the previous state, the loads the truck may
/// carry, the pickup nodes of the full containers on board (0 for none), the requests
/// visited (bit `n - 1` for request `n`) and the previous state.
pub struct SearchState {
    current_node: usize,
    path_options: Vec<PathOption>,
    container_options: Vec<ContainerOption>,
    full_request_1_source: usize,
    full_request_2_source: usize,
    requests_visited: u64,
    previous_state: Option<Rc<SearchState>>,
}

impl SearchState {
    pub closed spec fn node(&self) -> int {
        self.current_node as int
    }

    pub closed spec fn paths(&self) -> Seq<PathOption> {
        self.path_options@
    }

    pub closed spec fn containers(&self) -> Seq<ContainerOption> {
        self.container_options@
    }

    pub closed spec fn sources(&self) -> (int, int) {
        (self.full_request_1_source as int, self.full_request_2_source as int)
    }

    pub closed spec fn visited_mask(&self) -> u64 {
        self.requests_visited
    }

    pub closed spec fn previous(&self) -> Option<SearchState> {
        match self.previous_state {
            Some(p) => Some(*p),
            None => None,
        }
    }

    /// The number of states in the chain that ends here.
    pub closed spec fn depth(&self) -> nat
        decreases self,
    {
        match self.previous_state {
            Some(p) => 1 + (*p).depth(),
            None => 1,
        }
    }
}

/// A path option that `solve` can build on: a non-empty path of nodes of the matrix and
/// refuel markers, no more fuel than the tank holds, and an index into the `prev_len`
/// path options of the previous state.
pub open spec fn path_option_valid(m: PathOptionModel, config: Config, truck: Truck, prev_len: int) -> bool {
    &&& m.1.len() > 0
    &&& forall|i: int|
        0 <= i < m.1.len() ==> (#[trigger] m.1[i] < config.dimension() || m.1[i]
            == ROUTE_DEPOT_REFUEL as usize)
    &&& m.0.fuel() <= truck.fuel_capacity()
    &&& 0 <= m.2 < prev_len
}

/// A container option that `solve` can build on: a load that fits, and an index into the
/// `prev_len` container options of the previous state.
pub open spec fn container_option_valid(c: ContainerOption, truck: Truck, prev_len: int) -> bool {
    &&& c.fits(truck)
    &&& 0 <= c.previous() < prev_len
}

impl SearchState {
    /// The invariant of a chain of states built by the search from `config` for `truck`:
    /// each state is at the depot or a request node, has at least one path option, all ending
    /// at its node, and at most 32 container options; the indices into the previous state
    /// are in range, and a state that has a successor has a container option. The chain
    /// starts at the depot with no request visited, and each later state marks its request
    /// (one not visited before) on top of the previous state's requests.
    pub closed spec fn valid(&self, config: Config, truck: Truck) -> bool
        decreases self,
    {
        let prev_paths = match self.previous_state {
            Some(p) => (*p).path_options@.len() as int,
            None => 1,
        };
        let prev_containers = match self.previous_state {
            Some(p) => (*p).container_options@.len() as int,
            None => 1,
        };
        &&& 0 <= self.current_node < config.first_afs()
        &&& self.path_options@.len() > 0
        &&& forall|i: int|
            0 <= i < self.path_options@.len() ==> path_option_valid(
                (#[trigger] self.path_options@[i])@,
                config,
                truck,
                prev_paths,
            ) && model_node(self.path_options@[i]@) == self.current_node
        &&& forall|i: int|
            0 <= i < self.path_options@.len() ==> heads_for(
                (#[trigger] self.path_options@[i])@.1,
                config.first_afs(),
                self.current_node as int,
            )
        &&& self.container_options@.len() <= 32
        &&& forall|i: int|
            0 <= i < self.container_options@.len() ==> container_option_valid(
                #[trigger] self.container_options@[i],
                truck,
                prev_containers,
            )
        &&& match self.previous_state {
            Some(p) => {
                &&& (*p).container_options@.len() > 0
                &&& (*p).valid(config, truck)
                &&& self.current_node != 0 ==> !visited((*p).requests_visited, self.current_node as int)
                &&& self.requests_visited == (*p).visited_after(self.current_node as int)
            },
            None => self.current_node == 0 && self.requests_visited == 0,
        }
    }

    /// What validity says of a state, in terms of what it shows: its node is the depot or a
    /// request, its path options end there and are valid, it has at most 32 valid container
    /// options, and it marks its node visited after the valid state before it, or it is the
    /// first state, at the depot with nothing visited.
    pub proof fn lemma_valid_unfold(&self, config: Config, truck: Truck)
        requires
            self.valid(config, truck),
        ensures
            0 <= self.node() < config.first_afs(),
            self.paths().len() > 0,
            self.containers().len() <= 32,
            forall|i: int|
                0 <= i < self.paths().len() ==> path_option_valid(
                    (#[trigger] models(self.paths())[i]),
                    config,
                    truck,
                    match self.previous() {
                        Some(p) => p.paths().len() as int,
                        None => 1,
                    },
                ) && model_node(models(self.paths())[i]) == self.node(),
            forall|i: int|
                0 <= i < self.containers().len() ==> container_option_valid(
                    #[trigger] self.containers()[i],
                    truck,
                    match self.previous() {
                        Some(p) => p.containers().len() as int,
                        None => 1,
                    },
                ),
            match self.previous() {
                Some(p) => {
                    &&& p.valid(config, truck)
                    &&& p.containers().len() > 0
                    &&& self.node() != 0 ==> !visited(p.visited_mask(), self.node())
                    &&& self.visited_mask() == p.visited_after(self.node())
                },
                None => self.node() == 0 && self.visited_mask() == 0,
            },
    {
        assert forall|i: int| 0 <= i < self.paths().len() implies #[trigger] models(self.paths())[i] == self.paths()[i]@ by {
        }
    }

    /// The nodes of the states in the chain that ends here, the first state's first.
    pub closed spec fn chain_nodes(&self) -> Seq<int>
        decreases self,
    {
        match self.previous_state {
            Some(p) => (*p).chain_nodes().push(self.current_node as int),
            None => seq![self.current_node as int],
        }
    }

    /// A full container is on board.
    pub open spec fn is_carrying_spec(&self) -> bool {
        self.sources().0 != 0 || self.sources().1 != 0
    }

    pub fn is_carrying_full_container(&self) -> (r: bool)
        ensures
            r == self.is_carrying_spec(),
    {
        return self.full_request_1_source != 0 || self.full_request_2_source != 0;
    }

    /// Whether request `request_node` has been visited.
    pub fn get_request_visited(&self, request_node: usize) -> (r: bool)
        requires
            1 <= request_node < 64,
        ensures
            r == visited(self.visited_mask(), request_node as int),
    {
        let request_binary: u64 = 1u64 << ((request_node - 1) as u64);
        let request_result = self.requests_visited & request_binary;
        return request_result != 0;
    }

    /// Marks request `request_node` as visited.
    fn set_request_visited(&mut self, request_node: usize)
        requires
            1 <= request_node < 64,
        ensures
            final(self).requests_visited == old(self).requests_visited | (1u64 << ((request_node
                - 1) as u64)),
            final(self).current_node == old(self).current_node,
            final(self).path_options == old(self).path_options,
            final(self).container_options == old(self).container_options,
            final(self).full_request_1_source == old(self).full_request_1_source,
            final(self).full_request_2_source == old(self).full_request_2_source,
            final(self).previous_state == old(self).previous_state,
    {
        let request_binary: u64 = 1u64 << ((request_node - 1) as u64);
        self.requests_visited = self.requests_visited | request_binary;
    }

    pub fn get_current_node(&self) -> (r: usize)
        ensures
            r == self.node(),
    {
        return self.current_node;
    }

    /// For loading distances 0, 1 and 2, the mask of the container options with that loading
    /// distance: bit `n` for the option at index `n`.
    fn get_container_masks(container_options_at_node: &Vec<ContainerOption>) -> (r: [u32; 3])
        requires
            container_options_at_node@.len() <= 32,
            forall|i: int|
                0 <= i < container_options_at_node@.len() ==> 0 <= (
                #[trigger] container_options_at_node@[i]).loading_distance() <= 2,
        ensures
            forall|ld: int| 0 <= ld < 3 ==> r@[ld] == container_mask(container_options_at_node@, ld),
    {
        let ghost c = container_options_at_node@;
        let mut load_0: u32 = 0;
        let mut load_1: u32 = 0;
        let mut load_2: u32 = 0;
        let mut index: usize = 0;
        while index < container_options_at_node.len()
            invariant
                index <= c.len(),
                c == container_options_at_node@,
                c.len() <= 32,
                forall|i: int| 0 <= i < c.len() ==> 0 <= (#[trigger] c[i]).loading_distance() <= 2,
                load_0 == container_mask(c.take(index as int), 0),
                load_1 == container_mask(c.take(index as int), 1),
                load_2 == container_mask(c.take(index as int), 2),
            decreases c.len() - index,
        {
            let option = &container_options_at_node[index];
            let key: u32 = 1u32 << index;
            proof {
                let t = c.take(index + 1);
                assert(t.drop_last() =~= c.take(index as int));
                assert(t.last() == c[index as int]);
            }
            if option.last_loading_distance == 0 {
                load_0 = load_0 | key;
            } else if option.last_loading_distance == 1 {
                load_1 = load_1 | key;
            } else {
                load_2 = load_2 | key;
            }
            index = index + 1;
        }
        assert(c.take(c.len() as int) =~= c);
        return [load_0, load_1, load_2];
    }
}

/// The changes (empty 20, empty 40, total 20, total 40) that visiting `request_node` makes to
/// a load: a full pickup or a full dropoff changes the totals by the request's full
/// containers, an empty pickup or an empty delivery changes both by its empty ones.
pub open spec fn request_change(config: Config, request_node: int) -> (int, int, int, int) {
    let r = config.requests()[request_node - 1];
    if request_node <= config.full_pickups() || (config.first_full_dropoff() <= request_node
        < config.first_empty_dropoff()) {
        (0, 0, r.full_20 as int, r.full_40 as int)
    } else {
        (r.empty_20 as int, r.empty_40 as int, r.empty_20 as int, r.empty_40 as int)
    }
}

impl ContainerOption {
    /// The option reached from `prev` (the option at `index` of the previous state) by
    /// visiting `request_node`, if the resulting load fits the truck.
    pub closed spec fn arrival(
        config: Config,
        truck: Truck,
        prev: ContainerOption,
        index: int,
        request_node: int,
    ) -> Option<ContainerOption> {
        let d = request_change(config, request_node);
        let e20 = prev.empty_20 + d.0;
        let e40 = prev.empty_40 + d.1;
        let n20 = prev.num_20 + d.2;
        let n40 = prev.num_40 + d.3;
        if 0 <= e20 <= n20 <= truck.num_20() && 0 <= e40 <= n40 <= truck.num_40() {
            Some(
                ContainerOption {
                    empty_20: e20 as i8,
                    empty_40: e40 as i8,
                    num_20: n20 as i8,
                    num_40: n40 as i8,
                    previous_index: index as usize,
                    last_loading_distance: prev.last_loading_distance,
                    compatible_path_options: 0,
                },
            )
        } else {
            None
        }
    }

    /// Visiting `request_node` from `prev` changes its containers by the request, keeps its
    /// loading distance and links back to `index`; it is possible exactly when the result fits
    /// the truck.
    pub proof fn lemma_arrival_fields(
        config: Config,
        truck: Truck,
        prev: ContainerOption,
        index: int,
        request_node: int,
    )
        requires
            truck.wf(),
            0 <= index <= usize::MAX,
        ensures
            ({
                let d = request_change(config, request_node);
                let r = Self::arrival(config, truck, prev, index, request_node);
                &&& r is Some <==> (0 <= prev.empty_20() + d.0 <= prev.num_20() + d.2 <= truck.num_20() && 0
                    <= prev.empty_40() + d.1 <= prev.num_40() + d.3 <= truck.num_40())
                &&& r is Some ==> {
                    &&& r.unwrap().empty_20() == prev.empty_20() + d.0
                    &&& r.unwrap().empty_40() == prev.empty_40() + d.1
                    &&& r.unwrap().num_20() == prev.num_20() + d.2
                    &&& r.unwrap().num_40() == prev.num_40() + d.3
                    &&& r.unwrap().previous() == index
                    &&& r.unwrap().loading_distance() == prev.loading_distance()
                    &&& r.unwrap().compatible() == 0
                }
            }),
    {
    }

    /// What a visit does to the containers on board, by the request's kind: at a full pickup
    /// or a full dropoff the full containers of the request are loaded or unloaded and the
    /// empty ones stay; at an empty pickup or an empty delivery the empty containers of the
    /// request are loaded or unloaded, and they count among the empty ones on board.
    pub proof fn lemma_arrival_changes(
        config: Config,
        truck: Truck,
        prev: ContainerOption,
        index: int,
        request_node: int,
    )
        requires
            truck.wf(),
            0 <= index <= usize::MAX,
            1 <= request_node,
        ensures
            ({
                let r = config.requests()[request_node - 1];
                let a = Self::arrival(config, truck, prev, index, request_node);
                let full_kind = request_node <= config.full_pickups() || (config.first_full_dropoff()
                    <= request_node < config.first_empty_dropoff());
                &&& full_kind && a is Some ==> {
                    &&& a.unwrap().empty_20() == prev.empty_20()
                    &&& a.unwrap().empty_40() == prev.empty_40()
                    &&& a.unwrap().num_20() == prev.num_20() + r.full_20
                    &&& a.unwrap().num_40() == prev.num_40() + r.full_40
                }
                &&& !full_kind && a is Some ==> {
                    &&& a.unwrap().empty_20() == prev.empty_20() + r.empty_20
                    &&& a.unwrap().empty_40() == prev.empty_40() + r.empty_40
                    &&& a.unwrap().num_20() == prev.num_20() + r.empty_20
                    &&& a.unwrap().num_40() == prev.num_40() + r.empty_40
                }
            }),
    {
    }

    /// On requests that load at pickups and unload at deliveries, `arrival` makes the test
    /// of the request's kind: at a pickup, whether the truck has room for what is loaded; at
    /// a full delivery, none, when the containers delivered are on board; at an empty
    /// delivery, whether the empties delivered are on board.
    pub proof fn lemma_arrival_by_kind(
        config: Config,
        truck: Truck,
        prev: ContainerOption,
        index: int,
        request_node: int,
    )
        requires
            truck.wf(),
            prev.fits(truck),
            0 <= index <= usize::MAX,
            1 <= request_node,
        ensures
            ({
                let r = config.requests()[request_node - 1];
                let a = Self::arrival(config, truck, prev, index, request_node);
                &&& request_node <= config.full_pickups() && r.full_20 >= 0 && r.full_40 >= 0 ==> (a is Some <==> (
                prev.num_20() + r.full_20 <= truck.num_20() && prev.num_40() + r.full_40 <= truck.num_40()))
                &&& config.full_pickups() < request_node < config.first_full_dropoff() && r.empty_20 >= 0
                    && r.empty_40 >= 0 ==> (a is Some <==> (prev.num_20() + r.empty_20 <= truck.num_20()
                    && prev.num_40() + r.empty_40 <= truck.num_40()))
                &&& config.first_full_dropoff() <= request_node < config.first_empty_dropoff() && r.full_20 <= 0
                    && r.full_40 <= 0 && prev.num_20() - prev.empty_20() >= -r.full_20 && prev.num_40()
                    - prev.empty_40() >= -r.full_40 ==> a is Some
                &&& config.first_empty_dropoff() <= request_node && r.empty_20 <= 0 && r.empty_40 <= 0 ==> (a is Some
                    <==> (prev.empty_20() + r.empty_20 >= 0 && prev.empty_40() + r.empty_40 >= 0))
            }),
    {
    }
}

/// The options reached from each of `c`, in order, by visiting `request_node`.
pub open spec fn arrivals(config: Config, truck: Truck, c: Seq<ContainerOption>, request_node: int) -> Seq<
    ContainerOption,
>
    decreases c.len(),
{
    if c.len() == 0 {
        Seq::empty()
    } else {
        let rest = arrivals(config, truck, c.drop_last(), request_node);
        match ContainerOption::arrival(config, truck, c.last(), c.len() - 1, request_node) {
            Some(o) => rest.push(o),
            None => rest,
        }
    }
}

/// The arrivals come in the order of the options they come from and link back to them,
/// keep their loading distances, and are compatible with no path option yet.
pub proof fn lemma_arrivals_linked(config: Config, truck: Truck, c: Seq<ContainerOption>, request_node: int)
    requires
        truck.wf(),
        c.len() <= usize::MAX,
    ensures
        ({
            let r = arrivals(config, truck, c, request_node);
            &&& r.len() <= c.len()
            &&& forall|i: int, j: int| 0 <= i < j < r.len() ==> (#[trigger] r[i]).previous() < (#[trigger] r[j]).previous()
            &&& forall|i: int|
                0 <= i < r.len() ==> 0 <= (#[trigger] r[i]).previous() < c.len() && r[i].loading_distance()
                    == c[r[i].previous()].loading_distance() && r[i].compatible() == 0
        }),
    decreases c.len(),
{
    if c.len() > 0 {
        let rest = c.drop_last();
        lemma_arrivals_linked(config, truck, rest, request_node);
        ContainerOption::lemma_arrival_fields(config, truck, c.last(), c.len() - 1, request_node);
        let r = arrivals(config, truck, c, request_node);
        let before = arrivals(config, truck, rest, request_node);
        assert forall|i: int| 0 <= i < before.len() implies c[(#[trigger] before[i]).previous()] == rest[before[i].previous()] by {
        }
        if let Some(o) = ContainerOption::arrival(config, truck, c.last(), c.len() - 1, request_node) {
            assert(r == before.push(o));
            assert forall|i: int, j: int| 0 <= i < j < r.len() implies (#[trigger] r[i]).previous() < (#[trigger] r[j]).previous() by {
                if j == before.len() {
                    assert(r[i] == before[i]);
                } else {
                    assert(r[i] == before[i] && r[j] == before[j]);
                }
            }
            assert forall|i: int| 0 <= i < r.len() implies 0 <= (#[trigger] r[i]).previous() < c.len() && r[i].loading_distance()
                == c[r[i].previous()].loading_distance() && r[i].compatible() == 0 by {
                if i < before.len() {
                    assert(r[i] == before[i]);
                }
            }
        }
    }
}

/// The container options at `request_node` if it is visited next from a state with visited
/// requests `mask` and container options `c`: none if it was visited already, or if it is a
/// full dropoff whose pickup has not been visited; otherwise the arrival from each option of
/// `c` whose resulting load fits the truck.
pub open spec fn options_at(mask: u64, c: Seq<ContainerOption>, config: Config, truck: Truck, request_node: int) -> Seq<
    ContainerOption,
> {
    if visited(mask, request_node) {
        Seq::empty()
    } else if config.first_full_dropoff() <= request_node < config.first_empty_dropoff() && !visited(
        mask,
        request_node - config.empty_pickups() - config.full_pickups(),
    ) {
        Seq::empty()
    } else {
        arrivals(config, truck, c, request_node)
    }
}

impl SearchState {
    /// The container options at `request_node` if it is visited next: none if it was visited
    /// already, or if it is a full dropoff whose pickup has not been visited; otherwise the
    /// arrival from each current option whose resulting load fits the truck.
    pub open spec fn options_at_node_spec(&self, config: Config, truck: Truck, request_node: int) -> Seq<
        ContainerOption,
    > {
        options_at(self.visited_mask(), self.containers(), config, truck, request_node)
    }

    /// If `request_node` were visited next, the container options of the next state; empty
    /// when the request cannot be served.
    pub fn get_container_options_at_node(
        &self,
        config: &Config,
        truck: &Truck,
        request_node: usize,
    ) -> (r: Vec<ContainerOption>)
        requires
            truck.wf(),
            1 <= request_node < config.first_afs(),
            request_node < 64,
            request_node <= config.requests().len(),
            forall|i: int|
                0 <= i < self.containers().len() ==> (#[trigger] self.containers()[i]).fits(
                    *truck,
                ),
        ensures
            r@ == self.options_at_node_spec(*config, *truck, request_node as int),
            r@.len() <= self.containers().len(),
            forall|i: int, j: int| 0 <= i < j < r@.len() ==> (#[trigger] r@[i]).previous() < (#[trigger] r@[j]).previous(),
            forall|i: int|
                0 <= i < r@.len() ==> (#[trigger] r@[i]).loading_distance() == self.containers()[r@[i].previous()].loading_distance()
                    && r@[i].compatible() == 0,
            forall|i: int|
                0 <= i < r@.len() ==> container_option_valid(
                    #[trigger] r@[i],
                    *truck,
                    self.containers().len() as int,
                ),
    {
        proof {
            assert(self.containers().len() == self.container_options.len());
            lemma_arrivals_linked(*config, *truck, self.containers(), request_node as int);
        }
        let mut container_options: Vec<ContainerOption> = Vec::new();
        if self.get_request_visited(request_node) {
            return container_options;
        }
        let request = config.get_request_at_node(request_node);
        let first_full_dropoff = config.get_first_full_dropoff();
        if first_full_dropoff <= request_node && request_node < config.get_first_empty_dropoff() {
            let source_node = config.get_pick_node_for_full_dropoff(request_node);
            if !self.get_request_visited(source_node) {
                return container_options;
            }
        }
        let full_pickup = config.get_full_pickup();
        let changes_full = request_node <= full_pickup || (first_full_dropoff <= request_node
            && request_node < config.get_first_empty_dropoff());
        let (d_e20, d_e40, d_n20, d_n40): (i64, i64, i64, i64) = if changes_full {
            (0, 0, request.full_20 as i64, request.full_40 as i64)
        } else {
            (
                request.empty_20 as i64,
                request.empty_40 as i64,
                request.empty_20 as i64,
                request.empty_40 as i64,
            )
        };
        let cap_20 = truck.get_num_20_foot_containers() as i64;
        let cap_40 = truck.get_num_40_foot_containers() as i64;
        let ghost c = self.container_options@;
        assert(c == self.containers());
        let mut previous_index: usize = 0;
        while previous_index < self.container_options.len()
            invariant
                c == self.container_options@,
                previous_index <= c.len(),
                container_options@ == arrivals(*config, *truck, c.take(previous_index as int), request_node as int),
                container_options@.len() <= previous_index,
                forall|i: int|
                    0 <= i < container_options@.len() ==> container_option_valid(
                        #[trigger] container_options@[i],
                        *truck,
                        c.len() as int,
                    ),
                forall|i: int| 0 <= i < c.len() ==> (#[trigger] c[i]).fits(*truck),
                request_change(*config, request_node as int) == (d_e20 as int, d_e40 as int, d_n20 as int, d_n40 as int),
                cap_20 == truck.num_20(),
                cap_40 == truck.num_40(),
                truck.wf(),
            decreases c.len() - previous_index,
        {
            let container_number = &self.container_options[previous_index];
            let empty_20 = container_number.empty_20 as i64 + d_e20;
            let empty_40 = container_number.empty_40 as i64 + d_e40;
            let num_20 = container_number.num_20 as i64 + d_n20;
            let num_40 = container_number.num_40 as i64 + d_n40;
            proof {
                let t = c.take(previous_index + 1);
                assert(t.drop_last() =~= c.take(previous_index as int));
                assert(t.last() == c[previous_index as int]);
            }
            if 0 <= empty_20 && empty_20 <= num_20 && num_20 <= cap_20 && 0 <= empty_40 && empty_40
                <= num_40 && num_40 <= cap_40 {
                container_options.push(
                    ContainerOption {
                        empty_20: empty_20 as i8,
                        empty_40: empty_40 as i8,
                        num_20: num_20 as i8,
                        num_40: num_40 as i8,
                        previous_index,
                        last_loading_distance: container_number.last_loading_distance,
                        compatible_path_options: 0,
                    },
                );
            }
            previous_index = previous_index + 1;
        }
        assert(c.take(c.len() as int) =~= c);
        return container_options;
    }
}

/// Adds `new` to `list` under the dominance rule for container options: the options it is
/// comparable to and completely superior to are removed, and if any was, it is added;
/// otherwise it is added unless an option with the same load is already at least as good.
pub open spec fn container_insert(list: Seq<ContainerOption>, new: ContainerOption) -> Seq<ContainerOption> {
    let kept = list.filter(|x: ContainerOption| !new.comparable_and_completely_superior_to_spec(x));
    if kept.len() < list.len() {
        kept.push(new)
    } else if exists|i: int|
        0 <= i < list.len() && (#[trigger] list[i]).comparable_to_spec(new) && list[i].at_least_as_good_as_spec(
            new,
        ) {
        list
    } else {
        list.push(new)
    }
}

/// Inserting adds nothing but `new`.
proof fn lemma_container_insert_subset(list: Seq<ContainerOption>, new: ContainerOption)
    ensures
        forall|k: int|
            0 <= k < container_insert(list, new).len() ==> list.contains(
                #[trigger] container_insert(list, new)[k],
            ) || container_insert(list, new)[k] == new,
{
    broadcast use Seq::lemma_filter_contains_rev;

    let p = |x: ContainerOption| !new.comparable_and_completely_superior_to_spec(x);
    let kept = list.filter(p);
    let result = container_insert(list, new);
    if kept.len() < list.len() {
        assert(result == kept.push(new));
        assert forall|k: int| 0 <= k < result.len() implies list.contains(#[trigger] result[k])
            || result[k] == new by {
            if k < kept.len() {
                assert(kept.contains(kept[k]));
            }
        }
    } else if exists|i: int|
        0 <= i < list.len() && (#[trigger] list[i]).comparable_to_spec(new) && list[i].at_least_as_good_as_spec(new) {
        assert forall|k: int| 0 <= k < result.len() implies list.contains(#[trigger] result[k]) by {
            assert(result[k] == list[k]);
        }
    } else {
        assert(result == list.push(new));
        assert forall|k: int| 0 <= k < result.len() implies list.contains(#[trigger] result[k])
            || result[k] == new by {
            if k < list.len() {
                assert(result[k] == list[k]);
            }
        }
    }
}

/// Every element of `s` passes `p` when the filter keeps them all.
proof fn lemma_filter_all<A>(s: Seq<A>, p: spec_fn(A) -> bool)
    requires
        forall|i: int| 0 <= i < s.len() ==> p(s[i]),
    ensures
        s.filter(p) == s,
    decreases s.len(),
{
    broadcast use Seq::lemma_filter_push;
    if s.len() > 0 {
        let t = s.drop_last();
        assert(s == t.push(s.last()));
        lemma_filter_all(t, p);
    }
}

impl ContainerOption {
    /// The option that visiting the depot from `prev` (the option at `index`) gives when the
    /// truck leaves with `empty_20`/`empty_40` empty containers and `num_20`/`num_40` in all:
    /// its loading distance counts the containers loaded or unloaded, and it keeps `prev`'s
    /// compatible path options.
    pub closed spec fn depot_option(
        prev: ContainerOption,
        index: int,
        empty_20: int,
        empty_40: int,
        num_20: int,
        num_40: int,
    ) -> ContainerOption {
        ContainerOption {
            empty_20: empty_20 as i8,
            empty_40: empty_40 as i8,
            num_20: num_20 as i8,
            num_40: num_40 as i8,
            previous_index: index as usize,
            last_loading_distance: (vstd::math::abs(empty_20 - prev.empty_20) + vstd::math::abs(
                empty_40 - prev.empty_40,
            )) as i8,
            compatible_path_options: prev.compatible_path_options,
        }
    }

    /// A depot option carries the empties and slots given, links back to `index`, counts the
    /// containers moved as its loading distance and keeps the compatible path options of `prev`.
    pub proof fn lemma_depot_option_fields(
        prev: ContainerOption,
        index: int,
        empty_20: int,
        empty_40: int,
        num_20: int,
        num_40: int,
    )
        requires
            0 <= empty_20 <= 2,
            0 <= empty_40 <= 2,
            0 <= num_20 <= 2,
            0 <= num_40 <= 2,
            0 <= prev.empty_20() <= 2,
            0 <= prev.empty_40() <= 2,
            0 <= index <= usize::MAX,
        ensures
            ({
                let r = Self::depot_option(prev, index, empty_20, empty_40, num_20, num_40);
                &&& r.empty_20() == empty_20
                &&& r.empty_40() == empty_40
                &&& r.num_20() == num_20
                &&& r.num_40() == num_40
                &&& r.previous() == index
                &&& r.loading_distance() == vstd::math::abs(empty_20 - prev.empty_20()) + vstd::math::abs(
                    empty_40 - prev.empty_40(),
                )
                &&& r.compatible() == prev.compatible()
            }),
    {
    }
}

/// Inserts `new` into `options` as `container_insert` says, removing in place.
fn insert_container_option(options: &mut Vec<ContainerOption>, new: ContainerOption)
    ensures
        final(options)@ == container_insert(old(options)@, new),
{
    let ghost start = options@;
    let ghost keep = |x: ContainerOption| !new.comparable_and_completely_superior_to_spec(x);
    let len_before = options.len();
    let mut i: usize = 0;
    let ghost mut j: int = 0;
    while i < options.len()
        invariant
            0 <= i <= j <= start.len(),
            i <= options@.len(),
            options@ == start.take(j).filter(keep) + start.skip(j),
            i == start.take(j).filter(keep).len(),
            start == old(options)@,
            keep == (|x: ContainerOption| !new.comparable_and_completely_superior_to_spec(x)),
        decreases options@.len() - i,
    {
        let ghost before = options@;
        proof {
            assert(start.take(j + 1) =~= start.take(j).push(start[j]));
            broadcast use Seq::lemma_filter_push;
            assert(before[i as int] == start[j]);
            assert(start.skip(j) =~= seq![start[j]] + start.skip(j + 1));
        }
        if new.comparable_and_completely_superior_to(&options[i]) {
            options.remove(i);
            proof {
                assert(options@ =~= start.take(j + 1).filter(keep) + start.skip(j + 1));
                j = j + 1;
            }
        } else {
            proof {
                assert(before =~= start.take(j + 1).filter(keep) + start.skip(j + 1));
                j = j + 1;
            }
            i = i + 1;
        }
    }
    proof {
        assert(start.take(j) =~= start);
        assert(options@ =~= start.filter(keep));
    }
    if len_before != options.len() {
        options.push(new);
        return ;
    }
    proof {
        lemma_filter_full_len(start, keep);
    }
    let mut k: usize = 0;
    while k < options.len()
        invariant
            k <= options@.len(),
            options@ == start,
            start == old(options)@,
            start.filter(keep) == start,
            keep == (|x: ContainerOption| !new.comparable_and_completely_superior_to_spec(x)),
            forall|q: int|
                0 <= q < k ==> !((#[trigger] options@[q]).comparable_to_spec(new) && options@[q].at_least_as_good_as_spec(
                    new,
                )),
        decreases options@.len() - k,
    {
        if options[k].comparable_to(&new) && options[k].at_least_as_good_as(&new) {
            assert(start[k as int].comparable_to_spec(new) && start[k as int].at_least_as_good_as_spec(new));
            assert(start.filter(keep).len() == start.len());
            assert(container_insert(start, new) == start);
            return ;
        }
        k = k + 1;
    }
    options.push(new);
}

/// The depot options built from each option of `c`, from index `k` on, for the load
/// (`empty_20`, `empty_40`), inserted in order into `list`.
pub open spec fn depot_from_option_of(
    c: Seq<ContainerOption>,
    list: Seq<ContainerOption>,
    empty_20: int,
    empty_40: int,
    k: int,
) -> Seq<ContainerOption>
    decreases c.len() - k,
{
    if k < 0 || k >= c.len() {
        list
    } else {
        let full_20 = c[0].num_20() - c[0].empty_20();
        let full_40 = c[0].num_40() - c[0].empty_40();
        depot_from_option_of(
            c,
            container_insert(
                list,
                ContainerOption::depot_option(c[k], k, empty_20, empty_40, full_20 + empty_20, full_40 + empty_40),
            ),
            empty_20,
            empty_40,
            k + 1,
        )
    }
}

/// The depot options for `empty_20` and the numbers of empty 40 foot containers from
/// `empty_40` up to the truck's places. A load is tried only if the full containers on
/// board and the empties fit, and no option of `c` has these empties already.
pub open spec fn depot_from_empty_40_of(
    c: Seq<ContainerOption>,
    truck: Truck,
    list: Seq<ContainerOption>,
    empty_20: int,
    empty_40: int,
) -> Seq<ContainerOption>
    decreases truck.num_40() + 1 - empty_40,
{
    if empty_40 < 0 || empty_40 > truck.num_40() {
        list
    } else {
        let full_20 = c[0].num_20() - c[0].empty_20();
        let full_40 = c[0].num_40() - c[0].empty_40();
        let tried = full_20 + empty_20 <= truck.num_20() && full_40 + empty_40 <= truck.num_40() && !(exists|i: int|
            0 <= i < c.len() && (#[trigger] c[i]).empty_20() == empty_20 && c[i].empty_40() == empty_40);
        let next = if tried {
            depot_from_option_of(c, list, empty_20, empty_40, 0)
        } else {
            list
        };
        depot_from_empty_40_of(c, truck, next, empty_20, empty_40 + 1)
    }
}

pub open spec fn depot_from_empty_20_of(
    c: Seq<ContainerOption>,
    truck: Truck,
    list: Seq<ContainerOption>,
    empty_20: int,
) -> Seq<ContainerOption>
    decreases truck.num_20() + 1 - empty_20,
{
    if empty_20 < 0 || empty_20 > truck.num_20() {
        list
    } else {
        depot_from_empty_20_of(c, truck, depot_from_empty_40_of(c, truck, list, empty_20, 0), empty_20 + 1)
    }
}

/// The container options that visiting the depot next gives, from container options `c`:
/// for each load of empty containers that the truck can take beside its full ones and that
/// no option of `c` has, the option reached from each option of `c`, kept under the
/// dominance rule.
pub open spec fn depot_options_of(c: Seq<ContainerOption>, truck: Truck) -> Seq<ContainerOption> {
    depot_from_empty_20_of(c, truck, Seq::empty(), 0)
}

/// Some option of `list` carries `empty_20` and `empty_40` empty containers.
pub open spec fn has_load(list: Seq<ContainerOption>, empty_20: int, empty_40: int) -> bool {
    exists|i: int| 0 <= i < list.len() && (#[trigger] list[i]).empty_20() == empty_20 && list[i].empty_40() == empty_40
}

/// A load of empty containers that the truck can take beside the full containers of `c` and
/// that no option of `c` has.
pub open spec fn new_load(c: Seq<ContainerOption>, truck: Truck, empty_20: int, empty_40: int) -> bool {
    &&& 0 <= empty_20
    &&& 0 <= empty_40
    &&& c[0].num_20() - c[0].empty_20() + empty_20 <= truck.num_20()
    &&& c[0].num_40() - c[0].empty_40() + empty_40 <= truck.num_40()
    &&& !has_load(c, empty_20, empty_40)
}

/// `o` carries a new load beside the full containers of `c`, and comes from the option of `c`
/// it links back to: its loading distance counts the empties moved, and it keeps that
/// option's compatible path options.
pub open spec fn from_depot(c: Seq<ContainerOption>, truck: Truck, o: ContainerOption) -> bool {
    &&& new_load(c, truck, o.empty_20(), o.empty_40())
    &&& o.num_20() - o.empty_20() == c[0].num_20() - c[0].empty_20()
    &&& o.num_40() - o.empty_40() == c[0].num_40() - c[0].empty_40()
    &&& 0 <= o.previous() < c.len()
    &&& o.loading_distance() == vstd::math::abs(o.empty_20() - c[o.previous()].empty_20()) + vstd::math::abs(
        o.empty_40() - c[o.previous()].empty_40(),
    )
    &&& o.compatible() == c[o.previous()].compatible()
}

/// Inserting keeps every load that was there and adds the load of `new`.
proof fn lemma_container_insert_loads(list: Seq<ContainerOption>, new: ContainerOption)
    ensures
        has_load(container_insert(list, new), new.empty_20(), new.empty_40()),
        forall|e20: int, e40: int|
            has_load(list, e20, e40) ==> #[trigger] has_load(container_insert(list, new), e20, e40),
{
    broadcast use Seq::lemma_filter_contains_rev;

    let p = |x: ContainerOption| !new.comparable_and_completely_superior_to_spec(x);
    let kept = list.filter(p);
    let result = container_insert(list, new);
    if kept.len() < list.len() {
        assert(result == kept.push(new));
        assert(result[kept.len() as int] == new);
        assert forall|e20: int, e40: int| has_load(list, e20, e40) implies #[trigger] has_load(result, e20, e40) by {
            let i = choose|i: int| 0 <= i < list.len() && (#[trigger] list[i]).empty_20() == e20 && list[i].empty_40() == e40;
            if !(e20 == new.empty_20() && e40 == new.empty_40()) {
                assert(p(list[i]));
                assert(list.contains(list[i]));
                assert(kept.contains(list[i]));
                let j = choose|j: int| 0 <= j < kept.len() && kept[j] == list[i];
                assert(result[j] == list[i]);
            }
        }
    } else if exists|i: int|
        0 <= i < list.len() && (#[trigger] list[i]).comparable_to_spec(new) && list[i].at_least_as_good_as_spec(new) {
        let i = choose|i: int|
            0 <= i < list.len() && (#[trigger] list[i]).comparable_to_spec(new) && list[i].at_least_as_good_as_spec(new);
        assert(result[i] == list[i]);
    } else {
        assert(result == list.push(new));
        assert(result[list.len() as int] == new);
        assert forall|e20: int, e40: int| has_load(list, e20, e40) implies #[trigger] has_load(result, e20, e40) by {
            let i = choose|i: int| 0 <= i < list.len() && (#[trigger] list[i]).empty_20() == e20 && list[i].empty_40() == e40;
            assert(result[i] == list[i]);
        }
    }
}

/// The depot options for one load, from option `k` of `c` on: each comes from the depot,
/// the loads of `list` stay, and the load is offered when there is an option to start from.
proof fn lemma_depot_from_option_loads(
    c: Seq<ContainerOption>,
    truck: Truck,
    list: Seq<ContainerOption>,
    empty_20: int,
    empty_40: int,
    k: int,
)
    requires
        truck.wf(),
        1 <= c.len() <= usize::MAX,
        forall|i: int| 0 <= i < c.len() ==> (#[trigger] c[i]).fits(truck),
        new_load(c, truck, empty_20, empty_40),
        0 <= k,
    ensures
        forall|i: int|
            0 <= i < depot_from_option_of(c, list, empty_20, empty_40, k).len() ==> list.contains(
                #[trigger] depot_from_option_of(c, list, empty_20, empty_40, k)[i],
            ) || from_depot(c, truck, depot_from_option_of(c, list, empty_20, empty_40, k)[i]),
        forall|e20: int, e40: int|
            has_load(list, e20, e40) ==> #[trigger] has_load(depot_from_option_of(c, list, empty_20, empty_40, k), e20, e40),
        k < c.len() ==> has_load(depot_from_option_of(c, list, empty_20, empty_40, k), empty_20, empty_40),
    decreases c.len() - k,
{
    if k < c.len() {
        let full_20 = c[0].num_20() - c[0].empty_20();
        let full_40 = c[0].num_40() - c[0].empty_40();
        let new = ContainerOption::depot_option(c[k], k, empty_20, empty_40, full_20 + empty_20, full_40 + empty_40);
        assert(c[0].fits(truck) && c[k].fits(truck));
        ContainerOption::lemma_depot_option_fields(c[k], k, empty_20, empty_40, full_20 + empty_20, full_40 + empty_40);
        assert(from_depot(c, truck, new));
        let next = container_insert(list, new);
        lemma_container_insert_subset(list, new);
        lemma_container_insert_loads(list, new);
        lemma_depot_from_option_loads(c, truck, next, empty_20, empty_40, k + 1);
        let result = depot_from_option_of(c, list, empty_20, empty_40, k);
        assert(result == depot_from_option_of(c, next, empty_20, empty_40, k + 1));
        assert forall|i: int| 0 <= i < result.len() implies list.contains(#[trigger] result[i]) || from_depot(c, truck, result[i]) by {
            if next.contains(result[i]) {
                let j = choose|j: int| 0 <= j < next.len() && next[j] == result[i];
                assert(list.contains(next[j]) || next[j] == new);
            }
        }
    }
}

/// The depot options for `empty_20` and the numbers of empty 40 foot containers from
/// `empty_40` on: each comes from the depot, the loads of `list` stay, and every new load
/// among them is offered.
proof fn lemma_depot_from_empty_40_loads(
    c: Seq<ContainerOption>,
    truck: Truck,
    list: Seq<ContainerOption>,
    empty_20: int,
    empty_40: int,
)
    requires
        truck.wf(),
        1 <= c.len() <= usize::MAX,
        forall|i: int| 0 <= i < c.len() ==> (#[trigger] c[i]).fits(truck),
        0 <= empty_20,
        0 <= empty_40,
    ensures
        forall|i: int|
            0 <= i < depot_from_empty_40_of(c, truck, list, empty_20, empty_40).len() ==> list.contains(
                #[trigger] depot_from_empty_40_of(c, truck, list, empty_20, empty_40)[i],
            ) || from_depot(c, truck, depot_from_empty_40_of(c, truck, list, empty_20, empty_40)[i]),
        forall|e20: int, e40: int|
            has_load(list, e20, e40) ==> #[trigger] has_load(depot_from_empty_40_of(c, truck, list, empty_20, empty_40), e20, e40),
        forall|e40: int|
            empty_40 <= e40 && #[trigger] new_load(c, truck, empty_20, e40) ==> has_load(
                depot_from_empty_40_of(c, truck, list, empty_20, empty_40),
                empty_20,
                e40,
            ),
    decreases truck.num_40() + 1 - empty_40,
{
    if empty_40 <= truck.num_40() {
        let tried = new_load(c, truck, empty_20, empty_40);
        let next = if tried {
            depot_from_option_of(c, list, empty_20, empty_40, 0)
        } else {
            list
        };
        if tried {
            lemma_depot_from_option_loads(c, truck, list, empty_20, empty_40, 0);
        }
        lemma_depot_from_empty_40_loads(c, truck, next, empty_20, empty_40 + 1);
        let result = depot_from_empty_40_of(c, truck, list, empty_20, empty_40);
        assert(result == depot_from_empty_40_of(c, truck, next, empty_20, empty_40 + 1));
        assert forall|i: int| 0 <= i < result.len() implies list.contains(#[trigger] result[i]) || from_depot(c, truck, result[i]) by {
            if next.contains(result[i]) && tried {
                let j = choose|j: int| 0 <= j < next.len() && next[j] == result[i];
            }
        }
    } else {
        assert forall|e40: int| empty_40 <= e40 && #[trigger] new_load(c, truck, empty_20, e40) implies false by {
            assert(c[0].fits(truck));
        }
    }
}

/// The depot options for the numbers of empty 20 foot containers from `empty_20` on.
proof fn lemma_depot_from_empty_20_loads(c: Seq<ContainerOption>, truck: Truck, list: Seq<ContainerOption>, empty_20: int)
    requires
        truck.wf(),
        1 <= c.len() <= usize::MAX,
        forall|i: int| 0 <= i < c.len() ==> (#[trigger] c[i]).fits(truck),
        0 <= empty_20,
    ensures
        forall|i: int|
            0 <= i < depot_from_empty_20_of(c, truck, list, empty_20).len() ==> list.contains(
                #[trigger] depot_from_empty_20_of(c, truck, list, empty_20)[i],
            ) || from_depot(c, truck, depot_from_empty_20_of(c, truck, list, empty_20)[i]),
        forall|e20: int, e40: int|
            has_load(list, e20, e40) ==> #[trigger] has_load(depot_from_empty_20_of(c, truck, list, empty_20), e20, e40),
        forall|e20: int, e40: int|
            empty_20 <= e20 && #[trigger] new_load(c, truck, e20, e40) ==> has_load(
                depot_from_empty_20_of(c, truck, list, empty_20),
                e20,
                e40,
            ),
    decreases truck.num_20() + 1 - empty_20,
{
    if empty_20 <= truck.num_20() {
        let next = depot_from_empty_40_of(c, truck, list, empty_20, 0);
        lemma_depot_from_empty_40_loads(c, truck, list, empty_20, 0);
        lemma_depot_from_empty_20_loads(c, truck, next, empty_20 + 1);
        let result = depot_from_empty_20_of(c, truck, list, empty_20);
        assert(result == depot_from_empty_20_of(c, truck, next, empty_20 + 1));
        assert forall|i: int| 0 <= i < result.len() implies list.contains(#[trigger] result[i]) || from_depot(c, truck, result[i]) by {
            if next.contains(result[i]) {
                let j = choose|j: int| 0 <= j < next.len() && next[j] == result[i];
            }
        }
        assert forall|e20: int, e40: int| empty_20 <= e20 && #[trigger] new_load(c, truck, e20, e40) implies has_load(
            result,
            e20,
            e40,
        ) by {
            if e20 == empty_20 {
                assert(new_load(c, truck, empty_20, e40));
                assert(has_load(next, e20, e40));
            }
        }
    } else {
        assert forall|e20: int, e40: int| empty_20 <= e20 && #[trigger] new_load(c, truck, e20, e40) implies false by {
            assert(c[0].fits(truck));
        }
    }
}

/// Visiting the depot offers exactly the new loads: every option carries a load that the
/// truck can take beside its full containers and that no current option has (a load it has
/// already was loaded earlier, which is at least as good), and comes from the option it links
/// back to; and every such load is offered.
pub proof fn lemma_depot_options_loads(c: Seq<ContainerOption>, truck: Truck)
    requires
        truck.wf(),
        1 <= c.len() <= usize::MAX,
        forall|i: int| 0 <= i < c.len() ==> (#[trigger] c[i]).fits(truck),
    ensures
        forall|i: int|
            0 <= i < depot_options_of(c, truck).len() ==> from_depot(c, truck, #[trigger] depot_options_of(c, truck)[i]),
        forall|e20: int, e40: int|
            #[trigger] new_load(c, truck, e20, e40) ==> has_load(depot_options_of(c, truck), e20, e40),
{
    lemma_depot_from_empty_20_loads(c, truck, Seq::empty(), 0);
}

impl SearchState {
    /// See `depot_from_option_of`.
    pub open spec fn depot_from_option(
        &self,
        list: Seq<ContainerOption>,
        empty_20: int,
        empty_40: int,
        k: int,
    ) -> Seq<ContainerOption> {
        depot_from_option_of(self.containers(), list, empty_20, empty_40, k)
    }

    /// See `depot_from_empty_40_of`.
    pub open spec fn depot_from_empty_40(
        &self,
        truck: Truck,
        list: Seq<ContainerOption>,
        empty_20: int,
        empty_40: int,
    ) -> Seq<ContainerOption> {
        depot_from_empty_40_of(self.containers(), truck, list, empty_20, empty_40)
    }

    /// See `depot_from_empty_20_of`.
    pub open spec fn depot_from_empty_20(&self, truck: Truck, list: Seq<ContainerOption>, empty_20: int) -> Seq<
        ContainerOption,
    > {
        depot_from_empty_20_of(self.containers(), truck, list, empty_20)
    }

    /// The container options that visiting the depot next gives (see `depot_options_of`).
    pub open spec fn depot_options_spec(&self, truck: Truck) -> Seq<ContainerOption> {
        depot_options_of(self.containers(), truck)
    }

    /// Whether a current option carries exactly these empty containers.
    fn has_empties(&self, empty_20: i8, empty_40: i8) -> (r: bool)
        ensures
            r == exists|i: int|
                0 <= i < self.container_options@.len() && (
                #[trigger] self.container_options@[i]).empty_20 == empty_20
                    && self.container_options@[i].empty_40 == empty_40,
    {
        let mut i: usize = 0;
        while i < self.container_options.len()
            invariant
                i <= self.container_options@.len(),
                forall|q: int|
                    0 <= q < i ==> !((#[trigger] self.container_options@[q]).empty_20 == empty_20
                        && self.container_options@[q].empty_40 == empty_40),
            decreases self.container_options@.len() - i,
        {
            if self.container_options[i].empty_20 == empty_20 && self.container_options[i].empty_40
                == empty_40 {
                return true;
            }
            i = i + 1;
        }
        false
    }

    /// When visiting the depot from `self`, empty containers can be loaded and unloaded.
    /// Only loads that no current option has are of interest: the others are available
    /// without another depot visit.
    pub fn get_depot_visit_options(&self, config: &Config, truck: &Truck) -> (r: Vec<ContainerOption>)
        requires
            truck.wf(),
            self.containers().len() >= 1,
            forall|i: int|
                0 <= i < self.containers().len() ==> (#[trigger] self.containers()[i]).fits(*truck),
        ensures
            r@ == self.depot_options_spec(*truck),
            forall|i: int|
                0 <= i < r@.len() ==> container_option_valid(
                    #[trigger] r@[i],
                    *truck,
                    self.containers().len() as int,
                ),
            forall|i: int| 0 <= i < r@.len() ==> from_depot(self.containers(), *truck, #[trigger] r@[i]),
            forall|e20: int, e40: int|
                #[trigger] new_load(self.containers(), *truck, e20, e40) ==> has_load(r@, e20, e40),
    {
        let ghost c = self.container_options@;
        assert(c == self.containers());
        proof {
            assert(self.containers().len() == self.container_options.len());
            lemma_depot_options_loads(c, *truck);
        }
        let ghost target = self.depot_options_spec(*truck);
        let org_full_20: i8 = self.container_options[0].num_20 - self.container_options[0].empty_20;
        let org_full_40: i8 = self.container_options[0].num_40 - self.container_options[0].empty_40;
        let cap_20 = truck.get_num_20_foot_containers() as i8;
        let cap_40 = truck.get_num_40_foot_containers() as i8;
        let mut options: Vec<ContainerOption> = Vec::new();
        let mut empty_20: i8 = 0;
        while empty_20 <= cap_20
            invariant
                0 <= empty_20 <= cap_20 + 1,
                cap_20 == truck.num_20(),
                cap_40 == truck.num_40(),
                truck.wf(),
                c == self.container_options@,
                c.len() >= 1,
                forall|i: int| 0 <= i < c.len() ==> (#[trigger] c[i]).fits(*truck),
                org_full_20 == c[0].num_20 - c[0].empty_20,
                org_full_40 == c[0].num_40 - c[0].empty_40,
                target == self.depot_from_empty_20(*truck, options@, empty_20 as int),
                forall|i: int|
                    0 <= i < options@.len() ==> container_option_valid(#[trigger] options@[i], *truck, c.len() as int),
            decreases cap_20 + 1 - empty_20,
        {
            let mut empty_40: i8 = 0;
            while empty_40 <= cap_40
                invariant
                    0 <= empty_20 <= cap_20,
                    0 <= empty_40 <= cap_40 + 1,
                    cap_20 == truck.num_20(),
                    cap_40 == truck.num_40(),
                    truck.wf(),
                    c == self.container_options@,
                    c.len() >= 1,
                    forall|i: int| 0 <= i < c.len() ==> (#[trigger] c[i]).fits(*truck),
                    org_full_20 == c[0].num_20 - c[0].empty_20,
                    org_full_40 == c[0].num_40 - c[0].empty_40,
                    target == self.depot_from_empty_20(
                        *truck,
                        self.depot_from_empty_40(*truck, options@, empty_20 as int, empty_40 as int),
                        empty_20 + 1,
                    ),
                        forall|i: int|
                        0 <= i < options@.len() ==> container_option_valid(#[trigger] options@[i], *truck, c.len() as int),
                decreases cap_40 + 1 - empty_40,
            {
                let num_20 = org_full_20 + empty_20;
                let num_40 = org_full_40 + empty_40;
                if num_20 <= cap_20 && num_40 <= cap_40 && !self.has_empties(empty_20, empty_40) {
                    let mut previous_index: usize = 0;
                    while previous_index < self.container_options.len()
                        invariant
                            0 <= empty_20 <= cap_20,
                            0 <= empty_40 <= cap_40,
                            cap_20 == truck.num_20(),
                            cap_40 == truck.num_40(),
                            truck.wf(),
                            c == self.container_options@,
                            c.len() >= 1,
                            previous_index <= c.len(),
                            forall|i: int| 0 <= i < c.len() ==> (#[trigger] c[i]).fits(*truck),
                            org_full_20 == c[0].num_20 - c[0].empty_20,
                            org_full_40 == c[0].num_40 - c[0].empty_40,
                            num_20 == org_full_20 + empty_20,
                            num_40 == org_full_40 + empty_40,
                            num_20 <= cap_20,
                            num_40 <= cap_40,
                            target == self.depot_from_empty_20(
                                *truck,
                                self.depot_from_empty_40(
                                    *truck,
                                    self.depot_from_option(options@, empty_20 as int, empty_40 as int, previous_index as int),
                                    empty_20 as int,
                                    empty_40 + 1,
                                ),
                                empty_20 + 1,
                            ),
                                        forall|i: int|
                                0 <= i < options@.len() ==> container_option_valid(#[trigger] options@[i], *truck, c.len() as int),
                        decreases c.len() - previous_index,
                    {
                        let previous_option = self.container_options[previous_index];
                        let diff_20: i8 = empty_20 - previous_option.empty_20;
                        let diff_40: i8 = empty_40 - previous_option.empty_40;
                        let abs_20: i8 = if diff_20 < 0 { -diff_20 } else { diff_20 };
                        let abs_40: i8 = if diff_40 < 0 { -diff_40 } else { diff_40 };
                        let new_option = ContainerOption {
                            empty_20,
                            empty_40,
                            num_20,
                            num_40,
                            previous_index,
                            last_loading_distance: abs_20 + abs_40,
                            compatible_path_options: previous_option.compatible_path_options,
                        };
                        assert(new_option == ContainerOption::depot_option(
                            c[previous_index as int],
                            previous_index as int,
                            empty_20 as int,
                            empty_40 as int,
                            org_full_20 + empty_20,
                            org_full_40 + empty_40,
                        ));
                        let ghost before = options@;
                        insert_container_option(&mut options, new_option);
                        proof {
                            lemma_container_insert_subset(before, new_option);
                            assert forall|i: int|
                                0 <= i < options@.len() implies container_option_valid(#[trigger] options@[i], *truck, c.len() as int) by {
                                if before.contains(options@[i]) {
                                    let q = choose|q: int| 0 <= q < before.len() && before[q] == options@[i];
                                    assert(container_option_valid(before[q], *truck, c.len() as int));
                                }
                            }
                        }
                        previous_index = previous_index + 1;
                    }
                }
                empty_40 = empty_40 + 1;
            }
            empty_20 = empty_20 + 1;
        }
        options
    }
}

impl ContainerOption {
    /// The same option, recording as compatible the path options of `paths` that are
    /// compatible with the container option at `index` (see `path_mask`).
    pub closed spec fn with_paths(self, paths: Seq<PathOptionModel>, index: int) -> ContainerOption {
        ContainerOption { compatible_path_options: path_mask(paths, index, paths.len() as int), ..self }
    }

    /// Only the compatible path options differ.
    pub proof fn lemma_with_paths_fields(self, paths: Seq<PathOptionModel>, index: int)
        ensures
            self.with_paths(paths, index).empty_20() == self.empty_20(),
            self.with_paths(paths, index).empty_40() == self.empty_40(),
            self.with_paths(paths, index).num_20() == self.num_20(),
            self.with_paths(paths, index).num_40() == self.num_40(),
            self.with_paths(paths, index).previous() == self.previous(),
            self.with_paths(paths, index).loading_distance() == self.loading_distance(),
            self.with_paths(paths, index).compatible() == path_mask(paths, index, paths.len() as int),
    {
    }

    /// The option of the start state that leaves the depot with `empty_20` and `empty_40`
    /// empty containers loaded.
    pub closed spec fn start_option(empty_20: int, empty_40: int) -> ContainerOption {
        ContainerOption {
            empty_20: empty_20 as i8,
            empty_40: empty_40 as i8,
            num_20: empty_20 as i8,
            num_40: empty_40 as i8,
            previous_index: 0,
            last_loading_distance: (empty_20 + empty_40) as i8,
            compatible_path_options: 0,
        }
    }

    /// A start option carries exactly the empties loaded, all of them loaded at the depot.
    pub proof fn lemma_start_option_fields(empty_20: int, empty_40: int)
        requires
            0 <= empty_20,
            0 <= empty_40,
            empty_20 + empty_40 <= 127,
        ensures
            Self::start_option(empty_20, empty_40).empty_20() == empty_20,
            Self::start_option(empty_20, empty_40).empty_40() == empty_40,
            Self::start_option(empty_20, empty_40).num_20() == empty_20,
            Self::start_option(empty_20, empty_40).num_40() == empty_40,
            Self::start_option(empty_20, empty_40).previous() == 0,
            Self::start_option(empty_20, empty_40).loading_distance() == empty_20 + empty_40,
            Self::start_option(empty_20, empty_40).compatible() == 0,
    {
    }
}

/// A mask with some option of loading distance `ld` is not zero.
proof fn lemma_container_mask_nonzero(c: Seq<ContainerOption>, ld: int, i: int)
    requires
        0 <= i < c.len() <= 32,
        c[i].loading_distance() == ld,
    ensures
        container_mask(c, ld) != 0,
    decreases c.len(),
{
    let rest = container_mask(c.drop_last(), ld);
    let k = (c.len() - 1) as usize;
    if c.last().loading_distance() == ld {
        assert(k < 32 ==> rest | (1u32 << k) != 0) by (bit_vector);
    } else {
        assert(i < c.len() - 1);
        assert(c.drop_last()[i] == c[i]);
        lemma_container_mask_nonzero(c.drop_last(), ld, i);
    }
}

/// The mask of the options with loading distance up to `ld`: `0 | mask(0) | ... | mask(ld)`.
pub open spec fn masks_up_to(c: Seq<ContainerOption>, ld: int) -> u32
    decreases ld,
{
    if ld <= 0 {
        0u32 | container_mask(c, 0)
    } else {
        masks_up_to(c, ld - 1) | container_mask(c, ld)
    }
}

impl PathOptionSummary {
    /// The summary of the start state's path that leaves after loading `ld` containers.
    pub closed spec fn start_summary(config: Config, truck: Truck, c: Seq<ContainerOption>, ld: int) -> PathOptionSummary {
        PathOptionSummary {
            fuel_level: truck.fuel_capacity() as u32,
            total_distance: 0,
            total_time: (ld * config.depot_service()) as u32,
            compatible_container_options: masks_up_to(c, ld),
        }
    }

    /// The start summary: a full tank, no distance, and the time of loading `ld` containers.
    pub proof fn lemma_start_summary_fields(config: Config, truck: Truck, c: Seq<ContainerOption>, ld: int)
        requires
            0 <= ld,
            ld * config.depot_service() <= u32::MAX,
        ensures
            Self::start_summary(config, truck, c, ld).fuel() == truck.fuel_capacity(),
            Self::start_summary(config, truck, c, ld).distance() == 0,
            Self::start_summary(config, truck, c, ld).time() == ld * config.depot_service(),
            Self::start_summary(config, truck, c, ld).compatible() == masks_up_to(c, ld),
    {
        truck.lemma_capacity_fits();
    }
}

/// The start state's container options for the loads from (`empty_20`, `empty_40`) on, in
/// the order of the loads.
pub open spec fn start_options_from(truck: Truck, empty_20: int, empty_40: int) -> Seq<ContainerOption>
    decreases truck.num_20() + 1 - empty_20, truck.num_40() + 1 - empty_40,
{
    if empty_20 < 0 || empty_40 < 0 || empty_20 > truck.num_20() {
        Seq::empty()
    } else if empty_40 > truck.num_40() {
        start_options_from(truck, empty_20 + 1, 0)
    } else {
        seq![ContainerOption::start_option(empty_20, empty_40)] + start_options_from(
            truck,
            empty_20,
            empty_40 + 1,
        )
    }
}

/// The start state's path options: for loading distances 2, 1 and 0 that some container
/// option has, the path that leaves the depot after loading that many containers, unless a
/// path already added is at least as good.
pub open spec fn start_paths_from(
    config: Config,
    truck: Truck,
    c: Seq<ContainerOption>,
    list: Seq<PathOptionModel>,
    ld: int,
) -> Seq<PathOptionModel>
    decreases ld + 1,
{
    if ld < 0 {
        list
    } else if container_mask(c, ld) == 0 {
        start_paths_from(config, truck, c, list, ld - 1)
    } else {
        let summary = PathOptionSummary::start_summary(config, truck, c, ld);
        if exists|i: int| 0 <= i < list.len() && (#[trigger] list[i]).0.at_least_as_good_as_spec(summary) {
            start_paths_from(config, truck, c, list, ld - 1)
        } else {
            start_paths_from(config, truck, c, list.push((summary, seq![0usize], 0)), ld - 1)
        }
    }
}

pub open spec fn models(options: Seq<PathOption>) -> Seq<PathOptionModel> {
    options.map_values(|o: PathOption| o@)
}

/// The pickup nodes of the full containers on board after arriving at `node` with
/// `sources` on board (0 for a free slot): a full pickup takes a free slot, a full dropoff
/// frees the slot of its pickup; `None` when there is no free slot or the pickup is not on
/// board.
pub open spec fn arrive_sources(sources: (int, int), config: Config, node: int) -> Option<(int, int)> {
    let s1 = sources.0;
    let s2 = sources.1;
    if 0 < node <= config.full_pickups() {
        if s1 == 0 {
            Some((node, s2))
        } else if s2 == 0 {
            Some((s1, node))
        } else {
            None
        }
    } else if config.first_full_dropoff() <= node < config.first_empty_dropoff() {
        let source = node - config.empty_pickups() - config.full_pickups();
        if s1 == source {
            Some((0, s2))
        } else if s2 == source {
            Some((s1, 0))
        } else {
            None
        }
    } else {
        Some((s1, s2))
    }
}

/// Tracking the full containers on board: a full pickup can be served exactly when one of
/// the two slots is free, and its node takes a free slot while the other slot keeps what it
/// held; a full dropoff can be served exactly when its pickup's node is in a slot, which it
/// frees while the other slot keeps what it held; other nodes change nothing.
pub proof fn lemma_arrive_sources(sources: (int, int), config: Config, node: int)
    requires
        0 < node,
    ensures
        node <= config.full_pickups() ==> {
            &&& arrive_sources(sources, config, node) is Some <==> (sources.0 == 0 || sources.1 == 0)
            &&& arrive_sources(sources, config, node) matches Some(r) ==> (sources.0 == 0 && r.0 == node && r.1
                == sources.1) || (sources.1 == 0 && r.1 == node && r.0 == sources.0)
        },
        config.first_full_dropoff() <= node < config.first_empty_dropoff() ==> {
            let pickup = node - config.empty_pickups() - config.full_pickups();
            &&& 1 <= pickup <= config.full_pickups()
            &&& arrive_sources(sources, config, node) is Some <==> (sources.0 == pickup || sources.1 == pickup)
            &&& arrive_sources(sources, config, node) matches Some(r) ==> (sources.0 == pickup && r.0 == 0 && r.1
                == sources.1) || (sources.1 == pickup && r.1 == 0 && r.0 == sources.0)
        },
        config.full_pickups() < node < config.first_full_dropoff() || config.first_empty_dropoff() <= node
            ==> arrive_sources(sources, config, node) == Some(sources),
{
}

impl SearchState {
    /// The sources of the full containers on board after arriving at `node`: a full pickup
    /// takes a free slot, a full dropoff frees its pickup's slot; `None` when a pickup finds
    /// no free slot or a dropoff's pickup is in no slot.
    pub open spec fn sources_at_arrival(&self, config: Config, node: int) -> Option<(int, int)> {
        arrive_sources(self.sources(), config, node)
    }

    /// Whether the full containers on board can be tracked on arrival at `node`: a full
    /// pickup needs a free slot, a full dropoff needs its pickup's container on board.
    pub fn can_track_containers_at(&self, config: &Config, node: usize) -> (r: bool)
        ensures
            r == (self.sources_at_arrival(*config, node as int) is Some),
    {
        if (0 < node) && (node <= config.get_full_pickup()) {
            self.full_request_1_source == 0 || self.full_request_2_source == 0
        } else if (config.get_first_full_dropoff() <= node) && node < (config.get_first_empty_dropoff()) {
            let source_node = config.get_pick_node_for_full_dropoff(node);
            self.full_request_1_source == source_node || self.full_request_2_source == source_node
        } else {
            true
        }
    }

    /// Returns `(full_request_1_source, full_request_2_source)` as they will be on arrival at
    /// `node`.
    fn get_container_sources_at_arrival(&self, config: &Config, node: usize) -> (r: (usize, usize))
        requires
            self.sources_at_arrival(*config, node as int) is Some,
        ensures
            self.sources_at_arrival(*config, node as int) == Some((r.0 as int, r.1 as int)),
    {
        if (0 < node) && (node <= config.get_full_pickup()) {
            if self.full_request_1_source == 0 {
                (node, self.full_request_2_source)
            } else {
                (self.full_request_1_source, node)
            }
        } else if (config.get_first_full_dropoff() <= node) && node < (config.get_first_empty_dropoff()) {
            let source_node = config.get_pick_node_for_full_dropoff(node);
            if self.full_request_1_source == source_node {
                (0, self.full_request_2_source)
            } else {
                (self.full_request_1_source, 0)
            }
        } else {
            (self.full_request_1_source, self.full_request_2_source)
        }
    }

    /// The container options, each recording the path options (the first 32) that are
    /// compatible with it (see `path_mask`).
    fn update_container_options_with_paths(
        container_options: Vec<ContainerOption>,
        path_options: &Vec<PathOption>,
    ) -> (r: Vec<ContainerOption>)
        requires
            container_options@.len() <= 32,
        ensures
            r@ == record_paths(container_options@, models(path_options@)),
    {
        let mut container_options = container_options;
        let ghost start = container_options@;
        let ghost paths = models(path_options@);
        let mut container_index: usize = 0;
        while container_index < container_options.len()
            invariant
                container_options@.len() == start.len(),
                start.len() <= 32,
                container_index <= start.len(),
                paths == models(path_options@),
                forall|i: int|
                    0 <= i < container_index ==> #[trigger] container_options@[i] == start[i].with_paths(paths, i),
                forall|i: int| container_index <= i < start.len() ==> #[trigger] container_options@[i] == start[i],
            decreases start.len() - container_index,
        {
            let mut container_option = container_options[container_index];
            container_option.compatible_path_options = 0;
            let mut path_index: usize = 0;
            while path_index < path_options.len()
                invariant
                    container_index < 32,
                    container_index < start.len(),
                    path_index <= path_options@.len(),
                    paths == models(path_options@),
                    container_option == (ContainerOption {
                        compatible_path_options: path_mask(paths, container_index as int, path_index as int),
                        ..start[container_index as int]
                    }),
                decreases path_options@.len() - path_index,
            {
                assert(paths[path_index as int] == path_options@[path_index as int]@);
                let ghost before = container_option.compatible_path_options;
                if PathOption::decode_loading_mask(
                    path_options[path_index].summary.compatible_container_options,
                    container_index,
                ) && path_index < 32 {
                    container_option.set_compatible(path_index);
                } else {
                    assert((before | 0u32) == before) by (bit_vector);
                }
                assert(container_index as u32 as usize == container_index);
                path_index = path_index + 1;
            }
            container_options.set(container_index, container_option);
            container_index = container_index + 1;
        }
        assert(container_options@ =~= record_paths(start, paths));
        return container_options;
    }
}

/// The mask of the first `n` path options of `paths` (only the first 32 have a bit) that
/// are compatible with container option `c`: bit `p` is set when bit `c` of path option
/// `p`'s compatible container options is.
pub open spec fn path_mask(paths: Seq<PathOptionModel>, c: int, n: int) -> u32
    decreases n,
{
    if n <= 0 {
        0
    } else {
        let bit: u32 = if n - 1 < 32 && paths[n - 1].0.compatible() & (1u32 << (c as u32)) != 0 {
            1u32 << ((n - 1) as u32)
        } else {
            0
        };
        path_mask(paths, c, n - 1) | bit
    }
}

/// The container options `c`, each recording the path options of `paths` compatible with it.
pub open spec fn record_paths(c: Seq<ContainerOption>, paths: Seq<PathOptionModel>) -> Seq<ContainerOption> {
    Seq::new(c.len(), |i: int| c[i].with_paths(paths, i))
}

/// Bit `p` of the mask is set exactly when path option `p` (one of the first `n`, below 32)
/// is compatible with container option `c`.
pub proof fn lemma_path_mask_bits(paths: Seq<PathOptionModel>, c: int, n: int, p: int)
    requires
        0 <= c < 32,
        0 <= p < 32,
        0 <= n <= paths.len(),
    ensures
        (path_mask(paths, c, n) & (1u32 << (p as u32)) != 0) == (p < n && paths[p].0.compatible() & (1u32
            << (c as u32)) != 0),
    decreases n,
{
    if n > 0 {
        lemma_path_mask_bits(paths, c, n - 1, p);
        let x = path_mask(paths, c, n - 1);
        let q = p as u32;
        if n - 1 < 32 {
            let k = (n - 1) as u32;
            assert(q < 32 && k < 32 ==> (((x | (1u32 << k)) & (1u32 << q)) != 0) == ((x & (1u32 << q)) != 0
                || q == k)) by (bit_vector);
        }
        assert((x | 0u32) == x) by (bit_vector);
    } else {
        let q = p as u32;
        assert(q < 32 ==> (0u32 & (1u32 << q)) == 0) by (bit_vector);
    }
}

/// Whether some option of `list` has a summary at least as good as `summary`.
fn some_summary_at_least_as_good(list: &Vec<PathOption>, summary: &PathOptionSummary) -> (r: bool)
    ensures
        r == exists|i: int| 0 <= i < list@.len() && (#[trigger] list@[i])@.0.at_least_as_good_as_spec(*summary),
{
    let mut i: usize = 0;
    while i < list.len()
        invariant
            i <= list@.len(),
            forall|q: int| 0 <= q < i ==> !(#[trigger] list@[q])@.0.at_least_as_good_as_spec(*summary),
        decreases list@.len() - i,
    {
        if list[i].summary.at_least_as_good_as(summary) {
            return true;
        }
        i = i + 1;
    }
    false
}

impl SearchState {
    /// The state at the depot before anything is done: one container option for every load of
    /// empty containers the truck can take, and a path option for each number of containers
    /// loaded that is not beaten by one with more loaded.
    pub fn start_state(config: &Config, truck: &Truck) -> (r: Rc<SearchState>)
        requires
            truck.wf(),
            2 * config.depot_service() <= u32::MAX,
        ensures
            r.valid(*config, *truck),
            r.node() == 0,
            r.visited_mask() == 0,
            r.sources() == (0int, 0int),
            r.previous() is None,
            r.containers() == record_paths(start_options_from(*truck, 0, 0), models(r.paths())),
            models(r.paths()) == start_paths_from(
                *config,
                *truck,
                start_options_from(*truck, 0, 0),
                Seq::empty(),
                2,
            ),
    {
        let ghost all = start_options_from(*truck, 0, 0);
        let cap_20 = truck.get_num_20_foot_containers();
        let cap_40 = truck.get_num_40_foot_containers();
        let mut container_options: Vec<ContainerOption> = Vec::new();
        let mut empty_20: i32 = 0;
        while empty_20 <= cap_20
            invariant
                truck.wf(),
                cap_20 == truck.num_20(),
                cap_40 == truck.num_40(),
                0 <= empty_20 <= cap_20 + 1,
                container_options@ + start_options_from(*truck, empty_20 as int, 0) == all,
                container_options@.len() <= 3 * empty_20,
                forall|i: int|
                    0 <= i < container_options@.len() ==> container_option_valid(#[trigger] container_options@[i], *truck, 1)
                        && container_options@[i].empty_20() + container_options@[i].empty_40() == container_options@[i].loading_distance(),
            decreases cap_20 + 1 - empty_20,
        {
            let mut empty_40: i32 = 0;
            while empty_40 <= cap_40
                invariant
                    truck.wf(),
                    cap_20 == truck.num_20(),
                    cap_40 == truck.num_40(),
                    0 <= empty_20 <= cap_20,
                    0 <= empty_40 <= cap_40 + 1,
                    container_options@ + start_options_from(*truck, empty_20 as int, empty_40 as int) == all,
                    container_options@.len() <= 3 * empty_20 + empty_40,
                    forall|i: int|
                        0 <= i < container_options@.len() ==> container_option_valid(#[trigger] container_options@[i], *truck, 1)
                            && container_options@[i].empty_20() + container_options@[i].empty_40() == container_options@[i].loading_distance(),
                decreases cap_40 + 1 - empty_40,
            {
                let option = ContainerOption {
                    empty_20: empty_20 as i8,
                    empty_40: empty_40 as i8,
                    num_20: empty_20 as i8,
                    num_40: empty_40 as i8,
                    previous_index: 0,
                    last_loading_distance: (empty_20 + empty_40) as i8,
                    compatible_path_options: 0,
                };
                assert(option == ContainerOption::start_option(empty_20 as int, empty_40 as int));
                let ghost before = container_options@;
                container_options.push(option);
                assert(container_options@ + start_options_from(*truck, empty_20 as int, empty_40 + 1)
                    =~= before + start_options_from(*truck, empty_20 as int, empty_40 as int));
                empty_40 = empty_40 + 1;
            }
            assert(start_options_from(*truck, empty_20 as int, empty_40 as int) == start_options_from(*truck, empty_20 + 1, 0));
            empty_20 = empty_20 + 1;
        }
        assert(container_options@ =~= all);
        assert(all.len() > 0 && all[0] == ContainerOption::start_option(0, 0));
        let ghost c = container_options@;
        let masks = SearchState::get_container_masks(&container_options);
        let mut path_options: Vec<PathOption> = Vec::new();
        let service = config.get_depot_service_time();
        let mut loading_distance: usize = 3;
        assert(models(path_options@) =~= Seq::<PathOptionModel>::empty());
        while loading_distance > 0
            invariant
                2 * config.depot_service() <= u32::MAX,
                truck.wf(),
                c == container_options@,
                c == all,
                c.len() <= 32,
                c.len() > 0 && c[0] == ContainerOption::start_option(0, 0),
                forall|ld: int| 0 <= ld < 3 ==> masks@[ld] == container_mask(c, ld),
                service == config.depot_service(),
                loading_distance <= 3,
                start_paths_from(*config, *truck, c, Seq::empty(), 2) == start_paths_from(
                    *config,
                    *truck,
                    c,
                    models(path_options@),
                    loading_distance - 1,
                ),
                loading_distance == 0 ==> path_options@.len() > 0,
                forall|i: int|
                    0 <= i < path_options@.len() ==> (#[trigger] path_options@[i])@.1 == seq![0usize]
                        && path_options@[i]@.2 == 0 && path_options@[i]@.0.fuel() == truck.fuel_capacity(),
            decreases loading_distance,
        {
            loading_distance = loading_distance - 1;
            if masks[loading_distance] != 0 {
                let mut compatible_container_options: u32 = 0;
                let mut i: usize = 0;
                while i <= loading_distance
                    invariant
                        loading_distance < 3,
                        i <= loading_distance + 1,
                        forall|ld: int| 0 <= ld < 3 ==> masks@[ld] == container_mask(c, ld),
                        compatible_container_options == if i == 0 {
                            0u32
                        } else {
                            masks_up_to(c, i - 1)
                        },
                    decreases loading_distance + 1 - i,
                {
                    compatible_container_options = compatible_container_options | masks[i];
                    i = i + 1;
                }
                assert((loading_distance as int) * (service as int) <= 2 * (service as int)) by (nonlinear_arith)
                    requires
                        loading_distance < 3,
                ;
                let new_summary = PathOptionSummary {
                    fuel_level: truck.get_fuel(),
                    total_distance: 0,
                    total_time: loading_distance as u32 * service,
                    compatible_container_options,
                };
                assert(new_summary == PathOptionSummary::start_summary(*config, *truck, c, loading_distance as int));
                let ghost before = models(path_options@);
                if !some_summary_at_least_as_good(&path_options, &new_summary) {
                    let mut path: Vec<usize> = Vec::new();
                    path.push(0);
                    path_options.push(PathOption { summary: new_summary, path, previous_index: 0 });
                    proof {
                        assert(path@ =~= seq![0usize]);
                        assert forall|q: int| 0 <= q < before.len() implies !(#[trigger] before[q]).0.at_least_as_good_as_spec(new_summary) by {
                            assert(before[q] == path_options@[q]@);
                        }
                        assert(models(path_options@) =~= before.push((new_summary, seq![0usize], 0)));
                    }
                } else {
                    proof {
                        let w = choose|q: int| 0 <= q < path_options@.len() && (#[trigger] path_options@[q])@.0.at_least_as_good_as_spec(new_summary);
                        assert(before[w] == path_options@[w]@);
                    }
                }
            } else {
                proof {
                    if loading_distance == 0 {
                        lemma_container_mask_nonzero(c, 0, 0);
                    }
                }
            }
        }
        let container_options = SearchState::update_container_options_with_paths(container_options, &path_options);
        assert(container_options@ == record_paths(all, models(path_options@)));
        let search_state = SearchState {
            current_node: 0,
            path_options,
            container_options,
            full_request_1_source: 0,
            full_request_2_source: 0,
            requests_visited: 0,
            previous_state: None,
        };
        proof {
            assert forall|i: int| 0 <= i < search_state.path_options@.len() implies path_option_valid(
                (#[trigger] search_state.path_options@[i])@,
                *config,
                *truck,
                1,
            ) && model_node(search_state.path_options@[i]@) == 0 by {
                let m = search_state.path_options@[i]@;
                assert(m.1 == seq![0usize]);
                assert(m.1.len() == 1 && m.1[0] == 0usize);
                config.lemma_dimension_positive();
                assert(config.dimension() > 0);
                assert(m.1.last() == 0usize);
            }
        }
        return Rc::new(search_state);
    }
}

/// Adding under the dominance rule puts nothing into the list but the created option.
pub proof fn lemma_add_path_option_subset(
    list: Seq<TaggedPathOption>,
    summary: PathOptionSummary,
    node: int,
    created: PathOptionModel,
)
    ensures
        forall|k: int|
            0 <= k < add_path_option(list, summary, node, created).len() ==> list.contains(
                #[trigger] add_path_option(list, summary, node, created)[k],
            ) || add_path_option(list, summary, node, created)[k] == (
                created,
                NEW_OPTION_TAG as int,
            ),
{
    broadcast use Seq::lemma_filter_contains_rev;

    let result = add_path_option(list, summary, node, created);
    let keep = |e: TaggedPathOption| !model_inferior(e.0, summary, node);
    let kept = list.filter(keep);
    if kept.len() < list.len() {
        assert forall|k: int| 0 <= k < result.len() implies list.contains(#[trigger] result[k]) || result[k] == (
            created,
            NEW_OPTION_TAG as int,
        ) by {
            if k < kept.len() {
                assert(result[k] == kept[k]);
                assert(kept.contains(kept[k]));
            }
        }
    } else if exists|i: int|
        0 <= i < list.len() && model_node(#[trigger] list[i].0) == node
            && list[i].0.0.at_least_as_good_as_spec(summary) {
        assert forall|k: int| 0 <= k < result.len() implies list.contains(#[trigger] result[k]) by {
            assert(result[k] == list[k]);
        }
    } else {
        assert forall|k: int| 0 <= k < result.len() implies list.contains(#[trigger] result[k]) || result[k] == (
            created,
            NEW_OPTION_TAG as int,
        ) by {
            if k < list.len() {
                assert(result[k] == list[k]);
            }
        }
    }
}

/// The path of an option extended to a node of the matrix keeps to nodes of the matrix and
/// refuel markers, and is not empty.
proof fn lemma_next_path_valid(
    m: PathOptionModel,
    config: Config,
    node: int,
    depot_refuel: bool,
    new_path: bool,
)
    requires
        m.1.len() > 0,
        forall|i: int|
            0 <= i < m.1.len() ==> (#[trigger] m.1[i] < config.dimension() || m.1[i]
                == ROUTE_DEPOT_REFUEL as usize),
        0 <= node < config.dimension(),
        config.dimension() > 0,
    ensures
        next_path(m, node, depot_refuel, new_path).len() > 0,
        forall|i: int|
            0 <= i < next_path(m, node, depot_refuel, new_path).len() ==> (#[trigger] next_path(
                m,
                node,
                depot_refuel,
                new_path,
            )[i] < config.dimension() || next_path(m, node, depot_refuel, new_path)[i]
                == ROUTE_DEPOT_REFUEL as usize),
{
    let base = if new_path {
        Seq::<usize>::empty()
    } else {
        m.1
    };
    let p = next_path(m, node, depot_refuel, new_path);
    assert forall|i: int| 0 <= i < p.len() implies (#[trigger] p[i] < config.dimension() || p[i]
        == ROUTE_DEPOT_REFUEL as usize) by {
        if i < base.len() {
            assert(p[i] == base[i]);
        }
    }
}

/// The list after adding what `summary` gives, if anything, for option `m` (at `own_index`)
/// extended to `target`.
pub open spec fn add_summary(
    list: Seq<TaggedPathOption>,
    m: PathOptionModel,
    own_index: int,
    summary: Option<PathOptionSummary>,
    target: int,
    depot_refuel: bool,
    new_path: bool,
) -> Seq<TaggedPathOption> {
    match summary {
        None => list,
        Some(s) => add_path_option(
            list,
            s,
            target,
            created_model(m, own_index, s, target, depot_refuel, new_path),
        ),
    }
}

/// The list after extending option `m` from node `from` to each fuel station from `afs` up
/// to the dummy depot, except `skip`.
pub open spec fn add_afs_from(
    config: Config,
    truck: Truck,
    list: Seq<TaggedPathOption>,
    m: PathOptionModel,
    own_index: int,
    from: int,
    compatible: u32,
    loading_distance: int,
    new_path: bool,
    skip: int,
    afs: int,
) -> Seq<TaggedPathOption>
    decreases config.dimension() - afs,
{
    if afs < 0 || afs >= config.dimension() {
        list
    } else {
        let next = if afs == skip {
            list
        } else {
            add_summary(
                list,
                m,
                own_index,
                m.0.next_summary_spec(config, truck, from, afs, false, compatible, loading_distance),
                afs,
                false,
                new_path,
            )
        };
        add_afs_from(
            config,
            truck,
            next,
            m,
            own_index,
            from,
            compatible,
            loading_distance,
            new_path,
            skip,
            afs + 1,
        )
    }
}

/// The list after extending option `m` (at `own_index`) straight to `node`, then to each
/// fuel station but `skip`, then to the depot with a refuel.
pub open spec fn extend_option(
    config: Config,
    truck: Truck,
    list: Seq<TaggedPathOption>,
    m: PathOptionModel,
    own_index: int,
    node: int,
    compatible: u32,
    loading_distance: int,
    new_path: bool,
    skip: int,
) -> Seq<TaggedPathOption> {
    let from = model_node(m);
    let l1 = add_summary(
        list,
        m,
        own_index,
        m.0.next_summary_spec(config, truck, from, node, false, compatible, loading_distance),
        node,
        false,
        new_path,
    );
    let l2 = add_afs_from(
        config,
        truck,
        l1,
        m,
        own_index,
        from,
        compatible,
        loading_distance,
        new_path,
        skip,
        config.first_afs(),
    );
    add_summary(
        l2,
        m,
        own_index,
        m.0.next_summary_spec(config, truck, from, 0, true, compatible, loading_distance),
        0,
        true,
        new_path,
    )
}

/// Every option of `list` has a non-empty path, and those not in `before` are valid with
/// indices below `prev_len`.
pub open spec fn grown_validly(
    list: Seq<TaggedPathOption>,
    before: Seq<TaggedPathOption>,
    config: Config,
    truck: Truck,
    prev_len: int,
) -> bool {
    forall|k: int|
        0 <= k < list.len() ==> (#[trigger] list[k]).0.1.len() > 0 && (before.contains(list[k])
            || path_option_valid(list[k].0, config, truck, prev_len))
}

impl PathOption {
    /// A copy of this option.
    fn duplicate(&self) -> (r: PathOption)
        ensures
            r@ == self@,
    {
        let mut path: Vec<usize> = Vec::new();
        let mut i: usize = 0;
        while i < self.path.len()
            invariant
                i <= self.path@.len(),
                path@ == self.path@.take(i as int),
            decreases self.path@.len() - i,
        {
            path.push(self.path[i]);
            assert(self.path@.take(i + 1) =~= self.path@.take(i as int).push(self.path@[i as int]));
            i = i + 1;
        }
        assert(self.path@.take(self.path@.len() as int) =~= self.path@);
        PathOption { summary: self.summary, path, previous_index: self.previous_index }
    }

    /// Adds what the option `self` (at `own_index`) gives when extended to `target` with
    /// `summary`, keeping validity.
    fn add_extension(
        &self,
        config: &Config,
        truck: &Truck,
        own_index: usize,
        path_options: &mut Vec<PathOption>,
        tags: &mut Vec<usize>,
        summary: Option<PathOptionSummary>,
        target: usize,
        depot_refuel: bool,
        new_path: bool,
        Ghost(prev_len): Ghost<int>,
        Ghost(before): Ghost<Seq<TaggedPathOption>>,
    )
        requires
            config.dimension() > 0,
            target < config.dimension(),
            depot_refuel ==> target == 0,
            self@.1.len() > 0,
            forall|i: int|
                0 <= i < self@.1.len() ==> (#[trigger] self@.1[i] < config.dimension() || self@.1[i]
                    == ROUTE_DEPOT_REFUEL as usize),
            own_index < prev_len,
            summary matches Some(s) ==> s.fuel() <= truck.fuel_capacity(),
            old(path_options)@.len() == old(tags)@.len(),
            grown_validly(tagged(old(path_options)@, old(tags)@), before, *config, *truck, prev_len),
        ensures
            final(path_options)@.len() == final(tags)@.len(),
            tagged(final(path_options)@, final(tags)@) == add_summary(
                tagged(old(path_options)@, old(tags)@),
                self@,
                own_index as int,
                summary,
                target as int,
                depot_refuel,
                new_path,
            ),
            grown_validly(tagged(final(path_options)@, final(tags)@), before, *config, *truck, prev_len),
    {
        let ghost start = tagged(path_options@, tags@);
        proof {
            assert forall|i: int| 0 <= i < path_options@.len() implies (#[trigger] path_options@[i])@.1.len() > 0 by {
                assert(start[i].0 == path_options@[i]@);
            }
        }
        self.possibly_add_to_path_options(own_index, path_options, tags, summary, target, depot_refuel, new_path);
        proof {
            match summary {
                None => {},
                Some(s) => {
                    let created = created_model(self@, own_index as int, s, target as int, depot_refuel, new_path);
                    lemma_add_path_option_subset(start, s, target as int, created);
                    lemma_next_path_valid(self@, *config, target as int, depot_refuel, new_path);
                    let fin = tagged(path_options@, tags@);
                    assert forall|k: int| 0 <= k < fin.len() implies (#[trigger] fin[k]).0.1.len() > 0 && (before.contains(fin[k])
                        || path_option_valid(fin[k].0, *config, *truck, prev_len)) by {
                        if start.contains(fin[k]) {
                            let q = choose|q: int| 0 <= q < start.len() && start[q] == fin[k];
                            assert(start[q].0.1.len() > 0);
                        } else {
                            assert(fin[k] == (created, NEW_OPTION_TAG as int));
                            assert(path_option_valid(created, *config, *truck, prev_len));
                        }
                    }
                },
            }
        }
    }
}

impl PathOption {
    /// Extends `self` (the option at `own_index`) to `node`, to each fuel station but `skip`,
    /// and to the depot with a refuel, adding each result under the dominance rule.
    fn extend_with_option(
        &self,
        config: &Config,
        truck: &Truck,
        own_index: usize,
        node: usize,
        compatible: u32,
        loading_distance: u32,
        new_path: bool,
        skip: usize,
        path_options: &mut Vec<PathOption>,
        tags: &mut Vec<usize>,
        Ghost(prev_len): Ghost<int>,
        Ghost(before): Ghost<Seq<TaggedPathOption>>,
    )
        requires
            config.wf(),
            self@.1.len() > 0,
            forall|i: int|
                0 <= i < self@.1.len() ==> (#[trigger] self@.1[i] < config.dimension() || self@.1[i]
                    == ROUTE_DEPOT_REFUEL as usize),
            self@.0.fuel() <= truck.fuel_capacity(),
            model_node(self@) < config.dimension(),
            node < config.dimension(),
            loading_distance <= 2,
            own_index < prev_len,
            old(path_options)@.len() == old(tags)@.len(),
            grown_validly(tagged(old(path_options)@, old(tags)@), before, *config, *truck, prev_len),
        ensures
            final(path_options)@.len() == final(tags)@.len(),
            tagged(final(path_options)@, final(tags)@) == extend_option(
                *config,
                *truck,
                tagged(old(path_options)@, old(tags)@),
                self@,
                own_index as int,
                node as int,
                compatible,
                loading_distance as int,
                new_path,
                skip as int,
            ),
            grown_validly(tagged(final(path_options)@, final(tags)@), before, *config, *truck, prev_len),
    {
        assert(self@.0 == self.summary);
        let from = self.get_current_node();
        let first = self.summary.next_summary(config, truck, from, node, false, compatible, loading_distance);
        self.add_extension(
            config,
            truck,
            own_index,
            path_options,
            tags,
            first,
            node,
            false,
            new_path,
            Ghost(prev_len),
            Ghost(before),
        );
        let ghost l1 = tagged(path_options@, tags@);
        let mut afs = config.get_first_afs();
        let dummy_depot = config.get_dummy_depot();
        while afs < dummy_depot
            invariant
                config.wf(),
                self@.1.len() > 0,
                forall|i: int|
                    0 <= i < self@.1.len() ==> (#[trigger] self@.1[i] < config.dimension() || self@.1[i]
                        == ROUTE_DEPOT_REFUEL as usize),
                self@.0.fuel() <= truck.fuel_capacity(),
                self@.0 == self.summary,
                from == model_node(self@),
                from < config.dimension(),
                loading_distance <= 2,
                own_index < prev_len,
                dummy_depot == config.dimension(),
                config.first_afs() <= afs <= dummy_depot,
                path_options@.len() == tags@.len(),
                grown_validly(tagged(path_options@, tags@), before, *config, *truck, prev_len),
                add_afs_from(*config, *truck, l1, self@, own_index as int, from as int, compatible, loading_distance as int, new_path, skip as int, config.first_afs())
                    == add_afs_from(*config, *truck, tagged(path_options@, tags@), self@, own_index as int, from as int, compatible, loading_distance as int, new_path, skip as int, afs as int),
            decreases dummy_depot - afs,
        {
            if afs != skip {
                let next = self.summary.next_summary(config, truck, from, afs, false, compatible, loading_distance);
                self.add_extension(
                    config,
                    truck,
                    own_index,
                    path_options,
                    tags,
                    next,
                    afs,
                    false,
                    new_path,
                    Ghost(prev_len),
                    Ghost(before),
                );
            }
            afs = afs + 1;
        }
        let last = self.summary.next_summary(config, truck, from, 0, true, compatible, loading_distance);
        self.add_extension(
            config,
            truck,
            own_index,
            path_options,
            tags,
            last,
            0,
            true,
            new_path,
            Ghost(prev_len),
            Ghost(before),
        );
    }
}

/// The compatibility mask for a path option with mask `option_compatible`: from
/// `compatible`, clear the bit of each container option (from index `ci` on) whose previous
/// container option the path option is not compatible with.
pub open spec fn clear_incompatible(
    compatible: u32,
    option_compatible: u32,
    c: Seq<ContainerOption>,
    ci: int,
) -> u32
    decreases c.len() - ci,
{
    if ci < 0 || ci >= c.len() {
        compatible
    } else {
        let bit = 1u32 << (ci as usize);
        let previous_bit = 1u32 << (c[ci].previous() as usize);
        let next = if compatible & bit != 0 && !(option_compatible & previous_bit != 0) {
            !bit & compatible
        } else {
            compatible
        };
        clear_incompatible(next, option_compatible, c, ci + 1)
    }
}

/// The list after extending each path option of the previous state from index `k` on, with
/// loading distance `ld`.
pub open spec fn previous_options_from(
    config: Config,
    truck: Truck,
    p: Seq<PathOptionModel>,
    c: Seq<ContainerOption>,
    node: int,
    ld: int,
    list: Seq<TaggedPathOption>,
    k: int,
) -> Seq<TaggedPathOption>
    decreases p.len() - k,
{
    if k < 0 || k >= p.len() {
        list
    } else {
        let m = p[k];
        let compatible = clear_incompatible(masks_up_to(c, ld), m.0.compatible(), c, 0);
        previous_options_from(
            config,
            truck,
            p,
            c,
            node,
            ld,
            extend_option(config, truck, list, m, k, node, compatible, ld, true, usize::MAX as int),
            k + 1,
        )
    }
}

/// The list after handling loading distances `ld`, `ld - 1`, ..., 0 in turn: a distance
/// that no container option has is skipped; otherwise every path option of the previous
/// state is extended with it.
pub open spec fn previous_fill_from(
    config: Config,
    truck: Truck,
    p: Seq<PathOptionModel>,
    c: Seq<ContainerOption>,
    node: int,
    list: Seq<TaggedPathOption>,
    ld: int,
) -> Seq<TaggedPathOption>
    decreases ld + 1,
{
    if ld < 0 {
        list
    } else if container_mask(c, ld) == 0 {
        previous_fill_from(config, truck, p, c, node, list, ld - 1)
    } else {
        let handled = previous_options_from(config, truck, p, c, node, ld, list, 0);
        if config.depot_service() == 0 {
            handled
        } else {
            previous_fill_from(config, truck, p, c, node, handled, ld - 1)
        }
    }
}

/// What is left after loading distance `ld` was handled: nothing when the depot service
/// time is zero (more loading cannot then cost anything), otherwise the lower distances.
pub open spec fn previous_after(
    config: Config,
    truck: Truck,
    p: Seq<PathOptionModel>,
    c: Seq<ContainerOption>,
    node: int,
    list: Seq<TaggedPathOption>,
    ld: int,
) -> Seq<TaggedPathOption> {
    if config.depot_service() == 0 {
        list
    } else {
        previous_fill_from(config, truck, p, c, node, list, ld - 1)
    }
}

pub open spec fn untag(list: Seq<TaggedPathOption>) -> Seq<PathOptionModel> {
    list.map_values(|e: TaggedPathOption| e.0)
}

pub open spec fn tag_all_new(options: Seq<PathOption>) -> Seq<TaggedPathOption> {
    options.map_values(|o: PathOption| (o@, NEW_OPTION_TAG as int))
}

/// The compatibility mask of the path option with mask `option_compatible` when leaving
/// for the container options `c`, starting from `base`.
fn compatible_for_option(base: u32, option_compatible: u32, c: &Vec<ContainerOption>) -> (r: u32)
    requires
        c@.len() <= 32,
        forall|i: int| 0 <= i < c@.len() ==> 0 <= (#[trigger] c@[i]).previous() < 32,
    ensures
        r == clear_incompatible(base, option_compatible, c@, 0),
{
    let mut compatible = base;
    let mut container_index: usize = 0;
    while container_index < c.len()
        invariant
            c@.len() <= 32,
            container_index <= c@.len(),
            forall|i: int| 0 <= i < c@.len() ==> 0 <= (#[trigger] c@[i]).previous() < 32,
            clear_incompatible(base, option_compatible, c@, 0) == clear_incompatible(
                compatible,
                option_compatible,
                c@,
                container_index as int,
            ),
        decreases c@.len() - container_index,
    {
        if PathOption::decode_loading_mask(compatible, container_index)
            && !PathOption::decode_loading_mask(option_compatible, c[container_index].previous_index) {
            compatible = PathOption::remove_index_from_mask(compatible, container_index);
        }
        container_index = container_index + 1;
    }
    compatible
}

impl PathOption {
    /// Fills `path_options` with the paths from the path options of `current_state` to
    /// `node`, to each fuel station and to the depot with a refuel, for each loading distance
    /// that a container option at the next state has (see `previous_fill_from`).
    fn fill_with_path_options_from_previous_state(
        config: &Config,
        truck: &Truck,
        current_state: &Rc<SearchState>,
        node: usize,
        path_options: &mut Vec<PathOption>,
        container_options_at_node: &Vec<ContainerOption>,
    )
        requires
            config.wf(),
            truck.wf(),
            current_state.valid(*config, *truck),
            node < config.first_afs(),
            container_options_at_node@.len() <= 32,
            forall|i: int|
                0 <= i < container_options_at_node@.len() ==> container_option_valid(
                    #[trigger] container_options_at_node@[i],
                    *truck,
                    current_state.containers().len() as int,
                ),
            forall|i: int| 0 <= i < old(path_options)@.len() ==> (#[trigger] old(path_options)@[i])@.1.len() > 0,
        ensures
            models(final(path_options)@) == untag(
                previous_fill_from(
                    *config,
                    *truck,
                    models(current_state.paths()),
                    container_options_at_node@,
                    node as int,
                    tag_all_new(old(path_options)@),
                    2,
                ),
            ),
            forall|k: int|
                0 <= k < final(path_options)@.len() ==> (#[trigger] final(path_options)@[k])@.1.len() > 0
                    && (models(old(path_options)@).contains(final(path_options)@[k]@)
                    || path_option_valid(final(path_options)@[k]@, *config, *truck, current_state.paths().len() as int)),
    {
        let ghost c = container_options_at_node@;
        let ghost p = models(current_state.paths());
        let ghost before = tag_all_new(path_options@);
        let ghost target = previous_fill_from(*config, *truck, p, c, node as int, before, 2);
        let ghost prev_len = current_state.paths().len() as int;
        let state: &SearchState = &**current_state;
        assert(state.valid(*config, *truck));
        assert(state.container_options@.len() <= 32);
        let masks = SearchState::get_container_masks(container_options_at_node);
        let mut tags: Vec<usize> = Vec::new();
        while tags.len() < path_options.len()
            invariant
                tags@.len() <= path_options@.len(),
                forall|i: int| 0 <= i < tags@.len() ==> tags@[i] == NEW_OPTION_TAG,
            decreases path_options@.len() - tags@.len(),
        {
            tags.push(NEW_OPTION_TAG);
        }
        assert(tagged(path_options@, tags@) =~= before);
        proof {
            assert forall|k: int| 0 <= k < before.len() implies (#[trigger] before[k]).0.1.len() > 0 && (before.contains(before[k])
                || path_option_valid(before[k].0, *config, *truck, prev_len)) by {
                assert(before[k].0 == path_options@[k]@);
            }
        }
        let service = config.get_depot_service_time();
        let mut loading_distance: usize = 3;
        while loading_distance > 0
            invariant
                config.wf(),
                truck.wf(),
                state.valid(*config, *truck),
                *state == **current_state,
                p == models(state.path_options@),
                prev_len == state.path_options@.len(),
                c == container_options_at_node@,
                c.len() <= 32,
                forall|i: int|
                    0 <= i < c.len() ==> container_option_valid(#[trigger] c[i], *truck, state.container_options@.len() as int),
                state.container_options@.len() <= 32,
                forall|ld: int| 0 <= ld < 3 ==> masks@[ld] == container_mask(c, ld),
                service == config.depot_service(),
                node < config.first_afs(),
                loading_distance <= 3,
                path_options@.len() == tags@.len(),
                before == tag_all_new(old(path_options)@),
                target == previous_fill_from(*config, *truck, p, c, node as int, before, 2),
                grown_validly(tagged(path_options@, tags@), before, *config, *truck, prev_len),
                target == previous_fill_from(*config, *truck, p, c, node as int, tagged(path_options@, tags@), loading_distance - 1),
            decreases loading_distance,
        {
            loading_distance = loading_distance - 1;
            if masks[loading_distance] != 0 {
                let mut base_key: u32 = 0;
                let mut i: usize = 0;
                while i <= loading_distance
                    invariant
                        loading_distance < 3,
                        i <= loading_distance + 1,
                        forall|ld: int| 0 <= ld < 3 ==> masks@[ld] == container_mask(c, ld),
                        base_key == if i == 0 {
                            0u32
                        } else {
                            masks_up_to(c, i - 1)
                        },
                    decreases loading_distance + 1 - i,
                {
                    base_key = base_key | masks[i];
                    i = i + 1;
                }
                let mut option_index: usize = 0;
                while option_index < state.path_options.len()
                    invariant
                        config.wf(),
                        truck.wf(),
                        state.valid(*config, *truck),
                        p == models(state.path_options@),
                        prev_len == state.path_options@.len(),
                        c == container_options_at_node@,
                        c.len() <= 32,
                        forall|i: int|
                            0 <= i < c.len() ==> container_option_valid(#[trigger] c[i], *truck, state.container_options@.len() as int),
                        state.container_options@.len() <= 32,
                        base_key == masks_up_to(c, loading_distance as int),
                        node < config.first_afs(),
                        loading_distance < 3,
                        option_index <= prev_len,
                        path_options@.len() == tags@.len(),
                        before == tag_all_new(old(path_options)@),
                        target == previous_fill_from(*config, *truck, p, c, node as int, before, 2),
                        grown_validly(tagged(path_options@, tags@), before, *config, *truck, prev_len),
                        target == previous_after(
                            *config,
                            *truck,
                            p,
                            c,
                            node as int,
                            previous_options_from(*config, *truck, p, c, node as int, loading_distance as int, tagged(path_options@, tags@), option_index as int),
                            loading_distance as int,
                        ),
                    decreases prev_len - option_index,
                {
                    let option = &state.path_options[option_index];
                    assert(p[option_index as int] == option@);
                    let compatible = compatible_for_option(
                        base_key,
                        option.summary.compatible_container_options,
                        container_options_at_node,
                    );
                    assert(option@.0.compatible() == option.summary.compatible_container_options);
                    option.extend_with_option(
                        config,
                        truck,
                        option_index,
                        node,
                        compatible,
                        loading_distance as u32,
                        true,
                        usize::MAX,
                        path_options,
                        &mut tags,
                        Ghost(prev_len),
                        Ghost(before),
                    );
                    option_index = option_index + 1;
                }
                if service == 0 {
                    proof {
                        lemma_untag_tagged(path_options@, tags@);
                        lemma_grown_validly_models(tagged(path_options@, tags@), path_options@, tags@, before, old(path_options)@, *config, *truck, prev_len);
                    }
                    return ;
                }
            }
        }
        proof {
            lemma_untag_tagged(path_options@, tags@);
            lemma_grown_validly_models(tagged(path_options@, tags@), path_options@, tags@, before, old(path_options)@, *config, *truck, prev_len);
        }
    }
}

proof fn lemma_untag_tagged(options: Seq<PathOption>, tags: Seq<usize>)
    requires
        options.len() == tags.len(),
    ensures
        untag(tagged(options, tags)) == models(options),
{
    assert(untag(tagged(options, tags)) =~= models(options));
}

proof fn lemma_grown_validly_models(
    list: Seq<TaggedPathOption>,
    options: Seq<PathOption>,
    tags: Seq<usize>,
    before: Seq<TaggedPathOption>,
    old_options: Seq<PathOption>,
    config: Config,
    truck: Truck,
    prev_len: int,
)
    requires
        options.len() == tags.len(),
        list == tagged(options, tags),
        before == tag_all_new(old_options),
        grown_validly(list, before, config, truck, prev_len),
    ensures
        forall|k: int|
            0 <= k < options.len() ==> (#[trigger] options[k])@.1.len() > 0 && (models(old_options).contains(options[k]@)
                || path_option_valid(options[k]@, config, truck, prev_len)),
{
    assert forall|k: int| 0 <= k < options.len() implies (#[trigger] options[k])@.1.len() > 0 && (models(old_options).contains(options[k]@)
        || path_option_valid(options[k]@, config, truck, prev_len)) by {
        assert(list[k].0 == options[k]@);
        if before.contains(list[k]) {
            let q = choose|q: int| 0 <= q < before.len() && before[q] == list[k];
            assert(models(old_options)[q] == options[k]@);
        }
    }
}

/// The first option of `list` tagged `tag`, if any.
pub open spec fn find_tag(list: Seq<TaggedPathOption>, tag: int) -> Option<PathOptionModel>
    decreases list.len(),
{
    if list.len() == 0 {
        None
    } else if list[0].1 == tag {
        Some(list[0].0)
    } else {
        find_tag(list.drop_first(), tag)
    }
}

proof fn lemma_find_tag(list: Seq<TaggedPathOption>, tag: int, p: int)
    requires
        0 <= p <= list.len(),
        forall|j: int| 0 <= j < p ==> (#[trigger] list[j]).1 != tag,
        p < list.len() ==> list[p].1 == tag,
    ensures
        find_tag(list, tag) == if p < list.len() {
            Some(list[p].0)
        } else {
            None::<PathOptionModel>
        },
    decreases list.len(),
{
    if list.len() > 0 && p > 0 {
        let rest = list.drop_first();
        assert forall|j: int| 0 <= j < p - 1 implies (#[trigger] rest[j]).1 != tag by {
            assert(rest[j] == list[j + 1]);
        }
        lemma_find_tag(rest, tag, p - 1);
        if p < list.len() {
            assert(rest[p - 1] == list[p]);
        }
    }
}

/// Extending option `m` once more: unless it is at `node` already, straight to `node`, to
/// each other fuel station, and to the depot with a refuel, keeping its path and its
/// index into the previous state.
pub open spec fn following_step(
    config: Config,
    truck: Truck,
    list: Seq<TaggedPathOption>,
    m: PathOptionModel,
    node: int,
) -> Seq<TaggedPathOption> {
    if model_node(m) == node {
        list
    } else {
        extend_option(config, truck, list, m, m.2, node, m.0.compatible(), 0, false, model_node(m))
    }
}

/// The list after taking the options tagged in `queue` in turn: the first, after which the
/// last takes its place. An option that was removed from the list meanwhile is skipped.
pub open spec fn queue_from(
    config: Config,
    truck: Truck,
    list: Seq<TaggedPathOption>,
    queue: Seq<usize>,
    node: int,
) -> Seq<TaggedPathOption>
    decreases queue.len(),
{
    if queue.len() == 0 {
        list
    } else {
        let next_queue = queue.update(0, queue.last()).drop_last();
        let next_list = match find_tag(list, queue[0] as int) {
            Some(m) => following_step(config, truck, list, m, node),
            None => list,
        };
        queue_from(config, truck, next_list, next_queue, node)
    }
}

/// The options of `list` tagged with their indices.
pub open spec fn tag_indices(list: Seq<PathOptionModel>) -> Seq<TaggedPathOption> {
    Seq::new(list.len(), |i: int| (list[i], i))
}

/// Every option of `list` is valid with indices below `prev_len`.
pub open spec fn all_valid(list: Seq<PathOptionModel>, config: Config, truck: Truck, prev_len: int) -> bool {
    forall|k: int| 0 <= k < list.len() ==> path_option_valid(#[trigger] list[k], config, truck, prev_len)
}

impl PathOption {
    /// Extends each path option found so far once more (see `queue_from`): straight to
    /// `node`, to a fuel station, or to the depot with a refuel.
    fn fill_with_following_paths(
        config: &Config,
        truck: &Truck,
        node: usize,
        path_options: &mut Vec<PathOption>,
        Ghost(prev_len): Ghost<int>,
    )
        requires
            config.wf(),
            node < config.first_afs(),
            all_valid(models(old(path_options)@), *config, *truck, prev_len),
        ensures
            models(final(path_options)@) == untag(
                queue_from(
                    *config,
                    *truck,
                    tag_indices(models(old(path_options)@)),
                    Seq::new(old(path_options)@.len(), |i: int| i as usize),
                    node as int,
                ),
            ),
            all_valid(models(final(path_options)@), *config, *truck, prev_len),
            models_antichain(models(old(path_options)@)) && models(old(path_options)@).no_duplicates()
                ==> models_antichain(models(final(path_options)@)),
            forall|i: int|
                0 <= i < old(path_options)@.len() ==> #[trigger] dominated_in(
                    models(old(path_options)@)[i],
                    tag_indices(models(final(path_options)@)),
                ),
            forall|i: int|
                0 <= i < old(path_options)@.len() ==> models(final(path_options)@).contains(
                    models(old(path_options)@)[i],
                ) || #[trigger] beaten_in(models(old(path_options)@)[i], tag_indices(models(final(path_options)@))),
    {
        let ghost start = tag_indices(models(path_options@));
        let count = path_options.len();
        let ghost initial_queue = Seq::new(count as nat, |i: int| i as usize);
        let ghost target = queue_from(*config, *truck, start, initial_queue, node as int);
        proof {
            lemma_fill_laws(*config, *truck, models(path_options@), initial_queue, node as int);
        }
        let mut tags: Vec<usize> = Vec::new();
        let mut iteration_queue: Vec<usize> = Vec::new();
        while tags.len() < count
            invariant
                count == path_options@.len(),
                tags@.len() <= count,
                iteration_queue@ == tags@,
                forall|i: int| 0 <= i < tags@.len() ==> tags@[i] == i,
            decreases count - tags@.len(),
        {
            let i = tags.len();
            tags.push(i);
            iteration_queue.push(i);
        }
        assert(tagged(path_options@, tags@) =~= start);
        assert(iteration_queue@ =~= initial_queue);
        proof {
            assert forall|k: int| 0 <= k < start.len() implies (#[trigger] start[k]).0.1.len() > 0 && (Seq::<TaggedPathOption>::empty().contains(start[k])
                || path_option_valid(start[k].0, *config, *truck, prev_len)) by {
                assert(start[k].0 == models(path_options@)[k]);
            }
        }
        while iteration_queue.len() != 0
            invariant
                config.wf(),
                node < config.first_afs(),
                path_options@.len() == tags@.len(),
                grown_validly(tagged(path_options@, tags@), Seq::empty(), *config, *truck, prev_len),
                target == queue_from(*config, *truck, tagged(path_options@, tags@), iteration_queue@, node as int),
            decreases iteration_queue@.len(),
        {
            let ghost list = tagged(path_options@, tags@);
            let ghost queue = iteration_queue@;
            let tag = iteration_queue.swap_remove(0);
            let mut position: usize = 0;
            while position < tags.len() && tags[position] != tag
                invariant
                    position <= tags@.len(),
                    tags@.len() == path_options@.len(),
                    list == tagged(path_options@, tags@),
                    forall|j: int| 0 <= j < position ==> (#[trigger] list[j]).1 != tag as int,
                decreases tags@.len() - position,
            {
                position = position + 1;
            }
            proof {
                lemma_find_tag(list, tag as int, position as int);
            }
            if position < tags.len() {
                let option = path_options[position].duplicate();
                assert(option@ == list[position as int].0);
                assert(list[position as int].0.1.len() > 0);
                assert(path_option_valid(list[position as int].0, *config, *truck, prev_len));
                let current_node = option.get_current_node();
                if current_node != node {
                    assert(option@.0 == option.summary);
                    assert(option@.2 == option.previous_index);
                    option.extend_with_option(
                        config,
                        truck,
                        option.previous_index,
                        node,
                        option.summary.compatible_container_options,
                        0,
                        false,
                        current_node,
                        path_options,
                        &mut tags,
                        Ghost(prev_len),
                        Ghost(Seq::empty()),
                    );
                }
            }
        }
        proof {
            lemma_untag_tagged(path_options@, tags@);
            let fin = tagged(path_options@, tags@);
            assert forall|k: int| 0 <= k < models(path_options@).len() implies path_option_valid(#[trigger] models(path_options@)[k], *config, *truck, prev_len) by {
                assert(fin[k].0 == models(path_options@)[k]);
            }
        }
    }
}

/// Removes, in place and in order, the options that do not end at `node`.
fn retain_at_node(path_options: &mut Vec<PathOption>, node: usize)
    requires
        forall|i: int| 0 <= i < old(path_options)@.len() ==> (#[trigger] old(path_options)@[i])@.1.len() > 0,
    ensures
        models(final(path_options)@) == models(old(path_options)@).filter(
            |m: PathOptionModel| model_node(m) == node,
        ),
{
    let ghost start = models(path_options@);
    let ghost keep = |m: PathOptionModel| model_node(m) == node;
    let mut i: usize = 0;
    let ghost mut j: int = 0;
    while i < path_options.len()
        invariant
            0 <= i <= j <= start.len(),
            i <= path_options@.len(),
            models(path_options@) == start.take(j).filter(keep) + start.skip(j),
            i == start.take(j).filter(keep).len(),
            forall|k: int| 0 <= k < path_options@.len() ==> (#[trigger] path_options@[k])@.1.len() > 0,
            start == models(old(path_options)@),
            keep == (|m: PathOptionModel| model_node(m) == node),
        decreases path_options@.len() - i,
    {
        let ghost before = models(path_options@);
        proof {
            assert(start.take(j + 1) =~= start.take(j).push(start[j]));
            broadcast use Seq::lemma_filter_push;
            assert(before[i as int] == start[j]);
            assert(start.skip(j) =~= seq![start[j]] + start.skip(j + 1));
        }
        if path_options[i].get_current_node() != node {
            path_options.remove(i);
            proof {
                assert(models(path_options@) =~= before.remove(i as int));
                assert(models(path_options@) =~= start.take(j + 1).filter(keep) + start.skip(j + 1));
                j = j + 1;
            }
        } else {
            proof {
                assert(before =~= start.take(j + 1).filter(keep) + start.skip(j + 1));
                j = j + 1;
            }
            i = i + 1;
        }
    }
    proof {
        assert(start.take(j) =~= start);
        assert(models(path_options@) =~= start.filter(keep));
    }
}

/// The path options of the next state when going from path options `paths` to `node` with
/// container options `c`: those extended from `paths`, extended once more, that end at `node`.
pub open spec fn route_paths_of(
    paths: Seq<PathOptionModel>,
    config: Config,
    truck: Truck,
    node: int,
    c: Seq<ContainerOption>,
) -> Seq<PathOptionModel> {
    let first = untag(previous_fill_from(config, truck, paths, c, node, Seq::empty(), 2));
    let second = untag(
        queue_from(config, truck, tag_indices(first), Seq::new(first.len(), |i: int| i as usize), node),
    );
    second.filter(|m: PathOptionModel| model_node(m) == node)
}

impl SearchState {
    /// The path options of the next state when going to `node` with container options `c`
    /// (see `route_paths_of`).
    pub open spec fn route_paths(&self, config: Config, truck: Truck, node: int, c: Seq<ContainerOption>) -> Seq<
        PathOptionModel,
    > {
        route_paths_of(models(self.paths()), config, truck, node, c)
    }

    /// The mask of visited requests after arriving at `node`.
    pub open spec fn visited_after(&self, node: int) -> u64 {
        if node != 0 {
            self.visited_mask() | (1u64 << ((node - 1) as u64))
        } else {
            self.visited_mask()
        }
    }

    /// The state after `current_state` that `path_options` reach; `None` when the full
    /// containers on board cannot be tracked (see `sources_at_arrival`).
    fn create_next_state_after_current_state(
        config: &Config,
        truck: &Truck,
        current_state: &Rc<SearchState>,
        path_options: Vec<PathOption>,
        container_options_at_node: Vec<ContainerOption>,
    ) -> (s: Rc<SearchState>)
        requires
            config.wf(),
            truck.wf(),
            current_state.valid(*config, *truck),
            current_state.containers().len() > 0,
            path_options@.len() > 0,
            current_state.sources_at_arrival(*config, model_node(path_options@[0]@)) is Some,
            forall|i: int|
                0 <= i < path_options@.len() ==> path_option_valid(
                    (#[trigger] path_options@[i])@,
                    *config,
                    *truck,
                    current_state.paths().len() as int,
                ),
            forall|i: int|
                0 <= i < path_options@.len() ==> model_node((#[trigger] path_options@[i])@)
                    == model_node(path_options@[0]@),
            model_node(path_options@[0]@) < config.first_afs(),
            model_node(path_options@[0]@) != 0 ==> !visited(current_state.visited_mask(), model_node(path_options@[0]@)),
            forall|i: int|
                0 <= i < path_options@.len() ==> heads_for(
                    (#[trigger] path_options@[i])@.1,
                    config.first_afs(),
                    model_node(path_options@[0]@),
                ),
            container_options_at_node@.len() <= 32,
            forall|i: int|
                0 <= i < container_options_at_node@.len() ==> container_option_valid(
                    #[trigger] container_options_at_node@[i],
                    *truck,
                    current_state.containers().len() as int,
                ),
        ensures
            ({
                &&& s.valid(*config, *truck)
                &&& s.node() == model_node(path_options@[0]@)
                &&& models(s.paths()) == models(path_options@)
                &&& s.containers() == record_paths(container_options_at_node@, models(path_options@))
                &&& Some(s.sources()) == current_state.sources_at_arrival(*config, s.node())
                &&& s.visited_mask() == current_state.visited_after(s.node())
                &&& s.previous() == Some(**current_state)
            }),
    {
        let current_node = path_options[0].get_current_node();
        let new_state_reference = Rc::clone(current_state);
        let (full_request_1_source, full_request_2_source) = current_state.get_container_sources_at_arrival(
            config,
            current_node,
        );
        let container_options = SearchState::update_container_options_with_paths(
            container_options_at_node,
            &path_options,
        );
        let ghost c = container_options@;
        let mut new_state = SearchState {
            current_node,
            path_options,
            container_options,
            full_request_1_source,
            full_request_2_source,
            requests_visited: current_state.requests_visited,
            previous_state: Some(new_state_reference),
        };
        if current_node != 0 {
            new_state.set_request_visited(current_node);
        }
        proof {
            let prev_containers = current_state.containers().len() as int;
            assert forall|i: int| 0 <= i < new_state.container_options@.len() implies container_option_valid(
                #[trigger] new_state.container_options@[i],
                *truck,
                prev_containers,
            ) by {
                assert(new_state.container_options@[i] == container_options_at_node@[i].with_paths(models(path_options@), i));
                container_options_at_node@[i].lemma_with_paths_fields(models(path_options@), i);
                assert(container_option_valid(container_options_at_node@[i], *truck, prev_containers));
            }
            assert(models(new_state.path_options@) =~= models(path_options@));
        }
        return Rc::new(new_state);
    }

    /// Finds the paths from `current_state` to `node` and returns the next state, or `None`
    /// when no path arrives. The full containers on board must be trackable on arrival (see
    /// `can_track_containers_at`).
    pub fn route_to_node(
        config: &Config,
        truck: &Truck,
        current_state: &Rc<SearchState>,
        node: usize,
        container_options_at_node: Vec<ContainerOption>,
    ) -> (r: Option<Rc<SearchState>>)
        requires
            config.wf(),
            truck.wf(),
            current_state.valid(*config, *truck),
            current_state.containers().len() > 0,
            current_state.node() != node,
            node < config.first_afs(),
            node != 0 ==> !visited(current_state.visited_mask(), node as int),
            current_state.sources_at_arrival(*config, node as int) is Some,
            container_options_at_node@.len() <= 32,
            forall|i: int|
                0 <= i < container_options_at_node@.len() ==> container_option_valid(
                    #[trigger] container_options_at_node@[i],
                    *truck,
                    current_state.containers().len() as int,
                ),
        ensures
            r is Some <==> current_state.route_paths(*config, *truck, node as int, container_options_at_node@).len() > 0,
            r matches Some(s) ==> {
                &&& s.valid(*config, *truck)
                &&& s.node() == node
                &&& models(s.paths()) == current_state.route_paths(*config, *truck, node as int, container_options_at_node@)
                &&& s.containers() == record_paths(
                    container_options_at_node@,
                    current_state.route_paths(*config, *truck, node as int, container_options_at_node@),
                )
                &&& Some(s.sources()) == current_state.sources_at_arrival(*config, node as int)
                &&& s.visited_mask() == current_state.visited_after(node as int)
                &&& s.previous() == Some(**current_state)
            },
    {
        let mut path_options: Vec<PathOption> = Vec::new();
        let ghost prev_len = current_state.paths().len() as int;
        PathOption::fill_with_path_options_from_previous_state(
            config,
            truck,
            current_state,
            node,
            &mut path_options,
            &container_options_at_node,
        );
        proof {
            assert(tag_all_new(Seq::<PathOption>::empty()) =~= Seq::<TaggedPathOption>::empty());
            assert(models(Seq::<PathOption>::empty()) =~= Seq::<PathOptionModel>::empty());
            assert forall|k: int| 0 <= k < models(path_options@).len() implies path_option_valid(
                #[trigger] models(path_options@)[k],
                *config,
                *truck,
                prev_len,
            ) by {
                assert(models(path_options@)[k] == path_options@[k]@);
            }
        }
        let ghost first = models(path_options@);
        PathOption::fill_with_following_paths(config, truck, node, &mut path_options, Ghost(prev_len));
        proof {
            assert forall|i: int| 0 <= i < path_options@.len() implies (#[trigger] path_options@[i])@.1.len() > 0 by {
                assert(models(path_options@)[i] == path_options@[i]@);
            }
        }
        let ghost second = models(path_options@);
        retain_at_node(&mut path_options, node);
        proof {
            broadcast use Seq::lemma_filter_pred, Seq::lemma_filter_contains_rev;
            let keep = |m: PathOptionModel| model_node(m) == node as int;
            assert forall|i: int| 0 <= i < path_options@.len() implies path_option_valid(
                (#[trigger] path_options@[i])@,
                *config,
                *truck,
                prev_len,
            ) && model_node(path_options@[i]@) == node by {
                assert(models(path_options@)[i] == path_options@[i]@);
                assert(second.filter(keep)[i] == path_options@[i]@);
                assert(keep(second.filter(keep)[i]));
                assert(second.filter(keep).contains(second.filter(keep)[i]));
                assert(second.contains(path_options@[i]@));
                let q = choose|q: int| 0 <= q < second.len() && second[q] == path_options@[i]@;
                assert(path_option_valid(second[q], *config, *truck, prev_len));
            }
        }
        if path_options.len() == 0 {
            return None;
        }
        proof {
            current_state.lemma_route_paths_head_for(*config, *truck, node as int, container_options_at_node@);
            assert forall|i: int| 0 <= i < path_options@.len() implies heads_for(
                (#[trigger] path_options@[i])@.1,
                config.first_afs(),
                node as int,
            ) by {
                assert(models(path_options@)[i] == path_options@[i]@);
            }
        }
        let r = SearchState::create_next_state_after_current_state(
            config,
            truck,
            current_state,
            path_options,
            container_options_at_node,
        );
        Some(r)
    }
}

/// Along a chain of states built by the search, the visited requests are exactly the
/// request nodes the chain passes, and no request node is passed twice: the chain starts at
/// the depot, and only the depot may come again.
pub proof fn lemma_chain_visits(state: &SearchState, config: Config, truck: Truck)
    requires
        config.wf(),
        state.valid(config, truck),
    ensures
        state.chain_nodes()[0] == 0,
        forall|n: int|
            1 <= n < config.first_afs() ==> (visited(state.visited_mask(), n) <==> #[trigger] state.chain_nodes().contains(n)),
        forall|i: int, j: int|
            0 <= i < j < state.chain_nodes().len() && #[trigger] state.chain_nodes()[i]
                == #[trigger] state.chain_nodes()[j] ==> state.chain_nodes()[i] == 0,
    decreases state.depth(),
{
    match state.previous_state {
        Some(p) => {
            lemma_chain_visits(&*p, config, truck);
            let prev = (*p).chain_nodes();
            let chain = state.chain_nodes();
            assert(chain == prev.push(state.node()));
            assert forall|n: int| 1 <= n < config.first_afs() implies (visited(state.visited_mask(), n)
                <==> #[trigger] chain.contains(n)) by {
                assert(state.visited_mask() == (*p).visited_after(state.node()));
                assert(visited((*p).visited_mask(), n) <==> prev.contains(n));
                if state.node() != 0 {
                    lemma_mark_visited((*p).visited_mask(), state.node(), n);
                }
                if chain.contains(n) {
                    let k = choose|k: int| 0 <= k < chain.len() && chain[k] == n;
                    if k < prev.len() {
                        assert(prev[k] == n);
                    } else {
                        assert(n == state.node());
                    }
                }
                if prev.contains(n) {
                    let k = choose|k: int| 0 <= k < prev.len() && prev[k] == n;
                    assert(chain[k] == n);
                }
                if n == state.node() {
                    assert(chain[prev.len() as int] == n);
                }
                assert(chain.contains(n) <==> (prev.contains(n) || n == state.node()));
            }
            assert forall|i: int, j: int|
                0 <= i < j < chain.len() && #[trigger] chain[i] == #[trigger] chain[j] implies chain[i] == 0 by {
                if j == prev.len() && chain[j] != 0 {
                    assert(prev[i] == chain[j]);
                    assert(prev.contains(state.node()));
                    assert(1 <= state.node() < config.first_afs());
                } else if j < prev.len() {
                    assert(prev[i] == prev[j]);
                }
            }
        },
        None => {
            assert(state.chain_nodes() == seq![0int]);
            assert forall|n: int| 1 <= n < config.first_afs() implies !visited(state.visited_mask(), n) by {
                let b = (n - 1) as u64;
                assert(b < 64 ==> 0u64 & (1u64 << b) == 0) by (bit_vector);
            }
        },
    }
}

/// Every load that a state of a chain built by the search allows fits the truck, and the
/// state before it belongs to such a chain too (so its loads fit as well).
pub proof fn lemma_loads_fit(state: &SearchState, config: Config, truck: Truck)
    requires
        state.valid(config, truck),
    ensures
        forall|i: int| 0 <= i < state.containers().len() ==> (#[trigger] state.containers()[i]).fits(truck),
        state.previous() matches Some(p) ==> p.valid(config, truck),
{
    assert forall|i: int| 0 <= i < state.containers().len() implies (#[trigger] state.containers()[i]).fits(truck) by {
        let prev_containers = match state.previous_state {
            Some(p) => (*p).container_options@.len() as int,
            None => 1,
        };
        assert(container_option_valid(state.container_options@[i], truck, prev_containers));
    }
}

// ---------------------------------------------------------------------------------------------
// Request nodes on the paths
// ---------------------------------------------------------------------------------------------

/// `path` is not empty and passes no request node (`1..first_afs`) but, possibly, its last
/// node, which is then `node`.
pub open spec fn heads_for(path: Seq<usize>, first_afs: int, node: int) -> bool {
    &&& path.len() > 0
    &&& forall|i: int| 0 <= i < path.len() - 1 ==> !(1 <= #[trigger] path[i] < first_afs)
    &&& 1 <= path.last() < first_afs ==> path.last() == node
}

pub open spec fn all_head_for(list: Seq<TaggedPathOption>, first_afs: int, node: int) -> bool {
    forall|k: int| 0 <= k < list.len() ==> heads_for((#[trigger] list[k]).0.1, first_afs, node)
}

/// Extending a path that heads for `node` but is not there yet, or starting a new one, to
/// `node`, the depot, a fuel station or a refuel at the depot gives a path heading for `node`.
proof fn lemma_next_path_heads_for(
    m: PathOptionModel,
    target: int,
    depot_refuel: bool,
    new_path: bool,
    first_afs: int,
    node: int,
)
    requires
        1 <= first_afs <= 64,
        0 <= target < 256,
        new_path || (heads_for(m.1, first_afs, node) && model_node(m) != node),
        depot_refuel || target == node || target == 0 || target >= first_afs,
    ensures
        heads_for(next_path(m, target, depot_refuel, new_path), first_afs, node),
{
    let base = if new_path {
        Seq::<usize>::empty()
    } else {
        m.1
    };
    let p = next_path(m, target, depot_refuel, new_path);
    assert forall|i: int| 0 <= i < base.len() implies !(1 <= #[trigger] base[i] < first_afs) by {
        if i == base.len() - 1 && 1 <= base[i] < first_afs {
            assert(base[i] == m.1.last());
            assert(model_node(m) == node);
        }
    }
    assert forall|i: int| 0 <= i < p.len() - 1 implies !(1 <= #[trigger] p[i] < first_afs) by {
        if i < base.len() {
            assert(p[i] == base[i]);
        }
    }
}

/// Adding a path option whose path heads for `node` keeps every path of the list heading
/// for `node`.
proof fn lemma_add_path_option_heads_for(
    list: Seq<TaggedPathOption>,
    summary: PathOptionSummary,
    target: int,
    created: PathOptionModel,
    first_afs: int,
    node: int,
)
    requires
        all_head_for(list, first_afs, node),
        heads_for(created.1, first_afs, node),
    ensures
        all_head_for(add_path_option(list, summary, target, created), first_afs, node),
{
    lemma_add_path_option_subset(list, summary, target, created);
    let result = add_path_option(list, summary, target, created);
    assert forall|k: int| 0 <= k < result.len() implies heads_for((#[trigger] result[k]).0.1, first_afs, node) by {
        if list.contains(result[k]) {
            let j = choose|j: int| 0 <= j < list.len() && list[j] == result[k];
            assert(heads_for(list[j].0.1, first_afs, node));
        }
    }
}

proof fn lemma_add_summary_heads_for(
    list: Seq<TaggedPathOption>,
    m: PathOptionModel,
    own_index: int,
    summary: Option<PathOptionSummary>,
    target: int,
    depot_refuel: bool,
    new_path: bool,
    first_afs: int,
    node: int,
)
    requires
        all_head_for(list, first_afs, node),
        1 <= first_afs <= 64,
        0 <= target < 256,
        new_path || (heads_for(m.1, first_afs, node) && model_node(m) != node),
        depot_refuel || target == node || target == 0 || target >= first_afs,
    ensures
        all_head_for(add_summary(list, m, own_index, summary, target, depot_refuel, new_path), first_afs, node),
{
    if let Some(s) = summary {
        lemma_next_path_heads_for(m, target, depot_refuel, new_path, first_afs, node);
        lemma_add_path_option_heads_for(
            list,
            s,
            target,
            created_model(m, own_index, s, target, depot_refuel, new_path),
            first_afs,
            node,
        );
    }
}

proof fn lemma_add_afs_from_heads_for(
    config: Config,
    truck: Truck,
    list: Seq<TaggedPathOption>,
    m: PathOptionModel,
    own_index: int,
    from: int,
    compatible: u32,
    loading_distance: int,
    new_path: bool,
    skip: int,
    afs: int,
    node: int,
)
    requires
        config.wf(),
        all_head_for(list, config.first_afs(), node),
        afs >= config.first_afs(),
        new_path || (heads_for(m.1, config.first_afs(), node) && model_node(m) != node),
    ensures
        all_head_for(
            add_afs_from(config, truck, list, m, own_index, from, compatible, loading_distance, new_path, skip, afs),
            config.first_afs(),
            node,
        ),
    decreases config.dimension() - afs,
{
    if afs < config.dimension() {
        let next = if afs == skip {
            list
        } else {
            add_summary(
                list,
                m,
                own_index,
                m.0.next_summary_spec(config, truck, from, afs, false, compatible, loading_distance),
                afs,
                false,
                new_path,
            )
        };
        if afs != skip {
            lemma_add_summary_heads_for(
                list,
                m,
                own_index,
                m.0.next_summary_spec(config, truck, from, afs, false, compatible, loading_distance),
                afs,
                false,
                new_path,
                config.first_afs(),
                node,
            );
        }
        lemma_add_afs_from_heads_for(
            config,
            truck,
            next,
            m,
            own_index,
            from,
            compatible,
            loading_distance,
            new_path,
            skip,
            afs + 1,
            node,
        );
    }
}

proof fn lemma_extend_option_heads_for(
    config: Config,
    truck: Truck,
    list: Seq<TaggedPathOption>,
    m: PathOptionModel,
    own_index: int,
    node: int,
    compatible: u32,
    loading_distance: int,
    new_path: bool,
    skip: int,
)
    requires
        config.wf(),
        0 <= node < config.first_afs(),
        all_head_for(list, config.first_afs(), node),
        new_path || (heads_for(m.1, config.first_afs(), node) && model_node(m) != node),
    ensures
        all_head_for(
            extend_option(config, truck, list, m, own_index, node, compatible, loading_distance, new_path, skip),
            config.first_afs(),
            node,
        ),
{
    let fa = config.first_afs();
    let from = model_node(m);
    let l1 = add_summary(
        list,
        m,
        own_index,
        m.0.next_summary_spec(config, truck, from, node, false, compatible, loading_distance),
        node,
        false,
        new_path,
    );
    lemma_add_summary_heads_for(
        list,
        m,
        own_index,
        m.0.next_summary_spec(config, truck, from, node, false, compatible, loading_distance),
        node,
        false,
        new_path,
        fa,
        node,
    );
    let l2 = add_afs_from(config, truck, l1, m, own_index, from, compatible, loading_distance, new_path, skip, fa);
    lemma_add_afs_from_heads_for(
        config,
        truck,
        l1,
        m,
        own_index,
        from,
        compatible,
        loading_distance,
        new_path,
        skip,
        fa,
        node,
    );
    lemma_add_summary_heads_for(
        l2,
        m,
        own_index,
        m.0.next_summary_spec(config, truck, from, 0, true, compatible, loading_distance),
        0,
        true,
        new_path,
        fa,
        node,
    );
}

proof fn lemma_previous_options_from_heads_for(
    config: Config,
    truck: Truck,
    p: Seq<PathOptionModel>,
    c: Seq<ContainerOption>,
    node: int,
    ld: int,
    list: Seq<TaggedPathOption>,
    k: int,
)
    requires
        config.wf(),
        0 <= node < config.first_afs(),
        all_head_for(list, config.first_afs(), node),
    ensures
        all_head_for(previous_options_from(config, truck, p, c, node, ld, list, k), config.first_afs(), node),
    decreases p.len() - k,
{
    if 0 <= k < p.len() {
        let m = p[k];
        let compatible = clear_incompatible(masks_up_to(c, ld), m.0.compatible(), c, 0);
        lemma_extend_option_heads_for(config, truck, list, m, k, node, compatible, ld, true, usize::MAX as int);
        lemma_previous_options_from_heads_for(
            config,
            truck,
            p,
            c,
            node,
            ld,
            extend_option(config, truck, list, m, k, node, compatible, ld, true, usize::MAX as int),
            k + 1,
        );
    }
}

proof fn lemma_previous_fill_from_heads_for(
    config: Config,
    truck: Truck,
    p: Seq<PathOptionModel>,
    c: Seq<ContainerOption>,
    node: int,
    list: Seq<TaggedPathOption>,
    ld: int,
)
    requires
        config.wf(),
        0 <= node < config.first_afs(),
        all_head_for(list, config.first_afs(), node),
    ensures
        all_head_for(previous_fill_from(config, truck, p, c, node, list, ld), config.first_afs(), node),
    decreases ld + 1,
{
    if ld >= 0 {
        if container_mask(c, ld) == 0 {
            lemma_previous_fill_from_heads_for(config, truck, p, c, node, list, ld - 1);
        } else {
            let handled = previous_options_from(config, truck, p, c, node, ld, list, 0);
            lemma_previous_options_from_heads_for(config, truck, p, c, node, ld, list, 0);
            if config.depot_service() != 0 {
                lemma_previous_fill_from_heads_for(config, truck, p, c, node, handled, ld - 1);
            }
        }
    }
}

/// What `find_tag` finds is an option of the list.
proof fn lemma_find_tag_member(list: Seq<TaggedPathOption>, tag: int)
    ensures
        find_tag(list, tag) matches Some(m) ==> exists|i: int| 0 <= i < list.len() && (#[trigger] list[i]).0 == m,
    decreases list.len(),
{
    if list.len() > 0 && list[0].1 != tag {
        let rest = list.drop_first();
        lemma_find_tag_member(rest, tag);
        if let Some(m) = find_tag(rest, tag) {
            let i = choose|i: int| 0 <= i < rest.len() && (#[trigger] rest[i]).0 == m;
            assert(list[i + 1] == rest[i]);
        }
    }
}

proof fn lemma_queue_from_heads_for(
    config: Config,
    truck: Truck,
    list: Seq<TaggedPathOption>,
    queue: Seq<usize>,
    node: int,
)
    requires
        config.wf(),
        0 <= node < config.first_afs(),
        all_head_for(list, config.first_afs(), node),
    ensures
        all_head_for(queue_from(config, truck, list, queue, node), config.first_afs(), node),
    decreases queue.len(),
{
    if queue.len() > 0 {
        let next_queue = queue.update(0, queue.last()).drop_last();
        lemma_find_tag_member(list, queue[0] as int);
        let next_list = match find_tag(list, queue[0] as int) {
            Some(m) => following_step(config, truck, list, m, node),
            None => list,
        };
        if let Some(m) = find_tag(list, queue[0] as int) {
            let i = choose|i: int| 0 <= i < list.len() && (#[trigger] list[i]).0 == m;
            assert(heads_for(list[i].0.1, config.first_afs(), node));
            if model_node(m) != node {
                lemma_extend_option_heads_for(
                    config,
                    truck,
                    list,
                    m,
                    m.2,
                    node,
                    m.0.compatible(),
                    0,
                    false,
                    model_node(m),
                );
            }
        }
        lemma_queue_from_heads_for(config, truck, next_list, next_queue, node);
    }
}

// ---------------------------------------------------------------------------------------------
// No arrival is lost
// ---------------------------------------------------------------------------------------------

/// An option extended to `target` ends at `target` (at the depot, for a refuel there).
proof fn lemma_next_path_node(m: PathOptionModel, target: int, depot_refuel: bool, new_path: bool)
    requires
        0 <= target < 255,
        depot_refuel ==> target == 0,
    ensures
        path_current_node(next_path(m, target, depot_refuel, new_path)) == target,
{
}

/// Adding what a summary gives keeps every option of the list dominated, and the option
/// created is dominated too.
proof fn lemma_add_summary_dominates(
    list: Seq<TaggedPathOption>,
    m: PathOptionModel,
    own_index: int,
    summary: Option<PathOptionSummary>,
    target: int,
    depot_refuel: bool,
    new_path: bool,
)
    requires
        0 <= target < 255,
        depot_refuel ==> target == 0,
    ensures
        all_dominated(list, add_summary(list, m, own_index, summary, target, depot_refuel, new_path)),
        summary matches Some(s) ==> dominated_in(
            created_model(m, own_index, s, target, depot_refuel, new_path),
            add_summary(list, m, own_index, summary, target, depot_refuel, new_path),
        ),
{
    match summary {
        Some(s) => {
            let created = created_model(m, own_index, s, target, depot_refuel, new_path);
            lemma_next_path_node(m, target, depot_refuel, new_path);
            lemma_add_path_option_keeps_dominance(list, s, target, created);
        },
        None => {
            lemma_all_dominated_reflexive(list);
        },
    }
}

proof fn lemma_add_afs_from_dominates(
    config: Config,
    truck: Truck,
    list: Seq<TaggedPathOption>,
    m: PathOptionModel,
    own_index: int,
    from: int,
    compatible: u32,
    loading_distance: int,
    new_path: bool,
    skip: int,
    afs: int,
)
    requires
        config.wf(),
        afs >= 0,
    ensures
        all_dominated(
            list,
            add_afs_from(config, truck, list, m, own_index, from, compatible, loading_distance, new_path, skip, afs),
        ),
    decreases config.dimension() - afs,
{
    if afs < config.dimension() {
        let next = if afs == skip {
            list
        } else {
            add_summary(
                list,
                m,
                own_index,
                m.0.next_summary_spec(config, truck, from, afs, false, compatible, loading_distance),
                afs,
                false,
                new_path,
            )
        };
        if afs == skip {
            lemma_all_dominated_reflexive(list);
        } else {
            lemma_add_summary_dominates(
                list,
                m,
                own_index,
                m.0.next_summary_spec(config, truck, from, afs, false, compatible, loading_distance),
                afs,
                false,
                new_path,
            );
        }
        lemma_add_afs_from_dominates(
            config,
            truck,
            next,
            m,
            own_index,
            from,
            compatible,
            loading_distance,
            new_path,
            skip,
            afs + 1,
        );
        lemma_all_dominated_transitive(
            list,
            next,
            add_afs_from(config, truck, next, m, own_index, from, compatible, loading_distance, new_path, skip, afs + 1),
        );
    } else {
        lemma_all_dominated_reflexive(list);
    }
}

/// Extending an option keeps every option of the list dominated, and its direct extension to
/// `node`, if there is one, is dominated in the result.
proof fn lemma_extend_option_dominates(
    config: Config,
    truck: Truck,
    list: Seq<TaggedPathOption>,
    m: PathOptionModel,
    own_index: int,
    node: int,
    compatible: u32,
    loading_distance: int,
    new_path: bool,
    skip: int,
)
    requires
        config.wf(),
        0 <= node < config.first_afs(),
    ensures
        all_dominated(
            list,
            extend_option(config, truck, list, m, own_index, node, compatible, loading_distance, new_path, skip),
        ),
        m.0.next_summary_spec(config, truck, model_node(m), node, false, compatible, loading_distance) matches Some(s)
            ==> dominated_in(
            created_model(m, own_index, s, node, false, new_path),
            extend_option(config, truck, list, m, own_index, node, compatible, loading_distance, new_path, skip),
        ),
{
    let fa = config.first_afs();
    let from = model_node(m);
    let direct = m.0.next_summary_spec(config, truck, from, node, false, compatible, loading_distance);
    let l1 = add_summary(list, m, own_index, direct, node, false, new_path);
    lemma_add_summary_dominates(list, m, own_index, direct, node, false, new_path);
    let l2 = add_afs_from(config, truck, l1, m, own_index, from, compatible, loading_distance, new_path, skip, fa);
    lemma_add_afs_from_dominates(config, truck, l1, m, own_index, from, compatible, loading_distance, new_path, skip, fa);
    let refuel = m.0.next_summary_spec(config, truck, from, 0, true, compatible, loading_distance);
    let l3 = add_summary(l2, m, own_index, refuel, 0, true, new_path);
    lemma_add_summary_dominates(l2, m, own_index, refuel, 0, true, new_path);
    lemma_all_dominated_transitive(l1, l2, l3);
    lemma_all_dominated_transitive(list, l1, l3);
    if let Some(s) = direct {
        lemma_dominated_transitive(created_model(m, own_index, s, node, false, new_path), l1, l3);
    }
}

/// The direct extension of option `k` of the previous state to `node` with loading
/// distance `ld`, if there is one.
pub open spec fn direct_arrival(
    config: Config,
    truck: Truck,
    p: Seq<PathOptionModel>,
    c: Seq<ContainerOption>,
    node: int,
    ld: int,
    k: int,
) -> Option<PathOptionModel> {
    let m = p[k];
    let compatible = clear_incompatible(masks_up_to(c, ld), m.0.compatible(), c, 0);
    match m.0.next_summary_spec(config, truck, model_node(m), node, false, compatible, ld) {
        Some(s) => Some(created_model(m, k, s, node, false, true)),
        None => None,
    }
}

proof fn lemma_previous_options_from_dominates(
    config: Config,
    truck: Truck,
    p: Seq<PathOptionModel>,
    c: Seq<ContainerOption>,
    node: int,
    ld: int,
    list: Seq<TaggedPathOption>,
    k: int,
)
    requires
        config.wf(),
        0 <= node < config.first_afs(),
        0 <= k,
    ensures
        all_dominated(list, previous_options_from(config, truck, p, c, node, ld, list, k)),
        forall|j: int|
            k <= j < p.len() ==> (#[trigger] direct_arrival(config, truck, p, c, node, ld, j) matches Some(a)
                ==> dominated_in(a, previous_options_from(config, truck, p, c, node, ld, list, k))),
    decreases p.len() - k,
{
    if k < p.len() {
        let m = p[k];
        let compatible = clear_incompatible(masks_up_to(c, ld), m.0.compatible(), c, 0);
        let next = extend_option(config, truck, list, m, k, node, compatible, ld, true, usize::MAX as int);
        lemma_extend_option_dominates(config, truck, list, m, k, node, compatible, ld, true, usize::MAX as int);
        lemma_previous_options_from_dominates(config, truck, p, c, node, ld, next, k + 1);
        let result = previous_options_from(config, truck, p, c, node, ld, next, k + 1);
        assert(result == previous_options_from(config, truck, p, c, node, ld, list, k));
        lemma_all_dominated_transitive(list, next, result);
        if let Some(a) = direct_arrival(config, truck, p, c, node, ld, k) {
            lemma_dominated_transitive(a, next, result);
        }
    } else {
        lemma_all_dominated_reflexive(list);
    }
}

/// Loading distance `ld` is one that the search handles when filling from the previous
/// state: some container option has it, and either moving containers at the depot costs
/// time or no container option has a higher one.
pub open spec fn handled_loading_distance(config: Config, c: Seq<ContainerOption>, ld: int) -> bool {
    &&& 0 <= ld <= 2
    &&& container_mask(c, ld) != 0
    &&& config.depot_service() != 0 || forall|h: int| ld < h <= 2 ==> #[trigger] container_mask(c, h) == 0
}

proof fn lemma_previous_fill_from_dominates(
    config: Config,
    truck: Truck,
    p: Seq<PathOptionModel>,
    c: Seq<ContainerOption>,
    node: int,
    list: Seq<TaggedPathOption>,
    ld: int,
)
    requires
        config.wf(),
        0 <= node < config.first_afs(),
        ld <= 2,
    ensures
        all_dominated(list, previous_fill_from(config, truck, p, c, node, list, ld)),
        forall|h: int, j: int|
            h <= ld && handled_loading_distance(config, c, h) && 0 <= j < p.len() ==> (#[trigger] direct_arrival(
                config,
                truck,
                p,
                c,
                node,
                h,
                j,
            ) matches Some(a) ==> dominated_in(a, previous_fill_from(config, truck, p, c, node, list, ld))),
    decreases ld + 1,
{
    let result = previous_fill_from(config, truck, p, c, node, list, ld);
    if ld < 0 {
        lemma_all_dominated_reflexive(list);
    } else if container_mask(c, ld) == 0 {
        lemma_previous_fill_from_dominates(config, truck, p, c, node, list, ld - 1);
    } else {
        let handled = previous_options_from(config, truck, p, c, node, ld, list, 0);
        lemma_previous_options_from_dominates(config, truck, p, c, node, ld, list, 0);
        if config.depot_service() == 0 {
            assert forall|h: int, j: int|
                h <= ld && handled_loading_distance(config, c, h) && 0 <= j < p.len() implies (#[trigger] direct_arrival(
                config,
                truck,
                p,
                c,
                node,
                h,
                j,
            ) matches Some(a) ==> dominated_in(a, result)) by {
                if h < ld {
                    assert(container_mask(c, ld) == 0);
                }
            }
        } else {
            lemma_previous_fill_from_dominates(config, truck, p, c, node, handled, ld - 1);
            lemma_all_dominated_transitive(list, handled, result);
            assert forall|h: int, j: int|
                h <= ld && handled_loading_distance(config, c, h) && 0 <= j < p.len() implies (#[trigger] direct_arrival(
                config,
                truck,
                p,
                c,
                node,
                h,
                j,
            ) matches Some(a) ==> dominated_in(a, result)) by {
                if h == ld {
                    if let Some(a) = direct_arrival(config, truck, p, c, node, h, j) {
                        lemma_dominated_transitive(a, handled, result);
                    }
                }
            }
        }
    }
}

proof fn lemma_queue_from_dominates(
    config: Config,
    truck: Truck,
    list: Seq<TaggedPathOption>,
    queue: Seq<usize>,
    node: int,
)
    requires
        config.wf(),
        0 <= node < config.first_afs(),
    ensures
        all_dominated(list, queue_from(config, truck, list, queue, node)),
    decreases queue.len(),
{
    if queue.len() > 0 {
        let next_queue = queue.update(0, queue.last()).drop_last();
        let next_list = match find_tag(list, queue[0] as int) {
            Some(m) => following_step(config, truck, list, m, node),
            None => list,
        };
        match find_tag(list, queue[0] as int) {
            Some(m) => {
                if model_node(m) == node {
                    lemma_all_dominated_reflexive(list);
                } else {
                    lemma_extend_option_dominates(
                        config,
                        truck,
                        list,
                        m,
                        m.2,
                        node,
                        m.0.compatible(),
                        0,
                        false,
                        model_node(m),
                    );
                }
            },
            None => {
                lemma_all_dominated_reflexive(list);
            },
        }
        lemma_queue_from_dominates(config, truck, next_list, next_queue, node);
        lemma_all_dominated_transitive(list, next_list, queue_from(config, truck, next_list, next_queue, node));
    } else {
        lemma_all_dominated_reflexive(list);
    }
}

proof fn lemma_add_summary_antichain(
    list: Seq<TaggedPathOption>,
    m: PathOptionModel,
    own_index: int,
    summary: Option<PathOptionSummary>,
    target: int,
    depot_refuel: bool,
    new_path: bool,
)
    requires
        antichain(list),
        list.no_duplicates(),
        0 <= target < 255,
        depot_refuel ==> target == 0,
    ensures
        antichain(add_summary(list, m, own_index, summary, target, depot_refuel, new_path)),
        (add_summary(list, m, own_index, summary, target, depot_refuel, new_path)).no_duplicates(),

{
    if let Some(s) = summary {
        lemma_next_path_node(m, target, depot_refuel, new_path);
        lemma_add_path_option_antichain(list, s, target, created_model(m, own_index, s, target, depot_refuel, new_path));
    }
}

proof fn lemma_add_afs_from_antichain(
    config: Config,
    truck: Truck,
    list: Seq<TaggedPathOption>,
    m: PathOptionModel,
    own_index: int,
    from: int,
    compatible: u32,
    loading_distance: int,
    new_path: bool,
    skip: int,
    afs: int,
)
    requires
        config.wf(),
        afs >= 0,
        antichain(list),
        list.no_duplicates(),
    ensures
        antichain(
            add_afs_from(config, truck, list, m, own_index, from, compatible, loading_distance, new_path, skip, afs),
        ),
        add_afs_from(config, truck, list, m, own_index, from, compatible, loading_distance, new_path, skip, afs).no_duplicates(),
    decreases config.dimension() - afs,
{
    if afs < config.dimension() {
        let next = if afs == skip {
            list
        } else {
            add_summary(
                list,
                m,
                own_index,
                m.0.next_summary_spec(config, truck, from, afs, false, compatible, loading_distance),
                afs,
                false,
                new_path,
            )
        };
        if afs != skip {
            lemma_add_summary_antichain(
                list,
                m,
                own_index,
                m.0.next_summary_spec(config, truck, from, afs, false, compatible, loading_distance),
                afs,
                false,
                new_path,
            );
        }
        lemma_add_afs_from_antichain(
            config,
            truck,
            next,
            m,
            own_index,
            from,
            compatible,
            loading_distance,
            new_path,
            skip,
            afs + 1,
        );
    }
}

proof fn lemma_extend_option_antichain(
    config: Config,
    truck: Truck,
    list: Seq<TaggedPathOption>,
    m: PathOptionModel,
    own_index: int,
    node: int,
    compatible: u32,
    loading_distance: int,
    new_path: bool,
    skip: int,
)
    requires
        config.wf(),
        0 <= node < config.first_afs(),
        antichain(list),
        list.no_duplicates(),
    ensures
        antichain(extend_option(config, truck, list, m, own_index, node, compatible, loading_distance, new_path, skip)),
        (extend_option(config, truck, list, m, own_index, node, compatible, loading_distance, new_path, skip)).no_duplicates(),

{
    let fa = config.first_afs();
    let from = model_node(m);
    let direct = m.0.next_summary_spec(config, truck, from, node, false, compatible, loading_distance);
    let l1 = add_summary(list, m, own_index, direct, node, false, new_path);
    lemma_add_summary_antichain(list, m, own_index, direct, node, false, new_path);
    let l2 = add_afs_from(config, truck, l1, m, own_index, from, compatible, loading_distance, new_path, skip, fa);
    lemma_add_afs_from_antichain(config, truck, l1, m, own_index, from, compatible, loading_distance, new_path, skip, fa);
    let refuel = m.0.next_summary_spec(config, truck, from, 0, true, compatible, loading_distance);
    lemma_add_summary_antichain(l2, m, own_index, refuel, 0, true, new_path);
}

proof fn lemma_previous_options_from_antichain(
    config: Config,
    truck: Truck,
    p: Seq<PathOptionModel>,
    c: Seq<ContainerOption>,
    node: int,
    ld: int,
    list: Seq<TaggedPathOption>,
    k: int,
)
    requires
        config.wf(),
        0 <= node < config.first_afs(),
        antichain(list),
        list.no_duplicates(),
    ensures
        antichain(previous_options_from(config, truck, p, c, node, ld, list, k)),
        (previous_options_from(config, truck, p, c, node, ld, list, k)).no_duplicates(),
    decreases p.len() - k,
{
    if 0 <= k < p.len() {
        let m = p[k];
        let compatible = clear_incompatible(masks_up_to(c, ld), m.0.compatible(), c, 0);
        lemma_extend_option_antichain(config, truck, list, m, k, node, compatible, ld, true, usize::MAX as int);
        lemma_previous_options_from_antichain(
            config,
            truck,
            p,
            c,
            node,
            ld,
            extend_option(config, truck, list, m, k, node, compatible, ld, true, usize::MAX as int),
            k + 1,
        );
    }
}

proof fn lemma_previous_fill_from_antichain(
    config: Config,
    truck: Truck,
    p: Seq<PathOptionModel>,
    c: Seq<ContainerOption>,
    node: int,
    list: Seq<TaggedPathOption>,
    ld: int,
)
    requires
        config.wf(),
        0 <= node < config.first_afs(),
        antichain(list),
        list.no_duplicates(),
    ensures
        antichain(previous_fill_from(config, truck, p, c, node, list, ld)),
        (previous_fill_from(config, truck, p, c, node, list, ld)).no_duplicates(),
    decreases ld + 1,
{
    if ld >= 0 {
        if container_mask(c, ld) == 0 {
            lemma_previous_fill_from_antichain(config, truck, p, c, node, list, ld - 1);
        } else {
            let handled = previous_options_from(config, truck, p, c, node, ld, list, 0);
            lemma_previous_options_from_antichain(config, truck, p, c, node, ld, list, 0);
            if config.depot_service() != 0 {
                lemma_previous_fill_from_antichain(config, truck, p, c, node, handled, ld - 1);
            }
        }
    }
}

proof fn lemma_queue_from_antichain(
    config: Config,
    truck: Truck,
    list: Seq<TaggedPathOption>,
    queue: Seq<usize>,
    node: int,
)
    requires
        config.wf(),
        0 <= node < config.first_afs(),
        antichain(list),
        list.no_duplicates(),
    ensures
        antichain(queue_from(config, truck, list, queue, node)),
        (queue_from(config, truck, list, queue, node)).no_duplicates(),
    decreases queue.len(),
{
    if queue.len() > 0 {
        let next_queue = queue.update(0, queue.last()).drop_last();
        let next_list = match find_tag(list, queue[0] as int) {
            Some(m) => following_step(config, truck, list, m, node),
            None => list,
        };
        if let Some(m) = find_tag(list, queue[0] as int) {
            if model_node(m) != node {
                lemma_extend_option_antichain(config, truck, list, m, m.2, node, m.0.compatible(), 0, false, model_node(m));
            }
        }
        lemma_queue_from_antichain(config, truck, next_list, next_queue, node);
    }
}

/// No two different path options of `ms` at the same node are such that one is at least as
/// good as the other.
pub open spec fn models_antichain(ms: Seq<PathOptionModel>) -> bool {
    forall|i: int, j: int|
        0 <= i < ms.len() && 0 <= j < ms.len() && ms[i] != ms[j] && model_node(ms[i]) == model_node(ms[j])
            ==> !(#[trigger] ms[i]).0.at_least_as_good_as_spec((#[trigger] ms[j]).0)
}

proof fn lemma_untag_antichain(list: Seq<TaggedPathOption>)
    requires
        antichain(list),
    ensures
        models_antichain(untag(list)),
{
    let ms = untag(list);
    assert forall|i: int, j: int|
        0 <= i < ms.len() && 0 <= j < ms.len() && ms[i] != ms[j] && model_node(ms[i]) == model_node(ms[j]) implies !(
        #[trigger] ms[i]).0.at_least_as_good_as_spec((#[trigger] ms[j]).0) by {
        assert(ms[i] == list[i].0 && ms[j] == list[j].0);
    }
}

/// Some option of `list` at the node of `m` is at least as good as `m` and better in some
/// regard.
pub open spec fn beaten_in(m: PathOptionModel, list: Seq<TaggedPathOption>) -> bool {
    exists|k: int|
        0 <= k < list.len() && model_node(#[trigger] list[k].0) == model_node(m) && list[k].0.0.at_least_as_good_as_spec(
            m.0,
        ) && list[k].0.0.partly_superior_to_spec(m.0)
}

/// Every option of `a` is still in `b`, or beaten there.
pub open spec fn kept_or_beaten(a: Seq<TaggedPathOption>, b: Seq<TaggedPathOption>) -> bool {
    forall|i: int| 0 <= i < a.len() ==> b.contains(#[trigger] a[i]) || beaten_in(a[i].0, b)
}

/// What beats a summary, anything at least as good beats too.
proof fn lemma_beaten_compose(x: PathOptionSummary, y: PathOptionSummary, z: PathOptionSummary)
    requires
        y.at_least_as_good_as_spec(x),
        y.partly_superior_to_spec(x),
        z.at_least_as_good_as_spec(y),
    ensures
        z.at_least_as_good_as_spec(x),
        z.partly_superior_to_spec(x),
{
    lemma_summary_at_least_as_good_as_preorder(z, y, x);
    lemma_covers_preorder(x.compatible(), z.compatible(), y.compatible());
}

proof fn lemma_kept_or_beaten_reflexive(a: Seq<TaggedPathOption>)
    ensures
        kept_or_beaten(a, a),
{
    assert forall|i: int| 0 <= i < a.len() implies a.contains(#[trigger] a[i]) || beaten_in(a[i].0, a) by {
        assert(a.contains(a[i]));
    }
}

/// `kept_or_beaten` carries over a step that keeps everything dominated.
proof fn lemma_kept_or_beaten_transitive(a: Seq<TaggedPathOption>, b: Seq<TaggedPathOption>, c: Seq<TaggedPathOption>)
    requires
        kept_or_beaten(a, b),
        kept_or_beaten(b, c),
        all_dominated(b, c),
    ensures
        kept_or_beaten(a, c),
{
    assert forall|i: int| 0 <= i < a.len() implies c.contains(#[trigger] a[i]) || beaten_in(a[i].0, c) by {
        if b.contains(a[i]) {
            let j = choose|j: int| 0 <= j < b.len() && b[j] == a[i];
            assert(c.contains(b[j]) || beaten_in(b[j].0, c));
        } else {
            let k = choose|k: int|
                0 <= k < b.len() && model_node(#[trigger] b[k].0) == model_node(a[i].0)
                    && b[k].0.0.at_least_as_good_as_spec(a[i].0.0) && b[k].0.0.partly_superior_to_spec(a[i].0.0);
            assert(dominated_in(b[k].0, c));
            let l = choose|l: int|
                0 <= l < c.len() && model_node(#[trigger] c[l].0) == model_node(b[k].0)
                    && c[l].0.0.at_least_as_good_as_spec(b[k].0.0);
            lemma_beaten_compose(a[i].0.0, b[k].0.0, c[l].0.0);
        }
    }
}

/// The dominance rule removes only options that the added one beats.
proof fn lemma_add_path_option_kept_or_beaten(
    list: Seq<TaggedPathOption>,
    summary: PathOptionSummary,
    node: int,
    created: PathOptionModel,
)
    requires
        model_node(created) == node,
        created.0 == summary,
    ensures
        kept_or_beaten(list, add_path_option(list, summary, node, created)),
{
    broadcast use Seq::lemma_filter_contains;

    let result = add_path_option(list, summary, node, created);
    let keep = |e: TaggedPathOption| !model_inferior(e.0, summary, node);
    let kept = list.filter(keep);
    if kept.len() < list.len() {
        assert(result == kept.push((created, NEW_OPTION_TAG as int)));
        assert forall|i: int| 0 <= i < list.len() implies result.contains(#[trigger] list[i]) || beaten_in(
            list[i].0,
            result,
        ) by {
            if keep(list[i]) {
                assert(kept.contains(list[i]));
                let k = choose|k: int| 0 <= k < kept.len() && kept[k] == list[i];
                assert(result[k] == list[i]);
            } else {
                let k = kept.len() as int;
                assert(result[k] == (created, NEW_OPTION_TAG as int));
                assert(model_node(result[k].0) == model_node(list[i].0));
            }
        }
    } else if exists|i: int|
        0 <= i < list.len() && model_node(#[trigger] list[i].0) == node
            && list[i].0.0.at_least_as_good_as_spec(summary) {
        lemma_kept_or_beaten_reflexive(list);
    } else {
        assert(result == list.push((created, NEW_OPTION_TAG as int)));
        assert forall|i: int| 0 <= i < list.len() implies result.contains(#[trigger] list[i]) || beaten_in(
            list[i].0,
            result,
        ) by {
            assert(result[i] == list[i]);
        }
    }
}

proof fn lemma_add_summary_kept_or_beaten(
    list: Seq<TaggedPathOption>,
    m: PathOptionModel,
    own_index: int,
    summary: Option<PathOptionSummary>,
    target: int,
    depot_refuel: bool,
    new_path: bool,
)
    requires
        0 <= target < 255,
        depot_refuel ==> target == 0,
    ensures
        kept_or_beaten(list, add_summary(list, m, own_index, summary, target, depot_refuel, new_path)),
{
    match summary {
        Some(s) => {
            lemma_next_path_node(m, target, depot_refuel, new_path);
            lemma_add_path_option_kept_or_beaten(list, s, target, created_model(m, own_index, s, target, depot_refuel, new_path));
        },
        None => {
            lemma_kept_or_beaten_reflexive(list);
        },
    }
}

proof fn lemma_add_afs_from_kept_or_beaten(
    config: Config,
    truck: Truck,
    list: Seq<TaggedPathOption>,
    m: PathOptionModel,
    own_index: int,
    from: int,
    compatible: u32,
    loading_distance: int,
    new_path: bool,
    skip: int,
    afs: int,
)
    requires
        config.wf(),
        afs >= 0,
    ensures
        kept_or_beaten(
            list,
            add_afs_from(config, truck, list, m, own_index, from, compatible, loading_distance, new_path, skip, afs),
        ),
    decreases config.dimension() - afs,
{
    if afs < config.dimension() {
        let summary = m.0.next_summary_spec(config, truck, from, afs, false, compatible, loading_distance);
        let next = if afs == skip {
            list
        } else {
            add_summary(list, m, own_index, summary, afs, false, new_path)
        };
        if afs == skip {
            lemma_kept_or_beaten_reflexive(list);
        } else {
            lemma_add_summary_kept_or_beaten(list, m, own_index, summary, afs, false, new_path);
        }
        lemma_add_afs_from_kept_or_beaten(config, truck, next, m, own_index, from, compatible, loading_distance, new_path, skip, afs + 1);
        lemma_add_afs_from_dominates(config, truck, next, m, own_index, from, compatible, loading_distance, new_path, skip, afs + 1);
        lemma_kept_or_beaten_transitive(
            list,
            next,
            add_afs_from(config, truck, next, m, own_index, from, compatible, loading_distance, new_path, skip, afs + 1),
        );
    } else {
        lemma_kept_or_beaten_reflexive(list);
    }
}

proof fn lemma_extend_option_kept_or_beaten(
    config: Config,
    truck: Truck,
    list: Seq<TaggedPathOption>,
    m: PathOptionModel,
    own_index: int,
    node: int,
    compatible: u32,
    loading_distance: int,
    new_path: bool,
    skip: int,
)
    requires
        config.wf(),
        0 <= node < config.first_afs(),
    ensures
        kept_or_beaten(
            list,
            extend_option(config, truck, list, m, own_index, node, compatible, loading_distance, new_path, skip),
        ),
{
    let fa = config.first_afs();
    let from = model_node(m);
    let direct = m.0.next_summary_spec(config, truck, from, node, false, compatible, loading_distance);
    let l1 = add_summary(list, m, own_index, direct, node, false, new_path);
    lemma_add_summary_kept_or_beaten(list, m, own_index, direct, node, false, new_path);
    let l2 = add_afs_from(config, truck, l1, m, own_index, from, compatible, loading_distance, new_path, skip, fa);
    lemma_add_afs_from_kept_or_beaten(config, truck, l1, m, own_index, from, compatible, loading_distance, new_path, skip, fa);
    lemma_add_afs_from_dominates(config, truck, l1, m, own_index, from, compatible, loading_distance, new_path, skip, fa);
    let refuel = m.0.next_summary_spec(config, truck, from, 0, true, compatible, loading_distance);
    let l3 = add_summary(l2, m, own_index, refuel, 0, true, new_path);
    lemma_add_summary_kept_or_beaten(l2, m, own_index, refuel, 0, true, new_path);
    lemma_add_summary_dominates(l2, m, own_index, refuel, 0, true, new_path);
    lemma_kept_or_beaten_transitive(l1, l2, l3);
    lemma_all_dominated_transitive(l1, l2, l3);
    lemma_kept_or_beaten_transitive(list, l1, l3);
}

/// Taking the queue in turn removes only options that a remaining one beats.
proof fn lemma_queue_from_kept_or_beaten(
    config: Config,
    truck: Truck,
    list: Seq<TaggedPathOption>,
    queue: Seq<usize>,
    node: int,
)
    requires
        config.wf(),
        0 <= node < config.first_afs(),
    ensures
        kept_or_beaten(list, queue_from(config, truck, list, queue, node)),
    decreases queue.len(),
{
    if queue.len() > 0 {
        let next_queue = queue.update(0, queue.last()).drop_last();
        let next_list = match find_tag(list, queue[0] as int) {
            Some(m) => following_step(config, truck, list, m, node),
            None => list,
        };
        match find_tag(list, queue[0] as int) {
            Some(m) => {
                if model_node(m) == node {
                    lemma_kept_or_beaten_reflexive(list);
                } else {
                    lemma_extend_option_kept_or_beaten(config, truck, list, m, m.2, node, m.0.compatible(), 0, false, model_node(m));
                }
            },
            None => {
                lemma_kept_or_beaten_reflexive(list);
            },
        }
        lemma_queue_from_kept_or_beaten(config, truck, next_list, next_queue, node);
        lemma_queue_from_dominates(config, truck, next_list, next_queue, node);
        lemma_kept_or_beaten_transitive(list, next_list, queue_from(config, truck, next_list, next_queue, node));
    } else {
        lemma_kept_or_beaten_reflexive(list);
    }
}

/// Filling in the paths that lead on to `node` keeps the options an antichain, and every
/// option it starts from is matched by one it ends with at the same node that is at least
/// as good; an option that is gone is beaten by one that stays.
proof fn lemma_fill_laws(config: Config, truck: Truck, ms: Seq<PathOptionModel>, queue: Seq<usize>, node: int)
    requires
        config.wf(),
        0 <= node < config.first_afs(),
    ensures
        models_antichain(ms) && ms.no_duplicates() ==> models_antichain(
            untag(queue_from(config, truck, tag_indices(ms), queue, node)),
        ),
        forall|i: int|
            0 <= i < ms.len() ==> #[trigger] dominated_in(
                ms[i],
                tag_indices(untag(queue_from(config, truck, tag_indices(ms), queue, node))),
            ),
        forall|i: int|
            0 <= i < ms.len() ==> untag(queue_from(config, truck, tag_indices(ms), queue, node)).contains(ms[i])
                || #[trigger] beaten_in(ms[i], tag_indices(untag(queue_from(config, truck, tag_indices(ms), queue, node)))),
{
    let list = tag_indices(ms);
    let q = queue_from(config, truck, list, queue, node);
    if models_antichain(ms) && ms.no_duplicates() {
        assert forall|i: int, j: int|
            0 <= i < list.len() && 0 <= j < list.len() && list[i] != list[j] && model_node(list[i].0)
                == model_node(list[j].0) implies !(#[trigger] list[i]).0.0.at_least_as_good_as_spec(
            (#[trigger] list[j]).0.0,
        ) by {
            assert(list[i].0 == ms[i] && list[j].0 == ms[j]);
            if ms[i] == ms[j] {
                assert(i != j);
            }
        }
        assert forall|i: int, j: int| 0 <= i < list.len() && 0 <= j < list.len() && i != j implies list[i]
            != list[j] by {
            assert(list[i].1 == i && list[j].1 == j);
        }
        lemma_queue_from_antichain(config, truck, list, queue, node);
        lemma_untag_antichain(q);
    }
    lemma_queue_from_dominates(config, truck, list, queue, node);
    let back = tag_indices(untag(q));
    assert forall|i: int| 0 <= i < ms.len() implies #[trigger] dominated_in(ms[i], back) by {
        assert(list[i].0 == ms[i]);
        assert(dominated_in(list[i].0, q));
        let k = choose|k: int|
            0 <= k < q.len() && model_node(#[trigger] q[k].0) == model_node(ms[i]) && q[k].0.0.at_least_as_good_as_spec(
                ms[i].0,
            );
        assert(back[k].0 == q[k].0);
    }
    lemma_queue_from_kept_or_beaten(config, truck, list, queue, node);
    assert forall|i: int| 0 <= i < ms.len() implies untag(q).contains(ms[i]) || #[trigger] beaten_in(ms[i], back) by {
        assert(list[i].0 == ms[i]);
        if q.contains(list[i]) {
            let j = choose|j: int| 0 <= j < q.len() && q[j] == list[i];
            assert(untag(q)[j] == ms[i]);
        } else {
            assert(beaten_in(list[i].0, q));
            let k = choose|k: int|
                0 <= k < q.len() && model_node(#[trigger] q[k].0) == model_node(ms[i])
                    && q[k].0.0.at_least_as_good_as_spec(ms[i].0) && q[k].0.0.partly_superior_to_spec(ms[i].0);
            assert(back[k].0 == q[k].0);
        }
    }
}

impl SearchState {
    /// The paths that `route_to_node` finds are an antichain: of two different paths to the
    /// node, neither is at least as good as the other.
    pub proof fn lemma_route_paths_antichain(&self, config: Config, truck: Truck, node: int, c: Seq<ContainerOption>)
        requires
            config.wf(),
            0 <= node < config.first_afs(),
        ensures
            models_antichain(self.route_paths(config, truck, node, c)),
    {
        broadcast use Seq::lemma_filter_contains_rev;

        let p = models(self.path_options@);
        let filled = previous_fill_from(config, truck, p, c, node, Seq::empty(), 2);
        lemma_previous_fill_from_antichain(config, truck, p, c, node, Seq::empty(), 2);
        let first = untag(filled);
        lemma_untag_antichain(filled);
        let tagged_first = tag_indices(first);
        assert forall|i: int, j: int|
            0 <= i < tagged_first.len() && 0 <= j < tagged_first.len() && tagged_first[i] != tagged_first[j]
                && model_node(tagged_first[i].0) == model_node(tagged_first[j].0) implies !(
            #[trigger] tagged_first[i]).0.0.at_least_as_good_as_spec((#[trigger] tagged_first[j]).0.0) by {
            if first[i] == first[j] {
                assert(filled[i].0 == filled[j].0);
                lemma_summary_at_least_as_good_as_preorder(filled[i].0.0, filled[i].0.0, filled[i].0.0);
                if filled[i] == filled[j] {
                    assert(tagged_first[i].1 == i && tagged_first[j].1 == j);
                    if i == j {
                    }
                } else {
                    assert(false);
                }
            }
        }
        let queued = queue_from(config, truck, tagged_first, Seq::new(first.len(), |i: int| i as usize), node);
        lemma_queue_from_antichain(config, truck, tagged_first, Seq::new(first.len(), |i: int| i as usize), node);
        let second = untag(queued);
        lemma_untag_antichain(queued);
        let keep = |m: PathOptionModel| model_node(m) == node;
        let result = second.filter(keep);
        assert(result == self.route_paths(config, truck, node, c));
        assert forall|i: int, j: int|
            0 <= i < result.len() && 0 <= j < result.len() && result[i] != result[j] && model_node(result[i])
                == model_node(result[j]) implies !(#[trigger] result[i]).0.at_least_as_good_as_spec(
            (#[trigger] result[j]).0,
        ) by {
            assert(result.contains(result[i]) && result.contains(result[j]));
            let a = choose|a: int| 0 <= a < second.len() && second[a] == result[i];
            let b = choose|b: int| 0 <= b < second.len() && second[b] == result[j];
        }
    }
}

impl SearchState {
    /// No arrival is lost: for every path option of this state and every loading distance
    /// that the search handles, if the option reaches `node` directly, then among the paths
    /// that `route_to_node` finds to `node` there is one that is at least as good.
    pub proof fn lemma_direct_arrivals_kept(
        &self,
        config: Config,
        truck: Truck,
        node: int,
        c: Seq<ContainerOption>,
        ld: int,
        k: int,
    )
        requires
            config.wf(),
            0 <= node < config.first_afs(),
            handled_loading_distance(config, c, ld),
            0 <= k < self.paths().len(),
        ensures
            direct_arrival(config, truck, models(self.paths()), c, node, ld, k) matches Some(a) ==> exists|i: int|
                0 <= i < self.route_paths(config, truck, node, c).len() && (#[trigger] self.route_paths(
                    config,
                    truck,
                    node,
                    c,
                )[i]).0.at_least_as_good_as_spec(a.0),
    {
        broadcast use Seq::lemma_filter_contains;

        let p = models(self.path_options@);
        let filled = previous_fill_from(config, truck, p, c, node, Seq::empty(), 2);
        lemma_previous_fill_from_dominates(config, truck, p, c, node, Seq::empty(), 2);
        let first = untag(filled);
        let tagged_first = tag_indices(first);
        let queued = queue_from(config, truck, tagged_first, Seq::new(first.len(), |i: int| i as usize), node);
        lemma_queue_from_dominates(config, truck, tagged_first, Seq::new(first.len(), |i: int| i as usize), node);
        let second = untag(queued);
        let keep = |m: PathOptionModel| model_node(m) == node;
        let result = second.filter(keep);
        assert(result == self.route_paths(config, truck, node, c));
        if let Some(a) = direct_arrival(config, truck, p, c, node, ld, k) {
            assert(dominated_in(a, filled));
            let q = choose|q: int|
                0 <= q < filled.len() && model_node(#[trigger] filled[q].0) == model_node(a)
                    && filled[q].0.0.at_least_as_good_as_spec(a.0);
            assert(tagged_first[q].0 == filled[q].0);
            assert(dominated_in(tagged_first[q].0, queued));
            let r = choose|r: int|
                0 <= r < queued.len() && model_node(#[trigger] queued[r].0) == model_node(tagged_first[q].0)
                    && queued[r].0.0.at_least_as_good_as_spec(tagged_first[q].0.0);
            lemma_summary_at_least_as_good_as_preorder(queued[r].0.0, filled[q].0.0, a.0);
            lemma_next_path_node(p[k], node, false, true);
            assert(second[r] == queued[r].0);
            assert(keep(second[r]));
            assert(result.contains(second[r]));
            let i = choose|i: int| 0 <= i < result.len() && result[i] == second[r];
            assert(result[i].0.at_least_as_good_as_spec(a.0));
        }
    }
}

impl SearchState {
    /// Every path that `route_to_node` finds to `node` heads for `node`.
    proof fn lemma_route_paths_head_for(&self, config: Config, truck: Truck, node: int, c: Seq<ContainerOption>)
        requires
            config.wf(),
            0 <= node < config.first_afs(),
        ensures
            forall|i: int|
                0 <= i < self.route_paths(config, truck, node, c).len() ==> heads_for(
                    (#[trigger] self.route_paths(config, truck, node, c)[i]).1,
                    config.first_afs(),
                    node,
                ),
    {
        broadcast use Seq::lemma_filter_contains_rev;

        let fa = config.first_afs();
        let filled = previous_fill_from(config, truck, models(self.path_options@), c, node, Seq::empty(), 2);
        lemma_previous_fill_from_heads_for(config, truck, models(self.path_options@), c, node, Seq::empty(), 2);
        let first = untag(filled);
        let tagged_first = tag_indices(first);
        assert forall|k: int| 0 <= k < tagged_first.len() implies heads_for((#[trigger] tagged_first[k]).0.1, fa, node) by {
            assert(tagged_first[k].0 == filled[k].0);
        }
        let queued = queue_from(config, truck, tagged_first, Seq::new(first.len(), |i: int| i as usize), node);
        lemma_queue_from_heads_for(config, truck, tagged_first, Seq::new(first.len(), |i: int| i as usize), node);
        let second = untag(queued);
        let keep = |m: PathOptionModel| model_node(m) == node;
        let result = second.filter(keep);
        assert(result == self.route_paths(config, truck, node, c));
        assert forall|i: int| 0 <= i < result.len() implies heads_for((#[trigger] result[i]).1, fa, node) by {
            assert(result.contains(result[i]));
            assert(second.contains(result[i]));
            let j = choose|j: int| 0 <= j < second.len() && second[j] == result[i];
            assert(second[j] == queued[j].0);
        }
    }
}

// ---------------------------------------------------------------------------------------------
// Routes
// ---------------------------------------------------------------------------------------------

/// `count` copies of `marker` (none for a count below one).
pub open spec fn repeated(marker: u8, count: int) -> Seq<u8> {
    Seq::new(
        if count < 0 {
            0nat
        } else {
            count as nat
        },
        |_i: int| marker,
    )
}

/// The markers for the empty containers loaded (positive change) or unloaded (negative
/// change) at a depot visit: 20 foot containers first.
pub open spec fn depot_moves(change_20: int, change_40: int) -> Seq<u8> {
    (if change_20 < 0 {
        repeated(ROUTE_DEPOT_DELOAD_20, -change_20)
    } else {
        repeated(ROUTE_DEPOT_LOAD_20, change_20)
    }) + (if change_40 < 0 {
        repeated(ROUTE_DEPOT_DELOAD_40, -change_40)
    } else {
        repeated(ROUTE_DEPOT_LOAD_40, change_40)
    })
}

/// The markers of a depot visit: one load marker per empty container gained and one unload
/// marker per empty container given up, 20 foot containers before 40 foot ones.
pub proof fn lemma_depot_moves_markers(change_20: int, change_40: int)
    ensures
        depot_moves(change_20, change_40).len() == vstd::math::abs(change_20) + vstd::math::abs(change_40),
        forall|i: int|
            0 <= i < vstd::math::abs(change_20) ==> #[trigger] depot_moves(change_20, change_40)[i] == if change_20 > 0 {
                ROUTE_DEPOT_LOAD_20
            } else {
                ROUTE_DEPOT_DELOAD_20
            },
        forall|i: int|
            vstd::math::abs(change_20) <= i < depot_moves(change_20, change_40).len() ==> #[trigger] depot_moves(
                change_20,
                change_40,
            )[i] == if change_40 > 0 {
                ROUTE_DEPOT_LOAD_40
            } else {
                ROUTE_DEPOT_DELOAD_40
            },
{
    let a = if change_20 < 0 {
        repeated(ROUTE_DEPOT_DELOAD_20, -change_20)
    } else {
        repeated(ROUTE_DEPOT_LOAD_20, change_20)
    };
    let b = if change_40 < 0 {
        repeated(ROUTE_DEPOT_DELOAD_40, -change_40)
    } else {
        repeated(ROUTE_DEPOT_LOAD_40, change_40)
    };
    assert(depot_moves(change_20, change_40) == a + b);
    assert(a.len() == vstd::math::abs(change_20));
    assert(b.len() == vstd::math::abs(change_40));
}

pub open spec fn path_bytes(path: Seq<usize>) -> Seq<u8> {
    path.map_values(|n: usize| n as u8)
}

/// Sentinel container index: the route ends here and no container option is chosen yet.
pub const NO_CONTAINER_INDEX: usize = usize::MAX;

impl SearchState {
    /// The structure that reading a route back needs: path options with paths of nodes that
    /// fit a `u8`, and indices into the previous state in range, all along the chain.
    pub closed spec fn well_linked(&self) -> bool
        decreases self,
    {
        &&& self.path_options@.len() > 0
        &&& forall|i: int|
            0 <= i < self.path_options@.len() ==> (#[trigger] self.path_options@[i])@.1.len() > 0
                && forall|j: int|
                0 <= j < self.path_options@[i]@.1.len() ==> #[trigger] self.path_options@[i]@.1[j] < 256
        &&& match self.previous_state {
            Some(p) => {
                &&& (*p).container_options@.len() > 0
                &&& forall|i: int|
                    0 <= i < self.path_options@.len() ==> 0 <= (#[trigger] self.path_options@[i])@.2
                        < (*p).path_options@.len()
                &&& forall|i: int|
                    0 <= i < self.container_options@.len() ==> 0 <= (
                    #[trigger] self.container_options@[i]).previous_index < (*p).container_options@.len()
                &&& (*p).well_linked()
            },
            None => true,
        }
    }

    /// The route that ends with path option `path_index` of this state, read back through
    /// the previous states. At a depot visit with a chosen container option, the empty
    /// containers loaded and unloaded there follow the path; the first state contributes
    /// the depot and the empties loaded at the start.
    pub closed spec fn route_nodes(&self, path_index: int, container_index: int) -> Seq<u8>
        decreases self,
    {
        match self.previous_state {
            Some(p) => {
                let option = models(self.path_options@)[path_index];
                if container_index != NO_CONTAINER_INDEX && self.current_node == 0
                    && self.container_options@.len() != 0 {
                    let current = self.container_options@[container_index];
                    let previous = (*p).container_options@[current.previous_index as int];
                    (*p).route_nodes(option.2, current.previous_index as int) + path_bytes(option.1)
                        + depot_moves(
                        current.empty_20 - previous.empty_20,
                        current.empty_40 - previous.empty_40,
                    )
                } else {
                    let next = if container_index == NO_CONTAINER_INDEX {
                        0
                    } else {
                        self.container_options@[container_index].previous_index as int
                    };
                    (*p).route_nodes(option.2, next) + path_bytes(option.1)
                }
            },
            None => {
                if container_index != NO_CONTAINER_INDEX {
                    let start = self.container_options@[container_index];
                    seq![0u8] + repeated(ROUTE_DEPOT_LOAD_20, start.empty_20 as int) + repeated(
                        ROUTE_DEPOT_LOAD_40,
                        start.empty_40 as int,
                    )
                } else {
                    seq![0u8]
                }
            },
        }
    }

    /// The index of the first path option with the lowest total distance below `u32::MAX`,
    /// and that distance; `(0, u32::MAX)` when there is none. Over the first `n` options.
    pub open spec fn best_path_prefix(&self, n: int) -> (int, int) {
        best_of(models(self.paths()), n)
    }

    /// `route_nodes` in terms of what a state shows: the first state gives the depot and the
    /// empties loaded there; a later one, the route of the state before it, the path, and at
    /// a depot visit the empties moved there.
    pub proof fn lemma_route_nodes_unfold(&self, path_index: int, container_index: int)
        ensures
            self.route_nodes(path_index, container_index) == match self.previous() {
                Some(p) => {
                    let option = models(self.paths())[path_index];
                    if container_index != NO_CONTAINER_INDEX && self.node() == 0 && self.containers().len() != 0 {
                        let current = self.containers()[container_index];
                        let previous = p.containers()[current.previous()];
                        p.route_nodes(option.2, current.previous()) + path_bytes(option.1) + depot_moves(
                            current.empty_20() - previous.empty_20(),
                            current.empty_40() - previous.empty_40(),
                        )
                    } else {
                        let next = if container_index == NO_CONTAINER_INDEX {
                            0
                        } else {
                            self.containers()[container_index].previous()
                        };
                        p.route_nodes(option.2, next) + path_bytes(option.1)
                    }
                },
                None => if container_index != NO_CONTAINER_INDEX {
                    let start = self.containers()[container_index];
                    seq![0u8] + repeated(ROUTE_DEPOT_LOAD_20, start.empty_20()) + repeated(
                        ROUTE_DEPOT_LOAD_40,
                        start.empty_40(),
                    )
                } else {
                    seq![0u8]
                },
            },
    {
    }

    pub open spec fn best_path(&self) -> (int, int) {
        self.best_path_prefix(self.paths().len() as int)
    }

    /// Returns the index of the path option with the lowest total distance and that distance.
    pub fn get_best_path_index_and_total_distance(&self) -> (r: (usize, u32))
        ensures
            (r.0 as int, r.1 as int) == self.best_path(),
    {
        let mut best_index: usize = 0;
        let mut lowest_distance: u32 = u32::MAX;
        let mut index: usize = 0;
        while index < self.path_options.len()
            invariant
                index <= self.path_options@.len(),
                (best_index as int, lowest_distance as int) == self.best_path_prefix(index as int),
            decreases self.path_options@.len() - index,
        {
            let option = &self.path_options[index];
            assert(option@.0.distance() == option.summary.total_distance);
            if option.summary.total_distance < lowest_distance {
                lowest_distance = option.summary.total_distance;
                best_index = index;
            }
            index = index + 1;
        }
        return (best_index, lowest_distance);
    }
}

/// The best path is the first with the lowest distance: none is shorter, and when some
/// distance is below `u32::MAX` the index is in range and no earlier option is as short.
pub proof fn lemma_best_path(state: &SearchState, n: int)
    requires
        0 <= n <= state.paths().len(),
    ensures
        forall|j: int| 0 <= j < n ==> state.best_path_prefix(n).1 <= (#[trigger] state.paths()[j])@.0.distance(),
        state.best_path_prefix(n).1 < u32::MAX ==> {
            &&& 0 <= state.best_path_prefix(n).0 < n
            &&& state.paths()[state.best_path_prefix(n).0]@.0.distance() == state.best_path_prefix(n).1
            &&& forall|j: int| 0 <= j < state.best_path_prefix(n).0 ==> (#[trigger] state.paths()[j])@.0.distance() > state.best_path_prefix(n).1
        },
        state.best_path_prefix(n).1 == u32::MAX ==> state.best_path_prefix(n).0 == 0,
    decreases n,
{
    if n > 0 {
        lemma_best_path(state, n - 1);
        assert(state.paths()[n - 1]@.0.distance() <= u32::MAX);
    }
}

/// A state built by the search is well linked.
pub proof fn lemma_valid_well_linked(state: &SearchState, config: Config, truck: Truck)
    requires
        config.wf(),
        state.valid(config, truck),
    ensures
        state.well_linked(),
    decreases state,
{
    assert forall|i: int| 0 <= i < state.path_options@.len() implies (#[trigger] state.path_options@[i])@.1.len() > 0
        && forall|j: int| 0 <= j < state.path_options@[i]@.1.len() ==> #[trigger] state.path_options@[i]@.1[j] < 256 by {
        let m = state.path_options@[i]@;
        assert forall|j: int| 0 <= j < m.1.len() implies #[trigger] m.1[j] < 256 by {
            assert(m.1[j] < config.dimension() || m.1[j] == ROUTE_DEPOT_REFUEL as usize);
        }
    }
    match &state.previous_state {
        Some(p) => {
            lemma_valid_well_linked(&**p, config, truck);
        },
        None => {},
    }
}

/// Keeps the bytes of request nodes (`1..first_afs`).
pub open spec fn request_byte(first_afs: int) -> spec_fn(u8) -> bool {
    |b: u8| 1 <= b < first_afs
}

/// A filter that no element passes leaves nothing.
proof fn lemma_filter_none<A>(s: Seq<A>, p: spec_fn(A) -> bool)
    requires
        forall|i: int| 0 <= i < s.len() ==> !p(#[trigger] s[i]),
    ensures
        s.filter(p) == Seq::<A>::empty(),
    decreases s.len(),
{
    broadcast use Seq::lemma_filter_push;

    if s.len() > 0 {
        let t = s.drop_last();
        assert(s == t.push(s.last()));
        lemma_filter_none(t, p);
    } else {
        assert(s == Seq::<A>::empty());
        reveal(Seq::filter);
    }
}

/// The only request node on a path to `node` is `node` itself, at its end.
proof fn lemma_path_requests(path: Seq<usize>, first_afs: int, node: int)
    requires
        1 <= first_afs <= 64,
        0 <= node < first_afs,
        heads_for(path, first_afs, node),
        path_current_node(path) == node,
        forall|i: int| 0 <= i < path.len() ==> #[trigger] path[i] < 256,
    ensures
        path_bytes(path).filter(request_byte(first_afs)) == if node != 0 {
            seq![node as u8]
        } else {
            Seq::<u8>::empty()
        },
{
    let t = path.drop_last();
    assert(path == t.push(path.last()));
    assert(path_bytes(path) =~= path_bytes(t).push(path.last() as u8));
    assert forall|i: int| 0 <= i < path_bytes(t).len() implies !request_byte(first_afs)(
        #[trigger] path_bytes(t)[i],
    ) by {
        assert(path_bytes(t)[i] == t[i] as u8);
        assert(t[i] == path[i]);
    }
    lemma_filter_none(path_bytes(t), request_byte(first_afs));
    path_bytes(t).lemma_filter_push(path.last() as u8, request_byte(first_afs));
    assert(path.last() == path[path.len() - 1]);
    if node == 0 {
        assert(path.last() == 0 || path.last() == ROUTE_DEPOT_REFUEL as usize);
    } else {
        assert(path.last() == node);
    }
    assert(Seq::<u8>::empty().push(node as u8) == seq![node as u8]);
}

/// Markers of containers moved at the depot are no request nodes.
proof fn lemma_depot_moves_no_requests(change_20: int, change_40: int, first_afs: int)
    requires
        first_afs <= 64,
    ensures
        depot_moves(change_20, change_40).filter(request_byte(first_afs)) == Seq::<u8>::empty(),
{
    let m = depot_moves(change_20, change_40);
    assert forall|i: int| 0 <= i < m.len() implies !request_byte(first_afs)(#[trigger] m[i]) by {
        assert(m[i] >= 251);
    }
    lemma_filter_none(m, request_byte(first_afs));
}

/// A route read back from a state of a chain built by the search passes each request node it
/// serves once, and serves exactly the requests that the state marks as visited.
#[verifier::spinoff_prover]
#[verifier::rlimit(40)]
pub proof fn lemma_route_requests(
    state: &SearchState,
    config: Config,
    truck: Truck,
    path_index: int,
    container_index: int,
)
    requires
        config.wf(),
        state.valid(config, truck),
        0 <= path_index < state.paths().len(),
        container_index == NO_CONTAINER_INDEX || 0 <= container_index < state.containers().len(),
    ensures
        state.route_nodes(path_index, container_index).filter(request_byte(config.first_afs())).no_duplicates(),
        forall|n: int|
            1 <= n < config.first_afs() ==> (#[trigger] state.route_nodes(path_index, container_index).filter(
                request_byte(config.first_afs()),
            ).contains(n as u8) <==> visited(state.visited_mask(), n)),
    decreases state.depth(),
{
    broadcast use Seq::filter_distributes_over_add;

    let fa = config.first_afs();
    let keep = request_byte(fa);
    let route = state.route_nodes(path_index, container_index);
    let requests = route.filter(keep);
    match state.previous_state {
        Some(p) => {
            let option = state.path_options@[path_index]@;
            assert(path_option_valid(option, config, truck, (*p).path_options@.len() as int));
            assert(heads_for(option.1, fa, state.node()));
            assert forall|i: int| 0 <= i < option.1.len() implies #[trigger] option.1[i] < 256 by {
                assert(option.1[i] < config.dimension() || option.1[i] == ROUTE_DEPOT_REFUEL as usize);
            }
            lemma_path_requests(option.1, fa, state.node());
            let own = if state.node() != 0 {
                seq![state.node() as u8]
            } else {
                Seq::<u8>::empty()
            };
            let previous_index: int;
            if container_index != NO_CONTAINER_INDEX && state.current_node == 0
                && state.container_options@.len() != 0 {
                let current = state.container_options@[container_index];
                assert(container_option_valid(current, truck, (*p).container_options@.len() as int));
                let previous = (*p).container_options@[current.previous_index as int];
                previous_index = current.previous_index as int;
                let moves = depot_moves(current.empty_20 - previous.empty_20, current.empty_40 - previous.empty_40);
                lemma_depot_moves_no_requests(current.empty_20 - previous.empty_20, current.empty_40 - previous.empty_40, fa);
                assert(route == (*p).route_nodes(option.2, previous_index) + path_bytes(option.1) + moves);
                assert(requests == (*p).route_nodes(option.2, previous_index).filter(keep) + own + Seq::<u8>::empty());
            } else {
                if container_index == NO_CONTAINER_INDEX {
                    previous_index = 0;
                } else {
                    let current = state.container_options@[container_index];
                    assert(container_option_valid(current, truck, (*p).container_options@.len() as int));
                    previous_index = current.previous_index as int;
                }
                assert(route == (*p).route_nodes(option.2, previous_index) + path_bytes(option.1));
            }
            let before = (*p).route_nodes(option.2, previous_index).filter(keep);
            assert(requests =~= before + own);
            lemma_route_requests(&*p, config, truck, option.2, previous_index);
            assert(state.visited_mask() == (*p).visited_after(state.node()));
            assert forall|n: int| 1 <= n < fa implies (#[trigger] requests.contains(n as u8) <==> visited(
                state.visited_mask(),
                n,
            )) by {
                if state.node() != 0 {
                    lemma_mark_visited((*p).visited_mask(), state.node(), n);
                }
                assert(before.contains(n as u8) <==> visited((*p).visited_mask(), n));
                if requests.contains(n as u8) {
                    let k = choose|k: int| 0 <= k < requests.len() && requests[k] == n as u8;
                    if k < before.len() {
                        assert(before[k] == n as u8);
                    } else {
                        assert(own[k - before.len()] == n as u8);
                        assert(n == state.node());
                    }
                }
                if before.contains(n as u8) {
                    let k = choose|k: int| 0 <= k < before.len() && before[k] == n as u8;
                    assert(requests[k] == n as u8);
                }
                if state.node() != 0 && n == state.node() {
                    assert(requests[before.len() as int] == n as u8);
                }
            }
            assert forall|i: int, j: int| 0 <= i < requests.len() && 0 <= j < requests.len() && i != j implies requests[i]
                != requests[j] by {
                if i < before.len() && j < before.len() {
                    assert(before[i] == requests[i] && before[j] == requests[j]);
                } else if i >= before.len() && j >= before.len() {
                } else {
                    let k = if i < before.len() { i } else { j };
                    assert(before[k] == requests[k]);
                    assert(before.contains(state.node() as u8) ==> visited((*p).visited_mask(), state.node()));
                    if requests[i] == requests[j] {
                        assert(before.contains(state.node() as u8));
                    }
                }
            }
        },
        None => {
            if container_index != NO_CONTAINER_INDEX {
                let start = state.container_options@[container_index];
                let loads = repeated(ROUTE_DEPOT_LOAD_20, start.empty_20 as int) + repeated(
                    ROUTE_DEPOT_LOAD_40,
                    start.empty_40 as int,
                );
                assert(route == seq![0u8] + loads);
            } else {
                assert(route == seq![0u8]);
            }
            assert forall|i: int| 0 <= i < route.len() implies !keep(#[trigger] route[i]) by {
                if i > 0 {
                    assert(route[i] >= 252);
                }
            }
            lemma_filter_none(route, keep);
            assert forall|n: int| 1 <= n < fa implies !visited(state.visited_mask(), n) by {
                let b = (n - 1) as u64;
                assert(b < 64 ==> 0u64 & (1u64 << b) == 0) by (bit_vector);
            }
        },
    }
}

/// A route read back from a state at the depot does not end at a request node.
#[verifier::spinoff_prover]
#[verifier::rlimit(100)]
pub proof fn lemma_route_ends_off_requests(
    state: &SearchState,
    config: Config,
    truck: Truck,
    path_index: int,
    container_index: int,
)
    requires
        config.wf(),
        state.valid(config, truck),
        state.node() == 0,
        0 <= path_index < state.paths().len(),
        container_index == NO_CONTAINER_INDEX || 0 <= container_index < state.containers().len(),
    ensures
        state.route_nodes(path_index, container_index).len() > 0,
        !request_byte(config.first_afs())(state.route_nodes(path_index, container_index).last()),
{
    let route = state.route_nodes(path_index, container_index);
    match state.previous_state {
        Some(p) => {
            let option = state.path_options@[path_index]@;
            assert(path_option_valid(option, config, truck, (*p).path_options@.len() as int));
            assert(model_node(option) == 0);
            let bytes = path_bytes(option.1);
            assert(option.1.last() == option.1[option.1.len() - 1]);
            assert(option.1.last() == 0 || option.1.last() == ROUTE_DEPOT_REFUEL as usize);
            assert(bytes.last() == option.1.last() as u8);
            if container_index != NO_CONTAINER_INDEX && state.current_node == 0
                && state.container_options@.len() != 0 {
                let current = state.container_options@[container_index];
                assert(container_option_valid(current, truck, (*p).container_options@.len() as int));
                let previous = (*p).container_options@[current.previous_index as int];
                let before = (*p).route_nodes(option.2, current.previous_index as int);
                let moves = depot_moves(current.empty_20 - previous.empty_20, current.empty_40 - previous.empty_40);
                assert(route == before + bytes + moves);
                if moves.len() > 0 {
                    assert(route.last() == moves[moves.len() - 1]);
                    assert(moves[moves.len() - 1] >= 251);
                } else {
                    assert(route.last() == bytes[bytes.len() - 1]);
                }
            } else {
                let next = if container_index == NO_CONTAINER_INDEX {
                    0
                } else {
                    state.container_options@[container_index].previous_index as int
                };
                assert(route == (*p).route_nodes(option.2, next) + bytes);
                assert(route.last() == bytes[bytes.len() - 1]);
            }
        },
        None => {
            if container_index != NO_CONTAINER_INDEX {
                let start = state.container_options@[container_index];
                let loads = repeated(ROUTE_DEPOT_LOAD_20, start.empty_20 as int) + repeated(
                    ROUTE_DEPOT_LOAD_40,
                    start.empty_40 as int,
                );
                assert(route == seq![0u8] + loads);
                if loads.len() > 0 {
                    assert(route.last() == loads[loads.len() - 1]);
                    assert(loads[loads.len() - 1] >= 252);
                }
            } else {
                assert(route == seq![0u8]);
            }
        },
    }
}

/// Appends `count` copies of `marker` (none for a count below one).
fn push_repeated(path: &mut Vec<u8>, marker: u8, count: i32)
    ensures
        final(path)@ == old(path)@ + repeated(marker, count as int),
{
    let mut i: i32 = 0;
    while i < count
        invariant
            0 <= i,
            count >= 0 ==> i <= count,
            count < 0 ==> i == 0,
            path@ == old(path)@ + repeated(marker, i as int),
        decreases count - i,
    {
        path.push(marker);
        assert(path@ =~= old(path)@ + repeated(marker, i + 1));
        i = i + 1;
    }
    assert(path@ =~= old(path)@ + repeated(marker, count as int));
}

/// Appends the nodes of `nodes`, each as a `u8`.
fn push_path_bytes(path: &mut Vec<u8>, nodes: &Vec<usize>)
    requires
        forall|j: int| 0 <= j < nodes@.len() ==> #[trigger] nodes@[j] < 256,
    ensures
        final(path)@ == old(path)@ + path_bytes(nodes@),
{
    let mut i: usize = 0;
    while i < nodes.len()
        invariant
            i <= nodes@.len(),
            forall|j: int| 0 <= j < nodes@.len() ==> #[trigger] nodes@[j] < 256,
            path@ == old(path)@ + path_bytes(nodes@.take(i as int)),
        decreases nodes@.len() - i,
    {
        path.push(nodes[i] as u8);
        assert(path_bytes(nodes@.take(i + 1)) =~= path_bytes(nodes@.take(i as int)).push(nodes@[i as int] as u8));
        assert(path@ =~= old(path)@ + path_bytes(nodes@.take(i + 1)));
        i = i + 1;
    }
    assert(nodes@.take(nodes@.len() as int) =~= nodes@);
}

/// The route that a single truck could take: the nodes, with the markers for depot refuels
/// and for the empty containers loaded and unloaded at the depot, and its total distance.
pub struct Route {
    path: Vec<u8>,
    total_distance: u32,
}

impl Route {
    pub closed spec fn nodes(&self) -> Seq<u8> {
        self.path@
    }

    pub closed spec fn distance(&self) -> int {
        self.total_distance as int
    }

    /// The distance is held in a `u32`.
    pub proof fn lemma_distance_bounds(&self)
        ensures
            0 <= self.distance() <= u32::MAX,
    {
    }

    /// The complete route from the start through `search_state`, ending with its path
    /// option `path_index`.
    pub fn new(search_state: &Rc<SearchState>, path_index: usize, total_distance: u32) -> (r: Route)
        requires
            search_state.well_linked(),
            path_index < search_state.paths().len(),
        ensures
            r.nodes() == search_state.route_nodes(path_index as int, NO_CONTAINER_INDEX as int),
            r.distance() == total_distance,
    {
        let path = Route::new_path_recursive(search_state, path_index, NO_CONTAINER_INDEX);
        return Route { path, total_distance };
    }

    /// The nodes of the route, with the depot markers.
    pub fn get_path(&self) -> (r: &Vec<u8>)
        ensures
            r@ == self.nodes(),
    {
        &self.path
    }

    /// The route's total distance.
    pub fn get_total_distance(&self) -> (r: u32)
        ensures
            r == self.distance(),
    {
        self.total_distance
    }

    /// Reads the route back from `current_state`'s path option `current_state_path_index`
    /// (and container option `current_container_index`, unless that is the sentinel) to the
    /// first state.
    fn new_path_recursive(
        current_state: &Rc<SearchState>,
        current_state_path_index: usize,
        current_container_index: usize,
    ) -> (r: Vec<u8>)
        requires
            current_state.well_linked(),
            current_state_path_index < current_state.paths().len(),
            current_container_index == NO_CONTAINER_INDEX || current_container_index
                < current_state.containers().len(),
        ensures
            r@ == current_state.route_nodes(current_state_path_index as int, current_container_index as int),
        decreases current_state.depth(),
    {
        match &current_state.previous_state {
            Some(previous_state) => {
                let current_path_option = &current_state.path_options[current_state_path_index];
                assert(current_path_option@.2 == current_path_option.previous_index);
                assert(current_path_option@.1 == current_path_option.path@);
                if current_container_index != NO_CONTAINER_INDEX && current_state.current_node == 0
                    && current_state.container_options.len() != 0 {
                    let current_container_option = current_state.container_options[current_container_index];
                    let previous_container_option = previous_state.container_options[current_container_option.previous_index];
                    let diff_empty_20: i32 = current_container_option.empty_20 as i32
                        - previous_container_option.empty_20 as i32;
                    let diff_empty_40: i32 = current_container_option.empty_40 as i32
                        - previous_container_option.empty_40 as i32;
                    let mut path = Route::new_path_recursive(
                        previous_state,
                        current_path_option.previous_index,
                        current_container_option.previous_index,
                    );
                    push_path_bytes(&mut path, &current_path_option.path);
                    if diff_empty_20 < 0 {
                        push_repeated(&mut path, ROUTE_DEPOT_DELOAD_20, -diff_empty_20);
                    } else if diff_empty_20 > 0 {
                        push_repeated(&mut path, ROUTE_DEPOT_LOAD_20, diff_empty_20);
                    }
                    if diff_empty_40 < 0 {
                        push_repeated(&mut path, ROUTE_DEPOT_DELOAD_40, -diff_empty_40);
                    } else if diff_empty_40 > 0 {
                        push_repeated(&mut path, ROUTE_DEPOT_LOAD_40, diff_empty_40);
                    }
                    assert(path@ =~= current_state.route_nodes(current_state_path_index as int, current_container_index as int));
                    return path;
                } else {
                    let next_container_index;
                    if current_container_index == NO_CONTAINER_INDEX {
                        next_container_index = 0;
                    } else {
                        next_container_index = current_state.container_options[current_container_index].previous_index;
                    }
                    let mut path = Route::new_path_recursive(
                        previous_state,
                        current_path_option.previous_index,
                        next_container_index,
                    );
                    push_path_bytes(&mut path, &current_path_option.path);
                    return path;
                }
            },
            None => {
                let mut path: Vec<u8> = Vec::new();
                path.push(0);
                if current_container_index != NO_CONTAINER_INDEX {
                    let starting_container_option = current_state.container_options[current_container_index];
                    push_repeated(&mut path, ROUTE_DEPOT_LOAD_20, starting_container_option.empty_20 as i32);
                    push_repeated(&mut path, ROUTE_DEPOT_LOAD_40, starting_container_option.empty_40 as i32);
                    assert(path@ =~= current_state.route_nodes(current_state_path_index as int, current_container_index as int));
                } else {
                    assert(path@ =~= seq![0u8]);
                }
                return path;
            },
        }
    }
}

// ---------------------------------------------------------------------------------------------
// Known routes
// ---------------------------------------------------------------------------------------------

/// The best route known so far for each set of visited requests (the `requests_visited`
/// bits), and how many routes were offered.
pub struct KnownRoutesForTruck {
    map: HashMap<u64, Rc<Route>>,
    valid_insertions: usize,
}

impl KnownRoutesForTruck {
    pub closed spec fn routes(&self) -> Map<u64, Rc<Route>> {
        self.map@
    }

    pub closed spec fn insertions(&self) -> int {
        self.valid_insertions as int
    }

    pub fn new() -> (r: KnownRoutesForTruck)
        ensures
            r.routes() == Map::<u64, Rc<Route>>::empty(),
            r.insertions() == 0,
    {
        let map = HashMap::new();
        return KnownRoutesForTruck { map, valid_insertions: 0 };
    }

    /// The number of valid routes offered so far (at most `usize::MAX`).
    pub fn get_valid_insertions(&self) -> (r: usize)
        ensures
            r == self.insertions(),
    {
        self.valid_insertions
    }

    /// The number of sets of visited requests with a known route.
    pub fn num_routes(&self) -> (r: usize)
        ensures
            r == self.routes().len(),
    {
        broadcast use vstd::std_specs::hash::group_hash_axioms;

        self.map.len()
    }

    /// Saves the best route of `search_state` (see `SearchState::best_path`) for its visited
    /// requests, unless the truck carries a full container there (the route cannot end with
    /// it on board) or a route at least as short is known for them already. The count of
    /// valid routes offered goes up by one (and stays at `usize::MAX` once there).
    pub fn possibly_add(&mut self, search_state: &Rc<SearchState>)
        requires
            search_state.well_linked(),
        ensures
            ({
                let carrying = search_state.is_carrying_spec();
                final(self).insertions() == if carrying || old(self).insertions() == usize::MAX {
                    old(self).insertions()
                } else {
                    old(self).insertions() + 1
                }
            }),
            ({
                let key = search_state.visited_mask();
                let best = search_state.best_path();
                let carrying = search_state.is_carrying_spec();
                if !carrying && (!old(self).routes().contains_key(key) || best.1 < old(self).routes()[key].distance()) {
                    &&& final(self).routes().contains_key(key)
                    &&& final(self).routes()[key].nodes() == search_state.route_nodes(best.0, NO_CONTAINER_INDEX as int)
                    &&& final(self).routes()[key].distance() == best.1
                    &&& final(self).routes().remove(key) == old(self).routes().remove(key)
                } else {
                    final(self).routes() == old(self).routes()
                }
            }),
            forall|k: u64|
                old(self).routes().contains_key(k) ==> final(self).routes().contains_key(k)
                    && final(self).routes()[k].distance() <= old(self).routes()[k].distance(),
    {
        broadcast use vstd::std_specs::hash::group_hash_axioms;

        if search_state.is_carrying_full_container() {
            return;
        }
        if self.valid_insertions < usize::MAX {
            self.valid_insertions = self.valid_insertions + 1;
        }
        let requests_visited = search_state.requests_visited;
        let (best_path_index, total_distance) = search_state.get_best_path_index_and_total_distance();
        let previous_entry = self.map.get(&requests_visited);
        let save_or_overwrite = match previous_entry {
            Option::None => true,
            Option::Some(previous_route) => (total_distance < previous_route.total_distance),
        };
        if save_or_overwrite {
            proof {
                lemma_best_path(&**search_state, search_state.paths().len() as int);
            }
            let new_route = Route::new(search_state, best_path_index, total_distance);
            self.map.insert(requests_visited, Rc::new(new_route));
            proof {
                assert(self.map@.remove(requests_visited) =~= old(self).map@.remove(requests_visited));
            }
        }
    }
}

/// The request nodes that the route `nodes` passes, in order.
pub open spec fn served(nodes: Seq<u8>, first_afs: int) -> Seq<u8> {
    nodes.filter(request_byte(first_afs))
}

/// The route `nodes` serves exactly the requests that `key` marks, each once, and does not
/// end at a request node.
pub open spec fn serves_key(nodes: Seq<u8>, key: u64, first_afs: int) -> bool {
    &&& served(nodes, first_afs).no_duplicates()
    &&& forall|n: int|
        1 <= n < first_afs ==> (#[trigger] served(nodes, first_afs).contains(n as u8) <==> visited(key, n))
    &&& nodes.len() > 0
    &&& !request_byte(first_afs)(nodes.last())
}

impl KnownRoutesForTruck {
    /// Every known route serves exactly the requests of its key.
    pub open spec fn serve_their_keys(&self, first_afs: int) -> bool {
        forall|k: u64| self.routes().contains_key(k) ==> serves_key(#[trigger] self.routes()[k].nodes(), k, first_afs)
    }
}

/// Saving a route that serves its key, or nothing, keeps every route serving its key.
proof fn lemma_add_keeps_serving(
    before: Map<u64, Rc<Route>>,
    after: Map<u64, Rc<Route>>,
    key: u64,
    nodes: Seq<u8>,
    first_afs: int,
)
    requires
        forall|k: u64| before.contains_key(k) ==> serves_key(#[trigger] before[k].nodes(), k, first_afs),
        serves_key(nodes, key, first_afs),
        (after.contains_key(key) && after[key].nodes() == nodes && after.remove(key) == before.remove(key))
            || after == before,
    ensures
        forall|k: u64| after.contains_key(k) ==> serves_key(#[trigger] after[k].nodes(), k, first_afs),
{
    assert forall|k: u64| after.contains_key(k) implies serves_key(#[trigger] after[k].nodes(), k, first_afs) by {
        if after != before && k != key {
            assert(after.remove(key).contains_key(k));
            assert(after.remove(key)[k] == after[k]);
            assert(before.remove(key)[k] == before[k]);
        }
    }
}

/// The route `nodes` passes request node `n`.
pub open spec fn passes(nodes: Seq<u8>, n: int, first_afs: int) -> bool {
    served(nodes, first_afs).contains(n as u8)
}

/// The routes together serve exactly the requests that `key` marks, each on exactly one of
/// them and once there, and none ends at a request node.
pub open spec fn routes_serve(routes: Seq<Seq<u8>>, key: u64, first_afs: int) -> bool {
    &&& forall|i: int|
        0 <= i < routes.len() ==> served(#[trigger] routes[i], first_afs).no_duplicates() && routes[i].len() > 0
            && !request_byte(first_afs)(routes[i].last())
    &&& forall|n: int|
        1 <= n < first_afs ==> (visited(key, n) <==> exists|i: int|
            0 <= i < routes.len() && #[trigger] passes(routes[i], n, first_afs))
    &&& forall|n: int, i: int, j: int|
        1 <= n < first_afs && 0 <= i < j < routes.len() && #[trigger] passes(routes[i], n, first_afs)
            ==> !#[trigger] passes(routes[j], n, first_afs)
}

/// The nodes of each route.
pub open spec fn node_lists(routes: Seq<Rc<Route>>) -> Seq<Seq<u8>> {
    routes.map_values(|route: Rc<Route>| route.nodes())
}

/// Two masks that share no request: their union marks what either marks, never both.
proof fn lemma_disjoint_union(a: u64, b: u64, n: int)
    requires
        a & b == 0,
        1 <= n < 64,
    ensures
        visited(a | b, n) == (visited(a, n) || visited(b, n)),
        !(visited(a, n) && visited(b, n)),
{
    let s = (n - 1) as u64;
    assert(s < 64 ==> (((a | b) & (1u64 << s)) != 0) == ((a & (1u64 << s)) != 0 || (b & (1u64 << s)) != 0))
        by (bit_vector);
    assert(a & b == 0 && s < 64 ==> !((a & (1u64 << s)) != 0 && (b & (1u64 << s)) != 0)) by (bit_vector);
}

/// Adding a route that serves `b` to routes that serve `a`, where `a` and `b` share no
/// request, gives routes that serve `a | b`.
proof fn lemma_extend_serves(routes: Seq<Seq<u8>>, a: u64, last: Seq<u8>, b: u64, first_afs: int)
    requires
        1 <= first_afs <= 64,
        a & b == 0,
        routes_serve(routes, a, first_afs),
        serves_key(last, b, first_afs),
    ensures
        routes_serve(routes.push(last), a | b, first_afs),
{
    let all = routes.push(last);
    let l = routes.len() as int;
    assert(all[l] == last);
    assert forall|i: int| 0 <= i < all.len() implies served(#[trigger] all[i], first_afs).no_duplicates()
        && all[i].len() > 0 && !request_byte(first_afs)(all[i].last()) by {
        if i < l {
            assert(all[i] == routes[i]);
        }
    }
    assert forall|n: int| 1 <= n < first_afs implies (visited(a | b, n) <==> exists|i: int|
        0 <= i < all.len() && #[trigger] passes(all[i], n, first_afs)) by {
        lemma_disjoint_union(a, b, n);
        if visited(a, n) {
            let i = choose|i: int| 0 <= i < routes.len() && #[trigger] passes(routes[i], n, first_afs);
            assert(all[i] == routes[i]);
        }
        if visited(b, n) {
            assert(passes(all[l], n, first_afs));
        }
        if exists|i: int| 0 <= i < all.len() && #[trigger] passes(all[i], n, first_afs) {
            let i = choose|i: int| 0 <= i < all.len() && #[trigger] passes(all[i], n, first_afs);
            if i < l {
                assert(all[i] == routes[i]);
            }
        }
    }
    assert forall|n: int, i: int, j: int|
        1 <= n < first_afs && 0 <= i < j < all.len() && #[trigger] passes(all[i], n, first_afs) implies !#[trigger] passes(
        all[j],
        n,
        first_afs,
    ) by {
        lemma_disjoint_union(a, b, n);
        assert(all[i] == routes[i]);
        if j < l {
            assert(all[j] == routes[j]);
        } else {
            assert(visited(a, n));
        }
    }
}

/// Up to one route per truck, each for the truck at the same index, and the sum of their
/// distances.
pub struct CombinationOption {
    total_distance: u64,
    routes: Vec<Rc<Route>>,
}

impl CombinationOption {
    pub closed spec fn distance(&self) -> int {
        self.total_distance as int
    }

    pub closed spec fn route_list(&self) -> Seq<Rc<Route>> {
        self.routes@
    }
}

/// The best combination of routes known for each set of visited requests, over the trucks
/// merged so far.
pub struct AllKnownOptions {
    option_map: HashMap<u64, CombinationOption>,
    num_trucks_next: usize,
    num_compatible_combinations: usize,
    verbose: bool,
    merge_summaries: Vec<MergeSummary>,
}

/// What one later merge did: how many combinations were known before it, how many routes the
/// truck brought, how many combinations are known after it, and how many pairs of a
/// combination and a route shared no request.
#[derive(Clone, Copy, Debug, PartialEq, Eq, Structural)]
pub struct MergeSummary {
    pub previous_options: usize,
    pub truck_options: usize,
    pub options: usize,
    pub compatible_combinations: usize,
}

impl AllKnownOptions {
    pub closed spec fn options(&self) -> Map<u64, CombinationOption> {
        self.option_map@
    }

    /// The number of trucks covered after the next merge.
    pub closed spec fn trucks_next(&self) -> int {
        self.num_trucks_next as int
    }

    /// The number of pairs that the last merge found compatible (see `subsequent_merge`).
    pub closed spec fn compatible_combinations(&self) -> int {
        self.num_compatible_combinations as int
    }

    /// Whether the merges are to be summarised to the user.
    pub closed spec fn verbose_spec(&self) -> bool {
        self.verbose
    }

    /// The summaries of the later merges, in turn, kept when the merges are to be summarised.
    pub closed spec fn summaries(&self) -> Seq<MergeSummary> {
        self.merge_summaries@
    }

    /// Every combination holds one route per truck merged, and its distance is at most
    /// `u32::MAX` per truck merged; before the first merge there is none.
    pub open spec fn wf(&self) -> bool {
        &&& 1 <= self.trucks_next()
        &&& self.trucks_next() == 1 ==> self.options() == Map::<u64, CombinationOption>::empty()
        &&& forall|k: u64|
            self.options().contains_key(k) ==> 0 <= #[trigger] self.options()[k].distance() <= (
            self.trucks_next() - 1) * (u32::MAX as int)
        &&& forall|k: u64|
            self.options().contains_key(k) ==> #[trigger] self.options()[k].route_list().len()
                == self.trucks_next() - 1
    }

    pub fn new(verbose: bool) -> (r: AllKnownOptions)
        ensures
            r.options() == Map::<u64, CombinationOption>::empty(),
            r.trucks_next() == 1,
            r.compatible_combinations() == 0,
            r.verbose_spec() == verbose,
            r.summaries() == Seq::<MergeSummary>::empty(),
            r.wf(),
    {
        let option_map = HashMap::new();
        return AllKnownOptions {
            option_map,
            num_trucks_next: 1,
            num_compatible_combinations: 0,
            verbose,
            merge_summaries: Vec::new(),
        };
    }

    /// The summaries of the later merges, in turn (see `summaries`).
    pub fn get_merge_summaries(&self) -> (r: &Vec<MergeSummary>)
        ensures
            r@ == self.summaries(),
    {
        &self.merge_summaries
    }

    /// Whether the merges are to be summarised to the user.
    pub fn is_verbose(&self) -> (r: bool)
        ensures
            r == self.verbose_spec(),
    {
        self.verbose
    }

    /// The number of pairs of a combination and a route that the last merge found to share
    /// no request (none before the first later merge).
    pub fn get_num_compatible_combinations(&self) -> (r: usize)
        ensures
            r == self.compatible_combinations(),
    {
        self.num_compatible_combinations
    }

    /// The number of sets of visited requests with a known combination.
    pub fn num_options(&self) -> (r: usize)
        ensures
            r == self.options().len(),
    {
        broadcast use vstd::std_specs::hash::group_hash_axioms;

        self.option_map.len()
    }
}

/// `a` and `b` are keys of the two maps that share no request.
pub open spec fn combines(own: Map<u64, CombinationOption>, other: Map<u64, Rc<Route>>, a: u64, b: u64) -> bool {
    own.contains_key(a) && other.contains_key(b) && a & b == 0
}

/// The pairs of a key of `own` and a key of `other` that share no request.
pub open spec fn compatible_pairs(own: Map<u64, CombinationOption>, other: Map<u64, Rc<Route>>) -> Set<(u64, u64)> {
    Set::new(|p: (u64, u64)| combines(own, other, p.0, p.1))
}

/// The summary of the merge of `routes` into the combinations `before`, which gave `after`.
pub open spec fn merge_summary_of(
    before: Map<u64, CombinationOption>,
    routes: Map<u64, Rc<Route>>,
    after: Map<u64, CombinationOption>,
) -> MergeSummary {
    MergeSummary {
        previous_options: before.len() as usize,
        truck_options: routes.len() as usize,
        options: after.len() as usize,
        compatible_combinations: saturated(compatible_pairs(before, routes).len()) as usize,
    }
}

/// `n`, or `usize::MAX` where `n` is larger.
pub open spec fn saturated(n: nat) -> int {
    if n <= usize::MAX {
        n as int
    } else {
        usize::MAX as int
    }
}

/// The keys that `pairs` lists are all different.
pub open spec fn distinct_keys<K, V>(pairs: Seq<(&K, &V)>) -> bool {
    forall|i: int, j: int| 0 <= i < j < pairs.len() ==> *(#[trigger] pairs[i]).0 != *(#[trigger] pairs[j]).0
}

/// A walk through a map that lists no entry twice lists no key twice.
proof fn lemma_distinct_keys<V>(pairs: Seq<(&u64, &V)>, m: Map<u64, V>)
    requires
        pairs.no_duplicates(),
        forall|i: int| 0 <= i < pairs.len() ==> m.contains_key(*(#[trigger] pairs[i]).0) && m[*pairs[i].0] == *pairs[i].1,
    ensures
        distinct_keys(pairs),
{
    assert forall|i: int, j: int| 0 <= i < j < pairs.len() implies *(#[trigger] pairs[i]).0 != *(#[trigger] pairs[j]).0 by {
        if *pairs[i].0 == *pairs[j].0 {
            assert(*pairs[i].1 == *pairs[j].1);
            assert(pairs[i] == pairs[j]);
        }
    }
}

/// `c` is the combination of an entry of `own` and one of `other` that share no request and
/// together visit the requests `k`.
pub open spec fn merged_entry(
    own: Map<u64, CombinationOption>,
    other: Map<u64, Rc<Route>>,
    k: u64,
    c: CombinationOption,
) -> bool {
    exists|a: u64, b: u64|
        #[trigger] combines(own, other, a, b) && a | b == k && c.distance() == own[a].distance()
            + other[b].distance() && c.route_list() == own[a].route_list().push(other[b])
}

impl AllKnownOptions {
    /// Starts the combinations from the routes of the first truck: each becomes a
    /// combination of one route.
    pub fn inital_merge(&mut self, truck_options: &KnownRoutesForTruck)
        requires
            old(self).wf(),
            old(self).trucks_next() <= 2,
        ensures
            final(self).trucks_next() == 2,
            final(self).wf(),
            final(self).compatible_combinations() == old(self).compatible_combinations(),
            final(self).verbose_spec() == old(self).verbose_spec(),
            final(self).summaries() == old(self).summaries(),
            forall|k: u64|
                final(self).options().contains_key(k) <==> (old(self).options().contains_key(k)
                    || truck_options.routes().contains_key(k)),
            forall|k: u64|
                truck_options.routes().contains_key(k) ==> final(self).options()[k].distance()
                    == truck_options.routes()[k].distance() && final(self).options()[k].route_list()
                    == seq![truck_options.routes()[k]],
            forall|k: u64|
                !truck_options.routes().contains_key(k) && old(self).options().contains_key(k)
                    ==> final(self).options()[k] == old(self).options()[k],
    {
        broadcast use vstd::std_specs::hash::group_hash_axioms;

        let ghost other = truck_options.map@;
        let ghost own = self.option_map@;
        proof {
            assert forall|k: u64| own.contains_key(k) implies 0 <= #[trigger] own[k].distance() <= u32::MAX by {
                assert(self.options()[k].distance() <= (self.trucks_next() - 1) * (u32::MAX as int));
                if self.trucks_next() == 2 {
                } else {
                    assert(self.trucks_next() == 1);
                }
            }
            assert forall|k: u64| own.contains_key(k) implies #[trigger] own[k].route_list().len() == 1 by {
                assert(self.options()[k].route_list().len() == self.trucks_next() - 1);
            }
        }
        for (key, value) in it: truck_options.map.iter()
            invariant
                other == truck_options.map@,
                self.num_compatible_combinations == old(self).num_compatible_combinations,
                self.verbose == old(self).verbose,
                self.merge_summaries@ == old(self).merge_summaries@,
                forall|i: int|
                    0 <= i < it.seq().len() ==> other.contains_key(*(#[trigger] it.seq()[i]).0)
                        && other[*it.seq()[i].0] == *it.seq()[i].1,
                forall|k: u64|
                    other.contains_key(k) ==> exists|i: int|
                        0 <= i < it.seq().len() && *(#[trigger] it.seq()[i]).0 == k,
                forall|k: u64|
                    #[trigger] self.option_map@.contains_key(k) <==> (own.contains_key(k) || exists|i: int|
                        0 <= i < it.index() && *(#[trigger] it.seq()[i]).0 == k),
                forall|i: int|
                    0 <= i < it.index() ==> self.option_map@[*(#[trigger] it.seq()[i]).0].distance()
                        == other[*it.seq()[i].0].distance() && self.option_map@[*it.seq()[i].0].route_list()
                        == seq![other[*it.seq()[i].0]],
                forall|k: u64|
                    own.contains_key(k) && !(exists|i: int| 0 <= i < it.index() && *(#[trigger] it.seq()[i]).0 == k)
                        ==> self.option_map@[k] == own[k],
                forall|k: u64|
                    own.contains_key(k) ==> 0 <= #[trigger] own[k].distance() <= u32::MAX,
                forall|k: u64|
                    self.option_map@.contains_key(k) ==> 0 <= #[trigger] self.option_map@[k].distance() <= u32::MAX,
                forall|k: u64| own.contains_key(k) ==> #[trigger] own[k].route_list().len() == 1,
                forall|k: u64|
                    self.option_map@.contains_key(k) ==> #[trigger] self.option_map@[k].route_list().len() == 1,
        {
            let mut routes: Vec<Rc<Route>> = Vec::new();
            routes.push(Rc::clone(value));
            let option = CombinationOption { routes, total_distance: value.total_distance as u64 };
            assert(routes@ =~= seq![*value]);
            self.option_map.insert(*key, option);
        }
        self.num_trucks_next = 2;
    }
}

impl AllKnownOptions {
    /// The routes of every combination serve exactly the requests of its key, each on one
    /// route and once there.
    pub open spec fn serve_their_keys(&self, first_afs: int) -> bool {
        forall|k: u64|
            self.options().contains_key(k) ==> routes_serve(
                node_lists(#[trigger] self.options()[k].route_list()),
                k,
                first_afs,
            )
    }
}

/// A single route that serves its key is a combination that serves it.
proof fn lemma_single_route_serves(route: Rc<Route>, key: u64, first_afs: int)
    requires
        1 <= first_afs <= 64,
        serves_key(route.nodes(), key, first_afs),
    ensures
        routes_serve(node_lists(seq![route]), key, first_afs),
{
    let none = Seq::<Seq<u8>>::empty();
    assert forall|n: int| 1 <= n < first_afs implies !visited(0u64, n) by {
        let b = (n - 1) as u64;
        assert(b < 64 ==> 0u64 & (1u64 << b) == 0) by (bit_vector);
    }
    assert(routes_serve(none, 0u64, first_afs));
    assert(0u64 & key == 0 && 0u64 | key == key) by (bit_vector);
    lemma_extend_serves(none, 0u64, route.nodes(), key, first_afs);
    assert(node_lists(seq![route]) =~= none.push(route.nodes()));
}

/// A merged combination serves its key when the combinations and routes it was merged from
/// serve theirs.
proof fn lemma_merged_entry_serves(
    own: Map<u64, CombinationOption>,
    other: Map<u64, Rc<Route>>,
    k: u64,
    c: CombinationOption,
    first_afs: int,
)
    requires
        1 <= first_afs <= 64,
        forall|a: u64| own.contains_key(a) ==> routes_serve(node_lists(#[trigger] own[a].route_list()), a, first_afs),
        forall|b: u64| other.contains_key(b) ==> serves_key(#[trigger] other[b].nodes(), b, first_afs),
        merged_entry(own, other, k, c),
    ensures
        routes_serve(node_lists(c.route_list()), k, first_afs),
{
    let (a, b) = choose|a: u64, b: u64|
        #[trigger] combines(own, other, a, b) && a | b == k && c.distance() == own[a].distance()
            + other[b].distance() && c.route_list() == own[a].route_list().push(other[b]);
    assert(node_lists(c.route_list()) =~= node_lists(own[a].route_list()).push(other[b].nodes()));
    lemma_extend_serves(node_lists(own[a].route_list()), a, other[b].nodes(), b, first_afs);
}

/// A copy of `routes` with `last` after them.
fn extend_routes(routes: &Vec<Rc<Route>>, last: &Rc<Route>) -> (r: Vec<Rc<Route>>)
    ensures
        r@ == routes@.push(*last),
{
    let mut combination_routes: Vec<Rc<Route>> = Vec::new();
    let mut i: usize = 0;
    while i < routes.len()
        invariant
            i <= routes@.len(),
            combination_routes@ == routes@.take(i as int),
        decreases routes@.len() - i,
    {
        combination_routes.push(Rc::clone(&routes[i]));
        assert(routes@.take(i + 1) =~= routes@.take(i as int).push(routes@[i as int]));
        i = i + 1;
    }
    assert(routes@.take(routes@.len() as int) =~= routes@);
    combination_routes.push(Rc::clone(last));
    combination_routes
}

impl AllKnownOptions {
    /// Merges the routes of the next truck into the combinations: a combination and a route
    /// that share no request are combined, and for each set of requests the shortest such
    /// combination is kept (the first found among equally short ones). The pairs that share no
    /// request are counted (up to `usize::MAX`), and when the merges are to be summarised,
    /// the merge's summary is kept.
    pub fn subsequent_merge(&mut self, truck_options: &KnownRoutesForTruck)
        requires
            old(self).wf(),
            old(self).trucks_next() < u32::MAX,
        ensures
            final(self).trucks_next() == old(self).trucks_next() + 1,
            final(self).wf(),
            final(self).verbose_spec() == old(self).verbose_spec(),
            final(self).summaries() == if old(self).verbose_spec() {
                old(self).summaries().push(
                    merge_summary_of(old(self).options(), truck_options.routes(), final(self).options()),
                )
            } else {
                old(self).summaries()
            },
            compatible_pairs(old(self).options(), truck_options.routes()).finite(),
            final(self).compatible_combinations() == saturated(
                compatible_pairs(old(self).options(), truck_options.routes()).len(),
            ),
            forall|k: u64|
                final(self).options().contains_key(k) ==> merged_entry(
                    old(self).options(),
                    truck_options.routes(),
                    k,
                    #[trigger] final(self).options()[k],
                ),
            forall|a: u64, b: u64|
                #[trigger] combines(old(self).options(), truck_options.routes(), a, b) ==> final(self).options().contains_key(a | b)
                    && final(self).options()[a | b].distance() <= old(self).options()[a].distance()
                    + truck_options.routes()[b].distance(),
    {
        broadcast use vstd::std_specs::hash::group_hash_axioms;

        let ghost own = self.option_map@;
        let ghost other = truck_options.map@;
        let ghost n = self.num_trucks_next as int;
        let mut new_map: HashMap<u64, CombinationOption> = HashMap::new();
        let mut num_compatible: usize = 0;
        let ghost mut seen: Set<(u64, u64)> = Set::empty();
        proof {
            assert forall|k: u64| own.contains_key(k) implies 0 <= #[trigger] own[k].distance() <= (n - 1) * (u32::MAX as int) by {
                assert(self.options()[k].distance() <= (self.trucks_next() - 1) * (u32::MAX as int));
            }
        }
        for (own_key, own_value) in it1: self.option_map.iter()
            invariant
                own == self.option_map@,
                other == truck_options.map@,
                n == self.num_trucks_next,
                1 <= n < u32::MAX,
                forall|k: u64|
                    own.contains_key(k) ==> 0 <= #[trigger] own[k].distance() <= (n - 1) * (u32::MAX as int),
                forall|i: int|
                    0 <= i < it1.seq().len() ==> own.contains_key(*(#[trigger] it1.seq()[i]).0)
                        && own[*it1.seq()[i].0] == *it1.seq()[i].1,
                forall|k: u64|
                    own.contains_key(k) ==> exists|i: int|
                        0 <= i < it1.seq().len() && *(#[trigger] it1.seq()[i]).0 == k,
                forall|k: u64|
                    new_map@.contains_key(k) ==> merged_entry(own, other, k, #[trigger] new_map@[k]),
                forall|k: u64|
                    new_map@.contains_key(k) ==> 0 <= #[trigger] new_map@[k].distance() <= n * (u32::MAX as int),
                forall|a: u64, b: u64|
                    #[trigger] combines(own, other, a, b) && (exists|i: int|
                        0 <= i < it1.index() && *(#[trigger] it1.seq()[i]).0 == a) ==> new_map@.contains_key(a | b)
                        && new_map@[a | b].distance() <= own[a].distance() + other[b].distance(),
                it1.seq().no_duplicates(),
                seen.finite(),
                num_compatible == saturated(seen.len()),
                forall|p: (u64, u64)|
                    #[trigger] seen.contains(p) <==> combines(own, other, p.0, p.1) && exists|i: int|
                        0 <= i < it1.index() && *(#[trigger] it1.seq()[i]).0 == p.0,
        {
            assert(own_key == it1.seq()[it1.index()].0);
            proof {
                lemma_distinct_keys(it1.seq(), own);
            }
            for (other_key, other_value) in it2: truck_options.map.iter()
                invariant
                    own == self.option_map@,
                    other == truck_options.map@,
                    n == self.num_trucks_next,
                    1 <= n < u32::MAX,
                    own.contains_key(*own_key),
                    own[*own_key] == *own_value,
                    0 <= own_value.distance() <= (n - 1) * (u32::MAX as int),
                    forall|i: int|
                        0 <= i < it2.seq().len() ==> other.contains_key(*(#[trigger] it2.seq()[i]).0)
                            && other[*it2.seq()[i].0] == *it2.seq()[i].1,
                    forall|k: u64|
                        other.contains_key(k) ==> exists|i: int|
                            0 <= i < it2.seq().len() && *(#[trigger] it2.seq()[i]).0 == k,
                    forall|k: u64|
                        new_map@.contains_key(k) ==> merged_entry(own, other, k, #[trigger] new_map@[k]),
                    forall|k: u64|
                        new_map@.contains_key(k) ==> 0 <= #[trigger] new_map@[k].distance() <= n * (u32::MAX as int),
                    forall|a: u64, b: u64|
                        #[trigger] combines(own, other, a, b) && (exists|i: int|
                            0 <= i < it1.index() && *(#[trigger] it1.seq()[i]).0 == a) ==> new_map@.contains_key(a | b)
                            && new_map@[a | b].distance() <= own[a].distance() + other[b].distance(),
                    forall|b: u64|
                        #[trigger] combines(own, other, *own_key, b) && (exists|j: int|
                            0 <= j < it2.index() && *(#[trigger] it2.seq()[j]).0 == b) ==> new_map@.contains_key(*own_key | b)
                            && new_map@[*own_key | b].distance() <= own[*own_key].distance() + other[b].distance(),
                    it1.index() < it1.seq().len(),
                    *own_key == *it1.seq()[it1.index()].0,
                    distinct_keys(it1.seq()),
                    it2.seq().no_duplicates(),
                    seen.finite(),
                    num_compatible == saturated(seen.len()),
                    forall|p: (u64, u64)|
                        #[trigger] seen.contains(p) <==> combines(own, other, p.0, p.1) && ((exists|i: int|
                            0 <= i < it1.index() && *(#[trigger] it1.seq()[i]).0 == p.0) || (p.0 == *own_key
                            && exists|j: int| 0 <= j < it2.index() && *(#[trigger] it2.seq()[j]).0 == p.1)),
            {
                if *own_key & *other_key == 0 {
                    proof {
                        assert(other_key == it2.seq()[it2.index()].0);
                        lemma_distinct_keys(it2.seq(), other);
                        let p = (*own_key, *other_key);
                        if seen.contains(p) {
                            if exists|i: int| 0 <= i < it1.index() && *(#[trigger] it1.seq()[i]).0 == p.0 {
                                let i = choose|i: int| 0 <= i < it1.index() && *(#[trigger] it1.seq()[i]).0 == p.0;
                                assert(*it1.seq()[i].0 != *it1.seq()[it1.index() as int].0);
                            } else {
                                let j = choose|j: int| 0 <= j < it2.index() && *(#[trigger] it2.seq()[j]).0 == p.1;
                                assert(*it2.seq()[j].0 != *it2.seq()[it2.index() as int].0);
                            }
                        }
                        assert(combines(own, other, p.0, p.1));
                        seen = seen.insert(p);
                        assert forall|q: (u64, u64)|
                            #[trigger] seen.contains(q) <==> combines(own, other, q.0, q.1) && ((exists|i: int|
                                0 <= i < it1.index() && *(#[trigger] it1.seq()[i]).0 == q.0) || (q.0 == *own_key
                                && exists|j: int| 0 <= j < it2.index() + 1 && *(#[trigger] it2.seq()[j]).0 == q.1)) by {
                            if q == p {
                                assert(*it2.seq()[it2.index() as int].0 == q.1);
                            } else if q.0 == *own_key && exists|j: int|
                                0 <= j < it2.index() + 1 && *(#[trigger] it2.seq()[j]).0 == q.1 {
                                let j = choose|j: int| 0 <= j < it2.index() + 1 && *(#[trigger] it2.seq()[j]).0 == q.1;
                                if j == it2.index() {
                                    assert(q == p);
                                }
                            }
                        }
                    }
                    if num_compatible < usize::MAX {
                        num_compatible = num_compatible + 1;
                    }
                    let combined_key = *own_key | *other_key;
                    assert((n - 1) * (u32::MAX as int) + (u32::MAX as int) <= n * (u32::MAX as int)) by (nonlinear_arith);
                    assert(n * (u32::MAX as int) <= (u32::MAX as int) * (u32::MAX as int)) by (nonlinear_arith)
                        requires
                            n < u32::MAX,
                            1 <= n,
                    ;
                    let combined_distance = own_value.total_distance + other_value.total_distance as u64;
                    let alternative = new_map.get(&combined_key);
                    let insert_into_map = match alternative {
                        Option::Some(old_value) => old_value.total_distance > combined_distance,
                        Option::None => true,
                    };
                    if insert_into_map {
                        let combination_routes = extend_routes(&own_value.routes, other_value);
                        let new_option = CombinationOption {
                            routes: combination_routes,
                            total_distance: combined_distance,
                        };
                        proof {
                            assert(combines(own, other, *own_key, *other_key));
                            assert(merged_entry(own, other, combined_key, new_option));
                        }
                        new_map.insert(combined_key, new_option);
                    }
                }
            }
            proof {
                assert forall|a: u64, b: u64|
                    #[trigger] combines(own, other, a, b) && (exists|i: int|
                        0 <= i < it1.index() + 1 && *(#[trigger] it1.seq()[i]).0 == a) implies new_map@.contains_key(a | b)
                        && new_map@[a | b].distance() <= own[a].distance() + other[b].distance() by {
                    let i = choose|i: int| 0 <= i < it1.index() + 1 && *(#[trigger] it1.seq()[i]).0 == a;
                    if i < it1.index() {
                    } else {
                        assert(a == *own_key);
                        assert(other.contains_key(b));
                    }
                }
                assert forall|p: (u64, u64)|
                    #[trigger] seen.contains(p) <==> combines(own, other, p.0, p.1) && exists|i: int|
                        0 <= i < it1.index() + 1 && *(#[trigger] it1.seq()[i]).0 == p.0 by {
                    if combines(own, other, p.0, p.1) && exists|i: int|
                        0 <= i < it1.index() + 1 && *(#[trigger] it1.seq()[i]).0 == p.0 {
                        let i = choose|i: int| 0 <= i < it1.index() + 1 && *(#[trigger] it1.seq()[i]).0 == p.0;
                        if i == it1.index() {
                            assert(other.contains_key(p.1));
                        }
                    }
                    if seen.contains(p) && p.0 == *own_key {
                        assert(*it1.seq()[it1.index() as int].0 == p.0);
                    }
                }
            }
        }
        proof {
            assert(seen =~= compatible_pairs(own, other)) by {
                assert forall|p: (u64, u64)| compatible_pairs(own, other).contains(p) implies seen.contains(p) by {
                    assert(own.contains_key(p.0));
                }
            }
        }
        if self.verbose {
            let summary = MergeSummary {
                previous_options: self.option_map.len(),
                truck_options: truck_options.map.len(),
                options: new_map.len(),
                compatible_combinations: num_compatible,
            };
            self.merge_summaries.push(summary);
        }
        self.option_map = new_map;
        self.num_trucks_next = self.num_trucks_next + 1;
        self.num_compatible_combinations = num_compatible;
    }
}

// ---------------------------------------------------------------------------------------------
// The search for one truck
// ---------------------------------------------------------------------------------------------

/// The number of requests `1..n` that `requests_visited` does not mark.
pub open spec fn unvisited_below(requests_visited: u64, n: int) -> nat
    decreases n,
{
    if n <= 1 {
        0
    } else {
        unvisited_below(requests_visited, n - 1) + if visited(requests_visited, n - 1) {
            0nat
        } else {
            1nat
        }
    }
}

/// Marking an unvisited request leaves one fewer unvisited.
proof fn lemma_mark_unvisited(requests_visited: u64, node: int, n: int)
    requires
        1 <= node < n <= 64,
        !visited(requests_visited, node),
    ensures
        unvisited_below(requests_visited | (1u64 << ((node - 1) as u64)), n) + 1 == unvisited_below(
            requests_visited,
            n,
        ),
    decreases n,
{
    let marked = requests_visited | (1u64 << ((node - 1) as u64));
    lemma_mark_visited(requests_visited, node, n - 1);
    if n - 1 > node {
        lemma_mark_unvisited(requests_visited, node, n - 1);
    } else {
        assert forall|m: int| 1 <= m < n - 1 implies visited(marked, m) == visited(requests_visited, m) by {
            lemma_mark_visited(requests_visited, node, m);
        }
        lemma_unvisited_same(marked, requests_visited, node, n - 1);
    }
}

/// Two masks that agree on the requests `1..n` leave as many of them unvisited.
proof fn lemma_unvisited_same(a: u64, b: u64, node: int, n: int)
    requires
        1 <= n <= node,
        node < 64,
        forall|m: int| 1 <= m < n ==> visited(a, m) == visited(b, m),
    ensures
        unvisited_below(a, n) == unvisited_below(b, n),
    decreases n,
{
    if n > 1 {
        lemma_unvisited_same(a, b, node, n - 1);
    }
}

/// Unless `paths` is empty, a route is known for `mask` that is no longer than any of `paths`.
pub open spec fn known_within(routes: Map<u64, Rc<Route>>, mask: u64, paths: Seq<PathOptionModel>) -> bool {
    paths.len() > 0 ==> routes.contains_key(mask) && forall|i: int|
        0 <= i < paths.len() ==> routes[mask].distance() <= (#[trigger] paths[i]).0.distance()
}

/// Known routes that never get longer keep what they bound.
proof fn lemma_known_within_kept(
    before: Map<u64, Rc<Route>>,
    after: Map<u64, Rc<Route>>,
    mask: u64,
    paths: Seq<PathOptionModel>,
)
    requires
        known_within(before, mask, paths),
        forall|k: u64|
            before.contains_key(k) ==> after.contains_key(k) && after[k].distance() <= before[k].distance(),
    ensures
        known_within(after, mask, paths),
{
}

/// What the search reads of a state: its node, its path options, its container options, the
/// pickups of the full containers on board and its visited requests.
/// Last, the routes read back from it: by path option and container option (see
/// `SearchState::route_nodes`), which carry the states before it.
pub type StateView = (int, Seq<PathOptionModel>, Seq<ContainerOption>, (int, int), u64, spec_fn(int, int) -> Seq<u8>);

impl SearchState {
    pub open spec fn state_view(&self) -> StateView {
        (
            self.node(),
            models(self.paths()),
            self.containers(),
            self.sources(),
            self.visited_mask(),
            |path_index: int, container_index: int| self.route_nodes(path_index, container_index),
        )
    }
}

/// The routes read back from the state after `parent` at `node`, with path options `paths`
/// and container options `c`: the parent's route, the path, and at the depot the empty
/// containers moved there.
pub open spec fn child_routes(parent: StateView, node: int, paths: Seq<PathOptionModel>, c: Seq<ContainerOption>) -> spec_fn(
    int,
    int,
) -> Seq<u8> {
    |path_index: int, container_index: int|
        {
            let option = paths[path_index];
            if container_index != NO_CONTAINER_INDEX && node == 0 && c.len() != 0 {
                let current = c[container_index];
                let previous = parent.2[current.previous()];
                (parent.5)(option.2, current.previous()) + path_bytes(option.1) + depot_moves(
                    current.empty_20() - previous.empty_20(),
                    current.empty_40() - previous.empty_40(),
                )
            } else {
                let next = if container_index == NO_CONTAINER_INDEX {
                    0
                } else {
                    c[container_index].previous()
                };
                (parent.5)(option.2, next) + path_bytes(option.1)
            }
        }
}

/// The best path of `paths`: the index of the first with the lowest distance below
/// `u32::MAX` among the first `n`, and that distance; `(0, u32::MAX)` when there is none.
pub open spec fn best_of(paths: Seq<PathOptionModel>, n: int) -> (int, int)
    decreases n,
{
    if n <= 0 {
        (0, u32::MAX as int)
    } else {
        let best = best_of(paths, n - 1);
        let distance = paths[n - 1].0.distance();
        if distance < best.1 {
            (n - 1, distance)
        } else {
            best
        }
    }
}

/// The visited requests after arriving at `node` with `mask` visited.
pub open spec fn mask_after(mask: u64, node: int) -> u64 {
    if node != 0 {
        mask | (1u64 << ((node - 1) as u64))
    } else {
        mask
    }
}

/// A full container is on board.
pub open spec fn carrying(sources: (int, int)) -> bool {
    sources.0 != 0 || sources.1 != 0
}

/// The state that going from `v` to `node` with container options `c` gives: `None` when no
/// path arrives or the full containers on board cannot be tracked.
pub open spec fn next_view(v: StateView, config: Config, truck: Truck, node: int, c: Seq<ContainerOption>) -> Option<
    StateView,
> {
    let paths = route_paths_of(v.1, config, truck, node, c);
    if paths.len() > 0 && arrive_sources(v.3, config, node) is Some {
        Some(
            (
                node,
                paths,
                record_paths(c, paths),
                arrive_sources(v.3, config, node).unwrap(),
                mask_after(v.4, node),
                child_routes(v, node, paths, record_paths(c, paths)),
            ),
        )
    } else {
        None
    }
}

/// The move the search makes from `v` to `node`, if it makes it: to the depot when it is not
/// there, when the depot offers at most 32 container options, and when the route can end
/// there or containers can be moved; to a request node that can be served.
pub open spec fn search_move(v: StateView, config: Config, truck: Truck, node: int) -> Option<StateView> {
    if node == 0 {
        let c = depot_options_of(v.2, truck);
        if v.0 != 0 && c.len() <= 32 && (!carrying(v.3) || c.len() > 0) {
            next_view(v, config, truck, 0, c)
        } else {
            None
        }
    } else if 1 <= node < config.first_afs() {
        let c = options_at(v.4, v.2, config, truck, node);
        if c.len() > 0 {
            next_view(v, config, truck, node, c)
        } else {
            None
        }
    } else {
        None
    }
}

/// The search goes on from the state that the move from `v` to `node` reaches: always after
/// a request, after the depot only when containers can be moved there.
pub open spec fn goes_on(v: StateView, truck: Truck, node: int) -> bool {
    node != 0 || depot_options_of(v.2, truck).len() > 0
}

/// The state that the search reaches from `v` by the moves `moves`, in turn.
pub open spec fn explored(v: StateView, config: Config, truck: Truck, moves: Seq<int>) -> Option<StateView>
    decreases moves.len(),
{
    if moves.len() == 0 {
        Some(v)
    } else {
        match search_move(v, config, truck, moves[0]) {
            Some(w) => if moves.len() == 1 {
                Some(w)
            } else if goes_on(v, truck, moves[0]) {
                explored(w, config, truck, moves.drop_first())
            } else {
                None
            },
            None => None,
        }
    }
}

/// The search goes on from every state it reaches by a request move, and from every depot
/// visit at which empty containers can be loaded or unloaded: the moves after such a move
/// reach what they reach from the state it leads to. After a depot visit at which nothing
/// can be moved the search stops.
pub proof fn lemma_explored_goes_on(v: StateView, config: Config, truck: Truck, node: int, moves: Seq<int>)
    requires
        search_move(v, config, truck, node) is Some,
        moves.len() > 0,
    ensures
        node != 0 || depot_options_of(v.2, truck).len() > 0 ==> explored(v, config, truck, seq![node] + moves)
            == explored(search_move(v, config, truck, node).unwrap(), config, truck, moves),
        node == 0 && depot_options_of(v.2, truck).len() == 0 ==> explored(v, config, truck, seq![node] + moves)
            is None,
{
    let all = seq![node] + moves;
    assert(all[0] == node);
    assert(all.drop_first() =~= moves);
}

/// If the moves reach a state at the depot with no full container on board, a route is
/// known for its visited requests that is no longer than any of its paths.
pub open spec fn records(routes: Map<u64, Rc<Route>>, v: StateView, config: Config, truck: Truck, moves: Seq<int>) -> bool {
    match explored(v, config, truck, moves) {
        Some(w) => w.0 == 0 && !carrying(w.3) ==> known_within(routes, w.4, w.1),
        None => true,
    }
}

/// Known routes that never get longer keep recording what they recorded.
proof fn lemma_records_kept(
    before: Map<u64, Rc<Route>>,
    after: Map<u64, Rc<Route>>,
    v: StateView,
    config: Config,
    truck: Truck,
    moves: Seq<int>,
)
    requires
        records(before, v, config, truck, moves),
        forall|k: u64|
            before.contains_key(k) ==> after.contains_key(k) && after[k].distance() <= before[k].distance(),
    ensures
        records(after, v, config, truck, moves),
{
    if let Some(w) = explored(v, config, truck, moves) {
        if w.0 == 0 && !carrying(w.3) {
            lemma_known_within_kept(before, after, w.4, w.1);
        }
    }
}

/// `route` is what the search records for the state `w`: `w` is at the depot with no full
/// container on board, its visited requests are `k`, and `route` is read back along its best
/// path, with that path's distance.
pub open spec fn recorded_state(route: Rc<Route>, k: u64, w: Option<StateView>) -> bool {
    match w {
        Some(w) => {
            &&& w.0 == 0
            &&& !carrying(w.3)
            &&& w.4 == k
            &&& route.nodes() == (w.5)(best_of(w.1, w.1.len() as int).0, NO_CONTAINER_INDEX as int)
            &&& route.distance() == best_of(w.1, w.1.len() as int).1
        },
        None => false,
    }
}

/// Every entry of `after` that `before` does not hold as it is was recorded for a state that
/// the search reaches from `v` by at least one move.
pub open spec fn sound_since(
    before: Map<u64, Rc<Route>>,
    after: Map<u64, Rc<Route>>,
    v: StateView,
    config: Config,
    truck: Truck,
) -> bool {
    forall|k: u64|
        #[trigger] after.contains_key(k) && !(before.contains_key(k) && before[k] == after[k]) ==> exists|
            moves: Seq<int>,
        |
            moves.len() > 0 && #[trigger] recorded_state(after[k], k, explored(v, config, truck, moves))
}

/// Every entry of `routes` was recorded for a state that the search reaches from `v`.
pub open spec fn all_recorded(routes: Map<u64, Rc<Route>>, v: StateView, config: Config, truck: Truck) -> bool {
    forall|k: u64|
        #[trigger] routes.contains_key(k) ==> exists|moves: Seq<int>|
            #[trigger] recorded_state(routes[k], k, explored(v, config, truck, moves))
}

proof fn lemma_sound_refl(a: Map<u64, Rc<Route>>, v: StateView, config: Config, truck: Truck)
    ensures
        sound_since(a, a, v, config, truck),
{
}

proof fn lemma_sound_trans(
    a: Map<u64, Rc<Route>>,
    b: Map<u64, Rc<Route>>,
    c: Map<u64, Rc<Route>>,
    v: StateView,
    config: Config,
    truck: Truck,
)
    requires
        sound_since(a, b, v, config, truck),
        sound_since(b, c, v, config, truck),
    ensures
        sound_since(a, c, v, config, truck),
{
    assert forall|k: u64|
        #[trigger] c.contains_key(k) && !(a.contains_key(k) && a[k] == c[k]) implies exists|moves: Seq<int>|
        moves.len() > 0 && #[trigger] recorded_state(c[k], k, explored(v, config, truck, moves)) by {
        if b.contains_key(k) && b[k] == c[k] {
            assert(b.contains_key(k) && !(a.contains_key(k) && a[k] == b[k]));
        }
    }
}

/// What the search records from the state that a move from `v` reaches, it records from `v`.
proof fn lemma_sound_lift(
    a: Map<u64, Rc<Route>>,
    b: Map<u64, Rc<Route>>,
    v: StateView,
    w: StateView,
    node: int,
    config: Config,
    truck: Truck,
)
    requires
        search_move(v, config, truck, node) == Some(w),
        goes_on(v, truck, node),
        sound_since(a, b, w, config, truck),
    ensures
        sound_since(a, b, v, config, truck),
{
    assert forall|k: u64|
        #[trigger] b.contains_key(k) && !(a.contains_key(k) && a[k] == b[k]) implies exists|moves: Seq<int>|
        moves.len() > 0 && #[trigger] recorded_state(b[k], k, explored(v, config, truck, moves)) by {
        let tail = choose|moves: Seq<int>|
            moves.len() > 0 && #[trigger] recorded_state(b[k], k, explored(w, config, truck, moves));
        let moves = seq![node] + tail;
        assert(moves[0] == node);
        assert(moves.drop_first() =~= tail);
        assert(explored(v, config, truck, moves) == explored(w, config, truck, tail));
        assert(recorded_state(b[k], k, explored(v, config, truck, moves)));
    }
}

/// Routing on from `current_state` in every way that makes sense, keeping in
/// `known_options` the best route for each set of visited requests: to the depot (when not
/// there), where the route can end if no full container is on board and where empty
/// containers can be loaded or unloaded, and to each request that can be served next.
/// Afterwards, for every state at the depot with no full container on board that these
/// moves reach (see `explored`), a route for its visited requests is known that is no
/// longer than any of its paths.
pub fn solve_for_truck_recursive(
    config: &Config,
    truck: &Truck,
    known_options: &mut KnownRoutesForTruck,
    current_state: &Rc<SearchState>,
)
    requires
        config.wf(),
        truck.wf(),
        current_state.valid(*config, *truck),
        current_state.containers().len() > 0,
        current_state.node() != 0 ==> visited(current_state.visited_mask(), current_state.node()),
        old(known_options).serve_their_keys(config.first_afs()),
    ensures
        forall|k: u64|
            old(known_options).routes().contains_key(k) ==> final(known_options).routes().contains_key(k)
                && final(known_options).routes()[k].distance() <= old(known_options).routes()[k].distance(),
        final(known_options).serve_their_keys(config.first_afs()),
        forall|moves: Seq<int>|
            moves.len() > 0 ==> #[trigger] records(
                final(known_options).routes(),
                current_state.state_view(),
                *config,
                *truck,
                moves,
            ),
        sound_since(
            old(known_options).routes(),
            final(known_options).routes(),
            current_state.state_view(),
            *config,
            *truck,
        ),
    decreases 2 * unvisited_below(current_state.visited_mask(), config.first_afs()) + if current_state.node()
        != 0 {
        1int
    } else {
        0int
    },
{
    let ghost cv = current_state.state_view();
    let ghost start_routes = known_options.routes();
    let current_node = current_state.get_current_node();
    if current_node != 0 {
        let new_container_options_at_depot = current_state.get_depot_visit_options(config, truck);
        let ghost depot_options = new_container_options_at_depot@;
        assert(depot_options == depot_options_of(cv.2, *truck));
        let new_recursive_call = new_container_options_at_depot.len() != 0;
        let route_can_be_finished = !current_state.is_carrying_full_container();
        // the compatibility masks hold 32 container options
        if (route_can_be_finished || new_container_options_at_depot.len() > 0)
            && new_container_options_at_depot.len() <= 32 {
            proof {
                assert(current_state.sources_at_arrival(*config, 0) is Some);
            }
            match SearchState::route_to_node(
                config,
                truck,
                current_state,
                0,
                new_container_options_at_depot,
            ) {
                Option::None => {
                    proof {
                        assert(current_state.route_paths(*config, *truck, 0, depot_options) == route_paths_of(
                            cv.1,
                            *config,
                            *truck,
                            0,
                            depot_options,
                        ));
                        assert(next_view(cv, *config, *truck, 0, depot_options) is None);
                        assert(search_move(cv, *config, *truck, 0) is None);
                    }
                },
                Option::Some(state) => {
                    proof {
                        lemma_step_view(&**current_state, &*state, *config, *truck, 0, depot_options);
                        assert(search_move(cv, *config, *truck, 0) == Some(state.state_view()));
                    }
                    let ghost w = state.state_view();
                    let ghost before_add = known_options.routes();
                    if route_can_be_finished {
                        proof {
                            lemma_valid_well_linked(&*state, *config, *truck);
                        }
                        SearchState::add_route(config, truck, known_options, &state);
                        proof {
                            let after = known_options.routes();
                            let key = state.visited_mask();
                            assert forall|k: u64|
                                #[trigger] after.contains_key(k) && !(before_add.contains_key(k) && before_add[k]
                                    == after[k]) implies exists|moves: Seq<int>|
                                moves.len() > 0 && #[trigger] recorded_state(
                                    after[k],
                                    k,
                                    explored(cv, *config, *truck, moves),
                                ) by {
                                if k != key {
                                    assert(after.remove(key).contains_key(k));
                                    assert(after.remove(key)[k] == after[k]);
                                    assert(before_add.remove(key).contains_key(k));
                                    assert(before_add.remove(key)[k] == before_add[k]);
                                }
                                let moves = seq![0int];
                                assert(explored(cv, *config, *truck, moves) == Some(w));
                                assert(recorded_state(after[k], k, explored(cv, *config, *truck, moves)));
                            }
                            assert(sound_since(before_add, after, cv, *config, *truck));
                            lemma_best_path(&*state, state.paths().len() as int);
                            assert forall|i: int| 0 <= i < w.1.len() implies known_options.routes()[w.4].distance()
                                <= (#[trigger] w.1[i]).0.distance() by {
                                assert(models(state.paths())[i] == state.paths()[i]@);
                            }
                        }
                    }
                    let ghost after_add = known_options.routes();
                    proof {
                        if !route_can_be_finished {
                            lemma_sound_refl(before_add, cv, *config, *truck);
                        }
                    }
                    if new_recursive_call {
                        assert(state.containers().len() == depot_options.len());
                        solve_for_truck_recursive(config, truck, known_options, &state);
                        proof {
                            lemma_sound_lift(after_add, known_options.routes(), cv, w, 0, *config, *truck);
                        }
                    } else {
                        proof {
                            lemma_sound_refl(after_add, cv, *config, *truck);
                        }
                    }
                    proof {
                        lemma_sound_trans(before_add, after_add, known_options.routes(), cv, *config, *truck);
                        assert forall|moves: Seq<int>|
                            moves.len() > 0 && moves[0] == 0 implies #[trigger] records(
                            known_options.routes(),
                            cv,
                            *config,
                            *truck,
                            moves,
                        ) by {
                            if moves.len() == 1 {
                                assert(explored(cv, *config, *truck, moves) == Some(w));
                                if !carrying(w.3) {
                                    assert(route_can_be_finished);
                                    lemma_known_within_kept(after_add, known_options.routes(), w.4, w.1);
                                }
                            } else if new_recursive_call {
                                assert(goes_on(cv, *truck, 0));
                                assert(explored(cv, *config, *truck, moves) == explored(
                                    w,
                                    *config,
                                    *truck,
                                    moves.drop_first(),
                                ));
                                assert(records(known_options.routes(), w, *config, *truck, moves.drop_first()));
                            } else {
                                assert(!goes_on(cv, *truck, 0));
                                assert(explored(cv, *config, *truck, moves) is None);
                            }
                        }
                    }
                },
            }
        } else {
            proof {
                assert(search_move(cv, *config, *truck, 0) is None);
            }
        }
    } else {
        proof {
            assert(search_move(cv, *config, *truck, 0) is None);
        }
    }
    proof {
        if known_options.routes() == start_routes {
            lemma_sound_refl(start_routes, cv, *config, *truck);
        }
        assert(sound_since(start_routes, known_options.routes(), cv, *config, *truck));
        assert forall|moves: Seq<int>| moves.len() > 0 && moves[0] < 1 implies #[trigger] records(
            known_options.routes(),
            cv,
            *config,
            *truck,
            moves,
        ) by {
            if moves[0] < 0 {
                assert(search_move(cv, *config, *truck, moves[0]) is None);
            } else if search_move(cv, *config, *truck, 0) is None {
                assert(explored(cv, *config, *truck, moves) is None);
            }
        }
    }
    let first_afs = config.get_first_afs();
    let mut request_node: usize = 1;
    while request_node < first_afs
        invariant
            config.wf(),
            truck.wf(),
            current_state.valid(*config, *truck),
            current_state.containers().len() > 0,
            current_state.node() != 0 ==> visited(current_state.visited_mask(), current_state.node()),
            first_afs == config.first_afs(),
            1 <= request_node <= first_afs,
            cv == current_state.state_view(),
            forall|k: u64|
                start_routes.contains_key(k) ==> known_options.routes().contains_key(k)
                    && known_options.routes()[k].distance() <= start_routes[k].distance(),
            start_routes == old(known_options).routes(),
            known_options.serve_their_keys(config.first_afs()),
            sound_since(start_routes, known_options.routes(), cv, *config, *truck),
            forall|moves: Seq<int>|
                moves.len() > 0 && moves[0] < request_node ==> #[trigger] records(
                    known_options.routes(),
                    cv,
                    *config,
                    *truck,
                    moves,
                ),
        decreases first_afs - request_node,
    {
        let ghost before = known_options.routes();
        let container_options = current_state.get_container_options_at_node(config, truck, request_node);
        let ghost c = container_options@;
        assert(c == options_at(cv.4, cv.2, *config, *truck, request_node as int));
        if container_options.len() != 0 && current_state.can_track_containers_at(config, request_node) {
            match SearchState::route_to_node(
                config,
                truck,
                current_state,
                request_node,
                container_options,
            ) {
                Option::None => {
                    proof {
                        assert(current_state.route_paths(*config, *truck, request_node as int, c) == route_paths_of(
                            cv.1,
                            *config,
                            *truck,
                            request_node as int,
                            c,
                        ));
                        assert(next_view(cv, *config, *truck, request_node as int, c) is None);
                        assert(search_move(cv, *config, *truck, request_node as int) is None);
                    }
                },
                Option::Some(state) => {
                    proof {
                        lemma_mark_visited(current_state.visited_mask(), request_node as int, request_node as int);
                        lemma_mark_unvisited(current_state.visited_mask(), request_node as int, config.first_afs());
                        lemma_step_view(&**current_state, &*state, *config, *truck, request_node as int, c);
                        assert(search_move(cv, *config, *truck, request_node as int) == Some(state.state_view()));
                    }
                    let ghost w = state.state_view();
                    solve_for_truck_recursive(config, truck, known_options, &state);
                    proof {
                        lemma_sound_lift(before, known_options.routes(), cv, w, request_node as int, *config, *truck);
                        lemma_sound_trans(start_routes, before, known_options.routes(), cv, *config, *truck);
                        assert forall|moves: Seq<int>|
                            moves.len() > 1 && moves[0] == request_node implies #[trigger] records(
                            known_options.routes(),
                            cv,
                            *config,
                            *truck,
                            moves,
                        ) by {
                            assert(goes_on(cv, *truck, moves[0]));
                            assert(explored(cv, *config, *truck, moves) == explored(
                                w,
                                *config,
                                *truck,
                                moves.drop_first(),
                            ));
                            assert(records(known_options.routes(), w, *config, *truck, moves.drop_first()));
                        }
                    }
                },
            };
        } else {
            proof {
                assert(current_state.sources_at_arrival(*config, request_node as int) == arrive_sources(
                    cv.3,
                    *config,
                    request_node as int,
                ));
                assert(search_move(cv, *config, *truck, request_node as int) is None);
            }
        }
        proof {
            assert forall|moves: Seq<int>| moves.len() > 0 && moves[0] < request_node + 1 implies #[trigger] records(
                known_options.routes(),
                cv,
                *config,
                *truck,
                moves,
            ) by {
                if moves[0] < request_node {
                    assert(records(before, cv, *config, *truck, moves));
                    lemma_records_kept(before, known_options.routes(), cv, *config, *truck, moves);
                } else if moves.len() == 1 {
                    if let Some(w) = search_move(cv, *config, *truck, moves[0]) {
                        assert(w.0 == moves[0]);
                    }
                } else if search_move(cv, *config, *truck, moves[0]) is None {
                    assert(explored(cv, *config, *truck, moves) is None);
                }
            }
        }
        request_node = request_node + 1;
    }
    proof {
        assert forall|moves: Seq<int>| moves.len() > 0 implies #[trigger] records(
            known_options.routes(),
            cv,
            *config,
            *truck,
            moves,
        ) by {
            if moves[0] >= first_afs {
                assert(search_move(cv, *config, *truck, moves[0]) is None);
                assert(explored(cv, *config, *truck, moves) is None);
            }
        }
    }
}

/// The state that `route_to_node` reaches from `current` is the one that `next_view` gives.
proof fn lemma_step_view(
    current: &SearchState,
    s: &SearchState,
    config: Config,
    truck: Truck,
    node: int,
    c: Seq<ContainerOption>,
)
    requires
        s.node() == node,
        models(s.paths()) == current.route_paths(config, truck, node, c),
        s.containers() == record_paths(c, current.route_paths(config, truck, node, c)),
        Some(s.sources()) == current.sources_at_arrival(config, node),
        s.visited_mask() == current.visited_after(node),
        s.previous() == Some(*current),
        current.route_paths(config, truck, node, c).len() > 0,
    ensures
        next_view(current.state_view(), config, truck, node, c) == Some(s.state_view()),
{
    let routes = child_routes(current.state_view(), node, models(s.paths()), s.containers());
    assert forall|pi: int, ci: int| #[trigger] s.route_nodes(pi, ci) == routes(pi, ci) by {
    }
    assert(s.state_view().5 =~= routes);
    assert(current.route_paths(config, truck, node, c) == route_paths_of(
        current.state_view().1,
        config,
        truck,
        node,
        c,
    ));
    assert(current.sources_at_arrival(config, node) == arrive_sources(current.state_view().3, config, node));
}

impl SearchState {
    /// Offers the best route of `state`, a state at the depot of a chain built by the search,
    /// to `known_options` (see `KnownRoutesForTruck::possibly_add`).
    fn add_route(config: &Config, truck: &Truck, known_options: &mut KnownRoutesForTruck, state: &Rc<SearchState>)
        requires
            config.wf(),
            state.valid(*config, *truck),
            state.node() == 0,
            !state.is_carrying_spec(),
            old(known_options).serve_their_keys(config.first_afs()),
        ensures
            final(known_options).routes() == old(known_options).routes() || ({
                let key = state.visited_mask();
                &&& final(known_options).routes().contains_key(key)
                &&& final(known_options).routes()[key].nodes() == state.route_nodes(
                    state.best_path().0,
                    NO_CONTAINER_INDEX as int,
                )
                &&& final(known_options).routes()[key].distance() == state.best_path().1
                &&& final(known_options).routes().remove(key) == old(known_options).routes().remove(key)
            }),
            final(known_options).serve_their_keys(config.first_afs()),
            forall|k: u64|
                old(known_options).routes().contains_key(k) ==> final(known_options).routes().contains_key(k)
                    && final(known_options).routes()[k].distance() <= old(known_options).routes()[k].distance(),
            !state.is_carrying_spec() ==> final(known_options).routes().contains_key(state.visited_mask())
                && final(known_options).routes()[state.visited_mask()].distance() <= state.best_path().1,
    {
        proof {
            lemma_valid_well_linked(&**state, *config, *truck);
            lemma_best_path(&**state, state.paths().len() as int);
            lemma_route_requests(&**state, *config, *truck, state.best_path().0, NO_CONTAINER_INDEX as int);
            lemma_route_ends_off_requests(&**state, *config, *truck, state.best_path().0, NO_CONTAINER_INDEX as int);
        }
        let ghost before = known_options.routes();
        known_options.possibly_add(state);
        proof {
            lemma_add_keeps_serving(
                before,
                known_options.routes(),
                state.visited_mask(),
                state.route_nodes(state.best_path().0, NO_CONTAINER_INDEX as int),
                config.first_afs(),
            );
        }
    }
}

/// The best known route for each set of visited requests for the truck at `truck_index`.
pub fn solve_for_truck(config: &Config, truck_index: usize) -> (r: KnownRoutesForTruck)
    requires
        config.wf(),
        truck_index < config.trucks().len(),
    ensures
        r.routes().contains_key(0),
        r.serve_their_keys(config.first_afs()),
        forall|moves: Seq<int>|
            #[trigger] records(
                r.routes(),
                start_view(*config, config.trucks()[truck_index as int]),
                *config,
                config.trucks()[truck_index as int],
                moves,
            ),
        all_recorded(
            r.routes(),
            start_view(*config, config.trucks()[truck_index as int]),
            *config,
            config.trucks()[truck_index as int],
        ),
{
    let truck = config.get_truck(truck_index);
    let root_state = SearchState::start_state(config, truck);
    let ghost root = root_state.state_view();
    assert(root == start_view(*config, *truck));
    let mut known_options = KnownRoutesForTruck::new();
    proof {
        lemma_valid_well_linked(&*root_state, *config, *truck);
    }
    SearchState::add_route(config, truck, &mut known_options, &root_state);
    proof {
        lemma_best_path(&*root_state, root_state.paths().len() as int);
        assert forall|i: int| 0 <= i < root.1.len() implies known_options.routes()[root.4].distance()
            <= (#[trigger] root.1[i]).0.distance() by {
            assert(models(root_state.paths())[i] == root_state.paths()[i]@);
        }
    }
    let ghost after_add = known_options.routes();
    proof {
        assert forall|k: u64| #[trigger] after_add.contains_key(k) implies exists|moves: Seq<int>|
            #[trigger] recorded_state(after_add[k], k, explored(root, *config, *truck, moves)) by {
            if k != root.4 {
                assert(after_add.remove(root.4).contains_key(k));
                assert(Map::<u64, Rc<Route>>::empty().remove(root.4) =~= Map::<u64, Rc<Route>>::empty());
                assert(false);
            }
            let moves = Seq::<int>::empty();
            assert(explored(root, *config, *truck, moves) == Some(root));
            assert(recorded_state(after_add[k], k, explored(root, *config, *truck, moves)));
        }
    }
    solve_for_truck_recursive(config, truck, &mut known_options, &root_state);
    proof {
        let fin = known_options.routes();
        assert forall|k: u64| #[trigger] fin.contains_key(k) implies exists|moves: Seq<int>|
            #[trigger] recorded_state(fin[k], k, explored(root, *config, *truck, moves)) by {
            if after_add.contains_key(k) && after_add[k] == fin[k] {
                assert(after_add.contains_key(k));
            } else {
                assert(fin.contains_key(k) && !(after_add.contains_key(k) && after_add[k] == fin[k]));
            }
        }
        assert forall|moves: Seq<int>|
            #[trigger] records(known_options.routes(), root, *config, *truck, moves) by {
            if moves.len() == 0 {
                lemma_known_within_kept(after_add, known_options.routes(), root.4, root.1);
            }
        }
    }
    known_options
}

/// The start state of the search for `truck` (see `SearchState::start_state`).
pub open spec fn start_view(config: Config, truck: Truck) -> StateView {
    let c = start_options_from(truck, 0, 0);
    let paths = start_paths_from(config, truck, c, Seq::empty(), 2);
    let cc = record_paths(c, paths);
    (
        0,
        paths,
        cc,
        (0, 0),
        0,
        |path_index: int, container_index: int|
            if container_index != NO_CONTAINER_INDEX {
                seq![0u8] + repeated(ROUTE_DEPOT_LOAD_20, cc[container_index].empty_20()) + repeated(
                    ROUTE_DEPOT_LOAD_40,
                    cc[container_index].empty_40(),
                )
            } else {
                seq![0u8]
            },
    )
}

/// The routes `routes` are what `solve_for_truck` gives for the truck at `index`: the
/// empty route is among them, each serves exactly the requests of its key, and every state at
/// the depot without a full container that the search reaches from the truck's start state
/// is recorded, and every route is the one recorded for such a state.
pub open spec fn truck_routes(config: Config, index: int, routes: Map<u64, Rc<Route>>) -> bool {
    &&& routes.contains_key(0)
    &&& forall|k: u64| routes.contains_key(k) ==> serves_key(#[trigger] routes[k].nodes(), k, config.first_afs())
    &&& forall|moves: Seq<int>|
        #[trigger] records(routes, start_view(config, config.trucks()[index]), config, config.trucks()[index], moves)
    &&& all_recorded(routes, start_view(config, config.trucks()[index]), config, config.trucks()[index])
}

/// `result` is what the first merge makes of `routes`: one combination of one route each.
pub open spec fn first_merge(routes: Map<u64, Rc<Route>>, result: Map<u64, CombinationOption>) -> bool {
    &&& forall|k: u64| result.contains_key(k) <==> routes.contains_key(k)
    &&& forall|k: u64|
        routes.contains_key(k) ==> #[trigger] result[k].distance() == routes[k].distance() && result[k].route_list()
            == seq![routes[k]]
}

/// `result` is what a later merge makes of `own` and `other`: each combination joins one of
/// `own` and one route of `other` that share no request, and for each such pair the
/// combination kept for their requests is no longer.
pub open spec fn later_merge(
    own: Map<u64, CombinationOption>,
    other: Map<u64, Rc<Route>>,
    result: Map<u64, CombinationOption>,
) -> bool {
    &&& forall|k: u64| result.contains_key(k) ==> merged_entry(own, other, k, #[trigger] result[k])
    &&& forall|a: u64, b: u64|
        #[trigger] combines(own, other, a, b) ==> result.contains_key(a | b) && result[a | b].distance()
            <= own[a].distance() + other[b].distance()
}

/// The combinations `merged[i]` are the merges of the routes `routes[0]` to `routes[i]`.
pub open spec fn merged_in_turn(routes: Seq<Map<u64, Rc<Route>>>, merged: Seq<Map<u64, CombinationOption>>) -> bool {
    &&& routes.len() > 0
    &&& merged.len() == routes.len()
    &&& first_merge(routes[0], merged[0])
    &&& forall|i: int| 0 <= i < routes.len() - 1 ==> later_merge(merged[i], routes[i + 1], #[trigger] merged[i + 1])
}

/// Searches the routes of each truck and merges them into the best known combinations; a
/// truck equal to the one before reuses its routes. The combinations are the merges, in
/// turn, of routes that are what the search gives for each truck. Every combination holds one route per
/// truck, and the one in which no truck serves a request is always among them.
#[verifier::spinoff_prover]
#[verifier::rlimit(40)]
pub fn solve(config: &Config, verbose: bool) -> (r: AllKnownOptions)
    requires
        config.wf(),
        config.trucks().len() > 0,
    ensures
        r.wf(),
        r.verbose_spec() == verbose,
        verbose ==> r.summaries().len() == config.trucks().len() - 1,
        !verbose ==> r.summaries().len() == 0,
        r.trucks_next() == config.trucks().len() + 1,
        r.options().contains_key(0),
        forall|k: u64|
            r.options().contains_key(k) ==> #[trigger] r.options()[k].route_list().len()
                == config.trucks().len(),
        r.serve_their_keys(config.first_afs()),
        exists|routes: Seq<Map<u64, Rc<Route>>>, merged: Seq<Map<u64, CombinationOption>>|
            #[trigger] merged_in_turn(routes, merged) && routes.len() == config.trucks().len() && (forall|i: int|
                0 <= i < routes.len() ==> truck_routes(*config, i, #[trigger] routes[i])) && r.options()
                == merged.last() && (verbose ==> forall|i: int|
                0 <= i < routes.len() - 1 ==> #[trigger] r.summaries()[i] == merge_summary_of(
                    merged[i],
                    routes[i + 1],
                    merged[i + 1],
                )),
{
    let mut all_known_options = AllKnownOptions::new(verbose);
    let mut options_for_truck = solve_for_truck(config, 0);
    all_known_options.inital_merge(&options_for_truck);
    let ghost mut routes: Seq<Map<u64, Rc<Route>>> = seq![options_for_truck.routes()];
    let ghost mut merged: Seq<Map<u64, CombinationOption>> = seq![all_known_options.options()];
    proof {
        assert(truck_routes(*config, 0, routes[0]));
        assert(first_merge(routes[0], merged[0]));
        assert(merged_in_turn(routes, merged));
        assert forall|k: u64| all_known_options.options().contains_key(k) implies routes_serve(
            node_lists(#[trigger] all_known_options.options()[k].route_list()),
            k,
            config.first_afs(),
        ) by {
            lemma_single_route_serves(options_for_truck.routes()[k], k, config.first_afs());
        }
    }
    let mut truck_index: usize = 1;
    while truck_index < config.get_num_trucks()
        invariant
            config.wf(),
            1 <= truck_index <= config.trucks().len(),
            all_known_options.wf(),
            all_known_options.trucks_next() == truck_index + 1,
            all_known_options.verbose_spec() == verbose,
            verbose ==> all_known_options.summaries().len() == truck_index - 1,
            !verbose ==> all_known_options.summaries().len() == 0,
            verbose ==> forall|i: int|
                0 <= i < truck_index - 1 ==> #[trigger] all_known_options.summaries()[i] == merge_summary_of(
                    merged[i],
                    routes[i + 1],
                    merged[i + 1],
                ),
            all_known_options.options().contains_key(0),
            options_for_truck.routes().contains_key(0),
            all_known_options.serve_their_keys(config.first_afs()),
            options_for_truck.serve_their_keys(config.first_afs()),
            merged_in_turn(routes, merged),
            routes.len() == truck_index,
            forall|i: int| 0 <= i < routes.len() ==> truck_routes(*config, i, #[trigger] routes[i]),
            all_known_options.options() == merged.last(),
            options_for_truck.routes() == routes.last(),
        decreases config.trucks().len() - truck_index,
    {
        let current_truck = config.get_truck(truck_index);
        if config.get_truck(truck_index - 1) != current_truck {
            options_for_truck = solve_for_truck(config, truck_index);
        } else {
            proof {
                assert(config.trucks()[truck_index - 1] == config.trucks()[truck_index as int]);
                assert(truck_routes(*config, truck_index - 1, routes[truck_index - 1]));
                assert forall|moves: Seq<int>|
                    #[trigger] records(
                        options_for_truck.routes(),
                        start_view(*config, config.trucks()[truck_index as int]),
                        *config,
                        config.trucks()[truck_index as int],
                        moves,
                    ) by {
                    assert(records(
                        routes[truck_index - 1],
                        start_view(*config, config.trucks()[truck_index - 1]),
                        *config,
                        config.trucks()[truck_index - 1],
                        moves,
                    ));
                }
            }
        }
        proof {
            assert(truck_routes(*config, truck_index as int, options_for_truck.routes()));
        }
        proof {
            assert(0u64 & 0u64 == 0u64 && 0u64 | 0u64 == 0u64) by (bit_vector);
            assert(combines(all_known_options.options(), options_for_truck.routes(), 0, 0));
        }
        let ghost own = all_known_options.options();
        all_known_options.subsequent_merge(&options_for_truck);
        proof {
            assert forall|k: u64| all_known_options.options().contains_key(k) implies routes_serve(
                node_lists(#[trigger] all_known_options.options()[k].route_list()),
                k,
                config.first_afs(),
            ) by {
                lemma_merged_entry_serves(
                    own,
                    options_for_truck.routes(),
                    k,
                    all_known_options.options()[k],
                    config.first_afs(),
                );
            }
            let old_routes = routes;
            let old_merged = merged;
            routes = routes.push(options_for_truck.routes());
            merged = merged.push(all_known_options.options());
            assert(later_merge(old_merged.last(), options_for_truck.routes(), all_known_options.options()));
            assert forall|i: int| 0 <= i < routes.len() - 1 implies later_merge(
                merged[i],
                routes[i + 1],
                #[trigger] merged[i + 1],
            ) by {
                if i < old_routes.len() - 1 {
                    assert(merged[i] == old_merged[i] && routes[i + 1] == old_routes[i + 1] && merged[i + 1]
                        == old_merged[i + 1]);
                } else {
                    assert(merged[i] == old_merged.last());
                }
            }
            assert forall|i: int| 0 <= i < routes.len() implies truck_routes(*config, i, #[trigger] routes[i]) by {
                if i < old_routes.len() {
                    assert(routes[i] == old_routes[i]);
                }
            }
            assert(merged_in_turn(routes, merged));
            if verbose {
                assert forall|i: int| 0 <= i < truck_index implies #[trigger] all_known_options.summaries()[i]
                    == merge_summary_of(merged[i], routes[i + 1], merged[i + 1]) by {
                    if i < truck_index - 1 {
                        assert(merged[i] == old_merged[i] && routes[i + 1] == old_routes[i + 1] && merged[i + 1]
                            == old_merged[i + 1]);
                    } else {
                        assert(merged[i] == own && routes[i + 1] == options_for_truck.routes());
                    }
                }
            }
        }
        truck_index = truck_index + 1;
    }
    proof {
        assert(merged_in_turn(routes, merged));
    }
    all_known_options
}

// ---------------------------------------------------------------------------------------------
// The solution
// ---------------------------------------------------------------------------------------------

/// The key of the combinations that visit every request: the low `first_afs - 1` bits.
pub open spec fn solution_key(config: Config) -> u64 {
    u64::MAX >> ((64 - (config.first_afs() - 1)) as u64)
}

/// The solution key marks exactly the request nodes.
pub proof fn lemma_solution_key(config: Config, node: int)
    requires
        2 <= config.first_afs() <= 64,
        1 <= node < 64,
    ensures
        visited(solution_key(config), node) <==> node < config.first_afs(),
{
    let shift = (64 - (config.first_afs() - 1)) as u64;
    let bit = (node - 1) as u64;
    assert(1 <= shift <= 63 && bit < 63 ==> ((u64::MAX >> shift) & (1u64 << bit) != 0 <==> bit < 64 - shift))
        by (bit_vector);
}

/// A route as the solution gives it: its last node, if it has more than one, is the dummy
/// depot `dummy_depot` (as a `u8`).
pub open spec fn with_dummy_depot(nodes: Seq<u8>, dummy_depot: int) -> Seq<u8> {
    if nodes.len() > 1 {
        nodes.update(nodes.len() - 1, dummy_depot as u8)
    } else {
        nodes
    }
}

/// The routes as the solution gives them (see `with_dummy_depot`).
pub open spec fn solution_routes(routes: Seq<Rc<Route>>, dummy_depot: int) -> Seq<Seq<u8>> {
    routes.map_values(|route: Rc<Route>| with_dummy_depot(route.nodes(), dummy_depot))
}

/// Some route of `routes` passes request node `n`.
pub open spec fn some_route_passes(routes: Seq<Seq<u8>>, n: int, first_afs: int) -> bool {
    exists|i: int| 0 <= i < routes.len() && #[trigger] passes(routes[i], n, first_afs)
}

/// Every request node (`1..first_afs`) is passed by exactly one of the routes, and only once
/// there.
pub open spec fn serves_every_request(routes: Seq<Seq<u8>>, first_afs: int) -> bool {
    &&& forall|i: int| 0 <= i < routes.len() ==> served(#[trigger] routes[i], first_afs).no_duplicates()
    &&& forall|n: int| 1 <= n < first_afs ==> #[trigger] some_route_passes(routes, n, first_afs)
    &&& forall|n: int, i: int, j: int|
        1 <= n < first_afs && 0 <= i < j < routes.len() && #[trigger] passes(routes[i], n, first_afs)
            ==> !#[trigger] passes(routes[j], n, first_afs)
}

/// Writing the dummy depot over the last node of a route that does not end at a request
/// node leaves the requests it serves as they were.
proof fn lemma_dummy_depot_keeps_requests(nodes: Seq<u8>, dummy_depot: int, first_afs: int)
    requires
        nodes.len() > 0,
        !request_byte(first_afs)(nodes.last()),
        first_afs <= dummy_depot < 256,
    ensures
        served(with_dummy_depot(nodes, dummy_depot), first_afs) == served(nodes, first_afs),
{
    broadcast use Seq::lemma_filter_push;

    if nodes.len() > 1 {
        let t = nodes.drop_last();
        assert(nodes == t.push(nodes.last()));
        assert(with_dummy_depot(nodes, dummy_depot) == t.push(dummy_depot as u8));
    }
}

/// The routes of a combination that serves the solution key, as the solution gives them,
/// serve every request exactly once.
proof fn lemma_solution_serves(routes: Seq<Rc<Route>>, config: Config)
    requires
        2 <= config.first_afs() <= 64,
        config.first_afs() < config.dimension() <= MAX_MATRIX_DIMENSION,
        routes_serve(node_lists(routes), solution_key(config), config.first_afs()),
    ensures
        serves_every_request(solution_routes(routes, config.dimension() as int), config.first_afs()),
{
    let fa = config.first_afs();
    let given = solution_routes(routes, config.dimension() as int);
    let lists = node_lists(routes);
    assert forall|i: int| 0 <= i < given.len() implies served(#[trigger] given[i], fa) == served(lists[i], fa) by {
        assert(given[i] == with_dummy_depot(routes[i].nodes(), config.dimension() as int));
        assert(lists[i] == routes[i].nodes());
        assert(served(lists[i], fa).no_duplicates() && lists[i].len() > 0 && !request_byte(fa)(lists[i].last()));
        lemma_dummy_depot_keeps_requests(lists[i], config.dimension() as int, fa);
    }
    assert forall|i: int| 0 <= i < given.len() implies served(#[trigger] given[i], fa).no_duplicates() by {
        assert(served(given[i], fa) == served(lists[i], fa));
    }
    assert forall|n: int| 1 <= n < fa implies #[trigger] some_route_passes(given, n, fa) by {
        lemma_solution_key(config, n);
        let i = choose|i: int| 0 <= i < lists.len() && #[trigger] passes(lists[i], n, fa);
        assert(served(given[i], fa) == served(lists[i], fa));
        assert(passes(given[i], n, fa));
    }
    assert forall|n: int, i: int, j: int|
        1 <= n < fa && 0 <= i < j < given.len() && #[trigger] passes(given[i], n, fa) implies !#[trigger] passes(
        given[j],
        n,
        fa,
    ) by {
        assert(served(given[i], fa) == served(lists[i], fa));
        assert(served(given[j], fa) == served(lists[j], fa));
        assert(passes(lists[i], n, fa));
        assert(!passes(lists[j], n, fa));
    }
}

impl AllKnownOptions {
    /// The combination that visits every request, its routes ending at the dummy depot;
    /// no routes and distance 0 when there is none. When every combination serves its
    /// key (as those of `solve` do), the solution serves every request exactly once.
    pub fn get_solution(&self, config: Config, seconds_taken: u64) -> (r: Solution)
        requires
            2 <= config.first_afs() <= 64,
            config.dimension() <= MAX_MATRIX_DIMENSION,
        ensures
            r.seconds() == seconds_taken,
            self.options().contains_key(solution_key(config)) ==> {
                let option = self.options()[solution_key(config)];
                &&& r.route_nodes() == solution_routes(option.route_list(), config.dimension() as int)
                &&& r.distance() == option.distance()
            },
            !self.options().contains_key(solution_key(config)) ==> r.route_nodes().len() == 0 && r.distance() == 0,
            self.serve_their_keys(config.first_afs()) && self.options().contains_key(solution_key(config))
                ==> serves_every_request(r.route_nodes(), config.first_afs()),
    {
        broadcast use vstd::std_specs::hash::group_hash_axioms;

        proof {
            config.lemma_dimension_positive();
        }
        let num_requests = config.get_first_afs() - 1;
        let solution_key: u64 = u64::MAX >> ((64 - num_requests) as u64);
        let comb_option = match self.option_map.get(&solution_key) {
            Option::None => {
                let routes: Vec<Vec<u8>> = Vec::new();
                let r = Solution::new(routes, 0, seconds_taken);
                assert(r.route_nodes() =~= Seq::<Seq<u8>>::empty());
                return r;
            },
            Option::Some(option) => option,
        };
        let dummy_depot = config.get_dummy_depot() as u8;
        let ghost target = comb_option.routes@.map_values(
            |route: Rc<Route>| with_dummy_depot(route.nodes(), config.dimension() as int),
        );
        let mut route_vec: Vec<Vec<u8>> = Vec::new();
        let mut index: usize = 0;
        while index < comb_option.routes.len()
            invariant
                index <= comb_option.routes@.len(),
                dummy_depot == config.dimension() as u8,
                target == comb_option.routes@.map_values(
                    |route: Rc<Route>| with_dummy_depot(route.nodes(), config.dimension() as int),
                ),
                route_vec@.map_values(|v: Vec<u8>| v@) == target.take(index as int),
                route_vec@.len() == index,
            decreases comb_option.routes@.len() - index,
        {
            let route = &comb_option.routes[index];
            let mut path_copy: Vec<u8> = Vec::new();
            let mut i: usize = 0;
            while i < route.path.len()
                invariant
                    i <= route.path@.len(),
                    path_copy@ == route.path@.take(i as int),
                decreases route.path@.len() - i,
            {
                path_copy.push(route.path[i]);
                assert(route.path@.take(i + 1) =~= route.path@.take(i as int).push(route.path@[i as int]));
                i = i + 1;
            }
            assert(route.path@.take(route.path@.len() as int) =~= route.path@);
            let path_len = path_copy.len();
            if path_len > 1 {
                path_copy.set(path_len - 1, dummy_depot);
            }
            assert(path_copy@ =~= with_dummy_depot(route.nodes(), config.dimension() as int));
            let ghost before = route_vec@;
            let ghost copied = path_copy@;
            route_vec.push(path_copy);
            proof {
                assert(target[index as int] == with_dummy_depot(route.nodes(), config.dimension() as int));
                assert(route_vec@ == before.push(route_vec@[index as int]));
                assert(route_vec@[index as int]@ == copied);
                assert(before.map_values(|v: Vec<u8>| v@) == target.take(index as int));
                assert(route_vec@.map_values(|v: Vec<u8>| v@) =~= target.take(index + 1));
            }
            index = index + 1;
        }
        assert(target.take(index as int) =~= target);
        proof {
            assert(target == solution_routes(comb_option.routes@, config.dimension() as int));
            if self.serve_their_keys(config.first_afs()) {
                let key = self::solution_key(config);
                assert(self.options().contains_key(key));
                assert(comb_option.routes@ == self.options()[key].route_list());
                assert(routes_serve(node_lists(self.options()[key].route_list()), key, config.first_afs()));
                lemma_solution_serves(comb_option.routes@, config);
            }
        }
        return Solution::new(route_vec, comb_option.total_distance, seconds_taken);
    }
}

} // verus!
