//! The instance format: an instance given as a list of numbers, in this order: the number of
//! trucks and, per truck, its 20 and 40 foot capacities and its fuel in litres; the distance
//! matrix and then the time matrix, row by row; the depot service time; per request node its
//! service time, then per request node its earliest and then its latest visiting time; per
//! request node its full 20, empty 20, full 40 and empty 40 changes; and, if the list goes
//! on, the latest time at which any node may be reached.
use vstd::prelude::*;

use crate::data::{Config, ContainerRequest, Truck, trucks_sorted};

verus! {

/// Every number of `s` fits a `u32`.
pub open spec fn all_u32(s: Seq<i64>) -> bool {
    forall|i: int| 0 <= i < s.len() ==> 0 <= #[trigger] s[i] <= u32::MAX
}

/// Every number of `s` fits an `i32`.
pub open spec fn all_i32(s: Seq<i64>) -> bool {
    forall|i: int| 0 <= i < s.len() ==> i32::MIN <= #[trigger] s[i] <= i32::MAX
}

/// The numbers of `s` as `u32`s.
pub open spec fn u32_values(s: Seq<i64>) -> Seq<u32> {
    Seq::new(s.len(), |i: int| s[i] as u32)
}

/// The requests that `s` lists, four numbers each.
pub open spec fn request_values(s: Seq<i64>) -> Seq<ContainerRequest> {
    Seq::new(
        s.len() / 4,
        |i: int|
            ContainerRequest {
                full_20: s[4 * i] as i32,
                empty_20: s[4 * i + 1] as i32,
                full_40: s[4 * i + 2] as i32,
                empty_40: s[4 * i + 3] as i32,
            },
    )
}

/// Where the parts of the list begin, for `trucks` trucks, `requests` request nodes and
/// matrices of dimension `dimension`: the distances, the times, the depot service time, the
/// service times, the earliest and the latest visiting times, the requests, and the end.
pub open spec fn layout(trucks: int, requests: int, dimension: int) -> (int, int, int, int, int, int, int, int) {
    let distances = 1 + 3 * trucks;
    let times = distances + dimension * dimension;
    let depot = times + dimension * dimension;
    let service = depot + 1;
    let earliest = service + requests;
    let latest = earliest + requests;
    let request_start = latest + requests;
    (distances, times, depot, service, earliest, latest, request_start, request_start + 4 * requests)
}

/// The list describes an instance with these counts: it is long enough, and every number
/// fits the field it fills (a fuel capacity in hundredths of a litre fits a `u32`).
pub open spec fn numbers_fit(
    full_pickup: int,
    empty_pickup: int,
    empty_delivery: int,
    afs: int,
    s: Seq<i64>,
) -> bool {
    let requests = 2 * full_pickup + empty_pickup + empty_delivery;
    let l = layout(s[0] as int, requests, requests + afs + 2);
    &&& s.len() >= 1
    &&& 0 <= s[0]
    &&& l.7 <= s.len()
    &&& forall|i: int|
        0 <= i < s[0] ==> i32::MIN <= #[trigger] s[1 + 3 * i] <= i32::MAX && i32::MIN <= s[2 + 3 * i]
            <= i32::MAX && 0 <= s[3 + 3 * i] <= u32::MAX / 100
    &&& all_u32(s.subrange(l.0, l.3))
    &&& all_u32(s.subrange(l.3, l.6))
    &&& all_i32(s.subrange(l.6, l.7))
    &&& l.7 < s.len() ==> 0 <= s[l.7] <= u32::MAX
}

/// `c` is the instance that the list gives: the counts, the trucks (in the order of
/// `Config::new`), the matrices, the times, the requests and the time limit.
pub open spec fn numbers_give(
    c: Config,
    full_pickup: int,
    empty_pickup: int,
    empty_delivery: int,
    afs: int,
    s: Seq<i64>,
) -> bool {
    let requests = 2 * full_pickup + empty_pickup + empty_delivery;
    let l = layout(s[0] as int, requests, requests + afs + 2);
    &&& c.full_pickups() == full_pickup
    &&& c.empty_pickups() == empty_pickup
    &&& c.empty_deliveries() == empty_delivery
    &&& c.afs_count() == afs
    &&& trucks_sorted(c.trucks())
    &&& exists|ts: Seq<Truck>|
        {
            &&& ts.len() == s[0]
            &&& forall|i: int|
                0 <= i < ts.len() ==> (#[trigger] ts[i]).num_20() == s[1 + 3 * i] && ts[i].num_40() == s[2 + 3
                    * i] && ts[i].fuel_capacity() == 100 * s[3 + 3 * i]
            &&& c.trucks().to_multiset() == ts.to_multiset()
        }
    &&& c.distances() == u32_values(s.subrange(l.0, l.1))
    &&& c.times() == u32_values(s.subrange(l.1, l.2))
    &&& c.depot_service() == s[l.2]
    &&& c.service_times() == u32_values(s.subrange(l.3, l.4))
    &&& c.earliest_times() == u32_values(s.subrange(l.4, l.5))
    &&& c.latest_times() == u32_values(s.subrange(l.5, l.6))
    &&& c.requests() == request_values(s.subrange(l.6, l.7))
    &&& c.time_limit() == if l.7 < s.len() {
        s[l.7] as int
    } else {
        u32::MAX as int
    }
}

/// The numbers from `start` on, `count` of them, as `u32`s; `None` when one does not fit.
fn u32s_from(numbers: &Vec<i64>, start: usize, count: usize) -> (r: Option<Vec<u32>>)
    requires
        start + count <= numbers@.len(),
    ensures
        r is Some <==> all_u32(numbers@.subrange(start as int, start + count)),
        r is Some ==> r.unwrap()@ == u32_values(numbers@.subrange(start as int, start + count)),
{
    let ghost whole = numbers@.subrange(start as int, start + count);
    let len = numbers.len();
    let mut values: Vec<u32> = Vec::new();
    let mut i: usize = 0;
    while i < count
        invariant
            start + count <= numbers@.len(),
            len == numbers@.len(),
            i <= count,
            whole == numbers@.subrange(start as int, start + count),
            all_u32(whole.take(i as int)),
            values@ == u32_values(whole.take(i as int)),
        decreases count - i,
    {
        let x = numbers[start + i];
        assert(whole[i as int] == x);
        if x < 0 || x > 4294967295i64 {
            return None;
        }
        values.push(x as u32);
        assert(whole.take(i + 1) =~= whole.take(i as int).push(x));
        assert(values@ =~= u32_values(whole.take(i + 1)));
        i = i + 1;
    }
    assert(whole.take(count as int) =~= whole);
    Some(values)
}

/// The requests from `start` on, `count` of them, four numbers each; `None` when a number does
/// not fit an `i32`.
fn requests_from(numbers: &Vec<i64>, start: usize, count: usize) -> (r: Option<Vec<ContainerRequest>>)
    requires
        start + 4 * count <= numbers@.len(),
    ensures
        r is Some <==> all_i32(numbers@.subrange(start as int, start + 4 * count)),
        r is Some ==> r.unwrap()@ == request_values(numbers@.subrange(start as int, start + 4 * count)),
{
    let ghost whole = numbers@.subrange(start as int, start + 4 * count);
    let len = numbers.len();
    let mut requests: Vec<ContainerRequest> = Vec::new();
    let mut i: usize = 0;
    while i < count
        invariant
            start + 4 * count <= numbers@.len(),
            len == numbers@.len(),
            i <= count,
            whole == numbers@.subrange(start as int, start + 4 * count),
            all_i32(whole.take(4 * i)),
            requests@ == request_values(whole.take(4 * i)),
        decreases count - i,
    {
        let base = start + 4 * i;
        let a = numbers[base];
        let b = numbers[base + 1];
        let c = numbers[base + 2];
        let d = numbers[base + 3];
        assert(whole[4 * i] == a && whole[4 * i + 1] == b && whole[4 * i + 2] == c && whole[4 * i + 3] == d);
        if a < -2147483648i64 || a > 2147483647i64 || b < -2147483648i64 || b > 2147483647i64 || c
            < -2147483648i64 || c > 2147483647i64 || d < -2147483648i64 || d > 2147483647i64 {
            return None;
        }
        requests.push(ContainerRequest { full_20: a as i32, empty_20: b as i32, full_40: c as i32, empty_40: d as i32 });
        let ghost next = whole.take(4 * i + 4);
        assert(next =~= whole.take(4 * i) + seq![a, b, c, d]);
        assert forall|k: int| 0 <= k < next.len() implies i32::MIN <= #[trigger] next[k] <= i32::MAX by {
            if k < 4 * i {
                assert(next[k] == whole.take(4 * i)[k]);
            }
        }
        assert(request_values(next).len() == i + 1);
        assert forall|k: int| 0 <= k < i + 1 implies #[trigger] request_values(next)[k] == requests@[k] by {
            if k < i {
                assert(next[4 * k] == whole.take(4 * i)[4 * k]);
                assert(next[4 * k + 1] == whole.take(4 * i)[4 * k + 1]);
                assert(next[4 * k + 2] == whole.take(4 * i)[4 * k + 2]);
                assert(next[4 * k + 3] == whole.take(4 * i)[4 * k + 3]);
                assert(request_values(whole.take(4 * i))[k] == requests@[k]);
            }
        }
        assert(requests@ =~= request_values(next));
        i = i + 1;
    }
    assert(whole.take(4 * count) =~= whole);
    Some(requests)
}

/// The instance that `numbers` describes for the given counts (see the module's text);
/// `None` exactly when the list is too short or a number does not fit its field.
pub fn config_from_numbers(
    full_pickup: usize,
    empty_pickup: usize,
    empty_delivery: usize,
    afs: usize,
    numbers: &Vec<i64>,
) -> (r: Option<Config>)
    requires
        2 * full_pickup + empty_pickup + empty_delivery + afs + 2 <= usize::MAX,
    ensures
        r is Some <==> numbers_fit(full_pickup as int, empty_pickup as int, empty_delivery as int, afs as int, numbers@),
        r is Some ==> numbers_give(
            r.unwrap(),
            full_pickup as int,
            empty_pickup as int,
            empty_delivery as int,
            afs as int,
            numbers@,
        ),
{
    let ghost s = numbers@;
    let len = numbers.len();
    if len == 0 {
        return None;
    }
    let num_trucks = numbers[0];
    if num_trucks < 0 {
        return None;
    }
    let num_requests = 2 * full_pickup + empty_pickup + empty_delivery;
    let dimension = num_requests + afs + 2;
    let ghost l = layout(num_trucks as int, num_requests as int, dimension as int);
    if dimension > len {
        assert(dimension * dimension >= dimension) by (nonlinear_arith)
            requires
                dimension >= 1,
        ;
        return None;
    }
    assert((dimension as u128) * (dimension as u128) <= 0xffff_ffff_ffff_ffffu128 * 0xffff_ffff_ffff_ffffu128)
        by (nonlinear_arith)
        requires
            dimension <= 0xffff_ffff_ffff_ffffu128,
    ;
    let square: u128 = (dimension as u128) * (dimension as u128);
    if square > len as u128 {
        return None;
    }
    let end: u128 = 1 + 3 * (num_trucks as u128) + 2 * square + 1 + 7 * (num_requests as u128);
    assert(end == l.7);
    if end > len as u128 {
        return None;
    }
    let trucks_count = num_trucks as usize;
    let square = square as usize;
    let distances_start = 1 + 3 * trucks_count;
    let times_start = distances_start + square;
    let depot_at = times_start + square;
    let service_start = depot_at + 1;
    let earliest_start = service_start + num_requests;
    let latest_start = earliest_start + num_requests;
    let requests_start = latest_start + num_requests;
    let end = requests_start + 4 * num_requests;
    assert(l == (
        distances_start as int,
        times_start as int,
        depot_at as int,
        service_start as int,
        earliest_start as int,
        latest_start as int,
        requests_start as int,
        end as int,
    ));
    let mut trucks: Vec<Truck> = Vec::new();
    let mut i: usize = 0;
    while i < trucks_count
        invariant
            s == numbers@,
            len == s.len(),
            trucks_count == s[0],
            1 + 3 * trucks_count <= s.len(),
            i <= trucks_count,
            trucks@.len() == i,
            forall|k: int|
                0 <= k < i ==> i32::MIN <= #[trigger] s[1 + 3 * k] <= i32::MAX && i32::MIN <= s[2 + 3 * k]
                    <= i32::MAX && 0 <= s[3 + 3 * k] <= u32::MAX / 100,
            forall|k: int|
                0 <= k < i ==> (#[trigger] trucks@[k]).num_20() == s[1 + 3 * k] && trucks@[k].num_40() == s[2 + 3
                    * k] && trucks@[k].fuel_capacity() == 100 * s[3 + 3 * k],
        decreases trucks_count - i,
    {
        let num_20 = numbers[1 + 3 * i];
        let num_40 = numbers[2 + 3 * i];
        let fuel = numbers[3 + 3 * i];
        if num_20 < -2147483648i64 || num_20 > 2147483647i64 || num_40 < -2147483648i64 || num_40 > 2147483647i64
            || fuel < 0 || fuel > 42949672i64 {
            return None;
        }
        trucks.push(Truck::new(num_20 as i32, num_40 as i32, fuel as u32));
        i = i + 1;
    }
    let distance_matrix = match u32s_from(numbers, distances_start, square) {
        Some(v) => v,
        None => {
            assert(!all_u32(s.subrange(l.0, l.3))) by {
                let bad = s.subrange(l.0, l.1);
                let k = choose|k: int| 0 <= k < bad.len() && !(0 <= #[trigger] bad[k] <= u32::MAX);
                assert(s.subrange(l.0, l.3)[k] == bad[k]);
            }
            return None;
        },
    };
    let time_matrix = match u32s_from(numbers, times_start, square) {
        Some(v) => v,
        None => {
            assert(!all_u32(s.subrange(l.0, l.3))) by {
                let bad = s.subrange(l.1, l.2);
                let k = choose|k: int| 0 <= k < bad.len() && !(0 <= #[trigger] bad[k] <= u32::MAX);
                assert(s.subrange(l.0, l.3)[k + square] == bad[k]);
            }
            return None;
        },
    };
    let depot_service = numbers[depot_at];
    if depot_service < 0 || depot_service > 4294967295i64 {
        assert(s.subrange(l.0, l.3)[2 * square as int] == depot_service);
        return None;
    }
    let service_times = match u32s_from(numbers, service_start, num_requests) {
        Some(v) => v,
        None => {
            assert(!all_u32(s.subrange(l.3, l.6))) by {
                let bad = s.subrange(l.3, l.4);
                let k = choose|k: int| 0 <= k < bad.len() && !(0 <= #[trigger] bad[k] <= u32::MAX);
                assert(s.subrange(l.3, l.6)[k] == bad[k]);
            }
            return None;
        },
    };
    let earliest = match u32s_from(numbers, earliest_start, num_requests) {
        Some(v) => v,
        None => {
            assert(!all_u32(s.subrange(l.3, l.6))) by {
                let bad = s.subrange(l.4, l.5);
                let k = choose|k: int| 0 <= k < bad.len() && !(0 <= #[trigger] bad[k] <= u32::MAX);
                assert(s.subrange(l.3, l.6)[k + num_requests] == bad[k]);
            }
            return None;
        },
    };
    let latest = match u32s_from(numbers, latest_start, num_requests) {
        Some(v) => v,
        None => {
            assert(!all_u32(s.subrange(l.3, l.6))) by {
                let bad = s.subrange(l.5, l.6);
                let k = choose|k: int| 0 <= k < bad.len() && !(0 <= #[trigger] bad[k] <= u32::MAX);
                assert(s.subrange(l.3, l.6)[k + 2 * num_requests] == bad[k]);
            }
            return None;
        },
    };
    let requests = match requests_from(numbers, requests_start, num_requests) {
        Some(v) => v,
        None => {
            return None;
        },
    };
    proof {
        assert forall|k: int| 0 <= k < s.subrange(l.0, l.3).len() implies 0 <= #[trigger] s.subrange(l.0, l.3)[k]
            <= u32::MAX by {
            if k < square {
                assert(s.subrange(l.0, l.3)[k] == s.subrange(l.0, l.1)[k]);
            } else if k < 2 * square {
                assert(s.subrange(l.0, l.3)[k] == s.subrange(l.1, l.2)[k - square]);
            }
        }
        assert forall|k: int| 0 <= k < s.subrange(l.3, l.6).len() implies 0 <= #[trigger] s.subrange(l.3, l.6)[k]
            <= u32::MAX by {
            if k < num_requests {
                assert(s.subrange(l.3, l.6)[k] == s.subrange(l.3, l.4)[k]);
            } else if k < 2 * num_requests {
                assert(s.subrange(l.3, l.6)[k] == s.subrange(l.4, l.5)[k - num_requests]);
            } else {
                assert(s.subrange(l.3, l.6)[k] == s.subrange(l.5, l.6)[k - 2 * num_requests]);
            }
        }
    }
    let ghost built = trucks@;
    let config = Config::new(
        full_pickup,
        empty_pickup,
        empty_delivery,
        afs,
        trucks,
        distance_matrix,
        time_matrix,
        depot_service as u32,
        service_times,
        earliest,
        latest,
        requests,
    );
    assert(built.len() == s[0] && config.trucks().to_multiset() == built.to_multiset());
    assert(forall|k: int|
        0 <= k < built.len() ==> (#[trigger] built[k]).num_20() == s[1 + 3 * k] && built[k].num_40() == s[2 + 3 * k]
            && built[k].fuel_capacity() == 100 * s[3 + 3 * k]);
    if end < len {
        let t_max = numbers[end];
        if t_max < 0 || t_max > 4294967295i64 {
            return None;
        }
        let config = config.with_t_max(t_max as u32);
        assert(numbers_give(config, full_pickup as int, empty_pickup as int, empty_delivery as int, afs as int, s));
        Some(config)
    } else {
        assert(numbers_give(config, full_pickup as int, empty_pickup as int, empty_delivery as int, afs as int, s));
        Some(config)
    }
}

} // verus!
