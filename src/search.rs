//! Best-first search for the cheapest itineraries over the time-expanded graph.
use vstd::prelude::*;
use crate::airport::{
    airport_name, airport_name_or_empty, departs_within, lemma_filter_index, AirportView,
    AirportsContainer,
};
use crate::flight::FlightEdge;
use crate::text::{leg_line, leg_text, total_line, total_text};
use crate::time::{date_start_seconds, in_time_range, parse_date, DAY, MINUTE};

verus! {

/// The least gap between an arrival and the next departure of an itinerary.
pub const CONNECTION_TIME: i64 = 15 * MINUTE;

/// What to look for: from where, to where, on which day, how often one flight
/// may be branched out of, and how many itineraries at most.
#[derive(Clone, Debug)]
pub struct SearchQuery {
    pub from: usize,
    pub to: usize,
    pub date: String,
    pub hops: usize,
    pub results: usize,
}

/// A candidate itinerary: its total cost, its last edge and all its edges.
#[derive(Clone, Debug)]
pub struct PathState {
    pub cost: i64,
    pub current: FlightEdge,
    pub path: Vec<FlightEdge>,
}

/// The sum of the costs of the edges.
pub open spec fn path_cost(p: Seq<FlightEdge>) -> int
    decreases p.len(),
{
    if p.len() == 0 {
        0
    } else {
        path_cost(p.drop_last()) + p.last().cost
    }
}

/// The edges form a journey that starts at `source` on the day starting at
/// `start`: each leaves from where the one before arrived, at least the
/// connection time later; none arrives later than two days after `start` or
/// lands back at `source`; no airport is departed from twice.
pub open spec fn connects(p: Seq<FlightEdge>, source: usize, start: i64) -> bool {
    &&& p.len() >= 1
    &&& p[0].from == source
    &&& start <= p[0].depart_at <= start + DAY
    &&& forall|i: int|
        1 <= i < p.len() ==> {
            &&& (#[trigger] p[i]).from == p[i - 1].to
            &&& p[i].depart_at >= p[i - 1].arrive_at + CONNECTION_TIME
        }
    &&& forall|i: int| 0 <= i < p.len() ==> (#[trigger] p[i]).arrive_at <= start + 2 * DAY && p[i].to != source
    &&& forall|i: int, j: int| 0 <= i < j < p.len() ==> (#[trigger] p[i]).from != (#[trigger] p[j]).from
}

/// Every edge of the path stands in the index of the airport it departs from.
pub open spec fn indexed(p: Seq<FlightEdge>, airports: Map<usize, AirportView>) -> bool {
    forall|i: int|
        0 <= i < p.len() ==> airports.contains_key((#[trigger] p[i]).from)
            && airports[p[i].from].outgoing.contains(p[i])
}

/// A journey from `source` that ends at `target`.
pub open spec fn sound_itinerary(p: Seq<FlightEdge>, source: usize, target: usize, start: i64) -> bool {
    connects(p, source, start) && p.last().to == target
}

impl PathState {
    /// The cost is the sum over the path, and the last edge is the current one.
    pub open spec fn consistent(&self) -> bool {
        &&& self.path@.len() >= 1
        &&& self.current == self.path@.last()
        &&& self.cost == path_cost(self.path@)
    }

    /// A sound partial journey over indexed edges; with no expansion budget, a single leg.
    pub open spec fn on_the_way(
        &self,
        source: usize,
        start: i64,
        airports: Map<usize, AirportView>,
        k: usize,
    ) -> bool {
        &&& self.consistent()
        &&& indexed(self.path@, airports)
        &&& (k == 0 ==> self.path@.len() == 1)
        &&& connects(self.path@, source, start)
        &&& self.current.times_bounded()
    }
}

impl PathState {
    /// One line per leg, naming the airports as the registry does, then the total cost.
    pub fn readable_path(&self, airports: &AirportsContainer) -> (r: Vec<String>)
        ensures
            r@.len() == self.path@.len() + 1,
            forall|i: int|
                0 <= i < self.path@.len() ==> (#[trigger] r@[i])@ == leg_line(
                    self.path@[i].flight_id,
                    airport_name_or_empty(airports.airports_view(), self.path@[i].from),
                    airport_name_or_empty(airports.airports_view(), self.path@[i].to),
                    self.path@[i].depart_at,
                    self.path@[i].arrive_at,
                ),
            r@[self.path@.len() as int]@ == total_line(self.cost),
    {
        let mut lines: Vec<String> = Vec::new();
        let mut i: usize = 0;
        while i < self.path.len()
            invariant
                i <= self.path@.len(),
                lines@.len() == i,
                forall|m: int|
                    0 <= m < i ==> (#[trigger] lines@[m])@ == leg_line(
                        self.path@[m].flight_id,
                        airport_name_or_empty(airports.airports_view(), self.path@[m].from),
                        airport_name_or_empty(airports.airports_view(), self.path@[m].to),
                        self.path@[m].depart_at,
                        self.path@[m].arrive_at,
                    ),
            decreases self.path@.len() - i,
        {
            let edge = self.path[i];
            let origin = airport_name(airports, edge.from);
            let destination = airport_name(airports, edge.to);
            lines.push(
                leg_text(
                    edge.flight_id,
                    origin.as_str(),
                    destination.as_str(),
                    edge.depart_at,
                    edge.arrive_at,
                ),
            );
            i = i + 1;
        }
        lines.push(total_text(self.cost));
        lines
    }
}

/// A flight from `source` straight to `target` departs on the day starting at `start`.
pub open spec fn direct_flight(
    airports: Map<usize, AirportView>,
    source: usize,
    target: usize,
    start: i64,
) -> bool {
    airports.contains_key(source) && exists|e: FlightEdge|
        #[trigger] airports[source].outgoing.contains(e) && e.to == target && start <= e.depart_at
            <= start + DAY && e.arrive_at <= start + 2 * DAY && e.to != source
}

/// Some itinerary is found already, or some candidate ends at `target`.
pub open spec fn target_in_sight(heap: Seq<PathState>, found: nat, target: usize) -> bool {
    found > 0 || exists|m: int| 0 <= m < heap.len() && (#[trigger] heap[m]).current.to == target
}

/// Costs do not decrease along the list.
pub open spec fn by_cost(s: Seq<PathState>) -> bool {
    forall|i: int, j: int| 0 <= i < j < s.len() ==> (#[trigger] s[i]).cost <= (#[trigger] s[j]).cost
}

/// How many more expansions the counters allow in all.
pub open spec fn slack(s: Seq<usize>, k: usize) -> int
    decreases s.len(),
{
    if s.len() == 0 {
        0
    } else {
        slack(s.drop_last(), k) + (k - s.last())
    }
}

proof fn lemma_slack_nonneg(s: Seq<usize>, k: usize)
    requires
        forall|i: int| 0 <= i < s.len() ==> s[i] <= k,
    ensures
        slack(s, k) >= 0,
    decreases s.len(),
{
    if s.len() > 0 {
        lemma_slack_nonneg(s.drop_last(), k);
    }
}

proof fn lemma_slack_step(s: Seq<usize>, k: usize, i: int)
    requires
        0 <= i < s.len(),
        s[i] < k,
    ensures
        slack(s.update(i, (s[i] + 1) as usize), k) == slack(s, k) - 1,
    decreases s.len(),
{
    let t = s.update(i, (s[i] + 1) as usize);
    if i == s.len() - 1 {
        assert(t.drop_last() =~= s.drop_last());
    } else {
        lemma_slack_step(s.drop_last(), k, i);
        assert(t.drop_last() =~= s.drop_last().update(i, (s[i] + 1) as usize));
    }
}

fn copy_edges(v: &Vec<FlightEdge>) -> (r: Vec<FlightEdge>)
    ensures
        r@ == v@,
{
    let mut r: Vec<FlightEdge> = Vec::new();
    let mut i: usize = 0;
    while i < v.len()
        invariant
            i <= v@.len(),
            r@ == v@.take(i as int),
        decreases v@.len() - i,
    {
        r.push(v[i]);
        i = i + 1;
        assert(r@ =~= v@.take(i as int));
    }
    assert(v@.take(v@.len() as int) =~= v@);
    r
}

/// Puts a state into a list ordered by cost, after every state of equal or lower cost.
fn insert_by_cost(results: &mut Vec<PathState>, state: PathState)
    requires
        by_cost(old(results)@),
    ensures
        by_cost(final(results)@),
        final(results)@.len() == old(results)@.len() + 1,
        forall|m: int|
            0 <= m < final(results)@.len() ==> #[trigger] final(results)@[m] == state || old(
                results,
            )@.contains(final(results)@[m]),
{
    let mut i: usize = 0;
    while i < results.len() && results[i].cost <= state.cost
        invariant
            i <= results@.len(),
            results@ == old(results)@,
            forall|m: int| 0 <= m < i ==> (#[trigger] results@[m]).cost <= state.cost,
        decreases results@.len() - i,
    {
        i = i + 1;
    }
    let ghost s = results@;
    results.insert(i, state);
    assert forall|m: int| 0 <= m < results@.len() implies #[trigger] results@[m] == state || s.contains(
        results@[m],
    ) by {
        if m < i {
            assert(results@[m] == s[m]);
        } else if m > i {
            assert(results@[m] == s[m - 1]);
        }
    }
}

/// Whether an airport is already departed from somewhere on the path.
fn departs_from(path: &Vec<FlightEdge>, airport: usize) -> (r: bool)
    ensures
        r == exists|m: int| 0 <= m < path@.len() && (#[trigger] path@[m]).from == airport,
{
    let mut i: usize = 0;
    while i < path.len()
        invariant
            i <= path@.len(),
            forall|m: int| 0 <= m < i ==> (#[trigger] path@[m]).from != airport,
        decreases path@.len() - i,
    {
        if path[i].from == airport {
            return true;
        }
        i = i + 1;
    }
    false
}

/// The state one edge further along.
#[verifier::rlimit(50)]
fn extend(
    state: &PathState,
    e: FlightEdge,
    new_cost: i64,
    source: usize,
    date: i64,
    airports: Ghost<Map<usize, AirportView>>,
    k: usize,
) -> (r: PathState)
    requires
        state.on_the_way(source, date, airports@, k),
        k > 0,
        airports@.contains_key(e.from),
        airports@[e.from].outgoing.contains(e),
        e.from == state.current.to,
        e.depart_at >= state.current.arrive_at + CONNECTION_TIME,
        e.arrive_at <= date + 2 * DAY,
        e.to != source,
        e.times_bounded(),
        new_cost == state.cost + e.cost,
        forall|m: int| 0 <= m < state.path@.len() ==> (#[trigger] state.path@[m]).from != e.from,
    ensures
        r.on_the_way(source, date, airports@, k),
        r.path@ == state.path@.push(e),
{
    let mut new_path = copy_edges(&state.path);
    new_path.push(e);
    let ghost p = new_path@;
    proof {
        assert(p.drop_last() =~= state.path@);
        assert forall|a: int, b: int| 0 <= a < b < p.len() implies (#[trigger] p[a]).from != (
        #[trigger] p[b]).from by {
            if b == p.len() - 1 {
                assert(p[a] == state.path@[a]);
            } else {
                assert(p[a] == state.path@[a] && p[b] == state.path@[b]);
            }
        }
        assert forall|a: int| 0 <= a < p.len() implies (#[trigger] p[a]).arrive_at <= date + 2 * DAY
            && p[a].to != source by {
            if a < p.len() - 1 {
                assert(p[a] == state.path@[a]);
            }
        }
        assert forall|a: int| 1 <= a < p.len() implies {
            &&& (#[trigger] p[a]).from == p[a - 1].to
            &&& p[a].depart_at >= p[a - 1].arrive_at + CONNECTION_TIME
        } by {
            if a < p.len() - 1 {
                assert(p[a] == state.path@[a]);
                assert(p[a - 1] == state.path@[a - 1]);
            } else {
                assert(p[a - 1] == state.path@.last());
            }
        }
        assert(p[0] == state.path@[0]);
        assert forall|a: int| 0 <= a < p.len() implies airports@.contains_key((#[trigger] p[a]).from)
            && airports@[p[a].from].outgoing.contains(p[a]) by {
            if a < p.len() - 1 {
                assert(p[a] == state.path@[a]);
            }
        }
    }
    PathState { cost: new_cost, current: e, path: new_path }
}

/// The search over one registry of airports and flights.
pub struct Search {
    pub airports: AirportsContainer,
}

impl Search {
    pub fn new(airports: AirportsContainer) -> (r: Self)
        ensures
            r.airports == airports,
    {
        Search { airports }
    }

    /// The cheapest itineraries from `query.from` to `query.to` whose first
    /// flight departs on `query.date`, cheapest first, at most `query.results`
    /// of them. An unknown airport or an unreadable date gives none.
    pub fn find(&self, query: SearchQuery) -> (r: Vec<PathState>)
        requires
            self.airports.wf(),
        ensures
            r@.len() <= query.results,
            by_cost(r@),
            !self.airports.airports_view().contains_key(query.from) ==> r@.len() == 0,
            !self.airports.airports_view().contains_key(query.to) ==> r@.len() == 0,
            date_start_seconds(query.date@) is None ==> r@.len() == 0,
            query.results >= 1 && self.airports.airports_view().contains_key(query.to)
                && date_start_seconds(query.date@) is Some && direct_flight(
                self.airports.airports_view(),
                query.from,
                query.to,
                date_start_seconds(query.date@)->0,
            ) ==> r@.len() >= 1,
            forall|i: int|
                0 <= i < r@.len() ==> (#[trigger] r@[i]).consistent() && sound_itinerary(
                    r@[i].path@,
                    query.from,
                    query.to,
                    date_start_seconds(query.date@)->0,
                ) && indexed(r@[i].path@, self.airports.airports_view()),
            query.hops == 0 ==> forall|i: int| 0 <= i < r@.len() ==> (#[trigger] r@[i]).path@.len() == 1,
    {
        if !self.airports.has_airport(query.from) || !self.airports.has_airport(query.to) {
            return Vec::new();
        }
        let date = match parse_date(query.date.as_str()) {
            Some(d) => d,
            None => {
                return Vec::new();
            },
        };
        self.traverse(query.from, query.to, date, query.hops, query.results)
    }

    /// Pops the cheapest candidate until none is left or `total` itineraries
    /// are found. Each flight id may be branched out of at most `k` times,
    /// counting every time a candidate ending in it is popped. The counters
    /// cover every id below the registry's bound on indexed flight ids.
    fn traverse(&self, source: usize, target: usize, date: i64, k: usize, total: usize) -> (r: Vec<
        PathState,
    >)
        requires
            self.airports.wf(),
            in_time_range(date),
        ensures
            r@.len() <= total,
            by_cost(r@),
            total >= 1 && direct_flight(self.airports.airports_view(), source, target, date) ==> r@.len()
                >= 1,
            forall|i: int|
                0 <= i < r@.len() ==> (#[trigger] r@[i]).consistent() && sound_itinerary(
                    r@[i].path@,
                    source,
                    target,
                    date,
                ) && indexed(r@[i].path@, self.airports.airports_view()),
            k == 0 ==> forall|i: int| 0 <= i < r@.len() ==> (#[trigger] r@[i]).path@.len() == 1,
    {
        let mut results: Vec<PathState> = Vec::new();
        if total == 0 {
            return results;
        }
        let window_end = date + DAY;
        let horizon = date + 2 * DAY;
        let num_flights = self.airports.id_bound;
        let mut count: Vec<usize> = Vec::new();
        while count.len() < num_flights
            invariant
                count@.len() <= num_flights,
                forall|i: int| 0 <= i < count@.len() ==> count@[i] == 0,
            decreases num_flights - count@.len(),
        {
            count.push(0);
        }
        let mut heap: Vec<PathState> = Vec::new();
        let seeds = self.airports.flights_between(source, date, Some(window_end));
        proof {
            if self.airports.airports_view().contains_key(source) {
                lemma_filter_index(
                    self.airports.airports_view()[source].outgoing,
                    departs_within(date, window_end),
                );
            }
        }
        let ghost mut sighted = false;
        let mut i: usize = 0;
        while i < seeds.len()
            invariant
                i <= seeds@.len(),
                horizon == date + 2 * DAY,
                sighted ==> target_in_sight(heap@, 0, target),
                (exists|m: int|
                    0 <= m < i && (#[trigger] seeds@[m]).to == target && seeds@[m].arrive_at <= horizon
                        && seeds@[m].to != source) ==> sighted,
                self.airports.wf(),
                window_end == date + DAY,
                seeds@ == (if self.airports.airports_view().contains_key(source) {
                    self.airports.airports_view()[source].between(date, window_end)
                } else {
                    Seq::empty()
                }),
                self.airports.airports_view().contains_key(source) || seeds@.len() == 0,
                forall|m: int|
                    0 <= m < seeds@.len() ==> departs_within(date, window_end)(#[trigger] seeds@[m])
                        && self.airports.airports_view()[source].outgoing.contains(seeds@[m]),
                forall|m: int| 0 <= m < heap@.len() ==> (#[trigger] heap@[m]).on_the_way(source, date, self.airports.airports_view(), k),
            decreases seeds@.len() - i,
        {
            let e = seeds[i];
            proof {
                let o = self.airports.airports_view()[source].outgoing;
                let j = choose|j: int| 0 <= j < o.len() && o[j] == e;
                assert(o[j].from == source);
            }
            if e.depart_at >= date && e.arrive_at <= horizon && e.to != source {
                let path = vec![e];
                let seed = PathState { cost: e.cost as i64, current: e, path };
                proof {
                    assert(seed.path@ =~= seq![e]);
                    assert(seed.path@.drop_last() =~= Seq::<FlightEdge>::empty());
                    assert(path_cost(seed.path@.drop_last()) == 0);
                    assert(seed.consistent());
                    assert(connects(seed.path@, source, date));
                    assert(seed.current.times_bounded());
                }
                let ghost pre = heap@;
                heap.push(seed);
                proof {
                    if sighted {
                        let m = choose|m: int| 0 <= m < pre.len() && (#[trigger] pre[m]).current.to == target;
                        assert(heap@[m] == pre[m]);
                    }
                    if e.to == target && e.arrive_at <= horizon && e.to != source {
                        sighted = true;
                        assert(heap@[heap@.len() - 1].current.to == target);
                    }
                }
            }
            proof {
                if exists|m: int|
                    0 <= m < i + 1 && (#[trigger] seeds@[m]).to == target && seeds@[m].arrive_at <= horizon
                        && seeds@[m].to != source {
                    let m = choose|m: int|
                        0 <= m < i + 1 && (#[trigger] seeds@[m]).to == target && seeds@[m].arrive_at
                            <= horizon && seeds@[m].to != source;
                    if m < i {
                    } else {
                        assert(e.depart_at >= date);
                    }
                }
            }
            i = i + 1;
        }
        proof {
            if direct_flight(self.airports.airports_view(), source, target, date) {
                let o = self.airports.airports_view()[source].outgoing;
                let e = choose|e: FlightEdge|
                    #[trigger] o.contains(e) && e.to == target && date <= e.depart_at <= date + DAY
                        && e.arrive_at <= date + 2 * DAY && e.to != source;
                let j = choose|j: int| 0 <= j < o.len() && o[j] == e;
                assert(departs_within(date, window_end)(o[j]));
                assert(seeds@.contains(e));
                let m = choose|m: int| 0 <= m < seeds@.len() && seeds@[m] == e;
                assert(seeds@[m].to == target);
            }
        }
        proof {
            lemma_slack_nonneg(count@, k);
        }
        while heap.len() > 0
            invariant
                self.airports.wf(),
                in_time_range(date),
                window_end == date + DAY,
                horizon == date + 2 * DAY,
                count@.len() == num_flights,
                forall|m: int| 0 <= m < count@.len() ==> count@[m] <= k,
                slack(count@, k) >= 0,
                forall|m: int| 0 <= m < heap@.len() ==> (#[trigger] heap@[m]).on_the_way(source, date, self.airports.airports_view(), k),
                results@.len() < total,
                sighted ==> target_in_sight(heap@, results@.len(), target),
                by_cost(results@),
                forall|m: int|
                    0 <= m < results@.len() ==> (#[trigger] results@[m]).on_the_way(source, date, self.airports.airports_view(), k)
                        && results@[m].current.to == target,
            decreases slack(count@, k), heap@.len(),
        {
            let mut best: usize = 0;
            let mut j: usize = 1;
            while j < heap.len()
                invariant
                    heap@.len() > 0,
                    best < heap@.len(),
                    1 <= j <= heap@.len(),
                decreases heap@.len() - j,
            {
                if heap[j].cost < heap[best].cost {
                    best = j;
                }
                j = j + 1;
            }
            let ghost before = heap@;
            let state = heap.remove(best);
            assert(before[best as int] == state);
            proof {
                if sighted && results@.len() == 0 && state.current.to != target {
                    let m = choose|m: int| 0 <= m < before.len() && (#[trigger] before[m]).current.to == target;
                    if m < best {
                        assert(heap@[m] == before[m]);
                    } else {
                        assert(heap@[m - 1] == before[m]);
                    }
                }
            }
            assert forall|m: int| 0 <= m < heap@.len() implies (#[trigger] heap@[m]).on_the_way(
                source,
                date,
                self.airports.airports_view(),
                k,
            ) by {
                if m < best {
                    assert(heap@[m] == before[m]);
                } else {
                    assert(heap@[m] == before[m + 1]);
                }
            }
            let cur = state.current;
            let id = cur.flight_id;
            let mut within = false;
            if id < count.len() && count[id] < k {
                proof {
                    lemma_slack_step(count@, k, id as int);
                }
                let c = count[id];
                count.set(id, c + 1);
                within = true;
            }
            let reached = cur.to == target;
            if reached && results.len() + 1 == total {
                insert_by_cost(&mut results, state);
                return results;
            }
            let revisits = departs_from(&state.path, cur.to);
            let connection = cur.arrive_at + CONNECTION_TIME;
            if !revisits && within && connection <= horizon {
                let next = self.airports.flights_between(cur.to, connection, Some(horizon));
                proof {
                    if self.airports.airports_view().contains_key(cur.to) {
                        lemma_filter_index(
                            self.airports.airports_view()[cur.to].outgoing,
                            departs_within(connection, horizon),
                        );
                    }
                }
                let mut n: usize = 0;
                while n < next.len()
                    invariant
                        n <= next@.len(),
                        self.airports.wf(),
                        state.on_the_way(source, date, self.airports.airports_view(), k),
                        cur == state.current,
                        connection == cur.arrive_at + CONNECTION_TIME,
                        k > 0,
                        horizon == date + 2 * DAY,
                        forall|m: int| 0 <= m < state.path@.len() ==> (#[trigger] state.path@[m]).from != cur.to,
                        self.airports.airports_view().contains_key(cur.to) || next@.len() == 0,
                        forall|m: int|
                            0 <= m < next@.len() ==> departs_within(connection, horizon)(#[trigger] next@[m])
                                && self.airports.airports_view()[cur.to].outgoing.contains(next@[m]),
                        forall|m: int| 0 <= m < heap@.len() ==> (#[trigger] heap@[m]).on_the_way(source, date, self.airports.airports_view(), k),
                        sighted && state.current.to != target ==> target_in_sight(heap@, results@.len(), target),
                    decreases next@.len() - n,
                {
                    let e = next[n];
                    proof {
                        let o = self.airports.airports_view()[cur.to].outgoing;
                        let j = choose|j: int| 0 <= j < o.len() && o[j] == e;
                        assert(o[j].from == cur.to);
                    }
                    if e.arrive_at <= horizon && e.to != source {
                        match state.cost.checked_add(e.cost as i64) {
                            Some(new_cost) => {
                                let ghost pre = heap@;
                                heap.push(extend(&state, e, new_cost, source, date, Ghost(self.airports.airports_view()), k));
                                proof {
                                    if sighted && state.current.to != target && results@.len() == 0 {
                                        let m = choose|m: int| 0 <= m < pre.len() && (#[trigger] pre[m]).current.to == target;
                                        assert(heap@[m] == pre[m]);
                                    }
                                }
                            },
                            None => {},
                        }
                    }
                    n = n + 1;
                }
            }
            if reached {
                insert_by_cost(&mut results, state);
                assert forall|m: int| 0 <= m < results@.len() implies (#[trigger] results@[m]).on_the_way(source, date, self.airports.airports_view(), k)
                    && results@[m].current.to == target by {
                    if results@[m] != state {
                    }
                }
            }
            proof {
                lemma_slack_nonneg(count@, k);
            }
        }
        results
    }
}

} // verus!
