//! Airports, each with an index of its outgoing flights ordered by departure
//! and then by cost, and the registry that owns airports and flights together.
use vstd::prelude::*;
use dashmap::DashMap;
use crate::flight::{edge_of, FlightDTO, FlightEdge, FlightsContainer, RegistryError};
use crate::time::DAY;

verus! {

/// Whether `a` may stand before `b` in an outgoing index: earlier departure
/// first and, at the same departure, lower cost first.
pub open spec fn index_le(a: FlightEdge, b: FlightEdge) -> bool {
    a.depart_at < b.depart_at || (a.depart_at == b.depart_at && a.cost <= b.cost)
}

pub open spec fn index_sorted(s: Seq<FlightEdge>) -> bool {
    forall|i: int, j: int| 0 <= i < j < s.len() ==> index_le(#[trigger] s[i], #[trigger] s[j])
}

/// Where an edge joins a sorted index: after every edge that may stand before it.
pub open spec fn insertion_index(s: Seq<FlightEdge>, e: FlightEdge) -> int
    decreases s.len(),
{
    if s.len() == 0 {
        0
    } else if index_le(s.last(), e) {
        s.len() as int
    } else {
        insertion_index(s.drop_last(), e)
    }
}

pub open spec fn departs_within(start: i64, end: i64) -> spec_fn(FlightEdge) -> bool {
    |e: FlightEdge| start <= e.depart_at && e.depart_at <= end
}

pub open spec fn not_entry(flight_id: usize, departure: i64) -> spec_fn(FlightEdge) -> bool {
    |e: FlightEdge| !(e.flight_id == flight_id && e.depart_at == departure)
}

/// The end of a time window: the given end, or one day after the start.
pub open spec fn window_end(start: i64, end: Option<i64>) -> i64 {
    match end {
        Some(e) => e,
        None => if start <= i64::MAX - DAY {
            (start + DAY) as i64
        } else {
            i64::MAX
        },
    }
}

/// An airport as a mathematical value.
pub struct AirportView {
    pub id: usize,
    pub name: Seq<char>,
    pub outgoing: Seq<FlightEdge>,
}

impl AirportView {
    /// The index is sorted, and every edge in it departs from this airport.
    pub open spec fn wf(self) -> bool {
        &&& index_sorted(self.outgoing)
        &&& forall|i: int|
            0 <= i < self.outgoing.len() ==> (#[trigger] self.outgoing[i]).from == self.id
                && self.outgoing[i].times_bounded()
    }

    pub open spec fn with_flight(self, e: FlightEdge) -> AirportView {
        AirportView {
            outgoing: self.outgoing.insert(insertion_index(self.outgoing, e), e),
            ..self
        }
    }

    pub open spec fn without_flight(self, flight_id: usize, departure: i64) -> AirportView {
        AirportView { outgoing: self.outgoing.filter(not_entry(flight_id, departure)), ..self }
    }

    /// The edges departing within `[start, end]`, in index order.
    pub open spec fn between(self, start: i64, end: i64) -> Seq<FlightEdge> {
        self.outgoing.filter(departs_within(start, end))
    }
}

/// The edges an index keeps after a filter satisfy the filter, come from the
/// index and keep its order; every edge of the index that satisfies it is kept.
pub proof fn lemma_filter_index(s: Seq<FlightEdge>, p: spec_fn(FlightEdge) -> bool)
    ensures
        forall|i: int|
            0 <= i < s.filter(p).len() ==> p(#[trigger] s.filter(p)[i]) && s.contains(
                s.filter(p)[i],
            ),
        forall|i: int| 0 <= i < s.len() && p(s[i]) ==> #[trigger] s.filter(p).contains(s[i]),
        index_sorted(s) ==> index_sorted(s.filter(p)),
    decreases s.len(),
{
    reveal(Seq::filter);
    let f = s.filter(p);
    if s.len() > 0 {
        let d = s.drop_last();
        lemma_filter_index(d, p);
        let g = d.filter(p);
        assert forall|i: int| 0 <= i < f.len() implies p(#[trigger] f[i]) && s.contains(f[i]) by {
            if i < g.len() {
                assert(f[i] == g[i]);
                let j = choose|j: int| 0 <= j < d.len() && d[j] == g[i];
                assert(s[j] == f[i]);
            } else {
                assert(f[i] == s[s.len() - 1]);
            }
        }
        assert forall|i: int| 0 <= i < s.len() && p(s[i]) implies #[trigger] f.contains(s[i]) by {
            if i == s.len() - 1 {
                assert(f[f.len() - 1] == s[i]);
            } else {
                assert(d[i] == s[i]);
                assert(g.contains(d[i]));
                let j = choose|j: int| 0 <= j < g.len() && g[j] == d[i];
                assert(f[j] == s[i]);
            }
        }
        if index_sorted(s) {
            assert(index_sorted(d));
            assert forall|i: int, j: int| 0 <= i < j < f.len() implies index_le(
                #[trigger] f[i],
                #[trigger] f[j],
            ) by {
                if j < g.len() {
                    assert(f[i] == g[i] && f[j] == g[j]);
                } else {
                    assert(f[i] == g[i]);
                    assert(d.contains(g[i]));
                    let m = choose|m: int| 0 <= m < d.len() && d[m] == g[i];
                    assert(s[m] == f[i]);
                }
            }
        }
    }
}

/// Every edge before the insertion index may stand before the new edge, and
/// the new edge may stand before every edge after it.
pub proof fn lemma_insertion_index(s: Seq<FlightEdge>, e: FlightEdge)
    requires
        index_sorted(s),
    ensures
        0 <= insertion_index(s, e) <= s.len(),
        forall|j: int| 0 <= j < insertion_index(s, e) ==> index_le(#[trigger] s[j], e),
        forall|j: int| insertion_index(s, e) <= j < s.len() ==> index_le(e, #[trigger] s[j]),
    decreases s.len(),
{
    if s.len() > 0 {
        let d = s.drop_last();
        assert(index_sorted(d));
        lemma_insertion_index(d, e);
        if index_le(s.last(), e) {
            assert forall|j: int| 0 <= j < s.len() implies index_le(#[trigger] s[j], e) by {
                if j < s.len() - 1 {
                    assert(index_le(s[j], s[s.len() - 1]));
                }
            }
        } else {
            assert forall|j: int| 0 <= j < insertion_index(s, e) implies index_le(#[trigger] s[j], e) by {
                assert(d[j] == s[j]);
            }
            assert forall|j: int| insertion_index(s, e) <= j < s.len() implies index_le(
                e,
                #[trigger] s[j],
            ) by {
                if j < s.len() - 1 {
                    assert(d[j] == s[j]);
                }
            }
        }
    }
}

/// Adding an edge that departs from the airport keeps its index well formed.
pub proof fn lemma_with_flight_wf(a: AirportView, e: FlightEdge)
    requires
        a.wf(),
        e.from == a.id,
        e.times_bounded(),
    ensures
        a.with_flight(e).wf(),
        a.with_flight(e).outgoing.contains(e),
{
    lemma_insertion_index(a.outgoing, e);
    let k = insertion_index(a.outgoing, e);
    let t = a.with_flight(e).outgoing;
    assert(t[k] == e);
    assert forall|i: int, j: int| 0 <= i < j < t.len() implies index_le(
        #[trigger] t[i],
        #[trigger] t[j],
    ) by {
        if j < k {
        } else if j == k {
        } else if i < k {
            assert(index_le(t[i], e));
        } else if i == k {
        } else {
        }
    }
}

/// Removing entries keeps an index well formed.
pub proof fn lemma_without_flight_wf(a: AirportView, flight_id: usize, departure: i64)
    requires
        a.wf(),
    ensures
        a.without_flight(flight_id, departure).wf(),
{
    lemma_filter_index(a.outgoing, not_entry(flight_id, departure));
    let f = a.outgoing.filter(not_entry(flight_id, departure));
    assert forall|i: int| 0 <= i < f.len() implies (#[trigger] f[i]).from == a.id
        && f[i].times_bounded() by {
        assert(a.outgoing.contains(f[i]));
    }
}

/// An airport: a node of the flight graph, with its outgoing index.
#[derive(Clone, Debug)]
pub struct Airport {
    pub id: usize,
    pub name: String,
    pub outgoing: Vec<FlightEdge>,
}

impl View for Airport {
    type V = AirportView;

    open spec fn view(&self) -> AirportView {
        AirportView { id: self.id, name: self.name@, outgoing: self.outgoing@ }
    }
}

impl Airport {
    pub fn new(id: usize, name: String) -> (r: Airport)
        ensures
            r@ == (AirportView { id, name: name@, outgoing: Seq::empty() }),
            r@.wf(),
    {
        let r = Airport { id, name, outgoing: Vec::new() };
        assert(r@.outgoing =~= Seq::<FlightEdge>::empty());
        r
    }

    /// Adds an edge to its departure bucket, after every edge of equal or lower cost.
    pub fn add_flight(&mut self, flight: FlightEdge)
        requires
            old(self)@.wf(),
            flight.from == old(self).id,
            flight.times_bounded(),
        ensures
            final(self)@ == old(self)@.with_flight(flight),
            final(self)@.wf(),
    {
        let ghost s = self.outgoing@;
        let mut i: usize = self.outgoing.len();
        assert(s.take(s.len() as int) =~= s);
        while i > 0 && !(self.outgoing[i - 1].depart_at < flight.depart_at || (
        self.outgoing[i - 1].depart_at == flight.depart_at && self.outgoing[i - 1].cost
            <= flight.cost))
            invariant
                self.outgoing@ == s,
                i <= s.len(),
                insertion_index(s, flight) == insertion_index(s.take(i as int), flight),
            decreases i,
        {
            assert(s.take(i as int).drop_last() =~= s.take(i - 1));
            i = i - 1;
        }
        if i > 0 {
            assert(s.take(i as int).last() == s[i - 1]);
        }
        self.outgoing.insert(i, flight);
        proof {
            lemma_with_flight_wf(old(self)@, flight);
        }
    }

    /// Removes every entry of this flight id from the bucket of this departure.
    pub fn remove_flight(&mut self, flight_id: usize, departure_date: i64)
        requires
            old(self)@.wf(),
        ensures
            final(self)@ == old(self)@.without_flight(flight_id, departure_date),
            final(self)@.wf(),
    {
        let ghost s = self.outgoing@;
        let ghost p = not_entry(flight_id, departure_date);
        let mut kept: Vec<FlightEdge> = Vec::new();
        let mut i: usize = 0;
        while i < self.outgoing.len()
            invariant
                self.outgoing@ == s,
                i <= s.len(),
                p == not_entry(flight_id, departure_date),
                kept@ == s.take(i as int).filter(p),
            decreases s.len() - i,
        {
            let e = self.outgoing[i];
            proof {
                assert(s.take(i + 1) =~= s.take(i as int).push(e));
                s.take(i as int).lemma_filter_push(e, p);
            }
            assert(p(e) == !(e.flight_id == flight_id && e.depart_at == departure_date));
            if !(e.flight_id == flight_id && e.depart_at == departure_date) {
                kept.push(e);
            }
            i = i + 1;
        }
        assert(s.take(s.len() as int) =~= s);
        self.outgoing = kept;
        proof {
            lemma_without_flight_wf(old(self)@, flight_id, departure_date);
        }
    }

    /// The edges departing within `[start, end]`, by departure and then cost;
    /// without an end the window is one day long.
    pub fn flights_between(&self, start: i64, end: Option<i64>) -> (r: Vec<FlightEdge>)
        ensures
            r@ == self@.between(start, window_end(start, end)),
    {
        let end_date = match end {
            Some(e) => e,
            None => if start <= i64::MAX - DAY {
                start + DAY
            } else {
                i64::MAX
            },
        };
        let ghost s = self.outgoing@;
        let ghost p = departs_within(start, end_date);
        let mut flights: Vec<FlightEdge> = Vec::new();
        let mut i: usize = 0;
        while i < self.outgoing.len()
            invariant
                self.outgoing@ == s,
                i <= s.len(),
                p == departs_within(start, end_date),
                flights@ == s.take(i as int).filter(p),
            decreases s.len() - i,
        {
            let e = self.outgoing[i];
            proof {
                assert(s.take(i + 1) =~= s.take(i as int).push(e));
                s.take(i as int).lemma_filter_push(e, p);
            }
            assert(p(e) == (start <= e.depart_at && e.depart_at <= end_date));
            if start <= e.depart_at && e.depart_at <= end_date {
                flights.push(e);
            }
            i = i + 1;
        }
        assert(s.take(s.len() as int) =~= s);
        flights
    }
}

/// A concurrent table of airports, keyed by airport id.
pub type AirportTable = DashMap<usize, Airport>;

/// The entries of an airport table, as values.
pub uninterp spec fn airport_entries(m: AirportTable) -> Map<usize, AirportView>;

/// Relies on `DashMap::new`: a new table is empty.
#[verifier::external_body]
fn airport_table_new() -> (r: AirportTable)
    ensures
        airport_entries(r).dom() =~= Set::<usize>::empty(),
{
    DashMap::new()
}

/// Relies on `DashMap::insert`: the key now maps to the airport, whatever it held.
#[verifier::external_body]
fn airport_table_insert(m: &mut AirportTable, k: usize, v: Airport)
    ensures
        airport_entries(*final(m)) == airport_entries(*old(m)).insert(k, v@),
{
    m.insert(k, v);
}

/// Relies on `DashMap::contains_key`.
#[verifier::external_body]
fn airport_table_contains(m: &AirportTable, k: usize) -> (r: bool)
    ensures
        r == airport_entries(*m).contains_key(k),
{
    m.contains_key(&k)
}

/// Relies on `DashMap::view`: the closure runs on the airport held under the
/// key, if there is one, and its result is handed back.
#[verifier::external_body]
fn airport_table_between(m: &AirportTable, k: usize, start: i64, end: i64) -> (r: Option<
    Vec<FlightEdge>,
>)
    ensures
        r is Some <==> airport_entries(*m).contains_key(k),
        r matches Some(v) ==> v@ == airport_entries(*m)[k].between(start, end),
{
    m.view(&k, |_, a| a.flights_between(start, Some(end)))
}

/// Relies on `DashMap::get_mut`: the closure runs on the airport held under
/// the key, if there is one, and changes it in place.
#[verifier::external_body]
fn airport_table_add_edge(m: &mut AirportTable, k: usize, e: FlightEdge)
    requires
        airport_entries(*old(m)).contains_key(k) ==> airport_entries(*old(m))[k].wf() && e.from
            == airport_entries(*old(m))[k].id && e.times_bounded(),
    ensures
        airport_entries(*final(m)) == (if airport_entries(*old(m)).contains_key(k) {
            airport_entries(*old(m)).insert(k, airport_entries(*old(m))[k].with_flight(e))
        } else {
            airport_entries(*old(m))
        }),
{
    m.get_mut(&k).map(|mut a| a.add_flight(e));
}

/// Relies on `DashMap::get_mut`, as above.
#[verifier::external_body]
fn airport_table_remove_edge(m: &mut AirportTable, k: usize, flight_id: usize, departure: i64)
    requires
        airport_entries(*old(m)).contains_key(k) ==> airport_entries(*old(m))[k].wf(),
    ensures
        airport_entries(*final(m)) == (if airport_entries(*old(m)).contains_key(k) {
            airport_entries(*old(m)).insert(
                k,
                airport_entries(*old(m))[k].without_flight(flight_id, departure),
            )
        } else {
            airport_entries(*old(m))
        }),
{
    m.get_mut(&k).map(|mut a| a.remove_flight(flight_id, departure));
}

/// Relies on `DashMap::view`: the closure copies the name of the airport held
/// under the key, if there is one.
#[verifier::external_body]
fn airport_table_name(m: &AirportTable, k: usize) -> (r: Option<String>)
    ensures
        r is Some <==> airport_entries(*m).contains_key(k),
        r matches Some(n) ==> n@ == airport_entries(*m)[k].name,
{
    m.view(&k, |_, a| a.name.clone())
}

/// The name of a registered airport; empty for an unknown id.
pub open spec fn airport_name_or_empty(airports: Map<usize, AirportView>, id: usize) -> Seq<char> {
    if airports.contains_key(id) {
        airports[id].name
    } else {
        Seq::empty()
    }
}

/// The name of the airport with this id; empty when it is unknown.
pub fn airport_name(container: &AirportsContainer, id: usize) -> (r: String)
    ensures
        r@ == airport_name_or_empty(container.airports_view(), id),
{
    match airport_table_name(&container.airports, id) {
        Some(n) => n,
        None => String::new(),
    }
}

/// Every airport is held under its own id and has a well-formed index.
pub open spec fn airports_wf(airports: Map<usize, AirportView>) -> bool {
    forall|k: usize| #[trigger]
        airports.contains_key(k) ==> airports[k].id == k && airports[k].wf()
}

/// Every flight id in an index lies below `bound`, unless the bound is saturated.
pub open spec fn ids_below(airports: Map<usize, AirportView>, bound: usize) -> bool {
    bound == usize::MAX || forall|k: usize, i: int|
        airports.contains_key(k) && 0 <= i < airports[k].outgoing.len()
            ==> (#[trigger] airports[k].outgoing[i]).flight_id < bound
}

pub proof fn lemma_ids_below_detached(airports: Map<usize, AirportView>, e: FlightEdge, bound: usize)
    requires
        ids_below(airports, bound),
    ensures
        ids_below(detached(airports, e), bound),
{
    if airports.contains_key(e.from) && bound != usize::MAX {
        let o = airports[e.from].outgoing;
        lemma_filter_index(o, not_entry(e.flight_id, e.depart_at));
        let d = detached(airports, e);
        assert forall|k: usize, i: int|
            d.contains_key(k) && 0 <= i < d[k].outgoing.len() implies (#[trigger] d[k].outgoing[i]).flight_id
            < bound by {
            if k == e.from {
                let j = choose|j: int| 0 <= j < o.len() && o[j] == d[k].outgoing[i];
                assert(airports[k].outgoing[j] == o[j]);
            }
        }
    }
}

pub proof fn lemma_ids_below_with_flight(
    airports: Map<usize, AirportView>,
    e: FlightEdge,
    bound: usize,
    raised: usize,
)
    requires
        ids_below(airports, bound),
        airports.contains_key(e.from),
        index_sorted(airports[e.from].outgoing),
        raised >= bound,
        e.flight_id < raised || raised == usize::MAX,
    ensures
        ids_below(airports.insert(e.from, airports[e.from].with_flight(e)), raised),
{
    if raised != usize::MAX {
        let o = airports[e.from].outgoing;
        lemma_insertion_index(o, e);
        let x = insertion_index(o, e);
        let n = airports.insert(e.from, airports[e.from].with_flight(e));
        assert forall|k: usize, i: int|
            n.contains_key(k) && 0 <= i < n[k].outgoing.len() implies (#[trigger] n[k].outgoing[i]).flight_id
            < raised by {
            if k == e.from {
                if i < x {
                    assert(airports[k].outgoing[i] == n[k].outgoing[i]);
                } else if i > x {
                    assert(airports[k].outgoing[i - 1] == n[k].outgoing[i]);
                }
            } else {
                assert(airports[k].outgoing[i] == n[k].outgoing[i]);
            }
        }
    }
}

/// The airports after the index entries of a registered edge are taken out.
pub open spec fn detached(airports: Map<usize, AirportView>, e: FlightEdge) -> Map<
    usize,
    AirportView,
> {
    if airports.contains_key(e.from) {
        airports.insert(e.from, airports[e.from].without_flight(e.flight_id, e.depart_at))
    } else {
        airports
    }
}

/// Airports and flights after a record is added: nothing changes unless both
/// airports are registered and the timestamps parse; an edge that held the same
/// id before leaves the index first.
pub open spec fn flight_added(
    airports: Map<usize, AirportView>,
    flights: Map<usize, FlightEdge>,
    dto: FlightDTO,
) -> (Map<usize, AirportView>, Map<usize, FlightEdge>) {
    edge_added(airports, flights, dto.from, dto.to, edge_of(dto))
}

/// Airports and flights after an edge between `from` and `to` is added, as
/// `flight_added` describes.
pub open spec fn edge_added(
    airports: Map<usize, AirportView>,
    flights: Map<usize, FlightEdge>,
    from: usize,
    to: usize,
    edge: Option<FlightEdge>,
) -> (Map<usize, AirportView>, Map<usize, FlightEdge>) {
    if airports.contains_key(from) && airports.contains_key(to) && edge is Some {
        let e = edge->0;
        let a = if flights.contains_key(e.flight_id) {
            detached(airports, flights[e.flight_id])
        } else {
            airports
        };
        (a.insert(e.from, a[e.from].with_flight(e)), flights.insert(e.flight_id, e))
    } else {
        (airports, flights)
    }
}

/// Airports and flights after a flight id is removed from both registries.
pub open spec fn flight_removed(
    airports: Map<usize, AirportView>,
    flights: Map<usize, FlightEdge>,
    flight_id: usize,
) -> (Map<usize, AirportView>, Map<usize, FlightEdge>) {
    if flights.contains_key(flight_id) {
        (detached(airports, flights[flight_id]), flights.remove(flight_id))
    } else {
        (airports, flights)
    }
}

pub proof fn lemma_detached_wf(airports: Map<usize, AirportView>, e: FlightEdge)
    requires
        airports_wf(airports),
    ensures
        airports_wf(detached(airports, e)),
        detached(airports, e).dom() == airports.dom(),
{
    if airports.contains_key(e.from) {
        lemma_without_flight_wf(airports[e.from], e.flight_id, e.depart_at);
    }
    assert(detached(airports, e).dom() =~= airports.dom());
}

/// A handle on a registered airport, for reading or for changing its index.
pub enum AirportAccess {
    Read(usize),
    Write(usize),
    Missing,
}

/// The airports by id, and the registry of all flights.
pub struct AirportsContainer {
    pub airports: AirportTable,
    pub flights_container: FlightsContainer,
    /// Above every flight id that was ever indexed (saturating at `usize::MAX`).
    pub id_bound: usize,
}

/// The least bound above `id` and `bound`, saturating at `usize::MAX`.
fn raise_bound(bound: usize, id: usize) -> (r: usize)
    ensures
        r >= bound,
        r > id || r == usize::MAX,
{
    if id < bound {
        bound
    } else if id < usize::MAX {
        id + 1
    } else {
        usize::MAX
    }
}

impl AirportsContainer {
    pub open spec fn airports_view(&self) -> Map<usize, AirportView> {
        airport_entries(self.airports)
    }

    pub open spec fn flights_view(&self) -> Map<usize, FlightEdge> {
        self.flights_container@
    }

    pub open spec fn wf(&self) -> bool {
        &&& airports_wf(self.airports_view())
        &&& self.flights_container.wf()
        &&& ids_below(self.airports_view(), self.id_bound)
    }

    pub fn new() -> (r: Self)
        ensures
            r.wf(),
            r.airports_view().dom() =~= Set::<usize>::empty(),
            r.flights_view().dom() =~= Set::<usize>::empty(),
    {
        AirportsContainer {
            airports: airport_table_new(),
            flights_container: FlightsContainer::new(),
            id_bound: 0,
        }
    }

    /// Registers the airport under its id; a record held there before is replaced.
    pub fn add_airport(&mut self, airport: Airport)
        requires
            old(self).wf(),
            airport@.wf(),
        ensures
            final(self).wf(),
            final(self).airports_view() == old(self).airports_view().insert(airport.id, airport@),
            final(self).flights_view() == old(self).flights_view(),
    {
        let id = airport.id;
        let mut i: usize = 0;
        while i < airport.outgoing.len()
            invariant
                i <= airport.outgoing@.len(),
                self.airports == old(self).airports,
                self.flights_container == old(self).flights_container,
                airport@.wf(),
                old(self).wf(),
                self.id_bound >= old(self).id_bound,
                self.id_bound == usize::MAX || forall|j: int|
                    0 <= j < i ==> (#[trigger] airport.outgoing@[j]).flight_id < self.id_bound,
            decreases airport.outgoing@.len() - i,
        {
            self.id_bound = raise_bound(self.id_bound, airport.outgoing[i].flight_id);
            i = i + 1;
        }
        airport_table_insert(&mut self.airports, id, airport);
    }

    pub fn has_airport(&self, airport_id: usize) -> (r: bool)
        ensures
            r == self.airports_view().contains_key(airport_id),
    {
        airport_table_contains(&self.airports, airport_id)
    }

    /// A handle on the airport for reading or for writing; `None` when it is unknown.
    pub fn get_airport_ref(&self, airport_id: usize, write: bool) -> (r: AirportAccess)
        ensures
            !self.airports_view().contains_key(airport_id) ==> r is Missing,
            self.airports_view().contains_key(airport_id) && write ==> r == AirportAccess::Write(
                airport_id,
            ),
            self.airports_view().contains_key(airport_id) && !write ==> r == AirportAccess::Read(
                airport_id,
            ),
    {
        if !airport_table_contains(&self.airports, airport_id) {
            AirportAccess::Missing
        } else if write {
            AirportAccess::Write(airport_id)
        } else {
            AirportAccess::Read(airport_id)
        }
    }

    /// Takes the index entries of a registered edge out of its origin airport.
    fn detach(&mut self, e: FlightEdge)
        requires
            old(self).wf(),
        ensures
            final(self).wf(),
            final(self).airports_view() == detached(old(self).airports_view(), e),
            final(self).flights_view() == old(self).flights_view(),
            final(self).id_bound == old(self).id_bound,
    {
        proof {
            lemma_detached_wf(self.airports_view(), e);
            lemma_ids_below_detached(self.airports_view(), e, self.id_bound);
        }
        airport_table_remove_edge(&mut self.airports, e.from, e.flight_id, e.depart_at);
    }

    /// Adds a flight to the registry and to its origin airport's index. A
    /// record whose airports are not both registered, or whose timestamps do
    /// not parse, changes nothing.
    pub fn add_flight(&mut self, flight: FlightDTO)
        requires
            old(self).wf(),
        ensures
            final(self).wf(),
            (final(self).airports_view(), final(self).flights_view()) == flight_added(
                old(self).airports_view(),
                old(self).flights_view(),
                flight,
            ),
    {
        match self.get_airport_ref(flight.from, true) {
            AirportAccess::Write(_) => {},
            _ => {
                return;
            },
        }
        match self.get_airport_ref(flight.to, false) {
            AirportAccess::Read(_) => {},
            _ => {
                return;
            },
        }
        let edge = match flight.to_edge() {
            Some(e) => e,
            None => {
                return;
            },
        };
        match self.flights_container.get_flight(edge.flight_id) {
            Some(previous) => self.detach(previous),
            None => {},
        }
        let ghost a = self.airports_view();
        let ghost bound = self.id_bound;
        assert(a.contains_key(edge.from));
        assert(a[edge.from].id == edge.from);
        self.flights_container.add_flight(edge);
        self.id_bound = raise_bound(self.id_bound, edge.flight_id);
        airport_table_add_edge(&mut self.airports, edge.from, edge);
        proof {
            lemma_with_flight_wf(a[edge.from], edge);
            lemma_ids_below_with_flight(a, edge, bound, self.id_bound);
            assert forall|k: usize| #[trigger]
                self.airports_view().contains_key(k) implies self.airports_view()[k].id == k
                && self.airports_view()[k].wf() by {
                if k != edge.from {
                    assert(a.contains_key(k));
                }
            }
        }
    }

    /// Removes a flight from its origin airport's index and from the registry;
    /// fails with `NotFound` where the id is not registered.
    pub fn remove_flight(&mut self, flight_id: usize) -> (r: Result<(), RegistryError>)
        requires
            old(self).wf(),
        ensures
            final(self).wf(),
            (final(self).airports_view(), final(self).flights_view()) == flight_removed(
                old(self).airports_view(),
                old(self).flights_view(),
                flight_id,
            ),
            r is Ok <==> old(self).flights_view().contains_key(flight_id),
            r is Err ==> r == Err::<(), RegistryError>(RegistryError::NotFound),
    {
        match self.flights_container.get_flight(flight_id) {
            Some(e) => {
                self.detach(e);
                self.flights_container.remove_flight(flight_id)
            },
            None => Err(RegistryError::NotFound),
        }
    }

    /// The edges leaving an airport that depart within `[start, end]` (one day
    /// from `start` when no end is given), by departure and then cost; none
    /// when the airport is unknown.
    pub fn flights_between(&self, airport_id: usize, start: i64, end: Option<i64>) -> (r: Vec<
        FlightEdge,
    >)
        ensures
            r@ == (if self.airports_view().contains_key(airport_id) {
                self.airports_view()[airport_id].between(start, window_end(start, end))
            } else {
                Seq::empty()
            }),
    {
        let end_date = match end {
            Some(e) => e,
            None => if start <= i64::MAX - DAY {
                start + DAY
            } else {
                i64::MAX
            },
        };
        match airport_table_between(&self.airports, airport_id, start, end_date) {
            Some(v) => v,
            None => Vec::new(),
        }
    }
}

/// A time-window lookup returns exactly the edges of the index that depart
/// within the window: none from outside it, and every one from inside it.
pub proof fn lemma_between_in_range(a: AirportView, start: i64, end: i64)
    ensures
        forall|i: int|
            0 <= i < a.between(start, end).len() ==> start <= (#[trigger] a.between(
                start,
                end,
            )[i]).depart_at <= end,
        forall|i: int|
            0 <= i < a.outgoing.len() && start <= a.outgoing[i].depart_at <= end
                ==> #[trigger] a.between(start, end).contains(a.outgoing[i]),
{
    lemma_filter_index(a.outgoing, departs_within(start, end));
}

/// Edges that a lookup returns with the same departure come in order of
/// non-decreasing cost.
pub proof fn lemma_between_bucket_order(a: AirportView, start: i64, end: i64)
    requires
        a.wf(),
    ensures
        forall|i: int, j: int|
            0 <= i < j < a.between(start, end).len() && (#[trigger] a.between(start, end)[i]).depart_at
                == (#[trigger] a.between(start, end)[j]).depart_at ==> a.between(start, end)[i].cost
                <= a.between(start, end)[j].cost,
{
    lemma_filter_index(a.outgoing, departs_within(start, end));
}

/// Registering two records with the same flight id leaves one edge under
/// that id: the one of the later record.
pub proof fn lemma_last_insert_wins(
    airports: Map<usize, AirportView>,
    flights: Map<usize, FlightEdge>,
    first: FlightDTO,
    second: FlightDTO,
)
    requires
        first.flight_id == second.flight_id,
        airports.contains_key(second.from),
        airports.contains_key(second.to),
        edge_of(second) is Some,
    ensures
        ({
            let (a1, f1) = flight_added(airports, flights, first);
            let (a2, f2) = flight_added(a1, f1, second);
            f2[second.flight_id] == edge_of(second)->0
        }),
{
    let (a1, f1) = flight_added(airports, flights, first);
    if flights.contains_key(first.flight_id) {
        assert(detached(airports, flights[first.flight_id]).dom() =~= airports.dom());
    }
    assert(a1.contains_key(second.from) && a1.contains_key(second.to));
    if f1.contains_key(second.flight_id) {
        assert(detached(a1, f1[second.flight_id]).dom() =~= a1.dom());
    }
}

/// Once a registered flight id is removed, a lookup at its origin for its
/// departure lists no edge with that id.
pub proof fn lemma_removal_clears_bucket(
    airports: Map<usize, AirportView>,
    flights: Map<usize, FlightEdge>,
    flight_id: usize,
)
    requires
        flights.contains_key(flight_id),
        flights[flight_id].flight_id == flight_id,
    ensures
        ({
            let e = flights[flight_id];
            let (a2, f2) = flight_removed(airports, flights, flight_id);
            airports.contains_key(e.from) ==> forall|i: int|
                0 <= i < a2[e.from].between(e.depart_at, e.depart_at).len()
                    ==> (#[trigger] a2[e.from].between(e.depart_at, e.depart_at)[i]).flight_id
                    != flight_id
        }),
{
    let e = flights[flight_id];
    if airports.contains_key(e.from) {
        let (a2, f2) = flight_removed(airports, flights, flight_id);
        let removed = a2[e.from];
        let q = not_entry(e.flight_id, e.depart_at);
        assert(removed.outgoing == airports[e.from].outgoing.filter(q));
        lemma_filter_index(airports[e.from].outgoing, q);
        let b = removed.between(e.depart_at, e.depart_at);
        lemma_filter_index(removed.outgoing, departs_within(e.depart_at, e.depart_at));
        assert forall|i: int| 0 <= i < b.len() implies (#[trigger] b[i]).flight_id != flight_id by {
            assert(removed.outgoing.contains(b[i]));
            let m = choose|m: int| 0 <= m < removed.outgoing.len() && removed.outgoing[m] == b[i];
            assert(q(removed.outgoing[m]));
        }
    }
}

/// Once a flight is added, a lookup at its origin for its exact departure
/// lists it; once that flight id is removed again, the same lookup lists no
/// edge with that id.
pub proof fn lemma_index_coherence(
    airports: Map<usize, AirportView>,
    flights: Map<usize, FlightEdge>,
    dto: FlightDTO,
)
    requires
        airports_wf(airports),
        airports.contains_key(dto.from),
        airports.contains_key(dto.to),
        edge_of(dto) is Some,
    ensures
        ({
            let e = edge_of(dto)->0;
            let (a1, f1) = flight_added(airports, flights, dto);
            let (a2, f2) = flight_removed(a1, f1, dto.flight_id);
            &&& a1[dto.from].between(e.depart_at, e.depart_at).contains(e)
            &&& forall|i: int|
                0 <= i < a2[dto.from].between(e.depart_at, e.depart_at).len()
                    ==> (#[trigger] a2[dto.from].between(e.depart_at, e.depart_at)[i]).flight_id
                    != dto.flight_id
        }),
{
    let e = edge_of(dto)->0;
    let a0 = if flights.contains_key(e.flight_id) {
        detached(airports, flights[e.flight_id])
    } else {
        airports
    };
    if flights.contains_key(e.flight_id) {
        lemma_detached_wf(airports, flights[e.flight_id]);
    }
    assert(a0.contains_key(dto.from));
    let before = a0[dto.from];
    lemma_insertion_index(before.outgoing, e);
    let (a1, f1) = flight_added(airports, flights, dto);
    let added = a1[dto.from];
    assert(added == before.with_flight(e));
    assert(added.outgoing[insertion_index(before.outgoing, e)] == e);
    lemma_between_in_range(added, e.depart_at, e.depart_at);
    assert(f1[dto.flight_id] == e);
    let (a2, f2) = flight_removed(a1, f1, dto.flight_id);
    let removed = a2[dto.from];
    assert(removed == added.without_flight(e.flight_id, e.depart_at));
    let q = not_entry(e.flight_id, e.depart_at);
    lemma_filter_index(added.outgoing, q);
    let b = removed.between(e.depart_at, e.depart_at);
    lemma_filter_index(removed.outgoing, departs_within(e.depart_at, e.depart_at));
    assert forall|i: int| 0 <= i < b.len() implies (#[trigger] b[i]).flight_id != dto.flight_id by {
        assert(removed.outgoing.contains(b[i]));
        let m = choose|m: int| 0 <= m < removed.outgoing.len() && removed.outgoing[m] == b[i];
        assert(q(removed.outgoing[m]));
    }
}

} // verus!
