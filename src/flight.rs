//! Flight edges, the record a loader hands in, and the registry of edges by id.
use vstd::prelude::*;
use dashmap::DashMap;
use crate::time::{parse_timestamp, timestamp_of, timestamp_in_range, DAY, TIME_LIMIT};

verus! {

/// A scheduled flight: a directed, timed and weighted edge between two airports,
/// which it names by id. Two edges are equal when their flight ids are.
#[derive(Clone, Copy, Debug)]
pub struct FlightEdge {
    pub flight_id: usize,
    pub to: usize,
    pub from: usize,
    pub cost: i32,
    pub arrive_at: i64,
    pub depart_at: i64,
}

impl PartialEq for FlightEdge {
    fn eq(&self, other: &FlightEdge) -> (r: bool) {
        self.flight_id == other.flight_id
    }
}

impl vstd::std_specs::cmp::PartialEqSpecImpl for FlightEdge {
    open spec fn obeys_eq_spec() -> bool {
        true
    }

    open spec fn eq_spec(&self, other: &FlightEdge) -> bool {
        self.flight_id == other.flight_id
    }
}

impl Eq for FlightEdge {}

impl FlightEdge {
    /// Both instants lie well inside the range of `i64`, so that the search
    /// can add hours to them.
    pub open spec fn times_bounded(self) -> bool {
        -2 * TIME_LIMIT <= self.depart_at <= 2 * TIME_LIMIT
            && -2 * TIME_LIMIT <= self.arrive_at <= 2 * TIME_LIMIT
    }
}

/// A flight as a loader supplies it, with its instants still as text.
#[derive(Clone, Debug)]
pub struct FlightDTO {
    pub flight_id: usize,
    pub from: usize,
    pub to: usize,
    pub cost: i32,
    pub arrival_date: String,
    pub departure_date: String,
}

/// The edge that a record describes: an arrival that reads earlier than the
/// departure is taken to be on the following day.
pub open spec fn edge_of(dto: FlightDTO) -> Option<FlightEdge> {
    edge_of_text(dto.flight_id, dto.from, dto.to, dto.cost, dto.arrival_date@, dto.departure_date@)
}

/// The edge of a record given with its instants as character sequences.
pub open spec fn edge_of_text(
    flight_id: usize,
    from: usize,
    to: usize,
    cost: i32,
    arrival: Seq<char>,
    departure: Seq<char>,
) -> Option<FlightEdge> {
    match (timestamp_of(arrival), timestamp_of(departure)) {
        (Some(a), Some(d)) => Some(
            FlightEdge {
                flight_id,
                to,
                from,
                cost,
                arrive_at: if a < d {
                    (a + DAY) as i64
                } else {
                    a
                },
                depart_at: d,
            },
        ),
        _ => None,
    }
}

impl FlightDTO {
    /// The edge this record describes; `None` where a timestamp does not parse.
    pub fn to_edge(&self) -> (r: Option<FlightEdge>)
        ensures
            r == edge_of(*self),
            r matches Some(e) ==> e.times_bounded(),
    {
        let arrival = parse_timestamp(self.arrival_date.as_str());
        let departure = parse_timestamp(self.departure_date.as_str());
        match (arrival, departure) {
            (Some(a), Some(d)) => {
                let arrive_at = if a < d {
                    a + DAY
                } else {
                    a
                };
                Some(
                    FlightEdge {
                        flight_id: self.flight_id,
                        to: self.to,
                        from: self.from,
                        cost: self.cost,
                        arrive_at,
                        depart_at: d,
                    },
                )
            },
            _ => None,
        }
    }

    /// The departure instant; `None` where it does not parse.
    pub fn departure_date(&self) -> (r: Option<i64>)
        ensures
            r == timestamp_of(self.departure_date@),
            timestamp_in_range(r),
    {
        parse_timestamp(self.departure_date.as_str())
    }
}

/// The failure of a removal whose flight id is not registered.
#[derive(Clone, Copy, Debug, PartialEq, Eq, Structural)]
pub enum RegistryError {
    NotFound,
}

/// dashmap's `DashMap`, opaque to proofs: what a table holds is reached
/// through the names and wrappers below.
#[verifier::external_type_specification]
#[verifier::external_body]
#[verifier::reject_recursive_types(K)]
#[verifier::reject_recursive_types(V)]
#[verifier::reject_recursive_types(S)]
pub struct ExDashMap<K, V, S>(dashmap::DashMap<K, V, S>);

/// A concurrent table of flights, keyed by flight id.
pub type FlightTable = DashMap<usize, FlightEdge>;

/// The entries of a concurrent table of flights, by flight id.
pub uninterp spec fn flight_entries(m: FlightTable) -> Map<usize, FlightEdge>;

/// Relies on `DashMap::new`: a new table is empty.
#[verifier::external_body]
fn flight_table_new() -> (r: FlightTable)
    ensures
        flight_entries(r).dom() =~= Set::<usize>::empty(),
        flight_entries(r).dom().finite(),
{
    DashMap::new()
}

/// Relies on `DashMap::insert`: the key now maps to the value, whatever it held.
#[verifier::external_body]
fn flight_table_insert(m: &mut FlightTable, k: usize, v: FlightEdge)
    ensures
        flight_entries(*final(m)) == flight_entries(*old(m)).insert(k, v),
        flight_entries(*final(m)).dom().finite(),
{
    m.insert(k, v);
}

/// Relies on `DashMap::get`: the value held under the key, copied out.
#[verifier::external_body]
fn flight_table_get(m: &FlightTable, k: usize) -> (r: Option<FlightEdge>)
    ensures
        r == (if flight_entries(*m).contains_key(k) {
            Some(flight_entries(*m)[k])
        } else {
            None
        }),
{
    m.get(&k).map(|e| *e.value())
}

/// Relies on `DashMap::remove`: the key no longer maps to anything, and the
/// value it held, if any, is handed back.
#[verifier::external_body]
fn flight_table_remove(m: &mut FlightTable, k: usize) -> (r: Option<FlightEdge>)
    ensures
        flight_entries(*final(m)) == flight_entries(*old(m)).remove(k),
        flight_entries(*final(m)).dom().finite(),
        r == (if flight_entries(*old(m)).contains_key(k) {
            Some(flight_entries(*old(m))[k])
        } else {
            None
        }),
{
    m.remove(&k).map(|(_, v)| v)
}

/// Relies on `DashMap::len`: the number of entries.
#[verifier::external_body]
fn flight_table_len(m: &FlightTable) -> (r: usize)
    ensures
        r as nat == flight_entries(*m).dom().len(),
{
    m.len()
}

/// The registry that owns every flight edge, by flight id.
pub struct FlightsContainer {
    pub flights: FlightTable,
}

impl View for FlightsContainer {
    type V = Map<usize, FlightEdge>;

    open spec fn view(&self) -> Map<usize, FlightEdge> {
        flight_entries(self.flights)
    }
}

impl FlightsContainer {
    /// Finitely many edges, each held under its own flight id.
    pub open spec fn wf(&self) -> bool {
        &&& self@.dom().finite()
        &&& forall|k: usize| #[trigger] self@.contains_key(k) ==> self@[k].flight_id == k
    }

    pub fn new() -> (r: Self)
        ensures
            r.wf(),
            r@.dom() =~= Set::<usize>::empty(),
    {
        FlightsContainer { flights: flight_table_new() }
    }

    /// Registers the edge under its id, replacing any edge held there, and
    /// hands the edge back.
    pub fn add_flight(&mut self, flight: FlightEdge) -> (r: FlightEdge)
        requires
            old(self).wf(),
        ensures
            final(self).wf(),
            final(self)@.dom().len() == old(self)@.dom().len() + (if old(self)@.contains_key(
                flight.flight_id,
            ) {
                0int
            } else {
                1int
            }),
            final(self)@ == old(self)@.insert(flight.flight_id, flight),
            r == flight,
    {
        flight_table_insert(&mut self.flights, flight.flight_id, flight);
        flight
    }

    pub fn get_flight(&self, flight_id: usize) -> (r: Option<FlightEdge>)
        ensures
            self.wf() && r is Some ==> r->0.flight_id == flight_id,
            r == (if self@.contains_key(flight_id) {
                Some(self@[flight_id])
            } else {
                None
            }),
    {
        flight_table_get(&self.flights, flight_id)
    }

    /// Removes the edge with this id; fails with `NotFound` where none is held.
    pub fn remove_flight(&mut self, flight_id: usize) -> (r: Result<(), RegistryError>)
        requires
            old(self).wf(),
        ensures
            final(self).wf(),
            final(self)@ == old(self)@.remove(flight_id),
            r is Ok <==> old(self)@.contains_key(flight_id),
            r is Err ==> r == Err::<(), RegistryError>(RegistryError::NotFound),
    {
        match flight_table_remove(&mut self.flights, flight_id) {
            Some(_) => Ok(()),
            None => Err(RegistryError::NotFound),
        }
    }

    /// The number of registered flights.
    pub fn len(&self) -> (r: usize)
        ensures
            r as nat == self@.dom().len(),
    {
        flight_table_len(&self.flights)
    }
}

/// An edge as held in a departure bucket, ordered by cost.
#[derive(Clone, Copy, Debug)]
pub struct FlightEdgeWrapper(pub FlightEdge);

impl FlightEdgeWrapper {
    pub fn new(flight: FlightEdge) -> (r: Self)
        ensures
            r.0 == flight,
    {
        FlightEdgeWrapper(flight)
    }

    pub fn flight(&self) -> (r: FlightEdge)
        ensures
            r == self.0,
    {
        self.0
    }
}

} // verus!
