use flight_search::airport::{Airport, AirportAccess, AirportsContainer};
use flight_search::flight::{FlightDTO, FlightEdge, FlightEdgeWrapper, FlightsContainer, RegistryError};
use flight_search::time::parse_timestamp;

fn ts(text: &str) -> i64 {
    parse_timestamp(text).unwrap()
}

fn dto(id: usize, from: usize, to: usize, cost: i32, dep: &str, arr: &str) -> FlightDTO {
    FlightDTO {
        flight_id: id,
        from,
        to,
        cost,
        arrival_date: arr.to_string(),
        departure_date: dep.to_string(),
    }
}

fn abc() -> AirportsContainer {
    let mut c = AirportsContainer::new();
    c.add_airport(Airport::new(1, "A".to_string()));
    c.add_airport(Airport::new(2, "B".to_string()));
    c.add_airport(Airport::new(3, "C".to_string()));
    c
}

fn ids(edges: &[FlightEdge]) -> Vec<usize> {
    edges.iter().map(|e| e.flight_id).collect()
}

#[test]
fn overnight_arrival_moves_to_next_day() {
    let e = dto(1, 1, 2, 5, "2024-01-14 23:30:00", "2024-01-14 00:45:00").to_edge().unwrap();
    assert_eq!(e.depart_at, ts("2024-01-14 23:30:00"));
    assert_eq!(e.arrive_at, ts("2024-01-15 00:45:00"));
}

#[test]
fn same_day_arrival_is_kept() {
    let e = dto(1, 1, 2, 5, "2024-01-14 08:00:00", "2024-01-14 10:00:00").to_edge().unwrap();
    assert_eq!(e.arrive_at, ts("2024-01-14 10:00:00"));
    assert_eq!((e.flight_id, e.from, e.to, e.cost), (1, 1, 2, 5));
}

#[test]
fn end_of_day_arrival_is_next_midnight() {
    let e = dto(1, 1, 2, 5, "2024-01-14 22:00:00", "2024-01-14 24:00:00").to_edge().unwrap();
    assert_eq!(e.arrive_at, ts("2024-01-15 00:00:00"));
    let d = dto(1, 1, 2, 5, "2024-01-14 24:00:00", "2024-01-15 01:00:00");
    assert_eq!(d.departure_date(), Some(ts("2024-01-15 00:00:00")));
}

#[test]
fn unreadable_record_gives_no_edge() {
    assert!(dto(1, 1, 2, 5, "yesterday", "2024-01-14 10:00:00").to_edge().is_none());
    assert!(dto(1, 1, 2, 5, "2024-01-14 10:00:00", "").to_edge().is_none());
}

#[test]
fn edges_are_equal_by_flight_id() {
    let a = dto(7, 1, 2, 5, "2024-01-14 08:00:00", "2024-01-14 10:00:00").to_edge().unwrap();
    let b = dto(7, 2, 3, 9, "2024-01-15 08:00:00", "2024-01-15 10:00:00").to_edge().unwrap();
    let c = dto(8, 1, 2, 5, "2024-01-14 08:00:00", "2024-01-14 10:00:00").to_edge().unwrap();
    assert!(a == b);
    assert!(a != c);
    assert_eq!(FlightEdgeWrapper::new(a).flight().flight_id, 7);
}

#[test]
fn flight_registry_add_get_remove() {
    let mut f = FlightsContainer::new();
    let e = dto(3, 1, 2, 5, "2024-01-14 08:00:00", "2024-01-14 10:00:00").to_edge().unwrap();
    assert_eq!(f.add_flight(e).flight_id, 3);
    assert_eq!(f.len(), 1);
    assert_eq!(f.get_flight(3).unwrap().cost, 5);
    assert!(f.get_flight(4).is_none());
    assert_eq!(f.remove_flight(3), Ok(()));
    assert_eq!(f.remove_flight(3), Err(RegistryError::NotFound));
    assert_eq!(f.len(), 0);
}

#[test]
fn last_insert_for_an_id_wins() {
    let mut c = abc();
    c.add_flight(dto(5, 1, 2, 100, "2024-01-14 08:00:00", "2024-01-14 10:00:00"));
    c.add_flight(dto(5, 2, 3, 40, "2024-01-14 12:00:00", "2024-01-14 13:00:00"));
    assert_eq!(c.flights_container.len(), 1);
    let e = c.flights_container.get_flight(5).unwrap();
    assert_eq!((e.from, e.to, e.cost), (2, 3, 40));
    assert!(c.flights_between(1, ts("2024-01-14 00:00:00"), None).is_empty());
    assert_eq!(ids(&c.flights_between(2, ts("2024-01-14 00:00:00"), None)), vec![5]);
}

#[test]
fn airports_and_handles() {
    let c = abc();
    assert!(c.has_airport(1));
    assert!(!c.has_airport(4));
    assert!(matches!(c.get_airport_ref(1, true), AirportAccess::Write(1)));
    assert!(matches!(c.get_airport_ref(2, false), AirportAccess::Read(2)));
    assert!(matches!(c.get_airport_ref(4, false), AirportAccess::Missing));
}

#[test]
fn flight_with_unknown_airport_is_ignored() {
    let mut c = abc();
    c.add_flight(dto(1, 1, 9, 10, "2024-01-14 08:00:00", "2024-01-14 10:00:00"));
    c.add_flight(dto(2, 9, 1, 10, "2024-01-14 08:00:00", "2024-01-14 10:00:00"));
    assert_eq!(c.flights_container.len(), 0);
    assert!(c.flights_between(1, ts("2024-01-14 00:00:00"), None).is_empty());
}

#[test]
fn lookup_orders_by_departure_then_cost() {
    let mut c = abc();
    c.add_flight(dto(1, 1, 2, 300, "2024-01-14 09:00:00", "2024-01-14 10:00:00"));
    c.add_flight(dto(2, 1, 2, 100, "2024-01-14 09:00:00", "2024-01-14 10:00:00"));
    c.add_flight(dto(3, 1, 3, 200, "2024-01-14 09:00:00", "2024-01-14 10:00:00"));
    c.add_flight(dto(4, 1, 3, 50, "2024-01-14 11:00:00", "2024-01-14 12:00:00"));
    c.add_flight(dto(5, 1, 3, 10, "2024-01-14 07:00:00", "2024-01-14 08:00:00"));
    let got = c.flights_between(1, ts("2024-01-14 00:00:00"), None);
    assert_eq!(ids(&got), vec![5, 2, 3, 1, 4]);
}

#[test]
fn lookup_keeps_to_the_window() {
    let mut c = abc();
    c.add_flight(dto(1, 1, 2, 1, "2024-01-14 08:00:00", "2024-01-14 09:00:00"));
    c.add_flight(dto(2, 1, 2, 1, "2024-01-14 10:00:00", "2024-01-14 11:00:00"));
    c.add_flight(dto(3, 1, 2, 1, "2024-01-14 12:00:00", "2024-01-14 13:00:00"));
    c.add_flight(dto(4, 1, 2, 1, "2024-01-15 08:00:00", "2024-01-15 09:00:00"));
    c.add_flight(dto(5, 1, 2, 1, "2024-01-15 08:00:01", "2024-01-15 09:00:00"));
    let got = c.flights_between(1, ts("2024-01-14 10:00:00"), Some(ts("2024-01-14 12:00:00")));
    assert_eq!(ids(&got), vec![2, 3]);
    let day = c.flights_between(1, ts("2024-01-14 08:00:00"), None);
    assert_eq!(ids(&day), vec![1, 2, 3, 4]);
    let empty = c.flights_between(1, ts("2024-01-14 12:00:00"), Some(ts("2024-01-14 10:00:00")));
    assert!(empty.is_empty());
    assert!(c.flights_between(7, ts("2024-01-14 00:00:00"), None).is_empty());
}

#[test]
fn added_flight_is_found_then_gone_after_removal() {
    let mut c = abc();
    c.add_flight(dto(10, 1, 2, 100, "2024-01-14 08:00:00", "2024-01-14 10:00:00"));
    c.add_flight(dto(11, 1, 3, 70, "2024-01-14 08:00:00", "2024-01-14 09:00:00"));
    let at = ts("2024-01-14 08:00:00");
    assert_eq!(ids(&c.flights_between(1, at, Some(at))), vec![11, 10]);
    assert_eq!(c.remove_flight(10), Ok(()));
    assert_eq!(ids(&c.flights_between(1, at, Some(at))), vec![11]);
    assert!(c.flights_container.get_flight(10).is_none());
}

#[test]
fn removing_unknown_flight_reports_not_found() {
    let mut c = abc();
    c.add_flight(dto(10, 1, 2, 100, "2024-01-14 08:00:00", "2024-01-14 10:00:00"));
    c.add_flight(dto(11, 2, 3, 50, "2024-01-14 10:30:00", "2024-01-14 12:00:00"));
    assert_eq!(c.remove_flight(999), Err(RegistryError::NotFound));
    assert_eq!(c.remove_flight(10), Ok(()));
    assert!(c.has_airport(1) && c.has_airport(2) && c.has_airport(3));
    assert!(c.flights_between(1, ts("2024-01-14 00:00:00"), None).is_empty());
    assert_eq!(c.remove_flight(10), Err(RegistryError::NotFound));
}
