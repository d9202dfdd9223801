use flight_search::airport::{Airport, AirportsContainer};
use flight_search::flight::FlightDTO;
use flight_search::search::{PathState, Search, SearchQuery};

fn dto(id: usize, from: usize, to: usize, cost: i32, dep: &str, arr: &str) -> FlightDTO {
    FlightDTO {
        flight_id: id,
        from,
        to,
        cost,
        arrival_date: arr.to_string(),
        departure_date: dep.to_string(),
    }
}

fn graph() -> AirportsContainer {
    let mut c = AirportsContainer::new();
    c.add_airport(Airport::new(1, "A".to_string()));
    c.add_airport(Airport::new(2, "B".to_string()));
    c.add_airport(Airport::new(3, "C".to_string()));
    c.add_flight(dto(10, 1, 2, 100, "2024-01-14 08:00:00", "2024-01-14 10:00:00"));
    c.add_flight(dto(11, 2, 3, 50, "2024-01-14 10:30:00", "2024-01-14 12:00:00"));
    c
}

fn query(from: usize, to: usize, date: &str, hops: usize, results: usize) -> SearchQuery {
    SearchQuery { from, to, date: date.to_string(), hops, results }
}

fn legs(p: &PathState) -> Vec<usize> {
    p.path.iter().map(|e| e.flight_id).collect()
}

#[test]
fn two_leg_itinerary_is_found() {
    let s = Search::new(graph());
    let found = s.find(query(1, 3, "2024-01-14", 2, 5));
    assert_eq!(found.len(), 1);
    assert_eq!(legs(&found[0]), vec![10, 11]);
    assert_eq!(found[0].cost, 150);
    assert_eq!(found[0].current.flight_id, 11);
}

#[test]
fn wrong_date_finds_nothing() {
    let s = Search::new(graph());
    assert!(s.find(query(1, 3, "2024-01-15", 2, 5)).is_empty());
}

#[test]
fn unknown_airport_or_date_finds_nothing() {
    let s = Search::new(graph());
    assert!(s.find(query(1, 9, "2024-01-14", 2, 5)).is_empty());
    assert!(s.find(query(9, 3, "2024-01-14", 2, 5)).is_empty());
    assert!(s.find(query(1, 3, "14/01/2024", 2, 5)).is_empty());
    assert!(s.find(query(1, 3, "2024-01-14", 2, 0)).is_empty());
}

#[test]
fn short_connection_is_refused() {
    let mut c = graph();
    c.add_flight(dto(12, 2, 3, 1, "2024-01-14 10:10:00", "2024-01-14 11:00:00"));
    c.add_flight(dto(13, 2, 3, 2, "2024-01-14 10:15:00", "2024-01-14 11:00:00"));
    let found = Search::new(c).find(query(1, 3, "2024-01-14", 3, 5));
    let all: Vec<Vec<usize>> = found.iter().map(legs).collect();
    assert_eq!(all, vec![vec![10, 13], vec![10, 11]]);
}

#[test]
fn results_are_capped_and_cheapest_first() {
    let mut c = graph();
    c.add_flight(dto(12, 1, 3, 400, "2024-01-14 09:00:00", "2024-01-14 11:00:00"));
    c.add_flight(dto(13, 1, 3, 120, "2024-01-14 13:00:00", "2024-01-14 15:00:00"));
    let s = Search::new(c);
    let all = s.find(query(1, 3, "2024-01-14", 3, 10));
    let costs: Vec<i64> = all.iter().map(|p| p.cost).collect();
    assert_eq!(costs, vec![120, 150, 400]);
    let two = s.find(query(1, 3, "2024-01-14", 3, 2));
    assert_eq!(two.iter().map(|p| p.cost).collect::<Vec<i64>>(), vec![120, 150]);
    let one = s.find(query(1, 3, "2024-01-14", 3, 1));
    assert_eq!(one.len(), 1);
    assert_eq!(legs(&one[0]), vec![13]);
}

#[test]
fn no_return_to_origin_and_no_late_arrival() {
    let mut c = graph();
    c.add_airport(Airport::new(4, "D".to_string()));
    c.add_flight(dto(20, 2, 1, 1, "2024-01-14 11:00:00", "2024-01-14 12:00:00"));
    c.add_flight(dto(21, 1, 3, 1, "2024-01-14 13:00:00", "2024-01-14 14:00:00"));
    c.add_flight(dto(22, 2, 4, 1, "2024-01-14 11:00:00", "2024-01-14 12:00:00"));
    c.add_flight(dto(23, 4, 3, 1, "2024-01-16 01:00:00", "2024-01-16 02:00:00"));
    let found = Search::new(c).find(query(1, 3, "2024-01-14", 3, 10));
    let all: Vec<Vec<usize>> = found.iter().map(legs).collect();
    assert_eq!(all, vec![vec![21], vec![10, 11]]);
}

#[test]
fn readable_path_names_each_leg() {
    let c = graph();
    let s = Search::new(c);
    let found = s.find(query(1, 3, "2024-01-14", 2, 5));
    let lines = found[0].readable_path(&s.airports);
    assert_eq!(
        lines,
        vec![
            "Flight 10 from A to B, from 2024-01-14 08:00:00 to 2024-01-14 10:00:00".to_string(),
            "Flight 11 from B to C, from 2024-01-14 10:30:00 to 2024-01-14 12:00:00".to_string(),
            "Total cost: 150".to_string(),
        ]
    );
}

#[test]
fn no_budget_gives_single_legs() {
    let mut c = graph();
    c.add_flight(dto(12, 1, 3, 400, "2024-01-14 09:00:00", "2024-01-14 11:00:00"));
    let found = Search::new(c).find(query(1, 3, "2024-01-14", 0, 10));
    let all: Vec<Vec<usize>> = found.iter().map(legs).collect();
    assert_eq!(all, vec![vec![12]]);
}

#[test]
fn first_leg_obeys_origin_and_horizon() {
    let mut c = graph();
    c.add_flight(dto(30, 1, 1, 1, "2024-01-14 09:00:00", "2024-01-14 09:30:00"));
    c.add_flight(dto(31, 1, 3, 1, "2024-01-14 09:00:00", "2024-01-17 09:30:00"));
    let s = Search::new(c);
    let to_c: Vec<Vec<usize>> = s.find(query(1, 3, "2024-01-14", 3, 10)).iter().map(legs).collect();
    assert_eq!(to_c, vec![vec![10, 11]]);
    assert!(s.find(query(1, 1, "2024-01-14", 3, 10)).is_empty());
}

#[test]
fn negative_total_cost_is_written_with_sign() {
    let mut c = AirportsContainer::new();
    c.add_airport(Airport::new(1, "A".to_string()));
    c.add_airport(Airport::new(2, "B".to_string()));
    c.add_flight(dto(3, 1, 2, -42, "2024-01-14 08:00:00", "2024-01-14 09:00:00"));
    let s = Search::new(c);
    let found = s.find(query(1, 2, "2024-01-14", 1, 1));
    assert_eq!(found[0].readable_path(&s.airports)[1], "Total cost: -42");
}
