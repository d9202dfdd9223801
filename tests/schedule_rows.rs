use flight_search::airport::AirportsContainer;
use flight_search::import::{format_datetime, import_airport_row, import_row, import_rows, AirportRowError};
use flight_search::time::parse_timestamp;

fn row(origin: &str, dest: &str, date: &str, dep: &str, arr: &str, distance: &str) -> Vec<String> {
    let mut f = vec![String::new(); 64];
    f[5] = date.to_string();
    f[20] = origin.to_string();
    f[23] = format!("O{}", origin);
    f[29] = dest.to_string();
    f[32] = format!("D{}", dest);
    f[38] = dep.to_string();
    f[49] = arr.to_string();
    f[63] = distance.to_string();
    f
}

#[test]
fn datetime_from_four_digit_time() {
    assert_eq!(format_datetime("2024-01-14", "0830"), "2024-01-14 08:30:00");
    assert_eq!(format_datetime("2024-01-14", " 2400 "), "2024-01-14 24:00:00");
    assert_eq!(format_datetime("2024-01-14", "12345"), "2024-01-14 123:45:00");
}

#[test]
fn datetime_from_short_times() {
    assert_eq!(format_datetime("2024-01-14", "7"), "2024-01-14 00:00:00");
    assert_eq!(format_datetime("2024-01-14", "11"), "2024-01-14 11:00:00");
    assert_eq!(format_datetime("2024-01-14", "930"), "2024-01-14 0:9:00");
}

#[test]
fn accepted_row_adds_airports_and_flight() {
    let mut c = AirportsContainer::new();
    assert!(import_row(&mut c, &row("1", "2", "2024-01-14", "0800", "1000", "250"), 0));
    assert!(c.has_airport(1) && c.has_airport(2));
    let e = c.flights_container.get_flight(0).unwrap();
    assert_eq!((e.from, e.to, e.cost), (1, 2, 250));
    assert_eq!(e.depart_at, parse_timestamp("2024-01-14 08:00:00").unwrap());
    assert_eq!(e.arrive_at, parse_timestamp("2024-01-14 10:00:00").unwrap());
}

#[test]
fn overnight_row_arrives_next_day() {
    let mut c = AirportsContainer::new();
    assert!(import_row(&mut c, &row("1", "2", "2024-01-14", "2330", "0045", "x"), 7));
    let e = c.flights_container.get_flight(7).unwrap();
    assert_eq!(e.cost, 0);
    assert_eq!(e.arrive_at, parse_timestamp("2024-01-15 00:45:00").unwrap());
}

#[test]
fn rejected_rows_change_nothing() {
    let mut c = AirportsContainer::new();
    assert!(!import_row(&mut c, &row("1", "1", "2024-01-14", "0800", "1000", "5"), 0));
    assert!(!import_row(&mut c, &row("a", "2", "2024-01-14", "0800", "1000", "5"), 0));
    assert!(!import_row(&mut c, &row("1", "2", "  ", "0800", "1000", "5"), 0));
    assert!(!import_row(&mut c, &row("1", "2", "2024-01-14", "", "1000", "5"), 0));
    assert!(!import_row(&mut c, &row("1", "2", "2024-01-14", "0800", " ", "5"), 0));
    assert!(!c.has_airport(1) && !c.has_airport(2));
    assert_eq!(c.flights_container.len(), 0);
}

#[test]
fn short_row_is_rejected() {
    let mut c = AirportsContainer::new();
    let mut f = row("1", "2", "2024-01-14", "0800", "1000", "5");
    f.truncate(63);
    assert!(!import_row(&mut c, &f, 0));
    assert_eq!(c.flights_container.len(), 0);
}

#[test]
fn rows_are_numbered_from_registry_size() {
    let mut c = AirportsContainer::new();
    assert!(import_row(&mut c, &row("1", "2", "2024-01-14", "0800", "1000", "5"), 0));
    let rows = vec![
        row("2", "3", "2024-01-14", "1100", "1200", "6"),
        row("3", "3", "2024-01-14", "1100", "1200", "6"),
        row("3", "1", "2024-01-14", "1300", "1400", "7"),
    ];
    assert_eq!(import_rows(&mut c, &rows), 2);
    assert_eq!(c.flights_container.get_flight(1).unwrap().from, 2);
    assert_eq!(c.flights_container.get_flight(2).unwrap().from, 3);
    assert_eq!(c.flights_container.len(), 3);
}

#[test]
fn ids_and_distances_read_as_decimal() {
    let mut c = AirportsContainer::new();
    assert!(import_row(&mut c, &row("+1", "2", "2024-01-14", "0800", "1000", "-5"), 0));
    assert_eq!(c.flights_container.get_flight(0).unwrap().cost, -5);
    assert!(import_row(&mut c, &row("3", "4", "2024-01-14", "0800", "1000", "99999999999"), 1));
    assert_eq!(c.flights_container.get_flight(1).unwrap().cost, 0);
    assert!(!import_row(&mut c, &row("-1", "2", "2024-01-14", "0800", "1000", "5"), 2));
    assert!(!import_row(&mut c, &row(" 1", "2", "2024-01-14", "0800", "1000", "5"), 2));
    assert!(!import_row(&mut c, &row("+", "2", "2024-01-14", "0800", "1000", "5"), 2));
    assert_eq!(c.flights_container.len(), 2);
}

#[test]
fn airport_rows_register_airports() {
    let mut c = AirportsContainer::new();
    let f = |v: &[&str]| v.iter().map(|x| x.to_string()).collect::<Vec<String>>();
    assert_eq!(import_airport_row(&mut c, &f(&["12", "x", "y", "ORD"])), Ok(true));
    assert!(c.has_airport(12));
    assert_eq!(import_airport_row(&mut c, &f(&["ab", "x", "y", "ORD"])), Err(AirportRowError::BadAirportId));
    assert_eq!(import_airport_row(&mut c, &f(&["13"])), Ok(false));
    assert_eq!(import_airport_row(&mut c, &f(&["14", "x"])), Ok(false));
    assert!(!c.has_airport(13) && !c.has_airport(14));
}
