//! What a loader of flight records offers, and how one row of a flight
//! schedule becomes airports and a flight in the registry.
use vstd::prelude::*;
use vstd::string::StringExecFns;
use crate::airport::{edge_added, Airport, AirportView, AirportsContainer};
use crate::flight::{edge_of_text, FlightDTO, FlightEdge};

verus! {

/// A source of flight records that fills a registry, such as a file of
/// schedule rows; it reports how many flights it added.
pub trait FlightImporter {
    fn import_flights(&mut self, file_path: &str) -> Result<usize, String>;
}

/// The columns of a schedule row that a flight is read from.
pub const FLIGHT_DATE: usize = 5;

pub const ORIGIN_ID: usize = 20;

pub const ORIGIN_CODE: usize = 23;

pub const DEST_ID: usize = 29;

pub const DEST_CODE: usize = 32;

pub const DEPARTURE_TIME: usize = 38;

pub const ARRIVAL_TIME: usize = 49;

pub const DISTANCE: usize = 63;

/// The least number of fields a schedule row has.
pub const ROW_WIDTH: usize = 64;

/// What `str::trim` leaves of a text.
pub uninterp spec fn trimmed(text: Seq<char>) -> Seq<char>;

/// Whether a text is one or more ASCII digits.
pub open spec fn all_digits(s: Seq<char>) -> bool {
    s.len() > 0 && forall|i: int| 0 <= i < s.len() ==> '0' <= #[trigger] s[i] <= '9'
}

/// The number that a text of ASCII digits writes in decimal.
pub open spec fn digits_value(s: Seq<char>) -> int
    decreases s.len(),
{
    if s.len() == 0 {
        0
    } else {
        digits_value(s.drop_last()) * 10 + (s.last() as u32 - '0' as u32)
    }
}

/// What `str::parse::<usize>` reads: an optional `+`, then digits, of a value
/// that fits.
pub open spec fn usize_value(text: Seq<char>) -> Option<usize> {
    let d = if text.len() > 0 && text[0] == '+' {
        text.drop_first()
    } else {
        text
    };
    if all_digits(d) && digits_value(d) <= usize::MAX {
        Some(digits_value(d) as usize)
    } else {
        None
    }
}

/// What `str::parse::<i32>` reads: an optional `+` or `-`, then digits, of a
/// value that fits.
pub open spec fn i32_value(text: Seq<char>) -> Option<i32> {
    let negative = text.len() > 0 && text[0] == '-';
    let d = if text.len() > 0 && (text[0] == '+' || text[0] == '-') {
        text.drop_first()
    } else {
        text
    };
    let v = if negative {
        -digits_value(d)
    } else {
        digits_value(d)
    };
    if all_digits(d) && i32::MIN <= v <= i32::MAX {
        Some(v as i32)
    } else {
        None
    }
}

/// Relies on `str::trim`: the text without leading and trailing whitespace, a
/// part of the text that is never longer.
#[verifier::external_body]
fn trim_text(text: &str) -> (r: &str)
    ensures
        r@ == trimmed(text@),
        r@.len() <= text@.len(),
{
    text.trim()
}

/// Relies on `str::parse::<usize>` (`FromStr for usize`), which its
/// documentation describes as an optional `+` followed by decimal digits.
#[verifier::external_body]
fn parse_usize(text: &str) -> (r: Option<usize>)
    ensures
        r == usize_value(text@),
{
    text.parse::<usize>().ok()
}

/// Relies on `str::parse::<i32>` (`FromStr for i32`), which its documentation
/// describes as an optional `+` or `-` followed by decimal digits.
#[verifier::external_body]
fn parse_i32(text: &str) -> (r: Option<i32>)
    ensures
        r == i32_value(text@),
{
    text.parse::<i32>().ok()
}

/// The hours and minutes of an `HHMM` time of day: up to two characters are
/// hours alone; three give hour `0` and, as minutes, the first character; from
/// four on the last two characters are the minutes.
pub open spec fn time_parts(t: Seq<char>) -> (Seq<char>, Seq<char>) {
    if t.len() <= 2 {
        (t, seq!['0', '0'])
    } else if t.len() == 3 {
        (seq!['0'], t.subrange(0, 1))
    } else {
        (t.subrange(0, t.len() - 2), t.subrange(t.len() - 2, t.len() as int))
    }
}

/// The timestamp text `{date} {hours}:{minutes}:00` for a date and an `HHMM`
/// time; a time shorter than two characters stands for midnight.
pub open spec fn datetime_text(date: Seq<char>, time: Seq<char>) -> Seq<char> {
    if time.len() < 2 {
        date + seq![' ', '0', '0', ':', '0', '0', ':', '0', '0']
    } else {
        let (h, m) = time_parts(trimmed(time));
        date + seq![' '] + h + seq![':'] + m + seq![':', '0', '0']
    }
}

/// Joins a flight date and an `HHMM` time of day into a timestamp text.
pub fn format_datetime(flight_date: &str, time_str: &str) -> (r: String)
    ensures
        r@ == datetime_text(flight_date@, time_str@),
{
    let mut r = String::from_str(flight_date);
    if time_str.unicode_len() < 2 {
        r.append(" 00:00:00");
        proof {
            reveal_strlit(" 00:00:00");
        }
        return r;
    }
    let t = trim_text(time_str);
    let n = t.unicode_len();
    let (hours, minutes) = if n <= 2 {
        (t, "00")
    } else if n == 3 {
        ("0", t.substring_char(0, 1))
    } else {
        (t.substring_char(0, n - 2), t.substring_char(n - 2, n))
    };
    proof {
        reveal_strlit("00");
        reveal_strlit("0");
        reveal_strlit(" ");
        reveal_strlit(":");
        reveal_strlit(":00");
        assert(hours@ == time_parts(t@).0);
        assert(minutes@ == time_parts(t@).1);
    }
    r.append(" ");
    r.append(hours);
    r.append(":");
    r.append(minutes);
    r.append(":00");
    r
}

/// Whether a row describes a flight: it has all the columns, both airport ids
/// read as numbers and differ, and the date and both times are not blank.
pub open spec fn row_accepted(f: Seq<String>) -> bool {
    &&& f.len() >= ROW_WIDTH
    &&& usize_value(f[ORIGIN_ID as int]@) is Some
    &&& usize_value(f[DEST_ID as int]@) is Some
    &&& usize_value(f[ORIGIN_ID as int]@) != usize_value(f[DEST_ID as int]@)
    &&& trimmed(f[FLIGHT_DATE as int]@).len() > 0
    &&& trimmed(f[DEPARTURE_TIME as int]@).len() > 0
    &&& trimmed(f[ARRIVAL_TIME as int]@).len() > 0
}

/// The airports with one more, unless one is held under that id already.
pub open spec fn with_airport(airports: Map<usize, AirportView>, id: usize, name: Seq<char>) -> Map<
    usize,
    AirportView,
> {
    if airports.contains_key(id) {
        airports
    } else {
        airports.insert(id, AirportView { id, name, outgoing: Seq::empty() })
    }
}

/// The edge that an accepted row describes under `flight_id`: the distance,
/// or `0` where it does not read as a number, is the cost.
pub open spec fn row_edge(f: Seq<String>, flight_id: usize) -> Option<FlightEdge> {
    edge_of_text(
        flight_id,
        usize_value(f[ORIGIN_ID as int]@)->0,
        usize_value(f[DEST_ID as int]@)->0,
        match i32_value(f[DISTANCE as int]@) {
            Some(d) => d,
            None => 0,
        },
        datetime_text(trimmed(f[FLIGHT_DATE as int]@), trimmed(f[ARRIVAL_TIME as int]@)),
        datetime_text(trimmed(f[FLIGHT_DATE as int]@), trimmed(f[DEPARTURE_TIME as int]@)),
    )
}

/// Airports and flights after one row: nothing changes for a rejected row;
/// for an accepted one both airports are registered where they are new,
/// named by their codes, and then its edge is added under `flight_id`.
pub open spec fn row_import(
    airports: Map<usize, AirportView>,
    flights: Map<usize, FlightEdge>,
    f: Seq<String>,
    flight_id: usize,
) -> (Map<usize, AirportView>, Map<usize, FlightEdge>) {
    if row_accepted(f) {
        let origin = usize_value(f[ORIGIN_ID as int]@)->0;
        let dest = usize_value(f[DEST_ID as int]@)->0;
        let a = with_airport(
            with_airport(airports, origin, f[ORIGIN_CODE as int]@),
            dest,
            f[DEST_CODE as int]@,
        );
        edge_added(a, flights, origin, dest, row_edge(f, flight_id))
    } else {
        (airports, flights)
    }
}

/// Adds what one schedule row describes: both airports, named by their codes
/// where they are new, then the flight under `flight_id`. A row that is not
/// accepted changes nothing; the result tells which happened.
pub fn import_row(container: &mut AirportsContainer, fields: &Vec<String>, flight_id: usize) -> (r:
    bool)
    requires
        old(container).wf(),
    ensures
        final(container).wf(),
        r == row_accepted(fields@),
        !r ==> final(container).airports_view() == old(container).airports_view()
            && final(container).flights_view() == old(container).flights_view(),
        (final(container).airports_view(), final(container).flights_view()) == row_import(
            old(container).airports_view(),
            old(container).flights_view(),
            fields@,
            flight_id,
        ),
{
    if fields.len() < ROW_WIDTH {
        return false;
    }
    let origin_id = match parse_usize(fields[ORIGIN_ID].as_str()) {
        Some(id) => id,
        None => {
            return false;
        },
    };
    let dest_id = match parse_usize(fields[DEST_ID].as_str()) {
        Some(id) => id,
        None => {
            return false;
        },
    };
    if dest_id == origin_id {
        return false;
    }
    let flight_date = trim_text(fields[FLIGHT_DATE].as_str());
    if flight_date.unicode_len() == 0 {
        return false;
    }
    let dep_time = trim_text(fields[DEPARTURE_TIME].as_str());
    let arr_time = trim_text(fields[ARRIVAL_TIME].as_str());
    if dep_time.unicode_len() == 0 || arr_time.unicode_len() == 0 {
        return false;
    }
    let cost = match parse_i32(fields[DISTANCE].as_str()) {
        Some(d) => d,
        None => 0,
    };
    let departure_date = format_datetime(flight_date, dep_time);
    let arrival_date = format_datetime(flight_date, arr_time);
    if !container.has_airport(origin_id) {
        let origin_code = fields[ORIGIN_CODE].clone();
        container.add_airport(Airport::new(origin_id, origin_code));
    }
    if !container.has_airport(dest_id) {
        let dest_code = fields[DEST_CODE].clone();
        container.add_airport(Airport::new(dest_id, dest_code));
    }
    let dto = FlightDTO { flight_id, from: origin_id, to: dest_id, cost, arrival_date, departure_date };
    let ghost mid = container.airports_view();
    container.add_flight(dto);
    proof {
        assert(mid =~= with_airport(
            with_airport(old(container).airports_view(), origin_id, fields@[ORIGIN_CODE as int]@),
            dest_id,
            fields@[DEST_CODE as int]@,
        ));
    }
    true
}

/// How many of the rows are accepted.
pub open spec fn accepted_rows(rows: Seq<Vec<String>>) -> nat
    decreases rows.len(),
{
    if rows.len() == 0 {
        0
    } else {
        accepted_rows(rows.drop_last()) + if row_accepted(rows.last()@) {
            1nat
        } else {
            0nat
        }
    }
}

/// Airports and flights after the rows in order, the accepted ones numbered
/// one after another from `start`.
pub open spec fn rows_imported(
    airports: Map<usize, AirportView>,
    flights: Map<usize, FlightEdge>,
    rows: Seq<Vec<String>>,
    start: nat,
) -> (Map<usize, AirportView>, Map<usize, FlightEdge>)
    decreases rows.len(),
{
    if rows.len() == 0 {
        (airports, flights)
    } else {
        let (a, f) = rows_imported(airports, flights, rows.drop_last(), start);
        row_import(a, f, rows.last()@, (start + accepted_rows(rows.drop_last())) as usize)
    }
}

/// Imports the rows in order, numbering the flights of accepted rows one
/// after another from the number of flights registered at the start; returns
/// how many flights were added.
pub fn import_rows(container: &mut AirportsContainer, rows: &Vec<Vec<String>>) -> (r: usize)
    requires
        old(container).wf(),
        old(container).flights_view().dom().len() + rows@.len() <= usize::MAX,
    ensures
        final(container).wf(),
        r == accepted_rows(rows@),
        (final(container).airports_view(), final(container).flights_view()) == rows_imported(
            old(container).airports_view(),
            old(container).flights_view(),
            rows@,
            old(container).flights_view().dom().len(),
        ),
{
    let start = container.flights_container.len();
    let mut added: usize = 0;
    let mut i: usize = 0;
    while i < rows.len()
        invariant
            container.wf(),
            i <= rows@.len(),
            start + rows@.len() <= usize::MAX,
            added == accepted_rows(rows@.take(i as int)),
            start == old(container).flights_view().dom().len(),
            (container.airports_view(), container.flights_view()) == rows_imported(
                old(container).airports_view(),
                old(container).flights_view(),
                rows@.take(i as int),
                start as nat,
            ),
            added <= i,
        decreases rows@.len() - i,
    {
        proof {
            assert(rows@.take(i + 1).drop_last() =~= rows@.take(i as int));
            assert(rows@.take(i + 1).last() == rows@[i as int]);
        }
        if import_row(container, &rows[i], start + added) {
            added = added + 1;
        }
        i = i + 1;
    }
    assert(rows@.take(rows@.len() as int) =~= rows@);
    added
}

/// Why a row of an airport file could not be read.
#[derive(Clone, Copy, Debug, PartialEq, Eq, Structural)]
pub enum AirportRowError {
    BadAirportId,
}

/// Registers the airport of one row of an airport file: its id in the first
/// field and its name in the fourth. A row of fewer than two fields is passed
/// over, as is one without a fourth field; an id that does not read as a
/// number is an error. A record held under the id before is replaced.
pub fn import_airport_row(container: &mut AirportsContainer, fields: &Vec<String>) -> (r: Result<
    bool,
    AirportRowError,
>)
    requires
        old(container).wf(),
    ensures
        final(container).wf(),
        final(container).flights_view() == old(container).flights_view(),
        fields@.len() >= 2 && usize_value(fields@[0]@) is None ==> r == Err::<
            bool,
            AirportRowError,
        >(AirportRowError::BadAirportId),
        fields@.len() >= 4 && usize_value(fields@[0]@) is Some ==> r == Ok::<bool, AirportRowError>(
            true,
        ) && final(container).airports_view() == old(container).airports_view().insert(
            usize_value(fields@[0]@)->0,
            AirportView {
                id: usize_value(fields@[0]@)->0,
                name: fields@[3]@,
                outgoing: Seq::empty(),
            },
        ),
        r != Ok::<bool, AirportRowError>(true) ==> final(container).airports_view() == old(
            container,
        ).airports_view(),
        (fields@.len() < 2 || (fields@.len() < 4 && usize_value(fields@[0]@) is Some)) ==> r
            == Ok::<bool, AirportRowError>(false),
{
    if fields.len() < 2 {
        return Ok(false);
    }
    let id = match parse_usize(fields[0].as_str()) {
        Some(id) => id,
        None => {
            return Err(AirportRowError::BadAirportId);
        },
    };
    if fields.len() < 4 {
        return Ok(false);
    }
    let name = fields[3].clone();
    container.add_airport(Airport::new(id, name));
    Ok(true)
}

} // verus!
