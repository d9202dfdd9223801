//! The text of itineraries: decimal numbers, instants and the lines of a leg.
use vstd::prelude::*;
use vstd::string::StringExecFns;

verus! {

/// The character of a decimal digit.
pub open spec fn digit_char(d: nat) -> char {
    if d == 0 {
        '0'
    } else if d == 1 {
        '1'
    } else if d == 2 {
        '2'
    } else if d == 3 {
        '3'
    } else if d == 4 {
        '4'
    } else if d == 5 {
        '5'
    } else if d == 6 {
        '6'
    } else if d == 7 {
        '7'
    } else if d == 8 {
        '8'
    } else {
        '9'
    }
}

/// The decimal digits of a number, without leading zeros.
pub open spec fn decimal(n: nat) -> Seq<char>
    decreases n,
{
    if n < 10 {
        seq![digit_char(n)]
    } else {
        decimal(n / 10).push(digit_char(n % 10))
    }
}

/// The decimal text of an integer, with `-` in front of a negative one.
pub open spec fn int_text(v: int) -> Seq<char> {
    if v < 0 {
        seq!['-'] + decimal((-v) as nat)
    } else {
        decimal(v as nat)
    }
}

fn digit_str(d: u64) -> (r: &'static str)
    requires
        d < 10,
    ensures
        r@ == seq![digit_char(d as nat)],
{
    proof {
        reveal_strlit("0");
        reveal_strlit("1");
        reveal_strlit("2");
        reveal_strlit("3");
        reveal_strlit("4");
        reveal_strlit("5");
        reveal_strlit("6");
        reveal_strlit("7");
        reveal_strlit("8");
        reveal_strlit("9");
    }
    if d == 0 {
        "0"
    } else if d == 1 {
        "1"
    } else if d == 2 {
        "2"
    } else if d == 3 {
        "3"
    } else if d == 4 {
        "4"
    } else if d == 5 {
        "5"
    } else if d == 6 {
        "6"
    } else if d == 7 {
        "7"
    } else if d == 8 {
        "8"
    } else {
        "9"
    }
}

/// Appends the decimal digits of `n`.
pub fn append_decimal(s: &mut String, n: u64)
    ensures
        final(s)@ == old(s)@ + decimal(n as nat),
    decreases n,
{
    if n >= 10 {
        append_decimal(s, n / 10);
    }
    s.append(digit_str(n % 10));
    proof {
        if n >= 10 {
            assert(decimal(n as nat) == decimal((n / 10) as nat).push(digit_char((n % 10) as nat)));
        }
    }
    assert(final(s)@ =~= old(s)@ + decimal(n as nat));
}

/// Appends the decimal text of `v`.
pub fn append_int(s: &mut String, v: i64)
    ensures
        final(s)@ == old(s)@ + int_text(v as int),
{
    if v < 0 {
        proof {
            reveal_strlit("-");
        }
        s.append("-");
        let magnitude: u64 = (-(v + 1)) as u64 + 1;
        append_decimal(s, magnitude);
        assert(final(s)@ =~= old(s)@ + int_text(v as int));
    } else {
        append_decimal(s, v as u64);
    }
}

/// What chrono's `Display` of the `NaiveDateTime` at these seconds writes
/// (`YYYY-MM-DD HH:MM:SS`); `None` outside chrono's calendar.
pub uninterp spec fn datetime_text_of(t: i64) -> Option<Seq<char>>;

/// Relies on chrono's `DateTime::from_timestamp(t, 0)` and on the `Display` of
/// its `naive_utc()` value.
#[verifier::external_body]
fn datetime_display(t: i64) -> (r: Option<String>)
    ensures
        r is Some <==> datetime_text_of(t) is Some,
        r matches Some(s) ==> datetime_text_of(t) == Some(s@),
{
    chrono::DateTime::from_timestamp(t, 0).map(|d| d.naive_utc().to_string())
}

/// An instant as text: as chrono writes it, or as a number of seconds outside
/// chrono's calendar.
pub open spec fn instant_text(t: i64) -> Seq<char> {
    match datetime_text_of(t) {
        Some(s) => s,
        None => int_text(t as int),
    }
}

pub fn append_instant(s: &mut String, t: i64)
    ensures
        final(s)@ == old(s)@ + instant_text(t),
{
    match datetime_display(t) {
        Some(text) => s.append(text.as_str()),
        None => append_int(s, t),
    }
}

/// `Flight {id} from {origin} to {destination}, from {departure} to {arrival}`.
pub open spec fn leg_line(
    flight_id: usize,
    origin: Seq<char>,
    destination: Seq<char>,
    depart_at: i64,
    arrive_at: i64,
) -> Seq<char> {
    "Flight "@ + decimal(flight_id as nat) + " from "@ + origin + " to "@ + destination
        + ", from "@ + instant_text(depart_at) + " to "@ + instant_text(arrive_at)
}

/// `Total cost: {cost}`.
pub open spec fn total_line(cost: i64) -> Seq<char> {
    "Total cost: "@ + int_text(cost as int)
}

pub fn leg_text(flight_id: usize, origin: &str, destination: &str, depart_at: i64, arrive_at: i64) -> (r:
    String)
    ensures
        r@ == leg_line(flight_id, origin@, destination@, depart_at, arrive_at),
{
    let mut r = String::from_str("Flight ");
    append_decimal(&mut r, flight_id as u64);
    r.append(" from ");
    r.append(origin);
    r.append(" to ");
    r.append(destination);
    r.append(", from ");
    append_instant(&mut r, depart_at);
    r.append(" to ");
    append_instant(&mut r, arrive_at);
    r
}

pub fn total_text(cost: i64) -> (r: String)
    ensures
        r@ == total_line(cost),
{
    let mut r = String::from_str("Total cost: ");
    append_int(&mut r, cost);
    r
}

} // verus!
