//! Durations, distance units, tile addresses and small shared helpers.

use vstd::prelude::*;
use vstd::string::StringExecFns;

verus! {

/// A span of time in whole seconds.
#[derive(Clone, Copy, Debug, PartialEq, Eq, Structural)]
pub struct Duration {
    pub seconds: u64,
}

impl Duration {
    /// A duration of the given number of seconds.
    pub fn new(seconds: u64) -> (r: Duration)
        ensures
            r.seconds == seconds,
    {
        Duration { seconds }
    }

    /// A duration of the given number of minutes.
    pub fn from_minutes(minutes: u64) -> (r: Duration)
        requires
            minutes * 60 <= u64::MAX,
        ensures
            r.seconds == minutes * 60,
    {
        Duration { seconds: minutes * 60 }
    }

    /// A duration of the given number of hours.
    pub fn from_hours(hours: u64) -> (r: Duration)
        requires
            hours * 3600 <= u64::MAX,
        ensures
            r.seconds == hours * 3600,
    {
        Duration { seconds: hours * 3600 }
    }

    /// Whole minutes in this duration, rounded down.
    pub fn to_minutes(&self) -> (r: u64)
        ensures
            r == self.seconds / 60,
    {
        self.seconds / 60
    }
}

/// A unit in which a length can be expressed.
#[derive(Clone, Copy, Debug, PartialEq, Eq, Structural)]
pub enum DistanceUnit {
    Meters,
    Kilometers,
    Miles,
    Feet,
}

/// Millimeters in `value` lengths of `unit`; a foot is 304.8 mm, so that
/// conversion rounds down.
pub open spec fn spec_to_millimeters(value: int, unit: DistanceUnit) -> int {
    match unit {
        DistanceUnit::Meters => value * 1000,
        DistanceUnit::Kilometers => value * 1000000,
        DistanceUnit::Miles => value * 1609344,
        DistanceUnit::Feet => value * 3048 / 10,
    }
}

/// Converts a length to millimeters.
pub fn to_millimeters(value: u64, unit: DistanceUnit) -> (r: u64)
    requires
        value <= 10_000_000_000,
    ensures
        r == spec_to_millimeters(value as int, unit),
{
    proof {
        assert(value * 1609344 <= 10_000_000_000 * 1609344) by (nonlinear_arith)
            requires value <= 10_000_000_000
        ;
    }
    match unit {
        DistanceUnit::Meters => value * 1000,
        DistanceUnit::Kilometers => value * 1000000,
        DistanceUnit::Miles => value * 1609344,
        DistanceUnit::Feet => value * 3048 / 10,
    }
}

/// The address of one map tile: column, row and zoom level.
#[derive(Clone, Copy, Debug, PartialEq, Eq, Structural)]
pub struct TileCoordinate {
    pub x: u32,
    pub y: u32,
    pub z: u8,
}

impl TileCoordinate {
    /// A tile address from its components.
    pub fn new(x: u32, y: u32, z: u8) -> (r: TileCoordinate)
        ensures
            r == (TileCoordinate { x, y, z }),
    {
        TileCoordinate { x, y, z }
    }
}

/// Restricts `value` to `[min, max]`: values below `min` become `min`, values
/// above `max` become `max`.
pub fn clamp(value: i64, min: i64, max: i64) -> (r: i64)
    ensures
        r == if value < min { min } else if value > max { max } else { value },
{
    if value < min {
        min
    } else if value > max {
        max
    } else {
        value
    }
}

/// The lower-case hexadecimal digit for a value below 16.
pub open spec fn hex_digit_char(d: int) -> char {
    if d == 0 { '0' } else if d == 1 { '1' } else if d == 2 { '2' } else if d == 3 { '3' }
    else if d == 4 { '4' } else if d == 5 { '5' } else if d == 6 { '6' } else if d == 7 { '7' }
    else if d == 8 { '8' } else if d == 9 { '9' } else if d == 10 { 'a' } else if d == 11 { 'b' }
    else if d == 12 { 'c' } else if d == 13 { 'd' } else if d == 14 { 'e' } else { 'f' }
}

/// The lower-case hexadecimal rendering of a number, without leading zeros.
pub open spec fn hex_of(n: nat) -> Seq<char>
    decreases n,
{
    if n < 16 {
        seq![hex_digit_char(n as int)]
    } else {
        hex_of(n / 16).push(hex_digit_char((n % 16) as int))
    }
}

/// A hexadecimal rendering is never empty.
pub proof fn lemma_hex_of_nonempty(n: nat)
    ensures
        hex_of(n).len() >= 1,
    decreases n,
{
    if n >= 16 {
        lemma_hex_of_nonempty(n / 16);
    }
}

/// A one-character string holding the hexadecimal digit for `d`.
fn hex_digit_str(d: u64) -> (r: &'static str)
    requires
        d < 16,
    ensures
        r@ == seq![hex_digit_char(d as int)],
{
    proof {
        reveal_strlit("0");
        reveal_strlit("1");
        reveal_strlit("2");
        reveal_strlit("3");
        reveal_strlit("4");
        reveal_strlit("5");
        reveal_strlit("6");
        reveal_strlit("7");
        reveal_strlit("8");
        reveal_strlit("9");
        reveal_strlit("a");
        reveal_strlit("b");
        reveal_strlit("c");
        reveal_strlit("d");
        reveal_strlit("e");
        reveal_strlit("f");
    }
    let r = if d == 0 { "0" } else if d == 1 { "1" } else if d == 2 { "2" } else if d == 3 { "3" }
    else if d == 4 { "4" } else if d == 5 { "5" } else if d == 6 { "6" } else if d == 7 { "7" }
    else if d == 8 { "8" } else if d == 9 { "9" } else if d == 10 { "a" } else if d == 11 { "b" }
    else if d == 12 { "c" } else if d == 13 { "d" } else if d == 14 { "e" } else { "f" };
    proof {
        assert(r@ =~= seq![hex_digit_char(d as int)]);
    }
    r
}

/// Renders a number in lower-case hexadecimal.
pub fn hex_string(n: u64) -> (r: String)
    ensures
        r@ == hex_of(n as nat),
    decreases n,
{
    if n < 16 {
        String::from_str(hex_digit_str(n))
    } else {
        let mut s = hex_string(n / 16);
        let d = hex_digit_str(n % 16);
        s.append(d);
        proof {
            assert(s@ =~= hex_of((n / 16) as nat).push(hex_digit_char((n % 16) as int)));
        }
        s
    }
}

/// Relies on `std::time::SystemTime::now`: nanoseconds since the Unix epoch,
/// truncated to 64 bits.  Nothing is promised of the value: it depends on the
/// wall clock.
#[verifier::external_body]
fn now_unix_nanos() -> u64 {
    std::time::SystemTime::now()
        .duration_since(std::time::UNIX_EPOCH)
        .map(|d| d.as_nanos() as u64)
        .unwrap_or(0)
}

/// A fresh identifier: the current time in nanoseconds, rendered in
/// hexadecimal.
pub fn generate_id() -> (r: String)
    ensures
        r@.len() >= 1,
{
    let t = now_unix_nanos();
    let s = hex_string(t);
    proof {
        lemma_hex_of_nonempty(t as nat);
    }
    s
}

} // verus!
