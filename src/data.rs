//! Data structures that describe sensor reports used for tracking.

use vstd::prelude::*;
use vstd::arithmetic::power::pow;

verus! {

/// Globally unique identifier of a data source (sensor, vehicle, etc), held
/// as the 128-bit big-endian value of its UUID.
#[derive(Clone, Copy, Debug, PartialEq, Eq, Structural, PartialOrd, Ord, Hash)]
pub struct SourceId(pub u128);

/// The lowercase hexadecimal digit of `n`, for `n` from 0 to 15.
pub open spec fn hex_digit(n: int) -> char {
    seq!['0', '1', '2', '3', '4', '5', '6', '7', '8', '9', 'a', 'b', 'c', 'd', 'e', 'f'][n]
}

/// The `d`-th hexadecimal digit of `id`, counting from the most significant.
pub open spec fn nibble(id: u128, d: int) -> int {
    (id as int / pow(16, (31 - d) as nat)) % 16
}

/// Which digit of the identifier stands at position `i` of its text.
pub open spec fn digit_at(i: int) -> int {
    if i < 8 {
        i
    } else if i < 13 {
        i - 1
    } else if i < 18 {
        i - 2
    } else if i < 23 {
        i - 3
    } else {
        i - 4
    }
}

/// The hyphenated lowercase text of a UUID: 32 hexadecimal digits, most
/// significant first, in groups of 8, 4, 4, 4 and 12.
pub open spec fn hyphenated(id: u128) -> Seq<char> {
    Seq::new(
        36,
        |i: int|
            if i == 8 || i == 13 || i == 18 || i == 23 {
                '-'
            } else {
                hex_digit(nibble(id, digit_at(i)))
            },
    )
}

/// Relies on `uuid::Uuid::from_u128`, which takes the value as the UUID's
/// big-endian bytes, and on the `Display` of `uuid::Uuid`, which writes the
/// hyphenated lowercase form.
#[verifier::external_body]
fn uuid_text(id: u128) -> (r: String)
    ensures
        r@ == hyphenated(id),
{
    uuid::Uuid::from_u128(id).to_string()
}

impl SourceId {
    /// The identifier as hyphenated lowercase UUID text.
    pub fn to_text(&self) -> (r: String)
        ensures
            r@ == hyphenated(self.0),
    {
        uuid_text(self.0)
    }
}

/// A real number carried as the bit pattern of an IEEE 754 binary64 value.
#[derive(Clone, Copy, Debug, PartialEq, Eq, Structural, Hash)]
pub struct Real {
    pub bits: u64,
}

/// A geographic position: `x` is the longitude and `y` the latitude, in degrees.
#[derive(Clone, Copy, Debug, PartialEq, Eq, Structural, Hash)]
pub struct Coord {
    pub x: Real,
    pub y: Real,
}

/// A data packet from a given source, created at a given time. May optionally
/// contain geopositional data.
#[derive(Clone, Copy, Debug, PartialEq, Eq, Structural, Hash)]
pub struct Status {
    /// Globally unique identifier of the sensor.
    pub source_id: SourceId,
    /// Moment the data in this packet was collected, in seconds since the
    /// UNIX epoch (UTC).
    pub timestamp: i64,
    /// GPS position.
    pub position: Option<Coord>,
    /// Movement direction in radians, from 0 at North clockwise.
    pub bearing: Option<Real>,
    /// Moving speed in meters per second.
    pub speed: Option<Real>,
}

/// The value of `incoming` where it is present, else the value of `base`.
pub open spec fn latest<T>(base: Option<T>, incoming: Option<T>) -> Option<T> {
    if incoming is Some {
        incoming
    } else {
        base
    }
}

/// `base` with each optional field replaced by the one of `incoming` where
/// `incoming` has it; the key fields of `incoming` are ignored.
pub open spec fn merged(base: Status, incoming: Status) -> Status {
    Status {
        source_id: base.source_id,
        timestamp: base.timestamp,
        position: latest(base.position, incoming.position),
        bearing: latest(base.bearing, incoming.bearing),
        speed: latest(base.speed, incoming.speed),
    }
}

fn or_latest<T: Copy>(base: Option<T>, incoming: Option<T>) -> (r: Option<T>)
    ensures
        r == latest(base, incoming),
{
    match incoming {
        Some(v) => Some(v),
        None => base,
    }
}

impl Status {
    /// Merges optional fields of two [`Status`] values to produce a new value,
    /// ignoring `source_id` and `timestamp` of `rhs`. If both source values
    /// have a given field set, the one from `rhs` is used.
    pub fn merge(&self, rhs: &Self) -> (r: Self)
        ensures
            r == merged(*self, *rhs),
    {
        Status {
            source_id: self.source_id,
            timestamp: self.timestamp,
            position: or_latest(self.position, rhs.position),
            bearing: or_latest(self.bearing, rhs.bearing),
            speed: or_latest(self.speed, rhs.speed),
        }
    }
}

/// Merging keeps the key of the base value, and each optional field of the
/// result is the incoming value's where the incoming value has it, else the
/// base value's.
pub proof fn lemma_merge_prefers_incoming(a: Status, b: Status)
    ensures
        merged(a, b).source_id == a.source_id,
        merged(a, b).timestamp == a.timestamp,
        b.position is Some ==> merged(a, b).position == b.position,
        b.position is None ==> merged(a, b).position == a.position,
        b.bearing is Some ==> merged(a, b).bearing == b.bearing,
        b.bearing is None ==> merged(a, b).bearing == a.bearing,
        b.speed is Some ==> merged(a, b).speed == b.speed,
        b.speed is None ==> merged(a, b).speed == a.speed,
{
}

/// The angle between true North and the direction of an object. When
/// represented in degrees, North is 0, East is 90, South is 180, and West
/// is 270.
#[derive(Clone, Copy, Debug, PartialEq, PartialOrd)]
pub struct Bearing<T>(T);

impl<T> Bearing<T> {
    /// The angle in degrees held by this bearing.
    pub closed spec fn degrees(self) -> T {
        self.0
    }

    pub fn new(degrees: T) -> (r: Self)
        ensures
            r.degrees() == degrees,
    {
        Bearing(degrees)
    }

    /// Clockwise, from `0` (north) to `360`.
    pub fn as_degrees(self) -> (r: T)
        ensures
            r == self.degrees(),
    {
        self.0
    }
}

} // verus!
