//! Trip identifiers: `<origin>_<route>.<direction><shape>`, such as `134200_L..N`.
use vstd::prelude::*;
use crate::datetime::{origin_secs, origin_time_of_text, Date, Time, Timestamp};
use crate::error::ParseError;
use crate::ids::{Route, TripIdStr};
use crate::text::{contains_pair, copy_range, find_byte, first_index_of, has_pair};
use vstd::string::StringSliceAdditionalSpecFns;

verus! {

#[derive(Debug, Clone, Copy, PartialEq, Eq, Structural, Hash, PartialOrd, Ord)]
pub enum TripDir {
    /// Northbound (also eastbound).
    North,
    South,
}

/// The parts that a trip identifier's text encodes.
#[derive(Debug, Clone, Eq, Hash)]
pub struct TripParts {
    pub rt: Route,
    pub dir: TripDir,
    pub time: Time,
}

pub struct TripPartsView {
    pub rt: Seq<u8>,
    pub dir: TripDir,
    pub time: Time,
}

impl View for TripParts {
    type V = TripPartsView;

    open spec fn view(&self) -> TripPartsView {
        TripPartsView { rt: self.rt@, dir: self.dir, time: self.time }
    }
}

impl PartialEq for TripParts {
    fn eq(&self, o: &TripParts) -> (r: bool)
        ensures
            r == (self@ == o@),
    {
        self.rt == o.rt && self.dir == o.dir && self.time == o.time
    }
}

impl vstd::std_specs::cmp::PartialEqSpecImpl for TripParts {
    open spec fn obeys_eq_spec() -> bool {
        true
    }

    open spec fn eq_spec(&self, o: &TripParts) -> bool {
        self@ == o@
    }
}

pub const UNDERSCORE: u8 = 95;

pub const DOT: u8 = 46;

/// What a trip identifier's text says, or the first thing wrong with it.
pub open spec fn trip_parts_of(s: Seq<u8>) -> Result<TripPartsView, ParseError> {
    match (first_index_of(s, UNDERSCORE), first_index_of(s, DOT)) {
        (Some(i), Some(j)) => if i < j {
            let origin = s.subrange(0, i);
            let route = s.subrange(i + 1, j);
            let tail = s.subrange(j, s.len() as int);
            let dir = if has_pair(tail, DOT, 78u8) {
                Some(TripDir::North)
            } else if has_pair(tail, DOT, 83u8) {
                Some(TripDir::South)
            } else {
                None
            };
            match dir {
                None => Err(ParseError::NoDirection),
                Some(dir) => if route.len() > 3 {
                    Err(ParseError::TooLong)
                } else {
                    match origin_time_of_text(origin) {
                        Ok(time) => Ok(TripPartsView { rt: route, dir, time }),
                        Err(e) => Err(e),
                    }
                },
            }
        } else {
            Err(ParseError::DelimitersOutOfOrder)
        },
        _ => Err(ParseError::MissingDelimiter),
    }
}

impl TripParts {
    /// Reads the parts of a trip identifier.
    pub fn from_str(s: &str) -> (r: Result<TripParts, ParseError>)
        ensures
            r matches Ok(p) ==> trip_parts_of(s.spec_bytes()) == Ok::<TripPartsView, ParseError>(p@),
            r matches Err(e) ==> trip_parts_of(s.spec_bytes()) == Err::<TripPartsView, ParseError>(e),
    {
        TripParts::from_bytes(s.as_bytes())
    }

    pub fn from_bytes(s: &[u8]) -> (r: Result<TripParts, ParseError>)
        ensures
            r matches Ok(p) ==> trip_parts_of(s@) == Ok::<TripPartsView, ParseError>(p@),
            r matches Err(e) ==> trip_parts_of(s@) == Err::<TripPartsView, ParseError>(e),
    {
        let (d1, d2) = match (find_byte(s, UNDERSCORE), find_byte(s, DOT)) {
            (Some(i), Some(j)) => if i < j {
                (i, j)
            } else {
                return Err(ParseError::DelimitersOutOfOrder);
            },
            _ => return Err(ParseError::MissingDelimiter),
        };
        let origin = copy_range(s, 0, d1);
        let route = copy_range(s, d1 + 1, d2);
        let tail = copy_range(s, d2, s.len());
        let dir = if contains_pair(tail.as_slice(), DOT, 78u8) {
            TripDir::North
        } else if contains_pair(tail.as_slice(), DOT, 83u8) {
            TripDir::South
        } else {
            return Err(ParseError::NoDirection);
        };
        let rt = match Route::from_bytes(route.as_slice()) {
            Ok(rt) => rt,
            Err(e) => return Err(e),
        };
        let time = match Time::from_trip_origin_bytes(origin.as_slice()) {
            Ok(t) => t,
            Err(e) => return Err(e),
        };
        Ok(TripParts { rt, dir, time })
    }

    pub fn copy(&self) -> (r: TripParts)
        ensures
            r@ == self@,
    {
        TripParts { rt: self.rt.copy(), dir: self.dir, time: self.time }
    }
}

/// A trip: its identifier's text, what the text encodes, and the service day.
/// Two trips are equal when their parts and day are, whatever their text.
#[derive(Debug, Clone)]
pub struct TripId {
    text: TripIdStr,
    data: TripParts,
    day: Date,
}

pub struct TripIdView {
    pub text: Seq<u8>,
    pub data: TripPartsView,
    pub day: Date,
}

impl View for TripId {
    type V = TripIdView;

    closed spec fn view(&self) -> TripIdView {
        TripIdView { text: self.text@, data: self.data@, day: self.day }
    }
}

impl PartialEq for TripId {
    fn eq(&self, o: &TripId) -> (r: bool)
        ensures
            r == (self@.data == o@.data && self@.day == o@.day),
    {
        self.data == o.data && self.day == o.day
    }
}

impl vstd::std_specs::cmp::PartialEqSpecImpl for TripId {
    open spec fn obeys_eq_spec() -> bool {
        true
    }

    open spec fn eq_spec(&self, o: &TripId) -> bool {
        self@.data == o@.data && self@.day == o@.day
    }
}

/// The trip that a text and service day name, or why there is none.
pub open spec fn trip_id_of(s: Seq<u8>, day: Date) -> Result<TripIdView, ParseError> {
    match trip_parts_of(s) {
        Ok(data) => if s.len() <= 20 {
            Ok(TripIdView { text: s, data, day })
        } else {
            Err(ParseError::TooLong)
        },
        Err(e) => Err(e),
    }
}

impl TripId {
    pub open spec fn wf(&self) -> bool {
        self@.text.len() <= 20 && self@.data.rt.len() <= 3
    }

    pub fn parse(s: &str, day: Date) -> (r: Result<TripId, ParseError>)
        ensures
            r matches Ok(t) ==> trip_id_of(s.spec_bytes(), day) == Ok::<TripIdView, ParseError>(t@),
            r matches Err(e) ==> trip_id_of(s.spec_bytes(), day) == Err::<TripIdView, ParseError>(e),
            r matches Ok(t) ==> t.wf(),
    {
        TripId::parse_bytes(s.as_bytes(), day)
    }

    pub fn parse_bytes(s: &[u8], day: Date) -> (r: Result<TripId, ParseError>)
        ensures
            r matches Ok(t) ==> trip_id_of(s@, day) == Ok::<TripIdView, ParseError>(t@),
            r matches Err(e) ==> trip_id_of(s@, day) == Err::<TripIdView, ParseError>(e),
            r matches Ok(t) ==> t.wf(),
    {
        let data = match TripParts::from_bytes(s) {
            Ok(d) => d,
            Err(e) => return Err(e),
        };
        let text = match TripIdStr::from_bytes(s) {
            Ok(t) => t,
            Err(e) => return Err(e),
        };
        Ok(TripId { text, data, day })
    }

    pub fn name(&self) -> (r: TripIdStr)
        ensures
            r@ == self@.text,
    {
        self.text.copy()
    }

    pub fn as_bytes(&self) -> (r: &[u8])
        ensures
            r@ == self@.text,
    {
        self.text.as_bytes()
    }

    pub fn data(&self) -> (r: TripParts)
        ensures
            r@ == self@.data,
    {
        self.data.copy()
    }

    pub fn route(&self) -> (r: Route)
        ensures
            r@ == self@.data.rt,
    {
        self.data.rt.copy()
    }

    pub fn dir(&self) -> (r: TripDir)
        ensures
            r == self@.data.dir,
    {
        self.data.dir
    }

    pub fn date(&self) -> (r: Date)
        ensures
            r == self@.day,
    {
        self.day
    }

    pub fn copy(&self) -> (r: TripId)
        ensures
            r@ == self@,
    {
        TripId { text: self.text.copy(), data: self.data.copy(), day: self.day }
    }

    /// The instant the trip leaves its origin: the service day, moved by the time's day
    /// offset, at the time of day. Needs a time of day within one day.
    pub fn origin(&self) -> (r: Timestamp)
        requires
            self@.data.time.h < 24,
            self@.data.time.m < 60,
            self@.data.time.s < 60,
        ensures
            r.secs == origin_secs(self@.day, self@.data.time),
    {
        self.day.at(self.data.time)
    }

    /// As `origin`, but midnight of 1970-01-01 where the time of day is not one.
    pub fn departed(&self) -> (r: Timestamp)
        ensures
            r.secs == (if self@.data.time.h < 24 && self@.data.time.m < 60 && self@.data.time.s < 60 {
                origin_secs(self@.day, self@.data.time)
            } else {
                0
            }),
    {
        let t = self.data.time;
        if t.h < 24 && t.m < 60 && t.s < 60 {
            self.day.at(t)
        } else {
            Timestamp::epoch()
        }
    }
}

impl Default for TripId {
    /// The placeholder trip `000000_0..N` of 2020-01-01.
    fn default() -> (r: TripId)
        ensures
            r@.text == "000000_0..N".spec_bytes(),
            r@.data.rt == "0".spec_bytes(),
            r@.data.dir == TripDir::North,
            r@.data.time == (Time { h: 0, m: 0, s: 0, offset: 0 }),
            r@.day == (Date { days: 18262 }),
    {
        proof {
            reveal_strlit("000000_0..N");
            reveal_strlit("0");
            assert(vstd::string::is_ascii("000000_0..N"));
            assert(vstd::string::is_ascii("0"));
            vstd::string::is_ascii_spec_bytes("000000_0..N");
            vstd::string::is_ascii_spec_bytes("0");
        }
        TripId {
            text: TripIdStr::make("000000_0..N"),
            data: TripParts { rt: Route::make("0"), dir: TripDir::North, time: Time::new(0, 0, 0) },
            day: Date { days: 18262 },
        }
    }
}

} // verus!
