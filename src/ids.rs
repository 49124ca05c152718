//! Short byte-string identifiers with a fixed capacity.
use vstd::prelude::*;
use crate::error::ParseError;
use crate::text::{bytes_eq, copy_range};
use vstd::string::StringSliceAdditionalSpecFns;

verus! {

/// A station (parent) or platform (child) id, such as `101` or `101N`.
/// Holds at most 4 bytes.
#[derive(Debug, Clone, Eq, Hash)]
pub struct StopId {
    text: Vec<u8>,
}

impl View for StopId {
    type V = Seq<u8>;

    closed spec fn view(&self) -> Seq<u8> {
        self.text@
    }
}

impl PartialEq for StopId {
    fn eq(&self, o: &StopId) -> (r: bool)
        ensures
            r == (self@ == o@),
    {
        bytes_eq(self.text.as_slice(), o.text.as_slice())
    }
}

impl vstd::std_specs::cmp::PartialEqSpecImpl for StopId {
    open spec fn obeys_eq_spec() -> bool {
        true
    }

    open spec fn eq_spec(&self, o: &StopId) -> bool {
        self@ == o@
    }
}

impl StopId {
    pub const CAPACITY: usize = 4;

    pub open spec fn wf(&self) -> bool {
        self@.len() <= 4
    }

    /// Copies `b`, which must fit.
    pub fn from_bytes(b: &[u8]) -> (r: Result<StopId, ParseError>)
        ensures
            r matches Ok(x) ==> x@ == b@ && x.wf(),
            r is Ok <==> b@.len() <= 4,
            r matches Err(e) ==> e == ParseError::TooLong,
    {
        if b.len() > 4 {
            return Err(ParseError::TooLong);
        }
        Ok(StopId { text: copy_range(b, 0, b.len()) })
    }

    /// Copies the bytes of `s`, which must fit.
    pub fn parse(s: &str) -> (r: Result<StopId, ParseError>)
        ensures
            r matches Ok(x) ==> x@ == s.spec_bytes(),
            r is Ok <==> s.spec_bytes().len() <= 4,
            r matches Err(e) ==> e == ParseError::TooLong,
    {
        StopId::from_bytes(s.as_bytes())
    }

    /// The id spelled `s`, which must fit.
    pub fn make(s: &str) -> (r: StopId)
        requires
            s.spec_bytes().len() <= 4,
        ensures
            r@ == s.spec_bytes(),
            r.wf(),
    {
        let b = s.as_bytes();
        StopId { text: copy_range(b, 0, b.len()) }
    }

    pub fn as_bytes(&self) -> (r: &[u8])
        ensures
            r@ == self@,
    {
        self.text.as_slice()
    }

    pub fn len(&self) -> (r: usize)
        ensures
            r == self@.len(),
    {
        self.text.len()
    }

    /// A copy with the same bytes.
    pub fn copy(&self) -> (r: StopId)
        ensures
            r@ == self@,
            self.wf() ==> r.wf(),
    {
        StopId { text: copy_range(self.text.as_slice(), 0, self.text.len()) }
    }

    /// Whether this is a station's (parent's) id: one without a direction suffix `N` or `S`.
    pub fn is_parent(&self) -> (r: bool)
        ensures
            r == !has_direction_suffix(self@),
    {
        let n = self.text.len();
        if n == 0 {
            return true;
        }
        let tail = self.text[n - 1];
        !(tail == 78u8 || tail == 83u8)
    }

    /// The station id: the id without its direction suffix, if it has one.
    pub fn parent(&self) -> (r: StopId)
        ensures
            r@ == parent_of(self@),
            self.wf() ==> r.wf(),
    {
        if !self.is_parent() {
            StopId { text: copy_range(self.text.as_slice(), 0, self.text.len() - 1) }
        } else {
            self.copy()
        }
    }
}

/// A route letter, without local/express; only shuttles use more than one character, such as `6` or `SIR`.
/// Holds at most 3 bytes.
#[derive(Debug, Clone, Eq, Hash)]
pub struct Route {
    text: Vec<u8>,
}

impl View for Route {
    type V = Seq<u8>;

    closed spec fn view(&self) -> Seq<u8> {
        self.text@
    }
}

impl PartialEq for Route {
    fn eq(&self, o: &Route) -> (r: bool)
        ensures
            r == (self@ == o@),
    {
        bytes_eq(self.text.as_slice(), o.text.as_slice())
    }
}

impl vstd::std_specs::cmp::PartialEqSpecImpl for Route {
    open spec fn obeys_eq_spec() -> bool {
        true
    }

    open spec fn eq_spec(&self, o: &Route) -> bool {
        self@ == o@
    }
}

impl Route {
    pub const CAPACITY: usize = 3;

    pub open spec fn wf(&self) -> bool {
        self@.len() <= 3
    }

    /// Copies `b`, which must fit.
    pub fn from_bytes(b: &[u8]) -> (r: Result<Route, ParseError>)
        ensures
            r matches Ok(x) ==> x@ == b@ && x.wf(),
            r is Ok <==> b@.len() <= 3,
            r matches Err(e) ==> e == ParseError::TooLong,
    {
        if b.len() > 3 {
            return Err(ParseError::TooLong);
        }
        Ok(Route { text: copy_range(b, 0, b.len()) })
    }

    /// Copies the bytes of `s`, which must fit.
    pub fn parse(s: &str) -> (r: Result<Route, ParseError>)
        ensures
            r matches Ok(x) ==> x@ == s.spec_bytes(),
            r is Ok <==> s.spec_bytes().len() <= 3,
            r matches Err(e) ==> e == ParseError::TooLong,
    {
        Route::from_bytes(s.as_bytes())
    }

    /// The id spelled `s`, which must fit.
    pub fn make(s: &str) -> (r: Route)
        requires
            s.spec_bytes().len() <= 3,
        ensures
            r@ == s.spec_bytes(),
            r.wf(),
    {
        let b = s.as_bytes();
        Route { text: copy_range(b, 0, b.len()) }
    }

    pub fn as_bytes(&self) -> (r: &[u8])
        ensures
            r@ == self@,
    {
        self.text.as_slice()
    }

    pub fn len(&self) -> (r: usize)
        ensures
            r == self@.len(),
    {
        self.text.len()
    }

    /// A copy with the same bytes.
    pub fn copy(&self) -> (r: Route)
        ensures
            r@ == self@,
            self.wf() ==> r.wf(),
    {
        Route { text: copy_range(self.text.as_slice(), 0, self.text.len()) }
    }
}

/// The text of a trip identifier, such as `028650_7..N`.
/// Holds at most 20 bytes.
#[derive(Debug, Clone, Eq, Hash)]
pub struct TripIdStr {
    text: Vec<u8>,
}

impl View for TripIdStr {
    type V = Seq<u8>;

    closed spec fn view(&self) -> Seq<u8> {
        self.text@
    }
}

impl PartialEq for TripIdStr {
    fn eq(&self, o: &TripIdStr) -> (r: bool)
        ensures
            r == (self@ == o@),
    {
        bytes_eq(self.text.as_slice(), o.text.as_slice())
    }
}

impl vstd::std_specs::cmp::PartialEqSpecImpl for TripIdStr {
    open spec fn obeys_eq_spec() -> bool {
        true
    }

    open spec fn eq_spec(&self, o: &TripIdStr) -> bool {
        self@ == o@
    }
}

impl TripIdStr {
    pub const CAPACITY: usize = 20;

    pub open spec fn wf(&self) -> bool {
        self@.len() <= 20
    }

    /// Copies `b`, which must fit.
    pub fn from_bytes(b: &[u8]) -> (r: Result<TripIdStr, ParseError>)
        ensures
            r matches Ok(x) ==> x@ == b@ && x.wf(),
            r is Ok <==> b@.len() <= 20,
            r matches Err(e) ==> e == ParseError::TooLong,
    {
        if b.len() > 20 {
            return Err(ParseError::TooLong);
        }
        Ok(TripIdStr { text: copy_range(b, 0, b.len()) })
    }

    /// Copies the bytes of `s`, which must fit.
    pub fn parse(s: &str) -> (r: Result<TripIdStr, ParseError>)
        ensures
            r matches Ok(x) ==> x@ == s.spec_bytes(),
            r is Ok <==> s.spec_bytes().len() <= 20,
            r matches Err(e) ==> e == ParseError::TooLong,
    {
        TripIdStr::from_bytes(s.as_bytes())
    }

    /// The id spelled `s`, which must fit.
    pub fn make(s: &str) -> (r: TripIdStr)
        requires
            s.spec_bytes().len() <= 20,
        ensures
            r@ == s.spec_bytes(),
            r.wf(),
    {
        let b = s.as_bytes();
        TripIdStr { text: copy_range(b, 0, b.len()) }
    }

    pub fn as_bytes(&self) -> (r: &[u8])
        ensures
            r@ == self@,
    {
        self.text.as_slice()
    }

    pub fn len(&self) -> (r: usize)
        ensures
            r == self@.len(),
    {
        self.text.len()
    }

    /// A copy with the same bytes.
    pub fn copy(&self) -> (r: TripIdStr)
        ensures
            r@ == self@,
            self.wf() ==> r.wf(),
    {
        TripIdStr { text: copy_range(self.text.as_slice(), 0, self.text.len()) }
    }
}

/// An elevator or escalator id, such as `EL293`.
/// Holds at most 6 bytes.
#[derive(Debug, Clone, Eq, Hash)]
pub struct EquipmentId {
    text: Vec<u8>,
}

impl View for EquipmentId {
    type V = Seq<u8>;

    closed spec fn view(&self) -> Seq<u8> {
        self.text@
    }
}

impl PartialEq for EquipmentId {
    fn eq(&self, o: &EquipmentId) -> (r: bool)
        ensures
            r == (self@ == o@),
    {
        bytes_eq(self.text.as_slice(), o.text.as_slice())
    }
}

impl vstd::std_specs::cmp::PartialEqSpecImpl for EquipmentId {
    open spec fn obeys_eq_spec() -> bool {
        true
    }

    open spec fn eq_spec(&self, o: &EquipmentId) -> bool {
        self@ == o@
    }
}

impl EquipmentId {
    pub const CAPACITY: usize = 6;

    pub open spec fn wf(&self) -> bool {
        self@.len() <= 6
    }

    /// Copies `b`, which must fit.
    pub fn from_bytes(b: &[u8]) -> (r: Result<EquipmentId, ParseError>)
        ensures
            r matches Ok(x) ==> x@ == b@ && x.wf(),
            r is Ok <==> b@.len() <= 6,
            r matches Err(e) ==> e == ParseError::TooLong,
    {
        if b.len() > 6 {
            return Err(ParseError::TooLong);
        }
        Ok(EquipmentId { text: copy_range(b, 0, b.len()) })
    }

    /// Copies the bytes of `s`, which must fit.
    pub fn parse(s: &str) -> (r: Result<EquipmentId, ParseError>)
        ensures
            r matches Ok(x) ==> x@ == s.spec_bytes(),
            r is Ok <==> s.spec_bytes().len() <= 6,
            r matches Err(e) ==> e == ParseError::TooLong,
    {
        EquipmentId::from_bytes(s.as_bytes())
    }

    /// The id spelled `s`, which must fit.
    pub fn make(s: &str) -> (r: EquipmentId)
        requires
            s.spec_bytes().len() <= 6,
        ensures
            r@ == s.spec_bytes(),
            r.wf(),
    {
        let b = s.as_bytes();
        EquipmentId { text: copy_range(b, 0, b.len()) }
    }

    pub fn as_bytes(&self) -> (r: &[u8])
        ensures
            r@ == self@,
    {
        self.text.as_slice()
    }

    pub fn len(&self) -> (r: usize)
        ensures
            r == self@.len(),
    {
        self.text.len()
    }

    /// A copy with the same bytes.
    pub fn copy(&self) -> (r: EquipmentId)
        ensures
            r@ == self@,
            self.wf() ==> r.wf(),
    {
        EquipmentId { text: copy_range(self.text.as_slice(), 0, self.text.len()) }
    }
}

/// A station complex: a set of stations that share transfers.
#[derive(Debug, Clone, Copy, PartialEq, Eq, Structural, Hash)]
pub struct ComplexId(pub u32);

pub open spec fn has_direction_suffix(s: Seq<u8>) -> bool {
    s.len() > 0 && (s.last() == 78u8 || s.last() == 83u8)
}

/// An id with any direction suffix taken off.
pub open spec fn parent_of(s: Seq<u8>) -> Seq<u8> {
    if has_direction_suffix(s) {
        s.drop_last()
    } else {
        s
    }
}

} // verus!
