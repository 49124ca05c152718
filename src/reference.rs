//! Readers for the coded values of the reference directories.
use vstd::prelude::*;
use vstd::string::StringSliceAdditionalSpecFns;

verus! {

/// How accessible a complex is.
#[derive(Debug, Clone, Copy, PartialEq, Eq, Structural)]
pub enum AdaStatus {
    No,
    Full,
    Partial,
}

/// The truth value that a yes/no text gives.
pub open spec fn flag_of(s: Seq<u8>) -> Option<bool> {
    if s == "T".spec_bytes() || s == "TRUE".spec_bytes() || s == "Y".spec_bytes() || s
        == "YES".spec_bytes() {
        Some(true)
    } else if s == "F".spec_bytes() || s == "FALSE".spec_bytes() || s == "N".spec_bytes() || s
        == "NO".spec_bytes() {
        Some(false)
    } else {
        None
    }
}

/// Reads `T`, `TRUE`, `Y` or `YES` as true and `F`, `FALSE`, `N` or `NO` as false.
pub fn parse_flag(s: &str) -> (r: Option<bool>)
    ensures
        r == flag_of(s.spec_bytes()),
{
    let b = s.as_bytes();
    if crate::text::bytes_eq(b, "T".as_bytes()) || crate::text::bytes_eq(b, "TRUE".as_bytes())
        || crate::text::bytes_eq(b, "Y".as_bytes()) || crate::text::bytes_eq(b, "YES".as_bytes()) {
        Some(true)
    } else if crate::text::bytes_eq(b, "F".as_bytes()) || crate::text::bytes_eq(b, "FALSE".as_bytes())
        || crate::text::bytes_eq(b, "N".as_bytes()) || crate::text::bytes_eq(b, "NO".as_bytes()) {
        Some(false)
    } else {
        None
    }
}

/// Reads 0 as false and 1 as true.
pub fn parse_flag_code(x: u32) -> (r: Option<bool>)
    ensures
        r == (if x == 0 {
            Some(false)
        } else if x == 1 {
            Some(true)
        } else {
            None
        }),
{
    if x == 0 {
        Some(false)
    } else if x == 1 {
        Some(true)
    } else {
        None
    }
}

pub open spec fn ada_of(s: Seq<u8>) -> Option<AdaStatus> {
    if s == "0".spec_bytes() {
        Some(AdaStatus::No)
    } else if s == "1".spec_bytes() {
        Some(AdaStatus::Full)
    } else if s == "2".spec_bytes() {
        Some(AdaStatus::Partial)
    } else {
        None
    }
}

/// Reads the accessibility code `0`, `1` or `2`.
pub fn parse_ada(s: &str) -> (r: Option<AdaStatus>)
    ensures
        r == ada_of(s.spec_bytes()),
{
    let b = s.as_bytes();
    if crate::text::bytes_eq(b, "0".as_bytes()) {
        Some(AdaStatus::No)
    } else if crate::text::bytes_eq(b, "1".as_bytes()) {
        Some(AdaStatus::Full)
    } else if crate::text::bytes_eq(b, "2".as_bytes()) {
        Some(AdaStatus::Partial)
    } else {
        None
    }
}

} // verus!
