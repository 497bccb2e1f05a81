//! Region validation.
//!
//! Whether a string names a recognized region is decided by the provider
//! SDK's own fixed table, reached through trusted declarations; the library
//! maps its parse failure to `InvalidRegion`.

use vstd::prelude::*;

use crate::SpotError;

verus! {

#[verifier::external_type_specification]
#[verifier::external_body]
pub struct ExRegion(rusoto_core::Region);

#[verifier::external_type_specification]
#[verifier::external_body]
pub struct ExParseRegionError(rusoto_core::region::ParseRegionError);

/// Whether `s` names a region the SDK recognizes. The SDK's `FromStr` for
/// `Region` matches the case-folded string against a fixed table, so the
/// outcome depends on the string alone.
pub uninterp spec fn region_parse_ok(s: Seq<char>) -> bool;

/// Relies on rusoto_core's `Region: FromStr`, which returns `Ok` exactly
/// when the case-folded string matches its fixed table of region names and
/// `ParseRegionError` otherwise.
#[verifier::external_body]
fn parse_region_raw(s: &str) -> (r: Result<
    rusoto_core::Region,
    rusoto_core::region::ParseRegionError,
>)
    ensures
        r is Ok <==> region_parse_ok(s@),
{
    s.parse::<rusoto_core::Region>()
}

/// Check a region name, yielding the SDK's region value for the caller to
/// address the provider with, or `InvalidRegion`.
pub fn check_region(s: &str) -> (r: Result<rusoto_core::Region, SpotError>)
    ensures
        r is Ok <==> region_parse_ok(s@),
        r is Err ==> r->Err_0 == SpotError::InvalidRegion,
{
    match parse_region_raw(s) {
        Ok(region) => Ok(region),
        Err(_) => Err(SpotError::InvalidRegion),
    }
}

} // verus!
