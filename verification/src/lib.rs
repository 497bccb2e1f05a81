//! Spot-market price comparison: collapse a window of per-zone price
//! observations into one current price per zone, find the cheapest zone,
//! and classify every zone relative to it.

pub mod details;
pub mod laws;
pub mod lex;
pub mod price;
pub mod rank;
pub mod reduce;
pub mod region;
pub mod types;

use vstd::prelude::*;

verus! {

/// The ways a lookup or an aggregation can fail.
#[derive(Clone, Copy, Debug, PartialEq, Eq, Structural)]
pub enum SpotError {
    /// The region string does not name a recognized region.
    InvalidRegion,
    /// The upstream record set holds no matching instance type.
    NotFound,
    /// A price field is not a decimal number the aggregator accepts.
    MalformedPrice,
}

/// How a zone's current price stands relative to the cheapest zone.
#[derive(Clone, Copy, PartialEq, Eq, Structural, Debug)]
pub enum Classification {
    Cheapest,
    NearCheapest,
    Normal,
}

/// The classification a zone deserves, given its price, the minimum price
/// over all zones, and whether it is the designated cheapest zone.
/// A non-cheapest zone is `NearCheapest` exactly when its price is within
/// ten percent of the minimum: `price <= 1.1 * min_price`, stated over
/// integers as `10 * price <= 11 * min_price`.
pub open spec fn classification_of(price: int, min_price: int, is_min_zone: bool) -> Classification {
    if is_min_zone {
        Classification::Cheapest
    } else if 10 * price <= 11 * min_price {
        Classification::NearCheapest
    } else {
        Classification::Normal
    }
}

/// Classify one zone's price against the minimum price.
pub fn classify(price: u64, min_price: u64, is_min_zone: bool) -> (c: Classification)
    ensures
        c == classification_of(price as int, min_price as int, is_min_zone),
{
    if is_min_zone {
        Classification::Cheapest
    } else if 10 * (price as u128) <= 11 * (min_price as u128) {
        Classification::NearCheapest
    } else {
        Classification::Normal
    }
}

} // verus!
