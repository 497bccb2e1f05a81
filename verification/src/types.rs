//! The data the two pipelines work on.
//!
//! Zone names and timestamps are kept as byte strings; prices are exact
//! micro-units (see `price`). Every record type has a mathematical view so
//! contracts can speak of sequences of plain values.

use vstd::prelude::*;

use crate::Classification;

verus! {

/// One raw price observation as the upstream history window reports it:
/// zone name, observation time as ISO-8601 text, and the price as decimal
/// text, still unparsed.
#[derive(Debug)]
pub struct RawObservation {
    pub zone: Vec<u8>,
    pub timestamp: Vec<u8>,
    pub price_text: Vec<u8>,
}

/// The view of a raw observation: the same three fields as sequences.
pub ghost struct RawObservationView {
    pub zone: Seq<u8>,
    pub timestamp: Seq<u8>,
    pub price_text: Seq<u8>,
}

impl View for RawObservation {
    type V = RawObservationView;

    open spec fn view(&self) -> RawObservationView {
        RawObservationView { zone: self.zone@, timestamp: self.timestamp@, price_text: self.price_text@ }
    }
}

/// One observation with its price read into micro-units.
#[derive(Debug)]
pub struct Observation {
    pub zone: Vec<u8>,
    pub timestamp: Vec<u8>,
    pub price: u64,
}

/// The view of a parsed observation.
pub ghost struct ObservationView {
    pub zone: Seq<u8>,
    pub timestamp: Seq<u8>,
    pub price: u64,
}

impl View for Observation {
    type V = ObservationView;

    open spec fn view(&self) -> ObservationView {
        ObservationView { zone: self.zone@, timestamp: self.timestamp@, price: self.price }
    }
}

/// One row of the ranked table: a zone, its current price, and how it
/// stands relative to the cheapest zone.
#[derive(Debug)]
pub struct RankedZone {
    pub zone: Vec<u8>,
    pub price: u64,
    pub classification: Classification,
}

/// The view of a table row.
pub ghost struct RankedZoneView {
    pub zone: Seq<u8>,
    pub price: u64,
    pub classification: Classification,
}

impl View for RankedZone {
    type V = RankedZoneView;

    open spec fn view(&self) -> RankedZoneView {
        RankedZoneView { zone: self.zone@, price: self.price, classification: self.classification }
    }
}

/// The sequence of views of a sequence of records.
pub open spec fn views<T: View>(s: Seq<T>) -> Seq<T::V> {
    s.map_values(|t: T| t@)
}

} // verus!
