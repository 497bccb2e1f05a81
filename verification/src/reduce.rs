//! Collapsing a history window to one current price per zone.
//!
//! The upstream API reports a window of observations in arbitrary order,
//! possibly several per zone. The aggregator keeps, for each zone, the
//! observation with the lexicographically greatest timestamp; on equal
//! timestamps the record already held is kept, which the contract leaves
//! open on purpose.

use vstd::prelude::*;

use crate::SpotError;
use crate::lex::{lex_leq, bytes_le, bytes_eq, lemma_lex_total, lemma_lex_transitive,
    lemma_lex_reflexive};
use crate::price::{valid_price, price_micros, parse_price};
use crate::types::{RawObservation, RawObservationView, Observation, ObservationView, views};

verus! {

/// No two records name the same zone.
pub open spec fn distinct_zones(s: Seq<ObservationView>) -> bool {
    forall|i: int, j: int| 0 <= i < j < s.len() ==> s[i].zone != s[j].zone
}

/// `rec` is an observation of `input` whose timestamp no observation of the
/// same zone exceeds.
pub open spec fn latest_for_zone(input: Seq<ObservationView>, rec: ObservationView) -> bool {
    &&& input.contains(rec)
    &&& forall|k: int|
        0 <= k < input.len() && (#[trigger] input[k]).zone == rec.zone ==> lex_leq(
            input[k].timestamp,
            rec.timestamp,
        )
}

/// Some record of `s` names zone `z`.
pub open spec fn has_zone(s: Seq<ObservationView>, z: Seq<u8>) -> bool {
    exists|i: int| 0 <= i < s.len() && (#[trigger] s[i]).zone == z
}

/// `out` collapses `input` to one record per distinct zone, each the latest
/// observation of its zone.
pub open spec fn valid_reduction(input: Seq<ObservationView>, out: Seq<ObservationView>) -> bool {
    &&& distinct_zones(out)
    &&& forall|i: int| 0 <= i < out.len() ==> latest_for_zone(input, #[trigger] out[i])
    &&& forall|k: int| 0 <= k < input.len() ==> has_zone(out, (#[trigger] input[k]).zone)
}

/// A raw observation after its price text is read into micro-units.
pub open spec fn parsed_view(o: RawObservationView) -> ObservationView {
    ObservationView { zone: o.zone, timestamp: o.timestamp, price: price_micros(o.price_text) as u64 }
}

pub open spec fn parsed_views(s: Seq<RawObservationView>) -> Seq<ObservationView> {
    s.map_values(|o: RawObservationView| parsed_view(o))
}

/// Copy a byte string.
pub fn copy_bytes(src: &Vec<u8>) -> (r: Vec<u8>)
    ensures
        r@ == src@,
{
    let mut r: Vec<u8> = Vec::new();
    let mut i: usize = 0;
    while i < src.len()
        invariant
            i <= src@.len(),
            r@ == src@.take(i as int),
        decreases src@.len() - i,
    {
        r.push(src[i]);
        proof {
            assert(src@.take(i as int).push(src@[i as int]) =~= src@.take(i as int + 1));
        }
        i = i + 1;
    }
    proof {
        assert(src@.take(src@.len() as int) =~= src@);
    }
    r
}

/// Read every price field of a window of raw observations.
///
/// The whole window is rejected as soon as one price fails to parse; there
/// is no per-record skip-and-continue.
pub fn parse_observations(raw: &Vec<RawObservation>) -> (r: Result<Vec<Observation>, SpotError>)
    ensures
        r is Ok <==> (forall|k: int|
            0 <= k < raw@.len() ==> valid_price((#[trigger] raw@[k]).price_text@)),
        r is Ok ==> views(r->Ok_0@) == parsed_views(views(raw@)),
        r is Err ==> r->Err_0 == SpotError::MalformedPrice,
{
    let mut out: Vec<Observation> = Vec::new();
    let mut k: usize = 0;
    while k < raw.len()
        invariant
            k <= raw@.len(),
            forall|j: int| 0 <= j < k ==> valid_price((#[trigger] raw@[j]).price_text@),
            views(out@) == parsed_views(views(raw@)).take(k as int),
        decreases raw@.len() - k,
    {
        let rec = &raw[k];
        match parse_price(&rec.price_text) {
            Ok(p) => {
                let parsed = Observation {
                    zone: copy_bytes(&rec.zone),
                    timestamp: copy_bytes(&rec.timestamp),
                    price: p,
                };
                proof {
                    assert(parsed@ == parsed_views(views(raw@))[k as int]);
                    assert(views(out@.push(parsed)) =~= views(out@).push(parsed@));
                    assert(views(out@).push(parsed@) =~= parsed_views(views(raw@)).take(
                        k as int + 1,
                    ));
                }
                out.push(parsed);
            },
            Err(e) => {
                return Err(e);
            },
        }
        k = k + 1;
    }
    proof {
        assert(parsed_views(views(raw@)).take(raw@.len() as int) =~= parsed_views(views(raw@)));
    }
    Ok(out)
}

/// Find the record that already holds `zone`, if any.
fn find_zone(out: &Vec<Observation>, zone: &Vec<u8>) -> (r: Option<usize>)
    ensures
        match r {
            Some(i) => i < out@.len() && out@[i as int].zone@ == zone@,
            None => forall|i: int| 0 <= i < out@.len() ==> (#[trigger] out@[i]).zone@ != zone@,
        },
{
    let mut i: usize = 0;
    while i < out.len()
        invariant
            i <= out@.len(),
            forall|j: int| 0 <= j < i ==> (#[trigger] out@[j]).zone@ != zone@,
        decreases out@.len() - i,
    {
        if bytes_eq(&out[i].zone, zone) {
            return Some(i);
        }
        i = i + 1;
    }
    None
}

/// Keep, for each zone, the observation with the greatest timestamp.
///
/// A strictly greater timestamp replaces the record held; an equal or
/// smaller one leaves it in place, so on an exact timestamp tie the record
/// seen first wins.
#[verifier::rlimit(60)]
pub fn reduce_latest(obs: &Vec<Observation>) -> (out: Vec<Observation>)
    ensures
        valid_reduction(views(obs@), views(out@)),
{
    let ghost input = views(obs@);
    let mut out: Vec<Observation> = Vec::new();
    let mut n: usize = 0;
    while n < obs.len()
        invariant
            n <= obs@.len(),
            input == views(obs@),
            valid_reduction(input.take(n as int), views(out@)),
        decreases obs@.len() - n,
    {
        let rec = &obs[n];
        let ghost prefix = input.take(n as int);
        let ghost grown = input.take(n as int + 1);
        proof {
            assert(grown.drop_last() =~= prefix);
            assert(grown.last() == rec@);
        }
        match find_zone(&out, &rec.zone) {
            Some(i) => {
                let ghost before = views(out@);
                let held = &out[i];
                if !bytes_le(&rec.timestamp, &held.timestamp) {
                    // Strictly newer: replace the zone's record.
                    proof {
                        lemma_lex_total(rec@.timestamp, held@.timestamp);
                    }
                    let replacement = Observation {
                        zone: copy_bytes(&rec.zone),
                        timestamp: copy_bytes(&rec.timestamp),
                        price: rec.price,
                    };
                    let ghost old_views = views(out@);
                    proof {
                        assert(replacement@ == rec@);
                    }
                    out.set(i, replacement);
                    proof {
                        assert(views(out@) =~= old_views.update(i as int, rec@));
                        let now = views(out@);
                        assert forall|p: int| 0 <= p < now.len() implies latest_for_zone(
                            grown,
                            #[trigger] now[p],
                        ) by {
                            if p == i as int {
                                assert(grown[n as int] == rec@);
                                assert(grown.contains(now[p]));
                                assert forall|k: int|
                                    0 <= k < grown.len() && (#[trigger] grown[k]).zone
                                        == now[p].zone implies lex_leq(
                                    grown[k].timestamp,
                                    now[p].timestamp,
                                ) by {
                                    if k == n as int {
                                        lemma_lex_reflexive(rec@.timestamp);
                                    }
                                    if k < n as int {
                                        assert(lex_leq(prefix[k].timestamp, old_views[i as int].timestamp));
                                        lemma_lex_transitive(
                                            grown[k].timestamp,
                                            old_views[i as int].timestamp,
                                            rec@.timestamp,
                                        );
                                    }
                                }
                            } else {
                                assert(now[p] == old_views[p]);
                                assert(latest_for_zone(prefix, now[p]));
                                let w = choose|w: int|
                                    0 <= w < prefix.len() && prefix[w] == now[p];
                                assert(grown[w] == now[p]);
                                assert(grown.contains(now[p]));
                                assert(old_views[i as int].zone == rec@.zone);
                                assert(distinct_zones(old_views));
                                if p < i as int {
                                    assert(old_views[p].zone != old_views[i as int].zone);
                                } else {
                                    assert(old_views[i as int].zone != old_views[p].zone);
                                }
                                assert(now[p].zone != rec@.zone);
                            }
                        }
                    }
                } else {
                    // The record held is at least as new: keep it.
                    proof {
                        let now = views(out@);
                        assert forall|p: int| 0 <= p < now.len() implies latest_for_zone(
                            grown,
                            #[trigger] now[p],
                        ) by {
                            assert(latest_for_zone(prefix, now[p]));
                            let w = choose|w: int| 0 <= w < prefix.len() && prefix[w] == now[p];
                            assert(grown[w] == now[p]);
                            assert(grown.contains(now[p]));
                            if now[p].zone == rec@.zone {
                                assert(now[p] == now[i as int]);
                            }
                        }
                    }
                }
                proof {
                    let now = views(out@);
                    assert(now.len() == before.len());
                    assert forall|q: int| 0 <= q < now.len() implies (#[trigger] now[q]).zone
                        == before[q].zone by {
                        if q == i as int {
                            assert(before[q].zone == rec@.zone);
                        }
                    }
                    assert forall|k: int| 0 <= k < grown.len() implies has_zone(
                        now,
                        (#[trigger] grown[k]).zone,
                    ) by {
                        if k < n as int {
                            assert(has_zone(before, prefix[k].zone));
                            let q = choose|q: int|
                                0 <= q < before.len() && (#[trigger] before[q]).zone
                                    == prefix[k].zone;
                            assert(now[q].zone == grown[k].zone);
                        } else {
                            assert(now[i as int].zone == rec@.zone);
                        }
                    }
                }
            },
            None => {
                // A zone not seen before: its first record is its latest so far.
                let fresh = Observation {
                    zone: copy_bytes(&rec.zone),
                    timestamp: copy_bytes(&rec.timestamp),
                    price: rec.price,
                };
                let ghost old_views = views(out@);
                proof {
                    assert(fresh@ == rec@);
                }
                out.push(fresh);
                proof {
                    assert(views(out@) =~= old_views.push(rec@));
                    let now = views(out@);
                    // No earlier observation names this zone, else the
                    // prefix reduction would already hold a record for it.
                    assert forall|k: int| 0 <= k < n as int implies (#[trigger] prefix[k]).zone
                        != rec@.zone by {
                        if prefix[k].zone == rec@.zone {
                            assert(has_zone(old_views, prefix[k].zone));
                            let q = choose|q: int|
                                0 <= q < old_views.len() && (#[trigger] old_views[q]).zone
                                    == prefix[k].zone;
                            assert(old_views[q].zone == rec@.zone);
                        }
                    }
                    assert forall|p: int| 0 <= p < now.len() implies latest_for_zone(
                        grown,
                        #[trigger] now[p],
                    ) by {
                        if p == now.len() - 1 {
                            assert(grown[n as int] == rec@);
                            assert(grown.contains(now[p]));
                            assert forall|k: int|
                                0 <= k < grown.len() && (#[trigger] grown[k]).zone == now[p].zone
                                    implies lex_leq(grown[k].timestamp, now[p].timestamp) by {
                                if k == n as int {
                                    lemma_lex_reflexive(rec@.timestamp);
                                } else {
                                    assert(prefix[k].zone != rec@.zone);
                                }
                            }
                        } else {
                            assert(latest_for_zone(prefix, now[p]));
                            let w = choose|w: int| 0 <= w < prefix.len() && prefix[w] == now[p];
                            assert(grown[w] == now[p]);
                            assert(grown.contains(now[p]));
                            assert(now[p].zone != rec@.zone);
                        }
                    }
                    assert forall|k: int| 0 <= k < grown.len() implies has_zone(
                        now,
                        (#[trigger] grown[k]).zone,
                    ) by {
                        if k < n as int {
                            assert(has_zone(old_views, prefix[k].zone));
                            let q = choose|q: int|
                                0 <= q < old_views.len() && (#[trigger] old_views[q]).zone
                                    == prefix[k].zone;
                            assert(now[q].zone == grown[k].zone);
                        } else {
                            assert(now[now.len() - 1].zone == rec@.zone);
                        }
                    }
                }
            },
        }
        n = n + 1;
    }
    proof {
        assert(input.take(obs@.len() as int) =~= input);
    }
    out
}

} // verus!
