//! Ranking and classifying the reduced zones.
//!
//! The reduced records are sorted ascending by price, the cheapest zone is
//! picked (on a price tie, the lexicographically smallest zone name, so the
//! choice is deterministic), and every row is classified relative to the
//! minimum. An empty window yields an empty table and an explicitly absent
//! cheapest quote rather than a sentinel price.

use vstd::prelude::*;
use vstd::multiset::Multiset;
use vstd::seq_lib::group_to_multiset_ensures;

use crate::{Classification, classification_of, classify};
use crate::lex::{lex_leq, bytes_le, lemma_lex_total, lemma_lex_transitive, lemma_lex_reflexive};
use crate::SpotError;
use crate::price::valid_price;
use crate::reduce::{copy_bytes, parse_observations, parsed_views, reduce_latest, valid_reduction};
use crate::types::{Observation, ObservationView, RankedZone, RankedZoneView, RawObservation,
    views};

verus! {

/// The cheapest zone and its price; absent when the window held no
/// observations at all.
#[derive(Debug)]
pub struct CheapestQuote {
    pub zone: Vec<u8>,
    pub price: u64,
}

pub ghost struct CheapestQuoteView {
    pub zone: Seq<u8>,
    pub price: u64,
}

impl View for CheapestQuote {
    type V = CheapestQuoteView;

    open spec fn view(&self) -> CheapestQuoteView {
        CheapestQuoteView { zone: self.zone@, price: self.price }
    }
}

/// The ranked table and the cheapest-zone summary.
#[derive(Debug)]
pub struct SpotReport {
    pub rows: Vec<RankedZone>,
    pub cheapest: Option<CheapestQuote>,
}

pub ghost struct SpotReportView {
    pub rows: Seq<RankedZoneView>,
    pub cheapest: Option<CheapestQuoteView>,
}

impl View for SpotReport {
    type V = SpotReportView;

    open spec fn view(&self) -> SpotReportView {
        SpotReportView {
            rows: views(self.rows@),
            cheapest: match self.cheapest {
                Some(c) => Some(c@),
                None => None,
            },
        }
    }
}

pub open spec fn sorted_by_price(s: Seq<ObservationView>) -> bool {
    forall|i: int, j: int| 0 <= i <= j < s.len() ==> s[i].price <= s[j].price
}

/// The (zone, price) pairs a sequence of reduced records carries.
pub open spec fn obs_pairs(s: Seq<ObservationView>) -> Multiset<(Seq<u8>, u64)> {
    s.map_values(|o: ObservationView| (o.zone, o.price)).to_multiset()
}

/// The (zone, price) pairs a table carries.
pub open spec fn row_pairs(s: Seq<RankedZoneView>) -> Multiset<(Seq<u8>, u64)> {
    s.map_values(|r: RankedZoneView| (r.zone, r.price)).to_multiset()
}

/// What the ranked table promises about the reduced records it was built
/// from: one row per record, rows ascending by price, and — unless the
/// table is empty — a cheapest quote that carries the global minimum price,
/// belongs to the lexicographically least zone among the minimum-priced
/// ones, marks exactly one row `Cheapest`, and classifies every other row
/// by the ten-percent band around the minimum.
/// Row `m` is the designated cheapest row: it carries the quote, it is the
/// only row marked `Cheapest`, its price is the global minimum, its zone is
/// the lexicographically least among the minimum-priced zones, and every
/// other row is classified by the ten-percent band around the minimum.
pub open spec fn cheapest_marked(rows: Seq<RankedZoneView>, c: CheapestQuoteView, m: int) -> bool {
    &&& 0 <= m < rows.len()
    &&& rows[m].zone == c.zone
    &&& rows[m].price == c.price
    &&& rows[m].classification == Classification::Cheapest
    &&& (forall|j: int| 0 <= j < rows.len() ==> c.price <= (#[trigger] rows[j]).price)
    &&& (forall|j: int|
        0 <= j < rows.len() && (#[trigger] rows[j]).price == c.price ==> lex_leq(
            c.zone,
            rows[j].zone,
        ))
    &&& (forall|j: int|
        0 <= j < rows.len() && j != m ==> (#[trigger] rows[j]).classification
            == classification_of(rows[j].price as int, c.price as int, false))
}

pub open spec fn valid_report(reduced: Seq<ObservationView>, report: SpotReportView) -> bool {
    &&& report.rows.len() == reduced.len()
    &&& (forall|i: int, j: int|
        0 <= i <= j < report.rows.len() ==> report.rows[i].price <= report.rows[j].price)
    &&& row_pairs(report.rows) == obs_pairs(reduced)
    &&& (report.cheapest is None <==> reduced.len() == 0)
    &&& match report.cheapest {
        None => true,
        Some(c) => exists|m: int| #[trigger] cheapest_marked(report.rows, c, m),
    }
}

/// Mapping a function over two sequences with the same multiset of
/// elements gives the same multiset of images.
pub proof fn lemma_map_values_multiset<A, B>(s1: Seq<A>, s2: Seq<A>, f: spec_fn(A) -> B)
    requires
        s1.to_multiset() == s2.to_multiset(),
    ensures
        s1.map_values(f).to_multiset() == s2.map_values(f).to_multiset(),
    decreases s1.len(),
{
    broadcast use group_to_multiset_ensures;

    if s1.len() == 0 {
        assert(s2.len() == s2.to_multiset().len());
        assert(s1.map_values(f) =~= s2.map_values(f));
    } else {
        let a = s1.last();
        let s1p = s1.drop_last();
        assert(s1p.push(a) =~= s1);
        assert(s1.to_multiset() =~= s1p.to_multiset().insert(a));
        assert(s1.contains(a));
        assert(s2.to_multiset().count(a) > 0);
        assert(s2.contains(a));
        let i = choose|i: int| 0 <= i < s2.len() && s2[i] == a;
        let s2p = s2.remove(i);
        assert(s2p.to_multiset() =~= s2.to_multiset().remove(a));
        assert(s1p.to_multiset() =~= s2p.to_multiset());
        lemma_map_values_multiset(s1p, s2p, f);
        assert(s1.map_values(f) =~= s1p.map_values(f).push(f(a)));
        assert(s1.map_values(f).to_multiset() =~= s1p.map_values(f).to_multiset().insert(f(a)));
        assert(s2.map_values(f).remove(i) =~= s2p.map_values(f));
        assert(s2.map_values(f)[i] == f(a));
        assert(s2.map_values(f).remove(i).to_multiset() =~= s2.map_values(f).to_multiset().remove(
            f(a),
        ));
        assert(s2.map_values(f).contains(f(a)));
        assert(s2.map_values(f).to_multiset().count(f(a)) > 0);
        assert(s2.map_values(f).to_multiset() =~= s2p.map_values(f).to_multiset().insert(f(a)));
    }
}

/// The record with the lowest price; on a price tie, the one with the
/// lexicographically smallest zone name.
fn find_cheapest_index(v: &Vec<Observation>) -> (m: usize)
    requires
        v@.len() > 0,
    ensures
        m < v@.len(),
        forall|j: int|
            0 <= j < v@.len() ==> v@[m as int].price <= (#[trigger] v@[j]).price,
        forall|j: int|
            0 <= j < v@.len() && (#[trigger] v@[j]).price == v@[m as int].price ==> lex_leq(
                v@[m as int].zone@,
                v@[j].zone@,
            ),
{
    let mut m: usize = 0;
    let mut i: usize = 1;
    proof {
        lemma_lex_reflexive(v@[0].zone@);
    }
    while i < v.len()
        invariant
            1 <= i <= v@.len(),
            m < i,
            forall|j: int| 0 <= j < i ==> v@[m as int].price <= (#[trigger] v@[j]).price,
            forall|j: int|
                0 <= j < i && (#[trigger] v@[j]).price == v@[m as int].price ==> lex_leq(
                    v@[m as int].zone@,
                    v@[j].zone@,
                ),
        decreases v@.len() - i,
    {
        let ghost old_m = m as int;
        if v[i].price < v[m].price {
            m = i;
            proof {
                lemma_lex_reflexive(v@[i as int].zone@);
            }
        } else if v[i].price == v[m].price && !bytes_le(&v[m].zone, &v[i].zone) {
            proof {
                lemma_lex_total(v@[old_m].zone@, v@[i as int].zone@);
            }
            m = i;
            proof {
                lemma_lex_reflexive(v@[i as int].zone@);
                assert forall|j: int|
                    0 <= j < i + 1 && (#[trigger] v@[j]).price == v@[m as int].price implies
                    lex_leq(v@[m as int].zone@, v@[j].zone@) by {
                    if j < i as int {
                        lemma_lex_transitive(v@[i as int].zone@, v@[old_m].zone@, v@[j].zone@);
                    }
                }
            }
        }
        i = i + 1;
    }
    m
}

/// Sort the reduced records ascending by price.
fn sort_by_price(input: Vec<Observation>) -> (out: Vec<Observation>)
    ensures
        sorted_by_price(views(out@)),
        views(out@).to_multiset() == views(input@).to_multiset(),
{
    broadcast use group_to_multiset_ensures;

    let ghost target = views(input@).to_multiset();
    let mut rest = input;
    let mut out: Vec<Observation> = Vec::new();
    while rest.len() > 0
        invariant
            sorted_by_price(views(out@)),
            views(out@).to_multiset().add(views(rest@).to_multiset()) == target,
            forall|a: int, b: int|
                0 <= a < views(out@).len() && 0 <= b < views(rest@).len() ==> (
                #[trigger] views(out@)[a]).price <= (#[trigger] views(rest@)[b]).price,
        decreases rest@.len(),
    {
        broadcast use group_to_multiset_ensures;

        let m = find_cheapest_index(&rest);
        let ghost before = views(rest@);
        let picked = rest.remove(m);
        proof {
            assert(views(rest@) =~= before.remove(m as int));
            assert(before.remove(m as int).to_multiset() =~= before.to_multiset().remove(
                before[m as int],
            ));
            assert(before.contains(before[m as int]));
            assert(before.to_multiset().count(before[m as int]) > 0);
        }
        let ghost out_before = views(out@);
        out.push(picked);
        proof {
            assert(views(out@) =~= out_before.push(picked@));
            assert(views(out@).to_multiset() =~= out_before.to_multiset().insert(picked@));
            assert(views(out@).to_multiset().add(views(rest@).to_multiset()) =~= out_before
                .to_multiset().add(before.to_multiset()));
            assert forall|b: int| 0 <= b < views(rest@).len() implies picked@.price <= (
            #[trigger] views(rest@)[b]).price by {
                if b < m as int {
                    assert(views(rest@)[b] == before[b]);
                } else {
                    assert(views(rest@)[b] == before[b + 1]);
                }
            }
        }
    }
    proof {
        assert(views(rest@).to_multiset().len() == 0);
        assert(views(out@).to_multiset() =~= target);
    }
    out
}

#[verifier::rlimit(100)]
pub fn build_report(reduced: Vec<Observation>) -> (r: SpotReport)
    ensures
        valid_report(views(reduced@), r@),
{
    let ghost reduced_views = views(reduced@);
    let sorted = sort_by_price(reduced);
    let ghost sorted_views = views(sorted@);
    proof {
        assert(sorted_views.len() == reduced_views.len()) by {
            broadcast use group_to_multiset_ensures;

            assert(sorted_views.len() == sorted_views.to_multiset().len());
            assert(reduced_views.len() == reduced_views.to_multiset().len());
        }
        lemma_map_values_multiset(
            sorted_views,
            reduced_views,
            |o: ObservationView| (o.zone, o.price),
        );
    }
    if sorted.len() == 0 {
        let report = SpotReport { rows: Vec::new(), cheapest: None };
        proof {
            assert(views(report.rows@) =~= Seq::<RankedZoneView>::empty());
            assert(views(report.rows@).map_values(|r: RankedZoneView| (r.zone, r.price)) =~=
                sorted_views.map_values(|o: ObservationView| (o.zone, o.price)));
        }
        return report;
    }
    let m = find_cheapest_index(&sorted);
    let min_price = sorted[m].price;
    let min_zone = copy_bytes(&sorted[m].zone);
    let mut rows: Vec<RankedZone> = Vec::new();
    let mut i: usize = 0;
    while i < sorted.len()
        invariant
            i <= sorted@.len(),
            m < sorted@.len(),
            sorted_views == views(sorted@),
            min_price == sorted_views[m as int].price,
            rows@.len() == i,
            forall|j: int|
                0 <= j < i ==> {
                    &&& (#[trigger] views(rows@)[j]).zone == sorted_views[j].zone
                    &&& views(rows@)[j].price == sorted_views[j].price
                    &&& views(rows@)[j].classification == classification_of(
                        sorted_views[j].price as int,
                        min_price as int,
                        j == m as int,
                    )
                },
        decreases sorted@.len() - i,
    {
        let rec = &sorted[i];
        let row = RankedZone {
            zone: copy_bytes(&rec.zone),
            price: rec.price,
            classification: classify(rec.price, min_price, i == m),
        };
        let ghost rows_before = views(rows@);
        proof {
            assert(row@.zone == sorted_views[i as int].zone);
            assert(row@.price == sorted_views[i as int].price);
            assert(row@.classification == classification_of(
                sorted_views[i as int].price as int,
                min_price as int,
                i as int == m as int,
            ));
        }
        rows.push(row);
        proof {
            assert(views(rows@) =~= rows_before.push(row@));
        }
        i = i + 1;
    }
    let report = SpotReport {
        rows,
        cheapest: Some(CheapestQuote { zone: min_zone, price: min_price }),
    };
    proof {
        let rows_views = views(report.rows@);
        let c = report@.cheapest->0;
        assert(report@.rows == rows_views);
        assert(row_pairs(rows_views) == obs_pairs(reduced_views)) by {
            assert(rows_views.map_values(|r: RankedZoneView| (r.zone, r.price)) =~= sorted_views
                .map_values(|o: ObservationView| (o.zone, o.price)));
        }
        assert forall|a: int, b: int|
            0 <= a <= b < rows_views.len() implies (#[trigger] rows_views[a]).price <= (
        #[trigger] rows_views[b]).price by {
            assert(sorted_views[a].price <= sorted_views[b].price);
        }
        assert(cheapest_marked(rows_views, c, m as int)) by {
            assert(rows_views[m as int].classification == classification_of(
                sorted_views[m as int].price as int,
                min_price as int,
                true,
            ));
            assert forall|j: int| 0 <= j < rows_views.len() implies c.price <= (
            #[trigger] rows_views[j]).price by {
                assert(sorted_views[m as int].price <= sorted_views[j].price);
            }
            assert forall|j: int|
                0 <= j < rows_views.len() && (#[trigger] rows_views[j]).price == c.price implies
                lex_leq(c.zone, rows_views[j].zone) by {
                assert(sorted_views[j].price == sorted_views[m as int].price);
                assert(lex_leq(sorted_views[m as int].zone, sorted_views[j].zone));
            }
            assert forall|j: int| 0 <= j < rows_views.len() && j != m as int implies (
            #[trigger] rows_views[j]).classification == classification_of(
                rows_views[j].price as int,
                c.price as int,
                false,
            ) by {
                assert(rows_views[j].classification == classification_of(
                    sorted_views[j].price as int,
                    min_price as int,
                    false,
                ));
            }
        }
    }
    report
}


/// Run the whole aggregation on one window of raw observations: read every
/// price, collapse to the latest record per zone, sort, and classify.
///
/// Succeeds exactly when every price field in the window parses; one
/// malformed price fails the whole window.
pub fn aggregate(raw: &Vec<RawObservation>) -> (r: Result<SpotReport, SpotError>)
    ensures
        r is Ok <==> (forall|k: int|
            0 <= k < raw@.len() ==> valid_price((#[trigger] raw@[k]).price_text@)),
        r is Err ==> r->Err_0 == SpotError::MalformedPrice,
        r is Ok ==> exists|reduced: Seq<ObservationView>|
            {
                &&& #[trigger] valid_reduction(parsed_views(views(raw@)), reduced)
                &&& valid_report(reduced, (r->Ok_0)@)
            },
{
    let parsed = match parse_observations(raw) {
        Ok(p) => p,
        Err(e) => {
            return Err(e);
        },
    };
    let reduced = reduce_latest(&parsed);
    let ghost mid = views(reduced@);
    let report = build_report(reduced);
    proof {
        assert(valid_reduction(parsed_views(views(raw@)), mid));
        assert(valid_report(mid, report@));
    }
    Ok(report)
}

} // verus!
