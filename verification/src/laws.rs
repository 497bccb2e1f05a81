//! The properties the aggregation promises, stated and proved once over
//! the contracts of `reduce` and `rank`.

use vstd::prelude::*;
use vstd::seq_lib::group_to_multiset_ensures;

use crate::Classification;
use crate::lex::{lex_leq, lex_lt, lemma_lex_antisymmetric};
use crate::rank::{SpotReportView, valid_report, cheapest_marked, obs_pairs};
use crate::reduce::{valid_reduction, latest_for_zone, has_zone};
use crate::types::ObservationView;

verus! {

/// The distinct zone names a window of observations mentions.
pub open spec fn zone_names(s: Seq<ObservationView>) -> Set<Seq<u8>> {
    s.map_values(|o: ObservationView| o.zone).to_set()
}

/// The reduced output has exactly one record per distinct zone of the
/// input, so the ranked table has exactly as many rows as the input has
/// distinct zones.
pub proof fn lemma_row_count(input: Seq<ObservationView>, out: Seq<ObservationView>)
    requires
        valid_reduction(input, out),
    ensures
        out.len() == zone_names(input).len(),
{
    let zo = out.map_values(|o: ObservationView| o.zone);
    assert(zo.no_duplicates());
    zo.unique_seq_to_set();
    assert(zone_names(input) =~= zo.to_set()) by {
        assert forall|z: Seq<u8>| zone_names(input).contains(z) implies zo.to_set().contains(
            z,
        ) by {
            let zi = input.map_values(|o: ObservationView| o.zone);
            let k = choose|k: int| 0 <= k < zi.len() && #[trigger] zi[k] == z;
            assert(input[k].zone == z);
            assert(has_zone(out, input[k].zone));
            let i = choose|i: int| 0 <= i < out.len() && (#[trigger] out[i]).zone == z;
            assert(zo[i] == z);
            assert(zo.contains(z));
        }
        assert forall|z: Seq<u8>| zo.to_set().contains(z) implies zone_names(input).contains(
            z,
        ) by {
            let i = choose|i: int| 0 <= i < zo.len() && zo[i] == z;
            assert(latest_for_zone(input, out[i]));
            let w = choose|w: int| 0 <= w < input.len() && input[w] == out[i];
            assert(input.map_values(|o: ObservationView| o.zone)[w] == z);
            assert(input.map_values(|o: ObservationView| o.zone).contains(z));
        }
    }
}

/// Latest wins: when one observation of a zone has a strictly greater
/// timestamp than every other observation of that zone, the reduced record
/// for the zone is that observation — its price and timestamp carry over.
pub proof fn lemma_latest_wins(input: Seq<ObservationView>, out: Seq<ObservationView>, k: int)
    requires
        valid_reduction(input, out),
        0 <= k < input.len(),
        forall|j: int|
            0 <= j < input.len() && j != k && (#[trigger] input[j]).zone == input[k].zone
                ==> lex_lt(input[j].timestamp, input[k].timestamp),
    ensures
        exists|i: int| 0 <= i < out.len() && #[trigger] out[i] == input[k],
{
    assert(has_zone(out, input[k].zone));
    let i = choose|i: int| 0 <= i < out.len() && (#[trigger] out[i]).zone == input[k].zone;
    assert(latest_for_zone(input, out[i]));
    let w = choose|w: int| 0 <= w < input.len() && input[w] == out[i];
    if w != k {
        assert(lex_lt(input[w].timestamp, input[k].timestamp));
        assert(lex_leq(input[k].timestamp, out[i].timestamp));
        lemma_lex_antisymmetric(input[w].timestamp, input[k].timestamp);
    }
    assert(out[i] == input[k]);
}

/// Exactly one row of a non-empty ranked table is classified `Cheapest`,
/// and its price is the minimum over all rows.
pub proof fn lemma_exactly_one_cheapest(reduced: Seq<ObservationView>, report: SpotReportView)
    requires
        valid_report(reduced, report),
        reduced.len() > 0,
    ensures
        exists|m: int|
            0 <= m < report.rows.len() && (#[trigger] report.rows[m]).classification
                == Classification::Cheapest,
        forall|m1: int, m2: int|
            0 <= m1 < report.rows.len() && 0 <= m2 < report.rows.len() && (
            #[trigger] report.rows[m1]).classification == Classification::Cheapest && (
            #[trigger] report.rows[m2]).classification == Classification::Cheapest ==> m1 == m2,
        forall|m: int, j: int|
            0 <= m < report.rows.len() && 0 <= j < report.rows.len() && (
            #[trigger] report.rows[m]).classification == Classification::Cheapest
                ==> report.rows[m].price <= (#[trigger] report.rows[j]).price,
{
    let c = report.cheapest->0;
    let m = choose|m: int| #[trigger] cheapest_marked(report.rows, c, m);
    assert(report.rows[m].classification == Classification::Cheapest);
    assert forall|j: int|
        0 <= j < report.rows.len() && j != m implies (#[trigger] report.rows[j]).classification
        != Classification::Cheapest by {
        assert(report.rows[j].classification == crate::classification_of(
            report.rows[j].price as int,
            c.price as int,
            false,
        ));
    }
}

/// A non-cheapest row is `NearCheapest` exactly when its price is within
/// ten percent of the minimum (`price <= 1.1 * min_price`, inclusive), and
/// `Normal` otherwise.
pub proof fn lemma_near_cheapest_band(
    reduced: Seq<ObservationView>,
    report: SpotReportView,
    j: int,
)
    requires
        valid_report(reduced, report),
        report.cheapest is Some,
        0 <= j < report.rows.len(),
        report.rows[j].classification != Classification::Cheapest,
    ensures
        report.rows[j].classification == Classification::NearCheapest <==> 10 * report.rows[j].price
            <= 11 * (report.cheapest->0).price,
        report.rows[j].classification == Classification::Normal <==> 10 * report.rows[j].price > 11
            * (report.cheapest->0).price,
{
    let c = report.cheapest->0;
    let m = choose|m: int| #[trigger] cheapest_marked(report.rows, c, m);
    assert(j != m);
    assert(report.rows[j].classification == crate::classification_of(
        report.rows[j].price as int,
        c.price as int,
        false,
    ));
}

/// Reducing an already reduced window changes nothing: a valid reduction
/// is a valid reduction of itself.
pub proof fn lemma_reduction_idempotent(input: Seq<ObservationView>, out: Seq<ObservationView>)
    requires
        valid_reduction(input, out),
    ensures
        valid_reduction(out, out),
{
    assert forall|i: int| 0 <= i < out.len() implies latest_for_zone(out, #[trigger] out[i]) by {
        assert(out.contains(out[i]));
        assert forall|k: int|
            0 <= k < out.len() && (#[trigger] out[k]).zone == out[i].zone implies lex_leq(
            out[k].timestamp,
            out[i].timestamp,
        ) by {
            if k < i {
                assert(out[k].zone != out[i].zone);
            } else if i < k {
                assert(out[i].zone != out[k].zone);
            } else {
                crate::lex::lemma_lex_reflexive(out[i].timestamp);
            }
        }
    }
    assert forall|k: int| 0 <= k < out.len() implies has_zone(out, (#[trigger] out[k]).zone) by {
        assert(0 <= k < out.len() && out[k].zone == out[k].zone);
    }
}

/// One pair of one reduction is carried by the other reduction too.
proof fn lemma_pair_transfer(
    in1: Seq<ObservationView>,
    in2: Seq<ObservationView>,
    r1: Seq<ObservationView>,
    r2: Seq<ObservationView>,
    q: (Seq<u8>, u64),
)
    requires
        in1.to_multiset() == in2.to_multiset(),
        valid_reduction(in1, r1),
        valid_reduction(in2, r2),
        forall|a: int, b: int|
            0 <= a < in1.len() && 0 <= b < in1.len() && (#[trigger] in1[a]).zone == (
            #[trigger] in1[b]).zone && in1[a].timestamp == in1[b].timestamp ==> in1[a].price
                == in1[b].price,
        r1.map_values(|o: ObservationView| (o.zone, o.price)).contains(q),
    ensures
        r2.map_values(|o: ObservationView| (o.zone, o.price)).contains(q),
{
    broadcast use group_to_multiset_ensures;

    let p1 = r1.map_values(|o: ObservationView| (o.zone, o.price));
    let p2 = r2.map_values(|o: ObservationView| (o.zone, o.price));
    let i = choose|i: int| 0 <= i < p1.len() && p1[i] == q;
    assert(r1[i].zone == q.0 && r1[i].price == q.1);
    assert(latest_for_zone(in1, r1[i]));
    let w1 = choose|w1: int| 0 <= w1 < in1.len() && in1[w1] == r1[i];
    assert(in1.contains(in1[w1]));
    assert(in2.to_multiset().count(in1[w1]) > 0);
    assert(in2.contains(in1[w1]));
    let v1 = choose|v1: int| 0 <= v1 < in2.len() && in2[v1] == in1[w1];
    assert(has_zone(r2, in2[v1].zone));
    let i2 = choose|i2: int| 0 <= i2 < r2.len() && (#[trigger] r2[i2]).zone == in2[v1].zone;
    assert(latest_for_zone(in2, r2[i2]));
    let w2 = choose|w2: int| 0 <= w2 < in2.len() && in2[w2] == r2[i2];
    assert(in2.contains(in2[w2]));
    assert(in1.to_multiset().count(in2[w2]) > 0);
    assert(in1.contains(in2[w2]));
    let v2 = choose|v2: int| 0 <= v2 < in1.len() && in1[v2] == in2[w2];
    // The two retained records bound each other's timestamps.
    assert(lex_leq(in1[v2].timestamp, r1[i].timestamp));
    assert(lex_leq(in2[v1].timestamp, r2[i2].timestamp));
    lemma_lex_antisymmetric(r1[i].timestamp, r2[i2].timestamp);
    // Same zone, same timestamp: the tie rule forces the same price.
    assert(in1[w1].zone == in1[v2].zone);
    assert(in1[w1].timestamp == in1[v2].timestamp);
    assert(in1[w1].price == in1[v2].price);
    assert(p2[i2] == q);
    assert(p2.contains(q));
}

/// Reduction is insensitive to the order of the window: two windows with
/// the same multiset of observations reduce to the same multiset of
/// (zone, price) pairs, provided no zone carries two observations with the
/// same timestamp but different prices (on such an exact tie either record
/// may be retained, which the contract leaves open).
pub proof fn lemma_reduction_permutation(
    in1: Seq<ObservationView>,
    in2: Seq<ObservationView>,
    r1: Seq<ObservationView>,
    r2: Seq<ObservationView>,
)
    requires
        in1.to_multiset() == in2.to_multiset(),
        valid_reduction(in1, r1),
        valid_reduction(in2, r2),
        forall|a: int, b: int|
            0 <= a < in1.len() && 0 <= b < in1.len() && (#[trigger] in1[a]).zone == (
            #[trigger] in1[b]).zone && in1[a].timestamp == in1[b].timestamp ==> in1[a].price
                == in1[b].price,
    ensures
        obs_pairs(r1) == obs_pairs(r2),
{
    broadcast use group_to_multiset_ensures;

    let p1 = r1.map_values(|o: ObservationView| (o.zone, o.price));
    let p2 = r2.map_values(|o: ObservationView| (o.zone, o.price));
    // The tie rule holds of the second window too: each of its
    // observations is an observation of the first.
    assert forall|a: int, b: int|
        0 <= a < in2.len() && 0 <= b < in2.len() && (#[trigger] in2[a]).zone == (
        #[trigger] in2[b]).zone && in2[a].timestamp == in2[b].timestamp implies in2[a].price
        == in2[b].price by {
        assert(in2.contains(in2[a]));
        assert(in1.to_multiset().count(in2[a]) > 0);
        assert(in1.contains(in2[a]));
        assert(in2.contains(in2[b]));
        assert(in1.to_multiset().count(in2[b]) > 0);
        assert(in1.contains(in2[b]));
        let a1 = choose|a1: int| 0 <= a1 < in1.len() && in1[a1] == in2[a];
        let b1 = choose|b1: int| 0 <= b1 < in1.len() && in1[b1] == in2[b];
        assert(in1[a1].price == in1[b1].price);
    }
    assert(p1.no_duplicates()) by {
        assert forall|a: int, b: int| 0 <= a < b < p1.len() implies p1[a] != p1[b] by {
            assert(r1[a].zone != r1[b].zone);
        }
    }
    assert(p2.no_duplicates()) by {
        assert forall|a: int, b: int| 0 <= a < b < p2.len() implies p2[a] != p2[b] by {
            assert(r2[a].zone != r2[b].zone);
        }
    }
    p1.lemma_multiset_has_no_duplicates();
    p2.lemma_multiset_has_no_duplicates();
    assert forall|q: (Seq<u8>, u64)| true implies #[trigger] p1.to_multiset().count(q)
        == p2.to_multiset().count(q) by {
        if p1.contains(q) {
            lemma_pair_transfer(in1, in2, r1, r2, q);
            assert(p1.to_multiset().count(q) == 1);
            assert(p2.to_multiset().count(q) == 1);
        } else if p2.contains(q) {
            lemma_pair_transfer(in2, in1, r2, r1, q);
            assert(p1.contains(q));
        } else {
            assert(p1.to_multiset().count(q) == 0);
            assert(p2.to_multiset().count(q) == 0);
        }
    }
    assert(p1.to_multiset() =~= p2.to_multiset());
}

} // verus!
