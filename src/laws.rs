//! What holds of every run: which records never count, what a bucket holds,
//! and that the order of the records does not change what a bucket holds.
use vstd::prelude::*;
use vstd::seq_lib::lemma_multiset_commutative;
use crate::aggregate::{
    add_all, add_distance, apply_records, held, record_contributions, sorted_buckets, BucketKey,
};
use crate::order::{lemma_sorted_unique, lemma_text_order_total, text_order};
use crate::calendar::{month_label, report_year_month};
use crate::record::{in_year_window, is_trip, record_outcome, start_seconds, RecordError, RideRecord};

verus! {

/// The buckets after each device's fetched records are counted in turn, or
/// the first error.
pub open spec fn apply_batches(
    m: Map<BucketKey, Seq<Seq<char>>>,
    batches: Seq<(Seq<char>, Seq<RideRecord>)>,
    filter: Option<Seq<char>>,
) -> Result<Map<BucketKey, Seq<Seq<char>>>, RecordError>
    decreases batches.len(),
{
    if batches.len() == 0 {
        Ok(m)
    } else {
        match apply_batches(m, batches.drop_last(), filter) {
            Err(e) => Err(e),
            Ok(m2) => apply_records(m2, batches.last().0, batches.last().1, filter),
        }
    }
}

/// The distances, in order, of the contributions that fall in `month`.
pub open spec fn month_distances(cs: Seq<(Seq<char>, Seq<char>)>, month: Seq<char>) -> Seq<Seq<char>>
    decreases cs.len(),
{
    if cs.len() == 0 {
        Seq::empty()
    } else {
        let p = month_distances(cs.drop_last(), month);
        if cs.last().0 == month {
            p.push(cs.last().1)
        } else {
            p
        }
    }
}

/// When the store returns no record for any of the requested devices, the
/// run succeeds with no bucket at all, so nothing is written.
pub proof fn law_no_records_no_buckets(ids: Seq<Seq<char>>, filter: Option<Seq<char>>)
    requires
        ids.len() > 0,
    ensures
        apply_batches(
            Map::empty(),
            ids.map_values(|id: Seq<char>| (id, Seq::<RideRecord>::empty())),
            filter,
        ) == Ok::<Map<BucketKey, Seq<Seq<char>>>, RecordError>(Map::empty()),
    decreases ids.len(),
{
    let bs = ids.map_values(|id: Seq<char>| (id, Seq::<RideRecord>::empty()));
    let none = Seq::<RideRecord>::empty();
    assert(bs.last() == (ids.last(), none));
    assert(record_contributions(none, filter) == Ok::<Seq<(Seq<char>, Seq<char>)>, RecordError>(
        Seq::empty(),
    ));
    assert(add_all(Map::empty(), ids.last(), Seq::empty()) == Map::<BucketKey, Seq<Seq<char>>>::empty());
    if ids.len() > 1 {
        law_no_records_no_buckets(ids.drop_last(), filter);
        assert(bs.drop_last() =~= ids.drop_last().map_values(
            |id: Seq<char>| (id, Seq::<RideRecord>::empty()),
        ));
    } else {
        assert(bs.drop_last() =~= Seq::<(Seq<char>, Seq<RideRecord>)>::empty());
    }
}

proof fn lemma_silent_record(
    a: Seq<RideRecord>,
    r: RideRecord,
    b: Seq<RideRecord>,
    filter: Option<Seq<char>>,
)
    requires
        record_outcome(r, filter) == Ok::<Option<(Seq<char>, Seq<char>)>, RecordError>(None),
    ensures
        record_contributions(a + seq![r] + b, filter) == record_contributions(a + b, filter),
    decreases b.len(),
{
    if b.len() == 0 {
        assert(a + seq![r] + b =~= a.push(r));
        assert(a.push(r).drop_last() =~= a);
        assert(a + b =~= a);
    } else {
        lemma_silent_record(a, r, b.drop_last(), filter);
        assert((a + seq![r] + b).drop_last() =~= a + seq![r] + b.drop_last());
        assert((a + b).drop_last() =~= a + b.drop_last());
    }
}

/// A record whose type tag is not exactly `"trip"` never counts: taking it
/// out of the fetched records changes neither the buckets nor the error.
pub proof fn law_non_trip_never_counts(
    m: Map<BucketKey, Seq<Seq<char>>>,
    imei: Seq<char>,
    a: Seq<RideRecord>,
    r: RideRecord,
    b: Seq<RideRecord>,
    filter: Option<Seq<char>>,
)
    requires
        !is_trip(r),
    ensures
        apply_records(m, imei, a + seq![r] + b, filter) == apply_records(m, imei, a + b, filter),
{
    lemma_silent_record(a, r, b, filter);
}

/// A record whose start time is an integer that does not fall in 2023 or
/// 2024 in the reporting time zone never counts, whatever its type or
/// distance: negative starts and starts beyond the calendar included.
pub proof fn law_outside_year_window_never_counts(
    m: Map<BucketKey, Seq<Seq<char>>>,
    imei: Seq<char>,
    a: Seq<RideRecord>,
    r: RideRecord,
    b: Seq<RideRecord>,
    filter: Option<Seq<char>>,
    secs: int,
)
    requires
        start_seconds(r) == Ok::<int, RecordError>(secs),
        !(report_year_month(secs) matches Some((year, _)) && in_year_window(year)),
    ensures
        apply_records(m, imei, a + seq![r] + b, filter) == apply_records(m, imei, a + b, filter),
{
    lemma_silent_record(a, r, b, filter);
}

/// Under a month filter, a record whose month label differs from the filter
/// never counts.
pub proof fn law_filter_drops_other_months(
    m: Map<BucketKey, Seq<Seq<char>>>,
    imei: Seq<char>,
    a: Seq<RideRecord>,
    r: RideRecord,
    b: Seq<RideRecord>,
    wanted: Seq<char>,
    secs: int,
    year: int,
    month: int,
)
    requires
        start_seconds(r) == Ok::<int, RecordError>(secs),
        report_year_month(secs) == Some((year, month)),
        month_label(year, month) != wanted,
    ensures
        apply_records(m, imei, a + seq![r] + b, Some(wanted)) == apply_records(
            m,
            imei,
            a + b,
            Some(wanted),
        ),
{
    lemma_silent_record(a, r, b, Some(wanted));
}

/// Under a month filter, every record that counts falls in the filter's month.
pub proof fn law_filter_keeps_only_its_month(recs: Seq<RideRecord>, wanted: Seq<char>)
    requires
        record_contributions(recs, Some(wanted)) is Ok,
    ensures
        forall|i: int|
            0 <= i < record_contributions(recs, Some(wanted))->Ok_0.len() ==> (#[trigger] record_contributions(
                recs,
                Some(wanted),
            )->Ok_0[i]).0 == wanted,
    decreases recs.len(),
{
    if recs.len() > 0 {
        law_filter_keeps_only_its_month(recs.drop_last(), wanted);
    }
}

proof fn lemma_add_all_bucket(
    m: Map<BucketKey, Seq<Seq<char>>>,
    imei: Seq<char>,
    cs: Seq<(Seq<char>, Seq<char>)>,
    device: Seq<char>,
    month: Seq<char>,
)
    ensures
        held(add_all(m, imei, cs), (device, month)) == if device == imei {
            held(m, (device, month)) + month_distances(cs, month)
        } else {
            held(m, (device, month))
        },
    decreases cs.len(),
{
    if cs.len() == 0 {
        assert(held(m, (device, month)) + Seq::<Seq<char>>::empty() =~= held(m, (device, month)));
    } else {
        let p = cs.drop_last();
        lemma_add_all_bucket(m, imei, p, device, month);
        let prev = add_all(m, imei, p);
        let k = (imei, cs.last().0);
        assert(add_all(m, imei, cs) == add_distance(prev, k, cs.last().1));
        if device == imei && cs.last().0 == month {
            assert(held(m, (device, month)) + month_distances(p, month).push(cs.last().1) =~= (held(
                m,
                (device, month),
            ) + month_distances(p, month)).push(cs.last().1));
        }
    }
}

/// After the records of device `imei` are counted, the bucket of (`imei`,
/// `month`) holds what it held before followed by the distances of exactly
/// those records that count in `month`, in their order; the buckets of other
/// devices are untouched. A month's total is the sum over these distances.
pub proof fn law_bucket_holds_its_distances(
    m: Map<BucketKey, Seq<Seq<char>>>,
    imei: Seq<char>,
    recs: Seq<RideRecord>,
    filter: Option<Seq<char>>,
    device: Seq<char>,
    month: Seq<char>,
)
    requires
        record_contributions(recs, filter) is Ok,
    ensures
        apply_records(m, imei, recs, filter) is Ok,
        held(apply_records(m, imei, recs, filter)->Ok_0, (device, month)) == if device == imei {
            held(m, (device, month)) + month_distances(record_contributions(recs, filter)->Ok_0, month)
        } else {
            held(m, (device, month))
        },
{
    lemma_add_all_bucket(m, imei, record_contributions(recs, filter)->Ok_0, device, month);
}

proof fn lemma_concat(x: Seq<RideRecord>, y: Seq<RideRecord>, filter: Option<Seq<char>>)
    ensures
        record_contributions(x + y, filter) == match record_contributions(x, filter) {
            Err(e) => Err(e),
            Ok(cx) => match record_contributions(y, filter) {
                Err(e) => Err(e),
                Ok(cy) => Ok(cx + cy),
            },
        },
    decreases y.len(),
{
    if y.len() == 0 {
        assert(x + y =~= x);
        if let Ok(cx) = record_contributions(x, filter) {
            assert(cx + Seq::<(Seq<char>, Seq<char>)>::empty() =~= cx);
        }
    } else {
        lemma_concat(x, y.drop_last(), filter);
        assert((x + y).drop_last() =~= x + y.drop_last());
        assert((x + y).last() == y.last());
        if let Ok(cx) = record_contributions(x, filter) {
            if let Ok(cy) = record_contributions(y.drop_last(), filter) {
                if let Ok(Some(c)) = record_outcome(y.last(), filter) {
                    assert(cx + cy.push(c) =~= (cx + cy).push(c));
                }
            }
        }
    }
}

proof fn lemma_month_distances_concat(
    x: Seq<(Seq<char>, Seq<char>)>,
    y: Seq<(Seq<char>, Seq<char>)>,
    month: Seq<char>,
)
    ensures
        month_distances(x + y, month) == month_distances(x, month) + month_distances(y, month),
    decreases y.len(),
{
    if y.len() == 0 {
        assert(x + y =~= x);
        assert(month_distances(x, month) + Seq::<Seq<char>>::empty() =~= month_distances(x, month));
    } else {
        lemma_month_distances_concat(x, y.drop_last(), month);
        assert((x + y).drop_last() =~= x + y.drop_last());
        assert((x + y).last() == y.last());
        let mx = month_distances(x, month);
        let my = month_distances(y.drop_last(), month);
        assert(mx + my.push(y.last().1) =~= (mx + my).push(y.last().1));
    }
}

/// Swapping two neighbouring records leaves the run's outcome unchanged up
/// to order inside each bucket: if one order succeeds, so does the other,
/// and every bucket holds the same distances, counted with multiplicity.
/// Any reordering is a series of such swaps, so totals do not depend on the
/// order in which the store returns records.
pub proof fn law_swapping_records_keeps_buckets(
    a: Seq<RideRecord>,
    r1: RideRecord,
    r2: RideRecord,
    b: Seq<RideRecord>,
    filter: Option<Seq<char>>,
    month: Seq<char>,
)
    requires
        record_contributions(a + seq![r1, r2] + b, filter) is Ok,
    ensures
        record_contributions(a + seq![r2, r1] + b, filter) is Ok,
        month_distances(record_contributions(a + seq![r1, r2] + b, filter)->Ok_0, month).to_multiset()
            == month_distances(
            record_contributions(a + seq![r2, r1] + b, filter)->Ok_0,
            month,
        ).to_multiset(),
{
    let p = seq![r1, r2];
    let q = seq![r2, r1];
    lemma_concat(a + p, b, filter);
    lemma_concat(a + q, b, filter);
    lemma_concat(a, p, filter);
    lemma_concat(a, q, filter);
    lemma_concat(seq![r1], seq![r2], filter);
    lemma_concat(seq![r2], seq![r1], filter);
    assert(seq![r1] + seq![r2] =~= p);
    assert(seq![r2] + seq![r1] =~= q);
    assert(seq![r1].drop_last() =~= Seq::<RideRecord>::empty());
    assert(seq![r2].drop_last() =~= Seq::<RideRecord>::empty());
    let ca = record_contributions(a, filter)->Ok_0;
    let cb = record_contributions(b, filter)->Ok_0;
    let c1 = record_contributions(seq![r1], filter)->Ok_0;
    let c2 = record_contributions(seq![r2], filter)->Ok_0;
    lemma_month_distances_concat(ca + (c1 + c2), cb, month);
    lemma_month_distances_concat(ca + (c2 + c1), cb, month);
    lemma_month_distances_concat(ca, c1 + c2, month);
    lemma_month_distances_concat(ca, c2 + c1, month);
    lemma_month_distances_concat(c1, c2, month);
    lemma_month_distances_concat(c2, c1, month);
    let da = month_distances(ca, month);
    let db = month_distances(cb, month);
    let d1 = month_distances(c1, month);
    let d2 = month_distances(c2, month);
    lemma_multiset_commutative(da + (d1 + d2), db);
    lemma_multiset_commutative(da + (d2 + d1), db);
    lemma_multiset_commutative(da, d1 + d2);
    lemma_multiset_commutative(da, d2 + d1);
    lemma_multiset_commutative(d1, d2);
    lemma_multiset_commutative(d2, d1);
    assert(d1.to_multiset().add(d2.to_multiset()) =~= d2.to_multiset().add(d1.to_multiset()));
}

/// Texts gathered in any order, the same with multiplicity, come out in one
/// arrangement once sorted.
pub proof fn law_same_texts_same_arrangement(s1: Seq<Seq<char>>, s2: Seq<Seq<char>>)
    requires
        s1.to_multiset() == s2.to_multiset(),
    ensures
        s1.sort_by(text_order()) == s2.sort_by(text_order()),
{
    lemma_text_order_total();
    s1.lemma_sort_by_ensures(text_order());
    s2.lemma_sort_by_ensures(text_order());
    lemma_sorted_unique(s1.sort_by(text_order()), s2.sort_by(text_order()));
}

proof fn lemma_buckets_not_empty(m: Map<BucketKey, Seq<Seq<char>>>, imei: Seq<char>, cs: Seq<(Seq<char>, Seq<char>)>)
    requires
        forall|k: BucketKey| #[trigger] m.contains_key(k) ==> m[k].len() > 0,
    ensures
        forall|k: BucketKey| #[trigger] add_all(m, imei, cs).contains_key(k) ==> add_all(m, imei, cs)[k].len() > 0,
    decreases cs.len(),
{
    if cs.len() > 0 {
        lemma_buckets_not_empty(m, imei, cs.drop_last());
        let prev = add_all(m, imei, cs.drop_last());
        let last = (imei, cs.last().0);
        let next = add_all(m, imei, cs);
        assert(next == add_distance(prev, last, cs.last().1));
        assert forall|k: BucketKey| #[trigger] next.contains_key(k) implies next[k].len() > 0 by {
            if k != last {
                assert(prev.contains_key(k));
            }
        }
    }
}

/// Counting the records of a device in another order (two neighbouring
/// records swapped; any reordering is a series of such swaps) gives the same
/// buckets, each with its distances in the same arrangement, so the same
/// totals to the last bit.
pub proof fn law_reordering_keeps_buckets(
    imei: Seq<char>,
    a: Seq<RideRecord>,
    r1: RideRecord,
    r2: RideRecord,
    b: Seq<RideRecord>,
    filter: Option<Seq<char>>,
)
    requires
        record_contributions(a + seq![r1, r2] + b, filter) is Ok,
    ensures
        apply_records(Map::empty(), imei, a + seq![r2, r1] + b, filter) is Ok,
        sorted_buckets(apply_records(Map::empty(), imei, a + seq![r1, r2] + b, filter)->Ok_0)
            == sorted_buckets(apply_records(Map::empty(), imei, a + seq![r2, r1] + b, filter)->Ok_0),
{
    broadcast use vstd::seq_lib::group_to_multiset_ensures;
    let e = Map::<BucketKey, Seq<Seq<char>>>::empty();
    let x = a + seq![r1, r2] + b;
    let y = a + seq![r2, r1] + b;
    law_swapping_records_keeps_buckets(a, r1, r2, b, filter, Seq::empty());
    let cx = record_contributions(x, filter)->Ok_0;
    let cy = record_contributions(y, filter)->Ok_0;
    let m1 = add_all(e, imei, cx);
    let m2 = add_all(e, imei, cy);
    lemma_buckets_not_empty(e, imei, cx);
    lemma_buckets_not_empty(e, imei, cy);
    assert forall|k: BucketKey| #![trigger m1.contains_key(k)] #![trigger m2.contains_key(k)]
        (m1.contains_key(k) <==> m2.contains_key(k)) && (m1.contains_key(k) ==> m1[k].sort_by(text_order())
        == m2[k].sort_by(text_order())) by {
        law_swapping_records_keeps_buckets(a, r1, r2, b, filter, k.1);
        law_bucket_holds_its_distances(e, imei, x, filter, k.0, k.1);
        law_bucket_holds_its_distances(e, imei, y, filter, k.0, k.1);
        assert(held(e, k) =~= Seq::<Seq<char>>::empty());
        let d1 = month_distances(cx, k.1);
        let d2 = month_distances(cy, k.1);
        assert(Seq::<Seq<char>>::empty() + d1 =~= d1);
        assert(Seq::<Seq<char>>::empty() + d2 =~= d2);
        assert((k.0, k.1) == k);
        if k.0 == imei {
            assert(d1.len() == d2.len()) by {
                assert(d1.to_multiset().len() == d2.to_multiset().len());
            }
            law_same_texts_same_arrangement(d1, d2);
        }
    }
    assert(sorted_buckets(m1) =~= sorted_buckets(m2));
}

/// The contributions that fall in `month`, in order.
pub open spec fn in_month(cs: Seq<(Seq<char>, Seq<char>)>, month: Seq<char>) -> Seq<(Seq<char>, Seq<char>)>
    decreases cs.len(),
{
    if cs.len() == 0 {
        Seq::empty()
    } else if cs.last().0 == month {
        in_month(cs.drop_last(), month).push(cs.last())
    } else {
        in_month(cs.drop_last(), month)
    }
}

/// Where counting without a filter succeeds, counting under the filter
/// `wanted` succeeds too and gives exactly the unfiltered contributions that
/// fall in `wanted`, in the same order.
pub proof fn law_filter_restricts_unfiltered_run(recs: Seq<RideRecord>, wanted: Seq<char>)
    requires
        record_contributions(recs, None) is Ok,
    ensures
        record_contributions(recs, Some(wanted)) == Ok::<Seq<(Seq<char>, Seq<char>)>, RecordError>(
            in_month(record_contributions(recs, None)->Ok_0, wanted),
        ),
    decreases recs.len(),
{
    if recs.len() > 0 {
        law_filter_restricts_unfiltered_run(recs.drop_last(), wanted);
        let cs = record_contributions(recs.drop_last(), None)->Ok_0;
        if let Ok(Some(c)) = record_outcome(recs.last(), None) {
            assert(cs.push(c).drop_last() =~= cs);
        }
    }
}

} // verus!
