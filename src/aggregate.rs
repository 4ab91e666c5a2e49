//! The accumulator: for each (device identifier, month) key, the distance
//! texts of the rides that count toward it, in the order they were added.
use vstd::prelude::*;
use crate::record::{
    classify_record, opt_view, record_outcome, Contribution, RecordError, RideRecord,
};
use crate::order::{sort_texts, text_order};
use crate::request::strings_view;

verus! {

/// A bucket key: device identifier and month label.
pub type BucketKey = (Seq<char>, Seq<char>);

/// One bucket: a device, a month, and the distances that count toward it.
pub struct MonthlyRides {
    pub imei: String,
    pub ride_month: String,
    pub distances: Vec<String>,
}

pub open spec fn bucket_key(g: MonthlyRides) -> BucketKey {
    (g.imei@, g.ride_month@)
}

pub open spec fn bucket_distances(g: MonthlyRides) -> Seq<Seq<char>> {
    strings_view(g.distances@)
}

/// The buckets of a list, keyed by device and month; a later bucket of the
/// same key would shadow an earlier one.
pub open spec fn buckets_map(gs: Seq<MonthlyRides>) -> Map<BucketKey, Seq<Seq<char>>>
    decreases gs.len(),
{
    if gs.len() == 0 {
        Map::empty()
    } else {
        buckets_map(gs.drop_last()).insert(bucket_key(gs.last()), bucket_distances(gs.last()))
    }
}

pub open spec fn keys_unique(gs: Seq<MonthlyRides>) -> bool {
    forall|i: int, j: int|
        0 <= i < j < gs.len() ==> bucket_key(#[trigger] gs[i]) != bucket_key(#[trigger] gs[j])
}

/// The distances already held under `k`, none where `k` is absent.
pub open spec fn held(m: Map<BucketKey, Seq<Seq<char>>>, k: BucketKey) -> Seq<Seq<char>> {
    if m.contains_key(k) {
        m[k]
    } else {
        Seq::empty()
    }
}

/// Adding one distance under a key: the bucket is opened empty if it was
/// absent, then the distance joins it.
pub open spec fn add_distance(m: Map<BucketKey, Seq<Seq<char>>>, k: BucketKey, d: Seq<char>) -> Map<
    BucketKey,
    Seq<Seq<char>>,
> {
    m.insert(k, held(m, k).push(d))
}

proof fn lemma_lookup(gs: Seq<MonthlyRides>, i: int)
    requires
        keys_unique(gs),
        0 <= i < gs.len(),
    ensures
        buckets_map(gs).contains_key(bucket_key(gs[i])),
        buckets_map(gs)[bucket_key(gs[i])] == bucket_distances(gs[i]),
    decreases gs.len(),
{
    if i < gs.len() - 1 {
        let p = gs.drop_last();
        assert(p[i] == gs[i]);
        assert(keys_unique(p));
        lemma_lookup(p, i);
        assert(bucket_key(gs[i]) != bucket_key(gs[gs.len() - 1]));
    }
}

proof fn lemma_absent(gs: Seq<MonthlyRides>, k: BucketKey)
    requires
        forall|i: int| 0 <= i < gs.len() ==> bucket_key(#[trigger] gs[i]) != k,
    ensures
        !buckets_map(gs).contains_key(k),
    decreases gs.len(),
{
    if gs.len() > 0 {
        let p = gs.drop_last();
        assert forall|i: int| 0 <= i < p.len() implies bucket_key(#[trigger] p[i]) != k by {
            assert(p[i] == gs[i]);
        }
        lemma_absent(p, k);
        assert(bucket_key(gs[gs.len() - 1]) != k);
    }
}

proof fn lemma_update(gs: Seq<MonthlyRides>, i: int, g: MonthlyRides)
    requires
        keys_unique(gs),
        0 <= i < gs.len(),
        bucket_key(g) == bucket_key(gs[i]),
    ensures
        buckets_map(gs.update(i, g)) == buckets_map(gs).insert(bucket_key(g), bucket_distances(g)),
    decreases gs.len(),
{
    let u = gs.update(i, g);
    let p = gs.drop_last();
    if i == gs.len() - 1 {
        assert(u.drop_last() =~= p);
        assert(buckets_map(u) =~= buckets_map(gs).insert(bucket_key(g), bucket_distances(g)));
    } else {
        assert(u.drop_last() =~= p.update(i, g));
        assert(p[i] == gs[i]);
        assert(keys_unique(p));
        lemma_update(p, i, g);
        assert(bucket_key(gs[i]) != bucket_key(gs[gs.len() - 1]));
        assert(buckets_map(u) =~= buckets_map(gs).insert(bucket_key(g), bucket_distances(g)));
    }
}

/// The contributions of a list of records in order, or the error of the
/// first record that cannot be read.
pub open spec fn record_contributions(recs: Seq<RideRecord>, filter: Option<Seq<char>>) -> Result<
    Seq<(Seq<char>, Seq<char>)>,
    RecordError,
>
    decreases recs.len(),
{
    if recs.len() == 0 {
        Ok(Seq::empty())
    } else {
        match record_contributions(recs.drop_last(), filter) {
            Err(e) => Err(e),
            Ok(cs) => match record_outcome(recs.last(), filter) {
                Err(e) => Err(e),
                Ok(None) => Ok(cs),
                Ok(Some(c)) => Ok(cs.push(c)),
            },
        }
    }
}

/// Adds each (month, distance) contribution of device `imei`, in order.
pub open spec fn add_all(
    m: Map<BucketKey, Seq<Seq<char>>>,
    imei: Seq<char>,
    cs: Seq<(Seq<char>, Seq<char>)>,
) -> Map<BucketKey, Seq<Seq<char>>>
    decreases cs.len(),
{
    if cs.len() == 0 {
        m
    } else {
        add_distance(add_all(m, imei, cs.drop_last()), (imei, cs.last().0), cs.last().1)
    }
}

/// The buckets after the records fetched for device `imei` are counted into
/// `m`, or the error that aborts the run.
pub open spec fn apply_records(
    m: Map<BucketKey, Seq<Seq<char>>>,
    imei: Seq<char>,
    recs: Seq<RideRecord>,
    filter: Option<Seq<char>>,
) -> Result<Map<BucketKey, Seq<Seq<char>>>, RecordError> {
    match record_contributions(recs, filter) {
        Ok(cs) => Ok(add_all(m, imei, cs)),
        Err(e) => Err(e),
    }
}

pub open spec fn contributions_view(cs: Seq<Contribution>) -> Seq<(Seq<char>, Seq<char>)> {
    cs.map_values(|c: Contribution| (c.ride_month@, c.distance@))
}

proof fn lemma_error_persists(recs: Seq<RideRecord>, i: int, filter: Option<Seq<char>>)
    requires
        0 <= i <= recs.len(),
        record_contributions(recs.subrange(0, i), filter) is Err,
    ensures
        record_contributions(recs, filter) == record_contributions(recs.subrange(0, i), filter),
    decreases recs.len() - i,
{
    if i < recs.len() {
        let p = recs.subrange(0, i + 1);
        assert(p.drop_last() =~= recs.subrange(0, i));
        lemma_error_persists(recs, i + 1, filter);
    } else {
        assert(recs.subrange(0, i) =~= recs);
    }
}

/// The buckets with each one's distances in the text order: the arrangement
/// that does not depend on the order in which rides were counted.
pub open spec fn sorted_buckets(m: Map<BucketKey, Seq<Seq<char>>>) -> Map<BucketKey, Seq<Seq<char>>> {
    m.map_values(|d: Seq<Seq<char>>| d.sort_by(text_order()))
}

proof fn lemma_sorted_buckets(gs: Seq<MonthlyRides>, hs: Seq<MonthlyRides>)
    requires
        gs.len() == hs.len(),
        forall|i: int|
            0 <= i < gs.len() ==> bucket_key(#[trigger] hs[i]) == bucket_key(gs[i]) && bucket_distances(
                hs[i],
            ) == bucket_distances(gs[i]).sort_by(text_order()),
    ensures
        buckets_map(hs) == sorted_buckets(buckets_map(gs)),
    decreases gs.len(),
{
    if gs.len() == 0 {
        assert(buckets_map(hs) =~= sorted_buckets(buckets_map(gs)));
    } else {
        let gp = gs.drop_last();
        let hp = hs.drop_last();
        assert forall|i: int| 0 <= i < gp.len() implies bucket_key(#[trigger] hp[i]) == bucket_key(gp[i])
            && bucket_distances(hp[i]) == bucket_distances(gp[i]).sort_by(text_order()) by {
            assert(hp[i] == hs[i] && gp[i] == gs[i]);
        }
        lemma_sorted_buckets(gp, hp);
        assert(hs.last() == hs[hs.len() - 1]);
        assert(buckets_map(hs) =~= sorted_buckets(buckets_map(gs)));
    }
}

/// The buckets of one invocation. Each (device, month) key has at most one
/// bucket.
pub struct Aggregates {
    buckets: Vec<MonthlyRides>,
}

impl View for Aggregates {
    type V = Map<BucketKey, Seq<Seq<char>>>;

    closed spec fn view(&self) -> Map<BucketKey, Seq<Seq<char>>> {
        buckets_map(self.buckets@)
    }
}

impl Aggregates {
    pub closed spec fn wf(&self) -> bool {
        keys_unique(self.buckets@)
    }

    /// No buckets.
    pub fn new() -> (r: Aggregates)
        ensures
            r.wf(),
            r@ == Map::<BucketKey, Seq<Seq<char>>>::empty(),
    {
        Aggregates { buckets: Vec::new() }
    }

    /// Adds `distance` to the bucket of (`imei`, `ride_month`), opening the
    /// bucket if it is absent.
    pub fn add(&mut self, imei: &String, ride_month: &String, distance: String)
        requires
            old(self).wf(),
        ensures
            final(self).wf(),
            final(self)@ == add_distance(old(self)@, (imei@, ride_month@), distance@),
    {
        let ghost k = (imei@, ride_month@);
        let mut i: usize = 0;
        while i < self.buckets.len()
            invariant
                self.wf(),
                self@ == old(self)@,
                k == (imei@, ride_month@),
                forall|j: int| 0 <= j < i ==> bucket_key(#[trigger] self.buckets@[j]) != k,
            decreases self.buckets.len() - i,
        {
            let same_imei = self.buckets[i].imei == *imei;
            let same_month = self.buckets[i].ride_month == *ride_month;
            if same_imei && same_month {
                proof {
                    lemma_lookup(self.buckets@, i as int);
                }
                let ghost before = self.buckets@;
                let mut g = self.buckets.remove(i);
                g.distances.push(distance);
                self.buckets.insert(i, g);
                proof {
                    assert(self.buckets@ =~= before.update(i as int, g));
                    assert(strings_view(g.distances@) =~= strings_view(before[i as int].distances@).push(distance@));
                    lemma_update(before, i as int, g);
                    assert forall|a: int, b: int|
                        0 <= a < b < self.buckets@.len() implies bucket_key(#[trigger] self.buckets@[a])
                        != bucket_key(#[trigger] self.buckets@[b]) by {
                        assert(before[a] == self.buckets@[a] || a == i);
                        assert(before[b] == self.buckets@[b] || b == i);
                    }
                }
                return;
            }
            i = i + 1;
        }
        proof {
            lemma_absent(self.buckets@, k);
        }
        let ghost before = self.buckets@;
        let mut ds: Vec<String> = Vec::new();
        ds.push(distance);
        let g = MonthlyRides { imei: imei.clone(), ride_month: ride_month.clone(), distances: ds };
        self.buckets.push(g);
        proof {
            assert(self.buckets@.drop_last() =~= before);
            assert(strings_view(ds@) =~= seq![distance@]);
            assert(held(old(self)@, k) =~= Seq::<Seq<char>>::empty());
            assert(seq![distance@] =~= Seq::<Seq<char>>::empty().push(distance@));
            assert forall|a: int, b: int|
                0 <= a < b < self.buckets@.len() implies bucket_key(#[trigger] self.buckets@[a])
                != bucket_key(#[trigger] self.buckets@[b]) by {
                if b == before.len() {
                    assert(self.buckets@[a] == before[a]);
                } else {
                    assert(self.buckets@[a] == before[a]);
                    assert(self.buckets@[b] == before[b]);
                }
            }
        }
    }
    /// Counts the records fetched for device `imei` under the month filter.
    /// Either every record is read and each that counts is added to its
    /// bucket, or the first record that cannot be read gives the error and
    /// nothing is added.
    pub fn add_records(&mut self, imei: &String, records: &Vec<RideRecord>, filter: &Option<String>) -> (r:
        Result<(), RecordError>)
        requires
            old(self).wf(),
        ensures
            final(self).wf(),
            match apply_records(old(self)@, imei@, records@, opt_view(*filter)) {
                Ok(m) => r is Ok && final(self)@ == m,
                Err(e) => r == Err::<(), RecordError>(e) && final(self)@ == old(self)@,
            },
    {
        let ghost f = opt_view(*filter);
        let mut found: Vec<Contribution> = Vec::new();
        let mut i: usize = 0;
        proof {
            assert(records@.subrange(0, 0) =~= Seq::<RideRecord>::empty());
            assert(contributions_view(found@) =~= Seq::<(Seq<char>, Seq<char>)>::empty());
        }
        while i < records.len()
            invariant
                i <= records.len(),
                f == opt_view(*filter),
                self.wf(),
                self@ == old(self)@,
                record_contributions(records@.subrange(0, i as int), f) == Ok::<
                    Seq<(Seq<char>, Seq<char>)>,
                    RecordError,
                >(contributions_view(found@)),
            decreases records.len() - i,
        {
            let ghost next = records@.subrange(0, i + 1);
            assert(next.drop_last() =~= records@.subrange(0, i as int));
            assert(next.last() == records@[i as int]);
            match classify_record(&records[i], filter) {
                Err(e) => {
                    proof {
                        lemma_error_persists(records@, i + 1, f);
                    }
                    return Err(e);
                },
                Ok(None) => {},
                Ok(Some(c)) => {
                    let ghost before = found@;
                    found.push(c);
                    assert(contributions_view(found@) =~= contributions_view(before).push(
                        (c.ride_month@, c.distance@),
                    ));
                },
            }
            i = i + 1;
        }
        assert(records@.subrange(0, i as int) =~= records@);
        let ghost cs = contributions_view(found@);
        let mut j: usize = 0;
        assert(cs.subrange(0, 0) =~= Seq::<(Seq<char>, Seq<char>)>::empty());
        while j < found.len()
            invariant
                j <= found.len(),
                cs == contributions_view(found@),
                self.wf(),
                self@ == add_all(old(self)@, imei@, cs.subrange(0, j as int)),
            decreases found.len() - j,
        {
            let ghost next = cs.subrange(0, j + 1);
            assert(next.drop_last() =~= cs.subrange(0, j as int));
            self.add(imei, &found[j].ride_month, found[j].distance.clone());
            j = j + 1;
        }
        assert(cs.subrange(0, j as int) =~= cs);
        Ok(())
    }

    /// The buckets, one per key, in no particular order; within each bucket
    /// the distances come sorted by the text order.
    pub fn into_buckets(self) -> (r: Vec<MonthlyRides>)
        requires
            self.wf(),
        ensures
            keys_unique(r@),
            buckets_map(r@) == sorted_buckets(self@),
    {
        let mut out: Vec<MonthlyRides> = Vec::new();
        let mut i: usize = 0;
        while i < self.buckets.len()
            invariant
                i <= self.buckets.len(),
                out@.len() == i,
                forall|j: int|
                    0 <= j < i ==> bucket_key(#[trigger] out@[j]) == bucket_key(self.buckets@[j])
                        && bucket_distances(out@[j]) == bucket_distances(self.buckets@[j]).sort_by(
                        text_order(),
                    ),
            decreases self.buckets.len() - i,
        {
            let b = &self.buckets[i];
            let g = MonthlyRides {
                imei: b.imei.clone(),
                ride_month: b.ride_month.clone(),
                distances: sort_texts(&b.distances),
            };
            out.push(g);
            i = i + 1;
        }
        proof {
            lemma_sorted_buckets(self.buckets@, out@);
            assert forall|a: int, c: int|
                0 <= a < c < out@.len() implies bucket_key(#[trigger] out@[a]) != bucket_key(#[trigger] out@[c]) by {
                assert(bucket_key(self.buckets@[a]) != bucket_key(self.buckets@[c]));
            }
        }
        out
    }
}

} // verus!
