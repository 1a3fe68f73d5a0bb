//! Scan operations composed from the reader and the filter engine: writing
//! matching records to an output capped at an optional row count, and
//! single-pass summary statistics.  Each operation is a small state machine
//! stepped once per record, so a caller can stream a file of any size
//! through it while holding only one record in memory; convenience
//! functions run a whole in-memory sequence of records through the same
//! machines.

use vstd::prelude::*;

use crate::filter::FilterView;
use crate::filter::TripFilter;
use crate::filter::spec_matches;
use crate::trip::Trip;
use crate::trip::TripView;
use crate::trip::spec_header;
use crate::trip::spec_trip_row;
use crate::trip::output_header;
use crate::trip::trip_row;

verus! {

/// The records of `ds` accepted by `f`, in order.
pub open spec fn matching(ds: Seq<TripView>, f: FilterView) -> Seq<TripView> {
    ds.filter(|t: TripView| spec_matches(f, t))
}

/// Smaller of two integers.
pub open spec fn min_int(a: int, b: int) -> int {
    if a <= b {
        a
    } else {
        b
    }
}

/// The matching records actually emitted under an optional row cap: the
/// first `n` of them, or all when no cap is set.
pub open spec fn capped(ds: Seq<TripView>, f: FilterView, cap: Option<int>) -> Seq<TripView> {
    match cap {
        Option::None => matching(ds, f),
        Option::Some(n) => matching(ds, f).take(min_int(n, matching(ds, f).len() as int)),
    }
}

/// Whether the cap has been reached after the records of `ds`.
pub open spec fn cap_reached(ds: Seq<TripView>, f: FilterView, cap: Option<int>) -> bool {
    match cap {
        Option::None => false,
        Option::Some(n) => matching(ds, f).len() >= n,
    }
}

/// The output rows for a sequence of records.
pub open spec fn rows_of(ds: Seq<TripView>) -> Seq<Seq<char>> {
    ds.map_values(|t: TripView| spec_trip_row(t))
}

/// Ghost image of an optional row cap.
pub open spec fn cap_val(m: Option<usize>) -> Option<int> {
    match m {
        Option::None => Option::None,
        Option::Some(n) => Option::Some(n as int),
    }
}

/// One more record extends the matching records by the record itself
/// exactly when the filter accepts it.
pub proof fn lemma_matching_push(ds: Seq<TripView>, f: FilterView, t: TripView)
    ensures
        matching(ds.push(t), f) == (if spec_matches(f, t) {
            matching(ds, f).push(t)
        } else {
            matching(ds, f)
        }),
{
    reveal(Seq::filter);
    assert(ds.push(t).drop_last() =~= ds);
    assert(ds.push(t).last() == t);
}

/// The matching records never outnumber the records scanned.
pub proof fn lemma_matching_len(ds: Seq<TripView>, f: FilterView)
    ensures
        matching(ds, f).len() <= ds.len(),
{
    ds.lemma_filter_len(|t: TripView| spec_matches(f, t));
}

/// How one more record changes the emitted records: it is appended exactly
/// when the filter accepts it and the cap is not yet reached.
pub proof fn lemma_capped_push(ds: Seq<TripView>, f: FilterView, cap: Option<int>, t: TripView)
    requires
        cap matches Option::Some(n) ==> n >= 0,
    ensures
        capped(ds.push(t), f, cap) == (if spec_matches(f, t) && !cap_reached(ds, f, cap) {
            capped(ds, f, cap).push(t)
        } else {
            capped(ds, f, cap)
        }),
{
    lemma_matching_push(ds, f, t);
    let m = matching(ds, f);
    let m2 = matching(ds.push(t), f);
    match cap {
        Option::None => {},
        Option::Some(n) => {
            if spec_matches(f, t) {
                if m.len() < n {
                    assert(m.take(min_int(n, m.len() as int)) =~= m);
                    assert(m2.take(min_int(n, m2.len() as int)) =~= m.push(t));
                } else {
                    assert(m2.take(min_int(n, m2.len() as int)) =~= m.take(
                        min_int(n, m.len() as int),
                    ));
                }
            }
        },
    }
}

/// A streaming filtered scan: records are fed in one at a time, and each
/// accepted record up to the cap comes back as an output row to append.
pub struct FilterRun {
    pub filter: TripFilter,
    pub max_results: Option<usize>,
    pub count: usize,
    pub processed: Ghost<Seq<TripView>>,
}

impl FilterRun {
    pub open spec fn filter_view(self) -> FilterView {
        self.filter@
    }

    pub open spec fn cap(self) -> Option<int> {
        cap_val(self.max_results)
    }

    /// The records fed in so far.
    pub open spec fn seen(self) -> Seq<TripView> {
        self.processed@
    }

    pub open spec fn spec_count(self) -> int {
        self.count as int
    }

    /// The row count always equals the number of emitted records.
    pub open spec fn wf(self) -> bool {
        self.count == capped(self.seen(), self.filter_view(), self.cap()).len()
    }

    /// Whether the cap has been reached, after which the scan may stop.
    pub open spec fn done_spec(self) -> bool {
        cap_reached(self.seen(), self.filter_view(), self.cap())
    }

    /// Starts a scan with the given filter and optional row cap.
    pub fn new(filter: TripFilter, max_results: Option<usize>) -> (r: Self)
        ensures
            r.wf(),
            r.seen() == Seq::<TripView>::empty(),
            r.filter_view() == filter@,
            r.cap() == cap_val(max_results),
            r.spec_count() == 0,
    {
        let r = FilterRun { filter, max_results, count: 0, processed: Ghost(Seq::empty()) };
        proof {
            reveal(Seq::filter);
            assert(matching(r.seen(), r.filter_view()).len() == 0);
            match cap_val(max_results) {
                Option::None => {},
                Option::Some(n) => {
                    assert(capped(r.seen(), r.filter_view(), r.cap()) =~= Seq::<
                        TripView,
                    >::empty());
                },
            }
        }
        r
    }

    /// Feeds one record; returns the row to append when the record is
    /// accepted and the cap is not yet reached.
    pub fn step(&mut self, trip: &Trip) -> (emit: Option<String>)
        requires
            old(self).wf(),
            trip.wf(),
            old(self).seen().len() < usize::MAX,
        ensures
            final(self).wf(),
            final(self).filter_view() == old(self).filter_view(),
            final(self).cap() == old(self).cap(),
            final(self).seen() == old(self).seen().push(trip@),
            emit matches Option::Some(row) ==> row@ == spec_trip_row(trip@) && spec_matches(
                old(self).filter_view(),
                trip@,
            ) && !old(self).done_spec(),
            emit is None ==> !spec_matches(old(self).filter_view(), trip@) || old(
                self,
            ).done_spec(),
    {
        proof {
            lemma_matching_len(self.seen(), self.filter_view());
            lemma_capped_push(self.seen(), self.filter_view(), self.cap(), trip@);
        }
        let ghost prev = *self;
        let accept = self.filter.matches(trip);
        let at_cap = match self.max_results {
            Option::Some(n) => self.count >= n,
            Option::None => false,
        };
        proof {
            assert(at_cap == prev.done_spec());
        }
        self.processed = Ghost(self.processed@.push(trip@));
        if accept && !at_cap {
            self.count = self.count + 1;
            Some(trip_row(trip))
        } else {
            None
        }
    }

    /// Whether the cap has been reached and the scan may stop early.
    pub fn done(&self) -> (d: bool)
        requires
            self.wf(),
        ensures
            d == self.done_spec(),
    {
        match self.max_results {
            Option::Some(n) => self.count >= n,
            Option::None => false,
        }
    }

    /// Number of rows emitted so far.
    pub fn count(&self) -> (c: usize)
        requires
            self.wf(),
        ensures
            c as int == capped(self.seen(), self.filter_view(), self.cap()).len(),
    {
        self.count
    }
}

/// Runs a filtered scan over an in-memory sequence of records: the result
/// holds the header line followed by the row of each accepted record up to
/// the cap, and the number of those rows.
pub fn filter_to_lines(trips: &Vec<Trip>, filter: TripFilter, max_results: Option<usize>) -> (r: (
    Vec<String>,
    usize,
))
    requires
        forall|i: int| 0 <= i < trips@.len() ==> (#[trigger] trips@[i]).wf(),
    ensures
        r.0.deep_view() == seq![spec_header()] + rows_of(
            capped(trips.deep_view(), filter@, cap_val(max_results)),
        ),
        r.1 as int == capped(trips.deep_view(), filter@, cap_val(max_results)).len(),
{
    let ghost dsv = trips.deep_view();
    let ghost fv = filter@;
    let mut run = FilterRun::new(filter, max_results);
    let mut out: Vec<String> = Vec::new();
    out.push(output_header());
    proof {
        assert(run.seen() =~= dsv.take(0));
        assert(rows_of(capped(dsv.take(0), fv, cap_val(max_results))) =~= Seq::<Seq<char>>::empty())
            by {
            assert(capped(dsv.take(0), fv, cap_val(max_results)) == capped(
                run.seen(),
                fv,
                cap_val(max_results),
            ));
        }
        assert(out.deep_view() =~= seq![spec_header()]);
        assert(out.deep_view() =~= seq![spec_header()] + rows_of(
            capped(dsv.take(0), fv, cap_val(max_results)),
        ));
    }
    let n = trips.len();
    let mut i: usize = 0;
    while i < n
        invariant
            0 <= i <= n,
            n == trips@.len(),
            dsv == trips.deep_view(),
            forall|j: int| 0 <= j < trips@.len() ==> (#[trigger] trips@[j]).wf(),
            run.wf(),
            run.filter_view() == fv,
            run.cap() == cap_val(max_results),
            run.seen() == dsv.take(i as int),
            out.deep_view() == seq![spec_header()] + rows_of(
                capped(dsv.take(i as int), fv, cap_val(max_results)),
            ),
        decreases n - i,
    {
        let ghost pre = dsv.take(i as int);
        proof {
            assert(dsv[i as int] == trips@[i as int]@);
            lemma_capped_push(pre, fv, cap_val(max_results), dsv[i as int]);
        }
        let emit = run.step(&trips[i]);
        proof {
            assert(pre.push(trips@[i as int]@) =~= dsv.take(i as int + 1));
        }
        let ghost old_out = out.deep_view();
        match emit {
            Option::Some(row) => {
                out.push(row);
                proof {
                    let c0 = capped(pre, fv, cap_val(max_results));
                    let c1 = capped(dsv.take(i as int + 1), fv, cap_val(max_results));
                    assert(c1 == c0.push(dsv[i as int]));
                    assert(rows_of(c1) =~= rows_of(c0).push(spec_trip_row(dsv[i as int])));
                    assert(out.deep_view() =~= old_out.push(row@));
                    assert(out.deep_view() =~= seq![spec_header()] + rows_of(c1));
                }
            },
            Option::None => {
                proof {
                    assert(capped(dsv.take(i as int + 1), fv, cap_val(max_results)) == capped(
                        pre,
                        fv,
                        cap_val(max_results),
                    ));
                }
            },
        }
        i = i + 1;
    }
    proof {
        assert(dsv.take(n as int) =~= dsv);
    }
    let c = run.count();
    (out, c)
}

/// Sum of the distances of a sequence of records.
pub open spec fn sum_distance(ds: Seq<TripView>) -> int
    decreases ds.len(),
{
    if ds.len() == 0 {
        0
    } else {
        sum_distance(ds.drop_last()) + ds.last().trip_distance
    }
}

/// Sum of the total amounts of a sequence of records.
pub open spec fn sum_amount(ds: Seq<TripView>) -> int
    decreases ds.len(),
{
    if ds.len() == 0 {
        0
    } else {
        sum_amount(ds.drop_last()) + ds.last().total_amount
    }
}

/// Sum of the passenger counts of a sequence of records.
pub open spec fn sum_passengers(ds: Seq<TripView>) -> int
    decreases ds.len(),
{
    if ds.len() == 0 {
        0
    } else {
        sum_passengers(ds.drop_last()) + ds.last().passenger_count
    }
}

pub proof fn lemma_sums_push(ds: Seq<TripView>, t: TripView)
    ensures
        sum_distance(ds.push(t)) == sum_distance(ds) + t.trip_distance,
        sum_amount(ds.push(t)) == sum_amount(ds) + t.total_amount,
        sum_passengers(ds.push(t)) == sum_passengers(ds) + t.passenger_count,
{
    assert(ds.push(t).drop_last() =~= ds);
}

/// Integer division truncated toward zero.
pub open spec fn trunc_div(a: int, b: int) -> int
    recommends
        b > 0,
{
    if a >= 0 {
        a / b
    } else {
        -((-a) / b)
    }
}

/// Summary statistics of the records a filter accepts: the count and the
/// exact sums, with averages derived only when at least one record matched.
pub struct FilterStats {
    pub count: u64,
    pub sum_distance: i128,
    pub sum_amount: i128,
    pub sum_passengers: u128,
}

impl FilterStats {
    /// Each sum is bounded by the count times the field's largest value.
    pub open spec fn wf(self) -> bool {
        &&& -(self.count as int) * (crate::amount::MAX_AMOUNT as int) <= self.sum_distance as int
            <= (self.count as int) * (crate::amount::MAX_AMOUNT as int)
        &&& -(self.count as int) * (crate::amount::MAX_AMOUNT as int) <= self.sum_amount as int <= (
        self.count as int) * (crate::amount::MAX_AMOUNT as int)
        &&& self.sum_passengers as int <= (self.count as int) * (crate::amount::MAX_COUNT as int)
    }

    /// Average distance in hundredths, truncated toward zero; absent when
    /// no record matched.
    pub fn avg_distance(&self) -> (r: Option<i128>)
        requires
            self.wf(),
        ensures
            r is Some <==> self.count > 0,
            self.count > 0 ==> r is Some && r->0 as int == trunc_div(
                self.sum_distance as int,
                self.count as int,
            ),
    {
        if self.count == 0 {
            None
        } else {
            Some(div_toward_zero(self.sum_distance, self.count))
        }
    }

    /// Average total amount in hundredths, truncated toward zero; absent
    /// when no record matched.
    pub fn avg_amount(&self) -> (r: Option<i128>)
        requires
            self.wf(),
        ensures
            r is Some <==> self.count > 0,
            self.count > 0 ==> r is Some && r->0 as int == trunc_div(
                self.sum_amount as int,
                self.count as int,
            ),
    {
        if self.count == 0 {
            None
        } else {
            Some(div_toward_zero(self.sum_amount, self.count))
        }
    }

    /// Average passenger count, truncated; absent when no record matched.
    pub fn avg_passengers(&self) -> (r: Option<u128>)
        requires
            self.wf(),
        ensures
            r is Some <==> self.count > 0,
            self.count > 0 ==> r == Some((self.sum_passengers as int / self.count as int) as u128),
    {
        if self.count == 0 {
            None
        } else {
            Some(self.sum_passengers / (self.count as u128))
        }
    }

    /// Sum of the total amounts; absent when no record matched.
    pub fn total_amount(&self) -> (r: Option<i128>)
        ensures
            r is Some <==> self.count > 0,
            self.count > 0 ==> r == Some(self.sum_amount),
    {
        if self.count == 0 {
            None
        } else {
            Some(self.sum_amount)
        }
    }
}

/// Division of a possibly negative sum by a positive count, truncated
/// toward zero.
fn div_toward_zero(sum: i128, count: u64) -> (r: i128)
    requires
        count > 0,
        sum > i128::MIN,
    ensures
        r == trunc_div(sum as int, count as int),
{
    let b = count as u128;
    if sum >= 0 {
        let q = (sum as u128) / b;
        q as i128
    } else {
        let m = -sum;
        let q = (m as u128) / b;
        -(q as i128)
    }
}

/// A streaming statistics pass: records are fed in one at a time, and the
/// running statistics always cover exactly the records the filter accepted.
pub struct StatsRun {
    pub filter: TripFilter,
    pub stats: FilterStats,
    pub processed: Ghost<Seq<TripView>>,
}

impl StatsRun {
    pub open spec fn filter_view(self) -> FilterView {
        self.filter@
    }

    /// The records fed in so far.
    pub open spec fn seen(self) -> Seq<TripView> {
        self.processed@
    }

    /// The statistics are exactly those of the matching records seen.
    pub open spec fn wf(self) -> bool {
        let m = matching(self.seen(), self.filter_view());
        &&& self.stats.count as int == m.len()
        &&& self.stats.sum_distance as int == sum_distance(m)
        &&& self.stats.sum_amount as int == sum_amount(m)
        &&& self.stats.sum_passengers as int == sum_passengers(m)
        &&& self.stats.wf()
    }

    /// Starts a statistics pass with the given filter.
    pub fn new(filter: TripFilter) -> (r: Self)
        ensures
            r.wf(),
            r.seen() == Seq::<TripView>::empty(),
            r.filter_view() == filter@,
    {
        let r = StatsRun {
            filter,
            stats: FilterStats { count: 0, sum_distance: 0, sum_amount: 0, sum_passengers: 0 },
            processed: Ghost(Seq::empty()),
        };
        proof {
            reveal(Seq::filter);
            assert(matching(r.seen(), r.filter_view()).len() == 0);
        }
        r
    }

    /// Feeds one record, folding it into the sums when the filter accepts
    /// it.
    pub fn step(&mut self, trip: &Trip)
        requires
            old(self).wf(),
            trip.wf(),
            old(self).seen().len() < u64::MAX,
        ensures
            final(self).wf(),
            final(self).filter_view() == old(self).filter_view(),
            final(self).seen() == old(self).seen().push(trip@),
    {
        proof {
            lemma_matching_len(self.seen(), self.filter_view());
            lemma_matching_push(self.seen(), self.filter_view(), trip@);
            lemma_sums_push(matching(self.seen(), self.filter_view()), trip@);
        }
        let accept = self.filter.matches(trip);
        self.processed = Ghost(self.processed@.push(trip@));
        if accept {
            self.stats.count = self.stats.count + 1;
            self.stats.sum_distance = self.stats.sum_distance + (trip.trip_distance as i128);
            self.stats.sum_amount = self.stats.sum_amount + (trip.total_amount as i128);
            self.stats.sum_passengers = self.stats.sum_passengers + (trip.passenger_count as u128);
        }
    }

    /// Hands out the finished statistics.
    pub fn finish(self) -> (r: FilterStats)
        ensures
            r == self.stats,
    {
        self.stats
    }
}

/// Runs a statistics pass over an in-memory sequence of records.
pub fn get_filter_stats(trips: &Vec<Trip>, filter: TripFilter) -> (r: FilterStats)
    requires
        forall|i: int| 0 <= i < trips@.len() ==> (#[trigger] trips@[i]).wf(),
    ensures
        r.count as int == matching(trips.deep_view(), filter@).len(),
        r.sum_distance as int == sum_distance(matching(trips.deep_view(), filter@)),
        r.sum_amount as int == sum_amount(matching(trips.deep_view(), filter@)),
        r.sum_passengers as int == sum_passengers(matching(trips.deep_view(), filter@)),
        r.wf(),
{
    let ghost dsv = trips.deep_view();
    let ghost fv = filter@;
    let mut run = StatsRun::new(filter);
    proof {
        assert(run.seen() =~= dsv.take(0));
    }
    let n = trips.len();
    let mut i: usize = 0;
    while i < n
        invariant
            0 <= i <= n,
            n == trips@.len(),
            dsv == trips.deep_view(),
            forall|j: int| 0 <= j < trips@.len() ==> (#[trigger] trips@[j]).wf(),
            run.wf(),
            run.filter_view() == fv,
            run.seen() == dsv.take(i as int),
        decreases n - i,
    {
        proof {
            assert(dsv[i as int] == trips@[i as int]@);
        }
        run.step(&trips[i]);
        proof {
            assert(dsv.take(i as int).push(trips@[i as int]@) =~= dsv.take(i as int + 1));
        }
        i = i + 1;
    }
    proof {
        assert(dsv.take(n as int) =~= dsv);
    }
    run.finish()
}

/// Without a cap, a scan emits exactly the matching records, in order: the
/// output of an uncapped run is the matching subsequence itself.
pub proof fn lemma_uncapped_exact(ds: Seq<TripView>, f: FilterView)
    ensures
        capped(ds, f, Option::None) == matching(ds, f),
{
}

/// Under a cap of `n`, a scan emits the smaller of `n` and the number of
/// matching records.
pub proof fn lemma_capped_count(ds: Seq<TripView>, f: FilterView, n: int)
    requires
        n >= 0,
    ensures
        capped(ds, f, Option::Some(n)).len() == min_int(n, matching(ds, f).len() as int),
{
}

/// A filter that rejects every record of a dataset matches none of it.
pub proof fn lemma_no_match_empty(ds: Seq<TripView>, f: FilterView)
    requires
        forall|i: int| 0 <= i < ds.len() ==> !spec_matches(f, #[trigger] ds[i]),
    ensures
        matching(ds, f).len() == 0,
    decreases ds.len(),
{
    reveal(Seq::filter);
    if ds.len() > 0 {
        assert(forall|i: int| 0 <= i < ds.len() - 1 ==> ds.drop_last()[i] == ds[i]);
        lemma_no_match_empty(ds.drop_last(), f);
        assert(!spec_matches(f, ds.last()));
    }
}

} // verus!
