//! Top-K destination frequency: a single pass counts how often each
//! drop-off location occurs, keeping destinations in the order they were
//! first seen; the result is ranked by descending count, ties going to the
//! destination seen first, cut off at a requested length.

use vstd::prelude::*;

use crate::trip::Trip;
use crate::trip::TripView;
use crate::scan::min_int;

verus! {

/// One destination with its running count.
pub type DestCount = (Seq<char>, int);

/// Counts `d` once more: the entry with key `d` is bumped in place, or a
/// fresh entry is appended when `d` has not been seen.
pub open spec fn bump_dest(cs: Seq<DestCount>, d: Seq<char>) -> Seq<DestCount>
    decreases cs.len(),
{
    if cs.len() == 0 {
        seq![(d, 1int)]
    } else if cs[0].0 == d {
        seq![(cs[0].0, cs[0].1 + 1)] + cs.drop_first()
    } else {
        seq![cs[0]] + bump_dest(cs.drop_first(), d)
    }
}

/// Frequency of each destination over a dataset, in first-seen order.
pub open spec fn dest_counts(ds: Seq<TripView>) -> Seq<DestCount>
    decreases ds.len(),
{
    if ds.len() == 0 {
        Seq::empty()
    } else {
        bump_dest(dest_counts(ds.drop_last()), ds.last().do_location_id)
    }
}

/// When `d` already stands at first position `j`, bumping updates that
/// entry in place.
pub proof fn lemma_bump_found(cs: Seq<DestCount>, d: Seq<char>, j: int)
    requires
        0 <= j < cs.len(),
        cs[j].0 == d,
        forall|k: int| 0 <= k < j ==> cs[k].0 != d,
    ensures
        bump_dest(cs, d) == cs.update(j, (d, cs[j].1 + 1)),
    decreases j,
{
    if j == 0 {
        assert(bump_dest(cs, d) =~= cs.update(0, (d, cs[0].1 + 1)));
    } else {
        assert(cs[0].0 != d);
        assert(forall|k: int| 0 <= k < j - 1 ==> cs.drop_first()[k] == cs[k + 1]);
        lemma_bump_found(cs.drop_first(), d, j - 1);
        assert(bump_dest(cs, d) =~= cs.update(j, (d, cs[j].1 + 1)));
    }
}

/// When `d` has not been seen, bumping appends a fresh entry.
pub proof fn lemma_bump_absent(cs: Seq<DestCount>, d: Seq<char>)
    requires
        forall|k: int| 0 <= k < cs.len() ==> cs[k].0 != d,
    ensures
        bump_dest(cs, d) == cs.push((d, 1int)),
    decreases cs.len(),
{
    if cs.len() == 0 {
        assert(bump_dest(cs, d) =~= cs.push((d, 1int)));
    } else {
        assert(forall|k: int| 0 <= k < cs.len() - 1 ==> cs.drop_first()[k] == cs[k + 1]);
        lemma_bump_absent(cs.drop_first(), d);
        assert(bump_dest(cs, d) =~= cs.push((d, 1int)));
    }
}

/// The frequency table lists each destination once, with a positive count
/// no greater than the number of records, and has no more entries than
/// records.
pub proof fn lemma_dest_counts_props(ds: Seq<TripView>)
    ensures
        forall|i: int, j: int|
            0 <= i < j < dest_counts(ds).len() ==> dest_counts(ds)[i].0 != dest_counts(ds)[j].0,
        forall|i: int|
            0 <= i < dest_counts(ds).len() ==> 1 <= #[trigger] dest_counts(ds)[i].1 <= ds.len(),
        dest_counts(ds).len() <= ds.len(),
    decreases ds.len(),
{
    if ds.len() > 0 {
        lemma_dest_counts_props(ds.drop_last());
        let prev = dest_counts(ds.drop_last());
        let d = ds.last().do_location_id;
        if exists|k: int| 0 <= k < prev.len() && prev[k].0 == d {
            let j = choose|j: int| 0 <= j < prev.len() && prev[j].0 == d && forall|k: int|
                0 <= k < j ==> prev[k].0 != d;
            assert(exists|j: int|
                0 <= j < prev.len() && prev[j].0 == d && (forall|k: int|
                    0 <= k < j ==> prev[k].0 != d)) by {
                let k0 = choose|k: int| 0 <= k < prev.len() && prev[k].0 == d;
                assert(forall|k: int| 0 <= k < k0 ==> prev[k].0 != d) by {
                    assert(forall|i: int, j: int|
                        0 <= i < j < prev.len() ==> prev[i].0 != prev[j].0);
                }
            }
            lemma_bump_found(prev, d, j);
        } else {
            lemma_bump_absent(prev, d);
        }
    }
}

/// Index of the entry with the greatest count, the earliest such entry
/// when counts tie.
pub open spec fn argmax_at(cs: Seq<DestCount>) -> int
    decreases cs.len(),
{
    if cs.len() <= 1 {
        0
    } else {
        let r = 1 + argmax_at(cs.drop_first());
        if cs[0].1 >= cs[r].1 {
            0
        } else {
            r
        }
    }
}

pub proof fn lemma_argmax_at(cs: Seq<DestCount>)
    requires
        cs.len() > 0,
    ensures
        0 <= argmax_at(cs) < cs.len(),
        forall|k: int| 0 <= k < cs.len() ==> #[trigger] cs[k].1 <= cs[argmax_at(cs)].1,
        forall|k: int| 0 <= k < argmax_at(cs) ==> #[trigger] cs[k].1 < cs[argmax_at(cs)].1,
    decreases cs.len(),
{
    if cs.len() > 1 {
        lemma_argmax_at(cs.drop_first());
        let rd = argmax_at(cs.drop_first());
        let r = 1 + rd;
        assert(forall|k: int| 0 <= k < cs.len() - 1 ==> cs.drop_first()[k] == cs[k + 1]);
        assert forall|k: int| 1 <= k < cs.len() implies cs[k].1 <= cs[r].1 by {
            assert(cs.drop_first()[k - 1].1 <= cs.drop_first()[rd].1);
        }
        assert forall|k: int| 1 <= k < r implies cs[k].1 < cs[r].1 by {
            assert(cs.drop_first()[k - 1].1 < cs.drop_first()[rd].1);
        }
    }
}

/// `argmax_at` is pinned down by its two defining properties.
pub proof fn lemma_argmax_at_is(cs: Seq<DestCount>, j: int)
    requires
        0 <= j < cs.len(),
        forall|k: int| 0 <= k < cs.len() ==> #[trigger] cs[k].1 <= cs[j].1,
        forall|k: int| 0 <= k < j ==> #[trigger] cs[k].1 < cs[j].1,
    ensures
        argmax_at(cs) == j,
    decreases cs.len(),
{
    if cs.len() > 1 {
        lemma_argmax_at(cs.drop_first());
        assert(forall|k: int| 0 <= k < cs.len() - 1 ==> cs.drop_first()[k] == cs[k + 1]);
        if j == 0 {
            let r = 1 + argmax_at(cs.drop_first());
            assert(cs[0].1 >= cs[r].1);
        } else {
            lemma_argmax_at_is(cs.drop_first(), j - 1);
            assert(cs[0].1 < cs[j].1);
        }
    }
}

/// The frequency table ordered by descending count, ties to the earlier
/// entry: repeatedly take out the earliest entry of greatest count.
pub open spec fn ranked(cs: Seq<DestCount>) -> Seq<DestCount>
    decreases cs.len(),
    via ranked_decreases
{
    if cs.len() == 0 {
        Seq::empty()
    } else {
        let j = argmax_at(cs);
        seq![cs[j]] + ranked(cs.remove(j))
    }
}

#[via_fn]
proof fn ranked_decreases(cs: Seq<DestCount>) {
    if cs.len() > 0 {
        lemma_argmax_at(cs);
    }
}

/// Every destination occurs at most once in the table.
pub open spec fn distinct_dests(cs: Seq<DestCount>) -> bool {
    forall|i: int, j: int| 0 <= i < j < cs.len() ==> cs[i].0 != cs[j].0
}

/// First index whose entry bears the destination, or the length.
pub open spec fn dest_pos(cs: Seq<DestCount>, d: Seq<char>) -> int
    decreases cs.len(),
{
    if cs.len() == 0 {
        0
    } else if cs[0].0 == d {
        0
    } else {
        1 + dest_pos(cs.drop_first(), d)
    }
}

/// `dest_pos` is pinned down by its two defining properties.
pub proof fn lemma_dest_pos_is(cs: Seq<DestCount>, d: Seq<char>, j: int)
    requires
        0 <= j <= cs.len(),
        j < cs.len() ==> cs[j].0 == d,
        forall|t: int| 0 <= t < j ==> cs[t].0 != d,
    ensures
        dest_pos(cs, d) == j,
    decreases cs.len(),
{
    if cs.len() > 0 && cs[0].0 != d {
        assert(j != 0);
        assert(forall|t: int| 0 <= t < j - 1 ==> cs.drop_first()[t] == cs[t + 1]);
        assert(j - 1 < cs.drop_first().len() ==> cs.drop_first()[j - 1] == cs[j]);
        lemma_dest_pos_is(cs.drop_first(), d, j - 1);
    }
}

/// The ranked table is as long as the table and every ranked entry stands
/// somewhere in the table.
pub proof fn lemma_ranked_membership(cs: Seq<DestCount>)
    ensures
        ranked(cs).len() == cs.len(),
        forall|k: int|
            0 <= k < ranked(cs).len() ==> exists|idx: int|
                0 <= idx < cs.len() && #[trigger] ranked(cs)[k] == cs[idx],
    decreases cs.len(),
{
    if cs.len() > 0 {
        lemma_argmax_at(cs);
        let m = argmax_at(cs);
        let rest = cs.remove(m);
        cs.remove_ensures(m);
        lemma_ranked_membership(rest);
        let r = ranked(cs);
        assert(r == seq![cs[m]] + ranked(rest));
        assert forall|k: int| 0 <= k < r.len() implies exists|idx: int|
            0 <= idx < cs.len() && #[trigger] r[k] == cs[idx] by {
            if k == 0 {
                assert(r[0] == cs[m]);
            } else {
                assert(r[k] == ranked(rest)[k - 1]);
                let idp = choose|idx: int| 0 <= idx < rest.len() && ranked(rest)[k - 1] == rest[idx];
                if idp < m {
                    assert(r[k] == cs[idp]);
                } else {
                    assert(r[k] == cs[idp + 1]);
                }
            }
        }
    }
}

/// Ranking keeps the table ordered by strictly descending count except
/// that entries of equal count keep their first-seen order: the earlier
/// destination ranks higher.
pub proof fn lemma_ranked_order(cs: Seq<DestCount>)
    requires
        distinct_dests(cs),
    ensures
        ranked(cs).len() == cs.len(),
        forall|i: int, j: int|
            0 <= i < j < ranked(cs).len() ==> ranked(cs)[i].1 > ranked(cs)[j].1 || (ranked(cs)[i].1
                == ranked(cs)[j].1 && dest_pos(cs, ranked(cs)[i].0) < dest_pos(
                cs,
                ranked(cs)[j].0,
            )),
    decreases cs.len(),
{
    lemma_ranked_membership(cs);
    if cs.len() > 0 {
        lemma_argmax_at(cs);
        let m = argmax_at(cs);
        let rest = cs.remove(m);
        cs.remove_ensures(m);
        assert(distinct_dests(rest)) by {
            assert(forall|i: int| 0 <= i < m ==> rest[i] == cs[i]);
            assert(forall|i: int| m <= i < rest.len() ==> rest[i] == cs[i + 1]);
        }
        lemma_ranked_order(rest);
        lemma_ranked_membership(rest);
        let r = ranked(cs);
        let rr = ranked(rest);
        assert(r == seq![cs[m]] + rr);
        // position of a key of `rest` within `cs`, given where it stands in
        // `rest`
        assert forall|i: int, j: int| 0 <= i < j < r.len() implies r[i].1 > r[j].1 || (r[i].1
            == r[j].1 && dest_pos(cs, r[i].0) < dest_pos(cs, r[j].0)) by {
            let ej = r[j];
            assert(ej == rr[j - 1]);
            let pj = choose|idx: int| 0 <= idx < rest.len() && rr[j - 1] == rest[idx];
            let xj: int = if pj < m {
                pj
            } else {
                pj + 1
            };
            assert(ej == cs[xj] && xj != m && 0 <= xj < cs.len());
            assert(dest_pos(cs, ej.0) == xj) by {
                assert(cs[xj].0 == ej.0);
                assert(forall|t: int| 0 <= t < xj ==> cs[t].0 != ej.0);
                lemma_dest_pos_is(cs, ej.0, xj);
            }
            if i == 0 {
                assert(r[0] == cs[m]);
                assert(cs[xj].1 <= cs[m].1);
                if cs[xj].1 == cs[m].1 {
                    assert(xj > m) by {
                        assert(forall|k: int| 0 <= k < m ==> #[trigger] cs[k].1 < cs[m].1);
                    }
                    assert(dest_pos(cs, cs[m].0) == m) by {
                        assert(forall|t: int| 0 <= t < m ==> cs[t].0 != cs[m].0);
                        lemma_dest_pos_is(cs, cs[m].0, m);
                    }
                }
            } else {
                let ei = r[i];
                assert(ei == rr[i - 1]);
                let pi = choose|idx: int| 0 <= idx < rest.len() && rr[i - 1] == rest[idx];
                let xi: int = if pi < m {
                    pi
                } else {
                    pi + 1
                };
                assert(ei == cs[xi] && xi != m && 0 <= xi < cs.len());
                assert(dest_pos(cs, ei.0) == xi) by {
                    assert(cs[xi].0 == ei.0);
                    assert(forall|t: int| 0 <= t < xi ==> cs[t].0 != ei.0);
                    lemma_dest_pos_is(cs, ei.0, xi);
                }
                if ei.1 == ej.1 {
                    // the order within `rest` carries over to `cs`
                    assert(dest_pos(rest, ei.0) == pi) by {
                        assert(rest[pi].0 == ei.0);
                        assert(forall|t: int| 0 <= t < pi ==> rest[t].0 != ei.0);
                        lemma_dest_pos_is(rest, ei.0, pi);
                    }
                    assert(dest_pos(rest, ej.0) == pj) by {
                        assert(rest[pj].0 == ej.0);
                        assert(forall|t: int| 0 <= t < pj ==> rest[t].0 != ej.0);
                        lemma_dest_pos_is(rest, ej.0, pj);
                    }
                    assert(pi < pj);
                    assert(xi < xj);
                }
            }
        }
    }
}

/// The ranked frequency table of a dataset, cut to at most `limit`
/// entries.
pub open spec fn spec_popular(ds: Seq<TripView>, limit: int) -> Seq<DestCount> {
    let r = ranked(dest_counts(ds));
    r.take(min_int(limit, r.len() as int))
}

/// The most-popular list is ordered by descending count, and two
/// destinations of equal count keep their first-seen order: the earlier
/// one ranks higher.
pub proof fn lemma_popular_order(ds: Seq<TripView>, limit: int)
    requires
        limit >= 0,
    ensures
        forall|i: int, j: int|
            0 <= i < j < spec_popular(ds, limit).len() ==> spec_popular(ds, limit)[i].1
                > spec_popular(ds, limit)[j].1 || (spec_popular(ds, limit)[i].1 == spec_popular(
                ds,
                limit,
            )[j].1 && dest_pos(dest_counts(ds), spec_popular(ds, limit)[i].0) < dest_pos(
                dest_counts(ds),
                spec_popular(ds, limit)[j].0,
            )),
{
    let cs = dest_counts(ds);
    lemma_dest_counts_props(ds);
    lemma_ranked_order(cs);
    let r = ranked(cs);
    let m = min_int(limit, r.len() as int);
    assert forall|i: int|
        0 <= i < spec_popular(ds, limit).len() implies spec_popular(ds, limit)[i] == r[i] by {
        assert(spec_popular(ds, limit) == r.take(m));
        assert(r.take(m)[i] == r[i]);
    }
}

/// Ghost image of an executable frequency table.
pub open spec fn counts_view(v: Seq<(String, usize)>) -> Seq<DestCount> {
    Seq::new(v.len(), |i: int| (v[i].0@, v[i].1 as int))
}

/// A streaming frequency pass: records are fed in one at a time, and the
/// table always holds each destination seen so far with its count, in
/// first-seen order.
pub struct DestCounts {
    pub entries: Vec<(String, usize)>,
    pub processed: Ghost<Seq<TripView>>,
}

impl DestCounts {
    /// The records fed in so far.
    pub open spec fn seen(self) -> Seq<TripView> {
        self.processed@
    }

    pub open spec fn wf(self) -> bool {
        counts_view(self.entries@) == dest_counts(self.seen())
    }

    /// Starts an empty frequency pass.
    pub fn new() -> (r: Self)
        ensures
            r.wf(),
            r.seen() == Seq::<TripView>::empty(),
    {
        let r = DestCounts { entries: Vec::new(), processed: Ghost(Seq::empty()) };
        proof {
            assert(counts_view(r.entries@) =~= dest_counts(r.seen()));
        }
        r
    }

    /// Feeds one record, counting its drop-off location.
    pub fn step(&mut self, trip: &Trip)
        requires
            old(self).wf(),
            old(self).seen().len() < usize::MAX,
        ensures
            final(self).wf(),
            final(self).seen() == old(self).seen().push(trip@),
    {
        let ghost pre = self.seen();
        let ghost cs = dest_counts(pre);
        let ghost d = trip@.do_location_id;
        proof {
            lemma_dest_counts_props(pre);
            assert(pre.push(trip@).drop_last() =~= pre);
            assert(dest_counts(pre.push(trip@)) == bump_dest(cs, d));
        }
        let n = self.entries.len();
        let mut j: usize = 0;
        loop
            invariant_except_break
                0 <= j <= n,
                forall|k: int| 0 <= k < j ==> self.entries@[k].0@ != d,
            invariant
                n == self.entries@.len(),
                d == trip@.do_location_id,
            ensures
                0 <= j <= n,
                forall|k: int| 0 <= k < j ==> self.entries@[k].0@ != d,
                j < n ==> self.entries@[j as int].0@ == d,
            decreases n - j,
        {
            if j == n {
                break ;
            }
            let e = &self.entries[j];
            if e.0 == trip.do_location_id {
                break ;
            }
            j = j + 1;
        }
        if j < self.entries.len() {
            let c = self.entries[j].1;
            let key = self.entries[j].0.clone();
            proof {
                assert(cs[j as int] == (self.entries@[j as int].0@, c as int));
                assert(forall|k: int| 0 <= k < j ==> cs[k].0 != d);
                lemma_bump_found(cs, d, j as int);
                assert(cs[j as int].1 <= pre.len());
            }
            self.entries.set(j, (key, c + 1));
            proof {
                assert(counts_view(self.entries@) =~= bump_dest(cs, d));
            }
        } else {
            proof {
                assert(forall|k: int| 0 <= k < cs.len() ==> cs[k].0 != d);
                lemma_bump_absent(cs, d);
            }
            self.entries.push((trip.do_location_id.clone(), 1));
            proof {
                assert(counts_view(self.entries@) =~= bump_dest(cs, d));
            }
        }
        self.processed = Ghost(self.processed@.push(trip@));
    }
}

/// Counts drop-off locations over an in-memory sequence of records and
/// returns the most frequent destinations, at most `limit` of them, ranked
/// by descending count with ties going to the destination seen first.
pub fn get_popular_destinations(trips: &Vec<Trip>, limit: usize) -> (r: Vec<(String, usize)>)
    ensures
        counts_view(r@) == spec_popular(trips.deep_view(), limit as int),
{
    let ghost dsv = trips.deep_view();
    let mut dc = DestCounts::new();
    proof {
        assert(dc.seen() =~= dsv.take(0));
    }
    let n = trips.len();
    let mut i: usize = 0;
    while i < n
        invariant
            0 <= i <= n,
            n == trips@.len(),
            dsv == trips.deep_view(),
            dc.wf(),
            dc.seen() == dsv.take(i as int),
        decreases n - i,
    {
        proof {
            assert(dsv[i as int] == trips@[i as int]@);
        }
        dc.step(&trips[i]);
        proof {
            assert(dsv.take(i as int).push(dsv[i as int]) =~= dsv.take(i as int + 1));
        }
        i = i + 1;
    }
    proof {
        assert(dsv.take(n as int) =~= dsv);
    }
    rank_entries(dc.entries, limit)
}

/// Ranks a frequency table by descending count, ties to the entry that
/// stands earlier, and cuts it to at most `limit` entries.
pub fn rank_entries(entries: Vec<(String, usize)>, limit: usize) -> (r: Vec<(String, usize)>)
    ensures
        ({
            let big = ranked(counts_view(entries@));
            counts_view(r@) == big.take(min_int(limit as int, big.len() as int))
        }),
{
    let ghost cs0 = counts_view(entries@);
    let ghost bigr = ranked(cs0);
    let mut remaining = entries;
    let mut out: Vec<(String, usize)> = Vec::new();
    proof {
        assert(counts_view(out@) =~= bigr.take(0));
        assert(bigr.skip(0) =~= bigr);
        assert(counts_view(remaining@) == cs0);
    }
    while out.len() < limit && remaining.len() > 0
        invariant
            out@.len() <= limit,
            out@.len() <= bigr.len(),
            counts_view(out@) == bigr.take(out@.len() as int),
            ranked(counts_view(remaining@)) == bigr.skip(out@.len() as int),
        decreases remaining@.len(),
    {
        let ghost l = out@.len() as int;
        let ghost rv = counts_view(remaining@);
        let m = remaining.len();
        let mut best: usize = 0;
        let mut k: usize = 1;
        while k < m
            invariant
                m == remaining@.len(),
                m >= 1,
                1 <= k <= m,
                best < k,
                forall|t: int| 0 <= t < k ==> remaining@[t].1 <= remaining@[best as int].1,
                forall|t: int| 0 <= t < best ==> remaining@[t].1 < remaining@[best as int].1,
            decreases m - k,
        {
            if remaining[k].1 > remaining[best].1 {
                best = k;
            }
            k = k + 1;
        }
        proof {
            assert(forall|t: int| 0 <= t < rv.len() ==> rv[t].1 == remaining@[t].1 as int);
            lemma_argmax_at_is(rv, best as int);
            assert(ranked(rv) == seq![rv[best as int]] + ranked(rv.remove(best as int)));
        }
        let key = remaining[best].0.clone();
        let cnt = remaining[best].1;
        out.push((key, cnt));
        remaining.remove(best);
        proof {
            assert(counts_view(remaining@) =~= rv.remove(best as int));
            assert(bigr.skip(l)[0] == rv[best as int]);
            assert(bigr[l] == rv[best as int]);
            assert(counts_view(out@) =~= bigr.take(l + 1));
            assert(ranked(rv).drop_first() == ranked(rv.remove(best as int)));
            assert(bigr.skip(l).drop_first() =~= bigr.skip(l + 1));
            assert(ranked(counts_view(remaining@)) == bigr.skip(l + 1));
        }
    }
    proof {
        let l = out@.len() as int;
        let lim = limit as int;
        if remaining@.len() == 0 {
            assert(counts_view(remaining@) =~= Seq::<DestCount>::empty());
            assert(ranked(Seq::<DestCount>::empty()) == Seq::<DestCount>::empty());
            assert(bigr.skip(l).len() == 0);
            assert(bigr.len() == l);
            assert(bigr.take(min_int(lim, bigr.len() as int)) =~= bigr.take(l));
        } else {
            assert(l == lim);
            assert(bigr.len() >= l);
            assert(bigr.take(min_int(lim, bigr.len() as int)) =~= bigr.take(l));
        }
    }
    out
}

} // verus!
