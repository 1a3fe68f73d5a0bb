//! The filter engine: a small boolean-expression language over record
//! predicates, evaluated per record during a scan.  Filters are immutable
//! trees and carry no state, so one filter may serve any number of scans.

use vstd::prelude::*;

use crate::trip::Trip;
use crate::trip::TripView;

verus! {

/// Ghost image of a filter expression.
pub ghost enum FilterView {
    Price { min: Option<int>, max: Option<int> },
    Index(Seq<char>),
    Destination(Seq<char>),
    And(Seq<FilterView>),
    Or(Seq<FilterView>),
}

/// A filter expression.  `Price` bounds are in hundredths, as record
/// amounts are.
pub enum TripFilter {
    /// Total amount within the given optional bounds, both inclusive.
    Price { min: Option<i64>, max: Option<i64> },
    /// Record key equal to the given text.
    Index(String),
    /// Drop-off location equal to the given text.
    Destination(String),
    /// Every child accepts the record; an empty list accepts everything.
    And(Vec<TripFilter>),
    /// At least one child accepts the record; an empty list accepts nothing.
    Or(Vec<TripFilter>),
}

/// Ghost images of a sequence of filter expressions.
pub open spec fn views_of(fs: Seq<TripFilter>) -> Seq<FilterView>
    decreases fs,
{
    if fs.len() == 0 {
        Seq::empty()
    } else {
        seq![fs[0].view()] + views_of(fs.drop_first())
    }
}

pub proof fn lemma_views_of(fs: Seq<TripFilter>)
    ensures
        views_of(fs).len() == fs.len(),
        forall|i: int| 0 <= i < fs.len() ==> views_of(fs)[i] == fs[i]@,
    decreases fs.len(),
{
    if fs.len() == 0 {
        assert(views_of(fs) =~= Seq::<FilterView>::empty());
    } else {
        lemma_views_of(fs.drop_first());
        assert(views_of(fs) == seq![fs[0].view()] + views_of(fs.drop_first()));
        assert(forall|i: int| 1 <= i < fs.len() ==> fs.drop_first()[i - 1] == fs[i]);
        assert forall|i: int| 0 <= i < fs.len() implies views_of(fs)[i] == fs[i]@ by {
            if i == 0 {
                assert(views_of(fs)[0] == fs[0].view());
            } else {
                assert(views_of(fs)[i] == views_of(fs.drop_first())[i - 1]);
            }
        }
    }
}

impl View for TripFilter {
    type V = FilterView;

    open spec fn view(&self) -> FilterView
        decreases self,
    {
        match self {
            TripFilter::Price { min, max } => FilterView::Price {
                min: match min {
                    Some(m) => Some(*m as int),
                    None => None,
                },
                max: match max {
                    Some(m) => Some(*m as int),
                    None => None,
                },
            },
            TripFilter::Index(k) => FilterView::Index(k@),
            TripFilter::Destination(d) => FilterView::Destination(d@),
            TripFilter::And(fs) => FilterView::And(views_of(fs@)),
            TripFilter::Or(fs) => FilterView::Or(views_of(fs@)),
        }
    }
}

impl DeepView for TripFilter {
    type V = FilterView;

    open spec fn deep_view(&self) -> FilterView {
        self.view()
    }
}

/// Whether a filter accepts a record.
pub open spec fn spec_matches(f: FilterView, t: TripView) -> bool
    decreases f,
{
    match f {
        FilterView::Price { min, max } => {
            &&& match min {
                Some(m) => t.total_amount >= m,
                None => true,
            }
            &&& match max {
                Some(m) => t.total_amount <= m,
                None => true,
            }
        },
        FilterView::Index(k) => t.index == k,
        FilterView::Destination(d) => t.do_location_id == d,
        FilterView::And(fs) => all_match(fs, t),
        FilterView::Or(fs) => any_match(fs, t),
    }
}

/// Whether every filter in the sequence accepts the record.
pub open spec fn all_match(fs: Seq<FilterView>, t: TripView) -> bool
    decreases fs,
{
    fs.len() == 0 || (spec_matches(fs[0], t) && all_match(fs.drop_first(), t))
}

/// Whether at least one filter in the sequence accepts the record.
pub open spec fn any_match(fs: Seq<FilterView>, t: TripView) -> bool
    decreases fs,
{
    fs.len() > 0 && (spec_matches(fs[0], t) || any_match(fs.drop_first(), t))
}

/// A conjunction holds exactly when each member accepts the record.
pub proof fn lemma_all_match(fs: Seq<FilterView>, t: TripView)
    ensures
        all_match(fs, t) <==> (forall|i: int|
            0 <= i < fs.len() ==> spec_matches(#[trigger] fs[i], t)),
    decreases fs.len(),
{
    if fs.len() > 0 {
        lemma_all_match(fs.drop_first(), t);
        assert(forall|i: int| 1 <= i < fs.len() ==> fs.drop_first()[i - 1] == fs[i]);
        if spec_matches(fs[0], t) && all_match(fs.drop_first(), t) {
            assert forall|i: int| 0 <= i < fs.len() implies spec_matches(#[trigger] fs[i], t) by {
                if i > 0 {
                    assert(spec_matches(fs.drop_first()[i - 1], t));
                }
            }
        }
    }
}

/// A disjunction holds exactly when some member accepts the record.
pub proof fn lemma_any_match(fs: Seq<FilterView>, t: TripView)
    ensures
        any_match(fs, t) <==> (exists|i: int|
            0 <= i < fs.len() && spec_matches(#[trigger] fs[i], t)),
    decreases fs.len(),
{
    if fs.len() > 0 {
        lemma_any_match(fs.drop_first(), t);
        assert(forall|i: int| 1 <= i < fs.len() ==> fs.drop_first()[i - 1] == fs[i]);
        if any_match(fs, t) {
            if spec_matches(fs[0], t) {
                assert(0 <= 0 < fs.len() && spec_matches(fs[0], t));
            } else {
                let i = choose|i: int|
                    0 <= i < fs.drop_first().len() && spec_matches(
                        #[trigger] fs.drop_first()[i],
                        t,
                    );
                assert(0 <= i + 1 < fs.len() && spec_matches(fs[i + 1], t));
            }
        }
        if exists|i: int| 0 <= i < fs.len() && spec_matches(#[trigger] fs[i], t) {
            let i = choose|i: int| 0 <= i < fs.len() && spec_matches(#[trigger] fs[i], t);
            if i > 0 {
                assert(spec_matches(fs.drop_first()[i - 1], t));
            }
        }
    }
}

impl TripFilter {
    /// Evaluates this filter on one record.
    pub fn matches(&self, trip: &Trip) -> (r: bool)
        ensures
            r == spec_matches(self@, trip@),
        decreases *self,
    {
        match self {
            TripFilter::Price { min, max } => {
                let min_ok = match min {
                    Some(m) => trip.total_amount >= *m,
                    None => true,
                };
                let max_ok = match max {
                    Some(m) => trip.total_amount <= *m,
                    None => true,
                };
                min_ok && max_ok
            },
            TripFilter::Index(k) => trip.index == *k,
            TripFilter::Destination(d) => trip.do_location_id == *d,
            TripFilter::And(fs) => {
                let ghost vs = views_of(fs@);
                proof {
                    lemma_views_of(fs@);
                    assert(self@ == FilterView::And(vs));
                }
                let n = fs.len();
                let mut i: usize = 0;
                while i < n
                    invariant
                        0 <= i <= n,
                        n == fs@.len(),
                        vs == views_of(fs@),
                        vs.len() == fs@.len(),
                        forall|j: int| 0 <= j < fs@.len() ==> vs[j] == fs@[j]@,
                        self@ == FilterView::And(vs),
                        forall|j: int| 0 <= j < i ==> spec_matches(#[trigger] vs[j], trip@),
                        decreases_to!(*self => fs@),
                    decreases n - i,
                {
                    proof {
                        assert(decreases_to!(fs@ => fs@[i as int]));
                    }
                    if !fs[i].matches(trip) {
                        proof {
                            assert(!spec_matches(vs[i as int], trip@));
                            lemma_all_match(vs, trip@);
                        }
                        return false;
                    }
                    i = i + 1;
                }
                proof {
                    lemma_all_match(vs, trip@);
                }
                true
            },
            TripFilter::Or(fs) => {
                let ghost vs = views_of(fs@);
                proof {
                    lemma_views_of(fs@);
                    assert(self@ == FilterView::Or(vs));
                }
                let n = fs.len();
                let mut i: usize = 0;
                while i < n
                    invariant
                        0 <= i <= n,
                        n == fs@.len(),
                        vs == views_of(fs@),
                        vs.len() == fs@.len(),
                        forall|j: int| 0 <= j < fs@.len() ==> vs[j] == fs@[j]@,
                        self@ == FilterView::Or(vs),
                        forall|j: int| 0 <= j < i ==> !spec_matches(#[trigger] vs[j], trip@),
                        decreases_to!(*self => fs@),
                    decreases n - i,
                {
                    proof {
                        assert(decreases_to!(fs@ => fs@[i as int]));
                    }
                    if fs[i].matches(trip) {
                        proof {
                            assert(spec_matches(vs[i as int], trip@));
                            lemma_any_match(vs, trip@);
                        }
                        return true;
                    }
                    i = i + 1;
                }
                proof {
                    lemma_any_match(vs, trip@);
                }
                false
            },
        }
    }
}

impl Clone for TripFilter {
    fn clone(&self) -> (r: Self)
        ensures
            r@ == self@,
        decreases *self,
    {
        match self {
            TripFilter::Price { min, max } => TripFilter::Price { min: *min, max: *max },
            TripFilter::Index(k) => TripFilter::Index(k.clone()),
            TripFilter::Destination(d) => TripFilter::Destination(d.clone()),
            TripFilter::And(fs) => TripFilter::And(clone_filters(fs)),
            TripFilter::Or(fs) => TripFilter::Or(clone_filters(fs)),
        }
    }
}

/// Clones a list of filters, keeping each one's meaning.
fn clone_filters(fs: &Vec<TripFilter>) -> (r: Vec<TripFilter>)
    ensures
        views_of(r@) == views_of(fs@),
    decreases fs@,
{
    let ghost vs = views_of(fs@);
    proof {
        lemma_views_of(fs@);
    }
    let mut out: Vec<TripFilter> = Vec::new();
    let n = fs.len();
    let mut i: usize = 0;
    while i < n
        invariant
            0 <= i <= n,
            n == fs@.len(),
            out@.len() == i,
            vs == views_of(fs@),
            vs.len() == fs@.len(),
            forall|j: int| 0 <= j < fs@.len() ==> vs[j] == fs@[j]@,
            forall|j: int| 0 <= j < i ==> (#[trigger] out@[j])@ == vs[j],
        decreases n - i,
    {
        proof {
            assert(decreases_to!(fs@ => fs@[i as int]));
        }
        let c = fs[i].clone();
        out.push(c);
        i = i + 1;
    }
    proof {
        lemma_views_of(out@);
        assert(views_of(out@) =~= views_of(fs@));
    }
    out
}

/// A price filter with no bounds accepts every record: it is the identity
/// element used when a scan runs unfiltered.
pub proof fn lemma_price_unbounded_matches_all(t: TripView)
    ensures
        spec_matches(FilterView::Price { min: None, max: None }, t),
{
}

/// An empty conjunction accepts every record, and an empty disjunction
/// accepts none.
pub proof fn lemma_empty_composites(t: TripView)
    ensures
        spec_matches(FilterView::And(Seq::empty()), t),
        !spec_matches(FilterView::Or(Seq::empty()), t),
{
}

} // verus!
