//! The delimited row format: a row is the text of its fields joined by
//! commas, so splitting a row yields one more field than the row has commas.

use vstd::prelude::*;

use crate::chars::find_char;
use crate::chars::first_at;
use crate::chars::lemma_first_at_bounds;
use crate::chars::lemma_first_at_is;

verus! {

/// The fields of a row: the text between consecutive commas.
pub open spec fn split_row(s: Seq<char>) -> Seq<Seq<char>>
    decreases s.len(),
    via split_row_decreases
{
    let d = first_at(s, ',');
    if d == s.len() {
        seq![s]
    } else {
        seq![s.take(d)] + split_row(s.skip(d + 1))
    }
}

#[via_fn]
proof fn split_row_decreases(s: Seq<char>) {
    lemma_first_at_bounds(s, ',');
}

pub proof fn lemma_split_row_len(s: Seq<char>)
    ensures
        split_row(s).len() >= 1,
    decreases s.len(),
{
    lemma_first_at_bounds(s, ',');
    let d = first_at(s, ',');
    if d < s.len() {
        lemma_split_row_len(s.skip(d + 1));
    }
}

/// Splits a row into its fields.
pub fn split_fields(s: &str) -> (r: Vec<String>)
    ensures
        r.deep_view() == split_row(s@),
{
    let n = s.unicode_len();
    let mut out: Vec<String> = Vec::new();
    let mut start: usize = 0;
    proof {
        assert(out.deep_view() =~= Seq::<Seq<char>>::empty());
        assert(s@.skip(0) =~= s@);
        assert(out.deep_view() + split_row(s@) =~= split_row(s@));
    }
    loop
        invariant_except_break
            split_row(s@) =~= out.deep_view() + split_row(s@.skip(start as int)),
        invariant
            0 <= start <= n,
            n == s@.len(),
        ensures
            out.deep_view() == split_row(s@),
        decreases n + 1 - start,
    {
        let idx = find_char(s, start, ',');
        let field = s.substring_char(start, idx).to_owned();
        let ghost rest = s@.skip(start as int);
        proof {
            assert(forall|t: int| 0 <= t < rest.len() ==> rest[t] == s@[start + t]);
            lemma_first_at_is(rest, ',', idx - start);
            assert(rest.take(idx - start) =~= s@.subrange(start as int, idx as int));
        }
        let ghost prev = out.deep_view();
        out.push(field);
        proof {
            assert(out.deep_view() =~= prev.push(field@));
        }
        if idx == n {
            proof {
                assert(split_row(rest) == seq![rest]);
                assert(rest =~= s@.subrange(start as int, idx as int));
                assert(out.deep_view() =~= prev + split_row(rest));
            }
            break;
        }
        proof {
            assert(split_row(rest) == seq![rest.take(idx - start)] + split_row(
                rest.skip(idx - start + 1),
            ));
            assert(rest.skip(idx - start + 1) =~= s@.skip(idx + 1));
            assert(out.deep_view() + split_row(s@.skip(idx + 1)) =~= prev + split_row(rest));
        }
        start = idx + 1;
    }
    out
}

} // verus!
