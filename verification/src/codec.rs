//! The bucket file format: a self-describing text image of one bucket's
//! entry list.  Every piece of text travels length first — digits, a
//! colon, then exactly that many characters — so keys and fields may hold
//! any characters at all; numeric fields travel as their canonical text.
//! The file starts with the entry count and a semicolon.  Decoding what
//! encoding wrote returns the original entries exactly.

use vstd::prelude::*;
use vstd::string::StringExecFns;

use crate::amount::all_digits;
use crate::amount::dec_str;
use crate::amount::digits_val;
use crate::amount::format_amount;
use crate::amount::lemma_dec_str;
use crate::amount::lemma_digits_val_mono;
use crate::amount::lemma_digits_val_nonneg;
use crate::amount::lemma_digits_val_step;
use crate::amount::lemma_format_parse_amount;
use crate::amount::lemma_format_parse_count;
use crate::amount::push_dec;
use crate::amount::spec_format_amount;
use crate::chars::first_at;
use crate::chars::lemma_first_at_is;
use crate::trip::ROW_FIELDS;
use crate::trip::Trip;
use crate::trip::TripEntry;
use crate::trip::TripEntryView;
use crate::trip::trip_of_fields;

verus! {

/// One piece of text, length first.
pub open spec fn enc_str(s: Seq<char>) -> Seq<char> {
    dec_str(s.len()) + seq![':'] + s
}

/// The nineteen field texts of one entry: the key, then the record's
/// fields in column order with numeric fields as canonical text.
pub open spec fn entry_fields(e: TripEntryView) -> Seq<Seq<char>> {
    seq![
        e.key,
        e.trip.vendor_id,
        e.trip.tpep_pickup_datetime,
        e.trip.tpep_dropoff_datetime,
        dec_str(e.trip.passenger_count as nat),
        spec_format_amount(e.trip.trip_distance),
        e.trip.ratecode_id,
        e.trip.store_and_fwd_flag,
        e.trip.pu_location_id,
        e.trip.do_location_id,
        e.trip.payment_type,
        spec_format_amount(e.trip.fare_amount),
        spec_format_amount(e.trip.extra),
        spec_format_amount(e.trip.mta_tax),
        spec_format_amount(e.trip.tip_amount),
        spec_format_amount(e.trip.tolls_amount),
        spec_format_amount(e.trip.improvement_surcharge),
        spec_format_amount(e.trip.total_amount),
        e.trip.index,
    ]
}

/// A list of pieces of text, each length first.
pub open spec fn enc_strs(fs: Seq<Seq<char>>) -> Seq<char>
    decreases fs.len(),
{
    if fs.len() == 0 {
        Seq::empty()
    } else {
        enc_str(fs[0]) + enc_strs(fs.drop_first())
    }
}

/// One encoded entry.
pub open spec fn enc_entry(e: TripEntryView) -> Seq<char> {
    enc_strs(entry_fields(e))
}

/// A list of encoded entries.
pub open spec fn enc_entries(es: Seq<TripEntryView>) -> Seq<char>
    decreases es.len(),
{
    if es.len() == 0 {
        Seq::empty()
    } else {
        enc_entry(es[0]) + enc_entries(es.drop_first())
    }
}

/// A whole bucket: the entry count, a semicolon, the entries.
pub open spec fn enc_bucket(es: Seq<TripEntryView>) -> Seq<char> {
    dec_str(es.len()) + seq![';'] + enc_entries(es)
}

pub proof fn lemma_enc_strs_snoc(fs: Seq<Seq<char>>, f: Seq<char>)
    ensures
        enc_strs(fs.push(f)) == enc_strs(fs) + enc_str(f),
    decreases fs.len(),
{
    if fs.len() == 0 {
        assert(fs.push(f)[0] == f);
        assert(fs.push(f).drop_first() =~= Seq::<Seq<char>>::empty());
        assert(enc_strs(fs.push(f)) == enc_str(f) + enc_strs(Seq::<Seq<char>>::empty()));
        assert(enc_strs(Seq::<Seq<char>>::empty()) == Seq::<char>::empty());
        assert(enc_str(f) + Seq::<char>::empty() =~= enc_str(f));
        assert(enc_strs(fs) == Seq::<char>::empty());
        assert(Seq::<char>::empty() + enc_str(f) =~= enc_str(f));
    } else {
        assert(fs.push(f).drop_first() =~= fs.drop_first().push(f));
        lemma_enc_strs_snoc(fs.drop_first(), f);
        assert(fs.push(f)[0] == fs[0]);
        assert(enc_strs(fs.push(f)) == enc_str(fs[0]) + (enc_strs(fs.drop_first()) + enc_str(f)));
        vstd::seq_lib::lemma_concat_associative(
            enc_str(fs[0]),
            enc_strs(fs.drop_first()),
            enc_str(f),
        );
        assert(enc_strs(fs) == enc_str(fs[0]) + enc_strs(fs.drop_first()));
    }
}

pub proof fn lemma_enc_entries_snoc(es: Seq<TripEntryView>, e: TripEntryView)
    ensures
        enc_entries(es.push(e)) == enc_entries(es) + enc_entry(e),
    decreases es.len(),
{
    if es.len() == 0 {
        assert(es.push(e)[0] == e);
        assert(es.push(e).drop_first() =~= Seq::<TripEntryView>::empty());
        assert(enc_entries(es.push(e)) == enc_entry(e) + enc_entries(Seq::<TripEntryView>::empty()));
        assert(enc_entries(Seq::<TripEntryView>::empty()) == Seq::<char>::empty());
        assert(enc_entry(e) + Seq::<char>::empty() =~= enc_entry(e));
        assert(enc_entries(es) == Seq::<char>::empty());
        assert(Seq::<char>::empty() + enc_entry(e) =~= enc_entry(e));
    } else {
        assert(es.push(e).drop_first() =~= es.drop_first().push(e));
        lemma_enc_entries_snoc(es.drop_first(), e);
        assert(es.push(e)[0] == es[0]);
        assert(enc_entries(es.push(e)) == enc_entry(es[0]) + (enc_entries(es.drop_first())
            + enc_entry(e)));
        vstd::seq_lib::lemma_concat_associative(
            enc_entry(es[0]),
            enc_entries(es.drop_first()),
            enc_entry(e),
        );
        assert(enc_entries(es) == enc_entry(es[0]) + enc_entries(es.drop_first()));
    }
}

/// Appends one piece of text, length first.
fn append_field(out: &mut String, s: &str)
    ensures
        final(out)@ == old(out)@ + enc_str(s@),
{
    let n = s.unicode_len();
    push_dec(n as u64, out);
    out.push(':');
    out.append(s);
    proof {
        assert(final(out)@ =~= old(out)@ + enc_str(s@));
    }
}

/// Appends a list of pieces of text, each length first.
fn append_fields(out: &mut String, fields: &Vec<String>)
    ensures
        final(out)@ == old(out)@ + enc_strs(fields.deep_view()),
{
    let ghost fsv = fields.deep_view();
    proof {
        assert(fsv.take(0) =~= Seq::<Seq<char>>::empty());
        assert(old(out)@ + enc_strs(fsv.take(0)) =~= old(out)@);
    }
    let n = fields.len();
    let mut i: usize = 0;
    while i < n
        invariant
            0 <= i <= n,
            n == fields@.len(),
            fsv == fields.deep_view(),
            out@ == old(out)@ + enc_strs(fsv.take(i as int)),
        decreases n - i,
    {
        proof {
            assert(fsv[i as int] == fields@[i as int]@);
        }
        append_field(out, fields[i].as_str());
        proof {
            lemma_enc_strs_snoc(fsv.take(i as int), fsv[i as int]);
            assert(fsv.take(i as int).push(fsv[i as int]) =~= fsv.take(i as int + 1));
            vstd::seq_lib::lemma_concat_associative(
                old(out)@,
                enc_strs(fsv.take(i as int)),
                enc_str(fsv[i as int]),
            );
        }
        i = i + 1;
    }
    proof {
        assert(fsv.take(n as int) =~= fsv);
    }
}

/// Appends one encoded entry.
fn append_entry(out: &mut String, e: &TripEntry)
    requires
        e.trip.wf(),
    ensures
        final(out)@ == old(out)@ + enc_entry(e@),
{
    let mut fields: Vec<String> = Vec::new();
    fields.push(e.key.clone());
    fields.push(e.trip.vendor_id.clone());
    fields.push(e.trip.tpep_pickup_datetime.clone());
    fields.push(e.trip.tpep_dropoff_datetime.clone());
    fields.push(crate::amount::format_count(e.trip.passenger_count));
    fields.push(format_amount(e.trip.trip_distance));
    fields.push(e.trip.ratecode_id.clone());
    fields.push(e.trip.store_and_fwd_flag.clone());
    fields.push(e.trip.pu_location_id.clone());
    fields.push(e.trip.do_location_id.clone());
    fields.push(e.trip.payment_type.clone());
    fields.push(format_amount(e.trip.fare_amount));
    fields.push(format_amount(e.trip.extra));
    fields.push(format_amount(e.trip.mta_tax));
    fields.push(format_amount(e.trip.tip_amount));
    fields.push(format_amount(e.trip.tolls_amount));
    fields.push(format_amount(e.trip.improvement_surcharge));
    fields.push(format_amount(e.trip.total_amount));
    fields.push(e.trip.index.clone());
    proof {
        assert(fields.deep_view() =~= entry_fields(e@));
    }
    append_fields(out, &fields);
}

/// Writes a bucket's entry list as one piece of text.
pub fn encode_bucket(entries: &Vec<TripEntry>) -> (r: String)
    requires
        forall|i: int| 0 <= i < entries@.len() ==> (#[trigger] entries@[i]).trip.wf(),
    ensures
        r@ == enc_bucket(entries.deep_view()),
{
    let ghost es = entries.deep_view();
    let mut out = String::new();
    let n = entries.len();
    push_dec(n as u64, &mut out);
    out.push(';');
    proof {
        assert(es.take(0) =~= Seq::<TripEntryView>::empty());
        assert(out@ =~= dec_str(es.len()) + seq![';'] + enc_entries(es.take(0)));
    }
    let mut i: usize = 0;
    while i < n
        invariant
            0 <= i <= n,
            n == entries@.len(),
            es == entries.deep_view(),
            forall|j: int| 0 <= j < entries@.len() ==> (#[trigger] entries@[j]).trip.wf(),
            out@ == dec_str(es.len()) + seq![';'] + enc_entries(es.take(i as int)),
        decreases n - i,
    {
        proof {
            assert(es[i as int] == entries@[i as int]@);
            assert(entries@[i as int].trip.wf());
            assert(es[i as int].trip == entries@[i as int].trip@);
        }
        append_entry(&mut out, &entries[i]);
        proof {
            lemma_enc_entries_snoc(es.take(i as int), es[i as int]);
            assert(es.take(i as int).push(es[i as int]) =~= es.take(i as int + 1));
            assert(out@ =~= dec_str(es.len()) + seq![';'] + enc_entries(es.take(i as int + 1)));
        }
        i = i + 1;
    }
    proof {
        assert(es.take(n as int) =~= es);
    }
    out
}

/// What one length-first piece of text decodes to: the text and what
/// follows it, or nothing when the input is not of that shape.
pub open spec fn dec_field(s: Seq<char>) -> Option<(Seq<char>, Seq<char>)> {
    let p = first_at(s, ':');
    if p == s.len() {
        Option::None
    } else {
        let digits = s.take(p);
        if digits.len() == 0 || !all_digits(digits) {
            Option::None
        } else {
            let n = digits_val(digits);
            let rest = s.skip(p + 1);
            if rest.len() < n {
                Option::None
            } else {
                Option::Some((rest.take(n), rest.skip(n)))
            }
        }
    }
}

/// What `n` consecutive pieces of text decode to.
pub open spec fn dec_fields(s: Seq<char>, n: nat) -> Option<(Seq<Seq<char>>, Seq<char>)>
    decreases n,
{
    if n == 0 {
        Option::Some((Seq::empty(), s))
    } else {
        match dec_field(s) {
            Option::None => Option::None,
            Option::Some(fr) => match dec_fields(fr.1, (n - 1) as nat) {
                Option::None => Option::None,
                Option::Some(gr) => Option::Some((seq![fr.0] + gr.0, gr.1)),
            },
        }
    }
}

/// What one encoded entry decodes to: the key, then the record rebuilt
/// from its eighteen field texts.
pub open spec fn dec_entry(s: Seq<char>) -> Option<(TripEntryView, Seq<char>)> {
    match dec_fields(s, (ROW_FIELDS + 1) as nat) {
        Option::None => Option::None,
        Option::Some(fr) => Option::Some(
            (TripEntryView { key: fr.0[0], trip: trip_of_fields(fr.0.drop_first()) }, fr.1),
        ),
    }
}

/// What `n` consecutive encoded entries decode to; trailing text is
/// refused.
pub open spec fn dec_entries(s: Seq<char>, n: nat) -> Option<Seq<TripEntryView>>
    decreases n,
{
    if n == 0 {
        if s.len() == 0 {
            Option::Some(Seq::empty())
        } else {
            Option::None
        }
    } else {
        match dec_entry(s) {
            Option::None => Option::None,
            Option::Some(er) => match dec_entries(er.1, (n - 1) as nat) {
                Option::None => Option::None,
                Option::Some(es) => Option::Some(seq![er.0] + es),
            },
        }
    }
}

/// What a whole bucket image decodes to.
pub open spec fn dec_bucket(s: Seq<char>) -> Option<Seq<TripEntryView>> {
    let p = first_at(s, ';');
    if p == s.len() {
        Option::None
    } else {
        let digits = s.take(p);
        if digits.len() == 0 || !all_digits(digits) {
            Option::None
        } else {
            dec_entries(s.skip(p + 1), digits_val(digits) as nat)
        }
    }
}

/// Decoding one encoded piece of text returns the text and what follows.
pub proof fn lemma_dec_field_round(x: Seq<char>, rest: Seq<char>)
    ensures
        dec_field(enc_str(x) + rest) == Option::Some((x, rest)),
{
    let s = enc_str(x) + rest;
    let ds = dec_str(x.len());
    lemma_dec_str(x.len());
    let p = ds.len() as int;
    assert(s[p] == ':');
    assert(forall|j: int| 0 <= j < p ==> s[j] == ds[j]);
    assert forall|j: int| 0 <= j < p implies s[j] != ':' by {
        assert(crate::amount::is_digit(ds[j]));
    }
    lemma_first_at_is(s, ':', p);
    assert(s.take(p) =~= ds);
    let r2 = s.skip(p + 1);
    assert(r2 =~= x + rest);
    assert(r2.take(x.len() as int) =~= x);
    assert(r2.skip(x.len() as int) =~= rest);
}

/// Decoding one more encoded piece of text prepends it.
pub proof fn lemma_dec_fields_cons(x: Seq<char>, s: Seq<char>, n: nat)
    ensures
        dec_fields(enc_str(x) + s, n + 1) == (match dec_fields(s, n) {
            Option::None => Option::None,
            Option::Some(gr) => Option::Some((seq![x] + gr.0, gr.1)),
        }),
{
    lemma_dec_field_round(x, s);
}

/// Decoding a list of encoded pieces of text returns the list and what
/// follows.
pub proof fn lemma_dec_strs_round(fs: Seq<Seq<char>>, rest: Seq<char>)
    ensures
        dec_fields(enc_strs(fs) + rest, fs.len()) == Option::Some((fs, rest)),
    decreases fs.len(),
{
    if fs.len() == 0 {
        assert(enc_strs(fs) + rest =~= rest);
    } else {
        lemma_dec_strs_round(fs.drop_first(), rest);
        vstd::seq_lib::lemma_concat_associative(
            enc_str(fs[0]),
            enc_strs(fs.drop_first()),
            rest,
        );
        lemma_dec_fields_cons(fs[0], enc_strs(fs.drop_first()) + rest, (fs.len() - 1) as nat);
        assert(seq![fs[0]] + fs.drop_first() =~= fs);
    }
}

/// Decoding one encoded entry returns the entry and what follows.
pub proof fn lemma_dec_entry_round(e: TripEntryView, rest: Seq<char>)
    requires
        e.trip.wf(),
    ensures
        dec_entry(enc_entry(e) + rest) == Option::Some((e, rest)),
{
    let fs = entry_fields(e);
    lemma_dec_strs_round(fs, rest);
    assert(dec_fields(enc_entry(e) + rest, (ROW_FIELDS + 1) as nat) == Option::Some((fs, rest)));
    let tf = fs.drop_first();
    lemma_format_parse_count(e.trip.passenger_count as nat);
    lemma_format_parse_amount(e.trip.trip_distance);
    lemma_format_parse_amount(e.trip.fare_amount);
    lemma_format_parse_amount(e.trip.extra);
    lemma_format_parse_amount(e.trip.mta_tax);
    lemma_format_parse_amount(e.trip.tip_amount);
    lemma_format_parse_amount(e.trip.tolls_amount);
    lemma_format_parse_amount(e.trip.improvement_surcharge);
    lemma_format_parse_amount(e.trip.total_amount);
    assert(trip_of_fields(tf) == e.trip);
}

/// Decoding a list of encoded entries returns the entries.
pub proof fn lemma_dec_entries_round(es: Seq<TripEntryView>)
    requires
        forall|i: int| 0 <= i < es.len() ==> (#[trigger] es[i]).trip.wf(),
    ensures
        dec_entries(enc_entries(es), es.len()) == Option::Some(es),
    decreases es.len(),
{
    if es.len() > 0 {
        lemma_dec_entry_round(es[0], enc_entries(es.drop_first()));
        assert(forall|i: int|
            0 <= i < es.drop_first().len() ==> es.drop_first()[i] == es[i + 1]);
        lemma_dec_entries_round(es.drop_first());
        assert(seq![es[0]] + es.drop_first() =~= es);
    }
}

/// Round trip through the bucket file format: decoding what encoding
/// wrote returns the original entries exactly.
pub proof fn lemma_codec_round_trip(es: Seq<TripEntryView>)
    requires
        forall|i: int| 0 <= i < es.len() ==> (#[trigger] es[i]).trip.wf(),
    ensures
        dec_bucket(enc_bucket(es)) == Option::Some(es),
{
    let s = enc_bucket(es);
    let ds = dec_str(es.len());
    lemma_dec_str(es.len());
    let p = ds.len() as int;
    assert(s[p] == ';');
    assert(forall|j: int| 0 <= j < p ==> s[j] == ds[j]);
    assert forall|j: int| 0 <= j < p implies s[j] != ';' by {
        assert(crate::amount::is_digit(ds[j]));
    }
    lemma_first_at_is(s, ';', p);
    assert(s.take(p) =~= ds);
    assert(s.skip(p + 1) =~= enc_entries(es));
    lemma_dec_entries_round(es);
}

/// Reads the digits standing between `from` and `to`, refusing an empty
/// or malformed run and any value above `cap`.
fn parse_digits_capped(s: &str, from: usize, to: usize, cap: u64) -> (r: Option<u64>)
    requires
        from <= to <= s@.len(),
    ensures
        ({
            let digits = s@.subrange(from as int, to as int);
            match r {
                Option::Some(v) => digits.len() >= 1 && all_digits(digits) && v == digits_val(
                    digits,
                ) && v <= cap,
                Option::None => digits.len() == 0 || !all_digits(digits) || digits_val(digits)
                    > cap,
            }
        }),
{
    let ghost digits = s@.subrange(from as int, to as int);
    if from == to {
        return None;
    }
    let mut acc: u64 = 0;
    let mut i: usize = from;
    while i < to
        invariant
            from <= i <= to <= s@.len(),
            digits == s@.subrange(from as int, to as int),
            all_digits(digits.take(i - from)),
            acc == digits_val(digits.take(i - from)),
            acc <= cap,
        decreases to - i,
    {
        let c = s.get_char(i);
        let u = c as u32;
        if u < 48 || u > 57 {
            proof {
                assert(digits[i - from] == s@[i as int]);
                assert(!crate::amount::is_digit(digits[i - from]));
            }
            return None;
        }
        let d = (u - 48) as u64;
        let next128 = (acc as u128) * 10 + (d as u128);
        proof {
            lemma_digits_val_step(digits, i - from);
            assert(digits.take(i - from + 1).drop_last() =~= digits.take(i - from));
        }
        if next128 > (cap as u128) {
            proof {
                if all_digits(digits) {
                    lemma_digits_val_mono(digits, i - from + 1);
                    lemma_digits_val_nonneg(digits.take(i - from + 1));
                }
            }
            return None;
        }
        acc = next128 as u64;
        i = i + 1;
    }
    proof {
        assert(digits.take(to - from) =~= digits);
    }
    Some(acc)
}

/// Reads one length-first piece of text starting at `pos`, returning it
/// with the position just past it.
pub fn read_field(s: &str, pos: usize) -> (r: Option<(String, usize)>)
    requires
        pos as int <= s@.len(),
    ensures
        ({
            let tail = s@.skip(pos as int);
            match r {
                Option::None => dec_field(tail) is None,
                Option::Some(fp) => dec_field(tail) == Option::Some((fp.0@, s@.skip(fp.1 as int)))
                    && pos < fp.1 <= s@.len(),
            }
        }),
{
    let ghost tail = s@.skip(pos as int);
    proof {
        assert(forall|t: int| 0 <= t < tail.len() ==> tail[t] == s@[pos + t]);
    }
    let n = s.unicode_len();
    let colon = crate::chars::find_char(s, pos, ':');
    proof {
        lemma_first_at_is(tail, ':', colon - pos);
    }
    if colon == n {
        return None;
    }
    proof {
        assert(tail.take(colon - pos) =~= s@.subrange(pos as int, colon as int));
    }
    let rest_len = n - colon - 1;
    let len_v = match parse_digits_capped(s, pos, colon, rest_len as u64) {
        Option::Some(v) => v,
        Option::None => {
            proof {
                let digits = tail.take(colon - pos);
                if digits.len() >= 1 && all_digits(digits) {
                    assert(tail.skip(colon - pos + 1).len() == rest_len);
                }
            }
            return None;
        },
    };
    let len = len_v as usize;
    let start = colon + 1;
    let field = s.substring_char(start, start + len).to_owned();
    proof {
        let digits = tail.take(colon - pos);
        let rest = tail.skip(colon - pos + 1);
        assert(rest =~= s@.skip(start as int));
        assert(rest.len() == rest_len);
        assert(rest.take(len_v as int) =~= s@.subrange(start as int, start as int + len_v));
        assert(rest.skip(len_v as int) =~= s@.skip(start as int + len_v));
    }
    Some((field, start + len))
}

/// Reads one encoded entry starting at `pos`, returning it with the
/// position just past it.
pub fn read_entry(s: &str, pos: usize) -> (r: Option<(TripEntry, usize)>)
    requires
        pos as int <= s@.len(),
    ensures
        ({
            let tail = s@.skip(pos as int);
            match r {
                Option::None => dec_entry(tail) is None,
                Option::Some(ep) => dec_entry(tail) == Option::Some((ep.0@, s@.skip(ep.1 as int)))
                    && pos < ep.1 <= s@.len() && ep.0.trip.wf(),
            }
        }),
{
    let ghost tail = s@.skip(pos as int);
    let key = match read_field(s, pos) {
        Option::Some(kp) => kp,
        Option::None => {
            return None;
        },
    };
    let p1 = key.1;
    let ghost tail1 = s@.skip(p1 as int);
    let mut fields: Vec<String> = Vec::new();
    let mut p = p1;
    let mut k: usize = 0;
    proof {
        assert(fields.deep_view() =~= Seq::<Seq<char>>::empty());
        assert(Seq::<Seq<char>>::empty() + Seq::<Seq<char>>::empty() =~= Seq::<Seq<char>>::empty());
    }
    while k < ROW_FIELDS
        invariant
            0 <= k <= ROW_FIELDS,
            p1 <= p,
            p as int <= s@.len(),
            fields.deep_view().len() == k,
            tail == s@.skip(pos as int),
            tail1 == s@.skip(p1 as int),
            dec_field(tail) == Option::Some((key.0@, tail1)),
            ({
                let full = dec_fields(tail1, ROW_FIELDS as nat);
                let part = dec_fields(s@.skip(p as int), (ROW_FIELDS - k) as nat);
                match part {
                    Option::None => full is None,
                    Option::Some(gr) => full == Option::Some((fields.deep_view() + gr.0, gr.1)),
                }
            }),
        decreases ROW_FIELDS - k,
    {
        let f = match read_field(s, p) {
            Option::Some(fp) => fp,
            Option::None => {
                proof {
                    assert(dec_fields(s@.skip(p as int), (ROW_FIELDS - k) as nat) is None);
                    assert(dec_fields(tail1, ROW_FIELDS as nat) is None);
                    assert(dec_fields(tail, (ROW_FIELDS + 1) as nat) is None);
                }
                return None;
            },
        };
        let ghost prevfields = fields.deep_view();
        fields.push(f.0);
        proof {
            assert(fields.deep_view() =~= prevfields.push(f.0@));
            let gr2 = dec_fields(s@.skip(f.1 as int), (ROW_FIELDS - k - 1) as nat);
            if gr2 is Some {
                let gr2v = gr2->0;
                assert(prevfields + (seq![f.0@] + gr2v.0) =~= fields.deep_view() + gr2v.0);
            }
        }
        p = f.1;
        k = k + 1;
    }
    proof {
        assert(dec_fields(s@.skip(p as int), 0) == Option::Some(
            (Seq::<Seq<char>>::empty(), s@.skip(p as int)),
        ));
        assert(fields.deep_view() + Seq::<Seq<char>>::empty() =~= fields.deep_view());
        assert(dec_fields(tail1, ROW_FIELDS as nat) == Option::Some(
            (fields.deep_view(), s@.skip(p as int)),
        ));
    }
    let trip = Trip::from_fields(&fields);
    proof {
        let fr = dec_fields(tail, (ROW_FIELDS + 1) as nat)->0;
        assert(fr.0 == seq![key.0@] + fields.deep_view());
        assert(fr.0.drop_first() =~= fields.deep_view());
        assert(fr.0[0] == key.0@);
    }
    Some((TripEntry { key: key.0, trip }, p))
}

/// Decodes a whole bucket image back into its entry list.
pub fn decode_bucket(s: &str) -> (r: Option<Vec<TripEntry>>)
    ensures
        ({
            match r {
                Option::None => dec_bucket(s@) is None,
                Option::Some(v) => dec_bucket(s@) == Option::Some(v.deep_view()) && forall|i: int|
                    0 <= i < v@.len() ==> (#[trigger] v@[i]).trip.wf(),
            }
        }),
{
    let n = s.unicode_len();
    let semi = crate::chars::find_char(s, 0, ';');
    proof {
        assert(s@.skip(0) =~= s@);
        lemma_first_at_is(s@, ';', semi as int);
    }
    if semi == n {
        return None;
    }
    proof {
        assert(s@.take(semi as int) =~= s@.subrange(0, semi as int));
    }
    let count = match parse_digits_capped(s, 0, semi, n as u64) {
        Option::Some(v) => v,
        Option::None => {
            proof {
                let digits = s@.take(semi as int);
                if digits.len() >= 1 && all_digits(digits) {
                    // the count exceeds the character count, so decoding
                    // must run out of entries
                    lemma_dec_entries_bound(
                        s@.skip(semi as int + 1),
                        digits_val(digits) as nat,
                    );
                }
            }
            return None;
        },
    };
    let ghost body = s@.skip(semi as int + 1);
    let cnt = count as usize;
    let mut out: Vec<TripEntry> = Vec::new();
    let mut p = semi + 1;
    let mut k: usize = 0;
    proof {
        assert(out.deep_view() =~= Seq::<TripEntryView>::empty());
        assert(Seq::<TripEntryView>::empty() + Seq::<TripEntryView>::empty() =~= Seq::<
            TripEntryView,
        >::empty());
    }
    while k < cnt
        invariant
            0 <= k <= cnt,
            p as int <= s@.len(),
            out.deep_view().len() == k,
            body == s@.skip(semi as int + 1),
            dec_bucket(s@) == dec_entries(body, cnt as nat),
            forall|i: int| 0 <= i < out@.len() ==> (#[trigger] out@[i]).trip.wf(),
            ({
                let full = dec_entries(body, cnt as nat);
                let part = dec_entries(s@.skip(p as int), (cnt - k) as nat);
                match part {
                    Option::None => full is None,
                    Option::Some(es2) => full == Option::Some(out.deep_view() + es2),
                }
            }),
        decreases cnt - k,
    {
        let e = match read_entry(s, p) {
            Option::Some(ep) => ep,
            Option::None => {
                proof {
                    assert(dec_entries(s@.skip(p as int), (cnt - k) as nat) is None);
                    assert(dec_entries(body, cnt as nat) is None);
                }
                return None;
            },
        };
        let ghost prevout = out.deep_view();
        out.push(e.0);
        proof {
            assert(out.deep_view() =~= prevout.push(e.0@));
            let es2 = dec_entries(s@.skip(e.1 as int), (cnt - k - 1) as nat);
            if es2 is Some {
                assert(prevout + (seq![e.0@] + es2->0) =~= out.deep_view() + es2->0);
            }
        }
        p = e.1;
        k = k + 1;
    }
    if p != n {
        proof {
            assert(s@.skip(p as int).len() != 0);
            assert(dec_entries(s@.skip(p as int), 0) is None);
        }
        return None;
    }
    proof {
        assert(s@.skip(p as int).len() == 0);
        assert(dec_entries(s@.skip(p as int), 0) == Option::Some(Seq::<TripEntryView>::empty()));
        assert(out.deep_view() + Seq::<TripEntryView>::empty() =~= out.deep_view());
    }
    Some(out)
}

/// A decoded field leaves a strictly shorter remainder.
pub proof fn lemma_dec_field_shrinks(s: Seq<char>)
    ensures
        dec_field(s) matches Option::Some(fr) ==> fr.1.len() < s.len(),
{
    if dec_field(s) is Some {
        let p = first_at(s, ':');
        crate::chars::lemma_first_at_bounds(s, ':');
        let digits = s.take(p);
        lemma_digits_val_nonneg(digits);
    }
}

/// A decoded entry leaves a strictly shorter remainder.
pub proof fn lemma_dec_fields_shrink(s: Seq<char>, n: nat)
    ensures
        dec_fields(s, n) matches Option::Some(gr) ==> gr.1.len() + n <= s.len(),
    decreases n,
{
    if n > 0 {
        lemma_dec_field_shrinks(s);
        if dec_field(s) is Some {
            let fr = dec_field(s)->0;
            lemma_dec_fields_shrink(fr.1, (n - 1) as nat);
        }
    }
}

/// Decoding can only find as many entries as there are characters.
pub proof fn lemma_dec_entries_bound(s: Seq<char>, n: nat)
    ensures
        dec_entries(s, n) is Some ==> n <= s.len(),
    decreases n,
{
    if n > 0 {
        lemma_dec_fields_shrink(s, (ROW_FIELDS + 1) as nat);
        if dec_entry(s) is Some {
            let er = dec_entry(s)->0;
            lemma_dec_entries_bound(er.1, (n - 1) as nat);
        }
    }
}

} // verus!
