//! The record model: one row of the dataset, with its text fields held as
//! strings and its numeric fields parsed once at ingestion.  A row has
//! eighteen columns; the unique key stands in the last one.

use vstd::prelude::*;
use vstd::string::StringExecFns;

use crate::amount::MAX_AMOUNT;
use crate::amount::MAX_COUNT;
use crate::amount::dec_str;
use crate::amount::format_amount;
use crate::amount::parse_amount;
use crate::amount::parse_count;
use crate::amount::push_dec;
use crate::amount::spec_format_amount;
use crate::amount::spec_parse_amount;
use crate::amount::spec_parse_count;
use crate::rows::split_fields;
use crate::rows::split_row;

verus! {

/// Number of columns in a data row.
pub const ROW_FIELDS: usize = 18;

/// Ghost image of one record: each text field as its character sequence and
/// each numeric field as its exact value in hundredths (counts as plain
/// values).
pub ghost struct TripView {
    pub vendor_id: Seq<char>,
    pub tpep_pickup_datetime: Seq<char>,
    pub tpep_dropoff_datetime: Seq<char>,
    pub passenger_count: int,
    pub trip_distance: int,
    pub ratecode_id: Seq<char>,
    pub store_and_fwd_flag: Seq<char>,
    pub pu_location_id: Seq<char>,
    pub do_location_id: Seq<char>,
    pub payment_type: Seq<char>,
    pub fare_amount: int,
    pub extra: int,
    pub mta_tax: int,
    pub tip_amount: int,
    pub tolls_amount: int,
    pub improvement_surcharge: int,
    pub total_amount: int,
    pub index: Seq<char>,
}

impl TripView {
    /// Every numeric field lies within the supported range.
    pub open spec fn wf(self) -> bool {
        &&& 0 <= self.passenger_count <= MAX_COUNT
        &&& -MAX_AMOUNT <= self.trip_distance <= MAX_AMOUNT
        &&& -MAX_AMOUNT <= self.fare_amount <= MAX_AMOUNT
        &&& -MAX_AMOUNT <= self.extra <= MAX_AMOUNT
        &&& -MAX_AMOUNT <= self.mta_tax <= MAX_AMOUNT
        &&& -MAX_AMOUNT <= self.tip_amount <= MAX_AMOUNT
        &&& -MAX_AMOUNT <= self.tolls_amount <= MAX_AMOUNT
        &&& -MAX_AMOUNT <= self.improvement_surcharge <= MAX_AMOUNT
        &&& -MAX_AMOUNT <= self.total_amount <= MAX_AMOUNT
    }
}

/// One record of the dataset.  Unparsable numeric fields read as zero, so a
/// record always carries one value per field.
#[derive(Debug, PartialEq)]
pub struct Trip {
    pub vendor_id: String,
    pub tpep_pickup_datetime: String,
    pub tpep_dropoff_datetime: String,
    pub passenger_count: u64,
    pub trip_distance: i64,
    pub ratecode_id: String,
    pub store_and_fwd_flag: String,
    pub pu_location_id: String,
    pub do_location_id: String,
    pub payment_type: String,
    pub fare_amount: i64,
    pub extra: i64,
    pub mta_tax: i64,
    pub tip_amount: i64,
    pub tolls_amount: i64,
    pub improvement_surcharge: i64,
    pub total_amount: i64,
    pub index: String,
}

impl View for Trip {
    type V = TripView;

    open spec fn view(&self) -> TripView {
        TripView {
            vendor_id: self.vendor_id@,
            tpep_pickup_datetime: self.tpep_pickup_datetime@,
            tpep_dropoff_datetime: self.tpep_dropoff_datetime@,
            passenger_count: self.passenger_count as int,
            trip_distance: self.trip_distance as int,
            ratecode_id: self.ratecode_id@,
            store_and_fwd_flag: self.store_and_fwd_flag@,
            pu_location_id: self.pu_location_id@,
            do_location_id: self.do_location_id@,
            payment_type: self.payment_type@,
            fare_amount: self.fare_amount as int,
            extra: self.extra as int,
            mta_tax: self.mta_tax as int,
            tip_amount: self.tip_amount as int,
            tolls_amount: self.tolls_amount as int,
            improvement_surcharge: self.improvement_surcharge as int,
            total_amount: self.total_amount as int,
            index: self.index@,
        }
    }
}

impl DeepView for Trip {
    type V = TripView;

    open spec fn deep_view(&self) -> TripView {
        self.view()
    }
}

impl Clone for Trip {
    fn clone(&self) -> (r: Self)
        ensures
            r == *self,
    {
        Trip {
            vendor_id: self.vendor_id.clone(),
            tpep_pickup_datetime: self.tpep_pickup_datetime.clone(),
            tpep_dropoff_datetime: self.tpep_dropoff_datetime.clone(),
            passenger_count: self.passenger_count,
            trip_distance: self.trip_distance,
            ratecode_id: self.ratecode_id.clone(),
            store_and_fwd_flag: self.store_and_fwd_flag.clone(),
            pu_location_id: self.pu_location_id.clone(),
            do_location_id: self.do_location_id.clone(),
            payment_type: self.payment_type.clone(),
            fare_amount: self.fare_amount,
            extra: self.extra,
            mta_tax: self.mta_tax,
            tip_amount: self.tip_amount,
            tolls_amount: self.tolls_amount,
            improvement_surcharge: self.improvement_surcharge,
            total_amount: self.total_amount,
            index: self.index.clone(),
        }
    }
}

/// The record read from the fields of one row, in canonical column order.
pub open spec fn trip_of_fields(fs: Seq<Seq<char>>) -> TripView
    recommends
        fs.len() >= ROW_FIELDS,
{
    TripView {
        vendor_id: fs[0],
        tpep_pickup_datetime: fs[1],
        tpep_dropoff_datetime: fs[2],
        passenger_count: spec_parse_count(fs[3]),
        trip_distance: spec_parse_amount(fs[4]),
        ratecode_id: fs[5],
        store_and_fwd_flag: fs[6],
        pu_location_id: fs[7],
        do_location_id: fs[8],
        payment_type: fs[9],
        fare_amount: spec_parse_amount(fs[10]),
        extra: spec_parse_amount(fs[11]),
        mta_tax: spec_parse_amount(fs[12]),
        tip_amount: spec_parse_amount(fs[13]),
        tolls_amount: spec_parse_amount(fs[14]),
        improvement_surcharge: spec_parse_amount(fs[15]),
        total_amount: spec_parse_amount(fs[16]),
        index: fs[17],
    }
}

/// What one line of input parses to: a record when it has enough fields,
/// and nothing when it is short and must be skipped.
pub open spec fn spec_parse_row(line: Seq<char>) -> Option<TripView> {
    let fs = split_row(line);
    if fs.len() >= ROW_FIELDS {
        Some(trip_of_fields(fs))
    } else {
        None
    }
}

impl Trip {
    pub open spec fn wf(self) -> bool {
        self@.wf()
    }

    /// Builds a record from the fields of one row.
    pub fn from_fields(fields: &Vec<String>) -> (t: Trip)
        requires
            fields@.len() >= ROW_FIELDS,
        ensures
            t@ == trip_of_fields(fields.deep_view()),
            t.wf(),
    {
        Trip {
            vendor_id: fields[0].clone(),
            tpep_pickup_datetime: fields[1].clone(),
            tpep_dropoff_datetime: fields[2].clone(),
            passenger_count: parse_count(fields[3].as_str()),
            trip_distance: parse_amount(fields[4].as_str()),
            ratecode_id: fields[5].clone(),
            store_and_fwd_flag: fields[6].clone(),
            pu_location_id: fields[7].clone(),
            do_location_id: fields[8].clone(),
            payment_type: fields[9].clone(),
            fare_amount: parse_amount(fields[10].as_str()),
            extra: parse_amount(fields[11].as_str()),
            mta_tax: parse_amount(fields[12].as_str()),
            tip_amount: parse_amount(fields[13].as_str()),
            tolls_amount: parse_amount(fields[14].as_str()),
            improvement_surcharge: parse_amount(fields[15].as_str()),
            total_amount: parse_amount(fields[16].as_str()),
            index: fields[17].clone(),
        }
    }
}

/// Tests at run time whether a record's numeric fields lie within the
/// supported range.  Records built by parsing always do; a caller that
/// fills the fields directly can check before handing the record on.
pub fn trip_wf_check(t: &Trip) -> (r: bool)
    ensures
        r == t.wf(),
{
    t.passenger_count <= MAX_COUNT && -MAX_AMOUNT <= t.trip_distance && t.trip_distance
        <= MAX_AMOUNT && -MAX_AMOUNT <= t.fare_amount && t.fare_amount <= MAX_AMOUNT && -MAX_AMOUNT
        <= t.extra && t.extra <= MAX_AMOUNT && -MAX_AMOUNT <= t.mta_tax && t.mta_tax <= MAX_AMOUNT
        && -MAX_AMOUNT <= t.tip_amount && t.tip_amount <= MAX_AMOUNT && -MAX_AMOUNT
        <= t.tolls_amount && t.tolls_amount <= MAX_AMOUNT && -MAX_AMOUNT <= t.improvement_surcharge
        && t.improvement_surcharge <= MAX_AMOUNT && -MAX_AMOUNT <= t.total_amount && t.total_amount
        <= MAX_AMOUNT
}

/// Parses one line of input into a record, or nothing for a short row.
pub fn parse_row(line: &str) -> (r: Option<Trip>)
    ensures
        r is Some <==> spec_parse_row(line@) is Some,
        r is Some ==> r->0@ == spec_parse_row(line@)->0 && r->0.wf(),
{
    let fields = split_fields(line);
    proof {
        assert(fields.deep_view().len() == fields@.len());
    }
    if fields.len() >= ROW_FIELDS {
        Some(Trip::from_fields(&fields))
    } else {
        None
    }
}

/// The canonical text of one record, fields joined by commas in column
/// order, numeric fields written canonically.
pub open spec fn spec_trip_row(t: TripView) -> Seq<char>
    recommends
        t.wf(),
{
    t.vendor_id + seq![','] + t.tpep_pickup_datetime + seq![','] + t.tpep_dropoff_datetime
        + seq![','] + dec_str(t.passenger_count as nat) + seq![','] + spec_format_amount(
        t.trip_distance,
    ) + seq![','] + t.ratecode_id + seq![','] + t.store_and_fwd_flag + seq![',']
        + t.pu_location_id + seq![','] + t.do_location_id + seq![','] + t.payment_type + seq![',']
        + spec_format_amount(t.fare_amount) + seq![','] + spec_format_amount(t.extra) + seq![',']
        + spec_format_amount(t.mta_tax) + seq![','] + spec_format_amount(t.tip_amount) + seq![',']
        + spec_format_amount(t.tolls_amount) + seq![','] + spec_format_amount(
        t.improvement_surcharge,
    ) + seq![','] + spec_format_amount(t.total_amount) + seq![','] + t.index
}

/// Writes one record as a row of output.
pub fn trip_row(t: &Trip) -> (r: String)
    requires
        t.wf(),
    ensures
        r@ == spec_trip_row(t@),
{
    let mut out = String::new();
    out.append(t.vendor_id.as_str());
    out.push(',');
    out.append(t.tpep_pickup_datetime.as_str());
    out.push(',');
    out.append(t.tpep_dropoff_datetime.as_str());
    out.push(',');
    push_dec(t.passenger_count, &mut out);
    out.push(',');
    let f_distance = format_amount(t.trip_distance);
    out.append(f_distance.as_str());
    out.push(',');
    out.append(t.ratecode_id.as_str());
    out.push(',');
    out.append(t.store_and_fwd_flag.as_str());
    out.push(',');
    out.append(t.pu_location_id.as_str());
    out.push(',');
    out.append(t.do_location_id.as_str());
    out.push(',');
    out.append(t.payment_type.as_str());
    out.push(',');
    let f_fare = format_amount(t.fare_amount);
    out.append(f_fare.as_str());
    out.push(',');
    let f_extra = format_amount(t.extra);
    out.append(f_extra.as_str());
    out.push(',');
    let f_tax = format_amount(t.mta_tax);
    out.append(f_tax.as_str());
    out.push(',');
    let f_tip = format_amount(t.tip_amount);
    out.append(f_tip.as_str());
    out.push(',');
    let f_tolls = format_amount(t.tolls_amount);
    out.append(f_tolls.as_str());
    out.push(',');
    let f_surcharge = format_amount(t.improvement_surcharge);
    out.append(f_surcharge.as_str());
    out.push(',');
    let f_total = format_amount(t.total_amount);
    out.append(f_total.as_str());
    out.push(',');
    out.append(t.index.as_str());
    proof {
        assert(out@ =~= spec_trip_row(t@));
    }
    out
}

/// The header line that precedes the rows of any output file.
pub open spec fn spec_header() -> Seq<char> {
    "vendor_id,tpep_pickup_datetime,tpep_dropoff_datetime,passenger_count,trip_distance,ratecode_id,store_and_fwd_flag,pu_location_id,do_location_id,payment_type,fare_amount,extra,mta_tax,tip_amount,tolls_amount,improvement_surcharge,total_amount,index"@
}

/// Returns the header line.
pub fn output_header() -> (r: String)
    ensures
        r@ == spec_header(),
{
    "vendor_id,tpep_pickup_datetime,tpep_dropoff_datetime,passenger_count,trip_distance,ratecode_id,store_and_fwd_flag,pu_location_id,do_location_id,payment_type,fare_amount,extra,mta_tax,tip_amount,tolls_amount,improvement_surcharge,total_amount,index".to_owned()
}

/// One persisted pair inside a bucket: the record under its key.
#[derive(Debug, PartialEq)]
pub struct TripEntry {
    pub key: String,
    pub trip: Trip,
}

/// Ghost image of one bucket entry.
pub ghost struct TripEntryView {
    pub key: Seq<char>,
    pub trip: TripView,
}

impl View for TripEntry {
    type V = TripEntryView;

    open spec fn view(&self) -> TripEntryView {
        TripEntryView { key: self.key@, trip: self.trip@ }
    }
}

impl DeepView for TripEntry {
    type V = TripEntryView;

    open spec fn deep_view(&self) -> TripEntryView {
        self.view()
    }
}

impl Clone for TripEntry {
    fn clone(&self) -> (r: Self)
        ensures
            r == *self,
    {
        TripEntry { key: self.key.clone(), trip: self.trip.clone() }
    }
}

} // verus!
