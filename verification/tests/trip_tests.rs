use trip_index::rows::split_fields;
use trip_index::trip::output_header;
use trip_index::trip::parse_row;
use trip_index::trip::trip_row;
use trip_index::trip::trip_wf_check;

#[test]
fn split_fields_cuts_on_commas() {
    let f = split_fields("a,b,c");
    assert_eq!(f, vec!["a".to_string(), "b".to_string(), "c".to_string()]);
    assert_eq!(split_fields(""), vec!["".to_string()]);
    assert_eq!(split_fields("a,,b"), vec!["a".to_string(), "".to_string(), "b".to_string()]);
    assert_eq!(split_fields(","), vec!["".to_string(), "".to_string()]);
}

#[test]
fn parse_row_reads_eighteen_columns() {
    let line = "V1,2020-06-01 10:00,2020-06-01 10:30,2,3.75,1,N,132,138,card,12.00,0.50,0.50,2.00,6.12,0.30,21.42,77";
    let t = parse_row(line).expect("full row");
    assert_eq!(t.vendor_id, "V1");
    assert_eq!(t.tpep_pickup_datetime, "2020-06-01 10:00");
    assert_eq!(t.tpep_dropoff_datetime, "2020-06-01 10:30");
    assert_eq!(t.passenger_count, 2);
    assert_eq!(t.trip_distance, 375);
    assert_eq!(t.ratecode_id, "1");
    assert_eq!(t.store_and_fwd_flag, "N");
    assert_eq!(t.pu_location_id, "132");
    assert_eq!(t.do_location_id, "138");
    assert_eq!(t.payment_type, "card");
    assert_eq!(t.fare_amount, 1200);
    assert_eq!(t.extra, 50);
    assert_eq!(t.mta_tax, 50);
    assert_eq!(t.tip_amount, 200);
    assert_eq!(t.tolls_amount, 612);
    assert_eq!(t.improvement_surcharge, 30);
    assert_eq!(t.total_amount, 2142);
    assert_eq!(t.index, "77");
    assert!(trip_wf_check(&t));
}

#[test]
fn parse_row_skips_short_rows() {
    assert!(parse_row("a,b,c").is_none());
    let seventeen = "V,p,d,1,1.0,1,N,1,2,c,1,1,1,1,1,1,1";
    assert!(parse_row(seventeen).is_none());
}

#[test]
fn parse_row_accepts_extra_columns() {
    let nineteen = "V,p,d,1,1.0,1,N,1,2,c,1,1,1,1,1,1,7.5,9,junk";
    let t = parse_row(nineteen).expect("extra columns are ignored");
    assert_eq!(t.total_amount, 750);
    assert_eq!(t.index, "9");
}

#[test]
fn unparsable_numeric_fields_read_as_zero() {
    let line = "V,p,d,many,far,1,N,1,2,c,x,y,z,w,u,v,oops,9";
    let t = parse_row(line).expect("row still parses");
    assert_eq!(t.passenger_count, 0);
    assert_eq!(t.trip_distance, 0);
    assert_eq!(t.total_amount, 0);
}

#[test]
fn trip_row_writes_canonical_columns() {
    let line = "V1,2020-06-01 10:00,2020-06-01 10:30,2,3.75,1,N,132,138,card,12.00,0.50,0.50,2.00,6.12,0.30,21.42,77";
    let t = parse_row(line).expect("full row");
    assert_eq!(trip_row(&t), line);
    let loose = "V1,p,d,2,3.7,1,N,132,138,card,12,0.5,0.5,2,6.12,0.3,21.4,77";
    let u = parse_row(loose).expect("full row");
    assert_eq!(trip_row(&u), "V1,p,d,2,3.70,1,N,132,138,card,12.00,0.50,0.50,2.00,6.12,0.30,21.40,77");
}

#[test]
fn header_names_the_eighteen_columns() {
    let h = output_header();
    assert_eq!(h.split(',').count(), 18);
    assert!(h.starts_with("vendor_id,"));
    assert!(h.ends_with(",index"));
}
