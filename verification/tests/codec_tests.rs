use trip_index::codec::decode_bucket;
use trip_index::codec::encode_bucket;
use trip_index::trip::TripEntry;
use trip_index::trip::parse_row;

fn entry(index: &str, dest: &str, total: &str) -> TripEntry {
    let line = format!("V,p,d,1,1.00,1,N,10,{dest},card,1,0,0,0,0,0,{total},{index}");
    let trip = parse_row(&line).expect("full row");
    TripEntry { key: index.to_string(), trip }
}

#[test]
fn empty_bucket_encodes_to_count_zero() {
    let entries: Vec<TripEntry> = vec![];
    let text = encode_bucket(&entries);
    assert_eq!(text, "0;");
    let back = decode_bucket(&text).expect("decodes");
    assert!(back.is_empty());
}

#[test]
fn encode_then_decode_returns_the_entries() {
    let entries = vec![
        entry("1", "A", "10.00"),
        entry("2", "B", "20.50"),
        entry("3", "C", "-3.25"),
    ];
    let text = encode_bucket(&entries);
    let back = decode_bucket(&text).expect("decodes");
    assert_eq!(back, entries);
}

#[test]
fn awkward_characters_survive_the_round_trip() {
    let mut e = entry("k:1;x", "A,B", "5.00");
    e.trip.vendor_id = "quoted \"v\",with:everything;".to_string();
    e.trip.payment_type = "".to_string();
    let entries = vec![e];
    let text = encode_bucket(&entries);
    let back = decode_bucket(&text).expect("decodes");
    assert_eq!(back, entries);
}

#[test]
fn malformed_images_are_refused() {
    assert!(decode_bucket("").is_none());
    assert!(decode_bucket(";").is_none());
    assert!(decode_bucket("2;").is_none());
    assert!(decode_bucket("x;").is_none());
    assert!(decode_bucket("1;5:ab").is_none());
    let one = encode_bucket(&vec![entry("1", "A", "10.00")]);
    // trailing junk after the encoded entries is refused
    let mut with_junk = one.clone();
    with_junk.push('!');
    assert!(decode_bucket(&with_junk).is_none());
    assert!(decode_bucket(&one).is_some());
}
