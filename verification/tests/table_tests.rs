use trip_index::table::DiskHashTable;
use trip_index::table::build_hash_table_from_csv;
use trip_index::table::calculate_hash;
use trip_index::table::get_bucket_index;
use trip_index::trip::Trip;
use trip_index::trip::parse_row;

fn sample_trip(index: &str, total: &str) -> Trip {
    let line = format!("V,p,d,1,1.00,1,N,10,A,card,1,0,0,0,0,0,{total},{index}");
    parse_row(&line).expect("full row")
}

#[test]
fn hash_is_deterministic_and_spreads() {
    assert_eq!(calculate_hash(""), 0xcbf2_9ce4_8422_2325);
    // the standard 64-bit FNV-1a value for a single `a`
    assert_eq!(calculate_hash("a"), 0xaf63_dc4c_8601_ec8c);
    assert_eq!(calculate_hash("key-17"), calculate_hash("key-17"));
    assert_ne!(calculate_hash("key-17"), calculate_hash("key-18"));
    for key in ["", "a", "key-17", "a longer key with spaces"] {
        assert!(get_bucket_index(key, 256) < 256);
        assert!(get_bucket_index(key, 7) < 7);
    }
}

#[test]
fn insert_then_get_returns_the_record() {
    let mut table = DiskHashTable::new(16);
    let t = sample_trip("42", "12.50");
    table.insert("42".to_string(), t.clone());
    let got = table.get("42").expect("key is present");
    assert_eq!(got, t);
    assert!(table.get("43").is_none());
}

#[test]
fn remove_then_get_reports_absence() {
    let mut table = DiskHashTable::new(16);
    let t = sample_trip("42", "12.50");
    table.insert("42".to_string(), t);
    assert!(table.remove("42"));
    assert!(table.get("42").is_none());
    assert!(!table.remove("42"));
}

#[test]
fn insert_with_existing_key_replaces_in_place() {
    let mut table = DiskHashTable::new(16);
    table.insert("7".to_string(), sample_trip("7", "10.00"));
    table.insert("7".to_string(), sample_trip("7", "99.00"));
    let got = table.get("7").expect("key is present");
    assert_eq!(got.total_amount, 9900);
}

#[test]
fn keys_in_different_buckets_do_not_disturb_each_other() {
    let mut table = DiskHashTable::new(4);
    for i in 0..40usize {
        let key = format!("{i}");
        table.insert(key, sample_trip(&format!("{i}"), "5.00"));
    }
    for i in 0..40usize {
        let key = format!("{i}");
        let got = table.get(&key).expect("every key is present");
        assert_eq!(got.index, key);
    }
    assert!(table.remove("13"));
    assert!(table.get("13").is_none());
    assert!(table.get("12").is_some());
    assert!(table.get("14").is_some());
}

#[test]
fn build_pass_inserts_every_record() {
    let trips: Vec<Trip> = (0..10)
        .map(|i| sample_trip(&format!("{i}"), "5.00"))
        .collect();
    let (table, count) = build_hash_table_from_csv(&trips, 8);
    assert_eq!(count, 10);
    for i in 0..10 {
        let key = format!("{i}");
        assert!(table.get(&key).is_some());
    }
}
