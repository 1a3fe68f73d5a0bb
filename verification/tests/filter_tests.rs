use trip_index::filter::TripFilter;
use trip_index::trip::Trip;
use trip_index::trip::parse_row;

fn sample_trip(index: &str, total: &str, dest: &str) -> Trip {
    let line = format!("V,2020-06-01 10:00,2020-06-01 10:30,1,2.50,1,N,100,{dest},card,5.00,0.50,0.50,1.00,0.00,0.30,{total},{index}");
    parse_row(&line).expect("a full row parses")
}

#[test]
fn price_range_without_bounds_matches_every_record() {
    let f = TripFilter::Price { min: None, max: None };
    assert!(f.matches(&sample_trip("1", "0.00", "A")));
    assert!(f.matches(&sample_trip("2", "-5.00", "B")));
    assert!(f.matches(&sample_trip("3", "99999.99", "C")));
}

#[test]
fn price_range_bounds_are_inclusive() {
    let f = TripFilter::Price { min: Some(1000), max: Some(2000) };
    assert!(!f.matches(&sample_trip("1", "9.99", "A")));
    assert!(f.matches(&sample_trip("2", "10.00", "A")));
    assert!(f.matches(&sample_trip("3", "15.00", "A")));
    assert!(f.matches(&sample_trip("4", "20.00", "A")));
    assert!(!f.matches(&sample_trip("5", "20.01", "A")));
}

#[test]
fn index_filter_compares_the_key() {
    let f = TripFilter::Index("42".to_string());
    assert!(f.matches(&sample_trip("42", "10.00", "A")));
    assert!(!f.matches(&sample_trip("43", "10.00", "A")));
}

#[test]
fn destination_filter_compares_the_drop_off() {
    let f = TripFilter::Destination("A".to_string());
    assert!(f.matches(&sample_trip("1", "10.00", "A")));
    assert!(!f.matches(&sample_trip("1", "10.00", "B")));
}

#[test]
fn empty_and_matches_everything_empty_or_nothing() {
    let t = sample_trip("1", "10.00", "A");
    assert!(TripFilter::And(vec![]).matches(&t));
    assert!(!TripFilter::Or(vec![]).matches(&t));
}

#[test]
fn composite_filters_combine_children() {
    let t = sample_trip("7", "15.00", "A");
    let both = TripFilter::And(vec![
        TripFilter::Index("7".to_string()),
        TripFilter::Destination("A".to_string()),
    ]);
    assert!(both.matches(&t));
    let one_wrong = TripFilter::And(vec![
        TripFilter::Index("7".to_string()),
        TripFilter::Destination("B".to_string()),
    ]);
    assert!(!one_wrong.matches(&t));
    let either = TripFilter::Or(vec![
        TripFilter::Index("9".to_string()),
        TripFilter::Destination("A".to_string()),
    ]);
    assert!(either.matches(&t));
    let neither = TripFilter::Or(vec![
        TripFilter::Index("9".to_string()),
        TripFilter::Destination("B".to_string()),
    ]);
    assert!(!neither.matches(&t));
}

#[test]
fn cloned_filters_judge_records_alike() {
    let f = TripFilter::And(vec![
        TripFilter::Price { min: Some(1000), max: None },
        TripFilter::Or(vec![
            TripFilter::Destination("A".to_string()),
            TripFilter::Index("3".to_string()),
        ]),
    ]);
    let g = f.clone();
    for t in [
        sample_trip("1", "9.00", "A"),
        sample_trip("3", "11.00", "B"),
        sample_trip("4", "11.00", "B"),
    ] {
        assert_eq!(f.matches(&t), g.matches(&t));
    }
}
