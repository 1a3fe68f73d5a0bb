use trip_index::filter::TripFilter;
use trip_index::scan::FilterRun;
use trip_index::scan::filter_to_lines;
use trip_index::scan::get_filter_stats;
use trip_index::trip::Trip;
use trip_index::trip::output_header;
use trip_index::trip::parse_row;
use trip_index::trip::trip_row;

fn dataset() -> Vec<Trip> {
    // the three-record example: totals 10, 20, 30; destinations A, A, B
    let lines = [
        "V,p1,d1,1,1.00,1,N,10,A,card,10.00,0.00,0.00,0.00,0.00,0.00,10.0,1",
        "V,p2,d2,2,2.00,1,N,10,A,card,20.00,0.00,0.00,0.00,0.00,0.00,20.0,2",
        "V,p3,d3,3,3.00,1,N,10,B,card,30.00,0.00,0.00,0.00,0.00,0.00,30.0,3",
    ];
    lines.iter().map(|l| parse_row(l).expect("full row")).collect()
}

#[test]
fn filter_to_lines_writes_matching_rows_in_order() {
    let trips = dataset();
    let f = TripFilter::Price { min: Some(1500), max: None };
    let (lines, count) = filter_to_lines(&trips, f, None);
    assert_eq!(count, 2);
    assert_eq!(lines.len(), 3);
    assert_eq!(lines[0], output_header());
    assert_eq!(lines[1], trip_row(&trips[1]));
    assert_eq!(lines[2], trip_row(&trips[2]));
    assert!(lines[1].ends_with(",2"));
    assert!(lines[2].ends_with(",3"));
}

#[test]
fn filter_to_lines_unfiltered_keeps_every_row_once() {
    let trips = dataset();
    let f = TripFilter::Price { min: None, max: None };
    let (lines, count) = filter_to_lines(&trips, f, None);
    assert_eq!(count, 3);
    assert_eq!(lines.len(), 4);
}

#[test]
fn filter_to_lines_honours_the_cap() {
    let trips = dataset();
    let f = TripFilter::Price { min: Some(1500), max: None };
    let (lines, count) = filter_to_lines(&trips, f.clone(), Some(1));
    assert_eq!(count, 1);
    assert_eq!(lines.len(), 2);
    assert_eq!(lines[1], trip_row(&trips[1]));
    // a cap above the match count changes nothing
    let (_, count5) = filter_to_lines(&trips, f.clone(), Some(5));
    assert_eq!(count5, 2);
    let (lines0, count0) = filter_to_lines(&trips, f, Some(0));
    assert_eq!(count0, 0);
    assert_eq!(lines0.len(), 1);
}

#[test]
fn filter_run_stops_when_the_cap_is_reached() {
    let trips = dataset();
    let f = TripFilter::Price { min: None, max: None };
    let mut run = FilterRun::new(f, Some(2));
    assert!(!run.done());
    let first = run.step(&trips[0]);
    assert!(first.is_some());
    assert!(!run.done());
    let second = run.step(&trips[1]);
    assert!(second.is_some());
    assert!(run.done());
    let third = run.step(&trips[2]);
    assert!(third.is_none());
    assert_eq!(run.count(), 2);
}

#[test]
fn stats_over_matching_records() {
    let trips = dataset();
    let f = TripFilter::Price { min: Some(1500), max: None };
    let stats = get_filter_stats(&trips, f);
    assert_eq!(stats.count, 2);
    assert_eq!(stats.sum_amount, 5000);
    assert_eq!(stats.avg_amount(), Some(2500));
    assert_eq!(stats.total_amount(), Some(5000));
    assert_eq!(stats.avg_distance(), Some(250));
    assert_eq!(stats.avg_passengers(), Some(2));
}

#[test]
fn stats_without_matches_report_only_a_zero_count() {
    let trips = dataset();
    let f = TripFilter::Price { min: Some(100000), max: None };
    let stats = get_filter_stats(&trips, f);
    assert_eq!(stats.count, 0);
    assert_eq!(stats.avg_amount(), None);
    assert_eq!(stats.avg_distance(), None);
    assert_eq!(stats.avg_passengers(), None);
    assert_eq!(stats.total_amount(), None);
}

#[test]
fn stats_average_truncates_toward_zero() {
    let lines = [
        "V,p,d,1,1.00,1,N,10,A,card,0,0,0,0,0,0,0.05,1",
        "V,p,d,1,1.00,1,N,10,A,card,0,0,0,0,0,0,0.02,2",
    ];
    let trips: Vec<Trip> = lines.iter().map(|l| parse_row(l).expect("row")).collect();
    let stats = get_filter_stats(&trips, TripFilter::And(vec![]));
    assert_eq!(stats.count, 2);
    assert_eq!(stats.sum_amount, 7);
    assert_eq!(stats.avg_amount(), Some(3));
}
