use trip_index::popular::get_popular_destinations;
use trip_index::trip::Trip;
use trip_index::trip::parse_row;

fn trips_with_dests(dests: &[&str]) -> Vec<Trip> {
    dests
        .iter()
        .enumerate()
        .map(|(i, d)| {
            let line = format!("V,p,d,1,1.00,1,N,10,{d},card,1,0,0,0,0,0,5.00,{i}");
            parse_row(&line).expect("full row")
        })
        .collect()
}

#[test]
fn most_frequent_destination_ranks_first() {
    let trips = trips_with_dests(&["A", "A", "B"]);
    let top = get_popular_destinations(&trips, 1);
    assert_eq!(top, vec![("A".to_string(), 2)]);
}

#[test]
fn counts_descend_and_limit_cuts() {
    let trips = trips_with_dests(&["C", "B", "B", "A", "A", "A"]);
    let all = get_popular_destinations(&trips, 10);
    assert_eq!(
        all,
        vec![("A".to_string(), 3), ("B".to_string(), 2), ("C".to_string(), 1)]
    );
    let two = get_popular_destinations(&trips, 2);
    assert_eq!(two, vec![("A".to_string(), 3), ("B".to_string(), 2)]);
    let none = get_popular_destinations(&trips, 0);
    assert_eq!(none, vec![]);
}

#[test]
fn equal_counts_keep_first_seen_order() {
    let trips = trips_with_dests(&["B", "A", "A", "B", "C", "C"]);
    let all = get_popular_destinations(&trips, 3);
    assert_eq!(
        all,
        vec![("B".to_string(), 2), ("A".to_string(), 2), ("C".to_string(), 2)]
    );
}

#[test]
fn empty_dataset_has_no_destinations() {
    let trips: Vec<Trip> = vec![];
    assert_eq!(get_popular_destinations(&trips, 5), vec![]);
}
