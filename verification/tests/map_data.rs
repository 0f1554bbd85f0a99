use simulation::map_data::{incident_rates, parse_location, parse_police_ids, parse_police_names, MapDataError};

#[test]
fn location_ids_are_read_in_decimal() {
    assert_eq!(parse_location("123"), Some(123));
    assert_eq!(parse_location("+7"), Some(7));
    assert_eq!(parse_location("007"), Some(7));
    assert_eq!(parse_location("18446744073709551615"), Some(u64::MAX));
    assert_eq!(parse_location("18446744073709551616"), None);
    assert_eq!(parse_location(""), None);
    assert_eq!(parse_location("+"), None);
    assert_eq!(parse_location("12a"), None);
    assert_eq!(parse_location("-1"), None);
}

#[test]
fn incident_rates_leave_out_zero_counts() {
    let rates = incident_rates("{\"5\": 3, \"7\": 0, \"11\": 2}").unwrap();
    assert_eq!(rates, vec![(11, 2), (5, 3)]);
}

#[test]
fn incident_rates_refuse_a_bad_id() {
    assert_eq!(incident_rates("{\"x\": 1}"), Err(MapDataError::InvalidId));
    assert_eq!(incident_rates("{\"x\": 0}"), Ok(vec![]));
}

#[test]
fn incident_rates_refuse_malformed_text() {
    assert_eq!(incident_rates("not json"), Err(MapDataError::Malformed));
    assert_eq!(incident_rates("[1, 2]"), Err(MapDataError::Malformed));
}

#[test]
fn police_files_are_read() {
    assert_eq!(parse_police_ids("[3, 1, 2]"), Some(vec![3, 1, 2]));
    assert_eq!(parse_police_ids("[\"a\"]"), None);
    assert_eq!(parse_police_names("[\"North\", \"South\"]"), Some(vec![String::from("North"), String::from("South")]));
    assert_eq!(parse_police_names("{}"), None);
}
