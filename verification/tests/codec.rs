use unl_scrub::UnlRow;

fn create_test_row() -> UnlRow {
    UnlRow::from_line("1001|Essential1|User1|essential1@example.com|123 Essential St|555-1001|")
        .unwrap()
}

#[test]
fn test_row_field_access() {
    let row = create_test_row();

    assert_eq!(row.get_field(0), Some("1001"));
    assert_eq!(row.get_field(1), Some("Essential1"));

    assert_eq!(row.get_field(10), None);
}

#[test]
fn test_row_field_modification() {
    let mut row = create_test_row();

    assert!(row.set_field(1, "NewName".to_string()).is_ok());
    assert_eq!(row.get_field(1), Some("NewName"));

    assert!(row.set_field(10, "Invalid".to_string()).is_err());
}

#[test]
fn test_unl_row_parsing() {
    let row = UnlRow::from_line("1|2|3|").unwrap();
    assert_eq!(row.num_fields(), 3);
    assert_eq!(row.get_field(0), Some("1"));
    assert_eq!(row.get_field(1), Some("2"));
    assert_eq!(row.get_field(2), Some("3"));

    let row = UnlRow::from_line("1|2|3").unwrap();
    assert_eq!(row.num_fields(), 3);
    assert_eq!(row.get_field(0), Some("1"));
    assert_eq!(row.get_field(1), Some("2"));
    assert_eq!(row.get_field(2), Some("3"));
}

#[test]
fn test_unl_row_output() {
    let row = UnlRow::from_line("1|2|3|").unwrap();
    assert_eq!(row.to_line(), "1|2|3|");
}

#[test]
fn test_round_trip_decode_of_encode() {
    let row = create_test_row();
    let again = UnlRow::from_line(&row.to_line()).unwrap();
    assert_eq!(again, row);
}

#[test]
fn test_normalization_encode_of_decode() {
    for line in ["1|2|3|", "a||b|", "|", "||", "x|", "1001|John|Doe|j@x.com|a|b|"] {
        let row = UnlRow::from_line(line).unwrap();
        assert_eq!(row.to_line(), line, "line {:?} did not survive decode/encode", line);
    }
}

#[test]
fn test_empty_and_edge_lines() {
    let row = UnlRow::from_line("").unwrap();
    assert_eq!(row.num_fields(), 1);
    assert_eq!(row.get_field(0), Some(""));
    assert_eq!(row.to_line(), "|");

    let row = UnlRow::from_line("a||b|").unwrap();
    assert_eq!(row.num_fields(), 3);
    assert_eq!(row.get_field(1), Some(""));

    // A line without the trailing delimiter decodes the same as one with it,
    // and encodes back to the delimiter-terminated form.
    let row = UnlRow::from_line("a|b").unwrap();
    assert_eq!(row.to_line(), "a|b|");
}
