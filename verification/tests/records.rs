use csv::StringRecord;
use tsv_sample::binary64::Binary64;
use tsv_sample::record::{
    get_weight, resolve_column, resolve_columns, ColumnError, Columns, WeightSource,
};
use tsv_sample::selection::{contains_id, Selection, Standing};

fn strings(items: &[&str]) -> Vec<String> {
    items.iter().map(|s| s.to_string()).collect()
}

#[test]
fn a_column_is_found_by_its_name() {
    let header = StringRecord::from(vec!["id", "weight", "place"]);
    assert_eq!(resolve_column(&header, "id"), Some(0));
    assert_eq!(resolve_column(&header, "weight"), Some(1));
    assert_eq!(resolve_column(&header, "place"), Some(2));
}

#[test]
fn a_column_that_is_not_there_is_not_found() {
    let header = StringRecord::from(vec!["id", "weight"]);
    assert_eq!(resolve_column(&header, "weights"), None);
    assert_eq!(resolve_column(&header, ""), None);
    assert_eq!(resolve_column(&StringRecord::new(), "id"), None);
}

#[test]
fn the_first_of_two_columns_with_one_name_is_found() {
    let header = StringRecord::from(vec!["a", "w", "b", "w"]);
    assert_eq!(resolve_column(&header, "w"), Some(1));
}

#[test]
fn without_a_weight_column_the_weight_is_uniform() {
    let record = StringRecord::from(vec!["a", "2.5"]);
    assert!(matches!(get_weight(None, &record), WeightSource::Uniform));
}

#[test]
fn the_weight_is_the_text_of_its_column() {
    let record = StringRecord::from(vec!["a", "2.5", "x"]);
    assert!(matches!(get_weight(Some(1), &record), WeightSource::Field("2.5")));
    assert!(matches!(get_weight(Some(0), &record), WeightSource::Field("a")));
    assert!(matches!(get_weight(Some(2), &record), WeightSource::Field("x")));
}

#[test]
fn a_row_too_short_for_the_weight_column_has_no_weight() {
    let record = StringRecord::from(vec!["a"]);
    assert!(matches!(get_weight(Some(1), &record), WeightSource::Missing));
    assert!(matches!(get_weight(Some(7), &record), WeightSource::Missing));
}

#[test]
fn an_identifier_is_found_in_a_list() {
    let ids = strings(&["a", "bc", ""]);
    assert!(contains_id(&ids, "a"));
    assert!(contains_id(&ids, "bc"));
    assert!(contains_id(&ids, ""));
    assert!(!contains_id(&ids, "b"));
    assert!(!contains_id(&ids, "abc"));
    assert!(!contains_id(&Vec::new(), "a"));
}

#[test]
fn exclusion_goes_before_inclusion() {
    let selection = Selection::new(strings(&["a", "b"]), strings(&["b", "c"]), 0);
    assert_eq!(selection.standing(&StringRecord::from(vec!["a", "1"])), Some(Standing::Forced));
    assert_eq!(selection.standing(&StringRecord::from(vec!["b", "1"])), Some(Standing::Excluded));
    assert_eq!(selection.standing(&StringRecord::from(vec!["c", "1"])), Some(Standing::Excluded));
    assert_eq!(selection.standing(&StringRecord::from(vec!["d", "1"])), Some(Standing::Ordinary));
}

#[test]
fn the_identifier_is_read_from_its_column() {
    let selection = Selection::new(strings(&["x"]), strings(&["y"]), 1);
    assert_eq!(selection.standing(&StringRecord::from(vec!["y", "x"])), Some(Standing::Forced));
    assert_eq!(selection.standing(&StringRecord::from(vec!["x", "y"])), Some(Standing::Excluded));
    assert_eq!(selection.standing(&StringRecord::from(vec!["x", "z"])), Some(Standing::Ordinary));
}

#[test]
fn a_row_without_the_identifier_column_has_no_standing() {
    let selection = Selection::new(strings(&["x"]), strings(&["y"]), 2);
    assert_eq!(selection.standing(&StringRecord::from(vec!["x", "y"])), None);
    assert_eq!(selection.standing(&StringRecord::new()), None);
}

#[test]
fn named_columns_are_found_in_the_header() {
    let header = StringRecord::from(vec!["name", "place", "id", "w"]);
    assert_eq!(
        resolve_columns(&header, Some("w"), Some("id")),
        Ok(Columns { weight: Some(3), id: 2 })
    );
    assert_eq!(resolve_columns(&header, Some("name"), None), Ok(Columns { weight: Some(0), id: 0 }));
}

#[test]
fn without_names_there_is_no_weight_and_the_first_column_identifies() {
    let header = StringRecord::from(vec!["name", "place"]);
    assert_eq!(resolve_columns(&header, None, None), Ok(Columns { weight: None, id: 0 }));
    assert_eq!(resolve_columns(&header, None, Some("place")), Ok(Columns { weight: None, id: 1 }));
    assert_eq!(resolve_columns(&StringRecord::new(), None, None), Ok(Columns { weight: None, id: 0 }));
}

#[test]
fn a_named_column_that_is_missing_is_an_error() {
    let header = StringRecord::from(vec!["name", "place"]);
    assert_eq!(resolve_columns(&header, Some("w"), None), Err(ColumnError::WeightNotFound));
    assert_eq!(resolve_columns(&header, None, Some("id")), Err(ColumnError::IdNotFound));
    assert_eq!(resolve_columns(&header, Some("w"), Some("id")), Err(ColumnError::WeightNotFound));
    assert_eq!(resolve_columns(&header, Some("place"), Some("id")), Err(ColumnError::IdNotFound));
}

#[test]
fn a_uniform_weight_is_one_and_a_missing_one_is_negative_infinity() {
    let record = StringRecord::from(vec!["a", "2.5"]);
    let uniform = get_weight(None, &record).settled();
    assert_eq!(uniform, Some(Binary64::from_bits(1.0f64.to_bits())));
    let missing = get_weight(Some(2), &record).settled();
    assert_eq!(missing, Some(Binary64::from_bits(f64::NEG_INFINITY.to_bits())));
    assert_eq!(get_weight(Some(1), &record).settled(), None);
}
