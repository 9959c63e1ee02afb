use rotation_index::discovery::get_highest_index;
use rotation_index::naming::FileSpec;

fn stems(names: &[&str]) -> Vec<String> {
    names.iter().map(|n| n.to_string()).collect()
}

#[test]
fn the_naming_shape_reports_its_components() {
    let spec = FileSpec::new(true, false, true);
    assert!(spec.has_basename());
    assert!(!spec.has_discriminant());
    assert!(spec.uses_timestamp());
    assert!(spec.uses_marker());
    assert!(!FileSpec::new(false, false, false).uses_marker());
}

#[test]
fn empty_candidate_set_yields_nothing() {
    let bare = FileSpec::new(false, false, false);
    assert_eq!(get_highest_index(&bare, &Vec::new()), None);
    let named = FileSpec::new(true, false, false);
    assert_eq!(get_highest_index(&named, &Vec::new()), None);
}

#[test]
fn bare_stems_reduce_to_their_maximum() {
    let bare = FileSpec::new(false, false, false);
    let list = stems(&["r00003", "r00001", "r00007"]);
    assert_eq!(get_highest_index(&bare, &list), Some(7));
}

#[test]
fn named_stems_take_the_segment_after_the_last_marker_and_skip_foreign_files() {
    let named = FileSpec::new(true, false, false);
    let list = stems(&["app_r00002", "app_r00009", "unrelated"]);
    assert_eq!(get_highest_index(&named, &list), Some(9));
}

#[test]
fn any_naming_component_selects_the_marker_rule() {
    let list = stems(&["log_2024_r00004"]);
    for spec in [
        FileSpec::new(true, false, false),
        FileSpec::new(false, true, false),
        FileSpec::new(false, false, true),
        FileSpec::new(true, true, true),
    ] {
        assert_eq!(get_highest_index(&spec, &list), Some(4));
    }
}

#[test]
fn unparsable_infix_counts_as_zero_rather_than_stopping_the_scan() {
    let named = FileSpec::new(true, false, false);
    assert_eq!(get_highest_index(&named, &stems(&["app_rxyz"])), Some(0));
    assert_eq!(get_highest_index(&named, &stems(&["app_rxyz", "app_r00004"])), Some(4));
    let bare = FileSpec::new(false, false, false);
    assert_eq!(get_highest_index(&bare, &stems(&["rbogus", "r00002"])), Some(2));
}

#[test]
fn all_candidates_skipped_yields_nothing() {
    let named = FileSpec::new(true, false, false);
    let list = stems(&["unrelated", "alsoforeign"]);
    assert_eq!(get_highest_index(&named, &list), None);
}

#[test]
fn the_last_marker_occurrence_wins() {
    let named = FileSpec::new(true, false, false);
    assert_eq!(get_highest_index(&named, &stems(&["a_r00001_r00005"])), Some(5));
}

#[test]
fn stem_ending_at_its_marker_has_an_empty_infix_counting_as_zero() {
    let named = FileSpec::new(true, false, false);
    assert_eq!(get_highest_index(&named, &stems(&["app_r"])), Some(0));
}

#[test]
fn degenerate_bare_stems_never_stop_the_scan() {
    let bare = FileSpec::new(false, false, false);
    assert_eq!(get_highest_index(&bare, &stems(&[""])), Some(0));
    assert_eq!(get_highest_index(&bare, &stems(&["r"])), Some(0));
    assert_eq!(get_highest_index(&bare, &stems(&["", "r00042"])), Some(42));
}

#[test]
fn values_above_the_padded_width_still_reduce() {
    let bare = FileSpec::new(false, false, false);
    let list = stems(&["r99999", "r100000"]);
    assert_eq!(get_highest_index(&bare, &list), Some(100000));
}
