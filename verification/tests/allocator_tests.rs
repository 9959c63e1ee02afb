use rotation_index::allocator::resolve_index;
use rotation_index::allocator::working_index;
use rotation_index::allocator::RenameOutcome;
use rotation_index::codec::number_infix;
use rotation_index::discovery::get_highest_index;
use rotation_index::naming::FileSpec;

#[test]
fn no_known_index_and_no_archives_resolves_to_zero_without_rotation() {
    let bare = FileSpec::new(false, false, false);
    let highest = get_highest_index(&bare, &Vec::new());
    assert_eq!(highest, None);
    let working = working_index(None, highest);
    assert_eq!(working, 0);
    let resolved: Result<u32, String> = resolve_index(working, None);
    assert_eq!(resolved, Ok(0));
}

#[test]
fn discovery_feeds_the_next_slot_and_a_successful_rotation_advances_past_it() {
    let bare = FileSpec::new(false, false, false);
    let list: Vec<String> = ["r00002", "r00004", "r00001"].iter().map(|n| n.to_string()).collect();
    let highest = get_highest_index(&bare, &list);
    assert_eq!(highest, Some(4));
    let working = working_index(None, highest);
    assert_eq!(working, 5);
    assert_eq!(number_infix(working), "r00005");
    let resolved: Result<u32, String> = resolve_index(working, Some(RenameOutcome::Renamed));
    assert_eq!(resolved, Ok(6));
}

#[test]
fn a_known_index_is_trusted_as_is() {
    assert_eq!(working_index(Some(9), None), 9);
    assert_eq!(working_index(Some(2), Some(7)), 2);
    assert_eq!(working_index(Some(0), None), 0);
}

#[test]
fn a_missing_active_file_is_benign_and_keeps_the_working_index() {
    let resolved: Result<u32, String> = resolve_index(3, Some(RenameOutcome::SourceMissing));
    assert_eq!(resolved, Ok(3));
    let first_run: Result<u32, String> = resolve_index(0, Some(RenameOutcome::SourceMissing));
    assert_eq!(first_run, Ok(0));
}

#[test]
fn any_other_rename_failure_propagates_unchanged() {
    let resolved: Result<u32, String> =
        resolve_index(3, Some(RenameOutcome::Failed("permission denied".to_string())));
    assert_eq!(resolved, Err("permission denied".to_string()));
}

#[test]
fn no_rotation_request_keeps_the_working_index() {
    let resolved: Result<u32, String> = resolve_index(11, None);
    assert_eq!(resolved, Ok(11));
}
