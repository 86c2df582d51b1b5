use lifespeed::dialog::{selects_many, single_selection};

#[test]
fn several_files_only_on_request() {
    assert!(selects_many(Some(true)));
    assert!(!selects_many(Some(false)));
    assert!(!selects_many(None));
}

#[test]
fn one_picked_file_is_a_list_of_one() {
    assert_eq!(single_selection(Some("/tmp/a.png".to_string())), Some(vec!["/tmp/a.png".to_string()]));
    assert_eq!(single_selection(Some(String::new())), Some(vec![String::new()]));
    assert_eq!(single_selection(None), None);
}
