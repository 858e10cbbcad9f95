use evo::{
    create_evo, edit_var, fetch_vars, get_backup_path, get_evo_path, make_backup, restore_backup,
    set_var, unset_var, StoreError, VarMap,
};

#[test]
fn create_then_fetch_returns_written_entries() {
    let mut vars = VarMap::new();
    vars.insert(String::from("PATH"), String::from("/usr/bin"));
    vars.insert(String::from("HOME"), String::from("/root"));
    vars.insert(String::from("EDITOR"), String::from("vi"));
    let content = create_evo(&vars);
    let fetched = fetch_vars(content.as_str()).unwrap();
    assert_eq!(fetched.len(), 3);
    assert_eq!(fetched.get("PATH").unwrap().as_str(), "/usr/bin");
    assert_eq!(fetched.get("HOME").unwrap().as_str(), "/root");
    assert_eq!(fetched.get("EDITOR").unwrap().as_str(), "vi");
}

#[test]
fn fetch_is_order_independent() {
    let mut a = VarMap::new();
    a.insert(String::from("A"), String::from("1"));
    a.insert(String::from("B"), String::from("2"));
    let mut b = VarMap::new();
    b.insert(String::from("B"), String::from("2"));
    b.insert(String::from("A"), String::from("1"));
    let fa = fetch_vars(create_evo(&a).as_str()).unwrap();
    let fb = fetch_vars(create_evo(&b).as_str()).unwrap();
    assert_eq!(fa.len(), fb.len());
    assert_eq!(fa.get("A").unwrap(), fb.get("A").unwrap());
    assert_eq!(fa.get("B").unwrap(), fb.get("B").unwrap());
}

#[test]
fn set_adds_missing_name() {
    let (content, vars) = set_var(Some("export B=2\n"), "A", String::from("1")).unwrap();
    assert_eq!(vars.get("A").unwrap().as_str(), "1");
    let fetched = fetch_vars(content.as_str()).unwrap();
    assert_eq!(fetched.get("A").unwrap().as_str(), "1");
    assert_eq!(fetched.get("B").unwrap().as_str(), "2");
}

#[test]
fn set_twice_last_wins() {
    let (c1, _) = set_var(Some("export B=2\n"), "A", String::from("1")).unwrap();
    let (c2, _) = set_var(Some(c1.as_str()), "A", String::from("3")).unwrap();
    let fetched = fetch_vars(c2.as_str()).unwrap();
    assert_eq!(fetched.get("A").unwrap().as_str(), "3");
}

#[test]
fn edit_changes_value_seen_by_fetch() {
    let (c1, _) = set_var(Some(""), "A", String::from("1")).unwrap();
    let (c2, vars) = edit_var(Some(c1.as_str()), "A", String::from("2")).unwrap();
    assert_eq!(vars.get("A").unwrap().as_str(), "2");
    let fetched = fetch_vars(c2.as_str()).unwrap();
    assert_eq!(fetched.get("A").unwrap().as_str(), "2");
}

#[test]
fn edit_missing_name_fails() {
    let r = edit_var(Some("export B=2\n"), "A", String::from("2"));
    assert_eq!(r.unwrap_err(), StoreError::KeyNotFound);
}

#[test]
fn edit_replaces_every_occurrence_of_the_assignment_text() {
    // A whole-text replacement also rewrites an accidental match inside an
    // unrelated value, as the store has always done.
    let (content, _) = edit_var(
        Some("export A=1\nexport BA=1B\n"),
        "A",
        String::from("2"),
    )
    .unwrap();
    assert_eq!(content.as_str(), "export A=2\nexport BA=2B\n");
}

#[test]
fn unset_removes_line_and_blanks_returned_value() {
    let (c1, _) = set_var(Some(""), "A", String::from("1")).unwrap();
    let (c2, vars) = unset_var(Some(c1.as_str()), "A").unwrap();
    assert!(!c2.contains("export A=1"));
    // The returned mapping keeps the name with an empty value (the store's
    // long-standing quirk); a fresh fetch of the file no longer has it.
    assert_eq!(vars.get("A").unwrap().as_str(), "");
    let fetched = fetch_vars(c2.as_str()).unwrap();
    assert!(fetched.get("A").is_none());
}

#[test]
fn unset_drops_every_equal_line() {
    let (content, _) = unset_var(
        Some("export A=1\nexport A=1\nexport B=2\n"),
        "A",
    )
    .unwrap();
    assert_eq!(content.as_str(), "export B=2");
}

#[test]
fn unset_missing_name_fails() {
    let r = unset_var(Some("export B=2\n"), "A");
    assert_eq!(r.unwrap_err(), StoreError::KeyNotFound);
}

#[test]
fn backup_then_restore_recovers_mapping() {
    let original = fetch_vars("export A=1\nexport B=2\n").unwrap();
    let backup = make_backup(&original);
    let (c1, _) = set_var(Some("export A=1\nexport B=2\n"), "C", String::from("3")).unwrap();
    let (c2, _) = edit_var(Some(c1.as_str()), "A", String::from("9")).unwrap();
    assert!(fetch_vars(c2.as_str()).unwrap().get("C").is_some());
    let restored = restore_backup(Some(backup.as_str())).unwrap();
    assert_eq!(restored, backup);
    let fetched = fetch_vars(restored.as_str()).unwrap();
    assert_eq!(fetched.len(), original.len());
    assert_eq!(fetched.get("A").unwrap().as_str(), "1");
    assert_eq!(fetched.get("B").unwrap().as_str(), "2");
    assert!(fetched.get("C").is_none());
}

#[test]
fn restore_without_backup_fails() {
    assert_eq!(restore_backup(None).unwrap_err(), StoreError::Io);
}

#[test]
fn operations_on_missing_store_fail() {
    assert_eq!(
        set_var(None, "A", String::from("1")).unwrap_err(),
        StoreError::StoreFileMissing
    );
    assert_eq!(
        edit_var(None, "A", String::from("1")).unwrap_err(),
        StoreError::StoreFileMissing
    );
    assert_eq!(unset_var(None, "A").unwrap_err(), StoreError::StoreFileMissing);
}

#[test]
fn malformed_line_is_reported() {
    assert_eq!(
        fetch_vars("garbage\n").unwrap_err(),
        StoreError::MalformedLine
    );
    assert_eq!(
        set_var(Some("garbage\n"), "A", String::from("1")).unwrap_err(),
        StoreError::MalformedLine
    );
}

#[test]
fn value_may_contain_equals_sign() {
    let fetched = fetch_vars("export A=b=c\n").unwrap();
    assert_eq!(fetched.get("A").unwrap().as_str(), "b=c");
}

#[test]
fn later_line_overrides_earlier_line() {
    let fetched = fetch_vars("export A=1\nexport A=2\n").unwrap();
    assert_eq!(fetched.len(), 1);
    assert_eq!(fetched.get("A").unwrap().as_str(), "2");
}

#[test]
fn empty_store_has_no_entries() {
    let fetched = fetch_vars("").unwrap();
    assert_eq!(fetched.len(), 0);
}

#[test]
fn line_parsing_takes_part_after_last_space() {
    let fetched = fetch_vars("export A=1").unwrap();
    assert_eq!(fetched.get("A").unwrap().as_str(), "1");
}

#[test]
fn store_paths_end_with_expected_names() {
    let store = get_evo_path().unwrap();
    assert!(store.to_string_lossy().ends_with(".evo"));
    let backup = get_backup_path().unwrap();
    assert!(backup.to_string_lossy().ends_with(".evo.bk"));
}

#[test]
fn error_messages_are_nonempty() {
    assert!(!StoreError::HomeDirUnresolvable.message().is_empty());
    assert!(!StoreError::StoreFileMissing.message().is_empty());
    assert!(!StoreError::KeyNotFound.message().is_empty());
    assert!(!StoreError::MalformedLine.message().is_empty());
    assert!(!StoreError::Io.message().is_empty());
}
