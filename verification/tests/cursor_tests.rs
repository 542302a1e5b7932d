use logblock::cursors::CursorName;

#[test]
fn cursor_new() {
    assert!(CursorName::new("valid_cursor").is_some());
    assert!(CursorName::new("__valid_cursor__").is_some());
    assert!(CursorName::new("__valid_cursor9__").is_some());
    assert!(CursorName::new("some-cursor").is_none());
    assert!(CursorName::new("").is_none());
}

#[test]
fn cursor_path_round_trip() {
    let name = CursorName::new("test_cursor").unwrap();
    let path = name.path();
    let parsed_name = CursorName::from_path(&path).unwrap();
    assert_eq!(name.as_str(), parsed_name.as_str());
}

#[test]
fn cursor_path_shape() {
    let name = CursorName::new("mycursor").unwrap();
    assert_eq!(name.path(), "cursor/mycursor.json");
}

#[test]
fn from_path_rejects_wrong_shapes() {
    assert!(CursorName::from_path("cursor/ok.json").is_some());
    assert!(CursorName::from_path("cursor/.json").is_none());
    assert!(CursorName::from_path("cursor/has-dash.json").is_none());
    assert!(CursorName::from_path("cur/ok.json").is_none());
    assert!(CursorName::from_path("cursor/ok.txt").is_none());
    assert!(CursorName::from_path("").is_none());
}

#[test]
fn from_string_unchecked_keeps_name() {
    let name = CursorName::from_string_unchecked("trusted_name");
    assert!(name.is_valid());
    assert_eq!(name.as_str(), "trusted_name");
}
