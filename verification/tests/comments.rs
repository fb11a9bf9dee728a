use vorbis_comments::CommentHeader;

fn pair(key: &str, value: &str) -> (String, String) {
    (key.to_string(), value.to_string())
}

#[test]
fn new_list_is_empty() {
    let header = CommentHeader::new();
    assert_eq!(header.vendor, "");
    assert!(header.comment_list.is_empty());
    assert_eq!(header.get_vendor(), "");
    assert!(header.get_tag_names().is_empty());
    assert_eq!(header.get_tag_single("title"), None);
    assert!(header.get_tag_multi("title").is_empty());
}

#[test]
fn from_keeps_what_it_is_given() {
    let header = CommentHeader::from(
        "Some Encoder".to_string(),
        vec![pair("Title", "A"), pair("ARTIST", "B")],
    );
    assert_eq!(header.vendor, "Some Encoder");
    assert_eq!(header.comment_list, vec![pair("Title", "A"), pair("ARTIST", "B")]);
}

#[test]
fn lookup_ignores_case() {
    let mut header = CommentHeader::new();
    header.add_tag_single("Artist", "x");
    assert_eq!(header.get_tag_single("ARTIST"), Some("x".to_string()));
    assert_eq!(header.get_tag_single("artist"), Some("x".to_string()));
    assert_eq!(header.get_tag_single("album"), None);
}

#[test]
fn added_key_is_stored_in_lower_case() {
    let mut header = CommentHeader::new();
    header.add_tag_single("ArTiSt", "Some Value");
    assert_eq!(header.comment_list, vec![pair("artist", "Some Value")]);
}

#[test]
fn added_key_beyond_ascii_is_stored_in_lower_case() {
    let mut header = CommentHeader::new();
    header.add_tag_single("ÄRGER", "x");
    assert_eq!(header.comment_list, vec![pair("ärger", "x")]);
    assert_eq!(header.get_tag_single("Ärger"), Some("x".to_string()));
}

#[test]
fn lookup_lowers_stored_keys_too() {
    let header = CommentHeader::from(String::new(), vec![pair("TITLE", "A"), pair("title", "B")]);
    assert_eq!(header.get_tag_multi("Title"), vec!["A".to_string(), "B".to_string()]);
    assert_eq!(header.get_tag_single("title"), Some("A".to_string()));
}

#[test]
fn multiple_values_keep_their_order() {
    let mut header = CommentHeader::new();
    header.add_tag_multi("genre", &vec!["Rock", "Pop"]);
    assert_eq!(header.get_tag_multi("GENRE"), vec!["Rock".to_string(), "Pop".to_string()]);
    let names = header.get_tag_names();
    assert_eq!(names.iter().filter(|name| name.as_str() == "genre").count(), 1);
    assert_eq!(names, vec!["genre".to_string()]);
}

#[test]
fn add_multi_appends_behind_what_is_there() {
    let mut header = CommentHeader::from("v".to_string(), vec![pair("genre", "Jazz")]);
    header.add_tag_multi("Genre", &vec!["Rock", "Pop"]);
    assert_eq!(
        header.comment_list,
        vec![pair("genre", "Jazz"), pair("genre", "Rock"), pair("genre", "Pop")]
    );
    assert_eq!(header.get_tag_single("genre"), Some("Jazz".to_string()));
    assert_eq!(header.vendor, "v");
}

#[test]
fn add_multi_without_values_adds_nothing() {
    let mut header = CommentHeader::from("v".to_string(), vec![pair("genre", "Jazz")]);
    header.add_tag_multi("title", &vec![]);
    assert_eq!(header.comment_list, vec![pair("genre", "Jazz")]);
}

#[test]
fn clear_removes_one_tag_only() {
    let mut header = CommentHeader::from(
        "v".to_string(),
        vec![
            pair("title", "A"),
            pair("Genre", "Rock"),
            pair("artist", "B"),
            pair("GENRE", "Pop"),
            pair("album", "C"),
        ],
    );
    header.clear_tag("genre");
    assert!(header.get_tag_multi("genre").is_empty());
    assert_eq!(header.get_tag_single("genre"), None);
    assert_eq!(
        header.comment_list,
        vec![pair("title", "A"), pair("artist", "B"), pair("album", "C")]
    );
    assert_eq!(header.vendor, "v");
}

#[test]
fn clear_of_an_absent_tag_changes_nothing() {
    let mut header = CommentHeader::from("v".to_string(), vec![pair("title", "A")]);
    header.clear_tag("genre");
    assert_eq!(header.comment_list, vec![pair("title", "A")]);
}

#[test]
fn names_are_lowered_sorted_and_unique() {
    let header = CommentHeader::from(
        String::new(),
        vec![
            pair("Title", "a"),
            pair("ARTIST", "b"),
            pair("title", "c"),
            pair("album", "d"),
            pair("Artist", "e"),
        ],
    );
    assert_eq!(
        header.get_tag_names(),
        vec!["album".to_string(), "artist".to_string(), "title".to_string()]
    );
}

#[test]
fn names_are_ordered_by_code_point() {
    let header = CommentHeader::from(
        String::new(),
        vec![pair("ärger", "1"), pair("zebra", "2"), pair("ab", "3"), pair("a", "4"), pair("B", "5")],
    );
    assert_eq!(
        header.get_tag_names(),
        vec![
            "a".to_string(),
            "ab".to_string(),
            "b".to_string(),
            "zebra".to_string(),
            "ärger".to_string()
        ]
    );
}

#[test]
fn vendor_is_set_and_got() {
    let mut header = CommentHeader::from("old".to_string(), vec![pair("title", "A")]);
    assert_eq!(header.get_vendor(), "old");
    header.set_vendor("new");
    assert_eq!(header.get_vendor(), "new");
    assert_eq!(header.vendor, "new");
    assert_eq!(header.comment_list, vec![pair("title", "A")]);
}
