use vorbis_comments::text::precedes;

#[test]
fn texts_are_ordered_as_strings_are() {
    let texts = ["", "a", "ab", "b", "B", "zebra", "ärger", "日本", "a\u{0}", "\u{10ffff}", "é"];
    for a in texts {
        for b in texts {
            assert_eq!(precedes(a, b), a < b);
        }
    }
}

#[test]
fn prefix_comes_before_what_extends_it() {
    assert!(precedes("", "a"));
    assert!(precedes("title", "titles"));
    assert!(!precedes("titles", "title"));
    assert!(!precedes("title", "title"));
    assert!(!precedes("", ""));
}

#[test]
fn order_goes_by_code_point() {
    assert!(precedes("Z", "a"));
    assert!(precedes("z", "ä"));
    assert!(precedes("ä", "日"));
    assert!(!precedes("ä", "z"));
}
