use vorbis_comments::{
    make_comment_header, read_comment_block, safe_make_comment_header, CommentHeader,
};

fn pair(key: &str, value: &str) -> (String, String) {
    (key.to_string(), value.to_string())
}

#[test]
fn empty_list_is_sixteen_bytes() {
    let bytes = safe_make_comment_header(&CommentHeader::new()).unwrap();
    assert_eq!(bytes, vec![3, 118, 111, 114, 98, 105, 115, 0, 0, 0, 0, 0, 0, 0, 0, 1]);
}

#[test]
fn block_is_laid_out_byte_for_byte() {
    let header = CommentHeader::from("libX".to_string(), vec![pair("title", "A")]);
    let mut expected = vec![3u8, b'v', b'o', b'r', b'b', b'i', b's'];
    expected.extend_from_slice(&[4, 0, 0, 0]);
    expected.extend_from_slice(b"libX");
    expected.extend_from_slice(&[1, 0, 0, 0]);
    expected.extend_from_slice(&[7, 0, 0, 0]);
    expected.extend_from_slice(b"title=A");
    expected.push(1);
    assert_eq!(safe_make_comment_header(&header).unwrap(), expected);
    assert_eq!(make_comment_header(&header), expected);
}

#[test]
fn tags_are_laid_out_in_their_order() {
    let header = CommentHeader::from(
        String::new(),
        vec![pair("b", "2"), pair("a", "1"), pair("b", "")],
    );
    let mut expected = vec![3u8, b'v', b'o', b'r', b'b', b'i', b's', 0, 0, 0, 0, 3, 0, 0, 0];
    expected.extend_from_slice(&[3, 0, 0, 0]);
    expected.extend_from_slice(b"b=2");
    expected.extend_from_slice(&[3, 0, 0, 0]);
    expected.extend_from_slice(b"a=1");
    expected.extend_from_slice(&[2, 0, 0, 0]);
    expected.extend_from_slice(b"b=");
    expected.push(1);
    assert_eq!(safe_make_comment_header(&header).unwrap(), expected);
}

#[test]
fn lengths_count_bytes_not_characters() {
    let header = CommentHeader::from("é".to_string(), vec![pair("k", "日本")]);
    let bytes = safe_make_comment_header(&header).unwrap();
    assert_eq!(&bytes[7..11], &[2, 0, 0, 0]);
    assert_eq!(&bytes[11..13], "é".as_bytes());
    assert_eq!(&bytes[13..17], &[1, 0, 0, 0]);
    assert_eq!(&bytes[17..21], &[8, 0, 0, 0]);
    assert_eq!(&bytes[21..29], "k=日本".as_bytes());
    assert_eq!(bytes.len(), 30);
    assert_eq!(bytes[29], 1);
}

#[test]
fn lengths_are_written_lowest_byte_first() {
    let header = CommentHeader::from("a".repeat(0x01_02_03), Vec::new());
    let bytes = safe_make_comment_header(&header).unwrap();
    assert_eq!(&bytes[7..11], &[3, 2, 1, 0]);
    assert_eq!(bytes.len(), 7 + 4 + 0x01_02_03 + 4 + 1);
}

#[test]
fn count_is_written_lowest_byte_first() {
    let mut list = Vec::new();
    for _ in 0..258 {
        list.push(pair("k", "v"));
    }
    let bytes = safe_make_comment_header(&CommentHeader::from(String::new(), list)).unwrap();
    assert_eq!(&bytes[11..15], &[2, 1, 0, 0]);
    assert_eq!(bytes.len(), 15 + 258 * 7 + 1);
}

#[test]
fn block_reads_back_as_the_same_list() {
    let header = CommentHeader::from(
        "Some Encoder 1.0".to_string(),
        vec![
            pair("title", "A"),
            pair("artist", "Someone"),
            pair("genre", "Rock"),
            pair("genre", "Pop"),
            pair("comment", "a=b=c"),
            pair("empty", ""),
            pair("text", "日本語 ärger"),
        ],
    );
    let bytes = safe_make_comment_header(&header).unwrap();
    let back = read_comment_block(&bytes).unwrap();
    assert_eq!(back.vendor, header.vendor);
    assert_eq!(back.comment_list, header.comment_list);
}

#[test]
fn empty_block_reads_back_as_the_empty_list() {
    let bytes = safe_make_comment_header(&CommentHeader::new()).unwrap();
    let back = read_comment_block(&bytes).unwrap();
    assert_eq!(back.vendor, "");
    assert!(back.comment_list.is_empty());
}

#[test]
fn key_that_holds_the_sign_reads_back_split_at_the_first_one() {
    let header = CommentHeader::from(String::new(), vec![pair("a=b", "c")]);
    let bytes = safe_make_comment_header(&header).unwrap();
    assert_eq!(&bytes[19..24], b"a=b=c");
    let back = read_comment_block(&bytes).unwrap();
    assert_eq!(back.comment_list, vec![pair("a", "b=c")]);
}

#[test]
fn equal_lists_are_laid_out_alike_and_different_ones_differently() {
    let one = CommentHeader::from("v".to_string(), vec![pair("a", "b"), pair("c", "d")]);
    let same = CommentHeader::from("v".to_string(), vec![pair("a", "b"), pair("c", "d")]);
    let swapped = CommentHeader::from("v".to_string(), vec![pair("c", "d"), pair("a", "b")]);
    let joined = CommentHeader::from("v".to_string(), vec![pair("a", "bc=d")]);
    assert_eq!(one, same);
    assert_eq!(safe_make_comment_header(&one).unwrap(), safe_make_comment_header(&same).unwrap());
    assert_ne!(safe_make_comment_header(&one).unwrap(), safe_make_comment_header(&swapped).unwrap());
    assert_ne!(safe_make_comment_header(&one).unwrap(), safe_make_comment_header(&joined).unwrap());
}
