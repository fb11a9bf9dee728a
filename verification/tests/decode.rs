use lewton::header::{read_header_comment, HeaderReadError};
use vorbis_comments::decode::sizes_within_packet;
use vorbis_comments::{read_comment_block, safe_make_comment_header, CommentHeader};

fn block(vendor: &str, tags: &[(&str, &str)]) -> Vec<u8> {
    let list = tags.iter().map(|(k, v)| (k.to_string(), v.to_string())).collect();
    safe_make_comment_header(&CommentHeader::from(vendor.to_string(), list)).unwrap()
}

#[test]
fn block_is_read() {
    let mut bytes = vec![3u8, b'v', b'o', b'r', b'b', b'i', b's'];
    bytes.extend_from_slice(&[2, 0, 0, 0]);
    bytes.extend_from_slice(b"ab");
    bytes.extend_from_slice(&[2, 0, 0, 0]);
    bytes.extend_from_slice(&[5, 0, 0, 0]);
    bytes.extend_from_slice(b"Key=v");
    bytes.extend_from_slice(&[4, 0, 0, 0]);
    bytes.extend_from_slice(b"k=w=");
    bytes.push(1);
    let header = read_comment_block(&bytes).unwrap();
    assert_eq!(header.vendor, "ab");
    assert_eq!(
        header.comment_list,
        vec![("Key".to_string(), "v".to_string()), ("k".to_string(), "w=".to_string())]
    );
}

#[test]
fn other_packets_are_not_comment_blocks() {
    assert!(read_comment_block(&[]).is_err());
    assert!(read_comment_block(&[3]).is_err());
    assert!(read_comment_block(b"\x01vorbis\x00\x00\x00\x00").is_err());
    assert!(read_comment_block(b"\x05vorbis\x00\x00\x00\x00").is_err());
    assert!(read_comment_block(b"\x03vorbiz\x00\x00\x00\x00\x00\x00\x00\x00\x01").is_err());
    assert!(read_comment_block(&[0, 1, 2, 3, 4, 5, 6, 7, 8, 9]).is_err());
}

#[test]
fn block_without_closing_byte_is_refused() {
    let mut bytes = block("v", &[("k", "v")]);
    bytes.pop();
    assert!(read_comment_block(&bytes).is_err());
    bytes.push(0);
    assert!(read_comment_block(&bytes).is_err());
    bytes.pop();
    bytes.push(1);
    assert!(read_comment_block(&bytes).is_ok());
}

#[test]
fn cut_block_is_refused() {
    let bytes = block("vendor", &[("title", "A"), ("artist", "B")]);
    for len in 0..bytes.len() {
        assert!(read_comment_block(&bytes[..len]).is_err());
    }
}

#[test]
fn sizes_of_a_block_lie_within_it() {
    assert!(sizes_within_packet(&block("", &[])));
    assert!(sizes_within_packet(&block("vendor", &[("title", "A"), ("artist", "B")])));
}

#[test]
fn packets_of_another_kind_state_no_size() {
    assert!(sizes_within_packet(&[]));
    assert!(sizes_within_packet(&[3, 118, 111]));
    assert!(sizes_within_packet(b"\x01vorbis\xff\xff\xff\xff\xff\xff\xff\xff"));
    assert!(sizes_within_packet(b"\x03vorbis\xff\xff\xff"));
}

#[test]
fn vendor_beyond_the_packet_is_refused_unread() {
    let bytes = b"\x03vorbis\x05\x00\x00\x00abcd".to_vec();
    assert!(!sizes_within_packet(&bytes));
    assert!(read_comment_block(&bytes).is_err());
    let bytes = b"\x03vorbis\xff\xff\xff\xff".to_vec();
    assert!(!sizes_within_packet(&bytes));
    assert!(read_comment_block(&bytes).is_err());
}

#[test]
fn count_beyond_the_packet_is_refused_unread() {
    let bytes = b"\x03vorbis\x00\x00\x00\x00\xff\xff\xff\xff\x01".to_vec();
    assert!(!sizes_within_packet(&bytes));
    assert!(read_comment_block(&bytes).is_err());
    let bytes = b"\x03vorbis\x00\x00\x00\x00\x02\x00\x00\x00\x00\x00\x00\x00\x01".to_vec();
    assert!(!sizes_within_packet(&bytes));
    assert!(read_comment_block(&bytes).is_err());
}

#[test]
fn tag_beyond_the_packet_is_refused_unread() {
    let bytes = b"\x03vorbis\x00\x00\x00\x00\x01\x00\x00\x00\x04\x00\x00\x00k=v\x01".to_vec();
    assert!(sizes_within_packet(&bytes));
    let bytes = b"\x03vorbis\x00\x00\x00\x00\x01\x00\x00\x00\x05\x00\x00\x00k=v\x01".to_vec();
    assert!(!sizes_within_packet(&bytes));
    assert!(read_comment_block(&bytes).is_err());
    let bytes = b"\x03vorbis\x00\x00\x00\x00\x01\x00\x00\x00\x00\x00\x00\x80k=v\x01".to_vec();
    assert!(!sizes_within_packet(&bytes));
    assert!(read_comment_block(&bytes).is_err());
}

#[test]
fn sizes_within_a_packet_without_closing_byte() {
    let bytes = b"\x03vorbis\x00\x00\x00\x00\x01\x00\x00\x00\x03\x00\x00\x00k=v".to_vec();
    assert!(sizes_within_packet(&bytes));
    assert!(read_comment_block(&bytes).is_err());
}

#[test]
fn tag_without_sign_is_left_out() {
    let bytes = b"\x03vorbis\x00\x00\x00\x00\x02\x00\x00\x00\x03\x00\x00\x00abc\x03\x00\x00\x00k=v\x01".to_vec();
    let header = read_comment_block(&bytes).unwrap();
    assert_eq!(header.comment_list, vec![("k".to_string(), "v".to_string())]);
}

#[test]
fn vendor_beyond_the_packet_ends_the_packet() {
    let bytes = b"\x03vorbis\x05\x00\x00\x00abcd".to_vec();
    assert_eq!(read_comment_block(&bytes).err(), Some(HeaderReadError::EndOfPacket));
    let bytes = b"\x03vorbis\xff\xff\xff\xff\xff\xfe".to_vec();
    assert_eq!(read_comment_block(&bytes).err(), Some(HeaderReadError::EndOfPacket));
}

#[test]
fn count_beyond_the_packet_ends_the_packet() {
    let bytes = b"\x03vorbis\x02\x00\x00\x00ab\xff\xff\xff\xff\x01".to_vec();
    assert!(!sizes_within_packet(&bytes));
    assert_eq!(read_comment_block(&bytes).err(), Some(HeaderReadError::EndOfPacket));
}

#[test]
fn cause_is_the_vendor_where_lewton_finds_it_first() {
    let bytes = b"\x03vorbis\x02\x00\x00\x00\xff\xfe\xff\xff\xff\xff\x01".to_vec();
    assert!(!sizes_within_packet(&bytes));
    assert_eq!(read_comment_block(&bytes).err(), Some(HeaderReadError::Utf8DecodeError));
    let bytes = b"\x03vorbis\x01\x00\x00\x00\xc0\x01\x00\x00\x00\x09\x00\x00\x00k=v\x01".to_vec();
    assert!(!sizes_within_packet(&bytes));
    assert_eq!(read_comment_block(&bytes).err(), Some(HeaderReadError::Utf8DecodeError));
    assert_eq!(read_header_comment(&bytes).err(), Some(HeaderReadError::Utf8DecodeError));
}

fn same_as_lewton(packet: &[u8]) {
    let ours = read_comment_block(packet);
    let theirs = read_header_comment(packet);
    match (ours, theirs) {
        (Ok(ours), Ok(theirs)) => {
            assert_eq!(ours.vendor, theirs.vendor);
            assert_eq!(ours.comment_list, theirs.comment_list);
        }
        (Err(ours), Err(theirs)) => assert_eq!(ours, theirs),
        (ours, theirs) => panic!("{:?} {:?}", ours, theirs),
    }
}

#[test]
fn packets_with_sizes_within_are_read_as_lewton_reads_them() {
    let whole = block("vendor", &[("title", "A"), ("artist", "B")]);
    let mut compared = 0;
    for len in 0..=whole.len() {
        assert!(sizes_within_packet(&whole[..len]) || len >= 11);
        if sizes_within_packet(&whole[..len]) {
            same_as_lewton(&whole[..len]);
            compared += 1;
        }
    }
    for at in 0..whole.len() {
        for mask in [0x01u8, 0x04, 0x80] {
            let mut damaged = whole.clone();
            damaged[at] ^= mask;
            if sizes_within_packet(&damaged) {
                same_as_lewton(&damaged);
                compared += 1;
            } else {
                assert!(read_comment_block(&damaged).is_err());
            }
        }
    }
    assert!(compared > whole.len());
    same_as_lewton(b"\x03vorbis\x00\x00\x00\x00\x01\x00\x00\x00\x03\x00\x00\x00k=v\x00");
    same_as_lewton(b"\x01vorbis\x00\x00\x00\x00");
    same_as_lewton(b"\x02vorbis\x00\x00\x00\x00");
    same_as_lewton(b"\x03vorbit\x00\x00\x00\x00");
}

#[test]
fn packets_with_small_sizes_beyond_them_are_refused_as_lewton_refuses_them() {
    let packets: Vec<&[u8]> = vec![
        b"\x03vorbis\x05\x00\x00\x00abcd",
        b"\x03vorbis\x01\x00\x00\x00\xffabcdefgh",
        b"\x03vorbis\x02\x00\x00\x00\xff\xfe\x09\x00\x00\x00\x01",
        b"\x03vorbis\x00\x00\x00\x00\x05\x00\x00\x00\x01",
        b"\x03vorbis\x00\x00\x00\x00\x01\x00\x00\x00\x09\x00\x00\x00k=v\x01",
        b"\x03vorbis\x01\x00\x00\x00\xc0\x01\x00\x00\x00\x09\x00\x00\x00k=v\x01",
        b"\x03vorbis\x01\x00\x00\x00a\x02\x00\x00\x00\x03\x00\x00\x00k=v\x07\x00\x00\x00k=v\x01",
    ];
    for packet in packets {
        assert!(!sizes_within_packet(packet));
        assert!(read_comment_block(packet).is_err());
        same_as_lewton(packet);
    }
}
