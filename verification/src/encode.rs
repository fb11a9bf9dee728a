//! The byte layout of a comment block.
//!
//! A block is the packet signature, the vendor, the number of tags, the tags
//! and a closing byte. Every text is written as UTF-8 behind its length in
//! bytes; lengths and the count take four bytes each, lowest byte first.

use vstd::prelude::*;
use vstd::utf8::encode_utf8;
use crate::comments::{CommentHeader, Comments, Tag};
use crate::seqs::lemma_take_next;

verus! {

/// A comment list cannot be laid out: some size in it does not fit in 32 bits.
#[derive(Debug)]
pub struct VorbisMakeCommentError();

/// The seven bytes a comment packet begins with: the packet type 3 and the
/// letters `vorbis`.
pub open spec fn signature() -> Seq<u8> {
    seq![3u8, 118u8, 111u8, 114u8, 98u8, 105u8, 115u8]
}

/// A number below 2^32 as four bytes, lowest byte first.
pub open spec fn le_bytes(n: nat) -> Seq<u8> {
    seq![
        (n % 256) as u8,
        (n / 256 % 256) as u8,
        (n / 65536 % 256) as u8,
        (n / 16777216 % 256) as u8,
    ]
}

/// The number that four bytes state, lowest byte first.
pub open spec fn le_value(bytes: Seq<u8>) -> nat
    recommends
        bytes.len() == 4,
{
    (bytes[0] + 256 * bytes[1] + 65536 * bytes[2] + 16777216 * bytes[3]) as nat
}

/// Bytes behind their number.
pub open spec fn measured(bytes: Seq<u8>) -> Seq<u8> {
    le_bytes(bytes.len()) + bytes
}

/// A tag as the text `key=value`.
pub open spec fn tag_text(tag: Tag) -> Seq<char> {
    tag.0 + seq!['='] + tag.1
}

/// The tags one after the other, each as its measured text.
pub open spec fn tags_bytes(entries: Seq<Tag>) -> Seq<u8>
    decreases entries.len(),
{
    if entries.len() == 0 {
        Seq::empty()
    } else {
        tags_bytes(entries.drop_last()) + measured(encode_utf8(tag_text(entries.last())))
    }
}

/// The bytes of the comment block that holds a comment list.
pub open spec fn comment_block(comments: Comments) -> Seq<u8> {
    signature() + measured(encode_utf8(comments.vendor)) + le_bytes(comments.entries.len())
        + tags_bytes(comments.entries) + seq![1u8]
}

/// Whether every size in a comment list fits in 32 bits: the vendor's length
/// in bytes, the number of tags, and the length in bytes of each tag's text.
pub open spec fn encodable(comments: Comments) -> bool {
    &&& encode_utf8(comments.vendor).len() <= u32::MAX
    &&& comments.entries.len() <= u32::MAX
    &&& forall|i: int|
        0 <= i < comments.entries.len() ==> encode_utf8(
            tag_text(#[trigger] comments.entries[i]),
        ).len() <= u32::MAX
}

/// The encoding of two texts joined is their encodings joined.
pub proof fn lemma_encode_utf8_concat(a: Seq<char>, b: Seq<char>)
    ensures
        encode_utf8(a + b) == encode_utf8(a) + encode_utf8(b),
    decreases a.len(),
{
    if a.len() == 0 {
        assert(a + b =~= b);
        assert(encode_utf8(a) + encode_utf8(b) =~= encode_utf8(b));
    } else {
        assert((a + b).drop_first() =~= a.drop_first() + b);
        lemma_encode_utf8_concat(a.drop_first(), b);
        assert(encode_utf8(a + b) =~= encode_utf8(a) + encode_utf8(b));
    }
}

/// The bytes of a tag's text are the key's bytes, the byte 61 for the sign
/// between them, and the value's bytes.
pub proof fn lemma_tag_text_bytes(tag: Tag)
    ensures
        encode_utf8(tag_text(tag)) == encode_utf8(tag.0) + seq![61u8] + encode_utf8(tag.1),
{
    let sign = seq!['='];
    assert(vstd::utf8::is_ascii_chars(sign));
    vstd::utf8::is_ascii_chars_encode_utf8(sign);
    assert(sign[0] as u8 == 61u8);
    assert(encode_utf8(sign) =~= seq![61u8]);
    lemma_encode_utf8_concat(tag.0, sign);
    lemma_encode_utf8_concat(tag.0 + sign, tag.1);
}

/// A comment list cannot be laid out when the key and the value of one of its
/// tags, with the sign between them, take more bytes than 32 bits can count.
pub proof fn lemma_long_tag_not_encodable(comments: Comments, i: int)
    requires
        0 <= i < comments.entries.len(),
        encode_utf8(comments.entries[i].0).len() + 1 + encode_utf8(comments.entries[i].1).len()
            > u32::MAX,
    ensures
        !encodable(comments),
{
    lemma_tag_text_bytes(comments.entries[i]);
}

/// Four bytes that state a number below 2^32 state that number.
pub proof fn lemma_le_value_of_le_bytes(n: nat)
    requires
        n <= u32::MAX,
    ensures
        le_bytes(n).len() == 4,
        le_value(le_bytes(n)) == n,
{
}

/// The tags one after the other are the first tag and then the others.
pub proof fn lemma_tags_bytes_from_the_front(entries: Seq<Tag>)
    requires
        entries.len() > 0,
    ensures
        tags_bytes(entries) == measured(encode_utf8(tag_text(entries[0]))) + tags_bytes(
            entries.skip(1),
        ),
    decreases entries.len(),
{
    let first = measured(encode_utf8(tag_text(entries[0])));
    let last = measured(encode_utf8(tag_text(entries.last())));
    if entries.len() == 1 {
        assert(tags_bytes(entries.drop_last()) =~= Seq::<u8>::empty());
        assert(tags_bytes(entries.skip(1)) =~= Seq::<u8>::empty());
        assert(tags_bytes(entries) =~= first + tags_bytes(entries.skip(1)));
    } else {
        let front = entries.drop_last();
        lemma_tags_bytes_from_the_front(front);
        assert(front.skip(1) =~= entries.skip(1).drop_last());
        assert(entries.skip(1).last() == entries.last());
        assert(tags_bytes(entries) =~= first + tags_bytes(entries.skip(1)));
    }
}

/// Bytes behind their number, followed by whatever, determine the bytes and
/// what follows.
proof fn lemma_measured_determines(x: Seq<u8>, rest_x: Seq<u8>, y: Seq<u8>, rest_y: Seq<u8>)
    requires
        x.len() <= u32::MAX,
        y.len() <= u32::MAX,
        measured(x) + rest_x == measured(y) + rest_y,
    ensures
        x == y,
        rest_x == rest_y,
{
    let whole = measured(x) + rest_x;
    let other = measured(y) + rest_y;
    lemma_le_value_of_le_bytes(x.len());
    lemma_le_value_of_le_bytes(y.len());
    assert(whole.subrange(0, 4) =~= le_bytes(x.len()));
    assert(other.subrange(0, 4) =~= le_bytes(y.len()));
    assert(x.len() == y.len());
    assert(x =~= whole.subrange(4, 4 + x.len() as int));
    assert(y =~= other.subrange(4, 4 + y.len() as int));
    assert(rest_x =~= whole.subrange(4 + x.len() as int, whole.len() as int));
    assert(rest_y =~= other.subrange(4 + y.len() as int, other.len() as int));
}

proof fn lemma_tags_bytes_determine_texts(a: Seq<Tag>, b: Seq<Tag>)
    requires
        a.len() == b.len(),
        forall|i: int| 0 <= i < a.len() ==> encode_utf8(tag_text(#[trigger] a[i])).len() <= u32::MAX,
        forall|i: int| 0 <= i < b.len() ==> encode_utf8(tag_text(#[trigger] b[i])).len() <= u32::MAX,
        tags_bytes(a) == tags_bytes(b),
    ensures
        forall|i: int| 0 <= i < a.len() ==> tag_text(#[trigger] a[i]) == tag_text(b[i]),
    decreases a.len(),
{
    if a.len() > 0 {
        lemma_tags_bytes_from_the_front(a);
        lemma_tags_bytes_from_the_front(b);
        let x = encode_utf8(tag_text(a[0]));
        let y = encode_utf8(tag_text(b[0]));
        lemma_measured_determines(x, tags_bytes(a.skip(1)), y, tags_bytes(b.skip(1)));
        vstd::utf8::encode_utf8_decode_utf8(tag_text(a[0]));
        vstd::utf8::encode_utf8_decode_utf8(tag_text(b[0]));
        assert forall|i: int| 0 <= i < a.skip(1).len() implies encode_utf8(
            tag_text(#[trigger] a.skip(1)[i]),
        ).len() <= u32::MAX by {
            assert(a.skip(1)[i] == a[i + 1]);
        }
        assert forall|i: int| 0 <= i < b.skip(1).len() implies encode_utf8(
            tag_text(#[trigger] b.skip(1)[i]),
        ).len() <= u32::MAX by {
            assert(b.skip(1)[i] == b[i + 1]);
        }
        lemma_tags_bytes_determine_texts(a.skip(1), b.skip(1));
        assert forall|i: int| 0 <= i < a.len() implies tag_text(#[trigger] a[i]) == tag_text(
            b[i],
        ) by {
            if i > 0 {
                assert(a[i] == a.skip(1)[i - 1]);
                assert(b[i] == b.skip(1)[i - 1]);
            }
        }
    }
}

/// A block holds one list only: two lists that are laid out as the same
/// bytes have the same vendor and as many tags, and their tags have, one by
/// one, the same text.
pub proof fn lemma_block_determines_list(a: Comments, b: Comments)
    requires
        encodable(a),
        encodable(b),
        comment_block(a) == comment_block(b),
    ensures
        a.vendor == b.vendor,
        a.entries.len() == b.entries.len(),
        forall|i: int|
            0 <= i < a.entries.len() ==> tag_text(#[trigger] a.entries[i]) == tag_text(
                b.entries[i],
            ),
{
    let tail_a = le_bytes(a.entries.len()) + tags_bytes(a.entries) + seq![1u8];
    let tail_b = le_bytes(b.entries.len()) + tags_bytes(b.entries) + seq![1u8];
    let body_a = measured(encode_utf8(a.vendor)) + tail_a;
    let body_b = measured(encode_utf8(b.vendor)) + tail_b;
    assert(comment_block(a) =~= signature() + body_a);
    assert(comment_block(b) =~= signature() + body_b);
    assert(body_a =~= comment_block(a).subrange(7, comment_block(a).len() as int));
    assert(body_b =~= comment_block(b).subrange(7, comment_block(b).len() as int));
    lemma_measured_determines(encode_utf8(a.vendor), tail_a, encode_utf8(b.vendor), tail_b);
    vstd::utf8::encode_utf8_decode_utf8(a.vendor);
    vstd::utf8::encode_utf8_decode_utf8(b.vendor);
    lemma_le_value_of_le_bytes(a.entries.len());
    lemma_le_value_of_le_bytes(b.entries.len());
    assert(tail_a.subrange(0, 4) =~= le_bytes(a.entries.len()));
    assert(tail_b.subrange(0, 4) =~= le_bytes(b.entries.len()));
    assert(tags_bytes(a.entries) =~= tail_a.subrange(4, tail_a.len() - 1));
    assert(tags_bytes(b.entries) =~= tail_b.subrange(4, tail_b.len() - 1));
    lemma_tags_bytes_determine_texts(a.entries, b.entries);
}

/// Whether no key of a comment list holds the sign that stands between key
/// and value.
pub open spec fn plain_keys(comments: Comments) -> bool {
    forall|i: int|
        0 <= i < comments.entries.len() ==> !(#[trigger] comments.entries[i]).0.contains('=')
}

/// The text of a tag determines the tag, where no key holds the sign that
/// stands between key and value.
pub proof fn lemma_text_determines_tag(a: Tag, b: Tag)
    requires
        !a.0.contains('='),
        !b.0.contains('='),
        tag_text(a) == tag_text(b),
    ensures
        a == b,
{
    let text = tag_text(a);
    assert(text[a.0.len() as int] == '=');
    assert(tag_text(b)[b.0.len() as int] == '=');
    if a.0.len() < b.0.len() {
        assert(b.0[a.0.len() as int] == tag_text(b)[a.0.len() as int]);
    } else if b.0.len() < a.0.len() {
        assert(a.0[b.0.len() as int] == tag_text(a)[b.0.len() as int]);
    }
    assert(a.0 =~= text.subrange(0, a.0.len() as int));
    assert(b.0 =~= text.subrange(0, b.0.len() as int));
    assert(a.1 =~= text.subrange(a.0.len() as int + 1, text.len() as int));
    assert(b.1 =~= text.subrange(b.0.len() as int + 1, text.len() as int));
}

fn append_le(out: &mut Vec<u8>, n: u32)
    ensures
        final(out)@ == old(out)@ + le_bytes(n as nat),
{
    out.push((n % 256) as u8);
    out.push((n / 256 % 256) as u8);
    out.push((n / 65536 % 256) as u8);
    out.push((n / 16777216) as u8);
    assert(out@ =~= old(out)@ + le_bytes(n as nat));
}

fn append(out: &mut Vec<u8>, bytes: &[u8])
    ensures
        final(out)@ == old(out)@ + bytes@,
{
    out.extend_from_slice(bytes);
    assert(out@ =~= old(out)@ + bytes@);
}

/// Lays a comment list out as the bytes of a comment block, or fails when one
/// of its sizes does not fit in 32 bits.
pub fn safe_make_comment_header(header: &CommentHeader) -> (made: Result<
    Vec<u8>,
    VorbisMakeCommentError,
>)
    ensures
        match made {
            Ok(bytes) => encodable(header@) && bytes@ == comment_block(header@),
            Err(_) => !encodable(header@),
        },
{
    let vendor = header.vendor.as_str().as_bytes();
    if vendor.len() > 0xFFFF_FFFF {
        return Err(VorbisMakeCommentError());
    }
    let count = header.comment_list.len();
    if count > 0xFFFF_FFFF {
        return Err(VorbisMakeCommentError());
    }
    let mut out: Vec<u8> = Vec::new();
    out.push(3);
    out.push(118);
    out.push(111);
    out.push(114);
    out.push(98);
    out.push(105);
    out.push(115);
    assert(out@ =~= signature());
    append_le(&mut out, vendor.len() as u32);
    append(&mut out, vendor);
    append_le(&mut out, count as u32);
    let ghost head = signature() + measured(encode_utf8(header@.vendor)) + le_bytes(
        header@.entries.len(),
    );
    assert(out@ =~= head);
    assert(header@.entries.take(0) =~= Seq::<Tag>::empty());
    let mut i: usize = 0;
    while i < count
        invariant
            i <= count,
            count == header.comment_list.len(),
            out@ == head + tags_bytes(header@.entries.take(i as int)),
            forall|j: int|
                0 <= j < i ==> encode_utf8(tag_text(#[trigger] header@.entries[j])).len()
                    <= u32::MAX,
        decreases count - i,
    {
        let key = header.comment_list[i].0.as_str().as_bytes();
        let value = header.comment_list[i].1.as_str().as_bytes();
        proof {
            lemma_tag_text_bytes(header@.entries[i as int]);
            lemma_take_next(header@.entries, i as int);
        }
        if key.len() > 0xFFFF_FFFE || value.len() > 0xFFFF_FFFE - key.len() {
            return Err(VorbisMakeCommentError());
        }
        let ghost before = out@;
        append_le(&mut out, (key.len() + 1 + value.len()) as u32);
        append(&mut out, key);
        out.push(61);
        append(&mut out, value);
        assert(out@ =~= before + measured(encode_utf8(tag_text(header@.entries[i as int]))));
        i += 1;
    }
    assert(header@.entries.take(i as int) =~= header@.entries);
    out.push(1);
    assert(out@ =~= comment_block(header@));
    Ok(out)
}

/// Lays a comment list out as the bytes of a comment block.
pub fn make_comment_header(header: &CommentHeader) -> (bytes: Vec<u8>)
    requires
        encodable(header@),
    ensures
        bytes@ == comment_block(header@),
{
    match safe_make_comment_header(header) {
        Ok(bytes) => bytes,
        Err(_) => vstd::pervasive::unreached(),
    }
}

} // verus!
