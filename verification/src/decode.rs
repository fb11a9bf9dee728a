//! Reading a comment block back from the bytes of a packet.
//!
//! The reading itself is lewton's. This module checks beforehand that the
//! sizes a packet states lie within the packet, because lewton makes room for
//! every stated size before it looks whether that many bytes follow. A
//! packet that fails the check holds no comment block; lewton is then handed
//! the packet cut short of the first size that passes its end, and reports
//! why it is none.

use vstd::prelude::*;
use vstd::slice::slice_subrange;
use vstd::utf8::encode_utf8;
use crate::comments::{CommentHeader, Comments, Tag};
use crate::encode::{
    comment_block, encodable, le_bytes, le_value, plain_keys, signature, tag_text, tags_bytes,
    lemma_le_value_of_le_bytes, lemma_tags_bytes_from_the_front,
};

verus! {

/// `lewton::header::HeaderReadError`, the error of lewton's reading, carried
/// through unread.
#[verifier::external_type_specification]
#[verifier::external_body]
pub struct ExHeaderReadError(lewton::header::HeaderReadError);

/// Whether a packet is the block that a comment list is laid out as, the
/// list being one that can be laid out and whose keys hold no `=`.
pub open spec fn laid_out_from(packet: Seq<u8>, comments: Comments) -> bool {
    encodable(comments) && plain_keys(comments) && packet == comment_block(comments)
}

/// The comment list that an outcome of reading holds, if it holds one.
pub open spec fn list_of<E>(read: Result<CommentHeader, E>) -> Option<Comments> {
    match read {
        Ok(header) => Some(header@),
        Err(_) => None,
    }
}

/// Whether what was got from a packet is the list that the packet was laid
/// out from, if it was laid out from one.
pub open spec fn reads_back(packet: Seq<u8>, got: Option<Comments>) -> bool {
    forall|comments: Comments| #[trigger] laid_out_from(packet, comments) ==> got == Some(comments)
}

/// What `lewton::header::read_header_comment` returns for the bytes of a
/// packet: the comment list that it reads, or the error that it reports.
pub uninterp spec fn parsed_block(packet: Seq<u8>) -> Result<
    Comments,
    lewton::header::HeaderReadError,
>;

/// Calls `lewton::header::read_header_comment`. Not verified: the outcome is
/// taken to be the one named by [`parsed_block`], which depends on the bytes
/// alone. The vendor and the tags are moved over as lewton returns them, and
/// so is the error.
///
/// lewton allocates a buffer of each size the packet states, and a list for
/// as many tags as it states, before it reads; the requirement bounds those
/// sizes by the packet's own length.
///
/// The last clause is what lewton is for: it reads the layout that
/// [`comment_block`] writes. It checks the signature, takes the vendor by
/// its stated length, then as many tags as are stated, each by its stated
/// length and parted at its first `=`, and asks for the closing byte 1. So
/// a block that was laid out from a list whose keys hold no `=` is read as
/// that list.
#[verifier::external_body]
pub(crate) fn parse_block(packet: &[u8]) -> (read: Result<
    CommentHeader,
    lewton::header::HeaderReadError,
>)
    requires
        sizes_within(packet@),
    ensures
        match read {
            Ok(header) => parsed_block(packet@) == Ok::<Comments, lewton::header::HeaderReadError>(
                header@,
            ),
            Err(error) => parsed_block(packet@) == Err::<Comments, lewton::header::HeaderReadError>(
                error,
            ),
        },
        reads_back(packet@, list_of(read)),
{
    match lewton::header::read_header_comment(packet) {
        Ok(header) => Ok(CommentHeader { vendor: header.vendor, comment_list: header.comment_list }),
        Err(error) => Err(error),
    }
}

/// Makes `lewton::header::HeaderReadError::EndOfPacket`, lewton's error for
/// a packet that ends before what it announces. Nothing is claimed of it.
#[verifier::external_body]
pub(crate) fn end_of_packet() -> lewton::header::HeaderReadError {
    lewton::header::HeaderReadError::EndOfPacket
}

/// The size stated by the four bytes of a packet from `at` on.
pub open spec fn stated(packet: Seq<u8>, at: int) -> nat
    recommends
        0 <= at,
        at + 4 <= packet.len(),
{
    le_value(packet.subrange(at, at + 4))
}

/// Whether each of up to `left` tags from `at` on ends within the packet. A
/// tag whose four size bytes are cut short states no size.
pub open spec fn tags_within(packet: Seq<u8>, at: int, left: nat) -> bool
    decreases left,
{
    left == 0 || at + 4 > packet.len() || (at + 4 + stated(packet, at) <= packet.len()
        && tags_within(packet, at + 4 + stated(packet, at), (left - 1) as nat))
}

/// Whether every size that a packet states lies within the packet: the
/// vendor ends within it, the stated number of tags leaves four bytes for
/// each, and each tag ends within it. A packet that does not begin with the
/// signature of a comment packet states no size.
pub open spec fn sizes_within(packet: Seq<u8>) -> bool {
    if packet.len() < 11 || packet.take(7) != signature() {
        true
    } else {
        let vendor = stated(packet, 7) as int;
        &&& 11 + vendor <= packet.len()
        &&& 15 + vendor <= packet.len() ==> {
            let count = stated(packet, 11 + vendor);
            &&& 4 * count <= packet.len() - (15 + vendor)
            &&& tags_within(packet, 15 + vendor, count)
        }
    }
}

/// The comment list that a packet holds, if it holds one: what lewton reads
/// from a packet whose stated sizes lie within it.
pub open spec fn comment_block_in(packet: Seq<u8>) -> Option<Comments> {
    if sizes_within(packet) {
        match parsed_block(packet) {
            Ok(comments) => Some(comments),
            Err(_) => None,
        }
    } else {
        None
    }
}

/// The part of a packet that lewton is handed: all of it where its stated
/// sizes lie within it; else what comes before the count of tags, where the
/// vendor lies within it; else the signature alone.
pub open spec fn handed(packet: Seq<u8>) -> Seq<u8> {
    if sizes_within(packet) {
        packet
    } else if 11 + stated(packet, 7) <= packet.len() {
        packet.take(11 + stated(packet, 7) as int)
    } else {
        packet.take(7)
    }
}

/// Whether an error is the one that lewton reports for what it is handed of
/// a packet. Where lewton reports none, no error is singled out.
pub open spec fn is_cause(packet: Seq<u8>, error: lewton::header::HeaderReadError) -> bool {
    parsed_block(handed(packet)) is Err ==> parsed_block(handed(packet)) == Err::<
        Comments,
        lewton::header::HeaderReadError,
    >(error)
}

/// The stated sizes of what lewton is handed lie within it.
pub proof fn lemma_handed_sizes_within(packet: Seq<u8>)
    ensures
        sizes_within(handed(packet)),
{
    if !sizes_within(packet) && 11 + stated(packet, 7) <= packet.len() {
        let part = handed(packet);
        assert(part.take(7) =~= packet.take(7));
        assert(part.subrange(7, 11) =~= packet.subrange(7, 11));
    }
}

proof fn lemma_tags_within(packet: Seq<u8>, at: int, entries: Seq<Tag>)
    requires
        0 <= at,
        at + tags_bytes(entries).len() <= packet.len(),
        packet.subrange(at, at + tags_bytes(entries).len()) == tags_bytes(entries),
        forall|i: int|
            0 <= i < entries.len() ==> encode_utf8(tag_text(#[trigger] entries[i])).len()
                <= u32::MAX,
    ensures
        tags_within(packet, at, entries.len()),
        tags_bytes(entries).len() >= 4 * entries.len(),
    decreases entries.len(),
{
    if entries.len() > 0 {
        lemma_tags_bytes_from_the_front(entries);
        let all = tags_bytes(entries);
        let text = encode_utf8(tag_text(entries[0]));
        let rest = entries.skip(1);
        let next = at + 4 + text.len();
        let part = packet.subrange(at, at + all.len());
        lemma_le_value_of_le_bytes(text.len());
        assert forall|k: int| 0 <= k < 4 implies packet.subrange(at, at + 4)[k] == le_bytes(
            text.len(),
        )[k] by {
            assert(part[k] == all[k]);
        }
        assert(packet.subrange(at, at + 4) =~= le_bytes(text.len()));
        assert forall|k: int| 0 <= k < tags_bytes(rest).len() implies packet.subrange(
            next,
            next + tags_bytes(rest).len(),
        )[k] == tags_bytes(rest)[k] by {
            assert(part[4 + text.len() + k] == all[4 + text.len() + k]);
        }
        assert(packet.subrange(next, next + tags_bytes(rest).len()) =~= tags_bytes(rest));
        assert forall|i: int| 0 <= i < rest.len() implies encode_utf8(
            tag_text(#[trigger] rest[i]),
        ).len() <= u32::MAX by {
            assert(rest[i] == entries[i + 1]);
        }
        lemma_tags_within(packet, next, rest);
    }
}

/// The sizes that a laid-out block states lie within it.
pub proof fn lemma_block_sizes_within(comments: Comments)
    requires
        encodable(comments),
    ensures
        sizes_within(comment_block(comments)),
{
    let block = comment_block(comments);
    let vendor = encode_utf8(comments.vendor);
    let tags = tags_bytes(comments.entries);
    let at: int = 15 + vendor.len() as int;
    lemma_le_value_of_le_bytes(vendor.len());
    lemma_le_value_of_le_bytes(comments.entries.len());
    assert(block.take(7) =~= signature());
    assert(block.subrange(7, 11) =~= le_bytes(vendor.len()));
    assert(block.subrange(at - 4, at) =~= le_bytes(comments.entries.len()));
    assert(block.subrange(at, at + tags.len()) =~= tags);
    lemma_tags_within(block, at, comments.entries);
}

fn stated_at(packet: &[u8], at: usize) -> (size: u32)
    requires
        at + 4 <= packet.len(),
    ensures
        size == stated(packet@, at as int),
{
    let b0: u32 = packet[at] as u32;
    let b1: u32 = packet[at + 1] as u32;
    let b2: u32 = packet[at + 2] as u32;
    let b3: u32 = packet[at + 3] as u32;
    b0 + 256 * b1 + 65536 * b2 + 16777216 * b3
}

fn begins_with_signature(packet: &[u8]) -> (begins: bool)
    requires
        packet.len() >= 7,
    ensures
        begins == (packet@.take(7) == signature()),
{
    let begins = packet[0] == 3 && packet[1] == 118 && packet[2] == 111 && packet[3] == 114
        && packet[4] == 98 && packet[5] == 105 && packet[6] == 115;
    proof {
        let head = packet@.take(7);
        if begins {
            assert(head =~= signature());
        } else {
            if head == signature() {
                assert(head[0] == 3 && head[1] == 118 && head[2] == 111 && head[3] == 114);
                assert(head[4] == 98 && head[5] == 105 && head[6] == 115);
            }
        }
    }
    begins
}

/// Whether every size that a packet states lies within the packet.
pub fn sizes_within_packet(packet: &[u8]) -> (within: bool)
    ensures
        within == sizes_within(packet@),
{
    let len = packet.len();
    if len < 11 || !begins_with_signature(packet) {
        return true;
    }
    let vendor = stated_at(packet, 7) as usize;
    if vendor > len - 11 {
        return false;
    }
    let mut at: usize = 11 + vendor;
    if len - at < 4 {
        return true;
    }
    let count = stated_at(packet, at) as usize;
    at += 4;
    if count > (len - at) / 4 {
        return false;
    }
    let mut left: usize = count;
    while left > 0 && len - at >= 4
        invariant
            len == packet.len(),
            at <= len,
            sizes_within(packet@) == tags_within(packet@, at as int, left as nat),
        decreases left,
    {
        let size = stated_at(packet, at) as usize;
        if size > len - at - 4 {
            return false;
        }
        at += 4 + size;
        left -= 1;
    }
    true
}

/// Reads the comment list that a packet holds.
///
/// A packet that states a size beyond its own end holds none. The error is
/// lewton's own in either case: for such a packet, the one that it reports
/// where the packet is cut short of that size. A block that was laid out
/// from a list whose keys hold no `=` is read back as that list.
pub fn read_comment_block(packet: &[u8]) -> (read: Result<
    CommentHeader,
    lewton::header::HeaderReadError,
>)
    ensures
        match read {
            Ok(header) => comment_block_in(packet@) == Some(header@),
            Err(error) => comment_block_in(packet@) is None && is_cause(packet@, error),
        },
        reads_back(packet@, list_of(read)),
{
    proof {
        assert forall|comments: Comments| #[trigger]
            laid_out_from(packet@, comments) implies sizes_within(packet@) by {
            lemma_block_sizes_within(comments);
        }
    }
    if sizes_within_packet(packet) {
        parse_block(packet)
    } else {
        let vendor = stated_at(packet, 7) as usize;
        let end: usize = if vendor <= packet.len() - 11 {
            11 + vendor
        } else {
            7
        };
        let part = slice_subrange(packet, 0, end);
        proof {
            lemma_handed_sizes_within(packet@);
            assert(part@ =~= handed(packet@));
        }
        match parse_block(part) {
            Err(error) => Err(error),
            Ok(_) => Err(end_of_packet()),
        }
    }
}

} // verus!
