//! Reading the comment list of a container.

use vstd::prelude::*;
use crate::comments::CommentHeader;
use crate::container::{PacketView, container_packets, upcoming, open_source, expect_packet};
use crate::decode::{comment_block_in, is_cause, list_of, read_comment_block, reads_back};
use crate::seqs::{first_index, lemma_first_index_is};

verus! {

/// Reading the comment list of a container failed.
#[derive(Debug)]
pub enum VorbisReadCommentError {
    /// The container has no second packet in its first stream, or could not
    /// be read that far.
    FailedReadOggFile(ogg::OggReadError),
    /// The packet does not hold a comment block.
    FailedReadHeader(lewton::header::HeaderReadError),
}

impl From<ogg::OggReadError> for VorbisReadCommentError {
    fn from(error: ogg::OggReadError) -> (made: VorbisReadCommentError) {
        VorbisReadCommentError::FailedReadOggFile(error)
    }
}

impl vstd::std_specs::convert::FromSpecImpl<ogg::OggReadError> for VorbisReadCommentError {
    open spec fn obeys_from_spec() -> bool {
        true
    }

    open spec fn from_spec(error: ogg::OggReadError) -> VorbisReadCommentError {
        VorbisReadCommentError::FailedReadOggFile(error)
    }
}

impl From<lewton::header::HeaderReadError> for VorbisReadCommentError {
    fn from(error: lewton::header::HeaderReadError) -> (made: VorbisReadCommentError) {
        VorbisReadCommentError::FailedReadHeader(error)
    }
}

impl vstd::std_specs::convert::FromSpecImpl<lewton::header::HeaderReadError> for VorbisReadCommentError {
    open spec fn obeys_from_spec() -> bool {
        true
    }

    open spec fn from_spec(error: lewton::header::HeaderReadError) -> VorbisReadCommentError {
        VorbisReadCommentError::FailedReadHeader(error)
    }
}

/// Being of the stream with the given serial number, as a condition on
/// packets.
pub open spec fn of_stream(serial: u32) -> spec_fn(PacketView) -> bool {
    |packet: PacketView| packet.stream_serial == serial
}

/// The packet in which the comment block of the first stream is looked for:
/// the first one after the first packet that has the first packet's serial
/// number.
pub open spec fn comment_packet(packets: Seq<PacketView>) -> Option<PacketView> {
    if packets.len() == 0 {
        None
    } else {
        let rest = packets.skip(1);
        let at = first_index(rest, of_stream(packets[0].stream_serial));
        if at < rest.len() {
            Some(rest[at])
        } else {
            None
        }
    }
}

/// Reads the comment list of the first stream of a container, given as its
/// bytes.
pub fn safe_read_comment_header(f_in: Vec<u8>) -> (read: Result<
    CommentHeader,
    VorbisReadCommentError,
>)
    ensures
        match comment_packet(container_packets(f_in@)) {
            None => read matches Err(VorbisReadCommentError::FailedReadOggFile(_)),
            Some(packet) => match comment_block_in(packet.data) {
                Some(comments) => (read matches Ok(header) && header@ == comments),
                None => (read matches Err(VorbisReadCommentError::FailedReadHeader(error))
                    && is_cause(packet.data, error)),
            },
        },
        comment_packet(container_packets(f_in@)) matches Some(packet) ==> reads_back(
            packet.data,
            list_of(read),
        ),
{
    let ghost packets = container_packets(f_in@);
    let mut source = open_source(f_in);
    let first = match expect_packet(&mut source) {
        Ok(packet) => packet,
        Err(error) => {
            return Err(VorbisReadCommentError::from(error));
        },
    };
    let stream_serial = first.stream_serial;
    let ghost rest = packets.skip(1);
    let ghost mut i: int = 0;
    proof {
        assert(rest.skip(0) =~= rest);
    }
    loop
        invariant
            packets == container_packets(f_in@),
            packets.len() > 0,
            rest == packets.skip(1),
            stream_serial == packets[0].stream_serial,
            0 <= i <= rest.len(),
            upcoming(source) == rest.skip(i),
            forall|j: int| 0 <= j < i ==> !of_stream(stream_serial)(#[trigger] rest[j]),
        decreases rest.len() - i,
    {
        let packet = match expect_packet(&mut source) {
            Ok(packet) => packet,
            Err(error) => {
                proof {
                    assert(rest.skip(i).len() == 0);
                    lemma_first_index_is(rest, of_stream(stream_serial), i);
                }
                return Err(VorbisReadCommentError::from(error));
            },
        };
        proof {
            assert(rest.skip(i).len() > 0);
            assert(packet@ == rest[i]);
            assert(rest.skip(i).skip(1) =~= rest.skip(i + 1));
        }
        if packet.stream_serial == stream_serial {
            proof {
                lemma_first_index_is(rest, of_stream(stream_serial), i);
            }
            return match read_comment_block(packet.data.as_slice()) {
                Ok(header) => Ok(header),
                Err(error) => Err(VorbisReadCommentError::from(error)),
            };
        }
        proof {
            i = i + 1;
        }
    }
}

} // verus!
