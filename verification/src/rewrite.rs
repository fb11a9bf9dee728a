//! Rewriting a container so that its comment packet holds a new comment list.
//!
//! The packets of the container are passed on one by one, each with its
//! serial number, its granule position and the end that its own flags call
//! for. The first packet that holds a comment block is passed on with the
//! new block in place of its payload. The run ends with the packet that is
//! the last of its page and of its stream, or when no packet is left.

use vstd::prelude::*;
use crate::comments::CommentHeader;
use crate::seqs::{
    first_index, lemma_first_index, lemma_first_index_is, lemma_first_index_next,
    lemma_first_index_of_prefix,
};
use crate::container::{
    Packet, PacketView, PacketEnd, Outgoing, Written, container_packets, container_bytes,
    upcoming, written, write_fails, open_source, open_sink, next_packet, write_packet,
    close_sink,
};
use crate::decode::{comment_block_in, read_comment_block};
use crate::comments::Comments;
use crate::encode::{comment_block, encodable, safe_make_comment_header, VorbisMakeCommentError};

verus! {

/// Rewriting a container failed.
#[derive(Debug)]
pub enum VorbisReplaceCommentError {
    /// The writer reported an error.
    FailedReadOggFile(std::io::Error),
    /// The new comment list cannot be laid out.
    FailedMakeComment(VorbisMakeCommentError),
}

impl From<VorbisMakeCommentError> for VorbisReplaceCommentError {
    fn from(error: VorbisMakeCommentError) -> (made: VorbisReplaceCommentError) {
        VorbisReplaceCommentError::FailedMakeComment(error)
    }
}

impl vstd::std_specs::convert::FromSpecImpl<VorbisMakeCommentError> for VorbisReplaceCommentError {
    open spec fn obeys_from_spec() -> bool {
        true
    }

    open spec fn from_spec(error: VorbisMakeCommentError) -> VorbisReplaceCommentError {
        VorbisReplaceCommentError::FailedMakeComment(error)
    }
}

impl From<std::io::Error> for VorbisReplaceCommentError {
    fn from(error: std::io::Error) -> (made: VorbisReplaceCommentError) {
        VorbisReplaceCommentError::FailedReadOggFile(error)
    }
}

impl vstd::std_specs::convert::FromSpecImpl<std::io::Error> for VorbisReplaceCommentError {
    open spec fn obeys_from_spec() -> bool {
        true
    }

    open spec fn from_spec(error: std::io::Error) -> VorbisReplaceCommentError {
        VorbisReplaceCommentError::FailedReadOggFile(error)
    }
}

/// What ends with a packet when it is passed on: its stream if it is the
/// last of its stream, else its page if it is the last of its page, else
/// nothing.
pub open spec fn end_of(packet: PacketView) -> PacketEnd {
    if packet.last_in_stream {
        PacketEnd::EndStream
    } else if packet.last_in_page {
        PacketEnd::EndPage
    } else {
        PacketEnd::NormalPacket
    }
}

/// Whether a packet is the last of its page and of its stream: the run ends
/// with it.
pub open spec fn ends_run(packet: PacketView) -> bool {
    packet.last_in_stream && packet.last_in_page
}

/// Whether a packet holds a comment block.
pub open spec fn holds_comments(packet: PacketView) -> bool {
    comment_block_in(packet.data) is Some
}

/// [`ends_run`] as a condition on packets.
pub open spec fn run_end() -> spec_fn(PacketView) -> bool {
    |packet: PacketView| ends_run(packet)
}

/// [`holds_comments`] as a condition on packets.
pub open spec fn holder() -> spec_fn(PacketView) -> bool {
    |packet: PacketView| holds_comments(packet)
}

/// A packet as it is passed on with the given payload.
pub open spec fn passed_on(packet: PacketView, data: Seq<u8>) -> Written {
    Written { data, stream_serial: packet.stream_serial, end: end_of(packet), absgp: packet.absgp_page }
}

/// How many packets of a container are passed on: those up to the first that
/// is the last of its page and of its stream, and that one; all where there
/// is no such packet.
pub open spec fn passed_len(packets: Seq<PacketView>) -> int {
    if first_index(packets, run_end()) < packets.len() {
        first_index(packets, run_end()) + 1
    } else {
        packets.len() as int
    }
}

/// The packets as they are passed on when all of them are: each as it is, but
/// the first that holds a comment block with `block` as its payload.
pub open spec fn copied(packets: Seq<PacketView>, block: Seq<u8>) -> Seq<Written> {
    Seq::new(
        packets.len(),
        |i: int|
            passed_on(
                packets[i],
                if i == first_index(packets, holder()) {
                    block
                } else {
                    packets[i].data
                },
            ),
    )
}

/// The index of the packet that is replaced, or [`passed_len`] where none is.
pub open spec fn replaced_at(packets: Seq<PacketView>) -> int {
    first_index(packets.take(passed_len(packets)), holder())
}

/// The packets that are written when a container with the given packets is
/// rewritten to hold `block`.
pub open spec fn rewritten(packets: Seq<PacketView>, block: Seq<u8>) -> Seq<Written> {
    copied(packets.take(passed_len(packets)), block)
}

/// The packets that are written when the container with the given bytes is
/// rewritten to hold the given comment list.
pub open spec fn replacement(bytes: Seq<u8>, comments: Comments) -> Seq<Written> {
    rewritten(container_packets(bytes), comment_block(comments))
}

/// Whether the writer reports an error at one of the packets when it is
/// handed them in their order.
pub open spec fn some_write_fails(packets: Seq<Written>) -> bool {
    exists|i: int| 0 <= i < packets.len() && write_fails(#[trigger] packets.take(i), packets[i])
}

/// The first packets that are written are what is written of the first
/// packets of the container.
pub proof fn lemma_rewritten_prefix(packets: Seq<PacketView>, block: Seq<u8>, m: int)
    requires
        0 <= m <= passed_len(packets),
    ensures
        passed_len(packets) <= packets.len(),
        rewritten(packets, block).take(m) == copied(packets.take(m), block),
{
    lemma_first_index(packets, run_end());
    let run = packets.take(passed_len(packets));
    assert(run.take(m) =~= packets.take(m));
    lemma_first_index_of_prefix(run, holder(), m);
    assert(rewritten(packets, block).take(m) =~= copied(packets.take(m), block));
}

/// Of a rewritten container: as many packets are written as are passed on;
/// each has the serial number and the granule position of the packet it
/// stands for, and the end that this packet's flags call for; the payload is
/// the new block for the first packet that holds a comment block, and the
/// packet's own for every other.
pub proof fn lemma_rewritten_packets(packets: Seq<PacketView>, block: Seq<u8>)
    ensures
        rewritten(packets, block).len() == passed_len(packets),
        0 <= replaced_at(packets) <= passed_len(packets) <= packets.len(),
        replaced_at(packets) < passed_len(packets) ==> holds_comments(
            packets[replaced_at(packets)],
        ),
        forall|i: int| 0 <= i < replaced_at(packets) ==> !holds_comments(#[trigger] packets[i]),
        forall|i: int|
            0 <= i < passed_len(packets) ==> (#[trigger] rewritten(packets, block)[i])
                == passed_on(
                packets[i],
                if i == replaced_at(packets) {
                    block
                } else {
                    packets[i].data
                },
            ),
{
    lemma_first_index(packets, run_end());
    let run = packets.take(passed_len(packets));
    lemma_first_index(run, holder());
    if replaced_at(packets) < passed_len(packets) {
        assert(run[replaced_at(packets)] == packets[replaced_at(packets)]);
    }
    assert forall|i: int| 0 <= i < replaced_at(packets) implies !holds_comments(
        #[trigger] packets[i],
    ) by {
        assert(run[i] == packets[i]);
    }
}

/// The run ends with the first packet that is the last of its page and of
/// its stream: no packet before the last one passed on is such a packet, and
/// where packets are left over, the last one passed on is.
pub proof fn lemma_run_ends_with_last(packets: Seq<PacketView>)
    ensures
        0 <= passed_len(packets) <= packets.len(),
        forall|i: int| 0 <= i < passed_len(packets) - 1 ==> !ends_run(#[trigger] packets[i]),
        passed_len(packets) < packets.len() ==> ends_run(packets[passed_len(packets) - 1]),
{
    lemma_first_index(packets, run_end());
}

/// Where no packet holds a comment block, every packet is passed on as it
/// is.
pub proof fn lemma_nothing_to_replace(packets: Seq<PacketView>, block: Seq<u8>)
    requires
        forall|i: int| 0 <= i < packets.len() ==> !holds_comments(#[trigger] packets[i]),
    ensures
        replaced_at(packets) == passed_len(packets),
        forall|i: int|
            0 <= i < passed_len(packets) ==> (#[trigger] rewritten(packets, block)[i])
                == passed_on(packets[i], packets[i].data),
{
    lemma_first_index(packets, run_end());
    let run = packets.take(passed_len(packets));
    assert forall|i: int| 0 <= i < run.len() implies !holder()(#[trigger] run[i]) by {
        assert(run[i] == packets[i]);
    }
    lemma_first_index_is(run, holder(), run.len() as int);
}

/// What ends with a packet when it is passed on.
pub fn packet_end(packet: &Packet) -> (end: PacketEnd)
    ensures
        end == end_of(packet@),
{
    if packet.last_in_stream {
        PacketEnd::EndStream
    } else if packet.last_in_page {
        PacketEnd::EndPage
    } else {
        PacketEnd::NormalPacket
    }
}

fn copy_of(bytes: &Vec<u8>) -> (copy: Vec<u8>)
    ensures
        copy@ == bytes@,
{
    let mut copy: Vec<u8> = Vec::new();
    copy.extend_from_slice(bytes.as_slice());
    assert(copy@ =~= bytes@);
    copy
}

/// The state of one run: the block to put in, and whether it has been.
#[derive(Debug)]
pub struct Rewriter {
    /// The bytes of the new comment block.
    pub block: Vec<u8>,
    /// Whether a packet has been replaced.
    pub replaced: bool,
}

impl Rewriter {
    /// The state at the start of a run.
    pub fn new(block: Vec<u8>) -> (rewriter: Rewriter)
        ensures
            rewriter.block == block,
            !rewriter.replaced,
    {
        Rewriter { block, replaced: false }
    }

    /// Passes a packet on, given whether it holds a comment block: with the
    /// new block as its payload if it does and none was replaced before,
    /// else as it is.
    pub fn pass(&mut self, packet: Packet, holds_block: bool) -> (out: Outgoing)
        ensures
            final(self).block == old(self).block,
            final(self).replaced == (old(self).replaced || holds_block),
            out@ == passed_on(
                packet@,
                if holds_block && !old(self).replaced {
                    old(self).block@
                } else {
                    packet@.data
                },
            ),
    {
        let end = packet_end(&packet);
        let data = if holds_block && !self.replaced {
            self.replaced = true;
            copy_of(&self.block)
        } else {
            packet.data
        };
        Outgoing { data, stream_serial: packet.stream_serial, end, absgp: packet.absgp_page }
    }

    /// Passes a packet on, looking for a comment block in it as long as none
    /// has been replaced.
    pub fn rewrite(&mut self, packet: Packet) -> (out: Outgoing)
        ensures
            final(self).block == old(self).block,
            final(self).replaced == (old(self).replaced || holds_comments(packet@)),
            out@ == passed_on(
                packet@,
                if holds_comments(packet@) && !old(self).replaced {
                    old(self).block@
                } else {
                    packet@.data
                },
            ),
    {
        let holds_block = !self.replaced && read_comment_block(packet.data.as_slice()).is_ok();
        self.pass(packet, holds_block)
    }
}

proof fn lemma_copied_next(packets: Seq<PacketView>, block: Seq<u8>, i: int)
    requires
        0 <= i < packets.len(),
    ensures
        copied(packets.take(i + 1), block) == copied(packets.take(i), block).push(
            passed_on(
                packets[i],
                if holds_comments(packets[i]) && !(first_index(packets.take(i), holder()) < i) {
                    block
                } else {
                    packets[i].data
                },
            ),
        ),
{
    let short = packets.take(i);
    let long = packets.take(i + 1);
    lemma_first_index_next(packets, holder(), i);
    lemma_first_index(short, holder());
    let next = passed_on(
        packets[i],
        if holds_comments(packets[i]) && !(first_index(short, holder()) < i) {
            block
        } else {
            packets[i].data
        },
    );
    assert forall|j: int| 0 <= j < i + 1 implies copied(long, block)[j] == copied(
        short,
        block,
    ).push(next)[j] by {
        if j < i {
            assert(long[j] == short[j]);
        } else {
            assert(long[j] == packets[i]);
        }
    }
    assert(copied(long, block) =~= copied(short, block).push(next));
}

/// Rewrites a container, given as its bytes, so that its comment packet holds
/// the new comment list, and returns the bytes of the new container.
///
/// A read that yields no packet ends the run, whether the bytes have ended or
/// are not what the reader accepts; what was written up to then is the
/// result. A container without a comment packet is copied. The call fails
/// where the new list cannot be laid out, before anything is read, and where
/// the writer reports an error.
pub fn safe_replace_comment_header(f_in: Vec<u8>, new_header: CommentHeader) -> (replaced: Result<
    Vec<u8>,
    VorbisReplaceCommentError,
>)
    ensures
        replaced is Ok <==> encodable(new_header@) && !some_write_fails(
            replacement(f_in@, new_header@),
        ),
        replaced matches Ok(out) ==> out@ == container_bytes(replacement(f_in@, new_header@)),
        (replaced matches Err(VorbisReplaceCommentError::FailedMakeComment(_))) <==> !encodable(
            new_header@,
        ),
{
    let ghost packets = container_packets(f_in@);
    let ghost block = comment_block(new_header@);
    let made = match safe_make_comment_header(&new_header) {
        Ok(made) => made,
        Err(error) => {
            return Err(VorbisReplaceCommentError::from(error));
        },
    };
    let mut rewriter = Rewriter::new(made);
    let mut source = open_source(f_in);
    let mut sink = open_sink();
    let ghost mut i: int = 0;
    proof {
        assert(packets.skip(0) =~= packets);
        assert(copied(packets.take(0), block) =~= Seq::<Written>::empty());
    }
    loop
        invariant_except_break
            0 <= i <= packets.len(),
            upcoming(source) == packets.skip(i),
            forall|j: int| 0 <= j < i ==> !ends_run(#[trigger] packets[j]),
            written(sink) == copied(packets.take(i), block),
            rewriter.block@ == block,
            rewriter.replaced == (first_index(packets.take(i), holder()) < i),
        invariant
            encodable(new_header@),
            packets == container_packets(f_in@),
            block == comment_block(new_header@),
            forall|j: int|
                0 <= j < written(sink).len() ==> !write_fails(
                    #[trigger] written(sink).take(j),
                    written(sink)[j],
                ),
        ensures
            written(sink) == rewritten(packets, block),
        decreases packets.len() - i,
    {
        match next_packet(&mut source) {
            Ok(Some(packet)) => {
                proof {
                    assert(packets.skip(i).len() > 0);
                    assert(packet@ == packets[i]);
                    assert(packets.skip(i).skip(1) =~= packets.skip(i + 1));
                    lemma_copied_next(packets, block, i);
                    lemma_first_index_next(packets, holder(), i);
                    lemma_first_index(packets.take(i), holder());
                }
                let is_final = packet.last_in_stream && packet.last_in_page;
                let out = rewriter.rewrite(packet);
                let ghost before = written(sink);
                let ghost next = out@;
                sink = match write_packet(sink, out) {
                    Ok(sink) => sink,
                    Err(error) => {
                        proof {
                            let all = rewritten(packets, block);
                            lemma_first_index(packets, run_end());
                            lemma_rewritten_prefix(packets, block, i + 1);
                            assert(all.take(i + 1) == before.push(next));
                            assert(all.take(i) =~= all.take(i + 1).take(i));
                            assert(all.take(i) =~= before);
                            assert(all[i] == all.take(i + 1)[i]);
                            assert(write_fails(all.take(i), all[i]));
                        }
                        return Err(VorbisReplaceCommentError::from(error));
                    },
                };
                proof {
                    let after = written(sink);
                    assert forall|j: int| 0 <= j < after.len() implies !write_fails(
                        #[trigger] after.take(j),
                        after[j],
                    ) by {
                        if j < before.len() {
                            assert(after.take(j) =~= before.take(j));
                        } else {
                            assert(after.take(j) =~= before);
                        }
                    }
                }
                if is_final {
                    proof {
                        assert(run_end()(packets[i]));
                        lemma_first_index_is(packets, run_end(), i);
                    }
                    break;
                }
                proof {
                    i = i + 1;
                }
            },
            _ => {
                proof {
                    assert(packets.skip(i).len() == 0);
                    assert(i == packets.len());
                    lemma_first_index_is(packets, run_end(), i);
                    assert(packets.take(i) =~= packets);
                }
                break;
            },
        }
    }
    Ok(close_sink(sink))
}

} // verus!
