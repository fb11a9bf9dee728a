//! The Ogg container, seen as the packets it holds.
//!
//! Taking a container apart into packets and putting packets together into
//! pages is ogg's work. This module holds a packet as plain values, and gives
//! names to what ogg reads from bytes and to the bytes it writes.

use vstd::prelude::*;

verus! {

/// `ogg::OggReadError`, the error of ogg's reader, carried through unread.
#[verifier::external_type_specification]
#[verifier::external_body]
pub struct ExOggReadError(ogg::OggReadError);

/// `std::io::Error`, the error of ogg's writer, carried through unread.
#[verifier::external_type_specification]
#[verifier::external_body]
pub struct ExIoError(std::io::Error);

/// One packet of a container, with what its page says of it.
#[derive(Clone, Debug, PartialEq, Eq)]
pub struct Packet {
    /// The payload.
    pub data: Vec<u8>,
    /// Whether the packet is the first one of its page.
    pub first_in_page: bool,
    /// Whether the packet is the first one of its logical stream.
    pub first_in_stream: bool,
    /// Whether the packet is the last one of its page.
    pub last_in_page: bool,
    /// Whether the packet is the last one of its logical stream.
    pub last_in_stream: bool,
    /// The granule position of the page in which the packet ends.
    pub absgp_page: u64,
    /// The serial number of the logical stream.
    pub stream_serial: u32,
}

/// A packet as the contracts see it.
pub struct PacketView {
    pub data: Seq<u8>,
    pub first_in_page: bool,
    pub first_in_stream: bool,
    pub last_in_page: bool,
    pub last_in_stream: bool,
    pub absgp_page: u64,
    pub stream_serial: u32,
}

impl View for Packet {
    type V = PacketView;

    open spec fn view(&self) -> PacketView {
        PacketView {
            data: self.data@,
            first_in_page: self.first_in_page,
            first_in_stream: self.first_in_stream,
            last_in_page: self.last_in_page,
            last_in_stream: self.last_in_stream,
            absgp_page: self.absgp_page,
            stream_serial: self.stream_serial,
        }
    }
}

/// What ends with a packet that is written.
#[derive(Clone, Copy, Debug, PartialEq, Eq, Structural)]
pub enum PacketEnd {
    /// Nothing: more packets follow in the page.
    NormalPacket,
    /// The page.
    EndPage,
    /// The logical stream, and with it the page.
    EndStream,
}

/// A packet as it is handed to the writer.
#[derive(Clone, Debug, PartialEq, Eq)]
pub struct Outgoing {
    /// The payload.
    pub data: Vec<u8>,
    /// The serial number of the logical stream.
    pub stream_serial: u32,
    /// What ends with the packet.
    pub end: PacketEnd,
    /// The granule position that goes with the packet.
    pub absgp: u64,
}

/// A written packet as the contracts see it.
pub struct Written {
    pub data: Seq<u8>,
    pub stream_serial: u32,
    pub end: PacketEnd,
    pub absgp: u64,
}

impl View for Outgoing {
    type V = Written;

    open spec fn view(&self) -> Written {
        Written {
            data: self.data@,
            stream_serial: self.stream_serial,
            end: self.end,
            absgp: self.absgp,
        }
    }
}

/// A container that is being read: an `ogg::PacketReader` over bytes in
/// memory.
///
/// The reader is generic over `std::io::Read + std::io::Seek`, bounds that
/// Verus does not take in a type declaration; so it is held here, out of the
/// verifier's sight, and spoken of through [`upcoming`].
#[verifier::external_body]
pub struct PacketSource {
    inner: ogg::PacketReader<std::io::Cursor<Vec<u8>>>,
}

/// A container that is being written: an `ogg::PacketWriter` into memory.
///
/// Held out of the verifier's sight for the same reason as [`PacketSource`],
/// and spoken of through [`written`].
#[verifier::external_body]
pub struct PacketSink {
    inner: ogg::PacketWriter<'static, std::io::Cursor<Vec<u8>>>,
}

/// The packets that ogg reads from the bytes of a container, one after the
/// other, up to the first read that yields no packet: because the bytes have
/// come to their end, or because they are not what ogg accepts.
pub uninterp spec fn container_packets(bytes: Seq<u8>) -> Seq<PacketView>;

/// The packets that a source has yet to yield, up to its first read that
/// yields none.
pub uninterp spec fn upcoming(source: PacketSource) -> Seq<PacketView>;

/// The packets that a sink has been handed, in their order.
pub uninterp spec fn written(sink: PacketSink) -> Seq<Written>;

/// Whether `ogg::PacketWriter::write_packet` reports an error when a sink
/// that has been handed `before` is handed `packet`.
pub uninterp spec fn write_fails(before: Seq<Written>, packet: Written) -> bool;

/// The bytes of the container that ogg has written once it has been handed
/// these packets in this order: the pages it has completed.
pub uninterp spec fn container_bytes(packets: Seq<Written>) -> Seq<u8>;

/// Calls `ogg::PacketReader::new` on a cursor over the bytes. Not verified:
/// the packets that the new source will yield are taken to be those named by
/// [`container_packets`], which depend on the bytes alone.
#[verifier::external_body]
pub(crate) fn open_source(bytes: Vec<u8>) -> (source: PacketSource)
    ensures
        upcoming(source) == container_packets(bytes@),
{
    PacketSource { inner: ogg::PacketReader::new(std::io::Cursor::new(bytes)) }
}

/// Calls `ogg::PacketReader::read_packet`. Not verified: a source that has a
/// packet to yield is taken to yield it, with its flags, granule position and
/// serial number as ogg reports them, and to go on to the next; one that has
/// none returns that the bytes have ended, or an error.
#[verifier::external_body]
pub(crate) fn next_packet(source: &mut PacketSource) -> (read: Result<
    Option<Packet>,
    ogg::OggReadError,
>)
    ensures
        upcoming(*old(source)).len() > 0 ==> (read matches Ok(Some(packet)) && packet@
            == upcoming(*old(source))[0] && upcoming(*final(source)) == upcoming(
            *old(source),
        ).skip(1)),
        upcoming(*old(source)).len() == 0 ==> !(read matches Ok(Some(_))),
{
    match source.inner.read_packet() {
        Ok(Some(p)) => Ok(Some(Packet {
            first_in_page: p.first_in_page(),
            first_in_stream: p.first_in_stream(),
            last_in_page: p.last_in_page(),
            last_in_stream: p.last_in_stream(),
            absgp_page: p.absgp_page(),
            stream_serial: p.stream_serial(),
            data: p.data,
        })),
        Ok(None) => Ok(None),
        Err(error) => Err(error),
    }
}

/// Calls `ogg::PacketReader::read_packet_expected`, which is `read_packet`
/// with the end of the bytes turned into an error. Not verified: a source
/// that has a packet to yield is taken to yield it and to go on to the next;
/// one that has none returns an error.
#[verifier::external_body]
pub(crate) fn expect_packet(source: &mut PacketSource) -> (read: Result<Packet, ogg::OggReadError>)
    ensures
        upcoming(*old(source)).len() > 0 ==> (read matches Ok(packet) && packet@ == upcoming(
            *old(source),
        )[0] && upcoming(*final(source)) == upcoming(*old(source)).skip(1)),
        upcoming(*old(source)).len() == 0 ==> read is Err,
{
    match source.inner.read_packet_expected() {
        Ok(p) => Ok(Packet {
            first_in_page: p.first_in_page(),
            first_in_stream: p.first_in_stream(),
            last_in_page: p.last_in_page(),
            last_in_stream: p.last_in_stream(),
            absgp_page: p.absgp_page(),
            stream_serial: p.stream_serial(),
            data: p.data,
        }),
        Err(error) => Err(error),
    }
}

/// Calls `ogg::PacketWriter::new` on a cursor over an empty buffer. Not
/// verified: the new sink has been handed nothing.
#[verifier::external_body]
pub(crate) fn open_sink() -> (sink: PacketSink)
    ensures
        written(sink) == Seq::<Written>::empty(),
{
    PacketSink { inner: ogg::PacketWriter::new(std::io::Cursor::new(Vec::new())) }
}

/// Calls `ogg::PacketWriter::write_packet`. Not verified: whether the call
/// fails is taken to be what [`write_fails`] names, which depends on what the
/// sink was handed before and on the packet alone, the sink writing into
/// memory. Where the call succeeds, the sink comes back and has been handed
/// one more packet. A sink whose write failed is given up, so that every
/// sink there is has taken all that it was handed.
#[verifier::external_body]
pub(crate) fn write_packet(sink: PacketSink, packet: Outgoing) -> (done: Result<
    PacketSink,
    std::io::Error,
>)
    ensures
        done is Err <==> write_fails(written(sink), packet@),
        done matches Ok(after) ==> written(after) == written(sink).push(packet@),
{
    let mut sink = sink;
    let inf = match packet.end {
        PacketEnd::NormalPacket => ogg::PacketWriteEndInfo::NormalPacket,
        PacketEnd::EndPage => ogg::PacketWriteEndInfo::EndPage,
        PacketEnd::EndStream => ogg::PacketWriteEndInfo::EndStream,
    };
    match sink.inner.write_packet(packet.data, packet.stream_serial, inf, packet.absgp) {
        Ok(()) => Ok(sink),
        Err(error) => Err(error),
    }
}

/// Calls `ogg::PacketWriter::into_inner`, and takes the buffer out of the
/// cursor. Not verified: the buffer is taken to hold the bytes named by
/// [`container_bytes`], which depend on the packets handed over alone.
#[verifier::external_body]
pub(crate) fn close_sink(sink: PacketSink) -> (bytes: Vec<u8>)
    ensures
        bytes@ == container_bytes(written(sink)),
{
    sink.inner.into_inner().into_inner()
}

} // verus!
