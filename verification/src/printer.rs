//! The request/response client that drives a printer over a [`Transport`].
use vstd::prelude::*;
use vstd::slice::slice_to_vec;

use crate::codec::{
    decode_ack, decode_heartbeat, decode_info, decode_print_status, decode_rfid, heartbeat_status,
    info_decoded, info_key_code, print_status_decoded, rfid_decoded, HeartbeatStatus, InfoKey,
    InfoReading, PrintStatus, RfidInfo,
};
use crate::error::PrinterError;
use crate::packet::{
    drain_frames, frame, frames, lemma_reassembly, payloads_fit, receive_chunks, take_packets,
    NiimbotPacket, PacketError, MAX_PAYLOAD_LEN,
};
use crate::raster::{image_rows, packs_row, prints_rows, row_len, LumaImage};
use crate::session::{
    end_poll, exchange, handshake_run, job_run, lemma_exchange_shape, lemma_job_opening,
    lemma_exchange_unsettled_read, lemma_handshake_extend, lemma_polls_last, lemma_polls_step,
    lemma_job_opened, lemma_page_then_polls, lemma_requests_starved, lemma_skip_concat,
    page_requests,
    run_polls, run_requests,
};

verus! {

/// Bytes asked of the transport per read.
pub const PACKET_READ_SIZE: usize = 1024;

/// Reads made while waiting for the reply to a request.
pub const TRANSCEIVE_ATTEMPTS: usize = 6;

/// Milliseconds to wait after a read that brought no reply.
pub const TRANSCEIVE_DELAY_MS: u64 = 100;

/// Packet type with which the printer reports a device error.
pub const DEVICE_ERROR_TYPE: u8 = 219;

/// Packet type with which the printer refuses a request it does not support.
pub const UNSUPPORTED_TYPE: u8 = 0;

/// A byte channel to the printer.
pub trait Transport {
    /// Reads at most `length` bytes; fewer, or none, when no more are ready.
    fn read(&mut self, length: usize) -> std::io::Result<Vec<u8>>;

    /// Writes `data`, returning how many bytes were written.
    fn write(&mut self, data: &[u8]) -> std::io::Result<usize>;

    /// Waits `millis` milliseconds, to give the printer time to answer.
    fn pause(&mut self, millis: u64);

    /// Whether the link needs the connect handshake before a print job, as a
    /// Bluetooth link does; a serial link does not.
    fn requires_ble_handshake(&self) -> bool {
        false
    }
}

/// The requests that the client sends.
#[derive(Debug, Clone, Copy, PartialEq, Eq)]
pub enum RequestCode {
    GetInfo,
    GetRfid,
    Heartbeat,
    SetLabelType,
    SetLabelDensity,
    StartPrint,
    EndPrint,
    StartPagePrint,
    EndPagePrint,
    AllowPrintClear,
    SetDimension,
    SetQuantity,
    GetPrintStatus,
    Connect,
    GetPrinterStatus,
}

/// The packet type of each request on the wire.
pub open spec fn request_code(request: RequestCode) -> u8 {
    match request {
        RequestCode::GetInfo => 64,
        RequestCode::GetRfid => 26,
        RequestCode::Heartbeat => 220,
        RequestCode::SetLabelType => 35,
        RequestCode::SetLabelDensity => 33,
        RequestCode::StartPrint => 1,
        RequestCode::EndPrint => 243,
        RequestCode::StartPagePrint => 3,
        RequestCode::EndPagePrint => 227,
        RequestCode::AllowPrintClear => 32,
        RequestCode::SetDimension => 19,
        RequestCode::SetQuantity => 21,
        RequestCode::GetPrintStatus => 163,
        RequestCode::Connect => 193,
        RequestCode::GetPrinterStatus => 165,
    }
}

impl RequestCode {
    /// The request's packet type on the wire.
    pub fn code(self) -> (res: u8)
        ensures
            res == request_code(self),
    {
        match self {
            RequestCode::GetInfo => 64,
            RequestCode::GetRfid => 26,
            RequestCode::Heartbeat => 220,
            RequestCode::SetLabelType => 35,
            RequestCode::SetLabelDensity => 33,
            RequestCode::StartPrint => 1,
            RequestCode::EndPrint => 243,
            RequestCode::StartPagePrint => 3,
            RequestCode::EndPagePrint => 227,
            RequestCode::AllowPrintClear => 32,
            RequestCode::SetDimension => 19,
            RequestCode::SetQuantity => 21,
            RequestCode::GetPrintStatus => 163,
            RequestCode::Connect => 193,
            RequestCode::GetPrinterStatus => 165,
        }
    }
}

/// The request codes on the wire: GetInfo 0x40, GetRfid 0x1a, Heartbeat
/// 0xdc, SetLabelType 0x23, SetLabelDensity 0x21, StartPrint 0x01, EndPrint
/// 0xf3, StartPagePrint 0x03, EndPagePrint 0xe3, AllowPrintClear 0x20,
/// SetDimension 0x13, SetQuantity 0x15, GetPrintStatus 0xa3, Connect 0xc1 and
/// GetPrinterStatus 0xa5. No two requests share a code, and the RFID tag is
/// read with a request of type 0x1a answered by type 0x1b.
pub proof fn lemma_request_codes()
    ensures
        request_code(RequestCode::GetInfo) == 0x40,
        request_code(RequestCode::GetRfid) == 0x1a,
        request_code(RequestCode::Heartbeat) == 0xdc,
        request_code(RequestCode::SetLabelType) == 0x23,
        request_code(RequestCode::SetLabelDensity) == 0x21,
        request_code(RequestCode::StartPrint) == 0x01,
        request_code(RequestCode::EndPrint) == 0xf3,
        request_code(RequestCode::StartPagePrint) == 0x03,
        request_code(RequestCode::EndPagePrint) == 0xe3,
        request_code(RequestCode::AllowPrintClear) == 0x20,
        request_code(RequestCode::SetDimension) == 0x13,
        request_code(RequestCode::SetQuantity) == 0x15,
        request_code(RequestCode::GetPrintStatus) == 0xa3,
        request_code(RequestCode::Connect) == 0xc1,
        request_code(RequestCode::GetPrinterStatus) == 0xa5,
        forall|a: RequestCode, b: RequestCode| #[trigger] request_code(a) == #[trigger] request_code(b) ==> a == b,
        reply_code(RequestCode::GetRfid, 1) == 0x1b,
{
}

/// The packet type of the reply to `request`: its code plus `offset`, wrapping.
pub open spec fn reply_code(request: RequestCode, offset: u8) -> u8 {
    ((request_code(request) + offset) % 256) as u8
}

/// What the first packet among `packets` that settles a request awaiting a
/// reply of type `code` makes of it: a device error, a refusal, or that reply.
/// Packets of other types are skipped; `None` when no packet settles it.
pub open spec fn first_settling(packets: Seq<(u8, Seq<u8>)>, code: u8) -> Option<
    Result<(u8, Seq<u8>), PrinterError>,
>
    decreases packets.len(),
{
    if packets.len() == 0 {
        None
    } else if packets[0].0 == DEVICE_ERROR_TYPE {
        Some(Err(PrinterError::DeviceError))
    } else if packets[0].0 == UNSUPPORTED_TYPE {
        Some(Err(PrinterError::UnsupportedResponse))
    } else if packets[0].0 == code {
        Some(Ok(packets[0]))
    } else {
        first_settling(packets.drop_first(), code)
    }
}

/// A packet that [`first_settling`] takes for the reply has the awaited type,
/// and an error it reports is one the printer sent.
pub(crate) proof fn lemma_settling_shape(packets: Seq<(u8, Seq<u8>)>, code: u8)
    ensures
        first_settling(packets, code) matches Some(Ok(r)) ==> r.0 == code,
        first_settling(packets, code) matches Some(Err(e)) ==> (e is DeviceError
            || e is UnsupportedResponse),
    decreases packets.len(),
{
    if packets.len() > 0 {
        lemma_settling_shape(packets.drop_first(), code);
    }
}

/// Looks through received packets, in order, for the first one that settles
/// a request whose reply has type `code`; see [`first_settling`].
pub fn find_reply(packets: Vec<NiimbotPacket>, code: u8) -> (res: Result<
    Option<NiimbotPacket>,
    PrinterError,
>)
    ensures
        match first_settling(packets@.map_values(|p: NiimbotPacket| p@), code) {
            None => res matches Ok(None),
            Some(Ok(reply)) => res matches Ok(Some(p)) && p@ == reply,
            Some(Err(e)) => res == Err::<Option<NiimbotPacket>, PrinterError>(e),
        },
{
    let ghost views = packets@.map_values(|p: NiimbotPacket| p@);
    let mut received = packets;
    let mut i: usize = 0;
    assert(views.skip(0) =~= views);
    while i < received.len()
        invariant
            received@ == packets@,
            views == packets@.map_values(|p: NiimbotPacket| p@),
            i <= received@.len(),
            first_settling(views, code) == first_settling(views.skip(i as int), code),
        decreases received@.len() - i,
    {
        let packet_type = received[i].packet_type();
        let ghost rest = views.skip(i as int);
        assert(rest[0] == received@[i as int]@);
        assert(rest.drop_first() =~= views.skip(i + 1));
        if packet_type == DEVICE_ERROR_TYPE {
            return Err(PrinterError::DeviceError);
        }
        if packet_type == UNSUPPORTED_TYPE {
            return Err(PrinterError::UnsupportedResponse);
        }
        if packet_type == code {
            let packet = received.remove(i);
            return Ok(Some(packet));
        }
        i = i + 1;
    }
    assert(views.skip(i as int) =~= Seq::<(u8, Seq<u8>)>::empty());
    Ok(None)
}

/// Failures of the exchange itself: the transport failed, a frame was
/// invalid, or the printer reported an error or refused the request.
pub open spec fn link_failure(e: PrinterError) -> bool {
    e is Io || e is Packet || e is DeviceError || e is UnsupportedResponse
}

/// `res` is what waiting for a reply makes of an exchange that ended with
/// `outcome` (see [`exchange`]): the reply, `None` when six reads brought
/// nothing that settles the request, the failure, or the transport's error
/// when a read failed.
pub open spec fn awaited(
    res: Result<Option<NiimbotPacket>, PrinterError>,
    outcome: Option<Result<(u8, Seq<u8>), PrinterError>>,
) -> bool {
    match outcome {
        Some(Ok(reply)) => res matches Ok(Some(p)) && p@ == reply,
        Some(Err(PrinterError::Timeout)) => res matches Ok(None),
        Some(Err(e)) => res == Err::<Option<NiimbotPacket>, PrinterError>(e),
        None => res matches Err(PrinterError::Io(_)),
    }
}

/// `res` fails as an exchange that ended with `outcome` does: with its
/// failure (a timeout when six reads brought nothing that settles it), or
/// with the transport's error when a read failed.
pub open spec fn failed_as<X>(
    res: Result<X, PrinterError>,
    outcome: Option<Result<(u8, Seq<u8>), PrinterError>>,
) -> bool {
    match outcome {
        Some(Ok(_)) => true,
        Some(Err(e)) => res == Err::<X, PrinterError>(e),
        None => res matches Err(PrinterError::Io(_)),
    }
}

/// `res` is the outcome of a command whose exchange ended with `outcome`:
/// whether the reply acknowledges it, or the failure of the exchange.
pub open spec fn command_result(
    res: Result<bool, PrinterError>,
    outcome: Option<Result<(u8, Seq<u8>), PrinterError>>,
) -> bool {
    &&& failed_as(res, outcome)
    &&& outcome matches Some(Ok(r)) ==> res == Ok::<bool, PrinterError>(acknowledges(r.1))
}

/// Widest image whose rows fit a packet: six header bytes and one bit per
/// pixel in at most 255 bytes of payload.
pub const MAX_IMAGE_WIDTH: u32 = 1992;

/// Whether a reply payload acknowledges its command: first byte non-zero.
pub open spec fn acknowledges(data: Seq<u8>) -> bool {
    data.len() > 0 && data[0] != 0
}

/// The two bytes of a number, most significant first.
pub open spec fn be_bytes(value: u16) -> Seq<u8> {
    seq![(value >> 8u16) as u8, value as u8]
}

fn u16_to_be(value: u16) -> (res: [u8; 2])
    ensures
        res@ == be_bytes(value),
{
    let res = [(value >> 8) as u8, value as u8];
    assert(res@ =~= be_bytes(value));
    res
}

/// Byte that goes before the connect frame of the Bluetooth handshake.
pub const BLE_CONNECT_PREFIX: u8 = 3;

/// Milliseconds to wait after the last page before asking whether the job
/// has ended.
pub const END_PRINT_SETTLE_MS: u64 = 300;

/// Whether a printer status payload reports the protocol in which the start of
/// a job and the page size carry the number of copies: byte 11 is 3 or more.
pub open spec fn is_new_protocol(status: Seq<u8>) -> bool {
    status.len() > 11 && status[11] >= 3
}

/// Whether a printer status payload reports the newer protocol; see
/// [`is_new_protocol`].
pub fn uses_new_protocol(status: &[u8]) -> (res: bool)
    ensures
        res == is_new_protocol(status@),
{
    status.len() > 11 && status[11] >= 3
}

/// `polls` requests asking whether the job has ended.
pub open spec fn end_polls(polls: nat) -> Seq<Seq<u8>> {
    Seq::new(polls, |i: int| end_poll())
}

/// The handshake of a Bluetooth link: the connect frame behind its prefix
/// byte, then the request for the printer's status.
pub open spec fn handshake_frames() -> Seq<Seq<u8>> {
    seq![
        seq![BLE_CONNECT_PREFIX] + frame(request_code(RequestCode::Connect), seq![1u8]),
        frame(request_code(RequestCode::GetPrinterStatus), seq![1u8]),
    ]
}

/// The copy count as the newer protocol writes it: two big-endian bytes and
/// seven zero bytes.
pub open spec fn copies_field(quantity: u16) -> Seq<u8> {
    be_bytes(quantity) + seq![0u8, 0u8, 0u8, 0u8, 0u8, 0u8, 0u8]
}

/// Payload of the command that starts a job.
pub open spec fn start_print_payload(quantity: u16, extended: bool) -> Seq<u8> {
    if extended {
        copies_field(quantity)
    } else {
        seq![1u8]
    }
}

/// Payload of the command that announces the page size: height, width and,
/// in the newer protocol, the copy count.
pub open spec fn dimension_payload(height: u16, width: u16, quantity: u16, extended: bool) -> Seq<
    u8,
> {
    be_bytes(height) + be_bytes(width) + if extended {
        copies_field(quantity)
    } else {
        Seq::empty()
    }
}

/// `after` is `before` followed by the first byte strings of `job`.
pub open spec fn sent_prefix_of(
    before: Seq<Seq<u8>>,
    after: Seq<Seq<u8>>,
    job: Seq<Seq<u8>>,
) -> bool {
    &&& before.len() <= after.len() <= before.len() + job.len()
    &&& after == before + job.take(after.len() - before.len())
}

/// Taking a prefix of a concatenation: a prefix that ends inside `a` is one of
/// `a`, and one that ends inside `b` is `a` followed by a prefix of `b`.
proof fn lemma_take_concat(a: Seq<Seq<u8>>, b: Seq<Seq<u8>>, k: int)
    requires
        0 <= k <= a.len() + b.len(),
    ensures
        k <= a.len() ==> (a + b).take(k) == a.take(k),
        a.len() <= k ==> (a + b).take(k) == a + b.take(k - a.len()),
{
    if k <= a.len() {
        assert((a + b).take(k) =~= a.take(k));
    }
    if a.len() <= k {
        assert((a + b).take(k) =~= a + b.take(k - a.len()));
    }
}

/// The copy count as the newer protocol writes it.
fn copies_bytes(quantity: u16) -> (res: [u8; 9])
    ensures
        res@ == copies_field(quantity),
{
    let q = u16_to_be(quantity);
    let res = [q[0], q[1], 0, 0, 0, 0, 0, 0, 0];
    assert(res@ =~= copies_field(quantity));
    res
}

/// A client for one printer, reached through a [`Transport`].
pub struct PrinterClient<T: Transport> {
    transport: T,
    packetbuf: Vec<u8>,
    sent: Ghost<Seq<Seq<u8>>>,
    reads: Ghost<Seq<Seq<u8>>>,
    reply: Ghost<Option<(u8, Seq<u8>)>>,
}

impl<T: Transport> PrinterClient<T> {
    /// The byte strings handed to the transport so far, oldest first.
    pub closed spec fn sent(&self) -> Seq<Seq<u8>> {
        self.sent@
    }

    /// The byte strings that the transport's reads returned so far, oldest
    /// first.
    pub closed spec fn reads(&self) -> Seq<Seq<u8>> {
        self.reads@
    }

    /// Bytes received that do not yet form a complete frame.
    pub closed spec fn buffered(&self) -> Seq<u8> {
        self.packetbuf@
    }

    /// The reply (type and payload) that the latest request received, if any.
    pub closed spec fn last_reply(&self) -> Option<(u8, Seq<u8>)> {
        self.reply@
    }

    /// The transport.
    pub closed spec fn channel(&self) -> T {
        self.transport
    }

    /// The reads made since the client was `earlier`.
    pub open spec fn reads_since(self, earlier: Self) -> Seq<Seq<u8>> {
        self.reads().subrange(earlier.reads().len() as int, self.reads().len() as int)
    }

    /// How waiting, since `earlier`, for a reply of type `code` ended; see
    /// [`exchange`].
    pub open spec fn outcome_since(self, earlier: Self, code: u8) -> Option<
        Result<(u8, Seq<u8>), PrinterError>,
    > {
        exchange(earlier.buffered(), self.reads_since(earlier), code, 6).2
    }

    /// `later` has read on from `self`: its reads start with those of `self`.
    pub open spec fn read_on(self, later: Self) -> bool {
        &&& self.reads().len() <= later.reads().len()
        &&& later.reads().subrange(0, self.reads().len() as int) == self.reads()
    }

    /// From `self` to `later`, the client handed `request` to the transport
    /// and then waited for a reply of type `code`: the reads made in between
    /// are those of [`exchange`] with six reads, which leaves the buffer of
    /// `later`.
    pub open spec fn exchanged(self, later: Self, request: Seq<u8>, code: u8) -> bool {
        let answer = exchange(self.buffered(), later.reads_since(self), code, 6);
        &&& later.sent() == self.sent().push(request)
        &&& self.read_on(later)
        &&& later.reads().len() <= self.reads().len() + TRANSCEIVE_ATTEMPTS
        &&& answer.0 == later.reads_since(self).len()
        &&& answer.1 == later.buffered()
        &&& later.last_reply() == (match answer.2 {
            Some(Ok(r)) => Some(r),
            _ => None,
        })
    }

    pub fn new(transport: T) -> (res: Self)
        ensures
            res.channel() == transport,
            res.sent() == Seq::<Seq<u8>>::empty(),
            res.reads() == Seq::<Seq<u8>>::empty(),
            res.buffered() == Seq::<u8>::empty(),
            res.last_reply() is None,
    {
        Self {
            transport,
            packetbuf: Vec::new(),
            sent: Ghost(Seq::empty()),
            reads: Ghost(Seq::empty()),
            reply: Ghost(None),
        }
    }

    pub fn transport_mut(&mut self) -> (res: &mut T)
        ensures
            *res == old(self).channel(),
            final(self).channel() == *final(res),
            final(self).sent() == old(self).sent(),
            final(self).reads() == old(self).reads(),
            final(self).buffered() == old(self).buffered(),
            final(self).last_reply() == old(self).last_reply(),
    {
        &mut self.transport
    }

    /// Writes `bytes` to the transport.
    fn send_bytes(&mut self, bytes: &[u8]) -> (res: Result<(), PrinterError>)
        ensures
            final(self).sent() == old(self).sent().push(bytes@),
            final(self).reads() == old(self).reads(),
            final(self).buffered() == old(self).buffered(),
            final(self).last_reply() == old(self).last_reply(),
            res matches Err(e) ==> e is Io,
    {
        let written = self.transport.write(bytes);
        self.sent = Ghost(self.sent@.push(bytes@));
        match written {
            Ok(_) => Ok(()),
            Err(e) => Err(PrinterError::Io(e)),
        }
    }

    /// Writes the frame of `packet` to the transport.
    fn send(&mut self, packet: &NiimbotPacket) -> (res: Result<(), PrinterError>)
        requires
            packet@.1.len() <= MAX_PAYLOAD_LEN,
        ensures
            final(self).sent() == old(self).sent().push(frame(packet@.0, packet@.1)),
            final(self).reads() == old(self).reads(),
            final(self).buffered() == old(self).buffered(),
            final(self).last_reply() == old(self).last_reply(),
            res matches Err(e) ==> e is Io,
    {
        let bytes = packet.to_bytes();
        self.send_bytes(bytes.as_slice())
    }

    /// From `self` to `later` the client made one read, and draining the
    /// receive buffer with it appended yielded `packets`, no invalid frame,
    /// and the buffer of `later`.
    pub open spec fn received(self, later: Self, packets: Seq<(u8, Seq<u8>)>) -> bool {
        &&& later.reads().len() == self.reads().len() + 1
        &&& later.reads().drop_last() == self.reads()
        &&& drain_frames(self.buffered() + later.reads().last()) == (
            packets,
            later.buffered(),
            None::<PacketError>,
        )
    }

    /// Receive calls that each made one read: what they returned, in order,
    /// is what [`receive_chunks`] makes of their reads, and the reads are
    /// those of the first state followed by one per call.
    proof fn lemma_receive_calls_chunks(states: Seq<Self>, got: Seq<Seq<(u8, Seq<u8>)>>)
        requires
            states.len() == got.len() + 1,
            forall|i: int| 0 <= i < got.len() ==> #[trigger] states[i].received(states[i + 1], got[i]),
        ensures
            ({
                let chunks = Seq::new(got.len(), |i: int| states[i + 1].reads().last());
                &&& states.last().reads() == states[0].reads() + chunks
                &&& receive_chunks(states[0].buffered(), chunks) == (
                    got.flatten(),
                    states.last().buffered(),
                    None::<PacketError>,
                )
            }),
        decreases got.len(),
    {
        let chunks = Seq::new(got.len(), |i: int| states[i + 1].reads().last());
        if got.len() == 0 {
            assert(states[0].reads() + chunks =~= states[0].reads());
        } else {
            let tail_states = states.drop_first();
            let tail_got = got.drop_first();
            assert forall|i: int| 0 <= i < tail_got.len() implies #[trigger] tail_states[i].received(
                tail_states[i + 1],
                tail_got[i],
            ) by {
                let j = i + 1;
                assert(states[j].received(states[j + 1], got[j]));
                assert(tail_states[i] == states[j]);
                assert(tail_states[i + 1] == states[j + 1]);
                assert(tail_got[i] == got[j]);
            }
            Self::lemma_receive_calls_chunks(tail_states, tail_got);
            let tail_chunks = Seq::new(tail_got.len(), |i: int| tail_states[i + 1].reads().last());
            assert(states[0].received(states[1], got[0]));
            assert(chunks =~= seq![chunks[0]] + tail_chunks);
            assert(chunks.drop_first() =~= tail_chunks);
            assert(states[1].reads() =~= states[0].reads().push(chunks[0]));
            assert(states.last().reads() =~= states[0].reads() + chunks);
            assert(got.flatten() == got[0] + tail_got.flatten());
        }
    }

    /// Reassembly across receive calls: calls from an empty buffer whose reads
    /// together carry the stream of `packets`, cut anywhere, return those
    /// packets in order, each exactly once, and leave nothing buffered.
    pub proof fn lemma_receive_calls(
        states: Seq<Self>,
        got: Seq<Seq<(u8, Seq<u8>)>>,
        packets: Seq<(u8, Seq<u8>)>,
    )
        requires
            states.len() == got.len() + 1,
            forall|i: int| 0 <= i < got.len() ==> #[trigger] states[i].received(states[i + 1], got[i]),
            states[0].buffered().len() == 0,
            payloads_fit(packets),
            states.last().reads_since(states[0]).flatten() == frames(packets),
        ensures
            got.flatten() == packets,
            states.last().buffered().len() == 0,
    {
        Self::lemma_receive_calls_chunks(states, got);
        let chunks = Seq::new(got.len(), |i: int| states[i + 1].reads().last());
        assert(states.last().reads_since(states[0]) =~= chunks);
        assert(states[0].buffered() =~= Seq::<u8>::empty());
        lemma_reassembly(packets, chunks);
    }

    /// Reads what the transport has, appends it to the receive buffer and
    /// returns the complete frames drained from it, parsed; see
    /// [`take_packets`].
    pub fn recv(&mut self) -> (res: Result<Vec<NiimbotPacket>, PrinterError>)
        ensures
            res matches Ok(packets) ==> old(self).received(
                *final(self),
                packets@.map_values(|p: NiimbotPacket| p@),
            ),
            final(self).sent() == old(self).sent(),
            final(self).last_reply() == old(self).last_reply(),
            res matches Err(PrinterError::Io(_)) ==> final(self).reads() == old(self).reads()
                && final(self).buffered() == old(self).buffered(),
            !(res matches Err(PrinterError::Io(_))) ==> final(self).reads().len() == old(
                self,
            ).reads().len() + 1 && final(self).reads().drop_last() == old(self).reads(),
            res matches Err(e) ==> e is Io || e is Packet,
            ({
                let drained = drain_frames(old(self).buffered() + final(self).reads().last());
                &&& res matches Ok(packets) ==> {
                    &&& drained.2 is None
                    &&& final(self).buffered() == drained.1
                    &&& packets@.map_values(|p: NiimbotPacket| p@) == drained.0
                }
                &&& res matches Err(PrinterError::Packet(e)) ==> {
                    &&& drained.2 == Some(e)
                    &&& final(self).buffered() == drained.1
                }
            }),
    {
        let data = match self.transport.read(PACKET_READ_SIZE) {
            Ok(data) => data,
            Err(e) => return Err(PrinterError::Io(e)),
        };
        let ghost before = self.packetbuf@;
        self.reads = Ghost(self.reads@.push(data@));
        assert(self.reads@.drop_last() =~= old(self).reads@);
        self.packetbuf.extend_from_slice(data.as_slice());
        assert(self.packetbuf@ =~= before + data@);
        match take_packets(&mut self.packetbuf) {
            Ok(packets) => {
                assert(packets@.map_values(|p: NiimbotPacket| p@) =~= drain_frames(
                    before + data@,
                ).0);
                Ok(packets)
            },
            Err(e) => Err(PrinterError::Packet(e)),
        }
    }

    /// Waits for the packet of type `code`: up to six reads, with a pause
    /// after each read that brought nothing settling; see [`exchange`].
    fn await_reply(&mut self, code: u8) -> (res: Result<Option<NiimbotPacket>, PrinterError>)
        ensures
            final(self).sent() == old(self).sent(),
            old(self).read_on(*final(self)),
            final(self).reads().len() <= old(self).reads().len() + TRANSCEIVE_ATTEMPTS,
            ({
                let answer = exchange(old(self).buffered(), final(self).reads_since(*old(self)), code, 6);
                &&& answer.0 == final(self).reads_since(*old(self)).len()
                &&& answer.1 == final(self).buffered()
                &&& awaited(res, answer.2)
                &&& final(self).last_reply() == (match answer.2 {
                    Some(Ok(r)) => Some(r),
                    _ => None,
                })
            }),
            res matches Ok(Some(p)) ==> p@.0 == code,
            res matches Err(e) ==> link_failure(e),
    {
        self.reply = Ghost(None);
        let ghost start = *old(self);
        let mut attempt: usize = 0;
        proof {
            assert(self.reads_since(start) =~= Seq::<Seq<u8>>::empty());
            assert forall|z: Seq<Seq<u8>>| #[trigger]
                exchange(start.buffered(), self.reads_since(start) + z, code, 6) == exchange(
                    self.buffered(),
                    z,
                    code,
                    6,
                ) by {
                assert(self.reads_since(start) + z =~= z);
            }
        }
        while attempt < TRANSCEIVE_ATTEMPTS
            invariant
                start == *old(self),
                attempt <= TRANSCEIVE_ATTEMPTS,
                self.sent() == start.sent(),
                self.last_reply() is None,
                self.reads().len() == start.reads().len() + attempt,
                self.reads().subrange(0, start.reads().len() as int) == start.reads(),
                forall|z: Seq<Seq<u8>>| #[trigger]
                    exchange(start.buffered(), self.reads_since(start) + z, code, 6) == ({
                        let rest = exchange(self.buffered(), z, code, (6 - attempt) as nat);
                        ((rest.0 + attempt) as nat, rest.1, rest.2)
                    }),
            decreases TRANSCEIVE_ATTEMPTS - attempt,
        {
            let ghost previous = *self;
            let ghost done = previous.reads_since(start);
            let ghost left = (6 - attempt) as nat;
            let received = self.recv();
            let ghost read = self.reads().last();
            let ghost drained = drain_frames(previous.buffered() + read);
            proof {
                if received matches Err(PrinterError::Io(_)) {
                    assert(self.reads_since(start) =~= done);
                    assert(done + Seq::<Seq<u8>>::empty() =~= done);
                    assert(exchange(start.buffered(), done + Seq::<Seq<u8>>::empty(), code, 6)
                        == (attempt as nat, previous.buffered(), None::<Result<(u8, Seq<u8>), PrinterError>>));
                } else {
                    assert(self.reads_since(start) =~= done + seq![read]);
                    assert(self.reads().subrange(0, start.reads().len() as int) =~= start.reads())
                        by {
                        assert(self.reads().subrange(0, start.reads().len() as int)
                            =~= previous.reads().subrange(0, start.reads().len() as int));
                    }
                    let one = exchange(previous.buffered(), seq![read], code, left);
                    assert(seq![read][0] == read);
                    assert(exchange(start.buffered(), done + seq![read], code, 6) == ((one.0
                        + attempt) as nat, one.1, one.2));
                    assert(seq![read].drop_first() =~= Seq::<Seq<u8>>::empty());
                    lemma_settling_shape(drained.0, code);
                }
            }
            let packets = match received {
                Ok(packets) => packets,
                Err(e) => return Err(e),
            };
            match find_reply(packets, code) {
                Ok(Some(reply)) => {
                    self.reply = Ghost(Some(reply@));
                    return Ok(Some(reply));
                },
                Ok(None) => {},
                Err(e) => return Err(e),
            }
            proof {
                assert forall|z: Seq<Seq<u8>>| #[trigger]
                    exchange(start.buffered(), self.reads_since(start) + z, code, 6) == ({
                        let rest = exchange(self.buffered(), z, code, (left - 1) as nat);
                        ((rest.0 + attempt + 1) as nat, rest.1, rest.2)
                    }) by {
                    assert(self.reads_since(start) + z =~= done + (seq![read] + z));
                    assert(exchange(start.buffered(), done + (seq![read] + z), code, 6) == ({
                        let rest = exchange(previous.buffered(), seq![read] + z, code, left);
                        ((rest.0 + attempt) as nat, rest.1, rest.2)
                    }));
                    lemma_exchange_unsettled_read(previous.buffered(), read, z, code, left);
                }
            }
            self.transport.pause(TRANSCEIVE_DELAY_MS);
            attempt = attempt + 1;
        }
        proof {
            assert(self.reads_since(start) + Seq::<Seq<u8>>::empty() =~= self.reads_since(start));
            assert(exchange(
                start.buffered(),
                self.reads_since(start) + Seq::<Seq<u8>>::empty(),
                code,
                6,
            ).2 == Some(Err::<(u8, Seq<u8>), PrinterError>(PrinterError::Timeout)));
        }
        Ok(None)
    }

    /// Sends `request` with payload `data` and waits for the packet of type
    /// `request` plus `response_offset` (wrapping).
    fn transceive(&mut self, request: RequestCode, data: &[u8], response_offset: u8) -> (res:
        Result<Option<NiimbotPacket>, PrinterError>)
        requires
            data@.len() <= MAX_PAYLOAD_LEN,
        ensures
            old(self).exchanged(
                *final(self),
                frame(request_code(request), data@),
                reply_code(request, response_offset),
            ),
            awaited(res, final(self).outcome_since(*old(self), reply_code(request, response_offset))),
            res matches Err(e) ==> link_failure(e),
    {
        let code = request.code();
        let response_code = response_offset.wrapping_add(code);
        let packet = NiimbotPacket::new(code, slice_to_vec(data));
        match self.send(&packet) {
            Ok(()) => {},
            Err(e) => {
                self.reply = Ghost(None);
                assert(self.reads_since(*old(self)) =~= Seq::<Seq<u8>>::empty());
                assert(self.reads().subrange(0, old(self).reads().len() as int) =~= self.reads());
                return Err(e);
            },
        }
        self.await_reply(response_code)
    }

    /// Sends a command and reads whether the printer acknowledged it.
    fn bool_command(&mut self, request: RequestCode, payload: &[u8], response_offset: u8) -> (res:
        Result<bool, PrinterError>)
        requires
            payload@.len() <= MAX_PAYLOAD_LEN,
        ensures
            old(self).exchanged(
                *final(self),
                frame(request_code(request), payload@),
                reply_code(request, response_offset),
            ),
            command_result(
                res,
                final(self).outcome_since(*old(self), reply_code(request, response_offset)),
            ),
            res matches Err(e) ==> e is Timeout || link_failure(e),
    {
        match self.transceive(request, payload, response_offset) {
            Ok(Some(packet)) => Ok(decode_ack(packet.data())),
            Ok(None) => Err(PrinterError::Timeout),
            Err(e) => Err(e),
        }
    }

    /// Asks the printer for one information value; `None` when six reads
    /// bring no reply.
    pub fn get_info(&mut self, key: InfoKey) -> (res: Result<Option<InfoReading>, PrinterError>)
        ensures
            old(self).exchanged(
                *final(self),
                frame(request_code(RequestCode::GetInfo), seq![info_key_code(key)]),
                reply_code(RequestCode::GetInfo, info_key_code(key)),
            ),
            ({
                let outcome = final(self).outcome_since(
                    *old(self),
                    reply_code(RequestCode::GetInfo, info_key_code(key)),
                );
                &&& outcome matches Some(Err(PrinterError::Timeout)) ==> (res matches Ok(None))
                &&& outcome != Some(Err::<(u8, Seq<u8>), PrinterError>(PrinterError::Timeout)) ==> failed_as(res, outcome)
                &&& outcome matches Some(Ok(r)) ==> (res matches Ok(Some(v)) && info_decoded(
                    key,
                    r.1,
                    v,
                ))
            }),
    {
        let code = key.code();
        let payload = [code];
        assert(payload@ =~= seq![code]);
        match self.transceive(RequestCode::GetInfo, payload.as_slice(), code) {
            Ok(Some(packet)) => Ok(Some(decode_info(key, packet.data()))),
            Ok(None) => Ok(None),
            Err(e) => Err(e),
        }
    }

    /// Reads the RFID tag of the loaded label roll; `None` when the roll has
    /// no tag or six reads bring no reply.
    pub fn get_rfid(&mut self) -> (res: Result<Option<RfidInfo>, PrinterError>)
        ensures
            old(self).exchanged(
                *final(self),
                frame(request_code(RequestCode::GetRfid), seq![1u8]),
                reply_code(RequestCode::GetRfid, 1),
            ),
            ({
                let outcome = final(self).outcome_since(
                    *old(self),
                    reply_code(RequestCode::GetRfid, 1),
                );
                &&& outcome matches Some(Err(PrinterError::Timeout)) ==> (res matches Ok(None))
                &&& outcome != Some(Err::<(u8, Seq<u8>), PrinterError>(PrinterError::Timeout)) ==> failed_as(res, outcome)
                &&& outcome matches Some(Ok(r)) ==> rfid_decoded(res, r.1)
            }),
    {
        let payload = [1u8];
        assert(payload@ =~= seq![1u8]);
        match self.transceive(RequestCode::GetRfid, payload.as_slice(), 1) {
            Ok(Some(packet)) => decode_rfid(packet.data()),
            Ok(None) => Ok(None),
            Err(e) => Err(e),
        }
    }

    /// Asks the printer for its state; a timeout when six reads bring no
    /// reply.
    pub fn heartbeat(&mut self) -> (res: Result<HeartbeatStatus, PrinterError>)
        ensures
            old(self).exchanged(
                *final(self),
                frame(request_code(RequestCode::Heartbeat), seq![1u8]),
                reply_code(RequestCode::Heartbeat, 1),
            ),
            ({
                let outcome = final(self).outcome_since(
                    *old(self),
                    reply_code(RequestCode::Heartbeat, 1),
                );
                &&& failed_as(res, outcome)
                &&& outcome matches Some(Ok(r)) ==> res == Ok::<HeartbeatStatus, PrinterError>(
                    heartbeat_status(r.1),
                )
            }),
    {
        let payload = [1u8];
        assert(payload@ =~= seq![1u8]);
        match self.transceive(RequestCode::Heartbeat, payload.as_slice(), 1) {
            Ok(Some(packet)) => Ok(decode_heartbeat(packet.data())),
            Ok(None) => Err(PrinterError::Timeout),
            Err(e) => Err(e),
        }
    }

    /// Sets the label type, which must be 1, 2 or 3.
    pub fn set_label_type(&mut self, value: u8) -> (res: Result<bool, PrinterError>)
        ensures
            !(1 <= value <= 3) ==> (res matches Err(PrinterError::InvalidLabelType(v)) && v
                == value) && *final(self) == *old(self),
            1 <= value <= 3 ==> old(self).exchanged(
                *final(self),
                frame(request_code(RequestCode::SetLabelType), seq![value]),
                reply_code(RequestCode::SetLabelType, 16),
            ) && command_result(res, final(self).outcome_since(*old(self), reply_code(RequestCode::SetLabelType, 16))),
            res matches Err(e) ==> e is InvalidLabelType || e is Timeout || link_failure(e),
    {
        if value < 1 || value > 3 {
            return Err(PrinterError::InvalidLabelType(value));
        }
        let payload = [value];
        assert(payload@ =~= seq![value]);
        self.bool_command(RequestCode::SetLabelType, payload.as_slice(), 16)
    }

    /// Sets the print density, which must be 1 to 5.
    pub fn set_label_density(&mut self, value: u8) -> (res: Result<bool, PrinterError>)
        ensures
            !(1 <= value <= 5) ==> (res matches Err(PrinterError::InvalidDensity(v)) && v
                == value) && *final(self) == *old(self),
            1 <= value <= 5 ==> old(self).exchanged(
                *final(self),
                frame(request_code(RequestCode::SetLabelDensity), seq![value]),
                reply_code(RequestCode::SetLabelDensity, 16),
            ) && command_result(res, final(self).outcome_since(*old(self), reply_code(RequestCode::SetLabelDensity, 16))),
            res matches Err(e) ==> e is InvalidDensity || e is Timeout || link_failure(e),
    {
        if value < 1 || value > 5 {
            return Err(PrinterError::InvalidDensity(value));
        }
        let payload = [value];
        assert(payload@ =~= seq![value]);
        self.bool_command(RequestCode::SetLabelDensity, payload.as_slice(), 16)
    }

    /// Starts a print job.
    pub fn start_print(&mut self) -> (res: Result<bool, PrinterError>)
        ensures
            old(self).exchanged(
                *final(self),
                frame(request_code(RequestCode::StartPrint), seq![1u8]),
                reply_code(RequestCode::StartPrint, 1),
            ),
            command_result(res, final(self).outcome_since(*old(self), reply_code(RequestCode::StartPrint, 1))),
            res matches Err(e) ==> e is Timeout || link_failure(e),
    {
        let payload = [1u8];
        assert(payload@ =~= seq![1u8]);
        self.bool_command(RequestCode::StartPrint, payload.as_slice(), 1)
    }

    /// Asks whether the print job has ended: the printer acknowledges once it has.
    pub fn end_print(&mut self) -> (res: Result<bool, PrinterError>)
        ensures
            old(self).exchanged(
                *final(self),
                frame(request_code(RequestCode::EndPrint), seq![1u8]),
                reply_code(RequestCode::EndPrint, 1),
            ),
            command_result(res, final(self).outcome_since(*old(self), reply_code(RequestCode::EndPrint, 1))),
            res matches Err(e) ==> e is Timeout || link_failure(e),
    {
        let payload = [1u8];
        assert(payload@ =~= seq![1u8]);
        self.bool_command(RequestCode::EndPrint, payload.as_slice(), 1)
    }

    /// Starts a page.
    pub fn start_page_print(&mut self) -> (res: Result<bool, PrinterError>)
        ensures
            old(self).exchanged(
                *final(self),
                frame(request_code(RequestCode::StartPagePrint), seq![1u8]),
                reply_code(RequestCode::StartPagePrint, 1),
            ),
            command_result(res, final(self).outcome_since(*old(self), reply_code(RequestCode::StartPagePrint, 1))),
            res matches Err(e) ==> e is Timeout || link_failure(e),
    {
        let payload = [1u8];
        assert(payload@ =~= seq![1u8]);
        self.bool_command(RequestCode::StartPagePrint, payload.as_slice(), 1)
    }

    /// Ends a page.
    pub fn end_page_print(&mut self) -> (res: Result<bool, PrinterError>)
        ensures
            old(self).exchanged(
                *final(self),
                frame(request_code(RequestCode::EndPagePrint), seq![1u8]),
                reply_code(RequestCode::EndPagePrint, 1),
            ),
            command_result(res, final(self).outcome_since(*old(self), reply_code(RequestCode::EndPagePrint, 1))),
            res matches Err(e) ==> e is Timeout || link_failure(e),
    {
        let payload = [1u8];
        assert(payload@ =~= seq![1u8]);
        self.bool_command(RequestCode::EndPagePrint, payload.as_slice(), 1)
    }

    /// Allows the printer to clear its print buffer.
    pub fn allow_print_clear(&mut self) -> (res: Result<bool, PrinterError>)
        ensures
            old(self).exchanged(
                *final(self),
                frame(request_code(RequestCode::AllowPrintClear), seq![1u8]),
                reply_code(RequestCode::AllowPrintClear, 16),
            ),
            command_result(res, final(self).outcome_since(*old(self), reply_code(RequestCode::AllowPrintClear, 16))),
            res matches Err(e) ==> e is Timeout || link_failure(e),
    {
        let payload = [1u8];
        assert(payload@ =~= seq![1u8]);
        self.bool_command(RequestCode::AllowPrintClear, payload.as_slice(), 16)
    }

    /// Announces the size of the page: `width` then `height`, each as two
    /// big-endian bytes.
    pub fn set_dimension(&mut self, width: u16, height: u16) -> (res: Result<bool, PrinterError>)
        ensures
            old(self).exchanged(
                *final(self),
                frame(request_code(RequestCode::SetDimension), be_bytes(width) + be_bytes(height)),
                reply_code(RequestCode::SetDimension, 1),
            ),
            command_result(res, final(self).outcome_since(*old(self), reply_code(RequestCode::SetDimension, 1))),
            res matches Err(e) ==> e is Timeout || link_failure(e),
    {
        let w = u16_to_be(width);
        let h = u16_to_be(height);
        let payload = [w[0], w[1], h[0], h[1]];
        assert(payload@ =~= be_bytes(width) + be_bytes(height));
        self.bool_command(RequestCode::SetDimension, payload.as_slice(), 1)
    }

    /// Sets the number of copies to print.
    pub fn set_quantity(&mut self, quantity: u16) -> (res: Result<bool, PrinterError>)
        ensures
            old(self).exchanged(
                *final(self),
                frame(request_code(RequestCode::SetQuantity), be_bytes(quantity)),
                reply_code(RequestCode::SetQuantity, 1),
            ),
            command_result(res, final(self).outcome_since(*old(self), reply_code(RequestCode::SetQuantity, 1))),
            res matches Err(e) ==> e is Timeout || link_failure(e),
    {
        let payload = u16_to_be(quantity);
        self.bool_command(RequestCode::SetQuantity, payload.as_slice(), 1)
    }

    /// Asks for the progress of the running print job; a timeout when six
    /// reads bring no reply.
    pub fn get_print_status(&mut self) -> (res: Result<PrintStatus, PrinterError>)
        ensures
            old(self).exchanged(
                *final(self),
                frame(request_code(RequestCode::GetPrintStatus), seq![1u8]),
                reply_code(RequestCode::GetPrintStatus, 16),
            ),
            ({
                let outcome = final(self).outcome_since(
                    *old(self),
                    reply_code(RequestCode::GetPrintStatus, 16),
                );
                &&& failed_as(res, outcome)
                &&& outcome matches Some(Ok(r)) ==> print_status_decoded(res, r.1)
            }),
    {
        let payload = [1u8];
        assert(payload@ =~= seq![1u8]);
        match self.transceive(RequestCode::GetPrintStatus, payload.as_slice(), 16) {
            Ok(Some(packet)) => decode_print_status(packet.data()),
            Ok(None) => Err(PrinterError::Timeout),
            Err(e) => Err(e),
        }
    }

    /// `now` has gone, from `start`, through the first `done` of `requests`,
    /// writing `frames`: whatever the reads after `now` bring, running all of
    /// `requests` from `start` writes `frames` and then runs the rest from
    /// `now`.
    pub open spec fn requests_progress(
        start: Self,
        now: Self,
        requests: Seq<(Seq<u8>, Option<u8>)>,
        frames: Seq<Seq<u8>>,
        done: int,
    ) -> bool {
        &&& start.read_on(now)
        &&& now.sent() == start.sent() + frames
        &&& 0 <= done <= requests.len()
        &&& forall|more: Seq<Seq<u8>>| #[trigger]
            run_requests(now.reads_since(start) + more, start.buffered(), requests) == ({
                let rest = run_requests(more, now.buffered(), requests.skip(done));
                (frames + rest.0, rest.1, rest.2, rest.3)
            })
    }

    /// Reads since `earlier` are those since `middle` after those from
    /// `earlier` to `middle`.
    proof fn lemma_reads_chain(earlier: Self, middle: Self, later: Self)
        requires
            earlier.read_on(middle),
            middle.read_on(later),
        ensures
            earlier.read_on(later),
            later.reads_since(earlier) == middle.reads_since(earlier) + later.reads_since(middle),
    {
        let e = earlier.reads().len() as int;
        let m = middle.reads().len() as int;
        assert(later.reads().subrange(0, m) == middle.reads());
        assert(later.reads().subrange(0, e) =~= middle.reads().subrange(0, e));
        assert(later.reads_since(earlier) =~= middle.reads_since(earlier) + later.reads_since(
            middle,
        ));
    }

    /// A request that waits for a reply moves the progress on when the reply
    /// came, and otherwise ends the run there.
    proof fn lemma_progress_exchange(
        start: Self,
        before: Self,
        after: Self,
        requests: Seq<(Seq<u8>, Option<u8>)>,
        frames: Seq<Seq<u8>>,
        done: int,
        code: u8,
    )
        requires
            Self::requests_progress(start, before, requests, frames, done),
            done < requests.len(),
            requests[done].1 == Some(code),
            before.exchanged(after, requests[done].0, code),
        ensures
            start.read_on(after),
            after.outcome_since(before, code) matches Some(Ok(_)) ==> Self::requests_progress(
                start,
                after,
                requests,
                frames.push(requests[done].0),
                done + 1,
            ),
            !(after.outcome_since(before, code) matches Some(Ok(_))) ==> run_requests(
                after.reads_since(start),
                start.buffered(),
                requests,
            ) == (
                frames.push(requests[done].0),
                Seq::<Seq<u8>>::empty(),
                after.buffered(),
                Some(
                    match after.outcome_since(before, code) {
                        Some(Err(e)) => Some(e),
                        _ => None::<PrinterError>,
                    },
                ),
            ),
            after.sent() == start.sent() + frames.push(requests[done].0),
            after.outcome_since(before, code) matches Some(Err(e)) ==> !(e is Io),
            sent_prefix_of(start.sent(), after.sent(), frames.push(requests[done].0)),
    {
        assert(frames.push(requests[done].0).take(frames.len() + 1 as int) =~= frames.push(
            requests[done].0,
        ));
        Self::lemma_reads_chain(start, before, after);
        lemma_exchange_shape(before.buffered(), after.reads_since(before), Seq::empty(), code, 6);
        let prior = before.reads_since(start);
        let step = after.reads_since(before);
        let tail = requests.skip(done);
        assert(tail[0] == requests[done]);
        assert(tail.drop_first() =~= requests.skip(done + 1));
        let answer = exchange(before.buffered(), step, code, 6);
        assert(step.skip(step.len() as int) =~= Seq::<Seq<u8>>::empty());
        assert(after.sent() =~= start.sent() + frames.push(requests[done].0));
        if answer.2 matches Some(Ok(_)) {
            assert forall|more: Seq<Seq<u8>>| #[trigger]
                run_requests(after.reads_since(start) + more, start.buffered(), requests) == ({
                    let rest = run_requests(more, after.buffered(), requests.skip(done + 1));
                    (frames.push(requests[done].0) + rest.0, rest.1, rest.2, rest.3)
                }) by {
                assert(after.reads_since(start) + more =~= prior + (step + more));
                lemma_exchange_shape(before.buffered(), step, more, code, 6);
                lemma_skip_concat(step, more, step.len() as int);
                assert(step.skip(step.len() as int) + more =~= more);
                let rest = run_requests(more, after.buffered(), requests.skip(done + 1));
                assert(frames + (seq![requests[done].0] + rest.0) =~= frames.push(requests[done].0)
                    + rest.0);
            }
        } else {
            assert(after.reads_since(start) + Seq::<Seq<u8>>::empty() =~= prior + step);
            assert(step + Seq::<Seq<u8>>::empty() =~= step);
            assert(frames + seq![requests[done].0] =~= frames.push(requests[done].0));
        }
    }

    /// A request that waits for no reply moves the progress on.
    proof fn lemma_progress_row(
        start: Self,
        before: Self,
        after: Self,
        requests: Seq<(Seq<u8>, Option<u8>)>,
        frames: Seq<Seq<u8>>,
        done: int,
    )
        requires
            Self::requests_progress(start, before, requests, frames, done),
            done < requests.len(),
            requests[done].1 is None,
            after.sent() == before.sent().push(requests[done].0),
            after.reads() == before.reads(),
            after.buffered() == before.buffered(),
        ensures
            Self::requests_progress(start, after, requests, frames.push(requests[done].0), done + 1),
    {
        let tail = requests.skip(done);
        assert(tail[0] == requests[done]);
        assert(tail.drop_first() =~= requests.skip(done + 1));
        assert(after.reads_since(start) =~= before.reads_since(start));
        assert(after.sent() =~= start.sent() + frames.push(requests[done].0));
        assert forall|more: Seq<Seq<u8>>| #[trigger]
            run_requests(after.reads_since(start) + more, start.buffered(), requests) == ({
                let rest = run_requests(more, after.buffered(), requests.skip(done + 1));
                (frames.push(requests[done].0) + rest.0, rest.1, rest.2, rest.3)
            }) by {
            let rest = run_requests(more, after.buffered(), requests.skip(done + 1));
            assert(frames + (seq![requests[done].0] + rest.0) =~= frames.push(requests[done].0)
                + rest.0);
        }
    }

    /// A write that fails before the reply of a later request leaves a run
    /// that has run out of reads, of which what was written is the start.
    proof fn lemma_progress_starved(
        start: Self,
        before: Self,
        after: Self,
        requests: Seq<(Seq<u8>, Option<u8>)>,
        frames: Seq<Seq<u8>>,
        done: int,
    )
        requires
            Self::requests_progress(start, before, requests, frames, done),
            done < requests.len(),
            requests.last().1 is Some,
            after.sent() == before.sent().push(requests[done].0),
            after.reads() == before.reads(),
        ensures
            ({
                let run = run_requests(after.reads_since(start), start.buffered(), requests);
                &&& run.3 == Some(None::<PrinterError>)
                &&& sent_prefix_of(start.sent(), after.sent(), run.0)
                &&& after.sent().len() > start.sent().len()
            }),
    {
        let tail = requests.skip(done);
        assert(tail.last() == requests.last());
        lemma_requests_starved(before.buffered(), tail);
        assert(after.reads_since(start) =~= before.reads_since(start));
        assert(before.reads_since(start) + Seq::<Seq<u8>>::empty() =~= before.reads_since(start));
        let starved = run_requests(Seq::empty(), before.buffered(), tail);
        let run = frames + starved.0;
        assert(run.take(frames.len() + 1 as int) =~= frames.push(requests[done].0));
        assert(after.sent() =~= start.sent() + frames.push(requests[done].0));
    }

    /// The job from `self` to `later` ended with `res`, as [`job_run`] makes of
    /// the reads in between for `image` (rows `rows`), `density`, `quantity`
    /// copies and whether the link needed the handshake: on success or a
    /// failure of the job, exactly its byte strings were written; on an error
    /// of the transport, the reads ran out there and what was written is the
    /// start of its byte strings.
    pub open spec fn ran_job(
        self,
        later: Self,
        res: Result<(), PrinterError>,
        rows: Seq<NiimbotPacket>,
        image: (u32, u32, Seq<u8>),
        density: u8,
        quantity: u16,
        handshake: bool,
    ) -> bool {
        let run = job_run(
            later.reads_since(self),
            self.buffered(),
            rows,
            image,
            density,
            quantity,
            handshake,
        );
        &&& self.read_on(later)
        &&& match res {
            Ok(_) => run.1 == Some(Ok::<(), PrinterError>(())) && later.sent() == self.sent()
                + run.0,
            Err(PrinterError::Io(_)) => run.1 is None && sent_prefix_of(
                self.sent(),
                later.sent(),
                run.0,
            ) && later.sent().len() > self.sent().len(),
            Err(e) => run.1 == Some(Err::<(), PrinterError>(e)) && later.sent() == self.sent()
                + run.0,
        }
    }

    /// Whatever the printer answers, a print job over a link without the
    /// handshake first writes the density `d` as the frame of type 0x21 with
    /// payload `[d]`; with the handshake, the connect frame (type 0xc1 behind
    /// the byte 3) comes first, and once the status reply came the density is
    /// the third byte string written.
    pub proof fn lemma_job_writes_density_first(
        before: Self,
        after: Self,
        res: Result<(), PrinterError>,
        rows: Seq<NiimbotPacket>,
        image: (u32, u32, Seq<u8>),
        density: u8,
        quantity: u16,
        handshake: bool,
    )
        requires
            before.ran_job(after, res, rows, image, density, quantity, handshake),
            image.0 < 65536,
            image.1 < 65536,
        ensures
            after.sent().len() > before.sent().len(),
            !handshake ==> after.sent()[before.sent().len() as int] == frame(0x21, seq![density]),
            handshake ==> after.sent()[before.sent().len() as int] == seq![3u8] + frame(
                0xc1,
                seq![1u8],
            ),
            handshake && after.sent().len() > before.sent().len() + 2 ==> after.sent()[before.sent().len()
                + 2int] == frame(0x21, seq![density]),
    {
        let run = job_run(
            after.reads_since(before),
            before.buffered(),
            rows,
            image,
            density,
            quantity,
            handshake,
        );
        lemma_job_opening(
            after.reads_since(before),
            before.buffered(),
            rows,
            image,
            density,
            quantity,
            handshake,
        );
        let n = before.sent().len() as int;
        let k = after.sent().len() - n;
        if res matches Err(PrinterError::Io(_)) {
            assert(after.sent()[n] == run.0.take(k)[0]);
            if k > 2 {
                assert(after.sent()[n + 2] == run.0.take(k)[2]);
            }
        } else {
            assert(after.sent()[n] == run.0[0]);
            if k > 2 {
                assert(after.sent()[n + 2] == run.0[2]);
            }
        }
    }

    /// Opens a Bluetooth session: sends the connect frame behind its prefix
    /// byte and waits for its reply, then asks for the printer's status;
    /// `Ok(extended)` tells whether that status reports the newer protocol.
    /// See [`handshake_run`].
    fn negotiate_protocol(&mut self) -> (res: Result<bool, PrinterError>)
        ensures
            old(self).read_on(*final(self)),
            ({
                let run = handshake_run(final(self).reads_since(*old(self)), old(self).buffered());
                &&& final(self).sent() == old(self).sent() + run.0
                &&& match res {
                    Ok(extended) => run.3 == Some(Ok::<bool, PrinterError>(extended)) && run.1.len()
                        == 0 && run.2 == final(self).buffered(),
                    Err(PrinterError::Io(_)) => run.3 is None,
                    Err(e) => run.3 == Some(Err::<bool, PrinterError>(e)),
                }
            }),
            res matches Err(e) ==> e is Timeout || link_failure(e),
    {
        let ghost start = *self;
        let connect = NiimbotPacket::new(RequestCode::Connect.code(), vec![1u8]);
        assert(connect@.1 =~= seq![1u8]);
        let framed = connect.to_bytes();
        let mut bytes: Vec<u8> = vec![BLE_CONNECT_PREFIX];
        bytes.extend_from_slice(framed.as_slice());
        assert(bytes@ =~= seq![BLE_CONNECT_PREFIX] + framed@);
        assert(bytes@ =~= handshake_frames()[0]);
        let sent = self.send_bytes(bytes.as_slice());
        let ghost written = *self;
        proof {
            assert(self.reads_since(start) =~= Seq::<Seq<u8>>::empty());
            assert(self.reads().subrange(0, start.reads().len() as int) =~= self.reads());
            assert(self.sent() =~= start.sent() + handshake_frames().take(1));
        }
        if let Err(e) = sent {
            return Err(e);
        }
        let connect_code = RequestCode::Connect.code().wrapping_add(1);
        let connected = self.await_reply(connect_code);
        let ghost after_connect = *self;
        proof {
            Self::lemma_reads_chain(start, written, after_connect);
            assert(written.reads_since(start).len() == 0);
            assert(self.reads_since(start) =~= self.reads_since(written));
            lemma_exchange_shape(
                start.buffered(),
                self.reads_since(start),
                Seq::empty(),
                connect_code,
                6,
            );
        }
        match connected {
            Ok(Some(_)) => {},
            Ok(None) => return Err(PrinterError::Timeout),
            Err(e) => return Err(e),
        }
        let payload = [1u8];
        assert(payload@ =~= seq![1u8]);
        let answered = self.transceive(RequestCode::GetPrinterStatus, payload.as_slice(), 16);
        proof {
            Self::lemma_reads_chain(start, after_connect, *self);
            let first = after_connect.reads_since(start);
            let second = self.reads_since(after_connect);
            let status_code = reply_code(RequestCode::GetPrinterStatus, 16);
            lemma_exchange_shape(start.buffered(), first, second, connect_code, 6);
            lemma_skip_concat(first, second, first.len() as int);
            assert(first.skip(first.len() as int) + second =~= second);
            assert(second.skip(second.len() as int) =~= Seq::<Seq<u8>>::empty());
            lemma_exchange_shape(after_connect.buffered(), second, Seq::empty(), status_code, 6);
            assert(self.sent() =~= start.sent() + handshake_frames());
        }
        match answered {
            Ok(Some(reply)) => Ok(uses_new_protocol(reply.data())),
            Ok(None) => Err(PrinterError::Timeout),
            Err(e) => Err(e),
        }
    }

    /// Sends the page: density, label type 1, start of the job, start of the
    /// page and page size, each waiting for its reply; the rows; the end of the
    /// page. See [`page_requests`] and [`run_requests`]; the acknowledgements
    /// are not checked, only a failed exchange stops the page.
    fn send_page(
        &mut self,
        rows: &Vec<NiimbotPacket>,
        image: &LumaImage,
        density: u8,
        quantity: u16,
        extended: bool,
    ) -> (res: Result<(), PrinterError>)
        requires
            1 <= density <= 5,
            image@.1 == 0 || image@.0 <= MAX_IMAGE_WIDTH,
            prints_rows(rows@, image@),
        ensures
            old(self).read_on(*final(self)),
            ({
                let run = run_requests(
                    final(self).reads_since(*old(self)),
                    old(self).buffered(),
                    page_requests(rows@, image@, density, quantity, extended),
                );
                match res {
                    Ok(_) => run.3 is None && run.1.len() == 0 && run.2 == final(self).buffered()
                        && final(self).sent() == old(self).sent() + run.0,
                    Err(PrinterError::Io(_)) => run.3 == Some(None::<PrinterError>)
                        && sent_prefix_of(old(self).sent(), final(self).sent(), run.0)
                        && final(self).sent().len() > old(self).sent().len(),
                    Err(e) => run.3 == Some(Some(e)) && final(self).sent() == old(self).sent()
                        + run.0,
                }
            }),
            res matches Err(e) ==> e is Timeout || link_failure(e),
    {
        let ghost start = *self;
        let ghost requests = page_requests(rows@, image@, density, quantity, extended);
        let ghost mut frames: Seq<Seq<u8>> = Seq::empty();
        let ghost mut before = *self;
        assert(requests.len() == 6 + rows@.len());
        proof {
            assert(self.reads_since(start) =~= Seq::<Seq<u8>>::empty());
            assert(self.reads().subrange(0, start.reads().len() as int) =~= self.reads());
            assert(self.sent() =~= start.sent() + frames);
            assert(requests.skip(0) =~= requests);
            assert forall|more: Seq<Seq<u8>>| #[trigger]
                run_requests(self.reads_since(start) + more, start.buffered(), requests) == ({
                    let rest = run_requests(more, self.buffered(), requests.skip(0));
                    (frames + rest.0, rest.1, rest.2, rest.3)
                }) by {
                assert(self.reads_since(start) + more =~= more);
                let rest = run_requests(more, self.buffered(), requests.skip(0));
                assert(frames + rest.0 =~= rest.0);
            }
        }
        let density_payload = [density];
        assert(density_payload@ =~= seq![density]);
        let step = self.bool_command(RequestCode::SetLabelDensity, density_payload.as_slice(), 16);
        proof {
            Self::lemma_progress_exchange(start, before, *self, requests, frames, 0, requests[0].1->0);
            frames = frames.push(requests[0].0);
            before = *self;
        }
        if let Err(e) = step {
            return Err(e);
        }
        let one = [1u8];
        assert(one@ =~= seq![1u8]);
        let step = self.bool_command(RequestCode::SetLabelType, one.as_slice(), 16);
        proof {
            Self::lemma_progress_exchange(start, before, *self, requests, frames, 1, requests[1].1->0);
            frames = frames.push(requests[1].0);
            before = *self;
        }
        if let Err(e) = step {
            return Err(e);
        }
        let mut start_payload: Vec<u8> = Vec::new();
        if extended {
            let copies = copies_bytes(quantity);
            start_payload.extend_from_slice(copies.as_slice());
        } else {
            start_payload.push(1);
        }
        assert(start_payload@ =~= start_print_payload(quantity, extended));
        let step = self.bool_command(RequestCode::StartPrint, start_payload.as_slice(), 1);
        proof {
            Self::lemma_progress_exchange(start, before, *self, requests, frames, 2, requests[2].1->0);
            frames = frames.push(requests[2].0);
            before = *self;
        }
        if let Err(e) = step {
            return Err(e);
        }
        let step = self.bool_command(RequestCode::StartPagePrint, one.as_slice(), 1);
        proof {
            Self::lemma_progress_exchange(start, before, *self, requests, frames, 3, requests[3].1->0);
            frames = frames.push(requests[3].0);
            before = *self;
        }
        if let Err(e) = step {
            return Err(e);
        }
        let height = u16_to_be(#[verifier::truncate] (image.height() as u16));
        let width = u16_to_be(#[verifier::truncate] (image.width() as u16));
        let mut size_payload: Vec<u8> = Vec::new();
        size_payload.extend_from_slice(height.as_slice());
        size_payload.extend_from_slice(width.as_slice());
        if extended {
            let copies = copies_bytes(quantity);
            size_payload.extend_from_slice(copies.as_slice());
        }
        assert(size_payload@ =~= dimension_payload(
            image@.1 as u16,
            image@.0 as u16,
            quantity,
            extended,
        ));
        let step = self.bool_command(RequestCode::SetDimension, size_payload.as_slice(), 1);
        proof {
            Self::lemma_progress_exchange(start, before, *self, requests, frames, 4, requests[4].1->0);
            frames = frames.push(requests[4].0);
            before = *self;
        }
        if let Err(e) = step {
            return Err(e);
        }
        let mut i: usize = 0;
        while i < rows.len()
            invariant
                image@.1 == 0 || image@.0 <= MAX_IMAGE_WIDTH,
                prints_rows(rows@, image@),
                requests == page_requests(rows@, image@, density, quantity, extended),
                requests.len() == 6 + rows@.len(),
                start == *old(self),
                i <= rows@.len(),
                Self::requests_progress(start, *self, requests, frames, 5 + i),
            decreases rows@.len() - i,
        {
            let ghost row = rows@[i as int]@.1.subrange(6, rows@[i as int]@.1.len() as int);
            assert(packs_row(row, image@, i as int));
            assert(row.len() == row_len(image@.0));
            let ghost previous = *self;
            assert(requests[5 + i] == (frame(rows@[i as int]@.0, rows@[i as int]@.1), None::<u8>));
            let sent = self.send(&rows[i]);
            if let Err(e) = sent {
                proof {
                    Self::lemma_progress_starved(start, previous, *self, requests, frames, 5 + i);
                }
                return Err(e);
            }
            proof {
                Self::lemma_progress_row(start, previous, *self, requests, frames, 5 + i);
                frames = frames.push(requests[5 + i].0);
            }
            i = i + 1;
        }
        let ghost previous = *self;
        let step = self.bool_command(RequestCode::EndPagePrint, one.as_slice(), 1);
        proof {
            let last = 5 + rows@.len() as int;
            Self::lemma_progress_exchange(start, previous, *self, requests, frames, last, requests[last].1->0);
            if step is Ok {
                frames = frames.push(requests[last].0);
                assert(requests.skip(last + 1) =~= Seq::<(Seq<u8>, Option<u8>)>::empty());
                assert(self.reads_since(start) + Seq::<Seq<u8>>::empty() =~= self.reads_since(start));
                assert(frames + Seq::<Seq<u8>>::empty() =~= frames);
            }
        }
        if let Err(e) = step {
            return Err(e);
        }
        Ok(())
    }

    /// Asks whether the job has ended until a reply acknowledges it, pausing
    /// after each reply that does not; see [`run_polls`].
    fn finish_job(&mut self) -> (res: Result<(), PrinterError>)
        ensures
            old(self).read_on(*final(self)),
            ({
                let run = run_polls(final(self).reads_since(*old(self)), old(self).buffered(), 0);
                &&& final(self).sent() == old(self).sent() + run.0
                &&& match res {
                    Ok(_) => run.1 == Some(Ok::<(), PrinterError>(())),
                    Err(PrinterError::Io(_)) => run.1 is None,
                    Err(e) => run.1 == Some(Err::<(), PrinterError>(e)),
                }
            }),
            res matches Err(e) ==> e is Timeout || link_failure(e),
    {
        let ghost start = *self;
        let code = RequestCode::EndPrint.code().wrapping_add(1);
        let mut polls: u64 = 0;
        proof {
            assert(self.reads_since(start) =~= Seq::<Seq<u8>>::empty());
            assert(self.reads().subrange(0, start.reads().len() as int) =~= self.reads());
            assert(self.sent() =~= start.sent() + end_polls(0));
            assert forall|more: Seq<Seq<u8>>| #[trigger]
                run_polls(self.reads_since(start) + more, start.buffered(), 0) == ({
                    let rest = run_polls(more, self.buffered(), 0);
                    (end_polls(0) + rest.0, rest.1)
                }) by {
                assert(self.reads_since(start) + more =~= more);
                assert(end_polls(0) + run_polls(more, self.buffered(), 0).0 =~= run_polls(
                    more,
                    self.buffered(),
                    0,
                ).0);
            }
        }
        while polls < u64::MAX
            invariant
                start == *old(self),
                code == reply_code(RequestCode::EndPrint, 1),
                start.read_on(*self),
                self.sent() == start.sent() + end_polls(polls as nat),
                forall|more: Seq<Seq<u8>>| #[trigger]
                    run_polls(self.reads_since(start) + more, start.buffered(), 0) == ({
                        let rest = run_polls(more, self.buffered(), polls as nat);
                        (end_polls(polls as nat) + rest.0, rest.1)
                    }),
            decreases u64::MAX - polls,
        {
            let ghost previous = *self;
            let acked = self.end_print();
            proof {
                Self::lemma_reads_chain(start, previous, *self);
                let prior = previous.reads_since(start);
                let step = self.reads_since(previous);
                let answer = exchange(previous.buffered(), step, code, 6);
                assert(frame(request_code(RequestCode::EndPrint), seq![1u8]) == end_poll());
                assert(end_polls(polls as nat).push(end_poll()) =~= end_polls(polls as nat + 1));
                assert(self.sent() =~= start.sent() + end_polls(polls as nat + 1));
                lemma_exchange_shape(previous.buffered(), step, Seq::empty(), code, 6);
                if answer.2 matches Some(Ok(reply)) && !acknowledges(reply.1) {
                    assert forall|more: Seq<Seq<u8>>| #[trigger]
                        run_polls(self.reads_since(start) + more, start.buffered(), 0) == ({
                            let rest = run_polls(more, self.buffered(), polls as nat + 1);
                            (end_polls(polls as nat + 1) + rest.0, rest.1)
                        }) by {
                        assert(self.reads_since(start) + more =~= prior + (step + more));
                        lemma_polls_step(step, more, previous.buffered(), polls as nat);
                        let rest = run_polls(more, self.buffered(), polls as nat + 1);
                        assert(end_polls(polls as nat) + (seq![end_poll()] + rest.0)
                            =~= end_polls(polls as nat + 1) + rest.0);
                    }
                } else {
                    lemma_polls_last(step, previous.buffered(), polls as nat);
                    assert(prior + (step + Seq::<Seq<u8>>::empty()) =~= self.reads_since(start));
                    assert(step + Seq::<Seq<u8>>::empty() =~= step);
                    assert(end_polls(polls as nat) + seq![end_poll()] =~= end_polls(
                        polls as nat + 1,
                    ));
                }
            }
            polls = polls + 1;
            match acked {
                Ok(true) => return Ok(()),
                Ok(false) => {},
                Err(e) => return Err(e),
            }
            self.transport.pause(TRANSCEIVE_DELAY_MS);
        }
        proof {
            assert(self.reads_since(start) + Seq::<Seq<u8>>::empty() =~= self.reads_since(start));
            assert(end_polls(polls as nat) + Seq::<Seq<u8>>::empty() =~= end_polls(polls as nat));
        }
        Err(PrinterError::Timeout)
    }

    /// A job whose opening went through and whose page failed.
    #[verifier::spinoff_prover]
    #[verifier::rlimit(50)]
    proof fn lemma_job_page_failed(
        start: Self,
        opened: Self,
        page_done: Self,
        rows: Seq<NiimbotPacket>,
        image: (u32, u32, Seq<u8>),
        density: u8,
        quantity: u16,
        handshake: bool,
        extended: bool,
        e: PrinterError,
    )
        requires
            start.read_on(opened),
            opened.read_on(page_done),
            handshake ==> handshake_run(opened.reads_since(start), start.buffered()) == (
                handshake_frames(),
                Seq::<Seq<u8>>::empty(),
                opened.buffered(),
                Some(Ok::<bool, PrinterError>(extended)),
            ),
            !handshake ==> opened.reads_since(start).len() == 0 && opened.buffered()
                == start.buffered() && !extended,
            opened.sent() == start.sent() + (if handshake {
                handshake_frames()
            } else {
                Seq::<Seq<u8>>::empty()
            }),
            ({
                let run = run_requests(
                    page_done.reads_since(opened),
                    opened.buffered(),
                    page_requests(rows, image, density, quantity, extended),
                );
                match e {
                    PrinterError::Io(_) => run.3 == Some(None::<PrinterError>) && sent_prefix_of(
                        opened.sent(),
                        page_done.sent(),
                        run.0,
                    ) && page_done.sent().len() > opened.sent().len(),
                    _ => run.3 == Some(Some(e)) && page_done.sent() == opened.sent() + run.0,
                }
            }),
        ensures
            start.ran_job(page_done, Err(e), rows, image, density, quantity, handshake),
    {
        Self::lemma_reads_chain(start, opened, page_done);
        let lead = if handshake {
            handshake_frames()
        } else {
            Seq::<Seq<u8>>::empty()
        };
        let page_reads = page_done.reads_since(opened);
        lemma_job_opened(
            opened.reads_since(start),
            page_reads,
            start.buffered(),
            opened.buffered(),
            rows,
            image,
            density,
            quantity,
            handshake,
            extended,
        );
        let page = run_requests(
            page_reads,
            opened.buffered(),
            page_requests(rows, image, density, quantity, extended),
        );
        let k = page_done.sent().len() - opened.sent().len();
        lemma_take_concat(lead, page.0, lead.len() + k);
        assert(page_done.sent() =~= start.sent() + (lead + page.0.take(k)));
        if !(e is Io) {
            assert(page.0.take(k) =~= page.0);
            assert(page_done.sent() =~= start.sent() + (lead + page.0));
        }
    }

    /// A job whose opening and page went through, and whose polls ended with
    /// `res`.
    #[verifier::spinoff_prover]
    #[verifier::rlimit(50)]
    proof fn lemma_job_completed(
        start: Self,
        opened: Self,
        page_done: Self,
        after: Self,
        rows: Seq<NiimbotPacket>,
        image: (u32, u32, Seq<u8>),
        density: u8,
        quantity: u16,
        handshake: bool,
        extended: bool,
        res: Result<(), PrinterError>,
    )
        requires
            start.read_on(opened),
            opened.read_on(page_done),
            page_done.read_on(after),
            handshake ==> handshake_run(opened.reads_since(start), start.buffered()) == (
                handshake_frames(),
                Seq::<Seq<u8>>::empty(),
                opened.buffered(),
                Some(Ok::<bool, PrinterError>(extended)),
            ),
            !handshake ==> opened.reads_since(start).len() == 0 && opened.buffered()
                == start.buffered() && !extended,
            opened.sent() == start.sent() + (if handshake {
                handshake_frames()
            } else {
                Seq::<Seq<u8>>::empty()
            }),
            ({
                let run = run_requests(
                    page_done.reads_since(opened),
                    opened.buffered(),
                    page_requests(rows, image, density, quantity, extended),
                );
                &&& run.3 is None
                &&& run.1.len() == 0
                &&& run.2 == page_done.buffered()
                &&& page_done.sent() == opened.sent() + run.0
            }),
            ({
                let run = run_polls(after.reads_since(page_done), page_done.buffered(), 0);
                &&& after.sent() == page_done.sent() + run.0
                &&& match res {
                    Ok(_) => run.1 == Some(Ok::<(), PrinterError>(())),
                    Err(PrinterError::Io(_)) => run.1 is None,
                    Err(e) => run.1 == Some(Err::<(), PrinterError>(e)),
                }
            }),
        ensures
            start.ran_job(after, res, rows, image, density, quantity, handshake),
    {
        Self::lemma_reads_chain(opened, page_done, after);
        Self::lemma_reads_chain(start, opened, after);
        let page_reads = page_done.reads_since(opened);
        let poll_reads = after.reads_since(page_done);
        lemma_page_then_polls(
            page_reads,
            poll_reads,
            opened.buffered(),
            rows,
            image,
            density,
            quantity,
            extended,
        );
        lemma_job_opened(
            opened.reads_since(start),
            page_reads + poll_reads,
            start.buffered(),
            opened.buffered(),
            rows,
            image,
            density,
            quantity,
            handshake,
            extended,
        );
        let lead = if handshake {
            handshake_frames()
        } else {
            Seq::<Seq<u8>>::empty()
        };
        let page = run_requests(
            page_reads,
            opened.buffered(),
            page_requests(rows, image, density, quantity, extended),
        );
        let polls = run_polls(poll_reads, page_done.buffered(), 0);
        let frames = lead + (page.0 + polls.0);
        assert(after.sent() =~= start.sent() + frames);
        assert(frames.take(frames.len() as int) =~= frames);
        assert(page.0.len() >= 1);
    }

    /// Prints `image` as one page of `quantity` copies at `density` (1 to 5),
    /// over a link that needs the Bluetooth handshake when `handshake` holds:
    /// the handshake, whose status picks the protocol (see
    /// [`uses_new_protocol`]); the page; a pause; then asking whether the job
    /// has ended until the printer acknowledges it. See [`job_run`].
    pub fn run_print_job(&mut self, image: &LumaImage, density: u8, quantity: u16, handshake: bool) -> (res:
        Result<(), PrinterError>)
        requires
            image@.1 == 0 || image@.0 <= MAX_IMAGE_WIDTH,
        ensures
            (res matches Err(PrinterError::InvalidDensity(_))) <==> !(1 <= density <= 5),
            !(1 <= density <= 5) ==> (res matches Err(PrinterError::InvalidDensity(d)) && d
                == density) && *final(self) == *old(self),
            1 <= density <= 5 ==> exists|rows: Seq<NiimbotPacket>|
                #![trigger prints_rows(rows, image@)]
                prints_rows(rows, image@) && old(self).ran_job(
                    *final(self),
                    res,
                    rows,
                    image@,
                    density,
                    quantity,
                    handshake,
                ),
    {
        if density < 1 || density > 5 {
            return Err(PrinterError::InvalidDensity(density));
        }
        let rows = image_rows(image);
        let ghost start = *self;
        let mut extended = false;
        if handshake {
            let negotiated = self.negotiate_protocol();
            match negotiated {
                Ok(e) => extended = e,
                Err(e) => {
                    proof {
                        let run = handshake_run(self.reads_since(start), start.buffered());
                        assert(run.0.len() >= 1);
                        assert(run.0.take(run.0.len() as int) =~= run.0);
                    }
                    return Err(e);
                },
            }
        }
        let ghost opened = *self;
        proof {
            if handshake {
                let run = handshake_run(self.reads_since(start), start.buffered());
                assert(run.1 =~= Seq::<Seq<u8>>::empty());
                assert(run.0 == handshake_frames());
                assert(self.sent() =~= start.sent() + handshake_frames());
            } else {
                assert(self.reads_since(start) =~= Seq::<Seq<u8>>::empty());
                assert(self.reads().subrange(0, start.reads().len() as int) =~= self.reads());
                assert(self.sent() =~= start.sent() + Seq::<Seq<u8>>::empty());
            }
        }
        let paged = self.send_page(&rows, image, density, quantity, extended);
        let ghost page_done = *self;
        proof {
            Self::lemma_reads_chain(start, opened, page_done);
        }
        if let Err(e) = paged {
            proof {
                Self::lemma_job_page_failed(
                    start,
                    opened,
                    page_done,
                    rows@,
                    image@,
                    density,
                    quantity,
                    handshake,
                    extended,
                    e,
                );
            }
            return Err(e);
        }
        self.transport.pause(END_PRINT_SETTLE_MS);
        let ghost settled = *self;
        assert(settled.reads().subrange(0, page_done.reads().len() as int) =~= page_done.reads());
        let finished = self.finish_job();
        proof {
            Self::lemma_reads_chain(page_done, settled, *self);
            assert(self.reads_since(settled) =~= self.reads_since(page_done));
            Self::lemma_job_completed(
                start,
                opened,
                page_done,
                *self,
                rows@,
                image@,
                density,
                quantity,
                handshake,
                extended,
                finished,
            );
        }
        finished
    }

    /// Prints `image` as one page of `quantity` copies at `density` (1 to 5);
    /// the transport tells whether the link needs the Bluetooth handshake.
    /// See [`Self::run_print_job`].
    pub fn print_image(&mut self, image: &LumaImage, density: u8, quantity: u16) -> (res: Result<
        (),
        PrinterError,
    >)
        requires
            image@.1 == 0 || image@.0 <= MAX_IMAGE_WIDTH,
        ensures
            (res matches Err(PrinterError::InvalidDensity(_))) <==> !(1 <= density <= 5),
            !(1 <= density <= 5) ==> (res matches Err(PrinterError::InvalidDensity(d)) && d
                == density) && *final(self) == *old(self),
            1 <= density <= 5 ==> exists|handshake: bool, rows: Seq<NiimbotPacket>|
                #![trigger old(self).ran_job(*final(self), res, rows, image@, density, quantity, handshake)]
                prints_rows(rows, image@) && old(self).ran_job(
                    *final(self),
                    res,
                    rows,
                    image@,
                    density,
                    quantity,
                    handshake,
                ),
    {
        let handshake = self.transport.requires_ble_handshake();
        self.run_print_job(image, density, quantity, handshake)
    }

    /// The packets that print `image`, one per row.
    pub fn encode_image(&self, image: &LumaImage) -> (res: Result<Vec<NiimbotPacket>, PrinterError>)
        ensures
            res matches Ok(packets) && prints_rows(packets@, image@),
    {
        Ok(image_rows(image))
    }
}

/// Picks the serial port to use when none was named: the only one available.
/// `labels[i]` describes `names[i]` for the error that lists several ports.
pub fn select_serial_port(names: Vec<String>, labels: Vec<String>) -> (res: Result<
    String,
    PrinterError,
>)
    requires
        names@.len() == labels@.len(),
    ensures
        names@.len() == 0 ==> res matches Err(PrinterError::NoSerialPortsDetected),
        names@.len() == 1 ==> (res matches Ok(port) && port == names@[0]),
        names@.len() > 1 ==> (res matches Err(PrinterError::TooManySerialPorts(listed)) && listed@
            == labels@),
{
    if names.len() == 0 {
        return Err(PrinterError::NoSerialPortsDetected);
    }
    if names.len() == 1 {
        let mut names = names;
        return Ok(names.remove(0));
    }
    Err(PrinterError::TooManySerialPorts(labels))
}

/// The printer models that the command-line tool knows.
#[derive(Debug, Clone, Copy, PartialEq, Eq)]
pub enum Model {
    B1,
    B18,
    B21,
    D11,
    D110,
}

impl Model {
    /// Widest image, in pixels, that the model prints.
    pub fn max_width_px(self) -> (res: u32)
        ensures
            res == (match self {
                Model::B1 | Model::B18 | Model::B21 => 384u32,
                Model::D11 | Model::D110 => 96u32,
            }),
            res <= MAX_IMAGE_WIDTH,
    {
        match self {
            Model::B1 | Model::B18 | Model::B21 => 384,
            Model::D11 | Model::D110 => 96,
        }
    }

    /// Highest print density that the model supports; always one that
    /// [`PrinterClient::set_label_density`] accepts.
    pub fn max_density(self) -> (res: u8)
        ensures
            res == (match self {
                Model::B18 | Model::D11 | Model::D110 => 3u8,
                Model::B1 | Model::B21 => 5u8,
            }),
            1 <= res <= 5,
    {
        match self {
            Model::B18 | Model::D11 | Model::D110 => 3,
            Model::B1 | Model::B21 => 5,
        }
    }
}

} // verus!
