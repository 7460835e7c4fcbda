//! Wire framing of the printer protocol.
//!
//! A frame is `55 55 | type | len | data[len] | checksum | AA AA`, where the
//! checksum is the XOR of the type byte, the length byte and every data byte.
use vstd::prelude::*;
use vstd::slice::slice_to_vec;

verus! {

/// Bytes a frame adds around its payload: header (2), type, length,
/// checksum and footer (2).
pub const FRAME_OVERHEAD: usize = 7;

/// Largest payload that the one-byte length field can describe.
pub const MAX_PAYLOAD_LEN: usize = 255;

/// `start` XORed with every byte of `bytes`, taken from left to right.
pub open spec fn xor_fold(start: u8, bytes: Seq<u8>) -> u8
    decreases bytes.len(),
{
    if bytes.len() == 0 {
        start
    } else {
        xor_fold(start, bytes.drop_last()) ^ bytes.last()
    }
}

/// Checksum of a frame: the type byte, the length byte and the data, XORed.
pub open spec fn packet_checksum(packet_type: u8, data: Seq<u8>) -> u8 {
    xor_fold(packet_type ^ (data.len() as u8), data)
}

/// The wire bytes of a packet with the given type and payload.
pub open spec fn frame(packet_type: u8, data: Seq<u8>) -> Seq<u8> {
    seq![0x55u8, 0x55u8, packet_type, data.len() as u8] + data + seq![
        packet_checksum(packet_type, data),
        0xAAu8,
        0xAAu8,
    ]
}

/// What reading a frame from `bytes` yields: the packet's type and payload, or
/// the first check that fails, in the order header, footer, length, checksum.
pub open spec fn parse_frame(bytes: Seq<u8>) -> Result<(u8, Seq<u8>), PacketError> {
    let n = bytes.len();
    if n < 7 {
        Err(PacketError::TooShort(n as usize))
    } else if bytes[0] != 0x55u8 || bytes[1] != 0x55u8 {
        Err(PacketError::InvalidHeader)
    } else if bytes[n - 2] != 0xAAu8 || bytes[n - 1] != 0xAAu8 {
        Err(PacketError::InvalidFooter)
    } else if n != bytes[3] + 7 {
        Err(PacketError::InvalidLength { declared: bytes[3] as usize, actual: n as usize })
    } else {
        let data = bytes.subrange(4, n - 3);
        let expected = packet_checksum(bytes[2], data);
        if expected != bytes[n - 3] {
            Err(PacketError::InvalidChecksum { expected, actual: bytes[n - 3] })
        } else {
            Ok((bytes[2], data))
        }
    }
}

/// Why a byte string is not a valid frame.
#[allow(inconsistent_fields)]
#[derive(Debug, Clone, PartialEq, Eq)]
pub enum PacketError {
    TooShort(usize),
    InvalidHeader,
    InvalidFooter,
    InvalidLength { declared: usize, actual: usize },
    InvalidChecksum { expected: u8, actual: u8 },
}

/// One protocol packet: a type byte and a payload.
#[derive(Clone, PartialEq, Eq, Debug)]
pub struct NiimbotPacket {
    packet_type: u8,
    data: Vec<u8>,
}

impl View for NiimbotPacket {
    type V = (u8, Seq<u8>);

    closed spec fn view(&self) -> (u8, Seq<u8>) {
        (self.packet_type, self.data@)
    }
}

/// Checksum of a packet, computed over its payload.
fn checksum(packet_type: u8, data: &[u8]) -> (res: u8)
    requires
        data@.len() <= MAX_PAYLOAD_LEN,
    ensures
        res == packet_checksum(packet_type, data@),
{
    let data_len = data.len() as u8;
    let mut sum = packet_type ^ data_len;
    let mut i: usize = 0;
    while i < data.len()
        invariant
            i <= data@.len(),
            data@.len() <= MAX_PAYLOAD_LEN,
            data_len == data@.len() as u8,
            sum == xor_fold(packet_type ^ data_len, data@.take(i as int)),
        decreases data@.len() - i,
    {
        assert(data@.take(i + 1).drop_last() =~= data@.take(i as int));
        sum = sum ^ data[i];
        i = i + 1;
    }
    assert(data@.take(i as int) =~= data@);
    sum
}

impl NiimbotPacket {
    pub fn new(packet_type: u8, data: Vec<u8>) -> (res: Self)
        ensures
            res@ == (packet_type, data@),
    {
        Self { packet_type, data }
    }

    pub fn packet_type(&self) -> (res: u8)
        ensures
            res == self@.0,
    {
        self.packet_type
    }

    pub fn data(&self) -> (res: &[u8])
        ensures
            res@ == self@.1,
    {
        self.data.as_slice()
    }

    pub fn into_data(self) -> (res: Vec<u8>)
        ensures
            res@ == self@.1,
    {
        self.data
    }

    /// Parses a protocol packet from its raw wire representation.
    ///
    /// Returns [`PacketError`] when the packet header, footer, checksum, or
    /// declared payload length does not match the provided bytes.
    pub fn from_bytes(bytes: &[u8]) -> (res: Result<Self, PacketError>)
        ensures
            match res {
                Ok(packet) => parse_frame(bytes@) == Ok::<(u8, Seq<u8>), PacketError>(packet@),
                Err(e) => parse_frame(bytes@) == Err::<(u8, Seq<u8>), PacketError>(e),
            },
    {
        let n = bytes.len();
        if n < 7 {
            return Err(PacketError::TooShort(n));
        }
        if bytes[0] != 0x55 || bytes[1] != 0x55 {
            return Err(PacketError::InvalidHeader);
        }
        if bytes[n - 2] != 0xAA || bytes[n - 1] != 0xAA {
            return Err(PacketError::InvalidFooter);
        }
        let packet_type = bytes[2];
        let data_len = bytes[3] as usize;
        let expected_len = data_len + FRAME_OVERHEAD;
        if n != expected_len {
            return Err(PacketError::InvalidLength { declared: data_len, actual: n });
        }
        let data = &bytes[4..4 + data_len];
        assert(data@ =~= bytes@.subrange(4, n - 3));
        let expected_checksum = checksum(packet_type, data);
        let actual_checksum = bytes[n - 3];
        if expected_checksum != actual_checksum {
            return Err(
                PacketError::InvalidChecksum { expected: expected_checksum, actual: actual_checksum },
            );
        }
        Ok(Self::new(packet_type, slice_to_vec(data)))
    }

    /// Serializes this packet into the wire format expected by the printer.
    /// The payload must fit the protocol's one-byte length field.
    pub fn to_bytes(&self) -> (res: Vec<u8>)
        requires
            self@.1.len() <= MAX_PAYLOAD_LEN,
        ensures
            res@ == frame(self@.0, self@.1),
    {
        let data_len = self.data.len() as u8;
        let mut out: Vec<u8> = Vec::with_capacity(self.data.len() + FRAME_OVERHEAD);
        out.push(0x55);
        out.push(0x55);
        out.push(self.packet_type);
        out.push(data_len);
        let mut i: usize = 0;
        while i < self.data.len()
            invariant
                i <= self.data@.len(),
                out@ =~= seq![0x55u8, 0x55u8, self.packet_type, data_len] + self.data@.take(
                    i as int,
                ),
            decreases self.data@.len() - i,
        {
            out.push(self.data[i]);
            i = i + 1;
        }
        out.push(checksum(self.packet_type, self.data.as_slice()));
        out.push(0xAA);
        out.push(0xAA);
        assert(self.data@.take(i as int) =~= self.data@);
        assert(out@ =~= frame(self.packet_type, self.data@));
        out
    }
}

/// Reading a frame back from the bytes written for it gives the same packet.
pub proof fn lemma_frame_then_parse(packet_type: u8, data: Seq<u8>)
    requires
        data.len() <= MAX_PAYLOAD_LEN,
    ensures
        frame(packet_type, data).len() == data.len() + FRAME_OVERHEAD,
        parse_frame(frame(packet_type, data)) == Ok::<(u8, Seq<u8>), PacketError>(
            (packet_type, data),
        ),
{
    let f = frame(packet_type, data);
    let n = f.len();
    assert(f.subrange(4, n - 3) =~= data);
}

/// A frame that parses is exactly the frame written for the packet it yields:
/// every accepted byte string is the canonical encoding of its packet.
pub proof fn lemma_parse_then_frame(bytes: Seq<u8>)
    requires
        parse_frame(bytes) is Ok,
    ensures
        ({
            let (packet_type, data) = parse_frame(bytes)->Ok_0;
            &&& data.len() <= MAX_PAYLOAD_LEN
            &&& frame(packet_type, data) == bytes
        }),
{
    let n = bytes.len();
    let data = bytes.subrange(4, n - 3);
    assert(data.len() == bytes[3]);
    assert(frame(bytes[2], data) =~= bytes);
}


/// What draining complete frames from the front of a receive buffer yields:
/// the packets read in order, the bytes left over, and the error that
/// stopped the draining, if any. A frame is complete once the buffer holds
/// more than four bytes and at least as many as its length byte announces;
/// an invalid complete frame is dropped from the buffer and ends the draining.
pub open spec fn drain_frames(buf: Seq<u8>) -> (Seq<(u8, Seq<u8>)>, Seq<u8>, Option<PacketError>)
    decreases buf.len(),
{
    if buf.len() <= 4 || buf.len() < buf[3] + 7 {
        (Seq::empty(), buf, None)
    } else {
        let n = buf[3] + 7;
        match parse_frame(buf.subrange(0, n)) {
            Err(e) => (Seq::empty(), buf.subrange(n, buf.len() as int), Some(e)),
            Ok(p) => {
                let rest = drain_frames(buf.subrange(n, buf.len() as int));
                (seq![p] + rest.0, rest.1, rest.2)
            },
        }
    }
}

/// Drains every complete frame from the front of `buffer` and parses it.
///
/// Stops at the first frame that fails to parse and returns its error; that
/// frame is removed from the buffer, and the packets parsed before it in this
/// call are dropped. Incomplete trailing bytes stay in the buffer.
pub fn take_packets(buffer: &mut Vec<u8>) -> (res: Result<Vec<NiimbotPacket>, PacketError>)
    ensures
        final(buffer)@ == drain_frames(old(buffer)@).1,
        match res {
            Ok(packets) => {
                &&& drain_frames(old(buffer)@).2 is None
                &&& packets@.len() == drain_frames(old(buffer)@).0.len()
                &&& forall|i: int|
                    0 <= i < packets@.len() ==> #[trigger] packets@[i]@ == drain_frames(
                        old(buffer)@,
                    ).0[i]
            },
            Err(e) => drain_frames(old(buffer)@).2 == Some(e),
        },
{
    let ghost whole = buffer@;
    let mut packets: Vec<NiimbotPacket> = Vec::new();
    let mut pos: usize = 0;
    let len = buffer.len();
    assert(whole.subrange(0, len as int) =~= whole);
    while len - pos > 4
        invariant
            buffer@ == whole,
            old(buffer)@ == whole,
            len == whole.len(),
            pos <= len,
            drain_frames(whole).1 == drain_frames(whole.subrange(pos as int, len as int)).1,
            drain_frames(whole).2 == drain_frames(whole.subrange(pos as int, len as int)).2,
            drain_frames(whole).0 =~= packets@.map_values(|p: NiimbotPacket| p@) + drain_frames(
                whole.subrange(pos as int, len as int),
            ).0,
        ensures
            len - pos <= 4 || len - pos < whole[pos + 3] + 7,
        decreases len - pos,
    {
        let ghost rest = whole.subrange(pos as int, len as int);
        let frame_len = buffer[pos + 3] as usize + FRAME_OVERHEAD;
        assert(rest[3] == whole[pos + 3]);
        if len - pos < frame_len {
            break;
        }
        let raw = &buffer.as_slice()[pos..pos + frame_len];
        assert(raw@ =~= rest.subrange(0, frame_len as int));
        assert(rest.subrange(frame_len as int, rest.len() as int) =~= whole.subrange(
            pos + frame_len,
            len as int,
        ));
        match NiimbotPacket::from_bytes(raw) {
            Err(e) => {
                assert(drain_frames(rest).2 == Some(e));
                let tail = slice_to_vec(&buffer.as_slice()[pos + frame_len..len]);
                assert(tail@ =~= drain_frames(rest).1);
                *buffer = tail;
                return Err(e);
            },
            Ok(packet) => {
                let ghost before = packets@.map_values(|p: NiimbotPacket| p@);
                let ghost next = drain_frames(rest.subrange(frame_len as int, rest.len() as int)).0;
                packets.push(packet);
                pos = pos + frame_len;
                assert(packets@.map_values(|p: NiimbotPacket| p@) =~= before.push(packet@));
                assert(before + (seq![packet@] + next) =~= before.push(packet@) + next);
            },
        }
    }
    let tail = slice_to_vec(&buffer.as_slice()[pos..len]);
    *buffer = tail;
    proof {
        let rest = whole.subrange(pos as int, len as int);
        assert(drain_frames(rest).0 =~= Seq::<(u8, Seq<u8>)>::empty());
        assert(drain_frames(whole).0 =~= packets@.map_values(|p: NiimbotPacket| p@));
        assert(packets@.map_values(|p: NiimbotPacket| p@).len() == packets@.len());
    }
    Ok(packets)
}


/// The byte stream that carries `packets` one after another.
pub open spec fn frames(packets: Seq<(u8, Seq<u8>)>) -> Seq<u8>
    decreases packets.len(),
{
    if packets.len() == 0 {
        Seq::empty()
    } else {
        frame(packets[0].0, packets[0].1) + frames(packets.drop_first())
    }
}

/// Every payload fits the one-byte length field.
pub open spec fn payloads_fit(packets: Seq<(u8, Seq<u8>)>) -> bool {
    forall|i: int| 0 <= i < packets.len() ==> #[trigger] packets[i].1.len() <= MAX_PAYLOAD_LEN
}

/// True when `bytes` do not yet hold a complete frame.
pub open spec fn incomplete_frame(bytes: Seq<u8>) -> bool {
    bytes.len() <= 4 || bytes.len() < bytes[3] + 7
}

/// A buffer that starts with a whole valid frame yields that frame's packet
/// first, then whatever the rest of the buffer yields.
pub proof fn lemma_drain_frame_prefix(packet_type: u8, data: Seq<u8>, rest: Seq<u8>)
    requires
        data.len() <= MAX_PAYLOAD_LEN,
    ensures
        drain_frames(frame(packet_type, data) + rest) == (
            seq![(packet_type, data)] + drain_frames(rest).0,
            drain_frames(rest).1,
            drain_frames(rest).2,
        ),
{
    let f = frame(packet_type, data);
    let buf = f + rest;
    lemma_frame_then_parse(packet_type, data);
    assert(buf[3] == data.len());
    assert(buf.subrange(0, f.len() as int) =~= f);
    assert(buf.subrange(f.len() as int, buf.len() as int) =~= rest);
}

/// Draining the stream of a sequence of packets, followed by bytes that do not
/// yet form a complete frame, yields exactly those packets, in order, and
/// keeps the unfinished bytes buffered.
pub proof fn lemma_drain_stream(packets: Seq<(u8, Seq<u8>)>, tail: Seq<u8>)
    requires
        payloads_fit(packets),
        incomplete_frame(tail),
    ensures
        drain_frames(frames(packets) + tail) == (packets, tail, None::<PacketError>),
    decreases packets.len(),
{
    if packets.len() == 0 {
        assert(frames(packets) + tail =~= tail);
    } else {
        let rest = packets.drop_first();
        assert(packets[0].1.len() <= MAX_PAYLOAD_LEN);
        assert(payloads_fit(rest)) by {
            assert forall|i: int| 0 <= i < rest.len() implies #[trigger] rest[i].1.len()
                <= MAX_PAYLOAD_LEN by {
                assert(rest[i] == packets[i + 1]);
            }
        }
        lemma_drain_stream(rest, tail);
        assert(frames(packets) + tail =~= frame(packets[0].0, packets[0].1) + (frames(rest)
            + tail));
        lemma_drain_frame_prefix(packets[0].0, packets[0].1, frames(rest) + tail);
        assert(seq![(packets[0].0, packets[0].1)] + rest =~= packets);
    }
}

/// What a receiver makes of the byte strings `chunks`, read one after the
/// other into a buffer that held `buffer`: each read is appended to the buffer
/// and the complete frames are drained from it. Gives the packets drained, in
/// order, the bytes left buffered, and the error of an invalid frame, which
/// ends the reception.
pub open spec fn receive_chunks(buffer: Seq<u8>, chunks: Seq<Seq<u8>>) -> (
    Seq<(u8, Seq<u8>)>,
    Seq<u8>,
    Option<PacketError>,
)
    decreases chunks.len(),
{
    if chunks.len() == 0 {
        (Seq::empty(), buffer, None)
    } else {
        let first = drain_frames(buffer + chunks[0]);
        if first.2 is Some {
            first
        } else {
            let rest = receive_chunks(first.1, chunks.drop_first());
            (first.0 + rest.0, rest.1, rest.2)
        }
    }
}

/// The packets after the first `j` still fit their length fields.
proof fn lemma_payloads_fit_skip(packets: Seq<(u8, Seq<u8>)>, j: int)
    requires
        payloads_fit(packets),
        0 <= j <= packets.len(),
    ensures
        payloads_fit(packets.skip(j)),
{
    assert forall|i: int| 0 <= i < packets.skip(j).len() implies #[trigger] packets.skip(
        j,
    )[i].1.len() <= MAX_PAYLOAD_LEN by {
        assert(packets.skip(j)[i] == packets[i + j]);
    }
}

/// Draining the first `cut` bytes of the stream of `packets` yields the
/// packets whose frames lie wholly among them, in order, and keeps the start
/// of the next frame buffered: that start, followed by the rest of the stream,
/// is the stream of the packets not yet drained.
proof fn lemma_drain_stream_prefix(packets: Seq<(u8, Seq<u8>)>, cut: int)
    requires
        payloads_fit(packets),
        0 <= cut <= frames(packets).len(),
    ensures
        ({
            let stream = frames(packets);
            let drained = drain_frames(stream.take(cut));
            let j = drained.0.len() as int;
            &&& drained.2 is None
            &&& j <= packets.len()
            &&& drained.0 == packets.take(j)
            &&& incomplete_frame(drained.1)
            &&& drained.1 + stream.skip(cut) == frames(packets.skip(j))
        }),
    decreases packets.len(),
{
    let stream = frames(packets);
    if packets.len() == 0 {
        assert(stream.take(cut) =~= Seq::<u8>::empty());
        assert(stream.skip(cut) =~= Seq::<u8>::empty());
        assert(packets.take(0) =~= packets);
        assert(packets.skip(0) =~= packets);
        assert(Seq::<u8>::empty() + Seq::<u8>::empty() =~= Seq::<u8>::empty());
    } else {
        let (t, d) = packets[0];
        let rest = packets.drop_first();
        let f = frame(t, d);
        assert(d.len() <= MAX_PAYLOAD_LEN);
        lemma_payloads_fit_skip(packets, 1);
        assert(rest =~= packets.skip(1));
        assert(stream == f + frames(rest));
        lemma_frame_then_parse(t, d);
        if cut < f.len() {
            let head = stream.take(cut);
            if head.len() > 4 {
                assert(head[3] == d.len());
            }
            assert(incomplete_frame(head));
            assert(head + stream.skip(cut) =~= stream);
            assert(packets.take(0) =~= Seq::<(u8, Seq<u8>)>::empty());
            assert(packets.skip(0) =~= packets);
        } else {
            let k = cut - f.len();
            lemma_drain_stream_prefix(rest, k);
            let inner = frames(rest);
            assert(stream.take(cut) =~= f + inner.take(k));
            assert(stream.skip(cut) =~= inner.skip(k));
            lemma_drain_frame_prefix(t, d, inner.take(k));
            let j = drain_frames(inner.take(k)).0.len() as int;
            assert(seq![(t, d)] + rest.take(j) =~= packets.take(j + 1));
            assert(rest.skip(j) =~= packets.skip(j + 1));
        }
    }
}

/// Reassembly: however the stream of a sequence of packets is cut into reads,
/// receiving the reads one after the other, from an empty buffer, yields every
/// packet exactly once, in order, with no error and nothing left buffered.
pub proof fn lemma_reassembly(packets: Seq<(u8, Seq<u8>)>, chunks: Seq<Seq<u8>>)
    requires
        payloads_fit(packets),
        chunks.flatten() == frames(packets),
    ensures
        receive_chunks(Seq::empty(), chunks) == (packets, Seq::<u8>::empty(), None::<PacketError>),
{
    assert(Seq::<u8>::empty() + chunks.flatten() =~= chunks.flatten());
    lemma_receive_stream(packets, Seq::empty(), chunks);
}

/// Receiving reads that complete the stream of `packets`, from a buffer that
/// holds the start of that stream but no complete frame, yields those packets.
proof fn lemma_receive_stream(packets: Seq<(u8, Seq<u8>)>, buffer: Seq<u8>, chunks: Seq<Seq<u8>>)
    requires
        payloads_fit(packets),
        incomplete_frame(buffer),
        buffer + chunks.flatten() == frames(packets),
    ensures
        receive_chunks(buffer, chunks) == (packets, Seq::<u8>::empty(), None::<PacketError>),
    decreases chunks.len(),
{
    if chunks.len() == 0 {
        assert(buffer =~= buffer + chunks.flatten());
        if packets.len() > 0 {
            let (t, d) = packets[0];
            assert(d.len() <= MAX_PAYLOAD_LEN);
            lemma_frame_then_parse(t, d);
            assert(buffer[3] == d.len());
        }
        assert(packets =~= Seq::<(u8, Seq<u8>)>::empty());
    } else {
        let stream = frames(packets);
        let x = buffer + chunks[0];
        let rest = chunks.drop_first();
        assert(chunks.flatten() == chunks[0] + rest.flatten());
        assert(stream =~= x + rest.flatten());
        assert(stream.take(x.len() as int) =~= x);
        assert(stream.skip(x.len() as int) =~= rest.flatten());
        lemma_drain_stream_prefix(packets, x.len() as int);
        let drained = drain_frames(x);
        let j = drained.0.len() as int;
        lemma_payloads_fit_skip(packets, j);
        lemma_receive_stream(packets.skip(j), drained.1, rest);
        assert(packets.take(j) + packets.skip(j) =~= packets);
    }
}

} // verus!
