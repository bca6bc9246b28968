//! The frames that host and device exchange over the stream channel.
//!
//! A frame is an opcode, the length of the payload as two bytes, low byte first, and the payload.
use vstd::prelude::*;

verus! {

/// The version of the protocol.
pub const STREAM_PROTO_VERSION: u8 = 1;

/// How many bytes of a frame come before its payload.
pub const STREAM_FRAME_HEADER_BYTES: usize = 3;

/// How many bytes one USB packet holds.
pub const USB_MAX_PACKET_SIZE: u16 = 64;

/// The low byte of a number.
pub open spec fn low_byte(n: int) -> u8 {
    (n % 0x100) as u8
}

/// The next higher byte of a number.
pub open spec fn high_byte(n: int) -> u8 {
    ((n / 0x100) % 0x100) as u8
}

/// The number that a low and a high byte make.
pub open spec fn word(low: u8, high: u8) -> nat {
    low as nat + 0x100 * (high as nat)
}

/// A number of sixteen bits is made of its two bytes.
pub proof fn lemma_word(n: int)
    requires
        0 <= n < 0x1_0000,
    ensures
        word(low_byte(n), high_byte(n)) == n,
{
}

/// The low byte of a number.
pub fn low_byte_of(n: u16) -> (b: u8)
    ensures
        b == low_byte(n as int),
{
    (n % 0x100) as u8
}

/// The high byte of a number.
pub fn high_byte_of(n: u16) -> (b: u8)
    ensures
        b == high_byte(n as int),
{
    (n / 0x100) as u8
}

/// The number that a low and a high byte make.
pub fn word_of(low: u8, high: u8) -> (n: usize)
    ensures
        n == word(low, high),
{
    low as usize + 0x100 * (high as usize)
}

/// The bytes of a frame before its payload.
pub open spec fn header_bytes(opcode: u8, len: nat) -> Seq<u8> {
    seq![opcode, low_byte(len as int), high_byte(len as int)]
}

/// The bytes of a frame.
pub open spec fn frame_bytes(opcode: u8, payload: Seq<u8>) -> Seq<u8> {
    header_bytes(opcode, payload.len()) + payload
}

/// How many bytes the frame has whose header stands at the front of `bytes`.
pub open spec fn frame_len(bytes: Seq<u8>) -> nat {
    STREAM_FRAME_HEADER_BYTES as nat + word(bytes[1], bytes[2])
}

/// The bytes before the payload of a frame.
pub fn frame_header(opcode: u8, len: u16) -> (header: [u8; 3])
    ensures
        header@ == header_bytes(opcode, len as nat),
{
    let header: [u8; 3] = [opcode, low_byte_of(len), high_byte_of(len)];
    assert(header@ =~= header_bytes(opcode, len as nat));
    header
}

/// Some byte strings in a row.
pub open spec fn joined(parts: Seq<Seq<u8>>) -> Seq<u8>
    decreases parts.len(),
{
    if parts.len() == 0 {
        Seq::empty()
    } else {
        joined(parts.drop_last()) + parts.last()
    }
}

/// The packets as sequences.
pub open spec fn packet_views(packets: Seq<Vec<u8>>) -> Seq<Seq<u8>> {
    packets.map_values(|p: Vec<u8>| p@)
}

/// Copies a part of some bytes.
pub fn copy_range(bytes: &[u8], lo: usize, hi: usize) -> (part: Vec<u8>)
    requires
        lo <= hi <= bytes@.len(),
    ensures
        part@ == bytes@.subrange(lo as int, hi as int),
{
    let mut part: Vec<u8> = Vec::new();
    let mut i: usize = lo;
    while i < hi
        invariant
            lo <= i <= hi <= bytes@.len(),
            part@ == bytes@.subrange(lo as int, i as int),
        decreases hi - i,
    {
        part.push(bytes[i]);
        assert(part@ =~= bytes@.subrange(lo as int, i + 1));
        i = i + 1;
    }
    part
}

/// The packets in which bytes go over USB: every packet but the last is full, and none is empty.
pub open spec fn are_packets_of(packets: Seq<Seq<u8>>, bytes: Seq<u8>, max_packet: nat) -> bool {
    &&& joined(packets) == bytes
    &&& forall|k: int| 0 <= k < packets.len() - 1 ==> (#[trigger] packets[k]).len() == max_packet
    &&& packets.len() > 0 ==> 0 < packets.last().len() <= max_packet
}

/// Cuts bytes into packets for USB.
pub fn usb_packets(bytes: &[u8], max_packet: usize) -> (packets: Vec<Vec<u8>>)
    requires
        max_packet > 0,
    ensures
        are_packets_of(packet_views(packets@), bytes@, max_packet as nat),
{
    let mut packets: Vec<Vec<u8>> = Vec::new();
    let mut at: usize = 0;
    assert(joined(packet_views(packets@)) =~= bytes@.take(0));
    while at < bytes.len()
        invariant
            at <= bytes@.len(),
            max_packet > 0,
            joined(packet_views(packets@)) == bytes@.take(at as int),
            forall|k: int| 0 <= k < packets@.len() - 1 ==> (#[trigger] packets@[k])@.len() == max_packet,
            at < bytes@.len() && packets@.len() > 0 ==> packets@.last()@.len() == max_packet,
            packets@.len() > 0 ==> 0 < packets@.last()@.len() <= max_packet,
        decreases bytes@.len() - at,
    {
        let left: usize = bytes.len() - at;
        let chunk_len: usize = if left < max_packet { left } else { max_packet };
        let ghost earlier = packet_views(packets@);
        let packet = copy_range(bytes, at, at + chunk_len);
        packets.push(packet);
        proof {
            let now = packet_views(packets@);
            assert(now.drop_last() =~= earlier);
            assert(now.last() =~= bytes@.subrange(at as int, at + chunk_len));
            assert(bytes@.take(at + chunk_len) =~= bytes@.take(at as int) + bytes@.subrange(
                at as int,
                at + chunk_len,
            ));
        }
        at = at + chunk_len;
    }
    assert(bytes@.take(at as int) =~= bytes@);
    packets
}

}
