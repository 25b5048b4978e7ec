//! Framing of voice packets: `[origin id: u32 LE][sequence: u16 LE][payload]`.

use byteorder::{ByteOrder, LittleEndian};
use vstd::prelude::*;

verus! {

/// Number of header bytes in front of the codec payload.
pub const PACKET_HEADER_SIZE: usize = 6;

/// Why a byte string could not be read as a packet.
#[derive(Debug, Clone, Copy, PartialEq, Eq)]
pub enum PacketError {
    /// Fewer bytes than a header holds.
    MalformedHeader,
}

/// The four bytes that encode `n` in little-endian order.
pub open spec fn le_bytes_u32(n: u32) -> Seq<u8> {
    seq![
        (n % 256) as u8,
        ((n / 256) % 256) as u8,
        ((n / 65536) % 256) as u8,
        ((n / 16777216) % 256) as u8,
    ]
}

/// The two bytes that encode `n` in little-endian order.
pub open spec fn le_bytes_u16(n: u16) -> Seq<u8> {
    seq![(n % 256) as u8, ((n / 256) % 256) as u8]
}

/// The number whose little-endian encoding starts `bytes` (four bytes are read).
pub open spec fn le_value_u32(bytes: Seq<u8>) -> int {
    bytes[0] + 256 * bytes[1] + 65536 * bytes[2] + 16777216 * bytes[3]
}

/// The number whose little-endian encoding starts `bytes` (two bytes are read).
pub open spec fn le_value_u16(bytes: Seq<u8>) -> int {
    bytes[0] + 256 * bytes[1]
}

/// The wire image of a packet.
pub open spec fn packet_bytes(origin_id: u32, seq: u16, payload: Seq<u8>) -> Seq<u8> {
    le_bytes_u32(origin_id) + le_bytes_u16(seq) + payload
}

/// Origin id carried by the header of `data`.
pub open spec fn header_origin(data: Seq<u8>) -> int {
    le_value_u32(data.subrange(0, 4))
}

/// Sequence number carried by the header of `data`.
pub open spec fn header_seq(data: Seq<u8>) -> int {
    le_value_u16(data.subrange(4, 6))
}

/// Payload that follows the header of `data`.
pub open spec fn payload_of(data: Seq<u8>) -> Seq<u8> {
    data.subrange(PACKET_HEADER_SIZE as int, data.len() as int)
}

/// Trusted: `byteorder::LittleEndian::write_u32` stores the little-endian
/// encoding of `n` in the first four bytes of the buffer, which here is the
/// whole buffer.
#[verifier::external_body]
fn le_write_u32(buf: &mut [u8; 4], n: u32)
    ensures
        final(buf)@ == le_bytes_u32(n),
{
    LittleEndian::write_u32(buf, n)
}

/// Trusted: `byteorder::LittleEndian::write_u16` stores the little-endian
/// encoding of `n` in the first two bytes of the buffer, which here is the
/// whole buffer.
#[verifier::external_body]
fn le_write_u16(buf: &mut [u8; 2], n: u16)
    ensures
        final(buf)@ == le_bytes_u16(n),
{
    LittleEndian::write_u16(buf, n)
}

/// Trusted: `byteorder::LittleEndian::read_u32` decodes the first four bytes
/// of the buffer as a little-endian number. It panics on a shorter buffer.
#[verifier::external_body]
fn le_read_u32(buf: &[u8]) -> (n: u32)
    requires
        buf@.len() >= 4,
    ensures
        n == le_value_u32(buf@),
{
    LittleEndian::read_u32(buf)
}

/// Trusted: `byteorder::LittleEndian::read_u16` decodes the first two bytes
/// of the buffer as a little-endian number. It panics on a shorter buffer.
#[verifier::external_body]
fn le_read_u16(buf: &[u8]) -> (n: u16)
    requires
        buf@.len() >= 2,
    ensures
        n == le_value_u16(buf@),
{
    LittleEndian::read_u16(buf)
}

/// Frames a codec payload: header first, payload verbatim, no length prefix.
pub fn wrap_packet(origin_id: u32, seq: u16, opus_data: &[u8]) -> (packet: Vec<u8>)
    ensures
        packet@ == packet_bytes(origin_id, seq, opus_data@),
{
    let mut packet: Vec<u8> = Vec::new();
    let mut id_buf = [0u8; 4];
    let mut seq_buf = [0u8; 2];
    le_write_u32(&mut id_buf, origin_id);
    le_write_u16(&mut seq_buf, seq);
    packet.extend_from_slice(&id_buf);
    packet.extend_from_slice(&seq_buf);
    packet.extend_from_slice(opus_data);
    packet
}

/// Splits a received byte string into origin id, sequence number and a view
/// of the payload. Fails exactly when the bytes cannot hold a header.
pub fn unwrap_packet(data: &[u8]) -> (r: Result<(u32, u16, &[u8]), PacketError>)
    ensures
        data@.len() < PACKET_HEADER_SIZE ==> r == Err::<(u32, u16, &[u8]), PacketError>(
            PacketError::MalformedHeader,
        ),
        data@.len() >= PACKET_HEADER_SIZE ==> r is Ok,
        r matches Ok((origin_id, seq, payload)) ==> {
            &&& origin_id == header_origin(data@)
            &&& seq == header_seq(data@)
            &&& payload@ == payload_of(data@)
        },
{
    if data.len() < PACKET_HEADER_SIZE {
        return Err(PacketError::MalformedHeader);
    }
    let origin_id = le_read_u32(&data[0..4]);
    let seq = le_read_u16(&data[4..6]);
    Ok((origin_id, seq, &data[PACKET_HEADER_SIZE..data.len()]))
}

/// Reads a received packet for the inbound queue: origin id, sequence
/// number and a copy of the payload. Packets too short to hold a header
/// and packets without a payload are dropped.
pub fn deframe(data: &[u8]) -> (inbound: Option<(u32, u16, Vec<u8>)>)
    ensures
        inbound is Some <==> data@.len() > PACKET_HEADER_SIZE,
        inbound matches Some((origin_id, seq, payload)) ==> {
            &&& origin_id == header_origin(data@)
            &&& seq == header_seq(data@)
            &&& payload@ == payload_of(data@)
        },
{
    match unwrap_packet(data) {
        Ok((origin_id, seq, opus_data)) => {
            if opus_data.len() == 0 {
                None
            } else {
                let mut payload: Vec<u8> = Vec::new();
                payload.extend_from_slice(opus_data);
                assert(payload@ =~= opus_data@);
                Some((origin_id, seq, payload))
            }
        },
        Err(_) => None,
    }
}

/// Decoding the little-endian bytes of a 32-bit number gives the number back.
pub proof fn lemma_le_u32_roundtrip(n: u32)
    ensures
        le_bytes_u32(n).len() == 4,
        le_value_u32(le_bytes_u32(n)) == n,
{
    let b = le_bytes_u32(n);
    let n0 = n as int % 256;
    let n1 = (n as int / 256) % 256;
    let n2 = (n as int / 65536) % 256;
    let n3 = (n as int / 16777216) % 256;
    assert(b[0] == n0 && b[1] == n1 && b[2] == n2 && b[3] == n3);
    assert(n0 + 256 * n1 + 65536 * n2 + 16777216 * n3 == n);
}

/// Decoding the little-endian bytes of a 16-bit number gives the number back.
pub proof fn lemma_le_u16_roundtrip(n: u16)
    ensures
        le_bytes_u16(n).len() == 2,
        le_value_u16(le_bytes_u16(n)) == n,
{
    let b = le_bytes_u16(n);
    let n0 = n as int % 256;
    let n1 = (n as int / 256) % 256;
    assert(b[0] == n0 && b[1] == n1);
    assert(n0 + 256 * n1 == n);
}

/// Unwrapping a wrapped packet gives back the origin id, the sequence number
/// and the payload that went in.
pub proof fn lemma_unwrap_wrap_roundtrip(origin_id: u32, seq: u16, payload: Seq<u8>)
    ensures
        packet_bytes(origin_id, seq, payload).len() == PACKET_HEADER_SIZE + payload.len(),
        header_origin(packet_bytes(origin_id, seq, payload)) == origin_id,
        header_seq(packet_bytes(origin_id, seq, payload)) == seq,
        payload_of(packet_bytes(origin_id, seq, payload)) == payload,
{
    let p = packet_bytes(origin_id, seq, payload);
    lemma_le_u32_roundtrip(origin_id);
    lemma_le_u16_roundtrip(seq);
    assert(p.subrange(0, 4) == le_bytes_u32(origin_id));
    assert(p.subrange(4, 6) == le_bytes_u16(seq));
    assert(payload_of(p) == payload);
}

} // verus!
