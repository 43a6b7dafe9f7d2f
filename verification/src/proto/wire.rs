//! The wire format of control messages: the length of the payload in four bytes, the most
//! significant first, and then the payload.

use bytes::{BufMut, BytesMut};
use vstd::prelude::*;
use vstd::string::*;

use crate::error::DistError;
use crate::text::{decimal, push_decimal};

verus! {

/// The longest payload that a reader accepts: 16 MB.
pub const MAX_FRAME: usize = 16_777_216;

/// A number in four bytes, the most significant first.
pub open spec fn be_u32(n: u32) -> Seq<u8> {
    seq![
        (n / 0x100_0000) as u8,
        (n / 0x1_0000 % 0x100) as u8,
        (n / 0x100 % 0x100) as u8,
        (n % 0x100) as u8,
    ]
}

/// A number in eight bytes, the most significant first.
pub open spec fn be_u64(n: u64) -> Seq<u8> {
    be_u32((n / 0x1_0000_0000) as u32) + be_u32((n % 0x1_0000_0000) as u32)
}

/// The number that four bytes stand for, the most significant first.
pub open spec fn from_be_u32(bytes: Seq<u8>) -> int {
    bytes[0] * 0x100_0000 + bytes[1] * 0x1_0000 + bytes[2] * 0x100 + bytes[3]
}

/// The number that eight bytes stand for, the most significant first.
pub open spec fn from_be_u64(bytes: Seq<u8>) -> int {
    from_be_u32(bytes.take(4)) * 0x1_0000_0000 + from_be_u32(bytes.skip(4))
}

/// A payload with its length in front. Only the last 32 bits of the length are sent.
pub open spec fn frame_of(payload: Seq<u8>) -> Seq<u8> {
    be_u32((payload.len() % 0x1_0000_0000) as u32) + payload
}

/// `bytes::BytesMut`.
#[verifier::external_type_specification]
#[verifier::external_body]
pub struct ExBytesMut(BytesMut);

/// The bytes in a buffer.
pub uninterp spec fn buffered(b: BytesMut) -> Seq<u8>;

/// Calls `BytesMut::with_capacity`. Trusted: the buffer is empty.
#[verifier::external_body]
fn buffer_with_capacity(capacity: usize) -> (r: BytesMut)
    requires
        capacity <= isize::MAX,
    ensures
        buffered(r) == Seq::<u8>::empty(),
{
    BytesMut::with_capacity(capacity)
}

/// Calls `BufMut::put_u32` on a `BytesMut`. Trusted: the number is appended in four bytes,
/// the most significant first. The bound keeps the buffer from growing beyond what can be
/// allocated.
#[verifier::external_body]
fn buffer_put_u32(b: &mut BytesMut, n: u32)
    requires
        buffered(*old(b)).len() + 4 <= isize::MAX / 2,
    ensures
        buffered(*final(b)) == buffered(*old(b)) + be_u32(n),
{
    b.put_u32(n)
}

/// Calls `BufMut::put_slice` on a `BytesMut`. Trusted: the bytes are appended. The bound
/// keeps the buffer from growing beyond what can be allocated.
#[verifier::external_body]
fn buffer_put_slice(b: &mut BytesMut, src: &[u8])
    requires
        buffered(*old(b)).len() + src@.len() <= isize::MAX / 2,
    ensures
        buffered(*final(b)) == buffered(*old(b)) + src@,
{
    b.put_slice(src)
}

/// Calls `Vec::from` on a `BytesMut`. Trusted: it gives the bytes in the buffer.
#[verifier::external_body]
fn buffer_into_vec(b: BytesMut) -> (r: Vec<u8>)
    ensures
        r@ == buffered(b),
{
    Vec::from(b)
}

/// Puts the length of a payload in front of it.
pub fn frame(payload: &[u8]) -> (r: Vec<u8>)
    requires
        payload@.len() + 4 <= isize::MAX / 2,
    ensures
        r@ == frame_of(payload@),
{
    let len: u64 = payload.len() as u64;
    assert(len as u32 == len % 0x1_0000_0000) by (bit_vector);
    let mut buf = buffer_with_capacity(4 + payload.len());
    buffer_put_u32(&mut buf, len as u32);
    buffer_put_slice(&mut buf, payload);
    let r = buffer_into_vec(buf);
    assert(r@ =~= frame_of(payload@));
    r
}

/// The length of the payload that follows a header. A payload that is too long is refused.
pub fn frame_len(header: &[u8]) -> (r: Result<usize, DistError>)
    requires
        header@.len() == 4,
    ensures
        match r {
            Ok(len) => len == from_be_u32(header@) && len <= MAX_FRAME,
            Err(DistError::Proto(text)) => {
                &&& from_be_u32(header@) > MAX_FRAME
                &&& text@ == "frame too large: "@ + decimal(from_be_u32(header@) as nat)
            },
            Err(_) => false,
        },
{
    let len: usize = read_u32(header) as usize;
    if len > MAX_FRAME {
        let mut text = "frame too large: ".to_owned();
        push_decimal(&mut text, len as u64);
        return Err(DistError::Proto(text));
    }
    Ok(len)
}

/// The number that four bytes stand for, the most significant first.
pub fn read_u32(bytes: &[u8]) -> (r: u32)
    requires
        bytes@.len() == 4,
    ensures
        r == from_be_u32(bytes@),
{
    bytes[0] as u32 * 0x100_0000 + bytes[1] as u32 * 0x1_0000 + bytes[2] as u32 * 0x100
        + bytes[3] as u32
}

/// The number that eight bytes stand for, the most significant first.
pub fn read_u64(bytes: &[u8]) -> (r: u64)
    requires
        bytes@.len() == 8,
    ensures
        r == from_be_u64(bytes@),
{
    let high: u32 = read_u32(&bytes[0..4]);
    let low: u32 = read_u32(&bytes[4..8]);
    assert(bytes@.subrange(0, 4) =~= bytes@.take(4));
    assert(bytes@.subrange(4, 8) =~= bytes@.skip(4));
    high as u64 * 0x1_0000_0000 + low as u64
}

/// Appends a number in four bytes, the most significant first.
pub fn push_u32(out: &mut Vec<u8>, n: u32)
    ensures
        final(out)@ == old(out)@ + be_u32(n),
{
    out.push((n / 0x100_0000) as u8);
    out.push((n / 0x1_0000 % 0x100) as u8);
    out.push((n / 0x100 % 0x100) as u8);
    out.push((n % 0x100) as u8);
    assert(out@ =~= old(out)@ + be_u32(n));
}

/// Appends a number in eight bytes, the most significant first.
pub fn push_u64(out: &mut Vec<u8>, n: u64)
    ensures
        final(out)@ == old(out)@ + be_u64(n),
{
    push_u32(out, (n / 0x1_0000_0000) as u32);
    push_u32(out, (n % 0x1_0000_0000) as u32);
    assert(out@ =~= old(out)@ + be_u64(n));
}

/// Four bytes give back the number that was written in them.
pub proof fn u32_round_trip(n: u32)
    ensures
        be_u32(n).len() == 4,
        from_be_u32(be_u32(n)) == n,
{
    let b = be_u32(n);
    assert(n == (n / 0x100_0000) * 0x100_0000 + (n / 0x1_0000 % 0x100) * 0x1_0000 + (n / 0x100
        % 0x100) * 0x100 + n % 0x100);
    assert(b[0] == n / 0x100_0000);
    assert(b[1] == n / 0x1_0000 % 0x100);
    assert(b[2] == n / 0x100 % 0x100);
    assert(b[3] == n % 0x100);
}

/// Eight bytes give back the number that was written in them.
pub proof fn u64_round_trip(n: u64)
    ensures
        be_u64(n).len() == 8,
        from_be_u64(be_u64(n)) == n,
{
    let high = (n / 0x1_0000_0000) as u32;
    let low = (n % 0x1_0000_0000) as u32;
    u32_round_trip(high);
    u32_round_trip(low);
    assert(be_u64(n).take(4) =~= be_u32(high));
    assert(be_u64(n).skip(4) =~= be_u32(low));
}

/// What a reader makes of a frame, however many bytes follow it: the length in the header
/// is that of the payload, and that many bytes behind the header are the payload. So a
/// message that a reader accepts arrives as it was sent.
pub proof fn frame_round_trip(payload: Seq<u8>, more: Seq<u8>)
    requires
        payload.len() <= MAX_FRAME,
    ensures
        ({
            let sent = frame_of(payload) + more;
            let len = from_be_u32(sent.take(4));
            &&& len == payload.len()
            &&& len <= MAX_FRAME
            &&& sent.subrange(4, 4 + len) == payload
        }),
{
    let n = (payload.len() % 0x1_0000_0000) as u32;
    u32_round_trip(n);
    let sent = frame_of(payload) + more;
    assert(sent.take(4) =~= be_u32(n));
    assert(sent.subrange(4, 4 + payload.len() as int) =~= payload);
}

} // verus!
