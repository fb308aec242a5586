//! The binary framing of an asar archive. The file starts with four
//! little-endian `u32`s: the size of the size pickle's payload (always 4),
//! the size of the header pickle, the size of the header string pickle's
//! payload, and the length of the header's JSON text. The JSON text follows,
//! padded with zero bytes to a multiple of 4; the files' contents follow
//! that.
use crate::error::{unexpected_eof, AppError};
use crate::text::{concat_str, decimal, decimal_string};
use vstd::prelude::*;

verus! {

/// The little-endian `u32` stored at `at`.
pub open spec fn le_u32_at(b: Seq<u8>, at: int) -> nat {
    (b[at] as nat) + 256 * (b[at + 1] as nat) + 65536 * (b[at + 2] as nat) + 16777216 * (
    b[at + 3] as nat)
}

/// The four little-endian bytes of `v`.
pub open spec fn le_bytes(v: u32) -> Seq<u8> {
    seq![(v % 256) as u8, ((v / 256) % 256) as u8, ((v / 65536) % 256) as u8, ((v / 16777216) % 256) as u8]
}

/// Zero bytes that bring `n` up to a multiple of 4.
pub open spec fn padding(n: nat) -> nat {
    ((4 - (n % 4) as int) % 4) as nat
}

/// `n` rounded up to a multiple of 4.
pub open spec fn aligned(n: nat) -> nat {
    n + padding(n)
}

/// Why a byte string is not the start of an asar archive.
pub enum FrameError {
    /// The data ends inside the fixed fields or inside the header text.
    Truncated,
    /// The first field, the size pickle's payload size, is not 4.
    OuterSize(u32),
}

/// The length of the header text and the offset at which the files'
/// contents start, or why the data is not an asar archive.
pub open spec fn frame_spec(data: Seq<u8>) -> Result<(nat, nat), FrameError> {
    if data.len() < 4 {
        Err(FrameError::Truncated)
    } else if le_u32_at(data, 0) != 4 {
        Err(FrameError::OuterSize(le_u32_at(data, 0) as u32))
    } else if data.len() < 16 {
        Err(FrameError::Truncated)
    } else {
        let n = le_u32_at(data, 12);
        if data.len() < 16 + n {
            Err(FrameError::Truncated)
        } else {
            Ok((n, 16 + aligned(n)))
        }
    }
}

pub open spec fn outer_size_message(v: u32) -> Seq<char> {
    "非预期外层 pickle size:"@ + decimal(v as nat)
}

/// The error that `read_frame` gives for a framing error.
pub open spec fn frame_error_matches(r: AppError, e: FrameError) -> bool {
    match e {
        FrameError::Truncated => r is Io,
        FrameError::OuterSize(v) => r matches AppError::AsarMalformed(m) && m@ == outer_size_message(v),
    }
}

/// Where the header text and the files' contents lie in an archive.
#[derive(Debug, Clone, Copy, PartialEq, Eq)]
pub struct HeaderFrame {
    /// Length in bytes of the header's JSON text, which starts at byte 16.
    pub header_len: u32,
    /// Offset of the files' contents from the start of the archive.
    pub payload_offset: u64,
}

fn read_u32_le(data: &[u8], at: usize) -> (v: u32)
    requires
        at + 4 <= data@.len(),
    ensures
        v as nat == le_u32_at(data@, at as int),
{
    let b0 = data[at] as u32;
    let b1 = data[at + 1] as u32;
    let b2 = data[at + 2] as u32;
    let b3 = data[at + 3] as u32;
    b0 + 256 * b1 + 65536 * b2 + 16777216 * b3
}

fn malformed_with_number(prefix: &str, v: u32) -> (e: AppError)
    ensures
        e matches AppError::AsarMalformed(m) && m@ == prefix@ + decimal(v as nat),
{
    let n = decimal_string(v as u64);
    AppError::AsarMalformed(concat_str(prefix, n.as_str()))
}

/// Reads the fixed fields at the start of an archive: the size pickle's
/// payload size must be 4; the two pickle sizes are not looked at; the
/// header text's length says where the contents start (after the text,
/// padded to a multiple of 4). Data that ends too early gives an I/O
/// error, as reading a file that ends there does.
pub fn read_frame(data: &[u8]) -> (r: Result<HeaderFrame, AppError>)
    ensures
        match frame_spec(data@) {
            Ok((n, off)) => r matches Ok(f) && f.header_len == n && f.payload_offset == off,
            Err(e) => r matches Err(err) && frame_error_matches(err, e),
        },
{
    if data.len() < 4 {
        return Err(AppError::Io(unexpected_eof()));
    }
    let outer = read_u32_le(data, 0);
    if outer != 4 {
        return Err(malformed_with_number("非预期外层 pickle size:", outer));
    }
    if data.len() < 16 {
        return Err(AppError::Io(unexpected_eof()));
    }
    let header_len = read_u32_le(data, 12);
    if (data.len() as u64) < 16 + header_len as u64 {
        return Err(AppError::Io(unexpected_eof()));
    }
    let padded: u64 = header_len as u64 + ((4 - (header_len % 4)) % 4) as u64;
    Ok(HeaderFrame { header_len, payload_offset: 16 + padded })
}

/// Appends the four little-endian bytes of `v`.
fn push_u32_le(out: &mut Vec<u8>, v: u32)
    ensures
        final(out)@ == old(out)@ + le_bytes(v),
{
    out.push((v % 256) as u8);
    out.push(((v / 256) % 256) as u8);
    out.push(((v / 65536) % 256) as u8);
    out.push(((v / 16777216) % 256) as u8);
    proof {
        assert(final(out)@ =~= old(out)@ + le_bytes(v));
    }
}

/// The bytes before the files' contents: the four fixed fields, the header
/// text and its padding.
pub open spec fn frame_bytes(header_json: Seq<u8>) -> Seq<u8> {
    let n = header_json.len();
    le_bytes(4) + le_bytes((aligned(n) + 8) as u32) + le_bytes((aligned(n) + 4) as u32) + le_bytes(
        n as u32,
    ) + header_json + Seq::new(padding(n), |i: int| 0u8)
}

/// Writes the bytes before the files' contents.
pub fn write_frame(out: &mut Vec<u8>, header_json: &[u8])
    requires
        header_json@.len() + 11 <= u32::MAX,
    ensures
        final(out)@ == old(out)@ + frame_bytes(header_json@),
{
    let n = header_json.len() as u32;
    let pad = (4 - (n % 4)) % 4;
    let header_string_pickle_size = n + pad + 4;
    let header_pickle_size = n + pad + 8;
    let ghost start = out@;
    push_u32_le(out, 4);
    push_u32_le(out, header_pickle_size);
    push_u32_le(out, header_string_pickle_size);
    push_u32_le(out, n);
    crate::text::append_bytes(out, header_json);
    let mut i: u32 = 0;
    let ghost before_pad = out@;
    while i < pad
        invariant
            i <= pad,
            pad == padding(n as nat),
            out@ == before_pad + Seq::new(i as nat, |k: int| 0u8),
        decreases pad - i,
    {
        out.push(0u8);
        i = i + 1;
        proof {
            assert(out@ =~= before_pad + Seq::new(i as nat, |k: int| 0u8));
        }
    }
    proof {
        assert(out@ =~= start + frame_bytes(header_json@));
    }
}

proof fn lemma_le_roundtrip(v: u32)
    ensures
        le_u32_at(le_bytes(v), 0) == v,
{
    let b = le_bytes(v);
    assert(((v % 256) + ((v / 256) % 256) * 256 + ((v / 65536) % 256) * 65536 + ((v / 16777216)
        % 256) * 16777216) == v) by (bit_vector);
}

#[verifier::rlimit(60)]
/// Framing then reading back gives the header text's length and the start
/// of the contents, whatever follows the frame.
pub proof fn lemma_frame_roundtrip(header_json: Seq<u8>, rest: Seq<u8>)
    requires
        header_json.len() + 11 <= u32::MAX,
    ensures
        frame_spec(frame_bytes(header_json) + rest) == Ok::<(nat, nat), FrameError>(
            (header_json.len(), 16 + aligned(header_json.len())),
        ),
        (frame_bytes(header_json) + rest).subrange(16, 16 + header_json.len() as int) == header_json,
        frame_bytes(header_json).len() == 16 + aligned(header_json.len()),
{
    let n = header_json.len();
    let d = frame_bytes(header_json) + rest;
    let w0 = le_bytes(4);
    let w1 = le_bytes((aligned(n) + 8) as u32);
    let w2 = le_bytes((aligned(n) + 4) as u32);
    let w3 = le_bytes(n as u32);
    lemma_le_roundtrip(4);
    lemma_le_roundtrip((aligned(n) + 8) as u32);
    lemma_le_roundtrip((aligned(n) + 4) as u32);
    lemma_le_roundtrip(n as u32);
    assert(d.skip(0).take(4) =~= w0);
    assert(d.skip(4).take(4) =~= w1);
    assert(d.skip(8).take(4) =~= w2);
    assert(d.skip(12).take(4) =~= w3);
    assert(le_u32_at(d, 0) == le_u32_at(w0, 0));
    assert(le_u32_at(d, 4) == le_u32_at(w1, 0));
    assert(le_u32_at(d, 8) == le_u32_at(w2, 0));
    assert(le_u32_at(d, 12) == le_u32_at(w3, 0));
    assert(d.subrange(16, 16 + n as int) =~= header_json);
}

} // verus!
