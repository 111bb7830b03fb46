//! Streaming frame decoder and encoders for the daemon socket.
//!
//! Wire format:
//!   0x00 NDJSON : [tag][json bytes][0x0a]                              (256 KB max)
//!   0x01 PTY out: [tag][streamId:u32be][len:u32be][bytes]              (1 MB max)
//!   0x02 asset  : [tag][assetId:u32be][tier:u8][len:u32be][bytes]      (1 MB max)
//!   0x03 PTY in : [tag][streamId:u32be][len:u32be][bytes]              (1 MB max)
//!
//! The asset tier byte carries `is_final` in its high bit and the tier number
//! in its low 7 bits.

use bytes::BytesMut;
use vstd::prelude::*;
use vstd::utf8::{decode_utf8, valid_utf8};

use crate::bytebuf::{buf_byte, buf_contents, buf_extend, buf_len, buf_new, buf_split_to};
use crate::text::{append_bytes, dec_chars, digit_char, digit_char_of, push_chars, push_dec_chars, string_from_chars};

verus! {

pub const TAG_NDJSON: u8 = 0x00;
pub const TAG_PTY_OUT: u8 = 0x01;
pub const TAG_ASSET: u8 = 0x02;
pub const TAG_PTY_IN: u8 = 0x03;

pub const NDJSON_MAX: usize = 262144;
pub const BINARY_MAX: usize = 1048576;

// ── Errors ───────────────────────────────────────────────────────────────────

/// A protocol violation found while framing or unframing.
#[derive(Debug, Clone, Copy, PartialEq, Eq, Structural)]
pub enum FramingError {
    /// An NDJSON frame has buffered more than `NDJSON_MAX` payload bytes
    /// without a terminating newline.
    NdjsonUnterminated { buffered: usize },
    /// An NDJSON line longer than `NDJSON_MAX` bytes.
    NdjsonTooLong { len: usize },
    /// An NDJSON line that is not UTF-8: the length of its longest UTF-8
    /// prefix, and the length of the invalid sequence after it (`None` when
    /// the line ends inside an incomplete one).
    NdjsonInvalidUtf8 { valid_up_to: usize, error_len: Option<usize> },
    /// A PTY frame (tag `tag`) announcing more than `BINARY_MAX` bytes.
    BinaryTooLong { tag: u8, len: u32 },
    /// An asset frame announcing more than `BINARY_MAX` bytes.
    AssetTooLong { len: u32 },
    /// A frame whose first byte is no known tag.
    UnknownTag { tag: u8 },
    /// The decoder already failed once and refuses further input.
    Poisoned,
    /// An outbound NDJSON payload over `NDJSON_MAX` bytes.
    NdjsonPayloadTooLarge { len: usize },
    /// An outbound PTY payload over `BINARY_MAX` bytes.
    PtyPayloadTooLarge { len: usize },
}

/// The two lower-case hex digits of a byte.
pub open spec fn hex2(b: u8) -> Seq<char> {
    seq![hex_digit_of((b / 16) as nat), hex_digit_of((b % 16) as nat)]
}

/// The character of a hex digit, lower case.
pub open spec fn hex_digit_of(d: nat) -> char {
    if d < 10 {
        digit_char_of(d)
    } else if d == 10 {
        'a'
    } else if d == 11 {
        'b'
    } else if d == 12 {
        'c'
    } else if d == 13 {
        'd'
    } else if d == 14 {
        'e'
    } else {
        'f'
    }
}

/// The text describing a framing error.
pub open spec fn framing_message(e: FramingError) -> Seq<char> {
    "framing error: "@ + match e {
        FramingError::NdjsonUnterminated { .. } => "NDJSON line exceeded 262144 bytes without newline"@,
        FramingError::NdjsonTooLong { len } => "NDJSON line "@ + dec_chars(len as nat) + " bytes > 262144 cap"@,
        FramingError::NdjsonInvalidUtf8 { valid_up_to, error_len } => "NDJSON invalid UTF-8: "@ + match error_len {
            Some(n) => "invalid utf-8 sequence of "@ + dec_chars(n as nat) + " bytes from index "@
                + dec_chars(valid_up_to as nat),
            None => "incomplete utf-8 byte sequence from index "@ + dec_chars(valid_up_to as nat),
        },
        FramingError::BinaryTooLong { tag, len } => "PTY frame len "@ + dec_chars(len as nat) + " > 1048576 cap (tag=0x"@
            + hex2(tag) + ")"@,
        FramingError::AssetTooLong { len } => "asset frame len "@ + dec_chars(len as nat) + " > 1048576 cap"@,
        FramingError::UnknownTag { tag } => "unknown frame tag 0x"@ + hex2(tag),
        FramingError::Poisoned => "buffer poisoned from prior protocol error"@,
        FramingError::NdjsonPayloadTooLarge { len } => "NDJSON payload "@ + dec_chars(len as nat) + " > 262144 cap"@,
        FramingError::PtyPayloadTooLarge { len } => "PTY payload "@ + dec_chars(len as nat) + " > 1048576 cap"@,
    }
}

fn hex_digit(d: u8) -> (c: char)
    requires
        d < 16,
    ensures
        c == hex_digit_of(d as nat),
{
    if d < 10 {
        digit_char(d as u64)
    } else if d == 10 {
        'a'
    } else if d == 11 {
        'b'
    } else if d == 12 {
        'c'
    } else if d == 13 {
        'd'
    } else if d == 14 {
        'e'
    } else {
        'f'
    }
}

fn push_hex2(out: &mut Vec<char>, b: u8)
    ensures
        final(out)@ == old(out)@ + hex2(b),
{
    out.push(hex_digit(b / 16));
    out.push(hex_digit(b % 16));
    assert(out@ =~= old(out)@ + hex2(b));
}

impl FramingError {
    /// The text describing the error (see [`framing_message`]).
    pub fn message(&self) -> (r: String)
        ensures
            r@ == framing_message(*self),
    {
        let mut cs: Vec<char> = Vec::new();
        push_chars(&mut cs, "framing error: ");
        match *self {
            FramingError::NdjsonUnterminated { .. } => {
                push_chars(&mut cs, "NDJSON line exceeded 262144 bytes without newline");
            },
            FramingError::NdjsonTooLong { len } => {
                push_chars(&mut cs, "NDJSON line ");
                push_dec_chars(&mut cs, len as u64);
                push_chars(&mut cs, " bytes > 262144 cap");
            },
            FramingError::NdjsonInvalidUtf8 { valid_up_to, error_len } => {
                push_chars(&mut cs, "NDJSON invalid UTF-8: ");
                match error_len {
                    Some(n) => {
                        push_chars(&mut cs, "invalid utf-8 sequence of ");
                        push_dec_chars(&mut cs, n as u64);
                        push_chars(&mut cs, " bytes from index ");
                        push_dec_chars(&mut cs, valid_up_to as u64);
                    },
                    None => {
                        push_chars(&mut cs, "incomplete utf-8 byte sequence from index ");
                        push_dec_chars(&mut cs, valid_up_to as u64);
                    },
                }
            },
            FramingError::BinaryTooLong { tag, len } => {
                push_chars(&mut cs, "PTY frame len ");
                push_dec_chars(&mut cs, len as u64);
                push_chars(&mut cs, " > 1048576 cap (tag=0x");
                push_hex2(&mut cs, tag);
                push_chars(&mut cs, ")");
            },
            FramingError::AssetTooLong { len } => {
                push_chars(&mut cs, "asset frame len ");
                push_dec_chars(&mut cs, len as u64);
                push_chars(&mut cs, " > 1048576 cap");
            },
            FramingError::UnknownTag { tag } => {
                push_chars(&mut cs, "unknown frame tag 0x");
                push_hex2(&mut cs, tag);
            },
            FramingError::Poisoned => {
                push_chars(&mut cs, "buffer poisoned from prior protocol error");
            },
            FramingError::NdjsonPayloadTooLarge { len } => {
                push_chars(&mut cs, "NDJSON payload ");
                push_dec_chars(&mut cs, len as u64);
                push_chars(&mut cs, " > 262144 cap");
            },
            FramingError::PtyPayloadTooLarge { len } => {
                push_chars(&mut cs, "PTY payload ");
                push_dec_chars(&mut cs, len as u64);
                push_chars(&mut cs, " > 1048576 cap");
            },
        }
        assert(cs@ =~= framing_message(*self));
        string_from_chars(&cs)
    }
}

// ── Frames ───────────────────────────────────────────────────────────────────

/// One decoded frame.
#[derive(Debug)]
pub enum Frame {
    Ndjson(String),
    PtyOut { stream_id: u32, bytes: Vec<u8> },
    Asset { asset_id: u32, tier: u8, is_final: bool, bytes: Vec<u8> },
    PtyIn { stream_id: u32, bytes: Vec<u8> },
}

/// The mathematical value of a [`Frame`].
pub enum FrameV {
    Ndjson(Seq<char>),
    PtyOut { stream_id: u32, bytes: Seq<u8> },
    Asset { asset_id: u32, tier: u8, is_final: bool, bytes: Seq<u8> },
    PtyIn { stream_id: u32, bytes: Seq<u8> },
}

impl View for Frame {
    type V = FrameV;

    open spec fn view(&self) -> FrameV {
        match self {
            Frame::Ndjson(s) => FrameV::Ndjson(s@),
            Frame::PtyOut { stream_id, bytes } => FrameV::PtyOut { stream_id: *stream_id, bytes: bytes@ },
            Frame::Asset { asset_id, tier, is_final, bytes } => FrameV::Asset {
                asset_id: *asset_id,
                tier: *tier,
                is_final: *is_final,
                bytes: bytes@,
            },
            Frame::PtyIn { stream_id, bytes } => FrameV::PtyIn { stream_id: *stream_id, bytes: bytes@ },
        }
    }
}

/// The frames of a vector, as values.
pub open spec fn frames_view(v: Seq<Frame>) -> Seq<FrameV> {
    v.map_values(|f: Frame| f@)
}

// ── Byte-level specification ─────────────────────────────────────────────────

/// Big-endian 32-bit value of `s[off..off+4]`.
pub open spec fn read_be32(s: Seq<u8>, off: int) -> u32 {
    (s[off] as int * 16777216 + s[off + 1] as int * 65536 + s[off + 2] as int * 256
        + s[off + 3] as int) as u32
}

/// Big-endian bytes of `v`.
pub open spec fn be32(v: u32) -> Seq<u8> {
    seq![
        (v / 16777216) as u8,
        ((v / 65536) % 256) as u8,
        ((v / 256) % 256) as u8,
        (v % 256) as u8,
    ]
}

/// Index of the first newline at or after `i`.
pub open spec fn find_newline(s: Seq<u8>, i: int) -> Option<int>
    decreases s.len() - i,
{
    if i < 0 || i >= s.len() {
        None
    } else if s[i] == 10 {
        Some(i)
    } else {
        find_newline(s, i + 1)
    }
}

/// Outcome of reading one frame from the front of a buffer.
pub enum ParseStep {
    /// More bytes are needed.
    Incomplete,
    /// A frame, and how many bytes it occupied.
    Parsed(FrameV, nat),
    /// A protocol violation, and how many bytes were consumed before it was seen.
    Failed(FramingError, nat),
}

/// The length of the longest UTF-8 prefix among the first `k` bytes of `s`.
pub open spec fn utf8_prefix_len(s: Seq<u8>, k: int) -> nat
    decreases k,
{
    if k <= 0 {
        0
    } else if valid_utf8(s.take(k)) {
        k as nat
    } else {
        utf8_prefix_len(s, k - 1)
    }
}

/// The length of the invalid byte sequence that starts where the longest
/// UTF-8 prefix of `bytes` ends, as `std::str::Utf8Error::error_len` reports
/// it; `None` when the bytes end inside an incomplete sequence.
pub uninterp spec fn utf8_error_len(bytes: Seq<u8>) -> Option<usize>;

/// The error for an NDJSON line `p` that is not UTF-8.
pub open spec fn utf8_failure(p: Seq<u8>) -> FramingError {
    FramingError::NdjsonInvalidUtf8 {
        valid_up_to: utf8_prefix_len(p, p.len() as int) as usize,
        error_len: utf8_error_len(p),
    }
}

/// What the decoder reads from the front of `s`.
pub open spec fn parse_frame(s: Seq<u8>) -> ParseStep {
    if s.len() == 0 {
        ParseStep::Incomplete
    } else if s[0] == TAG_NDJSON {
        match find_newline(s, 1) {
            None => if s.len() - 1 > NDJSON_MAX {
                ParseStep::Failed(FramingError::NdjsonUnterminated { buffered: (s.len() - 1) as usize }, 0)
            } else {
                ParseStep::Incomplete
            },
            Some(nl) => if nl - 1 > NDJSON_MAX {
                ParseStep::Failed(FramingError::NdjsonTooLong { len: (nl - 1) as usize }, 0)
            } else if valid_utf8(s.subrange(1, nl)) {
                ParseStep::Parsed(FrameV::Ndjson(decode_utf8(s.subrange(1, nl))), (nl + 1) as nat)
            } else {
                ParseStep::Failed(utf8_failure(s.subrange(1, nl)), (nl + 1) as nat)
            },
        }
    } else if s[0] == TAG_PTY_OUT || s[0] == TAG_PTY_IN {
        if s.len() < 9 {
            ParseStep::Incomplete
        } else {
            let stream_id = read_be32(s, 1);
            let len = read_be32(s, 5);
            if len > BINARY_MAX {
                ParseStep::Failed(FramingError::BinaryTooLong { tag: s[0], len }, 0)
            } else if s.len() < 9 + len {
                ParseStep::Incomplete
            } else {
                let bytes = s.subrange(9, 9 + len);
                if s[0] == TAG_PTY_OUT {
                    ParseStep::Parsed(FrameV::PtyOut { stream_id, bytes }, (9 + len) as nat)
                } else {
                    ParseStep::Parsed(FrameV::PtyIn { stream_id, bytes }, (9 + len) as nat)
                }
            }
        }
    } else if s[0] == TAG_ASSET {
        if s.len() < 10 {
            ParseStep::Incomplete
        } else {
            let asset_id = read_be32(s, 1);
            let tier_byte = s[5];
            let len = read_be32(s, 6);
            if len > BINARY_MAX {
                ParseStep::Failed(FramingError::AssetTooLong { len }, 0)
            } else if s.len() < 10 + len {
                ParseStep::Incomplete
            } else {
                ParseStep::Parsed(
                    FrameV::Asset {
                        asset_id,
                        tier: (tier_byte % 128) as u8,
                        is_final: tier_byte >= 128,
                        bytes: s.subrange(10, 10 + len),
                    },
                    (10 + len) as nat,
                )
            }
        }
    } else {
        ParseStep::Failed(FramingError::UnknownTag { tag: s[0] }, 0)
    }
}

/// Every frame read consumes at least its tag byte and at most the buffer.
pub proof fn lemma_parse_frame_bounds(s: Seq<u8>)
    ensures
        parse_frame(s) matches ParseStep::Parsed(_, n) ==> 0 < n <= s.len(),
        parse_frame(s) matches ParseStep::Failed(_, n) ==> n <= s.len(),
{
    if s.len() > 0 && s[0] == TAG_NDJSON {
        lemma_find_newline_range(s, 1);
    }
}

proof fn lemma_find_newline_range(s: Seq<u8>, i: int)
    ensures
        find_newline(s, i) matches Some(p) ==> i <= p < s.len() && s[p] == 10 && 0 <= i,
    decreases s.len() - i,
{
    if 0 <= i < s.len() && s[i] != 10 {
        lemma_find_newline_range(s, i + 1);
    }
}

/// The result of draining a buffer: the frames read in order, what stays
/// buffered, and the violation that stopped reading, if any.
pub struct DrainOutcome {
    pub frames: Seq<FrameV>,
    pub rest: Seq<u8>,
    pub error: Option<FramingError>,
}

/// Read frames from the front of `s` until more bytes are needed or a
/// violation is found.
pub open spec fn drain_spec(s: Seq<u8>) -> DrainOutcome
    decreases s.len(),
{
    match parse_frame(s) {
        ParseStep::Incomplete => DrainOutcome { frames: seq![], rest: s, error: None },
        ParseStep::Failed(e, n) => DrainOutcome { frames: seq![], rest: s.skip(n as int), error: Some(e) },
        ParseStep::Parsed(f, n) => if 0 < n <= s.len() {
            let d = drain_spec(s.skip(n as int));
            DrainOutcome { frames: seq![f] + d.frames, rest: d.rest, error: d.error }
        } else {
            DrainOutcome { frames: seq![], rest: s, error: None }
        },
    }
}

// ── Encoding specification and laws ──────────────────────────────────────────

/// Bytes of an NDJSON frame carrying `json`.
pub open spec fn ndjson_frame(json: Seq<u8>) -> Seq<u8> {
    seq![TAG_NDJSON] + json + seq![10u8]
}

/// Bytes of a PTY frame (`tag` is `TAG_PTY_OUT` or `TAG_PTY_IN`); the length
/// field is the payload length truncated to 32 bits.
pub open spec fn pty_frame(tag: u8, stream_id: u32, data: Seq<u8>) -> Seq<u8> {
    seq![tag] + be32(stream_id) + be32(data.len() as u32) + data
}

/// The tier byte of an asset frame: the final flag in the high bit.
pub open spec fn tier_byte(tier: u8, is_final: bool) -> u8 {
    if is_final {
        tier | 0x80u8
    } else {
        tier
    }
}

/// Bytes of an asset frame.
pub open spec fn asset_frame(asset_id: u32, tier: u8, is_final: bool, data: Seq<u8>) -> Seq<u8> {
    seq![TAG_ASSET] + be32(asset_id) + seq![tier_byte(tier, is_final)] + be32(data.len() as u32) + data
}

proof fn lemma_be32_roundtrip(v: u32)
    ensures
        read_be32(be32(v), 0) == v,
{
    let a = v / 16777216;
    let b = (v / 65536) % 256;
    let c = (v / 256) % 256;
    let d = v % 256;
    assert(a * 16777216 + b * 65536 + c * 256 + d == v) by (nonlinear_arith)
        requires
            a == v / 16777216,
            b == (v / 65536) % 256,
            c == (v / 256) % 256,
            d == v % 256,
    {
        assert(v / 65536 == a * 256 + b);
        assert(v / 256 == (v / 65536) * 256 + c);
        assert(v == (v / 256) * 256 + d);
    }
}

proof fn lemma_read_be32_at(s: Seq<u8>, off: int, v: u32)
    requires
        0 <= off,
        off + 4 <= s.len(),
        s.subrange(off, off + 4) == be32(v),
    ensures
        read_be32(s, off) == v,
{
    lemma_be32_roundtrip(v);
    assert(s[off] == be32(v)[0]);
    assert(s[off + 1] == be32(v)[1]);
    assert(s[off + 2] == be32(v)[2]);
    assert(s[off + 3] == be32(v)[3]);
}

proof fn lemma_no_newline_before(s: Seq<u8>, i: int, end: int)
    requires
        0 <= i <= end <= s.len(),
        forall|k: int| i <= k < end ==> s[k] != 10,
    ensures
        find_newline(s, i) == find_newline(s, end),
    decreases end - i,
{
    if i < end {
        lemma_no_newline_before(s, i + 1, end);
    }
}

/// Decoding a PTY frame, whatever follows it, gives back its stream id and
/// payload and consumes exactly its bytes.
pub proof fn lemma_pty_roundtrip(tag: u8, stream_id: u32, data: Seq<u8>, rest: Seq<u8>)
    requires
        tag == TAG_PTY_OUT || tag == TAG_PTY_IN,
        data.len() <= BINARY_MAX,
    ensures
        parse_frame(pty_frame(tag, stream_id, data) + rest) == ParseStep::Parsed(
            if tag == TAG_PTY_OUT {
                FrameV::PtyOut { stream_id, bytes: data }
            } else {
                FrameV::PtyIn { stream_id, bytes: data }
            },
            pty_frame(tag, stream_id, data).len(),
        ),
{
    let e = pty_frame(tag, stream_id, data);
    let s = e + rest;
    assert(s.subrange(1, 5) =~= be32(stream_id));
    assert(s.subrange(5, 9) =~= be32(data.len() as u32));
    lemma_read_be32_at(s, 1, stream_id);
    lemma_read_be32_at(s, 5, data.len() as u32);
    assert(s.subrange(9, 9 + data.len() as int) =~= data);
}

/// Decoding an asset frame gives back its id, tier, final flag and payload,
/// for every tier that fits in the 7 bits the tier byte leaves.
pub proof fn lemma_asset_roundtrip(asset_id: u32, tier: u8, is_final: bool, data: Seq<u8>, rest: Seq<u8>)
    requires
        tier < 128,
        data.len() <= BINARY_MAX,
    ensures
        parse_frame(asset_frame(asset_id, tier, is_final, data) + rest) == ParseStep::Parsed(
            FrameV::Asset { asset_id, tier, is_final, bytes: data },
            asset_frame(asset_id, tier, is_final, data).len(),
        ),
{
    let e = asset_frame(asset_id, tier, is_final, data);
    let s = e + rest;
    assert(s.subrange(1, 5) =~= be32(asset_id));
    assert(s.subrange(6, 10) =~= be32(data.len() as u32));
    lemma_read_be32_at(s, 1, asset_id);
    lemma_read_be32_at(s, 6, data.len() as u32);
    assert(s.subrange(10, 10 + data.len() as int) =~= data);
    let tb = tier_byte(tier, is_final);
    assert(s[5] == tb);
    if is_final {
        assert(tier < 128 ==> (tier | 0x80u8) >= 128 && (tier | 0x80u8) % 128 == tier) by (bit_vector);
    }
}

/// Decoding an NDJSON frame whose payload is UTF-8 without a newline gives
/// back the payload text.
pub proof fn lemma_ndjson_roundtrip(json: Seq<u8>, rest: Seq<u8>)
    requires
        json.len() <= NDJSON_MAX,
        !json.contains(10u8),
        valid_utf8(json),
    ensures
        parse_frame(ndjson_frame(json) + rest) == ParseStep::Parsed(
            FrameV::Ndjson(decode_utf8(json)),
            ndjson_frame(json).len(),
        ),
{
    let e = ndjson_frame(json);
    let s = e + rest;
    let nl = json.len() as int + 1;
    assert forall|k: int| 1 <= k < nl implies s[k] != 10 by {
        assert(s[k] == json[k - 1]);
    }
    lemma_no_newline_before(s, 1, nl);
    assert(s[nl] == 10);
    assert(find_newline(s, nl) == Some(nl));
    assert(s.subrange(1, nl) =~= json);
}

/// A frame cut short anywhere decodes to nothing yet: no frame and no error
/// until its last byte has arrived.
pub proof fn lemma_pty_prefix_incomplete(tag: u8, stream_id: u32, data: Seq<u8>, k: int)
    requires
        tag == TAG_PTY_OUT || tag == TAG_PTY_IN,
        data.len() <= BINARY_MAX,
        0 <= k < pty_frame(tag, stream_id, data).len(),
    ensures
        parse_frame(pty_frame(tag, stream_id, data).take(k)) == ParseStep::Incomplete,
{
    let e = pty_frame(tag, stream_id, data);
    let s = e.take(k);
    if k >= 9 {
        lemma_pty_roundtrip(tag, stream_id, data, seq![]);
        assert(e + seq![] =~= e);
        assert(s.subrange(1, 5) =~= e.subrange(1, 5));
        assert(s.subrange(5, 9) =~= e.subrange(5, 9));
        assert(e.subrange(1, 5) =~= be32(stream_id));
        assert(e.subrange(5, 9) =~= be32(data.len() as u32));
        lemma_read_be32_at(s, 5, data.len() as u32);
    }
}

/// An asset frame cut short anywhere decodes to nothing yet.
pub proof fn lemma_asset_prefix_incomplete(asset_id: u32, tier: u8, is_final: bool, data: Seq<u8>, k: int)
    requires
        data.len() <= BINARY_MAX,
        0 <= k < asset_frame(asset_id, tier, is_final, data).len(),
    ensures
        parse_frame(asset_frame(asset_id, tier, is_final, data).take(k)) == ParseStep::Incomplete,
{
    let e = asset_frame(asset_id, tier, is_final, data);
    let s = e.take(k);
    if k >= 10 {
        assert(s.subrange(6, 10) =~= be32(data.len() as u32));
        lemma_read_be32_at(s, 6, data.len() as u32);
    }
}

/// An NDJSON frame cut short anywhere decodes to nothing yet.
pub proof fn lemma_ndjson_prefix_incomplete(json: Seq<u8>, k: int)
    requires
        json.len() <= NDJSON_MAX,
        !json.contains(10u8),
        0 <= k < ndjson_frame(json).len(),
    ensures
        parse_frame(ndjson_frame(json).take(k)) == ParseStep::Incomplete,
{
    let e = ndjson_frame(json);
    let s = e.take(k);
    if k > 0 {
        assert forall|j: int| 1 <= j < k implies s[j] != 10 by {
            assert(s[j] == json[j - 1]);
        }
        lemma_no_newline_before(s, 1, k);
    }
}

/// A frame read from the front of a buffer is read the same way whatever
/// bytes arrive after it.
pub proof fn lemma_parse_frame_extends(s: Seq<u8>, t: Seq<u8>)
    requires
        parse_frame(s) is Parsed,
    ensures
        parse_frame(s + t) == parse_frame(s),
{
    let u = s + t;
    lemma_parse_frame_bounds(s);
    if s[0] == TAG_NDJSON {
        lemma_find_newline_extends(s, t, 1);
        lemma_find_newline_range(s, 1);
        let nl = find_newline(s, 1)->Some_0;
        assert(u.subrange(1, nl) =~= s.subrange(1, nl));
    } else if s[0] == TAG_PTY_OUT || s[0] == TAG_PTY_IN {
        assert(read_be32(u, 1) == read_be32(s, 1));
        assert(read_be32(u, 5) == read_be32(s, 5));
        let len = read_be32(s, 5);
        assert(u.subrange(9, 9 + len) =~= s.subrange(9, 9 + len));
    } else {
        assert(read_be32(u, 1) == read_be32(s, 1));
        assert(read_be32(u, 6) == read_be32(s, 6));
        let len = read_be32(s, 6);
        assert(u.subrange(10, 10 + len) =~= s.subrange(10, 10 + len));
    }
}

proof fn lemma_find_newline_extends(s: Seq<u8>, t: Seq<u8>, i: int)
    requires
        find_newline(s, i) is Some,
    ensures
        find_newline(s + t, i) == find_newline(s, i),
    decreases s.len() - i,
{
    if 0 <= i < s.len() && s[i] != 10 {
        lemma_find_newline_extends(s, t, i + 1);
    }
}

/// Delivering bytes in two chunks, draining after each, yields exactly the
/// frames (and the leftover bytes) of delivering them all at once.
pub proof fn lemma_drain_chunked(a: Seq<u8>, b: Seq<u8>)
    requires
        drain_spec(a).error is None,
    ensures
        drain_spec(a + b) == (DrainOutcome {
            frames: drain_spec(a).frames + drain_spec(drain_spec(a).rest + b).frames,
            rest: drain_spec(drain_spec(a).rest + b).rest,
            error: drain_spec(drain_spec(a).rest + b).error,
        }),
    decreases a.len(),
{
    lemma_parse_frame_bounds(a);
    match parse_frame(a) {
        ParseStep::Incomplete => {
            assert(drain_spec(a).frames + drain_spec(a + b).frames =~= drain_spec(a + b).frames);
        },
        ParseStep::Failed(_, _) => {},
        ParseStep::Parsed(f, n) => {
            lemma_parse_frame_extends(a, b);
            lemma_drain_chunked(a.skip(n as int), b);
            assert((a + b).skip(n as int) =~= a.skip(n as int) + b);
            let d = drain_spec(a.skip(n as int));
            assert(seq![f] + (d.frames + drain_spec(d.rest + b).frames)
                =~= (seq![f] + d.frames) + drain_spec(d.rest + b).frames);
        },
    }
}

/// The chunks joined in order.
pub open spec fn joined(cs: Seq<Seq<u8>>) -> Seq<u8>
    decreases cs.len(),
{
    if cs.len() == 0 {
        Seq::empty()
    } else {
        cs[0] + joined(cs.drop_first())
    }
}

/// Delivering `cs` one chunk at a time to a decoder holding `pending`,
/// draining after each: the frames taken, in order, the bytes left, and the
/// first error (after which nothing more is taken).
pub open spec fn drain_each(pending: Seq<u8>, cs: Seq<Seq<u8>>) -> DrainOutcome
    decreases cs.len(),
{
    if cs.len() == 0 {
        DrainOutcome { frames: Seq::empty(), rest: pending, error: None }
    } else {
        let d = drain_spec(pending + cs[0]);
        if d.error is Some {
            d
        } else {
            let more = drain_each(d.rest, cs.drop_first());
            DrainOutcome { frames: d.frames + more.frames, rest: more.rest, error: more.error }
        }
    }
}

/// What a successful drain leaves holds no complete frame: draining it
/// again takes nothing and leaves it as it is.
pub proof fn lemma_drain_rest_settled(s: Seq<u8>)
    requires
        drain_spec(s).error is None,
    ensures
        drain_spec(drain_spec(s).rest) == (DrainOutcome { frames: Seq::empty(), rest: drain_spec(s).rest, error: None }),
    decreases s.len(),
{
    match parse_frame(s) {
        ParseStep::Parsed(f, n) => {
            if 0 < n <= s.len() {
                lemma_drain_rest_settled(s.skip(n as int));
            }
        },
        _ => {},
    }
}

/// However the bytes are split into chunks (one byte at a time included),
/// delivering them to a decoder with no complete frame pending and draining
/// after each chunk takes the same frames and leaves the same bytes as
/// draining them all at once, whenever no chunk meets an error.
pub proof fn lemma_drain_any_chunks(pending: Seq<u8>, cs: Seq<Seq<u8>>)
    requires
        drain_spec(pending) == (DrainOutcome { frames: Seq::empty(), rest: pending, error: None }),
        drain_each(pending, cs).error is None,
    ensures
        drain_spec(pending + joined(cs)) == drain_each(pending, cs),
    decreases cs.len(),
{
    if cs.len() == 0 {
        assert(pending + joined(cs) =~= pending);
    } else {
        lemma_drain_rest_settled(pending + cs[0]);
        let d = drain_spec(pending + cs[0]);
        lemma_drain_any_chunks(d.rest, cs.drop_first());
        lemma_drain_chunked(pending + cs[0], joined(cs.drop_first()));
        assert(pending + joined(cs) =~= (pending + cs[0]) + joined(cs.drop_first()));
    }
}

/// The bytes of `b` as one-byte chunks.
pub open spec fn bytewise(b: Seq<u8>) -> Seq<Seq<u8>> {
    Seq::new(b.len(), |i: int| seq![b[i]])
}

/// Draining a whole PTY frame takes that frame and leaves nothing.
proof fn lemma_pty_drain_whole(tag: u8, stream_id: u32, data: Seq<u8>)
    requires
        tag == TAG_PTY_OUT || tag == TAG_PTY_IN,
        data.len() <= BINARY_MAX,
    ensures
        drain_spec(pty_frame(tag, stream_id, data)) == (DrainOutcome {
            frames: seq![
                if tag == TAG_PTY_OUT {
                    FrameV::PtyOut { stream_id, bytes: data }
                } else {
                    FrameV::PtyIn { stream_id, bytes: data }
                },
            ],
            rest: Seq::empty(),
            error: None,
        }),
{
    let e = pty_frame(tag, stream_id, data);
    let f = if tag == TAG_PTY_OUT {
        FrameV::PtyOut { stream_id, bytes: data }
    } else {
        FrameV::PtyIn { stream_id, bytes: data }
    };
    lemma_pty_roundtrip(tag, stream_id, data, seq![]);
    assert(e + seq![] =~= e);
    assert(parse_frame(e) == ParseStep::Parsed(f, e.len()));
    assert(e.len() > 0);
    let empty = e.skip(e.len() as int);
    assert(empty =~= Seq::<u8>::empty());
    assert(parse_frame(empty) == ParseStep::Incomplete);
    let d = drain_spec(empty);
    assert(d == (DrainOutcome { frames: seq![], rest: empty, error: None }));
    assert(drain_spec(e) == (DrainOutcome { frames: seq![f] + d.frames, rest: d.rest, error: d.error }));
    assert(seq![f] + d.frames =~= seq![f]);
}

#[verifier::spinoff_prover]
proof fn lemma_pty_bytewise_from(tag: u8, stream_id: u32, data: Seq<u8>, k: int)
    requires
        tag == TAG_PTY_OUT || tag == TAG_PTY_IN,
        data.len() <= BINARY_MAX,
        0 <= k < pty_frame(tag, stream_id, data).len(),
    ensures
        drain_each(pty_frame(tag, stream_id, data).take(k), bytewise(pty_frame(tag, stream_id, data)).skip(k)) == (
        DrainOutcome {
            frames: seq![
                if tag == TAG_PTY_OUT {
                    FrameV::PtyOut { stream_id, bytes: data }
                } else {
                    FrameV::PtyIn { stream_id, bytes: data }
                },
            ],
            rest: Seq::empty(),
            error: None,
        }),
    decreases pty_frame(tag, stream_id, data).len() - k,
{
    let e = pty_frame(tag, stream_id, data);
    let cs = bytewise(e).skip(k);
    assert(cs[0] == seq![e[k]]);
    assert(e.take(k) + cs[0] =~= e.take(k + 1));
    assert(cs.drop_first() =~= bytewise(e).skip(k + 1));
    let f = if tag == TAG_PTY_OUT {
        FrameV::PtyOut { stream_id, bytes: data }
    } else {
        FrameV::PtyIn { stream_id, bytes: data }
    };
    if k + 1 < e.len() {
        lemma_pty_prefix_incomplete(tag, stream_id, data, k + 1);
        lemma_pty_bytewise_from(tag, stream_id, data, k + 1);
        let d = drain_spec(e.take(k + 1));
        assert(d == (DrainOutcome { frames: seq![], rest: e.take(k + 1), error: None }));
        let more = drain_each(e.take(k + 1), bytewise(e).skip(k + 1));
        assert(d.frames + more.frames =~= more.frames);
    } else {
        assert(e.take(k + 1) =~= e);
        assert(bytewise(e).skip(k + 1) =~= Seq::<Seq<u8>>::empty());
        lemma_pty_drain_whole(tag, stream_id, data);
        let d = drain_spec(e);
        let more = drain_each(Seq::<u8>::empty(), Seq::<Seq<u8>>::empty());
        assert(d.frames + more.frames =~= seq![f]);
    }
}

/// A PTY frame delivered one byte at a time, draining after each byte,
/// decodes to the frame it encodes and leaves nothing behind.
pub proof fn lemma_pty_roundtrip_bytewise(tag: u8, stream_id: u32, data: Seq<u8>)
    requires
        tag == TAG_PTY_OUT || tag == TAG_PTY_IN,
        data.len() <= BINARY_MAX,
    ensures
        drain_each(Seq::empty(), bytewise(pty_frame(tag, stream_id, data))) == (DrainOutcome {
            frames: seq![
                if tag == TAG_PTY_OUT {
                    FrameV::PtyOut { stream_id, bytes: data }
                } else {
                    FrameV::PtyIn { stream_id, bytes: data }
                },
            ],
            rest: Seq::empty(),
            error: None,
        }),
{
    let e = pty_frame(tag, stream_id, data);
    lemma_pty_bytewise_from(tag, stream_id, data, 0);
    assert(e.take(0) =~= Seq::<u8>::empty());
    assert(bytewise(e).skip(0) =~= bytewise(e));
}

// ── Decoder ──────────────────────────────────────────────────────────────────

/// Stateful streaming decoder. Feed chunks with `push`; take parsed frames
/// with `drain`. Once `drain` returns `Err`, the decoder is poisoned: every
/// later `drain` fails too, so the caller discards it and closes the socket.
pub struct FrameDecoder {
    buf: BytesMut,
    poisoned: bool,
}

impl FrameDecoder {
    /// The bytes received and not yet consumed as frames.
    pub closed spec fn pending(&self) -> Seq<u8> {
        buf_contents(self.buf)
    }

    /// Whether a protocol violation has been seen.
    pub closed spec fn is_poisoned(&self) -> bool {
        self.poisoned
    }

    pub fn new() -> (d: Self)
        ensures
            d.pending() == Seq::<u8>::empty(),
            !d.is_poisoned(),
    {
        FrameDecoder { buf: buf_new(), poisoned: false }
    }

    /// Append received bytes.
    pub fn push(&mut self, data: &[u8])
        requires
            old(self).pending().len() + data@.len() <= isize::MAX,
        ensures
            final(self).pending() == old(self).pending() + data@,
            final(self).is_poisoned() == old(self).is_poisoned(),
    {
        buf_extend(&mut self.buf, data);
    }

    /// Whether any received bytes are still unconsumed.
    pub fn has_pending(&self) -> (r: bool)
        ensures
            r == (self.pending().len() > 0),
    {
        buf_len(&self.buf) > 0
    }

    /// Take every complete frame from the buffer.
    ///
    /// Fails on a protocol violation (oversized frame, unknown tag, NDJSON that
    /// is not UTF-8); the decoder is then poisoned and every later call fails
    /// with `Poisoned`.
    pub fn drain(&mut self) -> (r: Result<Vec<Frame>, FramingError>)
        ensures
            old(self).is_poisoned() ==> r == Err::<Vec<Frame>, FramingError>(FramingError::Poisoned)
                && final(self).pending() == old(self).pending() && final(self).is_poisoned(),
            !old(self).is_poisoned() ==> {
                let d = drain_spec(old(self).pending());
                &&& final(self).pending() == d.rest
                &&& final(self).is_poisoned() == d.error.is_some()
                &&& match r {
                    Ok(frames) => d.error is None && frames_view(frames@) == d.frames,
                    Err(e) => d.error == Some(e),
                }
            },
    {
        if self.poisoned {
            return Err(FramingError::Poisoned);
        }
        let ghost start = self.pending();
        let mut frames: Vec<Frame> = Vec::new();
        loop
            invariant
                !self.poisoned,
                !old(self).poisoned,
                start == old(self).pending(),
                drain_spec(start).rest == drain_spec(self.pending()).rest,
                drain_spec(start).error == drain_spec(self.pending()).error,
                drain_spec(start).frames == frames_view(frames@) + drain_spec(self.pending()).frames,
            decreases self.pending().len(),
        {
            let ghost before = self.pending();
            proof {
                lemma_parse_frame_bounds(before);
            }
            match self.try_parse_one() {
                Ok(Some(f)) => {
                    let ghost fv = f@;
                    let ghost old_frames = frames@;
                    frames.push(f);
                    proof {
                        assert(frames_view(frames@) =~= frames_view(old_frames).push(fv));
                        assert(drain_spec(before).frames =~= seq![fv] + drain_spec(self.pending()).frames);
                        assert(frames_view(old_frames) + drain_spec(before).frames
                            =~= frames_view(frames@) + drain_spec(self.pending()).frames);
                    }
                },
                Ok(None) => {
                    return Ok(frames);
                },
                Err(e) => {
                    self.poisoned = true;
                    return Err(e);
                },
            }
        }
    }

    /// Read one frame from the front of the buffer, consuming its bytes.
    fn try_parse_one(&mut self) -> (r: Result<Option<Frame>, FramingError>)
        ensures
            final(self).poisoned == old(self).poisoned,
            match parse_frame(old(self).pending()) {
                ParseStep::Incomplete => r == Ok::<Option<Frame>, FramingError>(None)
                    && final(self).pending() == old(self).pending(),
                ParseStep::Failed(e, n) => r == Err::<Option<Frame>, FramingError>(e)
                    && final(self).pending() == old(self).pending().skip(n as int),
                ParseStep::Parsed(fv, n) => (r matches Ok(Some(f)) && f@ == fv)
                    && final(self).pending() == old(self).pending().skip(n as int),
            },
    {
        let ghost s = self.pending();
        let total = buf_len(&self.buf);
        if total == 0 {
            return Ok(None);
        }
        let tag = buf_byte(&self.buf, 0);
        if tag == TAG_NDJSON {
            // Search for the newline after the tag byte.
            let mut i: usize = 1;
            while i < total
                invariant
                    1 <= i <= total,
                    total == s.len(),
                    s == buf_contents(self.buf),
                    find_newline(s, 1) == find_newline(s, i as int),
                ensures
                    i == total || (i < total && s[i as int] == 10),
                decreases total - i,
            {
                if buf_byte(&self.buf, i) == 10 {
                    break;
                }
                i = i + 1;
            }
            if i == total {
                if total - 1 > NDJSON_MAX {
                    return Err(FramingError::NdjsonUnterminated { buffered: total - 1 });
                }
                return Ok(None);
            }
            let nl = i;
            assert(find_newline(s, 1) == Some(nl as int));
            let line_len = nl - 1;
            if line_len > NDJSON_MAX {
                return Err(FramingError::NdjsonTooLong { len: line_len });
            }
            let frame_bytes = buf_split_to(&mut self.buf, nl + 1);
            let payload = vstd::slice::slice_subrange(frame_bytes.as_slice(), 1, nl);
            assert(payload@ =~= s.subrange(1, nl as int));
            match utf8_to_string(payload) {
                Ok(json) => Ok(Some(Frame::Ndjson(json))),
                Err((valid_up_to, error_len)) => Err(FramingError::NdjsonInvalidUtf8 { valid_up_to, error_len }),
            }
        } else if tag == TAG_PTY_OUT || tag == TAG_PTY_IN {
            if total < 9 {
                return Ok(None);
            }
            let stream_id = read_buf_be32(&self.buf, 1);
            let len = read_buf_be32(&self.buf, 5);
            if len as usize > BINARY_MAX {
                return Err(FramingError::BinaryTooLong { tag, len });
            }
            let len = len as usize;
            if total < 9 + len {
                return Ok(None);
            }
            let _header = buf_split_to(&mut self.buf, 9);
            let bytes = buf_split_to(&mut self.buf, len);
            assert(bytes@ =~= s.subrange(9, 9 + len));
            assert(buf_contents(self.buf) =~= s.skip(9 + len));
            if tag == TAG_PTY_OUT {
                Ok(Some(Frame::PtyOut { stream_id, bytes }))
            } else {
                Ok(Some(Frame::PtyIn { stream_id, bytes }))
            }
        } else if tag == TAG_ASSET {
            if total < 10 {
                return Ok(None);
            }
            let asset_id = read_buf_be32(&self.buf, 1);
            let tier_byte = buf_byte(&self.buf, 5);
            let len = read_buf_be32(&self.buf, 6);
            if len as usize > BINARY_MAX {
                return Err(FramingError::AssetTooLong { len });
            }
            let len = len as usize;
            if total < 10 + len {
                return Ok(None);
            }
            let is_final = tier_byte >= 128;
            let tier = tier_byte % 128;
            let _header = buf_split_to(&mut self.buf, 10);
            let bytes = buf_split_to(&mut self.buf, len);
            assert(bytes@ =~= s.subrange(10, 10 + len));
            assert(buf_contents(self.buf) =~= s.skip(10 + len));
            Ok(Some(Frame::Asset { asset_id, tier, is_final, bytes }))
        } else {
            Err(FramingError::UnknownTag { tag })
        }
    }
}

impl Default for FrameDecoder {
    fn default() -> (d: Self)
        ensures
            d.pending() == Seq::<u8>::empty(),
            !d.is_poisoned(),
    {
        Self::new()
    }
}

// ── Encoders ─────────────────────────────────────────────────────────────────

/// Append the big-endian bytes of `v`.
fn push_be32(out: &mut Vec<u8>, v: u32)
    ensures
        final(out)@ == old(out)@ + be32(v),
{
    out.push((v / 16777216) as u8);
    out.push(((v / 65536) % 256) as u8);
    out.push(((v / 256) % 256) as u8);
    out.push((v % 256) as u8);
    assert(final(out)@ =~= old(out)@ + be32(v));
}

/// Frame an already serialised JSON document as an outbound NDJSON frame:
/// `[0x00][json bytes][0x0a]`. Payloads over `NDJSON_MAX` bytes are refused.
pub fn encode_ndjson(json: &[u8]) -> (r: Result<Vec<u8>, FramingError>)
    ensures
        json@.len() > NDJSON_MAX ==> r == Err::<Vec<u8>, FramingError>(
            FramingError::NdjsonPayloadTooLarge { len: json@.len() as usize },
        ),
        json@.len() <= NDJSON_MAX ==> (r matches Ok(v) && v@ == ndjson_frame(json@)),
{
    if json.len() > NDJSON_MAX {
        return Err(FramingError::NdjsonPayloadTooLarge { len: json.len() });
    }
    let mut buf: Vec<u8> = Vec::with_capacity(2 + json.len());
    buf.push(TAG_NDJSON);
    append_bytes(&mut buf, json);
    buf.push(10u8);
    assert(buf@ =~= ndjson_frame(json@));
    Ok(buf)
}

fn encode_pty(tag: u8, stream_id: u32, data: &[u8]) -> (v: Vec<u8>)
    ensures
        v@ == pty_frame(tag, stream_id, data@),
{
    let mut buf: Vec<u8> = Vec::new();
    buf.push(tag);
    push_be32(&mut buf, stream_id);
    push_be32(&mut buf, data.len() as u32);
    append_bytes(&mut buf, data);
    assert(buf@ =~= pty_frame(tag, stream_id, data@));
    buf
}

/// Encode a PTY-inbound frame (client to daemon keyboard input). Payloads
/// over `BINARY_MAX` bytes are refused.
pub fn encode_pty_in(stream_id: u32, data: &[u8]) -> (r: Result<Vec<u8>, FramingError>)
    ensures
        data@.len() > BINARY_MAX ==> r == Err::<Vec<u8>, FramingError>(
            FramingError::PtyPayloadTooLarge { len: data@.len() as usize },
        ),
        data@.len() <= BINARY_MAX ==> (r matches Ok(v) && v@ == pty_frame(TAG_PTY_IN, stream_id, data@)),
{
    if data.len() > BINARY_MAX {
        return Err(FramingError::PtyPayloadTooLarge { len: data.len() });
    }
    Ok(encode_pty(TAG_PTY_IN, stream_id, data))
}

/// Encode a PTY-outbound frame (the daemon's direction), without a size check.
pub fn encode_pty_out(stream_id: u32, data: &[u8]) -> (v: Vec<u8>)
    ensures
        v@ == pty_frame(TAG_PTY_OUT, stream_id, data@),
{
    encode_pty(TAG_PTY_OUT, stream_id, data)
}

/// Encode an asset frame (the daemon's direction), without a size check.
pub fn encode_asset(asset_id: u32, tier: u8, data: &[u8], is_final: bool) -> (v: Vec<u8>)
    ensures
        v@ == asset_frame(asset_id, tier, is_final, data@),
{
    let tb = if is_final { tier | 0x80u8 } else { tier };
    let mut buf: Vec<u8> = Vec::new();
    buf.push(TAG_ASSET);
    push_be32(&mut buf, asset_id);
    buf.push(tb);
    push_be32(&mut buf, data.len() as u32);
    append_bytes(&mut buf, data);
    assert(buf@ =~= asset_frame(asset_id, tier, is_final, data@));
    buf
}

/// The big-endian `u32` at `off` in the buffer.
fn read_buf_be32(b: &BytesMut, off: usize) -> (v: u32)
    requires
        off + 4 <= buf_contents(*b).len() <= usize::MAX,
    ensures
        v == read_be32(buf_contents(*b), off as int),
{
    let b0 = buf_byte(b, off) as u32;
    let b1 = buf_byte(b, off + 1) as u32;
    let b2 = buf_byte(b, off + 2) as u32;
    let b3 = buf_byte(b, off + 3) as u32;
    b0 * 16777216 + b1 * 65536 + b2 * 256 + b3
}

/// `std::str::from_utf8` followed by `to_owned`: `Ok` exactly when the bytes
/// are UTF-8, holding the decoded text; else the error's `valid_up_to` (the
/// largest index up to which the bytes are UTF-8) and `error_len` (named by
/// [`utf8_error_len`]).
#[verifier::external_body]
fn utf8_to_string(bytes: &[u8]) -> (r: Result<String, (usize, Option<usize>)>)
    ensures
        r is Ok <==> valid_utf8(bytes@),
        r matches Ok(s) ==> s@ == decode_utf8(bytes@),
        r matches Err(e) ==> e.0 == utf8_prefix_len(bytes@, bytes@.len() as int) && e.1 == utf8_error_len(bytes@),
{
    match std::str::from_utf8(bytes) {
        Ok(s) => Ok(s.to_owned()),
        Err(e) => Err((e.valid_up_to(), e.error_len())),
    }
}

} // verus!
