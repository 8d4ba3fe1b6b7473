//! Wire codec for the control transport.
//!
//! A control frame is a 1-byte command, optionally followed by a 1-byte
//! length `L` (1..=255) and exactly `L` bytes of UTF-8 subject text.
//! The `SEND_CALL_STREAM_ID` frame is special: the command byte followed by
//! exactly 4 raw bytes of stream identifier, with no length prefix.

use vstd::prelude::*;

verus! {

pub const TCP_PORT: u16 = 8080;
pub const UDP_PORT: u16 = 8081;

pub const HELLO_FROM_CLIENT_BYTE: u8 = 69;
pub const HELLO_FROM_SERVER_BYTE: u8 = 70;
pub const USERNAME_ALREADY_TAKEN_BYTE: u8 = 71;
pub const ADD_USER_TO_CLIENT_BYTE: u8 = 72;
pub const REMOVE_USER_FROM_CLIENT_BYTE: u8 = 73;
pub const REQUEST_CALL_BYTE: u8 = 74;
pub const START_CALL_BYTE: u8 = 75;
pub const DENY_CALL_BYTE: u8 = 76;
pub const REQUEST_CALL_STREAM_ID_BYTE: u8 = 77;
pub const SEND_CALL_STREAM_ID_BYTE: u8 = 78;
pub const END_CALL_BYTE: u8 = 79;

/// The longest subject a string-bearing frame can carry.
pub const MAX_SUBJECT_LEN: usize = 255;

/// Commands that carry a length-prefixed subject string.
pub open spec fn takes_subject(cmd: u8) -> bool {
    ||| cmd == HELLO_FROM_CLIENT_BYTE
    ||| cmd == ADD_USER_TO_CLIENT_BYTE
    ||| cmd == REMOVE_USER_FROM_CLIENT_BYTE
    ||| cmd == REQUEST_CALL_BYTE
    ||| cmd == START_CALL_BYTE
    ||| cmd == DENY_CALL_BYTE
    ||| cmd == REQUEST_CALL_STREAM_ID_BYTE
}

/// Runtime test for [`takes_subject`].
pub fn is_subject_command(cmd: u8) -> (b: bool)
    ensures
        b == takes_subject(cmd),
{
    cmd == HELLO_FROM_CLIENT_BYTE || cmd == ADD_USER_TO_CLIENT_BYTE
        || cmd == REMOVE_USER_FROM_CLIENT_BYTE || cmd == REQUEST_CALL_BYTE
        || cmd == START_CALL_BYTE || cmd == DENY_CALL_BYTE || cmd == REQUEST_CALL_STREAM_ID_BYTE
}

/// The codec rejects input: a subject length outside 1..=255, a payload that
/// is not valid UTF-8, or a stream that ends in the middle of a frame.
#[derive(Clone, Copy, Debug, PartialEq, Eq, Structural)]
pub enum CodecError {
    MalformedFrame,
}

/// The byte image of a control frame.
pub open spec fn spec_encode(cmd: u8, subject: Option<Seq<u8>>) -> Seq<u8> {
    match subject {
        Option::None => seq![cmd],
        Option::Some(s) => seq![cmd, s.len() as u8] + s,
    }
}

/// Frames a control command for the reliable transport.
///
/// A subject must hold 1..=255 bytes; anything else is rejected before
/// transmission.
pub fn encode_command(cmd: u8, subject: Option<&Vec<u8>>) -> (r: Result<Vec<u8>, CodecError>)
    ensures
        match subject {
            Option::None => r matches Ok(v) && v@ == spec_encode(cmd, Option::None),
            Option::Some(s) => {
                if 1 <= s@.len() <= MAX_SUBJECT_LEN {
                    r matches Ok(v) && v@ == spec_encode(cmd, Option::Some(s@))
                } else {
                    r matches Err(e) && e == CodecError::MalformedFrame
                }
            },
        },
{
    match subject {
        Option::None => {
            let mut out: Vec<u8> = Vec::new();
            out.push(cmd);
            assert(out@ =~= spec_encode(cmd, Option::None));
            Ok(out)
        },
        Option::Some(s) => {
            if s.len() == 0 || s.len() > MAX_SUBJECT_LEN {
                return Err(CodecError::MalformedFrame);
            }
            let mut out: Vec<u8> = Vec::new();
            out.push(cmd);
            out.push(s.len() as u8);
            let mut i: usize = 0;
            while i < s.len()
                invariant
                    i <= s.len(),
                    s@.len() <= MAX_SUBJECT_LEN,
                    out@ =~= seq![cmd, s@.len() as u8] + s@.subrange(0, i as int),
                decreases s.len() - i,
            {
                out.push(s[i]);
                i = i + 1;
            }
            assert(out@ =~= spec_encode(cmd, Option::Some(s@)));
            Ok(out)
        },
    }
}

/// Relies on `std::str::from_utf8`: it returns `Ok` exactly when the bytes
/// are a valid UTF-8 encoding, the notion `vstd::utf8::valid_utf8` captures.
#[verifier::external_body]
fn utf8_check(bytes: &Vec<u8>) -> (r: bool)
    ensures
        r == vstd::utf8::valid_utf8(bytes@),
{
    std::str::from_utf8(bytes.as_slice()).is_ok()
}

/// What looking for one control frame at the front of a byte buffer yields.
pub enum Parsed {
    /// The buffer ends before the frame does; more bytes are needed.
    /// A stream that closes here closed cleanly only if the buffer was empty.
    Incomplete,
    /// A zero subject length or a subject that is not UTF-8.
    Malformed,
    /// One whole frame, and how many bytes of the buffer it spans.
    Frame { cmd: u8, subject: Option<Vec<u8>>, used: usize },
}

/// Specification-level image of [`Parsed`].
pub enum SpecParsed {
    Incomplete,
    Malformed,
    Frame { cmd: u8, subject: Option<Seq<u8>>, used: int },
}

impl View for Parsed {
    type V = SpecParsed;

    open spec fn view(&self) -> SpecParsed {
        match self {
            Parsed::Incomplete => SpecParsed::Incomplete,
            Parsed::Malformed => SpecParsed::Malformed,
            Parsed::Frame { cmd, subject, used } => SpecParsed::Frame {
                cmd: *cmd,
                subject: match subject {
                    Option::None => Option::None,
                    Option::Some(s) => Option::Some(s@),
                },
                used: *used as int,
            },
        }
    }
}

/// The frame, if any, at the front of `bytes`.
pub open spec fn spec_parse(bytes: Seq<u8>) -> SpecParsed {
    if bytes.len() == 0 {
        SpecParsed::Incomplete
    } else {
        let cmd = bytes[0];
        if !takes_subject(cmd) {
            SpecParsed::Frame { cmd, subject: Option::None, used: 1 }
        } else if bytes.len() < 2 {
            SpecParsed::Incomplete
        } else {
            let len = bytes[1] as int;
            if len == 0 {
                SpecParsed::Malformed
            } else if bytes.len() < 2 + len {
                SpecParsed::Incomplete
            } else {
                let payload = bytes.subrange(2, 2 + len);
                if !vstd::utf8::valid_utf8(payload) {
                    SpecParsed::Malformed
                } else {
                    SpecParsed::Frame { cmd, subject: Option::Some(payload), used: 2 + len }
                }
            }
        }
    }
}

/// Reads one control frame from `buf` starting at `start`.
///
/// Mirrors reading from the reliable stream: the bytes at `start..` are what
/// has arrived so far, and `Incomplete` asks the caller to wait for more.
pub fn parse_command(buf: &Vec<u8>, start: usize) -> (r: Parsed)
    requires
        start <= buf@.len(),
    ensures
        r@ == spec_parse(buf@.skip(start as int)),
        r@ matches SpecParsed::Frame { used, subject, .. } ==> {
            &&& 1 <= used <= buf@.len() - start
            &&& (subject matches Option::Some(s) ==> 1 <= s.len() <= MAX_SUBJECT_LEN)
        },
{
    let ghost avail = buf@.skip(start as int);
    if start == buf.len() {
        return Parsed::Incomplete;
    }
    let cmd = buf[start];
    assert(avail[0] == cmd);
    if !is_subject_command(cmd) {
        return Parsed::Frame { cmd, subject: None, used: 1 };
    }
    if buf.len() - start < 2 {
        return Parsed::Incomplete;
    }
    let len = buf[start + 1] as usize;
    assert(avail[1] == buf@[start + 1]);
    if len == 0 {
        return Parsed::Malformed;
    }
    if buf.len() - start - 2 < len {
        assert(avail.len() < 2 + len);
        return Parsed::Incomplete;
    }
    let mut payload: Vec<u8> = Vec::new();
    let mut i: usize = 0;
    while i < len
        invariant
            i <= len,
            start + 2 + len <= buf@.len(),
            buf@.len() <= usize::MAX,
            payload@ =~= buf@.subrange(start + 2, start + 2 + i),
        decreases len - i,
    {
        payload.push(buf[start + 2 + i]);
        i = i + 1;
    }
    assert(payload@ =~= avail.subrange(2, 2 + len));
    if !utf8_check(&payload) {
        return Parsed::Malformed;
    }
    Parsed::Frame { cmd, subject: Some(payload), used: 2 + len }
}

/// Round trip of the string-bearing and bare control frames: a frame that
/// [`encode_command`] accepts is read back whole by [`parse_command`], byte
/// for byte, with nothing taken from whatever follows it on the stream.
pub proof fn lemma_encode_parse_round_trip(cmd: u8, subject: Option<Seq<u8>>, rest: Seq<u8>)
    requires
        match subject {
            Option::None => !takes_subject(cmd),
            Option::Some(s) => takes_subject(cmd) && 1 <= s.len() <= MAX_SUBJECT_LEN
                && vstd::utf8::valid_utf8(s),
        },
    ensures
        spec_parse(spec_encode(cmd, subject) + rest) == (SpecParsed::Frame {
            cmd,
            subject,
            used: spec_encode(cmd, subject).len() as int,
        }),
{
    let enc = spec_encode(cmd, subject) + rest;
    match subject {
        Option::None => {
            assert(enc[0] == cmd);
        },
        Option::Some(s) => {
            assert(enc[0] == cmd);
            assert(enc[1] == s.len() as u8);
            assert(enc.subrange(2, 2 + s.len() as int) =~= s);
        },
    }
}

/// The four wire bytes of a stream identifier, least significant first.
pub open spec fn spec_sid_bytes(sid: u32) -> Seq<u8> {
    seq![
        (sid & 0xff) as u8,
        ((sid >> 8) & 0xff) as u8,
        ((sid >> 16) & 0xff) as u8,
        ((sid >> 24) & 0xff) as u8,
    ]
}

/// The stream identifier carried by four wire bytes.
pub open spec fn spec_sid_of(b0: u8, b1: u8, b2: u8, b3: u8) -> u32 {
    (b0 as u32) | ((b1 as u32) << 8) | ((b2 as u32) << 16) | ((b3 as u32) << 24)
}

/// The two directions of the stream-identifier byte codec invert each other.
pub proof fn lemma_sid_bytes_round_trip(sid: u32, b0: u8, b1: u8, b2: u8, b3: u8)
    ensures
        spec_sid_of(
            spec_sid_bytes(sid)[0],
            spec_sid_bytes(sid)[1],
            spec_sid_bytes(sid)[2],
            spec_sid_bytes(sid)[3],
        ) == sid,
        spec_sid_bytes(spec_sid_of(b0, b1, b2, b3)) =~= seq![b0, b1, b2, b3],
{
    assert(((sid & 0xff) as u8 as u32) | ((((sid >> 8) & 0xff) as u8 as u32) << 8)
        | ((((sid >> 16) & 0xff) as u8 as u32) << 16) | ((((sid >> 24) & 0xff) as u8 as u32) << 24)
        == sid) by (bit_vector);
    let s = spec_sid_of(b0, b1, b2, b3);
    assert(((((b0 as u32) | ((b1 as u32) << 8) | ((b2 as u32) << 16) | ((b3 as u32) << 24)) & 0xff)
        as u8) == b0) by (bit_vector);
    assert(((((b0 as u32) | ((b1 as u32) << 8) | ((b2 as u32) << 16) | ((b3 as u32) << 24)) >> 8)
        & 0xff) as u8 == b1) by (bit_vector);
    assert(((((b0 as u32) | ((b1 as u32) << 8) | ((b2 as u32) << 16) | ((b3 as u32) << 24)) >> 16)
        & 0xff) as u8 == b2) by (bit_vector);
    assert(((((b0 as u32) | ((b1 as u32) << 8) | ((b2 as u32) << 16) | ((b3 as u32) << 24)) >> 24)
        & 0xff) as u8 == b3) by (bit_vector);
}

/// Appends the four wire bytes of `sid` to `out`.
pub fn push_sid_bytes(out: &mut Vec<u8>, sid: u32)
    requires
        old(out)@.len() + 4 <= usize::MAX,
    ensures
        final(out)@ == old(out)@ + spec_sid_bytes(sid),
{
    out.push((sid & 0xff) as u8);
    out.push(((sid >> 8) & 0xff) as u8);
    out.push(((sid >> 16) & 0xff) as u8);
    out.push(((sid >> 24) & 0xff) as u8);
    assert(out@ =~= old(out)@ + spec_sid_bytes(sid));
}

/// Reassembles a stream identifier from its four wire bytes.
pub fn sid_from_bytes(b0: u8, b1: u8, b2: u8, b3: u8) -> (s: u32)
    ensures
        s == spec_sid_of(b0, b1, b2, b3),
{
    (b0 as u32) | ((b1 as u32) << 8) | ((b2 as u32) << 16) | ((b3 as u32) << 24)
}

/// Frames a `SEND_CALL_STREAM_ID` reply: the command byte and 4 raw sid bytes.
pub fn encode_sid_frame(sid: u32) -> (v: Vec<u8>)
    ensures
        v@ == seq![SEND_CALL_STREAM_ID_BYTE] + spec_sid_bytes(sid),
        v@.len() == 5,
{
    let mut out: Vec<u8> = Vec::new();
    out.push(SEND_CALL_STREAM_ID_BYTE);
    push_sid_bytes(&mut out, sid);
    assert(out@ =~= seq![SEND_CALL_STREAM_ID_BYTE] + spec_sid_bytes(sid));
    out
}

/// Reads the 5-byte `SEND_CALL_STREAM_ID` reply the client waits for.
pub fn parse_sid_frame(buf: &Vec<u8>) -> (r: Result<u32, CodecError>)
    ensures
        if buf@.len() == 5 && buf@[0] == SEND_CALL_STREAM_ID_BYTE {
            r matches Ok(s) && s == spec_sid_of(buf@[1], buf@[2], buf@[3], buf@[4])
        } else {
            r matches Err(e) && e == CodecError::MalformedFrame
        },
{
    if buf.len() != 5 || buf[0] != SEND_CALL_STREAM_ID_BYTE {
        return Err(CodecError::MalformedFrame);
    }
    Ok(sid_from_bytes(buf[1], buf[2], buf[3], buf[4]))
}

/// Frames a client media datagram: 4 sid bytes, then the opaque payload.
pub fn encode_datagram(sid: u32, payload: &Vec<u8>) -> (v: Vec<u8>)
    requires
        payload@.len() + 4 <= usize::MAX,
    ensures
        v@ == spec_sid_bytes(sid) + payload@,
{
    let mut out: Vec<u8> = Vec::new();
    push_sid_bytes(&mut out, sid);
    let mut i: usize = 0;
    while i < payload.len()
        invariant
            i <= payload@.len(),
            payload@.len() + 4 <= usize::MAX,
            out@ =~= spec_sid_bytes(sid) + payload@.subrange(0, i as int),
        decreases payload@.len() - i,
    {
        out.push(payload[i]);
        i = i + 1;
    }
    assert(out@ =~= spec_sid_bytes(sid) + payload@);
    out
}

/// Splits the first `n` received bytes of a media datagram into the sender's
/// claimed stream identifier and the opaque payload. A datagram too short to
/// carry a stream identifier is dropped.
pub fn split_datagram(buf: &Vec<u8>, n: usize) -> (r: Option<(u32, Vec<u8>)>)
    requires
        n <= buf@.len(),
    ensures
        match r {
            Option::None => n < 4,
            Option::Some((sid, payload)) => n >= 4
                && sid == spec_sid_of(buf@[0], buf@[1], buf@[2], buf@[3])
                && payload@ == buf@.subrange(4, n as int),
        },
{
    if n < 4 {
        return None;
    }
    let sid = sid_from_bytes(buf[0], buf[1], buf[2], buf[3]);
    let mut payload: Vec<u8> = Vec::new();
    let mut i: usize = 4;
    while i < n
        invariant
            4 <= i <= n,
            n <= buf@.len(),
            payload@ =~= buf@.subrange(4, i as int),
        decreases n - i,
    {
        payload.push(buf[i]);
        i = i + 1;
    }
    Some((sid, payload))
}

/// Round trip of the media datagram framing: what [`encode_datagram`] sends,
/// [`split_datagram`] takes apart into the same identifier and payload.
pub proof fn lemma_datagram_round_trip(sid: u32, payload: Seq<u8>)
    ensures
        ({
            let wire = spec_sid_bytes(sid) + payload;
            &&& spec_sid_of(wire[0], wire[1], wire[2], wire[3]) == sid
            &&& wire.subrange(4, wire.len() as int) =~= payload
        }),
{
    lemma_sid_bytes_round_trip(sid, 0, 0, 0, 0);
}

} // verus!

