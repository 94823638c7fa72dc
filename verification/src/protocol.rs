//! The wire protocol: opcode constants, the semantic version triple, the
//! frame codec with its round-trip guarantee, the handshake rule, and the
//! replies the request dispatcher owes.

use vstd::prelude::*;
use vstd::slice::{slice_subrange, slice_to_vec};
use vstd::string::*;

use crate::cache::{has_key, stored_table, Cache, Entry, EntryView, SetOutcome};
use crate::model::Model;

verus! {

pub const OPERATION_READY: u8 = 0x80;

pub const OPERATION_HELLO: u8 = 0x00;

pub const OPERATION_NOP: u8 = 0x02;

pub const OPERATION_SET: u8 = 0x03;

pub const OPERATION_DEL: u8 = 0x04;

pub const OPERATION_GET: u8 = 0x05;

pub const OPERATION_OK: u8 = 0x82;

pub const OPERATION_VALUE: u8 = 0x83;

pub const OPERATION_ERROR: u8 = 0x84;

pub const OPERATION_QUIT: u8 = 0xFF;

/// A semantic version triple, ordered major before minor before patch.
#[derive(Clone, Copy, Debug, PartialEq, Eq, Structural)]
pub struct Version {
    major: u8,
    minor: u8,
    patch: u8,
}

impl View for Version {
    type V = (u8, u8, u8);

    closed spec fn view(&self) -> (u8, u8, u8) {
        (self.major, self.minor, self.patch)
    }
}

/// Lexicographic order on version triples.
pub open spec fn version_le(a: (u8, u8, u8), b: (u8, u8, u8)) -> bool {
    ||| a.0 < b.0
    ||| (a.0 == b.0 && a.1 < b.1)
    ||| (a.0 == b.0 && a.1 == b.1 && a.2 <= b.2)
}

/// `version_le` is reflexive, antisymmetric, transitive and total: a total
/// order agreeing with the lexicographic comparison of the triples.
pub proof fn lemma_version_total_order(a: (u8, u8, u8), b: (u8, u8, u8), c: (u8, u8, u8))
    ensures
        version_le(a, a),
        version_le(a, b) && version_le(b, a) ==> a == b,
        version_le(a, b) && version_le(b, c) ==> version_le(a, c),
        version_le(a, b) || version_le(b, a),
{
}

/// An ASCII decimal digit.
pub open spec fn is_digit(c: u8) -> bool {
    48 <= c <= 57
}

/// Every byte is an ASCII decimal digit.
pub open spec fn all_digits(s: Seq<u8>) -> bool {
    forall|i: int| 0 <= i < s.len() ==> is_digit(#[trigger] s[i])
}

/// The number an ASCII decimal digit string denotes.
pub open spec fn dec_value(s: Seq<u8>) -> int
    decreases s.len(),
{
    if s.len() == 0 {
        0
    } else {
        dec_value(s.drop_last()) * 10 + (s.last() - 48)
    }
}

/// A digit string denoting a number an unsigned byte can hold.
pub open spec fn valid_component(s: Seq<u8>) -> bool {
    s.len() >= 1 && all_digits(s) && dec_value(s) <= 255
}

/// The index of the first dot, or the length when there is none.
pub open spec fn first_dot(s: Seq<u8>) -> int
    decreases s.len(),
{
    if s.len() == 0 {
        0
    } else if s[0] == 46 {
        0
    } else {
        1 + first_dot(s.skip(1))
    }
}

/// What a version text denotes: up to three dot-separated decimal
/// components, missing ones read as zero.
pub open spec fn spec_parse_version(s: Seq<u8>) -> Option<(u8, u8, u8)> {
    let d1 = first_dot(s);
    let a = s.take(d1);
    if !valid_component(a) {
        None
    } else if d1 == s.len() {
        Some((dec_value(a) as u8, 0, 0))
    } else {
        let rest = s.skip(d1 + 1);
        let d2 = first_dot(rest);
        let b = rest.take(d2);
        if !valid_component(b) {
            None
        } else if d2 == rest.len() {
            Some((dec_value(a) as u8, dec_value(b) as u8, 0))
        } else {
            let c = rest.skip(d2 + 1);
            if valid_component(c) {
                Some((dec_value(a) as u8, dec_value(b) as u8, dec_value(c) as u8))
            } else {
                None
            }
        }
    }
}

/// Why a version could not be read.
#[derive(Clone, Copy, Debug, PartialEq, Eq, Structural)]
pub enum VersionError {
    /// A wire version field must be exactly three bytes.
    WrongLength,
    /// A text component is empty, not decimal, or too large for a byte.
    BadNumber,
}

impl Version {
    pub fn new(major: u8, minor: u8, patch: u8) -> (r: Version)
        ensures
            r@ == (major, minor, patch),
    {
        Version { major, minor, patch }
    }

    /// The three bytes that go on the wire, major first.
    pub fn as_bytes(&self) -> (r: [u8; 3])
        ensures
            r@ == seq![self@.0, self@.1, self@.2],
    {
        let r = [self.major, self.minor, self.patch];
        proof {
            assert(r@ =~= seq![self@.0, self@.1, self@.2]);
        }
        r
    }

    /// Read a version from a three-byte wire field.
    pub fn from_bytes(value: &[u8]) -> (r: Result<Version, VersionError>)
        ensures
            match r {
                Ok(v) => value@.len() == 3 && v@ == (value@[0], value@[1], value@[2]),
                Err(e) => value@.len() != 3 && e == VersionError::WrongLength,
            },
    {
        if value.len() != 3 {
            return Err(VersionError::WrongLength);
        }
        Ok(Version { major: value[0], minor: value[1], patch: value[2] })
    }

    /// Read a version from dot-separated decimal text.
    pub fn parse(text: &[u8]) -> (r: Result<Version, VersionError>)
        ensures
            match r {
                Ok(v) => spec_parse_version(text@) == Some(v@),
                Err(e) => spec_parse_version(text@) is None && e == VersionError::BadNumber,
            },
    {
        let n = text.len();
        let d1 = find_dot(text, 0);
        proof {
            assert(text@.skip(0) =~= text@);
            assert(text@.subrange(0, d1 as int) =~= text@.take(first_dot(text@)));
        }
        let major = match parse_u8_dec(text, 0, d1) {
            Ok(v) => v,
            Err(e) => {
                return Err(e);
            },
        };
        if d1 == n {
            return Ok(Version { major, minor: 0, patch: 0 });
        }
        let ghost rest = text@.skip(d1 + 1);
        let d2 = find_dot(text, d1 + 1);
        proof {
            assert(text@.subrange(d1 + 1, d2 as int) =~= rest.take(first_dot(rest)));
        }
        let minor = match parse_u8_dec(text, d1 + 1, d2) {
            Ok(v) => v,
            Err(e) => {
                return Err(e);
            },
        };
        if d2 == n {
            return Ok(Version { major, minor, patch: 0 });
        }
        proof {
            assert(text@.subrange(d2 + 1, n as int) =~= rest.skip(first_dot(rest) + 1));
        }
        match parse_u8_dec(text, d2 + 1, n) {
            Ok(patch) => Ok(Version { major, minor, patch }),
            Err(e) => Err(e),
        }
    }

    /// Whether `self` is at or below `other` in the version order.
    pub fn le(&self, other: &Version) -> (r: bool)
        ensures
            r == version_le(self@, other@),
    {
        if self.major != other.major {
            self.major < other.major
        } else if self.minor != other.minor {
            self.minor < other.minor
        } else {
            self.patch <= other.patch
        }
    }
}

/// Those two facts pin `first_dot` down.
proof fn lemma_first_dot_at(s: Seq<u8>, d: int)
    requires
        0 <= d <= s.len(),
        forall|i: int| 0 <= i < d ==> #[trigger] s[i] != 46,
        d < s.len() ==> s[d] == 46,
    ensures
        first_dot(s) == d,
    decreases s.len(),
{
    if s.len() == 0 {
    } else if s[0] == 46 {
        assert(d == 0);
    } else {
        assert(d >= 1);
        assert(forall|i: int| 0 <= i < s.len() - 1 ==> #[trigger] s.skip(1)[i] == s[i + 1]);
        lemma_first_dot_at(s.skip(1), d - 1);
    }
}

/// Scan for the first dot at or after `from`.
fn find_dot(s: &[u8], from: usize) -> (r: usize)
    requires
        from <= s@.len(),
    ensures
        from <= r <= s@.len(),
        r == from + first_dot(s@.skip(from as int)),
        forall|i: int| from <= i < r ==> #[trigger] s@[i] != 46,
        r < s@.len() ==> s@[r as int] == 46,
{
    let n = s.len();
    let mut j = from;
    while j < n
        invariant
            from <= j <= n,
            n == s@.len(),
            forall|i: int| from <= i < j ==> #[trigger] s@[i] != 46,
        decreases n - j,
    {
        if s[j] == 46 {
            proof {
                assert(forall|i: int|
                    0 <= i < s@.len() - from ==> #[trigger] s@.skip(from as int)[i] == s@[from
                        + i]);
                lemma_first_dot_at(s@.skip(from as int), j - from);
            }
            return j;
        }
        j += 1;
    }
    proof {
        assert(forall|i: int|
            0 <= i < s@.len() - from ==> #[trigger] s@.skip(from as int)[i] == s@[from + i]);
        lemma_first_dot_at(s@.skip(from as int), n - from);
    }
    n
}

/// A digit string is worth at least any of its prefixes, and at least zero.
proof fn lemma_dec_value_mono(s: Seq<u8>, k: int)
    requires
        all_digits(s),
        0 <= k <= s.len(),
    ensures
        dec_value(s) >= dec_value(s.take(k)),
        dec_value(s) >= 0,
    decreases s.len(),
{
    if s.len() == 0 {
        assert(s.take(k) =~= s);
    } else {
        let p = s.drop_last();
        assert(forall|i: int| 0 <= i < p.len() ==> #[trigger] p[i] == s[i]);
        if k == s.len() {
            assert(s.take(k) =~= s);
            lemma_dec_value_mono(p, p.len() as int);
        } else {
            assert(s.take(k) =~= p.take(k));
            lemma_dec_value_mono(p, k);
        }
    }
}

/// Read the decimal component `s[from..to]` as an unsigned byte.
fn parse_u8_dec(s: &[u8], from: usize, to: usize) -> (r: Result<u8, VersionError>)
    requires
        from <= to <= s@.len(),
    ensures
        ({
            let c = s@.subrange(from as int, to as int);
            match r {
                Ok(v) => valid_component(c) && v as int == dec_value(c),
                Err(e) => !valid_component(c) && e == VersionError::BadNumber,
            }
        }),
{
    let ghost c = s@.subrange(from as int, to as int);
    if from == to {
        return Err(VersionError::BadNumber);
    }
    let mut acc: u32 = 0;
    let mut j = from;
    while j < to
        invariant
            from <= j <= to <= s@.len(),
            c == s@.subrange(from as int, to as int),
            acc <= 255,
            all_digits(s@.subrange(from as int, j as int)),
            acc as int == dec_value(s@.subrange(from as int, j as int)),
        decreases to - j,
    {
        let ch = s[j];
        if ch < 48 || ch > 57 {
            proof {
                assert(c[j - from] == ch);
            }
            return Err(VersionError::BadNumber);
        }
        proof {
            assert(s@.subrange(from as int, j + 1).drop_last() =~= s@.subrange(
                from as int,
                j as int,
            ));
            assert(s@.subrange(from as int, j + 1).last() == ch);
            assert(forall|i: int|
                0 <= i < j + 1 - from ==> #[trigger] s@.subrange(from as int, j + 1)[i] == s@[from
                    + i]);
        }
        acc = acc * 10 + ((ch - 48) as u32);
        let ghost jj = j + 1;
        if acc > 255 {
            proof {
                if all_digits(c) {
                    assert(c.take(jj - from) =~= s@.subrange(from as int, jj));
                    lemma_dec_value_mono(c, jj - from);
                }
            }
            return Err(VersionError::BadNumber);
        }
        j += 1;
    }
    proof {
        assert(c =~= s@.subrange(from as int, j as int));
    }
    Ok(acc as u8)
}

/// Why a frame could not be read.
#[derive(Clone, Copy, Debug, PartialEq, Eq, Structural)]
pub enum FrameError {
    /// The buffer ends before the frame does: read more bytes.
    Incomplete,
    /// The first byte is no opcode of this direction.
    BadOpcode,
    /// A length field is zero where the grammar demands content.
    ZeroLength,
}

/// A request frame, client to server.
#[derive(Debug, PartialEq, Eq)]
pub enum Request {
    Nop,
    Put { key: Vec<u8>, value: Vec<u8> },
    Del { key: Vec<u8> },
    Get { key: Vec<u8> },
    Quit,
}

/// The mathematical image of a [`Request`].
pub enum RequestView {
    Nop,
    Put { key: Seq<u8>, value: Seq<u8> },
    Del { key: Seq<u8> },
    Get { key: Seq<u8> },
    Quit,
}

impl View for Request {
    type V = RequestView;

    open spec fn view(&self) -> RequestView {
        match self {
            Request::Nop => RequestView::Nop,
            Request::Put { key, value } => RequestView::Put { key: key@, value: value@ },
            Request::Del { key } => RequestView::Del { key: key@ },
            Request::Get { key } => RequestView::Get { key: key@ },
            Request::Quit => RequestView::Quit,
        }
    }
}

/// A response frame, server to client.
#[derive(Debug, PartialEq, Eq)]
pub enum Response {
    Ready { version: Version },
    Okay,
    Value { value: Vec<u8> },
    Error { message: Vec<u8> },
    Quit,
}

/// The mathematical image of a [`Response`].
pub enum ResponseView {
    Ready { version: (u8, u8, u8) },
    Okay,
    Value { value: Seq<u8> },
    Error { message: Seq<u8> },
    Quit,
}

impl View for Response {
    type V = ResponseView;

    open spec fn view(&self) -> ResponseView {
        match self {
            Response::Ready { version } => ResponseView::Ready { version: version@ },
            Response::Okay => ResponseView::Okay,
            Response::Value { value } => ResponseView::Value { value: value@ },
            Response::Error { message } => ResponseView::Error { message: message@ },
            Response::Quit => ResponseView::Quit,
        }
    }
}

/// The four big-endian bytes of a 32-bit length.
pub open spec fn be32_of(n: u32) -> Seq<u8> {
    seq![(n >> 24) as u8, ((n >> 16) & 0xff) as u8, ((n >> 8) & 0xff) as u8, (n & 0xff) as u8]
}

/// The 32-bit length four big-endian bytes denote.
pub open spec fn from_be32(b0: u8, b1: u8, b2: u8, b3: u8) -> u32 {
    ((b0 as u32) << 24) | ((b1 as u32) << 16) | ((b2 as u32) << 8) | (b3 as u32)
}

/// Reading back the four big-endian bytes of `n` gives `n`.
pub proof fn lemma_be32_roundtrip(n: u32)
    ensures
        from_be32(
            (n >> 24) as u8,
            ((n >> 16) & 0xff) as u8,
            ((n >> 8) & 0xff) as u8,
            (n & 0xff) as u8,
        ) == n,
{
    assert((((n >> 24) as u8) as u32) << 24 | ((((n >> 16) & 0xff) as u8) as u32) << 16 | ((((n
        >> 8) & 0xff) as u8) as u32) << 8 | (((n & 0xff) as u8) as u32) == n) by (bit_vector);
}

/// A key fits its one-byte length field and is not empty.
pub open spec fn valid_key(k: Seq<u8>) -> bool {
    1 <= k.len() <= 255
}

/// A value or message fits its four-byte length field and is not empty.
pub open spec fn valid_payload(v: Seq<u8>) -> bool {
    1 <= v.len() <= u32::MAX
}

/// A request the codec can frame.
pub open spec fn valid_request(r: RequestView) -> bool {
    match r {
        RequestView::Nop => true,
        RequestView::Put { key, value } => valid_key(key) && valid_payload(value),
        RequestView::Del { key } => valid_key(key),
        RequestView::Get { key } => valid_key(key),
        RequestView::Quit => true,
    }
}

/// A response the codec can frame.
pub open spec fn valid_response(r: ResponseView) -> bool {
    match r {
        ResponseView::Ready { version } => true,
        ResponseView::Okay => true,
        ResponseView::Value { value } => valid_payload(value),
        ResponseView::Error { message } => valid_payload(message),
        ResponseView::Quit => true,
    }
}

/// The bytes of a request frame.
pub open spec fn spec_encode_request(r: RequestView) -> Seq<u8> {
    match r {
        RequestView::Nop => seq![OPERATION_NOP],
        RequestView::Put { key, value } => seq![OPERATION_SET, key.len() as u8] + key + be32_of(
            value.len() as u32,
        ) + value,
        RequestView::Del { key } => seq![OPERATION_DEL, key.len() as u8] + key,
        RequestView::Get { key } => seq![OPERATION_GET, key.len() as u8] + key,
        RequestView::Quit => seq![OPERATION_QUIT],
    }
}

/// The bytes of a response frame.
pub open spec fn spec_encode_response(r: ResponseView) -> Seq<u8> {
    match r {
        ResponseView::Ready { version } => seq![
            OPERATION_READY,
            version.0,
            version.1,
            version.2,
        ],
        ResponseView::Okay => seq![OPERATION_OK],
        ResponseView::Value { value } => seq![OPERATION_VALUE] + be32_of(value.len() as u32)
            + value,
        ResponseView::Error { message } => seq![OPERATION_ERROR] + be32_of(message.len() as u32)
            + message,
        ResponseView::Quit => seq![OPERATION_QUIT],
    }
}

/// Read a one-byte length and that many bytes after it, starting at `at`.
pub open spec fn spec_parse_lp8(s: Seq<u8>, at: int) -> Result<(Seq<u8>, int), FrameError> {
    if s.len() < at + 1 {
        Err(FrameError::Incomplete)
    } else {
        let l = s[at] as int;
        if l == 0 {
            Err(FrameError::ZeroLength)
        } else if s.len() < at + 1 + l {
            Err(FrameError::Incomplete)
        } else {
            Ok((s.subrange(at + 1, at + 1 + l), at + 1 + l))
        }
    }
}

/// Read a four-byte big-endian length and that many bytes after it.
pub open spec fn spec_parse_lp32(s: Seq<u8>, at: int) -> Result<(Seq<u8>, int), FrameError> {
    if s.len() < at + 4 {
        Err(FrameError::Incomplete)
    } else {
        let l = from_be32(s[at], s[at + 1], s[at + 2], s[at + 3]) as int;
        if l == 0 {
            Err(FrameError::ZeroLength)
        } else if s.len() < at + 4 + l {
            Err(FrameError::Incomplete)
        } else {
            Ok((s.subrange(at + 4, at + 4 + l), at + 4 + l))
        }
    }
}

/// What a request buffer holds: the first frame and how many bytes it took,
/// or why none can be read yet.
pub open spec fn spec_parse_request(s: Seq<u8>) -> Result<(RequestView, int), FrameError> {
    if s.len() < 1 {
        Err(FrameError::Incomplete)
    } else if s[0] == OPERATION_NOP {
        Ok((RequestView::Nop, 1))
    } else if s[0] == OPERATION_QUIT {
        Ok((RequestView::Quit, 1))
    } else if s[0] == OPERATION_GET {
        match spec_parse_lp8(s, 1) {
            Ok((key, n)) => Ok((RequestView::Get { key }, n)),
            Err(e) => Err(e),
        }
    } else if s[0] == OPERATION_DEL {
        match spec_parse_lp8(s, 1) {
            Ok((key, n)) => Ok((RequestView::Del { key }, n)),
            Err(e) => Err(e),
        }
    } else if s[0] == OPERATION_SET {
        match spec_parse_lp8(s, 1) {
            Ok((key, n)) => match spec_parse_lp32(s, n) {
                Ok((value, n2)) => Ok((RequestView::Put { key, value }, n2)),
                Err(e) => Err(e),
            },
            Err(e) => Err(e),
        }
    } else {
        Err(FrameError::BadOpcode)
    }
}

/// What a response buffer holds, seen from the client side.
pub open spec fn spec_parse_response(s: Seq<u8>) -> Result<(ResponseView, int), FrameError> {
    if s.len() < 1 {
        Err(FrameError::Incomplete)
    } else if s[0] == OPERATION_OK {
        Ok((ResponseView::Okay, 1))
    } else if s[0] == OPERATION_QUIT {
        Ok((ResponseView::Quit, 1))
    } else if s[0] == OPERATION_READY {
        if s.len() < 4 {
            Err(FrameError::Incomplete)
        } else {
            Ok((ResponseView::Ready { version: (s[1], s[2], s[3]) }, 4))
        }
    } else if s[0] == OPERATION_VALUE {
        match spec_parse_lp32(s, 1) {
            Ok((value, n)) => Ok((ResponseView::Value { value }, n)),
            Err(e) => Err(e),
        }
    } else if s[0] == OPERATION_ERROR {
        match spec_parse_lp32(s, 1) {
            Ok((message, n)) => Ok((ResponseView::Error { message }, n)),
            Err(e) => Err(e),
        }
    } else {
        Err(FrameError::BadOpcode)
    }
}

/// Append `src` to `dst`.
fn append_bytes(dst: &mut Vec<u8>, src: &[u8])
    ensures
        final(dst)@ == old(dst)@ + src@,
{
    let n = src.len();
    let mut j: usize = 0;
    while j < n
        invariant
            n == src@.len(),
            j <= n,
            dst@ == old(dst)@ + src@.take(j as int),
        decreases n - j,
    {
        dst.push(src[j]);
        proof {
            assert(old(dst)@ + src@.take(j + 1) =~= (old(dst)@ + src@.take(j as int)).push(
                src@[j as int],
            ));
        }
        j += 1;
    }
    proof {
        assert(src@.take(n as int) =~= src@);
    }
}

/// Append the four big-endian bytes of `n` to `dst`.
fn append_be32(dst: &mut Vec<u8>, n: u32)
    ensures
        final(dst)@ == old(dst)@ + be32_of(n),
{
    dst.push((n >> 24) as u8);
    dst.push(((n >> 16) & 0xff) as u8);
    dst.push(((n >> 8) & 0xff) as u8);
    dst.push((n & 0xff) as u8);
    proof {
        assert(dst@ =~= old(dst)@ + be32_of(n));
    }
}

/// Frame a request.
pub fn encode_request(r: &Request) -> (out: Vec<u8>)
    requires
        valid_request(r@),
    ensures
        out@ == spec_encode_request(r@),
{
    let mut out: Vec<u8> = Vec::new();
    match r {
        Request::Nop => {
            out.push(OPERATION_NOP);
        },
        Request::Quit => {
            out.push(OPERATION_QUIT);
        },
        Request::Get { key } => {
            out.push(OPERATION_GET);
            out.push(key.len() as u8);
            append_bytes(&mut out, key.as_slice());
        },
        Request::Del { key } => {
            out.push(OPERATION_DEL);
            out.push(key.len() as u8);
            append_bytes(&mut out, key.as_slice());
        },
        Request::Put { key, value } => {
            out.push(OPERATION_SET);
            out.push(key.len() as u8);
            append_bytes(&mut out, key.as_slice());
            append_be32(&mut out, value.len() as u32);
            append_bytes(&mut out, value.as_slice());
        },
    }
    proof {
        assert(out@ =~= spec_encode_request(r@));
    }
    out
}

/// Frame a response.
pub fn encode_response(r: &Response) -> (out: Vec<u8>)
    requires
        valid_response(r@),
    ensures
        out@ == spec_encode_response(r@),
{
    let mut out: Vec<u8> = Vec::new();
    match r {
        Response::Okay => {
            out.push(OPERATION_OK);
        },
        Response::Quit => {
            out.push(OPERATION_QUIT);
        },
        Response::Ready { version } => {
            out.push(OPERATION_READY);
            out.push(version.major);
            out.push(version.minor);
            out.push(version.patch);
        },
        Response::Value { value } => {
            out.push(OPERATION_VALUE);
            append_be32(&mut out, value.len() as u32);
            append_bytes(&mut out, value.as_slice());
        },
        Response::Error { message } => {
            out.push(OPERATION_ERROR);
            append_be32(&mut out, message.len() as u32);
            append_bytes(&mut out, message.as_slice());
        },
    }
    proof {
        assert(out@ =~= spec_encode_response(r@));
    }
    out
}

/// Read a one-byte length and its content, starting at `at`.
fn parse_lp8(s: &[u8], at: usize) -> (r: Result<(Vec<u8>, usize), FrameError>)
    requires
        at <= s@.len(),
    ensures
        match r {
            Ok(p) => spec_parse_lp8(s@, at as int) == Ok::<_, FrameError>((p.0@, p.1 as int))
                && p.1 <= s@.len(),
            Err(e) => spec_parse_lp8(s@, at as int) == Err::<(Seq<u8>, int), _>(e),
        },
{
    if s.len() <= at {
        return Err(FrameError::Incomplete);
    }
    let l = s[at] as usize;
    if l == 0 {
        return Err(FrameError::ZeroLength);
    }
    if s.len() - (at + 1) < l {
        return Err(FrameError::Incomplete);
    }
    let out = slice_to_vec(slice_subrange(s, at + 1, at + 1 + l));
    Ok((out, at + 1 + l))
}

/// Read a four-byte big-endian length and its content, starting at `at`.
fn parse_lp32(s: &[u8], at: usize) -> (r: Result<(Vec<u8>, usize), FrameError>)
    requires
        at <= s@.len(),
    ensures
        match r {
            Ok(p) => spec_parse_lp32(s@, at as int) == Ok::<_, FrameError>((p.0@, p.1 as int))
                && p.1 <= s@.len(),
            Err(e) => spec_parse_lp32(s@, at as int) == Err::<(Seq<u8>, int), _>(e),
        },
{
    if s.len() - at < 4 {
        return Err(FrameError::Incomplete);
    }
    let n32 = ((s[at] as u32) << 24) | ((s[at + 1] as u32) << 16) | ((s[at + 2] as u32) << 8) | (
    s[at + 3] as u32);
    if n32 == 0 {
        return Err(FrameError::ZeroLength);
    }
    let l = n32 as usize;
    if s.len() - (at + 4) < l {
        return Err(FrameError::Incomplete);
    }
    let out = slice_to_vec(slice_subrange(s, at + 4, at + 4 + l));
    Ok((out, at + 4 + l))
}

/// Read the first request frame of `buf`, returning it with the count of
/// bytes it occupied.
pub fn parse_request(buf: &[u8]) -> (r: Result<(Request, usize), FrameError>)
    ensures
        match r {
            Ok(p) => spec_parse_request(buf@) == Ok::<_, FrameError>((p.0@, p.1 as int)),
            Err(e) => spec_parse_request(buf@) == Err::<(RequestView, int), _>(e),
        },
{
    if buf.len() < 1 {
        return Err(FrameError::Incomplete);
    }
    let op = buf[0];
    if op == OPERATION_NOP {
        Ok((Request::Nop, 1))
    } else if op == OPERATION_QUIT {
        Ok((Request::Quit, 1))
    } else if op == OPERATION_GET {
        match parse_lp8(buf, 1) {
            Ok((key, n)) => Ok((Request::Get { key }, n)),
            Err(e) => Err(e),
        }
    } else if op == OPERATION_DEL {
        match parse_lp8(buf, 1) {
            Ok((key, n)) => Ok((Request::Del { key }, n)),
            Err(e) => Err(e),
        }
    } else if op == OPERATION_SET {
        match parse_lp8(buf, 1) {
            Ok((key, n)) => match parse_lp32(buf, n) {
                Ok((value, n2)) => Ok((Request::Put { key, value }, n2)),
                Err(e) => Err(e),
            },
            Err(e) => Err(e),
        }
    } else {
        Err(FrameError::BadOpcode)
    }
}

/// Read the first response frame of `buf`, returning it with the count of
/// bytes it occupied.
pub fn parse_response(buf: &[u8]) -> (r: Result<(Response, usize), FrameError>)
    ensures
        match r {
            Ok(p) => spec_parse_response(buf@) == Ok::<_, FrameError>((p.0@, p.1 as int)),
            Err(e) => spec_parse_response(buf@) == Err::<(ResponseView, int), _>(e),
        },
{
    if buf.len() < 1 {
        return Err(FrameError::Incomplete);
    }
    let op = buf[0];
    if op == OPERATION_OK {
        Ok((Response::Okay, 1))
    } else if op == OPERATION_QUIT {
        Ok((Response::Quit, 1))
    } else if op == OPERATION_READY {
        if buf.len() < 4 {
            Err(FrameError::Incomplete)
        } else {
            Ok((Response::Ready { version: Version::new(buf[1], buf[2], buf[3]) }, 4))
        }
    } else if op == OPERATION_VALUE {
        match parse_lp32(buf, 1) {
            Ok((value, n)) => Ok((Response::Value { value }, n)),
            Err(e) => Err(e),
        }
    } else if op == OPERATION_ERROR {
        match parse_lp32(buf, 1) {
            Ok((message, n)) => Ok((Response::Error { message }, n)),
            Err(e) => Err(e),
        }
    } else {
        Err(FrameError::BadOpcode)
    }
}

/// Round trip, request side: parsing a frame the codec assembled gives back
/// exactly the request it was assembled from, consuming the whole frame.
pub proof fn lemma_request_roundtrip(r: RequestView)
    requires
        valid_request(r),
    ensures
        spec_parse_request(spec_encode_request(r)) == Ok::<_, FrameError>(
            (r, spec_encode_request(r).len() as int),
        ),
{
    let s = spec_encode_request(r);
    match r {
        RequestView::Nop => {},
        RequestView::Quit => {},
        RequestView::Get { key } => {
            lemma_lp8_roundtrip(s, 1, key);
        },
        RequestView::Del { key } => {
            lemma_lp8_roundtrip(s, 1, key);
        },
        RequestView::Put { key, value } => {
            lemma_lp8_roundtrip(s, 1, key);
            lemma_be32_roundtrip(value.len() as u32);
            lemma_lp32_roundtrip(s, 2 + key.len() as int, value);
        },
    }
}

/// Round trip, response side.
pub proof fn lemma_response_roundtrip(r: ResponseView)
    requires
        valid_response(r),
    ensures
        spec_parse_response(spec_encode_response(r)) == Ok::<_, FrameError>(
            (r, spec_encode_response(r).len() as int),
        ),
{
    let s = spec_encode_response(r);
    match r {
        ResponseView::Okay => {},
        ResponseView::Quit => {},
        ResponseView::Ready { version } => {},
        ResponseView::Value { value } => {
            lemma_be32_roundtrip(value.len() as u32);
            lemma_lp32_roundtrip(s, 1, value);
        },
        ResponseView::Error { message } => {
            lemma_be32_roundtrip(message.len() as u32);
            lemma_lp32_roundtrip(s, 1, message);
        },
    }
}

/// A buffer that carries `k.len()` and then `k` at `at` parses back to `k`.
proof fn lemma_lp8_roundtrip(s: Seq<u8>, at: int, k: Seq<u8>)
    requires
        valid_key(k),
        0 <= at,
        s.len() >= at + 1 + k.len(),
        s[at] == k.len() as u8,
        forall|i: int| 0 <= i < k.len() ==> s[at + 1 + i] == #[trigger] k[i],
    ensures
        spec_parse_lp8(s, at) == Ok::<_, FrameError>((k, at + 1 + k.len() as int)),
{
    assert(s.subrange(at + 1, at + 1 + k.len() as u8 as int) =~= k);
}

/// A buffer that carries the four length bytes of `v` and then `v` at `at`
/// parses back to `v`, when nothing follows it.
proof fn lemma_lp32_roundtrip(s: Seq<u8>, at: int, v: Seq<u8>)
    requires
        valid_payload(v),
        0 <= at,
        s.len() == at + 4 + v.len(),
        s[at] == (v.len() as u32 >> 24) as u8,
        s[at + 1] == ((v.len() as u32 >> 16) & 0xff) as u8,
        s[at + 2] == ((v.len() as u32 >> 8) & 0xff) as u8,
        s[at + 3] == (v.len() as u32 & 0xff) as u8,
        forall|i: int| 0 <= i < v.len() ==> s[at + 4 + i] == #[trigger] v[i],
    ensures
        spec_parse_lp32(s, at) == Ok::<_, FrameError>((v, at + 4 + v.len() as int)),
{
    lemma_be32_roundtrip(v.len() as u32);
    assert(from_be32(s[at], s[at + 1], s[at + 2], s[at + 3]) == v.len() as u32);
    assert(s.subrange(at + 4, at + 4 + (v.len() as u32) as int) =~= v);
}

/// How the opening exchange ended.
#[derive(Clone, Copy, Debug, PartialEq, Eq, Structural)]
pub enum HandshakeOutcome {
    /// The client's version is acceptable; serve it.
    Accepted { version: Version },
    /// The four-byte frame does not open with the hello opcode.
    NotHello,
    /// The client is newer than the server: reject it.
    TooNew,
}

/// Judge the four-byte frame a client opens with: it must carry the hello
/// opcode and a version at or below the server's.
pub fn check_handshake(server: &Version, hello: &[u8]) -> (r: HandshakeOutcome)
    requires
        hello@.len() == 4,
    ensures
        hello@[0] != OPERATION_HELLO ==> r == HandshakeOutcome::NotHello,
        hello@[0] == OPERATION_HELLO && !version_le(
            (hello@[1], hello@[2], hello@[3]),
            server@,
        ) ==> r == HandshakeOutcome::TooNew,
        hello@[0] == OPERATION_HELLO && version_le((hello@[1], hello@[2], hello@[3]), server@)
            ==> (r matches HandshakeOutcome::Accepted { version } && version@ == (
        hello@[1],
        hello@[2],
        hello@[3],
        )),
{
    if hello[0] != OPERATION_HELLO {
        return HandshakeOutcome::NotHello;
    }
    let client = Version::new(hello[1], hello[2], hello[3]);
    if !client.le(server) {
        return HandshakeOutcome::TooNew;
    }
    HandshakeOutcome::Accepted { version: client }
}

/// The four bytes a client opens with for version `v`.
pub fn encode_hello(v: &Version) -> (r: Vec<u8>)
    ensures
        r@ == seq![OPERATION_HELLO, v@.0, v@.1, v@.2],
{
    let mut r: Vec<u8> = Vec::new();
    r.push(OPERATION_HELLO);
    r.push(v.major);
    r.push(v.minor);
    r.push(v.patch);
    proof {
        assert(r@ =~= seq![OPERATION_HELLO, v@.0, v@.1, v@.2]);
    }
    r
}

/// The faults a serving loop reports to its client.
#[derive(Clone, Copy, Debug, PartialEq, Eq, Structural)]
pub enum ServerError {
    /// A read or delete named a key neither cache nor store holds.
    KeyNotFound,
    /// The backing store is out of room.
    StorageFull,
    /// The client took too long to send a frame.
    TimedOut,
    /// An allocation failed.
    OutOfMemory,
    /// The frame opened with an unknown opcode.
    BadOpcode,
    /// A length field was zero where the grammar demands content.
    ZeroLength,
    /// The handshake did not open with the hello opcode.
    NotHello,
    /// The client's version is above the server's limit.
    VersionTooNew { limit: Version },
    /// A policy was handed an empty table.
    EmptyCache,
}

/// The decimal digits of a byte, no leading zeros.
pub open spec fn spec_dec_u8(n: u8) -> Seq<u8> {
    if n < 10 {
        seq![(48 + n) as u8]
    } else if n < 100 {
        seq![(48 + n / 10) as u8, (48 + n % 10) as u8]
    } else {
        seq![(48 + n / 100) as u8, (48 + (n / 10) % 10) as u8, (48 + n % 10) as u8]
    }
}

/// Append the decimal digits of `n` to `dst`.
fn append_dec_u8(dst: &mut Vec<u8>, n: u8)
    ensures
        final(dst)@ == old(dst)@ + spec_dec_u8(n),
{
    if n < 10 {
        dst.push(48 + n);
    } else if n < 100 {
        dst.push(48 + n / 10);
        dst.push(48 + n % 10);
    } else {
        dst.push(48 + n / 100);
        dst.push(48 + (n / 10) % 10);
        dst.push(48 + n % 10);
    }
    proof {
        assert(dst@ =~= old(dst)@ + spec_dec_u8(n));
    }
}

impl ServerError {
    /// The human-readable text this fault puts in an error frame.
    pub open spec fn spec_message(self) -> Seq<u8> {
        match self {
            ServerError::KeyNotFound => "key must exist".spec_bytes(),
            ServerError::StorageFull => "storage must have free space".spec_bytes(),
            ServerError::TimedOut => "packet must be sent in time".spec_bytes(),
            ServerError::OutOfMemory => "memory must have free space".spec_bytes(),
            ServerError::BadOpcode => "operation must be valid".spec_bytes(),
            ServerError::ZeroLength => "length must be greater than 0".spec_bytes(),
            ServerError::NotHello => "handshake must start with HELLO operation".spec_bytes(),
            ServerError::VersionTooNew { limit } => "client version must be less than or equal to ".spec_bytes()
                + spec_dec_u8(limit@.0) + seq![46u8] + spec_dec_u8(limit@.1) + seq![46u8]
                + spec_dec_u8(limit@.2),
            ServerError::EmptyCache => "entries length must be greater than 0".spec_bytes(),
        }
    }

    /// Render the fault's text.
    pub fn message(&self) -> (r: Vec<u8>)
        ensures
            r@ == self.spec_message(),
    {
        let mut r: Vec<u8> = Vec::new();
        match self {
            ServerError::KeyNotFound => append_bytes(&mut r, "key must exist".as_bytes()),
            ServerError::StorageFull => append_bytes(
                &mut r,
                "storage must have free space".as_bytes(),
            ),
            ServerError::TimedOut => append_bytes(&mut r, "packet must be sent in time".as_bytes()),
            ServerError::OutOfMemory => append_bytes(
                &mut r,
                "memory must have free space".as_bytes(),
            ),
            ServerError::BadOpcode => append_bytes(&mut r, "operation must be valid".as_bytes()),
            ServerError::ZeroLength => append_bytes(
                &mut r,
                "length must be greater than 0".as_bytes(),
            ),
            ServerError::NotHello => append_bytes(
                &mut r,
                "handshake must start with HELLO operation".as_bytes(),
            ),
            ServerError::VersionTooNew { limit } => {
                append_bytes(&mut r, "client version must be less than or equal to ".as_bytes());
                append_dec_u8(&mut r, limit.major);
                r.push(46);
                append_dec_u8(&mut r, limit.minor);
                r.push(46);
                append_dec_u8(&mut r, limit.patch);
            },
            ServerError::EmptyCache => append_bytes(
                &mut r,
                "entries length must be greater than 0".as_bytes(),
            ),
        }
        proof {
            assert(r@ =~= self.spec_message());
        }
        r
    }
}

/// After a cache miss on a read, turn the backing store's answer into what
/// the client is owed: a found value is promoted into the cache and handed
/// back, an absent key is a fault. Promotion under a scored policy on a full
/// table reports `NeedsScores`; finish it with [`Cache::set_scored`].
pub fn finish_get(cache: &mut Cache, key: &[u8], stored: Option<Vec<u8>>, now: u64) -> (r: Result<
    (Vec<u8>, SetOutcome),
    ServerError,
>)
    requires
        old(cache).wf(),
        1 <= key@.len() <= 255,
    ensures
        final(cache).wf(),
        final(cache).spec_capacity() == old(cache).spec_capacity(),
        final(cache).spec_model() == old(cache).spec_model(),
        match stored {
            Option::None => r == Err::<(Vec<u8>, SetOutcome), ServerError>(
                ServerError::KeyNotFound,
            ) && *final(cache) == *old(cache),
            Option::Some(v) => match r {
                Ok(p) => {
                    &&& p.0@ == v@
                    &&& (p.1 == SetOutcome::NeedsScores <==> (old(cache).spec_model()
                        == Model::DeepQNetwork && !has_key(old(cache)@, key@) && old(cache)@.len()
                        == old(cache).spec_capacity()))
                    &&& (p.1 == SetOutcome::Stored ==> final(cache)@ == stored_table(
                        old(cache)@,
                        old(cache).spec_capacity(),
                        old(cache).spec_model(),
                        key@,
                        EntryView { value: v@, accessed_at: now, access_count: 1 },
                    ))
                    &&& (p.1 == SetOutcome::NeedsScores ==> *final(cache) == *old(cache))
                },
                Err(_) => false,
            },
        },
{
    match stored {
        Option::Some(v) => {
            let copy = slice_to_vec(v.as_slice());
            let entry = Entry::new(v, now);
            let outcome = cache.set(key, entry);
            Ok((copy, outcome))
        },
        Option::None => Err(ServerError::KeyNotFound),
    }
}

/// The reply a delete is owed once the backing store has spoken: deleting an
/// absent key is a fault, anything else is plain agreement.
pub fn del_reply(existed: bool) -> (r: Result<(), ServerError>)
    ensures
        r == if existed {
            Ok::<(), ServerError>(())
        } else {
            Err::<(), ServerError>(ServerError::KeyNotFound)
        },
{
    if existed {
        Ok(())
    } else {
        Err(ServerError::KeyNotFound)
    }
}

} // verus!
