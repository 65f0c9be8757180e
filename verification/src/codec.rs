//! Wire codec: every message crosses the socket as a frame holding a
//! 2-byte big-endian payload length followed by exactly that many payload
//! bytes.  A payload is a tag byte followed by the message's string fields,
//! each written as a 2-byte big-endian byte length and the string's UTF-8
//! bytes.  The codec does no I/O: it turns messages into byte vectors and
//! byte buffers back into messages.

use vstd::prelude::*;
use vstd::utf8::*;
use vstd::string::*;

verus! {

/// Largest payload a frame can carry: the length prefix is a 16-bit integer.
pub const MAX_PAYLOAD: usize = 65535;

/// Payload tag of a request that stores a key/value pair.
pub const REQ_TAG_STORE: u8 = 0;

/// Payload tag of a request that fetches a key's value.
pub const REQ_TAG_FETCH: u8 = 1;

/// Payload tag of the response to a fetch whose key was absent.
pub const RES_TAG_NOT_FOUND: u8 = 0;

/// Payload tag of the response confirming a store.
pub const RES_TAG_SAVED: u8 = 1;

/// Payload tag of the response carrying a fetched value.
pub const RES_TAG_VALUE: u8 = 2;

/// Payload tag of the response reporting an undecodable request.
pub const RES_TAG_FAIL: u8 = 3;

/// A request sent from the client to the daemon.
#[derive(Debug, PartialEq, Eq)]
pub enum ReqMemMsg {
    StoreKeyVal(String, String),
    FetchKey(String),
}

/// A response sent from the daemon back to the client.
#[derive(Debug, PartialEq, Eq)]
pub enum ResMemMsg {
    KeyNotFound(String),
    KeySaved(String),
    KeyValue(String),
    FailToDes(String),
}

/// The mathematical content of a request: its string fields as
/// character sequences.
pub ghost enum ReqModel {
    StoreKeyVal(Seq<char>, Seq<char>),
    FetchKey(Seq<char>),
}

/// The mathematical content of a response.
pub ghost enum ResModel {
    KeyNotFound(Seq<char>),
    KeySaved(Seq<char>),
    KeyValue(Seq<char>),
    FailToDes(Seq<char>),
}

impl View for ReqMemMsg {
    type V = ReqModel;

    open spec fn view(&self) -> ReqModel {
        match self {
            ReqMemMsg::StoreKeyVal(k, v) => ReqModel::StoreKeyVal(k@, v@),
            ReqMemMsg::FetchKey(k) => ReqModel::FetchKey(k@),
        }
    }
}

impl View for ResMemMsg {
    type V = ResModel;

    open spec fn view(&self) -> ResModel {
        match self {
            ResMemMsg::KeyNotFound(s) => ResModel::KeyNotFound(s@),
            ResMemMsg::KeySaved(s) => ResModel::KeySaved(s@),
            ResMemMsg::KeyValue(s) => ResModel::KeyValue(s@),
            ResMemMsg::FailToDes(s) => ResModel::FailToDes(s@),
        }
    }
}

/// Encoding fails when the payload cannot be carried by a frame.
#[derive(Debug, PartialEq, Eq, Clone, Copy)]
pub enum EncodeError {
    PayloadTooLarge,
}

/// Decoding fails when the buffer is shorter than the declared frame, or
/// when a complete payload does not parse as a message.
#[derive(Debug, PartialEq, Eq, Clone, Copy)]
pub enum DecodeError {
    Incomplete,
    Malformed,
}

/// The two bytes of `n` written in big-endian order, for `0 <= n <= 65535`.
pub open spec fn be16_pair(n: int) -> Seq<u8> {
    seq![(n / 256) as u8, (n % 256) as u8]
}

/// The value read back from two big-endian bytes.
pub open spec fn be16_val(b0: u8, b1: u8) -> int {
    b0 * 256 + b1
}

/// A string field on the wire: byte length, then UTF-8 bytes.
pub open spec fn str_field(s: Seq<char>) -> Seq<u8> {
    be16_pair(encode_utf8(s).len() as int) + encode_utf8(s)
}

/// A payload holding a tag and one string field.
pub open spec fn tag1_payload(tag: u8, s: Seq<char>) -> Seq<u8> {
    seq![tag] + str_field(s)
}

/// A payload holding a tag and two string fields.
pub open spec fn tag2_payload(tag: u8, a: Seq<char>, b: Seq<char>) -> Seq<u8> {
    seq![tag] + str_field(a) + str_field(b)
}

/// The payload encoding a request.
pub open spec fn req_payload(m: ReqModel) -> Seq<u8> {
    match m {
        ReqModel::StoreKeyVal(k, v) => tag2_payload(REQ_TAG_STORE, k, v),
        ReqModel::FetchKey(k) => tag1_payload(REQ_TAG_FETCH, k),
    }
}

/// The payload encoding a response.
pub open spec fn res_payload(m: ResModel) -> Seq<u8> {
    match m {
        ResModel::KeyNotFound(s) => tag1_payload(RES_TAG_NOT_FOUND, s),
        ResModel::KeySaved(s) => tag1_payload(RES_TAG_SAVED, s),
        ResModel::KeyValue(s) => tag1_payload(RES_TAG_VALUE, s),
        ResModel::FailToDes(s) => tag1_payload(RES_TAG_FAIL, s),
    }
}

/// Whether a request's payload fits in one frame.
pub open spec fn req_fits(m: ReqModel) -> bool {
    req_payload(m).len() <= MAX_PAYLOAD as int
}

/// Whether a response's payload fits in one frame.
pub open spec fn res_fits(m: ResModel) -> bool {
    res_payload(m).len() <= MAX_PAYLOAD as int
}

/// A frame: the payload behind its big-endian length prefix.
pub open spec fn framed(payload: Seq<u8>) -> Seq<u8> {
    be16_pair(payload.len() as int) + payload
}

/// The payload length declared by a buffer's first two bytes.
pub open spec fn header_val(buf: Seq<u8>) -> int {
    be16_val(buf[0], buf[1])
}

/// Whether a buffer holds at least the whole frame its prefix declares.
pub open spec fn frame_complete(buf: Seq<u8>) -> bool {
    buf.len() >= 2 && buf.len() >= 2 + header_val(buf)
}

/// The payload carried by a complete buffer: exactly the declared bytes.
pub open spec fn frame_payload(buf: Seq<u8>) -> Seq<u8> {
    buf.subrange(2, 2 + header_val(buf))
}

fn push_be16(out: &mut Vec<u8>, n: u16)
    ensures
        final(out)@ == old(out)@ + be16_pair(n as int),
{
    out.push((n / 256) as u8);
    out.push((n % 256) as u8);
    proof {
        assert(out@ =~= old(out)@ + be16_pair(n as int));
    }
}

fn push_str_field(out: &mut Vec<u8>, b: &Vec<u8>)
    requires
        b@.len() <= MAX_PAYLOAD,
    ensures
        final(out)@ == old(out)@ + be16_pair(b@.len() as int) + b@,
{
    push_be16(out, b.len() as u16);
    out.extend_from_slice(b.as_slice());
    proof {
        assert(out@ =~= old(out)@ + be16_pair(b@.len() as int) + b@);
    }
}

fn build_frame(payload: Vec<u8>) -> (f: Vec<u8>)
    requires
        payload@.len() <= MAX_PAYLOAD,
    ensures
        f@ == framed(payload@),
{
    let mut f: Vec<u8> = Vec::new();
    push_be16(&mut f, payload.len() as u16);
    f.extend_from_slice(payload.as_slice());
    proof {
        assert(f@ =~= framed(payload@));
    }
    f
}

fn encode_tag1(tag: u8, s: &String) -> (r: Result<Vec<u8>, EncodeError>)
    ensures
        match r {
            Ok(f) => tag1_payload(tag, s@).len() <= MAX_PAYLOAD as int && f@ == framed(
                tag1_payload(tag, s@),
            ),
            Err(e) => tag1_payload(tag, s@).len() > MAX_PAYLOAD as int && e
                == EncodeError::PayloadTooLarge,
        },
{
    let b = s.as_str().as_bytes_vec();
    if b.len() > MAX_PAYLOAD - 3 {
        return Err(EncodeError::PayloadTooLarge);
    }
    let mut p: Vec<u8> = Vec::new();
    p.push(tag);
    push_str_field(&mut p, &b);
    proof {
        assert(p@ =~= tag1_payload(tag, s@));
    }
    Ok(build_frame(p))
}

fn encode_tag2(tag: u8, a: &String, b: &String) -> (r: Result<Vec<u8>, EncodeError>)
    ensures
        match r {
            Ok(f) => tag2_payload(tag, a@, b@).len() <= MAX_PAYLOAD as int && f@ == framed(
                tag2_payload(tag, a@, b@),
            ),
            Err(e) => tag2_payload(tag, a@, b@).len() > MAX_PAYLOAD as int && e
                == EncodeError::PayloadTooLarge,
        },
{
    let ab = a.as_str().as_bytes_vec();
    let bb = b.as_str().as_bytes_vec();
    if ab.len() > MAX_PAYLOAD - 5 {
        return Err(EncodeError::PayloadTooLarge);
    }
    if bb.len() > MAX_PAYLOAD - 5 - ab.len() {
        return Err(EncodeError::PayloadTooLarge);
    }
    let mut p: Vec<u8> = Vec::new();
    p.push(tag);
    push_str_field(&mut p, &ab);
    push_str_field(&mut p, &bb);
    proof {
        assert(p@ =~= tag2_payload(tag, a@, b@));
    }
    Ok(build_frame(p))
}

impl ReqMemMsg {
    /// Encode this request as one frame: length prefix plus tagged payload.
    /// Fails exactly when the payload would not fit in a frame.
    pub fn encode(&self) -> (r: Result<Vec<u8>, EncodeError>)
        ensures
            match r {
                Ok(f) => req_fits(self@) && f@ == framed(req_payload(self@)),
                Err(e) => !req_fits(self@) && e == EncodeError::PayloadTooLarge,
            },
    {
        match self {
            ReqMemMsg::StoreKeyVal(k, v) => encode_tag2(REQ_TAG_STORE, k, v),
            ReqMemMsg::FetchKey(k) => encode_tag1(REQ_TAG_FETCH, k),
        }
    }
}

impl ResMemMsg {
    /// Encode this response as one frame: length prefix plus tagged payload.
    /// Fails exactly when the payload would not fit in a frame.
    pub fn encode(&self) -> (r: Result<Vec<u8>, EncodeError>)
        ensures
            match r {
                Ok(f) => res_fits(self@) && f@ == framed(res_payload(self@)),
                Err(e) => !res_fits(self@) && e == EncodeError::PayloadTooLarge,
            },
    {
        match self {
            ResMemMsg::KeyNotFound(s) => encode_tag1(RES_TAG_NOT_FOUND, s),
            ResMemMsg::KeySaved(s) => encode_tag1(RES_TAG_SAVED, s),
            ResMemMsg::KeyValue(s) => encode_tag1(RES_TAG_VALUE, s),
            ResMemMsg::FailToDes(s) => encode_tag1(RES_TAG_FAIL, s),
        }
    }
}

/// UTF-8 encoding is injective: equal byte encodings come from equal
/// character sequences.
pub proof fn lemma_encode_utf8_injective(a: Seq<char>, b: Seq<char>)
    requires
        encode_utf8(a) == encode_utf8(b),
    ensures
        a == b,
{
    encode_utf8_decode_utf8(a);
    encode_utf8_decode_utf8(b);
}

/// The UTF-8 encoding of a character sequence takes at most four bytes
/// per character.
pub proof fn lemma_encode_utf8_len_bound(chars: Seq<char>)
    ensures
        encode_utf8(chars).len() <= 4 * chars.len(),
    decreases chars.len(),
{
    if chars.len() > 0 {
        lemma_encode_utf8_len_bound(chars.drop_first());
    }
}

/// A wire string field determines the string: the byte length in front
/// pins the encoding's extent, and the encoding pins the characters.
pub proof fn lemma_str_field_injective(a: Seq<char>, b: Seq<char>)
    requires
        str_field(a) == str_field(b),
    ensures
        a == b,
{
    assert(encode_utf8(a) =~= str_field(a).subrange(2, str_field(a).len() as int));
    assert(encode_utf8(b) =~= str_field(b).subrange(2, str_field(b).len() as int));
    lemma_encode_utf8_injective(a, b);
}

/// A well-formed frame is complete and carries exactly its payload, so
/// what `encode` built, `decode` accepts.
pub proof fn lemma_framed_payload(p: Seq<u8>)
    requires
        p.len() <= MAX_PAYLOAD as int,
    ensures
        frame_complete(framed(p)),
        frame_payload(framed(p)) == p,
{
    lemma_be16_reconstruct(p.len() as int);
    assert(framed(p)[0] == (p.len() as int / 256) as u8);
    assert(framed(p)[1] == (p.len() as int % 256) as u8);
    assert(frame_payload(framed(p)) =~= p);
}

proof fn lemma_be16_reconstruct(n: int)
    requires
        0 <= n <= 65535,
    ensures
        be16_val((n / 256) as u8, (n % 256) as u8) == n,
{
}

/// How a two-field payload decomposes around its first field's extent.
proof fn lemma_tag2_split(p: Seq<u8>, tag: u8, a: Seq<char>, b: Seq<char>)
    requires
        p == tag2_payload(tag, a, b),
    ensures
        p.len() == 5 + encode_utf8(a).len() + encode_utf8(b).len(),
        p[0] == tag,
        p.subrange(1, 3 + encode_utf8(a).len() as int) == str_field(a),
        p.subrange(3 + encode_utf8(a).len() as int, p.len() as int) == str_field(b),
{
    assert(p.subrange(1, 3 + encode_utf8(a).len() as int) =~= str_field(a));
    assert(p.subrange(3 + encode_utf8(a).len() as int, p.len() as int) =~= str_field(b));
}

/// How a one-field payload decomposes.
proof fn lemma_tag1_split(p: Seq<u8>, tag: u8, s: Seq<char>)
    requires
        p == tag1_payload(tag, s),
    ensures
        p.len() == 3 + encode_utf8(s).len(),
        p[0] == tag,
        p.subrange(1, p.len() as int) == str_field(s),
{
    assert(p.subrange(1, p.len() as int) =~= str_field(s));
}

/// Wherever a string field sits in a buffer, its two leading bytes hold
/// the byte length of its encoding.
proof fn lemma_field_len_determined(p: Seq<u8>, pos: int, t: Seq<char>)
    requires
        0 <= pos,
        pos + 2 + encode_utf8(t).len() <= p.len(),
        encode_utf8(t).len() <= 65535,
        p.subrange(pos, pos + 2 + encode_utf8(t).len() as int) == str_field(t),
    ensures
        be16_val(p[pos], p[pos + 1]) == encode_utf8(t).len(),
{
    let el = encode_utf8(t).len() as int;
    assert(p[pos] == str_field(t)[0]);
    assert(p[pos + 1] == str_field(t)[1]);
    lemma_be16_reconstruct(el);
}

/// Relies on `String::from_utf8`: it returns the string whose UTF-8
/// encoding is exactly the given bytes, and fails exactly on byte
/// sequences that are not valid UTF-8.
#[verifier::external_body]
fn string_from_utf8(bytes: Vec<u8>) -> (r: Option<String>)
    ensures
        match r {
            Some(s) => encode_utf8(s@) == bytes@,
            None => !valid_utf8(bytes@),
        },
{
    String::from_utf8(bytes).ok()
}

/// Read one string field at `pos`: two length bytes, then that many
/// UTF-8 bytes.  On success, returns the string and the position just
/// past the field.  On failure, no string field can sit at `pos`.
fn read_str_field(p: &Vec<u8>, pos: usize) -> (r: Result<(String, usize), DecodeError>)
    requires
        pos <= p@.len(),
        p@.len() <= MAX_PAYLOAD,
    ensures
        match r {
            Ok(res) => pos + 2 + encode_utf8(res.0@).len() == res.1 && res.1 <= p@.len()
                && p@.subrange(pos as int, res.1 as int) == str_field(res.0@),
            Err(e) => e == DecodeError::Malformed && (forall|t: Seq<char>|
                pos + 2 + encode_utf8(t).len() <= p@.len() ==> p@.subrange(
                    pos as int,
                    pos + 2 + encode_utf8(t).len() as int,
                ) != #[trigger] str_field(t)),
        },
{
    if p.len() - pos < 2 {
        return Err(DecodeError::Malformed);
    }
    let n: usize = (p[pos] as usize) * 256 + (p[pos + 1] as usize);
    if n > p.len() - (pos + 2) {
        proof {
            assert forall|t: Seq<char>|
                pos + 2 + encode_utf8(t).len() <= p@.len() implies p@.subrange(
                pos as int,
                pos + 2 + encode_utf8(t).len() as int,
            ) != #[trigger] str_field(t) by {
                if p@.subrange(pos as int, pos + 2 + encode_utf8(t).len() as int) == str_field(t) {
                    lemma_field_len_determined(p@, pos as int, t);
                }
            }
        }
        return Err(DecodeError::Malformed);
    }
    let end = pos + 2 + n;
    let mut data: Vec<u8> = Vec::new();
    let mut i = pos + 2;
    while i < end
        invariant
            pos + 2 <= i <= end,
            end <= p@.len(),
            data@ == p@.subrange(pos + 2, i as int),
        decreases end - i,
    {
        data.push(p[i]);
        i = i + 1;
        proof {
            assert(data@ =~= p@.subrange(pos + 2, i as int));
        }
    }
    match string_from_utf8(data) {
        Some(s) => {
            proof {
                assert((n as int / 256) as u8 == p@[pos as int]) by {
                    lemma_be16_reconstruct(n as int);
                };
                assert((n as int % 256) as u8 == p@[pos as int + 1]);
                assert(p@.subrange(pos as int, end as int) =~= str_field(s@));
            }
            Ok((s, end))
        },
        None => {
            proof {
                assert forall|t: Seq<char>|
                    pos + 2 + encode_utf8(t).len() <= p@.len() implies p@.subrange(
                    pos as int,
                    pos + 2 + encode_utf8(t).len() as int,
                ) != #[trigger] str_field(t) by {
                    if p@.subrange(pos as int, pos + 2 + encode_utf8(t).len() as int) == str_field(
                        t,
                    ) {
                        lemma_field_len_determined(p@, pos as int, t);
                        let el = encode_utf8(t).len() as int;
                        assert(el == n);
                        assert forall|j: int| 0 <= j < el implies encode_utf8(t)[j] == p@[pos + 2
                            + j] by {
                            assert(str_field(t)[j + 2] == encode_utf8(t)[j]);
                            assert(p@.subrange(pos as int, pos + 2 + el)[j + 2] == p@[pos + 2 + j]);
                        }
                        assert(encode_utf8(t) =~= p@.subrange(pos + 2, end as int));
                        encode_utf8_valid_utf8(t);
                    }
                }
            }
            Err(DecodeError::Malformed)
        },
    }
}

/// The tag and string field of a response, whichever variant it is.
pub open spec fn res_parts(m: ResModel) -> (u8, Seq<char>) {
    match m {
        ResModel::KeyNotFound(s) => (RES_TAG_NOT_FOUND, s),
        ResModel::KeySaved(s) => (RES_TAG_SAVED, s),
        ResModel::KeyValue(s) => (RES_TAG_VALUE, s),
        ResModel::FailToDes(s) => (RES_TAG_FAIL, s),
    }
}

/// The response variant a tag and string field stand for.
pub open spec fn res_from_parts(tag: u8, s: Seq<char>) -> ResModel {
    if tag == RES_TAG_NOT_FOUND {
        ResModel::KeyNotFound(s)
    } else if tag == RES_TAG_SAVED {
        ResModel::KeySaved(s)
    } else if tag == RES_TAG_VALUE {
        ResModel::KeyValue(s)
    } else {
        ResModel::FailToDes(s)
    }
}

proof fn lemma_res_parts_roundtrip(m: ResModel)
    ensures
        res_payload(m) == tag1_payload(res_parts(m).0, res_parts(m).1),
        res_parts(m).0 <= RES_TAG_FAIL,
        res_from_parts(res_parts(m).0, res_parts(m).1) == m,
{
}

/// Round trip for requests: two representable requests with equal
/// payload encodings carry the same fields, so a request's frame decodes
/// back to that request alone (see the final clause of `ReqMemMsg::decode`).
pub proof fn lemma_req_payload_injective(a: ReqModel, b: ReqModel)
    requires
        req_fits(a),
        req_fits(b),
        req_payload(a) == req_payload(b),
    ensures
        a == b,
{
    let p = req_payload(a);
    match (a, b) {
        (ReqModel::StoreKeyVal(k1, v1), ReqModel::StoreKeyVal(k2, v2)) => {
            lemma_tag2_split(p, REQ_TAG_STORE, k1, v1);
            lemma_tag2_split(p, REQ_TAG_STORE, k2, v2);
            lemma_field_len_determined(p, 1, k1);
            lemma_field_len_determined(p, 1, k2);
            assert(encode_utf8(k1).len() == encode_utf8(k2).len());
            lemma_str_field_injective(k1, k2);
            lemma_str_field_injective(v1, v2);
        },
        (ReqModel::FetchKey(k1), ReqModel::FetchKey(k2)) => {
            lemma_tag1_split(p, REQ_TAG_FETCH, k1);
            lemma_tag1_split(p, REQ_TAG_FETCH, k2);
            assert(encode_utf8(k1).len() == encode_utf8(k2).len());
            lemma_str_field_injective(k1, k2);
        },
        (ReqModel::StoreKeyVal(k1, v1), ReqModel::FetchKey(k2)) => {
            lemma_tag2_split(p, REQ_TAG_STORE, k1, v1);
            lemma_tag1_split(p, REQ_TAG_FETCH, k2);
        },
        (ReqModel::FetchKey(k1), ReqModel::StoreKeyVal(k2, v2)) => {
            lemma_tag1_split(p, REQ_TAG_FETCH, k1);
            lemma_tag2_split(p, REQ_TAG_STORE, k2, v2);
        },
    }
}

/// Round trip for responses: two representable responses with equal
/// payload encodings are the same message, so a response's frame decodes
/// back to that response alone (see the final clause of `ResMemMsg::decode`).
pub proof fn lemma_res_payload_injective(a: ResModel, b: ResModel)
    requires
        res_fits(a),
        res_fits(b),
        res_payload(a) == res_payload(b),
    ensures
        a == b,
{
    let p = res_payload(a);
    lemma_res_parts_roundtrip(a);
    lemma_res_parts_roundtrip(b);
    lemma_tag1_split(p, res_parts(a).0, res_parts(a).1);
    lemma_tag1_split(p, res_parts(b).0, res_parts(b).1);
    assert(res_parts(a).0 == res_parts(b).0);
    assert(encode_utf8(res_parts(a).1).len() == encode_utf8(res_parts(b).1).len());
    lemma_str_field_injective(res_parts(a).1, res_parts(b).1);
}

/// Read the frame's payload off the front of the buffer: the declared
/// number of bytes, once that many are present.
fn take_frame_payload(buffer: &[u8]) -> (r: Result<Vec<u8>, DecodeError>)
    ensures
        match r {
            Ok(p) => frame_complete(buffer@) && p@ == frame_payload(buffer@) && p@.len()
                <= MAX_PAYLOAD,
            Err(e) => e == DecodeError::Incomplete && !frame_complete(buffer@),
        },
{
    let blen = buffer.len();
    if blen < 2 {
        return Err(DecodeError::Incomplete);
    }
    let l: usize = (buffer[0] as usize) * 256 + (buffer[1] as usize);
    proof {
        assert(l == header_val(buffer@));
    }
    if blen - 2 < l {
        return Err(DecodeError::Incomplete);
    }
    let mut p: Vec<u8> = Vec::new();
    let mut i: usize = 2;
    while i < 2 + l
        invariant
            2 <= i <= 2 + l,
            2 + l <= buffer@.len(),
            l == header_val(buffer@),
            p@ == buffer@.subrange(2, i as int),
        decreases 2 + l - i,
    {
        p.push(buffer[i]);
        i = i + 1;
        proof {
            assert(p@ =~= buffer@.subrange(2, i as int));
        }
    }
    Ok(p)
}

/// Parse a tag-plus-one-string payload, whatever its tag byte is.
fn parse_rest_field(p: &Vec<u8>) -> (r: Result<String, DecodeError>)
    requires
        1 <= p@.len() <= MAX_PAYLOAD,
    ensures
        match r {
            Ok(s) => p@ == tag1_payload(p@[0], s@),
            Err(e) => e == DecodeError::Malformed && (forall|t: Seq<char>| p@
                != #[trigger] tag1_payload(p@[0], t)),
        },
{
    match read_str_field(p, 1) {
        Ok((s, end)) => {
            if end == p.len() {
                proof {
                    assert(p@ =~= tag1_payload(p@[0], s@));
                }
                Ok(s)
            } else {
                proof {
                    assert forall|t: Seq<char>| p@ != #[trigger] tag1_payload(p@[0], t) by {
                        if p@ == tag1_payload(p@[0], t) {
                            lemma_tag1_split(p@, p@[0], t);
                            lemma_field_len_determined(p@, 1, t);
                            lemma_field_len_determined(p@, 1, s@);
                        }
                    }
                }
                Err(DecodeError::Malformed)
            }
        },
        Err(_) => {
            proof {
                assert forall|t: Seq<char>| p@ != #[trigger] tag1_payload(p@[0], t) by {
                    if p@ == tag1_payload(p@[0], t) {
                        lemma_tag1_split(p@, p@[0], t);
                        assert(1 + 2 + encode_utf8(t).len() <= p@.len());
                        assert(p@.subrange(1, 3 + encode_utf8(t).len() as int) == str_field(t));
                    }
                }
            }
            Err(DecodeError::Malformed)
        },
    }
}

fn parse_req_payload(p: &Vec<u8>) -> (r: Result<ReqMemMsg, DecodeError>)
    requires
        p@.len() <= MAX_PAYLOAD,
    ensures
        match r {
            Ok(m) => p@ == req_payload(m@) && req_fits(m@),
            Err(e) => e == DecodeError::Malformed && (forall|m: ReqModel| p@
                != #[trigger] req_payload(m)),
        },
{
    if p.len() == 0 {
        proof {
            assert forall|m: ReqModel| p@ != #[trigger] req_payload(m) by {
                match m {
                    ReqModel::StoreKeyVal(mk, mv) => assert(req_payload(m).len() >= 5),
                    ReqModel::FetchKey(mk) => assert(req_payload(m).len() >= 3),
                }
            }
        }
        return Err(DecodeError::Malformed);
    }
    let tag = p[0];
    if tag == REQ_TAG_STORE {
        match read_str_field(p, 1) {
            Ok((k, end1)) => {
                match read_str_field(p, end1) {
                    Ok((v, end2)) => {
                        if end2 == p.len() {
                            proof {
                                assert(p@ =~= tag2_payload(REQ_TAG_STORE, k@, v@));
                            }
                            Ok(ReqMemMsg::StoreKeyVal(k, v))
                        } else {
                            proof {
                                assert forall|m: ReqModel| p@ != #[trigger] req_payload(m) by {
                                    if p@ == req_payload(m) {
                                        match m {
                                            ReqModel::StoreKeyVal(mk, mv) => {
                                                lemma_tag2_split(p@, REQ_TAG_STORE, mk, mv);
                                                lemma_field_len_determined(p@, 1, mk);
                                                lemma_field_len_determined(p@, 1, k@);
                                                assert(end1 == 3 + encode_utf8(mk).len());
                                                lemma_field_len_determined(p@, end1 as int, mv);
                                                lemma_field_len_determined(p@, end1 as int, v@);
                                                assert(end2 == p@.len());
                                            },
                                            ReqModel::FetchKey(mk) => {
                                                lemma_tag1_split(p@, REQ_TAG_FETCH, mk);
                                            },
                                        }
                                    }
                                }
                            }
                            Err(DecodeError::Malformed)
                        }
                    },
                    Err(_) => {
                        proof {
                            assert forall|m: ReqModel| p@ != #[trigger] req_payload(m) by {
                                if p@ == req_payload(m) {
                                    match m {
                                        ReqModel::StoreKeyVal(mk, mv) => {
                                            lemma_tag2_split(p@, REQ_TAG_STORE, mk, mv);
                                            lemma_field_len_determined(p@, 1, mk);
                                            lemma_field_len_determined(p@, 1, k@);
                                            assert(end1 == 3 + encode_utf8(mk).len());
                                            assert(end1 + 2 + encode_utf8(mv).len() <= p@.len());
                                            assert(p@.subrange(
                                                end1 as int,
                                                end1 + 2 + encode_utf8(mv).len() as int,
                                            ) == str_field(mv));
                                        },
                                        ReqModel::FetchKey(mk) => {
                                            lemma_tag1_split(p@, REQ_TAG_FETCH, mk);
                                        },
                                    }
                                }
                            }
                        }
                        Err(DecodeError::Malformed)
                    },
                }
            },
            Err(_) => {
                proof {
                    assert forall|m: ReqModel| p@ != #[trigger] req_payload(m) by {
                        if p@ == req_payload(m) {
                            match m {
                                ReqModel::StoreKeyVal(mk, mv) => {
                                    lemma_tag2_split(p@, REQ_TAG_STORE, mk, mv);
                                    assert(1 + 2 + encode_utf8(mk).len() <= p@.len());
                                    assert(p@.subrange(1, 3 + encode_utf8(mk).len() as int)
                                        == str_field(mk));
                                },
                                ReqModel::FetchKey(mk) => {
                                    lemma_tag1_split(p@, REQ_TAG_FETCH, mk);
                                },
                            }
                        }
                    }
                }
                Err(DecodeError::Malformed)
            },
        }
    } else if tag == REQ_TAG_FETCH {
        match parse_rest_field(p) {
            Ok(k) => {
                proof {
                    assert(p@ == tag1_payload(REQ_TAG_FETCH, k@));
                }
                Ok(ReqMemMsg::FetchKey(k))
            },
            Err(_) => {
                proof {
                    assert forall|m: ReqModel| p@ != #[trigger] req_payload(m) by {
                        if p@ == req_payload(m) {
                            match m {
                                ReqModel::StoreKeyVal(mk, mv) => {
                                    lemma_tag2_split(p@, REQ_TAG_STORE, mk, mv);
                                },
                                ReqModel::FetchKey(mk) => {
                                    lemma_tag1_split(p@, REQ_TAG_FETCH, mk);
                                    assert(p@ == tag1_payload(p@[0], mk));
                                },
                            }
                        }
                    }
                }
                Err(DecodeError::Malformed)
            },
        }
    } else {
        proof {
            assert forall|m: ReqModel| p@ != #[trigger] req_payload(m) by {
                if p@ == req_payload(m) {
                    match m {
                        ReqModel::StoreKeyVal(mk, mv) => {
                            lemma_tag2_split(p@, REQ_TAG_STORE, mk, mv);
                        },
                        ReqModel::FetchKey(mk) => {
                            lemma_tag1_split(p@, REQ_TAG_FETCH, mk);
                        },
                    }
                }
            }
        }
        Err(DecodeError::Malformed)
    }
}

fn parse_res_payload(p: &Vec<u8>) -> (r: Result<ResMemMsg, DecodeError>)
    requires
        p@.len() <= MAX_PAYLOAD,
    ensures
        match r {
            Ok(m) => p@ == res_payload(m@) && res_fits(m@),
            Err(e) => e == DecodeError::Malformed && (forall|m: ResModel| p@
                != #[trigger] res_payload(m)),
        },
{
    if p.len() == 0 {
        proof {
            assert forall|m: ResModel| p@ != #[trigger] res_payload(m) by {
                lemma_res_parts_roundtrip(m);
            }
        }
        return Err(DecodeError::Malformed);
    }
    let tag = p[0];
    if tag > RES_TAG_FAIL {
        proof {
            assert forall|m: ResModel| p@ != #[trigger] res_payload(m) by {
                if p@ == res_payload(m) {
                    lemma_res_parts_roundtrip(m);
                    lemma_tag1_split(p@, res_parts(m).0, res_parts(m).1);
                }
            }
        }
        return Err(DecodeError::Malformed);
    }
    match parse_rest_field(p) {
        Ok(s) => {
            let ghost sv = s@;
            let m = if tag == RES_TAG_NOT_FOUND {
                ResMemMsg::KeyNotFound(s)
            } else if tag == RES_TAG_SAVED {
                ResMemMsg::KeySaved(s)
            } else if tag == RES_TAG_VALUE {
                ResMemMsg::KeyValue(s)
            } else {
                ResMemMsg::FailToDes(s)
            };
            proof {
                assert(m@ == res_from_parts(tag, sv));
                lemma_res_parts_roundtrip(m@);
            }
            Ok(m)
        },
        Err(_) => {
            proof {
                assert forall|m: ResModel| p@ != #[trigger] res_payload(m) by {
                    if p@ == res_payload(m) {
                        lemma_res_parts_roundtrip(m);
                        lemma_tag1_split(p@, res_parts(m).0, res_parts(m).1);
                        assert(p@ == tag1_payload(p@[0], res_parts(m).1));
                    }
                }
            }
            Err(DecodeError::Malformed)
        },
    }
}

impl ReqMemMsg {
    /// Decode one request frame from the front of `buffer`: read the
    /// 2-byte big-endian payload length, then parse exactly that many
    /// payload bytes.  Bytes after the frame are ignored.  The final
    /// clause is the round trip: a buffer carrying the frame of a
    /// request decodes to exactly that request.
    pub fn decode(buffer: &[u8]) -> (r: Result<ReqMemMsg, DecodeError>)
        ensures
            match r {
                Ok(m) => frame_complete(buffer@) && frame_payload(buffer@) == req_payload(m@)
                    && req_fits(m@),
                Err(DecodeError::Incomplete) => !frame_complete(buffer@),
                Err(DecodeError::Malformed) => frame_complete(buffer@) && (forall|m: ReqModel|
                    frame_payload(buffer@) != #[trigger] req_payload(m)),
            },
            forall|m: ReqModel|
                frame_complete(buffer@) && frame_payload(buffer@) == #[trigger] req_payload(m)
                    ==> (r matches Ok(d) && d@ == m),
    {
        let payload = match take_frame_payload(buffer) {
            Ok(p) => p,
            Err(e) => {
                return Err(e);
            },
        };
        let r = parse_req_payload(&payload);
        proof {
            match &r {
                Ok(d) => {
                    assert forall|m: ReqModel|
                        frame_complete(buffer@) && frame_payload(buffer@)
                            == #[trigger] req_payload(m) implies (r matches Ok(dd) && dd@
                        == m) by {
                        lemma_req_payload_injective(d@, m);
                    }
                },
                Err(_) => {},
            }
        }
        r
    }
}

impl ResMemMsg {
    /// Decode one response frame from the front of `buffer`, as
    /// `ReqMemMsg::decode` does for requests; the final clause again
    /// states the round trip.
    pub fn decode(buffer: &[u8]) -> (r: Result<ResMemMsg, DecodeError>)
        ensures
            match r {
                Ok(m) => frame_complete(buffer@) && frame_payload(buffer@) == res_payload(m@)
                    && res_fits(m@),
                Err(DecodeError::Incomplete) => !frame_complete(buffer@),
                Err(DecodeError::Malformed) => frame_complete(buffer@) && (forall|m: ResModel|
                    frame_payload(buffer@) != #[trigger] res_payload(m)),
            },
            forall|m: ResModel|
                frame_complete(buffer@) && frame_payload(buffer@) == #[trigger] res_payload(m)
                    ==> (r matches Ok(d) && d@ == m),
    {
        let payload = match take_frame_payload(buffer) {
            Ok(p) => p,
            Err(e) => {
                return Err(e);
            },
        };
        let r = parse_res_payload(&payload);
        proof {
            match &r {
                Ok(d) => {
                    assert forall|m: ResModel|
                        frame_complete(buffer@) && frame_payload(buffer@)
                            == #[trigger] res_payload(m) implies (r matches Ok(dd) && dd@
                        == m) by {
                        lemma_res_payload_injective(d@, m);
                    }
                },
                Err(_) => {},
            }
        }
        r
    }
}

/// How many bytes the frame starting at this buffer occupies, once the
/// two header bytes are present: the length prefix plus the declared
/// payload length.  A reader keeps reading until it holds this many bytes.
pub fn frame_size(buffer: &[u8]) -> (r: Option<usize>)
    ensures
        match r {
            Some(n) => buffer@.len() >= 2 && n == 2 + header_val(buffer@),
            None => buffer@.len() < 2,
        },
{
    if buffer.len() < 2 {
        None
    } else {
        Some(2 + (buffer[0] as usize) * 256 + (buffer[1] as usize))
    }
}

} // verus!
