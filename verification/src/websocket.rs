//! The WebSocket side of the chat server: the opening handshake
//! (`Sec-WebSocket-Accept`), and the framing of text messages.
use crate::text::{
    chars_of,
    contains,
    lemma_split_join,
    lemma_trim_unchanged,
    lemma_trimmed_ends,
    spec_is_whitespace,
    spec_trim_end,
    spec_trim_start,
    spec_contains,
    spec_split,
    spec_trim,
    split,
    string_of,
    trim,
    views,
};
use base64::Engine;
use sha1::Digest;
use vstd::prelude::*;

verus! {

/// The SHA-1 digest of `data`.
pub uninterp spec fn sha1_digest_of(data: Seq<u8>) -> Seq<u8>;

/// The SHA-1 digest of `data`.
///
/// Calls `sha1::Sha1::digest` (the `Digest` trait of the `digest` crate:
/// a fresh hasher, one `update` with `data`, `finalize`). The contract names
/// the digest `sha1_digest_of(data)` and states only that it has 20 bytes,
/// the output size that the crate declares (`U20`); the bytes themselves
/// are not described.
#[verifier::external_body]
fn sha1_digest(data: &[u8]) -> (r: Vec<u8>)
    ensures
        r@ == sha1_digest_of(data@),
        r@.len() == 20,
{
    sha1::Sha1::digest(data).to_vec()
}

/// The character of the standard base64 alphabet (RFC 4648) for the
/// six-bit value `v`.
pub open spec fn base64_char(v: int) -> char {
    if v < 26 {
        ((65 + v) as u8) as char
    } else if v < 52 {
        ((97 + v - 26) as u8) as char
    } else if v < 62 {
        ((48 + v - 52) as u8) as char
    } else if v == 62 {
        '+'
    } else {
        '/'
    }
}

/// The standard base64 encoding (RFC 4648, alphabet `A-Za-z0-9+/`, padded
/// with `=`) of `data`: every three bytes become four characters, and a
/// final one or two bytes become four characters ending in `==` or `=`.
pub open spec fn spec_base64(data: Seq<u8>) -> Seq<char>
    decreases data.len(),
{
    if data.len() == 0 {
        seq![]
    } else if data.len() == 1 {
        let a = data[0] as int;
        seq![base64_char(a / 4), base64_char((a % 4) * 16), '=', '=']
    } else if data.len() == 2 {
        let a = data[0] as int;
        let b = data[1] as int;
        seq![base64_char(a / 4), base64_char((a % 4) * 16 + b / 16), base64_char((b % 16) * 4), '=']
    } else {
        let a = data[0] as int;
        let b = data[1] as int;
        let c = data[2] as int;
        seq![
            base64_char(a / 4),
            base64_char((a % 4) * 16 + b / 16),
            base64_char((b % 16) * 4 + c / 64),
            base64_char(c % 64),
        ] + spec_base64(data.skip(3))
    }
}

/// The standard base64 encoding of `data`, with padding.
///
/// Calls `base64::engine::general_purpose::STANDARD.encode`, which the
/// crate documents as the RFC 4648 standard alphabet with padding. The
/// length bound keeps the crate's computation of the output length from
/// overflowing, where it panics.
#[verifier::external_body]
fn base64_encode(data: &[u8]) -> (r: String)
    requires
        data@.len() <= 3 * ((usize::MAX - 4) / 4),
    ensures
        r@ == spec_base64(data@),
{
    base64::engine::general_purpose::STANDARD.encode(data)
}

/// The base64 encoding of a byte string has four characters for every
/// started group of three bytes.
pub proof fn lemma_base64_len(data: Seq<u8>)
    ensures
        spec_base64(data).len() == 4 * ((data.len() + 2) / 3),
    decreases data.len(),
{
    if data.len() > 2 {
        lemma_base64_len(data.skip(3));
    }
}

/// The base64 encoding of a byte string whose length is not a multiple of
/// three ends with the padding character `=`.
pub proof fn lemma_base64_padded(data: Seq<u8>)
    requires
        data.len() % 3 != 0,
    ensures
        spec_base64(data).len() > 0,
        spec_base64(data).last() == '=',
    decreases data.len(),
{
    if data.len() > 2 {
        let rest = data.skip(3);
        lemma_base64_padded(rest);
        let head = spec_base64(data).take(4);
        assert(spec_base64(data) == head + spec_base64(rest));
    }
}

/// The GUID that RFC 6455 appends to the client's key.
pub open spec fn websocket_guid() -> Seq<char> {
    "258EAFA5-E914-47DA-95CA-C5AB0DC85B11"@
}

/// The lines of a request: the trimmed text split at each `\r\n`.
pub open spec fn request_lines(request: Seq<char>) -> Seq<Seq<char>> {
    spec_split(spec_trim(request), "\r\n"@)
}

/// The first of `lines` that contains `pat`.
pub open spec fn first_line_with(lines: Seq<Seq<char>>, pat: Seq<char>) -> Option<Seq<char>>
    decreases lines.len(),
{
    if lines.len() == 0 {
        None
    } else if spec_contains(lines[0], pat) {
        Some(lines[0])
    } else {
        first_line_with(lines.drop_first(), pat)
    }
}

/// The client's key in `request`: in the first line that mentions
/// `Sec-WebSocket-Key`, the piece after the first `": "` (up to the next one).
/// `None` where there is no such line, or where it holds no `": "`.
pub open spec fn spec_sec_key(request: Seq<char>) -> Option<Seq<char>> {
    match first_line_with(request_lines(request), "Sec-WebSocket-Key"@) {
        Some(line) => {
            let parts = spec_split(line, ": "@);
            if parts.len() > 1 {
                Some(parts[1])
            } else {
                None
            }
        },
        None => None,
    }
}

/// The `Sec-WebSocket-Accept` value for `request`: the base64 encoding of
/// the SHA-1 digest of the UTF-8 bytes of the key followed by the GUID, or
/// empty where the request carries no key.
pub open spec fn spec_accept(request: Seq<char>) -> Seq<char> {
    match spec_sec_key(request) {
        Some(key) => spec_base64(sha1_digest_of(vstd::utf8::encode_utf8(key + websocket_guid()))),
        None => seq![],
    }
}

/// Lines without `pat` appended after others change nothing of the first
/// line that contains it.
proof fn lemma_first_line_with_append(lines: Seq<Seq<char>>, more: Seq<Seq<char>>, pat: Seq<char>)
    requires
        forall|i: int| 0 <= i < more.len() ==> !spec_contains(#[trigger] more[i], pat),
    ensures
        first_line_with(lines + more, pat) == first_line_with(lines, pat),
    decreases lines.len() + more.len(),
{
    if lines.len() == 0 {
        assert(lines + more == more);
        if more.len() > 0 {
            assert(more.drop_first() == Seq::<Seq<char>>::empty() + more.drop_first());
            assert forall|i: int| 0 <= i < more.drop_first().len() implies !spec_contains(
                #[trigger] more.drop_first()[i],
                pat,
            ) by {
                assert(more.drop_first()[i] == more[i + 1]);
            }
            lemma_first_line_with_append(Seq::<Seq<char>>::empty(), more.drop_first(), pat);
        }
    } else {
        assert((lines + more)[0] == lines[0]);
        assert((lines + more).drop_first() == lines.drop_first() + more);
        lemma_first_line_with_append(lines.drop_first(), more, pat);
    }
}

/// Only the first line that mentions the key matters: adding, before or
/// after a trimmed request `r`, a trimmed non-empty line `l` that neither
/// mentions `Sec-WebSocket-Key` nor holds a line break leaves the accept
/// value as it is.
pub proof fn lemma_accept_ignores_other_lines(r: Seq<char>, l: Seq<char>)
    requires
        spec_trim(r) == r,
        l.len() > 0,
        spec_trim(l) == l,
        !spec_contains(l, "Sec-WebSocket-Key"@),
        !spec_contains(l, "\r\n"@),
    ensures
        spec_accept(r + "\r\n"@ + l) == spec_accept(r),
        spec_accept(l + "\r\n"@ + r) == spec_accept(r),
{
    reveal_strlit("\r\n");
    reveal_strlit("Sec-WebSocket-Key");
    let crlf = "\r\n"@;
    let key = "Sec-WebSocket-Key"@;
    assert(crlf == seq!['\r', '\n']);
    lemma_trimmed_ends(r);
    lemma_trimmed_ends(l);
    assert(spec_split(l, crlf) == seq![l]);
    assert(spec_trim_start(l) == l);
    assert(spec_trim_end(l) == l);
    let big1 = r + crlf + l;
    let big2 = l + crlf + r;
    if r.len() > 0 {
        assert(big1[0] == r[0]);
        assert(big1.last() == l.last());
        lemma_trim_unchanged(big1);
        assert(big2[0] == l[0]);
        assert(big2.last() == r.last());
        lemma_trim_unchanged(big2);
        lemma_split_join(r, l, crlf);
        lemma_split_join(l, r, crlf);
        assert(request_lines(big1) == request_lines(r) + seq![l]);
        lemma_first_line_with_append(request_lines(r), seq![l], key);
        let lines2 = request_lines(big2);
        assert(lines2 == seq![l] + request_lines(r));
        assert(lines2[0] == l);
        assert(lines2.drop_first() == request_lines(r));
    } else {
        assert(big1.drop_first().drop_first() == l);
        assert(big1[0] == '\r' && spec_is_whitespace(big1[0]));
        assert(big1.drop_first()[0] == '\n' && spec_is_whitespace(big1.drop_first()[0]));
        assert(spec_trim_start(big1) == spec_trim_start(big1.drop_first()));
        assert(spec_trim_start(big1.drop_first()) == spec_trim_start(l));
        assert(spec_trim_start(big1) == l);
        assert(spec_trim(big1) == l);
        assert(big2.drop_last().drop_last() == l);
        assert(spec_trim_start(big2) == big2);
        assert(big2.last() == '\n' && spec_is_whitespace(big2.last()));
        assert(big2.drop_last().last() == '\r' && spec_is_whitespace(big2.drop_last().last()));
        assert(spec_trim_end(big2) == spec_trim_end(big2.drop_last()));
        assert(spec_trim_end(big2.drop_last()) == spec_trim_end(l));
        assert(spec_trim_end(big2) == l);
        assert(spec_trim(big2) == l);
        assert(request_lines(big1) == seq![l]);
        assert(request_lines(big2) == seq![l]);
        assert(seq![l].drop_first() == Seq::<Seq<char>>::empty());
        assert(spec_trim(r) == Seq::<char>::empty());
        assert(spec_split(Seq::<char>::empty(), crlf) == seq![Seq::<char>::empty()]);
        assert(!spec_contains(Seq::<char>::empty(), key));
        assert(seq![Seq::<char>::empty()].drop_first() == Seq::<Seq<char>>::empty());
    }
}

/// The first of `lines` that contains `pat`.
fn find_line_with(lines: &Vec<Vec<char>>, pat: &Vec<char>) -> (r: Option<usize>)
    ensures
        r matches Some(i) ==> i < lines.len() && first_line_with(views(lines@), pat@) == Some(
            lines@[i as int]@,
        ),
        r is None ==> first_line_with(views(lines@), pat@) is None,
{
    let mut i: usize = 0;
    assert(views(lines@).skip(0) == views(lines@));
    while i < lines.len()
        invariant
            i <= lines.len(),
            first_line_with(views(lines@), pat@) == first_line_with(
                views(lines@).skip(i as int),
                pat@,
            ),
        decreases lines.len() - i,
    {
        assert(views(lines@).skip(i as int)[0] == lines@[i as int]@);
        if contains(&lines[i], pat) {
            return Some(i);
        }
        assert(views(lines@).skip(i as int).drop_first() == views(lines@).skip(i + 1));
        i = i + 1;
    }
    None
}

/// The bytes of `s`.
fn bytes_of(s: &String) -> (r: &[u8])
    ensures
        r@ == vstd::utf8::encode_utf8(s@),
{
    s.as_str().as_bytes()
}

/// The client's key in `request`, followed by the GUID.
fn key_with_guid(request: &str) -> (r: Option<String>)
    ensures
        r matches Some(k) ==> spec_sec_key(request@) matches Some(key) && k@ == key
            + websocket_guid(),
        r is None ==> spec_sec_key(request@) is None,
{
    let text = chars_of(request);
    let trimmed = trim(&text);
    let crlf = chars_of("\r\n");
    proof {
        reveal_strlit("\r\n");
    }
    let lines = split(&trimmed, &crlf);
    let name = chars_of("Sec-WebSocket-Key");
    match find_line_with(&lines, &name) {
        None => None,
        Some(i) => {
            let sep = chars_of(": ");
            proof {
                reveal_strlit(": ");
            }
            let parts = split(&lines[i], &sep);
            if parts.len() > 1 {
                assert(views(parts@)[1] == parts@[1]@);
                let mut key = string_of(&parts[1]);
                key.append("258EAFA5-E914-47DA-95CA-C5AB0DC85B11");
                Some(key)
            } else {
                None
            }
        },
    }
}

/// The base64 text of a SHA-1 digest, as the handshake answers it.
pub fn encode_accept(digest: &[u8]) -> (r: String)
    requires
        digest@.len() <= 20,
    ensures
        r@ == spec_base64(digest@),
{
    base64_encode(digest)
}

/// The `Sec-WebSocket-Accept` value that answers `request`, or the empty
/// string where the request carries no key.
pub fn get_sec_accept_encoded(request: &str) -> (r: String)
    ensures
        r@ == spec_accept(request@),
        spec_sec_key(request@) matches Some(key) ==> sha1_digest_of(
            vstd::utf8::encode_utf8(key + websocket_guid()),
        ).len() == 20 && r@.len() == 28 && r@.last() == '=',
{
    match key_with_guid(request) {
        Some(key) => {
            let digest = sha1_digest(bytes_of(&key));
            proof {
                lemma_base64_len(digest@);
                lemma_base64_padded(digest@);
            }
            encode_accept(digest.as_slice())
        },
        None => String::new(),
    }
}

/// The head of the handshake answer, up to the accept value.
pub open spec fn handshake_head() -> Seq<char> {
    "HTTP/1.1 101 Switching Protocols\r\nUpgrade: websocket\r\nConnection: Upgrade\r\nSec-WebSocket-Accept: "@
}

/// The answer that completes the opening handshake for `opening_request`.
pub fn handshake_response(opening_request: &str) -> (r: String)
    ensures
        r@ == handshake_head() + spec_accept(opening_request@) + "\r\n\r\n"@,
{
    let accept = get_sec_accept_encoded(opening_request);
    let mut response = String::from_str(
        "HTTP/1.1 101 Switching Protocols\r\nUpgrade: websocket\r\nConnection: Upgrade\r\nSec-WebSocket-Accept: ",
    );
    response.append(accept.as_str());
    response.append("\r\n\r\n");
    response
}

/// The trimmed request asks to switch to the WebSocket protocol: it
/// mentions `Sec-WebSocket-Key`, `Upgrade: websocket` and
/// `Connection: Upgrade`.
pub open spec fn spec_is_upgrade_request(request: Seq<char>) -> bool {
    let t = spec_trim(request);
    spec_contains(t, "Sec-WebSocket-Key"@) && spec_contains(t, "Upgrade: websocket"@)
        && spec_contains(t, "Connection: Upgrade"@)
}

/// Whether `request` asks to switch to the WebSocket protocol.
pub fn is_upgrade_request(request: &str) -> (r: bool)
    ensures
        r == spec_is_upgrade_request(request@),
{
    let t = trim(&chars_of(request));
    contains(&t, &chars_of("Sec-WebSocket-Key")) && contains(&t, &chars_of("Upgrade: websocket"))
        && contains(&t, &chars_of("Connection: Upgrade"))
}

/// The frame that carries `message` from the server: a final text frame
/// (first byte `0x81`), unmasked, whose length byte holds the low seven bits
/// of the message's length in bytes, followed by the message's bytes.
pub open spec fn spec_frame(message: Seq<u8>) -> Seq<u8> {
    seq![0x81u8, (message.len() % 128) as u8] + message
}

/// A server frame carries its whole message: it starts with `0x81`, then
/// a length byte, then exactly the message's bytes; for a message of at
/// most 125 bytes the length byte is the message's length in bytes, and for
/// a longer one it is that length's low seven bits.
pub proof fn lemma_frame_carries_message(m: Seq<u8>)
    ensures
        spec_frame(m).len() == m.len() + 2,
        spec_frame(m)[0] == 0x81,
        spec_frame(m).subrange(2, m.len() + 2int) == m,
        m.len() <= 125 ==> spec_frame(m)[1] as int == m.len(),
        (spec_frame(m)[1] as int) < 128,
        (spec_frame(m)[1] as int) == m.len() % 128,
{
    assert(spec_frame(m).subrange(2, m.len() + 2int) =~= m);
}

/// The frame that sends `message` to a client.
pub fn encode_frame(message: &str) -> (r: Vec<u8>)
    ensures
        r@ == spec_frame(vstd::utf8::encode_utf8(message@)),
        r@.len() == vstd::utf8::encode_utf8(message@).len() + 2,
        r@[0] == 0x81,
        r@.subrange(2, r@.len() as int) == vstd::utf8::encode_utf8(message@),
        vstd::utf8::encode_utf8(message@).len() <= 125 ==> r@[1] as int
            == vstd::utf8::encode_utf8(message@).len(),
{
    proof {
        lemma_frame_carries_message(vstd::utf8::encode_utf8(message@));
    }
    let bytes = message.as_bytes();
    let n = bytes.len();
    let low = n & 0b01111111;
    assert(n & 0b01111111 == n % 128) by (bit_vector);
    let mut buf: Vec<u8> = Vec::new();
    buf.push(0b10000001);
    buf.push(low as u8);
    for i in 0..n
        invariant
            n == bytes@.len(),
            buf@ == seq![0x81u8, (n % 128) as u8] + bytes@.take(i as int),
    {
        buf.push(bytes[i]);
        assert(bytes@.take(i + 1) == bytes@.take(i as int).push(bytes@[i as int]));
    }
    assert(bytes@.take(n as int) == bytes@);
    buf
}

/// The payload length that a received frame announces: the low seven bits
/// of its second byte.
pub open spec fn frame_len(bytes: Seq<u8>) -> int {
    (bytes[1] & 0x7fu8) as int
}

/// The characters that decoding yields from payload position `k` on: each
/// payload byte above 1 is unmasked with the key byte `bytes[2 + k % 4]` and
/// read as the character of that code; bytes 0 and 1 are skipped.
pub open spec fn unmasked_from(bytes: Seq<u8>, k: int) -> Seq<char>
    decreases frame_len(bytes) - k,
{
    if k < 0 || k >= frame_len(bytes) {
        seq![]
    } else {
        let m = bytes[6 + k];
        if m > 1 {
            seq![((m ^ bytes[2 + k % 4]) as u8) as char] + unmasked_from(bytes, k + 1)
        } else {
            unmasked_from(bytes, k + 1)
        }
    }
}

/// Decoding yields at most one character per remaining payload byte.
pub proof fn lemma_unmasked_len(bytes: Seq<u8>, k: int)
    requires
        0 <= k,
    ensures
        unmasked_from(bytes, k).len() <= if k < frame_len(bytes) {
            frame_len(bytes) - k
        } else {
            0
        },
    decreases frame_len(bytes) - k,
{
    if k < frame_len(bytes) {
        lemma_unmasked_len(bytes, k + 1);
    }
}

/// A final text frame as a client sends it (RFC 6455): first byte `0x81`,
/// the mask bit with the payload length, the four-byte masking key, and
/// the payload bytes each XORed with key byte `i % 4`.
pub open spec fn client_frame(payload: Seq<u8>, key: Seq<u8>) -> Seq<u8> {
    seq![0x81u8, (0x80 + payload.len()) as u8] + key + Seq::new(
        payload.len(),
        |i: int| payload[i] ^ key[i % 4],
    )
}

/// Decoding a client's frame from `k` on gives back its payload from `k`
/// on, wherever no masked byte is 0 or 1.
proof fn lemma_unmask_client_frame_from(payload: Seq<u8>, key: Seq<u8>, bytes: Seq<u8>, k: int)
    requires
        payload.len() <= 125,
        key.len() == 4,
        bytes.len() >= 6 + payload.len(),
        bytes.take(6 + payload.len() as int) == client_frame(payload, key),
        frame_len(bytes) == payload.len(),
        forall|i: int| 0 <= i < payload.len() ==> (#[trigger] payload[i] ^ key[i % 4]) > 1,
        0 <= k <= payload.len(),
    ensures
        unmasked_from(bytes, k) == payload.skip(k).map_values(|b: u8| b as char),
    decreases payload.len() - k,
{
    if k < payload.len() {
        lemma_unmask_client_frame_from(payload, key, bytes, k + 1);
        let frame = client_frame(payload, key);
        assert(bytes[6 + k] == frame[6 + k]);
        assert(bytes[2 + k % 4] == frame[2 + k % 4]);
        let p = payload[k];
        let q = key[k % 4];
        assert(bytes[6 + k] == p ^ q);
        assert(bytes[2 + k % 4] == q);
        assert((p ^ q) ^ q == p) by (bit_vector);
        assert(payload.skip(k).map_values(|b: u8| b as char) == seq![p as char] + payload.skip(
            k + 1,
        ).map_values(|b: u8| b as char));
    } else {
        assert(payload.skip(k).map_values(|b: u8| b as char) == Seq::<char>::empty());
    }
}

/// The chat server reads back what a client sends: decoding a buffer that
/// starts with a client's frame gives the payload bytes as characters,
/// wherever no masked payload byte is 0 or 1 (those the server skips).
pub proof fn lemma_decode_client_frame(payload: Seq<u8>, key: Seq<u8>, bytes: Seq<u8>)
    requires
        payload.len() <= 125,
        key.len() == 4,
        bytes.len() >= 6 + payload.len(),
        bytes.take(6 + payload.len() as int) == client_frame(payload, key),
        forall|i: int| 0 <= i < payload.len() ==> (#[trigger] payload[i] ^ key[i % 4]) > 1,
    ensures
        unmasked_from(bytes, 0) == payload.map_values(|b: u8| b as char),
{
    let frame = client_frame(payload, key);
    assert(bytes[1] == frame[1]);
    let n = payload.len() as u8;
    assert(n <= 125);
    assert(((0x80u8 + n) as u8) & 0x7fu8 == n) by (bit_vector)
        requires
            n <= 125,
    ;
    assert(frame_len(bytes) == payload.len());
    lemma_unmask_client_frame_from(payload, key, bytes, 0);
    assert(payload.skip(0) == payload);
}

/// The text of a masked frame as the chat server reads it from a buffer of
/// 1024 bytes: payload starting at byte 6 after the four-byte masking key.
pub fn decode_message(bytes: [u8; 1024]) -> (r: String)
    ensures
        r@ == unmasked_from(bytes@, 0),
        r@.len() <= 127,
{
    proof {
        lemma_unmasked_len(bytes@, 0);
        let b = bytes@[1];
        assert(b & 0x7fu8 <= 127) by (bit_vector);
    }
    let second = bytes[1];
    assert(second & 0b01111111 <= 127) by (bit_vector);
    let length = (second & 0b01111111) as usize;
    let mask_start: usize = 2;
    let data_start: usize = mask_start + 4;
    let mut message: Vec<char> = Vec::new();
    let mut i = data_start;
    while i < data_start + length
        invariant
            bytes@.len() == 1024,
            length == frame_len(bytes@),
            length <= 127,
            data_start == 6,
            mask_start == 2,
            data_start <= i <= data_start + length,
            unmasked_from(bytes@, 0) == message@ + unmasked_from(bytes@, i - data_start),
        decreases data_start + length - i,
    {
        let k = i - data_start;
        let ghost before = message@;
        if bytes[i] > 1 {
            let byte = bytes[i] ^ bytes[mask_start + k % 4];
            message.push(byte as char);
            assert(message@ == before + seq![((bytes@[6 + k] ^ bytes@[2 + k % 4]) as u8) as char]);
        }
        i = i + 1;
    }
    string_of(&message)
}

} // verus!
