//! The `rip` container: a magic tag, three length-prefixed metadata strings
//! and a length-prefixed payload, all integers big-endian.

use byteorder::{BigEndian, ByteOrder};
use vstd::prelude::*;
use vstd::string::StringSliceAdditionalSpecFns;
use vstd::utf8::encode_utf8;

verus! {

/// Longest metadata string, in bytes, that a 16-bit length prefix can describe.
pub const MAX_FIELD_LEN: usize = 65535;

/// Longest payload, in bytes, that a 32-bit length prefix can describe.
pub const MAX_PAYLOAD_LEN: u64 = 0xffff_ffff;

/// Track metadata; an absent field is stored as an empty string.
pub struct TrackMetadata {
    pub title: Option<String>,
    pub artist: Option<String>,
    pub album: Option<String>,
}

/// Why a record cannot be framed.
#[derive(Debug, Clone, Copy, PartialEq, Eq, Structural)]
pub enum RipError {
    /// A metadata string is longer than `MAX_FIELD_LEN` bytes.
    MetadataTooLong,
    /// The payload is longer than `MAX_PAYLOAD_LEN` bytes.
    PayloadTooLong,
}

/// The bytes stored for a metadata field: its UTF-8 encoding, or nothing.
pub open spec fn field_bytes(f: Option<String>) -> Seq<u8> {
    match f {
        Some(s) => encode_utf8(s@),
        None => Seq::empty(),
    }
}

/// The tag that opens every record: `rip`.
pub open spec fn rip_magic() -> Seq<u8> {
    seq![0x72u8, 0x69u8, 0x70u8]
}

/// `n` as two bytes, most significant first.
pub open spec fn be_u16(n: nat) -> Seq<u8> {
    seq![(n / 0x100) as u8, (n % 0x100) as u8]
}

/// `n` as four bytes, most significant first.
pub open spec fn be_u32(n: nat) -> Seq<u8> {
    seq![
        (n / 0x100_0000) as u8,
        (n / 0x1_0000 % 0x100) as u8,
        (n / 0x100 % 0x100) as u8,
        (n % 0x100) as u8,
    ]
}

/// A string's bytes behind their 16-bit length.
pub open spec fn sized_field(b: Seq<u8>) -> Seq<u8> {
    be_u16(b.len()) + b
}

/// Everything of a record that comes before the payload.
pub open spec fn header_bytes(title: Seq<u8>, artist: Seq<u8>, album: Seq<u8>, payload_len: nat) -> Seq<u8> {
    rip_magic() + sized_field(title) + sized_field(artist) + sized_field(album) + be_u32(payload_len)
}

/// A whole record: the header followed by the payload.
pub open spec fn record_bytes(title: Seq<u8>, artist: Seq<u8>, album: Seq<u8>, payload: Seq<u8>) -> Seq<u8> {
    header_bytes(title, artist, album, payload.len()) + payload
}

/// Whether each metadata string fits its length prefix.
pub open spec fn fields_fit(m: TrackMetadata) -> bool {
    &&& field_bytes(m.title).len() <= MAX_FIELD_LEN
    &&& field_bytes(m.artist).len() <= MAX_FIELD_LEN
    &&& field_bytes(m.album).len() <= MAX_FIELD_LEN
}

/// What framing `m` with a payload of `payload_len` bytes gives.
pub open spec fn header_result(m: TrackMetadata, payload_len: nat) -> Result<Seq<u8>, RipError> {
    if !fields_fit(m) {
        Err(RipError::MetadataTooLong)
    } else if payload_len > MAX_PAYLOAD_LEN {
        Err(RipError::PayloadTooLong)
    } else {
        Ok(header_bytes(field_bytes(m.title), field_bytes(m.artist), field_bytes(m.album), payload_len))
    }
}

/// Relies on byteorder's `BigEndian::write_u16`: it stores `n` into the first
/// two bytes of the buffer, most significant byte first.
#[verifier::external_body]
fn u16_be_bytes(n: u16) -> (r: [u8; 2])
    ensures
        r@ == be_u16(n as nat),
{
    let mut buf = [0u8; 2];
    BigEndian::write_u16(&mut buf, n);
    buf
}

/// Relies on byteorder's `BigEndian::write_u32`: it stores `n` into the first
/// four bytes of the buffer, most significant byte first.
#[verifier::external_body]
fn u32_be_bytes(n: u32) -> (r: [u8; 4])
    ensures
        r@ == be_u32(n as nat),
{
    let mut buf = [0u8; 4];
    BigEndian::write_u32(&mut buf, n);
    buf
}

/// The string behind an optional field, empty where the field is absent.
fn field_str(f: &Option<String>) -> (r: &str)
    ensures
        r.spec_bytes() == field_bytes(*f),
{
    match f {
        Some(s) => s.as_str(),
        None => {
            let e = "";
            proof {
                reveal_strlit("");
                assert(e@ =~= Seq::<char>::empty());
            }
            e
        },
    }
}

/// `s`'s bytes behind their big-endian 16-bit length.
fn sized_str_u16be(s: &str) -> (r: Vec<u8>)
    requires
        s.spec_bytes().len() <= MAX_FIELD_LEN,
    ensures
        r@ == sized_field(s.spec_bytes()),
{
    let bytes = s.as_bytes();
    let prefix = u16_be_bytes(bytes.len() as u16);
    let mut out: Vec<u8> = Vec::new();
    out.push(prefix[0]);
    out.push(prefix[1]);
    let mut k: usize = 0;
    while k < bytes.len()
        invariant
            k <= bytes@.len(),
            bytes@ == s.spec_bytes(),
            prefix@ == be_u16(bytes@.len()),
            out@ == prefix@ + bytes@.take(k as int),
        decreases bytes@.len() - k,
    {
        out.push(bytes[k]);
        k += 1;
        assert(out@ =~= prefix@ + bytes@.take(k as int));
    }
    assert(bytes@.take(k as int) =~= bytes@);
    out
}

/// Frames `metadata` for a payload of `payload_len` bytes: the bytes of a
/// record up to where the payload starts. Fails where a metadata string or
/// the payload is too long for its length prefix.
pub fn rip_header(metadata: &TrackMetadata, payload_len: usize) -> (r: Result<Vec<u8>, RipError>)
    ensures
        r matches Ok(h) ==> header_result(*metadata, payload_len as nat) == Ok::<Seq<u8>, RipError>(h@),
        r matches Err(e) ==> header_result(*metadata, payload_len as nat) == Err::<Seq<u8>, RipError>(e),
{
    let title = field_str(&metadata.title);
    let artist = field_str(&metadata.artist);
    let album = field_str(&metadata.album);
    if title.as_bytes().len() > MAX_FIELD_LEN || artist.as_bytes().len() > MAX_FIELD_LEN
        || album.as_bytes().len() > MAX_FIELD_LEN {
        return Err(RipError::MetadataTooLong);
    }
    if payload_len as u64 > MAX_PAYLOAD_LEN {
        return Err(RipError::PayloadTooLong);
    }
    let mut out: Vec<u8> = vec![0x72u8, 0x69u8, 0x70u8];
    let mut t = sized_str_u16be(title);
    let mut a = sized_str_u16be(artist);
    let mut l = sized_str_u16be(album);
    out.append(&mut t);
    out.append(&mut a);
    out.append(&mut l);
    let len = u32_be_bytes(payload_len as u32);
    out.push(len[0]);
    out.push(len[1]);
    out.push(len[2]);
    out.push(len[3]);
    assert(out@ =~= header_bytes(title.spec_bytes(), artist.spec_bytes(), album.spec_bytes(), payload_len as nat));
    Ok(out)
}

/// Reads a field stored behind a 16-bit length at offset `at`: its bytes and
/// the offset just past it, or `None` where it runs past the end of `b`.
#[verifier::opaque]
pub open spec fn read_field(b: Seq<u8>, at: int) -> Option<(Seq<u8>, int)> {
    if 0 <= at && at + 2 <= b.len() {
        let n = b[at] * 0x100 + b[at + 1];
        if at + 2 + n <= b.len() {
            Some((b.subrange(at + 2, at + 2 + n), at + 2 + n))
        } else {
            None
        }
    } else {
        None
    }
}

/// Reads a payload stored behind a 32-bit length at offset `at`, which must
/// end exactly where `b` ends.
#[verifier::opaque]
pub open spec fn read_payload(b: Seq<u8>, at: int) -> Option<Seq<u8>> {
    if 0 <= at && at + 4 <= b.len() {
        let n = b[at] * 0x100_0000 + b[at + 1] * 0x1_0000 + b[at + 2] * 0x100 + b[at + 3];
        if at + 4 + n == b.len() {
            Some(b.subrange(at + 4, at + 4 + n))
        } else {
            None
        }
    } else {
        None
    }
}

/// A reader of records: title, artist, album and payload, or `None` where `b`
/// is not a well-formed record.
pub open spec fn parse_record(b: Seq<u8>) -> Option<(Seq<u8>, Seq<u8>, Seq<u8>, Seq<u8>)> {
    if b.len() >= 3 && b.take(3) == rip_magic() {
        match read_field(b, 3) {
            Some((title, o1)) => match read_field(b, o1) {
                Some((artist, o2)) => match read_field(b, o2) {
                    Some((album, o3)) => match read_payload(b, o3) {
                        Some(payload) => Some((title, artist, album, payload)),
                        None => None,
                    },
                    None => None,
                },
                None => None,
            },
            None => None,
        }
    } else {
        None
    }
}

/// A length-prefixed field reads back as itself.
proof fn lemma_read_sized_field(pre: Seq<u8>, f: Seq<u8>, post: Seq<u8>)
    requires
        f.len() <= MAX_FIELD_LEN,
    ensures
        read_field(pre + sized_field(f) + post, pre.len() as int) == Some(
            (f, (pre.len() + 2 + f.len()) as int),
        ),
{
    reveal(read_field);
    let b = pre + sized_field(f) + post;
    let at = pre.len() as int;
    assert(b[at] == (f.len() / 0x100) as u8);
    assert(b[at + 1] == (f.len() % 0x100) as u8);
    assert(b.subrange(at + 2, at + 2 + f.len()) =~= f);
}

/// A length-prefixed payload at the end reads back as itself.
proof fn lemma_read_sized_payload(pre: Seq<u8>, payload: Seq<u8>)
    requires
        payload.len() <= MAX_PAYLOAD_LEN,
    ensures
        read_payload(pre + be_u32(payload.len()) + payload, pre.len() as int) == Some(payload),
{
    reveal(read_payload);
    let b = pre + be_u32(payload.len()) + payload;
    let at = pre.len() as int;
    let n = payload.len() as int;
    assert(b[at] == (n / 0x100_0000) as u8);
    assert(b[at + 1] == (n / 0x1_0000 % 0x100) as u8);
    assert(b[at + 2] == (n / 0x100 % 0x100) as u8);
    assert(b[at + 3] == (n % 0x100) as u8);
    assert(b.subrange(at + 4, at + 4 + n) =~= payload);
}

/// Reading a serialized record back gives exactly the title, artist, album
/// and payload it was made from, for every input whose lengths fit their
/// prefixes.
pub proof fn lemma_record_round_trip(title: Seq<u8>, artist: Seq<u8>, album: Seq<u8>, payload: Seq<u8>)
    requires
        title.len() <= MAX_FIELD_LEN,
        artist.len() <= MAX_FIELD_LEN,
        album.len() <= MAX_FIELD_LEN,
        payload.len() <= MAX_PAYLOAD_LEN,
    ensures
        parse_record(record_bytes(title, artist, album, payload)) == Some((title, artist, album, payload)),
{
    let b = record_bytes(title, artist, album, payload);
    let m = rip_magic();
    let p1 = m + sized_field(title);
    let p2 = p1 + sized_field(artist);
    let p3 = p2 + sized_field(album);
    let len = be_u32(payload.len());
    let sa = sized_field(artist);
    let sl = sized_field(album);
    assert(b =~= m + sized_field(title) + (sa + sl + len + payload));
    lemma_read_sized_field(m, title, sa + sl + len + payload);
    assert(b =~= p1 + sa + (sl + len + payload));
    lemma_read_sized_field(p1, artist, sl + len + payload);
    assert(b =~= p2 + sl + (len + payload));
    lemma_read_sized_field(p2, album, len + payload);
    assert(b =~= p3 + len + payload);
    lemma_read_sized_payload(p3, payload);
    assert(b.take(3) =~= m);
}

} // verus!
