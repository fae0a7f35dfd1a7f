//! The sixteen-byte header that opens every datagram, and the kinds of request it names.
use crate::text::{
    is_whitespace, lemma_ascii_encoding, lemma_encode_concat, lemma_without_nul_id,
    lemma_without_nul_padding, nuls, same_text, strip_nul, trim, trim_end, trim_start, trim_text,
    without_nul,
};
use crate::wire::{
    copy_ip, copy_str, copy_u16, extract_ip, extract_str, extract_u16, ip_octets, ip_text, is_ip,
    lemma_ip_roundtrip, lemma_u16_roundtrip,
    splice, u16_value, u16_wire, HEADER_SIZE,
};
use vstd::prelude::*;
use vstd::utf8::{decode_utf8, encode_utf8, valid_utf8};

verus! {

/// Bytes of the header that hold the request's name.
pub const REQUEST_FIELD: usize = 4;

/// Who a datagram is for and from, and what it asks.
pub struct Header {
    pub request: String,
    pub dest_port: u16,
    pub src_port: u16,
    pub dest_ip: String,
    pub src_ip: String,
}

impl Header {
    /// A header with the given fields.
    pub fn new(request: &str, dest_port: u16, src_port: u16, dest_ip: &str, src_ip: &str) -> (h:
        Header)
        ensures
            h.request@ == request@,
            h.dest_port == dest_port,
            h.src_port == src_port,
            h.dest_ip@ == dest_ip@,
            h.src_ip@ == src_ip@,
    {
        let request = request.to_owned();
        let dest_ip = dest_ip.to_owned();
        let src_ip = src_ip.to_owned();
        Header { request, dest_port, src_port, dest_ip, src_ip }
    }
}

/// `n` zero bytes.
pub open spec fn zeros(n: nat) -> Seq<u8> {
    Seq::new(n, |i: int| 0u8)
}

/// The request field as sent: the request's bytes, cut or padded with zero bytes to four.
pub open spec fn request_field(request: Seq<char>) -> Seq<u8> {
    (encode_utf8(request) + zeros(REQUEST_FIELD as nat)).take(REQUEST_FIELD as int)
}

/// Whether a header can be written: both addresses are dotted quads.
pub open spec fn header_writable(h: &Header) -> bool {
    is_ip(h.dest_ip@) && is_ip(h.src_ip@)
}

/// The sixteen bytes of a header: request field, destination port, source port,
/// destination address, source address.
pub open spec fn header_bytes(
    request: Seq<char>,
    dest_port: u16,
    src_port: u16,
    dest_ip: Seq<char>,
    src_ip: Seq<char>,
) -> Seq<u8> {
    request_field(request) + u16_wire(dest_port) + u16_wire(src_port) + ip_octets(dest_ip)->Some_0
        + ip_octets(src_ip)->Some_0
}

/// The sixteen bytes written for `h`.
pub open spec fn header_wire(h: &Header) -> Seq<u8> {
    header_bytes(h.request@, h.dest_port, h.src_port, h.dest_ip@, h.src_ip@)
}

/// What writing a header does to a buffer: the request's bytes from the start, then
/// the ports and addresses over bytes 4 to 16.
pub open spec fn header_written(buf: Seq<u8>, h: &Header) -> Seq<u8> {
    let with_request = splice(buf, 0, encode_utf8(h.request@));
    let with_ports = splice(
        splice(with_request, 4, u16_wire(h.dest_port)),
        6,
        u16_wire(h.src_port),
    );
    splice(
        splice(with_ports, 8, ip_octets(h.dest_ip@)->Some_0),
        12,
        ip_octets(h.src_ip@)->Some_0,
    )
}

/// Writes the header at the start of `buf`; gives the position after it.
pub fn copy_header(buf: &mut Vec<u8>, header: &Header) -> (r: u16)
    requires
        header_writable(header),
        old(buf)@.len() >= HEADER_SIZE,
        encode_utf8(header.request@).len() <= old(buf)@.len(),
    ensures
        r == HEADER_SIZE,
        final(buf)@ == header_written(old(buf)@, header),
{
    copy_str(buf, 0, header.request.as_str());
    copy_u16(buf, 4, header.dest_port);
    copy_u16(buf, 6, header.src_port);
    copy_ip(buf, 8, header.dest_ip.as_str());
    copy_ip(buf, 12, header.src_ip.as_str());
    16
}

/// On a zeroed buffer the first sixteen bytes written are the header's.
pub proof fn lemma_header_written(buf: Seq<u8>, h: &Header)
    requires
        header_writable(h),
        buf.len() >= HEADER_SIZE,
        encode_utf8(h.request@).len() <= buf.len(),
        forall|i: int| 0 <= i < buf.len() ==> buf[i] == 0,
    ensures
        header_written(buf, h).len() == buf.len(),
        header_written(buf, h).take(HEADER_SIZE as int) == header_wire(h),
{
    let req = encode_utf8(h.request@);
    let w = header_written(buf, h);
    let o1 = ip_octets(h.dest_ip@)->Some_0;
    let o2 = ip_octets(h.src_ip@)->Some_0;
    assert(o1.len() == 4 && o2.len() == 4);
    let expect = header_wire(h);
    assert(expect.len() == 16);
    assert forall|i: int| 0 <= i < 16 implies w[i] == expect[i] by {
        if i < 4 {
            let padded = req + zeros(4);
            assert(expect[i] == padded[i]);
        }
    }
    assert(w.take(16) =~= expect);
}

/// Reads the header at the start of `data`; `None` when the request field is not UTF-8.
/// The request is trimmed of surrounding whitespace; zero padding stays in it.
pub fn extract_header(data: &[u8]) -> (r: Option<Header>)
    requires
        data@.len() >= HEADER_SIZE,
    ensures
        r is Some <==> valid_utf8(data@.take(4)),
        r matches Some(h) ==> {
            &&& h.request@ == trim(decode_utf8(data@.take(4)))
            &&& h.dest_port == u16_value(data@[4], data@[5])
            &&& h.src_port == u16_value(data@[6], data@[7])
            &&& h.dest_ip@ == ip_text(data@.subrange(8, 12))
            &&& h.src_ip@ == ip_text(data@.subrange(12, 16))
        },
{
    assert(data@.subrange(0, 4) =~= data@.take(4));
    let raw = match extract_str(data, 0, 4) {
        Some(s) => s,
        None => return None,
    };
    let request = trim_text(raw.as_str());
    let dest_port = extract_u16(data, 4);
    let src_port = extract_u16(data, 6);
    let dest_ip = extract_ip(data, 8);
    let src_ip = extract_ip(data, 12);
    Some(Header { request, dest_port, src_port, dest_ip, src_ip })
}

// ----- request kinds -----

/// What a datagram asks for.
pub enum RequestKind {
    /// A peer looks for a file.
    Get,
    /// A peer shares the hosts it knows.
    Discovery,
    /// A peer has the file that was asked for.
    Found,
    /// Anything else, which is ignored.
    Other,
}

/// The kind a request names, once its NUL characters are removed:
/// `get`, `disc` and `OK`.
pub open spec fn request_kind(request: Seq<char>) -> RequestKind {
    let r = without_nul(request);
    if r == seq!['g', 'e', 't'] {
        RequestKind::Get
    } else if r == seq!['d', 'i', 's', 'c'] {
        RequestKind::Discovery
    } else if r == seq!['O', 'K'] {
        RequestKind::Found
    } else {
        RequestKind::Other
    }
}

/// Tells which kind of request a header's request names.
pub fn classify_request(request: &str) -> (k: RequestKind)
    ensures
        k == request_kind(request@),
{
    let cleaned = strip_nul(request);
    proof {
        reveal_strlit("get");
        reveal_strlit("disc");
        reveal_strlit("OK");
        assert("get"@ =~= seq!['g', 'e', 't']);
        assert("disc"@ =~= seq!['d', 'i', 's', 'c']);
        assert("OK"@ =~= seq!['O', 'K']);
    }
    if same_text(cleaned.as_str(), "get") {
        RequestKind::Get
    } else if same_text(cleaned.as_str(), "disc") {
        RequestKind::Discovery
    } else if same_text(cleaned.as_str(), "OK") {
        RequestKind::Found
    } else {
        RequestKind::Other
    }
}


/// Whether a request comes back unchanged through the request field: it fits in four
/// bytes, holds no NUL, and neither starts nor ends with whitespace.
pub open spec fn request_survives(request: Seq<char>) -> bool {
    &&& encode_utf8(request).len() <= REQUEST_FIELD
    &&& forall|i: int| 0 <= i < request.len() ==> request[i] != '\0'
    &&& request.len() > 0 ==> !is_whitespace(request[0]) && !is_whitespace(request.last())
}

/// A header read back from the bytes that were written for it names the same request
/// (once the zero padding is removed), the same ports and the same addresses.
pub proof fn lemma_header_roundtrip(h: &Header)
    requires
        header_writable(h),
        request_survives(h.request@),
    ensures
        valid_utf8(header_wire(h).take(4)),
        without_nul(trim(decode_utf8(header_wire(h).take(4)))) == h.request@,
        request_kind(trim(decode_utf8(header_wire(h).take(4)))) == request_kind(h.request@),
        u16_value(header_wire(h)[4], header_wire(h)[5]) == h.dest_port,
        u16_value(header_wire(h)[6], header_wire(h)[7]) == h.src_port,
        ip_octets(ip_text(header_wire(h).subrange(8, 12))) == ip_octets(h.dest_ip@),
        ip_octets(ip_text(header_wire(h).subrange(12, 16))) == ip_octets(h.src_ip@),
{
    let r = h.request@;
    let e = encode_utf8(r);
    let k = (4 - e.len()) as nat;
    let pad = nuls(k);
    let b = header_wire(h);
    let o1 = ip_octets(h.dest_ip@)->Some_0;
    let o2 = ip_octets(h.src_ip@)->Some_0;
    assert(o1.len() == 4 && o2.len() == 4);
    // the request field is the encoding of the request followed by NULs
    assert(vstd::utf8::is_ascii_chars(pad));
    lemma_ascii_encoding(pad, zeros(k));
    lemma_encode_concat(r, pad);
    assert(request_field(r) =~= e + zeros(k));
    assert(b.take(4) =~= request_field(r));
    assert(b.take(4) == encode_utf8(r + pad));
    vstd::utf8::encode_utf8_valid_utf8(r + pad);
    vstd::utf8::encode_utf8_decode_utf8(r + pad);
    let t = r + pad;
    assert(decode_utf8(b.take(4)) == t);
    // trimming leaves it alone
    if t.len() > 0 {
        if r.len() > 0 {
            assert(t[0] == r[0]);
        } else {
            assert(t[0] == pad[0]);
        }
        if k > 0 {
            assert(t.last() == pad[k - 1]);
        } else {
            assert(t =~= r);
        }
    }
    assert(trim_start(t) == t);
    assert(trim_end(t) == t);
    lemma_without_nul_padding(r, k);
    lemma_without_nul_id(r);
    // ports and addresses
    lemma_u16_roundtrip(h.dest_port);
    lemma_u16_roundtrip(h.src_port);
    assert(b.subrange(8, 12) =~= o1);
    assert(b.subrange(12, 16) =~= o2);
    assert(b[4] == u16_wire(h.dest_port)[0] && b[5] == u16_wire(h.dest_port)[1]);
    assert(b[6] == u16_wire(h.src_port)[0] && b[7] == u16_wire(h.src_port)[1]);
    lemma_ip_roundtrip(o1);
    lemma_ip_roundtrip(o2);
}

} // verus!
