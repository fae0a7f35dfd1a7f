//! The byte layout of the fields that travel in a datagram: ports as two
//! big-endian bytes, IPv4 addresses as four octets, text as its UTF-8 bytes.
use crate::text::{
    decimal_value, is_digit, lemma_split_join, lemma_split_no_sep, parse_u8,
    parse_unsigned, split, split_text, views,
};
use vstd::prelude::*;
use vstd::utf8::{decode_utf8, encode_utf8, is_ascii_chars, valid_utf8};

verus! {

/// Size of every datagram buffer.
pub const BUFFER_SIZE: usize = 8192;

/// Bytes taken by the header at the start of each datagram.
pub const HEADER_SIZE: usize = 16;

/// `bytes` written over `buf` from position `at` on.
pub open spec fn splice(buf: Seq<u8>, at: int, bytes: Seq<u8>) -> Seq<u8> {
    buf.take(at) + bytes + buf.skip(at + bytes.len())
}

// ----- ports -----

/// The two bytes of a port, most significant first.
pub open spec fn u16_wire(v: u16) -> Seq<u8> {
    seq![(v / 256) as u8, (v % 256) as u8]
}

/// The port that two bytes hold, most significant first.
pub open spec fn u16_value(hi: u8, lo: u8) -> u16 {
    (hi * 256 + lo) as u16
}

/// A port read back from its two bytes is the port written.
pub proof fn lemma_u16_roundtrip(v: u16)
    ensures
        u16_value(u16_wire(v)[0], u16_wire(v)[1]) == v,
{
}

/// Writes `v` at `at` as two big-endian bytes.
pub fn copy_u16(buf: &mut Vec<u8>, at: usize, v: u16)
    requires
        at + 2 <= old(buf)@.len(),
    ensures
        final(buf)@ == splice(old(buf)@, at as int, u16_wire(v)),
{
    let _len = buf.len();
    buf[at] = (v / 256) as u8;
    buf[at + 1] = (v % 256) as u8;
    assert(final(buf)@ =~= splice(old(buf)@, at as int, u16_wire(v)));
}

/// Reads the big-endian port at `at`.
pub fn extract_u16(data: &[u8], at: usize) -> (r: u16)
    requires
        at + 2 <= data@.len(),
    ensures
        r == u16_value(data@[at as int], data@[at + 1]),
{
    let hi = data[at] as u16;
    let lo = data[at + 1] as u16;
    hi * 256 + lo
}

// ----- text -----

/// Writes the UTF-8 bytes of `s` from `at` on.
pub fn copy_str(buf: &mut Vec<u8>, at: usize, s: &str)
    requires
        at + encode_utf8(s@).len() <= old(buf)@.len(),
    ensures
        final(buf)@ == splice(old(buf)@, at as int, encode_utf8(s@)),
{
    let bytes = s.as_bytes();
    let n = bytes.len();
    let _len = buf.len();
    let ghost start = buf@;
    let mut i: usize = 0;
    while i < n
        invariant
            i <= n,
            n == bytes@.len(),
            bytes@ == encode_utf8(s@),
            at + n <= start.len(),
            buf@.len() == start.len(),
            forall|j: int| 0 <= j < at ==> buf@[j] == start[j],
            forall|j: int| 0 <= j < i ==> buf@[at + j] == bytes@[j],
            start.len() <= usize::MAX,
            forall|j: int| at + i <= j < start.len() ==> buf@[j] == start[j],
        decreases n - i,
    {
        buf[at + i] = bytes[i];
        i = i + 1;
    }
    assert(buf@ =~= splice(start, at as int, encode_utf8(s@)));
}

/// Reads the text held by the bytes `from..to`; `None` when they are not valid UTF-8.
pub fn extract_str(data: &[u8], from: usize, to: usize) -> (r: Option<String>)
    requires
        from <= to <= data@.len(),
    ensures
        r is Some <==> valid_utf8(data@.subrange(from as int, to as int)),
        r matches Some(s) ==> s@ == decode_utf8(data@.subrange(from as int, to as int)),
        r matches Some(s) ==> encode_utf8(s@) == data@.subrange(from as int, to as int),
{
    let mut bytes: Vec<u8> = Vec::new();
    let mut i: usize = from;
    while i < to
        invariant
            from <= i <= to,
            to <= data@.len(),
            bytes@ == data@.subrange(from as int, i as int),
        decreases to - i,
    {
        bytes.push(data[i]);
        i = i + 1;
        assert(bytes@ =~= data@.subrange(from as int, i as int));
    }
    crate::text::decode_text(bytes)
}

/// A string written and read back is the same string.
pub proof fn lemma_str_roundtrip(s: Seq<char>)
    ensures
        valid_utf8(encode_utf8(s)),
        decode_utf8(encode_utf8(s)) == s,
{
    vstd::utf8::encode_utf8_valid_utf8(s);
    vstd::utf8::encode_utf8_decode_utf8(s);
}

// ----- addresses -----

/// The decimal digit character for `d < 10`.
pub open spec fn digit_char(d: u8) -> char {
    (d + 48) as char
}

/// The decimal text of an octet, without leading zeros.
pub open spec fn u8_text(b: u8) -> Seq<char> {
    if b < 10 {
        seq![digit_char(b)]
    } else if b < 100 {
        seq![digit_char(b / 10), digit_char(b % 10)]
    } else {
        seq![digit_char(b / 100), digit_char((b / 10) % 10), digit_char(b % 10)]
    }
}

/// The dotted-quad text of four octets, such as `127.0.0.1`.
pub open spec fn ip_text(o: Seq<u8>) -> Seq<char> {
    u8_text(o[0]) + seq!['.'] + u8_text(o[1]) + seq!['.'] + u8_text(o[2]) + seq!['.'] + u8_text(
        o[3],
    )
}

/// The four octets of a dotted-quad address: four pieces between dots, each an octet
/// as `str::parse::<u8>` reads it.
pub open spec fn ip_octets(s: Seq<char>) -> Option<Seq<u8>> {
    let f = split(s, '.');
    if f.len() == 4 && (forall|i: int|
        0 <= i < 4 ==> #[trigger] parse_unsigned(f[i], 255) is Some) {
        Some(Seq::new(4, |i: int| parse_unsigned(f[i], 255)->Some_0 as u8))
    } else {
        None
    }
}

/// Whether `s` is a dotted-quad address.
pub open spec fn is_ip(s: Seq<char>) -> bool {
    ip_octets(s) is Some
}

proof fn lemma_u8_text(b: u8)
    ensures
        parse_unsigned(u8_text(b), 255) == Some(b as nat),
        forall|i: int| 0 <= i < u8_text(b).len() ==> is_digit(#[trigger] u8_text(b)[i]),
        1 <= u8_text(b).len() <= 3,
        is_ascii_chars(u8_text(b)),
{
    let t = u8_text(b);
    assert(t.len() > 0 && t[0] != '+');
    reveal_with_fuel(decimal_value, 4);
    if b < 10 {
        assert(t.drop_last() =~= Seq::<char>::empty());
    } else if b < 100 {
        assert(t.drop_last() =~= seq![digit_char(b / 10)]);
        assert(t.drop_last().drop_last() =~= Seq::<char>::empty());
    } else {
        assert(t.drop_last() =~= seq![digit_char(b / 100), digit_char((b / 10) % 10)]);
        assert(t.drop_last().drop_last() =~= seq![digit_char(b / 100)]);
        assert(t.drop_last().drop_last().drop_last() =~= Seq::<char>::empty());
    }
}

/// The text of an address parses back to its octets.
pub proof fn lemma_ip_roundtrip(o: Seq<u8>)
    requires
        o.len() == 4,
    ensures
        ip_octets(ip_text(o)) == Some(o),
        is_ascii_chars(ip_text(o)),
{
    lemma_u8_text(o[0]);
    lemma_u8_text(o[1]);
    lemma_u8_text(o[2]);
    lemma_u8_text(o[3]);
    let t0 = u8_text(o[0]);
    let t1 = u8_text(o[1]);
    let t2 = u8_text(o[2]);
    let t3 = u8_text(o[3]);
    lemma_split_no_sep(t0, '.');
    lemma_split_no_sep(t1, '.');
    lemma_split_no_sep(t2, '.');
    lemma_split_no_sep(t3, '.');
    let a = t0 + seq!['.'] + t1 + seq!['.'] + t2;
    let b = t0 + seq!['.'] + t1;
    lemma_split_join(t0, '.', t1);
    assert(t0.push('.') + t1 =~= b);
    lemma_split_join(b, '.', t2);
    assert(b.push('.') + t2 =~= a);
    lemma_split_join(a, '.', t3);
    assert(a.push('.') + t3 =~= ip_text(o));
    let f = split(ip_text(o), '.');
    assert(f =~= seq![t0, t1, t2, t3]);
    assert(Seq::new(4, |i: int| parse_unsigned(f[i], 255)->Some_0 as u8) =~= o);
    assert(is_ascii_chars(ip_text(o))) by {
        assert forall|i: int| 0 <= i < ip_text(o).len() implies '\0' <= #[trigger] ip_text(o)[i]
            <= '\u{7f}' by {
            let s = ip_text(o);
            if i < t0.len() {
                assert(s[i] == t0[i]);
            } else if i == t0.len() {
            } else if i < t0.len() + 1 + t1.len() {
                assert(s[i] == t1[i - t0.len() - 1]);
            } else if i == t0.len() + 1 + t1.len() {
            } else if i < t0.len() + 2 + t1.len() + t2.len() {
                assert(s[i] == t2[i - t0.len() - 2 - t1.len()]);
            } else if i == t0.len() + 2 + t1.len() + t2.len() {
            } else {
                assert(s[i] == t3[i - t0.len() - 3 - t1.len() - t2.len()]);
            }
        }
    }
}

/// Parses a dotted-quad address into its four octets.
pub fn parse_ip(s: &str) -> (r: Option<Vec<u8>>)
    ensures
        match r {
            Some(v) => ip_octets(s@) == Some(v@),
            None => ip_octets(s@) is None,
        },
{
    let pieces = split_text(s, '.');
    let ghost f = split(s@, '.');
    assert(views(pieces@) == f);
    if pieces.len() != 4 {
        return None;
    }
    let mut octets: Vec<u8> = Vec::new();
    let mut i: usize = 0;
    while i < 4
        invariant
            i <= 4,
            pieces@.len() == 4,
            views(pieces@) == f,
            f == split(s@, '.'),
            octets@.len() == i,
            forall|j: int| 0 <= j < i ==> #[trigger] parse_unsigned(f[j], 255) is Some,
            forall|j: int|
                0 <= j < i ==> octets@[j] == parse_unsigned(f[j], 255)->Some_0 as u8,
        decreases 4 - i,
    {
        assert(f[i as int] == pieces@[i as int]@);
        match parse_u8(pieces[i].as_str()) {
            Some(b) => {
                octets.push(b);
            },
            None => {
                assert(!(parse_unsigned(f[i as int], 255) is Some));
                return None;
            },
        }
        i = i + 1;
    }
    assert(octets@ =~= Seq::new(4, |i: int| parse_unsigned(f[i], 255)->Some_0 as u8));
    Some(octets)
}

/// Writes the four octets of the address `ip` at `at`.
pub fn copy_ip(buf: &mut Vec<u8>, at: usize, ip: &str)
    requires
        at + 4 <= old(buf)@.len(),
        is_ip(ip@),
    ensures
        final(buf)@ == splice(old(buf)@, at as int, ip_octets(ip@)->Some_0),
{
    let octets = match parse_ip(ip) {
        Some(o) => o,
        None => vstd::pervasive::unreached(),
    };
    let ghost start = buf@;
    let _len = buf.len();
    buf[at] = octets[0];
    buf[at + 1] = octets[1];
    buf[at + 2] = octets[2];
    buf[at + 3] = octets[3];
    assert(buf@ =~= splice(start, at as int, octets@));
}

fn push_decimal(out: &mut Vec<u8>, b: u8, Ghost(chars): Ghost<Seq<char>>) -> (r: Ghost<Seq<char>>)
    requires
        old(out)@.len() == chars.len(),
        forall|i: int| 0 <= i < chars.len() ==> old(out)@[i] == chars[i] as u8,
        is_ascii_chars(chars),
    ensures
        r@ == chars + u8_text(b),
        final(out)@.len() == r@.len(),
        forall|i: int| 0 <= i < r@.len() ==> final(out)@[i] == r@[i] as u8,
        is_ascii_chars(r@),
{
    proof {
        lemma_u8_text(b);
    }
    if b >= 100 {
        out.push(b / 100 + 48);
    }
    if b >= 10 {
        out.push((b / 10) % 10 + 48);
    }
    out.push(b % 10 + 48);
    let ghost r = chars + u8_text(b);
    assert forall|i: int| 0 <= i < r.len() implies final(out)@[i] == r[i] as u8 by {
        if i >= chars.len() {
            let k = i - chars.len();
            assert(r[i] == u8_text(b)[k]);
        }
    }
    Ghost(r)
}

/// Reads the four octets at `at` as dotted-quad text.
pub fn extract_ip(data: &[u8], at: usize) -> (r: String)
    requires
        at + 4 <= data@.len(),
    ensures
        r@ == ip_text(data@.subrange(at as int, at + 4)),
{
    let ghost o = data@.subrange(at as int, at + 4);
    let mut out: Vec<u8> = Vec::new();
    let g = push_decimal(&mut out, data[at], Ghost(Seq::empty()));
    out.push(46);
    let g = push_decimal(&mut out, data[at + 1], Ghost(g@.push('.')));
    out.push(46);
    let g = push_decimal(&mut out, data[at + 2], Ghost(g@.push('.')));
    out.push(46);
    let g = push_decimal(&mut out, data[at + 3], Ghost(g@.push('.')));
    assert(g@ =~= ip_text(o));
    crate::text::ascii_string(out, Ghost(g@))
}

} // verus!
