//! The datagrams nodes exchange: file packets (a header, then a length-prefixed name)
//! and discovery packets (a header, then one record per known host).
use crate::header::{
    copy_header, header_wire, header_writable, header_written, lemma_header_written, zeros, Header,
};
use crate::hosts::{Host, HostTable, HostView};
use crate::wire::{
    copy_ip, copy_str, copy_u16, extract_ip, extract_str, extract_u16, ip_octets, ip_text, is_ip,
    lemma_ip_roundtrip, lemma_str_roundtrip, lemma_u16_roundtrip, u16_value, u16_wire,
    BUFFER_SIZE, HEADER_SIZE,
};
use vstd::prelude::*;
use vstd::utf8::{decode_utf8, encode_utf8, valid_utf8};

verus! {

/// A fresh datagram buffer: `BUFFER_SIZE` zero bytes.
pub fn zeroed_buffer() -> (b: Vec<u8>)
    ensures
        b@ == zeros(BUFFER_SIZE as nat),
{
    let mut b: Vec<u8> = Vec::new();
    let mut i: usize = 0;
    while i < BUFFER_SIZE
        invariant
            i <= BUFFER_SIZE,
            b@ == zeros(i as nat),
        decreases BUFFER_SIZE - i,
    {
        b.push(0);
        i = i + 1;
        assert(b@ =~= zeros(i as nat));
    }
    b
}

/// The first `n` bytes of `buf`, as a datagram to send.
fn sent_part(buf: Vec<u8>, n: usize) -> (r: Vec<u8>)
    requires
        n <= buf@.len(),
    ensures
        r@ == buf@.take(n as int),
{
    let mut buf = buf;
    buf.truncate(n);
    buf
}

// ----- file packets -----

/// What follows the header in a file packet: the byte length of the file name, then the name.
pub open spec fn file_body(body: Seq<char>) -> Seq<u8> {
    u16_wire(encode_utf8(body).len() as u16) + encode_utf8(body)
}

/// A file packet: the header, then the length-prefixed file name.
pub open spec fn file_packet(h: &Header, body: Seq<char>) -> Seq<u8> {
    header_wire(h) + file_body(body)
}

/// Whether a file packet for this header and name fits in a datagram buffer.
pub open spec fn file_packet_fits(h: &Header, body: Seq<char>) -> bool {
    &&& header_writable(h)
    &&& encode_utf8(h.request@).len() <= BUFFER_SIZE
    &&& HEADER_SIZE + 2 + encode_utf8(body).len() <= BUFFER_SIZE
}

/// Builds the file packet that carries the name `body` under `header`.
pub fn create_file_packet(header: &Header, body: &str) -> (r: Vec<u8>)
    requires
        file_packet_fits(header, body@),
    ensures
        r@ == file_packet(header, body@),
{
    let mut buf = zeroed_buffer();
    proof {
        lemma_header_written(buf@, header);
    }
    let ghost after_header = header_written(buf@, header);
    let mut current = copy_header(&mut buf, header);
    let body_len = body.len() as u16;
    copy_u16(&mut buf, current as usize, body_len);
    current = current + 2;
    copy_str(&mut buf, current as usize, body);
    current = current + body_len;
    let ghost b = encode_utf8(body@);
    assert(buf@.take(current as int) =~= after_header.take(16) + (u16_wire(body_len) + b));
    sent_part(buf, current as usize)
}

// ----- discovery packets -----

/// How many buffer bytes each host is counted for when a discovery packet is filled:
/// the in-memory size of a `Host` (two strings and two ports) on 64-bit targets.
pub const HOST_BUDGET: usize = 56;

/// Bytes of a datagram left for discovery records after the header.
pub const USEFUL_BUFFER_SIZE: usize = 8176;

/// How many hosts one discovery packet carries at most.
pub open spec fn hosts_per_packet() -> nat {
    (USEFUL_BUFFER_SIZE / HOST_BUDGET) as nat
}

/// The byte length of a host's name as its record counts it (one byte's worth).
pub open spec fn name_len_byte(h: HostView) -> nat {
    encode_utf8(h.name).len() % 256
}

/// One host's discovery record: the length byte, that many bytes of its name,
/// its address's four octets and its port.
pub open spec fn discovery_record(h: HostView) -> Seq<u8> {
    seq![name_len_byte(h) as u8] + encode_utf8(h.name).take(name_len_byte(h) as int)
        + ip_octets(h.ipaddr)->Some_0 + u16_wire(h.port)
}

/// The records of `hs`, one after another.
#[verifier::opaque]
pub open spec fn records(hs: Seq<HostView>) -> Seq<u8>
    decreases hs.len(),
{
    if hs.len() == 0 {
        Seq::empty()
    } else {
        records(hs.drop_last()) + discovery_record(hs.last())
    }
}

/// Whether the records of `hs`, written after the header, stay in the buffer: writing a
/// record writes the whole name before the address, so both must fit.
pub open spec fn records_fit(hs: Seq<HostView>) -> bool {
    forall|j: int|
        0 <= j < hs.len() ==> {
            let at = HEADER_SIZE + records(hs.take(j)).len();
            &&& at + 1 + encode_utf8(#[trigger] hs[j].name).len() <= BUFFER_SIZE
            &&& at + 7 + name_len_byte(hs[j]) <= BUFFER_SIZE
        }
}

/// The discovery packets that share `hs`: each carries the header bytes `hb` and the records of
/// the next `hosts_per_packet()` hosts.
#[verifier::opaque]
pub open spec fn discovery_packets(hb: Seq<u8>, hs: Seq<HostView>) -> Seq<Seq<u8>>
    decreases hs.len(),
{
    if hs.len() <= hosts_per_packet() {
        seq![hb + records(hs)]
    } else {
        seq![hb + records(hs.take(hosts_per_packet() as int))] + discovery_packets(
            hb,
            hs.skip(hosts_per_packet() as int),
        )
    }
}

/// Whether every discovery packet for `hs` stays in the buffer.
#[verifier::opaque]
pub open spec fn packets_fit(hs: Seq<HostView>) -> bool
    decreases hs.len(),
{
    if hs.len() <= hosts_per_packet() {
        records_fit(hs)
    } else {
        records_fit(hs.take(hosts_per_packet() as int)) && packets_fit(
            hs.skip(hosts_per_packet() as int),
        )
    }
}

/// The length of a record.
pub proof fn lemma_record_len(h: HostView)
    requires
        is_ip(h.ipaddr),
    ensures
        discovery_record(h).len() == 7 + name_len_byte(h),
{
    assert(ip_octets(h.ipaddr)->Some_0.len() == 4);
}

/// Writes one host's discovery record at `current`; gives the position after it.
/// The whole name is written before the address, which then overwrites its tail.
fn copy_discovery_data(buf: &mut Vec<u8>, current: u16, name: &str, ipaddr: &str, port: u16) -> (r:
    u16)
    requires
        old(buf)@.len() == BUFFER_SIZE,
        is_ip(ipaddr@),
        current + 1 + encode_utf8(name@).len() <= BUFFER_SIZE,
        current + 7 + encode_utf8(name@).len() % 256 <= BUFFER_SIZE,
    ensures
        r == current + 7 + encode_utf8(name@).len() % 256,
        final(buf)@.len() == BUFFER_SIZE,
        final(buf)@.take(r as int) == old(buf)@.take(current as int) + discovery_record(
            HostView { name: name@, ipaddr: ipaddr@, port, num_requests: 0 },
        ),
        forall|j: int|
            r <= j < BUFFER_SIZE ==> #[trigger] final(buf)@[j] == if j < current + 1
                + encode_utf8(name@).len() {
                encode_utf8(name@)[j - current - 1]
            } else {
                old(buf)@[j]
            },
        encode_utf8(name@).len() < 256 ==> final(buf)@.skip(r as int) == old(buf)@.skip(r as int),
{
    let ghost hv = HostView { name: name@, ipaddr: ipaddr@, port, num_requests: 0 };
    let ghost start = buf@;
    let ghost nb = encode_utf8(name@);
    let name_len = (name.len() % 256) as u8;
    let mut current = current;
    buf[current as usize] = name_len;
    current = current + 1;
    copy_str(buf, current as usize, name);
    let ghost s2 = buf@;
    current = current + name_len as u16;
    copy_ip(buf, current as usize, ipaddr);
    current = current + 4;
    copy_u16(buf, current as usize, port);
    current = current + 2;
    proof {
        lemma_record_len(hv);
        let rec = discovery_record(hv);
        let c0 = current - 7 - name_len;
        assert forall|i: int| 0 <= i < current implies #[trigger] buf@[i] == (start.take(
            c0,
        ) + rec)[i] by {
            if i >= c0 + 1 && i < c0 + 1 + name_len {
                assert(s2[i] == nb[i - c0 - 1]);
            }
        }
        assert(buf@.take(current as int) =~= start.take(c0) + rec);
        assert forall|j: int| current <= j < BUFFER_SIZE implies #[trigger] buf@[j] == if j < c0 + 1
            + nb.len() {
            nb[j - c0 - 1]
        } else {
            start[j]
        } by {
            assert(buf@[j] == s2[j]);
        }
        if nb.len() < 256 {
            assert(buf@.skip(current as int) =~= start.skip(current as int));
        }
    }
    current
}

/// The records of `hs` followed by one more host.
pub proof fn lemma_records_push(hs: Seq<HostView>, x: HostView)
    ensures
        records(hs.push(x)) == records(hs) + discovery_record(x),
{
    reveal(records);
    assert(hs.push(x).drop_last() =~= hs);
}

/// No hosts, no records.
pub proof fn lemma_records_empty()
    ensures
        records(Seq::empty()) == Seq::<u8>::empty(),
{
    reveal(records);
}

/// Records of a concatenation are the concatenated records.
pub proof fn lemma_records_append(a: Seq<HostView>, b: Seq<HostView>)
    ensures
        records(a + b) == records(a) + records(b),
    decreases b.len(),
{
    reveal(records);
    if b.len() == 0 {
        assert(a + b =~= a);
        assert(records(a) + records(b) =~= records(a));
    } else {
        assert((a + b).drop_last() =~= a + b.drop_last());
        lemma_records_append(a, b.drop_last());
        assert((a + b).last() == b.last());
        assert(records(a + b) =~= records(a) + records(b));
    }
}

/// The hosts the next discovery packet carries when `hs` remain to be sent.
pub open spec fn next_chunk(hs: Seq<HostView>) -> Seq<HostView> {
    if hs.len() <= hosts_per_packet() {
        hs
    } else {
        hs.take(hosts_per_packet() as int)
    }
}

/// The first discovery packet carries the next chunk; the rest share what remains.
pub proof fn lemma_discovery_packets_unfold(hb: Seq<u8>, hs: Seq<HostView>)
    ensures
        hs.len() <= hosts_per_packet() ==> discovery_packets(hb, hs) == seq![
            hb + records(next_chunk(hs)),
        ],
        hs.len() > hosts_per_packet() ==> discovery_packets(hb, hs) == seq![
            hb + records(next_chunk(hs)),
        ] + discovery_packets(hb, hs.skip(hosts_per_packet() as int)),
        packets_fit(hs) == (records_fit(next_chunk(hs)) && (hs.len() > hosts_per_packet()
            ==> packets_fit(hs.skip(hosts_per_packet() as int)))),
{
    reveal(discovery_packets);
    reveal(packets_fit);
}

/// Fills one discovery packet with hosts from `counter` on, as many as its budget
/// allows; gives the packet and the index of the first host left out.
pub(crate) fn fill_discovery_packet(hosts: &HostTable, header: &Header, counter: usize) -> (r: (
    Vec<u8>,
    usize,
))
    requires
        hosts.inv(),
        counter <= hosts@.len(),
        header_writable(header),
        encode_utf8(header.request@).len() <= BUFFER_SIZE,
        records_fit(next_chunk(hosts@.skip(counter as int))),
    ensures
        r.1 == counter + next_chunk(hosts@.skip(counter as int)).len(),
        r.0@ == header_wire(header) + records(next_chunk(hosts@.skip(counter as int))),
{
    let ghost hs = hosts@;
    let ghost rest = hs.skip(counter as int);
    let ghost chunk = next_chunk(rest);
    let n = hosts.len();
    proof {
        lemma_records_empty();
    }
    let mut buf = zeroed_buffer();
    proof {
        lemma_header_written(buf@, header);
    }
    let mut current: u16 = copy_header(&mut buf, header);
    assert(hs.subrange(counter as int, counter as int) =~= Seq::<HostView>::empty());
    let mut remained_buffer: i32 = USEFUL_BUFFER_SIZE as i32;
    let mut i: usize = counter;
    while i < n
        invariant_except_break
            remained_buffer == USEFUL_BUFFER_SIZE - HOST_BUDGET * (i - counter),
        invariant
            counter <= i <= n,
            n == hs.len(),
            hs == hosts@,
            hosts.inv(),
            rest == hs.skip(counter as int),
            chunk == next_chunk(rest),
            records_fit(chunk),
            i - counter <= chunk.len(),
            buf@.len() == BUFFER_SIZE,
            current <= BUFFER_SIZE,
            current == HEADER_SIZE + records(hs.subrange(counter as int, i as int)).len(),
            buf@.take(current as int) == header_wire(header) + records(
                hs.subrange(counter as int, i as int),
            ),
        ensures
            i - counter == chunk.len(),
            buf@.len() == BUFFER_SIZE,
            current <= BUFFER_SIZE,
            current == HEADER_SIZE + records(hs.subrange(counter as int, i as int)).len(),
            buf@.take(current as int) == header_wire(header) + records(
                hs.subrange(counter as int, i as int),
            ),
        decreases n - i,
    {
        remained_buffer = remained_buffer - HOST_BUDGET as i32;
        if remained_buffer < 0 {
            break;
        }
        let host = hosts.host(i);
        let ghost j: int = i - counter;
        assert(chunk[j] == hs[i as int]);
        assert(chunk.take(j) =~= hs.subrange(counter as int, i as int));
        assert({
            let at = HEADER_SIZE + records(chunk.take(j)).len();
            &&& at + 1 + encode_utf8(chunk[j].name).len() <= BUFFER_SIZE
            &&& at + 7 + name_len_byte(chunk[j]) <= BUFFER_SIZE
        });
        let ghost before = buf@;
        let ghost hv = HostView {
            name: host.name@,
            ipaddr: host.ipaddr@,
            port: host.port,
            num_requests: 0,
        };
        assert(is_ip(hs[i as int].ipaddr));
        current =
        copy_discovery_data(
            &mut buf,
            current,
            host.name.as_str(),
            host.ipaddr.as_str(),
            host.port,
        );
        proof {
            assert(discovery_record(hv) == discovery_record(hs[i as int]));
            assert(hs.subrange(counter as int, i + 1) =~= hs.subrange(
                counter as int,
                i as int,
            ).push(hs[i as int]));
            lemma_records_push(hs.subrange(counter as int, i as int), hs[i as int]);
        }
        i = i + 1;
    }
    assert(hs.subrange(counter as int, i as int) =~= chunk);
    let packet = sent_part(buf, current as usize);
    (packet, i)
}

// ----- reading discovery records -----

/// The hosts named by the discovery records in `data` from `cur` up to `end`; `None`
/// when a record runs past the end of `data` or a name is not UTF-8.
pub open spec fn parse_records(data: Seq<u8>, cur: int, end: int) -> Option<Seq<HostView>>
    decreases (if cur < end { end - cur } else { 0 }),
{
    if cur < 0 || cur >= end {
        Some(Seq::empty())
    } else if cur >= data.len() {
        None
    } else {
        let nl = data[cur] as int;
        if cur + 7 + nl > data.len() {
            None
        } else {
            let name = data.subrange(cur + 1, cur + 1 + nl);
            if !valid_utf8(name) {
                None
            } else {
                match parse_records(data, cur + 7 + nl, end) {
                    Some(rest) => Some(
                        seq![
                            HostView {
                                name: decode_utf8(name),
                                ipaddr: ip_text(data.subrange(cur + 1 + nl, cur + 5 + nl)),
                                port: u16_value(data[cur + 5 + nl], data[cur + 6 + nl]),
                                num_requests: 0,
                            },
                        ] + rest,
                    ),
                    None => None,
                }
            }
        }
    }
}

/// Whether every host in `v` has a dotted-quad address.
pub open spec fn all_addresses(v: Seq<Host>) -> bool {
    forall|i: int| 0 <= i < v.len() ==> is_ip(#[trigger] v[i].ipaddr@)
}

/// Reads the hosts named by the discovery records in `data` from `current` up to `end`.
pub fn parse_discovery(data: &[u8], current: usize, end: usize) -> (r: Option<Vec<Host>>)
    ensures
        match r {
            Some(v) => parse_records(data@, current as int, end as int) == Some(
                v@.map_values(|h: Host| h@),
            ),
            None => parse_records(data@, current as int, end as int) is None,
        },
        r matches Some(v) ==> all_addresses(v@),
{
    let mut found: Vec<Host> = Vec::new();
    let mut cur: usize = current;
    while cur < end
        invariant
            current <= cur,
            parse_records(data@, current as int, end as int) == match parse_records(
                data@,
                cur as int,
                end as int,
            ) {
                Some(rest) => Some(found@.map_values(|h: Host| h@) + rest),
                None => None::<Seq<HostView>>,
            },
            forall|i: int| 0 <= i < found@.len() ==> is_ip(#[trigger] found@[i].ipaddr@),
        decreases (if cur < end { end - cur } else { 0 }),
    {
        if cur >= data.len() {
            return None;
        }
        let nl = data[cur] as usize;
        if nl + 7 > data.len() || cur > data.len() - 7 - nl {
            return None;
        }
        let name = match extract_str(data, cur + 1, cur + 1 + nl) {
            Some(s) => s,
            None => return None,
        };
        let ipaddr = extract_ip(data, cur + 1 + nl);
        let port = extract_u16(data, cur + 5 + nl);
        proof {
            let o = data@.subrange(cur + 1 + nl, cur + 5 + nl);
            lemma_ip_roundtrip(o);
            assert(ipaddr@ == ip_text(o));
            assert(is_ip(ipaddr@));
        }
        let ghost before = found@.map_values(|h: Host| h@);
        let ghost found_before = found@;
        let host = Host::new(name, ipaddr, port);
        let ghost hv = host@;
        found.push(host);
        assert forall|i: int| 0 <= i < found@.len() implies is_ip(#[trigger] found@[i].ipaddr@) by {
            if i < found_before.len() {
                assert(found@[i] == found_before[i]);
                assert(is_ip(found_before[i].ipaddr@));
            } else {
                assert(found@[i].ipaddr@ == hv.ipaddr);
                assert(is_ip(hv.ipaddr));
            }
        }
        assert(found@.map_values(|h: Host| h@) =~= before.push(hv));
        let ghost old_cur = cur as int;
        cur = cur + 7 + nl;
        proof {
            match parse_records(data@, cur as int, end as int) {
                Some(rest) => {
                    assert(before.push(hv) + rest =~= before + (seq![hv] + rest));
                },
                None => {},
            }
        }
    }
    let ghost fv = found@.map_values(|h: Host| h@);
    assert(fv + Seq::<HostView>::empty() =~= fv);
    assert(all_addresses(found@));
    Some(found)
}


// ----- laws of discovery packets -----

/// Records of a sequence are the first host's record, then the records of the rest.
pub proof fn lemma_records_first(hs: Seq<HostView>)
    requires
        hs.len() > 0,
    ensures
        records(hs) == discovery_record(hs[0]) + records(hs.drop_first()),
{
    lemma_records_empty();
    lemma_records_push(Seq::empty(), hs[0]);
    assert(Seq::<HostView>::empty().push(hs[0]) =~= seq![hs[0]]);
    assert(seq![hs[0]] + hs.drop_first() =~= hs);
    lemma_records_append(seq![hs[0]], hs.drop_first());
    assert(Seq::<u8>::empty() + discovery_record(hs[0]) =~= discovery_record(hs[0]));
}

/// A host as a peer learns it from a record: same name and port, its address in
/// canonical dotted-quad text, and no requests counted.
pub open spec fn canonical(h: HostView) -> HostView {
    HostView {
        name: h.name,
        ipaddr: ip_text(ip_octets(h.ipaddr)->Some_0),
        port: h.port,
        num_requests: 0,
    }
}

/// Whether every name in `hs` is shorter than 256 bytes, so that its record holds it whole.
pub open spec fn short_names(hs: Seq<HostView>) -> bool {
    forall|i: int| 0 <= i < hs.len() ==> encode_utf8(#[trigger] hs[i].name).len() < 256
}

/// Whether every address in `hs` is a dotted quad.
pub open spec fn valid_addresses(hs: Seq<HostView>) -> bool {
    forall|i: int| 0 <= i < hs.len() ==> is_ip(#[trigger] hs[i].ipaddr)
}

/// A canonical address names the same octets as the address it came from.
pub proof fn lemma_canonical_address(h: HostView)
    requires
        is_ip(h.ipaddr),
    ensures
        ip_octets(canonical(h).ipaddr) == ip_octets(h.ipaddr),
        is_ip(canonical(h).ipaddr),
{
    lemma_ip_roundtrip(ip_octets(h.ipaddr)->Some_0);
}

proof fn lemma_parse_written_records(data: Seq<u8>, cur: int, hs: Seq<HostView>)
    requires
        0 <= cur,
        cur + records(hs).len() <= data.len(),
        data.subrange(cur, cur + records(hs).len()) == records(hs),
        short_names(hs),
        valid_addresses(hs),
    ensures
        parse_records(data, cur, cur + records(hs).len()) == Some(
            hs.map_values(|h: HostView| canonical(h)),
        ),
    decreases hs.len(),
{
    if hs.len() == 0 {
        lemma_records_empty();
        assert(hs =~= Seq::<HostView>::empty());
        assert(hs.map_values(|h: HostView| canonical(h)) =~= Seq::<HostView>::empty());
    } else {
        let h = hs[0];
        let rest = hs.drop_first();
        lemma_records_first(hs);
        lemma_record_len(h);
        let rec = discovery_record(h);
        let nb = encode_utf8(h.name);
        let nl = nb.len() as int;
        assert(short_names(hs) ==> nl < 256);
        assert(name_len_byte(h) == nl);
        let end = cur + records(hs).len();
        let r = records(rest);
        let whole = records(hs);
        assert(whole == rec + r);
        assert(data[cur] == data.subrange(cur, end)[0]);
        assert(whole[0] == rec[0]);
        assert(data[cur] == rec[0]);
        assert((nl as u8) as int == nl);
        assert(data.subrange(cur + 1, cur + 1 + nl) =~= nb) by {
            assert(nb.take(nl) =~= nb);
            assert forall|k: int| 0 <= k < nl implies data.subrange(cur + 1, cur + 1 + nl)[k]
                == nb[k] by {
                assert(data[cur + 1 + k] == records(hs)[1 + k]);
                assert(records(hs)[1 + k] == rec[1 + k]);
            }
        }
        lemma_str_roundtrip(h.name);
        let o = ip_octets(h.ipaddr)->Some_0;
        assert(o.len() == 4);
        assert(data.subrange(cur + 1 + nl, cur + 5 + nl) =~= o) by {
            assert forall|k: int| 0 <= k < 4 implies data.subrange(cur + 1 + nl, cur + 5 + nl)[k]
                == o[k] by {
                assert(data[cur + 1 + nl + k] == records(hs)[1 + nl + k]);
                assert(records(hs)[1 + nl + k] == rec[1 + nl + k]);
            }
        }
        lemma_u16_roundtrip(h.port);
        assert(data[cur + 5 + nl] == data.subrange(cur, end)[5 + nl]);
        assert(data[cur + 6 + nl] == data.subrange(cur, end)[6 + nl]);
        assert(whole[5 + nl] == rec[5 + nl]);
        assert(whole[6 + nl] == rec[6 + nl]);
        assert(rec[5 + nl] == u16_wire(h.port)[0]);
        assert(rec[6 + nl] == u16_wire(h.port)[1]);
        let next = cur + 7 + nl;
        assert(data.subrange(next, next + r.len()) =~= r) by {
            assert forall|k: int| 0 <= k < r.len() implies data.subrange(next, next + r.len())[k]
                == r[k] by {
                assert(data[next + k] == records(hs)[7 + nl + k]);
            }
        }
        assert(valid_addresses(rest)) by {
            assert forall|i: int| 0 <= i < rest.len() implies is_ip(#[trigger] rest[i].ipaddr) by {
                assert(rest[i] == hs[i + 1]);
            }
        }
        assert(short_names(rest)) by {
            assert forall|i: int| 0 <= i < rest.len() implies encode_utf8(
                #[trigger] rest[i].name,
            ).len() < 256 by {
                assert(rest[i] == hs[i + 1]);
            }
        }
        lemma_parse_written_records(data, next, rest);
        assert(next + r.len() == end);
        assert(cur < end);
        assert(cur < data.len());
        assert(data[cur] as int == nl);
        assert(cur + 7 + nl <= data.len());
        assert(valid_utf8(data.subrange(cur + 1, cur + 1 + nl)));
        assert(u16_value(data[cur + 5 + nl], data[cur + 6 + nl]) == h.port);
        let hv = HostView {
            name: decode_utf8(data.subrange(cur + 1, cur + 1 + nl)),
            ipaddr: ip_text(data.subrange(cur + 1 + nl, cur + 5 + nl)),
            port: u16_value(data[cur + 5 + nl], data[cur + 6 + nl]),
            num_requests: 0,
        };
        assert(hv == canonical(h));
        let rc = rest.map_values(|h: HostView| canonical(h));
        assert(parse_records(data, cur, end) == Some(seq![hv] + rc));
        assert(hs.map_values(|h: HostView| canonical(h)) =~= seq![canonical(h)] + rest.map_values(
            |h: HostView| canonical(h),
        ));
    }
}

/// What a peer reads from a discovery packet (followed by whatever else its buffer holds)
/// are the hosts it shares, in order, with canonical addresses and no requests counted.
pub proof fn lemma_discovery_roundtrip(hb: Seq<u8>, hs: Seq<HostView>, rest: Seq<u8>)
    requires
        hb.len() == HEADER_SIZE,
        short_names(hs),
        valid_addresses(hs),
    ensures
        parse_records(
            hb + records(hs) + rest,
            HEADER_SIZE as int,
            (hb + records(hs)).len() as int,
        ) == Some(hs.map_values(|h: HostView| canonical(h))),
{
    let data = hb + records(hs) + rest;
    assert(data.subrange(16, 16 + records(hs).len() as int) =~= records(hs));
    lemma_parse_written_records(data, 16, hs);
}

/// Discovery packets for hosts carry, after each header, the records of all the hosts in
/// order, the header first in every packet, and no more than `hosts_per_packet()` hosts each.
pub proof fn lemma_discovery_packets_cover(hb: Seq<u8>, hs: Seq<HostView>)
    requires
        hs.len() > 0,
    ensures
        discovery_packets(hb, hs).map_values(|p: Seq<u8>| p.skip(hb.len() as int)).flatten()
            == records(hs),
        forall|k: int|
            0 <= k < discovery_packets(hb, hs).len() ==> (#[trigger] discovery_packets(
                hb,
                hs,
            )[k]).take(hb.len() as int) == hb,
        discovery_packets(hb, hs).len() == (hs.len() + hosts_per_packet() - 1)
            / hosts_per_packet() as int,
    decreases hs.len(),
{
    lemma_discovery_packets_unfold(hb, hs);
    let ps = discovery_packets(hb, hs);
    let first = hb + records(next_chunk(hs));
    assert(first.skip(hb.len() as int) =~= records(next_chunk(hs)));
    assert(first.take(hb.len() as int) =~= hb);
    if hs.len() <= hosts_per_packet() {
        assert(next_chunk(hs) == hs);
        assert(ps.map_values(|p: Seq<u8>| p.skip(hb.len() as int)) =~= seq![records(hs)]);
        seq![records(hs)].lemma_flatten_one_element();
    } else {
        let tail = hs.skip(hosts_per_packet() as int);
        lemma_discovery_packets_cover(hb, tail);
        let rs = discovery_packets(hb, tail);
        assert(ps == seq![first] + rs);
        let m = ps.map_values(|p: Seq<u8>| p.skip(hb.len() as int));
        assert(m.drop_first() =~= rs.map_values(|p: Seq<u8>| p.skip(hb.len() as int)));
        assert(m.first() == records(next_chunk(hs)));
        assert(next_chunk(hs) + tail =~= hs);
        lemma_records_append(next_chunk(hs), tail);
        assert forall|k: int| 0 <= k < ps.len() implies (#[trigger] ps[k]).take(hb.len() as int)
            == hb by {
            if k > 0 {
                assert(ps[k] == rs[k - 1]);
            }
        }
    }
}


/// Whether every discovery packet for the hosts of the table stays in the buffer.
pub fn discovery_fits(hosts: &HostTable) -> (b: bool)
    requires
        hosts.inv(),
    ensures
        b == packets_fit(hosts@),
{
    let ghost hs = hosts@;
    let n = hosts.len();
    let per = USEFUL_BUFFER_SIZE / HOST_BUDGET;
    let mut counter: usize = 0;
    assert(hs.skip(0) =~= hs);
    while counter < n
        invariant
            counter <= n,
            n == hs.len(),
            hs == hosts@,
            hosts.inv(),
            per == hosts_per_packet(),
            packets_fit(hs) == packets_fit(hs.skip(counter as int)),
        decreases n - counter,
    {
        let ghost rest = hs.skip(counter as int);
        let ghost chunk = next_chunk(rest);
        proof {
            lemma_discovery_packets_unfold(Seq::empty(), rest);
            lemma_records_empty();
        }
        let end = if n - counter <= per { n } else { counter + per };
        assert(chunk =~= hs.subrange(counter as int, end as int));
        let mut at: usize = HEADER_SIZE;
        let mut i: usize = counter;
        assert(hs.subrange(counter as int, counter as int) =~= Seq::<HostView>::empty());
        while i < end
            invariant
                counter <= i <= end <= n,
                n == hs.len(),
                hs == hosts@,
                hosts.inv(),
                chunk == hs.subrange(counter as int, end as int),
                !records_fit(chunk) ==> !packets_fit(hs),
                at == HEADER_SIZE + records(hs.subrange(counter as int, i as int)).len(),
                at <= BUFFER_SIZE,
                forall|j: int|
                    0 <= j < i - counter ==> {
                        let a = HEADER_SIZE + records(chunk.take(j)).len();
                        &&& a + 1 + encode_utf8(#[trigger] chunk[j].name).len() <= BUFFER_SIZE
                        &&& a + 7 + name_len_byte(chunk[j]) <= BUFFER_SIZE
                    },
            decreases end - i,
        {
            let host = hosts.host(i);
            let len = host.name.as_str().as_bytes().len();
            let ghost j = i - counter;
            assert(chunk[j] == hs[i as int]);
            assert(chunk.take(j) =~= hs.subrange(counter as int, i as int));
            assert(encode_utf8(chunk[j].name).len() == len);
            if len >= BUFFER_SIZE - at || len % 256 + 7 > BUFFER_SIZE - at {
                assert(HEADER_SIZE + records(chunk.take(j)).len() == at);
                assert(!({
                    let a = HEADER_SIZE + records(chunk.take(j)).len();
                    &&& a + 1 + encode_utf8(chunk[j].name).len() <= BUFFER_SIZE
                    &&& a + 7 + name_len_byte(chunk[j]) <= BUFFER_SIZE
                }));
                assert(!records_fit(chunk));
                return false;
            }
            proof {
                assert(is_ip(hs[i as int].ipaddr));
                lemma_record_len(hs[i as int]);
                assert(hs.subrange(counter as int, i + 1) =~= hs.subrange(
                    counter as int,
                    i as int,
                ).push(hs[i as int]));
                lemma_records_push(hs.subrange(counter as int, i as int), hs[i as int]);
            }
            at = at + 7 + len % 256;
            i = i + 1;
        }
        assert(records_fit(chunk));
        proof {
            if rest.len() > hosts_per_packet() {
                assert(rest.skip(hosts_per_packet() as int) =~= hs.skip(end as int));
            } else {
                assert(end == n);
                lemma_discovery_packets_unfold(Seq::empty(), hs.skip(end as int));
                assert(hs.skip(end as int) =~= Seq::<HostView>::empty());
                assert(next_chunk(hs.skip(end as int)) =~= Seq::<HostView>::empty());
            }
        }
        counter = end;
    }
    proof {
        lemma_discovery_packets_unfold(Seq::empty(), hs.skip(n as int));
        assert(hs.skip(n as int) =~= Seq::<HostView>::empty());
        assert(next_chunk(hs.skip(n as int)) =~= Seq::<HostView>::empty());
    }
    true
}

} // verus!
