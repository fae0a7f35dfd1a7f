//! What a node decides: whom it knows, which files it waits for, what it answers to each
//! datagram, and what it sends. Sockets, threads and files are left to the caller, which
//! hands in what it read and performs what comes back.
use crate::header::{
    header_bytes, header_wire, header_writable, Header,
};
use crate::hosts::{
    has_key, index_of_key, key_of, put_if_absent, table_invariant, Host, HostTable, HostView,
};
use crate::packet::{
    create_file_packet, discovery_packets, file_body, fill_discovery_packet, hosts_per_packet,
    lemma_discovery_packets_unfold, packets_fit, parse_discovery, parse_records,
};
use crate::text::{parse_u16, parse_unsigned, split, split_text, views};
use crate::wire::{extract_str, extract_u16, is_ip, u16_value, u16_wire, BUFFER_SIZE, HEADER_SIZE};
use vstd::prelude::*;
use vstd::utf8::{decode_utf8, encode_utf8, valid_utf8};

verus! {

/// How many file transfers may run at once before requests are turned away
/// (a request is still served while the count equals it).
pub const MAX_CONNECTION: u16 = 20;

/// A datagram to send: where to, and its bytes.
pub struct Datagram {
    pub ipaddr: String,
    pub port: u16,
    pub payload: Vec<u8>,
}

/// The value a `Datagram` stands for.
pub struct DatagramView {
    pub ipaddr: Seq<char>,
    pub port: u16,
    pub payload: Seq<u8>,
}

impl View for Datagram {
    type V = DatagramView;

    open spec fn view(&self) -> DatagramView {
        DatagramView { ipaddr: self.ipaddr@, port: self.port, payload: self.payload@ }
    }
}

/// The views of a sequence of datagrams.
pub open spec fn datagram_views(v: Seq<Datagram>) -> Seq<DatagramView> {
    v.map_values(|d: Datagram| d@)
}

/// A node's state: the hosts it knows, the files it waits for, its own port and address,
/// and how many file transfers it is serving.
pub struct Server {
    pub hosts: HostTable,
    pub requests: Vec<String>,
    pub udp_port: u16,
    pub ipaddr: String,
    pub connection_num: u16,
}

impl Server {
    /// A node listening on the port written in `udp_port`, which must be a port number as
    /// `str::parse::<u16>` reads it.
    pub fn init(udp_port: &str, hosts: HostTable, ipaddr: &str, requests: Vec<String>) -> (s:
        Server)
        requires
            parse_unsigned(udp_port@, 0xffff) is Some,
        ensures
            s.udp_port as nat == parse_unsigned(udp_port@, 0xffff)->Some_0,
            s.hosts@ == hosts@,
            views(s.requests@) == views(requests@),
            s.ipaddr@ == ipaddr@,
            s.connection_num == 0,
    {
        let port = match parse_u16(udp_port) {
            Some(port) => port,
            None => vstd::pervasive::unreached(),
        };
        Server { hosts, requests, udp_port: port, ipaddr: ipaddr.to_owned(), connection_num: 0 }
    }

    /// The receive buffer size offered for a transfer: the datagram buffer size shared out
    /// by the running transfers and by a quarter of the requester's requests.
    pub fn calculate_buffer(cons_num: u16, num_requests: u16) -> (r: u16)
        requires
            cons_num + num_requests / 4 > 0,
            cons_num + num_requests / 4 <= u16::MAX,
        ensures
            r as nat == BUFFER_SIZE as nat / (cons_num + num_requests / 4) as nat,
    {
        BUFFER_SIZE as u16 / (cons_num + num_requests / 4)
    }
}

// ----- discovery -----

/// `s` after each host of `hs` is offered to it in turn.
pub open spec fn merge_hosts(s: Seq<HostView>, hs: Seq<HostView>) -> Seq<HostView>
    decreases hs.len(),
{
    if hs.len() == 0 {
        s
    } else {
        put_if_absent(merge_hosts(s, hs.drop_last()), hs.last())
    }
}

impl Server {
    /// Learns the hosts that a discovery packet names: each one whose address and port the
    /// table does not have yet is added. Gives `false`, and learns nothing, when the records
    /// from `current` up to `end` are malformed.
    pub fn discovery(hosts: &mut HostTable, data: &[u8], current: usize, end: usize) -> (ok: bool)
        requires
            old(hosts).inv(),
        ensures
            final(hosts).inv(),
            ok == (parse_records(data@, current as int, end as int) is Some),
            match parse_records(data@, current as int, end as int) {
                Some(found) => final(hosts)@ == merge_hosts(old(hosts)@, found),
                None => final(hosts)@ == old(hosts)@,
            },
    {
        let found = match parse_discovery(data, current, end) {
            Some(v) => v,
            None => return false,
        };
        let ghost fs = found@.map_values(|h: Host| h@);
        let mut found = found;
        let mut taken: Vec<Host> = Vec::new();
        let ghost start = hosts@;
        // hosts are offered in the order the packet lists them
        let n = found.len();
        let mut i: usize = 0;
        let ghost all = found@;
        assert(fs.take(0) =~= Seq::<HostView>::empty());
        while i < n
            invariant
                i <= n,
                n == all.len(),
                fs == all.map_values(|h: Host| h@),
                found@ == all.skip(i as int),
                hosts.inv(),
                hosts@ == merge_hosts(start, fs.take(i as int)),
                crate::packet::all_addresses(all),
            decreases n - i,
        {
            let host = found.remove(0);
            assert(host == all[i as int]);
            assert(is_ip(all[i as int].ipaddr@));
            assert(found@ =~= all.skip(i + 1));
            let ghost hv = host@;
            hosts.insert_if_absent(host);
            assert(fs.take(i + 1).drop_last() =~= fs.take(i as int));
            assert(fs.take(i + 1).last() == hv);
            i = i + 1;
        }
        assert(fs.take(n as int) =~= fs);
        true
    }
}

// ----- pending requests -----

/// Where `x` first occurs in `s`, if it does.
pub open spec fn first_index(s: Seq<Seq<char>>, x: Seq<char>) -> Option<int> {
    if exists|i: int| 0 <= i < s.len() && s[i] == x {
        Some(
            choose|i: int|
                0 <= i < s.len() && s[i] == x && forall|j: int| 0 <= j < i ==> s[j] != x,
        )
    } else {
        None
    }
}

/// `s` without the first occurrence of `x`, or `s` when `x` does not occur.
pub open spec fn remove_first(s: Seq<Seq<char>>, x: Seq<char>) -> Seq<Seq<char>> {
    match first_index(s, x) {
        Some(i) => s.remove(i),
        None => s,
    }
}

/// Drops the first pending request for `path`, if there is one; tells whether there was.
pub fn forget_request(requests: &mut Vec<String>, path: &str) -> (found: bool)
    ensures
        found == (first_index(views(old(requests)@), path@) is Some),
        views(final(requests)@) == remove_first(views(old(requests)@), path@),
{
    let ghost s = views(requests@);
    let n = requests.len();
    let mut i: usize = 0;
    while i < n
        invariant
            i <= n,
            n == requests@.len(),
            s == views(requests@),
            s == views(old(requests)@),
            forall|j: int| 0 <= j < i ==> s[j] != path@,
        decreases n - i,
    {
        assert(s[i as int] == requests@[i as int]@);
        if crate::text::same_text(requests[i].as_str(), path) {
            proof {
                assert(s[i as int] == path@);
                assert(0 <= i < s.len() && s[i as int] == path@ && forall|j: int|
                    0 <= j < i ==> s[j] != path@);
                let k = choose|k: int|
                    0 <= k < s.len() && s[k] == path@ && forall|j: int|
                        0 <= j < k ==> s[j] != path@;
                if k < i {
                } else if k > i {
                }
                assert(k == i);
            }
            requests.remove(i);
            assert(views(requests@) =~= s.remove(i as int));
            return true;
        }
        i = i + 1;
    }
    false
}

// ----- files -----

/// The last piece of a path, after its final `/`.
pub open spec fn file_name(path: Seq<char>) -> Seq<char> {
    split(path, '/').last()
}

/// Whether one of the `entries` (paths of the files a node shares) names the file `req`.
pub open spec fn has_file(entries: Seq<Seq<char>>, req: Seq<char>) -> bool {
    exists|i: int| 0 <= i < entries.len() && file_name(#[trigger] entries[i]) == req
}

impl Server {
    /// Whether one of the listed paths ends in the file name `req`.
    pub fn find_file(req: &str, entries: &[String]) -> (b: bool)
        ensures
            b == has_file(views(entries@), req@),
    {
        let ghost es = views(entries@);
        let n = entries.len();
        let mut i: usize = 0;
        while i < n
            invariant
                i <= n,
                n == entries@.len(),
                es == views(entries@),
                forall|j: int| 0 <= j < i ==> file_name(#[trigger] es[j]) != req@,
            decreases n - i,
        {
            let pieces = split_text(entries[i].as_str(), '/');
            proof {
                crate::text::lemma_split_nonempty(entries@[i as int]@, '/');
            }
            let last = pieces.len() - 1;
            assert(es[i as int] == entries@[i as int]@);
            assert(pieces@[last as int]@ == file_name(es[i as int]));
            if crate::text::same_text(pieces[last].as_str(), req) {
                return true;
            }
            i = i + 1;
        }
        false
    }
}


// ----- asking for a file -----

/// The request that asks peers for a file.
pub open spec fn get_request() -> Seq<char> {
    seq!['g', 'e', 't']
}

/// The request that answers that a file was found.
pub open spec fn ok_request() -> Seq<char> {
    seq!['O', 'K']
}

/// The request that shares known hosts.
pub open spec fn disc_request() -> Seq<char> {
    seq!['d', 'i', 's', 'c']
}

/// Whether `h` is the node itself, at `ip` and `port`.
pub open spec fn is_self(h: HostView, ip: Seq<char>, port: u16) -> bool {
    h.ipaddr == ip && h.port == port
}

/// Whether `hs` holds a host other than the node itself, at `ip` and `port`.
pub open spec fn asks_someone(hs: Seq<HostView>, ip: Seq<char>, port: u16) -> bool {
    exists|i: int| 0 <= i < hs.len() && !is_self(#[trigger] hs[i], ip, port)
}

/// The datagrams that ask every host of `hs` but the node itself for the file `path`.
pub open spec fn get_datagrams(
    hs: Seq<HostView>,
    path: Seq<char>,
    src_port: u16,
    src_ip: Seq<char>,
) -> Seq<DatagramView>
    decreases hs.len(),
{
    if hs.len() == 0 {
        Seq::empty()
    } else {
        let rest = get_datagrams(hs.drop_last(), path, src_port, src_ip);
        let h = hs.last();
        if is_self(h, src_ip, src_port) {
            rest
        } else {
            rest.push(
                DatagramView {
                    ipaddr: h.ipaddr,
                    port: h.port,
                    payload: header_bytes(get_request(), h.port, src_port, h.ipaddr, src_ip)
                        + file_body(path),
                },
            )
        }
    }
}

proof fn lemma_short_ascii(s: Seq<char>)
    requires
        vstd::utf8::is_ascii_chars(s),
    ensures
        encode_utf8(s).len() == s.len(),
{
    vstd::utf8::is_ascii_chars_encode_utf8(s);
}

impl Server {
    /// Asks every known host but the node itself for the file `path`, and records the
    /// request as pending. Gives the datagrams to send, in table order.
    pub fn get(
        requests: &mut Vec<String>,
        hosts: &HostTable,
        path: &str,
        src_port: u16,
        src_ip: &str,
    ) -> (out: Vec<Datagram>)
        requires
            hosts.inv(),
            asks_someone(hosts@, src_ip@, src_port) ==> is_ip(src_ip@),
            asks_someone(hosts@, src_ip@, src_port) ==> HEADER_SIZE + 2 + encode_utf8(path@).len()
                <= BUFFER_SIZE,
        ensures
            views(final(requests)@) == views(old(requests)@).push(path@),
            datagram_views(out@) == get_datagrams(hosts@, path@, src_port, src_ip@),
    {
        let ghost before = views(requests@);
        requests.push(path.to_owned());
        assert(views(requests@) =~= before.push(path@));
        let ghost hs = hosts@;
        let mut out: Vec<Datagram> = Vec::new();
        let n = hosts.len();
        let mut i: usize = 0;
        proof {
            reveal_strlit("get");
            assert("get"@ =~= get_request());
            lemma_short_ascii(get_request());
            assert(hs.take(0) =~= Seq::<HostView>::empty());
        }
        while i < n
            invariant
                i <= n,
                n == hs.len(),
                hs == hosts@,
                hosts.inv(),
                asks_someone(hs, src_ip@, src_port) ==> is_ip(src_ip@),
                asks_someone(hs, src_ip@, src_port) ==> HEADER_SIZE + 2 + encode_utf8(path@).len()
                    <= BUFFER_SIZE,
                "get"@ == get_request(),
                encode_utf8(get_request()).len() == 3,
                datagram_views(out@) == get_datagrams(hs.take(i as int), path@, src_port, src_ip@),
            decreases n - i,
        {
            let host = hosts.host(i);
            assert(hs.take(i + 1).drop_last() =~= hs.take(i as int));
            assert(hs.take(i + 1).last() == hs[i as int]);
            if host.port == src_port && crate::text::same_text(host.ipaddr.as_str(), src_ip) {
            } else {
                assert(!is_self(hs[i as int], src_ip@, src_port));
                assert(asks_someone(hs, src_ip@, src_port));
                assert(is_ip(hs[i as int].ipaddr));
                let header = Header::new(
                    "get",
                    host.port,
                    src_port,
                    host.ipaddr.as_str(),
                    src_ip,
                );
                let payload = create_file_packet(&header, path);
                let ghost prev = datagram_views(out@);
                let d = Datagram { ipaddr: host.ipaddr.clone(), port: host.port, payload };
                let ghost dv = d@;
                out.push(d);
                assert(datagram_views(out@) =~= prev.push(dv));
            }
            i = i + 1;
        }
        assert(hs.take(n as int) =~= hs);
        out
    }
}

// ----- answers to a found file -----

/// The file name a packet carries from `cur` on: a big-endian byte length, then the
/// name's UTF-8 bytes; `None` when it runs past the data or is not UTF-8.
pub open spec fn packet_name(data: Seq<u8>, cur: int) -> Option<Seq<char>> {
    if cur + 2 > data.len() {
        None
    } else {
        let len = u16_value(data[cur], data[cur + 1]) as int;
        if cur + 2 + len > data.len() {
            None
        } else if !valid_utf8(data.subrange(cur + 2, cur + 2 + len)) {
            None
        } else {
            Some(decode_utf8(data.subrange(cur + 2, cur + 2 + len)))
        }
    }
}

/// The byte length of the name at `cur`.
pub open spec fn packet_name_len(data: Seq<u8>, cur: int) -> int {
    u16_value(data[cur], data[cur + 1]) as int
}

/// Reads the length-prefixed file name at `current`.
fn read_packet_name(data: &[u8], current: usize) -> (r: Option<(String, usize)>)
    ensures
        match r {
            Some((name, len)) => packet_name(data@, current as int) == Some(name@) && len
                == packet_name_len(data@, current as int) && encode_utf8(name@).len() == len
                && current + 2 + len <= data@.len(),
            None => packet_name(data@, current as int) is None,
        },
{
    if current > data.len() || data.len() - current < 2 {
        return None;
    }
    let len = extract_u16(data, current) as usize;
    if data.len() - current - 2 < len {
        return None;
    }
    match extract_str(data, current + 2, current + 2 + len) {
        Some(name) => Some((name, len)),
        None => None,
    }
}

/// What a node does with an answer that a file was found.
pub enum OkOutcome {
    /// The answer is cut short or its name is not UTF-8.
    Malformed,
    /// Nobody waits for that file.
    Unrequested,
    /// Fetch `file` over TCP from the answering node's `tcp_port`, reading `buffer_size`
    /// bytes at a time.
    Fetch { file: String, tcp_port: u16, buffer_size: u16 },
}

impl Server {
    /// Handles an answer that a file was found: the pending request for it is dropped and
    /// the transfer it offers is to be fetched.
    pub fn process_ok(requests: &mut Vec<String>, data: &[u8], current: usize) -> (r: OkOutcome)
        ensures
            match packet_name(data@, current as int) {
                None => r is Malformed && views(final(requests)@) == views(old(requests)@),
                Some(f) => {
                    let at = current + 2 + packet_name_len(data@, current as int);
                    if first_index(views(old(requests)@), f) is None {
                        r is Unrequested && views(final(requests)@) == views(old(requests)@)
                    } else {
                        &&& views(final(requests)@) == remove_first(views(old(requests)@), f)
                        &&& if at + 4 <= data@.len() {
                            r matches OkOutcome::Fetch { file, tcp_port, buffer_size } && file@
                                == f && tcp_port == u16_value(data@[at], data@[at + 1])
                                && buffer_size == u16_value(data@[at + 2], data@[at + 3])
                        } else {
                            r is Malformed
                        }
                    }
                },
            },
    {
        let named = read_packet_name(data, current);
        let (file, len) = match named {
            Some(p) => p,
            None => return OkOutcome::Malformed,
        };
        let _len = data.len();
        if !forget_request(requests, file.as_str()) {
            return OkOutcome::Unrequested;
        }
        let at = current + 2 + len;
        if data.len() < 4 || at > data.len() - 4 {
            return OkOutcome::Malformed;
        }
        let tcp_port = extract_u16(data, at);
        let buffer_size = extract_u16(data, at + 2);
        OkOutcome::Fetch { file, tcp_port, buffer_size }
    }
}


// ----- requests for a file -----

/// Whether a request for a file gets a file packet written in answer: the sender is
/// known, the file's name reads, the node has the file and the name fits a datagram.
pub open spec fn answers_get(
    hosts: Seq<HostView>,
    data: Seq<u8>,
    cur: int,
    header: &Header,
    entries: Seq<Seq<char>>,
) -> bool {
    &&& has_key(hosts, (header.src_ip@, header.src_port))
    &&& packet_name(data, cur) matches Some(f) && has_file(entries, f) && HEADER_SIZE + 2
        + encode_utf8(f).len() <= BUFFER_SIZE
}

/// Whether a transfer is admitted while `count` transfers run.
pub open spec fn admits(count: u16) -> bool {
    count <= MAX_CONNECTION
}

/// The count of running transfers once one more is admitted.
pub open spec fn admitted(count: u16) -> u16 {
    (count + 1) as u16
}

/// The count of running transfers once one ends.
pub open spec fn released(count: u16) -> u16 {
    (count - 1) as u16
}

/// What a node does with a request for a file.
pub enum GetOutcome {
    /// The sender is not a known host.
    UnknownHost,
    /// The request is cut short, its name is not UTF-8, or the answer would not fit a datagram
    /// (when only the port and buffer size no longer fit, the transfer was already counted).
    Malformed,
    /// The node does not have the file.
    NotFound,
    /// Too many transfers are running.
    Busy,
    /// Serve `file` over TCP: send `reply` completed by `ok_reply` with the listening port
    /// and `buffer_size`.
    Serve { file: String, reply: Vec<u8>, buffer_size: u16 },
}

impl Server {
    /// Handles a request for a file: counts it for its sender, looks the file up among the
    /// shared `entries`, and admits a transfer while no more than `MAX_CONNECTION` run.
    pub fn process_get(
        hosts: &mut HostTable,
        connection_num: &mut u16,
        data: &[u8],
        current: usize,
        header: &Header,
        entries: &[String],
    ) -> (r: GetOutcome)
        requires
            old(hosts).inv(),
            answers_get(old(hosts)@, data@, current as int, header, views(entries@))
                ==> header_writable(header),
            has_key(old(hosts)@, (header.src_ip@, header.src_port)) ==> old(hosts)@[index_of_key(
                old(hosts)@,
                (header.src_ip@, header.src_port),
            )].num_requests < u16::MAX,
        ensures
            final(hosts).inv(),
            *old(connection_num) <= MAX_CONNECTION + 1 ==> *final(connection_num) <= MAX_CONNECTION
                + 1,
            ({
                let k = (header.src_ip@, header.src_port);
                if !has_key(old(hosts)@, k) {
                    &&& r is UnknownHost
                    &&& final(hosts)@ == old(hosts)@
                    &&& *final(connection_num) == *old(connection_num)
                } else {
                    let i = index_of_key(old(hosts)@, k);
                    let n = (old(hosts)@[i].num_requests + 1) as u16;
                    &&& final(hosts)@ == old(hosts)@.update(
                        i,
                        HostView { num_requests: n, ..old(hosts)@[i] },
                    )
                    &&& match packet_name(data@, current as int) {
                        None => r is Malformed && *final(connection_num) == *old(connection_num),
                        Some(f) => if !has_file(views(entries@), f) {
                            r is NotFound && *final(connection_num) == *old(connection_num)
                        } else if HEADER_SIZE + 2 + encode_utf8(f).len() > BUFFER_SIZE {
                            r is Malformed && *final(connection_num) == *old(connection_num)
                        } else if !admits(*old(connection_num)) {
                            r is Busy && *final(connection_num) == *old(connection_num)
                        } else if HEADER_SIZE + 2 + encode_utf8(f).len() + 4 > BUFFER_SIZE {
                            r is Malformed && *final(connection_num) == admitted(*old(connection_num))
                        } else {
                            &&& *final(connection_num) == admitted(*old(connection_num))
                            &&& r matches GetOutcome::Serve { file, reply, buffer_size }
                            &&& r->file@ == f
                            &&& r->reply@ == header_bytes(
                                ok_request(),
                                header.src_port,
                                header.dest_port,
                                header.src_ip@,
                                header.dest_ip@,
                            ) + file_body(f)
                            &&& r->buffer_size as nat == BUFFER_SIZE as nat / (
                                *final(connection_num) + n / 4) as nat
                        },
                    }
                }
            }),
    {
        let n = match hosts.record_request(header.src_ip.as_str(), header.src_port) {
            Some(n) => n,
            None => return GetOutcome::UnknownHost,
        };
        let (file, len) = match read_packet_name(data, current) {
            Some(p) => p,
            None => return GetOutcome::Malformed,
        };
        if !Server::find_file(file.as_str(), entries) {
            return GetOutcome::NotFound;
        }
        if len > BUFFER_SIZE - HEADER_SIZE - 2 {
            return GetOutcome::Malformed;
        }
        let resph = Header::new(
            "OK",
            header.src_port,
            header.dest_port,
            header.src_ip.as_str(),
            header.dest_ip.as_str(),
        );
        proof {
            reveal_strlit("OK");
            assert("OK"@ =~= ok_request());
            lemma_short_ascii(ok_request());
        }
        let reply = create_file_packet(&resph, file.as_str());
        if *connection_num > MAX_CONNECTION {
            return GetOutcome::Busy;
        }
        *connection_num = *connection_num + 1;
        let buffer_size = Server::calculate_buffer(*connection_num, n);
        // the port and the buffer size must still fit after the name
        if reply.len() > BUFFER_SIZE - 4 {
            return GetOutcome::Malformed;
        }
        GetOutcome::Serve { file, reply, buffer_size }
    }

    /// Completes the answer to a served request with the port the file is served on and the
    /// receive buffer size offered.
    pub fn ok_reply(reply: Vec<u8>, port: u16, buffer_size: u16) -> (r: Vec<u8>)
        requires
            reply@.len() + 4 <= BUFFER_SIZE,
        ensures
            r@ == reply@ + u16_wire(port) + u16_wire(buffer_size),
    {
        let mut r = reply;
        r.push((port / 256) as u8);
        r.push((port % 256) as u8);
        r.push((buffer_size / 256) as u8);
        r.push((buffer_size % 256) as u8);
        assert(r@ =~= reply@ + u16_wire(port) + u16_wire(buffer_size));
        r
    }

    /// Counts a finished transfer.
    pub fn release_connection(connection_num: &mut u16)
        requires
            *old(connection_num) > 0,
        ensures
            *final(connection_num) == released(*old(connection_num)),
    {
        *connection_num = *connection_num - 1;
    }
}


// ----- sharing known hosts -----

impl Server {
    /// Fills the discovery packets for `header` with the hosts of `hosts`, in table order,
    /// `hosts_per_packet()` hosts per packet. With no host to share, the one packet holds the
    /// header alone; it never fills, so it is the packet that a node sends over and over.
    pub fn send_discovery(hosts: &HostTable, header: &Header) -> (packets: Vec<Vec<u8>>)
        requires
            hosts.inv(),
            header_writable(header),
            encode_utf8(header.request@).len() <= BUFFER_SIZE,
            packets_fit(hosts@),
        ensures
            packets@.map_values(|p: Vec<u8>| p@) == discovery_packets(header_wire(header), hosts@),
    {
        let ghost hs = hosts@;
        let n = hosts.len();
        let mut packets: Vec<Vec<u8>> = Vec::new();
        let mut counter: usize = 0;
        let mut flag = true;
        assert(hs.skip(0) =~= hs);
        let ghost all = discovery_packets(header_wire(header), hs);
        assert(packets@.map_values(|p: Vec<u8>| p@) + all =~= all);
        while flag
            invariant
                n == hs.len(),
                hs == hosts@,
                hosts.inv(),
                header_writable(header),
                encode_utf8(header.request@).len() <= BUFFER_SIZE,
                flag ==> counter <= n,
                flag ==> packets_fit(hs.skip(counter as int)),
                flag ==> packets@.map_values(|p: Vec<u8>| p@) + discovery_packets(
                    header_wire(header),
                    hs.skip(counter as int),
                ) == discovery_packets(header_wire(header), hs),
                !flag ==> packets@.map_values(|p: Vec<u8>| p@) == discovery_packets(
                    header_wire(header),
                    hs,
                ),
            decreases n - counter + (if flag { 1int } else { 0int }),
        {
            let ghost rest = hs.skip(counter as int);
            let ghost before = packets@.map_values(|p: Vec<u8>| p@);
            proof {
                lemma_discovery_packets_unfold(header_wire(header), rest);
            }
            let (packet, next) = fill_discovery_packet(hosts, header, counter);
            let ghost p = packet@;
            packets.push(packet);
            assert(packets@.map_values(|p: Vec<u8>| p@) =~= before.push(p));
            if next == n {
                flag = false;
                assert(rest.len() <= hosts_per_packet());
                assert(discovery_packets(header_wire(header), rest) =~= seq![p]);
                assert(before.push(p) =~= before + discovery_packets(header_wire(header), rest));
            } else {
                assert(rest.len() > hosts_per_packet());
                assert(rest.skip(hosts_per_packet() as int) =~= hs.skip(next as int));
                let ghost hb = header_wire(header);
                assert(before.push(p) + discovery_packets(hb, hs.skip(next as int)) =~= before
                    + discovery_packets(hb, rest));
                counter = next;
            }
        }
        packets
    }
}

/// The datagrams that carry `packets` to the host `h`.
pub open spec fn addressed(h: HostView, packets: Seq<Seq<u8>>) -> Seq<DatagramView> {
    packets.map_values(|p: Seq<u8>| DatagramView { ipaddr: h.ipaddr, port: h.port, payload: p })
}

/// The discovery packets that every host of `hs` but the node itself (at `myaddr` and
/// `udp_p`) is sent, each sharing all the hosts of `all`.
pub open spec fn discovery_datagrams(
    all: Seq<HostView>,
    hs: Seq<HostView>,
    myaddr: Seq<char>,
    udp_p: u16,
) -> Seq<DatagramView>
    decreases hs.len(),
{
    if hs.len() == 0 {
        Seq::empty()
    } else {
        let rest = discovery_datagrams(all, hs.drop_last(), myaddr, udp_p);
        let h = hs.last();
        if is_self(h, myaddr, udp_p) {
            rest
        } else {
            rest + addressed(
                h,
                discovery_packets(
                    header_bytes(disc_request(), h.port, udp_p, h.ipaddr, myaddr),
                    all,
                ),
            )
        }
    }
}

impl Server {
    /// Shares all known hosts with every known host but the node itself.
    /// `None` when some host is to be sent the hosts and they do not fit in discovery packets.
    pub fn start_discovery(hosts: &HostTable, myaddr: &str, udp_p: u16) -> (r: Option<
        Vec<Datagram>,
    >)
        requires
            hosts.inv(),
            asks_someone(hosts@, myaddr@, udp_p) ==> is_ip(myaddr@),
        ensures
            r is None <==> (!packets_fit(hosts@) && exists|i: int|
                0 <= i < hosts@.len() && !is_self(#[trigger] hosts@[i], myaddr@, udp_p)),
            r matches Some(out) ==> datagram_views(out@) == discovery_datagrams(
                hosts@,
                hosts@,
                myaddr@,
                udp_p,
            ),
    {
        let ghost hs = hosts@;
        let fits = crate::packet::discovery_fits(hosts);
        let mut out: Vec<Datagram> = Vec::new();
        let n = hosts.len();
        let mut i: usize = 0;
        proof {
            reveal_strlit("disc");
            assert("disc"@ =~= disc_request());
            lemma_short_ascii(disc_request());
            assert(hs.take(0) =~= Seq::<HostView>::empty());
        }
        while i < n
            invariant
                i <= n,
                n == hs.len(),
                hs == hosts@,
                hosts.inv(),
                asks_someone(hs, myaddr@, udp_p) ==> is_ip(myaddr@),
                fits == packets_fit(hs),
                !fits ==> forall|j: int| 0 <= j < i ==> is_self(#[trigger] hs[j], myaddr@, udp_p),
                "disc"@ == disc_request(),
                encode_utf8(disc_request()).len() == 4,
                datagram_views(out@) == discovery_datagrams(hs, hs.take(i as int), myaddr@, udp_p),
            decreases n - i,
        {
            let host = hosts.host(i);
            assert(hs.take(i + 1).drop_last() =~= hs.take(i as int));
            assert(hs.take(i + 1).last() == hs[i as int]);
            if host.port == udp_p && crate::text::same_text(host.ipaddr.as_str(), myaddr) {
            } else {
                assert(!is_self(hs[i as int], myaddr@, udp_p));
                assert(asks_someone(hs, myaddr@, udp_p));
                if !fits {
                    return None;
                }
                assert(is_ip(hs[i as int].ipaddr));
                let header = Header::new(
                    "disc",
                    host.port,
                    udp_p,
                    host.ipaddr.as_str(),
                    myaddr,
                );
                let packets = Server::send_discovery(hosts, &header);
                let ghost pv = packets@.map_values(|p: Vec<u8>| p@);
                let ghost prev = datagram_views(out@);
                let ghost hv = hs[i as int];
                let m = packets.len();
                let mut j: usize = 0;
                while j < m
                    invariant
                        j <= m,
                        m == packets@.len(),
                        pv == packets@.map_values(|p: Vec<u8>| p@),
                        host@ == hv,
                        datagram_views(out@) == prev + addressed(hv, pv.take(j as int)),
                    decreases m - j,
                {
                    let d = Datagram {
                        ipaddr: host.ipaddr.clone(),
                        port: host.port,
                        payload: packets[j].clone(),
                    };
                    let ghost dv = d@;
                    let ghost before = datagram_views(out@);
                    out.push(d);
                    assert(datagram_views(out@) =~= before.push(dv));
                    assert(addressed(hv, pv.take(j + 1)) =~= addressed(hv, pv.take(j as int)).push(
                        dv,
                    ));
                    j = j + 1;
                }
                assert(pv.take(m as int) =~= pv);
            }
            i = i + 1;
        }
        assert(hs.take(n as int) =~= hs);
        Some(out)
    }
}

// ----- starting a node -----

/// The address every node runs on.
pub open spec fn local_ip() -> Seq<char> {
    seq!['1', '2', '7', '.', '0', '.', '0', '.', '1']
}

/// `s` after each host of `hs` is put in it in turn.
pub open spec fn put_all(s: Seq<HostView>, hs: Seq<HostView>) -> Seq<HostView>
    decreases hs.len(),
{
    if hs.len() == 0 {
        s
    } else {
        crate::hosts::put(put_all(s, hs.drop_last()), hs.last())
    }
}

/// The hosts a node starts with: none without a hosts file, else those the file lists,
/// put in the table line by line (a later line replaces an earlier one with its key).
pub open spec fn initial_hosts(hosts_content: Option<Seq<char>>) -> Seq<HostView> {
    match hosts_content {
        None => Seq::empty(),
        Some(c) => put_all(Seq::empty(), crate::hosts::hosts_file(c)->Some_0),
    }
}

/// Starts a node on the local address and the port written in `port`, knowing the hosts
/// that `hosts_content` (the hosts file, if one is given) lists; gives the node and the
/// header of its first discovery, to port 8000 from port 8080, both on the local address.
pub fn start(port: &str, hosts_content: Option<&str>) -> (r: (Server, Header))
    requires
        parse_unsigned(port@, 0xffff) is Some,
        hosts_content matches Some(c) ==> {
            &&& crate::hosts::hosts_file(c@) is Some
            &&& crate::packet::valid_addresses(crate::hosts::hosts_file(c@)->Some_0)
        },
    ensures
        r.0.udp_port as nat == parse_unsigned(port@, 0xffff)->Some_0,
        r.0.ipaddr@ == local_ip(),
        views(r.0.requests@) == Seq::<Seq<char>>::empty(),
        r.0.connection_num == 0,
        r.0.hosts.inv(),
        r.0.hosts@ == initial_hosts(
            match hosts_content {
                Some(c) => Some(c@),
                None => None,
            },
        ),
        r.1.request@ == disc_request(),
        r.1.dest_port == 8000,
        r.1.src_port == 8080,
        r.1.dest_ip@ == local_ip(),
        r.1.src_ip@ == local_ip(),
{
    proof {
        reveal_strlit("disc");
        reveal_strlit("127.0.0.1");
        assert("disc"@ =~= disc_request());
        assert("127.0.0.1"@ =~= local_ip());
    }
    let mut table = HostTable::new();
    match hosts_content {
        Some(content) => {
            let listed = crate::hosts::parse_hosts(content);
            let ghost all = listed@;
            let ghost fs = all.map_values(|h: Host| h@);
            let mut rest = listed;
            let n = rest.len();
            let mut i: usize = 0;
            assert(fs.take(0) =~= Seq::<HostView>::empty());
            while i < n
                invariant
                    i <= n,
                    n == all.len(),
                    fs == all.map_values(|h: Host| h@),
                    crate::packet::valid_addresses(fs),
                    rest@ == all.skip(i as int),
                    table.inv(),
                    table@ == put_all(Seq::empty(), fs.take(i as int)),
                decreases n - i,
            {
                let host = rest.remove(0);
                assert(host == all[i as int]);
                assert(rest@ =~= all.skip(i + 1));
                assert(fs[i as int] == host@);
                assert(is_ip(fs[i as int].ipaddr));
                let ghost hv = host@;
                table.insert(host);
                assert(fs.take(i + 1).drop_last() =~= fs.take(i as int));
                assert(fs.take(i + 1).last() == hv);
                i = i + 1;
            }
            assert(fs.take(n as int) =~= fs);
        },
        None => {},
    }
    let requests: Vec<String> = Vec::new();
    assert(views(requests@) =~= Seq::<Seq<char>>::empty());
    let server = Server::init(port, table, "127.0.0.1", requests);
    let discovery = Header::new("disc", 8000, 8080, "127.0.0.1", "127.0.0.1");
    (server, discovery)
}

// ----- laws of discovery -----

/// Offering hosts never drops or changes a known host: the old table is a prefix of the new.
pub proof fn lemma_merge_keeps(s: Seq<HostView>, hs: Seq<HostView>)
    ensures
        merge_hosts(s, hs).len() >= s.len(),
        merge_hosts(s, hs).take(s.len() as int) == s,
    decreases hs.len(),
{
    if hs.len() == 0 {
        assert(s.take(s.len() as int) =~= s);
    } else {
        lemma_merge_keeps(s, hs.drop_last());
        let t = merge_hosts(s, hs.drop_last());
        if !has_key(t, key_of(hs.last())) {
            assert(t.push(hs.last()).take(s.len() as int) =~= t.take(s.len() as int));
        }
    }
}

/// After hosts are offered, the table has a key exactly when it had it before or one of
/// the offered hosts has it.
pub proof fn lemma_merge_keys(s: Seq<HostView>, hs: Seq<HostView>, k: (Seq<char>, u16))
    ensures
        has_key(merge_hosts(s, hs), k) <==> (has_key(s, k) || exists|i: int|
            0 <= i < hs.len() && key_of(#[trigger] hs[i]) == k),
    decreases hs.len(),
{
    if hs.len() > 0 {
        let prev = hs.drop_last();
        lemma_merge_keys(s, prev, k);
        let t = merge_hosts(s, prev);
        let h = hs.last();
        if has_key(t, key_of(h)) {
        } else {
            let u = t.push(h);
            if has_key(t, k) {
                let j = choose|j: int| 0 <= j < t.len() && key_of(#[trigger] t[j]) == k;
                assert(u[j] == t[j]);
            }
            if key_of(h) == k {
                assert(u[t.len() as int] == h);
            }
            if has_key(u, k) && key_of(h) != k {
                let j = choose|j: int| 0 <= j < u.len() && key_of(#[trigger] u[j]) == k;
                assert(j < t.len());
                assert(t[j] == u[j]);
            }
        }
        if exists|i: int| 0 <= i < prev.len() && key_of(#[trigger] prev[i]) == k {
            let i = choose|i: int| 0 <= i < prev.len() && key_of(#[trigger] prev[i]) == k;
            assert(hs[i] == prev[i]);
        }
        if exists|i: int| 0 <= i < hs.len() && key_of(#[trigger] hs[i]) == k {
            let i = choose|i: int| 0 <= i < hs.len() && key_of(#[trigger] hs[i]) == k;
            if i < prev.len() {
                assert(prev[i] == hs[i]);
            }
        }
    }
}

/// Offering hosts with dotted-quad addresses keeps a table's invariant.
pub proof fn lemma_merge_invariant(s: Seq<HostView>, hs: Seq<HostView>)
    requires
        table_invariant(s),
        crate::packet::valid_addresses(hs),
    ensures
        table_invariant(merge_hosts(s, hs)),
    decreases hs.len(),
{
    if hs.len() > 0 {
        let prev = hs.drop_last();
        assert(crate::packet::valid_addresses(prev)) by {
            assert forall|i: int| 0 <= i < prev.len() implies is_ip(#[trigger] prev[i].ipaddr) by {
                assert(prev[i] == hs[i]);
            }
        }
        lemma_merge_invariant(s, prev);
        let t = merge_hosts(s, prev);
        let h = hs.last();
        assert(is_ip(hs[hs.len() - 1].ipaddr));
        if !has_key(t, key_of(h)) {
            let u = t.push(h);
            assert forall|i: int, j: int|
                0 <= i < u.len() && 0 <= j < u.len() && i != j implies key_of(#[trigger] u[i])
                != key_of(#[trigger] u[j]) by {
                if i == t.len() {
                    assert(u[j] == t[j]);
                } else if j == t.len() {
                    assert(u[i] == t[i]);
                } else {
                    assert(u[i] == t[i] && u[j] == t[j]);
                }
            }
            assert forall|i: int| 0 <= i < u.len() implies is_ip(#[trigger] u[i].ipaddr) by {
                if i < t.len() {
                    assert(u[i] == t[i]);
                }
            }
        }
    }
}

proof fn lemma_merge_known(t: Seq<HostView>, hs: Seq<HostView>)
    requires
        forall|i: int| 0 <= i < hs.len() ==> has_key(t, key_of(#[trigger] hs[i])),
    ensures
        merge_hosts(t, hs) == t,
    decreases hs.len(),
{
    if hs.len() > 0 {
        let prev = hs.drop_last();
        assert forall|i: int| 0 <= i < prev.len() implies has_key(
            t,
            key_of(#[trigger] prev[i]),
        ) by {
            assert(prev[i] == hs[i]);
        }
        lemma_merge_known(t, prev);
        assert(has_key(t, key_of(hs[hs.len() - 1])));
    }
}

/// Learning the same hosts twice is learning them once.
pub proof fn lemma_merge_idempotent(s: Seq<HostView>, hs: Seq<HostView>)
    ensures
        merge_hosts(merge_hosts(s, hs), hs) == merge_hosts(s, hs),
{
    let t = merge_hosts(s, hs);
    assert forall|i: int| 0 <= i < hs.len() implies has_key(t, key_of(#[trigger] hs[i])) by {
        lemma_merge_keys(s, hs, key_of(hs[i]));
    }
    lemma_merge_known(t, hs);
}

// ----- laws of pending requests -----

proof fn lemma_first_index_exists(s: Seq<Seq<char>>, x: Seq<char>, k: int)
    requires
        0 <= k < s.len(),
        s[k] == x,
    ensures
        exists|i: int| 0 <= i < s.len() && s[i] == x && forall|j: int| 0 <= j < i ==> s[j] != x,
    decreases k,
{
    if exists|j: int| 0 <= j < k && s[j] == x {
        let j = choose|j: int| 0 <= j < k && s[j] == x;
        lemma_first_index_exists(s, x, j);
    } else {
        assert(0 <= k < s.len() && s[k] == x && forall|j: int| 0 <= j < k ==> s[j] != x);
    }
}

/// Dropping the first pending request for `x` takes one `x` out of the pending multiset.
pub proof fn lemma_remove_first_multiset(s: Seq<Seq<char>>, x: Seq<char>)
    ensures
        remove_first(s, x).to_multiset() == s.to_multiset().remove(x),
{
    broadcast use vstd::seq_lib::group_to_multiset_ensures;

    if exists|i: int| 0 <= i < s.len() && s[i] == x {
        let k = choose|i: int| 0 <= i < s.len() && s[i] == x;
        lemma_first_index_exists(s, x, k);
        let i = first_index(s, x)->Some_0;
        assert(s[i] == x);
    } else {
        assert(!s.contains(x));
        assert(s.to_multiset().count(x) == 0);
        assert(s.to_multiset().remove(x) =~= s.to_multiset());
    }
}

/// A request made and then given up leaves the pending requests as they were, as a multiset;
/// giving it up finds a pending entry for the path, the first one.
pub proof fn lemma_get_then_forget(s: Seq<Seq<char>>, path: Seq<char>)
    ensures
        first_index(s.push(path), path) is Some,
        remove_first(s.push(path), path).to_multiset() == s.to_multiset(),
{
    lemma_first_index_exists(s.push(path), path, s.len() as int);
    broadcast use vstd::seq_lib::group_to_multiset_ensures;

    lemma_remove_first_multiset(s.push(path), path);
    assert(s.push(path).to_multiset() =~= s.to_multiset().insert(path));
    assert(s.to_multiset().insert(path).remove(path) =~= s.to_multiset());
}


// ----- laws of requests and answers on the wire -----

/// The three requests nodes send come back unchanged through the request field, and are
/// told apart.
pub proof fn lemma_requests_survive()
    ensures
        crate::header::request_survives(get_request()),
        crate::header::request_survives(disc_request()),
        crate::header::request_survives(ok_request()),
        crate::header::request_kind(get_request()) == crate::header::RequestKind::Get,
        crate::header::request_kind(disc_request()) == crate::header::RequestKind::Discovery,
        crate::header::request_kind(ok_request()) == crate::header::RequestKind::Found,
{
    lemma_short_ascii(get_request());
    lemma_short_ascii(disc_request());
    lemma_short_ascii(ok_request());
    crate::text::lemma_without_nul_id(get_request());
    crate::text::lemma_without_nul_id(disc_request());
    crate::text::lemma_without_nul_id(ok_request());
}

/// The name that a file packet carries is read back, whatever follows it.
#[verifier::spinoff_prover]
proof fn lemma_name_read_back(hb: Seq<u8>, name: Seq<char>, tail: Seq<u8>)
    requires
        hb.len() == HEADER_SIZE,
        encode_utf8(name).len() <= u16::MAX,
    ensures
        packet_name(hb + file_body(name) + tail, HEADER_SIZE as int) == Some(name),
        packet_name_len(hb + file_body(name) + tail, HEADER_SIZE as int) == encode_utf8(name).len(),
{
    let b = encode_utf8(name);
    let l = b.len() as int;
    let w = u16_wire(l as u16);
    crate::wire::lemma_str_roundtrip(name);
    crate::wire::lemma_u16_roundtrip(l as u16);
    let fb = file_body(name);
    assert(fb == w + b);
    assert(fb.len() == 2 + l);
    let d = hb + fb + tail;
    assert(d[16] == fb[0] && d[17] == fb[1]);
    assert(fb[0] == w[0] && fb[1] == w[1]);
    assert(u16_value(d[16], d[17]) == l);
    assert(d.subrange(18, 18 + l) =~= b);
    assert(valid_utf8(d.subrange(18, 18 + l)));
    assert(decode_utf8(d.subrange(18, 18 + l)) == name);
}

/// Two ports written one after the other are read back after `prefix`.
#[verifier::spinoff_prover]
proof fn lemma_ports_read_back(prefix: Seq<u8>, port: u16, buffer_size: u16, rest: Seq<u8>)
    ensures
        ({
            let d = prefix + u16_wire(port) + u16_wire(buffer_size) + rest;
            let at = prefix.len() as int;
            &&& u16_value(d[at], d[at + 1]) == port
            &&& u16_value(d[at + 2], d[at + 3]) == buffer_size
        }),
{
    crate::wire::lemma_u16_roundtrip(port);
    crate::wire::lemma_u16_roundtrip(buffer_size);
    let d = prefix + u16_wire(port) + u16_wire(buffer_size) + rest;
    let at = prefix.len() as int;
    assert(d[at] == u16_wire(port)[0] && d[at + 1] == u16_wire(port)[1]);
    assert(d[at + 2] == u16_wire(buffer_size)[0] && d[at + 3] == u16_wire(buffer_size)[1]);
}

/// The file name a packet carries is read back from it: after any sixteen header bytes,
/// the length-prefixed name, then whatever follows. For an answer to a request, what
/// follows is the port and buffer size, which are read back too.
#[verifier::spinoff_prover]
pub proof fn lemma_file_packet_roundtrip(
    hb: Seq<u8>,
    name: Seq<char>,
    port: u16,
    buffer_size: u16,
    rest: Seq<u8>,
)
    requires
        hb.len() == HEADER_SIZE,
        encode_utf8(name).len() <= u16::MAX,
    ensures
        packet_name(hb + file_body(name) + rest, HEADER_SIZE as int) == Some(name),
        packet_name_len(hb + file_body(name) + rest, HEADER_SIZE as int) == encode_utf8(name).len(),
        ({
            let data = hb + file_body(name) + u16_wire(port) + u16_wire(buffer_size) + rest;
            let at = HEADER_SIZE + 2 + encode_utf8(name).len();
            &&& packet_name(data, HEADER_SIZE as int) == Some(name)
            &&& u16_value(data[at], data[at + 1]) == port
            &&& u16_value(data[at + 2], data[at + 3]) == buffer_size
        }),
{
    lemma_name_read_back(hb, name, rest);
    let tail = u16_wire(port) + u16_wire(buffer_size) + rest;
    lemma_name_read_back(hb, name, tail);
    let prefix = hb + file_body(name);
    assert(prefix + u16_wire(port) + u16_wire(buffer_size) + rest =~= prefix + tail);
    lemma_ports_read_back(prefix, port, buffer_size, rest);
}

/// Whether no two hosts of `hs` have the same key.
pub open spec fn distinct_keys(hs: Seq<HostView>) -> bool {
    forall|i: int, j: int|
        0 <= i < hs.len() && 0 <= j < hs.len() && i != j ==> key_of(#[trigger] hs[i]) != key_of(
            #[trigger] hs[j],
        )
}

/// Every host that offering adds is one of the offered hosts, as it was offered.
pub proof fn lemma_merge_new_from(s: Seq<HostView>, hs: Seq<HostView>)
    ensures
        forall|j: int|
            s.len() <= j < merge_hosts(s, hs).len() ==> exists|i: int|
                0 <= i < hs.len() && #[trigger] merge_hosts(s, hs)[j] == hs[i],
    decreases hs.len(),
{
    if hs.len() > 0 {
        let prev = hs.drop_last();
        lemma_merge_new_from(s, prev);
        let t = merge_hosts(s, prev);
        let m = merge_hosts(s, hs);
        assert forall|j: int| s.len() <= j < m.len() implies exists|i: int|
            0 <= i < hs.len() && #[trigger] m[j] == hs[i] by {
            if j < t.len() {
                assert(m[j] == t[j]);
                let i = choose|i: int| 0 <= i < prev.len() && t[j] == prev[i];
                assert(hs[i] == prev[i]);
            } else {
                assert(m[j] == hs[hs.len() - 1]);
            }
        }
    }
}

/// When the offered hosts have distinct keys, each one whose key the table lacked is added
/// as it was offered.
pub proof fn lemma_merge_adds(s: Seq<HostView>, hs: Seq<HostView>, i: int)
    requires
        distinct_keys(hs),
        0 <= i < hs.len(),
        !has_key(s, key_of(hs[i])),
    ensures
        exists|j: int|
            s.len() <= j < merge_hosts(s, hs).len() && #[trigger] merge_hosts(s, hs)[j] == hs[i],
    decreases hs.len(),
{
    let prev = hs.drop_last();
    let t = merge_hosts(s, prev);
    let m = merge_hosts(s, hs);
    lemma_merge_keeps(s, prev);
    if i < hs.len() - 1 {
        assert(distinct_keys(prev)) by {
            assert forall|a: int, b: int|
                0 <= a < prev.len() && 0 <= b < prev.len() && a != b implies key_of(
                #[trigger] prev[a],
            ) != key_of(#[trigger] prev[b]) by {
                assert(prev[a] == hs[a] && prev[b] == hs[b]);
            }
        }
        assert(prev[i] == hs[i]);
        lemma_merge_adds(s, prev, i);
        let j = choose|j: int| s.len() <= j < t.len() && #[trigger] t[j] == prev[i];
        assert(m[j] == t[j]);
    } else {
        lemma_merge_keys(s, prev, key_of(hs[i]));
        if exists|k: int| 0 <= k < prev.len() && key_of(#[trigger] prev[k]) == key_of(hs[i]) {
            let k = choose|k: int| 0 <= k < prev.len() && key_of(#[trigger] prev[k]) == key_of(hs[i]);
            assert(prev[k] == hs[k]);
        }
        assert(!has_key(t, key_of(hs[i])));
        assert(m[t.len() as int] == hs[i]);
    }
}

/// A node that receives a discovery packet learns every host the packet shares (under its
/// canonical address), and keeps every host it knew. Every host it adds is a shared host
/// with its name and port; when the shared hosts' keys are distinct, each one it did not
/// know is added so.
pub proof fn lemma_discovery_learns_shared_hosts(
    known: Seq<HostView>,
    hb: Seq<u8>,
    shared: Seq<HostView>,
    rest: Seq<u8>,
)
    requires
        hb.len() == HEADER_SIZE,
        crate::packet::short_names(shared),
        crate::packet::valid_addresses(shared),
    ensures
        ({
            let data = hb + crate::packet::records(shared) + rest;
            let end = (hb + crate::packet::records(shared)).len() as int;
            &&& parse_records(data, HEADER_SIZE as int, end) is Some
            &&& forall|i: int|
                0 <= i < shared.len() ==> has_key(
                    merge_hosts(known, parse_records(data, HEADER_SIZE as int, end)->Some_0),
                    key_of(crate::packet::canonical(#[trigger] shared[i])),
                )
            &&& merge_hosts(known, parse_records(data, HEADER_SIZE as int, end)->Some_0).take(
                known.len() as int,
            ) == known
            &&& forall|j: int|
                known.len() <= j < merge_hosts(
                    known,
                    parse_records(data, HEADER_SIZE as int, end)->Some_0,
                ).len() ==> exists|i: int|
                    0 <= i < shared.len() && #[trigger] merge_hosts(
                        known,
                        parse_records(data, HEADER_SIZE as int, end)->Some_0,
                    )[j] == crate::packet::canonical(shared[i])
            &&& distinct_keys(shared.map_values(|h: HostView| crate::packet::canonical(h)))
                ==> forall|i: int|
                0 <= i < shared.len() && !has_key(
                    known,
                    key_of(crate::packet::canonical(#[trigger] shared[i])),
                ) ==> exists|j: int|
                    known.len() <= j < merge_hosts(
                        known,
                        parse_records(data, HEADER_SIZE as int, end)->Some_0,
                    ).len() && merge_hosts(
                        known,
                        parse_records(data, HEADER_SIZE as int, end)->Some_0,
                    )[j] == crate::packet::canonical(shared[i])
        }),
{
    crate::packet::lemma_discovery_roundtrip(hb, shared, rest);
    let data = hb + crate::packet::records(shared) + rest;
    let end = (hb + crate::packet::records(shared)).len() as int;
    let found = parse_records(data, HEADER_SIZE as int, end)->Some_0;
    assert(found == shared.map_values(|h: HostView| crate::packet::canonical(h)));
    assert forall|i: int| 0 <= i < shared.len() implies has_key(
        merge_hosts(known, found),
        key_of(crate::packet::canonical(#[trigger] shared[i])),
    ) by {
        assert(found[i] == crate::packet::canonical(shared[i]));
        lemma_merge_keys(known, found, key_of(crate::packet::canonical(shared[i])));
    }
    lemma_merge_keeps(known, found);
    lemma_merge_new_from(known, found);
    let m = merge_hosts(known, found);
    assert forall|j: int| known.len() <= j < m.len() implies exists|i: int|
        0 <= i < shared.len() && #[trigger] m[j] == crate::packet::canonical(shared[i]) by {
        let i = choose|i: int| 0 <= i < found.len() && m[j] == found[i];
        assert(found[i] == crate::packet::canonical(shared[i]));
    }
    if distinct_keys(found) {
        assert forall|i: int|
            0 <= i < shared.len() && !has_key(
                known,
                key_of(crate::packet::canonical(#[trigger] shared[i])),
            ) implies exists|j: int|
            known.len() <= j < m.len() && m[j] == crate::packet::canonical(shared[i]) by {
            assert(found[i] == crate::packet::canonical(shared[i]));
            lemma_merge_adds(known, found, i);
        }
    }
}


// ----- laws of running transfers -----

/// A transfer is admitted only from a count of at most `MAX_CONNECTION`; admitting it and
/// then releasing it gives the count back, and a count of at most `MAX_CONNECTION + 1`
/// stays so. A count is turned away only at `MAX_CONNECTION + 1`.
pub proof fn lemma_admit_then_release(count: u16)
    requires
        count <= MAX_CONNECTION + 1,
    ensures
        admits(count) ==> admitted(count) <= MAX_CONNECTION + 1 && released(admitted(count))
            == count,
        !admits(count) ==> count == MAX_CONNECTION + 1,
{
}


// ----- laws of whom a node addresses -----

/// The datagram that asks the host `h` for the file `path` on behalf of the node at
/// `src_ip` and `src_port`.
pub open spec fn get_datagram_for(
    h: HostView,
    path: Seq<char>,
    src_port: u16,
    src_ip: Seq<char>,
) -> DatagramView {
    DatagramView {
        ipaddr: h.ipaddr,
        port: h.port,
        payload: header_bytes(seq!['g', 'e', 't'], h.port, src_port, h.ipaddr, src_ip) + file_body(
            path,
        ),
    }
}

proof fn lemma_get_datagrams_unfold(hs: Seq<HostView>, path: Seq<char>, src_port: u16, src_ip: Seq<char>)
    requires
        hs.len() > 0,
    ensures
        !(hs.last().ipaddr == src_ip && hs.last().port == src_port) ==> get_datagrams(
            hs,
            path,
            src_port,
            src_ip,
        ) == get_datagrams(hs.drop_last(), path, src_port, src_ip).push(
            get_datagram_for(hs.last(), path, src_port, src_ip),
        ),
        (hs.last().ipaddr == src_ip && hs.last().port == src_port) ==> get_datagrams(
            hs,
            path,
            src_port,
            src_ip,
        ) == get_datagrams(hs.drop_last(), path, src_port, src_ip),
{
    assert(get_request() == seq!['g', 'e', 't']);
}

#[verifier::spinoff_prover]
proof fn lemma_get_reaches_others(hs: Seq<HostView>, path: Seq<char>, src_port: u16, src_ip: Seq<char>)
    ensures
        forall|i: int|
            0 <= i < hs.len() && !((#[trigger] hs[i]).ipaddr == src_ip && hs[i].port == src_port)
                ==> get_datagrams(hs, path, src_port, src_ip).contains(
                get_datagram_for(hs[i], path, src_port, src_ip),
            ),
    decreases hs.len(),
{
    if hs.len() > 0 {
        let p = hs.drop_last();
        lemma_get_reaches_others(p, path, src_port, src_ip);
        lemma_get_datagrams_unfold(hs, path, src_port, src_ip);
        let r = get_datagrams(p, path, src_port, src_ip);
        let g = get_datagrams(hs, path, src_port, src_ip);
        assert forall|i: int|
            0 <= i < hs.len() && !((#[trigger] hs[i]).ipaddr == src_ip && hs[i].port == src_port)
                implies g.contains(get_datagram_for(hs[i], path, src_port, src_ip)) by {
            if i < hs.len() - 1 {
                assert(hs[i] == p[i]);
                let d = get_datagram_for(p[i], path, src_port, src_ip);
                let j = choose|j: int| 0 <= j < r.len() && r[j] == d;
                assert(g[j] == r[j]);
            } else {
                assert(g[r.len() as int] == get_datagram_for(hs.last(), path, src_port, src_ip));
            }
        }
    }
}

#[verifier::spinoff_prover]
proof fn lemma_get_reaches_only_others(
    hs: Seq<HostView>,
    path: Seq<char>,
    src_port: u16,
    src_ip: Seq<char>,
)
    ensures
        forall|j: int|
            #![trigger get_datagrams(hs, path, src_port, src_ip)[j]]
            0 <= j < get_datagrams(hs, path, src_port, src_ip).len() ==> exists|i: int|
                #![trigger hs[i]]
                0 <= i < hs.len() && !(hs[i].ipaddr == src_ip && hs[i].port == src_port)
                    && get_datagrams(hs, path, src_port, src_ip)[j] == get_datagram_for(
                    hs[i],
                    path,
                    src_port,
                    src_ip,
                ),
    decreases hs.len(),
{
    if hs.len() > 0 {
        let p = hs.drop_last();
        lemma_get_reaches_only_others(p, path, src_port, src_ip);
        lemma_get_datagrams_unfold(hs, path, src_port, src_ip);
        let r = get_datagrams(p, path, src_port, src_ip);
        assert forall|j: int|
            #![trigger get_datagrams(hs, path, src_port, src_ip)[j]]
            0 <= j < get_datagrams(hs, path, src_port, src_ip).len() implies exists|i: int|
            #![trigger hs[i]]
            0 <= i < hs.len() && !(hs[i].ipaddr == src_ip && hs[i].port == src_port)
                && get_datagrams(hs, path, src_port, src_ip)[j] == get_datagram_for(
                hs[i],
                path,
                src_port,
                src_ip,
            ) by {
            if j < r.len() {
                assert(get_datagrams(hs, path, src_port, src_ip)[j] == r[j]);
                let i = choose|i: int|
                    #![trigger p[i]]
                    0 <= i < p.len() && !(p[i].ipaddr == src_ip && p[i].port == src_port) && r[j]
                        == get_datagram_for(p[i], path, src_port, src_ip);
                assert(hs[i] == p[i]);
            } else {
                assert(hs[hs.len() - 1] == hs.last());
            }
        }
    }
}

#[verifier::spinoff_prover]
proof fn lemma_get_count(hs: Seq<HostView>, path: Seq<char>, src_port: u16, src_ip: Seq<char>)
    ensures
        get_datagrams(hs, path, src_port, src_ip).len() == hs.filter(
            |x: HostView| !(x.ipaddr == src_ip && x.port == src_port),
        ).len(),
    decreases hs.len(),
{
    reveal(Seq::filter);
    if hs.len() > 0 {
        let p = hs.drop_last();
        lemma_get_count(p, path, src_port, src_ip);
        lemma_get_datagrams_unfold(hs, path, src_port, src_ip);
        let keep = |x: HostView| !(x.ipaddr == src_ip && x.port == src_port);
        assert(hs.filter(keep) == if keep(hs.last()) {
            p.filter(keep).push(hs.last())
        } else {
            p.filter(keep)
        });
    }
}

/// `get` asks every known host but the node itself, and only those: the node itself is the
/// host with both its address and its port. Each host other than the node gets a datagram,
/// addressed to it, asking for the file; every datagram is such a one; and there are as
/// many datagrams as hosts other than the node.
pub proof fn lemma_get_asks_every_other_host(
    hs: Seq<HostView>,
    path: Seq<char>,
    src_port: u16,
    src_ip: Seq<char>,
)
    ensures
        forall|i: int|
            0 <= i < hs.len() && !((#[trigger] hs[i]).ipaddr == src_ip && hs[i].port == src_port)
                ==> get_datagrams(hs, path, src_port, src_ip).contains(
                get_datagram_for(hs[i], path, src_port, src_ip),
            ),
        forall|j: int|
            #![trigger get_datagrams(hs, path, src_port, src_ip)[j]]
            0 <= j < get_datagrams(hs, path, src_port, src_ip).len() ==> exists|i: int|
                #![trigger hs[i]]
                0 <= i < hs.len() && !(hs[i].ipaddr == src_ip && hs[i].port == src_port)
                    && get_datagrams(hs, path, src_port, src_ip)[j] == get_datagram_for(
                    hs[i],
                    path,
                    src_port,
                    src_ip,
                ),
        get_datagrams(hs, path, src_port, src_ip).len() == hs.filter(
            |x: HostView| !(x.ipaddr == src_ip && x.port == src_port),
        ).len(),
{
    lemma_get_reaches_others(hs, path, src_port, src_ip);
    lemma_get_reaches_only_others(hs, path, src_port, src_ip);
    lemma_get_count(hs, path, src_port, src_ip);
    let g = get_datagrams(hs, path, src_port, src_ip);
    assert forall|j: int|
        #![trigger get_datagrams(hs, path, src_port, src_ip)[j]]
        0 <= j < g.len() implies exists|i: int|
        #![trigger hs[i]]
        0 <= i < hs.len() && !(hs[i].ipaddr == src_ip && hs[i].port == src_port) && g[j]
            == get_datagram_for(hs[i], path, src_port, src_ip) by {
        let d = g[j];
        let i = choose|i: int|
            #![trigger hs[i]]
            0 <= i < hs.len() && !(hs[i].ipaddr == src_ip && hs[i].port == src_port) && d
                == get_datagram_for(hs[i], path, src_port, src_ip);
        assert(hs[i] == hs[i]);
    }
}


/// The header of the discovery packets that the node at `myaddr` and `udp_p` sends `h`.
pub open spec fn disc_header_for(h: HostView, myaddr: Seq<char>, udp_p: u16) -> Seq<u8> {
    header_bytes(seq!['d', 'i', 's', 'c'], h.port, udp_p, h.ipaddr, myaddr)
}

/// The datagram that carries `payload` to `h`.
pub open spec fn sent_to(h: HostView, payload: Seq<u8>) -> DatagramView {
    DatagramView { ipaddr: h.ipaddr, port: h.port, payload }
}

proof fn lemma_discovery_datagrams_unfold(
    all: Seq<HostView>,
    hs: Seq<HostView>,
    myaddr: Seq<char>,
    udp_p: u16,
)
    requires
        hs.len() > 0,
    ensures
        !(hs.last().ipaddr == myaddr && hs.last().port == udp_p) ==> discovery_datagrams(
            all,
            hs,
            myaddr,
            udp_p,
        ) == discovery_datagrams(all, hs.drop_last(), myaddr, udp_p) + addressed(
            hs.last(),
            discovery_packets(disc_header_for(hs.last(), myaddr, udp_p), all),
        ),
        (hs.last().ipaddr == myaddr && hs.last().port == udp_p) ==> discovery_datagrams(
            all,
            hs,
            myaddr,
            udp_p,
        ) == discovery_datagrams(all, hs.drop_last(), myaddr, udp_p),
{
    assert(disc_request() == seq!['d', 'i', 's', 'c']);
}

#[verifier::spinoff_prover]
proof fn lemma_discovery_reaches_others(
    all: Seq<HostView>,
    hs: Seq<HostView>,
    myaddr: Seq<char>,
    udp_p: u16,
)
    ensures
        forall|i: int, k: int|
            0 <= i < hs.len() && !((#[trigger] hs[i]).ipaddr == myaddr && hs[i].port == udp_p)
                && 0 <= k < discovery_packets(disc_header_for(hs[i], myaddr, udp_p), all).len()
                ==> discovery_datagrams(all, hs, myaddr, udp_p).contains(
                sent_to(hs[i], #[trigger] discovery_packets(disc_header_for(hs[i], myaddr, udp_p), all)[k]),
            ),
    decreases hs.len(),
{
    if hs.len() > 0 {
        let p = hs.drop_last();
        lemma_discovery_reaches_others(all, p, myaddr, udp_p);
        lemma_discovery_datagrams_unfold(all, hs, myaddr, udp_p);
        let r = discovery_datagrams(all, p, myaddr, udp_p);
        let g = discovery_datagrams(all, hs, myaddr, udp_p);
        assert forall|i: int, k: int|
            0 <= i < hs.len() && !((#[trigger] hs[i]).ipaddr == myaddr && hs[i].port == udp_p)
                && 0 <= k < discovery_packets(disc_header_for(hs[i], myaddr, udp_p), all).len()
                implies g.contains(
            sent_to(hs[i], #[trigger] discovery_packets(disc_header_for(hs[i], myaddr, udp_p), all)[k]),
        ) by {
            let ps = discovery_packets(disc_header_for(hs[i], myaddr, udp_p), all);
            if i < hs.len() - 1 {
                assert(hs[i] == p[i]);
                let d = sent_to(p[i], ps[k]);
                assert(r.contains(d));
                let j = choose|j: int| 0 <= j < r.len() && r[j] == d;
                assert(g[j] == r[j]);
            } else {
                let a = addressed(hs.last(), ps);
                assert(a[k] == sent_to(hs[i], ps[k]));
                assert(g[r.len() + k] == a[k]);
            }
        }
    }
}

#[verifier::spinoff_prover]
proof fn lemma_discovery_reaches_only_others(
    all: Seq<HostView>,
    hs: Seq<HostView>,
    myaddr: Seq<char>,
    udp_p: u16,
)
    ensures
        forall|j: int|
            #![trigger discovery_datagrams(all, hs, myaddr, udp_p)[j]]
            0 <= j < discovery_datagrams(all, hs, myaddr, udp_p).len() ==> exists|i: int|
                #![trigger hs[i]]
                0 <= i < hs.len() && !(hs[i].ipaddr == myaddr && hs[i].port == udp_p)
                    && discovery_datagrams(all, hs, myaddr, udp_p)[j].ipaddr == hs[i].ipaddr
                    && discovery_datagrams(all, hs, myaddr, udp_p)[j].port == hs[i].port,
    decreases hs.len(),
{
    if hs.len() > 0 {
        let p = hs.drop_last();
        lemma_discovery_reaches_only_others(all, p, myaddr, udp_p);
        lemma_discovery_datagrams_unfold(all, hs, myaddr, udp_p);
        let r = discovery_datagrams(all, p, myaddr, udp_p);
        assert forall|j: int|
            #![trigger discovery_datagrams(all, hs, myaddr, udp_p)[j]]
            0 <= j < discovery_datagrams(all, hs, myaddr, udp_p).len() implies exists|i: int|
            #![trigger hs[i]]
            0 <= i < hs.len() && !(hs[i].ipaddr == myaddr && hs[i].port == udp_p)
                && discovery_datagrams(all, hs, myaddr, udp_p)[j].ipaddr == hs[i].ipaddr
                && discovery_datagrams(all, hs, myaddr, udp_p)[j].port == hs[i].port by {
            let g = discovery_datagrams(all, hs, myaddr, udp_p);
            if j < r.len() {
                assert(g[j] == r[j]);
                let rj = r[j];
                let i = choose|i: int|
                    #![trigger p[i]]
                    0 <= i < p.len() && !(p[i].ipaddr == myaddr && p[i].port == udp_p)
                        && rj.ipaddr == p[i].ipaddr && rj.port == p[i].port;
                assert(hs[i] == p[i]);
            } else {
                let h = hs.last();
                let ps = discovery_packets(disc_header_for(h, myaddr, udp_p), all);
                assert(g[j] == addressed(h, ps)[j - r.len()]);
                assert(hs[hs.len() - 1] == h);
            }
        }
    }
}

/// `start_discovery` shares the known hosts with every known host but the node itself, and
/// only with those: the node itself is the host with both its address and its port. Each
/// host other than the node is sent every discovery packet, addressed to it, with a `disc`
/// header from the node to it; it is sent at least one; and every datagram goes to such a host.
pub proof fn lemma_discovery_shares_with_every_other_host(
    all: Seq<HostView>,
    hs: Seq<HostView>,
    myaddr: Seq<char>,
    udp_p: u16,
)
    ensures
        forall|i: int, k: int|
            0 <= i < hs.len() && !((#[trigger] hs[i]).ipaddr == myaddr && hs[i].port == udp_p)
                && 0 <= k < discovery_packets(disc_header_for(hs[i], myaddr, udp_p), all).len()
                ==> discovery_datagrams(all, hs, myaddr, udp_p).contains(
                sent_to(hs[i], #[trigger] discovery_packets(disc_header_for(hs[i], myaddr, udp_p), all)[k]),
            ),
        forall|i: int|
            0 <= i < hs.len() && !((#[trigger] hs[i]).ipaddr == myaddr && hs[i].port == udp_p)
                ==> discovery_packets(disc_header_for(hs[i], myaddr, udp_p), all).len() >= 1,
        forall|j: int|
            #![trigger discovery_datagrams(all, hs, myaddr, udp_p)[j]]
            0 <= j < discovery_datagrams(all, hs, myaddr, udp_p).len() ==> exists|i: int|
                #![trigger hs[i]]
                0 <= i < hs.len() && !(hs[i].ipaddr == myaddr && hs[i].port == udp_p)
                    && discovery_datagrams(all, hs, myaddr, udp_p)[j].ipaddr == hs[i].ipaddr
                    && discovery_datagrams(all, hs, myaddr, udp_p)[j].port == hs[i].port,
{
    lemma_discovery_reaches_others(all, hs, myaddr, udp_p);
    lemma_discovery_reaches_only_others(all, hs, myaddr, udp_p);
    assert forall|i: int|
        0 <= i < hs.len() && !((#[trigger] hs[i]).ipaddr == myaddr && hs[i].port == udp_p)
            implies discovery_packets(disc_header_for(hs[i], myaddr, udp_p), all).len() >= 1 by {
        lemma_discovery_packets_unfold(disc_header_for(hs[i], myaddr, udp_p), all);
    }
    let g = discovery_datagrams(all, hs, myaddr, udp_p);
    assert forall|j: int|
        #![trigger discovery_datagrams(all, hs, myaddr, udp_p)[j]]
        0 <= j < g.len() implies exists|i: int|
        #![trigger hs[i]]
        0 <= i < hs.len() && !(hs[i].ipaddr == myaddr && hs[i].port == udp_p) && g[j].ipaddr
            == hs[i].ipaddr && g[j].port == hs[i].port by {
        let d = g[j];
        let i = choose|i: int|
            #![trigger hs[i]]
            0 <= i < hs.len() && !(hs[i].ipaddr == myaddr && hs[i].port == udp_p) && d.ipaddr
                == hs[i].ipaddr && d.port == hs[i].port;
        assert(hs[i] == hs[i]);
    }
}


// ----- laws of finding a file -----

/// A shared path names the file after its last `/`, whole: the path `dir/name` names `req`
/// exactly when `name` is `req`, and so does a path with no `/` at all. A name that merely
/// ends the file's name does not match it.
pub proof fn lemma_has_file_by_name(dir: Seq<char>, name: Seq<char>, req: Seq<char>)
    requires
        forall|i: int| 0 <= i < name.len() ==> name[i] != '/',
    ensures
        has_file(seq![dir.push('/') + name], req) <==> name == req,
        has_file(seq![name], req) <==> name == req,
{
    crate::text::lemma_split_no_sep(name, '/');
    crate::text::lemma_split_join(dir, '/', name);
    crate::text::lemma_split_nonempty(dir, '/');
    let e = dir.push('/') + name;
    assert(split(e, '/').last() == name);
    assert(seq![e][0] == e);
    assert(seq![name][0] == name);
}

/// The shared files hold `req` exactly when one of the listed paths, alone, does.
pub proof fn lemma_has_file_any(entries: Seq<Seq<char>>, req: Seq<char>)
    ensures
        has_file(entries, req) <==> exists|i: int|
            0 <= i < entries.len() && has_file(seq![#[trigger] entries[i]], req),
{
    if has_file(entries, req) {
        let i = choose|i: int| 0 <= i < entries.len() && file_name(#[trigger] entries[i]) == req;
        assert(seq![entries[i]][0] == entries[i]);
    }
    if exists|i: int| 0 <= i < entries.len() && has_file(seq![#[trigger] entries[i]], req) {
        let i = choose|i: int| 0 <= i < entries.len() && has_file(seq![#[trigger] entries[i]], req);
        let k = choose|k: int| 0 <= k < 1 && file_name(#[trigger] seq![entries[i]][k]) == req;
        assert(seq![entries[i]][k] == entries[i]);
    }
}

} // verus!
