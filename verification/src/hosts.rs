//! The hosts a node knows, keyed by address and port.
use crate::text::{parse_u16, parse_unsigned, split, split_text, views};
use crate::wire::is_ip;
use vstd::prelude::*;

verus! {

/// A peer: its name, where it listens, and how many files it has asked for.
pub struct Host {
    pub name: String,
    pub ipaddr: String,
    pub port: u16,
    pub num_requests: u16,
}

/// The value a `Host` stands for.
pub struct HostView {
    pub name: Seq<char>,
    pub ipaddr: Seq<char>,
    pub port: u16,
    pub num_requests: u16,
}

impl View for Host {
    type V = HostView;

    open spec fn view(&self) -> HostView {
        HostView {
            name: self.name@,
            ipaddr: self.ipaddr@,
            port: self.port,
            num_requests: self.num_requests,
        }
    }
}

impl Host {
    /// A host that has asked for nothing yet.
    pub fn new(name: String, ipaddr: String, port: u16) -> (h: Host)
        ensures
            h.name@ == name@,
            h.ipaddr@ == ipaddr@,
            h.port == port,
            h.num_requests == 0,
    {
        let num_requests: u16 = 0;
        Host { name, ipaddr, port, num_requests }
    }
}

/// The key a host is found by: its address and port (written `address:port` by peers).
pub open spec fn key_of(h: HostView) -> (Seq<char>, u16) {
    (h.ipaddr, h.port)
}

/// Whether some host in `s` has the key `k`.
pub open spec fn has_key(s: Seq<HostView>, k: (Seq<char>, u16)) -> bool {
    exists|i: int| 0 <= i < s.len() && key_of(#[trigger] s[i]) == k
}

/// Where the host with key `k` stands in `s` (meaningful when `has_key(s, k)`).
pub open spec fn index_of_key(s: Seq<HostView>, k: (Seq<char>, u16)) -> int {
    choose|i: int| 0 <= i < s.len() && key_of(#[trigger] s[i]) == k
}

/// In a table, the host with a key present stands exactly where `index_of_key` says.
pub proof fn lemma_index_of_key(s: Seq<HostView>, k: (Seq<char>, u16), i: int)
    requires
        table_invariant(s),
        0 <= i < s.len(),
        key_of(s[i]) == k,
    ensures
        index_of_key(s, k) == i,
        has_key(s, k),
{
    let j = index_of_key(s, k);
    assert(key_of(s[j]) == k);
}

/// What a table keeps: no key twice, and every address a dotted quad.
pub open spec fn table_invariant(s: Seq<HostView>) -> bool {
    &&& forall|i: int, j: int|
        0 <= i < s.len() && 0 <= j < s.len() && i != j ==> key_of(#[trigger] s[i]) != key_of(
            #[trigger] s[j],
        )
    &&& forall|i: int| 0 <= i < s.len() ==> is_ip(#[trigger] s[i].ipaddr)
}

/// `s` after a host is put in it: a host with the same key is replaced in place,
/// otherwise the host is added at the end.
pub open spec fn put(s: Seq<HostView>, h: HostView) -> Seq<HostView> {
    if has_key(s, key_of(h)) {
        let i = choose|i: int| 0 <= i < s.len() && key_of(#[trigger] s[i]) == key_of(h);
        s.update(i, h)
    } else {
        s.push(h)
    }
}

/// `s` after a host is offered to it: kept out when its key is already there.
pub open spec fn put_if_absent(s: Seq<HostView>, h: HostView) -> Seq<HostView> {
    if has_key(s, key_of(h)) {
        s
    } else {
        s.push(h)
    }
}

/// The hosts a node knows, in the order it learnt them.
pub struct HostTable {
    entries: Vec<Host>,
}

impl View for HostTable {
    type V = Seq<HostView>;

    closed spec fn view(&self) -> Seq<HostView> {
        self.entries@.map_values(|h: Host| h@)
    }
}

impl HostTable {
    /// The table's invariant.
    pub open spec fn inv(&self) -> bool {
        table_invariant(self@)
    }

    /// An empty table.
    pub fn new() -> (t: HostTable)
        ensures
            t@ == Seq::<HostView>::empty(),
            t.inv(),
    {
        let t = HostTable { entries: Vec::new() };
        assert(t@ =~= Seq::<HostView>::empty());
        t
    }

    /// How many hosts the table holds.
    pub fn len(&self) -> (n: usize)
        ensures
            n == self@.len(),
    {
        self.entries.len()
    }

    /// The `i`-th host.
    pub fn host(&self, i: usize) -> (h: &Host)
        requires
            i < self@.len(),
        ensures
            h@ == self@[i as int],
    {
        &self.entries[i]
    }

    /// Where the host with address `ip` and port `port` stands, if the table has one.
    pub fn position(&self, ip: &str, port: u16) -> (r: Option<usize>)
        ensures
            match r {
                Some(i) => i < self@.len() && key_of(self@[i as int]) == (ip@, port),
                None => !has_key(self@, (ip@, port)),
            },
    {
        let n = self.entries.len();
        let mut i: usize = 0;
        while i < n
            invariant
                i <= n,
                n == self@.len(),
                n == self.entries@.len(),
                forall|j: int| 0 <= j < i ==> key_of(#[trigger] self@[j]) != (ip@, port),
            decreases n - i,
        {
            let h = &self.entries[i];
            assert(self@[i as int] == h@);
            if h.port == port && crate::text::same_text(h.ipaddr.as_str(), ip) {
                return Some(i);
            }
            i = i + 1;
        }
        None
    }

    /// Whether the table has a host with address `ip` and port `port`.
    pub fn contains_key(&self, ip: &str, port: u16) -> (b: bool)
        ensures
            b == has_key(self@, (ip@, port)),
    {
        self.position(ip, port).is_some()
    }

    /// Puts `host` in the table, replacing the host with the same key if there is one.
    pub fn insert(&mut self, host: Host)
        requires
            old(self).inv(),
            is_ip(host.ipaddr@),
        ensures
            final(self).inv(),
            final(self)@ == put(old(self)@, host@),
    {
        let ghost hv = host@;
        match self.position(host.ipaddr.as_str(), host.port) {
            Some(i) => {
                let ghost j = choose|j: int|
                    0 <= j < old(self)@.len() && key_of(#[trigger] old(self)@[j]) == key_of(hv);
                assert(j == i);
                self.entries.set(i, host);
                assert(self@ =~= old(self)@.update(i as int, hv));
            },
            None => {
                self.entries.push(host);
                assert(self@ =~= old(self)@.push(hv));
            },
        }
    }

    /// Adds `host` unless the table already has a host with its key; tells whether it was added.
    pub fn insert_if_absent(&mut self, host: Host) -> (added: bool)
        requires
            old(self).inv(),
            is_ip(host.ipaddr@),
        ensures
            final(self).inv(),
            final(self)@ == put_if_absent(old(self)@, host@),
            added == !has_key(old(self)@, key_of(host@)),
    {
        let ghost hv = host@;
        if self.contains_key(host.ipaddr.as_str(), host.port) {
            false
        } else {
            self.entries.push(host);
            assert(self@ =~= old(self)@.push(hv));
            true
        }
    }

    /// How many files the host with this key has asked for.
    pub fn request_count(&self, ip: &str, port: u16) -> (r: Option<u16>)
        requires
            self.inv(),
        ensures
            match r {
                Some(n) => has_key(self@, (ip@, port)) && self@[index_of_key(
                    self@,
                    (ip@, port),
                )].num_requests == n,
                None => !has_key(self@, (ip@, port)),
            },
    {
        match self.position(ip, port) {
            Some(i) => {
                proof {
                    lemma_index_of_key(self@, (ip@, port), i as int);
                }
                Some(self.entries[i].num_requests)
            },
            None => None,
        }
    }

    /// Counts one more request from the host with this key; gives its new count,
    /// or `None` when the table has no such host.
    pub fn record_request(&mut self, ip: &str, port: u16) -> (r: Option<u16>)
        requires
            old(self).inv(),
            has_key(old(self)@, (ip@, port)) ==> old(self)@[index_of_key(
                old(self)@,
                (ip@, port),
            )].num_requests < u16::MAX,
        ensures
            final(self).inv(),
            match r {
                Some(n) => {
                    let i = index_of_key(old(self)@, (ip@, port));
                    &&& has_key(old(self)@, (ip@, port))
                    &&& n == old(self)@[i].num_requests + 1
                    &&& final(self)@ == old(self)@.update(
                        i,
                        HostView { num_requests: n, ..old(self)@[i] },
                    )
                },
                None => !has_key(old(self)@, (ip@, port)) && final(self)@ == old(self)@,
            },
    {
        match self.position(ip, port) {
            Some(i) => {
                proof {
                    lemma_index_of_key(self@, (ip@, port), i as int);
                }
                let ghost before = self@;
                let mut host = self.entries.remove(i);
                host.num_requests = host.num_requests + 1;
                let n = host.num_requests;
                self.entries.insert(i, host);
                assert(self@ =~= before.update(
                    i as int,
                    HostView { num_requests: n, ..before[i as int] },
                ));
                Some(n)
            },
            None => None,
        }
    }
}

// ----- the hosts file -----

/// The host that a line of the hosts file names: name, address and port, separated by
/// single spaces (further fields are ignored); `None` when the line has fewer than three
/// fields or the port is not a number.
pub open spec fn host_line(line: Seq<char>) -> Option<HostView> {
    let f = split(line, ' ');
    if f.len() >= 3 && parse_unsigned(f[2], 0xffff) is Some {
        Some(
            HostView {
                name: f[0],
                ipaddr: f[1],
                port: parse_unsigned(f[2], 0xffff)->Some_0 as u16,
                num_requests: 0,
            },
        )
    } else {
        None
    }
}

/// The hosts that a hosts file lists, one per line; `None` when some line does not name one.
pub open spec fn hosts_file(content: Seq<char>) -> Option<Seq<HostView>> {
    let lines = split(content, '\n');
    if forall|i: int| 0 <= i < lines.len() ==> #[trigger] host_line(lines[i]) is Some {
        Some(Seq::new(lines.len(), |i: int| host_line(lines[i])->Some_0))
    } else {
        None
    }
}

/// Reads the host that one line names.
fn parse_host_line(line: &str) -> (r: Option<Host>)
    ensures
        match r {
            Some(h) => host_line(line@) == Some(h@),
            None => host_line(line@) is None,
        },
{
    let fields = split_text(line, ' ');
    let ghost f = split(line@, ' ');
    if fields.len() < 3 {
        return None;
    }
    assert(fields@[2]@ == f[2]);
    match parse_u16(fields[2].as_str()) {
        Some(port) => {
            let name = fields[0].clone();
            let ipaddr = fields[1].clone();
            assert(fields@[0]@ == f[0]);
            assert(fields@[1]@ == f[1]);
            Some(Host::new(name, ipaddr, port))
        },
        None => None,
    }
}

/// Whether every line of a hosts file names a host.
pub fn is_hosts_file(content: &str) -> (b: bool)
    ensures
        b == (hosts_file(content@) is Some),
{
    let lines = split_text(content, '\n');
    let ghost ls = split(content@, '\n');
    let mut i: usize = 0;
    while i < lines.len()
        invariant
            i <= lines@.len(),
            views(lines@) == ls,
            ls == split(content@, '\n'),
            forall|j: int| 0 <= j < i ==> #[trigger] host_line(ls[j]) is Some,
        decreases lines@.len() - i,
    {
        assert(ls[i as int] == lines@[i as int]@);
        if parse_host_line(lines[i].as_str()).is_none() {
            assert(!(host_line(ls[i as int]) is Some));
            return false;
        }
        i = i + 1;
    }
    true
}

/// Reads the hosts listed in a hosts file, one `name address port` per line.
pub fn parse_hosts(content: &str) -> (v: Vec<Host>)
    requires
        hosts_file(content@) is Some,
    ensures
        hosts_file(content@) == Some(v@.map_values(|h: Host| h@)),
{
    let lines = split_text(content, '\n');
    let ghost ls = split(content@, '\n');
    let mut hosts: Vec<Host> = Vec::new();
    let mut i: usize = 0;
    while i < lines.len()
        invariant
            i <= lines@.len(),
            views(lines@) == ls,
            ls == split(content@, '\n'),
            hosts_file(content@) is Some,
            hosts@.len() == i,
            forall|j: int| 0 <= j < i ==> host_line(ls[j]) == Some(#[trigger] hosts@[j]@),
        decreases lines@.len() - i,
    {
        assert(ls[i as int] == lines@[i as int]@);
        assert(host_line(ls[i as int]) is Some);
        match parse_host_line(lines[i].as_str()) {
            Some(h) => {
                hosts.push(h);
            },
            None => {
                return vstd::pervasive::unreached();
            },
        }
        i = i + 1;
    }
    assert(hosts@.map_values(|h: Host| h@) =~= Seq::new(
        ls.len(),
        |j: int| host_line(ls[j])->Some_0,
    ));
    hosts
}


// ----- laws of the hosts file -----

/// The host a `name address port` line names.
pub open spec fn listed_host(name: Seq<char>, addr: Seq<char>, port: u16) -> HostView {
    HostView { name, ipaddr: addr, port, num_requests: 0 }
}

/// A line `name address port`, with the port written in decimal, names that host for every
/// port number up to 65535; a file made of that one line lists just that host.
pub proof fn lemma_hosts_line_reads_every_port(name: Seq<char>, addr: Seq<char>, port: u16)
    requires
        forall|i: int| 0 <= i < name.len() ==> name[i] != ' ' && name[i] != '\n',
        forall|i: int| 0 <= i < addr.len() ==> addr[i] != ' ' && addr[i] != '\n',
    ensures
        host_line(
            name + seq![' '] + addr + seq![' '] + crate::text::decimal_text(port as nat),
        ) == Some(listed_host(name, addr, port)),
        hosts_file(name + seq![' '] + addr + seq![' '] + crate::text::decimal_text(port as nat))
            == Some(seq![listed_host(name, addr, port)]),
{
    let d = crate::text::decimal_text(port as nat);
    crate::text::lemma_decimal_text(port as nat);
    crate::text::lemma_parse_decimal_text(port as nat, 0xffff);
    crate::text::lemma_split_no_sep(name, ' ');
    crate::text::lemma_split_no_sep(addr, ' ');
    crate::text::lemma_split_no_sep(d, ' ');
    crate::text::lemma_split_join(name, ' ', addr);
    let na = name.push(' ') + addr;
    assert(name + seq![' '] + addr =~= na);
    crate::text::lemma_split_join(na, ' ', d);
    let line = na.push(' ') + d;
    assert(name + seq![' '] + addr + seq![' '] + d =~= line);
    assert(split(line, ' ') =~= seq![name, addr, d]);
    assert forall|i: int| 0 <= i < line.len() implies line[i] != '\n' by {
        if i < name.len() {
            assert(line[i] == name[i]);
        } else if i == name.len() {
        } else if i < name.len() + 1 + addr.len() {
            assert(line[i] == addr[i - name.len() - 1]);
        } else if i == name.len() + 1 + addr.len() {
        } else {
            assert(line[i] == d[i - name.len() - 2 - addr.len()]);
        }
    }
    crate::text::lemma_split_no_sep(line, '\n');
    assert(host_line(line) == Some(listed_host(name, addr, port)));
    let ls = split(line, '\n');
    assert(ls[0] == line);
    assert(Seq::new(ls.len(), |i: int| host_line(ls[i])->Some_0) =~= seq![
        listed_host(name, addr, port),
    ]);
}

} // verus!
