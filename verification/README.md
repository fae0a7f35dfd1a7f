# udp_share

A node of a small peer-to-peer file sharing network, written in Verus.

Every datagram starts with a sixteen-byte header: a four-byte request name (`get`,
`disc` or `OK`, zero padded), the destination and source ports (big endian) and the
destination and source IPv4 addresses. A `get` asks peers for a file by name, a `disc`
shares the hosts a node knows (one record per host: name length, name, address, port),
and an `OK` answers that a file is found, with the TCP port it is served on and a
suggested buffer size.

- `src/text.rs`: decimal numbers, splitting, trimming, and UTF-8 text.
- `src/wire.rs`: ports, addresses and text as bytes.
- `src/header.rs`: the header and the kinds of request.
- `src/hosts.rs`: hosts, the table of known hosts, the hosts file.
- `src/packet.rs`: file packets and discovery packets, written and read.
- `src/server.rs`: what a node does with each datagram and what it sends.
- `app/`: the socket, threads, hosts file and shared directory around the library.
- `tests/`: tests on concrete values.

Every function in `src/` is verified against its contract, except `string_from_utf8`
in `src/text.rs`, which calls std's `String::from_utf8` and whose contract is trusted.
The laws (what reads back from what is written, what discovery keeps and learns, how
pending requests are counted) are proof functions beside the code; how running transfers
are counted is stated in the contracts of `process_get` and `release_connection`.
