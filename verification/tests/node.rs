use udp_share::header::{copy_header, extract_header, Header};
use udp_share::hosts::{is_hosts_file, parse_hosts, Host, HostTable};
use udp_share::packet::{create_file_packet, discovery_fits, parse_discovery};
use udp_share::server::{forget_request, start, GetOutcome, OkOutcome, Server, MAX_CONNECTION};

fn table(entries: &[(&str, &str, u16)]) -> HostTable {
    let mut t = HostTable::new();
    for (name, ip, port) in entries {
        t.insert(Host::new(name.to_string(), ip.to_string(), *port));
    }
    t
}

fn names(t: &HostTable) -> Vec<(String, String, u16, u16)> {
    (0..t.len())
        .map(|i| {
            let h = t.host(i);
            (h.name.clone(), h.ipaddr.clone(), h.port, h.num_requests)
        })
        .collect()
}

fn received(packet: &[u8]) -> Vec<u8> {
    let mut buf = vec![32u8; 8192];
    buf[..packet.len()].copy_from_slice(packet);
    buf
}

#[test]
fn host_new_counts_no_requests() {
    let h = Host::new("alice".to_string(), "10.0.0.1".to_string(), 9000);
    assert_eq!(h.name, "alice");
    assert_eq!(h.ipaddr, "10.0.0.1");
    assert_eq!(h.port, 9000);
    assert_eq!(h.num_requests, 0);
}

#[test]
fn table_keys_hosts_by_address_and_port() {
    let mut t = table(&[("a", "10.0.0.1", 1), ("b", "10.0.0.1", 2)]);
    assert_eq!(t.len(), 2);
    assert_eq!(t.position("10.0.0.1", 2), Some(1));
    assert_eq!(t.position("10.0.0.2", 2), None);
    assert!(t.contains_key("10.0.0.1", 1));
    t.insert(Host::new("c".to_string(), "10.0.0.1".to_string(), 1));
    assert_eq!(names(&t)[0].0, "c");
    assert_eq!(t.len(), 2);
    assert!(!t.insert_if_absent(Host::new("d".to_string(), "10.0.0.1".to_string(), 2)));
    assert_eq!(names(&t)[1].0, "b");
    assert!(t.insert_if_absent(Host::new("e".to_string(), "10.0.0.3".to_string(), 2)));
    assert_eq!(t.len(), 3);
}

#[test]
fn record_request_counts_per_host() {
    let mut t = table(&[("a", "10.0.0.1", 1), ("b", "10.0.0.2", 2)]);
    assert_eq!(t.record_request("10.0.0.2", 2), Some(1));
    assert_eq!(t.record_request("10.0.0.2", 2), Some(2));
    assert_eq!(t.record_request("10.0.0.9", 2), None);
    assert_eq!(t.request_count("10.0.0.2", 2), Some(2));
    assert_eq!(t.request_count("10.0.0.1", 1), Some(0));
    assert_eq!(t.request_count("10.0.0.1", 2), None);
}

#[test]
fn hosts_file_lists_one_host_per_line() {
    let content = "alice 127.0.0.1 8000\nbob 10.0.0.7 9001 extra";
    assert!(is_hosts_file(content));
    let hosts = parse_hosts(content);
    assert_eq!(hosts.len(), 2);
    assert_eq!(hosts[0].name, "alice");
    assert_eq!(hosts[0].ipaddr, "127.0.0.1");
    assert_eq!(hosts[0].port, 8000);
    assert_eq!(hosts[1].name, "bob");
    assert_eq!(hosts[1].port, 9001);
    assert_eq!(hosts[1].num_requests, 0);
}

#[test]
fn hosts_file_rejects_malformed_lines() {
    assert!(!is_hosts_file("alice 127.0.0.1 8000\n"));
    assert!(!is_hosts_file("alice 127.0.0.1"));
    assert!(!is_hosts_file("alice 127.0.0.1 port"));
    assert!(!is_hosts_file("alice 127.0.0.1 70000"));
    assert!(!is_hosts_file(""));
    assert!(!is_hosts_file("alice  127.0.0.1 8000"));
}

#[test]
fn file_packet_layout() {
    let h = Header::new("get", 8000, 8080, "127.0.0.1", "127.0.0.2");
    let p = create_file_packet(&h, "a.txt");
    let mut expect = vec![b'g', b'e', b't', 0, 0x1f, 0x40, 0x1f, 0x90, 127, 0, 0, 1, 127, 0, 0, 2];
    expect.extend_from_slice(&[0, 5]);
    expect.extend_from_slice(b"a.txt");
    assert_eq!(p, expect);
}

#[test]
fn discovery_packet_layout() {
    let t = table(&[("al", "10.0.0.1", 258)]);
    let h = Header::new("disc", 1, 2, "127.0.0.1", "127.0.0.1");
    let packets = Server::send_discovery(&t, &h);
    assert_eq!(packets.len(), 1);
    let mut expect = vec![0u8; 16];
    copy_header(&mut expect, &h);
    expect.extend_from_slice(&[2, b'a', b'l', 10, 0, 0, 1, 1, 2]);
    assert_eq!(packets[0], expect);
}

#[test]
fn discovery_packets_hold_146_hosts_each() {
    let entries: Vec<(String, String, u16)> =
        (0..300u16).map(|i| (format!("h{}", i), format!("10.0.{}.{}", i / 256, i % 256), i)).collect();
    let mut t = HostTable::new();
    for (n, ip, p) in &entries {
        t.insert(Host::new(n.clone(), ip.clone(), *p));
    }
    assert!(discovery_fits(&t));
    let h = Header::new("disc", 1, 2, "127.0.0.1", "127.0.0.1");
    let packets = Server::send_discovery(&t, &h);
    assert_eq!(packets.len(), 3);
    let mut seen = Vec::new();
    for p in &packets {
        assert!(p.len() <= 8192);
        let found = parse_discovery(p, 16, p.len()).unwrap();
        assert!(found.len() <= 146);
        seen.extend(found.into_iter().map(|h| (h.name, h.ipaddr, h.port)));
    }
    assert_eq!(seen, entries);
    assert_eq!(parse_discovery(&packets[0], 16, packets[0].len()).unwrap().len(), 146);
    assert_eq!(parse_discovery(&packets[2], 16, packets[2].len()).unwrap().len(), 8);
}

#[test]
fn long_names_do_not_fit() {
    let long = "x".repeat(250);
    let mut t = HostTable::new();
    for i in 0..40u16 {
        t.insert(Host::new(long.clone(), "10.0.0.1".to_string(), i));
    }
    assert!(!discovery_fits(&t));
    let short = table(&[("a", "10.0.0.1", 1)]);
    assert!(discovery_fits(&short));
}

#[test]
fn long_name_record_keeps_length_byte_worth() {
    let long = "y".repeat(260);
    let t = table(&[(long.as_str(), "10.0.0.1", 7)]);
    let h = Header::new("disc", 1, 2, "127.0.0.1", "127.0.0.1");
    let packets = Server::send_discovery(&t, &h);
    assert_eq!(packets[0].len(), 16 + 7 + 4);
    assert_eq!(packets[0][16], 4);
    assert_eq!(&packets[0][17..21], b"yyyy");
    let found = parse_discovery(&packets[0], 16, packets[0].len()).unwrap();
    assert_eq!(found[0].name, "yyyy");
    assert_eq!(found[0].port, 7);
}

#[test]
fn discovery_records_read_back() {
    let t = table(&[("alice", "127.0.0.1", 8000), ("bøb", "010.0.0.9", 9000)]);
    let h = Header::new("disc", 1, 2, "127.0.0.1", "127.0.0.1");
    let packets = Server::send_discovery(&t, &h);
    let data = received(&packets[0]);
    let found = parse_discovery(&data, 16, packets[0].len()).unwrap();
    assert_eq!(found.len(), 2);
    assert_eq!(found[0].name, "alice");
    assert_eq!(found[1].name, "bøb");
    assert_eq!(found[1].ipaddr, "10.0.0.9");
    assert_eq!(found[1].port, 9000);
}

#[test]
fn discovery_rejects_malformed_records() {
    let mut data = vec![0u8; 30];
    data[16] = 20;
    assert!(parse_discovery(&data, 16, 30).is_none());
    data[16] = 2;
    data[17] = 0xff;
    data[18] = 0xff;
    assert!(parse_discovery(&data, 16, 30).is_none());
    assert_eq!(parse_discovery(&data, 16, 16).unwrap().len(), 0);
}

#[test]
fn discovery_learns_new_hosts_only() {
    let peer = table(&[("a", "10.0.0.1", 1), ("b", "10.0.0.2", 2)]);
    let h = Header::new("disc", 1, 2, "127.0.0.1", "127.0.0.1");
    let packet = Server::send_discovery(&peer, &h).remove(0);
    let data = received(&packet);
    let mut mine = table(&[("me", "10.0.0.2", 2)]);
    assert!(Server::discovery(&mut mine, &data, 16, packet.len()));
    assert_eq!(
        names(&mine),
        vec![
            ("me".to_string(), "10.0.0.2".to_string(), 2, 0),
            ("a".to_string(), "10.0.0.1".to_string(), 1, 0)
        ]
    );
    assert!(Server::discovery(&mut mine, &data, 16, packet.len()));
    assert_eq!(mine.len(), 2);
}

#[test]
fn discovery_with_bad_records_learns_nothing() {
    let mut mine = table(&[("me", "10.0.0.2", 2)]);
    let mut data = vec![0u8; 40];
    data[16] = 1;
    data[17] = b'z';
    data[24] = 200;
    assert!(!Server::discovery(&mut mine, &data, 16, 40));
    assert_eq!(mine.len(), 1);
}

#[test]
fn init_parses_the_port() {
    let s = Server::init("8080", HostTable::new(), "127.0.0.1", Vec::new());
    assert_eq!(s.udp_port, 8080);
    assert_eq!(s.ipaddr, "127.0.0.1");
    assert_eq!(s.connection_num, 0);
    assert_eq!(Server::init("+08081", HostTable::new(), "1.1.1.1", vec!["a".to_string()]).udp_port, 8081);
}

#[test]
fn buffer_is_shared_between_transfers() {
    assert_eq!(Server::calculate_buffer(1, 0), 8192);
    assert_eq!(Server::calculate_buffer(2, 8), 2048);
    assert_eq!(Server::calculate_buffer(3, 3), 2730);
    assert_eq!(Server::calculate_buffer(21, 65535), 0);
}

#[test]
fn get_asks_every_other_host() {
    let hosts = table(&[("me", "127.0.0.1", 8080), ("a", "10.0.0.1", 1), ("b", "10.0.0.2", 2)]);
    let mut requests = vec!["old".to_string()];
    let out = Server::get(&mut requests, &hosts, "song.mp3", 8080, "127.0.0.1");
    assert_eq!(requests, vec!["old".to_string(), "song.mp3".to_string()]);
    assert_eq!(out.len(), 2);
    assert_eq!(out[0].ipaddr, "10.0.0.1");
    assert_eq!(out[0].port, 1);
    let expected = create_file_packet(&Header::new("get", 1, 8080, "10.0.0.1", "127.0.0.1"), "song.mp3");
    assert_eq!(out[0].payload, expected);
    assert_eq!(out[1].port, 2);
}

#[test]
fn forget_request_drops_first_occurrence() {
    let mut r = vec!["a".to_string(), "b".to_string(), "a".to_string()];
    assert!(forget_request(&mut r, "a"));
    assert_eq!(r, vec!["b".to_string(), "a".to_string()]);
    assert!(!forget_request(&mut r, "c"));
    assert_eq!(r.len(), 2);
}

#[test]
fn get_then_forget_restores_requests() {
    let hosts = table(&[("a", "10.0.0.1", 1)]);
    let mut requests = vec!["x".to_string(), "y".to_string()];
    Server::get(&mut requests, &hosts, "x", 8080, "127.0.0.1");
    assert!(forget_request(&mut requests, "x"));
    let mut sorted = requests.clone();
    sorted.sort();
    assert_eq!(sorted, vec!["x".to_string(), "y".to_string()]);
}

#[test]
fn find_file_matches_the_last_path_piece() {
    let entries = vec!["./shared/a.txt".to_string(), "./shared/sub/b.mp3".to_string()];
    assert!(Server::find_file("a.txt", &entries));
    assert!(Server::find_file("b.mp3", &entries));
    assert!(!Server::find_file("sub", &entries));
    assert!(!Server::find_file("a", &entries));
    assert!(!Server::find_file("a.txt", &[]));
}

fn get_request_from(src_ip: &str, src_port: u16, file: &str) -> (Header, Vec<u8>) {
    let h = Header::new("get", 9000, src_port, "127.0.0.1", src_ip);
    let packet = create_file_packet(&h, file);
    let data = received(&packet);
    (extract_header(&data).unwrap(), data)
}

#[test]
fn process_get_serves_a_known_host() {
    let mut hosts = table(&[("a", "10.0.0.1", 1)]);
    let mut conns = 0u16;
    let entries = vec!["dir/a.txt".to_string()];
    let (header, data) = get_request_from("10.0.0.1", 1, "a.txt");
    match Server::process_get(&mut hosts, &mut conns, &data, 16, &header, &entries) {
        GetOutcome::Serve { file, reply, buffer_size } => {
            assert_eq!(file, "a.txt");
            assert_eq!(buffer_size, 8192);
            let expected = create_file_packet(&Header::new("OK", 1, 9000, "10.0.0.1", "127.0.0.1"), "a.txt");
            assert_eq!(reply, expected);
        }
        _ => panic!("expected a transfer"),
    }
    assert_eq!(conns, 1);
    assert_eq!(hosts.request_count("10.0.0.1", 1), Some(1));
}

#[test]
fn process_get_turns_requests_away() {
    let mut hosts = table(&[("a", "10.0.0.1", 1)]);
    let entries = vec!["dir/a.txt".to_string()];
    let (header, data) = get_request_from("10.0.0.9", 1, "a.txt");
    let mut conns = 0u16;
    assert!(matches!(
        Server::process_get(&mut hosts, &mut conns, &data, 16, &header, &entries),
        GetOutcome::UnknownHost
    ));
    let (header, data) = get_request_from("10.0.0.1", 1, "b.txt");
    assert!(matches!(
        Server::process_get(&mut hosts, &mut conns, &data, 16, &header, &entries),
        GetOutcome::NotFound
    ));
    assert_eq!(hosts.request_count("10.0.0.1", 1), Some(1));
    let (header, data) = get_request_from("10.0.0.1", 1, "a.txt");
    let mut busy = MAX_CONNECTION + 1;
    assert!(matches!(
        Server::process_get(&mut hosts, &mut busy, &data, 16, &header, &entries),
        GetOutcome::Busy
    ));
    assert_eq!(busy, MAX_CONNECTION + 1);
    let mut last = MAX_CONNECTION;
    assert!(matches!(
        Server::process_get(&mut hosts, &mut last, &data, 16, &header, &entries),
        GetOutcome::Serve { .. }
    ));
    assert_eq!(last, MAX_CONNECTION + 1);
    let mut short = data.clone();
    short.truncate(20);
    assert!(matches!(
        Server::process_get(&mut hosts, &mut conns, &short, 16, &header, &entries),
        GetOutcome::Malformed
    ));
}

#[test]
fn buffer_size_depends_on_requests_and_transfers() {
    let mut hosts = table(&[("a", "10.0.0.1", 1)]);
    let entries = vec!["a.txt".to_string()];
    let (header, data) = get_request_from("10.0.0.1", 1, "a.txt");
    let mut conns = 2u16;
    for _ in 0..7 {
        hosts.record_request("10.0.0.1", 1);
    }
    match Server::process_get(&mut hosts, &mut conns, &data, 16, &header, &entries) {
        GetOutcome::Serve { buffer_size, .. } => assert_eq!(buffer_size, 8192 / (3 + 8 / 4)),
        _ => panic!("expected a transfer"),
    }
}

#[test]
fn answer_is_read_back_by_the_requester() {
    let mut hosts = table(&[("a", "10.0.0.1", 1)]);
    let mut conns = 0u16;
    let entries = vec!["dir/a.txt".to_string()];
    let (header, data) = get_request_from("10.0.0.1", 1, "a.txt");
    let (reply, size) = match Server::process_get(&mut hosts, &mut conns, &data, 16, &header, &entries) {
        GetOutcome::Serve { reply, buffer_size, .. } => (reply, buffer_size),
        _ => panic!("expected a transfer"),
    };
    let answer = Server::ok_reply(reply, 40000, size);
    let got = received(&answer);
    let back = extract_header(&got).unwrap();
    assert_eq!(back.request, "OK\0\0");
    let mut requests = vec!["a.txt".to_string(), "z".to_string()];
    match Server::process_ok(&mut requests, &got, 16) {
        OkOutcome::Fetch { file, tcp_port, buffer_size } => {
            assert_eq!(file, "a.txt");
            assert_eq!(tcp_port, 40000);
            assert_eq!(buffer_size, 8192);
        }
        _ => panic!("expected a fetch"),
    }
    assert_eq!(requests, vec!["z".to_string()]);
    assert!(matches!(Server::process_ok(&mut requests, &got, 16), OkOutcome::Unrequested));
}

#[test]
fn process_ok_rejects_malformed_answers() {
    let mut requests = vec!["a".to_string()];
    let mut data = vec![0u8; 18];
    data[17] = 5;
    assert!(matches!(Server::process_ok(&mut requests, &data, 16), OkOutcome::Malformed));
    assert_eq!(requests.len(), 1);
    let mut data = vec![0u8; 20];
    data[17] = 1;
    data[18] = b'a';
    assert!(matches!(Server::process_ok(&mut requests, &data, 16), OkOutcome::Malformed));
    assert!(requests.is_empty());
}

#[test]
fn ok_reply_appends_port_and_size() {
    let r = Server::ok_reply(vec![1, 2], 0x0102, 0x0304);
    assert_eq!(r, vec![1, 2, 1, 2, 3, 4]);
}

#[test]
fn release_connection_counts_down() {
    let mut c = 3u16;
    Server::release_connection(&mut c);
    assert_eq!(c, 2);
}

#[test]
fn start_discovery_shares_with_every_other_host() {
    let hosts = table(&[("me", "127.0.0.1", 8080), ("a", "10.0.0.1", 1)]);
    let out = Server::start_discovery(&hosts, "127.0.0.1", 8080).unwrap();
    assert_eq!(out.len(), 1);
    assert_eq!(out[0].ipaddr, "10.0.0.1");
    assert_eq!(out[0].port, 1);
    let h = Header::new("disc", 1, 8080, "10.0.0.1", "127.0.0.1");
    assert_eq!(out[0].payload, Server::send_discovery(&hosts, &h)[0]);
    let alone = table(&[("me", "127.0.0.1", 8080)]);
    assert_eq!(Server::start_discovery(&alone, "127.0.0.1", 8080).unwrap().len(), 0);
}

#[test]
fn start_discovery_refuses_what_does_not_fit() {
    let long = "x".repeat(250);
    let mut t = HostTable::new();
    for i in 0..40u16 {
        t.insert(Host::new(long.clone(), "10.0.0.1".to_string(), i));
    }
    assert!(Server::start_discovery(&t, "127.0.0.1", 8080).is_none());
}

#[test]
fn start_builds_the_node_and_first_discovery() {
    let (server, discovery) = start("8081", None);
    assert_eq!(server.udp_port, 8081);
    assert_eq!(server.ipaddr, "127.0.0.1");
    assert_eq!(server.hosts.len(), 0);
    assert!(server.requests.is_empty());
    assert_eq!(server.connection_num, 0);
    assert_eq!(discovery.request, "disc");
    assert_eq!(discovery.dest_port, 8000);
    assert_eq!(discovery.src_port, 8080);
    assert_eq!(discovery.dest_ip, "127.0.0.1");
    assert_eq!(discovery.src_ip, "127.0.0.1");
}

#[test]
fn start_knows_the_hosts_of_the_file() {
    let content = "a 10.0.0.1 1\nb 10.0.0.2 2\nc 10.0.0.1 1";
    let (server, _) = start("9000", Some(content));
    assert_eq!(
        names(&server.hosts),
        vec![
            ("c".to_string(), "10.0.0.1".to_string(), 1, 0),
            ("b".to_string(), "10.0.0.2".to_string(), 2, 0)
        ]
    );
}

#[test]
fn get_with_nobody_else_only_records_the_request() {
    let hosts = table(&[("me", "127.0.0.1", 8080)]);
    let mut requests = Vec::new();
    let long = "n".repeat(9000);
    let out = Server::get(&mut requests, &hosts, &long, 8080, "127.0.0.1");
    assert!(out.is_empty());
    assert_eq!(requests, vec![long]);
    let empty = HostTable::new();
    let out = Server::get(&mut requests, &empty, "f", 1, "not an address");
    assert!(out.is_empty());
    assert_eq!(requests.len(), 2);
}

#[test]
fn discovery_without_hosts_is_the_header_alone() {
    let h = Header::new("disc", 8000, 8080, "127.0.0.1", "127.0.0.1");
    let packets = Server::send_discovery(&HostTable::new(), &h);
    let mut expect = vec![0u8; 16];
    copy_header(&mut expect, &h);
    assert_eq!(packets, vec![expect]);
}

#[test]
fn overlong_answer_is_dropped_when_busy() {
    let name = "f".repeat(8171);
    let mut hosts = table(&[("a", "10.0.0.1", 1)]);
    let entries = vec![name.clone()];
    let h = Header::new("get", 9000, 1, "127.0.0.1", "10.0.0.1");
    let packet = create_file_packet(&h, &name);
    let data = received(&packet);
    let header = extract_header(&data).unwrap();
    let mut busy = MAX_CONNECTION + 1;
    assert!(matches!(
        Server::process_get(&mut hosts, &mut busy, &data, 16, &header, &entries),
        GetOutcome::Busy
    ));
    assert_eq!(busy, MAX_CONNECTION + 1);
    let mut free = 0u16;
    assert!(matches!(
        Server::process_get(&mut hosts, &mut free, &data, 16, &header, &entries),
        GetOutcome::Malformed
    ));
    assert_eq!(free, 1);
}

#[test]
fn name_too_long_for_any_answer_is_malformed_before_admission() {
    let name = "g".repeat(8175);
    let mut hosts = table(&[("a", "10.0.0.1", 1)]);
    let entries = vec![name.clone()];
    let mut data = vec![0u8; 8192];
    let h = Header::new("get", 9000, 1, "127.0.0.1", "10.0.0.1");
    copy_header(&mut data, &h);
    data[16] = (8175u16 >> 8) as u8;
    data[17] = (8175u16 & 0xff) as u8;
    data[18..18 + 8174].copy_from_slice(&name.as_bytes()[..8174]);
    // the name runs past the datagram: it cannot be read at all
    let header = extract_header(&data).unwrap();
    let mut busy = MAX_CONNECTION + 1;
    assert!(matches!(
        Server::process_get(&mut hosts, &mut busy, &data, 16, &header, &entries),
        GetOutcome::Malformed
    ));
    let mut big = vec![0u8; 8200];
    big[..8192].copy_from_slice(&data);
    big[16] = (8175u16 >> 8) as u8;
    big[17] = (8175u16 & 0xff) as u8;
    big[18..18 + 8175].copy_from_slice(name.as_bytes());
    assert!(matches!(
        Server::process_get(&mut hosts, &mut busy, &big, 16, &header, &entries),
        GetOutcome::Malformed
    ));
    assert_eq!(busy, MAX_CONNECTION + 1);
}
