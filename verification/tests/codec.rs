use udp_share::header::{classify_request, copy_header, extract_header, Header, RequestKind};
use udp_share::text::{parse_u16, parse_u8, same_text, split_text, strip_nul, trim_text};
use udp_share::wire::{
    copy_ip, copy_str, copy_u16, extract_ip, extract_str, extract_u16, parse_ip,
};

#[test]
fn parse_u16_reads_decimal_ports() {
    assert_eq!(parse_u16("8080"), Some(8080));
    assert_eq!(parse_u16("+5"), Some(5));
    assert_eq!(parse_u16("007"), Some(7));
    assert_eq!(parse_u16("65535"), Some(65535));
    assert_eq!(parse_u16("65536"), None);
    assert_eq!(parse_u16("99999999999"), None);
    assert_eq!(parse_u16(""), None);
    assert_eq!(parse_u16("+"), None);
    assert_eq!(parse_u16("-1"), None);
    assert_eq!(parse_u16("12a"), None);
    assert_eq!(parse_u16(" 12"), None);
}

#[test]
fn parse_u16_agrees_with_std() {
    for s in ["0", "1", "+0", "65535", "65536", "", "+", "-0", "1 ", "00065535", "٣"] {
        assert_eq!(parse_u16(s), s.parse::<u16>().ok(), "input {:?}", s);
    }
}

#[test]
fn parse_u8_reads_octets() {
    assert_eq!(parse_u8("255"), Some(255));
    assert_eq!(parse_u8("256"), None);
    assert_eq!(parse_u8("0"), Some(0));
}

#[test]
fn split_text_keeps_empty_pieces() {
    let pieces = split_text("a..b", '.');
    assert_eq!(pieces, vec!["a".to_string(), "".to_string(), "b".to_string()]);
    assert_eq!(split_text("", '.'), vec!["".to_string()]);
    assert_eq!(split_text("x/", '/'), vec!["x".to_string(), "".to_string()]);
    assert_eq!(split_text("héllo wörld", ' '), vec!["héllo".to_string(), "wörld".to_string()]);
}

#[test]
fn trim_text_matches_str_trim() {
    for s in ["  get \n", "get\0", "\u{3000}x\u{a0}", "", "   ", "a b"] {
        assert_eq!(trim_text(s), s.trim(), "input {:?}", s);
    }
}

#[test]
fn strip_nul_removes_every_nul() {
    assert_eq!(strip_nul("get\0"), "get");
    assert_eq!(strip_nul("\0O\0K\0"), "OK");
    assert_eq!(strip_nul("disc"), "disc");
}

#[test]
fn same_text_compares_characters() {
    assert!(same_text("get", "get"));
    assert!(!same_text("get", "get\0"));
    assert!(!same_text("OK", "Ok"));
}

#[test]
fn u16_is_big_endian_and_reads_back() {
    let mut buf = vec![0u8; 6];
    copy_u16(&mut buf, 2, 0x1f90);
    assert_eq!(buf, vec![0, 0, 0x1f, 0x90, 0, 0]);
    assert_eq!(extract_u16(&buf, 2), 8080);
    for v in [0u16, 1, 255, 256, 65535] {
        let mut b = vec![7u8; 2];
        copy_u16(&mut b, 0, v);
        assert_eq!(extract_u16(&b, 0), v);
    }
}

#[test]
fn strings_are_written_as_utf8_and_read_back() {
    let mut buf = vec![0u8; 10];
    copy_str(&mut buf, 1, "héllo");
    assert_eq!(&buf[1..7], "héllo".as_bytes());
    assert_eq!(buf[0], 0);
    assert_eq!(buf[7], 0);
    assert_eq!(extract_str(&buf, 1, 7), Some("héllo".to_string()));
    assert_eq!(extract_str(&buf, 1, 3), None);
    assert_eq!(extract_str(&[0xff, 0x41], 0, 2), None);
    assert_eq!(extract_str(&[0x41, 0x42], 0, 0), Some(String::new()));
}

#[test]
fn addresses_are_four_octets() {
    assert_eq!(parse_ip("127.0.0.1"), Some(vec![127, 0, 0, 1]));
    assert_eq!(parse_ip("010.+2.0.255"), Some(vec![10, 2, 0, 255]));
    assert_eq!(parse_ip("256.0.0.1"), None);
    assert_eq!(parse_ip("1.2.3"), None);
    assert_eq!(parse_ip("1.2.3.4.5"), None);
    assert_eq!(parse_ip("1..3.4"), None);
    assert_eq!(parse_ip("localhost"), None);
    let mut buf = vec![0u8; 6];
    copy_ip(&mut buf, 1, "192.168.1.20");
    assert_eq!(buf, vec![0, 192, 168, 1, 20, 0]);
    assert_eq!(extract_ip(&buf, 1), "192.168.1.20");
    assert_eq!(extract_ip(&[0, 10, 0, 255], 0), "0.10.0.255");
}

#[test]
fn address_text_reads_back_to_the_same_octets() {
    for o in [[0u8, 0, 0, 0], [255, 255, 255, 255], [9, 10, 99, 100], [127, 0, 0, 1]] {
        let text = extract_ip(&o, 0);
        assert_eq!(parse_ip(&text), Some(o.to_vec()));
    }
}

#[test]
fn header_new_keeps_fields() {
    let h = Header::new("get", 1, 2, "10.0.0.1", "10.0.0.2");
    assert_eq!(h.request, "get");
    assert_eq!(h.dest_port, 1);
    assert_eq!(h.src_port, 2);
    assert_eq!(h.dest_ip, "10.0.0.1");
    assert_eq!(h.src_ip, "10.0.0.2");
}

#[test]
fn header_layout_is_sixteen_bytes() {
    let h = Header::new("get", 8000, 8080, "127.0.0.1", "10.1.2.3");
    let mut buf = vec![0u8; 20];
    assert_eq!(copy_header(&mut buf, &h), 16);
    assert_eq!(
        buf,
        vec![b'g', b'e', b't', 0, 0x1f, 0x40, 0x1f, 0x90, 127, 0, 0, 1, 10, 1, 2, 3, 0, 0, 0, 0]
    );
}

#[test]
fn header_request_padding_comes_from_the_buffer() {
    let h = Header::new("OK", 1, 2, "1.1.1.1", "2.2.2.2");
    let mut buf = vec![9u8; 16];
    copy_header(&mut buf, &h);
    assert_eq!(&buf[0..4], &[b'O', b'K', 9, 9]);
}

#[test]
fn header_reads_back() {
    for req in ["get", "disc", "OK"] {
        let h = Header::new(req, 5000, 6001, "192.168.0.10", "8.8.4.4");
        let mut buf = vec![0u8; 8192];
        copy_header(&mut buf, &h);
        let back = extract_header(&buf).unwrap();
        assert_eq!(strip_nul(&back.request), req);
        assert_eq!(back.dest_port, 5000);
        assert_eq!(back.src_port, 6001);
        assert_eq!(back.dest_ip, "192.168.0.10");
        assert_eq!(back.src_ip, "8.8.4.4");
    }
}

#[test]
fn header_request_is_trimmed_but_keeps_nul() {
    let mut data = vec![b' '; 16];
    data[0] = b'g';
    data[1] = b'e';
    data[2] = b't';
    let h = extract_header(&data).unwrap();
    assert_eq!(h.request, "get");
    data[3] = 0;
    assert_eq!(extract_header(&data).unwrap().request, "get\0");
    data[0] = 0xc3;
    assert!(extract_header(&data).is_none());
}

#[test]
fn requests_are_classified() {
    assert!(matches!(classify_request("get\0"), RequestKind::Get));
    assert!(matches!(classify_request("get"), RequestKind::Get));
    assert!(matches!(classify_request("disc"), RequestKind::Discovery));
    assert!(matches!(classify_request("OK\0\0"), RequestKind::Found));
    assert!(matches!(classify_request("\0O\0K"), RequestKind::Found));
    assert!(matches!(classify_request("ok"), RequestKind::Other));
    assert!(matches!(classify_request(""), RequestKind::Other));
    assert!(matches!(classify_request("gets"), RequestKind::Other));
}
