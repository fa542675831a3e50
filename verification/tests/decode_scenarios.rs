use netmon::analyzers::{dns_analyzer, ports_activity_analyzer, Alert};
use netmon::caches::{cache_event, CachableEvent, Caches, IpAddress, IpPair};
use netmon::config::{Config, DnsAnalyzerConfig, PortsActivityAnalyzerConfig};
use netmon::decode::decode_frame;

fn v4(a: u8, b: u8, c: u8, d: u8) -> IpAddress {
    IpAddress::V4(
        ((a as u32) << 24) | ((b as u32) << 16) | ((c as u32) << 8) | (d as u32),
    )
}

/// An Ethernet frame around `payload` with the given EtherType.
fn ethernet_frame(ethertype: u16, payload: &[u8]) -> Vec<u8> {
    let mut frame = vec![0u8; 12];
    frame.push((ethertype >> 8) as u8);
    frame.push(ethertype as u8);
    frame.extend_from_slice(payload);
    frame
}

/// A minimal IPv4 datagram: 20-byte header, no options.
fn ipv4_datagram(src: [u8; 4], dst: [u8; 4], protocol: u8, payload: &[u8]) -> Vec<u8> {
    let total_length = (20 + payload.len()) as u16;
    let mut p = vec![0u8; 20];
    p[0] = 0x45; // version 4, header length 5 words
    p[2] = (total_length >> 8) as u8;
    p[3] = total_length as u8;
    p[8] = 64; // time to live
    p[9] = protocol;
    p[12..16].copy_from_slice(&src);
    p[16..20].copy_from_slice(&dst);
    p.extend_from_slice(payload);
    p
}

/// A minimal TCP segment: 20-byte header, no options.
fn tcp_segment(src_port: u16, dst_port: u16, flags: u8, payload: &[u8]) -> Vec<u8> {
    let mut p = vec![0u8; 20];
    p[0] = (src_port >> 8) as u8;
    p[1] = src_port as u8;
    p[2] = (dst_port >> 8) as u8;
    p[3] = dst_port as u8;
    p[12] = 5 << 4; // data offset 5 words
    p[13] = flags;
    p.extend_from_slice(payload);
    p
}

/// A minimal UDP datagram.
fn udp_datagram(src_port: u16, dst_port: u16, payload: &[u8]) -> Vec<u8> {
    let length = (8 + payload.len()) as u16;
    let mut p = vec![0u8; 8];
    p[0] = (src_port >> 8) as u8;
    p[1] = src_port as u8;
    p[2] = (dst_port >> 8) as u8;
    p[3] = dst_port as u8;
    p[4] = (length >> 8) as u8;
    p[5] = length as u8;
    p.extend_from_slice(payload);
    p
}

/// A DNS query with one question for `name`, no compression.
fn dns_query(name: &str) -> Vec<u8> {
    let mut p = vec![0u8; 12];
    p[0] = 0xab; // id
    p[1] = 0xcd;
    p[5] = 1; // one question
    for label in name.split('.') {
        p.push(label.len() as u8);
        p.extend_from_slice(label.as_bytes());
    }
    p.push(0);
    p.extend_from_slice(&[0, 1, 0, 1]); // qtype A, qclass IN
    p
}

fn decode(frame: &[u8]) -> Vec<CachableEvent> {
    let mut out = Vec::new();
    decode_frame(frame, &mut out);
    out
}

#[test]
fn ipv4_udp_frame_decodes_to_size_and_port() {
    let udp = udp_datagram(5353, 8080, &[1, 2, 3]);
    let ip = ipv4_datagram([1, 2, 3, 4], [5, 6, 7, 8], 17, &udp);
    let frame = ethernet_frame(0x0800, &ip);
    let events = decode(&frame);
    assert_eq!(events.len(), 2);
    match &events[0] {
        CachableEvent::IpSize(dst, size) => {
            assert_eq!(*dst, v4(5, 6, 7, 8));
            assert_eq!(*size, 31); // 20-byte header plus 11-byte UDP datagram
        }
        _ => panic!("expected a byte-count event first"),
    }
    match &events[1] {
        CachableEvent::Port(pair, port) => {
            assert_eq!(*pair, IpPair::new(v4(1, 2, 3, 4), v4(5, 6, 7, 8)));
            assert_eq!(*port, 8080);
        }
        _ => panic!("expected a port event second"),
    }
}

#[test]
fn tcp_syn_frame_decodes_to_syn_event() {
    let tcp = tcp_segment(40000, 22, 0x02, &[]);
    let ip = ipv4_datagram([1, 2, 3, 4], [5, 6, 7, 8], 6, &tcp);
    let frame = ethernet_frame(0x0800, &ip);
    let events = decode(&frame);
    assert_eq!(events.len(), 3);
    assert!(matches!(events[1], CachableEvent::Port(_, 22)));
    match &events[2] {
        CachableEvent::TcpSyn(src) => assert_eq!(*src, v4(1, 2, 3, 4)),
        _ => panic!("expected a SYN event"),
    }
}

#[test]
fn tcp_without_syn_flag_yields_no_syn_event() {
    let tcp = tcp_segment(40000, 22, 0x10, &[]);
    let ip = ipv4_datagram([1, 2, 3, 4], [5, 6, 7, 8], 6, &tcp);
    let frame = ethernet_frame(0x0800, &ip);
    let events = decode(&frame);
    assert_eq!(events.len(), 2);
    assert!(!events.iter().any(|e| matches!(e, CachableEvent::TcpSyn(_))));
}

#[test]
fn short_or_foreign_frames_yield_nothing() {
    assert!(decode(&[0u8; 13]).is_empty());
    // An ARP EtherType is ignored.
    let frame = ethernet_frame(0x0806, &[0u8; 28]);
    assert!(decode(&frame).is_empty());
    // An IPv4 frame with a truncated header is dropped.
    let frame = ethernet_frame(0x0800, &[0x45, 0, 0]);
    assert!(decode(&frame).is_empty());
}

#[test]
fn scenario_port_scan_alerts_with_count_21() {
    let mut caches = Caches::from_config(&Config::default());
    for port in 1..=21u16 {
        let tcp = tcp_segment(40000, port, 0, &[]);
        let ip = ipv4_datagram([1, 2, 3, 4], [5, 6, 7, 8], 6, &tcp);
        let frame = ethernet_frame(0x0800, &ip);
        for event in decode(&frame) {
            cache_event(&mut caches, event, 1);
        }
    }
    let cfg = PortsActivityAnalyzerConfig { cycle: 5, trigger_count: 20 };
    let alerts = ports_activity_analyzer(&mut caches.ports_touched, &cfg, 1);
    assert_eq!(alerts.len(), 1);
    match &alerts[0] {
        Alert::PortsActivity { src, dst, count } => {
            assert_eq!(*src, v4(1, 2, 3, 4));
            assert_eq!(*dst, v4(5, 6, 7, 8));
            assert_eq!(*count, 21);
        }
        _ => panic!("wrong alert kind"),
    }
}

#[test]
fn scenario_malicious_dns_query_alerts_and_resets() {
    let mut caches = Caches::from_config(&Config::default());
    let dns = dns_query("google.com");
    let udp = udp_datagram(5353, 53, &dns);
    let ip = ipv4_datagram([9, 9, 9, 9], [8, 8, 8, 8], 17, &udp);
    let frame = ethernet_frame(0x0800, &ip);
    let events = decode(&frame);
    // The DNS question decodes beside the size and port observations.
    assert!(events.iter().any(
        |e| matches!(e, CachableEvent::Dns(src, name) if *src == v4(9, 9, 9, 9) && name == "google.com"),
    ));
    for event in events {
        cache_event(&mut caches, event, 1);
    }
    let cfg = DnsAnalyzerConfig { cycle: 1, malicious_domains: vec!["google.com".to_string()] };
    let alerts = dns_analyzer(&mut caches.dns, &cfg);
    assert_eq!(alerts.len(), 1);
    match &alerts[0] {
        Alert::MaliciousDns { src, query_name } => {
            assert_eq!(*src, v4(9, 9, 9, 9));
            assert_eq!(query_name, "google.com");
        }
        _ => panic!("wrong alert kind"),
    }
    assert_eq!(caches.dns.map.len(), 0);
}

#[test]
fn dns_response_yields_no_query_events() {
    let mut response = dns_query("google.com");
    response[2] |= 0x80; // the QR bit marks a response
    let udp = udp_datagram(53, 5353, &response);
    let ip = ipv4_datagram([8, 8, 8, 8], [9, 9, 9, 9], 17, &udp);
    let frame = ethernet_frame(0x0800, &ip);
    let events = decode(&frame);
    assert!(!events.iter().any(|e| matches!(e, CachableEvent::Dns(_, _))));
}

#[test]
fn garbage_udp_payload_yields_no_query_events() {
    let udp = udp_datagram(1000, 2000, &[0xff; 40]);
    let ip = ipv4_datagram([1, 1, 1, 1], [2, 2, 2, 2], 17, &udp);
    let frame = ethernet_frame(0x0800, &ip);
    let events = decode(&frame);
    assert_eq!(events.len(), 2); // size and port only
}

#[test]
fn ipv6_tcp_frame_decodes_size_port_and_syn() {
    let tcp = tcp_segment(40000, 443, 0x02, &[]);
    let mut ip6 = vec![0u8; 40];
    ip6[0] = 0x60; // version 6
    ip6[4] = 0;
    ip6[5] = tcp.len() as u8; // payload length
    ip6[6] = 6; // next header: TCP
    ip6[7] = 64; // hop limit
    ip6[23] = 1; // source ends in ::1
    ip6[39] = 2; // destination ends in ::2
    ip6.extend_from_slice(&tcp);
    let frame = ethernet_frame(0x86DD, &ip6);
    let events = decode(&frame);
    assert_eq!(events.len(), 3);
    match &events[0] {
        CachableEvent::IpSize(dst, size) => {
            assert_eq!(*dst, IpAddress::V6(2));
            assert_eq!(*size, 20);
        }
        _ => panic!("expected a byte-count event first"),
    }
    match &events[1] {
        CachableEvent::Port(pair, port) => {
            assert_eq!(pair.src, IpAddress::V6(1));
            assert_eq!(pair.dst, IpAddress::V6(2));
            assert_eq!(*port, 443);
        }
        _ => panic!("expected a port event"),
    }
    assert!(matches!(events[2], CachableEvent::TcpSyn(IpAddress::V6(1))));
}
