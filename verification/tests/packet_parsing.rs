use speed_limit::packet::{parse_flow_key_from_packet, FlowKey, IpAddress};

fn ipv4_packet(protocol: u8, src: [u8; 4], sport: u16, dst: [u8; 4], dport: u16) -> Vec<u8> {
    let mut p = vec![0u8; 28];
    p[0] = 0x45;
    p[9] = protocol;
    p[12..16].copy_from_slice(&src);
    p[16..20].copy_from_slice(&dst);
    p[20..22].copy_from_slice(&sport.to_be_bytes());
    p[22..24].copy_from_slice(&dport.to_be_bytes());
    p
}

fn ipv6_packet(protocol: u8, src: [u8; 16], sport: u16, dst: [u8; 16], dport: u16) -> Vec<u8> {
    let mut p = vec![0u8; 48];
    p[0] = 0x60;
    p[6] = protocol;
    p[8..24].copy_from_slice(&src);
    p[24..40].copy_from_slice(&dst);
    p[40..42].copy_from_slice(&sport.to_be_bytes());
    p[42..44].copy_from_slice(&dport.to_be_bytes());
    p
}

#[test]
fn ipv4_tcp_outbound_is_local_source() {
    let p = ipv4_packet(6, [192, 168, 1, 10], 50000, [8, 8, 8, 8], 443);
    let key = parse_flow_key_from_packet(&p, true).unwrap();
    assert_eq!(
        key,
        FlowKey {
            protocol: 6,
            local_addr: IpAddress::V4(0xC0A8_010A),
            local_port: 50000,
            remote_addr: IpAddress::V4(0x0808_0808),
            remote_port: 443,
        }
    );
}

#[test]
fn ipv4_udp_inbound_is_local_destination() {
    let p = ipv4_packet(17, [1, 2, 3, 4], 53, [10, 0, 0, 2], 61000);
    let key = parse_flow_key_from_packet(&p, false).unwrap();
    assert_eq!(
        key,
        FlowKey {
            protocol: 17,
            local_addr: IpAddress::V4(0x0A00_0002),
            local_port: 61000,
            remote_addr: IpAddress::V4(0x0102_0304),
            remote_port: 53,
        }
    );
}

#[test]
fn ipv4_ports_follow_the_declared_header_length() {
    // IHL 6: a 24-byte header with 4 bytes of options before the ports.
    let mut p = vec![0u8; 28];
    p[0] = 0x46;
    p[9] = 6;
    p[24..26].copy_from_slice(&1234u16.to_be_bytes());
    p[26..28].copy_from_slice(&80u16.to_be_bytes());
    let key = parse_flow_key_from_packet(&p, true).unwrap();
    assert_eq!(key.local_port, 1234);
    assert_eq!(key.remote_port, 80);
}

#[test]
fn ipv4_other_protocols_have_no_flow() {
    let p = ipv4_packet(1, [1, 1, 1, 1], 0, [2, 2, 2, 2], 0);
    assert_eq!(parse_flow_key_from_packet(&p, true), None);
}

#[test]
fn ipv4_too_short_for_ports_has_no_flow() {
    let mut p = ipv4_packet(6, [1, 1, 1, 1], 1, [2, 2, 2, 2], 2);
    p.truncate(23);
    assert_eq!(parse_flow_key_from_packet(&p, true), None);
}

#[test]
fn packets_under_twenty_bytes_have_no_flow() {
    let p = ipv4_packet(6, [1, 1, 1, 1], 1, [2, 2, 2, 2], 2);
    assert_eq!(parse_flow_key_from_packet(&p[..19], true), None);
    assert_eq!(parse_flow_key_from_packet(&[], false), None);
}

#[test]
fn unknown_ip_version_has_no_flow() {
    let mut p = ipv4_packet(6, [1, 1, 1, 1], 1, [2, 2, 2, 2], 2);
    p[0] = 0x55;
    assert_eq!(parse_flow_key_from_packet(&p, true), None);
}

#[test]
fn ipv6_tcp_outbound() {
    let mut src = [0u8; 16];
    src[0] = 0x20;
    src[1] = 0x01;
    src[15] = 1;
    let mut dst = [0u8; 16];
    dst[15] = 2;
    let p = ipv6_packet(6, src, 40000, dst, 443);
    let key = parse_flow_key_from_packet(&p, true).unwrap();
    assert_eq!(
        key,
        FlowKey {
            protocol: 6,
            local_addr: IpAddress::V6(u128::from_be_bytes(src)),
            local_port: 40000,
            remote_addr: IpAddress::V6(2),
            remote_port: 443,
        }
    );
}

#[test]
fn ipv6_needs_the_four_port_bytes() {
    let p = ipv6_packet(17, [1; 16], 1, [2; 16], 2);
    assert_eq!(parse_flow_key_from_packet(&p[..43], true), None);
    assert!(parse_flow_key_from_packet(&p[..44], true).is_some());
}

#[test]
fn ipv6_shorter_than_its_header_has_no_flow() {
    let p = ipv6_packet(6, [1; 16], 1, [2; 16], 2);
    assert_eq!(parse_flow_key_from_packet(&p[..39], true), None);
}

#[test]
fn ipv6_other_protocols_have_no_flow() {
    let p = ipv6_packet(58, [1; 16], 1, [2; 16], 2);
    assert_eq!(parse_flow_key_from_packet(&p, false), None);
}

#[test]
fn outbound_and_inbound_readings_mirror_each_other() {
    let p = ipv4_packet(6, [10, 1, 2, 3], 1111, [10, 9, 8, 7], 2222);
    let out = parse_flow_key_from_packet(&p, true).unwrap();
    let inb = parse_flow_key_from_packet(&p, false).unwrap();
    assert_eq!(out.local_addr, inb.remote_addr);
    assert_eq!(out.remote_addr, inb.local_addr);
    assert_eq!(out.local_port, inb.remote_port);
    assert_eq!(out.remote_port, inb.local_port);
    assert_eq!(out.protocol, inb.protocol);
}
