use speed_limit::flow_table::FlowTable;
use speed_limit::packet::{parse_flow_key_from_packet, FlowKey, IpAddress};
use speed_limit::rules::{add_process_rule, ProcessRule};
use speed_limit::shaper::{needs_delay, window_is_over, ShapingState};
use speed_limit::token_bucket::{TokenBucket, MAX_WAIT_NANOS};

fn packet(local_port: u16, len: usize) -> Vec<u8> {
    let mut p = vec![0u8; len.max(24)];
    p[0] = 0x45;
    p[9] = 6;
    p[12..16].copy_from_slice(&[192, 168, 0, 2]);
    p[16..20].copy_from_slice(&[93, 184, 216, 34]);
    p[20..22].copy_from_slice(&local_port.to_be_bytes());
    p[22..24].copy_from_slice(&443u16.to_be_bytes());
    p
}

fn inbound_packet(local_port: u16, len: usize) -> Vec<u8> {
    let mut p = vec![0u8; len.max(24)];
    p[0] = 0x45;
    p[9] = 6;
    p[12..16].copy_from_slice(&[93, 184, 216, 34]);
    p[16..20].copy_from_slice(&[192, 168, 0, 2]);
    p[20..22].copy_from_slice(&443u16.to_be_bytes());
    p[22..24].copy_from_slice(&local_port.to_be_bytes());
    p
}

fn flow(local_port: u16) -> FlowKey {
    FlowKey {
        protocol: 6,
        local_addr: IpAddress::V4(0xC0A8_0002),
        local_port,
        remote_addr: IpAddress::V4(0x5DB8_D822),
        remote_port: 443,
    }
}

fn rule(name: &str, download_limit: u64, upload_limit: u64) -> ProcessRule {
    ProcessRule { process_name: name.to_string(), download_limit, upload_limit }
}

#[test]
fn full_bucket_lets_a_packet_through() {
    let mut b = TokenBucket::new(1000, 0);
    assert_eq!(b.refill_and_take(0, 500), 0);
}

#[test]
fn shortfall_wait_is_capped_at_100_ms() {
    let mut b = TokenBucket::new(1000, 0);
    assert_eq!(b.refill_and_take(0, 500), 0);
    // 100 bytes short at 1000 B/s is exactly 100 ms.
    assert_eq!(b.refill_and_take(0, 600), 100_000_000);
    // 50 ms later the bucket has earned 50 bytes back and is 50 short.
    assert_eq!(b.refill_and_take(50_000_000, 0), 50_000_000);
    let mut c = TokenBucket::new(3, 0);
    assert_eq!(c.refill_and_take(0, 4), MAX_WAIT_NANOS);
}

#[test]
fn wait_is_shortfall_over_rate() {
    let mut b = TokenBucket::new(1_000_000, 0);
    assert_eq!(b.refill_and_take(0, 1_000_000), 0);
    assert_eq!(b.refill_and_take(0, 1500), 1_500_000);
    assert_eq!(b.refill_and_take(500_000, 0), 1_000_000);
}

#[test]
fn idle_second_refills_the_bucket_but_no_further() {
    let mut b = TokenBucket::new(1000, 0);
    assert_eq!(b.refill_and_take(0, 1000), 0);
    assert_eq!(b.refill_and_take(5_000_000_000, 1000), 0);
    assert_eq!(b.refill_and_take(0, 1), 1_000_000);
}

#[test]
fn huge_elapsed_time_only_fills_the_bucket() {
    let mut b = TokenBucket::new(u64::MAX, 0);
    assert_eq!(b.refill_and_take(u128::MAX, 0), 0);
    assert_eq!(b.rate(), u64::MAX);
}

#[test]
fn unlimited_bucket_never_waits() {
    let mut b = TokenBucket::new(0, 0);
    assert_eq!(b.refill_and_take(0, 1_000_000_000), 0);
    assert_eq!(b.consume(5, usize::MAX), 0);
}

#[test]
fn consume_refills_for_the_time_since_the_last_packet() {
    let mut b = TokenBucket::new(1000, 5_000);
    assert_eq!(b.consume(5_000, 500), 0);
    assert_eq!(b.consume(5_000, 600), 100_000_000);
    // 50 ms later the bucket has earned 50 bytes back and is 50 short.
    assert_eq!(b.consume(50_005_000, 0), 50_000_000);
    // A clock reading before the last refill earns nothing.
    assert_eq!(b.consume(0, 0), 50_000_000);
}

#[test]
fn a_shortfall_under_a_nanosecond_still_waits() {
    // At 3 B/s, one byte takes 333_333_333.3 ns; here the bucket is a third
    // of a byte short.
    let mut b = TokenBucket::new(3_000_000_000, 0);
    assert_eq!(b.refill_and_take(0, 3_000_000_000), 0);
    assert_eq!(b.refill_and_take(0, 1), 1);
}

#[test]
fn unowned_traffic_is_counted_in_totals_only() {
    let mut s = ShapingState::new(0, 0, 0);
    let flows = FlowTable::new();
    let rules: Vec<ProcessRule> = Vec::new();
    assert_eq!(s.on_packet(&packet(1000, 100), true, 0, &flows, &rules), 0);
    assert_eq!(s.on_packet(&inbound_packet(1000, 60), false, 0, &flows, &rules), 0);
    let report = s.close_window();
    assert_eq!(report.upload_bytes, 100);
    assert_eq!(report.download_bytes, 60);
    assert!(report.processes.is_empty());
}

#[test]
fn owned_traffic_is_counted_per_process() {
    let mut s = ShapingState::new(0, 0, 0);
    let mut flows = FlowTable::new();
    flows.on_flow_event(flow(1000), 77, "app.exe".to_string());
    let rules: Vec<ProcessRule> = Vec::new();
    s.on_packet(&packet(1000, 100), true, 0, &flows, &rules);
    s.on_packet(&inbound_packet(1000, 40), false, 0, &flows, &rules);
    let report = s.close_window();
    assert_eq!(report.processes, vec![("app.exe".to_string(), 40, 100)]);
}

#[test]
fn rule_bucket_pays_for_its_process_only() {
    let mut s = ShapingState::new(0, 1000, 0);
    let mut flows = FlowTable::new();
    flows.on_flow_event(flow(1000), 77, "app.exe".to_string());
    let rules = vec![rule("APP.EXE", 0, 1000)];
    assert_eq!(parse_flow_key_from_packet(&packet(1000, 600), true), Some(flow(1000)));
    assert_eq!(s.on_packet(&packet(1000, 600), true, 0, &flows, &rules), 0);
    assert_eq!(s.on_packet(&packet(1000, 600), true, 0, &flows, &rules), MAX_WAIT_NANOS);
    // The global upload bucket was not touched by the rule's packets.
    assert_eq!(s.on_packet(&packet(2000, 600), true, 0, &flows, &rules), 0);
    assert_eq!(s.on_packet(&packet(2000, 600), true, 0, &flows, &rules), MAX_WAIT_NANOS);
}

#[test]
fn rule_without_limit_in_a_direction_lets_it_through() {
    let mut s = ShapingState::new(1, 1, 0);
    let mut flows = FlowTable::new();
    flows.on_flow_event(flow(1000), 77, "app.exe".to_string());
    let rules = vec![rule("app.exe", 500, 0)];
    for _ in 0..5 {
        assert_eq!(s.on_packet(&packet(1000, 1500), true, 0, &flows, &rules), 0);
    }
    assert_eq!(s.on_packet(&inbound_packet(1000, 400), false, 0, &flows, &rules), 0);
    assert_eq!(s.on_packet(&inbound_packet(1000, 400), false, 0, &flows, &rules), MAX_WAIT_NANOS);
}

#[test]
fn window_report_is_busiest_first_and_resets() {
    let mut s = ShapingState::new(0, 0, 0);
    let mut flows = FlowTable::new();
    flows.on_flow_event(flow(1), 1, "a.exe".to_string());
    flows.on_flow_event(flow(2), 2, "b.exe".to_string());
    flows.on_flow_event(flow(3), 3, "c.exe".to_string());
    let rules: Vec<ProcessRule> = Vec::new();
    s.on_packet(&inbound_packet(1, 100), false, 0, &flows, &rules);
    s.on_packet(&packet(2, 300), true, 0, &flows, &rules);
    s.on_packet(&inbound_packet(3, 200), false, 0, &flows, &rules);
    s.on_packet(&packet(3, 50), true, 0, &flows, &rules);
    let report = s.close_window();
    assert_eq!(report.download_bytes, 300);
    assert_eq!(report.upload_bytes, 350);
    assert_eq!(
        report.processes,
        vec![
            ("b.exe".to_string(), 0, 300),
            ("c.exe".to_string(), 200, 50),
            ("a.exe".to_string(), 100, 0),
        ]
    );
    let next = s.close_window();
    assert_eq!(next.download_bytes, 0);
    assert_eq!(next.upload_bytes, 0);
    assert!(next.processes.is_empty());
}

#[test]
fn only_waits_over_a_millisecond_are_slept() {
    assert!(!needs_delay(0));
    assert!(!needs_delay(1_000_000));
    assert!(needs_delay(1_000_001));
}

#[test]
fn new_bucket_passes_a_first_burst_of_one_second() {
    let mut b = TokenBucket::new(1000, 0);
    assert_eq!(b.consume(123_456, 1000), 0);
}

#[test]
fn rule_added_later_governs_its_process() {
    let mut s = ShapingState::new(0, 0, 0);
    let mut flows = FlowTable::new();
    flows.on_flow_event(flow(1000), 77, "app.exe".to_string());
    let mut rules: Vec<ProcessRule> = Vec::new();
    assert_eq!(s.on_packet(&packet(1000, 600), true, 0, &flows, &rules), 0);
    assert_eq!(s.on_packet(&packet(1000, 600), true, 0, &flows, &rules), 0);
    add_process_rule(&mut rules, "App.Exe".to_string(), 0, 1000).unwrap();
    assert_eq!(s.on_packet(&packet(1000, 600), true, 0, &flows, &rules), 0);
    assert_eq!(s.on_packet(&packet(1000, 600), true, 0, &flows, &rules), MAX_WAIT_NANOS);
}

#[test]
fn window_closes_after_one_second() {
    assert!(!window_is_over(0));
    assert!(!window_is_over(999_999_999));
    assert!(window_is_over(1_000_000_000));
    assert!(window_is_over(u128::MAX));
}

#[test]
fn rule_bucket_refills_with_time() {
    let mut s = ShapingState::new(0, 0, 0);
    let mut flows = FlowTable::new();
    flows.on_flow_event(flow(1000), 77, "app.exe".to_string());
    let rules = vec![rule("app.exe", 0, 1000)];
    assert_eq!(s.on_packet(&packet(1000, 600), true, 0, &flows, &rules), 0);
    // 200 bytes short at 1000 B/s: capped at 100 ms.
    assert_eq!(s.on_packet(&packet(1000, 600), true, 0, &flows, &rules), MAX_WAIT_NANOS);
    // 150 ms later 150 bytes are back and the bucket is 50 short of 0.
    assert_eq!(s.on_packet(&packet(1000, 24), true, 150_000_000, &flows, &rules), 74_000_000);
    // Two seconds later it is full again.
    assert_eq!(s.on_packet(&packet(1000, 1000), true, 2_150_000_000, &flows, &rules), 0);
}
