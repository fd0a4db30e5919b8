use speed_limit::flow_table::{
    process_name_from_image, reserved_process_name, selectable_process_names, FlowTable,
    ProcessInfo,
};
use speed_limit::packet::{FlowKey, IpAddress};

fn key(port: u16) -> FlowKey {
    FlowKey {
        protocol: 6,
        local_addr: IpAddress::V4(0x7F00_0001),
        local_port: port,
        remote_addr: IpAddress::V4(0x0808_0808),
        remote_port: 443,
    }
}

#[test]
fn recorded_flow_is_found() {
    let mut t = FlowTable::new();
    assert!(t.lookup(&key(1)).is_none());
    t.on_flow_event(key(1), 42, "chrome.exe".to_string());
    let info = t.lookup(&key(1)).unwrap();
    assert_eq!(info.pid, 42);
    assert_eq!(info.name, "chrome.exe");
    assert!(t.lookup(&key(2)).is_none());
}

#[test]
fn flow_event_with_pid_zero_ends_the_flow() {
    let mut t = FlowTable::new();
    t.on_flow_event(key(1), 42, "a.exe".to_string());
    t.on_flow_event(key(2), 43, "b.exe".to_string());
    t.on_flow_event(key(1), 0, String::new());
    assert!(t.lookup(&key(1)).is_none());
    assert_eq!(t.lookup(&key(2)).unwrap().name, "b.exe");
}

#[test]
fn a_new_owner_replaces_the_old_one() {
    let mut t = FlowTable::new();
    t.insert(key(7), ProcessInfo { pid: 1, name: "old.exe".to_string() });
    t.insert(key(7), ProcessInfo { pid: 2, name: "new.exe".to_string() });
    let info = t.lookup(&key(7)).unwrap();
    assert_eq!(info.pid, 2);
    assert_eq!(info.name, "new.exe");
    t.remove(&key(7));
    assert!(t.lookup(&key(7)).is_none());
}

#[test]
fn active_names_are_sorted_and_distinct() {
    let mut t = FlowTable::new();
    t.on_flow_event(key(1), 10, "zoom.exe".to_string());
    t.on_flow_event(key(2), 11, "chrome.exe".to_string());
    t.on_flow_event(key(3), 11, "chrome.exe".to_string());
    t.on_flow_event(key(4), 12, "Chrome.exe".to_string());
    t.on_flow_event(key(5), 13, "app.exe".to_string());
    assert_eq!(
        t.active_process_names(),
        vec!["Chrome.exe", "app.exe", "chrome.exe", "zoom.exe"]
    );
}

#[test]
fn active_names_order_shorter_prefix_first() {
    let mut t = FlowTable::new();
    t.on_flow_event(key(1), 10, "abc".to_string());
    t.on_flow_event(key(2), 11, "ab".to_string());
    t.on_flow_event(key(3), 12, "é.exe".to_string());
    assert_eq!(t.active_process_names(), vec!["ab", "abc", "é.exe"]);
}

#[test]
fn cleared_table_has_no_flows() {
    let mut t = FlowTable::new();
    t.on_flow_event(key(1), 10, "a.exe".to_string());
    t.clear();
    assert!(t.lookup(&key(1)).is_none());
    assert!(t.active_process_names().is_empty());
}

#[test]
fn reserved_process_ids_have_fixed_names() {
    assert_eq!(reserved_process_name(0).unwrap(), "System Idle");
    assert_eq!(reserved_process_name(4).unwrap(), "System");
    assert_eq!(reserved_process_name(8), None);
}

#[test]
fn image_name_is_the_file_name_of_the_path() {
    assert_eq!(
        process_name_from_image(1234, Some("C:\\Program Files\\Google\\chrome.exe")),
        "chrome.exe"
    );
    assert_eq!(process_name_from_image(1234, Some("notepad.exe")), "notepad.exe");
    assert_eq!(process_name_from_image(1234, Some("C:\\dir\\")), "");
}

#[test]
fn unreadable_image_gets_pid_label() {
    assert_eq!(process_name_from_image(1234, None), "PID:1234");
    assert_eq!(process_name_from_image(7, None), "PID:7");
    assert_eq!(process_name_from_image(0, None), "PID:0");
    assert_eq!(process_name_from_image(10, None), "PID:10");
    assert_eq!(process_name_from_image(u32::MAX, None), "PID:4294967295");
}

#[test]
fn selectable_names_leave_out_system_and_unresolved() {
    let names: Vec<String> = vec!["System Idle", "app.exe", "System", "PID:99", "Systemd", "zed"]
        .into_iter()
        .map(String::from)
        .collect();
    assert_eq!(selectable_process_names(&names), vec!["app.exe", "Systemd", "zed"]);
}

#[test]
fn unresolved_and_reserved_names_are_never_selectable() {
    let names = vec![
        process_name_from_image(321, None),
        reserved_process_name(0).unwrap(),
        reserved_process_name(4).unwrap(),
    ];
    assert!(selectable_process_names(&names).is_empty());
}
