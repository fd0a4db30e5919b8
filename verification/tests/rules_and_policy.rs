use speed_limit::recv_policy::{flow_recv_error_action, packet_recv_error_action, RecvErrorAction};
use speed_limit::rules::{add_process_rule, find_rule, rule_name_from_input, ProcessRule, RuleError};
use speed_limit::text::{contains, names_match, starts_with, str_less, trim};

#[test]
fn rule_name_is_trimmed() {
    assert_eq!(rule_name_from_input("  chrome.exe \t").unwrap(), "chrome.exe");
    assert_eq!(rule_name_from_input("\u{3000}a b\u{a0}").unwrap(), "a b");
}

#[test]
fn blank_rule_name_is_refused() {
    assert_eq!(rule_name_from_input(""), Err(RuleError::EmptyName));
    assert_eq!(rule_name_from_input(" \n\t "), Err(RuleError::EmptyName));
}

#[test]
fn duplicate_rule_is_refused_ignoring_case() {
    let mut rules: Vec<ProcessRule> = Vec::new();
    assert_eq!(add_process_rule(&mut rules, "chrome.exe".to_string(), 125_000, 0), Ok(()));
    assert_eq!(
        add_process_rule(&mut rules, "Chrome.EXE".to_string(), 1, 1),
        Err(RuleError::DuplicateName)
    );
    assert_eq!(rules.len(), 1);
    assert_eq!(rules[0].download_limit, 125_000);
    assert_eq!(add_process_rule(&mut rules, "zoom.exe".to_string(), 0, 5), Ok(()));
    assert_eq!(rules.len(), 2);
    assert_eq!(rules[1].process_name, "zoom.exe");
    assert_eq!(rules[1].upload_limit, 5);
}

#[test]
fn added_rule_is_found_by_any_case() {
    let mut rules: Vec<ProcessRule> = Vec::new();
    add_process_rule(&mut rules, "a.exe".to_string(), 1, 1).unwrap();
    add_process_rule(&mut rules, "Game.exe".to_string(), 2, 2).unwrap();
    assert_eq!(find_rule(&rules, "GAME.EXE"), Some(1));
    assert_eq!(find_rule(&rules, "a.EXE"), Some(0));
    assert_eq!(find_rule(&rules, "b.exe"), None);
}

#[test]
fn first_of_equal_rules_is_found() {
    let rules = vec![
        ProcessRule { process_name: "x.exe".to_string(), download_limit: 1, upload_limit: 1 },
        ProcessRule { process_name: "X.EXE".to_string(), download_limit: 2, upload_limit: 2 },
    ];
    assert_eq!(find_rule(&rules, "x.Exe"), Some(0));
}

#[test]
fn text_helpers_behave_like_std() {
    assert!(contains("os error 87", "87"));
    assert!(!contains("os error 8", "87"));
    assert!(contains("anything", ""));
    assert!(starts_with("PID:12", "PID:"));
    assert!(!starts_with("PID", "PID:"));
    assert!(str_less("ab", "abc"));
    assert!(!str_less("abc", "abc"));
    assert!(str_less("B", "a"));
    assert!(names_match("ÄBC.exe", "äbc.EXE"));
    assert!(!names_match("abc", "abd"));
    assert_eq!(trim("\t x \r\n"), "x");
    assert_eq!(trim("   "), "");
}

#[test]
fn packet_loop_skips_oversized_packets() {
    assert_eq!(packet_recv_error_action("OsError(87)", true), RecvErrorAction::Retry);
    assert_eq!(packet_recv_error_action("OsError(87)", false), RecvErrorAction::Retry);
    assert_eq!(packet_recv_error_action("OsError(995)", false), RecvErrorAction::Stop);
    assert_eq!(packet_recv_error_action("OsError(5)", true), RecvErrorAction::Fail);
}

#[test]
fn flow_loop_stops_first_then_retries() {
    assert_eq!(flow_recv_error_action("OsError(87)", false), RecvErrorAction::Stop);
    assert_eq!(flow_recv_error_action("OsError(87)", true), RecvErrorAction::Retry);
    assert_eq!(flow_recv_error_action("timeout", true), RecvErrorAction::Retry);
    assert_eq!(flow_recv_error_action("OsError(6)", true), RecvErrorAction::Fail);
}
