use port_sniff::output::{report_line, usage_lines, USAGE};

#[test]
fn usage_names_both_forms() {
    assert_eq!(USAGE, "Usage: port-sniff -j [Number of threads] [ip_address]");
}

#[test]
fn help_prints_the_usage_alone() {
    assert_eq!(usage_lines("help"), vec![USAGE]);
}

#[test]
fn other_errors_come_before_the_usage() {
    assert_eq!(usage_lines("Not enough arguments"), vec!["Not enough arguments", USAGE]);
    assert_eq!(usage_lines("Too many arguments"), vec!["Too many arguments", USAGE]);
    assert_eq!(usage_lines("Help"), vec!["Help", USAGE]);
    assert_eq!(usage_lines(""), vec!["", USAGE]);
}

#[test]
fn open_port_is_announced_by_its_number() {
    assert_eq!(report_line(8080), "8080 is open");
    assert_eq!(report_line(0), "0 is open");
    assert_eq!(report_line(22), "22 is open");
    assert_eq!(report_line(65535), "65535 is open");
}

#[test]
fn announcement_is_what_formatting_gives() {
    for port in [0u16, 1, 9, 10, 99, 100, 999, 1000, 9999, 10000, 65535] {
        assert_eq!(report_line(port), format!("{} is open", port));
    }
}
