use port_sniff::address::IpAddress;
use port_sniff::arguments::{Arguments, DEFAULT_THREADS};

fn command_line(words: &[&str]) -> Vec<String> {
    words.iter().map(|word| word.to_string()).collect()
}

const LOOPBACK: IpAddress = IpAddress::V4(127, 0, 0, 1);
const PRIVATE: IpAddress = IpAddress::V4(10, 0, 0, 1);

#[test]
fn address_alone_takes_default_worker_count() {
    let args = command_line(&["prog", "127.0.0.1"]);
    assert_eq!(
        Arguments::new(&args, Some(LOOPBACK)),
        Ok(Arguments { ipaddr: LOOPBACK, threads: 400 })
    );
    assert_eq!(DEFAULT_THREADS, 400);
}

#[test]
fn flag_sets_worker_count() {
    let args = command_line(&["prog", "-j", "50", "10.0.0.1"]);
    assert_eq!(
        Arguments::new(&args, Some(PRIVATE)),
        Ok(Arguments { ipaddr: PRIVATE, threads: 50 })
    );
}

#[test]
fn version_six_target_is_kept() {
    let target = IpAddress::V6(0, 0, 0, 0, 0, 0, 0, 1);
    let args = command_line(&["prog", "-j", "7", "::1"]);
    assert_eq!(
        Arguments::new(&args, Some(target)),
        Ok(Arguments { ipaddr: target, threads: 7 })
    );
}

#[test]
fn program_name_alone_is_not_enough() {
    let args = command_line(&["prog"]);
    assert_eq!(Arguments::new(&args, None), Err("Not enough arguments"));
}

#[test]
fn three_arguments_are_not_enough() {
    let args = command_line(&["prog", "-j", "10.0.0.1"]);
    assert_eq!(Arguments::new(&args, Some(PRIVATE)), Err("Not enough arguments"));
    assert_eq!(Arguments::new(&args, None), Err("Not enough arguments"));
}

#[test]
fn unreadable_address_asks_for_help() {
    let args = command_line(&["prog", "not-an-ip"]);
    assert_eq!(Arguments::new(&args, None), Err("help"));
}

#[test]
fn wrong_flag_asks_for_help() {
    let args = command_line(&["prog", "-x", "50", "10.0.0.1"]);
    assert_eq!(Arguments::new(&args, Some(PRIVATE)), Err("help"));
}

#[test]
fn flag_is_compared_in_full() {
    for flag in ["", "-", "j", "-J", "-jj", "--j", " -j", "-j "] {
        let args = command_line(&["prog", flag, "50", "10.0.0.1"]);
        assert_eq!(Arguments::new(&args, Some(PRIVATE)), Err("help"), "flag {:?}", flag);
    }
}

#[test]
fn unreadable_worker_count_asks_for_help() {
    for count in ["", "abc", "-1", "5 0", "50 ", " 50", "65536", "1e3", "0x10", "5_0", "+"] {
        let args = command_line(&["prog", "-j", count, "10.0.0.1"]);
        assert_eq!(Arguments::new(&args, Some(PRIVATE)), Err("help"), "count {:?}", count);
    }
}

#[test]
fn zero_workers_are_refused() {
    for count in ["0", "00", "+0"] {
        let args = command_line(&["prog", "-j", count, "10.0.0.1"]);
        assert_eq!(Arguments::new(&args, Some(PRIVATE)), Err("help"), "count {:?}", count);
    }
}

#[test]
fn worker_count_bounds_are_accepted() {
    let args = command_line(&["prog", "-j", "1", "10.0.0.1"]);
    assert_eq!(
        Arguments::new(&args, Some(PRIVATE)),
        Ok(Arguments { ipaddr: PRIVATE, threads: 1 })
    );
    let args = command_line(&["prog", "-j", "65535", "10.0.0.1"]);
    assert_eq!(
        Arguments::new(&args, Some(PRIVATE)),
        Ok(Arguments { ipaddr: PRIVATE, threads: 65535 })
    );
    let args = command_line(&["prog", "-j", "+0400", "10.0.0.1"]);
    assert_eq!(
        Arguments::new(&args, Some(PRIVATE)),
        Ok(Arguments { ipaddr: PRIVATE, threads: 400 })
    );
}

#[test]
fn unreadable_address_after_flag_asks_for_help() {
    let args = command_line(&["prog", "-j", "50", "not-an-ip"]);
    assert_eq!(Arguments::new(&args, None), Err("help"));
}

#[test]
fn five_arguments_are_too_many() {
    let args = command_line(&["prog", "-j", "50", "10.0.0.1", "extra"]);
    assert_eq!(Arguments::new(&args, Some(PRIVATE)), Err("Too many arguments"));
    assert_eq!(Arguments::new(&args, None), Err("Too many arguments"));
}

#[test]
fn empty_command_line_is_refused() {
    let args: Vec<String> = Vec::new();
    assert_eq!(Arguments::new(&args, None), Err("Too many arguments"));
}

#[test]
fn address_is_the_last_argument_of_a_full_command_line() {
    let args = command_line(&["prog", "127.0.0.1"]);
    assert_eq!(Arguments::address_argument(&args), Some("127.0.0.1"));
    let args = command_line(&["prog", "-j", "50", "10.0.0.1"]);
    assert_eq!(Arguments::address_argument(&args), Some("10.0.0.1"));
    let args = command_line(&["prog", "-x", "50", "not-an-ip"]);
    assert_eq!(Arguments::address_argument(&args), Some("not-an-ip"));
}

#[test]
fn other_command_lines_name_no_address() {
    assert_eq!(Arguments::address_argument(&[]), None);
    assert_eq!(Arguments::address_argument(&command_line(&["prog"])), None);
    assert_eq!(
        Arguments::address_argument(&command_line(&["prog", "-j", "10.0.0.1"])),
        None
    );
    assert_eq!(
        Arguments::address_argument(&command_line(&["a", "b", "c", "d", "e"])),
        None
    );
}
