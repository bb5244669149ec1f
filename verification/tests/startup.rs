//! Start-up decisions: the port from the command line, the port after a
//! failed bind, and number arguments.

use ember::server::{parse_args, port_after_failure};
use ember::utils::parse_int;

fn args(a: &[&str]) -> Vec<String> {
    a.iter().map(|s| s.to_string()).collect()
}

#[test]
fn default_port() {
    assert_eq!(parse_args(&args(&["ember"])), "6379");
    assert_eq!(parse_args(&args(&[])), "6379");
}

#[test]
fn port_flag() {
    assert_eq!(parse_args(&args(&["ember", "--port", "7000"])), "7000");
    assert_eq!(parse_args(&args(&["ember", "--x", "--port", "1", "--port", "2"])), "2");
}

#[test]
fn port_flag_without_value_is_ignored() {
    assert_eq!(parse_args(&args(&["ember", "--port"])), "6379");
}

#[test]
fn next_port_after_a_conflict() {
    assert_eq!(port_after_failure(6379, true), Some(6380));
    assert_eq!(port_after_failure(u16::MAX, true), Some(0));
    assert_eq!(port_after_failure(6379, false), None);
}

#[test]
fn parse_int_cases() {
    assert_eq!(parse_int(&"42".to_string()), 42);
    assert_eq!(parse_int(&"  -7 \n".to_string()), -7);
    assert_eq!(parse_int(&"+5".to_string()), 5);
    assert_eq!(parse_int(&"abc".to_string()), 0);
    assert_eq!(parse_int(&"2147483648".to_string()), 0);
    assert_eq!(parse_int(&"-2147483648".to_string()), i32::MIN);
    assert_eq!(parse_int(&"".to_string()), 0);
}
