use pinger::cli::{new_opt, parse_duration, Opt};
use pinger::error::CliError;

fn opt(interval: u64, timeout: u64, hosts: Vec<&str>) -> Opt {
    new_opt(None, interval, timeout, hosts.into_iter().map(str::to_string).collect())
}

#[test]
fn new_opt_keeps_fields() {
    let o = new_opt(Some("log.csv".to_string()), 5, 2, vec!["a".to_string()]);
    assert_eq!(o.output, Some("log.csv".to_string()));
    assert_eq!(o.interval, 5);
    assert_eq!(o.timeout, 2);
    assert_eq!(o.hosts, vec!["a".to_string()]);
}

#[test]
fn validate_rejects_zero_interval() {
    let r = opt(0, 3, vec!["1.1.1.1"]).validate();
    assert_eq!(r, Err("interval 0 too short: use a value greater than 1 (second)".to_string()));
}

#[test]
fn validate_rejects_zero_timeout() {
    let r = opt(10, 0, vec!["1.1.1.1"]).validate();
    assert_eq!(r, Err("timeout 0 too short: use a value greater than 1 (second)".to_string()));
}

#[test]
fn validate_rejects_empty_hosts() {
    let r = opt(10, 3, vec![]).validate();
    assert_eq!(r, Err("no hosts provided".to_string()));
}

#[test]
fn validate_accepts_boundary_values() {
    assert_eq!(opt(1, 1, vec!["a"]).validate(), Ok(()));
    assert_eq!(opt(10, 3, vec!["1.1.1.1"]).validate(), Ok(()));
}

fn parse_err_message(r: Result<u64, CliError>) -> String {
    match r {
        Err(CliError::ParseIntError(m)) => m,
        other => panic!("expected a parse failure, got {:?}", other.is_ok()),
    }
}

#[test]
fn parse_duration_reads_plain_numbers() {
    assert_eq!(parse_duration("10").unwrap_or(0), 10);
    assert_eq!(parse_duration("0").unwrap_or(1), 0);
    assert_eq!(parse_duration(" 5 ").unwrap_or(0), 5);
    assert_eq!(parse_duration("\u{A0}5\u{A0}").unwrap_or(0), 5);
    assert_eq!(parse_duration("\u{2009}7\u{85}").unwrap_or(0), 7);
    assert_eq!(parse_duration("+3").unwrap_or(0), 3);
    assert_eq!(parse_duration("18446744073709551615").unwrap_or(0), u64::MAX);
}

#[test]
fn parse_duration_rejects_empty() {
    let m = parse_err_message(parse_duration(""));
    assert_eq!(m, "cannot parse integer from empty string");
    let m = parse_err_message(parse_duration("   "));
    assert_eq!(m, "cannot parse integer from empty string");
}

#[test]
fn parse_duration_rejects_non_digits() {
    assert_eq!(parse_err_message(parse_duration("abc")), "invalid digit found in string");
    assert_eq!(parse_err_message(parse_duration("-1")), "invalid digit found in string");
    assert_eq!(parse_err_message(parse_duration("+")), "invalid digit found in string");
    assert_eq!(parse_err_message(parse_duration("1.5")), "invalid digit found in string");
}

#[test]
fn parse_duration_rejects_overflow() {
    let m = parse_err_message(parse_duration("18446744073709551616"));
    assert_eq!(m, "number too large to fit in target type");
}
