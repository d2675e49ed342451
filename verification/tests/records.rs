use pinger::error::CliError;
use pinger::measure::{
    check_host, check_hosts, not_resolvable_message, pick_first_ip_addr, Addr, Check,
    ProbeOutcome,
};
use pinger::record::{build_header, build_record, build_record_at, diagnostic_line, sort_checks};

fn strs(v: Vec<&str>) -> Vec<String> {
    v.into_iter().map(str::to_string).collect()
}

#[test]
fn header_for_one_host_has_six_columns() {
    let h = build_header(&strs(vec!["1.1.1.1"]));
    assert_eq!(h, strs(vec!["Timestamp", "Host", "Address", "Available", "RTT", "Error"]));
}

#[test]
fn header_arity_is_one_plus_five_per_host() {
    assert_eq!(build_header(&strs(vec!["a", "b"])).len(), 11);
    assert_eq!(build_header(&strs(vec!["a", "b", "c"])).len(), 16);
}

#[test]
fn successful_probe_yields_available_measurement() {
    let c = check_host(
        &"1.1.1.1".to_string(),
        ProbeOutcome::Probed("1.1.1.1".to_string(), Ok(5)),
    );
    assert_eq!(c.host, "1.1.1.1");
    assert_eq!(c.addr, "1.1.1.1");
    assert!(c.available);
    assert_eq!(c.rtt, 5);
    assert!(c.error.is_none());
}

#[test]
fn failed_probe_keeps_address_and_reports() {
    let c = check_host(
        &"1.2.3.4".to_string(),
        ProbeOutcome::Probed("1.2.3.4".to_string(), Err(CliError::WinpingError("timed out".to_string()))),
    );
    assert_eq!(c.addr, "1.2.3.4");
    assert!(!c.available);
    assert_eq!(c.rtt, -1);
    assert_eq!(c.error.as_ref().map(|e| e.message()), Some("timed out".to_string()));
}

#[test]
fn unresolved_host_has_empty_address() {
    let c = check_host(
        &"nosuch.invalid.".to_string(),
        ProbeOutcome::NotResolved(CliError::IoError(
            "could not resolve address: `\"nosuch.invalid.\"`".to_string(),
        )),
    );
    assert_eq!(c.addr, "");
    assert!(!c.available);
    assert_eq!(c.rtt, -1);
    assert!(c.error.is_some());
}

#[test]
fn measurements_obey_availability_contract() {
    let outcomes = vec![
        ProbeOutcome::Probed("1.1.1.1".to_string(), Ok(0)),
        ProbeOutcome::Probed("1.2.3.4".to_string(), Err(CliError::WinpingError("x".to_string()))),
        ProbeOutcome::NotResolved(CliError::IoError("y".to_string())),
    ];
    let checks = check_hosts(&strs(vec!["a", "b", "c"]), outcomes);
    assert_eq!(checks.len(), 3);
    for c in &checks {
        assert_eq!(c.available, c.error.is_none());
        assert_eq!(c.available, c.rtt >= 0);
        if !c.available {
            assert_eq!(c.rtt, -1);
        }
    }
}

fn probed(host: &str, addr: &str, rtt: u32) -> Check {
    check_host(&host.to_string(), ProbeOutcome::Probed(addr.to_string(), Ok(rtt)))
}

#[test]
fn record_lists_fields_in_column_order() {
    let r = build_record_at("T0".to_string(), vec![probed("1.1.1.1", "1.1.1.1", 5)]);
    assert_eq!(r, strs(vec!["T0", "1.1.1.1", "1.1.1.1", "true", "5", ""]));
}

#[test]
fn record_resorts_cycle_by_host() {
    let r = build_record_at(
        "T0".to_string(),
        vec![probed("b.example", "2.2.2.2", 7), probed("a.example", "1.1.1.1", 3)],
    );
    assert_eq!(
        r,
        strs(vec![
            "T0", "a.example", "1.1.1.1", "true", "3", "", "b.example", "2.2.2.2", "true", "7", "",
        ])
    );
}

#[test]
fn equal_hosts_keep_cycle_order() {
    let sorted = sort_checks(vec![probed("h", "1.1.1.1", 1), probed("h", "2.2.2.2", 2)]);
    assert_eq!(sorted[0].addr, "1.1.1.1");
    assert_eq!(sorted[1].addr, "2.2.2.2");
}

#[test]
fn not_resolvable_message_names_the_host() {
    assert_eq!(
        not_resolvable_message("nosuch.invalid."),
        "could not resolve address: `\"nosuch.invalid.\"`"
    );
}

#[test]
fn unresolved_record_group_and_diagnostic() {
    let c = check_host(
        &"nosuch.invalid.".to_string(),
        ProbeOutcome::NotResolved(CliError::IoError(not_resolvable_message("nosuch.invalid."))),
    );
    let line = diagnostic_line(&c);
    assert_eq!(
        line,
        Some(
            "host nosuch.invalid. failed with error: could not resolve address: `\"nosuch.invalid.\"`"
                .to_string()
        )
    );
    let r = build_record_at("T0".to_string(), vec![c]);
    assert_eq!(r[1], "nosuch.invalid.");
    assert_eq!(r[2], "");
    assert_eq!(r[3], "false");
    assert_eq!(r[4], "-1");
    assert!(!r[5].is_empty());
}

#[test]
fn available_measurement_has_no_diagnostic() {
    assert_eq!(diagnostic_line(&probed("a", "1.1.1.1", 1)), None);
}

#[test]
fn record_arity_is_one_plus_five_per_measurement() {
    let cycle = vec![probed("a", "1.1.1.1", 1), probed("b", "2.2.2.2", 2), probed("c", "3.3.3.3", 3)];
    let r = build_record_at("T0".to_string(), cycle);
    assert_eq!(r.len(), 16);
}

#[test]
fn stamped_record_carries_a_timestamp() {
    let r = build_record(vec![probed("a", "1.1.1.1", 1)]);
    assert_eq!(r.len(), 6);
    assert!(!r[0].is_empty());
    assert_eq!(r[1], "a");
    assert_eq!(r[2], "1.1.1.1");
    assert_eq!(r[3], "true");
    assert_eq!(r[4], "1");
    assert_eq!(r[5], "");
}

fn addr(v4: bool, ip: &str) -> Addr {
    Addr { v4, ip: ip.to_string() }
}

#[test]
fn first_ipv4_address_wins() {
    let picked = pick_first_ip_addr(vec![
        addr(false, "::1"),
        addr(true, "9.9.9.9"),
        addr(true, "8.8.8.8"),
    ]);
    assert_eq!(picked.map(|a| a.ip), Some("9.9.9.9".to_string()));
}

#[test]
fn no_ipv4_address_yields_none() {
    assert!(pick_first_ip_addr(vec![addr(false, "::1")]).is_none());
    assert!(pick_first_ip_addr(vec![]).is_none());
}
