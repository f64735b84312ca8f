use cloudboot::discovery::{plan_observation, run_discovery_tick, ProbeResults};
use cloudboot::inventory::{Host, Inventory, IpxeEntry, Observation};
use cloudboot::ipxe_script::ipxe_response;
use cloudboot::lease::{parse_dhcp_leases, process_lease_block};
use cloudboot::progress::Progress;
use cloudboot::progress_control::{derive_gateway, select_bond_nics, should_reboot};
use cloudboot::text::{bytes_eq, parse_i32, split_lines, tokenize, trim};

fn b(s: &str) -> Vec<u8> {
    s.as_bytes().to_vec()
}

fn host(serial: &str, ip: &str, ipmi: &str, os: Option<&str>, progress: i32) -> Host {
    Host {
        serial: b(serial),
        ip_address: b(ip),
        ipmi_address: b(ipmi),
        os: os.map(b),
        hostname: None,
        public_ip_addr: None,
        vlan_id: None,
        install_progress: progress,
        last_updated: b("2024-01-01 00:00:00"),
    }
}

fn epoch(ts: &str) -> i64 {
    chrono::NaiveDateTime::parse_from_str(ts, "%Y/%m/%d %H:%M:%S")
        .unwrap()
        .and_utc()
        .timestamp()
}

// ------------------------------------------------------------------
// Progress codes
// ------------------------------------------------------------------
#[test]
fn progress_codes_round_trip() {
    let all = [
        (Progress::NotConfigured, 0),
        (Progress::RebootingToKickstart, 5),
        (Progress::KickstartLoaded, 10),
        (Progress::PreInstallFinished, 20),
        (Progress::PostInstallFinished, 60),
        (Progress::InstallFinished, 80),
        (Progress::RebootedToSystem, 85),
        (Progress::Done, 100),
    ];
    for (stage, code) in all {
        assert_eq!(stage.code(), code);
        assert_eq!(Progress::from_code(code), Some(stage));
    }
}

#[test]
fn progress_rejects_unknown_codes() {
    for code in [-1, 1, 4, 6, 50, 99, 101, 1000] {
        assert_eq!(Progress::from_code(code), None);
    }
}

// ------------------------------------------------------------------
// Text utilities
// ------------------------------------------------------------------
#[test]
fn parse_i32_accepts_plain_and_signed() {
    assert_eq!(parse_i32(&b("5")), Some(5));
    assert_eq!(parse_i32(&b("+5")), Some(5));
    assert_eq!(parse_i32(&b("-3")), Some(-3));
    assert_eq!(parse_i32(&b("0042")), Some(42));
    assert_eq!(parse_i32(&b("2147483647")), Some(2147483647));
    assert_eq!(parse_i32(&b("-2147483648")), Some(-2147483648));
}

#[test]
fn parse_i32_rejects_malformed_and_out_of_range() {
    assert_eq!(parse_i32(&b("")), None);
    assert_eq!(parse_i32(&b("-")), None);
    assert_eq!(parse_i32(&b("+")), None);
    assert_eq!(parse_i32(&b(" 5")), None);
    assert_eq!(parse_i32(&b("5 ")), None);
    assert_eq!(parse_i32(&b("12a")), None);
    assert_eq!(parse_i32(&b("2147483648")), None);
    assert_eq!(parse_i32(&b("-2147483649")), None);
    assert_eq!(parse_i32(&b("99999999999999999999")), None);
}

#[test]
fn trim_strips_ascii_whitespace() {
    assert_eq!(trim(&b("  hello\t\r\n")), b("hello"));
    assert_eq!(trim(&b("hello")), b("hello"));
    assert_eq!(trim(&b("   ")), b(""));
    assert_eq!(trim(&b("")), b(""));
}

#[test]
fn tokenize_splits_on_whitespace_runs() {
    let toks = tokenize(&b("  lease 192.0.2.5  {"));
    assert_eq!(toks, vec![b("lease"), b("192.0.2.5"), b("{")]);
    assert!(tokenize(&b("   ")).is_empty());
}

#[test]
fn split_lines_handles_terminators() {
    assert_eq!(split_lines(&b("a\nb")), vec![b("a"), b("b")]);
    assert_eq!(split_lines(&b("a\r\nb\n")), vec![b("a"), b("b")]);
    assert_eq!(split_lines(&b("a\n\nb")), vec![b("a"), b(""), b("b")]);
    assert!(split_lines(&b("")).is_empty());
}

#[test]
fn bytes_eq_compares_contents() {
    assert!(bytes_eq(&b("abc"), &b("abc")));
    assert!(!bytes_eq(&b("abc"), &b("abd")));
    assert!(!bytes_eq(&b("abc"), &b("ab")));
}

// ------------------------------------------------------------------
// Lease parsing
// ------------------------------------------------------------------
#[test]
fn lease_file_with_live_and_expired_blocks() {
    let content = b("lease 192.0.2.5 {\n  starts 2 2024/01/01 00:00:00;\n  ends 2 2099/01/01 00:00:00;\n}\nlease 192.0.2.6 {\n  starts 2 1999/01/01 00:00:00;\n  ends 2 2000/01/01 00:00:00;\n}\n");
    let now = epoch("2024/06/01 12:00:00");
    let ips = parse_dhcp_leases(&content, now);
    assert_eq!(ips, vec![b("192.0.2.5")]);
}

#[test]
fn lease_ending_exactly_now_is_excluded() {
    let block = vec![
        b("lease 10.0.0.7 {"),
        b("  ends 2 2050/06/01 08:30:00;"),
        b("}"),
    ];
    let now = epoch("2050/06/01 08:30:00");
    assert_eq!(process_lease_block(&block, now), None);
    assert_eq!(process_lease_block(&block, now - 1), Some(b("10.0.0.7")));
}

#[test]
fn lease_duplicates_collapse() {
    let content = b("lease 10.0.0.9 {\n  ends 2 2099/01/01 00:00:00;\n}\nlease 10.0.0.9 {\n  ends 2 2099/06/01 00:00:00;\n}\n");
    let ips = parse_dhcp_leases(&content, epoch("2024/01/01 00:00:00"));
    assert_eq!(ips, vec![b("10.0.0.9")]);
}

#[test]
fn lease_parse_twice_same_set() {
    let content = b("lease 192.0.2.5 {\n  ends 2 2099/01/01 00:00:00;\n}\njunk line\nlease 192.0.2.8 {\n  ends 2 2098/01/01 00:00:00;\n}\n");
    let now = epoch("2024/01/01 00:00:00");
    let first = parse_dhcp_leases(&content, now);
    let second = parse_dhcp_leases(&content, now);
    assert_eq!(first, second);
    assert_eq!(first.len(), 2);
}

#[test]
fn malformed_blocks_are_skipped() {
    let content = b("lease\n  ends 2 2099/01/01 00:00:00;\n}\nlease 10.0.0.3 {\n  ends 2 not-a-date;\n}\nlease 10.0.0.4 {\n}\n");
    let ips = parse_dhcp_leases(&content, epoch("2024/01/01 00:00:00"));
    assert!(ips.is_empty());
}

// ------------------------------------------------------------------
// Discovery
// ------------------------------------------------------------------
fn probes(serial: Option<&str>, ipmi: Option<&str>, progress: Option<&str>) -> ProbeResults {
    ProbeResults {
        serial: serial.map(b),
        ipmi_address: ipmi.map(b),
        install_progress: progress.map(b),
    }
}

#[test]
fn plan_observation_happy_path() {
    let obs = plan_observation(
        &b("10.0.0.10"),
        &probes(Some("S1"), Some("10.1.0.10"), Some("20")),
        &b("2024-01-01 00:00:00"),
    )
    .unwrap();
    assert_eq!(obs.serial, b("S1"));
    assert_eq!(obs.ip_address, b("10.0.0.10"));
    assert_eq!(obs.ipmi_address, b("10.1.0.10"));
    assert_eq!(obs.install_progress, 20);
}

#[test]
fn plan_observation_requires_serial_and_progress() {
    let now = b("2024-01-01 00:00:00");
    assert!(plan_observation(&b("10.0.0.10"), &probes(None, Some("x"), Some("0")), &now).is_none());
    assert!(plan_observation(&b("10.0.0.10"), &probes(Some("S1"), Some("x"), None), &now).is_none());
    assert!(
        plan_observation(&b("10.0.0.10"), &probes(Some("S1"), Some("x"), Some("abc")), &now)
            .is_none()
    );
    // A numeric report outside the fixed code set is rejected at the boundary.
    assert!(
        plan_observation(&b("10.0.0.10"), &probes(Some("S1"), Some("x"), Some("7")), &now)
            .is_none()
    );
}

#[test]
fn plan_observation_missing_bmc_becomes_unknown() {
    let obs = plan_observation(
        &b("10.0.0.10"),
        &probes(Some(" S1 "), None, Some("0")),
        &b("2024-01-01 00:00:00"),
    )
    .unwrap();
    assert_eq!(obs.ipmi_address, b("unknown"));
    // The serial is trimmed as read.
    assert_eq!(obs.serial, b("S1"));
}

fn observation(serial: &str, ip: &str, ipmi: &str, progress: i32, when: &str) -> Observation {
    Observation {
        serial: b(serial),
        ip_address: b(ip),
        ipmi_address: b(ipmi),
        install_progress: progress,
        last_updated: b(when),
    }
}

#[test]
fn discovery_tick_creates_and_refreshes() {
    let mut inv = Inventory::new();
    let first = vec![observation("S1", "10.0.0.10", "10.1.0.10", 0, "t1")];
    run_discovery_tick(&mut inv, &first);
    assert_eq!(inv.hosts.len(), 1);
    assert_eq!(inv.hosts[0].os, None);
    assert_eq!(inv.hosts[0].install_progress, 0);

    // An operator assigns a system; a later observation must not undo it.
    inv.hosts[0].os = Some(b("rocky9"));
    let second = vec![observation("S1", "10.0.0.11", "10.1.0.10", 10, "t2")];
    run_discovery_tick(&mut inv, &second);
    assert_eq!(inv.hosts.len(), 1);
    assert_eq!(inv.hosts[0].ip_address, b("10.0.0.11"));
    assert_eq!(inv.hosts[0].install_progress, 10);
    assert_eq!(inv.hosts[0].os, Some(b("rocky9")));
    assert_eq!(inv.hosts[0].last_updated, b("t2"));
}

#[test]
fn discovery_tick_is_idempotent() {
    let mut inv = Inventory::new();
    inv.hosts.push(host("S0", "10.0.0.1", "10.1.0.1", Some("rocky9"), 10));
    let obss = vec![
        observation("S0", "10.0.0.2", "10.1.0.1", 20, "t"),
        observation("S9", "10.0.0.9", "unknown", 0, "t"),
    ];
    run_discovery_tick(&mut inv, &obss);
    let after_once: Vec<(Vec<u8>, Vec<u8>, i32, Vec<u8>)> = inv
        .hosts
        .iter()
        .map(|h| (h.serial.clone(), h.ip_address.clone(), h.install_progress, h.last_updated.clone()))
        .collect();
    run_discovery_tick(&mut inv, &obss);
    let after_twice: Vec<(Vec<u8>, Vec<u8>, i32, Vec<u8>)> = inv
        .hosts
        .iter()
        .map(|h| (h.serial.clone(), h.ip_address.clone(), h.install_progress, h.last_updated.clone()))
        .collect();
    assert_eq!(after_once, after_twice);
    assert_eq!(inv.hosts.len(), 2);
}

// ------------------------------------------------------------------
// Admission (queue -> staged for kickstart)
// ------------------------------------------------------------------
fn scenario_one() -> Inventory {
    let mut inv = Inventory::new();
    let mut h = host("S1", "10.0.0.10", "10.1.0.10", Some("rocky9"), 0);
    h.hostname = Some(b("node1"));
    h.public_ip_addr = Some(b("198.51.100.10"));
    h.vlan_id = Some(100);
    inv.hosts.push(h);
    inv.ipxe.push(IpxeEntry { os: b("rocky9"), script: Some(b("/srv/rocky9.ipxe")) });
    inv.install_queue.push(b("10.1.0.10"));
    inv
}

#[test]
fn admission_happy_path_from_zero() {
    let mut inv = scenario_one();
    let cands = inv.kickstart_candidates();
    assert_eq!(cands.len(), 1);
    assert_eq!(cands[0].ip_address, b("10.0.0.10"));
    assert_eq!(cands[0].ipmi_address, b("10.1.0.10"));
    // The staged value written to the host is the kickstart-reboot code.
    assert_eq!(Progress::RebootingToKickstart.code(), 5);
    inv.apply_kickstart_outcomes(&cands, &vec![true]);
    assert!(inv.install_queue.is_empty());

    // Discovery later observes the staged stage; the dispatcher then serves.
    run_discovery_tick(
        &mut inv,
        &vec![observation("S1", "10.0.0.10", "10.1.0.10", 5, "t")],
    );
    let path = inv.resolve_ipxe(&b("S1")).expect("script owed");
    assert_eq!(path, b("/srv/rocky9.ipxe"));
    let response = ipxe_response(&Some(path), &Some(b("#!ipxe\nboot\n")));
    assert_eq!(response.status, 200);
    assert_eq!(response.body, b("#!ipxe\nboot\n"));
}

#[test]
fn admission_twice_is_a_no_op() {
    let mut inv = scenario_one();
    let cands = inv.kickstart_candidates();
    inv.apply_kickstart_outcomes(&cands, &vec![true; cands.len()]);
    assert!(inv.install_queue.is_empty());
    let again = inv.kickstart_candidates();
    assert!(again.is_empty());
    inv.apply_kickstart_outcomes(&again, &vec![]);
    assert!(inv.install_queue.is_empty());
    assert_eq!(inv.hosts[0].install_progress, 0);
}

#[test]
fn admission_needs_queue_os_and_script() {
    // No queue entry.
    let mut inv = scenario_one();
    inv.install_queue.clear();
    assert!(inv.kickstart_candidates().is_empty());

    // No operating system assigned.
    let mut inv = scenario_one();
    inv.hosts[0].os = None;
    assert!(inv.kickstart_candidates().is_empty());

    // No script registered for the system.
    let mut inv = scenario_one();
    inv.ipxe[0].script = None;
    assert!(inv.kickstart_candidates().is_empty());

    // Host already past the initial state.
    let mut inv = scenario_one();
    inv.hosts[0].install_progress = 5;
    assert!(inv.kickstart_candidates().is_empty());
}

#[test]
fn failed_staging_write_keeps_queue_entry() {
    let mut inv = scenario_one();
    let cands = inv.kickstart_candidates();
    inv.apply_kickstart_outcomes(&cands, &vec![false]);
    assert_eq!(inv.install_queue, vec![b("10.1.0.10")]);
}

// ------------------------------------------------------------------
// Reboot into kickstart
// ------------------------------------------------------------------
#[test]
fn reboot_only_on_exact_acknowledgement() {
    assert!(should_reboot(&Some(b("5"))));
    assert!(should_reboot(&Some(b(" 5\n"))));
    assert!(!should_reboot(&Some(b("10"))));
    assert!(!should_reboot(&Some(b(""))));
    assert!(!should_reboot(&Some(b("55"))));
    assert!(!should_reboot(&None));
}

#[test]
fn reboot_poll_targets_are_staged_hosts() {
    let mut inv = Inventory::new();
    inv.hosts.push(host("S1", "10.0.0.1", "b1", Some("rocky9"), 5));
    inv.hosts.push(host("S2", "10.0.0.2", "b2", Some("rocky9"), 10));
    inv.hosts.push(host("S3", "10.0.0.3", "b3", None, 5));
    inv.hosts.push(host("S4", "10.0.0.4", "b4", Some("rocky9"), 5));
    let targets = inv.reboot_poll_targets();
    assert_eq!(targets, vec![b("10.0.0.1"), b("10.0.0.4")]);
}

// ------------------------------------------------------------------
// Post-install configuration
// ------------------------------------------------------------------
#[test]
fn bond_members_from_two_or_four_interfaces() {
    assert_eq!(
        select_bond_nics(&b("ens1f0\nens1f1")),
        Ok((b("ens1f0"), b("ens1f1")))
    );
    assert_eq!(
        select_bond_nics(&b("ens1f0\nens1f0\nens2f0\nens2f0")),
        Ok((b("ens1f0"), b("ens2f0")))
    );
}

#[test]
fn unexpected_interface_count_is_an_error() {
    assert_eq!(select_bond_nics(&b("ens1f0\nens1f1\nens2f0")), Err(3));
    assert_eq!(select_bond_nics(&b("")), Err(0));
    assert_eq!(select_bond_nics(&b("only")), Err(1));
}

#[test]
fn interface_mismatch_leaves_host_in_place() {
    let mut inv = Inventory::new();
    let mut h = host("S1", "10.0.0.1", "b1", Some("rocky9"), 85);
    h.hostname = Some(b("node1"));
    h.public_ip_addr = Some(b("198.51.100.7"));
    h.vlan_id = Some(7);
    inv.hosts.push(h);
    let targets = inv.postinstall_targets();
    assert_eq!(targets.len(), 1);
    // The probe listed three interfaces: an error for this host; nothing
    // in the inventory changes this tick.
    assert!(select_bond_nics(&b("a\nb\nc")).is_err());
    assert_eq!(inv.hosts[0].install_progress, 85);
}

#[test]
fn gateway_is_first_three_octets_dot_one() {
    assert_eq!(derive_gateway(&b("198.51.100.7")), b("198.51.100.1"));
    assert_eq!(derive_gateway(&b("10.2.3.4")), b("10.2.3.1"));
    assert_eq!(derive_gateway(&b("1.2")), b("1.2.1"));
}

#[test]
fn reachable_host_is_marked_done_by_production_address() {
    let mut inv = Inventory::new();
    let mut h = host("S1", "10.0.0.1", "b1", Some("rocky9"), 85);
    h.hostname = Some(b("node1"));
    h.public_ip_addr = Some(b("198.51.100.7"));
    h.vlan_id = Some(7);
    inv.hosts.push(h);
    inv.hosts.push(host("S2", "10.0.0.2", "b2", Some("rocky9"), 10));
    inv.complete_post_install(&b("198.51.100.7"));
    assert_eq!(inv.hosts[0].install_progress, 100);
    assert_eq!(inv.hosts[1].install_progress, 10);
}

// ------------------------------------------------------------------
// iPXE dispatcher
// ------------------------------------------------------------------
#[test]
fn dispatcher_state_guard_returns_not_found() {
    let mut inv = Inventory::new();
    inv.hosts.push(host("S2", "10.0.0.2", "b2", Some("rocky9"), 10));
    inv.ipxe.push(IpxeEntry { os: b("rocky9"), script: Some(b("/srv/rocky9.ipxe")) });
    let resolved = inv.resolve_ipxe(&b("S2"));
    assert_eq!(resolved, None);
    let response = ipxe_response(&resolved, &None);
    assert_eq!(response.status, 404);
    assert!(response.body.is_empty());
}

#[test]
fn dispatcher_unknown_serial_and_missing_entry() {
    let mut inv = Inventory::new();
    inv.hosts.push(host("S1", "10.0.0.1", "b1", Some("rocky9"), 5));
    // No registry entry for the system.
    assert_eq!(inv.resolve_ipxe(&b("S1")), None);
    // Unknown serial.
    assert_eq!(inv.resolve_ipxe(&b("nope")), None);
    // Entry present but its script path is unset.
    inv.ipxe.push(IpxeEntry { os: b("rocky9"), script: None });
    assert_eq!(inv.resolve_ipxe(&b("S1")), None);
}

#[test]
fn dispatcher_unreadable_script_is_a_server_error() {
    let mut inv = Inventory::new();
    inv.hosts.push(host("S1", "10.0.0.1", "b1", Some("rocky9"), 5));
    inv.ipxe.push(IpxeEntry { os: b("rocky9"), script: Some(b("/srv/rocky9.ipxe")) });
    let resolved = inv.resolve_ipxe(&b("S1"));
    assert_eq!(resolved, Some(b("/srv/rocky9.ipxe")));
    let response = ipxe_response(&resolved, &None);
    assert_eq!(response.status, 500);
    assert!(response.body.is_empty());
}

// ------------------------------------------------------------------
// Inventory store operations
// ------------------------------------------------------------------
#[test]
fn delete_queue_entry_removes_all_copies() {
    let mut inv = Inventory::new();
    inv.install_queue.push(b("b1"));
    inv.install_queue.push(b("b2"));
    inv.install_queue.push(b("b1"));
    inv.delete_install_queue_entry(&b("b1"));
    assert_eq!(inv.install_queue, vec![b("b2")]);
}

#[test]
fn upsert_keyed_by_serial() {
    let mut inv = Inventory::new();
    inv.upsert_host(&observation("S1", "10.0.0.1", "b1", 0, "t1"));
    inv.upsert_host(&observation("S2", "10.0.0.2", "b2", 0, "t1"));
    inv.upsert_host(&observation("S1", "10.0.0.9", "b1", 0, "t2"));
    assert_eq!(inv.hosts.len(), 2);
    assert_eq!(inv.hosts[0].ip_address, b("10.0.0.9"));
    assert_eq!(inv.hosts[0].last_updated, b("t2"));
}
