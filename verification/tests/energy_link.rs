use nexusfs::link::{
    config_is_valid, default_route_iface, is_tether_port, parse_config, parse_nm_metered,
    parse_route_get_default,
};
use nexusfs::telemetry::LinkCost;

#[test]
fn config_values_are_read_case_insensitively() {
    assert_eq!(parse_config("metered"), Some(LinkCost::Metered));
    assert_eq!(parse_config("  Metered "), Some(LinkCost::Metered));
    assert_eq!(parse_config("UNMETERED"), Some(LinkCost::Unmetered));
    assert_eq!(parse_config("unknown"), Some(LinkCost::Unknown));
    assert_eq!(parse_config("auto"), None, "auto means detect");
    assert_eq!(parse_config("nonsense"), None);
}

#[test]
fn auto_and_empty_are_valid_config_but_nonsense_is_not() {
    assert!(config_is_valid("auto"));
    assert!(config_is_valid(""));
    assert!(config_is_valid("metered"));
    assert!(!config_is_valid("cheap"));
}

#[test]
fn the_default_route_is_picked_by_lowest_metric() {
    let routes = "\
Iface\tDestination\tGateway\tFlags\tRefCnt\tUse\tMetric\tMask\tMTU\tWindow\tIRTT
wlan0\t00000000\t0102A8C0\t0003\t0\t0\t600\t00000000\t0\t0\t0
usb0\t00000000\t0101A8C0\t0003\t0\t0\t100\t00000000\t0\t0\t0
wlan0\t0002A8C0\t00000000\t0001\t0\t0\t600\t00FFFFFF\t0\t0\t0
";
    assert_eq!(default_route_iface(routes), Some("usb0"));
}

#[test]
fn a_table_with_no_default_route_names_nothing() {
    let routes = "\
Iface\tDestination\tGateway\tFlags\tRefCnt\tUse\tMetric\tMask\tMTU\tWindow\tIRTT
wlan0\t0002A8C0\t00000000\t0001\t0\t0\t600\t00FFFFFF\t0\t0\t0
";
    assert_eq!(default_route_iface(routes), None);
    assert_eq!(default_route_iface(""), None);
}

#[test]
fn network_manager_answers_are_read_in_both_directions() {
    assert_eq!(parse_nm_metered("GENERAL.METERED:yes\n"), LinkCost::Metered);
    assert_eq!(parse_nm_metered("GENERAL.METERED:no\n"), LinkCost::Unmetered);
}

#[test]
fn a_guessed_answer_is_still_an_answer() {
    assert_eq!(parse_nm_metered("GENERAL.METERED:yes (guessed)\n"), LinkCost::Metered);
    assert_eq!(parse_nm_metered("GENERAL.METERED:no (guessed)\n"), LinkCost::Unmetered);
}

#[test]
fn an_absent_or_unknown_field_never_reads_as_unmetered() {
    assert_eq!(parse_nm_metered("GENERAL.METERED:unknown\n"), LinkCost::Unknown);
    assert_eq!(parse_nm_metered(""), LinkCost::Unknown);
    assert_eq!(parse_nm_metered("Error: Device 'x' not found.\n"), LinkCost::Unknown);
}

#[test]
fn the_macos_default_interface_is_read_from_route_output() {
    let out = "\
   route to: default
destination: default
       mask: default
    gateway: 192.168.1.1
  interface: en0
      flags: <UP,GATEWAY,DONE,STATIC,PRCLONING,GLOBAL>
";
    assert_eq!(parse_route_get_default(out), Some("en0"));
    assert_eq!(parse_route_get_default("route: no route to host"), None);
}

const HARDWARE_PORTS: &str = "\
Hardware Port: Wi-Fi
Device: en0
Ethernet Address: aa:bb:cc:dd:ee:ff

Hardware Port: iPhone USB
Device: en5
Ethernet Address: 11:22:33:44:55:66

Hardware Port: Thunderbolt Bridge
Device: bridge0
Ethernet Address: 77:88:99:aa:bb:cc
";

#[test]
fn a_phone_tether_is_recognised_by_its_hardware_port() {
    assert!(is_tether_port(HARDWARE_PORTS, "en5"));
}

#[test]
fn ordinary_ports_are_not_tethers() {
    assert!(!is_tether_port(HARDWARE_PORTS, "en0"));
    assert!(!is_tether_port(HARDWARE_PORTS, "bridge0"));
    assert!(!is_tether_port(HARDWARE_PORTS, "en9"));
}

#[test]
fn a_vpn_tunnel_is_not_a_hardware_port_and_reports_nothing() {
    assert!(!is_tether_port(HARDWARE_PORTS, "utun8"));
}

#[test]
fn a_hardware_port_named_after_its_device_does_not_confuse_the_match() {
    let out = "\
Hardware Port: Ethernet Adapter (en3)
Device: en3
Ethernet Address: 42:d8:a3:b5:b0:66

Hardware Port: iPhone USB
Device: en7
Ethernet Address: 11:22:33:44:55:66
";
    assert!(!is_tether_port(out, "en3"));
    assert!(is_tether_port(out, "en7"));
}

#[test]
fn windows_line_endings_and_an_ipad_port_are_recognised() {
    let out = "Hardware Port: iPad USB\r\nDevice: en4\r\n";
    assert!(is_tether_port(out, "en4"));
}

#[test]
fn equal_metrics_keep_the_first_default_route() {
    let routes = "\
Iface\tDestination\tGateway\tFlags\tRefCnt\tUse\tMetric
eth0\t00000000\t0102A8C0\t0003\t0\t0\t100
wlan0\t00000000\t0101A8C0\t0003\t0\t0\t100
";
    assert_eq!(default_route_iface(routes), Some("eth0"));
}

#[test]
fn a_default_route_with_an_unreadable_metric_is_skipped() {
    let routes = "\
Iface\tDestination\tGateway\tFlags\tRefCnt\tUse\tMetric
eth0\t00000000\t0102A8C0\t0003\t0\t0\tlots
wlan0\t00000000\t0101A8C0\t0003\t0\t0\t700
";
    assert_eq!(default_route_iface(routes), Some("wlan0"));
}

#[test]
fn an_empty_interface_name_is_no_answer() {
    assert_eq!(parse_route_get_default("  interface:   \n"), None);
}
