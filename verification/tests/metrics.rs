//! The schema.

use simple_metrics::metrics::{is_valid_interface, Schema, FIXED_COUNT};

fn interfaces(names: &[&str]) -> Vec<String> {
    names.iter().map(ToString::to_string).collect()
}

#[test]
fn has_the_fixed_metrics_then_two_per_interface() {
    let schema = Schema::new(&interfaces(&["eth0", "wg0"]));
    let names: Vec<&str> = schema.metrics().iter().map(|m| m.name.as_str()).collect();
    assert_eq!(
        names,
        [
            "cpu_percent",
            "load1",
            "mem_used_bytes",
            "swap_used_bytes",
            "cpu_temp_celsius",
            "net_eth0_rx_bytes_per_sec",
            "net_eth0_tx_bytes_per_sec",
            "net_wg0_rx_bytes_per_sec",
            "net_wg0_tx_bytes_per_sec",
        ]
    );
    assert_eq!(schema.len(), 9);
    assert!(!schema.is_empty());
}

#[test]
fn with_no_interfaces_only_the_fixed_metrics_remain() {
    assert_eq!(Schema::new(&[]).len(), FIXED_COUNT);
}

#[test]
fn metric_names_are_unique() {
    let schema = Schema::new(&interfaces(&["eth0", "wlan0", "wlan1", "br-ap", "wg0"]));
    let mut names: Vec<&str> = schema.metrics().iter().map(|m| m.name.as_str()).collect();
    names.sort_unstable();
    names.dedup();
    assert_eq!(names.len(), schema.len());
}

#[test]
fn accepts_ordinary_interface_names() {
    for name in ["eth0", "wlan1", "br-ap", "wg0", "enp0s3", "veth_a.1"] {
        assert!(is_valid_interface(name), "{name}");
    }
}

#[test]
fn rejects_names_that_could_cause_trouble() {
    for name in ["", "a b", "a/b", "a:b", "a\"b", "a\nb", "way-too-long-name", "é"] {
        assert!(!is_valid_interface(name), "{name:?}");
    }
}

#[test]
fn a_name_of_fifteen_characters_is_the_longest() {
    assert!(is_valid_interface("abcdefghij12345"));
    assert!(!is_valid_interface("abcdefghij123456"));
}

#[test]
fn a_schema_is_as_wide_as_its_interfaces_make_it() {
    assert_eq!(Schema::width_for(0), 5);
    assert_eq!(Schema::width_for(5), 15);
    let names = interfaces(&["a", "b", "c"]);
    assert_eq!(Schema::new(&names).len(), Schema::width_for(names.len()));
}

#[test]
fn metrics_have_labels_and_units() {
    let schema = Schema::new(&interfaces(&["eth0"]));
    let all: Vec<(&str, &str)> = schema.metrics().iter().map(|m| (m.label.as_str(), m.unit)).collect();
    assert_eq!(
        all,
        [
            ("CPU", "%"),
            ("Load (1 min)", ""),
            ("Memory used", "bytes"),
            ("Swap used", "bytes"),
            ("CPU temperature", "°C"),
            ("eth0 received", "bytes/s"),
            ("eth0 sent", "bytes/s"),
        ]
    );
}
