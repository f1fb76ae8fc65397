//! The parsers of the kernel's files.

use simple_metrics::proc::{
    load1_word, parse_cpu_times, parse_memory, parse_net_dev, parse_temperature, CpuTimes, Files, NetCounters,
    NetTable, Readings,
};

const STAT: &str = "\
cpu  5092 0 3387 2312719 1076 0 104 0 0 0
cpu0 1272 0 846 578179 269 0 26 0 0 0
cpu1 1273 0 847 578180 269 0 26 0 0 0
cpu2 1273 0 847 578180 269 0 26 0 0 0
cpu3 1274 0 847 578180 269 0 26 0 0 0
intr 1203941 0 68714 0
ctxt 2087411
btime 1790000000
processes 3187
";
const LOADAVG: &str = "0.07 0.02 0.00 1/307 3187\n";
const MEMINFO: &str = "\
MemTotal:        3886840 kB
MemFree:         3105720 kB
MemAvailable:    3482432 kB
Buffers:           40112 kB
Cached:           387216 kB
SwapCached:            0 kB
SwapTotal:       2097148 kB
SwapFree:        2097148 kB
";
const NET_DEV: &str = "\
Inter-|   Receive                                                |  Transmit
 face |bytes    packets errs drop fifo frame compressed multicast|bytes    packets errs drop fifo colls carrier compressed
    lo:   14440     170    0    0    0     0          0         0    14440     170    0    0    0     0       0          0
  eth0: 2773361    9911    0    0    0     0          0        12   488920    4390    0    0    0     0       0          0
 wlan0:       0       0    0    0    0     0          0         0        0       0    0    0    0     0       0          0
 wlan1:       0       0    0    0    0     0          0         0    71210     420    0    0    0     0       0          0
 br-ap:       0       0    0    0    0     0          0         0    68214     401    0    0    0     0       0          0
   wg0:  150092    1022    0    0    0     0          0         0   162504    1099    0    0    0     0       0          0
";
const TEMP: &str = "48686\n";

#[test]
fn cpu_times_from_a_real_stat_file() {
    // cpu  5092 0 3387 2312719 1076 0 104 0 0 0
    let times = parse_cpu_times(STAT).unwrap();
    let total = 5092 + 3387 + 2_312_719 + 1076 + 104;
    assert_eq!(times.total, total);
    assert_eq!(times.busy, 5092 + 3387 + 104);
}

#[test]
fn cpu_times_ignore_the_per_core_lines() {
    // "cpu0 ..." must not be mistaken for the aggregate "cpu ..." line.
    let per_core_first = "cpu0 1 1 1 1 1 1 1 1\ncpu  10 0 10 80 0 0 0 0\n";
    let times = parse_cpu_times(per_core_first).unwrap();
    assert_eq!((times.busy, times.total), (20, 100));
}

#[test]
fn cpu_times_do_not_count_guest_time_twice() {
    // guest (9th) and guest_nice (10th) are included in user and nice.
    let times = parse_cpu_times("cpu  100 0 0 100 0 0 0 0 50 25\n").unwrap();
    assert_eq!(times.total, 200);
}

#[test]
fn cpu_times_tolerate_an_old_kernel_with_fewer_fields() {
    let times = parse_cpu_times("cpu  10 0 10 80\n").unwrap();
    assert_eq!((times.busy, times.total), (20, 100));
}

#[test]
fn cpu_times_reject_garbage() {
    for text in ["", "cpu\n", "cpu  a b c d\n", "intr 1 2 3\n", "cpu  1 2 3\n"] {
        assert_eq!(parse_cpu_times(text), None, "{text:?}");
    }
}

#[test]
fn cpu_times_too_large_to_add_up_are_a_gap() {
    assert_eq!(parse_cpu_times("cpu 18446744073709551615 0 0 1\n"), None);
    assert_eq!(
        parse_cpu_times("cpu 18446744073709551614 0 0 1\n"),
        Some(CpuTimes { busy: u64::MAX - 1, total: u64::MAX })
    );
}

/// The 1-minute load that readings of this `/proc/loadavg` have.
fn parse_load1(loadavg: &str) -> Option<f64> {
    let nothing = Files { stat: None, meminfo: None, temp: None, net_dev: None };
    let load = load1_word(loadavg).and_then(|word| word.parse::<f64>().ok()).map(f64::to_bits);
    Readings::from_files(&nothing, load).load1.map(f64::from_bits)
}

#[test]
fn load_from_a_real_loadavg_file() {
    assert_eq!(parse_load1(LOADAVG), Some(0.07));
}

#[test]
fn load_rejects_garbage() {
    for text in ["", "abc 1 2", "NaN 0 0", "inf 0 0"] {
        assert_eq!(parse_load1(text), None, "{text:?}");
    }
}

#[test]
fn the_load_is_the_first_word() {
    assert_eq!(load1_word(LOADAVG).as_deref(), Some("0.07"));
    assert_eq!(load1_word(" \n"), None);
}

#[test]
fn memory_from_a_real_meminfo_file() {
    let memory = parse_memory(MEMINFO).unwrap();
    // MemTotal 3886840 kB, MemAvailable 3482432 kB, swap entirely free.
    assert_eq!(memory.used, (3_886_840 - 3_482_432) * 1024);
    assert_eq!(memory.swap_used, 0);
}

#[test]
fn memory_counts_swap_in_use() {
    let text = "MemTotal: 1000 kB\nMemAvailable: 400 kB\nSwapTotal: 500 kB\nSwapFree: 200 kB\n";
    let memory = parse_memory(text).unwrap();
    assert_eq!(memory.used, 600 * 1024);
    assert_eq!(memory.swap_used, 300 * 1024);
}

#[test]
fn memory_key_match_is_exact() {
    // "SwapCached" must not satisfy a lookup for "Swap...", nor "MemFree"
    // one for "MemTotal".
    let text = "MemFree: 5 kB\nSwapCached: 1 kB\n";
    assert_eq!(parse_memory(text), None);
}

#[test]
fn memory_needs_every_field() {
    let text = "MemTotal: 1000 kB\nMemAvailable: 400 kB\nSwapTotal: 500 kB\n";
    assert_eq!(parse_memory(text), None);
    assert_eq!(parse_memory(""), None);
}

#[test]
fn memory_in_use_is_never_negative_nor_too_large_to_count() {
    let text = "MemTotal: 18446744073709551615 kB\nMemAvailable: 0 kB\nSwapTotal: 1 kB\nSwapFree: 2 kB\n";
    let memory = parse_memory(text).unwrap();
    assert_eq!((memory.used, memory.swap_used), (u64::MAX, 0));
}

#[test]
fn temperature_from_a_real_file() {
    assert_eq!(parse_temperature(TEMP).map(|milli| milli as f64 / 1000.0), Some(48.686));
}

#[test]
fn temperature_can_be_below_zero_and_rejects_garbage() {
    assert_eq!(parse_temperature("-5500\n").map(|milli| milli as f64 / 1000.0), Some(-5.5));
    assert_eq!(parse_temperature("warm"), None);
    assert_eq!(parse_temperature(""), None);
}

#[test]
fn a_temperature_can_be_as_large_as_64_bits_allow() {
    assert_eq!(parse_temperature("-9223372036854775808"), Some(i64::MIN));
    assert_eq!(parse_temperature("+9223372036854775807"), Some(i64::MAX));
    assert_eq!(parse_temperature("9223372036854775808"), None);
    assert_eq!(parse_temperature("-9223372036854775809"), None);
    assert_eq!(parse_temperature("-"), None);
}

#[test]
fn net_dev_from_a_real_file() {
    let net = parse_net_dev(NET_DEV);
    assert_eq!(net.len(), 6); // lo, eth0, wlan0, wlan1, br-ap, wg0
    assert_eq!(
        net.get("eth0"),
        Some(NetCounters { rx_bytes: 2_773_361, tx_bytes: 488_920 })
    );
    assert_eq!(net.get("wg0").unwrap().tx_bytes, 162_504);
    assert_eq!(net.get("wlan0").unwrap().rx_bytes, 0);
}

#[test]
fn net_dev_skips_headers_and_malformed_lines() {
    let text = "Inter-|   Receive\n face |bytes packets\n  eth0: 1 2 3\n  ok: 1 0 0 0 0 0 0 0 9 0 0 0 0 0 0 0\n";
    let net = parse_net_dev(text);
    assert_eq!(net.len(), 1);
    assert_eq!(net.get("ok").unwrap().tx_bytes, 9);
}

#[test]
fn net_dev_handles_a_name_with_no_space_before_the_counters() {
    // Long interface names run into the first counter: "enp0s31f6:123 ...".
    let text = "enp0s31f6:123 0 0 0 0 0 0 0 456 0 0 0 0 0 0 0\n";
    let net = parse_net_dev(text);
    let counters = net.get("enp0s31f6").unwrap();
    assert_eq!((counters.rx_bytes, counters.tx_bytes), (123, 456));
}

#[test]
fn a_later_line_for_an_interface_overrides_an_earlier_one() {
    let net = parse_net_dev(
        "a: 1 0 0 0 0 0 0 0 2 0 0 0 0 0 0 0\nb: 3 0 0 0 0 0 0 0 4 0 0 0 0 0 0 0\r\na: 5 0 0 0 0 0 0 0 6 0 0 0 0 0 0 0\n",
    );
    assert_eq!(net.len(), 2);
    assert_eq!(net.get("a"), Some(NetCounters { rx_bytes: 5, tx_bytes: 6 }));
    assert_eq!(net.get("b"), Some(NetCounters { rx_bytes: 3, tx_bytes: 4 }));
    assert_eq!(net.get("c"), None);
}

#[test]
fn a_line_cut_short_or_too_long_is_skipped() {
    assert_eq!(parse_net_dev("eth0: 1 2 3 4 5 6 7 8 9\n").len(), 0);
    assert_eq!(parse_net_dev("eth0: 1 2 3 4 5 6 7 8 9 10 11 12 13 14 15\n").len(), 0);
    assert_eq!(parse_net_dev("eth0: 1 2 3 4 5 6 7 8 9 10 11 12 13 14 15 16\n").len(), 1);
    assert_eq!(parse_net_dev("eth0: 1 2 3 4 5 6 7 8 9 10 11 12 13 14 15 16 17\n").len(), 0);
}

#[test]
fn reading_a_missing_root_gives_empty_readings() {
    let files = Files { stat: None, meminfo: None, temp: None, net_dev: None };
    let readings = Readings::from_files(&files, None);
    assert_eq!(
        readings,
        Readings { cpu: None, load1: None, memory: None, temperature: None, net: NetTable::new() }
    );
}

#[test]
fn reading_the_fixture_root_finds_everything() {
    let files = Files {
        stat: Some(STAT.to_owned()),
        meminfo: Some(MEMINFO.to_owned()),
        temp: Some(TEMP.to_owned()),
        net_dev: Some(NET_DEV.to_owned()),
    };
    let load: f64 = load1_word(LOADAVG).unwrap().parse().unwrap();
    let readings = Readings::from_files(&files, Some(load.to_bits()));
    assert!(readings.cpu.is_some());
    assert_eq!(readings.load1.map(f64::from_bits), Some(0.07));
    assert!(readings.memory.is_some());
    assert_eq!(readings.temperature.map(|milli| milli as f64 / 1000.0), Some(48.686));
    assert!(readings.net.get("eth0").is_some());
}
