//! Turning successive readings into rows.

use simple_metrics::proc::{CpuTimes, Memory, NetCounters, NetTable, Readings};
use simple_metrics::sampler::{cpu_percent, rate, Sample, Sampler};

// Row positions, from the schema's order.
const CPU: usize = 0;
const LOAD: usize = 1;
const MEM: usize = 2;
const SWAP: usize = 3;
const TEMP: usize = 4;
const ETH0_RX: usize = 5;
const ETH0_TX: usize = 6;
const WG0_RX: usize = 7;

/// What a sample is worth as a number.
fn value(sample: &Sample) -> f64 {
    match *sample {
        Sample::Gap => f64::NAN,
        Sample::Float(bits) => f64::from_bits(bits),
        Sample::Count(n) => n as f64,
        Sample::Thousandths(n) => n as f64 / 1000.0,
        Sample::Percent { part, whole } => (100.0 * part as f64 / whole as f64).clamp(0.0, 100.0),
        Sample::PerSecond { amount, nanos } => amount as f64 / (nanos as f64 / 1e9),
    }
}

/// Takes a sample `secs` after the last.
fn sample(sampler: &mut Sampler, readings: &Readings, secs: f64) -> Vec<f64> {
    sampler.sample(readings, (secs * 1e9) as u64).iter().map(value).collect()
}

fn readings(busy: u64, total: u64, eth0: (u64, u64)) -> Readings {
    let mut net = NetTable::new();
    net.insert("eth0".to_owned(), NetCounters { rx_bytes: eth0.0, tx_bytes: eth0.1 });
    Readings {
        cpu: Some(CpuTimes { busy, total }),
        load1: Some(0.5_f64.to_bits()),
        memory: Some(Memory { used: 1000, swap_used: 200 }),
        temperature: Some(50_000),
        net,
    }
}

fn sampler() -> Sampler {
    Sampler::new(vec!["eth0".to_owned(), "wg0".to_owned()])
}

#[test]
fn a_row_has_a_value_for_every_metric() {
    let row = sample(&mut sampler(), &readings(0, 0, (0, 0)), 5.0);
    assert_eq!(row.len(), 5 + 2 * 2);
}

#[test]
fn gauges_are_reported_straight_away() {
    let row = sample(&mut sampler(), &readings(10, 100, (0, 0)), 5.0);
    assert!((row[LOAD] - 0.5).abs() < f64::EPSILON);
    assert!((row[MEM] - 1000.0).abs() < f64::EPSILON);
    assert!((row[SWAP] - 200.0).abs() < f64::EPSILON);
    assert!((row[TEMP] - 50.0).abs() < f64::EPSILON);
}

#[test]
fn the_first_row_has_no_rates() {
    let row = sample(&mut sampler(), &readings(10, 100, (500, 500)), 5.0);
    assert!(row[CPU].is_nan());
    assert!(row[ETH0_RX].is_nan());
    assert!(row[ETH0_TX].is_nan());
}

#[test]
fn cpu_percent_is_the_busy_share_of_the_change() {
    let mut sampler = sampler();
    sample(&mut sampler, &readings(100, 1000, (0, 0)), 5.0);
    // 50 of the 200 new ticks were busy.
    let row = sample(&mut sampler, &readings(150, 1200, (0, 0)), 5.0);
    assert!((row[CPU] - 25.0).abs() < 1e-9);
}

#[test]
fn network_rates_are_bytes_per_second() {
    let mut sampler = sampler();
    sample(&mut sampler, &readings(0, 100, (1000, 4000)), 5.0);
    let row = sample(&mut sampler, &readings(0, 200, (1500, 4100)), 5.0);
    assert!((row[ETH0_RX] - 100.0).abs() < 1e-9); // 500 bytes over 5 s
    assert!((row[ETH0_TX] - 20.0).abs() < 1e-9); // 100 bytes over 5 s
}

#[test]
fn a_rate_uses_the_time_actually_elapsed() {
    let mut sampler = sampler();
    sample(&mut sampler, &readings(0, 100, (0, 0)), 5.0);
    let row = sample(&mut sampler, &readings(0, 200, (1000, 0)), 2.0);
    assert!((row[ETH0_RX] - 500.0).abs() < 1e-9);
}

#[test]
fn a_counter_that_goes_backwards_is_a_gap_not_a_huge_number() {
    let mut sampler = sampler();
    sample(&mut sampler, &readings(500, 1000, (9000, 9000)), 5.0);
    let row = sample(&mut sampler, &readings(10, 20, (100, 100)), 5.0);
    assert!(row[CPU].is_nan());
    assert!(row[ETH0_RX].is_nan());
    assert!(row[ETH0_TX].is_nan());
}

#[test]
fn no_cpu_time_passing_is_a_gap() {
    let mut sampler = sampler();
    sample(&mut sampler, &readings(10, 100, (0, 0)), 5.0);
    let row = sample(&mut sampler, &readings(10, 100, (0, 0)), 5.0);
    assert!(row[CPU].is_nan());
}

#[test]
fn zero_elapsed_time_gives_no_rate() {
    let mut sampler = sampler();
    sample(&mut sampler, &readings(0, 100, (0, 0)), 5.0);
    let row = sample(&mut sampler, &readings(0, 200, (1000, 1000)), 0.0);
    assert!(row[ETH0_RX].is_nan());
}

#[test]
fn cpu_percent_never_leaves_zero_to_one_hundred() {
    let mut sampler = sampler();
    sample(&mut sampler, &readings(0, 100, (0, 0)), 5.0);
    // Busy grew more than total: inconsistent input, clamped.
    let row = sample(&mut sampler, &readings(500, 200, (0, 0)), 5.0);
    assert!((row[CPU] - 100.0).abs() < f64::EPSILON);
}

#[test]
fn an_interface_that_is_absent_is_a_gap() {
    let mut sampler = sampler();
    sample(&mut sampler, &readings(0, 100, (0, 0)), 5.0);
    let row = sample(&mut sampler, &readings(0, 200, (10, 10)), 5.0);
    assert!(row[WG0_RX].is_nan()); // "wg0" isn't in the readings
    assert!(!row[ETH0_RX].is_nan());
}

#[test]
fn an_interface_that_reappears_starts_from_a_gap() {
    let mut sampler = sampler();
    sample(&mut sampler, &readings(0, 100, (100, 100)), 5.0);
    let mut without = readings(0, 200, (0, 0));
    without.net = NetTable::new();
    sample(&mut sampler, &without, 5.0);
    // Back again: there's no previous counter to compare with.
    let row = sample(&mut sampler, &readings(0, 300, (900, 900)), 5.0);
    assert!(row[ETH0_RX].is_nan());
}

#[test]
fn unreadable_gauges_are_gaps() {
    let row = sample(&mut sampler(), &Readings::default(), 5.0);
    assert_eq!(row.len(), 9);
    assert!(row.iter().all(|v| v.is_nan()));
}

#[test]
fn a_sample_keeps_what_it_is_worked_out_from() {
    let before = Some(CpuTimes { busy: 100, total: 1000 });
    let now = Some(CpuTimes { busy: 150, total: 1200 });
    assert_eq!(cpu_percent(before, now), Sample::Percent { part: 50, whole: 200 });
    let too_busy = Some(CpuTimes { busy: 900, total: 1200 });
    assert_eq!(cpu_percent(before, too_busy), Sample::Percent { part: 200, whole: 200 });
    assert_eq!(cpu_percent(None, now), Sample::Gap);
    assert_eq!(cpu_percent(before, None), Sample::Gap);
    assert_eq!(rate(Some(1000), Some(1500), 5_000_000_000), Sample::PerSecond { amount: 500, nanos: 5_000_000_000 });
    assert_eq!(rate(Some(1500), Some(1000), 5_000_000_000), Sample::Gap);
    assert_eq!(rate(Some(1000), Some(1500), 0), Sample::Gap);
    assert_eq!(rate(None, Some(1500), 1), Sample::Gap);
}
