//! Turns successive [`Readings`] of the machine into rows of values.
//!
//! Some readings are gauges (memory in use right now) and go straight into the
//! row. Others are cumulative counters (CPU ticks, bytes sent) and only mean
//! something as a change since the previous reading, so the sampler remembers
//! the last one. The first row therefore has no rates. A value that can't be
//! worked out is a gap in the chart rather than a misleading zero.
use vstd::prelude::*;

use crate::metrics::{metrics_for, FIXED_COUNT};
use crate::proc::{CpuTimes, NetCounters, NetTable, Readings};
use crate::text::texts;

verus! {

/// One value of a row: the whole numbers it is worked out from.
#[derive(Debug, Clone, Copy, PartialEq, Eq)]
pub enum Sample {
    /// A value that can't be worked out.
    Gap,
    /// A floating-point number, as its bit pattern.
    Float(u64),
    /// A whole number.
    Count(u64),
    /// This many thousandths.
    Thousandths(i64),
    /// How much `part` is of `whole`, as a percentage.
    Percent {
        /// The part, never more than the whole.
        part: u64,
        /// The whole, never zero.
        whole: u64,
    },
    /// How much `amount` in so much time is in a second.
    PerSecond {
        /// The amount.
        amount: u64,
        /// The time, in nanoseconds, never zero.
        nanos: u64,
    },
}

/// The counters of the last reading.
pub ghost struct Counters {
    /// The CPU time counters.
    pub cpu: Option<CpuTimes>,
    /// Byte counters by interface name.
    pub net: Map<Seq<char>, NetCounters>,
}

/// The percentage of CPU time spent busy between two readings. A counter that
/// went backwards (a reset) or didn't move (two readings in the same tick)
/// gives no meaningful percentage, and busy time that grew more than all time
/// did (inconsistent readings) is all of it.
pub open spec fn busy_share(before: Option<CpuTimes>, now: Option<CpuTimes>) -> Sample {
    match (before, now) {
        (Some(b), Some(n)) => if n.total > b.total && n.busy >= b.busy {
            let whole = n.total - b.total;
            let busy = n.busy - b.busy;
            Sample::Percent {
                part: if busy > whole {
                    whole as u64
                } else {
                    busy as u64
                },
                whole: whole as u64,
            }
        } else {
            Sample::Gap
        },
        _ => Sample::Gap,
    }
}

/// Bytes per second between two readings of a cumulative counter. A counter
/// that went backwards means the interface was reset or recreated in between;
/// the change can't be known.
pub open spec fn change_rate(before: Option<u64>, now: Option<u64>, nanos: u64) -> Sample {
    match (before, now) {
        (Some(b), Some(n)) => if n >= b && nanos > 0 {
            Sample::PerSecond { amount: (n - b) as u64, nanos }
        } else {
            Sample::Gap
        },
        _ => Sample::Gap,
    }
}

/// The counters of an interface, if they are known.
pub open spec fn counters_of(net: Map<Seq<char>, NetCounters>, name: Seq<char>) -> Option<NetCounters> {
    if net.contains_key(name) {
        Some(net[name])
    } else {
        None
    }
}

/// The bytes received.
pub open spec fn rx(counters: Option<NetCounters>) -> Option<u64> {
    match counters {
        Some(c) => Some(c.rx_bytes),
        None => None,
    }
}

/// The bytes sent.
pub open spec fn tx(counters: Option<NetCounters>) -> Option<u64> {
    match counters {
        Some(c) => Some(c.tx_bytes),
        None => None,
    }
}

/// The values of the fixed metrics, in the schema's order.
pub open spec fn fixed_samples(previous: Option<Counters>, readings: Readings) -> Seq<Sample> {
    seq![
        busy_share(
            match previous {
                Some(p) => p.cpu,
                None => None,
            },
            readings.cpu,
        ),
        match readings.load1 {
            Some(bits) => Sample::Float(bits),
            None => Sample::Gap,
        },
        match readings.memory {
            Some(m) => Sample::Count(m.used),
            None => Sample::Gap,
        },
        match readings.memory {
            Some(m) => Sample::Count(m.swap_used),
            None => Sample::Gap,
        },
        match readings.temperature {
            Some(milli) => Sample::Thousandths(milli),
            None => Sample::Gap,
        },
    ]
}

/// An interface's counters before and now.
pub open spec fn counters_before(previous: Option<Counters>, name: Seq<char>) -> Option<NetCounters> {
    match previous {
        Some(p) => counters_of(p.net, name),
        None => None,
    }
}

/// A receive and a transmit rate for each interface, in the schema's order.
pub open spec fn rate_samples(
    interfaces: Seq<Seq<char>>,
    previous: Option<Counters>,
    now: Map<Seq<char>, NetCounters>,
    nanos: u64,
) -> Seq<Sample>
    decreases interfaces.len(),
{
    if interfaces.len() == 0 {
        seq![]
    } else {
        let name = interfaces.last();
        rate_samples(interfaces.drop_last(), previous, now, nanos).push(
            change_rate(rx(counters_before(previous, name)), rx(counters_of(now, name)), nanos),
        ).push(change_rate(tx(counters_before(previous, name)), tx(counters_of(now, name)), nanos))
    }
}

/// The row for `readings` taken `nanos` after the `previous` ones.
pub open spec fn row_for(
    interfaces: Seq<Seq<char>>,
    previous: Option<Counters>,
    readings: Readings,
    nanos: u64,
) -> Seq<Sample> {
    fixed_samples(previous, readings) + rate_samples(interfaces, previous, readings.net@, nanos)
}

/// A row has a value for every metric of the schema.
pub proof fn law_row_fits_schema(
    interfaces: Seq<Seq<char>>,
    previous: Option<Counters>,
    readings: Readings,
    nanos: u64,
)
    ensures
        row_for(interfaces, previous, readings, nanos).len() == metrics_for(interfaces).len(),
        row_for(interfaces, previous, readings, nanos).len() == FIXED_COUNT + 2 * interfaces.len(),
{
    crate::metrics::lemma_rates(interfaces);
    lemma_rate_samples(interfaces, previous, readings.net@, nanos);
}

/// The rates, interface by interface.
pub proof fn lemma_rate_samples(
    interfaces: Seq<Seq<char>>,
    previous: Option<Counters>,
    now: Map<Seq<char>, NetCounters>,
    nanos: u64,
)
    ensures
        ({
            let rates = rate_samples(interfaces, previous, now, nanos);
            &&& rates.len() == 2 * interfaces.len()
            &&& forall|k: int|
                0 <= k < interfaces.len() ==> rates[2 * k] == change_rate(
                    rx(counters_before(previous, #[trigger] interfaces[k])),
                    rx(counters_of(now, interfaces[k])),
                    nanos,
                ) && rates[2 * k + 1] == change_rate(
                    tx(counters_before(previous, interfaces[k])),
                    tx(counters_of(now, interfaces[k])),
                    nanos,
                )
        }),
    decreases interfaces.len(),
{
    if interfaces.len() > 0 {
        lemma_rate_samples(interfaces.drop_last(), previous, now, nanos);
        assert forall|k: int| 0 <= k < interfaces.len() - 1 implies interfaces.drop_last()[k]
            == #[trigger] interfaces[k] by {}
    }
}

/// The first row has no rates: its CPU share and every interface's rates are
/// gaps.
pub proof fn law_first_row_has_no_rates(interfaces: Seq<Seq<char>>, readings: Readings, nanos: u64)
    ensures
        row_for(interfaces, None, readings, nanos)[0] == Sample::Gap,
        forall|i: int|
            FIXED_COUNT <= i < row_for(interfaces, None, readings, nanos).len() ==> #[trigger] row_for(
                interfaces,
                None,
                readings,
                nanos,
            )[i] == Sample::Gap,
{
    lemma_rate_samples(interfaces, None, readings.net@, nanos);
    let rates = rate_samples(interfaces, None, readings.net@, nanos);
    let row = row_for(interfaces, None, readings, nanos);
    assert forall|i: int| FIXED_COUNT <= i < row.len() implies #[trigger] row[i] == Sample::Gap by {
        let k = (i - FIXED_COUNT) / 2;
        assert(row[i] == rates[i - FIXED_COUNT]);
        assert(0 <= k < interfaces.len());
        let name = interfaces[k];
        assert(i - FIXED_COUNT == 2 * k || i - FIXED_COUNT == 2 * k + 1);
    }
}

/// Whether a value can be worked out: it is no share of nothing, nor more than
/// all of it, and no rate over no time.
pub open spec fn is_sound(sample: Sample) -> bool {
    match sample {
        Sample::Percent { part, whole } => whole > 0 && part <= whole,
        Sample::PerSecond { amount, nanos } => nanos > 0,
        _ => true,
    }
}

/// No row divides by zero, and no share in it is more than the whole.
pub proof fn law_rows_are_sound(
    interfaces: Seq<Seq<char>>,
    previous: Option<Counters>,
    readings: Readings,
    nanos: u64,
)
    ensures
        forall|i: int|
            0 <= i < row_for(interfaces, previous, readings, nanos).len() ==> is_sound(
                #[trigger] row_for(interfaces, previous, readings, nanos)[i],
            ),
{
    lemma_rate_samples(interfaces, previous, readings.net@, nanos);
    let rates = rate_samples(interfaces, previous, readings.net@, nanos);
    let row = row_for(interfaces, previous, readings, nanos);
    assert forall|i: int| 0 <= i < row.len() implies is_sound(#[trigger] row[i]) by {
        if i >= FIXED_COUNT {
            let k = (i - FIXED_COUNT) / 2;
            assert(row[i] == rates[i - FIXED_COUNT]);
            assert(0 <= k < interfaces.len());
            let name = interfaces[k];
            assert(i - FIXED_COUNT == 2 * k || i - FIXED_COUNT == 2 * k + 1);
        }
    }
}

#[derive(Debug)]
struct Previous {
    cpu: Option<CpuTimes>,
    net: NetTable,
}

/// Remembers the previous counters so it can turn the next ones into rates.
#[derive(Debug)]
pub struct Sampler {
    interfaces: Vec<String>,
    previous: Option<Previous>,
}

impl Sampler {
    /// The interfaces that this reports on.
    pub closed spec fn names(self) -> Seq<Seq<char>> {
        texts(self.interfaces@)
    }

    /// The counters of the last reading.
    pub closed spec fn last(self) -> Option<Counters> {
        match self.previous {
            Some(p) => Some(Counters { cpu: p.cpu, net: p.net@ }),
            None => None,
        }
    }

    /// A sampler that reports on these network `interfaces`, in this order.
    /// (The order must match [`crate::metrics::Schema::new`].)
    #[must_use]
    pub fn new(interfaces: Vec<String>) -> (sampler: Self)
        ensures
            sampler.names() == texts(interfaces@),
            sampler.last() is None,
    {
        Sampler { interfaces, previous: None }
    }

    /// Produces one row of values, in the [`crate::metrics::Schema`] order, from
    /// the latest `readings`. `nanos` is the time since the previous call, and
    /// is what the counters' changes are divided by.
    pub fn sample(&mut self, readings: &Readings, nanos: u64) -> (row: Vec<Sample>)
        ensures
            final(self).names() == old(self).names(),
            final(self).last() == Some((Counters { cpu: readings.cpu, net: readings.net@ })),
            row@ == row_for(old(self).names(), old(self).last(), *readings, nanos),
    {
        let ghost names = self.names();
        let ghost last = self.last();
        let previous = self.previous.take();
        let cpu_before = match &previous {
            Some(p) => p.cpu,
            None => None,
        };
        let mut row: Vec<Sample> = Vec::new();
        row.push(cpu_percent(cpu_before, readings.cpu));
        row.push(
            match readings.load1 {
                Some(bits) => Sample::Float(bits),
                None => Sample::Gap,
            },
        );
        row.push(
            match readings.memory {
                Some(m) => Sample::Count(m.used),
                None => Sample::Gap,
            },
        );
        row.push(
            match readings.memory {
                Some(m) => Sample::Count(m.swap_used),
                None => Sample::Gap,
            },
        );
        row.push(
            match readings.temperature {
                Some(milli) => Sample::Thousandths(milli),
                None => Sample::Gap,
            },
        );
        assert(row@ =~= fixed_samples(last, *readings) + rate_samples(names.take(0), last, readings.net@, nanos));
        for i in 0..self.interfaces.len()
            invariant
                self.names() == names,
                last == (match previous {
                    Some(p) => Some(Counters { cpu: p.cpu, net: p.net@ }),
                    None => None,
                }),
                row@ == fixed_samples(last, *readings) + rate_samples(
                    names.take(i as int),
                    last,
                    readings.net@,
                    nanos,
                ),
        {
            let interface = self.interfaces[i].as_str();
            let before = match &previous {
                Some(p) => p.net.get(interface),
                None => None,
            };
            let now = readings.net.get(interface);
            let ghost done = row@;
            row.push(rate(rx_of(before), rx_of(now), nanos));
            row.push(rate(tx_of(before), tx_of(now), nanos));
            proof {
                let longer = names.take(i + 1);
                assert(longer.drop_last() =~= names.take(i as int));
                assert(longer.last() == interface@);
                assert(row@ =~= fixed_samples(last, *readings) + rate_samples(longer, last, readings.net@, nanos));
            }
        }
        assert(names.take(self.interfaces@.len() as int) =~= names);
        self.previous = Some(Previous { cpu: readings.cpu, net: readings.net.clone() });
        row
    }
}

fn rx_of(counters: Option<NetCounters>) -> (r: Option<u64>)
    ensures
        r == rx(counters),
{
    match counters {
        Some(c) => Some(c.rx_bytes),
        None => None,
    }
}

fn tx_of(counters: Option<NetCounters>) -> (r: Option<u64>)
    ensures
        r == tx(counters),
{
    match counters {
        Some(c) => Some(c.tx_bytes),
        None => None,
    }
}

/// The percentage of CPU time spent busy between two readings.
pub fn cpu_percent(before: Option<CpuTimes>, now: Option<CpuTimes>) -> (r: Sample)
    ensures
        r == busy_share(before, now),
{
    match (before, now) {
        (Some(b), Some(n)) => match (n.total.checked_sub(b.total), n.busy.checked_sub(b.busy)) {
            (Some(whole), Some(part)) => if whole == 0 {
                Sample::Gap
            } else if part > whole {
                Sample::Percent { part: whole, whole }
            } else {
                Sample::Percent { part, whole }
            },
            _ => Sample::Gap,
        },
        _ => Sample::Gap,
    }
}

/// Bytes per second between two readings of a cumulative counter.
pub fn rate(before: Option<u64>, now: Option<u64>, nanos: u64) -> (r: Sample)
    ensures
        r == change_rate(before, now, nanos),
{
    match (before, now) {
        (Some(b), Some(n)) => match n.checked_sub(b) {
            Some(amount) => if nanos > 0 {
                Sample::PerSecond { amount, nanos }
            } else {
                Sample::Gap
            },
            None => Sample::Gap,
        },
        _ => Sample::Gap,
    }
}

/// The share of CPU time spent busy is what busy time grew by, of what all time
/// grew by. It is a gap if either reading is missing, if all time didn't grow or if
/// busy time went back; busy time that grew by more than all time did is all of it.
pub proof fn law_cpu_share(before: CpuTimes, now: CpuTimes)
    ensures
        now.total > before.total && now.busy >= before.busy && now.busy - before.busy <= now.total - before.total ==> {
            let share = busy_share(Some(before), Some(now));
            share is Percent && share->part == now.busy - before.busy && share->whole == now.total - before.total
        },
        now.total > before.total && now.busy >= before.busy && now.busy - before.busy > now.total - before.total ==> {
            let share = busy_share(Some(before), Some(now));
            share is Percent && share->part == share->whole && share->whole == now.total - before.total
        },
        now.total <= before.total || now.busy < before.busy ==> busy_share(Some(before), Some(now)) is Gap,
        busy_share(None, Some(now)) is Gap,
        busy_share(Some(before), None) is Gap,
        busy_share(None, None) is Gap,
{
}

/// A rate is what a counter grew by, in the time that passed. It is a gap if either
/// reading is missing, if the counter went back or if no time passed.
pub proof fn law_rate(before: u64, now: u64, nanos: u64)
    ensures
        now >= before && nanos > 0 ==> {
            let rate = change_rate(Some(before), Some(now), nanos);
            rate is PerSecond && rate->amount == now - before && rate->nanos == nanos
        },
        now < before || nanos == 0 ==> change_rate(Some(before), Some(now), nanos) is Gap,
        change_rate(None, Some(now), nanos) is Gap,
        change_rate(Some(before), None, nanos) is Gap,
        change_rate(None, None, nanos) is Gap,
{
}

/// Every value stands under its own metric: where the schema has `cpu_percent`, the
/// row has the CPU's share, and so on; and where it has what an interface receives
/// or sends, the rate at which that interface's own counter grew.
pub proof fn law_values_stand_under_their_metrics(
    interfaces: Seq<Seq<char>>,
    previous: Option<Counters>,
    readings: Readings,
    nanos: u64,
    k: int,
)
    requires
        0 <= k < interfaces.len(),
    ensures
        ({
            let row = row_for(interfaces, previous, readings, nanos);
            let metrics = metrics_for(interfaces);
            let name = interfaces[k];
            &&& metrics[0].name == "cpu_percent"@ && row[0] == (match previous {
                Some(p) => busy_share(p.cpu, readings.cpu),
                None => Sample::Gap,
            })
            &&& metrics[1].name == "load1"@ && row[1] == (match readings.load1 {
                Some(bits) => Sample::Float(bits),
                None => Sample::Gap,
            })
            &&& metrics[2].name == "mem_used_bytes"@ && row[2] == (match readings.memory {
                Some(memory) => Sample::Count(memory.used),
                None => Sample::Gap,
            })
            &&& metrics[3].name == "swap_used_bytes"@ && row[3] == (match readings.memory {
                Some(memory) => Sample::Count(memory.swap_used),
                None => Sample::Gap,
            })
            &&& metrics[4].name == "cpu_temp_celsius"@ && row[4] == (match readings.temperature {
                Some(thousandths) => Sample::Thousandths(thousandths),
                None => Sample::Gap,
            })
            &&& metrics[5 + 2 * k].name == "net_"@ + name + "_rx_bytes_per_sec"@
            &&& metrics[6 + 2 * k].name == "net_"@ + name + "_tx_bytes_per_sec"@
            &&& previous is Some && previous->0.net.contains_key(name) && readings.net@.contains_key(name) ==> {
                let b = previous->0.net[name];
                let n = readings.net@[name];
                row[5 + 2 * k] == change_rate(Some(b.rx_bytes), Some(n.rx_bytes), nanos) && row[6 + 2 * k] == change_rate(
                    Some(b.tx_bytes),
                    Some(n.tx_bytes),
                    nanos,
                )
            }
            &&& previous is None || !previous->0.net.contains_key(name) || !readings.net@.contains_key(name) ==> row[5 + 2
                * k] is Gap && row[6 + 2 * k] is Gap
        }),
{
    crate::metrics::lemma_rates(interfaces);
    lemma_rate_samples(interfaces, previous, readings.net@, nanos);
    let rates = rate_samples(interfaces, previous, readings.net@, nanos);
    let row = row_for(interfaces, previous, readings, nanos);
    let name = interfaces[k];
    assert(row[5 + 2 * k] == rates[2 * k] && row[6 + 2 * k] == rates[2 * k + 1]);
    let metrics = metrics_for(interfaces);
    assert(metrics[5 + 2 * k] == crate::metrics::rates(interfaces)[2 * k]);
    assert(metrics[6 + 2 * k] == crate::metrics::rates(interfaces)[2 * k + 1]);
}

}
