//! What is measured: the fixed set of variables every record contains.
use vstd::prelude::*;

use crate::text::{chars_of, texts};

verus! {

/// One measured variable.
#[derive(Debug, Clone, PartialEq, Eq)]
pub struct Metric {
    /// A stable identifier, used in the socket protocol (`cpu_percent`).
    pub name: String,
    /// A short human-readable name for a chart (`CPU`).
    pub label: String,
    /// What the values are measured in (`%`, `bytes`, `bytes/s`, `°C`, or an
    /// empty string for a plain number).
    pub unit: &'static str,
}

/// What a [`Metric`] says.
pub ghost struct MetricText {
    /// The identifier.
    pub name: Seq<char>,
    /// The name for a chart.
    pub label: Seq<char>,
    /// The unit.
    pub unit: Seq<char>,
}

impl View for Metric {
    type V = MetricText;

    open spec fn view(&self) -> MetricText {
        MetricText { name: self.name@, label: self.label@, unit: self.unit@ }
    }
}

/// The ordered list of metrics in every record. A record's values are in this
/// order, so an index into the schema is an index into a record.
#[derive(Debug, Clone, PartialEq, Eq)]
pub struct Schema {
    metrics: Vec<Metric>,
}

/// How many metrics don't depend on the configured interfaces.
pub const FIXED_COUNT: usize = 5;

/// The metrics that don't depend on the configured interfaces, in order.
pub open spec fn fixed() -> Seq<MetricText> {
    seq![
        MetricText { name: "cpu_percent"@, label: "CPU"@, unit: "%"@ },
        MetricText { name: "load1"@, label: "Load (1 min)"@, unit: ""@ },
        MetricText { name: "mem_used_bytes"@, label: "Memory used"@, unit: "bytes"@ },
        MetricText { name: "swap_used_bytes"@, label: "Swap used"@, unit: "bytes"@ },
        MetricText { name: "cpu_temp_celsius"@, label: "CPU temperature"@, unit: "°C"@ },
    ]
}

/// The metric for what an interface receives.
pub open spec fn received(interface: Seq<char>) -> MetricText {
    MetricText {
        name: "net_"@ + interface + "_rx_bytes_per_sec"@,
        label: interface + " received"@,
        unit: "bytes/s"@,
    }
}

/// The metric for what an interface sends.
pub open spec fn sent(interface: Seq<char>) -> MetricText {
    MetricText {
        name: "net_"@ + interface + "_tx_bytes_per_sec"@,
        label: interface + " sent"@,
        unit: "bytes/s"@,
    }
}

/// A receive and a transmit rate for each interface.
pub open spec fn rates(interfaces: Seq<Seq<char>>) -> Seq<MetricText>
    decreases interfaces.len(),
{
    if interfaces.len() == 0 {
        seq![]
    } else {
        rates(interfaces.drop_last()).push(received(interfaces.last())).push(sent(interfaces.last()))
    }
}

/// The metrics for a machine with these interfaces.
pub open spec fn metrics_for(interfaces: Seq<Seq<char>>) -> Seq<MetricText> {
    fixed() + rates(interfaces)
}

/// The rates, interface by interface.
pub proof fn lemma_rates(interfaces: Seq<Seq<char>>)
    ensures
        rates(interfaces).len() == 2 * interfaces.len(),
        forall|k: int|
            0 <= k < interfaces.len() ==> rates(interfaces)[2 * k] == received(#[trigger] interfaces[k])
                && rates(interfaces)[2 * k + 1] == sent(interfaces[k]),
    decreases interfaces.len(),
{
    if interfaces.len() > 0 {
        let before = interfaces.drop_last();
        lemma_rates(before);
        assert forall|k: int| 0 <= k < interfaces.len() implies rates(interfaces)[2 * k] == received(
            #[trigger] interfaces[k],
        ) && rates(interfaces)[2 * k + 1] == sent(interfaces[k]) by {
            if k < before.len() {
                assert(before[k] == interfaces[k]);
            }
        }
    }
}

/// Adds one metric.
fn add(metrics: &mut Vec<Metric>, name: String, label: String, unit: &'static str)
    ensures
        metrics_text(final(metrics)@) == metrics_text(old(metrics)@).push(
            (MetricText { name: name@, label: label@, unit: unit@ }),
        ),
{
    let metric = Metric { name, label, unit };
    metrics.push(metric);
    assert(metrics_text(metrics@) =~= metrics_text(old(metrics)@).push(metric@));
}

/// What several metrics say.
pub open spec fn metrics_text(metrics: Seq<Metric>) -> Seq<MetricText> {
    metrics.map_values(|m: Metric| m@)
}

impl View for Schema {
    type V = Seq<MetricText>;

    /// The metrics, in record order.
    closed spec fn view(&self) -> Seq<MetricText> {
        metrics_text(self.metrics@)
    }
}

impl Schema {
    /// How many values a record holds when there are `interface_count`
    /// interfaces, without building a schema to find out.
    #[must_use]
    pub fn width_for(interface_count: usize) -> (n: usize)
        requires
            FIXED_COUNT + 2 * interface_count <= usize::MAX,
        ensures
            n == FIXED_COUNT + 2 * interface_count,
    {
        FIXED_COUNT + 2 * interface_count
    }

    /// The schema for a machine with these network `interfaces`: the fixed
    /// metrics, then a receive and a transmit rate for each interface.
    #[must_use]
    pub fn new(interfaces: &[String]) -> (schema: Self)
        ensures
            schema@ == metrics_for(texts(interfaces@)),
    {
        let mut metrics: Vec<Metric> = Vec::new();
        self::add(&mut metrics, "cpu_percent".to_owned(), "CPU".to_owned(), "%");
        self::add(&mut metrics, "load1".to_owned(), "Load (1 min)".to_owned(), "");
        self::add(&mut metrics, "mem_used_bytes".to_owned(), "Memory used".to_owned(), "bytes");
        self::add(&mut metrics, "swap_used_bytes".to_owned(), "Swap used".to_owned(), "bytes");
        self::add(&mut metrics, "cpu_temp_celsius".to_owned(), "CPU temperature".to_owned(), "°C");
        let ghost names = texts(interfaces@);
        assert(metrics_text(metrics@) =~= fixed() + rates(names.take(0)));
        for i in 0..interfaces.len()
            invariant
                names == texts(interfaces@),
                metrics_text(metrics@) == fixed() + rates(names.take(i as int)),
        {
            let interface = interfaces[i].as_str();
            let rx_name = "net_".to_owned().concat(interface).concat("_rx_bytes_per_sec");
            let rx_label = interface.to_owned().concat(" received");
            let tx_name = "net_".to_owned().concat(interface).concat("_tx_bytes_per_sec");
            let tx_label = interface.to_owned().concat(" sent");
            self::add(&mut metrics, rx_name, rx_label, "bytes/s");
            self::add(&mut metrics, tx_name, tx_label, "bytes/s");
            proof {
                let longer = names.take(i + 1);
                assert(longer.drop_last() =~= names.take(i as int));
                assert(longer.last() == interface@);
                assert(metrics_text(metrics@) =~= fixed() + rates(longer));
            }
        }
        assert(names.take(interfaces@.len() as int) =~= names);
        Schema { metrics }
    }

    /// All the metrics, in record order.
    #[must_use]
    pub fn metrics(&self) -> (r: &[Metric])
        ensures
            metrics_text(r@) == self@,
    {
        &self.metrics
    }

    /// The same schema again.
    #[must_use]
    pub fn duplicate(&self) -> (schema: Self)
        ensures
            schema@ == self@,
    {
        let mut metrics: Vec<Metric> = Vec::with_capacity(self.metrics.len());
        for i in 0..self.metrics.len()
            invariant
                metrics@.len() == i,
                forall|j: int| 0 <= j < i ==> (#[trigger] metrics@[j])@ == self.metrics@[j]@,
        {
            let m = &self.metrics[i];
            metrics.push(Metric { name: m.name.clone(), label: m.label.clone(), unit: m.unit });
        }
        assert(metrics_text(metrics@) =~= metrics_text(self.metrics@));
        Schema { metrics }
    }

    /// How many values a record holds.
    #[must_use]
    pub fn len(&self) -> (n: usize)
        ensures
            n == self@.len(),
    {
        self.metrics.len()
    }

    /// Whether the schema has no metrics (never true for one from [`Schema::new`]).
    #[must_use]
    pub fn is_empty(&self) -> (r: bool)
        ensures
            r == (self@.len() == 0),
    {
        self.metrics.len() == 0
    }
}

/// A schema has the width that [`Schema::width_for`] says, and is never empty.
pub proof fn law_schema_width(interfaces: Seq<Seq<char>>)
    ensures
        metrics_for(interfaces).len() == FIXED_COUNT + 2 * interfaces.len(),
        metrics_for(interfaces).len() > 0,
{
    lemma_rates(interfaces);
}

/// Metric names are unique where interface names are.
pub proof fn law_metric_names_are_unique(interfaces: Seq<Seq<char>>, i: int, j: int)
    requires
        interfaces.no_duplicates(),
        0 <= i < j < metrics_for(interfaces).len(),
    ensures
        metrics_for(interfaces)[i].name != metrics_for(interfaces)[j].name,
{
    lemma_rates(interfaces);
    reveal_strlit("cpu_percent");
    reveal_strlit("load1");
    reveal_strlit("mem_used_bytes");
    reveal_strlit("swap_used_bytes");
    reveal_strlit("cpu_temp_celsius");
    reveal_strlit("net_");
    reveal_strlit("_rx_bytes_per_sec");
    reveal_strlit("_tx_bytes_per_sec");
    let a = metrics_for(interfaces)[i].name;
    let b = metrics_for(interfaces)[j].name;
    if j < 5 {
        assert(a.len() != b.len());
    } else {
        let y = interfaces[(j - 5) / 2];
        assert(b == received(y).name || b == sent(y).name);
        assert(b[0] == 'n' && b.len() == y.len() + 21);
        if i < 5 {
            assert(a[0] != 'n');
        } else {
            let x = interfaces[(i - 5) / 2];
            assert(a == received(x).name || a == sent(x).name);
            assert(a.len() == x.len() + 21);
            if a == b {
                assert forall|k: int| 0 <= k < x.len() implies x[k] == y[k] by {
                    assert(a[k + 4] == x[k] && b[k + 4] == y[k]);
                }
                assert(x =~= y);
                assert((i - 5) / 2 == (j - 5) / 2);
                assert(a == received(x).name && b == sent(x).name);
                assert(a[x.len() as int + 5] == 'r' && b[x.len() as int + 5] == 't');
            }
        }
    }
}

/// Whether `c` may stand in an interface name.
pub open spec fn is_name_char(c: char) -> bool {
    'a' <= c <= 'z' || 'A' <= c <= 'Z' || '0' <= c <= '9' || c == '-' || c == '_' || c == '.'
}

/// Whether `name` is usable as a network interface name: from one to fifteen
/// letters, digits, hyphens, underscores and full stops.
pub open spec fn valid_interface(name: Seq<char>) -> bool {
    &&& 0 < name.len() <= 15
    &&& forall|i: int| 0 <= i < name.len() ==> is_name_char(#[trigger] name[i])
}

/// Whether `name` is usable as a network interface name here: the characters
/// Linux interface names use in practice, and nothing that could confuse the
/// metric names or the protocol built from them.
#[must_use]
pub fn is_valid_interface(name: &str) -> (r: bool)
    ensures
        r == valid_interface(name@),
{
    let chars = chars_of(name);
    // IFNAMSIZ - 1
    if chars.len() == 0 || chars.len() > 15 {
        return false;
    }
    for i in 0..chars.len()
        invariant
            chars@ == name@,
            forall|j: int| 0 <= j < i ==> is_name_char(#[trigger] name@[j]),
    {
        let c = chars[i];
        if !(('a' <= c && c <= 'z') || ('A' <= c && c <= 'Z') || ('0' <= c && c <= '9') || c == '-' || c == '_'
            || c == '.') {
            assert(!is_name_char(name@[i as int]));
            return false;
        }
    }
    true
}

/// What each metric is called and measured in.
pub proof fn law_metrics_are_named(interfaces: Seq<Seq<char>>, k: int)
    requires
        0 <= k < interfaces.len(),
    ensures
        ({
            let all = metrics_for(interfaces);
            let name = interfaces[k];
            &&& all.len() == 5 + 2 * interfaces.len()
            &&& all[0] == (MetricText { name: "cpu_percent"@, label: "CPU"@, unit: "%"@ })
            &&& all[1] == (MetricText { name: "load1"@, label: "Load (1 min)"@, unit: ""@ })
            &&& all[2] == (MetricText { name: "mem_used_bytes"@, label: "Memory used"@, unit: "bytes"@ })
            &&& all[3] == (MetricText { name: "swap_used_bytes"@, label: "Swap used"@, unit: "bytes"@ })
            &&& all[4] == (MetricText { name: "cpu_temp_celsius"@, label: "CPU temperature"@, unit: "°C"@ })
            &&& all[5 + 2 * k] == (MetricText {
                name: "net_"@ + name + "_rx_bytes_per_sec"@,
                label: name + " received"@,
                unit: "bytes/s"@,
            })
            &&& all[6 + 2 * k] == (MetricText {
                name: "net_"@ + name + "_tx_bytes_per_sec"@,
                label: name + " sent"@,
                unit: "bytes/s"@,
            })
        }),
{
    lemma_rates(interfaces);
    assert(metrics_for(interfaces)[5 + 2 * k] == rates(interfaces)[2 * k]);
    assert(metrics_for(interfaces)[6 + 2 * k] == rates(interfaces)[2 * k + 1]);
}

/// An interface name has from one to fifteen characters, each an ASCII letter or
/// digit, a hyphen, an underscore or a full stop; every such name will do.
pub proof fn law_usable_interface_names(name: Seq<char>)
    ensures
        valid_interface(name) == (1 <= name.len() <= 15 && forall|i: int|
            0 <= i < name.len() ==> {
                let c = (#[trigger] name[i]) as int;
                97 <= c <= 122 || 65 <= c <= 90 || 48 <= c <= 57 || c == 45 || c == 95 || c == 46
            }),
{
    if valid_interface(name) {
        assert forall|i: int| 0 <= i < name.len() implies {
            let c = (#[trigger] name[i]) as int;
            97 <= c <= 122 || 65 <= c <= 90 || 48 <= c <= 57 || c == 45 || c == 95 || c == 46
        } by {
            assert(is_name_char(name[i]));
        }
    } else if 1 <= name.len() <= 15 {
        let i = choose|i: int| 0 <= i < name.len() && !is_name_char(#[trigger] name[i]);
        let c = name[i];
    }
}

}
