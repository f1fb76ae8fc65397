//! Turning the daemon's responses into text for a person.
use vstd::prelude::*;

use crate::calendar::{iso, iso_text};
use crate::json::{
    field_trees, item_trees, json_text, lemma_array_and_object, lemma_neat, lemma_neat_field, neat,
    decimals, number_to_decimals, Json, Tree,
};
use crate::protocol::written;
use crate::table::{rows_view, table, table_text};
use crate::text::{
    chars_of, decimal, decimal_of, space_padded, text_of, texts, trim_end_of, with_spaces, without_end, Class,
};

verus! {

/// The most decimals that a metric value is shown with.
pub const DECIMALS: usize = 3;

/// A metric value: up to three decimals with no trailing zeros, or `-` for a
/// gap.
pub open spec fn figure(tree: Tree) -> Seq<char> {
    match tree {
        Tree::Number(text) => trim_end_of(
            trim_end_of(decimals(text, DECIMALS as nat), Class::Only('0')),
            Class::Only('.'),
        ),
        _ => "-"@,
    }
}

/// A metric value: up to three decimals with no trailing zeros, or `-` for a
/// gap.
#[must_use]
pub fn number(value: &Json) -> (r: String)
    ensures
        r@ == figure(value.tree()),
{
    match value {
        Json::Number(n) => {
            let chars = chars_of(&number_to_decimals(n, DECIMALS));
            text_of(without_end(without_end(&chars, Class::Only('0')), Class::Only('.')))
        },
        _ => "-".to_owned(),
    }
}

/// A value as plain text: a string as it is, anything else as JSON.
pub open spec fn plain_text(tree: Tree) -> Seq<char> {
    match tree {
        Tree::Text(text) => text,
        other => json_text(other),
    }
}

/// A value as plain text: a string as it is, anything else as JSON.
fn plain(value: &Json) -> (r: String)
    requires
        neat(value.tree()),
    ensures
        r@ == plain_text(value.tree()),
{
    match value {
        Json::Text(text) => text.clone(),
        other => {
            proof {
                lemma_neat(value.tree());
            }
            written(other.duplicate())
        },
    }
}

/// A line for each of `keys` that `tree` has a field for.
pub open spec fn key_lines(tree: Tree, keys: Seq<Seq<char>>) -> Seq<char>
    decreases keys.len(),
{
    if keys.len() == 0 {
        seq![]
    } else {
        key_lines(tree, keys.drop_last()) + (match tree.field(keys.last()) {
            Some(value) => space_padded(keys.last(), 12) + " "@ + plain_text(value) + "\n"@,
            None => seq![],
        })
    }
}

/// The facts about a collector that are shown, in order.
pub open spec fn info_keys() -> Seq<Seq<char>> {
    seq!["version"@, "interval_ms"@, "capacity"@, "len"@, "metrics"@]
}

/// Adds the line for `key`, if there is a field for it.
fn add_key_line(text: &mut String, response: &Json, key: &str)
    requires
        neat(response.tree()),
    ensures
        forall|keys: Seq<Seq<char>>|
            old(text)@ == #[trigger] key_lines(response.tree(), keys) ==> final(text)@ == key_lines(
                response.tree(),
                keys.push(key@),
            ),
{
    let ghost before = text@;
    proof {
        lemma_array_and_object(*response);
        if let Tree::Object(fields) = response.tree() {
            lemma_neat_field(fields, key@);
        }
        assert forall|keys: Seq<Seq<char>>| before == #[trigger] key_lines(response.tree(), keys) implies (before + (
        match response.tree().field(key@) {
            Some(value) => space_padded(key@, 12) + " "@ + plain_text(value) + "\n"@,
            None => seq![],
        })) == key_lines(response.tree(), keys.push(key@)) by {
            assert(keys.push(key@).drop_last() =~= keys);
        }
    }
    if let Some(value) = response.get(key) {
        text.append(&with_spaces(key, 12));
        text.append(" ");
        text.append(&plain(value));
        text.append("\n");
        assert(text@ =~= before + (space_padded(key@, 12) + " "@ + plain_text(value.tree()) + "\n"@));
    } else {
        assert(text@ =~= before + Seq::<char>::empty());
    }
}

/// What the daemon holds, as lines of a name and a value.
#[must_use]
pub fn render_info(response: &Json) -> (text: String)
    requires
        neat(response.tree()),
    ensures
        text@ == key_lines(response.tree(), info_keys()),
{
    let mut text = String::new();
    let ghost none: Seq<Seq<char>> = seq![];
    assert(text@ =~= key_lines(response.tree(), none));
    add_key_line(&mut text, response, "version");
    add_key_line(&mut text, response, "interval_ms");
    add_key_line(&mut text, response, "capacity");
    add_key_line(&mut text, response, "len");
    add_key_line(&mut text, response, "metrics");
    assert(none.push("version"@).push("interval_ms"@).push("capacity"@).push("len"@).push("metrics"@) =~= info_keys());
    text
}

/// The string in the field called `key`, or nothing.
pub open spec fn string_at(tree: Tree, key: Seq<char>) -> Seq<char> {
    match tree.at(key).string() {
        Some(text) => text,
        None => ""@,
    }
}

/// A row for each metric: its name, unit and label.
pub open spec fn metric_rows(tree: Tree) -> Seq<Seq<Seq<char>>> {
    match tree.at("metrics"@) {
        Tree::Array(items) => items.map_values(
            |m: Tree| seq![string_at(m, "name"@), string_at(m, "unit"@), string_at(m, "label"@)],
        ),
        _ => seq![],
    }
}

/// The list of metrics as a table.
pub open spec fn metrics_text(tree: Tree) -> Seq<char> {
    table_text(seq!["name"@, "unit"@, "label"@], metric_rows(tree))
}

/// The string in the field called `key`, or nothing.
fn text_at(value: &Json, key: &str) -> (r: String)
    ensures
        r@ == string_at(value.tree(), key@),
{
    match value.get(key) {
        None => "".to_owned(),
        Some(inner) => match inner.as_text() {
            None => "".to_owned(),
            Some(text) => text.to_owned(),
        },
    }
}

/// The list of metrics as a table.
#[must_use]
pub fn render_metrics(response: &Json) -> (text: String)
    ensures
        text@ == metrics_text(response.tree()),
{
    let mut rows: Vec<Vec<String>> = Vec::new();
    if let Some(list) = response.get("metrics") {
        proof {
            lemma_array_and_object(*list);
        }
        if let Json::Array(items) = list {
            for i in 0..items.len()
                invariant
                    rows@.len() == i,
                    forall|j: int|
                        0 <= j < i ==> texts((#[trigger] rows@[j])@) == seq![
                            string_at(items@[j].tree(), "name"@),
                            string_at(items@[j].tree(), "unit"@),
                            string_at(items@[j].tree(), "label"@),
                        ],
            {
                let m = &items[i];
                let row = vec![text_at(m, "name"), text_at(m, "unit"), text_at(m, "label")];
                assert(texts(row@) =~= seq![
                    string_at(m.tree(), "name"@),
                    string_at(m.tree(), "unit"@),
                    string_at(m.tree(), "label"@),
                ]);
                rows.push(row);
            }
        }
    }
    assert(rows_view(rows@) =~= metric_rows(response.tree()));
    let header = vec!["name".to_owned(), "unit".to_owned(), "label".to_owned()];
    assert(texts(header@) =~= seq!["name"@, "unit"@, "label"@]);
    table(&header, &rows)
}

/// A row for each value: the metric's name and the value.
pub open spec fn value_rows(tree: Tree) -> Seq<Seq<Seq<char>>> {
    match tree.at("values"@) {
        Tree::Object(fields) => fields.map_values(|f: (Seq<char>, Tree)| seq![f.0, figure(f.1)]),
        _ => seq![],
    }
}

/// The most recent record: when it was taken, and a table of its values.
pub open spec fn latest_text(tree: Tree) -> Seq<char> {
    match tree.at("timestamp"@).count() {
        None => "nothing has been recorded yet"@,
        Some(ms) => "at "@ + iso_text(ms as u64) + "\n"@ + table_text(seq!["metric"@, "value"@], value_rows(tree)),
    }
}

/// The whole number in the field called `key`, if it holds one.
fn count_at(value: &Json, key: &str) -> (r: Option<u64>)
    ensures
        match r {
            Some(n) => value.tree().at(key@).count() == Some(n as nat),
            None => value.tree().at(key@).count() is None,
        },
{
    match value.get(key) {
        None => None,
        Some(inner) => inner.as_count(),
    }
}

/// The most recent record: when it was taken, and a table of its values.
#[must_use]
pub fn render_latest(response: &Json) -> (text: String)
    ensures
        text@ == latest_text(response.tree()),
{
    let timestamp: u64 = match count_at(response, "timestamp") {
        None => {
            return "nothing has been recorded yet".to_owned();
        },
        Some(timestamp) => timestamp,
    };
    let mut rows: Vec<Vec<String>> = Vec::new();
    if let Some(values) = response.get("values") {
        proof {
            lemma_array_and_object(*values);
        }
        if let Json::Object(fields) = values {
            for i in 0..fields.len()
                invariant
                    rows@.len() == i,
                    forall|j: int|
                        0 <= j < i ==> texts((#[trigger] rows@[j])@) == seq![fields@[j].0@, figure(fields@[j].1.tree())],
            {
                let row = vec![fields[i].0.clone(), number(&fields[i].1)];
                assert(texts(row@) =~= seq![fields@[i as int].0@, figure(fields@[i as int].1.tree())]);
                rows.push(row);
            }
        }
    }
    assert(rows_view(rows@) =~= value_rows(response.tree()));
    let header = vec!["metric".to_owned(), "value".to_owned()];
    assert(texts(header@) =~= seq!["metric"@, "value"@]);
    "at ".to_owned().concat(&iso(timestamp)).concat("\n").concat(&table(&header, &rows))
}

/// The column for the least or the greatest values of a metric, if there is one.
pub open spec fn extra_column(tree: Tree, kind: Seq<char>, name: Seq<char>) -> Seq<(Seq<char>, Tree)> {
    match tree.field(kind) {
        None => seq![],
        Some(columns) => match columns.field(name) {
            None => seq![],
            Some(values) => seq![(name + " ("@ + kind + ")"@, values)],
        },
    }
}

/// The columns of recorded history: for each metric one, or three (the mean, the
/// least and the greatest values).
pub open spec fn columns(tree: Tree, series: Seq<(Seq<char>, Tree)>) -> Seq<(Seq<char>, Tree)>
    decreases series.len(),
{
    if series.len() == 0 {
        seq![]
    } else {
        let name = series.last().0;
        columns(tree, series.drop_last()).push(series.last()) + extra_column(tree, "min"@, name) + extra_column(
            tree,
            "max"@,
            name,
        )
    }
}

/// A time, or a question mark if it isn't one.
pub open spec fn time_text(tree: Tree) -> Seq<char> {
    match tree.count() {
        Some(ms) => iso_text(ms as u64),
        None => "?"@,
    }
}

/// The times of recorded history.
pub open spec fn times_of(tree: Tree) -> Seq<Tree> {
    match tree.at("timestamps"@) {
        Tree::Array(items) => items,
        _ => seq![],
    }
}

/// The row for the time at position `i`.
pub open spec fn history_row(time: Tree, columns: Seq<(Seq<char>, Tree)>, i: int) -> Seq<Seq<char>> {
    seq![time_text(time)] + columns.map_values(|c: (Seq<char>, Tree)| figure(c.1.nth(i)))
}

/// A row for each time.
pub open spec fn history_rows(times: Seq<Tree>, columns: Seq<(Seq<char>, Tree)>) -> Seq<Seq<Seq<char>>> {
    Seq::new(times.len(), |i: int| history_row(times[i], columns, i))
}

/// The names of the columns.
pub open spec fn history_header(columns: Seq<(Seq<char>, Tree)>) -> Seq<Seq<char>> {
    seq!["time"@] + columns.map_values(|c: (Seq<char>, Tree)| c.0)
}

/// How many rows there are, and how wide the buckets, if it is a summary.
pub open spec fn history_footer(tree: Tree, rows: nat) -> Seq<char> {
    match tree.at("step_ms"@).count() {
        Some(step) => "\n"@ + decimal(rows) + " rows, "@ + decimal(step) + " ms per bucket\n"@,
        None => "\n"@ + decimal(rows) + " rows\n"@,
    }
}

/// Recorded history as a table with a row for each time.
pub open spec fn history_text(tree: Tree) -> Seq<char> {
    match tree.at("series"@) {
        Tree::Object(series) => {
            let all = columns(tree, series);
            let times = times_of(tree);
            table_text(history_header(all), history_rows(times, all)) + history_footer(tree, times.len())
        },
        _ => ""@,
    }
}

/// What columns say.
pub open spec fn columns_view(columns: Seq<(String, &Json)>) -> Seq<(Seq<char>, Tree)> {
    columns.map_values(|c: (String, &Json)| (c.0@, c.1.tree()))
}

/// Adds the column for the least or the greatest values of a metric, if there is
/// one.
fn add_extra<'a>(columns: &mut Vec<(String, &'a Json)>, response: &'a Json, kind: &str, name: &str)
    ensures
        columns_view(final(columns)@) == columns_view(old(columns)@) + extra_column(response.tree(), kind@, name@),
{
    if let Some(all) = response.get(kind) {
        if let Some(values) = all.get(name) {
            columns.push((name.to_owned().concat(" (").concat(kind).concat(")"), values));
            assert(columns_view(columns@) =~= columns_view(old(columns)@) + extra_column(
                response.tree(),
                kind@,
                name@,
            ));
            return ;
        }
    }
    assert(columns_view(columns@) =~= columns_view(old(columns)@) + extra_column(response.tree(), kind@, name@));
}

/// The columns of recorded history.
fn columns_of<'a>(response: &'a Json, series: &'a Vec<(String, Json)>) -> (r: Vec<(String, &'a Json)>)
    ensures
        columns_view(r@) == columns(response.tree(), field_trees(series@)),
{
    let mut r: Vec<(String, &'a Json)> = Vec::new();
    let ghost all = field_trees(series@);
    assert(columns_view(r@) =~= columns(response.tree(), all.take(0)));
    for k in 0..series.len()
        invariant
            all == field_trees(series@),
            columns_view(r@) == columns(response.tree(), all.take(k as int)),
    {
        let ghost before = columns_view(r@);
        assert(all.take(k + 1).drop_last() =~= all.take(k as int));
        assert(all.take(k + 1).last() == (series@[k as int].0@, series@[k as int].1.tree()));
        r.push((series[k].0.clone(), &series[k].1));
        assert(columns_view(r@) =~= before.push(all[k as int]));
        add_extra(&mut r, response, "min", &series[k].0);
        add_extra(&mut r, response, "max", &series[k].0);
    }
    assert(all.take(series@.len() as int) =~= all);
    r
}

/// The value at position `i` of a column.
fn number_at(values: &Json, i: usize) -> (r: String)
    ensures
        r@ == figure(values.tree().nth(i as int)),
{
    match values.item(i) {
        Some(value) => number(value),
        None => "-".to_owned(),
    }
}

/// The row for the time at position `i`.
fn row_of(time: &Json, columns: &Vec<(String, &Json)>, i: usize) -> (r: Vec<String>)
    ensures
        texts(r@) == history_row(time.tree(), columns_view(columns@), i as int),
{
    let first = match time.as_count() {
        Some(ms) => iso(ms),
        None => "?".to_owned(),
    };
    let mut r: Vec<String> = vec![first];
    for k in 0..columns.len()
        invariant
            r@.len() == k + 1,
            r@[0]@ == time_text(time.tree()),
            forall|j: int| 0 < j <= k ==> (#[trigger] r@[j])@ == figure(columns@[j - 1].1.tree().nth(i as int)),
    {
        r.push(number_at(columns[k].1, i));
    }
    assert(texts(r@) =~= history_row(time.tree(), columns_view(columns@), i as int));
    r
}

/// The names of the columns.
fn header_of(columns: &Vec<(String, &Json)>) -> (r: Vec<String>)
    ensures
        texts(r@) == history_header(columns_view(columns@)),
{
    let mut r: Vec<String> = vec!["time".to_owned()];
    for k in 0..columns.len()
        invariant
            r@.len() == k + 1,
            r@[0]@ == "time"@,
            forall|j: int| 0 < j <= k ==> (#[trigger] r@[j])@ == columns@[j - 1].0@,
    {
        r.push(columns[k].0.clone());
    }
    assert(texts(r@) =~= history_header(columns_view(columns@)));
    r
}

/// Recorded history as a table with a row for each time.
#[must_use]
pub fn render_read(response: &Json) -> (text: String)
    ensures
        text@ == history_text(response.tree()),
{
    let ghost tree = response.tree();
    let holder = match response.get("series") {
        Some(holder) => holder,
        None => {
            return "".to_owned();
        },
    };
    proof {
        lemma_array_and_object(*holder);
    }
    let series = match holder {
        Json::Object(series) => series,
        _ => {
            return "".to_owned();
        },
    };
    let all = columns_of(response, series);
    let mut rows: Vec<Vec<String>> = Vec::new();
    let ghost times = times_of(tree);
    let ghost shown = columns_view(all@);
    if let Some(list) = response.get("timestamps") {
        proof {
            lemma_array_and_object(*list);
        }
        if let Json::Array(items) = list {
            for i in 0..items.len()
                invariant
                    times == item_trees(items@),
                    shown == columns_view(all@),
                    rows@.len() == i,
                    forall|j: int| 0 <= j < i ==> texts((#[trigger] rows@[j])@) == history_row(times[j], shown, j),
            {
                assert(times[i as int] == items@[i as int].tree());
                rows.push(row_of(&items[i], &all, i));
            }
        }
    }
    assert(rows_view(rows@) =~= history_rows(times, shown));
    let mut text = table(&header_of(&all), &rows);
    text.append("\n");
    text.append(&decimal_of(rows.len() as u64));
    match count_at(response, "step_ms") {
        Some(step) => {
            text.append(" rows, ");
            text.append(&decimal_of(step));
            text.append(" ms per bucket\n");
        },
        None => {
            text.append(" rows\n");
        },
    }
    assert(text@ =~= history_text(tree));
    text
}

/// A value that is no number is shown as a dash. A number is shown with three
/// decimals, but for the zeros they end in, and the point if nothing is left after
/// it.
pub proof fn law_how_a_value_is_shown(tree: Tree, text: Seq<char>) -> (end: (nat, nat))
    ensures
        !(tree is Number) ==> figure(tree) == "-"@,
        ({
            let all = decimals(text, 3);
            let shown = figure(Tree::Number(text));
            let n = shown.len();
            &&& all.len() == n + end.0 + end.1
            &&& shown == all.take(n as int)
            &&& forall|i: int| n <= i < n + end.0 ==> #[trigger] all[i] == '.'
            &&& forall|i: int| n + end.0 <= i < all.len() ==> #[trigger] all[i] == '0'
            &&& n > 0 ==> shown.last() != '.'
            &&& n > 0 && end.0 == 0 ==> shown.last() != '0'
        }),
{
    let all = decimals(text, 3);
    let fewer = trim_end_of(all, Class::Only('0'));
    lemma_trimmed(all, Class::Only('0'));
    lemma_trimmed(fewer, Class::Only('.'));
    let shown = figure(Tree::Number(text));
    assert(shown =~= all.take(shown.len() as int));
    assert forall|i: int| shown.len() <= i < fewer.len() implies #[trigger] all[i] == '.' by {
        assert(fewer[i] == all[i]);
    }
    ((fewer.len() - shown.len()) as nat, (all.len() - fewer.len()) as nat)
}

/// Trimming leaves the start of a text, and takes off characters of the class.
proof fn lemma_trimmed(s: Seq<char>, class: Class)
    ensures
        trim_end_of(s, class).len() <= s.len(),
        trim_end_of(s, class) == s.take(trim_end_of(s, class).len() as int),
        forall|i: int| trim_end_of(s, class).len() <= i < s.len() ==> class.has(#[trigger] s[i]),
        trim_end_of(s, class).len() > 0 ==> !class.has(trim_end_of(s, class).last()),
    decreases s.len(),
{
    if s.len() > 0 && class.has(s.last()) {
        let shorter = s.drop_last();
        lemma_trimmed(shorter, class);
        let n = trim_end_of(s, class).len() as int;
        assert(s.take(n) =~= shorter.take(n));
        assert forall|i: int| n <= i < s.len() implies class.has(#[trigger] s[i]) by {
            if i < shorter.len() {
                assert(shorter[i] == s[i]);
            }
        }
    } else {
        assert(s.take(s.len() as int) =~= s);
    }
}

/// Every metric of a history has a column of its own, with its name and its own
/// values, in the order of the metrics. Right after it come the least and the
/// greatest values of the same metric, where they are given, and no other column is
/// there. The answer says where each metric's column is, and where the last ends.
pub proof fn law_every_metric_has_its_column(tree: Tree, series: Seq<(Seq<char>, Tree)>) -> (at: Seq<int>)
    ensures
        at.len() == series.len() + 1,
        at[0] == 0,
        at.last() == columns(tree, series).len(),
        forall|j: int| #![trigger series[j]]
            0 <= j < series.len() ==> {
                let all = columns(tree, series);
                let low = tree.at("min"@).field(series[j].0);
                let high = tree.at("max"@).field(series[j].0);
                let more = if low is Some {
                    1int
                } else {
                    0
                };
                &&& 0 <= at[j] < at[j + 1] <= all.len()
                &&& all[at[j]] == series[j]
                &&& low is Some ==> all[at[j] + 1] == (series[j].0 + " (min)"@, low->0)
                &&& high is Some ==> all[at[j] + 1 + more] == (series[j].0 + " (max)"@, high->0)
                &&& at[j + 1] == at[j] + 1 + more + (if high is Some {
                    1int
                } else {
                    0
                })
            },
    decreases series.len(),
{
    if series.len() == 0 {
        seq![0]
    } else {
        let before = series.drop_last();
        let n = series.len() - 1;
        let at = law_every_metric_has_its_column(tree, before);
        let name = series[n].0;
        let all = columns(tree, series);
        let earlier = columns(tree, before);
        reveal_strlit(" (");
        reveal_strlit(")");
        reveal_strlit("min");
        reveal_strlit("max");
        reveal_strlit(" (min)");
        reveal_strlit(" (max)");
        assert(name + " ("@ + "min"@ + ")"@ =~= name + " (min)"@);
        assert(name + " ("@ + "max"@ + ")"@ =~= name + " (max)"@);
        assert(all =~= earlier.push(series[n]) + (extra_column(tree, "min"@, name) + extra_column(tree, "max"@, name)));
        let r = at.push(all.len() as int);
        assert forall|j: int| #![trigger series[j]] 0 <= j < series.len() implies {
            let low = tree.at("min"@).field(series[j].0);
            let high = tree.at("max"@).field(series[j].0);
            let more = if low is Some {
                1int
            } else {
                0
            };
            &&& 0 <= r[j] < r[j + 1] <= all.len()
            &&& all[r[j]] == series[j]
            &&& low is Some ==> all[r[j] + 1] == (series[j].0 + " (min)"@, low->0)
            &&& high is Some ==> all[r[j] + 1 + more] == (series[j].0 + " (max)"@, high->0)
            &&& r[j + 1] == r[j] + 1 + more + (if high is Some {
                1int
            } else {
                0
            })
        } by {
            if j < n {
                assert(before[j] == series[j]);
                assert(r[j] == at[j] && r[j + 1] == at[j + 1]);
            } else {
                assert(r[n] == earlier.len());
            }
        }
        r
    }
}

/// Recorded history is shown as a table with a row for each time and a column for
/// each metric, and in it the value of each metric at each time. The answer says
/// what the table is, and in which column each metric is.
pub proof fn law_history_is_shown(tree: Tree, series: Seq<(Seq<char>, Tree)>, times: Seq<Tree>) -> (shown: (
    Seq<Seq<char>>,
    Seq<Seq<Seq<char>>>,
    Seq<int>,
))
    requires
        tree.at("series"@) == Tree::Object(series),
        tree.at("timestamps"@) == Tree::Array(times),
    ensures
        ({
            let (header, rows, at) = shown;
            &&& tree.at("step_ms"@).count() is None ==> history_text(tree) == table_text(header, rows) + ("\n"@ + decimal(
                times.len(),
            ) + " rows\n"@)
            &&& tree.at("step_ms"@).count() matches Some(step) ==> history_text(tree) == table_text(header, rows) + (
            "\n"@ + decimal(times.len()) + " rows, "@ + decimal(step) + " ms per bucket\n"@)
            &&& header.len() > 0 && header[0] == "time"@
            &&& rows.len() == times.len()
            &&& forall|i: int|
                0 <= i < times.len() ==> {
                    &&& (#[trigger] rows[i]).len() == header.len()
                    &&& times[i].count() is None ==> rows[i][0] == "?"@
                    &&& times[i].count() matches Some(ms) ==> rows[i][0] == iso_text(ms as u64)
                }
            &&& at.len() == series.len()
            &&& forall|j: int|
                0 <= j < series.len() ==> {
                    &&& 0 < #[trigger] at[j] < header.len()
                    &&& header[at[j]] == series[j].0
                    &&& forall|i: int| #![trigger rows[i]]
                        0 <= i < times.len() ==> rows[i][at[j]] == figure(series[j].1.nth(i))
                }
            &&& forall|j: int, k: int| 0 <= j < k < series.len() ==> #[trigger] at[j] < #[trigger] at[k]
        }),
{
    let starts = law_every_metric_has_its_column(tree, series);
    let all = columns(tree, series);
    let header = history_header(all);
    let rows = history_rows(times, all);
    let at = Seq::new(series.len(), |j: int| starts[j] + 1);
    assert forall|i: int| 0 <= i < times.len() implies {
        &&& (#[trigger] rows[i]).len() == header.len()
        &&& times[i].count() is None ==> rows[i][0] == "?"@
        &&& times[i].count() matches Some(ms) ==> rows[i][0] == iso_text(ms as u64)
    } by {
        assert(rows[i] == history_row(times[i], all, i));
        assert(rows[i][0] == time_text(times[i]));
    }
    assert forall|j: int| 0 <= j < series.len() implies {
        &&& 0 < #[trigger] at[j] < header.len()
        &&& header[at[j]] == series[j].0
        &&& forall|i: int| #![trigger rows[i]] 0 <= i < times.len() ==> rows[i][at[j]] == figure(series[j].1.nth(i))
    } by {
        assert(all[starts[j]] == series[j]);
        assert(header[at[j]] == all[starts[j]].0);
        assert forall|i: int| #![trigger rows[i]] 0 <= i < times.len() implies rows[i][at[j]] == figure(
            series[j].1.nth(i),
        ) by {
            assert(rows[i] == history_row(times[i], all, i));
            assert(rows[i][at[j]] == figure(all[starts[j]].1.nth(i)));
        }
    }
    assert forall|j: int| 0 <= j < starts.len() - 1 implies #[trigger] starts[j] < starts[j + 1] by {
        let metric = series[j];
    }
    assert forall|j: int, k: int| 0 <= j < k < series.len() implies #[trigger] at[j] < #[trigger] at[k] by {
        lemma_columns_in_order(starts, j, k);
    }
    (header, rows, at)
}

proof fn lemma_columns_in_order(starts: Seq<int>, j: int, k: int)
    requires
        0 <= j < k < starts.len(),
        forall|j: int| 0 <= j < starts.len() - 1 ==> #[trigger] starts[j] < starts[j + 1],
    ensures
        starts[j] < starts[k],
    decreases k - j,
{
    assert(starts[k - 1] < starts[k - 1 + 1]);
    if j < k - 1 {
        lemma_columns_in_order(starts, j, k - 1);
    }
}

/// The newest record is shown with its time and a row for each metric: its name, and
/// its own value.
pub proof fn law_the_newest_record_is_shown(tree: Tree, fields: Seq<(Seq<char>, Tree)>, ms: u64) -> (rows: Seq<
    Seq<Seq<char>>,
>)
    requires
        tree.at("values"@) == Tree::Object(fields),
    ensures
        tree.at("timestamp"@).count() is None ==> latest_text(tree) == "nothing has been recorded yet"@,
        tree.at("timestamp"@).count() == Some(ms as nat) ==> latest_text(tree) == "at "@ + iso_text(ms) + "\n"@ + table_text(
            seq!["metric"@, "value"@],
            rows,
        ),
        rows.len() == fields.len(),
        forall|i: int| 0 <= i < fields.len() ==> #[trigger] rows[i] == seq![fields[i].0, figure(fields[i].1)],
{
    value_rows(tree)
}

/// The list of metrics is shown with a row for each: its name, its unit and its
/// label.
pub proof fn law_metrics_are_shown(tree: Tree, items: Seq<Tree>) -> (rows: Seq<Seq<Seq<char>>>)
    requires
        tree.at("metrics"@) == Tree::Array(items),
    ensures
        metrics_text(tree) == table_text(seq!["name"@, "unit"@, "label"@], rows),
        rows.len() == items.len(),
        forall|i: int| 0 <= i < items.len() ==> (#[trigger] rows[i]).len() == 3,
        forall|i: int|
            0 <= i < items.len() && items[i].at("name"@) is Text ==> (#[trigger] rows[i])[0] == items[i].at("name"@)->Text_0,
        forall|i: int|
            0 <= i < items.len() && items[i].at("unit"@) is Text ==> (#[trigger] rows[i])[1] == items[i].at("unit"@)->Text_0,
        forall|i: int|
            0 <= i < items.len() && items[i].at("label"@) is Text ==> (#[trigger] rows[i])[2] == items[i].at(
                "label"@,
            )->Text_0,
{
    metric_rows(tree)
}

/// What the daemon holds is shown a line for each fact: its name, padded to twelve
/// places, a space and its value. Facts that aren't given are left out.
pub proof fn law_facts_are_shown(tree: Tree)
    ensures
        key_lines(tree, info_keys()) == fact(tree, "version"@) + fact(tree, "interval_ms"@) + fact(tree, "capacity"@) + fact(
            tree,
            "len"@,
        ) + fact(tree, "metrics"@),
        forall|key: Seq<char>|
            tree.field(key) is Some ==> #[trigger] fact(tree, key) == space_padded(key, 12) + " "@ + (match tree.at(key) {
                Tree::Text(text) => text,
                other => json_text(other),
            }) + "\n"@,
        forall|key: Seq<char>| tree.field(key) is None ==> (#[trigger] fact(tree, key)).len() == 0,
{
    let keys = info_keys();
    assert(keys.drop_last() =~= keys.take(4));
    assert(keys.take(4).drop_last() =~= keys.take(3));
    assert(keys.take(3).drop_last() =~= keys.take(2));
    assert(keys.take(2).drop_last() =~= keys.take(1));
    assert(keys.take(1).drop_last() =~= keys.take(0));
    reveal_with_fuel(key_lines, 7);
    assert(key_lines(tree, keys.take(0)) =~= Seq::<char>::empty());
    assert(key_lines(tree, keys.take(1)) =~= fact(tree, "version"@));
    assert(key_lines(tree, keys.take(2)) =~= fact(tree, "version"@) + fact(tree, "interval_ms"@));
    assert(key_lines(tree, keys.take(3)) =~= fact(tree, "version"@) + fact(tree, "interval_ms"@) + fact(
        tree,
        "capacity"@,
    ));
    assert(key_lines(tree, keys.take(4)) =~= fact(tree, "version"@) + fact(tree, "interval_ms"@) + fact(
        tree,
        "capacity"@,
    ) + fact(tree, "len"@));
}

/// The line for one fact, if it is given.
pub open spec fn fact(tree: Tree, key: Seq<char>) -> Seq<char> {
    match tree.field(key) {
        Some(value) => space_padded(key, 12) + " "@ + plain_text(value) + "\n"@,
        None => seq![],
    }
}

/// Under the name of every column, that of a mean or an extreme alike, stand the
/// column's own values, each in the row of its time.
pub proof fn law_every_column_shows_its_values(columns: Seq<(Seq<char>, Tree)>, times: Seq<Tree>, p: int, i: int)
    requires
        0 <= p < columns.len(),
        0 <= i < times.len(),
    ensures
        history_header(columns).len() == columns.len() + 1,
        history_header(columns)[p + 1] == columns[p].0,
        history_rows(times, columns).len() == times.len(),
        history_rows(times, columns)[i].len() == columns.len() + 1,
        history_rows(times, columns)[i][p + 1] == figure(columns[p].1.nth(i)),
{
}

/// What a response leaves out isn't shown: without series there is no history,
/// without times no row of it, and without a list no metric or value.
pub proof fn law_what_is_missing_is_not_shown(tree: Tree, ms: u64)
    ensures
        !(tree.at("series"@) is Object) ==> history_text(tree).len() == 0,
        !(tree.at("timestamps"@) is Array) ==> times_of(tree).len() == 0,
        !(tree.at("metrics"@) is Array) ==> metrics_text(tree) == table_text(
            seq!["name"@, "unit"@, "label"@],
            Seq::<Seq<Seq<char>>>::empty(),
        ),
        tree.at("timestamp"@).count() == Some(ms as nat) && !(tree.at("values"@) is Object) ==> latest_text(tree) == "at "@
            + iso_text(ms) + "\n"@ + table_text(seq!["metric"@, "value"@], Seq::<Seq<Seq<char>>>::empty()),
{
    reveal_strlit("");
    assert(metric_rows(tree).len() == 0 ==> metric_rows(tree) =~= Seq::<Seq<Seq<char>>>::empty());
    assert(value_rows(tree).len() == 0 ==> value_rows(tree) =~= Seq::<Seq<Seq<char>>>::empty());
}

}
