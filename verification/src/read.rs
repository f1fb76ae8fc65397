//! What a request for recorded history can ask for, and what it gets.
//!
//! | Field | Meaning |
//! |---|---|
//! | `from`, `to` | only records from the one time to the other, both included |
//! | `metrics` | only these metrics, by name |
//! | `step_ms` | summarise into buckets this wide: the mean of each |
//! | `max_points` | the same, with a width that gives at most so many buckets |
//! | `extremes` | with either, the least and the greatest value of each bucket too |
//!
//! A summarised response has `step_ms`, the width of its buckets, and its
//! `timestamps` say when each bucket starts.
use vstd::prelude::*;
use vstd::slice::slice_subrange;

use crate::downsample::{
    average, averages, buckets, choose_step, gather, greatest, is_greatest, is_least, is_measured,
    law_a_part_has_the_edges_of_the_whole, law_at_most_so_many_points, law_buckets_partition_the_records, least,
    step_for, tiled, Bucket,
};
use crate::json::{lemma_find_skips, Json, Tree};
use crate::metrics::{metrics_text, MetricText, Schema};
use crate::protocol::{
    all_columns, bits_view, columns_for, columns_view, extremes_view, history_line, known, known_of,
    read_line, refuses, responds, shown, told, History, Request,
};
use crate::state::Shared;
use crate::store::{
    column, in_time_order, lemma_within_everything, lemma_within_len, lemma_within_order, times, within, Record, Snapshot,
};
use crate::text::{chars_of, decimal, decimal_of, first_of, lemma_mentions, mentions, one_line, same, text_of, texts};

verus! {

/// The most points a summary can be asked for.
pub const MAX_POINTS: u64 = 10_000;

/// How closely history is told.
#[derive(Debug, Clone, Copy, PartialEq, Eq)]
pub enum Detail {
    /// Every record.
    Every,
    /// One point for each stretch of so many milliseconds.
    Step(u64),
    /// At most so many points.
    Points(u64),
}

/// What a request for recorded history asks for.
#[derive(Debug, Clone, PartialEq, Eq)]
pub struct ReadOptions {
    /// The earliest time wanted.
    pub from: u64,
    /// The latest time wanted.
    pub to: u64,
    /// The metrics wanted, or all of them.
    pub metrics: Option<Vec<String>>,
    /// How closely.
    pub detail: Detail,
    /// Whether the least and greatest values are wanted too.
    pub extremes: bool,
}

/// What [`ReadOptions`] say.
#[verifier::ext_equal]
pub ghost struct Wanted {
    /// The earliest time wanted.
    pub from: u64,
    /// The latest time wanted.
    pub to: u64,
    /// The metrics wanted, or all of them.
    pub metrics: Option<Seq<Seq<char>>>,
    /// How closely.
    pub detail: Detail,
    /// Whether the least and greatest values are wanted too.
    pub extremes: bool,
}

/// What a list of names, if there is one, says.
pub open spec fn names_text(names: Option<Vec<String>>) -> Option<Seq<Seq<char>>> {
    match names {
        Some(list) => Some(texts(list@)),
        None => None,
    }
}

impl View for ReadOptions {
    type V = Wanted;

    open spec fn view(&self) -> Wanted {
        Wanted {
            from: self.from,
            to: self.to,
            metrics: names_text(self.metrics),
            detail: self.detail,
            extremes: self.extremes,
        }
    }
}

/// Why history can't be told as it was asked for.
#[derive(Debug, Clone, PartialEq, Eq)]
pub enum OptionError {
    /// This field wasn't a whole number.
    NotAWholeNumber(&'static str),
    /// The range ends before it starts.
    FromAfterTo,
    /// `metrics` wasn't a list of strings.
    MetricsNotNames,
    /// `metrics` was an empty list.
    NoMetrics,
    /// There is no metric of this name.
    UnknownMetric(String),
    /// `step_ms` was zero.
    StepTooSmall,
    /// `max_points` was less than two or more than [`MAX_POINTS`].
    PointsOutOfRange,
    /// Both `step_ms` and `max_points`.
    StepAndPoints,
    /// `extremes` wasn't true or false.
    ExtremesNotABool,
    /// `extremes` with neither `step_ms` nor `max_points`.
    ExtremesAlone,
}

/// What an [`OptionError`] says.
pub ghost enum Objection {
    /// This field wasn't a whole number.
    NotAWholeNumber(Seq<char>),
    /// The range ends before it starts.
    FromAfterTo,
    /// `metrics` wasn't a list of strings.
    MetricsNotNames,
    /// `metrics` was an empty list.
    NoMetrics,
    /// There is no metric of this name.
    UnknownMetric(Seq<char>),
    /// `step_ms` was zero.
    StepTooSmall,
    /// `max_points` was less than two or more than [`MAX_POINTS`].
    PointsOutOfRange,
    /// Both `step_ms` and `max_points`.
    StepAndPoints,
    /// `extremes` wasn't true or false.
    ExtremesNotABool,
    /// `extremes` with neither `step_ms` nor `max_points`.
    ExtremesAlone,
}

impl View for OptionError {
    type V = Objection;

    open spec fn view(&self) -> Objection {
        match self {
            OptionError::NotAWholeNumber(field) => Objection::NotAWholeNumber(field@),
            OptionError::FromAfterTo => Objection::FromAfterTo,
            OptionError::MetricsNotNames => Objection::MetricsNotNames,
            OptionError::NoMetrics => Objection::NoMetrics,
            OptionError::UnknownMetric(name) => Objection::UnknownMetric(name@),
            OptionError::StepTooSmall => Objection::StepTooSmall,
            OptionError::PointsOutOfRange => Objection::PointsOutOfRange,
            OptionError::StepAndPoints => Objection::StepAndPoints,
            OptionError::ExtremesNotABool => Objection::ExtremesNotABool,
            OptionError::ExtremesAlone => Objection::ExtremesAlone,
        }
    }
}

impl Objection {
    /// The objection in words.
    pub open spec fn words(self) -> Seq<char> {
        match self {
            Objection::NotAWholeNumber(field) => "\""@ + field + "\" must be a whole number"@,
            Objection::FromAfterTo => "\"from\" must not be after \"to\""@,
            Objection::MetricsNotNames => "\"metrics\" must be a list of metric names"@,
            Objection::NoMetrics => "\"metrics\" must not be empty"@,
            Objection::UnknownMetric(name) => "unknown metric '"@ + shown(name) + "'"@,
            Objection::StepTooSmall => "\"step_ms\" must be at least 1"@,
            Objection::PointsOutOfRange => "\"max_points\" must be between 2 and "@ + decimal(MAX_POINTS as nat),
            Objection::StepAndPoints => "\"step_ms\" and \"max_points\" can't be used together"@,
            Objection::ExtremesNotABool => "\"extremes\" must be true or false"@,
            Objection::ExtremesAlone => "\"extremes\" needs \"step_ms\" or \"max_points\""@,
        }
    }
}

impl OptionError {
    /// The error in words.
    pub fn message(&self) -> (r: String)
        ensures
            r@ == self@.words(),
    {
        match self {
            OptionError::NotAWholeNumber(field) => "\"".to_owned().concat(field).concat(
                "\" must be a whole number",
            ),
            OptionError::FromAfterTo => "\"from\" must not be after \"to\"".to_owned(),
            OptionError::MetricsNotNames => "\"metrics\" must be a list of metric names".to_owned(),
            OptionError::NoMetrics => "\"metrics\" must not be empty".to_owned(),
            OptionError::UnknownMetric(name) => {
                let chars = chars_of(name);
                let start = if chars.len() > 40 {
                    first_of(&chars, 40)
                } else {
                    chars.as_slice()
                };
                "unknown metric '".to_owned().concat(&text_of(start)).concat("'")
            },
            OptionError::StepTooSmall => "\"step_ms\" must be at least 1".to_owned(),
            OptionError::PointsOutOfRange => "\"max_points\" must be between 2 and ".to_owned().concat(
                &decimal_of(MAX_POINTS),
            ),
            OptionError::StepAndPoints => "\"step_ms\" and \"max_points\" can't be used together".to_owned(),
            OptionError::ExtremesNotABool => "\"extremes\" must be true or false".to_owned(),
            OptionError::ExtremesAlone => "\"extremes\" needs \"step_ms\" or \"max_points\"".to_owned(),
        }
    }
}

/// The whole number in the field called `key`, if there is such a field.
pub open spec fn count_field(tree: Tree, key: Seq<char>) -> Result<Option<u64>, Objection> {
    match tree.field(key) {
        None => Ok(None),
        Some(value) => match value.count() {
            None => Err(Objection::NotAWholeNumber(key)),
            Some(n) => Ok(Some(n as u64)),
        },
    }
}

/// Whether a tree is a list of strings.
pub open spec fn is_name_list(tree: Tree) -> bool {
    tree is Array && forall|i: int| 0 <= i < tree->Array_0.len() ==> (#[trigger] tree->Array_0[i]).string() is Some
}

/// The strings in a list of strings.
pub open spec fn name_list(tree: Tree) -> Seq<Seq<char>> {
    tree->Array_0.map_values(|t: Tree| t.string()->0)
}

/// The names in the field `metrics`, if there is such a field.
pub open spec fn names_field(tree: Tree) -> Result<Option<Seq<Seq<char>>>, Objection> {
    match tree.field("metrics"@) {
        None => Ok(None),
        Some(list) => if !is_name_list(list) {
            Err(Objection::MetricsNotNames)
        } else if name_list(list).len() == 0 {
            Err(Objection::NoMetrics)
        } else {
            Ok(Some(name_list(list)))
        },
    }
}

/// How closely history is asked for.
pub open spec fn detail_field(tree: Tree) -> Result<Detail, Objection> {
    match count_field(tree, "step_ms"@) {
        Err(e) => Err(e),
        Ok(step) => match count_field(tree, "max_points"@) {
            Err(e) => Err(e),
            Ok(points) => match (step, points) {
                (Some(_), Some(_)) => Err(Objection::StepAndPoints),
                (Some(step), None) => if step == 0 {
                    Err(Objection::StepTooSmall)
                } else {
                    Ok(Detail::Step(step))
                },
                (None, Some(points)) => if points < 2 || points > MAX_POINTS {
                    Err(Objection::PointsOutOfRange)
                } else {
                    Ok(Detail::Points(points))
                },
                (None, None) => Ok(Detail::Every),
            },
        },
    }
}

/// Whether the least and greatest values are asked for too.
pub open spec fn extremes_field(tree: Tree, detail: Detail) -> Result<bool, Objection> {
    match tree.field("extremes"@) {
        None => Ok(false),
        Some(Tree::Bool(wanted)) => if wanted && detail is Every {
            Err(Objection::ExtremesAlone)
        } else {
            Ok(wanted)
        },
        Some(_) => Err(Objection::ExtremesNotABool),
    }
}

/// What a request for recorded history asks for.
pub open spec fn options(tree: Tree) -> Result<Wanted, Objection> {
    match count_field(tree, "from"@) {
        Err(e) => Err(e),
        Ok(from) => match count_field(tree, "to"@) {
            Err(e) => Err(e),
            Ok(to) => if from is Some && to is Some && from->0 > to->0 {
                Err(Objection::FromAfterTo)
            } else {
                match names_field(tree) {
                    Err(e) => Err(e),
                    Ok(metrics) => match detail_field(tree) {
                        Err(e) => Err(e),
                        Ok(detail) => match extremes_field(tree, detail) {
                            Err(e) => Err(e),
                            Ok(extremes) => Ok(
                                Wanted {
                                    from: if from is Some { from->0 } else { 0 },
                                    to: if to is Some { to->0 } else { u64::MAX },
                                    metrics,
                                    detail,
                                    extremes,
                                },
                            ),
                        },
                    },
                }
            },
        },
    }
}

/// The whole number in the field called `key`, if there is such a field.
fn count_in(json: &Json, key: &'static str) -> (r: Result<Option<u64>, OptionError>)
    ensures
        match r {
            Ok(n) => count_field(json.tree(), key@) == Ok::<Option<u64>, Objection>(n),
            Err(e) => count_field(json.tree(), key@) == Err::<Option<u64>, Objection>(e@),
        },
{
    match json.get(key) {
        None => Ok(None),
        Some(value) => match value.as_count() {
            None => Err(OptionError::NotAWholeNumber(key)),
            Some(n) => Ok(Some(n)),
        },
    }
}

/// The names in the field `metrics`, if there is such a field.
fn names_in(json: &Json) -> (r: Result<Option<Vec<String>>, OptionError>)
    ensures
        match r {
            Ok(None) => names_field(json.tree()) == Ok::<Option<Seq<Seq<char>>>, Objection>(None),
            Ok(Some(names)) => names_field(json.tree()) == Ok::<Option<Seq<Seq<char>>>, Objection>(
                Some(texts(names@)),
            ),
            Err(e) => names_field(json.tree()) == Err::<Option<Seq<Seq<char>>>, Objection>(e@),
        },
{
    let list = match json.get("metrics") {
        None => {
            return Ok(None);
        },
        Some(list) => list,
    };
    proof {
        crate::json::lemma_array_and_object(*list);
    }
    if let Json::Array(items) = list {
        let ghost tree = list.tree();
        let mut names: Vec<String> = Vec::new();
        for i in 0..items.len()
            invariant
                tree == list.tree(),
                tree == Tree::Array(crate::json::item_trees(items@)),
                json.tree().field("metrics"@) == Some(tree),
                names@.len() == i,
                forall|j: int|
                    0 <= j < i ==> (#[trigger] tree->Array_0[j]).string() == Some(names@[j]@),
        {
            assert(tree->Array_0[i as int] == items@[i as int].tree());
            match items[i].as_text() {
                None => {
                    return Err(OptionError::MetricsNotNames);
                },
                Some(name) => {
                    names.push(name.to_owned());
                },
            }
        }
        assert(is_name_list(tree));
        assert(texts(names@) =~= name_list(tree));
        if names.len() == 0 {
            Err(OptionError::NoMetrics)
        } else {
            Ok(Some(names))
        }
    } else {
        Err(OptionError::MetricsNotNames)
    }
}

/// How closely history is asked for.
fn detail_in(json: &Json) -> (r: Result<Detail, OptionError>)
    ensures
        match r {
            Ok(detail) => detail_field(json.tree()) == Ok::<Detail, Objection>(detail),
            Err(e) => detail_field(json.tree()) == Err::<Detail, Objection>(e@),
        },
{
    let step = match count_in(json, "step_ms") {
        Err(e) => {
            return Err(e);
        },
        Ok(step) => step,
    };
    let points = match count_in(json, "max_points") {
        Err(e) => {
            return Err(e);
        },
        Ok(points) => points,
    };
    match (step, points) {
        (Some(_), Some(_)) => Err(OptionError::StepAndPoints),
        (Some(step), None) => if step == 0 {
            Err(OptionError::StepTooSmall)
        } else {
            Ok(Detail::Step(step))
        },
        (None, Some(points)) => if points < 2 || points > MAX_POINTS {
            Err(OptionError::PointsOutOfRange)
        } else {
            Ok(Detail::Points(points))
        },
        (None, None) => Ok(Detail::Every),
    }
}

/// Turns the fields of a request for recorded history into [`ReadOptions`].
///
/// # Errors
/// If a field holds something it can't, or the fields don't go together.
pub fn options_of(json: &Json) -> (r: Result<ReadOptions, OptionError>)
    ensures
        match r {
            Ok(asked) => options(json.tree()) == Ok::<Wanted, Objection>(asked@),
            Err(e) => options(json.tree()) == Err::<Wanted, Objection>(e@),
        },
{
    let from = match count_in(json, "from") {
        Err(e) => {
            return Err(e);
        },
        Ok(from) => from,
    };
    let to = match count_in(json, "to") {
        Err(e) => {
            return Err(e);
        },
        Ok(to) => to,
    };
    if let (Some(from), Some(to)) = (from, to) {
        if from > to {
            return Err(OptionError::FromAfterTo);
        }
    }
    let metrics = match names_in(json) {
        Err(e) => {
            return Err(e);
        },
        Ok(metrics) => metrics,
    };
    let detail = match detail_in(json) {
        Err(e) => {
            return Err(e);
        },
        Ok(detail) => detail,
    };
    let extremes = match json.get("extremes") {
        None => false,
        Some(Json::Bool(wanted)) => {
            if *wanted {
                if let Detail::Every = detail {
                    return Err(OptionError::ExtremesAlone);
                }
            }
            *wanted
        },
        Some(_) => {
            return Err(OptionError::ExtremesNotABool);
        },
    };
    let from: u64 = match from {
        Some(from) => from,
        None => 0,
    };
    let to: u64 = match to {
        Some(to) => to,
        None => u64::MAX,
    };
    Ok(ReadOptions { from, to, metrics, detail, extremes })
}

/// A field that isn't an option changes nothing.
pub proof fn law_other_fields_are_ignored(
    before: Seq<(Seq<char>, Tree)>,
    extra: (Seq<char>, Tree),
    after: Seq<(Seq<char>, Tree)>,
)
    requires
        extra.0 != "from"@,
        extra.0 != "to"@,
        extra.0 != "metrics"@,
        extra.0 != "step_ms"@,
        extra.0 != "max_points"@,
        extra.0 != "extremes"@,
    ensures
        options(Tree::Object(before + seq![extra] + after)) == options(Tree::Object(before + after)),
{
    lemma_find_skips(before, extra, after, "from"@);
    lemma_find_skips(before, extra, after, "to"@);
    lemma_find_skips(before, extra, after, "metrics"@);
    lemma_find_skips(before, extra, after, "step_ms"@);
    lemma_find_skips(before, extra, after, "max_points"@);
    lemma_find_skips(before, extra, after, "extremes"@);
}

/// The message for options that can't be met is shorter than two hundred
/// characters, however long the request was.
pub proof fn law_objections_are_short(tree: Tree, name: Seq<char>)
    ensures
        options(tree) matches Err(objection) ==> objection.words().len() < 200,
        Objection::UnknownMetric(name).words().len() < 200,
{
    reveal_strlit("\"");
    reveal_strlit("from");
    reveal_strlit("to");
    reveal_strlit("step_ms");
    reveal_strlit("max_points");
    reveal_strlit("\" must be a whole number");
    reveal_strlit("\"from\" must not be after \"to\"");
    reveal_strlit("\"metrics\" must be a list of metric names");
    reveal_strlit("\"metrics\" must not be empty");
    reveal_strlit("unknown metric '");
    reveal_strlit("'");
    reveal_strlit("\"step_ms\" must be at least 1");
    reveal_strlit("\"max_points\" must be between 2 and ");
    reveal_strlit("\"step_ms\" and \"max_points\" can't be used together");
    reveal_strlit("\"extremes\" must be true or false");
    reveal_strlit("\"extremes\" needs \"step_ms\" or \"max_points\"");
    crate::text::lemma_decimal_short(MAX_POINTS);
}

/// How many metrics stand before the first called `name`: all of them, if none
/// is.
pub open spec fn position(metrics: Seq<MetricText>, name: Seq<char>) -> nat
    decreases metrics.len(),
{
    if metrics.len() > 0 && metrics[0].name != name {
        1 + position(metrics.drop_first(), name)
    } else {
        0
    }
}

/// The positions of the metrics called `names`, each once, in the order in
/// which they are first named, or the first name that no metric has.
pub open spec fn positions(metrics: Seq<MetricText>, names: Seq<Seq<char>>) -> Result<Seq<usize>, Seq<char>>
    decreases names.len(),
{
    if names.len() == 0 {
        Ok(seq![])
    } else {
        match positions(metrics, names.drop_last()) {
            Err(unknown) => Err(unknown),
            Ok(before) => {
                let k = position(metrics, names.last());
                if k >= metrics.len() {
                    Err(names.last())
                } else if before.contains(k as usize) {
                    Ok(before)
                } else {
                    Ok(before.push(k as usize))
                }
            },
        }
    }
}

/// The positions of the metrics asked for.
pub open spec fn columns_wanted(metrics: Seq<MetricText>, names: Option<Seq<Seq<char>>>) -> Result<
    Seq<usize>,
    Seq<char>,
> {
    match names {
        None => Ok(Seq::new(metrics.len(), |k: int| k as usize)),
        Some(names) => positions(metrics, names),
    }
}

/// The first `k` metrics have other names.
proof fn lemma_position(metrics: Seq<MetricText>, name: Seq<char>, k: int)
    requires
        0 <= k <= metrics.len(),
        forall|j: int| 0 <= j < k ==> (#[trigger] metrics[j]).name != name,
        k < metrics.len() ==> metrics[k].name == name,
    ensures
        position(metrics, name) == k,
    decreases metrics.len(),
{
    if k > 0 {
        let rest = metrics.drop_first();
        assert forall|j: int| 0 <= j < k - 1 implies (#[trigger] rest[j]).name != name by {
            assert(rest[j] == metrics[j + 1]);
        }
        assert(metrics[0].name != name);
        lemma_position(rest, name, k - 1);
    }
}

/// An unknown name stays the first one.
proof fn lemma_positions_stop(metrics: Seq<MetricText>, names: Seq<Seq<char>>, n: int)
    requires
        0 <= n <= names.len(),
        positions(metrics, names.take(n)) is Err,
    ensures
        positions(metrics, names) == positions(metrics, names.take(n)),
    decreases names.len(),
{
    if n < names.len() {
        assert(names.drop_last().take(n) =~= names.take(n));
        lemma_positions_stop(metrics, names.drop_last(), n);
    } else {
        assert(names.take(n) =~= names);
    }
}

/// How many metrics stand before the first called `name`.
fn position_of(schema: &Schema, name: &str) -> (k: usize)
    ensures
        k == position(schema@, name@),
        k <= schema@.len(),
{
    let metrics = schema.metrics();
    for k in 0..metrics.len()
        invariant
            metrics_text(metrics@) == schema@,
            forall|j: int| 0 <= j < k ==> (#[trigger] schema@[j]).name != name@,
    {
        assert(schema@[k as int] == metrics@[k as int]@);
        if same(&metrics[k].name, name) {
            proof {
                lemma_position(schema@, name@, k as int);
            }
            return k;
        }
    }
    proof {
        lemma_position(schema@, name@, metrics@.len() as int);
    }
    metrics.len()
}

/// The positions of the metrics asked for.
///
/// # Errors
/// If there is no metric of one of the names.
pub fn columns_of(schema: &Schema, names: &Option<Vec<String>>) -> (r: Result<Vec<usize>, OptionError>)
    ensures
        match r {
            Ok(columns) => {
                &&& columns_wanted(schema@, names_text(*names)) == Ok::<Seq<usize>, Seq<char>>(columns@)
                &&& forall|k: int| 0 <= k < columns@.len() ==> (#[trigger] columns@[k]) < schema@.len()
            },
            Err(e) => {
                &&& e@ is UnknownMetric
                &&& columns_wanted(schema@, names_text(*names)) == Err::<Seq<usize>, Seq<char>>(e@->UnknownMetric_0)
            },
        },
{
    let mut columns: Vec<usize> = Vec::new();
    let width = schema.len();
    match names {
        None => {
            for k in 0..width
                invariant
                    columns@ == Seq::new(k as nat, |j: int| j as usize),
            {
                columns.push(k);
                assert(columns@ =~= Seq::new((k + 1) as nat, |j: int| j as usize));
            }
            assert(columns@ =~= Seq::new(schema@.len(), |k: int| k as usize));
        },
        Some(list) => {
            let ghost asked = texts(list@);
            assert(asked.take(0) =~= Seq::<Seq<char>>::empty());
            for i in 0..list.len()
                invariant
                    asked == texts(list@),
                    *names == Some(*list),
                    width == schema@.len(),
                    positions(schema@, asked.take(i as int)) == Ok::<Seq<usize>, Seq<char>>(columns@),
                    forall|m: int| 0 <= m < columns@.len() ==> (#[trigger] columns@[m]) < width,
            {
                let ghost more = asked.take(i + 1);
                assert(more.drop_last() =~= asked.take(i as int));
                assert(more.last() == list@[i as int]@);
                let k = position_of(schema, &list[i]);
                if k >= width {
                    proof {
                        lemma_positions_stop(schema@, asked, i + 1);
                    }
                    return Err(OptionError::UnknownMetric(list[i].clone()));
                }
                let mut seen: bool = false;
                for j in 0..columns.len()
                    invariant
                        seen == exists|m: int| 0 <= m < j && columns@[m] == k,
                {
                    if columns[j] == k {
                        seen = true;
                    }
                }
                assert(seen == columns@.contains(k));
                if !seen {
                    columns.push(k);
                }
            }
            assert(asked.take(list@.len() as int) =~= asked);
        },
    }
    Ok(columns)
}

/// How many milliseconds lie between the first time and the last.
pub open spec fn span(timestamps: Seq<u64>) -> u64 {
    if timestamps.len() == 0 {
        0
    } else {
        (timestamps.last() - timestamps[0]) as u64
    }
}

/// The width of the buckets, if history is summarised at all.
pub open spec fn step_wanted(detail: Detail, timestamps: Seq<u64>, interval: u64) -> Option<u64> {
    match detail {
        Detail::Every => None,
        Detail::Step(step) => Some(step),
        Detail::Points(points) => Some(
            step_for(
                span(timestamps),
                points,
                if interval == 0 {
                    1
                } else {
                    interval
                },
            ),
        ),
    }
}

/// The values of the records in `bucket`.
pub open spec fn part(values: Seq<u64>, bucket: Bucket) -> Seq<u64> {
    values.subrange(bucket.first as int, bucket.end as int)
}

/// When each bucket starts.
pub open spec fn starts(buckets: Seq<Bucket>) -> Seq<u64> {
    buckets.map_values(|b: Bucket| b.start)
}

/// Recorded history: values by their bits.
#[derive(Debug, Clone, PartialEq, Eq)]
pub struct Figures {
    /// The width of the buckets, if it is summarised.
    pub step: Option<u64>,
    /// When each record was taken, or each bucket starts.
    pub timestamps: Vec<u64>,
    /// Each metric's values.
    pub series: Vec<Vec<Option<u64>>>,
    /// Each metric's least and greatest values.
    pub extremes: Option<(Vec<Vec<Option<u64>>>, Vec<Vec<Option<u64>>>)>,
}

/// Whether `series` holds the mean of each bucket of each column.
pub open spec fn are_averages<M: Fn(Vec<u64>) -> u64>(
    mean: M,
    columns: Seq<Seq<u64>>,
    buckets: Seq<Bucket>,
    series: Seq<Seq<Option<u64>>>,
) -> bool {
    &&& series.len() == columns.len()
    &&& forall|k: int| 0 <= k < columns.len() ==> (#[trigger] series[k]).len() == buckets.len()
    &&& forall|k: int, b: int|
        0 <= k < columns.len() && 0 <= b < buckets.len() ==> averages(
            mean,
            part(columns[k], buckets[b]),
            #[trigger] series[k][b],
        )
}

/// Whether `low` and `high` hold the least and the greatest value of each bucket
/// of each column.
pub open spec fn are_extremes(
    columns: Seq<Seq<u64>>,
    buckets: Seq<Bucket>,
    low: Seq<Seq<Option<u64>>>,
    high: Seq<Seq<Option<u64>>>,
) -> bool {
    &&& low.len() == columns.len()
    &&& high.len() == columns.len()
    &&& forall|k: int| 0 <= k < columns.len() ==> (#[trigger] low[k]).len() == buckets.len()
    &&& forall|k: int| 0 <= k < columns.len() ==> (#[trigger] high[k]).len() == buckets.len()
    &&& forall|k: int, b: int|
        0 <= k < columns.len() && 0 <= b < buckets.len() ==> is_least(
            part(columns[k], buckets[b]),
            #[trigger] low[k][b],
        )
    &&& forall|k: int, b: int|
        0 <= k < columns.len() && 0 <= b < buckets.len() ==> is_greatest(
            part(columns[k], buckets[b]),
            #[trigger] high[k][b],
        )
}

impl Figures {
    /// Whether this tells the records taken at `timestamps` with the values in
    /// `columns`, summarised in buckets of `step` if there is one.
    pub open spec fn tells<M: Fn(Vec<u64>) -> u64>(
        self,
        timestamps: Seq<u64>,
        columns: Seq<Seq<u64>>,
        step: Option<u64>,
        extremes: bool,
        mean: M,
    ) -> bool {
        &&& self.step == step
        &&& match step {
            None => {
                &&& self.timestamps@ == timestamps
                &&& bits_view(self.series@) == columns.map_values(|c: Seq<u64>| known(c))
                &&& self.extremes is None
            },
            Some(step) => {
                let all = buckets(timestamps, step);
                &&& self.timestamps@ == starts(all)
                &&& are_averages(mean, columns, all, bits_view(self.series@))
                &&& self.extremes is Some == extremes
                &&& self.extremes matches Some((low, high)) ==> are_extremes(
                    columns,
                    all,
                    bits_view(low@),
                    bits_view(high@),
                )
            },
        }
    }
}

/// The mean of each bucket of a column.
fn averages_of<M: Fn(Vec<u64>) -> u64>(mean: &M, values: &[u64], all: &[Bucket]) -> (r: Vec<Option<u64>>)
    requires
        forall|given: Vec<u64>| given@.len() > 0 ==> #[trigger] call_requires(*mean, (given,)),
        tiled(all@, values@.len()),
    ensures
        r@.len() == all@.len(),
        forall|b: int| 0 <= b < all@.len() ==> averages(*mean, part(values@, all@[b]), #[trigger] r@[b]),
{
    let mut r: Vec<Option<u64>> = Vec::with_capacity(all.len());
    for b in 0..all.len()
        invariant
            forall|given: Vec<u64>| given@.len() > 0 ==> #[trigger] call_requires(*mean, (given,)),
            tiled(all@, values@.len()),
            r@.len() == b,
            forall|j: int| 0 <= j < b ==> averages(*mean, part(values@, all@[j]), #[trigger] r@[j]),
    {
        assert(all@[b as int].first < all@[b as int].end <= values@.len());
        r.push(average(mean, slice_subrange(values, all[b].first, all[b].end)));
    }
    r
}

/// The least value of each bucket of a column.
fn leasts_of(values: &[u64], all: &[Bucket]) -> (r: Vec<Option<u64>>)
    requires
        tiled(all@, values@.len()),
    ensures
        r@.len() == all@.len(),
        forall|b: int| 0 <= b < all@.len() ==> is_least(part(values@, all@[b]), #[trigger] r@[b]),
{
    let mut r: Vec<Option<u64>> = Vec::with_capacity(all.len());
    for b in 0..all.len()
        invariant
            tiled(all@, values@.len()),
            r@.len() == b,
            forall|j: int| 0 <= j < b ==> is_least(part(values@, all@[j]), #[trigger] r@[j]),
    {
        assert(all@[b as int].first < all@[b as int].end <= values@.len());
        r.push(least(slice_subrange(values, all[b].first, all[b].end)));
    }
    r
}

/// The greatest value of each bucket of a column.
fn greatests_of(values: &[u64], all: &[Bucket]) -> (r: Vec<Option<u64>>)
    requires
        tiled(all@, values@.len()),
    ensures
        r@.len() == all@.len(),
        forall|b: int| 0 <= b < all@.len() ==> is_greatest(part(values@, all@[b]), #[trigger] r@[b]),
{
    let mut r: Vec<Option<u64>> = Vec::with_capacity(all.len());
    for b in 0..all.len()
        invariant
            tiled(all@, values@.len()),
            r@.len() == b,
            forall|j: int| 0 <= j < b ==> is_greatest(part(values@, all@[j]), #[trigger] r@[j]),
    {
        assert(all@[b as int].first < all@[b as int].end <= values@.len());
        r.push(greatest(slice_subrange(values, all[b].first, all[b].end)));
    }
    r
}

/// What several columns say.
pub open spec fn values_view(columns: Seq<Vec<u64>>) -> Seq<Seq<u64>> {
    columns.map_values(|c: Vec<u64>| c@)
}

/// Tells the records in `snapshot`, summarised in buckets of `step` if there is
/// one. `mean` makes one value of several, all by their bits.
pub fn figures<M: Fn(Vec<u64>) -> u64>(snapshot: Snapshot, step: Option<u64>, extremes: bool, mean: &M) -> (r: Figures)
    requires
        step matches Some(step) ==> step > 0,
        forall|given: Vec<u64>| given@.len() > 0 ==> #[trigger] call_requires(*mean, (given,)),
        forall|k: int|
            0 <= k < snapshot.columns@.len() ==> (#[trigger] snapshot.columns@[k])@.len() == snapshot.timestamps@.len(),
    ensures
        r.tells(snapshot.timestamps@, values_view(snapshot.columns@), step, extremes, *mean),
{
    let ghost columns = values_view(snapshot.columns@);
    let n = snapshot.columns.len();
    let mut series: Vec<Vec<Option<u64>>> = Vec::with_capacity(n);
    match step {
        None => {
            for k in 0..n
                invariant
                    n == snapshot.columns@.len(),
                    series@.len() == k,
                    forall|j: int| 0 <= j < k ==> (#[trigger] series@[j])@ == known(snapshot.columns@[j]@),
            {
                series.push(known_of(&snapshot.columns[k]));
            }
            assert(bits_view(series@) =~= columns.map_values(|c: Seq<u64>| known(c)));
            Figures { step, timestamps: snapshot.timestamps, series, extremes: None }
        },
        Some(width) => {
            let all = gather(&snapshot.timestamps, width);
            proof {
                assert(snapshot.timestamps.len() <= usize::MAX);
                law_buckets_partition_the_records(snapshot.timestamps@, width);
            }
            let mut timestamps: Vec<u64> = Vec::with_capacity(all.len());
            for b in 0..all.len()
                invariant
                    timestamps@.len() == b,
                    forall|j: int| 0 <= j < b ==> #[trigger] timestamps@[j] == all@[j].start,
            {
                timestamps.push(all[b].start);
            }
            assert(timestamps@ =~= starts(all@));
            for k in 0..n
                invariant
                    forall|given: Vec<u64>| given@.len() > 0 ==> #[trigger] call_requires(*mean, (given,)),
                    n == snapshot.columns@.len(),
                    columns == values_view(snapshot.columns@),
                    forall|k: int|
                        0 <= k < snapshot.columns@.len() ==> (#[trigger] snapshot.columns@[k])@.len()
                            == snapshot.timestamps@.len(),
                    tiled(all@, snapshot.timestamps@.len()),
                    series@.len() == k,
                    forall|j: int| 0 <= j < k ==> (#[trigger] series@[j])@.len() == all@.len(),
                    forall|j: int, b: int|
                        0 <= j < k && 0 <= b < all@.len() ==> averages(
                            *mean,
                            part(columns[j], all@[b]),
                            #[trigger] series@[j]@[b],
                        ),
            {
                assert(snapshot.columns@[k as int]@.len() == snapshot.timestamps@.len());
                series.push(averages_of(mean, &snapshot.columns[k], &all));
            }
            let mut bounds: Option<(Vec<Vec<Option<u64>>>, Vec<Vec<Option<u64>>>)> = None;
            if extremes {
                let mut low: Vec<Vec<Option<u64>>> = Vec::with_capacity(n);
                let mut high: Vec<Vec<Option<u64>>> = Vec::with_capacity(n);
                for k in 0..n
                    invariant
                        n == snapshot.columns@.len(),
                        columns == values_view(snapshot.columns@),
                        forall|k: int|
                            0 <= k < snapshot.columns@.len() ==> (#[trigger] snapshot.columns@[k])@.len()
                                == snapshot.timestamps@.len(),
                        tiled(all@, snapshot.timestamps@.len()),
                        low@.len() == k,
                        high@.len() == k,
                        forall|j: int| 0 <= j < k ==> (#[trigger] low@[j])@.len() == all@.len(),
                        forall|j: int| 0 <= j < k ==> (#[trigger] high@[j])@.len() == all@.len(),
                        forall|j: int, b: int|
                            0 <= j < k && 0 <= b < all@.len() ==> is_least(
                                part(columns[j], all@[b]),
                                #[trigger] low@[j]@[b],
                            ),
                        forall|j: int, b: int|
                            0 <= j < k && 0 <= b < all@.len() ==> is_greatest(
                                part(columns[j], all@[b]),
                                #[trigger] high@[j]@[b],
                            ),
                {
                    assert(snapshot.columns@[k as int]@.len() == snapshot.timestamps@.len());
                    low.push(leasts_of(&snapshot.columns[k], &all));
                    high.push(greatests_of(&snapshot.columns[k], &all));
                }
                bounds = Some((low, high));
            }
            Figures { step, timestamps, series, extremes: bounds }
        },
    }
}

/// Whether `history` says what `figures` do, with what `number` makes of each
/// value.
pub open spec fn shows<N: Fn(u64) -> Option<serde_json::Number>>(
    number: N,
    figures: Figures,
    names: Seq<Seq<char>>,
    history: History,
) -> bool {
    &&& history.step == figures.step
    &&& history.timestamps == figures.timestamps@
    &&& history.names == names
    &&& told(number, bits_view(figures.series@), history.series)
    &&& match (figures.extremes, history.extremes) {
        (Some((low, high)), Some((least, greatest))) => told(number, bits_view(low@), least) && told(
            number,
            bits_view(high@),
            greatest,
        ),
        (None, None) => true,
        _ => false,
    }
}

/// The response that tells `figures` of the metrics called `names`. `number`
/// makes a JSON number of the bits of a value that was measured.
pub fn figures_line<N: Fn(u64) -> Option<serde_json::Number>>(number: &N, figures: &Figures, names: &[String]) -> (line:
    String)
    requires
        forall|b: u64| #[trigger] call_requires(*number, (b,)),
        figures.series@.len() == names@.len(),
        figures.extremes matches Some((low, high)) ==> low@.len() == names@.len() && high@.len() == names@.len(),
    ensures
        exists|history: History|
            #[trigger] shows(*number, *figures, texts(names@), history) && line@ == history_line(history),
        one_line(line@),
{
    let series = columns_for(number, &figures.series);
    let extremes = match &figures.extremes {
        None => None,
        Some((low, high)) => Some((columns_for(number, low), columns_for(number, high))),
    };
    proof {
        assert(columns_view(series@).len() == bits_view(figures.series@).len());
        assert(extremes matches Some((low, high)) ==> columns_view(low@).len() == names@.len() && columns_view(
            high@,
        ).len() == names@.len());
        let history = History {
            step: figures.step,
            timestamps: figures.timestamps@,
            names: texts(names@),
            series: columns_view(series@),
            extremes: extremes_view(extremes),
        };
        assert(shows(*number, *figures, texts(names@), history));
    }
    read_line(figures.step, &figures.timestamps, names, &series, &extremes)
}

/// Whether the width or the number of points asked for is one that there can be.
pub open spec fn sound(detail: Detail) -> bool {
    match detail {
        Detail::Every => true,
        Detail::Step(step) => step > 0,
        Detail::Points(points) => points >= 2,
    }
}

/// The values of the metrics at `columns`, in each record.
pub open spec fn values_of(records: Seq<Record>, columns: Seq<usize>) -> Seq<Seq<u64>> {
    Seq::new(columns.len(), |k: int| column(records, columns[k] as int))
}

/// The names of the metrics at `columns`.
pub open spec fn names_at(metrics: Seq<MetricText>, columns: Seq<usize>) -> Seq<Seq<char>> {
    Seq::new(columns.len(), |k: int| metrics[columns[k] as int].name)
}

/// Whether `figures` are what `wanted` asks of the metrics at `columns`.
pub open spec fn recalls<M: Fn(Vec<u64>) -> u64>(
    shared: Shared,
    wanted: Wanted,
    columns: Seq<usize>,
    mean: M,
    figures: Figures,
) -> bool {
    let records = within(shared.records(), wanted.from, wanted.to);
    figures.tells(
        times(records),
        values_of(records, columns),
        step_wanted(wanted.detail, times(records), shared.interval_ms),
        wanted.extremes,
        mean,
    )
}

/// The records asked for, of the metrics at `columns`.
pub fn recall<M: Fn(Vec<u64>) -> u64>(shared: &Shared, options: &ReadOptions, columns: &[usize], mean: &M) -> (r: Figures)
    requires
        shared.wf(),
        sound(options.detail),
        forall|k: int| 0 <= k < columns@.len() ==> (#[trigger] columns@[k]) < shared.metrics().len(),
        forall|given: Vec<u64>| given@.len() > 0 ==> #[trigger] call_requires(*mean, (given,)),
    ensures
        recalls(*shared, options@, columns@, *mean, r),
{
    proof {
        assert forall|k: int| 0 <= k < columns@.len() implies (#[trigger] columns@[k]) < shared.store.width() by {}
    }
    let snapshot = shared.read().select(options.from, options.to, columns);
    let ghost records = within(shared.records(), options.from, options.to);
    proof {
        assert(values_view(snapshot.columns@) =~= values_of(records, columns@));
        lemma_selected(*shared, options.from, options.to, columns@, snapshot);
    }
    summary(snapshot, shared.interval_ms, options.detail, options.extremes, mean)
}

/// Whether records that were copied out are in time order, and have as many values
/// of each metric as there are of them.
pub open spec fn in_order(snapshot: Snapshot) -> bool {
    &&& forall|i: int, j: int|
        0 <= i < j < snapshot.timestamps@.len() ==> #[trigger] snapshot.timestamps@[i]
            < #[trigger] snapshot.timestamps@[j]
    &&& forall|k: int|
        0 <= k < snapshot.columns@.len() ==> (#[trigger] snapshot.columns@[k])@.len() == snapshot.timestamps@.len()
}

/// What is copied out of a store is in order.
pub proof fn lemma_selected(shared: Shared, from: u64, to: u64, columns: Seq<usize>, snapshot: Snapshot)
    requires
        shared.wf(),
        snapshot.holds(within(shared.records(), from, to), columns),
    ensures
        in_order(snapshot),
{
    let records = within(shared.records(), from, to);
    law_selection_in_order(shared, from, to);
    assert forall|i: int, j: int| 0 <= i < j < snapshot.timestamps@.len() implies #[trigger] snapshot.timestamps@[i]
        < #[trigger] snapshot.timestamps@[j] by {
        assert(times(records)[i] == records[i].time && times(records)[j] == records[j].time);
    }
}

/// Tells the records in `snapshot`, which were taken every `interval_ms`, as
/// closely as `detail` says.
pub fn summary<M: Fn(Vec<u64>) -> u64>(
    snapshot: Snapshot,
    interval_ms: u64,
    detail: Detail,
    extremes: bool,
    mean: &M,
) -> (r: Figures)
    requires
        sound(detail),
        in_order(snapshot),
        forall|given: Vec<u64>| given@.len() > 0 ==> #[trigger] call_requires(*mean, (given,)),
    ensures
        r.tells(
            snapshot.timestamps@,
            values_view(snapshot.columns@),
            step_wanted(detail, snapshot.timestamps@, interval_ms),
            extremes,
            *mean,
        ),
{
    let n = snapshot.timestamps.len();
    let step = match detail {
        Detail::Every => None,
        Detail::Step(step) => Some(step),
        Detail::Points(points) => {
            let span: u64 = if n == 0 {
                0
            } else {
                assert(n > 1 ==> snapshot.timestamps@[0] < snapshot.timestamps@[n - 1]);
                snapshot.timestamps[n - 1] - snapshot.timestamps[0]
            };
            let interval: u64 = if interval_ms == 0 {
                1
            } else {
                interval_ms
            };
            Some(choose_step(span, points, interval))
        },
    };
    figures(snapshot, step, extremes, mean)
}

/// Part of a history is in time order too.
pub proof fn law_selection_in_order(shared: Shared, from: u64, to: u64)
    requires
        shared.wf(),
    ensures
        in_time_order(within(shared.records(), from, to)),
        forall|i: int|
            0 <= i < within(shared.records(), from, to).len() ==> from <= (#[trigger] within(
                shared.records(),
                from,
                to,
            )[i]).time <= to,
{
    shared.store.law_bounded_and_in_order();
    lemma_within_order(shared.records(), from, to);
}

/// Whether `line` answers a request for recorded history that is `tree`.
pub open spec fn recounts<N: Fn(u64) -> Option<serde_json::Number>, M: Fn(Vec<u64>) -> u64>(
    tree: Tree,
    shared: Shared,
    number: N,
    mean: M,
    line: Seq<char>,
) -> bool {
    match options(tree) {
        Err(objection) => refuses(objection.words(), line),
        Ok(wanted) => match columns_wanted(shared.metrics(), wanted.metrics) {
            Err(name) => refuses(Objection::UnknownMetric(name).words(), line),
            Ok(columns) => tells_of(shared, wanted, columns, number, mean, line),
        },
    }
}

/// Whether `line` tells what `wanted` asks of the metrics at `columns`.
pub open spec fn tells_of<N: Fn(u64) -> Option<serde_json::Number>, M: Fn(Vec<u64>) -> u64>(
    shared: Shared,
    wanted: Wanted,
    columns: Seq<usize>,
    number: N,
    mean: M,
    line: Seq<char>,
) -> bool {
    exists|figures: Figures, history: History|
        recalls(shared, wanted, columns, mean, figures) && #[trigger] shows(
            number,
            figures,
            names_at(shared.metrics(), columns),
            history,
        ) && line == history_line(history)
}

/// The names of the metrics at `columns`.
pub(crate) fn names_of(schema: &Schema, columns: &[usize]) -> (r: Vec<String>)
    requires
        forall|k: int| 0 <= k < columns@.len() ==> (#[trigger] columns@[k]) < schema@.len(),
    ensures
        texts(r@) == names_at(schema@, columns@),
{
    let metrics = schema.metrics();
    let mut r: Vec<String> = Vec::with_capacity(columns.len());
    for i in 0..columns.len()
        invariant
            metrics_text(metrics@) == schema@,
            forall|k: int| 0 <= k < columns@.len() ==> (#[trigger] columns@[k]) < schema@.len(),
            r@.len() == i,
            forall|j: int| 0 <= j < i ==> (#[trigger] r@[j])@ == schema@[columns@[j] as int].name,
    {
        let k: usize = columns[i];
        assert(schema@[k as int] == metrics@[k as int]@);
        r.push(metrics[k].name.clone());
    }
    assert(texts(r@) =~= names_at(schema@, columns@));
    r
}

/// Whether every column has a value for each of `n` times.
pub open spec fn aligned(columns: Seq<Seq<Option<u64>>>, n: nat) -> bool {
    forall|k: int| 0 <= k < columns.len() ==> (#[trigger] columns[k]).len() == n
}

/// Every column that is told is as long as the list of times.
pub proof fn law_columns_are_aligned<M: Fn(Vec<u64>) -> u64>(
    shared: Shared,
    wanted: Wanted,
    columns: Seq<usize>,
    mean: M,
    figures: Figures,
)
    requires
        recalls(shared, wanted, columns, mean, figures),
    ensures
        figures.series@.len() == columns.len(),
        aligned(bits_view(figures.series@), figures.timestamps@.len()),
        figures.extremes matches Some((low, high)) ==> aligned(bits_view(low@), figures.timestamps@.len()) && aligned(
            bits_view(high@),
            figures.timestamps@.len(),
        ),
{
    let records = within(shared.records(), wanted.from, wanted.to);
    let values = values_of(records, columns);
    assert(bits_view(figures.series@).len() == columns.len());
    if step_wanted(wanted.detail, times(records), shared.interval_ms) is None {
        assert forall|k: int| 0 <= k < columns.len() implies (#[trigger] bits_view(figures.series@)[k]).len()
            == figures.timestamps@.len() by {
            assert(bits_view(figures.series@)[k] == known(values[k]));
        }
    }
}

/// A summary with at most so many points has no more, and at least one if there
/// is any record; each point starts at a whole number of steps, and the step is
/// a whole number of sampling intervals.
pub proof fn law_points_are_kept_to<M: Fn(Vec<u64>) -> u64>(
    shared: Shared,
    wanted: Wanted,
    columns: Seq<usize>,
    mean: M,
    figures: Figures,
    points: u64,
)
    requires
        shared.wf(),
        recalls(shared, wanted, columns, mean, figures),
        wanted.detail == Detail::Points(points),
        points >= 2,
        shared.interval_ms >= 1,
    ensures
        figures.step is Some,
        figures.step->0 > 0,
        figures.step->0 % shared.interval_ms == 0,
        figures.timestamps@.len() <= points,
        within(shared.records(), wanted.from, wanted.to).len() > 0 ==> figures.timestamps@.len() >= 1,
        forall|b: int| 0 <= b < figures.timestamps@.len() ==> (#[trigger] figures.timestamps@[b]) % figures.step->0 == 0,
{
    let records = within(shared.records(), wanted.from, wanted.to);
    let at = times(records);
    law_selection_in_order(shared, wanted.from, wanted.to);
    shared.store.law_bounded_and_in_order();
    lemma_within_len(shared.records(), wanted.from, wanted.to);
    assert forall|i: int, j: int| 0 <= i < j < at.len() implies at[i] <= at[j] by {
        assert(records[i].time < records[j].time);
    }
    if at.len() > 0 {
        law_at_most_so_many_points(at, points, shared.interval_ms);
    } else {
        let one: Seq<u64> = seq![0u64];
        law_at_most_so_many_points(one, points, shared.interval_ms);
        assert((one.last() - one[0]) as u64 == 0);
        assert(buckets(at, figures.step->0) =~= Seq::<Bucket>::empty());
    }
    law_buckets_partition_the_records(at, figures.step->0);
    assert forall|b: int| 0 <= b < figures.timestamps@.len() implies (#[trigger] figures.timestamps@[b])
        % figures.step->0 == 0 by {
        assert(buckets(at, figures.step->0)[b].start % figures.step->0 == 0);
    }
}

/// The summary of a range has the same bucket edges as the summary of the whole
/// history.
pub proof fn law_a_range_has_the_edges_of_the_whole<M: Fn(Vec<u64>) -> u64>(
    shared: Shared,
    part: Wanted,
    whole: Wanted,
    columns: Seq<usize>,
    mean: M,
    some: Figures,
    all: Figures,
    step: u64,
)
    requires
        shared.wf(),
        recalls(shared, part, columns, mean, some),
        recalls(shared, whole, columns, mean, all),
        whole.from == 0,
        whole.to == u64::MAX,
        part.detail == Detail::Step(step),
        whole.detail == Detail::Step(step),
        step > 0,
    ensures
        forall|b: int| 0 <= b < some.timestamps@.len() ==> all.timestamps@.contains(#[trigger] some.timestamps@[b]),
{
    let records = shared.records();
    let inside = within(records, part.from, part.to);
    shared.store.law_bounded_and_in_order();
    lemma_within_everything(records);
    lemma_within_order(records, part.from, part.to);
    lemma_within_len(records, part.from, part.to);
    assert forall|i: int| 0 <= i < times(inside).len() implies times(records).contains(#[trigger] times(inside)[i]) by {
        assert(records.contains(inside[i]));
        let j = choose|j: int| 0 <= j < records.len() && records[j] == inside[i];
        assert(times(records)[j] == times(inside)[i]);
    }
    assert forall|b: int| 0 <= b < some.timestamps@.len() implies all.timestamps@.contains(
        #[trigger] some.timestamps@[b],
    ) by {
        law_a_part_has_the_edges_of_the_whole(times(inside), times(records), step, b);
        let j = choose|j: int|
            0 <= j < buckets(times(records), step).len() && (#[trigger] buckets(times(records), step)[j]).start
                == buckets(times(inside), step)[b].start;
        assert(all.timestamps@[j] == some.timestamps@[b]);
    }
}

/// A request with nothing but its operation gets every record and every metric:
/// what [`crate::protocol::respond`] answers.
pub proof fn law_a_plain_request_gets_everything<
    N: Fn(u64) -> Option<serde_json::Number>,
    M: Fn(Vec<u64>) -> u64,
>(tree: Tree, shared: Shared, number: N, mean: M, line: Seq<char>)
    requires
        shared.wf(),
        tree.field("from"@) is None,
        tree.field("to"@) is None,
        tree.field("metrics"@) is None,
        tree.field("step_ms"@) is None,
        tree.field("max_points"@) is None,
        tree.field("extremes"@) is None,
        recounts(tree, shared, number, mean, line),
        shared.metrics().len() <= usize::MAX,
    ensures
        responds(Request::Read, shared, number, line),
{
    let columns = Seq::new(shared.metrics().len(), |k: int| k as usize);
    let wanted = options(tree)->Ok_0;
    let records = shared.records();
    lemma_within_everything(records);
    let (figures, history) = choose|figures: Figures, history: History|
        recalls(shared, wanted, columns, mean, figures) && #[trigger] shows(
            number,
            figures,
            names_at(shared.metrics(), columns),
            history,
        ) && line == history_line(history);
    let all = all_columns(records, shared.metrics().len());
    assert(bits_view(figures.series@) =~= all) by {
        assert(values_of(records, columns).map_values(|c: Seq<u64>| known(c)) =~= all);
    }
    assert(names_at(shared.metrics(), columns) =~= crate::protocol::names(shared.metrics()));
    assert(told(number, all, history.series));
    assert(history == (History {
        step: None,
        timestamps: times(records),
        names: crate::protocol::names(shared.metrics()),
        series: history.series,
        extremes: None,
    }));
}

/// Whether a field is left out or holds a whole number.
pub open spec fn none_or_count(field: Option<Tree>) -> bool {
    field is None || field->0.count() is Some
}

/// What each field of a request for history means, and which requests there are: the
/// ends of the range are whole numbers, the first not after the last; the metrics
/// are a list of one name or more; there is a width of at least a millisecond, or a
/// number of points from 2 to 10000, or neither; and extremes, if wanted, go with
/// one of these.
pub proof fn law_what_each_option_means(tree: Tree)
    ensures
        ({
            let from = tree.field("from"@);
            let to = tree.field("to"@);
            let metrics = tree.field("metrics"@);
            let step = tree.field("step_ms"@);
            let points = tree.field("max_points"@);
            let extremes = tree.field("extremes"@);
            &&& options(tree) is Ok <==> {
                &&& none_or_count(from) && none_or_count(to) && none_or_count(step) && none_or_count(points)
                &&& from is Some && to is Some ==> from->0.count()->0 <= to->0.count()->0
                &&& metrics is Some ==> metrics->0 is Array && metrics->0->Array_0.len() > 0 && forall|i: int|
                    0 <= i < metrics->0->Array_0.len() ==> (#[trigger] metrics->0->Array_0[i]) is Text
                &&& step is None || points is None
                &&& step is Some ==> step->0.count()->0 >= 1
                &&& points is Some ==> 2 <= points->0.count()->0 <= 10_000
                &&& extremes is Some ==> extremes->0 is Bool
                &&& extremes == Some(Tree::Bool(true)) ==> step is Some || points is Some
            }
            &&& options(tree) matches Ok(wanted) ==> {
                &&& from is None ==> wanted.from == 0
                &&& from is Some ==> from->0.count() == Some(wanted.from as nat)
                &&& to is None ==> wanted.to == u64::MAX
                &&& to is Some ==> to->0.count() == Some(wanted.to as nat)
                &&& metrics is None == wanted.metrics is None
                &&& metrics is Some ==> wanted.metrics->0.len() == metrics->0->Array_0.len() && forall|i: int|
                    0 <= i < wanted.metrics->0.len() ==> metrics->0->Array_0[i] == Tree::Text(
                        #[trigger] wanted.metrics->0[i],
                    )
                &&& step is Some ==> wanted.detail is Step && step->0.count() == Some(wanted.detail->Step_0 as nat)
                &&& points is Some ==> wanted.detail is Points && points->0.count() == Some(
                    wanted.detail->Points_0 as nat,
                )
                &&& step is None && points is None ==> wanted.detail is Every
                &&& wanted.extremes == (extremes == Some(Tree::Bool(true)))
            }
        }),
{
    let metrics = tree.field("metrics"@);
    if let Some(list) = metrics {
        if list is Array {
            let items = list->Array_0;
            assert(name_list(list).len() == items.len());
            if forall|i: int| 0 <= i < items.len() ==> (#[trigger] items[i]) is Text {
                assert(is_name_list(list));
            } else {
                let i = choose|i: int| 0 <= i < items.len() && !((#[trigger] items[i]) is Text);
                assert(items[i].string() is None);
            }
            if is_name_list(list) {
                assert forall|i: int| 0 <= i < items.len() implies items[i] == Tree::Text(#[trigger] name_list(list)[i]) by {
                    assert(items[i].string() is Some);
                }
                assert forall|i: int| 0 <= i < items.len() implies (#[trigger] items[i]) is Text by {
                    assert(items[i].string() is Some);
                }
            }
        }
    }
}

/// The metrics asked for by name are those that have the names, each once, in the
/// order in which they are first named. If a name is no metric's, it is refused, and
/// if no names are given every metric is meant.
pub proof fn law_metrics_are_found_by_name(metrics: Seq<MetricText>, asked: Seq<Seq<char>>, name: Seq<char>)
    requires
        metrics.len() <= usize::MAX,
        forall|i: int, j: int|
            0 <= i < j < metrics.len() ==> (#[trigger] metrics[i]).name != (#[trigger] metrics[j]).name,
    ensures
        columns_wanted(metrics, None) == Ok::<Seq<usize>, Seq<char>>(Seq::new(metrics.len(), |k: int| k as usize)),
        columns_wanted(metrics, Some(Seq::<Seq<char>>::empty())) == Ok::<Seq<usize>, Seq<char>>(Seq::<usize>::empty()),
        columns_wanted(metrics, Some(asked)) matches Err(unknown) ==> columns_wanted(metrics, Some(asked.push(name)))
            == Err::<Seq<usize>, Seq<char>>(unknown),
        columns_wanted(metrics, Some(asked)) matches Ok(columns) ==> {
            let more = columns_wanted(metrics, Some(asked.push(name)));
            &&& (forall|k: int| 0 <= k < metrics.len() ==> (#[trigger] metrics[k]).name != name) ==> more == Err::<
                Seq<usize>,
                Seq<char>,
            >(name)
            &&& forall|k: int|
                0 <= k < metrics.len() && (#[trigger] metrics[k]).name == name ==> more == Ok::<Seq<usize>, Seq<char>>(
                    if columns.contains(k as usize) {
                        columns
                    } else {
                        columns.push(k as usize)
                    },
                )
        },
{
    let more = asked.push(name);
    assert(more.drop_last() =~= asked);
    assert(more.last() == name);
    if forall|k: int| 0 <= k < metrics.len() ==> (#[trigger] metrics[k]).name != name {
        lemma_position(metrics, name, metrics.len() as int);
    }
    assert forall|k: int| 0 <= k < metrics.len() && (#[trigger] metrics[k]).name == name implies position(metrics, name)
        == k by {
        lemma_position(metrics, name, k);
    }
}

/// How wide buckets are: not at all for every record, as wide as was asked for, or
/// as it takes for the points asked for.
pub proof fn law_how_wide_buckets_are(step: u64, points: u64, timestamps: Seq<u64>, interval: u64)
    requires
        forall|i: int, j: int| 0 <= i < j < timestamps.len() ==> timestamps[i] < timestamps[j],
    ensures
        step_wanted(Detail::Every, timestamps, interval) is None,
        step_wanted(Detail::Step(step), timestamps, interval) == Some(step),
        interval > 0 && timestamps.len() > 0 ==> step_wanted(Detail::Points(points), timestamps, interval) == Some(
            step_for((timestamps[timestamps.len() - 1] - timestamps[0]) as u64, points, interval),
        ),
        interval > 0 && timestamps.len() == 0 ==> step_wanted(Detail::Points(points), timestamps, interval) == Some(
            step_for(0, points, interval),
        ),
{
}

/// What number stands for a value: what is made of its bits if it was measured, and
/// none if it wasn't or there is none.
pub open spec fn stands_as<N: Fn(u64) -> Option<serde_json::Number>>(
    number: N,
    value: Option<u64>,
    cell: Option<serde_json::Number>,
) -> bool {
    if value is Some && is_measured(value->0) {
        call_ensures(number, (value->0,), cell)
    } else {
        cell is None
    }
}

/// History that isn't summarised tells each record in the range, oldest first: its
/// time, and for each metric asked for its name and the record's own value.
pub proof fn law_every_record_in_range_is_told<N: Fn(u64) -> Option<serde_json::Number>, M: Fn(Vec<u64>) -> u64>(
    shared: Shared,
    wanted: Wanted,
    columns: Seq<usize>,
    number: N,
    mean: M,
    line: Seq<char>,
) -> (history: History)
    requires
        tells_of(shared, wanted, columns, number, mean, line),
        wanted.detail is Every,
    ensures
        ({
            let records = within(shared.records(), wanted.from, wanted.to);
            &&& line == history_line(history)
            &&& history.step is None && history.extremes is None
            &&& history.timestamps.len() == records.len()
            &&& forall|i: int| 0 <= i < records.len() ==> #[trigger] history.timestamps[i] == records[i].time
            &&& history.names.len() == columns.len() && history.series.len() == columns.len()
            &&& forall|k: int|
                0 <= k < columns.len() ==> #[trigger] history.names[k] == shared.metrics()[columns[k] as int].name
            &&& forall|k: int| 0 <= k < columns.len() ==> (#[trigger] history.series[k]).len() == records.len()
            &&& forall|k: int, i: int|
                0 <= k < columns.len() && 0 <= i < records.len() ==> stands_as(
                    number,
                    Some(records[i].row[columns[k] as int]),
                    #[trigger] history.series[k][i],
                )
        }),
{
    let records = within(shared.records(), wanted.from, wanted.to);
    let names = names_at(shared.metrics(), columns);
    let (figures, history) = choose|figures: Figures, history: History|
        recalls(shared, wanted, columns, mean, figures) && #[trigger] shows(number, figures, names, history) && line
            == history_line(history);
    let values = values_of(records, columns);
    let all = bits_view(figures.series@);
    assert forall|k: int| 0 <= k < columns.len() implies (#[trigger] history.series[k]).len() == records.len() by {
        assert(all[k] == known(values[k]));
        assert(crate::protocol::rendered(number, all[k], history.series[k]));
    }
    assert forall|k: int, i: int| 0 <= k < columns.len() && 0 <= i < records.len() implies stands_as(
        number,
        Some(records[i].row[columns[k] as int]),
        #[trigger] history.series[k][i],
    ) by {
        assert(all[k] == known(values[k]));
        assert(crate::protocol::rendered(number, all[k], history.series[k]));
        assert(all[k][i] == Some(records[i].row[columns[k] as int]));
    }
    history
}

/// A summary tells each bucket of the records in the range: when it starts, and for
/// each metric asked for its name, the mean of its own values in that bucket, and if
/// they are asked for the least and the greatest of them.
pub proof fn law_every_bucket_is_told<N: Fn(u64) -> Option<serde_json::Number>, M: Fn(Vec<u64>) -> u64>(
    shared: Shared,
    wanted: Wanted,
    columns: Seq<usize>,
    number: N,
    mean: M,
    line: Seq<char>,
    records: Seq<Record>,
    step: u64,
    stretches: Seq<Bucket>,
) -> (told: (Figures, History))
    requires
        tells_of(shared, wanted, columns, number, mean, line),
        !(wanted.detail is Every),
        records == within(shared.records(), wanted.from, wanted.to),
        step_wanted(wanted.detail, times(records), shared.interval_ms) == Some(step),
        stretches == buckets(times(records), step),
    ensures
        line == history_line(told.1),
        told.1.step == Some(step),
        told.1.timestamps.len() == stretches.len(),
        forall|b: int| 0 <= b < stretches.len() ==> told.1.timestamps[b] == (#[trigger] stretches[b]).start,
        told.1.names.len() == columns.len() && told.1.series.len() == columns.len(),
        forall|k: int| 0 <= k < columns.len() ==> told.1.names[k] == shared.metrics()[#[trigger] columns[k] as int].name,
        forall|k: int, b: int| #![trigger columns[k], stretches[b]]
            0 <= k < columns.len() && 0 <= b < stretches.len() ==> averages(
                mean,
                column(records, columns[k] as int).subrange(stretches[b].first as int, stretches[b].end as int),
                told.0.series@[k]@[b],
            ) && stands_as(number, told.0.series@[k]@[b], told.1.series[k][b]),
        told.0.extremes is Some == wanted.extremes,
        told.1.extremes is Some == wanted.extremes,
        wanted.extremes ==> forall|k: int, b: int| #![trigger columns[k], stretches[b]]
            0 <= k < columns.len() && 0 <= b < stretches.len() ==> {
                let values = column(records, columns[k] as int).subrange(
                    stretches[b].first as int,
                    stretches[b].end as int,
                );
                let (low, high) = told.0.extremes->0;
                let (least, greatest) = told.1.extremes->0;
                &&& is_least(values, low@[k]@[b]) && stands_as(number, low@[k]@[b], least[k][b])
                &&& is_greatest(values, high@[k]@[b]) && stands_as(number, high@[k]@[b], greatest[k][b])
            },
{
    let names = names_at(shared.metrics(), columns);
    let (figures, history) = choose|figures: Figures, history: History|
        recalls(shared, wanted, columns, mean, figures) && #[trigger] shows(number, figures, names, history) && line
            == history_line(history);
    let values = values_of(records, columns);
    let all = bits_view(figures.series@);
    assert forall|k: int, b: int| #![trigger columns[k], stretches[b]] 0 <= k < columns.len() && 0 <= b < stretches.len() implies averages(
        mean,
        column(records, columns[k] as int).subrange(stretches[b].first as int, stretches[b].end as int),
        figures.series@[k]@[b],
    ) && stands_as(number, figures.series@[k]@[b], history.series[k][b]) by {
        assert(part(values[k], stretches[b]) == column(records, columns[k] as int).subrange(
            stretches[b].first as int,
            stretches[b].end as int,
        ));
        assert(all[k] == figures.series@[k]@);
        assert(all[k].len() == stretches.len());
        assert(averages(mean, part(values[k], stretches[b]), all[k][b]));
        assert(crate::protocol::rendered(number, all[k], history.series[k]));
    }
    if wanted.extremes {
        let (low, high) = figures.extremes->0;
        let (least, greatest) = history.extremes->0;
        let lows = bits_view(low@);
        let highs = bits_view(high@);
        assert forall|k: int, b: int| #![trigger columns[k], stretches[b]] 0 <= k < columns.len() && 0 <= b < stretches.len() implies {
            let inside = column(records, columns[k] as int).subrange(stretches[b].first as int, stretches[b].end as int);
            &&& is_least(inside, low@[k]@[b]) && stands_as(number, low@[k]@[b], least[k][b])
            &&& is_greatest(inside, high@[k]@[b]) && stands_as(number, high@[k]@[b], greatest[k][b])
        } by {
            assert(part(values[k], stretches[b]) == column(records, columns[k] as int).subrange(
                stretches[b].first as int,
                stretches[b].end as int,
            ));
            assert(lows[k] == low@[k]@ && highs[k] == high@[k]@);
            assert(lows[k].len() == stretches.len() && highs[k].len() == stretches.len());
            assert(is_least(part(values[k], stretches[b]), lows[k][b]));
            assert(is_greatest(part(values[k], stretches[b]), highs[k][b]));
            assert(crate::protocol::rendered(number, lows[k], least[k]));
            assert(crate::protocol::rendered(number, highs[k], greatest[k]));
        }
    }
    (figures, history)
}

/// No objection is made without its reason, and it names the field or the metric.
pub proof fn law_objections_have_their_reason(tree: Tree, field: Seq<char>, name: Seq<char>)
    ensures
        options(tree) matches Err(objection) ==> match objection {
            Objection::NotAWholeNumber(key) => (key == "from"@ || key == "to"@ || key == "step_ms"@ || key == "max_points"@)
                && tree.field(key) is Some && tree.at(key).count() is None,
            Objection::FromAfterTo => tree.at("from"@).count() is Some && tree.at("to"@).count() is Some && tree.at(
                "from"@,
            ).count()->0 > tree.at("to"@).count()->0,
            Objection::MetricsNotNames => tree.field("metrics"@) is Some && !is_name_list(tree.at("metrics"@)),
            Objection::NoMetrics => tree.at("metrics"@) is Array && tree.at("metrics"@)->Array_0.len() == 0,
            Objection::UnknownMetric(_) => false,
            Objection::StepTooSmall => tree.at("step_ms"@).count() == Some(0nat),
            Objection::PointsOutOfRange => tree.at("max_points"@).count() is Some && !(2 <= tree.at(
                "max_points"@,
            ).count()->0 <= 10_000),
            Objection::StepAndPoints => tree.field("step_ms"@) is Some && tree.field("max_points"@) is Some,
            Objection::ExtremesNotABool => tree.field("extremes"@) is Some && !(tree.at("extremes"@) is Bool),
            Objection::ExtremesAlone => tree.at("extremes"@) == Tree::Bool(true) && tree.field("step_ms"@) is None
                && tree.field("max_points"@) is None,
        },
        mentions(Objection::NotAWholeNumber(field).words(), field),
        name.len() <= 40 ==> mentions(Objection::UnknownMetric(name).words(), name),
        name.len() > 40 ==> mentions(Objection::UnknownMetric(name).words(), name.take(40)),
{
    lemma_mentions("\""@, field, "\" must be a whole number"@);
    lemma_mentions("unknown metric '"@, shown(name), "'"@);
}

}
