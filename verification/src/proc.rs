//! Parsing the kernel's files under `/proc` and `/sys`.
//!
//! The parsers take the file's text and return `None` when it isn't in the
//! expected shape, so a missing or odd file becomes a gap in the data rather
//! than a crash.
use vstd::prelude::*;

use crate::downsample::{is_measured, was_measured};
use crate::text::{
    after_prefix, all_space, chars_of, decimal, law_decimal_is_read, law_first_line, law_first_word,
    law_space_before_words, law_split_once, law_strip_prefix, law_trim, lemma_decimal, lines, lines_of, no_space, same,
    signed, signed_of, slices, split_at_first, split_once, strip_prefix, text_of, trim, trimmed, unbroken, unsigned,
    unsigned_of, words, words_of,
};

verus! {

/// Cumulative CPU time from the first line of `/proc/stat`, in clock ticks.
#[derive(Debug, Clone, Copy, PartialEq, Eq)]
pub struct CpuTimes {
    /// Time spent doing work (everything but idle and waiting for I/O).
    pub busy: u64,
    /// All time, busy or not.
    pub total: u64,
}

/// Memory figures from `/proc/meminfo`, in bytes.
#[derive(Debug, Clone, Copy, PartialEq, Eq)]
pub struct Memory {
    /// Memory in use by programs, not counting reclaimable cache.
    pub used: u64,
    /// Swap space in use.
    pub swap_used: u64,
}

/// One interface's cumulative byte counters from `/proc/net/dev`.
#[derive(Debug, Clone, Copy, PartialEq, Eq)]
pub struct NetCounters {
    /// Bytes received since the interface came up.
    pub rx_bytes: u64,
    /// Bytes sent since the interface came up.
    pub tx_bytes: u64,
}

/// The whole numbers that several words spell, if all of them do.
pub open spec fn numbers(words: Seq<Seq<char>>) -> Option<Seq<nat>>
    decreases words.len(),
{
    if words.len() == 0 {
        Some(seq![])
    } else {
        match (numbers(words.drop_last()), unsigned(words.last(), 10, u64::MAX as nat)) {
            (Some(before), Some(n)) => Some(before.push(n)),
            _ => None,
        }
    }
}

/// What several numbers add up to.
pub open spec fn sum(numbers: Seq<nat>) -> nat
    decreases numbers.len(),
{
    if numbers.len() == 0 {
        0
    } else {
        sum(numbers.drop_last()) + numbers.last()
    }
}

/// What machine numbers are as natural numbers.
pub open spec fn naturals(numbers: Seq<u64>) -> Seq<nat> {
    numbers.map_values(|n: u64| n as nat)
}

proof fn lemma_numbers_none(words: Seq<Seq<char>>, n: int)
    requires
        0 <= n <= words.len(),
        numbers(words.take(n)) is None,
    ensures
        numbers(words) is None,
    decreases words.len(),
{
    if n < words.len() {
        assert(words.drop_last().take(n) =~= words.take(n));
        lemma_numbers_none(words.drop_last(), n);
    } else {
        assert(words.take(n) =~= words);
    }
}

/// The whole numbers that several words spell, if all of them do.
fn numbers_of(words: &[&[char]]) -> (r: Option<Vec<u64>>)
    ensures
        match r {
            Some(found) => numbers(slices(words@)) == Some(naturals(found@)),
            None => numbers(slices(words@)) is None,
        },
{
    let mut found: Vec<u64> = Vec::new();
    let ghost all = slices(words@);
    assert(naturals(found@) =~= Seq::<nat>::empty());
    for i in 0..words.len()
        invariant
            all == slices(words@),
            numbers(all.take(i as int)) == Some(naturals(found@)),
    {
        assert(all.take(i + 1).drop_last() =~= all.take(i as int));
        assert(all.take(i + 1).last() == words@[i as int]@);
        match unsigned_of(words[i], 10, u64::MAX) {
            None => {
                proof {
                    lemma_numbers_none(all, i + 1);
                }
                return None;
            },
            Some(n) => {
                let ghost before = found@;
                found.push(n);
                assert(naturals(found@) =~= naturals(before).push(n as nat));
            },
        }
    }
    assert(all.take(words@.len() as int) =~= all);
    Some(found)
}

/// The first line whose first word is `cpu`.
pub open spec fn cpu_line(lines: Seq<Seq<char>>) -> Option<Seq<char>>
    decreases lines.len(),
{
    if lines.len() == 0 {
        None
    } else if words(lines[0]).len() > 0 && words(lines[0])[0] == "cpu"@ {
        Some(lines[0])
    } else {
        cpu_line(lines.drop_first())
    }
}

/// At most the first eight of several words.
pub open spec fn first_eight(words: Seq<Seq<char>>) -> Seq<Seq<char>> {
    if words.len() > 8 {
        words.take(8)
    } else {
        words
    }
}

/// The times that the fields of a `cpu` line give: at least the four up to
/// idle, and iowait if it is there. All time is the sum, if it can be counted;
/// busy time is all but idle and iowait.
pub open spec fn times_from(fields: Seq<nat>) -> Option<CpuTimes> {
    if fields.len() < 4 || sum(fields) > u64::MAX {
        None
    } else {
        let idle = fields[3];
        let iowait = if fields.len() > 4 {
            fields[4]
        } else {
            0
        };
        Some(CpuTimes { busy: (sum(fields) - idle - iowait) as u64, total: sum(fields) as u64 })
    }
}

/// The CPU times in a `/proc/stat` file.
pub open spec fn cpu_times(stat: Seq<char>) -> Option<CpuTimes> {
    match cpu_line(lines(stat)) {
        None => None,
        Some(line) => match numbers(first_eight(words(line).skip(1))) {
            None => None,
            Some(fields) => times_from(fields),
        },
    }
}

/// Two different fields are part of the sum.
proof fn lemma_sum_of_two(fields: Seq<nat>, i: int, j: int)
    requires
        0 <= i < j < fields.len(),
    ensures
        fields[i] + fields[j] <= sum(fields),
    decreases fields.len(),
{
    if j < fields.len() - 1 {
        lemma_sum_of_two(fields.drop_last(), i, j);
    } else {
        lemma_sum_of_one(fields.drop_last(), i);
    }
}

proof fn lemma_sum_of_one(fields: Seq<nat>, i: int)
    requires
        0 <= i < fields.len(),
    ensures
        fields[i] <= sum(fields),
    decreases fields.len(),
{
    if i < fields.len() - 1 {
        lemma_sum_of_one(fields.drop_last(), i);
    }
}

proof fn lemma_sum_grows(fields: Seq<nat>, n: int)
    requires
        0 <= n <= fields.len(),
    ensures
        sum(fields.take(n)) <= sum(fields),
    decreases fields.len(),
{
    if n < fields.len() {
        assert(fields.drop_last().take(n) =~= fields.take(n));
        lemma_sum_grows(fields.drop_last(), n);
    } else {
        assert(fields.take(n) =~= fields);
    }
}

/// The sum of several numbers, if it can be counted.
fn sum_of(fields: &[u64]) -> (r: Option<u64>)
    ensures
        match r {
            Some(total) => sum(naturals(fields@)) == total,
            None => sum(naturals(fields@)) > u64::MAX,
        },
{
    let ghost all = naturals(fields@);
    let mut total: u64 = 0;
    for i in 0..fields.len()
        invariant
            all == naturals(fields@),
            total == sum(all.take(i as int)),
    {
        assert(all.take(i + 1).drop_last() =~= all.take(i as int));
        match total.checked_add(fields[i]) {
            Some(more) => {
                total = more;
            },
            None => {
                proof {
                    lemma_sum_grows(all, i + 1);
                }
                return None;
            },
        }
    }
    assert(all.take(fields@.len() as int) =~= all);
    Some(total)
}

/// Parses the aggregate `cpu` line of `/proc/stat`:
/// `cpu user nice system idle iowait irq softirq steal guest guest_nice`.
///
/// `guest` time is already counted inside `user`, so only the first eight
/// fields are summed. Idle and iowait both count as not busy.
#[must_use]
pub fn parse_cpu_times(stat: &str) -> (r: Option<CpuTimes>)
    ensures
        r == cpu_times(stat@),
{
    let chars = chars_of(stat);
    let rows = lines_of(&chars);
    let ghost all = lines(stat@);
    assert(all.skip(0) =~= all);
    for i in 0..rows.len()
        invariant
            all == lines(stat@),
            slices(rows@) == all,
            cpu_line(all) == cpu_line(all.skip(i as int)),
    {
        let parts = words_of(rows[i]);
        proof {
            assert(all.skip(i as int)[0] == rows@[i as int]@);
            assert(all.skip(i as int).drop_first() =~= all.skip(i + 1));
            assert(slices(parts@).len() == parts@.len());
            if parts@.len() > 0 {
                assert(slices(parts@)[0] == parts@[0]@);
            }
        }
        if parts.len() > 0 && same(&text_of(parts[0]), "cpu") {
            let end: usize = if parts.len() > 9 {
                9
            } else {
                parts.len()
            };
            let wanted = vstd::slice::slice_subrange(parts.as_slice(), 1, end);
            assert(slices(wanted@) =~= first_eight(words(rows@[i as int]@).skip(1)));
            let fields = match numbers_of(wanted) {
                Some(fields) => fields,
                None => {
                    return None;
                },
            };
            return times_of(&fields);
        }
    }
    None
}

/// The times that the fields of a `cpu` line give.
pub fn times_of(fields: &[u64]) -> (r: Option<CpuTimes>)
    ensures
        r == times_from(naturals(fields@)),
{
    // idle is field 4 and iowait field 5; older kernels lack the later ones.
    if fields.len() < 4 {
        return None;
    }
    let total: u64 = match sum_of(fields) {
        Some(total) => total,
        None => {
            return None;
        },
    };
    let idle: u64 = fields[3];
    let iowait: u64 = if fields.len() > 4 {
        fields[4]
    } else {
        0
    };
    proof {
        let all = naturals(fields@);
        if fields@.len() > 4 {
            lemma_sum_of_two(all, 3, 4);
        } else {
            lemma_sum_of_one(all, 3);
        }
    }
    Some(CpuTimes { busy: total - idle - iowait, total })
}

/// Busy time is never more than all time.
pub proof fn law_busy_is_part_of_total(stat: Seq<char>)
    ensures
        cpu_times(stat) matches Some(times) ==> times.busy <= times.total,
{
    if let Some(line) = cpu_line(lines(stat)) {
        if let Some(fields) = numbers(first_eight(words(line).skip(1))) {
            if fields.len() > 4 {
                lemma_sum_of_two(fields, 3, 4);
            } else if fields.len() == 4 {
                lemma_sum_of_one(fields, 3);
            }
        }
    }
}

/// Time that isn't busy is idle time and time spent waiting for I/O, and no other:
/// the fourth and the fifth number of the line that starts with the word `cpu`.
pub proof fn law_time_not_busy_is_idle_or_waiting(stat: Seq<char>)
    ensures
        cpu_times(stat) matches Some(times) ==> exists|line: Seq<char>, fields: Seq<nat>|
            {
                &&& lines(stat).contains(line)
                &&& words(line).len() > 4
                &&& words(line)[0] == "cpu"@
                &&& #[trigger] spelled(words(line), fields)
                &&& times.total - times.busy == fields[3] + (if fields.len() > 4 {
                    fields[4]
                } else {
                    0
                })
                &&& times.total >= fields[0] + fields[1] + fields[2] + fields[3]
            },
{
    if let Some(times) = cpu_times(stat) {
        let line = cpu_line(lines(stat))->0;
        lemma_cpu_line(lines(stat));
        let after = words(line).skip(1);
        let wanted = first_eight(after);
        let fields = numbers(wanted)->0;
        lemma_numbers(wanted);
        assert forall|i: int| 0 <= i < fields.len() implies unsigned(#[trigger] words(line)[i + 1], 10, u64::MAX as nat)
            == Some(fields[i]) by {
            assert(wanted[i] == words(line)[i + 1]);
        }
        assert(spelled(words(line), fields));
        let four = fields.take(4);
        lemma_sum_grows(fields, 4);
        assert(sum(four) == fields[0] + fields[1] + fields[2] + fields[3]) by {
            reveal_with_fuel(sum, 5);
        }
        if fields.len() > 4 {
            lemma_sum_of_two(fields, 3, 4);
        }
        lemma_sum_of_one(fields, 3);
    }
}

/// Whether `fields` are the numbers that the words after the first spell, at least
/// four and at most eight.
pub open spec fn spelled(words: Seq<Seq<char>>, fields: Seq<nat>) -> bool {
    &&& 4 <= fields.len() <= 8
    &&& fields.len() == 8 || fields.len() == words.len() - 1
    &&& fields.len() < words.len()
    &&& forall|i: int| 0 <= i < fields.len() ==> unsigned(words[i + 1], 10, u64::MAX as nat) == Some(#[trigger] fields[i])
}

proof fn lemma_cpu_line(lines: Seq<Seq<char>>)
    ensures
        cpu_line(lines) matches Some(line) ==> lines.contains(line) && words(line).len() > 0 && words(line)[0] == "cpu"@,
    decreases lines.len(),
{
    if lines.len() > 0 {
        lemma_cpu_line(lines.drop_first());
        assert(lines.contains(lines[0]));
        if let Some(line) = cpu_line(lines.drop_first()) {
            let i = choose|i: int| 0 <= i < lines.drop_first().len() && lines.drop_first()[i] == line;
            assert(lines[i + 1] == line);
        }
    }
}

proof fn lemma_numbers(words: Seq<Seq<char>>)
    ensures
        numbers(words) matches Some(found) ==> found.len() == words.len() && forall|i: int|
            0 <= i < words.len() ==> unsigned(words[i], 10, u64::MAX as nat) == Some(#[trigger] found[i]),
        (exists|i: int| 0 <= i < words.len() && unsigned(#[trigger] words[i], 10, u64::MAX as nat) is None) ==> numbers(
            words,
        ) is None,
    decreases words.len(),
{
    if words.len() > 0 {
        let before = words.drop_last();
        lemma_numbers(before);
        if exists|i: int| 0 <= i < words.len() && unsigned(#[trigger] words[i], 10, u64::MAX as nat) is None {
            let i = choose|i: int| 0 <= i < words.len() && unsigned(#[trigger] words[i], 10, u64::MAX as nat) is None;
            if i < words.len() - 1 {
                assert(before[i] == words[i]);
            }
        }
    }
}

/// Numbers in decimal, each after a space.
pub open spec fn spaced(fields: Seq<u64>) -> Seq<char>
    decreases fields.len(),
{
    if fields.len() == 0 {
        seq![]
    } else {
        seq![' '] + decimal(fields[0] as nat) + spaced(fields.drop_first())
    }
}

/// What is spaced reads back.
proof fn lemma_spaced(fields: Seq<u64>)
    ensures
        words(spaced(fields)) == fields.map_values(|n: u64| decimal(n as nat)),
        unbroken(spaced(fields)),
        fields.len() > 0 ==> spaced(fields).len() > 0 && crate::text::is_space(spaced(fields)[0]) && spaced(fields).last()
            != '\r',
        forall|i: int| 0 <= i < spaced(fields).len() ==> (#[trigger] spaced(fields)[i]) != ':',
    decreases fields.len(),
{
    if fields.len() == 0 {
        law_first_word(seq!['x'], seq![]);
        assert(fields.map_values(|n: u64| decimal(n as nat)) =~= Seq::<Seq<char>>::empty());
    } else {
        let rest = fields.drop_first();
        let first = decimal(fields[0] as nat);
        lemma_spaced(rest);
        lemma_decimal(fields[0] as nat);
        assert forall|i: int| 0 <= i < first.len() implies !crate::text::is_space(#[trigger] first[i]) && first[i] != ':'
            && first[i] != '\n' && first[i] != '\r' by {
            assert(0 <= crate::text::digit_value(first[i]) < 10);
        }
        let text = spaced(fields);
        assert(text =~= seq![' '] + (first + spaced(rest)));
        law_space_before_words(seq![' '], first + spaced(rest));
        if rest.len() == 0 {
            assert(spaced(rest) =~= Seq::<char>::empty());
        }
        law_first_word(first, spaced(rest));
        assert(words(text) =~= fields.map_values(|n: u64| decimal(n as nat)));
        assert forall|i: int| 0 <= i < text.len() implies (#[trigger] text[i]) != ':' && text[i] != '\n' by {
            if 0 < i <= first.len() {
                assert(text[i] == first[i - 1]);
            } else if i > first.len() {
                assert(text[i] == spaced(rest)[i - 1 - first.len()]);
            }
        }
        if rest.len() == 0 {
            assert(text.last() == first[first.len() - 1]);
        } else {
            assert(text.last() == spaced(rest).last());
        }
    }
}

/// Numbers that are written in decimal are read as themselves.
proof fn lemma_numbers_read(fields: Seq<u64>)
    ensures
        numbers(fields.map_values(|n: u64| decimal(n as nat))) == Some(naturals(fields)),
    decreases fields.len(),
{
    let texts = fields.map_values(|n: u64| decimal(n as nat));
    if fields.len() > 0 {
        let before = fields.drop_last();
        lemma_numbers_read(before);
        assert(texts.drop_last() =~= before.map_values(|n: u64| decimal(n as nat)));
        law_decimal_is_read(fields.last() as nat, u64::MAX as nat);
        assert(naturals(before).push(fields.last() as nat) =~= naturals(fields));
    } else {
        assert(naturals(fields) =~= Seq::<nat>::empty());
    }
}

/// The number at position `i`, or nothing if there are fewer.
pub open spec fn or_zero(fields: Seq<u64>, i: int) -> int {
    if i < fields.len() {
        fields[i] as int
    } else {
        0
    }
}

/// A `cpu` line with its numbers after it gives the times: all time is what the
/// first eight (user, nice, system, idle, iowait, irq, softirq and steal) come to,
/// and busy time the same without idle and iowait. An older kernel's line, without
/// the last of them, is as if they were zero, and what comes after the eighth
/// (guest time, which is part of user time) makes no difference.
pub proof fn law_cpu_line_is_read(fields: Seq<u64>, more: Seq<char>)
    ensures
        ({
            let all = or_zero(fields, 0) + or_zero(fields, 1) + or_zero(fields, 2) + or_zero(fields, 3) + or_zero(
                fields,
                4,
            ) + or_zero(fields, 5) + or_zero(fields, 6) + or_zero(fields, 7);
            let busy = or_zero(fields, 0) + or_zero(fields, 1) + or_zero(fields, 2) + or_zero(fields, 5) + or_zero(
                fields,
                6,
            ) + or_zero(fields, 7);
            let times = cpu_times("cpu"@ + spaced(fields) + seq!['\n'] + more);
            if fields.len() < 4 || all > u64::MAX {
                times is None
            } else {
                times matches Some(t) && t.total == all && t.busy == busy
            }
        }),
{
    reveal_strlit("cpu");
    let line = "cpu"@ + spaced(fields);
    lemma_spaced(fields);
    if fields.len() == 0 {
        assert(spaced(fields) =~= Seq::<char>::empty());
        assert(line =~= "cpu"@);
    }
    assert forall|i: int| 0 <= i < line.len() implies #[trigger] line[i] != '\n' by {
        if i >= 3 {
            assert(line[i] == spaced(fields)[i - 3]);
        }
    }
    if fields.len() > 0 {
        assert(line.last() == spaced(fields).last());
    }
    law_first_line(line, more);
    law_first_word("cpu"@, spaced(fields));
    let all = lines("cpu"@ + spaced(fields) + seq!['\n'] + more);
    assert(all[0] == line);
    assert(words(line)[0] == "cpu"@);
    let texts = fields.map_values(|n: u64| decimal(n as nat));
    assert(words(line).skip(1) =~= texts);
    let used = if fields.len() > 8 {
        fields.take(8)
    } else {
        fields
    };
    assert(first_eight(texts) =~= used.map_values(|n: u64| decimal(n as nat)));
    lemma_numbers_read(used);
    reveal_with_fuel(sum, 9);
}

/// A line that doesn't start with the word `cpu` (such as the one for a single
/// core, which starts with `cpu0`) makes no difference before the one that does.
pub proof fn law_other_lines_are_passed_over(line: Seq<char>, stat: Seq<char>)
    requires
        unbroken(line),
        line.len() > 0 ==> line.last() != '\r',
        words(line).len() == 0 || words(line)[0] != "cpu"@,
    ensures
        cpu_times(line + seq!['\n'] + stat) == cpu_times(stat),
        cpu_times(Seq::<char>::empty()) is None,
{
    law_first_line(line, stat);
    let all = lines(line + seq!['\n'] + stat);
    assert(all.drop_first() =~= lines(stat));
}

/// A `cpu` line in which one of the first eight fields isn't a number gives no
/// times.
pub proof fn law_a_field_that_is_no_number_gives_no_times(stat: Seq<char>, i: int)
    requires
        lines(stat).len() > 0,
        words(lines(stat)[0]).len() > 0,
        words(lines(stat)[0])[0] == "cpu"@,
        1 <= i <= 8,
        i < words(lines(stat)[0]).len(),
        unsigned(words(lines(stat)[0])[i], 10, u64::MAX as nat) is None,
    ensures
        cpu_times(stat) is None,
{
    let wanted = first_eight(words(lines(stat)[0]).skip(1));
    lemma_numbers(wanted);
    assert(wanted[i - 1] == words(lines(stat)[0])[i]);
}

/// The first word of a `/proc/loadavg` file (`0.07 0.02 0.00 1/307 3187`): the
/// 1-minute load.
pub fn load1_word(loadavg: &str) -> (r: Option<String>)
    ensures
        match r {
            Some(word) => words(loadavg@).len() > 0 && word@ == words(loadavg@)[0],
            None => words(loadavg@).len() == 0,
        },
{
    let chars = chars_of(loadavg);
    let parts = words_of(&chars);
    assert(slices(parts@).len() == parts@.len());
    if parts.len() > 0 {
        assert(slices(parts@)[0] == parts@[0]@);
        Some(text_of(parts[0]))
    } else {
        None
    }
}

/// What follows `key` and a colon in the first line that starts with them.
pub open spec fn entry(lines: Seq<Seq<char>>, key: Seq<char>) -> Option<Seq<char>>
    decreases lines.len(),
{
    if lines.len() == 0 {
        None
    } else {
        match strip_prefix(lines[0], key) {
            Some(after) => match strip_prefix(after, ":"@) {
                Some(value) => Some(value),
                None => entry(lines.drop_first(), key),
            },
            None => entry(lines.drop_first(), key),
        }
    }
}

/// The whole number that the first word of the entry for `key` is.
pub open spec fn figure(meminfo: Seq<char>, key: Seq<char>) -> Option<nat> {
    match entry(lines(meminfo), key) {
        None => None,
        Some(value) => if words(value).len() == 0 {
            None
        } else {
            unsigned(words(value)[0], 10, u64::MAX as nat)
        },
    }
}

/// The bytes in use, given the KiB there are and the KiB that are left: none
/// if more are left than there are, and at most what can be counted.
pub open spec fn bytes_used(total: nat, left: nat) -> u64 {
    if left >= total {
        0
    } else if (total - left) * 1024 > u64::MAX {
        u64::MAX
    } else {
        ((total - left) * 1024) as u64
    }
}

/// The memory figures in a `/proc/meminfo` file.
pub open spec fn memory(meminfo: Seq<char>) -> Option<Memory> {
    match (
        figure(meminfo, "MemTotal"@),
        figure(meminfo, "MemAvailable"@),
        figure(meminfo, "SwapTotal"@),
        figure(meminfo, "SwapFree"@),
    ) {
        (Some(total), Some(available), Some(swap_total), Some(swap_free)) => Some(
            Memory { used: bytes_used(total, available), swap_used: bytes_used(swap_total, swap_free) },
        ),
        _ => None,
    }
}

/// Memory figures are there exactly when each of the four numbers is, whatever the
/// numbers are, and then each figure is 1024 times what one number of its pair is
/// above the other: nothing if it is below, and at most what can be counted.
pub proof fn law_memory_is_what_is_not_left(meminfo: Seq<char>)
    ensures
        memory(meminfo) is Some == (figure(meminfo, "MemTotal"@) is Some && figure(meminfo, "MemAvailable"@) is Some
            && figure(meminfo, "SwapTotal"@) is Some && figure(meminfo, "SwapFree"@) is Some),
        memory(meminfo) matches Some(m) ==> {
            let total = figure(meminfo, "MemTotal"@)->0;
            let available = figure(meminfo, "MemAvailable"@)->0;
            let swap = figure(meminfo, "SwapTotal"@)->0;
            let free = figure(meminfo, "SwapFree"@)->0;
            &&& total < available ==> m.used == 0
            &&& total >= available && (total - available) * 1024 <= u64::MAX ==> m.used == (total - available) * 1024
            &&& total >= available && (total - available) * 1024 > u64::MAX ==> m.used == u64::MAX
            &&& swap < free ==> m.swap_used == 0
            &&& swap >= free && (swap - free) * 1024 <= u64::MAX ==> m.swap_used == (swap - free) * 1024
            &&& swap >= free && (swap - free) * 1024 > u64::MAX ==> m.swap_used == u64::MAX
        },
{
}

/// The figure for a name is the number that follows the name and a colon, on the
/// first line that starts with them; any other line makes no difference.
pub proof fn law_figures_are_found_by_name(
    key: Seq<char>,
    gap: Seq<char>,
    n: u64,
    unit: Seq<char>,
    other: Seq<char>,
    more: Seq<char>,
)
    requires
        unbroken(key),
        all_space(gap),
        unbroken(gap),
        unbroken(unit),
        unit.len() > 0 ==> crate::text::is_space(unit[0]) && unit.last() != '\r',
        unbroken(other),
        other.len() > 0 ==> other.last() != '\r',
        !(key + ":"@).is_prefix_of(other),
    ensures
        figure(key + ":"@ + gap + decimal(n as nat) + unit + seq!['\n'] + more, key) == Some(n as nat),
        figure(other + seq!['\n'] + more, key) == figure(more, key),
        figure(Seq::<char>::empty(), key) is None,
{
    lemma_figure_is_found(key, gap, n, unit, more);
    lemma_other_entry(key, other, more);
    law_first_line(seq![], seq![]);
}

proof fn lemma_figure_is_found(key: Seq<char>, gap: Seq<char>, n: u64, unit: Seq<char>, more: Seq<char>)
    requires
        unbroken(key),
        all_space(gap),
        unbroken(gap),
        unbroken(unit),
        unit.len() > 0 ==> crate::text::is_space(unit[0]) && unit.last() != '\r',
    ensures
        figure(key + ":"@ + gap + decimal(n as nat) + unit + seq!['\n'] + more, key) == Some(n as nat),
{
    let number = decimal(n as nat);
    let value = gap + number + unit;
    let line = key + ":"@ + gap + number + unit;
    lemma_entry_line(key, gap, n, unit);
    law_first_line(line, more);
    let all = lines(line + seq!['\n'] + more);
    assert(all[0] == line);
    law_strip_prefix(key, ":"@ + value, line);
    law_strip_prefix(":"@, value, line);
    assert(entry(all, key) == Some(value));
    law_decimal_is_read(n as nat, u64::MAX as nat);
}

proof fn lemma_entry_line(key: Seq<char>, gap: Seq<char>, n: u64, unit: Seq<char>)
    requires
        unbroken(key),
        all_space(gap),
        unbroken(gap),
        unbroken(unit),
        unit.len() > 0 ==> crate::text::is_space(unit[0]) && unit.last() != '\r',
    ensures
        ({
            let value = gap + decimal(n as nat) + unit;
            let line = key + ":"@ + gap + decimal(n as nat) + unit;
            &&& line == key + (":"@ + value)
            &&& unbroken(line)
            &&& line.last() != '\r'
            &&& words(value).len() > 0
            &&& words(value)[0] == decimal(n as nat)
        }),
{
    reveal_strlit(":");
    let number = decimal(n as nat);
    lemma_decimal(n as nat);
    assert forall|i: int| 0 <= i < number.len() implies !crate::text::is_space(#[trigger] number[i]) && number[i] != '\n'
        && number[i] != '\r' by {
        assert(0 <= crate::text::digit_value(number[i]) < 10);
    }
    let value = gap + number + unit;
    let line = key + ":"@ + gap + number + unit;
    assert(line =~= key + (":"@ + value));
    assert forall|i: int| 0 <= i < line.len() implies #[trigger] line[i] != '\n' by {
        let k = key.len() as int;
        let g = gap.len() as int;
        if i < k {
            assert(line[i] == key[i]);
        } else if i > k && i < k + 1 + g {
            assert(line[i] == gap[i - k - 1]);
        } else if i >= k + 1 + g && i < k + 1 + g + number.len() {
            assert(line[i] == number[i - k - 1 - g]);
        } else if i > k {
            assert(line[i] == unit[i - k - 1 - g - number.len()]);
        }
    }
    if unit.len() > 0 {
        assert(line.last() == unit.last());
    } else {
        assert(line.last() == number[number.len() - 1]);
    }
    assert(value =~= gap + (number + unit));
    law_space_before_words(gap, number + unit);
    law_first_word(number, unit);
    assert(words(value)[0] == number);
}

proof fn lemma_other_entry(key: Seq<char>, other: Seq<char>, more: Seq<char>)
    requires
        unbroken(other),
        other.len() > 0 ==> other.last() != '\r',
        !(key + ":"@).is_prefix_of(other),
    ensures
        figure(other + seq!['\n'] + more, key) == figure(more, key),
{
    law_first_line(other, more);
    let rest = lines(other + seq!['\n'] + more);
    assert(rest[0] == other);
    assert(rest.drop_first() =~= lines(more));
    if let Some(after) = strip_prefix(other, key) {
        law_strip_prefix(key, after, other);
        if let Some(end) = strip_prefix(after, ":"@) {
            law_strip_prefix(":"@, end, after);
            assert(other =~= (key + ":"@) + end);
            assert(other.take((key + ":"@).len() as int) =~= key + ":"@);
        }
    }
}

/// The whole number that the first word of the entry for `key` is.
fn figure_of(meminfo: &[char], key: &str) -> (r: Option<u64>)
    ensures
        match r {
            Some(n) => figure(meminfo@, key@) == Some(n as nat),
            None => figure(meminfo@, key@) is None,
        },
{
    let rows = lines_of(meminfo);
    let ghost all = lines(meminfo@);
    assert(all.skip(0) =~= all);
    for i in 0..rows.len()
        invariant
            all == lines(meminfo@),
            slices(rows@) == all,
            entry(all, key@) == entry(all.skip(i as int), key@),
    {
        proof {
            assert(all.skip(i as int)[0] == rows@[i as int]@);
            assert(all.skip(i as int).drop_first() =~= all.skip(i + 1));
        }
        if let Some(after) = after_prefix(rows[i], key) {
            if let Some(value) = after_prefix(after, ":") {
                let parts = words_of(value);
                assert(slices(parts@).len() == parts@.len());
                if parts.len() == 0 {
                    return None;
                }
                assert(slices(parts@)[0] == parts@[0]@);
                return unsigned_of(parts[0], 10, u64::MAX);
            }
        }
    }
    None
}

/// The bytes in use, given the KiB there are and the KiB that are left.
fn used(total: u64, left: u64) -> (r: u64)
    ensures
        r == bytes_used(total as nat, left as nat),
{
    match total.saturating_sub(left).checked_mul(1024) {
        Some(bytes) => bytes,
        None => u64::MAX,
    }
}

/// Parses `/proc/meminfo`. "Used" is `MemTotal - MemAvailable`, not
/// `MemTotal - MemFree`: Linux keeps spare memory as cache, so "free" is
/// always small, while "available" is what programs could actually get.
#[must_use]
pub fn parse_memory(meminfo: &str) -> (r: Option<Memory>)
    ensures
        r == memory(meminfo@),
{
    let chars = chars_of(meminfo);
    let total: u64 = match figure_of(&chars, "MemTotal") {
        Some(n) => n,
        None => {
            return None;
        },
    };
    let available: u64 = match figure_of(&chars, "MemAvailable") {
        Some(n) => n,
        None => {
            return None;
        },
    };
    let swap_total: u64 = match figure_of(&chars, "SwapTotal") {
        Some(n) => n,
        None => {
            return None;
        },
    };
    let swap_free: u64 = match figure_of(&chars, "SwapFree") {
        Some(n) => n,
        None => {
            return None;
        },
    };
    Some(Memory { used: used(total, available), swap_used: used(swap_total, swap_free) })
}

/// Parses a thermal zone's `temp` file, which holds millidegrees Celsius.
#[must_use]
pub fn parse_temperature(temp: &str) -> (r: Option<i64>)
    ensures
        match r {
            Some(milli) => signed(trim(temp@)) == Some(milli as int),
            None => signed(trim(temp@)) is None,
        },
{
    let chars = chars_of(temp);
    signed_of(trimmed(&chars))
}

/// What a list of named counters says, a later entry overriding an earlier one
/// of the same name.
pub open spec fn table_of(entries: Seq<(String, NetCounters)>) -> Map<Seq<char>, NetCounters>
    decreases entries.len(),
{
    if entries.len() == 0 {
        Map::empty()
    } else {
        table_of(entries.drop_last()).insert(entries.last().0@, entries.last().1)
    }
}

/// Byte counters by interface name. There are only ever a few interfaces, and a
/// list of them can be compared, copied and shown.
#[derive(Debug, PartialEq, Eq)]
pub struct NetTable {
    entries: Vec<(String, NetCounters)>,
}

impl View for NetTable {
    type V = Map<Seq<char>, NetCounters>;

    /// The counters by interface name.
    closed spec fn view(&self) -> Map<Seq<char>, NetCounters> {
        table_of(self.entries@)
    }
}

/// Whether each name occurs once.
spec fn names_differ(entries: Seq<(String, NetCounters)>) -> bool {
    forall|a: int, b: int| 0 <= a < b < entries.len() ==> (#[trigger] entries[a]).0@ != (#[trigger] entries[b]).0@
}

/// An entry that no other overrides is what the table says.
proof fn lemma_table_entry(entries: Seq<(String, NetCounters)>, i: int)
    requires
        0 <= i < entries.len(),
        names_differ(entries),
    ensures
        table_of(entries).contains_key(entries[i].0@),
        table_of(entries)[entries[i].0@] == entries[i].1,
    decreases entries.len(),
{
    if i < entries.len() - 1 {
        let before = entries.drop_last();
        assert forall|a: int, b: int| 0 <= a < b < before.len() implies (#[trigger] before[a]).0@ != (
        #[trigger] before[b]).0@ by {
            assert(entries[a].0@ != entries[b].0@);
        }
        lemma_table_entry(before, i);
        assert(entries[i].0@ != entries[entries.len() - 1].0@);
    }
}

/// The table has the names of its entries, and no others.
proof fn lemma_table_names(entries: Seq<(String, NetCounters)>, name: Seq<char>)
    requires
        table_of(entries).contains_key(name),
    ensures
        exists|i: int| 0 <= i < entries.len() && (#[trigger] entries[i]).0@ == name,
    decreases entries.len(),
{
    if entries.last().0@ == name {
        assert(entries[entries.len() - 1].0@ == name);
    } else {
        lemma_table_names(entries.drop_last(), name);
        let i = choose|i: int| 0 <= i < entries.len() - 1 && (#[trigger] entries.drop_last()[i]).0@ == name;
        assert(entries[i].0@ == name);
    }
}

/// A table without repeated names has as many names as entries.
proof fn lemma_table_len(entries: Seq<(String, NetCounters)>)
    requires
        names_differ(entries),
    ensures
        table_of(entries).dom().finite(),
        table_of(entries).dom().len() == entries.len(),
    decreases entries.len(),
{
    if entries.len() > 0 {
        let before = entries.drop_last();
        assert forall|a: int, b: int| 0 <= a < b < before.len() implies (#[trigger] before[a]).0@ != (
        #[trigger] before[b]).0@ by {
            assert(entries[a].0@ != entries[b].0@);
        }
        lemma_table_len(before);
        if table_of(before).contains_key(entries.last().0@) {
            lemma_table_names(before, entries.last().0@);
            let i = choose|i: int| 0 <= i < before.len() && (#[trigger] before[i]).0@ == entries.last().0@;
            assert(entries[i].0@ != entries[entries.len() - 1].0@);
        }
        assert(table_of(entries).dom() =~= table_of(before).dom().insert(entries.last().0@));
    }
}

impl NetTable {
    /// Each name occurs once.
    #[verifier::type_invariant]
    spec fn distinct(self) -> bool {
        names_differ(self.entries@)
    }

    /// A table with no interfaces.
    #[must_use]
    pub fn new() -> (table: Self)
        ensures
            table@ == Map::<Seq<char>, NetCounters>::empty(),
    {
        NetTable { entries: Vec::new() }
    }

    fn position(&self, name: &str) -> (r: Option<usize>)
        ensures
            match r {
                Some(i) => i < self.entries@.len() && self.entries@[i as int].0@ == name@,
                None => !self@.contains_key(name@),
            },
    {
        for i in 0..self.entries.len()
            invariant
                forall|j: int| 0 <= j < i ==> (#[trigger] self.entries@[j]).0@ != name@,
        {
            if same(self.entries[i].0.as_str(), name) {
                return Some(i);
            }
        }
        proof {
            if self@.contains_key(name@) {
                lemma_table_names(self.entries@, name@);
            }
        }
        None
    }

    /// The counters of the interface called `name`.
    #[must_use]
    pub fn get(&self, name: &str) -> (r: Option<NetCounters>)
        ensures
            r == (if self@.contains_key(name@) {
                Some(self@[name@])
            } else {
                None
            }),
    {
        match self.position(name) {
            Some(i) => {
                proof {
                    use_type_invariant(self);
                    lemma_table_entry(self.entries@, i as int);
                }
                Some(self.entries[i].1)
            },
            None => None,
        }
    }

    /// Sets the counters of the interface called `name`.
    pub fn insert(&mut self, name: String, counters: NetCounters)
        ensures
            final(self)@ == old(self)@.insert(name@, counters),
    {
        proof {
            use_type_invariant(&*self);
        }
        let place = self.position(&name);
        let ghost before = self.entries@;
        let mut entries: Vec<(String, NetCounters)> = Vec::new();
        std::mem::swap(&mut entries, &mut self.entries);
        match place {
            Some(i) => {
                entries.set(i, (name, counters));
                proof {
                    lemma_table_set(before, i as int, entries@);
                }
            },
            None => {
                entries.push((name, counters));
                proof {
                    assert(entries@.drop_last() =~= before);
                    assert forall|a: int, b: int| 0 <= a < b < entries@.len() implies (#[trigger] entries@[a]).0@ != (
                    #[trigger] entries@[b]).0@ by {
                        if b == entries@.len() - 1 {
                            lemma_table_entry(before, a);
                        } else {
                            assert(before[a].0@ != before[b].0@);
                        }
                    }
                }
            },
        }
        self.entries = entries;
    }

    /// How many interfaces there are.
    #[must_use]
    pub fn len(&self) -> (n: usize)
        ensures
            n == self@.dom().len(),
    {
        proof {
            use_type_invariant(self);
            lemma_table_len(self.entries@);
        }
        self.entries.len()
    }
}

impl Clone for NetTable {
    /// The same table again.
    fn clone(&self) -> (table: Self)
        ensures
            table@ == self@,
    {
        proof {
            use_type_invariant(self);
        }
        let mut entries: Vec<(String, NetCounters)> = Vec::with_capacity(self.entries.len());
        for i in 0..self.entries.len()
            invariant
                entries@ == self.entries@.take(i as int),
        {
            entries.push((self.entries[i].0.clone(), self.entries[i].1));
            assert(entries@ =~= self.entries@.take(i + 1));
        }
        assert(entries@ =~= self.entries@);
        NetTable { entries }
    }
}

/// Setting the entry at `i` sets the counters of its name.
proof fn lemma_table_set(before: Seq<(String, NetCounters)>, i: int, after: Seq<(String, NetCounters)>)
    requires
        names_differ(before),
        0 <= i < before.len(),
        after == before.update(i, after[i]),
        after[i].0@ == before[i].0@,
    ensures
        names_differ(after),
        table_of(after) == table_of(before).insert(after[i].0@, after[i].1),
{
    assert forall|a: int, b: int| 0 <= a < b < after.len() implies (#[trigger] after[a]).0@ != (#[trigger] after[b]).0@ by {
        assert(before[a].0@ != before[b].0@);
    }
    let wanted = table_of(before).insert(after[i].0@, after[i].1);
    assert forall|k: Seq<char>| #[trigger] table_of(after).contains_key(k) implies wanted.contains_key(k) && table_of(
        after,
    )[k] == wanted[k] by {
        lemma_table_names(after, k);
        let j = choose|j: int| 0 <= j < after.len() && (#[trigger] after[j]).0@ == k;
        lemma_table_entry(after, j);
        lemma_table_entry(before, j);
    }
    assert forall|k: Seq<char>| #[trigger] wanted.contains_key(k) implies table_of(after).contains_key(k) by {
        if k == after[i].0@ {
            lemma_table_entry(after, i);
        } else {
            lemma_table_names(before, k);
            let j = choose|j: int| 0 <= j < before.len() && (#[trigger] before[j]).0@ == k;
            lemma_table_entry(after, j);
        }
    }
    assert(table_of(after) =~= wanted);
}

/// The name and the counters that a line of `/proc/net/dev` gives: the name, a
/// colon, then eight receive fields (bytes first) and eight transmit fields
/// (bytes first), no more and no fewer.
pub open spec fn net_line(line: Seq<char>) -> Option<(Seq<char>, NetCounters)> {
    match split_once(line, ':') {
        None => None,
        Some((name, counters)) => match numbers(words(counters)) {
            None => None,
            Some(fields) => if fields.len() != 16 {
                None
            } else {
                Some((trim(name), NetCounters { rx_bytes: fields[0] as u64, tx_bytes: fields[8] as u64 }))
            },
        },
    }
}

/// The counters that lines of `/proc/net/dev` give, by interface name. A later
/// line for a name overrides an earlier one.
pub open spec fn net_lines(lines: Seq<Seq<char>>) -> Map<Seq<char>, NetCounters>
    decreases lines.len(),
{
    if lines.len() == 0 {
        Map::empty()
    } else {
        match net_line(lines.last()) {
            Some((name, counters)) => net_lines(lines.drop_last()).insert(name, counters),
            None => net_lines(lines.drop_last()),
        }
    }
}

/// An interface's line gives its name, and as bytes received and sent the first and
/// the ninth of its sixteen numbers. A line with another number of them, or without
/// a colon, gives nothing.
pub proof fn law_interface_line_is_read(gap: Seq<char>, name: Seq<char>, fields: Seq<u64>, other: Seq<char>)
    requires
        all_space(gap),
        name.len() > 0,
        no_space(name),
        !name.contains(':'),
        !other.contains(':'),
    ensures
        fields.len() == 16 ==> net_line(gap + name + seq![':'] + spaced(fields)) == Some(
            (name, NetCounters { rx_bytes: fields[0], tx_bytes: fields[8] }),
        ),
        fields.len() != 16 ==> net_line(gap + name + seq![':'] + spaced(fields)) is None,
        net_line(other) is None,
{
    let before = gap + name;
    assert(!before.contains(':')) by {
        if before.contains(':') {
            let i = choose|i: int| 0 <= i < before.len() && before[i] == ':';
            if i < gap.len() {
                assert(crate::text::is_space(gap[i]));
            } else {
                assert(name[i - gap.len()] == ':');
            }
        }
    }
    law_split_once(before, ':', spaced(fields));
    lemma_spaced(fields);
    lemma_numbers_read(fields);
    law_trim(gap, name, seq![]);
    assert(gap + name + seq![] =~= before);
    law_split_once(other, ':', seq![]);
}

/// A later line decides what the counters of its interface are, leaves those of
/// every other as they are, and if it is no interface's changes nothing.
pub proof fn law_later_lines_decide(lines: Seq<Seq<char>>, line: Seq<char>, name: Seq<char>)
    ensures
        net_line(line) is None ==> net_lines(lines.push(line)) == net_lines(lines),
        net_line(line) matches Some((named, counters)) ==> {
            let after = net_lines(lines.push(line));
            &&& after.contains_key(named) && after[named] == counters
            &&& name != named ==> after.contains_key(name) == net_lines(lines).contains_key(name)
            &&& name != named && after.contains_key(name) ==> after[name] == net_lines(lines)[name]
        },
        net_lines(Seq::<Seq<char>>::empty()) == Map::<Seq<char>, NetCounters>::empty(),
{
    assert(lines.push(line).drop_last() =~= lines);
}

/// The name and the counters that a line of `/proc/net/dev` gives.
fn net_line_of(line: &[char]) -> (r: Option<(String, NetCounters)>)
    ensures
        match r {
            Some((name, counters)) => net_line(line@) == Some((name@, counters)),
            None => net_line(line@) is None,
        },
{
    let (name, counters) = match split_at_first(line, ':') {
        Some(parts) => parts,
        None => {
            return None;
        },
    };
    let parts = words_of(counters);
    let fields = match numbers_of(&parts) {
        Some(fields) => fields,
        None => {
            return None;
        },
    };
    if fields.len() != 16 {
        return None;
    }
    Some((text_of(trimmed(name)), NetCounters { rx_bytes: fields[0], tx_bytes: fields[8] }))
}

/// Parses `/proc/net/dev`. Each interface line is `name: ` followed by eight
/// receive fields (bytes first) and eight transmit fields (bytes first).
/// Lines that don't fit that shape, such as the two header lines, are skipped.
#[must_use]
pub fn parse_net_dev(net_dev: &str) -> (table: NetTable)
    ensures
        table@ == net_lines(lines(net_dev@)),
{
    let chars = chars_of(net_dev);
    let rows = lines_of(&chars);
    let ghost all = lines(net_dev@);
    let mut table = NetTable::new();
    for i in 0..rows.len()
        invariant
            slices(rows@) == all,
                table@ == net_lines(all.take(i as int)),
    {
        proof {
            assert(all.take(i + 1).drop_last() =~= all.take(i as int));
            assert(all.take(i + 1).last() == rows@[i as int]@);
        }
        if let Some((name, counters)) = net_line_of(rows[i]) {
            table.insert(name, counters);
        }
    }
    assert(all.take(rows@.len() as int) =~= all);
    table
}

/// Everything read from the machine in one pass. A field is `None` (or an
/// interface absent) when it couldn't be read.
#[derive(Debug, Clone, PartialEq, Eq)]
pub struct Readings {
    /// CPU time counters.
    pub cpu: Option<CpuTimes>,
    /// The 1-minute load average, as the bit pattern of a floating-point number.
    pub load1: Option<u64>,
    /// Memory and swap use.
    pub memory: Option<Memory>,
    /// CPU temperature in thousandths of a degree Celsius.
    pub temperature: Option<i64>,
    /// Byte counters by interface name.
    pub net: NetTable,
}

impl Default for Readings {
    /// Nothing could be read.
    fn default() -> (r: Self)
        ensures
            r.cpu is None,
            r.load1 is None,
            r.memory is None,
            r.temperature is None,
            r.net@ == Map::<Seq<char>, NetCounters>::empty(),
    {
        Readings { cpu: None, load1: None, memory: None, temperature: None, net: NetTable::new() }
    }
}

/// The text of each file that readings come from, if it could be read.
#[derive(Debug, Clone)]
pub struct Files {
    /// `/proc/stat`.
    pub stat: Option<String>,
    /// `/proc/meminfo`.
    pub meminfo: Option<String>,
    /// `/sys/class/thermal/thermal_zone0/temp`.
    pub temp: Option<String>,
    /// `/proc/net/dev`.
    pub net_dev: Option<String>,
}

impl Readings {
    /// What the files say, with the load average already made a number: one
    /// that isn't finite is no load. Anything that can't be read is left empty.
    #[must_use]
    pub fn from_files(files: &Files, load1: Option<u64>) -> (r: Readings)
        ensures
            r.load1 == (match load1 {
                Some(bits) => if is_measured(bits) {
                    Some(bits)
                } else {
                    None
                },
                None => None,
            }),
            r.cpu == (match files.stat {
                Some(text) => cpu_times(text@),
                None => None,
            }),
            r.memory == (match files.meminfo {
                Some(text) => memory(text@),
                None => None,
            }),
            r.temperature matches Some(milli) ==> files.temp is Some && signed(trim(files.temp->0@)) == Some(
                milli as int,
            ),
            r.temperature is None ==> files.temp is None || signed(trim(files.temp->0@)) is None,
            r.net@ == (match files.net_dev {
                Some(text) => net_lines(lines(text@)),
                None => Map::empty(),
            }),
    {
        let cpu = match &files.stat {
            Some(text) => parse_cpu_times(text),
            None => None,
        };
        let memory = match &files.meminfo {
            Some(text) => parse_memory(text),
            None => None,
        };
        let temperature = match &files.temp {
            Some(text) => parse_temperature(text),
            None => None,
        };
        let net = match &files.net_dev {
            Some(text) => parse_net_dev(text),
            None => NetTable::new(),
        };
        let load1 = match load1 {
            Some(bits) => if was_measured(bits) {
                Some(bits)
            } else {
                None
            },
            None => None,
        };
        Readings { cpu, load1, memory, temperature, net }
    }
}

}
