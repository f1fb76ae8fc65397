//! Bounded in-memory storage for sampled records.
use std::collections::VecDeque;
use std::collections::vec_deque::Iter;
use vstd::prelude::*;
use vstd::std_specs::iter::IteratorSpec;

verus! {

/// A fixed-capacity buffer that discards its oldest item when a new one
/// arrives and it is full.
///
/// Memory use is bounded: the space for `capacity` items is allocated once, up
/// front, and never grows.
#[derive(Debug, Clone)]
pub struct RingBuffer<T> {
    items: VecDeque<T>,
    capacity: usize,
}

/// What a buffer that holds `items` and at most `limit` of them holds once
/// `item` is added.
pub open spec fn pushed<T>(items: Seq<T>, limit: nat, item: T) -> Seq<T> {
    if items.len() >= limit {
        items.drop_first().push(item)
    } else {
        items.push(item)
    }
}

/// What an empty buffer for at most `limit` items holds once all of `added`
/// were added.
pub open spec fn pushed_all<T>(limit: nat, added: Seq<T>) -> Seq<T>
    decreases added.len(),
{
    if added.len() == 0 {
        seq![]
    } else {
        pushed(pushed_all(limit, added.drop_last()), limit, added.last())
    }
}

/// A buffer holds the most recent items, as many as its capacity allows, in
/// the order in which they were added.
pub proof fn law_keeps_the_most_recent<T>(limit: nat, added: Seq<T>)
    requires
        limit > 0,
    ensures
        pushed_all(limit, added) == (if added.len() <= limit {
            added
        } else {
            added.skip(added.len() - limit)
        }),
    decreases added.len(),
{
    if added.len() > 0 {
        let before = added.drop_last();
        law_keeps_the_most_recent(limit, before);
        assert(pushed_all(limit, added) =~= (if added.len() <= limit {
            added
        } else {
            added.skip(added.len() - limit)
        }));
    }
}

impl<T> View for RingBuffer<T> {
    type V = Seq<T>;

    /// The items held, oldest first.
    closed spec fn view(&self) -> Seq<T> {
        self.items@
    }
}

impl<T> RingBuffer<T> {
    /// The most items the buffer will hold.
    pub closed spec fn limit(self) -> nat {
        self.capacity as nat
    }

    /// Whether the buffer has room for an item and holds no more than it has
    /// room for.
    pub open spec fn wf(self) -> bool {
        &&& self.limit() > 0
        &&& self@.len() <= self.limit()
        &&& self.limit() <= usize::MAX
    }

    /// Creates an empty buffer that holds at most `capacity` items.
    #[must_use]
    pub fn new(capacity: usize) -> (buffer: Self)
        requires
            capacity > 0,
            capacity * vstd::layout::size_of::<T>() <= isize::MAX,
        ensures
            buffer.wf(),
            buffer@ == Seq::<T>::empty(),
            buffer.limit() == capacity,
    {
        RingBuffer { items: VecDeque::with_capacity(capacity), capacity }
    }

    /// Adds `item` as the newest entry. If the buffer was already full, the
    /// oldest entry is removed and returned.
    pub fn push(&mut self, item: T) -> (evicted: Option<T>)
        requires
            old(self).wf(),
        ensures
            final(self).wf(),
            final(self).limit() == old(self).limit(),
            final(self)@ == pushed(old(self)@, old(self).limit(), item),
            evicted == (if old(self)@.len() == old(self).limit() {
                Some(old(self)@[0])
            } else {
                None
            }),
    {
        let evicted = if self.items.len() == self.capacity {
            self.items.pop_front()
        } else {
            None
        };
        self.items.push_back(item);
        evicted
    }

    /// The number of items currently held.
    #[must_use]
    pub fn len(&self) -> (n: usize)
        ensures
            n == self@.len(),
    {
        self.items.len()
    }

    /// Whether the buffer holds no items.
    #[must_use]
    pub fn is_empty(&self) -> (r: bool)
        ensures
            r == (self@.len() == 0),
    {
        self.items.len() == 0
    }

    /// The most items the buffer will hold.
    #[must_use]
    pub fn capacity(&self) -> (n: usize)
        ensures
            n == self.limit(),
    {
        self.capacity
    }

    /// The item at position `i`, counted from the oldest.
    #[must_use]
    pub(crate) fn get(&self, i: usize) -> (item: &T)
        requires
            i < self@.len(),
        ensures
            *item == self@[i as int],
    {
        &self.items[i]
    }

    /// Iterates from the oldest item to the newest.
    #[must_use]
    pub fn iter(&self) -> (items: Iter<'_, T>)
        ensures
            items.remaining() == self@.as_ref(),
    {
        self.items.iter()
    }
}

impl<'a, T> IntoIterator for &'a RingBuffer<T> {
    type Item = &'a T;

    type IntoIter = Iter<'a, T>;

    fn into_iter(self) -> (items: Iter<'a, T>)
        ensures
            items.remaining() == self@.as_ref(),
    {
        self.iter()
    }
}

/// One sample: when it was taken and its values, in the schema's order. Each
/// value is the bit pattern of a floating-point number, so that a gap (a value
/// that is not a number) and every other value come back as they went in.
pub ghost struct Record {
    /// Milliseconds since the Unix epoch.
    pub time: u64,
    /// The values.
    pub row: Seq<u64>,
}

/// When each record was taken.
pub open spec fn times(records: Seq<Record>) -> Seq<u64> {
    records.map_values(|r: Record| r.time)
}

/// Every record's value at position `k`.
pub open spec fn column(records: Seq<Record>, k: int) -> Seq<u64> {
    records.map_values(|r: Record| r.row[k])
}

/// The records from time `from` to time `to`, both included.
pub open spec fn within(records: Seq<Record>, from: u64, to: u64) -> Seq<Record> {
    records.filter(|r: Record| from <= r.time <= to)
}

/// Whether each record was taken after the one before it.
pub open spec fn in_time_order(records: Seq<Record>) -> bool {
    forall|i: int, j: int| 0 <= i < j < records.len() ==> (#[trigger] records[i]).time < (#[trigger] records[j]).time
}

/// Why a record was not added.
#[derive(Debug, Clone, Copy, PartialEq, Eq)]
pub enum PushError {
    /// It did not have a value for every metric.
    WrongWidth,
    /// It was not taken after the newest record held.
    OutOfOrder,
}

impl PushError {
    /// The error in words.
    pub open spec fn words(self) -> Seq<char> {
        match self {
            PushError::WrongWidth => "the record does not have a value for every metric"@,
            PushError::OutOfOrder => "the record is not newer than the last"@,
        }
    }

    /// The error in words.
    pub fn message(&self) -> (r: &'static str)
        ensures
            r@ == self.words(),
    {
        match self {
            PushError::WrongWidth => "the record does not have a value for every metric",
            PushError::OutOfOrder => "the record is not newer than the last",
        }
    }
}

/// Records copied out of a [`Store`], as aligned columns, oldest first.
#[derive(Debug, Clone, PartialEq, Eq)]
pub struct Snapshot {
    /// When each record was taken.
    pub timestamps: Vec<u64>,
    /// Each column's values, one for each timestamp.
    pub columns: Vec<Vec<u64>>,
}

impl Snapshot {
    /// Whether this holds the columns `wanted` of `records`.
    pub open spec fn holds(self, records: Seq<Record>, wanted: Seq<usize>) -> bool {
        &&& self.timestamps@ == times(records)
        &&& self.columns@.len() == wanted.len()
        &&& forall|k: int|
            0 <= k < wanted.len() ==> (#[trigger] self.columns@[k])@ == column(records, wanted[k] as int)
    }
}

/// The most recent records, as many as there is room for, in time order.
#[derive(Debug)]
pub struct Store {
    times: RingBuffer<u64>,
    columns: Vec<RingBuffer<u64>>,
}

impl Store {
    /// The most records the store will hold.
    pub closed spec fn limit(self) -> nat {
        self.times.limit()
    }

    /// How many values a record has.
    pub closed spec fn width(self) -> nat {
        self.columns@.len()
    }

    /// The records held, oldest first.
    pub closed spec fn records(self) -> Seq<Record> {
        Seq::new(
            self.times@.len(),
            |i: int|
                Record {
                    time: self.times@[i],
                    row: Seq::new(self.columns@.len(), |k: int| self.columns@[k]@[i]),
                },
        )
    }

    spec fn aligned(self) -> bool {
        &&& self.times.wf()
        &&& forall|k: int|
            0 <= k < self.columns@.len() ==> (#[trigger] self.columns@[k]).wf() && self.columns@[k].limit()
                == self.times.limit() && self.columns@[k]@.len() == self.times@.len()
    }

    /// Whether the store has room for a record, holds no more than it has room
    /// for, and holds them in time order.
    pub closed spec fn wf(self) -> bool {
        self.aligned() && in_time_order(self.records())
    }

    /// How much memory the records take, in bytes, if that can be counted:
    /// eight for the time and eight for each value.
    pub open spec fn size(capacity: nat, width: nat) -> nat {
        capacity * (8 + 8 * width)
    }

    /// How many bytes a store for `capacity` records of `width` values takes,
    /// unless that is too many to count.
    #[must_use]
    pub fn bytes_for(capacity: usize, width: usize) -> (bytes: Option<usize>)
        ensures
            match bytes {
                Some(n) => n == Self::size(capacity as nat, width as nat),
                None => Self::size(capacity as nat, width as nat) > usize::MAX || 8 + 8 * width > usize::MAX,
            },
    {
        match width.checked_mul(8) {
            None => None,
            Some(values) => match values.checked_add(8) {
                None => None,
                Some(record) => capacity.checked_mul(record),
            },
        }
    }

    /// What a store always keeps to: at most as many records as it has room
    /// for, each with a value for every metric, in time order.
    pub proof fn law_bounded_and_in_order(self)
        requires
            self.wf(),
        ensures
            self.records().len() <= self.limit(),
            0 < self.limit() <= usize::MAX,
            in_time_order(self.records()),
            forall|i: int| 0 <= i < self.records().len() ==> (#[trigger] self.records()[i]).row.len() == self.width(),
    {
    }

    /// An empty store for `capacity` records of `width` values, or nothing if
    /// that much memory can't be had in one piece.
    #[must_use]
    pub fn new(capacity: usize, width: usize) -> (store: Option<Self>)
        requires
            capacity > 0,
        ensures
            store is Some == (Self::size(capacity as nat, width as nat) <= isize::MAX),
            store matches Some(s) ==> s.wf() && s.limit() == capacity && s.width() == width && s.records()
                == Seq::<Record>::empty(),
    {
        broadcast use vstd::layout::layout_of_primitives;

        let bytes: usize = match Self::bytes_for(capacity, width) {
            Some(bytes) => bytes,
            None => {
                proof {
                    assert(capacity * (8 + 8 * width) >= 8 + 8 * width) by (nonlinear_arith)
                        requires
                            capacity >= 1,
                            width >= 0,
                    ;
                }
                return None;
            },
        };
        if bytes > isize::MAX as usize {
            return None;
        }
        proof {
            assert(capacity * 8 <= capacity * (8 + 8 * width)) by (nonlinear_arith)
                requires
                    capacity >= 0,
                    width >= 0,
            ;
        }
        let mut columns: Vec<RingBuffer<u64>> = Vec::with_capacity(width);
        for k in 0..width
            invariant
                capacity > 0,
                capacity * vstd::layout::size_of::<u64>() <= isize::MAX,
                columns@.len() == k,
                forall|j: int|
                    0 <= j < k ==> (#[trigger] columns@[j]).wf() && columns@[j].limit() == capacity
                        && columns@[j]@.len() == 0,
        {
            columns.push(RingBuffer::new(capacity));
        }
        let store = Store { times: RingBuffer::new(capacity), columns };
        assert(store.records() =~= Seq::<Record>::empty());
        Some(store)
    }

    /// The most records the store will hold.
    #[must_use]
    pub fn capacity(&self) -> (n: usize)
        ensures
            n == self.limit(),
    {
        self.times.capacity()
    }

    /// How many records are held.
    #[must_use]
    pub fn len(&self) -> (n: usize)
        ensures
            n == self.records().len(),
    {
        self.times.len()
    }

    /// Whether no records are held.
    #[must_use]
    pub fn is_empty(&self) -> (r: bool)
        ensures
            r == (self.records().len() == 0),
    {
        self.times.is_empty()
    }

    /// Adds a record taken at `time` with the values in `row`, discarding the
    /// oldest record if there is no room. Everything is checked before
    /// anything is changed.
    ///
    /// # Errors
    /// If the row has the wrong number of values, or the record is not newer
    /// than the newest one held.
    pub fn push(&mut self, time: u64, row: &[u64]) -> (r: Result<(), PushError>)
        requires
            old(self).wf(),
        ensures
            final(self).wf(),
            final(self).limit() == old(self).limit(),
            final(self).width() == old(self).width(),
            r == (if row@.len() != old(self).width() {
                Err(PushError::WrongWidth)
            } else if old(self).records().len() > 0 && time <= old(self).records().last().time {
                Err(PushError::OutOfOrder)
            } else {
                Ok(())
            }),
            final(self).records() == (if r is Ok {
                pushed(old(self).records(), old(self).limit(), (Record { time, row: row@ }))
            } else {
                old(self).records()
            }),
    {
        if row.len() != self.columns.len() {
            return Err(PushError::WrongWidth);
        }
        let n = self.times.len();
        if n > 0 && time <= *self.times.get(n - 1) {
            return Err(PushError::OutOfOrder);
        }
        let ghost limit = self.times.limit();
        let ghost before = *self;
        self.times.push(time);
        for k in 0..row.len()
            invariant
                before.aligned(),
                before.times.limit() == limit,
                row@.len() == self.columns@.len(),
                self.columns@.len() == before.columns@.len(),
                self.times.wf(),
                self.times.limit() == limit,
                self.times@ == pushed(before.times@, limit, time),
                forall|j: int| k <= j < self.columns@.len() ==> self.columns@[j] == before.columns@[j],
                forall|j: int|
                    0 <= j < k ==> (#[trigger] self.columns@[j]).wf() && self.columns@[j].limit() == limit
                        && self.columns@[j]@ == pushed(before.columns@[j]@, limit, row@[j]),
        {
            assert(before.columns@[k as int].wf());
            self.columns[k].push(row[k]);
        }
        proof {
            assert forall|j: int| 0 <= j < self.columns@.len() implies (#[trigger] self.columns@[j])@.len()
                == self.times@.len() by {
                assert(before.columns@[j]@.len() == before.times@.len());
            }
            let expected = pushed(before.records(), limit, Record { time, row: row@ });
            assert forall|i: int| 0 <= i < self.times@.len() implies #[trigger] self.records()[i] == expected[i] by {
                assert forall|j: int| 0 <= j < self.columns@.len() implies self.columns@[j]@[i]
                    == #[trigger] expected[i].row[j] by {
                    assert(before.columns@[j]@.len() == before.times@.len());
                    assert(self.columns@[j]@ == pushed(before.columns@[j]@, limit, row@[j]));
                }
                assert(self.records()[i].row =~= expected[i].row);
            }
            assert(self.records() =~= expected);
            assert forall|i: int, j: int| 0 <= i < j < expected.len() implies (#[trigger] expected[i]).time < (
            #[trigger] expected[j]).time by {
                let old_records = before.records();
                let shift: int = if old_records.len() >= limit {
                    1
                } else {
                    0
                };
                assert(expected[i] == old_records[i + shift]);
                if j < expected.len() - 1 {
                    assert(expected[j] == old_records[j + shift]);
                } else if i + shift < old_records.len() - 1 {
                    assert(old_records[i + shift].time < old_records[old_records.len() - 1].time);
                }
            }
        }
        Ok(())
    }

    /// The newest record, if there is one.
    #[must_use]
    pub fn latest(&self) -> (r: Option<(u64, Vec<u64>)>)
        requires
            self.wf(),
        ensures
            match r {
                Some((time, row)) => self.records().len() > 0 && self.records().last() == (Record { time, row: row@ }),
                None => self.records().len() == 0,
            },
    {
        let n = self.times.len();
        if n == 0 {
            return None;
        }
        let mut row: Vec<u64> = Vec::with_capacity(self.columns.len());
        for k in 0..self.columns.len()
            invariant
                self.aligned(),
                0 < n == self.times@.len(),
                row@.len() == k,
                forall|j: int| 0 <= j < k ==> #[trigger] row@[j] == self.columns@[j]@[n - 1],
        {
            assert(self.columns@[k as int]@.len() == self.times@.len());
            row.push(*self.columns[k].get(n - 1));
        }
        assert(row@ =~= self.records().last().row);
        Some((*self.times.get(n - 1), row))
    }

    /// Everything held, as one column for each value.
    #[must_use]
    pub fn snapshot(&self) -> (r: Snapshot)
        requires
            self.wf(),
        ensures
            r.holds(self.records(), Seq::new(self.width(), |k: int| k as usize)),
    {
        let mut wanted: Vec<usize> = Vec::with_capacity(self.columns.len());
        for k in 0..self.columns.len()
            invariant
                wanted@ == Seq::new(k as nat, |j: int| j as usize),
        {
            wanted.push(k);
            assert(wanted@ =~= Seq::new((k + 1) as nat, |j: int| j as usize));
        }
        proof {
            lemma_within_everything(self.records());
        }
        self.select(0, u64::MAX, &wanted)
    }

    /// The columns `wanted` of the records from time `from` to time `to`, both
    /// included.
    #[must_use]
    pub fn select(&self, from: u64, to: u64, wanted: &[usize]) -> (r: Snapshot)
        requires
            self.wf(),
            forall|k: int| 0 <= k < wanted@.len() ==> #[trigger] wanted@[k] < self.width(),
        ensures
            r.holds(within(self.records(), from, to), wanted@),
    {
        let ghost all = self.records();
        let mut timestamps: Vec<u64> = Vec::new();
        assert(times(within(all.take(0), from, to)) =~= Seq::<u64>::empty()) by {
            reveal(Seq::filter);
        }
        let n = self.times.len();
        for i in 0..n
            invariant
                n == self.times@.len(),
                all == self.records(),
                timestamps@ == times(within(all.take(i as int), from, to)),
        {
            let time = *self.times.get(i);
            proof {
                lemma_within_step(all, i as int, from, to);
                assert(all[i as int].time == time);
            }
            if from <= time && time <= to {
                timestamps.push(time);
                assert(timestamps@ =~= times(within(all.take(i + 1), from, to)));
            }
        }
        assert(all.take(n as int) =~= all);
        let mut columns: Vec<Vec<u64>> = Vec::new();
        for j in 0..wanted.len()
            invariant
                self.wf(),
                all == self.records(),
                n == self.times@.len(),
                all.take(n as int) == all,
                forall|k: int| 0 <= k < wanted@.len() ==> #[trigger] wanted@[k] < self.width(),
                columns@.len() == j,
                forall|k: int|
                    0 <= k < j ==> (#[trigger] columns@[k])@ == column(within(all, from, to), wanted@[k] as int),
        {
            let w: usize = wanted[j];
            let mut values: Vec<u64> = Vec::new();
            assert(column(within(all.take(0), from, to), w as int) =~= Seq::<u64>::empty()) by {
                reveal(Seq::filter);
            }
            assert(self.columns@[w as int]@.len() == self.times@.len());
            for i in 0..n
                invariant
                    n == self.times@.len(),
                    all == self.records(),
                    w < self.columns@.len(),
                    self.columns@[w as int]@.len() == self.times@.len(),
                    values@ == column(within(all.take(i as int), from, to), w as int),
            {
                let time = *self.times.get(i);
                proof {
                    lemma_within_step(all, i as int, from, to);
                    assert(all[i as int].time == time);
                    assert(all[i as int].row[w as int] == self.columns@[w as int]@[i as int]);
                }
                if from <= time && time <= to {
                    values.push(*self.columns[w].get(i));
                    assert(values@ =~= column(within(all.take(i + 1), from, to), w as int));
                }
            }
            columns.push(values);
        }
        Snapshot { timestamps, columns }
    }
}

/// One more record is kept if it is in range.
proof fn lemma_within_step(records: Seq<Record>, i: int, from: u64, to: u64)
    requires
        0 <= i < records.len(),
    ensures
        within(records.take(i + 1), from, to) == (if from <= records[i].time <= to {
            within(records.take(i), from, to).push(records[i])
        } else {
            within(records.take(i), from, to)
        }),
{
    reveal(Seq::filter);
    assert(records.take(i + 1).drop_last() =~= records.take(i));
}

/// The whole of time holds every record.
pub proof fn lemma_within_everything(records: Seq<Record>)
    ensures
        within(records, 0, u64::MAX) == records,
    decreases records.len(),
{
    reveal(Seq::filter);
    if records.len() > 0 {
        lemma_within_everything(records.drop_last());
        assert(records.drop_last().push(records.last()) =~= records);
    } else {
        assert(within(records, 0, u64::MAX) =~= records);
    }
}

/// The records in range are in time order, each in range, and each one of all.
pub proof fn lemma_within_order(records: Seq<Record>, from: u64, to: u64)
    requires
        in_time_order(records),
    ensures
        in_time_order(within(records, from, to)),
        forall|i: int|
            0 <= i < within(records, from, to).len() ==> from <= (#[trigger] within(records, from, to)[i]).time <= to,
        forall|i: int|
            0 <= i < within(records, from, to).len() ==> records.contains(#[trigger] within(records, from, to)[i]),
    decreases records.len(),
{
    reveal(Seq::filter);
    if records.len() > 0 {
        let rest = records.drop_last();
        assert(in_time_order(rest));
        lemma_within_order(rest, from, to);
        let kept = within(rest, from, to);
        let all = within(records, from, to);
        assert forall|i: int| 0 <= i < all.len() implies records.contains(#[trigger] all[i]) by {
            if i < kept.len() {
                assert(rest.contains(kept[i]));
                let j = choose|j: int| 0 <= j < rest.len() && rest[j] == kept[i];
                assert(records[j] == all[i]);
            } else {
                assert(records[records.len() - 1] == all[i]);
            }
        }
        assert forall|i: int, j: int| 0 <= i < j < all.len() implies (#[trigger] all[i]).time < (
        #[trigger] all[j]).time by {
            assert(all[i] == kept[i]);
            if j < kept.len() {
                assert(all[j] == kept[j]);
            } else {
                assert(rest.contains(kept[i]));
                let m = choose|m: int| 0 <= m < rest.len() && rest[m] == kept[i];
                assert(records[m].time < records[records.len() - 1].time);
            }
        }
    }
}

/// There are no more records in range than in all.
pub proof fn lemma_within_len(records: Seq<Record>, from: u64, to: u64)
    ensures
        within(records, from, to).len() <= records.len(),
    decreases records.len(),
{
    reveal(Seq::filter);
    if records.len() > 0 {
        lemma_within_len(records.drop_last(), from, to);
    }
}

/// What was written is what is read: a record that was just added is the newest,
/// and the only one at its time; and every other record stays as it was, but for
/// the oldest if there was no room.
pub proof fn law_what_was_written_is_read(records: Seq<Record>, limit: nat, record: Record)
    requires
        limit > 0,
        in_time_order(records),
        records.len() > 0 ==> records.last().time < record.time,
    ensures
        pushed(records, limit, record).last() == record,
        within(pushed(records, limit, record), record.time, record.time) == seq![record],
        pushed(records, limit, record).drop_last() == (if records.len() < limit {
            records
        } else {
            records.drop_first()
        }),
{
    let all = pushed(records, limit, record);
    let rest = if records.len() < limit {
        records
    } else {
        records.drop_first()
    };
    assert(all =~= rest.push(record));
    assert(all.drop_last() =~= rest);
    reveal(Seq::filter);
    assert forall|i: int| 0 <= i < rest.len() implies (#[trigger] rest[i]).time < record.time by {
        let j = if records.len() < limit {
            i
        } else {
            i + 1
        };
        assert(rest[i] == records[j]);
        if j < records.len() - 1 {
            assert(records[j].time < records[records.len() - 1].time);
        }
    }
    lemma_none_within(rest, record.time);
    assert(within(all, record.time, record.time) =~= seq![record]);
}

/// No record is in a range that starts after all of them.
proof fn lemma_none_within(records: Seq<Record>, from: u64)
    requires
        forall|i: int| 0 <= i < records.len() ==> (#[trigger] records[i]).time < from,
    ensures
        within(records, from, from).len() == 0,
    decreases records.len(),
{
    reveal(Seq::filter);
    if records.len() > 0 {
        let rest = records.drop_last();
        assert forall|i: int| 0 <= i < rest.len() implies (#[trigger] rest[i]).time < from by {
            assert(rest[i] == records[i]);
        }
        lemma_none_within(rest, from);
        assert(records[records.len() - 1].time < from);
    }
}

/// The records in a range are those taken in it, both ends included, in the order in
/// which they were added.
pub proof fn law_a_range_holds_what_was_taken_in_it(records: Seq<Record>, record: Record, from: u64, to: u64)
    ensures
        within(Seq::<Record>::empty(), from, to).len() == 0,
        from <= record.time <= to ==> within(records.push(record), from, to) == within(records, from, to).push(record),
        record.time < from || record.time > to ==> within(records.push(record), from, to) == within(records, from, to),
{
    let more = records.push(record);
    lemma_within_step(more, records.len() as int, from, to);
    assert(more.take(records.len() as int) =~= records);
    assert(more.take(records.len() as int + 1) =~= more);
    reveal(Seq::filter);
}

/// The columns of a history are its records' values, each at the position of its
/// record.
pub proof fn law_columns_are_the_records_values(records: Seq<Record>, k: int, i: int)
    requires
        0 <= i < records.len(),
    ensures
        times(records).len() == records.len(),
        times(records)[i] == records[i].time,
        column(records, k).len() == records.len(),
        column(records, k)[i] == records[i].row[k],
{
}

/// One record more is the newest; the oldest goes if there is no room for it, and
/// every other stays.
pub proof fn law_one_record_more<T>(items: Seq<T>, limit: nat, item: T)
    requires
        limit > 0,
        items.len() <= limit,
    ensures
        items.len() < limit ==> pushed(items, limit, item) == items.push(item),
        items.len() == limit ==> pushed(items, limit, item) == items.skip(1).push(item),
        0 < pushed(items, limit, item).len() <= limit,
{
    if items.len() == limit {
        assert(items.drop_first() =~= items.skip(1));
    }
}

}
