//! What the sampler and the connections share.
use vstd::prelude::*;

use crate::metrics::{MetricText, Schema};
use crate::store::{Record, Store};

verus! {

/// The store and the facts about it that requests need.
#[derive(Debug)]
pub struct Shared {
    /// What each value in a record is.
    pub schema: Schema,
    /// The time between samples, in milliseconds.
    pub interval_ms: u64,
    /// The records.
    pub store: Store,
}

impl Shared {
    /// What is measured.
    pub open spec fn metrics(self) -> Seq<MetricText> {
        self.schema@
    }

    /// The records held, oldest first.
    pub open spec fn records(self) -> Seq<Record> {
        self.store.records()
    }

    /// Whether the store is in order and its records have a value for every
    /// metric.
    pub open spec fn wf(self) -> bool {
        &&& self.store.wf()
        &&& self.store.width() == self.schema@.len()
    }

    /// Shares `store`, whose records follow `schema`, sampled every
    /// `interval_ms`.
    #[must_use]
    pub fn new(schema: Schema, interval_ms: u64, store: Store) -> (shared: Self)
        requires
            store.wf(),
            store.width() == schema@.len(),
        ensures
            shared.wf(),
            shared.schema == schema,
            shared.interval_ms == interval_ms,
            shared.store == store,
    {
        Shared { schema, interval_ms, store }
    }

    /// Read access to the store.
    pub fn read(&self) -> (store: &Store)
        ensures
            *store == self.store,
    {
        &self.store
    }

    /// Write access to the store, for adding a record.
    pub fn write(&mut self) -> (store: &mut Store)
        ensures
            *store == old(self).store,
            final(self).store == *final(store),
            final(self).schema == old(self).schema,
            final(self).interval_ms == old(self).interval_ms,
    {
        &mut self.store
    }
}

}
