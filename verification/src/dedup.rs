use vstd::prelude::*;
use crate::table::Table;
use crate::types::DebugInfo;

verus! {

/// The deduplication exchange: an operation identical to one in flight waits for that one's
/// result instead of running.
pub struct DedupExchange;

/// The error that a waiting operation gets when the one it waited for is gone.
pub struct DedupError;

/// The operations in flight, each with the tickets of the operations waiting for it.
pub struct InFlight {
    pub operations: Table<u64, Vec<u64>>,
}

impl InFlight {
    pub open spec fn wf(&self) -> bool {
        self.operations.wf()
    }

    /// The waiting tickets of each operation in flight.
    pub open spec fn waiting(&self) -> Map<u64, Seq<u64>> {
        self.operations@.map_values(|v: Vec<u64>| v@)
    }

    pub fn new() -> (f: InFlight)
        ensures
            f.wf(),
            f.waiting() == Map::<u64, Seq<u64>>::empty(),
    {
        let f = InFlight { operations: Table::new() };
        assert(f.waiting() =~= Map::<u64, Seq<u64>>::empty());
        f
    }

    /// An operation arrives. When an identical one is in flight it waits for it, under
    /// `ticket`, and `false` is returned; else it is in flight from now on, with no one
    /// waiting, and `true` says to run it.
    pub fn begin(&mut self, key: u64, ticket: u64) -> (run: bool)
        requires
            old(self).wf(),
        ensures
            final(self).wf(),
            run == !old(self).waiting().contains_key(key),
            run ==> final(self).waiting() == old(self).waiting().insert(key, Seq::empty()),
            !run ==> final(self).waiting() == old(self).waiting().insert(key, old(self).waiting()[key].push(ticket)),
    {
        match self.operations.remove(&key) {
            Some(v) => {
                let mut v = v;
                v.push(ticket);
                self.operations.insert(key, v);
                assert(self.waiting() =~= old(self).waiting().insert(key, old(self).waiting()[key].push(ticket)));
                false
            },
            None => {
                self.operations.insert(key, Vec::new());
                assert(self.waiting() =~= old(self).waiting().insert(key, Seq::empty()));
                true
            },
        }
    }

    /// The operation in flight is done: it is no longer in flight, and the tickets waiting
    /// for it are returned in the order they came, to be given its result.
    pub fn finish(&mut self, key: u64) -> (tickets: Vec<u64>)
        requires
            old(self).wf(),
            old(self).waiting().contains_key(key),
        ensures
            final(self).wf(),
            tickets@ == old(self).waiting()[key],
            final(self).waiting() == old(self).waiting().remove(key),
    {
        match self.operations.remove(&key) {
            Some(v) => {
                assert(self.waiting() =~= old(self).waiting().remove(key));
                v
            },
            None => Vec::new(),
        }
    }
}

/// The debug information of a result handed to an operation that waited for it: the same,
/// marked as deduplicated.
pub fn make_deduped_result(debug_info: Option<DebugInfo>) -> (r: Option<DebugInfo>)
    ensures
        match debug_info {
            Some(d) => r == Some(DebugInfo { did_dedup: true, ..d }),
            None => r is None,
        },
{
    match debug_info {
        Some(d) => Some(DebugInfo { source: d.source, did_dedup: true }),
        None => None,
    }
}

} // verus!
