//! The cache facade: it owns one store engine, serializes access to it,
//! and counts the commands it has completed.
//!
//! Exclusiveness is expressed through `&mut self`: Rust's borrow rules
//! allow at most one in-flight call, so command executions are totally
//! ordered.  A server that takes concurrent connections wraps the facade
//! in the lock of its choosing and holds it across each call; the engine
//! itself stays free of synchronization.

use crate::commands::Command;
use crate::datastore::{
    clock_seconds, reply_view, spec_step, spec_sweep, step_obs, DataStore, EntryM,
    lemma_sweep_removes_expired, StoreM,
};
use vstd::prelude::*;

verus! {

/// The facade: the store, a total-commands counter, and the instant the
/// facade was built (kept for throughput reporting).
pub struct Cache {
    store: DataStore,
    total_commands: u64,
    start_time: u64,
}

impl Cache {
    /// The store behind the facade.
    pub closed spec fn store_view(&self) -> StoreM {
        self.store@
    }

    /// How many commands the facade has completed.
    pub closed spec fn spec_total_commands(&self) -> u64 {
        self.total_commands
    }

    /// The instant the facade was built.
    pub closed spec fn spec_start_time(&self) -> u64 {
        self.start_time
    }

    /// A fresh facade around an empty store with the given capacity.
    pub fn new(max_size: usize) -> (r: Cache)
        ensures
            r.store_view().wf(),
            r.store_view().entries == Seq::<EntryM>::empty(),
            r.store_view().cap == max_size as nat,
            r.spec_total_commands() == 0,
    {
        Cache {
            store: DataStore::new(max_size),
            total_commands: 0,
            start_time: clock_seconds(),
        }
    }

    /// Executes one command under exclusive access and counts it: some
    /// instant took the store through `spec_step`, and the counter moved
    /// up by one (stopping at the top of its range).
    pub fn handle_command(&mut self, command: Command) -> (r: Option<String>)
        requires
            old(self).store_view().wf(),
        ensures
            final(self).store_view().wf(),
            final(self).store_view().cap == old(self).store_view().cap,
            exists|now: u64|
                #[trigger] step_obs(
                    old(self).store_view(),
                    command@,
                    now,
                    final(self).store_view(),
                    reply_view(r),
                ),
            final(self).spec_total_commands() == if old(self).spec_total_commands() == u64::MAX {
                u64::MAX
            } else {
                (old(self).spec_total_commands() + 1) as u64
            },
            final(self).spec_start_time() == old(self).spec_start_time(),
    {
        let r = self.store.execute_command(command);
        self.total_commands = self.total_commands.saturating_add(1);
        r
    }

    /// As `handle_command`, but at a caller-chosen instant: the store
    /// moves by exactly `spec_step`.
    pub fn handle_command_at(&mut self, command: Command, now: u64) -> (r: Option<String>)
        requires
            old(self).store_view().wf(),
        ensures
            final(self).store_view() == spec_step(old(self).store_view(), command@, now).0,
            reply_view(r) == spec_step(old(self).store_view(), command@, now).1,
            final(self).store_view().wf(),
            final(self).spec_total_commands() == if old(self).spec_total_commands() == u64::MAX {
                u64::MAX
            } else {
                (old(self).spec_total_commands() + 1) as u64
            },
            final(self).spec_start_time() == old(self).spec_start_time(),
    {
        let r = self.store.execute_at(command, now);
        self.total_commands = self.total_commands.saturating_add(1);
        r
    }

    /// Sweeps every expired key under exclusive access, at whatever
    /// instant the clock reads.
    pub fn cleanup_expired_keys(&mut self)
        requires
            old(self).store_view().wf(),
        ensures
            final(self).store_view().wf(),
            final(self).store_view().cap == old(self).store_view().cap,
            final(self).spec_total_commands() == old(self).spec_total_commands(),
            exists|now: u64|
                final(self).store_view().entries == #[trigger] spec_sweep(
                    old(self).store_view().entries,
                    now,
                ),
    {
        let now = clock_seconds();
        self.cleanup_expired_at(now);
    }

    /// The sweep at a caller-chosen instant.
    pub fn cleanup_expired_at(&mut self, now: u64)
        requires
            old(self).store_view().wf(),
        ensures
            final(self).store_view().entries == spec_sweep(old(self).store_view().entries, now),
            final(self).store_view().cap == old(self).store_view().cap,
            final(self).store_view().wf(),
            final(self).spec_total_commands() == old(self).spec_total_commands(),
    {
        self.store.remove_expired_at(now);
        proof {
            lemma_sweep_removes_expired(old(self).store_view(), now);
            assert(self.store@ == (StoreM {
                entries: spec_sweep(old(self).store_view().entries, now),
                cap: old(self).store_view().cap,
            }));
        }
    }

    /// The total number of commands completed so far.
    pub fn total_commands(&self) -> (r: u64)
        ensures
            r == self.spec_total_commands(),
    {
        self.total_commands
    }

    /// The instant the facade was built, in clock seconds.
    pub fn start_time(&self) -> (r: u64)
        ensures
            r == self.spec_start_time(),
    {
        self.start_time
    }
}

} // verus!
