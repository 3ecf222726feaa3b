//! The store engine: the key-value table with expiration deadlines,
//! recency tracking and capacity-bounded LRU eviction.
//!
//! One vector holds the entries in recency order, most recently touched
//! first; it is at once the table, the expiration index and the recency
//! queue, so the three can never disagree.  Every operation is specified
//! against `spec_step`, the mathematical transition function of the store.

use crate::commands::{Command, CommandV};
use crate::glob::{
    glob_to_regex, regex_is_valid, regex_match, regex_matches, regex_valid, render_keys,
    spec_glob_regex, spec_render_keys,
};
use crate::numbers::{
    i64_to_string, parse_i64, spec_i64_string, spec_parse_or_zero, spec_wrap_i64,
};
use vstd::prelude::*;
use vstd::string::StringExecFns;

verus! {

/// One stored entry: a key, its value, and an optional deadline after
/// which the entry is logically expired.
pub struct Entry {
    pub key: String,
    pub value: String,
    pub deadline: Option<u64>,
}

/// The ghost shape of one entry.
pub struct EntryM {
    pub key: Seq<char>,
    pub value: Seq<char>,
    pub deadline: Option<u64>,
}

impl View for Entry {
    type V = EntryM;

    open spec fn view(&self) -> EntryM {
        EntryM { key: self.key@, value: self.value@, deadline: self.deadline }
    }
}

/// The store: entries in recency order (most recently touched first),
/// never more than `max_size` of them after an operation completes.
pub struct DataStore {
    entries: Vec<Entry>,
    max_size: usize,
}

/// The ghost shape of the store.
pub struct StoreM {
    pub entries: Seq<EntryM>,
    pub cap: nat,
}

impl View for DataStore {
    type V = StoreM;

    closed spec fn view(&self) -> StoreM {
        StoreM { entries: self.entries@.map_values(|e: Entry| e@), cap: self.max_size as nat }
    }
}

/// The index of the first entry with this key, or -1 when there is none.
pub open spec fn idx_of(s: Seq<EntryM>, k: Seq<char>) -> int
    decreases s.len(),
{
    if s.len() == 0 {
        -1
    } else if s[0].key == k {
        0
    } else if idx_of(s.drop_first(), k) < 0 {
        -1
    } else {
        idx_of(s.drop_first(), k) + 1
    }
}

pub open spec fn spec_has_key(s: Seq<EntryM>, k: Seq<char>) -> bool {
    idx_of(s, k) >= 0
}

pub open spec fn spec_value(s: Seq<EntryM>, k: Seq<char>) -> Seq<char> {
    s[idx_of(s, k)].value
}

pub open spec fn spec_deadline(s: Seq<EntryM>, k: Seq<char>) -> Option<u64> {
    s[idx_of(s, k)].deadline
}

/// The recency queue: the keys in order, most recently touched first.
pub open spec fn spec_keys(s: Seq<EntryM>) -> Seq<Seq<char>> {
    s.map_values(|e: EntryM| e.key)
}

pub open spec fn distinct_keys(s: Seq<EntryM>) -> bool {
    forall|i: int, j: int| 0 <= i < j < s.len() ==> s[i].key != s[j].key
}

impl StoreM {
    /// Well-formed: no key twice, and the capacity holds.
    pub open spec fn wf(self) -> bool {
        distinct_keys(self.entries) && self.entries.len() <= self.cap
    }

    /// The recency queue view, most recently touched first.
    pub open spec fn queue(self) -> Seq<Seq<char>> {
        spec_keys(self.entries)
    }

    /// The table view: each live key mapped to its value.
    pub open spec fn table(self) -> Map<Seq<char>, Seq<char>> {
        Map::new(
            |k: Seq<char>| spec_has_key(self.entries, k),
            |k: Seq<char>| spec_value(self.entries, k),
        )
    }

    /// The expiration index view: each key with a deadline mapped to it.
    pub open spec fn deadlines(self) -> Map<Seq<char>, u64> {
        Map::new(
            |k: Seq<char>| spec_has_key(self.entries, k) && spec_deadline(self.entries, k) is Some,
            |k: Seq<char>| spec_deadline(self.entries, k)->0,
        )
    }
}

/// What `idx_of` finds: a real first occurrence, or proof of absence.
pub proof fn lemma_idx_of(s: Seq<EntryM>, k: Seq<char>)
    ensures
        -1 <= idx_of(s, k) < s.len(),
        idx_of(s, k) >= 0 ==> s[idx_of(s, k)].key == k,
        idx_of(s, k) >= 0 ==> forall|j: int| 0 <= j < idx_of(s, k) ==> s[j].key != k,
        idx_of(s, k) == -1 ==> forall|j: int| 0 <= j < s.len() ==> s[j].key != k,
    decreases s.len(),
{
    if s.len() > 0 && s[0].key != k {
        lemma_idx_of(s.drop_first(), k);
        let d = s.drop_first();
        if idx_of(d, k) >= 0 {
            assert(s[idx_of(s, k)] == d[idx_of(d, k)]);
            assert forall|j: int| 0 <= j < idx_of(s, k) implies s[j].key != k by {
                if j >= 1 {
                    assert(s[j] == d[j - 1]);
                }
            }
        } else {
            assert forall|j: int| 0 <= j < s.len() implies s[j].key != k by {
                if j >= 1 {
                    assert(s[j] == d[j - 1]);
                }
            }
        }
    }
}

/// A first occurrence pins `idx_of` down.
pub proof fn lemma_idx_of_found(s: Seq<EntryM>, k: Seq<char>, i: int)
    requires
        0 <= i < s.len(),
        s[i].key == k,
        forall|j: int| 0 <= j < i ==> s[j].key != k,
    ensures
        idx_of(s, k) == i,
    decreases s.len(),
{
    if i > 0 {
        assert(s[0].key != k);
        assert(forall|j: int|
            1 <= j < s.len() ==> s[j] == #[trigger] s.drop_first()[j - 1]);
        lemma_idx_of_found(s.drop_first(), k, i - 1);
    }
}

/// A key missing everywhere makes `idx_of` -1.
pub proof fn lemma_idx_of_absent(s: Seq<EntryM>, k: Seq<char>)
    requires
        forall|j: int| 0 <= j < s.len() ==> s[j].key != k,
    ensures
        idx_of(s, k) == -1,
{
    lemma_idx_of(s, k);
    if idx_of(s, k) >= 0 {
        assert(s[idx_of(s, k)].key == k);
    }
}

/// A key stands in the recency queue exactly when it stands in the table.
pub proof fn lemma_queue_contains(s: Seq<EntryM>, k: Seq<char>)
    ensures
        spec_keys(s).contains(k) <==> spec_has_key(s, k),
{
    lemma_idx_of(s, k);
    if spec_has_key(s, k) {
        assert(spec_keys(s)[idx_of(s, k)] == k);
    }
    if spec_keys(s).contains(k) {
        let i = choose|i: int| 0 <= i < spec_keys(s).len() && spec_keys(s)[i] == k;
        assert(s[i].key == k);
        if idx_of(s, k) == -1 {
            assert(false);
        }
    }
}

/// The entries after removing a key (the first occurrence, which under
/// distinct keys is the only one).
pub open spec fn spec_remove_key(s: Seq<EntryM>, k: Seq<char>) -> Seq<EntryM> {
    if idx_of(s, k) < 0 {
        s
    } else {
        s.remove(idx_of(s, k))
    }
}

/// The entries after touching `e.key`: any old entry for the key leaves,
/// `e` enters at the front, and if that exceeds the capacity the last
/// entry (the least recently used key) is evicted.
pub open spec fn spec_touch(s: Seq<EntryM>, e: EntryM, cap: nat) -> Seq<EntryM> {
    let t = seq![e] + spec_remove_key(s, e.key);
    if t.len() > cap {
        t.drop_last()
    } else {
        t
    }
}

/// An entry is logically expired once its deadline is not in the future.
pub open spec fn spec_expired(e: EntryM, now: u64) -> bool {
    match e.deadline {
        Some(d) => now >= d,
        None => false,
    }
}

/// The entries after a sweep: exactly the unexpired ones, order kept.
pub open spec fn spec_sweep(s: Seq<EntryM>, now: u64) -> Seq<EntryM> {
    s.filter(|e: EntryM| !spec_expired(e, now))
}

/// Addition that stops at the top of the range instead of overflowing.
pub open spec fn spec_sat_add(a: u64, b: u64) -> u64 {
    if a + b > u64::MAX {
        u64::MAX
    } else {
        (a + b) as u64
    }
}

pub open spec fn reply_ok() -> Seq<char> {
    seq!['O', 'K']
}

pub open spec fn reply_deleted() -> Seq<char> {
    seq!['D', 'e', 'l', 'e', 't', 'e', 'd']
}

pub open spec fn reply_not_found() -> Seq<char> {
    seq!['N', 'o', 't', ' ', 'F', 'o', 'u', 'n', 'd']
}

pub open spec fn reply_invalid_pattern() -> Seq<char> {
    seq!['I', 'n', 'v', 'a', 'l', 'i', 'd', ' ', 'p', 'a', 't', 't', 'e', 'r', 'n']
}

/// A reply as its character sequence, or the absent reply.
pub open spec fn reply_view(r: Option<String>) -> Option<Seq<char>> {
    match r {
        Some(s) => Some(s@),
        None => None,
    }
}

/// `Put` inserts or overwrites, clears any deadline, touches the key, and
/// answers OK.
pub open spec fn spec_put(s: StoreM, key: Seq<char>, value: Seq<char>) -> (StoreM, Option<
    Seq<char>,
>) {
    (
        StoreM {
            entries: spec_touch(s.entries, EntryM { key, value, deadline: None }, s.cap),
            cap: s.cap,
        },
        Some(reply_ok()),
    )
}

/// `Get` first applies the lazy expiration check, then answers the value
/// and touches the key, or answers nothing.
pub open spec fn spec_get_step(s: StoreM, key: Seq<char>, now: u64) -> (StoreM, Option<
    Seq<char>,
>) {
    if !spec_has_key(s.entries, key) {
        (s, None)
    } else {
        let e = s.entries[idx_of(s.entries, key)];
        if spec_expired(e, now) {
            (StoreM { entries: spec_remove_key(s.entries, key), cap: s.cap }, None)
        } else {
            (StoreM { entries: spec_touch(s.entries, e, s.cap), cap: s.cap }, Some(e.value))
        }
    }
}

/// `Delete` removes the key if present and says which of the two happened.
pub open spec fn spec_delete_step(s: StoreM, key: Seq<char>) -> (StoreM, Option<Seq<char>>) {
    if spec_has_key(s.entries, key) {
        (
            StoreM { entries: spec_remove_key(s.entries, key), cap: s.cap },
            Some(reply_deleted()),
        )
    } else {
        (s, Some(reply_not_found()))
    }
}

/// `Expire` gives a present key the deadline `now + seconds` (stopping at
/// the top of the range) and touches it; an absent key is reported.
pub open spec fn spec_expire_step(s: StoreM, key: Seq<char>, seconds: u64, now: u64) -> (StoreM, Option<
    Seq<char>,
>) {
    if spec_has_key(s.entries, key) {
        let e0 = s.entries[idx_of(s.entries, key)];
        (
            StoreM {
                entries: spec_touch(
                    s.entries,
                    EntryM {
                        key,
                        value: e0.value,
                        deadline: Some(spec_sat_add(now, seconds)),
                    },
                    s.cap,
                ),
                cap: s.cap,
            },
            Some(reply_ok()),
        )
    } else {
        (s, Some(reply_not_found()))
    }
}

/// `Incr` and `Decr`: the current value read as a number (absent or
/// unparsable reads as zero), moved by `delta` with two's-complement
/// wrap-around, stored back in decimal form, the key touched, and the new
/// value answered.  A deadline already set stays.
pub open spec fn spec_modify_step(s: StoreM, key: Seq<char>, delta: int) -> (StoreM, Option<
    Seq<char>,
>) {
    let cur = if spec_has_key(s.entries, key) {
        spec_parse_or_zero(spec_value(s.entries, key))
    } else {
        0
    };
    let nv = spec_wrap_i64(cur + delta);
    let dl = if spec_has_key(s.entries, key) {
        spec_deadline(s.entries, key)
    } else {
        None
    };
    (
        StoreM {
            entries: spec_touch(
                s.entries,
                EntryM { key, value: spec_i64_string(nv), deadline: dl },
                s.cap,
            ),
            cap: s.cap,
        },
        Some(spec_i64_string(nv)),
    )
}

/// The keys that a `Keys` command lists: the unexpired ones whose key the
/// translated pattern matches, in recency order.
pub open spec fn spec_keys_matching(s: Seq<EntryM>, rx: Seq<char>, now: u64) -> Seq<Seq<char>> {
    s.filter(|e: EntryM| !spec_expired(e, now) && regex_matches(rx, e.key)).map_values(
        |e: EntryM| e.key,
    )
}

/// `Keys` reads only: the state stays, and the reply renders the matching
/// keys, or reports a pattern the regex engine refuses.
pub open spec fn spec_keys_step(s: StoreM, pattern: Seq<char>, now: u64) -> (StoreM, Option<
    Seq<char>,
>) {
    let rx = spec_glob_regex(pattern);
    if regex_valid(rx) {
        (s, Some(spec_render_keys(spec_keys_matching(s.entries, rx, now))))
    } else {
        (s, Some(reply_invalid_pattern()))
    }
}

/// The transition function of the store: one command executed at one
/// instant, giving the next state and the reply.
pub open spec fn spec_step(s: StoreM, c: CommandV, now: u64) -> (StoreM, Option<Seq<char>>) {
    match c {
        CommandV::Put { key, value } => spec_put(s, key, value),
        CommandV::Get { key } => spec_get_step(s, key, now),
        CommandV::Delete { key } => spec_delete_step(s, key),
        CommandV::Expire { key, seconds } => spec_expire_step(s, key, seconds, now),
        CommandV::Incr { key } => spec_modify_step(s, key, 1),
        CommandV::Decr { key } => spec_modify_step(s, key, -1),
        CommandV::Keys { pattern } => spec_keys_step(s, pattern, now),
    }
}

/// Removing a key keeps the others distinct and leaves no trace of it.
pub proof fn lemma_remove_key_wf(s: Seq<EntryM>, k: Seq<char>)
    requires
        distinct_keys(s),
    ensures
        distinct_keys(spec_remove_key(s, k)),
        spec_remove_key(s, k).len() <= s.len(),
        forall|j: int| 0 <= j < spec_remove_key(s, k).len() ==> spec_remove_key(s, k)[j].key != k,
        !spec_has_key(spec_remove_key(s, k), k),
{
    lemma_idx_of(s, k);
    let i = idx_of(s, k);
    let r = spec_remove_key(s, k);
    if i >= 0 {
        assert forall|j: int| 0 <= j < r.len() implies r[j].key != k by {
            if j < i {
            } else {
                assert(r[j] == s[j + 1]);
            }
        }
        assert forall|a: int, b: int| 0 <= a < b < r.len() implies r[a].key != r[b].key by {
            let sa = if a < i { a } else { a + 1 };
            let sb = if b < i { b } else { b + 1 };
            assert(r[a] == s[sa]);
            assert(r[b] == s[sb]);
        }
    }
    lemma_idx_of_absent(r, k);
}

/// Touching keeps the keys distinct and the capacity; with any room at
/// all, the touched entry stands at the front of the recency order.
pub proof fn lemma_touch_wf(s: Seq<EntryM>, e: EntryM, cap: nat)
    requires
        distinct_keys(s),
        s.len() <= cap,
    ensures
        distinct_keys(spec_touch(s, e, cap)),
        spec_touch(s, e, cap).len() <= cap,
        cap >= 1 ==> spec_touch(s, e, cap).len() >= 1 && spec_touch(s, e, cap)[0] == e && idx_of(
            spec_touch(s, e, cap),
            e.key,
        ) == 0,
{
    lemma_remove_key_wf(s, e.key);
    let rem = spec_remove_key(s, e.key);
    let t0 = seq![e] + rem;
    let t = spec_touch(s, e, cap);
    assert(t0[0] == e);
    assert forall|a: int, b: int| 0 <= a < b < t0.len() implies t0[a].key != t0[b].key by {
        assert(t0[b] == rem[b - 1]);
        if a > 0 {
            assert(t0[a] == rem[a - 1]);
        }
    }
    if t0.len() > cap {
        assert(t == t0.drop_last());
        assert(forall|j: int| 0 <= j < t.len() ==> t[j] == t0[j]);
    }
    if cap >= 1 {
        assert(t.len() >= 1);
        assert(t[0] == e);
    }
}

/// Filtering entries keeps their keys distinct, and every kept entry
/// stood in the sequence before.
pub proof fn lemma_filter_entries_wf(s: Seq<EntryM>, pred: spec_fn(EntryM) -> bool)
    requires
        distinct_keys(s),
    ensures
        distinct_keys(s.filter(pred)),
        s.filter(pred).len() <= s.len(),
        forall|j: int|
            0 <= j < s.filter(pred).len() ==> exists|i: int|
                0 <= i < s.len() && s[i] == #[trigger] s.filter(pred)[j],
    decreases s.len(),
{
    reveal(Seq::filter);
    if s.len() > 0 {
        let d = s.drop_last();
        assert(distinct_keys(d));
        lemma_filter_entries_wf(d, pred);
        let f0 = d.filter(pred);
        let f = s.filter(pred);
        if pred(s.last()) {
            assert(f == f0.push(s.last()));
            assert forall|j: int|
                0 <= j < f.len() implies exists|i: int| 0 <= i < s.len() && s[i] == #[trigger] f[j] by {
                if j < f0.len() {
                    assert(f[j] == f0[j]);
                    let i = choose|i: int| 0 <= i < d.len() && d[i] == f0[j];
                    assert(s[i] == f[j]);
                } else {
                    assert(f[j] == s[s.len() - 1]);
                }
            }
            assert forall|a: int, b: int| 0 <= a < b < f.len() implies f[a].key != f[b].key by {
                if b < f0.len() {
                    assert(f[a] == f0[a] && f[b] == f0[b]);
                } else {
                    assert(f[a] == f0[a]);
                    let i = choose|i: int| 0 <= i < d.len() && d[i] == f0[a];
                    assert(s[i] == f0[a]);
                    assert(s[i].key != s[s.len() - 1].key);
                }
            }
        } else {
            assert(f == f0);
            assert forall|j: int|
                0 <= j < f.len() implies exists|i: int| 0 <= i < s.len() && s[i] == #[trigger] f[j] by {
                let i = choose|i: int| 0 <= i < d.len() && d[i] == f0[j];
                assert(s[i] == f[j]);
            }
        }
    }
}

/// A step from a well-formed store leaves a well-formed store with the
/// same capacity; in particular the capacity bound holds after every
/// command.
pub proof fn lemma_step_preserves_wf(s: StoreM, c: CommandV, now: u64)
    requires
        s.wf(),
    ensures
        spec_step(s, c, now).0.wf(),
        spec_step(s, c, now).0.cap == s.cap,
{
    match c {
        CommandV::Put { key, value } => {
            lemma_touch_wf(s.entries, EntryM { key, value, deadline: None }, s.cap);
        },
        CommandV::Get { key } => {
            if spec_has_key(s.entries, key) {
                let e = s.entries[idx_of(s.entries, key)];
                if spec_expired(e, now) {
                    lemma_remove_key_wf(s.entries, key);
                } else {
                    lemma_touch_wf(s.entries, e, s.cap);
                }
            }
        },
        CommandV::Delete { key } => {
            if spec_has_key(s.entries, key) {
                lemma_remove_key_wf(s.entries, key);
            }
        },
        CommandV::Expire { key, seconds } => {
            if spec_has_key(s.entries, key) {
                let e0 = s.entries[idx_of(s.entries, key)];
                lemma_touch_wf(
                    s.entries,
                    EntryM { key, value: e0.value, deadline: Some(spec_sat_add(now, seconds)) },
                    s.cap,
                );
            }
        },
        CommandV::Incr { key } => {
            lemma_modify_wf(s, key, 1);
        },
        CommandV::Decr { key } => {
            lemma_modify_wf(s, key, -1);
        },
        CommandV::Keys { pattern } => {
        },
    }
}

proof fn lemma_modify_wf(s: StoreM, key: Seq<char>, delta: int)
    requires
        s.wf(),
    ensures
        spec_modify_step(s, key, delta).0.wf(),
        spec_modify_step(s, key, delta).0.cap == s.cap,
{
    let cur = if spec_has_key(s.entries, key) {
        spec_parse_or_zero(spec_value(s.entries, key))
    } else {
        0
    };
    let nv = spec_wrap_i64(cur + delta);
    let dl = if spec_has_key(s.entries, key) {
        spec_deadline(s.entries, key)
    } else {
        None
    };
    lemma_touch_wf(s.entries, EntryM { key, value: spec_i64_string(nv), deadline: dl }, s.cap);
}

fn make_ok() -> (r: String)
    ensures
        r@ == reply_ok(),
{
    proof {
        reveal_strlit("OK");
    }
    let r = String::from_str("OK");
    proof {
        assert(r@ =~= reply_ok());
    }
    r
}

fn make_deleted() -> (r: String)
    ensures
        r@ == reply_deleted(),
{
    proof {
        reveal_strlit("Deleted");
    }
    let r = String::from_str("Deleted");
    proof {
        assert(r@ =~= reply_deleted());
    }
    r
}

fn make_not_found() -> (r: String)
    ensures
        r@ == reply_not_found(),
{
    proof {
        reveal_strlit("Not Found");
    }
    let r = String::from_str("Not Found");
    proof {
        assert(r@ =~= reply_not_found());
    }
    r
}

fn make_invalid_pattern() -> (r: String)
    ensures
        r@ == reply_invalid_pattern(),
{
    proof {
        reveal_strlit("Invalid pattern");
    }
    let r = String::from_str("Invalid pattern");
    proof {
        assert(r@ =~= reply_invalid_pattern());
    }
    r
}

/// Relies on `std::time::SystemTime::now`, read as whole seconds since
/// the Unix epoch; nothing is assumed of the value, and a clock before
/// the epoch reads as zero.
#[verifier::external_body]
pub(crate) fn clock_seconds() -> u64 {
    match std::time::SystemTime::now().duration_since(std::time::UNIX_EPOCH) {
        Ok(d) => d.as_secs(),
        Err(_) => 0,
    }
}

/// One observed step of the store: some instant took the old state and
/// the command to the new state and the reply.
pub open spec fn step_obs(
    s: StoreM,
    c: CommandV,
    now: u64,
    t: StoreM,
    r: Option<Seq<char>>,
) -> bool {
    spec_step(s, c, now) == (t, r)
}

impl DataStore {
    /// A fresh store with the given capacity and nothing in it.
    pub fn new(max_size: usize) -> (r: DataStore)
        ensures
            r@.wf(),
            r@.entries == Seq::<EntryM>::empty(),
            r@.cap == max_size as nat,
    {
        let r = DataStore { entries: Vec::new(), max_size };
        proof {
            assert(r@.entries =~= Seq::<EntryM>::empty());
        }
        r
    }

    /// The index of the first entry with this key, if any.
    fn find_index(&self, key: &String) -> (r: Option<usize>)
        ensures
            match r {
                Some(i) => i < self@.entries.len() && idx_of(self@.entries, key@) == i as int,
                None => idx_of(self@.entries, key@) == -1,
            },
    {
        let mut i: usize = 0;
        while i < self.entries.len()
            invariant
                i <= self@.entries.len(),
                forall|j: int| 0 <= j < i ==> self@.entries[j].key != key@,
            decreases self@.entries.len() - i,
        {
            if self.entries[i].key == *key {
                proof {
                    lemma_idx_of_found(self@.entries, key@, i as int);
                }
                return Some(i);
            }
            i = i + 1;
        }
        proof {
            lemma_idx_of_absent(self@.entries, key@);
        }
        None
    }

    /// Removes the entry with this key, if any; reports whether one left.
    fn remove_entry(&mut self, key: &String) -> (removed: bool)
        ensures
            final(self)@.entries == spec_remove_key(old(self)@.entries, key@),
            final(self)@.cap == old(self)@.cap,
            removed == spec_has_key(old(self)@.entries, key@),
    {
        match self.find_index(key) {
            Some(i) => {
                self.entries.remove(i);
                proof {
                    assert(final(self)@.entries =~= spec_remove_key(old(self)@.entries, key@));
                }
                true
            },
            None => {
                false
            },
        }
    }

    /// Touches the entry's key: removes any entry for it, puts the new
    /// entry at the front of the recency order, and evicts the least
    /// recently used key if the capacity would be exceeded.
    fn touch_entry(&mut self, e: Entry)
        ensures
            final(self)@.entries == spec_touch(old(self)@.entries, e@, old(self)@.cap),
            final(self)@.cap == old(self)@.cap,
    {
        let ghost s0 = old(self)@.entries;
        let ghost em = e@;
        match self.find_index(&e.key) {
            Some(i) => {
                self.entries.remove(i);
            },
            None => {
            },
        }
        proof {
            assert(self@.entries =~= spec_remove_key(s0, em.key));
        }
        let ghost s1 = self@.entries;
        self.entries.insert(0, e);
        proof {
            assert(self@.entries =~= seq![em] + s1);
        }
        if self.entries.len() > self.max_size {
            self.entries.pop();
            proof {
                assert(self@.entries =~= (seq![em] + s1).drop_last());
            }
        }
        proof {
            assert(final(self)@.entries == spec_touch(s0, em, old(self)@.cap));
        }
    }

    /// The lazy per-key expiration check: a present key whose deadline has
    /// passed is removed; anything else stays untouched.
    fn check_expiration(&mut self, key: &String, now: u64)
        ensures
            final(self)@.cap == old(self)@.cap,
            final(self)@.entries == (if spec_has_key(old(self)@.entries, key@) && spec_expired(
                old(self)@.entries[idx_of(old(self)@.entries, key@)],
                now,
            ) {
                spec_remove_key(old(self)@.entries, key@)
            } else {
                old(self)@.entries
            }),
    {
        match self.find_index(key) {
            Some(i) => {
                let expired = match self.entries[i].deadline {
                    Some(d) => now >= d,
                    None => false,
                };
                if expired {
                    self.entries.remove(i);
                    proof {
                        assert(final(self)@.entries =~= spec_remove_key(
                            old(self)@.entries,
                            key@,
                        ));
                    }
                }
            },
            None => {
            },
        }
    }

    /// Inserts or overwrites the entry, clears any deadline, marks the key
    /// most recently used (evicting the least recently used key if the
    /// capacity would be exceeded), and answers OK.
    fn set(&mut self, key: String, value: String) -> (r: Option<String>)
        ensures
            final(self)@ == spec_put(old(self)@, key@, value@).0,
            reply_view(r) == spec_put(old(self)@, key@, value@).1,
    {
        self.touch_entry(Entry { key, value, deadline: None });
        Some(make_ok())
    }

    /// Looks a key up: an expired entry is removed first; a live entry is
    /// touched and its value answered; an absent key answers nothing.
    fn get(&mut self, key: &String, now: u64) -> (r: Option<String>)
        requires
            old(self)@.wf(),
        ensures
            final(self)@ == spec_get_step(old(self)@, key@, now).0,
            reply_view(r) == spec_get_step(old(self)@, key@, now).1,
    {
        let ghost s0 = old(self)@.entries;
        self.check_expiration(key, now);
        proof {
            lemma_idx_of(s0, key@);
            if spec_has_key(s0, key@) && spec_expired(s0[idx_of(s0, key@)], now) {
                lemma_remove_key_wf(s0, key@);
            }
        }
        match self.find_index(key) {
            Some(i) => {
                let e = Entry {
                    key: self.entries[i].key.clone(),
                    value: self.entries[i].value.clone(),
                    deadline: self.entries[i].deadline,
                };
                let reply = e.value.clone();
                self.touch_entry(e);
                Some(reply)
            },
            None => {
                None
            },
        }
    }

    /// Removes the entry for the key and says whether one was there.
    fn delete(&mut self, key: &String) -> (r: Option<String>)
        ensures
            final(self)@ == spec_delete_step(old(self)@, key@).0,
            reply_view(r) == spec_delete_step(old(self)@, key@).1,
    {
        if self.remove_entry(key) {
            Some(make_deleted())
        } else {
            Some(make_not_found())
        }
    }

    /// Gives a present key the deadline `now + seconds` and touches it;
    /// an absent key is reported as not found.
    fn expire(&mut self, key: String, seconds: u64, now: u64) -> (r: Option<String>)
        ensures
            final(self)@ == spec_expire_step(old(self)@, key@, seconds, now).0,
            reply_view(r) == spec_expire_step(old(self)@, key@, seconds, now).1,
    {
        match self.find_index(&key) {
            Some(i) => {
                let value = self.entries[i].value.clone();
                let d = match now.checked_add(seconds) {
                    Some(v) => v,
                    None => u64::MAX,
                };
                proof {
                    assert(d == spec_sat_add(now, seconds));
                }
                self.touch_entry(Entry { key, value, deadline: Some(d) });
                Some(make_ok())
            },
            None => {
                Some(make_not_found())
            },
        }
    }

    /// Adds one to the key's numeric value; see `spec_modify_step`.
    fn incr(&mut self, key: &String) -> (r: Option<String>)
        ensures
            final(self)@ == spec_modify_step(old(self)@, key@, 1).0,
            reply_view(r) == spec_modify_step(old(self)@, key@, 1).1,
    {
        self.modify_by(key, 1)
    }

    /// Takes one from the key's numeric value; see `spec_modify_step`.
    fn decr(&mut self, key: &String) -> (r: Option<String>)
        ensures
            final(self)@ == spec_modify_step(old(self)@, key@, -1).0,
            reply_view(r) == spec_modify_step(old(self)@, key@, -1).1,
    {
        self.modify_by(key, -1)
    }

    /// The shared body of `Incr` and `Decr`: current value read as a
    /// number (absent or unparsable reads as zero), moved by `delta` with
    /// wrap-around, stored back, the key touched, the new value answered.
    fn modify_by(&mut self, key: &String, delta: i64) -> (r: Option<String>)
        requires
            delta == 1 || delta == -1,
        ensures
            final(self)@ == spec_modify_step(old(self)@, key@, delta as int).0,
            reply_view(r) == spec_modify_step(old(self)@, key@, delta as int).1,
    {
        let found = self.find_index(key);
        let cur: i64 = match found {
            Some(i) => match parse_i64(self.entries[i].value.as_str()) {
                Some(v) => v,
                None => 0,
            },
            None => 0,
        };
        let dl: Option<u64> = match found {
            Some(i) => self.entries[i].deadline,
            None => None,
        };
        let nv: i64 = match cur.checked_add(delta) {
            Some(v) => v,
            None => if delta > 0 {
                i64::MIN
            } else {
                i64::MAX
            },
        };
        proof {
            assert(nv as int == spec_wrap_i64(cur as int + delta as int));
        }
        let vs = i64_to_string(nv);
        let reply = vs.clone();
        self.touch_entry(Entry { key: key.clone(), value: vs, deadline: dl });
        Some(reply)
    }

    /// Lists the keys that the glob pattern matches, unexpired ones only,
    /// without touching recency or sweeping anything; a pattern the regex
    /// engine refuses is reported in the reply.
    fn keys(&self, pattern: &String, now: u64) -> (r: Option<String>)
        ensures
            reply_view(r) == spec_keys_step(self@, pattern@, now).1,
    {
        let rx = glob_to_regex(pattern.as_str());
        if !regex_is_valid(rx.as_str()) {
            return Some(make_invalid_pattern());
        }
        let ghost pred = |e: EntryM| !spec_expired(e, now) && regex_matches(rx@, e.key);
        let mut matched: Vec<String> = Vec::new();
        proof {
            reveal(Seq::filter);
            assert(self@.entries.take(0).filter(pred) =~= Seq::<EntryM>::empty());
            assert(matched@.map_values(|s: String| s@) =~= spec_keys_matching(
                self@.entries.take(0),
                rx@,
                now,
            ));
        }
        let mut i: usize = 0;
        while i < self.entries.len()
            invariant
                i <= self@.entries.len(),
                self.entries@.len() == self@.entries.len(),
                rx@ == spec_glob_regex(pattern@),
                regex_valid(rx@),
                pred == (|e: EntryM| !spec_expired(e, now) && regex_matches(rx@, e.key)),
                matched@.map_values(|s: String| s@) == spec_keys_matching(
                    self@.entries.take(i as int),
                    rx@,
                    now,
                ),
            decreases self@.entries.len() - i,
        {
            let live = match self.entries[i].deadline {
                Some(d) => now < d,
                None => true,
            };
            let matches = if live {
                match regex_match(rx.as_str(), self.entries[i].key.as_str()) {
                    Some(b) => b,
                    None => {
                        proof {
                            assert(false);
                        }
                        false
                    },
                }
            } else {
                false
            };
            let ghost before = matched@.map_values(|s: String| s@);
            if matches {
                matched.push(self.entries[i].key.clone());
            }
            proof {
                reveal(Seq::filter);
                let t = self@.entries.take(i + 1);
                assert(t.drop_last() =~= self@.entries.take(i as int));
                assert(t.last() == self@.entries[i as int]);
                assert(matches == pred(self@.entries[i as int]));
                if matches {
                    assert(matched@.map_values(|s: String| s@) =~= before.push(
                        self@.entries[i as int].key,
                    ));
                    assert(t.filter(pred) == t.drop_last().filter(pred).push(t.last()));
                    assert(matched@.map_values(|s: String| s@) =~= spec_keys_matching(
                        t,
                        rx@,
                        now,
                    ));
                } else {
                    assert(t.filter(pred) == t.drop_last().filter(pred));
                }
            }
            i = i + 1;
        }
        proof {
            assert(self@.entries.take(self@.entries.len() as int) =~= self@.entries);
        }
        let out = render_keys(&matched);
        Some(out)
    }

    /// Executes one command at the given instant; the whole behaviour is
    /// `spec_step` of the old state.
    pub fn execute_at(&mut self, command: Command, now: u64) -> (r: Option<String>)
        requires
            old(self)@.wf(),
        ensures
            final(self)@ == spec_step(old(self)@, command@, now).0,
            reply_view(r) == spec_step(old(self)@, command@, now).1,
            final(self)@.wf(),
            final(self)@.cap == old(self)@.cap,
    {
        proof {
            lemma_step_preserves_wf(old(self)@, command@, now);
        }
        match command {
            Command::Put { key, value } => self.set(key, value),
            Command::Get { key } => self.get(&key, now),
            Command::Delete { key } => self.delete(&key),
            Command::Expire { key, seconds } => self.expire(key, seconds, now),
            Command::Incr { key } => self.incr(&key),
            Command::Decr { key } => self.decr(&key),
            Command::Keys { pattern } => self.keys(&pattern, now),
        }
    }

    /// Executes one command at the present instant, whatever the clock
    /// reads: some instant took the old state to the new one by
    /// `spec_step`.
    pub fn execute_command(&mut self, command: Command) -> (r: Option<String>)
        requires
            old(self)@.wf(),
        ensures
            final(self)@.wf(),
            final(self)@.cap == old(self)@.cap,
            exists|now: u64|
                #[trigger] step_obs(old(self)@, command@, now, final(self)@, reply_view(r)),
    {
        let ghost c = command@;
        let now = clock_seconds();
        let r = self.execute_at(command, now);
        proof {
            assert(step_obs(old(self)@, c, now, self@, reply_view(r)));
        }
        r
    }

    /// The sweep at a given instant: every expired entry leaves, at once,
    /// the table, the expiration index and the recency queue; the live
    /// entries keep their order.
    pub fn remove_expired_at(&mut self, now: u64)
        ensures
            final(self)@.entries == spec_sweep(old(self)@.entries, now),
            final(self)@.cap == old(self)@.cap,
    {
        let ghost pred = |e: EntryM| !spec_expired(e, now);
        let mut kept: Vec<Entry> = Vec::new();
        proof {
            reveal(Seq::filter);
            assert(self@.entries.take(0).filter(pred) =~= Seq::<EntryM>::empty());
            assert(kept@.map_values(|e: Entry| e@) =~= self@.entries.take(0).filter(pred));
        }
        let mut i: usize = 0;
        while i < self.entries.len()
            invariant
                i <= self@.entries.len(),
                self.entries@.len() == self@.entries.len(),
                pred == (|e: EntryM| !spec_expired(e, now)),
                kept@.map_values(|e: Entry| e@) == self@.entries.take(i as int).filter(pred),
            decreases self@.entries.len() - i,
        {
            let live = match self.entries[i].deadline {
                Some(d) => now < d,
                None => true,
            };
            let ghost before = kept@.map_values(|e: Entry| e@);
            if live {
                kept.push(
                    Entry {
                        key: self.entries[i].key.clone(),
                        value: self.entries[i].value.clone(),
                        deadline: self.entries[i].deadline,
                    },
                );
            }
            proof {
                reveal(Seq::filter);
                let t = self@.entries.take(i + 1);
                assert(t.drop_last() =~= self@.entries.take(i as int));
                assert(t.last() == self@.entries[i as int]);
                assert(live == pred(self@.entries[i as int]));
                if live {
                    assert(kept@.map_values(|e: Entry| e@) =~= before.push(
                        self@.entries[i as int],
                    ));
                    assert(t.filter(pred) == t.drop_last().filter(pred).push(t.last()));
                } else {
                    assert(t.filter(pred) == t.drop_last().filter(pred));
                }
            }
            i = i + 1;
        }
        proof {
            assert(self@.entries.take(self@.entries.len() as int) =~= self@.entries);
        }
        self.entries = kept;
    }

    /// The periodic sweep, at whatever instant the clock reads.
    pub fn remove_expired_keys(&mut self)
        ensures
            final(self)@.cap == old(self)@.cap,
            exists|now: u64|
                final(self)@.entries == #[trigger] spec_sweep(old(self)@.entries, now),
    {
        let now = clock_seconds();
        self.remove_expired_at(now);
    }
}

/// An entry seen at some index proves its key present.
pub proof fn lemma_has_key_witness(s: Seq<EntryM>, i: int)
    requires
        0 <= i < s.len(),
    ensures
        spec_has_key(s, s[i].key),
{
    lemma_idx_of(s, s[i].key);
    if idx_of(s, s[i].key) == -1 {
        assert(s[i].key != s[i].key);
    }
}

/// Capacity law, eviction half: when a `Put` makes any key other than its
/// own leave the table, the store was full, the put key was new, and the
/// leaver is the last key of the recency queue — the least recently used.
pub proof fn lemma_put_evicts_lru(s: StoreM, key: Seq<char>, value: Seq<char>, now: u64)
    requires
        s.wf(),
    ensures
        forall|k2: Seq<char>|
            spec_has_key(s.entries, k2) && !spec_has_key(
                #[trigger] spec_step(s, CommandV::Put { key, value }, now).0.entries,
                k2,
            ) && k2 != key ==> s.entries.len() == s.cap && !spec_has_key(s.entries, key) && k2
                == s.queue().last(),
{
    let e = EntryM { key, value, deadline: None };
    let t = spec_step(s, CommandV::Put { key, value }, now).0;
    let rem = spec_remove_key(s.entries, key);
    let t0 = seq![e] + rem;
    lemma_idx_of(s.entries, key);
    lemma_remove_key_wf(s.entries, key);
    let i = idx_of(s.entries, key);
    assert forall|k2: Seq<char>|
        spec_has_key(s.entries, k2) && !spec_has_key(t.entries, k2) && k2
            != key implies s.entries.len() == s.cap && !spec_has_key(s.entries, key) && k2
        == s.queue().last() by {
        lemma_idx_of(s.entries, k2);
        let j = idx_of(s.entries, k2);
        assert(s.entries[j].key == k2);
        if i >= 0 {
            // the key was present: the touch drops nothing
            let jr = if j < i {
                j
            } else {
                j - 1
            };
            assert(rem[jr] == s.entries[j]);
            assert(t0.len() == s.entries.len());
            assert(t.entries == t0);
            assert(t.entries[jr + 1] == s.entries[j]);
            lemma_has_key_witness(t.entries, jr + 1);
        } else {
            assert(rem == s.entries);
            if t0.len() <= s.cap {
                assert(t.entries == t0);
                assert(t.entries[j + 1] == s.entries[j]);
                lemma_has_key_witness(t.entries, j + 1);
            } else {
                assert(s.entries.len() == s.cap);
                assert(t.entries == t0.drop_last());
                if j < s.entries.len() - 1 {
                    assert(t.entries[j + 1] == s.entries[j]);
                    lemma_has_key_witness(t.entries, j + 1);
                } else {
                    assert(k2 == s.entries.last().key);
                    assert(s.queue().last() == s.entries.last().key);
                }
            }
        }
    }
}

/// Expiration law: a key whose deadline has passed answers nothing to a
/// `Get` from the deadline on — and that `Get` removes it from the table
/// and the recency queue — and no `Keys` command lists it, whatever the
/// pattern.
pub proof fn lemma_expired_key_is_gone(s: StoreM, key: Seq<char>, now: u64, pattern: Seq<char>)
    requires
        s.wf(),
        spec_has_key(s.entries, key),
        spec_deadline(s.entries, key) is Some,
        now >= spec_deadline(s.entries, key)->0,
    ensures
        spec_step(s, CommandV::Get { key }, now).1 is None,
        !spec_has_key(spec_step(s, CommandV::Get { key }, now).0.entries, key),
        !spec_step(s, CommandV::Get { key }, now).0.queue().contains(key),
        !spec_keys_matching(s.entries, spec_glob_regex(pattern), now).contains(key),
{
    lemma_idx_of(s.entries, key);
    let i = idx_of(s.entries, key);
    assert(spec_expired(s.entries[i], now));
    lemma_remove_key_wf(s.entries, key);
    let t = spec_step(s, CommandV::Get { key }, now).0;
    assert(t.entries == spec_remove_key(s.entries, key));
    lemma_queue_contains(t.entries, key);
    let pred = |e: EntryM| !spec_expired(e, now) && regex_matches(spec_glob_regex(pattern), e.key);
    let m = spec_keys_matching(s.entries, spec_glob_regex(pattern), now);
    if m.contains(key) {
        let f = s.entries.filter(pred);
        let j = choose|j: int| 0 <= j < m.len() && m[j] == key;
        assert(f[j].key == key);
        s.entries.lemma_filter_pred(pred, j);
        lemma_filter_entries_wf(s.entries, pred);
        let w = choose|w: int| 0 <= w < s.entries.len() && s.entries[w] == f[j];
        assert(s.entries[w].key == key);
        if w != i {
            assert(s.entries[i].key == s.entries[w].key);
            assert(false);
        }
        assert(spec_expired(f[j], now));
        assert(false);
    }
}

/// After `Expire(key, 0)` at `now`, the key is dead: a `Get` at any
/// instant from `now` on answers nothing and removes it, and no `Keys`
/// command from `now` on lists it.
pub proof fn lemma_expire_zero_kills(
    s: StoreM,
    key: Seq<char>,
    now: u64,
    now2: u64,
    pattern: Seq<char>,
)
    requires
        s.wf(),
        spec_has_key(s.entries, key),
        now2 >= now,
    ensures
        spec_step(spec_step(s, CommandV::Expire { key, seconds: 0 }, now).0, CommandV::Get { key },
        now2).1 is None,
        !spec_has_key(
            spec_step(
                spec_step(s, CommandV::Expire { key, seconds: 0 }, now).0,
                CommandV::Get { key },
                now2,
            ).0.entries,
            key,
        ),
        !spec_keys_matching(
            spec_step(s, CommandV::Expire { key, seconds: 0 }, now).0.entries,
            spec_glob_regex(pattern),
            now2,
        ).contains(key),
{
    lemma_step_preserves_wf(s, CommandV::Expire { key, seconds: 0 }, now);
    lemma_idx_of(s.entries, key);
    let e0 = s.entries[idx_of(s.entries, key)];
    let e = EntryM { key, value: e0.value, deadline: Some(spec_sat_add(now, 0)) };
    assert(spec_sat_add(now, 0) == now);
    lemma_touch_wf(s.entries, e, s.cap);
    let t = spec_step(s, CommandV::Expire { key, seconds: 0 }, now).0;
    assert(t.entries[0] == e);
    assert(idx_of(t.entries, key) == 0);
    assert(spec_deadline(t.entries, key) == Some(now));
    lemma_expired_key_is_gone(t, key, now2, pattern);
}

/// Sweep law: sweeping keeps the store well formed, leaves no expired
/// entry behind, loses no live key, and a key it removes is gone from the
/// table, the expiration index and the recency queue at once.
pub proof fn lemma_sweep_removes_expired(s: StoreM, now: u64)
    requires
        s.wf(),
    ensures
        (StoreM { entries: spec_sweep(s.entries, now), cap: s.cap }).wf(),
        forall|j: int|
            0 <= j < spec_sweep(s.entries, now).len() ==> !spec_expired(
                #[trigger] spec_sweep(s.entries, now)[j],
                now,
            ),
        forall|k: Seq<char>|
            #![trigger spec_has_key(spec_sweep(s.entries, now), k)]
            spec_has_key(s.entries, k) && !spec_expired(s.entries[idx_of(s.entries, k)], now)
                ==> spec_has_key(spec_sweep(s.entries, now), k),
        forall|k: Seq<char>|
            #![trigger spec_has_key(spec_sweep(s.entries, now), k)]
            !spec_has_key(spec_sweep(s.entries, now), k) ==> !(StoreM {
                entries: spec_sweep(s.entries, now),
                cap: s.cap,
            }).table().contains_key(k) && !(StoreM {
                entries: spec_sweep(s.entries, now),
                cap: s.cap,
            }).deadlines().contains_key(k) && !(StoreM {
                entries: spec_sweep(s.entries, now),
                cap: s.cap,
            }).queue().contains(k),
{
    let pred = |e: EntryM| !spec_expired(e, now);
    let f = spec_sweep(s.entries, now);
    lemma_filter_entries_wf(s.entries, pred);
    assert forall|j: int| 0 <= j < f.len() implies !spec_expired(f[j], now) by {
        s.entries.lemma_filter_pred(pred, j);
    }
    assert forall|k: Seq<char>|
        spec_has_key(s.entries, k) && !spec_expired(s.entries[idx_of(s.entries, k)], now)
        implies #[trigger] spec_has_key(f, k) by {
        lemma_idx_of(s.entries, k);
        let i = idx_of(s.entries, k);
        s.entries.lemma_filter_contains(pred, i);
        let j = choose|j: int| 0 <= j < f.len() && f[j] == s.entries[i];
        lemma_has_key_witness(f, j);
    }
    assert forall|k: Seq<char>| !#[trigger] spec_has_key(f, k) implies !(StoreM {
        entries: f,
        cap: s.cap,
    }).queue().contains(k) by {
        lemma_queue_contains(f, k);
    }
}

/// n increments of `key` under the same store, one after the other.
pub open spec fn spec_incr_n(s: StoreM, key: Seq<char>, n: nat, now: u64) -> StoreM
    decreases n,
{
    if n == 0 {
        s
    } else {
        spec_step(spec_incr_n(s, key, (n - 1) as nat, now), CommandV::Incr { key }, now).0
    }
}

/// Serialized counting law: increments are never lost.  From an absent
/// key, n increments in a row (no other command touching the key in
/// between) leave the key present with the decimal string of exactly n.
pub proof fn lemma_incr_counts(s: StoreM, key: Seq<char>, n: nat, now: u64)
    requires
        s.wf(),
        s.cap >= 1,
        !spec_has_key(s.entries, key),
        1 <= n <= i64::MAX,
    ensures
        spec_incr_n(s, key, n, now).wf(),
        spec_incr_n(s, key, n, now).cap == s.cap,
        idx_of(spec_incr_n(s, key, n, now).entries, key) == 0,
        spec_has_key(spec_incr_n(s, key, n, now).entries, key),
        spec_value(spec_incr_n(s, key, n, now).entries, key) == spec_i64_string(n as int),
    decreases n,
{
    if n == 1 {
        let e = EntryM { key, value: spec_i64_string(1), deadline: None };
        assert(spec_wrap_i64(0int + 1) == 1);
        lemma_step_preserves_wf(s, CommandV::Incr { key }, now);
        lemma_touch_wf(s.entries, e, s.cap);
        assert(spec_incr_n(s, key, 0, now) == s);
        let t = spec_incr_n(s, key, 1, now);
        assert(t.entries == spec_touch(s.entries, e, s.cap));
        assert(t.entries[0] == e);
    } else {
        lemma_incr_counts(s, key, (n - 1) as nat, now);
        let t0 = spec_incr_n(s, key, (n - 1) as nat, now);
        crate::numbers::lemma_parse_i64_string((n - 1) as int);
        assert(spec_parse_or_zero(spec_value(t0.entries, key)) == n - 1);
        assert(spec_wrap_i64((n - 1) as int + 1) == n);
        let dl = spec_deadline(t0.entries, key);
        let e = EntryM { key, value: spec_i64_string(n as int), deadline: dl };
        lemma_step_preserves_wf(t0, CommandV::Incr { key }, now);
        lemma_touch_wf(t0.entries, e, t0.cap);
        let t = spec_incr_n(s, key, n, now);
        assert(t.entries == spec_touch(t0.entries, e, t0.cap));
        assert(t.entries[0] == e);
    }
}

} // verus!
