//! Which response the bot gave to which command message, so that an edited
//! command edits the response and a deleted command deletes it.
//!
//! The entries live in an `indexmap::IndexMap` keyed by the command
//! message's id, in insertion order.

use vstd::prelude::*;
use indexmap::IndexMap;

verus! {

/// The maximum age of a message whose edit is replayed: one hour.
pub const HOUR: u64 = 3600;

#[verifier::external_type_specification]
#[verifier::external_body]
#[verifier::reject_recursive_types(K)]
#[verifier::reject_recursive_types(V)]
#[verifier::reject_recursive_types(S)]
pub struct ExIndexMap<K, V, S>(IndexMap<K, V, S>);

/// The entries of an index map from message id to message id, in the map's
/// order.
pub uninterp spec fn index_map_entries(m: IndexMap<u64, u64>) -> Seq<(u64, u64)>;

/// No two entries share a key.
pub open spec fn distinct_keys(e: Seq<(u64, u64)>) -> bool {
    forall|i: int, j: int| 0 <= i < j < e.len() ==> #[trigger] e[i].0 != #[trigger] e[j].0
}

/// Whether some entry has key `k`.
pub open spec fn has_key(e: Seq<(u64, u64)>, k: u64) -> bool {
    exists|i: int| 0 <= i < e.len() && #[trigger] e[i].0 == k
}

/// The value stored under `k`, if any.
pub open spec fn lookup(e: Seq<(u64, u64)>, k: u64) -> Option<u64> {
    if has_key(e, k) {
        Some(e[choose|i: int| 0 <= i < e.len() && #[trigger] e[i].0 == k].1)
    } else {
        None
    }
}

/// `IndexMap::new`: an empty map.
#[verifier::external_body]
fn index_map_new() -> (m: IndexMap<u64, u64>)
    ensures
        index_map_entries(m) == Seq::<(u64, u64)>::empty(),
{
    IndexMap::new()
}

/// `IndexMap::insert`: an existing key keeps its place and takes the new
/// value, and the old value is returned; a new key goes last.
#[verifier::external_body]
fn index_map_insert(m: &mut IndexMap<u64, u64>, k: u64, v: u64) -> (r: Option<u64>)
    ensures
        distinct_keys(index_map_entries(*old(m))) ==> forall|i: int|
            0 <= i < index_map_entries(*old(m)).len() && #[trigger] index_map_entries(*old(m))[i].0 == k
                ==> index_map_entries(*final(m)) == index_map_entries(*old(m)).update(i, (k, v))
                    && r == Some(index_map_entries(*old(m))[i].1),
        !has_key(index_map_entries(*old(m)), k) ==> index_map_entries(*final(m)) == index_map_entries(*old(m)).push((k, v))
            && r is None,
{
    m.insert(k, v)
}

/// `IndexMap::get`: the value of an entry with key `k`, if there is one.
#[verifier::external_body]
fn index_map_get(m: &IndexMap<u64, u64>, k: u64) -> (r: Option<u64>)
    ensures
        r matches Some(v) ==> exists|i: int|
            0 <= i < index_map_entries(*m).len() && #[trigger] index_map_entries(*m)[i] == (k, v),
        r is None ==> !has_key(index_map_entries(*m), k),
{
    m.get(&k).copied()
}

/// `IndexMap::remove` (a swap removal): the entry with key `k` is replaced
/// by the last entry, which is then dropped; its value is returned.
#[verifier::external_body]
fn index_map_remove(m: &mut IndexMap<u64, u64>, k: u64) -> (r: Option<u64>)
    ensures
        distinct_keys(index_map_entries(*old(m))) ==> forall|i: int|
            0 <= i < index_map_entries(*old(m)).len() && #[trigger] index_map_entries(*old(m))[i].0 == k
                ==> index_map_entries(*final(m)) == index_map_entries(*old(m)).update(i, index_map_entries(*old(m)).last()).drop_last()
                    && r == Some(index_map_entries(*old(m))[i].1),
        !has_key(index_map_entries(*old(m)), k) ==> index_map_entries(*final(m)) == index_map_entries(*old(m))
            && r is None,
{
    m.remove(&k)
}

/// `IndexMap::len`: the number of entries.
#[verifier::external_body]
fn index_map_len(m: &IndexMap<u64, u64>) -> (r: usize)
    ensures
        r == index_map_entries(*m).len(),
{
    m.len()
}

/// `IndexMap::drain(..end)`, with the drained entries dropped: the first
/// `end` entries are removed and the others keep their order.
#[verifier::external_body]
fn index_map_drain_front(m: &mut IndexMap<u64, u64>, end: usize)
    requires
        end <= index_map_entries(*old(m)).len(),
    ensures
        index_map_entries(*final(m)) == index_map_entries(*old(m)).subrange(end as int, index_map_entries(*old(m)).len() as int),
{
    m.drain(..end);
}

/// The responses of the bot, keyed by the id of the command message.
pub struct CommandHistory {
    map: IndexMap<u64, u64>,
}

impl View for CommandHistory {
    type V = Seq<(u64, u64)>;

    closed spec fn view(&self) -> Seq<(u64, u64)> {
        index_map_entries(self.map)
    }
}

impl CommandHistory {
    /// Each command message has at most one entry.
    #[verifier::type_invariant]
    spec fn keys_distinct(&self) -> bool {
        distinct_keys(index_map_entries(self.map))
    }

    /// An empty history.
    pub fn new() -> (r: Self)
        ensures
            r@ == Seq::<(u64, u64)>::empty(),
    {
        CommandHistory { map: index_map_new() }
    }

    /// The number of entries.
    pub fn len(&self) -> (r: usize)
        ensures
            r == self@.len(),
    {
        index_map_len(&self.map)
    }

    /// The response recorded for `command`, if any.
    pub fn response(&self, command: u64) -> (r: Option<u64>)
        ensures
            r == lookup(self@, command),
    {
        proof {
            use_type_invariant(self);
        }
        let r = index_map_get(&self.map, command);
        proof {
            if let Some(v) = r {
                let i = choose|i: int| 0 <= i < self@.len() && #[trigger] self@[i] == (command, v);
                assert(self@[i].0 == command);
                let j = choose|j: int| 0 <= j < self@.len() && #[trigger] self@[j].0 == command;
                assert(i == j);
            }
        }
        r
    }

    /// Records `response` as the answer to `command`: a command already in the
    /// history keeps its place, a new one goes last.
    pub fn record(&mut self, command: u64, response: u64)
        ensures
            has_key(old(self)@, command) ==> exists|i: int| 0 <= i < old(self)@.len() && #[trigger] old(self)@[i].0 == command
                && final(self)@ == old(self)@.update(i, (command, response)),
            !has_key(old(self)@, command) ==> final(self)@ == old(self)@.push((command, response)),
            lookup(final(self)@, command) == Some(response),
            forall|k: u64| k != command ==> #[trigger] lookup(final(self)@, k) == lookup(old(self)@, k),
    {
        proof {
            use_type_invariant(&*self);
        }
        let ghost e = self@;
        let mut m = index_map_new();
        std::mem::swap(&mut self.map, &mut m);
        let _ = index_map_insert(&mut m, command, response);
        proof {
            let f = index_map_entries(m);
            if has_key(e, command) {
                let i = choose|i: int| 0 <= i < e.len() && #[trigger] e[i].0 == command;
                assert(f == e.update(i, (command, response)));
                assert forall|a: int, b: int| 0 <= a < b < f.len() implies #[trigger] f[a].0 != #[trigger] f[b].0 by {
                    assert(f[a].0 == e[a].0 && f[b].0 == e[b].0);
                }
                assert(f[i].0 == command);
                assert forall|k: u64| k != command implies #[trigger] lookup(f, k) == lookup(e, k) by {
                    if has_key(e, k) {
                        let j = choose|j: int| 0 <= j < e.len() && #[trigger] e[j].0 == k;
                        assert(f[j].0 == k);
                        let j2 = choose|j2: int| 0 <= j2 < f.len() && #[trigger] f[j2].0 == k;
                        assert(f[j2].0 == e[j2].0);
                    }
                    if has_key(f, k) {
                        let j = choose|j: int| 0 <= j < f.len() && #[trigger] f[j].0 == k;
                        assert(e[j].0 == k);
                    }
                }
            } else {
                assert(f == e.push((command, response)));
                assert forall|a: int, b: int| 0 <= a < b < f.len() implies #[trigger] f[a].0 != #[trigger] f[b].0 by {
                    if b == e.len() {
                        assert(f[a].0 == e[a].0);
                    }
                }
                assert(f[e.len() as int].0 == command);
                assert forall|k: u64| k != command implies #[trigger] lookup(f, k) == lookup(e, k) by {
                    if has_key(e, k) {
                        let j = choose|j: int| 0 <= j < e.len() && #[trigger] e[j].0 == k;
                        assert(f[j].0 == k);
                        let j2 = choose|j2: int| 0 <= j2 < f.len() && #[trigger] f[j2].0 == k;
                        assert(j2 < e.len());
                        assert(f[j2].0 == e[j2].0);
                    }
                    if has_key(f, k) {
                        let j = choose|j: int| 0 <= j < f.len() && #[trigger] f[j].0 == k;
                        assert(j < e.len());
                        assert(e[j].0 == k);
                    }
                }
            }
            let j = choose|j: int| 0 <= j < f.len() && #[trigger] f[j].0 == command;
            assert(f[j] == (command, response));
        }
        self.map = m;
    }

    /// Forgets the entry of `command`, returning its response.  The last
    /// entry takes the place of the removed one.
    pub fn remove(&mut self, command: u64) -> (r: Option<u64>)
        ensures
            r == lookup(old(self)@, command),
            lookup(final(self)@, command) is None,
            forall|k: u64| k != command ==> #[trigger] lookup(final(self)@, k) == lookup(old(self)@, k),
            has_key(old(self)@, command) ==> exists|i: int| 0 <= i < old(self)@.len() && #[trigger] old(self)@[i].0 == command
                && final(self)@ == old(self)@.update(i, old(self)@.last()).drop_last(),
            !has_key(old(self)@, command) ==> final(self)@ == old(self)@,
    {
        proof {
            use_type_invariant(&*self);
        }
        let ghost e = self@;
        let mut m = index_map_new();
        std::mem::swap(&mut self.map, &mut m);
        let r = index_map_remove(&mut m, command);
        proof {
            let f = index_map_entries(m);
            if has_key(e, command) {
                let i = choose|i: int| 0 <= i < e.len() && #[trigger] e[i].0 == command;
                assert(f == e.update(i, e.last()).drop_last());
                // f[x] is e[x] except at i, where it is the old last entry
                assert forall|x: int| 0 <= x < f.len() implies #[trigger] f[x] == (if x == i { e[e.len() - 1] } else { e[x] }) by {}
                assert forall|a: int, b: int| 0 <= a < b < f.len() implies #[trigger] f[a].0 != #[trigger] f[b].0 by {
                    if a == i {
                        assert(e[e.len() - 1].0 != e[b].0);
                    } else if b == i {
                        assert(e[a].0 != e[e.len() - 1].0);
                    }
                }
                assert(!has_key(f, command)) by {
                    if has_key(f, command) {
                        let j = choose|j: int| 0 <= j < f.len() && #[trigger] f[j].0 == command;
                        if j == i {
                            assert(e[e.len() - 1].0 == command);
                        } else {
                            assert(e[j].0 == command);
                        }
                    }
                }
                assert forall|k: u64| k != command implies #[trigger] lookup(f, k) == lookup(e, k) by {
                    if has_key(e, k) {
                        let j = choose|j: int| 0 <= j < e.len() && #[trigger] e[j].0 == k;
                        let pos = if j == e.len() - 1 { i } else { j };
                        assert(f[pos] == e[j]);
                        let j2 = choose|j2: int| 0 <= j2 < f.len() && #[trigger] f[j2].0 == k;
                        if j2 == i {
                            assert(e[e.len() - 1].0 == k);
                        } else {
                            assert(e[j2].0 == k);
                        }
                    }
                    if has_key(f, k) {
                        let j = choose|j: int| 0 <= j < f.len() && #[trigger] f[j].0 == k;
                        if j == i {
                            assert(e[e.len() - 1].0 == k);
                        } else {
                            assert(e[j].0 == k);
                        }
                    }
                }
            }
        }
        self.map = m;
        r
    }

    /// Keeps only the most recent entry: the history is cleared
    /// periodically, but the last command is always kept.
    pub fn clear(&mut self)
        ensures
            old(self)@.len() > 0 ==> final(self)@ == seq![old(self)@.last()],
            old(self)@.len() == 0 ==> final(self)@ == old(self)@,
    {
        proof {
            use_type_invariant(&*self);
        }
        let ghost e = self@;
        let n = index_map_len(&self.map);
        if n > 0 {
            let mut m = index_map_new();
            std::mem::swap(&mut self.map, &mut m);
            index_map_drain_front(&mut m, n - 1);
            proof {
                assert(index_map_entries(m) =~= seq![e.last()]);
            }
            self.map = m;
        }
    }
}

/// Whether an edited message is replayed as a command: its edit came less
/// than an hour (`age_secs` whole seconds) after it was sent, and it starts
/// with the command prefix `?`.  An unknown or negative age is `None`.
pub fn should_replay(age_secs: Option<u64>, content: &str) -> (r: bool)
    ensures
        r == (age_secs matches Some(a) && a < HOUR && crate::strings::has_prefix(content@, seq!['?'])),
{
    match age_secs {
        Some(a) => {
            if a < HOUR {
                let chars = crate::strings::to_chars(content);
                let prefix = vec!['?'];
                proof {
                    assert(prefix@ =~= seq!['?']);
                }
                crate::strings::starts_with(chars.as_slice(), prefix.as_slice())
            } else {
                false
            }
        },
        None => false,
    }
}

} // verus!
