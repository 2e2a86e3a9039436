use vstd::prelude::*;
use vstd::slice::slice_to_vec;
use crate::text::bytes_eq;

verus! {

/// Relies on `std::time::SystemTime::now`: the wall clock read at the
/// call, converted to whole milliseconds since the Unix epoch. Nothing
/// is promised of the value; the clock belongs to the environment.
#[verifier::external_body]
pub(crate) fn now_millis() -> u64 {
    match std::time::SystemTime::now().duration_since(std::time::UNIX_EPOCH) {
        Ok(d) => d.as_millis() as u64,
        Err(_) => 0,
    }
}

/// The mathematical model of one stored entry.
pub struct EntryModel {
    pub value: Seq<u8>,
    pub created_at_ms: u64,
    pub expiry_ms: Option<u64>,
}

/// A stored value with its creation time (milliseconds since the Unix
/// epoch) and optional time-to-live (milliseconds).
#[derive(Debug, PartialEq, Eq)]
pub struct DataValueWithParams {
    pub value: Vec<u8>,
    pub created_at_ms: u64,
    pub expiry_ms: Option<u64>,
}

impl View for DataValueWithParams {
    type V = EntryModel;

    open spec fn view(&self) -> EntryModel {
        EntryModel { value: self.value@, created_at_ms: self.created_at_ms, expiry_ms: self.expiry_ms }
    }
}

impl DataValueWithParams {
    /// Stamps a value with a given creation time and optional expiry.
    pub fn new_at(value: Vec<u8>, expiry_ms: Option<u64>, now_ms: u64) -> (r: Self)
        ensures
            r@ == (EntryModel { value: value@, created_at_ms: now_ms, expiry_ms }),
    {
        DataValueWithParams { value, created_at_ms: now_ms, expiry_ms }
    }

    /// Stamps a value with the wall-clock time of the call.
    pub fn new(value: Vec<u8>, expiry_ms: Option<u64>) -> (r: Self)
        ensures
            r@.value == value@,
            r@.expiry_ms == expiry_ms,
    {
        let now_ms = now_millis();
        DataValueWithParams { value, created_at_ms: now_ms, expiry_ms }
    }
}

/// True when the entry has not yet expired at time `now_ms`: it either
/// carries no expiry, or the elapsed time since its creation is still
/// strictly below its time-to-live.
pub open spec fn spec_live(e: EntryModel, now_ms: u64) -> bool {
    match e.expiry_ms {
        None => true,
        Some(ex) => (now_ms as int) < e.created_at_ms + ex,
    }
}

/// The mapping an entry list denotes; a later entry for a key would
/// shadow an earlier one.
pub open spec fn entries_map(s: Seq<(Vec<u8>, DataValueWithParams)>) -> Map<Seq<u8>, EntryModel>
    decreases s.len(),
{
    if s.len() == 0 {
        Map::empty()
    } else {
        entries_map(s.drop_last()).insert(s.last().0@, s.last().1@)
    }
}

/// The in-memory key-value store: byte-string keys, each bound to one
/// entry. Viewed as a map from key to entry model.
pub struct Database {
    entries: Vec<(Vec<u8>, DataValueWithParams)>,
}

impl View for Database {
    type V = Map<Seq<u8>, EntryModel>;

    closed spec fn view(&self) -> Map<Seq<u8>, EntryModel> {
        entries_map(self.entries@)
    }
}

/// A key occurs somewhere in the entry list.
pub open spec fn has_key(s: Seq<(Vec<u8>, DataValueWithParams)>, k: Seq<u8>) -> bool {
    exists|i: int| 0 <= i < s.len() && #[trigger] s[i].0@ == k
}

/// The entry list's map contains exactly the keys the list holds.
proof fn lemma_entries_map_domain(s: Seq<(Vec<u8>, DataValueWithParams)>, k: Seq<u8>)
    ensures
        entries_map(s).contains_key(k) <==> has_key(s, k),
    decreases s.len(),
{
    if s.len() == 0 {
    } else {
        lemma_entries_map_domain(s.drop_last(), k);
        if s.last().0@ == k {
            assert(s[s.len() - 1].0@ == k);
        } else {
            if has_key(s.drop_last(), k) {
                let i = choose|i: int| 0 <= i < s.drop_last().len() && #[trigger] s.drop_last()[i].0@
                    == k;
                assert(s[i].0@ == k);
            }
            if has_key(s, k) {
                let i = choose|i: int| 0 <= i < s.len() && #[trigger] s[i].0@ == k;
                assert(i < s.len() - 1);
                assert(s.drop_last()[i].0@ == k);
            }
        }
    }
}

/// Keys are pairwise distinct in the entry list.
pub open spec fn unique_keys(s: Seq<(Vec<u8>, DataValueWithParams)>) -> bool {
    forall|i: int, j: int| 0 <= i < j < s.len() ==> #[trigger] s[i].0@ != #[trigger] s[j].0@
}

/// With distinct keys, the map binds each key to its list entry.
proof fn lemma_entries_map_at(s: Seq<(Vec<u8>, DataValueWithParams)>, i: int)
    requires
        unique_keys(s),
        0 <= i < s.len(),
    ensures
        entries_map(s).contains_key(s[i].0@),
        entries_map(s)[s[i].0@] == s[i].1@,
    decreases s.len(),
{
    if i == s.len() - 1 {
    } else {
        assert(s[i].0@ != s.last().0@);
        assert(unique_keys(s.drop_last())) by {
            assert forall|a: int, b: int|
                0 <= a < b < s.drop_last().len() implies #[trigger] s.drop_last()[a].0@
                != #[trigger] s.drop_last()[b].0@ by {
                assert(s[a].0@ != s[b].0@);
            }
        }
        assert(s.drop_last()[i] == s[i]);
        lemma_entries_map_at(s.drop_last(), i);
    }
}

impl Database {
    /// Keys are pairwise distinct; every operation keeps this.
    pub closed spec fn wf(&self) -> bool {
        unique_keys(self.entries@)
    }

    /// The empty store.
    pub fn new() -> (r: Database)
        ensures
            r@ == Map::<Seq<u8>, EntryModel>::empty(),
            r.wf(),
    {
        Database { entries: Vec::new() }
    }

    /// The position of `key` in the entry list, if it is bound.
    fn find(&self, key: &[u8]) -> (r: Option<usize>)
        ensures
            match r {
                Some(i) => i < self.entries@.len() && self.entries@[i as int].0@ == key@,
                None => !has_key(self.entries@, key@),
            },
    {
        let mut i: usize = 0;
        while i < self.entries.len()
            invariant
                i <= self.entries@.len(),
                forall|j: int| 0 <= j < i ==> #[trigger] self.entries@[j].0@ != key@,
            decreases self.entries@.len() - i,
        {
            if bytes_eq(self.entries[i].0.as_slice(), key) {
                return Some(i);
            }
            i += 1;
        }
        proof {
            if has_key(self.entries@, key@) {
                let j = choose|j: int|
                    0 <= j < self.entries@.len() && #[trigger] self.entries@[j].0@ == key@;
                assert(false);
            }
        }
        None
    }

    /// Looks `key` up at time `now_ms`: the bound value when the key is
    /// bound to an entry still live at `now_ms`, nothing otherwise. An
    /// expired entry is left in place; expiry is a view-time filter.
    pub fn get(&self, key: &[u8], now_ms: u64) -> (r: Option<Vec<u8>>)
        requires
            self.wf(),
        ensures
            match r {
                Some(v) => self@.contains_key(key@) && spec_live(self@[key@], now_ms) && v@
                    == self@[key@].value,
                None => !(self@.contains_key(key@) && spec_live(self@[key@], now_ms)),
            },
    {
        proof {
            lemma_entries_map_domain(self.entries@, key@);
        }
        match self.find(key) {
            None => None,
            Some(i) => {
                proof {
                    lemma_entries_map_at(self.entries@, i as int);
                }
                let entry = &self.entries[i].1;
                let live = match entry.expiry_ms {
                    None => true,
                    Some(ex) => {
                        if now_ms < entry.created_at_ms {
                            true
                        } else {
                            now_ms - entry.created_at_ms < ex
                        }
                    },
                };
                if live {
                    Some(slice_to_vec(entry.value.as_slice()))
                } else {
                    None
                }
            },
        }
    }

    /// Binds `key` to `value` with creation time `now_ms` and the given
    /// expiry, replacing whatever entry the key had: an unconditional
    /// upsert.
    pub fn set(&mut self, key: Vec<u8>, value: Vec<u8>, expiry_ms: Option<u64>, now_ms: u64)
        requires
            old(self).wf(),
        ensures
            final(self).wf(),
            final(self)@ == old(self)@.insert(
                key@,
                EntryModel { value: value@, created_at_ms: now_ms, expiry_ms },
            ),
    {
        let entry = DataValueWithParams { value, created_at_ms: now_ms, expiry_ms };
        let ghost s0 = self.entries@;
        match self.find(key.as_slice()) {
            Some(i) => {
                proof {
                    lemma_remove_keeps_unique(s0, i as int);
                    lemma_entries_map_remove(s0, i as int);
                }
                self.entries.remove(i);
                let ghost s1 = self.entries@;
                self.entries.push((key, entry));
                proof {
                    assert(self.entries@.drop_last() =~= s1);
                    lemma_push_unique(s1, self.entries@, key@);
                    assert(entries_map(self.entries@) =~= entries_map(s0).insert(
                        key@,
                        EntryModel { value: entry.value@, created_at_ms: now_ms, expiry_ms },
                    ));
                }
            },
            None => {
                self.entries.push((key, entry));
                proof {
                    assert(self.entries@.drop_last() =~= s0);
                    lemma_push_unique(s0, self.entries@, key@);
                }
            },
        }
    }
}

/// Removing an entry keeps the remaining keys distinct, and none of
/// them is the removed key.
proof fn lemma_remove_keeps_unique(s: Seq<(Vec<u8>, DataValueWithParams)>, i: int)
    requires
        unique_keys(s),
        0 <= i < s.len(),
    ensures
        unique_keys(s.remove(i)),
        !has_key(s.remove(i), s[i].0@),
{
    let t = s.remove(i);
    assert forall|a: int, b: int| 0 <= a < b < t.len() implies #[trigger] t[a].0@ != #[trigger] t[b].0@
        by {
        let a0 = if a < i { a } else { a + 1 };
        let b0 = if b < i { b } else { b + 1 };
        assert(t[a] == s[a0] && t[b] == s[b0]);
        assert(s[a0].0@ != s[b0].0@);
    }
    if has_key(t, s[i].0@) {
        let j = choose|j: int| 0 <= j < t.len() && #[trigger] t[j].0@ == s[i].0@;
        let j0 = if j < i { j } else { j + 1 };
        assert(t[j] == s[j0]);
        assert(s[j0].0@ != s[i].0@);
        assert(false);
    }
}

/// With distinct keys, removing entry `i` removes exactly its key from
/// the denoted map.
proof fn lemma_entries_map_remove(s: Seq<(Vec<u8>, DataValueWithParams)>, i: int)
    requires
        unique_keys(s),
        0 <= i < s.len(),
    ensures
        entries_map(s.remove(i)) == entries_map(s).remove(s[i].0@),
    decreases s.len(),
{
    let k = s[i].0@;
    if i == s.len() - 1 {
        assert(s.remove(i) =~= s.drop_last());
        assert(!has_key(s.drop_last(), k)) by {
            lemma_remove_keeps_unique(s, i);
            assert(s.remove(i) =~= s.drop_last());
        }
        lemma_entries_map_domain(s.drop_last(), k);
        assert(entries_map(s.drop_last()) =~= entries_map(s.drop_last()).insert(
            k,
            s[i].1@,
        ).remove(k));
    } else {
        assert(unique_keys(s.drop_last())) by {
            assert forall|a: int, b: int|
                0 <= a < b < s.drop_last().len() implies #[trigger] s.drop_last()[a].0@
                != #[trigger] s.drop_last()[b].0@ by {
                assert(s[a].0@ != s[b].0@);
            }
        }
        lemma_entries_map_remove(s.drop_last(), i);
        assert(s.remove(i).drop_last() =~= s.drop_last().remove(i));
        assert(s.remove(i).last() == s.last());
        assert(s.last().0@ != k);
        assert(entries_map(s.remove(i)) == entries_map(s.drop_last().remove(i)).insert(
            s.last().0@,
            s.last().1@,
        ));
        assert(entries_map(s.drop_last()).remove(k).insert(s.last().0@, s.last().1@)
            =~= entries_map(s.drop_last()).insert(s.last().0@, s.last().1@).remove(k));
    }
}

/// Appending an entry whose key is absent keeps keys distinct.
proof fn lemma_push_unique(
    s: Seq<(Vec<u8>, DataValueWithParams)>,
    t: Seq<(Vec<u8>, DataValueWithParams)>,
    k: Seq<u8>,
)
    requires
        unique_keys(s),
        !has_key(s, k),
        t.len() == s.len() + 1,
        t.drop_last() == s,
        t.last().0@ == k,
    ensures
        unique_keys(t),
{
    assert forall|a: int, b: int| 0 <= a < b < t.len() implies #[trigger] t[a].0@ != #[trigger] t[b].0@
        by {
        if b < t.len() - 1 {
            assert(t[a] == s[a] && t[b] == s[b]);
        } else {
            assert(t[a] == s[a]);
            if s[a].0@ == k {
                assert(has_key(s, k));
            }
        }
    }
}

} // verus!
