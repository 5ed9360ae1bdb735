//! The cache store: a mapping from keys to entries, each entry carrying a
//! payload, a time-to-live and its creation time.  Expiry is lazy: an entry
//! is judged against the clock only when it is read, and removed then.
//!
//! The store is represented as an association list with unique keys and is
//! modelled as a `Map` from key characters to [`EntryModel`].

use vstd::prelude::*;
use vstd::string::*;

verus! {

/// Mathematical model of one stored entry.
pub struct EntryModel {
    pub data: Seq<char>,
    pub ttl: int,
    pub created: int,
}

/// One stored value together with its time-to-live (seconds) and the
/// timestamp (seconds) at which it was stored.
pub struct ObjectMemory {
    pub raw_data: String,
    pub duration_sec: i64,
    pub created_at: i64,
}

impl View for ObjectMemory {
    type V = EntryModel;

    open spec fn view(&self) -> EntryModel {
        EntryModel {
            data: self.raw_data@,
            ttl: self.duration_sec as int,
            created: self.created_at as int,
        }
    }
}

/// The entry is still valid at time `now`: its age does not exceed its
/// time-to-live.
pub open spec fn fresh_at(e: EntryModel, now: int) -> bool {
    now - e.created <= e.ttl
}

impl ObjectMemory {
    /// The stored value while the entry is still valid at `curr_time`;
    /// `None` once its age exceeds its time-to-live.
    pub fn get_key_duration(&self, curr_time: i64) -> (r: Option<String>)
        ensures
            (match r {
                Some(v) => fresh_at(self@, curr_time as int) && v@ == self@.data,
                None => !fresh_at(self@, curr_time as int),
            }),
    {
        // the age is computed in 128-bit arithmetic, exact for any i64 pair
        let age: i128 = curr_time as i128 - self.created_at as i128;
        if age > self.duration_sec as i128 {
            None
        } else {
            Some(self.raw_data.clone())
        }
    }
}

// ===== the association list and its map model =====

pub open spec fn keys_unique(s: Seq<(String, ObjectMemory)>) -> bool {
    forall|i: int, j: int| 0 <= i < j < s.len() ==> s[i].0@ != s[j].0@
}

pub open spec fn entries_map(s: Seq<(String, ObjectMemory)>) -> Map<Seq<char>, EntryModel>
    decreases s.len(),
{
    if s.len() == 0 {
        Map::empty()
    } else {
        entries_map(s.drop_last()).insert(s.last().0@, s.last().1@)
    }
}

proof fn lemma_entries_absent(s: Seq<(String, ObjectMemory)>, k: Seq<char>)
    requires
        forall|i: int| 0 <= i < s.len() ==> s[i].0@ != k,
    ensures
        !entries_map(s).contains_key(k),
    decreases s.len(),
{
    if s.len() > 0 {
        lemma_entries_absent(s.drop_last(), k);
    }
}

proof fn lemma_entries_present(s: Seq<(String, ObjectMemory)>, k: Seq<char>, i: int)
    requires
        keys_unique(s),
        0 <= i < s.len(),
        s[i].0@ == k,
    ensures
        entries_map(s).contains_key(k),
        entries_map(s)[k] == s[i].1@,
    decreases s.len(),
{
    if i < s.len() - 1 {
        lemma_entries_present(s.drop_last(), k, i);
    }
}

proof fn lemma_entries_update(s: Seq<(String, ObjectMemory)>, i: int, p: (String, ObjectMemory))
    requires
        keys_unique(s),
        0 <= i < s.len(),
        s[i].0@ == p.0@,
    ensures
        entries_map(s.update(i, p)) =~= entries_map(s).insert(p.0@, p.1@),
    decreases s.len(),
{
    if i == s.len() - 1 {
        assert(s.update(i, p).drop_last() =~= s.drop_last());
    } else {
        assert(s.update(i, p).drop_last() =~= s.drop_last().update(i, p));
        lemma_entries_update(s.drop_last(), i, p);
    }
}

proof fn lemma_entries_push(s: Seq<(String, ObjectMemory)>, p: (String, ObjectMemory))
    ensures
        entries_map(s.push(p)) =~= entries_map(s).insert(p.0@, p.1@),
{
    assert(s.push(p).drop_last() =~= s);
}

proof fn lemma_entries_remove(s: Seq<(String, ObjectMemory)>, i: int)
    requires
        keys_unique(s),
        0 <= i < s.len(),
    ensures
        entries_map(s.remove(i)) =~= entries_map(s).remove(s[i].0@),
    decreases s.len(),
{
    if i == s.len() - 1 {
        assert(s.remove(i) =~= s.drop_last());
        lemma_entries_absent(s.drop_last(), s[i].0@);
    } else {
        assert(s.remove(i).drop_last() =~= s.drop_last().remove(i));
        assert(s.remove(i).last() == s.last());
        lemma_entries_remove(s.drop_last(), i);
    }
}

// ===== the shared store =====

/// The key/value store shared by all connection handlers.
pub struct ShareMemory {
    data: Vec<(String, ObjectMemory)>,
}

impl View for ShareMemory {
    type V = Map<Seq<char>, EntryModel>;

    closed spec fn view(&self) -> Map<Seq<char>, EntryModel> {
        entries_map(self.data@)
    }
}

/// Character-for-character equality of two strings.
pub fn str_eq(a: &str, b: &str) -> (r: bool)
    ensures
        r == (a@ == b@),
{
    let n = a.unicode_len();
    let m = b.unicode_len();
    if n != m {
        return false;
    }
    let mut i: usize = 0;
    while i < n
        invariant
            0 <= i <= n,
            n == a@.len(),
            n == b@.len(),
            forall|k: int| 0 <= k < i ==> a@[k] == b@[k],
        decreases n - i,
    {
        if a.get_char(i) != b.get_char(i) {
            return false;
        }
        i = i + 1;
    }
    proof {
        assert(a@ =~= b@);
    }
    true
}

impl ShareMemory {
    /// The store never holds two entries for one key.
    pub closed spec fn wf(&self) -> bool {
        keys_unique(self.data@)
    }

    /// A fresh, empty store.
    pub fn new() -> (s: Self)
        ensures
            s@ =~= Map::<Seq<char>, EntryModel>::empty(),
            s.wf(),
    {
        let s = Self { data: Vec::new() };
        s
    }

    fn find_index(&self, key: &str) -> (r: Option<usize>)
        ensures
            (match r {
                Some(i) => i < self.data@.len() && self.data@[i as int].0@ == key@,
                None => forall|i: int| 0 <= i < self.data@.len() ==> self.data@[i].0@ != key@,
            }),
    {
        let n = self.data.len();
        let mut i: usize = 0;
        while i < n
            invariant
                0 <= i <= n,
                n == self.data@.len(),
                forall|k: int| 0 <= k < i ==> self.data@[k].0@ != key@,
            decreases n - i,
        {
            if str_eq(self.data[i].0.as_str(), key) {
                return Some(i);
            }
            i = i + 1;
        }
        None
    }

    /// Insert `value` under `key` with time-to-live `ttl_seconds`, stamped
    /// with the time `now`.  An existing entry for `key` is replaced whole.
    pub fn put(&mut self, key: String, value: String, ttl_seconds: i64, now: i64)
        requires
            old(self).wf(),
        ensures
            final(self).wf(),
            final(self)@ =~= old(self)@.insert(
                key@,
                EntryModel { data: value@, ttl: ttl_seconds as int, created: now as int },
            ),
    {
        let obj = ObjectMemory { raw_data: value, duration_sec: ttl_seconds, created_at: now };
        let ghost entry = EntryModel {
            data: obj.raw_data@,
            ttl: ttl_seconds as int,
            created: now as int,
        };
        match self.find_index(key.as_str()) {
            Some(i) => {
                let ghost olddata = self.data@;
                let ghost p = (key, obj);
                proof {
                    lemma_entries_update(olddata, i as int, p);
                }
                self.data[i] = (key, obj);
                proof {
                    assert(self.data@ =~= olddata.update(i as int, p));
                }
            },
            None => {
                let ghost olddata = self.data@;
                let ghost p = (key, obj);
                proof {
                    lemma_entries_push(olddata, p);
                }
                self.data.push((key, obj));
            },
        }
    }

    /// Look the key up; `None` when it is absent.  The entry is returned by
    /// reference together with its position.
    fn lookup(&self, key: &str) -> (r: Option<usize>)
        requires
            self.wf(),
        ensures
            (match r {
                Some(i) => i < self.data@.len() && self.data@[i as int].0@ == key@
                    && self@.contains_key(key@) && self@[key@] == self.data@[i as int].1@,
                None => !self@.contains_key(key@),
            }),
    {
        let r = self.find_index(key);
        proof {
            match r {
                Some(i) => lemma_entries_present(self.data@, key@, i as int),
                None => lemma_entries_absent(self.data@, key@),
            }
        }
        r
    }

    /// Remove the entry at a known position.
    fn expel(&mut self, i: usize)
        requires
            old(self).wf(),
            i < old(self).data@.len(),
        ensures
            final(self).wf(),
            final(self)@ =~= old(self)@.remove(old(self).data@[i as int].0@),
    {
        proof {
            lemma_entries_remove(self.data@, i as int);
        }
        self.data.remove(i);
    }

    /// The stored value for `key` judged at time `now`: `None` when absent,
    /// and `Err`-like expiry when the age exceeds the time-to-live, in which
    /// case the entry is removed.
    pub fn read_at(&mut self, key: &str, now: i64) -> (r: Option<Option<String>>)
        requires
            old(self).wf(),
        ensures
            final(self).wf(),
            (match r {
                None => !old(self)@.contains_key(key@) && final(self)@ =~= old(self)@,
                Some(Some(v)) => old(self)@.contains_key(key@) && fresh_at(
                    old(self)@[key@],
                    now as int,
                ) && v@ == old(self)@[key@].data && final(self)@ =~= old(self)@,
                Some(None) => old(self)@.contains_key(key@) && !fresh_at(
                    old(self)@[key@],
                    now as int,
                ) && final(self)@ =~= old(self)@.remove(key@),
            }),
    {
        match self.lookup(key) {
            None => None,
            Some(i) => {
                let got = self.data[i].1.get_key_duration(now);
                match got {
                    Some(v) => Some(Some(v)),
                    None => {
                        self.expel(i);
                        Some(None)
                    },
                }
            },
        }
    }
}

} // verus!
