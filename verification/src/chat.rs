//! The bookkeeping of a chatbot: where a user's conversation is saved, what
//! is answered when the model fails, which messages make up a history, and a
//! bounded cache of conversations by user.
use vstd::prelude::*;

verus! {

/// The name of the file that holds the conversation of `username`.
pub fn history_file_name(username: &String) -> (name: String)
    ensures
        name@ == username@ + ".txt"@,
{
    let mut name = username.clone();
    name.append(".txt");
    name
}

/// The model's reply, or an apology when there is none.
pub fn reply_or_apology(reply: Option<String>) -> (text: String)
    ensures
        text@ == match reply {
            Some(r) => r@,
            None => "Failed to respond, sorry!"@,
        },
{
    match reply {
        Some(r) => r,
        None => String::from_str("Failed to respond, sorry!"),
    }
}

/// The model's reply, or `Error` when there is none.
pub fn reply_or_error(reply: Option<String>) -> (text: String)
    ensures
        text@ == match reply {
            Some(r) => r@,
            None => "Error"@,
        },
{
    match reply {
        Some(r) => r,
        None => String::from_str("Error"),
    }
}

/// The contents of a conversation's messages without the first one, the
/// system prompt.
pub fn history_without_prompt(messages: &Vec<String>) -> (history: Vec<String>)
    ensures
        history@.len() == if messages@.len() == 0 { 0 } else { messages@.len() - 1 },
        forall|k: int| 0 <= k < history@.len() ==> #[trigger] history@[k]@ == messages@[k + 1]@,
{
    let mut history: Vec<String> = Vec::new();
    let n = messages.len();
    let mut i: usize = 1;
    while i < n
        invariant
            n == messages@.len(),
            1 <= i <= n || (n == 0 && i == 1),
            history@.len() == i - 1,
            forall|k: int| 0 <= k < history@.len() ==> #[trigger] history@[k]@ == messages@[k + 1]@,
        decreases n - i,
    {
        history.push(messages[i].clone());
        i = i + 1;
    }
    history
}

/// A bounded cache of values by user name. Inserting a user makes it the
/// most recent; beyond the capacity the least recently inserted user is
/// dropped.
pub struct Cache<T> {
    capacity: usize,
    entries: Vec<(String, T)>,
}

/// The user names of a list of entries.
pub open spec fn entry_keys<T>(es: Seq<(Seq<char>, T)>) -> Seq<Seq<char>> {
    es.map_values(|e: (Seq<char>, T)| e.0)
}

/// Whether no user name occurs twice.
pub open spec fn distinct_keys<T>(es: Seq<(Seq<char>, T)>) -> bool {
    forall|a: int, b: int| 0 <= a < b < es.len() ==> (#[trigger] es[a]).0 != (#[trigger] es[b]).0
}

/// The position of the entry of `key`, or -1.
pub open spec fn key_position<T>(es: Seq<(Seq<char>, T)>, key: Seq<char>) -> int {
    if exists|k: int| 0 <= k < es.len() && (#[trigger] es[k]).0 == key {
        choose|k: int| 0 <= k < es.len() && (#[trigger] es[k]).0 == key
    } else {
        -1
    }
}

/// The entries with the entry of `key` (if any) removed.
pub open spec fn without_key<T>(es: Seq<(Seq<char>, T)>, key: Seq<char>) -> Seq<(Seq<char>, T)> {
    let k = key_position(es, key);
    if k < 0 {
        es
    } else {
        es.remove(k)
    }
}

/// The entries after inserting `value` for `key` with room for `capacity`.
pub open spec fn inserted<T>(es: Seq<(Seq<char>, T)>, key: Seq<char>, value: T, capacity: int) -> Seq<(Seq<char>, T)> {
    let added = without_key(es, key).push((key, value));
    if added.len() > capacity {
        added.drop_first()
    } else {
        added
    }
}

/// The value stored for `key`, if any.
pub open spec fn lookup<T>(es: Seq<(Seq<char>, T)>, key: Seq<char>) -> Option<T> {
    let k = key_position(es, key);
    if k < 0 {
        None
    } else {
        Some(es[k].1)
    }
}

pub proof fn lemma_key_position<T>(es: Seq<(Seq<char>, T)>, key: Seq<char>)
    requires
        distinct_keys(es),
    ensures
        -1 <= key_position(es, key) < es.len(),
        key_position(es, key) >= 0 ==> es[key_position(es, key)].0 == key,
        key_position(es, key) == -1 ==> forall|k: int| 0 <= k < es.len() ==> (#[trigger] es[k]).0 != key,
        forall|k: int| 0 <= k < es.len() && (#[trigger] es[k]).0 == key ==> key_position(es, key) == k,
{
    if exists|k: int| 0 <= k < es.len() && (#[trigger] es[k]).0 == key {
        let p = key_position(es, key);
        assert forall|k: int| 0 <= k < es.len() && (#[trigger] es[k]).0 == key implies p == k by {
            if p < k {
                assert(es[p].0 != es[k].0);
            } else if k < p {
                assert(es[k].0 != es[p].0);
            }
        }
    }
}

/// A read gives back what the last write for the same user wrote, as long
/// as the cache has room for one user.
pub proof fn law_cache_read_after_write<T>(es: Seq<(Seq<char>, T)>, key: Seq<char>, value: T, capacity: int)
    requires
        distinct_keys(es),
        capacity >= 1,
    ensures
        lookup(inserted(es, key, value, capacity), key) == Some(value),
{
    lemma_key_position(es, key);
    let rest = without_key(es, key);
    assert forall|k: int| 0 <= k < rest.len() implies (#[trigger] rest[k]).0 != key by {
        if key_position(es, key) >= 0 {
            let p = key_position(es, key);
            if k < p {
                assert(rest[k] == es[k]);
            } else {
                assert(rest[k] == es[k + 1]);
            }
        }
    }
    let added = rest.push((key, value));
    let r = inserted(es, key, value, capacity);
    let last = r.len() - 1;
    assert(r[last] == (key, value));
    assert forall|a: int, b: int| 0 <= a < b < r.len() implies (#[trigger] r[a]).0 != (#[trigger] r[b]).0 by {
        if added.len() > capacity {
            assert(r[a] == added[a + 1] && r[b] == added[b + 1]);
        }
        if b == last {
            assert(r[a].0 != key) by {
                if added.len() > capacity {
                    assert(r[a] == rest[a + 1]);
                } else {
                    assert(r[a] == rest[a]);
                }
            }
        } else {
            if key_position(es, key) >= 0 {
                let p = key_position(es, key);
                let ia = if added.len() > capacity { a + 1 } else { a };
                let ib = if added.len() > capacity { b + 1 } else { b };
                let ja = if ia < p { ia } else { ia + 1 };
                let jb = if ib < p { ib } else { ib + 1 };
                assert(r[a] == es[ja] && r[b] == es[jb]);
            } else {
                let ia = if added.len() > capacity { a + 1 } else { a };
                let ib = if added.len() > capacity { b + 1 } else { b };
                assert(r[a] == es[ia] && r[b] == es[ib]);
            }
        }
    }
    lemma_key_position(r, key);
}

/// Writing one user leaves what is read for another user unchanged while the
/// cache has room.
pub proof fn law_cache_write_keeps_others<T>(
    es: Seq<(Seq<char>, T)>,
    key: Seq<char>,
    value: T,
    other: Seq<char>,
    capacity: int,
)
    requires
        distinct_keys(es),
        es.len() < capacity,
        other != key,
    ensures
        lookup(inserted(es, key, value, capacity), other) == lookup(es, other),
{
    lemma_key_position(es, key);
    lemma_key_position(es, other);
    let rest = without_key(es, key);
    let r = inserted(es, key, value, capacity);
    assert(r == rest.push((key, value)));
    assert forall|a: int, b: int| 0 <= a < b < r.len() implies (#[trigger] r[a]).0 != (#[trigger] r[b]).0 by {
        if key_position(es, key) >= 0 {
            let p = key_position(es, key);
            if b == r.len() - 1 {
                let ja = if a < p { a } else { a + 1 };
                assert(r[a] == es[ja]);
            } else {
                let ja = if a < p { a } else { a + 1 };
                let jb = if b < p { b } else { b + 1 };
                assert(r[a] == es[ja] && r[b] == es[jb]);
            }
        } else {
            if b < r.len() - 1 {
                assert(r[a] == es[a] && r[b] == es[b]);
            } else {
                assert(r[a] == es[a]);
            }
        }
    }
    lemma_key_position(r, other);
    if key_position(es, other) >= 0 {
        let q = key_position(es, other);
        if key_position(es, key) >= 0 {
            let p = key_position(es, key);
            let k = if q < p { q } else { q - 1 };
            assert(r[k] == es[q]);
        } else {
            assert(r[q] == es[q]);
        }
    } else {
        if key_position(r, other) >= 0 {
            let k = key_position(r, other);
            if k < r.len() - 1 {
                if key_position(es, key) >= 0 {
                    let p = key_position(es, key);
                    let j = if k < p { k } else { k + 1 };
                    assert(r[k] == es[j]);
                } else {
                    assert(r[k] == es[k]);
                }
            }
        }
    }
}

impl<T> Cache<T> {
    /// The entries, least recent first.
    pub closed spec fn entries_view(&self) -> Seq<(Seq<char>, T)> {
        self.entries@.map_values(|e: (String, T)| (e.0@, e.1))
    }

    pub closed spec fn capacity_view(&self) -> nat {
        self.capacity as nat
    }

    /// The cache holds no user twice and no more users than its capacity.
    #[verifier::type_invariant]
    pub closed spec fn wf(&self) -> bool {
        &&& distinct_keys(self.entries_view())
        &&& self.entries@.len() <= self.capacity
    }

    /// An empty cache for at most `capacity` users.
    pub fn new(capacity: usize) -> (c: Cache<T>)
        ensures
            c.entries_view() == Seq::<(Seq<char>, T)>::empty(),
            c.capacity_view() == capacity,
    {
        let c = Cache { capacity, entries: Vec::new() };
        assert(c.entries_view() =~= Seq::<(Seq<char>, T)>::empty());
        c
    }

    /// The number of users held.
    pub fn len(&self) -> (n: usize)
        ensures
            n == self.entries_view().len(),
    {
        self.entries.len()
    }

    fn position(&self, username: &String) -> (r: Option<usize>)
        ensures
            match r {
                Some(k) => k < self.entries_view().len() && self.entries_view()[k as int].0 == username@
                    && key_position(self.entries_view(), username@) == k,
                None => key_position(self.entries_view(), username@) == -1,
            },
    {
        proof {
            use_type_invariant(self);
        }
        let n = self.entries.len();
        let ghost es = self.entries_view();
        for i in 0..n
            invariant
                n == self.entries@.len(),
                es == self.entries_view(),
                distinct_keys(es),
                forall|k: int| 0 <= k < i ==> (#[trigger] es[k]).0 != username@,
        {
            assert(es[i as int].0 == self.entries@[i as int].0@);
            if self.entries[i].0.eq(username) {
                assert(es[i as int].0 == username@);
                let ghost p = key_position(es, username@);
                assert(0 <= p < es.len() && es[p].0 == username@);
                assert(p == i) by {
                    if p < i {
                    } else if p > i {
                        assert(distinct_keys(es));
                        assert(es[i as int].0 != es[p].0);
                    }
                }
                return Some(i);
            }
        }
        None
    }

    /// The value held for `username`, if any.
    pub fn get_chat(&self, username: &String) -> (r: Option<&T>)
        ensures
            match r {
                Some(v) => lookup(self.entries_view(), username@) == Some(*v),
                None => lookup(self.entries_view(), username@) == None::<T>,
            },
    {
        match self.position(username) {
            Some(i) => {
                assert(self.entries_view()[i as int].1 == self.entries@[i as int].1);
                Some(&self.entries[i].1)
            },
            None => None,
        }
    }

    /// Removes and returns the value held for `username`, if any.
    pub fn take_chat(&mut self, username: &String) -> (r: Option<T>)
        ensures
            r == lookup(old(self).entries_view(), username@),
            final(self).entries_view() == without_key(old(self).entries_view(), username@),
            final(self).capacity_view() == old(self).capacity_view(),
    {
        proof {
            use_type_invariant(&*self);
        }
        match self.position(username) {
            Some(i) => {
                let ghost es = self.entries_view();
                let mut entries: Vec<(String, T)> = Vec::new();
                std::mem::swap(&mut entries, &mut self.entries);
                let e = entries.remove(i);
                let ghost kept = entries@.map_values(|e: (String, T)| (e.0@, e.1));
                assert(kept =~= es.remove(i as int));
                assert forall|a: int, b: int| 0 <= a < b < kept.len() implies (#[trigger] kept[a]).0 != (#[trigger] kept[b]).0 by {
                    let ja = if a < i { a } else { a + 1 };
                    let jb = if b < i { b } else { b + 1 };
                    assert(kept[a] == es[ja] && kept[b] == es[jb]);
                }
                self.entries = entries;
                assert(self.entries_view() == kept);
                Some(e.1)
            },
            None => None,
        }
    }

    /// Holds `chat` for `username` as the most recent entry, dropping the
    /// least recent one when the capacity is exceeded.
    pub fn insert_chat(&mut self, username: String, chat: T)
        ensures
            final(self).entries_view() == inserted(old(self).entries_view(), username@, chat, old(self).capacity_view() as int),
            final(self).capacity_view() == old(self).capacity_view(),
    {
        proof {
            use_type_invariant(&*self);
        }
        let ghost es = self.entries_view();
        let ghost key = username@;
        let found = self.position(&username);
        let mut entries: Vec<(String, T)> = Vec::new();
        std::mem::swap(&mut entries, &mut self.entries);
        assert(entries@.map_values(|e: (String, T)| (e.0@, e.1)) == es);
        match found {
            Some(i) => {
                entries.remove(i);
            },
            None => {},
        }
        let ghost rest = entries@.map_values(|e: (String, T)| (e.0@, e.1));
        assert(rest == without_key(es, key)) by {
            if key_position(es, key) >= 0 {
                assert(rest =~= es.remove(key_position(es, key)));
            }
        }
        assert forall|k: int| 0 <= k < rest.len() implies (#[trigger] rest[k]).0 != key by {
            if key_position(es, key) < 0 {
                assert(!(0 <= k < es.len() && es[k].0 == key));
            } else {
                let p = key_position(es, key);
                if k < p {
                    assert(rest[k] == es[k]);
                    assert(es[k].0 != es[p].0);
                } else {
                    assert(rest[k] == es[k + 1]);
                    assert(es[k + 1].0 != es[p].0);
                }
            }
        }
        assert forall|a: int, b: int| 0 <= a < b < rest.len() implies (#[trigger] rest[a]).0 != (#[trigger] rest[b]).0 by {
            if key_position(es, key) >= 0 {
                let p = key_position(es, key);
                let ja = if a < p { a } else { a + 1 };
                let jb = if b < p { b } else { b + 1 };
                assert(rest[a] == es[ja] && rest[b] == es[jb]);
            } else {
                assert(rest[a] == es[a] && rest[b] == es[b]);
            }
        }
        entries.push((username, chat));
        let ghost added = entries@.map_values(|e: (String, T)| (e.0@, e.1));
        assert(added =~= rest.push((key, chat)));
        if entries.len() > self.capacity {
            entries.remove(0);
            assert(entries@.map_values(|e: (String, T)| (e.0@, e.1)) =~= added.drop_first());
        }
        self.entries = entries;
    }
}

} // verus!
