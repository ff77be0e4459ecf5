use vstd::prelude::*;

verus! {

/// A cached response: the head to send first and the data to send after it.
pub struct CacheEntry {
    pub headers: Vec<u8>,
    pub data: Vec<u8>,
}

impl View for CacheEntry {
    type V = (Seq<u8>, Seq<u8>);

    open spec fn view(&self) -> (Seq<u8>, Seq<u8>) {
        (self.headers@, self.data@)
    }
}

/// Responses kept by URL.
pub struct Cache {
    entries: Vec<(String, CacheEntry)>,
}

/// The position of the entry with key `k`, if `k` is among the keys.
pub open spec fn has_key(entries: Seq<(String, CacheEntry)>, k: Seq<char>) -> bool {
    exists|i: int| 0 <= i < entries.len() && (#[trigger] entries[i]).0@ == k
}

/// No key occurs twice.
pub open spec fn keys_unique(entries: Seq<(String, CacheEntry)>) -> bool {
    forall|i: int, j: int|
        0 <= i < entries.len() && 0 <= j < entries.len() && (#[trigger] entries[i]).0@ == (
        #[trigger] entries[j]).0@ ==> i == j
}

/// The map that a list of entries with distinct keys stands for.
pub open spec fn entries_map(entries: Seq<(String, CacheEntry)>) -> Map<
    Seq<char>,
    (Seq<u8>, Seq<u8>),
> {
    Map::new(
        |k: Seq<char>| has_key(entries, k),
        |k: Seq<char>|
            {
                let i = choose|i: int| 0 <= i < entries.len() && (#[trigger] entries[i]).0@ == k;
                entries[i].1@
            },
    )
}

impl View for Cache {
    type V = Map<Seq<char>, (Seq<u8>, Seq<u8>)>;

    closed spec fn view(&self) -> Map<Seq<char>, (Seq<u8>, Seq<u8>)> {
        entries_map(self.entries@)
    }
}

impl Cache {
    /// The cache keeps one entry per URL.
    pub closed spec fn wf(&self) -> bool {
        keys_unique(self.entries@)
    }

    /// An empty cache.
    pub fn new() -> (c: Self)
        ensures
            c.wf(),
            c@ == Map::<Seq<char>, (Seq<u8>, Seq<u8>)>::empty(),
    {
        let c = Cache { entries: Vec::new() };
        assert(c@ =~= Map::<Seq<char>, (Seq<u8>, Seq<u8>)>::empty());
        c
    }

    /// Where `url` is kept, if it is.
    fn find(&self, url: &String) -> (r: Option<usize>)
        requires
            self.wf(),
        ensures
            match r {
                Some(i) => i < self.entries@.len() && self.entries@[i as int].0@ == url@,
                None => !has_key(self.entries@, url@),
            },
    {
        let mut i: usize = 0;
        while i < self.entries.len()
            invariant
                i <= self.entries@.len(),
                forall|j: int| 0 <= j < i ==> (#[trigger] self.entries@[j]).0@ != url@,
            decreases self.entries@.len() - i,
        {
            if self.entries[i].0 == *url {
                return Some(i);
            }
            i = i + 1;
        }
        None
    }

    /// The response kept for `url`, if any.
    pub fn get(&self, url: &String) -> (r: Option<&CacheEntry>)
        requires
            self.wf(),
        ensures
            match r {
                Some(e) => self@.contains_key(url@) && self@[url@] == e@,
                None => !self@.contains_key(url@),
            },
    {
        match self.find(url) {
            Some(i) => {
                let e = &self.entries[i].1;
                proof {
                    let k = url@;
                    assert(has_key(self.entries@, k));
                    let j = choose|j: int|
                        0 <= j < self.entries@.len() && (#[trigger] self.entries@[j]).0@ == k;
                    assert(j == i);
                }
                Some(e)
            },
            None => None,
        }
    }

    /// Keeps `entry` for `url`, in place of any response kept for it before.
    pub fn insert(&mut self, url: String, entry: CacheEntry)
        requires
            old(self).wf(),
        ensures
            final(self).wf(),
            final(self)@ == old(self)@.insert(url@, entry@),
    {
        let ghost k = url@;
        let ghost v = entry@;
        let ghost old_entries = self.entries@;
        match self.find(&url) {
            Some(i) => {
                self.entries.set(i, (url, entry));
                proof {
                    let e = self.entries@;
                    assert forall|a: int, b: int|
                        0 <= a < e.len() && 0 <= b < e.len() && (#[trigger] e[a]).0@ == (
                        #[trigger] e[b]).0@ implies a == b by {
                        if a != i && b != i {
                            assert(e[a] == old_entries[a]);
                            assert(e[b] == old_entries[b]);
                        } else if a == i && b != i {
                            assert(e[b] == old_entries[b]);
                            assert(old_entries[i as int].0@ == k);
                        } else if a != i && b == i {
                            assert(e[a] == old_entries[a]);
                            assert(old_entries[i as int].0@ == k);
                        }
                    }
                    self.lemma_view_after_update(old_entries, i as int, k, v);
                }
            },
            None => {
                self.entries.push((url, entry));
                proof {
                    let e = self.entries@;
                    assert forall|a: int, b: int|
                        0 <= a < e.len() && 0 <= b < e.len() && (#[trigger] e[a]).0@ == (
                        #[trigger] e[b]).0@ implies a == b by {
                        if a < old_entries.len() && b < old_entries.len() {
                            assert(e[a] == old_entries[a]);
                            assert(e[b] == old_entries[b]);
                        } else if a < old_entries.len() {
                            assert(e[a] == old_entries[a]);
                            assert(has_key(old_entries, k));
                        } else if b < old_entries.len() {
                            assert(e[b] == old_entries[b]);
                            assert(has_key(old_entries, k));
                        }
                    }
                    assert(e.take(old_entries.len() as int) =~= old_entries);
                    self.lemma_view_after_push(old_entries, k, v);
                }
            },
        }
    }

    proof fn lemma_view_after_update(
        &self,
        old_entries: Seq<(String, CacheEntry)>,
        i: int,
        k: Seq<char>,
        v: (Seq<u8>, Seq<u8>),
    )
        requires
            keys_unique(old_entries),
            keys_unique(self.entries@),
            0 <= i < old_entries.len(),
            old_entries[i].0@ == k,
            self.entries@ == old_entries.update(i, self.entries@[i]),
            self.entries@[i].0@ == k,
            self.entries@[i].1@ == v,
        ensures
            self@ == entries_map(old_entries).insert(k, v),
    {
        let e = self.entries@;
        let m = entries_map(old_entries).insert(k, v);
        assert forall|key: Seq<char>| #[trigger] has_key(e, key) == m.contains_key(key) by {
            if has_key(e, key) {
                let j = choose|j: int| 0 <= j < e.len() && (#[trigger] e[j]).0@ == key;
                if j != i {
                    assert(old_entries[j] == e[j]);
                }
            }
            if has_key(old_entries, key) {
                let j = choose|j: int| 0 <= j < old_entries.len() && (#[trigger] old_entries[j]).0@
                    == key;
                if j != i {
                    assert(old_entries[j] == e[j]);
                }
            }
        }
        assert forall|key: Seq<char>| #[trigger] has_key(e, key) implies self@[key] == m[key] by {
            let j = choose|j: int| 0 <= j < e.len() && (#[trigger] e[j]).0@ == key;
            if key != k {
                assert(j != i);
                assert(old_entries[j] == e[j]);
                let j2 = choose|j2: int|
                    0 <= j2 < old_entries.len() && (#[trigger] old_entries[j2]).0@ == key;
                assert(j2 == j);
            } else {
                assert(j == i);
            }
        }
        assert(self@ =~= m);
    }

    proof fn lemma_view_after_push(
        &self,
        old_entries: Seq<(String, CacheEntry)>,
        k: Seq<char>,
        v: (Seq<u8>, Seq<u8>),
    )
        requires
            keys_unique(old_entries),
            keys_unique(self.entries@),
            !has_key(old_entries, k),
            self.entries@.len() == old_entries.len() + 1,
            self.entries@.take(old_entries.len() as int) == old_entries,
            self.entries@.last().0@ == k,
            self.entries@.last().1@ == v,
        ensures
            self@ == entries_map(old_entries).insert(k, v),
    {
        let e = self.entries@;
        let n = old_entries.len() as int;
        let m = entries_map(old_entries).insert(k, v);
        assert forall|j: int| 0 <= j < n implies #[trigger] e[j] == old_entries[j] by {
            assert(e.take(n)[j] == e[j]);
        }
        assert forall|key: Seq<char>| #[trigger] has_key(e, key) == m.contains_key(key) by {
            if has_key(e, key) {
                let j = choose|j: int| 0 <= j < e.len() && (#[trigger] e[j]).0@ == key;
                if j < n {
                    assert(old_entries[j] == e[j]);
                }
            }
            if has_key(old_entries, key) {
                let j = choose|j: int| 0 <= j < old_entries.len() && (#[trigger] old_entries[j]).0@
                    == key;
                assert(old_entries[j] == e[j]);
            }
            if key == k {
                assert(e[n].0@ == k);
            }
        }
        assert forall|key: Seq<char>| #[trigger] has_key(e, key) implies self@[key] == m[key] by {
            let j = choose|j: int| 0 <= j < e.len() && (#[trigger] e[j]).0@ == key;
            if key != k {
                assert(j != n);
                assert(old_entries[j] == e[j]);
                let j2 = choose|j2: int|
                    0 <= j2 < old_entries.len() && (#[trigger] old_entries[j2]).0@ == key;
                assert(old_entries[j2] == e[j2]);
                assert(j2 == j);
            } else {
                assert(e[n].0@ == k);
                assert(j == n);
            }
        }
        assert(self@ =~= m);
    }
}

/// What a read gives back of a write: right after a response is kept for a
/// URL, looking the URL up gives that response, and every other URL still
/// gives what it gave before.
pub proof fn lemma_read_after_write(
    m: Map<Seq<char>, (Seq<u8>, Seq<u8>)>,
    url: Seq<char>,
    entry: (Seq<u8>, Seq<u8>),
    other: Seq<char>,
)
    requires
        other != url,
    ensures
        m.insert(url, entry).contains_key(url),
        m.insert(url, entry)[url] == entry,
        m.insert(url, entry).contains_key(other) == m.contains_key(other),
        m.contains_key(other) ==> m.insert(url, entry)[other] == m[other],
{
}

} // verus!
