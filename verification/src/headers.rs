//! The header fields of an HTTP message: a map from field name to the list of
//! comma-separated values, in which each name occurs once.
use vstd::prelude::*;

verus! {

/// The abstract header map: `(name, values)` entries in insertion order.
pub type HeaderList = Seq<(Seq<char>, Seq<Seq<char>>)>;

/// No name occurs twice.
pub open spec fn unique_keys(h: HeaderList) -> bool {
    forall|i: int, j: int| 0 <= i < h.len() && 0 <= j < h.len() && i != j ==> h[i].0 != h[j].0
}

/// The position of the entry named `k`.
pub open spec fn key_pos(h: HeaderList, k: Seq<char>) -> Option<int> {
    if exists|i: int| 0 <= i < h.len() && h[i].0 == k {
        Some(choose|i: int| 0 <= i < h.len() && h[i].0 == k)
    } else {
        None
    }
}

/// The values stored under the name `k`.
pub open spec fn lookup(h: HeaderList, k: Seq<char>) -> Option<Seq<Seq<char>>> {
    match key_pos(h, k) {
        Some(i) => Some(h[i].1),
        None => None,
    }
}

/// `h` after storing `vs` under `k`: the entry named `k` keeps its place and
/// takes the new values; a new name goes last.
pub open spec fn insert_entry(h: HeaderList, k: Seq<char>, vs: Seq<Seq<char>>) -> HeaderList {
    match key_pos(h, k) {
        Some(i) => h.update(i, (k, vs)),
        None => h.push((k, vs)),
    }
}

/// In a map with unique names, the entry named `k` is found where it stands.
pub proof fn lemma_key_pos_unique(h: HeaderList, k: Seq<char>, i: int)
    requires
        unique_keys(h),
        0 <= i < h.len(),
        h[i].0 == k,
    ensures
        key_pos(h, k) == Some(i),
{
}

/// Storing under a name keeps every name unique.
pub proof fn lemma_insert_keeps_unique(h: HeaderList, k: Seq<char>, vs: Seq<Seq<char>>)
    requires
        unique_keys(h),
    ensures
        unique_keys(insert_entry(h, k, vs)),
{
}

/// Reading a name just stored gives the values stored.
pub proof fn lemma_lookup_insert_same(h: HeaderList, k: Seq<char>, vs: Seq<Seq<char>>)
    requires
        unique_keys(h),
    ensures
        lookup(insert_entry(h, k, vs), k) == Some(vs),
{
    let h2 = insert_entry(h, k, vs);
    lemma_insert_keeps_unique(h, k, vs);
    match key_pos(h, k) {
        Some(i) => {
            lemma_key_pos_unique(h2, k, i);
        },
        None => {
            lemma_key_pos_unique(h2, k, h.len() as int);
        },
    }
}

/// Storing under one name leaves what every other name reads unchanged.
pub proof fn lemma_lookup_insert_other(
    h: HeaderList,
    k: Seq<char>,
    vs: Seq<Seq<char>>,
    other: Seq<char>,
)
    requires
        unique_keys(h),
        other != k,
    ensures
        lookup(insert_entry(h, k, vs), other) == lookup(h, other),
{
    let h2 = insert_entry(h, k, vs);
    lemma_insert_keeps_unique(h, k, vs);
    match key_pos(h, other) {
        Some(j) => {
            assert(h2[j].0 == other);
            lemma_key_pos_unique(h2, other, j);
        },
        None => {
            assert forall|i: int| 0 <= i < h2.len() implies h2[i].0 != other by {
                if i < h.len() {
                    assert(h[i].0 != other);
                }
            }
        },
    }
}

/// The header fields of a request or a response.
pub struct HttpHeaders {
    entries: Vec<(String, Vec<String>)>,
}

impl View for HttpHeaders {
    type V = HeaderList;

    closed spec fn view(&self) -> HeaderList {
        self.entries.deep_view()
    }
}

fn clone_strings(v: &Vec<String>) -> (res: Vec<String>)
    ensures
        res.deep_view() == v.deep_view(),
{
    let mut out: Vec<String> = Vec::new();
    let n = v.len();
    let mut i: usize = 0;
    while i < n
        invariant
            n == v@.len(),
            i <= n,
            out@.len() == i,
            forall|j: int| 0 <= j < i ==> out@[j]@ == v@[j]@,
        decreases n - i,
    {
        out.push(v[i].clone());
        i = i + 1;
    }
    assert(out.deep_view() =~= v.deep_view());
    out
}

impl Clone for HttpHeaders {
    /// A copy with the same entries in the same order.
    fn clone(&self) -> (res: Self)
        ensures
            res@ == self@,
    {
        proof {
            use_type_invariant(self);
        }
        let mut entries: Vec<(String, Vec<String>)> = Vec::new();
        let n = self.entries.len();
        let mut i: usize = 0;
        while i < n
            invariant
                n == self.entries@.len(),
                i <= n,
                entries@.len() == i,
                forall|j: int| 0 <= j < i ==> #[trigger] entries@[j].deep_view() == self.entries@[j].deep_view(),
            decreases n - i,
        {
            let key = self.entries[i].0.clone();
            let values = clone_strings(&self.entries[i].1);
            entries.push((key, values));
            i = i + 1;
        }
        assert(entries.deep_view() =~= self.entries.deep_view());
        HttpHeaders { entries }
    }
}

impl HttpHeaders {
    #[verifier::type_invariant]
    closed spec fn wf(&self) -> bool {
        unique_keys(self.entries.deep_view())
    }

    /// No header fields.
    pub fn new() -> (res: Self)
        ensures
            res@ == Seq::<(Seq<char>, Seq<Seq<char>>)>::empty(),
    {
        let res = HttpHeaders { entries: Vec::new() };
        proof {
            assert(res.entries.deep_view() =~= Seq::<(Seq<char>, Seq<Seq<char>>)>::empty());
        }
        res
    }

    /// The number of distinct names.
    pub fn len(&self) -> (res: usize)
        ensures
            res == self@.len(),
            unique_keys(self@),
    {
        proof {
            use_type_invariant(self);
        }
        self.entries.len()
    }

    /// The position of the entry named `key`.
    fn position(&self, key: &String) -> (res: Option<usize>)
        ensures
            match res {
                Some(i) => key_pos(self@, key@) == Some(i as int) && i < self@.len(),
                None => key_pos(self@, key@) is None,
            },
    {
        proof {
            use_type_invariant(self);
        }
        let len = self.entries.len();
        let mut i: usize = 0;
        while i < len
            invariant
                len == self@.len(),
                self@ == self.entries.deep_view(),
                unique_keys(self@),
                i <= len,
                forall|j: int| 0 <= j < i ==> self@[j].0 != key@,
            decreases len - i,
        {
            if self.entries[i].0 == *key {
                proof {
                    lemma_key_pos_unique(self@, key@, i as int);
                }
                return Some(i);
            }
            i = i + 1;
        }
        None
    }

    /// The entry at position `i`: its name and its values.
    pub fn entry_at(&self, i: usize) -> (res: (&String, &Vec<String>))
        requires
            i < self@.len(),
        ensures
            (res.0@, res.1.deep_view()) == self@[i as int],
            unique_keys(self@),
    {
        proof {
            use_type_invariant(self);
        }
        let e = &self.entries[i];
        (&e.0, &e.1)
    }

    /// The values stored under `key`, if any.
    pub fn get(&self, key: &str) -> (res: Option<&Vec<String>>)
        ensures
            match res {
                Some(v) => lookup(self@, key@) == Some(v.deep_view()),
                None => lookup(self@, key@) is None,
            },
            unique_keys(self@),
    {
        proof {
            use_type_invariant(self);
        }
        let k = key.to_owned();
        match self.position(&k) {
            Some(i) => Some(&self.entries[i].1),
            None => None,
        }
    }

    /// Stores `values` under `key`, replacing what was stored there.
    pub fn insert(&mut self, key: String, values: Vec<String>)
        ensures
            final(self)@ == insert_entry(old(self)@, key@, values.deep_view()),
            unique_keys(final(self)@),
    {
        proof {
            use_type_invariant(&*self);
        }
        let pos = self.position(&key);
        let ghost before = self@;
        let ghost entry = (key@, values.deep_view());
        let mut entries: Vec<(String, Vec<String>)> = Vec::new();
        std::mem::swap(&mut entries, &mut self.entries);
        proof {
            assert(entries.deep_view() == before);
        }
        match pos {
            Some(i) => {
                entries.set(i, (key, values));
                proof {
                    assert(entries.deep_view() =~= before.update(i as int, entry));
                }
            },
            None => {
                entries.push((key, values));
                proof {
                    assert(entries.deep_view() =~= before.push(entry));
                }
            },
        }
        proof {
            lemma_insert_keeps_unique(before, entry.0, entry.1);
        }
        self.entries = entries;
    }
}

} // verus!
