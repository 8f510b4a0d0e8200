//! The string interner: converts path-component text to dense integer ids
//! and back. Id 0 is reserved universally as an empty placeholder (the
//! binary on-disk format uses 0 as a record terminator), so real components
//! always start at id 1.
use vstd::prelude::*;
use vstd::hash_map::StringHashMap;

verus! {

/// No two real ids resolve to the same text.
pub open spec fn table_distinct(v: Seq<Seq<char>>) -> bool {
    forall|i: int, j: int| 1 <= i < j < v.len() ==> v[i] != v[j]
}

/// Some real id already resolves to `t`.
pub open spec fn table_has(v: Seq<Seq<char>>, t: Seq<char>) -> bool {
    exists|k: int| 1 <= k < v.len() && v[k] == t
}

/// The id interning `t` yields: the existing one, or the next unused.
pub open spec fn intern_id(v: Seq<Seq<char>>, t: Seq<char>) -> int {
    if table_has(v, t) {
        choose|k: int| 1 <= k < v.len() && v[k] == t
    } else {
        v.len() as int
    }
}

/// The table after interning `t`: unchanged, or extended by `t`.
pub open spec fn intern_view(v: Seq<Seq<char>>, t: Seq<char>) -> Seq<Seq<char>> {
    if table_has(v, t) {
        v
    } else {
        v.push(t)
    }
}

/// Ordered sequence of components indexed by id, with the reverse mapping
/// text -> id. Ids are dense, assigned in first-seen order, and never reused
/// or removed.
pub struct StringTable {
    strings: Vec<String>,
    map: StringHashMap<u32>,
}

impl View for StringTable {
    type V = Seq<Seq<char>>;

    closed spec fn view(&self) -> Seq<Seq<char>> {
        self.strings@.map_values(|s: String| s@)
    }
}

impl StringTable {
    /// The reverse mapping is exactly the inverse of the id sequence on the
    /// real ids, and id 0 is the reserved empty placeholder.
    pub closed spec fn wf(&self) -> bool {
        &&& 1 <= self@.len() <= u32::MAX
        &&& self@[0] == Seq::<char>::empty()
        &&& forall|id: int|
            1 <= id < self@.len() ==> self.map@.contains_key(#[trigger] self@[id]) && self.map@[
                self@[id]
            ] == id
        &&& forall|t: Seq<char>|
            self.map@.contains_key(t) ==> 1 <= #[trigger] self.map@[t] < self@.len() && self@[
                self.map@[t] as int
            ] == t
    }

    /// A well-formed table has at least the placeholder and every id fits
    /// in 32 bits.
    pub proof fn lemma_wf_bounds(&self)
        requires
            self.wf(),
        ensures
            1 <= self@.len() <= u32::MAX,
            self@[0] == Seq::<char>::empty(),
    {
    }

    /// A well-formed table never stores the same text under two real ids.
    pub proof fn lemma_wf_distinct(&self)
        requires
            self.wf(),
        ensures
            table_distinct(self@),
    {
        assert forall|i: int, j: int| 1 <= i < j < self@.len() implies self@[i] != self@[j] by {
            if self@[i] == self@[j] {
                assert(self.map@[self@[i]] == i);
                assert(self.map@[self@[j]] == j);
            }
        }
    }

    /// An empty table: only the reserved placeholder.
    pub fn new() -> (r: StringTable)
        ensures
            r.wf(),
            r@.len() == 1,
    {
        let strings = vec![String::new()];
        let r = StringTable { strings, map: StringHashMap::new() };
        proof {
            assert(r@ =~= seq![Seq::<char>::empty()]);
        }
        r
    }

    /// Number of ids handed out so far, the placeholder included.
    pub fn len(&self) -> (n: usize)
        ensures
            n == self@.len(),
    {
        self.strings.len()
    }

    /// Return the existing id for previously seen text, or assign the next
    /// unused id and record the text.
    pub fn intern(&mut self, text: String) -> (id: u32)
        requires
            old(self).wf(),
            old(self)@.len() < u32::MAX,
        ensures
            final(self).wf(),
            final(self)@ == intern_view(old(self)@, text@),
            id == intern_id(old(self)@, text@),
            1 <= id < final(self)@.len(),
            final(self)@[id as int] == text@,
    {
        let ghost oldv = self@;
        match self.map.get(text.as_str()) {
            Some(v) => {
                let id = *v;
                proof {
                    assert(oldv[id as int] == text@);
                    assert(table_has(oldv, text@));
                    let k = choose|k: int| 1 <= k < oldv.len() && oldv[k] == text@;
                    assert(self.map@[oldv[k]] == k);
                }
                id
            },
            None => {
                let id = self.strings.len();
                proof {
                    assert(!table_has(oldv, text@)) by {
                        if table_has(oldv, text@) {
                            let k = choose|k: int| 1 <= k < oldv.len() && oldv[k] == text@;
                            assert(self.map@.contains_key(oldv[k]));
                        }
                    }
                }
                self.strings.push(text.clone());
                self.map.insert(text, id as u32);
                proof {
                    assert(self@ =~= oldv.push(self.strings@.last()@));
                    assert(self@ == intern_view(oldv, self@[id as int]));
                }
                id as u32
            },
        }
    }

    /// The id under which `text` is already recorded, if any.
    pub fn lookup(&self, text: &str) -> (r: Option<u32>)
        requires
            self.wf(),
        ensures
            match r {
                Some(id) => {
                    &&& table_has(self@, text@)
                    &&& id == intern_id(self@, text@)
                    &&& 1 <= id < self@.len()
                    &&& self@[id as int] == text@
                },
                None => !table_has(self@, text@),
            },
    {
        match self.map.get(text) {
            Some(v) => {
                let id = *v;
                proof {
                    assert(self@[id as int] == text@);
                    assert(table_has(self@, text@));
                    let k = choose|k: int| 1 <= k < self@.len() && self@[k] == text@;
                    assert(self.map@[self@[k]] == k);
                }
                Some(id)
            },
            None => {
                proof {
                    if table_has(self@, text@) {
                        let k = choose|k: int| 1 <= k < self@.len() && self@[k] == text@;
                        assert(self.map@.contains_key(self@[k]));
                    }
                }
                None
            },
        }
    }

    /// Direct index lookup of the text recorded under `id`.
    pub fn resolve(&self, id: u32) -> (r: &String)
        requires
            id < self@.len(),
        ensures
            r@ == self@[id as int],
    {
        &self.strings[id as usize]
    }
}

/// Interning a text and then resolving the id produced yields the original
/// text exactly.
pub proof fn lemma_intern_resolve_round_trip(v: Seq<Seq<char>>, t: Seq<char>)
    requires
        table_distinct(v),
    ensures
        intern_view(v, t)[intern_id(v, t)] == t,
{
    if table_has(v, t) {
        let k = choose|k: int| 1 <= k < v.len() && v[k] == t;
        assert(v[k] == t);
    }
}

/// Interning the same text twice returns the same id, and the second call
/// leaves the table unchanged.
pub proof fn lemma_intern_twice(v: Seq<Seq<char>>, t: Seq<char>)
    requires
        table_distinct(v),
        v.len() >= 1,
    ensures
        intern_view(intern_view(v, t), t) == intern_view(v, t),
        intern_id(intern_view(v, t), t) == intern_id(v, t),
{
    if table_has(v, t) {
        assert(intern_view(v, t) == v);
    } else {
        let v1 = v.push(t);
        assert(v1[v.len() as int] == t);
        assert(table_has(v1, t));
        assert(intern_view(v1, t) == v1);
        let k = choose|k: int| 1 <= k < v1.len() && v1[k] == t;
        if k < v.len() {
            assert(v[k] == v1[k]);
            assert(table_has(v, t));
        }
        assert(k == v.len());
    }
}

} // verus!
