//! A small count table: an association list of keys and counts whose
//! mathematical content is a map from key models to counts. Key cardinality
//! is small relative to the number of increments, so a linear scan per
//! increment is acceptable.
use vstd::prelude::*;

verus! {

/// A key a count can be recorded under.
pub trait TallyKey: Sized {
    /// The mathematical value of the key.
    type M;

    /// The mathematical value of the key.
    spec fn model(&self) -> Self::M;

    /// Do the two keys have the same mathematical value?
    fn same_key(&self, other: &Self) -> (r: bool)
        ensures
            r == (self.model() == other.model()),
    ;
}

/// The map an association list stands for; a later entry for the same key
/// would win, but a well-formed table has each key at most once.
pub open spec fn tally_map<K: TallyKey>(s: Seq<(K, usize)>) -> Map<K::M, nat>
    decreases s.len(),
{
    if s.len() == 0 {
        Map::empty()
    } else {
        tally_map(s.drop_last()).insert(s.last().0.model(), s.last().1 as nat)
    }
}

/// The count recorded under `k`, or zero.
pub open spec fn count_of<M>(m: Map<M, nat>, k: M) -> nat {
    if m.contains_key(k) {
        m[k]
    } else {
        0
    }
}

/// `m` with the count under `k` raised by `v`.
pub open spec fn bump_map<M>(m: Map<M, nat>, k: M, v: nat) -> Map<M, nat> {
    m.insert(k, count_of(m, k) + v)
}

/// The pointwise sum of two count maps.
pub open spec fn merge_counts<M>(a: Map<M, nat>, b: Map<M, nat>) -> Map<M, nat> {
    Map::new(
        |k: M| a.contains_key(k) || b.contains_key(k),
        |k: M| count_of(a, k) + count_of(b, k),
    )
}

/// A key of the table is a key of its map, with the entry's count.
pub proof fn lemma_tally_map_entry<K: TallyKey>(s: Seq<(K, usize)>, i: int)
    requires
        0 <= i < s.len(),
        forall|p: int, q: int|
            0 <= p < q < s.len() ==> (#[trigger] s[p]).0.model() != (#[trigger] s[q]).0.model(),
    ensures
        tally_map(s).contains_key(s[i].0.model()),
        tally_map(s)[s[i].0.model()] == s[i].1 as nat,
    decreases s.len(),
{
    if i < s.len() - 1 {
        lemma_tally_map_entry(s.drop_last(), i);
    }
}

/// A key of the map is a key of some entry.
pub proof fn lemma_tally_map_key<K: TallyKey>(s: Seq<(K, usize)>, m: K::M) -> (i: int)
    requires
        tally_map(s).contains_key(m),
    ensures
        0 <= i < s.len(),
        s[i].0.model() == m,
    decreases s.len(),
{
    if s.last().0.model() == m {
        s.len() - 1
    } else {
        lemma_tally_map_key(s.drop_last(), m)
    }
}

/// Counts keyed by the mathematical value of `K`.
pub struct CountTable<K: TallyKey> {
    pub entries: Vec<(K, usize)>,
}

impl<K: TallyKey> View for CountTable<K> {
    type V = Map<K::M, nat>;

    open spec fn view(&self) -> Map<K::M, nat> {
        tally_map(self.entries@)
    }
}

impl<K: TallyKey> CountTable<K> {
    /// Each key appears at most once.
    pub open spec fn wf(&self) -> bool {
        forall|p: int, q: int|
            0 <= p < q < self.entries@.len() ==> (#[trigger] self.entries@[p]).0.model() != (
            #[trigger] self.entries@[q]).0.model()
    }

    /// An empty table.
    pub fn new() -> (r: Self)
        ensures
            r.wf(),
            r@ == Map::<K::M, nat>::empty(),
    {
        CountTable { entries: Vec::new() }
    }

    /// Raise the count under `k` by `v`, starting from zero for a new key.
    pub fn bump(&mut self, k: K, v: usize)
        requires
            old(self).wf(),
            count_of(old(self)@, k.model()) + v <= usize::MAX,
        ensures
            final(self).wf(),
            final(self)@ == bump_map(old(self)@, k.model(), v as nat),
    {
        let ghost olds = old(self).entries@;
        let mut i: usize = 0;
        while i < self.entries.len()
            invariant
                self.entries@ == olds,
                olds == old(self).entries@,
                0 <= i <= olds.len(),
                forall|p: int, q: int|
                    0 <= p < q < olds.len() ==> (#[trigger] olds[p]).0.model() != (
                    #[trigger] olds[q]).0.model(),
                count_of(tally_map(olds), k.model()) + v <= usize::MAX,
                forall|p: int| 0 <= p < i ==> (#[trigger] olds[p]).0.model() != k.model(),
            decreases olds.len() - i,
        {
            if self.entries[i].0.same_key(&k) {
                proof {
                    lemma_tally_map_entry(olds, i as int);
                    assert(count_of(tally_map(olds), k.model()) == olds[i as int].1 as nat);
                }
                let (oldk, oldv) = self.entries.remove(i);
                self.entries.insert(i, (oldk, oldv + v));
                proof {
                    assert(oldk == olds[i as int].0);
                    assert(oldv == olds[i as int].1);
                    assert(self.entries@ =~= olds.update(i as int, (olds[i as int].0, (oldv
                    + v) as usize)));
                    lemma_tally_map_update(olds, i as int, (oldv + v) as usize);
                    assert(olds[i as int].0.model() == k.model());
                    assert(tally_map(self.entries@) == tally_map(olds).insert(
                        k.model(),
                        (oldv + v) as nat,
                    ));
                    assert((oldv + v) as nat == count_of(tally_map(olds), k.model()) + v as nat);
                    assert(self@ == bump_map(tally_map(olds), k.model(), v as nat));
                }
                return ;
            }
            i = i + 1;
        }
        proof {
            assert(!tally_map(olds).contains_key(k.model())) by {
                if tally_map(olds).contains_key(k.model()) {
                    let j = lemma_tally_map_key(olds, k.model());
                }
            }
        }
        self.entries.push((k, v));
        proof {
            assert(self.entries@.drop_last() =~= olds);
        }
    }

    /// Take out some entry, or report the table empty.
    pub fn take(&mut self) -> (r: Option<(K, usize)>)
        requires
            old(self).wf(),
        ensures
            final(self).wf(),
            match r {
                Some(p) => {
                    &&& old(self)@.contains_key(p.0.model())
                    &&& old(self)@[p.0.model()] == p.1 as nat
                    &&& final(self)@ == old(self)@.remove(p.0.model())
                    &&& final(self)@.len() == old(self)@.len() - 1
                },
                None => final(self)@ == old(self)@ && old(self)@ == Map::<K::M, nat>::empty(),
            },
    {
        proof {
            lemma_tally_map_len(self.entries@);
            if self.entries@.len() > 0 {
                lemma_tally_map_entry(self.entries@, self.entries@.len() - 1);
                lemma_tally_map_drop_last(self.entries@);
                lemma_tally_map_len(self.entries@.drop_last());
            } else {
                assert(tally_map(self.entries@) =~= Map::<K::M, nat>::empty());
            }
        }
        let r = self.entries.pop();
        r
    }
}

impl<K: TallyKey> CountTable<K> {
    /// Surrender the entries: each key of the map exactly once, with its
    /// count.
    pub fn into_entries(self) -> (r: Vec<(K, usize)>)
        requires
            self.wf(),
        ensures
            r@.len() == self@.len(),
            forall|i: int, j: int|
                0 <= i < j < r@.len() ==> (#[trigger] r@[i]).0.model() != (
                #[trigger] r@[j]).0.model(),
            forall|i: int|
                0 <= i < r@.len() ==> self@.contains_key((#[trigger] r@[i]).0.model()) && self@[
                    r@[i].0.model()
                ] == r@[i].1 as nat,
    {
        proof {
            lemma_tally_map_len(self.entries@);
            assert forall|i: int|
                0 <= i < self.entries@.len() implies tally_map(self.entries@).contains_key(
                (#[trigger] self.entries@[i]).0.model(),
            ) && tally_map(self.entries@)[self.entries@[i].0.model()] == self.entries@[i].1
                as nat by {
                lemma_tally_map_entry(self.entries@, i);
            }
        }
        self.entries
    }
}

/// Updating one entry's count updates the map at that entry's key.
proof fn lemma_tally_map_update<K: TallyKey>(s: Seq<(K, usize)>, i: int, v: usize)
    requires
        0 <= i < s.len(),
        forall|p: int, q: int|
            0 <= p < q < s.len() ==> (#[trigger] s[p]).0.model() != (#[trigger] s[q]).0.model(),
    ensures
        tally_map(s.update(i, (s[i].0, v))) == tally_map(s).insert(s[i].0.model(), v as nat),
        forall|p: int, q: int|
            0 <= p < q < s.len() ==> (#[trigger] s.update(i, (s[i].0, v))[p]).0.model() != (
            #[trigger] s.update(i, (s[i].0, v))[q]).0.model(),
    decreases s.len(),
{
    let s2 = s.update(i, (s[i].0, v));
    if i == s.len() - 1 {
        assert(s2.drop_last() =~= s.drop_last());
        assert(tally_map(s2) =~= tally_map(s).insert(s[i].0.model(), v as nat));
    } else {
        lemma_tally_map_update(s.drop_last(), i, v);
        assert(s2.drop_last() =~= s.drop_last().update(i, (s[i].0, v)));
        assert(s2.last() == s.last());
        assert(tally_map(s2) == tally_map(s.drop_last()).insert(
            s[i].0.model(),
            v as nat,
        ).insert(s.last().0.model(), s.last().1 as nat));
        assert(s[i].0.model() != s.last().0.model());
        assert(tally_map(s2) =~= tally_map(s).insert(s[i].0.model(), v as nat));
    }
}

/// The map of a nonempty well-formed table loses exactly the last entry's
/// key when that entry is dropped.
proof fn lemma_tally_map_drop_last<K: TallyKey>(s: Seq<(K, usize)>)
    requires
        s.len() > 0,
        forall|p: int, q: int|
            0 <= p < q < s.len() ==> (#[trigger] s[p]).0.model() != (#[trigger] s[q]).0.model(),
    ensures
        tally_map(s.drop_last()) == tally_map(s).remove(s.last().0.model()),
{
    assert(!tally_map(s.drop_last()).contains_key(s.last().0.model())) by {
        if tally_map(s.drop_last()).contains_key(s.last().0.model()) {
            let j = lemma_tally_map_key(s.drop_last(), s.last().0.model());
        }
    }
    assert(tally_map(s.drop_last()) =~= tally_map(s).remove(s.last().0.model()));
}

/// A well-formed table has as many entries as its map has keys.
proof fn lemma_tally_map_len<K: TallyKey>(s: Seq<(K, usize)>)
    requires
        forall|p: int, q: int|
            0 <= p < q < s.len() ==> (#[trigger] s[p]).0.model() != (#[trigger] s[q]).0.model(),
    ensures
        tally_map(s).len() == s.len(),
        tally_map(s).dom().finite(),
    decreases s.len(),
{
    broadcast use vstd::map::group_map_axioms;
    broadcast use vstd::set::group_set_axioms;

    if s.len() == 0 {
        assert(tally_map(s).dom() =~= Set::<K::M>::empty());
    } else {
        lemma_tally_map_len(s.drop_last());
        lemma_tally_map_drop_last(s);
        assert(!tally_map(s.drop_last()).contains_key(s.last().0.model()));
        assert(tally_map(s).dom() =~= tally_map(s.drop_last()).dom().insert(
            s.last().0.model(),
        ));
    }
}

} // verus!
