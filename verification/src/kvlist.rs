//! A small association list with unique `u128` keys, viewed as a `Map`.
//! Every keyed table of the library (peer table, in-flight table,
//! reassembly tables, dedup set) is one of these; iteration order is the
//! insertion order of the surviving entries.
use vstd::prelude::*;

verus! {

/// The map an entry list denotes: later entries win, though well-formed
/// lists never repeat a key.
pub open spec fn map_of<V>(s: Seq<(u128, V)>) -> Map<u128, V>
    decreases s.len(),
{
    if s.len() == 0 {
        Map::empty()
    } else {
        map_of(s.drop_last()).insert(s.last().0, s.last().1)
    }
}

/// No key occurs twice.
pub open spec fn keys_distinct<V>(s: Seq<(u128, V)>) -> bool {
    forall|i: int, j: int| 0 <= i < j < s.len() ==> s[i].0 != s[j].0
}

pub proof fn lemma_map_of_not_contains<V>(s: Seq<(u128, V)>, k: u128)
    requires
        forall|i: int| 0 <= i < s.len() ==> s[i].0 != k,
    ensures
        !map_of(s).contains_key(k),
    decreases s.len(),
{
    if s.len() > 0 {
        lemma_map_of_not_contains(s.drop_last(), k);
    }
}

pub proof fn lemma_map_of_contains<V>(s: Seq<(u128, V)>, i: int)
    requires
        keys_distinct(s),
        0 <= i < s.len(),
    ensures
        map_of(s).contains_key(s[i].0),
        map_of(s)[s[i].0] == s[i].1,
    decreases s.len(),
{
    if i == s.len() - 1 {
    } else {
        lemma_map_of_contains(s.drop_last(), i);
    }
}

/// Every key of the map stands in the list.
pub proof fn lemma_map_of_key_index<V>(s: Seq<(u128, V)>, k: u128) -> (i: int)
    requires
        map_of(s).contains_key(k),
    ensures
        0 <= i < s.len(),
        s[i].0 == k,
    decreases s.len(),
{
    if s.len() > 0 && s.last().0 == k {
        s.len() - 1
    } else {
        lemma_map_of_key_index(s.drop_last(), k)
    }
}

pub proof fn lemma_map_of_remove_at<V>(s: Seq<(u128, V)>, i: int)
    requires
        keys_distinct(s),
        0 <= i < s.len(),
    ensures
        map_of(s.remove(i)) == map_of(s).remove(s[i].0),
        keys_distinct(s.remove(i)),
    decreases s.len(),
{
    let k = s[i].0;
    if i == s.len() - 1 {
        assert(s.remove(i) =~= s.drop_last());
        lemma_map_of_not_contains(s.drop_last(), k);
        assert(map_of(s.drop_last()) =~= map_of(s.drop_last()).insert(k, s[i].1).remove(k));
    } else {
        lemma_map_of_remove_at(s.drop_last(), i);
        assert(s.remove(i).drop_last() =~= s.drop_last().remove(i));
        assert(s.remove(i).last() == s.last());
        assert(map_of(s.remove(i)) == map_of(s.drop_last().remove(i)).insert(
            s.last().0,
            s.last().1,
        ));
        assert(map_of(s).remove(k) =~= map_of(s.drop_last()).remove(k).insert(
            s.last().0,
            s.last().1,
        ));
    }
}

/// A well-formed list denotes a finite map with one key per entry.
pub proof fn lemma_map_of_dom_len<V>(s: Seq<(u128, V)>)
    requires
        keys_distinct(s),
    ensures
        map_of(s).dom().finite(),
        map_of(s).dom().len() == s.len(),
    decreases s.len(),
{
    if s.len() == 0 {
        assert(map_of(s).dom() =~= Set::<u128>::empty());
    } else {
        assert(keys_distinct(s.drop_last()));
        lemma_map_of_dom_len(s.drop_last());
        lemma_map_of_not_contains(s.drop_last(), s.last().0);
        assert(map_of(s).dom() =~= map_of(s.drop_last()).dom().insert(s.last().0));
    }
}

pub struct KvList<V> {
    pub entries: Vec<(u128, V)>,
}

impl<V> View for KvList<V> {
    type V = Map<u128, V>;

    open spec fn view(&self) -> Map<u128, V> {
        map_of(self.entries@)
    }
}

impl<V> KvList<V> {
    /// The underlying entries, in iteration order.
    pub open spec fn spec_entries(&self) -> Seq<(u128, V)> {
        self.entries@
    }

    pub open spec fn wf(&self) -> bool {
        keys_distinct(self.entries@)
    }

    /// The number of entries, which under `wf` is the size of the map.
    pub open spec fn spec_len(&self) -> nat {
        self.entries@.len()
    }

    pub fn new() -> (r: KvList<V>)
        ensures
            r.wf(),
            r@ == Map::<u128, V>::empty(),
            r.spec_len() == 0,
    {
        let r = KvList { entries: Vec::new() };
        proof {
            assert(r.entries@.len() == 0);
        }
        r
    }

    pub fn len(&self) -> (r: usize)
        ensures
            r == self.spec_len(),
    {
        self.entries.len()
    }

    /// The position of `k` among the entries, if it is there.
    fn find(&self, k: u128) -> (r: Option<usize>)
        requires
            self.wf(),
        ensures
            r matches Some(i) ==> i < self.spec_len() && self.spec_entries()[i as int].0 == k,
            r is None ==> forall|i: int|
                0 <= i < self.spec_len() ==> self.spec_entries()[i].0 != k,
            r is Some <==> self@.contains_key(k),
    {
        let mut i: usize = 0;
        while i < self.entries.len()
            invariant
                self.wf(),
                i <= self.entries@.len(),
                forall|j: int| 0 <= j < i ==> self.entries@[j].0 != k,
            decreases self.entries@.len() - i,
        {
            if self.entries[i].0 == k {
                proof {
                    lemma_map_of_contains(self.entries@, i as int);
                }
                return Some(i);
            }
            i = i + 1;
        }
        proof {
            lemma_map_of_not_contains(self.entries@, k);
        }
        None
    }

    pub fn contains_key(&self, k: u128) -> (r: bool)
        requires
            self.wf(),
        ensures
            r == self@.contains_key(k),
    {
        self.find(k).is_some()
    }

    pub fn get(&self, k: u128) -> (r: Option<&V>)
        requires
            self.wf(),
        ensures
            r is Some <==> self@.contains_key(k),
            r matches Some(v) ==> self@[k] == *v,
    {
        match self.find(k) {
            Some(i) => {
                proof {
                    lemma_map_of_contains(self.entries@, i as int);
                }
                Some(&self.entries[i].1)
            },
            None => None,
        }
    }

    /// Inserts or replaces the binding of `k`. A replaced binding keeps no
    /// trace; a new binding goes to the back of the iteration order.
    pub fn insert(&mut self, k: u128, v: V)
        requires
            old(self).wf(),
        ensures
            final(self).wf(),
            final(self)@ == old(self)@.insert(k, v),
            final(self).spec_len() == old(self).spec_len() + (if old(self)@.contains_key(k) {
                0int
            } else {
                1int
            }),
    {
        let ghost s0 = self.entries@;
        match self.find(k) {
            Some(i) => {
                proof {
                    lemma_map_of_remove_at(s0, i as int);
                    lemma_map_of_contains(s0, i as int);
                }
                let _ = self.entries.remove(i);
                let ghost s1 = self.entries@;
                self.entries.push((k, v));
                proof {
                    assert(s1 == s0.remove(i as int));
                    assert(self.entries@.drop_last() =~= s1);
                    assert(self.entries@.last() == (k, v));
                    assert(map_of(self.entries@) == map_of(s1).insert(k, v));
                    assert(map_of(s0).remove(k).insert(k, v) =~= map_of(s0).insert(k, v));
                    assert(keys_distinct(s1));
                    assert forall|a: int|
                        0 <= a < s1.len() implies #[trigger] s1[a].0 != k by {
                        lemma_map_of_contains(s1, a);
                        lemma_map_of_not_contains(s1, k);
                    }
                    assert forall|a: int, b: int|
                        0 <= a < b < self.entries@.len() implies self.entries@[a].0
                        != self.entries@[b].0 by {
                        assert(self.entries@[a] == s1[a]);
                        if b < self.entries@.len() - 1 {
                            assert(self.entries@[b] == s1[b]);
                        } else {
                            assert(self.entries@[b].0 == k);
                        }
                    }
                }
            },
            None => {
                proof {
                    assert forall|i: int| 0 <= i < s0.len() implies #[trigger] s0[i].0 != k by {
                        lemma_map_of_contains(s0, i);
                    }
                }
                self.entries.push((k, v));
                proof {
                    assert(self.entries@.drop_last() =~= s0);
                    assert(self.entries@.last() == (k, v));
                    assert(map_of(self.entries@) == map_of(s0).insert(k, v));
                    assert forall|a: int, b: int|
                        0 <= a < b < self.entries@.len() implies self.entries@[a].0
                        != self.entries@[b].0 by {
                        assert(self.entries@[a] == s0[a]);
                        if b < self.entries@.len() - 1 {
                            assert(self.entries@[b] == s0[b]);
                        } else {
                            assert(self.entries@[b].0 == k);
                        }
                    }
                }
            },
        }
    }

    /// Removes the binding of `k`, handing its value back.
    pub fn remove(&mut self, k: u128) -> (r: Option<V>)
        requires
            old(self).wf(),
        ensures
            final(self).wf(),
            final(self)@ == old(self)@.remove(k),
            r is Some <==> old(self)@.contains_key(k),
            r matches Some(v) ==> old(self)@[k] == v,
            final(self).spec_len() == old(self).spec_len() - (if old(self)@.contains_key(k) {
                1int
            } else {
                0int
            }),
    {
        let ghost s0 = self.entries@;
        match self.find(k) {
            Some(i) => {
                proof {
                    lemma_map_of_remove_at(s0, i as int);
                    lemma_map_of_contains(s0, i as int);
                }
                let (_, v) = self.entries.remove(i);
                Some(v)
            },
            None => {
                proof {
                    assert forall|i: int| 0 <= i < s0.len() implies #[trigger] s0[i].0 != k by {
                        lemma_map_of_contains(s0, i);
                    }
                    assert(map_of(s0).remove(k) =~= map_of(s0));
                }
                None
            },
        }
    }

    /// The key at position `i` of the iteration order.
    pub fn key_at(&self, i: usize) -> (r: u128)
        requires
            i < self.spec_len(),
        ensures
            r == self.spec_entries()[i as int].0,
    {
        self.entries[i].0
    }

    /// The value at position `i` of the iteration order.
    pub fn value_at(&self, i: usize) -> (r: &V)
        requires
            i < self.spec_len(),
        ensures
            *r == self.spec_entries()[i as int].1,
    {
        &self.entries[i].1
    }

    /// All keys, in iteration order.
    pub fn keys(&self) -> (r: Vec<u128>)
        ensures
            r@ == self.spec_entries().map_values(|e: (u128, V)| e.0),
    {
        let mut out: Vec<u128> = Vec::new();
        let mut i: usize = 0;
        while i < self.entries.len()
            invariant
                i <= self.entries@.len(),
                out@ == self.entries@.take(i as int).map_values(|e: (u128, V)| e.0),
            decreases self.entries@.len() - i,
        {
            out.push(self.entries[i].0);
            i = i + 1;
            proof {
                assert(self.entries@.take(i as int).map_values(|e: (u128, V)| e.0) =~= self.entries@.take(
                    i as int - 1,
                ).map_values(|e: (u128, V)| e.0).push(self.entries@[i - 1].0));
            }
        }
        proof {
            assert(self.entries@.take(self.entries@.len() as int) =~= self.entries@);
        }
        out
    }
}

} // verus!
