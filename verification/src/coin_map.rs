//! A map keyed by coin symbol that remembers in which order its keys came.

use vstd::prelude::*;
use vstd::string::*;

verus! {

/// Values by coin symbol. No symbol occurs twice, and a walk meets the symbols in the
/// order of their first insertion.
pub struct CoinMap<V> {
    entries: Vec<(String, V)>,
}

/// The map that a list of entries stands for; of two entries with one key the later counts.
pub open spec fn entries_map<V>(s: Seq<(String, V)>) -> Map<Seq<char>, V>
    decreases s.len(),
{
    if s.len() == 0 {
        Map::empty()
    } else {
        entries_map(s.drop_last()).insert(s.last().0@, s.last().1)
    }
}

/// No symbol occurs twice.
pub open spec fn distinct_keys<V>(s: Seq<(String, V)>) -> bool {
    forall|i: int, j: int|
        0 <= i < s.len() && 0 <= j < s.len() && i != j ==> #[trigger] s[i].0@ != #[trigger] s[j].0@
}

proof fn lemma_entries_map<V>(s: Seq<(String, V)>)
    ensures
        distinct_keys(s) ==> forall|i: int|
            0 <= i < s.len() ==> entries_map(s).contains_key(#[trigger] s[i].0@) && entries_map(
                s,
            )[s[i].0@] == s[i].1,
        forall|k: Seq<char>|
            #[trigger] entries_map(s).contains_key(k) ==> exists|i: int|
                0 <= i < s.len() && #[trigger] s[i].0@ == k,
        forall|i: int| 0 <= i < s.len() ==> entries_map(s).contains_key(#[trigger] s[i].0@),
        entries_map(s).dom().finite(),
        distinct_keys(s) ==> entries_map(s).dom().len() == s.len(),
    decreases s.len(),
{
    if s.len() > 0 {
        let t = s.drop_last();
        lemma_entries_map(t);
        assert forall|k: Seq<char>| #[trigger] entries_map(s).contains_key(k) implies exists|i: int|
            0 <= i < s.len() && #[trigger] s[i].0@ == k by {
            if k == s.last().0@ {
                assert(s[s.len() - 1].0@ == k);
            } else {
                let i = choose|i: int| 0 <= i < t.len() && #[trigger] t[i].0@ == k;
                assert(s[i].0@ == k);
            }
        }
        assert forall|i: int| 0 <= i < s.len() implies entries_map(s).contains_key(#[trigger] s[i].0@) by {
            if i < t.len() {
                assert(t[i] == s[i]);
            }
        }
        if distinct_keys(s) {
            assert(distinct_keys(t)) by {
                assert forall|i: int, j: int|
                    0 <= i < t.len() && 0 <= j < t.len() && i != j implies #[trigger] t[i].0@
                    != #[trigger] t[j].0@ by {
                    assert(t[i] == s[i] && t[j] == s[j]);
                }
            }
            assert forall|i: int| 0 <= i < s.len() implies entries_map(s)[#[trigger] s[i].0@] == s[i].1 by {
                if i < t.len() {
                    assert(t[i] == s[i]);
                    assert(s[i].0@ != s[s.len() - 1].0@);
                }
            }
            assert(!entries_map(t).contains_key(s.last().0@)) by {
                if entries_map(t).contains_key(s.last().0@) {
                    let i = choose|i: int| 0 <= i < t.len() && #[trigger] t[i].0@ == s.last().0@;
                    assert(s[i].0@ != s[s.len() - 1].0@);
                }
            }
        }
    }
}

proof fn lemma_update<V>(s: Seq<(String, V)>, i: int, e: (String, V))
    requires
        distinct_keys(s),
        0 <= i < s.len(),
        e.0 == s[i].0,
    ensures
        distinct_keys(s.update(i, e)),
        entries_map(s.update(i, e)) == entries_map(s).insert(s[i].0@, e.1),
    decreases s.len(),
{
    let u = s.update(i, e);
    assert forall|a: int, b: int|
        0 <= a < u.len() && 0 <= b < u.len() && a != b implies #[trigger] u[a].0@ != #[trigger] u[b].0@ by {
        assert(u[a].0 == s[a].0 && u[b].0 == s[b].0);
    }
    let t = s.drop_last();
    assert(distinct_keys(t)) by {
        assert forall|a: int, b: int|
            0 <= a < t.len() && 0 <= b < t.len() && a != b implies #[trigger] t[a].0@ != #[trigger] t[b].0@ by {
            assert(t[a] == s[a] && t[b] == s[b]);
        }
    }
    if i == s.len() - 1 {
        assert(u.drop_last() =~= t);
        assert(entries_map(u) =~= entries_map(s).insert(s[i].0@, e.1));
    } else {
        lemma_update(t, i, e);
        assert(u.drop_last() =~= t.update(i, e));
        assert(u.last() == s.last());
        assert(s[i].0@ != s[s.len() - 1].0@);
        assert(entries_map(u) =~= entries_map(s).insert(s[i].0@, e.1));
    }
}

impl<V> View for CoinMap<V> {
    type V = Map<Seq<char>, V>;

    closed spec fn view(&self) -> Map<Seq<char>, V> {
        entries_map(self.entries@)
    }
}

impl<V> CoinMap<V> {
    pub closed spec fn wf(&self) -> bool {
        distinct_keys(self.entries@)
    }

    /// The symbols in the order in which a walk meets them.
    pub closed spec fn keys(&self) -> Seq<Seq<char>> {
        Seq::new(self.entries@.len(), |i: int| self.entries@[i].0@)
    }

    /// The walk meets each symbol of the map once and no other.
    pub proof fn lemma_keys(&self)
        requires
            self.wf(),
        ensures
            forall|i: int| 0 <= i < self.keys().len() ==> self@.contains_key(#[trigger] self.keys()[i]),
            forall|k: Seq<char>| #[trigger] self@.contains_key(k) ==> self.keys().contains(k),
            self.keys().no_duplicates(),
            self@.dom().finite(),
            self@.dom().len() == self.keys().len(),
    {
        lemma_entries_map(self.entries@);
        assert forall|k: Seq<char>| #[trigger] self@.contains_key(k) implies self.keys().contains(k) by {
            let i = choose|i: int| 0 <= i < self.entries@.len() && #[trigger] self.entries@[i].0@ == k;
            assert(self.keys()[i] == k);
        }
    }

    pub fn new() -> (r: Self)
        ensures
            r.wf(),
            r@ == Map::<Seq<char>, V>::empty(),
            r.keys() == Seq::<Seq<char>>::empty(),
    {
        let r = CoinMap { entries: Vec::new() };
        assert(r.keys() =~= Seq::<Seq<char>>::empty());
        r
    }

    /// A map from a list of entries in which no symbol occurs twice.
    pub fn from_entries(entries: Vec<(String, V)>) -> (r: Self)
        requires
            distinct_keys(entries@),
        ensures
            r.wf(),
            r@ == entries_map(entries@),
            r.keys() == Seq::new(entries@.len(), |i: int| entries@[i].0@),
    {
        CoinMap { entries }
    }

    /// The symbols and values in the order in which a walk meets them.
    pub fn entries(&self) -> (r: &Vec<(String, V)>)
        requires
            self.wf(),
        ensures
            distinct_keys(r@),
            entries_map(r@) == self@,
            r@.len() == self.keys().len(),
            forall|i: int| 0 <= i < r@.len() ==> (#[trigger] r@[i]).0@ == self.keys()[i] && r@[i].1
                == self@[self.keys()[i]],
    {
        proof {
            lemma_entries_map(self.entries@);
        }
        &self.entries
    }

    pub fn len(&self) -> (n: usize)
        requires
            self.wf(),
        ensures
            n == self.keys().len(),
            n == self@.dom().len(),
    {
        proof {
            lemma_entries_map(self.entries@);
        }
        self.entries.len()
    }

    /// The symbol at a place of the walk.
    pub fn key(&self, i: usize) -> (r: &String)
        requires
            i < self.keys().len(),
        ensures
            r@ == self.keys()[i as int],
    {
        &self.entries[i].0
    }

    /// The value at a place of the walk.
    pub fn value(&self, i: usize) -> (r: &V)
        requires
            self.wf(),
            i < self.keys().len(),
        ensures
            self@.contains_key(self.keys()[i as int]),
            *r == self@[self.keys()[i as int]],
    {
        proof {
            lemma_entries_map(self.entries@);
        }
        &self.entries[i].1
    }

    /// The value at a place of the walk, for change in place.
    pub fn value_mut(&mut self, i: usize) -> (r: &mut V)
        requires
            old(self).wf(),
            i < old(self).keys().len(),
        ensures
            *r == old(self)@[old(self).keys()[i as int]],
            final(self).wf(),
            final(self).keys() == old(self).keys(),
            final(self)@ == old(self)@.insert(old(self).keys()[i as int], *final(r)),
    {
        proof {
            let s = self.entries@;
            lemma_entries_map(s);
            assert forall|e: (String, V)| e.0 == s[i as int].0 implies entries_map(
                #[trigger] s.update(i as int, e),
            ) == entries_map(s).insert(s[i as int].0@, e.1) by {
                lemma_update(s, i as int, e);
            }
        }
        &mut self.entries[i].1
    }

    /// Where the walk meets a symbol.
    pub fn position(&self, k: &str) -> (r: Option<usize>)
        requires
            self.wf(),
        ensures
            match r {
                Some(i) => i < self.keys().len() && self.keys()[i as int] == k@ && self@.contains_key(k@),
                None => !self@.contains_key(k@),
            },
    {
        let wanted = k.to_owned();
        let mut i: usize = 0;
        while i < self.entries.len()
            invariant
                i <= self.entries@.len(),
                wanted@ == k@,
                self.wf(),
                forall|j: int| 0 <= j < i ==> #[trigger] self.entries@[j].0@ != k@,
            decreases self.entries@.len() - i,
        {
            if self.entries[i].0 == wanted {
                proof {
                    lemma_entries_map(self.entries@);
                }
                return Some(i);
            }
            i = i + 1;
        }
        proof {
            lemma_entries_map(self.entries@);
        }
        None
    }

    pub fn contains(&self, k: &str) -> (r: bool)
        requires
            self.wf(),
        ensures
            r == self@.contains_key(k@),
    {
        self.position(k).is_some()
    }

    pub fn get(&self, k: &str) -> (r: Option<&V>)
        requires
            self.wf(),
        ensures
            match r {
                Some(v) => self@.contains_key(k@) && *v == self@[k@],
                None => !self@.contains_key(k@),
            },
    {
        match self.position(k) {
            Some(i) => Some(self.value(i)),
            None => None,
        }
    }

    /// Sets the value of a symbol. A new symbol comes last in the walk.
    pub fn insert(&mut self, k: String, v: V)
        requires
            old(self).wf(),
        ensures
            final(self).wf(),
            final(self)@ == old(self)@.insert(k@, v),
            final(self).keys() == (if old(self)@.contains_key(k@) {
                old(self).keys()
            } else {
                old(self).keys().push(k@)
            }),
    {
        match self.position(k.as_str()) {
            Some(i) => {
                *self.value_mut(i) = v;
            },
            None => {
                proof {
                    lemma_entries_map(self.entries@);
                }
                let ghost before = self.entries@;
                self.entries.push((k, v));
                assert(self.entries@.drop_last() =~= before);
                assert(self.keys() =~= old(self).keys().push(k@));
            },
        }
    }

    /// Takes a symbol out; the others keep their order in the walk.
    pub fn remove(&mut self, k: &str) -> (r: Option<V>)
        requires
            old(self).wf(),
        ensures
            final(self).wf(),
            final(self)@ == old(self)@.remove(k@),
            final(self).keys() == (if old(self)@.contains_key(k@) {
                old(self).keys().remove(old(self).keys().index_of(k@))
            } else {
                old(self).keys()
            }),
            match r {
                Some(v) => old(self)@.contains_key(k@) && v == old(self)@[k@],
                None => !old(self)@.contains_key(k@),
            },
    {
        match self.position(k) {
            Some(i) => {
                let ghost before = self.entries@;
                let (_, v) = self.entries.remove(i);
                proof {
                    let after = self.entries@;
                    assert forall|a: int, b: int|
                        0 <= a < after.len() && 0 <= b < after.len() && a != b implies #[trigger] after[a].0@
                        != #[trigger] after[b].0@ by {
                        let a0 = if a < i { a } else { a + 1 };
                        let b0 = if b < i { b } else { b + 1 };
                        assert(after[a] == before[a0] && after[b] == before[b0]);
                    }
                    lemma_entries_map(before);
                    lemma_entries_map(after);
                    assert forall|x: Seq<char>| #[trigger]
                        entries_map(after).contains_key(x) == entries_map(before).remove(k@).contains_key(x) by {
                        if entries_map(after).contains_key(x) {
                            let a = choose|a: int| 0 <= a < after.len() && #[trigger] after[a].0@ == x;
                            let a0 = if a < i { a } else { a + 1 };
                            assert(after[a] == before[a0]);
                            assert(before[a0].0@ != before[i as int].0@);
                        }
                        if entries_map(before).contains_key(x) && x != k@ {
                            let a = choose|a: int| 0 <= a < before.len() && #[trigger] before[a].0@ == x;
                            let a1 = if a < i { a } else { a - 1 };
                            assert(after[a1] == before[a]);
                        }
                    }
                    assert forall|x: Seq<char>| #[trigger]
                        entries_map(after).contains_key(x) implies entries_map(after)[x] == entries_map(
                        before,
                    )[x] by {
                        let a = choose|a: int| 0 <= a < after.len() && #[trigger] after[a].0@ == x;
                        let a0 = if a < i { a } else { a + 1 };
                        assert(after[a] == before[a0]);
                    }
                    assert(entries_map(after) =~= entries_map(before).remove(k@));
                    let keys = old(self).keys();
                    old(self).lemma_keys();
                    assert(keys[i as int] == k@);
                    assert(keys.index_of(k@) == i);
                    assert(self.keys() =~= keys.remove(i as int));
                }
                Some(v)
            },
            None => {
                assert(self@.remove(k@) =~= self@);
                None
            },
        }
    }
}

} // verus!
