//! A small map from texts to plain values.

use vstd::prelude::*;

verus! {

/// A map with text keys. A key occurs once.
#[derive(Clone, Debug)]
pub struct Table<T> {
    pub entries: Vec<(String, T)>,
}

impl<T> View for Table<T> {
    type V = Map<Seq<char>, T>;

    open spec fn view(&self) -> Map<Seq<char>, T> {
        Map::new(
            |k: Seq<char>|
                exists|i: int| 0 <= i < self.entries@.len() && (#[trigger] self.entries@[i]).0@ == k,
            |k: Seq<char>|
                self.entries@[choose|i: int|
                    0 <= i < self.entries@.len() && (#[trigger] self.entries@[i]).0@ == k].1,
        )
    }
}

/// The value under a key.
pub open spec fn entry<T>(m: Map<Seq<char>, T>, key: Seq<char>) -> Option<T> {
    if m.contains_key(key) {
        Some(m[key])
    } else {
        None
    }
}

impl<T: Copy> Table<T> {
    /// No key occurs twice.
    pub open spec fn wf(self) -> bool {
        forall|i: int, j: int|
            0 <= i < j < self.entries@.len() ==> (#[trigger] self.entries@[i]).0@ != (
            #[trigger] self.entries@[j]).0@
    }

    /// An empty table.
    pub fn new() -> (r: Table<T>)
        ensures
            r.wf(),
            r@ == Map::<Seq<char>, T>::empty(),
    {
        let r = Table { entries: Vec::new() };
        assert(r@ =~= Map::<Seq<char>, T>::empty());
        r
    }

    /// Where a key stands.
    fn position(&self, key: &String) -> (r: Option<usize>)
        ensures
            match r {
                Some(i) => i < self.entries@.len() && self.entries@[i as int].0@ == key@,
                None => forall|i: int|
                    0 <= i < self.entries@.len() ==> (#[trigger] self.entries@[i]).0@ != key@,
            },
    {
        let mut i: usize = 0;
        while i < self.entries.len()
            invariant
                i <= self.entries@.len(),
                forall|j: int| 0 <= j < i ==> (#[trigger] self.entries@[j]).0@ != key@,
            decreases self.entries@.len() - i,
        {
            if self.entries[i].0 == *key {
                return Some(i);
            }
            i += 1;
        }
        None
    }

    /// The value under a key.
    pub fn get(&self, key: &String) -> (r: Option<T>)
        requires
            self.wf(),
        ensures
            r == entry(self@, key@),
    {
        match self.position(key) {
            Some(i) => {
                assert(self.entries@[i as int].0@ == key@);
                Some(self.entries[i].1)
            },
            None => None,
        }
    }

    /// Another table with the same entries.
    pub fn copy(&self) -> (r: Table<T>)
        requires
            self.wf(),
        ensures
            r.wf(),
            r@ == self@,
    {
        let mut r: Table<T> = Table { entries: Vec::new() };
        let mut i: usize = 0;
        while i < self.entries.len()
            invariant
                i <= self.entries@.len(),
                r.entries@.len() == i,
                forall|j: int|
                    #![trigger r.entries@[j], self.entries@[j]]
                    0 <= j < i ==> r.entries@[j].0@ == self.entries@[j].0@ && r.entries@[j].1
                        == self.entries@[j].1,
            decreases self.entries@.len() - i,
        {
            r.entries.push((self.entries[i].0.clone(), self.entries[i].1));
            i += 1;
        }
        proof {
            assert forall|a: int, b: int| 0 <= a < b < r.entries@.len() implies (
            #[trigger] r.entries@[a]).0@ != (#[trigger] r.entries@[b]).0@ by {
                assert(self.entries@[a].0@ != self.entries@[b].0@);
            }
            assert forall|q: Seq<char>| r@.contains_key(q) == self@.contains_key(q) by {
                lemma_same(*self, r, q);
            }
            assert forall|q: Seq<char>| r@.contains_key(q) implies #[trigger] r@[q] == self@[q] by {
                lemma_same(*self, r, q);
            }
            assert(r@ =~= self@);
        }
        r
    }

    /// Puts a value under a key, replacing an earlier one.
    pub fn insert(&mut self, key: String, value: T)
        requires
            old(self).wf(),
        ensures
            final(self).wf(),
            final(self)@ == old(self)@.insert(key@, value),
    {
        let ghost before = *self;
        let ghost k = key@;
        match self.position(&key) {
            Some(i) => {
                self.entries.set(i, (key, value));
                proof {
                    let after = *self;
                    assert forall|q: Seq<char>| after@.contains_key(q) == before@.insert(
                        k,
                        value,
                    ).contains_key(q) by {
                        lemma_replaced(before, after, i as int, k, value, q);
                    }
                    assert forall|q: Seq<char>|
                        after@.contains_key(q) implies #[trigger] after@[q] == before@.insert(k, value)[q] by {
                        lemma_replaced(before, after, i as int, k, value, q);
                    }
                    assert(after@ =~= before@.insert(k, value));
                }
            },
            None => {
                self.entries.push((key, value));
                proof {
                    let after = *self;
                    assert forall|q: Seq<char>| after@.contains_key(q) == before@.insert(
                        k,
                        value,
                    ).contains_key(q) by {
                        lemma_appended(before, after, k, value, q);
                    }
                    assert forall|q: Seq<char>|
                        after@.contains_key(q) implies #[trigger] after@[q] == before@.insert(k, value)[q] by {
                        lemma_appended(before, after, k, value, q);
                    }
                    assert(after@ =~= before@.insert(k, value));
                }
            },
        }
    }
}

proof fn lemma_same<T: Copy>(a: Table<T>, b: Table<T>, q: Seq<char>)
    requires
        a.wf(),
        a.entries@.len() == b.entries@.len(),
        forall|j: int|
            #![trigger a.entries@[j]]
            #![trigger b.entries@[j]]
            0 <= j < a.entries@.len() ==> a.entries@[j].0@ == b.entries@[j].0@ && a.entries@[j].1
                == b.entries@[j].1,
    ensures
        a@.contains_key(q) == b@.contains_key(q),
        a@.contains_key(q) ==> a@[q] == b@[q],
{
    if a@.contains_key(q) {
        let j = choose|j: int| 0 <= j < a.entries@.len() && (#[trigger] a.entries@[j]).0@ == q;
        assert(b.entries@[j].0@ == q);
        let k = choose|k: int| 0 <= k < b.entries@.len() && (#[trigger] b.entries@[k]).0@ == q;
        assert(a.entries@[k].0@ == q);
    }
    if b@.contains_key(q) {
        let j = choose|j: int| 0 <= j < b.entries@.len() && (#[trigger] b.entries@[j]).0@ == q;
        assert(a.entries@[j].0@ == q);
    }
}

proof fn lemma_replaced<T: Copy>(
    before: Table<T>,
    after: Table<T>,
    i: int,
    k: Seq<char>,
    u: T,
    q: Seq<char>,
)
    requires
        before.wf(),
        0 <= i < before.entries@.len(),
        before.entries@[i].0@ == k,
        after.entries@.len() == before.entries@.len(),
        after.entries@[i].0@ == k,
        after.entries@[i].1 == u,
        forall|j: int| 0 <= j < before.entries@.len() && j != i ==> after.entries@[j] == before.entries@[j],
    ensures
        after@.contains_key(q) == before@.insert(k, u).contains_key(q),
        after@.contains_key(q) ==> after@[q] == before@.insert(k, u)[q],
{
    if before@.contains_key(q) {
        let j = choose|j: int| 0 <= j < before.entries@.len() && (#[trigger] before.entries@[j]).0@ == q;
        assert(after.entries@[j].0@ == q);
    }
    if after@.contains_key(q) {
        let j = choose|j: int| 0 <= j < after.entries@.len() && (#[trigger] after.entries@[j]).0@ == q;
        assert(before.entries@[j].0@ == q);
    }
}

proof fn lemma_appended<T: Copy>(before: Table<T>, after: Table<T>, k: Seq<char>, u: T, q: Seq<char>)
    requires
        before.wf(),
        forall|j: int| 0 <= j < before.entries@.len() ==> (#[trigger] before.entries@[j]).0@ != k,
        after.entries@.len() == before.entries@.len() + 1,
        after.entries@.last().0@ == k,
        after.entries@.last().1 == u,
        forall|j: int| 0 <= j < before.entries@.len() ==> after.entries@[j] == before.entries@[j],
    ensures
        after@.contains_key(q) == before@.insert(k, u).contains_key(q),
        after@.contains_key(q) ==> after@[q] == before@.insert(k, u)[q],
{
    let n = before.entries@.len() as int;
    assert(after.entries@[n].0@ == k);
    if before@.contains_key(q) {
        let j = choose|j: int| 0 <= j < before.entries@.len() && (#[trigger] before.entries@[j]).0@ == q;
        assert(after.entries@[j].0@ == q);
    }
    if after@.contains_key(q) {
        let j = choose|j: int| 0 <= j < after.entries@.len() && (#[trigger] after.entries@[j]).0@ == q;
        if j < n {
            assert(before.entries@[j].0@ == q);
        }
    }
}


} // verus!
