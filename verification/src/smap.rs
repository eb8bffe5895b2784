//! A small name-to-value map, stored as a vector of pairs with pairwise
//! distinct keys. Lookup compares keys by their character content, and
//! iteration follows the order of first insertion, which is therefore the
//! documented traversal order wherever the planner walks a map.

use vstd::prelude::*;

verus! {

/// An entry sequence: each element is a key (as its character sequence)
/// paired with a value.
pub open spec fn map_has<V>(m: Seq<(Seq<char>, V)>, k: Seq<char>) -> bool {
    exists|i: int| 0 <= i < m.len() && (#[trigger] m[i]).0 == k
}

/// The index of the entry with key `k`; meaningful only when `map_has`
/// holds, and unique under `keys_unique`.
pub open spec fn map_idx<V>(m: Seq<(Seq<char>, V)>, k: Seq<char>) -> int {
    choose|i: int| 0 <= i < m.len() && (#[trigger] m[i]).0 == k
}

/// The value bound to `k`; meaningful only when `map_has` holds.
pub open spec fn map_val<V>(m: Seq<(Seq<char>, V)>, k: Seq<char>) -> V {
    m[map_idx(m, k)].1
}

pub open spec fn keys_unique<V>(m: Seq<(Seq<char>, V)>) -> bool {
    forall|i: int, j: int| 0 <= i < j < m.len() ==> (#[trigger] m[i]).0 != (#[trigger] m[j]).0
}

/// `m` with `k` bound to `v`: overwritten in place when the key is present,
/// appended at the end when it is not.
pub open spec fn map_set<V>(m: Seq<(Seq<char>, V)>, k: Seq<char>, v: V) -> Seq<(Seq<char>, V)> {
    if map_has(m, k) {
        m.update(map_idx(m, k), (k, v))
    } else {
        m.push((k, v))
    }
}

pub proof fn lemma_idx_of<V>(m: Seq<(Seq<char>, V)>, i: int)
    requires
        keys_unique(m),
        0 <= i < m.len(),
    ensures
        map_has(m, m[i].0),
        map_idx(m, m[i].0) == i,
        map_val(m, m[i].0) == m[i].1,
{
    assert(map_has(m, m[i].0));
    let i2 = map_idx(m, m[i].0);
    if i2 != i {
        assert(m[i].0 != m[i2].0);
    }
}

pub proof fn lemma_map_set_has<V>(m: Seq<(Seq<char>, V)>, k: Seq<char>, v: V, k2: Seq<char>)
    requires
        keys_unique(m),
    ensures
        map_has(map_set(m, k, v), k2) == (map_has(m, k2) || k2 == k),
        keys_unique(map_set(m, k, v)),
        k2 == k ==> map_val(map_set(m, k, v), k2) == v,
        map_has(m, k2) && k2 != k ==> map_val(map_set(m, k, v), k2) == map_val(m, k2),
{
    let m2 = map_set(m, k, v);
    if map_has(m, k) {
        let i = map_idx(m, k);
        assert(m2[i] == (k, v));
        assert(forall|j: int| 0 <= j < m.len() && j != i ==> m2[j] == m[j]);
        assert(keys_unique(m2));
        lemma_idx_of(m2, i);
        if map_has(m, k2) && k2 != k {
            let j = map_idx(m, k2);
            assert(m[j].0 == k2);
            assert(j != i);
            assert(m2[j].0 == k2);
            lemma_idx_of(m2, j);
        }
        if map_has(m2, k2) && k2 != k {
            let j = map_idx(m2, k2);
            assert(m[j].0 == k2);
        }
    } else {
        let n = m.len() as int;
        assert(m2[n] == (k, v));
        assert(forall|j: int| 0 <= j < n ==> m2[j] == m[j]);
        assert(forall|j: int| 0 <= j < n ==> m2[j].0 != k);
        assert(keys_unique(m2));
        lemma_idx_of(m2, n);
        if map_has(m, k2) {
            let j = map_idx(m, k2);
            assert(m2[j].0 == k2);
            lemma_idx_of(m2, j);
        }
        if map_has(m2, k2) && k2 != k {
            let j = map_idx(m2, k2);
            assert(j < n);
        }
    }
}

#[derive(Debug)]
pub struct SMap<V> {
    entries: Vec<(String, V)>,
}

impl<V> View for SMap<V> {
    type V = Seq<(Seq<char>, V)>;

    closed spec fn view(&self) -> Seq<(Seq<char>, V)> {
        self.entries@.map_values(|e: (String, V)| (e.0@, e.1))
    }
}

impl<V> SMap<V> {
    pub open spec fn wf(&self) -> bool {
        keys_unique(self@)
    }

    pub fn new() -> (r: SMap<V>)
        ensures
            r@ == Seq::<(Seq<char>, V)>::empty(),
            r.wf(),
    {
        let r = SMap { entries: Vec::new() };
        proof {
            assert(r@ =~= Seq::<(Seq<char>, V)>::empty());
        }
        r
    }

    pub fn len(&self) -> (n: usize)
        ensures
            n == self@.len(),
    {
        self.entries.len()
    }

    pub fn key_at(&self, i: usize) -> (k: &String)
        requires
            i < self@.len(),
        ensures
            k@ == self@[i as int].0,
    {
        &self.entries[i].0
    }

    pub fn val_at(&self, i: usize) -> (v: &V)
        requires
            i < self@.len(),
        ensures
            *v == self@[i as int].1,
    {
        &self.entries[i].1
    }

    /// The position of the entry whose key reads `k`, if any.
    fn position(&self, k: &String) -> (r: Option<usize>)
        requires
            self.wf(),
        ensures
            match r {
                Some(i) => i < self@.len() && self@[i as int].0 == k@ && map_has(self@, k@)
                    && map_idx(self@, k@) == i as int,
                None => !map_has(self@, k@),
            },
    {
        let n = self.entries.len();
        let mut i: usize = 0;
        while i < n
            invariant
                i <= n,
                n == self@.len(),
                self.wf(),
                forall|j: int| 0 <= j < i ==> (#[trigger] self@[j]).0 != k@,
            decreases n - i,
        {
            proof {
                assert(self@[i as int] == (self.entries@[i as int].0@, self.entries@[i as int].1));
            }
            if self.entries[i].0.eq(k) {
                proof {
                    lemma_idx_of(self@, i as int);
                }
                return Some(i);
            }
            i = i + 1;
        }
        None
    }

    pub fn contains_key(&self, k: &String) -> (r: bool)
        requires
            self.wf(),
        ensures
            r == map_has(self@, k@),
    {
        self.position(k).is_some()
    }

    pub fn get<'a>(&'a self, k: &String) -> (r: Option<&'a V>)
        requires
            self.wf(),
        ensures
            match r {
                Some(v) => map_has(self@, k@) && *v == map_val(self@, k@),
                None => !map_has(self@, k@),
            },
    {
        match self.position(k) {
            Some(i) => Some(&self.entries[i].1),
            None => None,
        }
    }

    pub fn insert(&mut self, k: String, v: V)
        requires
            old(self).wf(),
        ensures
            final(self)@ == map_set(old(self)@, k@, v),
            final(self).wf(),
    {
        proof {
            lemma_map_set_has(self@, k@, v, k@);
        }
        match self.position(&k) {
            Some(i) => {
                self.entries[i] = (k, v);
                proof {
                    assert(self@ =~= map_set(old(self)@, k@, v));
                }
            },
            None => {
                self.entries.push((k, v));
                proof {
                    assert(self@ =~= map_set(old(self)@, k@, v));
                }
            },
        }
    }
}

} // verus!
