//! A small map keyed by names, kept as a list of distinct (name, value)
//! pairs in insertion order.
use vstd::prelude::*;
use crate::text::{to_chars, vec_eq};

verus! {

/// A map from names to values; each name occurs at most once.
#[derive(Debug, Clone)]
pub struct NameTable<V> {
    entries: Vec<(String, V)>,
}

/// The map that a list of pairs denotes when later pairs replace earlier ones.
pub open spec fn pairs_map<K, V>(es: Seq<(K, V)>) -> Map<K, V>
    decreases es.len(),
{
    if es.len() == 0 {
        Map::empty()
    } else {
        pairs_map(es.drop_last()).insert(es.last().0, es.last().1)
    }
}

/// The value stored under `k`, if any.
pub open spec fn lookup<K, V>(m: Map<K, V>, k: K) -> Option<V> {
    if m.contains_key(k) {
        Some(m[k])
    } else {
        None
    }
}

pub open spec fn distinct_names<K, V>(es: Seq<(K, V)>) -> bool {
    forall|i: int, j: int| 0 <= i < j < es.len() ==> #[trigger] es[i].0 != #[trigger] es[j].0
}

pub proof fn lemma_pairs_map_dom<K, V>(es: Seq<(K, V)>, k: K)
    ensures
        pairs_map(es).contains_key(k) <==> exists|i: int| 0 <= i < es.len() && #[trigger] es[i].0
            == k,
    decreases es.len(),
{
    if es.len() > 0 {
        lemma_pairs_map_dom(es.drop_last(), k);
        if pairs_map(es.drop_last()).contains_key(k) {
            let i = choose|i: int| 0 <= i < es.drop_last().len() && #[trigger] es.drop_last()[i].0 == k;
            assert(es[i].0 == k);
        }
        if exists|i: int| 0 <= i < es.len() && #[trigger] es[i].0 == k {
            let i = choose|i: int| 0 <= i < es.len() && #[trigger] es[i].0 == k;
            if i < es.len() - 1 {
                assert(es.drop_last()[i].0 == k);
            }
        }
    }
}

pub proof fn lemma_pairs_map_at<K, V>(es: Seq<(K, V)>, i: int)
    requires
        distinct_names(es),
        0 <= i < es.len(),
    ensures
        pairs_map(es).contains_key(es[i].0),
        pairs_map(es)[es[i].0] == es[i].1,
    decreases es.len(),
{
    if i < es.len() - 1 {
        lemma_pairs_map_at(es.drop_last(), i);
        assert(es.drop_last()[i] == es[i]);
    }
}

pub proof fn lemma_pairs_map_update<K, V>(es: Seq<(K, V)>, i: int, v: V)
    requires
        distinct_names(es),
        0 <= i < es.len(),
    ensures
        pairs_map(es.update(i, (es[i].0, v))) == pairs_map(es).insert(es[i].0, v),
        distinct_names(es.update(i, (es[i].0, v))),
    decreases es.len(),
{
    let es2 = es.update(i, (es[i].0, v));
    if i == es.len() - 1 {
        assert(es2.drop_last() =~= es.drop_last());
        assert(pairs_map(es2) =~= pairs_map(es).insert(es[i].0, v));
    } else {
        lemma_pairs_map_update(es.drop_last(), i, v);
        assert(es2.drop_last() =~= es.drop_last().update(i, (es[i].0, v)));
        assert(es.last().0 != es[i].0);
        assert(pairs_map(es2) =~= pairs_map(es).insert(es[i].0, v));
    }
}

impl<V: Copy> NameTable<V> {
    pub closed spec fn pairs(&self) -> Seq<(Seq<char>, V)> {
        self.entries@.map_values(|e: (String, V)| (e.0@, e.1))
    }

    pub open spec fn wf(&self) -> bool {
        distinct_names(self.pairs())
    }

    pub open spec fn map(&self) -> Map<Seq<char>, V> {
        pairs_map(self.pairs())
    }

    /// An empty table.
    pub fn new() -> (r: Self)
        ensures
            r.wf(),
            r.map() == Map::<Seq<char>, V>::empty(),
            r.pairs().len() == 0,
    {
        let r = NameTable { entries: Vec::new() };
        assert(r.pairs() =~= Seq::<(Seq<char>, V)>::empty());
        r
    }

    /// Number of names in the table.
    pub fn len(&self) -> (r: usize)
        ensures
            r == self.pairs().len(),
    {
        self.entries.len()
    }

    /// The `i`-th (name, value) pair, in insertion order.
    pub fn entry(&self, i: usize) -> (r: (&String, V))
        requires
            i < self.pairs().len(),
        ensures
            (r.0@, r.1) == self.pairs()[i as int],
    {
        let e = &self.entries[i];
        (&e.0, e.1)
    }

    proof fn lemma_lookup(&self, i: int)
        requires
            self.wf(),
            0 <= i < self.pairs().len(),
        ensures
            self.map().contains_key(self.pairs()[i].0),
            self.map()[self.pairs()[i].0] == self.pairs()[i].1,
    {
        lemma_pairs_map_at(self.pairs(), i);
    }

    /// Index of the pair whose name is `key`, if any.
    fn position(&self, key: &Vec<char>) -> (r: Option<usize>)
        requires
            self.wf(),
        ensures
            match r {
                Some(i) => i < self.pairs().len() && self.pairs()[i as int].0 == key@,
                None => !self.map().contains_key(key@),
            },
    {
        let n = self.entries.len();
        let mut i: usize = 0;
        while i < n
            invariant
                n == self.entries.len(),
                i <= n,
                forall|j: int| 0 <= j < i ==> #[trigger] self.pairs()[j].0 != key@,
            decreases n - i,
        {
            let name = to_chars(self.entries[i].0.as_str());
            if vec_eq(&name, key) {
                return Some(i);
            }
            i += 1;
        }
        proof {
            lemma_pairs_map_dom(self.pairs(), key@);
        }
        None
    }

    /// The value stored under `key`.
    pub fn get(&self, key: &Vec<char>) -> (r: Option<V>)
        requires
            self.wf(),
        ensures
            r == lookup(self.map(), key@),
    {
        match self.position(key) {
            Some(i) => {
                proof {
                    self.lemma_lookup(i as int);
                }
                Some(self.entries[i].1)
            },
            None => None,
        }
    }

    /// Stores `v` under `key`: an earlier entry for `key` keeps its place
    /// and takes the new value, else the entry is appended.
    pub fn insert(&mut self, key: String, v: V)
        requires
            old(self).wf(),
        ensures
            final(self).wf(),
            final(self).map() == old(self).map().insert(key@, v),
            old(self).map().contains_key(key@) ==> final(self).pairs().len() == old(self).pairs().len(),
            !old(self).map().contains_key(key@) ==> final(self).pairs() == old(self).pairs().push((key@, v)),
            forall|i: int|
                0 <= i < old(self).pairs().len() ==> #[trigger] final(self).pairs()[i] == if old(self).pairs()[i].0
                    == key@ {
                    (key@, v)
                } else {
                    old(self).pairs()[i]
                },
    {
        let kc = to_chars(key.as_str());
        match self.position(&kc) {
            Some(i) => {
                let ghost before = self.pairs();
                proof {
                    lemma_pairs_map_update(before, i as int, v);
                    lemma_pairs_map_at(before, i as int);
                }
                self.entries.set(i, (key, v));
                assert(self.pairs() =~= before.update(i as int, (before[i as int].0, v)));
                assert forall|j: int| 0 <= j < before.len() && j != i implies #[trigger] before[j].0 != kc@ by {
                    if j < i {
                        assert(before[j].0 != before[i as int].0);
                    } else {
                        assert(before[i as int].0 != before[j].0);
                    }
                }
            },
            None => {
                let ghost before = self.pairs();
                proof {
                    lemma_pairs_map_dom(before, kc@);
                }
                self.entries.push((key, v));
                assert(self.pairs() =~= before.push((kc@, v)));
                assert(self.pairs().drop_last() =~= before);
                assert forall|j: int| 0 <= j < before.len() implies #[trigger] before[j].0 != kc@ by {
                    if before[j].0 == kc@ {
                        lemma_pairs_map_at(before, j);
                    }
                }
            },
        }
    }
}

} // verus!
