use vstd::prelude::*;

verus! {

/// The key/value pairs of a list, taken by their views.
pub open spec fn pairs_view(entries: Seq<(String, String)>) -> Seq<(Seq<char>, Seq<char>)> {
    entries.map_values(|p: (String, String)| (p.0@, p.1@))
}

/// No key occurs twice in the list.
pub open spec fn keys_unique<V>(ps: Seq<(Seq<char>, V)>) -> bool {
    forall|i: int, j: int| 0 <= i < j < ps.len() ==> ps[i].0 != ps[j].0
}

/// The map that a list of pairs with distinct keys stands for.
pub open spec fn map_of<V>(ps: Seq<(Seq<char>, V)>) -> Map<Seq<char>, V> {
    Map::new(
        |k: Seq<char>| exists|i: int| 0 <= i < ps.len() && ps[i].0 == k,
        |k: Seq<char>| ps[choose|i: int| 0 <= i < ps.len() && ps[i].0 == k].1,
    )
}

pub proof fn lemma_map_of_index<V>(ps: Seq<(Seq<char>, V)>, i: int)
    requires
        keys_unique(ps),
        0 <= i < ps.len(),
    ensures
        map_of(ps).contains_key(ps[i].0),
        map_of(ps)[ps[i].0] == ps[i].1,
{
    let k = ps[i].0;
    assert(exists|j: int| 0 <= j < ps.len() && ps[j].0 == k);
    let j = choose|j: int| 0 <= j < ps.len() && ps[j].0 == k;
    if j != i {
        if j < i {
            assert(ps[j].0 != ps[i].0);
        } else {
            assert(ps[i].0 != ps[j].0);
        }
    }
}

pub proof fn lemma_map_of_absent<V>(ps: Seq<(Seq<char>, V)>, k: Seq<char>)
    requires
        forall|i: int| 0 <= i < ps.len() ==> ps[i].0 != k,
    ensures
        !map_of(ps).contains_key(k),
{
}

pub proof fn lemma_map_of_push<V>(ps: Seq<(Seq<char>, V)>, k: Seq<char>, v: V)
    requires
        keys_unique(ps),
        forall|i: int| 0 <= i < ps.len() ==> ps[i].0 != k,
    ensures
        keys_unique(ps.push((k, v))),
        map_of(ps.push((k, v))) == map_of(ps).insert(k, v),
{
    let qs = ps.push((k, v));
    assert forall|a: int, b: int| 0 <= a < b < qs.len() implies qs[a].0 != qs[b].0 by {
        if b < ps.len() {
            assert(qs[a] == ps[a] && qs[b] == ps[b]);
        }
    }
    assert forall|key: Seq<char>| #[trigger] map_of::<V>(qs).contains_key(key)
        <==> map_of(ps).insert(k, v).contains_key(key) by {
        if map_of(qs).contains_key(key) {
            let j = choose|j: int| 0 <= j < qs.len() && qs[j].0 == key;
            if j < ps.len() {
                assert(qs[j] == ps[j]);
            }
        }
        if map_of(ps).contains_key(key) {
            let j = choose|j: int| 0 <= j < ps.len() && ps[j].0 == key;
            assert(qs[j] == ps[j]);
        }
        if key == k {
            assert(qs[ps.len() as int].0 == k);
        }
    }
    assert forall|key: Seq<char>| #[trigger] map_of::<V>(qs).contains_key(key)
        implies map_of(qs)[key] == map_of(ps).insert(k, v)[key] by {
        let j = choose|j: int| 0 <= j < qs.len() && qs[j].0 == key;
        lemma_map_of_index(qs, j);
        if j < ps.len() {
            assert(qs[j] == ps[j]);
            lemma_map_of_index(ps, j);
        }
    }
    assert(map_of(qs) =~= map_of(ps).insert(k, v));
}

pub proof fn lemma_map_of_update<V>(ps: Seq<(Seq<char>, V)>, i: int, v: V)
    requires
        keys_unique(ps),
        0 <= i < ps.len(),
    ensures
        keys_unique(ps.update(i, (ps[i].0, v))),
        map_of(ps.update(i, (ps[i].0, v))) == map_of(ps).insert(ps[i].0, v),
{
    let k = ps[i].0;
    let qs = ps.update(i, (k, v));
    assert forall|a: int, b: int| 0 <= a < b < qs.len() implies qs[a].0 != qs[b].0 by {
        assert(qs[a].0 == ps[a].0 && qs[b].0 == ps[b].0);
    }
    lemma_map_of_index(ps, i);
    assert forall|key: Seq<char>| #[trigger] map_of::<V>(qs).contains_key(key)
        <==> map_of(ps).insert(k, v).contains_key(key) by {
        if map_of(qs).contains_key(key) {
            let j = choose|j: int| 0 <= j < qs.len() && qs[j].0 == key;
            assert(ps[j].0 == key);
        }
        if map_of(ps).contains_key(key) {
            let j = choose|j: int| 0 <= j < ps.len() && ps[j].0 == key;
            assert(qs[j].0 == key);
        }
        assert(qs[i].0 == k);
    }
    assert forall|key: Seq<char>| #[trigger] map_of::<V>(qs).contains_key(key)
        implies map_of(qs)[key] == map_of(ps).insert(k, v)[key] by {
        let j = choose|j: int| 0 <= j < qs.len() && qs[j].0 == key;
        lemma_map_of_index(qs, j);
        if j != i {
            assert(qs[j] == ps[j]);
            lemma_map_of_index(ps, j);
        }
    }
    assert(map_of(qs) =~= map_of(ps).insert(k, v));
}

pub proof fn lemma_map_of_remove<V>(ps: Seq<(Seq<char>, V)>, i: int)
    requires
        keys_unique(ps),
        0 <= i < ps.len(),
    ensures
        keys_unique(ps.remove(i)),
        map_of(ps.remove(i)) == map_of(ps).remove(ps[i].0),
{
    let k = ps[i].0;
    let qs = ps.remove(i);
    assert forall|a: int, b: int| 0 <= a < b < qs.len() implies qs[a].0 != qs[b].0 by {
        let a2 = if a < i { a } else { a + 1 };
        let b2 = if b < i { b } else { b + 1 };
        assert(qs[a] == ps[a2] && qs[b] == ps[b2]);
    }
    assert forall|key: Seq<char>| #[trigger] map_of::<V>(qs).contains_key(key)
        <==> map_of(ps).remove(k).contains_key(key) by {
        if map_of(qs).contains_key(key) {
            let j = choose|j: int| 0 <= j < qs.len() && qs[j].0 == key;
            let j2 = if j < i { j } else { j + 1 };
            assert(qs[j] == ps[j2]);
            assert(ps[j2].0 != ps[i].0);
        }
        if map_of(ps).contains_key(key) && key != k {
            let j = choose|j: int| 0 <= j < ps.len() && ps[j].0 == key;
            if j < i {
                assert(qs[j] == ps[j]);
            } else {
                assert(qs[j - 1] == ps[j]);
            }
        }
    }
    assert forall|key: Seq<char>| #[trigger] map_of::<V>(qs).contains_key(key)
        implies map_of(qs)[key] == map_of(ps).remove(k)[key] by {
        let j = choose|j: int| 0 <= j < qs.len() && qs[j].0 == key;
        lemma_map_of_index(qs, j);
        let j2 = if j < i { j } else { j + 1 };
        assert(qs[j] == ps[j2]);
        lemma_map_of_index(ps, j2);
    }
    assert(map_of(qs) =~= map_of(ps).remove(k));
}

/// A map from strings to strings, kept as a list of pairs in which no key
/// occurs twice.
#[derive(Debug)]
pub struct StrMap {
    entries: Vec<(String, String)>,
}

impl View for StrMap {
    type V = Map<Seq<char>, Seq<char>>;

    closed spec fn view(&self) -> Map<Seq<char>, Seq<char>> {
        map_of(pairs_view(self.entries@))
    }
}

impl StrMap {
    /// The pairs, in the order in which they are kept.
    pub closed spec fn pairs(&self) -> Seq<(Seq<char>, Seq<char>)> {
        pairs_view(self.entries@)
    }

    pub closed spec fn wf(&self) -> bool {
        keys_unique(pairs_view(self.entries@))
    }

    pub fn new() -> (m: StrMap)
        ensures
            m.wf(),
            m@ == Map::<Seq<char>, Seq<char>>::empty(),
            m.pairs().len() == 0,
    {
        let m = StrMap { entries: Vec::new() };
        assert(m@ =~= Map::<Seq<char>, Seq<char>>::empty());
        m
    }

    /// The entries, for callers that walk or serialise the map.
    pub fn entries(&self) -> (e: &Vec<(String, String)>)
        ensures
            pairs_view(e@) == self.pairs(),
    {
        &self.entries
    }

    pub fn len(&self) -> (n: usize)
        requires
            self.wf(),
        ensures
            n == self@.dom().len(),
    {
        proof { self.lemma_dom_len(); }
        self.entries.len()
    }

    proof fn lemma_dom_len(&self)
        requires
            self.wf(),
        ensures
            self@.dom().len() == self.entries@.len(),
            self@.dom().finite(),
        decreases self.entries@.len(),
    {
        let ps = pairs_view(self.entries@);
        let ks = ps.map_values(|p: (Seq<char>, Seq<char>)| p.0);
        assert(ks.no_duplicates()) by {
            assert forall|a: int, b: int| 0 <= a < ks.len() && 0 <= b < ks.len() && a != b
                implies ks[a] != ks[b] by {
                if a < b {
                    assert(ps[a].0 != ps[b].0);
                } else {
                    assert(ps[b].0 != ps[a].0);
                }
            }
        }
        assert(self@.dom() =~= ks.to_set()) by {
            assert forall|k: Seq<char>| self@.dom().contains(k) <==> ks.to_set().contains(k) by {
                if self@.dom().contains(k) {
                    let j = choose|j: int| 0 <= j < ps.len() && ps[j].0 == k;
                    assert(ks[j] == k);
                }
                if ks.to_set().contains(k) {
                    let j = choose|j: int| 0 <= j < ks.len() && ks[j] == k;
                    assert(ps[j].0 == k);
                }
            }
        }
        ks.unique_seq_to_set();
    }

    fn find(&self, key: &String) -> (r: Option<usize>)
        requires
            self.wf(),
        ensures
            match r {
                Some(i) => i < self.pairs().len() && self.pairs()[i as int].0 == key@,
                None => forall|i: int| 0 <= i < self.pairs().len() ==> self.pairs()[i].0 != key@,
            },
    {
        let mut i: usize = 0;
        while i < self.entries.len()
            invariant
                i <= self.entries@.len(),
                forall|j: int| 0 <= j < i ==> self.pairs()[j].0 != key@,
            decreases self.entries@.len() - i,
        {
            if self.entries[i].0 == *key {
                return Some(i);
            }
            i = i + 1;
        }
        None
    }

    /// The value kept under `key`, if any.
    pub fn get(&self, key: &String) -> (r: Option<String>)
        requires
            self.wf(),
        ensures
            match r {
                Some(v) => self@.contains_key(key@) && self@[key@] == v@,
                None => !self@.contains_key(key@),
            },
    {
        match self.find(key) {
            Some(i) => {
                proof { lemma_map_of_index(self.pairs(), i as int); }
                Some(self.entries[i].1.clone())
            },
            None => {
                proof { lemma_map_of_absent(self.pairs(), key@); }
                None
            },
        }
    }

    /// Keeps `val` under `key`, in place of any value kept there before.
    pub fn insert(&mut self, key: String, val: String)
        requires
            old(self).wf(),
        ensures
            final(self).wf(),
            final(self)@ == old(self)@.insert(key@, val@),
    {
        match self.find(&key) {
            Some(i) => {
                proof { lemma_map_of_update(self.pairs(), i as int, val@); }
                let ghost k = key@;
                self.entries.set(i, (key, val));
                assert(pairs_view(self.entries@) =~= pairs_view(old(self).entries@).update(
                    i as int,
                    (k, val@),
                ));
            },
            None => {
                proof { lemma_map_of_push(self.pairs(), key@, val@); }
                let ghost kv = (key@, val@);
                self.entries.push((key, val));
                assert(pairs_view(self.entries@) =~= pairs_view(old(self).entries@).push(kv));
            },
        }
    }

    /// Takes the value kept under `key` out of the map.
    pub fn remove(&mut self, key: &String) -> (r: Option<String>)
        requires
            old(self).wf(),
        ensures
            final(self).wf(),
            final(self)@ == old(self)@.remove(key@),
            match r {
                Some(v) => old(self)@.contains_key(key@) && old(self)@[key@] == v@,
                None => !old(self)@.contains_key(key@),
            },
    {
        match self.find(key) {
            Some(i) => {
                proof {
                    lemma_map_of_index(self.pairs(), i as int);
                    lemma_map_of_remove(self.pairs(), i as int);
                }
                let (_k, v) = self.entries.remove(i);
                assert(pairs_view(self.entries@) =~= pairs_view(old(self).entries@).remove(
                    i as int,
                ));
                Some(v)
            },
            None => {
                proof { lemma_map_of_absent(self.pairs(), key@); }
                assert(old(self)@.remove(key@) =~= old(self)@);
                None
            },
        }
    }

    /// Removes every entry.
    pub fn clear(&mut self)
        ensures
            final(self).wf(),
            final(self)@ == Map::<Seq<char>, Seq<char>>::empty(),
    {
        self.entries = Vec::new();
        assert(self@ =~= Map::<Seq<char>, Seq<char>>::empty());
    }

    /// A copy of the map, with the same pairs in the same order.
    pub fn copy(&self) -> (m: StrMap)
        requires
            self.wf(),
        ensures
            m.wf(),
            m@ == self@,
            m.pairs() == self.pairs(),
    {
        let mut entries: Vec<(String, String)> = Vec::new();
        let mut i: usize = 0;
        while i < self.entries.len()
            invariant
                i <= self.entries@.len(),
                entries@.len() == i,
                pairs_view(entries@) == pairs_view(self.entries@).take(i as int),
            decreases self.entries@.len() - i,
        {
            let k = self.entries[i].0.clone();
            let v = self.entries[i].1.clone();
            entries.push((k, v));
            assert(entries@[i as int] == self.entries@[i as int]);
            assert(pairs_view(entries@) =~= pairs_view(self.entries@).take(i + 1));
            i = i + 1;
        }
        assert(pairs_view(self.entries@).take(i as int) =~= pairs_view(self.entries@));
        StrMap { entries }
    }
}

/// The key/count pairs of a list, taken by their views.
pub open spec fn counts_view(entries: Seq<(String, u64)>) -> Seq<(Seq<char>, u64)> {
    entries.map_values(|p: (String, u64)| (p.0@, p.1))
}

/// A map from strings to counters, kept as a list of pairs in which no key
/// occurs twice.
#[derive(Debug)]
pub struct CountMap {
    entries: Vec<(String, u64)>,
}

impl View for CountMap {
    type V = Map<Seq<char>, u64>;

    closed spec fn view(&self) -> Map<Seq<char>, u64> {
        map_of(counts_view(self.entries@))
    }
}

impl CountMap {
    pub closed spec fn wf(&self) -> bool {
        keys_unique(counts_view(self.entries@))
    }

    pub fn new() -> (m: CountMap)
        ensures
            m.wf(),
            m@ == Map::<Seq<char>, u64>::empty(),
    {
        let m = CountMap { entries: Vec::new() };
        assert(m@ =~= Map::<Seq<char>, u64>::empty());
        m
    }

    fn find(&self, key: &String) -> (r: Option<usize>)
        ensures
            match r {
                Some(i) => i < self.entries@.len() && counts_view(self.entries@)[i as int].0
                    == key@,
                None => forall|i: int|
                    0 <= i < self.entries@.len() ==> counts_view(self.entries@)[i].0 != key@,
            },
    {
        let mut i: usize = 0;
        while i < self.entries.len()
            invariant
                i <= self.entries@.len(),
                forall|j: int| 0 <= j < i ==> counts_view(self.entries@)[j].0 != key@,
            decreases self.entries@.len() - i,
        {
            if self.entries[i].0 == *key {
                return Some(i);
            }
            i = i + 1;
        }
        None
    }

    /// The counter kept under `key`, if any.
    pub fn get(&self, key: &String) -> (r: Option<u64>)
        requires
            self.wf(),
        ensures
            match r {
                Some(v) => self@.contains_key(key@) && self@[key@] == v,
                None => !self@.contains_key(key@),
            },
    {
        match self.find(key) {
            Some(i) => {
                proof { lemma_map_of_index(counts_view(self.entries@), i as int); }
                Some(self.entries[i].1)
            },
            None => {
                proof { lemma_map_of_absent(counts_view(self.entries@), key@); }
                None
            },
        }
    }

    /// Keeps `val` under `key`, in place of any counter kept there before.
    pub fn insert(&mut self, key: String, val: u64)
        requires
            old(self).wf(),
        ensures
            final(self).wf(),
            final(self)@ == old(self)@.insert(key@, val),
    {
        match self.find(&key) {
            Some(i) => {
                proof { lemma_map_of_update(counts_view(self.entries@), i as int, val); }
                let ghost k = key@;
                self.entries.set(i, (key, val));
                assert(counts_view(self.entries@) =~= counts_view(old(self).entries@).update(
                    i as int,
                    (k, val),
                ));
            },
            None => {
                proof { lemma_map_of_push(counts_view(self.entries@), key@, val); }
                let ghost kv = (key@, val);
                self.entries.push((key, val));
                assert(counts_view(self.entries@) =~= counts_view(old(self).entries@).push(kv));
            },
        }
    }

    /// Drops the counter kept under `key`.
    pub fn remove(&mut self, key: &String)
        requires
            old(self).wf(),
        ensures
            final(self).wf(),
            final(self)@ == old(self)@.remove(key@),
    {
        match self.find(key) {
            Some(i) => {
                proof { lemma_map_of_remove(counts_view(self.entries@), i as int); }
                self.entries.remove(i);
                assert(counts_view(self.entries@) =~= counts_view(old(self).entries@).remove(
                    i as int,
                ));
            },
            None => {
                proof { lemma_map_of_absent(counts_view(self.entries@), key@); }
                assert(old(self)@.remove(key@) =~= old(self)@);
            },
        }
    }

    /// The pairs held, in no particular order; no key occurs twice.
    pub fn entries(&self) -> (e: &Vec<(String, u64)>)
        requires
            self.wf(),
        ensures
            keys_unique(counts_view(e@)),
            map_of(counts_view(e@)) == self@,
    {
        &self.entries
    }

    /// A copy of the map.
    pub fn copy(&self) -> (m: CountMap)
        requires
            self.wf(),
        ensures
            m.wf(),
            m@ == self@,
    {
        let mut entries: Vec<(String, u64)> = Vec::new();
        let mut i: usize = 0;
        while i < self.entries.len()
            invariant
                i <= self.entries@.len(),
                entries@.len() == i,
                counts_view(entries@) == counts_view(self.entries@).take(i as int),
            decreases self.entries@.len() - i,
        {
            let k = self.entries[i].0.clone();
            entries.push((k, self.entries[i].1));
            assert(counts_view(entries@)[i as int] == counts_view(self.entries@)[i as int]);
            assert(counts_view(entries@) =~= counts_view(self.entries@).take(i + 1));
            i = i + 1;
        }
        assert(counts_view(self.entries@).take(i as int) =~= counts_view(self.entries@));
        CountMap { entries }
    }

    /// Drops every counter.
    pub fn clear(&mut self)
        ensures
            final(self).wf(),
            final(self)@ == Map::<Seq<char>, u64>::empty(),
    {
        self.entries = Vec::new();
        assert(self@ =~= Map::<Seq<char>, u64>::empty());
    }
}

} // verus!
