use vstd::prelude::*;
use crate::error::{KvError, ErrorKind, not_found, not_found_text};
use crate::kvmap::StrMap;

verus! {

/// The store as a value: its current contents and every state it has
/// been in, from the oldest to the newest.
#[verifier::ext_equal]
pub struct StoreModel {
    pub map: Map<Seq<char>, Seq<char>>,
    pub history: Seq<Map<Seq<char>, Seq<char>>>,
}

/// A consistent store: it has a history, whose newest state is the
/// current one.
pub open spec fn store_valid(s: StoreModel) -> bool {
    s.history.len() >= 1 && s.history.last() == s.map
}

/// A change that a store can be asked for.
pub enum StoreChange {
    Insert(Seq<char>, Seq<char>),
    Delete(Seq<char>),
    Flush,
}

/// The store with `map` as its contents, recorded as a new version.
pub open spec fn committed(s: StoreModel, map: Map<Seq<char>, Seq<char>>) -> StoreModel {
    StoreModel { map, history: s.history.push(map) }
}

/// Whether a change takes effect: every insert and flush does, a delete
/// only of a stored key.
pub open spec fn takes_effect(s: StoreModel, c: StoreChange) -> bool {
    match c {
        StoreChange::Delete(k) => s.map.contains_key(k),
        _ => true,
    }
}

/// The store after a change; one that takes effect is recorded as a new
/// version, one that does not changes nothing.
pub open spec fn apply_change(s: StoreModel, c: StoreChange) -> StoreModel {
    match c {
        StoreChange::Insert(k, v) => committed(s, s.map.insert(k, v)),
        StoreChange::Delete(k) => if s.map.contains_key(k) {
            committed(s, s.map.remove(k))
        } else {
            s
        },
        StoreChange::Flush => committed(s, Map::empty()),
    }
}

/// The store after the changes `cs`, in order.
pub open spec fn apply_changes(s: StoreModel, cs: Seq<StoreChange>) -> StoreModel
    decreases cs.len(),
{
    if cs.len() == 0 {
        s
    } else {
        apply_change(apply_changes(s, cs.drop_last()), cs.last())
    }
}

/// How many of the changes `cs`, made in order, take effect.
pub open spec fn effective_changes(s: StoreModel, cs: Seq<StoreChange>) -> nat
    decreases cs.len(),
{
    if cs.len() == 0 {
        0
    } else {
        effective_changes(s, cs.drop_last()) + if takes_effect(
            apply_changes(s, cs.drop_last()),
            cs.last(),
        ) {
            1nat
        } else {
            0nat
        }
    }
}

/// The value stored under `k`, if any.
pub open spec fn store_get(s: StoreModel, k: Seq<char>) -> Option<Seq<char>> {
    if s.map.contains_key(k) {
        Some(s.map[k])
    } else {
        None
    }
}

/// The value `k` had `n` versions before the newest (version 0 being the
/// newest), if that version is kept and holds `k`.
pub open spec fn version_at(s: StoreModel, k: Seq<char>, n: int) -> Option<Seq<char>> {
    if 0 <= n < s.history.len() {
        let m = s.history[s.history.len() - 1 - n];
        if m.contains_key(k) {
            Some(m[k])
        } else {
            None
        }
    } else {
        None
    }
}

/// A key/value store that keeps every state it has been in.
///
/// `versions` holds the states from the oldest to the newest; the newest is
/// always the current map.
pub struct Storage {
    map: StrMap,
    versions: Vec<StrMap>,
}

impl Storage {
    /// The current contents.
    pub closed spec fn current(&self) -> Map<Seq<char>, Seq<char>> {
        self.map@
    }

    /// Every state kept, from the oldest to the newest.
    pub closed spec fn history(&self) -> Seq<Map<Seq<char>, Seq<char>>> {
        self.versions@.map_values(|m: StrMap| m@)
    }

    /// The store as a value.
    pub open spec fn model(&self) -> StoreModel {
        StoreModel { map: self.current(), history: self.history() }
    }

    pub closed spec fn wf(&self) -> bool {
        &&& self.map.wf()
        &&& forall|i: int| 0 <= i < self.versions@.len() ==> (#[trigger] self.versions@[i]).wf()
        &&& self.versions@.len() >= 1
        &&& self.versions@.last()@ == self.map@
    }

    /// In a well-formed store the newest state kept is the current map.
    pub proof fn lemma_newest_is_current(&self)
        requires
            self.wf(),
        ensures
            self.history().len() >= 1,
            self.history().last() == self.current(),
    {
    }

    /// An empty store whose history holds the empty map.
    pub fn new() -> (s: Storage)
        ensures
            s.wf(),
            s.current() == Map::<Seq<char>, Seq<char>>::empty(),
            s.history() == seq![Map::<Seq<char>, Seq<char>>::empty()],
    {
        let mut versions: Vec<StrMap> = Vec::new();
        versions.push(StrMap::new());
        let s = Storage { map: StrMap::new(), versions };
        assert(s.history() =~= seq![Map::<Seq<char>, Seq<char>>::empty()]);
        s
    }

    /// A store that starts from the contents of `mp`, with that map as its
    /// only version.
    pub fn new_from(mp: &StrMap) -> (s: Storage)
        requires
            mp.wf(),
        ensures
            s.wf(),
            s.current() == mp@,
            s.history() == seq![mp@],
    {
        let mut versions: Vec<StrMap> = Vec::new();
        versions.push(mp.copy());
        let s = Storage { map: mp.copy(), versions };
        assert(s.history() =~= seq![mp@]);
        s
    }

    /// The current contents.
    pub fn get_map(&self) -> (m: &StrMap)
        requires
            self.wf(),
        ensures
            m.wf(),
            m@ == self.current(),
    {
        &self.map
    }

    /// Records the current map as a new version.
    fn commit(&mut self)
        requires
            old(self).map.wf(),
            forall|i: int| 0 <= i < old(self).versions@.len() ==> (#[trigger] old(self).versions@[i]).wf(),
        ensures
            final(self).wf(),
            final(self).map == old(self).map,
            final(self).history() == old(self).history().push(old(self).map@),
    {
        let snapshot = self.map.copy();
        self.versions.push(snapshot);
        assert(self.history() =~= old(self).history().push(old(self).map@));
    }

    /// Stores `val` under `key` and records the new state as a version.
    /// Always succeeds, with the answer "OK".
    pub fn insert(&mut self, key: &str, val: &str) -> (r: Result<String, KvError>)
        requires
            old(self).wf(),
        ensures
            final(self).wf(),
            final(self).current() == old(self).current().insert(key@, val@),
            final(self).history() == old(self).history().push(final(self).current()),
            final(self).model() == apply_change(old(self).model(), StoreChange::Insert(key@, val@)),
            r is Ok && r->Ok_0@ == "OK"@,
    {
        self.map.insert(key.to_owned(), val.to_owned());
        self.commit();
        assert(self.model() =~= apply_change(old(self).model(), StoreChange::Insert(key@, val@)));
        Ok(String::from_str("OK"))
    }

    /// The value stored under `key`, or a not-found error.
    pub fn get(&self, key: &str) -> (r: Result<String, KvError>)
        requires
            self.wf(),
        ensures
            match r {
                Ok(v) => self.current().contains_key(key@) && self.current()[key@] == v@,
                Err(e) => !self.current().contains_key(key@) && e.kind == ErrorKind::NotFound
                    && e.message@ == not_found_text(),
            },
            r is Ok <==> store_get(self.model(), key@) is Some,
            r matches Ok(v) ==> store_get(self.model(), key@) == Some(v@),
    {
        match self.map.get(&key.to_owned()) {
            Some(v) => Ok(v),
            None => Err(not_found()),
        }
    }

    /// Removes `key` and returns the value it held, recording the new state
    /// as a version; a key that is not stored gives a not-found error and
    /// changes nothing.
    pub fn delete(&mut self, key: &str) -> (r: Result<String, KvError>)
        requires
            old(self).wf(),
        ensures
            final(self).wf(),
            final(self).model() == apply_change(old(self).model(), StoreChange::Delete(key@)),
            match r {
                Ok(v) => {
                    &&& old(self).current().contains_key(key@)
                    &&& old(self).current()[key@] == v@
                    &&& final(self).current() == old(self).current().remove(key@)
                    &&& final(self).history() == old(self).history().push(final(self).current())
                },
                Err(e) => {
                    &&& !old(self).current().contains_key(key@)
                    &&& e.kind == ErrorKind::NotFound
                    &&& e.message@ == not_found_text()
                    &&& final(self).current() == old(self).current()
                    &&& final(self).history() == old(self).history()
                },
            },
    {
        match self.map.remove(&key.to_owned()) {
            Some(v) => {
                self.commit();
                assert(self.model() =~= apply_change(old(self).model(), StoreChange::Delete(key@)));
                Ok(v)
            },
            None => {
                assert(self.map@ =~= old(self).map@);
                assert(self.model() =~= old(self).model());
                Err(not_found())
            },
        }
    }

    /// The value that `key` had `version` versions before the newest one
    /// (version 0 is the current state); a not-found error where that
    /// version is not kept or does not hold `key`.
    pub fn val_from(&self, key: &str, version: usize) -> (r: Result<String, KvError>)
        requires
            self.wf(),
        ensures
            match r {
                Ok(v) => version_at(self.model(), key@, version as int) == Some(v@),
                Err(e) => version_at(self.model(), key@, version as int) is None
                    && e.kind == ErrorKind::NotFound && e.message@ == not_found_text(),
            },
    {
        if version >= self.versions.len() {
            return Err(not_found());
        }
        let idx = self.versions.len() - 1 - version;
        let snapshot = &self.versions[idx];
        assert(snapshot.wf());
        match snapshot.get(&key.to_owned()) {
            Some(v) => Ok(v),
            None => Err(not_found()),
        }
    }

    /// A copy of the state kept at position `version` of the history
    /// (counted from the oldest), or a not-found error.
    pub fn ver_from(&self, version: usize) -> (r: Result<StrMap, KvError>)
        requires
            self.wf(),
        ensures
            match r {
                Ok(m) => version < self.history().len() && m.wf() && m@ == self.history()[
                    version as int],
                Err(e) => version >= self.history().len() && e.kind == ErrorKind::NotFound
                    && e.message@ == "Version ?"@,
            },
    {
        if version < self.versions.len() {
            let snapshot = &self.versions[version];
            assert(snapshot.wf());
            Ok(snapshot.copy())
        } else {
            Err(KvError::new(ErrorKind::NotFound, String::from_str("Version ?")))
        }
    }

    /// Empties the store and records the empty state as a version.
    pub fn flush(&mut self) -> (r: Result<(), ()>)
        requires
            old(self).wf(),
        ensures
            final(self).wf(),
            final(self).current() == Map::<Seq<char>, Seq<char>>::empty(),
            final(self).history() == old(self).history().push(final(self).current()),
            final(self).model() == apply_change(old(self).model(), StoreChange::Flush),
            r is Ok,
    {
        self.map.clear();
        self.commit();
        assert(self.model() =~= apply_change(old(self).model(), StoreChange::Flush));
        Ok(())
    }

    /// Keeps only the oldest `n` versions; the newest of them becomes the
    /// current state.
    pub(crate) fn keep_versions(&mut self, n: usize)
        requires
            old(self).wf(),
            1 <= n <= old(self).history().len(),
        ensures
            final(self).wf(),
            final(self).history() == old(self).history().take(n as int),
            final(self).current() == old(self).history()[n - 1],
    {
        self.versions.truncate(n);
        assert(self.versions@[n - 1] == old(self).versions@[n - 1]);
        assert(old(self).versions@[n - 1].wf());
        self.map = self.versions[n - 1].copy();
        assert(self.history() =~= old(self).history().take(n as int));
    }

    /// A copy of the store, with the same contents and history.
    pub fn copy(&self) -> (s: Storage)
        requires
            self.wf(),
        ensures
            s.wf(),
            s.current() == self.current(),
            s.history() == self.history(),
    {
        let mut versions: Vec<StrMap> = Vec::new();
        let mut i: usize = 0;
        while i < self.versions.len()
            invariant
                self.wf(),
                i <= self.versions@.len(),
                versions@.len() == i,
                forall|j: int| 0 <= j < i ==> (#[trigger] versions@[j]).wf(),
                forall|j: int| 0 <= j < i ==> (#[trigger] versions@[j])@ == self.versions@[j]@,
            decreases self.versions@.len() - i,
        {
            assert(self.versions@[i as int].wf());
            versions.push(self.versions[i].copy());
            i = i + 1;
        }
        let s = Storage { map: self.map.copy(), versions };
        assert(s.history() =~= self.history());
        s
    }

    /// The number of versions kept.
    pub fn get_cur_ver(&self) -> (n: usize)
        ensures
            n == self.history().len(),
    {
        self.versions.len()
    }
}

} // verus!
