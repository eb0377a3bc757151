use vstd::prelude::*;
use crate::kvmap::{counts_view, keys_unique, lemma_map_of_index, map_of, CountMap};

verus! {

/// How many recorded accesses make the cache bookkeeping trim itself.
pub const H: usize = 200;

/// The log entries, taken by their views.
pub open spec fn log_view(entries: Seq<(u64, String)>) -> Seq<(u64, Seq<char>)> {
    entries.map_values(|e: (u64, String)| (e.0, e.1@))
}

/// The keys of log entries, in order.
pub open spec fn log_keys(log: Seq<(u64, Seq<char>)>) -> Seq<Seq<char>> {
    log.map_values(|e: (u64, Seq<char>)| e.1)
}

/// How many times `k` occurs in `keys`.
pub open spec fn occurrences(keys: Seq<Seq<char>>, k: Seq<char>) -> nat
    decreases keys.len(),
{
    if keys.len() == 0 {
        0
    } else {
        (if keys[0] == k { 1nat } else { 0nat }) + occurrences(keys.drop_first(), k)
    }
}

/// `counts` holds, for each key that occurs in `keys`, how many times it
/// occurs there, and no other key.
pub open spec fn counts_match(counts: Map<Seq<char>, u64>, keys: Seq<Seq<char>>) -> bool {
    forall|k: Seq<char>|
        #![trigger counts.contains_key(k)]
        #![trigger occurrences(keys, k)]
        (counts.contains_key(k) <==> occurrences(keys, k) > 0) && (counts.contains_key(k)
            ==> counts[k] == occurrences(keys, k))
}

/// The counter of each key that occurs in `keys`: how many times it occurs.
pub open spec fn count_map(keys: Seq<Seq<char>>) -> Map<Seq<char>, u64> {
    Map::new(|k: Seq<char>| occurrences(keys, k) > 0, |k: Seq<char>| occurrences(keys, k) as u64)
}

/// The counter of `k`, or 0 where it has none.
pub open spec fn count_of(counts: Map<Seq<char>, u64>, k: Seq<char>) -> nat {
    if counts.contains_key(k) {
        counts[k] as nat
    } else {
        0
    }
}

pub proof fn lemma_occurrences_push(keys: Seq<Seq<char>>, x: Seq<char>)
    ensures
        forall|k: Seq<char>|
            #[trigger] occurrences(keys.push(x), k) == occurrences(keys, k) + (if x == k {
                1nat
            } else {
                0nat
            }),
    decreases keys.len(),
{
    if keys.len() > 0 {
        assert(keys.push(x).drop_first() =~= keys.drop_first().push(x));
        lemma_occurrences_push(keys.drop_first(), x);
        assert forall|k: Seq<char>|
            #[trigger] occurrences(keys.push(x), k) == occurrences(keys, k) + (if x == k {
                1nat
            } else {
                0nat
            }) by {
            assert(keys.push(x)[0] == keys[0]);
            assert(occurrences(keys.push(x), k) == (if keys[0] == k {
                1nat
            } else {
                0nat
            }) + occurrences(keys.drop_first().push(x), k));
            assert(occurrences(keys, k) == (if keys[0] == k {
                1nat
            } else {
                0nat
            }) + occurrences(keys.drop_first(), k));
        }
    } else {
        assert(keys.push(x).drop_first() =~= Seq::<Seq<char>>::empty());
        assert forall|k: Seq<char>|
            #[trigger] occurrences(keys.push(x), k) == occurrences(keys, k) + (if x == k {
                1nat
            } else {
                0nat
            }) by {
            assert(keys.push(x)[0] == x);
            assert(occurrences(keys.push(x).drop_first(), k) == 0);
            assert(occurrences(keys, k) == 0);
        }
    }
}

pub proof fn lemma_occurrences_le(keys: Seq<Seq<char>>, k: Seq<char>)
    ensures
        occurrences(keys, k) <= keys.len(),
    decreases keys.len(),
{
    if keys.len() > 0 {
        lemma_occurrences_le(keys.drop_first(), k);
    }
}

/// Counting from position `i` is counting the key there, then the rest.
pub proof fn lemma_occurrences_skip(keys: Seq<Seq<char>>, i: int)
    requires
        0 <= i < keys.len(),
    ensures
        forall|k: Seq<char>|
            #[trigger] occurrences(keys.skip(i), k) == (if keys[i] == k {
                1nat
            } else {
                0nat
            }) + occurrences(keys.skip(i + 1), k),
{
    assert(keys.skip(i).drop_first() =~= keys.skip(i + 1));
}

/// A key that occurs is found at some position.
pub proof fn lemma_occurrences_found(keys: Seq<Seq<char>>, k: Seq<char>)
    requires
        occurrences(keys, k) > 0,
    ensures
        exists|a: int| 0 <= a < keys.len() && keys[a] == k,
    decreases keys.len(),
{
    if keys[0] != k {
        lemma_occurrences_found(keys.drop_first(), k);
        let a = choose|a: int| 0 <= a < keys.drop_first().len() && keys.drop_first()[a] == k;
        assert(keys[a + 1] == k);
    }
}

/// A key found at position `i` occurs.
pub proof fn lemma_occurrences_at(keys: Seq<Seq<char>>, i: int)
    requires
        0 <= i < keys.len(),
    ensures
        occurrences(keys, keys[i]) > 0,
    decreases i,
{
    if i > 0 {
        lemma_occurrences_at(keys.drop_first(), i - 1);
    }
}

/// Later parts of `keys` hold a key no more often.
pub proof fn lemma_occurrences_skip_le(keys: Seq<Seq<char>>, i: int, j: int, k: Seq<char>)
    requires
        0 <= i <= j <= keys.len(),
    ensures
        occurrences(keys.skip(j), k) <= occurrences(keys.skip(i), k),
    decreases j - i,
{
    if i < j {
        lemma_occurrences_skip(keys, i);
        lemma_occurrences_skip_le(keys, i + 1, j, k);
    }
}

/// The keys whose last access in `keys` is among the first `n`, in the
/// order of those accesses.
pub open spec fn last_accessed(keys: Seq<Seq<char>>, n: int) -> Seq<Seq<char>>
    decreases n,
{
    if n <= 0 {
        Seq::empty()
    } else {
        let before = last_accessed(keys, n - 1);
        if occurrences(keys.skip(n), keys[n - 1]) == 0 {
            before.push(keys[n - 1])
        } else {
            before
        }
    }
}

/// Times in the log strictly increase and are all before `t`.
pub open spec fn log_ordered(log: Seq<(u64, Seq<char>)>, t: u64) -> bool {
    &&& forall|i: int, j: int| 0 <= i < j < log.len() ==> log[i].0 < log[j].0
    &&& forall|i: int| 0 <= i < log.len() ==> (#[trigger] log[i]).0 < t
}

/// A log in time order before `t` holds at most `t` entries.
pub proof fn lemma_ordered_len(log: Seq<(u64, Seq<char>)>, t: u64)
    requires
        log_ordered(log, t),
    ensures
        log.len() <= t,
    decreases log.len(),
{
    if log.len() > 0 {
        let l = log.drop_last();
        let last = log.last().0;
        assert forall|i: int| 0 <= i < l.len() implies (#[trigger] l[i]).0 < last by {
            assert(log[i].0 < log[log.len() - 1].0);
        }
        assert forall|i: int, j: int| 0 <= i < j < l.len() implies l[i].0 < l[j].0 by {
            assert(log[i].0 < log[j].0);
        }
        lemma_ordered_len(l, last);
        assert(log[log.len() - 1].0 < t);
    }
}

/// The bookkeeping of one access to `k`: with a client present, the
/// counter of `k` grows by one, the access is logged at the current time
/// and the clock moves on; without one, nothing changes.
pub open spec fn access(c: CacheModel, k: Seq<char>) -> CacheModel {
    if c.connected {
        CacheModel {
            counts: c.counts.insert(k, (count_of(c.counts, k) + 1) as u64),
            log: c.log.push((c.t, k)),
            t: (c.t + 1) as u64,
            ..c
        }
    } else {
        c
    }
}

/// Recording an access overflows the clock.
pub open spec fn access_fault(c: CacheModel) -> bool {
    c.connected && c.t == u64::MAX
}

/// The bookkeeping with its counters and log emptied.
pub open spec fn flushed(c: CacheModel) -> CacheModel {
    CacheModel { counts: Map::empty(), log: Seq::empty(), ..c }
}

/// The bookkeeping as a value: whether a client is present, the counters,
/// the access log, the clock and the trimming length.
#[verifier::ext_equal]
pub struct CacheModel {
    pub connected: bool,
    pub counts: Map<Seq<char>, u64>,
    pub log: Seq<(u64, Seq<char>)>,
    pub t: u64,
    pub limit: nat,
}

/// Consistent bookkeeping: the trimming length is at least 2, the log is
/// in time order before the clock, and each counter is the number of
/// logged accesses to its key.
pub open spec fn valid(c: CacheModel) -> bool {
    &&& c.limit >= 2
    &&& log_ordered(c.log, c.t)
    &&& counts_match(c.counts, log_keys(c.log))
}

/// The keys a trim gives up: those whose last access is among the oldest
/// `limit / 2`, in the order of those accesses.
pub open spec fn trim_evicted(c: CacheModel) -> Seq<Seq<char>> {
    last_accessed(log_keys(c.log), (c.limit / 2) as int)
}

/// The bookkeeping after a trim, and the keys to delete from memcached.
///
/// Once the log holds `limit` accesses or more, its oldest `limit / 2`
/// accesses are dropped and the counters count what is left; the keys
/// whose last access was dropped are to be deleted, in the order of those
/// accesses. With a client present each deletion is a request to
/// memcached, and the clock moves on by one for each.
pub open spec fn trimmed(before: CacheModel) -> (CacheModel, Seq<Seq<char>>) {
    if before.log.len() < before.limit {
        (before, Seq::empty())
    } else {
        let half = (before.limit / 2) as int;
        let log = before.log.skip(half);
        let evicted = trim_evicted(before);
        (
            CacheModel {
                counts: count_map(log_keys(log)),
                log,
                t: if before.connected {
                    (before.t + evicted.len()) as u64
                } else {
                    before.t
                },
                ..before
            },
            evicted,
        )
    }
}

/// A trim would move the clock past its maximum.
pub open spec fn trim_fault(c: CacheModel) -> bool {
    &&& c.connected
    &&& c.log.len() >= c.limit
    &&& c.t + trim_evicted(c).len() > u64::MAX
}

/// An access keeps the bookkeeping consistent.
pub proof fn lemma_access_valid(c: CacheModel, k: Seq<char>)
    requires
        valid(c),
        !access_fault(c),
    ensures
        valid(access(c, k)),
{
    if c.connected {
        let c2 = access(c, k);
        lemma_ordered_len(c.log, c.t);
        lemma_occurrences_le(log_keys(c.log), k);
        assert(log_keys(c2.log) =~= log_keys(c.log).push(k));
        lemma_occurrences_push(log_keys(c.log), k);
        assert forall|i: int| 0 <= i < c2.log.len() implies (#[trigger] c2.log[i]).0 < c2.t by {
            if i < c.log.len() {
                assert(c.log[i].0 < c.t);
            }
        }
        assert forall|i: int, j: int| 0 <= i < j < c2.log.len() implies c2.log[i].0 < c2.log[j].0 by {
            if j < c.log.len() {
            } else {
                assert(c.log[i].0 < c.t);
            }
        }
    }
}

/// A trim keeps the bookkeeping consistent.
pub proof fn lemma_trim_valid(c: CacheModel)
    requires
        valid(c),
        !trim_fault(c),
    ensures
        valid(trimmed(c).0),
{
    if c.log.len() >= c.limit {
        let half = (c.limit / 2) as int;
        let log = c.log.skip(half);
        lemma_ordered_len(c.log, c.t);
        assert forall|i: int, j: int| 0 <= i < j < log.len() implies log[i].0 < log[j].0 by {
            assert(c.log[i + half].0 < c.log[j + half].0);
        }
        let t2 = trimmed(c).0.t;
        assert(c.t <= t2);
        assert forall|i: int| 0 <= i < log.len() implies (#[trigger] log[i]).0 < t2 by {
            assert(c.log[i + half].0 < c.t);
        }
        assert forall|k: Seq<char>| #[trigger] occurrences(log_keys(log), k) <= u64::MAX by {
            lemma_occurrences_le(log_keys(log), k);
        }
    }
}

/// The bookkeeping that decides which keys leave memcached: a log of
/// accesses (time, key) in time order, a counter per key, the next time,
/// and the number of accesses at which the log is trimmed.
pub struct CacheManager {
    connected: bool,
    last_mod: Vec<(u64, String)>,
    query_mp: CountMap,
    t: u64,
    limit: usize,
}

impl CacheManager {
    /// Whether a memcached client is present.
    pub open spec fn is_connected(&self) -> bool {
        self.model().connected
    }

    /// The access log, in time order.
    pub open spec fn log(&self) -> Seq<(u64, Seq<char>)> {
        self.model().log
    }

    /// The counter of each key.
    pub open spec fn counts(&self) -> Map<Seq<char>, u64> {
        self.model().counts
    }

    /// The time the next access is recorded at.
    pub open spec fn time(&self) -> u64 {
        self.model().t
    }

    /// The log length at which the log is trimmed.
    pub open spec fn limit(&self) -> nat {
        self.model().limit
    }

    pub closed spec fn wf(&self) -> bool {
        &&& self.query_mp.wf()
        &&& valid(self.model())
    }

    /// Each counter is the number of logged accesses to its key.
    pub proof fn lemma_counts_count_accesses(&self)
        requires
            self.wf(),
        ensures
            counts_match(self.counts(), log_keys(self.log())),
            self.log().len() <= self.time(),
    {
        lemma_ordered_len(self.log(), self.time());
    }

    /// Empty bookkeeping, trimmed at `H` accesses.
    pub fn new(connected: bool) -> (c: CacheManager)
        ensures
            c.wf(),
            c.is_connected() == connected,
            c.log() == Seq::<(u64, Seq<char>)>::empty(),
            c.counts() == Map::<Seq<char>, u64>::empty(),
            c.time() == 0,
            c.limit() == H,
    {
        let c = CacheManager {
            connected,
            last_mod: Vec::new(),
            query_mp: CountMap::new(),
            t: 0,
            limit: H,
        };
        assert(c.log() =~= Seq::<(u64, Seq<char>)>::empty());
        c
    }

    /// Bookkeeping with the given log, counters, next time and trimming
    /// length; `None` unless these are consistent: `limit` is at least 2,
    /// the times in the log strictly increase and are all before `t`, and
    /// each counter is the number of logged accesses to its key.
    pub fn restore(
        connected: bool,
        last_mod: Vec<(u64, String)>,
        query_mp: CountMap,
        t: u64,
        limit: usize,
    ) -> (r: Option<CacheManager>)
        requires
            query_mp.wf(),
        ensures
            match r {
                Some(c) => c.wf() && c.model() == (CacheModel {
                    connected,
                    counts: query_mp@,
                    log: log_view(last_mod@),
                    t,
                    limit: limit as nat,
                }),
                None => !valid(
                    (CacheModel {
                        connected,
                        counts: query_mp@,
                        log: log_view(last_mod@),
                        t,
                        limit: limit as nat,
                    }),
                ),
            },
    {
        if limit < 2 {
            return None;
        }
        let ghost log = log_view(last_mod@);
        let ghost keys = log_keys(log);
        let mut i: usize = 0;
        while i < last_mod.len()
            invariant
                log == log_view(last_mod@),
                i <= last_mod@.len(),
                forall|a: int, b: int| 0 <= a < b < i ==> log[a].0 < log[b].0,
                forall|a: int| 0 <= a < i ==> (#[trigger] log[a]).0 < t,
            decreases last_mod@.len() - i,
        {
            if last_mod[i].0 >= t {
                assert(log[i as int].0 == last_mod@[i as int].0);
                return None;
            }
            if i > 0 && last_mod[i - 1].0 >= last_mod[i].0 {
                assert(log[i - 1].0 == last_mod@[i - 1].0);
                assert(log[i as int].0 == last_mod@[i as int].0);
                return None;
            }
            assert forall|a: int, b: int| 0 <= a < b < i + 1 implies log[a].0 < log[b].0 by {
                if b == i && a < i - 1 {
                    assert(log[a].0 < log[i - 1].0);
                }
            }
            i = i + 1;
        }
        assert(log_ordered(log, t));
        proof {
            lemma_ordered_len(log, t);
        }
        let mut built = CountMap::new();
        let mut i: usize = 0;
        assert(keys.take(0) =~= Seq::<Seq<char>>::empty());
        while i < last_mod.len()
            invariant
                log == log_view(last_mod@),
                keys == log_keys(log),
                log.len() <= t,
                i <= last_mod@.len(),
                built.wf(),
                counts_match(built@, keys.take(i as int)),
            decreases last_mod@.len() - i,
        {
            let k = last_mod[i].1.clone();
            assert(k@ == keys[i as int]);
            let n: u64 = match built.get(&k) {
                Some(n) => n,
                None => 0,
            };
            proof {
                lemma_occurrences_le(keys.take(i as int), k@);
                assert(keys.take(i + 1) =~= keys.take(i as int).push(k@));
                lemma_occurrences_push(keys.take(i as int), k@);
            }
            built.insert(k, n + 1);
            i = i + 1;
        }
        assert(keys.take(i as int) =~= keys);
        let mut i: usize = 0;
        while i < last_mod.len()
            invariant
                log == log_view(last_mod@),
                keys == log_keys(log),
                query_mp.wf(),
                i <= last_mod@.len(),
                forall|a: int| 0 <= a < i ==> query_mp@.contains_key(#[trigger] keys[a]),
            decreases last_mod@.len() - i,
        {
            if query_mp.get(&last_mod[i].1).is_none() {
                proof {
                    lemma_occurrences_at(keys, i as int);
                }
                assert(!query_mp@.contains_key(keys[i as int]));
                return None;
            }
            i = i + 1;
        }
        let es = query_mp.entries();
        let mut j: usize = 0;
        while j < es.len()
            invariant
                keys_unique(counts_view(es@)),
                map_of(counts_view(es@)) == query_mp@,
                log == log_view(last_mod@),
                keys == log_keys(log),
                built.wf(),
                counts_match(built@, keys),
                j <= es@.len(),
                forall|b: int|
                    0 <= b < j ==> built@.contains_key(#[trigger] counts_view(es@)[b].0)
                        && built@[counts_view(es@)[b].0] == counts_view(es@)[b].1,
            decreases es@.len() - j,
        {
            let ghost e = counts_view(es@)[j as int];
            proof {
                lemma_map_of_index(counts_view(es@), j as int);
            }
            match built.get(&es[j].0) {
                Some(n) => {
                    if n != es[j].1 {
                        assert(query_mp@.contains_key(e.0));
                        assert(query_mp@[e.0] == e.1);
                        assert(built@.contains_key(e.0));
                        assert(occurrences(keys, e.0) == n);
                        assert(!counts_match(query_mp@, keys));
                        return None;
                    }
                },
                None => {
                    assert(!built@.contains_key(e.0));
                    assert(occurrences(keys, e.0) == 0);
                    assert(query_mp@.contains_key(e.0));
                    assert(!counts_match(query_mp@, keys));
                    return None;
                },
            }
            j = j + 1;
        }
        assert forall|k: Seq<char>|
            #![trigger query_mp@.contains_key(k)]
            #![trigger occurrences(keys, k)]
            (query_mp@.contains_key(k) <==> occurrences(keys, k) > 0) && (query_mp@.contains_key(k)
                ==> query_mp@[k] == occurrences(keys, k)) by {
            if query_mp@.contains_key(k) {
                let b = choose|b: int| 0 <= b < counts_view(es@).len() && counts_view(es@)[b].0 == k;
                lemma_map_of_index(counts_view(es@), b);
                assert(built@.contains_key(counts_view(es@)[b].0));
            }
            if occurrences(keys, k) > 0 {
                lemma_occurrences_found(keys, k);
                let a = choose|a: int| 0 <= a < keys.len() && keys[a] == k;
                assert(query_mp@.contains_key(keys[a]));
            }
        }
        Some(CacheManager { connected, last_mod, query_mp, t, limit })
    }

    /// A copy of the bookkeeping.
    pub fn copy(&self) -> (c: CacheManager)
        requires
            self.wf(),
        ensures
            c.wf(),
            c.model() == self.model(),
    {
        let mut last_mod: Vec<(u64, String)> = Vec::new();
        let mut i: usize = 0;
        while i < self.last_mod.len()
            invariant
                i <= self.last_mod@.len(),
                last_mod@.len() == i,
                log_view(last_mod@) == log_view(self.last_mod@).take(i as int),
            decreases self.last_mod@.len() - i,
        {
            let e = (self.last_mod[i].0, self.last_mod[i].1.clone());
            last_mod.push(e);
            assert(log_view(last_mod@)[i as int] == log_view(self.last_mod@)[i as int]);
            assert(log_view(last_mod@) =~= log_view(self.last_mod@).take(i + 1));
            i = i + 1;
        }
        assert(log_view(self.last_mod@).take(i as int) =~= log_view(self.last_mod@));
        CacheManager {
            connected: self.connected,
            last_mod,
            query_mp: self.query_mp.copy(),
            t: self.t,
            limit: self.limit,
        }
    }

    /// The time the next access will be recorded at.
    pub fn clock(&self) -> (t: u64)
        ensures
            t == self.time(),
    {
        self.t
    }

    /// Whether a memcached client is present.
    pub fn connected(&self) -> (b: bool)
        ensures
            b == self.is_connected(),
    {
        self.connected
    }

    /// The counter kept for `key`, if any.
    pub fn get_count(&self, key: &str) -> (r: Option<u64>)
        requires
            self.wf(),
        ensures
            match r {
                Some(n) => self.counts().contains_key(key@) && self.counts()[key@] == n,
                None => !self.counts().contains_key(key@),
            },
    {
        self.query_mp.get(&key.to_owned())
    }

    /// The access log, in time order.
    pub fn last_mod(&self) -> (l: &Vec<(u64, String)>)
        ensures
            log_view(l@) == self.log(),
    {
        &self.last_mod
    }

    /// The number of accesses in the log.
    pub fn log_len(&self) -> (n: usize)
        ensures
            n == self.log().len(),
    {
        self.last_mod.len()
    }

    /// Records an access to `key` (when the command names one): with a
    /// client present, the key's counter grows by one (from 0 where it had
    /// none), the access is logged at the current time and the clock moves
    /// on; without one, nothing changes.
    pub fn process(&mut self, key: Option<&str>)
        requires
            old(self).wf(),
            old(self).is_connected() && key is Some ==> old(self).time() < u64::MAX,
        ensures
            final(self).wf(),
            final(self).model() == match key {
                Some(k) => access(old(self).model(), k@),
                None => old(self).model(),
            },
            final(self).is_connected() == old(self).is_connected(),
            final(self).limit() == old(self).limit(),
            match key {
                Some(k) if old(self).is_connected() => {
                    &&& final(self).counts() == old(self).counts().insert(
                        k@,
                        (count_of(old(self).counts(), k@) + 1) as u64,
                    )
                    &&& final(self).log() == old(self).log().push((old(self).time(), k@))
                    &&& final(self).time() == old(self).time() + 1
                },
                _ => {
                    &&& final(self).counts() == old(self).counts()
                    &&& final(self).log() == old(self).log()
                    &&& final(self).time() == old(self).time()
                },
            },
    {
        if self.connected {
            if let Some(k) = key {
                self.record(k.to_owned());
            }
        }
    }

    fn record(&mut self, k: String)
        requires
            old(self).wf(),
            old(self).connected,
            old(self).t < u64::MAX,
        ensures
            final(self).wf(),
            final(self).model() == access(old(self).model(), k@),
    {
        let t = self.t;
        let n: u64 = match self.query_mp.get(&k) {
            Some(n) => n,
            None => 0,
        };
        proof {
            lemma_ordered_len(self.log(), t);
            lemma_occurrences_le(log_keys(self.log()), k@);
            lemma_access_valid(old(self).model(), k@);
        }
        self.query_mp.insert(k.clone(), n + 1);
        self.last_mod.push((t, k));
        self.t = t + 1;
        assert(self.log() =~= old(self).log().push((t, k@)));
        assert(self.model() =~= access(old(self).model(), k@));
    }

    /// Trims the bookkeeping once the log holds `limit` accesses or more.
    ///
    /// The oldest `limit / 2` accesses leave the log, each dropped access
    /// takes one off its key's counter, and a key left with no access
    /// leaves the counters. Those keys, whose last access was dropped, are
    /// returned in the order of those accesses: they are to be deleted from
    /// memcached, and with a client present the clock moves on by one for
    /// each. `None`, with nothing changed, where that would move the clock
    /// past its maximum.
    pub fn upd_cache(&mut self) -> (r: Option<Vec<String>>)
        requires
            old(self).wf(),
        ensures
            final(self).wf(),
            r is None <==> trim_fault(old(self).model()),
            r is None ==> final(self).model() == old(self).model(),
            r matches Some(evicted) ==> (final(self).model(), evicted@.map_values(|k: String| k@))
                == trimmed(old(self).model()),
    {
        if self.last_mod.len() < self.limit {
            let ev: Vec<String> = Vec::new();
            assert(ev@.map_values(|k: String| k@) =~= Seq::<Seq<char>>::empty());
            return Some(ev);
        }
        let half = self.limit / 2;
        let ghost log0 = self.log();
        let ghost keys = log_keys(log0);
        proof {
            lemma_ordered_len(log0, self.t);
        }
        let mut counts = self.query_mp.copy();
        let mut evicted: Vec<String> = Vec::new();
        let mut i: usize = 0;
        assert(keys.skip(0) =~= keys);
        assert(evicted@.map_values(|k: String| k@) =~= last_accessed(keys, 0));
        while i < half
            invariant
                counts.wf(),
                self.wf(),
                self.model() == old(self).model(),
                log0 == old(self).log(),
                log0 == log_view(self.last_mod@),
                keys == log_keys(log0),
                half == self.limit / 2,
                half <= keys.len(),
                i <= half,
                counts_match(counts@, keys.skip(i as int)),
                evicted@.map_values(|k: String| k@) == last_accessed(keys, i as int),
            decreases half - i,
        {
            let k = self.last_mod[i].1.clone();
            assert(k@ == keys[i as int]);
            let ghost prev = evicted@.map_values(|k: String| k@);
            proof {
                lemma_occurrences_skip(keys, i as int);
            }
            assert(occurrences(keys.skip(i as int), k@) > 0);
            match counts.get(&k) {
                Some(v) => {
                    if v == 1 {
                        evicted.push(k.clone());
                        counts.remove(&k);
                        assert(evicted@.map_values(|k: String| k@) =~= prev.push(k@));
                    } else {
                        counts.insert(k, v - 1);
                    }
                },
                None => {},
            }
            assert(counts_match(counts@, keys.skip(i + 1)));
            i = i + 1;
        }
        let n = evicted.len() as u64;
        assert(evicted@.map_values(|k: String| k@).len() == evicted@.len());
        if self.connected && n > u64::MAX - self.t {
            return None;
        }
        proof {
            lemma_trim_valid(old(self).model());
        }
        let mut kept: Vec<(u64, String)> = Vec::new();
        let mut j = half;
        while j < self.last_mod.len()
            invariant
                half <= j <= self.last_mod@.len(),
                log0 == log_view(self.last_mod@),
                kept@.len() == j - half,
                log_view(kept@) == log0.subrange(half as int, j as int),
            decreases self.last_mod@.len() - j,
        {
            let e = (self.last_mod[j].0, self.last_mod[j].1.clone());
            kept.push(e);
            assert(log_view(kept@)[j - half] == log0[j as int]);
            assert(log_view(kept@) =~= log0.subrange(half as int, j + 1));
            j = j + 1;
        }
        self.last_mod = kept;
        self.query_mp = counts;
        if self.connected {
            self.t = self.t + n;
        }
        assert(self.log() =~= log0.skip(half as int));
        assert(log_keys(log0.skip(half as int)) =~= keys.skip(half as int));
        assert(self.query_mp@ =~= count_map(log_keys(self.log())));
        assert(self.model() =~= trimmed(old(self).model()).0);
        Some(evicted)
    }

    /// The bookkeeping as a value.
    pub closed spec fn model(&self) -> CacheModel {
        CacheModel {
            connected: self.connected,
            counts: self.query_mp@,
            log: log_view(self.last_mod@),
            t: self.t,
            limit: self.limit as nat,
        }
    }

    /// Clears the counters and the log.
    pub fn flush(&mut self) -> (r: Result<(), ()>)
        requires
            old(self).wf(),
        ensures
            final(self).wf(),
            final(self).is_connected() == old(self).is_connected(),
            final(self).limit() == old(self).limit(),
            final(self).time() == old(self).time(),
            final(self).counts() == Map::<Seq<char>, u64>::empty(),
            final(self).log() == Seq::<(u64, Seq<char>)>::empty(),
            final(self).model() == flushed(old(self).model()),
            r is Ok,
    {
        self.query_mp.clear();
        self.last_mod = Vec::new();
        assert(self.log() =~= Seq::<(u64, Seq<char>)>::empty());
        assert(self.model() =~= flushed(old(self).model()));
        Ok(())
    }
}

} // verus!
