use vstd::prelude::*;
use crate::cache_manager::{
    access, access_fault, flushed, trim_fault, trimmed, CacheManager, CacheModel,
};
use crate::error::{ErrorKind, KvError, not_found, not_found_text};
use crate::kvmap::StrMap;
use crate::numbers::{format_i64, i64_text, parse_i64, parse_i64_spec};
use crate::storage_manager::{
    apply_change, store_get, version_at, Storage, StoreChange, StoreModel,
};
use crate::text::chars_of;
use crate::utils::commands::{Command, CommandModel};

verus! {

/// A request that the handler needs memcached to answer.
#[derive(Debug, PartialEq, Eq)]
pub enum CacheCall {
    /// Read the value cached under a key.
    Get(String),
    /// Cache a value under a key, then delete each of the listed keys
    /// (whose answers are not awaited).
    Put(String, String, Vec<String>),
    /// Delete the value cached under a key.
    Del(String),
    /// Empty the cache.
    Flush,
}

/// A memcached request, with its strings taken as character sequences.
pub enum CallModel {
    Get(Seq<char>),
    Put(Seq<char>, Seq<char>, Seq<Seq<char>>),
    Del(Seq<char>),
    Flush,
}

impl CacheCall {
    pub open spec fn model(&self) -> CallModel {
        match self {
            CacheCall::Get(k) => CallModel::Get(k@),
            CacheCall::Put(k, v, ev) => CallModel::Put(k@, v@, ev@.map_values(|e: String| e@)),
            CacheCall::Del(k) => CallModel::Del(k@),
            CacheCall::Flush => CallModel::Flush,
        }
    }
}

/// What the handler does next.
#[derive(Debug, PartialEq, Eq)]
pub enum Step {
    /// Send this request to memcached, append its answer to the replies and
    /// process the same command again.
    Call(CacheCall),
    /// The command is done; this is its answer.
    Done(Result<String, KvError>),
    /// The command cannot be carried out: it is not one the handler serves
    /// (`quit`, or text that is no command), or the clock of the cache
    /// bookkeeping would pass its maximum. Nothing changes.
    Abort,
}

/// Everything a command can change: the store and the cache bookkeeping.
#[verifier::ext_equal]
pub struct World {
    pub store: StoreModel,
    pub cache: CacheModel,
}

/// An answer: the text sent back, or an error's kind and message.
pub type AnswerModel = Result<Seq<char>, (ErrorKind, Seq<char>)>;

/// A reply of memcached: the text it answered (`None` where it holds
/// nothing under the key), or the error's text.
pub type ReplyModel = Result<Option<Seq<char>>, Seq<char>>;

/// Where a run of a command got to with the replies at hand.
pub enum Flow {
    /// It needs memcached to answer this request.
    Need(CallModel),
    /// It cannot be carried out.
    Fault,
    /// It finished in this world, having used the replies before `pos`,
    /// with this answer.
    Finished(World, int, AnswerModel),
}

/// Where a memcached request got to.
pub enum Sub {
    Need(CallModel),
    Fault,
    /// It was answered; the world and reply position after it.
    Got(World, int, ReplyModel),
}

pub open spec fn ok_text() -> Seq<char> {
    "OK"@
}

pub open spec fn none_text() -> Seq<char> {
    "None"@
}

pub open spec fn false_text() -> Seq<char> {
    "false"@
}

pub open spec fn disconnected_text() -> Seq<char> {
    "Failed to connect to memcached"@
}

pub open spec fn not_i64_text() -> Seq<char> {
    "Value is not a valid i64"@
}

pub open spec fn out_of_range_text() -> Seq<char> {
    "Result is not a valid i64"@
}

/// The answer to `help`: the commands served, one per line.
pub open spec fn help_text() -> Seq<char> {
    "get <key>: the value stored under the key, or None\nset <key> <value>: stores the value under the key\ndel <key>: deletes the key and its value\nincr <key> <n>: adds n to the number stored under the key\ndecr <key> <n>: subtracts n from the number stored under the key\nclear: empties the store and the cache\ntransact: followed by one command per line: runs them all, or none\nrollback <key> <n>: the value the key had n versions ago\nhelp: this list"@
}

pub open spec fn store_insert(w: World, k: Seq<char>, v: Seq<char>) -> World {
    World { store: apply_change(w.store, StoreChange::Insert(k, v)), ..w }
}

pub open spec fn store_delete(w: World, k: Seq<char>) -> World {
    World { store: apply_change(w.store, StoreChange::Delete(k)), ..w }
}

pub open spec fn store_flush(w: World) -> World {
    World { store: apply_change(w.store, StoreChange::Flush), ..w }
}

pub open spec fn store_restore(w: World, m: Map<Seq<char>, Seq<char>>) -> World {
    World { store: StoreModel { map: m, history: seq![m] }, ..w }
}

/// The answer to a request, once the bookkeeping is done: without a client
/// the request fails at once; with one, the next reply answers it.
pub open spec fn answer(w: World, call: CallModel, replies: Seq<ReplyModel>, pos: int) -> Sub {
    if !w.cache.connected {
        Sub::Got(w, pos, Err(disconnected_text()))
    } else if pos < replies.len() {
        Sub::Got(w, pos + 1, replies[pos])
    } else {
        Sub::Need(call)
    }
}

pub open spec fn cache_get(w: World, k: Seq<char>, replies: Seq<ReplyModel>, pos: int) -> Sub {
    if access_fault(w.cache) {
        Sub::Fault
    } else {
        answer(World { cache: access(w.cache, k), ..w }, CallModel::Get(k), replies, pos)
    }
}

pub open spec fn cache_del(w: World, k: Seq<char>, replies: Seq<ReplyModel>, pos: int) -> Sub {
    if access_fault(w.cache) {
        Sub::Fault
    } else {
        answer(World { cache: access(w.cache, k), ..w }, CallModel::Del(k), replies, pos)
    }
}

/// Caching `v` under `k`: the access is recorded, the bookkeeping trimmed
/// (the keys it evicts go with the request), and a successful reply reads
/// "OK".
pub open spec fn cache_set(w: World, k: Seq<char>, v: Seq<char>, replies: Seq<ReplyModel>, pos: int) -> Sub {
    if access_fault(w.cache) || trim_fault(access(w.cache, k)) {
        Sub::Fault
    } else {
        let (c2, ev) = trimmed(access(w.cache, k));
        match answer(World { cache: c2, ..w }, CallModel::Put(k, v, ev), replies, pos) {
            Sub::Got(w2, p2, Ok(_)) => Sub::Got(w2, p2, Ok(Some(ok_text()))),
            other => other,
        }
    }
}

pub open spec fn cache_flush(w: World, replies: Seq<ReplyModel>, pos: int) -> Sub {
    answer(World { cache: flushed(w.cache), ..w }, CallModel::Flush, replies, pos)
}

/// Adds `amount` to the number stored under `k`. A key not stored, a
/// value that is not an `i64` and a sum outside the `i64` range are
/// errors that change nothing; otherwise the sum is stored and answered
/// "OK", and memcached, where it answers, gets the new value.
pub open spec fn run_incr(w: World, k: Seq<char>, amount: int, replies: Seq<ReplyModel>, pos: int) -> Flow {
    if !w.store.map.contains_key(k) {
        Flow::Finished(w, pos, Err((ErrorKind::NotFound, not_found_text())))
    } else {
        match parse_i64_spec(w.store.map[k]) {
            None => Flow::Finished(w, pos, Err((ErrorKind::InvalidInput, not_i64_text()))),
            Some(cur) => {
                let n = cur + amount;
                if n < i64::MIN || n > i64::MAX {
                    Flow::Finished(w, pos, Err((ErrorKind::InvalidInput, out_of_range_text())))
                } else {
                    let text = i64_text(n as i64);
                    match cache_get(store_insert(w, k, text), k, replies, pos) {
                        Sub::Need(c) => Flow::Need(c),
                        Sub::Fault => Flow::Fault,
                        Sub::Got(w2, p2, Err(_)) => Flow::Finished(w2, p2, Ok(ok_text())),
                        Sub::Got(w2, p2, Ok(_)) => match cache_set(w2, k, text, replies, p2) {
                            Sub::Need(c) => Flow::Need(c),
                            Sub::Fault => Flow::Fault,
                            Sub::Got(w3, p3, Ok(_)) => Flow::Finished(w3, p3, Ok(ok_text())),
                            Sub::Got(w3, p3, Err(e)) => Flow::Finished(w3, p3, Err((ErrorKind::Other, e))),
                        },
                    }
                }
            },
        }
    }
}

/// Runs `c` in `w`, taking memcached's answers from `replies` from `pos` on.
pub open spec fn run(w: World, c: CommandModel, replies: Seq<ReplyModel>, pos: int) -> Flow
    decreases c, 0int,
{
    match c {
        CommandModel::Get(k) => match cache_get(w, k, replies, pos) {
            Sub::Need(call) => Flow::Need(call),
            Sub::Fault => Flow::Fault,
            Sub::Got(w1, p1, Ok(Some(v))) => Flow::Finished(w1, p1, Ok(v)),
            Sub::Got(w1, p1, _) => match store_get(w1.store, k) {
                Some(val) => match cache_set(w1, k, val, replies, p1) {
                    Sub::Need(call) => Flow::Need(call),
                    Sub::Fault => Flow::Fault,
                    Sub::Got(w2, p2, _) => Flow::Finished(w2, p2, Ok(val)),
                },
                None => Flow::Finished(w1, p1, Ok(none_text())),
            },
        },
        CommandModel::SetValue(k, v) => match cache_set(store_insert(w, k, v), k, v, replies, pos) {
            Sub::Need(call) => Flow::Need(call),
            Sub::Fault => Flow::Fault,
            Sub::Got(w2, p2, _) => Flow::Finished(w2, p2, Ok(ok_text())),
        },
        CommandModel::Del(k) => if !w.store.map.contains_key(k) {
            Flow::Finished(w, pos, Err((ErrorKind::NotFound, not_found_text())))
        } else {
            match cache_del(store_delete(w, k), k, replies, pos) {
                Sub::Need(call) => Flow::Need(call),
                Sub::Fault => Flow::Fault,
                Sub::Got(w2, p2, Ok(Some(r))) => Flow::Finished(w2, p2, Ok(r)),
                Sub::Got(w2, p2, Ok(None)) => Flow::Finished(w2, p2, Ok(false_text())),
                Sub::Got(w2, p2, Err(e)) => Flow::Finished(w2, p2, Err((ErrorKind::Other, e))),
            }
        },
        CommandModel::Incr(k, inc) => run_incr(w, k, inc as int, replies, pos),
        CommandModel::Decr(k, dec) => run_incr(w, k, -(dec as int), replies, pos),
        CommandModel::Clear => match cache_flush(store_flush(w), replies, pos) {
            Sub::Need(call) => Flow::Need(call),
            Sub::Fault => Flow::Fault,
            Sub::Got(w2, p2, _) => Flow::Finished(w2, p2, Ok(ok_text())),
        },
        CommandModel::Rollback(k, ver) => Flow::Finished(
            w,
            pos,
            match version_at(w.store, k, ver as int) {
                Some(v) => Ok(v),
                None => Err((ErrorKind::NotFound, not_found_text())),
            },
        ),
        CommandModel::Transact(ops) => run_ops(w, ops, 0, replies, pos, w.store.map, Seq::empty()),
        CommandModel::Help => Flow::Finished(w, pos, Ok(help_text())),
        _ => Flow::Fault,
    }
}

/// Runs the operations of a transaction from the `i`-th on, `acc` holding
/// the answers so far (each followed by a line feed); on the first error
/// the store returns to `start`, the cache is emptied and the error is
/// answered.
pub open spec fn run_ops(
    w: World,
    ops: Seq<CommandModel>,
    i: int,
    replies: Seq<ReplyModel>,
    pos: int,
    start: Map<Seq<char>, Seq<char>>,
    acc: Seq<char>,
) -> Flow
    decreases ops, ops.len() - i,
{
    if i < 0 || i >= ops.len() {
        Flow::Finished(w, pos, Ok(acc))
    } else {
        match run(w, ops[i], replies, pos) {
            Flow::Need(call) => Flow::Need(call),
            Flow::Fault => Flow::Fault,
            Flow::Finished(w1, p1, Ok(v)) => run_ops(w1, ops, i + 1, replies, p1, start, acc + v + seq!['\n']),
            Flow::Finished(w1, p1, Err(e)) => match cache_flush(store_restore(w1, start), replies, p1) {
                Sub::Need(call) => Flow::Need(call),
                Sub::Fault => Flow::Fault,
                Sub::Got(w2, p2, _) => Flow::Finished(w2, p2, Err((ErrorKind::Other, e.1))),
            },
        }
    }
}

/// Runs `ops` one after another, each from where the one before left
/// off, up to the first that does not answer: their answers joined, each
/// followed by a line feed.
pub open spec fn in_turn(w: World, ops: Seq<CommandModel>, replies: Seq<ReplyModel>, pos: int) -> Flow
    decreases ops.len(),
{
    if ops.len() == 0 {
        Flow::Finished(w, pos, Ok(Seq::empty()))
    } else {
        match run(w, ops[0], replies, pos) {
            Flow::Finished(w1, p1, Ok(v)) => match in_turn(w1, ops.drop_first(), replies, p1) {
                Flow::Finished(w2, p2, Ok(rest)) => Flow::Finished(w2, p2, Ok(v + seq!['\n'] + rest)),
                other => other,
            },
            other => other,
        }
    }
}

/// An answer, taken as a value.
pub open spec fn answer_model(a: Result<String, KvError>) -> AnswerModel {
    match a {
        Ok(s) => Ok(s@),
        Err(e) => Err((e.kind, e.message@)),
    }
}

/// A reply of memcached, taken as a value.
pub open spec fn reply_model(x: Result<Option<String>, String>) -> ReplyModel {
    match x {
        Ok(Some(s)) => Ok(Some(s@)),
        Ok(None) => Ok(None),
        Err(e) => Err(e@),
    }
}

/// The replies of memcached, taken as values.
pub open spec fn replies_model(r: Seq<Result<Option<String>, String>>) -> Seq<ReplyModel> {
    r.map_values(|x: Result<Option<String>, String>| reply_model(x))
}

/// Where a memcached request got to, in the executable state.
enum Pending {
    Need(CacheCall),
    Fault,
    Got(usize, Result<Option<String>, String>),
}

spec fn pending_agrees(x: Pending, w: World, s: Sub) -> bool {
    match (x, s) {
        (Pending::Need(c), Sub::Need(m)) => c.model() == m,
        (Pending::Fault, Sub::Fault) => true,
        (Pending::Got(p, r), Sub::Got(w2, p2, r2)) => w == w2 && p == p2 && reply_model(r) == r2,
        _ => false,
    }
}

/// Where a run got to, in the executable state.
enum Progress {
    Need(CacheCall),
    Fault,
    Finished(usize, Result<String, KvError>),
}

spec fn progress_agrees(x: Progress, w: World, f: Flow) -> bool {
    match (x, f) {
        (Progress::Need(c), Flow::Need(m)) => c.model() == m,
        (Progress::Fault, Flow::Fault) => true,
        (Progress::Finished(p, a), Flow::Finished(w2, p2, a2)) => w == w2 && p == p2
            && answer_model(a) == a2,
        _ => false,
    }
}

/// `b` begins with `a`.
spec fn extends(a: Seq<Map<Seq<char>, Seq<char>>>, b: Seq<Map<Seq<char>, Seq<char>>>) -> bool {
    a.len() <= b.len() && b.subrange(0, a.len() as int) == a
}

proof fn lemma_extends_trans(
    a: Seq<Map<Seq<char>, Seq<char>>>,
    b: Seq<Map<Seq<char>, Seq<char>>>,
    c: Seq<Map<Seq<char>, Seq<char>>>,
)
    requires
        extends(a, b),
        extends(b, c),
    ensures
        extends(a, c),
{
    assert(c.subrange(0, a.len() as int) =~= c.subrange(0, b.len() as int).subrange(0, a.len() as int));
}

/// A command that holds no transaction inside a transaction.
spec fn single_level(c: Command) -> bool {
    match c {
        Command::Transact(ops) => forall|j: int|
            0 <= j < ops@.len() ==> !(#[trigger] ops@[j] matches Command::Transact(_)),
        _ => true,
    }
}

/// Whether none of `ops` is a transaction.
fn none_transacts(ops: &Vec<Command>) -> (b: bool)
    ensures
        b == forall|j: int| 0 <= j < ops@.len() ==> !(#[trigger] ops@[j] matches Command::Transact(_)),
{
    let mut i: usize = 0;
    while i < ops.len()
        invariant
            i <= ops@.len(),
            forall|j: int| 0 <= j < i ==> !(#[trigger] ops@[j] matches Command::Transact(_)),
        decreases ops@.len() - i,
    {
        if let Command::Transact(_) = &ops[i] {
            return false;
        }
        i = i + 1;
    }
    true
}

fn text(s: &str) -> (r: String)
    ensures
        r@ == s@,
{
    s.to_owned()
}

/// The list of the commands served, one per line.
pub fn help() -> (r: String)
    ensures
        r@ == help_text(),
{
    let r = text("get <key>: the value stored under the key, or None\nset <key> <value>: stores the value under the key\ndel <key>: deletes the key and its value\nincr <key> <n>: adds n to the number stored under the key\ndecr <key> <n>: subtracts n from the number stored under the key\nclear: empties the store and the cache\ntransact: followed by one command per line: runs them all, or none\nrollback <key> <n>: the value the key had n versions ago\nhelp: this list");
    r
}

/// Serves the requests of clients: a versioned store, with memcached in
/// front of it.
pub struct RequestHandler {
    cache: CacheManager,
    storage: Storage,
}

impl RequestHandler {
    /// The store and the cache bookkeeping, as a value.
    pub closed spec fn world(&self) -> World {
        World {
            store: StoreModel { map: self.storage.current(), history: self.storage.history() },
            cache: self.cache.model(),
        }
    }

    pub closed spec fn wf(&self) -> bool {
        self.storage.wf() && self.cache.wf()
    }

    /// A handler with an empty store; `connected` tells whether a memcached
    /// client is present.
    pub fn new(connected: bool) -> (h: RequestHandler)
        ensures
            h.wf(),
            h.world().store.map == Map::<Seq<char>, Seq<char>>::empty(),
            h.world().store.history == seq![Map::<Seq<char>, Seq<char>>::empty()],
            h.world().cache.connected == connected,
            h.world().cache.counts == Map::<Seq<char>, u64>::empty(),
            h.world().cache.log == Seq::<(u64, Seq<char>)>::empty(),
            h.world().cache.t == 0,
    {
        RequestHandler { cache: CacheManager::new(connected), storage: Storage::new() }
    }

    /// A handler whose store starts from the contents of `map`.
    pub fn new_from(connected: bool, map: &StrMap) -> (h: RequestHandler)
        requires
            map.wf(),
        ensures
            h.wf(),
            h.world().store.map == map@,
            h.world().store.history == seq![map@],
            h.world().cache.connected == connected,
            h.world().cache.counts == Map::<Seq<char>, u64>::empty(),
            h.world().cache.log == Seq::<(u64, Seq<char>)>::empty(),
            h.world().cache.t == 0,
    {
        RequestHandler { cache: CacheManager::new(connected), storage: Storage::new_from(map) }
    }

    /// The store.
    pub fn get_storage(&self) -> (s: &Storage)
        requires
            self.wf(),
        ensures
            s.wf(),
            s.current() == self.world().store.map,
            s.history() == self.world().store.history,
    {
        &self.storage
    }

    /// The answer to a request whose bookkeeping is done.
    fn answer(&self, call: CacheCall, replies: &Vec<Result<Option<String>, String>>, pos: usize) -> (r: Pending)
        requires
            pos <= replies@.len(),
        ensures
            pending_agrees(r, self.world(), answer(self.world(), call.model(), replies_model(replies@), pos as int)),
            r matches Pending::Got(p, _) ==> p <= replies@.len(),
    {
        if !self.cache.connected() {
            Pending::Got(pos, Err(text("Failed to connect to memcached")))
        } else if pos < replies.len() {
            let r = match &replies[pos] {
                Ok(Some(t)) => Ok(Some(t.clone())),
                Ok(None) => Ok(None),
                Err(e) => Err(e.clone()),
            };
            assert(replies_model(replies@)[pos as int] == reply_model(replies@[pos as int]));
            Pending::Got(pos + 1, r)
        } else {
            Pending::Need(call)
        }
    }

    fn cache_get(&mut self, k: &String, replies: &Vec<Result<Option<String>, String>>, pos: usize) -> (r: Pending)
        requires
            old(self).wf(),
            pos <= replies@.len(),
        ensures
            final(self).wf(),
            final(self).storage == old(self).storage,
            pending_agrees(r, final(self).world(), cache_get(old(self).world(), k@, replies_model(replies@), pos as int)),
            r matches Pending::Got(p, _) ==> p <= replies@.len(),
    {
        if self.cache.connected() && self.cache.clock() == u64::MAX {
            return Pending::Fault;
        }
        self.cache.process(Some(k.as_str()));
        assert(self.world() =~= World { cache: access(old(self).world().cache, k@), ..old(self).world() });
        self.answer(CacheCall::Get(k.clone()), replies, pos)
    }

    fn cache_del(&mut self, k: &String, replies: &Vec<Result<Option<String>, String>>, pos: usize) -> (r: Pending)
        requires
            old(self).wf(),
            pos <= replies@.len(),
        ensures
            final(self).wf(),
            final(self).storage == old(self).storage,
            pending_agrees(r, final(self).world(), cache_del(old(self).world(), k@, replies_model(replies@), pos as int)),
            r matches Pending::Got(p, _) ==> p <= replies@.len(),
    {
        if self.cache.connected() && self.cache.clock() == u64::MAX {
            return Pending::Fault;
        }
        self.cache.process(Some(k.as_str()));
        assert(self.world() =~= World { cache: access(old(self).world().cache, k@), ..old(self).world() });
        self.answer(CacheCall::Del(k.clone()), replies, pos)
    }

    fn cache_set(&mut self, k: &String, v: &String, replies: &Vec<Result<Option<String>, String>>, pos: usize) -> (r: Pending)
        requires
            old(self).wf(),
            pos <= replies@.len(),
        ensures
            final(self).wf(),
            final(self).storage == old(self).storage,
            pending_agrees(r, final(self).world(), cache_set(old(self).world(), k@, v@, replies_model(replies@), pos as int)),
            r matches Pending::Got(p, _) ==> p <= replies@.len(),
    {
        if self.cache.connected() && self.cache.clock() == u64::MAX {
            return Pending::Fault;
        }
        self.cache.process(Some(k.as_str()));
        let ghost c1 = self.cache.model();
        let ev = match self.cache.upd_cache() {
            Some(ev) => ev,
            None => return Pending::Fault,
        };
        assert(self.world() =~= World { cache: trimmed(c1).0, ..old(self).world() });
        let call = CacheCall::Put(k.clone(), v.clone(), ev);
        match self.answer(call, replies, pos) {
            Pending::Got(p, Ok(_)) => Pending::Got(p, Ok(Some(text("OK")))),
            other => other,
        }
    }

    fn cache_flush(&mut self, replies: &Vec<Result<Option<String>, String>>, pos: usize) -> (r: Pending)
        requires
            old(self).wf(),
            pos <= replies@.len(),
        ensures
            final(self).wf(),
            final(self).storage == old(self).storage,
            pending_agrees(r, final(self).world(), cache_flush(old(self).world(), replies_model(replies@), pos as int)),
            r matches Pending::Got(p, _) ==> p <= replies@.len(),
    {
        let _ = self.cache.flush();
        assert(self.world() =~= World { cache: flushed(old(self).world().cache), ..old(self).world() });
        self.answer(CacheCall::Flush, replies, pos)
    }

    /// Adds `amount`, taken as negative where `negative` holds, to the
    /// number stored under `k`.
    fn run_incr(&mut self, k: &String, amount: u64, negative: bool, replies: &Vec<Result<Option<String>, String>>, pos: usize) -> (r: Progress)
        requires
            old(self).wf(),
            pos <= replies@.len(),
        ensures
            final(self).wf(),
            extends(old(self).storage.history(), final(self).storage.history()),
            progress_agrees(
                r,
                final(self).world(),
                run_incr(
                    old(self).world(),
                    k@,
                    if negative { -(amount as int) } else { amount as int },
                    replies_model(replies@),
                    pos as int,
                ),
            ),
            r matches Progress::Finished(p, _) ==> p <= replies@.len(),
    {
        proof {
            let h = self.storage.history();
            assert(h.subrange(0, h.len() as int) =~= h);
        }
        match self.storage.get(k.as_str()) {
            Err(e) => Progress::Finished(pos, Err(e)),
            Ok(cur_text) => {
                let chars = chars_of(cur_text.as_str());
                assert(chars@.subrange(0, chars@.len() as int) =~= chars@);
                match parse_i64(&chars, 0, chars.len()) {
                    None => Progress::Finished(
                        pos,
                        Err(KvError::new(ErrorKind::InvalidInput, text("Value is not a valid i64"))),
                    ),
                    Some(cur) => {
                        let sum: i128 = if negative {
                            cur as i128 - amount as i128
                        } else {
                            cur as i128 + amount as i128
                        };
                        if sum < i64::MIN as i128 || sum > i64::MAX as i128 {
                            return Progress::Finished(
                                pos,
                                Err(KvError::new(ErrorKind::InvalidInput, text("Result is not a valid i64"))),
                            );
                        }
                        let n = sum as i64;
                        let t = format_i64(n);
                        let _ = self.storage.insert(k.as_str(), t.as_str());
                        assert(self.world() =~= store_insert(old(self).world(), k@, t@));
                        assert(self.storage.history().subrange(0, old(self).storage.history().len() as int)
                            =~= old(self).storage.history());
                        match self.cache_get(k, replies, pos) {
                            Pending::Need(call) => Progress::Need(call),
                            Pending::Fault => Progress::Fault,
                            Pending::Got(p, Err(_)) => Progress::Finished(p, Ok(text("OK"))),
                            Pending::Got(p, Ok(_)) => match self.cache_set(k, &t, replies, p) {
                                Pending::Need(call) => Progress::Need(call),
                                Pending::Fault => Progress::Fault,
                                Pending::Got(p3, Ok(_)) => Progress::Finished(p3, Ok(text("OK"))),
                                Pending::Got(p3, Err(e)) => Progress::Finished(
                                    p3,
                                    Err(KvError::new(ErrorKind::Other, e)),
                                ),
                            },
                        }
                    },
                }
            },
        }
    }

    fn run(&mut self, c: &Command, replies: &Vec<Result<Option<String>, String>>, pos: usize) -> (r: Progress)
        requires
            old(self).wf(),
            pos <= replies@.len(),
        ensures
            final(self).wf(),
            !(*c matches Command::Transact(_)) ==> extends(
                old(self).storage.history(),
                final(self).storage.history(),
            ),
            progress_agrees(r, final(self).world(), run(old(self).world(), c.model(), replies_model(replies@), pos as int)),
            r matches Progress::Finished(p, _) ==> p <= replies@.len(),
            single_level(*c) && !(r is Finished) ==> extends(
                old(self).storage.history(),
                final(self).storage.history(),
            ),
        decreases c,
    {
        proof {
            let h = self.storage.history();
            assert(h.subrange(0, h.len() as int) =~= h);
        }
        match c {
            Command::Get(k) => match self.cache_get(k, replies, pos) {
                Pending::Need(call) => Progress::Need(call),
                Pending::Fault => Progress::Fault,
                Pending::Got(p, Ok(Some(v))) => Progress::Finished(p, Ok(v)),
                Pending::Got(p, _) => match self.storage.get(k.as_str()) {
                    Ok(val) => match self.cache_set(k, &val, replies, p) {
                        Pending::Need(call) => Progress::Need(call),
                        Pending::Fault => Progress::Fault,
                        Pending::Got(p2, _) => Progress::Finished(p2, Ok(val)),
                    },
                    Err(_) => Progress::Finished(p, Ok(text("None"))),
                },
            },
            Command::SetValue(k, v) => {
                let _ = self.storage.insert(k.as_str(), v.as_str());
                assert(self.world() =~= store_insert(old(self).world(), k@, v@));
                assert(self.storage.history().subrange(0, old(self).storage.history().len() as int)
                    =~= old(self).storage.history());
                match self.cache_set(k, v, replies, pos) {
                    Pending::Need(call) => Progress::Need(call),
                    Pending::Fault => Progress::Fault,
                    Pending::Got(p2, _) => Progress::Finished(p2, Ok(text("OK"))),
                }
            },
            Command::Del(k) => match self.storage.delete(k.as_str()) {
                Err(e) => Progress::Finished(pos, Err(e)),
                Ok(_) => {
                    assert(self.world() =~= store_delete(old(self).world(), k@));
                    assert(self.storage.history().subrange(0, old(self).storage.history().len() as int)
                        =~= old(self).storage.history());
                    match self.cache_del(k, replies, pos) {
                        Pending::Need(call) => Progress::Need(call),
                        Pending::Fault => Progress::Fault,
                        Pending::Got(p2, Ok(Some(r))) => Progress::Finished(p2, Ok(r)),
                        Pending::Got(p2, Ok(None)) => Progress::Finished(p2, Ok(text("false"))),
                        Pending::Got(p2, Err(e)) => Progress::Finished(
                            p2,
                            Err(KvError::new(ErrorKind::Other, e)),
                        ),
                    }
                },
            },
            Command::Incr(k, inc) => self.run_incr(k, *inc, false, replies, pos),
            Command::Decr(k, dec) => self.run_incr(k, *dec, true, replies, pos),
            Command::Clear() => {
                let _ = self.storage.flush();
                assert(self.world() =~= store_flush(old(self).world()));
                assert(self.storage.history().subrange(0, old(self).storage.history().len() as int)
                    =~= old(self).storage.history());
                match self.cache_flush(replies, pos) {
                    Pending::Need(call) => Progress::Need(call),
                    Pending::Fault => Progress::Fault,
                    Pending::Got(p2, _) => Progress::Finished(p2, Ok(text("OK"))),
                }
            },
            Command::Rollback(k, ver) => {
                if *ver >= self.storage.get_cur_ver() as u64 {
                    Progress::Finished(pos, Err(not_found()))
                } else {
                    Progress::Finished(pos, self.storage.val_from(k.as_str(), *ver as usize))
                }
            },
            Command::Help() => Progress::Finished(pos, Ok(help())),
            Command::Transact(ops) => {
                let ghost w0 = self.world();
                let ghost ms = c.model()->Transact_0;
                let ghost rs = replies_model(replies@);
                let start = self.storage.get_map().copy();
                let mut acc = String::new();
                let mut p = pos;
                let mut i: usize = 0;
                assert(acc@ =~= Seq::<char>::empty());
                while i < ops.len()
                    invariant
                        self.wf(),
                        start.wf(),
                        start@ == w0.store.map,
                        w0 == old(self).world(),
                        run(w0, c.model(), rs, pos as int) == run_ops(w0, ms, 0, rs, pos as int, w0.store.map, Seq::empty()),
                        ms == c.model()->Transact_0,
                        c.model() == CommandModel::Transact(ms),
                        *c == Command::Transact(*ops),
                        ms.len() == ops@.len(),
                        forall|j: int| 0 <= j < ops@.len() ==> ms[j] == (#[trigger] ops@[j]).model(),
                        rs == replies_model(replies@),
                        p <= replies@.len(),
                        i <= ops@.len(),
                        run_ops(w0, ms, 0, rs, pos as int, w0.store.map, Seq::empty())
                            == run_ops(self.world(), ms, i as int, rs, p as int, w0.store.map, acc@),
                        single_level(*c) ==> extends(old(self).storage.history(), self.storage.history()),
                    decreases ops@.len() - i,
                {
                    let ghost wi = self.world();
                    let ghost hi = self.storage.history();
                    let ghost acc0 = acc@;
                    let ghost pi = p as int;
                    assert(ms[i as int] == ops@[i as int].model());
                    let r = self.run(&ops[i], replies, p);
                    proof {
                        if single_level(*c) {
                            assert(!(ops@[i as int] matches Command::Transact(_)));
                            lemma_extends_trans(old(self).storage.history(), hi, self.storage.history());
                        }
                    }
                    match r {
                        Progress::Need(call) => {
                            assert(run(wi, ms[i as int], rs, pi) == Flow::Need(call.model()));
                            assert(run_ops(wi, ms, i as int, rs, pi, w0.store.map, acc0) == Flow::Need(call.model()));
                            return Progress::Need(call);
                        },
                        Progress::Fault => {
                            assert(run_ops(wi, ms, i as int, rs, pi, w0.store.map, acc0) == Flow::Fault);
                            return Progress::Fault;
                        },
                        Progress::Finished(p1, Ok(v)) => {
                            acc.append(v.as_str());
                            acc.append("\n");
                            proof {
                                reveal_strlit("\n");
                            }
                            assert(acc@ =~= acc0 + v@ + seq!['\n']);
                            p = p1;
                            i = i + 1;
                        },
                        Progress::Finished(p1, Err(e)) => {
                            // the cache is emptied first, so that the store is
                            // only given up once nothing is left to wait for
                            let ghost w1 = self.world();
                            let ghost wr = store_restore(w1, w0.store.map);
                            assert(wr.cache == w1.cache);
                            return match self.cache_flush(replies, p1) {
                                Pending::Need(call) => Progress::Need(call),
                                Pending::Fault => Progress::Fault,
                                Pending::Got(p2, _) => {
                                    self.storage = Storage::new_from(&start);
                                    assert(self.world() =~= World { cache: flushed(wr.cache), ..wr });
                                    Progress::Finished(
                                        p2,
                                        Err(KvError::new(ErrorKind::Other, e.message)),
                                    )
                                },
                            };
                        },
                    }
                }
                Progress::Finished(p, Ok(acc))
            },
            _ => Progress::Fault,
        }
    }

    /// Runs `command` with the memcached answers in `replies`.
    ///
    /// A command runs until it needs an answer from memcached that is not
    /// among `replies` yet: then nothing changes and the request is
    /// returned, for the caller to send and to run the command again with
    /// the answer appended. When it finishes, its effects on the store and
    /// on the cache bookkeeping take place and its answer is returned.
    /// Without a memcached client no request is made: each fails at once.
    /// A memcached reply `Ok(None)` says that memcached holds nothing under
    /// the key.
    pub fn process(&mut self, command: &Command, replies: &Vec<Result<Option<String>, String>>) -> (s: Step)
        requires
            old(self).wf(),
        ensures
            final(self).wf(),
            match (s, run(old(self).world(), command.model(), replies_model(replies@), 0)) {
                (Step::Call(c), Flow::Need(m)) => c.model() == m && final(self).world() == old(self).world(),
                (Step::Abort, Flow::Fault) => final(self).world() == old(self).world(),
                (Step::Done(a), Flow::Finished(w, _, a2)) => final(self).world() == w && answer_model(a) == a2,
                _ => false,
            },
    {
        let in_place = match command {
            Command::Transact(ops) => none_transacts(ops),
            _ => true,
        };
        if !in_place {
            // a transaction inside a transaction may give up the whole
            // history before it waits for memcached: run it on a copy
            let mut work = RequestHandler { cache: self.cache.copy(), storage: self.storage.copy() };
            assert(work.world() =~= self.world());
            match work.run(command, replies, 0) {
                Progress::Need(call) => Step::Call(call),
                Progress::Fault => Step::Abort,
                Progress::Finished(_, a) => {
                    *self = work;
                    Step::Done(a)
                },
            }
        } else {
            // until it finishes, the command only adds versions to the
            // history: run it in place, and drop what it added if it does
            // not finish
            let ghost w0 = self.world();
            proof {
                self.storage.lemma_newest_is_current();
            }
            let saved = self.cache.copy();
            let n = self.storage.get_cur_ver();
            match self.run(command, replies, 0) {
                Progress::Finished(_, a) => Step::Done(a),
                other => {
                    self.cache = saved;
                    self.storage.keep_versions(n);
                    assert(self.world().store.history =~= w0.store.history);
                    assert(self.world() =~= w0);
                    match other {
                        Progress::Need(call) => Step::Call(call),
                        _ => Step::Abort,
                    }
                },
            }
        }
    }
}

} // verus!
