use vstd::prelude::*;
use crate::numbers::{i64_text, lemma_i64_text_parses};
use crate::cache_manager::{
    access, access_fault, lemma_occurrences_skip_le, last_accessed, log_keys, occurrences, trimmed, valid,
    CacheModel, lemma_trim_valid, trim_fault,
};
use crate::error::ErrorKind;
use crate::requests::{
    cache_get, in_turn, none_text, Sub, ok_text, out_of_range_text, run, run_ops, Flow, ReplyModel, World,
};
use crate::storage_manager::{
    apply_change, apply_changes, effective_changes, store_get, store_valid, takes_effect,
    version_at, StoreChange, StoreModel,
};
use crate::utils::commands::CommandModel;
use crate::common::commands::key_of;
use crate::command_processor::{process_spec, PFlow, RpcModel};
use crate::distributor::route_port;
use crate::http::{blank_line_at, body_of, next_blank_line};
use crate::parsing::{
    after_first, first_word, is_ws, lemma_next_char_bounds, lemma_next_non_ws_bounds,
    lemma_next_ws_bounds, lowers_to, next_char, next_non_ws, next_ws, second_piece, word_is,
};

verus! {

/// Reading a key right after storing a value under it gives that value;
/// every other key reads as before.
pub proof fn law_get_after_insert(s: StoreModel, k: Seq<char>, v: Seq<char>)
    ensures
        store_get(apply_change(s, StoreChange::Insert(k, v)), k) == Some(v),
        forall|other: Seq<char>|
            other != k ==> #[trigger] store_get(apply_change(s, StoreChange::Insert(k, v)), other)
                == store_get(s, other),
{
}

/// After a key is deleted, reading it finds nothing; every other key reads
/// as before.
pub proof fn law_get_after_delete(s: StoreModel, k: Seq<char>)
    ensures
        store_get(apply_change(s, StoreChange::Delete(k)), k) is None,
        forall|other: Seq<char>|
            other != k ==> #[trigger] store_get(apply_change(s, StoreChange::Delete(k)), other)
                == store_get(s, other),
{
}

/// Version 0 is the current state: rolling back by 0 reads as a get.
pub proof fn law_version_zero_is_current(s: StoreModel)
    requires
        store_valid(s),
    ensures
        forall|k: Seq<char>| #[trigger] version_at(s, k, 0) == store_get(s, k),
{
}

/// A change that takes effect keeps every version: what version `n` was
/// before, version `n + 1` is after. One that does not take effect (the
/// delete of a key not stored) changes nothing.
pub proof fn law_versions_shift(s: StoreModel, c: StoreChange)
    ensures
        takes_effect(s, c) ==> forall|k: Seq<char>, n: int|
            0 <= n ==> #[trigger] version_at(apply_change(s, c), k, n + 1) == version_at(s, k, n),
        !takes_effect(s, c) ==> apply_change(s, c) == s,
{
    if takes_effect(s, c) {
        let s2 = apply_change(s, c);
        assert forall|k: Seq<char>, n: int| 0 <= n implies #[trigger] version_at(s2, k, n + 1)
            == version_at(s, k, n) by {
            if n < s.history.len() {
                assert(s2.history[s2.history.len() - 1 - (n + 1)] == s.history[s.history.len() - 1 - n]);
            }
        }
    }
}

/// Every change keeps the store consistent, and the number of versions is
/// the number at the start plus the number of changes that took effect.
pub proof fn law_version_count(s: StoreModel, cs: Seq<StoreChange>)
    requires
        store_valid(s),
    ensures
        store_valid(apply_changes(s, cs)),
        apply_changes(s, cs).history.len() == s.history.len() + effective_changes(s, cs),
    decreases cs.len(),
{
    if cs.len() > 0 {
        law_version_count(s, cs.drop_last());
    }
}

proof fn lemma_run_ops_error_restores(
    w: World,
    ops: Seq<CommandModel>,
    i: int,
    replies: Seq<ReplyModel>,
    pos: int,
    start: Map<Seq<char>, Seq<char>>,
    acc: Seq<char>,
)
    ensures
        run_ops(w, ops, i, replies, pos, start, acc) matches Flow::Finished(w2, _, Err(_)) ==> {
            &&& w2.store.map == start
            &&& w2.store.history == seq![start]
            &&& w2.cache.counts == Map::<Seq<char>, u64>::empty()
            &&& w2.cache.log == Seq::<(u64, Seq<char>)>::empty()
        },
    decreases ops.len() - i,
{
    if 0 <= i < ops.len() {
        match run(w, ops[i], replies, pos) {
            Flow::Finished(w1, p1, Ok(v)) => {
                lemma_run_ops_error_restores(w1, ops, i + 1, replies, p1, start, acc + v + seq!['\n']);
            },
            _ => {},
        }
    }
}

/// A transaction that fails leaves the store as it was when the transaction
/// began (with that state as its only version) and the cache bookkeeping
/// emptied.
pub proof fn law_failed_transaction_rolls_back(
    w: World,
    ops: Seq<CommandModel>,
    replies: Seq<ReplyModel>,
    pos: int,
)
    ensures
        run(w, CommandModel::Transact(ops), replies, pos) matches Flow::Finished(w2, _, Err(_))
            ==> {
            &&& w2.store.map == w.store.map
            &&& w2.store.history == seq![w.store.map]
            &&& w2.cache.counts == Map::<Seq<char>, u64>::empty()
            &&& w2.cache.log == Seq::<(u64, Seq<char>)>::empty()
        },
{
    lemma_run_ops_error_restores(w, ops, 0, replies, pos, w.store.map, Seq::empty());
}

/// Incrementing a stored number by `d` stores the sum where it is an
/// `i64`, and answers "OK" without memcached; where the sum is not an
/// `i64`, it answers an error and changes nothing.
pub proof fn law_incr_adds(
    w: World,
    k: Seq<char>,
    x: i64,
    d: u64,
    replies: Seq<ReplyModel>,
    pos: int,
)
    requires
        w.store.map.contains_key(k),
        w.store.map[k] == i64_text(x),
    ensures
        x + d <= i64::MAX ==> (run(w, CommandModel::Incr(k, d), replies, pos) matches Flow::Finished(w2, _, a) ==> {
            &&& w2.store == apply_change(w.store, StoreChange::Insert(k, i64_text((x + d) as i64)))
            &&& !w.cache.connected ==> a == Ok::<Seq<char>, (ErrorKind, Seq<char>)>(ok_text())
        }),
        x + d > i64::MAX ==> run(w, CommandModel::Incr(k, d), replies, pos) == Flow::Finished(
            w,
            pos,
            Err((ErrorKind::InvalidInput, out_of_range_text())),
        ),
{
    lemma_i64_text_parses(x);
}

/// Decrementing a stored number by `d` stores the difference where it is
/// an `i64` (by 0, the number stays), and answers "OK" without memcached;
/// where the difference is not an `i64`, it answers an error and changes
/// nothing.
pub proof fn law_decr_subtracts(
    w: World,
    k: Seq<char>,
    x: i64,
    d: u64,
    replies: Seq<ReplyModel>,
    pos: int,
)
    requires
        w.store.map.contains_key(k),
        w.store.map[k] == i64_text(x),
    ensures
        x - d >= i64::MIN ==> (run(w, CommandModel::Decr(k, d), replies, pos) matches Flow::Finished(w2, _, a) ==> {
            &&& w2.store == apply_change(w.store, StoreChange::Insert(k, i64_text((x - d) as i64)))
            &&& !w.cache.connected ==> a == Ok::<Seq<char>, (ErrorKind, Seq<char>)>(ok_text())
        }),
        x - d < i64::MIN ==> run(w, CommandModel::Decr(k, d), replies, pos) == Flow::Finished(
            w,
            pos,
            Err((ErrorKind::InvalidInput, out_of_range_text())),
        ),
{
    lemma_i64_text_parses(x);
}

/// Setting a value answers "OK" and stores it, whether or not memcached is
/// there; only the cache bookkeeping's clock passing its maximum keeps it
/// from finishing.
pub proof fn law_set_answers_ok(w: World, k: Seq<char>, v: Seq<char>, replies: Seq<ReplyModel>, pos: int)
    ensures
        run(w, CommandModel::SetValue(k, v), replies, pos) matches Flow::Finished(w2, _, a) ==> {
            &&& a == Ok::<Seq<char>, (ErrorKind, Seq<char>)>(ok_text())
            &&& w2.store == apply_change(w.store, StoreChange::Insert(k, v))
        },
        !access_fault(w.cache) && !trim_fault(access(w.cache, k)) ==> !(run(
            w,
            CommandModel::SetValue(k, v),
            replies,
            pos,
        ) is Fault),
{
}

/// Unless memcached answers a value for the key, a get answers the value
/// stored under it, or "None" where there is none; without memcached it
/// always finishes so.
pub proof fn law_get_reads_store(w: World, k: Seq<char>, replies: Seq<ReplyModel>, pos: int)
    requires
        0 <= pos,
        !(pos < replies.len() && replies[pos] matches Ok(Some(_))),
    ensures
        run(w, CommandModel::Get(k), replies, pos) matches Flow::Finished(_, _, a) ==> a == Ok::<
            Seq<char>,
            (ErrorKind, Seq<char>),
        >(
            match store_get(w.store, k) {
                Some(v) => v,
                None => none_text(),
            },
        ),
        !w.cache.connected ==> run(w, CommandModel::Get(k), replies, pos) is Finished,
{
    let w1 = World { cache: access(w.cache, k), ..w };
    assert(w1.store == w.store);
    if !access_fault(w.cache) && w1.cache.connected && 0 <= pos < replies.len() {
        assert(cache_get(w, k, replies, pos) == Sub::Got(w1, pos + 1, replies[pos]));
        assert(!(replies[pos] matches Ok(Some(_))));
    }
}

proof fn lemma_run_ops_in_turn(
    w: World,
    ops: Seq<CommandModel>,
    i: int,
    replies: Seq<ReplyModel>,
    pos: int,
    start: Map<Seq<char>, Seq<char>>,
    acc: Seq<char>,
)
    requires
        0 <= i <= ops.len(),
    ensures
        in_turn(w, ops.skip(i), replies, pos) matches Flow::Finished(w2, p2, Ok(r))
            ==> run_ops(w, ops, i, replies, pos, start, acc) == Flow::Finished(w2, p2, Ok(acc + r)),
        in_turn(w, ops.skip(i), replies, pos) is Need ==> run_ops(w, ops, i, replies, pos, start, acc)
            == in_turn(w, ops.skip(i), replies, pos),
        in_turn(w, ops.skip(i), replies, pos) is Fault ==> run_ops(w, ops, i, replies, pos, start, acc)
            is Fault,
    decreases ops.len() - i,
{
    if i < ops.len() {
        assert(ops.skip(i)[0] == ops[i]);
        assert(ops.skip(i).drop_first() =~= ops.skip(i + 1));
        match run(w, ops[i], replies, pos) {
            Flow::Finished(w1, p1, Ok(v)) => {
                let acc1 = acc + v + seq!['\n'];
                lemma_run_ops_in_turn(w1, ops, i + 1, replies, p1, start, acc1);
                if let Flow::Finished(w2, p2, Ok(r)) = in_turn(w1, ops.skip(i + 1), replies, p1) {
                    assert(acc1 + r =~= acc + (v + seq!['\n'] + r));
                }
            },
            _ => {},
        }
    } else {
        assert(ops.skip(i) =~= Seq::<CommandModel>::empty());
        assert(acc + Seq::<char>::empty() =~= acc);
    }
}

/// A transaction whose operations all answer, run one after another,
/// answers their answers joined, each followed by a line feed, and ends
/// where they end; where one of them waits for memcached or cannot be
/// carried out, so does the transaction. An empty one answers "".
pub proof fn law_transaction_runs_in_turn(w: World, ops: Seq<CommandModel>, replies: Seq<ReplyModel>, pos: int)
    ensures
        in_turn(w, ops, replies, pos) matches Flow::Finished(w2, p2, Ok(r)) ==> run(
            w,
            CommandModel::Transact(ops),
            replies,
            pos,
        ) == Flow::Finished(w2, p2, Ok::<Seq<char>, (ErrorKind, Seq<char>)>(r)),
        in_turn(w, ops, replies, pos) is Need ==> run(w, CommandModel::Transact(ops), replies, pos)
            == in_turn(w, ops, replies, pos),
        in_turn(w, ops, replies, pos) is Fault ==> run(w, CommandModel::Transact(ops), replies, pos)
            is Fault,
        ops.len() == 0 ==> run(w, CommandModel::Transact(ops), replies, pos) == Flow::Finished(
            w,
            pos,
            Ok::<Seq<char>, (ErrorKind, Seq<char>)>(Seq::empty()),
        ),
{
    assert(ops.skip(0) =~= ops);
    lemma_run_ops_in_turn(w, ops, 0, replies, pos, w.store.map, Seq::empty());
    if let Flow::Finished(w2, p2, Ok(r)) = in_turn(w, ops, replies, pos) {
        assert(Seq::<char>::empty() + r =~= r);
    }
}

/// Without memcached, reading a key after setting it gives the value set.
pub proof fn law_get_after_set_offline(
    w: World,
    k: Seq<char>,
    v: Seq<char>,
    replies: Seq<ReplyModel>,
    pos: int,
)
    requires
        !w.cache.connected,
    ensures
        run(w, CommandModel::SetValue(k, v), replies, pos) is Finished,
        run(w, CommandModel::SetValue(k, v), replies, pos) matches Flow::Finished(w1, p1, _) ==> (run(
            w1,
            CommandModel::Get(k),
            replies,
            p1,
        ) matches Flow::Finished(_, _, Ok(got)) && got == v),
{
    if let Flow::Finished(w1, p1, _) = run(w, CommandModel::SetValue(k, v), replies, pos) {
        assert(w1.store.map.contains_key(k) && w1.store.map[k] == v);
        assert(World { cache: crate::cache_manager::access(w1.cache, k), ..w1 } =~= w1);
    }
}

proof fn lemma_last_accessed_gone(keys: Seq<Seq<char>>, n: int, h: int)
    requires
        0 <= n <= h <= keys.len(),
    ensures
        forall|k: Seq<char>| #[trigger] last_accessed(keys, n).contains(k) ==> occurrences(keys.skip(h), k) == 0,
    decreases n,
{
    if n > 0 {
        lemma_last_accessed_gone(keys, n - 1, h);
        let prev = last_accessed(keys, n - 1);
        let x = keys[n - 1];
        lemma_occurrences_skip_le(keys, n, h, x);
        assert forall|k: Seq<char>| #[trigger] last_accessed(keys, n).contains(k) implies occurrences(keys.skip(h), k) == 0 by {
            if occurrences(keys.skip(n), x) == 0 && k != x {
                let j = choose|j: int| 0 <= j < prev.push(x).len() && prev.push(x)[j] == k;
                assert(prev[j] == k);
                assert(prev.contains(k));
            }
        }
    }
}

/// Trimming consistent bookkeeping keeps it consistent (where the clock
/// does not pass its maximum), never starts counting a key, and no key it
/// gives up to delete from memcached is still counted.
pub proof fn law_trim_forgets_evicted(c: CacheModel)
    requires
        valid(c),
    ensures
        !trim_fault(c) ==> valid(trimmed(c).0),
        trimmed(c).0.counts.dom().subset_of(c.counts.dom()),
        forall|k: Seq<char>| #[trigger] trimmed(c).1.contains(k) ==> !trimmed(c).0.counts.contains_key(k),
{
    if !trim_fault(c) {
        lemma_trim_valid(c);
    }
    if c.log.len() >= c.limit {
        let half = (c.limit / 2) as int;
        let keys = log_keys(c.log);
        lemma_last_accessed_gone(keys, half, half);
        assert(log_keys(c.log.skip(half)) =~= keys.skip(half));
        assert(keys.skip(0) =~= keys);
        assert forall|k: Seq<char>| trimmed(c).0.counts.contains_key(k) implies c.counts.contains_key(k) by {
            lemma_occurrences_skip_le(keys, 0, half, k);
        }
    }
}

/// Clearing empties the store and records the empty state as a new
/// version, and answers "OK", whether or not memcached is there and
/// whatever it answers.
pub proof fn law_clear_empties_the_store(w: World, replies: Seq<ReplyModel>, pos: int)
    ensures
        run(w, CommandModel::Clear, replies, pos) matches Flow::Finished(w2, _, a) ==> {
            &&& w2.store.map == Map::<Seq<char>, Seq<char>>::empty()
            &&& w2.store.history == w.store.history.push(Map::<Seq<char>, Seq<char>>::empty())
            &&& a == Ok::<Seq<char>, (ErrorKind, Seq<char>)>(ok_text())
        },
        !w.cache.connected ==> run(w, CommandModel::Clear, replies, pos) is Finished,
{
}

/// `kw`, a space, then `k`: the first word is `kw` and what follows the
/// first space is `k`.
proof fn lemma_keyword_then(kw: Seq<char>, k: Seq<char>)
    requires
        kw.len() > 0,
        forall|i: int| 0 <= i < kw.len() ==> !is_ws(#[trigger] kw[i]) && kw[i] != ' ',
    ensures
        first_word(kw + seq![' '] + k) == kw,
        after_first(kw + seq![' '] + k, ' ') == k,
        next_char(kw + seq![' '] + k, ' ', 0) == kw.len(),
{
    let s = kw + seq![' '] + k;
    assert(s[kw.len() as int] == ' ');
    assert forall|i: int| 0 <= i < kw.len() implies s[i] == kw[i] by {}
    lemma_next_non_ws_bounds(s, 0);
    lemma_next_ws_bounds(s, 0);
    lemma_next_char_bounds(s, ' ', 0);
    assert(!is_ws(s[0]));
    assert(next_non_ws(s, 0) == 0);
    let e = next_ws(s, 0);
    if e < kw.len() {
        assert(is_ws(s[e]));
    }
    assert(is_ws(s[kw.len() as int]));
    assert(e == kw.len());
    let c = next_char(s, ' ', 0);
    if c < kw.len() {
        assert(s[c] == ' ');
    }
    assert(c == kw.len());
    assert(first_word(s) =~= kw);
    assert(after_first(s, ' ') =~= k);
}

/// A request that starts `del ` deletes the whole rest of the text as its
/// key, the key that a request starting `get ` reads.
pub proof fn law_del_takes_the_rest_as_key(k: Seq<char>)
    ensures
        crate::utils::commands::model_of("del "@ + k) == CommandModel::Del(k),
        crate::utils::commands::model_of("get "@ + k) == CommandModel::Get(k),
        crate::common::commands::model_of("del "@ + k) == crate::common::commands::CommandModel::Del(k),
        crate::common::commands::model_of("get "@ + k) == crate::common::commands::CommandModel::Get(k),
{
    reveal_strlit("del ");
    reveal_strlit("get ");
    let del = seq!['d', 'e', 'l'];
    let get = seq!['g', 'e', 't'];
    assert("del "@ + k =~= del + seq![' '] + k);
    assert("get "@ + k =~= get + seq![' '] + k);
    lemma_keyword_then(del, k);
    lemma_keyword_then(get, k);
    assert(!word_is(del, get)) by {
        assert(!lowers_to(del[0], get[0]));
    }
    assert(!word_is(del, seq!['s', 'e', 't'])) by {
        assert(!lowers_to(del[0], 's'));
    }
    assert(word_is(del, del));
    assert(word_is(get, get));
}

/// Every command that names a key is routed by that key.
pub proof fn law_routing_key_is_the_named_key(k: Seq<char>, v: Seq<char>, n: i64, r: u64)
    ensures
        key_of(crate::common::commands::CommandModel::Get(k)) == k,
        key_of(crate::common::commands::CommandModel::SetValue(k, v)) == k,
        key_of(crate::common::commands::CommandModel::Del(k)) == k,
        key_of(crate::common::commands::CommandModel::Incr(k, n)) == k,
        key_of(crate::common::commands::CommandModel::Decr(k, n)) == k,
        key_of(crate::common::commands::CommandModel::Rollback(k, r)) == k,
{
}

/// A delete, a get and a set of one key (without spaces) are routed to the
/// same shard.
pub proof fn law_del_routes_with_set(num_shards: u32, offset: u32, k: Seq<char>, v: Seq<char>)
    requires
        forall|i: int| 0 <= i < k.len() ==> #[trigger] k[i] != ' ',
    ensures
        route_port(num_shards, offset, "del "@ + k) == route_port(num_shards, offset, "set "@ + k + " "@ + v),
        route_port(num_shards, offset, "get "@ + k) == route_port(num_shards, offset, "set "@ + k + " "@ + v),
{
    law_del_takes_the_rest_as_key(k);
    reveal_strlit("set ");
    reveal_strlit(" ");
    let set = seq!['s', 'e', 't'];
    let s = "set "@ + k + " "@ + v;
    assert(s =~= set + seq![' '] + (k + seq![' '] + v));
    lemma_keyword_then(set, k + seq![' '] + v);
    let t = k + seq![' '] + v;
    assert(s.subrange(4, 4 + k.len() as int) =~= k);
    assert(s[4 + k.len() as int] == ' ');
    lemma_next_char_bounds(s, ' ', 4);
    let j = next_char(s, ' ', 4);
    if j < 4 + k.len() {
        assert(s[j] == k[j - 4]);
    }
    assert(j == 4 + k.len());
    assert(second_piece(s) =~= k);
    assert(!word_is(set, seq!['g', 'e', 't'])) by {
        assert(!lowers_to(set[0], 'g'));
    }
    assert(word_is(set, set));
}

/// The first index at or after `from` that holds `c` is `e` where no `c`
/// comes before it and `e` is the end or holds `c`.
proof fn lemma_next_char_is(s: Seq<char>, c: char, from: int, e: int)
    requires
        0 <= from <= e <= s.len(),
        forall|i: int| from <= i < e ==> #[trigger] s[i] != c,
        e == s.len() || s[e] == c,
    ensures
        next_char(s, c, from) == e,
    decreases e - from,
{
    if from < e {
        lemma_next_char_is(s, c, from + 1, e);
    }
}

proof fn lemma_next_blank_line_is(s: Seq<char>, from: int, p: int)
    requires
        0 <= from <= p,
        blank_line_at(s, p),
        forall|i: int| from <= i < p ==> !#[trigger] blank_line_at(s, i),
    ensures
        next_blank_line(s, from) == p,
    decreases p - from,
{
    if from < p {
        lemma_next_blank_line_is(s, from + 1, p);
    }
}

/// The body of a request is everything after the first blank line, up to
/// the first NUL or the end: line feeds included.
pub proof fn law_body_is_the_rest(head: Seq<char>, body: Seq<char>, tail: Seq<char>)
    requires
        forall|i: int| 0 <= i < head.len() ==> !#[trigger] blank_line_at(head + "\r\n\r\n"@ + body + tail, i),
        forall|i: int| 0 <= i < head.len() ==> #[trigger] head[i] != '\0',
        forall|i: int| 0 <= i < body.len() ==> #[trigger] body[i] != '\0',
        tail.len() == 0 || tail[0] == '\0',
    ensures
        body_of(head + "\r\n\r\n"@ + body + tail) == Some(body),
{
    reveal_strlit("\r\n\r\n");
    let s = head + "\r\n\r\n"@ + body + tail;
    let p = head.len() as int;
    let e = p + 4 + body.len();
    assert(s[p] == '\r' && s[p + 1] == '\n' && s[p + 2] == '\r' && s[p + 3] == '\n');
    lemma_next_blank_line_is(s, 0, p);
    assert forall|i: int| 0 <= i < e implies #[trigger] s[i] != '\0' by {
        if i < p {
            assert(s[i] == head[i]);
        } else if i >= p + 4 {
            assert(s[i] == body[i - p - 4]);
        }
    }
    if tail.len() > 0 {
        assert(s[e] == tail[0]);
    }
    lemma_next_char_is(s, '\0', 0, e);
    assert(s.subrange(p + 4, e) =~= body);
}

/// Once the connection and the ping succeed, every command other than
/// `clear`, a transaction or an unknown one is sent to its shard, and the
/// shard's reply is the answer.
pub proof fn law_commands_go_to_their_shard(
    num_shards: u32,
    offset: u32,
    c: crate::common::commands::CommandModel,
    path: Seq<usize>,
    addr: Seq<char>,
    replies: Seq<Result<Seq<char>, Seq<char>>>,
    pos: int,
)
    requires
        !(c is Clear || c is Transact || c is Unknown),
        0 <= pos,
        pos + 2 <= replies.len(),
        replies[pos] is Ok,
        replies[pos + 1] is Ok,
    ensures
        pos + 2 == replies.len() ==> process_spec(num_shards, offset, c, path, addr, replies, pos)
            == PFlow::Need(RpcModel::Send(addr, path)),
        pos + 2 < replies.len() && replies[pos + 2] is Ok ==> process_spec(
            num_shards,
            offset,
            c,
            path,
            addr,
            replies,
            pos,
        ) == PFlow::Finished(pos + 3, replies[pos + 2]->Ok_0),
{
}

} // verus!
