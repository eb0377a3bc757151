use vstd::prelude::*;
use crate::common::commands::{Command, CommandModel, key_of};
use crate::distributor::{CommandDistributor, default_hash, shard_of};
use crate::numbers::{decimal, format_u64};
use crate::parsing::{find_char, lemma_next_char_bounds, next_char};
use crate::text::{chars_of, string_of};

verus! {

/// The replies of the shards, taken as values.
pub open spec fn rpc_replies(r: Seq<Result<String, String>>) -> Seq<Result<Seq<char>, Seq<char>>> {
    r.map_values(
        |x: Result<String, String>|
            match x {
                Ok(s) => Ok(s@),
                Err(e) => Err(e@),
            },
    )
}

/// A request to a shard that the shard manager needs answered.
#[derive(Debug, PartialEq, Eq)]
pub enum RpcCall {
    /// Open a connection to the shard at this address.
    Connect(String),
    /// Ping the shard at this address.
    Ping(String),
    /// Send to the shard at this address the command found at this path in
    /// the command being processed (the path lists the positions taken in
    /// nested transactions; empty for the command itself).
    Send(String, Vec<usize>),
}

pub enum RpcModel {
    Connect(Seq<char>),
    Ping(Seq<char>),
    Send(Seq<char>, Seq<usize>),
}

impl RpcCall {
    pub open spec fn model(&self) -> RpcModel {
        match self {
            RpcCall::Connect(a) => RpcModel::Connect(a@),
            RpcCall::Ping(a) => RpcModel::Ping(a@),
            RpcCall::Send(a, p) => RpcModel::Send(a@, p@),
        }
    }
}

/// What the shard manager does next with a command.
#[derive(Debug, PartialEq, Eq)]
pub enum Outcome {
    /// Make this request, append its answer (or its error's text) to the
    /// replies and process the command again.
    Call(RpcCall),
    /// The command is done; this is the answer for the client.
    Done(String),
    /// The command cannot be carried out: a shard failed where the shard
    /// manager cannot go on, an address cannot be made, or the shard
    /// arithmetic overflows.
    Abort,
}

/// Where processing got to with the replies at hand.
pub enum PFlow {
    Need(RpcModel),
    Fault,
    Finished(int, Seq<char>),
}

/// The number of bytes of `c` in UTF-8.
pub open spec fn utf8_len(c: char) -> int {
    if (c as u32) < 0x80 {
        1
    } else if (c as u32) < 0x800 {
        2
    } else if (c as u32) < 0x10000 {
        3
    } else {
        4
    }
}

/// The host part of a shard address such as `http://127.0.0.1:6080`: the
/// text between the first and the second colon, without its first two
/// bytes; `None` when there is no colon, or that text is shorter than two
/// bytes, or its second byte ends inside a character.
pub open spec fn host_of(addr: Seq<char>) -> Option<Seq<char>> {
    let i = next_char(addr, ':', 0);
    if i >= addr.len() {
        None
    } else {
        let piece = addr.subrange(i + 1, next_char(addr, ':', i + 1));
        if piece.len() >= 1 && utf8_len(piece[0]) == 2 {
            Some(piece.skip(1))
        } else if piece.len() >= 2 && utf8_len(piece[0]) == 1 && utf8_len(piece[1]) == 1 {
            Some(piece.skip(2))
        } else {
            None
        }
    }
}

/// The address of the shard on `host` listening on `port`.
pub open spec fn rpc_address(host: Seq<char>, port: nat) -> Seq<char> {
    "http://"@ + host + ":"@ + decimal(port)
}

/// The answer for a shard that cannot be reached.
pub open spec fn unavailable_text(addr: Seq<char>, e: Seq<char>) -> Seq<char> {
    "The client is unavailable at the moment: Failed to connect to client at "@ + addr + ": "@ + e
}

/// The next reply, if there is one.
pub open spec fn reply_at(replies: Seq<Result<Seq<char>, Seq<char>>>, pos: int) -> Option<Result<Seq<char>, Seq<char>>> {
    if 0 <= pos < replies.len() {
        Some(replies[pos])
    } else {
        None
    }
}

/// The port of the shard that serves `c`.
pub open spec fn port_of(num_shards: u32, offset: u32, c: CommandModel) -> int {
    offset + shard_of(default_hash(key_of(c)), num_shards)
}

/// Every operation of a transaction can be given a shard address.
pub open spec fn routable(num_shards: u32, offset: u32, host: Option<Seq<char>>, ops: Seq<CommandModel>) -> bool {
    ops.len() == 0 || (host is Some && num_shards > 0 && forall|i: int|
        0 <= i < ops.len() ==> port_of(num_shards, offset, #[trigger] ops[i]) <= u32::MAX)
}

/// Processes `c`, sent to the shard at `addr`, taking the answers of the
/// shards from `replies` from `pos` on.
pub open spec fn process_spec(
    num_shards: u32,
    offset: u32,
    c: CommandModel,
    path: Seq<usize>,
    addr: Seq<char>,
    replies: Seq<Result<Seq<char>, Seq<char>>>,
    pos: int,
) -> PFlow
    decreases c, 0int,
{
    match reply_at(replies, pos) {
        None => PFlow::Need(RpcModel::Connect(addr)),
        Some(Err(e)) => PFlow::Finished(pos + 1, unavailable_text(addr, e)),
        Some(Ok(_)) => match reply_at(replies, pos + 1) {
            None => PFlow::Need(RpcModel::Ping(addr)),
            Some(Err(_)) => PFlow::Fault,
            Some(Ok(_)) => {
                let p = pos + 2;
                match c {
                    CommandModel::Clear => if offset + num_shards > u32::MAX {
                        PFlow::Fault
                    } else if num_shards == 0 {
                        PFlow::Finished(p, "OK"@)
                    } else {
                        match host_of(addr) {
                            None => PFlow::Fault,
                            Some(h) => clear_loop(num_shards, offset, h, path, 0, replies, p),
                        }
                    },
                    CommandModel::Transact(ops) => if !routable(num_shards, offset, host_of(addr), ops) {
                        PFlow::Fault
                    } else {
                        ops_loop(num_shards, offset, host_of(addr)->0, ops, path, 0, replies, p, Seq::empty())
                    },
                    CommandModel::Unknown(_) => PFlow::Finished(p, "Unknown command"@),
                    _ => match reply_at(replies, p) {
                        None => PFlow::Need(RpcModel::Send(addr, path)),
                        Some(Err(_)) => PFlow::Fault,
                        Some(Ok(r)) => PFlow::Finished(p + 1, r),
                    },
                }
            },
        },
    }
}

/// Sends the command to every shard from the `k`-th on.
pub open spec fn clear_loop(
    num_shards: u32,
    offset: u32,
    host: Seq<char>,
    path: Seq<usize>,
    k: int,
    replies: Seq<Result<Seq<char>, Seq<char>>>,
    pos: int,
) -> PFlow
    decreases num_shards - k,
{
    if k < 0 || k >= num_shards {
        PFlow::Finished(pos, "OK"@)
    } else {
        let a = rpc_address(host, (offset + k) as nat);
        match reply_at(replies, pos) {
            None => PFlow::Need(RpcModel::Connect(a)),
            Some(Err(_)) => PFlow::Fault,
            Some(Ok(_)) => match reply_at(replies, pos + 1) {
                None => PFlow::Need(RpcModel::Send(a, path)),
                Some(Err(_)) => PFlow::Fault,
                Some(Ok(_)) => clear_loop(num_shards, offset, host, path, k + 1, replies, pos + 2),
            },
        }
    }
}

/// Processes the operations of a transaction from the `i`-th on, each at
/// the shard that serves its key, collecting each answer followed by a line
/// feed.
pub open spec fn ops_loop(
    num_shards: u32,
    offset: u32,
    host: Seq<char>,
    ops: Seq<CommandModel>,
    path: Seq<usize>,
    i: int,
    replies: Seq<Result<Seq<char>, Seq<char>>>,
    pos: int,
    acc: Seq<char>,
) -> PFlow
    decreases ops, ops.len() - i,
{
    if i < 0 || i >= ops.len() {
        PFlow::Finished(pos, acc)
    } else {
        let a = rpc_address(host, port_of(num_shards, offset, ops[i]) as nat);
        match process_spec(num_shards, offset, ops[i], path.push(i as usize), a, replies, pos) {
            PFlow::Need(call) => PFlow::Need(call),
            PFlow::Fault => PFlow::Fault,
            PFlow::Finished(p1, r) => ops_loop(
                num_shards,
                offset,
                host,
                ops,
                path,
                i + 1,
                replies,
                p1,
                acc + r + seq!['\n'],
            ),
        }
    }
}

enum PExec {
    Need(RpcCall),
    Fault,
    Finished(usize, String),
}

spec fn pexec_agrees(x: PExec, f: PFlow) -> bool {
    match (x, f) {
        (PExec::Need(c), PFlow::Need(m)) => c.model() == m,
        (PExec::Fault, PFlow::Fault) => true,
        (PExec::Finished(p, s), PFlow::Finished(p2, s2)) => p == p2 && s@ == s2,
        _ => false,
    }
}

fn reply(replies: &Vec<Result<String, String>>, pos: usize) -> (r: Option<Result<String, String>>)
    ensures
        r is Some <==> pos < replies@.len(),
        match (r, reply_at(rpc_replies(replies@), pos as int)) {
            (None, None) => true,
            (Some(Ok(a)), Some(Ok(b))) => a@ == b,
            (Some(Err(a)), Some(Err(b))) => a@ == b,
            _ => false,
        },
{
    if pos < replies.len() {
        assert(rpc_replies(replies@)[pos as int] == match replies@[pos as int] {
            Ok(s) => Ok::<Seq<char>, Seq<char>>(s@),
            Err(e) => Err::<Seq<char>, Seq<char>>(e@),
        });
        match &replies[pos] {
            Ok(t) => Some(Ok(t.clone())),
            Err(e) => Some(Err(e.clone())),
        }
    } else {
        None
    }
}

fn host(addr: &String) -> (r: Option<String>)
    ensures
        match (r, host_of(addr@)) {
            (None, None) => true,
            (Some(a), Some(b)) => a@ == b,
            _ => false,
        },
{
    let v = chars_of(addr.as_str());
    let i = find_char(&v, ':', 0);
    proof { lemma_next_char_bounds(v@, ':', 0); }
    if i >= v.len() {
        return None;
    }
    let j = find_char(&v, ':', i + 1);
    proof { lemma_next_char_bounds(v@, ':', i + 1); }
    let ghost piece = v@.subrange(i + 1, j as int);
    if j - (i + 1) >= 1 && utf8_width(v[i + 1]) == 2 {
        let h = string_of(&v, i + 2, j);
        assert(h@ =~= piece.skip(1));
        Some(h)
    } else if j - (i + 1) >= 2 && utf8_width(v[i + 1]) == 1 && utf8_width(v[i + 2]) == 1 {
        let h = string_of(&v, i + 3, j);
        assert(h@ =~= piece.skip(2));
        Some(h)
    } else {
        None
    }
}

fn utf8_width(c: char) -> (n: u8)
    ensures
        n == utf8_len(c),
{
    let u = c as u32;
    if u < 0x80 {
        1
    } else if u < 0x800 {
        2
    } else if u < 0x10000 {
        3
    } else {
        4
    }
}

fn rpc_addr(host: &String, port: u32) -> (a: String)
    ensures
        a@ == rpc_address(host@, port as nat),
{
    let mut a = String::from_str("http://");
    a.append(host.as_str());
    a.append(":");
    let p = format_u64(port as u64);
    a.append(p.as_str());
    a
}

fn extended(path: &Vec<usize>, i: usize) -> (r: Vec<usize>)
    ensures
        r@ == path@.push(i),
{
    let mut r: Vec<usize> = Vec::new();
    let mut j: usize = 0;
    while j < path.len()
        invariant
            j <= path@.len(),
            r@ == path@.take(j as int),
        decreases path@.len() - j,
    {
        r.push(path[j]);
        assert(r@ =~= path@.take(j + 1));
        j = j + 1;
    }
    r.push(i);
    assert(r@ =~= path@.push(i));
    r
}

fn unavailable(addr: &String, e: &String) -> (s: String)
    ensures
        s@ == unavailable_text(addr@, e@),
{
    let mut s = String::from_str("The client is unavailable at the moment: Failed to connect to client at ");
    s.append(addr.as_str());
    s.append(": ");
    s.append(e.as_str());
    s
}

fn clear_all(
    d: &CommandDistributor,
    h: &String,
    path: &Vec<usize>,
    replies: &Vec<Result<String, String>>,
    pos: usize,
) -> (r: PExec)
    requires
        pos <= replies@.len(),
        d.offset + d.num_shards <= u32::MAX,
    ensures
        pexec_agrees(r, clear_loop(d.num_shards, d.offset, h@, path@, 0, rpc_replies(replies@), pos as int)),
        r matches PExec::Finished(p, _) ==> p <= replies@.len(),
{
    let ghost rs = rpc_replies(replies@);
    let n = replies.len();
    let mut k: u32 = 0;
    let mut p = pos;
    while k < d.num_shards
        invariant
            n == replies@.len(),
            rs == rpc_replies(replies@),
            rs.len() == replies@.len(),
            p <= replies@.len(),
            k <= d.num_shards,
            d.offset + d.num_shards <= u32::MAX,
            clear_loop(d.num_shards, d.offset, h@, path@, 0, rs, pos as int)
                == clear_loop(d.num_shards, d.offset, h@, path@, k as int, rs, p as int),
        decreases d.num_shards - k,
    {
        let a = rpc_addr(h, d.offset + k);
        let r1 = reply(replies, p);
        match r1 {
            None => {
                return PExec::Need(RpcCall::Connect(a));
            },
            Some(Err(_)) => {
                return PExec::Fault;
            },
            Some(Ok(_)) => {},
        }
        assert(p < replies@.len());
        let r2 = reply(replies, p + 1);
        match r2 {
            None => {
                return PExec::Need(RpcCall::Send(a, copied(path)));
            },
            Some(Err(_)) => {
                return PExec::Fault;
            },
            Some(Ok(_)) => {},
        }
        assert(p + 1 < replies@.len());
        p = p + 2;
        k = k + 1;
    }
    PExec::Finished(p, String::from_str("OK"))
}

fn copied(path: &Vec<usize>) -> (r: Vec<usize>)
    ensures
        r@ == path@,
{
    let mut r: Vec<usize> = Vec::new();
    let mut j: usize = 0;
    while j < path.len()
        invariant
            j <= path@.len(),
            r@ == path@.take(j as int),
        decreases path@.len() - j,
    {
        r.push(path[j]);
        assert(r@ =~= path@.take(j + 1));
        j = j + 1;
    }
    assert(r@ =~= path@);
    r
}

/// Whether every operation can be given a shard address, as the shard
/// manager computes them all before it sends any.
fn check_routable(d: &CommandDistributor, h: &Option<String>, ops: &Vec<Command>) -> (b: bool)
    ensures
        b == routable(
            d.num_shards,
            d.offset,
            match h {
                Some(x) => Some(x@),
                None => None,
            },
            Seq::new(ops@.len(), |i: int| ops@[i].model()),
        ),
{
    let ghost ms = Seq::new(ops@.len(), |i: int| ops@[i].model());
    if ops.len() == 0 {
        return true;
    }
    if h.is_none() || d.num_shards == 0 {
        return false;
    }
    let mut i: usize = 0;
    while i < ops.len()
        invariant
            d.num_shards > 0,
            ms == Seq::new(ops@.len(), |i: int| ops@[i].model()),
            i <= ops@.len(),
            forall|j: int| 0 <= j < i ==> port_of(d.num_shards, d.offset, #[trigger] ms[j]) <= u32::MAX,
        decreases ops@.len() - i,
    {
        let s = d.which(ops[i].get_key());
        if d.offset as u64 + s as u64 > u32::MAX as u64 {
            assert(port_of(d.num_shards, d.offset, ms[i as int]) > u32::MAX);
            return false;
        }
        i = i + 1;
    }
    true
}

fn process_exec(
    d: &CommandDistributor,
    c: &Command,
    path: &Vec<usize>,
    addr: &String,
    replies: &Vec<Result<String, String>>,
    pos: usize,
) -> (r: PExec)
    requires
        pos <= replies@.len(),
    ensures
        pexec_agrees(r, process_spec(d.num_shards, d.offset, c.model(), path@, addr@, rpc_replies(replies@), pos as int)),
        r matches PExec::Finished(p, _) ==> p <= replies@.len(),
    decreases c,
{
    let ghost rs = rpc_replies(replies@);
    let n = replies.len();
    let r1 = reply(replies, pos);
    match r1 {
        None => {
            return PExec::Need(RpcCall::Connect(addr.clone()));
        },
        Some(Err(e)) => {
            return PExec::Finished(pos + 1, unavailable(addr, &e));
        },
        Some(Ok(_)) => {},
    }
    let r2 = reply(replies, pos + 1);
    match r2 {
        None => {
            return PExec::Need(RpcCall::Ping(addr.clone()));
        },
        Some(Err(_)) => {
            return PExec::Fault;
        },
        Some(Ok(_)) => {},
    }
    let p = pos + 2;
    match c {
        Command::Clear() => {
            if d.offset as u64 + d.num_shards as u64 > u32::MAX as u64 {
                PExec::Fault
            } else if d.num_shards == 0 {
                PExec::Finished(p, String::from_str("OK"))
            } else {
                match host(addr) {
                    None => PExec::Fault,
                    Some(h) => clear_all(d, &h, path, replies, p),
                }
            }
        },
        Command::Transact(ops) => {
            let h = host(addr);
            let ghost ms = c.model()->Transact_0;
            assert(ms =~= Seq::new(ops@.len(), |i: int| ops@[i].model()));
            if !check_routable(d, &h, ops) {
                return PExec::Fault;
            }
            if ops.len() == 0 {
                return PExec::Finished(p, String::new());
            }
            let hs = match h {
                Some(x) => x,
                None => String::new(),
            };
            let mut acc = String::new();
            let mut q = p;
            let mut i: usize = 0;
            assert(acc@ =~= Seq::<char>::empty());
            while i < ops.len()
                invariant
                    ms == c.model()->Transact_0,
                    c.model() == CommandModel::Transact(ms),
                    *c == Command::Transact(*ops),
                    ms.len() == ops@.len(),
                    forall|j: int| 0 <= j < ops@.len() ==> ms[j] == (#[trigger] ops@[j]).model(),
                    routable(d.num_shards, d.offset, Some(hs@), ms),
                    ops@.len() > 0,
                    host_of(addr@) == Some(hs@),
                    rs == rpc_replies(replies@),
                    q <= replies@.len(),
                    i <= ops@.len(),
                    process_spec(d.num_shards, d.offset, c.model(), path@, addr@, rs, pos as int)
                        == ops_loop(d.num_shards, d.offset, hs@, ms, path@, i as int, rs, q as int, acc@),
                decreases ops@.len() - i,
            {
                let ghost acc0 = acc@;
                let ghost qi = q as int;
                assert(ms[i as int] == ops@[i as int].model());
                let s = d.which(ops[i].get_key());
                assert(port_of(d.num_shards, d.offset, ms[i as int]) <= u32::MAX);
                let a = rpc_addr(&hs, d.offset + s);
                let sub = extended(path, i);
                match process_exec(d, &ops[i], &sub, &a, replies, q) {
                    PExec::Need(call) => {
                        return PExec::Need(call);
                    },
                    PExec::Fault => {
                        return PExec::Fault;
                    },
                    PExec::Finished(q1, res) => {
                        acc.append(res.as_str());
                        acc.append("\n");
                        proof {
                            reveal_strlit("\n");
                        }
                        assert(acc@ =~= acc0 + res@ + seq!['\n']);
                        q = q1;
                        i = i + 1;
                    },
                }
            }
            PExec::Finished(q, acc)
        },
        Command::Unknown(_) => PExec::Finished(p, String::from_str("Unknown command")),
        _ => {
            let r3 = reply(replies, p);
            match r3 {
                None => PExec::Need(RpcCall::Send(addr.clone(), copied(path))),
                Some(Err(_)) => PExec::Fault,
                Some(Ok(t)) => PExec::Finished(p + 1, t),
            }
        },
    }
}

/// Carries out a command that the shard manager received, for the shard at
/// `addr`, with the shards' answers in `replies`.
///
/// The shard is first connected to (a failure is answered as unavailable)
/// and pinged; `clear` goes to every shard, a transaction sends each
/// operation to the shard that serves its key and answers each result on
/// its own line, an unknown command is answered as such, and any other
/// command is sent to the shard, whose answer is returned. When an answer
/// is missing from `replies`, the request is returned, for the caller to
/// make and to process the command again with the answer appended.
pub fn process_command(
    distributor: &CommandDistributor,
    cmd: &Command,
    addr: &str,
    replies: &Vec<Result<String, String>>,
) -> (o: Outcome)
    ensures
        match (o, process_spec(distributor.num_shards, distributor.offset, cmd.model(), Seq::empty(), addr@, rpc_replies(replies@), 0)) {
            (Outcome::Call(c), PFlow::Need(m)) => c.model() == m,
            (Outcome::Abort, PFlow::Fault) => true,
            (Outcome::Done(s), PFlow::Finished(_, t)) => s@ == t,
            _ => false,
        },
{
    let a = addr.to_owned();
    let path: Vec<usize> = Vec::new();
    assert(path@ =~= Seq::<usize>::empty());
    match process_exec(distributor, cmd, &path, &a, replies, 0) {
        PExec::Need(c) => Outcome::Call(c),
        PExec::Fault => Outcome::Abort,
        PExec::Finished(_, s) => Outcome::Done(s),
    }
}

} // verus!
