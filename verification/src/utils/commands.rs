use vstd::prelude::*;
use crate::numbers::{parse_u64, parse_u64_spec};
use crate::parsing::{
    after_first, find_char, find_non_ws, find_ws, first_word, lemma_next_char_bounds,
    lemma_next_non_ws_bounds, lemma_next_ws_bounds, lemma_transaction_lines_len, rest_without_cr,
    second_piece, split_lines, third_piece, transaction_lines, word_eq, word_is,
};
use crate::text::{chars_of, string_of};

verus! {

/// A request to the store, as a client writes it.
#[derive(Debug, PartialEq, Eq)]
pub enum Command {
    Get(String),
    SetValue(String, String),
    Del(String),
    Incr(String, u64),
    Decr(String, u64),
    Transact(Vec<Command>),
    Rollback(String, u64),
    Clear(),
    Quit(),
    Help(),
    Unknown(String),
}

/// A command with its strings taken as character sequences.
pub enum CommandModel {
    Get(Seq<char>),
    SetValue(Seq<char>, Seq<char>),
    Del(Seq<char>),
    Incr(Seq<char>, u64),
    Decr(Seq<char>, u64),
    Transact(Seq<CommandModel>),
    Rollback(Seq<char>, u64),
    Clear,
    Quit,
    Help,
    Unknown(Seq<char>),
}

impl Command {
    pub open spec fn model(self) -> CommandModel
        decreases self,
    {
        match self {
            Command::Get(k) => CommandModel::Get(k@),
            Command::SetValue(k, v) => CommandModel::SetValue(k@, v@),
            Command::Del(k) => CommandModel::Del(k@),
            Command::Incr(k, n) => CommandModel::Incr(k@, n),
            Command::Decr(k, n) => CommandModel::Decr(k@, n),
            Command::Transact(ops) => CommandModel::Transact(
                Seq::new(
                    ops@.len(),
                    |i: int|
                        if 0 <= i < ops@.len() {
                            ops@[i].model()
                        } else {
                            CommandModel::Clear
                        },
                ),
            ),
            Command::Rollback(k, n) => CommandModel::Rollback(k@, n),
            Command::Clear() => CommandModel::Clear,
            Command::Quit() => CommandModel::Quit,
            Command::Help() => CommandModel::Help,
            Command::Unknown(s) => CommandModel::Unknown(s@),
        }
    }
}

/// The command that a request text denotes.
pub open spec fn model_of(s: Seq<char>) -> CommandModel
    decreases s.len() + 1, 0nat,
{
    let w = first_word(s);
    if word_is(w, seq!['g', 'e', 't']) {
        CommandModel::Get(after_first(s, ' '))
    } else if word_is(w, seq!['s', 'e', 't']) {
        CommandModel::SetValue(second_piece(s), third_piece(s))
    } else if word_is(w, seq!['d', 'e', 'l']) {
        CommandModel::Del(after_first(s, ' '))
    } else if word_is(w, seq!['i', 'n', 'c', 'r']) {
        CommandModel::Incr(second_piece(s), parse_u64_spec(third_piece(s))->0)
    } else if word_is(w, seq!['d', 'e', 'c', 'r']) {
        CommandModel::Decr(second_piece(s), parse_u64_spec(third_piece(s))->0)
    } else if word_is(w, seq!['q', 'u', 'i', 't']) {
        CommandModel::Quit
    } else if word_is(w, seq!['t', 'r', 'a', 'n', 's', 'a', 'c', 't', ':']) {
        CommandModel::Transact(models_of(transaction_lines(s), s.len()))
    } else if word_is(w, seq!['h', 'e', 'l', 'p']) {
        CommandModel::Help
    } else if word_is(w, seq!['r', 'o', 'l', 'l', 'b', 'a', 'c', 'k']) {
        CommandModel::Rollback(second_piece(s), parse_u64_spec(third_piece(s))->0)
    } else if word_is(w, seq!['c', 'l', 'e', 'a', 'r']) {
        CommandModel::Clear
    } else {
        CommandModel::Unknown(s)
    }
}

/// The commands that the lines of a transaction denote (each line is
/// shorter than the request `n` characters long that holds it).
pub open spec fn models_of(ls: Seq<Seq<char>>, n: nat) -> Seq<CommandModel>
    decreases n, ls.len(),
{
    if ls.len() == 0 {
        Seq::empty()
    } else {
        let head = if ls[0].len() < n {
            model_of(ls[0])
        } else {
            CommandModel::Unknown(ls[0])
        };
        seq![head] + models_of(ls.skip(1), n)
    }
}

/// The request text can be read without failing: every number that it
/// names (an amount or a version) is a valid `u64`, in every line of a
/// transaction too.
pub open spec fn parses(s: Seq<char>) -> bool
    decreases s.len() + 1, 0nat,
{
    let w = first_word(s);
    if word_is(w, seq!['i', 'n', 'c', 'r']) || word_is(w, seq!['d', 'e', 'c', 'r']) || word_is(
        w,
        seq!['r', 'o', 'l', 'l', 'b', 'a', 'c', 'k'],
    ) {
        parse_u64_spec(third_piece(s)) is Some
    } else if word_is(w, seq!['t', 'r', 'a', 'n', 's', 'a', 'c', 't', ':']) {
        all_parse(transaction_lines(s), s.len())
    } else {
        true
    }
}

pub open spec fn all_parse(ls: Seq<Seq<char>>, n: nat) -> bool
    decreases n, ls.len(),
{
    if ls.len() == 0 {
        true
    } else {
        (ls[0].len() < n ==> parses(ls[0])) && all_parse(ls.skip(1), n)
    }
}

pub proof fn lemma_models_of(ls: Seq<Seq<char>>, n: nat)
    ensures
        models_of(ls, n).len() == ls.len(),
        forall|i: int|
            0 <= i < ls.len() && ls[i].len() < n ==> #[trigger] models_of(ls, n)[i] == model_of(
                ls[i],
            ),
    decreases ls.len(),
{
    if ls.len() > 0 {
        lemma_models_of(ls.skip(1), n);
        assert forall|i: int| 0 <= i < ls.len() && ls[i].len() < n implies #[trigger] models_of(
            ls,
            n,
        )[i] == model_of(ls[i]) by {
            if i > 0 {
                assert(ls.skip(1)[i - 1] == ls[i]);
            }
        }
    }
}

pub proof fn lemma_all_parse(ls: Seq<Seq<char>>, n: nat)
    ensures
        all_parse(ls, n) <==> forall|i: int| 0 <= i < ls.len() && ls[i].len() < n ==> parses(#[trigger] ls[i]),
    decreases ls.len(),
{
    if ls.len() > 0 {
        lemma_all_parse(ls.skip(1), n);
        if forall|i: int| 0 <= i < ls.len() && ls[i].len() < n ==> parses(#[trigger] ls[i]) {
            assert forall|i: int| 0 <= i < ls.skip(1).len() && ls.skip(1)[i].len() < n implies parses(
                #[trigger] ls.skip(1)[i],
            ) by {
                assert(ls.skip(1)[i] == ls[i + 1]);
            }
        }
        if all_parse(ls, n) {
            assert forall|i: int| 0 <= i < ls.len() && ls[i].len() < n implies parses(
                #[trigger] ls[i],
            ) by {
                if i > 0 {
                    assert(ls.skip(1)[i - 1] == ls[i]);
                }
            }
        }
    }
}

/// The text after the first space, as a string.
fn rest_after_space(v: &Vec<char>) -> (r: String)
    ensures
        r@ == after_first(v@, ' '),
{
    let i = find_char(v, ' ', 0);
    proof { lemma_next_char_bounds(v@, ' ', 0); }
    if i < v.len() {
        let r = string_of(v, i + 1, v.len());
        assert(r@ =~= after_first(v@, ' '));
        r
    } else {
        let r = String::new();
        assert(r@ =~= after_first(v@, ' '));
        r
    }
}

/// The second and third pieces of the text split at spaces into at most
/// three, each given as a range of positions.
fn pieces(v: &Vec<char>) -> (r: ((usize, usize), (usize, usize)))
    ensures
        r.0.0 <= r.0.1 <= v@.len(),
        r.1.0 <= r.1.1 <= v@.len(),
        v@.subrange(r.0.0 as int, r.0.1 as int) == second_piece(v@),
        v@.subrange(r.1.0 as int, r.1.1 as int) == third_piece(v@),
{
    let n = v.len();
    let i = find_char(v, ' ', 0);
    proof { lemma_next_char_bounds(v@, ' ', 0); }
    if i >= n {
        assert(v@.subrange(n as int, n as int) =~= second_piece(v@));
        assert(v@.subrange(n as int, n as int) =~= third_piece(v@));
        return ((n, n), (n, n));
    }
    let j = find_char(v, ' ', i + 1);
    proof { lemma_next_char_bounds(v@, ' ', i + 1); }
    if j >= n {
        assert(v@.subrange(n as int, n as int) =~= third_piece(v@));
        ((i + 1, j), (n, n))
    } else {
        assert(v@.subrange(j + 1, n as int) =~= third_piece(v@));
        ((i + 1, j), (j + 1, n))
    }
}

impl Command {
    /// Reads a command from the text of a request.
    ///
    /// The first white-space separated word, in any case, names the
    /// command; `get` and `del` take the rest of the text after the first
    /// space as the key; `set`, `incr`, `decr` and `rollback` take the
    /// second and third space-separated pieces; `transact:` reads one
    /// command from each line after the first; any other word gives
    /// `Unknown` with the whole text.
    pub fn new(s: &str) -> (c: Command)
        requires
            parses(s@),
        ensures
            c.model() == model_of(s@),
    {
        match Self::try_new(s) {
            Some(c) => c,
            None => Command::Unknown(String::new()),
        }
    }

    /// Reads a command as `new` does; `None` when the text names an amount
    /// or a version that is not a valid number, where `new` cannot read it.
    pub fn try_new(s: &str) -> (r: Option<Command>)
        ensures
            r is Some <==> parses(s@),
            r matches Some(c) ==> c.model() == model_of(s@),
    {
        let v = chars_of(s);
        Self::from_chars(&v)
    }

    fn from_chars(v: &Vec<char>) -> (r: Option<Command>)
        ensures
            r is Some <==> parses(v@),
            r matches Some(c) ==> c.model() == model_of(v@),
        decreases v@.len(),
    {
        let a = find_non_ws(v, 0);
        proof { lemma_next_non_ws_bounds(v@, 0); }
        let b = find_ws(v, a);
        proof { lemma_next_ws_bounds(v@, a as int); }
        let ghost w = first_word(v@);
        assert(w == v@.subrange(a as int, b as int));
        if word_eq(v, a, b, &vec!['g', 'e', 't']) {
            Some(Command::Get(rest_after_space(v)))
        } else if word_eq(v, a, b, &vec!['s', 'e', 't']) {
            let (p2, p3) = pieces(v);
            Some(Command::SetValue(string_of(v, p2.0, p2.1), string_of(v, p3.0, p3.1)))
        } else if word_eq(v, a, b, &vec!['d', 'e', 'l']) {
            Some(Command::Del(rest_after_space(v)))
        } else if word_eq(v, a, b, &vec!['i', 'n', 'c', 'r']) {
            let (p2, p3) = pieces(v);
            let n = match parse_u64(v, p3.0, p3.1) {
                Some(n) => n,
                None => {
                    return None;
                },
            };
            Some(Command::Incr(string_of(v, p2.0, p2.1), n))
        } else if word_eq(v, a, b, &vec!['d', 'e', 'c', 'r']) {
            let (p2, p3) = pieces(v);
            let n = match parse_u64(v, p3.0, p3.1) {
                Some(n) => n,
                None => {
                    return None;
                },
            };
            Some(Command::Decr(string_of(v, p2.0, p2.1), n))
        } else if word_eq(v, a, b, &vec!['q', 'u', 'i', 't']) {
            Some(Command::Quit())
        } else if word_eq(v, a, b, &vec!['t', 'r', 'a', 'n', 's', 'a', 'c', 't', ':']) {
            let k = rest_without_cr(v, '\n');
            let ls = split_lines(&k);
            proof {
                lemma_transaction_lines_len(v@);
                lemma_all_parse(transaction_lines(v@), v@.len());
                lemma_models_of(transaction_lines(v@), v@.len());
            }
            let ghost tl = transaction_lines(v@);
            assert(!word_is(w, seq!['r', 'o', 'l', 'l', 'b', 'a', 'c', 'k']));
            assert(parses(v@) == all_parse(tl, v@.len()));
            let mut ops: Vec<Command> = Vec::new();
            let mut i: usize = 0;
            while i < ls.len()
                invariant
                    tl == transaction_lines(v@),
                    parses(v@) == all_parse(tl, v@.len()),
                    ls@.len() == tl.len(),
                    forall|j: int| 0 <= j < ls@.len() ==> (#[trigger] ls@[j])@ == tl[j],
                    forall|j: int| 0 <= j < tl.len() ==> (#[trigger] tl[j]).len() < v@.len(),
                    all_parse(tl, v@.len()) <==> forall|j: int| 0 <= j < tl.len() && tl[j].len() < v@.len() ==> parses(
                        #[trigger] tl[j],
                    ),
                    forall|j: int| 0 <= j < i ==> parses(#[trigger] tl[j]),
                    i <= ls@.len(),
                    ops@.len() == i,
                    forall|j: int| 0 <= j < i ==> (#[trigger] ops@[j]).model() == model_of(tl[j]),
                decreases ls@.len() - i,
            {
                assert(ls@[i as int]@ == tl[i as int]);
                match Self::from_chars(&ls[i]) {
                    Some(op) => {
                        ops.push(op);
                    },
                    None => {
                        assert(!parses(tl[i as int]) && tl[i as int].len() < v@.len());
                        assert(!all_parse(tl, v@.len()));
                        return None;
                    },
                }
                i = i + 1;
            }
            let c = Command::Transact(ops);
            assert(c.model() == model_of(v@)) by {
                let ms = models_of(tl, v@.len());
                if let CommandModel::Transact(got) = c.model() {
                    assert(got =~= ms);
                }
            }
            Some(c)
        } else if word_eq(v, a, b, &vec!['h', 'e', 'l', 'p']) {
            Some(Command::Help())
        } else if word_eq(v, a, b, &vec!['r', 'o', 'l', 'l', 'b', 'a', 'c', 'k']) {
            let (p2, p3) = pieces(v);
            let n = match parse_u64(v, p3.0, p3.1) {
                Some(n) => n,
                None => {
                    return None;
                },
            };
            Some(Command::Rollback(string_of(v, p2.0, p2.1), n))
        } else if word_eq(v, a, b, &vec!['c', 'l', 'e', 'a', 'r']) {
            Some(Command::Clear())
        } else {
            let whole = string_of(v, 0, v.len());
            assert(whole@ =~= v@);
            Some(Command::Unknown(whole))
        }
    }
}

} // verus!
