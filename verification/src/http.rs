use vstd::prelude::*;
use crate::parsing::{find_char, lemma_next_char_bounds, next_char};
use crate::text::{chars_of, string_of};
use crate::utils::commands::{Command, model_of, parses};

verus! {

/// The text that `String::from_utf8_lossy` makes of some bytes.
pub uninterp spec fn utf8_lossy(bytes: Seq<u8>) -> Seq<char>;

/// All bytes are ASCII.
pub open spec fn all_ascii(bytes: Seq<u8>) -> bool {
    forall|i: int| 0 <= i < bytes.len() ==> #[trigger] bytes[i] < 128
}

/// Decodes bytes as UTF-8 with `String::from_utf8_lossy`, which puts the
/// replacement character in place of each invalid sequence.
///
/// The contract names the result as a function of the bytes, and states the
/// one documented case that is short to state: ASCII bytes, being valid
/// UTF-8, come back as the same characters.
#[verifier::external_body]
pub(crate) fn decode_lossy(bytes: &[u8]) -> (s: String)
    ensures
        s@ == utf8_lossy(bytes@),
        all_ascii(bytes@) ==> s@ == bytes@.map_values(|b: u8| b as char),
{
    String::from_utf8_lossy(bytes).into_owned()
}

/// The blank line that ends the headers starts at `i`.
pub open spec fn blank_line_at(s: Seq<char>, i: int) -> bool {
    0 <= i && i + 4 <= s.len() && s[i] == '\r' && s[i + 1] == '\n' && s[i + 2] == '\r' && s[i
        + 3] == '\n'
}

/// The first index at or after `from` where a blank line starts, or the
/// length.
pub open spec fn next_blank_line(s: Seq<char>, from: int) -> int
    decreases s.len() - from,
{
    if from < 0 || from >= s.len() {
        s.len() as int
    } else if blank_line_at(s, from) {
        from
    } else {
        next_blank_line(s, from + 1)
    }
}

/// The body of a request: what lies between the blank line after the
/// headers and the first NUL character (or the end); empty without a blank
/// line; `None` when a NUL comes before the body starts.
pub open spec fn body_of(s: Seq<char>) -> Option<Seq<char>> {
    let p = next_blank_line(s, 0);
    let e = next_char(s, '\0', 0);
    if p >= s.len() {
        Some(Seq::empty())
    } else if e < p + 4 {
        None
    } else {
        Some(s.subrange(p + 4, e))
    }
}

proof fn lemma_next_blank_line_bounds(s: Seq<char>, from: int)
    requires
        0 <= from <= s.len(),
    ensures
        from <= next_blank_line(s, from) <= s.len(),
        next_blank_line(s, from) < s.len() ==> blank_line_at(s, next_blank_line(s, from)),
    decreases s.len() - from,
{
    if from < s.len() && !blank_line_at(s, from) {
        lemma_next_blank_line_bounds(s, from + 1);
    }
}

fn find_blank_line(v: &Vec<char>) -> (r: usize)
    ensures
        r == next_blank_line(v@, 0),
{
    let mut i: usize = 0;
    while i < v.len()
        invariant
            i <= v@.len(),
            next_blank_line(v@, i as int) == next_blank_line(v@, 0),
        decreases v@.len() - i,
    {
        if v.len() - i >= 4 && v[i] == '\r' && v[i + 1] == '\n' && v[i + 2] == '\r' && v[i + 3]
            == '\n' {
            return i;
        }
        i = i + 1;
    }
    i
}

/// The body of a request's text; `None` when a NUL character comes before
/// the body starts.
pub fn request_body(request: &str) -> (r: Option<String>)
    ensures
        match (r, body_of(request@)) {
            (Some(b), Some(m)) => b@ == m,
            (None, None) => true,
            _ => false,
        },
{
    let v = chars_of(request);
    let p = find_blank_line(&v);
    proof { lemma_next_blank_line_bounds(v@, 0); }
    if p >= v.len() {
        let b = String::new();
        assert(b@ =~= Seq::<char>::empty());
        return Some(b);
    }
    let e = find_char(&v, '\0', 0);
    proof { lemma_next_char_bounds(v@, '\0', 0); }
    if e < p + 4 {
        None
    } else {
        Some(string_of(&v, p + 4, e))
    }
}

/// The command that a request read from a client carries: the bytes are
/// decoded, the body taken and read as a command. `None` when the body
/// cannot be taken or read.
pub fn command_of_request(buffer: &[u8]) -> (r: Option<Command>)
    ensures
        match body_of(utf8_lossy(buffer@)) {
            Some(body) => match r {
                Some(c) => parses(body) && c.model() == model_of(body),
                None => !parses(body),
            },
            None => r is None,
        },
{
    let text = decode_lossy(buffer);
    match request_body(text.as_str()) {
        None => None,
        Some(body) => Command::try_new(body.as_str()),
    }
}

} // verus!
