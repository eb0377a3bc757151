use vstd::prelude::*;

verus! {

/// The characters that `char::is_whitespace` accepts (Unicode `White_Space`).
pub open spec fn is_ws(c: char) -> bool {
    ||| ('\u{9}' <= c && c <= '\u{d}')
    ||| c == ' '
    ||| c == '\u{85}'
    ||| c == '\u{a0}'
    ||| c == '\u{1680}'
    ||| ('\u{2000}' <= c && c <= '\u{200a}')
    ||| c == '\u{2028}'
    ||| c == '\u{2029}'
    ||| c == '\u{202f}'
    ||| c == '\u{205f}'
    ||| c == '\u{3000}'
}

/// The first index at or after `from` that holds a white-space character,
/// or the length.
pub open spec fn next_ws(s: Seq<char>, from: int) -> int
    decreases s.len() - from,
{
    if from < 0 || from >= s.len() {
        s.len() as int
    } else if is_ws(s[from]) {
        from
    } else {
        next_ws(s, from + 1)
    }
}

/// The first index at or after `from` that holds a character other than
/// white space, or the length.
pub open spec fn next_non_ws(s: Seq<char>, from: int) -> int
    decreases s.len() - from,
{
    if from < 0 || from >= s.len() {
        s.len() as int
    } else if !is_ws(s[from]) {
        from
    } else {
        next_non_ws(s, from + 1)
    }
}

/// The first index at or after `from` that holds `c`, or the length.
pub open spec fn next_char(s: Seq<char>, c: char, from: int) -> int
    decreases s.len() - from,
{
    if from < 0 || from >= s.len() {
        s.len() as int
    } else if s[from] == c {
        from
    } else {
        next_char(s, c, from + 1)
    }
}

pub proof fn lemma_next_ws_bounds(s: Seq<char>, from: int)
    requires
        0 <= from <= s.len(),
    ensures
        from <= next_ws(s, from) <= s.len(),
        next_ws(s, from) < s.len() ==> is_ws(s[next_ws(s, from)]),
        forall|j: int| from <= j < next_ws(s, from) ==> !is_ws(#[trigger] s[j]),
    decreases s.len() - from,
{
    if from < s.len() && !is_ws(s[from]) {
        lemma_next_ws_bounds(s, from + 1);
    }
}

pub proof fn lemma_next_non_ws_bounds(s: Seq<char>, from: int)
    requires
        0 <= from <= s.len(),
    ensures
        from <= next_non_ws(s, from) <= s.len(),
        next_non_ws(s, from) < s.len() ==> !is_ws(s[next_non_ws(s, from)]),
        forall|j: int| from <= j < next_non_ws(s, from) ==> is_ws(#[trigger] s[j]),
    decreases s.len() - from,
{
    if from < s.len() && is_ws(s[from]) {
        lemma_next_non_ws_bounds(s, from + 1);
    }
}

pub proof fn lemma_next_char_bounds(s: Seq<char>, c: char, from: int)
    requires
        0 <= from <= s.len(),
    ensures
        from <= next_char(s, c, from) <= s.len(),
        next_char(s, c, from) < s.len() ==> s[next_char(s, c, from)] == c,
        forall|j: int| from <= j < next_char(s, c, from) ==> #[trigger] s[j] != c,
    decreases s.len() - from,
{
    if from < s.len() && s[from] != c {
        lemma_next_char_bounds(s, c, from + 1);
    }
}

/// `c` lowercases to the lowercase ASCII keyword character `k`: `k` itself,
/// its capital, or (for `k`) the Kelvin sign, which `char::to_lowercase`
/// also maps to `k`.
pub open spec fn lowers_to(c: char, k: char) -> bool {
    ||| c == k
    ||| ('a' <= k && k <= 'z' && (c as u32) as int == (k as u32) as int - 32)
    ||| (k == 'k' && c == '\u{212a}')
}

/// `word`, lowercased, equals the keyword `kw` (written in lowercase ASCII).
pub open spec fn word_is(word: Seq<char>, kw: Seq<char>) -> bool {
    &&& word.len() == kw.len()
    &&& forall|i: int| 0 <= i < word.len() ==> lowers_to(#[trigger] word[i], kw[i])
}

/// The first white-space separated word of `s`.
pub open spec fn first_word(s: Seq<char>) -> Seq<char> {
    let a = next_non_ws(s, 0);
    s.subrange(a, next_ws(s, a))
}

/// What follows the first space of `s`, or nothing when there is none.
pub open spec fn after_first(s: Seq<char>, c: char) -> Seq<char> {
    let i = next_char(s, c, 0);
    if i < s.len() {
        s.skip(i + 1)
    } else {
        Seq::empty()
    }
}

/// The second piece of `s` split at spaces into at most three pieces
/// (`s.splitn(3, ' ').nth(1)`), or nothing.
pub open spec fn second_piece(s: Seq<char>) -> Seq<char> {
    let i = next_char(s, ' ', 0);
    if i >= s.len() {
        Seq::empty()
    } else {
        s.subrange(i + 1, next_char(s, ' ', i + 1))
    }
}

/// The third piece of `s` split at spaces into at most three pieces
/// (`s.splitn(3, ' ').nth(2)`), or nothing.
pub open spec fn third_piece(s: Seq<char>) -> Seq<char> {
    let i = next_char(s, ' ', 0);
    let j = next_char(s, ' ', i + 1);
    if i >= s.len() || j >= s.len() {
        Seq::empty()
    } else {
        s.skip(j + 1)
    }
}

/// `s` without its carriage returns.
pub open spec fn without_cr(s: Seq<char>) -> Seq<char> {
    s.filter(not_cr())
}

pub open spec fn not_cr() -> spec_fn(char) -> bool {
    |c: char| c != '\r'
}

/// The pieces of `s` between line feeds, as `str::split('\n')` gives them.
pub open spec fn lines(s: Seq<char>) -> Seq<Seq<char>>
    decreases s.len(),
{
    let i = next_char(s, '\n', 0);
    if i >= s.len() {
        seq![s]
    } else {
        proof {
            lemma_next_char_bounds(s, '\n', 0);
        }
        seq![s.take(i)] + lines(s.skip(i + 1))
    }
}

/// The lines of a transaction: what follows the first line feed, without
/// carriage returns, split at line feeds.
pub open spec fn transaction_lines(s: Seq<char>) -> Seq<Seq<char>> {
    lines(without_cr(after_first(s, '\n')))
}

pub proof fn lemma_next_char_skip(s: Seq<char>, c: char, start: int, from: int)
    requires
        0 <= start <= s.len(),
        0 <= from,
    ensures
        next_char(s.skip(start), c, from) == next_char(s, c, start + from) - start,
    decreases s.len() - start - from,
{
    if start + from < s.len() {
        assert(s.skip(start)[from] == s[start + from]);
        if s[start + from] != c {
            lemma_next_char_skip(s, c, start, from + 1);
        }
    }
}

/// No line of `s` is longer than `s`.
pub proof fn lemma_lines_len(s: Seq<char>)
    ensures
        lines(s).len() >= 1,
        forall|i: int| 0 <= i < lines(s).len() ==> (#[trigger] lines(s)[i]).len() <= s.len(),
    decreases s.len(),
{
    let i = next_char(s, '\n', 0);
    lemma_next_char_bounds(s, '\n', 0);
    if i < s.len() {
        lemma_lines_len(s.skip(i + 1));
        let rest = lines(s.skip(i + 1));
        assert forall|j: int| 0 <= j < lines(s).len() implies (#[trigger] lines(s)[j]).len()
            <= s.len() by {
            if j > 0 {
                assert(lines(s)[j] == rest[j - 1]);
            }
        }
    }
}

/// The lines of a transaction are shorter than the request.
pub proof fn lemma_transaction_lines_len(s: Seq<char>)
    requires
        s.len() >= 1,
    ensures
        forall|i: int|
            0 <= i < transaction_lines(s).len() ==> (#[trigger] transaction_lines(s)[i]).len()
                < s.len(),
{
    let a = after_first(s, '\n');
    lemma_next_char_bounds(s, '\n', 0);
    a.lemma_filter_len(not_cr());
    lemma_lines_len(without_cr(a));
}

// ---- executable helpers ------------------------------------------------

pub fn is_ws_char(c: char) -> (b: bool)
    ensures
        b == is_ws(c),
{
    ('\u{9}' <= c && c <= '\u{d}') || c == ' ' || c == '\u{85}' || c == '\u{a0}' || c
        == '\u{1680}' || ('\u{2000}' <= c && c <= '\u{200a}') || c == '\u{2028}' || c
        == '\u{2029}' || c == '\u{202f}' || c == '\u{205f}' || c == '\u{3000}'
}

pub fn find_ws(s: &Vec<char>, from: usize) -> (r: usize)
    requires
        from <= s@.len(),
    ensures
        r == next_ws(s@, from as int),
{
    let mut i = from;
    while i < s.len()
        invariant
            from <= i <= s@.len(),
            next_ws(s@, i as int) == next_ws(s@, from as int),
        decreases s@.len() - i,
    {
        if is_ws_char(s[i]) {
            return i;
        }
        i = i + 1;
    }
    i
}

pub fn find_non_ws(s: &Vec<char>, from: usize) -> (r: usize)
    requires
        from <= s@.len(),
    ensures
        r == next_non_ws(s@, from as int),
{
    let mut i = from;
    while i < s.len()
        invariant
            from <= i <= s@.len(),
            next_non_ws(s@, i as int) == next_non_ws(s@, from as int),
        decreases s@.len() - i,
    {
        if !is_ws_char(s[i]) {
            return i;
        }
        i = i + 1;
    }
    i
}

pub fn find_char(s: &Vec<char>, c: char, from: usize) -> (r: usize)
    requires
        from <= s@.len(),
    ensures
        r == next_char(s@, c, from as int),
{
    let mut i = from;
    while i < s.len()
        invariant
            from <= i <= s@.len(),
            next_char(s@, c, i as int) == next_char(s@, c, from as int),
        decreases s@.len() - i,
    {
        if s[i] == c {
            return i;
        }
        i = i + 1;
    }
    i
}

/// Whether `s[from..to]`, lowercased, equals the keyword `kw`.
pub fn word_eq(s: &Vec<char>, from: usize, to: usize, kw: &Vec<char>) -> (b: bool)
    requires
        from <= to <= s@.len(),
        forall|i: int| 0 <= i < kw@.len() ==> 'a' <= #[trigger] kw@[i] <= 'z' || kw@[i] == ':',
    ensures
        b == word_is(s@.subrange(from as int, to as int), kw@),
{
    let ghost w = s@.subrange(from as int, to as int);
    if to - from != kw.len() {
        return false;
    }
    let mut i: usize = 0;
    while i < kw.len()
        invariant
            to - from == kw@.len(),
            from <= to <= s@.len(),
            w == s@.subrange(from as int, to as int),
            forall|i: int| 0 <= i < kw@.len() ==> 'a' <= #[trigger] kw@[i] <= 'z' || kw@[i] == ':',
            i <= kw@.len(),
            forall|j: int| 0 <= j < i ==> lowers_to(#[trigger] w[j], kw@[j]),
        decreases kw@.len() - i,
    {
        let c = s[from + i];
        let k = kw[i];
        assert(w[i as int] == c);
        let ok = c == k || ('a' <= k && k <= 'z' && (c as u32) == (k as u32) - 32) || (k == 'k'
            && c == '\u{212a}');
        if !ok {
            assert(!lowers_to(w[i as int], kw@[i as int]));
            return false;
        }
        assert(lowers_to(w[i as int], kw@[i as int]));
        i = i + 1;
    }
    true
}

/// The characters of `s` after its first occurrence of `c`, without carriage
/// returns (nothing when `c` does not occur).
pub fn rest_without_cr(s: &Vec<char>, c: char) -> (k: Vec<char>)
    ensures
        k@ == without_cr(after_first(s@, c)),
{
    let idx = find_char(s, c, 0);
    proof { lemma_next_char_bounds(s@, c, 0); }
    let start = if idx < s.len() { idx + 1 } else { s.len() };
    let ghost a = s@.subrange(start as int, s@.len() as int);
    assert(a =~= after_first(s@, c));
    let mut k: Vec<char> = Vec::new();
    let mut i = start;
    while i < s.len()
        invariant
            start <= i <= s@.len(),
            a == s@.subrange(start as int, s@.len() as int),
            k@ == a.take(i - start).filter(not_cr()),
        decreases s@.len() - i,
    {
        let ch = s[i];
        assert(a.take(i - start + 1).drop_last() =~= a.take(i - start));
        assert(a.take(i - start + 1).last() == ch);
        let ghost t = a.take(i - start + 1);
        reveal(Seq::filter);
        assert(t.filter(not_cr()) == if (not_cr())(t.last()) {
            t.drop_last().filter(not_cr()).push(t.last())
        } else {
            t.drop_last().filter(not_cr())
        });
        if ch != '\r' {
            k.push(ch);
        }
        i = i + 1;
    }
    assert(a.take(i - start) =~= a);
    k
}

/// `s` split at line feeds, as `str::split('\n')` splits it.
pub fn split_lines(s: &Vec<char>) -> (ls: Vec<Vec<char>>)
    ensures
        ls@.len() == lines(s@).len(),
        forall|i: int| 0 <= i < ls@.len() ==> (#[trigger] ls@[i])@ == lines(s@)[i],
{
    let mut ls: Vec<Vec<char>> = Vec::new();
    let mut start: usize = 0;
    assert(s@.skip(0) =~= s@);
    loop
        invariant
            start <= s@.len(),
            ls@.len() + lines(s@.skip(start as int)).len() == lines(s@).len(),
            forall|i: int| 0 <= i < ls@.len() ==> (#[trigger] ls@[i])@ == lines(s@)[i],
            forall|i: int|
                0 <= i < lines(s@.skip(start as int)).len() ==> #[trigger] lines(
                    s@.skip(start as int),
                )[i] == lines(s@)[ls@.len() + i],
        decreases s@.len() - start,
    {
        let ghost rest = s@.skip(start as int);
        let j = find_char(s, '\n', start);
        proof {
            lemma_next_char_skip(s@, '\n', start as int, 0);
            lemma_next_char_bounds(s@, '\n', start as int);
        }
        let mut piece: Vec<char> = Vec::new();
        let mut p = start;
        while p < j
            invariant
                start <= p <= j <= s@.len(),
                piece@ == s@.subrange(start as int, p as int),
            decreases j - p,
        {
            piece.push(s[p]);
            assert(piece@ =~= s@.subrange(start as int, p + 1));
            p = p + 1;
        }
        if j >= s.len() {
            assert(rest.len() == s@.len() - start);
            assert(lines(rest) =~= seq![rest]);
            assert(piece@ =~= rest);
            assert(lines(rest)[0] == lines(s@)[ls@.len() as int + 0]);
            ls.push(piece);
            return ls;
        }
        let ghost rest2 = s@.skip(j + 1);
        assert(rest.skip(j - start + 1) =~= rest2);
        assert(rest.take(j - start) =~= piece@);
        assert(lines(rest) == seq![rest.take(j - start)] + lines(rest.skip(j - start + 1)));
        assert(lines(rest)[0] == lines(s@)[ls@.len() as int + 0]);
        let ghost old_len = ls@.len();
        ls.push(piece);
        assert forall|i: int| 0 <= i < lines(rest2).len() implies #[trigger] lines(rest2)[i]
            == lines(s@)[ls@.len() + i] by {
            assert(lines(rest)[i + 1] == lines(rest2)[i]);
            assert(lines(rest)[i + 1] == lines(s@)[old_len + i + 1]);
        }
        start = j + 1;
    }
}

} // verus!
