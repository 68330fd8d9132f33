//! Reading: a single-pass tokenizer and a recursive-descent parser that
//! turns one input text into one value.
//!
//! Token classes, in priority order: the two-character splice token `~@`;
//! the single characters `[ ] { } ( ) ' `` ` `` ~ ^ @`; a double-quoted run
//! (greedy, possibly unterminated — validated during parsing, not here); a
//! comment from `;` to end of line (discarded); otherwise a maximal run of
//! characters excluding whitespace, commas, brackets, `' " ` ;`.
//! Whitespace and commas separate tokens and are never emitted.

use vstd::prelude::*;

use crate::error::{MalError, SpecErr};
use crate::types::{
    chars_to_string, items_view, lemma_items_view, lemma_pairs_view, pairs_view, MalData,
    MalHashMapKey, SpecKey, SpecVal,
};

verus! {

/// Whitespace and commas: separators between tokens.
pub open spec fn is_sep(c: char) -> bool {
    c == ' ' || c == '\t' || c == '\n' || c == '\r' || c == '\u{000B}' || c == '\u{000C}' || c
        == ','
}

/// The characters that form one-character tokens on their own.
pub open spec fn is_single(c: char) -> bool {
    c == '[' || c == ']' || c == '{' || c == '}' || c == '(' || c == ')' || c == '\'' || c == '`'
        || c == '~' || c == '^' || c == '@'
}

/// The characters that end a maximal symbol/number/keyword run.
pub open spec fn is_stop(c: char) -> bool {
    is_sep(c) || c == '[' || c == ']' || c == '{' || c == '}' || c == '(' || c == ')' || c == '\''
        || c == '"' || c == '`' || c == ';'
}

/// Length of a comment: everything up to (not including) the next newline.
pub open spec fn line_end(s: Seq<char>) -> int
    decreases s.len(),
{
    if s.len() == 0 {
        0
    } else if s[0] == '\n' {
        0
    } else {
        1 + line_end(s.skip(1))
    }
}

/// Length of the body of a double-quoted token, measured after the opening
/// quote: escapes consume two characters, a closing quote is included, and
/// the token ends early at the end of input or at a dangling backslash.
pub open spec fn str_body(t: Seq<char>) -> int
    decreases t.len(),
{
    if t.len() == 0 {
        0
    } else if t[0] == '"' {
        1
    } else if t[0] == '\\' {
        if t.len() >= 2 && t[1] != '\n' {
            2 + str_body(t.skip(2))
        } else {
            0
        }
    } else {
        1 + str_body(t.skip(1))
    }
}

/// Length of a maximal run of non-stop characters.
pub open spec fn run_end(s: Seq<char>) -> int
    decreases s.len(),
{
    if s.len() == 0 || is_stop(s[0]) {
        0
    } else {
        1 + run_end(s.skip(1))
    }
}

pub proof fn lemma_line_end_bounds(s: Seq<char>)
    ensures
        0 <= line_end(s) <= s.len(),
    decreases s.len(),
{
    if s.len() > 0 && s[0] != '\n' {
        lemma_line_end_bounds(s.skip(1));
    }
}

pub proof fn lemma_str_body_bounds(t: Seq<char>)
    ensures
        0 <= str_body(t) <= t.len(),
    decreases t.len(),
{
    if t.len() == 0 || t[0] == '"' {
    } else if t[0] == '\\' {
        if t.len() >= 2 && t[1] != '\n' {
            lemma_str_body_bounds(t.skip(2));
        }
    } else {
        lemma_str_body_bounds(t.skip(1));
    }
}

pub proof fn lemma_run_end_bounds(s: Seq<char>)
    ensures
        0 <= run_end(s) <= s.len(),
    decreases s.len(),
{
    if !(s.len() == 0 || is_stop(s[0])) {
        lemma_run_end_bounds(s.skip(1));
    }
}

/// The ordered token sequence of an input text.
pub open spec fn tokenize_spec(s: Seq<char>) -> Seq<Seq<char>>
    decreases s.len(),
{
    if s.len() == 0 {
        Seq::empty()
    } else if is_sep(s[0]) {
        tokenize_spec(s.skip(1))
    } else if s[0] == ';' {
        proof {
            lemma_line_end_bounds(s);
        }
        tokenize_spec(s.skip(if line_end(s) >= 1 {
            line_end(s)
        } else {
            1
        }))
    } else if s[0] == '~' && s.len() >= 2 && s[1] == '@' {
        seq![s.subrange(0, 2)] + tokenize_spec(s.skip(2))
    } else if is_single(s[0]) {
        seq![s.subrange(0, 1)] + tokenize_spec(s.skip(1))
    } else if s[0] == '"' {
        proof {
            lemma_str_body_bounds(s.skip(1));
        }
        seq![s.take(1 + str_body(s.skip(1)))] + tokenize_spec(s.skip(1 + str_body(s.skip(1))))
    } else {
        proof {
            lemma_run_end_bounds(s);
        }
        seq![s.take(if run_end(s) >= 1 {
            run_end(s)
        } else {
            1
        })] + tokenize_spec(s.skip(if run_end(s) >= 1 {
            run_end(s)
        } else {
            1
        }))
    }
}

/// Ghost view of an executable token list.
pub open spec fn toks_view(ts: Seq<Vec<char>>) -> Seq<Seq<char>> {
    Seq::new(ts.len(), |i: int| ts[i]@)
}

fn sep_char(c: char) -> (r: bool)
    ensures
        r == is_sep(c),
{
    c == ' ' || c == '\t' || c == '\n' || c == '\r' || c == '\u{000B}' || c == '\u{000C}' || c
        == ','
}

fn single_char(c: char) -> (r: bool)
    ensures
        r == is_single(c),
{
    c == '[' || c == ']' || c == '{' || c == '}' || c == '(' || c == ')' || c == '\'' || c == '`'
        || c == '~' || c == '^' || c == '@'
}

fn stop_char(c: char) -> (r: bool)
    ensures
        r == is_stop(c),
{
    sep_char(c) || c == '[' || c == ']' || c == '{' || c == '}' || c == '(' || c == ')' || c == '\''
        || c == '"' || c == '`' || c == ';'
}

/// A fresh vector holding `src[from..to]`.
fn copy_range(src: &Vec<char>, from: usize, to: usize) -> (r: Vec<char>)
    requires
        from <= to <= src@.len(),
    ensures
        r@ == src@.subrange(from as int, to as int),
{
    let mut r: Vec<char> = Vec::new();
    for j in from..to
        invariant
            from <= j <= to <= src@.len(),
            r@ == src@.subrange(from as int, j as int),
    {
        r.push(src[j]);
        proof {
            assert(src@.subrange(from as int, j + 1) =~= src@.subrange(from as int, j as int).push(
                src@[j as int],
            ));
        }
    }
    r
}

fn find_line_end(src: &Vec<char>, pos: usize) -> (e: usize)
    requires
        pos <= src@.len(),
    ensures
        e == pos + line_end(src@.skip(pos as int)),
        pos <= e <= src@.len(),
{
    let n = src.len();
    let mut j = pos;
    while j < n && src[j] != '\n'
        invariant
            pos <= j <= n,
            n == src@.len(),
            line_end(src@.skip(pos as int)) == (j - pos) + line_end(src@.skip(j as int)),
        decreases n - j,
    {
        proof {
            assert(src@.skip(j as int)[0] == src@[j as int]);
            assert(src@.skip(j as int).skip(1) =~= src@.skip(j + 1));
        }
        j = j + 1;
    }
    proof {
        if j == n {
            assert(src@.skip(j as int).len() == 0);
        } else {
            assert(src@.skip(j as int)[0] == src@[j as int]);
        }
    }
    j
}

fn find_run_end(src: &Vec<char>, pos: usize) -> (e: usize)
    requires
        pos <= src@.len(),
    ensures
        e == pos + run_end(src@.skip(pos as int)),
        pos <= e <= src@.len(),
{
    let n = src.len();
    let mut j = pos;
    loop
        invariant
            pos <= j <= n,
            n == src@.len(),
            run_end(src@.skip(pos as int)) == (j - pos) + run_end(src@.skip(j as int)),
        decreases n - j,
    {
        if j == n {
            proof {
                assert(src@.skip(j as int).len() == 0);
            }
            return j;
        }
        proof {
            assert(src@.skip(j as int)[0] == src@[j as int]);
        }
        if stop_char(src[j]) {
            return j;
        }
        proof {
            assert(src@.skip(j as int).skip(1) =~= src@.skip(j + 1));
        }
        j = j + 1;
    }
}

/// End position (exclusive) of a string token whose opening quote is at
/// `pos`.
fn find_str_end(src: &Vec<char>, pos: usize) -> (e: usize)
    requires
        pos < src@.len(),
    ensures
        e == pos + 1 + str_body(src@.skip(pos + 1)),
        pos < e <= src@.len(),
{
    let n = src.len();
    let mut j = pos + 1;
    loop
        invariant
            pos + 1 <= j <= n,
            n == src@.len(),
            str_body(src@.skip(pos + 1)) == (j - pos - 1) + str_body(src@.skip(j as int)),
        decreases n - j,
    {
        if j == n {
            proof {
                assert(src@.skip(j as int).len() == 0);
            }
            return n;
        }
        proof {
            assert(src@.skip(j as int)[0] == src@[j as int]);
        }
        let c = src[j];
        if c == '"' {
            return j + 1;
        }
        if c == '\\' {
            if j + 1 < n && src[j + 1] != '\n' {
                proof {
                    assert(src@.skip(j as int)[1] == src@[j + 1]);
                    assert(src@.skip(j as int).skip(2) =~= src@.skip(j + 2));
                }
                j = j + 2;
            } else {
                proof {
                    if j + 1 < n {
                        assert(src@.skip(j as int)[1] == src@[j + 1]);
                    }
                }
                return j;
            }
        } else {
            proof {
                assert(src@.skip(j as int).skip(1) =~= src@.skip(j + 1));
            }
            j = j + 1;
        }
    }
}

/// Tokenizes the whole input, left to right, with no backtracking.
fn tokenize(src: &Vec<char>) -> (out: Vec<Vec<char>>)
    ensures
        toks_view(out@) == tokenize_spec(src@),
{
    let n = src.len();
    let mut out: Vec<Vec<char>> = Vec::new();
    let mut pos: usize = 0;
    proof {
        assert(src@.skip(0) =~= src@);
        assert(toks_view(out@) + tokenize_spec(src@) =~= tokenize_spec(src@));
    }
    while pos < n
        invariant
            pos <= n,
            n == src@.len(),
            tokenize_spec(src@) == toks_view(out@) + tokenize_spec(src@.skip(pos as int)),
        decreases n - pos,
    {
        let ghost rest = src@.skip(pos as int);
        proof {
            assert(rest.len() == n - pos);
            assert(rest[0] == src@[pos as int]);
        }
        let c = src[pos];
        if sep_char(c) {
            proof {
                assert(rest.skip(1) =~= src@.skip(pos + 1));
                assert(tokenize_spec(rest) == tokenize_spec(src@.skip(pos + 1)));
            }
            pos = pos + 1;
        } else if c == ';' {
            let e = find_line_end(src, pos);
            proof {
                lemma_line_end_bounds(rest.skip(1));
                assert(line_end(rest) == 1 + line_end(rest.skip(1)));
                assert(e > pos);
                assert(rest.skip(line_end(rest)) =~= src@.skip(e as int));
                assert(tokenize_spec(rest) == tokenize_spec(src@.skip(e as int)));
            }
            pos = e;
        } else if c == '~' && pos + 1 < n && src[pos + 1] == '@' {
            proof {
                assert(rest[1] == src@[pos + 1]);
            }
            let tok = copy_range(src, pos, pos + 2);
            let ghost prev = out@;
            out.push(tok);
            proof {
                assert(rest.subrange(0, 2) =~= tok@);
                assert(rest.skip(2) =~= src@.skip(pos + 2));
                assert(tokenize_spec(rest) == seq![rest.subrange(0, 2)] + tokenize_spec(
                    src@.skip(pos + 2),
                ));
                assert(toks_view(prev) + tokenize_spec(rest) =~= toks_view(out@) + tokenize_spec(
                    src@.skip(pos + 2),
                ));
            }
            pos = pos + 2;
        } else if single_char(c) {
            let tok = copy_range(src, pos, pos + 1);
            let ghost prev = out@;
            out.push(tok);
            proof {
                assert(rest.subrange(0, 1) =~= tok@);
                assert(rest.skip(1) =~= src@.skip(pos + 1));
                assert(tokenize_spec(rest) == seq![rest.subrange(0, 1)] + tokenize_spec(
                    src@.skip(pos + 1),
                ));
                assert(toks_view(prev) + tokenize_spec(rest) =~= toks_view(out@) + tokenize_spec(
                    src@.skip(pos + 1),
                ));
            }
            pos = pos + 1;
        } else if c == '"' {
            proof {
                assert(rest.skip(1) =~= src@.skip(pos + 1));
                lemma_str_body_bounds(rest.skip(1));
            }
            let e = find_str_end(src, pos);
            let tok = copy_range(src, pos, e);
            let ghost prev = out@;
            out.push(tok);
            proof {
                assert(rest.take(1 + str_body(rest.skip(1))) =~= tok@);
                assert(rest.skip(1 + str_body(rest.skip(1))) =~= src@.skip(e as int));
                assert(tokenize_spec(rest) == seq![rest.take(1 + str_body(rest.skip(1)))]
                    + tokenize_spec(src@.skip(e as int)));
                assert(toks_view(prev) + tokenize_spec(rest) =~= toks_view(out@) + tokenize_spec(
                    src@.skip(e as int),
                ));
            }
            pos = e;
        } else {
            let e = find_run_end(src, pos);
            proof {
                lemma_run_end_bounds(rest.skip(1));
                assert(!is_stop(rest[0]));
                assert(run_end(rest) == 1 + run_end(rest.skip(1)));
                assert(e > pos);
            }
            let tok = copy_range(src, pos, e);
            let ghost prev = out@;
            out.push(tok);
            proof {
                assert(rest.take(run_end(rest)) =~= tok@);
                assert(rest.skip(run_end(rest)) =~= src@.skip(e as int));
                assert(tokenize_spec(rest) == seq![rest.take(run_end(rest))] + tokenize_spec(
                    src@.skip(e as int),
                ));
                assert(toks_view(prev) + tokenize_spec(rest) =~= toks_view(out@) + tokenize_spec(
                    src@.skip(e as int),
                ));
            }
            pos = e;
        }
    }
    proof {
        assert(src@.skip(n as int).len() == 0);
        assert(toks_view(out@) + tokenize_spec(src@.skip(n as int)) =~= toks_view(out@));
    }
    out
}

/// A decimal digit.
pub open spec fn is_digit(c: char) -> bool {
    '0' <= c && c <= '9'
}

pub open spec fn all_digits(s: Seq<char>) -> bool {
    forall|i: int| 0 <= i < s.len() ==> is_digit(#[trigger] s[i])
}

/// The value of a run of decimal digits, most significant first.
pub open spec fn digits_val(s: Seq<char>) -> int
    decreases s.len(),
{
    if s.len() == 0 {
        0
    } else {
        digits_val(s.drop_last()) * 10 + (s.last() as int - 48)
    }
}

/// What `i64` parsing accepts: an optional `+` or `-` sign, then one or
/// more digits, with the signed value in range.
pub open spec fn int_token_val(t: Seq<char>) -> Option<int> {
    let neg = t.len() > 0 && t[0] == '-';
    let ds = if t.len() > 0 && (t[0] == '+' || t[0] == '-') {
        t.skip(1)
    } else {
        t
    };
    if ds.len() > 0 && all_digits(ds) {
        let v = if neg {
            -digits_val(ds)
        } else {
            digits_val(ds)
        };
        if i64::MIN <= v <= i64::MAX {
            Some(v)
        } else {
            None
        }
    } else {
        None
    }
}

/// Unescaping of a string token body (everything after the opening quote):
/// `\n`, `\\` and `\"` translate; any other escape is invalid; the body
/// must end in exactly one closing quote.
pub open spec fn str_parse_body(t: Seq<char>) -> Result<Seq<char>, SpecErr>
    decreases t.len(),
{
    if t.len() == 0 {
        Err(SpecErr::UnbalancedDoubleQuotes)
    } else if t[0] == '\\' {
        if t.len() < 2 {
            Err(SpecErr::UnbalancedDoubleQuotes)
        } else if t[1] == 'n' {
            match str_parse_body(t.skip(2)) {
                Ok(s) => Ok(seq!['\n'] + s),
                Err(e) => Err(e),
            }
        } else if t[1] == '\\' {
            match str_parse_body(t.skip(2)) {
                Ok(s) => Ok(seq!['\\'] + s),
                Err(e) => Err(e),
            }
        } else if t[1] == '"' {
            match str_parse_body(t.skip(2)) {
                Ok(s) => Ok(seq!['"'] + s),
                Err(e) => Err(e),
            }
        } else {
            Err(SpecErr::InvalidEscapeSequence)
        }
    } else if t[0] == '"' {
        if t.len() > 1 {
            Err(SpecErr::UnbalancedDoubleQuotes)
        } else {
            Ok(Seq::empty())
        }
    } else {
        match str_parse_body(t.skip(1)) {
            Ok(s) => Ok(seq![t[0]] + s),
            Err(e) => Err(e),
        }
    }
}

/// What one non-bracket, non-macro token denotes: an integer if it parses
/// as one, else a string literal if it opens with a quote, else one of the
/// reserved words, else a symbol.
pub open spec fn atom_spec(t: Seq<char>) -> Result<SpecVal, SpecErr> {
    match int_token_val(t) {
        Some(v) => Ok(SpecVal::Integer(v)),
        None => if t.len() > 0 && t[0] == '"' {
            match str_parse_body(t.skip(1)) {
                Ok(s) => Ok(SpecVal::String(s)),
                Err(e) => Err(e),
            }
        } else if t == "nil"@ {
            Ok(SpecVal::Nil)
        } else if t == "true"@ {
            Ok(SpecVal::True)
        } else if t == "false"@ {
            Ok(SpecVal::False)
        } else {
            Ok(SpecVal::Symbol(t))
        },
    }
}

/// Whether a value may serve as a hash-map key.
pub open spec fn key_of(v: SpecVal) -> Option<SpecKey> {
    match v {
        SpecVal::String(s) => Some(SpecKey::String(s)),
        SpecVal::Keyword(s) => Some(SpecKey::Keyword(s)),
        _ => None,
    }
}

/// The first entry with key `k`, if any.
pub open spec fn find_key(pairs: Seq<(SpecKey, SpecVal)>, k: SpecKey) -> Option<int>
    decreases pairs.len(),
{
    if pairs.len() == 0 {
        None
    } else if pairs[0].0 == k {
        Some(0)
    } else {
        match find_key(pairs.skip(1), k) {
            Some(i) => Some(i + 1),
            None => None,
        }
    }
}

/// Hash-map insertion: a duplicate key overwrites the earlier value in
/// place, otherwise the entry is appended.
pub open spec fn hm_insert(
    pairs: Seq<(SpecKey, SpecVal)>,
    k: SpecKey,
    v: SpecVal,
) -> Seq<(SpecKey, SpecVal)> {
    match find_key(pairs, k) {
        Some(i) => pairs.update(i, (k, v)),
        None => pairs.push((k, v)),
    }
}

/// Builds hash-map entries from consecutive key/value elements, converting
/// each key; the first unconvertible key aborts the build.
pub open spec fn hm_pairs(items: Seq<SpecVal>, acc: Seq<(SpecKey, SpecVal)>) -> Result<
    Seq<(SpecKey, SpecVal)>,
    SpecErr,
>
    decreases items.len(),
{
    if items.len() < 2 {
        if items.len() == 0 {
            Ok(acc)
        } else {
            Err(SpecErr::UnbalancedHashMap)
        }
    } else {
        match key_of(items[0]) {
            Some(k) => hm_pairs(items.skip(2), hm_insert(acc, k, items[1])),
            None => Err(SpecErr::InvalidHashMapKey),
        }
    }
}

/// A `{` form requires an even element count, then builds entries.
pub open spec fn hm_from_items(items: Seq<SpecVal>) -> Result<Seq<(SpecKey, SpecVal)>, SpecErr> {
    if items.len() % 2 != 0 {
        Err(SpecErr::UnbalancedHashMap)
    } else {
        hm_pairs(items, Seq::empty())
    }
}

/// The cursor after a successful sub-read, clamped so the parser always
/// advances; the clamp is provably never taken (see the progress lemmas).
pub open spec fn next_pos(i: int, j: int, n: int) -> int {
    if i < j <= n {
        j
    } else {
        n
    }
}

/// Reads one form at token `i`: dispatch on the current token.
pub open spec fn read_form_spec(toks: Seq<Seq<char>>, i: int) -> Result<(SpecVal, int), SpecErr>
    decreases toks.len() - i, 2int,
{
    if !(0 <= i < toks.len()) {
        Err(SpecErr::Unexpected("EOF"@))
    } else {
        let t = toks[i];
        if t == seq!['('] {
            match read_seq_spec(toks, i + 1, seq![')']) {
                Ok((items, j)) => Ok((SpecVal::List(items), j)),
                Err(e) => Err(e),
            }
        } else if t == seq!['['] {
            match read_seq_spec(toks, i + 1, seq![']']) {
                Ok((items, j)) => Ok((SpecVal::Vector(items), j)),
                Err(e) => Err(e),
            }
        } else if t == seq!['{'] {
            match read_seq_spec(toks, i + 1, seq!['}']) {
                Ok((items, j)) => match hm_from_items(items) {
                    Ok(pairs) => Ok((SpecVal::HashMap(pairs), j)),
                    Err(e) => Err(e),
                },
                Err(e) => Err(e),
            }
        } else if t.len() > 0 && t[0] == ':' {
            if t.len() == 1 {
                Err(SpecErr::InvalidToken)
            } else {
                Ok((SpecVal::Keyword(t.skip(1)), i + 1))
            }
        } else if t == seq!['\''] {
            reader_macro(read_form_spec(toks, i + 1), "quote"@)
        } else if t.len() > 0 && t[0] == '`' {
            reader_macro(read_form_spec(toks, i + 1), "quasiquote"@)
        } else if t.len() >= 2 && t[0] == '~' && t[1] == '@' {
            reader_macro(read_form_spec(toks, i + 1), "splice-unquote"@)
        } else if t.len() > 0 && t[0] == '~' {
            reader_macro(read_form_spec(toks, i + 1), "unquote"@)
        } else if t.len() > 0 && t[0] == '@' {
            reader_macro(read_form_spec(toks, i + 1), "deref"@)
        } else if t.len() > 0 && t[0] == '^' {
            match read_form_spec(toks, i + 1) {
                Ok((meta, j)) => match read_form_spec(toks, next_pos(i + 1, j, toks.len() as int)) {
                    Ok((value, k)) => Ok(
                        (
                            SpecVal::List(
                                seq![SpecVal::Symbol("with-meta"@), value, meta],
                            ),
                            k,
                        ),
                    ),
                    Err(e) => Err(e),
                },
                Err(e) => Err(e),
            }
        } else {
            match atom_spec(t) {
                Ok(v) => Ok((v, i + 1)),
                Err(e) => Err(e),
            }
        }
    }
}

/// Wraps a sub-read in a two-element list headed by the given symbol.
pub open spec fn reader_macro(sub: Result<(SpecVal, int), SpecErr>, head: Seq<char>) -> Result<
    (SpecVal, int),
    SpecErr,
> {
    match sub {
        Ok((v, j)) => Ok((SpecVal::List(seq![SpecVal::Symbol(head), v]), j)),
        Err(e) => Err(e),
    }
}

/// Collects forms until the matching close token; running out of tokens
/// first is `UnbalancedBrackets`.
pub open spec fn read_seq_spec(toks: Seq<Seq<char>>, i: int, close: Seq<char>) -> Result<
    (Seq<SpecVal>, int),
    SpecErr,
>
    decreases toks.len() - i, 3int,
{
    if !(0 <= i < toks.len()) {
        Err(SpecErr::UnbalancedBrackets)
    } else if toks[i] == close {
        Ok((Seq::empty(), i + 1))
    } else {
        match read_form_spec(toks, i) {
            Ok((v, j)) => match read_seq_spec(toks, next_pos(i, j, toks.len() as int), close) {
                Ok((rest, k)) => Ok((seq![v] + rest, k)),
                Err(e) => Err(e),
            },
            Err(e) => Err(e),
        }
    }
}

/// A successful sub-read always advances the cursor and never runs past
/// the end of the tokens.
pub proof fn lemma_form_progress(toks: Seq<Seq<char>>, i: int)
    ensures
        match read_form_spec(toks, i) {
            Ok((v, j)) => i < j <= toks.len(),
            Err(_) => true,
        },
    decreases toks.len() - i, 2int,
{
    if 0 <= i < toks.len() {
        lemma_seq_progress(toks, i + 1, seq![')']);
        lemma_seq_progress(toks, i + 1, seq![']']);
        lemma_seq_progress(toks, i + 1, seq!['}']);
        lemma_form_progress(toks, i + 1);
        match read_form_spec(toks, i + 1) {
            Ok((meta, j)) => {
                lemma_form_progress(toks, next_pos(i + 1, j, toks.len() as int));
            },
            Err(_) => {},
        }
    }
}

/// A successful sequence read always advances the cursor and never runs
/// past the end of the tokens.
pub proof fn lemma_seq_progress(toks: Seq<Seq<char>>, i: int, close: Seq<char>)
    ensures
        match read_seq_spec(toks, i, close) {
            Ok((items, k)) => i < k <= toks.len(),
            Err(_) => true,
        },
    decreases toks.len() - i, 3int,
{
    if 0 <= i < toks.len() && toks[i] != close {
        lemma_form_progress(toks, i);
        match read_form_spec(toks, i) {
            Ok((v, j)) => {
                lemma_seq_progress(toks, next_pos(i, j, toks.len() as int), close);
            },
            Err(_) => {},
        }
    }
}

/// Reads the whole input: empty token sequence yields `Nil`; otherwise
/// exactly one form must consume every token.
pub open spec fn read_input_spec(toks: Seq<Seq<char>>) -> Result<SpecVal, SpecErr> {
    if toks.len() == 0 {
        Ok(SpecVal::Nil)
    } else {
        match read_form_spec(toks, 0) {
            Ok((v, j)) => if j < toks.len() {
                Err(SpecErr::ExpectedEOF(toks[j]))
            } else {
                Ok(v)
            },
            Err(e) => Err(e),
        }
    }
}

/// What `read` returns for an input text.
pub open spec fn read_spec(s: Seq<char>) -> Result<SpecVal, SpecErr> {
    read_input_spec(tokenize_spec(s))
}

/// Input made only of whitespace and commas (in particular, empty input)
/// reads as `Nil`.
pub proof fn lemma_whitespace_reads_nil(s: Seq<char>)
    requires
        forall|i: int| 0 <= i < s.len() ==> is_sep(#[trigger] s[i]),
    ensures
        read_spec(s) == Ok::<SpecVal, SpecErr>(SpecVal::Nil),
    decreases s.len(),
{
    if s.len() > 0 {
        assert(forall|i: int| 0 <= i < s.skip(1).len() ==> is_sep(#[trigger] s.skip(1)[i]));
        lemma_whitespace_reads_nil(s.skip(1));
    }
}

/// A single comment with no newline after it reads as `Nil`.
pub proof fn lemma_comment_reads_nil(s: Seq<char>)
    requires
        s.len() > 0,
        s[0] == ';',
        forall|i: int| 0 <= i < s.len() ==> #[trigger] s[i] != '\n',
    ensures
        read_spec(s) == Ok::<SpecVal, SpecErr>(SpecVal::Nil),
{
    lemma_line_end_no_newline(s);
    assert(!is_sep(';'));
    assert(tokenize_spec(s) == tokenize_spec(s.skip(s.len() as int)));
    assert(s.skip(s.len() as int).len() == 0);
}

proof fn lemma_line_end_no_newline(s: Seq<char>)
    requires
        forall|i: int| 0 <= i < s.len() ==> #[trigger] s[i] != '\n',
    ensures
        line_end(s) == s.len(),
    decreases s.len(),
{
    if s.len() > 0 {
        assert(forall|i: int| 0 <= i < s.skip(1).len() ==> #[trigger] s.skip(1)[i] != '\n');
        lemma_line_end_no_newline(s.skip(1));
    }
}

pub proof fn lemma_digits_val_nonneg(s: Seq<char>)
    requires
        all_digits(s),
    ensures
        digits_val(s) >= 0,
    decreases s.len(),
{
    if s.len() > 0 {
        assert(all_digits(s.drop_last())) by {
            assert(forall|i: int|
                0 <= i < s.len() - 1 ==> #[trigger] s.drop_last()[i] == s[i]);
        }
        lemma_digits_val_nonneg(s.drop_last());
        assert(is_digit(s.last()));
    }
}

pub proof fn lemma_digits_val_prefix(s: Seq<char>, m: int)
    requires
        all_digits(s),
        0 <= m <= s.len(),
    ensures
        digits_val(s) >= digits_val(s.take(m)),
    decreases s.len() - m,
{
    if m == s.len() {
        assert(s.take(m) =~= s);
    } else {
        assert(s.take(m + 1).drop_last() =~= s.take(m));
        assert(s.take(m + 1).last() == s[m]);
        assert(all_digits(s.take(m))) by {
            assert(forall|i: int| 0 <= i < m ==> #[trigger] s.take(m)[i] == s[i]);
        }
        lemma_digits_val_nonneg(s.take(m));
        assert(digits_val(s.take(m + 1)) == digits_val(s.take(m)) * 10 + (s[m] as int - 48));
        assert(digits_val(s.take(m + 1)) >= digits_val(s.take(m)));
        lemma_digits_val_prefix(s, m + 1);
    }
}

/// Parses a token exactly as `i64` text parsing does: optional sign, one
/// or more decimal digits, value in range.
fn parse_i64(tok: &Vec<char>) -> (r: Option<i64>)
    ensures
        match r {
            Some(v) => int_token_val(tok@) == Some(v as int),
            None => int_token_val(tok@) is None,
        },
{
    let n = tok.len();
    let mut start: usize = 0;
    let mut neg = false;
    if n > 0 && (tok[0] == '+' || tok[0] == '-') {
        neg = tok[0] == '-';
        start = 1;
    }
    if start >= n {
        return None;
    }
    let ghost ds = if start == 1 {
        tok@.skip(1)
    } else {
        tok@
    };
    proof {
        assert(ds.len() == n - start);
        assert(forall|k: int| 0 <= k < ds.len() ==> ds[k] == tok@[k + start]);
    }
    let limit: u64 = if neg {
        9223372036854775808
    } else {
        9223372036854775807
    };
    let mut acc: u64 = 0;
    let mut j = start;
    proof {
        assert(ds.take(0) =~= Seq::<char>::empty());
    }
    while j < n
        invariant
            start <= j <= n,
            n == tok@.len(),
            start == 0 || start == 1,
            (start == 1) == (n > 0 && (tok@[0] == '+' || tok@[0] == '-')),
            neg == (n > 0 && tok@[0] == '-' && start == 1),
            ds == (if start == 1 {
                tok@.skip(1)
            } else {
                tok@
            }),
            ds.len() == n - start,
            forall|k: int| 0 <= k < ds.len() ==> ds[k] == tok@[k + start],
            all_digits(ds.take(j - start)),
            acc == digits_val(ds.take(j - start)),
            acc <= limit,
            limit == (if neg {
                9223372036854775808u64
            } else {
                9223372036854775807u64
            }),
        decreases n - j,
    {
        let c = tok[j];
        proof {
            assert(ds[j - start] == c);
        }
        if c < '0' || c > '9' {
            proof {
                assert(!is_digit(ds[j - start]));
                assert(!all_digits(ds));
            }
            return None;
        }
        let d: u64 = (c as u32 - 48) as u64;
        proof {
            assert(d <= 9);
        }
        if acc > (limit - d) / 10 {
            proof {
                assert(acc * 10 + d > limit) by (nonlinear_arith)
                    requires
                        acc > (limit - d) / 10,
                        d <= limit,
                        d <= 9,
                ;
                assert(ds.take(j - start + 1).drop_last() =~= ds.take(j - start));
                assert(ds.take(j - start + 1).last() == ds[j - start]);
                assert(digits_val(ds.take(j - start + 1)) == acc * 10 + (c as int - 48));
                assert(c as int - 48 == d);
                if all_digits(ds) {
                    lemma_digits_val_prefix(ds, j - start + 1);
                    assert(digits_val(ds) > limit);
                }
            }
            return None;
        }
        proof {
            assert(acc * 10 + d <= limit) by (nonlinear_arith)
                requires
                    acc <= (limit - d) / 10,
                    d <= limit,
                    d <= 9,
            ;
            assert(ds.take(j - start + 1).drop_last() =~= ds.take(j - start));
            assert(ds.take(j - start + 1).last() == ds[j - start]);
            assert(all_digits(ds.take(j - start + 1))) by {
                assert(forall|k: int|
                    0 <= k < j - start + 1 ==> #[trigger] ds.take(j - start + 1)[k] == ds.take(
                        j - start,
                    ).push(ds[j - start])[k]);
            }
        }
        acc = acc * 10 + d;
        j = j + 1;
    }
    proof {
        assert(ds.take(n - start) =~= ds);
    }
    if neg {
        if acc == 9223372036854775808 {
            Some(i64::MIN)
        } else {
            Some(-(acc as i64))
        }
    } else {
        Some(acc as i64)
    }
}

/// Unescapes the body of a string token (which includes its quotes).
fn parse_string_chars(tok: &Vec<char>) -> (r: Result<Vec<char>, MalError>)
    requires
        tok@.len() > 0,
        tok@[0] == '"',
    ensures
        match r {
            Ok(chars) => str_parse_body(tok@.skip(1)) == Ok::<Seq<char>, SpecErr>(chars@),
            Err(e) => str_parse_body(tok@.skip(1)) == Err::<Seq<char>, SpecErr>(e@),
        },
{
    let n = tok.len();
    let mut acc: Vec<char> = Vec::new();
    let mut i: usize = 1;
    while i < n
        invariant
            1 <= i <= n,
            n == tok@.len(),
            str_parse_body(tok@.skip(1)) == (match str_parse_body(tok@.skip(i as int)) {
                Ok(s) => Ok::<Seq<char>, SpecErr>(acc@ + s),
                Err(e) => Err::<Seq<char>, SpecErr>(e),
            }),
        decreases n - i,
    {
        let ghost rest = tok@.skip(i as int);
        proof {
            assert(rest[0] == tok@[i as int]);
        }
        let c = tok[i];
        if c == '\\' {
            if i + 1 >= n {
                return Err(MalError::UnbalancedDoubleQuotes);
            }
            proof {
                assert(rest[1] == tok@[i + 1]);
                assert(rest.skip(2) =~= tok@.skip(i + 2));
            }
            let e = tok[i + 1];
            if e != 'n' && e != '\\' && e != '"' {
                return Err(MalError::InvalidEscapeSequence);
            }
            let ch = if e == 'n' {
                '\n'
            } else if e == '\\' {
                '\\'
            } else {
                '"'
            };
            let ghost prev = acc@;
            acc.push(ch);
            proof {
                assert(str_parse_body(rest) == (match str_parse_body(tok@.skip(i + 2)) {
                    Ok(s) => Ok::<Seq<char>, SpecErr>(seq![ch] + s),
                    Err(e2) => Err::<Seq<char>, SpecErr>(e2),
                }));
                match str_parse_body(tok@.skip(i + 2)) {
                    Ok(s) => {
                        assert(acc@ + s =~= prev + (seq![ch] + s));
                    },
                    Err(_) => {},
                }
            }
            i = i + 2;
        } else if c == '"' {
            if i < n - 1 {
                return Err(MalError::UnbalancedDoubleQuotes);
            } else {
                proof {
                    assert(acc@ + Seq::<char>::empty() =~= acc@);
                }
                return Ok(acc);
            }
        } else {
            let ghost prev = acc@;
            acc.push(c);
            proof {
                assert(rest.skip(1) =~= tok@.skip(i + 1));
                assert(str_parse_body(rest) == (match str_parse_body(tok@.skip(i + 1)) {
                    Ok(s) => Ok::<Seq<char>, SpecErr>(seq![c] + s),
                    Err(e2) => Err::<Seq<char>, SpecErr>(e2),
                }));
                match str_parse_body(tok@.skip(i + 1)) {
                    Ok(s) => {
                        assert(acc@ + s =~= prev + (seq![c] + s));
                    },
                    Err(_) => {},
                }
            }
            i = i + 1;
        }
    }
    proof {
        assert(tok@.skip(n as int).len() == 0);
    }
    Err(MalError::UnbalancedDoubleQuotes)
}

/// Character-wise comparison of a token against a string slice.
fn chars_eq_str(v: &Vec<char>, s: &str) -> (r: bool)
    ensures
        r == (v@ == s@),
{
    let n = v.len();
    if n != s.unicode_len() {
        return false;
    }
    for j in 0..n
        invariant
            n == v@.len(),
            n == s@.len(),
            forall|i: int| 0 <= i < j ==> v@[i] == s@[i],
    {
        if v[j] != s.get_char(j) {
            return false;
        }
    }
    proof {
        assert(v@ =~= s@);
    }
    true
}

/// Holds the token sequence and a forward-only cursor.
pub struct Reader {
    tokens: Vec<Vec<char>>,
    i: usize,
}

impl Reader {
    /// The token sequence, as ghost text.
    pub closed spec fn toks(&self) -> Seq<Seq<char>> {
        toks_view(self.tokens@)
    }

    /// The cursor position.
    pub closed spec fn pos(&self) -> int {
        self.i as int
    }

    /// Tokenizes the input; the cursor starts at the first token.
    pub fn new(input: String) -> (r: Reader)
        ensures
            r.toks() == tokenize_spec(input@),
            r.pos() == 0,
    {
        let chars = crate::types::str_to_chars(input.as_str());
        let tokens = tokenize(&chars);
        Reader { tokens, i: 0 }
    }

    /// Reads the one form this input holds, starting from a freshly
    /// created reader: an empty token sequence yields `Nil`, and any token
    /// left over after one form is an error.
    pub fn read_input(&mut self) -> (r: Result<MalData, MalError>)
        requires
            old(self).pos() == 0,
        ensures
            crate::error::res_view(r) == read_input_spec(old(self).toks()),
    {
        if self.tokens.len() == 0 {
            return Ok(MalData::Nil);
        }
        let ghost toks = self.toks();
        match self.read_form() {
            Ok(data) => {
                if self.i < self.tokens.len() {
                    proof {
                        assert(toks[self.pos()] == self.tokens@[self.pos()]@);
                    }
                    let found = chars_to_string(&self.tokens[self.i]);
                    Err(MalError::ExpectedEOF { found })
                } else {
                    Ok(data)
                }
            },
            Err(e) => Err(e),
        }
    }

    /// Reads one form at the cursor, dispatching on the current token.
    fn read_form(&mut self) -> (r: Result<MalData, MalError>)
        ensures
            final(self).toks() == old(self).toks(),
            match r {
                Ok(v) => read_form_spec(old(self).toks(), old(self).pos()) == Ok::<
                    (SpecVal, int),
                    SpecErr,
                >((v@, final(self).pos())) && old(self).pos() < final(self).pos() <= old(
                    self,
                ).toks().len(),
                Err(e) => read_form_spec(old(self).toks(), old(self).pos()) == Err::<
                    (SpecVal, int),
                    SpecErr,
                >(e@),
            },
        decreases self.tokens@.len() - self.i, 2int,
    {
        let ghost toks = self.toks();
        let ghost i0 = self.pos();
        let n = self.tokens.len();
        if self.i >= n {
            return Err(MalError::Unexpected { found: String::from_str("EOF") });
        }
        let ghost tk = toks[i0];
        let tlen = self.tokens[self.i].len();
        let t0 = if tlen > 0 {
            self.tokens[self.i][0]
        } else {
            ' '
        };
        let t1 = if tlen > 1 {
            self.tokens[self.i][1]
        } else {
            ' '
        };
        proof {
            assert(tk == self.tokens@[i0]@);
            assert(tk.len() == tlen);
            if tlen > 0 {
                assert(tk[0] == t0);
            }
            if tlen > 1 {
                assert(tk[1] == t1);
            }
        }
        if tlen == 1 && t0 == '(' {
            proof {
                assert(tk =~= seq!['(']);
            }
            self.i = self.i + 1;
            self.read_list()
        } else if tlen == 1 && t0 == '[' {
            proof {
                assert(tk =~= seq!['[']);
            }
            self.i = self.i + 1;
            self.read_vector()
        } else if tlen == 1 && t0 == '{' {
            proof {
                assert(tk =~= seq!['{']);
            }
            self.i = self.i + 1;
            self.read_hash_map()
        } else if tlen > 0 && t0 == ':' {
            if tlen == 1 {
                self.i = self.i + 1;
                Err(MalError::InvalidToken)
            } else {
                let name_chars = copy_range(&self.tokens[self.i], 1, tlen);
                let name = chars_to_string(&name_chars);
                self.i = self.i + 1;
                proof {
                    assert(name@ =~= tk.skip(1));
                }
                Ok(MalData::Keyword(name))
            }
        } else if tlen == 1 && t0 == '\'' {
            proof {
                assert(tk =~= seq!['\'']);
            }
            self.i = self.i + 1;
            self.reader_macro_form("quote")
        } else if tlen > 0 && t0 == '`' {
            self.i = self.i + 1;
            self.reader_macro_form("quasiquote")
        } else if tlen >= 2 && t0 == '~' && t1 == '@' {
            self.i = self.i + 1;
            self.reader_macro_form("splice-unquote")
        } else if tlen > 0 && t0 == '~' {
            self.i = self.i + 1;
            self.reader_macro_form("unquote")
        } else if tlen > 0 && t0 == '@' {
            self.i = self.i + 1;
            self.reader_macro_form("deref")
        } else if tlen > 0 && t0 == '^' {
            self.i = self.i + 1;
            match self.read_form() {
                Ok(meta) => {
                    let ghost j = self.pos();
                    proof {
                        assert(next_pos(i0 + 1, j, toks.len() as int) == j);
                    }
                    match self.read_form() {
                        Ok(value) => {
                            let mut items: Vec<MalData> = Vec::new();
                            items.push(MalData::Symbol(String::from_str("with-meta")));
                            items.push(value);
                            items.push(meta);
                            proof {
                                lemma_items_view(items@);
                                assert(items_view(items@) =~= seq![
                                    SpecVal::Symbol("with-meta"@),
                                    items@[1]@,
                                    items@[2]@,
                                ]);
                            }
                            Ok(MalData::List(items))
                        },
                        Err(e) => Err(e),
                    }
                },
                Err(e) => Err(e),
            }
        } else {
            self.read_atom()
        }
    }

    /// Reads the form after a reader-macro prefix and wraps it in a
    /// two-element list headed by the given symbol.
    fn reader_macro_form(&mut self, head: &str) -> (r: Result<MalData, MalError>)
        ensures
            final(self).toks() == old(self).toks(),
            match r {
                Ok(v) => reader_macro(
                    read_form_spec(old(self).toks(), old(self).pos()),
                    head@,
                ) == Ok::<(SpecVal, int), SpecErr>((v@, final(self).pos())) && old(self).pos()
                    < final(self).pos() <= old(self).toks().len(),
                Err(e) => reader_macro(read_form_spec(old(self).toks(), old(self).pos()), head@)
                    == Err::<(SpecVal, int), SpecErr>(e@),
            },
        decreases self.tokens@.len() - self.i, 3int,
    {
        match self.read_form() {
            Ok(v) => {
                let mut items: Vec<MalData> = Vec::new();
                items.push(MalData::Symbol(String::from_str(head)));
                items.push(v);
                proof {
                    lemma_items_view(items@);
                    assert(items_view(items@) =~= seq![SpecVal::Symbol(head@), items@[1]@]);
                }
                Ok(MalData::List(items))
            },
            Err(e) => Err(e),
        }
    }

    fn read_list(&mut self) -> (r: Result<MalData, MalError>)
        requires
            0 <= old(self).pos() <= old(self).toks().len(),
        ensures
            final(self).toks() == old(self).toks(),
            match r {
                Ok(v) => (match read_seq_spec(old(self).toks(), old(self).pos(), seq![')']) {
                    Ok((items, j)) => v@ == SpecVal::List(items) && final(self).pos() == j && old(
                        self,
                    ).pos() < j <= old(self).toks().len(),
                    Err(_) => false,
                }),
                Err(e) => read_seq_spec(old(self).toks(), old(self).pos(), seq![')']) == Err::<
                    (Seq<SpecVal>, int),
                    SpecErr,
                >(e@),
            },
        decreases self.tokens@.len() - self.i, 4int,
    {
        match self.read_sequence(')') {
            Ok(items) => Ok(MalData::List(items)),
            Err(e) => Err(e),
        }
    }

    fn read_vector(&mut self) -> (r: Result<MalData, MalError>)
        requires
            0 <= old(self).pos() <= old(self).toks().len(),
        ensures
            final(self).toks() == old(self).toks(),
            match r {
                Ok(v) => (match read_seq_spec(old(self).toks(), old(self).pos(), seq![']']) {
                    Ok((items, j)) => v@ == SpecVal::Vector(items) && final(self).pos() == j && old(
                        self,
                    ).pos() < j <= old(self).toks().len(),
                    Err(_) => false,
                }),
                Err(e) => read_seq_spec(old(self).toks(), old(self).pos(), seq![']']) == Err::<
                    (Seq<SpecVal>, int),
                    SpecErr,
                >(e@),
            },
        decreases self.tokens@.len() - self.i, 4int,
    {
        match self.read_sequence(']') {
            Ok(items) => Ok(MalData::Vector(items)),
            Err(e) => Err(e),
        }
    }

    #[verifier::loop_isolation(false)]
    fn read_hash_map(&mut self) -> (r: Result<MalData, MalError>)
        requires
            0 <= old(self).pos() <= old(self).toks().len(),
        ensures
            final(self).toks() == old(self).toks(),
            match r {
                Ok(v) => (match read_seq_spec(old(self).toks(), old(self).pos(), seq!['}']) {
                    Ok((items, j)) => hm_from_items(items) matches Ok(pairs) && v@
                        == SpecVal::HashMap(pairs) && final(self).pos() == j && old(self).pos() < j
                        <= old(self).toks().len(),
                    Err(_) => false,
                }),
                Err(e) => (match read_seq_spec(old(self).toks(), old(self).pos(), seq!['}']) {
                    Ok((items, j)) => hm_from_items(items) == Err::<
                        Seq<(SpecKey, SpecVal)>,
                        SpecErr,
                    >(e@),
                    Err(e2) => e2 == e@,
                }),
            },
        decreases self.tokens@.len() - self.i, 4int,
    {
        let sequence = match self.read_sequence('}') {
            Ok(items) => items,
            Err(e) => {
                return Err(e);
            },
        };
        let ghost sitems = items_view(sequence@);
        proof {
            lemma_items_view(sequence@);
        }
        if sequence.len() % 2 != 0 {
            return Err(MalError::UnbalancedHashMap);
        }
        let mut pairs: Vec<(MalHashMapKey, MalData)> = Vec::new();
        let m = sequence.len();
        let mut idx: usize = 0;
        proof {
            assert(sitems.skip(0) =~= sitems);
        }
        while idx < m
            invariant
                idx <= m,
                idx % 2 == 0,
                m % 2 == 0,
                m == sequence@.len(),
                sitems == items_view(sequence@),
                sitems.len() == m,
                forall|k: int| 0 <= k < m ==> sitems[k] == sequence@[k]@,
                hm_pairs(sitems, Seq::empty()) == hm_pairs(
                    sitems.skip(idx as int),
                    pairs_view(pairs@),
                ),
            decreases m - idx,
        {
            proof {
                assert(idx + 2 <= m);
                assert(sitems.skip(idx as int).len() == m - idx);
            }
            let ghost accv = pairs_view(pairs@);
            proof {
                assert(sitems.skip(idx as int)[0] == sitems[idx as int]);
            }
            let key = match MalHashMapKey::try_from(sequence[idx].clone()) {
                Ok(key) => key,
                Err(e) => {
                    return Err(e);
                },
            };
            let value = sequence[idx + 1].clone();
            proof {
                assert(sitems.skip(idx as int)[0] == sitems[idx as int]);
                assert(sitems.skip(idx as int)[1] == sitems[idx + 1]);
                assert(key_of(sitems[idx as int]) == Some(key@));
                assert(sitems.skip(idx as int).skip(2) =~= sitems.skip(idx + 2));
            }
            insert_pair(&mut pairs, key, value);
            idx = idx + 2;
        }
        proof {
            assert(sitems.skip(m as int).len() == 0);
        }
        Ok(MalData::HashMap(pairs))
    }

    /// Collects forms until the matching close token.
    #[verifier::loop_isolation(false)]
    fn read_sequence(&mut self, close: char) -> (r: Result<Vec<MalData>, MalError>)
        requires
            0 <= old(self).pos() <= old(self).toks().len(),
        ensures
            final(self).toks() == old(self).toks(),
            match r {
                Ok(items) => (match read_seq_spec(
                    old(self).toks(),
                    old(self).pos(),
                    seq![close],
                ) {
                    Ok((sitems, j)) => items_view(items@) == sitems && final(self).pos() == j
                        && old(self).pos() < j <= old(self).toks().len(),
                    Err(_) => false,
                }),
                Err(e) => read_seq_spec(old(self).toks(), old(self).pos(), seq![close]) == Err::<
                    (Seq<SpecVal>, int),
                    SpecErr,
                >(e@),
            },
        decreases self.tokens@.len() - self.i, 3int,
    {
        let ghost toks = self.toks();
        let ghost i0 = self.pos();
        let ghost gclose: Seq<char> = seq![close];
        let mut items: Vec<MalData> = Vec::new();
        proof {
            lemma_items_view(items@);
        }
        loop
            invariant
                self.toks() == toks,
                i0 <= self.pos() <= toks.len(),
                read_seq_spec(toks, i0, gclose) == (match read_seq_spec(
                    toks,
                    self.pos(),
                    gclose,
                ) {
                    Ok((rest, k)) => Ok::<(Seq<SpecVal>, int), SpecErr>(
                        (items_view(items@) + rest, k),
                    ),
                    Err(e) => Err::<(Seq<SpecVal>, int), SpecErr>(e),
                }),
                gclose == seq![close],
            decreases toks.len() - self.pos(),
        {
            let n = self.tokens.len();
            if self.i >= n {
                return Err(MalError::UnbalancedBrackets);
            }
            let ghost p = self.pos();
            let ghost tk = toks[p];
            let tlen = self.tokens[self.i].len();
            let t0 = if tlen > 0 {
                self.tokens[self.i][0]
            } else {
                ' '
            };
            proof {
                assert(tk == self.tokens@[p]@);
                assert(tk.len() == tlen);
                if tlen > 0 {
                    assert(tk[0] == t0);
                }
            }
            if tlen == 1 && t0 == close {
                proof {
                    assert(tk =~= gclose);
                    assert(items_view(items@) + Seq::<SpecVal>::empty() =~= items_view(items@));
                }
                self.i = self.i + 1;
                return Ok(items);
            }
            proof {
                assert(tk != gclose);
            }
            match self.read_form() {
                Ok(v) => {
                    let ghost j = self.pos();
                    let ghost prev = items@;
                    items.push(v);
                    proof {
                        assert(next_pos(p, j, toks.len() as int) == j);
                        lemma_items_view(prev);
                        lemma_items_view(items@);
                        assert(items_view(items@) =~= items_view(prev).push(v@));
                        match read_seq_spec(toks, j, gclose) {
                            Ok((rest, k)) => {
                                assert(items_view(prev) + (seq![v@] + rest) =~= items_view(items@)
                                    + rest);
                            },
                            Err(_) => {},
                        }
                    }
                },
                Err(e) => {
                    return Err(e);
                },
            }
        }
    }

    /// Reads one atom: an integer if the token parses as one, a string
    /// literal if it opens with a quote, a reserved word, or a symbol.
    fn read_atom(&mut self) -> (r: Result<MalData, MalError>)
        requires
            0 <= old(self).pos() < old(self).toks().len(),
        ensures
            final(self).toks() == old(self).toks(),
            match r {
                Ok(v) => atom_spec(old(self).toks()[old(self).pos()]) == Ok::<SpecVal, SpecErr>(v@)
                    && final(self).pos() == old(self).pos() + 1,
                Err(e) => atom_spec(old(self).toks()[old(self).pos()]) == Err::<SpecVal, SpecErr>(
                    e@,
                ),
            },
        decreases self.tokens@.len() - self.i, 1int,
    {
        let ghost tk = self.toks()[self.pos()];
        let n = self.tokens.len();
        proof {
            assert(self.toks().len() == self.tokens@.len());
            assert(self.i < n);
            assert(tk == self.tokens@[self.pos()]@);
        }
        let parsed = parse_i64(&self.tokens[self.i]);
        match parsed {
            Some(v) => {
                self.i = self.i + 1;
                return Ok(MalData::Integer(v));
            },
            None => {},
        }
        let tlen = self.tokens[self.i].len();
        if tlen > 0 {
            let t0 = self.tokens[self.i][0];
            if t0 == '"' {
                match parse_string_chars(&self.tokens[self.i]) {
                    Ok(chars) => {
                        self.i = self.i + 1;
                        return Ok(MalData::String(chars_to_string(&chars)));
                    },
                    Err(e) => {
                        return Err(e);
                    },
                }
            }
        }
        let r = if chars_eq_str(&self.tokens[self.i], "nil") {
            MalData::Nil
        } else if chars_eq_str(&self.tokens[self.i], "true") {
            MalData::True
        } else if chars_eq_str(&self.tokens[self.i], "false") {
            MalData::False
        } else {
            MalData::Symbol(chars_to_string(&self.tokens[self.i]))
        };
        self.i = self.i + 1;
        Ok(r)
    }
}

/// Inserts one entry: a duplicate key overwrites the earlier value in
/// place, otherwise the entry is appended.
#[verifier::loop_isolation(false)]
fn insert_pair(pairs: &mut Vec<(MalHashMapKey, MalData)>, key: MalHashMapKey, value: MalData)
    ensures
        pairs_view(final(pairs)@) == hm_insert(pairs_view(old(pairs)@), key@, value@),
{
    let ghost pv = pairs_view(pairs@);
    proof {
        lemma_pairs_view(pairs@);
        assert(pv.skip(0) =~= pv);
    }
    let n = pairs.len();
    let mut j: usize = 0;
    while j < n
        invariant
            j <= n,
            n == pairs@.len(),
            pv == pairs_view(pairs@),
            pv.len() == n,
            forall|k: int| 0 <= k < n ==> pv[k] == (pairs@[k].0@, pairs@[k].1@),
            find_key(pv, key@) == (match find_key(pv.skip(j as int), key@) {
                Some(i) => Some(i + j),
                None => None::<int>,
            }),
        decreases n - j,
    {
        proof {
            assert(pv.skip(j as int)[0] == pv[j as int]);
            assert(pv.skip(j as int).skip(1) =~= pv.skip(j + 1));
        }
        let hit = keys_eq(&pairs[j].0, &key);
        if hit {
            let ghost oldpairs = pairs@;
            pairs[j] = (key, value);
            proof {
                assert(pairs@ =~= oldpairs.update(j as int, (key, value)));
                assert(find_key(pv, key@) == Some(j as int));
                lemma_pairs_view(pairs@);
                assert(pairs_view(pairs@) =~= pv.update(j as int, (key@, value@)));
            }
            return ;
        }
        j = j + 1;
    }
    proof {
        assert(pv.skip(n as int).len() == 0);
        assert(find_key(pv, key@) is None);
    }
    let ghost oldpairs = pairs@;
    pairs.push((key, value));
    proof {
        lemma_pairs_view(pairs@);
        assert(pairs_view(pairs@) =~= pv.push((key@, value@)));
    }
}

/// Whether two hash-map keys are the same key.
fn keys_eq(a: &MalHashMapKey, b: &MalHashMapKey) -> (r: bool)
    ensures
        r == (a@ == b@),
{
    match (a, b) {
        (MalHashMapKey::String(x), MalHashMapKey::Keyword(y)) => false,
        (MalHashMapKey::Keyword(x), MalHashMapKey::String(y)) => false,
        (MalHashMapKey::String(x), MalHashMapKey::String(y)) => crate::types::str_eq(
            x.as_str(),
            y.as_str(),
        ),
        (MalHashMapKey::Keyword(x), MalHashMapKey::Keyword(y)) => crate::types::str_eq(
            x.as_str(),
            y.as_str(),
        ),
    }
}

/// Parses a string token into the string value it denotes. The token must
/// begin with its opening quote.
pub fn parse_string(token: String) -> (r: Result<MalData, MalError>)
    requires
        token@.len() > 0,
        token@[0] == '"',
    ensures
        crate::error::res_view(r) == (match str_parse_body(token@.skip(1)) {
            Ok(s) => Ok::<SpecVal, SpecErr>(SpecVal::String(s)),
            Err(e) => Err::<SpecVal, SpecErr>(e),
        }),
{
    let chars = crate::types::str_to_chars(token.as_str());
    match parse_string_chars(&chars) {
        Ok(parsed) => Ok(MalData::String(chars_to_string(&parsed))),
        Err(e) => Err(e),
    }
}

} // verus!
