//! The round-trip law: a value built from integers, symbols, `nil` /
//! `true` / `false`, strings, keywords, lists and vectors reads back from
//! its own printed form unchanged, so printing, reading and printing again
//! yields the same text.

use vstd::prelude::*;

use crate::eval::in_i64;
use crate::printer::{
    dec_rep, esc_char, escape_spec, int_rep, print_items, print_spec,
};
use crate::reader::{
    all_digits, atom_spec, digits_val, int_token_val, is_digit, is_sep, is_single, is_stop,
    read_form_spec, read_seq_spec, read_spec, run_end, str_body, str_parse_body, tokenize_spec,
};
use crate::types::SpecVal;

verus! {

/// A symbol name that prints as a token which reads back as the same
/// symbol: non-empty, free of separators and token-splitting characters,
/// not opening like a one-character token, and not denoting an integer, a
/// keyword or a reserved word.
pub open spec fn printable_symbol(s: Seq<char>) -> bool {
    &&& s.len() >= 1
    &&& forall|i: int| 0 <= i < s.len() ==> !is_stop(#[trigger] s[i])
    &&& !is_single(s[0])
    &&& s[0] != ':'
    &&& int_token_val(s) is None
    &&& s != "nil"@
    &&& s != "true"@
    &&& s != "false"@
}

/// A keyword name that survives the round trip: non-empty and free of
/// separators and token-splitting characters.
pub open spec fn printable_keyword(k: Seq<char>) -> bool {
    &&& k.len() >= 1
    &&& forall|i: int| 0 <= i < k.len() ==> !is_stop(#[trigger] k[i])
}

/// The values the round-trip law speaks of: integers, symbols, the three
/// reserved atoms, strings, keywords, lists and vectors.
pub open spec fn printable(v: SpecVal) -> bool
    decreases v, 1int,
{
    match v {
        SpecVal::Integer(n) => in_i64(n),
        SpecVal::Nil => true,
        SpecVal::True => true,
        SpecVal::False => true,
        SpecVal::String(_) => true,
        SpecVal::Symbol(s) => printable_symbol(s),
        SpecVal::Keyword(k) => printable_keyword(k),
        SpecVal::List(items) => printable_items(items),
        SpecVal::Vector(items) => printable_items(items),
        SpecVal::HashMap(_) => false,
        SpecVal::NativeFunction(_) => false,
    }
}

pub open spec fn printable_items(items: Seq<SpecVal>) -> bool
    decreases items, 0int,
{
    if items.len() == 0 {
        true
    } else {
        proof {
            assert(decreases_to!(items => items[0]));
        }
        printable(items[0]) && printable_items(items.skip(1))
    }
}

/// Escaping distributes over concatenation.
pub proof fn lemma_escape_concat(a: Seq<char>, b: Seq<char>)
    ensures
        escape_spec(a + b) == escape_spec(a) + escape_spec(b),
    decreases b.len(),
{
    if b.len() == 0 {
        assert(a + b =~= a);
        assert(escape_spec(a) + escape_spec(b) =~= escape_spec(a));
    } else {
        lemma_escape_concat(a, b.drop_last());
        assert((a + b).drop_last() =~= a + b.drop_last());
        assert((a + b).last() == b.last());
        assert(escape_spec(a) + (escape_spec(b.drop_last()) + esc_char(b.last())) =~= (escape_spec(
            a,
        ) + escape_spec(b.drop_last())) + esc_char(b.last()));
    }
}

/// Escaping peels off its first character.
pub proof fn lemma_escape_front(s: Seq<char>)
    requires
        s.len() >= 1,
    ensures
        escape_spec(s) == esc_char(s[0]) + escape_spec(s.skip(1)),
{
    assert(s =~= s.take(1) + s.skip(1));
    lemma_escape_concat(s.take(1), s.skip(1));
    assert(s.take(1).drop_last() =~= Seq::<char>::empty());
    assert(escape_spec(s.take(1)) == escape_spec(Seq::<char>::empty()) + esc_char(s[0]));
    assert(escape_spec(Seq::<char>::empty()) + esc_char(s[0]) =~= esc_char(s[0]));
}

/// An escaped body never ends a string token early: the token scanner
/// passes over it whole.
pub proof fn lemma_str_body_escaped(s: Seq<char>, tail: Seq<char>)
    ensures
        str_body(escape_spec(s) + tail) == escape_spec(s).len() + str_body(tail),
    decreases s.len(),
{
    if s.len() == 0 {
        assert(escape_spec(s) + tail =~= tail);
    } else {
        lemma_escape_front(s);
        lemma_str_body_escaped(s.skip(1), tail);
        let c = s[0];
        let w = escape_spec(s.skip(1)) + tail;
        if c == '\\' || c == '"' || c == '\n' {
            let e = if c == '\n' {
                'n'
            } else {
                c
            };
            assert(escape_spec(s) + tail =~= seq!['\\', e] + w);
            assert(str_body(seq!['\\', e] + w) == 2 + str_body((seq!['\\', e] + w).skip(2)));
            assert((seq!['\\', e] + w).skip(2) =~= w);
        } else {
            assert(escape_spec(s) + tail =~= seq![c] + w);
            assert(str_body(seq![c] + w) == 1 + str_body((seq![c] + w).skip(1)));
            assert((seq![c] + w).skip(1) =~= w);
        }
    }
}

/// Unescaping a printed string body gives back the original text.
pub proof fn lemma_str_parse_escaped(s: Seq<char>)
    ensures
        str_parse_body(escape_spec(s) + seq!['"']) == Ok::<Seq<char>, crate::error::SpecErr>(s),
    decreases s.len(),
{
    if s.len() == 0 {
        assert(escape_spec(s) + seq!['"'] =~= seq!['"']);
        assert(s =~= Seq::<char>::empty());
        assert(str_parse_body(seq!['"']) == Ok::<Seq<char>, crate::error::SpecErr>(
            Seq::<char>::empty(),
        ));
    } else {
        lemma_escape_front(s);
        lemma_str_parse_escaped(s.skip(1));
        let c = s[0];
        let w = escape_spec(s.skip(1)) + seq!['"'];
        if c == '\\' || c == '"' || c == '\n' {
            let e = if c == '\n' {
                'n'
            } else {
                c
            };
            assert(escape_spec(s) + seq!['"'] =~= seq!['\\', e] + w);
            assert((seq!['\\', e] + w).skip(2) =~= w);
            assert(str_parse_body(seq!['\\', e] + w) == Ok::<Seq<char>, crate::error::SpecErr>(
                seq![c] + s.skip(1),
            ));
            assert(seq![c] + s.skip(1) =~= s);
        } else {
            assert(escape_spec(s) + seq!['"'] =~= seq![c] + w);
            assert((seq![c] + w).skip(1) =~= w);
            assert((seq![c] + w).len() > 1);
            assert(str_parse_body(seq![c] + w) == Ok::<Seq<char>, crate::error::SpecErr>(
                seq![c] + s.skip(1),
            ));
            assert(seq![c] + s.skip(1) =~= s);
        }
    }
}

/// The decimal representation of a non-negative integer is a non-empty
/// run of digits whose value is that integer.
pub proof fn lemma_dec_rep(n: nat)
    ensures
        dec_rep(n).len() >= 1,
        all_digits(dec_rep(n)),
        digits_val(dec_rep(n)) == n,
    decreases n,
{
    if n < 10 {
        assert(dec_rep(n) =~= seq![crate::printer::dec_digit(n as int)]);
        assert(is_digit(crate::printer::dec_digit(n as int)));
        assert(digits_val(dec_rep(n)) == digits_val(dec_rep(n).drop_last()) * 10 + (dec_rep(
            n,
        ).last() as int - 48));
        assert(dec_rep(n).drop_last() =~= Seq::<char>::empty());
    } else {
        assert(n / 10 < n) by (nonlinear_arith)
            requires
                n >= 10,
        ;
        lemma_dec_rep(n / 10);
        let d = crate::printer::dec_digit((n % 10) as int);
        assert(is_digit(d));
        assert(dec_rep(n) == dec_rep(n / 10).push(d));
        assert(forall|i: int|
            0 <= i < dec_rep(n).len() ==> is_digit(#[trigger] dec_rep(n)[i])) by {
            assert(forall|i: int|
                0 <= i < dec_rep(n / 10).len() ==> dec_rep(n)[i] == #[trigger] dec_rep(n / 10)[i]);
        }
        assert(dec_rep(n).drop_last() =~= dec_rep(n / 10));
        assert(digits_val(dec_rep(n)) == (n / 10) * 10 + (d as int - 48));
        assert(d as int - 48 == n % 10);
        assert((n / 10) * 10 + n % 10 == n) by (nonlinear_arith);
    }
}

/// Digits are not separators, brackets or other token-splitting
/// characters, and neither is a minus sign.
pub proof fn lemma_digit_not_stop(c: char)
    requires
        is_digit(c) || c == '-',
    ensures
        !is_stop(c),
        !is_single(c),
        c != ';',
        c != '"',
{
}

/// Parsing the printed form of an integer gives back the integer.
pub proof fn lemma_int_parse_rep(i: int)
    requires
        in_i64(i),
    ensures
        int_token_val(int_rep(i)) == Some(i),
        int_rep(i).len() >= 1,
        forall|k: int| 0 <= k < int_rep(i).len() ==> !is_stop(#[trigger] int_rep(i)[k]),
        !is_single(int_rep(i)[0]),
        int_rep(i)[0] != ':' && int_rep(i)[0] != '"' && int_rep(i)[0] != '^',
{
    if i < 0 {
        lemma_dec_rep((-i) as nat);
        let t = int_rep(i);
        assert(t =~= seq!['-'] + dec_rep((-i) as nat));
        assert(t[0] == '-');
        assert(t.skip(1) =~= dec_rep((-i) as nat));
        assert(t.skip(1).len() > 0 && all_digits(t.skip(1)));
        assert(digits_val(t.skip(1)) == -i);
        assert forall|k: int| 0 <= k < t.len() implies !is_stop(t[k]) by {
            if k == 0 {
                lemma_digit_not_stop('-');
            } else {
                assert(is_digit(dec_rep((-i) as nat)[k - 1]));
                lemma_digit_not_stop(t[k]);
            }
        }
        lemma_digit_not_stop('-');
    } else {
        lemma_dec_rep(i as nat);
        let t = int_rep(i);
        assert(t == dec_rep(i as nat));
        assert(is_digit(t[0]));
        assert(!(t[0] == '+' || t[0] == '-'));
        assert forall|k: int| 0 <= k < t.len() implies !is_stop(t[k]) by {
            assert(is_digit(t[k]));
            lemma_digit_not_stop(t[k]);
        }
        lemma_digit_not_stop(t[0]);
    }
}

/// A maximal run covers exactly a token of non-stop characters followed by
/// a stop character or the end of input.
pub proof fn lemma_run_end_token(t: Seq<char>, rest: Seq<char>)
    requires
        forall|i: int| 0 <= i < t.len() ==> !is_stop(#[trigger] t[i]),
        rest.len() == 0 || is_stop(rest[0]),
    ensures
        run_end(t + rest) == t.len(),
    decreases t.len(),
{
    if t.len() == 0 {
        assert(t + rest =~= rest);
    } else {
        assert((t + rest)[0] == t[0]);
        assert((t + rest).skip(1) =~= t.skip(1) + rest);
        assert(forall|i: int| 0 <= i < t.skip(1).len() ==> !is_stop(#[trigger] t.skip(1)[i]));
        lemma_run_end_token(t.skip(1), rest);
    }
}

/// A run token is emitted whole: tokenizing it followed by a separator or
/// close bracket yields the token and then the rest.
pub proof fn lemma_tokenize_run(t: Seq<char>, rest: Seq<char>)
    requires
        t.len() >= 1,
        forall|i: int| 0 <= i < t.len() ==> !is_stop(#[trigger] t[i]),
        !is_single(t[0]),
        rest.len() == 0 || is_stop(rest[0]),
    ensures
        tokenize_spec(t + rest) == seq![t] + tokenize_spec(rest),
{
    let s = t + rest;
    assert(s[0] == t[0]);
    assert(!is_sep(s[0]));
    assert(s[0] != ';' && s[0] != '"');
    if s.len() >= 2 && s[0] == '~' && s[1] == '@' {
        assert(is_single(t[0]));
    }
    lemma_run_end_token(t, rest);
    assert(run_end(s) == t.len());
    assert(s.take(t.len() as int) =~= t);
    assert(s.skip(t.len() as int) =~= rest);
}

/// A string token is emitted whole, whatever follows it.
pub proof fn lemma_tokenize_string(s: Seq<char>, rest: Seq<char>)
    ensures
        tokenize_spec((seq!['"'] + escape_spec(s) + seq!['"']) + rest) == seq![
            seq!['"'] + escape_spec(s) + seq!['"'],
        ] + tokenize_spec(rest),
{
    let tok = seq!['"'] + escape_spec(s) + seq!['"'];
    let w = tok + rest;
    assert(w[0] == '"');
    assert(!is_sep('"') && '"' != ';' && !is_single('"'));
    assert(w.skip(1) =~= escape_spec(s) + (seq!['"'] + rest));
    lemma_str_body_escaped(s, seq!['"'] + rest);
    assert(str_body(seq!['"'] + rest) == 1) by {
        assert((seq!['"'] + rest)[0] == '"');
    }
    assert(str_body(w.skip(1)) == escape_spec(s).len() + 1);
    assert(1 + str_body(w.skip(1)) == tok.len());
    assert(w.take(tok.len() as int) =~= tok);
    assert(w.skip(tok.len() as int) =~= rest);
}

/// The tokens that the printed form of a value lexes into.
pub open spec fn print_toks(v: SpecVal) -> Seq<Seq<char>>
    decreases v, 1int,
{
    match v {
        SpecVal::Integer(n) => seq![int_rep(n)],
        SpecVal::Symbol(s) => seq![s],
        SpecVal::Nil => seq![seq!['n', 'i', 'l']],
        SpecVal::True => seq![seq!['t', 'r', 'u', 'e']],
        SpecVal::False => seq![seq!['f', 'a', 'l', 's', 'e']],
        SpecVal::String(s) => seq![seq!['"'] + escape_spec(s) + seq!['"']],
        SpecVal::Keyword(k) => seq![seq![':'] + k],
        SpecVal::List(items) => {
            proof {
                assert(decreases_to!(v => items));
            }
            seq![seq!['(']] + items_toks(items) + seq![seq![')']]
        },
        SpecVal::Vector(items) => {
            proof {
                assert(decreases_to!(v => items));
            }
            seq![seq!['[']] + items_toks(items) + seq![seq![']']]
        },
        SpecVal::HashMap(_) => Seq::empty(),
        SpecVal::NativeFunction(_) => Seq::empty(),
    }
}

pub open spec fn items_toks(items: Seq<SpecVal>) -> Seq<Seq<char>>
    decreases items, 0int,
{
    if items.len() == 0 {
        Seq::empty()
    } else {
        proof {
            assert(decreases_to!(items => items[0]));
        }
        print_toks(items[0]) + items_toks(items.skip(1))
    }
}

/// The space-joined printed form peels off its first element.
pub proof fn lemma_print_items_front(items: Seq<SpecVal>)
    requires
        items.len() >= 1,
    ensures
        print_items(items) == print_spec(items[0]) + (if items.len() == 1 {
            Seq::<char>::empty()
        } else {
            seq![' '] + print_items(items.skip(1))
        }),
    decreases items.len(),
{
    if items.len() == 1 {
        assert(items.drop_last() =~= Seq::<SpecVal>::empty());
        assert(items.last() == items[0]);
        assert(print_items(items) == print_items(Seq::<SpecVal>::empty()) + Seq::<char>::empty()
            + print_spec(items[0]));
        assert(print_items(Seq::<SpecVal>::empty()) + Seq::<char>::empty() + print_spec(items[0])
            =~= print_spec(items[0]));
    } else {
        let dl = items.drop_last();
        lemma_print_items_front(dl);
        assert(dl[0] == items[0]);
        assert(print_items(items) == print_items(dl) + seq![' '] + print_spec(items.last()));
        if items.len() == 2 {
            assert(print_items(dl) == print_spec(items[0]));
            assert(items.skip(1).len() == 1);
            lemma_print_items_front(items.skip(1));
            assert(items.skip(1)[0] == items[1]);
            assert(print_items(items.skip(1)) == print_spec(items[1]));
            assert(items.last() == items[1]);
            assert(print_spec(items[0]) + seq![' '] + print_spec(items[1]) =~= print_spec(items[0])
                + (seq![' '] + print_spec(items[1])));
        } else {
            assert(print_items(dl) == print_spec(items[0]) + (seq![' '] + print_items(
                dl.skip(1),
            )));
            assert(dl.skip(1) =~= items.skip(1).drop_last());
            let tail = items.skip(1);
            assert(tail.len() >= 2);
            assert(print_items(tail) == print_items(tail.drop_last()) + seq![' '] + print_spec(
                tail.last(),
            ));
            assert(tail.last() == items.last());
            assert((print_spec(items[0]) + (seq![' '] + print_items(tail.drop_last()))) + seq![' ']
                + print_spec(items.last()) =~= print_spec(items[0]) + (seq![' '] + (print_items(
                tail.drop_last(),
            ) + seq![' '] + print_spec(tail.last()))));
        }
    }
}

/// Tokenizing the printed form of a value yields exactly its tokens, then
/// whatever the following text yields, provided the following text begins
/// with a separator or bracket (or is empty).
pub proof fn lemma_print_tokens(v: SpecVal, rest: Seq<char>)
    requires
        printable(v),
        rest.len() == 0 || is_stop(rest[0]),
    ensures
        tokenize_spec(print_spec(v) + rest) == print_toks(v) + tokenize_spec(rest),
    decreases v, 1int,
{
    match v {
        SpecVal::Integer(n) => {
            lemma_int_parse_rep(n);
            lemma_tokenize_run(int_rep(n), rest);
        },
        SpecVal::Symbol(s) => {
            lemma_tokenize_run(s, rest);
        },
        SpecVal::Nil => {
            let t = seq!['n', 'i', 'l'];
            assert(forall|i: int| 0 <= i < t.len() ==> !is_stop(#[trigger] t[i]));
            lemma_tokenize_run(t, rest);
        },
        SpecVal::True => {
            let t = seq!['t', 'r', 'u', 'e'];
            assert(forall|i: int| 0 <= i < t.len() ==> !is_stop(#[trigger] t[i]));
            lemma_tokenize_run(t, rest);
        },
        SpecVal::False => {
            let t = seq!['f', 'a', 'l', 's', 'e'];
            assert(forall|i: int| 0 <= i < t.len() ==> !is_stop(#[trigger] t[i]));
            lemma_tokenize_run(t, rest);
        },
        SpecVal::String(s) => {
            lemma_tokenize_string(s, rest);
            assert((seq!['"'] + escape_spec(s) + seq!['"']) + rest =~= print_spec(v) + rest);
        },
        SpecVal::Keyword(k) => {
            let t = seq![':'] + k;
            assert(forall|i: int| 0 <= i < t.len() ==> !is_stop(#[trigger] t[i])) by {
                assert(!is_stop(':'));
                assert(forall|i: int| 1 <= i < t.len() ==> t[i] == k[i - 1]);
            }
            assert(t[0] == ':');
            lemma_tokenize_run(t, rest);
            assert(t + rest =~= print_spec(v) + rest);
        },
        SpecVal::List(items) => {
            assert(decreases_to!(v => items));
            let w = print_spec(v) + rest;
            let inner = print_items(items) + (seq![')'] + rest);
            assert(w[0] == '(');
            assert(is_single('(') && !is_sep('(') && '(' != ';');
            assert(!(w.len() >= 2 && w[0] == '~'));
            assert(w.subrange(0, 1) =~= seq!['(']);
            assert(w.skip(1) =~= inner);
            lemma_print_items_tokens(items, seq![')'] + rest);
            assert((seq![')'] + rest)[0] == ')');
            assert(is_stop(')'));
            let w2 = seq![')'] + rest;
            assert(is_single(')') && !is_sep(')') && ')' != ';');
            assert(!(w2.len() >= 2 && w2[0] == '~'));
            assert(w2.subrange(0, 1) =~= seq![')']);
            assert(w2.skip(1) =~= rest);
            assert(tokenize_spec(w2) == seq![seq![')']] + tokenize_spec(rest));
            assert(seq![seq!['(']] + (items_toks(items) + (seq![seq![')']] + tokenize_spec(rest)))
                =~= (seq![seq!['(']] + items_toks(items) + seq![seq![')']]) + tokenize_spec(rest));
        },
        SpecVal::Vector(items) => {
            assert(decreases_to!(v => items));
            let w = print_spec(v) + rest;
            let inner = print_items(items) + (seq![']'] + rest);
            assert(w[0] == '[');
            assert(is_single('[') && !is_sep('[') && '[' != ';');
            assert(!(w.len() >= 2 && w[0] == '~'));
            assert(w.subrange(0, 1) =~= seq!['[']);
            assert(w.skip(1) =~= inner);
            lemma_print_items_tokens(items, seq![']'] + rest);
            assert((seq![']'] + rest)[0] == ']');
            assert(is_stop(']'));
            let w2 = seq![']'] + rest;
            assert(is_single(']') && !is_sep(']') && ']' != ';');
            assert(!(w2.len() >= 2 && w2[0] == '~'));
            assert(w2.subrange(0, 1) =~= seq![']']);
            assert(w2.skip(1) =~= rest);
            assert(tokenize_spec(w2) == seq![seq![']']] + tokenize_spec(rest));
            assert(seq![seq!['[']] + (items_toks(items) + (seq![seq![']']] + tokenize_spec(rest)))
                =~= (seq![seq!['[']] + items_toks(items) + seq![seq![']']]) + tokenize_spec(rest));
        },
        _ => {},
    }
}

/// Tokenizing the space-joined printed elements followed by a close
/// bracket yields the elements' tokens and then the bracket's.
pub proof fn lemma_print_items_tokens(items: Seq<SpecVal>, rest: Seq<char>)
    requires
        printable_items(items),
        rest.len() >= 1,
        is_stop(rest[0]),
    ensures
        tokenize_spec(print_items(items) + rest) == items_toks(items) + tokenize_spec(rest),
    decreases items, 0int,
{
    if items.len() == 0 {
        assert(print_items(items) + rest =~= rest);
        assert(items_toks(items) + tokenize_spec(rest) =~= tokenize_spec(rest));
    } else {
        assert(decreases_to!(items => items[0]));
        lemma_print_items_front(items);
        if items.len() == 1 {
            assert(print_items(items) + rest =~= print_spec(items[0]) + rest);
            lemma_print_tokens(items[0], rest);
            assert(items_toks(items.skip(1)) =~= Seq::<Seq<char>>::empty());
            assert(items_toks(items) =~= print_toks(items[0]));
        } else {
            let boundary = (seq![' '] + print_items(items.skip(1))) + rest;
            assert(print_items(items) + rest =~= print_spec(items[0]) + boundary);
            assert(boundary[0] == ' ');
            assert(is_stop(' '));
            lemma_print_tokens(items[0], boundary);
            assert(boundary.skip(1) =~= print_items(items.skip(1)) + rest);
            assert(is_sep(' '));
            assert(tokenize_spec(boundary) == tokenize_spec(print_items(items.skip(1)) + rest));
            lemma_print_items_tokens(items.skip(1), rest);
            assert(print_toks(items[0]) + (items_toks(items.skip(1)) + tokenize_spec(rest)) =~= (
            print_toks(items[0]) + items_toks(items.skip(1))) + tokenize_spec(rest));
        }
    }
}

/// A printable value has at least one token, and its first token is never
/// a closing bracket.
pub proof fn lemma_first_token(v: SpecVal)
    requires
        printable(v),
    ensures
        print_toks(v).len() >= 1,
        print_toks(v)[0] != seq![')'],
        print_toks(v)[0] != seq![']'],
{
    match v {
        SpecVal::Integer(n) => {
            lemma_int_parse_rep(n);
            assert(!is_stop(print_toks(v)[0][0]));
        },
        SpecVal::Symbol(s) => {
            assert(!is_stop(s[0]));
        },
        SpecVal::Nil => {
            assert(print_toks(v)[0][0] == 'n');
        },
        SpecVal::True => {
            assert(print_toks(v)[0][0] == 't');
        },
        SpecVal::False => {
            assert(print_toks(v)[0][0] == 'f');
        },
        SpecVal::String(s) => {
            assert(print_toks(v)[0][0] == '"');
        },
        SpecVal::Keyword(k) => {
            assert(print_toks(v)[0][0] == ':');
        },
        SpecVal::List(items) => {
            assert(print_toks(v)[0] == seq!['(']);
            assert(seq!['('][0] == '(');
        },
        SpecVal::Vector(items) => {
            assert(print_toks(v)[0] == seq!['[']);
            assert(seq!['['][0] == '[');
        },
        _ => {},
    }
}

/// Reading at the start of a printed value's tokens reconstructs exactly
/// that value and stops right after its last token.
pub proof fn lemma_parse_print(v: SpecVal, toks: Seq<Seq<char>>, i: int)
    requires
        printable(v),
        0 <= i,
        i + print_toks(v).len() <= toks.len(),
        forall|k: int| 0 <= k < print_toks(v).len() ==> toks[i + k] == #[trigger] print_toks(v)[k],
    ensures
        read_form_spec(toks, i) == Ok::<(SpecVal, int), crate::error::SpecErr>(
            (v, i + print_toks(v).len()),
        ),
    decreases v, 1int,
{
    lemma_first_token(v);
    let t = toks[i];
    assert(t == print_toks(v)[0]);
    match v {
        SpecVal::Integer(n) => {
            lemma_int_parse_rep(n);
            assert(t == int_rep(n));
            assert(atom_spec(t) == Ok::<SpecVal, crate::error::SpecErr>(v));
        },
        SpecVal::Symbol(s) => {
            assert(t == s);
            assert(!is_stop(s[0]));
            assert(atom_spec(t) == Ok::<SpecVal, crate::error::SpecErr>(v));
        },
        SpecVal::Nil => {
            reveal_strlit("nil");
            assert(t =~= "nil"@);
            assert(!is_digit(t[0]));
            assert(int_token_val(t) is None);
            assert(atom_spec(t) == Ok::<SpecVal, crate::error::SpecErr>(v));
        },
        SpecVal::True => {
            reveal_strlit("true");
            reveal_strlit("nil");
            assert(t =~= "true"@);
            assert(!is_digit(t[0]));
            assert(int_token_val(t) is None);
            assert(t != "nil"@);
            assert(atom_spec(t) == Ok::<SpecVal, crate::error::SpecErr>(v));
        },
        SpecVal::False => {
            reveal_strlit("false");
            reveal_strlit("true");
            reveal_strlit("nil");
            assert(t =~= "false"@);
            assert(!is_digit(t[0]));
            assert(int_token_val(t) is None);
            assert(t != "nil"@ && t != "true"@);
            assert(atom_spec(t) == Ok::<SpecVal, crate::error::SpecErr>(v));
        },
        SpecVal::String(s) => {
            assert(t == seq!['"'] + escape_spec(s) + seq!['"']);
            assert(t[0] == '"');
            assert(!is_digit(t[0]) && t[0] != '+' && t[0] != '-');
            assert(int_token_val(t) is None);
            assert(t.skip(1) =~= escape_spec(s) + seq!['"']);
            lemma_str_parse_escaped(s);
            assert(atom_spec(t) == Ok::<SpecVal, crate::error::SpecErr>(v));
        },
        SpecVal::Keyword(k) => {
            assert(t == seq![':'] + k);
            assert(t[0] == ':');
            assert(t.len() == k.len() + 1);
            assert(t.skip(1) =~= k);
        },
        SpecVal::List(items) => {
            assert(t == seq!['(']);
            assert(t[0] == '(');
            let inner = items_toks(items);
            assert(print_toks(v).len() == inner.len() + 2);
            assert(forall|k: int| 0 <= k < inner.len() ==> toks[i + 1 + k] == #[trigger] inner[k])
                by {
                assert(forall|k: int|
                    0 <= k < inner.len() ==> print_toks(v)[k + 1] == #[trigger] inner[k]);
            }
            assert(toks[i + 1 + inner.len()] == seq![')']) by {
                assert(print_toks(v)[inner.len() as int + 1] == seq![')']);
            }
            assert(decreases_to!(v => items));
            lemma_parse_seq(items, toks, i + 1, seq![')']);
        },
        SpecVal::Vector(items) => {
            assert(t == seq!['[']);
            assert(t[0] == '[');
            let inner = items_toks(items);
            assert(print_toks(v).len() == inner.len() + 2);
            assert(forall|k: int| 0 <= k < inner.len() ==> toks[i + 1 + k] == #[trigger] inner[k])
                by {
                assert(forall|k: int|
                    0 <= k < inner.len() ==> print_toks(v)[k + 1] == #[trigger] inner[k]);
            }
            assert(toks[i + 1 + inner.len()] == seq![']']) by {
                assert(print_toks(v)[inner.len() as int + 1] == seq![']']);
            }
            assert(decreases_to!(v => items));
            lemma_parse_seq(items, toks, i + 1, seq![']']);
        },
        _ => {},
    }
}

/// Reading forms until a close bracket reconstructs exactly the printed
/// elements.
pub proof fn lemma_parse_seq(items: Seq<SpecVal>, toks: Seq<Seq<char>>, i: int, close: Seq<char>)
    requires
        printable_items(items),
        close == seq![')'] || close == seq![']'],
        0 <= i,
        i + items_toks(items).len() + 1 <= toks.len(),
        forall|k: int|
            0 <= k < items_toks(items).len() ==> toks[i + k] == #[trigger] items_toks(items)[k],
        toks[i + items_toks(items).len()] == close,
    ensures
        read_seq_spec(toks, i, close) == Ok::<(Seq<SpecVal>, int), crate::error::SpecErr>(
            (items, i + items_toks(items).len() + 1),
        ),
    decreases items, 0int,
{
    if items.len() == 0 {
        assert(items_toks(items).len() == 0);
        assert(toks[i] == close);
        assert(Seq::<SpecVal>::empty() =~= items);
    } else {
        assert(decreases_to!(items => items[0]));
        let v0 = items[0];
        let toks0 = print_toks(v0);
        lemma_first_token(v0);
        assert(items_toks(items) == toks0 + items_toks(items.skip(1)));
        assert(forall|k: int| 0 <= k < toks0.len() ==> toks[i + k] == #[trigger] toks0[k]) by {
            assert(forall|k: int|
                0 <= k < toks0.len() ==> items_toks(items)[k] == #[trigger] toks0[k]);
        }
        assert(toks[i] == toks0[0]);
        assert(toks[i] != close);
        lemma_parse_print(v0, toks, i);
        let j = i + toks0.len();
        assert(crate::reader::next_pos(i, j, toks.len() as int) == j);
        let tail = items_toks(items.skip(1));
        assert(forall|k: int| 0 <= k < tail.len() ==> toks[j + k] == #[trigger] tail[k]) by {
            assert(forall|k: int|
                0 <= k < tail.len() ==> items_toks(items)[toks0.len() + k] == #[trigger] tail[k]);
        }
        assert(toks[j + tail.len()] == close);
        lemma_parse_seq(items.skip(1), toks, j, close);
        assert(seq![v0] + items.skip(1) =~= items);
    }
}

/// Round trip: a value built only from integers, symbols, `nil`, `true`,
/// `false`, strings, keywords, lists and vectors reads back from its
/// printed form as exactly the same value, so reading and reprinting the
/// printed text reproduces it.
pub proof fn lemma_round_trip(v: SpecVal)
    requires
        printable(v),
    ensures
        read_spec(print_spec(v)) == Ok::<SpecVal, crate::error::SpecErr>(v),
        match read_spec(print_spec(v)) {
            Ok(w) => print_spec(w) == print_spec(v),
            Err(_) => false,
        },
{
    lemma_print_tokens(v, Seq::empty());
    assert(print_spec(v) + Seq::<char>::empty() =~= print_spec(v));
    assert(tokenize_spec(Seq::<char>::empty()) =~= Seq::<Seq<char>>::empty());
    let toks = print_toks(v);
    assert(tokenize_spec(print_spec(v)) =~= toks) by {
        assert(toks + Seq::<Seq<char>>::empty() =~= toks);
    }
    lemma_first_token(v);
    lemma_parse_print(v, toks, 0);
}

} // verus!
