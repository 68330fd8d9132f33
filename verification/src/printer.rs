//! Canonical printing of values: `(` space-joined elements `)` for lists,
//! `[..]` for vectors, `{..}` for hash-maps, decimal integers, `nil` /
//! `true` / `false`, `:name` keywords, and double-quoted strings with `\`,
//! `"` and newline escaped.

use vstd::prelude::*;

use crate::types::{
    chars_to_string, items_view, lemma_items_view, lemma_pairs_view, MalData, MalHashMapKey,
    SpecKey, SpecVal,
};

verus! {

/// The decimal digit character for `n` (0 through 9).
pub open spec fn dec_digit(n: int) -> char {
    ((48 + n) as u8) as char
}

/// Decimal representation of a non-negative integer, most significant digit
/// first, without leading zeros.
pub open spec fn dec_rep(n: nat) -> Seq<char>
    decreases n,
{
    if n < 10 {
        seq![dec_digit(n as int)]
    } else {
        proof {
            assert(n / 10 < n) by (nonlinear_arith)
                requires
                    n >= 10,
            ;
        }
        dec_rep(n / 10).push(dec_digit((n % 10) as int))
    }
}

/// Decimal representation of a signed integer: a leading `-` only when
/// negative.
pub open spec fn int_rep(i: int) -> Seq<char> {
    if i < 0 {
        seq!['-'] + dec_rep((-i) as nat)
    } else {
        dec_rep(i as nat)
    }
}

/// How one character appears inside a printed string literal.
pub open spec fn esc_char(c: char) -> Seq<char> {
    if c == '\\' {
        seq!['\\', '\\']
    } else if c == '"' {
        seq!['\\', '"']
    } else if c == '\n' {
        seq!['\\', 'n']
    } else {
        seq![c]
    }
}

/// The escaped body of a printed string literal.
pub open spec fn escape_spec(s: Seq<char>) -> Seq<char>
    decreases s.len(),
{
    if s.len() == 0 {
        Seq::empty()
    } else {
        escape_spec(s.drop_last()) + esc_char(s.last())
    }
}

/// How a hash-map key is printed: as the string or keyword it stands for.
pub open spec fn print_key(k: SpecKey) -> Seq<char> {
    match k {
        SpecKey::String(s) => seq!['"'] + escape_spec(s) + seq!['"'],
        SpecKey::Keyword(s) => seq![':'] + s,
    }
}

/// The canonical printed form of a value.
pub open spec fn print_spec(v: SpecVal) -> Seq<char>
    decreases v, 1int,
{
    match v {
        SpecVal::List(items) => seq!['('] + print_items(items) + seq![')'],
        SpecVal::Vector(items) => seq!['['] + print_items(items) + seq![']'],
        SpecVal::HashMap(pairs) => seq!['{'] + print_entries(pairs) + seq!['}'],
        SpecVal::Integer(n) => int_rep(n),
        SpecVal::Symbol(s) => s,
        SpecVal::Nil => seq!['n', 'i', 'l'],
        SpecVal::True => seq!['t', 'r', 'u', 'e'],
        SpecVal::False => seq!['f', 'a', 'l', 's', 'e'],
        SpecVal::String(s) => seq!['"'] + escape_spec(s) + seq!['"'],
        SpecVal::Keyword(s) => seq![':'] + s,
        SpecVal::NativeFunction(_) => seq!['#', '<', 'f', 'u', 'n', 'c', 't', 'i', 'o', 'n', '>'],
    }
}

/// Space-joined printed forms of a sequence of values.
pub open spec fn print_items(items: Seq<SpecVal>) -> Seq<char>
    decreases items, 0int,
{
    if items.len() == 0 {
        Seq::empty()
    } else {
        proof {
            assert(decreases_to!(items => items.last()));
        }
        print_items(items.drop_last()) + (if items.len() == 1 {
            Seq::<char>::empty()
        } else {
            seq![' ']
        }) + print_spec(items.last())
    }
}

/// Space-joined `key value` pairs of a hash-map, in entry order.
pub open spec fn print_entries(pairs: Seq<(SpecKey, SpecVal)>) -> Seq<char>
    decreases pairs, 0int,
{
    if pairs.len() == 0 {
        Seq::empty()
    } else {
        proof {
            assert(decreases_to!(pairs => pairs.last()));
            assert(decreases_to!(pairs.last() => pairs.last().1));
        }
        print_entries(pairs.drop_last()) + (if pairs.len() == 1 {
            Seq::<char>::empty()
        } else {
            seq![' ']
        }) + print_key(pairs.last().0) + seq![' '] + print_spec(pairs.last().1)
    }
}

/// Writes the decimal digits of `n` onto `out`.
fn push_dec(n: u64, out: &mut Vec<char>)
    ensures
        final(out)@ == old(out)@ + dec_rep(n as nat),
    decreases n,
{
    if n >= 10 {
        proof {
            assert(n / 10 < n) by (nonlinear_arith)
                requires
                    n >= 10,
            ;
        }
        push_dec(n / 10, out);
    }
    let d: u8 = 48 + (n % 10) as u8;
    out.push(d as char);
    proof {
        if n < 10 {
            assert(n % 10 == n);
        }
    }
}

/// Writes the escaped form of the characters of `s` onto `out`.
fn push_escaped(s: &str, out: &mut Vec<char>)
    ensures
        final(out)@ == old(out)@ + escape_spec(s@),
{
    let n = s.unicode_len();
    for j in 0..n
        invariant
            n == s@.len(),
            out@ == old(out)@ + escape_spec(s@.take(j as int)),
    {
        let c = s.get_char(j);
        if c == '\\' {
            out.push('\\');
            out.push('\\');
        } else if c == '"' {
            out.push('\\');
            out.push('"');
        } else if c == '\n' {
            out.push('\\');
            out.push('n');
        } else {
            out.push(c);
        }
        proof {
            assert(s@.take(j + 1).drop_last() =~= s@.take(j as int));
            assert(s@.take(j + 1).last() == s@[j as int]);
        }
    }
    proof {
        assert(s@.take(n as int) =~= s@);
    }
}

/// Writes the characters of `s` onto `out`.
pub(crate) fn push_str_chars(s: &str, out: &mut Vec<char>)
    ensures
        final(out)@ == old(out)@ + s@,
{
    let n = s.unicode_len();
    for j in 0..n
        invariant
            n == s@.len(),
            out@ == old(out)@ + s@.take(j as int),
    {
        let c = s.get_char(j);
        out.push(c);
        proof {
            assert(s@.take(j + 1) =~= s@.take(j as int).push(s@[j as int]));
        }
    }
    proof {
        assert(s@.take(n as int) =~= s@);
    }
}

/// Writes the printed form of `v` onto `out`.
pub(crate) fn write_val(v: &MalData, out: &mut Vec<char>)
    ensures
        final(out)@ == old(out)@ + print_spec(v@),
    decreases *v, 1int,
{
    match v {
        MalData::List(items) => {
            out.push('(');
            write_items(items, out);
            out.push(')');
            proof {
                assert(out@ =~= old(out)@ + print_spec(v@));
            }
        },
        MalData::Vector(items) => {
            out.push('[');
            write_items(items, out);
            out.push(']');
            proof {
                assert(out@ =~= old(out)@ + print_spec(v@));
            }
        },
        MalData::HashMap(pairs) => {
            out.push('{');
            write_entries(pairs, out);
            out.push('}');
            proof {
                assert(out@ =~= old(out)@ + print_spec(v@));
            }
        },
        MalData::Integer(n) => {
            let i = *n;
            if i < 0 {
                out.push('-');
                let mag: u64 = if i == i64::MIN {
                    9223372036854775808u64
                } else {
                    (-i) as u64
                };
                push_dec(mag, out);
                proof {
                    assert(out@ =~= old(out)@ + print_spec(v@));
                }
            } else {
                push_dec(i as u64, out);
            }
        },
        MalData::Symbol(s) => {
            push_str_chars(s.as_str(), out);
        },
        MalData::Nil => {
            out.push('n');
            out.push('i');
            out.push('l');
            proof {
                assert(out@ =~= old(out)@ + print_spec(v@));
            }
        },
        MalData::True => {
            out.push('t');
            out.push('r');
            out.push('u');
            out.push('e');
            proof {
                assert(out@ =~= old(out)@ + print_spec(v@));
            }
        },
        MalData::False => {
            out.push('f');
            out.push('a');
            out.push('l');
            out.push('s');
            out.push('e');
            proof {
                assert(out@ =~= old(out)@ + print_spec(v@));
            }
        },
        MalData::String(s) => {
            out.push('"');
            push_escaped(s.as_str(), out);
            out.push('"');
            proof {
                assert(out@ =~= old(out)@ + print_spec(v@));
            }
        },
        MalData::Keyword(s) => {
            out.push(':');
            push_str_chars(s.as_str(), out);
            proof {
                assert(out@ =~= old(out)@ + print_spec(v@));
            }
        },
        MalData::MalNativeFunction(_) => {
            out.push('#');
            out.push('<');
            out.push('f');
            out.push('u');
            out.push('n');
            out.push('c');
            out.push('t');
            out.push('i');
            out.push('o');
            out.push('n');
            out.push('>');
            proof {
                assert(out@ =~= old(out)@ + print_spec(v@));
            }
        },
    }
}

fn write_items(items: &Vec<MalData>, out: &mut Vec<char>)
    ensures
        final(out)@ == old(out)@ + print_items(items_view(items@)),
    decreases *items, 0int,
{
    let n = items.len();
    proof {
        lemma_items_view(items@);
    }
    for k in 0..n
        invariant
            n == items@.len(),
            items_view(items@).len() == n,
            forall|i: int| 0 <= i < n ==> items_view(items@)[i] == items@[i]@,
            out@ == old(out)@ + print_items(items_view(items@).take(k as int)),
    {
        if k > 0 {
            out.push(' ');
        }
        proof {
            assert(decreases_to!(*items => items@));
            assert(decreases_to!(items@ => items@[k as int]));
        }
        write_val(&items[k], out);
        proof {
            let iv = items_view(items@);
            assert(iv.take(k + 1).drop_last() =~= iv.take(k as int));
            assert(iv.take(k + 1).last() == iv[k as int]);
            assert(out@ =~= old(out)@ + print_items(iv.take(k + 1)));
        }
    }
    proof {
        assert(items_view(items@).take(n as int) =~= items_view(items@));
    }
}

fn write_entries(pairs: &Vec<(MalHashMapKey, MalData)>, out: &mut Vec<char>)
    ensures
        final(out)@ == old(out)@ + print_entries(crate::types::pairs_view(pairs@)),
    decreases *pairs, 0int,
{
    let n = pairs.len();
    proof {
        lemma_pairs_view(pairs@);
    }
    for k in 0..n
        invariant
            n == pairs@.len(),
            crate::types::pairs_view(pairs@).len() == n,
            forall|i: int| 0 <= i < n ==> crate::types::pairs_view(pairs@)[i] == (
            pairs@[i].0@,
            pairs@[i].1@,
            ),
            out@ == old(out)@ + print_entries(crate::types::pairs_view(pairs@).take(k as int)),
    {
        if k > 0 {
            out.push(' ');
        }
        match &pairs[k].0 {
            MalHashMapKey::String(s) => {
                out.push('"');
                push_escaped(s.as_str(), out);
                out.push('"');
            },
            MalHashMapKey::Keyword(s) => {
                out.push(':');
                push_str_chars(s.as_str(), out);
            },
        }
        out.push(' ');
        proof {
            assert(decreases_to!(*pairs => pairs@));
            assert(decreases_to!(pairs@ => pairs@[k as int]));
            assert(decreases_to!(pairs@[k as int] => pairs@[k as int].1));
        }
        write_val(&pairs[k].1, out);
        proof {
            let pv = crate::types::pairs_view(pairs@);
            assert(pv.take(k + 1).drop_last() =~= pv.take(k as int));
            assert(pv.take(k + 1).last() == pv[k as int]);
            assert(out@ =~= old(out)@ + print_entries(pv.take(k + 1)));
        }
    }
    proof {
        assert(crate::types::pairs_view(pairs@).take(n as int) =~= crate::types::pairs_view(
            pairs@,
        ));
    }
}

/// Escapes `\`, `"` and newline as they appear inside a printed string
/// literal.
pub fn escape_mal_string(string: &str) -> (r: String)
    ensures
        r@ == escape_spec(string@),
{
    let mut out: Vec<char> = Vec::new();
    push_escaped(string, &mut out);
    chars_to_string(&out)
}

} // verus!
