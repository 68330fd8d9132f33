//! The tree-walking evaluator: symbols resolve through the environment
//! chain, vectors and hash-map values evaluate element-wise, the two
//! special forms `def!` and `let*` are intercepted before any argument is
//! evaluated, and every other non-empty list evaluates all elements and
//! applies the evaluated head.

use vstd::prelude::*;

use crate::env::{
    env_lookup, env_set, Env, EnvArena, SpecFrame,
};
use crate::error::{res_view, MalError, SpecErr};
use crate::types::{
    items_view, lemma_items_view, lemma_pairs_view, pairs_view, MalData, MalHashMapKey,
    MalNativeFunction, SpecKey, SpecVal,
};

verus! {

/// Whether an integer fits in a 64-bit signed machine word.
pub open spec fn in_i64(v: int) -> bool {
    i64::MIN <= v <= i64::MAX
}

/// Division truncating toward zero, as machine division does.
pub open spec fn trunc_div(x: int, d: int) -> int {
    if x == 0 {
        0
    } else if x > 0 && d > 0 {
        x / d
    } else if x < 0 && d < 0 {
        (x * -1) / (d * -1)
    } else if x < 0 {
        ((x * -1) / d) * -1
    } else {
        (x / (d * -1)) * -1
    }
}

/// What one arithmetic built-in returns: exactly two integer arguments are
/// required; the first non-integer argument is named by the error; division
/// by zero and overflow raise an explicit arithmetic error.
pub open spec fn apply_builtin(f: MalNativeFunction, args: Seq<SpecVal>) -> Result<
    SpecVal,
    SpecErr,
> {
    if args.len() != 2 {
        Err(SpecErr::TypeError(SpecVal::List(args)))
    } else {
        match args[0] {
            SpecVal::Integer(a) => match args[1] {
                SpecVal::Integer(b) => match f {
                    MalNativeFunction::Add => if in_i64(a + b) {
                        Ok(SpecVal::Integer(a + b))
                    } else {
                        Err(SpecErr::ArithmeticError)
                    },
                    MalNativeFunction::Sub => if in_i64(a - b) {
                        Ok(SpecVal::Integer(a - b))
                    } else {
                        Err(SpecErr::ArithmeticError)
                    },
                    MalNativeFunction::Mul => if in_i64(a * b) {
                        Ok(SpecVal::Integer(a * b))
                    } else {
                        Err(SpecErr::ArithmeticError)
                    },
                    MalNativeFunction::Div => if b == 0 {
                        Err(SpecErr::ArithmeticError)
                    } else if in_i64(trunc_div(a, b)) {
                        Ok(SpecVal::Integer(trunc_div(a, b)))
                    } else {
                        Err(SpecErr::ArithmeticError)
                    },
                },
                _ => Err(SpecErr::TypeError(args[1])),
            },
            _ => Err(SpecErr::TypeError(args[0])),
        }
    }
}

/// One step of evaluation: the resulting arena and the value or error.
pub open spec fn eval_spec(v: SpecVal, frames: Seq<SpecFrame>, cur: int) -> (
    Seq<SpecFrame>,
    Result<SpecVal, SpecErr>,
)
    decreases v, 3int,
{
    match v {
        SpecVal::Symbol(name) => (
            frames,
            match env_lookup(frames, cur, name) {
                Some(x) => Ok(x),
                None => Err(SpecErr::SymbolNotFound(name)),
            },
        ),
        SpecVal::List(items) => {
            if items.len() == 0 {
                (frames, Ok(v))
            } else if items[0] == SpecVal::Symbol("def!"@) {
                if items.len() != 3 {
                    (frames, Err(SpecErr::TypeError(v)))
                } else {
                    match items[1] {
                        SpecVal::Symbol(key) => {
                            proof {
                                assert(decreases_to!(v => items));
                                assert(decreases_to!(items => items[2]));
                            }
                            let fr = eval_spec(items[2], frames, cur);
                            match fr.1 {
                                Ok(val) => (env_set(fr.0, cur, key, val), Ok(val)),
                                Err(e) => (fr.0, Err(e)),
                            }
                        },
                        _ => (frames, Err(SpecErr::TypeError(items[1]))),
                    }
                }
            } else if items[0] == SpecVal::Symbol("let*"@) {
                if items.len() != 3 {
                    (frames, Err(SpecErr::TypeError(v)))
                } else {
                    match items[1] {
                        SpecVal::List(bs) => eval_let(v, bs, frames, cur),
                        SpecVal::Vector(bs) => eval_let(v, bs, frames, cur),
                        _ => (frames, Err(SpecErr::TypeError(items[1]))),
                    }
                }
            } else {
                proof {
                    assert(decreases_to!(v => items));
                }
                let fr = eval_items_spec(items, frames, cur);
                match fr.1 {
                    Ok(vals) => match vals[0] {
                        SpecVal::NativeFunction(f) => (fr.0, apply_builtin(f, vals.skip(1))),
                        _ => (fr.0, Err(SpecErr::TypeError(vals[0]))),
                    },
                    Err(e) => (fr.0, Err(e)),
                }
            }
        },
        SpecVal::Vector(items) => {
            proof {
                assert(decreases_to!(v => items));
            }
            let fr = eval_items_spec(items, frames, cur);
            (
                fr.0,
                match fr.1 {
                    Ok(vals) => Ok(SpecVal::Vector(vals)),
                    Err(e) => Err(e),
                },
            )
        },
        SpecVal::HashMap(pairs) => {
            proof {
                assert(decreases_to!(v => pairs));
            }
            let fr = eval_pairs_spec(pairs, frames, cur);
            (
                fr.0,
                match fr.1 {
                    Ok(ps) => Ok(SpecVal::HashMap(ps)),
                    Err(e) => Err(e),
                },
            )
        },
        _ => (frames, Ok(v)),
    }
}

/// A `let*`: one fresh child frame, bindings evaluated and written into it
/// in order, the body evaluated there, and the child discarded afterward
/// on every path.
pub open spec fn eval_let(v: SpecVal, bs: Seq<SpecVal>, frames: Seq<SpecFrame>, cur: int) -> (
    Seq<SpecFrame>,
    Result<SpecVal, SpecErr>,
)
    decreases v, 2int,
{
    if v matches SpecVal::List(items) && items.len() == 3 && (items[1] == SpecVal::List(bs)
        || items[1] == SpecVal::Vector(bs)) {
        if bs.len() % 2 != 0 {
            (frames, Err(SpecErr::TypeError((v->List_0)[1])))
        } else {
            proof {
                let items = v->List_0;
                assert(decreases_to!(v => items));
                assert(decreases_to!(items => items[1]));
                assert(decreases_to!(items => items[2]));
                if items[1] == SpecVal::List(bs) {
                    assert(decreases_to!(items[1] => items[1]->List_0));
                } else {
                    assert(decreases_to!(items[1] => items[1]->Vector_0));
                }
            }
            let child = frames.len() as int;
            let frames1 = frames.push(SpecFrame { outer: Some(cur), entries: Seq::empty() });
            let fb = eval_binds_spec(bs, frames1, child);
            match fb.1 {
                None => {
                    let fr = eval_spec((v->List_0)[2], fb.0, child);
                    (fr.0.take(frames.len() as int), fr.1)
                },
                Some(e) => (fb.0.take(frames.len() as int), Err(e)),
            }
        }
    } else {
        (frames, Err(SpecErr::TypeError(v)))
    }
}

/// Left-to-right evaluation of a sequence of forms, threading the arena;
/// the first error aborts.
pub open spec fn eval_items_spec(items: Seq<SpecVal>, frames: Seq<SpecFrame>, cur: int) -> (
    Seq<SpecFrame>,
    Result<Seq<SpecVal>, SpecErr>,
)
    decreases items, 4int,
{
    if items.len() == 0 {
        (frames, Ok(Seq::empty()))
    } else {
        proof {
            assert(decreases_to!(items => items[0]));
        }
        let fr = eval_spec(items[0], frames, cur);
        match fr.1 {
            Ok(x) => {
                let rest = eval_items_spec(items.skip(1), fr.0, cur);
                (
                    rest.0,
                    match rest.1 {
                        Ok(xs) => Ok(seq![x] + xs),
                        Err(e) => Err(e),
                    },
                )
            },
            Err(e) => (fr.0, Err(e)),
        }
    }
}

/// Left-to-right evaluation of hash-map values; keys are already
/// restricted literals and are never evaluated.
pub open spec fn eval_pairs_spec(
    pairs: Seq<(SpecKey, SpecVal)>,
    frames: Seq<SpecFrame>,
    cur: int,
) -> (Seq<SpecFrame>, Result<Seq<(SpecKey, SpecVal)>, SpecErr>)
    decreases pairs, 4int,
{
    if pairs.len() == 0 {
        (frames, Ok(Seq::empty()))
    } else {
        proof {
            assert(decreases_to!(pairs => pairs[0]));
            assert(decreases_to!(pairs[0] => pairs[0].1));
        }
        let fr = eval_spec(pairs[0].1, frames, cur);
        match fr.1 {
            Ok(x) => {
                let rest = eval_pairs_spec(pairs.skip(1), fr.0, cur);
                (
                    rest.0,
                    match rest.1 {
                        Ok(ps) => Ok(seq![(pairs[0].0, x)] + ps),
                        Err(e) => Err(e),
                    },
                )
            },
            Err(e) => (fr.0, Err(e)),
        }
    }
}

/// Processing of `let*` bindings: each pair is a symbol and an expression,
/// evaluated in the child frame and written there before the next pair.
pub open spec fn eval_binds_spec(bs: Seq<SpecVal>, frames: Seq<SpecFrame>, child: int) -> (
    Seq<SpecFrame>,
    Option<SpecErr>,
)
    decreases bs, 4int,
{
    if bs.len() < 2 {
        (frames, None)
    } else {
        match bs[0] {
            SpecVal::Symbol(key) => {
                proof {
                    assert(decreases_to!(bs => bs[1]));
                }
                let fr = eval_spec(bs[1], frames, child);
                match fr.1 {
                    Ok(val) => eval_binds_spec(bs.skip(2), env_set(fr.0, child, key, val), child),
                    Err(e) => (fr.0, Some(e)),
                }
            },
            _ => (frames, Some(SpecErr::TypeError(bs[0]))),
        }
    }
}

/// Evaluation never changes how many frames the arena holds: `let*` child
/// frames are discarded on every path.
pub proof fn lemma_eval_len(v: SpecVal, frames: Seq<SpecFrame>, cur: int)
    ensures
        eval_spec(v, frames, cur).0.len() == frames.len(),
    decreases v, 3int,
{
    match v {
        SpecVal::List(items) => {
            if items.len() == 0 {
            } else if items[0] == SpecVal::Symbol("def!"@) {
                if items.len() == 3 {
                    match items[1] {
                        SpecVal::Symbol(key) => {
                            assert(decreases_to!(v => items));
                            assert(decreases_to!(items => items[2]));
                            lemma_eval_len(items[2], frames, cur);
                        },
                        _ => {},
                    }
                }
            } else if items[0] == SpecVal::Symbol("let*"@) {
                if items.len() == 3 {
                    match items[1] {
                        SpecVal::List(bs) => {
                            lemma_eval_let_len(v, bs, frames, cur);
                        },
                        SpecVal::Vector(bs) => {
                            lemma_eval_let_len(v, bs, frames, cur);
                        },
                        _ => {},
                    }
                }
            } else {
                assert(decreases_to!(v => items));
                lemma_eval_items_len(items, frames, cur);
            }
        },
        SpecVal::Vector(items) => {
            assert(decreases_to!(v => items));
            lemma_eval_items_len(items, frames, cur);
        },
        SpecVal::HashMap(pairs) => {
            assert(decreases_to!(v => pairs));
            lemma_eval_pairs_len(pairs, frames, cur);
        },
        _ => {},
    }
}

pub proof fn lemma_eval_let_len(v: SpecVal, bs: Seq<SpecVal>, frames: Seq<SpecFrame>, cur: int)
    ensures
        eval_let(v, bs, frames, cur).0.len() == frames.len(),
    decreases v, 2int,
{
    if v matches SpecVal::List(items) && items.len() == 3 && (items[1] == SpecVal::List(bs)
        || items[1] == SpecVal::Vector(bs)) {
        if bs.len() % 2 != 0 {
        } else {
            let items = v->List_0;
            assert(decreases_to!(v => items));
            assert(decreases_to!(items => items[1]));
            assert(decreases_to!(items => items[2]));
            if items[1] == SpecVal::List(bs) {
                assert(decreases_to!(items[1] => items[1]->List_0));
            } else {
                assert(decreases_to!(items[1] => items[1]->Vector_0));
            }
            let child = frames.len() as int;
            let frames1 = frames.push(SpecFrame { outer: Some(cur), entries: Seq::empty() });
            lemma_eval_binds_len(bs, frames1, child);
            let fb = eval_binds_spec(bs, frames1, child);
            match fb.1 {
                None => {
                    lemma_eval_len((v->List_0)[2], fb.0, child);
                },
                Some(_) => {},
            }
        }
    }
}

pub proof fn lemma_eval_items_len(items: Seq<SpecVal>, frames: Seq<SpecFrame>, cur: int)
    ensures
        eval_items_spec(items, frames, cur).0.len() == frames.len(),
    decreases items, 4int,
{
    if items.len() > 0 {
        assert(decreases_to!(items => items[0]));
        lemma_eval_len(items[0], frames, cur);
        let fr = eval_spec(items[0], frames, cur);
        match fr.1 {
            Ok(_) => {
                lemma_eval_items_len(items.skip(1), fr.0, cur);
            },
            Err(_) => {},
        }
    }
}

pub proof fn lemma_eval_pairs_len(pairs: Seq<(SpecKey, SpecVal)>, frames: Seq<SpecFrame>, cur: int)
    ensures
        eval_pairs_spec(pairs, frames, cur).0.len() == frames.len(),
    decreases pairs, 4int,
{
    if pairs.len() > 0 {
        assert(decreases_to!(pairs => pairs[0]));
        assert(decreases_to!(pairs[0] => pairs[0].1));
        lemma_eval_len(pairs[0].1, frames, cur);
        let fr = eval_spec(pairs[0].1, frames, cur);
        match fr.1 {
            Ok(_) => {
                lemma_eval_pairs_len(pairs.skip(1), fr.0, cur);
            },
            Err(_) => {},
        }
    }
}

pub proof fn lemma_eval_binds_len(bs: Seq<SpecVal>, frames: Seq<SpecFrame>, child: int)
    ensures
        eval_binds_spec(bs, frames, child).0.len() == frames.len(),
    decreases bs, 4int,
{
    if bs.len() >= 2 {
        match bs[0] {
            SpecVal::Symbol(key) => {
                assert(decreases_to!(bs => bs[1]));
                lemma_eval_len(bs[1], frames, child);
                let fr = eval_spec(bs[1], frames, child);
                match fr.1 {
                    Ok(val) => {
                        lemma_eval_binds_len(bs.skip(2), env_set(fr.0, child, key, val), child);
                    },
                    Err(_) => {},
                }
            },
            _ => {},
        }
    }
}

/// `def!` returns its evaluated value and persists it: whenever a
/// `(def! name expr)` form evaluates successfully, the defined name
/// afterwards resolves, in the frame the form was evaluated in, to exactly
/// the value the form returned.
pub proof fn lemma_def_persists(v: SpecVal, frames: Seq<SpecFrame>, cur: int)
    requires
        0 <= cur < frames.len(),
        v matches SpecVal::List(items) && items.len() == 3 && items[0] == SpecVal::Symbol("def!"@)
            && items[1] matches SpecVal::Symbol(_),
    ensures
        (match eval_spec(v, frames, cur).1 {
            Ok(val) => crate::env::env_lookup(
                eval_spec(v, frames, cur).0,
                cur,
                (v->List_0)[1]->Symbol_0,
            ) == Some(val),
            Err(_) => true,
        }),
{
    let items = v->List_0;
    let key = items[1]->Symbol_0;
    let fr = eval_spec(items[2], frames, cur);
    lemma_eval_len(items[2], frames, cur);
    match fr.1 {
        Ok(val) => {
            crate::env::lemma_set_then_get(fr.0, cur, key, val);
        },
        Err(_) => {},
    }
}

/// Applies an arithmetic built-in to the evaluated arguments
/// (`vals[1..]`); `vals[0]` is the evaluated head.
fn apply_native(f: MalNativeFunction, vals: &Vec<MalData>) -> (r: Result<MalData, MalError>)
    requires
        vals@.len() >= 1,
    ensures
        res_view(r) == apply_builtin(f, items_view(vals@).skip(1)),
{
    let ghost args = items_view(vals@).skip(1);
    proof {
        lemma_items_view(vals@);
        assert(args.len() == vals@.len() - 1);
        assert(forall|k: int| 0 <= k < args.len() ==> args[k] == vals@[k + 1]@);
    }
    if vals.len() != 3 {
        let mut rest: Vec<MalData> = Vec::new();
        let n = vals.len();
        let mut k: usize = 1;
        while k < n
            invariant
                1 <= k <= n,
                n == vals@.len(),
                rest@.len() == k - 1,
                forall|i: int| 0 <= i < k - 1 ==> rest@[i]@ == vals@[i + 1]@,
            decreases n - k,
        {
            rest.push(vals[k].clone());
            k = k + 1;
        }
        proof {
            lemma_items_view(rest@);
            assert(items_view(rest@) =~= args);
        }
        return Err(MalError::TypeError(MalData::List(rest)));
    }
    let a = match &vals[1] {
        MalData::Integer(a) => *a,
        _ => {
            return Err(MalError::TypeError(vals[1].clone()));
        },
    };
    let b = match &vals[2] {
        MalData::Integer(b) => *b,
        _ => {
            return Err(MalError::TypeError(vals[2].clone()));
        },
    };
    proof {
        assert(args[0] == vals@[1]@);
        assert(args[1] == vals@[2]@);
    }
    let computed: Option<i64> = match f {
        MalNativeFunction::Add => a.checked_add(b),
        MalNativeFunction::Sub => a.checked_sub(b),
        MalNativeFunction::Mul => a.checked_mul(b),
        MalNativeFunction::Div => a.checked_div(b),
    };
    match computed {
        Some(x) => Ok(MalData::Integer(x)),
        None => Err(MalError::ArithmeticError),
    }
}

/// Evaluates one form against the given environment frame.
pub fn eval(input: &MalData, arena: &mut EnvArena, env: Env) -> (r: Result<MalData, MalError>)
    requires
        old(arena).wf(),
        env.valid(old(arena)),
    ensures
        final(arena).wf(),
        final(arena)@ == eval_spec(input@, old(arena)@, env.id()).0,
        res_view(r) == eval_spec(input@, old(arena)@, env.id()).1,
        final(arena)@.len() == old(arena)@.len(),
    decreases *input, 3int,
{
    proof {
        lemma_eval_len(input@, arena@, env.id());
    }
    match input {
        MalData::Symbol(s) => {
            match env.get(arena, s.as_str()) {
                Some(value) => Ok(value),
                None => Err(MalError::SymbolNotFound(s.clone())),
            }
        },
        MalData::List(items) => {
            proof {
                assert(decreases_to!(*input => *items));
                lemma_items_view(items@);
            }
            let ghost sitems = items_view(items@);
            if items.len() == 0 {
                return Ok(MalData::List(Vec::new()));
            }
            let (is_def, is_let) = match &items[0] {
                MalData::Symbol(s) => (
                    crate::types::str_eq(s.as_str(), "def!"),
                    crate::types::str_eq(s.as_str(), "let*"),
                ),
                _ => (false, false),
            };
            if is_def {
                proof {
                    assert(sitems[0] == SpecVal::Symbol("def!"@));
                }
                if items.len() != 3 {
                    return Err(MalError::TypeError(input.clone()));
                }
                let key = match &items[1] {
                    MalData::Symbol(key) => key.clone(),
                    _ => {
                        return Err(MalError::TypeError(items[1].clone()));
                    },
                };
                proof {
                    assert(decreases_to!(*items => items@));
                    assert(decreases_to!(items@ => items@[2]));
                }
                let value = match eval(&items[2], arena, env) {
                    Ok(value) => value,
                    Err(e) => {
                        return Err(e);
                    },
                };
                env.set(arena, key, value.clone());
                Ok(value)
            } else if is_let {
                proof {
                    assert(sitems[0] == SpecVal::Symbol("let*"@));
                }
                if items.len() != 3 {
                    return Err(MalError::TypeError(input.clone()));
                }
                let ghost gv = input@;
                let ghost frames0 = arena@;
                match &items[1] {
                    MalData::List(_) => {},
                    MalData::Vector(_) => {},
                    _ => {
                        return Err(MalError::TypeError(items[1].clone()));
                    },
                }
                let orig_len = arena.len();
                let child = Env::new(arena, Some(env));
                proof {
                    assert(arena@.take(orig_len as int) =~= frames0);
                    assert(eval_spec(gv, frames0, env.id()) == eval_let(
                        gv,
                        spec_bindings(gv),
                        frames0,
                        env.id(),
                    ));
                }
                let r = eval_let_form(input, arena, env, child);
                arena.truncate(orig_len);
                proof {
                    assert(arena@ == eval_let(gv, spec_bindings(gv), frames0, env.id()).0);
                }
                r
            } else {
                let vals = match eval_items(items, arena, env) {
                    Ok(vals) => vals,
                    Err(e) => {
                        return Err(e);
                    },
                };
                proof {
                    assert(!(sitems[0] == SpecVal::Symbol("def!"@)));
                    assert(!(sitems[0] == SpecVal::Symbol("let*"@)));
                    lemma_items_view(vals@);
                }
                let f = match &vals[0] {
                    MalData::MalNativeFunction(f) => *f,
                    _ => {
                        return Err(MalError::TypeError(vals[0].clone()));
                    },
                };
                apply_native(f, &vals)
            }
        },
        MalData::Vector(items) => {
            proof {
                assert(decreases_to!(*input => *items));
            }
            match eval_items(items, arena, env) {
                Ok(vals) => Ok(MalData::Vector(vals)),
                Err(e) => Err(e),
            }
        },
        MalData::HashMap(pairs) => {
            proof {
                assert(decreases_to!(*input => *pairs));
            }
            match eval_map_pairs(pairs, arena, env) {
                Ok(ps) => Ok(MalData::HashMap(ps)),
                Err(e) => Err(e),
            }
        },
        _ => Ok(input.clone()),
    }
}

/// The body of a `let*` after the child frame was created: bindings, then
/// the body, in the child; the caller discards the child frame.
#[verifier::loop_isolation(false)]
fn eval_let_form(input: &MalData, arena: &mut EnvArena, env: Env, child: Env) -> (r: Result<
    MalData,
    MalError,
>)
    requires
        input@ matches SpecVal::List(items) && items.len() == 3 && (items[1] matches
            SpecVal::List(_) || items[1] matches SpecVal::Vector(_)),
        old(arena).wf(),
        env.valid(old(arena)),
        child.id() == old(arena)@.len() - 1,
        old(arena)@.len() >= 1,
        old(arena)@.last() == (SpecFrame { outer: Some(env.id()), entries: Seq::empty() }),
    ensures
        final(arena).wf(),
        ({
            let frames0 = old(arena)@.take(old(arena)@.len() - 1);
            let fr = eval_let(input@, spec_bindings(input@), frames0, env.id());
            final(arena)@.take(frames0.len() as int) == fr.0 && res_view(r) == fr.1
                && final(arena)@.len() >= frames0.len()
        }),
    decreases *input, 2int,
{
    let items = match input {
        MalData::List(items) => items,
        _ => {
            unreached()
        },
    };
    proof {
        lemma_items_view(items@);
        assert(input@ == SpecVal::List(items_view(items@)));
        assert(items@.len() == 3);
        assert(decreases_to!(*input => *items));
        assert(decreases_to!(*items => items@));
        assert(decreases_to!(items@ => items@[1]));
        assert(decreases_to!(items@ => items@[2]));
    }
    let ghost frames0 = old(arena)@.take(old(arena)@.len() - 1);
    let ghost gbs = spec_bindings(input@);
    let bs = match &items[1] {
        MalData::List(bs) => bs,
        MalData::Vector(bs) => bs,
        _ => {
            unreached()
        },
    };
    proof {
        if items@[1] matches MalData::List(_) {
            assert(decreases_to!(items@[1] => items@[1]->List_0));
        } else {
            assert(decreases_to!(items@[1] => items@[1]->Vector_0));
        }
        assert(decreases_to!(*bs => bs@));
        lemma_items_view(bs@);
        assert(items_view(bs@) == gbs);
    }
    if bs.len() % 2 != 0 {
        return Err(MalError::TypeError(items[1].clone()));
    }
    let ghost sbs = items_view(bs@);
    let ghost frames1 = frames0.push(SpecFrame { outer: Some(env.id()), entries: Seq::empty() });
    proof {
        assert(frames1 =~= old(arena)@);
    }
    let m = bs.len();
    let mut idx: usize = 0;
    proof {
        assert(sbs.skip(0) =~= sbs);
    }
    while idx < m
        invariant
            idx <= m,
            idx % 2 == 0,
            m % 2 == 0,
            m == bs@.len(),
            arena.wf(),
            child.valid(arena),
            arena@.len() == old(arena)@.len(),
            eval_binds_spec(sbs, frames1, child.id()) == eval_binds_spec(
                sbs.skip(idx as int),
                arena@,
                child.id(),
            ),
        decreases m - idx,
    {
        proof {
            assert(idx + 2 <= m);
            assert(sbs.skip(idx as int)[0] == sbs[idx as int]);
            assert(sbs.skip(idx as int)[1] == sbs[idx + 1]);
            assert(sbs.skip(idx as int).skip(2) =~= sbs.skip(idx + 2));
            assert(decreases_to!(bs@ => bs@[idx + 1]));
        }
        let key = match &bs[idx] {
            MalData::Symbol(key) => key.clone(),
            _ => {
                return Err(MalError::TypeError(bs[idx].clone()));
            },
        };
        proof {
            lemma_eval_len(sbs[idx + 1], arena@, child.id());
        }
        let value = match eval(&bs[idx + 1], arena, child) {
            Ok(value) => value,
            Err(e) => {
                return Err(e);
            },
        };
        child.set(arena, key, value);
        idx = idx + 2;
    }
    proof {
        assert(sbs.skip(m as int).len() == 0);
        lemma_eval_len(items_view(items@)[2], arena@, child.id());
        assert(items_view(items@)[2] == items@[2]@);
    }
    eval(&items[2], arena, child)
}

/// The bindings sequence of a well-shaped `let*` form.
pub open spec fn spec_bindings(v: SpecVal) -> Seq<SpecVal> {
    match (v->List_0)[1] {
        SpecVal::List(bs) => bs,
        SpecVal::Vector(bs) => bs,
        _ => Seq::empty(),
    }
}

/// Left-to-right evaluation of the elements of a list or vector.
#[verifier::loop_isolation(false)]
fn eval_items(items: &Vec<MalData>, arena: &mut EnvArena, env: Env) -> (r: Result<
    Vec<MalData>,
    MalError,
>)
    requires
        old(arena).wf(),
        env.valid(old(arena)),
    ensures
        final(arena).wf(),
        final(arena)@ == eval_items_spec(items_view(items@), old(arena)@, env.id()).0,
        final(arena)@.len() == old(arena)@.len(),
        match r {
            Ok(vals) => eval_items_spec(items_view(items@), old(arena)@, env.id()).1 == Ok::<
                Seq<SpecVal>,
                SpecErr,
            >(items_view(vals@)) && vals@.len() == items@.len(),
            Err(e) => eval_items_spec(items_view(items@), old(arena)@, env.id()).1 == Err::<
                Seq<SpecVal>,
                SpecErr,
            >(e@),
        },
    decreases *items, 4int,
{
    let ghost sitems = items_view(items@);
    let ghost frames0 = arena@;
    proof {
        lemma_items_view(items@);
        assert(sitems.skip(0) =~= sitems);
        lemma_eval_items_len(sitems, frames0, env.id());
    }
    let n = items.len();
    let mut vals: Vec<MalData> = Vec::new();
    let mut k: usize = 0;
    while k < n
        invariant
            k <= n,
            n == items@.len(),
            arena.wf(),
            env.valid(arena),
            arena@.len() == frames0.len(),
            vals@.len() == k,
            eval_items_spec(sitems, frames0, env.id()).0 == eval_items_spec(
                sitems.skip(k as int),
                arena@,
                env.id(),
            ).0,
            eval_items_spec(sitems, frames0, env.id()).1 == (match eval_items_spec(
                sitems.skip(k as int),
                arena@,
                env.id(),
            ).1 {
                Ok(rest) => Ok::<Seq<SpecVal>, SpecErr>(items_view(vals@) + rest),
                Err(e) => Err::<Seq<SpecVal>, SpecErr>(e),
            }),
        decreases n - k,
    {
        proof {
            assert(sitems.skip(k as int)[0] == sitems[k as int]);
            assert(sitems.skip(k as int).skip(1) =~= sitems.skip(k + 1));
            assert(decreases_to!(*items => items@));
            assert(decreases_to!(items@ => items@[k as int]));
            lemma_eval_len(sitems[k as int], arena@, env.id());
        }
        match eval(&items[k], arena, env) {
            Ok(x) => {
                let ghost prev = vals@;
                vals.push(x);
                proof {
                    lemma_items_view(prev);
                    lemma_items_view(vals@);
                    assert(items_view(vals@) =~= items_view(prev).push(vals@.last()@));
                    match eval_items_spec(sitems.skip(k + 1), arena@, env.id()).1 {
                        Ok(rest) => {
                            assert(items_view(prev) + (seq![vals@.last()@] + rest) =~= items_view(
                                vals@,
                            ) + rest);
                        },
                        Err(_) => {},
                    }
                }
            },
            Err(e) => {
                return Err(e);
            },
        }
        k = k + 1;
    }
    proof {
        assert(sitems.skip(n as int).len() == 0);
        assert(items_view(vals@) + Seq::<SpecVal>::empty() =~= items_view(vals@));
    }
    Ok(vals)
}

/// Left-to-right evaluation of hash-map values, keys unchanged.
#[verifier::loop_isolation(false)]
fn eval_map_pairs(pairs: &Vec<(MalHashMapKey, MalData)>, arena: &mut EnvArena, env: Env) -> (r:
    Result<Vec<(MalHashMapKey, MalData)>, MalError>)
    requires
        old(arena).wf(),
        env.valid(old(arena)),
    ensures
        final(arena).wf(),
        final(arena)@ == eval_pairs_spec(pairs_view(pairs@), old(arena)@, env.id()).0,
        final(arena)@.len() == old(arena)@.len(),
        match r {
            Ok(ps) => eval_pairs_spec(pairs_view(pairs@), old(arena)@, env.id()).1 == Ok::<
                Seq<(SpecKey, SpecVal)>,
                SpecErr,
            >(pairs_view(ps@)),
            Err(e) => eval_pairs_spec(pairs_view(pairs@), old(arena)@, env.id()).1 == Err::<
                Seq<(SpecKey, SpecVal)>,
                SpecErr,
            >(e@),
        },
    decreases *pairs, 4int,
{
    let ghost spairs = pairs_view(pairs@);
    let ghost frames0 = arena@;
    proof {
        lemma_pairs_view(pairs@);
        assert(spairs.skip(0) =~= spairs);
        lemma_eval_pairs_len(spairs, frames0, env.id());
    }
    let n = pairs.len();
    let mut out: Vec<(MalHashMapKey, MalData)> = Vec::new();
    let mut k: usize = 0;
    while k < n
        invariant
            k <= n,
            n == pairs@.len(),
            arena.wf(),
            env.valid(arena),
            arena@.len() == frames0.len(),
            out@.len() == k,
            eval_pairs_spec(spairs, frames0, env.id()).0 == eval_pairs_spec(
                spairs.skip(k as int),
                arena@,
                env.id(),
            ).0,
            eval_pairs_spec(spairs, frames0, env.id()).1 == (match eval_pairs_spec(
                spairs.skip(k as int),
                arena@,
                env.id(),
            ).1 {
                Ok(rest) => Ok::<Seq<(SpecKey, SpecVal)>, SpecErr>(pairs_view(out@) + rest),
                Err(e) => Err::<Seq<(SpecKey, SpecVal)>, SpecErr>(e),
            }),
        decreases n - k,
    {
        proof {
            assert(spairs.skip(k as int)[0] == spairs[k as int]);
            assert(spairs.skip(k as int).skip(1) =~= spairs.skip(k + 1));
            assert(decreases_to!(*pairs => pairs@));
            assert(decreases_to!(pairs@ => pairs@[k as int]));
            assert(decreases_to!(pairs@[k as int] => pairs@[k as int].1));
            lemma_eval_len(spairs[k as int].1, arena@, env.id());
        }
        let key = pairs[k].0.clone();
        match eval(&pairs[k].1, arena, env) {
            Ok(x) => {
                let ghost prev = out@;
                out.push((key, x));
                proof {
                    lemma_pairs_view(prev);
                    lemma_pairs_view(out@);
                    assert(pairs_view(out@) =~= pairs_view(prev).push(
                        (out@.last().0@, out@.last().1@),
                    ));
                    match eval_pairs_spec(spairs.skip(k + 1), arena@, env.id()).1 {
                        Ok(rest) => {
                            assert(pairs_view(prev) + (seq![(spairs[k as int].0, out@.last().1@)]
                                + rest) =~= pairs_view(out@) + rest);
                        },
                        Err(_) => {},
                    }
                }
            },
            Err(e) => {
                return Err(e);
            },
        }
        k = k + 1;
    }
    proof {
        assert(spairs.skip(n as int).len() == 0);
        assert(pairs_view(out@) + Seq::<(SpecKey, SpecVal)>::empty() =~= pairs_view(out@));
    }
    Ok(out)
}

} // verus!
