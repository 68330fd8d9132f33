//! A minimal Lisp reader, printer and tree-walking evaluator: a tokenizer,
//! a recursive-descent parser producing a tagged value tree, a chained
//! lexical environment with local-only writes, and an evaluator with two
//! special forms (`def!`, `let*`) plus integer arithmetic built-ins.

pub mod env;
pub mod error;
pub mod eval;
pub mod printer;
pub mod reader;
pub mod roundtrip;
pub mod types;

pub use crate::env::Env;
pub use crate::env::EnvArena;
pub use crate::error::MalError;
pub use crate::eval::eval;
pub use crate::reader::Reader;
pub use crate::types::MalData;
pub use crate::types::MalHashMapKey;
pub use crate::types::MalNativeFunction;

use vstd::prelude::*;

use crate::env::{env_set, SpecFrame};
use crate::error::{res_view, str_res_view, SpecErr};
use crate::eval::{eval_spec, lemma_eval_len};
use crate::printer::print_spec;
use crate::reader::read_spec;
use crate::types::SpecVal;
use vstd::string::StringExecFns;

verus! {

/// Reads one input text into one value: empty, whitespace-only or
/// comment-only input reads as `Nil`.
pub fn read(input: String) -> (r: Result<MalData, MalError>)
    ensures
        res_view(r) == read_spec(input@),
{
    let mut parser = Reader::new(input);
    parser.read_input()
}

/// Prints a value in its canonical form.
pub fn print(input: &MalData) -> (r: String)
    ensures
        r@ == print_spec(input@),
{
    let mut out: Vec<char> = Vec::new();
    crate::printer::write_val(input, &mut out);
    crate::types::chars_to_string(&out)
}

/// The arena after the four arithmetic built-ins are installed in frame
/// `id`.
pub open spec fn builtins_loaded(frames: Seq<SpecFrame>, id: int) -> Seq<SpecFrame> {
    env_set(
        env_set(
            env_set(
                env_set(frames, id, "+"@, SpecVal::NativeFunction(MalNativeFunction::Add)),
                id,
                "-"@,
                SpecVal::NativeFunction(MalNativeFunction::Sub),
            ),
            id,
            "*"@,
            SpecVal::NativeFunction(MalNativeFunction::Mul),
        ),
        id,
        "/"@,
        SpecVal::NativeFunction(MalNativeFunction::Div),
    )
}

/// Installs `+`, `-`, `*` and `/` in the given frame, normally the root.
pub fn load_builtins(arena: &mut EnvArena, env: Env)
    requires
        old(arena).wf(),
        env.valid(old(arena)),
    ensures
        final(arena).wf(),
        env.valid(final(arena)),
        final(arena)@ == builtins_loaded(old(arena)@, env.id()),
{
    env.set(arena, String::from_str("+"), MalData::MalNativeFunction(MalNativeFunction::Add));
    env.set(arena, String::from_str("-"), MalData::MalNativeFunction(MalNativeFunction::Sub));
    env.set(arena, String::from_str("*"), MalData::MalNativeFunction(MalNativeFunction::Mul));
    env.set(arena, String::from_str("/"), MalData::MalNativeFunction(MalNativeFunction::Div));
}

/// One read-eval-print cycle: the arena afterward and the printed result
/// or the error.
pub open spec fn rep_spec(input: Seq<char>, frames: Seq<SpecFrame>, cur: int) -> (
    Seq<SpecFrame>,
    Result<Seq<char>, SpecErr>,
) {
    match read_spec(input) {
        Ok(v) => {
            let fr = eval_spec(v, frames, cur);
            (
                fr.0,
                match fr.1 {
                    Ok(x) => Ok(print_spec(x)),
                    Err(e) => Err(e),
                },
            )
        },
        Err(e) => (frames, Err(e)),
    }
}

/// Reads, evaluates and prints one input against the given environment.
pub fn rep(input: String, arena: &mut EnvArena, env: Env) -> (r: Result<String, MalError>)
    requires
        old(arena).wf(),
        env.valid(old(arena)),
    ensures
        final(arena).wf(),
        env.valid(final(arena)),
        final(arena)@ == rep_spec(input@, old(arena)@, env.id()).0,
        str_res_view(r) == rep_spec(input@, old(arena)@, env.id()).1,
{
    let ast = match read(input) {
        Ok(ast) => ast,
        Err(e) => {
            return Err(e);
        },
    };
    proof {
        lemma_eval_len(ast@, arena@, env.id());
    }
    let value = match eval(&ast, arena, env) {
        Ok(value) => value,
        Err(e) => {
            return Err(e);
        },
    };
    Ok(print(&value))
}

} // verus!
