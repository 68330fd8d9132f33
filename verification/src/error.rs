//! The error taxonomy: read-time structural errors and evaluation-time
//! errors. Every error aborts the enclosing `read` or `eval` with no
//! partial result.

use vstd::prelude::*;

use crate::printer::print_spec;
use crate::types::{chars_to_string, MalData, SpecVal};

verus! {

/// Everything that can go wrong while reading or evaluating one input.
#[derive(Debug)]
pub enum MalError {
    /// A `(`, `[` or `{` form ran out of tokens before its closing token.
    UnbalancedBrackets,
    /// A string literal was not cleanly terminated.
    UnbalancedDoubleQuotes,
    /// A `{` form held an odd number of elements.
    UnbalancedHashMap,
    /// A complete form was read but tokens were left over.
    ExpectedEOF { found: String },
    /// A backslash escape other than `\\`, `\"` or `\n`.
    InvalidEscapeSequence,
    /// A keyword token with an empty name.
    InvalidToken,
    /// A hash-map key that is neither a string nor a keyword.
    InvalidHashMapKey,
    /// The token stream ended where a form was required.
    Unexpected { found: String },
    /// A symbol bound in no frame of the environment chain.
    SymbolNotFound(String),
    /// A value of the wrong kind, named by the error.
    TypeError(MalData),
    /// Integer overflow or division by zero in an arithmetic built-in.
    ArithmeticError,
}

/// Ghost mirror of `MalError`.
pub enum SpecErr {
    UnbalancedBrackets,
    UnbalancedDoubleQuotes,
    UnbalancedHashMap,
    ExpectedEOF(Seq<char>),
    InvalidEscapeSequence,
    InvalidToken,
    InvalidHashMapKey,
    Unexpected(Seq<char>),
    SymbolNotFound(Seq<char>),
    TypeError(SpecVal),
    ArithmeticError,
}

impl View for MalError {
    type V = SpecErr;

    open spec fn view(&self) -> SpecErr {
        match self {
            MalError::UnbalancedBrackets => SpecErr::UnbalancedBrackets,
            MalError::UnbalancedDoubleQuotes => SpecErr::UnbalancedDoubleQuotes,
            MalError::UnbalancedHashMap => SpecErr::UnbalancedHashMap,
            MalError::ExpectedEOF { found } => SpecErr::ExpectedEOF(found@),
            MalError::InvalidEscapeSequence => SpecErr::InvalidEscapeSequence,
            MalError::InvalidToken => SpecErr::InvalidToken,
            MalError::InvalidHashMapKey => SpecErr::InvalidHashMapKey,
            MalError::Unexpected { found } => SpecErr::Unexpected(found@),
            MalError::SymbolNotFound(name) => SpecErr::SymbolNotFound(name@),
            MalError::TypeError(value) => SpecErr::TypeError(value@),
            MalError::ArithmeticError => SpecErr::ArithmeticError,
        }
    }
}

/// The displayable message of an error.
pub open spec fn err_message(e: SpecErr) -> Seq<char> {
    match e {
        SpecErr::UnbalancedBrackets => "unbalanced brackets"@,
        SpecErr::UnbalancedDoubleQuotes => "unbalanced double quotes"@,
        SpecErr::UnbalancedHashMap => "unbalanced hashmap"@,
        SpecErr::ExpectedEOF(found) => "expected EOF, found "@ + found,
        SpecErr::InvalidEscapeSequence => "invalid escape sequence"@,
        SpecErr::InvalidToken => "invalid token"@,
        SpecErr::InvalidHashMapKey => "invalid hash map key"@,
        SpecErr::Unexpected(found) => "unexpected "@ + found,
        SpecErr::SymbolNotFound(name) => "symbol not found: "@ + name,
        SpecErr::TypeError(value) => "type error: "@ + print_spec(value),
        SpecErr::ArithmeticError => "arithmetic error"@,
    }
}

/// Ghost view of a value-or-error result.
pub open spec fn res_view(r: Result<MalData, MalError>) -> Result<SpecVal, SpecErr> {
    match r {
        Ok(v) => Ok(v@),
        Err(e) => Err(e@),
    }
}

/// Ghost view of a text-or-error result.
pub open spec fn str_res_view(r: Result<String, MalError>) -> Result<Seq<char>, SpecErr> {
    match r {
        Ok(s) => Ok(s@),
        Err(e) => Err(e@),
    }
}

impl MalError {
    /// Renders the error as its displayable message.
    pub fn message(&self) -> (r: String)
        ensures
            r@ == err_message(self@),
    {
        let mut out: Vec<char> = Vec::new();
        match self {
            MalError::UnbalancedBrackets => {
                crate::printer::push_str_chars("unbalanced brackets", &mut out);
            },
            MalError::UnbalancedDoubleQuotes => {
                crate::printer::push_str_chars("unbalanced double quotes", &mut out);
            },
            MalError::UnbalancedHashMap => {
                crate::printer::push_str_chars("unbalanced hashmap", &mut out);
            },
            MalError::ExpectedEOF { found } => {
                crate::printer::push_str_chars("expected EOF, found ", &mut out);
                crate::printer::push_str_chars(found.as_str(), &mut out);
            },
            MalError::InvalidEscapeSequence => {
                crate::printer::push_str_chars("invalid escape sequence", &mut out);
            },
            MalError::InvalidToken => {
                crate::printer::push_str_chars("invalid token", &mut out);
            },
            MalError::InvalidHashMapKey => {
                crate::printer::push_str_chars("invalid hash map key", &mut out);
            },
            MalError::Unexpected { found } => {
                crate::printer::push_str_chars("unexpected ", &mut out);
                crate::printer::push_str_chars(found.as_str(), &mut out);
            },
            MalError::SymbolNotFound(name) => {
                crate::printer::push_str_chars("symbol not found: ", &mut out);
                crate::printer::push_str_chars(name.as_str(), &mut out);
            },
            MalError::TypeError(value) => {
                crate::printer::push_str_chars("type error: ", &mut out);
                crate::printer::write_val(value, &mut out);
            },
            MalError::ArithmeticError => {
                crate::printer::push_str_chars("arithmetic error", &mut out);
            },
        }
        chars_to_string(&out)
    }
}

} // verus!
