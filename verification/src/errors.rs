//! Error types of the parser and of the interpreter.

use vstd::prelude::*;
use vstd::string::StringExecFns;

use crate::text::push_char;

verus! {

/// A structural error found while parsing source text.
///
/// Parse errors are a deterministic function of the source text alone and
/// are always reported before any execution begins.
#[derive(Debug, PartialEq, Eq)]
pub enum ParseError {
    /// A run of `>` merged into a single node would exceed the
    /// representable pointer-delta range.
    DataPointerIncrementOverflow,
    /// A run of `<` merged into a single node would exceed the
    /// representable pointer-delta range.
    DataPointerDecrementOverflow,
    /// A bracket without a partner: `']'` for a closing bracket with no
    /// open loop, `'['` for a loop still open at the end of the text.
    UnmatchedSymbol(char),
}

impl ParseError {
    /// A human-readable description of the error.
    pub fn message(&self) -> (r: String)
        ensures
            match self {
                ParseError::DataPointerIncrementOverflow => r@
                    == "data pointer increment overflow"@,
                ParseError::DataPointerDecrementOverflow => r@
                    == "data pointer decrement overflow"@,
                ParseError::UnmatchedSymbol(c) => r@ == "unmatched `"@.push(*c).push('`'),
            },
    {
        match self {
            ParseError::DataPointerIncrementOverflow => "data pointer increment overflow"
                .to_owned(),
            ParseError::DataPointerDecrementOverflow => "data pointer decrement overflow"
                .to_owned(),
            ParseError::UnmatchedSymbol(c) => {
                let mut s = "unmatched `".to_owned();
                push_char(&mut s, *c);
                push_char(&mut s, '`');
                s
            },
        }
    }
}

/// A dynamic error raised while interpreting a parsed program.
#[derive(Debug)]
pub enum InterpretError {
    /// The data pointer would move below zero or past the addressable
    /// ceiling; the pointer is left unmodified.
    DataPointerOutsideMemory,
    /// A loop with an empty body was entered while its guard cell was
    /// nonzero, which could never terminate.
    EmptyLoop,
    /// Writing a byte to the output stream failed; carries a description
    /// of the underlying cause.
    WriteError(String),
    /// The iteration budget of the evaluator was spent before the program
    /// finished.
    StepLimitExceeded,
}

impl InterpretError {
    /// A human-readable description of the error.
    pub fn message(&self) -> (r: String)
        ensures
            match self {
                InterpretError::DataPointerOutsideMemory => r@
                    == "data pointer outside available memory"@,
                InterpretError::EmptyLoop => r@ == "interpreter stuck in an empty loop"@,
                InterpretError::WriteError(cause) => r@ == "output error: "@ + cause@,
                InterpretError::StepLimitExceeded => r@
                    == "interpreter exceeded its iteration budget"@,
            },
    {
        match self {
            InterpretError::DataPointerOutsideMemory => "data pointer outside available memory"
                .to_owned(),
            InterpretError::EmptyLoop => "interpreter stuck in an empty loop".to_owned(),
            InterpretError::WriteError(cause) => {
                let mut s = "output error: ".to_owned();
                s.append(cause.as_str());
                s
            },
            InterpretError::StepLimitExceeded => "interpreter exceeded its iteration budget"
                .to_owned(),
        }
    }
}

} // verus!
