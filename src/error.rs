//! Errors raised while parsing or generating code. None is recoverable: the
//! first one ends the compilation of the translation unit.
use vstd::prelude::*;

verus! {

/// The three families of fatal conditions.
#[derive(Debug, Clone, Copy, PartialEq, Eq, Structural)]
pub enum ErrorKind {
    Syntax,
    Semantic,
    Type,
}

#[derive(Debug, PartialEq, Eq)]
pub enum CompileError {
    /// The token text that was required, the text found, and the line.
    UnexpectedToken(String, String, u32),
    /// A numeric literal was required at this line.
    NumericLiteralExpected(u32),
    /// An identifier was required at this line.
    IdentifierExpected(u32),
    /// A numeric literal at this line has no value in its type.
    MalformedLiteral(u32),
    /// A declaration starts with a keyword that names no type, at this line.
    UnknownType(u32),
    /// A name that no enclosing scope declares.
    UndeclaredIdentifier(String),
    /// A call to a function that the module does not hold yet.
    UndefinedFunction(String),
    /// `&` in front of something that has no storage.
    NotAddressable,
    /// An operator other than `+` and `-` on a pointer, or a pointer in a place
    /// where `+` and `-` cannot take one.
    UnsupportedPointerOp,
    /// Operands of types that the operator does not take (a pointer negated,
    /// an array assigned to).
    UnsupportedOperands,
    /// A pointer operation on a value that is not a pointer.
    NotPointer,
    /// The size of a type that has none (a function), or does not fit.
    NoSize,
    /// A value was needed from a node that does not produce one.
    NotAnExpression,
    /// A node that the generator cannot lower here (a float literal, a nested
    /// function definition).
    Unsupported,
}

impl CompileError {
    pub open spec fn kind_spec(&self) -> ErrorKind {
        match self {
            CompileError::UnexpectedToken(..) | CompileError::NumericLiteralExpected(_)
            | CompileError::IdentifierExpected(_) | CompileError::MalformedLiteral(_) => {
                ErrorKind::Syntax
            },
            CompileError::UnknownType(_) => ErrorKind::Type,
            _ => ErrorKind::Semantic,
        }
    }

    /// Which family this error belongs to.
    pub fn kind(&self) -> (r: ErrorKind)
        ensures
            r == self.kind_spec(),
    {
        match self {
            CompileError::UnexpectedToken(..) | CompileError::NumericLiteralExpected(_)
            | CompileError::IdentifierExpected(_) | CompileError::MalformedLiteral(_) => {
                ErrorKind::Syntax
            },
            CompileError::UnknownType(_) => ErrorKind::Type,
            _ => ErrorKind::Semantic,
        }
    }
}

} // verus!
