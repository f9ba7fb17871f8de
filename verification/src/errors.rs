//! The error of the memory operations.
use vstd::prelude::*;

verus! {

#[derive(Debug)]
pub enum MCSError {
    ParseError(String),
    MethodNotFound(String),
    InvalidParams(String),
    InsufficientScope { tool: String, scope: &'static str },
    MemoryError(String),
    /// A uniqueness rule refused a write that the caller could have avoided,
    /// so that a handler can answer a conflict instead of a store fault.
    ConstraintViolation(String),
    IoError(String),
    JsonError(String),
    SerializationError(String),
}

pub type Result<T> = std::result::Result<T, MCSError>;

impl MCSError {
    /// The JSON-RPC code of the error.
    pub fn error_code(&self) -> (r: i64)
        ensures
            r == (match *self {
                MCSError::ParseError(_) => -32700int,
                MCSError::MethodNotFound(_) => -32601,
                MCSError::InvalidParams(_) => -32602,
                MCSError::InsufficientScope { .. } => -32002,
                MCSError::MemoryError(_) => -32000,
                MCSError::ConstraintViolation(_) => -32005,
                MCSError::IoError(_) => -32003,
                MCSError::JsonError(_) => -32700,
                MCSError::SerializationError(_) => -32004,
            }),
    {
        match self {
            MCSError::ParseError(_) => -32700,
            MCSError::MethodNotFound(_) => -32601,
            MCSError::InvalidParams(_) => -32602,
            MCSError::InsufficientScope { .. } => -32002,
            MCSError::MemoryError(_) => -32000,
            MCSError::ConstraintViolation(_) => -32005,
            MCSError::IoError(_) => -32003,
            MCSError::JsonError(_) => -32700,
            MCSError::SerializationError(_) => -32004,
        }
    }

    /// What the error says.
    pub open spec fn says(&self) -> Seq<char> {
        match *self {
            MCSError::ParseError(m) => "Parse error: "@ + m@,
            MCSError::MethodNotFound(m) => "Method not found: "@ + m@,
            MCSError::InvalidParams(m) => "Invalid params: "@ + m@,
            MCSError::InsufficientScope { tool, scope } => "Insufficient scope: "@ + tool@
                + " needs "@ + scope@,
            MCSError::MemoryError(m) => "Memory error: "@ + m@,
            MCSError::ConstraintViolation(m) => "Constraint violation: "@ + m@,
            MCSError::IoError(m) => "IO error: "@ + m@,
            MCSError::JsonError(m) => "JSON error: "@ + m@,
            MCSError::SerializationError(m) => "Serialization error: "@ + m@,
        }
    }

    /// The error as a line of text.
    pub fn message(&self) -> (r: String)
        ensures
            r@ == self.says(),
    {
        match self {
            MCSError::ParseError(m) => "Parse error: ".to_owned().concat(m),
            MCSError::MethodNotFound(m) => "Method not found: ".to_owned().concat(m),
            MCSError::InvalidParams(m) => "Invalid params: ".to_owned().concat(m),
            MCSError::InsufficientScope { tool, scope } => "Insufficient scope: ".to_owned().concat(
                tool,
            ).concat(" needs ").concat(scope),
            MCSError::MemoryError(m) => "Memory error: ".to_owned().concat(m),
            MCSError::ConstraintViolation(m) => "Constraint violation: ".to_owned().concat(m),
            MCSError::IoError(m) => "IO error: ".to_owned().concat(m),
            MCSError::JsonError(m) => "JSON error: ".to_owned().concat(m),
            MCSError::SerializationError(m) => "Serialization error: ".to_owned().concat(m),
        }
    }
}

/// A refusal of the caller's parameters.
pub fn invalid(message: &str) -> (r: MCSError)
    ensures
        r matches MCSError::InvalidParams(m) && m@ == message@,
{
    MCSError::InvalidParams(message.to_owned())
}

/// A failure of the store.
pub fn memory(message: &str) -> (r: MCSError)
    ensures
        r matches MCSError::MemoryError(m) && m@ == message@,
{
    MCSError::MemoryError(message.to_owned())
}

} // verus!
