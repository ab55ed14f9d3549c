use vstd::prelude::*;

verus! {

/// Why a container could not be built or read.
#[derive(Clone, Copy, Debug, PartialEq, Eq, Structural)]
pub enum ArfError {
    /// The input is cut short or is not laid out as the format demands.
    MalformedInput,
    /// The machine of the ELF object, or the host, is none of the known four.
    UnsupportedArchitecture,
    /// A descriptor line names no known kernel extension.
    UnknownExtension,
    /// A value is too large for the 32-bit field that has to hold it.
    IntegerOverflow,
    /// A name is not valid UTF-8.
    InvalidUtf8,
}

impl ArfError {
    /// A short description for messages.
    pub fn message(&self) -> (text: &'static str)
        ensures
            text@ == self.spec_message(),
    {
        match self {
            ArfError::MalformedInput => "malformed input",
            ArfError::UnsupportedArchitecture => "unsupported architecture",
            ArfError::UnknownExtension => "unknown extension",
            ArfError::IntegerOverflow => "integer overflow",
            ArfError::InvalidUtf8 => "invalid UTF-8",
        }
    }

    /// The text of `message`.
    pub open spec fn spec_message(&self) -> Seq<char> {
        match self {
            ArfError::MalformedInput => "malformed input"@,
            ArfError::UnsupportedArchitecture => "unsupported architecture"@,
            ArfError::UnknownExtension => "unknown extension"@,
            ArfError::IntegerOverflow => "integer overflow"@,
            ArfError::InvalidUtf8 => "invalid UTF-8"@,
        }
    }
}

} // verus!
