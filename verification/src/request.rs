//! The inputs of the tools that FuncTerm offers over MCP.
use vstd::prelude::*;

verus! {

broadcast use vstd::string::group_string_axioms;

/// What a manual write sends to a tab's keyboard.
#[derive(Debug, PartialEq, Eq)]
pub enum KeyboardInput {
    /// Text, typed as its UTF-8 bytes.
    Text(String),
    /// Raw bytes.
    Bytes(Vec<u8>),
}

/// Why a manual write request was refused.
#[derive(Debug, Clone, Copy, PartialEq, Eq, Structural)]
pub enum ManualWriteError {
    /// Both `text` and `bytes` were given.
    TextAndBytes,
    /// Neither `text` nor `bytes` was given.
    MissingInput,
}

impl ManualWriteError {
    /// The message the request is refused with.
    pub fn message(self) -> (r: &'static str)
        ensures
            self == ManualWriteError::TextAndBytes ==> r@
                == "text and bytes cannot be provided together"@,
            self == ManualWriteError::MissingInput ==> r@
                == "either text or bytes must be provided"@,
    {
        match self {
            ManualWriteError::TextAndBytes => "text and bytes cannot be provided together",
            ManualWriteError::MissingInput => "either text or bytes must be provided",
        }
    }
}

/// The keyboard input of a manual write: exactly one of `text` and `bytes` must be
/// given.
pub fn keyboard_input(text: Option<String>, bytes: Option<Vec<u8>>) -> (r: Result<
    KeyboardInput,
    ManualWriteError,
>)
    ensures
        match (text, bytes) {
            (Some(t), None) => r matches Ok(KeyboardInput::Text(s)) && s@ == t@,
            (None, Some(b)) => r matches Ok(KeyboardInput::Bytes(v)) && v@ == b@,
            (Some(_), Some(_)) => r == Err::<KeyboardInput, ManualWriteError>(
                ManualWriteError::TextAndBytes,
            ),
            (None, None) => r == Err::<KeyboardInput, ManualWriteError>(
                ManualWriteError::MissingInput,
            ),
        },
{
    match (text, bytes) {
        (Some(input_text), None) => Ok(KeyboardInput::Text(input_text)),
        (None, Some(input_bytes)) => Ok(KeyboardInput::Bytes(input_bytes)),
        (Some(_), Some(_)) => Err(ManualWriteError::TextAndBytes),
        (None, None) => Err(ManualWriteError::MissingInput),
    }
}


/// A configured tool or parameter description: an empty one is left out of the schema.
pub fn optional_description(description: &str) -> (r: Option<String>)
    ensures
        description@.len() == 0 ==> r is None,
        description@.len() != 0 ==> (r matches Some(text) && text@ == description@),
{
    if description.is_empty() {
        None
    } else {
        Some(description.to_owned())
    }
}

} // verus!
