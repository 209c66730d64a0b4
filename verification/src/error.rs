use vstd::prelude::*;
use vstd::string::to_string_from_display_ensures;
use std::fmt::Display;

verus! {

/// Why a capture or a replay stopped. Every one of them ends the decode.
#[derive(Debug, Clone, Copy, PartialEq, Eq, Structural)]
pub enum BucketError {
    /// An owned value was asked for after a taking replay had moved it out.
    ConsumedTwice,
    /// The buffer does not hold one complete tree: a composite without its
    /// size, a position behind the last node, or events in an order that no
    /// tree has.
    CorruptBuffer,
    /// A map's keys and values were not asked for, or not given, in turn.
    MapOrderViolation,
}

impl BucketError {
    /// The diagnostic text of this error.
    pub open spec fn message_text(self) -> Seq<char> {
        match self {
            BucketError::ConsumedTwice => "value as already been consumed"@,
            BucketError::CorruptBuffer => "invalid value - no size data"@,
            BucketError::MapOrderViolation => "out-of-order access - keys and values alternate"@,
        }
    }

    /// The diagnostic text from which a caller builds an error of its own kind.
    pub fn message(&self) -> (text: &'static str)
        ensures
            text@ == self.message_text(),
    {
        match self {
            BucketError::ConsumedTwice => "value as already been consumed",
            BucketError::CorruptBuffer => "invalid value - no size data",
            BucketError::MapOrderViolation => "out-of-order access - keys and values alternate",
        }
    }
}

/// An error that is nothing but its message, for callers without an error type
/// of their own.
#[derive(PartialEq, Eq)]
pub struct PseudoError {
    message: String,
}

impl PseudoError {
    /// The message, as the string that was stored.
    pub closed spec fn text(&self) -> String {
        self.message
    }

    /// An error whose message is what `msg` displays as.
    pub fn custom<T: Display>(msg: T) -> (error: Self)
        ensures
            to_string_from_display_ensures::<T>(&msg, error.text()),
    {
        PseudoError { message: msg.to_string() }
    }

    /// The error that carries the diagnostic text of `cause`.
    pub fn from_cause(cause: BucketError) -> (error: Self)
        ensures
            error.text()@ == cause.message_text(),
    {
        PseudoError { message: cause.message().to_owned() }
    }

    /// The message, which is all that this error prints as.
    pub fn to_string(&self) -> (rendered: String)
        ensures
            rendered@ == self.text()@,
    {
        self.message.clone()
    }
}

} // verus!
