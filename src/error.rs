use vstd::prelude::*;

verus! {

/// The single error type returned when a pattern cannot be compiled.
#[derive(Clone, Debug)]
pub struct Error {
    kind: ErrorKind,
}

/// What went wrong while compiling a pattern.
#[derive(Clone, Debug)]
pub enum ErrorKind {
    /// The tree handed to the automaton builder breaks a structural rule
    /// (an empty list, an unsupported repetition).
    SyntaxError(String),
    /// The pattern text does not follow the grammar.
    ParseError(String),
    /// A state id fell outside the range of ids that exist or can be made.
    StateIDOverflow { max: usize },
    /// An operation was asked of a state that cannot perform it.
    InvalidState(String),
}

impl View for Error {
    type V = ErrorKind;

    closed spec fn view(&self) -> ErrorKind {
        self.kind
    }
}

impl Error {
    pub fn kind(&self) -> (r: &ErrorKind)
        ensures
            *r == self@,
    {
        &self.kind
    }

    pub(crate) fn syntax(message: &str) -> (r: Self)
        ensures
            r@ matches ErrorKind::SyntaxError(m) && m@ == message@,
    {
        Self { kind: ErrorKind::SyntaxError(message.to_string()) }
    }

    pub(crate) fn parse(message: &str) -> (r: Self)
        ensures
            r@ matches ErrorKind::ParseError(m) && m@ == message@,
    {
        Self { kind: ErrorKind::ParseError(message.to_string()) }
    }

    pub(crate) fn state_id_overflow(max: usize) -> (r: Self)
        ensures
            r@ == (ErrorKind::StateIDOverflow { max }),
    {
        Self { kind: ErrorKind::StateIDOverflow { max } }
    }

    pub(crate) fn invalid_state(message: &str) -> (r: Self)
        ensures
            r@ matches ErrorKind::InvalidState(m) && m@ == message@,
    {
        Self { kind: ErrorKind::InvalidState(message.to_string()) }
    }
}

} // verus!
