use vstd::prelude::*;

verus! {

/// The failures of the store's operations.
#[derive(Debug, PartialEq, Eq)]
pub enum AppError {
    /// The word has no canonical form.
    UnknownWord(String),
    /// No pending suggestion carries this identifier.
    NotFound(i64),
    /// The participant is already registered.
    DuplicateParticipant(String),
    /// A counter (a mistake count, a suggestion identifier) is at its largest value.
    Exhausted,
    /// The persistent storage below the store failed.
    StorageFault(String),
    /// The caller's credentials were refused.
    AuthError,
}

/// The failure for a word that does not resolve to a canonical form.
pub fn unknown_word_err(word: &str) -> (r: AppError)
    ensures
        r matches AppError::UnknownWord(w) && w@ == word@,
{
    AppError::UnknownWord(word.to_owned())
}

} // verus!
