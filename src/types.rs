use vstd::prelude::*;

verus! {

/// A request to charge a person with a mistake on a (raw) word.
#[derive(Debug, PartialEq, Eq)]
pub struct MistakeReport {
    pub name: String,
    pub mistake: String,
}

/// A proposed mistake, as submitted and awaiting a decision.
#[derive(Debug, PartialEq, Eq)]
pub struct MistakeSuggestion {
    pub id: i64,
    pub name: String,
    pub mistake: String,
    pub context: String,
}

/// A proposed mistake together with who reported it.
#[derive(Debug, PartialEq, Eq)]
pub struct SuggestedMistake {
    pub mistake: MistakeSuggestion,
    pub reporter: String,
}

/// The resolution of a pending mistake suggestion.
#[derive(Debug, PartialEq, Eq)]
pub struct DiscardMistakeSuggestion {
    pub id: i64,
    pub accepted: bool,
}

/// A canonical word and how many times it was reported.
#[derive(Debug, PartialEq, Eq)]
pub struct CountedMistake {
    pub mistake: String,
    pub count: u32,
}

/// One ledger record: a person and one of their counted mistakes.
#[derive(Debug, PartialEq, Eq)]
pub struct PersonMistake {
    pub name: String,
    pub counted_mistake: CountedMistake,
}

/// All counted mistakes of one person.
#[derive(Debug, PartialEq, Eq)]
pub struct PersonMistakes {
    pub name: String,
    pub counted_mistakes: Vec<CountedMistake>,
}

/// An English word and one Hebrew rendering of it.
#[derive(Debug, PartialEq, Eq)]
pub struct Translation {
    pub english: String,
    pub hebrew: String,
}

/// A translation to store, with who suggested it.
#[derive(Debug, PartialEq, Eq)]
pub struct TranslationAddition {
    pub translation: Translation,
    pub suggestor: String,
}

/// A proposed translation, as submitted and awaiting a decision.
#[derive(Debug, PartialEq, Eq)]
pub struct TranslationSuggestion {
    pub id: i64,
    pub english: String,
    pub hebrew: String,
}

/// A proposed translation together with who suggested it.
#[derive(Debug, PartialEq, Eq)]
pub struct SuggestedTranslation {
    pub translation: TranslationSuggestion,
    pub suggestor: String,
}

/// A request to map `word` (any spelling) to the dictionary form `canonical`.
#[derive(Debug, PartialEq, Eq)]
pub struct CanonicalRequest {
    pub word: String,
    pub canonical: String,
}

/// The audit record left behind when a mistake suggestion is resolved.
#[derive(Debug, PartialEq, Eq)]
pub struct ArchivedMistake {
    pub name: String,
    pub mistake: String,
    pub context: String,
    pub reporter: String,
    pub accepted: bool,
}

} // verus!
