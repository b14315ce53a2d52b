use vstd::prelude::*;
use crate::canonical::{lower_of, lowercase};
use crate::error::{unknown_word_err, AppError};
use crate::laws::lemma_entries_complete;
use crate::model::{
    entries_of, group_rows, hebrew_of, lemma_key_index, lemma_mistake_index,
    lemma_mistake_suggestion_index, lemma_runs_push, lemma_runs_unique, lemma_translation_index,
    lemma_translation_suggestion_index, maximal_runs, runs, ArchiveRow, CanonRow, DbModel, Group,
    MistakeRow, MistakeSuggestionRow, TranslationRow, TranslationSuggestionRow,
};
use crate::order::{
    lemma_insert_contains, lemma_insert_sorted, lemma_name_irreflexive, lemma_push_contains,
    name_less, name_precedes, strictly_sorted,
};
use crate::types::{
    ArchivedMistake, CanonicalRequest, CountedMistake, DiscardMistakeSuggestion, MistakeReport,
    MistakeSuggestion, PersonMistake, PersonMistakes, SuggestedMistake, SuggestedTranslation,
    Translation, TranslationAddition, TranslationSuggestion,
};
use itertools::Itertools;

verus! {

// The rows of the model that the stored values stand for, one function per
// table; the plural forms map a whole table.
pub open spec fn canon_row(r: CanonicalRequest) -> CanonRow {
    (r.word@, r.canonical@)
}

pub open spec fn mistake_row(r: PersonMistake) -> MistakeRow {
    (r.name@, r.counted_mistake.mistake@, r.counted_mistake.count)
}

pub open spec fn translation_row(r: TranslationAddition) -> TranslationRow {
    (r.translation.english@, r.translation.hebrew@, r.suggestor@)
}

pub open spec fn mistake_suggestion_row(r: SuggestedMistake) -> MistakeSuggestionRow {
    (r.mistake.id, r.mistake.name@, r.mistake.mistake@, r.mistake.context@, r.reporter@)
}

pub open spec fn archive_row(r: ArchivedMistake) -> ArchiveRow {
    (r.name@, r.mistake@, r.context@, r.reporter@, r.accepted)
}

pub open spec fn translation_suggestion_row(r: SuggestedTranslation) -> TranslationSuggestionRow {
    (r.translation.id, r.translation.english@, r.translation.hebrew@, r.suggestor@)
}

pub open spec fn canon_rows(v: Seq<CanonicalRequest>) -> Seq<CanonRow> {
    v.map_values(|r: CanonicalRequest| canon_row(r))
}

pub open spec fn string_rows(v: Seq<String>) -> Seq<Seq<char>> {
    v.map_values(|s: String| s@)
}

pub open spec fn mistake_rows_of(v: Seq<PersonMistake>) -> Seq<MistakeRow> {
    v.map_values(|r: PersonMistake| mistake_row(r))
}

pub open spec fn translation_rows_of(v: Seq<TranslationAddition>) -> Seq<TranslationRow> {
    v.map_values(|r: TranslationAddition| translation_row(r))
}

pub open spec fn mistake_suggestion_rows(v: Seq<SuggestedMistake>) -> Seq<MistakeSuggestionRow> {
    v.map_values(|r: SuggestedMistake| mistake_suggestion_row(r))
}

pub open spec fn archive_rows(v: Seq<ArchivedMistake>) -> Seq<ArchiveRow> {
    v.map_values(|r: ArchivedMistake| archive_row(r))
}

pub open spec fn translation_suggestion_rows(v: Seq<SuggestedTranslation>) -> Seq<
    TranslationSuggestionRow,
> {
    v.map_values(|r: SuggestedTranslation| translation_suggestion_row(r))
}

/// A counted mistake as a (mistake, count) pair.
pub open spec fn counted_entry(c: CountedMistake) -> (Seq<char>, u32) {
    (c.mistake@, c.count)
}

/// The person of each ledger row.
pub open spec fn names_of(rows: Seq<MistakeRow>) -> Seq<Seq<char>> {
    rows.map_values(|r: MistakeRow| r.0)
}

/// The person of each group.
pub open spec fn group_names(groups: Seq<PersonMistakes>) -> Seq<Seq<char>> {
    groups.map_values(|g: PersonMistakes| g.name@)
}

/// Whether `groups` lists the ledger of `m` by person: one group for each
/// person with mistakes, ordered by name, each holding that person's
/// (mistake, count) pairs in ledger order.
pub open spec fn lists_ledger(m: DbModel, groups: Seq<PersonMistakes>) -> bool {
    &&& strictly_sorted(group_names(groups))
    &&& forall|v: Seq<char>| #[trigger]
        group_names(groups).contains(v) <==> names_of(m.mistakes).contains(v)
    &&& forall|x: int|
        0 <= x < groups.len() ==> counted_entries((#[trigger] groups[x]).counted_mistakes@)
            == entries_of(m.mistakes, groups[x].name@)
}

/// The (mistake, count) pairs of counted mistakes.
pub open spec fn counted_entries(v: Seq<CountedMistake>) -> Seq<(Seq<char>, u32)> {
    v.map_values(|c: CountedMistake| counted_entry(c))
}

/// A listing group as a person and their (mistake, count) pairs.
pub open spec fn group_view(g: PersonMistakes) -> Group {
    (g.name@, counted_entries(g.counted_mistakes@))
}

/// Each listing group as a person and their pairs.
pub open spec fn groups_view(gs: Seq<PersonMistakes>) -> Seq<Group> {
    gs.map_values(|g: PersonMistakes| group_view(g))
}

/// Relies on `Itertools::chunk_by`, keyed by each row's name: consecutive
/// rows whose names are equal form one group, and the groups come in the
/// order of their rows.
#[verifier::external_body]
fn chunk_by_name(rows: Vec<PersonMistake>) -> (r: Vec<PersonMistakes>)
    ensures
        runs(groups_view(r@)) == mistake_rows_of(rows@),
        maximal_runs(groups_view(r@)),
{
    rows.into_iter()
        .chunk_by(|row| row.name.clone())
        .into_iter()
        .map(|(name, group)| PersonMistakes {
            name,
            counted_mistakes: group.map(|row| row.counted_mistake).collect(),
        })
        .collect()
}

/// The characters of an optional string.
pub open spec fn opt_chars(s: Option<String>) -> Option<Seq<char>> {
    match s {
        Some(s) => Some(s@),
        None => None,
    }
}

/// The failure for stored rows that break a table constraint.
fn constraint_fault() -> (e: AppError)
    ensures
        e is StorageFault,
{
    AppError::StorageFault(String::from_str("stored rows break a table constraint"))
}

/// Whether the pairs are pairwise distinct, compared by their characters.
fn pairs_distinct(v: &Vec<(String, String)>) -> (r: bool)
    ensures
        r == forall|a: int, b: int|
            0 <= a < b < v@.len() ==> (v@[a].0@ != v@[b].0@ || v@[a].1@ != v@[b].1@),
{
    let mut a: usize = 0;
    while a < v.len()
        invariant
            a <= v.len(),
            forall|x: int, y: int|
                0 <= x < a && x < y < v@.len() ==> (v@[x].0@ != v@[y].0@ || v@[x].1@ != v@[y].1@),
        decreases v.len() - a,
    {
        let mut b: usize = a + 1;
        while b < v.len()
            invariant
                a < v.len(),
                a + 1 <= b <= v.len(),
                forall|x: int, y: int|
                    0 <= x < a && x < y < v@.len() ==> (v@[x].0@ != v@[y].0@ || v@[x].1@
                        != v@[y].1@),
                forall|y: int| a < y < b ==> (v@[a as int].0@ != v@[y].0@ || v@[a as int].1@ != v@[y].1@),
            decreases v.len() - b,
        {
            if v[a].0 == v[b].0 && v[a].1 == v[b].1 {
                return false;
            }
            b += 1;
        }
        a += 1;
    }
    true
}

/// The identifier that follows the given ones, where they are positive and
/// strictly increasing and the last is below the largest `i64`: one more than
/// the last, or 1 where there are none.
fn next_id_after(ids: &Vec<i64>) -> (r: Option<i64>)
    ensures
        match r {
            Some(next) => {
                &&& next >= 1
                &&& forall|a: int, b: int| 0 <= a < b < ids@.len() ==> ids@[a] < ids@[b]
                &&& forall|a: int| 0 <= a < ids@.len() ==> 1 <= #[trigger] ids@[a] < next
                &&& next == if ids@.len() == 0 { 1 } else { ids@.last() + 1 }
            },
            None => !(forall|a: int, b: int| 0 <= a < b < ids@.len() ==> ids@[a] < ids@[b])
                || exists|a: int| 0 <= a < ids@.len() && #[trigger] ids@[a] < 1
                || (ids@.len() > 0 && ids@.last() == i64::MAX),
        },
{
    let mut last: i64 = 0;
    let mut i: usize = 0;
    while i < ids.len()
        invariant
            i <= ids.len(),
            i == 0 ==> last == 0,
            i > 0 ==> last == ids@[i - 1],
            forall|a: int, b: int| 0 <= a < b < i ==> ids@[a] < ids@[b],
            forall|a: int| 0 <= a < i ==> 1 <= #[trigger] ids@[a] <= last,
        decreases ids.len() - i,
    {
        let id = ids[i];
        if id <= last {
            if i == 0 {
                assert(ids@[0] < 1);
            } else {
                assert(ids@[i - 1] >= ids@[i as int]);
            }
            return None;
        }
        last = id;
        i += 1;
    }
    if last == i64::MAX {
        return None;
    }
    Some(last + 1)
}

/// Whether no two canonicalization rows share a key.
fn canonical_keys_distinct(rows: &Vec<CanonicalRequest>) -> (r: bool)
    ensures
        r == forall|a: int, b: int|
            0 <= a < b < rows@.len() ==> canon_rows(rows@)[a].0 != canon_rows(rows@)[b].0,
{
    let mut keys: Vec<(String, String)> = Vec::new();
    let mut i: usize = 0;
    while i < rows.len()
        invariant
            i <= rows.len(),
            keys@.len() == i,
            forall|k: int|
                0 <= k < i ==> (#[trigger] keys@[k]).0@ == canon_rows(rows@)[k].0 && keys@[k].1@
                    == Seq::<char>::empty(),
        decreases rows.len() - i,
    {
        keys.push((rows[i].word.clone(), String::new()));
        i += 1;
    }
    let r = pairs_distinct(&keys);
    proof {
        if !r {
            let (a, b) = choose|a: int, b: int|
                0 <= a < b < keys@.len() && !(keys@[a].0@ != keys@[b].0@ || keys@[a].1@
                    != keys@[b].1@);
            assert(canon_rows(rows@)[a].0 == canon_rows(rows@)[b].0);
        } else {
            assert forall|a: int, b: int| 0 <= a < b < rows@.len() implies canon_rows(rows@)[a].0
                != canon_rows(rows@)[b].0 by {
                assert(keys@[a].0@ != keys@[b].0@ || keys@[a].1@ != keys@[b].1@);
            }
        }
    }
    r
}

/// Whether no name is registered twice.
fn participants_distinct(rows: &Vec<String>) -> (r: bool)
    ensures
        r == forall|a: int, b: int|
            0 <= a < b < rows@.len() ==> string_rows(rows@)[a] != string_rows(rows@)[b],
{
    let mut names: Vec<(String, String)> = Vec::new();
    let mut i: usize = 0;
    while i < rows.len()
        invariant
            i <= rows.len(),
            names@.len() == i,
            forall|k: int|
                0 <= k < i ==> (#[trigger] names@[k]).0@ == string_rows(rows@)[k] && names@[k].1@
                    == Seq::<char>::empty(),
        decreases rows.len() - i,
    {
        names.push((rows[i].clone(), String::new()));
        i += 1;
    }
    let r = pairs_distinct(&names);
    proof {
        if !r {
            let (a, b) = choose|a: int, b: int|
                0 <= a < b < names@.len() && !(names@[a].0@ != names@[b].0@ || names@[a].1@
                    != names@[b].1@);
            assert(string_rows(rows@)[a] == string_rows(rows@)[b]);
        } else {
            assert forall|a: int, b: int| 0 <= a < b < rows@.len() implies string_rows(rows@)[a]
                != string_rows(rows@)[b] by {
                assert(names@[a].0@ != names@[b].0@ || names@[a].1@ != names@[b].1@);
            }
        }
    }
    r
}

/// Whether every ledger row counts at least one and no pair has two rows.
fn ledger_valid(rows: &Vec<PersonMistake>) -> (r: bool)
    ensures
        r == ((forall|a: int| 0 <= a < rows@.len() ==> (#[trigger] mistake_rows_of(rows@)[a]).2 >= 1)
            && forall|a: int, b: int|
            0 <= a < b < rows@.len() ==> (mistake_rows_of(rows@)[a].0 != mistake_rows_of(
                rows@,
            )[b].0 || mistake_rows_of(rows@)[a].1 != mistake_rows_of(rows@)[b].1)),
{
    let ghost v = mistake_rows_of(rows@);
    let mut pairs: Vec<(String, String)> = Vec::new();
    let mut i: usize = 0;
    while i < rows.len()
        invariant
            i <= rows.len(),
            v == mistake_rows_of(rows@),
            pairs@.len() == i,
            forall|k: int|
                0 <= k < i ==> (#[trigger] pairs@[k]).0@ == v[k].0 && pairs@[k].1@ == v[k].1,
            forall|k: int| 0 <= k < i ==> (#[trigger] v[k]).2 >= 1,
        decreases rows.len() - i,
    {
        let row = &rows[i];
        if row.counted_mistake.count == 0 {
            assert(v[i as int].2 == 0);
            return false;
        }
        pairs.push((row.name.clone(), row.counted_mistake.mistake.clone()));
        i += 1;
    }
    let r = pairs_distinct(&pairs);
    proof {
        if !r {
            let (a, b) = choose|a: int, b: int|
                0 <= a < b < pairs@.len() && !(pairs@[a].0@ != pairs@[b].0@ || pairs@[a].1@
                    != pairs@[b].1@);
            assert(v[a].0 == v[b].0 && v[a].1 == v[b].1);
        } else {
            assert forall|a: int, b: int| 0 <= a < b < rows@.len() implies (v[a].0 != v[b].0
                || v[a].1 != v[b].1) by {
                assert(pairs@[a].0@ != pairs@[b].0@ || pairs@[a].1@ != pairs@[b].1@);
            }
        }
    }
    r
}

/// Whether no (English, Hebrew) pair has two rows.
fn translation_pairs_distinct(rows: &Vec<TranslationAddition>) -> (r: bool)
    ensures
        r == forall|a: int, b: int|
            0 <= a < b < rows@.len() ==> (translation_rows_of(rows@)[a].0 != translation_rows_of(
                rows@,
            )[b].0 || translation_rows_of(rows@)[a].1 != translation_rows_of(rows@)[b].1),
{
    let ghost v = translation_rows_of(rows@);
    let mut pairs: Vec<(String, String)> = Vec::new();
    let mut i: usize = 0;
    while i < rows.len()
        invariant
            i <= rows.len(),
            v == translation_rows_of(rows@),
            pairs@.len() == i,
            forall|k: int|
                0 <= k < i ==> (#[trigger] pairs@[k]).0@ == v[k].0 && pairs@[k].1@ == v[k].1,
        decreases rows.len() - i,
    {
        let row = &rows[i];
        pairs.push((row.translation.english.clone(), row.translation.hebrew.clone()));
        i += 1;
    }
    let r = pairs_distinct(&pairs);
    proof {
        if !r {
            let (a, b) = choose|a: int, b: int|
                0 <= a < b < pairs@.len() && !(pairs@[a].0@ != pairs@[b].0@ || pairs@[a].1@
                    != pairs@[b].1@);
            assert(v[a].0 == v[b].0 && v[a].1 == v[b].1);
        } else {
            assert forall|a: int, b: int| 0 <= a < b < rows@.len() implies (v[a].0 != v[b].0
                || v[a].1 != v[b].1) by {
                assert(pairs@[a].0@ != pairs@[b].0@ || pairs@[a].1@ != pairs@[b].1@);
            }
        }
    }
    r
}

/// The identifiers of the pending mistake suggestions.
fn mistake_suggestion_ids(rows: &Vec<SuggestedMistake>) -> (r: Vec<i64>)
    ensures
        r@.len() == rows@.len(),
        forall|k: int| 0 <= k < r@.len() ==> #[trigger] r@[k] == mistake_suggestion_rows(rows@)[k].0,
{
    let mut ids: Vec<i64> = Vec::new();
    let mut i: usize = 0;
    while i < rows.len()
        invariant
            i <= rows.len(),
            ids@.len() == i,
            forall|k: int| 0 <= k < i ==> #[trigger] ids@[k] == mistake_suggestion_rows(rows@)[k].0,
        decreases rows.len() - i,
    {
        ids.push(rows[i].mistake.id);
        i += 1;
    }
    ids
}

/// The identifiers of the pending translation suggestions.
fn translation_suggestion_ids(rows: &Vec<SuggestedTranslation>) -> (r: Vec<i64>)
    ensures
        r@.len() == rows@.len(),
        forall|k: int|
            0 <= k < r@.len() ==> #[trigger] r@[k] == translation_suggestion_rows(rows@)[k].0,
{
    let mut ids: Vec<i64> = Vec::new();
    let mut i: usize = 0;
    while i < rows.len()
        invariant
            i <= rows.len(),
            ids@.len() == i,
            forall|k: int|
                0 <= k < i ==> #[trigger] ids@[k] == translation_suggestion_rows(rows@)[k].0,
        decreases rows.len() - i,
    {
        ids.push(rows[i].translation.id);
        i += 1;
    }
    ids
}

/// The contents of every table, as read back from persistent storage, each
/// in row order.
#[derive(Debug)]
pub struct StoredTables {
    pub canonical_words: Vec<CanonicalRequest>,
    pub participants: Vec<String>,
    pub mistakes: Vec<PersonMistake>,
    pub translations: Vec<TranslationAddition>,
    pub mistake_suggestions: Vec<SuggestedMistake>,
    pub mistake_archive: Vec<ArchivedMistake>,
    pub translation_suggestions: Vec<SuggestedTranslation>,
}

/// The identifier after that of the last pending mistake suggestion, or 1
/// where there is none.
pub open spec fn next_after_mistake_suggestions(rows: Seq<MistakeSuggestionRow>) -> i64 {
    if rows.len() == 0 {
        1
    } else {
        (rows.last().0 + 1) as i64
    }
}

/// The identifier after that of the last pending translation suggestion, or
/// 1 where there is none.
pub open spec fn next_after_translation_suggestions(rows: Seq<TranslationSuggestionRow>) -> i64 {
    if rows.len() == 0 {
        1
    } else {
        (rows.last().0 + 1) as i64
    }
}

/// The store whose tables hold exactly the stored rows, with identifiers
/// continuing after the last stored suggestion of each kind.
pub open spec fn stored_model(t: StoredTables) -> DbModel {
    DbModel {
        canonical: canon_rows(t.canonical_words@),
        participants: string_rows(t.participants@),
        mistakes: mistake_rows_of(t.mistakes@),
        translations: translation_rows_of(t.translations@),
        mistake_suggestions: mistake_suggestion_rows(t.mistake_suggestions@),
        mistake_archive: archive_rows(t.mistake_archive@),
        translation_suggestions: translation_suggestion_rows(t.translation_suggestions@),
        next_mistake_suggestion_id: next_after_mistake_suggestions(
            mistake_suggestion_rows(t.mistake_suggestions@),
        ),
        next_translation_suggestion_id: next_after_translation_suggestions(
            translation_suggestion_rows(t.translation_suggestions@),
        ),
    }
}

/// The storage gateway: sole owner of every table. Each operation takes the
/// store exclusively (`&mut self` for writes), so operations apply one at a
/// time, in the order in which callers obtain the store.
#[derive(Debug)]
pub struct HebrewDb {
    canonical_words: Vec<CanonicalRequest>,
    participants: Vec<String>,
    mistakes: Vec<PersonMistake>,
    translations: Vec<TranslationAddition>,
    mistake_suggestions: Vec<SuggestedMistake>,
    mistake_archive: Vec<ArchivedMistake>,
    translation_suggestions: Vec<SuggestedTranslation>,
    next_mistake_suggestion_id: i64,
    next_translation_suggestion_id: i64,
}

impl View for HebrewDb {
    type V = DbModel;

    closed spec fn view(&self) -> DbModel {
        DbModel {
            canonical: canon_rows(self.canonical_words@),
            participants: string_rows(self.participants@),
            mistakes: mistake_rows_of(self.mistakes@),
            translations: translation_rows_of(self.translations@),
            mistake_suggestions: mistake_suggestion_rows(self.mistake_suggestions@),
            mistake_archive: archive_rows(self.mistake_archive@),
            translation_suggestions: translation_suggestion_rows(self.translation_suggestions@),
            next_mistake_suggestion_id: self.next_mistake_suggestion_id,
            next_translation_suggestion_id: self.next_translation_suggestion_id,
        }
    }
}

impl HebrewDb {
    /// An empty store.
    pub fn new() -> (r: HebrewDb)
        ensures
            r@ == DbModel::empty(),
            r@.wf(),
    {
        let r = HebrewDb {
            canonical_words: Vec::new(),
            participants: Vec::new(),
            mistakes: Vec::new(),
            translations: Vec::new(),
            mistake_suggestions: Vec::new(),
            mistake_archive: Vec::new(),
            translation_suggestions: Vec::new(),
            next_mistake_suggestion_id: 1,
            next_translation_suggestion_id: 1,
        };
        assert(r@.canonical =~= Seq::empty());
        assert(r@.participants =~= Seq::empty());
        assert(r@.mistakes =~= Seq::empty());
        assert(r@.translations =~= Seq::empty());
        assert(r@.mistake_suggestions =~= Seq::empty());
        assert(r@.mistake_archive =~= Seq::empty());
        assert(r@.translation_suggestions =~= Seq::empty());
        r
    }

    /// The index of the canonicalization row stored under `key`.
    fn key_position(&self, key: &String) -> (r: Option<usize>)
        requires
            self@.wf(),
        ensures
            match r {
                Some(i) => self@.has_key(key@) && self@.key_index(key@) == i,
                None => !self@.has_key(key@),
            },
    {
        let mut i: usize = 0;
        while i < self.canonical_words.len()
            invariant
                self@.wf(),
                i <= self.canonical_words.len(),
                forall|j: int| 0 <= j < i ==> self@.canonical[j].0 != key@,
            decreases self.canonical_words.len() - i,
        {
            if self.canonical_words[i].word == *key {
                proof {
                    lemma_key_index(self@, i as int);
                }
                return Some(i);
            }
            i += 1;
        }
        None
    }

    /// Resolves a raw word to its canonical form: the word is lower-cased and
    /// looked up; `None` where no canonical form is recorded.
    pub fn canonicalize(&self, word: &str) -> (r: Option<String>)
        requires
            self@.wf(),
        ensures
            opt_chars(r) == self@.canonical_of(word@),
    {
        let key = lowercase(word);
        match self.key_position(&key) {
            Some(i) => Some(self.canonical_words[i].canonical.clone()),
            None => None,
        }
    }

    /// Whether the word resolves to a canonical form.
    pub fn is_known_word(&self, word: &str) -> (r: bool)
        requires
            self@.wf(),
        ensures
            r == self@.canonical_of(word@).is_some(),
    {
        self.canonicalize(word).is_some()
    }

    /// The canonical form of the word, or `UnknownWord` where it has none.
    pub fn canonicalize_word(&self, word: &str) -> (r: Result<String, AppError>)
        requires
            self@.wf(),
        ensures
            match r {
                Ok(c) => self@.canonical_of(word@) == Some(c@),
                Err(e) => self@.canonical_of(word@).is_none() && (e matches AppError::UnknownWord(w)
                    && w@ == word@),
            },
    {
        match self.canonicalize(word) {
            Some(c) => Ok(c),
            None => Err(unknown_word_err(word)),
        }
    }

    /// Writes the row `key -> canonical`, in place where the key is present.
    fn put_canonical_row(&mut self, key: String, canonical: String)
        requires
            old(self)@.wf(),
        ensures
            final(self)@.wf(),
            final(self)@ == old(self)@.with_canon_row(key@, canonical@),
    {
        let ghost k = key@;
        let ghost c = canonical@;
        match self.key_position(&key) {
            Some(i) => {
                self.canonical_words.set(i, CanonicalRequest { word: key, canonical });
                assert(self@.canonical =~= old(self)@.canonical.update(i as int, (k, c)));
            },
            None => {
                self.canonical_words.push(CanonicalRequest { word: key, canonical });
                assert(self@.canonical =~= old(self)@.canonical.push((k, c)));
                assert forall|a: int, b: int|
                    0 <= a < b < self@.canonical.len() implies self@.canonical[a].0
                    != self@.canonical[b].0 by {
                    if b == old(self)@.canonical.len() {
                        assert(old(self)@.canonical[a].0 != k);
                    }
                }
            },
        }
        assert(self@.participants =~= old(self)@.participants);
        assert(self@.mistakes =~= old(self)@.mistakes);
        assert(self@.translations =~= old(self)@.translations);
        assert(self@.mistake_suggestions =~= old(self)@.mistake_suggestions);
        assert(self@.mistake_archive =~= old(self)@.mistake_archive);
        assert(self@.translation_suggestions =~= old(self)@.translation_suggestions);
    }

    /// Defines `word` (any spelling) as the canonical form `canonical`, and
    /// `canonical` as its own canonical form. Both rows are written within
    /// the one exclusive operation; a redefinition overwrites the old target.
    pub fn add_canonical(&mut self, request: CanonicalRequest) -> (r: Result<(), AppError>)
        requires
            old(self)@.wf(),
        ensures
            r is Ok,
            final(self)@.wf(),
            final(self)@ == old(self)@.with_definition(request.word@, request.canonical@),
    {
        let key = lowercase(request.word.as_str());
        let own_key = lowercase(request.canonical.as_str());
        let target = request.canonical.clone();
        self.put_canonical_row(key, target);
        self.put_canonical_row(own_key, request.canonical);
        Ok(())
    }
    /// The index of the ledger row of the pair (`name`, `mistake`).
    fn mistake_position(&self, name: &String, mistake: &String) -> (r: Option<usize>)
        requires
            self@.wf(),
        ensures
            match r {
                Some(i) => self@.has_mistake(name@, mistake@) && self@.mistake_index(name@, mistake@)
                    == i,
                None => !self@.has_mistake(name@, mistake@),
            },
    {
        let mut i: usize = 0;
        while i < self.mistakes.len()
            invariant
                self@.wf(),
                i <= self.mistakes.len(),
                forall|j: int|
                    0 <= j < i ==> !(self@.mistakes[j].0 == name@ && self@.mistakes[j].1
                        == mistake@),
            decreases self.mistakes.len() - i,
        {
            let row = &self.mistakes[i];
            if row.name == *name && row.counted_mistake.mistake == *mistake {
                proof {
                    lemma_mistake_index(self@, i as int);
                }
                return Some(i);
            }
            i += 1;
        }
        None
    }

    /// Charges `name` with one more occurrence of the canonical word
    /// `mistake`, as one insert-or-increment step, and returns the record as
    /// it stands afterwards.
    fn report_mistake_canonical(&mut self, mistake: String, name: String) -> (r: Result<
        PersonMistake,
        AppError,
    >)
        requires
            old(self)@.wf(),
        ensures
            final(self)@.wf(),
            if old(self)@.can_report(name@, mistake@) {
                final(self)@ == old(self)@.with_report(name@, mistake@) && (r matches Ok(pm)
                    && mistake_row(pm) == (name@, mistake@, (old(self)@.count_of(name@, mistake@)
                    + 1) as u32))
            } else {
                final(self)@ == old(self)@ && r matches Err(AppError::Exhausted)
            },
    {
        let ghost n = name@;
        let ghost m = mistake@;
        let count: u32;
        match self.mistake_position(&name, &mistake) {
            Some(i) => {
                let current = self.mistakes[i].counted_mistake.count;
                if current == u32::MAX {
                    return Err(AppError::Exhausted);
                }
                count = current + 1;
                let row = PersonMistake {
                    name: name.clone(),
                    counted_mistake: CountedMistake { mistake: mistake.clone(), count },
                };
                self.mistakes.set(i, row);
                assert(self@.mistakes =~= old(self)@.mistakes.update(i as int, (n, m, count)));
            },
            None => {
                count = 1;
                let row = PersonMistake {
                    name: name.clone(),
                    counted_mistake: CountedMistake { mistake: mistake.clone(), count },
                };
                self.mistakes.push(row);
                assert(self@.mistakes =~= old(self)@.mistakes.push((n, m, count)));
                assert forall|a: int, b: int|
                    0 <= a < b < self@.mistakes.len() implies (self@.mistakes[a].0
                    != self@.mistakes[b].0 || self@.mistakes[a].1 != self@.mistakes[b].1) by {
                    if b == old(self)@.mistakes.len() {
                        assert(!(old(self)@.mistakes[a].0 == n && old(self)@.mistakes[a].1 == m));
                    }
                }
            },
        }
        assert(self@.canonical =~= old(self)@.canonical);
        assert(self@.participants =~= old(self)@.participants);
        assert(self@.translations =~= old(self)@.translations);
        assert(self@.mistake_suggestions =~= old(self)@.mistake_suggestions);
        assert(self@.mistake_archive =~= old(self)@.mistake_archive);
        assert(self@.translation_suggestions =~= old(self)@.translation_suggestions);
        Ok(PersonMistake { name, counted_mistake: CountedMistake { mistake, count } })
    }

    /// Charges the person with the raw word: fails with
    /// `UnknownWord` where the word does not resolve, otherwise counts one
    /// more occurrence of its canonical form and returns the record.
    pub fn report_mistake(&mut self, report: MistakeReport) -> (r: Result<PersonMistake, AppError>)
        requires
            old(self)@.wf(),
        ensures
            final(self)@.wf(),
            match old(self)@.canonical_of(report.mistake@) {
                None => final(self)@ == old(self)@ && (r matches Err(AppError::UnknownWord(w))
                    && w@ == report.mistake@),
                Some(c) => if old(self)@.can_report(report.name@, c) {
                    final(self)@ == old(self)@.with_report(report.name@, c) && (r matches Ok(pm)
                        && mistake_row(pm) == (report.name@, c, (old(self)@.count_of(
                        report.name@,
                        c,
                    ) + 1) as u32))
                } else {
                    final(self)@ == old(self)@ && r matches Err(AppError::Exhausted)
                },
            },
    {
        match self.canonicalize(report.mistake.as_str()) {
            Some(c) => self.report_mistake_canonical(c, report.name),
            None => Err(unknown_word_err(report.mistake.as_str())),
        }
    }

    /// The counted mistakes of one person, in ledger order; empty where the
    /// person has none.
    pub fn mistakes(&self, name: &str) -> (r: PersonMistakes)
        requires
            self@.wf(),
        ensures
            r.name@ == name@,
            counted_entries(r.counted_mistakes@) == entries_of(self@.mistakes, name@),
    {
        let owned = name.to_owned();
        let mut out: Vec<CountedMistake> = Vec::new();
        let mut i: usize = 0;
        while i < self.mistakes.len()
            invariant
                i <= self.mistakes.len(),
                owned@ == name@,
                counted_entries(out@) == entries_of(self@.mistakes.subrange(0, i as int), name@),
            decreases self.mistakes.len() - i,
        {
            let row = &self.mistakes[i];
            let ghost before = out@;
            assert(self@.mistakes.subrange(0, i + 1).drop_last() =~= self@.mistakes.subrange(
                0,
                i as int,
            ));
            if row.name == owned {
                out.push(
                    CountedMistake {
                        mistake: row.counted_mistake.mistake.clone(),
                        count: row.counted_mistake.count,
                    },
                );
                assert(counted_entries(out@) =~= counted_entries(before).push(
                    (self@.mistakes[i as int].1, self@.mistakes[i as int].2),
                ));
            }
            i += 1;
        }
        assert(self@.mistakes.subrange(0, self.mistakes.len() as int) =~= self@.mistakes);
        PersonMistakes { name: owned, counted_mistakes: out }
    }

    /// The registered participants, in order of registration.
    pub fn participants(&self) -> (r: Vec<String>)
        requires
            self@.wf(),
        ensures
            r@.map_values(|s: String| s@) == self@.participants,
    {
        let mut out: Vec<String> = Vec::new();
        let mut i: usize = 0;
        while i < self.participants.len()
            invariant
                i <= self.participants.len(),
                out@.len() == i,
                forall|j: int| 0 <= j < i ==> out@[j]@ == self@.participants[j],
            decreases self.participants.len() - i,
        {
            out.push(self.participants[i].clone());
            i += 1;
        }
        assert(out@.map_values(|s: String| s@) =~= self@.participants);
        out
    }

    /// Registers a participant; `DuplicateParticipant` where the name is
    /// already registered.
    pub fn add_participant(&mut self, name: &str) -> (r: Result<(), AppError>)
        requires
            old(self)@.wf(),
        ensures
            final(self)@.wf(),
            if old(self)@.has_participant(name@) {
                final(self)@ == old(self)@ && (r matches Err(AppError::DuplicateParticipant(n))
                    && n@ == name@)
            } else {
                final(self)@ == old(self)@.with_participant(name@) && r is Ok
            },
    {
        let owned = name.to_owned();
        let mut i: usize = 0;
        while i < self.participants.len()
            invariant
                self@.wf(),
                i <= self.participants.len(),
                owned@ == name@,
                forall|j: int| 0 <= j < i ==> self@.participants[j] != name@,
            decreases self.participants.len() - i,
        {
            if self.participants[i] == owned {
                assert(self@.participants[i as int] == name@);
                return Err(AppError::DuplicateParticipant(owned));
            }
            i += 1;
        }
        self.participants.push(owned);
        assert(self@.participants =~= old(self)@.participants.push(name@));
        assert(self@.canonical =~= old(self)@.canonical);
        assert(self@.mistakes =~= old(self)@.mistakes);
        assert(self@.translations =~= old(self)@.translations);
        assert(self@.mistake_suggestions =~= old(self)@.mistake_suggestions);
        assert(self@.mistake_archive =~= old(self)@.mistake_archive);
        assert(self@.translation_suggestions =~= old(self)@.translation_suggestions);
        assert forall|a: int, b: int|
            0 <= a < b < self@.participants.len() implies self@.participants[a]
            != self@.participants[b] by {
            if b == old(self)@.participants.len() {
                assert(old(self)@.participants[a] != name@);
            }
        }
        Ok(())
    }
    /// The index of the translation row of the pair (`english`, `hebrew`).
    fn translation_position(&self, english: &String, hebrew: &String) -> (r: Option<usize>)
        requires
            self@.wf(),
        ensures
            match r {
                Some(i) => self@.has_translation(english@, hebrew@) && self@.translation_index(
                    english@,
                    hebrew@,
                ) == i,
                None => !self@.has_translation(english@, hebrew@),
            },
    {
        let mut i: usize = 0;
        while i < self.translations.len()
            invariant
                self@.wf(),
                i <= self.translations.len(),
                forall|j: int|
                    0 <= j < i ==> !(self@.translations[j].0 == english@ && self@.translations[j].1
                        == hebrew@),
            decreases self.translations.len() - i,
        {
            let row = &self.translations[i];
            if row.translation.english == *english && row.translation.hebrew == *hebrew {
                proof {
                    lemma_translation_index(self@, i as int);
                }
                return Some(i);
            }
            i += 1;
        }
        None
    }

    /// Stores the pair (canonical English, Hebrew) with its suggestor: a pair
    /// already present keeps its place and takes the new suggestor.
    fn add_translation_canonical(&mut self, english: String, hebrew: String, suggestor: String)
        requires
            old(self)@.wf(),
        ensures
            final(self)@.wf(),
            final(self)@ == old(self)@.with_translation(english@, hebrew@, suggestor@),
    {
        let ghost row = (english@, hebrew@, suggestor@);
        match self.translation_position(&english, &hebrew) {
            Some(i) => {
                let t = TranslationAddition { translation: Translation { english, hebrew }, suggestor };
                self.translations.set(i, t);
                assert(self@.translations =~= old(self)@.translations.update(i as int, row));
            },
            None => {
                let t = TranslationAddition { translation: Translation { english, hebrew }, suggestor };
                self.translations.push(t);
                assert(self@.translations =~= old(self)@.translations.push(row));
                assert forall|a: int, b: int|
                    0 <= a < b < self@.translations.len() implies (self@.translations[a].0
                    != self@.translations[b].0 || self@.translations[a].1
                    != self@.translations[b].1) by {
                    if b == old(self)@.translations.len() {
                        assert(!(old(self)@.translations[a].0 == row.0
                            && old(self)@.translations[a].1 == row.1));
                    }
                }
            },
        }
        assert(self@.canonical =~= old(self)@.canonical);
        assert(self@.participants =~= old(self)@.participants);
        assert(self@.mistakes =~= old(self)@.mistakes);
        assert(self@.mistake_suggestions =~= old(self)@.mistake_suggestions);
        assert(self@.mistake_archive =~= old(self)@.mistake_archive);
        assert(self@.translation_suggestions =~= old(self)@.translation_suggestions);
    }

    /// Upserts a translation of a raw English word: `UnknownWord` where the
    /// word does not resolve; otherwise the pair is stored under the word's
    /// canonical form.
    pub fn add_translation(&mut self, translation: TranslationAddition) -> (r: Result<(), AppError>)
        requires
            old(self)@.wf(),
        ensures
            final(self)@.wf(),
            match old(self)@.canonical_of(translation.translation.english@) {
                None => final(self)@ == old(self)@ && (r matches Err(AppError::UnknownWord(w))
                    && w@ == translation.translation.english@),
                Some(c) => final(self)@ == old(self)@.with_translation(
                    c,
                    translation.translation.hebrew@,
                    translation.suggestor@,
                ) && r is Ok,
            },
    {
        match self.canonicalize(translation.translation.english.as_str()) {
            Some(c) => {
                self.add_translation_canonical(
                    c,
                    translation.translation.hebrew,
                    translation.suggestor,
                );
                Ok(())
            },
            None => Err(unknown_word_err(translation.translation.english.as_str())),
        }
    }

    /// The Hebrew renderings of a raw English word, in order of first
    /// insertion; empty both where the word is unknown and where it has no
    /// translation yet.
    pub fn translate(&self, english: &str) -> (r: Vec<String>)
        requires
            self@.wf(),
        ensures
            r@.map_values(|s: String| s@) == self@.translations_of(english@),
    {
        match self.canonicalize(english) {
            Some(c) => self.translate_canonical(&c),
            None => {
                let out: Vec<String> = Vec::new();
                assert(out@.map_values(|s: String| s@) =~= Seq::<Seq<char>>::empty());
                out
            },
        }
    }

    /// The Hebrew renderings stored for a canonical English word.
    fn translate_canonical(&self, canonical: &String) -> (r: Vec<String>)
        ensures
            r@.map_values(|s: String| s@) == hebrew_of(self@.translations, canonical@),
    {
        let mut out: Vec<String> = Vec::new();
        let mut i: usize = 0;
        while i < self.translations.len()
            invariant
                i <= self.translations.len(),
                out@.map_values(|s: String| s@) == hebrew_of(
                    self@.translations.subrange(0, i as int),
                    canonical@,
                ),
            decreases self.translations.len() - i,
        {
            let row = &self.translations[i];
            let ghost before = out@;
            assert(self@.translations.subrange(0, i + 1).drop_last()
                =~= self@.translations.subrange(0, i as int));
            if row.translation.english == *canonical {
                out.push(row.translation.hebrew.clone());
                assert(out@.map_values(|s: String| s@) =~= before.map_values(|s: String| s@).push(
                    self@.translations[i as int].1,
                ));
            }
            i += 1;
        }
        assert(self@.translations.subrange(0, self.translations.len() as int)
            =~= self@.translations);
        out
    }

    /// Every stored (English, Hebrew) pair, in row order.
    pub fn all_translations(&self) -> (r: Vec<Translation>)
        requires
            self@.wf(),
        ensures
            r@.len() == self@.translations.len(),
            forall|j: int|
                0 <= j < r@.len() ==> r@[j].english@ == self@.translations[j].0 && r@[j].hebrew@
                    == self@.translations[j].1,
    {
        let mut out: Vec<Translation> = Vec::new();
        let mut i: usize = 0;
        while i < self.translations.len()
            invariant
                i <= self.translations.len(),
                out@.len() == i,
                forall|j: int|
                    0 <= j < i ==> out@[j].english@ == self@.translations[j].0 && out@[j].hebrew@
                        == self@.translations[j].1,
            decreases self.translations.len() - i,
        {
            let row = &self.translations[i];
            out.push(
                Translation {
                    english: row.translation.english.clone(),
                    hebrew: row.translation.hebrew.clone(),
                },
            );
            i += 1;
        }
        out
    }

    /// Stores a mistake suggestion as pending, under a fresh identifier, and
    /// returns that identifier. Nothing in it is checked or resolved; the
    /// identifier in the payload is ignored.
    pub fn suggest_mistake(&mut self, suggestion: SuggestedMistake) -> (r: Result<i64, AppError>)
        requires
            old(self)@.wf(),
        ensures
            final(self)@.wf(),
            if old(self)@.next_mistake_suggestion_id < i64::MAX {
                r == Ok::<i64, AppError>(old(self)@.next_mistake_suggestion_id) && final(self)@
                    == old(self)@.with_mistake_suggestion(
                    suggestion.mistake.name@,
                    suggestion.mistake.mistake@,
                    suggestion.mistake.context@,
                    suggestion.reporter@,
                )
            } else {
                final(self)@ == old(self)@ && r matches Err(AppError::Exhausted)
            },
    {
        let id = self.next_mistake_suggestion_id;
        if id == i64::MAX {
            return Err(AppError::Exhausted);
        }
        let ghost row = mistake_suggestion_row(suggestion);
        let stored = SuggestedMistake {
            mistake: MistakeSuggestion {
                id,
                name: suggestion.mistake.name,
                mistake: suggestion.mistake.mistake,
                context: suggestion.mistake.context,
            },
            reporter: suggestion.reporter,
        };
        self.mistake_suggestions.push(stored);
        self.next_mistake_suggestion_id = id + 1;
        assert(self@.mistake_suggestions =~= old(self)@.mistake_suggestions.push(
            (id, row.1, row.2, row.3, row.4),
        ));
        assert(self@.canonical =~= old(self)@.canonical);
        assert(self@.participants =~= old(self)@.participants);
        assert(self@.mistakes =~= old(self)@.mistakes);
        assert(self@.translations =~= old(self)@.translations);
        assert(self@.mistake_archive =~= old(self)@.mistake_archive);
        assert(self@.translation_suggestions =~= old(self)@.translation_suggestions);
        Ok(id)
    }

    /// Stores a translation suggestion as pending, under a fresh identifier,
    /// and returns that identifier. Nothing in it is checked or resolved; the
    /// identifier in the payload is ignored.
    pub fn suggest_translation(&mut self, suggestion: SuggestedTranslation) -> (r: Result<i64, AppError>)
        requires
            old(self)@.wf(),
        ensures
            final(self)@.wf(),
            if old(self)@.next_translation_suggestion_id < i64::MAX {
                r == Ok::<i64, AppError>(old(self)@.next_translation_suggestion_id) && final(self)@
                    == old(self)@.with_translation_suggestion(
                    suggestion.translation.english@,
                    suggestion.translation.hebrew@,
                    suggestion.suggestor@,
                )
            } else {
                final(self)@ == old(self)@ && r matches Err(AppError::Exhausted)
            },
    {
        let id = self.next_translation_suggestion_id;
        if id == i64::MAX {
            return Err(AppError::Exhausted);
        }
        let ghost row = translation_suggestion_row(suggestion);
        let stored = SuggestedTranslation {
            translation: TranslationSuggestion {
                id,
                english: suggestion.translation.english,
                hebrew: suggestion.translation.hebrew,
            },
            suggestor: suggestion.suggestor,
        };
        self.translation_suggestions.push(stored);
        self.next_translation_suggestion_id = id + 1;
        assert(self@.translation_suggestions =~= old(self)@.translation_suggestions.push(
            (id, row.1, row.2, row.3),
        ));
        assert(self@.canonical =~= old(self)@.canonical);
        assert(self@.participants =~= old(self)@.participants);
        assert(self@.mistakes =~= old(self)@.mistakes);
        assert(self@.mistake_suggestions =~= old(self)@.mistake_suggestions);
        assert(self@.mistake_archive =~= old(self)@.mistake_archive);
        assert(self@.translations =~= old(self)@.translations);
        Ok(id)
    }

    /// Resolves the pending mistake suggestion `id`: its row leaves the
    /// pending table and one archive row records it with the `accepted` flag.
    /// `NotFound` where no pending suggestion has that identifier.
    pub fn discard_mistake_suggestion(&mut self, suggestion: DiscardMistakeSuggestion) -> (r: Result<
        (),
        AppError,
    >)
        requires
            old(self)@.wf(),
        ensures
            final(self)@.wf(),
            if old(self)@.has_mistake_suggestion(suggestion.id) {
                final(self)@ == old(self)@.without_mistake_suggestion(
                    suggestion.id,
                    suggestion.accepted,
                ) && r is Ok
            } else {
                final(self)@ == old(self)@ && r == Err::<(), AppError>(
                    AppError::NotFound(suggestion.id),
                )
            },
    {
        let mut i: usize = 0;
        while i < self.mistake_suggestions.len()
            invariant
                self@.wf(),
                *self == *old(self),
                i <= self.mistake_suggestions.len(),
                forall|j: int| 0 <= j < i ==> self@.mistake_suggestions[j].0 != suggestion.id,
            decreases self.mistake_suggestions.len() - i,
        {
            if self.mistake_suggestions[i].mistake.id == suggestion.id {
                proof {
                    lemma_mistake_suggestion_index(self@, i as int);
                }
                let removed = self.mistake_suggestions.remove(i);
                let ghost row = mistake_suggestion_row(removed);
                let entry = ArchivedMistake {
                    name: removed.mistake.name,
                    mistake: removed.mistake.mistake,
                    context: removed.mistake.context,
                    reporter: removed.reporter,
                    accepted: suggestion.accepted,
                };
                self.mistake_archive.push(entry);
                assert(self@.mistake_suggestions =~= old(self)@.mistake_suggestions.remove(
                    i as int,
                ));
                assert(self@.mistake_archive =~= old(self)@.mistake_archive.push(
                    (row.1, row.2, row.3, row.4, suggestion.accepted),
                ));
                assert(self@.canonical =~= old(self)@.canonical);
                assert(self@.participants =~= old(self)@.participants);
                assert(self@.mistakes =~= old(self)@.mistakes);
                assert(self@.translations =~= old(self)@.translations);
                assert(self@.translation_suggestions =~= old(self)@.translation_suggestions);
                return Ok(());
            }
            i += 1;
        }
        assert(!old(self)@.has_mistake_suggestion(suggestion.id));
        Err(AppError::NotFound(suggestion.id))
    }

    /// Drops the pending translation suggestion `id`, leaving no trace;
    /// `NotFound` where no pending suggestion has that identifier.
    pub fn discard_translation_suggestion(&mut self, suggestion_id: i64) -> (r: Result<(), AppError>)
        requires
            old(self)@.wf(),
        ensures
            final(self)@.wf(),
            if old(self)@.has_translation_suggestion(suggestion_id) {
                final(self)@ == old(self)@.without_translation_suggestion(suggestion_id) && r is Ok
            } else {
                final(self)@ == old(self)@ && r == Err::<(), AppError>(
                    AppError::NotFound(suggestion_id),
                )
            },
    {
        let mut i: usize = 0;
        while i < self.translation_suggestions.len()
            invariant
                self@.wf(),
                *self == *old(self),
                i <= self.translation_suggestions.len(),
                forall|j: int| 0 <= j < i ==> self@.translation_suggestions[j].0 != suggestion_id,
            decreases self.translation_suggestions.len() - i,
        {
            if self.translation_suggestions[i].translation.id == suggestion_id {
                proof {
                    lemma_translation_suggestion_index(self@, i as int);
                }
                let _removed = self.translation_suggestions.remove(i);
                assert(self@.translation_suggestions =~= old(
                    self,
                )@.translation_suggestions.remove(i as int));
                assert(self@.canonical =~= old(self)@.canonical);
                assert(self@.participants =~= old(self)@.participants);
                assert(self@.mistakes =~= old(self)@.mistakes);
                assert(self@.translations =~= old(self)@.translations);
                assert(self@.mistake_suggestions =~= old(self)@.mistake_suggestions);
                assert(self@.mistake_archive =~= old(self)@.mistake_archive);
                return Ok(());
            }
            i += 1;
        }
        assert(!old(self)@.has_translation_suggestion(suggestion_id));
        Err(AppError::NotFound(suggestion_id))
    }

    /// Every pending mistake suggestion, with its identifier, in order of submission.
    pub fn all_mistake_suggestions(&self) -> (r: Vec<SuggestedMistake>)
        requires
            self@.wf(),
        ensures
            r@.map_values(|s: SuggestedMistake| mistake_suggestion_row(s))
                == self@.mistake_suggestions,
    {
        let mut out: Vec<SuggestedMistake> = Vec::new();
        let mut i: usize = 0;
        while i < self.mistake_suggestions.len()
            invariant
                i <= self.mistake_suggestions.len(),
                out@.len() == i,
                forall|j: int|
                    0 <= j < i ==> mistake_suggestion_row(out@[j]) == self@.mistake_suggestions[j],
            decreases self.mistake_suggestions.len() - i,
        {
            let row = &self.mistake_suggestions[i];
            out.push(
                SuggestedMistake {
                    mistake: MistakeSuggestion {
                        id: row.mistake.id,
                        name: row.mistake.name.clone(),
                        mistake: row.mistake.mistake.clone(),
                        context: row.mistake.context.clone(),
                    },
                    reporter: row.reporter.clone(),
                },
            );
            i += 1;
        }
        assert(out@.map_values(|s: SuggestedMistake| mistake_suggestion_row(s))
            =~= self@.mistake_suggestions);
        out
    }

    /// Every pending translation suggestion, with its identifier, in order of submission.
    pub fn all_translation_suggestions(&self) -> (r: Vec<SuggestedTranslation>)
        requires
            self@.wf(),
        ensures
            r@.map_values(|s: SuggestedTranslation| translation_suggestion_row(s))
                == self@.translation_suggestions,
    {
        let mut out: Vec<SuggestedTranslation> = Vec::new();
        let mut i: usize = 0;
        while i < self.translation_suggestions.len()
            invariant
                i <= self.translation_suggestions.len(),
                out@.len() == i,
                forall|j: int|
                    0 <= j < i ==> translation_suggestion_row(out@[j])
                        == self@.translation_suggestions[j],
            decreases self.translation_suggestions.len() - i,
        {
            let row = &self.translation_suggestions[i];
            out.push(
                SuggestedTranslation {
                    translation: TranslationSuggestion {
                        id: row.translation.id,
                        english: row.translation.english.clone(),
                        hebrew: row.translation.hebrew.clone(),
                    },
                    suggestor: row.suggestor.clone(),
                },
            );
            i += 1;
        }
        assert(out@.map_values(|s: SuggestedTranslation| translation_suggestion_row(s))
            =~= self@.translation_suggestions);
        out
    }

    /// Every archived mistake suggestion, in order of resolution.
    pub fn archived_mistakes(&self) -> (r: Vec<ArchivedMistake>)
        requires
            self@.wf(),
        ensures
            r@.map_values(|a: ArchivedMistake| archive_row(a)) == self@.mistake_archive,
    {
        let mut out: Vec<ArchivedMistake> = Vec::new();
        let mut i: usize = 0;
        while i < self.mistake_archive.len()
            invariant
                i <= self.mistake_archive.len(),
                out@.len() == i,
                forall|j: int| 0 <= j < i ==> archive_row(out@[j]) == self@.mistake_archive[j],
            decreases self.mistake_archive.len() - i,
        {
            let row = &self.mistake_archive[i];
            out.push(
                ArchivedMistake {
                    name: row.name.clone(),
                    mistake: row.mistake.clone(),
                    context: row.context.clone(),
                    reporter: row.reporter.clone(),
                    accepted: row.accepted,
                },
            );
            i += 1;
        }
        assert(out@.map_values(|a: ArchivedMistake| archive_row(a)) =~= self@.mistake_archive);
        out
    }
    /// The names that occur in the ledger, each once, in name order.
    fn sorted_names(&self) -> (names: Vec<String>)
        ensures
            strictly_sorted(string_rows(names@)),
            forall|v: Seq<char>| #[trigger]
                string_rows(names@).contains(v) <==> names_of(self@.mistakes).contains(v),
    {
        let mut names: Vec<String> = Vec::new();
        let mut i: usize = 0;
        assert(names_of(self@.mistakes.subrange(0, 0)) =~= Seq::<Seq<char>>::empty());
        assert(string_rows(names@) =~= Seq::<Seq<char>>::empty());
        while i < self.mistakes.len()
            invariant
                i <= self.mistakes.len(),
                strictly_sorted(string_rows(names@)),
                forall|v: Seq<char>| #[trigger]
                    string_rows(names@).contains(v) <==> names_of(
                        self@.mistakes.subrange(0, i as int),
                    ).contains(v),
            decreases self.mistakes.len() - i,
        {
            let name = &self.mistakes[i].name;
            let ghost n = name@;
            let ghost before = string_rows(names@);
            assert(names_of(self@.mistakes.subrange(0, i + 1)) =~= names_of(
                self@.mistakes.subrange(0, i as int),
            ).push(n));
            proof {
                lemma_push_contains(names_of(self@.mistakes.subrange(0, i as int)), n);
            }
            let mut p: usize = 0;
            let mut scanning = true;
            while scanning && p < names.len()
                invariant
                    p <= names.len(),
                    name@ == n,
                    string_rows(names@) == before,
                    forall|x: int| 0 <= x < p ==> name_less(before[x], n),
                    !scanning ==> p < names.len() && !name_less(before[p as int], n),
                decreases names.len() - p + if scanning { 1int } else { 0int },
            {
                if name_precedes(&names[p], name) {
                    p += 1;
                } else {
                    scanning = false;
                }
            }
            if p < names.len() && names[p] == *name {
                assert(before[p as int] == n);
                assert(before.contains(n));
            } else {
                names.insert(p, name.clone());
                assert(string_rows(names@) =~= before.insert(p as int, n));
                proof {
                    lemma_insert_sorted(before, p as int, n);
                    lemma_insert_contains(before, p as int, n);
                }
            }
            i += 1;
        }
        assert(self@.mistakes.subrange(0, self.mistakes.len() as int) =~= self@.mistakes);
        names
    }

    /// The ledger rows ordered by name, each name's rows in ledger order:
    /// the rows of `groups`, for `groups` the names in order, each beside
    /// its (mistake, count) pairs.
    fn rows_in_name_order(&self, names: &Vec<String>) -> (r: Vec<PersonMistake>)
        ensures
            mistake_rows_of(r@) == runs(
                Seq::new(
                    names@.len(),
                    |k: int| (names@[k]@, entries_of(self@.mistakes, names@[k]@)),
                ),
            ),
    {
        let ghost hv = Seq::new(
            names@.len(),
            |k: int| (names@[k]@, entries_of(self@.mistakes, names@[k]@)),
        );
        let mut rows: Vec<PersonMistake> = Vec::new();
        let mut k: usize = 0;
        assert(runs(hv.subrange(0, 0)) =~= Seq::<MistakeRow>::empty());
        assert(mistake_rows_of(rows@) =~= Seq::<MistakeRow>::empty());
        while k < names.len()
            invariant
                k <= names.len(),
                hv == Seq::new(
                    names@.len(),
                    |k: int| (names@[k]@, entries_of(self@.mistakes, names@[k]@)),
                ),
                mistake_rows_of(rows@) == runs(hv.subrange(0, k as int)),
            decreases names.len() - k,
        {
            let name = &names[k];
            let ghost n = name@;
            let ghost start = mistake_rows_of(rows@);
            let mut i: usize = 0;
            assert(self@.mistakes.subrange(0, 0) =~= Seq::<MistakeRow>::empty());
            assert(group_rows((n, entries_of(self@.mistakes.subrange(0, 0), n)))
                =~= Seq::<MistakeRow>::empty());
            assert(mistake_rows_of(rows@) =~= start + group_rows(
                (n, entries_of(self@.mistakes.subrange(0, 0), n)),
            ));
            while i < self.mistakes.len()
                invariant
                    i <= self.mistakes.len(),
                    name@ == n,
                    mistake_rows_of(rows@) == start + group_rows(
                        (n, entries_of(self@.mistakes.subrange(0, i as int), n)),
                    ),
                decreases self.mistakes.len() - i,
            {
                let row = &self.mistakes[i];
                let ghost before = rows@;
                assert(self@.mistakes.subrange(0, i + 1).drop_last() =~= self@.mistakes.subrange(
                    0,
                    i as int,
                ));
                if row.name == *name {
                    rows.push(
                        PersonMistake {
                            name: row.name.clone(),
                            counted_mistake: CountedMistake {
                                mistake: row.counted_mistake.mistake.clone(),
                                count: row.counted_mistake.count,
                            },
                        },
                    );
                    assert(mistake_rows_of(rows@) =~= mistake_rows_of(before).push(
                        self@.mistakes[i as int],
                    ));
                    assert(group_rows((n, entries_of(self@.mistakes.subrange(0, i + 1), n)))
                        =~= group_rows((n, entries_of(self@.mistakes.subrange(0, i as int), n))).push(
                        self@.mistakes[i as int],
                    ));
                }
                i += 1;
            }
            assert(self@.mistakes.subrange(0, self.mistakes.len() as int) =~= self@.mistakes);
            proof {
                lemma_runs_push(hv.subrange(0, k as int), hv[k as int]);
                assert(hv.subrange(0, k + 1) =~= hv.subrange(0, k as int).push(hv[k as int]));
            }
            k += 1;
        }
        assert(hv.subrange(0, names.len() as int) =~= hv);
        rows
    }

    /// The whole ledger grouped by person: one group per person with
    /// mistakes, ordered by name, each group in ledger order.
    pub fn all_mistakes(&self) -> (r: Vec<PersonMistakes>)
        requires
            self@.wf(),
        ensures
            lists_ledger(self@, r@),
    {
        let names = self.sorted_names();
        let ghost hv = Seq::new(
            names@.len(),
            |k: int| (names@[k]@, entries_of(self@.mistakes, names@[k]@)),
        );
        let rows = self.rows_in_name_order(&names);
        let groups = chunk_by_name(rows);
        proof {
            assert forall|j: int| 0 <= j < hv.len() implies (#[trigger] hv[j]).1.len() > 0 by {
                assert(string_rows(names@)[j] == names@[j]@);
                assert(string_rows(names@).contains(names@[j]@));
                let i = choose|i: int|
                    0 <= i < self@.mistakes.len() && names_of(self@.mistakes)[i] == names@[j]@;
                lemma_entries_complete(self@.mistakes, names@[j]@, i);
            }
            assert forall|j: int| 0 <= j < hv.len() - 1 implies (#[trigger] hv[j]).0 != hv[j
                + 1].0 by {
                assert(string_rows(names@)[j] == names@[j]@);
                assert(string_rows(names@)[j + 1] == names@[j + 1]@);
                assert(name_less(names@[j]@, names@[j + 1]@));
                lemma_name_irreflexive(names@[j]@);
            }
            lemma_runs_unique(groups_view(groups@), hv);
            assert forall|x: int| 0 <= x < groups@.len() implies group_names(groups@)[x]
                == string_rows(names@)[x] by {
                assert(groups_view(groups@)[x] == hv[x]);
            }
            assert(group_names(groups@) =~= string_rows(names@));
            assert forall|x: int| 0 <= x < groups@.len() implies counted_entries(
                (#[trigger] groups@[x]).counted_mistakes@,
            ) == entries_of(self@.mistakes, groups@[x].name@) by {
                assert(groups_view(groups@)[x] == hv[x]);
            }
        }
        groups
    }

    /// Rebuilds the store from the rows of its persistent tables. The rows
    /// are taken as they are where they meet the tables' constraints; a
    /// `StorageFault` where they do not.
    pub fn restore(tables: StoredTables) -> (r: Result<HebrewDb, AppError>)
        ensures
            match r {
                Ok(db) => db@ == stored_model(tables) && db@.wf(),
                Err(e) => !stored_model(tables).wf() && e is StorageFault,
            },
    {
        let ghost m = stored_model(tables);
        if !canonical_keys_distinct(&tables.canonical_words) || !participants_distinct(
            &tables.participants,
        ) || !ledger_valid(&tables.mistakes) || !translation_pairs_distinct(&tables.translations) {
            assert(m.canonical == canon_rows(tables.canonical_words@));
            assert(m.participants == string_rows(tables.participants@));
            assert(m.mistakes == mistake_rows_of(tables.mistakes@));
            assert(m.translations == translation_rows_of(tables.translations@));
            assert(!m.wf());
            return Err(constraint_fault());
        }
        let mistake_ids = mistake_suggestion_ids(&tables.mistake_suggestions);
        let translation_ids = translation_suggestion_ids(&tables.translation_suggestions);
        let next_mistake_suggestion_id = match next_id_after(&mistake_ids) {
            Some(next) => next,
            None => {
                proof {
                    if exists|a: int| 0 <= a < mistake_ids@.len() && #[trigger] mistake_ids@[a] < 1 {
                        let a = choose|a: int|
                            0 <= a < mistake_ids@.len() && #[trigger] mistake_ids@[a] < 1;
                        assert(m.mistake_suggestions[a].0 < 1);
                    }
                    if !(forall|a: int, b: int|
                        0 <= a < b < mistake_ids@.len() ==> mistake_ids@[a] < mistake_ids@[b]) {
                        let (a, b) = choose|a: int, b: int|
                            0 <= a < b < mistake_ids@.len() && !(mistake_ids@[a] < mistake_ids@[b]);
                        assert(!(m.mistake_suggestions[a].0 < m.mistake_suggestions[b].0));
                    }
                }
                return Err(constraint_fault());
            },
        };
        let next_translation_suggestion_id = match next_id_after(&translation_ids) {
            Some(next) => next,
            None => {
                proof {
                    if exists|a: int|
                        0 <= a < translation_ids@.len() && #[trigger] translation_ids@[a] < 1 {
                        let a = choose|a: int|
                            0 <= a < translation_ids@.len() && #[trigger] translation_ids@[a] < 1;
                        assert(m.translation_suggestions[a].0 < 1);
                    }
                    if !(forall|a: int, b: int|
                        0 <= a < b < translation_ids@.len() ==> translation_ids@[a]
                            < translation_ids@[b]) {
                        let (a, b) = choose|a: int, b: int|
                            0 <= a < b < translation_ids@.len() && !(translation_ids@[a]
                                < translation_ids@[b]);
                        assert(!(m.translation_suggestions[a].0 < m.translation_suggestions[b].0));
                    }
                }
                return Err(constraint_fault());
            },
        };
        proof {
            if mistake_ids@.len() > 0 {
                assert(mistake_ids@.last() == m.mistake_suggestions.last().0);
            }
            if translation_ids@.len() > 0 {
                assert(translation_ids@.last() == m.translation_suggestions.last().0);
            }
            assert forall|a: int, b: int|
                0 <= a < b < m.mistake_suggestions.len() implies m.mistake_suggestions[a].0
                < m.mistake_suggestions[b].0 by {
                assert(mistake_ids@[a] < mistake_ids@[b]);
            }
            assert forall|a: int|
                0 <= a < m.mistake_suggestions.len() implies 1 <= #[trigger] m.mistake_suggestions[a].0
                < next_mistake_suggestion_id by {
                assert(mistake_ids@[a] == m.mistake_suggestions[a].0);
            }
            assert forall|a: int, b: int|
                0 <= a < b < m.translation_suggestions.len() implies m.translation_suggestions[a].0
                < m.translation_suggestions[b].0 by {
                assert(translation_ids@[a] < translation_ids@[b]);
            }
            assert forall|a: int|
                0 <= a < m.translation_suggestions.len() implies 1
                <= #[trigger] m.translation_suggestions[a].0 < next_translation_suggestion_id by {
                assert(translation_ids@[a] == m.translation_suggestions[a].0);
            }
        }
        let db = HebrewDb {
            canonical_words: tables.canonical_words,
            participants: tables.participants,
            mistakes: tables.mistakes,
            translations: tables.translations,
            mistake_suggestions: tables.mistake_suggestions,
            mistake_archive: tables.mistake_archive,
            translation_suggestions: tables.translation_suggestions,
            next_mistake_suggestion_id,
            next_translation_suggestion_id,
        };
        assert(db@ == m);
        Ok(db)
    }

    /// The canonicalization rows: each lower-cased word with its canonical form.
    pub fn canonical_rows(&self) -> (r: Vec<CanonicalRequest>)
        ensures
            r@.map_values(|c: CanonicalRequest| canon_row(c)) == self@.canonical,
    {
        let mut out: Vec<CanonicalRequest> = Vec::new();
        let mut i: usize = 0;
        while i < self.canonical_words.len()
            invariant
                i <= self.canonical_words.len(),
                out@.len() == i,
                forall|j: int| 0 <= j < i ==> canon_row(out@[j]) == self@.canonical[j],
            decreases self.canonical_words.len() - i,
        {
            let row = &self.canonical_words[i];
            out.push(CanonicalRequest { word: row.word.clone(), canonical: row.canonical.clone() });
            i += 1;
        }
        assert(out@.map_values(|c: CanonicalRequest| canon_row(c)) =~= self@.canonical);
        out
    }

    /// The ledger rows, in row order.
    pub fn mistake_rows(&self) -> (r: Vec<PersonMistake>)
        ensures
            r@.map_values(|p: PersonMistake| mistake_row(p)) == self@.mistakes,
    {
        let mut out: Vec<PersonMistake> = Vec::new();
        let mut i: usize = 0;
        while i < self.mistakes.len()
            invariant
                i <= self.mistakes.len(),
                out@.len() == i,
                forall|j: int| 0 <= j < i ==> mistake_row(out@[j]) == self@.mistakes[j],
            decreases self.mistakes.len() - i,
        {
            let row = &self.mistakes[i];
            out.push(
                PersonMistake {
                    name: row.name.clone(),
                    counted_mistake: CountedMistake {
                        mistake: row.counted_mistake.mistake.clone(),
                        count: row.counted_mistake.count,
                    },
                },
            );
            i += 1;
        }
        assert(out@.map_values(|p: PersonMistake| mistake_row(p)) =~= self@.mistakes);
        out
    }

    /// The translation rows, with their suggestors, in row order.
    pub fn translation_rows(&self) -> (r: Vec<TranslationAddition>)
        ensures
            r@.map_values(|t: TranslationAddition| translation_row(t)) == self@.translations,
    {
        let mut out: Vec<TranslationAddition> = Vec::new();
        let mut i: usize = 0;
        while i < self.translations.len()
            invariant
                i <= self.translations.len(),
                out@.len() == i,
                forall|j: int| 0 <= j < i ==> translation_row(out@[j]) == self@.translations[j],
            decreases self.translations.len() - i,
        {
            let row = &self.translations[i];
            out.push(
                TranslationAddition {
                    translation: Translation {
                        english: row.translation.english.clone(),
                        hebrew: row.translation.hebrew.clone(),
                    },
                    suggestor: row.suggestor.clone(),
                },
            );
            i += 1;
        }
        assert(out@.map_values(|t: TranslationAddition| translation_row(t)) =~= self@.translations);
        out
    }
}

} // verus!
