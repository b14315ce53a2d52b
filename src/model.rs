use vstd::prelude::*;
use crate::canonical::lower_of;

verus! {

/// A canonicalization row: the lower-cased word and its canonical form.
pub type CanonRow = (Seq<char>, Seq<char>);

/// A ledger row: person, canonical mistake, count.
pub type MistakeRow = (Seq<char>, Seq<char>, u32);

/// A translation row: canonical English word, Hebrew rendering, suggestor.
pub type TranslationRow = (Seq<char>, Seq<char>, Seq<char>);

/// A pending mistake suggestion: id, person, mistake, context, reporter.
pub type MistakeSuggestionRow = (i64, Seq<char>, Seq<char>, Seq<char>, Seq<char>);

/// An archived mistake suggestion: person, mistake, context, reporter, accepted.
pub type ArchiveRow = (Seq<char>, Seq<char>, Seq<char>, Seq<char>, bool);

/// A pending translation suggestion: id, English, Hebrew, suggestor.
pub type TranslationSuggestionRow = (i64, Seq<char>, Seq<char>, Seq<char>);

/// The abstract contents of the store: every table as a sequence of rows, in
/// the order in which the rows were first written.
pub struct DbModel {
    pub canonical: Seq<CanonRow>,
    pub participants: Seq<Seq<char>>,
    pub mistakes: Seq<MistakeRow>,
    pub translations: Seq<TranslationRow>,
    pub mistake_suggestions: Seq<MistakeSuggestionRow>,
    pub mistake_archive: Seq<ArchiveRow>,
    pub translation_suggestions: Seq<TranslationSuggestionRow>,
    pub next_mistake_suggestion_id: i64,
    pub next_translation_suggestion_id: i64,
}

/// The Hebrew renderings stored for the canonical English word `e`, in row order.
pub open spec fn hebrew_of(rows: Seq<TranslationRow>, e: Seq<char>) -> Seq<Seq<char>>
    decreases rows.len(),
{
    if rows.len() == 0 {
        Seq::empty()
    } else {
        let prev = hebrew_of(rows.drop_last(), e);
        if rows.last().0 == e {
            prev.push(rows.last().1)
        } else {
            prev
        }
    }
}

/// The (mistake, count) pairs that the ledger holds for `name`, in row order.
pub open spec fn entries_of(rows: Seq<MistakeRow>, name: Seq<char>) -> Seq<(Seq<char>, u32)>
    decreases rows.len(),
{
    if rows.len() == 0 {
        Seq::empty()
    } else {
        let prev = entries_of(rows.drop_last(), name);
        if rows.last().0 == name {
            prev.push((rows.last().1, rows.last().2))
        } else {
            prev
        }
    }
}

impl DbModel {
    /// The store with every table empty.
    pub open spec fn empty() -> DbModel {
        DbModel {
            canonical: Seq::empty(),
            participants: Seq::empty(),
            mistakes: Seq::empty(),
            translations: Seq::empty(),
            mistake_suggestions: Seq::empty(),
            mistake_archive: Seq::empty(),
            translation_suggestions: Seq::empty(),
            next_mistake_suggestion_id: 1,
            next_translation_suggestion_id: 1,
        }
    }

    /// The uniqueness constraints of the tables, and the freshness of the
    /// identifiers handed out to suggestions.
    pub open spec fn wf(self) -> bool {
        &&& forall|i: int, j: int|
            0 <= i < j < self.canonical.len() ==> self.canonical[i].0 != self.canonical[j].0
        &&& forall|i: int, j: int|
            0 <= i < j < self.participants.len() ==> self.participants[i] != self.participants[j]
        &&& forall|i: int, j: int|
            0 <= i < j < self.mistakes.len() ==> (self.mistakes[i].0 != self.mistakes[j].0
                || self.mistakes[i].1 != self.mistakes[j].1)
        &&& forall|i: int| 0 <= i < self.mistakes.len() ==> self.mistakes[i].2 >= 1
        &&& forall|i: int, j: int|
            0 <= i < j < self.translations.len() ==> (self.translations[i].0
                != self.translations[j].0 || self.translations[i].1 != self.translations[j].1)
        &&& self.next_mistake_suggestion_id >= 1
        &&& forall|i: int, j: int|
            0 <= i < j < self.mistake_suggestions.len() ==> self.mistake_suggestions[i].0
                < self.mistake_suggestions[j].0
        &&& forall|i: int|
            0 <= i < self.mistake_suggestions.len() ==> 1 <= #[trigger] self.mistake_suggestions[i].0
                < self.next_mistake_suggestion_id
        &&& self.next_translation_suggestion_id >= 1
        &&& forall|i: int, j: int|
            0 <= i < j < self.translation_suggestions.len() ==> self.translation_suggestions[i].0
                < self.translation_suggestions[j].0
        &&& forall|i: int|
            0 <= i < self.translation_suggestions.len() ==> 1
                <= #[trigger] self.translation_suggestions[i].0 < self.next_translation_suggestion_id
    }

    // ---- canonical resolver ----
    pub open spec fn has_key(self, key: Seq<char>) -> bool {
        exists|i: int| 0 <= i < self.canonical.len() && self.canonical[i].0 == key
    }

    pub open spec fn key_index(self, key: Seq<char>) -> int {
        choose|i: int| 0 <= i < self.canonical.len() && self.canonical[i].0 == key
    }

    /// The canonical form stored under an already lower-cased key.
    pub open spec fn lookup(self, key: Seq<char>) -> Option<Seq<char>> {
        if self.has_key(key) {
            Some(self.canonical[self.key_index(key)].1)
        } else {
            None
        }
    }

    /// The canonical form of a raw word: its lower-cased spelling looked up.
    pub open spec fn canonical_of(self, word: Seq<char>) -> Option<Seq<char>> {
        self.lookup(lower_of(word))
    }

    /// The store after the row `key -> canonical` is written: overwritten in
    /// place where the key is present, appended otherwise.
    pub open spec fn with_canon_row(self, key: Seq<char>, canonical: Seq<char>) -> DbModel {
        if self.has_key(key) {
            DbModel {
                canonical: self.canonical.update(self.key_index(key), (key, canonical)),
                ..self
            }
        } else {
            DbModel { canonical: self.canonical.push((key, canonical)), ..self }
        }
    }

    /// The store after `word` is defined as `canonical`: the word's row, then
    /// the canonical form's own row mapping it to itself.
    pub open spec fn with_definition(self, word: Seq<char>, canonical: Seq<char>) -> DbModel {
        self.with_canon_row(lower_of(word), canonical).with_canon_row(lower_of(canonical), canonical)
    }

    // ---- participants ----
    pub open spec fn has_participant(self, name: Seq<char>) -> bool {
        self.participants.contains(name)
    }

    pub open spec fn with_participant(self, name: Seq<char>) -> DbModel {
        DbModel { participants: self.participants.push(name), ..self }
    }

    // ---- mistake ledger ----
    pub open spec fn has_mistake(self, name: Seq<char>, mistake: Seq<char>) -> bool {
        exists|i: int|
            0 <= i < self.mistakes.len() && self.mistakes[i].0 == name && self.mistakes[i].1
                == mistake
    }

    pub open spec fn mistake_index(self, name: Seq<char>, mistake: Seq<char>) -> int {
        choose|i: int|
            0 <= i < self.mistakes.len() && self.mistakes[i].0 == name && self.mistakes[i].1
                == mistake
    }

    /// How many times `name` was charged with the canonical word `mistake`.
    pub open spec fn count_of(self, name: Seq<char>, mistake: Seq<char>) -> nat {
        if self.has_mistake(name, mistake) {
            self.mistakes[self.mistake_index(name, mistake)].2 as nat
        } else {
            0
        }
    }

    /// Whether one more report of the pair still fits the counter.
    pub open spec fn can_report(self, name: Seq<char>, mistake: Seq<char>) -> bool {
        self.count_of(name, mistake) < u32::MAX
    }

    /// The store after one report of `name` on the canonical word `mistake`:
    /// the pair's count goes up by one, or a row with count 1 is appended.
    pub open spec fn with_report(self, name: Seq<char>, mistake: Seq<char>) -> DbModel {
        if self.has_mistake(name, mistake) {
            let i = self.mistake_index(name, mistake);
            DbModel {
                mistakes: self.mistakes.update(i, (name, mistake, (self.mistakes[i].2 + 1) as u32)),
                ..self
            }
        } else {
            DbModel { mistakes: self.mistakes.push((name, mistake, 1u32)), ..self }
        }
    }

    /// The store after `n` reports of the same pair, one after another.
    pub open spec fn with_reports(self, name: Seq<char>, mistake: Seq<char>, n: nat) -> DbModel
        decreases n,
    {
        if n == 0 {
            self
        } else {
            self.with_report(name, mistake).with_reports(name, mistake, (n - 1) as nat)
        }
    }

    // ---- translation table ----
    pub open spec fn has_translation(self, english: Seq<char>, hebrew: Seq<char>) -> bool {
        exists|i: int|
            0 <= i < self.translations.len() && self.translations[i].0 == english
                && self.translations[i].1 == hebrew
    }

    pub open spec fn translation_index(self, english: Seq<char>, hebrew: Seq<char>) -> int {
        choose|i: int|
            0 <= i < self.translations.len() && self.translations[i].0 == english
                && self.translations[i].1 == hebrew
    }

    /// The store after the pair is upserted: a present pair keeps its place
    /// and takes the new suggestor, a new pair is appended.
    pub open spec fn with_translation(
        self,
        english: Seq<char>,
        hebrew: Seq<char>,
        suggestor: Seq<char>,
    ) -> DbModel {
        if self.has_translation(english, hebrew) {
            DbModel {
                translations: self.translations.update(
                    self.translation_index(english, hebrew),
                    (english, hebrew, suggestor),
                ),
                ..self
            }
        } else {
            DbModel { translations: self.translations.push((english, hebrew, suggestor)), ..self }
        }
    }

    /// What `translate` answers for a raw English word.
    pub open spec fn translations_of(self, english: Seq<char>) -> Seq<Seq<char>> {
        match self.canonical_of(english) {
            Some(c) => hebrew_of(self.translations, c),
            None => Seq::empty(),
        }
    }

    // ---- suggestion workflow ----
    pub open spec fn has_mistake_suggestion(self, id: i64) -> bool {
        exists|i: int| 0 <= i < self.mistake_suggestions.len() && self.mistake_suggestions[i].0 == id
    }

    pub open spec fn mistake_suggestion_index(self, id: i64) -> int {
        choose|i: int| 0 <= i < self.mistake_suggestions.len() && self.mistake_suggestions[i].0 == id
    }

    /// The store after a mistake suggestion is submitted under the next identifier.
    pub open spec fn with_mistake_suggestion(
        self,
        name: Seq<char>,
        mistake: Seq<char>,
        context: Seq<char>,
        reporter: Seq<char>,
    ) -> DbModel {
        DbModel {
            mistake_suggestions: self.mistake_suggestions.push(
                (self.next_mistake_suggestion_id, name, mistake, context, reporter),
            ),
            next_mistake_suggestion_id: (self.next_mistake_suggestion_id + 1) as i64,
            ..self
        }
    }

    /// The store after the pending mistake suggestion `id` is resolved: its row
    /// leaves the pending table and one archive row records it with `accepted`.
    pub open spec fn without_mistake_suggestion(self, id: i64, accepted: bool) -> DbModel {
        let i = self.mistake_suggestion_index(id);
        let s = self.mistake_suggestions[i];
        DbModel {
            mistake_suggestions: self.mistake_suggestions.remove(i),
            mistake_archive: self.mistake_archive.push((s.1, s.2, s.3, s.4, accepted)),
            ..self
        }
    }

    pub open spec fn has_translation_suggestion(self, id: i64) -> bool {
        exists|i: int|
            0 <= i < self.translation_suggestions.len() && self.translation_suggestions[i].0 == id
    }

    pub open spec fn translation_suggestion_index(self, id: i64) -> int {
        choose|i: int|
            0 <= i < self.translation_suggestions.len() && self.translation_suggestions[i].0 == id
    }

    /// The store after a translation suggestion is submitted under the next identifier.
    pub open spec fn with_translation_suggestion(
        self,
        english: Seq<char>,
        hebrew: Seq<char>,
        suggestor: Seq<char>,
    ) -> DbModel {
        DbModel {
            translation_suggestions: self.translation_suggestions.push(
                (self.next_translation_suggestion_id, english, hebrew, suggestor),
            ),
            next_translation_suggestion_id: (self.next_translation_suggestion_id + 1) as i64,
            ..self
        }
    }

    /// The store after the pending translation suggestion `id` is dropped.
    pub open spec fn without_translation_suggestion(self, id: i64) -> DbModel {
        DbModel {
            translation_suggestions: self.translation_suggestions.remove(
                self.translation_suggestion_index(id),
            ),
            ..self
        }
    }
}

} // verus!

verus! {

/// In a well-formed store, the row at index `i` is the one a lookup of its key finds.
pub proof fn lemma_key_index(m: DbModel, i: int)
    requires
        m.wf(),
        0 <= i < m.canonical.len(),
    ensures
        m.has_key(m.canonical[i].0),
        m.key_index(m.canonical[i].0) == i,
{
    let k = m.key_index(m.canonical[i].0);
    assert(0 <= i < m.canonical.len() && m.canonical[i].0 == m.canonical[i].0);
    if k < i {
        assert(m.canonical[k].0 != m.canonical[i].0);
    } else if k > i {
        assert(m.canonical[i].0 != m.canonical[k].0);
    }
}

/// In a well-formed store, the ledger row at index `i` is the one its pair finds.
pub proof fn lemma_mistake_index(m: DbModel, i: int)
    requires
        m.wf(),
        0 <= i < m.mistakes.len(),
    ensures
        m.has_mistake(m.mistakes[i].0, m.mistakes[i].1),
        m.mistake_index(m.mistakes[i].0, m.mistakes[i].1) == i,
{
    let (n, x) = (m.mistakes[i].0, m.mistakes[i].1);
    assert(0 <= i < m.mistakes.len() && m.mistakes[i].0 == n && m.mistakes[i].1 == x);
    let k = m.mistake_index(n, x);
    if k < i {
        assert(m.mistakes[k].0 != m.mistakes[i].0 || m.mistakes[k].1 != m.mistakes[i].1);
    } else if k > i {
        assert(m.mistakes[i].0 != m.mistakes[k].0 || m.mistakes[i].1 != m.mistakes[k].1);
    }
}

/// In a well-formed store, the translation row at index `i` is the one its pair finds.
pub proof fn lemma_translation_index(m: DbModel, i: int)
    requires
        m.wf(),
        0 <= i < m.translations.len(),
    ensures
        m.has_translation(m.translations[i].0, m.translations[i].1),
        m.translation_index(m.translations[i].0, m.translations[i].1) == i,
{
    let (e, h) = (m.translations[i].0, m.translations[i].1);
    assert(0 <= i < m.translations.len() && m.translations[i].0 == e && m.translations[i].1 == h);
    let k = m.translation_index(e, h);
    if k < i {
        assert(m.translations[k].0 != m.translations[i].0 || m.translations[k].1
            != m.translations[i].1);
    } else if k > i {
        assert(m.translations[i].0 != m.translations[k].0 || m.translations[i].1
            != m.translations[k].1);
    }
}

/// In a well-formed store, the pending mistake suggestion at index `i` is the one its id finds.
pub proof fn lemma_mistake_suggestion_index(m: DbModel, i: int)
    requires
        m.wf(),
        0 <= i < m.mistake_suggestions.len(),
    ensures
        m.has_mistake_suggestion(m.mistake_suggestions[i].0),
        m.mistake_suggestion_index(m.mistake_suggestions[i].0) == i,
{
    let id = m.mistake_suggestions[i].0;
    assert(0 <= i < m.mistake_suggestions.len() && m.mistake_suggestions[i].0 == id);
    let k = m.mistake_suggestion_index(id);
    if k < i {
        assert(m.mistake_suggestions[k].0 < m.mistake_suggestions[i].0);
    } else if k > i {
        assert(m.mistake_suggestions[i].0 < m.mistake_suggestions[k].0);
    }
}

/// In a well-formed store, the pending translation suggestion at index `i` is the one its id finds.
pub proof fn lemma_translation_suggestion_index(m: DbModel, i: int)
    requires
        m.wf(),
        0 <= i < m.translation_suggestions.len(),
    ensures
        m.has_translation_suggestion(m.translation_suggestions[i].0),
        m.translation_suggestion_index(m.translation_suggestions[i].0) == i,
{
    let id = m.translation_suggestions[i].0;
    assert(0 <= i < m.translation_suggestions.len() && m.translation_suggestions[i].0 == id);
    let k = m.translation_suggestion_index(id);
    if k < i {
        assert(m.translation_suggestions[k].0 < m.translation_suggestions[i].0);
    } else if k > i {
        assert(m.translation_suggestions[i].0 < m.translation_suggestions[k].0);
    }
}

} // verus!

verus! {

/// A group of ledger rows: a person and their (mistake, count) pairs.
pub type Group = (Seq<char>, Seq<(Seq<char>, u32)>);

/// The rows of a group: its person beside each of its pairs.
pub open spec fn group_rows(g: Group) -> Seq<MistakeRow> {
    g.1.map_values(|e: (Seq<char>, u32)| (g.0, e.0, e.1))
}

/// The rows of the groups, one group after another.
pub open spec fn runs(gs: Seq<Group>) -> Seq<MistakeRow>
    decreases gs.len(),
{
    if gs.len() == 0 {
        Seq::empty()
    } else {
        group_rows(gs[0]) + runs(gs.drop_first())
    }
}

/// Groups that are nonempty and of which no two neighbours share a person:
/// the maximal runs of their rows.
pub open spec fn maximal_runs(gs: Seq<Group>) -> bool {
    &&& forall|j: int| 0 <= j < gs.len() ==> (#[trigger] gs[j]).1.len() > 0
    &&& forall|j: int| 0 <= j < gs.len() - 1 ==> (#[trigger] gs[j]).0 != gs[j + 1].0
}

/// Appending a group appends its rows.
pub proof fn lemma_runs_push(gs: Seq<Group>, g: Group)
    ensures
        runs(gs.push(g)) == runs(gs) + group_rows(g),
    decreases gs.len(),
{
    if gs.len() == 0 {
        assert(gs.push(g).drop_first() =~= Seq::<Group>::empty());
        assert(runs(Seq::<Group>::empty()) =~= Seq::<MistakeRow>::empty());
        assert(gs.push(g)[0] == g);
        assert(runs(gs) =~= Seq::<MistakeRow>::empty());
        assert(runs(gs.push(g)) =~= runs(gs) + group_rows(g));
    } else {
        assert(gs.push(g).drop_first() =~= gs.drop_first().push(g));
        lemma_runs_push(gs.drop_first(), g);
        assert(runs(gs.push(g)) =~= runs(gs) + group_rows(g));
    }
}

/// A sequence of rows splits into maximal runs in one way only.
pub proof fn lemma_runs_unique(a: Seq<Group>, b: Seq<Group>)
    requires
        maximal_runs(a),
        maximal_runs(b),
        runs(a) == runs(b),
    ensures
        a == b,
    decreases a.len(),
{
    if a.len() == 0 || b.len() == 0 {
        if a.len() > 0 {
            assert(runs(a).len() >= group_rows(a[0]).len());
            assert(a[0].1.len() > 0);
        }
        if b.len() > 0 {
            assert(runs(b).len() >= group_rows(b[0]).len());
            assert(b[0].1.len() > 0);
        }
        assert(a =~= b);
    } else {
        let (ra, rb) = (runs(a), runs(b));
        let (la, lb) = (a[0].1.len() as int, b[0].1.len() as int);
        assert(a[0].1.len() > 0 && b[0].1.len() > 0);
        assert(ra[0] == group_rows(a[0])[0]);
        assert(rb[0] == group_rows(b[0])[0]);
        assert(a[0].0 == b[0].0);
        if la < lb {
            assert(rb[la] == group_rows(b[0])[la]);
            if a.len() == 1 {
                assert(a.drop_first() =~= Seq::<Group>::empty());
                assert(ra.len() == la);
            } else {
                assert(a.drop_first()[0] == a[1]);
                assert(a[1].1.len() > 0);
                assert(runs(a.drop_first())[0] == group_rows(a[1])[0]);
                assert(ra[la] == runs(a.drop_first())[0]);
                assert(a[0].0 != a[1].0);
            }
        } else if lb < la {
            assert(ra[lb] == group_rows(a[0])[lb]);
            if b.len() == 1 {
                assert(b.drop_first() =~= Seq::<Group>::empty());
                assert(rb.len() == lb);
            } else {
                assert(b.drop_first()[0] == b[1]);
                assert(b[1].1.len() > 0);
                assert(runs(b.drop_first())[0] == group_rows(b[1])[0]);
                assert(rb[lb] == runs(b.drop_first())[0]);
                assert(b[0].0 != b[1].0);
            }
        } else {
            assert(group_rows(a[0]) =~= ra.subrange(0, la));
            assert(group_rows(b[0]) =~= rb.subrange(0, lb));
            assert forall|i: int| 0 <= i < la implies a[0].1[i] == b[0].1[i] by {
                assert(group_rows(a[0])[i] == group_rows(b[0])[i]);
            }
            assert(a[0].1 =~= b[0].1);
            assert(runs(a.drop_first()) =~= ra.subrange(la, ra.len() as int));
            assert(runs(b.drop_first()) =~= rb.subrange(lb, rb.len() as int));
            assert forall|j: int| 0 <= j < a.drop_first().len() - 1 implies (
            #[trigger] a.drop_first()[j]).0 != a.drop_first()[j + 1].0 by {
                assert(a[j + 1].0 != a[j + 2].0);
            }
            assert forall|j: int| 0 <= j < b.drop_first().len() - 1 implies (
            #[trigger] b.drop_first()[j]).0 != b.drop_first()[j + 1].0 by {
                assert(b[j + 1].0 != b[j + 2].0);
            }
            assert forall|j: int| 0 <= j < a.drop_first().len() implies (
            #[trigger] a.drop_first()[j]).1.len() > 0 by {
                assert(a[j + 1].1.len() > 0);
            }
            assert forall|j: int| 0 <= j < b.drop_first().len() implies (
            #[trigger] b.drop_first()[j]).1.len() > 0 by {
                assert(b[j + 1].1.len() > 0);
            }
            lemma_runs_unique(a.drop_first(), b.drop_first());
            assert(a[0] == b[0]);
            assert forall|j: int| 0 <= j < a.len() implies a[j] == b[j] by {
                if j > 0 {
                    assert(a[j] == a.drop_first()[j - 1]);
                    assert(b[j] == b.drop_first()[j - 1]);
                }
            }
            assert(a =~= b);
        }
    }
}

} // verus!
