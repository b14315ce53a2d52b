use vstd::prelude::*;
use crate::canonical::lower_of;
use crate::model::{
    entries_of, hebrew_of, lemma_key_index, lemma_mistake_index, lemma_mistake_suggestion_index,
    lemma_translation_index, lemma_translation_suggestion_index, DbModel, MistakeRow,
    TranslationRow,
};

verus! {

/// Writing the row `key -> value` keeps the store well formed, makes `key`
/// look up `value`, and leaves every other key's lookup as it was.
pub proof fn lemma_canon_row(m: DbModel, key: Seq<char>, value: Seq<char>)
    requires
        m.wf(),
    ensures
        m.with_canon_row(key, value).wf(),
        m.with_canon_row(key, value).lookup(key) == Some(value),
        forall|k: Seq<char>| k != key ==> #[trigger] m.with_canon_row(key, value).lookup(k) == m.lookup(k),
{
    let t = m.with_canon_row(key, value);
    let idx = if m.has_key(key) { m.key_index(key) } else { m.canonical.len() as int };
    assert(t.canonical[idx] == (key, value));
    assert forall|a: int, b: int| 0 <= a < b < t.canonical.len() implies t.canonical[a].0
        != t.canonical[b].0 by {
        if b == idx && !m.has_key(key) {
            assert(m.canonical[a].0 != key);
        }
    }
    lemma_key_index(t, idx);
    assert forall|k: Seq<char>| k != key implies #[trigger] t.lookup(k) == m.lookup(k) by {
        if m.has_key(k) {
            let j = m.key_index(k);
            assert(t.canonical[j] == m.canonical[j]);
            lemma_key_index(t, j);
        }
        if t.has_key(k) {
            let j = t.key_index(k);
            assert(m.canonical[j] == t.canonical[j]);
        }
    }
}

/// A word whose lower-cased spelling was never defined does not resolve.
/// Once `word` is defined as `canonical`, the word and the canonical form
/// both resolve to `canonical`.
pub proof fn lemma_define_then_resolve(m: DbModel, word: Seq<char>, canonical: Seq<char>)
    requires
        m.wf(),
    ensures
        !m.has_key(lower_of(word)) ==> m.canonical_of(word) is None,
        m.with_definition(word, canonical).wf(),
        m.with_definition(word, canonical).canonical_of(word) == Some(canonical),
        m.with_definition(word, canonical).canonical_of(canonical) == Some(canonical),
{
    let m1 = m.with_canon_row(lower_of(word), canonical);
    lemma_canon_row(m, lower_of(word), canonical);
    lemma_canon_row(m1, lower_of(canonical), canonical);
}

/// One report keeps the store well formed and raises the pair's count by one.
pub proof fn lemma_report_step(m: DbModel, name: Seq<char>, mistake: Seq<char>)
    requires
        m.wf(),
        m.can_report(name, mistake),
    ensures
        m.with_report(name, mistake).wf(),
        m.with_report(name, mistake).has_mistake(name, mistake),
        m.with_report(name, mistake).count_of(name, mistake) == m.count_of(name, mistake) + 1,
{
    let t = m.with_report(name, mistake);
    let idx = if m.has_mistake(name, mistake) {
        m.mistake_index(name, mistake)
    } else {
        m.mistakes.len() as int
    };
    assert forall|a: int, b: int| 0 <= a < b < t.mistakes.len() implies (t.mistakes[a].0
        != t.mistakes[b].0 || t.mistakes[a].1 != t.mistakes[b].1) by {
        if b == idx && !m.has_mistake(name, mistake) {
            assert(!(m.mistakes[a].0 == name && m.mistakes[a].1 == mistake));
        }
    }
    lemma_mistake_index(t, idx);
}

/// Reports of one pair made one after another never lose an increment:
/// after `n` of them the count has grown by exactly `n`.
pub proof fn lemma_reports_accumulate(m: DbModel, name: Seq<char>, mistake: Seq<char>, n: nat)
    requires
        m.wf(),
        m.count_of(name, mistake) + n <= u32::MAX,
    ensures
        m.with_reports(name, mistake, n).wf(),
        m.with_reports(name, mistake, n).count_of(name, mistake) == m.count_of(name, mistake) + n,
        n > 0 ==> m.with_reports(name, mistake, n).has_mistake(name, mistake),
    decreases n,
{
    if n > 0 {
        lemma_report_step(m, name, mistake);
        lemma_reports_accumulate(m.with_report(name, mistake), name, mistake, (n - 1) as nat);
    }
}

/// Each (mistake, count) listed for `name` comes from a ledger row of `name`.
pub proof fn lemma_entries_sound(rows: Seq<MistakeRow>, name: Seq<char>, x: int)
    requires
        0 <= x < entries_of(rows, name).len(),
    ensures
        exists|j: int|
            0 <= j < rows.len() && rows[j].0 == name && rows[j].1 == entries_of(rows, name)[x].0
                && rows[j].2 == entries_of(rows, name)[x].1,
    decreases rows.len(),
{
    let prev = rows.drop_last();
    let e = entries_of(rows, name);
    let pe = entries_of(prev, name);
    if x < pe.len() {
        assert(e[x] == pe[x]);
        lemma_entries_sound(prev, name, x);
        let j = choose|j: int|
            0 <= j < prev.len() && prev[j].0 == name && prev[j].1 == pe[x].0 && prev[j].2
                == pe[x].1;
        assert(rows[j] == prev[j]);
    } else {
        let j = rows.len() - 1;
        assert(rows[j] == rows.last());
        assert(rows[j].0 == name && rows[j].1 == e[x].0 && rows[j].2 == e[x].1);
    }
}

/// Each ledger row of `name` is listed for `name`.
pub proof fn lemma_entries_complete(rows: Seq<MistakeRow>, name: Seq<char>, j: int)
    requires
        0 <= j < rows.len(),
        rows[j].0 == name,
    ensures
        entries_of(rows, name).contains((rows[j].1, rows[j].2)),
    decreases rows.len(),
{
    let prev = rows.drop_last();
    if j == rows.len() - 1 {
        assert(entries_of(rows, name).last() == (rows[j].1, rows[j].2));
    } else {
        lemma_entries_complete(prev, name, j);
        let x = choose|x: int|
            0 <= x < entries_of(prev, name).len() && entries_of(prev, name)[x] == (
                prev[j].1,
                prev[j].2,
            );
        assert(entries_of(rows, name)[x] == (rows[j].1, rows[j].2));
    }
}

/// Where the ledger holds each (person, mistake) pair at most once, each
/// mistake is listed at most once for a person.
pub proof fn lemma_entries_unique(rows: Seq<MistakeRow>, name: Seq<char>)
    requires
        forall|a: int, b: int|
            0 <= a < b < rows.len() ==> (rows[a].0 != rows[b].0 || rows[a].1 != rows[b].1),
    ensures
        forall|x: int, y: int|
            0 <= x < y < entries_of(rows, name).len() ==> entries_of(rows, name)[x].0
                != entries_of(rows, name)[y].0,
    decreases rows.len(),
{
    if rows.len() > 0 {
        let prev = rows.drop_last();
        lemma_entries_unique(prev, name);
        let e = entries_of(rows, name);
        let pe = entries_of(prev, name);
        assert forall|x: int, y: int| 0 <= x < y < e.len() implies e[x].0 != e[y].0 by {
            if y == pe.len() {
                lemma_entries_sound(prev, name, x);
                assert(e[x] == pe[x]);
                let j = choose|j: int|
                    0 <= j < prev.len() && prev[j].0 == name && prev[j].1 == (#[trigger] pe[x]).0
                        && prev[j].2 == pe[x].1;
                assert(rows[j] == prev[j]);
                assert(rows[j].0 != rows[rows.len() - 1].0 || rows[j].1 != rows[rows.len()
                    - 1].1);
            }
        }
    }
}

/// After `n` reports (n at least one) of a person on a canonical word they
/// had never been charged with, the person's listing holds exactly one entry
/// for that word, and its count is `n`.
pub proof fn lemma_listing_after_reports(m: DbModel, name: Seq<char>, mistake: Seq<char>, n: nat)
    requires
        m.wf(),
        !m.has_mistake(name, mistake),
        1 <= n <= u32::MAX,
    ensures
        entries_of(m.with_reports(name, mistake, n).mistakes, name).contains((mistake, n as u32)),
        forall|x: int|
            0 <= x < entries_of(m.with_reports(name, mistake, n).mistakes, name).len() && (
            #[trigger] entries_of(m.with_reports(name, mistake, n).mistakes, name)[x]).0
                == mistake ==> entries_of(m.with_reports(name, mistake, n).mistakes, name)[x] == (
                mistake,
                n as u32,
            ),
{
    lemma_reports_accumulate(m, name, mistake, n);
    let t = m.with_reports(name, mistake, n);
    let i = t.mistake_index(name, mistake);
    lemma_entries_complete(t.mistakes, name, i);
    lemma_entries_unique(t.mistakes, name);
    let e = entries_of(t.mistakes, name);
    let w = choose|w: int| 0 <= w < e.len() && e[w] == (mistake, n as u32);
    assert forall|x: int| 0 <= x < e.len() && (#[trigger] e[x]).0 == mistake implies e[x] == (
        mistake,
        n as u32,
    ) by {
        if x < w {
            assert(e[x].0 != e[w].0);
        } else if x > w {
            assert(e[w].0 != e[x].0);
        }
    }
}

/// Each translation row of the canonical word `e` contributes its Hebrew rendering.
pub proof fn lemma_hebrew_complete(rows: Seq<TranslationRow>, e: Seq<char>, j: int)
    requires
        0 <= j < rows.len(),
        rows[j].0 == e,
    ensures
        hebrew_of(rows, e).contains(rows[j].1),
    decreases rows.len(),
{
    let prev = rows.drop_last();
    if j == rows.len() - 1 {
        assert(hebrew_of(rows, e).last() == rows[j].1);
    } else {
        lemma_hebrew_complete(prev, e, j);
        let x = choose|x: int| 0 <= x < hebrew_of(prev, e).len() && hebrew_of(prev, e)[x] == prev[j].1;
        assert(hebrew_of(rows, e)[x] == rows[j].1);
    }
}

/// Once a Hebrew rendering is stored for the canonical form of an English
/// word, translating the word yields it; storing the same pair again
/// changes nothing.
pub proof fn lemma_upsert_then_translate(
    m: DbModel,
    english: Seq<char>,
    hebrew: Seq<char>,
    suggestor: Seq<char>,
)
    requires
        m.wf(),
        m.canonical_of(english) is Some,
    ensures
        ({
            let c = m.canonical_of(english)->Some_0;
            let t = m.with_translation(c, hebrew, suggestor);
            &&& t.wf()
            &&& t.translations_of(english).contains(hebrew)
            &&& t.with_translation(c, hebrew, suggestor) == t
        }),
{
    let c = m.canonical_of(english)->Some_0;
    let t = m.with_translation(c, hebrew, suggestor);
    let idx = if m.has_translation(c, hebrew) {
        m.translation_index(c, hebrew)
    } else {
        m.translations.len() as int
    };
    assert(t.translations[idx] == (c, hebrew, suggestor));
    assert forall|a: int, b: int| 0 <= a < b < t.translations.len() implies (t.translations[a].0
        != t.translations[b].0 || t.translations[a].1 != t.translations[b].1) by {
        if b == idx && !m.has_translation(c, hebrew) {
            assert(!(m.translations[a].0 == c && m.translations[a].1 == hebrew));
        }
    }
    lemma_translation_index(t, idx);
    lemma_hebrew_complete(t.translations, c, idx);
    assert(t.canonical == m.canonical);
    assert(t.lookup(lower_of(english)) == m.lookup(lower_of(english)));
    assert(t.canonical_of(english) == Some(c));
    assert(t.translations_of(english) == hebrew_of(t.translations, c));
    assert(t.translations_of(english).contains(hebrew));
    assert(t.has_translation(c, hebrew));
    assert(t.translation_index(c, hebrew) == idx);
    assert(t.translations.update(idx, (c, hebrew, suggestor)) =~= t.translations);
    assert(t.with_translation(c, hebrew, suggestor) == t);
}

/// A submitted mistake suggestion gets an identifier above every one handed
/// out before, so no pending suggestion has it; it is then pending.
/// Resolving it removes it from the pending ones and adds exactly one
/// archive row, with the given flag; resolving it again finds nothing.
pub proof fn lemma_mistake_suggestion_lifecycle(
    m: DbModel,
    name: Seq<char>,
    mistake: Seq<char>,
    context: Seq<char>,
    reporter: Seq<char>,
    accepted: bool,
)
    requires
        m.wf(),
        m.next_mistake_suggestion_id < i64::MAX,
    ensures
        ({
            let id = m.next_mistake_suggestion_id;
            let m1 = m.with_mistake_suggestion(name, mistake, context, reporter);
            let m2 = m1.without_mistake_suggestion(id, accepted);
            &&& forall|i: int|
                0 <= i < m.mistake_suggestions.len() ==> #[trigger] m.mistake_suggestions[i].0 < id
            &&& !m.has_mistake_suggestion(id)
            &&& m1.wf() && m1.has_mistake_suggestion(id)
            &&& m2.wf() && !m2.has_mistake_suggestion(id)
            &&& m2.mistake_archive == m1.mistake_archive.push(
                (name, mistake, context, reporter, accepted),
            )
        }),
{
    let id = m.next_mistake_suggestion_id;
    let m1 = m.with_mistake_suggestion(name, mistake, context, reporter);
    let last = m.mistake_suggestions.len() as int;
    assert(m1.mistake_suggestions[last].0 == id);
    lemma_mistake_suggestion_index(m1, last);
    let m2 = m1.without_mistake_suggestion(id, accepted);
    assert(m2.mistake_suggestions =~= m.mistake_suggestions);
}

/// A submitted translation suggestion gets an identifier above every one
/// handed out before, so no pending suggestion has it; it is then pending.
/// Dropping it removes it from the pending ones; dropping it again finds
/// nothing.
pub proof fn lemma_translation_suggestion_lifecycle(
    m: DbModel,
    english: Seq<char>,
    hebrew: Seq<char>,
    suggestor: Seq<char>,
)
    requires
        m.wf(),
        m.next_translation_suggestion_id < i64::MAX,
    ensures
        ({
            let id = m.next_translation_suggestion_id;
            let m1 = m.with_translation_suggestion(english, hebrew, suggestor);
            let m2 = m1.without_translation_suggestion(id);
            &&& forall|i: int|
                0 <= i < m.translation_suggestions.len() ==> #[trigger] m.translation_suggestions[i].0
                    < id
            &&& !m.has_translation_suggestion(id)
            &&& m1.wf() && m1.has_translation_suggestion(id)
            &&& m2.wf() && !m2.has_translation_suggestion(id)
        }),
{
    let m1 = m.with_translation_suggestion(english, hebrew, suggestor);
    let last = m.translation_suggestions.len() as int;
    lemma_translation_suggestion_index(m1, last);
    let m2 = m1.without_translation_suggestion(m.next_translation_suggestion_id);
    assert(m2.translation_suggestions =~= m.translation_suggestions);
}

} // verus!
