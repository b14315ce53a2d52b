use hebrew_tracker::error::{unknown_word_err, AppError};
use hebrew_tracker::hebrew_db::{HebrewDb, StoredTables};
use hebrew_tracker::schema::{create_table, create_tables, DbFieldType};
use hebrew_tracker::types::{
    CanonicalRequest, CountedMistake, DiscardMistakeSuggestion, MistakeReport, MistakeSuggestion,
    PersonMistake, SuggestedMistake, SuggestedTranslation, Translation, TranslationAddition,
    TranslationSuggestion,
};

fn define(db: &mut HebrewDb, word: &str, canonical: &str) {
    let r = db.add_canonical(CanonicalRequest {
        word: word.to_owned(),
        canonical: canonical.to_owned(),
    });
    assert_eq!(r, Ok(()));
}

fn report(db: &mut HebrewDb, name: &str, mistake: &str) -> Result<PersonMistake, AppError> {
    db.report_mistake(MistakeReport {
        name: name.to_owned(),
        mistake: mistake.to_owned(),
    })
}

fn upsert(db: &mut HebrewDb, english: &str, hebrew: &str) -> Result<(), AppError> {
    db.add_translation(TranslationAddition {
        translation: Translation {
            english: english.to_owned(),
            hebrew: hebrew.to_owned(),
        },
        suggestor: "admin".to_owned(),
    })
}

fn mistake_suggestion(name: &str, mistake: &str, context: &str, reporter: &str) -> SuggestedMistake {
    SuggestedMistake {
        mistake: MistakeSuggestion {
            id: 0,
            name: name.to_owned(),
            mistake: mistake.to_owned(),
            context: context.to_owned(),
        },
        reporter: reporter.to_owned(),
    }
}

fn translation_suggestion(english: &str, hebrew: &str, suggestor: &str) -> SuggestedTranslation {
    SuggestedTranslation {
        translation: TranslationSuggestion {
            id: 0,
            english: english.to_owned(),
            hebrew: hebrew.to_owned(),
        },
        suggestor: suggestor.to_owned(),
    }
}

#[test]
fn report_scenario_counts_and_unknown_word() {
    let mut db = HebrewDb::new();
    define(&mut db, "gadol", "גדול");
    let first = report(&mut db, "Dana", "gadol").unwrap();
    assert_eq!(
        first,
        PersonMistake {
            name: "Dana".to_owned(),
            counted_mistake: CountedMistake { mistake: "גדול".to_owned(), count: 1 },
        }
    );
    let second = report(&mut db, "Dana", "gadol").unwrap();
    assert_eq!(second.counted_mistake.count, 2);
    assert_eq!(second.counted_mistake.mistake, "גדול");
    assert_eq!(
        report(&mut db, "Dana", "unknownword"),
        Err(AppError::UnknownWord("unknownword".to_owned()))
    );
}

#[test]
fn translate_scenario_keeps_both_in_insertion_order() {
    let mut db = HebrewDb::new();
    define(&mut db, "dog", "dog");
    assert_eq!(upsert(&mut db, "dog", "כלב"), Ok(()));
    assert_eq!(upsert(&mut db, "dog", "כלבה"), Ok(()));
    assert_eq!(db.translate("dog"), vec!["כלב".to_owned(), "כלבה".to_owned()]);
}

#[test]
fn resolve_before_and_after_define() {
    let mut db = HebrewDb::new();
    assert_eq!(db.canonicalize("Gdola"), None);
    assert!(!db.is_known_word("Gdola"));
    define(&mut db, "Gdola", "gadol");
    assert_eq!(db.canonicalize("Gdola"), Some("gadol".to_owned()));
    assert_eq!(db.canonicalize("gadol"), Some("gadol".to_owned()));
    assert!(db.is_known_word("gdola"));
    assert_eq!(db.canonicalize_word("gadol"), Ok("gadol".to_owned()));
}

#[test]
fn resolve_lowercases_the_word() {
    let mut db = HebrewDb::new();
    define(&mut db, "big", "Big");
    assert_eq!(db.canonicalize("BIG"), Some("Big".to_owned()));
    assert_eq!(db.canonicalize("Big"), Some("Big".to_owned()));
    assert_eq!(db.canonicalize("bIg"), Some("Big".to_owned()));
}

#[test]
fn redefinition_overwrites_target() {
    let mut db = HebrewDb::new();
    define(&mut db, "gdola", "gadol");
    define(&mut db, "gdola", "gdola");
    assert_eq!(db.canonicalize("gdola"), Some("gdola".to_owned()));
    assert_eq!(db.canonicalize("gadol"), Some("gadol".to_owned()));
}

#[test]
fn canonicalize_word_reports_unknown_word() {
    let db = HebrewDb::new();
    assert_eq!(
        db.canonicalize_word("nothing"),
        Err(AppError::UnknownWord("nothing".to_owned()))
    );
    assert_eq!(unknown_word_err("x"), AppError::UnknownWord("x".to_owned()));
}

#[test]
fn repeated_reports_give_one_entry_with_count_n() {
    let mut db = HebrewDb::new();
    define(&mut db, "gdola", "gadol");
    for _ in 0..7 {
        report(&mut db, "Noa", "gdola").unwrap();
    }
    let listing = db.mistakes("Noa");
    assert_eq!(listing.name, "Noa");
    assert_eq!(
        listing.counted_mistakes,
        vec![CountedMistake { mistake: "gadol".to_owned(), count: 7 }]
    );
}

#[test]
fn variant_spellings_count_against_one_canonical_word() {
    let mut db = HebrewDb::new();
    define(&mut db, "gdola", "gadol");
    define(&mut db, "GADOLA", "gadol");
    report(&mut db, "Noa", "gdola").unwrap();
    report(&mut db, "Noa", "gadola").unwrap();
    let last = report(&mut db, "Noa", "Gadol").unwrap();
    assert_eq!(last.counted_mistake.count, 3);
    assert_eq!(db.mistakes("Noa").counted_mistakes.len(), 1);
}

#[test]
fn interleaved_reports_lose_no_increment() {
    let mut db = HebrewDb::new();
    define(&mut db, "a", "a");
    define(&mut db, "b", "b");
    for _ in 0..5 {
        report(&mut db, "Dana", "a").unwrap();
        report(&mut db, "Avi", "a").unwrap();
        report(&mut db, "Dana", "b").unwrap();
    }
    assert_eq!(
        db.mistakes("Dana").counted_mistakes,
        vec![
            CountedMistake { mistake: "a".to_owned(), count: 5 },
            CountedMistake { mistake: "b".to_owned(), count: 5 },
        ]
    );
    assert_eq!(
        db.mistakes("Avi").counted_mistakes,
        vec![CountedMistake { mistake: "a".to_owned(), count: 5 }]
    );
}

#[test]
fn mistakes_of_unknown_person_is_empty() {
    let db = HebrewDb::new();
    let listing = db.mistakes("Nobody");
    assert_eq!(listing.name, "Nobody");
    assert!(listing.counted_mistakes.is_empty());
}

#[test]
fn all_mistakes_grouped_and_ordered_by_name() {
    let mut db = HebrewDb::new();
    define(&mut db, "x", "x");
    define(&mut db, "y", "y");
    report(&mut db, "Noa", "x").unwrap();
    report(&mut db, "avi", "y").unwrap();
    report(&mut db, "Dana", "y").unwrap();
    report(&mut db, "Noa", "y").unwrap();
    report(&mut db, "Dana", "y").unwrap();
    let all = db.all_mistakes();
    let names: Vec<&str> = all.iter().map(|g| g.name.as_str()).collect();
    assert_eq!(names, vec!["Dana", "Noa", "avi"]);
    assert_eq!(
        all[0].counted_mistakes,
        vec![CountedMistake { mistake: "y".to_owned(), count: 2 }]
    );
    assert_eq!(
        all[1].counted_mistakes,
        vec![
            CountedMistake { mistake: "x".to_owned(), count: 1 },
            CountedMistake { mistake: "y".to_owned(), count: 1 },
        ]
    );
    assert_eq!(
        all[2].counted_mistakes,
        vec![CountedMistake { mistake: "y".to_owned(), count: 1 }]
    );
}

#[test]
fn all_mistakes_orders_prefix_first() {
    let mut db = HebrewDb::new();
    define(&mut db, "x", "x");
    report(&mut db, "Danaa", "x").unwrap();
    report(&mut db, "Dan", "x").unwrap();
    report(&mut db, "Dana", "x").unwrap();
    let names: Vec<String> = db.all_mistakes().into_iter().map(|g| g.name).collect();
    assert_eq!(names, vec!["Dan".to_owned(), "Dana".to_owned(), "Danaa".to_owned()]);
}

#[test]
fn all_mistakes_of_empty_ledger() {
    let db = HebrewDb::new();
    assert!(db.all_mistakes().is_empty());
}

#[test]
fn upsert_is_idempotent_and_translate_finds_it() {
    let mut db = HebrewDb::new();
    define(&mut db, "Dog", "dog");
    assert_eq!(upsert(&mut db, "DOG", "כלב"), Ok(()));
    assert_eq!(upsert(&mut db, "dog", "כלב"), Ok(()));
    assert_eq!(db.translate("Dog"), vec!["כלב".to_owned()]);
    assert_eq!(
        db.all_translations(),
        vec![Translation { english: "dog".to_owned(), hebrew: "כלב".to_owned() }]
    );
}

#[test]
fn upsert_of_unknown_word_fails() {
    let mut db = HebrewDb::new();
    assert_eq!(
        upsert(&mut db, "cat", "חתול"),
        Err(AppError::UnknownWord("cat".to_owned()))
    );
    assert!(db.all_translations().is_empty());
}

#[test]
fn translate_unknown_or_untranslated_is_empty() {
    let mut db = HebrewDb::new();
    assert!(db.translate("cat").is_empty());
    define(&mut db, "cat", "cat");
    assert!(db.translate("cat").is_empty());
}

#[test]
fn mistake_suggestion_lifecycle() {
    let mut db = HebrewDb::new();
    let first = db.suggest_mistake(mistake_suggestion("Dana", "gdola", "at dinner", "host")).unwrap();
    let second = db.suggest_mistake(mistake_suggestion("Avi", "zeh", "", "host")).unwrap();
    assert_ne!(first, second);
    let pending = db.all_mistake_suggestions();
    assert_eq!(pending.len(), 2);
    assert_eq!(pending[0].mistake.id, first);
    assert_eq!(pending[0].mistake.name, "Dana");
    assert_eq!(pending[0].mistake.context, "at dinner");
    assert_eq!(pending[0].reporter, "host");
    assert_eq!(pending[1].mistake.id, second);

    assert_eq!(
        db.discard_mistake_suggestion(DiscardMistakeSuggestion { id: first, accepted: true }),
        Ok(())
    );
    let pending = db.all_mistake_suggestions();
    assert_eq!(pending.len(), 1);
    assert_eq!(pending[0].mistake.id, second);
    let archive = db.archived_mistakes();
    assert_eq!(archive.len(), 1);
    assert_eq!(archive[0].name, "Dana");
    assert_eq!(archive[0].mistake, "gdola");
    assert_eq!(archive[0].context, "at dinner");
    assert_eq!(archive[0].reporter, "host");
    assert!(archive[0].accepted);

    assert_eq!(
        db.discard_mistake_suggestion(DiscardMistakeSuggestion { id: first, accepted: false }),
        Err(AppError::NotFound(first))
    );
    assert_eq!(db.archived_mistakes().len(), 1);

    assert_eq!(
        db.discard_mistake_suggestion(DiscardMistakeSuggestion { id: second, accepted: false }),
        Ok(())
    );
    assert!(!db.archived_mistakes()[1].accepted);
    assert!(db.all_mistake_suggestions().is_empty());

    let third = db.suggest_mistake(mistake_suggestion("Noa", "x", "", "host")).unwrap();
    assert!(third != first && third != second);
}

#[test]
fn suggestion_is_stored_without_validation() {
    let mut db = HebrewDb::new();
    let id = db.suggest_mistake(mistake_suggestion("Dana", "notaword", "", "host")).unwrap();
    assert_eq!(db.all_mistake_suggestions()[0].mistake.mistake, "notaword");
    assert_eq!(db.all_mistake_suggestions()[0].mistake.id, id);
}

#[test]
fn translation_suggestion_lifecycle() {
    let mut db = HebrewDb::new();
    let first = db.suggest_translation(translation_suggestion("cat", "חתול", "guest")).unwrap();
    let second = db.suggest_translation(translation_suggestion("dog", "כלב", "guest")).unwrap();
    assert_ne!(first, second);
    let pending = db.all_translation_suggestions();
    assert_eq!(pending.len(), 2);
    assert_eq!(pending[0].translation.id, first);
    assert_eq!(pending[0].translation.english, "cat");
    assert_eq!(pending[0].translation.hebrew, "חתול");
    assert_eq!(pending[0].suggestor, "guest");
    assert_eq!(db.discard_translation_suggestion(first), Ok(()));
    assert_eq!(db.all_translation_suggestions().len(), 1);
    assert_eq!(db.all_translation_suggestions()[0].translation.id, second);
    assert_eq!(db.discard_translation_suggestion(first), Err(AppError::NotFound(first)));
    assert!(db.archived_mistakes().is_empty());
}

#[test]
fn discard_of_unknown_id_fails() {
    let mut db = HebrewDb::new();
    assert_eq!(
        db.discard_mistake_suggestion(DiscardMistakeSuggestion { id: 42, accepted: true }),
        Err(AppError::NotFound(42))
    );
    assert_eq!(db.discard_translation_suggestion(42), Err(AppError::NotFound(42)));
}

#[test]
fn participants_are_unique() {
    let mut db = HebrewDb::new();
    assert_eq!(db.add_participant("Dana"), Ok(()));
    assert_eq!(db.add_participant("Avi"), Ok(()));
    assert_eq!(
        db.add_participant("Dana"),
        Err(AppError::DuplicateParticipant("Dana".to_owned()))
    );
    assert_eq!(db.participants(), vec!["Dana".to_owned(), "Avi".to_owned()]);
}

#[test]
fn field_type_strings() {
    assert_eq!(DbFieldType::Int.to_type_string(), "int");
    assert_eq!(DbFieldType::String.to_type_string(), "varchar(40)");
}

#[test]
fn create_table_statement_text() {
    let q = create_table(
        "Mistakes",
        &vec![("Name", DbFieldType::String), ("Mistake", DbFieldType::String)],
        &vec![("Count", DbFieldType::Int)],
    );
    assert_eq!(
        q,
        "CREATE TABLE IF NOT EXISTS Mistakes (Name varchar(40),\nMistake varchar(40),\nCount int, CONSTRAINT u UNIQUE(Name, Mistake));"
    );
    let q = create_table("Log", &vec![], &vec![("Line", DbFieldType::String)]);
    assert_eq!(q, "CREATE TABLE IF NOT EXISTS Log (Line varchar(40));");
}

#[test]
fn create_tables_covers_every_table() {
    let all = create_tables();
    assert_eq!(all.len(), 7);
    assert_eq!(
        all[0],
        "CREATE TABLE IF NOT EXISTS Participants (Name varchar(40), CONSTRAINT u UNIQUE(Name));"
    );
    assert_eq!(
        all[6],
        "CREATE TABLE IF NOT EXISTS CanonicalWords (Word varchar(40),\nCanonical varchar(40), CONSTRAINT u UNIQUE(Word));"
    );
}

fn stored(db: &HebrewDb) -> StoredTables {
    StoredTables {
        canonical_words: db.canonical_rows(),
        participants: db.participants(),
        mistakes: db.mistake_rows(),
        translations: db.translation_rows(),
        mistake_suggestions: db.all_mistake_suggestions(),
        mistake_archive: db.archived_mistakes(),
        translation_suggestions: db.all_translation_suggestions(),
    }
}

#[test]
fn restore_round_trips_the_tables() {
    let mut db = HebrewDb::new();
    define(&mut db, "Gdola", "gadol");
    db.add_participant("Dana").unwrap();
    report(&mut db, "Dana", "gdola").unwrap();
    report(&mut db, "Dana", "gdola").unwrap();
    upsert(&mut db, "gadol", "גדול").unwrap();
    let first = db.suggest_mistake(mistake_suggestion("Dana", "x", "", "host")).unwrap();
    let kept = db.suggest_mistake(mistake_suggestion("Avi", "y", "", "host")).unwrap();
    db.discard_mistake_suggestion(DiscardMistakeSuggestion { id: first, accepted: false }).unwrap();
    db.suggest_translation(translation_suggestion("cat", "חתול", "guest")).unwrap();

    let mut back = HebrewDb::restore(stored(&db)).unwrap();
    assert_eq!(back.canonical_rows(), db.canonical_rows());
    assert_eq!(back.canonical_rows()[0].word, "gdola");
    assert_eq!(back.participants(), vec!["Dana".to_owned()]);
    assert_eq!(back.mistakes("Dana"), db.mistakes("Dana"));
    assert_eq!(back.translate("GDOLA"), vec!["גדול".to_owned()]);
    assert_eq!(back.all_mistake_suggestions(), db.all_mistake_suggestions());
    assert_eq!(back.archived_mistakes(), db.archived_mistakes());
    assert_eq!(back.all_translation_suggestions(), db.all_translation_suggestions());
    let next = back.suggest_mistake(mistake_suggestion("Noa", "z", "", "host")).unwrap();
    assert!(next > kept);
}

#[test]
fn restore_refuses_rows_that_break_a_constraint() {
    let mut db = HebrewDb::new();
    db.add_participant("Dana").unwrap();
    let mut tables = stored(&db);
    tables.participants.push("Dana".to_owned());
    assert!(matches!(HebrewDb::restore(tables), Err(AppError::StorageFault(_))));

    let mut tables = stored(&HebrewDb::new());
    tables.mistakes.push(PersonMistake {
        name: "Dana".to_owned(),
        counted_mistake: CountedMistake { mistake: "x".to_owned(), count: 0 },
    });
    assert!(matches!(HebrewDb::restore(tables), Err(AppError::StorageFault(_))));

    let mut tables = stored(&HebrewDb::new());
    let mut a = mistake_suggestion("Dana", "x", "", "host");
    a.mistake.id = 5;
    let mut b = mistake_suggestion("Avi", "y", "", "host");
    b.mistake.id = 3;
    tables.mistake_suggestions.push(a);
    tables.mistake_suggestions.push(b);
    assert!(matches!(HebrewDb::restore(tables), Err(AppError::StorageFault(_))));
}

#[test]
fn report_at_largest_count_is_exhausted() {
    let mut tables = stored(&HebrewDb::new());
    tables.canonical_words.push(CanonicalRequest {
        word: "x".to_owned(),
        canonical: "x".to_owned(),
    });
    tables.mistakes.push(PersonMistake {
        name: "Dana".to_owned(),
        counted_mistake: CountedMistake { mistake: "x".to_owned(), count: u32::MAX },
    });
    let mut db = HebrewDb::restore(tables).unwrap();
    assert_eq!(report(&mut db, "Dana", "x"), Err(AppError::Exhausted));
    assert_eq!(
        db.mistakes("Dana").counted_mistakes,
        vec![CountedMistake { mistake: "x".to_owned(), count: u32::MAX }]
    );
    assert_eq!(report(&mut db, "Avi", "x").unwrap().counted_mistake.count, 1);
}

#[test]
fn suggestion_identifiers_exhausted() {
    let mut tables = stored(&HebrewDb::new());
    let mut last = mistake_suggestion("Dana", "x", "", "host");
    last.mistake.id = i64::MAX - 1;
    tables.mistake_suggestions.push(last);
    let mut db = HebrewDb::restore(tables).unwrap();
    assert_eq!(
        db.suggest_mistake(mistake_suggestion("Avi", "y", "", "host")),
        Err(AppError::Exhausted)
    );
    assert_eq!(db.all_mistake_suggestions().len(), 1);
    assert_eq!(
        db.suggest_translation(translation_suggestion("cat", "חתול", "guest")),
        Ok(1)
    );

    let mut tables = stored(&HebrewDb::new());
    let mut top = translation_suggestion("cat", "חתול", "guest");
    top.translation.id = i64::MAX;
    tables.translation_suggestions.push(top);
    assert!(matches!(HebrewDb::restore(tables), Err(AppError::StorageFault(_))));
}
