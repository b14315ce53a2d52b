use vstd::prelude::*;
use vstd::string::StringExecFns;

verus! {

/// The column types of the persistent tables.
#[derive(Debug, Clone, Copy, PartialEq, Eq)]
pub enum DbFieldType {
    Int,
    String,
}

impl DbFieldType {
    /// The SQL type of a column of this kind.
    pub open spec fn type_text(self) -> Seq<char> {
        match self {
            DbFieldType::Int => "int"@,
            DbFieldType::String => "varchar(40)"@,
        }
    }

    /// The SQL type of a column of this kind.
    pub fn to_type_string(self) -> (r: &'static str)
        ensures
            r@ == self.type_text(),
    {
        match self {
            DbFieldType::Int => "int",
            DbFieldType::String => "varchar(40)",
        }
    }
}

/// A column: its name and its type.
pub type Column = (&'static str, DbFieldType);

/// The items joined, with `sep` between each two.
pub open spec fn joined(items: Seq<Seq<char>>, sep: Seq<char>) -> Seq<char>
    decreases items.len(),
{
    if items.len() == 0 {
        Seq::empty()
    } else if items.len() == 1 {
        items[0]
    } else {
        joined(items.drop_last(), sep) + sep + items.last()
    }
}

/// A column's declaration: its name, a space, its type.
pub open spec fn column_decl(c: Column) -> Seq<char> {
    c.0@ + " "@ + c.1.type_text()
}

pub open spec fn column_decls(cs: Seq<Column>) -> Seq<Seq<char>> {
    cs.map_values(|c: Column| column_decl(c))
}

pub open spec fn column_names(cs: Seq<Column>) -> Seq<Seq<char>> {
    cs.map_values(|c: Column| c.0@)
}

/// The statement that creates the table, where it is absent, with the unique
/// columns first and a uniqueness constraint over them where there are any.
pub open spec fn table_sql(name: Seq<char>, unique: Seq<Column>, other: Seq<Column>) -> Seq<char> {
    let constraint = if unique.len() > 0 {
        ", CONSTRAINT u UNIQUE("@ + joined(column_names(unique), ", "@) + ")"@
    } else {
        Seq::empty()
    };
    "CREATE TABLE IF NOT EXISTS "@ + name + " ("@ + joined(column_decls(unique + other), ",\n"@)
        + constraint + ");"@
}

/// Joins the items, with `sep` between each two.
fn join(items: &Vec<String>, sep: &str) -> (r: String)
    ensures
        r@ == joined(items@.map_values(|s: String| s@), sep@),
{
    let ghost views = items@.map_values(|s: String| s@);
    let mut out = String::new();
    let mut i: usize = 0;
    while i < items.len()
        invariant
            i <= items.len(),
            views == items@.map_values(|s: String| s@),
            out@ == joined(views.subrange(0, i as int), sep@),
        decreases items.len() - i,
    {
        assert(views.subrange(0, i + 1).drop_last() =~= views.subrange(0, i as int));
        if i > 0 {
            out.append(sep);
        }
        out.append(items[i].as_str());
        proof {
            if i == 0 {
                assert(out@ =~= views.subrange(0, 1)[0]);
            }
        }
        i += 1;
    }
    assert(views.subrange(0, items.len() as int) =~= views);
    out
}

/// The statement that creates a table, where it is absent: the unique
/// columns, then the others, then a uniqueness constraint over the unique
/// ones where there are any.
pub fn create_table(table_name: &str, unique_fields: &Vec<Column>, other_fields: &Vec<Column>) -> (r:
    String)
    ensures
        r@ == table_sql(table_name@, unique_fields@, other_fields@),
{
    let mut decls: Vec<String> = Vec::new();
    let mut names: Vec<String> = Vec::new();
    let ghost all = unique_fields@ + other_fields@;
    let mut i: usize = 0;
    while i < unique_fields.len()
        invariant
            i <= unique_fields.len(),
            all == unique_fields@ + other_fields@,
            decls@.len() == i,
            names@.len() == i,
            forall|k: int| 0 <= k < i ==> decls@[k]@ == column_decl(#[trigger] all[k]),
            forall|k: int| 0 <= k < i ==> names@[k]@ == (#[trigger] unique_fields@[k]).0@,
        decreases unique_fields.len() - i,
    {
        let c = unique_fields[i];
        decls.push(String::from_str(c.0).concat(" ").concat(c.1.to_type_string()));
        names.push(String::from_str(c.0));
        i += 1;
    }
    let mut j: usize = 0;
    while j < other_fields.len()
        invariant
            j <= other_fields.len(),
            all == unique_fields@ + other_fields@,
            decls@.len() == unique_fields@.len() + j,
            forall|k: int|
                0 <= k < unique_fields@.len() + j ==> decls@[k]@ == column_decl(#[trigger] all[k]),
        decreases other_fields.len() - j,
    {
        let c = other_fields[j];
        assert(c == all[unique_fields@.len() + j]);
        decls.push(String::from_str(c.0).concat(" ").concat(c.1.to_type_string()));
        j += 1;
    }
    assert(decls@.map_values(|s: String| s@) =~= column_decls(all));
    assert(names@.map_values(|s: String| s@) =~= column_names(unique_fields@));
    let mut q = String::from_str("CREATE TABLE IF NOT EXISTS ");
    q.append(table_name);
    q.append(" (");
    let cols = join(&decls, ",\n");
    q.append(cols.as_str());
    if unique_fields.len() > 0 {
        q.append(", CONSTRAINT u UNIQUE(");
        let keys = join(&names, ", ");
        q.append(keys.as_str());
        q.append(")");
    }
    q.append(");");
    q
}

/// The tables of the store, each as (name, unique columns, other columns).
pub open spec fn schema_tables() -> Seq<(Seq<char>, Seq<Column>, Seq<Column>)> {
    seq![
        ("Participants"@, seq![("Name", DbFieldType::String)], seq![]),
        (
            "Mistakes"@,
            seq![("Name", DbFieldType::String), ("Mistake", DbFieldType::String)],
            seq![("Count", DbFieldType::Int)],
        ),
        (
            "MistakesSuggestions"@,
            seq![],
            seq![
                ("Name", DbFieldType::String),
                ("Mistake", DbFieldType::String),
                ("Context", DbFieldType::String),
                ("Reporter", DbFieldType::String),
            ],
        ),
        (
            "MistakesSuggestionsArchive"@,
            seq![],
            seq![
                ("Name", DbFieldType::String),
                ("Mistake", DbFieldType::String),
                ("Context", DbFieldType::String),
                ("Reporter", DbFieldType::String),
                ("Accepted", DbFieldType::Int),
            ],
        ),
        (
            "Translations"@,
            seq![("English", DbFieldType::String), ("Hebrew", DbFieldType::String)],
            seq![("Suggestor", DbFieldType::String)],
        ),
        (
            "TranslationsSuggestions"@,
            seq![("English", DbFieldType::String), ("Hebrew", DbFieldType::String)],
            seq![("Suggestor", DbFieldType::String)],
        ),
        ("CanonicalWords"@, seq![("Word", DbFieldType::String)], seq![("Canonical", DbFieldType::String)]),
    ]
}

/// The statements that create every table of the store, where absent; they
/// may be run at every start.
pub fn create_tables() -> (r: Vec<String>)
    ensures
        r@.len() == schema_tables().len(),
        forall|k: int|
            0 <= k < r@.len() ==> (#[trigger] r@[k])@ == table_sql(
                schema_tables()[k].0,
                schema_tables()[k].1,
                schema_tables()[k].2,
            ),
{
    let s = DbFieldType::String;
    let n = DbFieldType::Int;
    let mut out: Vec<String> = Vec::new();
    let unique: Vec<Column> = vec![("Name", s)];
    let other: Vec<Column> = vec![];
    assert(unique@ =~= schema_tables()[0].1);
    assert(other@ =~= schema_tables()[0].2);
    out.push(create_table("Participants", &unique, &other));
    let unique: Vec<Column> = vec![("Name", s), ("Mistake", s)];
    let other: Vec<Column> = vec![("Count", n)];
    assert(unique@ =~= schema_tables()[1].1);
    assert(other@ =~= schema_tables()[1].2);
    out.push(create_table("Mistakes", &unique, &other));
    let unique: Vec<Column> = vec![];
    let other: Vec<Column> = vec![("Name", s), ("Mistake", s), ("Context", s), ("Reporter", s)];
    assert(unique@ =~= schema_tables()[2].1);
    assert(other@ =~= schema_tables()[2].2);
    out.push(create_table("MistakesSuggestions", &unique, &other));
    let unique: Vec<Column> = vec![];
    let other: Vec<Column> = vec![("Name", s), ("Mistake", s), ("Context", s), ("Reporter", s), ("Accepted", n)];
    assert(unique@ =~= schema_tables()[3].1);
    assert(other@ =~= schema_tables()[3].2);
    out.push(create_table("MistakesSuggestionsArchive", &unique, &other));
    let unique: Vec<Column> = vec![("English", s), ("Hebrew", s)];
    let other: Vec<Column> = vec![("Suggestor", s)];
    assert(unique@ =~= schema_tables()[4].1);
    assert(other@ =~= schema_tables()[4].2);
    out.push(create_table("Translations", &unique, &other));
    let unique: Vec<Column> = vec![("English", s), ("Hebrew", s)];
    let other: Vec<Column> = vec![("Suggestor", s)];
    assert(unique@ =~= schema_tables()[5].1);
    assert(other@ =~= schema_tables()[5].2);
    out.push(create_table("TranslationsSuggestions", &unique, &other));
    let unique: Vec<Column> = vec![("Word", s)];
    let other: Vec<Column> = vec![("Canonical", s)];
    assert(unique@ =~= schema_tables()[6].1);
    assert(other@ =~= schema_tables()[6].2);
    out.push(create_table("CanonicalWords", &unique, &other));
    assert forall|k: int| 0 <= k < out@.len() implies (#[trigger] out@[k])@ == table_sql(
        schema_tables()[k].0,
        schema_tables()[k].1,
        schema_tables()[k].2,
    ) by {
    }
    out
}

} // verus!
