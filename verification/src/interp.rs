use vstd::prelude::*;

use crate::values::LocalDBValue;
use crate::values::ValueModel;
use crate::db::Col;
use crate::db::ColModel;
use crate::db::Row;
use crate::db::RowModel;
use crate::db::TableModel;
use crate::db::DbModel;
use crate::db::Database;
use crate::db::create_model;
use crate::db::insert_model;
use crate::db::rows_of;
use crate::errors::ErrModel;
use crate::errors::LocalDBError;
use crate::text::has_prefix;
use crate::text::starts_with_str;
use crate::text::spec_trim;
use crate::text::trim;
use crate::text::nth_token_model;
use crate::text::nth_token;
use crate::text::find_from;
use crate::text::find_char;
use crate::text::strip_semi;
use crate::text::strip_trailing_semis;
use crate::text::strip_quotes;
use crate::text::strip_quote_chars;
use crate::text::split_semis;
use crate::text::split_statements;
use crate::text::is_ws;
use crate::text::skip_ws_from;
use crate::text::token_end;
use crate::text::nth_token_start;
use crate::text::lemma_token_end;
use crate::text::lemma_find_from;
use crate::text::lemma_token_end_offset;
use crate::text::lemma_find_through;
use crate::text::lemma_token_end_through;
use crate::text::lemma_nth_token_offset;
use crate::text::lemma_nth_token_start_bounds;
use crate::text::lemma_subrange_offset;
use crate::codec::enc_db;
use crate::codec::encode_db;
use crate::parse::dec_db;
use crate::parse::decode_db;
use vstd::string::StringExecFns;
use vstd::string::StrSliceExecFns;

verus! {

/// The collection name of a creation statement: its 3rd whitespace-delimited
/// token, taken verbatim.
pub open spec fn create_name(s: Seq<char>) -> Option<Seq<char>> {
    nth_token_model(s, 2)
}

/// The collection name of a retrieval statement: its 4th whitespace-delimited
/// token, trailing statement separators stripped; `None` where the statement
/// has fewer than 4 tokens.
pub open spec fn select_name(s: Seq<char>) -> Option<Seq<char>> {
    match nth_token_model(s, 3) {
        Some(t) => Some(strip_semi(t)),
        None => None,
    }
}

/// The collection name and the two positional arguments of an insertion
/// statement: the 3rd token names the collection; the substring between the
/// first `(` and the first `)` holds the arguments, split at commas, each
/// trimmed and with its quote characters stripped.  `None` where the
/// statement lacks the token, the parentheses, or a second argument.
pub open spec fn insert_parts(s: Seq<char>) -> Option<(Seq<char>, Seq<char>, Seq<char>)> {
    match nth_token_model(s, 2) {
        None => None,
        Some(table) => {
            let p = find_from(s, 0, '(');
            let q = find_from(s, 0, ')');
            if p >= s.len() || q >= s.len() || q < p + 1 {
                None
            } else {
                let params = s.subrange(p + 1, q);
                let c = find_from(params, 0, ',');
                if c >= params.len() {
                    None
                } else {
                    let a0 = strip_quotes(spec_trim(params.subrange(0, c)));
                    let c2 = find_from(params, c + 1, ',');
                    let a1 = strip_quotes(spec_trim(params.subrange(c + 1, c2)));
                    Some((table, a0, a1))
                }
            }
        },
    }
}

/// The row an insertion statement appends: an `id` identifier field and a
/// `name` text field, in that order.
pub open spec fn insert_row_model(id: Seq<char>, nm: Seq<char>) -> RowModel {
    seq![
        ColModel { name: "id"@, value: ValueModel::Uuid(id) },
        ColModel { name: "name"@, value: ValueModel::Text(nm) },
    ]
}

/// Whether a trimmed statement is a creation statement.
pub open spec fn is_create(s: Seq<char>) -> bool {
    has_prefix(s, "CREATE TABLE"@)
}

/// Whether a trimmed statement is an insertion statement, the recognised
/// misspelling included.
pub open spec fn is_insert(s: Seq<char>) -> bool {
    has_prefix(s, "INSERT INTO"@) || has_prefix(s, "INSET INTO"@)
}

/// What one non-empty trimmed statement does to the database: the new
/// database, or the error that the statement raises.
pub open spec fn step_model(db: DbModel, seg: Seq<char>) -> Result<DbModel, ErrModel> {
    if is_create(seg) {
        match create_name(seg) {
            Some(n) => Ok(create_model(db, n)),
            None => Err(ErrModel::Sql("Invalid CREATE TABLE syntax"@)),
        }
    } else if is_insert(seg) {
        match insert_parts(seg) {
            Some(parts) => Ok(insert_model(db, parts.0, insert_row_model(parts.1, parts.2))),
            None => Err(ErrModel::Sql("Invalid INSERT syntax"@)),
        }
    } else {
        Err(ErrModel::Sql("Unsupported SQL: "@ + seg))
    }
}

/// The outcome of a statement batch: the database after the statements that
/// ran, and the error of the first failing statement, if any.
#[verifier::ext_equal]
pub struct RunOut {
    pub db: DbModel,
    pub err: Option<ErrModel>,
}

/// What a batch of segments does, in order: each segment is trimmed, empty
/// segments are skipped, and the first failure stops the batch with the
/// effects of the earlier statements kept.
pub open spec fn run_model(db: DbModel, segs: Seq<Seq<char>>) -> RunOut
    decreases segs.len(),
{
    if segs.len() == 0 {
        RunOut { db, err: None }
    } else {
        let seg = spec_trim(segs[0]);
        if seg.len() == 0 {
            run_model(db, segs.drop_first())
        } else {
            match step_model(db, seg) {
                Ok(db2) => run_model(db2, segs.drop_first()),
                Err(e) => RunOut { db, err: Some(e) },
            }
        }
    }
}

/// How an insertion statement built from a bare keyword prefix and a tail
/// parses: the collection token and the parenthesised region lie wholly in
/// the tail, at positions shifted by the keyword's length.
proof fn lemma_insert_parts_shift(p: Seq<char>, t: Seq<char>)
    requires
        p.len() > 0,
        forall|k: int| 0 <= k < p.len() ==> !is_ws(p[k]) && p[k] != '(' && p[k] != ')',
        t.len() > 0,
        is_ws(t[0]),
    ensures
        nth_token_model(p + t, 2) == (if nth_token_start(t, 0, 1) < t.len() {
            Some(
                t.subrange(nth_token_start(t, 0, 1), token_end(t, nth_token_start(t, 0, 1))),
            )
        } else {
            None
        }),
        find_from(p + t, 0, '(') == p.len() + find_from(t, 0, '('),
        find_from(p + t, 0, ')') == p.len() + find_from(t, 0, ')'),
        (find_from(t, 0, '(') < t.len() && find_from(t, 0, ')') < t.len() && find_from(t, 0, ')')
            >= find_from(t, 0, '(') + 1) ==> (p + t).subrange(
            p.len() + find_from(t, 0, '(') + 1,
            p.len() + find_from(t, 0, ')'),
        ) == t.subrange(find_from(t, 0, '(') + 1, find_from(t, 0, ')')),
{
    let s = p + t;
    assert(s[0] == p[0]);
    assert(skip_ws_from(s, 0) == 0);
    lemma_token_end_through(p, t, 0);
    assert(token_end(t, 0) == 0);
    assert(token_end(s, 0) == p.len());
    lemma_nth_token_offset(p, t, 0, 1);
    assert(nth_token_start(s, 0, 2) == nth_token_start(s, p.len() as int, 1));
    let st = nth_token_start(t, 0, 1);
    lemma_nth_token_start_bounds(t, 0, 1);
    if st < t.len() {
        lemma_token_end_offset(p, t, st);
        lemma_token_end(t, st);
        lemma_subrange_offset(p, t, st, token_end(t, st));
    }
    lemma_find_through(p, t, 0, '(');
    lemma_find_through(p, t, 0, ')');
    let fp = find_from(t, 0, '(');
    let fq = find_from(t, 0, ')');
    lemma_find_from(t, 0, '(');
    lemma_find_from(t, 0, ')');
    if fp < t.len() && fq < t.len() && fq >= fp + 1 {
        lemma_subrange_offset(p, t, fp + 1, fq);
    }
}

/// Misspelling tolerance: a statement written with the recognised misspelt
/// insertion keyword does exactly what the correctly spelled statement does,
/// on every database and for every statement tail.
pub proof fn lemma_misspelling_tolerated(db: DbModel, rest: Seq<char>)
    ensures
        step_model(db, "INSET INTO"@ + rest) == step_model(db, "INSERT INTO"@ + rest),
{
    reveal_strlit("INSET INTO");
    reveal_strlit("INSERT INTO");
    reveal_strlit("INSET");
    reveal_strlit("INSERT");
    reveal_strlit(" INTO");
    reveal_strlit("CREATE TABLE");
    let p1 = "INSET"@;
    let p2 = "INSERT"@;
    let t = " INTO"@ + rest;
    let s1 = "INSET INTO"@ + rest;
    let s2 = "INSERT INTO"@ + rest;
    assert(s1 =~= p1 + t);
    assert(s2 =~= p2 + t);
    assert(p1[0] == 'I' && p1[1] == 'N' && p1[2] == 'S' && p1[3] == 'E' && p1[4] == 'T');
    assert(p2[0] == 'I' && p2[1] == 'N' && p2[2] == 'S' && p2[3] == 'E' && p2[4] == 'R' && p2[5]
        == 'T');
    assert(t[0] == ' ');
    assert forall|k: int| 0 <= k < p1.len() implies !is_ws(p1[k]) && p1[k] != '(' && p1[k]
        != ')' by {}
    assert forall|k: int| 0 <= k < p2.len() implies !is_ws(p2[k]) && p2[k] != '(' && p2[k]
        != ')' by {}
    assert(has_prefix(s1, "INSET INTO"@)) by {
        assert(s1.subrange(0, 10) =~= "INSET INTO"@);
    }
    assert(has_prefix(s2, "INSERT INTO"@)) by {
        assert(s2.subrange(0, 11) =~= "INSERT INTO"@);
    }
    assert(!is_create(s1)) by {
        if has_prefix(s1, "CREATE TABLE"@) {
            assert(s1.subrange(0, 12)[0] == "CREATE TABLE"@[0]);
        }
    }
    assert(!is_create(s2)) by {
        if has_prefix(s2, "CREATE TABLE"@) {
            assert(s2.subrange(0, 12)[0] == "CREATE TABLE"@[0]);
        }
    }
    lemma_insert_parts_shift(p1, t);
    lemma_insert_parts_shift(p2, t);
    let st = nth_token_start(t, 0, 1);
    let fp = find_from(t, 0, '(');
    let fq = find_from(t, 0, ')');
    lemma_find_from(t, 0, '(');
    lemma_find_from(t, 0, ')');
    assert(s1.len() == p1.len() + t.len());
    assert(s2.len() == p2.len() + t.len());
    if st < t.len() {
        if fp < t.len() && fq < t.len() && fq >= fp + 1 {
            assert(s1.subrange(p1.len() + fp + 1, p1.len() + fq) == t.subrange(fp + 1, fq));
            assert(s2.subrange(p2.len() + fp + 1, p2.len() + fq) == t.subrange(fp + 1, fq));
            assert(insert_parts(s1) == insert_parts(s2));
        } else {
            assert(insert_parts(s1) is None);
            assert(insert_parts(s2) is None);
        }
    } else {
        assert(nth_token_model(s1, 2) is None);
        assert(nth_token_model(s2, 2) is None);
        assert(insert_parts(s1) is None);
        assert(insert_parts(s2) is None);
    }
    assert(step_model(db, s1) == step_model(db, s2));
}

/// The embedded record store: the whole database, held as one value.
///
/// The persisted document is the store's single source of truth; a caller
/// obtains a `LocalDB` from the document text, runs statements against it,
/// and serialises it back with `document`.
pub struct LocalDB {
    pub db: Database,
}

impl View for LocalDB {
    type V = DbModel;

    open spec fn view(&self) -> DbModel {
        self.db@
    }
}

impl LocalDB {
    /// Collection names are unique.
    pub open spec fn wf(&self) -> bool {
        self.db.wf()
    }

    /// A fresh, empty database.
    pub fn new() -> (r: Self)
        ensures
            r@ == Seq::<TableModel>::empty(),
            r.wf(),
    {
        LocalDB { db: Database::empty() }
    }

    /// Binds to a document's text: the database it denotes.  A text that
    /// does not fit the format denotes the empty database (permissive
    /// recovery), never an error.
    pub fn open(doc: &str) -> (r: Self)
        ensures
            r@ == dec_db(doc@),
            r.wf(),
    {
        LocalDB { db: decode_db(doc) }
    }

    /// Serialises the whole database as one document.
    pub fn document(&self) -> (r: String)
        ensures
            r@ == enc_db(self@),
    {
        encode_db(&self.db)
    }

    /// Joins statement lines into a single batch, one line feed after each.
    pub fn add_lines(&self, lines: [&str; 2]) -> (r: String)
        ensures
            r@ == lines@[0]@ + "\n"@ + lines@[1]@ + "\n"@,
    {
        let mut out = String::new();
        out.append(lines[0]);
        out.append("\n");
        out.append(lines[1]);
        out.append("\n");
        out
    }

    /// The collection name of a creation statement, or a malformed-statement
    /// error where the statement has fewer than 3 tokens.
    pub fn extract_table_name_from_create(sql: &str) -> (r: Result<String, LocalDBError>)
        ensures
            match r {
                Ok(t) => create_name(sql@) == Some(t@),
                Err(e) => create_name(sql@) is None && e@ == ErrModel::Sql(
                    "Invalid CREATE TABLE syntax"@,
                ),
            },
    {
        match nth_token(sql, 2) {
            Some(t) => Ok(t.to_owned()),
            None => Err(LocalDBError::SqlError("Invalid CREATE TABLE syntax".to_owned())),
        }
    }

    /// The collection name of a retrieval statement, or a malformed-statement
    /// error where the statement has fewer than 4 tokens.
    pub fn extract_table_name_from_select(sql: &str) -> (r: Result<String, LocalDBError>)
        ensures
            match r {
                Ok(t) => select_name(sql@) == Some(t@),
                Err(e) => select_name(sql@) is None && e@ == ErrModel::Sql(
                    "Invalid SELECT syntax"@,
                ),
            },
    {
        match nth_token(sql, 3) {
            Some(t) => Ok(strip_trailing_semis(t).to_owned()),
            None => Err(LocalDBError::SqlError("Invalid SELECT syntax".to_owned())),
        }
    }

    /// The collection name and the two row arguments of an insertion
    /// statement, or a malformed-statement error where the statement is
    /// structurally incomplete.
    pub fn extract_insert_data(sql: &str) -> (r: Result<(String, (String, String)), LocalDBError>)
        ensures
            match r {
                Ok(t) => insert_parts(sql@) == Some((t.0@, t.1.0@, t.1.1@)),
                Err(e) => insert_parts(sql@) is None && e@ == ErrModel::Sql(
                    "Invalid INSERT syntax"@,
                ),
            },
    {
        let table = match nth_token(sql, 2) {
            Some(t) => t.to_owned(),
            None => {
                return Err(LocalDBError::SqlError("Invalid INSERT syntax".to_owned()));
            },
        };
        let n = sql.unicode_len();
        let p = find_char(sql, 0, '(');
        let q = find_char(sql, 0, ')');
        if p == n || q == n || q < p + 1 {
            return Err(LocalDBError::SqlError("Invalid INSERT syntax".to_owned()));
        }
        let params = sql.substring_char(p + 1, q);
        let pl = params.unicode_len();
        let c = find_char(params, 0, ',');
        if c == pl {
            return Err(LocalDBError::SqlError("Invalid INSERT syntax".to_owned()));
        }
        let a0 = strip_quote_chars(trim(params.substring_char(0, c)));
        let c2 = find_char(params, c + 1, ',');
        let a1 = strip_quote_chars(trim(params.substring_char(c + 1, c2)));
        Ok((table, (a0, a1)))
    }

    /// Creates the collection a creation statement names; a no-op where it
    /// already exists.
    pub fn handle_create_table(&mut self, sql: &str) -> (r: Result<(), LocalDBError>)
        requires
            old(self).wf(),
        ensures
            final(self).wf(),
            match r {
                Ok(u) => create_name(sql@) is Some && final(self)@ == create_model(
                    old(self)@,
                    create_name(sql@).unwrap(),
                ),
                Err(e) => create_name(sql@) is None && final(self)@ == old(self)@ && e@
                    == ErrModel::Sql("Invalid CREATE TABLE syntax"@),
            },
    {
        let name = match Self::extract_table_name_from_create(sql) {
            Ok(n) => n,
            Err(e) => {
                return Err(e);
            },
        };
        self.db.create_table(name);
        Ok(())
    }

    /// Appends the row an insertion statement describes, creating the
    /// collection first where it is absent.
    pub fn handle_insert(&mut self, sql: &str) -> (r: Result<(), LocalDBError>)
        requires
            old(self).wf(),
        ensures
            final(self).wf(),
            match r {
                Ok(u) => insert_parts(sql@) is Some && final(self)@ == insert_model(
                    old(self)@,
                    insert_parts(sql@).unwrap().0,
                    insert_row_model(insert_parts(sql@).unwrap().1, insert_parts(sql@).unwrap().2),
                ),
                Err(e) => insert_parts(sql@) is None && final(self)@ == old(self)@ && e@
                    == ErrModel::Sql("Invalid INSERT syntax"@),
            },
    {
        let (table, args) = match Self::extract_insert_data(sql) {
            Ok(t) => t,
            Err(e) => {
                return Err(e);
            },
        };
        let (id, nm) = args;
        let row = Row {
            cols: vec![
                Col { name: "id".to_owned(), value: LocalDBValue::UUID(id) },
                Col { name: "name".to_owned(), value: LocalDBValue::TEXT(nm) },
            ],
        };
        proof {
            assert(row@ =~= insert_row_model(
                insert_parts(sql@).unwrap().1,
                insert_parts(sql@).unwrap().2,
            ));
        }
        self.db.insert_row(table, row);
        Ok(())
    }

    /// Executes a batch of semicolon-separated statements, in order: each is
    /// trimmed, empty segments are skipped, creation and insertion statements
    /// (the recognised misspelling included) are applied, and any other
    /// statement fails with an unsupported-statement error naming its text.
    /// The first failure stops the batch; the effects of earlier statements
    /// are kept.
    pub fn exec(&mut self, sql: String) -> (r: Result<(), LocalDBError>)
        requires
            old(self).wf(),
        ensures
            final(self).wf(),
            final(self)@ == run_model(old(self)@, split_semis(sql@)).db,
            match r {
                Ok(u) => run_model(old(self)@, split_semis(sql@)).err is None,
                Err(e) => run_model(old(self)@, split_semis(sql@)).err == Some(e@),
            },
    {
        let segs = split_statements(sql.as_str());
        let ghost all = segs@.map_values(|t: String| t@);
        proof {
            assert(all.skip(0) =~= all);
        }
        let mut i: usize = 0;
        while i < segs.len()
            invariant
                i <= segs.len(),
                self.wf(),
                all == segs@.map_values(|t: String| t@),
                split_semis(sql@) == all,
                run_model(old(self)@, all) == run_model(self@, all.skip(i as int)),
            decreases segs.len() - i,
        {
            proof {
                assert(all.skip(i as int)[0] == all[i as int]);
                assert(all.skip(i as int).drop_first() =~= all.skip(i as int + 1));
                assert(all[i as int] == segs@[i as int]@);
            }
            let stmt = trim(segs[i].as_str());
            if stmt.unicode_len() == 0 {
            } else if starts_with_str(stmt, "CREATE TABLE") {
                match self.handle_create_table(stmt) {
                    Ok(u) => {},
                    Err(e) => {
                        return Err(e);
                    },
                }
            } else if starts_with_str(stmt, "INSERT INTO") || starts_with_str(
                stmt,
                "INSET INTO",
            ) {
                match self.handle_insert(stmt) {
                    Ok(u) => {},
                    Err(e) => {
                        return Err(e);
                    },
                }
            } else {
                let msg = String::from_str("Unsupported SQL: ").concat(stmt);
                return Err(LocalDBError::SqlError(msg));
            }
            i = i + 1;
        }
        proof {
            assert(all.skip(i as int) =~= Seq::<Seq<char>>::empty());
        }
        Ok(())
    }

    /// Retrieves every row of the collection a retrieval statement names, in
    /// insertion order; the empty sequence where the collection is absent.
    /// Fails where the statement does not begin with the retrieval keyword,
    /// or has fewer than 4 tokens.
    pub fn query(&self, sql: &str) -> (r: Result<Vec<Row>, LocalDBError>)
        requires
            self.wf(),
        ensures
            match r {
                Ok(rows) => has_prefix(spec_trim(sql@), "SELECT"@) && select_name(spec_trim(sql@))
                    is Some && rows@.map_values(|x: Row| x@) == rows_of(
                    self@,
                    select_name(spec_trim(sql@)).unwrap(),
                ),
                Err(e) => if !has_prefix(spec_trim(sql@), "SELECT"@) {
                    e@ == ErrModel::Sql("Only SELECT is supported"@)
                } else {
                    select_name(spec_trim(sql@)) is None && e@ == ErrModel::Sql(
                        "Invalid SELECT syntax"@,
                    )
                },
            },
    {
        let sqlt = trim(sql);
        if !starts_with_str(sqlt, "SELECT") {
            return Err(LocalDBError::SqlError("Only SELECT is supported".to_owned()));
        }
        let table = match Self::extract_table_name_from_select(sqlt) {
            Ok(t) => t,
            Err(e) => {
                return Err(e);
            },
        };
        Ok(self.db.rows(table.as_str()))
    }
}

} // verus!
