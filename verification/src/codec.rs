use vstd::prelude::*;

use crate::values::LocalDBValue;
use crate::values::ValueModel;
use crate::db::Col;
use crate::db::ColModel;
use crate::db::Row;
use crate::db::RowModel;
use crate::db::Table;
use crate::db::TableModel;
use crate::db::DbModel;
use crate::db::Database;
use crate::text::push_char;
use vstd::string::StrSliceExecFns;

verus! {

// ===================== the document encoding, in the model =====================
//
// The persisted document is a single structured, human-readable text: the
// database is a brace-delimited mapping from collection name to a
// bracket-delimited list of rows, a row is a brace-delimited mapping from
// column name to value, and a value is a brace-delimited single-entry mapping
// from its tag to an integer or a quoted string.  Strings quote with `"` and
// escape `"` and `\` with a backslash.

/// How one character stands inside a quoted string.
pub open spec fn esc_char(c: char) -> Seq<char> {
    if c == '"' || c == '\\' {
        seq!['\\', c]
    } else {
        seq![c]
    }
}

/// The escaped body of a quoted string.
pub open spec fn esc_str(s: Seq<char>) -> Seq<char>
    decreases s.len(),
{
    if s.len() == 0 {
        Seq::empty()
    } else {
        esc_str(s.drop_last()) + esc_char(s.last())
    }
}

/// A quoted, escaped string.
pub open spec fn enc_str(s: Seq<char>) -> Seq<char> {
    seq!['"'] + esc_str(s) + seq!['"']
}

/// The decimal digit characters.
pub open spec fn dig_char(d: int) -> char {
    if d == 0 { '0' }
    else if d == 1 { '1' }
    else if d == 2 { '2' }
    else if d == 3 { '3' }
    else if d == 4 { '4' }
    else if d == 5 { '5' }
    else if d == 6 { '6' }
    else if d == 7 { '7' }
    else if d == 8 { '8' }
    else { '9' }
}

/// The decimal digits of a non-negative integer, most significant first.
pub open spec fn enc_nat(n: int) -> Seq<char>
    decreases n,
{
    if n < 10 {
        seq![dig_char(n)]
    } else {
        enc_nat(n / 10) + seq![dig_char(n % 10)]
    }
}

/// The decimal form of an integer, with a leading `-` where negative.
pub open spec fn enc_int(n: int) -> Seq<char> {
    if n < 0 {
        seq!['-'] + enc_nat(-n)
    } else {
        enc_nat(n)
    }
}

/// The tag naming an integer value.
pub open spec fn int_tag() -> Seq<char> {
    seq!['I', 'N', 'T']
}

/// The tag naming a text value.
pub open spec fn text_tag() -> Seq<char> {
    seq!['T', 'E', 'X', 'T']
}

/// The tag naming an identifier value.
pub open spec fn uuid_tag() -> Seq<char> {
    seq!['U', 'U', 'I', 'D']
}

/// A value: a single-entry mapping from its tag to its payload.
pub open spec fn enc_value(v: ValueModel) -> Seq<char> {
    match v {
        ValueModel::Int(n) => seq!['{'] + enc_str(int_tag()) + seq![':'] + enc_int(n) + seq!['}'],
        ValueModel::Text(s) => seq!['{'] + enc_str(text_tag()) + seq![':'] + enc_str(s) + seq!['}'],
        ValueModel::Uuid(s) => seq!['{'] + enc_str(uuid_tag()) + seq![':'] + enc_str(s) + seq!['}'],
    }
}

/// One field of a row: its name, a colon, its value.
pub open spec fn enc_col(c: ColModel) -> Seq<char> {
    enc_str(c.name) + seq![':'] + enc_value(c.value)
}

/// The fields of a row after the first, each preceded by a comma.
pub open spec fn enc_cols_rest(r: RowModel) -> Seq<char>
    decreases r.len(),
{
    if r.len() == 0 {
        Seq::empty()
    } else {
        seq![','] + enc_col(r[0]) + enc_cols_rest(r.drop_first())
    }
}

/// The comma-separated fields of a row.
pub open spec fn enc_cols_all(r: RowModel) -> Seq<char> {
    if r.len() == 0 {
        Seq::empty()
    } else {
        enc_col(r[0]) + enc_cols_rest(r.drop_first())
    }
}

/// A row: its fields between braces.
pub open spec fn enc_row(r: RowModel) -> Seq<char> {
    seq!['{'] + enc_cols_all(r) + seq!['}']
}

/// The rows after the first, each preceded by a comma.
pub open spec fn enc_rows_rest(rs: Seq<RowModel>) -> Seq<char>
    decreases rs.len(),
{
    if rs.len() == 0 {
        Seq::empty()
    } else {
        seq![','] + enc_row(rs[0]) + enc_rows_rest(rs.drop_first())
    }
}

/// The comma-separated rows of a collection.
pub open spec fn enc_rows_all(rs: Seq<RowModel>) -> Seq<char> {
    if rs.len() == 0 {
        Seq::empty()
    } else {
        enc_row(rs[0]) + enc_rows_rest(rs.drop_first())
    }
}

/// A collection's rows between brackets.
pub open spec fn enc_rows(rs: Seq<RowModel>) -> Seq<char> {
    seq!['['] + enc_rows_all(rs) + seq![']']
}

/// One collection: its name, a colon, its rows.
pub open spec fn enc_table(t: TableModel) -> Seq<char> {
    enc_str(t.name) + seq![':'] + enc_rows(t.rows)
}

/// The collections after the first, each preceded by a comma.
pub open spec fn enc_tables_rest(m: DbModel) -> Seq<char>
    decreases m.len(),
{
    if m.len() == 0 {
        Seq::empty()
    } else {
        seq![','] + enc_table(m[0]) + enc_tables_rest(m.drop_first())
    }
}

/// The comma-separated collections of the database.
pub open spec fn enc_tables_all(m: DbModel) -> Seq<char> {
    if m.len() == 0 {
        Seq::empty()
    } else {
        enc_table(m[0]) + enc_tables_rest(m.drop_first())
    }
}

/// The whole database between braces; the empty database is `{}`.
pub open spec fn enc_db(m: DbModel) -> Seq<char> {
    seq!['{'] + enc_tables_all(m) + seq!['}']
}

// ============================ the executable encoder ============================

proof fn lemma_cols_rest_push(r: RowModel, c: ColModel)
    ensures
        enc_cols_rest(r.push(c)) == enc_cols_rest(r) + seq![','] + enc_col(c),
    decreases r.len(),
{
    if r.len() == 0 {
        assert(r.push(c)[0] == c);
        assert(r.push(c).drop_first() =~= Seq::<ColModel>::empty());
        assert(enc_cols_rest(Seq::<ColModel>::empty()) =~= Seq::<char>::empty());
        assert(enc_cols_rest(r.push(c)) =~= enc_cols_rest(r) + seq![','] + enc_col(c));
    } else {
        assert(r.push(c)[0] == r[0]);
        assert(r.push(c).drop_first() =~= r.drop_first().push(c));
        lemma_cols_rest_push(r.drop_first(), c);
        assert(enc_cols_rest(r.push(c)) =~= enc_cols_rest(r) + seq![','] + enc_col(c));
    }
}

proof fn lemma_cols_all_push(r: RowModel, c: ColModel)
    ensures
        enc_cols_all(r.push(c)) == enc_cols_all(r) + (if r.len() == 0 {
            enc_col(c)
        } else {
            seq![','] + enc_col(c)
        }),
{
    if r.len() == 0 {
        assert(r.push(c)[0] == c);
        assert(r.push(c).drop_first() =~= Seq::<ColModel>::empty());
        assert(enc_cols_all(r.push(c)) =~= enc_cols_all(r) + enc_col(c));
    } else {
        assert(r.push(c)[0] == r[0]);
        assert(r.push(c).drop_first() =~= r.drop_first().push(c));
        lemma_cols_rest_push(r.drop_first(), c);
        assert(enc_cols_all(r.push(c)) =~= enc_cols_all(r) + (seq![','] + enc_col(c)));
    }
}

proof fn lemma_rows_rest_push(rs: Seq<RowModel>, x: RowModel)
    ensures
        enc_rows_rest(rs.push(x)) == enc_rows_rest(rs) + seq![','] + enc_row(x),
    decreases rs.len(),
{
    if rs.len() == 0 {
        assert(rs.push(x)[0] == x);
        assert(rs.push(x).drop_first() =~= Seq::<RowModel>::empty());
        assert(enc_rows_rest(Seq::<RowModel>::empty()) =~= Seq::<char>::empty());
        assert(enc_rows_rest(rs.push(x)) =~= enc_rows_rest(rs) + seq![','] + enc_row(x));
    } else {
        assert(rs.push(x)[0] == rs[0]);
        assert(rs.push(x).drop_first() =~= rs.drop_first().push(x));
        lemma_rows_rest_push(rs.drop_first(), x);
        assert(enc_rows_rest(rs.push(x)) =~= enc_rows_rest(rs) + seq![','] + enc_row(x));
    }
}

proof fn lemma_rows_all_push(rs: Seq<RowModel>, x: RowModel)
    ensures
        enc_rows_all(rs.push(x)) == enc_rows_all(rs) + (if rs.len() == 0 {
            enc_row(x)
        } else {
            seq![','] + enc_row(x)
        }),
{
    if rs.len() == 0 {
        assert(rs.push(x)[0] == x);
        assert(rs.push(x).drop_first() =~= Seq::<RowModel>::empty());
        assert(enc_rows_all(rs.push(x)) =~= enc_rows_all(rs) + enc_row(x));
    } else {
        assert(rs.push(x)[0] == rs[0]);
        assert(rs.push(x).drop_first() =~= rs.drop_first().push(x));
        lemma_rows_rest_push(rs.drop_first(), x);
        assert(enc_rows_all(rs.push(x)) =~= enc_rows_all(rs) + (seq![','] + enc_row(x)));
    }
}

proof fn lemma_tables_rest_push(m: DbModel, t: TableModel)
    ensures
        enc_tables_rest(m.push(t)) == enc_tables_rest(m) + seq![','] + enc_table(t),
    decreases m.len(),
{
    if m.len() == 0 {
        assert(m.push(t)[0] == t);
        assert(m.push(t).drop_first() =~= Seq::<TableModel>::empty());
        assert(enc_tables_rest(Seq::<TableModel>::empty()) =~= Seq::<char>::empty());
        assert(enc_tables_rest(m.push(t)) =~= enc_tables_rest(m) + seq![','] + enc_table(t));
    } else {
        assert(m.push(t)[0] == m[0]);
        assert(m.push(t).drop_first() =~= m.drop_first().push(t));
        lemma_tables_rest_push(m.drop_first(), t);
        assert(enc_tables_rest(m.push(t)) =~= enc_tables_rest(m) + seq![','] + enc_table(t));
    }
}

proof fn lemma_tables_all_push(m: DbModel, t: TableModel)
    ensures
        enc_tables_all(m.push(t)) == enc_tables_all(m) + (if m.len() == 0 {
            enc_table(t)
        } else {
            seq![','] + enc_table(t)
        }),
{
    if m.len() == 0 {
        assert(m.push(t)[0] == t);
        assert(m.push(t).drop_first() =~= Seq::<TableModel>::empty());
        assert(enc_tables_all(m.push(t)) =~= enc_tables_all(m) + enc_table(t));
    } else {
        assert(m.push(t)[0] == m[0]);
        assert(m.push(t).drop_first() =~= m.drop_first().push(t));
        lemma_tables_rest_push(m.drop_first(), t);
        assert(enc_tables_all(m.push(t)) =~= enc_tables_all(m) + (seq![','] + enc_table(t)));
    }
}

/// Appends the escaped body of `s`.
fn w_escaped(out: &mut String, s: &str)
    ensures
        final(out)@ == old(out)@ + esc_str(s@),
{
    let n = s.unicode_len();
    let mut i: usize = 0;
    proof {
        assert(s@.take(0) =~= Seq::<char>::empty());
        assert(old(out)@ + esc_str(s@.take(0)) =~= old(out)@);
    }
    while i < n
        invariant
            i <= n,
            n == s@.len(),
            out@ == old(out)@ + esc_str(s@.take(i as int)),
        decreases n - i,
    {
        let c = s.get_char(i);
        if c == '"' || c == '\\' {
            push_char(out, '\\');
            push_char(out, c);
        } else {
            push_char(out, c);
        }
        i = i + 1;
        proof {
            assert(s@.take(i as int).drop_last() =~= s@.take(i as int - 1));
            assert(s@.take(i as int).last() == s@[i as int - 1]);
            assert(out@ =~= old(out)@ + esc_str(s@.take(i as int)));
        }
    }
    proof {
        assert(s@.take(n as int) =~= s@);
    }
}

/// Appends the quoted, escaped form of `s`.
fn w_str(out: &mut String, s: &str)
    ensures
        final(out)@ == old(out)@ + enc_str(s@),
{
    push_char(out, '"');
    w_escaped(out, s);
    push_char(out, '"');
    proof {
        assert(out@ =~= old(out)@ + enc_str(s@));
    }
}

/// The character of one decimal digit.
fn dig_exec(d: u64) -> (c: char)
    requires
        d < 10,
    ensures
        c == dig_char(d as int),
{
    if d == 0 { '0' }
    else if d == 1 { '1' }
    else if d == 2 { '2' }
    else if d == 3 { '3' }
    else if d == 4 { '4' }
    else if d == 5 { '5' }
    else if d == 6 { '6' }
    else if d == 7 { '7' }
    else if d == 8 { '8' }
    else { '9' }
}

/// Appends the decimal digits of `n`.
fn w_nat(out: &mut String, n: u64)
    ensures
        final(out)@ == old(out)@ + enc_nat(n as int),
    decreases n,
{
    if n < 10 {
        push_char(out, dig_exec(n));
        proof {
            assert(out@ =~= old(out)@ + enc_nat(n as int));
        }
    } else {
        w_nat(out, n / 10);
        push_char(out, dig_exec(n % 10));
        proof {
            assert(out@ =~= old(out)@ + enc_nat(n as int));
        }
    }
}

/// Appends the decimal form of `n`.
fn w_int(out: &mut String, n: i64)
    ensures
        final(out)@ == old(out)@ + enc_int(n as int),
{
    if n >= 0 {
        w_nat(out, n as u64);
    } else {
        push_char(out, '-');
        let mag: u64 = ((-(n + 1)) as u64) + 1;
        proof {
            assert(mag as int == -(n as int));
        }
        w_nat(out, mag);
        proof {
            assert(out@ =~= old(out)@ + enc_int(n as int));
        }
    }
}

/// Appends the encoding of one value.
fn w_value(out: &mut String, v: &LocalDBValue)
    ensures
        final(out)@ == old(out)@ + enc_value(v@),
{
    push_char(out, '{');
    match v {
        LocalDBValue::INT(n) => {
            w_str(out, "INT");
            push_char(out, ':');
            w_int(out, *n);
            proof {
                reveal_strlit("INT");
                assert("INT"@ =~= int_tag());
            }
        },
        LocalDBValue::TEXT(s) => {
            w_str(out, "TEXT");
            push_char(out, ':');
            w_str(out, s.as_str());
            proof {
                reveal_strlit("TEXT");
                assert("TEXT"@ =~= text_tag());
            }
        },
        LocalDBValue::UUID(s) => {
            w_str(out, "UUID");
            push_char(out, ':');
            w_str(out, s.as_str());
            proof {
                reveal_strlit("UUID");
                assert("UUID"@ =~= uuid_tag());
            }
        },
    }
    push_char(out, '}');
    proof {
        assert(out@ =~= old(out)@ + enc_value(v@));
    }
}

/// Appends the encoding of one field.
fn w_col(out: &mut String, c: &Col)
    ensures
        final(out)@ == old(out)@ + enc_col(c@),
{
    w_str(out, c.name.as_str());
    push_char(out, ':');
    w_value(out, &c.value);
    proof {
        assert(out@ =~= old(out)@ + enc_col(c@));
    }
}

/// Appends the encoding of one row.
fn w_row(out: &mut String, r: &Row)
    ensures
        final(out)@ == old(out)@ + enc_row(r@),
{
    push_char(out, '{');
    let n = r.cols.len();
    let mut j: usize = 0;
    proof {
        assert(r@.take(0) =~= Seq::<ColModel>::empty());
        assert(out@ =~= old(out)@ + seq!['{'] + enc_cols_all(r@.take(0)));
    }
    while j < n
        invariant
            j <= n,
            n == r.cols.len(),
            out@ == old(out)@ + seq!['{'] + enc_cols_all(r@.take(j as int)),
        decreases n - j,
    {
        if j > 0 {
            push_char(out, ',');
        }
        w_col(out, &r.cols[j]);
        j = j + 1;
        proof {
            assert(r@.take(j as int) =~= r@.take(j as int - 1).push(r@[j as int - 1]));
            lemma_cols_all_push(r@.take(j as int - 1), r@[j as int - 1]);
            assert(out@ =~= old(out)@ + seq!['{'] + enc_cols_all(r@.take(j as int)));
        }
    }
    push_char(out, '}');
    proof {
        assert(r@.take(n as int) =~= r@);
        assert(out@ =~= old(out)@ + enc_row(r@));
    }
}

/// Appends the encoding of one collection's rows.
fn w_rows(out: &mut String, rows: &Vec<Row>)
    ensures
        final(out)@ == old(out)@ + enc_rows(rows@.map_values(|r: Row| r@)),
{
    let ghost rsm = rows@.map_values(|r: Row| r@);
    push_char(out, '[');
    let n = rows.len();
    let mut j: usize = 0;
    proof {
        assert(rsm.take(0) =~= Seq::<RowModel>::empty());
        assert(out@ =~= old(out)@ + seq!['['] + enc_rows_all(rsm.take(0)));
    }
    while j < n
        invariant
            j <= n,
            n == rows.len(),
            rsm == rows@.map_values(|r: Row| r@),
            out@ == old(out)@ + seq!['['] + enc_rows_all(rsm.take(j as int)),
        decreases n - j,
    {
        if j > 0 {
            push_char(out, ',');
        }
        w_row(out, &rows[j]);
        j = j + 1;
        proof {
            assert(rsm.take(j as int) =~= rsm.take(j as int - 1).push(rsm[j as int - 1]));
            lemma_rows_all_push(rsm.take(j as int - 1), rsm[j as int - 1]);
            assert(out@ =~= old(out)@ + seq!['['] + enc_rows_all(rsm.take(j as int)));
        }
    }
    push_char(out, ']');
    proof {
        assert(rsm.take(n as int) =~= rsm);
        assert(out@ =~= old(out)@ + enc_rows(rsm));
    }
}

/// Appends the encoding of one collection.
fn w_table(out: &mut String, t: &Table)
    ensures
        final(out)@ == old(out)@ + enc_table(t@),
{
    w_str(out, t.name.as_str());
    push_char(out, ':');
    w_rows(out, &t.rows);
    proof {
        assert(out@ =~= old(out)@ + enc_table(t@));
    }
}

/// Serialises the whole database as one document.
#[verifier::rlimit(30)]
pub fn encode_db(db: &Database) -> (r: String)
    ensures
        r@ == enc_db(db@),
{
    let ghost m = db@;
    let mut out = String::new();
    push_char(&mut out, '{');
    let n = db.tables.len();
    let mut j: usize = 0;
    proof {
        assert(m.take(0) =~= Seq::<TableModel>::empty());
        assert(out@ =~= seq!['{'] + enc_tables_all(m.take(0)));
    }
    while j < n
        invariant
            j <= n,
            n == db.tables.len(),
            m == db@,
            out@ == seq!['{'] + enc_tables_all(m.take(j as int)),
        decreases n - j,
    {
        if j > 0 {
            push_char(&mut out, ',');
        }
        w_table(&mut out, &db.tables[j]);
        j = j + 1;
        proof {
            assert(m.take(j as int) =~= m.take(j as int - 1).push(m[j as int - 1]));
            lemma_tables_all_push(m.take(j as int - 1), m[j as int - 1]);
            assert(out@ =~= seq!['{'] + enc_tables_all(m.take(j as int)));
        }
    }
    push_char(&mut out, '}');
    proof {
        assert(m.take(n as int) =~= m);
        assert(out@ =~= enc_db(m));
    }
    out
}

} // verus!
