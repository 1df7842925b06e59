use vstd::prelude::*;

use crate::values::LocalDBValue;
use crate::values::ValueModel;
use crate::db::Col;
use crate::db::ColModel;
use crate::db::Row;
use crate::db::RowModel;
use crate::db::Table;
use crate::db::TableModel;
use crate::db::DbModel;
use crate::db::Database;
use crate::db::db_wf;
use crate::codec::int_tag;
use crate::codec::text_tag;
use crate::codec::uuid_tag;
use crate::text::push_char;
use crate::text::str_eq;
use crate::text::skip_ws_from;
use crate::text::skip_ws_exec;
use crate::text::lemma_skip_ws;
use vstd::string::StrSliceExecFns;

verus! {

// ======================= the document parser, in the model =======================
//
// A total recursive-descent reading of the document text, whitespace-tolerant
// between tokens.  Each piece takes a position and yields the parsed model
// value and the position after it, or `None` where the text does not fit the
// format.  The executable decoder mirrors these definitions one branch at a
// time.

/// The decimal digit characters.
pub open spec fn is_digit(c: char) -> bool {
    c == '0' || c == '1' || c == '2' || c == '3' || c == '4' || c == '5' || c == '6' || c == '7'
        || c == '8' || c == '9'
}

/// The value of a decimal digit character.
pub open spec fn dig_val(c: char) -> int {
    if c == '0' { 0 }
    else if c == '1' { 1 }
    else if c == '2' { 2 }
    else if c == '3' { 3 }
    else if c == '4' { 4 }
    else if c == '5' { 5 }
    else if c == '6' { 6 }
    else if c == '7' { 7 }
    else if c == '8' { 8 }
    else if c == '9' { 9 }
    else { 0 }
}

/// The body of a quoted string after the opening quote: characters are taken
/// as they stand, a backslash takes the following character, the closing
/// quote ends the body.
pub open spec fn p_strbody(s: Seq<char>, i: int, acc: Seq<char>) -> Option<(Seq<char>, int)>
    decreases s.len() - i,
{
    if i >= s.len() {
        None
    } else if s[i] == '"' {
        Some((acc, i + 1))
    } else if s[i] == '\\' {
        if i + 1 < s.len() {
            p_strbody(s, i + 2, acc.push(s[i + 1]))
        } else {
            None
        }
    } else {
        p_strbody(s, i + 1, acc.push(s[i]))
    }
}

/// A quoted string at `i`.
pub open spec fn p_str(s: Seq<char>, i: int) -> Option<(Seq<char>, int)> {
    if 0 <= i < s.len() && s[i] == '"' {
        p_strbody(s, i + 1, Seq::empty())
    } else {
        None
    }
}

pub proof fn lemma_p_strbody_bounds(s: Seq<char>, i: int, acc: Seq<char>)
    requires
        0 <= i <= s.len(),
    ensures
        match p_strbody(s, i, acc) {
            Some(r) => i < r.1 <= s.len(),
            None => true,
        },
    decreases s.len() - i,
{
    if i < s.len() && s[i] != '"' {
        if s[i] == '\\' {
            if i + 1 < s.len() {
                lemma_p_strbody_bounds(s, i + 2, acc.push(s[i + 1]));
            }
        } else {
            lemma_p_strbody_bounds(s, i + 1, acc.push(s[i]));
        }
    }
}

pub proof fn lemma_p_str_bounds(s: Seq<char>, i: int)
    requires
        0 <= i <= s.len(),
    ensures
        match p_str(s, i) {
            Some(r) => i < r.1 <= s.len(),
            None => true,
        },
{
    if i < s.len() && s[i] == '"' {
        lemma_p_strbody_bounds(s, i + 1, Seq::empty());
    }
}

/// A run of digits folded onto `acc`, refused where the value would pass
/// `bound`; ends before the first non-digit.
pub open spec fn p_digits(s: Seq<char>, i: int, acc: int, bound: int) -> Option<(int, int)>
    decreases s.len() - i,
{
    if i >= s.len() || !is_digit(s[i]) {
        Some((acc, i))
    } else {
        let a2 = acc * 10 + dig_val(s[i]);
        if a2 > bound {
            None
        } else {
            p_digits(s, i + 1, a2, bound)
        }
    }
}

pub proof fn lemma_p_digits_bounds(s: Seq<char>, i: int, acc: int, bound: int)
    requires
        0 <= i <= s.len(),
        0 <= acc <= bound,
    ensures
        match p_digits(s, i, acc, bound) {
            Some(r) => i <= r.1 <= s.len() && acc <= r.0 <= bound,
            None => true,
        },
    decreases s.len() - i,
{
    if i < s.len() && is_digit(s[i]) {
        let a2 = acc * 10 + dig_val(s[i]);
        if a2 <= bound {
            lemma_p_digits_bounds(s, i + 1, a2, bound);
        }
    }
}

/// A decimal integer at `i`, with an optional leading `-`, within the range
/// of 64-bit signed integers.
pub open spec fn p_int(s: Seq<char>, i: int) -> Option<(int, int)> {
    if i < 0 || i >= s.len() {
        None
    } else if s[i] == '-' {
        if i + 1 < s.len() && is_digit(s[i + 1]) {
            match p_digits(s, i + 1, 0, 9223372036854775808) {
                Some(r) => Some((-r.0, r.1)),
                None => None,
            }
        } else {
            None
        }
    } else if is_digit(s[i]) {
        p_digits(s, i, 0, 9223372036854775807)
    } else {
        None
    }
}

pub proof fn lemma_p_int_bounds(s: Seq<char>, i: int)
    requires
        0 <= i <= s.len(),
    ensures
        match p_int(s, i) {
            Some(r) => i < r.1 <= s.len(),
            None => true,
        },
{
    if i < s.len() {
        if s[i] == '-' {
            if i + 1 < s.len() && is_digit(s[i + 1]) {
                lemma_p_digits_bounds(s, i + 1, 0, 9223372036854775808);
                match p_digits(s, i + 1, 0, 9223372036854775808) {
                    Some(r) => {
                        if r.1 == i + 1 {
                            assert(is_digit(s[i + 1]));
                        }
                    },
                    None => {},
                }
            }
        } else if is_digit(s[i]) {
            let a2 = dig_val(s[i]);
            lemma_p_digits_bounds(s, i + 1, a2, 9223372036854775807);
        }
    }
}

/// A closing brace after optional whitespace.
pub open spec fn p_close(s: Seq<char>, i: int) -> Option<int> {
    let w = skip_ws_from(s, i);
    if w < s.len() && s[w] == '}' {
        Some(w + 1)
    } else {
        None
    }
}

pub proof fn lemma_p_close_bounds(s: Seq<char>, i: int)
    requires
        0 <= i <= s.len(),
    ensures
        match p_close(s, i) {
            Some(j) => i < j <= s.len(),
            None => true,
        },
{
    lemma_skip_ws(s, i);
}

/// A value at `i`: a brace-delimited single-entry mapping from a tag to an
/// integer or a quoted string.
pub open spec fn p_value(s: Seq<char>, i: int) -> Option<(ValueModel, int)> {
    let a = skip_ws_from(s, i);
    if a < s.len() && s[a] == '{' {
        let b = skip_ws_from(s, a + 1);
        match p_str(s, b) {
            Some(tagr) => {
                let k = skip_ws_from(s, tagr.1);
                if k < s.len() && s[k] == ':' {
                    let m0 = skip_ws_from(s, k + 1);
                    if tagr.0 == int_tag() {
                        match p_int(s, m0) {
                            Some(nr) => match p_close(s, nr.1) {
                                Some(f) => Some((ValueModel::Int(nr.0), f)),
                                None => None,
                            },
                            None => None,
                        }
                    } else if tagr.0 == text_tag() {
                        match p_str(s, m0) {
                            Some(vr) => match p_close(s, vr.1) {
                                Some(f) => Some((ValueModel::Text(vr.0), f)),
                                None => None,
                            },
                            None => None,
                        }
                    } else if tagr.0 == uuid_tag() {
                        match p_str(s, m0) {
                            Some(vr) => match p_close(s, vr.1) {
                                Some(f) => Some((ValueModel::Uuid(vr.0), f)),
                                None => None,
                            },
                            None => None,
                        }
                    } else {
                        None
                    }
                } else {
                    None
                }
            },
            None => None,
        }
    } else {
        None
    }
}

pub proof fn lemma_p_value_bounds(s: Seq<char>, i: int)
    requires
        0 <= i <= s.len(),
    ensures
        match p_value(s, i) {
            Some(r) => i < r.1 <= s.len(),
            None => true,
        },
{
    lemma_skip_ws(s, i);
    let a = skip_ws_from(s, i);
    if a < s.len() && s[a] == '{' {
        lemma_skip_ws(s, a + 1);
        let b = skip_ws_from(s, a + 1);
        lemma_p_str_bounds(s, b);
        match p_str(s, b) {
            Some(tagr) => {
                lemma_skip_ws(s, tagr.1);
                let k = skip_ws_from(s, tagr.1);
                if k < s.len() && s[k] == ':' {
                    lemma_skip_ws(s, k + 1);
                    let m0 = skip_ws_from(s, k + 1);
                    lemma_p_int_bounds(s, m0);
                    lemma_p_str_bounds(s, m0);
                    match p_int(s, m0) {
                        Some(nr) => {
                            lemma_p_close_bounds(s, nr.1);
                        },
                        None => {},
                    }
                    match p_str(s, m0) {
                        Some(vr) => {
                            lemma_p_close_bounds(s, vr.1);
                        },
                        None => {},
                    }
                }
            },
            None => {},
        }
    }
}

/// One field at `i`: a quoted name, a colon, a value.
pub open spec fn p_col(s: Seq<char>, i: int) -> Option<(ColModel, int)> {
    let a = skip_ws_from(s, i);
    match p_str(s, a) {
        Some(nr) => {
            let k = skip_ws_from(s, nr.1);
            if k < s.len() && s[k] == ':' {
                match p_value(s, k + 1) {
                    Some(vr) => Some((ColModel { name: nr.0, value: vr.0 }, vr.1)),
                    None => None,
                }
            } else {
                None
            }
        },
        None => None,
    }
}

pub proof fn lemma_p_col_bounds(s: Seq<char>, i: int)
    requires
        0 <= i <= s.len(),
    ensures
        match p_col(s, i) {
            Some(r) => i < r.1 <= s.len(),
            None => true,
        },
{
    lemma_skip_ws(s, i);
    let a = skip_ws_from(s, i);
    lemma_p_str_bounds(s, a);
    match p_str(s, a) {
        Some(nr) => {
            lemma_skip_ws(s, nr.1);
            let k = skip_ws_from(s, nr.1);
            if k < s.len() && s[k] == ':' {
                lemma_p_value_bounds(s, k + 1);
            }
        },
        None => {},
    }
}

/// The fields after the first: each comma draws one more.
pub open spec fn p_cols_rest(s: Seq<char>, i: int, acc: Seq<ColModel>) -> Option<
    (Seq<ColModel>, int),
>
    decreases s.len() - i
        when 0 <= i <= s.len()
        via p_cols_rest_dec
{
    let w = skip_ws_from(s, i);
    if w < s.len() && s[w] == ',' {
        match p_col(s, w + 1) {
            Some(cr) => p_cols_rest(s, cr.1, acc.push(cr.0)),
            None => None,
        }
    } else {
        Some((acc, i))
    }
}

#[via_fn]
proof fn p_cols_rest_dec(s: Seq<char>, i: int, acc: Seq<ColModel>) {
    if 0 <= i <= s.len() {
        lemma_skip_ws(s, i);
        let w = skip_ws_from(s, i);
        if w < s.len() && s[w] == ',' {
            lemma_p_col_bounds(s, w + 1);
        }
    }
}

pub proof fn lemma_p_cols_rest_bounds(s: Seq<char>, i: int, acc: Seq<ColModel>)
    requires
        0 <= i <= s.len(),
    ensures
        match p_cols_rest(s, i, acc) {
            Some(r) => i <= r.1 <= s.len(),
            None => true,
        },
    decreases s.len() - i,
{
    lemma_skip_ws(s, i);
    let w = skip_ws_from(s, i);
    if w < s.len() && s[w] == ',' {
        lemma_p_col_bounds(s, w + 1);
        match p_col(s, w + 1) {
            Some(cr) => {
                lemma_p_cols_rest_bounds(s, cr.1, acc.push(cr.0));
            },
            None => {},
        }
    }
}

/// A row at `i`: its fields between braces.
pub open spec fn p_row(s: Seq<char>, i: int) -> Option<(RowModel, int)> {
    let a = skip_ws_from(s, i);
    if a < s.len() && s[a] == '{' {
        let b = skip_ws_from(s, a + 1);
        if b < s.len() && s[b] == '}' {
            Some((Seq::empty(), b + 1))
        } else {
            match p_col(s, a + 1) {
                Some(cr) => match p_cols_rest(s, cr.1, seq![cr.0]) {
                    Some(csr) => match p_close(s, csr.1) {
                        Some(f) => Some((csr.0, f)),
                        None => None,
                    },
                    None => None,
                },
                None => None,
            }
        }
    } else {
        None
    }
}

pub proof fn lemma_p_row_bounds(s: Seq<char>, i: int)
    requires
        0 <= i <= s.len(),
    ensures
        match p_row(s, i) {
            Some(r) => i < r.1 <= s.len(),
            None => true,
        },
{
    lemma_skip_ws(s, i);
    let a = skip_ws_from(s, i);
    if a < s.len() && s[a] == '{' {
        lemma_skip_ws(s, a + 1);
        let b = skip_ws_from(s, a + 1);
        if !(b < s.len() && s[b] == '}') {
            lemma_p_col_bounds(s, a + 1);
            match p_col(s, a + 1) {
                Some(cr) => {
                    lemma_p_cols_rest_bounds(s, cr.1, seq![cr.0]);
                    match p_cols_rest(s, cr.1, seq![cr.0]) {
                        Some(csr) => {
                            lemma_p_close_bounds(s, csr.1);
                        },
                        None => {},
                    }
                },
                None => {},
            }
        }
    }
}

/// The rows after the first: each comma draws one more.
pub open spec fn p_rows_rest(s: Seq<char>, i: int, acc: Seq<RowModel>) -> Option<
    (Seq<RowModel>, int),
>
    decreases s.len() - i
        when 0 <= i <= s.len()
        via p_rows_rest_dec
{
    let w = skip_ws_from(s, i);
    if w < s.len() && s[w] == ',' {
        match p_row(s, w + 1) {
            Some(rr) => p_rows_rest(s, rr.1, acc.push(rr.0)),
            None => None,
        }
    } else {
        Some((acc, i))
    }
}

#[via_fn]
proof fn p_rows_rest_dec(s: Seq<char>, i: int, acc: Seq<RowModel>) {
    if 0 <= i <= s.len() {
        lemma_skip_ws(s, i);
        let w = skip_ws_from(s, i);
        if w < s.len() && s[w] == ',' {
            lemma_p_row_bounds(s, w + 1);
        }
    }
}

pub proof fn lemma_p_rows_rest_bounds(s: Seq<char>, i: int, acc: Seq<RowModel>)
    requires
        0 <= i <= s.len(),
    ensures
        match p_rows_rest(s, i, acc) {
            Some(r) => i <= r.1 <= s.len(),
            None => true,
        },
    decreases s.len() - i,
{
    lemma_skip_ws(s, i);
    let w = skip_ws_from(s, i);
    if w < s.len() && s[w] == ',' {
        lemma_p_row_bounds(s, w + 1);
        match p_row(s, w + 1) {
            Some(rr) => {
                lemma_p_rows_rest_bounds(s, rr.1, acc.push(rr.0));
            },
            None => {},
        }
    }
}

/// A collection's rows at `i`: a bracket-delimited list.
pub open spec fn p_rows(s: Seq<char>, i: int) -> Option<(Seq<RowModel>, int)> {
    let a = skip_ws_from(s, i);
    if a < s.len() && s[a] == '[' {
        let b = skip_ws_from(s, a + 1);
        if b < s.len() && s[b] == ']' {
            Some((Seq::empty(), b + 1))
        } else {
            match p_row(s, a + 1) {
                Some(rr) => match p_rows_rest(s, rr.1, seq![rr.0]) {
                    Some(rsr) => {
                        let w = skip_ws_from(s, rsr.1);
                        if w < s.len() && s[w] == ']' {
                            Some((rsr.0, w + 1))
                        } else {
                            None
                        }
                    },
                    None => None,
                },
                None => None,
            }
        }
    } else {
        None
    }
}

pub proof fn lemma_p_rows_bounds(s: Seq<char>, i: int)
    requires
        0 <= i <= s.len(),
    ensures
        match p_rows(s, i) {
            Some(r) => i < r.1 <= s.len(),
            None => true,
        },
{
    lemma_skip_ws(s, i);
    let a = skip_ws_from(s, i);
    if a < s.len() && s[a] == '[' {
        lemma_skip_ws(s, a + 1);
        let b = skip_ws_from(s, a + 1);
        if !(b < s.len() && s[b] == ']') {
            lemma_p_row_bounds(s, a + 1);
            match p_row(s, a + 1) {
                Some(rr) => {
                    lemma_p_rows_rest_bounds(s, rr.1, seq![rr.0]);
                    match p_rows_rest(s, rr.1, seq![rr.0]) {
                        Some(rsr) => {
                            lemma_skip_ws(s, rsr.1);
                        },
                        None => {},
                    }
                },
                None => {},
            }
        }
    }
}

/// One collection at `i`: a quoted name, a colon, its rows.
pub open spec fn p_table(s: Seq<char>, i: int) -> Option<(TableModel, int)> {
    let a = skip_ws_from(s, i);
    match p_str(s, a) {
        Some(nr) => {
            let k = skip_ws_from(s, nr.1);
            if k < s.len() && s[k] == ':' {
                match p_rows(s, k + 1) {
                    Some(rsr) => Some((TableModel { name: nr.0, rows: rsr.0 }, rsr.1)),
                    None => None,
                }
            } else {
                None
            }
        },
        None => None,
    }
}

pub proof fn lemma_p_table_bounds(s: Seq<char>, i: int)
    requires
        0 <= i <= s.len(),
    ensures
        match p_table(s, i) {
            Some(r) => i < r.1 <= s.len(),
            None => true,
        },
{
    lemma_skip_ws(s, i);
    let a = skip_ws_from(s, i);
    lemma_p_str_bounds(s, a);
    match p_str(s, a) {
        Some(nr) => {
            lemma_skip_ws(s, nr.1);
            let k = skip_ws_from(s, nr.1);
            if k < s.len() && s[k] == ':' {
                lemma_p_rows_bounds(s, k + 1);
            }
        },
        None => {},
    }
}

/// The collections after the first: each comma draws one more.
pub open spec fn p_tables_rest(s: Seq<char>, i: int, acc: DbModel) -> Option<(DbModel, int)>
    decreases s.len() - i
        when 0 <= i <= s.len()
        via p_tables_rest_dec
{
    let w = skip_ws_from(s, i);
    if w < s.len() && s[w] == ',' {
        match p_table(s, w + 1) {
            Some(tr) => p_tables_rest(s, tr.1, acc.push(tr.0)),
            None => None,
        }
    } else {
        Some((acc, i))
    }
}

#[via_fn]
proof fn p_tables_rest_dec(s: Seq<char>, i: int, acc: DbModel) {
    if 0 <= i <= s.len() {
        lemma_skip_ws(s, i);
        let w = skip_ws_from(s, i);
        if w < s.len() && s[w] == ',' {
            lemma_p_table_bounds(s, w + 1);
        }
    }
}

/// The whole database at `i`: a brace-delimited mapping.
pub open spec fn p_db(s: Seq<char>, i: int) -> Option<(DbModel, int)> {
    let a = skip_ws_from(s, i);
    if a < s.len() && s[a] == '{' {
        let b = skip_ws_from(s, a + 1);
        if b < s.len() && s[b] == '}' {
            Some((Seq::empty(), b + 1))
        } else {
            match p_table(s, a + 1) {
                Some(tr) => match p_tables_rest(s, tr.1, seq![tr.0]) {
                    Some(msr) => match p_close(s, msr.1) {
                        Some(f) => Some((msr.0, f)),
                        None => None,
                    },
                    None => None,
                },
                None => None,
            }
        }
    } else {
        None
    }
}

/// What the whole document denotes: the parsed database where the text
/// parses, nothing but whitespace follows it, and its collection names are
/// unique; the empty database otherwise (permissive recovery).
pub open spec fn dec_db(s: Seq<char>) -> DbModel {
    match p_db(s, 0) {
        Some(r) => if skip_ws_from(s, r.1) == s.len() && db_wf(r.0) {
            r.0
        } else {
            Seq::empty()
        },
        None => Seq::empty(),
    }
}

// ============================ the executable decoder ============================

/// The value of one decimal digit character.
fn digit_exec(c: char) -> (r: Option<u64>)
    ensures
        match r {
            Some(d) => is_digit(c) && d == dig_val(c) && d < 10,
            None => !is_digit(c),
        },
{
    if c == '0' { Some(0) }
    else if c == '1' { Some(1) }
    else if c == '2' { Some(2) }
    else if c == '3' { Some(3) }
    else if c == '4' { Some(4) }
    else if c == '5' { Some(5) }
    else if c == '6' { Some(6) }
    else if c == '7' { Some(7) }
    else if c == '8' { Some(8) }
    else if c == '9' { Some(9) }
    else { None }
}

fn e_strbody(s: &str, i: usize, acc: &mut String) -> (r: Option<usize>)
    requires
        i <= s@.len(),
    ensures
        match r {
            Some(j) => p_strbody(s@, i as int, old(acc)@) == Some((final(acc)@, j as int)) && i < j
                <= s@.len(),
            None => p_strbody(s@, i as int, old(acc)@) is None,
        },
    decreases s@.len() - i,
{
    let n = s.unicode_len();
    if i == n {
        return None;
    }
    let c = s.get_char(i);
    if c == '"' {
        Some(i + 1)
    } else if c == '\\' {
        if i + 1 < n {
            push_char(acc, s.get_char(i + 1));
            e_strbody(s, i + 2, acc)
        } else {
            None
        }
    } else {
        push_char(acc, c);
        e_strbody(s, i + 1, acc)
    }
}

fn e_str(s: &str, i: usize) -> (r: Option<(String, usize)>)
    requires
        i <= s@.len(),
    ensures
        match r {
            Some(t) => p_str(s@, i as int) == Some((t.0@, t.1 as int)) && i < t.1 <= s@.len(),
            None => p_str(s@, i as int) is None,
        },
{
    let n = s.unicode_len();
    if i < n && s.get_char(i) == '"' {
        let mut acc = String::new();
        match e_strbody(s, i + 1, &mut acc) {
            Some(j) => Some((acc, j)),
            None => None,
        }
    } else {
        None
    }
}

fn e_digits(s: &str, i: usize, acc: u64, bound: u64) -> (r: Option<(u64, usize)>)
    requires
        i <= s@.len(),
        acc <= bound,
        bound <= 9223372036854775808,
    ensures
        match r {
            Some(t) => p_digits(s@, i as int, acc as int, bound as int) == Some(
                (t.0 as int, t.1 as int),
            ) && i <= t.1 <= s@.len() && t.0 <= bound,
            None => p_digits(s@, i as int, acc as int, bound as int) is None,
        },
    decreases s@.len() - i,
{
    let n = s.unicode_len();
    if i == n {
        return Some((acc, i));
    }
    match digit_exec(s.get_char(i)) {
        None => Some((acc, i)),
        Some(d) => {
            let a2: u128 = (acc as u128) * 10 + (d as u128);
            if a2 > bound as u128 {
                None
            } else {
                e_digits(s, i + 1, a2 as u64, bound)
            }
        },
    }
}

fn e_int(s: &str, i: usize) -> (r: Option<(i64, usize)>)
    requires
        i <= s@.len(),
    ensures
        match r {
            Some(t) => p_int(s@, i as int) == Some((t.0 as int, t.1 as int)) && i < t.1
                <= s@.len(),
            None => p_int(s@, i as int) is None,
        },
{
    let n = s.unicode_len();
    if i >= n {
        return None;
    }
    let c = s.get_char(i);
    if c == '-' {
        if i + 1 < n && digit_exec(s.get_char(i + 1)).is_some() {
            match e_digits(s, i + 1, 0, 9223372036854775808) {
                Some(t) => {
                    proof {
                        lemma_p_digits_bounds(s@, i as int + 1, 0, 9223372036854775808);
                    }
                    let v: i64 = if t.0 == 9223372036854775808 {
                        i64::MIN
                    } else {
                        -(t.0 as i64)
                    };
                    Some((v, t.1))
                },
                None => None,
            }
        } else {
            None
        }
    } else {
        match digit_exec(c) {
            Some(d) => {
                match e_digits(s, i, 0, 9223372036854775807) {
                    Some(t) => {
                        proof {
                            lemma_p_digits_bounds(
                                s@,
                                i as int + 1,
                                dig_val(s@[i as int]),
                                9223372036854775807,
                            );
                        }
                        Some((t.0 as i64, t.1))
                    },
                    None => None,
                }
            },
            None => None,
        }
    }
}

fn e_close(s: &str, i: usize) -> (r: Option<usize>)
    requires
        i <= s@.len(),
    ensures
        match r {
            Some(j) => p_close(s@, i as int) == Some(j as int) && i < j <= s@.len(),
            None => p_close(s@, i as int) is None,
        },
{
    let w = skip_ws_exec(s, i);
    if w < s.unicode_len() && s.get_char(w) == '}' {
        Some(w + 1)
    } else {
        None
    }
}

fn e_value(s: &str, i: usize) -> (r: Option<(LocalDBValue, usize)>)
    requires
        i <= s@.len(),
    ensures
        match r {
            Some(t) => p_value(s@, i as int) == Some((t.0@, t.1 as int)) && i <= t.1 <= s@.len(),
            None => p_value(s@, i as int) is None,
        },
{
    proof {
        reveal_strlit("INT");
        reveal_strlit("TEXT");
        reveal_strlit("UUID");
        assert("INT"@ =~= int_tag());
        assert("TEXT"@ =~= text_tag());
        assert("UUID"@ =~= uuid_tag());
    }
    let n = s.unicode_len();
    let a = skip_ws_exec(s, i);
    if a < n && s.get_char(a) == '{' {
        let b = skip_ws_exec(s, a + 1);
        match e_str(s, b) {
            Some(tagr) => {
                let (tag, j) = tagr;
                let k = skip_ws_exec(s, j);
                if k < n && s.get_char(k) == ':' {
                    let m0 = skip_ws_exec(s, k + 1);
                    if str_eq(tag.as_str(), "INT") {
                        match e_int(s, m0) {
                            Some(nr) => match e_close(s, nr.1) {
                                Some(f) => Some((LocalDBValue::INT(nr.0), f)),
                                None => None,
                            },
                            None => None,
                        }
                    } else if str_eq(tag.as_str(), "TEXT") {
                        match e_str(s, m0) {
                            Some(vr) => match e_close(s, vr.1) {
                                Some(f) => Some((LocalDBValue::TEXT(vr.0), f)),
                                None => None,
                            },
                            None => None,
                        }
                    } else if str_eq(tag.as_str(), "UUID") {
                        match e_str(s, m0) {
                            Some(vr) => match e_close(s, vr.1) {
                                Some(f) => Some((LocalDBValue::UUID(vr.0), f)),
                                None => None,
                            },
                            None => None,
                        }
                    } else {
                        None
                    }
                } else {
                    None
                }
            },
            None => None,
        }
    } else {
        None
    }
}

fn e_col(s: &str, i: usize) -> (r: Option<(Col, usize)>)
    requires
        i <= s@.len(),
    ensures
        match r {
            Some(t) => p_col(s@, i as int) == Some((t.0@, t.1 as int)) && i <= t.1 <= s@.len(),
            None => p_col(s@, i as int) is None,
        },
{
    let a = skip_ws_exec(s, i);
    match e_str(s, a) {
        Some(nr) => {
            let (nm, j) = nr;
            let k = skip_ws_exec(s, j);
            if k < s.unicode_len() && s.get_char(k) == ':' {
                match e_value(s, k + 1) {
                    Some(vr) => Some((Col { name: nm, value: vr.0 }, vr.1)),
                    None => None,
                }
            } else {
                None
            }
        },
        None => None,
    }
}

fn e_cols_rest(s: &str, i: usize, out: &mut Vec<Col>) -> (r: Option<usize>)
    requires
        i <= s@.len(),
    ensures
        match r {
            Some(j) => p_cols_rest(s@, i as int, old(out)@.map_values(|c: Col| c@)) == Some(
                (final(out)@.map_values(|c: Col| c@), j as int),
            ) && i <= j <= s@.len(),
            None => p_cols_rest(s@, i as int, old(out)@.map_values(|c: Col| c@)) is None,
        },
    decreases s@.len() - i,
{
    let w = skip_ws_exec(s, i);
    if w < s.unicode_len() && s.get_char(w) == ',' {
        match e_col(s, w + 1) {
            Some(cr) => {
                let (c, j) = cr;
                let ghost prev = out@.map_values(|x: Col| x@);
                let ghost cm = c@;
                out.push(c);
                proof {
                    assert(out@.map_values(|x: Col| x@) =~= prev.push(cm));
                }
                e_cols_rest(s, j, out)
            },
            None => None,
        }
    } else {
        Some(i)
    }
}

fn e_row(s: &str, i: usize) -> (r: Option<(Row, usize)>)
    requires
        i <= s@.len(),
    ensures
        match r {
            Some(t) => p_row(s@, i as int) == Some((t.0@, t.1 as int)) && i <= t.1 <= s@.len(),
            None => p_row(s@, i as int) is None,
        },
{
    let n = s.unicode_len();
    let a = skip_ws_exec(s, i);
    if a < n && s.get_char(a) == '{' {
        let b = skip_ws_exec(s, a + 1);
        if b < n && s.get_char(b) == '}' {
            let row = Row { cols: Vec::new() };
            proof {
                assert(row@ =~= Seq::<ColModel>::empty());
            }
            Some((row, b + 1))
        } else {
            match e_col(s, a + 1) {
                Some(cr) => {
                    let (c, j) = cr;
                    let ghost cm = c@;
                    let mut cols: Vec<Col> = Vec::new();
                    cols.push(c);
                    proof {
                        assert(cols@.map_values(|x: Col| x@) =~= seq![cm]);
                    }
                    match e_cols_rest(s, j, &mut cols) {
                        Some(j2) => match e_close(s, j2) {
                            Some(f) => {
                                let row = Row { cols };
                                Some((row, f))
                            },
                            None => None,
                        },
                        None => None,
                    }
                },
                None => None,
            }
        }
    } else {
        None
    }
}

fn e_rows_rest(s: &str, i: usize, out: &mut Vec<Row>) -> (r: Option<usize>)
    requires
        i <= s@.len(),
    ensures
        match r {
            Some(j) => p_rows_rest(s@, i as int, old(out)@.map_values(|x: Row| x@)) == Some(
                (final(out)@.map_values(|x: Row| x@), j as int),
            ) && i <= j <= s@.len(),
            None => p_rows_rest(s@, i as int, old(out)@.map_values(|x: Row| x@)) is None,
        },
    decreases s@.len() - i,
{
    let w = skip_ws_exec(s, i);
    if w < s.unicode_len() && s.get_char(w) == ',' {
        match e_row(s, w + 1) {
            Some(rr) => {
                let (x, j) = rr;
                let ghost prev = out@.map_values(|y: Row| y@);
                let ghost xm = x@;
                out.push(x);
                proof {
                    assert(out@.map_values(|y: Row| y@) =~= prev.push(xm));
                }
                e_rows_rest(s, j, out)
            },
            None => None,
        }
    } else {
        Some(i)
    }
}

fn e_rows(s: &str, i: usize) -> (r: Option<(Vec<Row>, usize)>)
    requires
        i <= s@.len(),
    ensures
        match r {
            Some(t) => p_rows(s@, i as int) == Some(
                (t.0@.map_values(|x: Row| x@), t.1 as int),
            ) && i <= t.1 <= s@.len(),
            None => p_rows(s@, i as int) is None,
        },
{
    let n = s.unicode_len();
    let a = skip_ws_exec(s, i);
    if a < n && s.get_char(a) == '[' {
        let b = skip_ws_exec(s, a + 1);
        if b < n && s.get_char(b) == ']' {
            let rows: Vec<Row> = Vec::new();
            proof {
                assert(rows@.map_values(|x: Row| x@) =~= Seq::<RowModel>::empty());
            }
            Some((rows, b + 1))
        } else {
            match e_row(s, a + 1) {
                Some(rr) => {
                    let (x, j) = rr;
                    let ghost xm = x@;
                    let mut rows: Vec<Row> = Vec::new();
                    rows.push(x);
                    proof {
                        assert(rows@.map_values(|y: Row| y@) =~= seq![xm]);
                    }
                    match e_rows_rest(s, j, &mut rows) {
                        Some(j2) => {
                            let w = skip_ws_exec(s, j2);
                            if w < n && s.get_char(w) == ']' {
                                Some((rows, w + 1))
                            } else {
                                None
                            }
                        },
                        None => None,
                    }
                },
                None => None,
            }
        }
    } else {
        None
    }
}

fn e_table(s: &str, i: usize) -> (r: Option<(Table, usize)>)
    requires
        i <= s@.len(),
    ensures
        match r {
            Some(t) => p_table(s@, i as int) == Some((t.0@, t.1 as int)) && i <= t.1 <= s@.len(),
            None => p_table(s@, i as int) is None,
        },
{
    let a = skip_ws_exec(s, i);
    match e_str(s, a) {
        Some(nr) => {
            let (nm, j) = nr;
            let k = skip_ws_exec(s, j);
            if k < s.unicode_len() && s.get_char(k) == ':' {
                match e_rows(s, k + 1) {
                    Some(rsr) => {
                        let (rows, e) = rsr;
                        let t = Table { name: nm, rows };
                        Some((t, e))
                    },
                    None => None,
                }
            } else {
                None
            }
        },
        None => None,
    }
}

fn e_tables_rest(s: &str, i: usize, out: &mut Vec<Table>) -> (r: Option<usize>)
    requires
        i <= s@.len(),
    ensures
        match r {
            Some(j) => p_tables_rest(s@, i as int, old(out)@.map_values(|t: Table| t@)) == Some(
                (final(out)@.map_values(|t: Table| t@), j as int),
            ) && i <= j <= s@.len(),
            None => p_tables_rest(s@, i as int, old(out)@.map_values(|t: Table| t@)) is None,
        },
    decreases s@.len() - i,
{
    let w = skip_ws_exec(s, i);
    if w < s.unicode_len() && s.get_char(w) == ',' {
        match e_table(s, w + 1) {
            Some(tr) => {
                let (t, j) = tr;
                let ghost prev = out@.map_values(|x: Table| x@);
                let ghost tm = t@;
                out.push(t);
                proof {
                    assert(out@.map_values(|x: Table| x@) =~= prev.push(tm));
                }
                e_tables_rest(s, j, out)
            },
            None => None,
        }
    } else {
        Some(i)
    }
}

fn e_db(s: &str, i: usize) -> (r: Option<(Database, usize)>)
    requires
        i <= s@.len(),
    ensures
        match r {
            Some(t) => p_db(s@, i as int) == Some((t.0@, t.1 as int)) && i <= t.1 <= s@.len(),
            None => p_db(s@, i as int) is None,
        },
{
    let n = s.unicode_len();
    let a = skip_ws_exec(s, i);
    if a < n && s.get_char(a) == '{' {
        let b = skip_ws_exec(s, a + 1);
        if b < n && s.get_char(b) == '}' {
            let db = Database { tables: Vec::new() };
            proof {
                assert(db@ =~= Seq::<TableModel>::empty());
            }
            Some((db, b + 1))
        } else {
            match e_table(s, a + 1) {
                Some(tr) => {
                    let (t, j) = tr;
                    let ghost tm = t@;
                    let mut tables: Vec<Table> = Vec::new();
                    tables.push(t);
                    proof {
                        assert(tables@.map_values(|x: Table| x@) =~= seq![tm]);
                    }
                    match e_tables_rest(s, j, &mut tables) {
                        Some(j2) => match e_close(s, j2) {
                            Some(f) => {
                                let db = Database { tables };
                                Some((db, f))
                            },
                            None => None,
                        },
                        None => None,
                    }
                },
                None => None,
            }
        }
    } else {
        None
    }
}

/// Whether the collection names are unique.
fn wf_check(db: &Database) -> (r: bool)
    ensures
        r == db_wf(db@),
{
    let n = db.tables.len();
    let mut i: usize = 0;
    while i < n
        invariant
            i <= n,
            n == db.tables.len(),
            forall|p: int, q: int| 0 <= p < q < i ==> db@[p].name != db@[q].name,
        decreases n - i,
    {
        let mut j: usize = 0;
        while j < i
            invariant
                j <= i < n,
                n == db.tables.len(),
                forall|k: int| 0 <= k < j ==> db@[k].name != db@[i as int].name,
            decreases i - j,
        {
            if str_eq(db.tables[j].name.as_str(), db.tables[i].name.as_str()) {
                proof {
                    assert(db@[j as int].name == db@[i as int].name);
                }
                return false;
            }
            j = j + 1;
        }
        i = i + 1;
    }
    true
}

/// Deserialises a document.  A text that does not parse, has trailing
/// content, or repeats a collection name denotes the empty database
/// (permissive recovery): corrupt storage is read as empty, never as an
/// error.
pub fn decode_db(s: &str) -> (r: Database)
    ensures
        r@ == dec_db(s@),
        r.wf(),
{
    match e_db(s, 0) {
        Some(t) => {
            let (db, j) = t;
            let w = skip_ws_exec(s, j);
            if w == s.unicode_len() && wf_check(&db) {
                db
            } else {
                let r = Database::empty();
                r
            }
        },
        None => Database::empty(),
    }
}

} // verus!
