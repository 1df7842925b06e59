use vstd::prelude::*;

use crate::values::ValueModel;
use crate::db::ColModel;
use crate::db::RowModel;
use crate::db::TableModel;
use crate::db::DbModel;
use crate::db::Database;
use crate::db::db_wf;
use crate::codec::esc_char;
use crate::codec::esc_str;
use crate::codec::enc_str;
use crate::codec::dig_char;
use crate::codec::enc_nat;
use crate::codec::enc_int;
use crate::codec::int_tag;
use crate::codec::text_tag;
use crate::codec::uuid_tag;
use crate::codec::enc_value;
use crate::codec::enc_col;
use crate::codec::enc_cols_rest;
use crate::codec::enc_cols_all;
use crate::codec::enc_row;
use crate::codec::enc_rows_rest;
use crate::codec::enc_rows_all;
use crate::codec::enc_rows;
use crate::codec::enc_table;
use crate::codec::enc_tables_rest;
use crate::codec::enc_tables_all;
use crate::codec::enc_db;
use crate::parse::is_digit;
use crate::parse::dig_val;
use crate::parse::p_strbody;
use crate::parse::p_str;
use crate::parse::p_digits;
use crate::parse::p_int;
use crate::parse::p_close;
use crate::parse::p_value;
use crate::parse::p_col;
use crate::parse::p_cols_rest;
use crate::parse::p_row;
use crate::parse::p_rows_rest;
use crate::parse::p_rows;
use crate::parse::p_table;
use crate::parse::p_tables_rest;
use crate::parse::p_db;
use crate::parse::dec_db;
use crate::text::is_ws;
use crate::text::skip_ws_from;

verus! {

// Round-trip correctness: reading a document that the encoder wrote yields
// the database it was written from.  The proof walks the grammar: each
// parsing piece, run over the text that the matching encoding piece
// produced, returns exactly the encoded model value and stops exactly at
// its end.

/// The text `e` stands in `s` at position `i`.
pub open spec fn at_seg(s: Seq<char>, i: int, e: Seq<char>) -> bool {
    0 <= i && i + e.len() <= s.len() && s.subrange(i, i + e.len() as int) == e
}

/// A segment splits: its halves stand at their own positions.
proof fn lemma_at_split(s: Seq<char>, i: int, a: Seq<char>, b: Seq<char>)
    requires
        at_seg(s, i, a + b),
    ensures
        at_seg(s, i, a),
        at_seg(s, i + a.len(), b),
{
    assert forall|k: int| 0 <= k < (a + b).len() implies s[i + k] == (a + b)[k] by {
        assert(s.subrange(i, i + (a + b).len() as int)[k] == (a + b)[k]);
    }
    assert(s.subrange(i, i + a.len() as int) =~= a);
    assert forall|k2: int| 0 <= k2 < b.len() implies s[i + a.len() + k2] == b[k2] by {
        let kk = a.len() + k2;
        assert(s.subrange(i, i + (a + b).len() as int)[kk] == (a + b)[kk]);
        assert((a + b)[kk] == b[k2]);
        assert(s.subrange(i, i + (a + b).len() as int)[kk] == s[i + kk]);
    }
    assert(s.subrange(i + a.len(), i + a.len() + b.len() as int) =~= b);
}

/// Each character of a segment stands at its offset.
proof fn lemma_at_index(s: Seq<char>, i: int, e: Seq<char>, k: int)
    requires
        at_seg(s, i, e),
        0 <= k < e.len(),
    ensures
        s[i + k] == e[k],
{
    assert(s.subrange(i, i + e.len() as int)[k] == e[k]);
}

/// Skipping whitespace at a non-whitespace character stands still.
proof fn lemma_skip_noop(s: Seq<char>, i: int)
    requires
        0 <= i < s.len(),
        !is_ws(s[i]),
    ensures
        skip_ws_from(s, i) == i,
{
}

/// The escaped body decomposes at its first character.
proof fn lemma_esc_front(v: Seq<char>)
    requires
        v.len() > 0,
    ensures
        esc_str(v) == esc_char(v[0]) + esc_str(v.drop_first()),
    decreases v.len(),
{
    if v.len() == 1 {
        assert(v.drop_last() =~= Seq::<char>::empty());
        assert(v.drop_first() =~= Seq::<char>::empty());
        assert(esc_str(Seq::<char>::empty()) =~= Seq::<char>::empty());
        assert(v.last() == v[0]);
        assert(esc_str(v) =~= esc_char(v[0]) + esc_str(v.drop_first()));
    } else {
        lemma_esc_front(v.drop_last());
        assert(v.drop_last()[0] == v[0]);
        assert(v.drop_last().drop_first() =~= v.drop_first().drop_last());
        assert(v.drop_first().last() == v.last());
        assert(v.drop_first().len() > 0);
        assert(esc_str(v.drop_first()) == esc_str(v.drop_first().drop_last()) + esc_char(
            v.drop_first().last(),
        ));
        assert(esc_str(v) =~= esc_char(v[0]) + esc_str(v.drop_first()));
    }
}

/// The string-body parser, run over an escaped body and its closing quote,
/// yields the unescaped text appended to the accumulator.
proof fn lemma_p_strbody_on_enc(s: Seq<char>, i: int, acc: Seq<char>, v: Seq<char>)
    requires
        at_seg(s, i, esc_str(v) + seq!['"']),
    ensures
        p_strbody(s, i, acc) == Some((acc + v, i + esc_str(v).len() + 1)),
    decreases v.len(),
{
    if v.len() == 0 {
        assert(esc_str(v) =~= Seq::<char>::empty());
        assert((esc_str(v) + seq!['"'])[0] == '"');
        lemma_at_index(s, i, esc_str(v) + seq!['"'], 0);
        assert(s[i] == '"');
        assert(acc + v =~= acc);
    } else {
        let c = v[0];
        let v2 = v.drop_first();
        lemma_esc_front(v);
        assert(esc_str(v) + seq!['"'] =~= esc_char(c) + (esc_str(v2) + seq!['"']));
        lemma_at_split(s, i, esc_char(c), esc_str(v2) + seq!['"']);
        if c == '"' || c == '\\' {
            lemma_at_index(s, i, esc_char(c), 0);
            lemma_at_index(s, i, esc_char(c), 1);
            assert(s[i] == '\\');
            assert(s[i + 1] == c);
            lemma_p_strbody_on_enc(s, i + 2, acc.push(c), v2);
            assert(acc.push(c) + v2 =~= acc + v);
        } else {
            lemma_at_index(s, i, esc_char(c), 0);
            assert(s[i] == c);
            lemma_p_strbody_on_enc(s, i + 1, acc.push(c), v2);
            assert(acc.push(c) + v2 =~= acc + v);
        }
    }
}

/// The string parser, run over an encoded string, yields exactly it.
proof fn lemma_p_str_on_enc(s: Seq<char>, i: int, v: Seq<char>)
    requires
        at_seg(s, i, enc_str(v)),
    ensures
        p_str(s, i) == Some((v, i + enc_str(v).len())),
{
    assert(enc_str(v) =~= seq!['"'] + (esc_str(v) + seq!['"']));
    lemma_at_split(s, i, seq!['"'], esc_str(v) + seq!['"']);
    lemma_at_index(s, i, seq!['"'], 0);
    assert(s[i] == '"');
    lemma_p_strbody_on_enc(s, i + 1, Seq::empty(), v);
    assert(Seq::<char>::empty() + v =~= v);
}

/// Powers of ten.
pub open spec fn pow10(k: nat) -> int
    decreases k,
{
    if k == 0 {
        1
    } else {
        10 * pow10((k - 1) as nat)
    }
}

/// The value of a digit run folded onto an accumulator, as the digit parser
/// folds it.
pub open spec fn dval(ds: Seq<char>, acc: int) -> int
    decreases ds.len(),
{
    if ds.len() == 0 {
        acc
    } else {
        dval(ds.drop_first(), acc * 10 + dig_val(ds[0]))
    }
}

proof fn lemma_dval_ge(ds: Seq<char>, acc: int)
    requires
        acc >= 0,
    ensures
        dval(ds, acc) >= acc,
    decreases ds.len(),
{
    if ds.len() > 0 {
        lemma_dval_ge(ds.drop_first(), acc * 10 + dig_val(ds[0]));
    }
}

proof fn lemma_dval_append(a: Seq<char>, b: Seq<char>, acc: int)
    ensures
        dval(a + b, acc) == dval(b, dval(a, acc)),
    decreases a.len(),
{
    if a.len() == 0 {
        assert(a + b =~= b);
    } else {
        assert((a + b)[0] == a[0]);
        assert((a + b).drop_first() =~= a.drop_first() + b);
        lemma_dval_append(a.drop_first(), b, acc * 10 + dig_val(a[0]));
    }
}

proof fn lemma_enc_nat_digits(n: int)
    requires
        n >= 0,
    ensures
        enc_nat(n).len() >= 1,
        forall|k: int| 0 <= k < enc_nat(n).len() ==> is_digit(enc_nat(n)[k]),
    decreases n,
{
    if n < 10 {
        assert(is_digit(dig_char(n)));
        assert(enc_nat(n)[0] == dig_char(n));
    } else {
        lemma_enc_nat_digits(n / 10);
        assert(is_digit(dig_char(n % 10)));
        assert forall|k: int| 0 <= k < enc_nat(n).len() implies is_digit(enc_nat(n)[k]) by {
            if k < enc_nat(n / 10).len() {
                assert(enc_nat(n)[k] == enc_nat(n / 10)[k]);
            } else {
                assert(enc_nat(n)[k] == dig_char(n % 10));
            }
        }
    }
}

proof fn lemma_dval_enc_nat(n: int, acc: int)
    requires
        n >= 0,
        acc >= 0,
    ensures
        dval(enc_nat(n), acc) == acc * pow10(enc_nat(n).len() as nat) + n,
    decreases n,
{
    if n < 10 {
        assert(dig_val(dig_char(n)) == n);
        assert(enc_nat(n).drop_first() =~= Seq::<char>::empty());
        assert(enc_nat(n)[0] == dig_char(n));
        assert(dval(Seq::<char>::empty(), acc * 10 + n) == acc * 10 + n);
        assert(pow10(0) == 1);
        assert(pow10(1) == 10);
        assert(dval(enc_nat(n), acc) == acc * 10 + n);
    } else {
        let hd = enc_nat(n / 10);
        let tl = seq![dig_char(n % 10)];
        lemma_dval_append(hd, tl, acc);
        lemma_dval_enc_nat(n / 10, acc);
        let x = acc * pow10(hd.len() as nat) + n / 10;
        assert(tl.drop_first() =~= Seq::<char>::empty());
        assert(tl[0] == dig_char(n % 10));
        assert(dval(Seq::<char>::empty(), x * 10 + dig_val(tl[0])) == x * 10 + dig_val(tl[0]));
        assert(dval(tl, x) == x * 10 + dig_val(dig_char(n % 10)));
        assert(dig_val(dig_char(n % 10)) == n % 10);
        assert(enc_nat(n).len() == hd.len() + 1);
        assert(pow10((hd.len() + 1) as nat) == 10 * pow10(hd.len() as nat));
        vstd::arithmetic::div_mod::lemma_fundamental_div_mod(n, 10);
        assert((acc * pow10(hd.len() as nat) + n / 10) * 10 == acc * (10 * pow10(
            hd.len() as nat,
        )) + (n / 10) * 10) by (nonlinear_arith);
        assert(dval(enc_nat(n), acc) == acc * pow10(enc_nat(n).len() as nat) + n);
    }
}

proof fn lemma_p_digits_region(s: Seq<char>, i: int, e: int, acc: int, bound: int)
    requires
        0 <= i <= e <= s.len(),
        forall|k: int| i <= k < e ==> is_digit(s[k]),
        e == s.len() || !is_digit(s[e]),
        0 <= acc,
        dval(s.subrange(i, e), acc) <= bound,
    ensures
        p_digits(s, i, acc, bound) == Some((dval(s.subrange(i, e), acc), e)),
    decreases e - i,
{
    if i == e {
        assert(s.subrange(i, e) =~= Seq::<char>::empty());
    } else {
        assert(is_digit(s[i]));
        let a2 = acc * 10 + dig_val(s[i]);
        let region = s.subrange(i, e);
        assert(region[0] == s[i]);
        assert(region.drop_first() =~= s.subrange(i + 1, e));
        lemma_dval_ge(s.subrange(i + 1, e), a2);
        lemma_p_digits_region(s, i + 1, e, a2, bound);
    }
}

/// The integer parser, run over an encoded integer followed by a non-digit,
/// yields exactly it.
proof fn lemma_p_int_on_enc(s: Seq<char>, i: int, n: int)
    requires
        at_seg(s, i, enc_int(n)),
        -9223372036854775808 <= n <= 9223372036854775807,
        i + enc_int(n).len() == s.len() || !is_digit(s[i + enc_int(n).len()]),
    ensures
        p_int(s, i) == Some((n, i + enc_int(n).len())),
{
    if n >= 0 {
        lemma_enc_nat_digits(n);
        let ln = enc_nat(n).len() as int;
        assert forall|k: int| i <= k < i + ln implies is_digit(s[k]) by {
            lemma_at_index(s, i, enc_int(n), k - i);
        }
        assert(s.subrange(i, i + ln) =~= enc_nat(n));
        lemma_dval_enc_nat(n, 0);
        assert(dval(enc_nat(n), 0) == n);
        lemma_p_digits_region(s, i, i + ln, 0, 9223372036854775807);
        assert(!is_digit('-'));
        assert(s[i] != '-');
    } else {
        assert(enc_int(n) =~= seq!['-'] + enc_nat(-n));
        lemma_at_split(s, i, seq!['-'], enc_nat(-n));
        lemma_at_index(s, i, seq!['-'], 0);
        assert(s[i] == '-');
        lemma_enc_nat_digits(-n);
        let ln = enc_nat(-n).len() as int;
        assert forall|k: int| i + 1 <= k < i + 1 + ln implies is_digit(s[k]) by {
            lemma_at_index(s, i + 1, enc_nat(-n), k - i - 1);
        }
        assert(s.subrange(i + 1, i + 1 + ln) =~= enc_nat(-n));
        lemma_dval_enc_nat(-n, 0);
        assert(dval(enc_nat(-n), 0) == -n);
        lemma_p_digits_region(s, i + 1, i + 1 + ln, 0, 9223372036854775808);
        assert(is_digit(s[i + 1]));
        assert(enc_int(n).len() == 1 + ln);
    }
}

/// An integer value within the 64-bit signed range; text and identifier
/// values are always valid.
pub open spec fn value_valid(v: ValueModel) -> bool {
    match v {
        ValueModel::Int(n) => -9223372036854775808 <= n <= 9223372036854775807,
        ValueModel::Text(s) => true,
        ValueModel::Uuid(s) => true,
    }
}

/// Every field value of the row is valid.
pub open spec fn row_valid(r: RowModel) -> bool {
    forall|k: int| 0 <= k < r.len() ==> value_valid(r[k].value)
}

/// Every row of the collection is valid.
pub open spec fn table_valid(t: TableModel) -> bool {
    forall|k: int| 0 <= k < t.rows.len() ==> row_valid(t.rows[k])
}

/// Every collection of the database is valid.
pub open spec fn db_valid(m: DbModel) -> bool {
    forall|k: int| 0 <= k < m.len() ==> table_valid(m[k])
}

/// The view of every executable database is valid: its integers are 64-bit.
pub proof fn lemma_view_valid(db: &Database)
    ensures
        db_valid(db@),
{
    assert forall|k: int| 0 <= k < db@.len() implies table_valid(db@[k]) by {
        let t = db.tables@[k];
        assert(db@[k] == t@);
        assert forall|j: int| 0 <= j < t@.rows.len() implies row_valid(t@.rows[j]) by {
            let r = t.rows@[j];
            assert(t@.rows[j] == r@);
            assert forall|q: int| 0 <= q < r@.len() implies value_valid(r@[q].value) by {
                assert(r@[q] == r.cols@[q]@);
            }
        }
    }
}

/// The shape shared by every encoded value: a brace, a quoted tag, a colon,
/// a payload that starts with a non-whitespace character, a closing brace.
proof fn lemma_value_shape(s: Seq<char>, i: int, tag: Seq<char>, payload: Seq<char>)
    requires
        at_seg(s, i, seq!['{'] + enc_str(tag) + seq![':'] + payload + seq!['}']),
        payload.len() > 0,
        !is_ws(payload[0]),
    ensures
        skip_ws_from(s, i) == i,
        s[i] == '{',
        skip_ws_from(s, i + 1) == i + 1,
        p_str(s, i + 1) == Some((tag, i + 1 + enc_str(tag).len())),
        skip_ws_from(s, i + 1 + enc_str(tag).len()) == i + 1 + enc_str(tag).len(),
        s[i + 1 + enc_str(tag).len()] == ':',
        skip_ws_from(s, i + 2 + enc_str(tag).len()) == i + 2 + enc_str(tag).len(),
        at_seg(s, i + 2 + enc_str(tag).len(), payload),
        s[i + 2 + enc_str(tag).len() + payload.len()] == '}',
        p_close(s, i + 2 + enc_str(tag).len() + payload.len()) == Some(
            i + 3 + enc_str(tag).len() + payload.len(),
        ),
{
    let whole = seq!['{'] + enc_str(tag) + seq![':'] + payload + seq!['}'];
    assert(whole =~= seq!['{'] + (enc_str(tag) + (seq![':'] + (payload + seq!['}']))));
    lemma_at_split(s, i, seq!['{'], enc_str(tag) + (seq![':'] + (payload + seq!['}'])));
    lemma_at_index(s, i, seq!['{'], 0);
    lemma_skip_noop(s, i);
    let j1 = i + 1;
    lemma_at_split(s, j1, enc_str(tag), seq![':'] + (payload + seq!['}']));
    assert(enc_str(tag)[0] == '"');
    lemma_at_index(s, j1, enc_str(tag), 0);
    lemma_skip_noop(s, j1);
    lemma_p_str_on_enc(s, j1, tag);
    let j2 = j1 + enc_str(tag).len();
    lemma_at_split(s, j2, seq![':'], payload + seq!['}']);
    lemma_at_index(s, j2, seq![':'], 0);
    lemma_skip_noop(s, j2);
    let j3 = j2 + 1;
    lemma_at_split(s, j3, payload, seq!['}']);
    lemma_at_index(s, j3, payload, 0);
    lemma_skip_noop(s, j3);
    let j4 = j3 + payload.len();
    lemma_at_index(s, j4, seq!['}'], 0);
    assert(s[j4] == '}');
    lemma_skip_noop(s, j4);
}

/// The value parser, run over an encoded value, yields exactly it.
proof fn lemma_p_value_on_enc(s: Seq<char>, i: int, v: ValueModel)
    requires
        at_seg(s, i, enc_value(v)),
        value_valid(v),
    ensures
        p_value(s, i) == Some((v, i + enc_value(v).len())),
{
    assert(int_tag().len() == 3);
    assert(text_tag().len() == 4);
    assert(uuid_tag().len() == 4);
    assert(uuid_tag()[0] == 'U');
    assert(text_tag()[0] == 'T');
    match v {
        ValueModel::Int(n) => {
            let payload = enc_int(n);
            assert(enc_value(v) =~= seq!['{'] + enc_str(int_tag()) + seq![':'] + payload
                + seq!['}']);
            if n >= 0 {
                lemma_enc_nat_digits(n);
                assert(payload[0] == enc_nat(n)[0]);
                assert(is_digit(payload[0]));
                assert(!is_ws(payload[0]));
            } else {
                assert(payload[0] == '-');
                assert(!is_ws(payload[0]));
            }
            lemma_value_shape(s, i, int_tag(), payload);
            let j3 = i + 2 + enc_str(int_tag()).len();
            assert(!is_digit('}'));
            lemma_p_int_on_enc(s, j3, n);
        },
        ValueModel::Text(t) => {
            let payload = enc_str(t);
            assert(enc_value(v) =~= seq!['{'] + enc_str(text_tag()) + seq![':'] + payload
                + seq!['}']);
            assert(payload[0] == '"');
            assert(!is_ws(payload[0]));
            lemma_value_shape(s, i, text_tag(), payload);
            let j3 = i + 2 + enc_str(text_tag()).len();
            lemma_p_str_on_enc(s, j3, t);
            assert(text_tag() != int_tag());
        },
        ValueModel::Uuid(t) => {
            let payload = enc_str(t);
            assert(enc_value(v) =~= seq!['{'] + enc_str(uuid_tag()) + seq![':'] + payload
                + seq!['}']);
            assert(payload[0] == '"');
            assert(!is_ws(payload[0]));
            lemma_value_shape(s, i, uuid_tag(), payload);
            let j3 = i + 2 + enc_str(uuid_tag()).len();
            lemma_p_str_on_enc(s, j3, t);
            assert(uuid_tag() != int_tag());
            assert(uuid_tag() != text_tag());
        },
    }
}

/// The field parser, run over an encoded field, yields exactly it.
proof fn lemma_p_col_on_enc(s: Seq<char>, i: int, c: ColModel)
    requires
        at_seg(s, i, enc_col(c)),
        value_valid(c.value),
    ensures
        p_col(s, i) == Some((c, i + enc_col(c).len())),
{
    assert(enc_col(c) =~= enc_str(c.name) + (seq![':'] + enc_value(c.value)));
    lemma_at_split(s, i, enc_str(c.name), seq![':'] + enc_value(c.value));
    assert(enc_str(c.name)[0] == '"');
    lemma_at_index(s, i, enc_str(c.name), 0);
    lemma_skip_noop(s, i);
    lemma_p_str_on_enc(s, i, c.name);
    let j = i + enc_str(c.name).len();
    lemma_at_split(s, j, seq![':'], enc_value(c.value));
    lemma_at_index(s, j, seq![':'], 0);
    lemma_skip_noop(s, j);
    lemma_p_value_on_enc(s, j + 1, c.value);
    assert(c == ColModel { name: c.name, value: c.value });
}

/// The fields-after-the-first parser, run over their encoding followed by
/// the row's closing brace, appends exactly them.
proof fn lemma_p_cols_rest_on_enc(s: Seq<char>, i: int, acc: Seq<ColModel>, r: RowModel)
    requires
        at_seg(s, i, enc_cols_rest(r)),
        i + enc_cols_rest(r).len() < s.len(),
        s[i + enc_cols_rest(r).len()] == '}',
        row_valid(r),
    ensures
        p_cols_rest(s, i, acc) == Some((acc + r, i + enc_cols_rest(r).len())),
    decreases r.len(),
{
    if r.len() == 0 {
        assert(enc_cols_rest(r).len() == 0);
        assert(s[i] == '}');
        lemma_skip_noop(s, i);
        assert(acc + r =~= acc);
    } else {
        assert(enc_cols_rest(r) =~= seq![','] + (enc_col(r[0]) + enc_cols_rest(r.drop_first())));
        lemma_at_split(s, i, seq![','], enc_col(r[0]) + enc_cols_rest(r.drop_first()));
        lemma_at_index(s, i, seq![','], 0);
        lemma_skip_noop(s, i);
        lemma_at_split(s, i + 1, enc_col(r[0]), enc_cols_rest(r.drop_first()));
        assert(value_valid(r[0].value));
        lemma_p_col_on_enc(s, i + 1, r[0]);
        let j = i + 1 + enc_col(r[0]).len();
        assert forall|k: int| 0 <= k < r.drop_first().len() implies value_valid(
            r.drop_first()[k].value,
        ) by {
            assert(r.drop_first()[k] == r[k + 1]);
        }
        lemma_p_cols_rest_on_enc(s, j, acc.push(r[0]), r.drop_first());
        assert(acc.push(r[0]) + r.drop_first() =~= acc + r);
    }
}

/// The row parser, run over an encoded row, yields exactly it.
proof fn lemma_p_row_on_enc(s: Seq<char>, i: int, r: RowModel)
    requires
        at_seg(s, i, enc_row(r)),
        row_valid(r),
    ensures
        p_row(s, i) == Some((r, i + enc_row(r).len())),
{
    assert(enc_row(r) =~= seq!['{'] + (enc_cols_all(r) + seq!['}']));
    lemma_at_split(s, i, seq!['{'], enc_cols_all(r) + seq!['}']);
    lemma_at_index(s, i, seq!['{'], 0);
    lemma_skip_noop(s, i);
    lemma_at_split(s, i + 1, enc_cols_all(r), seq!['}']);
    let j4 = i + 1 + enc_cols_all(r).len();
    lemma_at_index(s, j4, seq!['}'], 0);
    assert(s[j4] == '}');
    if r.len() == 0 {
        assert(enc_cols_all(r).len() == 0);
        lemma_skip_noop(s, i + 1);
        assert(enc_row(r).len() == 2);
    } else {
        assert(enc_cols_all(r) =~= enc_col(r[0]) + enc_cols_rest(r.drop_first()));
        lemma_at_split(s, i + 1, enc_col(r[0]), enc_cols_rest(r.drop_first()));
        assert(enc_col(r[0])[0] == enc_str(r[0].name)[0]);
        assert(enc_str(r[0].name)[0] == '"');
        lemma_at_index(s, i + 1, enc_col(r[0]), 0);
        lemma_skip_noop(s, i + 1);
        assert(s[i + 1] == '"');
        assert(value_valid(r[0].value));
        lemma_p_col_on_enc(s, i + 1, r[0]);
        let j = i + 1 + enc_col(r[0]).len();
        assert forall|k: int| 0 <= k < r.drop_first().len() implies value_valid(
            r.drop_first()[k].value,
        ) by {
            assert(r.drop_first()[k] == r[k + 1]);
        }
        lemma_p_cols_rest_on_enc(s, j, seq![r[0]], r.drop_first());
        assert(seq![r[0]] + r.drop_first() =~= r);
        lemma_skip_noop(s, j4);
    }
}

/// The rows-after-the-first parser, run over their encoding followed by the
/// closing bracket, appends exactly them.
proof fn lemma_p_rows_rest_on_enc(s: Seq<char>, i: int, acc: Seq<RowModel>, rs: Seq<RowModel>)
    requires
        at_seg(s, i, enc_rows_rest(rs)),
        i + enc_rows_rest(rs).len() < s.len(),
        s[i + enc_rows_rest(rs).len()] == ']',
        forall|k: int| 0 <= k < rs.len() ==> row_valid(rs[k]),
    ensures
        p_rows_rest(s, i, acc) == Some((acc + rs, i + enc_rows_rest(rs).len())),
    decreases rs.len(),
{
    if rs.len() == 0 {
        assert(enc_rows_rest(rs).len() == 0);
        assert(s[i] == ']');
        lemma_skip_noop(s, i);
        assert(acc + rs =~= acc);
    } else {
        assert(enc_rows_rest(rs) =~= seq![','] + (enc_row(rs[0]) + enc_rows_rest(
            rs.drop_first(),
        )));
        lemma_at_split(s, i, seq![','], enc_row(rs[0]) + enc_rows_rest(rs.drop_first()));
        lemma_at_index(s, i, seq![','], 0);
        lemma_skip_noop(s, i);
        lemma_at_split(s, i + 1, enc_row(rs[0]), enc_rows_rest(rs.drop_first()));
        assert(row_valid(rs[0]));
        lemma_p_row_on_enc(s, i + 1, rs[0]);
        let j = i + 1 + enc_row(rs[0]).len();
        assert forall|k: int| 0 <= k < rs.drop_first().len() implies row_valid(
            rs.drop_first()[k],
        ) by {
            assert(rs.drop_first()[k] == rs[k + 1]);
        }
        lemma_p_rows_rest_on_enc(s, j, acc.push(rs[0]), rs.drop_first());
        assert(acc.push(rs[0]) + rs.drop_first() =~= acc + rs);
    }
}

/// The row-list parser, run over an encoded row list, yields exactly it.
proof fn lemma_p_rows_on_enc(s: Seq<char>, i: int, rs: Seq<RowModel>)
    requires
        at_seg(s, i, enc_rows(rs)),
        forall|k: int| 0 <= k < rs.len() ==> row_valid(rs[k]),
    ensures
        p_rows(s, i) == Some((rs, i + enc_rows(rs).len())),
{
    assert(enc_rows(rs) =~= seq!['['] + (enc_rows_all(rs) + seq![']']));
    lemma_at_split(s, i, seq!['['], enc_rows_all(rs) + seq![']']);
    lemma_at_index(s, i, seq!['['], 0);
    lemma_skip_noop(s, i);
    lemma_at_split(s, i + 1, enc_rows_all(rs), seq![']']);
    let j4 = i + 1 + enc_rows_all(rs).len();
    lemma_at_index(s, j4, seq![']'], 0);
    assert(s[j4] == ']');
    if rs.len() == 0 {
        assert(enc_rows_all(rs).len() == 0);
        lemma_skip_noop(s, i + 1);
        assert(enc_rows(rs).len() == 2);
    } else {
        assert(enc_rows_all(rs) =~= enc_row(rs[0]) + enc_rows_rest(rs.drop_first()));
        lemma_at_split(s, i + 1, enc_row(rs[0]), enc_rows_rest(rs.drop_first()));
        assert(enc_row(rs[0])[0] == '{');
        lemma_at_index(s, i + 1, enc_row(rs[0]), 0);
        lemma_skip_noop(s, i + 1);
        assert(s[i + 1] == '{');
        assert(row_valid(rs[0]));
        lemma_p_row_on_enc(s, i + 1, rs[0]);
        let j = i + 1 + enc_row(rs[0]).len();
        assert forall|k: int| 0 <= k < rs.drop_first().len() implies row_valid(
            rs.drop_first()[k],
        ) by {
            assert(rs.drop_first()[k] == rs[k + 1]);
        }
        lemma_p_rows_rest_on_enc(s, j, seq![rs[0]], rs.drop_first());
        assert(seq![rs[0]] + rs.drop_first() =~= rs);
        lemma_skip_noop(s, j4);
    }
}

/// The collection parser, run over an encoded collection, yields exactly it.
proof fn lemma_p_table_on_enc(s: Seq<char>, i: int, t: TableModel)
    requires
        at_seg(s, i, enc_table(t)),
        table_valid(t),
    ensures
        p_table(s, i) == Some((t, i + enc_table(t).len())),
{
    assert(enc_table(t) =~= enc_str(t.name) + (seq![':'] + enc_rows(t.rows)));
    lemma_at_split(s, i, enc_str(t.name), seq![':'] + enc_rows(t.rows));
    assert(enc_str(t.name)[0] == '"');
    lemma_at_index(s, i, enc_str(t.name), 0);
    lemma_skip_noop(s, i);
    lemma_p_str_on_enc(s, i, t.name);
    let j = i + enc_str(t.name).len();
    lemma_at_split(s, j, seq![':'], enc_rows(t.rows));
    lemma_at_index(s, j, seq![':'], 0);
    lemma_skip_noop(s, j);
    lemma_p_rows_on_enc(s, j + 1, t.rows);
    assert(t == TableModel { name: t.name, rows: t.rows });
}

/// The collections-after-the-first parser, run over their encoding followed
/// by the document's closing brace, appends exactly them.
proof fn lemma_p_tables_rest_on_enc(s: Seq<char>, i: int, acc: DbModel, m: DbModel)
    requires
        at_seg(s, i, enc_tables_rest(m)),
        i + enc_tables_rest(m).len() < s.len(),
        s[i + enc_tables_rest(m).len()] == '}',
        forall|k: int| 0 <= k < m.len() ==> table_valid(m[k]),
    ensures
        p_tables_rest(s, i, acc) == Some((acc + m, i + enc_tables_rest(m).len())),
    decreases m.len(),
{
    if m.len() == 0 {
        assert(enc_tables_rest(m).len() == 0);
        assert(s[i] == '}');
        lemma_skip_noop(s, i);
        assert(acc + m =~= acc);
    } else {
        assert(enc_tables_rest(m) =~= seq![','] + (enc_table(m[0]) + enc_tables_rest(
            m.drop_first(),
        )));
        lemma_at_split(s, i, seq![','], enc_table(m[0]) + enc_tables_rest(m.drop_first()));
        lemma_at_index(s, i, seq![','], 0);
        lemma_skip_noop(s, i);
        lemma_at_split(s, i + 1, enc_table(m[0]), enc_tables_rest(m.drop_first()));
        assert(table_valid(m[0]));
        lemma_p_table_on_enc(s, i + 1, m[0]);
        let j = i + 1 + enc_table(m[0]).len();
        assert forall|k: int| 0 <= k < m.drop_first().len() implies table_valid(
            m.drop_first()[k],
        ) by {
            assert(m.drop_first()[k] == m[k + 1]);
        }
        lemma_p_tables_rest_on_enc(s, j, acc.push(m[0]), m.drop_first());
        assert(acc.push(m[0]) + m.drop_first() =~= acc + m);
    }
}

/// The document parser, run over an encoded database, yields exactly it.
proof fn lemma_p_db_on_enc(s: Seq<char>, i: int, m: DbModel)
    requires
        at_seg(s, i, enc_db(m)),
        db_valid(m),
    ensures
        p_db(s, i) == Some((m, i + enc_db(m).len())),
{
    assert(enc_db(m) =~= seq!['{'] + (enc_tables_all(m) + seq!['}']));
    lemma_at_split(s, i, seq!['{'], enc_tables_all(m) + seq!['}']);
    lemma_at_index(s, i, seq!['{'], 0);
    lemma_skip_noop(s, i);
    lemma_at_split(s, i + 1, enc_tables_all(m), seq!['}']);
    let j4 = i + 1 + enc_tables_all(m).len();
    lemma_at_index(s, j4, seq!['}'], 0);
    assert(s[j4] == '}');
    if m.len() == 0 {
        assert(enc_tables_all(m).len() == 0);
        lemma_skip_noop(s, i + 1);
        assert(enc_db(m).len() == 2);
    } else {
        assert(enc_tables_all(m) =~= enc_table(m[0]) + enc_tables_rest(m.drop_first()));
        lemma_at_split(s, i + 1, enc_table(m[0]), enc_tables_rest(m.drop_first()));
        assert(enc_table(m[0])[0] == enc_str(m[0].name)[0]);
        assert(enc_str(m[0].name)[0] == '"');
        lemma_at_index(s, i + 1, enc_table(m[0]), 0);
        lemma_skip_noop(s, i + 1);
        assert(s[i + 1] == '"');
        assert(table_valid(m[0]));
        lemma_p_table_on_enc(s, i + 1, m[0]);
        let j = i + 1 + enc_table(m[0]).len();
        assert forall|k: int| 0 <= k < m.drop_first().len() implies table_valid(
            m.drop_first()[k],
        ) by {
            assert(m.drop_first()[k] == m[k + 1]);
        }
        lemma_p_tables_rest_on_enc(s, j, seq![m[0]], m.drop_first());
        assert(seq![m[0]] + m.drop_first() =~= m);
        lemma_skip_noop(s, j4);
    }
}

/// Round-trip: reading back the document written from
/// any database with unique collection names and 64-bit integer values
/// yields that database, field for field, order preserved.
pub proof fn lemma_document_round_trip(m: DbModel)
    requires
        db_wf(m),
        db_valid(m),
    ensures
        dec_db(enc_db(m)) == m,
{
    let s = enc_db(m);
    assert(s.subrange(0, s.len() as int) =~= s);
    assert(at_seg(s, 0, enc_db(m)));
    lemma_p_db_on_enc(s, 0, m);
    assert(skip_ws_from(s, s.len() as int) == s.len());
}

/// Round-trip for every well-formed executable database: its view survives
/// serialisation and deserialisation unchanged.
pub proof fn lemma_database_round_trip(db: &Database)
    requires
        db.wf(),
    ensures
        dec_db(enc_db(db@)) == db@,
{
    lemma_view_valid(db);
    lemma_document_round_trip(db@);
}

} // verus!
