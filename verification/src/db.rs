use vstd::prelude::*;

use crate::values::LocalDBValue;
use crate::values::ValueModel;
use crate::text::str_eq;

verus! {

/// Model of one field of a row: a column name and its typed value.
#[verifier::ext_equal]
pub struct ColModel {
    pub name: Seq<char>,
    pub value: ValueModel,
}

/// Model of a row: its fields in order.
pub type RowModel = Seq<ColModel>;

/// Model of one named collection: its rows in insertion order.
#[verifier::ext_equal]
pub struct TableModel {
    pub name: Seq<char>,
    pub rows: Seq<RowModel>,
}

/// Model of the whole database: the collections in creation order.
pub type DbModel = Seq<TableModel>;

/// One field of a row.
pub struct Col {
    pub name: String,
    pub value: LocalDBValue,
}

/// A row: a mapping from column name to value, kept as an ordered list of
/// fields.
pub struct Row {
    pub cols: Vec<Col>,
}

/// A named collection of rows, insertion order preserved.
pub struct Table {
    pub name: String,
    pub rows: Vec<Row>,
}

/// The whole database: a mapping from collection name to collection, with
/// unique names.
pub struct Database {
    pub tables: Vec<Table>,
}

impl View for Col {
    type V = ColModel;

    open spec fn view(&self) -> ColModel {
        ColModel { name: self.name@, value: self.value@ }
    }
}

impl View for Row {
    type V = RowModel;

    open spec fn view(&self) -> RowModel {
        self.cols@.map_values(|c: Col| c@)
    }
}

impl View for Table {
    type V = TableModel;

    open spec fn view(&self) -> TableModel {
        TableModel { name: self.name@, rows: self.rows@.map_values(|r: Row| r@) }
    }
}

impl View for Database {
    type V = DbModel;

    open spec fn view(&self) -> DbModel {
        self.tables@.map_values(|t: Table| t@)
    }
}

impl Clone for Col {
    fn clone(&self) -> (r: Self)
        ensures
            r == *self,
    {
        Col { name: self.name.clone(), value: self.value.clone() }
    }
}

impl Clone for Row {
    fn clone(&self) -> (r: Self)
        ensures
            r@ == self@,
    {
        let mut cols: Vec<Col> = Vec::new();
        let mut i: usize = 0;
        while i < self.cols.len()
            invariant
                i <= self.cols.len(),
                cols@ =~= self.cols@.take(i as int),
            decreases self.cols.len() - i,
        {
            cols.push(self.cols[i].clone());
            i = i + 1;
        }
        proof {
            assert(cols@ =~= self.cols@);
            assert(cols@.map_values(|c: Col| c@) =~= self.cols@.map_values(|c: Col| c@));
        }
        Row { cols }
    }
}

/// Whether the model holds a collection of the given name.
pub open spec fn has_table(m: DbModel, n: Seq<char>) -> bool {
    exists|i: int| 0 <= i < m.len() && m[i].name == n
}

/// The index of the collection of the given name (meaningful under
/// `has_table`; with `db_wf` that index is the only one).
pub open spec fn idx_of(m: DbModel, n: Seq<char>) -> int {
    choose|i: int| 0 <= i < m.len() && m[i].name == n
}

/// The rows of the named collection, or the empty sequence where the name is
/// absent.
pub open spec fn rows_of(m: DbModel, n: Seq<char>) -> Seq<RowModel> {
    if has_table(m, n) {
        m[idx_of(m, n)].rows
    } else {
        Seq::empty()
    }
}

/// Collection names are unique.
pub open spec fn db_wf(m: DbModel) -> bool {
    forall|i: int, j: int| 0 <= i < j < m.len() ==> m[i].name != m[j].name
}

/// What creating a collection does to the model: a no-op where the name is
/// present, else a new empty collection appended.
pub open spec fn create_model(m: DbModel, n: Seq<char>) -> DbModel {
    if has_table(m, n) {
        m
    } else {
        m.push(TableModel { name: n, rows: Seq::empty() })
    }
}

/// What inserting a row does to the model: the collection is created where
/// absent, then the row appended to it.
pub open spec fn insert_model(m: DbModel, n: Seq<char>, r: RowModel) -> DbModel {
    let m1 = create_model(m, n);
    m1.update(idx_of(m1, n), TableModel { name: n, rows: rows_of(m1, n).push(r) })
}

/// Creating a collection leaves every name present, the created one among
/// them.
pub proof fn lemma_create_has(m: DbModel, n: Seq<char>)
    ensures
        has_table(create_model(m, n), n),
        forall|n2: Seq<char>| has_table(m, n2) ==> has_table(create_model(m, n), n2),
{
    if !has_table(m, n) {
        let m2 = m.push(TableModel { name: n, rows: Seq::empty() });
        assert(m2[m.len() as int].name == n);
        assert forall|n2: Seq<char>| has_table(m, n2) implies has_table(m2, n2) by {
            let i = choose|i: int| 0 <= i < m.len() && m[i].name == n2;
            assert(m2[i].name == n2);
        }
    }
}

/// Creating a collection keeps names unique.
pub proof fn lemma_create_wf(m: DbModel, n: Seq<char>)
    requires
        db_wf(m),
    ensures
        db_wf(create_model(m, n)),
{
    if !has_table(m, n) {
        let m2 = create_model(m, n);
        assert forall|i: int, j: int| 0 <= i < j < m2.len() implies m2[i].name != m2[j].name by {
            if j == m.len() {
                assert(m2[j].name == n);
                if m2[i].name == n {
                    assert(m[i].name == n);
                    assert(has_table(m, n));
                }
            }
        }
    }
}

/// Idempotent creation: creating the same collection
/// twice yields the same database as creating it once.
pub proof fn lemma_create_idempotent(m: DbModel, n: Seq<char>)
    ensures
        create_model(create_model(m, n), n) == create_model(m, n),
{
    lemma_create_has(m, n);
}

/// Under unique names, any index whose collection carries the name is the
/// chosen one.
pub proof fn lemma_idx_unique(m: DbModel, n: Seq<char>, i: int)
    requires
        db_wf(m),
        0 <= i < m.len(),
        m[i].name == n,
    ensures
        idx_of(m, n) == i,
{
    assert(has_table(m, n));
    let j = idx_of(m, n);
    assert(0 <= j < m.len() && m[j].name == n);
    if i < j {
        assert(m[i].name != m[j].name);
    } else if j < i {
        assert(m[j].name != m[i].name);
    }
}

/// Inserting a row appends it to the named collection's rows, keeps names
/// unique, and leaves every other collection's rows unchanged.
pub proof fn lemma_insert_appends(m: DbModel, n: Seq<char>, r: RowModel)
    requires
        db_wf(m),
    ensures
        rows_of(insert_model(m, n, r), n) == rows_of(m, n).push(r),
        db_wf(insert_model(m, n, r)),
        forall|n2: Seq<char>| n2 != n ==> rows_of(insert_model(m, n, r), n2) == rows_of(m, n2),
{
    let m1 = create_model(m, n);
    lemma_create_has(m, n);
    lemma_create_wf(m, n);
    let i = idx_of(m1, n);
    assert(0 <= i < m1.len() && m1[i].name == n);
    let m2 = insert_model(m, n, r);
    assert(m2 == m1.update(i, TableModel { name: n, rows: rows_of(m1, n).push(r) }));
    assert forall|p: int, q: int| 0 <= p < q < m2.len() implies m2[p].name != m2[q].name by {
        assert(m2[p].name == m1[p].name);
        assert(m2[q].name == m1[q].name);
    }
    lemma_idx_unique(m2, n, i);
    assert(rows_of(m2, n) == m1[i].rows.push(r));
    // the named collection's old rows
    if has_table(m, n) {
        lemma_idx_unique(m, n, idx_of(m, n));
        assert(m1 == m);
        assert(rows_of(m1, n) == rows_of(m, n));
    } else {
        lemma_idx_unique(m1, n, m.len() as int);
        assert(m1[m.len() as int].rows =~= Seq::<RowModel>::empty());
        assert(rows_of(m, n) =~= Seq::<RowModel>::empty());
    }
    // other collections untouched
    assert forall|n2: Seq<char>| n2 != n implies rows_of(m2, n2) == rows_of(m, n2) by {
        if has_table(m, n2) {
            let p = idx_of(m, n2);
            assert(m1[p].name == n2);
            assert(p != i);
            assert(m2[p].name == n2);
            lemma_idx_unique(m1, n2, p);
            lemma_idx_unique(m2, n2, p);
            assert(m2[p].rows == m1[p].rows);
        } else {
            if has_table(m2, n2) {
                let q = idx_of(m2, n2);
                assert(m2[q].name == n2);
                if q < m.len() {
                    assert(m[q].name == n2);
                } else {
                    assert(m1[q].name == n);
                }
            }
        }
    }
}

/// Insertion ordering: inserting rows `r1` then `r2`
/// into the same collection yields that collection's rows with `r1` and `r2`
/// appended in that order.
pub proof fn lemma_insertion_order(m: DbModel, n: Seq<char>, r1: RowModel, r2: RowModel)
    requires
        db_wf(m),
    ensures
        rows_of(insert_model(insert_model(m, n, r1), n, r2), n) == rows_of(m, n).push(r1).push(r2),
{
    lemma_insert_appends(m, n, r1);
    lemma_insert_appends(insert_model(m, n, r1), n, r2);
}

/// Unknown collection retrieval: the rows of an absent
/// collection are the empty sequence, not an error.
pub proof fn lemma_absent_collection_empty(m: DbModel, n: Seq<char>)
    requires
        !has_table(m, n),
    ensures
        rows_of(m, n) == Seq::<RowModel>::empty(),
{
}

/// Looks a column up by name: the value of the first field carrying it.
pub open spec fn row_get_model(r: RowModel, n: Seq<char>) -> Option<ValueModel>
    decreases r.len(),
{
    if r.len() == 0 {
        None
    } else if r[0].name == n {
        Some(r[0].value)
    } else {
        row_get_model(r.drop_first(), n)
    }
}

impl Row {
    /// The value of the named column, or `None` where the row has no such
    /// column.
    pub fn get(&self, col: &str) -> (r: Option<&LocalDBValue>)
        ensures
            match r {
                Some(v) => row_get_model(self@, col@) == Some(v@),
                None => row_get_model(self@, col@) is None,
            },
    {
        proof {
            assert(self@.skip(0) =~= self@);
        }
        let mut i: usize = 0;
        while i < self.cols.len()
            invariant
                i <= self.cols.len(),
                row_get_model(self@, col@) == row_get_model(self@.skip(i as int), col@),
            decreases self.cols.len() - i,
        {
            proof {
                assert(self@.skip(i as int).len() == self.cols@.len() - i);
                assert(self@.skip(i as int)[0] == self@[i as int]);
                assert(self@.skip(i as int).drop_first() =~= self@.skip(i as int + 1));
            }
            if str_eq(self.cols[i].name.as_str(), col) {
                return Some(&self.cols[i].value);
            }
            i = i + 1;
        }
        proof {
            assert(self@.skip(i as int).len() == 0);
        }
        None
    }
}

impl Database {
    /// Collection names are unique.
    pub open spec fn wf(&self) -> bool {
        db_wf(self@)
    }

    /// A fresh, empty database.
    pub fn empty() -> (r: Self)
        ensures
            r@ == Seq::<TableModel>::empty(),
            r.wf(),
    {
        let r = Database { tables: Vec::new() };
        proof {
            assert(r@ =~= Seq::<TableModel>::empty());
        }
        r
    }

    /// The position of the named collection, where one exists.
    pub fn find_table(&self, name: &str) -> (r: Option<usize>)
        ensures
            match r {
                Some(i) => i < self.tables.len() && self@[i as int].name == name@,
                None => !has_table(self@, name@),
            },
    {
        let mut i: usize = 0;
        while i < self.tables.len()
            invariant
                i <= self.tables.len(),
                forall|k: int| 0 <= k < i ==> self@[k].name != name@,
            decreases self.tables.len() - i,
        {
            if str_eq(self.tables[i].name.as_str(), name) {
                return Some(i);
            }
            i = i + 1;
        }
        None
    }

    /// Creates the named collection where it is absent; a no-op where it
    /// exists.
    pub fn create_table(&mut self, name: String)
        requires
            old(self).wf(),
        ensures
            final(self)@ == create_model(old(self)@, name@),
            final(self).wf(),
    {
        match self.find_table(name.as_str()) {
            Some(_) => {},
            None => {
                let ghost oldm = self@;
                let t = Table { name, rows: Vec::new() };
                let ghost tv = t@;
                self.tables.push(t);
                proof {
                    assert(tv =~~= TableModel { name: tv.name, rows: Seq::empty() });
                    assert(self@ =~= oldm.push(tv));
                    lemma_create_wf(oldm, tv.name);
                }
            },
        }
    }

    /// Appends a row to the named collection, creating the collection first
    /// where it is absent.
    pub fn insert_row(&mut self, name: String, row: Row)
        requires
            old(self).wf(),
        ensures
            final(self)@ == insert_model(old(self)@, name@, row@),
            final(self).wf(),
    {
        let ghost m0 = self@;
        let ghost rv = row@;
        self.create_table(name.clone());
        let ghost m1 = self@;
        proof {
            lemma_create_has(m0, name@);
        }
        let idx = match self.find_table(name.as_str()) {
            Some(i) => i,
            None => {
                proof {
                    assert(false);
                }
                0
            },
        };
        proof {
            lemma_idx_unique(m1, name@, idx as int);
        }
        let mut t = self.tables.remove(idx);
        t.rows.push(row);
        self.tables.insert(idx, t);
        proof {
            let target = TableModel { name: name@, rows: rows_of(m1, name@).push(rv) };
            assert(self.tables@[idx as int]@.rows =~= m1[idx as int].rows.push(rv));
            assert(self.tables@[idx as int]@.name == name@);
            assert(self@ =~= m1.update(idx as int, self.tables@[idx as int]@));
            assert(self.tables@[idx as int]@ == target);
            assert(self@ == insert_model(m0, name@, rv));
            lemma_insert_appends(m0, name@, rv);
        }
    }

    /// A copy of the rows of the named collection, empty where the name is
    /// absent.
    pub fn rows(&self, name: &str) -> (r: Vec<Row>)
        requires
            self.wf(),
        ensures
            r@.map_values(|x: Row| x@) == rows_of(self@, name@),
    {
        match self.find_table(name) {
            None => {
                let r: Vec<Row> = Vec::new();
                proof {
                    assert(r@.map_values(|x: Row| x@) =~= rows_of(self@, name@));
                }
                r
            },
            Some(i) => {
                proof {
                    lemma_idx_unique(self@, name@, i as int);
                }
                let mut out: Vec<Row> = Vec::new();
                let n = self.tables[i].rows.len();
                let mut j: usize = 0;
                while j < n
                    invariant
                        j <= n,
                        i < self.tables.len(),
                        n == self.tables[i as int].rows.len(),
                        out@.map_values(|x: Row| x@)
                            =~= self@[i as int].rows.take(j as int),
                    decreases n - j,
                {
                    let ghost prevout = out@;
                    out.push(self.tables[i].rows[j].clone());
                    j = j + 1;
                    proof {
                        let ghost rs = self@[i as int].rows;
                        assert(out@.map_values(|x: Row| x@)
                            =~= prevout.map_values(|x: Row| x@).push(rs[j - 1]));
                        assert(rs.take(j as int)
                            =~= rs.take(j as int - 1).push(rs[j as int - 1]));
                    }
                }
                proof {
                    assert(self@[i as int].rows.take(j as int) =~= self@[i as int].rows);
                }
                out
            },
        }
    }
}

} // verus!
