//! The table engine: schema, rows, and the mutation and query operations.

use vstd::prelude::*;

use crate::{Column, ColumnModel, Data, DataModel, Id, Index, Instruction, Type, type_of};

verus! {

/// A row of data.
pub type Row = Vec<Data>;

/// A [`Result`] containing a [`QueryResponse`] on success, and a [`QueryError`] on error.
pub type QueryResult = Result<QueryResponse, QueryError>;

/// A failure response from the database.
#[derive(Debug, PartialEq)]
pub enum QueryError {
    /// A column or row index argument exceeds the current count.
    IndexOutOfBounds,
    /// A value-position argument is invalid relative to a row's width.
    DataOutOfBounds,
    /// A name-based lookup matched nothing.
    NotFound,
    /// The number of values supplied to an append does not equal the column count.
    DataMismatch,
    /// A supplied value's type does not match its column's declared
    /// restriction; carries the expected and the actual type.
    TypeMismatch(Type, Type),
}

/// A success response from the database.
#[derive(Debug, PartialEq)]
pub enum QueryResponse {
    /// Returned from successful single operations.
    OkIndex(Index),
    /// Returned from successful multiple column operations.
    ModifiedColumns(Vec<Id>),
    /// Returned from successful multiple row operations.
    ModifiedRows(Vec<Index>),
    /// A single value returned from a fetch.
    OkSingle(Data),
}

/// The mathematical value of a [`Db`]: the column schema and the row contents.
#[verifier::ext_equal]
pub struct DbModel {
    pub columns: Seq<ColumnModel>,
    pub rows: Seq<Seq<DataModel>>,
}

/// A simple database.
///
/// All data is stored in the rows, while the columns are for type checking
/// and data validation.
#[derive(Debug)]
pub struct Db {
    pub columns: Vec<Column>,
    pub rows: Vec<Row>,
}

/// The mathematical values of a stored row.
pub open spec fn row_model(r: Seq<Data>) -> Seq<DataModel> {
    r.map_values(|d: Data| d@)
}

/// The mathematical values of a stored column sequence.
pub open spec fn cols_model(cs: Seq<Column>) -> Seq<ColumnModel> {
    cs.map_values(|c: Column| c@)
}

/// The mathematical values of stored rows.
pub open spec fn rows_model(rs: Seq<Row>) -> Seq<Seq<DataModel>> {
    rs.map_values(|r: Row| row_model(r@))
}

impl View for Db {
    type V = DbModel;

    open spec fn view(&self) -> DbModel {
        (DbModel { columns: cols_model(self.columns@), rows: rows_model(self.rows@) })
    }
}

impl Db {
    /// The shape invariant: every row is exactly as wide as the column sequence.
    pub open spec fn wf(&self) -> bool {
        forall|j: int|
            0 <= j < self@.rows.len() ==> (#[trigger] self@.rows[j]).len() == self@.columns.len()
    }

    /// Column and row counts small enough that every position fits in [`Index`].
    pub open spec fn indexable(&self) -> bool {
        &&& self@.columns.len() <= u32::MAX
        &&& self@.rows.len() <= u32::MAX
    }

    /// Constructs a new Db. The caller supplies rows already matching the
    /// column count, so the shape invariant holds from the start.
    pub fn new(columns: Vec<Column>, rows: Vec<Row>) -> (r: Db)
        requires
            forall|j: int| 0 <= j < rows@.len() ==> (#[trigger] rows@[j])@.len() == columns@.len(),
        ensures
            r.wf(),
            r@.columns == cols_model(columns@),
            r@.rows == rows_model(rows@),
    {
        Db { columns, rows }
    }
}

impl Default for Db {
    /// An empty table: zero columns, zero rows.
    fn default() -> (r: Db)
        ensures
            r.wf(),
            r@.columns == Seq::<ColumnModel>::empty(),
            r@.rows == Seq::<Seq<DataModel>>::empty(),
    {
        let r = Db { columns: Vec::new(), rows: Vec::new() };
        proof {
            assert(r@.columns =~= Seq::<ColumnModel>::empty());
            assert(r@.rows =~= Seq::<Seq<DataModel>>::empty());
        }
        r
    }
}

/// What removing the column at position `i` does to a table: the column
/// leaves the schema and the value at that position leaves every row.
pub open spec fn delete_column_effect(pre: DbModel, post: DbModel, i: int) -> bool {
    &&& post.columns == pre.columns.remove(i)
    &&& post.rows.len() == pre.rows.len()
    &&& forall|j: int| 0 <= j < pre.rows.len() ==> #[trigger] post.rows[j] == pre.rows[j].remove(i)
}

/// Contract of [`Db::delete_column_by_name`]: the first column whose name
/// exactly equals `name` is removed, together with its position in every row;
/// if no column matches, nothing changes and the lookup fails.
pub open spec fn delete_column_by_name_post(
    pre: DbModel,
    post: DbModel,
    name: Seq<char>,
    r: QueryResult,
) -> bool {
    match r {
        Ok(QueryResponse::OkIndex(ci)) => {
            &&& (ci as int) < pre.columns.len()
            &&& pre.columns[ci as int].name == name
            &&& forall|k: int| 0 <= k < (ci as int) ==> (#[trigger] pre.columns[k]).name != name
            &&& delete_column_effect(pre, post, ci as int)
        },
        Ok(_) => false,
        Err(e) => {
            &&& e == QueryError::NotFound
            &&& forall|k: int|
                0 <= k < pre.columns.len() ==> (#[trigger] pre.columns[k]).name != name
            &&& post == pre
        },
    }
}

/// Contract of [`Db::delete_column_by_index`].
pub open spec fn delete_column_by_index_post(
    pre: DbModel,
    post: DbModel,
    index: Index,
    r: QueryResult,
) -> bool {
    match r {
        Ok(QueryResponse::OkIndex(ci)) => {
            &&& ci == index
            &&& (index as int) < pre.columns.len()
            &&& delete_column_effect(pre, post, index as int)
        },
        Ok(_) => false,
        Err(e) => {
            &&& e == QueryError::IndexOutOfBounds
            &&& pre.columns.len() <= index as int
            &&& post == pre
        },
    }
}

/// Contract of [`Db::delete_row_by_index`].
pub open spec fn delete_row_by_index_post(
    pre: DbModel,
    post: DbModel,
    index: Index,
    r: QueryResult,
) -> bool {
    match r {
        Ok(QueryResponse::OkIndex(ri)) => {
            &&& ri == index
            &&& (index as int) < pre.rows.len()
            &&& post.columns == pre.columns
            &&& post.rows == pre.rows.remove(index as int)
        },
        Ok(_) => false,
        Err(e) => {
            &&& e == QueryError::IndexOutOfBounds
            &&& pre.rows.len() <= index as int
            &&& post == pre
        },
    }
}

/// Contract of [`Db::append_column_default`]: the new column always lands at
/// the end of the schema, and every existing row retroactively gains the
/// default value at that new position.
pub open spec fn append_column_post(
    pre: DbModel,
    post: DbModel,
    name: Seq<char>,
    ty: Type,
    default: DataModel,
    r: QueryResult,
) -> bool {
    match r {
        Ok(QueryResponse::OkIndex(ci)) => {
            &&& ci as int == pre.columns.len()
            &&& post.columns == pre.columns.push((ColumnModel { name, ty }))
            &&& post.rows.len() == pre.rows.len()
            &&& forall|j: int|
                0 <= j < pre.rows.len() ==> #[trigger] post.rows[j] == pre.rows[j].push(default)
        },
        _ => false,
    }
}

/// Every supplied value's type matches the corresponding column's restriction.
pub open spec fn row_matches(columns: Seq<ColumnModel>, vals: Seq<DataModel>) -> bool {
    forall|i: int| 0 <= i < vals.len() ==> type_of(#[trigger] vals[i]) == columns[i].ty
}

/// Contract of [`Db::append_row`]: a wrong value count always yields
/// `DataMismatch` (never `TypeMismatch`); otherwise values are checked in
/// column order and the first mismatch, left to right, is reported; on
/// success the row lands at the end.
pub open spec fn append_row_post(
    pre: DbModel,
    post: DbModel,
    vals: Seq<DataModel>,
    r: QueryResult,
) -> bool {
    match r {
        Ok(QueryResponse::OkIndex(ri)) => {
            &&& vals.len() == pre.columns.len()
            &&& row_matches(pre.columns, vals)
            &&& ri as int == pre.rows.len()
            &&& post.columns == pre.columns
            &&& post.rows == pre.rows.push(vals)
        },
        Ok(_) => false,
        Err(QueryError::DataMismatch) => {
            &&& vals.len() != pre.columns.len()
            &&& post == pre
        },
        Err(QueryError::TypeMismatch(expected, actual)) => {
            &&& vals.len() == pre.columns.len()
            &&& exists|i: int|
                {
                    &&& 0 <= i < vals.len()
                    &&& type_of(#[trigger] vals[i]) != pre.columns[i].ty
                    &&& expected == pre.columns[i].ty
                    &&& actual == type_of(vals[i])
                    &&& forall|k: int|
                        0 <= k < i ==> type_of(#[trigger] vals[k]) == pre.columns[k].ty
                }
            &&& post == pre
        },
        Err(_) => false,
    }
}

/// Contract of [`Db::fetch_value`]. The first argument is the value position
/// inside a row and the second the row index, and the first bound check,
/// deliberately, tests the value position against the row count. The
/// remaining out-of-range cases are declared errors of their own: a bad row
/// index is `IndexOutOfBounds`, a value position beyond the row's width is
/// `DataOutOfBounds`.
pub open spec fn fetch_value_post(
    pre: DbModel,
    post: DbModel,
    data_index: Index,
    row_index: Index,
    r: QueryResult,
) -> bool {
    let di = data_index as int;
    let ri = row_index as int;
    &&& post == pre
    &&& match r {
        Ok(QueryResponse::OkSingle(d)) => {
            &&& di < pre.rows.len()
            &&& ri < pre.rows.len()
            &&& di < pre.columns.len()
            &&& d@ == pre.rows[ri][di]
        },
        Ok(_) => false,
        Err(QueryError::DataOutOfBounds) => di >= pre.rows.len() || (ri < pre.rows.len()
            && di >= pre.columns.len()),
        Err(QueryError::IndexOutOfBounds) => di < pre.rows.len() && ri >= pre.rows.len(),
        Err(_) => false,
    }
}

/// Contract of [`Db::query`]: each instruction behaves exactly as the
/// operation it names.
pub open spec fn query_post(
    pre: DbModel,
    post: DbModel,
    instruction: Instruction,
    r: QueryResult,
) -> bool {
    match instruction {
        Instruction::DeleteColumn(id) => match id {
            Id::Name(name) => delete_column_by_name_post(pre, post, name@, r),
            Id::Index(i) => delete_column_by_index_post(pre, post, i, r),
        },
        Instruction::DeleteRow(index) => delete_row_by_index_post(pre, post, index, r),
        Instruction::AppendRow(data) => append_row_post(pre, post, row_model(data@), r),
        Instruction::AppendColumn(name, ty) => append_column_post(
            pre,
            post,
            name@,
            ty,
            DataModel::Null,
            r,
        ),
        Instruction::Fetch(i_data, i_row) => fetch_value_post(pre, post, i_data, i_row, r),
    }
}

impl Db {
    /// Removes the value at position `i` from every row.
    fn remove_cell_from_rows(&mut self, i: usize)
        requires
            forall|j: int|
                0 <= j < old(self).rows@.len() ==> (i as int) < (#[trigger] old(
                    self,
                ).rows@[j])@.len(),
        ensures
            final(self).columns == old(self).columns,
            final(self).rows@.len() == old(self).rows@.len(),
            forall|j: int|
                0 <= j < old(self).rows@.len() ==> (#[trigger] final(self).rows@[j])@ == old(
                    self,
                ).rows@[j]@.remove(i as int),
    {
        let m = self.rows.len();
        let mut j: usize = 0;
        while j < m
            invariant
                m == self.rows@.len(),
                m == old(self).rows@.len(),
                j <= m,
                self.columns == old(self).columns,
                forall|k: int|
                    0 <= k < old(self).rows@.len() ==> (i as int) < (#[trigger] old(
                        self,
                    ).rows@[k])@.len(),
                forall|k: int|
                    0 <= k < j ==> (#[trigger] self.rows@[k])@ == old(self).rows@[k]@.remove(
                        i as int,
                    ),
                forall|k: int| j <= k < m ==> #[trigger] self.rows@[k] == old(self).rows@[k],
            decreases m - j,
        {
            proof {
                assert(self.rows@[j as int] == old(self).rows@[j as int]);
                assert((i as int) < old(self).rows@[j as int]@.len());
            }
            let mut row = self.rows.remove(j);
            proof {
                assert(row@.len() == old(self).rows@[j as int]@.len());
            }
            row.remove(i);
            self.rows.insert(j, row);
            j += 1;
        }
    }

    /// Under the shape invariant every row is at least as wide as any valid
    /// column position, stated over the stored vectors.
    proof fn lemma_rows_wide(&self, i: int)
        requires
            self.wf(),
            0 <= i < self@.columns.len(),
        ensures
            forall|j: int| 0 <= j < self.rows@.len() ==> i < (#[trigger] self.rows@[j])@.len(),
    {
        assert forall|j: int| 0 <= j < self.rows@.len() implies i < (#[trigger] self.rows@[j])@.len() by {
            assert(self@.rows[j].len() == self@.columns.len());
            assert(self@.rows[j] == row_model(self.rows@[j]@));
        }
    }

    /// Deletes the first column which exactly matches the given name
    /// (case-sensitive, no normalization), and the value at that position
    /// from every row. Fails with [`QueryError::NotFound`] if no column
    /// matches.
    pub fn delete_column_by_name(&mut self, name: &str) -> (r: QueryResult)
        requires
            old(self).wf(),
            old(self).indexable(),
        ensures
            final(self).wf(),
            delete_column_by_name_post(old(self)@, final(self)@, name@, r),
    {
        let key: String = name.to_owned();
        let n = self.columns.len();
        let mut i: usize = 0;
        while i < n
            invariant
                *self == *old(self),
                old(self).wf(),
                n == self.columns@.len(),
                i <= n,
                key@ == name@,
                old(self).indexable(),
                forall|k: int| 0 <= k < i ==> (#[trigger] old(self)@.columns[k]).name != name@,
            decreases n - i,
        {
            if self.columns[i].name == key {
                proof {
                    assert(old(self)@.columns[i as int].name == name@);
                    self.lemma_rows_wide(i as int);
                    assert(old(self)@.columns.len() <= u32::MAX);
                }
                self.columns.remove(i);
                self.remove_cell_from_rows(i);
                proof {
                    assert(self@.columns =~= old(self)@.columns.remove(i as int));
                    assert forall|j: int| 0 <= j < old(self)@.rows.len() implies #[trigger] self@
                        .rows[j] == old(self)@.rows[j].remove(i as int) by {
                        assert(self@.rows[j] =~= old(self)@.rows[j].remove(i as int));
                    }
                }
                return Ok(QueryResponse::OkIndex(i as Index));
            }
            i += 1;
        }
        Err(QueryError::NotFound)
    }

    /// Deletes a column by its index, and the value at that position from
    /// every row. Fails with [`QueryError::IndexOutOfBounds`] if the index is
    /// greater than or equal to the number of columns.
    pub fn delete_column_by_index(&mut self, index: Index) -> (r: QueryResult)
        requires
            old(self).wf(),
        ensures
            final(self).wf(),
            delete_column_by_index_post(old(self)@, final(self)@, index, r),
    {
        if (index as usize) < self.columns.len() {
            proof {
                self.lemma_rows_wide(index as int);
            }
            self.columns.remove(index as usize);
            self.remove_cell_from_rows(index as usize);
            proof {
                assert(self@.columns =~= old(self)@.columns.remove(index as int));
                assert forall|j: int| 0 <= j < old(self)@.rows.len() implies #[trigger] self@
                    .rows[j] == old(self)@.rows[j].remove(index as int) by {
                    assert(self@.rows[j] =~= old(self)@.rows[j].remove(index as int));
                }
            }
            return Ok(QueryResponse::OkIndex(index));
        }
        Err(QueryError::IndexOutOfBounds)
    }

    /// Deletes a row by its index. Fails with
    /// [`QueryError::IndexOutOfBounds`] if the index is greater than or equal
    /// to the number of rows.
    pub fn delete_row_by_index(&mut self, index: Index) -> (r: QueryResult)
        requires
            old(self).wf(),
        ensures
            final(self).wf(),
            delete_row_by_index_post(old(self)@, final(self)@, index, r),
    {
        if (index as usize) < self.rows.len() {
            self.rows.remove(index as usize);
            proof {
                assert(self@.rows =~= old(self)@.rows.remove(index as int));
            }
            return Ok(QueryResponse::OkIndex(index));
        }
        Err(QueryError::IndexOutOfBounds)
    }

    /// Creates and appends a new column with the given name and type
    /// restriction. A null value is appended to all existing rows.
    ///
    /// Always succeeds with the new column's index; column names need not be
    /// unique, by design.
    pub fn append_column(&mut self, name: String, ty_restrict: Type) -> (r: QueryResult)
        requires
            old(self).wf(),
            old(self).indexable(),
        ensures
            final(self).wf(),
            append_column_post(old(self)@, final(self)@, name@, ty_restrict, DataModel::Null, r),
    {
        self.append_column_default(name, ty_restrict, Data::Null)
    }

    /// Creates and appends a new column with the given name and type
    /// restriction. The provided default value is appended to all existing
    /// rows, so the new column applies retroactively to them.
    ///
    /// Always succeeds with the new column's index; column names need not be
    /// unique, by design.
    pub fn append_column_default(&mut self, name: String, ty_restrict: Type, default: Data) -> (r:
        QueryResult)
        requires
            old(self).wf(),
            old(self).indexable(),
        ensures
            final(self).wf(),
            append_column_post(old(self)@, final(self)@, name@, ty_restrict, default@, r),
    {
        let ghost gname = name@;
        let new_index = self.columns.len();
        proof {
            assert(old(self)@.columns.len() <= u32::MAX);
        }
        let col = Column::new(name, ty_restrict);
        let ghost gcol = col;
        self.columns.push(col);
        let m = self.rows.len();
        let mut j: usize = 0;
        while j < m
            invariant
                m == self.rows@.len(),
                m == old(self).rows@.len(),
                j <= m,
                gcol@ == (ColumnModel { name: gname, ty: ty_restrict }),
                self.columns@ == old(self).columns@.push(gcol),
                forall|k: int|
                    0 <= k < j ==> (#[trigger] self.rows@[k])@ == old(self).rows@[k]@.push(default),
                forall|k: int| j <= k < m ==> #[trigger] self.rows@[k] == old(self).rows@[k],
            decreases m - j,
        {
            let d = default.clone();
            let mut row = self.rows.remove(j);
            row.push(d);
            self.rows.insert(j, row);
            j += 1;
        }
        proof {
            assert(self@.columns =~= old(self)@.columns.push(
                (ColumnModel { name: gname, ty: ty_restrict }),
            ));
            assert forall|k: int| 0 <= k < old(self)@.rows.len() implies #[trigger] self@.rows[k]
                == old(self)@.rows[k].push(default@) by {
                assert((self.rows@[k])@ == old(self).rows@[k]@.push(default));
                assert(self@.rows[k] =~= old(self)@.rows[k].push(default@));
            }
            assert(new_index == old(self)@.columns.len());
        }
        Ok(QueryResponse::OkIndex(new_index as Index))
    }

    /// Creates and appends a new row with the given data. Fails with
    /// [`QueryError::DataMismatch`] if the value count differs from the
    /// column count, and with [`QueryError::TypeMismatch`] on the first
    /// value, left to right, whose type differs from its column's
    /// restriction.
    pub fn append_row(&mut self, data: Row) -> (r: QueryResult)
        requires
            old(self).wf(),
            old(self).indexable(),
        ensures
            final(self).wf(),
            append_row_post(old(self)@, final(self)@, row_model(data@), r),
    {
        if data.len() != self.columns.len() {
            return Err(QueryError::DataMismatch);
        }
        let ghost vals = row_model(data@);
        let mut i: usize = 0;
        while i < data.len()
            invariant
                *self == *old(self),
                old(self).wf(),
                vals == row_model(data@),
                data@.len() == self.columns@.len(),
                i <= data@.len(),
                forall|k: int| 0 <= k < i ==> type_of(#[trigger] vals[k]) == self@.columns[k].ty,
            decreases data@.len() - i,
        {
            let restriction = self.columns[i].ty_restriction;
            let actual = data[i].get_type();
            if restriction != actual {
                proof {
                    let wi = i as int;
                    assert(type_of(vals[wi]) == type_of(data@[wi]@));
                    assert(restriction == old(self)@.columns[wi].ty);
                    assert({
                        &&& 0 <= wi < vals.len()
                        &&& type_of(vals[wi]) != old(self)@.columns[wi].ty
                        &&& restriction == old(self)@.columns[wi].ty
                        &&& actual == type_of(vals[wi])
                        &&& forall|k: int|
                            0 <= k < wi ==> type_of(#[trigger] vals[k]) == old(self)@.columns[k].ty
                    });
                }
                return Err(QueryError::TypeMismatch(restriction, actual));
            }
            i += 1;
        }
        let new_index = self.rows.len();
        proof {
            assert(old(self)@.rows.len() <= u32::MAX);
        }
        self.rows.push(data);
        proof {
            assert(self@.rows =~= old(self)@.rows.push(vals));
        }
        Ok(QueryResponse::OkIndex(new_index as Index))
    }

    /// Fetches the single value at value position `data_index` of the row at
    /// `row_index`. Every out-of-range combination maps to a declared error;
    /// see [`fetch_value_post`].
    pub fn fetch_value(&mut self, data_index: Index, row_index: Index) -> (r: QueryResult)
        requires
            old(self).wf(),
        ensures
            final(self).wf(),
            fetch_value_post(old(self)@, final(self)@, data_index, row_index, r),
    {
        if data_index as usize >= self.rows.len() {
            return Err(QueryError::DataOutOfBounds);
        }
        if row_index as usize >= self.rows.len() {
            return Err(QueryError::IndexOutOfBounds);
        }
        if data_index as usize >= self.columns.len() {
            return Err(QueryError::DataOutOfBounds);
        }
        proof {
            assert(self@.rows[row_index as int].len() == self@.columns.len());
            assert(self@.rows[row_index as int] == row_model(self.rows@[row_index as int]@));
        }
        let row = &self.rows[row_index as usize];
        let value = row[data_index as usize].clone();
        Ok(QueryResponse::OkSingle(value))
    }

    /// Queries the database with the given instruction: the uniform dispatch
    /// entry point through which every operation is reachable.
    pub fn query(&mut self, instruction: Instruction) -> (r: QueryResult)
        requires
            old(self).wf(),
            old(self).indexable(),
        ensures
            final(self).wf(),
            query_post(old(self)@, final(self)@, instruction, r),
    {
        match instruction {
            Instruction::DeleteColumn(id) => match id {
                Id::Name(name) => self.delete_column_by_name(name.as_str()),
                Id::Index(i) => self.delete_column_by_index(i),
            },
            Instruction::DeleteRow(index) => self.delete_row_by_index(index),
            Instruction::AppendColumn(name, ty) => self.append_column(name, ty),
            Instruction::AppendRow(data) => self.append_row(data),
            Instruction::Fetch(i_data, i_row) => self.fetch_value(i_data, i_row),
        }
    }
}

/// The reason that the database failed to load.
#[derive(Clone, Copy, Debug, PartialEq, Eq, Structural)]
pub enum LoadDbErrorKind {
    /// The content failed to parse as a valid table: not retry-worthy.
    Malformed,
    /// The underlying byte source could not be read at all: retry-worthy.
    Io,
}

/// An error produced by the database when loading itself from a byte source fails.
#[derive(Debug)]
pub struct LoadDbError {
    pub message: String,
    pub kind: LoadDbErrorKind,
}

impl LoadDbError {
    pub fn message(&self) -> (r: &str)
        ensures
            r@ == self.message@,
    {
        self.message.as_str()
    }

    pub fn kind(&self) -> (r: &LoadDbErrorKind)
        ensures
            *r == self.kind,
    {
        &self.kind
    }

    pub fn new(message: String, kind: LoadDbErrorKind) -> (r: Self)
        ensures
            r.message@ == message@,
            r.kind == kind,
    {
        LoadDbError { message, kind }
    }
}

} // verus!
