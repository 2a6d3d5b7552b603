//! Immutable columnar arrays and record batches.

use vstd::prelude::*;
use crate::types::{LogicalType, Schema, TypeModel, FieldModel, type_supported, schema_supported};
use crate::value::{ScalarValue, ScalarModel, value_fits};

verus! {

/// Storage of one column.
///
/// A null column stores only its length; a dictionary column stores
/// small keys into a shared values table; every other column stores
/// its cells directly. A `None` cell is a null.
#[derive(Debug)]
pub enum ColumnData {
    NullOnly { len: usize },
    Plain { cells: Vec<Option<ScalarValue>> },
    Dict { keys: Vec<Option<usize>>, values: Vec<ScalarValue> },
}

/// The model of one stored cell.
pub open spec fn cell_model(c: Option<ScalarValue>) -> Option<ScalarModel> {
    match c {
        Option::None => Option::None,
        Option::Some(v) => Option::Some(v@),
    }
}

/// The models of directly stored cells.
pub open spec fn opt_cells(cells: Seq<Option<ScalarValue>>) -> Seq<Option<ScalarModel>> {
    cells.map(|i: int, c: Option<ScalarValue>| cell_model(c))
}

/// A structural copy of one stored cell, with the same model.
pub fn duplicate_cell(c: &Option<ScalarValue>) -> (r: Option<ScalarValue>)
    ensures
        cell_model(r) == cell_model(*c),
        r is Some <==> *c is Some,
{
    match c {
        Option::None => Option::None,
        Option::Some(v) => Option::Some(v.duplicate()),
    }
}

/// The models of dictionary-encoded cells: each key is resolved to the
/// value it interns.
pub open spec fn dict_cells(keys: Seq<Option<usize>>, values: Seq<ScalarValue>) -> Seq<
    Option<ScalarModel>,
> {
    keys.map(
        |i: int, k: Option<usize>|
            match k {
                Option::None => Option::None,
                Option::Some(j) => Option::Some(values[j as int]@),
            },
    )
}

/// A sequence of all-null cells.
pub open spec fn null_cells(len: nat) -> Seq<Option<ScalarModel>> {
    Seq::new(len, |i: int| Option::None)
}

/// Every stored value fits the given type.
pub open spec fn cells_fit(cells: Seq<Option<ScalarValue>>, t: TypeModel) -> bool {
    forall|i: int|
        0 <= i < cells.len() ==> ((#[trigger] cells[i]) matches Option::Some(v) ==> value_fits(
            v@,
            t,
        ))
}

/// Every value of a dictionary table fits the given type.
pub open spec fn values_fit(values: Seq<ScalarValue>, t: TypeModel) -> bool {
    forall|i: int| 0 <= i < values.len() ==> value_fits((#[trigger] values[i])@, t)
}

/// Every present key points into a table of `n` values.
pub open spec fn keys_in_range(keys: Seq<Option<usize>>, n: int) -> bool {
    forall|i: int|
        0 <= i < keys.len() ==> ((#[trigger] keys[i]) matches Option::Some(j) ==> j < n)
}

/// The cells of `cells` selected by `indices`, in index order.
pub open spec fn gather(cells: Seq<Option<ScalarModel>>, indices: Seq<usize>) -> Seq<
    Option<ScalarModel>,
> {
    indices.map(|j: int, i: usize| cells[i as int])
}

/// Resolution of one dictionary key against a values table.
pub open spec fn resolve_key(k: Option<usize>, values: Seq<ScalarValue>) -> Option<ScalarModel> {
    match k {
        Option::None => Option::None,
        Option::Some(j) => Option::Some(values[j as int]@),
    }
}

pub proof fn lemma_opt_cells_push(pre: Seq<Option<ScalarValue>>, c: Option<ScalarValue>)
    ensures
        opt_cells(pre.push(c)) == opt_cells(pre).push(cell_model(c)),
{
    assert forall|k: int| 0 <= k < pre.len() + 1 implies opt_cells(pre.push(c))[k] == opt_cells(
        pre,
    ).push(cell_model(c))[k] by {
        if k < pre.len() {
            assert(pre.push(c)[k] == pre[k]);
        } else {
            assert(pre.push(c)[k] == c);
        }
    }
    assert(opt_cells(pre.push(c)) =~= opt_cells(pre).push(cell_model(c)));
}

pub proof fn lemma_opt_cells_take_one_more(s: Seq<Option<ScalarValue>>, i: int)
    requires
        0 <= i < s.len(),
    ensures
        opt_cells(s.subrange(0, i + 1)) == opt_cells(s.subrange(0, i)).push(cell_model(s[i])),
{
    assert forall|k: int| 0 <= k < i + 1 implies opt_cells(s.subrange(0, i + 1))[k] == opt_cells(
        s.subrange(0, i),
    ).push(cell_model(s[i]))[k] by {
        assert(s.subrange(0, i + 1)[k] == s[k]);
        if k < i {
            assert(s.subrange(0, i)[k] == s[k]);
        }
    }
    assert(opt_cells(s.subrange(0, i + 1)) =~= opt_cells(s.subrange(0, i)).push(cell_model(s[i])));
}

pub proof fn lemma_dict_cells_push_key(
    keys: Seq<Option<usize>>,
    values: Seq<ScalarValue>,
    k: Option<usize>,
)
    ensures
        dict_cells(keys.push(k), values) == dict_cells(keys, values).push(resolve_key(k, values)),
{
    assert forall|j: int| 0 <= j < keys.len() + 1 implies dict_cells(keys.push(k), values)[j]
        == dict_cells(keys, values).push(resolve_key(k, values))[j] by {
        if j < keys.len() {
            assert(keys.push(k)[j] == keys[j]);
        } else {
            assert(keys.push(k)[j] == k);
        }
    }
    assert(dict_cells(keys.push(k), values) =~= dict_cells(keys, values).push(
        resolve_key(k, values),
    ));
}

/// Extending the values table does not change what existing keys
/// resolve to.
pub proof fn lemma_dict_cells_values_prefix(
    keys: Seq<Option<usize>>,
    values1: Seq<ScalarValue>,
    values2: Seq<ScalarValue>,
)
    requires
        keys_in_range(keys, values1.len() as int),
        values1.len() <= values2.len(),
        forall|i: int| 0 <= i < values1.len() ==> values2[i] == values1[i],
    ensures
        dict_cells(keys, values2) == dict_cells(keys, values1),
{
    assert forall|j: int| 0 <= j < keys.len() implies dict_cells(keys, values2)[j] == dict_cells(
        keys,
        values1,
    )[j] by {
        assert(keys[j] matches Option::Some(x) ==> x < values1.len());
    }
    assert(dict_cells(keys, values2) =~= dict_cells(keys, values1));
}

pub proof fn lemma_gather_take_one_more(
    cells: Seq<Option<ScalarModel>>,
    indices: Seq<usize>,
    j: int,
)
    requires
        0 <= j < indices.len(),
    ensures
        gather(cells, indices.subrange(0, j + 1))
            == gather(cells, indices.subrange(0, j)).push(
            cells[indices[j] as int],
        ),
{
    assert forall|k: int| 0 <= k < j + 1 implies gather(
        cells,
        indices.subrange(0, j + 1),
    )[k] == gather(cells, indices.subrange(0, j)).push(
        cells[indices[j] as int],
    )[k] by {
        assert(indices.subrange(0, j + 1)[k] == indices[k]);
        if k < j {
            assert(indices.subrange(0, j)[k] == indices[k]);
        }
    }
    assert(gather(cells, indices.subrange(0, j + 1))
        =~= gather(cells, indices.subrange(0, j)).push(
        cells[indices[j] as int],
    ));
}

/// Cells with equal models fit the same types.
pub proof fn lemma_cells_fit_from_models(
    a: Seq<Option<ScalarValue>>,
    b: Seq<Option<ScalarValue>>,
    t: TypeModel,
)
    requires
        opt_cells(a) == opt_cells(b),
        cells_fit(b, t),
    ensures
        cells_fit(a, t),
{
    assert(opt_cells(a).len() == a.len());
    assert(opt_cells(b).len() == b.len());
    assert forall|i: int| 0 <= i < a.len() implies ((#[trigger] a[i]) matches Option::Some(v)
        ==> value_fits(v@, t)) by {
        assert(opt_cells(a)[i] == cell_model(a[i]));
        assert(opt_cells(b)[i] == cell_model(b[i]));
    }
}

/// The logical cells of a column: dictionary keys are resolved to the
/// values they intern, so two dictionary encodings of the same data
/// have the same cells whatever their key codes.
pub open spec fn column_cells(d: ColumnData) -> Seq<Option<ScalarModel>> {
    match d {
        ColumnData::NullOnly { len } => null_cells(len as nat),
        ColumnData::Plain { cells } => opt_cells(cells@),
        ColumnData::Dict { keys, values } => dict_cells(keys@, values@),
    }
}

/// An immutable, already-materialized column: a parallel sequence of
/// (validity, value) pairs of fixed length.
#[derive(Debug)]
pub struct Array {
    pub data_type: LogicalType,
    pub data: ColumnData,
}

/// Model of an [`Array`]: its logical type and its logical cells.
pub struct ArrayModel {
    pub data_type: TypeModel,
    pub cells: Seq<Option<ScalarModel>>,
}

impl View for Array {
    type V = ArrayModel;

    open spec fn view(&self) -> ArrayModel {
        ArrayModel { data_type: self.data_type@, cells: column_cells(self.data) }
    }
}

/// A logical type whose columns store their cells directly.
pub open spec fn plain_type(t: TypeModel) -> bool {
    !(t is Null) && !(t is Dictionary)
}

impl Array {
    /// Well-formedness: the storage variant agrees with the logical
    /// type, every stored value fits it, and every dictionary key
    /// points into the values table.
    pub open spec fn wf(&self) -> bool {
        &&& type_supported(self.data_type@)
        &&& match self.data {
            ColumnData::NullOnly { len } => self.data_type@ is Null,
            ColumnData::Plain { cells } => {
                &&& plain_type(self.data_type@)
                &&& cells_fit(cells@, self.data_type@)
            },
            ColumnData::Dict { keys, values } => {
                &&& self.data_type@ is Dictionary
                &&& keys_in_range(keys@, values@.len() as int)
                &&& values_fit(values@, self.data_type@)
            },
        }
    }

    /// Number of cells.
    pub fn len(&self) -> (n: usize)
        ensures
            n == self@.cells.len(),
    {
        match &self.data {
            ColumnData::NullOnly { len } => *len,
            ColumnData::Plain { cells } => cells.len(),
            ColumnData::Dict { keys, values: _ } => keys.len(),
        }
    }

    /// The logical value of the cell at `i`, dictionary keys resolved.
    pub fn value_at(&self, i: usize) -> (r: Option<ScalarValue>)
        requires
            self.wf(),
            i < self@.cells.len(),
        ensures
            cell_model(r) == self@.cells[i as int],
    {
        match &self.data {
            ColumnData::NullOnly { len: _ } => Option::None,
            ColumnData::Plain { cells } => duplicate_cell(&cells[i]),
            ColumnData::Dict { keys, values } => match &keys[i] {
                Option::None => Option::None,
                Option::Some(k) => Option::Some(values[*k].duplicate()),
            },
        }
    }

    /// Whether the cell at `i` holds a value.
    pub fn is_valid(&self, i: usize) -> (r: bool)
        requires
            i < self@.cells.len(),
        ensures
            r == (self@.cells[i as int] is Some),
    {
        match &self.data {
            ColumnData::NullOnly { len: _ } => false,
            ColumnData::Plain { cells } => cells[i].is_some(),
            ColumnData::Dict { keys, values: _ } => keys[i].is_some(),
        }
    }
}

/// A fixed-length tuple of arrays, one per schema field, all sharing
/// the same row count.
#[derive(Debug)]
pub struct RecordBatch {
    pub schema: Schema,
    pub columns: Vec<Array>,
    pub num_rows: usize,
}

/// Model of a [`RecordBatch`]: the schema and the logical cells of
/// each column, in field order.
pub struct BatchModel {
    pub schema: Seq<FieldModel>,
    pub columns: Seq<Seq<Option<ScalarModel>>>,
}

impl View for RecordBatch {
    type V = BatchModel;

    open spec fn view(&self) -> BatchModel {
        BatchModel {
            schema: self.schema@,
            columns: self.columns@.map(|i: int, a: Array| a@.cells),
        }
    }
}

impl RecordBatch {
    /// Well-formedness: one well-formed column per field, of the
    /// field's type, all with `num_rows` cells.
    pub open spec fn wf(&self) -> bool {
        &&& schema_supported(self.schema@)
        &&& self.columns@.len() == self.schema@.len()
        &&& forall|i: int|
            0 <= i < self.columns@.len() ==> (#[trigger] self.columns@[i]).wf()
        &&& forall|i: int|
            0 <= i < self.columns@.len()
                ==> (#[trigger] self.columns@[i])@.data_type == self.schema@[i].data_type
        &&& forall|i: int|
            0 <= i < self.columns@.len()
                ==> (#[trigger] self.columns@[i])@.cells.len() == self.num_rows
    }

    /// Number of rows shared by every column.
    pub fn num_rows(&self) -> (n: usize)
        ensures
            n == self.num_rows,
    {
        self.num_rows
    }

    /// Number of columns.
    pub fn num_columns(&self) -> (n: usize)
        ensures
            n == self@.columns.len(),
    {
        self.columns.len()
    }

    /// The column at field position `i`.
    pub fn column(&self, i: usize) -> (a: &Array)
        requires
            i < self@.columns.len(),
        ensures
            *a == self.columns@[i as int],
    {
        &self.columns[i]
    }
}

} // verus!
