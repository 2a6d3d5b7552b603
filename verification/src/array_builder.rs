//! The type-driven builder factory and append engine.

use vstd::prelude::*;
use crate::Fault;
use crate::types::{
    DictKeyType, LogicalType, Schema, TypeModel, lemma_type_model_constructor, schema_supported,
    type_supported,
};
use crate::value::{ScalarValue, ScalarModel, value_fits};
use crate::column::{
    Array, ColumnData, RecordBatch, cell_model, cells_fit, dict_cells, duplicate_cell, gather,
    keys_in_range, lemma_dict_cells_push_key, lemma_dict_cells_values_prefix,
    lemma_gather_take_one_more, lemma_opt_cells_push, lemma_opt_cells_take_one_more, null_cells,
    opt_cells, plain_type, resolve_key, values_fit,
};

verus! {

/// Width of a decimal column's physical values.
#[derive(Clone, Copy, PartialEq, Eq, Structural, Debug)]
pub enum DecimalWidth {
    Width128,
    Width256,
}

/// Counting-only builder for null columns: no storage at all.
#[derive(Debug)]
pub struct NullBuilder {
    pub len: usize,
}

impl NullBuilder {
    pub fn new() -> (r: NullBuilder)
        ensures
            r.len == 0,
    {
        NullBuilder { len: 0 }
    }

    /// Appends one null.
    pub fn append(&mut self)
        requires
            old(self).len < usize::MAX,
        ensures
            final(self).len == old(self).len + 1,
    {
        self.len = self.len + 1;
    }

    /// Appends `len` nulls at once.
    pub fn extend(&mut self, len: usize)
        requires
            old(self).len + len <= usize::MAX,
        ensures
            final(self).len == old(self).len + len,
    {
        self.len = self.len + len;
    }

    /// The all-null column of the current length; the builder is kept.
    pub fn finish_cloned(&self) -> (a: Array)
        ensures
            a.wf(),
            a@.data_type == TypeModel::Null,
            a@.cells == null_cells(self.len as nat),
    {
        Array { data_type: LogicalType::Null, data: ColumnData::NullOnly { len: self.len } }
    }
}

/// Builder for every directly stored (non-null, non-dictionary) type.
#[derive(Debug)]
pub struct PlainBuilder {
    pub data_type: LogicalType,
    pub cells: Vec<Option<ScalarValue>>,
}

impl PlainBuilder {
    pub open spec fn wf(&self) -> bool {
        &&& type_supported(self.data_type@)
        &&& plain_type(self.data_type@)
        &&& cells_fit(self.cells@, self.data_type@)
    }
}

/// A decimal builder retaining out-of-band precision and scale, set at
/// construction and stamped onto the finished column, which the
/// bare cell storage could not round-trip by itself.
#[derive(Debug)]
pub struct ConfiguredDecimalBuilder {
    pub width: DecimalWidth,
    pub precision: u8,
    pub scale: i8,
    pub cells: Vec<Option<ScalarValue>>,
}

impl ConfiguredDecimalBuilder {
    /// The decimal logical type this builder produces.
    pub open spec fn spec_data_type(&self) -> TypeModel {
        match self.width {
            DecimalWidth::Width128 => TypeModel::Decimal128(self.precision, self.scale),
            DecimalWidth::Width256 => TypeModel::Decimal256(self.precision, self.scale),
        }
    }

    pub open spec fn wf(&self) -> bool {
        cells_fit(self.cells@, self.spec_data_type())
    }

    pub fn with_capacity(width: DecimalWidth, capacity: usize, precision: u8, scale: i8) -> (r:
        ConfiguredDecimalBuilder)
        ensures
            r.wf(),
            r.width == width,
            r.precision == precision,
            r.scale == scale,
            r.cells@.len() == 0,
    {
        ConfiguredDecimalBuilder { width, precision, scale, cells: Vec::with_capacity(capacity) }
    }

    /// Appends one decimal value.
    pub fn append_value(&mut self, v: ScalarValue)
        requires
            old(self).wf(),
            value_fits(v@, old(self).spec_data_type()),
        ensures
            final(self).wf(),
            final(self).width == old(self).width,
            final(self).precision == old(self).precision,
            final(self).scale == old(self).scale,
            final(self).cells@ == old(self).cells@.push(Option::Some(v)),
    {
        self.cells.push(Option::Some(v));
    }

    /// Appends one optional decimal value.
    pub fn append_option(&mut self, v: Option<ScalarValue>)
        requires
            old(self).wf(),
            v matches Option::Some(x) ==> value_fits(x@, old(self).spec_data_type()),
        ensures
            final(self).wf(),
            final(self).width == old(self).width,
            final(self).precision == old(self).precision,
            final(self).scale == old(self).scale,
            final(self).cells@ == old(self).cells@.push(v),
    {
        self.cells.push(v);
    }

    /// Appends one null.
    pub fn append_null(&mut self)
        requires
            old(self).wf(),
        ensures
            final(self).wf(),
            final(self).width == old(self).width,
            final(self).precision == old(self).precision,
            final(self).scale == old(self).scale,
            final(self).cells@ == old(self).cells@.push(Option::None),
    {
        self.cells.push(Option::None);
    }

    pub fn precision(&self) -> (p: u8)
        ensures
            p == self.precision,
    {
        self.precision
    }

    pub fn scale(&self) -> (s: i8)
        ensures
            s == self.scale,
    {
        self.scale
    }

    /// The finished column, with precision and scale stamped onto its
    /// type exactly as supplied at construction.
    pub fn finish(self) -> (a: Array)
        requires
            self.wf(),
        ensures
            a.wf(),
            a@.data_type == self.spec_data_type(),
            a@.cells == opt_cells(self.cells@),
    {
        let data_type = match self.width {
            DecimalWidth::Width128 => LogicalType::Decimal128(self.precision, self.scale),
            DecimalWidth::Width256 => LogicalType::Decimal256(self.precision, self.scale),
        };
        Array { data_type, data: ColumnData::Plain { cells: self.cells } }
    }

    /// As [`Self::finish`], but the builder is kept.
    pub fn finish_cloned(&self) -> (a: Array)
        requires
            self.wf(),
        ensures
            a.wf(),
            a@.data_type == self.spec_data_type(),
            a@.cells == opt_cells(self.cells@),
    {
        let data_type = match self.width {
            DecimalWidth::Width128 => LogicalType::Decimal128(self.precision, self.scale),
            DecimalWidth::Width256 => LogicalType::Decimal256(self.precision, self.scale),
        };
        let mut cells: Vec<Option<ScalarValue>> = Vec::new();
        let n = self.cells.len();
        let mut i: usize = 0;
        while i < n
            invariant
                n == self.cells@.len(),
                0 <= i <= n,
                opt_cells(cells@) == opt_cells(self.cells@.subrange(0, i as int)),
                cells@.len() == i,
                cells_fit(self.cells@, self.spec_data_type()),
                cells_fit(cells@, self.spec_data_type()),
            decreases n - i,
        {
            let c = duplicate_cell(&self.cells[i]);
            let ghost pre = cells@;
            cells.push(c);
            proof {
                lemma_opt_cells_push(pre, c);
                lemma_opt_cells_take_one_more(self.cells@, i as int);
            }
            i += 1;
        }
        proof {
            assert(self.cells@.subrange(0, n as int) =~= self.cells@);
        }
        Array { data_type, data: ColumnData::Plain { cells } }
    }
}

/// Builder for dictionary-encoded columns: appended values are interned
/// into a values table and cells store keys into it.
#[derive(Debug)]
pub struct DictBuilder {
    pub key_type: DictKeyType,
    pub value_type: LogicalType,
    pub keys: Vec<Option<usize>>,
    pub values: Vec<ScalarValue>,
}

impl DictBuilder {
    /// The dictionary logical type this builder produces.
    pub open spec fn spec_data_type(&self) -> TypeModel {
        TypeModel::Dictionary(self.key_type, Box::new(self.value_type@))
    }

    pub open spec fn wf(&self) -> bool {
        &&& type_supported(self.spec_data_type())
        &&& keys_in_range(self.keys@, self.values@.len() as int)
        &&& values_fit(self.values@, self.spec_data_type())
    }
}

/// The index of `v` in the interning table, extending the table when
/// the value is new. Existing entries are never moved or changed.
pub(crate) fn intern(values: &mut Vec<ScalarValue>, v: &ScalarValue) -> (idx: usize)
    ensures
        old(values)@.len() <= final(values)@.len(),
        forall|i: int| 0 <= i < old(values)@.len() ==> final(values)@[i] == old(values)@[i],
        idx < final(values)@.len(),
        final(values)@[idx as int]@ == v@,
        forall|i: int|
            old(values)@.len() <= i < final(values)@.len() ==> (#[trigger] final(values)@[i])@
                == v@,
{
    let n = values.len();
    let mut i: usize = 0;
    while i < n
        invariant
            n == values@.len(),
            0 <= i <= n,
        decreases n - i,
    {
        if values[i].scalar_eq(v) {
            return i;
        }
        i += 1;
    }
    values.push(v.duplicate());
    values.len() - 1
}

/// A mutable, append-only accumulator bound to exactly one logical
/// type at construction and consumed exactly once by `finish`.
#[derive(Debug)]
pub enum Builder {
    Null(NullBuilder),
    Plain(PlainBuilder),
    Decimal(ConfiguredDecimalBuilder),
    Dict(DictBuilder),
}

/// Model of a [`Builder`]: the type it is bound to and the logical
/// cells appended so far.
pub struct BuilderModel {
    pub data_type: TypeModel,
    pub cells: Seq<Option<ScalarModel>>,
}

impl View for Builder {
    type V = BuilderModel;

    open spec fn view(&self) -> BuilderModel {
        match *self {
            Builder::Null(b) => BuilderModel {
                data_type: TypeModel::Null,
                cells: null_cells(b.len as nat),
            },
            Builder::Plain(b) => BuilderModel {
                data_type: b.data_type@,
                cells: opt_cells(b.cells@),
            },
            Builder::Decimal(b) => BuilderModel {
                data_type: b.spec_data_type(),
                cells: opt_cells(b.cells@),
            },
            Builder::Dict(b) => BuilderModel {
                data_type: b.spec_data_type(),
                cells: dict_cells(b.keys@, b.values@),
            },
        }
    }
}

impl Builder {
    pub open spec fn wf(&self) -> bool {
        &&& type_supported(self@.data_type)
        &&& match *self {
            Builder::Null(_) => true,
            Builder::Plain(b) => b.wf(),
            Builder::Decimal(b) => b.wf(),
            Builder::Dict(b) => b.wf(),
        }
    }

    /// Whether this builder is bound to the given logical type.
    pub fn matches_type(&self, t: &LogicalType) -> (r: bool)
        ensures
            r == (self@.data_type == t@),
    {
        proof {
            lemma_type_model_constructor(*t);
        }
        match self {
            Builder::Null(_) => matches!(t, LogicalType::Null),
            Builder::Plain(b) => b.data_type.type_eq(t),
            Builder::Decimal(b) => match t {
                LogicalType::Decimal128(p, s) => {
                    b.width == DecimalWidth::Width128 && *p == b.precision && *s == b.scale
                },
                LogicalType::Decimal256(p, s) => {
                    b.width == DecimalWidth::Width256 && *p == b.precision && *s == b.scale
                },
                _ => false,
            },
            Builder::Dict(b) => match t {
                LogicalType::Dictionary(k, v) => {
                    let veq = b.value_type.type_eq(&**v);
                    *k == b.key_type && veq
                },
                _ => false,
            },
        }
    }

    /// The finished immutable column: same type, same cells. The
    /// builder is consumed.
    pub fn finish(self) -> (a: Array)
        requires
            self.wf(),
        ensures
            a.wf(),
            a@.data_type == self@.data_type,
            a@.cells == self@.cells,
    {
        match self {
            Builder::Null(b) => b.finish_cloned(),
            Builder::Plain(b) => Array {
                data_type: b.data_type,
                data: ColumnData::Plain { cells: b.cells },
            },
            Builder::Decimal(b) => b.finish(),
            Builder::Dict(b) => {
                let data_type = LogicalType::Dictionary(b.key_type, Box::new(b.value_type));
                Array { data_type, data: ColumnData::Dict { keys: b.keys, values: b.values } }
            },
        }
    }
}

/// One empty builder for the given logical type, or an
/// `UnsupportedType` fault exactly when the type lies outside the
/// supported matrix. `batch_size` is a capacity hint only.
pub fn new_array_builder(data_type: &LogicalType, batch_size: usize) -> (r: Result<Builder, Fault>)
    ensures
        r is Ok <==> type_supported(data_type@),
        r matches Ok(b) ==> b.wf() && b@.data_type == data_type@ && b@.cells
            == Seq::<Option<ScalarModel>>::empty(),
        r matches Err(e) ==> e == Fault::UnsupportedType,
{
    proof {
        lemma_type_model_constructor(*data_type);
    }
    if !data_type.is_supported() {
        return Err(Fault::UnsupportedType);
    }
    let b = match data_type {
        LogicalType::Null => Builder::Null(NullBuilder::new()),
        LogicalType::Decimal128(p, s) => Builder::Decimal(
            ConfiguredDecimalBuilder::with_capacity(DecimalWidth::Width128, 0, *p, *s),
        ),
        LogicalType::Decimal256(p, s) => Builder::Decimal(
            ConfiguredDecimalBuilder::with_capacity(DecimalWidth::Width256, 0, *p, *s),
        ),
        LogicalType::Dictionary(k, v) => Builder::Dict(
            DictBuilder {
                key_type: *k,
                value_type: (&**v).duplicate(),
                keys: Vec::new(),
                values: Vec::new(),
            },
        ),
        _ => Builder::Plain(
            PlainBuilder { data_type: data_type.duplicate(), cells: Vec::with_capacity(batch_size) },
        ),
    };
    proof {
        assert(b@.cells =~= Seq::<Option<ScalarModel>>::empty());
    }
    Ok(b)
}

/// One empty builder per schema field, in field order, or an
/// `UnsupportedType` fault exactly when some field's type lies outside
/// the supported matrix.
pub fn new_array_builders(schema: &Schema, batch_size: usize) -> (r: Result<Vec<Builder>, Fault>)
    ensures
        r is Ok <==> schema_supported(schema@),
        r matches Ok(v) ==> {
            &&& v@.len() == schema@.len()
            &&& forall|i: int| 0 <= i < v@.len() ==> (#[trigger] v@[i]).wf()
            &&& forall|i: int|
                0 <= i < v@.len() ==> (#[trigger] v@[i])@.data_type == schema@[i].data_type
            &&& forall|i: int|
                0 <= i < v@.len() ==> (#[trigger] v@[i])@.cells == Seq::<
                    Option<ScalarModel>,
                >::empty()
        },
        r matches Err(e) ==> e == Fault::UnsupportedType,
{
    let mut out: Vec<Builder> = Vec::new();
    let n = schema.num_fields();
    let mut i: usize = 0;
    while i < n
        invariant
            n == schema@.len(),
            0 <= i <= n,
            out@.len() == i,
            forall|j: int| 0 <= j < i ==> (#[trigger] out@[j]).wf(),
            forall|j: int| 0 <= j < i ==> (#[trigger] out@[j])@.data_type == schema@[j].data_type,
            forall|j: int|
                0 <= j < i ==> (#[trigger] out@[j])@.cells == Seq::<Option<ScalarModel>>::empty(),
            forall|j: int| 0 <= j < i ==> type_supported(#[trigger] schema@[j].data_type),
        decreases n - i,
    {
        proof {
            assert(schema@[i as int] == schema.fields@[i as int]@);
        }
        match new_array_builder(&schema.fields[i].data_type, batch_size) {
            Ok(b) => out.push(b),
            Err(e) => {
                proof {
                    assert(!type_supported(schema.fields@[i as int].data_type@));
                    assert(!type_supported(schema@[i as int].data_type));
                    assert(!schema_supported(schema@));
                }
                return Err(e);
            },
        }
        i += 1;
    }
    Ok(out)
}

/// Appends the directly stored cells of `src` selected by `indices`.
fn extend_plain_cells(
    dst: &mut Vec<Option<ScalarValue>>,
    src: &Vec<Option<ScalarValue>>,
    indices: &[usize],
    Ghost(t): Ghost<TypeModel>,
)
    requires
        cells_fit(old(dst)@, t),
        cells_fit(src@, t),
        forall|j: int| 0 <= j < indices@.len() ==> (#[trigger] indices@[j]) < src@.len(),
    ensures
        cells_fit(final(dst)@, t),
        opt_cells(final(dst)@) == opt_cells(old(dst)@) + gather(opt_cells(src@), indices@),
{
    let n = indices.len();
    let mut j: usize = 0;
    while j < n
        invariant
            n == indices@.len(),
            0 <= j <= n,
            cells_fit(dst@, t),
            cells_fit(src@, t),
            forall|k: int| 0 <= k < n ==> (#[trigger] indices@[k]) < src@.len(),
            opt_cells(dst@) == opt_cells(old(dst)@) + gather(
                opt_cells(src@),
                indices@.subrange(0, j as int),
            ),
        decreases n - j,
    {
        let i = indices[j];
        let c = duplicate_cell(&src[i]);
        let ghost pre = dst@;
        dst.push(c);
        proof {
            lemma_opt_cells_push(pre, c);
            lemma_gather_take_one_more(opt_cells(src@), indices@, j as int);
            assert(opt_cells(src@)[i as int] == cell_model(src@[i as int]));
            assert((opt_cells(old(dst)@) + gather(opt_cells(src@), indices@.subrange(0, j as int)))
                .push(cell_model(c)) =~= opt_cells(old(dst)@) + gather(
                opt_cells(src@),
                indices@.subrange(0, j as int),
            ).push(cell_model(c)));
        }
        j += 1;
    }
    proof {
        assert(indices@.subrange(0, n as int) =~= indices@);
    }
}

/// Extends `builder` with the cells of `array` selected by `indices`:
/// exactly one cell per index, in index order, null where the source
/// is null. For dictionary columns the source key is resolved to its
/// value and the destination interns it anew, so key codes need not be
/// preserved. A `data_type` outside the supported matrix is an
/// `UnsupportedType` fault, raised at dispatch; a builder or array
/// whose type differs from `data_type` is a `TypeMismatch` fault.
/// Either fault leaves the builder unchanged.
pub fn builder_extend(
    builder: &mut Builder,
    array: &Array,
    indices: &[usize],
    data_type: &LogicalType,
) -> (r: Result<(), Fault>)
    requires
        old(builder).wf(),
        array.wf(),
        forall|j: int| 0 <= j < indices@.len() ==> (#[trigger] indices@[j]) < array@.cells.len(),
        old(builder)@.cells.len() + indices@.len() <= usize::MAX,
    ensures
        final(builder).wf(),
        r is Ok <==> (old(builder)@.data_type == data_type@ && array@.data_type == data_type@),
        r is Ok ==> final(builder)@.data_type == old(builder)@.data_type && final(builder)@.cells
            == old(builder)@.cells + gather(array@.cells, indices@),
        r is Err ==> *final(builder) == *old(builder),
        !type_supported(data_type@) ==> r == Err::<(), Fault>(Fault::UnsupportedType),
        type_supported(data_type@) && r is Err ==> r == Err::<(), Fault>(Fault::TypeMismatch),
{
    if !data_type.is_supported() {
        proof {
            assert(old(builder)@.data_type != data_type@);
        }
        return Err(Fault::UnsupportedType);
    }
    if !builder.matches_type(data_type) || !array.data_type.type_eq(data_type) {
        return Err(Fault::TypeMismatch);
    }
    match builder {
        Builder::Null(nb) => {
            match &array.data {
                ColumnData::NullOnly { len } => {
                    nb.extend(indices.len());
                    proof {
                        assert(null_cells((old(builder)->Null_0.len + indices@.len()) as nat)
                            =~= null_cells(old(builder)->Null_0.len as nat) + gather(
                            array@.cells,
                            indices@,
                        ));
                    }
                    Ok(())
                },
                _ => {
                    proof {
                        assert(false);
                    }
                    Err(Fault::TypeMismatch)
                },
            }
        },
        Builder::Plain(pb) => {
            match &array.data {
                ColumnData::Plain { cells } => {
                    let ghost t = pb.data_type@;
                    extend_plain_cells(&mut pb.cells, cells, indices, Ghost(t));
                    proof {
                        assert(gather(opt_cells(cells@), indices@) =~= gather(
                            array@.cells,
                            indices@,
                        ));
                    }
                    Ok(())
                },
                _ => {
                    proof {
                        assert(false);
                    }
                    Err(Fault::TypeMismatch)
                },
            }
        },
        Builder::Decimal(db) => {
            match &array.data {
                ColumnData::Plain { cells } => {
                    let ghost t = db.spec_data_type();
                    extend_plain_cells(&mut db.cells, cells, indices, Ghost(t));
                    proof {
                        assert(gather(opt_cells(cells@), indices@) =~= gather(
                            array@.cells,
                            indices@,
                        ));
                    }
                    Ok(())
                },
                _ => {
                    proof {
                        assert(false);
                    }
                    Err(Fault::TypeMismatch)
                },
            }
        },
        Builder::Dict(db) => {
            match &array.data {
                ColumnData::Dict { keys, values } => {
                    extend_dict_cells(db, keys, values, indices);
                    Ok(())
                },
                _ => {
                    proof {
                        assert(false);
                    }
                    Err(Fault::TypeMismatch)
                },
            }
        },
    }
}

/// Appends the dictionary cells of a source column selected by
/// `indices`, re-interning each resolved value.
fn extend_dict_cells(
    db: &mut DictBuilder,
    src_keys: &Vec<Option<usize>>,
    src_values: &Vec<ScalarValue>,
    indices: &[usize],
)
    requires
        old(db).wf(),
        keys_in_range(src_keys@, src_values@.len() as int),
        values_fit(src_values@, old(db).spec_data_type()),
        forall|j: int| 0 <= j < indices@.len() ==> (#[trigger] indices@[j]) < src_keys@.len(),
    ensures
        final(db).wf(),
        final(db).key_type == old(db).key_type,
        final(db).value_type == old(db).value_type,
        dict_cells(final(db).keys@, final(db).values@) == dict_cells(
            old(db).keys@,
            old(db).values@,
        ) + gather(dict_cells(src_keys@, src_values@), indices@),
{
    let n = indices.len();
    let mut j: usize = 0;
    while j < n
        invariant
            n == indices@.len(),
            0 <= j <= n,
            db.wf(),
            db.key_type == old(db).key_type,
            db.value_type == old(db).value_type,
            keys_in_range(src_keys@, src_values@.len() as int),
            values_fit(src_values@, db.spec_data_type()),
            forall|k: int| 0 <= k < n ==> (#[trigger] indices@[k]) < src_keys@.len(),
            dict_cells(db.keys@, db.values@) == dict_cells(old(db).keys@, old(db).values@)
                + gather(dict_cells(src_keys@, src_values@), indices@.subrange(0, j as int)),
        decreases n - j,
    {
        let ghost pre = *db;
        let i = indices[j];
        match &src_keys[i] {
            Option::None => {
                db.keys.push(Option::None);
            },
            Option::Some(k) => {
                let idx = intern(&mut db.values, &src_values[*k]);
                db.keys.push(Option::Some(idx));
            },
        }
        proof {
            lemma_dict_cells_values_prefix(pre.keys@, pre.values@, db.values@);
            lemma_dict_cells_push_key(pre.keys@, db.values@, db.keys@.last());
            assert(db.keys@ == pre.keys@.push(db.keys@.last()));
            assert(dict_cells(src_keys@, src_values@)[i as int] == resolve_key(
                src_keys@[i as int],
                src_values@,
            ));
            assert(resolve_key(db.keys@.last(), db.values@) == resolve_key(
                src_keys@[i as int],
                src_values@,
            ));
            lemma_gather_take_one_more(dict_cells(src_keys@, src_values@), indices@, j as int);
            assert((dict_cells(old(db).keys@, old(db).values@) + gather(
                dict_cells(src_keys@, src_values@),
                indices@.subrange(0, j as int),
            )).push(resolve_key(db.keys@.last(), db.values@)) =~= dict_cells(
                old(db).keys@,
                old(db).values@,
            ) + gather(dict_cells(src_keys@, src_values@), indices@.subrange(0, j as int)).push(
                resolve_key(db.keys@.last(), db.values@),
            ));
        }
        j += 1;
    }
    proof {
        assert(indices@.subrange(0, n as int) =~= indices@);
    }
}

/// Appends exactly one null marker without consuming any source value.
/// A `data_type` outside the supported matrix is an `UnsupportedType`
/// fault, raised at dispatch; a builder whose type differs from
/// `data_type` is a `TypeMismatch` fault. Either fault leaves the
/// builder unchanged.
pub fn builder_append_null(builder: &mut Builder, data_type: &LogicalType) -> (r: Result<
    (),
    Fault,
>)
    requires
        old(builder).wf(),
        old(builder)@.cells.len() < usize::MAX,
    ensures
        final(builder).wf(),
        r is Ok <==> old(builder)@.data_type == data_type@,
        r is Ok ==> final(builder)@.data_type == old(builder)@.data_type && final(builder)@.cells
            == old(builder)@.cells.push(Option::None),
        r is Err ==> *final(builder) == *old(builder),
        !type_supported(data_type@) ==> r == Err::<(), Fault>(Fault::UnsupportedType),
        type_supported(data_type@) && r is Err ==> r == Err::<(), Fault>(Fault::TypeMismatch),
{
    if !data_type.is_supported() {
        proof {
            assert(old(builder)@.data_type != data_type@);
        }
        return Err(Fault::UnsupportedType);
    }
    if !builder.matches_type(data_type) {
        return Err(Fault::TypeMismatch);
    }
    match builder {
        Builder::Null(nb) => {
            nb.append();
            proof {
                assert(null_cells(old(builder)->Null_0.len as nat + 1) =~= null_cells(
                    old(builder)->Null_0.len as nat,
                ).push(Option::None));
            }
        },
        Builder::Plain(pb) => {
            let ghost pre = pb.cells@;
            pb.cells.push(Option::None);
            proof {
                lemma_opt_cells_push(pre, Option::None);
            }
        },
        Builder::Decimal(db) => {
            let ghost pre = db.cells@;
            db.cells.push(Option::None);
            proof {
                lemma_opt_cells_push(pre, Option::None);
            }
        },
        Builder::Dict(db) => {
            let ghost pre = db.keys@;
            db.keys.push(Option::None);
            proof {
                lemma_dict_cells_push_key(pre, db.values@, Option::None);
            }
        },
    }
    Ok(())
}

/// Law: a builder that starts empty and is fed only null markers
/// holds, after any number of appends, exactly the all-null cells of
/// that count — a column of length `n`, entirely null, whatever its
/// logical type. Each `builder_append_null` pushes one null, so this
/// invariant carries from the empty builder through every append.
pub proof fn lemma_all_null_progression(cells: Seq<Option<ScalarModel>>)
    requires
        cells == null_cells(cells.len()),
    ensures
        cells.push(Option::None) == null_cells(cells.len() + 1),
        forall|i: int| 0 <= i < cells.len() ==> cells[i] is None,
        Seq::<Option<ScalarModel>>::empty() == null_cells(0),
{
    assert(cells.push(Option::None) =~= null_cells(cells.len() + 1));
    assert(Seq::<Option<ScalarModel>>::empty() =~= null_cells(0));
}

/// Finishes every builder and assembles the batch: one column per
/// field, in order. A count, type or row-length disagreement is a
/// `TypeMismatch` fault.
pub fn make_batch(schema: Schema, arrays: Vec<Builder>) -> (r: Result<RecordBatch, Fault>)
    requires
        forall|i: int| 0 <= i < arrays@.len() ==> (#[trigger] arrays@[i]).wf(),
    ensures
        r is Ok <==> {
            &&& arrays@.len() == schema@.len()
            &&& forall|i: int|
                0 <= i < arrays@.len() ==> (#[trigger] arrays@[i])@.data_type
                    == schema@[i].data_type
            &&& forall|i: int|
                0 <= i < arrays@.len() ==> (#[trigger] arrays@[i])@.cells.len()
                    == arrays@[0]@.cells.len()
        },
        r matches Ok(b) ==> {
            &&& b.wf()
            &&& b@.schema == schema@
            &&& b@.columns == arrays@.map(|i: int, bl: Builder| bl@.cells)
            &&& b.num_rows == (if arrays@.len() > 0 {
                arrays@[0]@.cells.len()
            } else {
                0
            })
        },
        r matches Err(e) ==> e == Fault::TypeMismatch,
{
    let mut rest = arrays;
    if rest.len() != schema.num_fields() {
        return Err(Fault::TypeMismatch);
    }
    let mut columns: Vec<Array> = Vec::new();
    let mut num_rows: usize = 0;
    let n = rest.len();
    let mut i: usize = 0;
    proof {
        assert(rest@ =~= arrays@.subrange(0, n as int));
    }
    while i < n
        invariant
            n == arrays@.len() == schema@.len(),
            0 <= i <= n,
            rest@ == arrays@.subrange(i as int, n as int),
            forall|j: int| 0 <= j < arrays@.len() ==> (#[trigger] arrays@[j]).wf(),
            columns@.len() == i,
            forall|j: int| 0 <= j < i ==> (#[trigger] columns@[j]).wf(),
            forall|j: int|
                0 <= j < i ==> (#[trigger] columns@[j])@.data_type == arrays@[j]@.data_type,
            forall|j: int| 0 <= j < i ==> (#[trigger] columns@[j])@.cells == arrays@[j]@.cells,
            forall|j: int|
                0 <= j < i ==> (#[trigger] arrays@[j])@.data_type == schema@[j].data_type,
            forall|j: int| 0 <= j < i ==> (#[trigger] arrays@[j])@.cells.len() == num_rows,
            i > 0 ==> num_rows == arrays@[0]@.cells.len(),
            i == 0 ==> num_rows == 0,
        decreases n - i,
    {
        let b = rest.remove(0);
        proof {
            assert(b == arrays@[i as int]);
            assert(rest@ =~= arrays@.subrange(i + 1, n as int));
            assert(schema@[i as int] == schema.fields@[i as int]@);
        }
        if !b.matches_type(&schema.fields[i].data_type) {
            proof {
                assert(arrays@[i as int]@.data_type != schema@[i as int].data_type);
            }
            return Err(Fault::TypeMismatch);
        }
        let a = b.finish();
        let rows = a.len();
        if i == 0 {
            num_rows = rows;
        } else if rows != num_rows {
            proof {
                assert(arrays@[i as int]@.cells.len() != arrays@[0]@.cells.len());
            }
            return Err(Fault::TypeMismatch);
        }
        columns.push(a);
        i += 1;
    }
    let batch = RecordBatch { schema, columns, num_rows };
    proof {
        assert(batch@.columns =~= arrays@.map(|j: int, bl: Builder| bl@.cells));
        assert forall|j: int| 0 <= j < batch.schema@.len() implies type_supported(
            #[trigger] batch.schema@[j].data_type,
        ) by {
            assert(arrays@[j].wf());
            assert(arrays@[j]@.data_type == schema@[j].data_type);
        }
        assert(batch.wf());
    }
    Ok(batch)
}

} // verus!
