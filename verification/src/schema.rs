use crate::bytes::{bytes_equal, bytes_less, lemma_lex_order, lex_lt};
use crate::error::DbError;
use crate::row::models;
use crate::text::{concat, concat3, eq_ignore_ascii_case, equal_ignore_ascii_case, to_lowercase, unicode_lowercase};
use crate::types::numeric_key;
use crate::value::{values_match, Value, ValueModel};
use vstd::prelude::*;
use vstd::utf8::encode_utf8;

verus! {

/// The most columns a table may have.
pub const MAX_COLUMNS: usize = 1024;

/// The type of a column.
#[derive(Debug, Clone, Copy, PartialEq, Eq, Structural)]
pub enum DataType {
    Null,
    Integer,
    Float,
    Text,
    Blob,
    Boolean,
}

impl DataType {
    /// The SQL name of the type.
    pub fn as_str(&self) -> (r: &'static str)
        ensures
            *self == DataType::Null ==> r@ == "NULL"@,
            *self == DataType::Integer ==> r@ == "INTEGER"@,
            *self == DataType::Float ==> r@ == "FLOAT"@,
            *self == DataType::Text ==> r@ == "TEXT"@,
            *self == DataType::Blob ==> r@ == "BLOB"@,
            *self == DataType::Boolean ==> r@ == "BOOLEAN"@,
    {
        match self {
            DataType::Null => "NULL",
            DataType::Integer => "INTEGER",
            DataType::Float => "FLOAT",
            DataType::Text => "TEXT",
            DataType::Blob => "BLOB",
            DataType::Boolean => "BOOLEAN",
        }
    }
}

/// Whether a column of type `t` accepts the non-null value `v`.
pub open spec fn type_accepts(t: DataType, v: ValueModel) -> bool {
    match t {
        DataType::Null => false,
        DataType::Integer => v is Integer,
        DataType::Float => v is Float,
        DataType::Text => v is Text,
        DataType::Blob => v is Blob,
        DataType::Boolean => v is Boolean,
    }
}

/// A comparison operator of a check constraint.
#[derive(Debug, Clone, Copy, PartialEq, Eq, Structural)]
pub enum ComparisonOp {
    Eq,
    NotEq,
    Lt,
    Lte,
    Gt,
    Gte,
}

/// `a op b` over integers.
pub open spec fn compare_ints(op: ComparisonOp, a: int, b: int) -> bool {
    match op {
        ComparisonOp::Eq => a == b,
        ComparisonOp::NotEq => a != b,
        ComparisonOp::Lt => a < b,
        ComparisonOp::Lte => a <= b,
        ComparisonOp::Gt => a > b,
        ComparisonOp::Gte => a >= b,
    }
}

/// `a op b` over texts, whose order is that of their UTF-8 bytes.
pub open spec fn compare_texts(op: ComparisonOp, a: Seq<char>, b: Seq<char>) -> bool {
    let x = encode_utf8(a);
    let y = encode_utf8(b);
    match op {
        ComparisonOp::Eq => a == b,
        ComparisonOp::NotEq => a != b,
        ComparisonOp::Lt => lex_lt(x, y),
        ComparisonOp::Lte => lex_lt(x, y) || a == b,
        ComparisonOp::Gt => lex_lt(y, x),
        ComparisonOp::Gte => lex_lt(y, x) || a == b,
    }
}

/// The model of a check constraint.
pub struct CheckModel {
    pub column: Seq<char>,
    pub op: ComparisonOp,
    pub value: ValueModel,
}

/// A check constraint: the column's value must stand in relation `op` to `value`.
#[derive(Debug, Clone, PartialEq)]
pub struct CheckConstraint {
    pub column: String,
    pub op: ComparisonOp,
    pub value: Value,
}

impl View for CheckConstraint {
    type V = CheckModel;

    open spec fn view(&self) -> CheckModel {
        CheckModel { column: self.column@, op: self.op, value: self.value@ }
    }
}

impl CheckConstraint {
    pub fn duplicate(&self) -> (r: Self)
        ensures
            r@ == self@,
    {
        CheckConstraint { column: self.column.clone(), op: self.op, value: self.value.duplicate() }
    }
}

/// Whether `v` satisfies the check: integers, doubles (numerically) and texts
/// compare under every operator, blobs only under `Eq` and `NotEq`; values
/// of different kinds, and booleans, never satisfy a check.
pub open spec fn check_holds(v: ValueModel, c: CheckModel) -> bool {
    match (v, c.value) {
        (ValueModel::Integer(a), ValueModel::Integer(b)) => compare_ints(c.op, a as int, b as int),
        (ValueModel::Float(a), ValueModel::Float(b)) => compare_ints(
            c.op,
            numeric_key(a),
            numeric_key(b),
        ),
        (ValueModel::Text(a), ValueModel::Text(b)) => compare_texts(c.op, a, b),
        (ValueModel::Blob(a), ValueModel::Blob(b)) => match c.op {
            ComparisonOp::Eq => a == b,
            ComparisonOp::NotEq => a != b,
            _ => false,
        },
        _ => false,
    }
}

fn compare_i64(op: ComparisonOp, a: i64, b: i64) -> (r: bool)
    ensures
        r == compare_ints(op, a as int, b as int),
{
    match op {
        ComparisonOp::Eq => a == b,
        ComparisonOp::NotEq => a != b,
        ComparisonOp::Lt => a < b,
        ComparisonOp::Lte => a <= b,
        ComparisonOp::Gt => a > b,
        ComparisonOp::Gte => a >= b,
    }
}

/// Evaluates a check constraint on a value (see [`check_holds`]).
pub fn evaluate_check(val: &Value, check: &CheckConstraint) -> (r: bool)
    ensures
        r == check_holds(val@, check@),
{
    match (val, &check.value) {
        (Value::Integer(a), Value::Integer(b)) => compare_i64(check.op, a.as_i64(), b.as_i64()),
        (Value::Float(a), Value::Float(b)) => compare_i64(
            check.op,
            a.numeric_key(),
            b.numeric_key(),
        ),
        (Value::Text(a), Value::Text(b)) => {
            let x = a.as_bytes();
            let y = b.as_bytes();
            proof {
                vstd::utf8::encode_utf8_decode_utf8(a@);
                vstd::utf8::encode_utf8_decode_utf8(b@);
            }
            match check.op {
                ComparisonOp::Eq => bytes_equal(x, y),
                ComparisonOp::NotEq => !bytes_equal(x, y),
                ComparisonOp::Lt => bytes_less(x, y),
                ComparisonOp::Lte => bytes_less(x, y) || bytes_equal(x, y),
                ComparisonOp::Gt => bytes_less(y, x),
                ComparisonOp::Gte => bytes_less(y, x) || bytes_equal(x, y),
            }
        },
        (Value::Blob(a), Value::Blob(b)) => match check.op {
            ComparisonOp::Eq => bytes_equal(a.as_slice(), b.as_slice()),
            ComparisonOp::NotEq => !bytes_equal(a.as_slice(), b.as_slice()),
            _ => false,
        },
        _ => false,
    }
}

/// The model of a foreign key.
pub struct ForeignKeyModel {
    pub table: Seq<char>,
    pub column: Seq<char>,
}

/// A reference from a column to a column of another table.
#[derive(Debug, Clone, PartialEq, Eq)]
pub struct ForeignKey {
    pub table: String,
    pub column: String,
}

impl View for ForeignKey {
    type V = ForeignKeyModel;

    open spec fn view(&self) -> ForeignKeyModel {
        ForeignKeyModel { table: self.table@, column: self.column@ }
    }
}

impl ForeignKey {
    pub fn duplicate(&self) -> (r: Self)
        ensures
            r@ == self@,
    {
        ForeignKey { table: self.table.clone(), column: self.column.clone() }
    }
}

/// The model of a column definition.
pub struct ColumnModel {
    pub name: Seq<char>,
    pub data_type: DataType,
    pub nullable: bool,
    pub primary_key: bool,
    pub unique: bool,
    pub default_value: Option<ValueModel>,
    pub check: Option<CheckModel>,
    pub foreign_key: Option<ForeignKeyModel>,
    pub allowed_values: Option<Seq<ValueModel>>,
}

impl ColumnModel {
    /// Whether the column's values must be distinct (unique or primary key).
    pub open spec fn is_keyed(self) -> bool {
        self.unique || self.primary_key
    }
}

/// The definition of one column of a table.
#[derive(Debug, Clone, PartialEq)]
pub struct ColumnDef {
    name: String,
    data_type: DataType,
    nullable: bool,
    primary_key: bool,
    unique: bool,
    default_value: Option<Value>,
    check_constraint: Option<CheckConstraint>,
    foreign_key: Option<ForeignKey>,
    allowed_values: Option<Vec<Value>>,
}

pub open spec fn opt_value_model(v: Option<Value>) -> Option<ValueModel> {
    match v {
        Some(x) => Some(x@),
        None => None,
    }
}

pub open spec fn opt_check_model(c: Option<CheckConstraint>) -> Option<CheckModel> {
    match c {
        Some(x) => Some(x@),
        None => None,
    }
}

pub open spec fn opt_fk_model(f: Option<ForeignKey>) -> Option<ForeignKeyModel> {
    match f {
        Some(x) => Some(x@),
        None => None,
    }
}

pub open spec fn opt_values_model(v: Option<Vec<Value>>) -> Option<Seq<ValueModel>> {
    match v {
        Some(x) => Some(models(x@)),
        None => None,
    }
}

fn duplicate_opt_value(v: &Option<Value>) -> (r: Option<Value>)
    ensures
        opt_value_model(r) == opt_value_model(*v),
{
    match v {
        Some(x) => Some(x.duplicate()),
        None => None,
    }
}

pub fn duplicate_opt_values(v: &Option<Vec<Value>>) -> (r: Option<Vec<Value>>)
    ensures
        opt_values_model(r) == opt_values_model(*v),
{
    match v {
        Some(x) => {
            let d = crate::value::duplicate_values(x.as_slice());
            assert(models(d@) =~= models(x@));
            Some(d)
        },
        None => None,
    }
}

/// A change one of the column setters makes (see [`ColumnDef::set_nullable`],
/// [`ColumnDef::set_primary_key`], [`ColumnDef::set_unique`],
/// [`ColumnDef::set_default`], [`ColumnDef::set_check`] and
/// [`ColumnDef::set_foreign_key`]).
pub enum ColumnChange {
    Nullable(bool),
    PrimaryKey(bool),
    Unique(bool),
    Default(Option<ValueModel>),
    Check(Option<CheckModel>),
    ForeignKey(Option<ForeignKeyModel>),
}

/// The column `m` after the change `c`, as its setter makes it.
pub open spec fn apply_change(m: ColumnModel, c: ColumnChange) -> ColumnModel {
    match c {
        ColumnChange::Nullable(value) => ColumnModel {
            nullable: value,
            primary_key: if value { false } else { m.primary_key },
            ..m
        },
        ColumnChange::PrimaryKey(value) => ColumnModel {
            primary_key: value,
            nullable: if value { false } else { m.nullable },
            unique: if value { true } else { m.unique },
            ..m
        },
        ColumnChange::Unique(value) => ColumnModel { unique: value, ..m },
        ColumnChange::Default(d) => ColumnModel { default_value: d, ..m },
        ColumnChange::Check(k) => ColumnModel { check: k, ..m },
        ColumnChange::ForeignKey(f) => ColumnModel { foreign_key: f, ..m },
    }
}

/// The column `m` after the changes `cs`, in order.
pub open spec fn apply_changes(m: ColumnModel, cs: Seq<ColumnChange>) -> ColumnModel
    decreases cs.len(),
{
    if cs.len() == 0 {
        m
    } else {
        apply_change(apply_changes(m, cs.drop_last()), cs.last())
    }
}

/// A column made by [`ColumnDef::new`] and changed by its setters, in any
/// order, keeps its name and type, and is never a nullable primary key.
pub proof fn lemma_setters_keep_key_not_null(name: Seq<char>, data_type: DataType, cs: Seq<ColumnChange>)
    ensures
        ({
            let r = apply_changes(
                ColumnModel {
                    name,
                    data_type,
                    nullable: true,
                    primary_key: false,
                    unique: false,
                    default_value: None,
                    check: None,
                    foreign_key: None,
                    allowed_values: None,
                },
                cs,
            );
            &&& r.primary_key ==> !r.nullable
            &&& r.name == name
            &&& r.data_type == data_type
        }),
    decreases cs.len(),
{
    if cs.len() > 0 {
        lemma_setters_keep_key_not_null(name, data_type, cs.drop_last());
    }
}

impl View for ColumnDef {
    type V = ColumnModel;

    closed spec fn view(&self) -> ColumnModel {
        ColumnModel {
            name: self.name@,
            data_type: self.data_type,
            nullable: self.nullable,
            primary_key: self.primary_key,
            unique: self.unique,
            default_value: opt_value_model(self.default_value),
            check: opt_check_model(self.check_constraint),
            foreign_key: opt_fk_model(self.foreign_key),
            allowed_values: opt_values_model(self.allowed_values),
        }
    }
}

impl ColumnDef {
    /// A nullable column with no constraint, default or allowed-value list.
    pub fn new(name: &str, data_type: DataType) -> (r: Self)
        ensures
            r@ == (ColumnModel {
                name: name@,
                data_type,
                nullable: true,
                primary_key: false,
                unique: false,
                default_value: None,
                check: None,
                foreign_key: None,
                allowed_values: None,
            }),
    {
        ColumnDef {
            name: name.to_owned(),
            data_type,
            nullable: true,
            primary_key: false,
            unique: false,
            default_value: None,
            check_constraint: None,
            foreign_key: None,
            allowed_values: None,
        }
    }

    pub fn name(&self) -> (r: &str)
        ensures
            r@ == self@.name,
    {
        self.name.as_str()
    }

    pub fn data_type(&self) -> (r: &DataType)
        ensures
            *r == self@.data_type,
    {
        &self.data_type
    }

    pub fn is_nullable(&self) -> (r: bool)
        ensures
            r == self@.nullable,
    {
        self.nullable
    }

    pub fn is_primary_key(&self) -> (r: bool)
        ensures
            r == self@.primary_key,
    {
        self.primary_key
    }

    pub fn is_unique(&self) -> (r: bool)
        ensures
            r == self@.unique,
    {
        self.unique
    }

    pub fn default_value(&self) -> (r: Option<&Value>)
        ensures
            r is Some <==> self@.default_value is Some,
            r matches Some(v) ==> self@.default_value == Some(v@),
    {
        match &self.default_value {
            Some(v) => Some(v),
            None => None,
        }
    }

    pub fn check_constraint(&self) -> (r: Option<&CheckConstraint>)
        ensures
            r is Some <==> self@.check is Some,
            r matches Some(c) ==> self@.check == Some(c@),
    {
        match &self.check_constraint {
            Some(c) => Some(c),
            None => None,
        }
    }

    pub fn foreign_key(&self) -> (r: Option<&ForeignKey>)
        ensures
            r is Some <==> self@.foreign_key is Some,
            r matches Some(f) ==> self@.foreign_key == Some(f@),
    {
        match &self.foreign_key {
            Some(f) => Some(f),
            None => None,
        }
    }

    /// The list of values the column may hold, when it is restricted.
    pub fn allowed_values(&self) -> (r: Option<&Vec<Value>>)
        ensures
            r is Some <==> self@.allowed_values is Some,
            r matches Some(l) ==> self@.allowed_values == Some(models(l@)),
    {
        match &self.allowed_values {
            Some(l) => Some(l),
            None => None,
        }
    }

    /// Makes the column nullable or not; a nullable column is no primary key.
    pub fn set_nullable(&mut self, value: bool)
        ensures
            final(self)@ == (ColumnModel {
                nullable: value,
                primary_key: if value { false } else { old(self)@.primary_key },
                ..old(self)@
            }),
            final(self)@ == apply_change(old(self)@, ColumnChange::Nullable(value)),
    {
        self.nullable = value;
        if value {
            self.primary_key = false;
        }
    }

    /// Makes the column a primary key or not; a primary key is unique and
    /// not nullable.
    pub fn set_primary_key(&mut self, value: bool)
        ensures
            final(self)@ == (ColumnModel {
                primary_key: value,
                nullable: if value { false } else { old(self)@.nullable },
                unique: if value { true } else { old(self)@.unique },
                ..old(self)@
            }),
            final(self)@ == apply_change(old(self)@, ColumnChange::PrimaryKey(value)),
    {
        self.primary_key = value;
        if value {
            self.nullable = false;
            self.unique = true;
        }
    }

    pub fn set_unique(&mut self, value: bool)
        ensures
            final(self)@ == (ColumnModel { unique: value, ..old(self)@ }),
            final(self)@ == apply_change(old(self)@, ColumnChange::Unique(value)),
    {
        self.unique = value;
    }

    /// Sets the three flags as stored, without the rules of the setters.
    pub fn set_flags_raw(&mut self, nullable: bool, primary_key: bool, unique: bool)
        ensures
            final(self)@ == (ColumnModel { nullable, primary_key, unique, ..old(self)@ }),
    {
        self.nullable = nullable;
        self.primary_key = primary_key;
        self.unique = unique;
    }

    pub fn set_default(&mut self, value: Option<Value>)
        ensures
            final(self)@ == (ColumnModel { default_value: opt_value_model(value), ..old(self)@ }),
            final(self)@ == apply_change(old(self)@, ColumnChange::Default(opt_value_model(value))),
    {
        self.default_value = value;
    }

    pub fn set_check(&mut self, constraint: Option<CheckConstraint>)
        ensures
            final(self)@ == (ColumnModel { check: opt_check_model(constraint), ..old(self)@ }),
            final(self)@ == apply_change(old(self)@, ColumnChange::Check(opt_check_model(constraint))),
    {
        self.check_constraint = constraint;
    }

    pub fn set_foreign_key(&mut self, fk: Option<ForeignKey>)
        ensures
            final(self)@ == (ColumnModel { foreign_key: opt_fk_model(fk), ..old(self)@ }),
            final(self)@ == apply_change(old(self)@, ColumnChange::ForeignKey(opt_fk_model(fk))),
    {
        self.foreign_key = fk;
    }

    pub fn set_allowed_values(&mut self, values: Option<Vec<Value>>)
        ensures
            final(self)@ == (ColumnModel {
                allowed_values: opt_values_model(values),
                ..old(self)@
            }),
    {
        self.allowed_values = values;
    }

    pub fn duplicate(&self) -> (r: Self)
        ensures
            r@ == self@,
    {
        ColumnDef {
            name: self.name.clone(),
            data_type: self.data_type,
            nullable: self.nullable,
            primary_key: self.primary_key,
            unique: self.unique,
            default_value: duplicate_opt_value(&self.default_value),
            check_constraint: match &self.check_constraint {
                Some(c) => Some(c.duplicate()),
                None => None,
            },
            foreign_key: match &self.foreign_key {
                Some(f) => Some(f.duplicate()),
                None => None,
            },
            allowed_values: duplicate_opt_values(&self.allowed_values),
        }
    }
}

} // verus!

verus! {

/// Why a value does not fit a column, if it does not.
pub enum Verdict {
    Pass,
    NotNullable,
    WrongType,
    CheckFailed,
    NotAllowed,
}

/// Whether `v` is among `list`, by `==` on values.
pub open spec fn listed(list: Seq<ValueModel>, v: ValueModel) -> bool {
    exists|j: int| 0 <= j < list.len() && values_match(#[trigger] list[j], v)
}

/// How column `col` judges value `v`: a null needs a nullable column; any
/// other value needs the column's type, its check constraint and, when the
/// column lists allowed values, a place in that list.
pub open spec fn column_verdict(col: ColumnModel, v: ValueModel) -> Verdict {
    if v is Null {
        if col.nullable {
            Verdict::Pass
        } else {
            Verdict::NotNullable
        }
    } else if !type_accepts(col.data_type, v) {
        Verdict::WrongType
    } else if col.check matches Some(c) && !check_holds(v, c) {
        Verdict::CheckFailed
    } else if col.allowed_values matches Some(list) && !listed(list, v) {
        Verdict::NotAllowed
    } else {
        Verdict::Pass
    }
}


/// An integer column with a check against an integer (and no list of
/// allowed values) accepts a non-null value exactly when the value stands in
/// the check's relation to the check's value; otherwise the check fails.
pub proof fn lemma_integer_check_verdict(col: ColumnModel, a: i64, b: i64)
    requires
        col.data_type == DataType::Integer,
        col.check matches Some(c) && c.value == ValueModel::Integer(b),
        col.allowed_values is None,
    ensures
        ({
            let ok = column_verdict(col, ValueModel::Integer(a)) is Pass;
            let op = (col.check->0).op;
            &&& !ok ==> column_verdict(col, ValueModel::Integer(a)) is CheckFailed
            &&& op == ComparisonOp::Eq ==> (ok <==> a == b)
            &&& op == ComparisonOp::NotEq ==> (ok <==> a != b)
            &&& op == ComparisonOp::Lt ==> (ok <==> a < b)
            &&& op == ComparisonOp::Lte ==> (ok <==> a <= b)
            &&& op == ComparisonOp::Gt ==> (ok <==> a > b)
            &&& op == ComparisonOp::Gte ==> (ok <==> a >= b)
        }),
{
    let c = col.check->0;
    lemma_integer_check_meaning(c.column, a, b);
    assert(c == CheckModel { column: c.column, op: c.op, value: ValueModel::Integer(b) });
}

/// Whether `vals` is a valid row for `cols`.
pub open spec fn values_valid(cols: Seq<ColumnModel>, vals: Seq<ValueModel>) -> bool {
    &&& vals.len() == cols.len()
    &&& forall|i: int| 0 <= i < cols.len() ==> #[trigger] column_verdict(cols[i], vals[i]) is Pass
}

/// Column `i` is the first whose value fails.
pub open spec fn first_failure(cols: Seq<ColumnModel>, vals: Seq<ValueModel>, i: int) -> bool {
    &&& 0 <= i < cols.len()
    &&& !(column_verdict(cols[i], vals[i]) is Pass)
    &&& forall|j: int| 0 <= j < i ==> #[trigger] column_verdict(cols[j], vals[j]) is Pass
}

/// The error that validation reports: a wrong value count or a failing
/// column's verdict is an invalid operation, except a value of the wrong
/// type, which is a type mismatch.
pub open spec fn validation_error(cols: Seq<ColumnModel>, vals: Seq<ValueModel>, e: DbError) -> bool {
    ||| vals.len() != cols.len() && e is InvalidOperation
    ||| vals.len() == cols.len() && exists|i: int|
        #[trigger] first_failure(cols, vals, i) && if column_verdict(cols[i], vals[i]) is WrongType {
            e is TypeMismatch
        } else {
            e is InvalidOperation
        }
}

/// Whether a table schema may be built from this name and these columns:
/// a non-empty name, between one and [`MAX_COLUMNS`] columns, each with a
/// non-empty name, no two names equal once in lower case.
pub open spec fn schema_valid(name: Seq<char>, cols: Seq<ColumnModel>) -> bool {
    &&& name.len() > 0
    &&& 0 < cols.len() <= MAX_COLUMNS
    &&& forall|i: int| 0 <= i < cols.len() ==> (#[trigger] cols[i]).name.len() > 0
    &&& forall|i: int, j: int|
        0 <= i < j < cols.len() ==> unicode_lowercase(#[trigger] cols[i].name) != unicode_lowercase(
            #[trigger] cols[j].name,
        )
}

/// The model of a table schema.
pub struct SchemaModel {
    pub name: Seq<char>,
    pub columns: Seq<ColumnModel>,
}

pub open spec fn column_models(cols: Seq<ColumnDef>) -> Seq<ColumnModel> {
    cols.map_values(|c: ColumnDef| c@)
}

/// The name and columns of a table.
#[derive(Debug, Clone, PartialEq)]
pub struct TableSchema {
    name: String,
    columns: Vec<ColumnDef>,
}

impl View for TableSchema {
    type V = SchemaModel;

    closed spec fn view(&self) -> SchemaModel {
        SchemaModel { name: self.name@, columns: column_models(self.columns@) }
    }
}

/// Copies a sequence of column definitions.
pub fn duplicate_columns(cols: &[ColumnDef]) -> (r: Vec<ColumnDef>)
    ensures
        column_models(r@) == column_models(cols@),
{
    let mut out: Vec<ColumnDef> = Vec::new();
    let mut i: usize = 0;
    while i < cols.len()
        invariant
            i <= cols@.len(),
            column_models(out@) == column_models(cols@.subrange(0, i as int)),
        decreases cols@.len() - i,
    {
        out.push(cols[i].duplicate());
        i = i + 1;
        assert(column_models(cols@.subrange(0, i as int)) =~= column_models(
            cols@.subrange(0, i - 1),
        ).push(cols@[i - 1]@));
    }
    assert(cols@.subrange(0, cols@.len() as int) =~= cols@);
    out
}

fn message_with_name(prefix: &str, name: &str, suffix: &str) -> (r: String)
    ensures
        r@ == prefix@ + name@ + suffix@,
{
    concat3(prefix, name, suffix)
}

impl TableSchema {
    /// Builds a schema, refusing the inputs that [`schema_valid`] refuses.
    pub fn try_new(name: &str, columns: Vec<ColumnDef>) -> (r: Result<Self, DbError>)
        ensures
            r is Ok <==> schema_valid(name@, column_models(columns@)),
            r matches Ok(s) ==> s@ == (SchemaModel { name: name@, columns: column_models(columns@) }),
            r matches Err(e) ==> e is InvalidOperation,
    {
        let ghost cols = column_models(columns@);
        if name.is_empty() {
            return Err(DbError::invalid_operation("table name cannot be empty"));
        }
        if columns.len() == 0 {
            return Err(DbError::invalid_operation("table must have at least one column"));
        }
        if columns.len() > MAX_COLUMNS {
            return Err(DbError::invalid_operation("too many columns"));
        }
        let mut seen: Vec<String> = Vec::new();
        let mut i: usize = 0;
        while i < columns.len()
            invariant
                cols == column_models(columns@),
                i <= columns@.len(),
                seen@.len() == i,
                forall|k: int| 0 <= k < i ==> (#[trigger] seen@[k])@ == unicode_lowercase(cols[k].name),
                forall|k: int| 0 <= k < i ==> (#[trigger] cols[k]).name.len() > 0,
                forall|a: int, b: int|
                    0 <= a < b < i ==> unicode_lowercase(#[trigger] cols[a].name) != unicode_lowercase(
                        #[trigger] cols[b].name,
                    ),
            decreases columns@.len() - i,
        {
            let col_name = columns[i].name();
            assert(cols[i as int] == columns@[i as int]@);
            assert(col_name@ == cols[i as int].name);
            if col_name.is_empty() {
                return Err(DbError::invalid_operation("column name cannot be empty"));
            }
            let lower = to_lowercase(col_name);
            let mut k: usize = 0;
            while k < seen.len()
                invariant
                    cols == column_models(columns@),
                    k <= seen@.len(),
                    i < cols.len(),
                    seen@.len() == i,
                    lower@ == unicode_lowercase(cols[i as int].name),
                    forall|m: int| 0 <= m < i ==> (#[trigger] seen@[m])@ == unicode_lowercase(cols[m].name),
                    forall|m: int| 0 <= m < k ==> (#[trigger] seen@[m])@ != lower@,
                decreases seen@.len() - k,
            {
                if seen[k] == lower {
                    assert(unicode_lowercase(cols[k as int].name) == unicode_lowercase(
                        cols[i as int].name,
                    ));
                    return Err(
                        DbError::InvalidOperation(
                            message_with_name("duplicate column name '", col_name, "'"),
                        ),
                    );
                }
                k = k + 1;
            }
            proof {
                assert forall|a: int, b: int|
                    0 <= a < b < i + 1 implies unicode_lowercase(#[trigger] cols[a].name)
                        != unicode_lowercase(#[trigger] cols[b].name) by {
                    if b == i {
                        assert(seen@[a]@ != lower@);
                    }
                }
            }
            seen.push(lower);
            i = i + 1;
        }
        Ok(TableSchema { name: name.to_owned(), columns })
    }

    pub fn name(&self) -> (r: &str)
        ensures
            r@ == self@.name,
    {
        self.name.as_str()
    }

    pub fn columns(&self) -> (r: &[ColumnDef])
        ensures
            column_models(r@) == self@.columns,
    {
        self.columns.as_slice()
    }

    /// The position of the first column whose name equals `name` up to ASCII case.
    pub fn column_index(&self, name: &str) -> (r: Option<usize>)
        ensures
            r matches Some(i) ==> i < self@.columns.len() && eq_ignore_ascii_case(
                encode_utf8(self@.columns[i as int].name),
                encode_utf8(name@),
            ) && forall|j: int|
                0 <= j < i ==> !eq_ignore_ascii_case(
                    encode_utf8(#[trigger] self@.columns[j].name),
                    encode_utf8(name@),
                ),
            r is None ==> forall|j: int|
                0 <= j < self@.columns.len() ==> !eq_ignore_ascii_case(
                    encode_utf8(#[trigger] self@.columns[j].name),
                    encode_utf8(name@),
                ),
    {
        let mut i: usize = 0;
        while i < self.columns.len()
            invariant
                i <= self.columns@.len(),
                forall|j: int|
                    0 <= j < i ==> !eq_ignore_ascii_case(
                        encode_utf8(#[trigger] self@.columns[j].name),
                        encode_utf8(name@),
                    ),
            decreases self.columns@.len() - i,
        {
            if equal_ignore_ascii_case(self.columns[i].name(), name) {
                return Some(i);
            }
            i = i + 1;
        }
        None
    }

    /// The first column whose name equals `name` up to ASCII case.
    pub fn get_column(&self, name: &str) -> (r: Option<&ColumnDef>)
        ensures
            r is Some <==> exists|j: int|
                0 <= j < self@.columns.len() && eq_ignore_ascii_case(
                    encode_utf8(#[trigger] self@.columns[j].name),
                    encode_utf8(name@),
                ),
            r matches Some(c) ==> exists|i: int|
                0 <= i < self@.columns.len() && c@ == self@.columns[i] && eq_ignore_ascii_case(
                    encode_utf8(self@.columns[i].name),
                    encode_utf8(name@),
                ) && forall|j: int|
                    0 <= j < i ==> !eq_ignore_ascii_case(
                        encode_utf8(#[trigger] self@.columns[j].name),
                        encode_utf8(name@),
                    ),
    {
        match self.column_index(name) {
            Some(idx) => Some(&self.columns[idx]),
            None => None,
        }
    }

    /// Replaces the allowed-value list of column `idx`.
    pub fn set_column_allowed_values(&mut self, idx: usize, values: Option<Vec<Value>>)
        requires
            idx < old(self)@.columns.len(),
        ensures
            final(self)@ == (SchemaModel {
                name: old(self)@.name,
                columns: old(self)@.columns.update(
                    idx as int,
                    ColumnModel { allowed_values: opt_values_model(values), ..old(self)@.columns[idx as int] },
                ),
            }),
    {
        let mut col = self.columns[idx].duplicate();
        col.set_allowed_values(values);
        self.columns.set(idx, col);
        proof {
            assert(column_models(self.columns@) =~= old(self)@.columns.update(
                idx as int,
                ColumnModel { allowed_values: opt_values_model(values), ..old(self)@.columns[idx as int] },
            ));
        }
    }

    /// A copy of the schema.
    pub fn duplicate(&self) -> (r: Self)
        ensures
            r@ == self@,
    {
        TableSchema { name: self.name.clone(), columns: duplicate_columns(self.columns.as_slice()) }
    }

    /// Checks a row against the schema (see [`values_valid`]); the first
    /// failing column decides the error (see [`validation_error`]).
    pub fn validate_values(&self, values: &[Value]) -> (r: Result<(), DbError>)
        ensures
            r is Ok <==> values_valid(self@.columns, models(values@)),
            r matches Err(e) ==> validation_error(self@.columns, models(values@), e),
    {
        let ghost cols = self@.columns;
        let ghost vals = models(values@);
        if values.len() != self.columns.len() {
            return Err(DbError::invalid_operation("value count does not match column count"));
        }
        let mut i: usize = 0;
        while i < self.columns.len()
            invariant
                cols == self@.columns,
                cols == column_models(self.columns@),
                vals == models(values@),
                values@.len() == self.columns@.len(),
                i <= cols.len(),
                forall|j: int| 0 <= j < i ==> #[trigger] column_verdict(cols[j], vals[j]) is Pass,
            decreases cols.len() - i,
        {
            let col = &self.columns[i];
            let val = &values[i];
            assert(col@ == cols[i as int]);
            assert(val@ == vals[i as int]);
            let verdict = column_check(col, val);
            match verdict {
                Verdict::Pass => {},
                Verdict::WrongType => {
                    assert(first_failure(cols, vals, i as int));
                    let msg = concat3("column '", col.name(), "' has a value of the wrong type");
                    return Err(DbError::TypeMismatch(msg));
                },
                _ => {
                    assert(first_failure(cols, vals, i as int));
                    let msg = concat3("column '", col.name(), "' rejects the value");
                    return Err(DbError::InvalidOperation(msg));
                },
            }
            i = i + 1;
        }
        Ok(())
    }
}

fn data_type_accepts(t: DataType, v: &Value) -> (r: bool)
    ensures
        r == type_accepts(t, v@),
{
    match t {
        DataType::Null => false,
        DataType::Integer => v.is_integer(),
        DataType::Float => v.is_float(),
        DataType::Text => v.is_text(),
        DataType::Blob => v.is_blob(),
        DataType::Boolean => v.is_boolean(),
    }
}

/// Whether `v` is among `list`.
pub fn is_listed(list: &[Value], v: &Value) -> (r: bool)
    ensures
        r == listed(models(list@), v@),
{
    let mut j: usize = 0;
    while j < list.len()
        invariant
            j <= list@.len(),
            forall|k: int| 0 <= k < j ==> !values_match(#[trigger] models(list@)[k], v@),
        decreases list@.len() - j,
    {
        if list[j].equals(v) {
            assert(values_match(models(list@)[j as int], v@));
            return true;
        }
        j = j + 1;
    }
    false
}

/// The verdict of a column on a value (see [`column_verdict`]).
pub fn column_check(col: &ColumnDef, val: &Value) -> (r: Verdict)
    ensures
        r == column_verdict(col@, val@),
{
    if val.is_null() {
        if col.is_nullable() {
            return Verdict::Pass;
        } else {
            return Verdict::NotNullable;
        }
    }
    if !data_type_accepts(*col.data_type(), val) {
        return Verdict::WrongType;
    }
    if let Some(check) = col.check_constraint() {
        if !evaluate_check(val, check) {
            return Verdict::CheckFailed;
        }
    }
    if let Some(list) = col.allowed_values() {
        if !is_listed(list.as_slice(), val) {
            return Verdict::NotAllowed;
        }
    }
    Verdict::Pass
}


/// A check on an integer column means the comparison it names: the value
/// stands in the usual relation to the check's value (equal values satisfy
/// `Eq`, `Lte` and `Gte`, and neither `Lt` nor `Gt`).
pub proof fn lemma_integer_check_meaning(column: Seq<char>, a: i64, b: i64)
    ensures
        check_holds(ValueModel::Integer(a), CheckModel { column, op: ComparisonOp::Eq, value: ValueModel::Integer(b) })
            <==> a == b,
        check_holds(ValueModel::Integer(a), CheckModel { column, op: ComparisonOp::NotEq, value: ValueModel::Integer(b) })
            <==> a != b,
        check_holds(ValueModel::Integer(a), CheckModel { column, op: ComparisonOp::Lt, value: ValueModel::Integer(b) })
            <==> a < b,
        check_holds(ValueModel::Integer(a), CheckModel { column, op: ComparisonOp::Lte, value: ValueModel::Integer(b) })
            <==> a <= b,
        check_holds(ValueModel::Integer(a), CheckModel { column, op: ComparisonOp::Gt, value: ValueModel::Integer(b) })
            <==> a > b,
        check_holds(ValueModel::Integer(a), CheckModel { column, op: ComparisonOp::Gte, value: ValueModel::Integer(b) })
            <==> a >= b,
{
}

/// A check on a text column compares the texts: equal texts satisfy `Eq`,
/// `Lte` and `Gte` and neither `Lt` nor `Gt`; `Gt` is `Lt` turned around;
/// two different texts satisfy exactly one of `Lt` and `Gt`; and `Lte`
/// (`Gte`) is `Lt` (`Gt`) or equality.
pub proof fn lemma_text_check_meaning(column: Seq<char>, a: Seq<char>, b: Seq<char>)
    ensures
        ({
            let holds = |op: ComparisonOp, x: Seq<char>, y: Seq<char>|
                check_holds(ValueModel::Text(x), CheckModel { column, op, value: ValueModel::Text(y) });
            &&& holds(ComparisonOp::Eq, a, b) <==> a == b
            &&& holds(ComparisonOp::NotEq, a, b) <==> a != b
            &&& holds(ComparisonOp::Gt, a, b) <==> holds(ComparisonOp::Lt, b, a)
            &&& a == b ==> !holds(ComparisonOp::Lt, a, b) && !holds(ComparisonOp::Gt, a, b)
            &&& a != b ==> (holds(ComparisonOp::Lt, a, b) != holds(ComparisonOp::Gt, a, b))
            &&& holds(ComparisonOp::Lte, a, b) <==> (holds(ComparisonOp::Lt, a, b) || a == b)
            &&& holds(ComparisonOp::Gte, a, b) <==> (holds(ComparisonOp::Gt, a, b) || a == b)
            &&& holds(ComparisonOp::Lt, a, b) <==> lex_lt(encode_utf8(a), encode_utf8(b))
        }),
{
    let x = encode_utf8(a);
    let y = encode_utf8(b);
    lemma_lex_order(x, y, x);
    lemma_lex_order(y, x, y);
    vstd::utf8::encode_utf8_decode_utf8(a);
    vstd::utf8::encode_utf8_decode_utf8(b);
}


/// A check on a blob compares only for equality: `Eq` holds for equal
/// blobs, `NotEq` for different ones, and no ordering operator ever holds.
pub proof fn lemma_blob_check_meaning(column: Seq<char>, a: Seq<u8>, b: Seq<u8>, op: ComparisonOp)
    ensures
        check_holds(ValueModel::Blob(a), CheckModel { column, op, value: ValueModel::Blob(b) }) <==> ((op
            == ComparisonOp::Eq && a == b) || (op == ComparisonOp::NotEq && a != b)),
{
}

} // verus!
