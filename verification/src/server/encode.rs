//! Results in the Postgres wire format. Text encoding only: the simple query
//! protocol never asks for binary. The declared type is display metadata for
//! clients; values travel as Postgres-shaped text.

use std::sync::Arc;

use pgwire::api::results::{DataRowEncoder, FieldFormat, FieldInfo};
use pgwire::api::Type;
use pgwire::messages::data::DataRow;
use vstd::prelude::*;

use crate::text::{opt_view, same};

verus! {

/// Postgres shapes: a space between date and time.
pub const TIMESTAMP_FORMAT: &'static str = "%Y-%m-%d %H:%M:%S%.6f";

pub const TIMESTAMP_TZ_FORMAT: &'static str = "%Y-%m-%d %H:%M:%S%.6f%:z";

pub const DATE_FORMAT: &'static str = "%Y-%m-%d";

/// The type of a column, as far as the wire tells types apart.
#[derive(Debug, Clone, Copy, PartialEq, Eq, Structural)]
pub enum ColumnType {
    Boolean,
    Int8,
    Int16,
    Int32,
    Int64,
    UInt8,
    UInt16,
    UInt32,
    UInt64,
    Float16,
    Float32,
    Float64,
    Decimal,
    Text,
    /// A timestamp, with a time zone or without.
    Timestamp { zoned: bool },
    Date,
    Time,
    /// Anything else.
    Other,
}

/// A type of Postgres.
#[derive(Debug, Clone, Copy, PartialEq, Eq, Structural)]
pub enum PgType {
    Bool,
    Int2,
    Int4,
    Int8,
    Numeric,
    Float4,
    Float8,
    Text,
    Timestamp,
    TimestampTz,
    Date,
    Time,
}

/// The type that a column is declared as: one that holds all its values.
/// Anything exotic degrades to its text.
pub open spec fn declared(ty: ColumnType) -> PgType {
    match ty {
        ColumnType::Boolean => PgType::Bool,
        ColumnType::Int8 | ColumnType::Int16 => PgType::Int2,
        ColumnType::Int32 | ColumnType::UInt8 | ColumnType::UInt16 => PgType::Int4,
        ColumnType::Int64 | ColumnType::UInt32 => PgType::Int8,
        ColumnType::UInt64 | ColumnType::Decimal => PgType::Numeric,
        ColumnType::Float16 | ColumnType::Float32 => PgType::Float4,
        ColumnType::Float64 => PgType::Float8,
        ColumnType::Text => PgType::Text,
        ColumnType::Timestamp { zoned: false } => PgType::Timestamp,
        ColumnType::Timestamp { zoned: true } => PgType::TimestampTz,
        ColumnType::Date => PgType::Date,
        ColumnType::Time => PgType::Time,
        ColumnType::Other => PgType::Text,
    }
}

pub fn pg_type(ty: ColumnType) -> (r: PgType)
    ensures
        r == declared(ty),
{
    match ty {
        ColumnType::Boolean => PgType::Bool,
        ColumnType::Int8 | ColumnType::Int16 => PgType::Int2,
        ColumnType::Int32 | ColumnType::UInt8 | ColumnType::UInt16 => PgType::Int4,
        ColumnType::Int64 | ColumnType::UInt32 => PgType::Int8,
        ColumnType::UInt64 | ColumnType::Decimal => PgType::Numeric,
        ColumnType::Float16 | ColumnType::Float32 => PgType::Float4,
        ColumnType::Float64 => PgType::Float8,
        ColumnType::Text => PgType::Text,
        ColumnType::Timestamp { zoned } => if zoned {
            PgType::TimestampTz
        } else {
            PgType::Timestamp
        },
        ColumnType::Date => PgType::Date,
        ColumnType::Time => PgType::Time,
        ColumnType::Other => PgType::Text,
    }
}

/// `pgwire::api::results::DataRowEncoder`.
#[verifier::external_type_specification]
#[verifier::external_body]
pub struct ExDataRowEncoder(DataRowEncoder);

/// `pgwire::messages::data::DataRow`.
#[verifier::external_type_specification]
#[verifier::external_body]
pub struct ExDataRow(DataRow);

/// The cells that an encoder has taken in since it last gave a row.
pub uninterp spec fn cells_taken(e: DataRowEncoder) -> Seq<Option<Seq<char>>>;

/// How many cells an encoder takes for a row.
pub uninterp spec fn cells_wanted(e: DataRowEncoder) -> nat;

/// The cells of a row.
pub uninterp spec fn cells_of(row: DataRow) -> Seq<Option<Seq<char>>>;

/// `DataRowEncoder::new`, over columns of text in text format, which is how
/// every cell travels here: an encoder that has taken in nothing yet.
#[verifier::external_body]
fn text_encoder(columns: usize) -> (r: DataRowEncoder)
    ensures
        cells_taken(r) == Seq::<Option<Seq<char>>>::empty(),
        cells_wanted(r) == columns,
{
    let field = FieldInfo::new(String::new(), None, None, Type::TEXT, FieldFormat::Text);
    DataRowEncoder::new(Arc::new(vec![field; columns]))
}

/// `DataRowEncoder::encode_field`, on an optional text: takes in one more cell,
/// by the bytes of its text behind their number, or as a null. It panics on more
/// cells than there are columns, and the number has to fit in 31 bits. On a
/// column of text in text format it does not fail.
#[verifier::external_body]
fn encode_cell(e: &mut DataRowEncoder, cell: &Option<String>)
    requires
        cells_taken(*old(e)).len() < cells_wanted(*old(e)),
        fits(opt_view(*cell)),
    ensures
        cells_taken(*final(e)) == cells_taken(*old(e)).push(opt_view(*cell)),
        cells_wanted(*final(e)) == cells_wanted(*old(e)),
{
    let _ = e.encode_field(&cell.as_deref());
}

/// `DataRowEncoder::take_row`: the row of the cells taken in, which empties the
/// encoder. The number of cells has to fit in 15 bits.
#[verifier::external_body]
fn take_row(e: &mut DataRowEncoder) -> (r: DataRow)
    requires
        cells_taken(*old(e)).len() <= 32767,
    ensures
        cells_of(r) == cells_taken(*old(e)),
        cells_taken(*final(e)) == Seq::<Option<Seq<char>>>::empty(),
        cells_wanted(*final(e)) == cells_wanted(*old(e)),
{
    e.take_row()
}

/// Whether the number of a cell's bytes fits in 31 bits.
pub open spec fn fits(cell: Option<Seq<char>>) -> bool {
    match cell {
        Some(text) => vstd::utf8::encode_utf8(text).len() <= 0x7fff_ffff,
        None => true,
    }
}

/// A column of a result: its type, and the text of its cells, null where there
/// is none.
#[derive(Debug)]
pub struct Column {
    pub ty: ColumnType,
    pub cells: Vec<Option<String>>,
}

/// The cell of a column in a row, as Postgres shows it: its booleans are `t` and
/// `f`.
pub open spec fn cell_text(ty: ColumnType, cell: Option<Seq<char>>) -> Option<Seq<char>> {
    match cell {
        None => None,
        Some(text) => Some(
            if ty == ColumnType::Boolean {
                if text == "true"@ {
                    "t"@
                } else {
                    "f"@
                }
            } else {
                text
            },
        ),
    }
}

/// A row of a result.
pub open spec fn row_cells(columns: Seq<Column>, row: int) -> Seq<Option<Seq<char>>> {
    columns.map_values(|c: Column| cell_text(c.ty, opt_view(c.cells@[row])))
}

/// Every column has a cell for every row, and the wire has room for each.
pub open spec fn encodable(columns: Seq<Column>, rows: nat) -> bool {
    columns.len() <= 32767 && forall|c: int, r: int|
        0 <= c < columns.len() && 0 <= r < rows ==> columns[c].cells@.len() == rows && fits(
            opt_view(#[trigger] columns[c].cells@[r]),
        )
}

proof fn lemma_short(s: Seq<char>)
    requires
        s == "t"@ || s == "f"@,
    ensures
        fits(Some(s)),
{
    reveal_strlit("t");
    reveal_strlit("f");
    assert(s.len() == 1);
    assert(vstd::utf8::is_ascii_chars(s));
    vstd::utf8::is_ascii_chars_encode_utf8(s);
}

fn shown_cell(ty: ColumnType, cell: &Option<String>) -> (r: Option<String>)
    ensures
        opt_view(r) == cell_text(ty, opt_view(*cell)),
{
    match cell {
        None => None,
        Some(text) => if ty == ColumnType::Boolean {
            if same(text.as_str(), "true") {
                Some("t".to_owned())
            } else {
                Some("f".to_owned())
            }
        } else {
            Some(text.clone())
        },
    }
}

/// The rows of a result, as they travel.
pub fn encode_rows(columns: &Vec<Column>, rows: usize) -> (r: Vec<DataRow>)
    requires
        encodable(columns@, rows as nat),
    ensures
        r@.len() == rows,
        forall|i: int| 0 <= i < rows ==> cells_of(#[trigger] r@[i]) == row_cells(columns@, i),
{
    let n: usize = columns.len();
    let mut out: Vec<DataRow> = Vec::new();
    let mut encoder = text_encoder(n);
    while out.len() < rows
        invariant
            n == columns.len(),
            encodable(columns@, rows as nat),
            out@.len() <= rows,
            cells_taken(encoder) == Seq::<Option<Seq<char>>>::empty(),
            cells_wanted(encoder) == n,
            forall|i: int|
                0 <= i < out@.len() ==> cells_of(#[trigger] out@[i]) == row_cells(columns@, i),
        decreases rows - out.len(),
    {
        let row: usize = out.len();
        let ghost want = row_cells(columns@, row as int);
        let mut c: usize = 0;
        assert(want.take(0) =~= Seq::<Option<Seq<char>>>::empty());
        while c < n
            invariant
                c <= n == columns.len(),
                row < rows,
                encodable(columns@, rows as nat),
                want == row_cells(columns@, row as int),
                cells_wanted(encoder) == n,
                cells_taken(encoder) == want.take(c as int),
            decreases n - c,
        {
            assert(fits(opt_view(columns@[c as int].cells@[row as int])));
            let cell = shown_cell(columns[c].ty, &columns[c].cells[row]);
            proof {
                let given = opt_view(columns@[c as int].cells@[row as int]);
                if columns@[c as int].ty == ColumnType::Boolean && given is Some {
                    lemma_short(cell_text(ColumnType::Boolean, given)->0);
                }
                assert(want[c as int] == opt_view(cell));
                assert(want.take(c + 1) =~= want.take(c as int).push(opt_view(cell)));
            }
            encode_cell(&mut encoder, &cell);
            c += 1;
        }
        assert(want.take(c as int) =~= want);
        out.push(take_row(&mut encoder));
    }
    out
}

/// The one row of a canned answer.
pub fn canned_row(value: String) -> (r: DataRow)
    requires
        fits(Some(value@)),
    ensures
        cells_of(r) == seq![Some(value@)],
{
    let mut encoder = text_encoder(1);
    let cell: Option<String> = Some(value);
    encode_cell(&mut encoder, &cell);
    let ghost taken = cells_taken(encoder);
    assert(taken =~= seq![Some(value@)]);
    take_row(&mut encoder)
}

/// The whole numbers that a type of a column holds; none where it holds others too.
pub open spec fn column_range(ty: ColumnType) -> Option<(int, int)> {
    match ty {
        ColumnType::Int8 => Some((-0x80, 0x7f)),
        ColumnType::Int16 => Some((-0x8000, 0x7fff)),
        ColumnType::Int32 => Some((-0x8000_0000, 0x7fff_ffff)),
        ColumnType::Int64 => Some((-0x8000_0000_0000_0000, 0x7fff_ffff_ffff_ffff)),
        ColumnType::UInt8 => Some((0, 0xff)),
        ColumnType::UInt16 => Some((0, 0xffff)),
        ColumnType::UInt32 => Some((0, 0xffff_ffff)),
        ColumnType::UInt64 => Some((0, 0xffff_ffff_ffff_ffff)),
        _ => None,
    }
}

/// The whole numbers that a type of Postgres holds, where it holds no others.
pub open spec fn pg_range(ty: PgType) -> Option<(int, int)> {
    match ty {
        PgType::Int2 => Some((-0x8000, 0x7fff)),
        PgType::Int4 => Some((-0x8000_0000, 0x7fff_ffff)),
        PgType::Int8 => Some((-0x8000_0000_0000_0000, 0x7fff_ffff_ffff_ffff)),
        _ => None,
    }
}

/// A column of whole numbers is declared wide enough for all of them: as a type of
/// whole numbers that holds its greatest and its least, and as a numeric one only
/// where no type of whole numbers does. It is the narrowest such type, but for bytes
/// without a sign, which are declared as pairs of them are.
pub proof fn whole_numbers_are_declared_wide_enough(ty: ColumnType, other: PgType)
    requires
        column_range(ty) is Some,
    ensures
        pg_range(declared(ty)) matches Some(wide) ==> wide.0 <= (column_range(ty)->0).0 && (
        column_range(ty)->0).1 <= wide.1,
        pg_range(declared(ty)) is None ==> declared(ty) == PgType::Numeric,
        pg_range(other) matches Some(wide) ==> (wide.0 <= (column_range(ty)->0).0 && (column_range(
            ty,
        )->0).1 <= wide.1 ==> pg_range(declared(ty)) is Some && (ty != ColumnType::UInt8 ==> (
        pg_range(declared(ty))->0).1 <= wide.1)),
        declared(ColumnType::UInt8) == declared(ColumnType::UInt16),
{
}

/// A cell travels as its text: null stays null, a text stays as it is, and of a
/// boolean its first letter is left.
pub proof fn a_cell_travels_as_its_text(columns: Seq<Column>, row: int, c: int)
    requires
        0 <= c < columns.len(),
    ensures
        row_cells(columns, row).len() == columns.len(),
        row_cells(columns, row)[c] is None <==> columns[c].cells@[row] is None,
        columns[c].ty != ColumnType::Boolean ==> row_cells(columns, row)[c] == opt_view(
            columns[c].cells@[row],
        ),
        columns[c].ty == ColumnType::Boolean && (opt_view(columns[c].cells@[row]) == Some("true"@)
            || opt_view(columns[c].cells@[row]) == Some("false"@)) ==> row_cells(columns, row)[c]
            == Some(opt_view(columns[c].cells@[row])->0.take(1)),
{
    reveal_strlit("true");
    reveal_strlit("false");
    reveal_strlit("t");
    reveal_strlit("f");
    assert("true"@.take(1) =~= "t"@);
    assert("false"@.take(1) =~= "f"@);
    assert("true"@[0] == 't' && "false"@[0] == 'f');
}
}
