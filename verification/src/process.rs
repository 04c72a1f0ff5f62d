use vstd::prelude::*;
use crate::data::Data;
use crate::data::DataView;
use crate::data::RowView;
use crate::number::Number;
use crate::text::str_eq;

verus! {

/// Width in character units given to the first column, which holds the
/// test names.
pub const FIRST_COL_WIDTH: u32 = 20;

/// One written cell of the worksheet model. Every cell is centered; the
/// variant carries the rest of its formatting.
#[derive(Clone, Debug, PartialEq)]
pub enum Cell {
    /// Bold text of the header row.
    Header(String),
    /// Plain text: a record's test name.
    Name(String),
    /// A number shown with exactly two decimal places.
    Value(Number),
}

/// The mathematical content of a `Cell`.
pub enum CellView {
    Header(Seq<char>),
    Name(Seq<char>),
    Value(Number),
}

impl View for Cell {
    type V = CellView;

    open spec fn view(&self) -> CellView {
        match self {
            Cell::Header(t) => CellView::Header(t@),
            Cell::Name(t) => CellView::Name(t@),
            Cell::Value(v) => CellView::Value(*v),
        }
    }
}

impl DeepView for Cell {
    type V = CellView;

    open spec fn deep_view(&self) -> CellView {
        self.view()
    }
}

/// One worksheet of the model: its name, the grid of written cells in
/// row order, and the width set on the first column, if any. The model
/// records exactly what an export writes; the caller serializes it into
/// the actual spreadsheet file.
#[derive(Clone, Debug, PartialEq)]
pub struct Sheet {
    /// The worksheet's name, unique within its workbook.
    pub name: String,
    /// The written cells: row by row from the top, each row's cells
    /// from column zero up.
    pub rows: Vec<Vec<Cell>>,
    /// The width set on the first column, or `None` for the default.
    pub first_col_width: Option<u32>,
}

/// The mathematical content of a `Sheet`.
#[verifier::ext_equal]
pub struct SheetView {
    pub name: Seq<char>,
    pub rows: Seq<Seq<CellView>>,
    pub first_col_width: Option<u32>,
}

impl View for Sheet {
    type V = SheetView;

    open spec fn view(&self) -> SheetView {
        SheetView {
            name: self.name@,
            rows: self.rows.deep_view(),
            first_col_width: self.first_col_width,
        }
    }
}

impl DeepView for Sheet {
    type V = SheetView;

    open spec fn deep_view(&self) -> SheetView {
        self.view()
    }
}

/// The workbook model: its worksheets in creation order.
#[derive(Clone, Debug, PartialEq)]
pub struct Workbook {
    pub sheets: Vec<Sheet>,
}

/// The mathematical content of a `Workbook`.
#[verifier::ext_equal]
pub struct WorkbookView {
    pub sheets: Seq<SheetView>,
}

impl View for Workbook {
    type V = WorkbookView;

    open spec fn view(&self) -> WorkbookView {
        WorkbookView { sheets: self.sheets.deep_view() }
    }
}

/// Creates an empty workbook model, which can then be used in further
/// functions.
pub fn get_workbook() -> (w: Workbook)
    ensures
        w@.sheets == Seq::<SheetView>::empty(),
{
    let w = Workbook { sheets: Vec::new() };
    proof {
        assert(w.sheets.deep_view() =~= Seq::<SheetView>::empty());
    }
    w
}

/// Why a batch of records cannot be laid out as one table.
#[derive(Clone, Debug, PartialEq)]
pub enum AlignError {
    /// The record at `record_index` does not carry the column schema of
    /// the batch's first record: `expected` is that schema, `found` the
    /// offending record's labels, in order.
    SchemaMismatch { expected: Vec<String>, found: Vec<String>, record_index: usize },
}

/// Why an export produces no worksheet.
#[derive(Clone, Debug, PartialEq)]
pub enum ExportError {
    /// The workbook already holds a worksheet of the requested name.
    DuplicateSheetName,
    /// The workbook could not be written out. The caller, who does the
    /// actual file write, wraps its failure here.
    WriteFailed(String),
}

/// A record's column schema: its ordered sequence of row labels.
pub open spec fn headers_of(d: DataView) -> Seq<Seq<char>> {
    d.row_data.map_values(|r: RowView| r.header)
}

/// Whether two records carry the same column schema.
fn headers_match(a: &Data, b: &Data) -> (r: bool)
    ensures
        r == (headers_of(a@) == headers_of(b@)),
{
    let n = a.row_data.len();
    if n != b.row_data.len() {
        proof {
            assert(headers_of(a@).len() != headers_of(b@).len());
        }
        return false;
    }
    let mut i: usize = 0;
    while i < n
        invariant
            0 <= i <= n == a.row_data@.len(),
            n == b.row_data@.len(),
            forall|j: int| 0 <= j < i ==> headers_of(a@)[j] == headers_of(b@)[j],
        decreases n - i,
    {
        if !str_eq(a.row_data[i].header.as_str(), b.row_data[i].header.as_str()) {
            proof {
                assert(headers_of(a@)[i as int] == a.row_data@[i as int].header@);
                assert(headers_of(b@)[i as int] == b.row_data@[i as int].header@);
            }
            return false;
        }
        proof {
            assert(headers_of(a@)[i as int] == a.row_data@[i as int].header@);
            assert(headers_of(b@)[i as int] == b.row_data@[i as int].header@);
        }
        i += 1;
    }
    proof {
        assert(headers_of(a@) =~= headers_of(b@));
    }
    true
}

/// The labels of a record, copied out in order.
fn collect_headers(d: &Data) -> (hs: Vec<String>)
    ensures
        hs.deep_view() == headers_of(d@),
{
    let n = d.row_data.len();
    let mut hs: Vec<String> = Vec::new();
    let mut i: usize = 0;
    while i < n
        invariant
            0 <= i <= n == d.row_data@.len(),
            hs@.len() == i,
            forall|j: int| 0 <= j < i ==> hs.deep_view()[j] == headers_of(d@)[j],
        decreases n - i,
    {
        let h = d.row_data[i].header.clone();
        let ghost old_dv = hs.deep_view();
        hs.push(h);
        proof {
            assert(hs.deep_view() =~= old_dv.push(d.row_data@[i as int].header@));
            assert(headers_of(d@)[i as int] == d.row_data@[i as int].header@);
        }
        i += 1;
    }
    proof {
        assert(hs.deep_view() =~= headers_of(d@));
    }
    hs
}

/// Checks that every record of the batch carries the first record's
/// column schema, in content and order. An empty batch is trivially
/// aligned. On the first record that deviates, reports that record's
/// index together with the expected and the found schema, and the batch
/// must not be exported. The whole batch is checked before any write
/// begins.
pub fn align(records: &Vec<Data>) -> (res: Result<(), AlignError>)
    ensures
        match res {
            Ok(()) => forall|j: int| 0 <= j < records@.len() ==> headers_of(
                #[trigger] records.deep_view()[j],
            ) == headers_of(records.deep_view()[0]),
            Err(AlignError::SchemaMismatch { expected, found, record_index }) => {
                &&& 1 <= record_index < records@.len()
                &&& headers_of(records.deep_view()[record_index as int]) != headers_of(
                    records.deep_view()[0],
                )
                &&& forall|k: int| 0 <= k < record_index ==> headers_of(
                    #[trigger] records.deep_view()[k],
                ) == headers_of(records.deep_view()[0])
                &&& expected.deep_view() == headers_of(records.deep_view()[0])
                &&& found.deep_view() == headers_of(records.deep_view()[record_index as int])
            },
        },
{
    let n = records.len();
    if n == 0 {
        return Ok(());
    }
    let mut j: usize = 1;
    while j < n
        invariant
            1 <= j <= n == records@.len(),
            forall|k: int| 0 <= k < j ==> headers_of(#[trigger] records.deep_view()[k])
                == headers_of(records.deep_view()[0]),
        decreases n - j,
    {
        if !headers_match(&records[j], &records[0]) {
            let expected = collect_headers(&records[0]);
            let found = collect_headers(&records[j]);
            return Err(AlignError::SchemaMismatch { expected, found, record_index: j });
        }
        j += 1;
    }
    Ok(())
}

/// The header row of an export: the literal `test-name`, then the first
/// record's labels, all bold.
pub open spec fn header_row(d: DataView) -> Seq<CellView> {
    seq![CellView::Header("test-name"@)] + d.row_data.map_values(
        |r: RowView| CellView::Header(r.header),
    )
}

/// One record's row of an export: its test name, then its values in
/// column order, shown with two decimal places.
pub open spec fn record_row(d: DataView) -> Seq<CellView> {
    seq![CellView::Name(d.test_name)] + d.row_data.map_values(|r: RowView| CellView::Value(r.value))
}

/// The grid an export writes: nothing for an empty batch; otherwise the
/// header row from the first record, then one row per record, in batch
/// order.
pub open spec fn sheet_rows(ds: Seq<DataView>) -> Seq<Seq<CellView>> {
    if ds.len() == 0 {
        Seq::empty()
    } else {
        seq![header_row(ds[0])] + ds.map_values(|d: DataView| record_row(d))
    }
}

/// The worksheet an export of the batch `ds` under `name` produces. The
/// first column is widened only when something was written.
pub open spec fn sheet_of(ds: Seq<DataView>, name: Seq<char>) -> SheetView {
    SheetView {
        name,
        rows: sheet_rows(ds),
        first_col_width: if ds.len() == 0 {
            None
        } else {
            Some(FIRST_COL_WIDTH)
        },
    }
}

/// Lays the batch out as one new worksheet of the workbook model, named
/// `sheet_name`, exactly as `sheet_of` describes: a name collision
/// leaves the workbook unchanged, an empty batch yields an empty sheet
/// and succeeds. The batch is laid out by position against the first
/// record's schema: run `align` first; this function does not re-check.
#[verifier::loop_isolation(false)]
pub fn write_output_to_sheet(workbook: &mut Workbook, data: &Vec<Data>, sheet_name: &str) -> (res:
    Result<(), ExportError>)
    ensures
        match res {
            Ok(()) => {
                &&& forall|j: int| 0 <= j < old(workbook)@.sheets.len() ==> (
                #[trigger] old(workbook)@.sheets[j]).name != sheet_name@
                &&& final(workbook)@.sheets == old(workbook)@.sheets.push(
                    sheet_of(data.deep_view(), sheet_name@),
                )
            },
            Err(ExportError::DuplicateSheetName) => {
                &&& exists|j: int| 0 <= j < old(workbook)@.sheets.len() && (
                #[trigger] old(workbook)@.sheets[j]).name == sheet_name@
                &&& final(workbook)@ == old(workbook)@
            },
            Err(ExportError::WriteFailed(_)) => false,
        },
{
    let ns = workbook.sheets.len();
    let mut j: usize = 0;
    while j < ns
        invariant
            0 <= j <= ns,
            forall|k: int| 0 <= k < j ==> (#[trigger] workbook@.sheets[k]).name != sheet_name@,
            *workbook == *old(workbook),
        decreases ns - j,
    {
        if str_eq(workbook.sheets[j].name.as_str(), sheet_name) {
            proof {
                assert(workbook@.sheets[j as int].name == sheet_name@);
            }
            return Err(ExportError::DuplicateSheetName);
        }
        j += 1;
    }
    let ghost dv = data.deep_view();
    let n = data.len();
    let mut grid: Vec<Vec<Cell>> = Vec::new();
    let width: Option<u32>;
    if n == 0 {
        width = None;
        proof {
            assert(grid.deep_view() =~= sheet_rows(dv));
        }
    } else {
        // The header row: `test-name`, then the first record's labels.
        let first = &data[0];
        let m = first.row_data.len();
        let mut hr: Vec<Cell> = Vec::new();
        hr.push(Cell::Header("test-name".to_owned()));
        let mut c: usize = 0;
        while c < m
            invariant
                0 <= c <= m == first.row_data@.len(),
                hr@.len() == c + 1,
                hr.deep_view()[0] == CellView::Header("test-name"@),
                forall|k: int| 0 <= k < c ==> hr.deep_view()[k + 1] == CellView::Header(
                    #[trigger] first.row_data@[k]@.header,
                ),
            decreases m - c,
        {
            hr.push(Cell::Header(first.row_data[c].header.clone()));
            c += 1;
        }
        proof {
            assert(hr.deep_view() =~= header_row(dv[0]));
        }
        grid.push(hr);
        // One row per record: the test name, then its values.
        let mut r: usize = 0;
        while r < n
            invariant
                0 <= r <= n == data@.len(),
                grid@.len() == r + 1,
                grid.deep_view()[0] == header_row(dv[0]),
                forall|k: int| 0 <= k < r ==> grid.deep_view()[k + 1] == record_row(
                    #[trigger] dv[k],
                ),
            decreases n - r,
        {
            let rec = &data[r];
            let m = rec.row_data.len();
            let mut dr: Vec<Cell> = Vec::new();
            dr.push(Cell::Name(rec.test_name.clone()));
            let mut c: usize = 0;
            while c < m
                invariant
                    0 <= c <= m == rec.row_data@.len(),
                    dr@.len() == c + 1,
                    dr.deep_view()[0] == CellView::Name(rec.test_name@),
                    forall|k: int| 0 <= k < c ==> dr.deep_view()[k + 1] == CellView::Value(
                        (#[trigger] rec.row_data@[k]).value,
                    ),
                decreases m - c,
            {
                dr.push(Cell::Value(rec.row_data[c].value));
                c += 1;
            }
            proof {
                assert(dr.deep_view() =~= record_row(dv[r as int]));
            }
            grid.push(dr);
            r += 1;
        }
        width = Some(FIRST_COL_WIDTH);
        proof {
            assert(grid.deep_view() =~= sheet_rows(dv));
        }
    }
    let sheet = Sheet { name: sheet_name.to_owned(), rows: grid, first_col_width: width };
    proof {
        assert(sheet@ =~= sheet_of(dv, sheet_name@));
    }
    let ghost old_sheets = workbook.sheets.deep_view();
    workbook.sheets.push(sheet);
    proof {
        assert(workbook.sheets.deep_view() =~= old_sheets.push(sheet_of(dv, sheet_name@)));
    }
    Ok(())
}

/// Law: the exported grid reads back to its inputs. For an aligned,
/// non-empty batch the grid is rectangular: the header row holds the
/// literal `test-name` and the first record's labels; each later row
/// holds one record's name and its values, cell for cell.
pub proof fn lemma_export_round_trip(ds: Seq<DataView>, name: Seq<char>)
    requires
        ds.len() > 0,
        forall|j: int| 0 <= j < ds.len() ==> headers_of(#[trigger] ds[j]) == headers_of(ds[0]),
    ensures
        sheet_of(ds, name).name == name,
        sheet_of(ds, name).rows.len() == ds.len() + 1,
        sheet_of(ds, name).rows[0].len() == ds[0].row_data.len() + 1,
        sheet_of(ds, name).rows[0][0] == CellView::Header("test-name"@),
        forall|c: int| 0 <= c < ds[0].row_data.len() ==> sheet_of(ds, name).rows[0][c + 1]
            == CellView::Header(#[trigger] ds[0].row_data[c].header),
        forall|r: int| 0 <= r < ds.len() ==> (#[trigger] sheet_of(ds, name).rows[r + 1]).len()
            == ds[0].row_data.len() + 1,
        forall|r: int| 0 <= r < ds.len() ==> #[trigger] sheet_of(ds, name).rows[r + 1][0]
            == CellView::Name(ds[r].test_name),
        forall|r: int, c: int|
            0 <= r < ds.len() && 0 <= c < ds[r].row_data.len() ==> #[trigger] sheet_of(
                ds,
                name,
            ).rows[r + 1][c + 1] == CellView::Value(ds[r].row_data[c].value),
{
    let rows = sheet_of(ds, name).rows;
    assert(rows[0] == header_row(ds[0]));
    assert forall|r: int| 0 <= r < ds.len() implies #[trigger] rows[r + 1] == record_row(
        ds[r],
    ) by {
        assert(ds.map_values(|d: DataView| record_row(d))[r] == record_row(ds[r]));
    }
    assert forall|r: int| 0 <= r < ds.len() implies (#[trigger] rows[r + 1]).len() == ds[0].row_data.len()
        + 1 by {
        assert(headers_of(ds[r]).len() == headers_of(ds[0]).len());
    }
}

} // verus!
