use alveograph_exporter::configstore::ConfigStore;
use alveograph_exporter::data::read_data_from_file;
use alveograph_exporter::data::Data;
use alveograph_exporter::data::Row;
use alveograph_exporter::number::Number;
use alveograph_exporter::number::two_decimal_string;
use alveograph_exporter::process::align;
use alveograph_exporter::process::get_workbook;
use alveograph_exporter::process::write_output_to_sheet;
use alveograph_exporter::process::AlignError;
use alveograph_exporter::process::Cell;
use alveograph_exporter::process::ExportError;

fn record(name: &str, rows: &[(&str, bool, u64, u32)]) -> Data {
    let mut row_data = Vec::new();
    for (header, neg, mantissa, scale) in rows {
        row_data.push(Row::new(
            header.to_string(),
            Number { neg: *neg, mantissa: *mantissa, scale: *scale },
        ));
    }
    Data::new1(name.to_string(), row_data)
}

fn file_a() -> Data {
    record("A", &[("P", false, 553, 1), ("L", false, 1021, 1)])
}

fn file_b() -> Data {
    record("B", &[("P", false, 600, 1), ("L", false, 987, 1)])
}

fn file_c() -> Data {
    record("C", &[("L", false, 900, 1), ("P", false, 400, 1)])
}

#[test]
fn align_accepts_identical_header_sequences() {
    let records = vec![file_a(), file_b()];
    assert_eq!(align(&records), Ok(()));
}

#[test]
fn align_accepts_empty_and_single_batches() {
    assert_eq!(align(&Vec::new()), Ok(()));
    assert_eq!(align(&vec![file_a()]), Ok(()));
}

#[test]
fn align_rejects_swapped_headers_naming_the_record() {
    let records = vec![file_a(), file_c()];
    let err = align(&records).unwrap_err();
    let AlignError::SchemaMismatch { expected, found, record_index } = err;
    assert_eq!(record_index, 1);
    assert_eq!(expected, vec!["P".to_string(), "L".to_string()]);
    assert_eq!(found, vec!["L".to_string(), "P".to_string()]);
}

#[test]
fn align_reports_the_first_mismatch() {
    let shorter = record("D", &[("P", false, 10, 0)]);
    let records = vec![file_a(), file_b(), shorter, file_c()];
    let AlignError::SchemaMismatch { record_index, .. } = align(&records).unwrap_err();
    assert_eq!(record_index, 2);
}

#[test]
fn no_worksheet_is_written_when_alignment_fails() {
    let records = vec![file_a(), file_c()];
    let workbook = get_workbook();
    if align(&records).is_ok() {
        unreachable!("swapped headers must not align");
    }
    // The export step is never reached; the workbook stays empty.
    assert_eq!(workbook.sheets.len(), 0);
}

#[test]
fn export_writes_header_row_then_one_row_per_record() {
    let records = vec![file_a(), file_b()];
    assert_eq!(align(&records), Ok(()));
    let mut workbook = get_workbook();
    write_output_to_sheet(&mut workbook, &records, "tests").unwrap();

    assert_eq!(workbook.sheets.len(), 1);
    let sheet = &workbook.sheets[0];
    assert_eq!(sheet.name, "tests");
    assert_eq!(sheet.first_col_width, Some(20));
    assert_eq!(sheet.rows.len(), 3);
    assert_eq!(
        sheet.rows[0],
        vec![
            Cell::Header("test-name".to_string()),
            Cell::Header("P".to_string()),
            Cell::Header("L".to_string()),
        ]
    );
    assert_eq!(sheet.rows[1][0], Cell::Name("A".to_string()));
    assert_eq!(sheet.rows[2][0], Cell::Name("B".to_string()));
    let shown: Vec<String> = sheet.rows[1..]
        .iter()
        .flat_map(|row| row[1..].iter())
        .map(|cell| match cell {
            Cell::Value(v) => two_decimal_string(v),
            _ => panic!("expected a value cell"),
        })
        .collect();
    assert_eq!(shown, vec!["55.30", "102.10", "60.00", "98.70"]);
}

#[test]
fn export_of_parsed_files_matches_the_expected_sheet() {
    let config = ConfigStore::default();
    let a = read_data_from_file(
        "A.txt",
        "DATA:\nP 55.3\nL 102.1\n",
        &config,
    )
    .unwrap();
    let b = read_data_from_file(
        "B.txt",
        "DATA:\nP 60.0\nL 98.7\n",
        &config,
    )
    .unwrap();
    let records = vec![a, b];
    assert_eq!(align(&records), Ok(()));
    let mut workbook = get_workbook();
    write_output_to_sheet(&mut workbook, &records, "results").unwrap();
    let sheet = &workbook.sheets[0];
    assert_eq!(sheet.rows.len(), 3);
    assert_eq!(sheet.rows[0][1], Cell::Header("P".to_string()));
    assert_eq!(sheet.rows[0][2], Cell::Header("L".to_string()));
    assert_eq!(sheet.rows[1][1], Cell::Value(Number { neg: false, mantissa: 553, scale: 1 }));
    assert_eq!(sheet.rows[2][2], Cell::Value(Number { neg: false, mantissa: 987, scale: 1 }));
}

#[test]
fn export_of_empty_batch_writes_an_empty_sheet_and_succeeds() {
    let mut workbook = get_workbook();
    let res = write_output_to_sheet(&mut workbook, &Vec::new(), "empty");
    assert_eq!(res, Ok(()));
    assert_eq!(workbook.sheets.len(), 1);
    assert_eq!(workbook.sheets[0].name, "empty");
    assert_eq!(workbook.sheets[0].rows.len(), 0);
    assert_eq!(workbook.sheets[0].first_col_width, None);
}

#[test]
fn duplicate_sheet_name_fails_and_changes_nothing() {
    let records = vec![file_a()];
    let mut workbook = get_workbook();
    write_output_to_sheet(&mut workbook, &records, "run").unwrap();
    let res = write_output_to_sheet(&mut workbook, &records, "run");
    assert_eq!(res, Err(ExportError::DuplicateSheetName));
    assert_eq!(workbook.sheets.len(), 1);
}

#[test]
fn exported_sheet_reads_back_to_its_inputs() {
    let records = vec![file_a(), file_b()];
    assert_eq!(align(&records), Ok(()));
    let mut workbook = get_workbook();
    write_output_to_sheet(&mut workbook, &records, "round-trip").unwrap();
    let sheet = &workbook.sheets[0];

    // Read the grid back: headers from row zero, then per-record rows.
    let headers: Vec<String> = sheet.rows[0][1..]
        .iter()
        .map(|cell| match cell {
            Cell::Header(h) => h.clone(),
            _ => panic!("expected a header cell"),
        })
        .collect();
    let mut rebuilt: Vec<Data> = Vec::new();
    for row in &sheet.rows[1..] {
        let name = match &row[0] {
            Cell::Name(n) => n.clone(),
            _ => panic!("expected a name cell"),
        };
        let mut row_data = Vec::new();
        for (cell, header) in row[1..].iter().zip(headers.iter()) {
            let value = match cell {
                Cell::Value(v) => *v,
                _ => panic!("expected a value cell"),
            };
            row_data.push(Row::new(header.clone(), value));
        }
        rebuilt.push(Data::new1(name, row_data));
    }
    assert_eq!(rebuilt, records);
}
