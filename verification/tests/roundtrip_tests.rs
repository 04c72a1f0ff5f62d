use std::io::Cursor;

use alveograph_exporter::data::Data;
use alveograph_exporter::data::Row;
use alveograph_exporter::number::two_decimal_string;
use alveograph_exporter::number::Number;
use alveograph_exporter::process::align;
use alveograph_exporter::process::get_workbook;
use alveograph_exporter::process::write_output_to_sheet;
use alveograph_exporter::process::Cell;

use calamine::Reader;

fn record(name: &str, rows: &[(&str, bool, u64, u32)]) -> Data {
    let mut row_data = Vec::new();
    for (header, neg, mantissa, scale) in rows {
        row_data.push(Row::new(
            header.to_string(),
            Number { neg: *neg, mantissa: *mantissa, scale: *scale },
        ));
    }
    Data::new1(name.to_string(), row_data)
}

/// Turns the workbook model into actual spreadsheet bytes, the way a
/// front end does when it saves.
fn spreadsheet_bytes(workbook: &alveograph_exporter::process::Workbook) -> Vec<u8> {
    let bold = rust_xlsxwriter::Format::new()
        .set_bold()
        .set_align(rust_xlsxwriter::FormatAlign::Center);
    let name_format = rust_xlsxwriter::Format::new().set_align(rust_xlsxwriter::FormatAlign::Center);
    let value_format = rust_xlsxwriter::Format::new()
        .set_num_format("0.00")
        .set_align(rust_xlsxwriter::FormatAlign::Center);
    let mut out = rust_xlsxwriter::Workbook::new();
    for sheet in &workbook.sheets {
        let worksheet = out.add_worksheet();
        worksheet.set_name(&sheet.name).unwrap();
        for (r, row) in sheet.rows.iter().enumerate() {
            for (c, cell) in row.iter().enumerate() {
                let (r, c) = (r as u32, c as u16);
                match cell {
                    Cell::Header(text) => worksheet.write_with_format(r, c, text, &bold).unwrap(),
                    Cell::Name(text) => {
                        worksheet.write_with_format(r, c, text, &name_format).unwrap()
                    }
                    Cell::Value(v) => {
                        let float = {
                            let magnitude =
                                (v.mantissa as f64) / 10f64.powi(v.scale as i32);
                            if v.neg {
                                -magnitude
                            } else {
                                magnitude
                            }
                        };
                        worksheet
                            .write_number_with_format(r, c, float, &value_format)
                            .unwrap()
                    }
                };
            }
        }
        if let Some(width) = sheet.first_col_width {
            worksheet.set_column_width(0, width as f64).unwrap();
        }
    }
    out.save_to_buffer().unwrap()
}

fn cell_string(range: &calamine::Range<calamine::Data>, pos: (u32, u32)) -> String {
    match range.get_value(pos) {
        Some(calamine::Data::String(s)) => s.clone(),
        other => panic!("expected a text cell at {:?}, got {:?}", pos, other),
    }
}

fn cell_float(range: &calamine::Range<calamine::Data>, pos: (u32, u32)) -> f64 {
    match range.get_value(pos) {
        Some(calamine::Data::Float(f)) => *f,
        other => panic!("expected a number cell at {:?}, got {:?}", pos, other),
    }
}

#[test]
fn saved_worksheet_reads_back_to_the_exported_batch() {
    let records = vec![
        record("A", &[("P", false, 553, 1), ("L", false, 1021, 1)]),
        record("B", &[("P", false, 600, 1), ("L", false, 987, 1)]),
    ];
    assert_eq!(align(&records), Ok(()));
    let mut workbook = get_workbook();
    write_output_to_sheet(&mut workbook, &records, "alveo").unwrap();

    let bytes = spreadsheet_bytes(&workbook);
    let mut reader = calamine::Xlsx::new(Cursor::new(bytes)).unwrap();
    let range = reader.worksheet_range("alveo").unwrap();

    assert_eq!(range.get_size(), (3, 3));
    assert_eq!(cell_string(&range, (0, 0)), "test-name");
    assert_eq!(cell_string(&range, (0, 1)), "P");
    assert_eq!(cell_string(&range, (0, 2)), "L");
    assert_eq!(cell_string(&range, (1, 0)), "A");
    assert_eq!(cell_string(&range, (2, 0)), "B");

    // Each value cell reads back as the number written, and its
    // two-decimal rendering agrees with the library's own.
    for (r, data) in records.iter().enumerate() {
        for (c, row) in data.row_data.iter().enumerate() {
            let read = cell_float(&range, (r as u32 + 1, c as u32 + 1));
            assert_eq!(format!("{:.2}", read), two_decimal_string(&row.value));
        }
    }
    let p_of_a = cell_float(&range, (1, 1));
    assert!((p_of_a - 55.3).abs() < 1e-9);
}

#[test]
fn empty_batch_saves_to_an_empty_worksheet() {
    let mut workbook = get_workbook();
    write_output_to_sheet(&mut workbook, &Vec::new(), "empty").unwrap();
    let bytes = spreadsheet_bytes(&workbook);
    let mut reader = calamine::Xlsx::new(Cursor::new(bytes)).unwrap();
    let range = reader.worksheet_range("empty").unwrap();
    assert!(range.is_empty());
}
