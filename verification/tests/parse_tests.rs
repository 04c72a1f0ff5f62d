use alveograph_exporter::configstore::ConfigStore;
use alveograph_exporter::data::read_data_from_file;
use alveograph_exporter::data::file_stem_exec;
use alveograph_exporter::data::ParseError;
use alveograph_exporter::number::Number;

fn default_config() -> ConfigStore {
    ConfigStore::default()
}

fn num(neg: bool, mantissa: u64, scale: u32) -> Number {
    Number { neg, mantissa, scale }
}

#[test]
fn parses_well_formed_rows_in_order() {
    let text = "preamble line\nmore preamble\nDATA:\nP 55.3\nL 102.1\n";
    let data = read_data_from_file("A.txt", text, &default_config()).unwrap();
    assert_eq!(data.test_name, "A");
    assert_eq!(data.row_data.len(), 2);
    assert_eq!(data.row_data[0].header, "P");
    assert_eq!(data.row_data[0].value, num(false, 553, 1));
    assert_eq!(data.row_data[1].header, "L");
    assert_eq!(data.row_data[1].value, num(false, 1021, 1));
}

#[test]
fn missing_marker_fails_with_marker_not_found() {
    let text = "preamble\nP 55.3\nL 102.1\n";
    let res = read_data_from_file("A.txt", text, &default_config());
    assert_eq!(res, Err(ParseError::MarkerNotFound));
}

#[test]
fn empty_text_fails_with_marker_not_found() {
    let res = read_data_from_file("A.txt", "", &default_config());
    assert_eq!(res, Err(ParseError::MarkerNotFound));
}

#[test]
fn malformed_line_fails_with_its_position_and_content() {
    let text = "DATA:\nP 55.3\nL pear\nW 4.0\n";
    let res = read_data_from_file("A.txt", text, &default_config());
    assert_eq!(
        res,
        Err(ParseError::MalformedRow { line: 3, content: "L pear".to_string() })
    );
}

#[test]
fn missing_numeric_token_is_malformed() {
    let text = "DATA:\nJustOneWord\n";
    let res = read_data_from_file("A.txt", text, &default_config());
    assert_eq!(
        res,
        Err(ParseError::MalformedRow { line: 2, content: "JustOneWord".to_string() })
    );
}

#[test]
fn marker_with_no_rows_yields_empty_record() {
    let text = "preamble\nDATA:\n";
    let data = read_data_from_file("B.txt", text, &default_config()).unwrap();
    assert_eq!(data.test_name, "B");
    assert_eq!(data.row_data.len(), 0);
}

#[test]
fn marker_as_last_line_without_newline_yields_empty_record() {
    let text = "preamble\nDATA:";
    let data = read_data_from_file("B.txt", text, &default_config()).unwrap();
    assert_eq!(data.row_data.len(), 0);
}

#[test]
fn blank_lines_between_rows_are_skipped() {
    let text = "DATA:\n\nP 55.3\n   \t\nL 102.1\n\n";
    let data = read_data_from_file("A.txt", text, &default_config()).unwrap();
    assert_eq!(data.row_data.len(), 2);
    assert_eq!(data.row_data[0].header, "P");
    assert_eq!(data.row_data[1].header, "L");
}

#[test]
fn windows_line_endings_parse_the_same() {
    let text = "preamble\r\nDATA:\r\nP 55.3\r\nL 102.1\r\n";
    let data = read_data_from_file("A.txt", text, &default_config()).unwrap();
    assert_eq!(data.row_data.len(), 2);
    assert_eq!(data.row_data[0].header, "P");
    assert_eq!(data.row_data[0].value, num(false, 553, 1));
}

#[test]
fn marker_must_match_the_whole_line() {
    let text = "DATA: and more\nP 55.3\n";
    let res = read_data_from_file("A.txt", text, &default_config());
    assert_eq!(res, Err(ParseError::MarkerNotFound));
}

#[test]
fn lines_before_and_including_marker_are_discarded() {
    let text = "P 1.0\nDATA:\nP 2.0\n";
    let data = read_data_from_file("A.txt", text, &default_config()).unwrap();
    assert_eq!(data.row_data.len(), 1);
    assert_eq!(data.row_data[0].value, num(false, 20, 1));
}

#[test]
fn configured_marker_is_honoured() {
    let config = ConfigStore { read_start_header: "BEGIN".to_string() };
    let text = "DATA:\nP 1.0\nBEGIN\nL 2.0\n";
    let data = read_data_from_file("A.txt", text, &config).unwrap();
    assert_eq!(data.row_data.len(), 1);
    assert_eq!(data.row_data[0].header, "L");
}

#[test]
fn label_keeps_its_inner_spaces() {
    let text = "DATA:\n  P (mm)   55.3\n";
    let data = read_data_from_file("A.txt", text, &default_config()).unwrap();
    assert_eq!(data.row_data[0].header, "P (mm)");
    assert_eq!(data.row_data[0].value, num(false, 553, 1));
}

#[test]
fn negative_and_signed_values_parse() {
    let text = "DATA:\nA -0.5\nB +3.25\nC 7\n";
    let data = read_data_from_file("A.txt", text, &default_config()).unwrap();
    assert_eq!(data.row_data[0].value, num(true, 5, 1));
    assert_eq!(data.row_data[1].value, num(false, 325, 2));
    assert_eq!(data.row_data[2].value, num(false, 7, 0));
}

#[test]
fn bare_point_forms_parse() {
    let text = "DATA:\nA 5.\nB .5\n";
    let data = read_data_from_file("A.txt", text, &default_config()).unwrap();
    assert_eq!(data.row_data[0].value, num(false, 5, 0));
    assert_eq!(data.row_data[1].value, num(false, 5, 1));
}

#[test]
fn exponent_and_double_point_tokens_are_malformed() {
    for bad in ["A 1e5", "A 1.2.3", "A -", "A +", "A .", "A 5-3"] {
        let text = format!("DATA:\n{}\n", bad);
        let res = read_data_from_file("A.txt", &text, &default_config());
        assert!(
            matches!(res, Err(ParseError::MalformedRow { line: 2, .. })),
            "{} should be malformed",
            bad
        );
    }
}

#[test]
fn seventeen_digits_parse_and_eighteen_do_not() {
    let text = "DATA:\nA 12345678901234567\n";
    let data = read_data_from_file("A.txt", text, &default_config()).unwrap();
    assert_eq!(data.row_data[0].value, num(false, 12345678901234567, 0));

    let text = "DATA:\nA 123456789012345678\n";
    let res = read_data_from_file("A.txt", text, &default_config());
    assert!(matches!(res, Err(ParseError::MalformedRow { line: 2, .. })));
}

#[test]
fn test_name_is_the_file_stem() {
    assert_eq!(file_stem_exec("sample.txt"), "sample");
    assert_eq!(file_stem_exec("archive.tar.gz"), "archive.tar");
    assert_eq!(file_stem_exec(".bashrc"), ".bashrc");
    assert_eq!(file_stem_exec("noext"), "noext");
    assert_eq!(file_stem_exec("trailing."), "trailing");
}
