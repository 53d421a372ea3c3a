use rcli::convert::{process_csv, process_csv_with_config, Config};
use rcli::parse::CsvError;
use rcli::verify_input_file;

fn bytes(s: &str) -> Vec<u8> {
    s.as_bytes().to_vec()
}

fn convert(s: &str) -> String {
    String::from_utf8(process_csv(&bytes(s), b',').unwrap()).unwrap()
}

#[test]
fn two_records_pretty() {
    let out = convert("name,age\nAlice,30\nBob,25\n");
    let expected = "[\n  {\n    \"name\": \"Alice\",\n    \"age\": \"30\"\n  },\n  {\n    \"name\": \"Bob\",\n    \"age\": \"25\"\n  }\n]";
    assert_eq!(out, expected);
}

#[test]
fn short_row_drops_missing_keys() {
    let out = convert("name,age\nAlice");
    assert_eq!(out, "[\n  {\n    \"name\": \"Alice\"\n  }\n]");
}

#[test]
fn long_row_drops_extra_fields() {
    let out = convert("a\n1,2,3\n");
    assert_eq!(out, "[\n  {\n    \"a\": \"1\"\n  }\n]");
}

#[test]
fn header_only_gives_empty_array() {
    assert_eq!(convert("name,age\n"), "[]");
    assert_eq!(convert("name,age"), "[]");
}

#[test]
fn duplicate_header_fields_keep_both_pairs() {
    let out = convert("a,a\n1,2\n");
    assert_eq!(out, "[\n  {\n    \"a\": \"1\",\n    \"a\": \"2\"\n  }\n]");
}

#[test]
fn conversion_is_idempotent() {
    let input = bytes("x,y\n1,2\n3,4\n");
    let first = process_csv(&input, b',').unwrap();
    let second = process_csv(&input, b',').unwrap();
    assert_eq!(first, second);
}

#[test]
fn empty_input_is_rejected() {
    assert_eq!(process_csv(&bytes(""), b','), Err(CsvError::Empty));
    assert_eq!(process_csv(&bytes("\n\n"), b','), Err(CsvError::Empty));
}

#[test]
fn unterminated_quote_is_rejected() {
    assert_eq!(
        process_csv(&bytes("a,b\n\"open"), b','),
        Err(CsvError::UnterminatedQuote)
    );
}

#[test]
fn junk_after_closing_quote_is_rejected() {
    assert_eq!(
        process_csv(&bytes("\"a\"x,b\n"), b','),
        Err(CsvError::UnexpectedByteAfterQuote)
    );
}

#[test]
fn quoted_fields_keep_delimiters_and_quotes() {
    let out = convert("h1,h2\n\"a,b\",\"c\"\"d\"\n");
    assert_eq!(
        out,
        "[\n  {\n    \"h1\": \"a,b\",\n    \"h2\": \"c\\\"d\"\n  }\n]"
    );
}

#[test]
fn control_bytes_are_escaped() {
    let out = convert("h\nv\tw\n");
    assert_eq!(out, "[\n  {\n    \"h\": \"v\\tw\"\n  }\n]");
}

#[test]
fn quoted_newline_is_escaped_in_output() {
    let out = convert("h\n\"l1\nl2\"\n");
    assert_eq!(out, "[\n  {\n    \"h\": \"l1\\nl2\"\n  }\n]");
}

#[test]
fn crlf_terminates_records_like_lf() {
    let lf = process_csv(&bytes("a,b\n1,2\n"), b',').unwrap();
    let crlf = process_csv(&bytes("a,b\r\n1,2\r\n"), b',').unwrap();
    assert_eq!(lf, crlf);
}

#[test]
fn empty_lines_yield_no_records() {
    let plain = process_csv(&bytes("a,b\n1,2\n"), b',').unwrap();
    let spaced = process_csv(&bytes("a,b\n\n1,2\n\n"), b',').unwrap();
    assert_eq!(plain, spaced);
}

#[test]
fn alternate_delimiter_is_honored() {
    let out = process_csv(&bytes("a;b\n1;2\n"), b';').unwrap();
    assert_eq!(
        String::from_utf8(out).unwrap(),
        "[\n  {\n    \"a\": \"1\",\n    \"b\": \"2\"\n  }\n]"
    );
}

#[test]
fn config_carries_the_delimiter() {
    let config = Config {
        input: "in.csv".to_string(),
        output: "out.json".to_string(),
        delimiter: b';',
        has_header: true,
    };
    let out = process_csv_with_config(&bytes("a;b\n1;2\n"), &config).unwrap();
    let direct = process_csv(&bytes("a;b\n1;2\n"), b';').unwrap();
    assert_eq!(out, direct);
}

#[test]
fn existing_input_path_is_accepted() {
    assert_eq!(verify_input_file("data.csv", true), Ok("data.csv".to_string()));
}

#[test]
fn missing_input_path_is_rejected() {
    assert!(verify_input_file("nonexistent.csv", false).is_err());
}
