//! Checks against serde_json and csv: the produced text must be exactly
//! what serde_json's pretty printer writes, and the CSV reading must agree
//! with the csv crate on inputs both accept.

use rcli::convert::process_csv;
use rcli::parse::parse_csv;

fn bytes(s: &str) -> Vec<u8> {
    s.as_bytes().to_vec()
}

#[test]
fn output_parses_as_json_with_the_rows_values() {
    let input = "name,age\nAlice,30\nBob,25\n";
    let out = process_csv(&bytes(input), b',').unwrap();
    let text = String::from_utf8(out).unwrap();
    let value: serde_json::Value = serde_json::from_str(&text).unwrap();
    let arr = value.as_array().unwrap();
    assert_eq!(arr.len(), 2);
    assert_eq!(arr[0].get("name").unwrap().as_str().unwrap(), "Alice");
    assert_eq!(arr[0].get("age").unwrap().as_str().unwrap(), "30");
    assert_eq!(arr[1].get("name").unwrap().as_str().unwrap(), "Bob");
    assert_eq!(arr[1].get("age").unwrap().as_str().unwrap(), "25");
}

#[test]
fn output_matches_serde_json_pretty_printing() {
    // serde_json's map iterates alphabetically, so the header is one whose
    // order agrees with it; the produced document keeps header order.
    let input = "age,name\n30,Alice\n";
    let ours = String::from_utf8(process_csv(&bytes(input), b',').unwrap()).unwrap();
    let mut obj = serde_json::Map::new();
    obj.insert(
        "age".to_string(),
        serde_json::Value::String("30".to_string()),
    );
    obj.insert(
        "name".to_string(),
        serde_json::Value::String("Alice".to_string()),
    );
    let doc = serde_json::Value::Array(vec![serde_json::Value::Object(obj)]);
    assert_eq!(ours, serde_json::to_string_pretty(&doc).unwrap());
}

#[test]
fn empty_array_matches_serde_json_pretty_printing() {
    let ours = String::from_utf8(process_csv(&bytes("h\n"), b',').unwrap()).unwrap();
    let doc = serde_json::Value::Array(Vec::new());
    assert_eq!(ours, serde_json::to_string_pretty(&doc).unwrap());
}

#[test]
fn escaped_values_round_trip_through_serde_json() {
    let input = "h\n\"a\nb\tc\"\"d\"\n";
    let out = process_csv(&bytes(input), b',').unwrap();
    let text = String::from_utf8(out).unwrap();
    let value: serde_json::Value = serde_json::from_str(&text).unwrap();
    assert_eq!(
        value.as_array().unwrap()[0].get("h").unwrap().as_str().unwrap(),
        "a\nb\tc\"d"
    );
}

#[test]
fn control_byte_round_trips_through_serde_json() {
    let input = "h\n\u{01}x\n";
    let out = process_csv(&bytes(input), b',').unwrap();
    let text = String::from_utf8(out).unwrap();
    assert!(text.contains("\\u0001"));
    let value: serde_json::Value = serde_json::from_str(&text).unwrap();
    assert_eq!(
        value.as_array().unwrap()[0].get("h").unwrap().as_str().unwrap(),
        "\u{01}x"
    );
}

#[test]
fn multibyte_text_passes_through() {
    let input = "stadt\nZürich\n";
    let out = process_csv(&bytes(input), b',').unwrap();
    let text = String::from_utf8(out).unwrap();
    let value: serde_json::Value = serde_json::from_str(&text).unwrap();
    assert_eq!(
        value.as_array().unwrap()[0].get("stadt").unwrap().as_str().unwrap(),
        "Zürich"
    );
}

#[test]
fn object_key_counts_follow_zip_truncation() {
    let input = "a,b,c\n1,2\n1,2,3,4\n";
    let out = process_csv(&bytes(input), b',').unwrap();
    let text = String::from_utf8(out).unwrap();
    let value: serde_json::Value = serde_json::from_str(&text).unwrap();
    let arr = value.as_array().unwrap();
    assert_eq!(arr.len(), 2);
    assert_eq!(arr[0].as_object().unwrap().len(), 2);
    assert_eq!(arr[1].as_object().unwrap().len(), 3);
}

#[test]
fn parser_agrees_with_the_csv_crate() {
    let input = "x,y\n1,\"2,3\"\nq,\"r\"\"s\"\n";
    let ours = parse_csv(&bytes(input), b',').unwrap();
    let mut rdr = csv::ReaderBuilder::new()
        .has_headers(false)
        .from_reader(input.as_bytes());
    let theirs: Vec<Vec<Vec<u8>>> = rdr
        .records()
        .map(|r| {
            r.unwrap()
                .iter()
                .map(|f| f.as_bytes().to_vec())
                .collect()
        })
        .collect();
    assert_eq!(ours, theirs);
}

#[test]
fn parser_agrees_with_the_csv_crate_on_crlf_and_empty_lines() {
    let input = "x,y\r\n\r\n\"\",b\r\na,\"\"\r\n";
    let ours = parse_csv(&bytes(input), b',').unwrap();
    let mut rdr = csv::ReaderBuilder::new()
        .has_headers(false)
        .from_reader(input.as_bytes());
    let theirs: Vec<Vec<Vec<u8>>> = rdr
        .records()
        .map(|r| {
            r.unwrap()
                .iter()
                .map(|f| f.as_bytes().to_vec())
                .collect()
        })
        .collect();
    assert_eq!(ours, theirs);
}
