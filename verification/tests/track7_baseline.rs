use tgd_aap::data_engine::cleaner::{clean, CleanRecord};
use tgd_aap::data_engine::fetcher::RawRecord;
use tgd_aap::data_engine::toon::{deserialize, serialize};

/// What a raw JSON value denotes as a double, as the fetch layer reads it:
/// a JSON number, or a string holding a float literal.
fn value_bits(value: &serde_json::Value) -> Option<u64> {
    match value {
        serde_json::Value::Number(n) => n.as_f64().map(f64::to_bits),
        serde_json::Value::String(s) => s.trim().parse::<f64>().ok().map(f64::to_bits),
        _ => None,
    }
}

/// A mixed batch of raw records: well-formed ones, padded ones, and each kind
/// of malformed record.
fn mixed_raw_records() -> Vec<RawRecord> {
    let rows: Vec<(&str, &str, serde_json::Value)> = vec![
        ("a-1", "Taipei", serde_json::Value::from(12.5)),
        ("  a-2 ", "\tTaichung\n", serde_json::Value::from(" 7.25 ")),
        ("", "Tainan", serde_json::Value::from(1.0)),
        ("a-4", "   ", serde_json::Value::from(2.0)),
        ("a-5", "Hsinchu", serde_json::Value::from("not a number")),
        ("a-6", "Keelung", serde_json::Value::from("NaN")),
        ("a-7", "Chiayi", serde_json::Value::from("inf")),
        ("a-8", "Yilan", serde_json::Value::Null),
        ("a-9", "Hualien", serde_json::Value::from(true)),
        ("a-10", "Taitung", serde_json::Value::from(-3)),
    ];
    rows.into_iter()
        .map(|(id, name, v)| RawRecord::new(id.to_string(), name.to_string(), value_bits(&v)))
        .collect()
}

fn record_json(r: &CleanRecord) -> serde_json::Value {
    let mut map = serde_json::Map::new();
    map.insert("id".to_string(), serde_json::Value::from(r.id.clone()));
    map.insert("name".to_string(), serde_json::Value::from(r.name.clone()));
    map.insert("value".to_string(), serde_json::Value::from(f64::from_bits(r.value)));
    serde_json::Value::Object(map)
}

#[test]
fn cleaner_filters_and_normalizes_mixed_fixture() {
    let cleaned = clean(mixed_raw_records());
    let cleaned_value = serde_json::Value::Array(cleaned.iter().map(record_json).collect());
    let expected_json = r#"[
        {"id": "a-1", "name": "Taipei", "value": 12.5},
        {"id": "a-2", "name": "Taichung", "value": 7.25},
        {"id": "a-10", "name": "Taitung", "value": -3.0}
    ]"#;
    let expected: serde_json::Value =
        serde_json::from_str(expected_json).expect("valid expected fixture JSON");
    assert_eq!(cleaned_value, expected);
}

#[test]
fn toon_round_trip_with_cleaned_fixture_data() {
    let cleaned = clean(mixed_raw_records());
    let lines: Vec<Vec<u8>> = cleaned
        .iter()
        .map(|r| serde_json::to_string(&record_json(r)).unwrap().into_bytes())
        .collect();

    let bytes = serialize(&lines).expect("serialize should succeed");
    let decoded_lines = deserialize(&bytes).expect("deserialize should succeed");
    let decoded: Vec<serde_json::Value> = decoded_lines
        .iter()
        .map(|l| serde_json::from_slice(l).unwrap())
        .collect();

    assert_eq!(decoded.len(), cleaned.len());
    for (lhs, rhs) in decoded.iter().zip(cleaned.iter()) {
        assert_eq!(lhs["id"].as_str().unwrap(), rhs.id);
        assert_eq!(lhs["name"].as_str().unwrap(), rhs.name);
        assert!((lhs["value"].as_f64().unwrap() - f64::from_bits(rhs.value)).abs() < f64::EPSILON);
    }
}

#[test]
fn toon_deserialize_rejects_truncated_header() {
    let err = deserialize(b"TOON").expect_err("truncated payload should fail");
    assert!(err.message().contains("too short"));
}
