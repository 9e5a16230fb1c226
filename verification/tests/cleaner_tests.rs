use tgd_aap::data_engine::cleaner::{clean, is_finite, parse_finite_value, sanitize_required_text};
use tgd_aap::data_engine::fetcher::RawRecord;

fn raw(id: &str, name: &str, value: Option<f64>) -> RawRecord {
    RawRecord::new(id.to_string(), name.to_string(), value.map(f64::to_bits))
}

#[test]
fn sanitize_trims_unicode_whitespace() {
    assert_eq!(sanitize_required_text("  abc\t\n".to_string()), Some("abc".to_string()));
    assert_eq!(sanitize_required_text("\u{3000}x y\u{00a0}".to_string()), Some("x y".to_string()));
    assert_eq!(sanitize_required_text("plain".to_string()), Some("plain".to_string()));
}

#[test]
fn sanitize_rejects_blank_text() {
    assert_eq!(sanitize_required_text(String::new()), None);
    assert_eq!(sanitize_required_text(" \t\r\n\u{2028}".to_string()), None);
}

#[test]
fn finiteness_follows_the_exponent_bits() {
    assert!(is_finite(1.5f64.to_bits()));
    assert!(is_finite((-0.0f64).to_bits()));
    assert!(is_finite(f64::MAX.to_bits()));
    assert!(is_finite(f64::MIN_POSITIVE.to_bits()));
    assert!(!is_finite(f64::INFINITY.to_bits()));
    assert!(!is_finite(f64::NEG_INFINITY.to_bits()));
    assert!(!is_finite(f64::NAN.to_bits()));
}

#[test]
fn parse_finite_value_keeps_only_finite_numbers() {
    assert_eq!(parse_finite_value(Some(2.0f64.to_bits())), Some(2.0f64.to_bits()));
    assert_eq!(parse_finite_value(Some(f64::NAN.to_bits())), None);
    assert_eq!(parse_finite_value(None), None);
}

#[test]
fn clean_discards_each_kind_of_malformed_record() {
    let input = vec![
        raw(" ", "n", Some(1.0)),
        raw("i", "", Some(1.0)),
        raw("i", "n", None),
        raw("i", "n", Some(f64::INFINITY)),
        raw("i", "n", Some(f64::NAN)),
    ];
    assert!(clean(input).is_empty());
}

#[test]
fn clean_keeps_order_and_trims() {
    let input = vec![raw(" b ", " second", Some(2.0)), raw("bad", " ", Some(0.0)), raw("a", "first ", Some(-1.5))];
    let out = clean(input);
    assert_eq!(out.len(), 2);
    assert_eq!(out[0].id, "b");
    assert_eq!(out[0].name, "second");
    assert_eq!(f64::from_bits(out[0].value), 2.0);
    assert_eq!(out[1].id, "a");
    assert_eq!(out[1].name, "first");
    assert_eq!(f64::from_bits(out[1].value), -1.5);
}

#[test]
fn clean_is_idempotent_on_concrete_records() {
    let input = vec![raw("  x ", "y", Some(3.0)), raw("", "z", Some(1.0)), raw("w", "\tv\t", Some(0.5))];
    let once = clean(input);
    let again_input: Vec<RawRecord> = once
        .iter()
        .map(|c| RawRecord::new(c.id.clone(), c.name.clone(), Some(c.value)))
        .collect();
    let twice = clean(again_input);
    assert_eq!(once.len(), twice.len());
    for (a, b) in once.iter().zip(twice.iter()) {
        assert_eq!(a.id, b.id);
        assert_eq!(a.name, b.name);
        assert_eq!(a.value, b.value);
    }
}
