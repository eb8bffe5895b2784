use waluigi::data::FieldData;
use waluigi::data::FieldType;
use waluigi::decimal::Dec;
use waluigi::program::BatchType;
use waluigi::program::Field;

fn plain_field(dtype: FieldType) -> Field {
    Field { dtype, aka: vec![], batch: BatchType::Off, option: None }
}

#[test]
fn fill_no_option() {
    let field = Field {
        dtype: FieldType::UInt,
        aka: vec![],
        batch: BatchType::Off,
        option: None,
    };

    assert!(field.fill_with(&FieldData::UInt(27)).unwrap() == "27".to_string());
}

#[test]
fn fill_option_bool() {
    let field = Field {
        dtype: FieldType::Bool,
        aka: vec![],
        batch: BatchType::Off,
        option: Some("--flag".to_string()),
    };

    assert!(field.fill_with(&FieldData::Bool(true)).unwrap() == "--flag".to_string());
    assert!(field.fill_with(&FieldData::Bool(false)).unwrap() == "".to_string());
}

#[test]
fn fill_option_value() {
    let field = Field {
        dtype: FieldType::Float,
        aka: vec![],
        batch: BatchType::Off,
        option: Some("--float <foo>".to_string()),
    };

    println!("{}", field.fill_with(&FieldData::Float(Dec::new(270_000))).unwrap());
    assert!(
        field.fill_with(&FieldData::Float(Dec::new(270_000))).unwrap() == "--float 0.27".to_string()
    );
}

#[test]
fn fill_option_delta() {
    let field = Field {
        dtype: FieldType::Float,
        aka: vec![],
        batch: BatchType::Off,
        option: Some("--delta <delta>".to_string()),
    };

    assert_eq!(
        field.fill_with(&FieldData::Float(Dec::new(500_000))).unwrap(),
        "--delta 0.5".to_string()
    );
}

#[test]
fn fill_mismatch_is_error() {
    let field = plain_field(FieldType::UInt);
    match field.fill_with(&FieldData::Str("x".to_string())) {
        Err(waluigi::errors::PlanError::FieldMismatch(t, d)) => {
            assert_eq!(t, FieldType::UInt);
            assert_eq!(d, FieldData::Str("x".to_string()));
        }
        other => panic!("expected a field mismatch, got {:?}", other),
    }
}

#[test]
fn fill_plain_forms() {
    assert_eq!(plain_field(FieldType::Str).fill_with(&FieldData::Str("ab".to_string())).unwrap(), "ab");
    assert_eq!(plain_field(FieldType::Str).fill_with(&FieldData::Future).unwrap(), "");
    assert_eq!(plain_field(FieldType::Bool).fill_with(&FieldData::Bool(true)).unwrap(), "true");
    assert_eq!(plain_field(FieldType::Bool).fill_with(&FieldData::Bool(false)).unwrap(), "false");
    assert_eq!(plain_field(FieldType::UInt).fill_with(&FieldData::UInt(0)).unwrap(), "0");
    assert_eq!(
        plain_field(FieldType::Float).fill_with(&FieldData::Float(Dec::new(4_000_000))).unwrap(),
        "4"
    );
    assert_eq!(
        plain_field(FieldType::Float).fill_with(&FieldData::Float(Dec::new(-500_000))).unwrap(),
        "-0.5"
    );
    assert_eq!(
        plain_field(FieldType::Float).fill_with(&FieldData::Float(Dec::new(12_340_000))).unwrap(),
        "12.34"
    );
}

#[test]
fn type_matching_table() {
    let s = FieldData::Str("a".to_string());
    let u = FieldData::UInt(3);
    let fi = FieldData::Float(Dec::new(4_000_000));
    let ff = FieldData::Float(Dec::new(4_500_000));
    let b = FieldData::Bool(true);
    let fut = FieldData::Future;

    let expected: &[(FieldType, &FieldData, bool)] = &[
        (FieldType::Str, &s, true),
        (FieldType::Str, &u, false),
        (FieldType::Str, &fi, false),
        (FieldType::Str, &ff, false),
        (FieldType::Str, &b, false),
        (FieldType::Str, &fut, true),
        (FieldType::Path, &s, true),
        (FieldType::Path, &u, false),
        (FieldType::Path, &fi, false),
        (FieldType::Path, &ff, false),
        (FieldType::Path, &b, false),
        (FieldType::Path, &fut, false),
        (FieldType::UInt, &s, false),
        (FieldType::UInt, &u, true),
        (FieldType::UInt, &fi, true),
        (FieldType::UInt, &ff, false),
        (FieldType::UInt, &b, false),
        (FieldType::UInt, &fut, false),
        (FieldType::Float, &s, false),
        (FieldType::Float, &u, false),
        (FieldType::Float, &fi, true),
        (FieldType::Float, &ff, true),
        (FieldType::Float, &b, false),
        (FieldType::Float, &fut, false),
        (FieldType::Bool, &s, false),
        (FieldType::Bool, &u, false),
        (FieldType::Bool, &fi, false),
        (FieldType::Bool, &ff, false),
        (FieldType::Bool, &b, true),
        (FieldType::Bool, &fut, false),
    ];
    for (t, d, want) in expected {
        assert_eq!(t.matches(d), *want, "{:?} vs {:?}", t, d);
    }
}

#[test]
fn decimal_text_edges() {
    assert_eq!(FieldData::Float(Dec::new(1)).to_text(), "0.000001");
    assert_eq!(FieldData::Float(Dec::new(1_000_001)).to_text(), "1.000001");
    assert_eq!(FieldData::Float(Dec::new(10_500_000)).to_text(), "10.5");
    assert_eq!(FieldData::Float(Dec::new(0)).to_text(), "0");
    assert_eq!(FieldData::Float(Dec::new(-1_250_000)).to_text(), "-1.25");
    assert_eq!(FieldData::UInt(usize::MAX).to_text(), "18446744073709551615");
}

#[test]
fn placeholder_picks_first_marker() {
    let field = Field {
        dtype: FieldType::UInt,
        aka: vec![],
        batch: BatchType::Off,
        option: Some("--pair <a> <b>".to_string()),
    };
    assert_eq!(field.fill_with(&FieldData::UInt(1)).unwrap(), "--pair 1 <b>");
}

#[test]
fn template_without_marker_is_kept() {
    let field = Field {
        dtype: FieldType::UInt,
        aka: vec![],
        batch: BatchType::Off,
        option: Some("--count".to_string()),
    };
    assert_eq!(field.fill_with(&FieldData::UInt(2)).unwrap(), "--count");
}
