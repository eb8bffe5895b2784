use waluigi::data::FieldData;
use waluigi::data::FieldSetting;
use waluigi::data::FieldType;
use waluigi::errors::PlanError;
use waluigi::program::BatchType;
use waluigi::program::Field;
use waluigi::program::Program;
use waluigi::smap::SMap;

fn program_with(fields: Vec<(&str, FieldType, Option<&str>)>) -> Program {
    let mut fmap: SMap<Field> = SMap::new();
    for (name, dtype, option) in fields {
        fmap.insert(
            name.to_string(),
            Field {
                dtype,
                aka: vec![],
                batch: BatchType::Off,
                option: option.map(|s| s.to_string()),
            },
        );
    }
    Program {
        name: "prog".to_string(),
        bin: "bin".to_string(),
        format: "<x>".to_string(),
        outputs: SMap::new(),
        fields: fmap,
    }
}

#[test]
fn missing_required_parameter() {
    let prog = program_with(vec![("x", FieldType::UInt, None)]);
    let settings: SMap<FieldSetting> = SMap::new();
    match prog.validate_parameters(&settings) {
        Err(PlanError::MissingParameter(f, p)) => {
            assert_eq!(f, "x".to_string());
            assert_eq!(p, "prog".to_string());
        }
        other => panic!("expected a missing parameter, got {:?}", other),
    }
}

#[test]
fn missing_optional_parameter_is_fine() {
    let prog = program_with(vec![("x", FieldType::UInt, Some("--x <x>"))]);
    let settings: SMap<FieldSetting> = SMap::new();
    assert!(prog.validate_parameters(&settings).is_ok());
}

#[test]
fn mistyped_setting() {
    let prog = program_with(vec![("x", FieldType::UInt, None)]);
    let mut settings: SMap<FieldSetting> = SMap::new();
    settings.insert(
        "x".to_string(),
        FieldSetting::Value(FieldData::Str("five".to_string())),
    );
    match prog.validate_parameters(&settings) {
        Err(PlanError::InvalidParameterSetting(f, _, t)) => {
            assert_eq!(f, "x".to_string());
            assert_eq!(t, FieldType::UInt);
        }
        other => panic!("expected an invalid setting, got {:?}", other),
    }
}

#[test]
fn range_setting_needs_numeric_field() {
    let prog = program_with(vec![("x", FieldType::Str, None)]);
    let mut settings: SMap<FieldSetting> = SMap::new();
    settings.insert(
        "x".to_string(),
        FieldSetting::Range {
            from: FieldData::UInt(0),
            to: FieldData::UInt(3),
            step: FieldData::UInt(1),
        },
    );
    assert!(prog.validate_parameters(&settings).is_err());
}

#[test]
fn missing_required_data() {
    let prog = program_with(vec![("x", FieldType::UInt, None)]);
    let data: SMap<FieldData> = SMap::new();
    match prog.validate_parameter_data(&data) {
        Err(PlanError::MissingParameter(f, p)) => {
            assert_eq!(f, "x".to_string());
            assert_eq!(p, "prog".to_string());
        }
        other => panic!("expected a missing parameter, got {:?}", other),
    }
}

#[test]
fn mistyped_data() {
    let prog = program_with(vec![("x", FieldType::Bool, None)]);
    let mut data: SMap<FieldData> = SMap::new();
    data.insert("x".to_string(), FieldData::UInt(1));
    match prog.validate_parameter_data(&data) {
        Err(PlanError::InvalidParameterData(f, d, t)) => {
            assert_eq!(f, "x".to_string());
            assert_eq!(d, FieldData::UInt(1));
            assert_eq!(t, FieldType::Bool);
        }
        other => panic!("expected invalid data, got {:?}", other),
    }
}

#[test]
fn future_satisfies_str_field() {
    let prog = program_with(vec![("x", FieldType::Str, None)]);
    let mut data: SMap<FieldData> = SMap::new();
    data.insert("x".to_string(), FieldData::Future);
    assert!(prog.validate_parameter_data(&data).is_ok());
}

#[test]
fn unknown_params_are_skipped_by_cmd() {
    let prog = program_with(vec![("x", FieldType::UInt, None)]);
    let mut data: SMap<FieldData> = SMap::new();
    data.insert("x".to_string(), FieldData::UInt(5));
    data.insert("stray".to_string(), FieldData::UInt(6));
    assert_eq!(prog.cmd(&data).unwrap(), "bin 5".to_string());
}

#[test]
fn smap_insert_replaces_in_place() {
    let mut m: SMap<FieldData> = SMap::new();
    m.insert("a".to_string(), FieldData::UInt(1));
    m.insert("b".to_string(), FieldData::UInt(2));
    m.insert("a".to_string(), FieldData::UInt(3));
    assert_eq!(m.len(), 2);
    assert_eq!(m.get(&"a".to_string()), Some(&FieldData::UInt(3)));
    assert_eq!(m.key_at(0), &"a".to_string());
    assert_eq!(m.key_at(1), &"b".to_string());
}
