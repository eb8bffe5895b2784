use waluigi::data::FieldData;
use waluigi::data::FieldSetting;
use waluigi::decimal::Dec;
use waluigi::plan::Job;
use waluigi::smap::SMap;

#[test]
fn range_inclusive_even() {
    let setting = FieldSetting::Range {
        from: FieldData::UInt(0),
        to: FieldData::UInt(10),
        step: FieldData::UInt(2),
    };
    let vals = setting.vectorize();
    let expected: Vec<usize> = vec![0, 2, 4, 6, 8, 10];
    assert_eq!(vals.len(), expected.len());
    for (v, e) in vals.iter().zip(expected.iter()) {
        assert_eq!(*v, FieldData::UInt(*e));
    }
}

#[test]
fn range_uneven_step_stays_below_bound() {
    let setting = FieldSetting::Range {
        from: FieldData::UInt(0),
        to: FieldData::UInt(10),
        step: FieldData::UInt(4),
    };
    let vals = setting.vectorize();
    let expected: Vec<usize> = vec![0, 4, 8];
    assert_eq!(vals.len(), expected.len());
    for (v, e) in vals.iter().zip(expected.iter()) {
        assert_eq!(*v, FieldData::UInt(*e));
    }
}

#[test]
fn range_decimal() {
    let setting = FieldSetting::Range {
        from: FieldData::Float(Dec::new(500_000)),
        to: FieldData::Float(Dec::new(1_500_000)),
        step: FieldData::Float(Dec::new(500_000)),
    };
    let vals = setting.vectorize();
    assert_eq!(
        vals,
        vec![
            FieldData::Float(Dec::new(500_000)),
            FieldData::Float(Dec::new(1_000_000)),
            FieldData::Float(Dec::new(1_500_000)),
        ]
    );
}

#[test]
fn vectorize_list_and_value() {
    let list = FieldSetting::List(vec![FieldData::UInt(7), FieldData::UInt(3)]);
    assert_eq!(list.vectorize(), vec![FieldData::UInt(7), FieldData::UInt(3)]);
    let value = FieldSetting::Value(FieldData::Bool(true));
    assert_eq!(value.vectorize(), vec![FieldData::Bool(true)]);
}

fn sample_job(repetitions: Option<usize>) -> Job {
    let mut parameters: SMap<FieldSetting> = SMap::new();
    parameters.insert(
        "a".to_string(),
        FieldSetting::Range {
            from: FieldData::UInt(1),
            to: FieldData::UInt(2),
            step: FieldData::UInt(1),
        },
    );
    parameters.insert(
        "b".to_string(),
        FieldSetting::List(vec![
            FieldData::UInt(10),
            FieldData::UInt(20),
            FieldData::UInt(30),
        ]),
    );
    parameters.insert("c".to_string(), FieldSetting::Value(FieldData::UInt(9)));
    Job { run: "work".to_string(), parameters, repetitions, on_each: None }
}

#[test]
fn batch_size_is_product_times_repetitions() {
    let job = sample_job(Some(2));
    let batch = job.batch().unwrap();
    assert_eq!(batch.len(), 2 * 2 * 3 * 1);
}

#[test]
fn batch_default_repetitions_is_one() {
    let job = sample_job(None);
    assert_eq!(job.batch().unwrap().len(), 6);
}

#[test]
fn batch_assignments_cover_every_field() {
    let job = sample_job(None);
    let batch = job.batch().unwrap();
    for assign in &batch {
        assert!(assign.get(&"a".to_string()).is_some());
        assert!(assign.get(&"b".to_string()).is_some());
        assert_eq!(assign.get(&"c".to_string()), Some(&FieldData::UInt(9)));
    }
}

#[test]
fn repetition_tagging_by_block() {
    let job = sample_job(Some(2));
    let batch = job.batch().unwrap();
    let block = 6;
    for (i, assign) in batch.iter().enumerate() {
        let tag = assign.get(&"repetition-work".to_string()).unwrap();
        assert_eq!(*tag, FieldData::UInt(i / block), "at index {}", i);
    }
}

#[test]
fn empty_list_gives_empty_batch() {
    let mut parameters: SMap<FieldSetting> = SMap::new();
    parameters.insert("a".to_string(), FieldSetting::List(vec![]));
    let job = Job { run: "w".to_string(), parameters, repetitions: Some(3), on_each: None };
    assert_eq!(job.batch().unwrap().len(), 0);
}

#[test]
fn no_parameters_gives_one_assignment_per_repetition() {
    let job = Job {
        run: "w".to_string(),
        parameters: SMap::new(),
        repetitions: Some(4),
        on_each: None,
    };
    let batch = job.batch().unwrap();
    assert_eq!(batch.len(), 4);
    for (i, assign) in batch.iter().enumerate() {
        assert_eq!(assign.get(&"repetition-w".to_string()), Some(&FieldData::UInt(i)));
    }
}
