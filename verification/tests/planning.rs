use waluigi::data::FieldData;
use waluigi::data::FieldSetting;
use waluigi::data::FieldType;
use waluigi::errors::PlanError;
use waluigi::plan::Experiment;
use waluigi::plan::Job;
use waluigi::program::BatchType;
use waluigi::program::Field;
use waluigi::program::Output;
use waluigi::program::Program;
use waluigi::smap::SMap;

fn field(dtype: FieldType, option: Option<&str>) -> Field {
    Field {
        dtype,
        aka: vec![],
        batch: BatchType::Off,
        option: option.map(|s| s.to_string()),
    }
}

fn output(msg: &str) -> Output {
    Output { msg: msg.to_string(), aka: vec![] }
}

/// A program `alpha` with one required uint field `n` and one output
/// `result`.
fn alpha() -> Program {
    let mut fields: SMap<Field> = SMap::new();
    fields.insert("n".to_string(), field(FieldType::UInt, None));
    let mut outputs: SMap<Output> = SMap::new();
    outputs.insert("result".to_string(), output("the result"));
    Program {
        name: "alpha".to_string(),
        bin: "alpha-bin".to_string(),
        format: "run <n>".to_string(),
        outputs,
        fields,
    }
}

/// A program `beta` with a required str field `result` (fed by alpha's
/// output) and its own uint field `m`.
fn beta() -> Program {
    let mut fields: SMap<Field> = SMap::new();
    fields.insert("m".to_string(), field(FieldType::UInt, None));
    fields.insert("result".to_string(), field(FieldType::Str, None));
    Program {
        name: "beta".to_string(),
        bin: "beta-bin".to_string(),
        format: "eat <m> <result>".to_string(),
        outputs: SMap::new(),
        fields,
    }
}

fn programs() -> SMap<Program> {
    let mut t: SMap<Program> = SMap::new();
    t.insert("alpha".to_string(), alpha());
    t.insert("beta".to_string(), beta());
    t
}

fn job_a() -> Job {
    let mut parameters: SMap<FieldSetting> = SMap::new();
    parameters.insert(
        "n".to_string(),
        FieldSetting::List(vec![FieldData::UInt(1), FieldData::UInt(2), FieldData::UInt(3)]),
    );
    Job { run: "alpha".to_string(), parameters, repetitions: None, on_each: None }
}

fn job_b() -> Job {
    let mut parameters: SMap<FieldSetting> = SMap::new();
    parameters.insert(
        "m".to_string(),
        FieldSetting::List(vec![FieldData::UInt(7), FieldData::UInt(8)]),
    );
    Job {
        run: "beta".to_string(),
        parameters,
        repetitions: None,
        on_each: Some(vec!["alpha".to_string()]),
    }
}

#[test]
fn plan_single_job() {
    let exp = Experiment { jobs: vec![job_a()] };
    let insts = exp.plan(6, &programs()).unwrap();
    assert_eq!(insts.len(), 3);
    for (i, inst) in insts.iter().enumerate() {
        assert_eq!(inst.id, Some(i));
        assert_eq!(inst.threads, 6);
        assert_eq!(inst.log, "".to_string());
        assert!(inst.depends.is_empty());
    }
    let commands: Vec<&str> = insts.iter().map(|i| i.command.as_str()).collect();
    assert!(commands.contains(&"alpha-bin run 1"));
    assert!(commands.contains(&"alpha-bin run 2"));
    assert!(commands.contains(&"alpha-bin run 3"));
}

#[test]
fn dependency_linking() {
    let exp = Experiment { jobs: vec![job_a(), job_b()] };
    let insts = exp.plan(1, &programs()).unwrap();
    // three alpha instances, then 3 * 2 beta instances
    assert_eq!(insts.len(), 3 + 6);
    let alpha_ids: Vec<usize> = insts
        .iter()
        .filter(|i| i.command.starts_with("alpha-bin"))
        .map(|i| i.id.unwrap())
        .collect();
    let betas: Vec<_> = insts.iter().filter(|i| i.command.starts_with("beta-bin")).collect();
    assert_eq!(alpha_ids.len(), 3);
    assert_eq!(betas.len(), 6);
    for b in &betas {
        assert_eq!(b.depends.len(), 1);
        assert!(alpha_ids.contains(&b.depends[0]));
        // every output of alpha appears as a Future placeholder
        assert_eq!(b.params.get(&"result".to_string()), Some(&FieldData::Future));
        // the dependency's own parameter was inherited
        assert!(b.params.get(&"n".to_string()).is_some());
    }
}

#[test]
fn unknown_dependency_fails() {
    let mut job = job_b();
    job.on_each = Some(vec!["gamma".to_string()]);
    let exp = Experiment { jobs: vec![job_a(), job] };
    match exp.plan(1, &programs()) {
        Err(PlanError::UnknownDependency(run, dep)) => {
            assert_eq!(run, "beta".to_string());
            assert_eq!(dep, "gamma".to_string());
        }
        other => panic!("expected an unknown dependency, got {:?}", other),
    }
}

#[test]
fn dependency_out_of_order_fails() {
    let exp = Experiment { jobs: vec![job_b(), job_a()] };
    match exp.plan(1, &programs()) {
        Err(PlanError::UnknownDependency(run, dep)) => {
            assert_eq!(run, "beta".to_string());
            assert_eq!(dep, "alpha".to_string());
        }
        other => panic!("expected an unknown dependency, got {:?}", other),
    }
}

#[test]
fn unknown_program_fails_with_known_names() {
    let mut job = job_a();
    job.run = "delta".to_string();
    let exp = Experiment { jobs: vec![job] };
    match exp.plan(1, &programs()) {
        Err(PlanError::InvalidProgram(name, known)) => {
            assert_eq!(name, "delta".to_string());
            assert_eq!(known, vec!["alpha".to_string(), "beta".to_string()]);
        }
        other => panic!("expected an invalid program, got {:?}", other),
    }
}

#[test]
fn option_fields_append_to_command() {
    let mut fields: SMap<Field> = SMap::new();
    fields.insert("n".to_string(), field(FieldType::UInt, None));
    fields.insert("v".to_string(), field(FieldType::Bool, Some(" --verbose")));
    let prog = Program {
        name: "alpha".to_string(),
        bin: "alpha-bin".to_string(),
        format: "run <n>".to_string(),
        outputs: SMap::new(),
        fields,
    };
    let mut t: SMap<Program> = SMap::new();
    t.insert("alpha".to_string(), prog);

    let mut parameters: SMap<FieldSetting> = SMap::new();
    parameters.insert("n".to_string(), FieldSetting::Value(FieldData::UInt(4)));
    parameters.insert("v".to_string(), FieldSetting::Value(FieldData::Bool(true)));
    let job = Job { run: "alpha".to_string(), parameters, repetitions: None, on_each: None };
    let exp = Experiment { jobs: vec![job] };
    let insts = exp.plan(1, &t).unwrap();
    assert_eq!(insts.len(), 1);
    assert_eq!(insts[0].command, "alpha-bin run 4 --verbose".to_string());
}

#[test]
fn ids_are_globally_unique_and_monotonic() {
    let exp = Experiment { jobs: vec![job_a(), job_b()] };
    let insts = exp.plan(1, &programs()).unwrap();
    let mut ids: Vec<usize> = insts.iter().map(|i| i.id.unwrap()).collect();
    let n = ids.len();
    ids.sort();
    ids.dedup();
    assert_eq!(ids.len(), n);
    // every dependency id was assigned earlier than the dependent's own id
    for inst in &insts {
        for d in &inst.depends {
            assert!(*d < inst.id.unwrap());
        }
    }
}
