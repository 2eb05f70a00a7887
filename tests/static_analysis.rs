use zokrates_r1cs::static_analysis::{
    next_pass, CompileConfig, Error, Pass, PropagationError, ReducerError, Step, TypedProgram,
};

fn run_all(config: &CompileConfig) -> Vec<Pass> {
    let mut prog = TypedProgram::new();
    let mut seen = Vec::new();
    loop {
        match prog.analyse(config, Ok(())) {
            Ok(Step::Run(next, pass)) => {
                seen.push(pass);
                prog = next;
            }
            Ok(Step::Finished(done)) => {
                assert_eq!(done.applied, seen);
                return seen;
            }
            Err(_) => panic!("no pass failed"),
        }
    }
}

#[test]
fn pipeline_with_branch_isolation() {
    let seen = run_all(&CompileConfig { isolate_branches: true });
    assert_eq!(
        seen,
        vec![
            Pass::InlineConstants,
            Pass::IsolateBranches,
            Pass::ReduceProgram,
            Pass::GenerateAbi,
            Pass::Propagate,
            Pass::RemoveVariableWrites,
            Pass::CheckShifts,
            Pass::FlattenComplexTypes,
            Pass::OptimizeUints,
        ]
    );
}

#[test]
fn pipeline_without_branch_isolation() {
    let seen = run_all(&CompileConfig { isolate_branches: false });
    assert_eq!(seen.len(), 8);
    assert!(!seen.contains(&Pass::IsolateBranches));
    assert_eq!(seen[1], Pass::ReduceProgram);
}

#[test]
fn failure_of_reduction_is_reported() {
    let config = CompileConfig { isolate_branches: false };
    let prog = TypedProgram { applied: vec![Pass::InlineConstants, Pass::ReduceProgram] };
    match prog.analyse(&config, Err(String::from("recursion"))) {
        Err(e @ Error::Reducer(_)) => assert_eq!(e.message(), "recursion"),
        _ => panic!("expected a reducer error"),
    }
}

#[test]
fn failure_of_shift_check_is_reported() {
    let config = CompileConfig { isolate_branches: true };
    let mut applied = Vec::new();
    for n in 0..7 {
        applied.push(next_pass(&config, n).unwrap());
    }
    assert_eq!(applied[6], Pass::CheckShifts);
    let prog = TypedProgram { applied };
    assert!(matches!(
        prog.analyse(&config, Err(String::from("shift"))),
        Err(Error::NonConstantShift(_))
    ));
}

#[test]
fn errors_convert_from_pass_errors() {
    let e = Error::from(PropagationError { message: String::from("div by zero") });
    assert!(matches!(e, Error::Propagation(_)));
    assert_eq!(e.message(), "div by zero");
    let e = Error::from(ReducerError { message: String::from("r") });
    assert!(matches!(e, Error::Reducer(_)));
}

#[test]
fn no_pass_after_the_last() {
    let config = CompileConfig { isolate_branches: false };
    assert!(next_pass(&config, 8).is_none());
    assert_eq!(next_pass(&config, 7), Some(Pass::OptimizeUints));
}
