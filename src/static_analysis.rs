//! Scheduling of the static-analysis passes.
//!
//! The passes themselves transform the typed program and run outside this
//! library. What is decided here is which pass runs next, which passes
//! depend on the configuration, and how the failure of a pass is reported.
use vstd::prelude::*;

verus! {

/// A program representation that can analyse itself, returning the
/// analysed program.
pub trait Analyse: Sized {
    fn analyse(self) -> Self;
}

/// Compiler options read by the static analyser.
pub struct CompileConfig {
    pub isolate_branches: bool,
}

/// A pass of the static analyser.
#[derive(Clone, Copy, Debug, PartialEq, Eq, Structural)]
pub enum Pass {
    InlineConstants,
    IsolateBranches,
    ReduceProgram,
    GenerateAbi,
    Propagate,
    RemoveVariableWrites,
    CheckShifts,
    FlattenComplexTypes,
    OptimizeUints,
}

/// The passes run on a typed program, in order. Branch isolation runs only
/// when the configuration asks for it.
pub open spec fn pipeline(isolate_branches: bool) -> Seq<Pass> {
    let head = if isolate_branches {
        seq![Pass::InlineConstants, Pass::IsolateBranches]
    } else {
        seq![Pass::InlineConstants]
    };
    head + seq![
        Pass::ReduceProgram,
        Pass::GenerateAbi,
        Pass::Propagate,
        Pass::RemoveVariableWrites,
        Pass::CheckShifts,
        Pass::FlattenComplexTypes,
        Pass::OptimizeUints,
    ]
}

/// The passes that can fail.
pub open spec fn fallible(p: Pass) -> bool {
    p == Pass::ReduceProgram || p == Pass::Propagate || p == Pass::CheckShifts
}

/// Failure of the reduction to a single function.
pub struct ReducerError {
    pub message: String,
}

/// Failure of constant propagation.
pub struct PropagationError {
    pub message: String,
}

/// A shift by an amount that is not constant.
pub struct ShiftError {
    pub message: String,
}

/// Why the static analysis stopped.
pub enum Error {
    Reducer(ReducerError),
    Propagation(PropagationError),
    NonConstantShift(ShiftError),
}

impl From<ReducerError> for Error {
    fn from(e: ReducerError) -> (r: Error) {
        Error::Reducer(e)
    }
}

impl vstd::std_specs::convert::FromSpecImpl<ReducerError> for Error {
    open spec fn obeys_from_spec() -> bool {
        true
    }

    open spec fn from_spec(e: ReducerError) -> Error {
        Error::Reducer(e)
    }
}

impl From<PropagationError> for Error {
    fn from(e: PropagationError) -> (r: Error) {
        Error::Propagation(e)
    }
}

impl vstd::std_specs::convert::FromSpecImpl<PropagationError> for Error {
    open spec fn obeys_from_spec() -> bool {
        true
    }

    open spec fn from_spec(e: PropagationError) -> Error {
        Error::Propagation(e)
    }
}

impl From<ShiftError> for Error {
    fn from(e: ShiftError) -> (r: Error) {
        Error::NonConstantShift(e)
    }
}

impl vstd::std_specs::convert::FromSpecImpl<ShiftError> for Error {
    open spec fn obeys_from_spec() -> bool {
        true
    }

    open spec fn from_spec(e: ShiftError) -> Error {
        Error::NonConstantShift(e)
    }
}

impl Error {
    pub open spec fn message_view(&self) -> Seq<char> {
        match self {
            Error::Reducer(e) => e.message@,
            Error::Propagation(e) => e.message@,
            Error::NonConstantShift(e) => e.message@,
        }
    }

    /// The message of the pass that failed.
    pub fn message(&self) -> (r: String)
        ensures
            r@ == self.message_view(),
    {
        match self {
            Error::Reducer(e) => e.message.clone(),
            Error::Propagation(e) => e.message.clone(),
            Error::NonConstantShift(e) => e.message.clone(),
        }
    }
}

/// The error that a failure of pass `p` with message `m` is reported as.
pub open spec fn failure_of(p: Pass, m: String) -> Error {
    if p == Pass::ReduceProgram {
        Error::Reducer(ReducerError { message: m })
    } else if p == Pass::Propagate {
        Error::Propagation(PropagationError { message: m })
    } else {
        Error::NonConstantShift(ShiftError { message: m })
    }
}

/// A typed program under static analysis: the passes applied to it so far.
pub struct TypedProgram {
    pub applied: Vec<Pass>,
}

/// What the analyser asks for next.
pub enum Step {
    /// Apply this pass to the program, then report its outcome.
    Run(TypedProgram, Pass),
    /// Every pass has been applied.
    Finished(TypedProgram),
}

impl TypedProgram {
    /// A program to which no pass has been applied yet.
    pub fn new() -> (r: TypedProgram)
        ensures
            r.applied@ == Seq::<Pass>::empty(),
    {
        TypedProgram { applied: Vec::new() }
    }

    /// The applied passes are the first ones of the pipeline for `config`.
    pub open spec fn wf(&self, config: &CompileConfig) -> bool {
        let p = pipeline(config.isolate_branches);
        self.applied@.len() <= p.len() && self.applied@ == p.take(self.applied@.len() as int)
    }

    /// Takes the outcome of the pass applied last (`Ok(())` when none was
    /// applied yet) and decides the next step: a failure ends the analysis
    /// with the error of that pass, otherwise the next pass of the pipeline
    /// runs, until none is left.
    pub fn analyse(self, config: &CompileConfig, outcome: Result<(), String>) -> (r: Result<
        Step,
        Error,
    >)
        requires
            self.wf(config),
            outcome is Err ==> self.applied@.len() > 0 && fallible(self.applied@.last()),
        ensures
            ({
                let p = pipeline(config.isolate_branches);
                let n = self.applied@.len();
                match outcome {
                    Err(m) => r == Err::<Step, Error>(failure_of(self.applied@.last(), m)),
                    Ok(_) => if n < p.len() {
                        match r {
                            Ok(Step::Run(next, pass)) => pass == p[n as int] && next.applied@
                                == self.applied@.push(pass) && next.wf(config),
                            _ => false,
                        }
                    } else {
                        match r {
                            Ok(Step::Finished(done)) => done.applied@ == self.applied@,
                            _ => false,
                        }
                    },
                }
            }),
    {
        let ghost p = pipeline(config.isolate_branches);
        match outcome {
            Err(m) => {
                let last = self.applied[self.applied.len() - 1];
                if last == Pass::ReduceProgram {
                    Err(Error::from(ReducerError { message: m }))
                } else if last == Pass::Propagate {
                    Err(Error::from(PropagationError { message: m }))
                } else {
                    Err(Error::from(ShiftError { message: m }))
                }
            },
            Ok(()) => {
                let n = self.applied.len();
                match next_pass(config, n) {
                    Some(pass) => {
                        let mut applied = self.applied;
                        applied.push(pass);
                        proof {
                            assert(applied@ =~= p.take(n + 1));
                        }
                        Ok(Step::Run(TypedProgram { applied }, pass))
                    },
                    None => Ok(Step::Finished(self)),
                }
            },
        }
    }
}

/// The pass at position `n` of the pipeline for `config`, if there is one.
pub fn next_pass(config: &CompileConfig, n: usize) -> (r: Option<Pass>)
    ensures
        ({
            let p = pipeline(config.isolate_branches);
            if n < p.len() {
                r == Some(p[n as int])
            } else {
                r is None
            }
        }),
{
    let shift: usize = if config.isolate_branches {
        1
    } else {
        0
    };
    if n == 0 {
        Some(Pass::InlineConstants)
    } else if config.isolate_branches && n == 1 {
        Some(Pass::IsolateBranches)
    } else if n - shift == 1 {
        Some(Pass::ReduceProgram)
    } else if n - shift == 2 {
        Some(Pass::GenerateAbi)
    } else if n - shift == 3 {
        Some(Pass::Propagate)
    } else if n - shift == 4 {
        Some(Pass::RemoveVariableWrites)
    } else if n - shift == 5 {
        Some(Pass::CheckShifts)
    } else if n - shift == 6 {
        Some(Pass::FlattenComplexTypes)
    } else if n - shift == 7 {
        Some(Pass::OptimizeUints)
    } else {
        None
    }
}

} // verus!
