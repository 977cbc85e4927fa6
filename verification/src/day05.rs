//! Running a diagnostic program with a single system identifier as input
//! and collecting its whole output log.

use vstd::prelude::*;
use std::collections::VecDeque;
use crate::computer::{
    computer, machine_exceeds_budget, machine_faults_to, machine_halts_to, spec_loaded, Fault,
    MachineView,
};

verus! {

/// Runs `program` with the single input value `id` to completion and
/// returns the output log.
pub fn run_diagnostic(program: Vec<i64>, id: i64) -> (r: Result<Vec<i64>, Fault>)
    requires
        program@.len() <= i64::MAX,
    ensures
        ({
            let start = spec_loaded(program@, seq![id], false);
            match r {
                Ok(outputs) => exists|sf: MachineView|
                    {
                        &&& #[trigger] machine_halts_to(start, sf)
                        &&& outputs@ == sf.output
                    },
                Err(f) => {
                    if f == Fault::StepLimit {
                        machine_exceeds_budget(start)
                    } else {
                        exists|sf: MachineView| machine_faults_to(start, sf, f)
                    }
                },
            }
        }),
{
    let mut input: VecDeque<i64> = VecDeque::new();
    input.push_back(id);
    proof {
        assert(input@ == seq![id]);
    }
    match computer(program, Some(input)) {
        Ok((_, outputs)) => Ok(outputs),
        Err(f) => Err(f),
    }
}

/// Runs the diagnostic program with input one (the air conditioner test)
/// and returns the output log.
pub fn part_1(program: Vec<i64>) -> (r: Result<Vec<i64>, Fault>)
    requires
        program@.len() <= i64::MAX,
    ensures
        ({
            let start = spec_loaded(program@, seq![1i64], false);
            match r {
                Ok(outputs) => exists|sf: MachineView|
                    {
                        &&& #[trigger] machine_halts_to(start, sf)
                        &&& outputs@ == sf.output
                    },
                Err(f) => {
                    if f == Fault::StepLimit {
                        machine_exceeds_budget(start)
                    } else {
                        exists|sf: MachineView| machine_faults_to(start, sf, f)
                    }
                },
            }
        }),
{
    run_diagnostic(program, 1)
}

/// Runs the diagnostic program with input five (the thermal radiator test)
/// and returns the output log.
pub fn part_2(program: Vec<i64>) -> (r: Result<Vec<i64>, Fault>)
    requires
        program@.len() <= i64::MAX,
    ensures
        ({
            let start = spec_loaded(program@, seq![5i64], false);
            match r {
                Ok(outputs) => exists|sf: MachineView|
                    {
                        &&& #[trigger] machine_halts_to(start, sf)
                        &&& outputs@ == sf.output
                    },
                Err(f) => {
                    if f == Fault::StepLimit {
                        machine_exceeds_budget(start)
                    } else {
                        exists|sf: MachineView| machine_faults_to(start, sf, f)
                    }
                },
            }
        }),
{
    run_diagnostic(program, 5)
}

} // verus!
