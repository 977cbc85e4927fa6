//! Running the boost program with input one and reporting its last output.

use vstd::prelude::*;
use crate::computer::{
    machine_exceeds_budget, machine_faults_to, machine_halts_to, spec_loaded, Fault, MachineView,
};
use crate::day05::run_diagnostic;

verus! {

/// Runs `program` with the single input value one to completion and
/// returns the last output value, if any output was produced.
pub fn part_1(program: Vec<i64>) -> (r: Result<Option<i64>, Fault>)
    requires
        program@.len() <= i64::MAX,
    ensures
        ({
            let start = spec_loaded(program@, seq![1i64], false);
            match r {
                Ok(last) => exists|sf: MachineView|
                    {
                        &&& #[trigger] machine_halts_to(start, sf)
                        &&& last == (if sf.output.len() == 0 {
                            None::<i64>
                        } else {
                            Some(sf.output.last())
                        })
                    },
                Err(f) => {
                    if f == Fault::StepLimit {
                        machine_exceeds_budget(start)
                    } else {
                        exists|sf: MachineView| machine_faults_to(start, sf, f)
                    }
                },
            }
        }),
{
    match run_diagnostic(program, 1) {
        Ok(outputs) => {
            if outputs.len() == 0 {
                Ok(None)
            } else {
                Ok(Some(outputs[outputs.len() - 1]))
            }
        },
        Err(f) => Err(f),
    }
}

} // verus!
