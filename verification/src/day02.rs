//! Running the machine over a program patched with a noun and a verb, and
//! searching for the pair that leaves a wanted value at address zero.

use vstd::prelude::*;
use crate::computer::{
    computer, machine_exceeds_budget, machine_faults_to, machine_halts_to, mem_read, spec_loaded,
    Fault, MachineView, Memory,
};

verus! {

/// The machine configuration for one noun/verb pair: the program with
/// addresses one and two overwritten, no input, resume policy disabled.
pub open spec fn day02_start(program: Seq<i64>, noun: u32, verb: u32) -> MachineView {
    spec_loaded(program.update(1, noun as i64).update(2, verb as i64), Seq::empty(), false)
}

/// The run for this noun/verb pair halts with `target` at address zero.
pub open spec fn day02_hits(program: Seq<i64>, noun: u32, verb: u32, target: u32) -> bool {
    exists|sf: MachineView|
        {
            &&& #[trigger] machine_halts_to(day02_start(program, noun, verb), sf)
            &&& mem_read(sf.mem, 0) == target as i64
        }
}

/// The run for this noun/verb pair halts with something other than
/// `target` at address zero.
pub open spec fn day02_misses(program: Seq<i64>, noun: u32, verb: u32, target: u32) -> bool {
    exists|sf: MachineView|
        {
            &&& #[trigger] machine_halts_to(day02_start(program, noun, verb), sf)
            &&& mem_read(sf.mem, 0) != target as i64
        }
}

/// Seeds the program with the two given inputs at addresses one and two and
/// runs it to completion, returning the final memory.
pub fn part_1(program: Vec<i64>, input_1: u32, input_2: u32) -> (r: Result<Memory, Fault>)
    requires
        3 <= program@.len() <= i64::MAX,
    ensures
        ({
            let start = day02_start(program@, input_1, input_2);
            match r {
                Ok(mem_snap) => exists|sf: MachineView|
                    {
                        &&& #[trigger] machine_halts_to(start, sf)
                        &&& mem_snap@ == sf.mem
                    },
                Err(f) => {
                    if f == Fault::StepLimit {
                        machine_exceeds_budget(start)
                    } else {
                        exists|sf: MachineView| machine_faults_to(start, sf, f)
                    }
                },
            }
        }),
{
    let mut memory = program;
    memory.set(1, input_1 as i64);
    memory.set(2, input_2 as i64);
    match computer(memory, None) {
        Ok((mem_snap, _)) => Ok(mem_snap),
        Err(f) => Err(f),
    }
}

/// Searches nouns and verbs from zero to ninety-nine, in lexicographic
/// order, for the first pair whose run leaves `result` at address zero.
/// The first faulting run aborts the whole search.
pub fn part_2(program: Vec<i64>, result: u32) -> (r: Result<Option<(u32, u32)>, Fault>)
    requires
        3 <= program@.len() <= i64::MAX,
    ensures
        match r {
            Ok(Some((noun, verb))) => {
                &&& noun < 100 && verb < 100
                &&& day02_hits(program@, noun, verb, result)
                &&& forall|n2: u32, v2: u32|
                    n2 < 100 && v2 < 100 && n2 * 100 + v2 < noun * 100 + verb
                        ==> #[trigger] day02_misses(program@, n2, v2, result)
            },
            Ok(None) => forall|n2: u32, v2: u32|
                n2 < 100 && v2 < 100 ==> #[trigger] day02_misses(program@, n2, v2, result),
            Err(f) => exists|n2: u32, v2: u32|
                {
                    &&& n2 < 100 && v2 < 100
                    &&& (if f == Fault::StepLimit {
                        machine_exceeds_budget(#[trigger] day02_start(program@, n2, v2))
                    } else {
                        exists|sf: MachineView| machine_faults_to(
                            #[trigger] day02_start(program@, n2, v2),
                            sf,
                            f,
                        )
                    })
                    &&& (forall|n3: u32, v3: u32|
                        n3 < 100 && v3 < 100 && n3 * 100 + v3 < n2 * 100 + v2
                            ==> #[trigger] day02_misses(program@, n3, v3, result))
                },
        },
{
    let mut i: u32 = 0;
    while i < 100
        invariant
            i <= 100,
            3 <= program@.len() <= i64::MAX,
            forall|n2: u32, v2: u32|
                n2 < i && v2 < 100 ==> #[trigger] day02_misses(program@, n2, v2, result),
        decreases 100 - i,
    {
        let mut j: u32 = 0;
        while j < 100
            invariant
                i < 100,
                j <= 100,
                3 <= program@.len() <= i64::MAX,
                forall|n2: u32, v2: u32|
                    n2 < i && v2 < 100 ==> #[trigger] day02_misses(program@, n2, v2, result),
                forall|v2: u32| v2 < j ==> #[trigger] day02_misses(program@, i, v2, result),
            decreases 100 - j,
        {
            let mut memory = program.clone();
            proof {
                assert(memory@ == program@);
            }
            memory.set(1, i as i64);
            memory.set(2, j as i64);
            match computer(memory, None) {
                Ok((mem_snap, _)) => {
                    let at_zero = match mem_snap.lookup(0) {
                        Some(v) => v,
                        None => 0,
                    };
                    if at_zero == result as i64 {
                        proof {
                            assert(day02_hits(program@, i, j, result));
                        }
                        return Ok(Some((i, j)));
                    }
                    proof {
                        assert(day02_misses(program@, i, j, result));
                    }
                },
                Err(f) => {
                    proof {
                        let start = day02_start(program@, i, j);
                        if f == Fault::StepLimit {
                            assert(machine_exceeds_budget(day02_start(program@, i, j)));
                        } else {
                            let sf = choose|sf: MachineView| machine_faults_to(start, sf, f);
                            assert(machine_faults_to(day02_start(program@, i, j), sf, f));
                        }
                    }
                    return Err(f);
                },
            }
            j = j + 1;
        }
        i = i + 1;
    }
    Ok(None)
}

} // verus!
