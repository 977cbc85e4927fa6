//! A small stack-less virtual machine that interprets a linear program of
//! signed integers as an instruction stream with multiple addressing modes,
//! unbounded sparse memory and cooperative pause/resume execution, together
//! with the puzzle solvers built on top of it.
//!
//! The crate root holds the elementary forerunner of that machine: an
//! add/multiply interpreter over a fixed array of unsigned words, without
//! addressing modes, input or output.

use vstd::prelude::*;

pub mod computer;
pub mod day01;
pub mod day02;
pub mod day03;
pub mod day04;
pub mod day05;
pub mod day06;
pub mod day07;
pub mod day08;
pub mod day09;

verus! {

/// Outcome of one instruction of the elementary machine.
#[derive(PartialEq, Eq, Structural, Debug, Copy, Clone)]
pub enum BasicOut {
    Continue,
    Halted,
    Faulted,
}

/// One instruction of the elementary machine: opcode 1 adds, 2 multiplies,
/// 99 halts.  Everything else faults, as does any access outside the
/// program, or an arithmetic overflow.
pub open spec fn basic_step(m: Seq<u32>, c: nat) -> (Seq<u32>, nat, BasicOut) {
    if c >= m.len() {
        (m, c, BasicOut::Faulted)
    } else {
        let op = m[c as int];
        if op == 99 {
            (m, c, BasicOut::Halted)
        } else if op == 1 || op == 2 {
            if c + 3 >= m.len() {
                (m, c, BasicOut::Faulted)
            } else {
                let a1 = m[c as int + 1] as nat;
                let a2 = m[c as int + 2] as nat;
                let rd = m[c as int + 3] as nat;
                if a1 >= m.len() || a2 >= m.len() || rd >= m.len() {
                    (m, c, BasicOut::Faulted)
                } else {
                    let res = if op == 1 {
                        m[a1 as int] + m[a2 as int]
                    } else {
                        m[a1 as int] * m[a2 as int]
                    };
                    if res > u32::MAX {
                        (m, c, BasicOut::Faulted)
                    } else {
                        (m.update(rd as int, res as u32), c + 4, BasicOut::Continue)
                    }
                }
            }
        } else {
            (m, c, BasicOut::Faulted)
        }
    }
}

/// The elementary machine after `n` instructions from memory `m` and cursor
/// `c`; frozen once the outcome is not `Continue`.
pub open spec fn basic_run_n(m: Seq<u32>, c: nat, n: nat) -> (Seq<u32>, nat, BasicOut)
    decreases n,
{
    if n == 0 {
        (m, c, BasicOut::Continue)
    } else {
        let (m1, c1, o1) = basic_run_n(m, c, (n - 1) as nat);
        if o1 == BasicOut::Continue {
            basic_step(m1, c1)
        } else {
            (m1, c1, o1)
        }
    }
}

/// The elementary machine loaded with `m` reaches the halt instruction with
/// final memory `mf`.
pub open spec fn basic_halts_to(m: Seq<u32>, mf: Seq<u32>) -> bool {
    exists|n: nat|
        ({
            let (m2, c2, o2) = #[trigger] basic_run_n(m, 0, n);
            o2 == BasicOut::Halted && m2 == mf
        })
}

/// The elementary machine loaded with `m` reaches the halt instruction.
pub open spec fn basic_halts(m: Seq<u32>) -> bool {
    exists|mf: Seq<u32>| basic_halts_to(m, mf)
}

proof fn lemma_basic_frozen(m: Seq<u32>, c: nat, k: nat, j: nat)
    requires
        basic_run_n(m, c, k).2 != BasicOut::Continue,
        k <= j,
    ensures
        basic_run_n(m, c, j) == basic_run_n(m, c, k),
    decreases j,
{
    if j > k {
        lemma_basic_frozen(m, c, k, (j - 1) as nat);
    }
}

/// While a run is still continuing it has not yet spent the steps that its
/// halt takes, and its next instruction cannot fault.
proof fn lemma_basic_progress(m0: Seq<u32>, n0: nat, k: nat)
    requires
        basic_run_n(m0, 0, n0).2 == BasicOut::Halted,
        basic_run_n(m0, 0, k).2 == BasicOut::Continue,
    ensures
        k < n0,
        ({
            let (m, c, _) = basic_run_n(m0, 0, k);
            basic_step(m, c).2 != BasicOut::Faulted
        }),
{
    if n0 <= k {
        lemma_basic_frozen(m0, 0, n0, k);
    }
    let (m, c, _) = basic_run_n(m0, 0, k);
    if basic_step(m, c).2 == BasicOut::Faulted {
        assert(basic_run_n(m0, 0, k + 1).2 == BasicOut::Faulted);
        lemma_basic_frozen(m0, 0, k + 1, n0);
    }
}

/// The elementary interpreter: runs the program seeded in `memory` to its
/// halt instruction and returns the final memory.  The caller owes a
/// program that halts without faulting; the run is then exactly the
/// machine's small-step execution.
pub fn computer(memory: Vec<u32>) -> (r: Vec<u32>)
    requires
        basic_halts(memory@),
    ensures
        basic_halts_to(memory@, r@),
{
    let ghost m0 = memory@;
    let ghost mf0 = choose|mf: Seq<u32>| basic_halts_to(m0, mf);
    let ghost n0 = choose|n: nat|
        ({
            let (m2, c2, o2) = #[trigger] basic_run_n(m0, 0, n);
            o2 == BasicOut::Halted && m2 == mf0
        });
    let mut mem = memory;
    let mut cursor: usize = 0;
    let ghost mut k: nat = 0;
    loop
        invariant
            m0 == memory@,
            basic_run_n(m0, 0, k) == (mem@, cursor as nat, BasicOut::Continue),
            basic_run_n(m0, 0, n0).2 == BasicOut::Halted,
        decreases n0 - k,
    {
        proof {
            lemma_basic_progress(m0, n0, k);
        }
        if cursor >= mem.len() {
            return unreached();
        }
        let op = mem[cursor];
        if op == 99 {
            proof {
                assert(basic_run_n(m0, 0, k + 1) == (mem@, cursor as nat, BasicOut::Halted));
                assert(basic_halts_to(memory@, mem@));
            }
            return mem;
        }
        if op != 1 && op != 2 {
            return unreached();
        }
        let c3 = match cursor.checked_add(3) {
            Some(x) => x,
            None => {
                return unreached();
            },
        };
        if c3 >= mem.len() {
            return unreached();
        }
        let a1 = mem[cursor + 1] as usize;
        let a2 = mem[cursor + 2] as usize;
        let rd = mem[c3] as usize;
        if a1 >= mem.len() || a2 >= mem.len() || rd >= mem.len() {
            return unreached();
        }
        let res = if op == 1 {
            mem[a1].checked_add(mem[a2])
        } else {
            mem[a1].checked_mul(mem[a2])
        };
        let res = match res {
            Some(x) => x,
            None => {
                return unreached();
            },
        };
        let ghost pre = mem@;
        let ghost prec = cursor as nat;
        mem.set(rd, res);
        cursor = c3 + 1;
        proof {
            k = k + 1;
            assert(basic_step(pre, prec) == (mem@, cursor as nat, BasicOut::Continue));
        }
    }
}

} // verus!
