//! The machine: sparse memory, instruction decoding, addressing-mode
//! resolution and the re-entrant execution loop with pause/resume.

use vstd::prelude::*;
use vstd::math::abs;
use vstd::string::StrSliceExecFns;
use std::collections::HashMap;
use std::collections::VecDeque;

verus! {

broadcast use vstd::std_specs::hash::group_hash_axioms;

/// Rule governing how a parameter's encoded integer becomes an operand value
/// or a destination address.
#[derive(PartialEq, Eq, Structural, Debug, Copy, Clone)]
pub enum Mode {
    Positional,
    Immediate,
    Relative,
}

/// Numeric operation identifier decoded from the low two digits of an
/// instruction word.
#[derive(PartialEq, Eq, Structural, Debug, Copy, Clone)]
pub enum OpCode {
    Add,
    Multiply,
    Stop,
    Store,
    Output,
    JumpIfTrue,
    JumpIfFalse,
    LessThan,
    Equals,
    Base,
}

/// The addressing modes of the up-to-three parameters of one instruction, in
/// left-to-right declaration order.
#[derive(PartialEq, Eq, Structural, Debug)]
pub struct Parameter {
    pub first_operand: Mode,
    pub second_operand: Mode,
    pub result_address: Mode,
}

/// A fatal condition that aborts a run.  Decode covers an instruction word
/// with an unknown opcode or a mode digit outside 0..2; InputExhausted an
/// input instruction on an empty queue; NegativeAddress a parameter that
/// resolves to an address below zero; Overflow an arithmetic result or an
/// address computation outside the signed 64-bit range.  StepLimit reports a
/// run that executed the largest unsigned 64-bit number of instructions
/// without halting, pausing or faulting; every body below is total, and the
/// budget is far beyond what any physical run can spend.
#[derive(PartialEq, Eq, Structural, Debug, Copy, Clone)]
pub enum Fault {
    Decode,
    InputExhausted,
    NegativeAddress,
    Overflow,
    StepLimit,
}

/// Whether the machine suspends immediately after producing an output value.
#[derive(Debug, Clone, Copy, PartialEq, Eq, Structural)]
pub enum ResumeMode {
    Enable,
    Disable,
}

/// The run state: `Started` (running or about to run), `Paused` (suspended
/// after emitting output), `Stopped` (terminal, after the halt instruction).
#[derive(PartialEq, Eq, Structural, Debug, Copy, Clone)]
pub enum State {
    Started,
    Paused,
    Stopped,
}

/// The opcode encoded by the two low-order decimal digits of an instruction
/// word, taken on the absolute value.
pub open spec fn opcode_digits(raw: i64) -> int {
    (abs(raw as int) as int) % 100
}

/// The mode digit of parameter `k` (1-based): the decimal digit of the
/// instruction word at position `k + 1` above the opcode digits.
pub open spec fn mode_digit(raw: i64, k: int) -> int {
    if k == 1 {
        ((abs(raw as int) as int) / 100) % 10
    } else if k == 2 {
        ((abs(raw as int) as int) / 1000) % 10
    } else {
        ((abs(raw as int) as int) / 10000) % 10
    }
}

pub open spec fn spec_mode_of_digit(d: int) -> Option<Mode> {
    if d == 0 {
        Some(Mode::Positional)
    } else if d == 1 {
        Some(Mode::Immediate)
    } else if d == 2 {
        Some(Mode::Relative)
    } else {
        None
    }
}

pub open spec fn spec_opcode_of_num(n: int) -> Option<OpCode> {
    if n == 1 {
        Some(OpCode::Add)
    } else if n == 2 {
        Some(OpCode::Multiply)
    } else if n == 3 {
        Some(OpCode::Store)
    } else if n == 4 {
        Some(OpCode::Output)
    } else if n == 5 {
        Some(OpCode::JumpIfTrue)
    } else if n == 6 {
        Some(OpCode::JumpIfFalse)
    } else if n == 7 {
        Some(OpCode::LessThan)
    } else if n == 8 {
        Some(OpCode::Equals)
    } else if n == 9 {
        Some(OpCode::Base)
    } else if n == 99 {
        Some(OpCode::Stop)
    } else {
        None
    }
}

/// Decode of one instruction word: the opcode and the modes of the three
/// parameter positions, or nothing on an unknown opcode or mode digit.
pub open spec fn spec_decode(raw: i64) -> Option<(OpCode, Mode, Mode, Mode)> {
    match (
        spec_opcode_of_num(opcode_digits(raw)),
        spec_mode_of_digit(mode_digit(raw, 1)),
        spec_mode_of_digit(mode_digit(raw, 2)),
        spec_mode_of_digit(mode_digit(raw, 3)),
    ) {
        (Some(op), Some(m1), Some(m2), Some(m3)) => Some((op, m1, m2, m3)),
        _ => None,
    }
}

pub open spec fn spec_opcode_value(op: OpCode) -> int {
    match op {
        OpCode::Add => 1,
        OpCode::Multiply => 2,
        OpCode::Store => 3,
        OpCode::Output => 4,
        OpCode::JumpIfTrue => 5,
        OpCode::JumpIfFalse => 6,
        OpCode::LessThan => 7,
        OpCode::Equals => 8,
        OpCode::Base => 9,
        OpCode::Stop => 99,
    }
}

pub open spec fn spec_mode_value(m: Mode) -> int {
    match m {
        Mode::Positional => 0,
        Mode::Immediate => 1,
        Mode::Relative => 2,
    }
}

/// The canonical instruction word for an opcode and three parameter modes.
pub open spec fn spec_encode(op: OpCode, m1: Mode, m2: Mode, m3: Mode) -> int {
    spec_mode_value(m3) * 10000 + spec_mode_value(m2) * 1000 + spec_mode_value(m1) * 100
        + spec_opcode_value(op)
}

/// Decode round-trip: re-encoding a successful decode of a canonical
/// (non-negative, at most five-digit) instruction word gives the word back.
pub proof fn lemma_decode_round_trip(raw: i64)
    requires
        0 <= raw < 100000,
        spec_decode(raw) is Some,
    ensures
        ({
            let (op, m1, m2, m3) = spec_decode(raw)->Some_0;
            spec_encode(op, m1, m2, m3) == raw
        }),
{
    let v = raw as int;
    assert(v == (v / 10000) % 10 * 10000 + (v / 1000) % 10 * 1000 + (v / 100) % 10 * 100 + v
        % 100) by (nonlinear_arith)
        requires
            0 <= v < 100000,
    ;
}

/// The absolute value of an instruction word, as the unsigned domain in
/// which its decimal digits are read.
fn abs_word(raw: i64) -> (a: u64)
    ensures
        a == abs(raw as int),
{
    if raw < 0 {
        // Negating after widening is safe even for the minimum value.
        ((-(raw as i128)) as u64)
    } else {
        raw as u64
    }
}

/// Total decode of one instruction word.
fn decode(raw: i64) -> (r: Result<(OpCode, Mode, Mode, Mode), Fault>)
    ensures
        r == match spec_decode(raw) {
            Some(d) => Ok::<(OpCode, Mode, Mode, Mode), Fault>(d),
            None => Err::<(OpCode, Mode, Mode, Mode), Fault>(Fault::Decode),
        },
{
    let a = abs_word(raw);
    let op_num = a % 100;
    let d1 = (a / 100) % 10;
    let d2 = (a / 1000) % 10;
    let d3 = (a / 10000) % 10;
    let op = match op_num {
        1u64 => OpCode::Add,
        2u64 => OpCode::Multiply,
        3u64 => OpCode::Store,
        4u64 => OpCode::Output,
        5u64 => OpCode::JumpIfTrue,
        6u64 => OpCode::JumpIfFalse,
        7u64 => OpCode::LessThan,
        8u64 => OpCode::Equals,
        9u64 => OpCode::Base,
        99u64 => OpCode::Stop,
        _ => {
            return Err(Fault::Decode);
        },
    };
    let m1 = match mode_of_digit(d1) {
        Some(m) => m,
        None => {
            return Err(Fault::Decode);
        },
    };
    let m2 = match mode_of_digit(d2) {
        Some(m) => m,
        None => {
            return Err(Fault::Decode);
        },
    };
    let m3 = match mode_of_digit(d3) {
        Some(m) => m,
        None => {
            return Err(Fault::Decode);
        },
    };
    Ok((op, m1, m2, m3))
}

/// The whole observable configuration of a machine: sparse memory, the
/// instruction pointer, the relative base, the pending input queue, the
/// accumulated output log, the resume policy and the run state.
pub ghost struct MachineView {
    pub mem: Map<i64, i64>,
    pub ip: i64,
    pub base: i64,
    pub input: Seq<i64>,
    pub output: Seq<i64>,
    pub resume: bool,
    pub state: State,
}

/// Outcome of executing one instruction.
#[derive(PartialEq, Eq, Structural, Debug, Copy, Clone)]
pub enum StepOut {
    Continue,
    Halted,
    Paused,
    Faulted(Fault),
}

/// Value-of-parameter resolution for parameter `off` of the instruction at
/// `ip`: the store after the reads it performs, and the operand value or the
/// fault.  `Positional` reads the address held in the parameter cell,
/// `Immediate` takes the cell itself, `Relative` offsets the cell by `base`.
pub open spec fn spec_value_of(m: Map<i64, i64>, ip: i64, off: int, mode: Mode, base: i64) -> (
    Map<i64, i64>,
    Result<i64, Fault>,
) {
    if ip + off > i64::MAX {
        (m, Err(Fault::Overflow))
    } else {
        let pa = (ip + off) as i64;
        let pv = mem_read(m, pa);
        let m1 = mem_touch(m, pa);
        match mode {
            Mode::Immediate => (m1, Ok(pv)),
            Mode::Positional => {
                if pv < 0 {
                    (m1, Err(Fault::NegativeAddress))
                } else {
                    (mem_touch(m1, pv), Ok(mem_read(m1, pv)))
                }
            },
            Mode::Relative => {
                if pv + base > i64::MAX || pv + base < i64::MIN {
                    (m1, Err(Fault::Overflow))
                } else {
                    let ta = (pv + base) as i64;
                    if ta < 0 {
                        (m1, Err(Fault::NegativeAddress))
                    } else {
                        (mem_touch(m1, ta), Ok(mem_read(m1, ta)))
                    }
                }
            },
        }
    }
}

/// Address-of-parameter resolution, used for write destinations.  An
/// `Immediate` destination is deliberately coerced to `Positional`, as the
/// instruction set leaves that combination undefined.
pub open spec fn spec_addr_of(m: Map<i64, i64>, ip: i64, off: int, mode: Mode, base: i64) -> (
    Map<i64, i64>,
    Result<i64, Fault>,
) {
    if ip + off > i64::MAX {
        (m, Err(Fault::Overflow))
    } else {
        let pa = (ip + off) as i64;
        let pv = mem_read(m, pa);
        let m1 = mem_touch(m, pa);
        match mode {
            Mode::Immediate | Mode::Positional => {
                if pv < 0 {
                    (m1, Err(Fault::NegativeAddress))
                } else {
                    (m1, Ok(pv))
                }
            },
            Mode::Relative => {
                if pv + base > i64::MAX || pv + base < i64::MIN {
                    (m1, Err(Fault::Overflow))
                } else {
                    let ta = (pv + base) as i64;
                    if ta < 0 {
                        (m1, Err(Fault::NegativeAddress))
                    } else {
                        (m1, Ok(ta))
                    }
                }
            },
        }
    }
}

pub open spec fn spec_step_stop(s: MachineView) -> (MachineView, StepOut) {
    if s.ip + 1 > i64::MAX {
        (s, StepOut::Faulted(Fault::Overflow))
    } else {
        (
            MachineView { ip: (s.ip + 1) as i64, state: State::Stopped, ..s },
            StepOut::Halted,
        )
    }
}

pub open spec fn spec_step_arith(
    s: MachineView,
    is_add: bool,
    m1: Mode,
    m2: Mode,
    m3: Mode,
) -> (MachineView, StepOut) {
    let (ma, r1) = spec_value_of(s.mem, s.ip, 1, m1, s.base);
    match r1 {
        Err(f) => (MachineView { mem: ma, ..s }, StepOut::Faulted(f)),
        Ok(v1) => {
            let (mb, r2) = spec_value_of(ma, s.ip, 2, m2, s.base);
            match r2 {
                Err(f) => (MachineView { mem: mb, ..s }, StepOut::Faulted(f)),
                Ok(v2) => {
                    let (mc, r3) = spec_addr_of(mb, s.ip, 3, m3, s.base);
                    match r3 {
                        Err(f) => (MachineView { mem: mc, ..s }, StepOut::Faulted(f)),
                        Ok(dst) => {
                            let res = if is_add {
                                v1 + v2
                            } else {
                                v1 * v2
                            };
                            if res > i64::MAX || res < i64::MIN {
                                (MachineView { mem: mc, ..s }, StepOut::Faulted(Fault::Overflow))
                            } else {
                                let mw = mc.insert(dst, res as i64);
                                if s.ip + 4 > i64::MAX {
                                    (
                                        MachineView { mem: mw, ..s },
                                        StepOut::Faulted(Fault::Overflow),
                                    )
                                } else {
                                    (
                                        MachineView { mem: mw, ip: (s.ip + 4) as i64, ..s },
                                        StepOut::Continue,
                                    )
                                }
                            }
                        },
                    }
                },
            }
        },
    }
}

pub open spec fn spec_step_cmp(
    s: MachineView,
    is_less: bool,
    m1: Mode,
    m2: Mode,
    m3: Mode,
) -> (MachineView, StepOut) {
    let (ma, r1) = spec_value_of(s.mem, s.ip, 1, m1, s.base);
    match r1 {
        Err(f) => (MachineView { mem: ma, ..s }, StepOut::Faulted(f)),
        Ok(v1) => {
            let (mb, r2) = spec_value_of(ma, s.ip, 2, m2, s.base);
            match r2 {
                Err(f) => (MachineView { mem: mb, ..s }, StepOut::Faulted(f)),
                Ok(v2) => {
                    let (mc, r3) = spec_addr_of(mb, s.ip, 3, m3, s.base);
                    match r3 {
                        Err(f) => (MachineView { mem: mc, ..s }, StepOut::Faulted(f)),
                        Ok(dst) => {
                            let hit = if is_less {
                                v1 < v2
                            } else {
                                v1 == v2
                            };
                            let res: i64 = if hit {
                                1
                            } else {
                                0
                            };
                            let mw = mc.insert(dst, res);
                            if s.ip + 4 > i64::MAX {
                                (MachineView { mem: mw, ..s }, StepOut::Faulted(Fault::Overflow))
                            } else {
                                (
                                    MachineView { mem: mw, ip: (s.ip + 4) as i64, ..s },
                                    StepOut::Continue,
                                )
                            }
                        },
                    }
                },
            }
        },
    }
}

pub open spec fn spec_step_store(s: MachineView, m1: Mode) -> (MachineView, StepOut) {
    let (ma, r1) = spec_addr_of(s.mem, s.ip, 1, m1, s.base);
    match r1 {
        Err(f) => (MachineView { mem: ma, ..s }, StepOut::Faulted(f)),
        Ok(dst) => {
            if s.input.len() == 0 {
                (MachineView { mem: ma, ..s }, StepOut::Faulted(Fault::InputExhausted))
            } else {
                let mw = ma.insert(dst, s.input[0]);
                let rest = s.input.drop_first();
                if s.ip + 2 > i64::MAX {
                    (
                        MachineView { mem: mw, input: rest, ..s },
                        StepOut::Faulted(Fault::Overflow),
                    )
                } else {
                    (
                        MachineView { mem: mw, input: rest, ip: (s.ip + 2) as i64, ..s },
                        StepOut::Continue,
                    )
                }
            }
        },
    }
}

pub open spec fn spec_step_output(s: MachineView, m1: Mode) -> (MachineView, StepOut) {
    let (ma, r1) = spec_value_of(s.mem, s.ip, 1, m1, s.base);
    match r1 {
        Err(f) => (MachineView { mem: ma, ..s }, StepOut::Faulted(f)),
        Ok(v) => {
            let out = s.output.push(v);
            if s.ip + 2 > i64::MAX {
                (MachineView { mem: ma, output: out, ..s }, StepOut::Faulted(Fault::Overflow))
            } else if s.resume {
                (
                    MachineView {
                        mem: ma,
                        output: out,
                        ip: (s.ip + 2) as i64,
                        state: State::Paused,
                        ..s
                    },
                    StepOut::Paused,
                )
            } else {
                (
                    MachineView { mem: ma, output: out, ip: (s.ip + 2) as i64, ..s },
                    StepOut::Continue,
                )
            }
        },
    }
}

pub open spec fn spec_step_base(s: MachineView, m1: Mode) -> (MachineView, StepOut) {
    let (ma, r1) = spec_value_of(s.mem, s.ip, 1, m1, s.base);
    match r1 {
        Err(f) => (MachineView { mem: ma, ..s }, StepOut::Faulted(f)),
        Ok(v) => {
            if s.base + v > i64::MAX || s.base + v < i64::MIN {
                (MachineView { mem: ma, ..s }, StepOut::Faulted(Fault::Overflow))
            } else if s.ip + 2 > i64::MAX {
                (
                    MachineView { mem: ma, base: (s.base + v) as i64, ..s },
                    StepOut::Faulted(Fault::Overflow),
                )
            } else {
                (
                    MachineView {
                        mem: ma,
                        base: (s.base + v) as i64,
                        ip: (s.ip + 2) as i64,
                        ..s
                    },
                    StepOut::Continue,
                )
            }
        },
    }
}

pub open spec fn spec_step_jump(s: MachineView, on_true: bool, m1: Mode, m2: Mode) -> (
    MachineView,
    StepOut,
) {
    let (ma, r1) = spec_value_of(s.mem, s.ip, 1, m1, s.base);
    match r1 {
        Err(f) => (MachineView { mem: ma, ..s }, StepOut::Faulted(f)),
        Ok(v1) => {
            let (mb, r2) = spec_value_of(ma, s.ip, 2, m2, s.base);
            match r2 {
                Err(f) => (MachineView { mem: mb, ..s }, StepOut::Faulted(f)),
                Ok(v2) => {
                    let taken = if on_true {
                        v1 != 0
                    } else {
                        v1 == 0
                    };
                    if taken {
                        (MachineView { mem: mb, ip: v2, ..s }, StepOut::Continue)
                    } else if s.ip + 3 > i64::MAX {
                        (MachineView { mem: mb, ..s }, StepOut::Faulted(Fault::Overflow))
                    } else {
                        (
                            MachineView { mem: mb, ip: (s.ip + 3) as i64, ..s },
                            StepOut::Continue,
                        )
                    }
                },
            }
        },
    }
}

/// One instruction of the machine: decode at the instruction pointer,
/// resolve the parameters, perform the effect.
#[verifier::opaque]
pub open spec fn spec_step(s: MachineView) -> (MachineView, StepOut) {
    let raw = mem_read(s.mem, s.ip);
    let s0 = MachineView { mem: mem_touch(s.mem, s.ip), ..s };
    match spec_decode(raw) {
        None => (s0, StepOut::Faulted(Fault::Decode)),
        Some((op, m1, m2, m3)) => match op {
            OpCode::Stop => spec_step_stop(s0),
            OpCode::Add => spec_step_arith(s0, true, m1, m2, m3),
            OpCode::Multiply => spec_step_arith(s0, false, m1, m2, m3),
            OpCode::LessThan => spec_step_cmp(s0, true, m1, m2, m3),
            OpCode::Equals => spec_step_cmp(s0, false, m1, m2, m3),
            OpCode::Store => spec_step_store(s0, m1),
            OpCode::Output => spec_step_output(s0, m1),
            OpCode::Base => spec_step_base(s0, m1),
            OpCode::JumpIfTrue => spec_step_jump(s0, true, m1, m2),
            OpCode::JumpIfFalse => spec_step_jump(s0, false, m1, m2),
        },
    }
}

/// The configuration after `n` instructions from `s`, with the outcome of
/// the last of them.  Once the outcome is not `Continue` the pair is frozen:
/// further steps leave it unchanged.
pub open spec fn run_n(s: MachineView, n: nat) -> (MachineView, StepOut)
    decreases n,
{
    if n == 0 {
        (s, StepOut::Continue)
    } else {
        let (s1, o1) = run_n(s, (n - 1) as nat);
        if o1 == StepOut::Continue {
            spec_step(s1)
        } else {
            (s1, o1)
        }
    }
}

/// The configuration a call of `run` starts from: the caller's machine with
/// the run state forced back to `Started`.
pub open spec fn spec_begun(s: MachineView) -> MachineView {
    MachineView { state: State::Started, ..s }
}

/// The machine executes from `s0` until it halts in configuration `sf`.
pub open spec fn machine_halts_to(s0: MachineView, sf: MachineView) -> bool {
    exists|k: nat| run_n(s0, k) == (sf, StepOut::Halted)
}

/// The machine executes from `s0` until it pauses (after an output, with
/// the resume policy enabled) in configuration `sf`.
pub open spec fn machine_pauses_to(s0: MachineView, sf: MachineView) -> bool {
    exists|k: nat| run_n(s0, k) == (sf, StepOut::Paused)
}

proof fn lemma_arith_outcome(s: MachineView, is_add: bool, m1: Mode, m2: Mode, m3: Mode)
    ensures
        ({
            let (s1, o) = spec_step_arith(s, is_add, m1, m2, m3);
            &&& o != StepOut::Halted
            &&& o != StepOut::Paused
            &&& o != StepOut::Faulted(Fault::StepLimit)
        }),
{
}

proof fn lemma_cmp_outcome(s: MachineView, is_less: bool, m1: Mode, m2: Mode, m3: Mode)
    ensures
        ({
            let (s1, o) = spec_step_cmp(s, is_less, m1, m2, m3);
            &&& o != StepOut::Halted
            &&& o != StepOut::Paused
            &&& o != StepOut::Faulted(Fault::StepLimit)
        }),
{
}

proof fn lemma_store_outcome(s: MachineView, m1: Mode)
    ensures
        ({
            let (s1, o) = spec_step_store(s, m1);
            &&& o != StepOut::Halted
            &&& o != StepOut::Paused
            &&& o != StepOut::Faulted(Fault::StepLimit)
        }),
{
}

proof fn lemma_output_outcome(s: MachineView, m1: Mode)
    ensures
        ({
            let (s1, o) = spec_step_output(s, m1);
            &&& o != StepOut::Halted
            &&& o != StepOut::Faulted(Fault::StepLimit)
            &&& (o == StepOut::Paused ==> s1.state == State::Paused)
        }),
{
}

proof fn lemma_base_outcome(s: MachineView, m1: Mode)
    ensures
        ({
            let (s1, o) = spec_step_base(s, m1);
            &&& o != StepOut::Halted
            &&& o != StepOut::Paused
            &&& o != StepOut::Faulted(Fault::StepLimit)
        }),
{
}

proof fn lemma_jump_outcome(s: MachineView, on_true: bool, m1: Mode, m2: Mode)
    ensures
        ({
            let (s1, o) = spec_step_jump(s, on_true, m1, m2);
            &&& o != StepOut::Halted
            &&& o != StepOut::Paused
            &&& o != StepOut::Faulted(Fault::StepLimit)
        }),
{
}

/// One step relates its outcome to the machine's run state: a halt leaves
/// the machine `Stopped`, a pause leaves it `Paused`, and no step reports
/// the step-budget fault.
pub proof fn lemma_step_outcome_state(s: MachineView)
    ensures
        spec_step(s).1 == StepOut::Halted ==> spec_step(s).0.state == State::Stopped,
        spec_step(s).1 == StepOut::Paused ==> spec_step(s).0.state == State::Paused,
        spec_step(s).1 != StepOut::Faulted(Fault::StepLimit),
{
    reveal(spec_step);
    let raw = mem_read(s.mem, s.ip);
    let s0 = MachineView { mem: mem_touch(s.mem, s.ip), ..s };
    match spec_decode(raw) {
        None => {},
        Some(d) => {
            let (op, m1, m2, m3) = d;
            match op {
                OpCode::Stop => {},
                OpCode::Add => lemma_arith_outcome(s0, true, m1, m2, m3),
                OpCode::Multiply => lemma_arith_outcome(s0, false, m1, m2, m3),
                OpCode::LessThan => lemma_cmp_outcome(s0, true, m1, m2, m3),
                OpCode::Equals => lemma_cmp_outcome(s0, false, m1, m2, m3),
                OpCode::Store => lemma_store_outcome(s0, m1),
                OpCode::Output => lemma_output_outcome(s0, m1),
                OpCode::Base => lemma_base_outcome(s0, m1),
                OpCode::JumpIfTrue => lemma_jump_outcome(s0, true, m1, m2),
                OpCode::JumpIfFalse => lemma_jump_outcome(s0, false, m1, m2),
            }
        },
    }
}

/// The machine executes from `s0` until fault `f` aborts it in
/// configuration `sf`.
pub open spec fn machine_faults_to(s0: MachineView, sf: MachineView, f: Fault) -> bool {
    exists|k: nat| run_n(s0, k) == (sf, StepOut::Faulted(f))
}

fn mode_of_digit(d: u64) -> (r: Option<Mode>)
    ensures
        r == spec_mode_of_digit(d as int),
{
    match d {
        0u64 => Some(Mode::Positional),
        1u64 => Some(Mode::Immediate),
        2u64 => Some(Mode::Relative),
        _ => None,
    }
}

/// Sparse address-to-value store over the signed 64-bit domain.  Any address
/// never written is logically zero; reading such an address materializes it
/// as zero, which is observable when the full contents are inspected.
#[derive(Debug)]
pub struct Memory {
    map: HashMap<i64, i64>,
}

/// The value stored at `address`, with unmapped addresses logically zero.
pub open spec fn mem_read(m: Map<i64, i64>, address: i64) -> i64 {
    if m.contains_key(address) {
        m[address]
    } else {
        0
    }
}

/// The store after a read of `address` has materialized it.
pub open spec fn mem_touch(m: Map<i64, i64>, address: i64) -> Map<i64, i64> {
    if m.contains_key(address) {
        m
    } else {
        m.insert(address, 0)
    }
}

impl View for Memory {
    type V = Map<i64, i64>;

    closed spec fn view(&self) -> Map<i64, i64> {
        self.map@
    }
}

impl Clone for Memory {
    fn clone(&self) -> (r: Self)
        ensures
            r@ == self@,
    {
        Memory { map: self.map.clone() }
    }
}

impl Memory {
    /// An empty store: every address is unmapped, hence logically zero.
    pub fn new() -> (r: Memory)
        ensures
            r@ == Map::<i64, i64>::empty(),
    {
        Memory { map: HashMap::new() }
    }

    /// Reads `address`, materializing it as zero if it was unmapped.
    pub fn read(&mut self, address: i64) -> (value: i64)
        ensures
            value == mem_read(old(self)@, address),
            final(self)@ == mem_touch(old(self)@, address),
    {
        match self.map.get(&address) {
            Some(v) => *v,
            None => {
                self.map.insert(address, 0);
                0
            },
        }
    }

    /// Writes `value` at `address`, creating the address if absent.
    pub fn write(&mut self, address: i64, value: i64)
        ensures
            final(self)@ == old(self)@.insert(address, value),
    {
        self.map.insert(address, value);
    }

    /// The value at `address` without materializing it.
    pub fn lookup(&self, address: i64) -> (r: Option<i64>)
        ensures
            r == (if self@.contains_key(address) {
                Some(self@[address])
            } else {
                None::<i64>
            }),
    {
        match self.map.get(&address) {
            Some(v) => Some(*v),
            None => None,
        }
    }

    /// How many addresses are materialized.
    pub fn len(&self) -> (r: usize)
        ensures
            r == self@.len(),
    {
        self.map.len()
    }
}

/// The memory contents seeded by a program: address `a` holds the `a`-th
/// program value, for `0 <= a < len`, and nothing else is mapped.
pub open spec fn program_map(p: Seq<i64>) -> Map<i64, i64> {
    Map::new(|a: i64| 0 <= a < p.len(), |a: i64| p[a as int])
}

/// The configuration of a freshly constructed machine: memory seeded from
/// the program, pointer and base zero, queues empty, resume policy disabled.
pub open spec fn spec_new_machine(p: Seq<i64>) -> MachineView {
    MachineView {
        mem: program_map(p),
        ip: 0,
        base: 0,
        input: Seq::empty(),
        output: Seq::empty(),
        resume: false,
        state: State::Started,
    }
}

/// The machine: owns its memory, instruction pointer, relative base, input
/// queue, output log, resume policy and run state, and exposes a single
/// re-entrant `run` operation.
#[derive(Debug)]
pub struct Computer {
    memory: Memory,
    output_buffer: Vec<i64>,
    input_data: VecDeque<i64>,
    pub resume_mode: ResumeMode,
    pub state: State,
    pub instruction_cursor: i64,
    base: i64,
}

impl View for Computer {
    type V = MachineView;

    closed spec fn view(&self) -> MachineView {
        MachineView {
            mem: self.memory@,
            ip: self.instruction_cursor,
            base: self.base,
            input: self.input_data@,
            output: self.output_buffer@,
            resume: self.resume_mode is Enable,
            state: self.state,
        }
    }
}

/// Value-of-parameter resolution on the live store; mirrors `spec_value_of`.
fn resolve_value(mem: &mut Memory, ip: i64, off: i64, mode: Mode, base: i64) -> (r: Result<
    i64,
    Fault,
>)
    requires
        1 <= off <= 3,
    ensures
        ({
            let (sm, sr) = spec_value_of(old(mem)@, ip, off as int, mode, base);
            final(mem)@ == sm && r == sr
        }),
{
    let pa = match ip.checked_add(off) {
        Some(p) => p,
        None => {
            return Err(Fault::Overflow);
        },
    };
    let pv = mem.read(pa);
    match mode {
        Mode::Immediate => Ok(pv),
        Mode::Positional => {
            if pv < 0 {
                Err(Fault::NegativeAddress)
            } else {
                Ok(mem.read(pv))
            }
        },
        Mode::Relative => {
            match pv.checked_add(base) {
                None => Err(Fault::Overflow),
                Some(ta) => {
                    if ta < 0 {
                        Err(Fault::NegativeAddress)
                    } else {
                        Ok(mem.read(ta))
                    }
                },
            }
        },
    }
}

/// Address-of-parameter resolution on the live store; mirrors `spec_addr_of`.
fn resolve_addr(mem: &mut Memory, ip: i64, off: i64, mode: Mode, base: i64) -> (r: Result<
    i64,
    Fault,
>)
    requires
        1 <= off <= 3,
    ensures
        ({
            let (sm, sr) = spec_addr_of(old(mem)@, ip, off as int, mode, base);
            final(mem)@ == sm && r == sr
        }),
{
    let pa = match ip.checked_add(off) {
        Some(p) => p,
        None => {
            return Err(Fault::Overflow);
        },
    };
    let pv = mem.read(pa);
    match mode {
        Mode::Immediate | Mode::Positional => {
            if pv < 0 {
                Err(Fault::NegativeAddress)
            } else {
                Ok(pv)
            }
        },
        Mode::Relative => {
            match pv.checked_add(base) {
                None => Err(Fault::Overflow),
                Some(ta) => {
                    if ta < 0 {
                        Err(Fault::NegativeAddress)
                    } else {
                        Ok(ta)
                    }
                },
            }
        },
    }
}

/// A fresh copy of an output log.
fn copy_output(v: &Vec<i64>) -> (r: Vec<i64>)
    ensures
        r@ == v@,
{
    let mut r: Vec<i64> = Vec::new();
    let mut i: usize = 0;
    while i < v.len()
        invariant
            i <= v.len(),
            r@ == v@.take(i as int),
        decreases v.len() - i,
    {
        r.push(v[i]);
        i = i + 1;
        proof {
            assert(v@.take(i as int) == v@.take(i - 1).push(v@[i - 1]));
        }
    }
    proof {
        assert(v@.take(v@.len() as int) == v@);
    }
    r
}

impl Computer {
    /// A machine over the given program: memory seeded at addresses
    /// `0..program.len()`, pointer and base zero, empty queues, resume
    /// policy disabled, state `Started`.
    pub fn new(program: Vec<i64>) -> (r: Computer)
        requires
            program@.len() <= i64::MAX,
        ensures
            r@ == spec_new_machine(program@),
    {
        let mut memory = Memory::new();
        let mut i: usize = 0;
        while i < program.len()
            invariant
                i <= program.len(),
                program.len() <= i64::MAX,
                memory@ == program_map(program@.take(i as int)),
            decreases program.len() - i,
        {
            memory.write(i as i64, program[i]);
            i = i + 1;
            proof {
                assert(memory@ =~= program_map(program@.take(i as int)));
            }
        }
        proof {
            assert(program@.take(program@.len() as int) == program@);
        }
        let r = Computer {
            memory,
            output_buffer: Vec::new(),
            input_data: VecDeque::new(),
            resume_mode: ResumeMode::Disable,
            state: State::Started,
            instruction_cursor: 0,
            base: 0,
        };
        proof {
            assert(r@ == spec_new_machine(program@));
        }
        r
    }

    /// Sets whether the machine pauses after each output value.
    pub fn set_resume_mode(&mut self, mode: ResumeMode)
        ensures
            final(self)@ == (MachineView { resume: mode is Enable, ..old(self)@ }),
    {
        self.resume_mode = mode;
    }

    /// Whether the machine has run at least once (it is paused or stopped).
    pub fn is_setup(&self) -> (r: bool)
        ensures
            r == (self@.state != State::Started),
    {
        match self.state {
            State::Started => false,
            State::Paused | State::Stopped => true,
        }
    }

    /// The observable run state, for pipeline orchestration.
    pub fn state(&self) -> (r: State)
        ensures
            r == self@.state,
    {
        self.state
    }

    /// Appends a value to the FIFO input queue.
    pub fn add_input(&mut self, input: i64)
        ensures
            final(self)@ == (MachineView { input: old(self)@.input.push(input), ..old(self)@ }),
    {
        self.input_data.push_back(input);
    }

    /// Executes exactly one instruction, returning its outcome.
    fn step_once(&mut self) -> (o: StepOut)
        ensures
            spec_step(old(self)@) == (final(self)@, o),
    {
        proof {
            reveal(spec_step);
        }
        let raw = self.memory.read(self.instruction_cursor);
        let (op, md1, md2, md3) = match decode(raw) {
            Ok(d) => d,
            Err(f) => {
                return StepOut::Faulted(f);
            },
        };
        match op {
            OpCode::Stop => {
                match self.instruction_cursor.checked_add(1) {
                    Some(ip2) => {
                        self.instruction_cursor = ip2;
                        self.state = State::Stopped;
                        StepOut::Halted
                    },
                    None => StepOut::Faulted(Fault::Overflow),
                }
            },
            OpCode::Add | OpCode::Multiply => {
                let is_add = match op {
                    OpCode::Add => true,
                    _ => false,
                };
                self.step_arith(is_add, md1, md2, md3)
            },
            OpCode::LessThan | OpCode::Equals => {
                let is_less = match op {
                    OpCode::LessThan => true,
                    _ => false,
                };
                self.step_cmp(is_less, md1, md2, md3)
            },
            OpCode::Store => self.step_store(md1),
            OpCode::Output => self.step_output(md1),
            OpCode::Base => self.step_base(md1),
            OpCode::JumpIfTrue | OpCode::JumpIfFalse => {
                let on_true = match op {
                    OpCode::JumpIfTrue => true,
                    _ => false,
                };
                self.step_jump(on_true, md1, md2)
            },
        }
    }

    fn step_arith(&mut self, is_add: bool, md1: Mode, md2: Mode, md3: Mode) -> (o: StepOut)
        ensures
            spec_step_arith(old(self)@, is_add, md1, md2, md3) == (final(self)@, o),
    {
        let v1 = match resolve_value(&mut self.memory, self.instruction_cursor, 1, md1, self.base) {
            Ok(v) => v,
            Err(f) => {
                return StepOut::Faulted(f);
            },
        };
        let v2 = match resolve_value(&mut self.memory, self.instruction_cursor, 2, md2, self.base) {
            Ok(v) => v,
            Err(f) => {
                return StepOut::Faulted(f);
            },
        };
        let dst = match resolve_addr(&mut self.memory, self.instruction_cursor, 3, md3, self.base) {
            Ok(a) => a,
            Err(f) => {
                return StepOut::Faulted(f);
            },
        };
        let res = if is_add {
            v1.checked_add(v2)
        } else {
            v1.checked_mul(v2)
        };
        let res = match res {
            Some(x) => x,
            None => {
                return StepOut::Faulted(Fault::Overflow);
            },
        };
        self.memory.write(dst, res);
        match self.instruction_cursor.checked_add(4) {
            Some(ip2) => {
                self.instruction_cursor = ip2;
                StepOut::Continue
            },
            None => StepOut::Faulted(Fault::Overflow),
        }
    }

    fn step_cmp(&mut self, is_less: bool, md1: Mode, md2: Mode, md3: Mode) -> (o: StepOut)
        ensures
            spec_step_cmp(old(self)@, is_less, md1, md2, md3) == (final(self)@, o),
    {
        let v1 = match resolve_value(&mut self.memory, self.instruction_cursor, 1, md1, self.base) {
            Ok(v) => v,
            Err(f) => {
                return StepOut::Faulted(f);
            },
        };
        let v2 = match resolve_value(&mut self.memory, self.instruction_cursor, 2, md2, self.base) {
            Ok(v) => v,
            Err(f) => {
                return StepOut::Faulted(f);
            },
        };
        let dst = match resolve_addr(&mut self.memory, self.instruction_cursor, 3, md3, self.base) {
            Ok(a) => a,
            Err(f) => {
                return StepOut::Faulted(f);
            },
        };
        let hit = if is_less {
            v1 < v2
        } else {
            v1 == v2
        };
        let res: i64 = if hit {
            1
        } else {
            0
        };
        self.memory.write(dst, res);
        match self.instruction_cursor.checked_add(4) {
            Some(ip2) => {
                self.instruction_cursor = ip2;
                StepOut::Continue
            },
            None => StepOut::Faulted(Fault::Overflow),
        }
    }

    fn step_store(&mut self, md1: Mode) -> (o: StepOut)
        ensures
            spec_step_store(old(self)@, md1) == (final(self)@, o),
    {
        let dst = match resolve_addr(&mut self.memory, self.instruction_cursor, 1, md1, self.base) {
            Ok(a) => a,
            Err(f) => {
                return StepOut::Faulted(f);
            },
        };
        let data = match self.input_data.pop_front() {
            Some(d) => d,
            None => {
                return StepOut::Faulted(Fault::InputExhausted);
            },
        };
        self.memory.write(dst, data);
        match self.instruction_cursor.checked_add(2) {
            Some(ip2) => {
                self.instruction_cursor = ip2;
                StepOut::Continue
            },
            None => StepOut::Faulted(Fault::Overflow),
        }
    }

    fn step_output(&mut self, md1: Mode) -> (o: StepOut)
        ensures
            spec_step_output(old(self)@, md1) == (final(self)@, o),
    {
        let v = match resolve_value(&mut self.memory, self.instruction_cursor, 1, md1, self.base) {
            Ok(v) => v,
            Err(f) => {
                return StepOut::Faulted(f);
            },
        };
        self.output_buffer.push(v);
        match self.instruction_cursor.checked_add(2) {
            Some(ip2) => {
                self.instruction_cursor = ip2;
                match self.resume_mode {
                    ResumeMode::Enable => {
                        self.state = State::Paused;
                        StepOut::Paused
                    },
                    ResumeMode::Disable => StepOut::Continue,
                }
            },
            None => StepOut::Faulted(Fault::Overflow),
        }
    }

    fn step_base(&mut self, md1: Mode) -> (o: StepOut)
        ensures
            spec_step_base(old(self)@, md1) == (final(self)@, o),
    {
        let v = match resolve_value(&mut self.memory, self.instruction_cursor, 1, md1, self.base) {
            Ok(v) => v,
            Err(f) => {
                return StepOut::Faulted(f);
            },
        };
        let nb = match self.base.checked_add(v) {
            Some(b) => b,
            None => {
                return StepOut::Faulted(Fault::Overflow);
            },
        };
        self.base = nb;
        match self.instruction_cursor.checked_add(2) {
            Some(ip2) => {
                self.instruction_cursor = ip2;
                StepOut::Continue
            },
            None => StepOut::Faulted(Fault::Overflow),
        }
    }

    fn step_jump(&mut self, on_true: bool, md1: Mode, md2: Mode) -> (o: StepOut)
        ensures
            spec_step_jump(old(self)@, on_true, md1, md2) == (final(self)@, o),
    {
        let v1 = match resolve_value(&mut self.memory, self.instruction_cursor, 1, md1, self.base) {
            Ok(v) => v,
            Err(f) => {
                return StepOut::Faulted(f);
            },
        };
        let v2 = match resolve_value(&mut self.memory, self.instruction_cursor, 2, md2, self.base) {
            Ok(v) => v,
            Err(f) => {
                return StepOut::Faulted(f);
            },
        };
        let taken = if on_true {
            v1 != 0
        } else {
            v1 == 0
        };
        if taken {
            self.instruction_cursor = v2;
            StepOut::Continue
        } else {
            match self.instruction_cursor.checked_add(3) {
                Some(ip2) => {
                    self.instruction_cursor = ip2;
                    StepOut::Continue
                },
                None => StepOut::Faulted(Fault::Overflow),
            }
        }
    }

    /// Executes instructions until the halt instruction (state `Stopped`),
    /// or, with the resume policy enabled, until just after an output value
    /// (state `Paused`), returning a snapshot of the memory and of the full
    /// output log; or aborts on the first fault.  A `Paused` machine resumes
    /// exactly where it left off on the next call.  A fault is unrecoverable:
    /// the machine is left as the faulting instruction left it, and running
    /// it again is a caller error, as with a `Stopped` machine.
    #[verifier::rlimit(50)]
    #[verifier::spinoff_prover]
    pub fn run(&mut self) -> (r: Result<(Memory, Vec<i64>), Fault>)
        requires
            old(self)@.state != State::Stopped,
        ensures
            match r {
                Ok((mem_snap, out_snap)) => {
                    &&& mem_snap@ == final(self)@.mem
                    &&& out_snap@ == final(self)@.output
                    &&& (final(self)@.state == State::Stopped || final(self)@.state
                        == State::Paused)
                    &&& (final(self)@.state == State::Stopped ==> machine_halts_to(
                        spec_begun(old(self)@),
                        final(self)@,
                    ))
                    &&& (final(self)@.state == State::Paused ==> machine_pauses_to(
                        spec_begun(old(self)@),
                        final(self)@,
                    ))
                },
                Err(f) => {
                    if f == Fault::StepLimit {
                        run_n(spec_begun(old(self)@), u64::MAX as nat) == (
                            final(self)@,
                            StepOut::Continue,
                        )
                    } else {
                        machine_faults_to(spec_begun(old(self)@), final(self)@, f)
                    }
                },
            },
    {
        self.state = State::Started;
        let ghost s0 = self@;
        proof {
            assert(s0 == spec_begun(old(self)@));
        }
        let ghost mut n: nat = 0;
        let mut fuel: u64 = u64::MAX;
        loop
            invariant
                s0 == spec_begun(old(self)@),
                run_n(s0, n) == (self@, StepOut::Continue),
                n + fuel == u64::MAX,
            decreases fuel,
        {
            if fuel == 0 {
                proof {
                    assert(n == u64::MAX);
                    assert(run_n(s0, u64::MAX as nat) == (self@, StepOut::Continue));
                }
                return Err(Fault::StepLimit);
            }
            fuel = fuel - 1;
            let ghost pre = self@;
            let o = self.step_once();
            proof {
                n = n + 1;
                lemma_step_outcome_state(pre);
                assert(run_n(s0, n) == spec_step(pre));
            }
            match o {
                StepOut::Continue => {},
                StepOut::Halted => {
                    proof {
                        assert(run_n(s0, n) == (self@, StepOut::Halted));
                        assert(machine_halts_to(s0, self@));
                        assert(self@.state == State::Stopped);
                    }
                    let mem_snap = self.memory.clone();
                    let out_snap = copy_output(&self.output_buffer);
                    return Ok((mem_snap, out_snap));
                },
                StepOut::Paused => {
                    proof {
                        assert(run_n(s0, n) == (self@, StepOut::Paused));
                        assert(machine_pauses_to(s0, self@));
                        assert(self@.state == State::Paused);
                    }
                    let mem_snap = self.memory.clone();
                    let out_snap = copy_output(&self.output_buffer);
                    return Ok((mem_snap, out_snap));
                },
                StepOut::Faulted(f) => {
                    proof {
                        assert(run_n(s0, n) == (self@, StepOut::Faulted(f)));
                        assert(machine_faults_to(s0, self@, f));
                        assert(f != Fault::StepLimit);
                    }
                    return Err(f);
                },
            }
        }
    }

}

/// The number of cells one instruction occupies: the pointer increment when
/// no jump is taken.
pub open spec fn spec_increment(op: OpCode) -> int {
    match op {
        OpCode::Add | OpCode::Multiply | OpCode::LessThan | OpCode::Equals => 4,
        OpCode::Store | OpCode::Output | OpCode::Base => 2,
        OpCode::JumpIfTrue | OpCode::JumpIfFalse => 3,
        OpCode::Stop => 0,
    }
}

/// The opcode named by a two-character code string, as written in program
/// listings.
pub open spec fn spec_opcode_str(s: Seq<char>) -> Option<OpCode> {
    if s == "01"@ {
        Some(OpCode::Add)
    } else if s == "02"@ {
        Some(OpCode::Multiply)
    } else if s == "03"@ {
        Some(OpCode::Store)
    } else if s == "04"@ {
        Some(OpCode::Output)
    } else if s == "05"@ {
        Some(OpCode::JumpIfTrue)
    } else if s == "06"@ {
        Some(OpCode::JumpIfFalse)
    } else if s == "07"@ {
        Some(OpCode::LessThan)
    } else if s == "08"@ {
        Some(OpCode::Equals)
    } else if s == "09"@ {
        Some(OpCode::Base)
    } else if s == "99"@ {
        Some(OpCode::Stop)
    } else {
        None
    }
}

/// The addressing mode named by one digit character.
pub open spec fn spec_mode_char(c: char) -> Option<Mode> {
    if c == '0' {
        Some(Mode::Positional)
    } else if c == '1' {
        Some(Mode::Immediate)
    } else if c == '2' {
        Some(Mode::Relative)
    } else {
        None
    }
}

fn mode_char(c: char) -> (r: Option<Mode>)
    ensures
        r == spec_mode_char(c),
{
    match c {
        '0' => Some(Mode::Positional),
        '1' => Some(Mode::Immediate),
        '2' => Some(Mode::Relative),
        _ => None,
    }
}

impl OpCode {
    /// How far the instruction pointer advances past this instruction when
    /// no jump is taken.
    pub fn get_increment(opcode: OpCode) -> (r: i64)
        ensures
            r == spec_increment(opcode),
    {
        match opcode {
            OpCode::Add | OpCode::Multiply | OpCode::LessThan | OpCode::Equals => 4,
            OpCode::Store | OpCode::Output | OpCode::Base => 2,
            OpCode::JumpIfTrue | OpCode::JumpIfFalse => 3,
            OpCode::Stop => 0,
        }
    }

    /// The opcode named by its two-character code string.
    pub fn from_str(string: String) -> (r: OpCode)
        requires
            spec_opcode_str(string@) is Some,
        ensures
            Some(r) == spec_opcode_str(string@),
    {
        proof {
            reveal_strlit("01");
            reveal_strlit("02");
            reveal_strlit("03");
            reveal_strlit("04");
            reveal_strlit("05");
            reveal_strlit("06");
            reveal_strlit("07");
            reveal_strlit("08");
            reveal_strlit("09");
            reveal_strlit("99");
        }
        let st = string.as_str();
        let c0 = st.get_char(0);
        let c1 = st.get_char(1);
        match (c0, c1) {
            ('0', '1') => OpCode::Add,
            ('0', '2') => OpCode::Multiply,
            ('0', '3') => OpCode::Store,
            ('0', '4') => OpCode::Output,
            ('0', '5') => OpCode::JumpIfTrue,
            ('0', '6') => OpCode::JumpIfFalse,
            ('0', '7') => OpCode::LessThan,
            ('0', '8') => OpCode::Equals,
            ('0', '9') => OpCode::Base,
            ('9', '9') => OpCode::Stop,
            _ => unreached(),
        }
    }

    /// The opcode with the given numeric value.
    pub fn from(x: u32) -> (r: OpCode)
        requires
            spec_opcode_of_num(x as int) is Some,
        ensures
            Some(r) == spec_opcode_of_num(x as int),
    {
        match x {
            1u32 => OpCode::Add,
            2u32 => OpCode::Multiply,
            3u32 => OpCode::Store,
            4u32 => OpCode::Output,
            5u32 => OpCode::JumpIfTrue,
            6u32 => OpCode::JumpIfFalse,
            7u32 => OpCode::LessThan,
            8u32 => OpCode::Equals,
            9u32 => OpCode::Base,
            99u32 => OpCode::Stop,
            _ => unreached(),
        }
    }

    /// Splits an instruction word into the modes of its three parameters
    /// and its opcode.
    pub fn get_opcode_and_modes_from_str(string: i64) -> (r: (Parameter, OpCode))
        requires
            spec_decode(string) is Some,
        ensures
            ({
                let (op, m1, m2, m3) = spec_decode(string)->Some_0;
                r == (
                    Parameter { first_operand: m1, second_operand: m2, result_address: m3 },
                    op,
                )
            }),
    {
        match decode(string) {
            Ok((op, m1, m2, m3)) => (
                Parameter { first_operand: m1, second_operand: m2, result_address: m3 },
                op,
            ),
            Err(_) => unreached(),
        }
    }
}

impl Parameter {
    /// The three addressing modes named by the last three characters of a
    /// mode string, least-significant (first parameter) last.
    pub fn from_str(string: String) -> (r: Parameter)
        requires
            string@.len() >= 3,
            spec_mode_char(string@[string@.len() - 1]) is Some,
            spec_mode_char(string@[string@.len() - 2]) is Some,
            spec_mode_char(string@[string@.len() - 3]) is Some,
        ensures
            Some(r.first_operand) == spec_mode_char(string@[string@.len() - 1]),
            Some(r.second_operand) == spec_mode_char(string@[string@.len() - 2]),
            Some(r.result_address) == spec_mode_char(string@[string@.len() - 3]),
    {
        let st = string.as_str();
        let n = st.unicode_len();
        let first = match mode_char(st.get_char(n - 1)) {
            Some(m) => m,
            None => unreached(),
        };
        let second = match mode_char(st.get_char(n - 2)) {
            Some(m) => m,
            None => unreached(),
        };
        let result_address = match mode_char(st.get_char(n - 3)) {
            Some(m) => m,
            None => unreached(),
        };
        Parameter { first_operand: first, second_operand: second, result_address }
    }
}

/// A machine loaded with `program`, holding `input` in its queue, with the
/// given resume policy, before its first run.
pub open spec fn spec_loaded(program: Seq<i64>, input: Seq<i64>, resume: bool) -> MachineView {
    MachineView { input: input, resume: resume, ..spec_new_machine(program) }
}

/// The queue contents of an optional input queue.
pub open spec fn spec_input_view(input: Option<VecDeque<i64>>) -> Seq<i64> {
    match input {
        None => Seq::empty(),
        Some(q) => q@,
    }
}

/// The machine from `s0` is still mid-run after the largest unsigned
/// 64-bit number of instructions: the whole step budget of one `run` call
/// was truly spent.
pub open spec fn machine_exceeds_budget(s0: MachineView) -> bool {
    run_n(s0, u64::MAX as nat).1 == StepOut::Continue
}

/// Builds a machine over `memory`, feeds it the whole `input`, and runs it
/// to completion, returning the final memory and output log.
pub fn computer(memory: Vec<i64>, input: Option<VecDeque<i64>>) -> (r: Result<
    (Memory, Vec<i64>),
    Fault,
>)
    requires
        memory@.len() <= i64::MAX,
    ensures
        ({
            let start = spec_loaded(memory@, spec_input_view(input), false);
            match r {
                Ok((mem_snap, out_snap)) => exists|sf: MachineView|
                    {
                        &&& #[trigger] machine_halts_to(start, sf)
                        &&& mem_snap@ == sf.mem
                        &&& out_snap@ == sf.output
                    },
                Err(f) => {
                    if f == Fault::StepLimit {
                        machine_exceeds_budget(start)
                    } else {
                        exists|sf: MachineView| machine_faults_to(start, sf, f)
                    }
                },
            }
        }),
{
    let mut machine = Computer::new(memory);
    match input {
        None => {},
        Some(q) => {
            machine.input_data = q;
        },
    }
    let r = machine.run();
    proof {
        let start = spec_loaded(memory@, spec_input_view(input), false);
        let sf = machine@;
        assert(spec_begun(start) == start);
        match &r {
            Ok(p) => {
                assert(p.0@ == sf.mem && p.1@ == sf.output);
                if machine@.state == State::Paused {
                    lemma_no_pause_without_resume(start, sf);
                }
                assert(machine_halts_to(start, sf));
            },
            Err(f) => {
                if *f == Fault::StepLimit {
                    assert(machine_exceeds_budget(start));
                } else {
                    assert(machine_faults_to(start, sf, *f));
                }
            },
        }
    }
    r
}

/// As `computer`, but with the resume policy enabled: the run returns at
/// the first output value, leaving the machine behind.
pub fn computer_feedback(memory: Vec<i64>, input: Option<VecDeque<i64>>) -> (r: Result<
    (Memory, Vec<i64>),
    Fault,
>)
    requires
        memory@.len() <= i64::MAX,
    ensures
        ({
            let start = spec_loaded(memory@, spec_input_view(input), true);
            match r {
                Ok((mem_snap, out_snap)) => exists|sf: MachineView|
                    {
                        &&& (machine_halts_to(start, sf) || machine_pauses_to(start, sf))
                        &&& mem_snap@ == sf.mem
                        &&& out_snap@ == sf.output
                    },
                Err(f) => {
                    if f == Fault::StepLimit {
                        machine_exceeds_budget(start)
                    } else {
                        exists|sf: MachineView| machine_faults_to(start, sf, f)
                    }
                },
            }
        }),
{
    let mut machine = Computer::new(memory);
    machine.set_resume_mode(ResumeMode::Enable);
    match input {
        None => {},
        Some(q) => {
            machine.input_data = q;
        },
    }
    let r = machine.run();
    proof {
        let start = spec_loaded(memory@, spec_input_view(input), true);
        let sf = machine@;
        assert(spec_begun(start) == start);
        match &r {
            Ok(p) => {
                assert(p.0@ == sf.mem && p.1@ == sf.output);
                assert(machine_halts_to(start, sf) || machine_pauses_to(start, sf));
            },
            Err(f) => {
                if *f == Fault::StepLimit {
                    assert(machine_exceeds_budget(start));
                } else {
                    assert(machine_faults_to(start, sf, *f));
                }
            },
        }
    }
    r
}

/// Once a run has ended (any outcome but `Continue`), executing further
/// instructions changes nothing.
proof fn lemma_run_n_frozen(s0: MachineView, k: nat, j: nat)
    requires
        run_n(s0, k).1 != StepOut::Continue,
        k <= j,
    ensures
        run_n(s0, j) == run_n(s0, k),
    decreases j,
{
    if j > k {
        lemma_run_n_frozen(s0, k, (j - 1) as nat);
    }
}

/// A machine from one starting configuration has at most one ended
/// configuration and outcome.
pub proof fn lemma_outcome_unique(
    s0: MachineView,
    sf1: MachineView,
    o1: StepOut,
    sf2: MachineView,
    o2: StepOut,
)
    requires
        o1 != StepOut::Continue,
        o2 != StepOut::Continue,
        exists|k: nat| run_n(s0, k) == (sf1, o1),
        exists|k: nat| run_n(s0, k) == (sf2, o2),
    ensures
        sf1 == sf2,
        o1 == o2,
{
    let k1 = choose|k: nat| run_n(s0, k) == (sf1, o1);
    let k2 = choose|k: nat| run_n(s0, k) == (sf2, o2);
    if k1 <= k2 {
        lemma_run_n_frozen(s0, k1, k2);
    } else {
        lemma_run_n_frozen(s0, k2, k1);
    }
}

/// Determinism: for every program and input sequence, two runs of a freshly
/// constructed machine that reach a halt reach the same configuration, so
/// the final memory and the output log are identical.
pub proof fn lemma_determinism(
    program: Seq<i64>,
    input: Seq<i64>,
    resume: bool,
    sf1: MachineView,
    sf2: MachineView,
)
    requires
        machine_halts_to(spec_loaded(program, input, resume), sf1),
        machine_halts_to(spec_loaded(program, input, resume), sf2),
    ensures
        sf1 == sf2,
        sf1.mem == sf2.mem,
        sf1.output == sf2.output,
{
    lemma_outcome_unique(
        spec_loaded(program, input, resume),
        sf1,
        StepOut::Halted,
        sf2,
        StepOut::Halted,
    );
}

/// Two machine configurations agree on everything the computation reads:
/// memory, pointer, base and output, with the second holding `ext` more
/// queued input after the first's queue.  Run state and resume policy are
/// left free.
pub open spec fn core_match(a: MachineView, b: MachineView, ext: Seq<i64>) -> bool {
    &&& b.mem == a.mem
    &&& b.ip == a.ip
    &&& b.base == a.base
    &&& b.output == a.output
    &&& b.input == a.input + ext
}

proof fn lemma_arith_sim(a: MachineView, b: MachineView, ext: Seq<i64>, is_add: bool, m1: Mode, m2: Mode, m3: Mode)
    requires
        core_match(a, b, ext),
    ensures
        ({
            let (a1, oa) = spec_step_arith(a, is_add, m1, m2, m3);
            let (b1, ob) = spec_step_arith(b, is_add, m1, m2, m3);
            oa == ob && core_match(a1, b1, ext) && a1.resume == a.resume && b1.resume == b.resume
                && a1.state == a.state && b1.state == b.state
        }),
{
}

proof fn lemma_cmp_sim(a: MachineView, b: MachineView, ext: Seq<i64>, is_less: bool, m1: Mode, m2: Mode, m3: Mode)
    requires
        core_match(a, b, ext),
    ensures
        ({
            let (a1, oa) = spec_step_cmp(a, is_less, m1, m2, m3);
            let (b1, ob) = spec_step_cmp(b, is_less, m1, m2, m3);
            oa == ob && core_match(a1, b1, ext) && a1.resume == a.resume && b1.resume == b.resume
                && a1.state == a.state && b1.state == b.state
        }),
{
}

proof fn lemma_store_sim(a: MachineView, b: MachineView, ext: Seq<i64>, m1: Mode)
    requires
        core_match(a, b, ext),
        spec_step_store(a, m1).1 != StepOut::Faulted(Fault::InputExhausted),
    ensures
        ({
            let (a1, oa) = spec_step_store(a, m1);
            let (b1, ob) = spec_step_store(b, m1);
            oa == ob && core_match(a1, b1, ext) && a1.resume == a.resume && b1.resume == b.resume
                && a1.state == a.state && b1.state == b.state
        }),
{
    if a.input.len() > 0 {
        assert((a.input + ext)[0] == a.input[0]);
        assert((a.input + ext).drop_first() =~= a.input.drop_first() + ext);
        assert((a.input + ext).len() > 0);
    }
}

proof fn lemma_output_sim(a: MachineView, b: MachineView, ext: Seq<i64>, m1: Mode)
    requires
        core_match(a, b, ext),
        a.resume == true,
        b.resume == false,
    ensures
        ({
            let (a1, oa) = spec_step_output(a, m1);
            let (b1, ob) = spec_step_output(b, m1);
            &&& core_match(a1, b1, ext)
            &&& a1.resume == a.resume && b1.resume == b.resume
            &&& b1.state == b.state
            &&& (oa == StepOut::Paused ==> ob == StepOut::Continue)
            &&& (oa == StepOut::Continue ==> ob == StepOut::Continue)
            &&& (oa is Faulted ==> ob == oa)
            &&& oa != StepOut::Halted && ob != StepOut::Halted && ob != StepOut::Paused
        }),
{
}

proof fn lemma_base_sim(a: MachineView, b: MachineView, ext: Seq<i64>, m1: Mode)
    requires
        core_match(a, b, ext),
    ensures
        ({
            let (a1, oa) = spec_step_base(a, m1);
            let (b1, ob) = spec_step_base(b, m1);
            oa == ob && core_match(a1, b1, ext) && a1.resume == a.resume && b1.resume == b.resume
                && a1.state == a.state && b1.state == b.state
        }),
{
}

proof fn lemma_jump_sim(a: MachineView, b: MachineView, ext: Seq<i64>, on_true: bool, m1: Mode, m2: Mode)
    requires
        core_match(a, b, ext),
    ensures
        ({
            let (a1, oa) = spec_step_jump(a, on_true, m1, m2);
            let (b1, ob) = spec_step_jump(b, on_true, m1, m2);
            oa == ob && core_match(a1, b1, ext) && a1.resume == a.resume && b1.resume == b.resume
                && a1.state == a.state && b1.state == b.state
        }),
{
}

/// One step of a resumable machine, other than a fault, is mirrored by the
/// same machine with the resume policy disabled and more input queued: the
/// cores stay matched, a pause on the one side is a plain continue on the
/// other, and halting agrees.
proof fn lemma_step_sim(a: MachineView, b: MachineView, ext: Seq<i64>)
    requires
        core_match(a, b, ext),
        a.resume == true,
        b.resume == false,
        !(spec_step(a).1 is Faulted),
    ensures
        ({
            let (a1, oa) = spec_step(a);
            let (b1, ob) = spec_step(b);
            &&& core_match(a1, b1, ext)
            &&& a1.resume == true && b1.resume == false
            &&& (oa == StepOut::Continue ==> ob == StepOut::Continue)
            &&& (oa == StepOut::Paused ==> ob == StepOut::Continue)
            &&& (oa == StepOut::Halted ==> ob == StepOut::Halted)
            &&& !(ob is Faulted) && ob != StepOut::Paused
        }),
{
    reveal(spec_step);
    let raw = mem_read(a.mem, a.ip);
    let a0 = MachineView { mem: mem_touch(a.mem, a.ip), ..a };
    let b0 = MachineView { mem: mem_touch(b.mem, b.ip), ..b };
    assert(core_match(a0, b0, ext));
    match spec_decode(raw) {
        None => {},
        Some(d) => {
            let (op, m1, m2, m3) = d;
            match op {
                OpCode::Stop => {},
                OpCode::Add => lemma_arith_sim(a0, b0, ext, true, m1, m2, m3),
                OpCode::Multiply => lemma_arith_sim(a0, b0, ext, false, m1, m2, m3),
                OpCode::LessThan => lemma_cmp_sim(a0, b0, ext, true, m1, m2, m3),
                OpCode::Equals => lemma_cmp_sim(a0, b0, ext, false, m1, m2, m3),
                OpCode::Store => lemma_store_sim(a0, b0, ext, m1),
                OpCode::Output => lemma_output_sim(a0, b0, ext, m1),
                OpCode::Base => lemma_base_sim(a0, b0, ext, m1),
                OpCode::JumpIfTrue => lemma_jump_sim(a0, b0, ext, true, m1, m2),
                OpCode::JumpIfFalse => lemma_jump_sim(a0, b0, ext, false, m1, m2),
            }
        },
    }
}

/// A run of a resumable machine up to a pause or halt is mirrored,
/// step by step, by the machine with the policy disabled and more input.
proof fn lemma_run_sim(a0: MachineView, b0: MachineView, ext: Seq<i64>, k: nat)
    requires
        core_match(a0, b0, ext),
        a0.resume == true,
        b0.resume == false,
        !(run_n(a0, k).1 is Faulted),
        run_n(a0, k).1 != StepOut::Halted || run_n(a0, (k - 1) as nat).1 == StepOut::Continue
            || k == 0,
    ensures
        ({
            let (sa, oa) = run_n(a0, k);
            let (sb, ob) = run_n(b0, k);
            &&& (oa == StepOut::Continue ==> ob == StepOut::Continue && core_match(sa, sb, ext)
                && sa.resume == true && sb.resume == false)
            &&& (oa == StepOut::Paused && run_n(a0, (k - 1) as nat).1 == StepOut::Continue
                ==> ob == StepOut::Continue && core_match(sa, sb, ext) && sa.resume == true
                && sb.resume == false)
            &&& (oa == StepOut::Halted && (k == 0 || run_n(a0, (k - 1) as nat).1
                == StepOut::Continue) ==> ob == StepOut::Halted && core_match(sa, sb, ext))
        }),
    decreases k,
{
    if k > 0 {
        let (pa, poa) = run_n(a0, (k - 1) as nat);
        if poa == StepOut::Continue {
            if (k - 1) as nat == 0 {
                lemma_run_sim(a0, b0, ext, (k - 1) as nat);
            } else {
                if run_n(a0, (k - 2) as nat).1 == StepOut::Continue {
                    lemma_run_sim(a0, b0, ext, (k - 1) as nat);
                } else {
                    lemma_run_n_frozen(a0, (k - 2) as nat, (k - 1) as nat);
                }
            }
            lemma_step_sim(pa, run_n(b0, (k - 1) as nat).0, ext);
        }
    }
}

/// The input batches of a resumable session, joined in order.
pub open spec fn concat_batches(batches: Seq<Seq<i64>>) -> Seq<i64>
    decreases batches.len(),
{
    if batches.len() == 0 {
        Seq::empty()
    } else {
        batches.first() + concat_batches(batches.drop_first())
    }
}

/// A resumable session: from machine `s`, one run per pause, feeding one
/// batch of input after each pause, with the final run halting at `sf`.
pub open spec fn session_halts(s: MachineView, batches: Seq<Seq<i64>>, sf: MachineView) -> bool
    decreases batches.len(),
{
    if batches.len() == 0 {
        machine_halts_to(spec_begun(s), sf)
    } else {
        exists|mid: MachineView|
            #[trigger] machine_pauses_to(spec_begun(s), mid) && session_halts(
                MachineView { input: mid.input + batches.first(), ..mid },
                batches.drop_first(),
                sf,
            )
    }
}

proof fn lemma_session_sim(a0: MachineView, braw: MachineView, batches: Seq<Seq<i64>>, sf_a: MachineView, sf_b: MachineView)
    requires
        a0.resume == true,
        braw.resume == false,
        core_match(a0, braw, concat_batches(batches)),
        session_halts(a0, batches, sf_a),
        exists|j: nat| run_n(braw, j) == (sf_b, StepOut::Halted),
    ensures
        sf_a.mem == sf_b.mem,
        sf_a.output == sf_b.output,
    decreases batches.len(),
{
    let ga = spec_begun(a0);
    assert(core_match(ga, braw, concat_batches(batches)));
    if batches.len() == 0 {
        let k = choose|k: nat| run_n(ga, k) == (sf_a, StepOut::Halted);
        assert(concat_batches(batches) =~= Seq::<i64>::empty());
        if k > 0 && run_n(ga, (k - 1) as nat).1 != StepOut::Continue {
            lemma_run_n_frozen(ga, (k - 1) as nat, k);
            lemma_session_sim_frozen_halt(ga, braw, batches, sf_a, sf_b, (k - 1) as nat);
        } else {
            lemma_run_sim(ga, braw, concat_batches(batches), k);
            let (sb, ob) = run_n(braw, k);
            assert(ob == StepOut::Halted && core_match(sf_a, sb, concat_batches(batches)));
            lemma_outcome_unique(braw, sb, StepOut::Halted, sf_b, StepOut::Halted);
            assert(sf_a.input + concat_batches(batches) == sb.input);
            assert(sf_a.input =~= sf_a.input + Seq::<i64>::empty());
        }
    } else {
        let mid = choose|mid: MachineView|
            #[trigger] machine_pauses_to(spec_begun(a0), mid) && session_halts(
                MachineView { input: mid.input + batches.first(), ..mid },
                batches.drop_first(),
                sf_a,
            );
        let k = choose|k: nat| run_n(ga, k) == (mid, StepOut::Paused);
        let k0 = lemma_first_pause(ga, mid, k);
        lemma_run_sim(ga, braw, concat_batches(batches), k0);
        let (sb, ob) = run_n(braw, k0);
        assert(ob == StepOut::Continue && core_match(mid, sb, concat_batches(batches)));
        // The disabled machine keeps going from here; its remaining halt is
        // a run from the matched middle configuration.
        let j = choose|j: nat| run_n(braw, j) == (sf_b, StepOut::Halted);
        if j <= k0 {
            lemma_run_n_frozen(braw, j, k0);
            assert(false);
        }
        lemma_run_n_compose(braw, k0, (j - k0) as nat);
        assert(run_n(sb, (j - k0) as nat) == (sf_b, StepOut::Halted));
        let a1 = MachineView { input: mid.input + batches.first(), ..mid };
        assert(concat_batches(batches) == batches.first() + concat_batches(batches.drop_first()));
        assert(a1.input + concat_batches(batches.drop_first()) =~= mid.input + concat_batches(
            batches,
        ));
        assert(core_match(a1, sb, concat_batches(batches.drop_first())));
        lemma_session_sim(a1, sb, batches.drop_first(), sf_a, sf_b);
    }
}

/// A paused outcome at `k` steps was reached by a first pause at some
/// `k0 <= k` whose previous step was still continuing.
proof fn lemma_first_pause(s0: MachineView, mid: MachineView, k: nat) -> (k0: nat)
    requires
        run_n(s0, k) == (mid, StepOut::Paused),
    ensures
        run_n(s0, k0) == (mid, StepOut::Paused),
        k0 > 0 && run_n(s0, (k0 - 1) as nat).1 == StepOut::Continue,
    decreases k,
{
    if k == 0 {
        0
    } else {
        if run_n(s0, (k - 1) as nat).1 == StepOut::Continue {
            k
        } else {
            lemma_run_n_frozen(s0, (k - 1) as nat, k);
            lemma_first_pause(s0, mid, (k - 1) as nat)
        }
    }
}

/// In the empty-session base case a halt whose previous step had already
/// ended is the same halt one step earlier.
proof fn lemma_session_sim_frozen_halt(ga: MachineView, braw: MachineView, batches: Seq<Seq<i64>>, sf_a: MachineView, sf_b: MachineView, k: nat)
    requires
        ga.resume == true,
        braw.resume == false,
        batches.len() == 0,
        core_match(ga, braw, concat_batches(batches)),
        run_n(ga, k) == (sf_a, StepOut::Halted),
        exists|j: nat| run_n(braw, j) == (sf_b, StepOut::Halted),
    ensures
        sf_a.mem == sf_b.mem,
        sf_a.output == sf_b.output,
    decreases k,
{
    if k > 0 && run_n(ga, (k - 1) as nat).1 != StepOut::Continue {
        lemma_run_n_frozen(ga, (k - 1) as nat, k);
        lemma_session_sim_frozen_halt(ga, braw, batches, sf_a, sf_b, (k - 1) as nat);
    } else {
        lemma_run_sim(ga, braw, concat_batches(batches), k);
        let (sb, ob) = run_n(braw, k);
        lemma_outcome_unique(braw, sb, StepOut::Halted, sf_b, StepOut::Halted);
        assert(concat_batches(batches) =~= Seq::<i64>::empty());
        assert(sf_a.input =~= sf_a.input + Seq::<i64>::empty());
    }
}

/// After `k` still-continuing steps, further steps carry on from the
/// configuration reached.
proof fn lemma_run_n_compose(s: MachineView, k: nat, j: nat)
    requires
        run_n(s, k).1 == StepOut::Continue,
    ensures
        run_n(s, (k + j) as nat) == run_n(run_n(s, k).0, j),
    decreases j,
{
    if j > 0 {
        lemma_run_n_compose(s, k, (j - 1) as nat);
    }
}

/// Pause/resume equivalence: a machine with the resume policy enabled, run
/// through any number of output-producing pauses with input batches fed
/// between them, ends with the same memory and the same full output log as
/// a machine with the policy disabled given the whole input up front.
pub proof fn lemma_pause_resume_equivalence(
    program: Seq<i64>,
    initial_input: Seq<i64>,
    batches: Seq<Seq<i64>>,
    sf_a: MachineView,
    sf_b: MachineView,
)
    requires
        session_halts(spec_loaded(program, initial_input, true), batches, sf_a),
        machine_halts_to(
            spec_loaded(program, initial_input + concat_batches(batches), false),
            sf_b,
        ),
    ensures
        sf_a.mem == sf_b.mem,
        sf_a.output == sf_b.output,
{
    let a0 = spec_loaded(program, initial_input, true);
    let b0 = spec_loaded(program, initial_input + concat_batches(batches), false);
    assert(spec_begun(b0) == b0);
    assert(core_match(a0, b0, concat_batches(batches)));
    lemma_session_sim(a0, b0, batches, sf_a, sf_b);
}

/// Decode recovers the opcode table exactly for every listed opcode, with
/// all-positional modes for the bare opcode values.
pub proof fn lemma_decode_table()
    ensures
        spec_decode(1) == Some((OpCode::Add, Mode::Positional, Mode::Positional, Mode::Positional)),
        spec_decode(2) == Some(
            (OpCode::Multiply, Mode::Positional, Mode::Positional, Mode::Positional),
        ),
        spec_decode(3) == Some(
            (OpCode::Store, Mode::Positional, Mode::Positional, Mode::Positional),
        ),
        spec_decode(4) == Some(
            (OpCode::Output, Mode::Positional, Mode::Positional, Mode::Positional),
        ),
        spec_decode(5) == Some(
            (OpCode::JumpIfTrue, Mode::Positional, Mode::Positional, Mode::Positional),
        ),
        spec_decode(6) == Some(
            (OpCode::JumpIfFalse, Mode::Positional, Mode::Positional, Mode::Positional),
        ),
        spec_decode(7) == Some(
            (OpCode::LessThan, Mode::Positional, Mode::Positional, Mode::Positional),
        ),
        spec_decode(8) == Some(
            (OpCode::Equals, Mode::Positional, Mode::Positional, Mode::Positional),
        ),
        spec_decode(9) == Some(
            (OpCode::Base, Mode::Positional, Mode::Positional, Mode::Positional),
        ),
        spec_decode(99) == Some(
            (OpCode::Stop, Mode::Positional, Mode::Positional, Mode::Positional),
        ),
{
}

/// Addressing-mode equivalence at the point of resolution: an `Immediate`
/// operand whose encoded value equals what a `Positional` operand resolves
/// to in an equivalent store yields the same operand value.
pub proof fn lemma_addressing_mode_equivalence(
    m1: Map<i64, i64>,
    m2: Map<i64, i64>,
    ip: i64,
    off: int,
    base: i64,
)
    requires
        1 <= off,
        ip + off <= i64::MAX,
        mem_read(m2, (ip + off) as i64) >= 0,
        mem_read(m1, (ip + off) as i64) == mem_read(m2, mem_read(m2, (ip + off) as i64)),
    ensures
        spec_value_of(m1, ip, off, Mode::Immediate, base).1 == spec_value_of(
            m2,
            ip,
            off,
            Mode::Positional,
            base,
        ).1,
{
    let pa = (ip + off) as i64;
    assert(mem_read(mem_touch(m2, pa), mem_read(m2, pa)) == mem_read(m2, mem_read(m2, pa)));
}

/// A machine whose resume policy is disabled never pauses: its runs end
/// only by halting or faulting.  Callers of the run-to-completion helpers
/// may drop the paused case of their contracts by this.
pub proof fn lemma_no_pause_without_resume(s0: MachineView, sf: MachineView)
    requires
        s0.resume == false,
    ensures
        !machine_pauses_to(s0, sf),
{
    if machine_pauses_to(s0, sf) {
        let k = choose|k: nat| run_n(s0, k) == (sf, StepOut::Paused);
        lemma_run_no_pause(s0, k);
    }
}

proof fn lemma_step_no_pause(s: MachineView)
    requires
        s.resume == false,
    ensures
        spec_step(s).1 != StepOut::Paused,
        spec_step(s).0.resume == false,
    decreases 0int,
{
    assert(s.input + Seq::<i64>::empty() =~= s.input);
    assert(core_match(s, s, Seq::empty()));
    reveal(spec_step);
    let raw = mem_read(s.mem, s.ip);
    let s0 = MachineView { mem: mem_touch(s.mem, s.ip), ..s };
    assert(core_match(s0, s0, Seq::empty()));
    match spec_decode(raw) {
        None => {},
        Some(d) => {
            let (op, m1, m2, m3) = d;
            match op {
                OpCode::Stop => {},
                OpCode::Add => lemma_arith_sim(s0, s0, Seq::empty(), true, m1, m2, m3),
                OpCode::Multiply => lemma_arith_sim(s0, s0, Seq::empty(), false, m1, m2, m3),
                OpCode::LessThan => lemma_cmp_sim(s0, s0, Seq::empty(), true, m1, m2, m3),
                OpCode::Equals => lemma_cmp_sim(s0, s0, Seq::empty(), false, m1, m2, m3),
                OpCode::Store => {},
                OpCode::Output => {},
                OpCode::Base => lemma_base_sim(s0, s0, Seq::empty(), m1),
                OpCode::JumpIfTrue => lemma_jump_sim(s0, s0, Seq::empty(), true, m1, m2),
                OpCode::JumpIfFalse => lemma_jump_sim(s0, s0, Seq::empty(), false, m1, m2),
            }
        },
    }
}

proof fn lemma_run_no_pause(s0: MachineView, k: nat)
    requires
        s0.resume == false,
    ensures
        run_n(s0, k).1 != StepOut::Paused,
        run_n(s0, k).0.resume == false,
    decreases k,
{
    if k > 0 {
        lemma_run_no_pause(s0, (k - 1) as nat);
        let (s1, o1) = run_n(s0, (k - 1) as nat);
        if o1 == StepOut::Continue {
            lemma_step_no_pause(s1);
        }
    }
}

} // verus!
