use std::collections::VecDeque;
use intcode::computer::{
    computer, Computer, Fault, Memory, Mode, OpCode, Parameter, ResumeMode, State,
};

fn run_ok(program: Vec<i64>, input: Option<VecDeque<i64>>) -> (Memory, Vec<i64>) {
    computer(program, input).unwrap()
}

fn assert_mem(mem: &Memory, expected: Vec<i64>) {
    assert_eq!(mem.len(), expected.len());
    for (i, v) in expected.iter().enumerate() {
        assert_eq!(mem.lookup(i as i64), Some(*v));
    }
}

#[test]
fn test_opcode_to_increment() {
    assert_eq!(OpCode::get_increment(OpCode::Add), 4);
    assert_eq!(OpCode::get_increment(OpCode::Multiply), 4);
    assert_eq!(OpCode::get_increment(OpCode::Store), 2);
    assert_eq!(OpCode::get_increment(OpCode::Output), 2);
    assert_eq!(OpCode::get_increment(OpCode::JumpIfTrue), 3);
    assert_eq!(OpCode::get_increment(OpCode::JumpIfFalse), 3);
    assert_eq!(OpCode::get_increment(OpCode::LessThan), 4);
    assert_eq!(OpCode::get_increment(OpCode::Equals), 4);
    assert_eq!(OpCode::get_increment(OpCode::Stop), 0);
}

#[test]
fn test_integer_to_opcode() {
    assert_eq!(OpCode::from(1), OpCode::Add);
    assert_eq!(OpCode::from(2), OpCode::Multiply);
    assert_eq!(OpCode::from(3), OpCode::Store);
    assert_eq!(OpCode::from(4), OpCode::Output);
    assert_eq!(OpCode::from(5), OpCode::JumpIfTrue);
    assert_eq!(OpCode::from(6), OpCode::JumpIfFalse);
    assert_eq!(OpCode::from(7), OpCode::LessThan);
    assert_eq!(OpCode::from(8), OpCode::Equals);
    assert_eq!(OpCode::from(99), OpCode::Stop);
}

#[test]
fn test_opcode_from_str() {
    assert_eq!(OpCode::from_str("01".to_string()), OpCode::Add);
    assert_eq!(OpCode::from_str("02".to_string()), OpCode::Multiply);
    assert_eq!(OpCode::from_str("03".to_string()), OpCode::Store);
    assert_eq!(OpCode::from_str("04".to_string()), OpCode::Output);
    assert_eq!(OpCode::from_str("05".to_string()), OpCode::JumpIfTrue);
    assert_eq!(OpCode::from_str("06".to_string()), OpCode::JumpIfFalse);
    assert_eq!(OpCode::from_str("07".to_string()), OpCode::LessThan);
    assert_eq!(OpCode::from_str("08".to_string()), OpCode::Equals);
    assert_eq!(OpCode::from_str("99".to_string()), OpCode::Stop);
}

#[test]
fn test_computer() {
    let empty: Vec<i64> = Vec::new();

    let (mem, out) = run_ok(vec![1, 0, 0, 0, 99], None);
    assert_mem(&mem, vec![2, 0, 0, 0, 99]);
    assert_eq!(out, empty.clone(), "Must be able to add two numbers");
    let (mem, out) = run_ok(vec![2, 3, 0, 3, 99], None);
    assert_mem(&mem, vec![2, 3, 0, 6, 99]);
    assert_eq!(out, empty.clone(), "Must be able to multiply two numbers");
    let (mem, out) = run_ok(vec![2, 4, 4, 5, 99, 0], None);
    assert_mem(&mem, vec![2, 4, 4, 5, 99, 9801]);
    assert_eq!(out, empty.clone(), "Must be able to multiply two numbers and store the result");
    let (mem, out) = run_ok(vec![1, 1, 1, 4, 99, 5, 6, 0, 99], None);
    assert_mem(&mem, vec![30, 1, 1, 4, 2, 5, 6, 0, 99]);
    assert_eq!(out, empty.clone(), "Must be able to handle complex program");
    let (mem, _) = run_ok(vec![1101, 100, -1, 4, 0], None);
    assert_mem(&mem, vec![1101, 100, -1, 4, 99]);
    let (mem, out) = run_ok(vec![3, 0, 4, 0, 99], Some(VecDeque::from(vec![-42])));
    assert_mem(&mem, vec![-42, 0, 4, 0, 99]);
    assert_eq!(out, vec![-42], "Able to write in output buffer");

    // --- Positional mode
    // equality
    let (mem, out) = run_ok(vec![3, 9, 8, 9, 10, 9, 4, 9, 99, -1, 8], Some(VecDeque::from(vec![8])));
    assert_mem(&mem, vec![3, 9, 8, 9, 10, 9, 4, 9, 99, 1, 8]);
    assert_eq!(out, vec![1], "Able to deal with equality (position mode)");
    let (mem, out) = run_ok(
        vec![3, 9, 8, 9, 10, 9, 4, 9, 99, -1, 8],
        Some(VecDeque::from(vec![12])),
    );
    assert_mem(&mem, vec![3, 9, 8, 9, 10, 9, 4, 9, 99, 0, 8]);
    assert_eq!(out, vec![0], "Able to deal with non equality (position mode)");
    // less than
    let (mem, out) = run_ok(vec![3, 9, 7, 9, 10, 9, 4, 9, 99, -1, 8], Some(VecDeque::from(vec![5])));
    assert_mem(&mem, vec![3, 9, 7, 9, 10, 9, 4, 9, 99, 1, 8]);
    assert_eq!(out, vec![1], "Able to deal with less than (position mode)");
    let (mem, out) = run_ok(
        vec![3, 9, 7, 9, 10, 9, 4, 9, 99, -1, 8],
        Some(VecDeque::from(vec![12])),
    );
    assert_mem(&mem, vec![3, 9, 7, 9, 10, 9, 4, 9, 99, 0, 8]);
    assert_eq!(out, vec![0], "Able to deal with greater than (position mode)");

    // --- Immediate mode
    // equality
    let (mem, out) = run_ok(vec![3, 3, 1108, -1, 8, 3, 4, 3, 99], Some(VecDeque::from(vec![8])));
    assert_mem(&mem, vec![3, 3, 1108, 1, 8, 3, 4, 3, 99]);
    assert_eq!(out, vec![1], "Able to deal with equality (immediate mode)");
    let (mem, out) = run_ok(vec![3, 3, 1108, -1, 8, 3, 4, 3, 99], Some(VecDeque::from(vec![12])));
    assert_mem(&mem, vec![3, 3, 1108, 0, 8, 3, 4, 3, 99]);
    assert_eq!(out, vec![0], "Able to deal with non equality (immediate mode)");
    // less than
    let (mem, out) = run_ok(vec![3, 3, 1107, -1, 8, 3, 4, 3, 99], Some(VecDeque::from(vec![5])));
    assert_mem(&mem, vec![3, 3, 1107, 1, 8, 3, 4, 3, 99]);
    assert_eq!(out, vec![1], "Able to deal with less than (immediate mode)");
    let (mem, out) = run_ok(vec![3, 3, 1107, -1, 8, 3, 4, 3, 99], Some(VecDeque::from(vec![12])));
    assert_mem(&mem, vec![3, 3, 1107, 0, 8, 3, 4, 3, 99]);
    assert_eq!(out, vec![0], "Able to deal with greater than (immediate mode)");

    // --- Positional mode
    let (mem, out) = run_ok(
        vec![3, 12, 6, 12, 15, 1, 13, 14, 13, 4, 13, 99, -1, 0, 1, 9],
        Some(VecDeque::from(vec![1])),
    );
    assert_mem(&mem, vec![3, 12, 6, 12, 15, 1, 13, 14, 13, 4, 13, 99, 1, 1, 1, 9]);
    assert_eq!(out, vec![1], "Should jump if input 1 (position mode)");
    let (mem, out) = run_ok(
        vec![3, 12, 6, 12, 15, 1, 13, 14, 13, 4, 13, 99, -1, 0, 1, 9],
        Some(VecDeque::from(vec![0])),
    );
    assert_mem(&mem, vec![3, 12, 6, 12, 15, 1, 13, 14, 13, 4, 13, 99, 0, 0, 1, 9]);
    assert_eq!(out, vec![0], "Should jump if input 0 (position mode)");

    // --- Immediate mode
    let (mem, out) = run_ok(
        vec![3, 3, 1105, -1, 9, 1101, 0, 0, 12, 4, 12, 99, 1],
        Some(VecDeque::from(vec![1])),
    );
    assert_mem(&mem, vec![3, 3, 1105, 1, 9, 1101, 0, 0, 12, 4, 12, 99, 1]);
    assert_eq!(out, vec![1], "Should jump if input 1 (immediate mode)");
    // --- Positional mode
    let (mem, out) = run_ok(
        vec![3, 3, 1105, -1, 9, 1101, 0, 0, 12, 4, 12, 99, 1],
        Some(VecDeque::from(vec![0])),
    );
    assert_mem(&mem, vec![3, 3, 1105, 0, 9, 1101, 0, 0, 12, 4, 12, 99, 0]);
    assert_eq!(out, vec![0], "Should jump if input 0 (immediate mode)");

    let program = vec![
        3, 21, 1008, 21, 8, 20, 1005, 20, 22, 107, 8, 21, 20, 1006, 20, 31, 1106, 0, 36, 98, 0, 0,
        1002, 21, 125, 20, 4, 20, 1105, 1, 46, 104, 999, 1105, 1, 46, 1101, 1000, 1, 20, 4, 20,
        1105, 1, 46, 98, 99,
    ];

    // equal 8
    let (_, buffer) = run_ok(program.clone(), Some(VecDeque::from(vec![8])));
    let expected: Vec<i64> = vec![1000];
    assert_eq!(buffer, expected);

    // greater than 8
    let (_, buffer) = run_ok(program.clone(), Some(VecDeque::from(vec![220])));
    let expected: Vec<i64> = vec![1001];
    assert_eq!(buffer, expected);

    // less than 8
    let (_, buffer) = run_ok(program.clone(), Some(VecDeque::from(vec![7])));
    let expected: Vec<i64> = vec![999];
    assert_eq!(buffer, expected);

    let program = vec![1102, 34915192, 34915192, 7, 4, 7, 99, 0];
    let (_, buffer) = run_ok(program, None);
    let result = buffer.last().unwrap().to_string().chars().count();
    assert_eq!(result, 16);
}

#[test]
fn test_create_parameters_from_str() {
    assert_eq!(
        Parameter::from_str("0000".to_string()),
        Parameter {
            first_operand: Mode::Positional,
            second_operand: Mode::Positional,
            result_address: Mode::Positional
        }
    );
    assert_eq!(
        Parameter::from_str("001".to_string()),
        Parameter {
            first_operand: Mode::Immediate,
            second_operand: Mode::Positional,
            result_address: Mode::Positional
        }
    );
    assert_eq!(
        Parameter::from_str("0010".to_string()),
        Parameter {
            first_operand: Mode::Positional,
            second_operand: Mode::Immediate,
            result_address: Mode::Positional
        }
    );
    assert_eq!(
        Parameter::from_str("011".to_string()),
        Parameter {
            first_operand: Mode::Immediate,
            second_operand: Mode::Immediate,
            result_address: Mode::Positional
        }
    );
    assert_eq!(
        Parameter::from_str("111".to_string()),
        Parameter {
            first_operand: Mode::Immediate,
            second_operand: Mode::Immediate,
            result_address: Mode::Immediate
        }
    );
    assert_eq!(
        Parameter::from_str("211".to_string()),
        Parameter {
            first_operand: Mode::Immediate,
            second_operand: Mode::Immediate,
            result_address: Mode::Relative
        }
    );
}

#[test]
fn test_get_opcode_and_modes_from_str() {
    assert_eq!(
        OpCode::get_opcode_and_modes_from_str(1),
        (
            Parameter {
                first_operand: Mode::Positional,
                second_operand: Mode::Positional,
                result_address: Mode::Positional
            },
            OpCode::Add
        )
    );
    assert_eq!(
        OpCode::get_opcode_and_modes_from_str(1002),
        (
            Parameter {
                first_operand: Mode::Positional,
                second_operand: Mode::Immediate,
                result_address: Mode::Positional
            },
            OpCode::Multiply
        )
    );
    assert_eq!(
        OpCode::get_opcode_and_modes_from_str(99),
        (
            Parameter {
                first_operand: Mode::Positional,
                second_operand: Mode::Positional,
                result_address: Mode::Positional
            },
            OpCode::Stop
        )
    );
    assert_eq!(
        OpCode::get_opcode_and_modes_from_str(21102),
        (
            Parameter {
                first_operand: Mode::Immediate,
                second_operand: Mode::Immediate,
                result_address: Mode::Relative
            },
            OpCode::Multiply
        )
    );
}

#[test]
fn test_computer_can_store_more_than_one_input() {
    let program = vec![3, 5, 3, 6, 99, -1, -1];
    let (memory, _) = run_ok(program.clone(), Some(VecDeque::from(vec![220, -42])));
    assert_mem(&memory, vec![3, 5, 3, 6, 99, 220, -42]);
}

#[test]
fn test_resumable_computer() {
    let program = vec![104, -42, 104, 48, 99];
    let mut computer = Computer::new(program.clone());
    computer.set_resume_mode(ResumeMode::Enable);
    let (memory, buffer) = computer.run().unwrap();
    assert_mem(&memory, vec![104, -42, 104, 48, 99]);
    assert_eq!(&-42, buffer.last().unwrap());
    assert_eq!(State::Paused, computer.state);
    assert_eq!(2, computer.instruction_cursor);

    let (memory, buffer) = computer.run().unwrap();
    assert_mem(&memory, vec![104, -42, 104, 48, 99]);
    assert_eq!(&48, buffer.last().unwrap());
    assert_eq!(State::Paused, computer.state);
    assert_eq!(4, computer.instruction_cursor);

    let (memory, _) = computer.run().unwrap();
    assert_mem(&memory, vec![104, -42, 104, 48, 99]);
    assert_eq!(State::Stopped, computer.state);
    assert_eq!(5, computer.instruction_cursor);

    // init
    let program = vec![3, 9, 4, 9, 3, 10, 4, 10, 99, -1, -1];
    let mut computer = Computer::new(program.clone());
    computer.set_resume_mode(ResumeMode::Enable);

    // first step
    computer.add_input(12);
    let (memory, buffer) = computer.run().unwrap();
    assert_mem(&memory, vec![3, 9, 4, 9, 3, 10, 4, 10, 99, 12, -1]);
    assert_eq!(buffer.last().unwrap(), &12);
    assert_eq!(computer.state, State::Paused);
    assert_eq!(computer.instruction_cursor, 4);

    // second step
    computer.add_input(42);
    let (memory, buffer) = computer.run().unwrap();
    assert_mem(&memory, vec![3, 9, 4, 9, 3, 10, 4, 10, 99, 12, 42]);
    assert_eq!(buffer.last().unwrap(), &42);
    assert_eq!(computer.state, State::Paused);
    assert_eq!(computer.instruction_cursor, 8);

    // halt
    let (memory, _) = computer.run().unwrap();
    assert_mem(&memory, vec![3, 9, 4, 9, 3, 10, 4, 10, 99, 12, 42]);
    assert_eq!(computer.state, State::Stopped);
    assert_eq!(computer.instruction_cursor, 9);
}

#[test]
fn test_able_to_read_non_existing_memory_address() {
    let program = vec![3, 100000000000000, 4, 100000000000000, 99];
    let (memory, buffer) = run_ok(program.clone(), Some(VecDeque::from(vec![42])));
    assert_eq!(memory.len(), program.len() + 1);
    for (i, v) in program.iter().enumerate() {
        assert_eq!(memory.lookup(i as i64), Some(*v));
    }
    assert_eq!(memory.lookup(100000000000000), Some(42));
    assert_eq!(*buffer.last().unwrap(), 42);
}

#[test]
fn test_relative_mode() {
    let program = vec![109, 1, 204, -1, 1001, 100, 1, 100, 1008, 100, 16, 101, 1006, 101, 0, 99];
    let (_, buffer) = run_ok(program.clone(), None);
    assert_eq!(buffer, program)
}

#[test]
fn test_able_to_add_two_numbers_immediate_value_and_stores_it_at_relative_memory_address() {
    // Intcode 21101 : add 4 + 38 and stores it at address (base+3) + @4 -> @7 = 42
    let program = vec![109, 3, 21101, 4, 38, 4, 99, 7];
    let (memory, _) = run_ok(program.clone(), Some(VecDeque::from(vec![3])));
    assert_eq!(memory.len(), program.len());
    for (i, v) in program.iter().enumerate() {
        if i == 7 {
            assert_eq!(memory.lookup(i as i64), Some(42));
        } else {
            assert_eq!(memory.lookup(i as i64), Some(*v));
        }
    }
}

#[test]
fn test_able_to_store_at_relative_address() {
    // Intcode 203
    let program = vec![109, 3, 203, 2, 99, -1];
    let (memory, _) = run_ok(program.clone(), Some(VecDeque::from(vec![42])));
    assert_eq!(memory.len(), program.len());
    for (i, v) in program.iter().enumerate() {
        if i == 5 {
            assert_eq!(memory.lookup(i as i64), Some(42));
        } else {
            assert_eq!(memory.lookup(i as i64), Some(*v));
        }
    }
}

#[test]
fn test_decode_fault() {
    // 55 is no opcode.
    assert!(matches!(computer(vec![55], None), Err(Fault::Decode)));
    // Mode digit 3 is unknown.
    assert!(matches!(computer(vec![30001, 0, 0, 0, 99], None), Err(Fault::Decode)));
}

#[test]
fn test_input_exhausted_fault() {
    assert!(matches!(computer(vec![3, 0, 99], None), Err(Fault::InputExhausted)));
}

#[test]
fn test_negative_address_fault() {
    // The first operand is read from address -1.
    assert!(matches!(computer(vec![1, -1, 0, 0, 99], None), Err(Fault::NegativeAddress)));
}

#[test]
fn test_overflow_fault() {
    assert!(matches!(
        computer(vec![1101, i64::MAX, 1, 0, 99], None),
        Err(Fault::Overflow)
    ));
}

#[test]
fn test_addressing_mode_equivalent_programs() {
    // The same addition written with immediate operands and with positional
    // operands: identical results at the result address and on the output.
    let (mem_imm, out_imm) = run_ok(vec![1101, 7, 8, 7, 4, 7, 99, 0], None);
    let (mem_pos, out_pos) = run_ok(vec![1, 7, 8, 7, 4, 7, 99, 7, 8], None);
    assert_eq!(mem_imm.lookup(7), Some(15));
    assert_eq!(mem_pos.lookup(7), Some(15));
    assert_eq!(out_imm, out_pos);
}

#[test]
fn test_memory_store() {
    let mut mem = intcode::computer::Memory::new();
    assert_eq!(mem.len(), 0);
    assert_eq!(mem.lookup(5), None);
    assert_eq!(mem.read(5), 0);
    assert_eq!(mem.lookup(5), Some(0));
    mem.write(5, 9);
    assert_eq!(mem.read(5), 9);
    assert_eq!(mem.len(), 1);
}

#[test]
fn test_is_setup() {
    let mut machine = Computer::new(vec![104, 1, 99]);
    assert!(!machine.is_setup());
    machine.set_resume_mode(ResumeMode::Enable);
    machine.run().unwrap();
    assert!(machine.is_setup());
    assert_eq!(machine.state, State::Paused);
}

#[test]
fn test_pause_resume_equivalence_scenario() {
    // A machine run through its pauses, inputs fed between them, against
    // the same machine run in one piece with the whole input up front.
    let program = vec![3, 9, 4, 9, 3, 10, 4, 10, 99, -1, -1];

    let mut paused = Computer::new(program.clone());
    paused.set_resume_mode(ResumeMode::Enable);
    paused.add_input(12);
    paused.run().unwrap();
    paused.add_input(42);
    paused.run().unwrap();
    let (mem_a, out_a) = paused.run().unwrap();

    let mut straight = Computer::new(program);
    straight.add_input(12);
    straight.add_input(42);
    let (mem_b, out_b) = straight.run().unwrap();

    assert_eq!(out_a, out_b);
    assert_eq!(mem_a.len(), mem_b.len());
    for i in 0..11 {
        assert_eq!(mem_a.lookup(i), mem_b.lookup(i));
    }
}
