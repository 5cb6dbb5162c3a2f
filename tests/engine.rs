use std::str;

use brainfuck_rs::engine::{Action, Engine, Execution, OutOfSteps, RuntimeSettings};
use brainfuck_rs::instruction::Instruction;
use brainfuck_rs::token::Token;
use brainfuck_rs::utils::StripShebang;

const HELLO_WORLD: &str = "#!/usr/bin/env brainfuck-rs
++++++++[>++++[>++>+++>+++>+<<<<-]>+>+>->>+[<]<-]>>.>---.+++++++..+++.>>.<-.<.+++.------.--------.>>+.>++.
";

const ROT13: &str = "#!/usr/bin/env brainfuck-rs
-,+[
    -[
        >>++++[>++++++++<-]
        <+<-[
            >+>+>-[>>>]
            <[[>+<-]>>+>]
            <<<<<-
        ]
    ]>>>[-]+
    >--[-[<->+++[-]]]<[
        ++++++++++++<[
            >-[>+>>]
            >[+[<+>-]>+>>]
            <<<<<-
        ]
        >>[<+>-]
        >[
            -[
                -<<[-]>>
            ]<<[<<->>-]>>
        ]<<[<<+>>-]
    ]
    <[-]
    <.[-]
    <-,+
]
";

const STEPS: u64 = 10_000_000;

fn parse(code: &str) -> Vec<Instruction> {
    Instruction::parse(&Token::tokenize(code)).unwrap()
}

fn run_on(code: &str, tape_length: usize, input: &[u8], settings: RuntimeSettings) -> (Engine, Vec<u8>) {
    let mut bf = Engine {
        pointer: 0,
        tape: vec![0; tape_length],
    };
    let mut output = vec![];
    bf.run(&parse(code), input, &mut output, settings, STEPS).unwrap();
    (bf, output)
}

#[test]
fn non_stdout_buffer() {
    let mut bf = Engine::default();
    let settings = RuntimeSettings::default();

    let input: &[u8] = <&[u8]>::default();
    let mut output = vec![];

    let tokens = Token::tokenize(HELLO_WORLD.strip_shebang());
    let instructions = Instruction::parse(&tokens).unwrap();

    bf.run(&instructions, input, &mut output, settings, STEPS)
        .unwrap();

    assert_eq!("Hello World!\n", str::from_utf8(output.as_slice()).unwrap());
}

#[test]
fn non_stdin_buffer() {
    let mut bf = Engine::default();
    let settings = RuntimeSettings {
        quit_on_eof: true,
        ..Default::default()
    };

    let input = b"Hello, World!".as_slice();
    let mut output = vec![];

    let tokens = Token::tokenize(ROT13.strip_shebang());
    let instructions = Instruction::parse(&tokens).unwrap();

    bf.run(&instructions, input, &mut output, settings, STEPS)
        .unwrap();

    assert_eq!("Uryyb, Jbeyq!", str::from_utf8(output.as_slice()).unwrap());
}

#[test]
fn default_settings_and_tape() {
    let settings = RuntimeSettings::default();
    assert!(settings.should_flush);
    assert!(!settings.quit_on_eof);
    let bf = Engine::default();
    assert_eq!(bf.pointer, 0);
    assert_eq!(bf.tape.len(), 30_000);
    assert!(bf.tape.iter().all(|&c| c == 0));
}

#[test]
fn sixty_four_from_nested_loop() {
    let (_, output) = run_on("++++++++[>++++++++<-]>.", 2, b"", RuntimeSettings::default());
    assert_eq!(output, vec![64]);
}

#[test]
fn increments_wrap_to_zero() {
    let code = "+".repeat(256);
    let (bf, _) = run_on(&code, 1, b"", RuntimeSettings::default());
    assert_eq!(bf.tape[0], 0);
}

#[test]
fn decrement_of_zero_is_255() {
    let (bf, _) = run_on("-", 1, b"", RuntimeSettings::default());
    assert_eq!(bf.tape[0], 255);
}

#[test]
fn increments_minus_decrements() {
    let (bf, _) = run_on("+++--+-+", 3, b"", RuntimeSettings::default());
    assert_eq!(bf.tape, vec![2, 0, 0]);
    let (bf, _) = run_on("---+", 3, b"", RuntimeSettings::default());
    assert_eq!(bf.tape, vec![254, 0, 0]);
}

#[test]
fn cursor_wraps_both_ways() {
    let mut bf = Engine {
        pointer: 2,
        tape: vec![0; 3],
    };
    bf.next();
    assert_eq!(bf.pointer, 0);
    bf.prev();
    assert_eq!(bf.pointer, 2);
    bf.prev();
    assert_eq!(bf.pointer, 1);
    bf.next();
    assert_eq!(bf.pointer, 2);

    let mut one = Engine {
        pointer: 0,
        tape: vec![7],
    };
    one.next();
    assert_eq!(one.pointer, 0);
    one.prev();
    assert_eq!(one.pointer, 0);
}

#[test]
fn cursor_wraps_in_programs() {
    let (bf, _) = run_on("<+", 4, b"", RuntimeSettings::default());
    assert_eq!(bf.pointer, 3);
    assert_eq!(bf.tape, vec![0, 0, 0, 1]);
    let (bf, _) = run_on(">>>>+", 4, b"", RuntimeSettings::default());
    assert_eq!(bf.pointer, 0);
    assert_eq!(bf.tape, vec![1, 0, 0, 0]);
}

#[test]
fn quit_on_eof_ends_cleanly() {
    let settings = RuntimeSettings {
        should_flush: true,
        quit_on_eof: true,
    };
    let (bf, output) = run_on(",.,.+.", 2, b"A", settings);
    assert_eq!(output, b"A".to_vec());
    assert_eq!(bf.tape[0], b'A');
}

#[test]
fn read_at_eof_keeps_cell_and_goes_on() {
    let (bf, output) = run_on("+++,.>+", 2, b"", RuntimeSettings::default());
    assert_eq!(output, vec![3]);
    assert_eq!(bf.tape, vec![3, 1]);
    assert_eq!(bf.pointer, 1);
}

#[test]
fn reads_store_input_bytes() {
    let (_, output) = run_on(",.,.,.", 1, b"xyz", RuntimeSettings::default());
    assert_eq!(output, b"xyz".to_vec());
}

#[test]
fn loop_body_runs_once_when_it_leaves_a_zero_cell() {
    let (bf, _) = run_on("+[>]", 3, b"", RuntimeSettings::default());
    assert_eq!(bf.pointer, 1);
    assert_eq!(bf.tape, vec![1, 0, 0]);
}

#[test]
fn loop_over_zero_cell_is_skipped() {
    let (bf, output) = run_on("[>+.]", 3, b"", RuntimeSettings::default());
    assert_eq!(bf.pointer, 0);
    assert_eq!(bf.tape, vec![0, 0, 0]);
    assert!(output.is_empty());
}

#[test]
fn endless_loop_runs_out_of_steps() {
    let mut bf = Engine {
        pointer: 0,
        tape: vec![0; 2],
    };
    let mut output = vec![];
    let r = bf.run(&parse("+[]"), b"", &mut output, RuntimeSettings::default(), 100);
    assert_eq!(r, Err(OutOfSteps));
    assert_eq!(bf.tape[0], 1);
}

#[test]
fn empty_program_ends_at_once() {
    let mut bf = Engine {
        pointer: 0,
        tape: vec![5; 2],
    };
    let mut output = vec![9];
    let r = bf.run(&vec![], b"", &mut output, RuntimeSettings::default(), 0);
    assert_eq!(r, Ok(()));
    assert_eq!(output, vec![9]);
    assert_eq!(bf.tape, vec![5, 5]);
}

#[test]
fn step_actions_follow_flush_setting() {
    let program = parse("+.,");
    let mut engine = Engine {
        pointer: 0,
        tape: vec![0; 1],
    };
    let buffered = RuntimeSettings {
        should_flush: false,
        quit_on_eof: false,
    };
    let mut exec = Execution::new(&program, buffered);
    assert_eq!(exec.step(&mut engine), Action::Proceed);
    assert_eq!(exec.step(&mut engine), Action::Output { byte: 1, flush: false });
    assert_eq!(exec.step(&mut engine), Action::Input { flush_first: true });
    assert!(exec.deliver(&mut engine, Some(42)));
    assert_eq!(engine.tape[0], 42);
    assert_eq!(exec.step(&mut engine), Action::Finish);
    assert!(exec.is_finished());

    let mut engine = Engine {
        pointer: 0,
        tape: vec![0; 1],
    };
    let mut exec = Execution::new(&program, RuntimeSettings::default());
    assert_eq!(exec.step(&mut engine), Action::Proceed);
    assert_eq!(exec.step(&mut engine), Action::Output { byte: 1, flush: true });
    assert_eq!(exec.step(&mut engine), Action::Input { flush_first: false });
}

#[test]
fn deliver_end_of_input() {
    let program = parse(",+");
    let mut engine = Engine {
        pointer: 0,
        tape: vec![7; 1],
    };
    let mut exec = Execution::new(&program, RuntimeSettings::default());
    assert_eq!(exec.step(&mut engine), Action::Input { flush_first: false });
    assert!(exec.deliver(&mut engine, None));
    assert_eq!(engine.tape[0], 7);
    assert!(!exec.is_finished());

    let quitting = RuntimeSettings {
        should_flush: true,
        quit_on_eof: true,
    };
    let mut exec = Execution::new(&program, quitting);
    assert_eq!(exec.step(&mut engine), Action::Input { flush_first: false });
    assert!(!exec.deliver(&mut engine, None));
    assert!(exec.is_finished());
    assert_eq!(engine.tape[0], 7);
}

#[test]
fn single_instruction_execution() {
    let program = parse("++[>+<-]");
    let mut engine = Engine {
        pointer: 0,
        tape: vec![0; 2],
    };
    let mut exec = Execution::new(&program, RuntimeSettings::default());
    while exec.step(&mut engine) != Action::Finish {}
    assert_eq!(engine.tape, vec![0, 2]);

    let looped = &program[2];
    let mut engine = Engine {
        pointer: 0,
        tape: vec![3, 0],
    };
    let mut exec = Execution::single(looped, RuntimeSettings::default());
    while exec.step(&mut engine) != Action::Finish {}
    assert_eq!(engine.tape, vec![0, 3]);
}
