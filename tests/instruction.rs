use brainfuck_rs::instruction::{Instruction, ParseError};
use brainfuck_rs::token::Token;

fn input_loop() -> Instruction {
    Instruction::Loop(vec![
        // nesting = 1
        Instruction::Inc,
        Instruction::Loop(vec![/* should never reach here */]),
        Instruction::Dec,
        Instruction::Loop(vec![
            // nesting = 2
            Instruction::Next,
            Instruction::Loop(vec![
                // nesting = 3
                Instruction::Dec,
                Instruction::Dec,
            ]),
        ]),
    ])
}

fn expected_loop() -> Instruction {
    Instruction::Loop(vec![
        // nesting = 1
        Instruction::Inc,
        Instruction::Loop(vec![/* should never reach here */]),
        Instruction::Dec,
        Instruction::Loop(vec![
            // nesting = 2
            Instruction::Next,
            Instruction::Loop(vec![/* now this is empty */]),
        ]),
    ])
}

fn parse_source(code: &str) -> Result<Vec<Instruction>, ParseError> {
    Instruction::parse(&Token::tokenize(code))
}

#[test]
fn correct_input() {
    let nesting = 3;
    let mut instruction = input_loop();

    instruction
        .get_last_deepest_mut(nesting)
        .get_inner_mut()
        .expect("could not get inner loop's contents")
        .clear();

    let expected = expected_loop();

    assert_eq!(instruction, expected);
}

#[test]
fn unmatched_loop_end() {
    let program = r#"
                ++
                [
                    --><
                    oops! there was supposed to be an opening bracket here!
                        ++++.
                    ]
                ]
            "#;

    assert_eq!(
        ParseError::UnmatchedLoopEnd,
        parse_source(program).unwrap_err()
    );
}

#[test]
fn unmatched_loop_start() {
    let program = r#"
                ++
                [
                    --><
                    [
                        ++++.
                    oops! there was supposed to be a closing bracket here!
                ]
            "#;

    assert_eq!(
        ParseError::UnmatchedLoopStart,
        parse_source(program).unwrap_err()
    );
}

#[test]
fn nesting_handling() {
    let program = r#"
                ++
                [
                    --><
                    [
                        ++++.
                    ]
                ]
            "#;

    let expected = vec![
        Instruction::Inc,
        Instruction::Inc,
        Instruction::Loop(vec![
            Instruction::Dec,
            Instruction::Dec,
            Instruction::Next,
            Instruction::Prev,
            Instruction::Loop(vec![
                Instruction::Inc,
                Instruction::Inc,
                Instruction::Inc,
                Instruction::Inc,
                Instruction::Print,
            ]),
        ]),
    ];

    let instructions: Vec<Instruction> = parse_source(program).expect("parsing failed");

    assert_eq!(expected, instructions);
}

#[test]
fn bracket_errors() {
    assert_eq!(parse_source("]"), Err(ParseError::UnmatchedLoopEnd));
    assert_eq!(parse_source("["), Err(ParseError::UnmatchedLoopStart));
    assert_eq!(parse_source("[[]"), Err(ParseError::UnmatchedLoopStart));
    assert_eq!(parse_source("[]]"), Err(ParseError::UnmatchedLoopEnd));
    assert_eq!(parse_source("][]["), Err(ParseError::UnmatchedLoopEnd));
}

#[test]
fn empty_source_parses_to_nothing() {
    assert_eq!(parse_source(""), Ok(vec![]));
    assert_eq!(parse_source("no commands here"), Ok(vec![]));
}

#[test]
fn parsing_twice_gives_equal_trees() {
    let code = "+[->[<.,]>]-[[]]";
    let first = parse_source(code).unwrap();
    let second = parse_source(code).unwrap();
    assert_eq!(first, second);
    assert_eq!(
        first,
        vec![
            Instruction::Inc,
            Instruction::Loop(vec![
                Instruction::Dec,
                Instruction::Next,
                Instruction::Loop(vec![Instruction::Prev, Instruction::Print, Instruction::Read]),
                Instruction::Next,
            ]),
            Instruction::Dec,
            Instruction::Loop(vec![Instruction::Loop(vec![])]),
        ]
    );
}

#[test]
fn error_messages() {
    assert_eq!(ParseError::UnmatchedLoopStart.message(), "could not find match for `[`");
    assert_eq!(ParseError::UnmatchedLoopEnd.message(), "could not find match for `]`");
}

#[test]
fn inner_of_leaf_is_none() {
    let mut leaf = Instruction::Print;
    assert!(leaf.get_inner_mut().is_none());
    let mut lp = Instruction::Loop(vec![Instruction::Inc]);
    lp.get_inner_mut().unwrap().push(Instruction::Dec);
    assert_eq!(lp, Instruction::Loop(vec![Instruction::Inc, Instruction::Dec]));
}

#[test]
fn deepest_at_first_levels() {
    let mut instruction = input_loop();
    *instruction.get_last_deepest_mut(1) = Instruction::Read;
    assert_eq!(instruction, Instruction::Read);

    let mut instruction = input_loop();
    instruction.get_last_deepest_mut(2).get_inner_mut().unwrap().push(Instruction::Print);
    let mut expected = input_loop();
    if let Instruction::Loop(body) = &mut expected {
        if let Instruction::Loop(inner) = &mut body[3] {
            inner.push(Instruction::Print);
        }
    }
    assert_eq!(instruction, expected);
}
