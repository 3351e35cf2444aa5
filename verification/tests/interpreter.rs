use brainfuck_rs::errors::InterpretError;
use brainfuck_rs::interpreter::{InterpretStats, Interpreter};
use brainfuck_rs::parser::{parse_code, Token};

#[test]
fn test_interpreter() {
    let mut interpreter = Interpreter::new(b"1234".to_vec(), Vec::new());
    interpreter
        .interpret(&[
            Token::IncrementByte(4),
            Token::Loop(vec![
                Token::IncrementDataPointer(1),
                Token::ReadByte,
                Token::WriteByte,
                Token::DecrementDataPointer(1),
                Token::DecrementByte(1),
            ]),
        ])
        .unwrap();

    assert_eq!(interpreter.output().as_slice(), b"1234");
}

#[test]
fn test_stats() {
    let mut interpreter = Interpreter::new(Vec::new(), Vec::new());
    interpreter
        .interpret(&[
            Token::IncrementDataPointer(64),
            Token::IncrementByte(128),
            Token::Loop(vec![Token::DecrementByte(1)]),
        ])
        .unwrap();
    assert_eq!(
        interpreter.stats(),
        InterpretStats {
            instruction_count: 320,
            used_memory: 65
        }
    );
}

#[test]
fn test_hello_world() {
    let mut interpreter = Interpreter::new(Vec::new(), Vec::new());
    interpreter
        .interpret(
            &parse_code(
                "++++++++[>++++[>++>+++>+++>+<<<<-]>+>+>->>+[<]<-]\
                 >>.>---.+++++++..+++.>>.<-.<.+++.------.--------.>>+.>++.",
            )
            .unwrap(),
        )
        .unwrap();
    assert_eq!(interpreter.output().as_slice(), b"Hello World!\n");
}

#[test]
fn test_hello_world_negative() {
    // example from https://esolangs.org/wiki/Brainfuck
    let mut interpreter = Interpreter::new(Vec::new(), Vec::new());
    interpreter
        .interpret(
            &parse_code(
                ">++++++++[-<+++++++++>]<.>>+>-[+]++>++>+++[>[->+++<<+++>]<<]>-----.>->\
                 +++..+++.>-.<<+[>[+>+]>>]<--------------.>>.+++.------.--------.>+.>+.",
            )
            .unwrap(),
        )
        .unwrap();
    assert_eq!(interpreter.output().as_slice(), b"Hello World!\n");
}

#[test]
fn test_obscure_problems() {
    // test from http://brainfuck.org/tests.b
    let mut interpreter = Interpreter::new(b"\n".to_vec(), Vec::new());
    interpreter
        .interpret(
            &parse_code(
                "[]++++++++++[>>+>+>++++++[<<+<+++>>>-]<<<<-]\
                 \"A*$\";?@![#>>+<<]>[>>]<<<<[>++<[-]]>.>.",
            )
            .unwrap(),
        )
        .unwrap();
    assert_eq!(interpreter.output().as_slice(), b"H\n");
}

#[test]
fn interpreter_test_errors() {
    let mut interpreter = Interpreter::new(Vec::new(), Vec::new());

    let err = interpreter
        .interpret(&[Token::DecrementDataPointer(1)])
        .unwrap_err();

    let InterpretError::DataPointerOutsideMemory = err else {
        panic!();
    };
}

#[test]
fn test_pointer_underflow_leaves_no_trace() {
    // The bounds check happens before any mutation: a failing pointer
    // move writes no output and counts no instructions.
    let mut interpreter = Interpreter::new(Vec::new(), Vec::new());
    let err = interpreter
        .interpret(&[Token::DecrementDataPointer(1), Token::WriteByte])
        .unwrap_err();
    let InterpretError::DataPointerOutsideMemory = err else {
        panic!();
    };
    assert_eq!(interpreter.output().as_slice(), b"");
    assert_eq!(
        interpreter.stats(),
        InterpretStats {
            instruction_count: 0,
            used_memory: 1
        }
    );
}

#[test]
fn test_pointer_overflow() {
    // The second move would carry the pointer past the addressable
    // ceiling; the check fires before the pointer or the tape change.
    let mut interpreter = Interpreter::new(Vec::new(), Vec::new());
    let err = interpreter
        .interpret(&[
            Token::IncrementDataPointer(1),
            Token::IncrementDataPointer(usize::MAX),
        ])
        .unwrap_err();
    let InterpretError::DataPointerOutsideMemory = err else {
        panic!();
    };
    assert_eq!(
        interpreter.stats(),
        InterpretStats {
            instruction_count: 1,
            used_memory: 2
        }
    );
}

#[test]
fn test_empty_loop() {
    let mut interpreter = Interpreter::new(Vec::new(), Vec::new());
    let err = interpreter
        .interpret(&[Token::IncrementByte(1), Token::Loop(vec![])])
        .unwrap_err();
    let InterpretError::EmptyLoop = err else {
        panic!();
    };

    // A loop never entered does not trip the check.
    let mut interpreter = Interpreter::new(Vec::new(), Vec::new());
    interpreter.interpret(&[Token::Loop(vec![])]).unwrap();
}

#[test]
fn test_read_at_end_of_input_keeps_cell() {
    // Two reads against one byte of input: the second read hits the end
    // of the stream and leaves the cell unchanged.
    let mut interpreter = Interpreter::new(b"A".to_vec(), Vec::new());
    interpreter.interpret(&parse_code(",.,.").unwrap()).unwrap();
    assert_eq!(interpreter.output().as_slice(), b"AA");
}

#[test]
fn test_cell_wraparound_round_trip() {
    // A net cell delta that is a multiple of 256 leaves the cell as it
    // was: writing before and after shows the same byte.
    let mut interpreter = Interpreter::new(Vec::new(), Vec::new());
    interpreter
        .interpret(&[
            Token::IncrementByte(5),
            Token::WriteByte,
            Token::IncrementByte(200),
            Token::IncrementByte(56),
            Token::WriteByte,
            Token::DecrementByte(128),
            Token::DecrementByte(128),
            Token::WriteByte,
        ])
        .unwrap();
    assert_eq!(interpreter.output().as_slice(), &[5, 5, 5]);
}

#[test]
fn test_deterministic_run() {
    // Identical program and input stream: identical output and stats.
    let code = parse_code("++[>,.<-]").unwrap();
    let mut a = Interpreter::new(b"xy".to_vec(), Vec::new());
    let mut b = Interpreter::new(b"xy".to_vec(), Vec::new());
    a.interpret(&code).unwrap();
    b.interpret(&code).unwrap();
    assert_eq!(a.output(), b.output());
    assert_eq!(a.stats(), b.stats());
}

#[test]
fn test_reset() {
    let mut interpreter = Interpreter::new(b"ab".to_vec(), Vec::new());
    interpreter.interpret(&parse_code(">,.").unwrap()).unwrap();
    assert_eq!(interpreter.output().as_slice(), b"a");

    interpreter.reset();
    assert_eq!(
        interpreter.stats(),
        InterpretStats {
            instruction_count: 0,
            used_memory: 1
        }
    );

    // The streams are not touched by a reset: input already read stays
    // read, output already written stays written.
    interpreter.interpret(&parse_code(",.").unwrap()).unwrap();
    assert_eq!(interpreter.output().as_slice(), b"ab");
}

#[test]
fn test_tape_grows_only_on_demand() {
    let mut interpreter = Interpreter::new(Vec::new(), Vec::new());
    interpreter
        .interpret(&parse_code(">>>><<<<").unwrap())
        .unwrap();
    assert_eq!(
        interpreter.stats(),
        InterpretStats {
            instruction_count: 0,
            used_memory: 1
        }
    );

    let mut interpreter = Interpreter::new(Vec::new(), Vec::new());
    interpreter
        .interpret(&[
            Token::IncrementDataPointer(9),
            Token::DecrementDataPointer(9),
        ])
        .unwrap();
    assert_eq!(
        interpreter.stats(),
        InterpretStats {
            instruction_count: 18,
            used_memory: 10
        }
    );
}

#[test]
fn test_messages() {
    let mut interpreter = Interpreter::new(Vec::new(), Vec::new());
    interpreter
        .interpret(&[
            Token::IncrementDataPointer(64),
            Token::IncrementByte(128),
            Token::Loop(vec![Token::DecrementByte(1)]),
        ])
        .unwrap();
    assert_eq!(
        interpreter.stats().message(),
        "instruction count: 320, used memory: 65"
    );

    assert_eq!(
        InterpretError::DataPointerOutsideMemory.message(),
        "data pointer outside available memory"
    );
    assert_eq!(
        InterpretError::EmptyLoop.message(),
        "interpreter stuck in an empty loop"
    );
    assert_eq!(
        InterpretError::WriteError("broken pipe".to_string()).message(),
        "output error: broken pipe"
    );
    assert_eq!(
        InterpretError::StepLimitExceeded.message(),
        "interpreter exceeded its iteration budget"
    );
}
