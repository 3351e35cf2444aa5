use brainfuck_rs::errors::ParseError;
use brainfuck_rs::parser::{parse_code, Token};

#[test]
fn test_parser() {
    let code = parse_code("> + < - . , [ + ]").unwrap();
    assert_eq!(
        code,
        &[
            Token::IncrementDataPointer(1),
            Token::IncrementByte(1),
            Token::DecrementDataPointer(1),
            Token::DecrementByte(1),
            Token::WriteByte,
            Token::ReadByte,
            Token::Loop(vec![Token::IncrementByte(1)])
        ]
    )
}

#[test]
fn test_optimizations() {
    let code = parse_code(">><< ++-- <<>> --++").unwrap();
    assert_eq!(code, &[]);

    let code = parse_code(">>>< +++- <<<> ---+").unwrap();
    assert_eq!(
        code,
        &[
            Token::IncrementDataPointer(2),
            Token::IncrementByte(2),
            Token::DecrementDataPointer(2),
            Token::DecrementByte(2)
        ]
    );

    let code = parse_code("><<< +--- <>>> -+++").unwrap();
    assert_eq!(
        code,
        &[
            Token::DecrementDataPointer(2),
            Token::DecrementByte(2),
            Token::IncrementDataPointer(2),
            Token::IncrementByte(2)
        ]
    );
}

#[test]
fn parser_test_errors() {
    let err = parse_code("[+][").unwrap_err();
    assert_eq!(err, ParseError::UnmatchedSymbol('['));

    let err = parse_code("[+]]").unwrap_err();
    assert_eq!(err, ParseError::UnmatchedSymbol(']'));
}

#[test]
fn test_empty_and_comments() {
    assert_eq!(parse_code("").unwrap(), &[]);
    assert_eq!(parse_code("hello world! 123 \n\t").unwrap(), &[]);
}

#[test]
fn test_cancellation_blocks() {
    // Balanced single-axis runs cancel exactly, alone and strung together.
    assert_eq!(parse_code("><").unwrap(), &[]);
    assert_eq!(parse_code("<>").unwrap(), &[]);
    assert_eq!(parse_code("+-").unwrap(), &[]);
    assert_eq!(parse_code("-+").unwrap(), &[]);
    assert_eq!(parse_code("><><+--+<><>").unwrap(), &[]);
}

#[test]
fn test_cell_run_wraps_to_zero_delta() {
    // 256 consecutive `+` wrap the merged node to a zero delta; the node
    // stays rather than being removed.
    let code = parse_code(&"+".repeat(256)).unwrap();
    assert_eq!(code, &[Token::IncrementByte(0)]);

    let code = parse_code(&"-".repeat(256)).unwrap();
    assert_eq!(code, &[Token::DecrementByte(0)]);
}

#[test]
fn test_nested_loops() {
    let code = parse_code("[[,]>]").unwrap();
    assert_eq!(
        code,
        &[Token::Loop(vec![
            Token::Loop(vec![Token::ReadByte]),
            Token::IncrementDataPointer(1)
        ])]
    );
}

#[test]
fn test_empty_loop_body_parses() {
    // An empty loop body is legal at parse time; it only faults when
    // entered with a nonzero guard.
    let code = parse_code("[]").unwrap();
    assert_eq!(code, &[Token::Loop(vec![])]);
}

#[test]
fn test_deterministic_parse() {
    let a = parse_code("++[>+<-]>.").unwrap();
    let b = parse_code("++[>+<-]>.").unwrap();
    assert_eq!(a, b);
}

#[test]
fn test_parse_error_messages() {
    assert_eq!(
        ParseError::UnmatchedSymbol('[').message(),
        "unmatched `[`"
    );
    assert_eq!(
        ParseError::UnmatchedSymbol(']').message(),
        "unmatched `]`"
    );
    assert_eq!(
        ParseError::DataPointerIncrementOverflow.message(),
        "data pointer increment overflow"
    );
    assert_eq!(
        ParseError::DataPointerDecrementOverflow.message(),
        "data pointer decrement overflow"
    );
}
