use keyword_bf::lexer::Lexeme;
use keyword_bf::parser::{parser, Instruction, ParseError};

fn lexemes(ops: &str) -> Vec<Lexeme> {
    ops.chars()
        .filter_map(|c| match c {
            '>' => Some(Lexeme::IncrPtr),
            '<' => Some(Lexeme::DecrPtr),
            '+' => Some(Lexeme::Incr),
            '-' => Some(Lexeme::Decr),
            ',' => Some(Lexeme::Read),
            '.' => Some(Lexeme::Write),
            '[' => Some(Lexeme::LoopBegin),
            ']' => Some(Lexeme::LoopEnd),
            _ => None,
        })
        .collect()
}

fn size(p: &[Instruction]) -> usize {
    p.iter()
        .map(|i| match i {
            Instruction::Loop(b) => 2 + size(b),
            _ => 1,
        })
        .sum()
}

#[test]
fn parses_straight_line_code() {
    let p = parser(lexemes("><+-,.")).unwrap();
    assert_eq!(
        p,
        vec![
            Instruction::IncrPtr,
            Instruction::DecrPtr,
            Instruction::Incr,
            Instruction::Decr,
            Instruction::Read,
            Instruction::Write,
        ]
    );
}

#[test]
fn parses_empty_input() {
    assert_eq!(parser(vec![]), Ok(vec![]));
}

#[test]
fn parses_empty_loop() {
    assert_eq!(parser(lexemes("[]")), Ok(vec![Instruction::Loop(vec![])]));
}

#[test]
fn parses_nested_loops() {
    let p = parser(lexemes("+[>[-]<]")).unwrap();
    assert_eq!(
        p,
        vec![
            Instruction::Incr,
            Instruction::Loop(vec![
                Instruction::IncrPtr,
                Instruction::Loop(vec![Instruction::Decr]),
                Instruction::DecrPtr,
            ]),
        ]
    );
}

#[test]
fn adjacent_loops_close_independently() {
    let p = parser(lexemes("[+][-]")).unwrap();
    assert_eq!(
        p,
        vec![
            Instruction::Loop(vec![Instruction::Incr]),
            Instruction::Loop(vec![Instruction::Decr]),
        ]
    );
}

#[test]
fn balanced_sequences_keep_every_lexeme() {
    for ops in ["[]", "[][]", "[[]]", "[[][[]]][]", "+[>[-]<].", "[[[[]]]]"] {
        let ts = lexemes(ops);
        let p = parser(ts.clone()).unwrap();
        assert_eq!(size(&p), ts.len(), "{}", ops);
    }
}

#[test]
fn loop_body_spans_between_matching_pair() {
    // The loop begins at 1 and its matching end is at 9: a body of 7 lexemes.
    let p = parser(lexemes("+[[-]>[]<]-")).unwrap();
    assert_eq!(p.len(), 3);
    match &p[1] {
        Instruction::Loop(b) => {
            assert_eq!(size(b), 7);
            assert_eq!(size(b) + 2, 9 - 1 + 1);
        }
        other => panic!("expected a loop, got {:?}", other),
    }
}

#[test]
fn lone_loop_end_fails_at_its_index() {
    assert_eq!(parser(lexemes("]")), Err(ParseError::UnmatchedLoopEnd(0)));
    assert_eq!(parser(lexemes("+-]")), Err(ParseError::UnmatchedLoopEnd(2)));
    assert_eq!(parser(lexemes("><.,]+[")), Err(ParseError::UnmatchedLoopEnd(4)));
}

#[test]
fn first_unmatched_loop_end_is_reported() {
    assert_eq!(parser(lexemes("[]]]")), Err(ParseError::UnmatchedLoopEnd(2)));
}

#[test]
fn lone_loop_begin_fails_at_its_index() {
    assert_eq!(parser(lexemes("[")), Err(ParseError::UnmatchedLoopBegin(0)));
    assert_eq!(parser(lexemes("+-[")), Err(ParseError::UnmatchedLoopBegin(2)));
    assert_eq!(parser(lexemes("[].[+")), Err(ParseError::UnmatchedLoopBegin(3)));
}

#[test]
fn outermost_open_loop_is_reported() {
    assert_eq!(parser(lexemes("+[[]")), Err(ParseError::UnmatchedLoopBegin(1)));
    assert_eq!(parser(lexemes("[[[")), Err(ParseError::UnmatchedLoopBegin(0)));
}
