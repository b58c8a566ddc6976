use keyword_bf::lexer::{lexeme_of, lexer, symbol_lexeme, translator, Lexeme};

fn symbols(ts: &[Lexeme]) -> String {
    ts.iter()
        .map(|t| match t {
            Lexeme::IncrPtr => '>',
            Lexeme::DecrPtr => '<',
            Lexeme::Incr => '+',
            Lexeme::Decr => '-',
            Lexeme::Read => ',',
            Lexeme::Write => '.',
            Lexeme::LoopBegin => '[',
            Lexeme::LoopEnd => ']',
        })
        .collect()
}

#[test]
fn lexes_every_keyword() {
    let got = lexer("Alexander sanya ALEX SAN sanyok sasha saa sha".to_string());
    assert_eq!(
        got,
        vec![
            Lexeme::IncrPtr,
            Lexeme::DecrPtr,
            Lexeme::Incr,
            Lexeme::Decr,
            Lexeme::Read,
            Lexeme::Write,
            Lexeme::LoopBegin,
            Lexeme::LoopEnd,
        ]
    );
}

#[test]
fn lexes_empty_text() {
    assert_eq!(lexer(String::new()), vec![]);
    assert_eq!(lexer("   ".to_string()), vec![]);
}

#[test]
fn drops_unknown_words() {
    let got = lexer("hello ALEX world  sha alex ALEXANDER".to_string());
    assert_eq!(got, vec![Lexeme::Incr, Lexeme::LoopEnd]);
}

#[test]
fn splits_on_single_spaces_only() {
    // A newline is part of a word, so "ALEX\nSAN" is no keyword.
    assert_eq!(lexer("ALEX\nSAN".to_string()), vec![]);
    assert_eq!(lexer("ALEX SAN\n".to_string()), vec![Lexeme::Incr]);
}

#[test]
fn translates_operators_to_keywords() {
    assert_eq!(translator("+-".to_string()), "ALEX SAN ");
    assert_eq!(
        translator("><+-,.[]".to_string()),
        "Alexander sanya ALEX SAN sanyok sasha saa sha "
    );
}

#[test]
fn translation_drops_other_characters() {
    assert_eq!(translator("a + b\n]".to_string()), "ALEX sha ");
    assert_eq!(translator("no operators here".to_string()), "");
    assert_eq!(translator(String::new()), "");
}

#[test]
fn translation_round_trips_through_lexer() {
    let source = "x+[->>+<<]. ,é<";
    let back = symbols(&lexer(translator(source.to_string())));
    assert_eq!(back, "+[->>+<<].,<");
}

#[test]
fn noise_words_do_not_change_lexemes() {
    let plain = lexer("ALEX saa SAN sha".to_string());
    let noisy = lexer("junk ALEX saa  é SAN xyz sha".to_string());
    let front = lexer("ALEXX ALEX saa SAN sha".to_string());
    assert_eq!(plain, noisy);
    assert_eq!(plain, front);
}

#[test]
fn single_words() {
    assert_eq!(lexeme_of(&"sanyok".chars().collect()), Some(Lexeme::Read));
    assert_eq!(lexeme_of(&"sany".chars().collect()), None);
    assert_eq!(lexeme_of(&vec![]), None);
    assert_eq!(symbol_lexeme('.'), Some(Lexeme::Write));
    assert_eq!(symbol_lexeme('x'), None);
}
