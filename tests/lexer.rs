use rustre_parser::lexer::{Error, Lexer, Location, Tok, TokInfo};

fn check_tok_info<'a, 'f>(actual: Vec<Tok<'a, 'f>>, expected: Vec<TokInfo<'a>>) {
    assert_eq!(actual.len(), expected.len());

    for (ref a, ref e) in actual.iter().zip(expected.iter()) {
        assert_eq!(a.item, **e);
    }
}

fn test_lexer<'a>(src: &'a str, expected: Vec<TokInfo<'a>>) {
    let mut lex = Lexer::new("main.lus", src);
    let toks = lex.lex().unwrap();
    check_tok_info(toks, expected);
}

#[test]
fn test_empty() {
    test_lexer("", vec![TokInfo::EOF])
}

#[test]
fn test_keyword() {
    test_lexer("function", vec![TokInfo::Function, TokInfo::EOF])
}

#[test]
fn test_keywords() {
    test_lexer(
        "extern function",
        vec![TokInfo::Extern, TokInfo::Function, TokInfo::EOF],
    );
    test_lexer(
        "functional",
        vec![TokInfo::Ident("functional"), TokInfo::EOF],
    );
}

#[test]
fn test_spaces() {
    test_lexer(
        "extern\n  \t\r\nfunction",
        vec![TokInfo::Extern, TokInfo::Function, TokInfo::EOF],
    );
    test_lexer(
        "\n  \t\r\nextern function",
        vec![TokInfo::Extern, TokInfo::Function, TokInfo::EOF],
    );
    test_lexer(
        "extern function\n  \t\r\n",
        vec![TokInfo::Extern, TokInfo::Function, TokInfo::EOF],
    );
}

#[test]
fn test_iconst() {
    test_lexer(
        "42 -12",
        vec![TokInfo::IConst(42), TokInfo::IConst(-12), TokInfo::EOF],
    )
}

#[test]
fn test_rconst() {
    let mut lex = Lexer::new("main.lus", "33.3");
    let toks = lex.lex().unwrap();
    assert_eq!(toks.len(), 2);
    match toks[0].item {
        TokInfo::RConst(text) => assert_eq!(text.parse::<f64>().unwrap(), 33.3),
        ref other => panic!("expected a real constant, found {:?}", other),
    }
    assert_eq!(toks[1].item, TokInfo::EOF);
}

#[test]
fn test_str() {
    test_lexer(
        "include \"memoire.lus\"",
        vec![TokInfo::Include, TokInfo::Str("memoire.lus"), TokInfo::EOF],
    );
}

#[test]
fn test_comments() {
    test_lexer(
        "-- comment\nfunction\nfunction --comment",
        vec![TokInfo::Function, TokInfo::Function, TokInfo::EOF],
    );
    test_lexer(
        "include (* hello *) extern /* world */ function",
        vec![
            TokInfo::Include,
            TokInfo::Extern,
            TokInfo::Function,
            TokInfo::EOF,
        ],
    )
}

#[test]
fn test_ops() {
    test_lexer(
        "12 + 3",
        vec![
            TokInfo::IConst(12),
            TokInfo::Plus,
            TokInfo::IConst(3),
            TokInfo::EOF,
        ],
    );
    test_lexer(
        "42*7",
        vec![
            TokInfo::IConst(42),
            TokInfo::Star,
            TokInfo::IConst(7),
            TokInfo::EOF,
        ],
    );
}

#[test]
fn test_ident() {
    test_lexer(
        "a aaaa",
        vec![TokInfo::Ident("a"), TokInfo::Ident("aaaa"), TokInfo::EOF],
    )
}

#[test]
fn test_static_pars() {
    test_lexer(
        "function a<<const n : int>>()",
        vec![
            TokInfo::Function,
            TokInfo::Ident("a"),
            TokInfo::OpenStaticPar,
            TokInfo::Const,
            TokInfo::Ident("n"),
            TokInfo::Colon,
            TokInfo::Int,
            TokInfo::CloseStaticPar,
            TokInfo::OpenPar,
            TokInfo::ClosePar,
            TokInfo::EOF,
        ],
    )
}

#[test]
fn test_unclosed_str() {
    let mut lexer = Lexer::new("main.lus", "\"hello ");
    assert_eq!(lexer.lex(), Err(Error::UnclosedStr));
}

#[test]
fn test_unclosed_comment() {
    let mut lexer = Lexer::new("main.lus", "/* hello ");
    assert_eq!(lexer.lex(), Err(Error::UnclosedComment));
}

// ---------------------------------------------------------------------------

#[test]
fn empty_source_has_one_eof_at_origin() {
    let mut lex = Lexer::new("main.lus", "");
    let toks = lex.lex().unwrap();
    assert_eq!(toks.len(), 1);
    assert_eq!(toks[0].item, TokInfo::EOF);
    let origin = Location { line: 1, col: 0, pos: 0 };
    assert_eq!(toks[0].span.start, origin);
    assert_eq!(toks[0].span.end, origin);
    assert_eq!(toks[0].span.file, "main.lus");
}

#[test]
fn arrow_is_one_token() {
    test_lexer("->", vec![TokInfo::Arrow, TokInfo::EOF]);
    test_lexer("<<", vec![TokInfo::OpenStaticPar, TokInfo::EOF]);
    test_lexer("=> <= <> >= .. ** >>", vec![
        TokInfo::Impl,
        TokInfo::Lte,
        TokInfo::Neq,
        TokInfo::Gte,
        TokInfo::CDots,
        TokInfo::Power,
        TokInfo::CloseStaticPar,
        TokInfo::EOF,
    ]);
}

#[test]
fn line_comment_ends_at_end_of_input() {
    test_lexer("-- line comment", vec![TokInfo::EOF]);
}

#[test]
fn unclosed_paren_comment_fails() {
    let mut lexer = Lexer::new("main.lus", "(* open *");
    assert_eq!(lexer.lex(), Err(Error::UnclosedComment));
    let mut lexer = Lexer::new("main.lus", "/* wrong closer *)");
    assert_eq!(lexer.lex(), Err(Error::UnclosedComment));
}

#[test]
fn string_spans_lines() {
    let mut lex = Lexer::new("f.lus", "\"a\nb\" x");
    let toks = lex.lex().unwrap();
    assert_eq!(toks[0].item, TokInfo::Str("a\nb"));
    assert_eq!(toks[0].span.start, Location { line: 1, col: 1, pos: 1 });
    assert_eq!(toks[0].span.end, Location { line: 2, col: 1, pos: 4 });
    assert_eq!(toks[1].item, TokInfo::Ident("x"));
    assert_eq!(toks[1].span.start, Location { line: 2, col: 3, pos: 6 });
    assert_eq!(toks[1].span.end, Location { line: 2, col: 4, pos: 7 });
    assert_eq!(toks[2].span.start, Location { line: 2, col: 4, pos: 7 });
}

#[test]
fn spans_count_lines_columns_and_bytes() {
    let mut lex = Lexer::new("f.lus", "let\n  été = 1");
    let toks = lex.lex().unwrap();
    assert_eq!(toks[0].item, TokInfo::Let);
    assert_eq!(toks[0].span.end, Location { line: 1, col: 3, pos: 3 });
    assert_eq!(toks[1].item, TokInfo::Ident("été"));
    assert_eq!(toks[1].span.start, Location { line: 2, col: 2, pos: 6 });
    assert_eq!(toks[1].span.end, Location { line: 2, col: 5, pos: 11 });
    assert_eq!(toks[2].item, TokInfo::Equal);
    assert_eq!(toks[3].item, TokInfo::IConst(1));
}

#[test]
fn integer_limits() {
    test_lexer("9223372036854775807", vec![TokInfo::IConst(i64::MAX), TokInfo::EOF]);
    test_lexer("-9223372036854775808", vec![TokInfo::IConst(i64::MIN), TokInfo::EOF]);
    test_lexer("+7", vec![TokInfo::IConst(7), TokInfo::EOF]);
    // one past the largest i64 reads as a real
    test_lexer("9223372036854775808", vec![TokInfo::RConst("9223372036854775808"), TokInfo::EOF]);
}

#[test]
fn real_forms() {
    test_lexer("1.5e3", vec![TokInfo::RConst("1.5e3"), TokInfo::EOF]);
    test_lexer(".5", vec![TokInfo::RConst(".5"), TokInfo::EOF]);
    test_lexer("2E-2", vec![TokInfo::RConst("2E-2"), TokInfo::EOF]);
    test_lexer("inf", vec![TokInfo::RConst("inf"), TokInfo::EOF]);
    test_lexer("1..2", vec![TokInfo::RConst("1."), TokInfo::RConst(".2"), TokInfo::EOF]);
}

#[test]
fn unmatched_characters_are_skipped() {
    test_lexer("a @ b", vec![TokInfo::Ident("a"), TokInfo::Ident("b"), TokInfo::EOF]);
}

#[test]
fn long_words_are_read_whole() {
    test_lexer(
        "averyveryverylongname=123456789012;x1.5e+10",
        vec![
            TokInfo::Ident("averyveryverylongname"),
            TokInfo::Equal,
            TokInfo::IConst(123456789012),
            TokInfo::Semicolon,
            TokInfo::Ident("x1"),
            TokInfo::RConst(".5e+10"),
            TokInfo::EOF,
        ],
    );
    test_lexer("-infinity+", vec![TokInfo::RConst("-infinity"), TokInfo::Plus, TokInfo::EOF]);
}
