use sql_split::reader::Reader;
use sql_split::source::MemorySource;
use sql_split::token::{Token, TokenKind};
use sql_split::token_err::{terr, ErrorKind, TokenErr};
use sql_split::tokenizer::Tokenizer;

fn tokenizer_over(content: &[u8]) -> Tokenizer<MemorySource> {
    Tokenizer::new(Reader::new(MemorySource::new(content.to_vec())))
}

fn all_tokens(content: &[u8]) -> Result<Vec<Token>, TokenErr> {
    let mut tokenizer = tokenizer_over(content);
    let mut tokens = vec![];
    loop {
        let token = tokenizer.token()?;
        if token == Token::EOF {
            return Ok(tokens);
        }
        tokens.push(token);
    }
}

fn lex_error(content: &[u8]) -> &'static str {
    match all_tokens(content) {
        Ok(tokens) => panic!("expected an error, got {:?}", tokens),
        Err(e) => e.text,
    }
}

#[test]
fn value_of_every_variant() {
    assert_eq!(Token::String(b"'a'".to_vec()).value(), b"'a'".to_vec());
    assert_eq!(Token::Keyword(b"SET".to_vec()).value(), b"SET".to_vec());
    assert_eq!(Token::Comment(b"/**/".to_vec()).value(), b"/**/".to_vec());
    assert_eq!(Token::InlineComment(b"--\n".to_vec()).value(), b"--\n".to_vec());
    assert_eq!(Token::Identifier(b"`t`".to_vec()).value(), b"`t`".to_vec());
    assert_eq!(Token::Ignore(b'=').value(), vec![b'=']);
    assert_eq!(Token::Comma.value(), vec![b',']);
    assert_eq!(Token::LP.value(), vec![b'(']);
    assert_eq!(Token::RP.value(), vec![b')']);
    assert_eq!(Token::SemiColon.value(), vec![b';']);
    assert_eq!(Token::Dot.value(), vec![b'.']);
    assert_eq!(Token::Space.value(), vec![b' ']);
    assert_eq!(Token::LineFeed(b'\t').value(), vec![b'\t']);
    assert_eq!(Token::EOF.value(), Vec::<u8>::new());
}

#[test]
fn keyword_matches_without_regard_to_case() {
    let token = Token::Keyword(b"InSeRt".to_vec());
    assert!(token.keyword("insert"));
    assert!(!token.keyword("inser"));
    assert!(!token.keyword("inserts"));
    assert!(!token.keyword("INSERT"));
    assert!(!token.keyword("values"));
    assert!(Token::Keyword(b"values".to_vec()).keyword("values"));
    assert!(Token::Keyword(vec![]).keyword(""));
}

#[test]
fn keyword_is_false_of_other_tokens() {
    assert!(!Token::String(b"insert".to_vec()).keyword("insert"));
    assert!(!Token::Identifier(b"insert".to_vec()).keyword("insert"));
    assert!(!Token::Space.keyword(" "));
    assert!(!Token::EOF.keyword(""));
}

#[test]
fn kind_of_a_token() {
    assert_eq!(Token::String(vec![]).kind(), TokenKind::String);
    assert_eq!(Token::LineFeed(b'\n').kind(), TokenKind::LineFeed);
    assert_eq!(Token::Ignore(b'*').kind(), TokenKind::Ignore);
    assert_eq!(Token::EOF.kind(), TokenKind::EOF);
}

#[test]
fn same_compares_class_and_bytes() {
    assert!(Token::RP.same(&Token::RP));
    assert!(!Token::RP.same(&Token::LP));
    assert!(Token::Keyword(b"a".to_vec()).same(&Token::Keyword(b"a".to_vec())));
    assert!(!Token::Keyword(b"a".to_vec()).same(&Token::Keyword(b"b".to_vec())));
    assert!(!Token::Keyword(b"a".to_vec()).same(&Token::String(b"a".to_vec())));
    assert!(Token::LineFeed(b'\n').same(&Token::LineFeed(b'\n')));
    assert!(!Token::LineFeed(b'\n').same(&Token::LineFeed(b'\r')));
    assert!(!Token::Ignore(b'\n').same(&Token::LineFeed(b'\n')));
}

#[test]
fn terr_carries_its_text() {
    let r: Result<u8, TokenErr> = terr("Invalid sql file.");
    assert_eq!(r.unwrap_err().text, "Invalid sql file.");
}

#[test]
fn error_kinds_have_their_texts() {
    assert_eq!(ErrorKind::UnclosedString.text(), "Unclosed string.");
    assert_eq!(ErrorKind::IncompleteComment.text(), "Incomplete multi-line comment.");
    assert_eq!(ErrorKind::UnterminatedKeyword.text(), "While parsing keyword.");
    assert_eq!(ErrorKind::UnexpectedEnd.text(), "Unexpected end of the file.");
    assert_eq!(ErrorKind::IncompleteInsert.text(), "Incomplete Insert statement.");
    assert_eq!(ErrorKind::UnparsableValues.text(), "Unable to parse values.");
    assert_eq!(ErrorKind::InvalidSql.text(), "Invalid sql file.");
    let r: Result<(), TokenErr> = ErrorKind::InvalidSql.fail();
    assert_eq!(r.unwrap_err().text, "Invalid sql file.");
}

#[test]
fn empty_input_is_the_end() {
    let mut tokenizer = tokenizer_over(b"");
    assert_eq!(tokenizer.token().unwrap(), Token::EOF);
    assert_eq!(tokenizer.token().unwrap(), Token::EOF);
}

#[test]
fn every_class_of_token() {
    let tokens = all_tokens(b"SELECT `a`.b, 'x\\'y', \"z\", 42 /* c */ (1);\r\n\t-- end\n= / - ").unwrap();
    let expected = vec![
        Token::Keyword(b"SELECT".to_vec()),
        Token::Space,
        Token::Identifier(b"`a`".to_vec()),
        Token::Dot,
        Token::Keyword(b"b".to_vec()),
        Token::Comma,
        Token::Space,
        Token::String(b"'x\\'y'".to_vec()),
        Token::Comma,
        Token::Space,
        Token::String(b"\"z\"".to_vec()),
        Token::Comma,
        Token::Space,
        Token::String(b"42".to_vec()),
        Token::Space,
        Token::Comment(b"/* c */".to_vec()),
        Token::Space,
        Token::LP,
        Token::String(b"1".to_vec()),
        Token::RP,
        Token::SemiColon,
        Token::LineFeed(b'\r'),
        Token::LineFeed(b'\n'),
        Token::LineFeed(b'\t'),
        Token::InlineComment(b"-- end\n".to_vec()),
        Token::Ignore(b'='),
        Token::Space,
        Token::Ignore(b'/'),
        Token::Space,
        Token::Ignore(b'-'),
        Token::Space,
    ];
    assert_eq!(tokens, expected);
}

#[test]
fn a_quote_of_the_other_kind_does_not_close() {
    let tokens = all_tokens(b"'a\"b' \"c'd\"").unwrap();
    assert_eq!(
        tokens,
        vec![
            Token::String(b"'a\"b'".to_vec()),
            Token::Space,
            Token::String(b"\"c'd\"".to_vec()),
        ]
    );
}

#[test]
fn an_empty_string_closes_at_once() {
    let tokens = all_tokens(b"'';").unwrap();
    assert_eq!(tokens, vec![Token::String(b"''".to_vec()), Token::SemiColon]);
}

#[test]
fn a_quote_behind_a_backslash_does_not_close() {
    assert_eq!(lex_error(b"'a\\'"), "Unclosed string.");
    assert_eq!(lex_error(b"\"a\\\""), "Unclosed string.");
    assert_eq!(lex_error(b"'a\\\\\\'"), "Unclosed string.");
    let tokens = all_tokens(b"'a\\'b';").unwrap();
    assert_eq!(tokens, vec![Token::String(b"'a\\'b'".to_vec()), Token::SemiColon]);
}

#[test]
fn a_quote_behind_an_escaped_backslash_closes() {
    let tokens = all_tokens(&[0x27, 0x5c, 0x5c, 0x27, b';']).unwrap();
    assert_eq!(tokens, vec![Token::String(vec![0x27, 0x5c, 0x5c, 0x27]), Token::SemiColon]);
    let tokens = all_tokens(b"'C:\\\\','x'").unwrap();
    assert_eq!(
        tokens,
        vec![
            Token::String(b"'C:\\\\'".to_vec()),
            Token::Comma,
            Token::String(b"'x'".to_vec()),
        ]
    );
    let tokens = all_tokens(b"'\\\\\\'' ").unwrap();
    assert_eq!(tokens, vec![Token::String(b"'\\\\\\''".to_vec()), Token::Space]);
}

#[test]
fn a_backslash_escapes_any_byte() {
    let tokens = all_tokens(b"'a\\nb\\\\' ").unwrap();
    assert_eq!(tokens, vec![Token::String(b"'a\\nb\\\\'".to_vec()), Token::Space]);
    let tokens = all_tokens(b"\\'a' ").unwrap();
    assert_eq!(
        tokens,
        vec![Token::Ignore(b'\\'), Token::String(b"'a'".to_vec()), Token::Space]
    );
}

#[test]
fn comment_runs_over_lines() {
    let tokens = all_tokens(b"/* a\n * b\n */;").unwrap();
    assert_eq!(tokens, vec![Token::Comment(b"/* a\n * b\n */".to_vec()), Token::SemiColon]);
}

#[test]
fn comment_ends_at_the_first_star_slash_behind_its_opening() {
    let tokens = all_tokens(b"/* a */ */").unwrap();
    assert_eq!(
        tokens,
        vec![
            Token::Comment(b"/* a */".to_vec()),
            Token::Space,
            Token::Ignore(b'*'),
            Token::Ignore(b'/'),
        ]
    );
    let tokens = all_tokens(b"/**/;").unwrap();
    assert_eq!(tokens, vec![Token::Comment(b"/**/".to_vec()), Token::SemiColon]);
    let tokens = all_tokens(b"/*/ */;").unwrap();
    assert_eq!(tokens, vec![Token::Comment(b"/*/ */".to_vec()), Token::SemiColon]);
    let tokens = all_tokens(b"/***/;").unwrap();
    assert_eq!(tokens, vec![Token::Comment(b"/***/".to_vec()), Token::SemiColon]);
}

#[test]
fn the_star_that_opens_a_comment_does_not_close_it() {
    assert_eq!(lex_error(b"/*/"), "Incomplete multi-line comment.");
    assert_eq!(lex_error(b"/*/ abc"), "Incomplete multi-line comment.");
}

#[test]
fn inline_comment_may_end_with_the_input() {
    let tokens = all_tokens(b"-- no newline").unwrap();
    assert_eq!(tokens, vec![Token::InlineComment(b"-- no newline".to_vec())]);
}

#[test]
fn number_may_end_with_the_input() {
    let tokens = all_tokens(b"12 345").unwrap();
    assert_eq!(
        tokens,
        vec![Token::String(b"12".to_vec()), Token::Space, Token::String(b"345".to_vec())]
    );
}

#[test]
fn bytes_outside_the_grammar_pass_through() {
    let tokens = all_tokens(&[0, 0xff, b'=', b'*', b'_']).unwrap();
    assert_eq!(
        tokens,
        vec![
            Token::Ignore(0),
            Token::Ignore(0xff),
            Token::Ignore(b'='),
            Token::Ignore(b'*'),
            Token::Ignore(b'_'),
        ]
    );
}

#[test]
fn unclosed_string_is_an_error() {
    assert_eq!(lex_error(b"SELECT 'abc"), "Unclosed string.");
    assert_eq!(lex_error(b"\"abc'"), "Unclosed string.");
    assert_eq!(lex_error(b"'"), "Unclosed string.");
}

#[test]
fn unclosed_comment_is_an_error() {
    assert_eq!(lex_error(b"/* abc"), "Incomplete multi-line comment.");
    assert_eq!(lex_error(b"/* abc *"), "Incomplete multi-line comment.");
    assert_eq!(lex_error(b"/*"), "Incomplete multi-line comment.");
}

#[test]
fn keyword_at_the_end_of_input_is_an_error() {
    assert_eq!(lex_error(b"SELECT"), "While parsing keyword.");
    assert_eq!(lex_error(b"a;b"), "While parsing keyword.");
}

#[test]
fn unclosed_identifier_is_an_error() {
    assert_eq!(lex_error(b"`abc"), "Unexpected end of the file.");
    assert_eq!(lex_error(b"`"), "Unexpected end of the file.");
}

#[test]
fn tokens_put_together_are_the_input() {
    let inputs: Vec<&[u8]> = vec![
        b"",
        b"-- hi\nCREATE TABLE t (a int);\nINSERT INTO t VALUES (1),(2),(3);",
        b"/* x */ `a`.`b` = 'it\\'s' -- y\n\t\r\n 0012 --",
        &[0, 1, 2, 0xfe, b'/', b'/', b'-', b' '],
    ];
    for input in inputs {
        let tokens = all_tokens(input).unwrap();
        let mut bytes = vec![];
        for token in tokens {
            bytes.extend(token.value());
        }
        assert_eq!(bytes, input.to_vec());
    }
}

#[test]
fn tokens_before_an_error_are_the_front_of_the_input() {
    let input = b"SELECT `a`, 12 FROM t WHERE b = 'abc";
    let mut tokenizer = tokenizer_over(input);
    let mut bytes = vec![];
    let error = loop {
        match tokenizer.token() {
            Ok(token) => bytes.extend(token.value()),
            Err(e) => break e,
        }
    };
    assert_eq!(error.text, "Unclosed string.");
    assert_eq!(bytes, b"SELECT `a`, 12 FROM t WHERE b = ".to_vec());
}
