use sql_split::parser::{Parser, TokenStream};
use sql_split::reader::Reader;
use sql_split::source::MemorySource;
use sql_split::token::Token;
use sql_split::token_err::TokenErr;
use sql_split::tokenizer::Tokenizer;

type TS = Result<TokenStream, TokenErr>;

fn parser_over(content: &[u8]) -> Parser<MemorySource> {
    Parser::new(Tokenizer::new(Reader::new(MemorySource::new(content.to_vec()))))
}

fn all_units(content: &[u8]) -> Result<Vec<TokenStream>, TokenErr> {
    let mut parser = parser_over(content);
    let mut units = vec![];
    loop {
        let unit = parser.token_stream()?;
        if unit == TokenStream::End {
            return Ok(units);
        }
        units.push(unit);
    }
}

fn parse_error(content: &[u8]) -> &'static str {
    match all_units(content) {
        Ok(units) => panic!("expected an error, got {:?}", units),
        Err(e) => e.text,
    }
}

fn bytes_of(unit: &TokenStream) -> Vec<u8> {
    match unit {
        TokenStream::Insert(bytes, _) => bytes.clone(),
        TokenStream::ValuesTuple(bytes) => bytes.clone(),
        TokenStream::Block(bytes) => bytes.clone(),
        TokenStream::Comment(bytes) => bytes.clone(),
        TokenStream::SpaceOrLineFeed(bytes) => bytes.clone(),
        TokenStream::End => vec![],
    }
}

fn is_space(value: TS) -> bool {
    match value {
        Ok(TokenStream::SpaceOrLineFeed(_)) => true,
        _ => false,
    }
}

fn is_comment(value: TS) -> bool {
    match value {
        Ok(TokenStream::Comment(_)) => true,
        _ => false,
    }
}

fn valid_values_tuple(value: TS) -> (bool, &'static str) {
    match value {
        Ok(TokenStream::ValuesTuple(tokens)) => match tokens[tokens.len() - 1] {
            b';' => (true, ""),
            _ => (false, "Last token should be semicolon or comma"),
        },
        _ => (false, "expected ValuesTuple"),
    }
}

fn valid_block(value: TS) -> (bool, &'static str) {
    match value {
        Ok(TokenStream::Block(tokens)) => match tokens[tokens.len() - 1] {
            b';' => (true, ""),
            _ => (false, "Last token should be semicolon"),
        },
        _ => (false, "expected block"),
    }
}

fn valid_insert(value: TS) -> (bool, &'static str) {
    match value {
        Ok(TokenStream::Insert(tokens, _)) => match tokens[tokens.len() - 1] {
            b';' => (true, ""),
            b',' => (true, ""),
            _ => (false, "Last token should be semicolon or Comma"),
        },
        _ => (false, "expected insert statement"),
    }
}

const SMALL: &[u8] = b"-- a small dump\n-- of two tables\n\nCREATE TABLE `a` (`id` int(11) NOT NULL, `name` varchar(20));\n\nINSERT INTO `a` VALUES (1,'x');\nINSERT INTO `a` (`id`) VALUES (2);\n\nSET FOREIGN_KEY_CHECKS = 0;\n\nCREATE TABLE `b` (`id` int);\n\nINSERT INTO `b` VALUES (1),(2);";

#[test]
fn tokenizer() {
    let mut parser = parser_over(SMALL);

    // inline comment
    assert!(is_comment(parser.token_stream()), "Expecting a comment");
    assert!(is_comment(parser.token_stream()), "Expecting a comment");

    // comment ends with "\n"
    // so we only expect one new line
    assert!(is_space(parser.token_stream()), "white space");

    // create table
    let (state, msg) = valid_block(parser.token_stream());
    assert!(state, "{}", msg);

    // white space or line feed
    assert!(is_space(parser.token_stream()), "white space");
    assert!(is_space(parser.token_stream()), "white space");

    // insert
    let (state, msg) = valid_insert(parser.token_stream());
    assert!(state, "{}", msg);

    assert!(is_space(parser.token_stream()), "white space");

    let (state, msg) = valid_insert(parser.token_stream());
    assert!(state, "{}", msg);

    // line feeds
    assert!(is_space(parser.token_stream()), "white space");
    assert!(is_space(parser.token_stream()), "white space");

    // set FOREIGN_KEY_CHECKS block
    let (state, msg) = valid_block(parser.token_stream());
    assert!(state, "{}", msg);

    // line feed
    assert!(is_space(parser.token_stream()), "white space");
    assert!(is_space(parser.token_stream()), "white space");

    // create table block
    let (state, msg) = valid_block(parser.token_stream());
    assert!(state, "{}", msg);

    // line feed
    assert!(is_space(parser.token_stream()), "white space");
    assert!(is_space(parser.token_stream()), "white space");

    // insert
    let (state, msg) = valid_insert(parser.token_stream());
    assert!(state, "{}", msg);

    // value tuple
    let (state, msg) = valid_values_tuple(parser.token_stream());
    assert!(state, "{}", msg);

    assert_eq!(parser.token_stream().unwrap(), TokenStream::End);
}

#[test]
fn empty_input_has_no_unit() {
    let mut parser = parser_over(b"");
    assert_eq!(parser.token_stream().unwrap(), TokenStream::End);
    assert_eq!(parser.token_stream().unwrap(), TokenStream::End);
}

#[test]
fn units_of_a_dump() {
    let units = all_units(b"-- hi\nCREATE TABLE t (a int);\nINSERT INTO t VALUES (1),(2),(3);").unwrap();
    assert_eq!(
        units,
        vec![
            TokenStream::Comment(b"-- hi\n".to_vec()),
            TokenStream::Block(b"CREATE TABLE t (a int);".to_vec()),
            TokenStream::SpaceOrLineFeed(b"\n".to_vec()),
            TokenStream::Insert(
                b"INSERT INTO t VALUES (1),".to_vec(),
                b"INSERT INTO t VALUES ".to_vec()
            ),
            TokenStream::ValuesTuple(b"(2),".to_vec()),
            TokenStream::ValuesTuple(b"(3);".to_vec()),
        ]
    );
}

#[test]
fn insert_prefix_ends_with_one_space() {
    let units = all_units(b"insert into t values(1);").unwrap();
    assert_eq!(
        units,
        vec![TokenStream::Insert(
            b"insert into t values(1);".to_vec(),
            b"insert into t values ".to_vec()
        )]
    );
    let units = all_units(b"Insert Into `t` (`a`, `b`) Values\n(1, 'x;y,z'),\n(2, 'w');").unwrap();
    assert_eq!(
        units,
        vec![
            TokenStream::Insert(
                b"Insert Into `t` (`a`, `b`) Values\n(1, 'x;y,z'),".to_vec(),
                b"Insert Into `t` (`a`, `b`) Values ".to_vec()
            ),
            TokenStream::SpaceOrLineFeed(b"\n".to_vec()),
            TokenStream::ValuesTuple(b"(2, 'w');".to_vec()),
        ]
    );
}

#[test]
fn commas_inside_parentheses_do_not_end_a_row() {
    let units = all_units(b"INSERT INTO t VALUES (1,2,3) , (4,5);").unwrap();
    assert_eq!(
        units,
        vec![
            TokenStream::Insert(
                b"INSERT INTO t VALUES (1,2,3) ,".to_vec(),
                b"INSERT INTO t VALUES ".to_vec()
            ),
            TokenStream::SpaceOrLineFeed(b" ".to_vec()),
            TokenStream::ValuesTuple(b"(4,5);".to_vec()),
        ]
    );
}

#[test]
fn a_row_ends_at_the_first_separator_outside_parentheses() {
    let units = all_units(b"(1) (2,3), (4);").unwrap();
    assert_eq!(
        units,
        vec![
            TokenStream::ValuesTuple(b"(1) (2,3),".to_vec()),
            TokenStream::SpaceOrLineFeed(b" ".to_vec()),
            TokenStream::ValuesTuple(b"(4);".to_vec()),
        ]
    );
}

#[test]
fn a_block_ends_at_the_first_semicolon_outside_parentheses() {
    let units = all_units(b"SET a = (1;SELECT 2);").unwrap();
    assert_eq!(units, vec![TokenStream::Block(b"SET a = (1;SELECT 2);".to_vec())]);
    let units = all_units(b"SET (;);").unwrap();
    assert_eq!(units, vec![TokenStream::Block(b"SET (;);".to_vec())]);
    let units = all_units(b"SET a = 1, b = ';';DROP TABLE t;").unwrap();
    assert_eq!(
        units,
        vec![
            TokenStream::Block(b"SET a = 1, b = ';';".to_vec()),
            TokenStream::Block(b"DROP TABLE t;".to_vec()),
        ]
    );
}

#[test]
fn a_group_in_a_block_ends_at_the_next_closing_parenthesis() {
    let units = all_units(b"CREATE TABLE t (a int(11), b varchar(20));\n").unwrap();
    assert_eq!(
        units,
        vec![
            TokenStream::Block(b"CREATE TABLE t (a int(11), b varchar(20));".to_vec()),
            TokenStream::SpaceOrLineFeed(b"\n".to_vec()),
        ]
    );
    let units = all_units(b"SET ((;);x);").unwrap();
    assert_eq!(
        units,
        vec![TokenStream::Block(b"SET ((;);".to_vec()), TokenStream::Block(b"x);".to_vec())]
    );
}

#[test]
fn block_reads_behind_the_first_keyword() {
    let mut parser = parser_over(b" a (;) b; c;");
    assert_eq!(parser.block().unwrap(), b" a (;) b;".to_vec());
    assert_eq!(parser.block().unwrap(), b" c;".to_vec());
    assert_eq!(parser.block().unwrap_err().text, "Unexpected end of the file.");
    let mut parser = parser_over(b" a (; b; c;");
    assert_eq!(parser.block().unwrap_err().text, "Unexpected end of the file.");
}

#[test]
fn blank_bytes_and_bare_semicolons_are_units_of_their_own() {
    let units = all_units(b" \t\r\n;").unwrap();
    assert_eq!(
        units,
        vec![
            TokenStream::SpaceOrLineFeed(b" ".to_vec()),
            TokenStream::SpaceOrLineFeed(b"\t".to_vec()),
            TokenStream::SpaceOrLineFeed(b"\r".to_vec()),
            TokenStream::SpaceOrLineFeed(b"\n".to_vec()),
            TokenStream::SpaceOrLineFeed(b";".to_vec()),
        ]
    );
}

#[test]
fn comments_are_units_of_their_own() {
    let units = all_units(b"/* a */-- b\n-- c").unwrap();
    assert_eq!(
        units,
        vec![
            TokenStream::Comment(b"/* a */".to_vec()),
            TokenStream::Comment(b"-- b\n".to_vec()),
            TokenStream::Comment(b"-- c".to_vec()),
        ]
    );
}

#[test]
fn tokens_that_start_no_unit_are_errors() {
    assert_eq!(parse_error(b")"), "Invalid sql file.");
    assert_eq!(parse_error(b"."), "Invalid sql file.");
    assert_eq!(parse_error(b"'a'"), "Invalid sql file.");
    assert_eq!(parse_error(b"12;"), "Invalid sql file.");
    assert_eq!(parse_error(b"`a`"), "Invalid sql file.");
    assert_eq!(parse_error(b","), "Invalid sql file.");
    assert_eq!(parse_error(b"="), "Invalid sql file.");
    assert_eq!(parse_error(b"CREATE TABLE t;\n)"), "Invalid sql file.");
}

#[test]
fn incomplete_insert_is_an_error() {
    assert_eq!(parse_error(b"INSERT INTO t "), "Incomplete Insert statement.");
    assert_eq!(parse_error(b"INSERT INTO t VALUES "), "Incomplete Insert statement.");
    assert_eq!(parse_error(b"INSERT INTO t VALUES (1)"), "Incomplete Insert statement.");
    assert_eq!(parse_error(b"INSERT INTO t VALUES (1, 2"), "Incomplete Insert statement.");
}

#[test]
fn incomplete_block_is_an_error() {
    assert_eq!(parse_error(b"CREATE TABLE t (a int) "), "Unexpected end of the file.");
    assert_eq!(parse_error(b"DROP "), "Unexpected end of the file.");
    assert_eq!(parse_error(b"SET (;"), "Unexpected end of the file.");
    assert_eq!(parse_error(b"SET (1;2;3; "), "Unexpected end of the file.");
}

#[test]
fn incomplete_row_is_an_error() {
    assert_eq!(parse_error(b"(1, 2"), "Unexpected end of the file.");
    assert_eq!(parse_error(b"(1, 2)"), "Unable to parse values.");
    assert_eq!(parse_error(b"(1) (2"), "Unexpected end of the file.");
}

#[test]
fn lexical_errors_come_through() {
    assert_eq!(parse_error(b"SELECT 'abc"), "Unclosed string.");
    assert_eq!(parse_error(b"INSERT INTO t VALUES ('abc"), "Unclosed string.");
    assert_eq!(parse_error(b"(1, /* "), "Incomplete multi-line comment.");
    assert_eq!(parse_error(b"CREATE"), "While parsing keyword.");
    assert_eq!(parse_error(b"INSERT INTO `t"), "Unexpected end of the file.");
}

#[test]
fn read_while_stops_behind_the_token() {
    let mut parser = parser_over(b"a b) c;");
    assert_eq!(parser.read_while(&Token::RP).unwrap(), b"a b)".to_vec());
    assert_eq!(parser.read_while(&Token::SemiColon).unwrap(), b" c;".to_vec());
    assert_eq!(parser.read_while(&Token::SemiColon).unwrap_err().text, "Unexpected end of the file.");
}

#[test]
fn read_while_compares_the_bytes_of_the_token() {
    let mut parser = parser_over(b"a b a c ");
    assert_eq!(
        parser.read_while(&Token::Keyword(b"b".to_vec())).unwrap(),
        b"a b".to_vec()
    );
    assert_eq!(
        parser.read_while(&Token::Keyword(b"c".to_vec())).unwrap(),
        b" a c".to_vec()
    );
}

#[test]
fn values_reads_one_row_of_an_insert() {
    let mut parser = parser_over(b" (1, (2)), (3);");
    assert_eq!(parser.values().unwrap(), b" (1, (2)),".to_vec());
    assert_eq!(parser.values().unwrap(), b" (3);".to_vec());
    assert_eq!(parser.values().unwrap_err().text, "Incomplete Insert statement.");
}

#[test]
fn values_tuple_reads_behind_the_opening_parenthesis() {
    let mut parser = parser_over(b"1, 2), 3) x;");
    assert_eq!(parser.values_tuple().unwrap(), b"1, 2),".to_vec());
    assert_eq!(parser.values_tuple().unwrap(), b" 3) x;".to_vec());
    assert_eq!(parser.values_tuple().unwrap_err().text, "Unexpected end of the file.");
}

#[test]
fn units_put_together_are_the_input() {
    let inputs: Vec<&[u8]> = vec![
        b"",
        SMALL,
        b"-- hi\nCREATE TABLE t (a int);\nINSERT INTO t VALUES (1),(2),(3);",
        b"/* x */;;\n(1) , (2) ;INSERT x VALUES(1);-- end",
    ];
    for input in inputs {
        let units = all_units(input).unwrap();
        let mut bytes = vec![];
        for unit in units.iter() {
            assert!(!bytes_of(unit).is_empty());
            bytes.extend(bytes_of(unit));
        }
        assert_eq!(bytes, input.to_vec());
    }
}

#[test]
fn size_is_the_number_of_source_bytes() {
    assert_eq!(TokenStream::Insert(b"abc".to_vec(), b"a ".to_vec()).size(), 3);
    assert_eq!(TokenStream::ValuesTuple(b"(1),".to_vec()).size(), 4);
    assert_eq!(TokenStream::Block(b"x;".to_vec()).size(), 2);
    assert_eq!(TokenStream::Comment(b"--".to_vec()).size(), 2);
    assert_eq!(TokenStream::SpaceOrLineFeed(b" ".to_vec()).size(), 1);
    assert_eq!(TokenStream::End.size(), 0);
}

#[test]
fn every_unit_ends_by_itself_but_a_comment_line_cut_short() {
    assert!(TokenStream::Insert(b"insert x values (1),".to_vec(), vec![]).delimited());
    assert!(TokenStream::ValuesTuple(b"(1);".to_vec()).delimited());
    assert!(TokenStream::Block(b"x;".to_vec()).delimited());
    assert!(TokenStream::SpaceOrLineFeed(b"\n".to_vec()).delimited());
    assert!(TokenStream::Comment(b"/* a */".to_vec()).delimited());
    assert!(TokenStream::Comment(b"-- a\n".to_vec()).delimited());
    assert!(!TokenStream::Comment(b"-- a".to_vec()).delimited());
    assert!(!TokenStream::Comment(vec![]).delimited());
    assert!(!TokenStream::End.delimited());
    assert!(TokenStream::End.is_end());
    assert!(!TokenStream::Comment(vec![]).is_end());
    assert!(!TokenStream::Block(b"x;".to_vec()).is_end());
}

#[test]
fn units_before_an_error_are_the_front_of_the_input() {
    let input = b"-- a\nDROP TABLE t;\n(1),(2) (3";
    let mut parser = parser_over(input);
    let mut bytes = vec![];
    let error = loop {
        match parser.token_stream() {
            Ok(unit) => bytes.extend(bytes_of(&unit)),
            Err(e) => break e,
        }
    };
    assert_eq!(error.text, "Unexpected end of the file.");
    assert_eq!(bytes, b"-- a\nDROP TABLE t;\n(1),".to_vec());
}
