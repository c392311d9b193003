use databend_query::parser_kill::expected;
use databend_query::parser_kill::kill_from_token;
use databend_query::parser_kill::DfKillStatement;
use databend_query::parser_kill::DfParser;
use databend_query::parser_kill::DfStatement;
use databend_query::parser_kill::Ident;
use databend_query::parser_kill::ParserError;
use databend_query::parser_kill::Token;
use sqlparser::dialect::MySqlDialect;
use sqlparser::parser::Parser;
use sqlparser::tokenizer::Tokenizer;

fn kill(
    value: &str,
    quote_style: Option<char>,
    kill_query: bool,
) -> Result<DfStatement, ParserError> {
    Ok(DfStatement::KillStatement(DfKillStatement {
        object_id: Ident {
            value: value.to_string(),
            quote_style,
        },
        kill_query,
    }))
}

fn complaint(message: &str) -> Result<DfStatement, ParserError> {
    Err(ParserError::ParserError(message.to_string()))
}

fn parse(sql: &str) -> Result<DfStatement, ParserError> {
    let dialect = MySqlDialect {};
    let tokens = Tokenizer::new(&dialect, sql).tokenize().unwrap();
    DfParser::new(Parser::new(tokens, &dialect)).parse_kill_query()
}

#[test]
fn kill_query_and_connection() {
    assert_eq!(parse("KILL QUERY abc"), kill("abc", None, true));
    assert_eq!(parse("KILL CONNECTION abc"), kill("abc", None, false));
    assert_eq!(parse("KILL abc"), kill("abc", None, false));
}

#[test]
fn kill_keywords_in_any_case() {
    assert_eq!(parse("kill  query\tAbc"), kill("Abc", None, true));
    assert_eq!(parse("Kill cOnNection abc"), kill("abc", None, false));
}

#[test]
fn kill_a_number_or_a_string() {
    assert_eq!(parse("KILL QUERY 42"), kill("42", Some('\''), true));
    assert_eq!(parse("KILL '42'"), kill("42", Some('\''), false));
}

#[test]
fn kill_a_quoted_identifier() {
    assert_eq!(parse("KILL CONNECTION `abc`"), kill("abc", Some('`'), false));
    assert_eq!(parse("KILL `query`"), kill("query", Some('`'), false));
}

#[test]
fn kill_what_follows_query_only() {
    assert_eq!(parse("KILL QUERY CONNECTION"), kill("CONNECTION", None, true));
    assert_eq!(parse("KILL QUERY QUERY"), kill("QUERY", None, true));
}

#[test]
fn kill_without_a_target() {
    assert_eq!(parse("KILL"), complaint("Expected identifier, found: EOF"));
    assert_eq!(parse("KILL QUERY;"), complaint("Expected identifier, found: ;"));
    assert_eq!(parse("KILL QUERY = 1"), complaint("Expected identifier, found: ="));
}

#[test]
fn statements_that_are_not_kill() {
    assert_eq!(parse("SELECT 1"), complaint("Expected Must KILL, found: SELECT"));
    assert_eq!(parse(""), complaint("Expected Must KILL, found: EOF"));
    assert_eq!(parse("`KILL` 1"), complaint("Expected Must KILL, found: `KILL`"));
    assert_eq!(parse("'KILL' 1"), complaint("Expected Must KILL, found: 'KILL'"));
}

#[test]
fn keywords_beyond_ascii() {
    assert_eq!(parse("k\u{131}ll x"), kill("x", None, false));
    assert_eq!(parse("k\u{e4}ll x"), complaint("Expected Must KILL, found: k\u{e4}ll"));
}

#[test]
fn tokens_are_processed_as_far_as_needed() {
    let dialect = MySqlDialect {};
    let tokens = Tokenizer::new(&dialect, "KILL 7 rest").tokenize().unwrap();
    let mut parser = DfParser::new(Parser::new(tokens, &dialect));
    assert!(!parser.consume_token("QUERY"));
    assert_eq!(parser.parse_kill_query(), kill("7", Some('\''), false));
    assert!(parser.consume_token("REST"));
    assert!(parser.consume_token("eof"));
    assert!(!parser.consume_token("REST"));
}

#[test]
fn targets_from_single_tokens() {
    let digits = Token::Number("5".to_string(), true);
    assert_eq!(kill_from_token(digits, true), kill("5", Some('\''), true));
    let text = Token::BackQuotedString("a b".to_string());
    assert_eq!(kill_from_token(text, false), kill("a b", Some('`'), false));
    let other = Token::Other(",".to_string());
    assert_eq!(kill_from_token(other, false), complaint("Expected identifier, found: ,"));
}

#[test]
fn token_texts() {
    let word = |quote_style| Token::Word {
        value: "x".to_string(),
        quote_style,
    };
    assert_eq!(word(None).text(), "x");
    assert_eq!(word(Some('[')).text(), "[x]");
    assert_eq!(word(Some('"')).text(), "\"x\"");
    assert_eq!(Token::Number("1".to_string(), true).text(), "1L");
    assert_eq!(Token::Number("1".to_string(), false).text(), "1");
    assert_eq!(Token::SingleQuotedString("s".to_string()).text(), "'s'");
    assert_eq!(Token::BackQuotedString("s".to_string()).text(), "`s`");
    let r: Result<(), ParserError> = expected("a name", Token::EOF);
    assert_eq!(
        r,
        Err(ParserError::ParserError("Expected a name, found: EOF".to_string()))
    );
}
