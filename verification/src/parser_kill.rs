//! The `KILL` statement.

use sqlparser::parser::Parser;
use vstd::prelude::*;
use vstd::string::*;
use vstd::utf8::is_ascii_chars;

verus! {

/// A token of a statement, as far as parsing looks into it.
#[derive(Debug, PartialEq, Eq)]
pub enum Token {
    /// The end of the statement.
    EOF,
    /// A keyword or an identifier, with the quote that it was written in.
    Word { value: String, quote_style: Option<char> },
    /// A number, and whether it was marked as long.
    Number(String, bool),
    SingleQuotedString(String),
    BackQuotedString(String),
    /// Any other token, by its text.
    Other(String),
}

#[derive(Debug, PartialEq, Eq)]
pub struct Ident {
    pub value: String,
    pub quote_style: Option<char>,
}

/// `KILL [QUERY | CONNECTION] object_id`.
#[derive(Debug, PartialEq, Eq)]
pub struct DfKillStatement {
    pub object_id: Ident,
    pub kill_query: bool,
}

#[derive(Debug, PartialEq, Eq)]
pub enum DfStatement {
    KillStatement(DfKillStatement),
}

#[derive(Debug, PartialEq, Eq)]
pub enum ParserError {
    ParserError(String),
}

#[verifier::external_type_specification]
#[verifier::external_body]
pub struct ExParser<'a>(sqlparser::parser::Parser<'a>);

/// The tokens that a parser has not processed yet, without whitespace.
pub uninterp spec fn remaining(parser: Parser<'_>) -> Seq<Token>;

/// What `str::to_uppercase` makes of a text that is not ASCII.
pub uninterp spec fn unicode_uppercase(text: Seq<char>) -> Seq<char>;

/// An ASCII letter in upper case; any other character as it is.
pub open spec fn ascii_upper(c: char) -> char {
    if 'a' <= c <= 'z' {
        ((c as u32) - 32) as char
    } else {
        c
    }
}

/// A text in upper case.
pub open spec fn uppercase(text: Seq<char>) -> Seq<char> {
    if is_ascii_chars(text) {
        text.map_values(|c: char| ascii_upper(c))
    } else {
        unicode_uppercase(text)
    }
}

/// The first token of a sequence, or the end of the statement.
pub open spec fn first_token(tokens: Seq<Token>) -> Token {
    if tokens.len() == 0 {
        Token::EOF
    } else {
        tokens[0]
    }
}

/// The tokens after the first one.
pub open spec fn rest(tokens: Seq<Token>) -> Seq<Token> {
    if tokens.len() == 0 {
        tokens
    } else {
        tokens.drop_first()
    }
}

/// `Parser::peek_token`: the first unprocessed token that is not whitespace, or `EOF` if there is
/// none. A kind of token that parsing does not look into is given by its display.
#[verifier::external_body]
pub(crate) fn peek_token(parser: &Parser<'_>) -> (r: Token)
    ensures
        r == first_token(remaining(*parser)),
{
    match parser.peek_token() {
        sqlparser::tokenizer::Token::EOF => Token::EOF,
        sqlparser::tokenizer::Token::Word(w) => {
            Token::Word { value: w.value, quote_style: w.quote_style }
        },
        sqlparser::tokenizer::Token::Number(n, long) => Token::Number(n, long),
        sqlparser::tokenizer::Token::SingleQuotedString(s) => Token::SingleQuotedString(s),
        other => Token::Other(other.to_string()),
    }
}

/// `Parser::next_token`: the token that [`peek_token`] gives, which counts as processed from there
/// on.
#[verifier::external_body]
pub(crate) fn next_token(parser: &mut Parser<'_>) -> (r: Token)
    ensures
        r == first_token(remaining(*old(parser))),
        remaining(*final(parser)) == rest(remaining(*old(parser))),
{
    match parser.next_token() {
        sqlparser::tokenizer::Token::EOF => Token::EOF,
        sqlparser::tokenizer::Token::Word(w) => {
            Token::Word { value: w.value, quote_style: w.quote_style }
        },
        sqlparser::tokenizer::Token::Number(n, long) => Token::Number(n, long),
        sqlparser::tokenizer::Token::SingleQuotedString(s) => Token::SingleQuotedString(s),
        other => Token::Other(other.to_string()),
    }
}

/// `str::to_uppercase`: ASCII letters are raised one by one; what becomes of a text with other
/// characters is named, not stated.
#[verifier::external_body]
pub(crate) fn to_uppercase(text: &str) -> (r: String)
    ensures
        is_ascii_chars(text@) ==> r@ == text@.map_values(|c: char| ascii_upper(c)),
        !is_ascii_chars(text@) ==> r@ == unicode_uppercase(text@),
{
    text.to_uppercase()
}

/// `String::push`: appends one character.
pub assume_specification[ String::push ](string: &mut String, ch: char)
    ensures
        final(string)@ == old(string)@.push(ch),
;

/// The quote that ends what `quote` begins.
pub open spec fn closing_quote(quote: char) -> char {
    if quote == '[' {
        ']'
    } else {
        quote
    }
}

/// `text` between two quotes.
pub open spec fn quoted(open: char, text: Seq<char>, close: char) -> Seq<char> {
    seq![open] + text + seq![close]
}

/// A token as it is written in a statement.
pub open spec fn token_text(token: Token) -> Seq<char> {
    match token {
        Token::EOF => "EOF"@,
        Token::Word { value, quote_style } => match quote_style {
            None => value@,
            Some(quote) => quoted(quote, value@, closing_quote(quote)),
        },
        Token::Number(digits, long) => if long {
            digits@ + "L"@
        } else {
            digits@
        },
        Token::SingleQuotedString(text) => quoted('\'', text@, '\''),
        Token::BackQuotedString(text) => quoted('`', text@, '`'),
        Token::Other(text) => text@,
    }
}

/// Whether a token reads as `expected`, whatever the case of its letters.
pub open spec fn reads_as(token: Token, expected: Seq<char>) -> bool {
    uppercase(token_text(token)) == uppercase(expected)
}

/// The complaint about a token that is not what was expected.
pub open spec fn complaint(expected: Seq<char>, found: Token) -> Seq<char> {
    "Expected "@ + expected + ", found: "@ + token_text(found)
}

/// What parsing a `KILL` statement gives.
#[verifier::ext_equal]
pub enum KillOutcome {
    Kill { value: Seq<char>, quote_style: Option<char>, kill_query: bool },
    Error(Seq<char>),
}

/// The outcome that a result stands for.
pub open spec fn outcome(result: Result<DfStatement, ParserError>) -> KillOutcome {
    match result {
        Ok(DfStatement::KillStatement(kill)) => KillOutcome::Kill {
            value: kill.object_id.value@,
            quote_style: kill.object_id.quote_style,
            kill_query: kill.kill_query,
        },
        Err(ParserError::ParserError(message)) => KillOutcome::Error(message@),
    }
}

/// What is killed, from the token that names it.
pub open spec fn kill_target(token: Token, kill_query: bool) -> KillOutcome {
    match token {
        Token::Word { value, quote_style } => KillOutcome::Kill {
            value: value@,
            quote_style,
            kill_query,
        },
        Token::SingleQuotedString(text) => KillOutcome::Kill {
            value: text@,
            quote_style: Some('\''),
            kill_query,
        },
        Token::Number(digits, _) => KillOutcome::Kill {
            value: digits@,
            quote_style: Some('\''),
            kill_query,
        },
        Token::BackQuotedString(text) => KillOutcome::Kill {
            value: text@,
            quote_style: Some('`'),
            kill_query,
        },
        _ => KillOutcome::Error(complaint("identifier"@, token)),
    }
}

/// What parsing a `KILL` statement gives, and the tokens that are left.
pub open spec fn kill_statement(tokens: Seq<Token>) -> (KillOutcome, Seq<Token>) {
    let after = rest(tokens);
    if !reads_as(first_token(tokens), "KILL"@) {
        (KillOutcome::Error(complaint("Must KILL"@, first_token(tokens))), tokens)
    } else if reads_as(first_token(after), "QUERY"@) {
        (kill_target(first_token(rest(after)), true), rest(rest(after)))
    } else if reads_as(first_token(after), "CONNECTION"@) {
        (kill_target(first_token(rest(after)), false), rest(rest(after)))
    } else {
        (kill_target(first_token(after), false), rest(after))
    }
}

impl Token {
    /// The token as it is written in a statement.
    pub fn text(&self) -> (r: String)
        ensures
            r@ == token_text(*self),
    {
        match self {
            Token::EOF => "EOF".to_owned(),
            Token::Word { value, quote_style } => match quote_style {
                None => value.clone(),
                Some(quote) => quote_text(
                    *quote,
                    value,
                    if *quote == '[' {
                        ']'
                    } else {
                        *quote
                    },
                ),
            },
            Token::Number(digits, long) => {
                let mut r = digits.clone();
                if *long {
                    r.append("L");
                }
                r
            },
            Token::SingleQuotedString(text) => quote_text('\'', text, '\''),
            Token::BackQuotedString(text) => quote_text('`', text, '`'),
            Token::Other(text) => text.clone(),
        }
    }
}

/// `text` between two quotes.
fn quote_text(open: char, text: &String, close: char) -> (r: String)
    ensures
        r@ == quoted(open, text@, close),
{
    let mut r = String::new();
    r.push(open);
    r.append(text.as_str());
    r.push(close);
    assert(r@ =~= quoted(open, text@, close));
    r
}

/// Reports a token that is not what was expected.
pub fn expected<T>(wanted: &str, found: Token) -> (r: Result<T, ParserError>)
    ensures
        r matches Err(ParserError::ParserError(message)) && message@ == complaint(wanted@, found),
{
    let mut message = "Expected ".to_owned();
    message.append(wanted);
    message.append(", found: ");
    message.append(found.text().as_str());
    Err(ParserError::ParserError(message))
}

/// The statement that kills what a token names.
pub fn kill_from_token(token: Token, kill_query: bool) -> (r: Result<DfStatement, ParserError>)
    ensures
        outcome(r) == kill_target(token, kill_query),
{
    let object_id = match token {
        Token::Word { value, quote_style } => Ident { value, quote_style },
        // A MySQL client can send `kill query connect_id` with a number as the connect_id: it is
        // taken as a single quoted string.
        Token::SingleQuotedString(value) | Token::Number(value, _) => Ident {
            value,
            quote_style: Some('\''),
        },
        Token::BackQuotedString(value) => Ident { value, quote_style: Some('`') },
        other => return expected("identifier", other),
    };
    Ok(DfStatement::KillStatement(DfKillStatement { object_id, kill_query }))
}

/// A parser of statements.
pub struct DfParser<'a> {
    pub parser: Parser<'a>,
}

impl<'a> DfParser<'a> {
    pub fn new(parser: Parser<'a>) -> (r: DfParser<'a>)
        ensures
            r.parser == parser,
    {
        DfParser { parser }
    }

    /// Processes the next token if it reads as `expected`.
    pub fn consume_token(&mut self, expected: &str) -> (r: bool)
        ensures
            r == reads_as(first_token(remaining(old(self).parser)), expected@),
            remaining(final(self).parser) == if r {
                rest(remaining(old(self).parser))
            } else {
                remaining(old(self).parser)
            },
    {
        let text = peek_token(&self.parser).text();
        if to_uppercase(text.as_str()) == to_uppercase(expected) {
            let _ = next_token(&mut self.parser);
            true
        } else {
            false
        }
    }

    /// Parses what a `KILL` statement kills.
    pub fn parse_kill<const KILL_QUERY: bool>(&mut self) -> (r: Result<DfStatement, ParserError>)
        ensures
            outcome(r) == kill_target(first_token(remaining(old(self).parser)), KILL_QUERY),
            remaining(final(self).parser) == rest(remaining(old(self).parser)),
    {
        kill_from_token(next_token(&mut self.parser), KILL_QUERY)
    }

    /// Parses a `KILL` statement.
    pub fn parse_kill_query(&mut self) -> (r: Result<DfStatement, ParserError>)
        ensures
            (outcome(r), remaining(final(self).parser)) == kill_statement(
                remaining(old(self).parser),
            ),
    {
        if self.consume_token("KILL") {
            if self.consume_token("QUERY") {
                self.parse_kill::<true>()
            } else if self.consume_token("CONNECTION") {
                self.parse_kill::<false>()
            } else {
                self.parse_kill::<false>()
            }
        } else {
            let found = peek_token(&self.parser);
            expected("Must KILL", found)
        }
    }
}

/// A number names the same as the string of its digits.
pub proof fn number_names_as_string(digits: String, long: bool, kill_query: bool)
    ensures
        kill_target(Token::Number(digits, long), kill_query) == kill_target(
            Token::SingleQuotedString(digits),
            kill_query,
        ),
{
}

/// Keywords are recognised in any case.
pub proof fn keywords_in_any_case(a: Token, b: Token, expected: Seq<char>)
    requires
        is_ascii_chars(token_text(a)),
        is_ascii_chars(token_text(b)),
        token_text(a).map_values(|c: char| ascii_upper(c)) == token_text(b).map_values(
            |c: char| ascii_upper(c),
        ),
    ensures
        reads_as(a, expected) == reads_as(b, expected),
{
}

/// `KILL x` is `KILL CONNECTION x`, unless `x` itself reads as one of the two keywords.
pub proof fn kill_means_kill_connection(kill: Token, connection: Token, tail: Seq<Token>)
    requires
        reads_as(kill, "KILL"@),
        reads_as(connection, "CONNECTION"@),
        !reads_as(first_token(tail), "QUERY"@),
        !reads_as(first_token(tail), "CONNECTION"@),
    ensures
        kill_statement(seq![kill] + tail) == kill_statement(seq![kill, connection] + tail),
{
    let short = seq![kill] + tail;
    let full = seq![kill, connection] + tail;
    assert(rest(short) =~= tail);
    assert(rest(full) =~= seq![connection] + tail);
    assert(rest(rest(full)) =~= tail);
    reveal_strlit("QUERY");
    reveal_strlit("CONNECTION");
    assert(uppercase("QUERY"@).len() == 5);
    assert(uppercase("CONNECTION"@).len() == 10);
}

/// A statement that is not a `KILL` statement is refused and left as it is; what follows a `KILL`
/// is processed up to and with the token that names the target.
pub proof fn kill_processes_its_tokens(tokens: Seq<Token>)
    ensures
        kill_statement(tokens).0 is Kill ==> reads_as(first_token(tokens), "KILL"@),
        !reads_as(first_token(tokens), "KILL"@) ==> kill_statement(tokens).1 == tokens,
        kill_statement(tokens).0 is Kill ==> kill_statement(tokens).1 == rest(rest(tokens))
            || kill_statement(tokens).1 == rest(rest(rest(tokens))),
{
}

/// The text of a token: an unquoted word, a number that is not long and a token of another kind are
/// written as they are; a long number ends in `L`; quoted texts stand between their quotes, where a
/// bracket is closed by the other bracket.
pub proof fn token_text_is_what_was_written(token: Token)
    ensures
        match token {
            Token::EOF => token_text(token) == "EOF"@,
            Token::Word { value, quote_style } => match quote_style {
                None => token_text(token) == value@,
                Some(quote) => {
                    &&& token_text(token).len() == value@.len() + 2
                    &&& token_text(token)[0] == quote
                    &&& token_text(token).subrange(1, 1 + value@.len() as int) == value@
                    &&& token_text(token).last() == if quote == '[' {
                        ']'
                    } else {
                        quote
                    }
                },
            },
            Token::Number(digits, long) => if long {
                token_text(token) == digits@.push('L')
            } else {
                token_text(token) == digits@
            },
            Token::SingleQuotedString(text) => {
                &&& token_text(token).len() == text@.len() + 2
                &&& token_text(token)[0] == '\''
                &&& token_text(token).subrange(1, 1 + text@.len() as int) == text@
                &&& token_text(token).last() == '\''
            },
            Token::BackQuotedString(text) => {
                &&& token_text(token).len() == text@.len() + 2
                &&& token_text(token)[0] == '`'
                &&& token_text(token).subrange(1, 1 + text@.len() as int) == text@
                &&& token_text(token).last() == '`'
            },
            Token::Other(text) => token_text(token) == text@,
        },
{
    reveal_strlit("L");
    match token {
        Token::Word { value, quote_style } => {
            if quote_style is Some {
                assert(token_text(token).subrange(1, 1 + value@.len() as int) =~= value@);
            }
        },
        Token::Number(digits, long) => {
            assert(digits@ + "L"@ =~= digits@.push('L'));
        },
        Token::SingleQuotedString(text) => {
            assert(token_text(token).subrange(1, 1 + text@.len() as int) =~= text@);
        },
        Token::BackQuotedString(text) => {
            assert(token_text(token).subrange(1, 1 + text@.len() as int) =~= text@);
        },
        _ => {},
    }
}

/// A token reads as a keyword exactly if their texts have the same length and agree at each
/// position, up to the case of an ASCII letter. This speaks of texts in ASCII.
pub proof fn reading_ignores_case_and_nothing_else(token: Token, keyword: Seq<char>)
    requires
        is_ascii_chars(token_text(token)),
        is_ascii_chars(keyword),
    ensures
        reads_as(token, keyword) <==> {
            let text = token_text(token);
            &&& text.len() == keyword.len()
            &&& forall|i: int|
                0 <= i < text.len() ==> {
                    ||| #[trigger] text[i] == keyword[i]
                    ||| 'a' <= text[i] <= 'z' && text[i] as int == keyword[i] as int + 32
                    ||| 'a' <= keyword[i] <= 'z' && keyword[i] as int == text[i] as int + 32
                }
        },
{
    let text = token_text(token);
    let raised = text.map_values(|c: char| ascii_upper(c));
    let wanted = keyword.map_values(|c: char| ascii_upper(c));
    if reads_as(token, keyword) {
        assert(raised == wanted);
        assert(raised.len() == text.len());
        assert(wanted.len() == keyword.len());
        assert forall|i: int| 0 <= i < text.len() implies {
            ||| #[trigger] text[i] == keyword[i]
            ||| 'a' <= text[i] <= 'z' && text[i] as int == keyword[i] as int + 32
            ||| 'a' <= keyword[i] <= 'z' && keyword[i] as int == text[i] as int + 32
        } by {
            assert(raised[i] == ascii_upper(text[i]));
            assert(wanted[i] == ascii_upper(keyword[i]));
        }
    }
    if text.len() == keyword.len() && (forall|i: int|
        0 <= i < text.len() ==> {
            ||| #[trigger] text[i] == keyword[i]
            ||| 'a' <= text[i] <= 'z' && text[i] as int == keyword[i] as int + 32
            ||| 'a' <= keyword[i] <= 'z' && keyword[i] as int == text[i] as int + 32
        }) {
        assert forall|i: int| 0 <= i < text.len() implies raised[i] == wanted[i] by {
            assert(text[i] == text[i]);
        }
        assert(raised =~= wanted);
    }
}

/// A token whose text is not in ASCII reads as a keyword in ASCII exactly if `str::to_uppercase`
/// makes the keyword of it, with the ASCII letters of the keyword raised.
pub proof fn reading_beyond_ascii_goes_by_upper_case(token: Token, keyword: Seq<char>)
    requires
        !is_ascii_chars(token_text(token)),
        is_ascii_chars(keyword),
    ensures
        reads_as(token, keyword) <==> {
            let text = unicode_uppercase(token_text(token));
            &&& text.len() == keyword.len()
            &&& forall|i: int|
                0 <= i < text.len() ==> #[trigger] text[i] as int == if 'a' <= keyword[i] <= 'z' {
                    keyword[i] as int - 32
                } else {
                    keyword[i] as int
                }
        },
{
    let text = unicode_uppercase(token_text(token));
    let wanted = keyword.map_values(|c: char| ascii_upper(c));
    if reads_as(token, keyword) {
        assert(text == wanted);
        assert forall|i: int| 0 <= i < text.len() implies #[trigger] text[i] as int == if 'a'
            <= keyword[i] <= 'z' {
            keyword[i] as int - 32
        } else {
            keyword[i] as int
        } by {
            assert(wanted[i] == ascii_upper(keyword[i]));
        }
    }
    if text.len() == keyword.len() && (forall|i: int|
        0 <= i < text.len() ==> #[trigger] text[i] as int == if 'a' <= keyword[i] <= 'z' {
            keyword[i] as int - 32
        } else {
            keyword[i] as int
        }) {
        assert forall|i: int| 0 <= i < text.len() implies text[i] == wanted[i] by {
            assert(wanted[i] == ascii_upper(keyword[i]));
            assert(text[i] as int == wanted[i] as int);
        }
        assert(text =~= wanted);
    }
}

/// A token reads as a text exactly if the two are the same in upper case: letter by letter where a
/// text is in ASCII, as `str::to_uppercase` raises it otherwise.
pub proof fn reading_compares_upper_case(token: Token, expected: Seq<char>)
    ensures
        ({
            let text = token_text(token);
            let raise = |c: char|
                if 'a' <= c <= 'z' {
                    (c as int - 32) as char
                } else {
                    c
                };
            reads_as(token, expected) <==> (if is_ascii_chars(text) {
                text.map_values(raise)
            } else {
                unicode_uppercase(text)
            }) =~= (if is_ascii_chars(expected) {
                expected.map_values(raise)
            } else {
                unicode_uppercase(expected)
            })
        }),
{
    let raise = |c: char|
        if 'a' <= c <= 'z' {
            (c as int - 32) as char
        } else {
            c
        };
    let text = token_text(token);
    assert(text.map_values(raise) =~= text.map_values(|c: char| ascii_upper(c)));
    assert(expected.map_values(raise) =~= expected.map_values(|c: char| ascii_upper(c)));
}

/// A complaint names what was expected and what was found.
pub proof fn complaint_names_both(wanted: Seq<char>, found: Token)
    ensures
        complaint(wanted, found) == "Expected "@ + wanted + ", found: "@ + token_text(found),
{
}

/// A token names the target of a `KILL` statement with its value: a word with its own quote, a
/// string and a number in single quotes, a back-quoted string in back quotes. Any other token is
/// refused. What is killed, the query or the connection, is as was asked, whatever the token.
pub proof fn target_token_gives_value_and_quote(
    token: Token,
    kill_query: bool,
    r: Result<DfStatement, ParserError>,
)
    requires
        outcome(r) == kill_target(token, kill_query),
    ensures
        match token {
            Token::Word { value, quote_style } => {
                &&& r matches Ok(DfStatement::KillStatement(kill))
                &&& kill.kill_query == kill_query
                &&& kill.object_id.value@ == value@
                &&& kill.object_id.quote_style == quote_style
            },
            Token::SingleQuotedString(value) => {
                &&& r matches Ok(DfStatement::KillStatement(kill))
                &&& kill.kill_query == kill_query
                &&& kill.object_id.value@ == value@
                &&& kill.object_id.quote_style == Some('\'')
            },
            Token::Number(value, long) => {
                &&& r matches Ok(DfStatement::KillStatement(kill))
                &&& kill.kill_query == kill_query
                &&& kill.object_id.value@ == value@
                &&& kill.object_id.quote_style == Some('\'')
            },
            Token::BackQuotedString(value) => {
                &&& r matches Ok(DfStatement::KillStatement(kill))
                &&& kill.kill_query == kill_query
                &&& kill.object_id.value@ == value@
                &&& kill.object_id.quote_style == Some('`')
            },
            _ => {
                &&& r matches Err(ParserError::ParserError(message))
                &&& message@ == "Expected "@ + "identifier"@ + ", found: "@ + token_text(token)
            },
        },
{
}

/// A statement is `KILL`, then `QUERY` or `CONNECTION` or neither, then the token of the target.
/// Whenever it parses, the query is killed exactly if the second token reads as `QUERY`, the value
/// and the quote are those of the target token, and just these tokens are processed. It fails if
/// the first token does not read as `KILL`, of which nothing is then processed, or if the target
/// token is neither a word nor a string nor a number.
pub proof fn kill_statement_is_read_from_its_tokens(
    tokens: Seq<Token>,
    r: Result<DfStatement, ParserError>,
    left: Seq<Token>,
)
    requires
        (outcome(r), left) == kill_statement(tokens),
    ensures
        ({
            let at = |i: int|
                if i < tokens.len() {
                    tokens[i]
                } else {
                    Token::EOF
                };
            let first = if reads_as(at(1), "QUERY"@) || reads_as(at(1), "CONNECTION"@) {
                2int
            } else {
                1
            };
            let target = at(first);
            if !reads_as(at(0), "KILL"@) {
                &&& r matches Err(ParserError::ParserError(message)) && message@ == "Expected "@
                    + "Must KILL"@ + ", found: "@ + token_text(at(0))
                &&& left == tokens
            } else {
                &&& left == if first + 1 <= tokens.len() {
                    tokens.skip(first + 1)
                } else {
                    Seq::empty()
                }
                &&& r is Ok <==> target is Word || target is SingleQuotedString
                    || target is Number || target is BackQuotedString
                &&& r matches Err(ParserError::ParserError(message)) ==> message@ == "Expected "@
                    + "identifier"@ + ", found: "@ + token_text(target)
                &&& r matches Ok(DfStatement::KillStatement(kill)) ==> {
                    &&& kill.kill_query <==> reads_as(at(1), "QUERY"@)
                    &&& kill.object_id.value@ == match target {
                        Token::Word { value, quote_style } => value@,
                        Token::SingleQuotedString(value) => value@,
                        Token::Number(value, long) => value@,
                        Token::BackQuotedString(value) => value@,
                        _ => Seq::empty(),
                    }
                    &&& kill.object_id.quote_style == match target {
                        Token::Word { value, quote_style } => quote_style,
                        Token::BackQuotedString(value) => Some('`'),
                        _ => Some('\''),
                    }
                }
            }
        }),
{
    let after = rest(tokens);
    let at = |i: int|
        if i < tokens.len() {
            tokens[i]
        } else {
            Token::EOF
        };
    assert(first_token(tokens) == at(0));
    assert(first_token(after) == at(1));
    assert(first_token(rest(after)) == at(2));
    if tokens.len() >= 2 {
        assert(rest(after) =~= tokens.skip(2));
    }
    if tokens.len() >= 3 {
        assert(rest(rest(after)) =~= tokens.skip(3));
    }
    if tokens.len() <= 2 {
        assert(rest(rest(after)) =~= Seq::empty());
    }
    if tokens.len() <= 1 {
        assert(rest(after) =~= Seq::empty());
    }
    if reads_as(at(0), "KILL"@) {
        if reads_as(at(1), "QUERY"@) {
            target_token_gives_value_and_quote(at(2), true, r);
        } else if reads_as(at(1), "CONNECTION"@) {
            target_token_gives_value_and_quote(at(2), false, r);
        } else {
            target_token_gives_value_and_quote(at(1), false, r);
        }
    }
}

} // verus!
