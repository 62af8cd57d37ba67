//! `SUBMIT <statement>` and `CANCEL JOB '<id>'`.
//!
//! `SUBMIT` does not parse its payload: the remainder of the string is handed
//! to the engine as it is, so `MEANS '...'` literals and a trailing
//! `WITH RECALL` behave exactly as they do on the interactive path.

use sqlparser::dialect::GenericDialect;
use sqlparser::parser::Parser;
use sqlparser::tokenizer::Token;
use vstd::prelude::*;

use crate::text::{
    chars_of, concat3, drop_leading, is_space, is_white, lower, lower_char, lowered, string_of,
    trim, trimmed, Class,
};

verus! {

/// `sqlparser::parser::Parser`.
#[verifier::external_type_specification]
#[verifier::external_body]
pub struct ExParser<'a>(Parser<'a>);

/// A token of SQL, as far as it is told apart here.
#[derive(Debug)]
pub enum Piece {
    /// A string in single quotes, by what it holds.
    Quoted(String),
    /// A word, by its letters.
    Word(String),
    SemiColon,
    /// Any other token, by how it is shown; so is the end of the text.
    Other(String),
}

/// What a [`Piece`] stands for.
pub enum PieceView {
    Quoted(Seq<char>),
    Word(Seq<char>),
    SemiColon,
    Other(Seq<char>),
}

impl View for Piece {
    type V = PieceView;

    open spec fn view(&self) -> PieceView {
        match *self {
            Piece::Quoted(s) => PieceView::Quoted(s@),
            Piece::Word(s) => PieceView::Word(s@),
            Piece::SemiColon => PieceView::SemiColon,
            Piece::Other(s) => PieceView::Other(s@),
        }
    }
}

/// The tokens of a text of SQL, white space left out, or the message of why it
/// has none.
pub uninterp spec fn sql_tokens(text: Seq<char>) -> Result<Seq<PieceView>, Seq<char>>;

/// The tokens that a parser has before it.
pub uninterp spec fn tokens_left(p: Parser) -> Seq<PieceView>;

/// The text that a parser was made for.
pub uninterp spec fn text_parsed(p: Parser) -> Seq<char>;

/// How the token that has so many tokens of a text from it on is refused where
/// the text should end. It is named with its line and column.
pub uninterp spec fn end_message(text: Seq<char>, left: nat) -> Seq<char>;

/// `Parser::try_with_sql`, in the generic dialect: a parser that has the tokens
/// of the text before it, or the message of why the text has none.
#[verifier::external_body]
fn sql_parser(text: &str) -> (r: Result<Parser<'static>, String>)
    ensures
        match r {
            Ok(p) => text_parsed(p) == text@ && sql_tokens(text@) == Ok::<
                Seq<PieceView>,
                Seq<char>,
            >(tokens_left(p)),
            Err(e) => sql_tokens(text@) == Err::<Seq<PieceView>, Seq<char>>(e@),
        },
{
    Parser::new(&GenericDialect {}).try_with_sql(text).map_err(|e| e.to_string())
}

/// `Parser::next_token`: takes the next token, and gives the end of the text,
/// which is shown as `EOF`, where there is none.
#[verifier::external_body]
fn next_piece(p: &mut Parser<'static>) -> (r: Piece)
    ensures
        tokens_left(*old(p)).len() > 0 ==> r@ == tokens_left(*old(p))[0] && tokens_left(*final(p))
            == tokens_left(*old(p)).drop_first(),
        tokens_left(*old(p)).len() == 0 ==> r@ == PieceView::Other("EOF"@) && tokens_left(*final(p))
            == tokens_left(*old(p)),
        text_parsed(*final(p)) == text_parsed(*old(p)),
{
    match p.next_token().token {
        Token::SingleQuotedString(s) => Piece::Quoted(s),
        Token::Word(word) => Piece::Word(word.value),
        Token::SemiColon => Piece::SemiColon,
        other => Piece::Other(other.to_string()),
    }
}

/// `Parser::consume_token`, on a semicolon: takes it where it is next, and says
/// whether it was.
#[verifier::external_body]
fn take_semicolon(p: &mut Parser<'static>) -> (r: bool)
    ensures
        r == (tokens_left(*old(p)).len() > 0 && tokens_left(*old(p))[0] is SemiColon),
        tokens_left(*final(p)) == if r {
            tokens_left(*old(p)).drop_first()
        } else {
            tokens_left(*old(p))
        },
        text_parsed(*final(p)) == text_parsed(*old(p)),
{
    p.consume_token(&Token::SemiColon)
}

/// `Parser::expect_token`, on the end of the text: an error, with its message,
/// where a token is left. The message names that token and where it stands.
#[verifier::external_body]
fn expect_end(p: &mut Parser<'static>) -> (r: Result<(), String>)
    ensures
        r is Ok <==> tokens_left(*old(p)).len() == 0,
        r matches Err(e) ==> e@ == end_message(
            text_parsed(*old(p)),
            tokens_left(*old(p)).len(),
        ),
{
    p.expect_token(&Token::EOF).map(|_| ()).map_err(|e| e.to_string())
}

/// The remainder of a statement after a keyword that it starts with as a whole
/// word, without white space around it.
pub open spec fn after_keyword(statement: Seq<char>, keyword: Seq<char>) -> Option<Seq<char>> {
    let t = drop_leading(statement, Class::Space);
    let n = keyword.len() as int;
    if t.len() < n || lowered(t.take(n)) != lowered(keyword) {
        None
    } else if t.len() > n && !is_space(t[n]) {
        None
    } else {
        Some(trimmed(t.skip(n)))
    }
}

/// The remainder after a leading keyword, if the statement starts with it as a
/// whole word.
pub fn strip_keyword(statement: &str, keyword: &str) -> (r: Option<String>)
    ensures
        crate::text::opt_view(r) == after_keyword(statement@, keyword@),
{
    let chars = chars_of(statement);
    let word = chars_of(keyword);
    let n: usize = chars.len();
    let ghost s = statement@;
    let mut start: usize = 0;
    assert(s.subrange(0, n as int) =~= s);
    while start < n && is_white(chars[start])
        invariant
            start <= n == chars.len(),
            chars@ == s,
            drop_leading(s, Class::Space) == drop_leading(
                s.subrange(start as int, n as int),
                Class::Space,
            ),
        decreases n - start,
    {
        assert(s.subrange(start as int, n as int).drop_first() =~= s.subrange(
            start + 1,
            n as int,
        ));
        start = start + 1;
    }
    let ghost t = s.subrange(start as int, n as int);
    assert(drop_leading(s, Class::Space) == t);
    let k: usize = word.len();
    if n - start < k {
        return None;
    }
    let mut j: usize = 0;
    while j < k
        invariant
            j <= k == word.len(),
            start + k <= n == chars.len(),
            chars@ == s,
            word@ == keyword@,
            t == s.subrange(start as int, n as int),
            after_keyword(s, keyword@) == after_keyword(statement@, keyword@),
            drop_leading(s, Class::Space) == t,
            forall|i: int| 0 <= i < j ==> lower(#[trigger] t[i]) == lower(keyword@[i]),
        decreases k - j,
    {
        if lower_char(chars[start + j]) != lower_char(word[j]) {
            assert(lowered(t.take(k as int))[j as int] == lower(t[j as int]));
            assert(lowered(keyword@)[j as int] == lower(keyword@[j as int]));
            return None;
        }
        j += 1;
    }
    assert(lowered(t.take(k as int)) =~= lowered(keyword@));
    if n - start > k && !is_white(chars[start + k]) {
        assert(t[k as int] == chars@[start + k]);
        return None;
    }
    let rest = string_of(&chars, start + k, n);
    assert(rest@ =~= t.skip(k as int));
    Some(trim(rest.as_str()))
}

/// The statement behind a leading `SUBMIT`; none where nothing follows it.
pub open spec fn submitted(statement: Seq<char>) -> Option<Seq<char>> {
    match after_keyword(statement, "submit"@) {
        Some(rest) => if rest.len() == 0 {
            None
        } else {
            Some(rest)
        },
        None => None,
    }
}

/// The statement behind a leading `SUBMIT`, if this is one.
pub fn parse_submit(statement: &str) -> (r: Option<String>)
    ensures
        crate::text::opt_view(r) == submitted(statement@),
{
    match strip_keyword(statement, "submit") {
        Some(rest) => if rest.as_str().is_empty() {
            None
        } else {
            Some(rest)
        },
        None => None,
    }
}

/// How a malformed statement is refused.
pub open spec fn cancel_message(message: Seq<char>) -> Seq<char> {
    "invalid CANCEL JOB statement: "@ + message + "; expected CANCEL JOB '<job_id>'"@
}

/// How a malformed statement is refused.
pub fn cancel_error(message: &str) -> (r: String)
    ensures
        r@ == cancel_message(message@),
{
    concat3("invalid CANCEL JOB statement: ", message, "; expected CANCEL JOB '<job_id>'")
}

/// What follows `CANCEL JOB`; none where the statement is another.
pub open spec fn after_cancel_job(statement: Seq<char>) -> Option<Seq<char>> {
    match after_keyword(statement, "cancel"@) {
        Some(rest) => after_keyword(rest, "job"@),
        None => None,
    }
}

/// The job id that a token is.
pub open spec fn id_of(p: PieceView) -> Option<Seq<char>> {
    match p {
        PieceView::Quoted(id) => Some(id),
        PieceView::Word(id) => Some(id),
        _ => None,
    }
}

/// How a token is shown where a job id should stand.
pub open spec fn shown(p: PieceView) -> Seq<char> {
    match p {
        PieceView::Other(s) => s,
        PieceView::SemiColon => ";"@,
        PieceView::Quoted(s) => s,
        PieceView::Word(s) => s,
    }
}

/// The job id that a token is, or the refusal of another token.
pub open spec fn id_or_refusal(p: PieceView) -> Result<Seq<char>, Seq<char>> {
    match id_of(p) {
        Some(id) => Ok(id),
        None => Err(cancel_message("expected a job id, got "@ + shown(p))),
    }
}

/// The job id that a token is, or the refusal of another token.
pub fn job_id(piece: Piece) -> (r: Result<String, String>)
    ensures
        match r {
            Ok(id) => id_or_refusal(piece@) == Ok::<Seq<char>, Seq<char>>(id@),
            Err(e) => id_or_refusal(piece@) == Err::<Seq<char>, Seq<char>>(e@),
        },
{
    let other: String = match piece {
        Piece::Quoted(id) => {
            return Ok(id);
        },
        // An unquoted id is the obvious typo; accept it rather than nitpick.
        Piece::Word(id) => {
            return Ok(id);
        },
        Piece::SemiColon => ";".to_owned(),
        Piece::Other(s) => s,
    };
    let message = "expected a job id, got ".to_owned().concat(other.as_str());
    Err(cancel_error(message.as_str()))
}

/// The first of some tokens, or the end of the text.
pub open spec fn first_piece(tokens: Seq<PieceView>) -> PieceView {
    if tokens.len() == 0 {
        PieceView::Other("EOF"@)
    } else {
        tokens[0]
    }
}

/// How many of some tokens are left behind a job id and at most a semicolon.
pub open spec fn left_over(tokens: Seq<PieceView>) -> nat {
    if tokens.len() <= 1 {
        0
    } else if tokens[1] is SemiColon {
        (tokens.len() - 2) as nat
    } else {
        (tokens.len() - 1) as nat
    }
}

/// What the tokens of the text behind `CANCEL JOB` come to: the job id that they
/// start with, or a refusal. At most a semicolon may follow.
pub open spec fn job_id_in(text: Seq<char>, tokens: Seq<PieceView>) -> Result<
    Seq<char>,
    Seq<char>,
> {
    match id_or_refusal(first_piece(tokens)) {
        Err(e) => Err(e),
        Ok(id) => if left_over(tokens) == 0 {
            Ok(id)
        } else {
            Err(cancel_message(end_message(text, left_over(tokens))))
        },
    }
}

/// The job id in what follows `CANCEL JOB`, an error where it holds another
/// thing.
fn read_job_id(parser: Parser<'static>) -> (r: Result<String, String>)
    ensures
        match r {
            Ok(id) => job_id_in(text_parsed(parser), tokens_left(parser)) == Ok::<
                Seq<char>,
                Seq<char>,
            >(id@),
            Err(e) => job_id_in(text_parsed(parser), tokens_left(parser)) == Err::<
                Seq<char>,
                Seq<char>,
            >(e@),
        },
{
    let mut parser = parser;
    let id: String = match job_id(next_piece(&mut parser)) {
        Ok(id) => id,
        Err(e) => {
            return Err(e);
        },
    };
    take_semicolon(&mut parser);
    match expect_end(&mut parser) {
        Ok(_) => Ok(id),
        Err(e) => Err(cancel_error(e.as_str())),
    }
}

/// What a statement comes to as a `CANCEL JOB`: nothing where it is another
/// statement.
pub open spec fn cancelled(statement: Seq<char>) -> Result<Option<Seq<char>>, Seq<char>> {
    match after_cancel_job(statement) {
        None => Ok(None),
        Some(rest) => match sql_tokens(rest) {
            Err(message) => Err(cancel_message(message)),
            Ok(tokens) => match job_id_in(rest, tokens) {
                Ok(id) => Ok(Some(id)),
                Err(e) => Err(e),
            },
        },
    }
}

/// The job id in `CANCEL JOB '<id>'`; `Ok(None)` for another statement.
pub fn parse_cancel_job(statement: &str) -> (r: Result<Option<String>, String>)
    ensures
        match r {
            Ok(id) => cancelled(statement@) == Ok::<Option<Seq<char>>, Seq<char>>(
                crate::text::opt_view(id),
            ),
            Err(e) => cancelled(statement@) == Err::<Option<Seq<char>>, Seq<char>>(e@),
        },
{
    // Cheap gate first, so that ordinary statements never pay for a parse.
    let rest: String = match strip_keyword(statement, "cancel") {
        Some(rest) => rest,
        None => {
            return Ok(None);
        },
    };
    let rest: String = match strip_keyword(rest.as_str(), "job") {
        Some(rest) => rest,
        None => {
            return Ok(None);
        },
    };
    match sql_parser(rest.as_str()) {
        Err(e) => Err(cancel_error(e.as_str())),
        Ok(parser) => match read_job_id(parser) {
            Ok(id) => Ok(Some(id)),
            Err(e) => Err(e),
        },
    }
}

/// A submitted statement reaches the engine as it was written: whatever stands
/// between the keyword and the end, white space around it left out.
pub proof fn a_submitted_statement_is_untouched(keyword: Seq<char>, sql: Seq<char>)
    requires
        lowered(keyword) == lowered("submit"@),
        sql.len() > 0,
        trimmed(sql) == sql,
    ensures
        submitted(keyword + seq![' '] + sql) == Some(sql),
{
    reveal_strlit("submit");
    let s = keyword + seq![' '] + sql;
    assert(lowered(keyword).len() == 6);
    assert(lowered(keyword)[0] == 's');
    assert(lowered("submit"@)[0] == 's');
    assert(lower(keyword[0]) == 's');
    assert(!is_space(keyword[0]));
    assert(s[0] == keyword[0]);
    assert(drop_leading(s, Class::Space) == s);
    assert(s.take(6) =~= keyword);
    assert(s[6] == ' ');
    assert(s.skip(6) =~= seq![' '] + sql);
    let rest = seq![' '] + sql;
    assert(rest[0] == ' ');
    assert(rest.drop_first() =~= sql);
    assert(drop_leading(rest, Class::Space) == drop_leading(sql, Class::Space));
    assert(trimmed(rest) == trimmed(sql));
}

/// A keyword counts as a whole word and in whichever case: white space or the end
/// follows it, and what follows that is left, without white space around it.
pub proof fn a_keyword_is_a_whole_word(
    word: Seq<char>,
    keyword: Seq<char>,
    c: char,
    rest: Seq<char>,
)
    requires
        word.len() > 0,
        !is_space(word[0]),
    ensures
        lowered(word) == lowered(keyword) ==> after_keyword(word, keyword) == Some(
            Seq::<char>::empty(),
        ),
        lowered(word) == lowered(keyword) && is_space(c) ==> after_keyword(
            word + seq![c] + rest,
            keyword,
        ) == Some(trimmed(rest)),
        lowered(word) == lowered(keyword) && !is_space(c) ==> after_keyword(
            word + seq![c] + rest,
            keyword,
        ) is None,
        word.len() == keyword.len() && lowered(word) != lowered(keyword) ==> after_keyword(
            word + seq![c] + rest,
            keyword,
        ) is None,
{
    let s = word + seq![c] + rest;
    let n = word.len() as int;
    assert(drop_leading(word, Class::Space) == word);
    assert(s[0] == word[0]);
    assert(drop_leading(s, Class::Space) == s);
    assert(s.take(n) =~= word);
    assert(word.take(n) =~= word);
    assert(s[n] == c);
    assert(lowered(word).len() == n && lowered(keyword).len() == keyword.len());
    let none = word.skip(n);
    assert(none =~= Seq::<char>::empty());
    assert(drop_leading(none, Class::Space) =~= Seq::<char>::empty());
    assert(trimmed(none) =~= Seq::<char>::empty());
    let tail = s.skip(n);
    assert(tail =~= seq![c] + rest);
    assert(tail[0] == c);
    assert(tail.drop_first() =~= rest);
    if is_space(c) {
        assert(drop_leading(tail, Class::Space) == drop_leading(rest, Class::Space));
        assert(trimmed(tail) == trimmed(rest));
    }
}

/// What stands behind `CANCEL JOB` is what is read for a job id.
pub proof fn what_follows_cancel_job_is_read(
    cancel: Seq<char>,
    job: Seq<char>,
    rest: Seq<char>,
)
    requires
        lowered(cancel) == lowered("cancel"@),
        lowered(job) == lowered("job"@),
        rest.len() > 0,
        trimmed(rest) == rest,
        trimmed(job + seq![' '] + rest) == job + seq![' '] + rest,
    ensures
        after_cancel_job(cancel + seq![' '] + (job + seq![' '] + rest)) == Some(rest),
{
    reveal_strlit("cancel");
    reveal_strlit("job");
    assert(lowered(cancel).len() == 6 && lowered(job).len() == 3);
    assert(lowered("cancel"@)[0] == 'c' && lowered("job"@)[0] == 'j');
    assert(lowered(cancel)[0] == lower(cancel[0]) && lowered(job)[0] == lower(job[0]));
    assert(!is_space(cancel[0]) && !is_space(job[0]));
    a_keyword_is_a_whole_word(cancel, "cancel"@, ' ', job + seq![' '] + rest);
    a_keyword_is_a_whole_word(job, "job"@, ' ', rest);
}

/// A job id is one word or one quoted text that stands alone, but for a semicolon;
/// all else is refused, and nothing that was not written is taken for an id.
pub proof fn a_job_id_stands_alone(text: Seq<char>, tokens: Seq<PieceView>)
    ensures
        job_id_in(text, tokens) is Ok <==> tokens.len() > 0 && (tokens[0] is Quoted
            || tokens[0] is Word) && (tokens.len() == 1 || (tokens.len() == 2
            && tokens[1] is SemiColon)),
        job_id_in(text, tokens) matches Ok(id) ==> tokens[0] == PieceView::Quoted(id) || tokens[0]
            == PieceView::Word(id),
{
}

/// A statement is a `CANCEL JOB` or none: where it does not start so it is left to
/// others, and where it does it is never passed on.
pub proof fn a_cancellation_is_never_passed_on(statement: Seq<char>)
    ensures
        cancelled(statement) == Ok::<Option<Seq<char>>, Seq<char>>(None) <==> after_cancel_job(
            statement,
        ) is None,
{
}

}
