use vstd::prelude::*;

use crate::lexer::{kind_at, C1Lexer, C1Token, Lexeme};
use crate::text::{decimal, push_decimal};
use crate::ParseResult;

verus! {

// ===========================================================================
// What the parser does, stated over the tokens
// ===========================================================================

/// The text and its tokens, as the parser sees them.
pub struct Tokens {
    pub text: Seq<char>,
    pub toks: Seq<Lexeme>,
}

/// The position after a parse step and its result (`Err` holds the message).
pub type Outcome = (int, Result<(), Seq<char>>);

/// The result of a parse, with the message of an error as characters.
pub open spec fn outcome(r: ParseResult) -> Result<(), Seq<char>> {
    match r {
        Ok(()) => Ok(()),
        Err(m) => Err(m@),
    }
}

/// Token `p` is of kind `k`.
pub open spec fn at(t: Tokens, p: int, k: C1Token) -> bool {
    kind_at(t.toks, p) == Some(k)
}

/// Token `p` is of one of the kinds `ks`.
pub open spec fn at_any(t: Tokens, p: int, ks: Seq<C1Token>) -> bool {
    match kind_at(t.toks, p) {
        Some(k) => ks.contains(k),
        None => false,
    }
}

/// `q` lies after `p` and within the tokens. Every successful step that
/// consumes input ends so (see the `lemma_progress_*` lemmas); requiring it
/// where a step is repeated is what keeps these definitions well founded.
pub open spec fn advanced(t: Tokens, p: int, q: int) -> bool {
    p < q <= t.toks.len()
}

/// The message of an error found at token `p`: the reason, then the line and
/// the text of the token, or the end of the input.
pub open spec fn message_at(t: Tokens, p: int, reason: Seq<char>) -> Seq<char> {
    if 0 <= p < t.toks.len() {
        reason + " at line "@ + decimal(t.toks[p].line as nat) + " with text: '"@
            + t.text.subrange(t.toks[p].start as int, t.toks[p].end as int) + "'"@
    } else {
        reason + ". Reached EOF"@
    }
}

pub open spec fn type_tokens() -> Seq<C1Token> {
    seq![C1Token::KwBoolean, C1Token::KwFloat, C1Token::KwInt, C1Token::KwVoid]
}

pub open spec fn header_tokens() -> Seq<C1Token> {
    seq![
        C1Token::Identifier,
        C1Token::LeftParenthesis,
        C1Token::RightParenthesis,
        C1Token::LeftBrace,
    ]
}

pub open spec fn call_tokens() -> Seq<C1Token> {
    seq![C1Token::Identifier, C1Token::LeftParenthesis, C1Token::RightParenthesis]
}

pub open spec fn block_first() -> Seq<C1Token> {
    seq![
        C1Token::LeftBrace,
        C1Token::KwIf,
        C1Token::KwReturn,
        C1Token::KwPrintf,
        C1Token::Identifier,
    ]
}

pub open spec fn assignment_first() -> Seq<C1Token> {
    seq![
        C1Token::Identifier,
        C1Token::Minus,
        C1Token::ConstInt,
        C1Token::ConstFloat,
        C1Token::ConstBoolean,
        C1Token::LeftParenthesis,
    ]
}

pub open spec fn stat_head_tokens() -> Seq<C1Token> {
    seq![C1Token::Identifier, C1Token::Assign]
}

pub open spec fn relation_tokens() -> Seq<C1Token> {
    seq![
        C1Token::Equal,
        C1Token::NotEqual,
        C1Token::Greater,
        C1Token::GreaterEqual,
        C1Token::Less,
        C1Token::LessEqual,
    ]
}

pub open spec fn sum_tokens() -> Seq<C1Token> {
    seq![C1Token::Plus, C1Token::Minus, C1Token::Or]
}

pub open spec fn product_tokens() -> Seq<C1Token> {
    seq![C1Token::Asterisk, C1Token::Slash, C1Token::And]
}

pub open spec fn leaf_tokens() -> Seq<C1Token> {
    seq![C1Token::ConstInt, C1Token::ConstFloat, C1Token::ConstBoolean, C1Token::Identifier]
}

/// Token `p` must be of kind `k`: it is consumed, or `msg` is the error.
pub open spec fn check(t: Tokens, p: int, k: C1Token, msg: Seq<char>) -> Outcome {
    if at(t, p, k) {
        (p + 1, Ok(()))
    } else {
        (p, Err(msg))
    }
}

/// Each kind of `ks` in turn is checked against the current token, which is
/// consumed where it matches; the result is `Err(msg)` if any did not match.
pub open spec fn check_all(t: Tokens, p: int, ks: Seq<C1Token>, msg: Seq<char>) -> Outcome
    decreases ks.len(),
{
    if ks.len() == 0 {
        (p, Ok(()))
    } else {
        let (p1, r1) = check_all(t, p, ks.drop_last(), msg);
        let (p2, r2) = check(t, p1, ks.last(), msg);
        (p2, if r1 is Ok && r2 is Ok { Ok(()) } else { Err(msg) })
    }
}

/// The current token must be of one of the kinds `ks`: it is consumed, or
/// `msg` is the error.
pub open spec fn check_any(t: Tokens, p: int, ks: Seq<C1Token>, msg: Seq<char>) -> Outcome {
    if at_any(t, p, ks) {
        (p + 1, Ok(()))
    } else {
        (p, Err(msg))
    }
}

/// The position of the first token at or after `p` that is not an error token.
pub open spec fn skip_errors(t: Tokens, p: int) -> int
    decreases t.toks.len() - p,
{
    if at(t, p, C1Token::Error) {
        skip_errors(t, p + 1)
    } else {
        p
    }
}

/// A step followed by a `;`.
pub open spec fn then_semicolon(t: Tokens, o: Outcome) -> Outcome {
    if o.1 is Err {
        o
    } else {
        check(t, o.0, C1Token::Semicolon, message_at(t, o.0, "expected ';' in statement"@))
    }
}

/// type ::= <KW_BOOLEAN> | <KW_FLOAT> | <KW_INT> | <KW_VOID>
pub open spec fn p_return_type(t: Tokens, p: int) -> Outcome {
    check_any(t, p, type_tokens(), message_at(t, p, "unexpected token in type"@))
}

/// functioncall ::= <ID> "(" ")"
pub open spec fn p_function_call(t: Tokens, p: int) -> Outcome {
    check_all(t, p, call_tokens(), message_at(t, p, "unexpected token in functioncall"@))
}

/// program ::= ( functiondefinition )* <EOF>, error tokens skipped
pub open spec fn p_program(t: Tokens, p: int) -> Outcome
    decreases t.toks.len() - p, 20nat,
{
    if at(t, p, C1Token::Error) {
        p_program(t, p + 1)
    } else if kind_at(t.toks, p) is None {
        (p, Ok(()))
    } else if at_any(t, p, type_tokens()) {
        let (q, r) = p_function_definition(t, p);
        if r is Ok && advanced(t, p, q) {
            p_program(t, q)
        } else {
            (q, r)
        }
    } else {
        (p, Err(message_at(t, p, "unexpected token in program"@)))
    }
}

/// functiondefinition ::= type <ID> "(" ")" "{" statementlist "}"
pub open spec fn p_function_definition(t: Tokens, p: int) -> Outcome
    decreases t.toks.len() - p, 19nat,
{
    let (p1, r1) = p_return_type(t, p);
    if r1 is Err {
        (p1, r1)
    } else {
        let m = message_at(t, p1, "unexpected token in functiondefinition"@);
        let (p2, r2) = check_all(t, p1, header_tokens(), m);
        if r2 is Err || !advanced(t, p, p2) {
            (p2, r2)
        } else {
            let (p3, r3) = p_statement_list(t, p2);
            if r3 is Err {
                (p3, r3)
            } else {
                check(
                    t,
                    p3,
                    C1Token::RightBrace,
                    message_at(t, p3, "expected '}' in functiondefinition"@),
                )
            }
        }
    }
}

/// statementlist ::= ( block )*, error tokens skipped
pub open spec fn p_statement_list(t: Tokens, p: int) -> Outcome
    decreases t.toks.len() - p, 18nat,
{
    if at(t, p, C1Token::Error) {
        p_statement_list(t, p + 1)
    } else if at_any(t, p, block_first()) {
        let (q, r) = p_block(t, p);
        if r is Ok && advanced(t, p, q) {
            p_statement_list(t, q)
        } else {
            (q, r)
        }
    } else {
        (p, Ok(()))
    }
}

/// block ::= "{" statementlist "}" | statement
pub open spec fn p_block(t: Tokens, p: int) -> Outcome
    decreases t.toks.len() - p, 17nat,
{
    if at(t, p, C1Token::LeftBrace) {
        let (q, r) = p_statement_list(t, p + 1);
        if r is Err {
            (q, r)
        } else {
            check(t, q, C1Token::RightBrace, message_at(t, q, "expected '}' in block"@))
        }
    } else {
        p_statement(t, p)
    }
}

/// statement ::= ifstatement | returnstatement ";" | printf ";"
///             | statassignment ";" | functioncall ";"
pub open spec fn p_statement(t: Tokens, p: int) -> Outcome
    decreases t.toks.len() - p, 16nat,
{
    if at(t, p, C1Token::KwIf) {
        p_if_statement(t, p)
    } else if at(t, p, C1Token::KwReturn) {
        then_semicolon(t, p_return_statement(t, p))
    } else if at(t, p, C1Token::KwPrintf) {
        then_semicolon(t, p_printf(t, p))
    } else if at(t, p + 1, C1Token::Assign) {
        then_semicolon(t, p_stat_assignment(t, p))
    } else if at(t, p + 1, C1Token::LeftParenthesis) {
        then_semicolon(t, p_function_call(t, p))
    } else {
        (p, Err(message_at(t, p, "unexpected token in statement"@)))
    }
}

/// ifstatement ::= <KW_IF> "(" assignment ")" block
pub open spec fn p_if_statement(t: Tokens, p: int) -> Outcome
    decreases t.toks.len() - p, 15nat,
{
    if !at(t, p, C1Token::KwIf) {
        (p, Err("error"@))
    } else if !at(t, p + 1, C1Token::LeftParenthesis) {
        (p + 1, Err(message_at(t, p + 1, "expected '(' in ifstatement"@)))
    } else {
        let (q, r) = p_assignment(t, p + 2);
        if r is Err {
            (q, r)
        } else if !at(t, q, C1Token::RightParenthesis) {
            (q, Err(message_at(t, q, "expected ')' in ifstatement"@)))
        } else if advanced(t, p, q) {
            p_block(t, q + 1)
        } else {
            (q, r)
        }
    }
}

/// returnstatement ::= <KW_RETURN> ( assignment )?
pub open spec fn p_return_statement(t: Tokens, p: int) -> Outcome
    decreases t.toks.len() - p, 15nat,
{
    if !at(t, p, C1Token::KwReturn) {
        (p, Err("error"@))
    } else if at_any(t, p + 1, assignment_first()) {
        p_assignment(t, p + 1)
    } else {
        (p + 1, Ok(()))
    }
}

/// printf ::= <KW_PRINTF> "(" assignment ")"
pub open spec fn p_printf(t: Tokens, p: int) -> Outcome
    decreases t.toks.len() - p, 15nat,
{
    if !at(t, p, C1Token::KwPrintf) {
        (p, Err("error"@))
    } else if !at(t, p + 1, C1Token::LeftParenthesis) {
        (p + 1, Err(message_at(t, p + 1, "expected '(' in printf"@)))
    } else {
        let (q, r) = p_assignment(t, p + 2);
        if r is Err {
            (q, r)
        } else {
            check(t, q, C1Token::RightParenthesis, message_at(t, q, "expected ')' in printf"@))
        }
    }
}

/// statassignment ::= <ID> "=" assignment
pub open spec fn p_stat_assignment(t: Tokens, p: int) -> Outcome
    decreases t.toks.len() - p, 15nat,
{
    let m = message_at(t, p, "error in statassign"@);
    let (q, r) = check_all(t, p, stat_head_tokens(), m);
    if r is Ok && advanced(t, p, q) {
        p_assignment(t, q)
    } else {
        (q, r)
    }
}

/// assignment ::= ( <ID> "=" assignment ) | expr
pub open spec fn p_assignment(t: Tokens, p: int) -> Outcome
    decreases t.toks.len() - p, 14nat,
{
    if at(t, p, C1Token::Identifier) && at(t, p + 1, C1Token::Assign) {
        p_assignment(t, p + 2)
    } else {
        p_expr(t, p)
    }
}

/// expr ::= simpexpr ( ( "==" | "!=" | "<=" | ">=" | "<" | ">" ) simpexpr )?
pub open spec fn p_expr(t: Tokens, p: int) -> Outcome
    decreases t.toks.len() - p, 13nat,
{
    let (q, r) = p_simpexpr(t, p);
    if r is Err {
        (q, r)
    } else if at_any(t, q, relation_tokens()) && p <= q {
        p_simpexpr(t, q + 1)
    } else {
        (q, r)
    }
}

/// simpexpr ::= ( "-" )? term ( ( "+" | "-" | "||" ) term )*
pub open spec fn p_simpexpr(t: Tokens, p: int) -> Outcome
    decreases t.toks.len() - p, 12nat,
{
    let p0 = if at(t, p, C1Token::Minus) {
        p + 1
    } else {
        p
    };
    let (q, r) = p_term(t, p0);
    if r is Ok && p <= q <= t.toks.len() {
        p_sum_rest(t, q)
    } else {
        (q, r)
    }
}

/// The repetition ( ( "+" | "-" | "||" ) term )* of a simpexpr.
pub open spec fn p_sum_rest(t: Tokens, p: int) -> Outcome
    decreases t.toks.len() - p, 11nat,
{
    if at_any(t, p, sum_tokens()) {
        let (q, r) = p_term(t, p + 1);
        if r is Ok && advanced(t, p, q) {
            p_sum_rest(t, q)
        } else {
            (q, r)
        }
    } else {
        (p, Ok(()))
    }
}

/// term ::= factor ( ( "*" | "/" | "&&" ) factor )*
pub open spec fn p_term(t: Tokens, p: int) -> Outcome
    decreases t.toks.len() - p, 10nat,
{
    let (q, r) = p_factor(t, p);
    if r is Ok && p <= q <= t.toks.len() {
        p_product_rest(t, q)
    } else {
        (q, r)
    }
}

/// The repetition ( ( "*" | "/" | "&&" ) factor )* of a term.
pub open spec fn p_product_rest(t: Tokens, p: int) -> Outcome
    decreases t.toks.len() - p, 9nat,
{
    if at_any(t, p, product_tokens()) {
        let (q, r) = p_factor(t, p + 1);
        if r is Ok && advanced(t, p, q) {
            p_product_rest(t, q)
        } else {
            (q, r)
        }
    } else {
        (p, Ok(()))
    }
}

/// factor ::= <CONST_INT> | <CONST_FLOAT> | <CONST_BOOLEAN> | functioncall
///          | <ID> | "(" assignment ")"
pub open spec fn p_factor(t: Tokens, p: int) -> Outcome
    decreases t.toks.len() - p, 8nat,
{
    if at(t, p, C1Token::Identifier) && at(t, p + 1, C1Token::LeftParenthesis) {
        p_function_call(t, p)
    } else if at_any(t, p, leaf_tokens()) {
        (p + 1, Ok(()))
    } else if !at(t, p, C1Token::LeftParenthesis) {
        (p, Err(message_at(t, p, "unexpected token"@)))
    } else {
        let (q, r) = p_assignment(t, p + 1);
        if r is Err {
            (q, r)
        } else {
            check(t, q, C1Token::RightParenthesis, message_at(t, q, "unexpected token"@))
        }
    }
}

/// What `C1Parser::parse` gives for the text `text`.
pub open spec fn spec_parse(text: Seq<char>) -> Result<(), Seq<char>> {
    p_program(Tokens { text, toks: crate::lexer::lex(text) }, 0).1
}

/// A successful `check_all` consumes one token per kind.
pub proof fn lemma_check_all_ok(t: Tokens, p: int, ks: Seq<C1Token>, msg: Seq<char>)
    ensures
        check_all(t, p, ks, msg).1 is Ok ==> check_all(t, p, ks, msg).0 == p + ks.len(),
        check_all(t, p, ks, msg).1 is Ok ==> forall|i: int|
            0 <= i < ks.len() ==> at(t, p + i, #[trigger] ks[i]),
        p <= check_all(t, p, ks, msg).0 <= p + ks.len(),
        p <= t.toks.len() ==> check_all(t, p, ks, msg).0 <= t.toks.len(),
    decreases ks.len(),
{
    if ks.len() > 0 {
        lemma_check_all_ok(t, p, ks.drop_last(), msg);
        let (p1, r1) = check_all(t, p, ks.drop_last(), msg);
        assert forall|i: int| 0 <= i < ks.len() - 1 implies ks.drop_last()[i] == ks[i] by {}
    }
}

/// The step `o`, begun at `p`, ends at or after `p` and within the tokens.
pub open spec fn stays_within(t: Tokens, p: int, o: Outcome) -> bool {
    p <= o.0 <= t.toks.len()
}

/// As `stays_within`, and a successful step consumes at least one token.
pub open spec fn consumes(t: Tokens, p: int, o: Outcome) -> bool {
    &&& stays_within(t, p, o)
    &&& o.1 is Ok ==> p < o.0
}

pub proof fn lemma_skip_errors(t: Tokens, p: int)
    requires
        0 <= p <= t.toks.len(),
    ensures
        p <= skip_errors(t, p) <= t.toks.len(),
        !at(t, skip_errors(t, p), C1Token::Error),
    decreases t.toks.len() - p,
{
    if at(t, p, C1Token::Error) {
        lemma_skip_errors(t, p + 1);
    }
}

pub proof fn lemma_progress_function_call(t: Tokens, p: int)
    requires
        0 <= p <= t.toks.len(),
    ensures
        consumes(t, p, p_function_call(t, p)),
{
    lemma_check_all_ok(t, p, call_tokens(), message_at(t, p, "unexpected token in functioncall"@));
}

pub proof fn lemma_progress_program(t: Tokens, p: int)
    requires
        0 <= p <= t.toks.len(),
    ensures
        stays_within(t, p, p_program(t, p)),
    decreases t.toks.len() - p, 20nat,
{
    if at(t, p, C1Token::Error) {
        lemma_progress_program(t, p + 1);
    } else if kind_at(t.toks, p) is None {
    } else if at_any(t, p, type_tokens()) {
        lemma_progress_function_definition(t, p);
        let (q, r) = p_function_definition(t, p);
        if r is Ok && advanced(t, p, q) {
            lemma_progress_program(t, q);
        }
    }
}

pub proof fn lemma_progress_function_definition(t: Tokens, p: int)
    requires
        0 <= p <= t.toks.len(),
    ensures
        consumes(t, p, p_function_definition(t, p)),
    decreases t.toks.len() - p, 19nat,
{
    let (p1, r1) = p_return_type(t, p);
    if r1 is Ok {
        let m = message_at(t, p1, "unexpected token in functiondefinition"@);
        lemma_check_all_ok(t, p1, header_tokens(), m);
        let (p2, r2) = check_all(t, p1, header_tokens(), m);
        if r2 is Ok && advanced(t, p, p2) {
            lemma_progress_statement_list(t, p2);
        }
    }
}

pub proof fn lemma_progress_statement_list(t: Tokens, p: int)
    requires
        0 <= p <= t.toks.len(),
    ensures
        stays_within(t, p, p_statement_list(t, p)),
    decreases t.toks.len() - p, 18nat,
{
    if at(t, p, C1Token::Error) {
        lemma_progress_statement_list(t, p + 1);
    } else if at_any(t, p, block_first()) {
        lemma_progress_block(t, p);
        let (q, r) = p_block(t, p);
        if r is Ok && advanced(t, p, q) {
            lemma_progress_statement_list(t, q);
        }
    }
}

pub proof fn lemma_progress_block(t: Tokens, p: int)
    requires
        0 <= p <= t.toks.len(),
    ensures
        consumes(t, p, p_block(t, p)),
    decreases t.toks.len() - p, 17nat,
{
    if at(t, p, C1Token::LeftBrace) {
        lemma_progress_statement_list(t, p + 1);
    } else {
        lemma_progress_statement(t, p);
    }
}

pub proof fn lemma_progress_statement(t: Tokens, p: int)
    requires
        0 <= p <= t.toks.len(),
    ensures
        consumes(t, p, p_statement(t, p)),
    decreases t.toks.len() - p, 16nat,
{
    if at(t, p, C1Token::KwIf) {
        lemma_progress_if_statement(t, p);
    } else if at(t, p, C1Token::KwReturn) {
        lemma_progress_return_statement(t, p);
    } else if at(t, p, C1Token::KwPrintf) {
        lemma_progress_printf(t, p);
    } else if at(t, p + 1, C1Token::Assign) {
        lemma_progress_stat_assignment(t, p);
    } else if at(t, p + 1, C1Token::LeftParenthesis) {
        lemma_progress_function_call(t, p);
    }
}

pub proof fn lemma_progress_if_statement(t: Tokens, p: int)
    requires
        0 <= p <= t.toks.len(),
    ensures
        consumes(t, p, p_if_statement(t, p)),
    decreases t.toks.len() - p, 15nat,
{
    if at(t, p, C1Token::KwIf) && at(t, p + 1, C1Token::LeftParenthesis) {
        lemma_progress_assignment(t, p + 2);
        let (q, r) = p_assignment(t, p + 2);
        if r is Ok && at(t, q, C1Token::RightParenthesis) && advanced(t, p, q) {
            lemma_progress_block(t, q + 1);
        }
    }
}

pub proof fn lemma_progress_return_statement(t: Tokens, p: int)
    requires
        0 <= p <= t.toks.len(),
    ensures
        consumes(t, p, p_return_statement(t, p)),
    decreases t.toks.len() - p, 15nat,
{
    if at(t, p, C1Token::KwReturn) && at_any(t, p + 1, assignment_first()) {
        lemma_progress_assignment(t, p + 1);
    }
}

pub proof fn lemma_progress_printf(t: Tokens, p: int)
    requires
        0 <= p <= t.toks.len(),
    ensures
        consumes(t, p, p_printf(t, p)),
    decreases t.toks.len() - p, 15nat,
{
    if at(t, p, C1Token::KwPrintf) && at(t, p + 1, C1Token::LeftParenthesis) {
        lemma_progress_assignment(t, p + 2);
    }
}

pub proof fn lemma_progress_stat_assignment(t: Tokens, p: int)
    requires
        0 <= p <= t.toks.len(),
    ensures
        consumes(t, p, p_stat_assignment(t, p)),
    decreases t.toks.len() - p, 15nat,
{
    let m = message_at(t, p, "error in statassign"@);
    lemma_check_all_ok(t, p, stat_head_tokens(), m);
    let (q, r) = check_all(t, p, stat_head_tokens(), m);
    if r is Ok && advanced(t, p, q) {
        lemma_progress_assignment(t, q);
    }
}

pub proof fn lemma_progress_assignment(t: Tokens, p: int)
    requires
        0 <= p <= t.toks.len(),
    ensures
        consumes(t, p, p_assignment(t, p)),
    decreases t.toks.len() - p, 14nat,
{
    if at(t, p, C1Token::Identifier) && at(t, p + 1, C1Token::Assign) {
        lemma_progress_assignment(t, p + 2);
    } else {
        lemma_progress_expr(t, p);
    }
}

pub proof fn lemma_progress_expr(t: Tokens, p: int)
    requires
        0 <= p <= t.toks.len(),
    ensures
        consumes(t, p, p_expr(t, p)),
    decreases t.toks.len() - p, 13nat,
{
    lemma_progress_simpexpr(t, p);
    let (q, r) = p_simpexpr(t, p);
    if r is Ok && at_any(t, q, relation_tokens()) && p <= q {
        lemma_progress_simpexpr(t, q + 1);
    }
}

pub proof fn lemma_progress_simpexpr(t: Tokens, p: int)
    requires
        0 <= p <= t.toks.len(),
    ensures
        consumes(t, p, p_simpexpr(t, p)),
    decreases t.toks.len() - p, 12nat,
{
    let p0 = if at(t, p, C1Token::Minus) {
        p + 1
    } else {
        p
    };
    lemma_progress_term(t, p0);
    let (q, r) = p_term(t, p0);
    if r is Ok && p <= q <= t.toks.len() {
        lemma_progress_sum_rest(t, q);
    }
}

pub proof fn lemma_progress_sum_rest(t: Tokens, p: int)
    requires
        0 <= p <= t.toks.len(),
    ensures
        stays_within(t, p, p_sum_rest(t, p)),
    decreases t.toks.len() - p, 11nat,
{
    if at_any(t, p, sum_tokens()) {
        lemma_progress_term(t, p + 1);
        let (q, r) = p_term(t, p + 1);
        if r is Ok && advanced(t, p, q) {
            lemma_progress_sum_rest(t, q);
        }
    }
}

pub proof fn lemma_progress_term(t: Tokens, p: int)
    requires
        0 <= p <= t.toks.len(),
    ensures
        consumes(t, p, p_term(t, p)),
    decreases t.toks.len() - p, 10nat,
{
    lemma_progress_factor(t, p);
    let (q, r) = p_factor(t, p);
    if r is Ok && p <= q <= t.toks.len() {
        lemma_progress_product_rest(t, q);
    }
}

pub proof fn lemma_progress_product_rest(t: Tokens, p: int)
    requires
        0 <= p <= t.toks.len(),
    ensures
        stays_within(t, p, p_product_rest(t, p)),
    decreases t.toks.len() - p, 9nat,
{
    if at_any(t, p, product_tokens()) {
        lemma_progress_factor(t, p + 1);
        let (q, r) = p_factor(t, p + 1);
        if r is Ok && advanced(t, p, q) {
            lemma_progress_product_rest(t, q);
        }
    }
}

pub proof fn lemma_progress_factor(t: Tokens, p: int)
    requires
        0 <= p <= t.toks.len(),
    ensures
        consumes(t, p, p_factor(t, p)),
    decreases t.toks.len() - p, 8nat,
{
    if at(t, p, C1Token::Identifier) && at(t, p + 1, C1Token::LeftParenthesis) {
        lemma_progress_function_call(t, p);
    } else if at_any(t, p, leaf_tokens()) {
    } else if at(t, p, C1Token::LeftParenthesis) {
        lemma_progress_assignment(t, p + 1);
    }
}

/// Error tokens in front of a program are skipped.
pub proof fn lemma_program_skips_errors(t: Tokens, p: int)
    requires
        0 <= p <= t.toks.len(),
    ensures
        p_program(t, p) == p_program(t, skip_errors(t, p)),
    decreases t.toks.len() - p,
{
    if at(t, p, C1Token::Error) {
        lemma_program_skips_errors(t, p + 1);
    }
}

/// Error tokens in front of a statement list are skipped.
pub proof fn lemma_statement_list_skips_errors(t: Tokens, p: int)
    requires
        0 <= p <= t.toks.len(),
    ensures
        p_statement_list(t, p) == p_statement_list(t, skip_errors(t, p)),
    decreases t.toks.len() - p,
{
    if at(t, p, C1Token::Error) {
        lemma_statement_list_skips_errors(t, p + 1);
    }
}

// ===========================================================================
// The parser
// ===========================================================================

/// A recursive-descent parser for C1 over the tokens of a text.
pub struct C1Parser(C1Lexer);

impl C1Parser {
    /// The text and its tokens.
    pub closed spec fn stream(&self) -> Tokens {
        Tokens { text: self.0.source(), toks: self.0.tokens() }
    }

    /// The index of the current token.
    pub closed spec fn pos(&self) -> int {
        self.0.position()
    }

    /// The tokens are those of the text and the current one is among them
    /// or just past the last.
    pub closed spec fn wf(&self) -> bool {
        self.0.wf()
    }

    /// After a step: the parser is well formed, stands at the position of
    /// `o` and `r` is the result of `o`.
    pub open spec fn ended(&self, r: ParseResult, o: Outcome) -> bool {
        &&& self.wf()
        &&& self.pos() == o.0
        &&& outcome(r) == o.1
    }

    /// Parses the whole text as a program.
    pub fn parse(text: &str) -> (r: ParseResult)
        ensures
            outcome(r) == spec_parse(text@),
    {
        let mut parser = Self::initialize_parser(text);
        parser.program()
    }

    /// A parser over the tokens of `text`, standing on the first one.
    pub fn initialize_parser(text: &str) -> (parser: C1Parser)
        ensures
            parser.wf(),
            parser.stream() == (Tokens { text: text@, toks: crate::lexer::lex(text@) }),
            parser.pos() == 0,
    {
        C1Parser(C1Lexer::new(text))
    }

    /// The lexer that the parser reads its tokens from.
    pub fn lexer(&self) -> (l: &C1Lexer)
        ensures
            l.source() == self.stream().text,
            l.tokens() == self.stream().toks,
            l.position() == self.pos(),
            l.wf() == self.wf(),
    {
        &self.0
    }

    /// Consumes the error tokens in front of the current position.
    pub fn eat_errors(&mut self)
        requires
            old(self).wf(),
        ensures
            final(self).wf(),
            final(self).stream() == old(self).stream(),
            final(self).pos() == skip_errors(old(self).stream(), old(self).pos()),
    {
        let ghost t = self.stream();
        let ghost p0 = self.pos();
        proof {
            lemma_skip_errors(t, p0);
        }
        while self.current_matches(&C1Token::Error)
            invariant
                self.wf(),
                self.stream() == t,
                t == old(self).stream(),
                p0 == old(self).pos(),
                p0 <= self.pos() <= t.toks.len(),
                skip_errors(t, p0) == skip_errors(t, self.pos()),
            decreases t.toks.len() - self.pos(),
        {
            self.0.eat();
        }
    }

    /// program ::= ( functiondefinition )* <EOF>
    pub fn program(&mut self) -> (r: ParseResult)
        requires
            old(self).wf(),
        ensures
            final(self).stream() == old(self).stream(),
            final(self).ended(r, p_program(old(self).stream(), old(self).pos())),
        decreases old(self).stream().toks.len() - old(self).pos(), 20nat,
    {
        let ghost t = self.stream();
        let ghost p0 = self.pos();
        let types = [C1Token::KwBoolean, C1Token::KwFloat, C1Token::KwInt, C1Token::KwVoid];
        assert(types@ == type_tokens());
        loop
            invariant
                self.wf(),
                self.stream() == t,
                t == old(self).stream(),
                p0 == old(self).pos(),
                0 <= p0 <= self.pos() <= t.toks.len(),
                p_program(t, p0) == p_program(t, self.pos()),
                types@ == type_tokens(),
            decreases t.toks.len() - self.pos(),
        {
            let ghost p1 = self.pos();
            proof {
                lemma_program_skips_errors(t, p1);
                lemma_skip_errors(t, p1);
            }
            self.eat_errors();
            let ghost p2 = self.pos();
            if self.0.current_token().is_none() {
                return Ok(());
            } else if self.any_match_current(&types) {
                proof {
                    lemma_progress_function_definition(t, p2);
                }
                self.function_definition()?;
            } else {
                return Err(self.error_message_current("unexpected token in program"));
            }
        }
    }

    /// functiondefinition ::= type <ID> "(" ")" "{" statementlist "}"
    pub fn function_definition(&mut self) -> (r: ParseResult)
        requires
            old(self).wf(),
        ensures
            final(self).stream() == old(self).stream(),
            final(self).ended(r, p_function_definition(old(self).stream(), old(self).pos())),
        decreases old(self).stream().toks.len() - old(self).pos(), 19nat,
    {
        let ghost t = self.stream();
        let ghost p0 = self.pos();
        self.return_type()?;
        let m = self.error_message_current("unexpected token in functiondefinition");
        let header = [
            C1Token::Identifier,
            C1Token::LeftParenthesis,
            C1Token::RightParenthesis,
            C1Token::LeftBrace,
        ];
        assert(header@ == header_tokens());
        let ghost p1 = self.pos();
        proof {
            lemma_check_all_ok(t, p1, header_tokens(), m@);
        }
        self.check_and_eat_tokens(&header, m.as_str())?;
        self.statement_list()?;
        let m2 = self.error_message_current("expected '}' in functiondefinition");
        self.check_and_eat_token(&C1Token::RightBrace, m2.as_str())
    }

    /// functioncall ::= <ID> "(" ")"
    pub fn function_call(&mut self) -> (r: ParseResult)
        requires
            old(self).wf(),
        ensures
            final(self).stream() == old(self).stream(),
            final(self).ended(r, p_function_call(old(self).stream(), old(self).pos())),
    {
        let m = self.error_message_current("unexpected token in functioncall");
        let call = [C1Token::Identifier, C1Token::LeftParenthesis, C1Token::RightParenthesis];
        assert(call@ == call_tokens());
        self.check_and_eat_tokens(&call, m.as_str())
    }

    /// statementlist ::= ( block )*
    pub fn statement_list(&mut self) -> (r: ParseResult)
        requires
            old(self).wf(),
        ensures
            final(self).stream() == old(self).stream(),
            final(self).ended(r, p_statement_list(old(self).stream(), old(self).pos())),
        decreases old(self).stream().toks.len() - old(self).pos(), 18nat,
    {
        let ghost t = self.stream();
        let ghost p0 = self.pos();
        let first = [
            C1Token::LeftBrace,
            C1Token::KwIf,
            C1Token::KwReturn,
            C1Token::KwPrintf,
            C1Token::Identifier,
        ];
        assert(first@ == block_first());
        proof {
            lemma_statement_list_skips_errors(t, p0);
            lemma_skip_errors(t, p0);
        }
        self.eat_errors();
        loop
            invariant
                self.wf(),
                self.stream() == t,
                t == old(self).stream(),
                p0 == old(self).pos(),
                0 <= p0 <= self.pos() <= t.toks.len(),
                p_statement_list(t, p0) == p_statement_list(t, self.pos()),
                !at(t, self.pos(), C1Token::Error),
                first@ == block_first(),
            decreases t.toks.len() - self.pos(),
        {
            let ghost p1 = self.pos();
            if self.any_match_current(&first) {
                proof {
                    lemma_progress_block(t, p1);
                }
                self.block()?;
                let ghost q = self.pos();
                proof {
                    lemma_statement_list_skips_errors(t, q);
                    lemma_skip_errors(t, q);
                }
                self.eat_errors();
            } else {
                return Ok(());
            }
        }
    }

    /// block ::= "{" statementlist "}" | statement
    pub fn block(&mut self) -> (r: ParseResult)
        requires
            old(self).wf(),
        ensures
            final(self).stream() == old(self).stream(),
            final(self).ended(r, p_block(old(self).stream(), old(self).pos())),
        decreases old(self).stream().toks.len() - old(self).pos(), 17nat,
    {
        if self.current_matches(&C1Token::LeftBrace) {
            self.0.eat();
            self.statement_list()?;
            let m = self.error_message_current("expected '}' in block");
            self.check_and_eat_token(&C1Token::RightBrace, m.as_str())
        } else {
            self.statement()
        }
    }

    /// statement ::= ifstatement | returnstatement ";" | printf ";"
    ///             | statassignment ";" | functioncall ";"
    pub fn statement(&mut self) -> (r: ParseResult)
        requires
            old(self).wf(),
        ensures
            final(self).stream() == old(self).stream(),
            final(self).ended(r, p_statement(old(self).stream(), old(self).pos())),
        decreases old(self).stream().toks.len() - old(self).pos(), 16nat,
    {
        if self.current_matches(&C1Token::KwIf) {
            self.if_statement()
        } else if self.current_matches(&C1Token::KwReturn) {
            self.return_statement()?;
            let m = self.error_message_current("expected ';' in statement");
            self.check_and_eat_token(&C1Token::Semicolon, m.as_str())
        } else if self.current_matches(&C1Token::KwPrintf) {
            self.printf()?;
            let m = self.error_message_current("expected ';' in statement");
            self.check_and_eat_token(&C1Token::Semicolon, m.as_str())
        } else if self.next_matches(&C1Token::Assign) {
            self.stat_assignment()?;
            let m = self.error_message_current("expected ';' in statement");
            self.check_and_eat_token(&C1Token::Semicolon, m.as_str())
        } else if self.next_matches(&C1Token::LeftParenthesis) {
            self.function_call()?;
            let m = self.error_message_current("expected ';' in statement");
            self.check_and_eat_token(&C1Token::Semicolon, m.as_str())
        } else {
            Err(self.error_message_current("unexpected token in statement"))
        }
    }

    /// ifstatement ::= <KW_IF> "(" assignment ")" block
    pub fn if_statement(&mut self) -> (r: ParseResult)
        requires
            old(self).wf(),
        ensures
            final(self).stream() == old(self).stream(),
            final(self).ended(r, p_if_statement(old(self).stream(), old(self).pos())),
        decreases old(self).stream().toks.len() - old(self).pos(), 15nat,
    {
        let ghost t = self.stream();
        let ghost p0 = self.pos();
        self.check_and_eat_token(&C1Token::KwIf, "error")?;
        let m = self.error_message_current("expected '(' in ifstatement");
        self.check_and_eat_token(&C1Token::LeftParenthesis, m.as_str())?;
        proof {
            lemma_progress_assignment(t, p0 + 2);
        }
        self.assignment()?;
        let m2 = self.error_message_current("expected ')' in ifstatement");
        self.check_and_eat_token(&C1Token::RightParenthesis, m2.as_str())?;
        self.block()
    }

    /// returnstatement ::= <KW_RETURN> ( assignment )?
    pub fn return_statement(&mut self) -> (r: ParseResult)
        requires
            old(self).wf(),
        ensures
            final(self).stream() == old(self).stream(),
            final(self).ended(r, p_return_statement(old(self).stream(), old(self).pos())),
        decreases old(self).stream().toks.len() - old(self).pos(), 15nat,
    {
        self.check_and_eat_token(&C1Token::KwReturn, "error")?;
        let first = [
            C1Token::Identifier,
            C1Token::Minus,
            C1Token::ConstInt,
            C1Token::ConstFloat,
            C1Token::ConstBoolean,
            C1Token::LeftParenthesis,
        ];
        assert(first@ == assignment_first());
        if self.any_match_current(&first) {
            self.assignment()
        } else {
            Ok(())
        }
    }

    /// printf ::= <KW_PRINTF> "(" assignment ")"
    pub fn printf(&mut self) -> (r: ParseResult)
        requires
            old(self).wf(),
        ensures
            final(self).stream() == old(self).stream(),
            final(self).ended(r, p_printf(old(self).stream(), old(self).pos())),
        decreases old(self).stream().toks.len() - old(self).pos(), 15nat,
    {
        self.check_and_eat_token(&C1Token::KwPrintf, "error")?;
        let m = self.error_message_current("expected '(' in printf");
        self.check_and_eat_token(&C1Token::LeftParenthesis, m.as_str())?;
        self.assignment()?;
        let m2 = self.error_message_current("expected ')' in printf");
        self.check_and_eat_token(&C1Token::RightParenthesis, m2.as_str())
    }

    /// type ::= <KW_BOOLEAN> | <KW_FLOAT> | <KW_INT> | <KW_VOID>
    pub fn return_type(&mut self) -> (r: ParseResult)
        requires
            old(self).wf(),
        ensures
            final(self).stream() == old(self).stream(),
            final(self).ended(r, p_return_type(old(self).stream(), old(self).pos())),
    {
        let m = self.error_message_current("unexpected token in type");
        let types = [C1Token::KwBoolean, C1Token::KwFloat, C1Token::KwInt, C1Token::KwVoid];
        assert(types@ == type_tokens());
        self.any_match_and_eat(&types, m.as_str())
    }

    /// statassignment ::= <ID> "=" assignment
    pub fn stat_assignment(&mut self) -> (r: ParseResult)
        requires
            old(self).wf(),
        ensures
            final(self).stream() == old(self).stream(),
            final(self).ended(r, p_stat_assignment(old(self).stream(), old(self).pos())),
        decreases old(self).stream().toks.len() - old(self).pos(), 15nat,
    {
        let ghost t = self.stream();
        let ghost p0 = self.pos();
        let m = self.error_message_current("error in statassign");
        let head = [C1Token::Identifier, C1Token::Assign];
        assert(head@ == stat_head_tokens());
        proof {
            lemma_check_all_ok(t, p0, stat_head_tokens(), m@);
        }
        self.check_and_eat_tokens(&head, m.as_str())?;
        self.assignment()
    }

    /// assignment ::= ( <ID> "=" assignment ) | expr
    pub fn assignment(&mut self) -> (r: ParseResult)
        requires
            old(self).wf(),
        ensures
            final(self).stream() == old(self).stream(),
            final(self).ended(r, p_assignment(old(self).stream(), old(self).pos())),
        decreases old(self).stream().toks.len() - old(self).pos(), 14nat,
    {
        if self.current_matches(&C1Token::Identifier) && self.next_matches(&C1Token::Assign) {
            self.0.eat();
            self.0.eat();
            self.assignment()
        } else {
            self.expr()
        }
    }

    /// expr ::= simpexpr ( ( "==" | "!=" | "<=" | ">=" | "<" | ">" ) simpexpr )?
    pub fn expr(&mut self) -> (r: ParseResult)
        requires
            old(self).wf(),
        ensures
            final(self).stream() == old(self).stream(),
            final(self).ended(r, p_expr(old(self).stream(), old(self).pos())),
        decreases old(self).stream().toks.len() - old(self).pos(), 13nat,
    {
        let ghost t = self.stream();
        let ghost p0 = self.pos();
        proof {
            lemma_progress_simpexpr(t, p0);
        }
        self.simpexpr()?;
        let relations = [
            C1Token::Equal,
            C1Token::NotEqual,
            C1Token::Greater,
            C1Token::GreaterEqual,
            C1Token::Less,
            C1Token::LessEqual,
        ];
        assert(relations@ == relation_tokens());
        if self.any_match_current(&relations) {
            self.0.eat();
            self.simpexpr()
        } else {
            Ok(())
        }
    }

    /// simpexpr ::= ( "-" )? term ( ( "+" | "-" | "||" ) term )*
    pub fn simpexpr(&mut self) -> (r: ParseResult)
        requires
            old(self).wf(),
        ensures
            final(self).stream() == old(self).stream(),
            final(self).ended(r, p_simpexpr(old(self).stream(), old(self).pos())),
        decreases old(self).stream().toks.len() - old(self).pos(), 12nat,
    {
        let ghost t = self.stream();
        let ghost p0 = self.pos();
        if self.current_matches(&C1Token::Minus) {
            self.0.eat();
        }
        let ghost p1 = self.pos();
        proof {
            lemma_progress_term(t, p1);
        }
        self.term()?;
        let sums = [C1Token::Plus, C1Token::Minus, C1Token::Or];
        assert(sums@ == sum_tokens());
        while self.any_match_current(&sums)
            invariant
                self.wf(),
                self.stream() == t,
                t == old(self).stream(),
                p0 == old(self).pos(),
                0 <= p0 <= self.pos() <= t.toks.len(),
                p_simpexpr(t, p0) == p_sum_rest(t, self.pos()),
                sums@ == sum_tokens(),
            decreases t.toks.len() - self.pos(),
        {
            let ghost q = self.pos();
            proof {
                lemma_progress_term(t, q + 1);
            }
            self.0.eat();
            self.term()?;
        }
        Ok(())
    }

    /// term ::= factor ( ( "*" | "/" | "&&" ) factor )*
    pub fn term(&mut self) -> (r: ParseResult)
        requires
            old(self).wf(),
        ensures
            final(self).stream() == old(self).stream(),
            final(self).ended(r, p_term(old(self).stream(), old(self).pos())),
        decreases old(self).stream().toks.len() - old(self).pos(), 10nat,
    {
        let ghost t = self.stream();
        let ghost p0 = self.pos();
        proof {
            lemma_progress_factor(t, p0);
        }
        self.factor()?;
        let products = [C1Token::Asterisk, C1Token::Slash, C1Token::And];
        assert(products@ == product_tokens());
        while self.any_match_current(&products)
            invariant
                self.wf(),
                self.stream() == t,
                t == old(self).stream(),
                p0 == old(self).pos(),
                0 <= p0 <= self.pos() <= t.toks.len(),
                p_term(t, p0) == p_product_rest(t, self.pos()),
                products@ == product_tokens(),
            decreases t.toks.len() - self.pos(),
        {
            let ghost q = self.pos();
            proof {
                lemma_progress_factor(t, q + 1);
            }
            self.0.eat();
            self.factor()?;
        }
        Ok(())
    }

    /// factor ::= <CONST_INT> | <CONST_FLOAT> | <CONST_BOOLEAN> | functioncall
    ///          | <ID> | "(" assignment ")"
    pub fn factor(&mut self) -> (r: ParseResult)
        requires
            old(self).wf(),
        ensures
            final(self).stream() == old(self).stream(),
            final(self).ended(r, p_factor(old(self).stream(), old(self).pos())),
        decreases old(self).stream().toks.len() - old(self).pos(), 8nat,
    {
        let leaves = [
            C1Token::ConstInt,
            C1Token::ConstFloat,
            C1Token::ConstBoolean,
            C1Token::Identifier,
        ];
        assert(leaves@ == leaf_tokens());
        if self.current_matches(&C1Token::Identifier) && self.next_matches(
            &C1Token::LeftParenthesis,
        ) {
            self.function_call()
        } else if self.any_match_current(&leaves) {
            self.0.eat();
            Ok(())
        } else {
            let m = self.error_message_current("unexpected token");
            self.check_and_eat_token(&C1Token::LeftParenthesis, m.as_str())?;
            self.assignment()?;
            let m2 = self.error_message_current("unexpected token");
            self.check_and_eat_token(&C1Token::RightParenthesis, m2.as_str())
        }
    }

    /// Check whether the current token is equal to the given token. If yes,
    /// consume it, otherwise return an error with the given error message.
    pub fn check_and_eat_token(&mut self, token: &C1Token, error_message: &str) -> (r: ParseResult)
        requires
            old(self).wf(),
        ensures
            final(self).stream() == old(self).stream(),
            final(self).ended(
                r,
                check(old(self).stream(), old(self).pos(), *token, error_message@),
            ),
    {
        if self.current_matches(token) {
            self.0.eat();
            Ok(())
        } else {
            Err(String::from_str(error_message))
        }
    }

    /// For each token in the given slice, check whether the token is equal to
    /// the current token, consume the current token, and check the next token
    /// in the slice against the next token provided by the lexer.
    pub fn check_and_eat_tokens(&mut self, token: &[C1Token], error_message: &str) -> (r: ParseResult)
        requires
            old(self).wf(),
        ensures
            final(self).stream() == old(self).stream(),
            final(self).ended(
                r,
                check_all(old(self).stream(), old(self).pos(), token@, error_message@),
            ),
    {
        let ghost t = self.stream();
        let ghost p0 = self.pos();
        let mut failed = false;
        let mut i: usize = 0;
        while i < token.len()
            invariant
                self.wf(),
                self.stream() == t,
                t == old(self).stream(),
                p0 == old(self).pos(),
                i <= token@.len(),
                (self.pos(), if failed {
                    Err(error_message@)
                } else {
                    Ok(())
                }) == check_all(t, p0, token@.take(i as int), error_message@),
            decreases token@.len() - i,
        {
            assert(token@.take(i + 1).drop_last() =~= token@.take(i as int));
            let r = self.check_and_eat_token(&token[i], error_message);
            if r.is_err() {
                failed = true;
            }
            i = i + 1;
        }
        assert(token@.take(i as int) =~= token@);
        if failed {
            Err(String::from_str(error_message))
        } else {
            Ok(())
        }
    }

    /// Check whether the given token matches the current token.
    pub fn current_matches(&self, token: &C1Token) -> (b: bool)
        requires
            self.wf(),
        ensures
            b == at(self.stream(), self.pos(), *token),
    {
        match self.0.current_token() {
            None => false,
            Some(current) => current == *token,
        }
    }

    /// Check whether the given token matches the next token.
    pub fn next_matches(&self, token: &C1Token) -> (b: bool)
        requires
            self.wf(),
        ensures
            b == at(self.stream(), self.pos() + 1, *token),
    {
        match self.0.peek_token() {
            None => false,
            Some(next) => next == *token,
        }
    }

    /// Check whether any of the tokens matches the current token.
    pub fn any_match_current(&self, token: &[C1Token]) -> (b: bool)
        requires
            self.wf(),
        ensures
            b == at_any(self.stream(), self.pos(), token@),
    {
        let mut i: usize = 0;
        while i < token.len()
            invariant
                self.wf(),
                i <= token@.len(),
                forall|j: int| 0 <= j < i ==> !at(self.stream(), self.pos(), #[trigger] token@[j]),
            decreases token@.len() - i,
        {
            if self.current_matches(&token[i]) {
                assert(token@.contains(token@[i as int]));
                return true;
            }
            i = i + 1;
        }
        false
    }

    /// Check whether any of the tokens matches the current token, then
    /// consume it.
    pub fn any_match_and_eat(&mut self, token: &[C1Token], error_message: &str) -> (r: ParseResult)
        requires
            old(self).wf(),
        ensures
            final(self).stream() == old(self).stream(),
            final(self).ended(
                r,
                check_any(old(self).stream(), old(self).pos(), token@, error_message@),
            ),
    {
        let ghost t = self.stream();
        let ghost p0 = self.pos();
        let mut i: usize = 0;
        while i < token.len()
            invariant
                self.wf(),
                self.stream() == t,
                t == old(self).stream(),
                p0 == old(self).pos(),
                self.pos() == p0,
                i <= token@.len(),
                forall|j: int| 0 <= j < i ==> !at(t, p0, #[trigger] token@[j]),
            decreases token@.len() - i,
        {
            if self.check_and_eat_token(&token[i], "").is_ok() {
                assert(token@.contains(token@[i as int]));
                return Ok(());
            }
            i = i + 1;
        }
        Err(String::from_str(error_message))
    }

    /// The message of an error at the token at `p`.
    fn error_message_at(&self, p: usize, reason: &str) -> (m: String)
        requires
            self.wf(),
        ensures
            m@ == message_at(self.stream(), p as int, reason@),
    {
        let mut m = String::from_str(reason);
        match self.0.line_number_of(p) {
            None => {
                m.append(". Reached EOF");
            },
            Some(line) => {
                m.append(" at line ");
                push_decimal(&mut m, line);
                m.append(" with text: '");
                self.0.push_text_of(p, &mut m);
                m.append("'");
            },
        }
        m
    }

    /// The message of an error at the current token.
    pub fn error_message_current(&self, reason: &str) -> (m: String)
        requires
            self.wf(),
        ensures
            m@ == message_at(self.stream(), self.pos(), reason@),
    {
        self.error_message_at(self.0.position_index(), reason)
    }

    /// The message of an error at the token after the current one.
    pub fn error_message_peek(&self, reason: &str) -> (m: String)
        requires
            self.wf(),
        ensures
            m@ == message_at(self.stream(), self.pos() + 1, reason@),
    {
        let p = self.0.position_index();
        if p < usize::MAX {
            self.error_message_at(p + 1, reason)
        } else {
            self.error_message_at(p, reason)
        }
    }
}

} // verus!
