use vstd::prelude::*;

use crate::c1_parser::{
    advanced, spec_parse,
    assignment_first, at, at_any, block_first, call_tokens, check_all, header_tokens,
    leaf_tokens, lemma_check_all_ok, lemma_progress_assignment, lemma_progress_block,
    lemma_progress_factor, lemma_progress_function_definition, lemma_progress_printf,
    lemma_progress_product_rest, lemma_progress_program, lemma_progress_return_statement,
    lemma_progress_simpexpr, lemma_progress_stat_assignment, lemma_progress_statement,
    lemma_progress_statement_list, lemma_progress_sum_rest, lemma_progress_term,
    lemma_progress_if_statement, message_at, p_assignment, p_block, p_expr, p_factor,
    p_function_call, p_function_definition, p_if_statement, p_printf, p_product_rest, p_program,
    p_return_statement, p_simpexpr, p_stat_assignment, p_statement, p_statement_list,
    p_sum_rest, p_term, product_tokens, relation_tokens, stat_head_tokens, sum_tokens,
    type_tokens, Tokens,
};
use crate::completeness::lemma_check_all_matched;
use crate::completeness::lemma_complete_function;
use crate::grammar::{all_kinds, tokens_match, Tree};
use crate::lexer::{kind_at, lex, C1Token};

verus! {

// ===========================================================================
// A successful step depends only on the kinds of the tokens it reads
// ===========================================================================

/// The kinds of the tokens `lo..hi` of `t1` are those of the tokens
/// `lo + d..hi + d` of `t2`, where being past the end counts as a kind.
pub open spec fn agree(t1: Tokens, t2: Tokens, d: int, lo: int, hi: int) -> bool {
    forall|j: int| lo <= j < hi ==> #[trigger] kind_at(t1.toks, j) == kind_at(t2.toks, j + d)
}

/// The messages play no part in a successful check.
pub proof fn lemma_local_check_all(
    t1: Tokens,
    t2: Tokens,
    d: int,
    p: int,
    ks: Seq<C1Token>,
    m1: Seq<char>,
    m2: Seq<char>,
)
    requires
        0 <= p,
        0 <= p + d,
        check_all(t1, p, ks, m1).1 is Ok,
        agree(t1, t2, d, p, p + ks.len()),
    ensures
        check_all(t1, p, ks, m1).0 == p + ks.len(),
        check_all(t2, p + d, ks, m2) == (p + d + ks.len(), Ok::<(), Seq<char>>(())),
{
    lemma_check_all_ok(t1, p, ks, m1);
    assert forall|i: int| 0 <= i < ks.len() implies at(t2, p + d + i, #[trigger] ks[i]) by {
        assert(at(t1, p + i, ks[i]));
        assert(kind_at(t1.toks, p + i) == kind_at(t2.toks, p + i + d));
    }
    assert(tokens_match(t2, p + d, ks));
    lemma_check_all_matched(t2, p + d, ks, m2);
}

pub proof fn lemma_local_factor(t1: Tokens, t2: Tokens, d: int, p: int)
    requires
        0 <= p <= t1.toks.len(),
        0 <= p + d <= t2.toks.len(),
        p_factor(t1, p).1 is Ok,
        agree(t1, t2, d, p, p_factor(t1, p).0 + 1),
    ensures
        p_factor(t2, p + d) == (p_factor(t1, p).0 + d, Ok::<(), Seq<char>>(())),
    decreases t1.toks.len() - p, 8nat,
{
    lemma_progress_factor(t1, p);
    let q = p_factor(t1, p).0;
    assert(kind_at(t1.toks, p) == kind_at(t2.toks, p + d));
    if at(t1, p, C1Token::Identifier) && at(t1, p + 1, C1Token::LeftParenthesis) {
        lemma_local_check_all(
            t1,
            t2,
            d,
            p,
            call_tokens(),
            message_at(t1, p, "unexpected token in functioncall"@),
            message_at(t2, p + d, "unexpected token in functioncall"@),
        );
    } else if at_any(t1, p, leaf_tokens()) {
        assert(kind_at(t1.toks, p + 1) == kind_at(t2.toks, p + 1 + d));
    } else {
        lemma_progress_assignment(t1, p + 1);
        let q1 = p_assignment(t1, p + 1).0;
        assert(kind_at(t1.toks, q1) == kind_at(t2.toks, q1 + d));
        lemma_local_assignment(t1, t2, d, p + 1);
    }
}

pub proof fn lemma_local_product_rest(t1: Tokens, t2: Tokens, d: int, p: int)
    requires
        0 <= p <= t1.toks.len(),
        0 <= p + d <= t2.toks.len(),
        p_product_rest(t1, p).1 is Ok,
        agree(t1, t2, d, p, p_product_rest(t1, p).0 + 1),
    ensures
        p_product_rest(t2, p + d) == (p_product_rest(t1, p).0 + d, Ok::<(), Seq<char>>(())),
    decreases t1.toks.len() - p, 9nat,
{
    lemma_progress_product_rest(t1, p);
    assert(kind_at(t1.toks, p) == kind_at(t2.toks, p + d));
    if at_any(t1, p, product_tokens()) {
        lemma_progress_factor(t1, p + 1);
        let q = p_factor(t1, p + 1).0;
        lemma_progress_product_rest(t1, q);
        lemma_local_factor(t1, t2, d, p + 1);
        lemma_progress_factor(t2, p + 1 + d);
        lemma_local_product_rest(t1, t2, d, q);
    }
}

pub proof fn lemma_local_term(t1: Tokens, t2: Tokens, d: int, p: int)
    requires
        0 <= p <= t1.toks.len(),
        0 <= p + d <= t2.toks.len(),
        p_term(t1, p).1 is Ok,
        agree(t1, t2, d, p, p_term(t1, p).0 + 1),
    ensures
        p_term(t2, p + d) == (p_term(t1, p).0 + d, Ok::<(), Seq<char>>(())),
    decreases t1.toks.len() - p, 10nat,
{
    lemma_progress_factor(t1, p);
    let q = p_factor(t1, p).0;
    lemma_progress_product_rest(t1, q);
    lemma_local_factor(t1, t2, d, p);
    lemma_progress_factor(t2, p + d);
    lemma_local_product_rest(t1, t2, d, q);
}

pub proof fn lemma_local_sum_rest(t1: Tokens, t2: Tokens, d: int, p: int)
    requires
        0 <= p <= t1.toks.len(),
        0 <= p + d <= t2.toks.len(),
        p_sum_rest(t1, p).1 is Ok,
        agree(t1, t2, d, p, p_sum_rest(t1, p).0 + 1),
    ensures
        p_sum_rest(t2, p + d) == (p_sum_rest(t1, p).0 + d, Ok::<(), Seq<char>>(())),
    decreases t1.toks.len() - p, 11nat,
{
    lemma_progress_sum_rest(t1, p);
    assert(kind_at(t1.toks, p) == kind_at(t2.toks, p + d));
    if at_any(t1, p, sum_tokens()) {
        lemma_progress_term(t1, p + 1);
        let q = p_term(t1, p + 1).0;
        lemma_progress_sum_rest(t1, q);
        lemma_local_term(t1, t2, d, p + 1);
        lemma_progress_term(t2, p + 1 + d);
        lemma_local_sum_rest(t1, t2, d, q);
    }
}

pub proof fn lemma_local_simpexpr(t1: Tokens, t2: Tokens, d: int, p: int)
    requires
        0 <= p <= t1.toks.len(),
        0 <= p + d <= t2.toks.len(),
        p_simpexpr(t1, p).1 is Ok,
        agree(t1, t2, d, p, p_simpexpr(t1, p).0 + 1),
    ensures
        p_simpexpr(t2, p + d) == (p_simpexpr(t1, p).0 + d, Ok::<(), Seq<char>>(())),
    decreases t1.toks.len() - p, 12nat,
{
    lemma_progress_simpexpr(t1, p);
    assert(kind_at(t1.toks, p) == kind_at(t2.toks, p + d));
    let p0 = if at(t1, p, C1Token::Minus) {
        p + 1
    } else {
        p
    };
    lemma_progress_term(t1, p0);
    let q = p_term(t1, p0).0;
    lemma_progress_sum_rest(t1, q);
    lemma_local_term(t1, t2, d, p0);
    lemma_progress_term(t2, p0 + d);
    lemma_local_sum_rest(t1, t2, d, q);
}

pub proof fn lemma_local_expr(t1: Tokens, t2: Tokens, d: int, p: int)
    requires
        0 <= p <= t1.toks.len(),
        0 <= p + d <= t2.toks.len(),
        p_expr(t1, p).1 is Ok,
        agree(t1, t2, d, p, p_expr(t1, p).0 + 1),
    ensures
        p_expr(t2, p + d) == (p_expr(t1, p).0 + d, Ok::<(), Seq<char>>(())),
    decreases t1.toks.len() - p, 13nat,
{
    lemma_progress_simpexpr(t1, p);
    let q = p_simpexpr(t1, p).0;
    assert(p_simpexpr(t1, p).1 is Ok);
    if at_any(t1, q, relation_tokens()) {
        lemma_progress_simpexpr(t1, q + 1);
    }
    assert(q <= p_expr(t1, p).0);
    lemma_local_simpexpr(t1, t2, d, p);
    lemma_progress_simpexpr(t2, p + d);
    assert(kind_at(t1.toks, q) == kind_at(t2.toks, q + d));
    lemma_local_expr_tail(t1, t2, d, p, q);
}

/// The part of an expr after its first simpexpr.
proof fn lemma_local_expr_tail(t1: Tokens, t2: Tokens, d: int, p: int, q: int)
    requires
        0 <= p <= q <= t1.toks.len(),
        0 <= p + d,
        q + d <= t2.toks.len(),
        p_simpexpr(t1, p).0 == q,
        p_simpexpr(t1, p).1 is Ok,
        p_simpexpr(t2, p + d) == (q + d, Ok::<(), Seq<char>>(())),
        p_expr(t1, p).1 is Ok,
        kind_at(t1.toks, q) == kind_at(t2.toks, q + d),
        agree(t1, t2, d, q + 1, p_expr(t1, p).0 + 1),
    ensures
        p_expr(t2, p + d) == (p_expr(t1, p).0 + d, Ok::<(), Seq<char>>(())),
    decreases t1.toks.len() - p, 12nat, 1nat,
{
    let rel = at_any(t1, q, relation_tokens());
    assert(rel == at_any(t2, q + d, relation_tokens()));
    if rel {
        assert(p_expr(t1, p) == p_simpexpr(t1, q + 1));
        assert(p_expr(t2, p + d) == p_simpexpr(t2, q + 1 + d));
        lemma_progress_simpexpr(t1, q + 1);
        lemma_local_simpexpr(t1, t2, d, q + 1);
    } else {
        assert(p_expr(t1, p).0 == q);
        assert(p_expr(t2, p + d) == (q + d, Ok::<(), Seq<char>>(())));
    }
}

pub proof fn lemma_local_assignment(t1: Tokens, t2: Tokens, d: int, p: int)
    requires
        0 <= p <= t1.toks.len(),
        0 <= p + d <= t2.toks.len(),
        p_assignment(t1, p).1 is Ok,
        agree(t1, t2, d, p, p_assignment(t1, p).0 + 1),
    ensures
        p_assignment(t2, p + d) == (p_assignment(t1, p).0 + d, Ok::<(), Seq<char>>(())),
    decreases t1.toks.len() - p, 14nat,
{
    lemma_progress_assignment(t1, p);
    assert(kind_at(t1.toks, p) == kind_at(t2.toks, p + d));
    assert(kind_at(t1.toks, p + 1) == kind_at(t2.toks, p + 1 + d));
    if at(t1, p, C1Token::Identifier) && at(t1, p + 1, C1Token::Assign) {
        lemma_progress_assignment(t1, p + 2);
        lemma_local_assignment(t1, t2, d, p + 2);
    } else {
        lemma_progress_expr_of(t1, p);
        lemma_local_expr(t1, t2, d, p);
    }
}

/// A successful expr consumes at least one token (from the progress lemmas).
pub proof fn lemma_progress_expr_of(t: Tokens, p: int)
    requires
        0 <= p <= t.toks.len(),
    ensures
        p <= p_expr(t, p).0 <= t.toks.len(),
        p_expr(t, p).1 is Ok ==> p < p_expr(t, p).0,
{
    crate::c1_parser::lemma_progress_expr(t, p);
}

pub proof fn lemma_local_stat_assignment(t1: Tokens, t2: Tokens, d: int, p: int)
    requires
        0 <= p <= t1.toks.len(),
        0 <= p + d <= t2.toks.len(),
        p_stat_assignment(t1, p).1 is Ok,
        agree(t1, t2, d, p, p_stat_assignment(t1, p).0 + 1),
    ensures
        p_stat_assignment(t2, p + d) == (p_stat_assignment(t1, p).0 + d, Ok::<
            (),
            Seq<char>,
        >(())),
    decreases t1.toks.len() - p, 15nat,
{
    let m1 = message_at(t1, p, "error in statassign"@);
    let m2 = message_at(t2, p + d, "error in statassign"@);
    lemma_check_all_ok(t1, p, stat_head_tokens(), m1);
    lemma_progress_assignment(t1, p + 2);
    lemma_local_check_all(t1, t2, d, p, stat_head_tokens(), m1, m2);
    lemma_local_assignment(t1, t2, d, p + 2);
}

pub proof fn lemma_local_return_statement(t1: Tokens, t2: Tokens, d: int, p: int)
    requires
        0 <= p <= t1.toks.len(),
        0 <= p + d <= t2.toks.len(),
        p_return_statement(t1, p).1 is Ok,
        agree(t1, t2, d, p, p_return_statement(t1, p).0 + 1),
    ensures
        p_return_statement(t2, p + d) == (p_return_statement(t1, p).0 + d, Ok::<
            (),
            Seq<char>,
        >(())),
    decreases t1.toks.len() - p, 15nat,
{
    lemma_progress_return_statement(t1, p);
    assert(kind_at(t1.toks, p) == kind_at(t2.toks, p + d));
    assert(kind_at(t1.toks, p + 1) == kind_at(t2.toks, p + 1 + d));
    if at_any(t1, p + 1, assignment_first()) {
        lemma_progress_assignment(t1, p + 1);
        lemma_local_assignment(t1, t2, d, p + 1);
    }
}

pub proof fn lemma_local_printf(t1: Tokens, t2: Tokens, d: int, p: int)
    requires
        0 <= p <= t1.toks.len(),
        0 <= p + d <= t2.toks.len(),
        p_printf(t1, p).1 is Ok,
        agree(t1, t2, d, p, p_printf(t1, p).0),
    ensures
        p_printf(t2, p + d) == (p_printf(t1, p).0 + d, Ok::<(), Seq<char>>(())),
    decreases t1.toks.len() - p, 15nat,
{
    lemma_progress_assignment(t1, p + 2);
    let q = p_assignment(t1, p + 2).0;
    assert(kind_at(t1.toks, p) == kind_at(t2.toks, p + d));
    assert(kind_at(t1.toks, p + 1) == kind_at(t2.toks, p + 1 + d));
    assert(kind_at(t1.toks, q) == kind_at(t2.toks, q + d));
    lemma_local_assignment(t1, t2, d, p + 2);
}

pub proof fn lemma_local_if_statement(t1: Tokens, t2: Tokens, d: int, p: int)
    requires
        0 <= p <= t1.toks.len(),
        0 <= p + d <= t2.toks.len(),
        p_if_statement(t1, p).1 is Ok,
        agree(t1, t2, d, p, p_if_statement(t1, p).0),
    ensures
        p_if_statement(t2, p + d) == (p_if_statement(t1, p).0 + d, Ok::<(), Seq<char>>(())),
    decreases t1.toks.len() - p, 15nat,
{
    lemma_progress_assignment(t1, p + 2);
    let q = p_assignment(t1, p + 2).0;
    lemma_progress_block(t1, q + 1);
    assert(kind_at(t1.toks, p) == kind_at(t2.toks, p + d));
    assert(kind_at(t1.toks, p + 1) == kind_at(t2.toks, p + 1 + d));
    assert(kind_at(t1.toks, q) == kind_at(t2.toks, q + d));
    lemma_local_assignment(t1, t2, d, p + 2);
    lemma_local_block(t1, t2, d, q + 1);
}

pub proof fn lemma_local_statement(t1: Tokens, t2: Tokens, d: int, p: int)
    requires
        0 <= p <= t1.toks.len(),
        0 <= p + d <= t2.toks.len(),
        p_statement(t1, p).1 is Ok,
        agree(t1, t2, d, p, p_statement(t1, p).0),
    ensures
        p_statement(t2, p + d) == (p_statement(t1, p).0 + d, Ok::<(), Seq<char>>(())),
    decreases t1.toks.len() - p, 16nat,
{
    lemma_progress_statement(t1, p);
    assert(kind_at(t1.toks, p) == kind_at(t2.toks, p + d));
    if at(t1, p, C1Token::KwIf) {
        lemma_local_if_statement(t1, t2, d, p);
    } else if at(t1, p, C1Token::KwReturn) {
        lemma_progress_return_statement(t1, p);
        let q = p_return_statement(t1, p).0;
        assert(kind_at(t1.toks, q) == kind_at(t2.toks, q + d));
        lemma_local_return_statement(t1, t2, d, p);
    } else if at(t1, p, C1Token::KwPrintf) {
        lemma_progress_printf(t1, p);
        let q = p_printf(t1, p).0;
        assert(kind_at(t1.toks, q) == kind_at(t2.toks, q + d));
        lemma_local_printf(t1, t2, d, p);
    } else if at(t1, p + 1, C1Token::Assign) {
        lemma_progress_stat_assignment(t1, p);
        let q = p_stat_assignment(t1, p).0;
        lemma_check_all_ok(
            t1,
            p,
            stat_head_tokens(),
            message_at(t1, p, "error in statassign"@),
        );
        lemma_progress_assignment(t1, p + 2);
        assert(kind_at(t1.toks, p + 1) == kind_at(t2.toks, p + 1 + d));
        assert(kind_at(t1.toks, q) == kind_at(t2.toks, q + d));
        lemma_local_stat_assignment(t1, t2, d, p);
    } else {
        let m1 = message_at(t1, p, "unexpected token in functioncall"@);
        lemma_check_all_ok(t1, p, call_tokens(), m1);
        assert(kind_at(t1.toks, p + 1) == kind_at(t2.toks, p + 1 + d));
        assert(kind_at(t1.toks, p + 3) == kind_at(t2.toks, p + 3 + d));
        lemma_local_check_all(
            t1,
            t2,
            d,
            p,
            call_tokens(),
            m1,
            message_at(t2, p + d, "unexpected token in functioncall"@),
        );
    }
}

pub proof fn lemma_local_block(t1: Tokens, t2: Tokens, d: int, p: int)
    requires
        0 <= p <= t1.toks.len(),
        0 <= p + d <= t2.toks.len(),
        p_block(t1, p).1 is Ok,
        agree(t1, t2, d, p, p_block(t1, p).0),
    ensures
        p_block(t2, p + d) == (p_block(t1, p).0 + d, Ok::<(), Seq<char>>(())),
    decreases t1.toks.len() - p, 17nat,
{
    lemma_progress_block(t1, p);
    assert(kind_at(t1.toks, p) == kind_at(t2.toks, p + d));
    if at(t1, p, C1Token::LeftBrace) {
        lemma_progress_statement_list(t1, p + 1);
        let q = p_statement_list(t1, p + 1).0;
        assert(kind_at(t1.toks, q) == kind_at(t2.toks, q + d));
        lemma_local_statement_list(t1, t2, d, p + 1);
    } else {
        lemma_local_statement(t1, t2, d, p);
    }
}

pub proof fn lemma_local_statement_list(t1: Tokens, t2: Tokens, d: int, p: int)
    requires
        0 <= p <= t1.toks.len(),
        0 <= p + d <= t2.toks.len(),
        p_statement_list(t1, p).1 is Ok,
        agree(t1, t2, d, p, p_statement_list(t1, p).0 + 1),
    ensures
        p_statement_list(t2, p + d) == (p_statement_list(t1, p).0 + d, Ok::<
            (),
            Seq<char>,
        >(())),
    decreases t1.toks.len() - p, 18nat,
{
    lemma_progress_statement_list(t1, p);
    assert(kind_at(t1.toks, p) == kind_at(t2.toks, p + d));
    if at(t1, p, C1Token::Error) {
        lemma_local_statement_list(t1, t2, d, p + 1);
    } else if at_any(t1, p, block_first()) {
        lemma_progress_block(t1, p);
        let q = p_block(t1, p).0;
        lemma_progress_statement_list(t1, q);
        lemma_local_block(t1, t2, d, p);
        lemma_progress_block(t2, p + d);
        lemma_local_statement_list(t1, t2, d, q);
    }
}

pub proof fn lemma_local_function_definition(t1: Tokens, t2: Tokens, d: int, p: int)
    requires
        0 <= p <= t1.toks.len(),
        0 <= p + d <= t2.toks.len(),
        p_function_definition(t1, p).1 is Ok,
        agree(t1, t2, d, p, p_function_definition(t1, p).0),
    ensures
        p_function_definition(t2, p + d) == (p_function_definition(t1, p).0 + d, Ok::<
            (),
            Seq<char>,
        >(())),
    decreases t1.toks.len() - p, 19nat,
{
    lemma_progress_function_definition(t1, p);
    assert(kind_at(t1.toks, p) == kind_at(t2.toks, p + d));
    let m1 = message_at(t1, p + 1, "unexpected token in functiondefinition"@);
    let m2 = message_at(t2, p + 1 + d, "unexpected token in functiondefinition"@);
    lemma_check_all_ok(t1, p + 1, header_tokens(), m1);
    lemma_progress_statement_list(t1, p + 5);
    let q = p_statement_list(t1, p + 5).0;
    assert(kind_at(t1.toks, q) == kind_at(t2.toks, q + d));
    lemma_local_check_all(t1, t2, d, p + 1, header_tokens(), m1, m2);
    lemma_local_statement_list(t1, t2, d, p + 5);
}

pub proof fn lemma_local_program(t1: Tokens, t2: Tokens, d: int, p: int)
    requires
        0 <= p <= t1.toks.len(),
        0 <= p + d <= t2.toks.len(),
        p_program(t1, p).1 is Ok,
        agree(t1, t2, d, p, p_program(t1, p).0 + 1),
    ensures
        p_program(t2, p + d) == (p_program(t1, p).0 + d, Ok::<(), Seq<char>>(())),
    decreases t1.toks.len() - p, 20nat,
{
    lemma_progress_program(t1, p);
    assert(kind_at(t1.toks, p) == kind_at(t2.toks, p + d));
    if at(t1, p, C1Token::Error) {
        lemma_local_program(t1, t2, d, p + 1);
    } else if kind_at(t1.toks, p) is None {
    } else {
        lemma_progress_function_definition(t1, p);
        let q = p_function_definition(t1, p).0;
        lemma_progress_program(t1, q);
        lemma_local_function_definition(t1, t2, d, p);
        lemma_progress_function_definition(t2, p + d);
        lemma_local_program(t1, t2, d, q);
    }
}

// ===========================================================================
// Laws across parsers
// ===========================================================================

/// The tokens of `t1` from `s` on have the kinds of the tokens of `t2`.
pub proof fn lemma_agree_suffix(t1: Tokens, s: int, t2: Tokens)
    requires
        0 <= s <= t1.toks.len(),
        all_kinds(t1).skip(s) == all_kinds(t2),
    ensures
        agree(t1, t2, -s, s, t1.toks.len() + 1int),
        agree(t2, t1, s, 0, t2.toks.len() + 1int),
{
    assert(all_kinds(t1).skip(s).len() == all_kinds(t2).len());
    assert forall|j: int| s <= j < t1.toks.len() + 1 implies #[trigger] kind_at(t1.toks, j)
        == kind_at(t2.toks, j + -s) by {
        if j < t1.toks.len() {
            assert(all_kinds(t1).skip(s)[j - s] == all_kinds(t2)[j - s]);
        }
    }
    assert forall|j: int| 0 <= j < t2.toks.len() + 1 implies #[trigger] kind_at(t2.toks, j)
        == kind_at(t1.toks, j + s) by {
        if j < t2.toks.len() {
            assert(all_kinds(t1).skip(s)[j] == all_kinds(t2)[j]);
        }
    }
}

/// A parse of a program from `s` in `t1` and one from the start of `t2`,
/// whose tokens have the same kinds, succeed or fail together.
pub proof fn lemma_program_same_kinds(t1: Tokens, s: int, t2: Tokens)
    requires
        0 <= s <= t1.toks.len(),
        all_kinds(t1).skip(s) == all_kinds(t2),
    ensures
        (p_program(t1, s).1 is Ok) == (p_program(t2, 0).1 is Ok),
{
    lemma_agree_suffix(t1, s, t2);
    lemma_progress_program(t1, s);
    lemma_progress_program(t2, 0);
    if p_program(t1, s).1 is Ok {
        lemma_local_program(t1, t2, -s, s);
    }
    if p_program(t2, 0).1 is Ok {
        lemma_local_program(t2, t1, s, 0);
    }
}

/// A program parse skips any number of error tokens in front.
pub proof fn lemma_program_skips_error_run(t: Tokens, p: int, n: int)
    requires
        0 <= p,
        0 <= n,
        p + n <= t.toks.len(),
        forall|j: int| p <= j < p + n ==> #[trigger] at(t, j, C1Token::Error),
    ensures
        p_program(t, p) == p_program(t, p + n),
    decreases n,
{
    if n > 0 {
        assert(at(t, p, C1Token::Error));
        lemma_program_skips_error_run(t, p + 1, n - 1);
    }
}

/// Error tokens in front of a program are skipped, not rejected: a parser
/// standing on `n` error tokens of `t1` succeeds exactly when a fresh parser
/// over tokens of the kinds that follow them succeeds.
pub proof fn law_leading_error_tokens_skipped(t1: Tokens, p: int, n: int, t2: Tokens)
    requires
        0 <= p,
        0 <= n,
        p + n <= t1.toks.len(),
        forall|j: int| p <= j < p + n ==> #[trigger] at(t1, j, C1Token::Error),
        all_kinds(t1).skip(p + n) == all_kinds(t2),
    ensures
        (p_program(t1, p).1 is Ok) == (p_program(t2, 0).1 is Ok),
{
    lemma_program_skips_error_run(t1, p, n);
    lemma_program_same_kinds(t1, p + n, t2);
}

/// The kinds of an empty function definition with return type `ty`.
pub open spec fn empty_function(ty: C1Token) -> Seq<C1Token> {
    seq![
        ty,
        C1Token::Identifier,
        C1Token::LeftParenthesis,
        C1Token::RightParenthesis,
        C1Token::LeftBrace,
        C1Token::RightBrace,
    ]
}

/// An empty function definition in front of a text neither makes nor breaks
/// a program: `text` is accepted exactly when `rest` is, where the tokens of
/// `text` are those of such a definition followed by those of `rest`.
pub proof fn law_leading_empty_function(text: Seq<char>, rest: Seq<char>, ty: C1Token)
    requires
        type_tokens().contains(ty),
        all_kinds(Tokens { text, toks: lex(text) }) == empty_function(ty) + all_kinds(
            Tokens { text: rest, toks: lex(rest) },
        ),
    ensures
        (spec_parse(text) is Ok) == (spec_parse(rest) is Ok),
{
    let t1 = Tokens { text, toks: lex(text) };
    let t2 = Tokens { text: rest, toks: lex(rest) };
    let f = Tree::Function(ty, Box::new(Tree::Nil));
    let y = crate::grammar::tree_yield(f);
    assert(crate::grammar::tree_yield(Tree::Nil) =~= Seq::<C1Token>::empty());
    assert(y =~= empty_function(ty));
    assert(all_kinds(t1).len() == t1.toks.len());
    assert forall|i: int| 0 <= i < y.len() implies at(t1, 0 + i, #[trigger] y[i]) by {
        assert(all_kinds(t1)[i] == t1.toks[i].kind);
        assert((empty_function(ty) + all_kinds(t2))[i] == empty_function(ty)[i]);
    }
    lemma_complete_function(t1, 0, f);
    assert(at_any(t1, 0, type_tokens()));
    assert(p_program(t1, 0) == p_program(t1, 6));
    assert(all_kinds(t1).skip(6) =~= all_kinds(t2));
    lemma_program_same_kinds(t1, 6, t2);
}

/// The step of `law_joined_programs_accepted`: from any position of the
/// first program at which its parse succeeds.
pub proof fn lemma_joined_from(ta: Tokens, tb: Tokens, t: Tokens, p: int)
    requires
        0 <= p <= ta.toks.len(),
        all_kinds(t) == all_kinds(ta) + all_kinds(tb),
        p_program(ta, p).1 is Ok,
        p_program(tb, 0).1 is Ok,
    ensures
        p_program(t, p).1 is Ok,
    decreases ta.toks.len() - p,
{
    let la = ta.toks.len() as int;
    assert(all_kinds(t).len() == t.toks.len());
    assert(all_kinds(ta).len() == la);
    assert forall|j: int| 0 <= j < la implies #[trigger] kind_at(ta.toks, j) == kind_at(
        t.toks,
        j + 0,
    ) by {
        assert(all_kinds(t)[j] == (all_kinds(ta) + all_kinds(tb))[j]);
        assert(all_kinds(t)[j] == t.toks[j].kind);
        assert(all_kinds(ta)[j] == ta.toks[j].kind);
    }
    if p < la {
        assert(kind_at(ta.toks, p) == kind_at(t.toks, p + 0));
    }
    if at(ta, p, C1Token::Error) {
        lemma_joined_from(ta, tb, t, p + 1);
    } else if kind_at(ta.toks, p) is None {
        assert(all_kinds(t).skip(la) =~= all_kinds(tb));
        lemma_program_same_kinds(t, la, tb);
    } else {
        lemma_progress_function_definition(ta, p);
        let q = p_function_definition(ta, p).0;
        lemma_local_function_definition(ta, t, 0, p);
        lemma_joined_from(ta, tb, t, q);
    }
}

/// Two accepted texts, written one after the other, are accepted: `joined`,
/// whose tokens are those of `a` followed by those of `b`, is accepted when
/// `a` and `b` are.
pub proof fn law_joined_programs_accepted(a: Seq<char>, b: Seq<char>, joined: Seq<char>)
    requires
        spec_parse(a) is Ok,
        spec_parse(b) is Ok,
        all_kinds(Tokens { text: joined, toks: lex(joined) }) == all_kinds(
            Tokens { text: a, toks: lex(a) },
        ) + all_kinds(Tokens { text: b, toks: lex(b) }),
    ensures
        spec_parse(joined) is Ok,
{
    lemma_joined_from(
        Tokens { text: a, toks: lex(a) },
        Tokens { text: b, toks: lex(b) },
        Tokens { text: joined, toks: lex(joined) },
        0,
    );
}

} // verus!
