use vstd::prelude::*;

use crate::c1_parser::{
    spec_parse,
    at, call_tokens, check_all, header_tokens, message_at, p_assignment, p_block, p_expr,
    p_factor, p_function_definition, p_product_rest, p_program, p_simpexpr, p_statement,
    p_statement_list, p_sum_rest, p_term, product_tokens, relation_tokens, stat_head_tokens,
    sum_tokens, Tokens,
};
use crate::grammar::{
    all_kinds, is_c1_program,
    is_assignment, is_block, is_expr, is_factor, is_function, is_product_rest, is_program,
    is_simpexpr, is_statement, is_statement_list, is_sum_rest, is_term, lemma_first_assignment,
    lemma_first_block, lemma_first_expr, lemma_first_factor, lemma_first_function,
    lemma_first_product_rest, lemma_first_simpexpr, lemma_first_statement, lemma_first_sum_rest,
    lemma_first_term, lemma_matches_concat, lemma_token_sets, tokens_match, tree_yield, Tree,
};
use crate::lexer::{kind_at, lex, C1Token};

verus! {

// ===========================================================================
// Every program of the grammar is accepted
// ===========================================================================

/// The kinds that may follow the parts of an expression: level 0 after an
/// assignment, 1 after a simpexpr, 2 after a term, 3 after a factor.
pub open spec fn closes(k: C1Token, level: int) -> bool {
    ||| k == C1Token::RightParenthesis
    ||| k == C1Token::Semicolon
    ||| (level >= 1 && relation_tokens().contains(k))
    ||| (level >= 2 && sum_tokens().contains(k))
    ||| (level >= 3 && product_tokens().contains(k))
}

/// Token `q` exists and is of a kind that may follow at `level`.
pub open spec fn closed_at(t: Tokens, q: int, level: int) -> bool {
    match kind_at(t.toks, q) {
        Some(k) => closes(k, level),
        None => false,
    }
}

pub proof fn lemma_matches_at(t: Tokens, p: int, w: Seq<C1Token>, i: int)
    requires
        tokens_match(t, p, w),
        0 <= i < w.len(),
    ensures
        at(t, p + i, w[i]),
        kind_at(t.toks, p + i) == Some(w[i]),
        0 <= p + i < t.toks.len(),
{
}

pub proof fn lemma_matches_bound(t: Tokens, p: int, w: Seq<C1Token>)
    requires
        tokens_match(t, p, w),
        w.len() > 0,
    ensures
        0 <= p,
        p + w.len() <= t.toks.len(),
{
    lemma_matches_at(t, p, w, 0);
    lemma_matches_at(t, p, w, w.len() - 1);
}

pub proof fn lemma_matches3(t: Tokens, p: int, a: Seq<C1Token>, b: Seq<C1Token>, c: Seq<C1Token>)
    requires
        tokens_match(t, p, a + b + c),
    ensures
        tokens_match(t, p, a),
        tokens_match(t, p + a.len(), b),
        tokens_match(t, p + a.len() + b.len(), c),
{
    lemma_matches_concat(t, p, a + b, c);
    lemma_matches_concat(t, p, a, b);
}

/// Checking kinds that the tokens have succeeds and consumes them.
pub proof fn lemma_check_all_matched(t: Tokens, p: int, ks: Seq<C1Token>, msg: Seq<char>)
    requires
        tokens_match(t, p, ks),
    ensures
        check_all(t, p, ks, msg) == (p + ks.len(), Ok::<(), Seq<char>>(())),
    decreases ks.len(),
{
    if ks.len() > 0 {
        let k0 = ks.drop_last();
        assert(ks =~= k0 + seq![ks.last()]);
        lemma_matches_concat(t, p, k0, seq![ks.last()]);
        lemma_check_all_matched(t, p, k0, msg);
        lemma_matches_at(t, p + k0.len(), seq![ks.last()], 0);
    }
}

/// Checking a run of kinds succeeds exactly when the tokens from `p` on have
/// those kinds, and then consumes one token per kind; every failure carries
/// the given message.
pub proof fn law_check_all_exact(t: Tokens, p: int, ks: Seq<C1Token>, msg: Seq<char>)
    ensures
        (check_all(t, p, ks, msg).1 is Ok) <==> tokens_match(t, p, ks),
        check_all(t, p, ks, msg).1 is Ok ==> check_all(t, p, ks, msg).0 == p + ks.len(),
        check_all(t, p, ks, msg).1 is Err ==> check_all(t, p, ks, msg).1 == Err::<(), Seq<char>>(
            msg,
        ),
    decreases ks.len(),
{
    crate::c1_parser::lemma_check_all_ok(t, p, ks, msg);
    if tokens_match(t, p, ks) {
        lemma_check_all_matched(t, p, ks, msg);
    }
    if ks.len() > 0 {
        law_check_all_exact(t, p, ks.drop_last(), msg);
    }
}

pub proof fn lemma_complete_factor(t: Tokens, p: int, tr: Tree)
    requires
        is_factor(tr),
        0 <= p,
        tokens_match(t, p, tree_yield(tr)),
        closed_at(t, p + tree_yield(tr).len(), 3),
    ensures
        p_factor(t, p) == (p + tree_yield(tr).len(), Ok::<(), Seq<char>>(())),
    decreases tr, 0nat,
{
    lemma_token_sets();
    let y = tree_yield(tr);
    match tr {
        Tree::Leaf(k) => {
            lemma_matches_at(t, p, y, 0);
        },
        Tree::Call => {
            lemma_matches_at(t, p, y, 0);
            lemma_matches_at(t, p, y, 1);
            assert(call_tokens() == y);
            lemma_check_all_matched(
                t,
                p,
                call_tokens(),
                message_at(t, p, "unexpected token in functioncall"@),
            );
        },
        Tree::Paren(a) => {
            let ya = tree_yield(*a);
            lemma_matches3(t, p, seq![C1Token::LeftParenthesis], ya, seq![C1Token::RightParenthesis]);
            lemma_matches_at(t, p, seq![C1Token::LeftParenthesis], 0);
            lemma_matches_at(t, p + 1 + ya.len(), seq![C1Token::RightParenthesis], 0);
            lemma_complete_assignment(t, p + 1, *a);
        },
        _ => {},
    }
}

pub proof fn lemma_complete_product_rest(t: Tokens, p: int, tr: Tree)
    requires
        is_product_rest(tr),
        0 <= p,
        tokens_match(t, p, tree_yield(tr)),
        closed_at(t, p + tree_yield(tr).len(), 2),
    ensures
        p_product_rest(t, p) == (p + tree_yield(tr).len(), Ok::<(), Seq<char>>(())),
    decreases tr,
{
    lemma_token_sets();
    match tr {
        Tree::More(op, f, rest) => {
            let yf = tree_yield(*f);
            let yr = tree_yield(*rest);
            lemma_matches3(t, p, seq![op], yf, yr);
            lemma_matches_at(t, p, seq![op], 0);
            lemma_first_factor(*f);
            lemma_first_product_rest(*rest);
            lemma_matches_bound(t, p + 1, yf);
            if yr.len() > 0 {
                lemma_matches_at(t, p + 1 + yf.len(), yr, 0);
            }
            lemma_complete_factor(t, p + 1, *f);
            lemma_complete_product_rest(t, p + 1 + yf.len(), *rest);
        },
        _ => {},
    }
}

pub proof fn lemma_complete_term(t: Tokens, p: int, tr: Tree)
    requires
        is_term(tr),
        0 <= p,
        tokens_match(t, p, tree_yield(tr)),
        closed_at(t, p + tree_yield(tr).len(), 2),
    ensures
        p_term(t, p) == (p + tree_yield(tr).len(), Ok::<(), Seq<char>>(())),
    decreases tr, 0nat,
{
    lemma_token_sets();
    match tr {
        Tree::Term(f, rest) => {
            let yf = tree_yield(*f);
            let yr = tree_yield(*rest);
            lemma_matches_concat(t, p, yf, yr);
            lemma_first_factor(*f);
            lemma_first_product_rest(*rest);
            lemma_matches_bound(t, p, yf);
            if yr.len() > 0 {
                lemma_matches_at(t, p + yf.len(), yr, 0);
            }
            lemma_complete_factor(t, p, *f);
            lemma_complete_product_rest(t, p + yf.len(), *rest);
        },
        _ => {},
    }
}

pub proof fn lemma_complete_sum_rest(t: Tokens, p: int, tr: Tree)
    requires
        is_sum_rest(tr),
        0 <= p,
        tokens_match(t, p, tree_yield(tr)),
        closed_at(t, p + tree_yield(tr).len(), 1),
    ensures
        p_sum_rest(t, p) == (p + tree_yield(tr).len(), Ok::<(), Seq<char>>(())),
    decreases tr,
{
    lemma_token_sets();
    match tr {
        Tree::More(op, a, rest) => {
            let ya = tree_yield(*a);
            let yr = tree_yield(*rest);
            lemma_matches3(t, p, seq![op], ya, yr);
            lemma_matches_at(t, p, seq![op], 0);
            lemma_first_term(*a);
            lemma_first_sum_rest(*rest);
            lemma_matches_bound(t, p + 1, ya);
            if yr.len() > 0 {
                lemma_matches_at(t, p + 1 + ya.len(), yr, 0);
            }
            lemma_complete_term(t, p + 1, *a);
            lemma_complete_sum_rest(t, p + 1 + ya.len(), *rest);
        },
        _ => {},
    }
}

pub proof fn lemma_complete_simpexpr(t: Tokens, p: int, tr: Tree)
    requires
        is_simpexpr(tr),
        0 <= p,
        tokens_match(t, p, tree_yield(tr)),
        closed_at(t, p + tree_yield(tr).len(), 1),
    ensures
        p_simpexpr(t, p) == (p + tree_yield(tr).len(), Ok::<(), Seq<char>>(())),
    decreases tr, 0nat,
{
    lemma_token_sets();
    match tr {
        Tree::Sum(neg, a, rest) => {
            let ya = tree_yield(*a);
            let yr = tree_yield(*rest);
            let sign: Seq<C1Token> = if neg {
                seq![C1Token::Minus]
            } else {
                seq![]
            };
            assert(tree_yield(tr) == sign + ya + yr);
            lemma_matches3(t, p, sign, ya, yr);
            lemma_first_term(*a);
            lemma_first_sum_rest(*rest);
            lemma_matches_bound(t, p + sign.len(), ya);
            lemma_matches_at(t, p + sign.len(), ya, 0);
            if neg {
                lemma_matches_at(t, p, sign, 0);
            }
            if yr.len() > 0 {
                lemma_matches_at(t, p + sign.len() + ya.len(), yr, 0);
            }
            lemma_complete_term(t, p + sign.len(), *a);
            lemma_complete_sum_rest(t, p + sign.len() + ya.len(), *rest);
        },
        _ => {},
    }
}

pub proof fn lemma_complete_expr(t: Tokens, p: int, tr: Tree)
    requires
        is_expr(tr),
        0 <= p,
        tokens_match(t, p, tree_yield(tr)),
        closed_at(t, p + tree_yield(tr).len(), 0),
    ensures
        p_expr(t, p) == (p + tree_yield(tr).len(), Ok::<(), Seq<char>>(())),
    decreases tr, 0nat,
{
    lemma_token_sets();
    match tr {
        Tree::Expr(a) => {
            lemma_complete_simpexpr(t, p, *a);
        },
        Tree::Relation(a, op, b) => {
            let ya = tree_yield(*a);
            let yb = tree_yield(*b);
            lemma_matches3(t, p, ya, seq![op], yb);
            lemma_matches_at(t, p + ya.len(), seq![op], 0);
            lemma_first_simpexpr(*a);
            lemma_matches_bound(t, p, ya);
            lemma_complete_simpexpr(t, p, *a);
            lemma_complete_simpexpr(t, p + ya.len() + 1, *b);
        },
        _ => {},
    }
}

pub proof fn lemma_complete_assignment(t: Tokens, p: int, tr: Tree)
    requires
        is_assignment(tr),
        0 <= p,
        tokens_match(t, p, tree_yield(tr)),
        closed_at(t, p + tree_yield(tr).len(), 0),
    ensures
        p_assignment(t, p) == (p + tree_yield(tr).len(), Ok::<(), Seq<char>>(())),
    decreases tr, 1nat,
{
    lemma_token_sets();
    match tr {
        Tree::Assign(a) => {
            let ya = tree_yield(*a);
            let head = seq![C1Token::Identifier, C1Token::Assign];
            lemma_matches_concat(t, p, head, ya);
            lemma_matches_at(t, p, head, 1);
            lemma_complete_assignment(t, p + 2, *a);
        },
        _ => {
            let y = tree_yield(tr);
            lemma_first_expr(tr);
            if y.len() >= 2 {
                lemma_matches_at(t, p, y, 1);
            }
            lemma_complete_expr(t, p, tr);
        },
    }
}

pub proof fn lemma_complete_return(t: Tokens, p: int, tr: Tree)
    requires
        is_statement(tr),
        tr is ReturnValue || tr is ReturnEmpty,
        0 <= p,
        tokens_match(t, p, tree_yield(tr)),
    ensures
        p_statement(t, p) == (p + tree_yield(tr).len(), Ok::<(), Seq<char>>(())),
{
    lemma_token_sets();
    let y = tree_yield(tr);
    match tr {
        Tree::ReturnValue(a) => {
            let ya = tree_yield(*a);
            lemma_matches3(t, p, seq![C1Token::KwReturn], ya, seq![C1Token::Semicolon]);
            lemma_matches_at(t, p, seq![C1Token::KwReturn], 0);
            lemma_matches_at(t, p + 1 + ya.len(), seq![C1Token::Semicolon], 0);
            lemma_first_assignment(*a);
            lemma_matches_at(t, p + 1, ya, 0);
            lemma_complete_assignment(t, p + 1, *a);
        },
        _ => {
            lemma_matches_at(t, p, y, 0);
            lemma_matches_at(t, p, y, 1);
        },
    }
}

pub proof fn lemma_complete_print(t: Tokens, p: int, tr: Tree)
    requires
        is_statement(tr),
        tr is Print,
        0 <= p,
        tokens_match(t, p, tree_yield(tr)),
    ensures
        p_statement(t, p) == (p + tree_yield(tr).len(), Ok::<(), Seq<char>>(())),
{
    match tr {
        Tree::Print(a) => {
            let ya = tree_yield(*a);
            let head = seq![C1Token::KwPrintf, C1Token::LeftParenthesis];
            let tail = seq![C1Token::RightParenthesis, C1Token::Semicolon];
            lemma_matches3(t, p, head, ya, tail);
            lemma_matches_at(t, p, head, 0);
            lemma_matches_at(t, p, head, 1);
            lemma_matches_at(t, p + 2 + ya.len(), tail, 0);
            lemma_matches_at(t, p + 2 + ya.len(), tail, 1);
            lemma_complete_assignment(t, p + 2, *a);
        },
        _ => {},
    }
}

pub proof fn lemma_complete_assign_statement(t: Tokens, p: int, tr: Tree)
    requires
        is_statement(tr),
        tr is AssignStatement,
        0 <= p,
        tokens_match(t, p, tree_yield(tr)),
    ensures
        p_statement(t, p) == (p + tree_yield(tr).len(), Ok::<(), Seq<char>>(())),
{
    match tr {
        Tree::AssignStatement(a) => {
            let ya = tree_yield(*a);
            let head = seq![C1Token::Identifier, C1Token::Assign];
            lemma_matches3(t, p, head, ya, seq![C1Token::Semicolon]);
            lemma_matches_at(t, p, head, 0);
            lemma_matches_at(t, p, head, 1);
            lemma_matches_at(t, p + 2 + ya.len(), seq![C1Token::Semicolon], 0);
            assert(head == stat_head_tokens());
            lemma_check_all_matched(
                t,
                p,
                stat_head_tokens(),
                message_at(t, p, "error in statassign"@),
            );
            lemma_complete_assignment(t, p + 2, *a);
        },
        _ => {},
    }
}

pub proof fn lemma_complete_call_statement(t: Tokens, p: int, tr: Tree)
    requires
        tr is CallStatement,
        0 <= p,
        tokens_match(t, p, tree_yield(tr)),
    ensures
        p_statement(t, p) == (p + tree_yield(tr).len(), Ok::<(), Seq<char>>(())),
{
    let y = tree_yield(tr);
    lemma_matches_at(t, p, y, 0);
    lemma_matches_at(t, p, y, 1);
    lemma_matches_at(t, p, y, 2);
    lemma_matches_at(t, p, y, 3);
    assert(y == call_tokens() + seq![C1Token::Semicolon]);
    lemma_matches_concat(t, p, call_tokens(), seq![C1Token::Semicolon]);
    lemma_check_all_matched(
        t,
        p,
        call_tokens(),
        message_at(t, p, "unexpected token in functioncall"@),
    );
}

pub proof fn lemma_complete_statement(t: Tokens, p: int, tr: Tree)
    requires
        is_statement(tr),
        0 <= p,
        tokens_match(t, p, tree_yield(tr)),
    ensures
        p_statement(t, p) == (p + tree_yield(tr).len(), Ok::<(), Seq<char>>(())),
    decreases tr, 0nat,
{
    match tr {
        Tree::If(a, b) => {
            let y = tree_yield(tr);
            let ya = tree_yield(*a);
            let yb = tree_yield(*b);
            let head = seq![C1Token::KwIf, C1Token::LeftParenthesis];
            assert(y == head + ya + seq![C1Token::RightParenthesis] + yb);
            lemma_matches_concat(t, p, head + ya + seq![C1Token::RightParenthesis], yb);
            lemma_matches3(t, p, head, ya, seq![C1Token::RightParenthesis]);
            lemma_matches_at(t, p, head, 0);
            lemma_matches_at(t, p, head, 1);
            lemma_matches_at(t, p + 2 + ya.len(), seq![C1Token::RightParenthesis], 0);
            lemma_complete_assignment(t, p + 2, *a);
            lemma_complete_block(t, p + 2 + ya.len() + 1, *b);
        },
        Tree::ReturnValue(_) => {
            lemma_complete_return(t, p, tr);
        },
        Tree::ReturnEmpty => {
            lemma_complete_return(t, p, tr);
        },
        Tree::Print(_) => {
            lemma_complete_print(t, p, tr);
        },
        Tree::AssignStatement(_) => {
            lemma_complete_assign_statement(t, p, tr);
        },
        _ => {
            lemma_complete_call_statement(t, p, tr);
        },
    }
}

pub proof fn lemma_complete_block(t: Tokens, p: int, tr: Tree)
    requires
        is_block(tr),
        0 <= p,
        tokens_match(t, p, tree_yield(tr)),
    ensures
        p_block(t, p) == (p + tree_yield(tr).len(), Ok::<(), Seq<char>>(())),
    decreases tr, 1nat,
{
    lemma_token_sets();
    match tr {
        Tree::Braced(body) => {
            let yb = tree_yield(*body);
            lemma_matches3(t, p, seq![C1Token::LeftBrace], yb, seq![C1Token::RightBrace]);
            lemma_matches_at(t, p, seq![C1Token::LeftBrace], 0);
            lemma_matches_at(t, p + 1 + yb.len(), seq![C1Token::RightBrace], 0);
            lemma_complete_statement_list(t, p + 1, *body);
        },
        _ => {
            lemma_first_statement(tr);
            lemma_matches_at(t, p, tree_yield(tr), 0);
            lemma_complete_statement(t, p, tr);
        },
    }
}

pub proof fn lemma_complete_statement_list(t: Tokens, p: int, tr: Tree)
    requires
        is_statement_list(tr),
        0 <= p,
        tokens_match(t, p, tree_yield(tr)),
        at(t, p + tree_yield(tr).len(), C1Token::RightBrace),
    ensures
        p_statement_list(t, p) == (p + tree_yield(tr).len(), Ok::<(), Seq<char>>(())),
    decreases tr, 2nat,
{
    lemma_token_sets();
    match tr {
        Tree::Cons(b, rest) => {
            let yb = tree_yield(*b);
            let yr = tree_yield(*rest);
            lemma_matches_concat(t, p, yb, yr);
            lemma_first_block(*b);
            lemma_matches_at(t, p, yb, 0);
            lemma_matches_bound(t, p, yb);
            lemma_complete_block(t, p, *b);
            lemma_complete_statement_list(t, p + yb.len(), *rest);
        },
        _ => {},
    }
}

pub proof fn lemma_complete_function(t: Tokens, p: int, tr: Tree)
    requires
        is_function(tr),
        0 <= p,
        tokens_match(t, p, tree_yield(tr)),
    ensures
        p_function_definition(t, p) == (p + tree_yield(tr).len(), Ok::<(), Seq<char>>(())),
    decreases tr,
{
    lemma_token_sets();
    match tr {
        Tree::Function(ty, body) => {
            let yb = tree_yield(*body);
            let head = seq![ty] + header_tokens();
            assert(tree_yield(tr) =~= head + yb + seq![C1Token::RightBrace]);
            lemma_matches3(t, p, head, yb, seq![C1Token::RightBrace]);
            lemma_matches_concat(t, p, seq![ty], header_tokens());
            lemma_matches_at(t, p, seq![ty], 0);
            lemma_matches_at(t, p + 5 + yb.len(), seq![C1Token::RightBrace], 0);
            lemma_check_all_matched(
                t,
                p + 1,
                header_tokens(),
                message_at(t, p + 1, "unexpected token in functiondefinition"@),
            );
            lemma_complete_statement_list(t, p + 5, *body);
        },
        _ => {},
    }
}

pub proof fn lemma_complete_program(t: Tokens, p: int, tr: Tree)
    requires
        is_program(tr),
        0 <= p,
        tokens_match(t, p, tree_yield(tr)),
        p + tree_yield(tr).len() == t.toks.len(),
    ensures
        p_program(t, p) == (p + tree_yield(tr).len(), Ok::<(), Seq<char>>(())),
    decreases tr,
{
    lemma_token_sets();
    match tr {
        Tree::Cons(f, rest) => {
            let yf = tree_yield(*f);
            let yr = tree_yield(*rest);
            lemma_matches_concat(t, p, yf, yr);
            lemma_first_function(*f);
            lemma_matches_at(t, p, yf, 0);
            lemma_matches_bound(t, p, yf);
            lemma_complete_function(t, p, *f);
            lemma_complete_program(t, p + yf.len(), *rest);
        },
        _ => {},
    }
}

/// Every derivation of a program is accepted: when the kinds of the tokens are
/// those the derivation stands for, the parse succeeds and consumes them all.
pub proof fn lemma_program_tokens_accepted(t: Tokens, tr: Tree)
    requires
        is_program(tr),
        all_kinds(t) == tree_yield(tr),
    ensures
        p_program(t, 0) == (t.toks.len() as int, Ok::<(), Seq<char>>(())),
{
    let y = tree_yield(tr);
    assert forall|i: int| 0 <= i < y.len() implies at(t, 0 + i, #[trigger] y[i]) by {
        assert(all_kinds(t)[i] == t.toks[i].kind);
    }
    lemma_complete_program(t, 0, tr);
}

/// A text whose tokens form a program of the C1 grammar is accepted by
/// `C1Parser::parse`.
pub proof fn law_grammar_programs_are_accepted(text: Seq<char>)
    requires
        is_c1_program(all_kinds(Tokens { text, toks: lex(text) })),
    ensures
        spec_parse(text) == Ok::<(), Seq<char>>(()),
{
    let t = Tokens { text, toks: lex(text) };
    let tr = choose|tr: Tree| is_program(tr) && tree_yield(tr) == all_kinds(t);
    lemma_program_tokens_accepted(t, tr);
}

} // verus!
