use vstd::prelude::*;

use crate::c1_parser::{
    assignment_first, at, at_any, block_first, call_tokens, check_all, header_tokens,
    leaf_tokens, lemma_check_all_ok, lemma_progress_assignment, lemma_progress_block,
    lemma_progress_factor, lemma_progress_function_definition, lemma_progress_printf,
    lemma_progress_product_rest, lemma_progress_return_statement, lemma_progress_simpexpr,
    lemma_progress_stat_assignment, lemma_progress_statement_list, lemma_progress_sum_rest,
    lemma_progress_term, message_at, p_assignment, p_block, p_expr, p_factor, p_function_call,
    p_function_definition, p_if_statement, p_printf, p_product_rest, p_program,
    p_return_statement, p_simpexpr, p_stat_assignment, p_statement, p_statement_list,
    p_sum_rest, p_term, product_tokens, relation_tokens, spec_parse, stat_head_tokens,
    sum_tokens, Tokens,
};
use crate::grammar::{
    all_kinds, clean, is_assignment, is_block, is_c1_program, is_expr,
    is_factor, is_function, is_product_rest, is_program, is_simpexpr, is_statement,
    is_statement_list, is_sum_rest, is_term, lemma_clean_concat, lemma_clean_matched,
    lemma_token_sets, no_error_tokens, tree_yield, Tree,
};
use crate::lexer::{kind_at, lex, C1Token};

verus! {

// ===========================================================================
// What is accepted is a program of the grammar
// ===========================================================================

/// The kinds of the single token `p`, when it is not an error token.
pub proof fn lemma_clean_one(t: Tokens, p: int)
    requires
        0 <= p < t.toks.len(),
        t.toks[p].kind != C1Token::Error,
    ensures
        clean(t, p, p + 1) == seq![t.toks[p].kind],
{
    assert(clean(t, p + 1, p + 1) =~= seq![]);
    assert(clean(t, p, p + 1) =~= seq![t.toks[p].kind]);
}

/// A successful check of the kinds `ks` covers exactly tokens of those kinds.
pub proof fn lemma_clean_checked(t: Tokens, p: int, ks: Seq<C1Token>, msg: Seq<char>)
    requires
        0 <= p,
        check_all(t, p, ks, msg).1 is Ok,
        !ks.contains(C1Token::Error),
    ensures
        check_all(t, p, ks, msg).0 == p + ks.len(),
        clean(t, p, p + ks.len()) == ks,
{
    lemma_check_all_ok(t, p, ks, msg);
    lemma_clean_matched(t, p, ks);
}

pub proof fn sound_function_call(t: Tokens, p: int)
    requires
        0 <= p <= t.toks.len(),
        p_function_call(t, p).1 is Ok,
    ensures
        p_function_call(t, p).0 == p + 3,
        clean(t, p, p + 3) == tree_yield(Tree::Call),
{
    lemma_token_sets();
    lemma_clean_checked(
        t,
        p,
        call_tokens(),
        message_at(t, p, "unexpected token in functioncall"@),
    );
}

pub proof fn sound_factor(t: Tokens, p: int) -> (tr: Tree)
    requires
        0 <= p <= t.toks.len(),
        p_factor(t, p).1 is Ok,
    ensures
        is_factor(tr),
        tree_yield(tr) == clean(t, p, p_factor(t, p).0),
    decreases t.toks.len() - p, 8nat,
{
    lemma_token_sets();
    if at(t, p, C1Token::Identifier) && at(t, p + 1, C1Token::LeftParenthesis) {
        sound_function_call(t, p);
        Tree::Call
    } else if at_any(t, p, leaf_tokens()) {
        lemma_clean_one(t, p);
        Tree::Leaf(t.toks[p].kind)
    } else {
        lemma_progress_assignment(t, p + 1);
        let a = sound_assignment(t, p + 1);
        let q = p_assignment(t, p + 1).0;
        lemma_clean_one(t, p);
        lemma_clean_one(t, q);
        lemma_clean_concat(t, p, p + 1, q);
        lemma_clean_concat(t, p, q, q + 1);
        Tree::Paren(Box::new(a))
    }
}

pub proof fn sound_product_rest(t: Tokens, p: int) -> (tr: Tree)
    requires
        0 <= p <= t.toks.len(),
        p_product_rest(t, p).1 is Ok,
    ensures
        is_product_rest(tr),
        tree_yield(tr) == clean(t, p, p_product_rest(t, p).0),
    decreases t.toks.len() - p, 9nat,
{
    lemma_token_sets();
    if at_any(t, p, product_tokens()) {
        lemma_progress_factor(t, p + 1);
        let f = sound_factor(t, p + 1);
        let q = p_factor(t, p + 1).0;
        lemma_progress_product_rest(t, q);
        let rest = sound_product_rest(t, q);
        let r = p_product_rest(t, q).0;
        lemma_clean_one(t, p);
        lemma_clean_concat(t, p, p + 1, q);
        lemma_clean_concat(t, p, q, r);
        Tree::More(t.toks[p].kind, Box::new(f), Box::new(rest))
    } else {
        assert(clean(t, p, p) =~= seq![]);
        Tree::Nil
    }
}

pub proof fn sound_term(t: Tokens, p: int) -> (tr: Tree)
    requires
        0 <= p <= t.toks.len(),
        p_term(t, p).1 is Ok,
    ensures
        is_term(tr),
        tree_yield(tr) == clean(t, p, p_term(t, p).0),
    decreases t.toks.len() - p, 10nat,
{
    lemma_progress_factor(t, p);
    let f = sound_factor(t, p);
    let q = p_factor(t, p).0;
    lemma_progress_product_rest(t, q);
    let rest = sound_product_rest(t, q);
    lemma_clean_concat(t, p, q, p_product_rest(t, q).0);
    Tree::Term(Box::new(f), Box::new(rest))
}

pub proof fn sound_sum_rest(t: Tokens, p: int) -> (tr: Tree)
    requires
        0 <= p <= t.toks.len(),
        p_sum_rest(t, p).1 is Ok,
    ensures
        is_sum_rest(tr),
        tree_yield(tr) == clean(t, p, p_sum_rest(t, p).0),
    decreases t.toks.len() - p, 11nat,
{
    lemma_token_sets();
    if at_any(t, p, sum_tokens()) {
        lemma_progress_term(t, p + 1);
        let a = sound_term(t, p + 1);
        let q = p_term(t, p + 1).0;
        lemma_progress_sum_rest(t, q);
        let rest = sound_sum_rest(t, q);
        let r = p_sum_rest(t, q).0;
        lemma_clean_one(t, p);
        lemma_clean_concat(t, p, p + 1, q);
        lemma_clean_concat(t, p, q, r);
        Tree::More(t.toks[p].kind, Box::new(a), Box::new(rest))
    } else {
        assert(clean(t, p, p) =~= seq![]);
        Tree::Nil
    }
}

pub proof fn sound_simpexpr(t: Tokens, p: int) -> (tr: Tree)
    requires
        0 <= p <= t.toks.len(),
        p_simpexpr(t, p).1 is Ok,
    ensures
        is_simpexpr(tr),
        tree_yield(tr) == clean(t, p, p_simpexpr(t, p).0),
    decreases t.toks.len() - p, 12nat,
{
    let neg = at(t, p, C1Token::Minus);
    let p0 = if neg {
        p + 1
    } else {
        p
    };
    if neg {
        lemma_clean_one(t, p);
    } else {
        assert(clean(t, p, p) =~= seq![]);
    }
    lemma_progress_term(t, p0);
    let a = sound_term(t, p0);
    let q = p_term(t, p0).0;
    lemma_progress_sum_rest(t, q);
    let rest = sound_sum_rest(t, q);
    lemma_clean_concat(t, p, p0, q);
    lemma_clean_concat(t, p, q, p_sum_rest(t, q).0);
    let tr = Tree::Sum(neg, Box::new(a), Box::new(rest));
    let sign: Seq<C1Token> = if neg {
        seq![C1Token::Minus]
    } else {
        seq![]
    };
    assert(clean(t, p, p0) == sign);
    assert(tree_yield(tr) == sign + tree_yield(a) + tree_yield(rest));
    tr
}

pub proof fn sound_expr(t: Tokens, p: int) -> (tr: Tree)
    requires
        0 <= p <= t.toks.len(),
        p_expr(t, p).1 is Ok,
    ensures
        is_expr(tr),
        tree_yield(tr) == clean(t, p, p_expr(t, p).0),
    decreases t.toks.len() - p, 13nat,
{
    lemma_token_sets();
    lemma_progress_simpexpr(t, p);
    let a = sound_simpexpr(t, p);
    let q = p_simpexpr(t, p).0;
    if at_any(t, q, relation_tokens()) && p <= q {
        lemma_progress_simpexpr(t, q + 1);
        let b = sound_simpexpr(t, q + 1);
        let r = p_simpexpr(t, q + 1).0;
        lemma_clean_one(t, q);
        lemma_clean_concat(t, p, q, q + 1);
        lemma_clean_concat(t, p, q + 1, r);
        Tree::Relation(Box::new(a), t.toks[q].kind, Box::new(b))
    } else {
        Tree::Expr(Box::new(a))
    }
}

pub proof fn sound_assignment(t: Tokens, p: int) -> (tr: Tree)
    requires
        0 <= p <= t.toks.len(),
        p_assignment(t, p).1 is Ok,
    ensures
        is_assignment(tr),
        tree_yield(tr) == clean(t, p, p_assignment(t, p).0),
    decreases t.toks.len() - p, 14nat,
{
    if at(t, p, C1Token::Identifier) && at(t, p + 1, C1Token::Assign) {
        lemma_progress_assignment(t, p + 2);
        let a = sound_assignment(t, p + 2);
        lemma_clean_one(t, p);
        lemma_clean_one(t, p + 1);
        lemma_clean_concat(t, p, p + 1, p + 2);
        lemma_clean_concat(t, p, p + 2, p_assignment(t, p + 2).0);
        Tree::Assign(Box::new(a))
    } else {
        sound_expr(t, p)
    }
}

/// statassignment: the assignment after `<ID> "="`.
pub proof fn sound_stat_assignment(t: Tokens, p: int) -> (a: Tree)
    requires
        0 <= p <= t.toks.len(),
        p_stat_assignment(t, p).1 is Ok,
    ensures
        is_assignment(a),
        clean(t, p, p_stat_assignment(t, p).0) == seq![C1Token::Identifier, C1Token::Assign]
            + tree_yield(a),
    decreases t.toks.len() - p, 15nat,
{
    lemma_token_sets();
    let m = message_at(t, p, "error in statassign"@);
    lemma_check_all_ok(t, p, stat_head_tokens(), m);
    lemma_clean_checked(t, p, stat_head_tokens(), m);
    lemma_progress_assignment(t, p + 2);
    let a = sound_assignment(t, p + 2);
    lemma_clean_concat(t, p, p + 2, p_assignment(t, p + 2).0);
    a
}

/// returnstatement: the assignment after `<KW_RETURN>`, if there is one.
pub proof fn sound_return_statement(t: Tokens, p: int) -> (a: Option<Tree>)
    requires
        0 <= p <= t.toks.len(),
        p_return_statement(t, p).1 is Ok,
    ensures
        match a {
            Some(a) => is_assignment(a) && clean(t, p, p_return_statement(t, p).0) == seq![
                C1Token::KwReturn,
            ] + tree_yield(a),
            None => clean(t, p, p_return_statement(t, p).0) == seq![C1Token::KwReturn],
        },
    decreases t.toks.len() - p, 15nat,
{
    lemma_clean_one(t, p);
    if at_any(t, p + 1, assignment_first()) {
        lemma_progress_assignment(t, p + 1);
        let a = sound_assignment(t, p + 1);
        lemma_clean_concat(t, p, p + 1, p_assignment(t, p + 1).0);
        Some(a)
    } else {
        None
    }
}

/// printf: the assignment between the parentheses.
pub proof fn sound_printf(t: Tokens, p: int) -> (a: Tree)
    requires
        0 <= p <= t.toks.len(),
        p_printf(t, p).1 is Ok,
    ensures
        is_assignment(a),
        clean(t, p, p_printf(t, p).0) == seq![C1Token::KwPrintf, C1Token::LeftParenthesis]
            + tree_yield(a) + seq![C1Token::RightParenthesis],
    decreases t.toks.len() - p, 15nat,
{
    lemma_progress_assignment(t, p + 2);
    let a = sound_assignment(t, p + 2);
    let q = p_assignment(t, p + 2).0;
    lemma_clean_one(t, p);
    lemma_clean_one(t, p + 1);
    lemma_clean_one(t, q);
    lemma_clean_concat(t, p, p + 1, p + 2);
    lemma_clean_concat(t, p, p + 2, q);
    lemma_clean_concat(t, p, q, q + 1);
    a
}

pub proof fn sound_if_statement(t: Tokens, p: int) -> (tr: Tree)
    requires
        0 <= p <= t.toks.len(),
        p_if_statement(t, p).1 is Ok,
    ensures
        is_statement(tr),
        tree_yield(tr) == clean(t, p, p_if_statement(t, p).0),
    decreases t.toks.len() - p, 15nat,
{
    lemma_progress_assignment(t, p + 2);
    let a = sound_assignment(t, p + 2);
    let q = p_assignment(t, p + 2).0;
    lemma_progress_block(t, q + 1);
    let b = sound_block(t, q + 1);
    let r = p_block(t, q + 1).0;
    lemma_clean_one(t, p);
    lemma_clean_one(t, p + 1);
    lemma_clean_one(t, q);
    lemma_clean_concat(t, p, p + 1, p + 2);
    lemma_clean_concat(t, p, p + 2, q);
    lemma_clean_concat(t, p, q, q + 1);
    lemma_clean_concat(t, p, q + 1, r);
    Tree::If(Box::new(a), Box::new(b))
}

pub proof fn sound_statement(t: Tokens, p: int) -> (tr: Tree)
    requires
        0 <= p <= t.toks.len(),
        p_statement(t, p).1 is Ok,
    ensures
        is_statement(tr),
        tree_yield(tr) == clean(t, p, p_statement(t, p).0),
    decreases t.toks.len() - p, 16nat,
{
    lemma_token_sets();
    if at(t, p, C1Token::KwIf) {
        sound_if_statement(t, p)
    } else if at(t, p, C1Token::KwReturn) {
        lemma_progress_return_statement(t, p);
        let a = sound_return_statement(t, p);
        let q = p_return_statement(t, p).0;
        lemma_clean_one(t, q);
        lemma_clean_concat(t, p, q, q + 1);
        match a {
            Some(a) => Tree::ReturnValue(Box::new(a)),
            None => Tree::ReturnEmpty,
        }
    } else if at(t, p, C1Token::KwPrintf) {
        lemma_progress_printf(t, p);
        let a = sound_printf(t, p);
        let q = p_printf(t, p).0;
        lemma_clean_one(t, q);
        lemma_clean_concat(t, p, q, q + 1);
        Tree::Print(Box::new(a))
    } else if at(t, p + 1, C1Token::Assign) {
        lemma_progress_stat_assignment(t, p);
        let a = sound_stat_assignment(t, p);
        let q = p_stat_assignment(t, p).0;
        lemma_clean_one(t, q);
        lemma_clean_concat(t, p, q, q + 1);
        Tree::AssignStatement(Box::new(a))
    } else {
        sound_function_call(t, p);
        lemma_clean_one(t, p + 3);
        lemma_clean_concat(t, p, p + 3, p + 4);
        Tree::CallStatement
    }
}

pub proof fn sound_block(t: Tokens, p: int) -> (tr: Tree)
    requires
        0 <= p <= t.toks.len(),
        p_block(t, p).1 is Ok,
    ensures
        is_block(tr),
        tree_yield(tr) == clean(t, p, p_block(t, p).0),
    decreases t.toks.len() - p, 17nat,
{
    if at(t, p, C1Token::LeftBrace) {
        lemma_progress_statement_list(t, p + 1);
        let body = sound_statement_list(t, p + 1);
        let q = p_statement_list(t, p + 1).0;
        lemma_clean_one(t, p);
        lemma_clean_one(t, q);
        lemma_clean_concat(t, p, p + 1, q);
        lemma_clean_concat(t, p, q, q + 1);
        Tree::Braced(Box::new(body))
    } else {
        let tr = sound_statement(t, p);
        assert(is_block(tr));
        tr
    }
}

pub proof fn sound_statement_list(t: Tokens, p: int) -> (tr: Tree)
    requires
        0 <= p <= t.toks.len(),
        p_statement_list(t, p).1 is Ok,
    ensures
        is_statement_list(tr),
        tree_yield(tr) == clean(t, p, p_statement_list(t, p).0),
    decreases t.toks.len() - p, 18nat,
{
    if at(t, p, C1Token::Error) {
        lemma_progress_statement_list(t, p + 1);
        let tr = sound_statement_list(t, p + 1);
        tr
    } else if at_any(t, p, block_first()) {
        lemma_progress_block(t, p);
        let b = sound_block(t, p);
        let q = p_block(t, p).0;
        lemma_progress_statement_list(t, q);
        let rest = sound_statement_list(t, q);
        lemma_clean_concat(t, p, q, p_statement_list(t, q).0);
        Tree::Cons(Box::new(b), Box::new(rest))
    } else {
        assert(clean(t, p, p) =~= seq![]);
        Tree::Nil
    }
}

pub proof fn sound_function_definition(t: Tokens, p: int) -> (tr: Tree)
    requires
        0 <= p <= t.toks.len(),
        p_function_definition(t, p).1 is Ok,
    ensures
        is_function(tr),
        tree_yield(tr) == clean(t, p, p_function_definition(t, p).0),
    decreases t.toks.len() - p, 19nat,
{
    lemma_token_sets();
    let ty = t.toks[p].kind;
    let m = message_at(t, p + 1, "unexpected token in functiondefinition"@);
    lemma_clean_one(t, p);
    lemma_clean_checked(t, p + 1, header_tokens(), m);
    lemma_progress_statement_list(t, p + 5);
    let body = sound_statement_list(t, p + 5);
    let q = p_statement_list(t, p + 5).0;
    lemma_clean_one(t, q);
    lemma_clean_concat(t, p, p + 1, p + 5);
    lemma_clean_concat(t, p, p + 5, q);
    lemma_clean_concat(t, p, q, q + 1);
    let tr = Tree::Function(ty, Box::new(body));
    assert(seq![ty] + header_tokens() =~= seq![
        ty,
        C1Token::Identifier,
        C1Token::LeftParenthesis,
        C1Token::RightParenthesis,
        C1Token::LeftBrace,
    ]);
    tr
}

pub proof fn sound_program(t: Tokens, p: int) -> (tr: Tree)
    requires
        0 <= p <= t.toks.len(),
        p_program(t, p).1 is Ok,
    ensures
        is_program(tr),
        p_program(t, p).0 == t.toks.len(),
        tree_yield(tr) == clean(t, p, t.toks.len() as int),
    decreases t.toks.len() - p, 20nat,
{
    lemma_token_sets();
    if at(t, p, C1Token::Error) {
        sound_program(t, p + 1)
    } else if kind_at(t.toks, p) is None {
        assert(clean(t, p, p) =~= seq![]);
        Tree::Nil
    } else {
        lemma_progress_function_definition(t, p);
        let f = sound_function_definition(t, p);
        let q = p_function_definition(t, p).0;
        let rest = sound_program(t, q);
        lemma_clean_concat(t, p, q, t.toks.len() as int);
        Tree::Cons(Box::new(f), Box::new(rest))
    }
}

/// Without error tokens, the cleaned kinds are all the kinds.
pub proof fn lemma_clean_without_errors(t: Tokens)
    requires
        no_error_tokens(t),
    ensures
        clean(t, 0, t.toks.len() as int) == all_kinds(t),
{
    let w = all_kinds(t);
    assert forall|i: int| 0 <= i < w.len() implies at(t, 0 + i, #[trigger] w[i]) by {}
    assert(!w.contains(C1Token::Error)) by {
        assert forall|i: int| 0 <= i < w.len() implies w[i] != C1Token::Error by {}
    }
    lemma_clean_matched(t, 0, w);
}

/// What `C1Parser::parse` accepts is a program of the C1 grammar, once the
/// error tokens (which the parser skips before function definitions and
/// statements) are left out.
pub proof fn law_accepted_texts_are_programs(text: Seq<char>)
    requires
        spec_parse(text) is Ok,
    ensures
        ({
            let t = Tokens { text, toks: lex(text) };
            is_c1_program(clean(t, 0, t.toks.len() as int))
        }),
{
    let t = Tokens { text, toks: lex(text) };
    let tr = sound_program(t, 0);
    assert(is_program(tr) && tree_yield(tr) == clean(t, 0, t.toks.len() as int));
}

/// For a text without error tokens, `C1Parser::parse` succeeds exactly when
/// the tokens form a program of the C1 grammar.
pub proof fn law_parse_decides_the_grammar(text: Seq<char>)
    requires
        no_error_tokens(Tokens { text, toks: lex(text) }),
    ensures
        spec_parse(text) is Ok <==> is_c1_program(all_kinds(Tokens { text, toks: lex(text) })),
{
    let t = Tokens { text, toks: lex(text) };
    lemma_clean_without_errors(t);
    if spec_parse(text) is Ok {
        law_accepted_texts_are_programs(text);
    }
    if is_c1_program(all_kinds(t)) {
        crate::completeness::law_grammar_programs_are_accepted(text);
    }
}

} // verus!
