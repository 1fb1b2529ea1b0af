use vstd::prelude::*;

use crate::c1_parser::{
    assignment_first, at, block_first, call_tokens, header_tokens, stat_head_tokens, leaf_tokens, product_tokens, relation_tokens, sum_tokens,
    type_tokens, Tokens,
};
use crate::lexer::C1Token;

verus! {

// ===========================================================================
// The C1 grammar, as derivation trees
// ===========================================================================

/// A derivation in the C1 grammar. Lists (of function definitions, of blocks,
/// and the repeated parts of sums and products) are `Cons`/`More` chains
/// ended by `Nil`.
pub enum Tree {
    /// An item followed by the rest of a list.
    Cons(Box<Tree>, Box<Tree>),
    /// The end of a list.
    Nil,
    /// type <ID> "(" ")" "{" statementlist "}"
    Function(C1Token, Box<Tree>),
    /// "{" statementlist "}"
    Braced(Box<Tree>),
    /// <KW_IF> "(" assignment ")" block
    If(Box<Tree>, Box<Tree>),
    /// <KW_RETURN> assignment ";"
    ReturnValue(Box<Tree>),
    /// <KW_RETURN> ";"
    ReturnEmpty,
    /// <KW_PRINTF> "(" assignment ")" ";"
    Print(Box<Tree>),
    /// <ID> "=" assignment ";"
    AssignStatement(Box<Tree>),
    /// <ID> "(" ")" ";"
    CallStatement,
    /// <ID> "=" assignment
    Assign(Box<Tree>),
    /// simpexpr
    Expr(Box<Tree>),
    /// simpexpr relation simpexpr
    Relation(Box<Tree>, C1Token, Box<Tree>),
    /// ( "-" )? term, then the repeated part
    Sum(bool, Box<Tree>, Box<Tree>),
    /// factor, then the repeated part
    Term(Box<Tree>, Box<Tree>),
    /// An operator and an operand, then the rest of the repetition.
    More(C1Token, Box<Tree>, Box<Tree>),
    /// <CONST_INT> | <CONST_FLOAT> | <CONST_BOOLEAN> | <ID>
    Leaf(C1Token),
    /// <ID> "(" ")"
    Call,
    /// "(" assignment ")"
    Paren(Box<Tree>),
}

/// The tokens a derivation stands for.
pub open spec fn tree_yield(tr: Tree) -> Seq<C1Token>
    decreases tr,
{
    match tr {
        Tree::Cons(a, b) => tree_yield(*a) + tree_yield(*b),
        Tree::Nil => seq![],
        Tree::Function(ty, body) => seq![
            ty,
            C1Token::Identifier,
            C1Token::LeftParenthesis,
            C1Token::RightParenthesis,
            C1Token::LeftBrace,
        ] + tree_yield(*body) + seq![C1Token::RightBrace],
        Tree::Braced(body) => seq![C1Token::LeftBrace] + tree_yield(*body) + seq![
            C1Token::RightBrace,
        ],
        Tree::If(a, b) => seq![C1Token::KwIf, C1Token::LeftParenthesis] + tree_yield(*a) + seq![
            C1Token::RightParenthesis,
        ] + tree_yield(*b),
        Tree::ReturnValue(a) => seq![C1Token::KwReturn] + tree_yield(*a) + seq![
            C1Token::Semicolon,
        ],
        Tree::ReturnEmpty => seq![C1Token::KwReturn, C1Token::Semicolon],
        Tree::Print(a) => seq![C1Token::KwPrintf, C1Token::LeftParenthesis] + tree_yield(*a)
            + seq![C1Token::RightParenthesis, C1Token::Semicolon],
        Tree::AssignStatement(a) => seq![C1Token::Identifier, C1Token::Assign] + tree_yield(*a)
            + seq![C1Token::Semicolon],
        Tree::CallStatement => seq![
            C1Token::Identifier,
            C1Token::LeftParenthesis,
            C1Token::RightParenthesis,
            C1Token::Semicolon,
        ],
        Tree::Assign(a) => seq![C1Token::Identifier, C1Token::Assign] + tree_yield(*a),
        Tree::Expr(a) => tree_yield(*a),
        Tree::Relation(a, op, b) => tree_yield(*a) + seq![op] + tree_yield(*b),
        Tree::Sum(neg, a, rest) => (if neg {
            seq![C1Token::Minus]
        } else {
            seq![]
        }) + tree_yield(*a) + tree_yield(*rest),
        Tree::Term(a, rest) => tree_yield(*a) + tree_yield(*rest),
        Tree::More(op, a, rest) => seq![op] + tree_yield(*a) + tree_yield(*rest),
        Tree::Leaf(k) => seq![k],
        Tree::Call => seq![C1Token::Identifier, C1Token::LeftParenthesis, C1Token::RightParenthesis],
        Tree::Paren(a) => seq![C1Token::LeftParenthesis] + tree_yield(*a) + seq![
            C1Token::RightParenthesis,
        ],
    }
}

/// program ::= ( functiondefinition )*
pub open spec fn is_program(tr: Tree) -> bool
    decreases tr,
{
    match tr {
        Tree::Nil => true,
        Tree::Cons(f, rest) => is_function(*f) && is_program(*rest),
        _ => false,
    }
}

/// functiondefinition ::= type <ID> "(" ")" "{" statementlist "}"
pub open spec fn is_function(tr: Tree) -> bool
    decreases tr,
{
    match tr {
        Tree::Function(ty, body) => type_tokens().contains(ty) && is_statement_list(*body),
        _ => false,
    }
}

/// statementlist ::= ( block )*
pub open spec fn is_statement_list(tr: Tree) -> bool
    decreases tr, 2nat,
{
    match tr {
        Tree::Nil => true,
        Tree::Cons(b, rest) => is_block(*b) && is_statement_list(*rest),
        _ => false,
    }
}

/// block ::= "{" statementlist "}" | statement
pub open spec fn is_block(tr: Tree) -> bool
    decreases tr, 1nat,
{
    match tr {
        Tree::Braced(body) => is_statement_list(*body),
        _ => is_statement(tr),
    }
}

/// statement ::= ifstatement | returnstatement ";" | printf ";"
///             | statassignment ";" | functioncall ";"
pub open spec fn is_statement(tr: Tree) -> bool
    decreases tr, 0nat,
{
    match tr {
        Tree::If(a, b) => is_assignment(*a) && is_block(*b),
        Tree::ReturnValue(a) => is_assignment(*a),
        Tree::ReturnEmpty => true,
        Tree::Print(a) => is_assignment(*a),
        Tree::AssignStatement(a) => is_assignment(*a),
        Tree::CallStatement => true,
        _ => false,
    }
}

/// assignment ::= ( <ID> "=" assignment ) | expr
pub open spec fn is_assignment(tr: Tree) -> bool
    decreases tr, 1nat,
{
    match tr {
        Tree::Assign(a) => is_assignment(*a),
        _ => is_expr(tr),
    }
}

/// expr ::= simpexpr ( ( "==" | "!=" | "<=" | ">=" | "<" | ">" ) simpexpr )?
pub open spec fn is_expr(tr: Tree) -> bool
    decreases tr, 0nat,
{
    match tr {
        Tree::Expr(a) => is_simpexpr(*a),
        Tree::Relation(a, op, b) => is_simpexpr(*a) && relation_tokens().contains(op)
            && is_simpexpr(*b),
        _ => false,
    }
}

/// simpexpr ::= ( "-" )? term ( ( "+" | "-" | "||" ) term )*
pub open spec fn is_simpexpr(tr: Tree) -> bool
    decreases tr,
{
    match tr {
        Tree::Sum(_, a, rest) => is_term(*a) && is_sum_rest(*rest),
        _ => false,
    }
}

/// ( ( "+" | "-" | "||" ) term )*
pub open spec fn is_sum_rest(tr: Tree) -> bool
    decreases tr,
{
    match tr {
        Tree::Nil => true,
        Tree::More(op, a, rest) => sum_tokens().contains(op) && is_term(*a) && is_sum_rest(
            *rest,
        ),
        _ => false,
    }
}

/// term ::= factor ( ( "*" | "/" | "&&" ) factor )*
pub open spec fn is_term(tr: Tree) -> bool
    decreases tr,
{
    match tr {
        Tree::Term(a, rest) => is_factor(*a) && is_product_rest(*rest),
        _ => false,
    }
}

/// ( ( "*" | "/" | "&&" ) factor )*
pub open spec fn is_product_rest(tr: Tree) -> bool
    decreases tr,
{
    match tr {
        Tree::Nil => true,
        Tree::More(op, a, rest) => product_tokens().contains(op) && is_factor(*a)
            && is_product_rest(*rest),
        _ => false,
    }
}

/// factor ::= <CONST_INT> | <CONST_FLOAT> | <CONST_BOOLEAN> | functioncall
///          | <ID> | "(" assignment ")"
pub open spec fn is_factor(tr: Tree) -> bool
    decreases tr,
{
    match tr {
        Tree::Leaf(k) => leaf_tokens().contains(k),
        Tree::Call => true,
        Tree::Paren(a) => is_assignment(*a),
        _ => false,
    }
}

/// The token kinds `w` form a C1 program.
pub open spec fn is_c1_program(w: Seq<C1Token>) -> bool {
    exists|tr: Tree| is_program(tr) && tree_yield(tr) == w
}

/// The function definitions of program `a` followed by those of `b`.
pub open spec fn append_programs(a: Tree, b: Tree) -> Tree
    decreases a,
{
    match a {
        Tree::Cons(f, rest) => Tree::Cons(f, Box::new(append_programs(*rest, b))),
        _ => b,
    }
}

pub proof fn lemma_append_programs(a: Tree, b: Tree)
    requires
        is_program(a),
        is_program(b),
    ensures
        is_program(append_programs(a, b)),
        tree_yield(append_programs(a, b)) == tree_yield(a) + tree_yield(b),
    decreases a,
{
    match a {
        Tree::Cons(f, rest) => {
            lemma_append_programs(*rest, b);
            assert(tree_yield(append_programs(a, b)) =~= tree_yield(a) + tree_yield(b));
        },
        _ => {
            assert(tree_yield(a) + tree_yield(b) =~= tree_yield(b));
        },
    }
}

/// Two programs written one after the other form a program.
pub proof fn law_programs_compose(w1: Seq<C1Token>, w2: Seq<C1Token>)
    requires
        is_c1_program(w1),
        is_c1_program(w2),
    ensures
        is_c1_program(w1 + w2),
{
    let a = choose|tr: Tree| is_program(tr) && tree_yield(tr) == w1;
    let b = choose|tr: Tree| is_program(tr) && tree_yield(tr) == w2;
    lemma_append_programs(a, b);
    assert(is_program(append_programs(a, b)) && tree_yield(append_programs(a, b)) == w1 + w2);
}

// ===========================================================================
// Tokens against token kinds
// ===========================================================================

/// The tokens from `p` on are of the kinds `w`, in order.
pub open spec fn tokens_match(t: Tokens, p: int, w: Seq<C1Token>) -> bool {
    forall|i: int| 0 <= i < w.len() ==> at(t, p + i, #[trigger] w[i])
}

/// The kinds of the tokens `p..q`, error tokens left out.
pub open spec fn clean(t: Tokens, p: int, q: int) -> Seq<C1Token>
    decreases q - p,
{
    if p >= q || !(0 <= p < t.toks.len()) {
        seq![]
    } else if t.toks[p].kind == C1Token::Error {
        clean(t, p + 1, q)
    } else {
        seq![t.toks[p].kind] + clean(t, p + 1, q)
    }
}

/// The kinds of all tokens.
pub open spec fn all_kinds(t: Tokens) -> Seq<C1Token> {
    t.toks.map_values(|l: crate::lexer::Lexeme| l.kind)
}

/// No token is an error token.
pub open spec fn no_error_tokens(t: Tokens) -> bool {
    forall|i: int| 0 <= i < t.toks.len() ==> t.toks[i].kind != C1Token::Error
}

pub proof fn lemma_matches_concat(t: Tokens, p: int, a: Seq<C1Token>, b: Seq<C1Token>)
    ensures
        tokens_match(t, p, a + b) <==> (tokens_match(t, p, a) && tokens_match(t, p + a.len(), b)),
{
    if tokens_match(t, p, a + b) {
        assert forall|i: int| 0 <= i < a.len() implies at(t, p + i, #[trigger] a[i]) by {
            assert((a + b)[i] == a[i]);
        }
        assert forall|i: int| 0 <= i < b.len() implies at(t, p + a.len() + i, #[trigger] b[i]) by {
            assert((a + b)[a.len() + i] == b[i]);
        }
    }
    if tokens_match(t, p, a) && tokens_match(t, p + a.len(), b) {
        assert forall|i: int| 0 <= i < (a + b).len() implies at(t, p + i, #[trigger] (a + b)[i]) by {
            if i < a.len() {
                assert(at(t, p + i, a[i]));
            } else {
                assert(at(t, p + a.len() + (i - a.len()), b[i - a.len()]));
            }
        }
    }
}

pub proof fn lemma_clean_concat(t: Tokens, p: int, q: int, r: int)
    requires
        0 <= p <= q <= r <= t.toks.len(),
    ensures
        clean(t, p, r) == clean(t, p, q) + clean(t, q, r),
    decreases q - p,
{
    if p < q {
        lemma_clean_concat(t, p + 1, q, r);
        assert(clean(t, p, r) =~= clean(t, p, q) + clean(t, q, r));
    } else {
        assert(clean(t, p, q) =~= seq![]);
        assert(clean(t, p, r) =~= clean(t, p, q) + clean(t, q, r));
    }
}

/// Tokens of the kinds `w`, none an error, are cleaned to `w`.
pub proof fn lemma_clean_matched(t: Tokens, p: int, w: Seq<C1Token>)
    requires
        0 <= p,
        tokens_match(t, p, w),
        !w.contains(C1Token::Error),
    ensures
        clean(t, p, p + w.len()) == w,
    decreases w.len(),
{
    if w.len() > 0 {
        assert(at(t, p, w[0]));
        assert(w[0] != C1Token::Error) by {
            assert(w.contains(w[0]));
        }
        let w1 = w.drop_first();
        assert forall|i: int| 0 <= i < w1.len() implies at(t, p + 1 + i, #[trigger] w1[i]) by {
            assert(at(t, p + (i + 1), w[i + 1]));
        }
        assert forall|k: C1Token| w1.contains(k) implies w.contains(k) by {
            let i = choose|i: int| 0 <= i < w1.len() && w1[i] == k;
            assert(w[i + 1] == k);
        }
        lemma_clean_matched(t, p + 1, w1);
        assert(w =~= seq![w[0]] + w1);
    } else {
        assert(clean(t, p, p) =~= w);
    }
}

// ===========================================================================
// The sets of token kinds, element by element
// ===========================================================================

pub proof fn lemma_token_sets()
    ensures
        forall|k: C1Token| #[trigger]
            type_tokens().contains(k) <==> (k == C1Token::KwBoolean || k == C1Token::KwFloat || k
                == C1Token::KwInt || k == C1Token::KwVoid),
        forall|k: C1Token| #[trigger]
            block_first().contains(k) <==> (k == C1Token::LeftBrace || k == C1Token::KwIf || k
                == C1Token::KwReturn || k == C1Token::KwPrintf || k == C1Token::Identifier),
        forall|k: C1Token| #[trigger]
            assignment_first().contains(k) <==> (k == C1Token::Identifier || k == C1Token::Minus
                || k == C1Token::ConstInt || k == C1Token::ConstFloat || k == C1Token::ConstBoolean
                || k == C1Token::LeftParenthesis),
        forall|k: C1Token| #[trigger]
            relation_tokens().contains(k) <==> (k == C1Token::Equal || k == C1Token::NotEqual || k
                == C1Token::Greater || k == C1Token::GreaterEqual || k == C1Token::Less || k
                == C1Token::LessEqual),
        forall|k: C1Token| #[trigger]
            sum_tokens().contains(k) <==> (k == C1Token::Plus || k == C1Token::Minus || k
                == C1Token::Or),
        forall|k: C1Token| #[trigger]
            product_tokens().contains(k) <==> (k == C1Token::Asterisk || k == C1Token::Slash || k
                == C1Token::And),
        forall|k: C1Token| #[trigger]
            leaf_tokens().contains(k) <==> (k == C1Token::ConstInt || k == C1Token::ConstFloat || k
                == C1Token::ConstBoolean || k == C1Token::Identifier),
        !call_tokens().contains(C1Token::Error),
        !header_tokens().contains(C1Token::Error),
        !stat_head_tokens().contains(C1Token::Error),
{
    assert(!call_tokens().contains(C1Token::Error)) by {
        let s = call_tokens();
        assert forall|i: int| 0 <= i < s.len() implies s[i] != C1Token::Error by {}
    }
    assert(!header_tokens().contains(C1Token::Error)) by {
        let s = header_tokens();
        assert forall|i: int| 0 <= i < s.len() implies s[i] != C1Token::Error by {}
    }
    assert(!stat_head_tokens().contains(C1Token::Error)) by {
        let s = stat_head_tokens();
        assert forall|i: int| 0 <= i < s.len() implies s[i] != C1Token::Error by {}
    }
    assert forall|k: C1Token| #[trigger]
        type_tokens().contains(k) <==> (k == C1Token::KwBoolean || k == C1Token::KwFloat || k
            == C1Token::KwInt || k == C1Token::KwVoid) by {
        let s = type_tokens();
        if k == C1Token::KwBoolean || k == C1Token::KwFloat || k == C1Token::KwInt || k
            == C1Token::KwVoid {
            assert(s[0] == C1Token::KwBoolean && s[1] == C1Token::KwFloat && s[2]
                == C1Token::KwInt && s[3] == C1Token::KwVoid);
        }
    }
    assert forall|k: C1Token| #[trigger]
        block_first().contains(k) <==> (k == C1Token::LeftBrace || k == C1Token::KwIf || k
            == C1Token::KwReturn || k == C1Token::KwPrintf || k == C1Token::Identifier) by {
        let s = block_first();
        if k == C1Token::LeftBrace || k == C1Token::KwIf || k == C1Token::KwReturn || k
            == C1Token::KwPrintf || k == C1Token::Identifier {
            assert(s[0] == C1Token::LeftBrace && s[1] == C1Token::KwIf && s[2]
                == C1Token::KwReturn && s[3] == C1Token::KwPrintf && s[4] == C1Token::Identifier);
        }
    }
    assert forall|k: C1Token| #[trigger]
        assignment_first().contains(k) <==> (k == C1Token::Identifier || k == C1Token::Minus || k
            == C1Token::ConstInt || k == C1Token::ConstFloat || k == C1Token::ConstBoolean || k
            == C1Token::LeftParenthesis) by {
        let s = assignment_first();
        if k == C1Token::Identifier || k == C1Token::Minus || k == C1Token::ConstInt || k
            == C1Token::ConstFloat || k == C1Token::ConstBoolean || k == C1Token::LeftParenthesis {
            assert(s[0] == C1Token::Identifier && s[1] == C1Token::Minus && s[2]
                == C1Token::ConstInt && s[3] == C1Token::ConstFloat && s[4]
                == C1Token::ConstBoolean && s[5] == C1Token::LeftParenthesis);
        }
    }
    assert forall|k: C1Token| #[trigger]
        relation_tokens().contains(k) <==> (k == C1Token::Equal || k == C1Token::NotEqual || k
            == C1Token::Greater || k == C1Token::GreaterEqual || k == C1Token::Less || k
            == C1Token::LessEqual) by {
        let s = relation_tokens();
        if k == C1Token::Equal || k == C1Token::NotEqual || k == C1Token::Greater || k
            == C1Token::GreaterEqual || k == C1Token::Less || k == C1Token::LessEqual {
            assert(s[0] == C1Token::Equal && s[1] == C1Token::NotEqual && s[2]
                == C1Token::Greater && s[3] == C1Token::GreaterEqual && s[4] == C1Token::Less
                && s[5] == C1Token::LessEqual);
        }
    }
    assert forall|k: C1Token| #[trigger]
        sum_tokens().contains(k) <==> (k == C1Token::Plus || k == C1Token::Minus || k
            == C1Token::Or) by {
        let s = sum_tokens();
        if k == C1Token::Plus || k == C1Token::Minus || k == C1Token::Or {
            assert(s[0] == C1Token::Plus && s[1] == C1Token::Minus && s[2] == C1Token::Or);
        }
    }
    assert forall|k: C1Token| #[trigger]
        product_tokens().contains(k) <==> (k == C1Token::Asterisk || k == C1Token::Slash || k
            == C1Token::And) by {
        let s = product_tokens();
        if k == C1Token::Asterisk || k == C1Token::Slash || k == C1Token::And {
            assert(s[0] == C1Token::Asterisk && s[1] == C1Token::Slash && s[2] == C1Token::And);
        }
    }
    assert forall|k: C1Token| #[trigger]
        leaf_tokens().contains(k) <==> (k == C1Token::ConstInt || k == C1Token::ConstFloat || k
            == C1Token::ConstBoolean || k == C1Token::Identifier) by {
        let s = leaf_tokens();
        if k == C1Token::ConstInt || k == C1Token::ConstFloat || k == C1Token::ConstBoolean || k
            == C1Token::Identifier {
            assert(s[0] == C1Token::ConstInt && s[1] == C1Token::ConstFloat && s[2]
                == C1Token::ConstBoolean && s[3] == C1Token::Identifier);
        }
    }
}

// ===========================================================================
// First tokens of the derivations
// ===========================================================================

/// The kinds a factor starts with.
pub open spec fn starts_factor(k: C1Token) -> bool {
    k == C1Token::ConstInt || k == C1Token::ConstFloat || k == C1Token::ConstBoolean || k
        == C1Token::Identifier || k == C1Token::LeftParenthesis
}

pub proof fn lemma_first_factor(tr: Tree)
    requires
        is_factor(tr),
    ensures
        tree_yield(tr).len() >= 1,
        starts_factor(tree_yield(tr)[0]),
        tree_yield(tr).len() >= 2 ==> tree_yield(tr)[1] != C1Token::Assign,
    decreases tr, 0nat,
{
    lemma_token_sets();
    match tr {
        Tree::Paren(a) => {
            lemma_first_assignment(*a);
        },
        _ => {},
    }
}

pub proof fn lemma_first_product_rest(tr: Tree)
    requires
        is_product_rest(tr),
    ensures
        tree_yield(tr).len() >= 1 ==> product_tokens().contains(tree_yield(tr)[0]),
{
}

pub proof fn lemma_first_sum_rest(tr: Tree)
    requires
        is_sum_rest(tr),
    ensures
        tree_yield(tr).len() >= 1 ==> sum_tokens().contains(tree_yield(tr)[0]),
{
}

pub proof fn lemma_first_term(tr: Tree)
    requires
        is_term(tr),
    ensures
        tree_yield(tr).len() >= 1,
        starts_factor(tree_yield(tr)[0]),
        tree_yield(tr).len() >= 2 ==> tree_yield(tr)[1] != C1Token::Assign,
    decreases tr, 0nat,
{
    lemma_token_sets();
    match tr {
        Tree::Term(f, rest) => {
            lemma_first_factor(*f);
            lemma_first_product_rest(*rest);
            let y = tree_yield(*f);
            let z = tree_yield(*rest);
            assert(tree_yield(tr) == y + z);
            assert((y + z)[0] == y[0]);
            if y.len() >= 2 {
                assert((y + z)[1] == y[1]);
            } else if z.len() >= 1 {
                assert((y + z)[1] == z[0]);
            }
        },
        _ => {},
    }
}

pub proof fn lemma_first_simpexpr(tr: Tree)
    requires
        is_simpexpr(tr),
    ensures
        tree_yield(tr).len() >= 1,
        assignment_first().contains(tree_yield(tr)[0]),
        tree_yield(tr).len() >= 2 ==> tree_yield(tr)[1] != C1Token::Assign,
    decreases tr, 0nat,
{
    lemma_token_sets();
    match tr {
        Tree::Sum(neg, a, rest) => {
            lemma_first_term(*a);
            lemma_first_sum_rest(*rest);
            let y = tree_yield(*a);
            let z = tree_yield(*rest);
            if neg {
                assert(tree_yield(tr) == seq![C1Token::Minus] + y + z);
                assert((seq![C1Token::Minus] + y + z)[0] == C1Token::Minus);
                assert((seq![C1Token::Minus] + y + z)[1] == y[0]);
            } else {
                assert(tree_yield(tr) =~= y + z);
                assert((y + z)[0] == y[0]);
                if y.len() >= 2 {
                    assert((y + z)[1] == y[1]);
                } else if z.len() >= 1 {
                    assert((y + z)[1] == z[0]);
                }
            }
        },
        _ => {},
    }
}

pub proof fn lemma_first_expr(tr: Tree)
    requires
        is_expr(tr),
    ensures
        tree_yield(tr).len() >= 1,
        assignment_first().contains(tree_yield(tr)[0]),
        tree_yield(tr).len() >= 2 ==> tree_yield(tr)[1] != C1Token::Assign,
    decreases tr, 0nat,
{
    lemma_token_sets();
    match tr {
        Tree::Expr(a) => {
            lemma_first_simpexpr(*a);
        },
        Tree::Relation(a, op, b) => {
            lemma_first_simpexpr(*a);
            let y = tree_yield(*a);
            let z = tree_yield(*b);
            assert(tree_yield(tr) == y + seq![op] + z);
            assert((y + seq![op] + z)[0] == y[0]);
            if y.len() >= 2 {
                assert((y + seq![op] + z)[1] == y[1]);
            } else {
                assert((y + seq![op] + z)[1] == op);
            }
        },
        _ => {},
    }
}

pub proof fn lemma_first_assignment(tr: Tree)
    requires
        is_assignment(tr),
    ensures
        tree_yield(tr).len() >= 1,
        assignment_first().contains(tree_yield(tr)[0]),
    decreases tr, 1nat,
{
    lemma_token_sets();
    match tr {
        Tree::Assign(a) => {},
        _ => {
            lemma_first_expr(tr);
        },
    }
}

/// The kinds a statement starts with.
pub open spec fn starts_statement(k: C1Token) -> bool {
    k == C1Token::KwIf || k == C1Token::KwReturn || k == C1Token::KwPrintf || k
        == C1Token::Identifier
}

pub proof fn lemma_first_statement(tr: Tree)
    requires
        is_statement(tr),
    ensures
        tree_yield(tr).len() >= 1,
        starts_statement(tree_yield(tr)[0]),
{
}

pub proof fn lemma_first_block(tr: Tree)
    requires
        is_block(tr),
    ensures
        tree_yield(tr).len() >= 1,
        block_first().contains(tree_yield(tr)[0]),
{
    lemma_token_sets();
    match tr {
        Tree::Braced(b) => {},
        _ => {
            lemma_first_statement(tr);
        },
    }
}

pub proof fn lemma_first_function(tr: Tree)
    requires
        is_function(tr),
    ensures
        tree_yield(tr).len() >= 1,
        type_tokens().contains(tree_yield(tr)[0]),
{
}

} // verus!
