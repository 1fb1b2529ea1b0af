use vstd::prelude::*;

use crate::lexer::{
    alnum_from, comment_close, digits_from, exponent_len, float_len, lemma_lex_from_bounds,
    lemma_scan_bound, lemma_skip_len_bound, lex, lex_from, scan, skip_len, C1Token, Lexeme,
};

verus! {

// ===========================================================================
// What the tokens of a text look like, stated on its characters
// ===========================================================================

/// A decimal digit.
pub open spec fn decimal(c: char) -> bool {
    '0' <= c && c <= '9'
}

/// A letter of the Latin alphabet, lower or upper case.
pub open spec fn letter(c: char) -> bool {
    ('a' <= c && c <= 'z') || ('A' <= c && c <= 'Z')
}

/// A character that may stand inside a word.
pub open spec fn word_char(c: char) -> bool {
    letter(c) || decimal(c)
}

/// Position `i` of `s` exists and holds `c`.
pub open spec fn holds(s: Seq<char>, i: int, c: char) -> bool {
    0 <= i < s.len() && s[i] == c
}

/// Each token of `lex_from(s, i)` stands where nothing is skipped, and is
/// the token found there.
pub proof fn lemma_tokens_scanned(s: Seq<char>, i: int)
    requires
        0 <= i,
        s.len() <= usize::MAX,
    ensures
        forall|k: int|
            0 <= k < lex_from(s, i).len() ==> {
                let l = #[trigger] lex_from(s, i)[k];
                &&& i <= l.start < l.end <= s.len()
                &&& skip_len(s, l.start as int) == 0
                &&& scan(s, l.start as int) == (l.kind, (l.end - l.start) as nat)
            },
    decreases s.len() - i,
{
    lemma_lex_from_bounds(s, i);
    if i < s.len() {
        if skip_len(s, i) > 0 {
            lemma_skip_len_bound(s, i);
            lemma_tokens_scanned(s, i + skip_len(s, i));
        } else {
            lemma_scan_bound(s, i);
            let n = scan(s, i).1;
            lemma_tokens_scanned(s, i + n);
            let rest = lex_from(s, i + n);
            assert forall|k: int| 0 <= k < lex_from(s, i).len() implies {
                let l = #[trigger] lex_from(s, i)[k];
                &&& i <= l.start < l.end <= s.len()
                &&& skip_len(s, l.start as int) == 0
                &&& scan(s, l.start as int) == (l.kind, (l.end - l.start) as nat)
            } by {
                if k > 0 {
                    assert(lex_from(s, i)[k] == rest[k - 1]);
                }
            }
        }
    }
}

/// The token `k` of `s` stands where nothing is skipped and is the token
/// found there.
proof fn lemma_token(s: Seq<char>, k: int)
    requires
        s.len() <= usize::MAX,
        0 <= k < lex(s).len(),
    ensures
        0 <= lex(s)[k].start < lex(s)[k].end <= s.len(),
        skip_len(s, lex(s)[k].start as int) == 0,
        scan(s, lex(s)[k].start as int) == (lex(s)[k].kind, (lex(s)[k].end
            - lex(s)[k].start) as nat),
{
    lemma_tokens_scanned(s, 0);
    let l = lex_from(s, 0)[k];
}

/// No token starts at a blank: spaces, tabs, line breaks, carriage returns
/// and form feeds only separate tokens.
pub proof fn law_no_token_starts_at_blank(s: Seq<char>, k: int)
    requires
        s.len() <= usize::MAX,
        0 <= k < lex(s).len(),
    ensures
        ({
            let c = s[lex(s)[k].start as int];
            c != ' ' && c != '\t' && c != '\n' && c != '\r' && c != '\x0C'
        }),
{
    lemma_token(s, k);
}

/// The run of digits from `i` is made of digits and is not followed by one.
proof fn lemma_digit_run(s: Seq<char>, i: int)
    requires
        0 <= i <= s.len(),
    ensures
        i + digits_from(s, i) <= s.len(),
        forall|q: int| i <= q < i + digits_from(s, i) ==> decimal(#[trigger] s[q]),
        !holds_digit(s, i + digits_from(s, i)),
    decreases s.len() - i,
{
    if i < s.len() && decimal(s[i]) {
        lemma_digit_run(s, i + 1);
    }
}

/// Position `i` of `s` exists and holds a digit.
pub open spec fn holds_digit(s: Seq<char>, i: int) -> bool {
    0 <= i < s.len() && decimal(s[i])
}

/// Position `i` of `s` exists and holds a letter or a digit.
pub open spec fn holds_word_char(s: Seq<char>, i: int) -> bool {
    0 <= i < s.len() && word_char(s[i])
}

/// A run of digits from `i` up to `m`, where no digit follows, is the run
/// of digits from `i`.
proof fn lemma_digit_run_exact(s: Seq<char>, i: int, m: int)
    requires
        0 <= i <= m <= s.len(),
        forall|q: int| i <= q < m ==> decimal(#[trigger] s[q]),
        !holds_digit(s, m),
    ensures
        digits_from(s, i) == m - i,
    decreases m - i,
{
    if i < m {
        assert(decimal(s[i]));
        lemma_digit_run_exact(s, i + 1, m);
    }
}

/// The run of letters and digits from `i` is made of them and is not
/// followed by one.
proof fn lemma_word_run(s: Seq<char>, i: int)
    requires
        0 <= i <= s.len(),
    ensures
        i + alnum_from(s, i) <= s.len(),
        forall|q: int| i <= q < i + alnum_from(s, i) ==> word_char(#[trigger] s[q]),
        !holds_word_char(s, i + alnum_from(s, i)),
    decreases s.len() - i,
{
    if i < s.len() && word_char(s[i]) {
        lemma_word_run(s, i + 1);
    }
}

/// A token that starts with a letter is a whole word: it is made of letters
/// and digits, and no letter or digit follows it.
pub proof fn law_words_are_maximal(s: Seq<char>, k: int)
    requires
        s.len() <= usize::MAX,
        0 <= k < lex(s).len(),
        letter(s[lex(s)[k].start as int]),
    ensures
        forall|q: int|
            lex(s)[k].start <= q < lex(s)[k].end ==> word_char(#[trigger] s[q]),
        !holds_word_char(s, lex(s)[k].end as int),
{
    lemma_token(s, k);
    let i = lex(s)[k].start as int;
    lemma_word_run(s, i + 1);
}

/// A token that starts with a digit is a number constant, and no digit
/// follows it.
pub proof fn law_numbers_are_maximal(s: Seq<char>, k: int)
    requires
        s.len() <= usize::MAX,
        0 <= k < lex(s).len(),
        decimal(s[lex(s)[k].start as int]),
    ensures
        lex(s)[k].kind == C1Token::ConstInt || lex(s)[k].kind == C1Token::ConstFloat,
        !holds_digit(s, lex(s)[k].end as int),
{
    lemma_token(s, k);
    let i = lex(s)[k].start as int;
    lemma_digit_run(s, i);
    let j = i + digits_from(s, i);
    if j + 1 <= s.len() {
        lemma_digit_run(s, j + 1);
        let m = j + 1 + digits_from(s, j + 1);
        lemma_exponent_run(s, m);
    }
    lemma_exponent_run(s, j);
}

/// An exponent is not followed by a digit, and where there is none at a
/// position that no digit holds, the position stays free of digits.
proof fn lemma_exponent_run(s: Seq<char>, m: int)
    requires
        0 <= m <= s.len(),
    ensures
        m + exponent_len(s, m) <= s.len(),
        exponent_len(s, m) > 0 ==> !holds_digit(s, m + exponent_len(s, m)),
        exponent_len(s, m) == 0 && !holds_digit(s, m) ==> !holds_digit(s, m + exponent_len(s, m)),
{
    if m + 1 <= s.len() {
        lemma_digit_run(s, m + 1);
    }
    if m + 2 <= s.len() {
        lemma_digit_run(s, m + 2);
    }
}

/// An integer constant: where a token starts on a run of digits that is
/// followed neither by a digit, nor by a point, nor by an exponent mark, the
/// token is a `ConstInt` that covers the run exactly.
pub proof fn law_integer_constant(s: Seq<char>, k: int, m: int)
    requires
        s.len() <= usize::MAX,
        0 <= k < lex(s).len(),
        lex(s)[k].start < m <= s.len(),
        forall|q: int| lex(s)[k].start <= q < m ==> decimal(#[trigger] s[q]),
        m == s.len() || !(decimal(s[m]) || s[m] == '.' || s[m] == 'e' || s[m] == 'E'),
    ensures
        lex(s)[k].kind == C1Token::ConstInt,
        lex(s)[k].end == m,
{
    lemma_token(s, k);
    let i = lex(s)[k].start as int;
    assert(decimal(s[i]));
    lemma_digit_run_exact(s, i, m);
}

/// A float constant without exponent: where a token starts on digits (maybe
/// none), a point and at least one digit, followed by a character that is
/// neither a digit nor an exponent mark, the token is one `ConstFloat` that
/// covers all of it.
pub proof fn law_float_constant(s: Seq<char>, k: int, j: int, m: int)
    requires
        s.len() <= usize::MAX,
        0 <= k < lex(s).len(),
        lex(s)[k].start <= j,
        j + 1 < m <= s.len(),
        forall|q: int| lex(s)[k].start <= q < j ==> decimal(#[trigger] s[q]),
        s[j] == '.',
        forall|q: int| j < q < m ==> decimal(#[trigger] s[q]),
        m == s.len() || !(decimal(s[m]) || s[m] == 'e' || s[m] == 'E'),
    ensures
        lex(s)[k].kind == C1Token::ConstFloat,
        lex(s)[k].end == m,
{
    lemma_token(s, k);
    let i = lex(s)[k].start as int;
    lemma_digit_run_exact(s, i, j);
    assert(decimal(s[j + 1]));
    lemma_digit_run_exact(s, j + 1, m);
    assert(exponent_len(s, m) == 0);
    assert(float_len(s, i) == m - i);
}

/// The token starting at `i` has kind `kind` and is `n` characters long.
pub open spec fn token_is(l: Lexeme, kind: C1Token, n: int) -> bool {
    l.kind == kind && l.end == l.start + n
}

/// Operators and punctuation: a token that starts with one of these
/// characters is that one character, or with the next one one of the
/// two-character operators `==`, `!=`, `<=`, `>=`, `&&`, `||`. In particular
/// `-` is always a token of its own, never part of a number. A point not
/// followed by a digit, and any character that starts no token, is an error
/// token of one character.
pub proof fn law_operators(s: Seq<char>, k: int)
    requires
        s.len() <= usize::MAX,
        0 <= k < lex(s).len(),
    ensures
        ({
            let l = lex(s)[k];
            let i = l.start as int;
            let c = s[i];
            &&& c == '-' ==> token_is(l, C1Token::Minus, 1)
            &&& c == '+' ==> token_is(l, C1Token::Plus, 1)
            &&& c == '*' ==> token_is(l, C1Token::Asterisk, 1)
            &&& c == '/' ==> token_is(l, C1Token::Slash, 1)
            &&& c == ',' ==> token_is(l, C1Token::Comma, 1)
            &&& c == ';' ==> token_is(l, C1Token::Semicolon, 1)
            &&& c == '(' ==> token_is(l, C1Token::LeftParenthesis, 1)
            &&& c == ')' ==> token_is(l, C1Token::RightParenthesis, 1)
            &&& c == '{' ==> token_is(l, C1Token::LeftBrace, 1)
            &&& c == '}' ==> token_is(l, C1Token::RightBrace, 1)
            &&& c == '=' ==> if holds(s, i + 1, '=') {
                token_is(l, C1Token::Equal, 2)
            } else {
                token_is(l, C1Token::Assign, 1)
            }
            &&& c == '<' ==> if holds(s, i + 1, '=') {
                token_is(l, C1Token::LessEqual, 2)
            } else {
                token_is(l, C1Token::Less, 1)
            }
            &&& c == '>' ==> if holds(s, i + 1, '=') {
                token_is(l, C1Token::GreaterEqual, 2)
            } else {
                token_is(l, C1Token::Greater, 1)
            }
            &&& c == '!' ==> if holds(s, i + 1, '=') {
                token_is(l, C1Token::NotEqual, 2)
            } else {
                token_is(l, C1Token::Error, 1)
            }
            &&& c == '&' ==> if holds(s, i + 1, '&') {
                token_is(l, C1Token::And, 2)
            } else {
                token_is(l, C1Token::Error, 1)
            }
            &&& c == '|' ==> if holds(s, i + 1, '|') {
                token_is(l, C1Token::Or, 2)
            } else {
                token_is(l, C1Token::Error, 1)
            }
            &&& c == '.' && !holds_digit(s, i + 1) ==> token_is(l, C1Token::Error, 1)
            &&& !(word_char(c) || c == '.' || c == '"' || c == '-' || c == '+' || c == '*' || c
                == '/' || c == ',' || c == ';' || c == '(' || c == ')' || c == '{' || c == '}' || c
                == '=' || c == '<' || c == '>' || c == '!' || c == '&' || c == '|') ==> token_is(
                l,
                C1Token::Error,
                1,
            )
        }),
{
    lemma_token(s, k);
}

// ---------------------------------------------------------------------------
// The tokens of a text after position `o` are those of the rest of the text
// ---------------------------------------------------------------------------

proof fn lemma_shift_runs(s: Seq<char>, o: int, i: int)
    requires
        0 <= o <= i,
        o <= s.len(),
    ensures
        digits_from(s, i) == digits_from(s.skip(o), i - o),
        alnum_from(s, i) == alnum_from(s.skip(o), i - o),
        crate::lexer::line_rest(s, i) == crate::lexer::line_rest(s.skip(o), i - o),
        crate::lexer::quoted_from(s, i) == crate::lexer::quoted_from(s.skip(o), i - o),
        comment_close(s, i) == match comment_close(s.skip(o), i - o) {
            Some(j) => Some((j + o) as nat),
            None => None,
        },
    decreases s.len() - i,
{
    let r = s.skip(o);
    if i < s.len() {
        assert(r[i - o] == s[i]);
        if i + 1 < s.len() {
            assert(r[i - o + 1] == s[i + 1]);
        }
        lemma_shift_runs(s, o, i + 1);
    }
}

proof fn lemma_shift_chars(s: Seq<char>, o: int, i: int)
    requires
        0 <= o <= i,
        o <= s.len(),
    ensures
        forall|c: char| #[trigger] crate::lexer::char_is(s, i, c) == crate::lexer::char_is(s.skip(o), i - o, c),
{
    if i < s.len() {
        assert(s.skip(o)[i - o] == s[i]);
    }
}

proof fn lemma_shift_exponent(s: Seq<char>, o: int, i: int)
    requires
        0 <= o <= i,
        o <= s.len(),
    ensures
        exponent_len(s, i) == exponent_len(s.skip(o), i - o),
{
    lemma_shift_chars(s, o, i);
    lemma_shift_chars(s, o, i + 1);
    lemma_shift_runs(s, o, i + 1);
    lemma_shift_runs(s, o, i + 2);
}

proof fn lemma_shift_step(s: Seq<char>, o: int, i: int)
    requires
        0 <= o <= i < s.len(),
    ensures
        skip_len(s, i) == skip_len(s.skip(o), i - o),
        scan(s, i) == scan(s.skip(o), i - o),
{
    let r = s.skip(o);
    assert(r[i - o] == s[i]);
    if i + 1 < s.len() {
        assert(r[i - o + 1] == s[i + 1]);
    }
    lemma_shift_chars(s, o, i + 1);
    lemma_shift_runs(s, o, i + 1);
    lemma_shift_runs(s, o, i + 2);
    lemma_shift_runs(s, o, i);
    let j = i + digits_from(s, i);
    lemma_shift_chars(s, o, j);
    lemma_shift_runs(s, o, j + 1);
    lemma_shift_exponent(s, o, j);
    let m = j + 1 + digits_from(s, j + 1);
    lemma_shift_exponent(s, o, m);
    assert(float_len(s, i) == float_len(r, i - o));
    let n = 1 + alnum_from(s, i + 1);
    lemma_word_run(s, i + 1);
    assert(s.subrange(i, i + n) =~= r.subrange(i - o, i - o + n));
    let k = crate::lexer::quoted_from(s, i + 1);
    lemma_shift_chars(s, o, i + 1 + k);
}

/// From position `o` on, the tokens of `s` are those of `s.skip(o)`, moved
/// by `o`.
#[verifier::spinoff_prover]
#[verifier::rlimit(40)]
pub proof fn lemma_shift_tokens(s: Seq<char>, o: int, i: int)
    requires
        0 <= o <= i,
        o <= s.len() <= usize::MAX,
    ensures
        lex_from(s, i).len() == lex_from(s.skip(o), i - o).len(),
        forall|k: int|
            0 <= k < lex_from(s, i).len() ==> {
                &&& #[trigger] lex_from(s, i)[k].kind == lex_from(s.skip(o), i - o)[k].kind
                &&& lex_from(s, i)[k].start == lex_from(s.skip(o), i - o)[k].start + o
                &&& lex_from(s, i)[k].end == lex_from(s.skip(o), i - o)[k].end + o
            },
    decreases s.len() - i,
{
    let r = s.skip(o);
    if i < s.len() {
        lemma_shift_step(s, o, i);
        let d = skip_len(s, i);
        if d > 0 {
            lemma_skip_len_bound(s, i);
            assert(lex_from(s, i) == lex_from(s, i + d));
            assert(lex_from(r, i - o) == lex_from(r, i - o + d));
            lemma_shift_tokens(s, o, i + d);
        } else {
            lemma_scan_bound(s, i);
            let n = scan(s, i).1;
            lemma_shift_tokens(s, o, i + n);
            let a = lex_from(s, i + n);
            let b = lex_from(r, i - o + n);
            let la = lex_from(s, i);
            let lb = lex_from(r, i - o);
            assert(la == seq![la[0]] + a);
            assert(lb == seq![lb[0]] + b);
            assert(la[0].kind == lb[0].kind && la[0].start == lb[0].start + o && la[0].end
                == lb[0].end + o);
            assert forall|k: int| 0 <= k < la.len() implies {
                &&& #[trigger] lex_from(s, i)[k].kind == lex_from(r, i - o)[k].kind
                &&& lex_from(s, i)[k].start == lex_from(r, i - o)[k].start + o
                &&& lex_from(s, i)[k].end == lex_from(r, i - o)[k].end + o
            } by {
                if k > 0 {
                    assert(la[k] == a[k - 1]);
                    assert(lb[k] == b[k - 1]);
                }
            }
        }
    }
}

// ---------------------------------------------------------------------------
// Comments
// ---------------------------------------------------------------------------

/// The first `*/` at or after `i` is the one at `m`.
proof fn lemma_first_close(s: Seq<char>, i: int, m: int)
    requires
        0 <= i <= m,
        m + 1 < s.len(),
        s[m] == '*' && s[m + 1] == '/',
        forall|q: int| i <= q < m ==> !(#[trigger] s[q] == '*' && s[q + 1] == '/'),
    ensures
        comment_close(s, i) == Some(m as nat),
    decreases m - i,
{
    if i < m {
        assert(!(s[i] == '*' && s[i + 1] == '/'));
        lemma_first_close(s, i + 1, m);
    }
}

/// The line from `i` runs up to `m`, where a line break or the end is.
proof fn lemma_line_end(s: Seq<char>, i: int, m: int)
    requires
        0 <= i <= m <= s.len(),
        forall|q: int| i <= q < m ==> #[trigger] s[q] != '\n',
        m == s.len() || s[m] == '\n',
    ensures
        crate::lexer::line_rest(s, i) == m - i,
    decreases m - i,
{
    if i < m {
        assert(s[i] != '\n');
        lemma_line_end(s, i + 1, m);
    }
}

/// The tokens of `s` are those of `r`, each moved by `o`.
pub open spec fn tokens_moved(s: Seq<char>, r: Seq<char>, o: int) -> bool {
    &&& lex(s).len() == lex(r).len()
    &&& forall|k: int|
        0 <= k < lex(s).len() ==> {
            &&& #[trigger] lex(s)[k].kind == lex(r)[k].kind
            &&& lex(s)[k].start == lex(r)[k].start + o
            &&& lex(s)[k].end == lex(r)[k].end + o
        }
}

/// A block comment ends at the first `*/` after its `/*`: a text that
/// starts with `/*`, a comment body `c` without `*/`, and `*/`, has the
/// tokens of the rest `r`. So a later comment never hides the code between
/// two comments.
pub proof fn law_block_comment_skipped(c: Seq<char>, r: Seq<char>)
    requires
        forall|q: int| 0 <= q && q + 1 < c.len() ==> !(#[trigger] c[q] == '*' && c[q + 1] == '/'),
        c.len() + r.len() + 4 <= usize::MAX,
    ensures
        tokens_moved(seq!['/', '*'] + c + seq!['*', '/'] + r, r, c.len() + 4int),
{
    let s = seq!['/', '*'] + c + seq!['*', '/'] + r;
    let m = c.len() + 2int;
    assert(s[m] == '*' && s[m + 1] == '/');
    assert forall|q: int| 2 <= q < m implies !(#[trigger] s[q] == '*' && s[q + 1] == '/') by {
        assert(s[q] == c[q - 2]);
        if q + 1 < m {
            assert(s[q + 1] == c[q - 1]);
            assert(!(c[q - 2] == '*' && c[q - 2 + 1] == '/'));
        } else {
            assert(s[q + 1] == '*');
        }
    }
    lemma_first_close(s, 2, m);
    assert(s[0] == '/' && s[1] == '*');
    assert(skip_len(s, 0) == c.len() + 4);
    let o = c.len() + 4int;
    assert(lex_from(s, 0) == lex_from(s, o));
    assert(s.skip(o) =~= r);
    lemma_shift_tokens(s, o, o);
}

/// A line comment runs up to the end of its line: a text that starts with
/// `//` and a rest of the line `c` has the tokens of what follows, `r`.
pub proof fn law_line_comment_skipped(c: Seq<char>, r: Seq<char>)
    requires
        forall|q: int| 0 <= q < c.len() ==> #[trigger] c[q] != '\n',
        r.len() == 0 || r[0] == '\n',
        c.len() + r.len() + 2 <= usize::MAX,
    ensures
        tokens_moved(seq!['/', '/'] + c + r, r, c.len() + 2int),
{
    let s = seq!['/', '/'] + c + r;
    let m = c.len() + 2int;
    assert forall|q: int| 2 <= q < m implies #[trigger] s[q] != '\n' by {
        assert(s[q] == c[q - 2]);
    }
    if m < s.len() {
        assert(s[m] == r[0]);
    }
    lemma_line_end(s, 2, m);
    assert(s[0] == '/' && s[1] == '/');
    assert(skip_len(s, 0) == c.len() + 2);
    let o = c.len() + 2int;
    if o < s.len() {
        assert(lex_from(s, 0) == lex_from(s, o));
    } else {
        assert(lex_from(s, 0) == lex_from(s, o));
    }
    assert(s.skip(o) =~= r);
    lemma_shift_tokens(s, o, o);
}

// ---------------------------------------------------------------------------
// Words, strings, exponents and the order of the tokens
// ---------------------------------------------------------------------------

/// The characters a token covers.
pub open spec fn text_of(s: Seq<char>, l: Lexeme) -> Seq<char> {
    s.subrange(l.start as int, l.end as int)
}

/// Keywords and boolean constants: a word token is a keyword exactly when
/// its text is one, `true` and `false` are boolean constants, and every
/// other word is an identifier.
pub proof fn law_keywords(s: Seq<char>, k: int)
    requires
        s.len() <= usize::MAX,
        0 <= k < lex(s).len(),
        letter(s[lex(s)[k].start as int]),
    ensures
        ({
            let l = lex(s)[k];
            let w = text_of(s, l);
            let bool_kw = seq!['b', 'o', 'o', 'l'];
            let do_kw = seq!['d', 'o'];
            let else_kw = seq!['e', 'l', 's', 'e'];
            let float_kw = seq!['f', 'l', 'o', 'a', 't'];
            let for_kw = seq!['f', 'o', 'r'];
            let if_kw = seq!['i', 'f'];
            let int_kw = seq!['i', 'n', 't'];
            let printf_kw = seq!['p', 'r', 'i', 'n', 't', 'f'];
            let return_kw = seq!['r', 'e', 't', 'u', 'r', 'n'];
            let void_kw = seq!['v', 'o', 'i', 'd'];
            let while_kw = seq!['w', 'h', 'i', 'l', 'e'];
            let true_lit = seq!['t', 'r', 'u', 'e'];
            let false_lit = seq!['f', 'a', 'l', 's', 'e'];
            &&& w == bool_kw ==> l.kind == C1Token::KwBoolean
            &&& w == do_kw ==> l.kind == C1Token::KwDo
            &&& w == else_kw ==> l.kind == C1Token::KwElse
            &&& w == float_kw ==> l.kind == C1Token::KwFloat
            &&& w == for_kw ==> l.kind == C1Token::KwFor
            &&& w == if_kw ==> l.kind == C1Token::KwIf
            &&& w == int_kw ==> l.kind == C1Token::KwInt
            &&& w == printf_kw ==> l.kind == C1Token::KwPrintf
            &&& w == return_kw ==> l.kind == C1Token::KwReturn
            &&& w == void_kw ==> l.kind == C1Token::KwVoid
            &&& w == while_kw ==> l.kind == C1Token::KwWhile
            &&& (w == true_lit || w == false_lit) ==> l.kind == C1Token::ConstBoolean
            &&& (w != bool_kw && w != do_kw && w != else_kw && w != float_kw && w != for_kw && w
                != if_kw && w != int_kw && w != printf_kw && w != return_kw && w != void_kw && w
                != while_kw && w != true_lit && w != false_lit) ==> l.kind == C1Token::Identifier
        }),
{
    lemma_token(s, k);
}

/// The run of characters that may stand in a string from `i`.
proof fn lemma_quoted_run(s: Seq<char>, i: int)
    requires
        0 <= i <= s.len(),
    ensures
        i + crate::lexer::quoted_from(s, i) <= s.len(),
        forall|q: int|
            i <= q < i + crate::lexer::quoted_from(s, i) ==> #[trigger] s[q] != '"' && s[q]
                != '\n',
        i + crate::lexer::quoted_from(s, i) < s.len() ==> (s[i + crate::lexer::quoted_from(s, i)]
            == '"' || s[i + crate::lexer::quoted_from(s, i)] == '\n'),
    decreases s.len() - i,
{
    if i < s.len() && s[i] != '"' && s[i] != '\n' {
        lemma_quoted_run(s, i + 1);
    }
}

/// String constants: a token that starts with `"` is a string constant that
/// runs to the next `"` on the same line, with no `"` or line break inside;
/// where no `"` follows on that line, it is an error token of one character.
pub proof fn law_strings(s: Seq<char>, k: int)
    requires
        s.len() <= usize::MAX,
        0 <= k < lex(s).len(),
        s[lex(s)[k].start as int] == '"',
    ensures
        ({
            let l = lex(s)[k];
            let i = l.start as int;
            ||| {
                &&& l.kind == C1Token::ConstString
                &&& i + 2 <= l.end
                &&& s[l.end - 1] == '"'
                &&& forall|q: int| i < q < l.end - 1 ==> #[trigger] s[q] != '"' && s[q] != '\n'
            }
            ||| {
                &&& token_is(l, C1Token::Error, 1)
                &&& forall|q: int|
                    i < q < s.len() && #[trigger] s[q] == '"' ==> exists|p: int|
                        i < p < q && #[trigger] s[p] == '\n'
            }
        }),
{
    lemma_token(s, k);
    let l = lex(s)[k];
    let i = l.start as int;
    lemma_quoted_run(s, i + 1);
    let e = i + 1 + crate::lexer::quoted_from(s, i + 1);
    if !crate::lexer::char_is(s, e, '"') {
        assert forall|q: int| i < q < s.len() && #[trigger] s[q] == '"' implies exists|p: int|
            i < p < q && #[trigger] s[p] == '\n' by {
            assert(q >= e);
            assert(s[e] == '\n');
        }
    }
}

/// A float constant with an exponent: where a token starts on digits,
/// maybe a point and digits, then `e` or `E`, maybe a sign, and at least one
/// digit up to `m`, where no digit follows, the token is one `ConstFloat`
/// that covers all of it.
pub proof fn law_float_with_exponent(s: Seq<char>, k: int, j: int, x: int, d: int, m: int)
    requires
        s.len() <= usize::MAX,
        0 <= k < lex(s).len(),
        lex(s)[k].start < j <= x,
        forall|q: int| lex(s)[k].start <= q < j ==> decimal(#[trigger] s[q]),
        j == x || (s[j] == '.' && j + 1 < x && forall|q: int| j < q < x ==> decimal(
            #[trigger] s[q],
        )),
        x < d < m <= s.len(),
        s[x] == 'e' || s[x] == 'E',
        d == x + 1 || (d == x + 2 && (s[x + 1] == '+' || s[x + 1] == '-')),
        forall|q: int| d <= q < m ==> decimal(#[trigger] s[q]),
        !holds_digit(s, m),
    ensures
        lex(s)[k].kind == C1Token::ConstFloat,
        lex(s)[k].end == m,
{
    lemma_token(s, k);
    let i = lex(s)[k].start as int;
    assert(decimal(s[i]));
    lemma_digit_run_exact(s, i, j);
    lemma_digit_run_exact(s, d, m);
    assert(decimal(s[d]));
    if j < x {
        assert(decimal(s[j + 1]));
        lemma_digit_run_exact(s, j + 1, x);
    }
    assert(exponent_len(s, x) == m - x);
}

/// The tokens come in the order of the text and do not overlap.
pub proof fn law_tokens_in_order(s: Seq<char>, k: int)
    requires
        s.len() <= usize::MAX,
        0 <= k,
        k + 1 < lex(s).len(),
    ensures
        lex(s)[k].start < lex(s)[k].end <= lex(s)[k + 1].start,
{
    lemma_order_from(s, 0);
}

proof fn lemma_order_from(s: Seq<char>, i: int)
    requires
        0 <= i,
        s.len() <= usize::MAX,
    ensures
        forall|k: int|
            0 <= k && k + 1 < lex_from(s, i).len() ==> #[trigger] lex_from(s, i)[k].end
                <= lex_from(s, i)[k + 1].start,
        forall|k: int|
            0 <= k < lex_from(s, i).len() ==> #[trigger] lex_from(s, i)[k].start
                < lex_from(s, i)[k].end,
    decreases s.len() - i,
{
    lemma_lex_from_bounds(s, i);
    if i < s.len() {
        if skip_len(s, i) > 0 {
            lemma_skip_len_bound(s, i);
            lemma_order_from(s, i + skip_len(s, i));
        } else {
            lemma_scan_bound(s, i);
            let n = scan(s, i).1;
            lemma_order_from(s, i + n);
            lemma_lex_from_bounds(s, i + n);
            let rest = lex_from(s, i + n);
            let all = lex_from(s, i);
            assert(all == seq![all[0]] + rest);
            assert forall|k: int| 0 <= k && k + 1 < all.len() implies #[trigger] all[k].end
                <= all[k + 1].start by {
                assert(all[k + 1] == rest[k]);
                if k > 0 {
                    assert(all[k] == rest[k - 1]);
                }
            }
        }
    }
}

/// Whether `c` is a line break.
pub open spec fn is_line_break(c: char) -> bool {
    c == '\n'
}

proof fn lemma_count_line_breaks(s: Seq<char>, i: int)
    requires
        0 <= i <= s.len(),
    ensures
        crate::lexer::newlines_before(s, i) == s.take(i).filter(|c: char| is_line_break(c)).len(),
    decreases i,
{
    reveal(Seq::filter);
    if i > 0 {
        lemma_count_line_breaks(s, i - 1);
        assert(s.take(i).drop_last() =~= s.take(i - 1));
        assert(s.take(i).last() == s[i - 1]);
    }
}

/// Line numbers: a token is on the line whose number is one more than the
/// line breaks before it.
pub proof fn law_token_lines(s: Seq<char>, k: int)
    requires
        s.len() <= usize::MAX,
        0 <= k < lex(s).len(),
    ensures
        lex(s)[k].line == 1 + s.take(lex(s)[k].start as int).filter(|c: char| is_line_break(c)).len(),
{
    lemma_lex_from_bounds(s, 0);
    let l = lex_from(s, 0)[k];
    lemma_count_line_breaks(s, l.start as int);
}

/// A blank in front of a text is skipped on its own: the text has the
/// tokens of what follows it. So a space, a tab or a line break between two
/// tokens may stand for one another.
pub proof fn law_blank_skipped(b: char, r: Seq<char>)
    requires
        b == ' ' || b == '\t' || b == '\n' || b == '\r' || b == '\x0C',
        r.len() + 1 <= usize::MAX,
    ensures
        tokens_moved(seq![b] + r, r, 1),
{
    let s = seq![b] + r;
    assert(s[0] == b);
    assert(skip_len(s, 0) == 1);
    assert(lex_from(s, 0) == lex_from(s, 1));
    assert(s.skip(1) =~= r);
    lemma_shift_tokens(s, 1, 1);
}

/// A `/*` that no `*/` closes is no comment: the text starts with a `/`
/// token of one character.
pub proof fn law_unclosed_comment(c: Seq<char>)
    requires
        forall|q: int| 0 <= q && q + 1 < c.len() ==> !(#[trigger] c[q] == '*' && c[q + 1] == '/'),
        c.len() + 2 <= usize::MAX,
    ensures
        lex(seq!['/', '*'] + c).len() > 0,
        lex(seq!['/', '*'] + c)[0].start == 0,
        token_is(lex(seq!['/', '*'] + c)[0], C1Token::Slash, 1),
{
    let s = seq!['/', '*'] + c;
    assert forall|q: int| 2 <= q && q + 1 < s.len() implies !(#[trigger] s[q] == '*' && s[q
        + 1] == '/') by {
        assert(s[q] == c[q - 2]);
        assert(s[q + 1] == c[q - 1]);
        assert(!(c[q - 2] == '*' && c[q - 2 + 1] == '/'));
    }
    lemma_no_close(s, 2);
    assert(s[0] == '/' && s[1] == '*');
    assert(skip_len(s, 0) == 0);
    lemma_token(s, 0);
}

/// Where no `*/` stands at or after `i`, no comment closes.
proof fn lemma_no_close(s: Seq<char>, i: int)
    requires
        0 <= i,
        forall|q: int| i <= q && q + 1 < s.len() ==> !(#[trigger] s[q] == '*' && s[q + 1] == '/'),
    ensures
        comment_close(s, i) is None,
    decreases s.len() - i,
{
    if i + 1 < s.len() {
        assert(!(s[i] == '*' && s[i + 1] == '/'));
        lemma_no_close(s, i + 1);
    }
}

} // verus!
