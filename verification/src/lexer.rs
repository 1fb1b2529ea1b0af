use vstd::prelude::*;

verus! {

/// The tokens of the C1 language.
#[derive(Clone, Copy, Debug, PartialEq, Eq, Structural)]
pub enum C1Token {
    KwBoolean,
    KwDo,
    KwElse,
    KwFloat,
    KwFor,
    KwIf,
    KwInt,
    KwPrintf,
    KwReturn,
    KwVoid,
    KwWhile,
    Plus,
    Minus,
    Asterisk,
    Slash,
    Assign,
    Equal,
    NotEqual,
    Less,
    Greater,
    LessEqual,
    GreaterEqual,
    And,
    Or,
    Comma,
    Semicolon,
    LeftParenthesis,
    RightParenthesis,
    LeftBrace,
    RightBrace,
    ConstInt,
    ConstFloat,
    ConstBoolean,
    ConstString,
    Identifier,
    Error,
}

/// One token of the source text: its kind, the half-open range `start..end`
/// of characters it covers, and the line (counted from 1) on which it starts.
#[derive(Clone, Copy, Debug, PartialEq, Eq)]
pub struct Lexeme {
    pub kind: C1Token,
    pub start: usize,
    pub end: usize,
    pub line: usize,
}

// ---------------------------------------------------------------------------
// Character classes
// ---------------------------------------------------------------------------

pub open spec fn is_digit(c: char) -> bool {
    '0' <= c && c <= '9'
}

pub open spec fn is_alpha(c: char) -> bool {
    ('a' <= c && c <= 'z') || ('A' <= c && c <= 'Z')
}

pub open spec fn is_alnum(c: char) -> bool {
    is_digit(c) || is_alpha(c)
}

/// Characters that separate tokens and are otherwise ignored.
pub open spec fn is_blank(c: char) -> bool {
    c == ' ' || c == '\t' || c == '\n' || c == '\r' || c == '\x0C'
}

/// Whether position `i` of `s` holds the character `c`.
pub open spec fn char_is(s: Seq<char>, i: int, c: char) -> bool {
    0 <= i < s.len() && s[i] == c
}

/// Length of the run of digits that starts at `i`.
pub open spec fn digits_from(s: Seq<char>, i: int) -> nat
    decreases s.len() - i,
{
    if 0 <= i < s.len() && is_digit(s[i]) {
        1 + digits_from(s, i + 1)
    } else {
        0
    }
}

/// Length of the run of letters and digits that starts at `i`.
pub open spec fn alnum_from(s: Seq<char>, i: int) -> nat
    decreases s.len() - i,
{
    if 0 <= i < s.len() && is_alnum(s[i]) {
        1 + alnum_from(s, i + 1)
    } else {
        0
    }
}

/// Number of characters from `i` up to (not including) the next line break
/// or the end of the text.
pub open spec fn line_rest(s: Seq<char>, i: int) -> nat
    decreases s.len() - i,
{
    if 0 <= i < s.len() && s[i] != '\n' {
        1 + line_rest(s, i + 1)
    } else {
        0
    }
}

/// Number of characters from `i` that may stand inside a string constant:
/// everything but a double quote and a line break.
pub open spec fn quoted_from(s: Seq<char>, i: int) -> nat
    decreases s.len() - i,
{
    if 0 <= i < s.len() && s[i] != '"' && s[i] != '\n' {
        1 + quoted_from(s, i + 1)
    } else {
        0
    }
}

/// Position of the first `*/` at or after `i`, if there is one.
pub open spec fn comment_close(s: Seq<char>, i: int) -> Option<nat>
    decreases s.len() - i,
{
    if i < 0 || i + 1 >= s.len() {
        None
    } else if s[i] == '*' && s[i + 1] == '/' {
        Some(i as nat)
    } else {
        comment_close(s, i + 1)
    }
}

/// Number of line breaks among the first `i` characters.
pub open spec fn newlines_before(s: Seq<char>, i: int) -> nat
    decreases i,
{
    if i <= 0 {
        0
    } else {
        newlines_before(s, i - 1) + if i - 1 < s.len() && s[i - 1] == '\n' {
            1nat
        } else {
            0nat
        }
    }
}

// ---------------------------------------------------------------------------
// What the lexer skips
// ---------------------------------------------------------------------------

/// Number of characters skipped at `i`: one blank, a `//` comment up to the
/// line break, or a `/* ... */` comment that is closed; 0 where a token starts.
pub open spec fn skip_len(s: Seq<char>, i: int) -> nat {
    if !(0 <= i < s.len()) {
        0
    } else if is_blank(s[i]) {
        1
    } else if s[i] == '/' && char_is(s, i + 1, '/') {
        2 + line_rest(s, i + 2)
    } else if s[i] == '/' && char_is(s, i + 1, '*') {
        match comment_close(s, i + 2) {
            Some(j) => (j + 2 - i) as nat,
            None => 0,
        }
    } else {
        0
    }
}

// ---------------------------------------------------------------------------
// Tokens
// ---------------------------------------------------------------------------

/// Length of an exponent `e`/`E`, optional sign, digits, at `i` (0 if none).
pub open spec fn exponent_len(s: Seq<char>, i: int) -> nat {
    if char_is(s, i, 'e') || char_is(s, i, 'E') {
        let k = if char_is(s, i + 1, '+') || char_is(s, i + 1, '-') {
            i + 2
        } else {
            i + 1
        };
        let d = digits_from(s, k);
        if d > 0 {
            (k + d - i) as nat
        } else {
            0
        }
    } else {
        0
    }
}

/// Length of the float constant at `i` (0 if none): digits, a point and
/// digits (the first digits may be missing), then an optional exponent; or
/// digits and an exponent.
pub open spec fn float_len(s: Seq<char>, i: int) -> nat {
    let a = digits_from(s, i);
    let j = i + a;
    if char_is(s, j, '.') && digits_from(s, j + 1) > 0 {
        let m = j + 1 + digits_from(s, j + 1);
        (m - i + exponent_len(s, m)) as nat
    } else if a > 0 && exponent_len(s, j) > 0 {
        a + exponent_len(s, j)
    } else {
        0
    }
}

/// The kind of a word made of letters and digits: a keyword, a boolean
/// constant or an identifier.
pub open spec fn word_kind(w: Seq<char>) -> C1Token {
    if w == seq!['b', 'o', 'o', 'l'] {
        C1Token::KwBoolean
    } else if w == seq!['d', 'o'] {
        C1Token::KwDo
    } else if w == seq!['e', 'l', 's', 'e'] {
        C1Token::KwElse
    } else if w == seq!['f', 'l', 'o', 'a', 't'] {
        C1Token::KwFloat
    } else if w == seq!['f', 'o', 'r'] {
        C1Token::KwFor
    } else if w == seq!['i', 'f'] {
        C1Token::KwIf
    } else if w == seq!['i', 'n', 't'] {
        C1Token::KwInt
    } else if w == seq!['p', 'r', 'i', 'n', 't', 'f'] {
        C1Token::KwPrintf
    } else if w == seq!['r', 'e', 't', 'u', 'r', 'n'] {
        C1Token::KwReturn
    } else if w == seq!['v', 'o', 'i', 'd'] {
        C1Token::KwVoid
    } else if w == seq!['w', 'h', 'i', 'l', 'e'] {
        C1Token::KwWhile
    } else if w == seq!['t', 'r', 'u', 'e'] || w == seq!['f', 'a', 'l', 's', 'e'] {
        C1Token::ConstBoolean
    } else {
        C1Token::Identifier
    }
}

/// The operator made of the two characters `c` and `d`, if any.
pub open spec fn pair_kind(c: char, d: char) -> Option<C1Token> {
    if c == '=' && d == '=' {
        Some(C1Token::Equal)
    } else if c == '!' && d == '=' {
        Some(C1Token::NotEqual)
    } else if c == '<' && d == '=' {
        Some(C1Token::LessEqual)
    } else if c == '>' && d == '=' {
        Some(C1Token::GreaterEqual)
    } else if c == '&' && d == '&' {
        Some(C1Token::And)
    } else if c == '|' && d == '|' {
        Some(C1Token::Or)
    } else {
        None
    }
}

/// The one-character token `c`; `Error` for a character that starts no token.
pub open spec fn single_kind(c: char) -> C1Token {
    if c == '+' {
        C1Token::Plus
    } else if c == '-' {
        C1Token::Minus
    } else if c == '*' {
        C1Token::Asterisk
    } else if c == '/' {
        C1Token::Slash
    } else if c == '=' {
        C1Token::Assign
    } else if c == '<' {
        C1Token::Less
    } else if c == '>' {
        C1Token::Greater
    } else if c == ',' {
        C1Token::Comma
    } else if c == ';' {
        C1Token::Semicolon
    } else if c == '(' {
        C1Token::LeftParenthesis
    } else if c == ')' {
        C1Token::RightParenthesis
    } else if c == '{' {
        C1Token::LeftBrace
    } else if c == '}' {
        C1Token::RightBrace
    } else {
        C1Token::Error
    }
}

/// The token that starts at `i` (where nothing is skipped), with its length:
/// always the longest match, a keyword before an identifier of the same text.
pub open spec fn scan(s: Seq<char>, i: int) -> (C1Token, nat)
    recommends
        0 <= i < s.len(),
{
    let c = s[i];
    if is_alpha(c) {
        let n = 1 + alnum_from(s, i + 1);
        (word_kind(s.subrange(i, i + n)), n)
    } else if is_digit(c) || (c == '.' && digits_from(s, i + 1) > 0) {
        if float_len(s, i) > 0 {
            (C1Token::ConstFloat, float_len(s, i))
        } else {
            (C1Token::ConstInt, digits_from(s, i))
        }
    } else if c == '"' {
        let k = quoted_from(s, i + 1);
        if char_is(s, i + 1 + k, '"') {
            (C1Token::ConstString, k + 2)
        } else {
            (C1Token::Error, 1)
        }
    } else if i + 1 < s.len() && pair_kind(c, s[i + 1]) is Some {
        (pair_kind(c, s[i + 1])->0, 2)
    } else {
        (single_kind(c), 1)
    }
}

pub proof fn lemma_digits_bound(s: Seq<char>, i: int)
    requires
        0 <= i <= s.len(),
    ensures
        i + digits_from(s, i) <= s.len(),
    decreases s.len() - i,
{
    if i < s.len() {
        lemma_digits_bound(s, i + 1);
    }
}

pub proof fn lemma_alnum_bound(s: Seq<char>, i: int)
    requires
        0 <= i <= s.len(),
    ensures
        i + alnum_from(s, i) <= s.len(),
    decreases s.len() - i,
{
    if i < s.len() {
        lemma_alnum_bound(s, i + 1);
    }
}

pub proof fn lemma_line_rest_bound(s: Seq<char>, i: int)
    requires
        0 <= i <= s.len(),
    ensures
        i + line_rest(s, i) <= s.len(),
    decreases s.len() - i,
{
    if i < s.len() {
        lemma_line_rest_bound(s, i + 1);
    }
}

pub proof fn lemma_quoted_bound(s: Seq<char>, i: int)
    requires
        0 <= i <= s.len(),
    ensures
        i + quoted_from(s, i) <= s.len(),
    decreases s.len() - i,
{
    if i < s.len() {
        lemma_quoted_bound(s, i + 1);
    }
}

pub proof fn lemma_comment_close_bound(s: Seq<char>, i: int)
    requires
        0 <= i,
    ensures
        comment_close(s, i) matches Some(j) ==> i <= j && j + 2 <= s.len(),
    decreases s.len() - i,
{
    if i + 1 < s.len() && !(s[i] == '*' && s[i + 1] == '/') {
        lemma_comment_close_bound(s, i + 1);
    }
}

pub proof fn lemma_skip_len_bound(s: Seq<char>, i: int)
    requires
        0 <= i < s.len(),
    ensures
        i + skip_len(s, i) <= s.len(),
{
    if i + 2 <= s.len() {
        lemma_line_rest_bound(s, i + 2);
        lemma_comment_close_bound(s, i + 2);
    }
}

pub proof fn lemma_exponent_bound(s: Seq<char>, i: int)
    requires
        0 <= i <= s.len(),
    ensures
        i + exponent_len(s, i) <= s.len(),
{
    if i + 2 <= s.len() {
        lemma_digits_bound(s, i + 2);
    }
    if i + 1 <= s.len() {
        lemma_digits_bound(s, i + 1);
    }
}

pub proof fn lemma_float_bound(s: Seq<char>, i: int)
    requires
        0 <= i <= s.len(),
    ensures
        i + float_len(s, i) <= s.len(),
{
    lemma_digits_bound(s, i);
    let j = i + digits_from(s, i);
    if j + 1 <= s.len() {
        lemma_digits_bound(s, j + 1);
        let m = j + 1 + digits_from(s, j + 1);
        lemma_exponent_bound(s, m);
    }
    lemma_exponent_bound(s, j);
}

/// Every token is at least one character long and ends within the text.
pub proof fn lemma_scan_bound(s: Seq<char>, i: int)
    requires
        0 <= i < s.len(),
    ensures
        1 <= scan(s, i).1,
        i + scan(s, i).1 <= s.len(),
{
    lemma_alnum_bound(s, i + 1);
    lemma_digits_bound(s, i);
    lemma_digits_bound(s, i + 1);
    lemma_float_bound(s, i);
    lemma_quoted_bound(s, i + 1);
}

/// The tokens of `s` from position `i` on.
pub open spec fn lex_from(s: Seq<char>, i: int) -> Seq<Lexeme>
    decreases s.len() - i,
{
    if i < 0 || i >= s.len() {
        seq![]
    } else if skip_len(s, i) > 0 {
        proof {
            lemma_skip_len_bound(s, i);
        }
        lex_from(s, i + skip_len(s, i))
    } else {
        let (kind, n) = scan(s, i);
        proof {
            lemma_scan_bound(s, i);
        }
        seq![
            Lexeme {
                kind,
                start: i as usize,
                end: (i + n) as usize,
                line: (newlines_before(s, i) + 1) as usize,
            },
        ] + lex_from(s, i + n)
    }
}

/// The tokens of the text `s`.
pub open spec fn lex(s: Seq<char>) -> Seq<Lexeme> {
    lex_from(s, 0)
}

// ---------------------------------------------------------------------------
// The lexer itself
// ---------------------------------------------------------------------------

fn digit_at(s: &Vec<char>, i: usize) -> (b: bool)
    ensures
        b == (i < s@.len() && is_digit(s@[i as int])),
{
    i < s.len() && s[i] >= '0' && s[i] <= '9'
}

fn alpha_at(s: &Vec<char>, i: usize) -> (b: bool)
    ensures
        b == (i < s@.len() && is_alpha(s@[i as int])),
{
    i < s.len() && ((s[i] >= 'a' && s[i] <= 'z') || (s[i] >= 'A' && s[i] <= 'Z'))
}

fn char_at_is(s: &Vec<char>, i: usize, c: char) -> (b: bool)
    ensures
        b == char_is(s@, i as int, c),
{
    i < s.len() && s[i] == c
}

fn digits_len(s: &Vec<char>, i: usize) -> (n: usize)
    requires
        i <= s.len(),
    ensures
        n == digits_from(s@, i as int),
        i + n <= s.len(),
{
    let mut j = i;
    while digit_at(s, j)
        invariant
            i <= j <= s.len(),
            digits_from(s@, i as int) == (j - i) + digits_from(s@, j as int),
        decreases s@.len() - j,
    {
        j = j + 1;
    }
    proof {
        lemma_digits_bound(s@, i as int);
    }
    j - i
}

fn alnum_len(s: &Vec<char>, i: usize) -> (n: usize)
    requires
        i <= s.len(),
    ensures
        n == alnum_from(s@, i as int),
        i + n <= s.len(),
{
    let mut j = i;
    while digit_at(s, j) || alpha_at(s, j)
        invariant
            i <= j <= s.len(),
            alnum_from(s@, i as int) == (j - i) + alnum_from(s@, j as int),
        decreases s@.len() - j,
    {
        j = j + 1;
    }
    proof {
        lemma_alnum_bound(s@, i as int);
    }
    j - i
}

fn line_rest_len(s: &Vec<char>, i: usize) -> (n: usize)
    requires
        i <= s.len(),
    ensures
        n == line_rest(s@, i as int),
        i + n <= s.len(),
{
    let mut j = i;
    while j < s.len() && s[j] != '\n'
        invariant
            i <= j <= s.len(),
            line_rest(s@, i as int) == (j - i) + line_rest(s@, j as int),
        decreases s@.len() - j,
    {
        j = j + 1;
    }
    proof {
        lemma_line_rest_bound(s@, i as int);
    }
    j - i
}

fn quoted_len(s: &Vec<char>, i: usize) -> (n: usize)
    requires
        i <= s.len(),
    ensures
        n == quoted_from(s@, i as int),
        i + n <= s.len(),
{
    let mut j = i;
    while j < s.len() && s[j] != '"' && s[j] != '\n'
        invariant
            i <= j <= s.len(),
            quoted_from(s@, i as int) == (j - i) + quoted_from(s@, j as int),
        decreases s@.len() - j,
    {
        j = j + 1;
    }
    proof {
        lemma_quoted_bound(s@, i as int);
    }
    j - i
}

fn find_comment_close(s: &Vec<char>, i: usize) -> (r: Option<usize>)
    requires
        i <= s.len(),
    ensures
        r matches Some(j) ==> comment_close(s@, i as int) == Some(j as nat),
        r is None ==> comment_close(s@, i as int) is None,
        r matches Some(j) ==> i <= j && j + 2 <= s.len(),
{
    proof {
        lemma_comment_close_bound(s@, i as int);
    }
    let mut j = i;
    while s.len() - j >= 2
        invariant
            i <= j <= s.len(),
            comment_close(s@, i as int) == comment_close(s@, j as int),
        decreases s@.len() - j,
    {
        if s[j] == '*' && s[j + 1] == '/' {
            return Some(j);
        }
        j = j + 1;
    }
    None
}

fn skip_length(s: &Vec<char>, i: usize) -> (n: usize)
    requires
        i < s.len(),
    ensures
        n == skip_len(s@, i as int),
        i + n <= s.len(),
{
    proof {
        lemma_skip_len_bound(s@, i as int);
    }
    let c = s[i];
    if c == ' ' || c == '\t' || c == '\n' || c == '\r' || c == '\x0C' {
        1
    } else if c == '/' && char_at_is(s, i + 1, '/') {
        2 + line_rest_len(s, i + 2)
    } else if c == '/' && char_at_is(s, i + 1, '*') {
        match find_comment_close(s, i + 2) {
            Some(j) => j + 2 - i,
            None => 0,
        }
    } else {
        0
    }
}

fn exponent_length(s: &Vec<char>, i: usize) -> (n: usize)
    requires
        i <= s.len(),
    ensures
        n == exponent_len(s@, i as int),
        i + n <= s.len(),
{
    proof {
        lemma_exponent_bound(s@, i as int);
    }
    if char_at_is(s, i, 'e') || char_at_is(s, i, 'E') {
        let k = if char_at_is(s, i + 1, '+') || char_at_is(s, i + 1, '-') {
            i + 2
        } else {
            i + 1
        };
        let d = digits_len(s, k);
        if d > 0 {
            k + d - i
        } else {
            0
        }
    } else {
        0
    }
}

fn float_length(s: &Vec<char>, i: usize) -> (n: usize)
    requires
        i <= s.len(),
    ensures
        n == float_len(s@, i as int),
        i + n <= s.len(),
{
    proof {
        lemma_float_bound(s@, i as int);
    }
    let a = digits_len(s, i);
    let j = i + a;
    if char_at_is(s, j, '.') && digits_len(s, j + 1) > 0 {
        let m = j + 1 + digits_len(s, j + 1);
        m - i + exponent_length(s, m)
    } else if a > 0 && exponent_length(s, j) > 0 {
        a + exponent_length(s, j)
    } else {
        0
    }
}

/// Whether the `w.len()` characters of `s` from `i` on are exactly `w`.
fn word_is(s: &Vec<char>, i: usize, n: usize, w: &[char]) -> (b: bool)
    requires
        i + n <= s.len(),
    ensures
        b == (s@.subrange(i as int, i + n) == w@),
{
    if n != w.len() {
        return false;
    }
    let mut k: usize = 0;
    while k < n
        invariant
            k <= n,
            n == w@.len(),
            i + n <= s.len(),
            forall|m: int| 0 <= m < k ==> s@[i + m] == w@[m],
        decreases n - k,
    {
        if s[i + k] != w[k] {
            assert(s@.subrange(i as int, i + n)[k as int] != w@[k as int]);
            return false;
        }
        k = k + 1;
    }
    assert(s@.subrange(i as int, i + n) =~= w@);
    true
}

fn word_kind_of(s: &Vec<char>, i: usize, n: usize) -> (k: C1Token)
    requires
        i + n <= s.len(),
    ensures
        k == word_kind(s@.subrange(i as int, i + n)),
{
    if word_is(s, i, n, &['b', 'o', 'o', 'l']) {
        C1Token::KwBoolean
    } else if word_is(s, i, n, &['d', 'o']) {
        C1Token::KwDo
    } else if word_is(s, i, n, &['e', 'l', 's', 'e']) {
        C1Token::KwElse
    } else if word_is(s, i, n, &['f', 'l', 'o', 'a', 't']) {
        C1Token::KwFloat
    } else if word_is(s, i, n, &['f', 'o', 'r']) {
        C1Token::KwFor
    } else if word_is(s, i, n, &['i', 'f']) {
        C1Token::KwIf
    } else if word_is(s, i, n, &['i', 'n', 't']) {
        C1Token::KwInt
    } else if word_is(s, i, n, &['p', 'r', 'i', 'n', 't', 'f']) {
        C1Token::KwPrintf
    } else if word_is(s, i, n, &['r', 'e', 't', 'u', 'r', 'n']) {
        C1Token::KwReturn
    } else if word_is(s, i, n, &['v', 'o', 'i', 'd']) {
        C1Token::KwVoid
    } else if word_is(s, i, n, &['w', 'h', 'i', 'l', 'e']) {
        C1Token::KwWhile
    } else if word_is(s, i, n, &['t', 'r', 'u', 'e']) || word_is(s, i, n, &['f', 'a', 'l', 's', 'e']) {
        C1Token::ConstBoolean
    } else {
        C1Token::Identifier
    }
}

fn pair_kind_of(c: char, d: char) -> (k: Option<C1Token>)
    ensures
        k == pair_kind(c, d),
{
    if c == '=' && d == '=' {
        Some(C1Token::Equal)
    } else if c == '!' && d == '=' {
        Some(C1Token::NotEqual)
    } else if c == '<' && d == '=' {
        Some(C1Token::LessEqual)
    } else if c == '>' && d == '=' {
        Some(C1Token::GreaterEqual)
    } else if c == '&' && d == '&' {
        Some(C1Token::And)
    } else if c == '|' && d == '|' {
        Some(C1Token::Or)
    } else {
        None
    }
}

fn single_kind_of(c: char) -> (k: C1Token)
    ensures
        k == single_kind(c),
{
    if c == '+' {
        C1Token::Plus
    } else if c == '-' {
        C1Token::Minus
    } else if c == '*' {
        C1Token::Asterisk
    } else if c == '/' {
        C1Token::Slash
    } else if c == '=' {
        C1Token::Assign
    } else if c == '<' {
        C1Token::Less
    } else if c == '>' {
        C1Token::Greater
    } else if c == ',' {
        C1Token::Comma
    } else if c == ';' {
        C1Token::Semicolon
    } else if c == '(' {
        C1Token::LeftParenthesis
    } else if c == ')' {
        C1Token::RightParenthesis
    } else if c == '{' {
        C1Token::LeftBrace
    } else if c == '}' {
        C1Token::RightBrace
    } else {
        C1Token::Error
    }
}

fn scan_token(s: &Vec<char>, i: usize) -> (r: (C1Token, usize))
    requires
        i < s.len(),
    ensures
        r.0 == scan(s@, i as int).0,
        r.1 == scan(s@, i as int).1,
        1 <= r.1,
        i + r.1 <= s.len(),
{
    proof {
        lemma_scan_bound(s@, i as int);
    }
    let c = s[i];
    if alpha_at(s, i) {
        let n = 1 + alnum_len(s, i + 1);
        (word_kind_of(s, i, n), n)
    } else if digit_at(s, i) || (c == '.' && digits_len(s, i + 1) > 0) {
        let f = float_length(s, i);
        if f > 0 {
            (C1Token::ConstFloat, f)
        } else {
            (C1Token::ConstInt, digits_len(s, i))
        }
    } else if c == '"' {
        let k = quoted_len(s, i + 1);
        if char_at_is(s, i + 1 + k, '"') {
            (C1Token::ConstString, k + 2)
        } else {
            (C1Token::Error, 1)
        }
    } else if i + 1 < s.len() && pair_kind_of(c, s[i + 1]).is_some() {
        match pair_kind_of(c, s[i + 1]) {
            Some(k) => (k, 2),
            None => (C1Token::Error, 1),
        }
    } else {
        (single_kind_of(c), 1)
    }
}

pub proof fn lemma_newlines_bound(s: Seq<char>, i: int)
    requires
        0 <= i,
    ensures
        newlines_before(s, i) <= i,
    decreases i,
{
    if i > 0 {
        lemma_newlines_bound(s, i - 1);
    }
}

/// Counts the line breaks among the characters `from..to`, added to `nl`,
/// the number of line breaks before `from`.
fn count_newlines(s: &Vec<char>, from: usize, to: usize, nl: usize) -> (r: usize)
    requires
        from <= to <= s.len(),
        nl == newlines_before(s@, from as int),
    ensures
        r == newlines_before(s@, to as int),
{
    let mut k = from;
    let mut n = nl;
    while k < to
        invariant
            from <= k <= to <= s.len(),
            n == newlines_before(s@, k as int),
        decreases to - k,
    {
        proof {
            lemma_newlines_bound(s@, k + 1);
        }
        if s[k] == '\n' {
            n = n + 1;
        }
        k = k + 1;
    }
    n
}

/// Splits the characters `s` into their tokens.
pub fn tokenize(s: &Vec<char>) -> (toks: Vec<Lexeme>)
    ensures
        toks@ == lex(s@),
{
    let mut toks: Vec<Lexeme> = Vec::new();
    let mut i: usize = 0;
    let mut nl: usize = 0;
    while i < s.len()
        invariant
            i <= s.len(),
            nl == newlines_before(s@, i as int),
            toks@ + lex_from(s@, i as int) == lex(s@),
        decreases s@.len() - i,
    {
        let skip = skip_length(s, i);
        if skip > 0 {
            nl = count_newlines(s, i, i + skip, nl);
            i = i + skip;
        } else {
            let (kind, n) = scan_token(s, i);
            proof {
                lemma_newlines_bound(s@, i as int);
            }
            let lexeme = Lexeme { kind, start: i, end: i + n, line: nl + 1 };
            let ghost before = toks@;
            toks.push(lexeme);
            assert(toks@ + lex_from(s@, (i + n) as int) =~= before + lex_from(s@, i as int));
            nl = count_newlines(s, i, i + n, nl);
            i = i + n;
        }
    }
    assert(toks@ =~= toks@ + lex_from(s@, i as int));
    toks
}

/// Every token lies within the text, after `i`, and is at least one
/// character long; its line is one more than the line breaks before it.
pub proof fn lemma_lex_from_bounds(s: Seq<char>, i: int)
    requires
        0 <= i,
        s.len() <= usize::MAX,
    ensures
        forall|k: int|
            0 <= k < lex_from(s, i).len() ==> {
                let l = #[trigger] lex_from(s, i)[k];
                &&& i <= l.start < l.end <= s.len()
                &&& l.line == newlines_before(s, l.start as int) + 1
            },
    decreases s.len() - i,
{
    if i < s.len() {
        if skip_len(s, i) > 0 {
            lemma_skip_len_bound(s, i);
            lemma_lex_from_bounds(s, i + skip_len(s, i));
        } else {
            lemma_scan_bound(s, i);
            lemma_newlines_bound(s, i);
            let n = scan(s, i).1;
            lemma_lex_from_bounds(s, i + n);
            let rest = lex_from(s, i + n);
            assert forall|k: int| 0 <= k < lex_from(s, i).len() implies {
                let l = #[trigger] lex_from(s, i)[k];
                &&& i <= l.start < l.end <= s.len()
                &&& l.line == newlines_before(s, l.start as int) + 1
            } by {
                if k > 0 {
                    assert(lex_from(s, i)[k] == rest[k - 1]);
                }
            }
        }
    }
}

/// The tokens of a text, with a cursor on the current one.
pub struct C1Lexer {
    chars: Vec<char>,
    tokens: Vec<Lexeme>,
    pos: usize,
}

/// The characters of `text`, in order.
pub fn chars_of(text: &str) -> (v: Vec<char>)
    ensures
        v@ == text@,
{
    let mut v: Vec<char> = Vec::new();
    for c in it: text.chars()
        invariant
            v@ == it.seq().take(it.index() as int),
    {
        v.push(c);
    }
    v
}

/// The kind of token `p` of `toks`, or `None` past the end.
pub open spec fn kind_at(toks: Seq<Lexeme>, p: int) -> Option<C1Token> {
    if 0 <= p < toks.len() {
        Some(toks[p].kind)
    } else {
        None
    }
}

impl C1Lexer {
    /// The characters of the text.
    pub closed spec fn source(&self) -> Seq<char> {
        self.chars@
    }

    /// The tokens of the text.
    pub closed spec fn tokens(&self) -> Seq<Lexeme> {
        self.tokens@
    }

    /// The index of the current token; the token after it is the next one.
    pub closed spec fn position(&self) -> int {
        self.pos as int
    }

    /// The tokens are those of the text, and the cursor stands on one of
    /// them or just past the last one.
    pub open spec fn wf(&self) -> bool {
        &&& self.tokens() == lex(self.source())
        &&& 0 <= self.position() <= self.tokens().len()
        &&& self.source().len() <= usize::MAX
        &&& self.tokens().len() <= usize::MAX
    }

    /// The text and the tokens of a lexer are those of `text`, and the cursor
    /// stands on the first token.
    pub fn new(text: &str) -> (l: C1Lexer)
        ensures
            l.wf(),
            l.source() == text@,
            l.position() == 0,
    {
        let chars = chars_of(text);
        let tokens = tokenize(&chars);
        assert(chars@.len() == chars.len());
        assert(tokens@.len() == tokens.len());
        C1Lexer { chars, tokens, pos: 0 }
    }

    /// The kind of the current token, if there is one.
    pub fn current_token(&self) -> (k: Option<C1Token>)
        requires
            self.wf(),
        ensures
            k == kind_at(self.tokens(), self.position()),
    {
        if self.pos < self.tokens.len() {
            Some(self.tokens[self.pos].kind)
        } else {
            None
        }
    }

    /// The kind of the token after the current one, if there is one.
    pub fn peek_token(&self) -> (k: Option<C1Token>)
        requires
            self.wf(),
        ensures
            k == kind_at(self.tokens(), self.position() + 1),
    {
        if self.pos < self.tokens.len() && self.tokens.len() - self.pos > 1 {
            Some(self.tokens[self.pos + 1].kind)
        } else {
            None
        }
    }

    /// The index of the current token.
    pub fn position_index(&self) -> (p: usize)
        ensures
            p == self.position(),
    {
        self.pos
    }

    /// The line of the token at `p`, if there is one.
    pub fn line_number_of(&self, p: usize) -> (n: Option<usize>)
        ensures
            p < self.tokens().len() ==> n == Some(self.tokens()[p as int].line),
            p >= self.tokens().len() ==> n is None,
    {
        self.line_at(p)
    }

    /// The line of the token at `p`, if there is one.
    fn line_at(&self, p: usize) -> (n: Option<usize>)
        ensures
            p < self.tokens().len() ==> n == Some(self.tokens()[p as int].line),
            p >= self.tokens().len() ==> n is None,
    {
        if p < self.tokens.len() {
            Some(self.tokens[p].line)
        } else {
            None
        }
    }

    /// The line of the current token, if there is one.
    pub fn current_line_number(&self) -> (n: Option<usize>)
        requires
            self.wf(),
        ensures
            self.position() < self.tokens().len() ==> n == Some(
                self.tokens()[self.position()].line,
            ),
            self.position() >= self.tokens().len() ==> n is None,
    {
        self.line_at(self.pos)
    }

    /// The line of the token after the current one, if there is one.
    pub fn peek_line_number(&self) -> (n: Option<usize>)
        requires
            self.wf(),
        ensures
            self.position() + 1 < self.tokens().len() ==> n == Some(
                self.tokens()[self.position() + 1].line,
            ),
            self.position() + 1 >= self.tokens().len() ==> n is None,
    {
        if self.pos < self.tokens.len() {
            self.line_at(self.pos + 1)
        } else {
            None
        }
    }

    /// Appends the text of token `p` to `out`.
    pub fn push_text_of(&self, p: usize, out: &mut String)
        requires
            self.wf(),
            p < self.tokens().len(),
        ensures
            final(out)@ == old(out)@ + self.source().subrange(
                self.tokens()[p as int].start as int,
                self.tokens()[p as int].end as int,
            ),
    {
        proof {
            lemma_lex_from_bounds(self.chars@, 0);
            assert(self.tokens@[p as int] == lex_from(self.chars@, 0)[p as int]);
        }
        let l = self.tokens[p];
        crate::text::push_chars(out, &self.chars, l.start, l.end);
    }

    /// Moves the cursor to the next token; past the last token it stays.
    pub fn eat(&mut self)
        requires
            old(self).wf(),
        ensures
            final(self).wf(),
            final(self).source() == old(self).source(),
            final(self).tokens() == old(self).tokens(),
            final(self).position() == if old(self).position() < old(self).tokens().len() {
                old(self).position() + 1
            } else {
                old(self).position()
            },
    {
        if self.pos < self.tokens.len() {
            self.pos = self.pos + 1;
        }
    }
}

} // verus!
