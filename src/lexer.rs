use vstd::prelude::*;

verus! {

/// How many repetitions a quantifier admits.
#[derive(Debug, Clone, Copy, PartialEq, Eq, Structural)]
pub enum Quantifier {
    ZeroOrOne,
    ZeroOrMore,
    OneOrMore,
}

/// A backslash class: `\d`, `\w` or `\s`.
#[derive(Debug, Clone, Copy, PartialEq, Eq, Structural)]
pub enum ClassKind {
    Digit,
    Word,
    Space,
}

/// A lexical unit of a pattern.
#[derive(Debug, PartialEq, Eq)]
pub enum Token {
    Literal(char),
    Wildcard,
    StartAnchor,
    EndAnchor,
    GroupStart,
    GroupEnd,
    Alternation,
    Quantifier(Quantifier),
    Class(ClassKind),
    /// A bracket expression: whether it is negated (`[^...]`), and its members.
    Bracket(bool, Vec<char>),
    EOF,
}

/// The mathematical value of a token: a bracket's members as a sequence.
pub enum Lexeme {
    Literal(char),
    Wildcard,
    StartAnchor,
    EndAnchor,
    GroupStart,
    GroupEnd,
    Alternation,
    Quantifier(Quantifier),
    Class(ClassKind),
    Bracket(bool, Seq<char>),
    EOF,
}

impl View for Token {
    type V = Lexeme;

    open spec fn view(&self) -> Lexeme {
        match self {
            Token::Literal(c) => Lexeme::Literal(*c),
            Token::Wildcard => Lexeme::Wildcard,
            Token::StartAnchor => Lexeme::StartAnchor,
            Token::EndAnchor => Lexeme::EndAnchor,
            Token::GroupStart => Lexeme::GroupStart,
            Token::GroupEnd => Lexeme::GroupEnd,
            Token::Alternation => Lexeme::Alternation,
            Token::Quantifier(q) => Lexeme::Quantifier(*q),
            Token::Class(k) => Lexeme::Class(*k),
            Token::Bracket(n, cs) => Lexeme::Bracket(*n, cs@),
            Token::EOF => Lexeme::EOF,
        }
    }
}

/// The lexemes of a token sequence.
pub open spec fn lexemes(ts: Seq<Token>) -> Seq<Lexeme> {
    ts.map_values(|t: Token| t@)
}

/// The first index at or after `j` that holds `]`, if any.
pub open spec fn close_bracket(p: Seq<char>, j: int) -> Option<int>
    decreases p.len() - j,
{
    if j < 0 || j >= p.len() {
        None
    } else if p[j] == ']' {
        Some(j)
    } else {
        close_bracket(p, j + 1)
    }
}

/// Where the members of a bracket opened at `i` begin (after an optional `^`).
pub open spec fn bracket_body(p: Seq<char>, i: int) -> int {
    if i + 1 < p.len() && p[i + 1] == '^' {
        i + 2
    } else {
        i + 1
    }
}

/// The lexeme of a backslash followed by `c`: a class for `d`, `w`, `s`, else `c` itself.
pub open spec fn escape_lexeme(c: char) -> Lexeme {
    if c == 'd' {
        Lexeme::Class(ClassKind::Digit)
    } else if c == 'w' {
        Lexeme::Class(ClassKind::Word)
    } else if c == 's' {
        Lexeme::Class(ClassKind::Space)
    } else {
        Lexeme::Literal(c)
    }
}

/// The lexeme of a single character that is neither `\` nor `[`.
pub open spec fn char_lexeme(c: char) -> Lexeme {
    if c == '^' {
        Lexeme::StartAnchor
    } else if c == '$' {
        Lexeme::EndAnchor
    } else if c == '.' {
        Lexeme::Wildcard
    } else if c == '(' {
        Lexeme::GroupStart
    } else if c == ')' {
        Lexeme::GroupEnd
    } else if c == '|' {
        Lexeme::Alternation
    } else if c == '*' {
        Lexeme::Quantifier(Quantifier::ZeroOrMore)
    } else if c == '+' {
        Lexeme::Quantifier(Quantifier::OneOrMore)
    } else if c == '?' {
        Lexeme::Quantifier(Quantifier::ZeroOrOne)
    } else {
        Lexeme::Literal(c)
    }
}

/// The lexemes of `p` from index `i` on, ending with the end-of-input marker.
/// A backslash takes the next character with it; a `[` that has a later `]`
/// takes everything up to that `]`; an unclosed `[` and a trailing backslash
/// stand for themselves.
pub open spec fn lex_from(p: Seq<char>, i: int) -> Seq<Lexeme>
    decreases p.len() - i,
{
    if i < 0 || i >= p.len() {
        seq![Lexeme::EOF]
    } else if p[i] == '\\' {
        if i + 1 < p.len() {
            seq![escape_lexeme(p[i + 1])] + lex_from(p, i + 2)
        } else {
            seq![Lexeme::Literal('\\')] + lex_from(p, i + 1)
        }
    } else if p[i] == '[' {
        match close_bracket(p, bracket_body(p, i)) {
            Some(k) => {
                if bracket_body(p, i) <= k < p.len() {
                    seq![
                        Lexeme::Bracket(
                            bracket_body(p, i) == i + 2,
                            p.subrange(bracket_body(p, i), k),
                        ),
                    ] + lex_from(p, k + 1)
                } else {
                    seq![Lexeme::Literal('[')] + lex_from(p, i + 1)
                }
            },
            None => seq![Lexeme::Literal('[')] + lex_from(p, i + 1),
        }
    } else {
        seq![char_lexeme(p[i])] + lex_from(p, i + 1)
    }
}

/// The lexemes of a whole pattern.
pub open spec fn lex(p: Seq<char>) -> Seq<Lexeme> {
    lex_from(p, 0)
}

proof fn lemma_close_bracket(p: Seq<char>, j: int)
    ensures
        match close_bracket(p, j) {
            Some(k) => j <= k < p.len() && p[k] == ']' && forall|m: int|
                j <= m < k ==> p[m] != ']',
            None => forall|m: int| 0 <= j <= m < p.len() ==> p[m] != ']',
        },
    decreases p.len() - j,
{
    if 0 <= j < p.len() && p[j] != ']' {
        lemma_close_bracket(p, j + 1);
    }
}

/// The characters of `s`, one per element.
pub fn chars_of(s: &str) -> (r: Vec<char>)
    ensures
        r@ == s@,
{
    let n = s.unicode_len();
    let mut r: Vec<char> = Vec::new();
    let mut i: usize = 0;
    while i < n
        invariant
            n == s@.len(),
            i <= n,
            r@ == s@.subrange(0, i as int),
        decreases n - i,
    {
        r.push(s.get_char(i));
        i += 1;
    }
    assert(r@ =~= s@);
    r
}

fn escape_token(c: char) -> (t: Token)
    ensures
        t@ == escape_lexeme(c),
{
    if c == 'd' {
        Token::Class(ClassKind::Digit)
    } else if c == 'w' {
        Token::Class(ClassKind::Word)
    } else if c == 's' {
        Token::Class(ClassKind::Space)
    } else {
        Token::Literal(c)
    }
}

fn char_token(c: char) -> (t: Token)
    ensures
        t@ == char_lexeme(c),
{
    match c {
        '^' => Token::StartAnchor,
        '$' => Token::EndAnchor,
        '.' => Token::Wildcard,
        '(' => Token::GroupStart,
        ')' => Token::GroupEnd,
        '|' => Token::Alternation,
        '*' => Token::Quantifier(Quantifier::ZeroOrMore),
        '+' => Token::Quantifier(Quantifier::OneOrMore),
        '?' => Token::Quantifier(Quantifier::ZeroOrOne),
        _ => Token::Literal(c),
    }
}

/// The first index at or after `j` where `p` holds `]`.
fn find_close(p: &Vec<char>, j: usize) -> (r: Option<usize>)
    ensures
        match r {
            Some(k) => close_bracket(p@, j as int) == Some(k as int),
            None => close_bracket(p@, j as int) is None,
        },
{
    let mut k = j;
    while k < p.len()
        invariant
            j <= k,
            close_bracket(p@, j as int) == close_bracket(p@, k as int),
        decreases p.len() - k,
    {
        if p[k] == ']' {
            return Some(k);
        }
        k += 1;
    }
    None
}

/// Splits a pattern into tokens, ending with `Token::EOF`. Never fails.
pub fn tokenize(pattern: &str) -> (tokens: Vec<Token>)
    ensures
        lexemes(tokens@) == lex(pattern@),
{
    let p = chars_of(pattern);
    let n = p.len();
    let mut tokens: Vec<Token> = Vec::new();
    let mut i: usize = 0;
    while i < n
        invariant
            n == p@.len(),
            p@ == pattern@,
            i <= n,
            lex(p@) == lexemes(tokens@) + lex_from(p@, i as int),
        decreases n - i,
    {
        let ghost before = tokens@;
        let c = p[i];
        if c == '\\' {
            if i + 1 < n {
                tokens.push(escape_token(p[i + 1]));
                i += 2;
            } else {
                tokens.push(Token::Literal('\\'));
                i += 1;
            }
        } else if c == '[' {
            let body = if i + 1 < n && p[i + 1] == '^' {
                i + 2
            } else {
                i + 1
            };
            match find_close(&p, body) {
                Some(k) => {
                    proof {
                        lemma_close_bracket(p@, body as int);
                    }
                    let mut members: Vec<char> = Vec::new();
                    let mut m = body;
                    while m < k
                        invariant
                            body <= m <= k,
                            k < n,
                            n == p@.len(),
                            members@ == p@.subrange(body as int, m as int),
                        decreases k - m,
                    {
                        members.push(p[m]);
                        m += 1;
                    }
                    tokens.push(Token::Bracket(body == i + 2, members));
                    i = k + 1;
                },
                None => {
                    tokens.push(Token::Literal('['));
                    i += 1;
                },
            }
        } else {
            tokens.push(char_token(c));
            i += 1;
        }
        assert(lexemes(tokens@) =~= lexemes(before) + seq![tokens@.last()@]);
    }
    tokens.push(Token::EOF);
    assert(lexemes(tokens@) =~= lexemes(tokens@.drop_last()) + seq![Lexeme::EOF]);
    tokens
}

} // verus!
