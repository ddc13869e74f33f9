use vstd::prelude::*;
use crate::lexer::{ClassKind, Lexeme, Quantifier, Token, lexemes};

verus! {

broadcast use vstd::std_specs::vec::group_vec_axioms, vstd::seq::group_seq_axioms;

/// A node of a compiled pattern.
#[derive(Debug)]
pub enum AstNode {
    Literal(char),
    Wildcard,
    Group(Vec<AstNode>),
    Alternation(Vec<AstNode>, Vec<AstNode>),
    Repetition(Box<AstNode>, Quantifier),
    StartAnchor,
    EndAnchor,
    Class(ClassKind),
    Bracket(bool, Vec<char>),
}

/// The mathematical value of a pattern node.
pub enum Regex {
    Char(char),
    Any,
    Group(Seq<Regex>),
    Alt(Seq<Regex>, Seq<Regex>),
    Repeat(Box<Regex>, Quantifier),
    Start,
    End,
    Class(ClassKind),
    Bracket(bool, Seq<char>),
}

/// Why a token sequence is not a pattern.
#[derive(Debug, Clone, Copy, PartialEq, Eq, Structural)]
pub enum ParseError {
    /// A quantifier with nothing before it to repeat.
    UnexpectedQuantifier,
    /// A token where the grammar admits none of its kind (a stray `)`, a missing end marker).
    UnexpectedToken,
    /// A `(` without its `)`.
    UnmatchedGroup,
}

impl ParseError {
    /// A sentence that describes the error.
    pub fn message(&self) -> (r: &'static str) {
        match self {
            ParseError::UnexpectedQuantifier => "Unexpected quantifier: nothing to repeat",
            ParseError::UnexpectedToken => "Unexpected token",
            ParseError::UnmatchedGroup => "Unmatched group: missing ')'",
        }
    }
}

impl AstNode {
    pub open spec fn view(&self) -> Regex
        decreases self, 1nat,
    {
        match self {
            AstNode::Literal(c) => Regex::Char(*c),
            AstNode::Wildcard => Regex::Any,
            AstNode::Group(v) => Regex::Group(nodes_view(v@)),
            AstNode::Alternation(l, r) => Regex::Alt(nodes_view(l@), nodes_view(r@)),
            AstNode::Repetition(b, q) => Regex::Repeat(Box::new((**b).view()), *q),
            AstNode::StartAnchor => Regex::Start,
            AstNode::EndAnchor => Regex::End,
            AstNode::Class(k) => Regex::Class(*k),
            AstNode::Bracket(n, cs) => Regex::Bracket(*n, cs@),
        }
    }
}

/// The values of a sequence of nodes.
pub open spec fn nodes_view(s: Seq<AstNode>) -> Seq<Regex>
    decreases s, 0nat,
{
    if s.len() == 0 {
        Seq::empty()
    } else {
        nodes_view(s.drop_last()).push(s.last().view())
    }
}

pub proof fn lemma_nodes_view_push(s: Seq<AstNode>, n: AstNode)
    ensures
        nodes_view(s.push(n)) == nodes_view(s).push(n.view()),
{
    assert(s.push(n).drop_last() =~= s);
}


/// Wraps `a` in the quantifier that stands at `p`, if one does, and gives the
/// node together with the position after it.
pub open spec fn quantify(ls: Seq<Lexeme>, a: Regex, p: int) -> (Regex, int) {
    if 0 <= p < ls.len() {
        match ls[p] {
            Lexeme::Quantifier(q) => (Regex::Repeat(Box::new(a), q), p + 1),
            _ => (a, p),
        }
    } else {
        (a, p)
    }
}

/// An alternation starting at `pos`: a sequence, then optionally `|` and a
/// further alternation, which becomes the right branch. Gives the nodes and
/// the position after them.
pub open spec fn parse_alt(ls: Seq<Lexeme>, pos: int) -> Result<(Seq<Regex>, int), ParseError>
    decreases ls.len() - pos, 2nat,
{
    match parse_seq(ls, pos) {
        Err(e) => Err(e),
        Ok((left, p1)) => {
            if pos <= p1 < ls.len() && ls[p1] is Alternation {
                match parse_alt(ls, p1 + 1) {
                    Err(e) => Err(e),
                    Ok((right, p2)) => Ok((seq![Regex::Alt(left, right)], p2)),
                }
            } else {
                Ok((left, p1))
            }
        },
    }
}

/// A sequence of atoms, each optionally followed by a quantifier, up to the
/// first `|`, `)` or end marker.
pub open spec fn parse_seq(ls: Seq<Lexeme>, pos: int) -> Result<(Seq<Regex>, int), ParseError>
    decreases ls.len() - pos, 1nat,
{
    if pos < 0 || pos >= ls.len() {
        Ok((seq![], pos))
    } else if ls[pos] is Alternation || ls[pos] is GroupEnd || ls[pos] is EOF {
        Ok((seq![], pos))
    } else {
        match parse_atom(ls, pos) {
            Err(e) => Err(e),
            Ok((a, p1)) => {
                let (a2, p2) = quantify(ls, a, p1);
                if pos < p2 <= ls.len() {
                    match parse_seq(ls, p2) {
                        Err(e) => Err(e),
                        Ok((rest, p3)) => Ok((seq![a2] + rest, p3)),
                    }
                } else {
                    Err(ParseError::UnexpectedToken)
                }
            },
        }
    }
}

/// One atom: a single-token node, or a parenthesised alternation.
pub open spec fn parse_atom(ls: Seq<Lexeme>, pos: int) -> Result<(Regex, int), ParseError>
    decreases ls.len() - pos, 0nat,
{
    if pos < 0 || pos >= ls.len() {
        Err(ParseError::UnexpectedToken)
    } else {
        match ls[pos] {
            Lexeme::Literal(c) => Ok((Regex::Char(c), pos + 1)),
            Lexeme::Wildcard => Ok((Regex::Any, pos + 1)),
            Lexeme::StartAnchor => Ok((Regex::Start, pos + 1)),
            Lexeme::EndAnchor => Ok((Regex::End, pos + 1)),
            Lexeme::Class(k) => Ok((Regex::Class(k), pos + 1)),
            Lexeme::Bracket(n, cs) => Ok((Regex::Bracket(n, cs), pos + 1)),
            Lexeme::Quantifier(_) => Err(ParseError::UnexpectedQuantifier),
            Lexeme::GroupStart => match parse_alt(ls, pos + 1) {
                Err(e) => Err(e),
                Ok((inner, p1)) => {
                    if 0 <= p1 < ls.len() && ls[p1] is GroupEnd {
                        Ok((Regex::Group(inner), p1 + 1))
                    } else {
                        Err(ParseError::UnmatchedGroup)
                    }
                },
            },
            _ => Err(ParseError::UnexpectedToken),
        }
    }
}

/// A whole pattern: an alternation that ends at the end marker.
pub open spec fn parse_pattern(ls: Seq<Lexeme>) -> Result<Seq<Regex>, ParseError> {
    match parse_alt(ls, 0) {
        Err(e) => Err(e),
        Ok((r, p)) => {
            if 0 <= p < ls.len() && ls[p] is EOF {
                Ok(r)
            } else {
                Err(ParseError::UnexpectedToken)
            }
        },
    }
}

/// Recursive-descent parser over a token sequence.
pub struct Parser {
    tokens: Vec<Token>,
    position: usize,
}

fn copy_chars(v: &Vec<char>) -> (r: Vec<char>)
    ensures
        r@ == v@,
{
    let mut r: Vec<char> = Vec::new();
    let mut i: usize = 0;
    while i < v.len()
        invariant
            i <= v.len(),
            r@ == v@.subrange(0, i as int),
        decreases v.len() - i,
    {
        r.push(v[i]);
        i += 1;
    }
    assert(r@ =~= v@);
    r
}

impl Parser {
    /// The lexemes this parser reads.
    pub closed spec fn lexemes(&self) -> Seq<Lexeme> {
        lexemes(self.tokens@)
    }

    pub fn new(tokens: Vec<Token>) -> (p: Self)
        ensures
            p.lexemes() == lexemes(tokens@),
    {
        Self { tokens, position: 0 }
    }

    /// Parses the whole token sequence into the nodes of a pattern.
    pub fn parse(&mut self) -> (r: Result<Vec<AstNode>, ParseError>)
        ensures
            final(self).lexemes() == old(self).lexemes(),
            match r {
                Ok(v) => parse_pattern(old(self).lexemes()) == Ok::<Seq<Regex>, ParseError>(nodes_view(v@)),
                Err(e) => parse_pattern(old(self).lexemes()) == Err::<Seq<Regex>, ParseError>(e),
            },
    {
        match self.parse_alternation(0) {
            Err(e) => Err(e),
            Ok((v, p)) => {
                if p < self.tokens.len() && self.current_is_eof(p) {
                    self.position = p;
                    Ok(v)
                } else {
                    Err(ParseError::UnexpectedToken)
                }
            },
        }
    }

    fn current_is_eof(&self, pos: usize) -> (r: bool)
        requires
            pos < self.tokens.len(),
        ensures
            r == (self.lexemes()[pos as int] is EOF),
    {
        match self.tokens[pos] {
            Token::EOF => true,
            _ => false,
        }
    }

    fn parse_alternation(&self, pos: usize) -> (r: Result<(Vec<AstNode>, usize), ParseError>)
        ensures
            match r {
                Ok((v, p)) => parse_alt(self.lexemes(), pos as int) == Ok::<(Seq<Regex>, int), ParseError>((nodes_view(v@), p as int)),
                Err(e) => parse_alt(self.lexemes(), pos as int) == Err::<(Seq<Regex>, int), ParseError>(e),
            },
        decreases self.tokens.len() - pos, 3nat,
    {
        let ghost ls = self.lexemes();
        match self.parse_sequence(pos) {
            Err(e) => Err(e),
            Ok((left, p1)) => {
                if pos <= p1 && p1 < self.tokens.len() && self.is_alternation(p1) {
                    match self.parse_alternation(p1 + 1) {
                        Err(e) => Err(e),
                        Ok((right, p2)) => {
                            let node = AstNode::Alternation(left, right);
                            let mut v: Vec<AstNode> = Vec::new();
                            v.push(node);
                            proof {
                                lemma_nodes_view_push(Seq::empty(), node);
                                assert(Seq::<AstNode>::empty().push(node) =~= v@);
                                assert(nodes_view(Seq::empty()) =~= Seq::<Regex>::empty());
                                assert(seq![Regex::Alt(nodes_view(left@), nodes_view(right@))] =~= nodes_view(v@));
                            }
                            Ok((v, p2))
                        },
                    }
                } else {
                    Ok((left, p1))
                }
            },
        }
    }

    fn is_alternation(&self, pos: usize) -> (r: bool)
        requires
            pos < self.tokens.len(),
        ensures
            r == (self.lexemes()[pos as int] is Alternation),
    {
        match self.tokens[pos] {
            Token::Alternation => true,
            _ => false,
        }
    }

    fn ends_sequence(&self, pos: usize) -> (r: bool)
        requires
            pos < self.tokens.len(),
        ensures
            r == (self.lexemes()[pos as int] is Alternation || self.lexemes()[pos as int] is GroupEnd
                || self.lexemes()[pos as int] is EOF),
    {
        match self.tokens[pos] {
            Token::Alternation | Token::GroupEnd | Token::EOF => true,
            _ => false,
        }
    }

    fn parse_sequence(&self, pos: usize) -> (r: Result<(Vec<AstNode>, usize), ParseError>)
        ensures
            match r {
                Ok((v, p)) => parse_seq(self.lexemes(), pos as int) == Ok::<(Seq<Regex>, int), ParseError>((nodes_view(v@), p as int)),
                Err(e) => parse_seq(self.lexemes(), pos as int) == Err::<(Seq<Regex>, int), ParseError>(e),
            },
        decreases self.tokens.len() - pos, 2nat,
    {
        let ghost ls = self.lexemes();
        let mut v: Vec<AstNode> = Vec::new();
        let mut cur = pos;
        while cur < self.tokens.len() && !self.ends_sequence(cur)
            invariant
                pos <= cur,
                ls == self.lexemes(),
                ls.len() == self.tokens.len(),
                parse_seq(ls, pos as int) == match parse_seq(ls, cur as int) {
                    Ok((rest, p3)) => Ok((nodes_view(v@) + rest, p3)),
                    Err(e) => Err::<(Seq<Regex>, int), ParseError>(e),
                },
            decreases self.tokens.len() - cur,
        {
            match self.parse_primary(cur) {
                Err(e) => {
                    return Err(e);
                },
                Ok((a, p1)) => {
                    let (a2, p2) = self.quantified(a, p1);
                    if cur < p2 && p2 <= self.tokens.len() {
                        proof {
                            lemma_nodes_view_push(v@, a2);
                            match parse_seq(ls, p2 as int) {
                                Ok((rest, p3)) => {
                                    assert(nodes_view(v@) + (seq![a2.view()] + rest) =~= nodes_view(v@.push(a2)) + rest);
                                },
                                Err(e) => {},
                            }
                        }
                        v.push(a2);
                        cur = p2;
                    } else {
                        return Err(ParseError::UnexpectedToken);
                    }
                },
            }
        }
        assert(nodes_view(v@) + seq![] =~= nodes_view(v@));
        Ok((v, cur))
    }

    fn quantified(&self, a: AstNode, p: usize) -> (r: (AstNode, usize))
        ensures
            quantify(self.lexemes(), a.view(), p as int) == (r.0.view(), r.1 as int),
    {
        if p < self.tokens.len() {
            match self.tokens[p] {
                Token::Quantifier(q) => (AstNode::Repetition(Box::new(a), q), p + 1),
                _ => (a, p),
            }
        } else {
            (a, p)
        }
    }

    fn parse_primary(&self, pos: usize) -> (r: Result<(AstNode, usize), ParseError>)
        requires
            pos < self.tokens.len(),
        ensures
            match r {
                Ok((a, p)) => parse_atom(self.lexemes(), pos as int) == Ok::<(Regex, int), ParseError>((a.view(), p as int)),
                Err(e) => parse_atom(self.lexemes(), pos as int) == Err::<(Regex, int), ParseError>(e),
            },
        decreases self.tokens.len() - pos, 1nat,
    {
        match &self.tokens[pos] {
            Token::Literal(c) => Ok((AstNode::Literal(*c), pos + 1)),
            Token::Wildcard => Ok((AstNode::Wildcard, pos + 1)),
            Token::StartAnchor => Ok((AstNode::StartAnchor, pos + 1)),
            Token::EndAnchor => Ok((AstNode::EndAnchor, pos + 1)),
            Token::Class(k) => Ok((AstNode::Class(*k), pos + 1)),
            Token::Bracket(n, cs) => Ok((AstNode::Bracket(*n, copy_chars(cs)), pos + 1)),
            Token::Quantifier(_) => Err(ParseError::UnexpectedQuantifier),
            Token::GroupStart => self.parse_group(pos),
            _ => Err(ParseError::UnexpectedToken),
        }
    }

    fn parse_group(&self, pos: usize) -> (r: Result<(AstNode, usize), ParseError>)
        requires
            pos < self.tokens.len(),
            self.lexemes()[pos as int] is GroupStart,
        ensures
            match r {
                Ok((a, p)) => parse_atom(self.lexemes(), pos as int) == Ok::<(Regex, int), ParseError>((a.view(), p as int)),
                Err(e) => parse_atom(self.lexemes(), pos as int) == Err::<(Regex, int), ParseError>(e),
            },
        decreases self.tokens.len() - pos, 0nat,
    {
        match self.parse_alternation(pos + 1) {
            Err(e) => Err(e),
            Ok((inner, p1)) => {
                if p1 < self.tokens.len() && self.is_group_end(p1) {
                    Ok((AstNode::Group(inner), p1 + 1))
                } else {
                    Err(ParseError::UnmatchedGroup)
                }
            },
        }
    }

    fn is_group_end(&self, pos: usize) -> (r: bool)
        requires
            pos < self.tokens.len(),
        ensures
            r == (self.lexemes()[pos as int] is GroupEnd),
    {
        match self.tokens[pos] {
            Token::GroupEnd => true,
            _ => false,
        }
    }
}

} // verus!
