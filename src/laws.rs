use vstd::prelude::*;
use crate::lexer::{ClassKind, Lexeme, Quantifier, bracket_body, char_lexeme, close_bracket, lex, lex_from};
use crate::matcher::{after, after_seq, char_ok, every_position, is_digit, is_word, matches_span, search, single_position, star, union};
use crate::parser::{ParseError, Regex, nodes_view, parse_alt, parse_atom, parse_pattern, parse_seq, quantify};
use crate::parser::AstNode;
use crate::{compiled, pattern_matches};

verus! {

/// A character that stands for itself in a pattern.
pub open spec fn is_plain(c: char) -> bool {
    !(c == '^' || c == '$' || c == '.' || c == '(' || c == ')' || c == '|' || c == '*' || c == '+'
        || c == '?' || c == '\\' || c == '[')
}

/// A one-character node matches somewhere exactly when some character of
/// the text satisfies it.
proof fn lemma_search_one(r: Regex, t: Seq<char>)
    requires
        r is Char || r is Any || r is Class || r is Bracket,
    ensures
        search(seq![r], t) == exists|i: int| 0 <= i < t.len() && #[trigger] char_ok(r, t[i]),
{
    let rs = seq![r];
    assert(rs.drop_last() =~= Seq::<Regex>::empty());
    assert(rs.last() == r);
    assert(after_seq(rs.drop_last(), t, every_position(t)) == every_position(t));
    let ends = after_seq(rs, t, every_position(t));
    assert(ends == after(r, t, every_position(t)));
    if search(rs, t) {
        let j = choose|j: int| 0 <= j <= t.len() && #[trigger] after_seq(rs, t, every_position(t))[j];
        assert(char_ok(r, t[j - 1]));
    }
    if exists|i: int| 0 <= i < t.len() && #[trigger] char_ok(r, t[i]) {
        let i = choose|i: int| 0 <= i < t.len() && #[trigger] char_ok(r, t[i]);
        assert(ends[i + 1]);
    }
}

/// A token sequence of one atom and the end marker parses to that atom.
proof fn lemma_parse_one(ls: Seq<Lexeme>, r: Regex)
    requires
        ls.len() == 2,
        ls[1] is EOF,
        !(ls[0] is Alternation || ls[0] is GroupEnd || ls[0] is EOF || ls[0] is Quantifier),
        parse_atom(ls, 0) == Ok::<(Regex, int), ParseError>((r, 1)),
    ensures
        parse_pattern(ls) == Ok::<Seq<Regex>, ParseError>(seq![r]),
{
    assert(parse_seq(ls, 1) == Ok::<(Seq<Regex>, int), ParseError>((seq![], 1)));
    assert(seq![r] + seq![] =~= seq![r]);
    assert(parse_seq(ls, 0) == Ok::<(Seq<Regex>, int), ParseError>((seq![r], 1)));
    assert(parse_alt(ls, 0) == Ok::<(Seq<Regex>, int), ParseError>((seq![r], 1)));
}

/// A pattern of one plain character matches exactly the texts that contain it.
pub proof fn lemma_single_char(c: char, t: Seq<char>)
    requires
        is_plain(c),
    ensures
        pattern_matches(seq![c], t) == Ok::<bool, ParseError>(t.contains(c)),
{
    let p = seq![c];
    reveal_with_fuel(lex_from, 2);
    assert(lex(p) =~= seq![Lexeme::Literal(c), Lexeme::EOF]);
    lemma_parse_one(lex(p), Regex::Char(c));
    lemma_search_one(Regex::Char(c), t);
    if t.contains(c) {
        let i = choose|i: int| 0 <= i < t.len() && t[i] == c;
        assert(char_ok(Regex::Char(c), t[i]));
    }
}

/// `\d` matches exactly the texts that hold an ASCII digit.
pub proof fn lemma_digit_class(t: Seq<char>)
    ensures
        pattern_matches(seq!['\\', 'd'], t) == Ok::<bool, ParseError>(
            exists|i: int| 0 <= i < t.len() && #[trigger] is_digit(t[i]),
        ),
{
    let p = seq!['\\', 'd'];
    reveal_with_fuel(lex_from, 2);
    assert(lex(p) =~= seq![Lexeme::Class(ClassKind::Digit), Lexeme::EOF]);
    let r = Regex::Class(ClassKind::Digit);
    lemma_parse_one(lex(p), r);
    lemma_search_one(r, t);
    assert forall|i: int| 0 <= i < t.len() implies #[trigger] is_digit(t[i]) == char_ok(r, t[i]) by {}
}

/// `\w` matches exactly the texts that hold an ASCII letter or digit, or `_`.
pub proof fn lemma_word_class(t: Seq<char>)
    ensures
        pattern_matches(seq!['\\', 'w'], t) == Ok::<bool, ParseError>(
            exists|i: int| 0 <= i < t.len() && #[trigger] is_word(t[i]),
        ),
{
    let p = seq!['\\', 'w'];
    reveal_with_fuel(lex_from, 2);
    assert(lex(p) =~= seq![Lexeme::Class(ClassKind::Word), Lexeme::EOF]);
    let r = Regex::Class(ClassKind::Word);
    lemma_parse_one(lex(p), r);
    lemma_search_one(r, t);
    assert forall|i: int| 0 <= i < t.len() implies #[trigger] is_word(t[i]) == char_ok(r, t[i]) by {}
}

proof fn lemma_close_at(p: Seq<char>, j: int, k: int)
    requires
        0 <= j <= k < p.len(),
        p[k] == ']',
        forall|m: int| j <= m < k ==> p[m] != ']',
    ensures
        close_bracket(p, j) == Some(k),
    decreases k - j,
{
    if j < k {
        lemma_close_at(p, j + 1, k);
    }
}

/// The tokens of a bracket `[` + (`^` when negated) + `s` + `]`.
proof fn lemma_lex_bracket(s: Seq<char>, negated: bool)
    requires
        forall|m: int| 0 <= m < s.len() ==> s[m] != ']',
        !negated ==> (s.len() == 0 || s[0] != '^'),
    ensures
        lex(bracket_pattern(s, negated)) == seq![Lexeme::Bracket(negated, s), Lexeme::EOF],
{
    let p = bracket_pattern(s, negated);
    let body: int = if negated { 2 } else { 1 };
    let k = p.len() - 1;
    assert(p[k] == ']');
    assert forall|m: int| body <= m < k implies p[m] != ']' by {
        assert(p[m] == s[m - body]);
    }
    lemma_close_at(p, body, k);
    assert(p.subrange(body, k) =~= s);
    assert(lex_from(p, k + 1) == seq![Lexeme::EOF]);
    assert(lex_from(p, 0) =~= seq![Lexeme::Bracket(negated, s), Lexeme::EOF]);
}

/// The bracket pattern with members `s`, negated or not.
pub open spec fn bracket_pattern(s: Seq<char>, negated: bool) -> Seq<char> {
    if negated {
        seq!['[', '^'] + s + seq![']']
    } else {
        seq!['['] + s + seq![']']
    }
}

/// `[S]` matches exactly the texts with a character in `S`, and `[^S]` those
/// with a character not in `S` (`S` holds no `]`, and for `[S]` does not
/// start with `^`).
pub proof fn lemma_bracket_class(s: Seq<char>, negated: bool, t: Seq<char>)
    requires
        forall|m: int| 0 <= m < s.len() ==> s[m] != ']',
        !negated ==> (s.len() == 0 || s[0] != '^'),
    ensures
        pattern_matches(bracket_pattern(s, negated), t) == Ok::<bool, ParseError>(
            exists|i: int| 0 <= i < t.len() && #[trigger] s.contains(t[i]) != negated,
        ),
{
    lemma_lex_bracket(s, negated);
    let r = Regex::Bracket(negated, s);
    lemma_parse_one(lex(bracket_pattern(s, negated)), r);
    lemma_search_one(r, t);
    assert forall|i: int| 0 <= i < t.len() implies (#[trigger] s.contains(t[i]) != negated)
        == char_ok(r, t[i]) by {}
}

/// A lexeme that parses to a node on its own.
pub open spec fn is_simple(l: Lexeme) -> bool {
    l is Literal || l is Wildcard || l is StartAnchor || l is EndAnchor || l is Class || l is Bracket
}

/// The node of a simple lexeme.
pub open spec fn atom_of(l: Lexeme) -> Regex {
    match l {
        Lexeme::Literal(c) => Regex::Char(c),
        Lexeme::Wildcard => Regex::Any,
        Lexeme::StartAnchor => Regex::Start,
        Lexeme::EndAnchor => Regex::End,
        Lexeme::Class(k) => Regex::Class(k),
        Lexeme::Bracket(n, cs) => Regex::Bracket(n, cs),
        _ => Regex::Any,
    }
}

proof fn lemma_parse_simple(ls: Seq<Lexeme>, i: int)
    requires
        ls.len() >= 1,
        ls.last() is EOF,
        forall|k: int| 0 <= k < ls.len() - 1 ==> is_simple(#[trigger] ls[k]),
        0 <= i <= ls.len() - 1,
    ensures
        parse_seq(ls, i) == Ok::<(Seq<Regex>, int), ParseError>(
            (Seq::new((ls.len() - 1 - i) as nat, |k: int| atom_of(ls[i + k])), ls.len() - 1),
        ),
    decreases ls.len() - i,
{
    let n = ls.len() - 1;
    if i == n {
        assert(Seq::new((ls.len() - 1 - i) as nat, |k: int| atom_of(ls[i + k])) =~= Seq::<Regex>::empty());
    } else {
        assert(is_simple(ls[i]));
        assert(parse_atom(ls, i) == Ok::<(Regex, int), ParseError>((atom_of(ls[i]), i + 1)));
        assert(i + 1 == n || is_simple(ls[i + 1]));
        lemma_parse_simple(ls, i + 1);
        assert(seq![atom_of(ls[i])] + Seq::new((ls.len() - 1 - (i + 1)) as nat, |k: int| atom_of(ls[i + 1 + k]))
            =~= Seq::new((ls.len() - 1 - i) as nat, |k: int| atom_of(ls[i + k])));
    }
}

proof fn lemma_parse_simple_pattern(ls: Seq<Lexeme>, rs: Seq<Regex>)
    requires
        ls.len() >= 1,
        ls.last() is EOF,
        forall|k: int| 0 <= k < ls.len() - 1 ==> is_simple(#[trigger] ls[k]),
        rs == Seq::new((ls.len() - 1) as nat, |k: int| atom_of(ls[k])),
    ensures
        parse_pattern(ls) == Ok::<Seq<Regex>, ParseError>(rs),
{
    lemma_parse_simple(ls, 0);
    assert(Seq::new((ls.len() - 1 - 0) as nat, |k: int| atom_of(ls[0 + k])) =~= rs);
}

/// `^abc` matches exactly the texts that start with `abc`.
pub proof fn lemma_start_anchor(t: Seq<char>)
    ensures
        pattern_matches(seq!['^', 'a', 'b', 'c'], t) == Ok::<bool, ParseError>(
            t.len() >= 3 && t.subrange(0, 3) == seq!['a', 'b', 'c'],
        ),
{
    let p = seq!['^', 'a', 'b', 'c'];
    reveal_with_fuel(lex_from, 5);
    let ls = seq![
        Lexeme::StartAnchor,
        Lexeme::Literal('a'),
        Lexeme::Literal('b'),
        Lexeme::Literal('c'),
        Lexeme::EOF,
    ];
    assert(lex(p) =~= ls);
    let rs = seq![Regex::Start, Regex::Char('a'), Regex::Char('b'), Regex::Char('c')];
    assert(rs =~= Seq::new((ls.len() - 1) as nat, |k: int| atom_of(ls[k])));
    lemma_parse_simple_pattern(ls, rs);
    let all = every_position(t);
    let e0 = after(Regex::Start, t, all);
    let e1 = after(Regex::Char('a'), t, e0);
    let e2 = after(Regex::Char('b'), t, e1);
    let e3 = after(Regex::Char('c'), t, e2);
    assert(rs.drop_last().drop_last().drop_last().drop_last() =~= Seq::<Regex>::empty());
    assert(rs.drop_last().drop_last().drop_last() =~= seq![Regex::Start]);
    assert(rs.drop_last().drop_last() =~= seq![Regex::Start, Regex::Char('a')]);
    assert(rs.drop_last() =~= seq![Regex::Start, Regex::Char('a'), Regex::Char('b')]);
    assert(after_seq(Seq::<Regex>::empty(), t, all) == all);
    assert(after_seq(seq![Regex::Start], t, all) == e0);
    assert(after_seq(seq![Regex::Start, Regex::Char('a')], t, all) == e1);
    assert(after_seq(seq![Regex::Start, Regex::Char('a'), Regex::Char('b')], t, all) == e2);
    assert(after_seq(rs, t, all) == e3);
    let want = t.len() >= 3 && t.subrange(0, 3) == seq!['a', 'b', 'c'];
    if search(rs, t) {
        let j = choose|j: int| 0 <= j <= t.len() && #[trigger] after_seq(rs, t, every_position(t))[j];
        assert(e2[j - 1] && e1[j - 2] && e0[j - 3]);
        assert(t.subrange(0, 3) =~= seq!['a', 'b', 'c']);
    }
    if want {
        assert(t.subrange(0, 3)[0] == 'a' && t.subrange(0, 3)[1] == 'b' && t.subrange(0, 3)[2] == 'c');
        assert(e0[0] && e1[1] && e2[2] && e3[3]);
        assert(after_seq(rs, t, every_position(t))[3]);
    }
}

/// `abc$` matches exactly the texts that end with `abc`.
pub proof fn lemma_end_anchor(t: Seq<char>)
    ensures
        pattern_matches(seq!['a', 'b', 'c', '$'], t) == Ok::<bool, ParseError>(
            t.len() >= 3 && t.subrange(t.len() - 3, t.len() as int) == seq!['a', 'b', 'c'],
        ),
{
    let p = seq!['a', 'b', 'c', '$'];
    reveal_with_fuel(lex_from, 5);
    let ls = seq![
        Lexeme::Literal('a'),
        Lexeme::Literal('b'),
        Lexeme::Literal('c'),
        Lexeme::EndAnchor,
        Lexeme::EOF,
    ];
    assert(lex(p) =~= ls);
    let rs = seq![Regex::Char('a'), Regex::Char('b'), Regex::Char('c'), Regex::End];
    assert(rs =~= Seq::new((ls.len() - 1) as nat, |k: int| atom_of(ls[k])));
    lemma_parse_simple_pattern(ls, rs);
    let all = every_position(t);
    let e0 = after(Regex::Char('a'), t, all);
    let e1 = after(Regex::Char('b'), t, e0);
    let e2 = after(Regex::Char('c'), t, e1);
    let e3 = after(Regex::End, t, e2);
    assert(rs.drop_last().drop_last().drop_last().drop_last() =~= Seq::<Regex>::empty());
    assert(rs.drop_last().drop_last().drop_last() =~= seq![Regex::Char('a')]);
    assert(rs.drop_last().drop_last() =~= seq![Regex::Char('a'), Regex::Char('b')]);
    assert(rs.drop_last() =~= seq![Regex::Char('a'), Regex::Char('b'), Regex::Char('c')]);
    assert(after_seq(Seq::<Regex>::empty(), t, all) == all);
    assert(after_seq(seq![Regex::Char('a')], t, all) == e0);
    assert(after_seq(seq![Regex::Char('a'), Regex::Char('b')], t, all) == e1);
    assert(after_seq(seq![Regex::Char('a'), Regex::Char('b'), Regex::Char('c')], t, all) == e2);
    assert(after_seq(rs, t, all) == e3);
    let n = t.len() as int;
    let want = t.len() >= 3 && t.subrange(n - 3, n) == seq!['a', 'b', 'c'];
    if search(rs, t) {
        let j = choose|j: int| 0 <= j <= t.len() && #[trigger] after_seq(rs, t, every_position(t))[j];
        assert(j == n && e2[n] && e1[n - 1] && e0[n - 2]);
        assert(t.subrange(n - 3, n) =~= seq!['a', 'b', 'c']);
    }
    if want {
        assert(t.subrange(n - 3, n)[0] == 'a' && t.subrange(n - 3, n)[1] == 'b' && t.subrange(n - 3, n)[2] == 'c');
        assert(e0[n - 2] && e1[n - 1] && e2[n] && e3[n]);
        assert(after_seq(rs, t, every_position(t))[n]);
    }
}

/// Compiling is a function of the pattern: two compilations of one pattern
/// agree on every text.
pub proof fn lemma_compile_deterministic(p: Seq<char>, a: Seq<AstNode>, b: Seq<AstNode>, t: Seq<char>)
    requires
        compiled(p) == Ok::<Seq<Regex>, ParseError>(nodes_view(a)),
        compiled(p) == Ok::<Seq<Regex>, ParseError>(nodes_view(b)),
    ensures
        search(nodes_view(a), t) == search(nodes_view(b), t),
{
}

/// A pattern that starts with a quantifier is refused: the quantifier has
/// nothing to repeat.
pub proof fn lemma_leading_quantifier(p: Seq<char>)
    requires
        p.len() > 0,
        p[0] == '*' || p[0] == '+' || p[0] == '?',
    ensures
        compiled(p) == Err::<Seq<Regex>, ParseError>(ParseError::UnexpectedQuantifier),
{
    let ls = lex(p);
    assert(ls == seq![char_lexeme(p[0])] + lex_from(p, 1));
    assert(ls.len() > 0 && ls[0] is Quantifier);
    assert(parse_atom(ls, 0) == Err::<(Regex, int), ParseError>(ParseError::UnexpectedQuantifier));
    assert(parse_seq(lex(p), 0) == Err::<(Seq<Regex>, int), ParseError>(ParseError::UnexpectedQuantifier));
}


/// How much a lexeme opens (`(`) or closes (`)`) a group.
pub open spec fn paren_weight(l: Lexeme) -> int {
    if l is GroupStart {
        1
    } else if l is GroupEnd {
        -1
    } else {
        0
    }
}

/// The number of `(` tokens minus the number of `)` tokens in `ls[i..j]`.
pub open spec fn balance(ls: Seq<Lexeme>, i: int, j: int) -> int
    decreases j - i,
{
    if j <= i {
        0
    } else {
        balance(ls, i, j - 1) + paren_weight(ls[j - 1])
    }
}

proof fn lemma_balance_split(ls: Seq<Lexeme>, i: int, j: int, k: int)
    requires
        i <= j <= k,
    ensures
        balance(ls, i, k) == balance(ls, i, j) + balance(ls, j, k),
    decreases k - j,
{
    if j < k {
        lemma_balance_split(ls, i, j, k - 1);
    }
}

/// What a successful parse of `ls[pos..p]` guarantees: the parentheses in it
/// match, and each quantifier in it follows an operand inside it.
spec fn parsed_span(ls: Seq<Lexeme>, pos: int, p: int) -> bool {
    &&& pos <= p <= ls.len()
    &&& balance(ls, pos, p) == 0
    &&& forall|j: int| pos <= j <= p ==> #[trigger] balance(ls, pos, j) >= 0
    &&& forall|k: int|
        pos <= k < p && #[trigger] ls[k] is Quantifier ==> k > pos && operand_end(ls[k - 1])
}

proof fn lemma_span_join(ls: Seq<Lexeme>, pos: int, mid: int, p: int)
    requires
        parsed_span(ls, pos, mid),
        parsed_span(ls, mid, p),
        mid < p ==> !(ls[mid] is Quantifier) || (mid > pos && operand_end(ls[mid - 1])),
    ensures
        parsed_span(ls, pos, p),
{
    lemma_balance_split(ls, pos, mid, p);
    assert forall|j: int| pos <= j <= p implies #[trigger] balance(ls, pos, j) >= 0 by {
        if j > mid {
            lemma_balance_split(ls, pos, mid, j);
        }
    }
}

proof fn lemma_one_token_span(ls: Seq<Lexeme>, pos: int)
    requires
        0 <= pos < ls.len(),
        !(ls[pos] is Quantifier),
        !(ls[pos] is GroupStart),
        !(ls[pos] is GroupEnd),
    ensures
        parsed_span(ls, pos, pos + 1),
{
    assert(balance(ls, pos, pos) == 0);
    assert(balance(ls, pos, pos + 1) == 0);
}

proof fn lemma_alt_balanced(ls: Seq<Lexeme>, pos: int)
    requires
        0 <= pos <= ls.len(),
    ensures
        parse_alt(ls, pos) matches Ok((_, p)) ==> parsed_span(ls, pos, p),
    decreases ls.len() - pos, 2nat,
{
    lemma_seq_balanced(ls, pos);
    if let Ok((_, p1)) = parse_seq(ls, pos) {
        if pos <= p1 < ls.len() && ls[p1] is Alternation {
            lemma_alt_balanced(ls, p1 + 1);
            if let Ok((_, p2)) = parse_alt(ls, p1 + 1) {
                lemma_one_token_span(ls, p1);
                lemma_span_join(ls, pos, p1, p1 + 1);
                lemma_span_join(ls, pos, p1 + 1, p2);
            }
        }
    }
}

proof fn lemma_seq_balanced(ls: Seq<Lexeme>, pos: int)
    requires
        0 <= pos <= ls.len(),
    ensures
        parse_seq(ls, pos) matches Ok((_, p)) ==> parsed_span(ls, pos, p),
    decreases ls.len() - pos, 1nat,
{
    if pos < ls.len() && !(ls[pos] is Alternation || ls[pos] is GroupEnd || ls[pos] is EOF) {
        lemma_atom_balanced(ls, pos);
        if let Ok((a, p1)) = parse_atom(ls, pos) {
            let (a2, p2) = quantify(ls, a, p1);
            if pos < p2 <= ls.len() {
                lemma_seq_balanced(ls, p2);
                if let Ok((_, p3)) = parse_seq(ls, p2) {
                    if p2 == p1 + 1 {
                        assert(balance(ls, p1, p1) == 0);
                        assert(balance(ls, p1, p1 + 1) == 0);
                        lemma_balance_split(ls, pos, p1, p2);
                        assert(balance(ls, pos, p2) == 0);
                        assert forall|j: int| pos <= j <= p2 implies #[trigger] balance(ls, pos, j) >= 0 by {
                            if j == p2 {
                                assert(balance(ls, pos, p2) == 0);
                            } else {
                                assert(balance(ls, pos, j) >= 0);
                            }
                        }
                        assert(parsed_span(ls, pos, p2));
                    }
                    lemma_span_join(ls, pos, p2, p3);
                }
            }
        } else {
            assert(balance(ls, pos, pos) == 0);
        }
    } else {
        assert(balance(ls, pos, pos) == 0);
    }
}

proof fn lemma_atom_balanced(ls: Seq<Lexeme>, pos: int)
    requires
        0 <= pos <= ls.len(),
    ensures
        parse_atom(ls, pos) matches Ok((_, p)) ==> pos < p && parsed_span(ls, pos, p) && operand_end(
            ls[p - 1],
        ) && !(ls[pos] is Quantifier),
    decreases ls.len() - pos, 0nat,
{
    if pos < ls.len() {
        assert(balance(ls, pos, pos) == 0);
        assert(balance(ls, pos, pos + 1) == paren_weight(ls[pos]));
        if ls[pos] is GroupStart {
            lemma_alt_balanced(ls, pos + 1);
            if let Ok((_, p1)) = parse_alt(ls, pos + 1) {
                if 0 <= p1 < ls.len() && ls[p1] is GroupEnd {
                    lemma_balance_split(ls, pos, pos + 1, p1);
                    lemma_balance_split(ls, pos, p1, p1 + 1);
                    assert(balance(ls, p1, p1) == 0);
                    assert(balance(ls, p1, p1 + 1) == -1);
                    assert forall|j: int| pos <= j <= p1 + 1 implies #[trigger] balance(ls, pos, j) >= 0 by {
                        if pos + 1 <= j <= p1 {
                            lemma_balance_split(ls, pos, pos + 1, j);
                        }
                    }
                }
            }
        } else if parse_atom(ls, pos) is Ok {
            lemma_one_token_span(ls, pos);
        }
    }
}

/// The end marker is the last token of a pattern and only there.
proof fn lemma_lex_end(p: Seq<char>, i: int)
    requires
        0 <= i,
    ensures
        lex_from(p, i).len() >= 1,
        lex_from(p, i).last() is EOF,
        forall|k: int| 0 <= k < lex_from(p, i).len() - 1 ==> !(#[trigger] lex_from(p, i)[k] is EOF),
    decreases p.len() - i,
{
    if i < p.len() {
        let next: int = if p[i] == '\\' {
            if i + 1 < p.len() { i + 2 } else { i + 1 }
        } else if p[i] == '[' {
            match close_bracket(p, bracket_body(p, i)) {
                Some(k) => if bracket_body(p, i) <= k < p.len() { k + 1 } else { i + 1 },
                None => i + 1,
            }
        } else {
            i + 1
        };
        lemma_lex_end(p, next);
        let head = lex_from(p, i)[0];
        assert(lex_from(p, i) == seq![head] + lex_from(p, next));
        assert(!(head is EOF));
        assert forall|k: int| 0 <= k < lex_from(p, i).len() - 1 implies !(#[trigger] lex_from(p, i)[k] is EOF) by {
            if k > 0 {
                assert(lex_from(p, i)[k] == lex_from(p, next)[k - 1]);
            }
        }
    }
}

/// A pattern whose `(` and `)` tokens differ in number is refused: an
/// unmatched `(` and a stray `)` are parse errors.
pub proof fn lemma_unbalanced_refused(p: Seq<char>)
    requires
        balance(lex(p), 0, lex(p).len() as int) != 0,
    ensures
        compiled(p) is Err,
{
    let ls = lex(p);
    lemma_alt_balanced(ls, 0);
    lemma_lex_end(p, 0);
    if let Ok((_, q)) = parse_alt(ls, 0) {
        if 0 <= q < ls.len() && ls[q] is EOF {
            assert(q == ls.len() - 1);
            lemma_balance_split(ls, 0, q, ls.len() as int);
            assert(balance(ls, q, q + 1) == 0);
        }
    }
}


/// A lexeme after which a quantifier has something to repeat.
pub open spec fn operand_end(l: Lexeme) -> bool {
    is_simple(l) || l is GroupEnd
}

/// Every quantifier directly follows an operand.
pub open spec fn quantifiers_placed(ls: Seq<Lexeme>) -> bool {
    forall|k: int|
        0 <= k < ls.len() && #[trigger] ls[k] is Quantifier ==> k > 0 && operand_end(ls[k - 1])
}

/// Parentheses that match: no prefix closes more groups than it opens, and
/// the whole opens as many as it closes.
pub open spec fn parens_balanced(ls: Seq<Lexeme>) -> bool {
    &&& forall|j: int| 0 <= j <= ls.len() ==> #[trigger] balance(ls, 0, j) >= 0
    &&& balance(ls, 0, ls.len() as int) == 0
}

/// The tokens of a pattern that the grammar admits: matched parentheses, and
/// no quantifier without an operand.
pub open spec fn well_formed(ls: Seq<Lexeme>) -> bool {
    parens_balanced(ls) && quantifiers_placed(ls)
}

spec fn ends_once(ls: Seq<Lexeme>) -> bool {
    &&& ls.len() >= 1
    &&& ls.last() is EOF
    &&& forall|k: int| 0 <= k < ls.len() - 1 ==> !(#[trigger] ls[k] is EOF)
}

/// `ls[pos..q]` is the inside of a group (or of the whole pattern) that ends at `q`.
spec fn region(ls: Seq<Lexeme>, pos: int, q: int) -> bool {
    &&& 0 <= pos <= q < ls.len()
    &&& (ls[q] is GroupEnd || q == ls.len() - 1)
    &&& balance(ls, pos, q) == 0
    &&& forall|j: int| pos <= j <= q ==> #[trigger] balance(ls, pos, j) >= 0
    &&& forall|j: int| pos <= j < q && #[trigger] ls[j] is GroupEnd ==> balance(ls, pos, j) != 0
    &&& !(ls[pos] is Quantifier)
}

proof fn lemma_first_zero(ls: Seq<Lexeme>, pos: int, from: int, q: int) -> (k: int)
    requires
        pos <= from <= q,
        balance(ls, pos, q) == 0,
    ensures
        from <= k <= q,
        balance(ls, pos, k) == 0,
        forall|m: int| from <= m < k ==> #[trigger] balance(ls, pos, m) != 0,
    decreases q - from,
{
    if balance(ls, pos, from) == 0 {
        from
    } else {
        lemma_first_zero(ls, pos, from + 1, q)
    }
}

/// Within a region, shifting the origin of a balance to a point of balance zero.
proof fn lemma_region_shift(ls: Seq<Lexeme>, pos: int, p2: int, q: int)
    requires
        region(ls, pos, q),
        pos < p2 <= q,
        balance(ls, pos, p2) == 0,
        !(ls[p2] is Quantifier),
    ensures
        region(ls, p2, q),
{
    lemma_balance_split(ls, pos, p2, q);
    assert forall|j: int| p2 <= j <= q implies #[trigger] balance(ls, p2, j) >= 0 by {
        lemma_balance_split(ls, pos, p2, j);
        assert(balance(ls, pos, j) >= 0);
    }
    assert forall|j: int| p2 <= j < q && #[trigger] ls[j] is GroupEnd implies balance(ls, p2, j) != 0 by {
        lemma_balance_split(ls, pos, p2, j);
    }
}

proof fn lemma_alt_complete(ls: Seq<Lexeme>, pos: int, q: int)
    requires
        ends_once(ls),
        quantifiers_placed(ls),
        region(ls, pos, q),
    ensures
        parse_alt(ls, pos) matches Ok((_, r)) && r == q,
    decreases q - pos, 2nat,
{
    let s = lemma_seq_complete(ls, pos, q);
    if ls[s] is Alternation {
        assert(s < q);
        assert(!(ls[s + 1] is Quantifier));
        assert(balance(ls, s, s + 1) == 0) by {
            assert(balance(ls, s, s) == 0);
        }
        lemma_balance_split(ls, pos, s, s + 1);
        lemma_region_shift(ls, pos, s + 1, q);
        lemma_alt_complete(ls, s + 1, q);
    } else {
        if s < q {
            assert(!(ls[s] is EOF));
            assert(ls[s] is GroupEnd);
        }
    }
}

proof fn lemma_seq_complete(ls: Seq<Lexeme>, pos: int, q: int) -> (s: int)
    requires
        ends_once(ls),
        quantifiers_placed(ls),
        region(ls, pos, q),
    ensures
        pos <= s <= q,
        balance(ls, pos, s) == 0,
        ls[s] is Alternation || ls[s] is GroupEnd || ls[s] is EOF,
        parse_seq(ls, pos) matches Ok((_, r)) && r == s,
    decreases q - pos, 1nat,
{
    if ls[pos] is Alternation || ls[pos] is GroupEnd || ls[pos] is EOF {
        assert(balance(ls, pos, pos) == 0);
        pos
    } else {
        assert(pos < q);
        assert(balance(ls, pos, pos) == 0);
        assert(balance(ls, pos, pos + 1) == paren_weight(ls[pos]));
        let p1: int = if ls[pos] is GroupStart {
            let k = lemma_first_zero(ls, pos, pos + 1, q);
            let j = k - 1;
            assert(k != pos + 1);
            assert(balance(ls, pos, j) >= 1);
            assert(ls[j] is GroupEnd);
            assert(balance(ls, pos, pos + 1) == 1);
            lemma_balance_split(ls, pos, pos + 1, j);
            assert forall|m: int| pos + 1 <= m <= j implies #[trigger] balance(ls, pos + 1, m) >= 0 by {
                lemma_balance_split(ls, pos, pos + 1, m);
                assert(balance(ls, pos, m) >= 0);
            }
            assert forall|m: int| pos + 1 <= m < j && #[trigger] ls[m] is GroupEnd implies balance(ls, pos + 1, m) != 0 by {
                lemma_balance_split(ls, pos, pos + 1, m);
                if balance(ls, pos + 1, m) == 0 {
                    assert(balance(ls, pos, m + 1) == balance(ls, pos, m) - 1);
                    assert(balance(ls, pos, m + 1) != 0);
                }
            }
            assert(!(ls[pos + 1] is Quantifier));
            assert(region(ls, pos + 1, j));
            lemma_alt_complete(ls, pos + 1, j);
            k
        } else {
            assert(is_simple(ls[pos]));
            pos + 1
        };
        assert(parse_atom(ls, pos) matches Ok((_, r)) && r == p1);
        assert(balance(ls, pos, p1) == 0);
        assert(p1 <= q);
        let a = parse_atom(ls, pos)->Ok_0.0;
        let p2 = quantify(ls, a, p1).1;
        if ls[p1] is Quantifier {
            assert(p1 < q);
            assert(p2 == p1 + 1);
            assert(balance(ls, p1, p1) == 0);
            assert(balance(ls, p1, p1 + 1) == 0);
            lemma_balance_split(ls, pos, p1, p1 + 1);
            assert(!(ls[p2] is Quantifier));
        } else {
            assert(p2 == p1);
        }
        lemma_region_shift(ls, pos, p2, q);
        let s = lemma_seq_complete(ls, p2, q);
        lemma_balance_split(ls, pos, p2, s);
        s
    }
}

/// Every pattern whose tokens have matched parentheses and no quantifier
/// without an operand compiles.
pub proof fn lemma_well_formed_compiles(p: Seq<char>)
    requires
        well_formed(lex(p)),
    ensures
        compiled(p) is Ok,
{
    let ls = lex(p);
    lemma_lex_end(p, 0);
    let n = ls.len() - 1;
    assert(balance(ls, 0, n + 1) == balance(ls, 0, n) + paren_weight(ls[n]));
    assert(balance(ls, 0, n) == 0);
    assert forall|j: int| 0 <= j < n && #[trigger] ls[j] is GroupEnd implies balance(ls, 0, j) != 0 by {
        assert(balance(ls, 0, j + 1) >= 0);
    }
    assert(forall|j: int| 0 <= j <= n ==> #[trigger] balance(ls, 0, j) >= 0);
    assert(region(ls, 0, n));
    lemma_alt_complete(ls, 0, n);
}


/// `f` works position by position: what it reaches from a set of start
/// positions is what it reaches from each of them alone.
pub open spec fn distributes(f: spec_fn(Seq<bool>) -> Seq<bool>, t: Seq<char>) -> bool {
    &&& forall|from: Seq<bool>|
        from.len() == t.len() + 1 ==> (#[trigger] f(from)).len() == from.len()
    &&& forall|from: Seq<bool>, e: int|
        from.len() == t.len() + 1 && 0 <= e <= t.len() ==> (#[trigger] f(from)[e] == exists|s: int|
            0 <= s <= t.len() && from[s] && #[trigger] f(single_position(t, s))[e])
}

proof fn lemma_identity_distributes(t: Seq<char>)
    ensures
        distributes(|x: Seq<bool>| x, t),
{
    let f = |x: Seq<bool>| x;
    assert forall|from: Seq<bool>, e: int| from.len() == t.len() + 1 && 0 <= e <= t.len() implies
        (#[trigger] f(from)[e] == exists|s: int|
            0 <= s <= t.len() && from[s] && #[trigger] f(single_position(t, s))[e]) by {
        if 0 <= e <= t.len() && from[e] {
            assert(f(single_position(t, e))[e]);
        }
    }
}

proof fn lemma_compose_distributes(
    f: spec_fn(Seq<bool>) -> Seq<bool>,
    g: spec_fn(Seq<bool>) -> Seq<bool>,
    t: Seq<char>,
)
    requires
        distributes(f, t),
        distributes(g, t),
    ensures
        distributes(|x: Seq<bool>| g(f(x)), t),
{
    let h = |x: Seq<bool>| g(f(x));
    assert forall|from: Seq<bool>, e: int| from.len() == t.len() + 1 && 0 <= e <= t.len() implies
        (#[trigger] h(from)[e] == exists|s: int|
            0 <= s <= t.len() && from[s] && #[trigger] h(single_position(t, s))[e]) by {
        let mid = f(from);
        assert(mid.len() == from.len());
        assert(g(mid).len() == mid.len());
        if 0 <= e <= t.len() {
            if h(from)[e] {
                assert(g(mid)[e]);
                let m = choose|m: int| 0 <= m <= t.len() && mid[m] && #[trigger] g(single_position(t, m))[e];
                assert(f(from)[m]);
                let s = choose|s: int| 0 <= s <= t.len() && from[s] && #[trigger] f(single_position(t, s))[m];
                let one = f(single_position(t, s));
                assert(single_position(t, s).len() == t.len() + 1);
                assert(one.len() == t.len() + 1);
                assert(one[m] && g(single_position(t, m))[e]);
                assert(g(one)[e]);
                assert(h(single_position(t, s))[e]);
            }
            if exists|s: int| 0 <= s <= t.len() && from[s] && #[trigger] h(single_position(t, s))[e] {
                let s = choose|s: int| 0 <= s <= t.len() && from[s] && #[trigger] h(single_position(t, s))[e];
                let one = f(single_position(t, s));
                assert(single_position(t, s).len() == t.len() + 1);
                assert(g(one)[e]);
                let m = choose|m: int| 0 <= m <= t.len() && one[m] && #[trigger] g(single_position(t, m))[e];
                assert(f(single_position(t, s))[m]);
                assert(mid[m]);
                assert(g(mid)[e]);
            }
        }
    }
}

proof fn lemma_union_distributes(
    f: spec_fn(Seq<bool>) -> Seq<bool>,
    g: spec_fn(Seq<bool>) -> Seq<bool>,
    t: Seq<char>,
)
    requires
        distributes(f, t),
        distributes(g, t),
    ensures
        distributes(|x: Seq<bool>| union(f(x), g(x)), t),
{
    let h = |x: Seq<bool>| union(f(x), g(x));
    assert forall|from: Seq<bool>, e: int| from.len() == t.len() + 1 && 0 <= e <= t.len() implies
        (#[trigger] h(from)[e] == exists|s: int|
            0 <= s <= t.len() && from[s] && #[trigger] h(single_position(t, s))[e]) by {
        assert(f(from).len() == from.len());
        if 0 <= e <= t.len() {
            if f(from)[e] {
                let s = choose|s: int| 0 <= s <= t.len() && from[s] && #[trigger] f(single_position(t, s))[e];
                assert(f(single_position(t, s)).len() == t.len() + 1);
                assert(h(single_position(t, s))[e]);
            }
            if g(from)[e] {
                let s = choose|s: int| 0 <= s <= t.len() && from[s] && #[trigger] g(single_position(t, s))[e];
                assert(f(single_position(t, s)).len() == t.len() + 1);
                assert(h(single_position(t, s))[e]);
            }
            if exists|s: int| 0 <= s <= t.len() && from[s] && #[trigger] h(single_position(t, s))[e] {
                let s = choose|s: int| 0 <= s <= t.len() && from[s] && #[trigger] h(single_position(t, s))[e];
                assert(f(single_position(t, s)).len() == t.len() + 1);
                assert(f(single_position(t, s))[e] || g(single_position(t, s))[e]);
                if f(single_position(t, s))[e] {
                    assert(f(from)[e]);
                } else {
                    assert(g(from)[e]);
                }
            }
        }
    }
}


proof fn lemma_same_distributes(
    f: spec_fn(Seq<bool>) -> Seq<bool>,
    g: spec_fn(Seq<bool>) -> Seq<bool>,
    t: Seq<char>,
)
    requires
        distributes(f, t),
        forall|x: Seq<bool>| #[trigger] g(x) == f(x),
    ensures
        distributes(g, t),
{
    assert forall|from: Seq<bool>, e: int| from.len() == t.len() + 1 && 0 <= e <= t.len() implies
        (#[trigger] g(from)[e] == exists|s: int|
            0 <= s <= t.len() && from[s] && #[trigger] g(single_position(t, s))[e]) by {
        assert(g(from) == f(from));
        if exists|s: int| 0 <= s <= t.len() && from[s] && #[trigger] g(single_position(t, s))[e] {
            let s = choose|s: int| 0 <= s <= t.len() && from[s] && #[trigger] g(single_position(t, s))[e];
            assert(g(single_position(t, s)) == f(single_position(t, s)));
        }
        if f(from)[e] {
            let s = choose|s: int| 0 <= s <= t.len() && from[s] && #[trigger] f(single_position(t, s))[e];
            assert(g(single_position(t, s)) == f(single_position(t, s)));
        }
    }
    assert forall|from: Seq<bool>| from.len() == t.len() + 1 implies (#[trigger] g(from)).len() == from.len() by {
        assert(g(from) == f(from));
    }
}

proof fn lemma_after_distributes(r: Regex, t: Seq<char>)
    ensures
        distributes(|x: Seq<bool>| after(r, t, x), t),
    decreases r, 0nat,
{
    let f = |x: Seq<bool>| after(r, t, x);
    match r {
        Regex::Char(_) | Regex::Any | Regex::Class(_) | Regex::Bracket(_, _) | Regex::Start | Regex::End => {
            assert forall|from: Seq<bool>, e: int| from.len() == t.len() + 1 && 0 <= e <= t.len() implies
                (#[trigger] f(from)[e] == exists|s: int|
                    0 <= s <= t.len() && from[s] && #[trigger] f(single_position(t, s))[e]) by {
                let w: int = if r is Start { 0 } else if r is End { t.len() as int } else { e - 1 };
                if f(from)[e] {
                    assert(f(single_position(t, w))[e]);
                }
                if exists|s: int| 0 <= s <= t.len() && from[s] && #[trigger] f(single_position(t, s))[e] {
                    let s = choose|s: int| 0 <= s <= t.len() && from[s] && #[trigger] f(single_position(t, s))[e];
                    assert(s == w);
                }
            }
        },
        Regex::Group(rs) => {
            lemma_seq_distributes(rs, t);
            lemma_same_distributes(|x: Seq<bool>| after_seq(rs, t, x), f, t);
        },
        Regex::Alt(l, rr) => {
            lemma_seq_distributes(l, t);
            lemma_seq_distributes(rr, t);
            let fl = |x: Seq<bool>| after_seq(l, t, x);
            let fr = |x: Seq<bool>| after_seq(rr, t, x);
            lemma_union_distributes(fl, fr, t);
            lemma_same_distributes(|x: Seq<bool>| union(fl(x), fr(x)), f, t);
        },
        Regex::Repeat(b, q) => {
            lemma_after_distributes(*b, t);
            let fb = |x: Seq<bool>| after(*b, t, x);
            match q {
                Quantifier::ZeroOrOne => {
                    lemma_identity_distributes(t);
                    let id = |x: Seq<bool>| x;
                    lemma_union_distributes(id, fb, t);
                    lemma_same_distributes(|x: Seq<bool>| union(id(x), fb(x)), f, t);
                },
                Quantifier::ZeroOrMore => {
                    lemma_star_distributes(*b, t, (t.len() + 1) as nat);
                    lemma_same_distributes(|x: Seq<bool>| star(*b, t, x, (t.len() + 1) as nat), f, t);
                },
                Quantifier::OneOrMore => {
                    lemma_star_distributes(*b, t, t.len());
                    let fs = |x: Seq<bool>| star(*b, t, x, t.len());
                    lemma_compose_distributes(fs, fb, t);
                    lemma_same_distributes(|x: Seq<bool>| fb(fs(x)), f, t);
                },
            }
        },
    }
}

proof fn lemma_seq_distributes(rs: Seq<Regex>, t: Seq<char>)
    ensures
        distributes(|x: Seq<bool>| after_seq(rs, t, x), t),
    decreases rs, 0nat,
{
    let f = |x: Seq<bool>| after_seq(rs, t, x);
    if rs.len() == 0 {
        lemma_identity_distributes(t);
        lemma_same_distributes(|x: Seq<bool>| x, f, t);
    } else {
        lemma_seq_distributes(rs.drop_last(), t);
        lemma_after_distributes(rs.last(), t);
        let fa = |x: Seq<bool>| after_seq(rs.drop_last(), t, x);
        let fb = |x: Seq<bool>| after(rs.last(), t, x);
        lemma_compose_distributes(fa, fb, t);
        lemma_same_distributes(|x: Seq<bool>| fb(fa(x)), f, t);
    }
}

proof fn lemma_star_distributes(b: Regex, t: Seq<char>, k: nat)
    ensures
        distributes(|x: Seq<bool>| star(b, t, x, k), t),
    decreases b, k + 1,
{
    let f = |x: Seq<bool>| star(b, t, x, k);
    lemma_identity_distributes(t);
    let id = |x: Seq<bool>| x;
    if k == 0 {
        lemma_same_distributes(id, f, t);
    } else {
        lemma_star_distributes(b, t, (k - 1) as nat);
        lemma_after_distributes(b, t);
        let fs = |x: Seq<bool>| star(b, t, x, (k - 1) as nat);
        let fb = |x: Seq<bool>| after(b, t, x);
        lemma_compose_distributes(fs, fb, t);
        let g = |x: Seq<bool>| fb(fs(x));
        lemma_union_distributes(id, g, t);
        lemma_same_distributes(|x: Seq<bool>| union(id(x), g(x)), f, t);
    }
}

/// The pattern matches somewhere in the text exactly when it matches some
/// span of it: the answer of the boolean search and the existence of a
/// span agree.
pub proof fn lemma_search_spans(rs: Seq<Regex>, t: Seq<char>)
    ensures
        search(rs, t) == exists|s: int, e: int| #[trigger] matches_span(rs, t, s, e),
{
    lemma_seq_distributes(rs, t);
    let f = |x: Seq<bool>| after_seq(rs, t, x);
    let every = every_position(t);
    if search(rs, t) {
        let e = choose|e: int| 0 <= e <= t.len() && #[trigger] after_seq(rs, t, every_position(t))[e];
        assert(f(every)[e]);
        let s = choose|s: int| 0 <= s <= t.len() && every[s] && #[trigger] f(single_position(t, s))[e];
        assert(matches_span(rs, t, s, e));
    }
    if exists|s: int, e: int| #[trigger] matches_span(rs, t, s, e) {
        let (s, e) = choose|s: int, e: int| #[trigger] matches_span(rs, t, s, e);
        assert(f(single_position(t, s))[e]);
        assert(every[s]);
        assert(f(every)[e]);
    }
}


/// A pattern compiles exactly when its tokens are well formed: its
/// parentheses match and every quantifier follows an operand.
pub proof fn lemma_compiles_iff_well_formed(p: Seq<char>)
    ensures
        compiled(p) is Ok <==> well_formed(lex(p)),
{
    let ls = lex(p);
    if well_formed(ls) {
        lemma_well_formed_compiles(p);
    }
    if compiled(p) is Ok {
        lemma_alt_balanced(ls, 0);
        lemma_lex_end(p, 0);
        let q = parse_alt(ls, 0)->Ok_0.1;
        assert(q == ls.len() - 1);
        assert(balance(ls, 0, q + 1) == balance(ls, 0, q) + paren_weight(ls[q]));
        assert forall|j: int| 0 <= j <= ls.len() implies #[trigger] balance(ls, 0, j) >= 0 by {
            if j <= q {
                assert(balance(ls, 0, j) >= 0);
            }
        }
        assert forall|k: int| 0 <= k < ls.len() && #[trigger] ls[k] is Quantifier implies k > 0
            && operand_end(ls[k - 1]) by {
            assert(k < q);
        }
    }
}

} // verus!
