use vstd::prelude::*;
use crate::lexer::{ClassKind, Quantifier};
use crate::lexer::chars_of;
use crate::parser::{AstNode, Regex, nodes_view};

verus! {

broadcast use vstd::std_specs::vec::group_vec_axioms, vstd::seq::group_seq_axioms;

/// An ASCII digit.
pub open spec fn is_digit(c: char) -> bool {
    '0' as u32 <= c as u32 <= '9' as u32
}

/// An ASCII letter or digit, or `_`.
pub open spec fn is_word(c: char) -> bool {
    ||| is_digit(c)
    ||| 'a' as u32 <= c as u32 <= 'z' as u32
    ||| 'A' as u32 <= c as u32 <= 'Z' as u32
    ||| c == '_'
}

/// ASCII whitespace: space, tab, line feed, form feed, carriage return.
pub open spec fn is_space(c: char) -> bool {
    c == ' ' || c == '\t' || c == '\n' || c == '\x0C' || c == '\r'
}

pub open spec fn class_has(k: ClassKind, c: char) -> bool {
    match k {
        ClassKind::Digit => is_digit(c),
        ClassKind::Word => is_word(c),
        ClassKind::Space => is_space(c),
    }
}

/// Whether a node that consumes one character accepts `c`.
pub open spec fn char_ok(r: Regex, c: char) -> bool {
    match r {
        Regex::Char(x) => c == x,
        Regex::Any => true,
        Regex::Class(k) => class_has(k, c),
        Regex::Bracket(negated, cs) => cs.contains(c) != negated,
        _ => false,
    }
}

/// Positions that are in `a` or in `b`.
pub open spec fn union(a: Seq<bool>, b: Seq<bool>) -> Seq<bool> {
    Seq::new(a.len(), |j: int| a[j] || b[j])
}

/// A set of positions in `t` (`0..=t.len()`), as a membership sequence.
pub open spec fn is_position_set(t: Seq<char>, s: Seq<bool>) -> bool {
    s.len() == t.len() + 1
}

/// Every position of `t`.
pub open spec fn every_position(t: Seq<char>) -> Seq<bool> {
    Seq::new((t.len() + 1) as nat, |j: int| true)
}

/// The positions at which a match of `r` can end in `t`, given the positions
/// `from` at which it may start. Literals, wildcards, classes and brackets
/// consume one character; anchors consume none and hold only at the start or
/// the end of `t`; a group matches its nodes one after another; an
/// alternation matches either branch; a quantifier admits every number of
/// repetitions in its range, with full backtracking.
pub open spec fn after(r: Regex, t: Seq<char>, from: Seq<bool>) -> Seq<bool>
    decreases r, 0nat,
{
    match r {
        Regex::Char(_) | Regex::Any | Regex::Class(_) | Regex::Bracket(_, _) => Seq::new(
            from.len(),
            |j: int| 1 <= j <= t.len() && from[j - 1] && char_ok(r, t[j - 1]),
        ),
        Regex::Start => Seq::new(from.len(), |j: int| j == 0 && from[0]),
        Regex::End => Seq::new(from.len(), |j: int| j == t.len() && from[j]),
        Regex::Group(rs) => after_seq(rs, t, from),
        Regex::Alt(l, rr) => union(after_seq(l, t, from), after_seq(rr, t, from)),
        Regex::Repeat(b, q) => match q {
            Quantifier::ZeroOrOne => union(from, after(*b, t, from)),
            Quantifier::ZeroOrMore => star(*b, t, from, (t.len() + 1) as nat),
            Quantifier::OneOrMore => after(*b, t, star(*b, t, from, t.len())),
        },
    }
}

/// The end positions of the nodes of `rs` matched one after another.
pub open spec fn after_seq(rs: Seq<Regex>, t: Seq<char>, from: Seq<bool>) -> Seq<bool>
    decreases rs, 0nat,
{
    if rs.len() == 0 {
        from
    } else {
        after(rs.last(), t, after_seq(rs.drop_last(), t, from))
    }
}

/// The end positions of at most `k` repetitions of `b`. Since a match has at
/// most `t.len() + 1` distinct positions, `k = t.len() + 1` already gives
/// every position that any number of repetitions reaches.
pub open spec fn star(b: Regex, t: Seq<char>, from: Seq<bool>, k: nat) -> Seq<bool>
    decreases b, k + 1,
{
    if k == 0 {
        from
    } else {
        union(from, after(b, t, star(b, t, from, (k - 1) as nat)))
    }
}

/// The pattern `rs` matches `t` from some start position to some end position.
pub open spec fn search(rs: Seq<Regex>, t: Seq<char>) -> bool {
    exists|j: int| 0 <= j <= t.len() && #[trigger] after_seq(rs, t, every_position(t))[j]
}

fn union_of(a: &Vec<bool>, b: &Vec<bool>) -> (r: Vec<bool>)
    requires
        a.len() == b.len(),
    ensures
        r@ == union(a@, b@),
{
    let mut r: Vec<bool> = Vec::new();
    let mut j: usize = 0;
    while j < a.len()
        invariant
            a.len() == b.len(),
            j <= a.len(),
            r@ =~= union(a@, b@).subrange(0, j as int),
        decreases a.len() - j,
    {
        r.push(a[j] || b[j]);
        j += 1;
    }
    assert(r@ =~= union(a@, b@));
    r
}

/// Whether `c` is an ASCII digit.
pub fn match_digit(c: char) -> (r: bool)
    ensures
        r == is_digit(c),
{
    '0' as u32 <= c as u32 && c as u32 <= '9' as u32
}

/// Whether `c` is an ASCII letter or digit, or `_`.
pub fn match_alphanumeric(c: char) -> (r: bool)
    ensures
        r == is_word(c),
{
    match_digit(c) || ('a' as u32 <= c as u32 && c as u32 <= 'z' as u32) || ('A' as u32 <= c as u32
        && c as u32 <= 'Z' as u32) || c == '_'
}

/// Whether `c` is ASCII whitespace.
pub fn match_whitespace(c: char) -> (r: bool)
    ensures
        r == is_space(c),
{
    c == ' ' || c == '\t' || c == '\n' || c == '\x0C' || c == '\r'
}

/// Whether `c` is in the bracket with members `cs`, negated or not.
pub fn match_bracket_class(negated: bool, cs: &Vec<char>, c: char) -> (r: bool)
    ensures
        r == (cs@.contains(c) != negated),
{
    let mut found = false;
    let mut k: usize = 0;
    while k < cs.len()
        invariant
            k <= cs.len(),
            found == exists|m: int| 0 <= m < k && cs@[m] == c,
        decreases cs.len() - k,
    {
        if cs[k] == c {
            found = true;
        }
        k += 1;
    }
    proof {
        if cs@.contains(c) {
            let m = choose|m: int| 0 <= m < cs@.len() && cs@[m] == c;
            assert(0 <= m < k && cs@[m] == c);
        }
    }
    found != negated
}

/// Whether a one-character node accepts `c`.
fn match_single(node: &AstNode, c: char) -> (r: bool)
    ensures
        r == char_ok(node.view(), c),
{
    match node {
        AstNode::Literal(x) => c == *x,
        AstNode::Wildcard => true,
        AstNode::Class(ClassKind::Digit) => match_digit(c),
        AstNode::Class(ClassKind::Word) => match_alphanumeric(c),
        AstNode::Class(ClassKind::Space) => match_whitespace(c),
        AstNode::Bracket(negated, cs) => match_bracket_class(*negated, cs, c),
        _ => false,
    }
}

/// The end positions of a one-character node.
fn match_literal(node: &AstNode, t: &Vec<char>, from: &Vec<bool>) -> (r: Vec<bool>)
    requires
        is_position_set(t@, from@),
        node is Literal || node is Wildcard || node is Class || node is Bracket,
    ensures
        r@ == after(node.view(), t@, from@),
{
    let mut r: Vec<bool> = Vec::new();
    r.push(false);
    let mut j: usize = 1;
    while j < from.len()
        invariant
            is_position_set(t@, from@),
            node is Literal || node is Wildcard || node is Class || node is Bracket,
            1 <= j <= from.len(),
            r@ =~= after(node.view(), t@, from@).subrange(0, j as int),
        decreases from.len() - j,
    {
        r.push(from[j - 1] && match_single(node, t[j - 1]));
        j += 1;
    }
    assert(r@ =~= after(node.view(), t@, from@));
    r
}

/// The end positions of a zero-width node: only `at` can be one, if `from` has it.
fn match_anchor(from: &Vec<bool>, at: usize) -> (r: Vec<bool>)
    requires
        at < from.len(),
    ensures
        r@ == Seq::new(from@.len(), |j: int| j == at && from@[j]),
{
    let mut r: Vec<bool> = Vec::new();
    let mut j: usize = 0;
    while j < from.len()
        invariant
            at < from.len(),
            j <= from.len(),
            r@ =~= Seq::new(from@.len(), |j: int| j == at && from@[j]).subrange(0, j as int),
        decreases from.len() - j,
    {
        r.push(j == at && from[j]);
        j += 1;
    }
    assert(r@ =~= Seq::new(from@.len(), |j: int| j == at && from@[j]));
    r
}

/// The end positions of at most `k` repetitions of `b`.
fn match_star(b: &AstNode, t: &Vec<char>, from: &Vec<bool>, k: usize) -> (r: Vec<bool>)
    requires
        is_position_set(t@, from@),
    ensures
        r@ == star(b.view(), t@, from@, k as nat),
    decreases b, 2nat,
{
    let mut acc: Vec<bool> = union_of(from, from);
    assert(acc@ =~= from@);
    let mut i: usize = 0;
    while i < k
        invariant
            is_position_set(t@, from@),
            i <= k,
            acc@ == star(b.view(), t@, from@, i as nat),
            acc@.len() == from@.len(),
        decreases k - i,
    {
        let next = match_node(b, t, &acc);
        acc = union_of(from, &next);
        i += 1;
    }
    acc
}

/// The end positions of `node`, given its start positions `from`.
pub fn match_ast_node(node: &AstNode, t: &Vec<char>, from: &Vec<bool>) -> (r: Vec<bool>)
    requires
        is_position_set(t@, from@),
    ensures
        r@ == after(node.view(), t@, from@),
{
    match_node(node, t, from)
}

fn match_node(node: &AstNode, t: &Vec<char>, from: &Vec<bool>) -> (r: Vec<bool>)
    requires
        is_position_set(t@, from@),
    ensures
        r@ == after(node.view(), t@, from@),
        r@.len() == from@.len(),
    decreases node, 1nat,
{
    match node {
        AstNode::Literal(_) | AstNode::Wildcard | AstNode::Class(_) | AstNode::Bracket(_, _) => {
            match_literal(node, t, from)
        },
        AstNode::StartAnchor => match_anchor(from, 0),
        AstNode::EndAnchor => match_anchor(from, t.len()),
        AstNode::Group(v) => match_seq(v, t, from),
        AstNode::Alternation(l, rr) => {
            let a = match_seq(l, t, from);
            let b = match_seq(rr, t, from);
            union_of(&a, &b)
        },
        AstNode::Repetition(b, q) => match q {
            Quantifier::ZeroOrOne => {
                let once = match_node(b, t, from);
                union_of(from, &once)
            },
            Quantifier::ZeroOrMore => match_star(b, t, from, from.len()),
            Quantifier::OneOrMore => {
                let most = match_star(b, t, from, t.len());
                match_node(b, t, &most)
            },
        },
    }
}

/// The end positions of the nodes of `nodes` matched one after another.
fn match_seq(nodes: &Vec<AstNode>, t: &Vec<char>, from: &Vec<bool>) -> (r: Vec<bool>)
    requires
        is_position_set(t@, from@),
    ensures
        r@ == after_seq(nodes_view(nodes@), t@, from@),
        r@.len() == from@.len(),
    decreases nodes, 0nat,
{
    let mut cur: Vec<bool> = union_of(from, from);
    assert(cur@ =~= from@);
    assert(nodes@.subrange(0, 0) =~= Seq::<AstNode>::empty());
    let mut k: usize = 0;
    while k < nodes.len()
        invariant
            is_position_set(t@, from@),
            k <= nodes.len(),
            cur@ == after_seq(nodes_view(nodes@.subrange(0, k as int)), t@, from@),
            cur@.len() == from@.len(),
        decreases nodes.len() - k,
    {
        let next = match_node(&nodes[k], t, &cur);
        proof {
            let s = nodes@.subrange(0, k + 1);
            assert(s.drop_last() =~= nodes@.subrange(0, k as int));
            assert(nodes_view(s).drop_last() =~= nodes_view(nodes@.subrange(0, k as int)));
        }
        cur = next;
        k += 1;
    }
    assert(nodes@.subrange(0, nodes.len() as int) =~= nodes@);
    cur
}

/// Whether the compiled pattern `ast` matches somewhere in `text`.
pub fn match_pattern(ast: &Vec<AstNode>, text: &str) -> (r: bool)
    requires
        text@.len() < usize::MAX,
    ensures
        r == search(nodes_view(ast@), text@),
{
    let t = chars_of(text);
    let mut all: Vec<bool> = Vec::new();
    let mut j: usize = 0;
    while j <= t.len()
        invariant
            t.len() < usize::MAX,
            j <= t.len() + 1,
            all@ =~= every_position(t@).subrange(0, j as int),
        decreases t.len() + 1 - j,
    {
        all.push(true);
        j += 1;
    }
    assert(all@ =~= every_position(t@));
    let ends = match_seq(ast, &t, &all);
    let mut k: usize = 0;
    while k < ends.len()
        invariant
            ends@ == after_seq(nodes_view(ast@), t@, every_position(t@)),
            ends@.len() == t@.len() + 1,
            t@ == text@,
            k <= ends.len(),
            forall|m: int| 0 <= m < k ==> !ends@[m],
        decreases ends.len() - k,
    {
        if ends[k] {
            assert(0 <= k <= text@.len() && after_seq(nodes_view(ast@), text@, every_position(text@))[k as int]);
            return true;
        }
        k += 1;
    }
    false
}


/// Only position `s` of `t`.
pub open spec fn single_position(t: Seq<char>, s: int) -> Seq<bool> {
    Seq::new((t.len() + 1) as nat, |j: int| j == s)
}

/// The pattern `rs` matches the characters of `t` from `s` up to `e`.
pub open spec fn matches_span(rs: Seq<Regex>, t: Seq<char>, s: int, e: int) -> bool {
    0 <= s <= t.len() && 0 <= e <= t.len() && after_seq(rs, t, single_position(t, s))[e]
}

/// The leftmost match of `ast` in `text`, and of those the longest, as the
/// indices (in characters) where it starts and ends.
pub fn find_match(ast: &Vec<AstNode>, text: &str) -> (r: Option<(usize, usize)>)
    requires
        text@.len() < usize::MAX,
    ensures
        match r {
            None => forall|s: int, e: int| !matches_span(nodes_view(ast@), text@, s, e),
            Some((s, e)) => {
                &&& matches_span(nodes_view(ast@), text@, s as int, e as int)
                &&& forall|s2: int, e2: int|
                    s2 < s ==> !matches_span(nodes_view(ast@), text@, s2, e2)
                &&& forall|e2: int| e2 > e ==> !matches_span(nodes_view(ast@), text@, s as int, e2)
            },
        },
{
    let t = chars_of(text);
    let n = t.len();
    let mut s: usize = 0;
    while s <= n
        invariant
            n == t@.len(),
            t@ == text@,
            n < usize::MAX,
            s <= n + 1,
            forall|s2: int, e2: int| s2 < s ==> !matches_span(nodes_view(ast@), text@, s2, e2),
        decreases n + 1 - s,
    {
        let mut from: Vec<bool> = Vec::new();
        let mut j: usize = 0;
        while j <= n
            invariant
                n == t@.len(),
                n < usize::MAX,
                j <= n + 1,
                from@ =~= single_position(t@, s as int).subrange(0, j as int),
            decreases n + 1 - j,
        {
            from.push(j == s);
            j += 1;
        }
        assert(from@ =~= single_position(t@, s as int));
        let ends = match_seq(ast, &t, &from);
        let mut e: usize = n + 1;
        while e > 0
            invariant
                ends@ == after_seq(nodes_view(ast@), t@, single_position(t@, s as int)),
                ends@.len() == n + 1,
                n == t@.len(),
                t@ == text@,
                e <= n + 1,
                s <= n,
                forall|e2: int| e2 >= e ==> !matches_span(nodes_view(ast@), text@, s as int, e2),
                forall|s2: int, e2: int| s2 < s ==> !matches_span(nodes_view(ast@), text@, s2, e2),
            decreases e,
        {
            if ends[e - 1] {
                return Some((s, e - 1));
            }
            e -= 1;
        }
        s += 1;
    }
    None
}

} // verus!
