use grep_engine::cli::{CliError, Config};
use grep_engine::lexer::{tokenize, ClassKind, Quantifier, Token};
use grep_engine::matcher::{find_match, match_pattern};
use grep_engine::parser::{AstNode, ParseError, Parser};
use grep_engine::{compile, is_match};

fn matches(pattern: &str, text: &str) -> bool {
    is_match(pattern, text).expect("pattern compiles")
}

#[test]
fn literal_in_word() {
    assert!(matches("a", "apple"));
    assert!(!matches("z", "apple"));
}

#[test]
fn digit_class_scenario() {
    assert!(matches("\\d", "apple123"));
    assert!(!matches("\\d", "apple"));
}

#[test]
fn negated_bracket_scenario() {
    assert!(!matches("[^abc]", "cab"));
    assert!(matches("[^abc]", "cabd"));
}

#[test]
fn start_anchor_scenario() {
    assert!(matches("^log", "log message"));
    assert!(!matches("^log", "a log message"));
}

#[test]
fn alternation_with_end_anchor_scenario() {
    assert!(matches("(cat|dog)$", "I like cat"));
    assert!(!matches("(cat|dog)$", "cat lover"));
}

#[test]
fn single_character_is_containment() {
    for t in ["", "x", "abc", "zzz", "hello world"] {
        for c in ['a', 'z', ' ', 'o'] {
            let p = c.to_string();
            assert_eq!(matches(&p, t), t.contains(c), "pattern {:?} text {:?}", p, t);
        }
    }
}

#[test]
fn word_class() {
    assert!(matches("\\w", "__"));
    assert!(matches("\\w", "$%a"));
    assert!(!matches("\\w", "$%^ &"));
}

#[test]
fn space_class_is_one_character() {
    assert!(matches("a\\sb", "a b"));
    assert!(!matches("a\\sb", "a  b"));
    assert!(!matches("a\\sb", "ab"));
}

#[test]
fn positive_bracket() {
    assert!(matches("[abc]", "xxbxx"));
    assert!(!matches("[abc]", "xyz"));
    assert!(!matches("[]", "anything"));
}

#[test]
fn anchors_on_both_ends() {
    assert!(matches("abc$", "xxabc"));
    assert!(!matches("abc$", "abcx"));
    assert!(matches("^abc$", "abc"));
    assert!(!matches("^abc$", "abcabc"));
    assert!(matches("$", ""));
    assert!(matches("^", "text"));
}

#[test]
fn one_or_more() {
    assert!(matches("a+", "aaab"));
    assert!(!matches("a+", "b"));
    assert!(matches("ca+t", "caaat"));
    assert!(!matches("ca+t", "ct"));
}

#[test]
fn one_or_more_backtracks() {
    assert!(matches("a+ab", "aaab"));
    assert!(matches("\\d+1", "12341"));
}

#[test]
fn zero_or_more_and_optional() {
    assert!(matches("ca*t", "ct"));
    assert!(matches("ca*t", "caaat"));
    assert!(matches("colou?r", "color"));
    assert!(matches("colou?r", "colour"));
    assert!(!matches("colou?r", "colouur"));
}

#[test]
fn wildcard() {
    assert!(matches("c.t", "cat"));
    assert!(!matches("c.t", "ct"));
    assert!(matches("^.$", "x"));
    assert!(!matches("^.$", ""));
}

#[test]
fn grouping_and_alternation() {
    assert!(matches("(cat|dog)", "I have a dog"));
    assert!(!matches("(cat|dog)", "I have a fish"));
    assert!(matches("a|b|c", "xxc"));
    assert!(matches("(ab)+c", "ababc"));
    assert!(matches("^(a|b)*$", "abba"));
    assert!(!matches("^(a|b)*$", "abca"));
}

#[test]
fn escaped_metacharacters() {
    assert!(matches("a\\.b", "a.b"));
    assert!(!matches("a\\.b", "axb"));
    assert!(matches("\\(", "f(x)"));
}

#[test]
fn parse_errors() {
    assert_eq!(is_match("*abc", "abc"), Err(ParseError::UnexpectedQuantifier));
    assert_eq!(is_match("(abc", "abc"), Err(ParseError::UnmatchedGroup));
    assert_eq!(is_match("abc)", "abc"), Err(ParseError::UnexpectedToken));
    assert_eq!(is_match("a**", "a"), Err(ParseError::UnexpectedQuantifier));
    assert_eq!(is_match("(+)", "a"), Err(ParseError::UnexpectedQuantifier));
}

#[test]
fn compile_twice_agrees() {
    let a = compile("(cat|dog)s?$").unwrap();
    let b = compile("(cat|dog)s?$").unwrap();
    for t in ["cats", "dog", "a dogs", "cat!", ""] {
        assert_eq!(match_pattern(&a, t), match_pattern(&b, t));
    }
}

#[test]
fn tokenizer_output() {
    let ts = tokenize("^a.(b|c)*\\d[^xy]$+?");
    assert_eq!(
        ts,
        vec![
            Token::StartAnchor,
            Token::Literal('a'),
            Token::Wildcard,
            Token::GroupStart,
            Token::Literal('b'),
            Token::Alternation,
            Token::Literal('c'),
            Token::GroupEnd,
            Token::Quantifier(Quantifier::ZeroOrMore),
            Token::Class(ClassKind::Digit),
            Token::Bracket(true, vec!['x', 'y']),
            Token::EndAnchor,
            Token::Quantifier(Quantifier::OneOrMore),
            Token::Quantifier(Quantifier::ZeroOrOne),
            Token::EOF,
        ]
    );
}

#[test]
fn tokenizer_unclosed_bracket_and_trailing_backslash() {
    assert_eq!(
        tokenize("[a\\"),
        vec![Token::Literal('['), Token::Literal('a'), Token::Literal('\\'), Token::EOF]
    );
    assert_eq!(tokenize(""), vec![Token::EOF]);
}

#[test]
fn parser_builds_alternation() {
    let mut p = Parser::new(tokenize("(a|b)"));
    let ast = p.parse().unwrap();
    assert_eq!(ast.len(), 1);
    match &ast[0] {
        AstNode::Group(inner) => {
            assert_eq!(inner.len(), 1);
            match &inner[0] {
                AstNode::Alternation(l, r) => {
                    assert_eq!(l.len(), 1);
                    assert_eq!(r.len(), 1);
                }
                other => panic!("unexpected node {:?}", other),
            }
        }
        other => panic!("unexpected node {:?}", other),
    }
}

#[test]
fn empty_pattern_matches_everything() {
    assert!(matches("", ""));
    assert!(matches("", "abc"));
}

#[test]
fn config_from_arguments() {
    let args = |v: &[&str]| v.iter().map(|s| s.to_string()).collect::<Vec<String>>();
    let c = Config::new(args(&["prog", "-E", "a+"])).ok().unwrap();
    assert_eq!(c.pattern, "a+");
    assert_eq!(Config::new(args(&["prog"])).err(), Some(CliError::MissingFlag));
    assert_eq!(Config::new(args(&["prog", "-G", "a"])).err(), Some(CliError::WrongFlag));
    assert_eq!(Config::new(args(&["prog", "-E"])).err(), Some(CliError::MissingPattern));
    assert_eq!(CliError::WrongFlag.message(), "Expected flag to be '-E'");
}

#[test]
fn one_or_more_consumes_maximal_run() {
    let ast = compile("a+").unwrap();
    assert_eq!(find_match(&ast, "aaab"), Some((0, 3)));
    assert_eq!(find_match(&ast, "b"), None);
    assert_eq!(find_match(&ast, "baab"), Some((1, 3)));
}

#[test]
fn find_match_is_leftmost_then_longest() {
    let ast = compile("(cat|dog)").unwrap();
    assert_eq!(find_match(&ast, "I have a dog"), Some((9, 12)));
    assert_eq!(find_match(&ast, "I have a fish"), None);
    let star = compile("a*").unwrap();
    assert_eq!(find_match(&star, "bbb"), Some((0, 0)));
    let anchored = compile("\\d+$").unwrap();
    assert_eq!(find_match(&anchored, "x12y345"), Some((4, 7)));
}

#[test]
fn unbalanced_parentheses_are_refused() {
    assert!(compile("(abc").is_err());
    assert!(compile("abc)").is_err());
    assert!(compile("(a))(").is_err());
    assert!(compile("((a)").is_err());
    assert!(compile("(a)(b)").is_ok());
    assert!(compile("\\(a").is_ok());
    assert!(compile("[(]a").is_ok());
}

#[test]
fn leading_quantifier_is_refused() {
    for p in ["*abc", "+", "?a", "+(a)"] {
        assert_eq!(compile(p).err(), Some(ParseError::UnexpectedQuantifier));
    }
}

#[test]
fn error_messages_are_descriptive() {
    assert_eq!(ParseError::UnmatchedGroup.message(), "Unmatched group: missing ')'");
    assert!(!ParseError::UnexpectedQuantifier.message().is_empty());
}

#[test]
fn misplaced_parentheses_and_quantifiers_are_refused() {
    assert_eq!(compile(")(").err(), Some(ParseError::UnexpectedToken));
    assert_eq!(compile("a|*b").err(), Some(ParseError::UnexpectedQuantifier));
    assert_eq!(compile("(*a)").err(), Some(ParseError::UnexpectedQuantifier));
    assert!(compile("(a|b)*c+d?").is_ok());
    assert!(compile("^$").is_ok());
}
