use regex_nfa::nfa::compile_pattern;
use regex_nfa::nfa::re2post;
use regex_nfa::nfa::NFAGraph;

#[test]
fn plus_patterns_whole_string() {
    let graph = NFAGraph::new("a+b+");
    assert_eq!(graph.is_match("aaaabbb"), true);
    assert_eq!(graph.is_match("ab"), true);
    assert_eq!(graph.is_match("a"), false);
    assert_eq!(graph.is_match(""), false);
}

#[test]
fn star_group_pattern() {
    let graph = NFAGraph::new("a(b|c)*");
    assert_eq!(graph.is_match("abbcbbcc"), true);
    assert_eq!(graph.is_match("a"), true);
    assert_eq!(graph.is_match("bcbbcc"), false);
    assert_eq!(graph.is_match(""), false);
}

#[test]
fn state_counts() {
    let graph = compile_pattern("a+b+").unwrap();
    assert_eq!(graph.states.len(), 8);
    let graph = compile_pattern("a(b|c)*").unwrap();
    assert_eq!(graph.states.len(), 10);
}

#[test]
fn empty_input_never_matches() {
    assert_eq!(NFAGraph::new("a").is_match(""), false);
    assert_eq!(NFAGraph::new("a|b").is_match(""), false);
    assert_eq!(NFAGraph::new("(ab)+").is_match(""), false);
}

#[test]
fn malformed_patterns_are_rejected() {
    // trailing alternation with no right operand
    assert!(re2post("a|").is_none());
    // unclosed group
    assert!(re2post("(a").is_none());
    // unmatched closing parenthesis
    assert!(re2post(")").is_none());
    assert!(re2post("a)").is_none());
    // empty group, and empty alternation branch
    assert!(re2post("()").is_none());
    assert!(re2post("(|a)").is_none());
    assert!(re2post("a||b").is_none());
    // repetition operator with no operand
    assert!(re2post("*a").is_none());
    assert!(re2post("+").is_none());
    assert!(re2post("(?a)").is_none());
    // characters outside the grammar
    assert!(re2post("a-b").is_none());
    assert!(re2post("a b").is_none());
    assert!(re2post("a.b").is_none());
    assert!(compile_pattern("a|").is_none());
}

#[test]
fn alternation_and_nesting() {
    assert_eq!(re2post("ab").unwrap(), "ab.");
    assert_eq!(re2post("a|b").unwrap(), "ab|");
    assert_eq!(re2post("(a)(b)").unwrap(), "ab.");
    assert_eq!(re2post("a(b(c|d))").unwrap(), "abcd|..");
    assert_eq!(re2post("").unwrap(), "");
    let graph = NFAGraph::new("a|b");
    assert_eq!(graph.is_match("a"), true);
    assert_eq!(graph.is_match("b"), true);
    assert_eq!(graph.is_match("ab"), false);
}

#[test]
fn unicode_literals() {
    // literal characters are any alphanumeric code points
    assert_eq!(re2post("\u{3bb}a").unwrap(), "\u{3bb}a.");
    let graph = NFAGraph::new("\u{3bb}+");
    assert_eq!(graph.is_match("\u{3bb}\u{3bb}"), true);
    assert_eq!(graph.is_match("x"), false);
}

#[test]
fn edge_overwrite_quirk() {
    // A state's outgoing edges are keyed by destination, so the epsilon
    // bypass written by `?` or `*` overwrites a literal edge towards the
    // same state; such patterns match less than expected.
    let graph = NFAGraph::new("a*");
    assert_eq!(graph.is_match("a"), false);
    assert_eq!(graph.is_match(""), false);
    let graph = NFAGraph::new("a?b");
    assert_eq!(graph.is_match("b"), true);
    assert_eq!(graph.is_match("ab"), false);
}

#[test]
fn compile_pattern_reports_errors() {
    assert!(compile_pattern("(a").is_none());
    let g = compile_pattern("ab").unwrap();
    assert_eq!(g.is_match("ab"), true);
    assert_eq!(g.is_match("a"), false);
}
