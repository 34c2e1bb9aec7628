use regex_nfa::nfa::NFAGraph;

#[test]
pub fn lib_test_match() {
    {
        let pattern = "a+b+";
        let graph = NFAGraph::new(pattern);
        assert_eq!(graph.is_match("aaaabbb"), true);
        let pattern = "a(b|c)*";
        let graph = NFAGraph::new(pattern);
        assert_eq!(graph.is_match("abbcbbcc"), true);
        assert_eq!(graph.is_match("bcbbcc"), false);
    }
}
