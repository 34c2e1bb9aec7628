use regex_nfa::nfa::re2post;
use regex_nfa::nfa::NFAGraph;
use regex_nfa::nfa::State;
use regex_nfa::nfa::Transition;

fn has_out(st: &State, to: usize, t: &Transition) -> bool {
    st.outs.iter().any(|(d, tr)| d.0 == to && tr == t)
}

#[test]
fn test_re_2_post() {
    assert_eq!("a+b+.", re2post("a+b+").unwrap_or_default());
    assert_eq!("azd.c.e||+b+.", re2post("(a|zdc|e)+b+").unwrap_or_default());
    assert_eq!("azd*.c+.e||+b+.", re2post("(a|zd*c+|e)+b+").unwrap_or_default());
}

#[test]
pub fn test_nfa() {
    let pattern = "a+b+";
    let post = re2post(pattern).unwrap_or_default();
    assert_eq!("a+b+.", post);
    let graph = NFAGraph::compile(&post);
    assert_eq!(graph.states.len(), 8);
    {
        let st = &graph.states[1];
        assert_eq!(st.outs.len(), 2);
        assert!(has_out(st, 0, &Transition::Epsilon));
        assert!(has_out(st, 3, &Transition::Epsilon));
    }
    {
        let st = &graph.states[5];
        assert_eq!(st.outs.len(), 2);
        assert!(has_out(st, 4, &Transition::Epsilon));
        assert!(has_out(st, 7, &Transition::Epsilon));
    }

    let pattern = "a(b|c)*";
    let post = re2post(pattern).unwrap_or_default();
    assert_eq!("abc|*.", post);
    let graph = NFAGraph::compile(&post);
    {
        let st = &graph.states[7];
        assert_eq!(st.outs.len(), 2);
        assert!(has_out(st, 6, &Transition::Epsilon));
        assert!(has_out(st, 9, &Transition::Epsilon));
    }
    {
        let st = &graph.states[6];
        assert_eq!(st.outs.len(), 3);
        assert!(has_out(st, 4, &Transition::Epsilon));
        assert!(has_out(st, 2, &Transition::Epsilon));
        assert!(has_out(st, 7, &Transition::Epsilon));
    }
    assert_eq!(graph.states.len(), 10);
}

#[test]
pub fn nfa_test_match() {
    {
        let pattern = "a+b+";
        let post = re2post(pattern).unwrap_or_default();
        let graph = NFAGraph::compile(&post);
        assert_eq!(graph.is_match("aaaabbb"), true);
        let pattern = "a(b|c)*";
        let post = re2post(pattern).unwrap_or_default();
        let graph = NFAGraph::compile(&post);
        assert_eq!(graph.is_match("abbcbbcc"), true);
        assert_eq!(graph.is_match("bcbbcc"), false);
    }
}
