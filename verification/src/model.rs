use vstd::prelude::*;

verus! {

// ===================================================================
// Mathematical model of the automaton
// ===================================================================

/// The label of one automaton edge in the mathematical model: either an
/// epsilon edge (traversable without reading input) or a set of acceptable
/// characters, kept as the sequence it was built from.
pub ghost enum TransModel {
    Epsilon,
    Chars(Seq<char>),
}

/// The model of a compiled automaton. State identifiers are densely
/// allocated, so the states form a sequence indexed by identifier; each
/// state is a mapping from destination identifier to the label of the one
/// edge towards that destination.
pub ghost struct GraphModel {
    pub states: Seq<Map<nat, TransModel>>,
    pub start: nat,
    pub ends: Seq<nat>,
}

/// A compilation-time fragment: a start state and the dangling end states
/// whose outgoing edges are not wired yet.
pub ghost struct FragModel {
    pub start: nat,
    pub ends: Seq<nat>,
}

/// Every edge destination recorded in the graph names an existing state.
pub open spec fn edges_closed(g: GraphModel) -> bool {
    forall|i: int, k: nat|
        0 <= i < g.states.len() && #[trigger] g.states[i].contains_key(k) ==> k < g.states.len()
}

// ===================================================================
// Postfix conversion, modelled as a state machine over the pattern
// ===================================================================

/// True of the characters that act as operators in the postfix form.
pub open spec fn is_postfix_operator(c: char) -> bool {
    c == '.' || c == '|' || c == '*' || c == '+' || c == '?'
}

/// True of the characters that have a special meaning in a pattern.
pub open spec fn is_pattern_meta(c: char) -> bool {
    c == '(' || c == ')' || c == '|' || c == '*' || c == '+' || c == '?'
}

/// What `char::is_alphanumeric` returns; a literal character of a pattern
/// must satisfy it.
pub uninterp spec fn is_alphanum(c: char) -> bool;

/// A character that may appear in a postfix string: an operator or a
/// literal.
pub open spec fn is_postfix_char(c: char) -> bool {
    is_postfix_operator(c) || is_alphanum(c)
}

/// The running state of the converter: pending atoms, pending alternation
/// operators, the saved counter pairs of the enclosing groups, and the
/// output emitted so far.
pub ghost struct ConvState {
    pub natom: nat,
    pub nalt: nat,
    pub groups: Seq<(nat, nat)>,
    pub out: Seq<char>,
}

/// Emit one concatenation operator for each pending atom beyond the first.
pub open spec fn flush_dots(natom: nat, out: Seq<char>) -> (nat, Seq<char>)
    decreases natom,
{
    if natom > 1 {
        flush_dots((natom - 1) as nat, out.push('.'))
    } else {
        (natom, out)
    }
}

/// Emit one alternation operator for each pending alternation.
pub open spec fn flush_alts(nalt: nat, out: Seq<char>) -> Seq<char>
    decreases nalt,
{
    if nalt > 0 {
        flush_alts((nalt - 1) as nat, out.push('|'))
    } else {
        out
    }
}

/// One step of the converter on the next pattern character; `None` is a
/// parse error.
pub open spec fn conv_step(c: char, st: ConvState) -> Option<ConvState> {
    if c == '(' {
        let (natom1, out1) = if st.natom > 1 {
            (((st.natom - 1) as nat), st.out.push('.'))
        } else {
            (st.natom, st.out)
        };
        Some(
            ConvState {
                natom: 0,
                nalt: 0,
                groups: st.groups.push((natom1, st.nalt)),
                out: out1,
            },
        )
    } else if c == '|' {
        if st.natom == 0 {
            None
        } else {
            let (natom1, out1) = flush_dots(st.natom, st.out);
            Some(ConvState { natom: 0, nalt: st.nalt + 1, groups: st.groups, out: out1 })
        }
    } else if c == ')' {
        if st.groups.len() == 0 || st.natom == 0 {
            None
        } else {
            let (natom1, out1) = flush_dots(st.natom, st.out);
            let out2 = flush_alts(st.nalt, out1);
            let saved = st.groups.last();
            Some(
                ConvState {
                    natom: saved.0 + 1,
                    nalt: saved.1,
                    groups: st.groups.drop_last(),
                    out: out2,
                },
            )
        }
    } else if c == '*' || c == '+' || c == '?' {
        if st.natom == 0 {
            None
        } else {
            Some(ConvState { natom: st.natom, nalt: st.nalt, groups: st.groups, out: st.out.push(c) })
        }
    } else if c == '.' {
        None
    } else if is_alphanum(c) {
        let (natom1, out1) = if st.natom > 1 {
            (((st.natom - 1) as nat), st.out.push('.'))
        } else {
            (st.natom, st.out)
        };
        Some(
            ConvState {
                natom: natom1 + 1,
                nalt: st.nalt,
                groups: st.groups,
                out: out1.push(c),
            },
        )
    } else {
        None
    }
}

/// Run the converter over the remaining pattern characters. At the end of
/// the input an open group, or a pending alternation with no right operand,
/// is a parse error; otherwise the pending concatenations and alternations
/// are flushed into the output.
pub open spec fn conv_from(s: Seq<char>, st: ConvState) -> Option<Seq<char>>
    decreases s.len(),
{
    if s.len() == 0 {
        if st.groups.len() > 0 {
            None
        } else if st.natom == 0 && st.nalt > 0 {
            None
        } else {
            let (natom1, out1) = flush_dots(st.natom, st.out);
            Some(flush_alts(st.nalt, out1))
        }
    } else {
        match conv_step(s[0], st) {
            Some(st2) => conv_from(s.skip(1), st2),
            None => None,
        }
    }
}

/// The converter's starting state.
pub open spec fn conv_init() -> ConvState {
    ConvState { natom: 0, nalt: 0, groups: Seq::empty(), out: Seq::empty() }
}

/// The postfix form of a pattern, or `None` when the pattern is malformed.
pub open spec fn spec_re2post(s: Seq<char>) -> Option<Seq<char>> {
    conv_from(s, conv_init())
}

// ===================================================================
// Validity of a postfix string
// ===================================================================

/// Scan a postfix string left to right, tracking how many operands stand
/// emitted; `None` when some operator lacks its operands.
pub open spec fn operand_count(s: Seq<char>, acc: nat) -> Option<nat>
    decreases s.len(),
{
    if s.len() == 0 {
        Some(acc)
    } else {
        let c = s[0];
        if c == '.' || c == '|' {
            if acc >= 2 {
                operand_count(s.skip(1), (acc - 1) as nat)
            } else {
                None
            }
        } else if c == '*' || c == '+' || c == '?' {
            if acc >= 1 {
                operand_count(s.skip(1), acc)
            } else {
                None
            }
        } else {
            operand_count(s.skip(1), acc + 1)
        }
    }
}

/// A postfix string is valid when every operator, read left to right, finds
/// its operands already emitted.
pub open spec fn valid_postfix(s: Seq<char>) -> bool {
    operand_count(s, 0).is_some()
}

/// The number of literal tokens in a postfix string.
pub open spec fn count_postfix_literals(s: Seq<char>) -> nat
    decreases s.len(),
{
    if s.len() == 0 {
        0
    } else {
        (if is_postfix_operator(s[0]) {
            0nat
        } else {
            1nat
        }) + count_postfix_literals(s.skip(1))
    }
}

/// The number of literal characters in a pattern: those that are not an
/// operator or a parenthesis. In a pattern the converter accepts these are
/// exactly its alphanumeric characters.
pub open spec fn count_pattern_literals(s: Seq<char>) -> nat
    decreases s.len(),
{
    if s.len() == 0 {
        0
    } else {
        (if is_pattern_meta(s[0]) {
            0nat
        } else {
            1nat
        }) + count_pattern_literals(s.skip(1))
    }
}

// ===================================================================
// Thompson construction, modelled over the postfix string
// ===================================================================

/// The graph a compilation starts from: no states, and the default start
/// and end markers.
pub open spec fn graph_init() -> GraphModel {
    GraphModel { states: Seq::empty(), start: 0, ends: seq![0nat] }
}

/// Add one fresh state with no outgoing edges.
pub open spec fn add_state(g: GraphModel) -> GraphModel {
    GraphModel { states: g.states.push(Map::empty()), start: g.start, ends: g.ends }
}

/// Record the edge `from --t--> to`; an existing edge between the same
/// ordered pair of states is overwritten.
pub open spec fn add_edge(g: GraphModel, from: nat, to: nat, t: TransModel) -> GraphModel {
    GraphModel {
        states: g.states.update(from as int, g.states[from as int].insert(to, t)),
        start: g.start,
        ends: g.ends,
    }
}

/// Wire an epsilon edge from each of `froms`, in order, to `to`.
pub open spec fn wire_each_to(g: GraphModel, froms: Seq<nat>, to: nat) -> GraphModel
    decreases froms.len(),
{
    if froms.len() == 0 {
        g
    } else {
        wire_each_to(add_edge(g, froms[0], to, TransModel::Epsilon), froms.skip(1), to)
    }
}

/// Wire an epsilon edge from `from` to each of `tos`, in order.
pub open spec fn wire_one_to_each(g: GraphModel, from: nat, tos: Seq<nat>) -> GraphModel
    decreases tos.len(),
{
    if tos.len() == 0 {
        g
    } else {
        wire_one_to_each(add_edge(g, from, tos[0], TransModel::Epsilon), from, tos.skip(1))
    }
}

/// For each dangling end, in order: an epsilon edge to `exit`, then an
/// epsilon edge back to `back`.
pub open spec fn wire_ends_exit_back(g: GraphModel, ends: Seq<nat>, exit: nat, back: nat) -> GraphModel
    decreases ends.len(),
{
    if ends.len() == 0 {
        g
    } else {
        wire_ends_exit_back(
            add_edge(
                add_edge(g, ends[0], exit, TransModel::Epsilon),
                ends[0],
                back,
                TransModel::Epsilon,
            ),
            ends.skip(1),
            exit,
            back,
        )
    }
}

/// Every state a fragment names exists in a graph of `n` states.
pub open spec fn frag_in_bounds(f: FragModel, n: nat) -> bool {
    f.start < n && forall|i: int| 0 <= i < f.ends.len() ==> #[trigger] f.ends[i] < n
}

/// Every fragment of the stack names existing states only.
pub open spec fn frags_in_bounds(s: Seq<FragModel>, n: nat) -> bool {
    forall|k: int| 0 <= k < s.len() ==> frag_in_bounds(#[trigger] s[k], n)
}

/// One step of the compiler on the next postfix token. `None` means the
/// fragment stack lacks the operands the token needs, upon which the
/// compiler stops early and hands back the graph built so far.
pub open spec fn compile_step(c: char, stack: Seq<FragModel>, g: GraphModel) -> Option<
    (Seq<FragModel>, GraphModel),
> {
    if c == '.' {
        if stack.len() < 2 {
            None
        } else {
            let frag2 = stack.last();
            let frag1 = stack[stack.len() - 2];
            let g1 = wire_each_to(g, frag1.ends, frag2.start);
            Some(
                (
                    stack.drop_last().drop_last().push(
                        FragModel { start: frag1.start, ends: frag2.ends },
                    ),
                    g1,
                ),
            )
        }
    } else if c == '|' {
        if stack.len() < 2 {
            None
        } else {
            let frag2 = stack.last();
            let frag1 = stack[stack.len() - 2];
            let s = g.states.len();
            let e = s + 1;
            let g1 = add_state(add_state(g));
            let g2 = add_edge(g1, s, frag1.start, TransModel::Epsilon);
            let g3 = add_edge(g2, s, frag2.start, TransModel::Epsilon);
            let g4 = wire_each_to(g3, frag1.ends, e);
            let g5 = wire_each_to(g4, frag2.ends, e);
            Some(
                (
                    stack.drop_last().drop_last().push(FragModel { start: s, ends: seq![e] }),
                    g5,
                ),
            )
        }
    } else if c == '?' {
        if stack.len() < 1 {
            None
        } else {
            let frag = stack.last();
            let g1 = wire_one_to_each(g, frag.start, frag.ends);
            Some((stack, g1))
        }
    } else if c == '*' {
        if stack.len() < 1 {
            None
        } else {
            let frag = stack.last();
            let s = g.states.len();
            let e = s + 1;
            let g1 = add_state(add_state(g));
            let g2 = add_edge(g1, s, frag.start, TransModel::Epsilon);
            let g3 = wire_one_to_each(g2, frag.start, frag.ends);
            let g4 = wire_ends_exit_back(g3, frag.ends, e, frag.start);
            Some((stack.drop_last().push(FragModel { start: s, ends: seq![e] }), g4))
        }
    } else if c == '+' {
        if stack.len() < 1 {
            None
        } else {
            let frag = stack.last();
            let s = g.states.len();
            let e = s + 1;
            let g1 = add_state(add_state(g));
            let g2 = add_edge(g1, s, frag.start, TransModel::Epsilon);
            let g3 = wire_ends_exit_back(g2, frag.ends, e, frag.start);
            Some((stack.drop_last().push(FragModel { start: s, ends: seq![e] }), g3))
        }
    } else {
        let s = g.states.len();
        let e = s + 1;
        let g1 = add_state(add_state(g));
        let g2 = add_edge(g1, s, e, TransModel::Chars(seq![c]));
        Some((stack.push(FragModel { start: s, ends: seq![e] }), g2))
    }
}

/// The outcome of running the compiler: the final fragment stack, the
/// graph, and whether a token found the stack too short.
pub ghost struct CompileRun {
    pub stack: Seq<FragModel>,
    pub graph: GraphModel,
    pub aborted: bool,
}

/// Run the compiler over the remaining postfix tokens.
pub open spec fn compile_run(post: Seq<char>, stack: Seq<FragModel>, g: GraphModel) -> CompileRun
    decreases post.len(),
{
    if post.len() == 0 {
        CompileRun { stack, graph: g, aborted: false }
    } else {
        match compile_step(post[0], stack, g) {
            Some(sg) => compile_run(post.skip(1), sg.0, sg.1),
            None => CompileRun { stack, graph: g, aborted: true },
        }
    }
}

/// The graph compiled from a postfix string. When the run ends with a
/// fragment on the stack, that fragment gives the graph its start state and
/// its recorded ends; otherwise the defaults of `graph_init` remain.
pub open spec fn spec_compile(post: Seq<char>) -> GraphModel {
    let r = compile_run(post, Seq::empty(), graph_init());
    if r.aborted {
        r.graph
    } else if r.stack.len() > 0 {
        GraphModel {
            states: r.graph.states,
            start: r.stack.last().start,
            ends: r.stack.last().ends,
        }
    } else {
        r.graph
    }
}

// ===================================================================
// Matching, modelled by epsilon closure and character moves
// ===================================================================

/// There is an epsilon edge from `a` to `b`.
pub open spec fn has_eps_edge(g: GraphModel, a: nat, b: nat) -> bool {
    a < g.states.len() && g.states[a as int].contains_key(b) && g.states[a as int][b]
        == TransModel::Epsilon
}

/// There is an edge from `a` to `b` whose character set contains `c`.
pub open spec fn has_char_edge(g: GraphModel, a: nat, b: nat, c: char) -> bool {
    a < g.states.len() && g.states[a as int].contains_key(b) && match g.states[a as int][b] {
        TransModel::Epsilon => false,
        TransModel::Chars(cs) => cs.contains(c),
    }
}

/// Consecutive elements of `p` are joined by epsilon edges.
pub open spec fn is_eps_path(g: GraphModel, p: Seq<nat>) -> bool {
    forall|i: int| 0 <= i < p.len() - 1 ==> has_eps_edge(g, p[i], #[trigger] p[i + 1])
}

/// State `t` is reachable from the set `from` along epsilon edges alone.
pub open spec fn eps_reachable(g: GraphModel, from: Set<nat>, t: nat) -> bool {
    exists|p: Seq<nat>|
        p.len() > 0 && from.contains(p[0]) && p.last() == t && #[trigger] is_eps_path(g, p)
}

/// The epsilon closure of a set of states: everything reachable from the
/// set along epsilon edges, the set itself included.
pub open spec fn spec_closure(g: GraphModel, from: Set<nat>) -> Set<nat> {
    Set::new(|t: nat| eps_reachable(g, from, t))
}

/// The states reachable from the set by one edge that accepts `c`.
pub open spec fn spec_move(g: GraphModel, c: char, from: Set<nat>) -> Set<nat> {
    Set::new(|t: nat| exists|a: nat| from.contains(a) && has_char_edge(g, a, t, c))
}

/// A state with no outgoing edges; under the matching rule such a state is
/// acceptance-eligible.
pub open spec fn is_accepting(g: GraphModel, s: nat) -> bool {
    s < g.states.len() && g.states[s as int].dom() == Set::<nat>::empty()
}

/// Step the simulation through the remaining input characters, starting
/// from the epsilon-closed set `current`. The match succeeds exactly when,
/// after consuming the last character, some reached state has no outgoing
/// edges; an emptied set fails at once, and exhausting the input without
/// the success having fired at the last character fails.
pub open spec fn match_from(g: GraphModel, cs: Seq<char>, current: Set<nat>) -> bool
    decreases cs.len(),
{
    if cs.len() == 0 {
        false
    } else {
        let next = spec_closure(g, spec_move(g, cs[0], current));
        if next == Set::<nat>::empty() {
            false
        } else if cs.len() == 1 && (exists|s: nat| next.contains(s) && is_accepting(g, s)) {
            true
        } else {
            match_from(g, cs.skip(1), next)
        }
    }
}

/// A state of the set is reachable from it: the one-element path.
pub proof fn lemma_eps_base(g: GraphModel, from: Set<nat>, a: nat)
    requires
        from.contains(a),
    ensures
        eps_reachable(g, from, a),
{
    let p = seq![a];
    assert(p.last() == a);
    assert(is_eps_path(g, p));
    assert(from.contains(p[0]));
}

/// Appending one epsilon edge to a reachable state keeps reachability.
pub proof fn lemma_eps_extend(g: GraphModel, from: Set<nat>, a: nat, b: nat)
    requires
        eps_reachable(g, from, a),
        has_eps_edge(g, a, b),
    ensures
        eps_reachable(g, from, b),
{
    let p = choose|p: Seq<nat>|
        p.len() > 0 && from.contains(p[0]) && p.last() == a && #[trigger] is_eps_path(g, p);
    let p2 = p.push(b);
    assert(is_eps_path(g, p2)) by {
        assert forall|i: int| 0 <= i < p2.len() - 1 implies has_eps_edge(
            g,
            p2[i],
            #[trigger] p2[i + 1],
        ) by {
            if i < p.len() - 1 {
                assert(p2[i] == p[i]);
                assert(p2[i + 1] == p[i + 1]);
            } else {
                assert(p2[i] == p.last());
                assert(p2[i + 1] == b);
            }
        }
    }
    assert(p2.len() > 0 && from.contains(p2[0]) && p2.last() == b);
}

/// Along an epsilon path, a set closed under epsilon edges keeps the
/// path's states once it holds its first.
proof fn lemma_path_covered(g: GraphModel, s: Set<nat>, p: Seq<nat>)
    requires
        forall|a: nat, b: nat| s.contains(a) && #[trigger] has_eps_edge(g, a, b) ==> s.contains(b),
        p.len() > 0,
        s.contains(p[0]),
        is_eps_path(g, p),
    ensures
        s.contains(p.last()),
    decreases p.len(),
{
    if p.len() > 1 {
        assert(has_eps_edge(g, p[0], p[0int + 1]));
        assert(s.contains(p[1]));
        let p2 = p.skip(1);
        assert(is_eps_path(g, p2)) by {
            assert forall|i: int| 0 <= i < p2.len() - 1 implies has_eps_edge(
                g,
                p2[i],
                #[trigger] p2[i + 1],
            ) by {
                assert(p2[i] == p[i + 1]);
                assert(p2[i + 1] == p[i + 1 + 1]);
            }
        }
        lemma_path_covered(g, s, p2);
        assert(p2.last() == p.last());
    }
}

/// A set that contains `from` and is closed under epsilon edges contains
/// everything reachable from `from`.
pub proof fn lemma_closed_covers(g: GraphModel, from: Set<nat>, s: Set<nat>, t: nat)
    requires
        from.subset_of(s),
        forall|a: nat, b: nat| s.contains(a) && #[trigger] has_eps_edge(g, a, b) ==> s.contains(b),
        eps_reachable(g, from, t),
    ensures
        s.contains(t),
{
    let p = choose|p: Seq<nat>|
        p.len() > 0 && from.contains(p[0]) && p.last() == t && #[trigger] is_eps_path(g, p);
    lemma_path_covered(g, s, p);
}

/// Whole-string matching from a chosen start state.
pub open spec fn spec_match_from_state(g: GraphModel, cs: Seq<char>, s0: nat) -> bool {
    match_from(g, cs, spec_closure(g, Set::empty().insert(s0)))
}

/// Whole-string matching of the input against the graph. The empty input
/// never matches.
pub open spec fn spec_is_match(g: GraphModel, cs: Seq<char>) -> bool {
    spec_match_from_state(g, cs, g.start)
}

} // verus!
