use vstd::prelude::*;

use crate::model::add_edge;
use crate::model::add_state;
use crate::model::compile_run;
use crate::model::compile_step;
use crate::model::graph_init;
use crate::model::is_postfix_char;
use crate::model::spec_compile;
use crate::model::conv_from;
use crate::model::conv_step;
use crate::model::edges_closed;
use crate::model::flush_alts;
use crate::model::flush_dots;
use crate::model::spec_re2post;
use crate::model::ConvState;
use crate::model::eps_reachable;
use crate::model::has_char_edge;
use crate::model::has_eps_edge;
use crate::model::is_accepting;
use crate::model::lemma_closed_covers;
use crate::model::lemma_eps_base;
use crate::model::lemma_eps_extend;
use crate::model::match_from;
use crate::model::spec_closure;
use crate::model::spec_is_match;
use crate::model::spec_match_from_state;
use crate::model::spec_move;
use crate::model::frag_in_bounds;
use crate::model::frags_in_bounds;
use crate::model::is_alphanum;
use crate::model::is_postfix_operator;
use crate::model::wire_each_to;
use crate::model::wire_ends_exit_back;
use crate::model::wire_one_to_each;
use crate::model::FragModel;
use crate::model::GraphModel;
use crate::model::TransModel;

verus! {

/// Relies on `char::is_alphanumeric`: whether a character counts as
/// alphanumeric depends on the character alone.
#[verifier::external_body]
fn char_is_alphanumeric(c: char) -> (r: bool)
    ensures
        r == is_alphanum(c),
{
    c.is_alphanumeric()
}

/// Relies on `String`'s `FromIterator<char>` implementation: collecting
/// characters yields the string of exactly those characters in order.
#[verifier::external_body]
fn string_from_chars(cs: &Vec<char>) -> (s: String)
    ensures
        s@ == cs@,
{
    cs.iter().collect()
}

/// The identifier of one automaton state: a densely allocated index.
#[derive(Debug, Clone, Copy, PartialEq, Eq, Hash, Structural)]
pub struct StateId(pub usize);

impl View for StateId {
    type V = nat;

    open spec fn view(&self) -> nat {
        self.0 as nat
    }
}

/// The label of a directed edge: an epsilon transition, or a non-empty set
/// of characters that the next input character must belong to.
#[derive(Debug, PartialEq, Eq, Hash, Clone)]
pub enum Transition {
    Epsilon,
    Char(Vec<char>),
}

impl View for Transition {
    type V = TransModel;

    open spec fn view(&self) -> TransModel {
        match self {
            Transition::Epsilon => TransModel::Epsilon,
            Transition::Char(cs) => TransModel::Chars(cs@),
        }
    }
}

/// The mapping an outgoing-edge list denotes: destination identifier to
/// transition label, later entries overriding earlier ones.
pub open spec fn outs_map(s: Seq<(StateId, Transition)>) -> Map<nat, TransModel>
    decreases s.len(),
{
    if s.len() == 0 {
        Map::empty()
    } else {
        outs_map(s.drop_last()).insert(s.last().0@, s.last().1@)
    }
}

/// One automaton state: its identifier and its outgoing edges, keyed by
/// destination. At most one edge exists towards any destination; recording
/// a second one overwrites the first.
#[derive(Debug, Clone)]
pub struct State {
    pub id: StateId,
    pub outs: Vec<(StateId, Transition)>,
}

impl View for State {
    type V = Map<nat, TransModel>;

    open spec fn view(&self) -> Map<nat, TransModel> {
        outs_map(self.outs@)
    }
}

impl State {
    /// The destinations in the edge list are pairwise distinct.
    pub open spec fn wf(self) -> bool {
        forall|i: int, j: int|
            0 <= i < j < self.outs@.len() ==> (#[trigger] self.outs@[i]).0 != (
            #[trigger] self.outs@[j]).0
    }

    /// A fresh state with no outgoing edges.
    pub fn new(id: StateId) -> (s: Self)
        ensures
            s.id == id,
            s@ == Map::<nat, TransModel>::empty(),
            s.wf(),
    {
        Self { id, outs: Vec::new() }
    }

    /// Record the edge towards `to`, overwriting an existing one.
    #[verifier::loop_isolation(false)]
    fn insert_out(&mut self, to: StateId, t: Transition)
        requires
            old(self).wf(),
        ensures
            final(self).wf(),
            final(self).id == old(self).id,
            final(self)@ == old(self)@.insert(to@, t@),
    {
        let ghost orig = self.outs@;
        let mut i: usize = 0;
        while i < self.outs.len()
            invariant
                *self == *old(self),
                forall|j: int| 0 <= j < i ==> orig[j].0 != to,
                i <= orig.len(),
            decreases orig.len() - i,
        {
            if self.outs[i].0 == to {
                self.outs[i] = (to, t);
                proof {
                    lemma_outs_map_update(orig, i as int, to, t);
                }
                return ;
            }
            i += 1;
        }
        self.outs.push((to, t));
        proof {
            assert(self.outs@.drop_last() =~= orig);
            assert(self@ == old(self)@.insert(to@, t@));
        }
    }
}

/// Updating the entry of an already-present destination updates the
/// denoted mapping at that key.
proof fn lemma_outs_map_update(s: Seq<(StateId, Transition)>, i: int, to: StateId, t: Transition)
    requires
        0 <= i < s.len(),
        s[i].0 == to,
        forall|p: int, q: int| 0 <= p < q < s.len() ==> s[p].0 != s[q].0,
    ensures
        outs_map(s.update(i, (to, t))) == outs_map(s).insert(to@, t@),
    decreases s.len(),
{
    let s2 = s.update(i, (to, t));
    if i == s.len() - 1 {
        assert(s2.drop_last() =~= s.drop_last());
        assert(outs_map(s).insert(s.last().0@, s.last().1@).insert(to@, t@) =~= outs_map(
            s.drop_last(),
        ).insert(to@, t@));
        assert(outs_map(s2) =~= outs_map(s).insert(to@, t@));
    } else {
        assert(s2.drop_last() =~= s.drop_last().update(i, (to, t)));
        lemma_outs_map_update(s.drop_last(), i, to, t);
        assert(s.last().0@ != to@) by {
            assert(s[i].0 != s[s.len() - 1].0);
            assert(s[s.len() - 1].0.0 != to.0);
        }
        assert(s2.last() == s.last());
        assert(outs_map(s2) =~= outs_map(s).insert(to@, t@));
    }
}

/// Every recorded destination is a key of the denoted mapping, with the
/// transition recorded for it.
proof fn lemma_outs_map_key(s: Seq<(StateId, Transition)>, i: int)
    requires
        0 <= i < s.len(),
        forall|p: int, q: int| 0 <= p < q < s.len() ==> s[p].0 != s[q].0,
    ensures
        outs_map(s).contains_key(s[i].0@),
        outs_map(s)[s[i].0@] == s[i].1@,
    decreases s.len(),
{
    if i == s.len() - 1 {
    } else {
        lemma_outs_map_key(s.drop_last(), i);
        assert(s.last().0.0 != s[i].0.0);
    }
}

/// A destination recorded nowhere is no key of the denoted mapping.
proof fn lemma_outs_map_no_key(s: Seq<(StateId, Transition)>, k: nat)
    requires
        forall|i: int| 0 <= i < s.len() ==> (#[trigger] s[i]).0@ != k,
    ensures
        !outs_map(s).contains_key(k),
    decreases s.len(),
{
    if s.len() > 0 {
        lemma_outs_map_no_key(s.drop_last(), k);
    }
}

/// The sequence of state identifiers a list of them denotes.
pub open spec fn ids_view(s: Seq<StateId>) -> Seq<nat> {
    s.map_values(|x: StateId| x@)
}

/// A transient compilation value: the start of a partially built automaton
/// piece and the dangling end states whose outgoing edges are not wired
/// yet.
#[derive(Debug)]
pub struct Frag {
    start: StateId,
    end: Vec<StateId>,
}

impl View for Frag {
    type V = FragModel;

    closed spec fn view(&self) -> FragModel {
        FragModel { start: self.start@, ends: ids_view(self.end@) }
    }
}

/// The fragment-stack view a list of fragments denotes.
pub open spec fn frags_view(s: Seq<Frag>) -> Seq<FragModel> {
    s.map_values(|f: Frag| f@)
}

/// A fragment within bounds names states below any larger bound, element
/// by element.
proof fn lemma_frag_ends_bounds(f: Frag, m: nat, n: nat)
    requires
        frag_in_bounds(f@, m),
        m <= n,
    ensures
        f.start@ < n,
        forall|i: int| 0 <= i < f.end@.len() ==> (#[trigger] f.end@[i])@ < n,
        frag_in_bounds(f@, n),
{
    assert forall|i: int| 0 <= i < f.end@.len() implies (#[trigger] f.end@[i])@ < n by {
        assert(f@.ends[i] == f.end@[i]@);
        assert(f@.ends[i] < m);
    }
    assert forall|i: int| 0 <= i < f@.ends.len() implies #[trigger] f@.ends[i] < n by {
        assert(f@.ends[i] < m);
    }
}

/// A compiled automaton: the complete mapping from state identifier to
/// state, the identifier the next state would get, the start state, and
/// the end states recorded when compilation finished. The recorded ends
/// are kept for introspection only: the matcher decides acceptance by the
/// structural rule that a state with no outgoing edges is
/// acceptance-eligible, and never consults `ends`.
#[derive(Debug)]
pub struct NFAGraph {
    pub states: Vec<State>,
    pub last_id: usize,
    pub start: StateId,
    pub ends: Vec<StateId>,
}

impl View for NFAGraph {
    type V = GraphModel;

    open spec fn view(&self) -> GraphModel {
        GraphModel {
            states: self.states@.map_values(|s: State| s@),
            start: self.start@,
            ends: ids_view(self.ends@),
        }
    }
}

impl NFAGraph {
    /// The structural invariant of a graph: the next identifier counts the
    /// states, each state records its own index as identifier, each edge
    /// list has pairwise distinct destinations, and every destination names
    /// an existing state.
    pub open spec fn basic_wf(self) -> bool {
        &&& self.last_id == self@.states.len()
        &&& forall|i: int|
            0 <= i < self.states@.len() ==> (#[trigger] self.states@[i]).id@ == i
        &&& forall|i: int| 0 <= i < self.states@.len() ==> (#[trigger] self.states@[i]).wf()
        &&& edges_closed(self@)
    }

    /// A graph fit for matching: structurally sound, with a start state
    /// that exists.
    pub open spec fn wf(self) -> bool {
        self.basic_wf() && self@.start < self@.states.len()
    }

    /// Record the edge `from --t--> to`.
    fn push_edge(&mut self, from: StateId, to: StateId, t: Transition)
        requires
            old(self).basic_wf(),
            from@ < old(self)@.states.len(),
            to@ < old(self)@.states.len(),
        ensures
            final(self).basic_wf(),
            final(self)@ == add_edge(old(self)@, from@, to@, t@),
            final(self).last_id == old(self).last_id,
            final(self)@.states.len() == old(self)@.states.len(),
    {
        let ghost target = add_edge(old(self)@, from@, to@, t@);
        let st = &mut self.states[from.0];
        st.insert_out(to, t);
        proof {
            assert(self@.states =~~= target.states);
            assert(self@ == target);
            assert forall|i: int| 0 <= i < self.states@.len() implies (
            #[trigger] self.states@[i]).wf() by {
                if i != from@ {
                    assert(self.states@[i] == old(self).states@[i]);
                }
            }
            assert forall|i: int, k: nat|
                0 <= i < self@.states.len() && #[trigger] self@.states[i].contains_key(k)
                implies k < self@.states.len() by {
                if i != from@ || k != to@ {
                    assert(old(self)@.states[i].contains_key(k));
                }
            }
        }
    }

    /// Allocate two fresh states and hand back their identifiers.
    fn alloc_pair(&mut self) -> (r: (StateId, StateId))
        requires
            old(self).basic_wf(),
            old(self).last_id + 2 <= usize::MAX,
        ensures
            final(self).basic_wf(),
            final(self)@ == add_state(add_state(old(self)@)),
            r.0@ == old(self)@.states.len(),
            r.1@ == old(self)@.states.len() + 1,
            final(self).last_id == old(self).last_id + 2,
            final(self)@.states.len() == old(self)@.states.len() + 2,
    {
        let s = StateId(self.last_id);
        let e = StateId(self.last_id + 1);
        self.last_id = self.last_id + 2;
        let ns = State::new(s);
        self.states.push(ns);
        let ne = State::new(e);
        self.states.push(ne);
        proof {
            assert(self@.states =~~= add_state(add_state(old(self)@)).states);
            assert(self@ == add_state(add_state(old(self)@)));
        }
        (s, e)
    }

    /// Wire an epsilon edge from each listed state, in order, to `to`.
    #[verifier::loop_isolation(false)]
    fn wire_all(&mut self, froms: &Vec<StateId>, to: StateId)
        requires
            old(self).basic_wf(),
            to@ < old(self)@.states.len(),
            forall|i: int|
                0 <= i < froms@.len() ==> (#[trigger] froms@[i])@ < old(self)@.states.len(),
        ensures
            final(self).basic_wf(),
            final(self)@ == wire_each_to(old(self)@, ids_view(froms@), to@),
            final(self).last_id == old(self).last_id,
            final(self)@.states.len() == old(self)@.states.len(),
            final(self)@.start == old(self)@.start,
            final(self)@.ends == old(self)@.ends,
    {
        proof {
            assert(ids_view(froms@).skip(0) =~= ids_view(froms@));
        }
        let mut k: usize = 0;
        while k < froms.len()
            invariant
                k <= froms@.len(),
                self.basic_wf(),
                self.last_id == old(self).last_id,
                self@.states.len() == old(self)@.states.len(),
                self@.start == old(self)@.start,
                self@.ends == old(self)@.ends,
                wire_each_to(self@, ids_view(froms@).skip(k as int), to@) == wire_each_to(
                    old(self)@,
                    ids_view(froms@),
                    to@,
                ),
            decreases froms@.len() - k,
        {
            self.push_edge(froms[k], to, Transition::Epsilon);
            proof {
                assert(ids_view(froms@).skip(k as int)[0] == froms@[k as int]@);
                assert(ids_view(froms@).skip(k as int).skip(1) =~= ids_view(froms@).skip(
                    k as int + 1,
                ));
            }
            k += 1;
        }
        proof {
            assert(ids_view(froms@).skip(froms@.len() as int) =~= Seq::<nat>::empty());
        }
    }

    /// Wire an epsilon edge from `from` to each listed state, in order.
    #[verifier::loop_isolation(false)]
    fn wire_bypass(&mut self, from: StateId, tos: &Vec<StateId>)
        requires
            old(self).basic_wf(),
            from@ < old(self)@.states.len(),
            forall|i: int|
                0 <= i < tos@.len() ==> (#[trigger] tos@[i])@ < old(self)@.states.len(),
        ensures
            final(self).basic_wf(),
            final(self)@ == wire_one_to_each(old(self)@, from@, ids_view(tos@)),
            final(self).last_id == old(self).last_id,
            final(self)@.states.len() == old(self)@.states.len(),
            final(self)@.start == old(self)@.start,
            final(self)@.ends == old(self)@.ends,
    {
        proof {
            assert(ids_view(tos@).skip(0) =~= ids_view(tos@));
        }
        let mut k: usize = 0;
        while k < tos.len()
            invariant
                k <= tos@.len(),
                self.basic_wf(),
                self.last_id == old(self).last_id,
                self@.states.len() == old(self)@.states.len(),
                self@.start == old(self)@.start,
                self@.ends == old(self)@.ends,
                wire_one_to_each(self@, from@, ids_view(tos@).skip(k as int)) == wire_one_to_each(
                    old(self)@,
                    from@,
                    ids_view(tos@),
                ),
            decreases tos@.len() - k,
        {
            self.push_edge(from, tos[k], Transition::Epsilon);
            proof {
                assert(ids_view(tos@).skip(k as int)[0] == tos@[k as int]@);
                assert(ids_view(tos@).skip(k as int).skip(1) =~= ids_view(tos@).skip(k as int + 1));
            }
            k += 1;
        }
        proof {
            assert(ids_view(tos@).skip(tos@.len() as int) =~= Seq::<nat>::empty());
        }
    }

    /// For each listed end, in order: an epsilon edge to `exit`, then an
    /// epsilon edge back to `back`.
    #[verifier::loop_isolation(false)]
    fn wire_repeat(&mut self, ends: &Vec<StateId>, exit: StateId, back: StateId)
        requires
            old(self).basic_wf(),
            exit@ < old(self)@.states.len(),
            back@ < old(self)@.states.len(),
            forall|i: int|
                0 <= i < ends@.len() ==> (#[trigger] ends@[i])@ < old(self)@.states.len(),
        ensures
            final(self).basic_wf(),
            final(self)@ == wire_ends_exit_back(old(self)@, ids_view(ends@), exit@, back@),
            final(self).last_id == old(self).last_id,
            final(self)@.states.len() == old(self)@.states.len(),
            final(self)@.start == old(self)@.start,
            final(self)@.ends == old(self)@.ends,
    {
        proof {
            assert(ids_view(ends@).skip(0) =~= ids_view(ends@));
        }
        let mut k: usize = 0;
        while k < ends.len()
            invariant
                k <= ends@.len(),
                self.basic_wf(),
                self.last_id == old(self).last_id,
                self@.states.len() == old(self)@.states.len(),
                self@.start == old(self)@.start,
                self@.ends == old(self)@.ends,
                wire_ends_exit_back(self@, ids_view(ends@).skip(k as int), exit@, back@)
                    == wire_ends_exit_back(old(self)@, ids_view(ends@), exit@, back@),
            decreases ends@.len() - k,
        {
            self.push_edge(ends[k], exit, Transition::Epsilon);
            self.push_edge(ends[k], back, Transition::Epsilon);
            proof {
                assert(ids_view(ends@).skip(k as int)[0] == ends@[k as int]@);
                assert(ids_view(ends@).skip(k as int).skip(1) =~= ids_view(ends@).skip(
                    k as int + 1,
                ));
            }
            k += 1;
        }
        proof {
            assert(ids_view(ends@).skip(ends@.len() as int) =~= Seq::<nat>::empty());
        }
    }

    /// The concatenation token: wire every end of the first fragment to
    /// the start of the second.
    fn op_concat(&mut self, stack: &mut Vec<Frag>)
        requires
            old(self).basic_wf(),
            old(stack)@.len() >= 2,
            frags_in_bounds(frags_view(old(stack)@), old(self)@.states.len()),
        ensures
            final(self).basic_wf(),
            frags_in_bounds(frags_view(final(stack)@), final(self)@.states.len()),
            compile_step('.', frags_view(old(stack)@), old(self)@) == Some(
                (frags_view(final(stack)@), final(self)@),
            ),
            final(self).last_id == old(self).last_id,
            final(self)@.states.len() == old(self)@.states.len(),
            final(self)@.start == old(self)@.start,
            final(self)@.ends == old(self)@.ends,
    {
        let ghost s0 = frags_view(old(stack)@);
        let frag2 = stack.pop().unwrap();
        let frag1 = stack.pop().unwrap();
        proof {
            assert(frag2@ == s0.last());
            assert(frag1@ == s0[s0.len() - 2]);
            assert(frag_in_bounds(s0[s0.len() - 2], self@.states.len()));
            assert(frag_in_bounds(s0.last(), self@.states.len()));
            lemma_frag_ends_bounds(frag1, self@.states.len(), self@.states.len());
            lemma_frag_ends_bounds(frag2, self@.states.len(), self@.states.len());
        }
        self.wire_all(&frag1.end, frag2.start);
        let nf = Frag { start: frag1.start, end: frag2.end };
        stack.push(nf);
        proof {
            assert(frags_view(stack@) =~= s0.drop_last().drop_last().push(
                FragModel { start: frag1@.start, ends: frag2@.ends },
            ));
        }
    }

    /// The alternation token: a fresh start state branches to both
    /// fragments, and every end of either is wired to a fresh end state.
    fn op_alt(&mut self, stack: &mut Vec<Frag>)
        requires
            old(self).basic_wf(),
            old(self).last_id + 2 <= usize::MAX,
            old(stack)@.len() >= 2,
            frags_in_bounds(frags_view(old(stack)@), old(self)@.states.len()),
        ensures
            final(self).basic_wf(),
            frags_in_bounds(frags_view(final(stack)@), final(self)@.states.len()),
            compile_step('|', frags_view(old(stack)@), old(self)@) == Some(
                (frags_view(final(stack)@), final(self)@),
            ),
            final(self).last_id == old(self).last_id + 2,
            final(self)@.states.len() == old(self)@.states.len() + 2,
            final(self)@.start == old(self)@.start,
            final(self)@.ends == old(self)@.ends,
    {
        let ghost s0 = frags_view(old(stack)@);
        let frag2 = stack.pop().unwrap();
        let frag1 = stack.pop().unwrap();
        proof {
            assert(frag2@ == s0.last());
            assert(frag1@ == s0[s0.len() - 2]);
            assert(frag_in_bounds(s0[s0.len() - 2], self@.states.len()));
            assert(frag_in_bounds(s0.last(), self@.states.len()));
        }
        let ghost pre_len = self@.states.len();
        let (s, e) = self.alloc_pair();
        proof {
            lemma_frag_ends_bounds(frag1, pre_len, self@.states.len());
            lemma_frag_ends_bounds(frag2, pre_len, self@.states.len());
        }
        self.push_edge(s, frag1.start, Transition::Epsilon);
        self.push_edge(s, frag2.start, Transition::Epsilon);
        self.wire_all(&frag1.end, e);
        self.wire_all(&frag2.end, e);
        let mut endv: Vec<StateId> = Vec::new();
        endv.push(e);
        stack.push(Frag { start: s, end: endv });
        proof {
            assert(ids_view(endv@) =~= seq![e@]);
            assert(frags_view(stack@) =~= s0.drop_last().drop_last().push(
                FragModel { start: s@, ends: seq![e@] },
            ));
        }
    }

    /// The zero-or-one token: epsilon edges from the fragment's start
    /// directly to each of its ends.
    fn op_question(&mut self, stack: &mut Vec<Frag>)
        requires
            old(self).basic_wf(),
            old(stack)@.len() >= 1,
            frags_in_bounds(frags_view(old(stack)@), old(self)@.states.len()),
        ensures
            final(self).basic_wf(),
            frags_in_bounds(frags_view(final(stack)@), final(self)@.states.len()),
            compile_step('?', frags_view(old(stack)@), old(self)@) == Some(
                (frags_view(final(stack)@), final(self)@),
            ),
            final(self).last_id == old(self).last_id,
            final(self)@.states.len() == old(self)@.states.len(),
            final(self)@.start == old(self)@.start,
            final(self)@.ends == old(self)@.ends,
    {
        let ghost s0 = frags_view(old(stack)@);
        let frag = stack.pop().unwrap();
        proof {
            assert(frag@ == s0.last());
            assert(frag_in_bounds(s0.last(), self@.states.len()));
            lemma_frag_ends_bounds(frag, self@.states.len(), self@.states.len());
        }
        self.wire_bypass(frag.start, &frag.end);
        stack.push(frag);
        proof {
            assert(frags_view(stack@) =~= s0);
        }
    }

    /// The zero-or-more token: a fresh start with an entry edge, a direct
    /// bypass from the fragment's start to its ends, and exit and repeat
    /// edges from each end.
    fn op_star(&mut self, stack: &mut Vec<Frag>)
        requires
            old(self).basic_wf(),
            old(self).last_id + 2 <= usize::MAX,
            old(stack)@.len() >= 1,
            frags_in_bounds(frags_view(old(stack)@), old(self)@.states.len()),
        ensures
            final(self).basic_wf(),
            frags_in_bounds(frags_view(final(stack)@), final(self)@.states.len()),
            compile_step('*', frags_view(old(stack)@), old(self)@) == Some(
                (frags_view(final(stack)@), final(self)@),
            ),
            final(self).last_id == old(self).last_id + 2,
            final(self)@.states.len() == old(self)@.states.len() + 2,
            final(self)@.start == old(self)@.start,
            final(self)@.ends == old(self)@.ends,
    {
        let ghost s0 = frags_view(old(stack)@);
        let frag = stack.pop().unwrap();
        proof {
            assert(frag@ == s0.last());
            assert(frag_in_bounds(s0.last(), self@.states.len()));
        }
        let ghost pre_len = self@.states.len();
        let (s, e) = self.alloc_pair();
        proof {
            lemma_frag_ends_bounds(frag, pre_len, self@.states.len());
        }
        self.push_edge(s, frag.start, Transition::Epsilon);
        self.wire_bypass(frag.start, &frag.end);
        self.wire_repeat(&frag.end, e, frag.start);
        let mut endv: Vec<StateId> = Vec::new();
        endv.push(e);
        stack.push(Frag { start: s, end: endv });
        proof {
            assert(ids_view(endv@) =~= seq![e@]);
            assert(frags_view(stack@) =~= s0.drop_last().push(
                FragModel { start: s@, ends: seq![e@] },
            ));
        }
    }

    /// The one-or-more token: as zero-or-more, but without the bypass, so
    /// at least one pass through the fragment is required.
    fn op_plus(&mut self, stack: &mut Vec<Frag>)
        requires
            old(self).basic_wf(),
            old(self).last_id + 2 <= usize::MAX,
            old(stack)@.len() >= 1,
            frags_in_bounds(frags_view(old(stack)@), old(self)@.states.len()),
        ensures
            final(self).basic_wf(),
            frags_in_bounds(frags_view(final(stack)@), final(self)@.states.len()),
            compile_step('+', frags_view(old(stack)@), old(self)@) == Some(
                (frags_view(final(stack)@), final(self)@),
            ),
            final(self).last_id == old(self).last_id + 2,
            final(self)@.states.len() == old(self)@.states.len() + 2,
            final(self)@.start == old(self)@.start,
            final(self)@.ends == old(self)@.ends,
    {
        let ghost s0 = frags_view(old(stack)@);
        let frag = stack.pop().unwrap();
        proof {
            assert(frag@ == s0.last());
            assert(frag_in_bounds(s0.last(), self@.states.len()));
        }
        let ghost pre_len = self@.states.len();
        let (s, e) = self.alloc_pair();
        proof {
            lemma_frag_ends_bounds(frag, pre_len, self@.states.len());
        }
        self.push_edge(s, frag.start, Transition::Epsilon);
        self.wire_repeat(&frag.end, e, frag.start);
        let mut endv: Vec<StateId> = Vec::new();
        endv.push(e);
        stack.push(Frag { start: s, end: endv });
        proof {
            assert(ids_view(endv@) =~= seq![e@]);
            assert(frags_view(stack@) =~= s0.drop_last().push(
                FragModel { start: s@, ends: seq![e@] },
            ));
        }
    }

    /// A literal token: two fresh states joined by an edge that accepts
    /// exactly that character.
    fn op_literal(&mut self, stack: &mut Vec<Frag>, c: char)
        requires
            old(self).basic_wf(),
            old(self).last_id + 2 <= usize::MAX,
            !is_postfix_operator(c),
            frags_in_bounds(frags_view(old(stack)@), old(self)@.states.len()),
        ensures
            final(self).basic_wf(),
            frags_in_bounds(frags_view(final(stack)@), final(self)@.states.len()),
            compile_step(c, frags_view(old(stack)@), old(self)@) == Some(
                (frags_view(final(stack)@), final(self)@),
            ),
            final(self).last_id == old(self).last_id + 2,
            final(self)@.states.len() == old(self)@.states.len() + 2,
            final(self)@.start == old(self)@.start,
            final(self)@.ends == old(self)@.ends,
    {
        let ghost s0 = frags_view(old(stack)@);
        let (s, e) = self.alloc_pair();
        let mut cv: Vec<char> = Vec::new();
        cv.push(c);
        self.push_edge(s, e, Transition::Char(cv));
        let mut endv: Vec<StateId> = Vec::new();
        endv.push(e);
        stack.push(Frag { start: s, end: endv });
        proof {
            assert(cv@ =~= seq![c]);
            assert(ids_view(endv@) =~= seq![e@]);
            assert(frags_view(stack@) =~= s0.push(FragModel { start: s@, ends: seq![e@] }));
        }
    }

    /// Compile a pattern: rewrite it to postfix form, then build the
    /// automaton from it. The pattern must be one the converter accepts;
    /// its length is bounded so that state allocation cannot overflow.
    pub fn new(pattern: &str) -> (r: Self)
        requires
            spec_re2post(pattern@).is_some(),
            4 * pattern@.len() <= usize::MAX,
        ensures
            r@ == spec_compile(spec_re2post(pattern@).unwrap()),
            r.basic_wf(),
            r@.states.len() > 0 ==> r.wf(),
    {
        let post = re2post(pattern);
        match post {
            Some(post) => {
                proof {
                    crate::laws::lemma_convert_valid(pattern@);
                }
                Self::compile(post.as_str())
            },
            None => vstd::pervasive::unreached(),
        }
    }

    /// Build the automaton for a postfix token string by Thompson's
    /// construction. A token that finds too few fragments on the stack
    /// stops compilation early, and the graph built so far is handed back
    /// with its default start and end markers.
    #[verifier::loop_isolation(false)]
    pub fn compile(post: &str) -> (r: Self)
        requires
            forall|i: int| 0 <= i < post@.len() ==> is_postfix_char(#[trigger] post@[i]),
            2 * post@.len() <= usize::MAX,
        ensures
            r@ == spec_compile(post@),
            r.basic_wf(),
            r@.states.len() > 0 ==> r.wf(),
    {
        let mut stack: Vec<Frag> = Vec::new();
        let mut graph = NFAGraph {
            states: Vec::new(),
            last_id: 0,
            start: StateId(0),
            ends: vec![StateId(0)],
        };
        proof {
            assert(graph@.states =~= graph_init().states);
            assert(ids_view(graph.ends@) =~= seq![0nat]);
            assert(graph@ == graph_init());
            assert(frags_view(stack@) =~= Seq::<FragModel>::empty());
            assert(post@.skip(0) =~= post@);
        }
        let n = post.unicode_len();
        let mut idx: usize = 0;
        while idx < n
            invariant
                idx <= n,
                n == post@.len(),
                graph.basic_wf(),
                graph.last_id <= 2 * idx,
                graph@.start == 0,
                graph@.ends == seq![0nat],
                frags_in_bounds(frags_view(stack@), graph@.states.len()),
                compile_run(post@.skip(idx as int), frags_view(stack@), graph@) == compile_run(
                    post@,
                    Seq::<FragModel>::empty(),
                    graph_init(),
                ),
            decreases n - idx,
        {
            let ghost pre_stack = frags_view(stack@);
            let ghost pre_g = graph@;
            let c = post.get_char(idx);
            proof {
                assert(post@.skip(idx as int)[0] == post@[idx as int]);
                assert(post@.skip(idx as int).skip(1) =~= post@.skip(idx as int + 1));
            }
            match c {
                '.' => {
                    if stack.len() < 2 {
                        proof {
                            assert(compile_step('.', pre_stack, pre_g) is None);
                        }
                        return graph;
                    }
                    graph.op_concat(&mut stack);
                },
                '|' => {
                    if stack.len() < 2 {
                        proof {
                            assert(compile_step('|', pre_stack, pre_g) is None);
                        }
                        return graph;
                    }
                    graph.op_alt(&mut stack);
                },
                '?' => {
                    if stack.len() == 0 {
                        proof {
                            assert(compile_step('?', pre_stack, pre_g) is None);
                        }
                        return graph;
                    }
                    graph.op_question(&mut stack);
                },
                '*' => {
                    if stack.len() == 0 {
                        proof {
                            assert(compile_step('*', pre_stack, pre_g) is None);
                        }
                        return graph;
                    }
                    graph.op_star(&mut stack);
                },
                '+' => {
                    if stack.len() == 0 {
                        proof {
                            assert(compile_step('+', pre_stack, pre_g) is None);
                        }
                        return graph;
                    }
                    graph.op_plus(&mut stack);
                },
                c2 => {
                    proof {
                        assert(is_postfix_char(post@[idx as int]));
                        assert(!is_postfix_operator(c2));
                    }
                    graph.op_literal(&mut stack, c2);
                },
            }
            idx += 1;
        }
        proof {
            assert(post@.skip(n as int) =~= Seq::<char>::empty());
        }
        let frag = stack.pop();
        match frag {
            Some(frag) => {
                proof {
                    let run = compile_run(post@, Seq::<FragModel>::empty(), graph_init());
                    assert(run.stack.last() == frag@);
                    assert(frag_in_bounds(frag@, graph@.states.len()));
                }
                graph.start = frag.start;
                graph.ends = frag.end;
                proof {
                    assert(graph@ == spec_compile(post@));
                }
                graph
            },
            None => {
                graph
            },
        }
    }
}

/// The set of identifiers a list of them denotes.
pub open spec fn ids_set(s: Seq<StateId>) -> Set<nat> {
    ids_view(s).to_set()
}

/// The entry accepts the character `c`.
spec fn is_char_out(p: (StateId, Transition), c: char) -> bool {
    match p.1@ {
        TransModel::Chars(cs) => cs.contains(c),
        TransModel::Epsilon => false,
    }
}

/// A list of pairwise distinct identifiers below `n` holds at most `n` of
/// them.
proof fn lemma_distinct_bounded(s: Seq<nat>, n: nat)
    requires
        s.no_duplicates(),
        forall|i: int| 0 <= i < s.len() ==> s[i] < n,
    ensures
        s.len() <= n,
{
    let si = s.map_values(|x: nat| x as int);
    assert(si.no_duplicates()) by {
        assert forall|i: int, j: int|
            0 <= i < si.len() && 0 <= j < si.len() && i != j implies si[i] != si[j] by {
            assert(s[i] != s[j]);
        }
    }
    si.unique_seq_to_set();
    vstd::set_lib::lemma_int_range(0, n as int);
    assert(si.to_set().subset_of(vstd::set_lib::set_int_range(0, n as int))) by {
        assert forall|x: int| si.to_set().contains(x) implies vstd::set_lib::set_int_range(
            0,
            n as int,
        ).contains(x) by {
            let i = choose|i: int| 0 <= i < si.len() && si[i] == x;
            assert(s[i] < n);
        }
    }
    vstd::set_lib::lemma_len_subset(si.to_set(), vstd::set_lib::set_int_range(0, n as int));
}

/// Whether the list holds the given identifier.
#[verifier::loop_isolation(false)]
fn contains_id(v: &Vec<StateId>, id: StateId) -> (r: bool)
    ensures
        r == ids_view(v@).contains(id@),
{
    let mut i: usize = 0;
    while i < v.len()
        invariant
            i <= v@.len(),
            forall|j: int| 0 <= j < i ==> ids_view(v@)[j] != id@,
        decreases v@.len() - i,
    {
        if v[i].0 == id.0 {
            proof {
                assert(ids_view(v@)[i as int] == id@);
            }
            return true;
        }
        proof {
            assert(ids_view(v@)[i as int] == v@[i as int]@);
        }
        i += 1;
    }
    proof {
        assert forall|j: int| 0 <= j < ids_view(v@).len() implies ids_view(v@)[j] != id@ by {}
    }
    false
}

/// Whether the list holds the given character.
#[verifier::loop_isolation(false)]
fn contains_char(v: &Vec<char>, c: char) -> (r: bool)
    ensures
        r == v@.contains(c),
{
    let mut i: usize = 0;
    while i < v.len()
        invariant
            i <= v@.len(),
            forall|j: int| 0 <= j < i ==> v@[j] != c,
        decreases v@.len() - i,
    {
        if v[i] == c {
            return true;
        }
        i += 1;
    }
    false
}

/// Appending an identifier inserts it into the denoted set.
proof fn lemma_ids_set_push(s: Seq<StateId>, id: StateId)
    ensures
        ids_set(s.push(id)) == ids_set(s).insert(id@),
{
    let sv = ids_view(s);
    let pv = ids_view(s.push(id));
    assert(pv =~= sv.push(id@));
    assert forall|x: nat| ids_set(s.push(id)).contains(x) implies ids_set(s).insert(
        id@,
    ).contains(x) by {
        let i = choose|i: int| 0 <= i < pv.len() && pv[i] == x;
        if i < sv.len() {
            assert(sv[i] == x);
        }
    }
    assert forall|x: nat| ids_set(s).insert(id@).contains(x) implies ids_set(
        s.push(id),
    ).contains(x) by {
        if x == id@ {
            assert(pv[sv.len() as int] == x);
        } else {
            let i = choose|i: int| 0 <= i < sv.len() && sv[i] == x;
            assert(pv[i] == x);
        }
    }
    assert(ids_set(s.push(id)) =~= ids_set(s).insert(id@));
}

/// Append the identifier unless the list already holds it.
#[verifier::loop_isolation(false)]
fn push_unique(v: &mut Vec<StateId>, id: StateId)
    requires
        ids_view(old(v)@).no_duplicates(),
    ensures
        ids_view(final(v)@).no_duplicates(),
        ids_set(final(v)@) == ids_set(old(v)@).insert(id@),
        final(v)@ == old(v)@ || final(v)@ == old(v)@.push(id),
{
    if !contains_id(v, id) {
        v.push(id);
        proof {
            assert(ids_view(v@) =~= ids_view(old(v)@).push(id@));
            assert forall|i: int, j: int|
                0 <= i < ids_view(v@).len() && 0 <= j < ids_view(v@).len() && i != j implies
                ids_view(v@)[i] != ids_view(v@)[j] by {
                if i < ids_view(v@).len() - 1 && j < ids_view(v@).len() - 1 {
                } else {
                    assert(!ids_view(old(v)@).contains(id@));
                }
            }
            lemma_ids_set_push(old(v)@, id);
        }
    } else {
        proof {
            assert(ids_set(v@) =~= ids_set(old(v)@).insert(id@));
        }
    }
}

impl NFAGraph {
    /// Whether some state of the set has no outgoing edges.
    #[verifier::loop_isolation(false)]
    fn has_accepting(&self, set: &Vec<StateId>) -> (r: bool)
        requires
            self.basic_wf(),
            forall|i: int| 0 <= i < set@.len() ==> (#[trigger] set@[i])@ < self@.states.len(),
        ensures
            r == exists|s: nat| ids_set(set@).contains(s) && is_accepting(self@, s),
    {
        let mut q: usize = 0;
        while q < set.len()
            invariant
                q <= set@.len(),
                forall|j: int| 0 <= j < q ==> !is_accepting(self@, (#[trigger] set@[j])@),
            decreases set@.len() - q,
        {
            let sid = set[q];
            let st = &self.states[sid.0];
            proof {
                assert(self@.states[sid@ as int] == self.states@[sid@ as int]@);
                lemma_outs_map_empty(st.outs@);
            }
            if st.outs.len() == 0 {
                proof {
                    assert(is_accepting(self@, sid@));
                    assert(ids_view(set@)[q as int] == sid@);
                    assert(ids_set(set@).contains(sid@));
                }
                return true;
            }
            proof {
                assert(!is_accepting(self@, sid@));
            }
            q += 1;
        }
        proof {
            assert forall|s: nat| ids_set(set@).contains(s) implies !is_accepting(self@, s) by {
                let j = choose|j: int| 0 <= j < ids_view(set@).len() && ids_view(set@)[j] == s;
                assert(set@[j]@ == s);
            }
        }
        false
    }

    /// The set of states reachable from the given set by one edge that
    /// accepts `c`.
    #[verifier::loop_isolation(false)]
    fn move2(&self, c: char, current_set: &Vec<StateId>) -> (r: Vec<StateId>)
        requires
            self.basic_wf(),
            forall|i: int|
                0 <= i < current_set@.len() ==> (#[trigger] current_set@[i])@
                    < self@.states.len(),
        ensures
            ids_set(r@) == spec_move(self@, c, ids_set(current_set@)),
            ids_view(r@).no_duplicates(),
            forall|i: int| 0 <= i < r@.len() ==> (#[trigger] r@[i])@ < self@.states.len(),
    {
        let ghost cur = ids_set(current_set@);
        let ghost target = spec_move(self@, c, cur);
        let mut next_set: Vec<StateId> = Vec::new();
        let mut a: usize = 0;
        while a < current_set.len()
            invariant
                a <= current_set@.len(),
                ids_view(next_set@).no_duplicates(),
                forall|i: int|
                    0 <= i < next_set@.len() ==> (#[trigger] next_set@[i])@
                        < self@.states.len(),
                forall|i: int|
                    0 <= i < next_set@.len() ==> target.contains((#[trigger] next_set@[i])@),
                forall|ai: int, t: nat|
                    0 <= ai < a && #[trigger] has_char_edge(self@, current_set@[ai]@, t, c)
                        ==> ids_set(next_set@).contains(t),
            decreases current_set@.len() - a,
        {
            let sid = current_set[a];
            let st = &self.states[sid.0];
            proof {
                assert(self@.states[sid@ as int] == st@);
                assert(ids_view(current_set@)[a as int] == sid@);
                assert(cur.contains(sid@));
            }
            let mut j: usize = 0;
            while j < st.outs.len()
                invariant
                    j <= st.outs@.len(),
                    ids_view(next_set@).no_duplicates(),
                    forall|i: int|
                        0 <= i < next_set@.len() ==> (#[trigger] next_set@[i])@
                            < self@.states.len(),
                    forall|i: int|
                        0 <= i < next_set@.len() ==> target.contains((#[trigger] next_set@[i])@),
                    forall|ai: int, t: nat|
                        0 <= ai < a && #[trigger] has_char_edge(self@, current_set@[ai]@, t, c)
                            ==> ids_set(next_set@).contains(t),
                    forall|jj: int|
                        0 <= jj < j && is_char_out(#[trigger] st.outs@[jj], c) ==> ids_set(
                            next_set@,
                        ).contains(st.outs@[jj].0@),
                decreases st.outs@.len() - j,
            {
                let keep: bool = match &st.outs[j].1 {
                    Transition::Char(cs) => contains_char(cs, c),
                    Transition::Epsilon => false,
                };
                if keep {
                    let dest = st.outs[j].0;
                    proof {
                        lemma_outs_map_key(st.outs@, j as int);
                        assert(has_char_edge(self@, sid@, dest@, c));
                        assert(target.contains(dest@));
                        assert(dest@ < self@.states.len());
                    }
                    push_unique(&mut next_set, dest);
                }
                j += 1;
            }
            proof {
                assert forall|t: nat| has_char_edge(self@, sid@, t, c) implies ids_set(
                    next_set@,
                ).contains(t) by {
                    if forall|jj: int|
                        0 <= jj < st.outs@.len() ==> (#[trigger] st.outs@[jj]).0@ != t {
                        lemma_outs_map_no_key(st.outs@, t);
                        assert(false);
                    } else {
                        let jj = choose|jj: int|
                            0 <= jj < st.outs@.len() && (#[trigger] st.outs@[jj]).0@ == t;
                        lemma_outs_map_key(st.outs@, jj);
                        assert(st.outs@[jj].1@ == self@.states[sid@ as int][t]);
                        assert(is_char_out(st.outs@[jj], c));
                    }
                }
            }
            a += 1;
        }
        proof {
            assert(ids_set(next_set@) =~= target) by {
                assert forall|t: nat| target.contains(t) implies ids_set(next_set@).contains(
                    t,
                ) by {
                    let x = choose|x: nat| cur.contains(x) && has_char_edge(self@, x, t, c);
                    let ai = choose|ai: int|
                        0 <= ai < ids_view(current_set@).len() && ids_view(current_set@)[ai] == x;
                    assert(current_set@[ai]@ == x);
                }
                assert forall|t: nat| ids_set(next_set@).contains(t) implies target.contains(
                    t,
                ) by {
                    let i = choose|i: int|
                        0 <= i < ids_view(next_set@).len() && ids_view(next_set@)[i] == t;
                    assert(next_set@[i]@ == t);
                }
            }
        }
        next_set
    }

    /// The epsilon closure of the given set: a breadth-first expansion
    /// along epsilon edges until no new state is reachable.
    #[verifier::loop_isolation(false)]
    fn closure(&self, current_set: Vec<StateId>) -> (r: Vec<StateId>)
        requires
            self.basic_wf(),
            ids_view(current_set@).no_duplicates(),
            forall|i: int|
                0 <= i < current_set@.len() ==> (#[trigger] current_set@[i])@
                    < self@.states.len(),
        ensures
            ids_set(r@) == spec_closure(self@, ids_set(current_set@)),
            ids_view(r@).no_duplicates(),
            forall|i: int| 0 <= i < r@.len() ==> (#[trigger] r@[i])@ < self@.states.len(),
    {
        let ghost from = ids_set(current_set@);
        let mut closure_set = current_set;
        proof {
            lemma_distinct_bounded(ids_view(closure_set@), self@.states.len());
            assert forall|j: int| 0 <= j < closure_set@.len() implies eps_reachable(
                self@,
                from,
                (#[trigger] closure_set@[j])@,
            ) by {
                assert(ids_view(closure_set@)[j] == closure_set@[j]@);
                lemma_eps_base(self@, from, closure_set@[j]@);
            }
        }
        let mut head: usize = 0;
        while head < closure_set.len()
            invariant
                head <= closure_set@.len(),
                ids_view(closure_set@).no_duplicates(),
                closure_set@.len() <= self@.states.len(),
                forall|i: int|
                    0 <= i < closure_set@.len() ==> (#[trigger] closure_set@[i])@
                        < self@.states.len(),
                forall|x: nat| from.contains(x) ==> ids_set(closure_set@).contains(x),
                forall|j: int|
                    0 <= j < closure_set@.len() ==> eps_reachable(
                        self@,
                        from,
                        (#[trigger] closure_set@[j])@,
                    ),
                forall|j: int, b: nat|
                    0 <= j < head && #[trigger] has_eps_edge(self@, closure_set@[j]@, b)
                        ==> ids_set(closure_set@).contains(b),
            decreases
                    self@.states.len() - ids_view(closure_set@).len(),
                    closure_set@.len() - head,
        {
            let sid = closure_set[head];
            let st = &self.states[sid.0];
            let ghost pre = closure_set@;
            proof {
                assert(self@.states[sid@ as int] == st@);
            }
            let mut j: usize = 0;
            while j < st.outs.len()
                invariant
                    j <= st.outs@.len(),
                    head < closure_set@.len(),
                    pre.is_prefix_of(closure_set@),
                    closure_set@[head as int] == sid,
                    ids_view(closure_set@).no_duplicates(),
                    closure_set@.len() <= self@.states.len(),
                    forall|i: int|
                        0 <= i < closure_set@.len() ==> (#[trigger] closure_set@[i])@
                            < self@.states.len(),
                    forall|x: nat| from.contains(x) ==> ids_set(closure_set@).contains(x),
                    forall|jx: int|
                        0 <= jx < closure_set@.len() ==> eps_reachable(
                            self@,
                            from,
                            (#[trigger] closure_set@[jx])@,
                        ),
                    forall|jx: int, b: nat|
                        0 <= jx < head && #[trigger] has_eps_edge(self@, closure_set@[jx]@, b)
                            ==> ids_set(closure_set@).contains(b),
                    forall|jj: int|
                        0 <= jj < j && (#[trigger] st.outs@[jj]).1@ == TransModel::Epsilon
                            ==> ids_set(closure_set@).contains(st.outs@[jj].0@),
                decreases st.outs@.len() - j,
            {
                let is_eps: bool = match &st.outs[j].1 {
                    Transition::Epsilon => true,
                    Transition::Char(_) => false,
                };
                if is_eps {
                    let dest = st.outs[j].0;
                    proof {
                        lemma_outs_map_key(st.outs@, j as int);
                        assert(has_eps_edge(self@, sid@, dest@));
                        assert(dest@ < self@.states.len());
                        lemma_eps_extend(self@, from, sid@, dest@);
                    }
                    let ghost before = closure_set@;
                    push_unique(&mut closure_set, dest);
                    proof {
                        if closure_set@ != before {
                            assert(closure_set@ == before.push(dest));
                            lemma_distinct_bounded(ids_view(closure_set@), self@.states.len());
                            assert forall|jx: int|
                                0 <= jx < closure_set@.len() implies eps_reachable(
                                self@,
                                from,
                                (#[trigger] closure_set@[jx])@,
                            ) by {
                                if jx < before.len() {
                                    assert(closure_set@[jx] == before[jx]);
                                } else {
                                    assert(closure_set@[jx] == dest);
                                }
                            }
                        }
                        assert(pre.is_prefix_of(closure_set@));
                    }
                }
                j += 1;
            }
            proof {
                assert forall|b: nat| has_eps_edge(self@, sid@, b) implies ids_set(
                    closure_set@,
                ).contains(b) by {
                    if forall|jj: int|
                        0 <= jj < st.outs@.len() ==> (#[trigger] st.outs@[jj]).0@ != b {
                        lemma_outs_map_no_key(st.outs@, b);
                        assert(false);
                    } else {
                        let jj = choose|jj: int|
                            0 <= jj < st.outs@.len() && (#[trigger] st.outs@[jj]).0@ == b;
                        lemma_outs_map_key(st.outs@, jj);
                        assert(st.outs@[jj].1@ == self@.states[sid@ as int][b]);
                        assert(st.outs@[jj].1@ == TransModel::Epsilon);
                    }
                }
            }
            head += 1;
        }
        proof {
            let s = ids_set(closure_set@);
            assert forall|a: nat, b: nat|
                s.contains(a) && #[trigger] has_eps_edge(self@, a, b) implies s.contains(b) by {
                let j = choose|j: int|
                    0 <= j < ids_view(closure_set@).len() && ids_view(closure_set@)[j] == a;
                assert(closure_set@[j]@ == a);
            }
            assert(from.subset_of(s));
            assert(s =~= spec_closure(self@, from)) by {
                assert forall|t: nat| s.contains(t) implies spec_closure(self@, from).contains(
                    t,
                ) by {
                    let j = choose|j: int|
                        0 <= j < ids_view(closure_set@).len() && ids_view(closure_set@)[j] == t;
                    assert(closure_set@[j]@ == t);
                }
                assert forall|t: nat| spec_closure(self@, from).contains(t) implies s.contains(
                    t,
                ) by {
                    lemma_closed_covers(self@, from, s, t);
                }
            }
        }
        closure_set
    }

    /// Simulate the automaton over the input from the given start state.
    #[verifier::loop_isolation(false)]
    fn check_match(&self, s: &str, state_id: StateId) -> (r: bool)
        requires
            self.basic_wf(),
            state_id@ < self@.states.len(),
        ensures
            r == spec_match_from_state(self@, s@, state_id@),
    {
        let mut current_set: Vec<StateId> = Vec::new();
        current_set.push(state_id);
        proof {
            assert(ids_view(current_set@) =~= seq![state_id@]);
            assert forall|x: nat| ids_set(current_set@).contains(x) implies Set::<nat>::empty()
                .insert(state_id@).contains(x) by {
                let i = choose|i: int|
                    0 <= i < ids_view(current_set@).len() && ids_view(current_set@)[i] == x;
            }
            assert forall|x: nat| Set::<nat>::empty().insert(state_id@).contains(x)
                implies ids_set(current_set@).contains(x) by {
                assert(ids_view(current_set@)[0] == state_id@);
            }
            assert(ids_set(current_set@) =~= Set::<nat>::empty().insert(state_id@));
        }
        let mut next_set = self.closure(current_set);
        let n = s.unicode_len();
        proof {
            assert(s@.skip(0) =~= s@);
        }
        let mut i: usize = 0;
        while i < n
            invariant
                i <= n,
                n == s@.len(),
                ids_view(next_set@).no_duplicates(),
                forall|k: int|
                    0 <= k < next_set@.len() ==> (#[trigger] next_set@[k])@
                        < self@.states.len(),
                match_from(self@, s@.skip(i as int), ids_set(next_set@))
                    == spec_match_from_state(self@, s@, state_id@),
            decreases n - i,
        {
            let c = s.get_char(i);
            let ghost pre_set = ids_set(next_set@);
            proof {
                assert(s@.skip(i as int)[0] == s@[i as int]);
                assert(s@.skip(i as int).skip(1) =~= s@.skip(i as int + 1));
            }
            let stepped = self.move2(c, &next_set);
            next_set = self.closure(stepped);
            if next_set.len() == 0 {
                proof {
                    assert(ids_view(next_set@).len() == 0);
                    assert(ids_set(next_set@) =~= Set::<nat>::empty());
                }
                return false;
            }
            proof {
                assert(ids_view(next_set@)[0] == next_set@[0]@);
                assert(ids_set(next_set@).contains(next_set@[0]@));
                assert(ids_set(next_set@) != Set::<nat>::empty());
            }
            if i + 1 == n {
                if self.has_accepting(&next_set) {
                    return true;
                }
            }
            i += 1;
        }
        proof {
            assert(s@.skip(n as int) =~= Seq::<char>::empty());
        }
        false
    }

    /// Whether the automaton matches the whole input string: the match
    /// must consume every character, and acceptance asks only that some
    /// reached state has no outgoing edges once the last character is
    /// read. The empty input never matches, and the recorded `ends` play
    /// no part.
    pub fn is_match(&self, s: &str) -> (r: bool)
        requires
            self.wf(),
        ensures
            r == spec_is_match(self@, s@),
            s@.len() == 0 ==> r == false,
    {
        self.check_match(s, self.start)
    }
}

/// The counter-pair stack a list of saved counters denotes.
pub open spec fn groups_view(s: Seq<(usize, usize)>) -> Seq<(nat, nat)> {
    s.map_values(|p: (usize, usize)| (p.0 as nat, p.1 as nat))
}

/// Rewrite an infix pattern to postfix form: concatenation becomes an
/// explicit operator, and alternation and grouping are resolved by
/// deferring operator emission until the group closes. `None` when the
/// pattern is malformed: an unmatched parenthesis, an operator or an
/// alternation without its operand, an empty group, or a character that is
/// neither alphanumeric nor an operator.
#[verifier::loop_isolation(false)]
pub fn re2post(re: &str) -> (r: Option<String>)
    ensures
        r.is_some() == spec_re2post(re@).is_some(),
        r matches Some(out) ==> spec_re2post(re@) == Some(out@),
{
    let mut postfix: Vec<char> = Vec::new();
    let mut paren: Vec<(usize, usize)> = Vec::new();
    let mut natom: usize = 0;
    let mut nalt: usize = 0;
    let n = re.unicode_len();
    proof {
        assert(re@.skip(0) =~= re@);
        assert(groups_view(paren@) =~= Seq::<(nat, nat)>::empty());
    }
    let mut i: usize = 0;
    while i < n
        invariant
            i <= n,
            n == re@.len(),
            natom <= 2,
            nalt <= i,
            forall|k: int| 0 <= k < paren@.len() ==> (#[trigger] paren@[k]).0 <= 1,
            forall|k: int| 0 <= k < paren@.len() ==> (#[trigger] paren@[k]).1 <= i,
            conv_from(
                re@.skip(i as int),
                ConvState {
                    natom: natom as nat,
                    nalt: nalt as nat,
                    groups: groups_view(paren@),
                    out: postfix@,
                },
            ) == spec_re2post(re@),
        decreases n - i,
    {
        let c = re.get_char(i);
        let ghost st0 = ConvState {
            natom: natom as nat,
            nalt: nalt as nat,
            groups: groups_view(paren@),
            out: postfix@,
        };
        proof {
            assert(re@.skip(i as int)[0] == re@[i as int]);
            assert(re@.skip(i as int).skip(1) =~= re@.skip(i as int + 1));
        }
        match c {
            '(' => {
                if natom > 1 {
                    natom -= 1;
                    postfix.push('.');
                }
                paren.push((natom, nalt));
                natom = 0;
                nalt = 0;
                proof {
                    assert(groups_view(paren@) =~= conv_step('(', st0).unwrap().groups);
                    assert(conv_step('(', st0) == Some(
                        ConvState {
                            natom: natom as nat,
                            nalt: nalt as nat,
                            groups: groups_view(paren@),
                            out: postfix@,
                        },
                    ));
                }
            },
            '|' => {
                nalt += 1;
                if natom == 0 {
                    proof {
                        assert(conv_step('|', st0) is None);
                    }
                    return None;
                }
                while natom > 1
                    invariant
                        natom >= 1,
                        flush_dots(natom as nat, postfix@) == flush_dots(st0.natom, st0.out),
                    decreases natom,
                {
                    natom -= 1;
                    postfix.push('.');
                }
                if natom == 1 {
                    natom = 0;
                }
                proof {
                    assert(conv_step('|', st0) == Some(
                        ConvState {
                            natom: natom as nat,
                            nalt: nalt as nat,
                            groups: groups_view(paren@),
                            out: postfix@,
                        },
                    ));
                }
            },
            ')' => {
                if paren.len() == 0 {
                    proof {
                        assert(conv_step(')', st0) is None);
                    }
                    return None;
                }
                if natom == 0 {
                    proof {
                        assert(conv_step(')', st0) is None);
                    }
                    return None;
                }
                while natom > 1
                    invariant
                        natom >= 1,
                        flush_dots(natom as nat, postfix@) == flush_dots(st0.natom, st0.out),
                    decreases natom,
                {
                    natom -= 1;
                    postfix.push('.');
                }
                let ghost out1 = postfix@;
                while nalt > 0
                    invariant
                        flush_alts(nalt as nat, postfix@) == flush_alts(st0.nalt, out1),
                    decreases nalt,
                {
                    nalt -= 1;
                    postfix.push('|');
                }
                let p = paren.pop().unwrap();
                natom = p.0 + 1;
                nalt = p.1;
                proof {
                    assert(st0.groups.last() == (p.0 as nat, p.1 as nat));
                    assert(groups_view(paren@) =~= st0.groups.drop_last());
                    assert(conv_step(')', st0) == Some(
                        ConvState {
                            natom: natom as nat,
                            nalt: nalt as nat,
                            groups: groups_view(paren@),
                            out: postfix@,
                        },
                    ));
                }
            },
            '*' => {
                if natom == 0 {
                    proof {
                        assert(conv_step('*', st0) is None);
                    }
                    return None;
                }
                postfix.push('*');
            },
            '+' => {
                if natom == 0 {
                    proof {
                        assert(conv_step('+', st0) is None);
                    }
                    return None;
                }
                postfix.push('+');
            },
            '?' => {
                if natom == 0 {
                    proof {
                        assert(conv_step('?', st0) is None);
                    }
                    return None;
                }
                postfix.push('?');
            },
            '.' => {
                proof {
                    assert(conv_step('.', st0) is None);
                }
                return None;
            },
            c2 => {
                if char_is_alphanumeric(c2) {
                    if natom > 1 {
                        natom -= 1;
                        postfix.push('.');
                    }
                    postfix.push(c2);
                    natom += 1;
                    proof {
                        assert(conv_step(c2, st0) == Some(
                            ConvState {
                                natom: natom as nat,
                                nalt: nalt as nat,
                                groups: groups_view(paren@),
                                out: postfix@,
                            },
                        ));
                    }
                } else {
                    proof {
                        assert(conv_step(c2, st0) is None);
                    }
                    return None;
                }
            },
        }
        i += 1;
    }
    proof {
        assert(re@.skip(n as int) =~= Seq::<char>::empty());
    }
    if paren.len() > 0 {
        return None;
    }
    if natom == 0 && nalt > 0 {
        return None;
    }
    let ghost st_end = ConvState {
        natom: natom as nat,
        nalt: nalt as nat,
        groups: groups_view(paren@),
        out: postfix@,
    };
    while natom > 1
        invariant
            flush_dots(natom as nat, postfix@) == flush_dots(st_end.natom, st_end.out),
        decreases natom,
    {
        natom -= 1;
        postfix.push('.');
    }
    let ghost out1 = postfix@;
    while nalt > 0
        invariant
            flush_alts(nalt as nat, postfix@) == flush_alts(st_end.nalt, out1),
        decreases nalt,
    {
        nalt -= 1;
        postfix.push('|');
    }
    proof {
        assert(spec_re2post(re@) == Some(postfix@));
    }
    Some(string_from_chars(&postfix))
}

/// Compile a pattern, or report that it is malformed: the result is
/// `None` exactly when the converter rejects the pattern.
pub fn compile_pattern(pattern: &str) -> (r: Option<NFAGraph>)
    requires
        4 * pattern@.len() <= usize::MAX,
    ensures
        r.is_some() == spec_re2post(pattern@).is_some(),
        r matches Some(g) ==> {
            &&& g@ == spec_compile(spec_re2post(pattern@).unwrap())
            &&& g.basic_wf()
            &&& g@.states.len() > 0 ==> g.wf()
        },
{
    match re2post(pattern) {
        Some(_) => Some(NFAGraph::new(pattern)),
        None => None,
    }
}

/// The denoted mapping is empty exactly when the edge list is.
proof fn lemma_outs_map_empty(s: Seq<(StateId, Transition)>)
    ensures
        s.len() == 0 ==> outs_map(s).dom() == Set::<nat>::empty(),
        s.len() > 0 ==> outs_map(s).dom() != Set::<nat>::empty(),
{
    if s.len() == 0 {
        assert(outs_map(s).dom() =~= Set::<nat>::empty());
    } else {
        assert(outs_map(s).contains_key(s.last().0@));
        assert(outs_map(s).dom().contains(s.last().0@));
    }
}

} // verus!
