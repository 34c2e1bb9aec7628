use vstd::prelude::*;

use crate::model::conv_from;
use crate::model::conv_init;
use crate::model::conv_step;
use crate::model::count_pattern_literals;
use crate::model::count_postfix_literals;
use crate::model::flush_alts;
use crate::model::flush_dots;
use crate::model::is_postfix_char;
use crate::model::is_postfix_operator;
use crate::model::operand_count;
use crate::model::spec_compile;
use crate::model::spec_re2post;
use crate::model::valid_postfix;
use crate::model::ConvState;
use crate::model::GraphModel;

verus! {

/// The operands the saved counter pairs stand for: each saved atom or
/// alternation holds one operand already emitted.
pub open spec fn group_weight(groups: Seq<(nat, nat)>) -> nat
    decreases groups.len(),
{
    if groups.len() == 0 {
        0
    } else {
        group_weight(groups.drop_last()) + groups.last().0 + groups.last().1
    }
}

/// The operands the whole converter state stands for: pending atoms,
/// pending alternations (each with one stashed operand), and the saved
/// pairs of the enclosing groups.
pub open spec fn state_weight(st: ConvState) -> nat {
    st.natom + st.nalt + group_weight(st.groups)
}

/// Scanning a concatenation scans the parts in turn.
proof fn lemma_operand_count_append(a: Seq<char>, b: Seq<char>, acc: nat)
    ensures
        operand_count(a + b, acc) == (match operand_count(a, acc) {
            Some(m) => operand_count(b, m),
            None => None,
        }),
    decreases a.len(),
{
    if a.len() == 0 {
        assert(a + b =~= b);
    } else {
        assert((a + b)[0] == a[0]);
        assert((a + b).skip(1) =~= a.skip(1) + b);
        let c = a[0];
        if c == '.' || c == '|' {
            if acc >= 2 {
                lemma_operand_count_append(a.skip(1), b, (acc - 1) as nat);
            }
        } else if c == '*' || c == '+' || c == '?' {
            if acc >= 1 {
                lemma_operand_count_append(a.skip(1), b, acc);
            }
        } else {
            lemma_operand_count_append(a.skip(1), b, acc + 1);
        }
    }
}

/// How appending one token changes the operand scan.
proof fn lemma_push_count(s: Seq<char>, c: char, cnt: nat)
    requires
        operand_count(s, 0) == Some(cnt),
    ensures
        (c == '.' || c == '|') && cnt >= 2 ==> operand_count(s.push(c), 0) == Some(
            (cnt - 1) as nat,
        ),
        (c == '*' || c == '+' || c == '?') && cnt >= 1 ==> operand_count(s.push(c), 0) == Some(
            cnt,
        ),
        !is_postfix_operator(c) ==> operand_count(s.push(c), 0) == Some((cnt + 1) as nat),
{
    reveal_with_fuel(operand_count, 3);
    assert(s.push(c) =~= s + seq![c]);
    lemma_operand_count_append(s, seq![c], 0);
    assert(seq![c].len() == 1);
    assert(seq![c][0] == c);
    assert(seq![c].skip(1) =~= Seq::<char>::empty());
}

/// Token counts add up over a concatenation.
proof fn lemma_count_append(a: Seq<char>, b: Seq<char>)
    ensures
        count_postfix_literals(a + b) == count_postfix_literals(a) + count_postfix_literals(b),
    decreases a.len(),
{
    if a.len() == 0 {
        assert(a + b =~= b);
    } else {
        assert((a + b)[0] == a[0]);
        assert((a + b).skip(1) =~= a.skip(1) + b);
        lemma_count_append(a.skip(1), b);
    }
}

/// How appending one token changes the literal count.
proof fn lemma_count_push(s: Seq<char>, c: char)
    ensures
        count_postfix_literals(s.push(c)) == count_postfix_literals(s) + (
        if is_postfix_operator(c) {
            0nat
        } else {
            1nat
        }),
{
    reveal_with_fuel(count_postfix_literals, 3);
    assert(s.push(c) =~= s + seq![c]);
    lemma_count_append(s, seq![c]);
    assert(seq![c].len() == 1);
    assert(seq![c][0] == c);
    assert(seq![c].skip(1) =~= Seq::<char>::empty());
}

/// Flushing pending concatenations: one atom stays, each emitted operator
/// consumes one operand, no literal is added, and every emitted character
/// is a postfix token.
proof fn lemma_flush_dots(natom: nat, out: Seq<char>, cnt: nat)
    requires
        operand_count(out, 0) == Some(cnt),
        natom <= cnt,
        forall|i: int| 0 <= i < out.len() ==> is_postfix_char(#[trigger] out[i]),
    ensures
        ({
            let r = flush_dots(natom, out);
            &&& r.0 == (if natom == 0 {
                0nat
            } else {
                1nat
            })
            &&& operand_count(r.1, 0) == Some(
                (if natom == 0 {
                    cnt
                } else {
                    (cnt - natom + 1) as nat
                }),
            )
            &&& count_postfix_literals(r.1) == count_postfix_literals(out)
            &&& r.1.len() == out.len() + (if natom == 0 {
                0nat
            } else {
                (natom - 1) as nat
            })
            &&& forall|i: int| 0 <= i < r.1.len() ==> is_postfix_char(#[trigger] r.1[i])
        }),
    decreases natom,
{
    if natom > 1 {
        lemma_push_count(out, '.', cnt);
        lemma_count_push(out, '.');
        assert forall|i: int| 0 <= i < out.push('.').len() implies is_postfix_char(
            #[trigger] out.push('.')[i],
        ) by {
            if i < out.len() {
                assert(out.push('.')[i] == out[i]);
            }
        }
        lemma_flush_dots((natom - 1) as nat, out.push('.'), (cnt - 1) as nat);
    }
}

/// Flushing pending alternations: each emitted operator consumes one
/// operand, no literal is added, and every emitted character is a postfix
/// token.
proof fn lemma_flush_alts(nalt: nat, out: Seq<char>, cnt: nat)
    requires
        operand_count(out, 0) == Some(cnt),
        nalt == 0 || nalt + 1 <= cnt,
        forall|i: int| 0 <= i < out.len() ==> is_postfix_char(#[trigger] out[i]),
    ensures
        ({
            let r = flush_alts(nalt, out);
            &&& operand_count(r, 0) == Some((cnt - nalt) as nat)
            &&& count_postfix_literals(r) == count_postfix_literals(out)
            &&& r.len() == out.len() + nalt
            &&& forall|i: int| 0 <= i < r.len() ==> is_postfix_char(#[trigger] r[i])
        }),
    decreases nalt,
{
    if nalt > 0 {
        lemma_push_count(out, '|', cnt);
        lemma_count_push(out, '|');
        assert forall|i: int| 0 <= i < out.push('|').len() implies is_postfix_char(
            #[trigger] out.push('|')[i],
        ) by {
            if i < out.len() {
                assert(out.push('|')[i] == out[i]);
            }
        }
        lemma_flush_alts((nalt - 1) as nat, out.push('|'), (cnt - 1) as nat);
    }
}

/// The inductive heart of the conversion laws: from any converter state
/// whose output scans to exactly the operands the state stands for, a
/// successful run yields a valid postfix string, adds one literal token
/// per literal character consumed, emits postfix tokens only, and emits at
/// most two characters per character consumed.
proof fn lemma_conv_from_props(s: Seq<char>, st: ConvState)
    requires
        conv_from(s, st).is_some(),
        operand_count(st.out, 0) == Some(state_weight(st)),
        forall|i: int| 0 <= i < st.out.len() ==> is_postfix_char(#[trigger] st.out[i]),
    ensures
        ({
            let out = conv_from(s, st).unwrap();
            &&& operand_count(out, 0).is_some()
            &&& count_postfix_literals(out) == count_postfix_literals(st.out)
                + count_pattern_literals(s)
            &&& out.len() <= st.out.len() + state_weight(st) + 2 * s.len()
            &&& forall|i: int| 0 <= i < out.len() ==> is_postfix_char(#[trigger] out[i])
        }),
    decreases s.len(),
{
    let w = state_weight(st);
    if s.len() == 0 {
        lemma_flush_dots(st.natom, st.out, w);
        let r = flush_dots(st.natom, st.out);
        if st.natom == 0 {
            lemma_flush_alts(st.nalt, r.1, w);
        } else {
            lemma_flush_alts(st.nalt, r.1, (w - st.natom + 1) as nat);
        }
    } else {
        let c = s[0];
        let st2 = conv_step(c, st).unwrap();
        assert(conv_from(s.skip(1), st2).is_some());
        assert(count_pattern_literals(s) == (if crate::model::is_pattern_meta(c) {
            0nat
        } else {
            1nat
        }) + count_pattern_literals(s.skip(1)));
        if c == '(' {
            if st.natom > 1 {
                lemma_push_count(st.out, '.', w);
                lemma_count_push(st.out, '.');
                assert forall|i: int| 0 <= i < st2.out.len() implies is_postfix_char(
                    #[trigger] st2.out[i],
                ) by {
                    if i < st.out.len() {
                        assert(st2.out[i] == st.out[i]);
                    }
                }
            }
            assert(st2.groups.drop_last() =~= st.groups);
            assert(group_weight(st2.groups) == group_weight(st.groups) + st2.groups.last().0
                + st2.groups.last().1);
            assert(operand_count(st2.out, 0) == Some(state_weight(st2)));
            lemma_conv_from_props(s.skip(1), st2);
        } else if c == '|' {
            lemma_flush_dots(st.natom, st.out, w);
            assert(operand_count(st2.out, 0) == Some(state_weight(st2)));
            lemma_conv_from_props(s.skip(1), st2);
        } else if c == ')' {
            lemma_flush_dots(st.natom, st.out, w);
            let r = flush_dots(st.natom, st.out);
            lemma_flush_alts(st.nalt, r.1, (w - st.natom + 1) as nat);
            assert(group_weight(st.groups) == group_weight(st.groups.drop_last())
                + st.groups.last().0 + st.groups.last().1);
            assert(operand_count(st2.out, 0) == Some(state_weight(st2)));
            lemma_conv_from_props(s.skip(1), st2);
        } else if c == '*' || c == '+' || c == '?' {
            lemma_push_count(st.out, c, w);
            lemma_count_push(st.out, c);
            assert forall|i: int| 0 <= i < st2.out.len() implies is_postfix_char(
                #[trigger] st2.out[i],
            ) by {
                if i < st.out.len() {
                    assert(st2.out[i] == st.out[i]);
                }
            }
            assert(operand_count(st2.out, 0) == Some(state_weight(st2)));
            lemma_conv_from_props(s.skip(1), st2);
        } else {
            let out1 = if st.natom > 1 {
                st.out.push('.')
            } else {
                st.out
            };
            let cnt1 = if st.natom > 1 {
                (w - 1) as nat
            } else {
                w
            };
            if st.natom > 1 {
                lemma_push_count(st.out, '.', w);
                lemma_count_push(st.out, '.');
                assert forall|i: int| 0 <= i < out1.len() implies is_postfix_char(
                    #[trigger] out1[i],
                ) by {
                    if i < st.out.len() {
                        assert(out1[i] == st.out[i]);
                    }
                }
            }
            lemma_push_count(out1, c, cnt1);
            lemma_count_push(out1, c);
            assert forall|i: int| 0 <= i < st2.out.len() implies is_postfix_char(
                #[trigger] st2.out[i],
            ) by {
                if i < out1.len() {
                    assert(st2.out[i] == out1[i]);
                } else {
                    assert(st2.out[i] == c);
                }
            }
            assert(operand_count(st2.out, 0) == Some(state_weight(st2)));
            lemma_conv_from_props(s.skip(1), st2);
        }
    }
}

/// For every pattern the converter accepts, its postfix form is a valid
/// postfix string: read left to right, every operator finds its operands
/// (two for the multi-operand operators) already emitted. The output holds
/// exactly one literal token per literal (in an accepted pattern:
/// alphanumeric) character of the pattern, consists of postfix tokens
/// only, and is at most twice as long as the pattern.
pub proof fn lemma_convert_valid(p: Seq<char>)
    requires
        spec_re2post(p).is_some(),
    ensures
        ({
            let out = spec_re2post(p).unwrap();
            &&& valid_postfix(out)
            &&& count_postfix_literals(out) == count_pattern_literals(p)
            &&& forall|i: int| 0 <= i < out.len() ==> is_postfix_char(#[trigger] out[i])
            &&& out.len() <= 2 * p.len()
        }),
{
    let st = conv_init();
    assert(operand_count(st.out, 0) == Some(0nat)) by {
        assert(st.out.len() == 0);
    }
    assert(state_weight(st) == 0);
    lemma_conv_from_props(p, st);
}

/// Compiling the same pattern twice yields automata of identical shape:
/// the state count, the edge structure, the start state and the recorded
/// ends are a function of the pattern alone.
pub proof fn lemma_compile_deterministic(p: Seq<char>, g1: GraphModel, g2: GraphModel)
    requires
        spec_re2post(p).is_some(),
        g1 == spec_compile(spec_re2post(p).unwrap()),
        g2 == spec_compile(spec_re2post(p).unwrap()),
    ensures
        g1 == g2,
        g1.states == g2.states,
        g1.start == g2.start,
        g1.ends == g2.ends,
{
}

} // verus!

