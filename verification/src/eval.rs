use vstd::prelude::*;

use crate::token::{Tok, Token, wf_postfix};
use crate::tree::{Operation, built_shape, complete, lemma_built_tree_complete, tree_postfix};

verus! {

/// The value of an expression tree under an arbitrary arithmetic: `v` reads
/// a numeral, `f` combines two operand values under an operator symbol.  The
/// numeric fold that runs outside this library follows exactly this
/// recursion, reading numerals and combining operands as 64-bit floats; the
/// laws below hold for every `v` and `f`, and so for that reading among
/// them.  A missing operand or a missing value counts as zero; a complete
/// tree has neither.
pub open spec fn tree_eval(
    t: Operation,
    v: spec_fn(Seq<char>) -> int,
    f: spec_fn(char, int, int) -> int,
) -> int
    decreases t,
{
    match t.value {
        None => 0,
        Some(tok) => match tok {
            Token::Num(text) => v(text@),
            Token::Op(c) => f(
                c,
                match t.left_op {
                    None => 0,
                    Some(l) => tree_eval(*l, v, f),
                },
                match t.right_op {
                    None => 0,
                    Some(r) => tree_eval(*r, v, f),
                },
            ),
        },
    }
}

/// One move of the plain operand-stack reading of a postfix sequence: a
/// number pushes its value; an operator replaces the two topmost values by
/// their combination, the deeper one on the left.
pub open spec fn stack_step(
    st: Seq<int>,
    t: Tok,
    v: spec_fn(Seq<char>) -> int,
    f: spec_fn(char, int, int) -> int,
) -> Seq<int> {
    match t {
        Tok::Num(text) => st.push(v(text)),
        Tok::Op(c) => if st.len() >= 2 {
            st.subrange(0, st.len() - 2).push(f(c, st[st.len() - 2], st[st.len() - 1]))
        } else {
            st
        },
    }
}

/// The operand-stack reading of a whole postfix sequence, left to right,
/// starting from the stack `st`.
pub open spec fn stack_run(
    p: Seq<Tok>,
    st: Seq<int>,
    v: spec_fn(Seq<char>) -> int,
    f: spec_fn(char, int, int) -> int,
) -> Seq<int>
    decreases p.len(),
{
    if p.len() == 0 {
        st
    } else {
        stack_run(p.skip(1), stack_step(st, p[0], v, f), v, f)
    }
}

/// Reading two sequences in a row is reading the first and then the second.
pub proof fn lemma_stack_run_append(
    p1: Seq<Tok>,
    p2: Seq<Tok>,
    st: Seq<int>,
    v: spec_fn(Seq<char>) -> int,
    f: spec_fn(char, int, int) -> int,
)
    ensures
        stack_run(p1 + p2, st, v, f) == stack_run(p2, stack_run(p1, st, v, f), v, f),
    decreases p1.len(),
{
    if p1.len() == 0 {
        assert(p1 + p2 =~= p2);
    } else {
        assert((p1 + p2)[0] == p1[0]);
        assert((p1 + p2).skip(1) =~= p1.skip(1) + p2);
        lemma_stack_run_append(p1.skip(1), p2, stack_step(st, p1[0], v, f), v, f);
    }
}

/// Reading a single token is one move.
pub proof fn lemma_stack_run_single(
    x: Tok,
    st: Seq<int>,
    v: spec_fn(Seq<char>) -> int,
    f: spec_fn(char, int, int) -> int,
)
    ensures
        stack_run(seq![x], st, v, f) == stack_step(st, x, v, f),
{
    let single = seq![x];
    assert(single[0] == x);
    assert(single.skip(1) =~= Seq::<Tok>::empty());
    assert(stack_run(single, st, v, f) == stack_run(single.skip(1), stack_step(st, x, v, f), v, f));
    assert(stack_run(single.skip(1), stack_step(st, x, v, f), v, f) == stack_step(st, x, v, f));
}

/// Law: a complete tree and its postfix reading agree.  Running the operand
/// stack over the tree's postfix sequence, from any starting stack, pushes
/// exactly the tree's value — under every reading of numerals and every
/// interpretation of the operators.
pub proof fn lemma_tree_eval_stack(
    t: Operation,
    st: Seq<int>,
    v: spec_fn(Seq<char>) -> int,
    f: spec_fn(char, int, int) -> int,
)
    requires
        complete(t),
    ensures
        stack_run(tree_postfix(t), st, v, f) == st.push(tree_eval(t, v, f)),
    decreases t,
{
    match t.value {
        None => {},
        Some(tok) => match tok {
            Token::Num(text) => {
                let tokv = Tok::Num(text@);
                assert(tree_postfix(t) =~= seq![tokv]);
                lemma_stack_run_single(tokv, st, v, f);
            },
            Token::Op(c) => {
                let tokv = Tok::Op(c);
                let lt = match t.left_op {
                    None => t,
                    Some(l) => *l,
                };
                let rt = match t.right_op {
                    None => t,
                    Some(r) => *r,
                };
                let lser = tree_postfix(lt);
                let rser = tree_postfix(rt);
                let lv = tree_eval(lt, v, f);
                let rv = tree_eval(rt, v, f);
                assert(tree_postfix(t) == lser + rser + seq![tokv]);
                assert(tree_postfix(t) =~= lser + (rser + seq![tokv]));
                lemma_tree_eval_stack(lt, st, v, f);
                lemma_stack_run_append(lser, rser + seq![tokv], st, v, f);
                lemma_tree_eval_stack(rt, st.push(lv), v, f);
                lemma_stack_run_append(rser, seq![tokv], st.push(lv), v, f);
                let st2 = st.push(lv).push(rv);
                lemma_stack_run_single(tokv, st2, v, f);
                assert(st2.len() >= 2);
                assert(st2[st2.len() - 2] == lv);
                assert(st2[st2.len() - 1] == rv);
                assert(st2.subrange(0, st2.len() - 2) =~= st);
                assert(tree_eval(t, v, f) == f(c, lv, rv));
            },
        },
    }
}

/// Law: building and then evaluating round-trips through postfix.  For a
/// postfix sequence that is the reading of some complete tree — as every
/// sequence the tree builder consumes in full is — evaluating that tree
/// gives the one value that the plain operand-stack reading of the sequence
/// leaves behind, under every reading of numerals and operators.
pub proof fn lemma_postfix_round_trip(
    p: Seq<Tok>,
    t: Operation,
    v: spec_fn(Seq<char>) -> int,
    f: spec_fn(char, int, int) -> int,
)
    requires
        complete(t),
        tree_postfix(t) == p,
    ensures
        stack_run(p, Seq::<int>::empty(), v, f) == seq![tree_eval(t, v, f)],
{
    lemma_tree_eval_stack(t, Seq::<int>::empty(), v, f);
    assert(Seq::<int>::empty().push(tree_eval(t, v, f)) =~= seq![tree_eval(t, v, f)]);
}

/// Law: the value of a complete tree depends on its postfix reading alone.
/// Two complete trees with the same postfix sequence evaluate alike under
/// every reading of numerals and operators; with the tree builder's own
/// contract, re-running the build on the same postfix sequence can only
/// yield the same value again.
pub proof fn lemma_postfix_determines_value(
    t1: Operation,
    t2: Operation,
    v: spec_fn(Seq<char>) -> int,
    f: spec_fn(char, int, int) -> int,
)
    requires
        complete(t1),
        complete(t2),
        tree_postfix(t1) == tree_postfix(t2),
    ensures
        tree_eval(t1, v, f) == tree_eval(t2, v, f),
{
    lemma_tree_eval_stack(t1, Seq::<int>::empty(), v, f);
    lemma_tree_eval_stack(t2, Seq::<int>::empty(), v, f);
    let s1 = Seq::<int>::empty().push(tree_eval(t1, v, f));
    let s2 = Seq::<int>::empty().push(tree_eval(t2, v, f));
    assert(s1 == s2);
    assert(s1[0] == s2[0]);
}

/// Law: building from a well-formed postfix sequence and evaluating the
/// tree reproduces the sequence's one operand-stack value.  The hypotheses
/// are exactly what the tree builder's contract gives of its result on such
/// a sequence: the tree came back in the built shape, reading as the suffix
/// it consumed, and an incomplete tree can only mean the tokens ran out.
pub proof fn lemma_build_eval_round_trip(
    t: Operation,
    p: Seq<Tok>,
    rem: Seq<Tok>,
    v: spec_fn(Seq<char>) -> int,
    f: spec_fn(char, int, int) -> int,
)
    requires
        built_shape(t),
        wf_postfix(p),
        p == rem + tree_postfix(t),
        !complete(t) ==> rem.len() == 0,
    ensures
        complete(t),
        rem.len() == 0,
        stack_run(p, Seq::<int>::empty(), v, f) == seq![tree_eval(t, v, f)],
{
    lemma_built_tree_complete(t, p, rem);
    lemma_postfix_round_trip(p, t, v, f);
}

} // verus!
