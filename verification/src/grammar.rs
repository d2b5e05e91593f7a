use vstd::prelude::*;

use crate::converter::{
    conv_from, conv_step, flush_stack, pop_ge, pop_to_lparen, spec_in2postfix, spec_omit_mult,
    spec_precedence, triggers_mult,
};
use crate::eval::{lemma_stack_run_append, lemma_stack_run_single, stack_run, stack_step};
use crate::token::{Tok, first_char, lemma_num_surplus_append, num_surplus, op_tok, ops, wf_postfix};

verus! {

/// An arithmetic expression as a mathematical object: a numeral, or a
/// binary operator over two expressions.
pub enum SExpr {
    Num(Seq<char>),
    Bin(char, Box<SExpr>, Box<SExpr>),
}

/// The value of an expression under an arbitrary arithmetic: `v` reads a
/// numeral, `f` combines two operand values under an operator symbol.
pub open spec fn sexpr_eval(
    e: SExpr,
    v: spec_fn(Seq<char>) -> int,
    f: spec_fn(char, int, int) -> int,
) -> int
    decreases e,
{
    match e {
        SExpr::Num(s) => v(s),
        SExpr::Bin(c, l, r) => f(c, sexpr_eval(*l, v, f), sexpr_eval(*r, v, f)),
    }
}

/// The postfix writing of an expression: both operands, left first, then
/// the operator.
pub open spec fn sexpr_postfix(e: SExpr) -> Seq<Tok>
    decreases e,
{
    match e {
        SExpr::Num(s) => seq![Tok::Num(s)],
        SExpr::Bin(c, l, r) => sexpr_postfix(*l) + sexpr_postfix(*r) + seq![Tok::Op(c)],
    }
}

/// The infix writings of an expression, with the usual precedence grammar:
/// a sum (level 1) is a chain of products joined by `+` and `-`, a product
/// (level 2) a chain of atoms joined by `*` and `/`, and an atom (level 3)
/// a numeral or a parenthesized sum.  `renders(e, ts, 1)` says that the
/// token sequence `ts` is a way of writing `e` — balanced parentheses, the
/// four binary operators, no implicit multiplication.
pub open spec fn renders(e: SExpr, ts: Seq<Tok>, level: int) -> bool
    decreases e, ts.len(), 3 - level,
{
    if level <= 1 {
        renders(e, ts, 2) || (match e {
            SExpr::Num(_) => false,
            SExpr::Bin(c, l, r) => (c == '+' || c == '-') && exists|k: int|
                #![trigger ts[k]]
                0 <= k < ts.len() && ts[k] == Tok::Op(c) && renders(*l, ts.take(k), 1) && renders(
                    *r,
                    ts.skip(k + 1),
                    2,
                ),
        })
    } else if level == 2 {
        renders(e, ts, 3) || (match e {
            SExpr::Num(_) => false,
            SExpr::Bin(c, l, r) => (c == '*' || c == '/') && exists|k: int|
                #![trigger ts[k]]
                0 <= k < ts.len() && ts[k] == Tok::Op(c) && renders(*l, ts.take(k), 2) && renders(
                    *r,
                    ts.skip(k + 1),
                    3,
                ),
        })
    } else {
        (match e {
            SExpr::Num(s) => ts == seq![Tok::Num(s)],
            SExpr::Bin(_, _, _) => false,
        }) || (ts.len() >= 2 && ts[0] == Tok::Op('(') && ts.last() == Tok::Op(')') && renders(
            e,
            ts.subrange(1, ts.len() - 1),
            1,
        ))
    }
}

/// Popping at strength `p` takes a whole chain of operators at least that
/// strong off the top and stops at the stack below, emitting the chain in
/// pop order.
proof fn lemma_pop_ge_chain(stack: Seq<char>, pending: Seq<char>, p: u8)
    requires
        forall|k: int| 0 <= k < pending.len() ==> p <= spec_precedence(#[trigger] pending[k]),
        stack.len() > 0 ==> spec_precedence(stack.last()) < p,
    ensures
        pop_ge(stack + pending, p).1 == stack,
        ops(pop_ge(stack + pending, p).0) == flush_stack(pending),
    decreases pending.len(),
{
    if pending.len() == 0 {
        assert(stack + pending =~= stack);
        assert(pop_ge(stack, p).0 =~= Seq::<char>::empty());
        assert(ops(Seq::<char>::empty()) =~= Seq::<Tok>::empty());
    } else {
        let d = pending.last();
        assert((stack + pending).last() == d);
        assert((stack + pending).drop_last() =~= stack + pending.drop_last());
        assert(forall|k: int|
            0 <= k < pending.drop_last().len() ==> p <= spec_precedence(
                #[trigger] pending.drop_last()[k],
            ));
        lemma_pop_ge_chain(stack, pending.drop_last(), p);
        let rec = pop_ge(stack + pending.drop_last(), p);
        assert(pop_ge(stack + pending, p).0 == seq![d] + rec.0);
        assert(ops(seq![d] + rec.0) =~= seq![op_tok(d)] + ops(rec.0));
        assert(flush_stack(pending) == seq![op_tok(d)] + flush_stack(pending.drop_last()));
    }
}

/// Popping to a parenthesis takes the chain above the `(` off in pop order
/// and discards the `(` itself.
proof fn lemma_pop_to_lparen_chain(stack: Seq<char>, pending: Seq<char>)
    requires
        forall|k: int| 0 <= k < pending.len() ==> #[trigger] pending[k] != '(',
    ensures
        pop_to_lparen(stack + seq!['('] + pending).1 == stack,
        ops(pop_to_lparen(stack + seq!['('] + pending).0) == flush_stack(pending),
    decreases pending.len(),
{
    if pending.len() == 0 {
        assert(stack + seq!['('] + pending =~= stack.push('('));
        assert((stack.push('(')).last() == '(');
        assert((stack.push('(')).drop_last() =~= stack);
        assert(ops(pop_to_lparen(stack.push('(')).0) =~= Seq::<Tok>::empty());
    } else {
        let d = pending.last();
        let whole = stack + seq!['('] + pending;
        assert(whole.last() == d);
        assert(d != '(');
        assert(whole.drop_last() =~= stack + seq!['('] + pending.drop_last());
        assert(forall|k: int|
            0 <= k < pending.drop_last().len() ==> #[trigger] pending.drop_last()[k] != '(');
        lemma_pop_to_lparen_chain(stack, pending.drop_last());
        let rec = pop_to_lparen(stack + seq!['('] + pending.drop_last());
        assert(pop_to_lparen(whole).0 == seq![d] + rec.0);
        assert(ops(seq![d] + rec.0) =~= seq![op_tok(d)] + ops(rec.0));
        assert(flush_stack(pending) == seq![op_tok(d)] + flush_stack(pending.drop_last()));
    }
}

/// Draining a split stack drains the top part first.
proof fn lemma_flush_stack_append(a: Seq<char>, b: Seq<char>)
    ensures
        flush_stack(a + b) == flush_stack(b) + flush_stack(a),
    decreases b.len(),
{
    if b.len() == 0 {
        assert(a + b =~= a);
        assert(flush_stack(b) =~= Seq::<Tok>::empty());
        assert(flush_stack(b) + flush_stack(a) =~= flush_stack(a));
    } else {
        assert((a + b).last() == b.last());
        assert((a + b).drop_last() =~= a + b.drop_last());
        lemma_flush_stack_append(a, b.drop_last());
        assert(flush_stack(a + b) == seq![op_tok(b.last())] + (flush_stack(b.drop_last())
            + flush_stack(a)));
        assert(seq![op_tok(b.last())] + (flush_stack(b.drop_last()) + flush_stack(a)) =~= (seq![
            op_tok(b.last()),
        ] + flush_stack(b.drop_last())) + flush_stack(a));
        assert(flush_stack(b) == seq![op_tok(b.last())] + flush_stack(b.drop_last()));
    }
}

/// How the converter works through one rendered expression: starting with a
/// stack whose top binds more weakly than the expression's level allows and
/// with no implicit multiplication pending, it emits the expression's
/// postfix writing, except for a chain of operators at least as strong as
/// the level that stays on the stack for the tokens after `ts` to flush.
proof fn lemma_renders_conv(
    e: SExpr,
    ts: Seq<Tok>,
    level: int,
    rest: Seq<Tok>,
    out: Seq<Tok>,
    stack: Seq<char>,
    before: char,
) -> (r: (Seq<Tok>, Seq<char>))
    requires
        1 <= level <= 3,
        renders(e, ts, level),
        stack.len() > 0 ==> spec_precedence(stack.last()) < level,
        !triggers_mult(before),
    ensures
        ts.len() > 0,
        conv_from(ts + rest, out, stack, before) == conv_from(
            rest,
            r.0,
            stack + r.1,
            first_char(ts.last()),
        ),
        r.0 + flush_stack(r.1) == out + sexpr_postfix(e),
        forall|k: int|
            0 <= k < r.1.len() ==> level <= spec_precedence(#[trigger] r.1[k]) && r.1[k] != '(',
    decreases e, ts.len(), 3 - level,
{
    if level == 1 && renders(e, ts, 2) {
        lemma_renders_conv(e, ts, 2, rest, out, stack, before)
    } else if level == 2 && renders(e, ts, 3) {
        lemma_renders_conv(e, ts, 3, rest, out, stack, before)
    } else if level <= 2 {
        match e {
            SExpr::Num(_) => {
                assert(false);
                (out, Seq::<char>::empty())
            },
            SExpr::Bin(c, lb, rb) => {
                let oplevel = if level == 1 { 2int } else { 3int };
                let k = if level == 1 {
                    choose|kk: int|
                        #![trigger ts[kk]]
                        0 <= kk < ts.len() && ts[kk] == Tok::Op(c) && renders(*lb, ts.take(kk), 1)
                            && renders(*rb, ts.skip(kk + 1), 2)
                } else {
                    choose|kk: int|
                        #![trigger ts[kk]]
                        0 <= kk < ts.len() && ts[kk] == Tok::Op(c) && renders(*lb, ts.take(kk), 2)
                            && renders(*rb, ts.skip(kk + 1), 3)
                };
                let lts = ts.take(k);
                let rts = ts.skip(k + 1);
                assert(renders(*lb, lts, level));
                assert(renders(*rb, rts, oplevel));
                assert(spec_precedence(c) == level);
                let rest1 = seq![Tok::Op(c)] + (rts + rest);
                assert(ts + rest =~= lts + rest1);
                let rl = lemma_renders_conv(*lb, lts, level, rest1, out, stack, before);
                assert(rest1[0] == Tok::Op(c));
                assert(rest1.skip(1) =~= rts + rest);
                lemma_pop_ge_chain(stack, rl.1, spec_precedence(c));
                let rec = pop_ge(stack + rl.1, spec_precedence(c));
                assert(conv_step(rl.0, stack + rl.1, first_char(lts.last()), Tok::Op(c)) == (rl.0
                    + ops(rec.0), rec.1.push(c)));
                assert(rl.0 + ops(rec.0) == rl.0 + flush_stack(rl.1));
                assert(rl.0 + flush_stack(rl.1) == out + sexpr_postfix(*lb));
                assert(conv_from(rest1, rl.0, stack + rl.1, first_char(lts.last())) == conv_from(
                    rts + rest,
                    out + sexpr_postfix(*lb),
                    stack.push(c),
                    c,
                ));
                assert(!triggers_mult(c));
                let rr = lemma_renders_conv(
                    *rb,
                    rts,
                    oplevel,
                    rest,
                    out + sexpr_postfix(*lb),
                    stack.push(c),
                    c,
                );
                let pend = seq![c] + rr.1;
                assert(stack.push(c) + rr.1 =~= stack + pend);
                lemma_flush_stack_append(seq![c], rr.1);
                assert(flush_stack(seq![c]) =~= seq![op_tok(c)]) by {
                    assert(seq![c].drop_last() =~= Seq::<char>::empty());
                    assert(flush_stack(seq![c]) == seq![op_tok(c)] + flush_stack(
                        Seq::<char>::empty(),
                    ));
                    assert(seq![op_tok(c)] + Seq::<Tok>::empty() =~= seq![op_tok(c)]);
                }
                assert(rr.0 + flush_stack(pend) =~= (rr.0 + flush_stack(rr.1)) + seq![op_tok(c)]);
                assert((out + sexpr_postfix(*lb)) + sexpr_postfix(*rb) + seq![op_tok(c)] =~= out
                    + sexpr_postfix(e));
                assert(rr.0 + flush_stack(pend) == out + sexpr_postfix(e));
                assert(ts.last() == rts.last());
                assert(forall|kk: int|
                    0 <= kk < pend.len() ==> level <= spec_precedence(#[trigger] pend[kk])
                        && pend[kk] != '(');
                (rr.0, pend)
            },
        }
    } else if ts.len() == 1 {
        match e {
            SExpr::Bin(_, _, _) => {
                assert(false);
                (out, Seq::<char>::empty())
            },
            SExpr::Num(sn) => {
                let tokn = Tok::Num(sn);
                assert(ts == seq![tokn]);
                assert((ts + rest)[0] == tokn);
                assert((ts + rest).skip(1) =~= rest);
                assert(conv_step(out, stack, before, tokn) == (out.push(tokn), stack));
                assert(conv_from(ts + rest, out, stack, before) == conv_from(
                    rest,
                    out.push(tokn),
                    stack,
                    first_char(tokn),
                ));
                assert(stack + Seq::<char>::empty() =~= stack);
                assert(out.push(tokn) + flush_stack(Seq::<char>::empty()) =~= out
                    + sexpr_postfix(e));
                (out.push(tokn), Seq::<char>::empty())
            },
        }
    } else {
        let inner = ts.subrange(1, ts.len() - 1);
        assert(ts.len() >= 2 && ts[0] == Tok::Op('(') && ts.last() == Tok::Op(')') && renders(
            e,
            inner,
            1,
        ));
        let rest1 = seq![Tok::Op(')')] + rest;
        assert((ts + rest)[0] == Tok::Op('('));
        assert((ts + rest).skip(1) =~= inner + rest1);
        assert(spec_omit_mult(before, stack) == (Seq::<char>::empty(), stack));
        assert(conv_step(out, stack, before, Tok::Op('(')) == (out + ops(Seq::<char>::empty()),
        stack.push('(')));
        assert(out + ops(Seq::<char>::empty()) =~= out);
        assert(conv_from(ts + rest, out, stack, before) == conv_from(
            inner + rest1,
            out,
            stack.push('('),
            '(',
        ));
        assert(spec_precedence('(') == 0);
        assert(!triggers_mult('('));
        let ri = lemma_renders_conv(e, inner, 1, rest1, out, stack.push('('), '(');
        assert(rest1[0] == Tok::Op(')'));
        assert(rest1.skip(1) =~= rest);
        assert(stack.push('(') + ri.1 =~= stack + seq!['('] + ri.1);
        lemma_pop_to_lparen_chain(stack, ri.1);
        let rec = pop_to_lparen(stack + seq!['('] + ri.1);
        assert(conv_step(ri.0, stack.push('(') + ri.1, first_char(inner.last()), Tok::Op(')'))
            == (ri.0 + ops(rec.0), rec.1));
        assert(ri.0 + ops(rec.0) == out + sexpr_postfix(e));
        assert(conv_from(inner + rest1, out, stack.push('('), '(') == conv_from(
            rest,
            ri.0 + ops(rec.0),
            stack,
            ')',
        ));
        assert(stack + Seq::<char>::empty() =~= stack);
        assert((ri.0 + ops(rec.0)) + flush_stack(Seq::<char>::empty()) =~= ri.0 + ops(rec.0));
        (ri.0 + ops(rec.0), Seq::<char>::empty())
    }
}


/// The postfix writing of every expression is well formed: it leaves one
/// value and the operand stack never runs dry part-way through.
pub proof fn lemma_sexpr_wf(e: SExpr)
    ensures
        wf_postfix(sexpr_postfix(e)),
    decreases e,
{
    match e {
        SExpr::Num(s) => {
            let tokn = Tok::Num(s);
            let ser = sexpr_postfix(e);
            assert(ser == seq![tokn]);
            assert(seq![tokn].drop_last() =~= Seq::<Tok>::empty());
            assert(seq![tokn].last() == tokn);
            assert(num_surplus(Seq::<Tok>::empty()) == 0);
            assert(num_surplus(ser) == 1);
            assert forall|n: int| 0 < n <= ser.len() implies num_surplus(ser.take(n)) >= 1 by {
                assert(ser.take(n) =~= ser);
            }
        },
        SExpr::Bin(c, lb, rb) => {
            let tokv = Tok::Op(c);
            lemma_sexpr_wf(*lb);
            lemma_sexpr_wf(*rb);
            let lser = sexpr_postfix(*lb);
            let rser = sexpr_postfix(*rb);
            let ser = sexpr_postfix(e);
            assert(ser == lser + rser + seq![tokv]);
            lemma_num_surplus_append(lser, rser);
            lemma_num_surplus_append(lser + rser, seq![tokv]);
            assert(seq![tokv].drop_last() =~= Seq::<Tok>::empty());
            assert(seq![tokv].last() == tokv);
            assert(num_surplus(Seq::<Tok>::empty()) == 0);
            assert(num_surplus(seq![tokv]) == -1);
            assert forall|n: int| 0 < n <= ser.len() implies num_surplus(ser.take(n)) >= 1 by {
                if n <= lser.len() {
                    assert(ser.take(n) =~= lser.take(n));
                } else if n <= lser.len() + rser.len() {
                    assert(ser.take(n) =~= lser + rser.take(n - lser.len()));
                    lemma_num_surplus_append(lser, rser.take(n - lser.len()));
                } else {
                    assert(ser.take(n) =~= ser);
                }
            }
        },
    }
}

/// Law: the conversion is correct for the precedence grammar.  For every
/// expression and every way of writing it with `+ - * /` and balanced
/// parentheses — precedence, left association and parenthesization read as
/// usual — the converter emits exactly the expression's postfix writing.
pub proof fn lemma_converter_correct(e: SExpr, ts: Seq<Tok>)
    requires
        renders(e, ts, 1),
    ensures
        spec_in2postfix(ts) == sexpr_postfix(e),
{
    let r = lemma_renders_conv(
        e,
        ts,
        1,
        Seq::<Tok>::empty(),
        Seq::<Tok>::empty(),
        Seq::<char>::empty(),
        ' ',
    );
    assert(ts + Seq::<Tok>::empty() =~= ts);
    assert(Seq::<char>::empty() + r.1 =~= r.1);
    assert(conv_from(Seq::<Tok>::empty(), r.0, r.1, first_char(ts.last())) == r.0 + flush_stack(
        r.1,
    ));
    assert(Seq::<Tok>::empty() + sexpr_postfix(e) =~= sexpr_postfix(e));
}

/// The operand-stack reading of an expression's postfix writing pushes
/// exactly the expression's value, from any starting stack.
pub proof fn lemma_sexpr_eval_stack(
    e: SExpr,
    st: Seq<int>,
    v: spec_fn(Seq<char>) -> int,
    f: spec_fn(char, int, int) -> int,
)
    ensures
        stack_run(sexpr_postfix(e), st, v, f) == st.push(sexpr_eval(e, v, f)),
    decreases e,
{
    match e {
        SExpr::Num(s) => {
            lemma_stack_run_single(Tok::Num(s), st, v, f);
        },
        SExpr::Bin(c, lb, rb) => {
            let tokv = Tok::Op(c);
            let lser = sexpr_postfix(*lb);
            let rser = sexpr_postfix(*rb);
            let lv = sexpr_eval(*lb, v, f);
            let rv = sexpr_eval(*rb, v, f);
            assert(sexpr_postfix(e) =~= lser + (rser + seq![tokv]));
            lemma_sexpr_eval_stack(*lb, st, v, f);
            lemma_stack_run_append(lser, rser + seq![tokv], st, v, f);
            lemma_sexpr_eval_stack(*rb, st.push(lv), v, f);
            lemma_stack_run_append(rser, seq![tokv], st.push(lv), v, f);
            let st2 = st.push(lv).push(rv);
            lemma_stack_run_single(tokv, st2, v, f);
            assert(st2.subrange(0, st2.len() - 2) =~= st);
            assert(st2[st2.len() - 2] == lv);
            assert(st2[st2.len() - 1] == rv);
        },
    }
}

/// Law: the whole pipeline computes the expression it was given.  Scan a
/// valid expression text, convert it to postfix, and build the tree: the
/// build must come back complete with nothing left over — the hypotheses
/// here are exactly what the tree builder's contract gives of its result —
/// and folding that tree under every reading of numerals and every
/// interpretation of the operator symbols, the 64-bit floating-point one of
/// the surrounding program among them, yields the value of the expression
/// that the text wrote, by the usual precedence rules.
pub proof fn lemma_pipeline_correct(
    e: SExpr,
    ts: Seq<Tok>,
    t: crate::tree::Operation,
    rem: Seq<Tok>,
    v: spec_fn(Seq<char>) -> int,
    f: spec_fn(char, int, int) -> int,
)
    requires
        renders(e, ts, 1),
        crate::tree::built_shape(t),
        spec_in2postfix(ts) == rem + crate::tree::tree_postfix(t),
        !crate::tree::complete(t) ==> rem.len() == 0,
    ensures
        crate::tree::complete(t),
        rem.len() == 0,
        crate::tree::tree_postfix(t) == spec_in2postfix(ts),
        crate::eval::tree_eval(t, v, f) == sexpr_eval(e, v, f),
{
    lemma_converter_correct(e, ts);
    lemma_sexpr_wf(e);
    crate::tree::lemma_built_tree_complete(t, sexpr_postfix(e), rem);
    lemma_sexpr_eval_stack(e, Seq::<int>::empty(), v, f);
    crate::eval::lemma_tree_eval_stack(t, Seq::<int>::empty(), v, f);
    let s1 = Seq::<int>::empty().push(crate::eval::tree_eval(t, v, f));
    let s2 = Seq::<int>::empty().push(sexpr_eval(e, v, f));
    assert(s1 == s2);
    assert(s1[0] == s2[0]);
}

} // verus!
