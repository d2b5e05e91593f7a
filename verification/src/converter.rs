use vstd::prelude::*;

use crate::scanner::{ScanError, all_numerals_valid, is_digit_char, scan, spec_scan, valid_numeral};
use crate::token::{Tok, Token, first_char, op_tok, ops, views};

verus! {

/// The binding strength of each operator symbol; higher binds tighter.
/// Besides the four symbols the scanner produces, the table covers the
/// reserved symbols of the unary and power operators, so that they convert
/// correctly the day the scanner emits them; every other character, the
/// parentheses included, sits at the lowest level.
pub open spec fn spec_precedence(op: char) -> u8 {
    match op {
        '+' | '-' | '~' => 1,
        '*' | '/' | '%' => 2,
        '^' => 3,
        '!' => 4,
        'r' | 'R' | 'a' | 's' | 'c' | 't' | 'l' | 'L' => 5,
        _ => 0,
    }
}

/// Whether an operator takes a single operand.  No operator does yet: the
/// reserved unary symbols are scanned and ranked but never given a
/// single-operand tree shape.
pub open spec fn spec_is_unary(c: char) -> bool {
    false
}

/// The characters before a `(` that call for an implicit multiplication:
/// anything that can end an operand.
pub open spec fn triggers_mult(before: char) -> bool {
    is_digit_char(before) || before == ')' || before == '!' || before == 'x' || before == '.'
}

/// Pops every operator at least as strong as `p` off the stack (the top is
/// the last element): the pair of the popped symbols, in pop order, and the
/// stack that remains.  A `(` ranks below every real operator and therefore
/// stops the popping.
pub open spec fn pop_ge(stack: Seq<char>, p: u8) -> (Seq<char>, Seq<char>)
    decreases stack.len(),
{
    if stack.len() > 0 && p <= spec_precedence(stack.last()) {
        let rec = pop_ge(stack.drop_last(), p);
        (seq![stack.last()] + rec.0, rec.1)
    } else {
        (Seq::<char>::empty(), stack)
    }
}

/// Pops operators until a `(` appears, and discards that `(`.  An unmatched
/// `)` empties the stack and is otherwise tolerated.
pub open spec fn pop_to_lparen(stack: Seq<char>) -> (Seq<char>, Seq<char>)
    decreases stack.len(),
{
    if stack.len() == 0 {
        (Seq::<char>::empty(), stack)
    } else if stack.last() == '(' {
        (Seq::<char>::empty(), stack.drop_last())
    } else {
        let rec = pop_to_lparen(stack.drop_last());
        (seq![stack.last()] + rec.0, rec.1)
    }
}

/// What reaches the output and the stack when an implicit multiplication is
/// considered just before a `(`: if the preceding character can end an
/// operand, a `*` is handled like any explicit operator; otherwise nothing
/// happens.
pub open spec fn spec_omit_mult(before: char, stack: Seq<char>) -> (Seq<char>, Seq<char>) {
    if triggers_mult(before) {
        let rec = pop_ge(stack, spec_precedence('*'));
        (rec.0, rec.1.push('*'))
    } else {
        (Seq::<char>::empty(), stack)
    }
}

/// One step of the conversion: how a token changes the output and the stack,
/// given the first character of the token before it.
pub open spec fn conv_step(out: Seq<Tok>, stack: Seq<char>, before: char, t: Tok) -> (
    Seq<Tok>,
    Seq<char>,
) {
    match t {
        Tok::Num(_) => (out.push(t), stack),
        Tok::Op(c) => {
            if c == '(' {
                let rec = spec_omit_mult(before, stack);
                (out + ops(rec.0), rec.1.push('('))
            } else if c == ')' {
                let rec = pop_to_lparen(stack);
                (out + ops(rec.0), rec.1)
            } else {
                let rec = pop_ge(stack, spec_precedence(c));
                (out + ops(rec.0), rec.1.push(c))
            }
        },
    }
}

/// After the last token, the stack is drained to the output in pop order.
pub open spec fn flush_stack(stack: Seq<char>) -> Seq<Tok>
    decreases stack.len(),
{
    if stack.len() == 0 {
        Seq::<Tok>::empty()
    } else {
        seq![Tok::Op(stack.last())] + flush_stack(stack.drop_last())
    }
}

/// Runs the conversion over the remaining tokens and drains the stack.
pub open spec fn conv_from(ts: Seq<Tok>, out: Seq<Tok>, stack: Seq<char>, before: char) -> Seq<Tok>
    decreases ts.len(),
{
    if ts.len() == 0 {
        out + flush_stack(stack)
    } else {
        let step = conv_step(out, stack, before, ts[0]);
        conv_from(ts.skip(1), step.0, step.1, first_char(ts[0]))
    }
}

/// The postfix form of a token sequence, by the shunting-yard conversion:
/// numbers pass straight through, operators wait on a stack until a stronger
/// or equal one arrives, parentheses fence the stack off, and an implicit
/// `*` is inserted before a `(` that follows the end of an operand.
pub open spec fn spec_in2postfix(ts: Seq<Tok>) -> Seq<Tok> {
    conv_from(ts, Seq::<Tok>::empty(), Seq::<char>::empty(), ' ')
}

/// The precedence table as executable code.
pub fn get_precedence(op: char) -> (r: u8)
    ensures
        r == spec_precedence(op),
{
    match op {
        '+' | '-' | '~' => 1,
        '*' | '/' | '%' => 2,
        '^' => 3,
        '!' => 4,
        'r' | 'R' | 'a' | 's' | 'c' | 't' | 'l' | 'L' => 5,
        _ => 0,
    }
}

/// Whether an operator takes a single operand; none does yet.
pub fn is_unary(c: &char) -> (r: bool)
    ensures
        r == spec_is_unary(*c),
{
    false
}

/// Appends the operator `c` to the output tokens.
fn push_op(result: &mut Vec<Token>, c: char)
    ensures
        views(final(result)@) == views(old(result)@) + seq![op_tok(c)],
{
    let ghost pre = views(result@);
    result.push(Token::Op(c));
    proof {
        assert(views(result@) =~= pre + seq![op_tok(c)]);
    }
}

/// Pops every stacked operator at least as strong as `p` to the output.
fn pop_while_ge(stack: &mut Vec<char>, p: u8, result: &mut Vec<Token>)
    ensures
        final(stack)@ == pop_ge(old(stack)@, p).1,
        views(final(result)@) == views(old(result)@) + ops(pop_ge(old(stack)@, p).0),
{
    let ghost orig_stack = stack@;
    let ghost orig_out = views(result@);
    let ghost mut popped: Seq<char> = Seq::<char>::empty();
    proof {
        assert(orig_out + ops(popped) =~= orig_out);
    }
    while stack.len() > 0 && p <= get_precedence(stack[stack.len() - 1])
        invariant
            pop_ge(orig_stack, p).0 == popped + pop_ge(stack@, p).0,
            pop_ge(orig_stack, p).1 == pop_ge(stack@, p).1,
            views(result@) == orig_out + ops(popped),
        decreases stack@.len(),
    {
        let ghost pre_stack = stack@;
        let top = stack.pop().unwrap();
        push_op(result, top);
        proof {
            assert(pre_stack.subrange(0, pre_stack.len() - 1) =~= pre_stack.drop_last());
            assert(pop_ge(pre_stack, p).0 == seq![top] + pop_ge(stack@, p).0);
            assert(popped + (seq![top] + pop_ge(stack@, p).0) =~= (popped + seq![top]) + pop_ge(
                stack@,
                p,
            ).0);
            assert(ops(popped + seq![top]) =~= ops(popped) + seq![op_tok(top)]);
            popped = popped + seq![top];
            assert(views(result@) =~= orig_out + ops(popped));
        }
    }
    proof {
        assert(pop_ge(stack@, p).0 =~= Seq::<char>::empty());
        assert(pop_ge(stack@, p).1 =~= stack@);
        assert(popped + Seq::<char>::empty() =~= popped);
    }
}

/// Pops stacked operators to the output until a `(` appears, and discards it.
fn pop_until_lparen(stack: &mut Vec<char>, result: &mut Vec<Token>)
    ensures
        final(stack)@ == pop_to_lparen(old(stack)@).1,
        views(final(result)@) == views(old(result)@) + ops(pop_to_lparen(old(stack)@).0),
{
    let ghost orig_stack = stack@;
    let ghost orig_out = views(result@);
    let ghost mut popped: Seq<char> = Seq::<char>::empty();
    proof {
        assert(orig_out + ops(popped) =~= orig_out);
    }
    while stack.len() > 0 && stack[stack.len() - 1] != '('
        invariant
            pop_to_lparen(orig_stack).0 == popped + pop_to_lparen(stack@).0,
            pop_to_lparen(orig_stack).1 == pop_to_lparen(stack@).1,
            views(result@) == orig_out + ops(popped),
        decreases stack@.len(),
    {
        let ghost pre_stack = stack@;
        let top = stack.pop().unwrap();
        push_op(result, top);
        proof {
            assert(pre_stack.subrange(0, pre_stack.len() - 1) =~= pre_stack.drop_last());
            assert(pop_to_lparen(pre_stack).0 == seq![top] + pop_to_lparen(stack@).0);
            assert(popped + (seq![top] + pop_to_lparen(stack@).0) =~= (popped + seq![top])
                + pop_to_lparen(stack@).0);
            assert(ops(popped + seq![top]) =~= ops(popped) + seq![op_tok(top)]);
            popped = popped + seq![top];
            assert(views(result@) =~= orig_out + ops(popped));
        }
    }
    let ghost pre_stack = stack@;
    // Pop the `(` itself; on an empty stack (an unmatched `)`) this does
    // nothing, as the conversion tolerates.
    stack.pop();
    proof {
        if pre_stack.len() > 0 {
            assert(pre_stack.subrange(0, pre_stack.len() - 1) =~= pre_stack.drop_last());
        }
        assert(pop_to_lparen(pre_stack).0 =~= Seq::<char>::empty());
        assert(popped + Seq::<char>::empty() =~= popped);
    }
}

/// Inserts the implicit multiplication before a `(` when the character just
/// before it can end an operand: the `*` then pushes and pops like any
/// explicit operator.
pub fn omit_mult(before: char, stack: &mut Vec<char>, result: &mut Vec<Token>)
    ensures
        final(stack)@ == spec_omit_mult(before, old(stack)@).1,
        views(final(result)@) == views(old(result)@) + ops(spec_omit_mult(before, old(stack)@).0),
{
    let wants_mult = {
        let b = before;
        ('0' as u32 <= b as u32 && b as u32 <= '9' as u32) || b == ')' || b == '!' || b == 'x'
            || b == '.'
    };
    if wants_mult {
        pop_while_ge(stack, get_precedence('*'), result);
        stack.push('*');
    } else {
        proof {
            assert(views(result@) + ops(Seq::<char>::empty()) =~= views(result@));
        }
    }
}

/// Converts a token sequence from infix to postfix order.
pub fn in2postfix(tokens: &Vec<Token>) -> (result: Vec<Token>)
    ensures
        views(result@) == spec_in2postfix(views(tokens@)),
{
    let mut result: Vec<Token> = Vec::new();
    let mut stack: Vec<char> = Vec::new();
    let mut before: char = ' ';
    let mut i: usize = 0;
    proof {
        assert(views(tokens@).skip(0) =~= views(tokens@));
        assert(views(result@) =~= Seq::<Tok>::empty());
    }
    while i < tokens.len()
        invariant
            i <= tokens@.len(),
            spec_in2postfix(views(tokens@)) == conv_from(
                views(tokens@).skip(i as int),
                views(result@),
                stack@,
                before,
            ),
        decreases tokens@.len() - i,
    {
        let ghost rest = views(tokens@).skip(i as int);
        let ghost old_out = views(result@);
        let ghost old_stack = stack@;
        proof {
            assert(rest[0] == views(tokens@)[i as int]);
            assert(rest.skip(1) =~= views(tokens@).skip(i as int + 1));
        }
        let next_before: char;
        match &tokens[i] {
            Token::Num(text) => {
                next_before = if text.len() > 0 {
                    text[0]
                } else {
                    ' '
                };
                let copy = copy_chars(text);
                result.push(Token::Num(copy));
                proof {
                    assert(views(result@) =~= old_out.push(rest[0]));
                }
            },
            Token::Op(c) => {
                let c = *c;
                next_before = c;
                if c == '(' {
                    omit_mult(before, &mut stack, &mut result);
                    stack.push('(');
                } else if c == ')' {
                    pop_until_lparen(&mut stack, &mut result);
                } else {
                    pop_while_ge(&mut stack, get_precedence(c), &mut result);
                    stack.push(c);
                }
            },
        }
        proof {
            let step = conv_step(old_out, old_stack, before, rest[0]);
            assert(views(result@) == step.0);
            assert(stack@ == step.1);
            assert(first_char(rest[0]) == next_before);
            assert(conv_from(rest, old_out, old_stack, before) == conv_from(
                views(tokens@).skip(i as int + 1),
                step.0,
                step.1,
                first_char(rest[0]),
            ));
        }
        before = next_before;
        i = i + 1;
    }
    proof {
        assert(views(tokens@).skip(views(tokens@).len() as int) =~= Seq::<Tok>::empty());
    }
    while stack.len() > 0
        invariant
            spec_in2postfix(views(tokens@)) == views(result@) + flush_stack(stack@),
        decreases stack@.len(),
    {
        let ghost pre_stack = stack@;
        let ghost pre_out = views(result@);
        let top = stack.pop().unwrap();
        push_op(&mut result, top);
        proof {
            assert(pre_stack.subrange(0, pre_stack.len() - 1) =~= pre_stack.drop_last());
            assert(views(result@) =~= pre_out.push(op_tok(top)));
            assert(flush_stack(pre_stack) == seq![op_tok(top)] + flush_stack(stack@));
            assert(pre_out + (seq![op_tok(top)] + flush_stack(stack@)) =~= (pre_out + seq![
                op_tok(top),
            ]) + flush_stack(stack@));
            assert(pre_out.push(op_tok(top)) =~= pre_out + seq![op_tok(top)]);
        }
    }
    proof {
        assert(flush_stack(stack@) =~= Seq::<Tok>::empty());
        assert(views(result@) + Seq::<Tok>::empty() =~= views(result@));
    }
    result
}

/// A fresh copy of a numeral's text.
fn copy_chars(text: &Vec<char>) -> (copy: Vec<char>)
    ensures
        copy@ == text@,
{
    let mut copy: Vec<char> = Vec::new();
    let mut i: usize = 0;
    while i < text.len()
        invariant
            i <= text@.len(),
            copy@ == text@.take(i as int),
        decreases text@.len() - i,
    {
        copy.push(text[i]);
        proof {
            assert(text@.take(i as int).push(text@[i as int]) =~= text@.take(i as int + 1));
        }
        i = i + 1;
    }
    proof {
        assert(text@.take(text@.len() as int) =~= text@);
    }
    copy
}

/// The postfix form of a text: scan, then convert.
pub open spec fn spec_text_to_postfix(s: Seq<char>) -> Seq<Tok> {
    spec_in2postfix(spec_scan(s))
}

/// Scans a text and converts it to postfix in one call, as the pipeline runs
/// it: the one failure is a numeric run that denotes no number.
pub fn text_to_postfix(input: &Vec<char>) -> (r: Result<Vec<Token>, ScanError>)
    ensures
        match r {
            Ok(postfix) => views(postfix@) == spec_text_to_postfix(input@) && all_numerals_valid(
                views(postfix@),
            ) && all_numerals_valid(spec_scan(input@)),
            Err(_) => !all_numerals_valid(spec_scan(input@)),
        },
{
    match scan(input) {
        Ok(tokens) => {
            let postfix = in2postfix(&tokens);
            proof {
                lemma_conv_preserves_numerals(
                    views(tokens@),
                    Seq::<Tok>::empty(),
                    Seq::<char>::empty(),
                    ' ',
                );
            }
            Ok(postfix)
        },
        Err(e) => Err(e),
    }
}

/// Law: the conversion is pure.  The postfix sequence is a function of the
/// input text alone, so re-running the scanner and converter on the same
/// text — with no state anywhere to carry anything over — can only yield the
/// same sequence again.
pub proof fn lemma_conversion_repeatable(input: Seq<char>, p1: Seq<Tok>, p2: Seq<Tok>)
    requires
        p1 == spec_text_to_postfix(input),
        p2 == spec_text_to_postfix(input),
    ensures
        p1 == p2,
{
}

/// Draining the stack yields operator tokens only.
proof fn lemma_flush_stack_no_numerals(stack: Seq<char>)
    ensures
        all_numerals_valid(flush_stack(stack)),
    decreases stack.len(),
{
    if stack.len() == 0 {
    } else {
        lemma_flush_stack_no_numerals(stack.drop_last());
        let fs = flush_stack(stack);
        let tail = flush_stack(stack.drop_last());
        assert(fs == seq![op_tok(stack.last())] + tail);
        assert forall|k: int| 0 <= k < fs.len() implies (match #[trigger] fs[k] {
            Tok::Num(text) => valid_numeral(text),
            Tok::Op(_) => true,
        }) by {
            if k == 0 {
                assert(fs[k] == op_tok(stack.last()));
            } else {
                assert(fs[k] == tail[k - 1]);
            }
        }
    }
}

/// Popped operators are operator tokens only.
proof fn lemma_ops_no_numerals(symbols: Seq<char>)
    ensures
        all_numerals_valid(ops(symbols)),
{
    assert forall|k: int| 0 <= k < ops(symbols).len() implies (match #[trigger] ops(symbols)[k] {
        Tok::Num(text) => valid_numeral(text),
        Tok::Op(_) => true,
    }) by {
        assert(ops(symbols)[k] == op_tok(symbols[k]));
    }
}

/// Two valid halves make a valid whole.
proof fn lemma_numerals_valid_append(a: Seq<Tok>, b: Seq<Tok>)
    requires
        all_numerals_valid(a),
        all_numerals_valid(b),
    ensures
        all_numerals_valid(a + b),
{
    assert forall|k: int| 0 <= k < (a + b).len() implies (match #[trigger] (a + b)[k] {
        Tok::Num(text) => valid_numeral(text),
        Tok::Op(_) => true,
    }) by {
        if k < a.len() {
            assert((a + b)[k] == a[k]);
        } else {
            assert((a + b)[k] == b[k - a.len()]);
        }
    }
}

/// The conversion invents no numerals: when every numeric token of the
/// input denotes a number, so does every numeric token of the postfix
/// output, whatever sits on the stack.
proof fn lemma_conv_preserves_numerals(ts: Seq<Tok>, out: Seq<Tok>, stack: Seq<char>, before: char)
    requires
        all_numerals_valid(ts),
        all_numerals_valid(out),
    ensures
        all_numerals_valid(conv_from(ts, out, stack, before)),
    decreases ts.len(),
{
    if ts.len() == 0 {
        lemma_flush_stack_no_numerals(stack);
        lemma_numerals_valid_append(out, flush_stack(stack));
    } else {
        let step = conv_step(out, stack, before, ts[0]);
        assert(all_numerals_valid(ts.skip(1))) by {
            assert forall|k: int| 0 <= k < ts.skip(1).len() implies (match #[trigger] ts.skip(
                1,
            )[k] {
                Tok::Num(text) => valid_numeral(text),
                Tok::Op(_) => true,
            }) by {
                assert(ts.skip(1)[k] == ts[k + 1]);
            }
        }
        match ts[0] {
            Tok::Num(_) => {
                assert(out.push(ts[0]) =~= out + seq![ts[0]]);
                assert(all_numerals_valid(seq![ts[0]])) by {
                    assert(seq![ts[0]][0] == ts[0]);
                }
                lemma_numerals_valid_append(out, seq![ts[0]]);
            },
            Tok::Op(c) => {
                if c == '(' {
                    lemma_ops_no_numerals(spec_omit_mult(before, stack).0);
                    lemma_numerals_valid_append(out, ops(spec_omit_mult(before, stack).0));
                } else if c == ')' {
                    lemma_ops_no_numerals(pop_to_lparen(stack).0);
                    lemma_numerals_valid_append(out, ops(pop_to_lparen(stack).0));
                } else {
                    lemma_ops_no_numerals(pop_ge(stack, spec_precedence(c)).0);
                    lemma_numerals_valid_append(out, ops(pop_ge(stack, spec_precedence(c)).0));
                }
            },
        }
        lemma_conv_preserves_numerals(ts.skip(1), step.0, step.1, first_char(ts[0]));
    }
}

} // verus!
