use vstd::prelude::*;

verus! {

/// One lexical token of an arithmetic expression.  A numeric token keeps the
/// run of digits and decimal points exactly as it stood in the input, so that
/// the stages after the scanner never depend on a numeric interpretation; an
/// operator token carries its single character.
#[derive(Debug, PartialEq)]
pub enum Token {
    Num(Vec<char>),
    Op(char),
}

/// The mathematical model of a `Token`: the same tag over a `Seq<char>`.
pub enum Tok {
    Num(Seq<char>),
    Op(char),
}

impl View for Token {
    type V = Tok;

    open spec fn view(&self) -> Tok {
        match self {
            Token::Num(text) => Tok::Num(text@),
            Token::Op(c) => Tok::Op(*c),
        }
    }
}

/// The model of a whole token sequence.
pub open spec fn views(tokens: Seq<Token>) -> Seq<Tok> {
    tokens.map_values(|t: Token| t@)
}

/// The character `c`, read as an operator token.
pub open spec fn op_tok(c: char) -> Tok {
    Tok::Op(c)
}

/// The characters of `symbols`, each read as an operator token.
pub open spec fn ops(symbols: Seq<char>) -> Seq<Tok> {
    symbols.map_values(|c: char| op_tok(c))
}

/// The character that the converter remembers a token by when it decides
/// about implicit multiplication: the first character of the token's text.
/// A numeric token with no text never leaves the scanner; for totality it is
/// remembered as a blank, which triggers nothing.
pub open spec fn first_char(t: Tok) -> char {
    match t {
        Tok::Num(text) => if text.len() > 0 { text[0] } else { ' ' },
        Tok::Op(c) => c,
    }
}

/// How many more operands than operators a token sequence holds: each
/// number counts one, each operator counts minus one.  Reading postfix with
/// an operand stack, this is the stack's final height.
pub open spec fn num_surplus(p: Seq<Tok>) -> int
    decreases p.len(),
{
    if p.len() == 0 {
        0
    } else {
        num_surplus(p.drop_last()) + (match p.last() {
            Tok::Num(_) => 1int,
            Tok::Op(_) => -1int,
        })
    }
}

/// A well-formed postfix sequence: one value is left at the end, and the
/// operand stack never runs dry along the way.  The postfix writing of
/// every expression has this shape, and it is exactly what the tree builder
/// needs to come back complete.
pub open spec fn wf_postfix(p: Seq<Tok>) -> bool {
    &&& num_surplus(p) == 1
    &&& forall|n: int| 0 < n <= p.len() ==> num_surplus(#[trigger] p.take(n)) >= 1
}

/// The surplus adds up over concatenation.
pub proof fn lemma_num_surplus_append(a: Seq<Tok>, b: Seq<Tok>)
    ensures
        num_surplus(a + b) == num_surplus(a) + num_surplus(b),
    decreases b.len(),
{
    if b.len() == 0 {
        assert(a + b =~= a);
    } else {
        assert((a + b).last() == b.last());
        assert((a + b).drop_last() =~= a + b.drop_last());
        lemma_num_surplus_append(a, b.drop_last());
    }
}

} // verus!
