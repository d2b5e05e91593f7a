use vstd::prelude::*;

use crate::token::{Tok, Token, views};

verus! {

/// A decimal digit.
pub open spec fn is_digit_char(c: char) -> bool {
    '0' as u32 <= c as u32 && c as u32 <= '9' as u32
}

/// A character that may stand inside a numeric token: a digit or a decimal
/// point.
pub open spec fn is_numeral_char(c: char) -> bool {
    is_digit_char(c) || c == '.'
}

/// A character that the scanner reads as an operator token.  Every other
/// character outside a numeric run (notably whitespace) is skipped.
pub open spec fn is_op_char(c: char) -> bool {
    c == '+' || c == '-' || c == '*' || c == '/' || c == '(' || c == ')'
}

/// How many decimal points a numeral holds.
pub open spec fn dot_count(s: Seq<char>) -> int
    decreases s.len(),
{
    if s.len() == 0 {
        0
    } else {
        dot_count(s.drop_last()) + if s.last() == '.' { 1int } else { 0int }
    }
}

/// The runs of digits and decimal points that denote a 64-bit floating-point
/// number: non-empty, made of digits and points only, with at most one point
/// and at least one digit.
pub open spec fn valid_numeral(s: Seq<char>) -> bool {
    &&& s.len() > 0
    &&& forall|k: int| 0 <= k < s.len() ==> is_numeral_char(#[trigger] s[k])
    &&& dot_count(s) <= 1
    &&& dot_count(s) < s.len()
}

/// An unfinished numeric run, turned into a token when a non-numeral
/// character (or the end of the input) closes it.  An empty run yields no
/// token.
pub open spec fn flush_run(run: Seq<char>) -> Seq<Tok> {
    if run.len() == 0 {
        Seq::<Tok>::empty()
    } else {
        seq![Tok::Num(run)]
    }
}

/// The scanner, one character at a time: `tokens` are the tokens already
/// finished, `run` is the numeric run currently open.  A digit or a point
/// extends the run; any other character closes it, and an operator character
/// then adds a token of its own.
pub open spec fn scan_from(s: Seq<char>, tokens: Seq<Tok>, run: Seq<char>) -> Seq<Tok>
    decreases s.len(),
{
    if s.len() == 0 {
        tokens + flush_run(run)
    } else if is_numeral_char(s[0]) {
        scan_from(s.skip(1), tokens, run.push(s[0]))
    } else if is_op_char(s[0]) {
        scan_from(s.skip(1), tokens + flush_run(run) + seq![Tok::Op(s[0])], Seq::<char>::empty())
    } else {
        scan_from(s.skip(1), tokens + flush_run(run), Seq::<char>::empty())
    }
}

/// What the scanner makes of a text: maximal runs of digits and points become
/// numeric tokens, single operator characters become operator tokens, and
/// everything else is skipped.
pub open spec fn spec_scan(s: Seq<char>) -> Seq<Tok> {
    scan_from(s, Seq::<Tok>::empty(), Seq::<char>::empty())
}

/// Every numeric token of the sequence denotes a number.
pub open spec fn all_numerals_valid(tokens: Seq<Tok>) -> bool {
    forall|k: int| 0 <= k < tokens.len() ==> match #[trigger] tokens[k] {
        Tok::Num(text) => valid_numeral(text),
        Tok::Op(_) => true,
    }
}

/// Tokens already finished stay in place whatever the scanner reads next.
proof fn lemma_scan_from_keeps(s: Seq<char>, tokens: Seq<Tok>, run: Seq<char>)
    ensures
        scan_from(s, tokens, run).len() >= tokens.len(),
        forall|k: int| 0 <= k < tokens.len() ==> scan_from(s, tokens, run)[k] == tokens[k],
    decreases s.len(),
{
    if s.len() == 0 {
    } else if is_numeral_char(s[0]) {
        lemma_scan_from_keeps(s.skip(1), tokens, run.push(s[0]));
        assert(scan_from(s, tokens, run) == scan_from(s.skip(1), tokens, run.push(s[0])));
    } else if is_op_char(s[0]) {
        let grown = tokens + flush_run(run) + seq![Tok::Op(s[0])];
        lemma_scan_from_keeps(s.skip(1), grown, Seq::<char>::empty());
        assert(scan_from(s, tokens, run) == scan_from(s.skip(1), grown, Seq::<char>::empty()));
        assert(forall|k: int| 0 <= k < tokens.len() ==> grown[k] == tokens[k]);
    } else {
        let grown = tokens + flush_run(run);
        lemma_scan_from_keeps(s.skip(1), grown, Seq::<char>::empty());
        assert(scan_from(s, tokens, run) == scan_from(s.skip(1), grown, Seq::<char>::empty()));
        assert(forall|k: int| 0 <= k < tokens.len() ==> grown[k] == tokens[k]);
    }
}

/// The scanner's failure report: a numeric run that does not denote a number,
/// such as one with two decimal points.
#[derive(Debug, Clone, Copy, PartialEq, Eq, Structural)]
pub enum ScanError {
    BadNumeral,
}

/// Whether `c` may stand inside a numeric token.
pub fn numeral_char(c: char) -> (b: bool)
    ensures
        b == is_numeral_char(c),
{
    ('0' as u32 <= c as u32 && c as u32 <= '9' as u32) || c == '.'
}

/// Whether the scanner reads `c` as an operator.
pub fn operator_char(c: char) -> (b: bool)
    ensures
        b == is_op_char(c),
{
    c == '+' || c == '-' || c == '*' || c == '/' || c == '(' || c == ')'
}

/// Whether `run` denotes a 64-bit floating-point number.
pub fn check_numeral(run: &Vec<char>) -> (b: bool)
    ensures
        b == valid_numeral(run@),
{
    if run.len() == 0 {
        return false;
    }
    let mut dots: usize = 0;
    let mut all_num: bool = true;
    let ghost mut bad_at: int = 0;
    let mut i: usize = 0;
    while i < run.len()
        invariant
            i <= run@.len(),
            dots <= i,
            dots == dot_count(run@.take(i as int)),
            all_num ==> forall|k: int| 0 <= k < i ==> is_numeral_char(#[trigger] run@[k]),
            !all_num ==> 0 <= bad_at < run@.len() && !is_numeral_char(run@[bad_at]),
        decreases run@.len() - i,
    {
        let c = run[i];
        proof {
            assert(run@.take(i as int + 1).drop_last() =~= run@.take(i as int));
        }
        if c == '.' {
            dots = dots + 1;
        }
        if !numeral_char(c) {
            all_num = false;
            proof {
                bad_at = i as int;
            }
        }
        i = i + 1;
    }
    proof {
        assert(run@.take(run@.len() as int) =~= run@);
    }
    all_num && dots <= 1 && dots < run.len()
}

/// Splits a text into tokens.  On success the tokens are exactly the scan of
/// the input and every numeric token denotes a number; the scanner fails
/// precisely when some numeric run of the input does not.
pub fn scan(input: &Vec<char>) -> (r: Result<Vec<Token>, ScanError>)
    ensures
        match r {
            Ok(tokens) => views(tokens@) == spec_scan(input@) && all_numerals_valid(
                spec_scan(input@),
            ),
            Err(_) => !all_numerals_valid(spec_scan(input@)),
        },
{
    let mut tokens: Vec<Token> = Vec::new();
    let mut run: Vec<char> = Vec::new();
    let mut i: usize = 0;
    proof {
        assert(input@.skip(0) =~= input@);
        assert(views(tokens@) =~= Seq::<Tok>::empty());
    }
    while i < input.len()
        invariant
            i <= input@.len(),
            spec_scan(input@) == scan_from(input@.skip(i as int), views(tokens@), run@),
            all_numerals_valid(views(tokens@)),
        decreases input@.len() - i,
    {
        let c = input[i];
        let ghost rest = input@.skip(i as int);
        let ghost old_tokens = views(tokens@);
        let ghost old_run = run@;
        proof {
            assert(rest[0] == input@[i as int]);
            assert(rest.skip(1) =~= input@.skip(i as int + 1));
        }
        if numeral_char(c) {
            run.push(c);
            proof {
                assert(scan_from(rest, old_tokens, old_run) == scan_from(
                    input@.skip(i as int + 1),
                    old_tokens,
                    old_run.push(c),
                ));
                assert(spec_scan(input@) == scan_from(
                    input@.skip(i as int + 1),
                    views(tokens@),
                    run@,
                ));
            }
        } else {
            let ghost flushed = if is_op_char(c) {
                old_tokens + flush_run(old_run) + seq![Tok::Op(c)]
            } else {
                old_tokens + flush_run(old_run)
            };
            proof {
                assert(scan_from(rest, old_tokens, old_run) == scan_from(
                    input@.skip(i as int + 1),
                    flushed,
                    Seq::<char>::empty(),
                ));
            }
            if run.len() > 0 {
                if !check_numeral(&run) {
                    proof {
                        lemma_scan_from_keeps(
                            input@.skip(i as int + 1),
                            flushed,
                            Seq::<char>::empty(),
                        );
                        assert(flushed[old_tokens.len() as int] == Tok::Num(old_run));
                        assert(spec_scan(input@)[old_tokens.len() as int] == Tok::Num(old_run));
                    }
                    return Err(ScanError::BadNumeral);
                }
                let text = run;
                run = Vec::new();
                tokens.push(Token::Num(text));
                proof {
                    assert(views(tokens@) =~= old_tokens + flush_run(old_run));
                }
            } else {
                proof {
                    assert(old_tokens + flush_run(old_run) =~= old_tokens);
                }
            }
            if operator_char(c) {
                let ghost mid_tokens = views(tokens@);
                tokens.push(Token::Op(c));
                proof {
                    assert(views(tokens@) =~= mid_tokens + seq![Tok::Op(c)]);
                    assert(views(tokens@) =~= old_tokens + flush_run(old_run) + seq![Tok::Op(c)]);
                }
            }
            proof {
                assert(views(tokens@) == flushed);
                assert(run@ =~= Seq::<char>::empty());
                assert(spec_scan(input@) == scan_from(
                    input@.skip(i as int + 1),
                    views(tokens@),
                    run@,
                ));
            }
        }
        i = i + 1;
    }
    proof {
        assert(input@.skip(input@.len() as int) =~= Seq::<char>::empty());
    }
    if run.len() > 0 {
        if !check_numeral(&run) {
            proof {
                assert(spec_scan(input@)[views(tokens@).len() as int] == Tok::Num(run@));
            }
            return Err(ScanError::BadNumeral);
        }
        let ghost old_tokens = views(tokens@);
        let ghost old_run = run@;
        tokens.push(Token::Num(run));
        proof {
            assert(views(tokens@) =~= old_tokens + flush_run(old_run));
        }
    } else {
        proof {
            assert(views(tokens@) + flush_run(run@) =~= views(tokens@));
        }
    }
    Ok(tokens)
}

} // verus!
