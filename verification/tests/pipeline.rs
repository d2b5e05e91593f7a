use infix_calc::converter::{get_precedence, in2postfix, is_unary, omit_mult, text_to_postfix};
use infix_calc::scanner::{check_numeral, scan, ScanError};
use infix_calc::token::Token;
use infix_calc::tree::{build_operation_tree, is_complete, Operation};

fn chars_of(s: &str) -> Vec<char> {
    s.chars().collect()
}

fn num(s: &str) -> Token {
    Token::Num(chars_of(s))
}

/// The floating-point fold over a finished tree, exactly as the program
/// around the library runs it.
fn eval_tree(root: &Operation) -> f64 {
    match root.value.as_ref().unwrap() {
        Token::Num(text) => {
            let s: String = text.iter().collect();
            s.parse().expect("couldn't parse number!")
        }
        Token::Op(op) => {
            let right = eval_tree(root.right_op.as_ref().unwrap());
            let left = match &root.left_op {
                Some(l) => eval_tree(l),
                None => 0.0,
            };
            match op {
                '+' => left + right,
                '-' => left - right,
                '*' => left * right,
                '/' => left / right,
                _ => 0.0,
            }
        }
    }
}

/// A plain operand-stack reading of a postfix sequence.
fn stack_eval(postfix: &[Token]) -> f64 {
    let mut stack: Vec<f64> = Vec::new();
    for t in postfix {
        match t {
            Token::Num(text) => {
                let s: String = text.iter().collect();
                stack.push(s.parse().unwrap());
            }
            Token::Op(op) => {
                let r = stack.pop().unwrap();
                let l = stack.pop().unwrap();
                stack.push(match op {
                    '+' => l + r,
                    '-' => l - r,
                    '*' => l * r,
                    '/' => l / r,
                    _ => 0.0,
                });
            }
        }
    }
    assert_eq!(stack.len(), 1);
    stack[0]
}

fn run_pipeline(s: &str) -> f64 {
    let mut postfix = text_to_postfix(&chars_of(s)).expect("couldn't parse number!");
    let mut root = Operation::default();
    build_operation_tree(&mut postfix, &mut root);
    assert!(is_complete(&root));
    eval_tree(&root)
}

#[test]
fn multiplication_binds_before_addition() {
    assert_eq!(run_pipeline("3+4*2"), 11.0);
}

#[test]
fn parentheses_override_precedence() {
    assert_eq!(run_pipeline("(3+4)*2"), 14.0);
}

#[test]
fn implicit_multiplication_after_digit() {
    assert_eq!(run_pipeline("2(3+4)"), 14.0);
}

#[test]
fn implicit_multiplication_after_rparen() {
    assert_eq!(run_pipeline("(1+2)(3+4)"), 21.0);
}

#[test]
fn equal_precedence_is_left_associative() {
    assert_eq!(run_pipeline("10/2-3"), 2.0);
}

#[test]
fn division_by_zero_gives_positive_infinity() {
    let r = run_pipeline("1/0");
    assert!(r.is_infinite());
    assert!(r > 0.0);
}

#[test]
fn valid_expressions_match_reference_values() {
    assert!((run_pipeline("1+2*3-4/2") - 5.0).abs() < 1e-9);
    assert!((run_pipeline("2.5*4") - 10.0).abs() < 1e-9);
    assert!((run_pipeline("(1+2)*(3+4)") - 21.0).abs() < 1e-9);
    assert!((run_pipeline("7-2-1") - 4.0).abs() < 1e-9);
    assert!((run_pipeline("100/5/2") - 10.0).abs() < 1e-9);
}

#[test]
fn whitespace_is_skipped() {
    assert_eq!(run_pipeline(" 3 + 4 "), 7.0);
}

#[test]
fn rerunning_the_pipeline_gives_the_same_output() {
    let text = "2(3+4)-10/5";
    let first = run_pipeline(text);
    let second = run_pipeline(text);
    assert_eq!(first, second);
    let p1 = text_to_postfix(&chars_of(text)).unwrap();
    let p2 = text_to_postfix(&chars_of(text)).unwrap();
    assert_eq!(p1, p2);
}

#[test]
fn tree_build_and_eval_match_stack_simulator() {
    // (2+3)*4 in postfix, built by hand with no malformation.
    let postfix = vec![num("2"), num("3"), Token::Op('+'), num("4"), Token::Op('*')];
    let expected = stack_eval(&postfix);
    let mut consumed = postfix;
    let mut root = Operation::default();
    build_operation_tree(&mut consumed, &mut root);
    assert!(is_complete(&root));
    assert_eq!(consumed.len(), 0);
    assert_eq!(eval_tree(&root), expected);
    assert_eq!(expected, 20.0);
}

#[test]
fn three_token_build_shapes_both_children() {
    let mut postfix = vec![num("3"), num("4"), Token::Op('+')];
    let mut root = Operation::default();
    build_operation_tree(&mut postfix, &mut root);
    assert_eq!(postfix.len(), 0);
    assert_eq!(root.value, Some(Token::Op('+')));
    let right = root.right_op.as_ref().unwrap();
    assert_eq!(right.value, Some(num("4")));
    assert!(right.left_op.is_none() && right.right_op.is_none());
    let left = root.left_op.as_ref().unwrap();
    assert_eq!(left.value, Some(num("3")));
    assert!(left.left_op.is_none() && left.right_op.is_none());
}

#[test]
fn subtraction_keeps_operand_order_through_the_tree() {
    // 10 2 - must evaluate as 10-2, not 2-10.
    let postfix = vec![num("10"), num("2"), Token::Op('-')];
    let expected = stack_eval(&postfix);
    let mut consumed = postfix;
    let mut root = Operation::default();
    build_operation_tree(&mut consumed, &mut root);
    assert!(is_complete(&root));
    assert_eq!(eval_tree(&root), expected);
    assert_eq!(expected, 8.0);
}

#[test]
fn scanner_splits_numbers_and_operators() {
    let tokens = scan(&chars_of("12+3.5")).unwrap();
    assert_eq!(tokens, vec![num("12"), Token::Op('+'), num("3.5")]);
}

#[test]
fn scanner_rejects_two_decimal_points() {
    assert_eq!(scan(&chars_of("1.2.3")), Err(ScanError::BadNumeral));
    assert_eq!(scan(&chars_of("1+2..")), Err(ScanError::BadNumeral));
}

#[test]
fn pipeline_reports_bad_numeral() {
    assert!(text_to_postfix(&chars_of("1.2.3+4")).is_err());
}

#[test]
fn scanner_rejects_a_lone_decimal_point() {
    assert_eq!(scan(&chars_of("1+.")), Err(ScanError::BadNumeral));
}

#[test]
fn scanner_accepts_point_at_either_end() {
    assert_eq!(scan(&chars_of("1.")), Ok(vec![num("1.")]));
    assert_eq!(scan(&chars_of(".5")), Ok(vec![num(".5")]));
}

#[test]
fn numeral_check_matches_what_parses() {
    assert!(check_numeral(&chars_of("12")));
    assert!(check_numeral(&chars_of("1.5")));
    assert!(check_numeral(&chars_of("1.")));
    assert!(check_numeral(&chars_of(".5")));
    assert!(!check_numeral(&chars_of(".")));
    assert!(!check_numeral(&chars_of("1.2.3")));
    assert!(!check_numeral(&chars_of("")));
}

#[test]
fn precedence_table_levels() {
    assert_eq!(get_precedence('+'), 1);
    assert_eq!(get_precedence('-'), 1);
    assert_eq!(get_precedence('~'), 1);
    assert_eq!(get_precedence('*'), 2);
    assert_eq!(get_precedence('/'), 2);
    assert_eq!(get_precedence('%'), 2);
    assert_eq!(get_precedence('^'), 3);
    assert_eq!(get_precedence('!'), 4);
    assert_eq!(get_precedence('r'), 5);
    assert_eq!(get_precedence('L'), 5);
    assert_eq!(get_precedence('('), 0);
    assert_eq!(get_precedence(')'), 0);
    assert_eq!(get_precedence('5'), 0);
}

#[test]
fn no_operator_is_unary() {
    assert!(!is_unary(&'-'));
    assert!(!is_unary(&'~'));
    assert!(!is_unary(&'!'));
    assert!(!is_unary(&'r'));
}

#[test]
fn conversion_produces_postfix_order() {
    let tokens = scan(&chars_of("3+4*2")).unwrap();
    let postfix = in2postfix(&tokens);
    assert_eq!(
        postfix,
        vec![num("3"), num("4"), num("2"), Token::Op('*'), Token::Op('+')]
    );
}

#[test]
fn implicit_multiplication_inserts_a_star() {
    let tokens = scan(&chars_of("2(3)")).unwrap();
    let postfix = in2postfix(&tokens);
    assert_eq!(postfix, vec![num("2"), num("3"), Token::Op('*')]);
}

#[test]
fn omit_mult_only_fires_after_an_operand() {
    let mut stack = vec!['+'];
    let mut out: Vec<Token> = Vec::new();
    omit_mult('7', &mut stack, &mut out);
    assert_eq!(stack, vec!['+', '*']);
    assert_eq!(out, Vec::<Token>::new());

    let mut stack = vec!['+'];
    let mut out: Vec<Token> = Vec::new();
    omit_mult('+', &mut stack, &mut out);
    assert_eq!(stack, vec!['+']);
    assert_eq!(out, Vec::<Token>::new());

    let mut stack = vec!['*'];
    let mut out: Vec<Token> = Vec::new();
    omit_mult(')', &mut stack, &mut out);
    assert_eq!(stack, vec!['*']);
    assert_eq!(out, vec![Token::Op('*')]);
}

#[test]
fn unmatched_right_parenthesis_is_tolerated() {
    assert_eq!(run_pipeline("1+2)"), 3.0);
}

#[test]
fn unmatched_left_parenthesis_leaves_an_incomplete_tree() {
    let mut postfix = text_to_postfix(&chars_of("(1+2")).unwrap();
    let mut root = Operation::default();
    build_operation_tree(&mut postfix, &mut root);
    assert!(!is_complete(&root));
}

#[test]
fn juxtaposed_numbers_get_no_operator() {
    let postfix = text_to_postfix(&chars_of("2 3")).unwrap();
    assert_eq!(postfix, vec![num("2"), num("3")]);
    let mut consumed = postfix;
    let mut root = Operation::default();
    build_operation_tree(&mut consumed, &mut root);
    // Only the last number reaches the tree; the first stays unconsumed.
    assert!(is_complete(&root));
    assert_eq!(eval_tree(&root), 3.0);
    assert_eq!(consumed, vec![num("2")]);
}

#[test]
fn empty_input_builds_nothing() {
    let mut postfix = text_to_postfix(&chars_of("")).unwrap();
    assert_eq!(postfix.len(), 0);
    let mut root = Operation::default();
    build_operation_tree(&mut postfix, &mut root);
    assert!(root.value.is_none());
    assert!(!is_complete(&root));
}

#[test]
fn single_number_is_its_own_value() {
    assert_eq!(run_pipeline("42"), 42.0);
    assert_eq!(run_pipeline("2.5"), 2.5);
}
