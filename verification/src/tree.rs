use vstd::prelude::*;

use crate::converter::is_unary;
use crate::token::{Tok, Token, lemma_num_surplus_append, num_surplus, views, wf_postfix};

verus! {

/// A node of a binary expression tree.  A finished node holds a token; a
/// numeric token makes a leaf, an operator token holds its operands in the
/// children.  A node without a value only arises when the postfix sequence
/// ran out while the tree still needed operands.
#[derive(Debug)]
pub struct Operation {
    pub value: Option<Token>,
    pub left_op: Option<Box<Operation>>,
    pub right_op: Option<Box<Operation>>,
}

impl Default for Operation {
    /// A fresh node: no value, no children.
    fn default() -> (node: Self)
        ensures
            node.value is None,
            node.left_op is None,
            node.right_op is None,
    {
        Operation { value: None, left_op: None, right_op: None }
    }
}

/// The postfix sequence that a tree stands for: both subtrees, left before
/// right, then the node's own token.  A node without a value reads as
/// nothing.
pub open spec fn tree_postfix(t: Operation) -> Seq<Tok>
    decreases t,
{
    match t.value {
        None => Seq::<Tok>::empty(),
        Some(tok) => (match t.left_op {
            None => Seq::<Tok>::empty(),
            Some(l) => tree_postfix(*l),
        }) + (match t.right_op {
            None => Seq::<Tok>::empty(),
            Some(r) => tree_postfix(*r),
        }) + seq![tok@],
    }
}

/// A fully built tree: every node has a value, numbers are leaves, and every
/// operator has both operands.  Building from a malformed postfix sequence —
/// one cut short, as by an unmatched parenthesis — leaves this false
/// somewhere.
pub open spec fn complete(t: Operation) -> bool
    decreases t,
{
    match t.value {
        None => false,
        Some(tok) => match tok {
            Token::Num(_) => t.left_op is None && t.right_op is None,
            Token::Op(_) => {
                &&& match t.left_op {
                    None => false,
                    Some(l) => complete(*l),
                }
                &&& match t.right_op {
                    None => false,
                    Some(r) => complete(*r),
                }
            },
        },
    }
}

/// The shape every node of a built tree has, complete or not: a node
/// without a value has no children, a number is a leaf, and an operator
/// carries both of its operand slots — each holding a node of this same
/// shape.  This is the whole-tree reading of the data model's invariant;
/// `complete` further demands that no valueless node is left anywhere.
pub open spec fn built_shape(t: Operation) -> bool
    decreases t,
{
    match t.value {
        None => t.left_op is None && t.right_op is None,
        Some(tok) => match tok {
            Token::Num(_) => t.left_op is None && t.right_op is None,
            Token::Op(_) => {
                &&& match t.left_op {
                    None => false,
                    Some(l) => built_shape(*l),
                }
                &&& match t.right_op {
                    None => false,
                    Some(r) => built_shape(*r),
                }
            },
        },
    }
}

/// Whether the tree is fully built; the policy check before any evaluation
/// of a tree that may come from a malformed expression.
pub fn is_complete(root: &Operation) -> (b: bool)
    ensures
        b == complete(*root),
    decreases *root,
{
    match &root.value {
        None => false,
        Some(Token::Num(_)) => root.left_op.is_none() && root.right_op.is_none(),
        Some(Token::Op(_)) => {
            let left_ok = match &root.left_op {
                None => false,
                Some(l) => is_complete(l),
            };
            let right_ok = match &root.right_op {
                None => false,
                Some(r) => is_complete(r),
            };
            left_ok && right_ok
        },
    }
}

/// Builds the expression tree from the tail of the postfix sequence into a
/// fresh node: the last token becomes the node's value; a number makes a
/// leaf, an operator takes its right operand from the tokens before it and
/// then, not being unary, its left operand from the tokens before those.
/// The tokens consumed are exactly the postfix reading of the finished
/// tree, every node of which has the built shape — numbers childless,
/// operators with both operand slots filled; only when the sequence runs
/// out too early does the tree stay incomplete, and then nothing is left
/// of the sequence.
pub fn build_operation_tree(postfix: &mut Vec<Token>, root: &mut Operation)
    requires
        old(root).value is None,
        old(root).left_op is None,
        old(root).right_op is None,
    ensures
        views(old(postfix)@) == views(final(postfix)@) + tree_postfix(*final(root)),
        final(postfix)@.len() <= old(postfix)@.len(),
        !complete(*final(root)) ==> final(postfix)@.len() == 0,
        (final(root).value is None) <==> old(postfix)@.len() == 0,
        built_shape(*final(root)),
        match final(root).value {
            None => final(root).left_op is None && final(root).right_op is None,
            Some(tok) => match tok {
                Token::Num(_) => final(root).left_op is None && final(root).right_op is None,
                Token::Op(_) => final(root).left_op is Some && final(root).right_op is Some,
            },
        },
    decreases old(postfix)@.len(),
{
    let ghost orig = postfix@;
    if postfix.len() == 0 {
        proof {
            assert(views(orig) + tree_postfix(*root) =~= views(orig));
        }
        return;
    }
    let tok = postfix.pop().unwrap();
    let ghost tokv = tok@;
    let is_num = matches!(tok, Token::Num(_));
    let op_char: char = match &tok {
        Token::Op(c) => *c,
        Token::Num(_) => ' ',
    };
    root.value = Some(tok);
    proof {
        assert(postfix@ =~= orig.drop_last());
        assert(views(orig) =~= views(postfix@) + seq![tokv]);
    }
    if is_num {
        proof {
            assert(tree_postfix(*root) =~= seq![tokv]);
            assert(views(orig) =~= views(postfix@) + tree_postfix(*root));
        }
        return;
    }
    let mut right = Operation { value: None, left_op: None, right_op: None };
    build_operation_tree(postfix, &mut right);
    let ghost right_ser = tree_postfix(right);
    let ghost after_right = views(postfix@);
    root.right_op = Some(Box::new(right));
    if !is_unary(&op_char) {
        let mut left = Operation { value: None, left_op: None, right_op: None };
        build_operation_tree(postfix, &mut left);
        proof {
            assert(after_right == views(postfix@) + tree_postfix(left));
        }
        root.left_op = Some(Box::new(left));
    }
    proof {
        let left_ser = match &root.left_op {
            None => Seq::<Tok>::empty(),
            Some(l) => tree_postfix(**l),
        };
        assert(tree_postfix(*root) == left_ser + right_ser + seq![tokv]);
        assert(views(orig) =~= views(postfix@) + (left_ser + right_ser + seq![tokv]));
        assert(complete(*root) == (match &root.left_op {
            None => false,
            Some(l) => complete(**l),
        } && match &root.right_op {
            None => false,
            Some(r) => complete(**r),
        }));
        assert(built_shape(*root) == (match &root.left_op {
            None => false,
            Some(l) => built_shape(**l),
        } && match &root.right_op {
            None => false,
            Some(r) => built_shape(**r),
        }));
    }
}

/// Law: the postfix reading of a complete tree is uniquely decodable from
/// the tail.  When two complete trees close the same token sequence, they
/// read as the same postfix suffix over the same remainder; so rebuilding
/// from one postfix sequence can only reproduce the same split that the
/// tree builder's contract describes, and — with the evaluation laws — the
/// same value.
pub proof fn lemma_tree_postfix_suffix_unique(
    t1: Operation,
    t2: Operation,
    p1: Seq<Tok>,
    p2: Seq<Tok>,
)
    requires
        complete(t1),
        complete(t2),
        p1 + tree_postfix(t1) == p2 + tree_postfix(t2),
    ensures
        tree_postfix(t1) == tree_postfix(t2),
        p1 == p2,
    decreases t1,
{
    let s1 = tree_postfix(t1);
    let s2 = tree_postfix(t2);
    let whole = p1 + s1;
    assert(s1.len() > 0);
    assert(s2.len() > 0);
    assert(s1.last() == whole.last());
    assert(s2.last() == whole.last());
    match (t1.value, t2.value) {
        (Some(tok1), Some(tok2)) => {
            assert(tok1@ == s1.last());
            assert(tok2@ == s2.last());
            match (tok1, tok2) {
                (Token::Num(_), Token::Num(_)) => {
                    assert(s1 =~= seq![tok1@]);
                    assert(s2 =~= seq![tok2@]);
                    assert(p1.len() == p2.len());
                    assert forall|k: int| 0 <= k < p1.len() implies p1[k] == p2[k] by {
                        assert((p1 + s1)[k] == p1[k]);
                        assert((p2 + s2)[k] == p2[k]);
                    }
                    assert(p1 =~= p2);
                },
                (Token::Op(_), Token::Op(_)) => {
                    let l1 = match &t1.left_op {
                        None => t1,
                        Some(l) => **l,
                    };
                    let r1 = match &t1.right_op {
                        None => t1,
                        Some(r) => **r,
                    };
                    let l2 = match &t2.left_op {
                        None => t2,
                        Some(l) => **l,
                    };
                    let r2 = match &t2.right_op {
                        None => t2,
                        Some(r) => **r,
                    };
                    assert(s1 == tree_postfix(l1) + tree_postfix(r1) + seq![tok1@]);
                    assert(s2 == tree_postfix(l2) + tree_postfix(r2) + seq![tok2@]);
                    assert((p1 + tree_postfix(l1)) + tree_postfix(r1) =~= (p1 + s1).drop_last());
                    assert((p2 + tree_postfix(l2)) + tree_postfix(r2) =~= (p2 + s2).drop_last());
                    lemma_tree_postfix_suffix_unique(r1, r2, p1 + tree_postfix(l1), p2
                        + tree_postfix(l2));
                    lemma_tree_postfix_suffix_unique(l1, l2, p1, p2);
                    assert(s1 =~= s2);
                },
                _ => {
                    assert(false);
                },
            }
        },
        _ => {},
    }
}

/// A complete tree has the built shape: completeness only tightens it.
pub proof fn lemma_complete_implies_shaped(t: Operation)
    requires
        complete(t),
    ensures
        built_shape(t),
    decreases t,
{
    match t.value {
        None => {},
        Some(tok) => match tok {
            Token::Num(_) => {},
            Token::Op(_) => {
                match t.left_op {
                    None => {},
                    Some(l) => {
                        lemma_complete_implies_shaped(*l);
                    },
                }
                match t.right_op {
                    None => {},
                    Some(r) => {
                        lemma_complete_implies_shaped(*r);
                    },
                }
            },
        },
    }
}

/// For a tree of the built shape, the operand surplus of its postfix
/// reading is at most one, and it is exactly one precisely when the tree is
/// complete: each valueless node left by an exhausted postfix sequence
/// costs one operand.
pub proof fn lemma_shaped_surplus(t: Operation)
    requires
        built_shape(t),
    ensures
        num_surplus(tree_postfix(t)) <= 1,
        (num_surplus(tree_postfix(t)) == 1) == complete(t),
    decreases t,
{
    match t.value {
        None => {},
        Some(tok) => match tok {
            Token::Num(_) => {
                assert(tree_postfix(t) =~= seq![tok@]);
                assert(seq![tok@].drop_last() =~= Seq::<Tok>::empty());
                assert(seq![tok@].last() == tok@);
                assert(num_surplus(Seq::<Tok>::empty()) == 0);
                assert(tok@ is Num);
                assert(num_surplus(seq![tok@]) == 1);
            },
            Token::Op(_) => {
                let lser = match t.left_op {
                    None => Seq::<Tok>::empty(),
                    Some(l) => tree_postfix(*l),
                };
                let rser = match t.right_op {
                    None => Seq::<Tok>::empty(),
                    Some(r) => tree_postfix(*r),
                };
                match t.left_op {
                    None => {},
                    Some(l) => {
                        lemma_shaped_surplus(*l);
                    },
                }
                match t.right_op {
                    None => {},
                    Some(r) => {
                        lemma_shaped_surplus(*r);
                    },
                }
                assert(tree_postfix(t) == lser + rser + seq![tok@]);
                lemma_num_surplus_append(lser, rser);
                lemma_num_surplus_append(lser + rser, seq![tok@]);
                assert(seq![tok@].drop_last() =~= Seq::<Tok>::empty());
                assert(seq![tok@].last() == tok@);
                assert(num_surplus(Seq::<Tok>::empty()) == 0);
                assert(tok@ is Op);
                assert(num_surplus(seq![tok@]) == -1);
            },
        },
    }
}

/// The postfix reading of a complete tree is well formed: it leaves one
/// value, and the operand stack never runs dry part-way through.
pub proof fn lemma_complete_wf(t: Operation)
    requires
        complete(t),
    ensures
        wf_postfix(tree_postfix(t)),
    decreases t,
{
    lemma_complete_implies_shaped(t);
    lemma_shaped_surplus(t);
    match t.value {
        None => {},
        Some(tok) => match tok {
            Token::Num(_) => {
                let ser = tree_postfix(t);
                assert(ser =~= seq![tok@]);
                assert forall|n: int| 0 < n <= ser.len() implies num_surplus(ser.take(n)) >= 1 by {
                    assert(ser.take(n) =~= ser);
                }
            },
            Token::Op(_) => {
                let lt = match t.left_op {
                    None => t,
                    Some(l) => *l,
                };
                let rt = match t.right_op {
                    None => t,
                    Some(r) => *r,
                };
                lemma_complete_wf(lt);
                lemma_complete_wf(rt);
                let lser = tree_postfix(lt);
                let rser = tree_postfix(rt);
                let ser = tree_postfix(t);
                assert(ser == lser + rser + seq![tok@]);
                assert forall|n: int| 0 < n <= ser.len() implies num_surplus(ser.take(n)) >= 1 by {
                    if n <= lser.len() {
                        assert(ser.take(n) =~= lser.take(n));
                    } else if n <= lser.len() + rser.len() {
                        assert(ser.take(n) =~= lser + rser.take(n - lser.len()));
                        lemma_num_surplus_append(lser, rser.take(n - lser.len()));
                    } else {
                        assert(ser.take(n) =~= ser);
                    }
                }
            },
        },
    }
}

/// Law: building from a well-formed postfix sequence must come back
/// complete, with nothing left over and the whole sequence as the tree's
/// reading.  The hypotheses are exactly what the tree builder's own
/// contract gives of its result, so any build on such a sequence is pinned:
/// by the suffix-uniqueness law its tree reads back as the input, and by
/// the evaluation laws it carries the input's one value.
pub proof fn lemma_built_tree_complete(t: Operation, p: Seq<Tok>, rem: Seq<Tok>)
    requires
        built_shape(t),
        wf_postfix(p),
        p == rem + tree_postfix(t),
        !complete(t) ==> rem.len() == 0,
    ensures
        complete(t),
        rem.len() == 0,
        tree_postfix(t) == p,
{
    let ser = tree_postfix(t);
    lemma_num_surplus_append(rem, ser);
    lemma_shaped_surplus(t);
    if !complete(t) {
        assert(rem + ser =~= ser);
        assert(num_surplus(ser) == 1);
        assert(false);
    }
    if rem.len() > 0 {
        assert(p.take(rem.len() as int) =~= rem);
        assert(num_surplus(p.take(rem.len() as int)) >= 1);
        assert(false);
    }
    assert(rem + ser =~= ser);
}

/// Law: the build is repeatable.  Two builds from the same well-formed
/// postfix sequence, each bound by the tree builder's contract, both come
/// back complete over an empty remainder and read as the same sequence —
/// and so, by the evaluation laws, carry the same value.
pub proof fn lemma_build_repeatable(
    t1: Operation,
    t2: Operation,
    rem1: Seq<Tok>,
    rem2: Seq<Tok>,
    p: Seq<Tok>,
)
    requires
        built_shape(t1),
        built_shape(t2),
        wf_postfix(p),
        p == rem1 + tree_postfix(t1),
        p == rem2 + tree_postfix(t2),
        !complete(t1) ==> rem1.len() == 0,
        !complete(t2) ==> rem2.len() == 0,
    ensures
        complete(t1),
        complete(t2),
        rem1 == rem2,
        tree_postfix(t1) == tree_postfix(t2),
{
    lemma_built_tree_complete(t1, p, rem1);
    lemma_built_tree_complete(t2, p, rem2);
    assert(rem1 =~= rem2);
}

} // verus!
