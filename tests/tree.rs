use std::cmp::Ordering;

use numbers_game::post_processing::{dedup_commutative, infix_print, postfix_print};
use numbers_game::util::{to_postfix_string, ExpBTree, Op, Token};

fn num(n: u32) -> Token {
    Token::Num(n)
}

fn op(o: Op) -> Token {
    Token::Op(o)
}

fn leaf(n: u32) -> ExpBTree {
    ExpBTree::Num(n)
}

fn node(lhs: ExpBTree, o: Op, rhs: ExpBTree) -> ExpBTree {
    ExpBTree::Exp {
        lhs: Box::new(lhs),
        rhs: Box::new(rhs),
        op: o,
    }
}

#[test]
fn token_and_operator_text() {
    assert_eq!(num(0).to_string(), "0");
    assert_eq!(num(4096).to_string(), "4096");
    assert_eq!(num(u32::MAX).to_string(), "4294967295");
    assert_eq!(op(Op::Add).to_string(), "+");
    assert_eq!(op(Op::Sub).to_string(), "-");
    assert_eq!(op(Op::Mul).to_string(), "*");
    assert_eq!(op(Op::Div).to_string(), "/");
}

#[test]
fn precedence_order() {
    assert_eq!(Op::Add.cmp_precedence(&Op::Sub), Ordering::Equal);
    assert_eq!(Op::Mul.cmp_precedence(&Op::Div), Ordering::Equal);
    assert_eq!(Op::Sub.cmp_precedence(&Op::Mul), Ordering::Less);
    assert_eq!(Op::Div.cmp_precedence(&Op::Add), Ordering::Greater);
}

#[test]
fn postfix_text_of_sequences() {
    let seq = vec![num(12), num(3), op(Op::Add), num(5), op(Op::Mul)];
    assert_eq!(to_postfix_string(&seq), "12,3,+,5,*");
    assert_eq!(postfix_print(&seq), "12,3,+,5,*");
    assert_eq!(postfix_print(&vec![]), "");
    assert_eq!(postfix_print(&vec![num(7)]), "7");
}

#[test]
fn build_tree_from_sequence() {
    let tree = ExpBTree::try_from(vec![num(2), num(3), op(Op::Add), num(4), op(Op::Mul)]).unwrap();
    assert_eq!(tree, node(node(leaf(2), Op::Add, leaf(3)), Op::Mul, leaf(4)));
}

#[test]
fn build_rejects_missing_operand() {
    let err = ExpBTree::try_from(vec![num(2), op(Op::Add)]).unwrap_err();
    assert_eq!(err.to_string(), "2,+");
}

#[test]
fn build_rejects_leftover_values() {
    let err = ExpBTree::try_from(vec![num(2), num(3)]).unwrap_err();
    assert_eq!(err.to_string(), "2,3");
    let err = ExpBTree::try_from(vec![]).unwrap_err();
    assert_eq!(err.to_string(), "");
}

#[test]
fn commutative_equality() {
    let a = node(leaf(2), Op::Add, leaf(3));
    let b = node(leaf(3), Op::Add, leaf(2));
    assert!(a.commutative_eq(&b));
    assert!(b.commutative_eq(&a));
    assert!(a.commutative_eq(&a));
    let c = node(leaf(3), Op::Sub, leaf(2));
    let d = node(leaf(2), Op::Sub, leaf(3));
    assert!(!c.commutative_eq(&d));
    assert!(!a.commutative_eq(&c));
    assert!(!leaf(2).commutative_eq(&a));
    assert!(leaf(2).commutative_eq(&leaf(2)));
}

#[test]
fn commutative_equality_is_transitive_on_shared_parts() {
    let x = node(node(leaf(1), Op::Mul, leaf(2)), Op::Add, node(leaf(6), Op::Div, leaf(3)));
    let y = node(node(leaf(6), Op::Div, leaf(3)), Op::Add, node(leaf(2), Op::Mul, leaf(1)));
    let z = node(node(leaf(6), Op::Div, leaf(3)), Op::Add, node(leaf(1), Op::Mul, leaf(2)));
    assert!(x.commutative_eq(&y));
    assert!(y.commutative_eq(&z));
    assert!(x.commutative_eq(&z));
    assert!(z.commutative_eq(&x));
}

#[test]
fn postfix_round_trip() {
    let seq = vec![num(8), num(3), num(1), op(Op::Sub), op(Op::Div), num(2), op(Op::Add)];
    let tree = ExpBTree::try_from(seq.clone()).unwrap();
    assert_eq!(tree.to_postfix_string(), "8,3,1,-,/,2,+");
    assert_eq!(tree.postfix_tokens(), seq);
    let again = ExpBTree::try_from(tree.postfix_tokens()).unwrap();
    assert!(again.commutative_eq(&tree));
}

#[test]
fn infix_parentheses() {
    let t = node(node(leaf(2), Op::Add, leaf(3)), Op::Mul, leaf(4));
    assert_eq!(t.to_infix_string(), "(2+3)*4");
    let t = node(leaf(8), Op::Sub, node(leaf(3), Op::Sub, leaf(1)));
    assert_eq!(t.to_infix_string(), "8-(3-1)");
    let t = node(leaf(8), Op::Sub, node(leaf(3), Op::Add, leaf(1)));
    assert_eq!(t.to_infix_string(), "8-(3+1)");
    let t = node(leaf(64), Op::Div, node(leaf(4), Op::Div, leaf(2)));
    assert_eq!(t.to_infix_string(), "64/(4/2)");
    let t = node(node(leaf(8), Op::Sub, leaf(3)), Op::Sub, leaf(1));
    assert_eq!(t.to_infix_string(), "8-3-1");
    let t = node(leaf(2), Op::Add, node(leaf(3), Op::Sub, leaf(1)));
    assert_eq!(t.to_infix_string(), "2+3-1");
    let t = node(leaf(2), Op::Mul, node(leaf(3), Op::Add, leaf(1)));
    assert_eq!(t.to_infix_string(), "2*(3+1)");
    let t = node(node(leaf(2), Op::Mul, leaf(3)), Op::Add, leaf(1));
    assert_eq!(t.to_infix_string(), "2*3+1");
    assert_eq!(leaf(42).to_infix_string(), "42");
}

#[test]
fn infix_of_sequences() {
    let seq = vec![num(2), num(3), op(Op::Add), num(4), op(Op::Mul)];
    assert_eq!(infix_print(&seq), Some("(2+3)*4".to_string()));
    assert_eq!(infix_print(&vec![num(1), op(Op::Sub)]), None);
    assert_eq!(infix_print(&vec![num(1), num(2)]), None);
}

#[test]
fn dedup_keeps_first_of_each_commutative_class() {
    let trees = vec![
        node(leaf(2), Op::Add, leaf(3)),
        node(leaf(3), Op::Add, leaf(2)),
        node(leaf(3), Op::Sub, leaf(2)),
        node(leaf(2), Op::Mul, leaf(3)),
        node(leaf(3), Op::Mul, leaf(2)),
        node(leaf(3), Op::Sub, leaf(2)),
    ];
    let kept = dedup_commutative(trees);
    assert_eq!(
        kept,
        vec![
            node(leaf(2), Op::Add, leaf(3)),
            node(leaf(3), Op::Sub, leaf(2)),
            node(leaf(2), Op::Mul, leaf(3)),
        ]
    );
    assert!(dedup_commutative(vec![]).is_empty());
}

#[test]
fn conversions_into_tokens_and_leaves() {
    assert_eq!(Token::from(7), num(7));
    assert_eq!(Token::from(Op::Div), op(Op::Div));
    assert_eq!(ExpBTree::from(9), leaf(9));
}

#[test]
fn clone_copies_the_tree() {
    let t = node(node(leaf(2), Op::Add, leaf(3)), Op::Mul, leaf(4));
    let c = t.clone();
    assert_eq!(c, t);
    assert_eq!(c.to_infix_string(), "(2+3)*4");
}
