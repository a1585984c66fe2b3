use numbers_game::compute::{
    calc_postfix_sequences_all, calc_postfix_sequences_first, try_apply_legal, try_apply_sensible,
};
use numbers_game::util::{ExpBTree, Op, Token};

fn num(n: u32) -> Token {
    Token::Num(n)
}

fn op(o: Op) -> Token {
    Token::Op(o)
}

fn eval(seq: &[Token]) -> Option<Vec<i64>> {
    let mut stack: Vec<i64> = Vec::new();
    for t in seq {
        match t {
            Token::Num(n) => stack.push(*n as i64),
            Token::Op(o) => {
                let b = stack.pop()?;
                let a = stack.pop()?;
                stack.push(match o {
                    Op::Add => a + b,
                    Op::Sub => a - b,
                    Op::Mul => a * b,
                    Op::Div => {
                        if b == 0 {
                            return None;
                        }
                        a / b
                    }
                });
            }
        }
    }
    Some(stack)
}

fn used_numbers(seq: &[Token]) -> Vec<u32> {
    let mut v: Vec<u32> = seq
        .iter()
        .filter_map(|t| match t {
            Token::Num(n) => Some(*n),
            Token::Op(_) => None,
        })
        .collect();
    v.sort();
    v
}

#[test]
fn legal_policy_steps() {
    assert_eq!(try_apply_legal(vec![], num(0)), Some(vec![0]));
    assert_eq!(try_apply_legal(vec![4], op(Op::Add)), None);
    assert_eq!(try_apply_legal(vec![1, 2], op(Op::Add)), Some(vec![3]));
    assert_eq!(try_apply_legal(vec![9, 5, 3], op(Op::Sub)), Some(vec![9, 2]));
    assert_eq!(try_apply_legal(vec![3, 3], op(Op::Sub)), None);
    assert_eq!(try_apply_legal(vec![2, 5], op(Op::Sub)), None);
    assert_eq!(try_apply_legal(vec![1, 7], op(Op::Mul)), Some(vec![7]));
    assert_eq!(try_apply_legal(vec![8, 1], op(Op::Div)), Some(vec![8]));
    assert_eq!(try_apply_legal(vec![8, 3], op(Op::Div)), None);
    assert_eq!(try_apply_legal(vec![8, 0], op(Op::Div)), None);
}

#[test]
fn sensible_policy_steps() {
    assert_eq!(try_apply_sensible(vec![], num(0)), None);
    assert_eq!(try_apply_sensible(vec![2], num(3)), Some(vec![2, 3]));
    assert_eq!(try_apply_sensible(vec![2, 3], op(Op::Add)), None);
    assert_eq!(try_apply_sensible(vec![3, 2], op(Op::Add)), Some(vec![5]));
    assert_eq!(try_apply_sensible(vec![3, 3], op(Op::Add)), Some(vec![6]));
    assert_eq!(try_apply_sensible(vec![3, 3], op(Op::Sub)), None);
    assert_eq!(try_apply_sensible(vec![5, 3], op(Op::Sub)), Some(vec![2]));
    assert_eq!(try_apply_sensible(vec![7, 1], op(Op::Mul)), None);
    assert_eq!(try_apply_sensible(vec![1, 7], op(Op::Mul)), None);
    assert_eq!(try_apply_sensible(vec![2, 7], op(Op::Mul)), None);
    assert_eq!(try_apply_sensible(vec![7, 2], op(Op::Mul)), Some(vec![14]));
    assert_eq!(try_apply_sensible(vec![8, 1], op(Op::Div)), None);
    assert_eq!(try_apply_sensible(vec![8, 3], op(Op::Div)), None);
    assert_eq!(try_apply_sensible(vec![8, 4], op(Op::Div)), Some(vec![2]));
}

#[test]
fn results_outside_u32_are_rejected() {
    assert_eq!(try_apply_legal(vec![u32::MAX, 1], op(Op::Add)), None);
    assert_eq!(try_apply_legal(vec![65536, 65536], op(Op::Mul)), None);
    assert_eq!(try_apply_sensible(vec![u32::MAX - 1, 1], op(Op::Add)), Some(vec![u32::MAX]));
}

#[test]
fn example_two_plus_three() {
    let r = calc_postfix_sequences_first(&[2, 3], 5, false).unwrap();
    assert_eq!(eval(&r), Some(vec![5]));
    // the sensible policy keeps only the order with the larger operand first
    assert_eq!(r, vec![num(3), num(2), op(Op::Add)]);
    let tree = ExpBTree::try_from(r).unwrap();
    let plain = ExpBTree::try_from(vec![num(2), num(3), op(Op::Add)]).unwrap();
    assert!(tree.commutative_eq(&plain));
    assert_eq!(tree.to_infix_string(), "3+2");
}

#[test]
fn example_four_divided_by_two() {
    let r = calc_postfix_sequences_first(&[4, 2], 2, false).unwrap();
    assert_eq!(r, vec![num(4), num(2), op(Op::Div)]);
    let tree = ExpBTree::try_from(r).unwrap();
    assert_eq!(tree.to_infix_string(), "4/2");
}

#[test]
fn example_one_plus_one() {
    let r = calc_postfix_sequences_first(&[1, 1], 2, false);
    assert_eq!(r, Some(vec![num(1), num(1), op(Op::Add)]));
    let all = calc_postfix_sequences_all(&[1, 1], 2, false);
    assert_eq!(all, vec![vec![num(1), num(1), op(Op::Add)]]);
}

#[test]
fn example_single_number() {
    for dumb in [false, true] {
        assert_eq!(calc_postfix_sequences_first(&[5], 5, dumb), Some(vec![num(5)]));
        assert_eq!(calc_postfix_sequences_all(&[5], 5, dumb), vec![vec![num(5)]]);
    }
}

#[test]
fn example_three_times_three() {
    let dumb = calc_postfix_sequences_all(&[3, 3], 9, true);
    let sensible = calc_postfix_sequences_all(&[3, 3], 9, false);
    assert_eq!(dumb, vec![vec![num(3), num(3), op(Op::Mul)]]);
    assert_eq!(sensible, vec![vec![num(3), num(3), op(Op::Mul)]]);
}

#[test]
fn dumb_policy_keeps_both_operand_orders() {
    let mut dumb = calc_postfix_sequences_all(&[2, 3], 6, true);
    dumb.sort_by_key(|s| format!("{:?}", s));
    assert_eq!(
        dumb,
        vec![vec![num(2), num(3), op(Op::Mul)], vec![num(3), num(2), op(Op::Mul)]]
    );
    let sensible = calc_postfix_sequences_all(&[2, 3], 6, false);
    assert_eq!(sensible, vec![vec![num(3), num(2), op(Op::Mul)]]);
}

#[test]
fn no_solution_is_empty() {
    assert_eq!(calc_postfix_sequences_first(&[2, 3], 7, false), None);
    assert!(calc_postfix_sequences_all(&[2, 3], 7, false).is_empty());
    assert_eq!(calc_postfix_sequences_first(&[], 0, true), None);
    assert!(calc_postfix_sequences_all(&[], 0, true).is_empty());
}

#[test]
fn shorter_sequences_are_collected() {
    let all = calc_postfix_sequences_all(&[5, 3], 5, false);
    assert!(all.contains(&vec![num(5)]));
    assert_eq!(calc_postfix_sequences_first(&[5, 3], 5, false), Some(vec![num(5)]));
}

#[test]
fn every_solution_evaluates_to_target_and_uses_given_numbers() {
    let numbers = [1, 3, 4, 6];
    for dumb in [false, true] {
        let all = calc_postfix_sequences_all(&numbers, 24, dumb);
        assert!(!all.is_empty());
        for s in &all {
            assert_eq!(eval(s), Some(vec![24]));
            let used = used_numbers(s);
            let mut rest = numbers.to_vec();
            for n in used {
                let pos = rest.iter().position(|&m| m == n).unwrap();
                rest.remove(pos);
            }
        }
        for i in 0..all.len() {
            for j in (i + 1)..all.len() {
                assert_ne!(all[i], all[j]);
            }
        }
    }
}

#[test]
fn first_is_among_all() {
    for (numbers, target) in [(vec![1, 3, 4, 6], 24), (vec![2, 3, 7], 13), (vec![4, 2], 2)] {
        for dumb in [false, true] {
            let first = calc_postfix_sequences_first(&numbers, target, dumb).unwrap();
            let all = calc_postfix_sequences_all(&numbers, target, dumb);
            assert!(all.contains(&first));
        }
    }
}

#[test]
fn find_all_is_deterministic() {
    let mut a = calc_postfix_sequences_all(&[2, 3, 7], 13, true);
    let mut b = calc_postfix_sequences_all(&[2, 3, 7], 13, true);
    a.sort_by_key(|s| format!("{:?}", s));
    b.sort_by_key(|s| format!("{:?}", s));
    assert_eq!(a, b);
}

#[test]
fn first_tries_unused_numbers_in_given_order() {
    let r = calc_postfix_sequences_first(&[6, 2, 3], 1, false);
    assert_eq!(
        r,
        Some(vec![num(6), num(2), op(Op::Div), num(3), op(Op::Div)])
    );
}

#[test]
fn every_solution_builds_a_tree() {
    for s in calc_postfix_sequences_all(&[1, 3, 4, 6], 24, true) {
        assert!(ExpBTree::try_from(s).is_ok());
    }
}
