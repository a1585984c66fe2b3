//! The search for postfix sequences that reach a target.

use vstd::prelude::*;
use vstd::multiset::Multiset;
use crate::util::{build, build_from, copy_tokens, tree_step, ExpBTree, Op, PostfixSequence, Token};

verus! {

/// The value of `a op b` in ordinary integer arithmetic.
pub open spec fn combine(op: Op, a: int, b: int) -> int {
    match op {
        Op::Add => a + b,
        Op::Sub => a - b,
        Op::Mul => a * b,
        Op::Div => a / b,
    }
}

/// Whether `a op b` is a valid step on positive integers: a subtraction must
/// stay positive and a division must be exact.
pub open spec fn legal(op: Op, a: u32, b: u32) -> bool {
    match op {
        Op::Add => true,
        Op::Sub => a > b,
        Op::Mul => true,
        Op::Div => b != 0 && a % b == 0,
    }
}

/// Whether `a op b` is a step worth taking: legal, not an identity, and for
/// `+` and `*` only one of the two operand orders.
pub open spec fn sensible(op: Op, a: u32, b: u32) -> bool {
    match op {
        Op::Add => a >= b,
        Op::Sub => a > b,
        Op::Mul => a != 1 && b != 1 && a >= b,
        Op::Div => b > 1 && a % b == 0,
    }
}

/// Whether the policy takes the step `a op b`; its value must fit in `u32`.
pub open spec fn allowed(dumb: bool, op: Op, a: u32, b: u32) -> bool {
    &&& if dumb {
        legal(op, a, b)
    } else {
        sensible(op, a, b)
    }
    &&& combine(op, a as int, b as int) <= u32::MAX
}

/// The evaluation stack after `token` under a policy (`dumb` for the legal
/// policy, else the sensible one), or `None` where the policy rejects it.
pub open spec fn apply(dumb: bool, stack: Seq<u32>, token: Token) -> Option<Seq<u32>> {
    match token {
        Token::Num(n) => if !dumb && n == 0 {
            None
        } else {
            Some(stack.push(n))
        },
        Token::Op(op) => if stack.len() < 2 {
            None
        } else {
            let a = stack[stack.len() - 2];
            let b = stack[stack.len() - 1];
            if allowed(dumb, op, a, b) {
                Some(stack.subrange(0, stack.len() - 2).push(combine(op, a as int, b as int) as u32))
            } else {
                None
            }
        },
    }
}

/// The view of an optional stack.
pub open spec fn stack_view(r: Option<Vec<u32>>) -> Option<Seq<u32>> {
    match r {
        Some(v) => Some(v@),
        None => None,
    }
}

/// Applies `op` to the top two values of a stack that holds at least two.
fn apply_op(dumb: bool, mut stack: Vec<u32>, op: Op) -> (r: Option<Vec<u32>>)
    requires
        stack.len() >= 2,
    ensures
        stack_view(r) == apply(dumb, stack@, Token::Op(op)),
{
    let ghost s = stack@;
    let b = stack.pop().unwrap();
    let a = stack.pop().unwrap();
    assert(stack@ =~= s.subrange(0, s.len() - 2));
    let ok = if dumb {
        match op {
            Op::Add => true,
            Op::Sub => a > b,
            Op::Mul => true,
            Op::Div => b != 0 && a % b == 0,
        }
    } else {
        match op {
            Op::Add => a >= b,
            Op::Sub => a > b,
            Op::Mul => a != 1 && b != 1 && a >= b,
            Op::Div => b > 1 && a % b == 0,
        }
    };
    if !ok {
        return None;
    }
    let value = match op {
        Op::Add => a.checked_add(b),
        Op::Sub => Some(a - b),
        Op::Mul => a.checked_mul(b),
        Op::Div => Some(a / b),
    };
    match value {
        Some(v) => {
            stack.push(v);
            Some(stack)
        },
        None => None,
    }
}

/// Applies a token to the evaluation stack under the legal policy: a number
/// is pushed; an operation replaces the top two values by its result, unless
/// it is not a valid step on positive integers or its result leaves `u32`.
pub fn try_apply_legal(mut stack: Vec<u32>, token: Token) -> (r: Option<Vec<u32>>)
    ensures
        stack_view(r) == apply(true, stack@, token),
{
    match token {
        Token::Num(n) => {
            stack.push(n);
            Some(stack)
        },
        Token::Op(op) => if stack.len() < 2 {
            None
        } else {
            apply_op(true, stack, op)
        },
    }
}

/// Applies a token to the evaluation stack under the sensible policy, which
/// also rejects zero, identity steps and one operand order of `+` and `*`.
pub fn try_apply_sensible(mut stack: Vec<u32>, token: Token) -> (r: Option<Vec<u32>>)
    ensures
        stack_view(r) == apply(false, stack@, token),
{
    match token {
        Token::Num(n) => if n == 0 {
            None
        } else {
            stack.push(n);
            Some(stack)
        },
        Token::Op(op) => if stack.len() < 2 {
            None
        } else {
            apply_op(false, stack, op)
        },
    }
}

/// The stack reached by running `s` from `stack` under a policy, or `None`
/// where the policy rejects one of its steps.
pub open spec fn run(dumb: bool, stack: Seq<u32>, s: Seq<Token>) -> Option<Seq<u32>>
    decreases s.len(),
{
    if s.len() == 0 {
        Some(stack)
    } else {
        match apply(dumb, stack, s[0]) {
            Some(next) => run(dumb, next, s.drop_first()),
            None => None,
        }
    }
}

/// The numbers that a sequence of tokens uses, with their multiplicities.
pub open spec fn numbers_used(s: Seq<Token>) -> Multiset<u32>
    decreases s.len(),
{
    if s.len() == 0 {
        Multiset::empty()
    } else {
        match s[0] {
            Token::Num(n) => numbers_used(s.drop_first()).insert(n),
            Token::Op(_) => numbers_used(s.drop_first()),
        }
    }
}

/// Whether `s`, continued from `stack` with `numbers` still at hand, leaves
/// exactly the target on the stack, each of its steps accepted by the policy.
pub open spec fn completes(
    numbers: Seq<u32>,
    target: u32,
    dumb: bool,
    stack: Seq<u32>,
    s: Seq<Token>,
) -> bool {
    &&& run(dumb, stack, s) == Some(seq![target])
    &&& numbers_used(s).subset_of(numbers.to_multiset())
}

/// Whether `s` is a solution: from the empty stack it reaches the target,
/// using each of the given numbers at most as often as it is given.
pub open spec fn is_solution(numbers: Seq<u32>, target: u32, dumb: bool, s: Seq<Token>) -> bool {
    completes(numbers, target, dumb, Seq::empty(), s)
}

/// Every solution for the given numbers, target and policy.
pub open spec fn solutions(numbers: Seq<u32>, target: u32, dumb: bool) -> Set<Seq<Token>> {
    Set::new(|s: Seq<Token>| is_solution(numbers, target, dumb, s))
}

/// The operations in the order in which the search tries them.
pub open spec fn op_order() -> Seq<Op> {
    seq![Op::Mul, Op::Div, Op::Add, Op::Sub]
}

/// The search order of the operations, as an array.
fn search_ops() -> (r: [Op; 4])
    ensures
        r@ == op_order(),
{
    let r = [Op::Mul, Op::Div, Op::Add, Op::Sub];
    assert(r@ =~= op_order());
    r
}

/// Unfolds `completes` at a leading number taken from position `i`.
proof fn lemma_number_step(
    numbers: Seq<u32>,
    target: u32,
    dumb: bool,
    stack: Seq<u32>,
    i: int,
    s: Seq<Token>,
)
    requires
        0 <= i < numbers.len(),
        s.len() > 0,
        s[0] == Token::Num(numbers[i]),
    ensures
        completes(numbers, target, dumb, stack, s) <==> match apply(dumb, stack, s[0]) {
            Some(next) => completes(numbers.remove(i), target, dumb, next, s.drop_first()),
            None => false,
        },
{
    broadcast use vstd::seq_lib::group_to_multiset_ensures;

    let n = numbers[i];
    let m = numbers.to_multiset();
    let rest = numbers_used(s.drop_first());
    assert(numbers.contains(n));
    assert(m.count(n) > 0);
    assert(numbers.remove(i).to_multiset() =~= m.remove(n));
    assert(numbers_used(s) == rest.insert(n));
    assert(rest.insert(n).subset_of(m) <==> rest.subset_of(m.remove(n))) by {
        if rest.insert(n).subset_of(m) {
            assert forall|y: u32| rest.count(y) <= #[trigger] m.remove(n).count(y) by {
                assert(rest.insert(n).count(y) <= m.count(y));
            }
        }
        if rest.subset_of(m.remove(n)) {
            assert forall|y: u32| rest.insert(n).count(y) <= #[trigger] m.count(y) by {
                assert(rest.count(y) <= m.remove(n).count(y));
            }
        }
    }
}

/// Unfolds `completes` at a leading operation.
proof fn lemma_op_step(
    numbers: Seq<u32>,
    target: u32,
    dumb: bool,
    stack: Seq<u32>,
    s: Seq<Token>,
)
    requires
        s.len() > 0,
        s[0] is Op,
    ensures
        completes(numbers, target, dumb, stack, s) <==> match apply(dumb, stack, s[0]) {
            Some(next) => completes(numbers, target, dumb, next, s.drop_first()),
            None => false,
        },
{
    assert(numbers_used(s) == numbers_used(s.drop_first()));
}

/// A sequence that uses a number which is not at hand does not complete.
proof fn lemma_number_not_at_hand(
    numbers: Seq<u32>,
    target: u32,
    dumb: bool,
    stack: Seq<u32>,
    s: Seq<Token>,
)
    requires
        s.len() > 0,
        s[0] is Num,
        !numbers.contains(s[0]->Num_0),
    ensures
        !completes(numbers, target, dumb, stack, s),
{
    broadcast use vstd::seq_lib::group_to_multiset_ensures;

    let n = s[0]->Num_0;
    assert(numbers_used(s) == numbers_used(s.drop_first()).insert(n));
    assert(numbers_used(s).count(n) > 0);
    assert(numbers.to_multiset().count(n) == 0);
}

/// The token sequences held by a list of vectors.
pub open spec fn views(v: Seq<Vec<Token>>) -> Seq<Seq<Token>> {
    v.map_values(|t: Vec<Token>| t@)
}

/// Whether `x` extends `history` by a sequence that completes from `stack`.
pub open spec fn continues(
    numbers: Seq<u32>,
    target: u32,
    dumb: bool,
    stack: Seq<u32>,
    history: Seq<Token>,
    x: Seq<Token>,
) -> bool {
    &&& history.is_prefix_of(x)
    &&& completes(numbers, target, dumb, stack, x.skip(history.len() as int))
}

/// Whether `x` continues `history` and its first new token, if any, is a
/// number among the first `i` at hand or an operation among the first `k`
/// of the search order.
spec fn covered(
    numbers: Seq<u32>,
    target: u32,
    dumb: bool,
    stack: Seq<u32>,
    history: Seq<Token>,
    x: Seq<Token>,
    i: int,
    k: int,
) -> bool {
    let h = history.len() as int;
    &&& continues(numbers, target, dumb, stack, history, x)
    &&& {
        ||| x.len() == h
        ||| x[h] is Num && numbers.subrange(0, i).contains(x[h]->Num_0)
        ||| x[h] is Op && op_order().subrange(0, k).contains(x[h]->Op_0)
    }
}

/// Whether two token sequences are equal.
fn same_tokens(a: &Vec<Token>, b: &Vec<Token>) -> (r: bool)
    ensures
        r == (a@ == b@),
{
    if a.len() != b.len() {
        return false;
    }
    let mut j: usize = 0;
    while j < a.len()
        invariant
            a.len() == b.len(),
            j <= a.len(),
            forall|m: int| 0 <= m < j ==> a@[m] == b@[m],
        decreases a.len() - j,
    {
        if a[j] != b[j] {
            return false;
        }
        j += 1;
    }
    assert(a@ =~= b@);
    true
}

/// Adds `x` to `found` unless it is already there.
fn insert_new(found: &mut Vec<Vec<Token>>, x: Vec<Token>)
    ensures
        views(final(found)@) == if views(old(found)@).contains(x@) {
            views(old(found)@)
        } else {
            views(old(found)@).push(x@)
        },
{
    let mut j: usize = 0;
    while j < found.len()
        invariant
            j <= found.len(),
            forall|m: int| 0 <= m < j ==> found@[m]@ != x@,
        decreases found.len() - j,
    {
        if same_tokens(&found[j], &x) {
            assert(views(found@)[j as int] == x@);
            return;
        }
        j += 1;
    }
    let ghost before = found@;
    found.push(x);
    assert(!views(before).contains(x@)) by {
        if views(before).contains(x@) {
            let m = choose|m: int| 0 <= m < views(before).len() && views(before)[m] == x@;
            assert(before[m]@ == x@);
        }
    }
    assert(views(found@) =~= views(before).push(x@));
}

proof fn lemma_push_contains<A>(v: Seq<A>, e: A)
    ensures
        forall|x: A| #[trigger] v.push(e).contains(x) <==> v.contains(x) || x == e,
{
    assert forall|x: A| #[trigger] v.push(e).contains(x) <==> v.contains(x) || x == e by {
        if v.contains(x) {
            let m = choose|m: int| 0 <= m < v.len() && v[m] == x;
            assert(v.push(e)[m] == x);
        }
        if x == e {
            assert(v.push(e)[v.len() as int] == x);
        }
        if v.push(e).contains(x) {
            let m = choose|m: int| 0 <= m < v.len() + 1 && v.push(e)[m] == x;
            if m < v.len() {
                assert(v[m] == x);
            }
        }
    }
}

/// Adds to `found` every continuation of `history` that completes from
/// `stack` with `numbers` at hand.
fn calc_postfix_sequences_all_recurse(
    numbers: &Vec<u32>,
    target: u32,
    dumb: bool,
    stack: Vec<u32>,
    history: Vec<Token>,
    found: &mut Vec<Vec<Token>>,
)
    requires
        views(old(found)@).no_duplicates(),
    ensures
        views(final(found)@).no_duplicates(),
        forall|x: Seq<Token>| #[trigger]
            views(final(found)@).contains(x) <==> views(old(found)@).contains(x) || continues(
                numbers@,
                target,
                dumb,
                stack@,
                history@,
                x,
            ),
    decreases 2 * numbers@.len() + stack@.len(),
{
    let ghost f0 = views(found@);
    let ghost h = history@.len() as int;
    let reached = stack.len() == 1 && stack[0] == target;
    assert(reached <==> stack@ =~= seq![target]);
    if reached {
        let ghost before = views(found@);
        insert_new(found, copy_tokens(&history));
        proof {
            lemma_push_contains(before, history@);
        }
    }
    proof {
        assert forall|x: Seq<Token>| #[trigger]
            views(found@).contains(x) <==> f0.contains(x) || covered(
                numbers@,
                target,
                dumb,
                stack@,
                history@,
                x,
                0,
                0,
            ) by {
            if x.len() == h && history@.is_prefix_of(x) {
                assert(x =~= history@);
                assert(x.skip(h) =~= Seq::<Token>::empty());
                assert(numbers_used(x.skip(h)) =~= Multiset::empty());
                assert(run(dumb, stack@, x.skip(h)) == Some(stack@));
            }
            if x == history@ {
                assert(history@.is_prefix_of(x));
                assert(x.skip(h) =~= Seq::<Token>::empty());
            }
            assert(numbers@.subrange(0, 0) =~= Seq::<u32>::empty());
            assert(op_order().subrange(0, 0) =~= Seq::<Op>::empty());
        }
    }
    let mut i: usize = 0;
    while i < numbers.len()
        invariant
            i <= numbers.len(),
            h == history@.len(),
            views(found@).no_duplicates(),
            forall|x: Seq<Token>| #[trigger]
                views(found@).contains(x) <==> f0.contains(x) || covered(
                    numbers@,
                    target,
                    dumb,
                    stack@,
                    history@,
                    x,
                    i as int,
                    0,
                ),
        decreases numbers.len() - i,
    {
        let n = numbers[i];
        let next = if dumb {
            try_apply_legal(stack.clone(), Token::Num(n))
        } else {
            try_apply_sensible(stack.clone(), Token::Num(n))
        };
        let ghost before = views(found@);
        match next {
            Some(sub_stack) => {
                let mut sub_numbers = numbers.clone();
                sub_numbers.remove(i);
                let mut sub_history = copy_tokens(&history);
                sub_history.push(Token::Num(n));
                calc_postfix_sequences_all_recurse(&sub_numbers, target, dumb, sub_stack, sub_history, found);
            },
            None => {},
        }
        proof {
            assert forall|x: Seq<Token>| #[trigger]
                views(found@).contains(x) <==> f0.contains(x) || covered(
                    numbers@,
                    target,
                    dumb,
                    stack@,
                    history@,
                    x,
                    i + 1,
                    0,
                ) by {
                assert(numbers@.subrange(0, i + 1) =~= numbers@.subrange(0, i as int).push(n));
                lemma_push_contains(numbers@.subrange(0, i as int), n);
                if history@.is_prefix_of(x) && x.len() > h && x[h] == Token::Num(n) {
                    let s = x.skip(h);
                    lemma_number_step(numbers@, target, dumb, stack@, i as int, s);
                    assert(s.drop_first() =~= x.skip(h + 1));
                    assert(history@.push(Token::Num(n)).is_prefix_of(x)) by {
                        assert(x.subrange(0, h + 1) =~= history@.push(Token::Num(n)));
                    }
                }
                if history@.push(Token::Num(n)).is_prefix_of(x) {
                    assert(history@.is_prefix_of(x)) by {
                        assert(x.subrange(0, h) =~= history@.push(Token::Num(n)).subrange(0, h));
                    }
                    assert(x[h] == Token::Num(n)) by {
                        assert(x.subrange(0, h + 1)[h] == x[h]);
                    }
                }
            }
        }
        i += 1;
    }
    let ops = search_ops();
    let mut k: usize = 0;
    while k < 4
        invariant
            k <= 4,
            ops@ == op_order(),
            i == numbers.len(),
            h == history@.len(),
            views(found@).no_duplicates(),
            forall|x: Seq<Token>| #[trigger]
                views(found@).contains(x) <==> f0.contains(x) || covered(
                    numbers@,
                    target,
                    dumb,
                    stack@,
                    history@,
                    x,
                    i as int,
                    k as int,
                ),
        decreases 4 - k,
    {
        let op = ops[k];
        let next = if dumb {
            try_apply_legal(stack.clone(), Token::Op(op))
        } else {
            try_apply_sensible(stack.clone(), Token::Op(op))
        };
        match next {
            Some(sub_stack) => {
                let mut sub_history = copy_tokens(&history);
                sub_history.push(Token::Op(op));
                calc_postfix_sequences_all_recurse(numbers, target, dumb, sub_stack, sub_history, found);
            },
            None => {},
        }
        proof {
            assert forall|x: Seq<Token>| #[trigger]
                views(found@).contains(x) <==> f0.contains(x) || covered(
                    numbers@,
                    target,
                    dumb,
                    stack@,
                    history@,
                    x,
                    i as int,
                    k + 1,
                ) by {
                assert(op_order().subrange(0, k + 1) =~= op_order().subrange(0, k as int).push(op));
                lemma_push_contains(op_order().subrange(0, k as int), op);
                if history@.is_prefix_of(x) && x.len() > h && x[h] == Token::Op(op) {
                    let s = x.skip(h);
                    lemma_op_step(numbers@, target, dumb, stack@, s);
                    assert(s.drop_first() =~= x.skip(h + 1));
                    assert(history@.push(Token::Op(op)).is_prefix_of(x)) by {
                        assert(x.subrange(0, h + 1) =~= history@.push(Token::Op(op)));
                    }
                }
                if history@.push(Token::Op(op)).is_prefix_of(x) {
                    assert(history@.is_prefix_of(x)) by {
                        assert(x.subrange(0, h) =~= history@.push(Token::Op(op)).subrange(0, h));
                    }
                    assert(x[h] == Token::Op(op)) by {
                        assert(x.subrange(0, h + 1)[h] == x[h]);
                    }
                }
            }
        }
        k += 1;
    }
    proof {
        assert forall|x: Seq<Token>| #[trigger]
            views(found@).contains(x) <==> f0.contains(x) || continues(
                numbers@,
                target,
                dumb,
                stack@,
                history@,
                x,
            ) by {
            assert(numbers@.subrange(0, i as int) =~= numbers@);
            assert(op_order().subrange(0, 4) =~= op_order());
            if continues(numbers@, target, dumb, stack@, history@, x) && x.len() > h {
                let s = x.skip(h);
                assert(s[0] == x[h]);
                if x[h] is Num && !numbers@.contains(x[h]->Num_0) {
                    lemma_number_not_at_hand(numbers@, target, dumb, stack@, s);
                }
                if x[h] is Op {
                    let o = x[h]->Op_0;
                    assert(op_order()[0] == Op::Mul && op_order()[1] == Op::Div);
                    assert(op_order()[2] == Op::Add && op_order()[3] == Op::Sub);
                    assert(op_order().contains(o));
                }
            }
        }
    }
}

/// Finds every solution: every postfix sequence that reaches `target` from
/// the empty stack under the chosen policy (`dumb` for the legal one, else
/// the sensible one), using each of `numbers` at most once. Each solution
/// appears once.
pub fn calc_postfix_sequences_all(numbers: &[u32], target: u32, dumb: bool) -> (r: Vec<
    PostfixSequence,
>)
    ensures
        views(r@).no_duplicates(),
        forall|x: Seq<Token>| #[trigger]
            views(r@).contains(x) <==> is_solution(numbers@, target, dumb, x),
        views(r@).to_set() == solutions(numbers@, target, dumb),
{
    let nums = vstd::slice::slice_to_vec(numbers);
    let mut found: Vec<PostfixSequence> = Vec::new();
    assert(views(found@) =~= Seq::<Seq<Token>>::empty());
    calc_postfix_sequences_all_recurse(&nums, target, dumb, Vec::new(), Vec::new(), &mut found);
    proof {
        assert forall|x: Seq<Token>| #[trigger]
            views(found@).contains(x) <==> is_solution(numbers@, target, dumb, x) by {
            assert(Seq::<Token>::empty().is_prefix_of(x));
            assert(x.skip(0) =~= x);
        }
        assert(views(found@).to_set() =~= solutions(numbers@, target, dumb));
    }
    found
}

/// The first completion that the depth-first search meets from `stack`:
/// none is needed where the target is already reached; else the first found
/// by taking a number at hand, in their original positional order (a taken
/// number is removed and the others keep their order), and else the first
/// found by an operation, in the search order.
pub open spec fn first_completion(
    numbers: Seq<u32>,
    target: u32,
    dumb: bool,
    stack: Seq<u32>,
) -> Option<Seq<Token>>
    decreases 2 * numbers.len() + stack.len(), 2nat, 0int,
{
    if stack == seq![target] {
        Some(Seq::empty())
    } else {
        match first_by_number(numbers, target, dumb, stack, 0) {
            Some(s) => Some(s),
            None => first_by_op(numbers, target, dumb, stack, 0),
        }
    }
}

/// The first completion that starts with one of the numbers held from
/// position `i` on.
pub open spec fn first_by_number(
    numbers: Seq<u32>,
    target: u32,
    dumb: bool,
    stack: Seq<u32>,
    i: int,
) -> Option<Seq<Token>>
    decreases 2 * numbers.len() + stack.len(), 1nat, numbers.len() - i,
{
    if i < 0 || i >= numbers.len() {
        None
    } else {
        let n = numbers[i];
        match apply(dumb, stack, Token::Num(n)) {
            Some(next) => match first_completion(numbers.remove(i), target, dumb, next) {
                Some(s) => Some(seq![Token::Num(n)] + s),
                None => first_by_number(numbers, target, dumb, stack, i + 1),
            },
            None => first_by_number(numbers, target, dumb, stack, i + 1),
        }
    }
}

/// The first completion that starts with one of the operations from
/// position `k` of the search order on.
pub open spec fn first_by_op(
    numbers: Seq<u32>,
    target: u32,
    dumb: bool,
    stack: Seq<u32>,
    k: int,
) -> Option<Seq<Token>>
    decreases 2 * numbers.len() + stack.len(), 0nat, 4 - k,
{
    if k < 0 || k >= 4 {
        None
    } else {
        let op = op_order()[k];
        match apply(dumb, stack, Token::Op(op)) {
            Some(next) => match first_completion(numbers, target, dumb, next) {
                Some(s) => Some(seq![Token::Op(op)] + s),
                None => first_by_op(numbers, target, dumb, stack, k + 1),
            },
            None => first_by_op(numbers, target, dumb, stack, k + 1),
        }
    }
}

/// The solution that the depth-first search meets first, if any.
pub open spec fn first_solution(numbers: Seq<u32>, target: u32, dumb: bool) -> Option<Seq<Token>> {
    first_completion(numbers, target, dumb, Seq::empty())
}

/// Whether no completion starts with the number held at position `j`.
spec fn number_blocked(numbers: Seq<u32>, target: u32, dumb: bool, stack: Seq<u32>, j: int) -> bool {
    forall|s: Seq<Token>|
        s.len() > 0 && s[0] == Token::Num(numbers[j]) ==> !#[trigger] completes(
            numbers,
            target,
            dumb,
            stack,
            s,
        )
}

/// Whether no completion starts with the operation at position `j` of the
/// search order.
spec fn op_blocked(numbers: Seq<u32>, target: u32, dumb: bool, stack: Seq<u32>, j: int) -> bool {
    forall|s: Seq<Token>|
        s.len() > 0 && s[0] == Token::Op(op_order()[j]) ==> !#[trigger] completes(
            numbers,
            target,
            dumb,
            stack,
            s,
        )
}

proof fn lemma_first_completion(numbers: Seq<u32>, target: u32, dumb: bool, stack: Seq<u32>)
    ensures
        match first_completion(numbers, target, dumb, stack) {
            Some(s) => completes(numbers, target, dumb, stack, s),
            None => forall|s: Seq<Token>| !#[trigger] completes(numbers, target, dumb, stack, s),
        },
    decreases 2 * numbers.len() + stack.len(), 2nat, 0int,
{
    lemma_first_by_number(numbers, target, dumb, stack, 0);
    lemma_first_by_op(numbers, target, dumb, stack, 0);
    if stack == seq![target] {
        assert(numbers_used(Seq::<Token>::empty()) =~= Multiset::empty());
    } else if first_completion(numbers, target, dumb, stack) is None {
        assert forall|s: Seq<Token>| !#[trigger] completes(numbers, target, dumb, stack, s) by {
            if s.len() > 0 {
                match s[0] {
                    Token::Num(n) => {
                        if numbers.contains(n) {
                            let j = choose|j: int| 0 <= j < numbers.len() && numbers[j] == n;
                            assert(number_blocked(numbers, target, dumb, stack, j));
                        } else {
                            lemma_number_not_at_hand(numbers, target, dumb, stack, s);
                        }
                    },
                    Token::Op(o) => {
                        let j: int = match o {
                            Op::Mul => 0,
                            Op::Div => 1,
                            Op::Add => 2,
                            Op::Sub => 3,
                        };
                        assert(op_order()[j] == o);
                        assert(op_blocked(numbers, target, dumb, stack, j));
                    },
                }
            }
        }
    }
}

proof fn lemma_first_by_number(
    numbers: Seq<u32>,
    target: u32,
    dumb: bool,
    stack: Seq<u32>,
    i: int,
)
    requires
        0 <= i,
    ensures
        match first_by_number(numbers, target, dumb, stack, i) {
            Some(s) => completes(numbers, target, dumb, stack, s),
            None => forall|j: int|
                i <= j < numbers.len() ==> #[trigger] number_blocked(
                    numbers,
                    target,
                    dumb,
                    stack,
                    j,
                ),
        },
    decreases 2 * numbers.len() + stack.len(), 1nat, numbers.len() - i,
{
    if i < numbers.len() {
        let n = numbers[i];
        lemma_first_by_number(numbers, target, dumb, stack, i + 1);
        match apply(dumb, stack, Token::Num(n)) {
            Some(next) => {
                lemma_first_completion(numbers.remove(i), target, dumb, next);
                match first_completion(numbers.remove(i), target, dumb, next) {
                    Some(s) => {
                        let full = seq![Token::Num(n)] + s;
                        assert(full.drop_first() =~= s);
                        lemma_number_step(numbers, target, dumb, stack, i, full);
                    },
                    None => {
                        assert forall|t: Seq<Token>|
                            t.len() > 0 && t[0] == Token::Num(numbers[i]) implies !#[trigger] completes(
                            numbers,
                            target,
                            dumb,
                            stack,
                            t,
                        ) by {
                            lemma_number_step(numbers, target, dumb, stack, i, t);
                        }
                        assert(number_blocked(numbers, target, dumb, stack, i));
                    },
                }
            },
            None => {
                assert forall|t: Seq<Token>|
                    t.len() > 0 && t[0] == Token::Num(numbers[i]) implies !#[trigger] completes(
                    numbers,
                    target,
                    dumb,
                    stack,
                    t,
                ) by {
                    lemma_number_step(numbers, target, dumb, stack, i, t);
                }
                assert(number_blocked(numbers, target, dumb, stack, i));
            },
        }
    }
}

proof fn lemma_first_by_op(numbers: Seq<u32>, target: u32, dumb: bool, stack: Seq<u32>, k: int)
    requires
        0 <= k,
    ensures
        match first_by_op(numbers, target, dumb, stack, k) {
            Some(s) => completes(numbers, target, dumb, stack, s),
            None => forall|j: int|
                k <= j < 4 ==> #[trigger] op_blocked(numbers, target, dumb, stack, j),
        },
    decreases 2 * numbers.len() + stack.len(), 0nat, 4 - k,
{
    if k < 4 {
        let op = op_order()[k];
        lemma_first_by_op(numbers, target, dumb, stack, k + 1);
        match apply(dumb, stack, Token::Op(op)) {
            Some(next) => {
                lemma_first_completion(numbers, target, dumb, next);
                match first_completion(numbers, target, dumb, next) {
                    Some(s) => {
                        let full = seq![Token::Op(op)] + s;
                        assert(full.drop_first() =~= s);
                        lemma_op_step(numbers, target, dumb, stack, full);
                    },
                    None => {
                        assert forall|t: Seq<Token>|
                            t.len() > 0 && t[0] == Token::Op(op) implies !#[trigger] completes(
                            numbers,
                            target,
                            dumb,
                            stack,
                            t,
                        ) by {
                            lemma_op_step(numbers, target, dumb, stack, t);
                        }
                        assert(op_blocked(numbers, target, dumb, stack, k));
                    },
                }
            },
            None => {
                assert forall|t: Seq<Token>|
                    t.len() > 0 && t[0] == Token::Op(op) implies !#[trigger] completes(
                    numbers,
                    target,
                    dumb,
                    stack,
                    t,
                ) by {
                    lemma_op_step(numbers, target, dumb, stack, t);
                }
                assert(op_blocked(numbers, target, dumb, stack, k));
            },
        }
    }
}

/// The first solution of the depth-first search is one of all solutions,
/// and the search finds none exactly when there is none.
pub proof fn lemma_first_among_all(numbers: Seq<u32>, target: u32, dumb: bool)
    ensures
        match first_solution(numbers, target, dumb) {
            Some(s) => solutions(numbers, target, dumb).contains(s),
            None => solutions(numbers, target, dumb) == Set::<Seq<Token>>::empty(),
        },
{
    lemma_first_completion(numbers, target, dumb, Seq::empty());
    if first_solution(numbers, target, dumb) is None {
        assert(solutions(numbers, target, dumb) =~= Set::<Seq<Token>>::empty());
    }
}

/// The view of an optional token sequence.
pub open spec fn tokens_view(r: Option<Vec<Token>>) -> Option<Seq<Token>> {
    match r {
        Some(v) => Some(v@),
        None => None,
    }
}

/// `history` followed by a completion, if there is one.
pub open spec fn after(history: Seq<Token>, c: Option<Seq<Token>>) -> Option<Seq<Token>> {
    match c {
        Some(s) => Some(history + s),
        None => None,
    }
}

/// Searches depth first for a continuation of `history` that completes from
/// `stack` with `numbers` at hand, and returns the first one it meets.
fn calc_postfix_sequences_first_recurse(
    numbers: &Vec<u32>,
    target: u32,
    dumb: bool,
    stack: Vec<u32>,
    history: Vec<Token>,
) -> (r: Option<PostfixSequence>)
    ensures
        tokens_view(r) == after(history@, first_completion(numbers@, target, dumb, stack@)),
    decreases 2 * numbers@.len() + stack@.len(),
{
    if stack.len() == 1 && stack[0] == target {
        assert(stack@ =~= seq![target]);
        assert(history@ + Seq::<Token>::empty() =~= history@);
        return Some(history);
    }
    assert(stack@ != seq![target]) by {
        if stack@ == seq![target] {
            assert(stack@.len() == 1 && stack@[0] == target);
        }
    }
    let mut i: usize = 0;
    while i < numbers.len()
        invariant
            i <= numbers.len(),
            stack@ != seq![target],
            first_by_number(numbers@, target, dumb, stack@, i as int) == first_by_number(
                numbers@,
                target,
                dumb,
                stack@,
                0,
            ),
        decreases numbers.len() - i,
    {
        let n = numbers[i];
        let next = if dumb {
            try_apply_legal(stack.clone(), Token::Num(n))
        } else {
            try_apply_sensible(stack.clone(), Token::Num(n))
        };
        match next {
            Some(sub_stack) => {
                let mut sub_numbers = numbers.clone();
                sub_numbers.remove(i);
                let mut sub_history = copy_tokens(&history);
                sub_history.push(Token::Num(n));
                let found = calc_postfix_sequences_first_recurse(
                    &sub_numbers,
                    target,
                    dumb,
                    sub_stack,
                    sub_history,
                );
                if found.is_some() {
                    proof {
                        let s = first_completion(numbers@.remove(i as int), target, dumb, sub_stack@)->Some_0;
                        assert(history@.push(Token::Num(n)) + s =~= history@ + (seq![Token::Num(n)] + s));
                    }
                    return found;
                }
            },
            None => {},
        }
        i += 1;
    }
    let ops = search_ops();
    let mut k: usize = 0;
    while k < 4
        invariant
            k <= 4,
            ops@ == op_order(),
            stack@ != seq![target],
            first_by_number(numbers@, target, dumb, stack@, 0) is None,
            first_by_op(numbers@, target, dumb, stack@, k as int) == first_by_op(
                numbers@,
                target,
                dumb,
                stack@,
                0,
            ),
        decreases 4 - k,
    {
        let op = ops[k];
        let next = if dumb {
            try_apply_legal(stack.clone(), Token::Op(op))
        } else {
            try_apply_sensible(stack.clone(), Token::Op(op))
        };
        match next {
            Some(sub_stack) => {
                let mut sub_history = copy_tokens(&history);
                sub_history.push(Token::Op(op));
                let found = calc_postfix_sequences_first_recurse(
                    numbers,
                    target,
                    dumb,
                    sub_stack,
                    sub_history,
                );
                if found.is_some() {
                    proof {
                        let s = first_completion(numbers@, target, dumb, sub_stack@)->Some_0;
                        assert(history@.push(Token::Op(op)) + s =~= history@ + (seq![Token::Op(op)] + s));
                    }
                    return found;
                }
            },
            None => {},
        }
        k += 1;
    }
    None
}

/// Finds the first solution that a depth-first search meets: numbers are
/// tried before operations, unused numbers in their original positional
/// order and operations in the search order. Returns `None` exactly when there is no
/// solution.
pub fn calc_postfix_sequences_first(numbers: &[u32], target: u32, dumb: bool) -> (r: Option<
    PostfixSequence,
>)
    ensures
        tokens_view(r) == first_solution(numbers@, target, dumb),
        r matches Some(v) ==> is_solution(numbers@, target, dumb, v@),
        r is None <==> solutions(numbers@, target, dumb) == Set::<Seq<Token>>::empty(),
{
    let nums = vstd::slice::slice_to_vec(numbers);
    let r = calc_postfix_sequences_first_recurse(&nums, target, dumb, Vec::new(), Vec::new());
    proof {
        lemma_first_among_all(numbers@, target, dumb);
        if let Some(s) = first_solution(numbers@, target, dumb) {
            assert(Seq::<Token>::empty() + s =~= s);
        }
    }
    r
}

/// One step of postfix evaluation in ordinary integer arithmetic, with no
/// policy; `None` on a missing operand or a division by zero.
pub open spec fn eval_step(stack: Seq<int>, t: Token) -> Option<Seq<int>> {
    match t {
        Token::Num(n) => Some(stack.push(n as int)),
        Token::Op(op) => if stack.len() < 2 || (op == Op::Div && stack.last() == 0) {
            None
        } else {
            Some(
                stack.subrange(0, stack.len() - 2).push(
                    combine(op, stack[stack.len() - 2], stack[stack.len() - 1]),
                ),
            )
        },
    }
}

/// The stack after evaluating `s` from `stack` in ordinary integer
/// arithmetic.
pub open spec fn evaluate_from(stack: Seq<int>, s: Seq<Token>) -> Option<Seq<int>>
    decreases s.len(),
{
    if s.len() == 0 {
        Some(stack)
    } else {
        match eval_step(stack, s[0]) {
            Some(next) => evaluate_from(next, s.drop_first()),
            None => None,
        }
    }
}

/// The stack after evaluating a postfix sequence from the empty stack.
pub open spec fn evaluate(s: Seq<Token>) -> Option<Seq<int>> {
    evaluate_from(Seq::empty(), s)
}

/// A stack of `u32` values as integers.
pub open spec fn as_ints(stack: Seq<u32>) -> Seq<int> {
    stack.map_values(|v: u32| v as int)
}

proof fn lemma_run_evaluates(dumb: bool, stack: Seq<u32>, s: Seq<Token>)
    ensures
        run(dumb, stack, s) matches Some(r) ==> evaluate_from(as_ints(stack), s) == Some(as_ints(r)),
    decreases s.len(),
{
    if s.len() > 0 {
        if let Some(next) = apply(dumb, stack, s[0]) {
            lemma_run_evaluates(dumb, next, s.drop_first());
            match s[0] {
                Token::Num(n) => {
                    assert(as_ints(next) =~= as_ints(stack).push(n as int));
                },
                Token::Op(op) => {
                    let len = stack.len();
                    let a = stack[len - 2];
                    let b = stack[len - 1];
                    let v = combine(op, a as int, b as int);
                    assert(v >= 0) by {
                        if op == Op::Mul {
                            assert((a as int) * (b as int) >= 0) by (nonlinear_arith)
                                requires
                                    a >= 0,
                                    b >= 0,
                            ;
                        }
                        if op == Op::Div {
                            assert(b > 0);
                            assert((a as int) / (b as int) >= 0) by (nonlinear_arith)
                                requires
                                    a >= 0,
                                    b > 0,
                            ;
                        }
                    }
                    assert(as_ints(next) =~= as_ints(stack).subrange(0, len - 2).push(v));
                },
            }
        }
    }
}

/// Every solution, evaluated in ordinary integer arithmetic, leaves exactly
/// the target.
pub proof fn lemma_solution_evaluates(numbers: Seq<u32>, target: u32, dumb: bool, s: Seq<Token>)
    requires
        is_solution(numbers, target, dumb, s),
    ensures
        evaluate(s) == Some(seq![target as int]),
{
    lemma_run_evaluates(dumb, Seq::empty(), s);
    assert(as_ints(Seq::empty()) =~= Seq::<int>::empty());
    assert(as_ints(seq![target]) =~= seq![target as int]);
}

/// Every solution uses each given number at most as often as it is given,
/// and no other number.
pub proof fn lemma_solution_uses_given_numbers(
    numbers: Seq<u32>,
    target: u32,
    dumb: bool,
    s: Seq<Token>,
)
    requires
        is_solution(numbers, target, dumb, s),
    ensures
        numbers_used(s).subset_of(numbers.to_multiset()),
{
}

/// Any two results of the search for all solutions on the same input hold
/// the same set of sequences.
pub proof fn lemma_find_all_deterministic(
    numbers: Seq<u32>,
    target: u32,
    dumb: bool,
    a: Seq<Seq<Token>>,
    b: Seq<Seq<Token>>,
)
    requires
        forall|x: Seq<Token>| #[trigger] a.contains(x) <==> is_solution(numbers, target, dumb, x),
        forall|x: Seq<Token>| #[trigger] b.contains(x) <==> is_solution(numbers, target, dumb, x),
    ensures
        a.to_set() == b.to_set(),
{
    assert(a.to_set() =~= b.to_set());
}

proof fn lemma_run_builds(dumb: bool, stack: Seq<u32>, trees: Seq<ExpBTree>, s: Seq<Token>)
    requires
        trees.len() == stack.len(),
    ensures
        run(dumb, stack, s) matches Some(r) ==> build_from(trees, s) matches Some(ts) && ts.len()
            == r.len(),
    decreases s.len(),
{
    if s.len() > 0 {
        if let Some(next) = apply(dumb, stack, s[0]) {
            let nt = tree_step(trees, s[0])->Some_0;
            lemma_run_builds(dumb, next, nt, s.drop_first());
        }
    }
}

/// Every solution is a well-formed postfix sequence: it builds exactly one
/// expression tree.
pub proof fn lemma_solution_builds(numbers: Seq<u32>, target: u32, dumb: bool, s: Seq<Token>)
    requires
        is_solution(numbers, target, dumb, s),
    ensures
        build(s) is Some,
{
    lemma_run_builds(dumb, Seq::empty(), Seq::empty(), s);
}

} // verus!
