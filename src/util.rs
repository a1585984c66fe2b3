//! Tokens, operators, expression trees and their textual forms.

use itertools::Itertools;
use vstd::prelude::*;

verus! {

/// A single arithmetic operation.
#[derive(Debug, Clone, Copy, PartialEq, Eq, Hash, Structural)]
pub enum Op {
    Add,
    Sub,
    Mul,
    Div,
}

/// Precedence class of an operator: `+` and `-` bind looser than `*` and `/`.
pub open spec fn precedence(op: Op) -> nat {
    match op {
        Op::Add | Op::Sub => 0,
        Op::Mul | Op::Div => 1,
    }
}

/// The character that denotes an operator.
pub open spec fn symbol(op: Op) -> char {
    match op {
        Op::Add => '+',
        Op::Sub => '-',
        Op::Mul => '*',
        Op::Div => '/',
    }
}

/// The decimal digit for `d < 10`.
pub open spec fn digit_char(d: nat) -> char {
    if d == 0 {
        '0'
    } else if d == 1 {
        '1'
    } else if d == 2 {
        '2'
    } else if d == 3 {
        '3'
    } else if d == 4 {
        '4'
    } else if d == 5 {
        '5'
    } else if d == 6 {
        '6'
    } else if d == 7 {
        '7'
    } else if d == 8 {
        '8'
    } else {
        '9'
    }
}

/// The decimal notation of `n`, without leading zeros.
pub open spec fn decimal(n: nat) -> Seq<char>
    decreases n,
{
    if n < 10 {
        seq![digit_char(n)]
    } else {
        decimal(n / 10).push(digit_char(n % 10))
    }
}

impl Op {
    /// Compares two operators by precedence.
    pub fn cmp_precedence(&self, other: &Op) -> (r: std::cmp::Ordering)
        ensures
            precedence(*self) < precedence(*other) <==> r == std::cmp::Ordering::Less,
            precedence(*self) == precedence(*other) <==> r == std::cmp::Ordering::Equal,
            precedence(*self) > precedence(*other) <==> r == std::cmp::Ordering::Greater,
    {
        match (self, other) {
            (Op::Add | Op::Sub, Op::Add | Op::Sub) | (Op::Mul | Op::Div, Op::Mul | Op::Div) => {
                std::cmp::Ordering::Equal
            },
            (Op::Add | Op::Sub, Op::Mul | Op::Div) => std::cmp::Ordering::Less,
            (Op::Mul | Op::Div, Op::Add | Op::Sub) => std::cmp::Ordering::Greater,
        }
    }

    /// The operator's symbol as text.
    pub fn to_string(&self) -> (r: String)
        ensures
            r@ == seq![symbol(*self)],
    {
        match self {
            Op::Add => {
                proof {
                    reveal_strlit("+");
                }
                String::from_str("+")
            },
            Op::Sub => {
                proof {
                    reveal_strlit("-");
                }
                String::from_str("-")
            },
            Op::Mul => {
                proof {
                    reveal_strlit("*");
                }
                String::from_str("*")
            },
            Op::Div => {
                proof {
                    reveal_strlit("/");
                }
                String::from_str("/")
            },
        }
    }
}

/// An atomic unit of a postfix expression: a number or an operation.
#[derive(Debug, Clone, Copy, PartialEq, Eq, Hash, Structural)]
pub enum Token {
    Num(u32),
    Op(Op),
}

impl From<u32> for Token {
    fn from(n: u32) -> (r: Token)
        ensures
            r == Token::Num(n),
    {
        Token::Num(n)
    }
}

impl vstd::std_specs::convert::FromSpecImpl<u32> for Token {
    open spec fn obeys_from_spec() -> bool {
        true
    }

    open spec fn from_spec(n: u32) -> Token {
        Token::Num(n)
    }
}

impl From<Op> for Token {
    fn from(op: Op) -> (r: Token)
        ensures
            r == Token::Op(op),
    {
        Token::Op(op)
    }
}

impl vstd::std_specs::convert::FromSpecImpl<Op> for Token {
    open spec fn obeys_from_spec() -> bool {
        true
    }

    open spec fn from_spec(op: Op) -> Token {
        Token::Op(op)
    }
}

/// A sequence of tokens that denotes a postfix expression.
pub type PostfixSequence = Vec<Token>;

/// The text of one token.
pub open spec fn token_text(t: Token) -> Seq<char> {
    match t {
        Token::Num(n) => decimal(n as nat),
        Token::Op(op) => seq![symbol(op)],
    }
}

impl Token {
    /// The token as text: a number in decimal, an operation by its symbol.
    pub fn to_string(&self) -> (r: String)
        ensures
            r@ == token_text(*self),
    {
        match self {
            Token::Num(n) => {
                let mut out = String::new();
                append_decimal(&mut out, *n);
                proof {
                    assert(out@ =~= token_text(*self));
                }
                out
            },
            Token::Op(op) => op.to_string(),
        }
    }
}

/// The parts joined in order, with a comma between neighbours.
pub open spec fn join_commas(parts: Seq<Seq<char>>) -> Seq<char>
    decreases parts.len(),
{
    if parts.len() == 0 {
        Seq::empty()
    } else if parts.len() == 1 {
        parts[0]
    } else {
        join_commas(parts.drop_last()) + seq![','] + parts.last()
    }
}

/// The postfix text of a token sequence: its tokens separated by commas.
pub open spec fn postfix_text(s: Seq<Token>) -> Seq<char> {
    join_commas(s.map_values(|t: Token| token_text(t)))
}

/// Relies on itertools' `Itertools::join`: it writes the first item, then
/// for each further item the separator and the item.
#[verifier::external_body]
fn join_with_commas(parts: &Vec<String>) -> (r: String)
    ensures
        r@ == join_commas(parts@.map_values(|p: String| p@)),
{
    parts.iter().join(",")
}

/// Converts a postfix sequence to its text, tokens separated by commas.
pub fn to_postfix_string(seq: &PostfixSequence) -> (r: String)
    ensures
        r@ == postfix_text(seq@),
{
    let mut parts: Vec<String> = Vec::new();
    let mut j: usize = 0;
    while j < seq.len()
        invariant
            j <= seq.len(),
            parts@.len() == j,
            forall|m: int| 0 <= m < j ==> #[trigger] parts@[m]@ == token_text(seq@[m]),
        decreases seq.len() - j,
    {
        let text = seq[j].to_string();
        parts.push(text);
        j += 1;
    }
    assert(parts@.map_values(|p: String| p@) =~= seq@.map_values(|t: Token| token_text(t)));
    join_with_commas(&parts)
}

/// The error for a token sequence that does not denote one expression; it
/// carries the sequence's postfix text.
#[derive(Debug)]
pub struct InvalidPostfixSequenceError {
    seq_repr: String,
}

impl View for InvalidPostfixSequenceError {
    type V = Seq<char>;

    closed spec fn view(&self) -> Seq<char> {
        self.seq_repr@
    }
}

impl InvalidPostfixSequenceError {
    /// The postfix text of the rejected sequence.
    pub fn to_string(&self) -> (r: String)
        ensures
            r@ == self@,
    {
        self.seq_repr.clone()
    }
}

/// A binary expression tree.
#[derive(Debug, PartialEq, Eq)]
pub enum ExpBTree {
    Num(u32),
    Exp { lhs: Box<ExpBTree>, rhs: Box<ExpBTree>, op: Op },
}

impl Clone for ExpBTree {
    /// A copy of the tree, node for node.
    fn clone(&self) -> (r: ExpBTree)
        ensures
            r == *self,
        decreases self,
    {
        match self {
            ExpBTree::Num(n) => ExpBTree::Num(*n),
            ExpBTree::Exp { lhs, rhs, op } => {
                let l: &ExpBTree = lhs;
                let r: &ExpBTree = rhs;
                ExpBTree::Exp { lhs: Box::new(l.clone()), rhs: Box::new(r.clone()), op: *op }
            },
        }
    }
}

impl From<u32> for ExpBTree {
    fn from(n: u32) -> (r: ExpBTree)
        ensures
            r == ExpBTree::Num(n),
    {
        ExpBTree::Num(n)
    }
}

impl vstd::std_specs::convert::FromSpecImpl<u32> for ExpBTree {
    open spec fn obeys_from_spec() -> bool {
        true
    }

    open spec fn from_spec(n: u32) -> ExpBTree {
        ExpBTree::Num(n)
    }
}

/// The stack of trees after one token: a number becomes a leaf, an operation
/// joins the top two trees; `None` where fewer than two are there.
pub open spec fn tree_step(stack: Seq<ExpBTree>, t: Token) -> Option<Seq<ExpBTree>> {
    match t {
        Token::Num(n) => Some(stack.push(ExpBTree::Num(n))),
        Token::Op(op) => if stack.len() < 2 {
            None
        } else {
            Some(
                stack.subrange(0, stack.len() - 2).push(
                    ExpBTree::Exp {
                        lhs: Box::new(stack[stack.len() - 2]),
                        rhs: Box::new(stack[stack.len() - 1]),
                        op,
                    },
                ),
            )
        },
    }
}

/// The stack of trees after running `s` from `stack`.
pub open spec fn build_from(stack: Seq<ExpBTree>, s: Seq<Token>) -> Option<Seq<ExpBTree>>
    decreases s.len(),
{
    if s.len() == 0 {
        Some(stack)
    } else {
        match tree_step(stack, s[0]) {
            Some(next) => build_from(next, s.drop_first()),
            None => None,
        }
    }
}

/// The tree that a postfix sequence denotes, where it denotes exactly one.
pub open spec fn build(s: Seq<Token>) -> Option<ExpBTree> {
    match build_from(Seq::empty(), s) {
        Some(st) => if st.len() == 1 {
            Some(st[0])
        } else {
            None
        },
        None => None,
    }
}

/// The postfix token sequence of a tree.
pub open spec fn tokens_of(t: ExpBTree) -> Seq<Token>
    decreases t,
{
    match t {
        ExpBTree::Num(n) => seq![Token::Num(n)],
        ExpBTree::Exp { lhs, rhs, op } => tokens_of(*lhs) + tokens_of(*rhs) + seq![Token::Op(op)],
    }
}

/// Equality up to swapping the operands of `+` and `*`, at any depth.
pub open spec fn commutative_equal(a: ExpBTree, b: ExpBTree) -> bool
    decreases a,
{
    match (a, b) {
        (ExpBTree::Num(x), ExpBTree::Num(y)) => x == y,
        (
            ExpBTree::Exp { lhs: al, rhs: ar, op: aop },
            ExpBTree::Exp { lhs: bl, rhs: br, op: bop },
        ) => {
            &&& aop == bop
            &&& {
                ||| commutative_equal(*al, *bl) && commutative_equal(*ar, *br)
                ||| (aop == Op::Add || aop == Op::Mul) && commutative_equal(*al, *br)
                    && commutative_equal(*ar, *bl)
            }
        },
        _ => false,
    }
}

/// `t` in parentheses where `wrap` holds.
pub open spec fn parenthesized(t: Seq<char>, wrap: bool) -> Seq<char> {
    if wrap {
        seq!['('] + t + seq![')']
    } else {
        t
    }
}

/// Whether a left operand needs parentheses under `op`: its operation binds
/// looser.
pub open spec fn left_needs_parens(child: ExpBTree, op: Op) -> bool {
    match child {
        ExpBTree::Num(_) => false,
        ExpBTree::Exp { op: c, .. } => precedence(c) < precedence(op),
    }
}

/// Whether a right operand needs parentheses under `op`: its operation binds
/// looser, or as tight where `op` is `-` or `/`.
pub open spec fn right_needs_parens(child: ExpBTree, op: Op) -> bool {
    match child {
        ExpBTree::Num(_) => false,
        ExpBTree::Exp { op: c, .. } => precedence(c) < precedence(op) || (precedence(c)
            == precedence(op) && (op == Op::Sub || op == Op::Div)),
    }
}

/// The infix text of a tree.
pub open spec fn infix_text(t: ExpBTree) -> Seq<char>
    decreases t,
{
    match t {
        ExpBTree::Num(n) => decimal(n as nat),
        ExpBTree::Exp { lhs, rhs, op } => parenthesized(infix_text(*lhs), left_needs_parens(*lhs, op))
            + seq![symbol(op)] + parenthesized(infix_text(*rhs), right_needs_parens(*rhs, op)),
    }
}

/// The operation at the root of a tree, if it has one.
pub open spec fn root_op(t: ExpBTree) -> Option<Op> {
    match t {
        ExpBTree::Num(_) => None,
        ExpBTree::Exp { op, .. } => Some(op),
    }
}

/// Appends `t` to `out`, in parentheses where `wrap` holds.
fn append_wrapped(out: &mut String, t: &String, wrap: bool)
    ensures
        final(out)@ == old(out)@ + parenthesized(t@, wrap),
{
    proof {
        reveal_strlit("(");
        reveal_strlit(")");
    }
    if wrap {
        out.append("(");
        out.append(t.as_str());
        out.append(")");
    } else {
        out.append(t.as_str());
    }
    assert(final(out)@ =~= old(out)@ + parenthesized(t@, wrap));
}

impl ExpBTree {
    /// Builds the tree that a postfix sequence denotes. Fails, with the
    /// sequence's postfix text, where an operation finds fewer than two
    /// operands or more than one tree is left at the end.
    pub fn try_from(seq: PostfixSequence) -> (r: Result<ExpBTree, InvalidPostfixSequenceError>)
        ensures
            match r {
                Ok(t) => build(seq@) == Some(t),
                Err(e) => build(seq@) is None && e@ == postfix_text(seq@),
            },
    {
        let seq_repr = to_postfix_string(&seq);
        let mut stack: Vec<ExpBTree> = Vec::new();
        let mut j: usize = 0;
        assert(seq@.skip(0) =~= seq@);
        while j < seq.len()
            invariant
                j <= seq.len(),
                seq_repr@ == postfix_text(seq@),
                build_from(stack@, seq@.skip(j as int)) == build_from(Seq::empty(), seq@),
            decreases seq.len() - j,
        {
            assert(seq@.skip(j as int).drop_first() =~= seq@.skip(j + 1));
            assert(seq@.skip(j as int)[0] == seq@[j as int]);
            match seq[j] {
                Token::Num(n) => {
                    stack.push(ExpBTree::Num(n));
                },
                Token::Op(op) => {
                    if stack.len() < 2 {
                        return Err(InvalidPostfixSequenceError { seq_repr });
                    }
                    let ghost before = stack@;
                    let rhs = stack.pop().unwrap();
                    let lhs = stack.pop().unwrap();
                    assert(stack@ =~= before.subrange(0, before.len() - 2));
                    stack.push(ExpBTree::Exp { lhs: Box::new(lhs), rhs: Box::new(rhs), op });
                },
            }
            j += 1;
        }
        assert(seq@.skip(j as int) =~= Seq::<Token>::empty());
        if stack.len() == 1 {
            Ok(stack.pop().unwrap())
        } else {
            Err(InvalidPostfixSequenceError { seq_repr })
        }
    }

    /// The postfix token sequence of the tree.
    pub fn postfix_tokens(&self) -> (r: PostfixSequence)
        ensures
            r@ == tokens_of(*self),
        decreases self,
    {
        match self {
            ExpBTree::Num(n) => {
                let r = vec![Token::Num(*n)];
                assert(r@ =~= tokens_of(*self));
                r
            },
            ExpBTree::Exp { lhs, rhs, op } => {
                let mut l = lhs.postfix_tokens();
                let mut r = rhs.postfix_tokens();
                l.append(&mut r);
                l.push(Token::Op(*op));
                assert(l@ =~= tokens_of(*self));
                l
            },
        }
    }

    /// Whether two trees are equal up to swapping the operands of `+` and
    /// `*`, at any depth.
    pub fn commutative_eq(&self, other: &Self) -> (r: bool)
        ensures
            r == commutative_equal(*self, *other),
        decreases self,
    {
        match (self, other) {
            (ExpBTree::Num(s), ExpBTree::Num(o)) => *s == *o,
            (
                ExpBTree::Exp { lhs: s_lhs, rhs: s_rhs, op: s_op },
                ExpBTree::Exp { lhs: o_lhs, rhs: o_rhs, op: o_op },
            ) => {
                if *s_op != *o_op {
                    return false;
                }
                match s_op {
                    Op::Add | Op::Mul => {
                        (s_lhs.commutative_eq(o_lhs) && s_rhs.commutative_eq(o_rhs)) || (
                        s_lhs.commutative_eq(o_rhs) && s_rhs.commutative_eq(o_lhs))
                    },
                    Op::Sub | Op::Div => s_lhs.commutative_eq(o_lhs) && s_rhs.commutative_eq(
                        o_rhs,
                    ),
                }
            },
            _ => false,
        }
    }

    /// The postfix text of the tree, tokens separated by commas.
    pub fn to_postfix_string(&self) -> (r: String)
        ensures
            r@ == postfix_text(tokens_of(*self)),
    {
        let tokens = self.postfix_tokens();
        to_postfix_string(&tokens)
    }

    /// The infix text of the tree, with parentheses only where they are
    /// needed.
    pub fn to_infix_string(&self) -> (r: String)
        ensures
            r@ == infix_text(*self),
    {
        self.to_infix_string_impl().0
    }

    /// The infix text of the tree and the operation at its root.
    fn to_infix_string_impl(&self) -> (r: (String, Option<Op>))
        ensures
            r.0@ == infix_text(*self),
            r.1 == root_op(*self),
        decreases self,
    {
        match self {
            ExpBTree::Num(n) => {
                let mut out = String::new();
                append_decimal(&mut out, *n);
                assert(out@ =~= infix_text(*self));
                (out, None)
            },
            ExpBTree::Exp { lhs, rhs, op } => {
                let (lhs_repr, lhs_op) = lhs.to_infix_string_impl();
                let wrap_lhs = match lhs_op {
                    None => false,
                    Some(lhs_op) => match lhs_op.cmp_precedence(op) {
                        std::cmp::Ordering::Less => true,
                        std::cmp::Ordering::Equal | std::cmp::Ordering::Greater => false,
                    },
                };
                let (rhs_repr, rhs_op) = rhs.to_infix_string_impl();
                let wrap_rhs = match rhs_op {
                    None => false,
                    Some(rhs_op) => match rhs_op.cmp_precedence(op) {
                        std::cmp::Ordering::Less => true,
                        std::cmp::Ordering::Equal => *op == Op::Sub || *op == Op::Div,
                        std::cmp::Ordering::Greater => false,
                    },
                };
                let mut out = String::new();
                append_wrapped(&mut out, &lhs_repr, wrap_lhs);
                let symbol = op.to_string();
                out.append(symbol.as_str());
                append_wrapped(&mut out, &rhs_repr, wrap_rhs);
                assert(out@ =~= infix_text(*self));
                (out, Some(*op))
            },
        }
    }
}

/// A copy of a token sequence.
pub(crate) fn copy_tokens(v: &Vec<Token>) -> (r: Vec<Token>)
    ensures
        r@ == v@,
{
    let mut r: Vec<Token> = Vec::new();
    let mut j: usize = 0;
    while j < v.len()
        invariant
            j <= v.len(),
            r@ == v@.subrange(0, j as int),
        decreases v.len() - j,
    {
        r.push(v[j]);
        j += 1;
        assert(r@ =~= v@.subrange(0, j as int));
    }
    assert(r@ =~= v@);
    r
}

/// Commutative equality is reflexive.
pub proof fn lemma_commutative_eq_reflexive(t: ExpBTree)
    ensures
        commutative_equal(t, t),
    decreases t,
{
    if let ExpBTree::Exp { lhs, rhs, .. } = t {
        lemma_commutative_eq_reflexive(*lhs);
        lemma_commutative_eq_reflexive(*rhs);
    }
}

/// Commutative equality is symmetric.
pub proof fn lemma_commutative_eq_symmetric(a: ExpBTree, b: ExpBTree)
    ensures
        commutative_equal(a, b) == commutative_equal(b, a),
    decreases a,
{
    if let (ExpBTree::Exp { lhs: al, rhs: ar, .. }, ExpBTree::Exp { lhs: bl, rhs: br, .. }) = (a, b) {
        lemma_commutative_eq_symmetric(*al, *bl);
        lemma_commutative_eq_symmetric(*ar, *br);
        lemma_commutative_eq_symmetric(*al, *br);
        lemma_commutative_eq_symmetric(*ar, *bl);
    }
}

/// Commutative equality is transitive, so it is an equivalence on trees.
pub proof fn lemma_commutative_eq_transitive(a: ExpBTree, b: ExpBTree, c: ExpBTree)
    requires
        commutative_equal(a, b),
        commutative_equal(b, c),
    ensures
        commutative_equal(a, c),
    decreases a,
{
    if let (
        ExpBTree::Exp { lhs: al, rhs: ar, .. },
        ExpBTree::Exp { lhs: bl, rhs: br, .. },
        ExpBTree::Exp { lhs: cl, rhs: cr, .. },
    ) = (a, b, c) {
        let (al, ar, bl, br, cl, cr) = (*al, *ar, *bl, *br, *cl, *cr);
        if commutative_equal(al, bl) && commutative_equal(bl, cl) {
            lemma_commutative_eq_transitive(al, bl, cl);
        }
        if commutative_equal(al, bl) && commutative_equal(bl, cr) {
            lemma_commutative_eq_transitive(al, bl, cr);
        }
        if commutative_equal(al, br) && commutative_equal(br, cl) {
            lemma_commutative_eq_transitive(al, br, cl);
        }
        if commutative_equal(al, br) && commutative_equal(br, cr) {
            lemma_commutative_eq_transitive(al, br, cr);
        }
        if commutative_equal(ar, bl) && commutative_equal(bl, cl) {
            lemma_commutative_eq_transitive(ar, bl, cl);
        }
        if commutative_equal(ar, bl) && commutative_equal(bl, cr) {
            lemma_commutative_eq_transitive(ar, bl, cr);
        }
        if commutative_equal(ar, br) && commutative_equal(br, cl) {
            lemma_commutative_eq_transitive(ar, br, cl);
        }
        if commutative_equal(ar, br) && commutative_equal(br, cr) {
            lemma_commutative_eq_transitive(ar, br, cr);
        }
    }
}

/// The postfix tokens of a stack of trees, bottom first.
pub open spec fn flatten(stack: Seq<ExpBTree>) -> Seq<Token>
    decreases stack.len(),
{
    if stack.len() == 0 {
        Seq::empty()
    } else {
        flatten(stack.drop_last()) + tokens_of(stack.last())
    }
}

/// Running the postfix tokens of a tree pushes that tree.
proof fn lemma_build_tokens(t: ExpBTree, stack: Seq<ExpBTree>, rest: Seq<Token>)
    ensures
        build_from(stack, tokens_of(t) + rest) == build_from(stack.push(t), rest),
    decreases t,
{
    match t {
        ExpBTree::Num(n) => {
            assert((tokens_of(t) + rest).drop_first() =~= rest);
        },
        ExpBTree::Exp { lhs, rhs, op } => {
            let tail = seq![Token::Op(op)] + rest;
            assert(tokens_of(t) + rest =~= tokens_of(*lhs) + (tokens_of(*rhs) + tail));
            lemma_build_tokens(*lhs, stack, tokens_of(*rhs) + tail);
            lemma_build_tokens(*rhs, stack.push(*lhs), tail);
            let two = stack.push(*lhs).push(*rhs);
            assert(two.subrange(0, two.len() - 2) =~= stack);
            assert(tail.drop_first() =~= rest);
        },
    }
}

/// Whatever a run leaves on the stack of trees holds exactly the tokens run
/// so far.
proof fn lemma_build_flatten(stack: Seq<ExpBTree>, s: Seq<Token>)
    ensures
        build_from(stack, s) matches Some(st) ==> flatten(st) == flatten(stack) + s,
    decreases s.len(),
{
    if s.len() > 0 {
        if let Some(next) = tree_step(stack, s[0]) {
            lemma_build_flatten(next, s.drop_first());
            match s[0] {
                Token::Num(n) => {
                    assert(next.drop_last() =~= stack);
                    assert(flatten(stack) + seq![Token::Num(n)] + s.drop_first() =~= flatten(stack) + s);
                },
                Token::Op(op) => {
                    let l = stack[stack.len() - 2];
                    let r = stack[stack.len() - 1];
                    let base = stack.subrange(0, stack.len() - 2);
                    assert(next.drop_last() =~= base);
                    assert(stack.drop_last().drop_last() =~= base);
                    assert(stack.drop_last().last() == l);
                    assert(flatten(stack) == flatten(stack.drop_last()) + tokens_of(r));
                    assert(flatten(stack.drop_last()) == flatten(base) + tokens_of(l));
                    assert(flatten(stack) =~= flatten(base) + tokens_of(l) + tokens_of(r));
                    assert(flatten(next) =~= flatten(stack) + seq![Token::Op(op)]);
                    assert(flatten(stack) + seq![Token::Op(op)] + s.drop_first() =~= flatten(stack) + s);
                },
            }
        }
    }
}

/// Writing a tree built from a sequence back in postfix gives that sequence,
/// and building it again gives a tree commutative-equal to the first.
pub proof fn lemma_postfix_round_trip(s: Seq<Token>)
    requires
        build(s) is Some,
    ensures
        tokens_of(build(s)->Some_0) == s,
        build(tokens_of(build(s)->Some_0)) == build(s),
        commutative_equal(build(tokens_of(build(s)->Some_0))->Some_0, build(s)->Some_0),
{
    let t = build(s)->Some_0;
    lemma_build_flatten(Seq::empty(), s);
    let st = build_from(Seq::empty(), s)->Some_0;
    assert(st.drop_last() =~= Seq::<ExpBTree>::empty());
    assert(flatten(st) =~= tokens_of(t));
    assert(Seq::<Token>::empty() + s =~= s);
    lemma_build_tokens(t, Seq::empty(), Seq::empty());
    assert(tokens_of(t) + Seq::<Token>::empty() =~= tokens_of(t));
    assert(Seq::<ExpBTree>::empty().push(t) =~= seq![t]);
    lemma_commutative_eq_reflexive(t);
}

/// Whether `c` is a decimal digit.
pub open spec fn is_digit(c: char) -> bool {
    c == '0' || c == '1' || c == '2' || c == '3' || c == '4' || c == '5' || c == '6' || c == '7'
        || c == '8' || c == '9'
}

proof fn lemma_decimal_digits(n: nat)
    ensures
        decimal(n).len() >= 1,
        forall|i: int| 0 <= i < decimal(n).len() ==> is_digit(#[trigger] decimal(n)[i]),
    decreases n,
{
    if n >= 10 {
        lemma_decimal_digits(n / 10);
    }
}

proof fn lemma_decimal_injective(n: nat, m: nat)
    requires
        decimal(n) == decimal(m),
    ensures
        n == m,
    decreases n,
{
    if n >= 10 {
        lemma_decimal_digits(n / 10);
    }
    if m >= 10 {
        lemma_decimal_digits(m / 10);
    }
    if n < 10 && m < 10 {
        assert(decimal(n) == seq![digit_char(n)]);
        assert(decimal(m) == seq![digit_char(m)]);
        assert(seq![digit_char(n)][0] == digit_char(n));
        assert(seq![digit_char(m)][0] == digit_char(m));
        assert(decimal(n)[0] == decimal(m)[0]);
        lemma_digit_char_injective(n, m);
    }
    if n >= 10 && m >= 10 {
        assert(decimal(n).drop_last() =~= decimal(n / 10));
        assert(decimal(m).drop_last() =~= decimal(m / 10));
        assert(decimal(n).last() == digit_char(n % 10));
        assert(decimal(m).last() == digit_char(m % 10));
        lemma_decimal_injective(n / 10, m / 10);
        lemma_digit_char_injective(n % 10, m % 10);
        assert(n == 10 * (n / 10) + n % 10);
        assert(m == 10 * (m / 10) + m % 10);
    }
    if n < 10 && m >= 10 {
        assert(decimal(m).len() == decimal(m / 10).len() + 1);
        assert(decimal(n).len() == 1);
    }
    if m < 10 && n >= 10 {
        assert(decimal(n).len() == decimal(n / 10).len() + 1);
        assert(decimal(m).len() == 1);
    }
}

proof fn lemma_digit_char_injective(d: nat, e: nat)
    requires
        d < 10,
        e < 10,
        digit_char(d) == digit_char(e),
    ensures
        d == e,
{
}

/// Whether every part is non-empty and holds no comma.
spec fn comma_free(parts: Seq<Seq<char>>) -> bool {
    forall|i: int| 0 <= i < parts.len() ==> #[trigger] parts[i].len() >= 1 && !parts[i].contains(',')
}

proof fn lemma_token_text_shape(t: Token)
    ensures
        token_text(t).len() >= 1,
        !token_text(t).contains(','),
{
    if let Token::Num(n) = t {
        lemma_decimal_digits(n as nat);
    }
    if token_text(t).contains(',') {
        let i = choose|i: int| 0 <= i < token_text(t).len() && token_text(t)[i] == ',';
        assert(token_text(t)[i] == ',');
    }
}

proof fn lemma_token_text_injective(a: Token, b: Token)
    requires
        token_text(a) == token_text(b),
    ensures
        a == b,
{
    match (a, b) {
        (Token::Num(n), Token::Num(m)) => {
            lemma_decimal_injective(n as nat, m as nat);
        },
        (Token::Num(n), Token::Op(o)) => {
            lemma_decimal_digits(n as nat);
            assert(is_digit(token_text(a)[0]));
        },
        (Token::Op(o), Token::Num(m)) => {
            lemma_decimal_digits(m as nat);
            assert(is_digit(token_text(b)[0]));
        },
        (Token::Op(o), Token::Op(p)) => {
            assert(token_text(a) == seq![symbol(o)]);
            assert(token_text(b) == seq![symbol(p)]);
            assert(seq![symbol(o)][0] == symbol(o));
            assert(seq![symbol(p)][0] == symbol(p));
            assert(symbol(o) == symbol(p));
        },
    }
}

proof fn lemma_join_shape(parts: Seq<Seq<char>>)
    requires
        comma_free(parts),
    ensures
        parts.len() >= 1 ==> join_commas(parts).len() >= 1,
        parts.len() == 1 ==> !join_commas(parts).contains(','),
        parts.len() >= 2 ==> join_commas(parts).contains(','),
    decreases parts.len(),
{
    if parts.len() >= 2 {
        let front = join_commas(parts.drop_last());
        assert(join_commas(parts)[front.len() as int] == ',');
    }
}

proof fn lemma_join_injective(p: Seq<Seq<char>>, q: Seq<Seq<char>>)
    requires
        comma_free(p),
        comma_free(q),
        join_commas(p) == join_commas(q),
    ensures
        p == q,
    decreases p.len(),
{
    lemma_join_shape(p);
    lemma_join_shape(q);
    let j = join_commas(p);
    if p.len() == 0 || q.len() == 0 {
        assert(p.len() == 0 && q.len() == 0);
        assert(p =~= q);
    } else if p.len() == 1 || q.len() == 1 {
        assert(p.len() == 1 && q.len() == 1);
        assert(p =~= q);
    } else {
        let a = p.last();
        let b = q.last();
        let pf = join_commas(p.drop_last());
        let qf = join_commas(q.drop_last());
        assert(j == pf + seq![','] + a);
        assert(j == qf + seq![','] + b);
        if a.len() < b.len() {
            let k = pf.len() as int;
            assert(j[k] == ',');
            assert(j[k] == b[k - qf.len() - 1]);
            assert(b.contains(','));
        } else if b.len() < a.len() {
            let k = qf.len() as int;
            assert(j[k] == ',');
            assert(j[k] == a[k - pf.len() - 1]);
            assert(a.contains(','));
        } else {
            assert(a =~= j.subrange(pf.len() as int + 1, j.len() as int));
            assert(b =~= j.subrange(qf.len() as int + 1, j.len() as int));
            assert(pf =~= j.subrange(0, pf.len() as int));
            assert(qf =~= j.subrange(0, qf.len() as int));
            lemma_join_injective(p.drop_last(), q.drop_last());
            assert(p =~= p.drop_last().push(a));
            assert(q =~= q.drop_last().push(b));
        }
    }
}

/// Distinct token sequences have distinct postfix texts.
pub proof fn lemma_postfix_text_injective(s1: Seq<Token>, s2: Seq<Token>)
    requires
        postfix_text(s1) == postfix_text(s2),
    ensures
        s1 == s2,
{
    let p = s1.map_values(|t: Token| token_text(t));
    let q = s2.map_values(|t: Token| token_text(t));
    assert forall|i: int| 0 <= i < p.len() implies #[trigger] p[i].len() >= 1 && !p[i].contains(',') by {
        lemma_token_text_shape(s1[i]);
    }
    assert forall|i: int| 0 <= i < q.len() implies #[trigger] q[i].len() >= 1 && !q[i].contains(',') by {
        lemma_token_text_shape(s2[i]);
    }
    lemma_join_injective(p, q);
    assert forall|i: int| 0 <= i < s1.len() implies s1[i] == s2[i] by {
        assert(p[i] == q[i]);
        lemma_token_text_injective(s1[i], s2[i]);
    }
    assert(s1 =~= s2);
}

/// Reading back the postfix text of a tree built from a sequence: any token
/// sequence with that text builds a tree commutative-equal to the first.
pub proof fn lemma_postfix_text_round_trip(s: Seq<Token>, read: Seq<Token>)
    requires
        build(s) is Some,
        postfix_text(read) == postfix_text(tokens_of(build(s)->Some_0)),
    ensures
        build(read) is Some,
        commutative_equal(build(read)->Some_0, build(s)->Some_0),
{
    lemma_postfix_round_trip(s);
    lemma_postfix_text_injective(read, tokens_of(build(s)->Some_0));
}

/// The text of one decimal digit.
fn digit_str(d: u32) -> (r: &'static str)
    requires
        d < 10,
    ensures
        r@ == seq![digit_char(d as nat)],
{
    proof {
        reveal_strlit("0");
        reveal_strlit("1");
        reveal_strlit("2");
        reveal_strlit("3");
        reveal_strlit("4");
        reveal_strlit("5");
        reveal_strlit("6");
        reveal_strlit("7");
        reveal_strlit("8");
        reveal_strlit("9");
    }
    if d == 0 {
        "0"
    } else if d == 1 {
        "1"
    } else if d == 2 {
        "2"
    } else if d == 3 {
        "3"
    } else if d == 4 {
        "4"
    } else if d == 5 {
        "5"
    } else if d == 6 {
        "6"
    } else if d == 7 {
        "7"
    } else if d == 8 {
        "8"
    } else {
        "9"
    }
}

/// Appends the decimal notation of `n` to `out`.
fn append_decimal(out: &mut String, n: u32)
    ensures
        final(out)@ == old(out)@ + decimal(n as nat),
    decreases n,
{
    if n >= 10 {
        append_decimal(out, n / 10);
    }
    out.append(digit_str(n % 10));
    proof {
        assert(final(out)@ =~= old(out)@ + decimal(n as nat));
    }
}

} // verus!
