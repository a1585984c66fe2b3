//! Text forms of postfix sequences, and removal of trivially different
//! solutions.

use vstd::prelude::*;
use crate::util::{
    build, commutative_equal, copy_tokens, infix_text, lemma_commutative_eq_reflexive, postfix_text,
    to_postfix_string, ExpBTree, PostfixSequence,
};

verus! {

/// Converts a postfix sequence to its postfix text, tokens separated by
/// commas.
pub fn postfix_print(seq: &PostfixSequence) -> (r: String)
    ensures
        r@ == postfix_text(seq@),
{
    to_postfix_string(seq)
}

/// Converts a postfix sequence to infix text, with parentheses only where
/// they are needed. Returns `None` where the sequence does not denote one
/// expression.
pub fn infix_print(seq: &PostfixSequence) -> (r: Option<String>)
    ensures
        match build(seq@) {
            Some(t) => r matches Some(text) && text@ == infix_text(t),
            None => r is None,
        },
{
    match ExpBTree::try_from(copy_tokens(seq)) {
        Ok(tree) => Some(tree.to_infix_string()),
        Err(_) => None,
    }
}

/// Whether some tree of `kept` is commutative-equal to `t`.
pub open spec fn has_equivalent(kept: Seq<ExpBTree>, t: ExpBTree) -> bool {
    exists|i: int| 0 <= i < kept.len() && commutative_equal(#[trigger] kept[i], t)
}

/// The trees of `s` in order, each left out where an earlier kept tree is
/// commutative-equal to it.
pub open spec fn dedup_spec(s: Seq<ExpBTree>) -> Seq<ExpBTree>
    decreases s.len(),
{
    if s.len() == 0 {
        Seq::empty()
    } else {
        let kept = dedup_spec(s.drop_last());
        if has_equivalent(kept, s.last()) {
            kept
        } else {
            kept.push(s.last())
        }
    }
}

proof fn lemma_dedup(s: Seq<ExpBTree>)
    ensures
        forall|i: int, j: int|
            0 <= i < j < dedup_spec(s).len() ==> !commutative_equal(
                #[trigger] dedup_spec(s)[i],
                #[trigger] dedup_spec(s)[j],
            ),
        forall|k: int| 0 <= k < s.len() ==> has_equivalent(dedup_spec(s), #[trigger] s[k]),
    decreases s.len(),
{
    if s.len() > 0 {
        let front = s.drop_last();
        lemma_dedup(front);
        let kept = dedup_spec(front);
        let last = s.last();
        assert forall|k: int| 0 <= k < s.len() - 1 implies #[trigger] s[k] == front[k] by {}
        if !has_equivalent(kept, last) {
            let d = kept.push(last);
            assert(d[kept.len() as int] == last);
            assert forall|k: int| 0 <= k < s.len() implies has_equivalent(d, #[trigger] s[k]) by {
                if k < s.len() - 1 {
                    assert(has_equivalent(kept, front[k]));
                    let w = choose|w: int| 0 <= w < kept.len() && commutative_equal(#[trigger] kept[w], front[k]);
                    assert(d[w] == kept[w]);
                } else {
                    lemma_commutative_eq_reflexive(last);
                }
            }
        } else {
            assert forall|k: int| 0 <= k < s.len() implies has_equivalent(kept, #[trigger] s[k]) by {
                if k < s.len() - 1 {
                    assert(has_equivalent(kept, front[k]));
                }
            }
        }
    }
}

/// Whether some tree of `kept` is commutative-equal to `t`.
fn find_equivalent(kept: &Vec<ExpBTree>, t: &ExpBTree) -> (r: bool)
    ensures
        r == has_equivalent(kept@, *t),
{
    let mut i: usize = 0;
    while i < kept.len()
        invariant
            i <= kept.len(),
            forall|j: int| 0 <= j < i ==> !commutative_equal(#[trigger] kept@[j], *t),
        decreases kept.len() - i,
    {
        if kept[i].commutative_eq(t) {
            return true;
        }
        i += 1;
    }
    false
}

/// Removes trivially different solutions: keeps each tree, in order, unless
/// an earlier kept tree is commutative-equal to it.
pub fn dedup_commutative(trees: Vec<ExpBTree>) -> (r: Vec<ExpBTree>)
    ensures
        r@ == dedup_spec(trees@),
        forall|i: int, j: int|
            0 <= i < j < r@.len() ==> !commutative_equal(#[trigger] r@[i], #[trigger] r@[j]),
        forall|k: int| 0 <= k < trees@.len() ==> has_equivalent(r@, #[trigger] trees@[k]),
{
    proof {
        lemma_dedup(trees@);
    }
    let ghost all = trees@;
    let mut rest = trees;
    let mut kept: Vec<ExpBTree> = Vec::new();
    let mut k: usize = 0;
    assert(all.len() == rest.len());
    assert(all.subrange(0, 0) =~= Seq::<ExpBTree>::empty());
    while rest.len() > 0
        invariant
            k <= all.len(),
            all.len() <= usize::MAX,
            rest@ == all.subrange(k as int, all.len() as int),
            kept@ == dedup_spec(all.subrange(0, k as int)),
        decreases rest.len(),
    {
        let t = rest.remove(0);
        assert(all.subrange(0, k + 1).drop_last() =~= all.subrange(0, k as int));
        assert(rest@ =~= all.subrange(k + 1, all.len() as int));
        if !find_equivalent(&kept, &t) {
            kept.push(t);
        }
        k += 1;
    }
    assert(all.subrange(0, k as int) =~= all);
    kept
}

} // verus!
