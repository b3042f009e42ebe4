//! The nodes of an expression: its distinct subexpressions, numbered so that
//! every operand comes before the expressions it is an operand of.
use crate::expr::Expr;
use vstd::prelude::*;

verus! {

/// The list `acc`, followed by the subexpressions of `e` that it lacks: the
/// operands of an expression before the expression itself, the left operand
/// before the right one, and none of them twice.
pub open spec fn collect(e: Expr, acc: Seq<Expr>) -> Seq<Expr>
    decreases e,
{
    if acc.contains(e) {
        acc
    } else {
        match e {
            Expr::UnOp { exp, .. } => collect(*exp, acc).push(e),
            Expr::BinOp { exp1, exp2, .. } => collect(*exp2, collect(*exp1, acc)).push(e),
            _ => acc.push(e),
        }
    }
}

/// The distinct subexpressions of `e`, operands first; `e` itself is last.
pub open spec fn post_order(e: Expr) -> Seq<Expr> {
    collect(e, Seq::empty())
}

/// Whether `c` is an operand of `p`.
pub open spec fn is_operand(c: Expr, p: Expr) -> bool {
    match p {
        Expr::UnOp { exp, .. } => *exp == c,
        Expr::BinOp { exp1, exp2, .. } => *exp1 == c || *exp2 == c,
        _ => false,
    }
}

/// Whether no expression occurs twice in the list.
pub open spec fn distinct(s: Seq<Expr>) -> bool {
    forall|i: int, j: int| 0 <= i < j < s.len() ==> s[i] != s[j]
}

/// Whether every operand of an expression of the list stands before it in
/// the list.
pub open spec fn operands_first(s: Seq<Expr>) -> bool {
    forall|p: int, c: Expr|
        0 <= p < s.len() && #[trigger] is_operand(c, s[p]) ==> exists|k: int|
            0 <= k < p && #[trigger] s[k] == c
}

/// Whether every expression of the list from position `from` on, but the
/// last, is an operand of a later one.
pub open spec fn parents_after(s: Seq<Expr>, from: int) -> bool {
    forall|i: int|
        from <= i < s.len() - 1 ==> exists|p: int|
            i < p < s.len() && is_operand(#[trigger] s[i], #[trigger] s[p])
}

/// What `collect` adds to a list that is distinct and has operands first:
/// the result is again such a list and starts with `acc`; it holds `e`, as
/// its last entry if `acc` lacks it; what it adds is no larger than `e`, and
/// each addition but `e` is an operand of a later addition.
pub proof fn lemma_collect(e: Expr, acc: Seq<Expr>)
    requires
        distinct(acc),
        operands_first(acc),
    ensures
        ({
            let r = collect(e, acc);
            &&& distinct(r)
            &&& operands_first(r)
            &&& acc.len() <= r.len()
            &&& forall|i: int| 0 <= i < acc.len() ==> r[i] == acc[i]
            &&& r.contains(e)
            &&& !acc.contains(e) ==> r.len() > acc.len() && r.last() == e
            &&& acc.contains(e) ==> r == acc
            &&& forall|i: int| acc.len() <= i < r.len() ==> (#[trigger] r[i]).size() <= e.size()
            &&& forall|i: int|
                acc.len() <= i < r.len() ==> #[trigger] r[i] == e || exists|p: int|
                    i < p < r.len() && is_operand(r[i], #[trigger] r[p])
        }),
    decreases e,
{
    let r = collect(e, acc);
    if acc.contains(e) {
    } else {
        match e {
            Expr::UnOp { .. } => {
                let exp = e.operand();
                let r0 = collect(exp, acc);
                lemma_collect(exp, acc);
                lemma_pushed(e, acc, r0);
                assert forall|p: int, c: Expr|
                    0 <= p < r.len() && #[trigger] is_operand(c, r[p]) implies exists|k: int|
                    0 <= k < p && #[trigger] r[k] == c by {
                    if p < r0.len() {
                        assert(r[p] == r0[p]);
                        let k = choose|k: int| 0 <= k < p && #[trigger] r0[k] == c;
                        assert(r[k] == c);
                    } else {
                        let k = choose|k: int| 0 <= k < r0.len() && r0[k] == exp;
                        assert(r[k] == c);
                    }
                }
                assert forall|i: int| acc.len() <= i < r.len() implies #[trigger] r[i] == e
                    || exists|p: int| i < p < r.len() && is_operand(r[i], #[trigger] r[p]) by {
                    if i < r0.len() {
                        assert(r[i] == r0[i]);
                        if r0[i] == exp {
                            assert(is_operand(r[i], r[r.len() - 1]));
                        } else {
                            let p = choose|p: int|
                                i < p < r0.len() && is_operand(r0[i], #[trigger] r0[p]);
                            assert(r[p] == r0[p]);
                        }
                    }
                }
            },
            Expr::BinOp { .. } => {
                let exp1 = e.operand();
                let exp2 = e.operand2();
                let r1 = collect(exp1, acc);
                lemma_collect(exp1, acc);
                let r2 = collect(exp2, r1);
                lemma_collect(exp2, r1);
                assert forall|i: int| acc.len() <= i < r2.len() implies (#[trigger] r2[i]).size()
                    < e.size() by {
                    if i < r1.len() {
                        assert(r2[i] == r1[i]);
                    }
                }
                lemma_pushed(e, acc, r2);
                assert forall|p: int, c: Expr|
                    0 <= p < r.len() && #[trigger] is_operand(c, r[p]) implies exists|k: int|
                    0 <= k < p && #[trigger] r[k] == c by {
                    if p < r2.len() {
                        assert(r[p] == r2[p]);
                        let k = choose|k: int| 0 <= k < p && #[trigger] r2[k] == c;
                        assert(r[k] == c);
                    } else if c == exp1 {
                        let k = choose|k: int| 0 <= k < r1.len() && r1[k] == exp1;
                        assert(r2[k] == r1[k]);
                        assert(r[k] == c);
                    } else {
                        let k = choose|k: int| 0 <= k < r2.len() && r2[k] == exp2;
                        assert(r[k] == c);
                    }
                }
                assert forall|i: int| acc.len() <= i < r.len() implies #[trigger] r[i] == e
                    || exists|p: int| i < p < r.len() && is_operand(r[i], #[trigger] r[p]) by {
                    if i < r1.len() {
                        assert(r[i] == r1[i]);
                        assert(r2[i] == r1[i]);
                        if r1[i] == exp1 {
                            assert(is_operand(r[i], r[r.len() - 1]));
                        } else {
                            let p = choose|p: int|
                                i < p < r1.len() && is_operand(r1[i], #[trigger] r1[p]);
                            assert(r2[p] == r1[p]);
                            assert(r[p] == r1[p]);
                        }
                    } else if i < r2.len() {
                        assert(r[i] == r2[i]);
                        if r2[i] == exp2 {
                            assert(is_operand(r[i], r[r.len() - 1]));
                        } else {
                            let p = choose|p: int|
                                i < p < r2.len() && is_operand(r2[i], #[trigger] r2[p]);
                            assert(r[p] == r2[p]);
                        }
                    }
                }
            },
            _ => {
                lemma_pushed(e, acc, acc);
                assert forall|p: int, c: Expr|
                    0 <= p < r.len() && #[trigger] is_operand(c, r[p]) implies exists|k: int|
                    0 <= k < p && #[trigger] r[k] == c by {
                    if p < acc.len() {
                        assert(r[p] == acc[p]);
                        let k = choose|k: int| 0 <= k < p && #[trigger] acc[k] == c;
                        assert(r[k] == c);
                    }
                }
            },
        }
    }
}

/// A list that starts with `acc`, continues with smaller expressions than
/// `e` and ends with `e`, which `acc` lacks, holds `e` only at its end.
proof fn lemma_pushed(e: Expr, acc: Seq<Expr>, r0: Seq<Expr>)
    requires
        !acc.contains(e),
        distinct(r0),
        acc.len() <= r0.len(),
        forall|i: int| 0 <= i < acc.len() ==> r0[i] == acc[i],
        forall|i: int| acc.len() <= i < r0.len() ==> (#[trigger] r0[i]).size() < e.size(),
    ensures
        distinct(r0.push(e)),
        r0.push(e).contains(e),
        r0.push(e).last() == e,
        forall|i: int| 0 <= i < acc.len() ==> r0.push(e)[i] == acc[i],
        forall|i: int|
            acc.len() <= i < r0.push(e).len() ==> (#[trigger] r0.push(e)[i]).size() <= e.size(),
{
    let r = r0.push(e);
    assert(r[r0.len() as int] == e);
    assert forall|i: int, j: int| 0 <= i < j < r.len() implies r[i] != r[j] by {
        if j == r0.len() {
            if i < acc.len() {
                assert(acc[i] == r0[i]);
                assert(acc.contains(acc[i]));
            } else {
                assert(r0[i].size() < e.size());
            }
        } else {
            assert(r0[i] != r0[j]);
        }
    }
    assert forall|i: int| acc.len() <= i < r.len() implies (#[trigger] r[i]).size() <= e.size() by {
        if i < r0.len() {
            assert(r[i] == r0[i]);
        }
    }
}

/// The nodes of an expression are distinct with operands first, the
/// expression is the last of them, and every other node is an operand of a
/// later one.
pub proof fn lemma_post_order(e: Expr)
    ensures
        distinct(post_order(e)),
        operands_first(post_order(e)),
        post_order(e).len() >= 1,
        post_order(e).last() == e,
        parents_after(post_order(e), 0),
{
    let acc = Seq::<Expr>::empty();
    lemma_collect(e, acc);
    let r = post_order(e);
    assert forall|i: int| 0 <= i < r.len() - 1 implies exists|p: int|
        i < p < r.len() && is_operand(#[trigger] r[i], #[trigger] r[p]) by {
        if r[i] == e {
            assert(r[i] != r[r.len() - 1]);
        }
    }
}

/// The position of an expression in a list, or `None`.
pub fn find(nodes: &Vec<Expr>, e: &Expr) -> (r: Option<usize>)
    ensures
        match r {
            Some(i) => i < nodes@.len() && nodes@[i as int] == *e && forall|j: int|
                0 <= j < i ==> nodes@[j] != *e,
            None => !nodes@.contains(*e),
        },
{
    let mut i: usize = 0;
    while i < nodes.len()
        invariant
            i <= nodes@.len(),
            forall|j: int| 0 <= j < i ==> nodes@[j] != *e,
        decreases nodes@.len() - i,
    {
        if nodes[i].same(e) {
            return Some(i);
        }
        i = i + 1;
    }
    None
}

/// Numbers the subexpressions of `e` that the list lacks, operands first.
pub fn post_index(e: &Expr, nodes: &mut Vec<Expr>)
    ensures
        final(nodes)@ == collect(*e, old(nodes)@),
    decreases e,
{
    if find(nodes, e).is_some() {
        return ;
    }
    match e {
        Expr::UnOp { exp, .. } => {
            post_index(exp, nodes);
        },
        Expr::BinOp { exp1, exp2, .. } => {
            post_index(exp1, nodes);
            post_index(exp2, nodes);
        },
        _ => {},
    }
    nodes.push(e.clone());
}

} // verus!
