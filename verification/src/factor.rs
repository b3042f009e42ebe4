//! The candidates for factoring: pairs of a node where paths part and a node
//! where they meet again.
use crate::dominance::set_views;
use crate::graph::Deriv;
use std::collections::HashSet;
use vstd::prelude::*;

verus! {

/// The distance between the two numbers of a pair.
pub open spec fn distance(p: (usize, usize)) -> int {
    if p.0 > p.1 {
        p.0 - p.1
    } else {
        p.1 - p.0
    }
}

/// The smaller number of a pair.
pub open spec fn lower(p: (usize, usize)) -> int {
    if p.0 < p.1 {
        p.0 as int
    } else {
        p.1 as int
    }
}

/// Whether `p` may stand before `q`: its distance is smaller, or the
/// distances are equal and its smaller number is not the greater one.
pub open spec fn not_after(p: (usize, usize), q: (usize, usize)) -> bool {
    distance(p) < distance(q) || (distance(p) == distance(q) && lower(p) <= lower(q))
}

/// Whether each pair of the list may stand before the ones that follow it.
pub open spec fn ordered(s: Seq<(usize, usize)>) -> bool {
    forall|i: int, j: int| 0 <= i < j < s.len() ==> not_after(s[i], s[j])
}

/// The list with `x` put in behind the last pair that may stand before it.
pub open spec fn inserted(s: Seq<(usize, usize)>, x: (usize, usize)) -> Seq<(usize, usize)>
    decreases s.len(),
{
    if s.len() == 0 {
        seq![x]
    } else if not_after(s.last(), x) {
        s.push(x)
    } else {
        inserted(s.drop_last(), x).push(s.last())
    }
}

/// The list in order: smaller distances first, among equal distances the
/// smaller lower number first, and pairs that tie in the order they had.
pub open spec fn in_order(s: Seq<(usize, usize)>) -> Seq<(usize, usize)>
    decreases s.len(),
{
    if s.len() == 0 {
        s
    } else {
        inserted(in_order(s.drop_last()), s.last())
    }
}

/// Putting a pair into an ordered list at the place behind everything that
/// may stand before it gives `inserted`.
pub proof fn lemma_inserted_at(s: Seq<(usize, usize)>, x: (usize, usize), pos: int)
    requires
        0 <= pos <= s.len(),
        pos > 0 ==> not_after(s[pos - 1], x),
        forall|k: int| pos <= k < s.len() ==> !not_after(s[k], x),
    ensures
        inserted(s, x) == s.insert(pos, x),
    decreases s.len(),
{
    if s.len() == 0 {
        assert(s.insert(pos, x) =~= seq![x]);
    } else if pos == s.len() {
        assert(s.insert(pos, x) =~= s.push(x));
    } else {
        lemma_inserted_at(s.drop_last(), x, pos);
        assert(s.insert(pos, x) =~= s.drop_last().insert(pos, x).push(s.last()));
    }
}

/// Putting a pair into an ordered list keeps the list ordered and adds the
/// pair to what it holds.
pub proof fn lemma_inserted(s: Seq<(usize, usize)>, x: (usize, usize))
    requires
        ordered(s),
    ensures
        ordered(inserted(s, x)),
        inserted(s, x).to_multiset() == s.to_multiset().insert(x),
        inserted(s, x).len() == s.len() + 1,
    decreases s.len(),
{
    broadcast use vstd::seq_lib::group_to_multiset_ensures;

    if s.len() == 0 {
        assert(seq![x] =~= s.push(x));
    } else if not_after(s.last(), x) {
        let r = s.push(x);
        assert forall|i: int, j: int| 0 <= i < j < r.len() implies not_after(r[i], r[j]) by {
            if j == s.len() {
                if i < s.len() - 1 {
                    assert(not_after(s[i], s[s.len() - 1]));
                }
            } else {
                assert(not_after(s[i], s[j]));
            }
        }
    } else {
        let front = s.drop_last();
        lemma_inserted(front, x);
        let mid = inserted(front, x);
        let r = mid.push(s.last());
        assert(s =~= front.push(s.last()));
        assert(r.to_multiset() =~= s.to_multiset().insert(x));
        assert forall|i: int, j: int| 0 <= i < j < r.len() implies not_after(r[i], r[j]) by {
            if j == mid.len() {
                assert(mid.to_multiset().count(mid[i]) > 0);
                if mid[i] == x {
                } else {
                    assert(front.to_multiset().count(mid[i]) > 0);
                    assert(front.contains(mid[i]));
                    let k = choose|k: int| 0 <= k < front.len() && front[k] == mid[i];
                    assert(not_after(s[k], s[s.len() - 1]));
                }
            } else {
                assert(not_after(mid[i], mid[j]));
            }
        }
    }
}

/// The list in order is ordered and holds each pair as often as the list
/// does.
pub proof fn lemma_in_order(s: Seq<(usize, usize)>)
    ensures
        ordered(in_order(s)),
        in_order(s).to_multiset() == s.to_multiset(),
        in_order(s).len() == s.len(),
    decreases s.len(),
{
    broadcast use vstd::seq_lib::group_to_multiset_ensures;

    if s.len() > 0 {
        lemma_in_order(s.drop_last());
        lemma_inserted(in_order(s.drop_last()), s.last());
        assert(s =~= s.drop_last().push(s.last()));
    }
}

/// Whether a pair may stand before another.
pub fn is_not_after(p: (usize, usize), q: (usize, usize)) -> (b: bool)
    ensures
        b == not_after(p, q),
{
    let dp = if p.0 > p.1 {
        p.0 - p.1
    } else {
        p.1 - p.0
    };
    let dq = if q.0 > q.1 {
        q.0 - q.1
    } else {
        q.1 - q.0
    };
    let lp = if p.0 < p.1 {
        p.0
    } else {
        p.1
    };
    let lq = if q.0 < q.1 {
        q.0
    } else {
        q.1
    };
    dp < dq || (dp == dq && lp <= lq)
}

/// Sorts the pairs by distance, then by lower number; pairs that tie keep
/// their order.
pub fn sort_by_distance(v: Vec<(usize, usize)>) -> (r: Vec<(usize, usize)>)
    ensures
        r@ == in_order(v@),
        ordered(r@),
        r@.to_multiset() == v@.to_multiset(),
{
    let mut r: Vec<(usize, usize)> = Vec::new();
    let mut i: usize = 0;
    assert(v@.take(0) =~= Seq::<(usize, usize)>::empty());
    while i < v.len()
        invariant
            i <= v@.len(),
            r@ == in_order(v@.take(i as int)),
            ordered(r@),
        decreases v@.len() - i,
    {
        let x = v[i];
        let mut pos = r.len();
        while pos > 0 && !is_not_after(r[pos - 1], x)
            invariant
                pos <= r@.len(),
                forall|k: int| pos <= k < r@.len() ==> !not_after(r@[k], x),
            decreases pos,
        {
            pos = pos - 1;
        }
        proof {
            lemma_inserted_at(r@, x, pos as int);
            lemma_inserted(r@, x);
            assert(v@.take(i + 1).drop_last() =~= v@.take(i as int));
        }
        r.insert(pos, x);
        i = i + 1;
    }
    proof {
        assert(v@.take(v@.len() as int) =~= v@);
        lemma_in_order(v@);
    }
    r
}

/// The pairs `(a, j)` with `j` below `n` for which `f` holds, by rising
/// `j`.
pub open spec fn pairs_in_row(a: int, n: int, f: spec_fn(int, int) -> bool) -> Seq<(usize, usize)>
    decreases n,
{
    if n <= 0 {
        Seq::empty()
    } else if f(a, n - 1) {
        pairs_in_row(a, n - 1, f).push((a as usize, (n - 1) as usize))
    } else {
        pairs_in_row(a, n - 1, f)
    }
}

/// The pairs `(i, j)` with `i` below `a` and `j` below `size` for which `f`
/// holds, by rising `i` and then by rising `j`.
pub open spec fn pairs_in_rows(a: int, size: int, f: spec_fn(int, int) -> bool) -> Seq<
    (usize, usize),
>
    decreases a,
{
    if a <= 0 {
        Seq::empty()
    } else {
        pairs_in_rows(a - 1, size, f) + pairs_in_row(a - 1, size, f)
    }
}

/// A row holds exactly the pairs for which `f` holds.
pub proof fn lemma_pairs_in_row(a: int, n: int, f: spec_fn(int, int) -> bool, x: (usize, usize))
    requires
        0 <= a <= usize::MAX,
        n <= usize::MAX + 1,
    ensures
        pairs_in_row(a, n, f).contains(x) <==> x.0 == a && x.1 < n && f(a, x.1 as int),
    decreases n,
{
    if n > 0 {
        lemma_pairs_in_row(a, n - 1, f, x);
        let before = pairs_in_row(a, n - 1, f);
        if f(a, n - 1) {
            let last = (a as usize, (n - 1) as usize);
            let row = before.push(last);
            if row.contains(x) {
                let k = choose|k: int| 0 <= k < row.len() && row[k] == x;
                if k < before.len() {
                    assert(before[k] == x);
                }
            }
            if before.contains(x) {
                let k = choose|k: int| 0 <= k < before.len() && before[k] == x;
                assert(row[k] == x);
            }
            if x == last {
                assert(row[before.len() as int] == x);
            }
        }
    }
}

/// The rows hold exactly the pairs for which `f` holds.
pub proof fn lemma_pairs_in_rows(a: int, size: int, f: spec_fn(int, int) -> bool, x: (usize, usize))
    requires
        a <= usize::MAX + 1,
        size <= usize::MAX + 1,
    ensures
        pairs_in_rows(a, size, f).contains(x) <==> x.0 < a && x.1 < size && f(
            x.0 as int,
            x.1 as int,
        ),
    decreases a,
{
    if a > 0 {
        lemma_pairs_in_rows(a - 1, size, f, x);
        lemma_pairs_in_row(a - 1, size, f, x);
        let before = pairs_in_rows(a - 1, size, f);
        let row = pairs_in_row(a - 1, size, f);
        let all = before + row;
        if all.contains(x) {
            let k = choose|k: int| 0 <= k < all.len() && all[k] == x;
            if k < before.len() {
                assert(before[k] == x);
            } else {
                assert(row[k - before.len()] == x);
            }
        }
        if before.contains(x) {
            let k = choose|k: int| 0 <= k < before.len() && before[k] == x;
            assert(all[k] == x);
        }
        if row.contains(x) {
            let k = choose|k: int| 0 <= k < row.len() && row[k] == x;
            assert(all[before.len() + k] == x);
        }
    }
}

impl Deriv {
    /// Whether `fd`, where paths part, dominates `n`, where paths meet.
    pub open spec fn dom_candidate(&self, doms: Seq<Set<usize>>, fd: int, n: int) -> bool {
        &&& n != fd
        &&& self.graph@[fd]@.len() >= 2
        &&& self.reverse_graph@[n]@.len() >= 2
        &&& doms[n].contains(fd as usize)
    }

    /// Whether `fpd`, where paths meet, post-dominates `n`, where paths
    /// part.
    pub open spec fn pdom_candidate(&self, pdoms: Seq<Set<usize>>, fpd: int, n: int) -> bool {
        &&& n != fpd
        &&& self.reverse_graph@[fpd]@.len() >= 2
        &&& self.graph@[n]@.len() >= 2
        &&& pdoms[n].contains(fpd as usize)
    }

    /// The candidates before they are sorted: those of a dominator first,
    /// then those of a post-dominator, each kind by rising first and then by
    /// rising second number.
    pub open spec fn candidates(
        &self,
        doms: Seq<Set<usize>>,
        pdoms: Seq<Set<usize>>,
    ) -> Seq<(usize, usize)> {
        pairs_in_rows(
            self.size as int,
            self.size as int,
            |fd: int, n: int| self.dom_candidate(doms, fd, n),
        ) + pairs_in_rows(
            self.size as int,
            self.size as int,
            |fpd: int, n: int| self.pdom_candidate(pdoms, fpd, n),
        )
    }

    /// A pair is a candidate exactly if its first node dominates or
    /// post-dominates its second in the way a candidate asks.
    pub proof fn lemma_candidates(
        &self,
        doms: Seq<Set<usize>>,
        pdoms: Seq<Set<usize>>,
        x: (usize, usize),
    )
        ensures
            self.candidates(doms, pdoms).contains(x) <==> x.0 < self.size && x.1 < self.size && (
            self.dom_candidate(doms, x.0 as int, x.1 as int) || self.pdom_candidate(
                pdoms,
                x.0 as int,
                x.1 as int,
            )),
    {
        let f = |fd: int, n: int| self.dom_candidate(doms, fd, n);
        let g = |fpd: int, n: int| self.pdom_candidate(pdoms, fpd, n);
        let a = pairs_in_rows(self.size as int, self.size as int, f);
        let b = pairs_in_rows(self.size as int, self.size as int, g);
        lemma_pairs_in_rows(self.size as int, self.size as int, f, x);
        lemma_pairs_in_rows(self.size as int, self.size as int, g, x);
        let all = a + b;
        if all.contains(x) {
            let k = choose|k: int| 0 <= k < all.len() && all[k] == x;
            if k < a.len() {
                assert(a[k] == x);
            } else {
                assert(b[k - a.len()] == x);
            }
        }
        if a.contains(x) {
            let k = choose|k: int| 0 <= k < a.len() && a[k] == x;
            assert(all[k] == x);
        }
        if b.contains(x) {
            let k = choose|k: int| 0 <= k < b.len() && b[k] == x;
            assert(all[a.len() + k] == x);
        }
    }

    /// The pairs of nodes between which the graph can be factored, the
    /// nearest pairs first. A pair is a node with two or more edges that leave
    /// it and a node with two or more edges that lead to it, of which the
    /// first dominates or post-dominates the second.
    pub fn factor_subgraphs(
        &self,
        doms: &Vec<HashSet<usize>>,
        pdoms: &Vec<HashSet<usize>>,
    ) -> (res: Vec<(usize, usize)>)
        requires
            self.wf(),
            doms@.len() == self.size,
            pdoms@.len() == self.size,
        ensures
            res@ == in_order(self.candidates(set_views(doms@), set_views(pdoms@))),
            ordered(res@),
            forall|x: (usize, usize)|
                res@.contains(x) <==> x.0 < self.size && x.1 < self.size && (self.dom_candidate(
                    set_views(doms@),
                    x.0 as int,
                    x.1 as int,
                ) || self.pdom_candidate(set_views(pdoms@), x.0 as int, x.1 as int)),
    {
        broadcast use vstd::seq_lib::group_to_multiset_ensures;

        let ghost f = |fd: int, n: int| self.dom_candidate(set_views(doms@), fd, n);
        let ghost g = |fpd: int, n: int| self.pdom_candidate(set_views(pdoms@), fpd, n);
        let size = self.size;
        let mut res: Vec<(usize, usize)> = Vec::new();
        let mut fd: usize = 0;
        while fd < size
            invariant
                self.wf(),
                size == self.size,
                doms@.len() == size,
                fd <= size,
                f == |fd: int, n: int| self.dom_candidate(set_views(doms@), fd, n),
                res@ == pairs_in_rows(fd as int, size as int, f),
            decreases size - fd,
        {
            let ghost before = res@;
            let mut n: usize = 0;
            while n < size
                invariant
                    self.wf(),
                    size == self.size,
                    doms@.len() == size,
                    fd < size,
                    n <= size,
                    f == |fd: int, n: int| self.dom_candidate(set_views(doms@), fd, n),
                    res@ == before + pairs_in_row(fd as int, n as int, f),
                decreases size - n,
            {
                if 2 <= self.graph[fd].len() && n != fd && doms[n].contains(&fd) && 2
                    <= self.reverse_graph[n].len() {
                    res.push((fd, n));
                }
                assert(res@ =~= before + pairs_in_row(fd as int, n + 1, f));
                n = n + 1;
            }
            fd = fd + 1;
        }
        let ghost first = res@;
        let mut fpd: usize = 0;
        assert(res@ =~= first + pairs_in_rows(0, size as int, g));
        while fpd < size
            invariant
                self.wf(),
                size == self.size,
                pdoms@.len() == size,
                fpd <= size,
                g == |fpd: int, n: int| self.pdom_candidate(set_views(pdoms@), fpd, n),
                res@ == first + pairs_in_rows(fpd as int, size as int, g),
            decreases size - fpd,
        {
            let ghost before = res@;
            let mut n: usize = 0;
            while n < size
                invariant
                    self.wf(),
                    size == self.size,
                    pdoms@.len() == size,
                    fpd < size,
                    n <= size,
                    g == |fpd: int, n: int| self.pdom_candidate(set_views(pdoms@), fpd, n),
                    res@ == before + pairs_in_row(fpd as int, n as int, g),
                decreases size - n,
            {
                if 2 <= self.reverse_graph[fpd].len() && n != fpd && pdoms[n].contains(&fpd) && 2
                    <= self.graph[n].len() {
                    res.push((fpd, n));
                }
                assert(res@ =~= before + pairs_in_row(fpd as int, n + 1, g));
                n = n + 1;
            }
            assert(res@ =~= first + pairs_in_rows(fpd + 1, size as int, g));
            fpd = fpd + 1;
        }
        assert(res@ == self.candidates(set_views(doms@), set_views(pdoms@)));
        let ghost unsorted = res@;
        let sorted = sort_by_distance(res);
        proof {
            assert forall|x: (usize, usize)|
                sorted@.contains(x) <==> x.0 < self.size && x.1 < self.size && (self.dom_candidate(
                    set_views(doms@),
                    x.0 as int,
                    x.1 as int,
                ) || self.pdom_candidate(set_views(pdoms@), x.0 as int, x.1 as int)) by {
                self.lemma_candidates(set_views(doms@), set_views(pdoms@), x);
                assert(sorted@.contains(x) <==> sorted@.to_multiset().count(x) > 0);
                assert(unsorted.contains(x) <==> unsorted.to_multiset().count(x) > 0);
            }
        }
        sorted
    }
}

} // verus!
