//! What a shrink keeps and what it takes: the value of the graph stays, and
//! a pair of candidates loses two edges or more.
use crate::graph::{edge_count, Deriv, Edge};
use crate::pathsum::{factor_value, lemma_times, times, Ends};
use crate::shrink::{gone_count, kept, on_paths, prefixed, Step};
use crate::expr::{binop, num, Bop, Expr};
use crate::value::{defined, lawful, lemma_num, same_value, value, Functions};
use vstd::prelude::*;

verus! {

impl Deriv {
    /// The sum over two rows, one behind the other, is the sum of their
    /// sums.
    pub proof fn lemma_row_sum_add(
        &self,
        a: Seq<Edge>,
        b: Seq<Edge>,
        n: int,
        ends: Ends,
        f: Functions,
        at: spec_fn(nat) -> real,
    )
        ensures
            self.row_sum(a + b, n, ends, f, at) == self.row_sum(a, n, ends, f, at) + self.row_sum(
                b,
                n,
                ends,
                f,
                at,
            ),
        decreases b.len(),
    {
        if b.len() == 0 {
            assert(a + b =~= a);
        } else {
            self.lemma_row_sum_add(a, b.drop_last(), n, ends, f, at);
            assert((a + b).drop_last() =~= a + b.drop_last());
            assert((a + b).last() == b.last());
        }
    }

    /// The sum over a row of one edge is what the edge adds.
    pub proof fn lemma_row_sum_one(
        &self,
        edge: Edge,
        n: int,
        ends: Ends,
        f: Functions,
        at: spec_fn(nat) -> real,
    )
        ensures
            self.row_sum(seq![edge], n, ends, f, at) == self.edge_value(edge, n, ends, f, at),
    {
        let row = seq![edge];
        assert(row.drop_last() =~= Seq::<Edge>::empty());
        assert(self.row_sum(row.drop_last(), n, ends, f, at) == 0real);
        assert(row.last() == edge);
    }

    /// A row whose edges add nothing sums to zero.
    pub proof fn lemma_row_sum_zero(
        &self,
        row: Seq<Edge>,
        n: int,
        ends: Ends,
        f: Functions,
        at: spec_fn(nat) -> real,
    )
        requires
            forall|i: int|
                0 <= i < row.len() ==> self.edge_value(#[trigger] row[i], n, ends, f, at) == 0real,
        ensures
            self.row_sum(row, n, ends, f, at) == 0real,
        decreases row.len(),
    {
        if row.len() > 0 {
            let front = row.drop_last();
            assert forall|i: int| 0 <= i < front.len() implies self.edge_value(
                #[trigger] front[i],
                n,
                ends,
                f,
                at,
            ) == 0real by {
                assert(front[i] == row[i]);
            }
            self.lemma_row_sum_zero(front, n, ends, f, at);
            assert(self.edge_value(row[row.len() - 1], n, ends, f, at) == 0real);
        }
    }

    /// What stays of a row sums, in one graph, to what the whole row sums to
    /// in another, where the edges that are taken out add nothing in the
    /// other graph and the edges that stay add the same in both.
    pub proof fn lemma_kept_sum(
        &self,
        other: &Deriv,
        row: Seq<Edge>,
        off: int,
        gone: spec_fn(int) -> bool,
        n: int,
        ends: Ends,
        ends2: Ends,
        f: Functions,
        at: spec_fn(nat) -> real,
    )
        requires
            forall|i: int|
                0 <= i < row.len() && gone(off + i) ==> other.edge_value(
                    #[trigger] row[i],
                    n,
                    ends2,
                    f,
                    at,
                ) == 0real,
            forall|i: int|
                0 <= i < row.len() && !gone(off + i) ==> self.edge_value(
                    #[trigger] row[i],
                    n,
                    ends,
                    f,
                    at,
                ) == other.edge_value(row[i], n, ends2, f, at),
        ensures
            self.row_sum(kept(row, off, gone), n, ends, f, at) == other.row_sum(
                row,
                n,
                ends2,
                f,
                at,
            ),
        decreases row.len(),
    {
        if row.len() > 0 {
            let rest = row.drop_first();
            assert forall|i: int| 0 <= i < rest.len() && gone(off + 1 + i) implies other.edge_value(
                #[trigger] rest[i],
                n,
                ends2,
                f,
                at,
            ) == 0real by {
                assert(rest[i] == row[i + 1]);
            }
            assert forall|i: int| 0 <= i < rest.len() && !gone(off + 1 + i) implies self.edge_value(
                #[trigger] rest[i],
                n,
                ends,
                f,
                at,
            ) == other.edge_value(rest[i], n, ends2, f, at) by {
                assert(rest[i] == row[i + 1]);
            }
            self.lemma_kept_sum(other, rest, off + 1, gone, n, ends, ends2, f, at);
            assert(seq![row[0]] + rest =~= row);
            other.lemma_row_sum_add(seq![row[0]], rest, n, ends2, f, at);
            other.lemma_row_sum_one(row[0], n, ends2, f, at);
            if !gone(off) {
                self.lemma_row_sum_add(seq![row[0]], kept(rest, off + 1, gone), n, ends, f, at);
                self.lemma_row_sum_one(row[0], n, ends, f, at);
            }
        }
    }
}

/// What stays of a row are edges of the row that are not taken out, and
/// every such edge stays.
pub proof fn lemma_kept_members(row: Seq<Edge>, off: int, gone: spec_fn(int) -> bool)
    ensures
        forall|j: int|
            0 <= j < kept(row, off, gone).len() ==> exists|i: int|
                0 <= i < row.len() && !gone(off + i) && row[i] == #[trigger] kept(
                    row,
                    off,
                    gone,
                )[j],
    decreases row.len(),
{
    if row.len() > 0 {
        let rest = row.drop_first();
        lemma_kept_members(rest, off + 1, gone);
        let k = kept(row, off, gone);
        let kr = kept(rest, off + 1, gone);
        assert forall|j: int| 0 <= j < k.len() implies exists|i: int|
            0 <= i < row.len() && !gone(off + i) && row[i] == #[trigger] k[j] by {
            if !gone(off) && j == 0 {
                assert(row[0] == k[0]);
            } else {
                let jr = if gone(off) {
                    j
                } else {
                    j - 1
                };
                assert(k[j] == kr[jr]);
                let i = choose|i: int|
                    0 <= i < rest.len() && !gone(off + 1 + i) && rest[i] == kr[jr];
                assert(row[i + 1] == k[j]);
            }
        }
    }
}

/// A row out of which nothing is taken stays whole.
pub proof fn lemma_kept_all(row: Seq<Edge>, off: int, gone: spec_fn(int) -> bool)
    requires
        forall|i: int| 0 <= i < row.len() ==> !#[trigger] gone(off + i),
    ensures
        kept(row, off, gone) == row,
    decreases row.len(),
{
    if row.len() > 0 {
        let rest = row.drop_first();
        assert forall|i: int| 0 <= i < rest.len() implies !#[trigger] gone(off + 1 + i) by {
            assert(!gone(off + (i + 1)));
        }
        lemma_kept_all(rest, off + 1, gone);
        assert(!gone(off + 0));
        assert(seq![row[0]] + rest =~= row);
    }
}

/// Whether walks end at the same nodes under all three, and where they end
/// the third value is the first plus `c` times the second.
pub open spec fn combines(e1: Ends, e2: Ends, e3: Ends, c: real) -> bool {
    forall|m: int|
        match #[trigger] e3(m) {
            Some(v) => e1(m) is Some && e2(m) is Some && v == e1(m)->0 + times(c, e2(m)->0),
            None => e1(m) is None && e2(m) is None,
        }
}

/// The ends with the node `g` made an end of value `v`.
pub open spec fn cut_ends(ends: Ends, g: int, v: real) -> Ends {
    |m: int|
        if m == g {
            Some(v)
        } else {
            ends(m)
        }
}

impl Deriv {
    /// Values add up: where the ends are sums, so are the values of the
    /// rows.
    pub proof fn lemma_row_combines(
        &self,
        row: Seq<Edge>,
        n: int,
        e1: Ends,
        e2: Ends,
        e3: Ends,
        c: real,
        f: Functions,
        at: spec_fn(nat) -> real,
    )
        requires
            combines(e1, e2, e3, c),
        ensures
            self.row_sum(row, n, e3, f, at) == self.row_sum(row, n, e1, f, at) + times(
                c,
                self.row_sum(row, n, e2, f, at),
            ),
        decreases n, 0int, row.len(),
    {
        if row.len() > 0 {
            self.lemma_row_combines(row.drop_last(), n, e1, e2, e3, c, f, at);
            let edge = row.last();
            let a2 = self.row_sum(row.drop_last(), n, e2, f, at);
            let x1 = self.edge_value(edge, n, e1, f, at);
            let x2 = self.edge_value(edge, n, e2, f, at);
            let x3 = self.edge_value(edge, n, e3, f, at);
            if 0 <= edge.to < n {
                self.lemma_weight_combines(edge.to as int, e1, e2, e3, c, f, at);
                let v = factor_value(edge, f, at);
                let w1 = self.weight(edge.to as int, e1, f, at);
                let w2 = self.weight(edge.to as int, e2, f, at);
                assert(x1 == times(v, w1));
                assert(x2 == times(v, w2));
                assert(x3 == times(v, w1 + times(c, w2)));
                lemma_times(v, w1, times(c, w2));
                lemma_times(v, c, w2);
                assert(x3 == x1 + times(c, x2));
            } else {
                assert(x1 == 0real && x2 == 0real && x3 == 0real);
                lemma_times(c, 0real, 0real);
            }
            lemma_times(c, a2, x2);
        } else {
            lemma_times(c, 0real, 0real);
        }
    }

    /// Values add up: where the ends are sums, so are the values of the
    /// nodes.
    pub proof fn lemma_weight_combines(
        &self,
        n: int,
        e1: Ends,
        e2: Ends,
        e3: Ends,
        c: real,
        f: Functions,
        at: spec_fn(nat) -> real,
    )
        requires
            combines(e1, e2, e3, c),
        ensures
            self.weight(n, e3, f, at) == self.weight(n, e1, f, at) + times(
                c,
                self.weight(n, e2, f, at),
            ),
        decreases n, 1int, 0int,
    {
        if n < 0 {
            lemma_times(c, 0real, 0real);
        } else {
            assert(e3(n) is Some <==> e1(n) is Some);
            if e3(n) is None {
                self.lemma_row_combines(self.graph@[n]@, n, e1, e2, e3, c, f, at);
            }
        }
    }

    /// A node that is made an end with the value it has leaves the values
    /// of the rows as they are.
    pub proof fn lemma_row_cut(
        &self,
        row: Seq<Edge>,
        n: int,
        g: int,
        ends: Ends,
        f: Functions,
        at: spec_fn(nat) -> real,
    )
        requires
            g >= 0,
        ensures
            self.row_sum(row, n, cut_ends(ends, g, self.weight(g, ends, f, at)), f, at)
                == self.row_sum(row, n, ends, f, at),
        decreases n, 0int, row.len(),
    {
        if row.len() > 0 {
            self.lemma_row_cut(row.drop_last(), n, g, ends, f, at);
            let edge = row.last();
            let cut = cut_ends(ends, g, self.weight(g, ends, f, at));
            if 0 <= edge.to < n {
                self.lemma_weight_cut(edge.to as int, g, ends, f, at);
                assert(self.edge_value(edge, n, cut, f, at) == times(
                    factor_value(edge, f, at),
                    self.weight(edge.to as int, cut, f, at),
                ));
                assert(self.edge_value(edge, n, ends, f, at) == times(
                    factor_value(edge, f, at),
                    self.weight(edge.to as int, ends, f, at),
                ));
            } else {
                assert(self.edge_value(edge, n, cut, f, at) == 0real);
                assert(self.edge_value(edge, n, ends, f, at) == 0real);
            }
        }
    }

    /// A node that is made an end with the value it has leaves the values
    /// of the nodes as they are.
    pub proof fn lemma_weight_cut(
        &self,
        n: int,
        g: int,
        ends: Ends,
        f: Functions,
        at: spec_fn(nat) -> real,
    )
        requires
            g >= 0,
        ensures
            self.weight(n, cut_ends(ends, g, self.weight(g, ends, f, at)), f, at) == self.weight(
                n,
                ends,
                f,
                at,
            ),
        decreases n, 1int, 0int,
    {
        if n >= 0 && n != g {
            if ends(n) is None {
                self.lemma_row_cut(self.graph@[n]@, n, g, ends, f, at);
            }
        }
    }
}

impl Deriv {
    /// Walks end at `g` with the value one and at the leaves with zero: the
    /// value of a node is then the sum over its paths to `g`.
    pub open spec fn ends_to(&self, g: int) -> Ends {
        |m: int|
            if m == g {
                Some(1real)
            } else if self.leafs@.contains_key(m as usize) {
                Some(0real)
            } else {
                None
            }
    }

    /// Walks end at `g` and at the leaves, everywhere with the value zero.
    pub open spec fn ends_nowhere(&self, g: int) -> Ends {
        |m: int|
            if m == g || self.leafs@.contains_key(m as usize) {
                Some(0real)
            } else {
                None
            }
    }

    /// Whether the two graphs have the same rows up to node `n`.
    pub open spec fn same_rows_upto(&self, other: &Deriv, n: int) -> bool {
        forall|m: int| 0 <= m <= n ==> (#[trigger] self.graph@[m])@ == other.graph@[m]@
    }

    /// Graphs with the same rows give a row the same sum.
    pub proof fn lemma_row_same(
        &self,
        other: &Deriv,
        row: Seq<Edge>,
        n: int,
        ends: Ends,
        f: Functions,
        at: spec_fn(nat) -> real,
    )
        requires
            self.same_rows_upto(other, n - 1),
        ensures
            self.row_sum(row, n, ends, f, at) == other.row_sum(row, n, ends, f, at),
        decreases n, 0int, row.len(),
    {
        if row.len() > 0 {
            self.lemma_row_same(other, row.drop_last(), n, ends, f, at);
            let edge = row.last();
            if 0 <= edge.to < n {
                self.lemma_weight_same(other, edge.to as int, ends, f, at);
                assert(self.edge_value(edge, n, ends, f, at) == times(
                    factor_value(edge, f, at),
                    self.weight(edge.to as int, ends, f, at),
                ));
                assert(other.edge_value(edge, n, ends, f, at) == times(
                    factor_value(edge, f, at),
                    other.weight(edge.to as int, ends, f, at),
                ));
            } else {
                assert(self.edge_value(edge, n, ends, f, at) == 0real);
                assert(other.edge_value(edge, n, ends, f, at) == 0real);
            }
        }
    }

    /// Graphs with the same rows up to a node give the node the same value.
    pub proof fn lemma_weight_same(
        &self,
        other: &Deriv,
        n: int,
        ends: Ends,
        f: Functions,
        at: spec_fn(nat) -> real,
    )
        requires
            self.same_rows_upto(other, n),
        ensures
            self.weight(n, ends, f, at) == other.weight(n, ends, f, at),
        decreases n, 1int, 0int,
    {
        if n >= 0 && ends(n) is None {
            assert(self.graph@[n]@ == other.graph@[n]@);
            self.lemma_row_same(other, self.graph@[n]@, n, ends, f, at);
        }
    }

    /// The value of a node is the sum over its paths that pass by `g`, plus
    /// the sum over its paths to `g` times the value of `g`.
    pub proof fn lemma_split_at(&self, n: int, g: int, f: Functions, at: spec_fn(nat) -> real)
        requires
            g >= 0,
        ensures
            self.path_value(n, f, at) == self.weight(
                n,
                cut_ends(self.leaf_ends(), g, 0real),
                f,
                at,
            ) + times(self.path_value(g, f, at), self.weight(n, self.ends_to(g), f, at)),
    {
        let leaf = self.leaf_ends();
        let vg = self.weight(g, leaf, f, at);
        let e1 = cut_ends(leaf, g, 0real);
        let e2 = self.ends_to(g);
        let e3 = cut_ends(leaf, g, vg);
        self.lemma_weight_cut(n, g, leaf, f, at);
        assert forall|m: int|
            match #[trigger] e3(m) {
                Some(v) => e1(m) is Some && e2(m) is Some && v == e1(m)->0 + times(vg, e2(m)->0),
                None => e1(m) is None && e2(m) is None,
            } by {
            lemma_times(vg, 0real, 0real);
        }
        self.lemma_weight_combines(n, e1, e2, e3, vg, f, at);
    }

    /// The sum over the paths of a node to `g` is the sum over those that
    /// pass by `s`, plus the sum over its paths to `s` times the sum over the
    /// paths of `s` to `g`.
    pub proof fn lemma_split_paths(&self, n: int, s: int, g: int, f: Functions, at: spec_fn(nat) -> real)
        requires
            s >= 0,
            s != g,
        ensures
            self.weight(n, self.ends_to(g), f, at) == self.weight(
                n,
                cut_ends(self.ends_to(g), s, 0real),
                f,
                at,
            ) + times(
                self.weight(s, self.ends_to(g), f, at),
                self.weight(n, cut_ends(self.ends_nowhere(g), s, 1real), f, at),
            ),
    {
        let to = self.ends_to(g);
        let ws = self.weight(s, to, f, at);
        let e1 = cut_ends(to, s, 0real);
        let e2 = cut_ends(self.ends_nowhere(g), s, 1real);
        let e3 = cut_ends(to, s, ws);
        self.lemma_weight_cut(n, s, to, f, at);
        assert forall|m: int|
            match #[trigger] e3(m) {
                Some(v) => e1(m) is Some && e2(m) is Some && v == e1(m)->0 + times(ws, e2(m)->0),
                None => e1(m) is None && e2(m) is None,
            } by {
            lemma_times(ws, 0real, 0real);
        }
        self.lemma_weight_combines(n, e1, e2, e3, ws, f, at);
    }

    /// A node that `g` post-dominates has no path that passes by `g`: the
    /// sum over such paths is zero.
    pub proof fn lemma_no_way_past(&self, v: int, g: int, f: Functions, at: spec_fn(nat) -> real)
        requires
            self.wf(),
            0 <= v < self.size,
            0 <= g < self.size,
            self.post_dominates(g, v),
        ensures
            self.weight(v, cut_ends(self.leaf_ends(), g, 0real), f, at) == 0real,
        decreases v,
    {
        let ends = cut_ends(self.leaf_ends(), g, 0real);
        if v == g {
        } else if self.leafs@.contains_key(v as usize) {
            self.lemma_post_dominators_of_leaf(g, v);
        } else {
            let row = self.graph@[v]@;
            self.lemma_post_dominators_of_node(g, v);
            assert forall|i: int| 0 <= i < row.len() implies self.edge_value(
                #[trigger] row[i],
                v,
                ends,
                f,
                at,
            ) == 0real by {
                let w = row[i].to as int;
                assert(self.has_edge(v, w));
                self.lemma_no_way_past(w, g, f, at);
                lemma_times(factor_value(row[i], f, at), 0real, 0real);
            }
            self.lemma_row_sum_zero(row, v, ends, f, at);
        }
    }
}

impl Deriv {
    /// A path that begins with one of the first `k` edges of a node is one
    /// of those edges and, behind it, a path from the node the edge leads
    /// to.
    pub proof fn lemma_via_parts(&self, cur: int, goal: int, k: int, p: Seq<Step>)
        requires
            self.wf(),
            0 <= cur < self.size,
            0 <= k <= self.graph@[cur]@.len(),
            self.paths_via(cur, goal, k).contains(p),
        ensures
            p.len() > 0,
            p[0].0 == cur,
            0 <= p[0].1 < k,
            self.paths_from(self.graph@[cur]@[p[0].1 as int].to as int, goal).contains(
                p.drop_first(),
            ),
        decreases k,
    {
        let all = self.paths_via(cur, goal, k);
        let idx = choose|idx: int| 0 <= idx < all.len() && all[idx] == p;
        assert(k > 0);
        let before = self.paths_via(cur, goal, k - 1);
        let to = self.graph@[cur]@[k - 1].to as int;
        assert(0 <= to < cur);
        let deeper = self.paths_from(to, goal);
        let step = (cur as usize, (k - 1) as usize);
        let behind = prefixed(seq![step], deeper);
        assert(all == before + behind);
        if idx < before.len() {
            assert(before[idx] == p);
            self.lemma_via_parts(cur, goal, k - 1, p);
        } else {
            let j = idx - before.len();
            assert(behind[j] == p);
            assert(p == seq![step] + deeper[j]);
            assert(p.drop_first() =~= deeper[j]);
            assert(p[0] == step);
            assert(self.graph@[cur]@.len() == self.graph@[cur].len());
            assert(p[0].1 as int == k - 1);
            assert(deeper.contains(deeper[j]));
        }
    }

    /// An edge among the first `k` of a node and, behind it, a path from
    /// the node it leads to make a path that begins with one of those edges.
    pub proof fn lemma_via_holds(&self, cur: int, goal: int, k: int, j: int, q: Seq<Step>)
        requires
            self.wf(),
            0 <= cur < self.size,
            0 <= j < k <= self.graph@[cur]@.len(),
            self.paths_from(self.graph@[cur]@[j].to as int, goal).contains(q),
        ensures
            self.paths_via(cur, goal, k).contains(seq![(cur as usize, j as usize)] + q),
        decreases k,
    {
        let all = self.paths_via(cur, goal, k);
        let before = self.paths_via(cur, goal, k - 1);
        let to = self.graph@[cur]@[k - 1].to as int;
        assert(0 <= to < cur);
        let deeper = self.paths_from(to, goal);
        let step = (cur as usize, (k - 1) as usize);
        let behind = prefixed(seq![step], deeper);
        assert(all == before + behind);
        let p = seq![(cur as usize, j as usize)] + q;
        if j == k - 1 {
            let idx = choose|idx: int| 0 <= idx < deeper.len() && deeper[idx] == q;
            assert(behind[idx] == p);
            assert(all[before.len() + idx] == p);
        } else {
            self.lemma_via_holds(cur, goal, k - 1, j, q);
            let idx = choose|idx: int| 0 <= idx < before.len() && before[idx] == p;
            assert(all[idx] == p);
        }
    }

    /// A path from `cur` down to `goal` leaves nodes from `cur` down to
    /// above `goal`; it is empty only if `cur` is `goal`.
    pub proof fn lemma_path_sources(&self, cur: int, goal: int, p: Seq<Step>)
        requires
            self.wf(),
            0 <= cur < self.size,
            self.paths_from(cur, goal).contains(p),
        ensures
            goal <= cur,
            p.len() == 0 <==> cur == goal,
            forall|t: int| 0 <= t < p.len() ==> goal < (#[trigger] p[t]).0 <= cur,
            forall|t: int|
                0 <= t < p.len() ==> (#[trigger] p[t]).1 < self.graph@[p[t].0 as int]@.len(),
        decreases cur,
    {
        let all = self.paths_from(cur, goal);
        let idx = choose|idx: int| 0 <= idx < all.len() && all[idx] == p;
        if cur == goal {
            assert(all[idx] == Seq::<Step>::empty());
        } else if self.leafs@.contains_key(cur as usize) {
        } else {
            self.lemma_via_parts(cur, goal, self.graph@[cur]@.len() as int, p);
            let to = self.graph@[cur]@[p[0].1 as int].to as int;
            assert(0 <= to < cur);
            let rest = p.drop_first();
            self.lemma_path_sources(to, goal, rest);
            assert forall|t: int| 0 <= t < p.len() implies goal < (#[trigger] p[t]).0 <= cur by {
                if t > 0 {
                    assert(p[t] == rest[t - 1]);
                }
            }
            assert forall|t: int| 0 <= t < p.len() implies (#[trigger] p[t]).1
                < self.graph@[p[t].0 as int]@.len() by {
                if t > 0 {
                    assert(p[t] == rest[t - 1]);
                }
            }
        }
    }

    /// A path from `s` to a node that is no leaf, and an edge of that node,
    /// make a path from `s` to the node that the edge leads to.
    pub proof fn lemma_path_extends(&self, s: int, n: int, i: int, p: Seq<Step>)
        requires
            self.wf(),
            0 <= s < self.size,
            0 <= n < self.size,
            self.paths_from(s, n).contains(p),
            !self.leafs@.contains_key(n as usize),
            0 <= i < self.graph@[n]@.len(),
        ensures
            self.paths_from(s, self.graph@[n]@[i].to as int).contains(
                p.push((n as usize, i as usize)),
            ),
        decreases s,
    {
        let w = self.graph@[n]@[i].to as int;
        let step = (n as usize, i as usize);
        assert(0 <= w < n);
        self.lemma_path_sources(s, n, p);
        if s == n {
            assert(p =~= Seq::<Step>::empty());
            let none = Seq::<Step>::empty();
            assert(self.paths_from(w, w)[0] == none);
            assert(self.paths_from(w, w).contains(none));
            self.lemma_via_holds(n, w, self.graph@[n]@.len() as int, i, none);
            assert(seq![step] + none =~= p.push(step));
        } else {
            let all = self.paths_from(s, n);
            let idx = choose|idx: int| 0 <= idx < all.len() && all[idx] == p;
            assert(!self.leafs@.contains_key(s as usize));
            let len = self.graph@[s]@.len() as int;
            self.lemma_via_parts(s, n, len, p);
            let j = p[0].1 as int;
            let to = self.graph@[s]@[j].to as int;
            assert(0 <= to < s);
            let rest = p.drop_first();
            self.lemma_path_extends(to, n, i, rest);
            self.lemma_via_holds(s, w, len, j, rest.push(step));
            assert(seq![(s as usize, j as usize)] + rest.push(step) =~= p.push(step));
        }
    }
}

impl Deriv {
    /// Whether `after` is this graph, shrunk between the nodes of the pair
    /// `fsub`, of which `s` is the greater and `g` the smaller one.
    pub open spec fn thinned(
        &self,
        after: &Deriv,
        fsub: (usize, usize),
        s: usize,
        g: usize,
        doms: Seq<Set<usize>>,
        pdoms: Seq<Set<usize>>,
        folded: Expr,
    ) -> bool {
        &&& self.wf()
        &&& g < s < self.size
        &&& fsub == (s, g) || fsub == (g, s)
        &&& doms.len() == self.size
        &&& pdoms.len() == self.size
        &&& self.shrunk_to(after, fsub, doms, pdoms, folded)
    }

    /// Whether the sets of post-dominators hold `g` for `g` itself and else
    /// only for nodes that `g` post-dominates.
    pub open spec fn sound_for(&self, pdoms: Seq<Set<usize>>, g: usize) -> bool {
        &&& pdoms.len() == self.size
        &&& g < self.size
        &&& pdoms[g as int].contains(g)
        &&& forall|v: int|
            0 <= v < self.size && (#[trigger] pdoms[v]).contains(g) ==> self.post_dominates(
                g as int,
                v,
            )
    }

    /// An edge that is taken out leaves a node from `s` down to above `g`
    /// and is an edge of the graph. For a pair that begins with `s`, the set
    /// of post-dominators of the node it leads to holds `g`; for a pair that
    /// begins with `g`, the set of dominators of the node it leaves holds
    /// `s`.
    pub proof fn lemma_removed(
        &self,
        fsub: (usize, usize),
        s: usize,
        g: usize,
        doms: Seq<Set<usize>>,
        pdoms: Seq<Set<usize>>,
        step: Step,
    )
        requires
            self.wf(),
            g < s < self.size,
            fsub == (s, g) || fsub == (g, s),
            self.removed(fsub, doms, pdoms, step),
        ensures
            g < step.0 <= s,
            step.1 < self.graph@[step.0 as int]@.len(),
            fsub == (s, g) ==> pdoms[self.graph@[step.0 as int]@[step.1 as int].to as int].contains(
                g,
            ),
            fsub == (g, s) ==> doms[step.0 as int].contains(s),
    {
        let paths = self.paths_from(s as int, g as int);
        let (k, j) = choose|k: int, j: int|
            0 <= k < paths.len() && 0 <= j < paths[k].len() && #[trigger] paths[k][j] == step;
        let path = paths[k];
        assert(paths.contains(path));
        self.lemma_path_sources(s as int, g as int, path);
        assert(path[j] == step);
    }

    /// Where the edges of a row add the same in two graphs, the row has the
    /// same sum in both.
    pub proof fn lemma_row_equal(
        &self,
        other: &Deriv,
        row: Seq<Edge>,
        n: int,
        ends: Ends,
        ends2: Ends,
        f: Functions,
        at: spec_fn(nat) -> real,
    )
        requires
            forall|i: int|
                0 <= i < row.len() ==> self.edge_value(#[trigger] row[i], n, ends, f, at)
                    == other.edge_value(row[i], n, ends2, f, at),
        ensures
            self.row_sum(row, n, ends, f, at) == other.row_sum(row, n, ends2, f, at),
        decreases row.len(),
    {
        if row.len() > 0 {
            let front = row.drop_last();
            assert forall|i: int| 0 <= i < front.len() implies self.edge_value(
                #[trigger] front[i],
                n,
                ends,
                f,
                at,
            ) == other.edge_value(front[i], n, ends2, f, at) by {
                assert(front[i] == row[i]);
            }
            self.lemma_row_equal(other, front, n, ends, ends2, f, at);
            assert(self.edge_value(row[row.len() - 1], n, ends, f, at) == other.edge_value(
                row[row.len() - 1],
                n,
                ends2,
                f,
                at,
            ));
        }
    }

    /// The row of a node after the shrink: what stays of the row before,
    /// and behind it the new edge if the node is `s`.
    pub proof fn lemma_row_after(
        &self,
        after: &Deriv,
        fsub: (usize, usize),
        s: usize,
        g: usize,
        doms: Seq<Set<usize>>,
        pdoms: Seq<Set<usize>>,
        folded: Expr,
        n: int,
    )
        requires
            self.thinned(after, fsub, s, g, doms, pdoms, folded),
            0 <= n < self.size,
        ensures
            n != s ==> after.graph@[n]@ == kept(
                self.graph@[n]@,
                0,
                self.gone_at(fsub, doms, pdoms, n as usize),
            ),
            n == s ==> after.graph@[n]@ == kept(
                self.graph@[n]@,
                0,
                self.gone_at(fsub, doms, pdoms, n as usize),
            ).push(Edge { to: g, exp: std::rc::Rc::new(folded) }),
            after.leafs == self.leafs,
            after.diff_by == self.diff_by,
            after.size == self.size,
            after.root == self.root,
    {
        let u = n as usize;
        if n != s {
            assert(after.graph@[u as int]@ == self.row_after(fsub, doms, pdoms, u));
        }
    }

    /// After the shrink the sum over the paths that pass by `g` is at every
    /// node what it was.
    pub proof fn lemma_past_kept(
        &self,
        after: &Deriv,
        fsub: (usize, usize),
        s: usize,
        g: usize,
        doms: Seq<Set<usize>>,
        pdoms: Seq<Set<usize>>,
        folded: Expr,
        n: int,
        f: Functions,
        at: spec_fn(nat) -> real,
    )
        requires
            self.thinned(after, fsub, s, g, doms, pdoms, folded),
            fsub == (s, g),
            self.sound_for(pdoms, g),
            0 <= n < self.size,
        ensures
            after.weight(n, cut_ends(self.leaf_ends(), g as int, 0real), f, at) == self.weight(
                n,
                cut_ends(self.leaf_ends(), g as int, 0real),
                f,
                at,
            ),
        decreases n,
    {
        let ends = cut_ends(self.leaf_ends(), g as int, 0real);
        if ends(n) is None {
            let row = self.graph@[n]@;
            let gone = self.gone_at(fsub, doms, pdoms, n as usize);
            let stay = kept(row, 0, gone);
            self.lemma_row_after(after, fsub, s, g, doms, pdoms, folded, n);
            assert(row.len() == self.graph@[n].len());
            assert forall|i: int| 0 <= i < row.len() && gone(0 + i) implies self.edge_value(
                #[trigger] row[i],
                n,
                ends,
                f,
                at,
            ) == 0real by {
                let step = (n as usize, i as usize);
                assert(self.removed(fsub, doms, pdoms, step));
                self.lemma_removed(fsub, s, g, doms, pdoms, step);
                let to = row[i].to as int;
                assert(pdoms[to].contains(g));
                self.lemma_no_way_past(to, g as int, f, at);
                lemma_times(factor_value(row[i], f, at), 0real, 0real);
            }
            assert forall|i: int| 0 <= i < row.len() && !gone(0 + i) implies after.edge_value(
                #[trigger] row[i],
                n,
                ends,
                f,
                at,
            ) == self.edge_value(row[i], n, ends, f, at) by {
                let to = row[i].to as int;
                assert(0 <= to < n);
                self.lemma_past_kept(after, fsub, s, g, doms, pdoms, folded, to, f, at);
            }
            after.lemma_kept_sum(self, row, 0, gone, n, ends, ends, f, at);
            if n == s {
                let fresh = Edge { to: g, exp: std::rc::Rc::new(folded) };
                assert(after.graph@[n]@ == stay.push(fresh));
                assert(stay.push(fresh).drop_last() =~= stay);
                assert(stay.push(fresh).last() == fresh);
                assert(after.weight(g as int, ends, f, at) == 0real);
                lemma_times(factor_value(fresh, f, at), 0real, 0real);
                assert(after.edge_value(fresh, n, ends, f, at) == 0real);
            } else {
                assert(after.graph@[n]@ == stay);
            }
        }
    }

    /// After the shrink the nodes up to `g` have the values they had.
    pub proof fn lemma_below_kept(
        &self,
        after: &Deriv,
        fsub: (usize, usize),
        s: usize,
        g: usize,
        doms: Seq<Set<usize>>,
        pdoms: Seq<Set<usize>>,
        folded: Expr,
    )
        requires
            self.thinned(after, fsub, s, g, doms, pdoms, folded),
        ensures
            after.same_rows_upto(self, g as int),
    {
        assert forall|m: int| 0 <= m <= g implies (#[trigger] after.graph@[m])@
            == self.graph@[m]@ by {
            let row = self.graph@[m]@;
            let gone = self.gone_at(fsub, doms, pdoms, m as usize);
            self.lemma_row_after(after, fsub, s, g, doms, pdoms, folded, m);
            assert(row.len() == self.graph@[m].len());
            assert forall|i: int| 0 <= i < row.len() implies !#[trigger] gone(0 + i) by {
                let step = (m as usize, i as usize);
                if self.removed(fsub, doms, pdoms, step) {
                    self.lemma_removed(fsub, s, g, doms, pdoms, step);
                }
            }
            lemma_kept_all(row, 0, gone);
        }
    }

    /// A node below `s` has no path to `s`: where walks end with the value
    /// zero everywhere but at `s`, its value is zero.
    pub proof fn lemma_below_dominator(
        &self,
        n: int,
        s: int,
        ends: Ends,
        f: Functions,
        at: spec_fn(nat) -> real,
    )
        requires
            n < s,
            forall|m: int| m != s ==> #[trigger] ends(m) is None || ends(m) == Some(0real),
        ensures
            self.weight(n, ends, f, at) == 0real,
        decreases n,
    {
        if n >= 0 && ends(n) is None {
            let row = self.graph@[n]@;
            assert forall|i: int| 0 <= i < row.len() implies self.edge_value(
                #[trigger] row[i],
                n,
                ends,
                f,
                at,
            ) == 0real by {
                let w = row[i].to as int;
                if 0 <= w < n {
                    self.lemma_below_dominator(w, s, ends, f, at);
                    lemma_times(factor_value(row[i], f, at), 0real, 0real);
                }
            }
            self.lemma_row_sum_zero(row, n, ends, f, at);
        }
    }

    /// After the shrink the sum over the paths to `s` is at every node what
    /// it was: the value of the node where walks end at `s` with some value
    /// and everywhere else with zero.
    pub proof fn lemma_to_dominator_kept(
        &self,
        after: &Deriv,
        fsub: (usize, usize),
        s: usize,
        g: usize,
        doms: Seq<Set<usize>>,
        pdoms: Seq<Set<usize>>,
        folded: Expr,
        n: int,
        ends: Ends,
        f: Functions,
        at: spec_fn(nat) -> real,
    )
        requires
            self.thinned(after, fsub, s, g, doms, pdoms, folded),
            0 <= n < self.size,
            ends(s as int) is Some,
            forall|m: int| m != s ==> #[trigger] ends(m) is None || ends(m) == Some(0real),
        ensures
            after.weight(n, ends, f, at) == self.weight(n, ends, f, at),
        decreases n,
    {
        if ends(n) is None {
            let row = self.graph@[n]@;
            let gone = self.gone_at(fsub, doms, pdoms, n as usize);
            self.lemma_row_after(after, fsub, s, g, doms, pdoms, folded, n);
            assert(row.len() == self.graph@[n].len());
            assert forall|i: int| 0 <= i < row.len() && gone(0 + i) implies self.edge_value(
                #[trigger] row[i],
                n,
                ends,
                f,
                at,
            ) == 0real by {
                let step = (n as usize, i as usize);
                assert(self.removed(fsub, doms, pdoms, step));
                self.lemma_removed(fsub, s, g, doms, pdoms, step);
                let w = row[i].to as int;
                if 0 <= w < n {
                    self.lemma_below_dominator(w, s as int, ends, f, at);
                    lemma_times(factor_value(row[i], f, at), 0real, 0real);
                }
            }
            assert forall|i: int| 0 <= i < row.len() && !gone(0 + i) implies after.edge_value(
                #[trigger] row[i],
                n,
                ends,
                f,
                at,
            ) == self.edge_value(row[i], n, ends, f, at) by {
                let w = row[i].to as int;
                if 0 <= w < n {
                    self.lemma_to_dominator_kept(
                        after,
                        fsub,
                        s,
                        g,
                        doms,
                        pdoms,
                        folded,
                        w,
                        ends,
                        f,
                        at,
                    );
                }
            }
            after.lemma_kept_sum(self, row, 0, gone, n, ends, ends, f, at);
        }
    }

    /// Whether every path from `n` to `g` passes through `s`.
    pub open spec fn all_through(&self, n: int, s: int, g: int) -> bool {
        forall|p: Seq<int>| #[trigger] self.is_path(p) && p[0] == n && p.last() == g ==> p.contains(s)
    }

    /// Where every path of a node to `g` passes through `s`, the sum over
    /// its paths to `g` that pass by `s` is zero.
    pub proof fn lemma_none_beside(
        &self,
        n: int,
        s: int,
        g: int,
        ends: Ends,
        f: Functions,
        at: spec_fn(nat) -> real,
    )
        requires
            self.wf(),
            0 <= n < self.size,
            0 <= g < self.size,
            s != g,
            self.all_through(n, s, g),
            ends(s) == Some(0real),
            forall|m: int| m != g ==> #[trigger] ends(m) is None || ends(m) == Some(0real),
        ensures
            self.weight(n, ends, f, at) == 0real,
        decreases n,
    {
        if n == g {
            let p = seq![g];
            assert(self.is_path(p));
            assert(p.contains(s));
        } else if ends(n) is None {
            let row = self.graph@[n]@;
            assert forall|i: int| 0 <= i < row.len() implies self.edge_value(
                #[trigger] row[i],
                n,
                ends,
                f,
                at,
            ) == 0real by {
                let w = row[i].to as int;
                assert(0 <= w < n);
                assert(self.has_edge(n, w));
                assert forall|q: Seq<int>|
                    #[trigger] self.is_path(q) && q[0] == w && q.last() == g implies q.contains(
                    s,
                ) by {
                    let p = seq![n] + q;
                    assert forall|k: int| 0 <= k < p.len() - 1 implies self.has_edge(
                        #[trigger] p[k],
                        p[k + 1],
                    ) by {
                        if k >= 1 {
                            assert(self.has_edge(q[k - 1], q[k - 1 + 1]));
                        }
                    }
                    assert(self.is_path(p));
                    assert(p.last() == q.last());
                    assert(p.contains(s));
                    let k = choose|k: int| 0 <= k < p.len() && p[k] == s;
                    assert(q[k - 1] == s);
                }
                self.lemma_none_beside(w, s, g, ends, f, at);
                lemma_times(factor_value(row[i], f, at), 0real, 0real);
            }
            self.lemma_row_sum_zero(row, n, ends, f, at);
        }
    }

    /// After the shrink every path from the root to `g` still passes
    /// through `s`, if every such path did before.
    pub proof fn lemma_still_through(
        &self,
        after: &Deriv,
        fsub: (usize, usize),
        s: usize,
        g: usize,
        doms: Seq<Set<usize>>,
        pdoms: Seq<Set<usize>>,
        folded: Expr,
        n: int,
    )
        requires
            self.thinned(after, fsub, s, g, doms, pdoms, folded),
            self.all_through(n, s as int, g as int),
        ensures
            after.all_through(n, s as int, g as int),
    {
        assert forall|p: Seq<int>|
            #[trigger] after.is_path(p) && p[0] == n && p.last() == g implies p.contains(
            s as int,
        ) by {
            if !p.contains(s as int) {
                assert forall|k: int| 0 <= k < p.len() - 1 implies self.has_edge(
                    #[trigger] p[k],
                    p[k + 1],
                ) by {
                    let u = p[k];
                    let v = p[k + 1];
                    assert(after.has_edge(u, v));
                    assert(u != s);
                    let row = self.graph@[u]@;
                    let gone = self.gone_at(fsub, doms, pdoms, u as usize);
                    self.lemma_row_after(after, fsub, s, g, doms, pdoms, folded, u);
                    lemma_kept_members(row, 0, gone);
                    let stay = kept(row, 0, gone);
                    let j = choose|j: int|
                        0 <= j < after.graph@[u]@.len() && (#[trigger] after.graph@[u]@[j]).to == v;
                    let i = choose|i: int| 0 <= i < row.len() && !gone(0 + i) && row[i] == stay[j];
                    assert(row[i].to == v);
                }
                assert(self.is_path(p));
            }
        }
    }

    /// After the shrink no path leads to `g` from a node that `s` reaches,
    /// but from `s` itself: the edges that stay at such a node add nothing to
    /// the sum over the paths to `g`, and the sum is zero at the node.
    pub proof fn lemma_inner_zero(
        &self,
        after: &Deriv,
        fsub: (usize, usize),
        s: usize,
        g: usize,
        doms: Seq<Set<usize>>,
        pdoms: Seq<Set<usize>>,
        folded: Expr,
        n: int,
        p: Seq<Step>,
        f: Functions,
        at: spec_fn(nat) -> real,
    )
        requires
            self.thinned(after, fsub, s, g, doms, pdoms, folded),
            fsub == (s, g),
            pdoms[g as int].contains(g),
            0 <= n < self.size,
            self.paths_from(s as int, n).contains(p),
        ensures
            !self.leafs@.contains_key(n as usize) ==> forall|i: int|
                0 <= i < self.graph@[n]@.len() && !self.gone_at(fsub, doms, pdoms, n as usize)(
                    0 + i,
                ) ==> after.edge_value(
                    #[trigger] self.graph@[n]@[i],
                    n,
                    self.ends_to(g as int),
                    f,
                    at,
                ) == 0real,
            n != s && n != g ==> after.weight(n, self.ends_to(g as int), f, at) == 0real,
        decreases n,
    {
        let ends = self.ends_to(g as int);
        let row = self.graph@[n]@;
        let gone = self.gone_at(fsub, doms, pdoms, n as usize);
        self.lemma_path_sources(s as int, n, p);
        self.lemma_row_after(after, fsub, s, g, doms, pdoms, folded, n);
        assert(row.len() == self.graph@[n].len());
        if !self.leafs@.contains_key(n as usize) {
            assert forall|i: int| 0 <= i < row.len() && !gone(0 + i) implies after.edge_value(
                #[trigger] row[i],
                n,
                ends,
                f,
                at,
            ) == 0real by {
                let w = row[i].to as int;
                let step = (n as usize, i as usize);
                assert(0 <= w < n);
                self.lemma_path_extends(s as int, n, i, p);
                let longer = p.push(step);
                if w == g {
                    let paths = self.paths_from(s as int, g as int);
                    let k = choose|k: int| 0 <= k < paths.len() && paths[k] == longer;
                    assert(paths[k][p.len() as int] == step);
                    assert(on_paths(paths, step));
                    assert(self.removed(fsub, doms, pdoms, step));
                } else {
                    self.lemma_inner_zero(after, fsub, s, g, doms, pdoms, folded, w, longer, f, at);
                    lemma_times(factor_value(row[i], f, at), 0real, 0real);
                }
            }
            if n != s && n != g {
                let stay = kept(row, 0, gone);
                lemma_kept_members(row, 0, gone);
                assert forall|j: int| 0 <= j < stay.len() implies after.edge_value(
                    #[trigger] stay[j],
                    n,
                    ends,
                    f,
                    at,
                ) == 0real by {
                    let i = choose|i: int| 0 <= i < row.len() && !gone(0 + i) && row[i] == stay[j];
                    assert(after.edge_value(row[i], n, ends, f, at) == 0real);
                }
                after.lemma_row_sum_zero(stay, n, ends, f, at);
            }
        }
    }

    /// After the shrink the sum over the paths from `s` to `g` is the value
    /// of the new edge, or zero if `s` is a leaf.
    pub proof fn lemma_span_kept(
        &self,
        after: &Deriv,
        fsub: (usize, usize),
        s: usize,
        g: usize,
        doms: Seq<Set<usize>>,
        pdoms: Seq<Set<usize>>,
        folded: Expr,
        f: Functions,
        at: spec_fn(nat) -> real,
    )
        requires
            self.thinned(after, fsub, s, g, doms, pdoms, folded),
            fsub == (s, g),
            pdoms[g as int].contains(g),
        ensures
            after.weight(s as int, self.ends_to(g as int), f, at) == if self.leafs@.contains_key(
                s,
            ) {
                0real
            } else {
                value(folded, f, at)
            },
    {
        let ends = self.ends_to(g as int);
        if !self.leafs@.contains_key(s) {
            let row = self.graph@[s as int]@;
            let gone = self.gone_at(fsub, doms, pdoms, s);
            let stay = kept(row, 0, gone);
            let none = Seq::<Step>::empty();
            assert(self.paths_from(s as int, s as int)[0] == none);
            assert(self.paths_from(s as int, s as int).contains(none));
            self.lemma_inner_zero(after, fsub, s, g, doms, pdoms, folded, s as int, none, f, at);
            self.lemma_row_after(after, fsub, s, g, doms, pdoms, folded, s as int);
            lemma_kept_members(row, 0, gone);
            assert forall|j: int| 0 <= j < stay.len() implies after.edge_value(
                #[trigger] stay[j],
                s as int,
                ends,
                f,
                at,
            ) == 0real by {
                let i = choose|i: int| 0 <= i < row.len() && !gone(0 + i) && row[i] == stay[j];
                assert(after.edge_value(row[i], s as int, ends, f, at) == 0real);
            }
            after.lemma_row_sum_zero(stay, s as int, ends, f, at);
            let fresh = Edge { to: g, exp: std::rc::Rc::new(folded) };
            assert(after.graph@[s as int]@ == stay.push(fresh));
            assert(stay.push(fresh).drop_last() =~= stay);
            assert(stay.push(fresh).last() == fresh);
            assert(after.weight(g as int, ends, f, at) == 1real);
            lemma_times(factor_value(fresh, f, at), 0real, 0real);
            assert(after.edge_value(fresh, s as int, ends, f, at) == value(folded, f, at));
        }
    }

    /// The value of the product of a path.
    pub open spec fn product_value(&self, path: Seq<Step>, f: Functions, at: spec_fn(nat) -> real) -> real {
        value(self.path_product(path), f, at)
    }

    /// The value of the sum over paths.
    pub open spec fn sum_value(&self, paths: Seq<Seq<Step>>, f: Functions, at: spec_fn(nat) -> real) -> real {
        value(self.paths_sum(paths), f, at)
    }

    /// The product of a path with one more edge is the product of the path
    /// times the value of the edge.
    pub proof fn lemma_product_step(
        &self,
        path: Seq<Step>,
        step: Step,
        f: Functions,
        at: spec_fn(nat) -> real,
    )
        ensures
            self.product_value(Seq::<Step>::empty(), f, at) == 1real,
            self.product_value(path.push(step), f, at) == times(
                self.product_value(path, f, at),
                factor_value(self.graph@[step.0 as int]@[step.1 as int], f, at),
            ),
    {
        lemma_num(1);
        let longer = path.push(step);
        assert(longer.drop_last() =~= path);
        assert(longer.last() == step);
        let edge = self.graph@[step.0 as int]@[step.1 as int];
        assert(self.path_product(longer) == binop(
            Bop::Mul,
            self.path_product(path),
            crate::expr::pointee(&edge.exp),
        ));
        lemma_times(self.product_value(path, f, at), factor_value(edge, f, at), 0real);
    }

    /// The product of two paths, one behind the other, is the product of
    /// their products.
    pub proof fn lemma_product_add(
        &self,
        a: Seq<Step>,
        b: Seq<Step>,
        f: Functions,
        at: spec_fn(nat) -> real,
    )
        ensures
            self.product_value(a + b, f, at) == times(
                self.product_value(a, f, at),
                self.product_value(b, f, at),
            ),
        decreases b.len(),
    {
        if b.len() == 0 {
            assert(a + b =~= a);
            self.lemma_product_step(a, (0usize, 0usize), f, at);
            lemma_times(self.product_value(a, f, at), 0real, 0real);
        } else {
            let front = b.drop_last();
            let step = b.last();
            self.lemma_product_add(a, front, f, at);
            assert(a + b =~= (a + front).push(step));
            assert(b =~= front.push(step));
            self.lemma_product_step(a + front, step, f, at);
            self.lemma_product_step(front, step, f, at);
            lemma_times(
                self.product_value(a, f, at),
                self.product_value(front, f, at),
                factor_value(self.graph@[step.0 as int]@[step.1 as int], f, at),
            );
        }
    }

    /// The sum over one more path is the sum before plus the product of the
    /// path.
    pub proof fn lemma_sum_step(
        &self,
        paths: Seq<Seq<Step>>,
        path: Seq<Step>,
        f: Functions,
        at: spec_fn(nat) -> real,
    )
        ensures
            self.sum_value(Seq::<Seq<Step>>::empty(), f, at) == 0real,
            self.sum_value(paths.push(path), f, at) == self.sum_value(paths, f, at)
                + self.product_value(path, f, at),
    {
        lemma_num(0);
        let longer = paths.push(path);
        assert(longer.drop_last() =~= paths);
        assert(longer.last() == path);
        assert(self.paths_sum(longer) == binop(
            Bop::Add,
            self.paths_sum(paths),
            self.path_product(path),
        ));
    }

    /// The sum over two lists of paths is the sum of their sums.
    pub proof fn lemma_sum_add(
        &self,
        a: Seq<Seq<Step>>,
        b: Seq<Seq<Step>>,
        f: Functions,
        at: spec_fn(nat) -> real,
    )
        ensures
            self.sum_value(a + b, f, at) == self.sum_value(a, f, at) + self.sum_value(b, f, at),
        decreases b.len(),
    {
        if b.len() == 0 {
            assert(a + b =~= a);
            self.lemma_sum_step(a, Seq::<Step>::empty(), f, at);
        } else {
            let front = b.drop_last();
            self.lemma_sum_add(a, front, f, at);
            assert(a + b =~= (a + front).push(b.last()));
            assert(b =~= front.push(b.last()));
            self.lemma_sum_step(a + front, b.last(), f, at);
            self.lemma_sum_step(front, b.last(), f, at);
        }
    }

    /// The sum over paths that all begin with the same edges is the product
    /// of those edges times the sum over what follows them.
    pub proof fn lemma_sum_prefixed(
        &self,
        prefix: Seq<Step>,
        paths: Seq<Seq<Step>>,
        f: Functions,
        at: spec_fn(nat) -> real,
    )
        ensures
            self.sum_value(prefixed(prefix, paths), f, at) == times(
                self.product_value(prefix, f, at),
                self.sum_value(paths, f, at),
            ),
        decreases paths.len(),
    {
        let c = self.product_value(prefix, f, at);
        if paths.len() == 0 {
            assert(prefixed(prefix, paths) =~= Seq::<Seq<Step>>::empty());
            self.lemma_sum_step(paths, prefix, f, at);
            assert(paths =~= Seq::<Seq<Step>>::empty());
            lemma_times(c, 0real, 0real);
        } else {
            let front = paths.drop_last();
            let last = paths.last();
            self.lemma_sum_prefixed(prefix, front, f, at);
            assert(prefixed(prefix, paths) =~= prefixed(prefix, front).push(prefix + last));
            assert(paths =~= front.push(last));
            self.lemma_sum_step(prefixed(prefix, front), prefix + last, f, at);
            self.lemma_sum_step(front, last, f, at);
            self.lemma_product_add(prefix, last, f, at);
            lemma_times(c, self.sum_value(front, f, at), self.product_value(last, f, at));
        }
    }

    /// The sum over the paths from a node to `goal` that begin with one of
    /// the first `k` edges of the node is the sum over those edges of the
    /// row of the node.
    pub proof fn lemma_span_via(
        &self,
        cur: int,
        goal: int,
        k: int,
        f: Functions,
        at: spec_fn(nat) -> real,
    )
        requires
            self.wf(),
            0 <= cur < self.size,
            0 <= k <= self.graph@[cur]@.len(),
        ensures
            self.sum_value(self.paths_via(cur, goal, k), f, at) == self.row_sum(
                self.graph@[cur]@.take(k),
                cur,
                self.ends_to(goal),
                f,
                at,
            ),
        decreases cur, 0int, k,
    {
        let row = self.graph@[cur]@;
        let ends = self.ends_to(goal);
        if k == 0 {
            assert(row.take(0) =~= Seq::<Edge>::empty());
            self.lemma_sum_step(Seq::<Seq<Step>>::empty(), Seq::<Step>::empty(), f, at);
            assert(self.paths_via(cur, goal, 0) =~= Seq::<Seq<Step>>::empty());
        } else {
            let edge = row[k - 1];
            let to = edge.to as int;
            assert(0 <= to < cur);
            let step = (cur as usize, (k - 1) as usize);
            let deeper = self.paths_from(to, goal);
            self.lemma_span_via(cur, goal, k - 1, f, at);
            self.lemma_span_from(to, goal, f, at);
            self.lemma_sum_add(self.paths_via(cur, goal, k - 1), prefixed(seq![step], deeper), f, at);
            self.lemma_sum_prefixed(seq![step], deeper, f, at);
            assert(row.len() == self.graph@[cur].len());
            assert(seq![step] =~= Seq::<Step>::empty().push(step));
            self.lemma_product_step(Seq::<Step>::empty(), step, f, at);
            lemma_times(factor_value(edge, f, at), 0real, 0real);
            assert(self.product_value(seq![step], f, at) == factor_value(edge, f, at));
            assert(row.take(k).drop_last() =~= row.take(k - 1));
            assert(row.take(k).last() == edge);
            assert(self.edge_value(edge, cur, ends, f, at) == times(
                factor_value(edge, f, at),
                self.weight(to, ends, f, at),
            ));
        }
    }

    /// The sum over the paths from a node to `goal`, as `shrink` writes it,
    /// has the value of the node where walks end at `goal` with the value
    /// one.
    pub proof fn lemma_span_from(&self, cur: int, goal: int, f: Functions, at: spec_fn(nat) -> real)
        requires
            self.wf(),
            0 <= cur < self.size,
        ensures
            self.sum_value(self.paths_from(cur, goal), f, at) == self.weight(
                cur,
                self.ends_to(goal),
                f,
                at,
            ),
        decreases cur, 1int, 0int,
    {
        let none = Seq::<Step>::empty();
        if cur == goal {
            assert(self.paths_from(cur, goal) =~= Seq::<Seq<Step>>::empty().push(none));
            self.lemma_sum_step(Seq::<Seq<Step>>::empty(), none, f, at);
            self.lemma_product_step(none, (0usize, 0usize), f, at);
        } else if self.leafs@.contains_key(cur as usize) {
            self.lemma_sum_step(Seq::<Seq<Step>>::empty(), none, f, at);
        } else {
            let row = self.graph@[cur]@;
            self.lemma_span_via(cur, goal, row.len() as int, f, at);
            assert(row.take(row.len() as int) =~= row);
        }
    }

    /// Shrinking between a dominator and a node it dominates keeps the value
    /// of the graph. `s` and `g` are the greater and the smaller node of the
    /// pair; every path from the root to `g` passes through `s`; the sets of
    /// post-dominators hold `g` for `g` itself and else only for nodes that
    /// `g` post-dominates in the graph as it is; and the sum over the paths
    /// from `s` to `g` has a value at the point.
    pub proof fn lemma_shrink_keeps_value(
        &self,
        after: &Deriv,
        fsub: (usize, usize),
        s: usize,
        g: usize,
        doms: Seq<Set<usize>>,
        pdoms: Seq<Set<usize>>,
        folded: Expr,
        f: Functions,
        at: spec_fn(nat) -> real,
    )
        requires
            self.thinned(after, fsub, s, g, doms, pdoms, folded),
            fsub == (s, g),
            self.sound_for(pdoms, g),
            self.dominates(s as int, g as int),
            same_value(self.span_sum(fsub), folded),
            lawful(f),
            defined(self.span_sum(fsub), f, at),
        ensures
            after.path_value(after.root as int, f, at) == self.path_value(self.root as int, f, at),
    {
        let root = self.root as int;
        let si = s as int;
        let gi = g as int;
        let leaf = self.leaf_ends();
        let to = self.ends_to(gi);
        let past = cut_ends(leaf, gi, 0real);
        let beside = cut_ends(to, si, 0real);
        let upto = cut_ends(self.ends_nowhere(gi), si, 1real);
        self.lemma_row_after(after, fsub, s, g, doms, pdoms, folded, root);
        assert(after.leaf_ends() =~= leaf);
        assert(after.ends_to(gi) =~= to);
        assert(after.ends_nowhere(gi) =~= self.ends_nowhere(gi));
        // The value of the root, split at `g`, before and after.
        self.lemma_split_at(root, gi, f, at);
        after.lemma_split_at(root, gi, f, at);
        self.lemma_past_kept(after, fsub, s, g, doms, pdoms, folded, root, f, at);
        self.lemma_below_kept(after, fsub, s, g, doms, pdoms, folded);
        after.lemma_weight_same(self, gi, leaf, f, at);
        // The paths from the root to `g`, split at `s`, before and after.
        self.lemma_split_paths(root, si, gi, f, at);
        after.lemma_split_paths(root, si, gi, f, at);
        assert(self.all_through(root, si, gi));
        self.lemma_none_beside(root, si, gi, beside, f, at);
        self.lemma_still_through(after, fsub, s, g, doms, pdoms, folded, root);
        after.lemma_none_beside(root, si, gi, beside, f, at);
        self.lemma_to_dominator_kept(after, fsub, s, g, doms, pdoms, folded, root, upto, f, at);
        // The paths from `s` to `g`, before and after.
        self.lemma_span_kept(after, fsub, s, g, doms, pdoms, folded, f, at);
        self.lemma_span_from(si, gi, f, at);
        assert(self.span_sum(fsub) == self.paths_sum(self.paths_from(si, gi)));
        assert(after.weight(si, to, f, at) == self.weight(si, to, f, at));
        assert(after.weight(root, to, f, at) == self.weight(root, to, f, at));
    }

    /// What follows an edge on a path from `cur` to `goal` is a path from
    /// the node the edge leads to.
    pub proof fn lemma_path_rest(&self, cur: int, goal: int, p: Seq<Step>, j: int)
        requires
            self.wf(),
            0 <= cur < self.size,
            self.paths_from(cur, goal).contains(p),
            0 <= j < p.len(),
        ensures
            p[j].0 < self.size,
            p[j].1 < self.graph@[p[j].0 as int]@.len(),
            self.paths_from(self.graph@[p[j].0 as int]@[p[j].1 as int].to as int, goal).contains(
                p.skip(j + 1),
            ),
        decreases cur,
    {
        self.lemma_path_sources(cur, goal, p);
        assert(cur != goal);
        assert(!self.leafs@.contains_key(cur as usize)) by {
            if self.leafs@.contains_key(cur as usize) {
                let all = self.paths_from(cur, goal);
                let idx = choose|idx: int| 0 <= idx < all.len() && all[idx] == p;
            }
        }
        self.lemma_via_parts(cur, goal, self.graph@[cur]@.len() as int, p);
        let to = self.graph@[cur]@[p[0].1 as int].to as int;
        assert(0 <= to < cur);
        let rest = p.drop_first();
        if j == 0 {
            assert(p.skip(1) =~= rest);
        } else {
            self.lemma_path_rest(to, goal, rest, j - 1);
            assert(rest[j - 1] == p[j]);
            assert(rest.skip(j) =~= p.skip(j + 1));
        }
    }

    /// A node from which no path leads to `g` keeps its edges.
    pub proof fn lemma_dead_row(
        &self,
        after: &Deriv,
        fsub: (usize, usize),
        s: usize,
        g: usize,
        doms: Seq<Set<usize>>,
        pdoms: Seq<Set<usize>>,
        folded: Expr,
        n: int,
    )
        requires
            self.thinned(after, fsub, s, g, doms, pdoms, folded),
            0 <= n < s,
            self.paths_from(n, g as int).len() == 0,
            !self.leafs@.contains_key(n as usize),
        ensures
            after.graph@[n]@ == self.graph@[n]@,
            forall|i: int|
                0 <= i < self.graph@[n]@.len() ==> self.paths_from(
                    (#[trigger] self.graph@[n]@[i]).to as int,
                    g as int,
                ).len() == 0,
    {
        let row = self.graph@[n]@;
        let gone = self.gone_at(fsub, doms, pdoms, n as usize);
        let len = row.len() as int;
        self.lemma_row_after(after, fsub, s, g, doms, pdoms, folded, n);
        assert(row.len() == self.graph@[n].len());
        assert(n != g) by {
            if n == g {
                assert(self.paths_from(n, g as int).len() == 1);
            }
        }
        assert forall|i: int| 0 <= i < row.len() implies self.paths_from(
            (#[trigger] row[i]).to as int,
            g as int,
        ).len() == 0 by {
            let deeper = self.paths_from(row[i].to as int, g as int);
            if deeper.len() > 0 {
                assert(deeper.contains(deeper[0]));
                self.lemma_via_holds(n, g as int, len, i, deeper[0]);
            }
        }
        assert forall|i: int| 0 <= i < row.len() implies !#[trigger] gone(0 + i) by {
            let step = (n as usize, i as usize);
            if self.removed(fsub, doms, pdoms, step) {
                let paths = self.paths_from(s as int, g as int);
                let (k, j) = choose|k: int, j: int|
                    0 <= k < paths.len() && 0 <= j < paths[k].len() && #[trigger] paths[k][j]
                        == step;
                let path = paths[k];
                assert(paths.contains(path));
                self.lemma_path_rest(s as int, g as int, path, j);
                assert(path[j] == step);
            }
        }
        lemma_kept_all(row, 0, gone);
    }

    /// A node from which no path leads to `g` keeps its value.
    pub proof fn lemma_dead_kept(
        &self,
        after: &Deriv,
        fsub: (usize, usize),
        s: usize,
        g: usize,
        doms: Seq<Set<usize>>,
        pdoms: Seq<Set<usize>>,
        folded: Expr,
        n: int,
        f: Functions,
        at: spec_fn(nat) -> real,
    )
        requires
            self.thinned(after, fsub, s, g, doms, pdoms, folded),
            0 <= n < s,
            self.paths_from(n, g as int).len() == 0,
        ensures
            after.weight(n, self.leaf_ends(), f, at) == self.weight(n, self.leaf_ends(), f, at),
        decreases n,
    {
        let ends = self.leaf_ends();
        if ends(n) is None {
            let row = self.graph@[n]@;
            self.lemma_dead_row(after, fsub, s, g, doms, pdoms, folded, n);
            assert forall|i: int| 0 <= i < row.len() implies after.edge_value(
                #[trigger] row[i],
                n,
                ends,
                f,
                at,
            ) == self.edge_value(row[i], n, ends, f, at) by {
                let w = row[i].to as int;
                if 0 <= w < n {
                    self.lemma_dead_kept(after, fsub, s, g, doms, pdoms, folded, w, f, at);
                }
            }
            after.lemma_row_equal(self, row, n, ends, ends, f, at);
        }
    }

    /// After a shrink between a post-dominator and a node it post-dominates,
    /// a node that the root reaches by a path that passes by `s` keeps the
    /// sum over its own paths that pass by `s`.
    pub proof fn lemma_beside_kept(
        &self,
        after: &Deriv,
        fsub: (usize, usize),
        s: usize,
        g: usize,
        doms: Seq<Set<usize>>,
        pdoms: Seq<Set<usize>>,
        folded: Expr,
        n: int,
        r: Seq<int>,
        f: Functions,
        at: spec_fn(nat) -> real,
    )
        requires
            self.thinned(after, fsub, s, g, doms, pdoms, folded),
            fsub == (g, s),
            forall|u: int|
                0 <= u < self.size && (#[trigger] doms[u]).contains(s) ==> self.dominates(
                    s as int,
                    u,
                ),
            0 <= n < self.size,
            self.is_path(r),
            r[0] == self.root,
            r.last() == n,
            !r.contains(s as int),
        ensures
            after.weight(n, cut_ends(self.leaf_ends(), s as int, 0real), f, at) == self.weight(
                n,
                cut_ends(self.leaf_ends(), s as int, 0real),
                f,
                at,
            ),
        decreases n,
    {
        let ends = cut_ends(self.leaf_ends(), s as int, 0real);
        if ends(n) is None {
            let row = self.graph@[n]@;
            let gone = self.gone_at(fsub, doms, pdoms, n as usize);
            self.lemma_row_after(after, fsub, s, g, doms, pdoms, folded, n);
            assert(row.len() == self.graph@[n].len());
            assert(n != s);
            assert forall|i: int| 0 <= i < row.len() implies !#[trigger] gone(0 + i) by {
                let step = (n as usize, i as usize);
                if self.removed(fsub, doms, pdoms, step) {
                    self.lemma_removed(fsub, s, g, doms, pdoms, step);
                    assert(doms[n].contains(s));
                    assert(self.dominates(s as int, n));
                    assert(r.contains(s as int));
                }
            }
            lemma_kept_all(row, 0, gone);
            assert forall|i: int| 0 <= i < row.len() implies after.edge_value(
                #[trigger] row[i],
                n,
                ends,
                f,
                at,
            ) == self.edge_value(row[i], n, ends, f, at) by {
                let w = row[i].to as int;
                assert(0 <= w < n);
                if w != s {
                    let longer = r.push(w);
                    assert(self.has_edge(n, w));
                    assert forall|k: int| 0 <= k < longer.len() - 1 implies self.has_edge(
                        #[trigger] longer[k],
                        longer[k + 1],
                    ) by {
                        if k < r.len() - 1 {
                            assert(self.has_edge(r[k], r[k + 1]));
                        }
                    }
                    assert(self.is_path(longer));
                    assert(!longer.contains(s as int)) by {
                        if longer.contains(s as int) {
                            let k = choose|k: int| 0 <= k < longer.len() && longer[k] == s;
                            assert(r[k] == s);
                        }
                    }
                    self.lemma_beside_kept(
                        after,
                        fsub,
                        s,
                        g,
                        doms,
                        pdoms,
                        folded,
                        w,
                        longer,
                        f,
                        at,
                    );
                }
            }
            after.lemma_row_equal(self, row, n, ends, ends, f, at);
        }
    }

    /// After a shrink between a post-dominator `g` and a node `s` that it
    /// post-dominates, `s` has the value it had.
    pub proof fn lemma_start_kept(
        &self,
        after: &Deriv,
        fsub: (usize, usize),
        s: usize,
        g: usize,
        doms: Seq<Set<usize>>,
        pdoms: Seq<Set<usize>>,
        folded: Expr,
        f: Functions,
        at: spec_fn(nat) -> real,
    )
        requires
            self.thinned(after, fsub, s, g, doms, pdoms, folded),
            fsub == (g, s),
            doms[s as int].contains(s),
            self.post_dominates(g as int, s as int),
            same_value(self.span_sum(fsub), folded),
            lawful(f),
            defined(self.span_sum(fsub), f, at),
        ensures
            after.weight(s as int, self.leaf_ends(), f, at) == self.weight(
                s as int,
                self.leaf_ends(),
                f,
                at,
            ),
    {
        let si = s as int;
        let gi = g as int;
        let leaf = self.leaf_ends();
        if leaf(si) is None {
            let row = self.graph@[si]@;
            let gone = self.gone_at(fsub, doms, pdoms, s);
            let stay = kept(row, 0, gone);
            let len = row.len() as int;
            let vg = self.weight(gi, leaf, f, at);
            self.lemma_row_after(after, fsub, s, g, doms, pdoms, folded, si);
            assert(row.len() == self.graph@[si].len());
            // Before: all paths from `s` pass through `g`.
            self.lemma_split_at(si, gi, f, at);
            self.lemma_no_way_past(si, gi, f, at);
            self.lemma_span_from(si, gi, f, at);
            assert(self.span_sum(fsub) == self.paths_sum(self.paths_from(si, gi)));
            let span = value(folded, f, at);
            assert(self.weight(si, self.ends_to(gi), f, at) == span);
            lemma_times(vg, span, 0real);
            assert(self.weight(si, leaf, f, at) == times(span, vg));
            // After: the edges that stay lead nowhere, the new edge leads to `g`.
            self.lemma_below_kept(after, fsub, s, g, doms, pdoms, folded);
            after.lemma_weight_same(self, gi, leaf, f, at);
            self.lemma_post_dominators_of_node(gi, si);
            lemma_kept_members(row, 0, gone);
            assert forall|j: int| 0 <= j < stay.len() implies after.edge_value(
                #[trigger] stay[j],
                si,
                leaf,
                f,
                at,
            ) == 0real by {
                let i = choose|i: int| 0 <= i < row.len() && !gone(0 + i) && row[i] == stay[j];
                let w = row[i].to as int;
                let step = (s, i as usize);
                assert(0 <= w < si);
                assert(self.has_edge(si, w));
                let deeper = self.paths_from(w, gi);
                if deeper.len() > 0 {
                    assert(deeper.contains(deeper[0]));
                    self.lemma_via_holds(si, gi, len, i, deeper[0]);
                    let paths = self.paths_from(si, gi);
                    let longer = seq![(si as usize, i as usize)] + deeper[0];
                    let k = choose|k: int| 0 <= k < paths.len() && paths[k] == longer;
                    assert(paths[k][0] == step);
                    assert(on_paths(paths, step));
                    assert(self.removed(fsub, doms, pdoms, step));
                }
                self.lemma_dead_kept(after, fsub, s, g, doms, pdoms, folded, w, f, at);
                self.lemma_split_at(w, gi, f, at);
                self.lemma_no_way_past(w, gi, f, at);
                self.lemma_span_from(w, gi, f, at);
                self.lemma_sum_step(Seq::<Seq<Step>>::empty(), Seq::<Step>::empty(), f, at);
                assert(deeper =~= Seq::<Seq<Step>>::empty());
                lemma_times(vg, 0real, 0real);
                assert(self.weight(w, leaf, f, at) == 0real);
                lemma_times(factor_value(row[i], f, at), 0real, 0real);
            }
            after.lemma_row_sum_zero(stay, si, leaf, f, at);
            let fresh = Edge { to: g, exp: std::rc::Rc::new(folded) };
            assert(after.graph@[si]@ == stay.push(fresh));
            assert(stay.push(fresh).drop_last() =~= stay);
            assert(stay.push(fresh).last() == fresh);
            assert(after.edge_value(fresh, si, leaf, f, at) == times(span, vg));
        }
    }

    /// Shrinking between a post-dominator and a node it post-dominates keeps
    /// the value of the graph. `s` and `g` are the greater and the smaller
    /// node of the pair, which begins with `g`; every path from `s` to a leaf
    /// passes through `g`; the sets of dominators hold `s` for `s` itself and
    /// else only for nodes that `s` dominates in the graph as it is; and the
    /// sum over the paths from `s` to `g` has a value at the point.
    pub proof fn lemma_shrink_keeps_value_post(
        &self,
        after: &Deriv,
        fsub: (usize, usize),
        s: usize,
        g: usize,
        doms: Seq<Set<usize>>,
        pdoms: Seq<Set<usize>>,
        folded: Expr,
        f: Functions,
        at: spec_fn(nat) -> real,
    )
        requires
            self.thinned(after, fsub, s, g, doms, pdoms, folded),
            fsub == (g, s),
            doms[s as int].contains(s),
            forall|u: int|
                0 <= u < self.size && (#[trigger] doms[u]).contains(s) ==> self.dominates(
                    s as int,
                    u,
                ),
            self.post_dominates(g as int, s as int),
            same_value(self.span_sum(fsub), folded),
            lawful(f),
            defined(self.span_sum(fsub), f, at),
        ensures
            after.path_value(after.root as int, f, at) == self.path_value(self.root as int, f, at),
    {
        let root = self.root as int;
        let si = s as int;
        let leaf = self.leaf_ends();
        let to = self.ends_to(si);
        self.lemma_row_after(after, fsub, s, g, doms, pdoms, folded, root);
        assert(after.leaf_ends() =~= leaf);
        assert(after.ends_to(si) =~= to);
        self.lemma_start_kept(after, fsub, s, g, doms, pdoms, folded, f, at);
        if root != si {
            self.lemma_split_at(root, si, f, at);
            after.lemma_split_at(root, si, f, at);
            let r = seq![root];
            assert(self.is_path(r));
            assert(!r.contains(si)) by {
                if r.contains(si) {
                    let k = choose|k: int| 0 <= k < r.len() && r[k] == si;
                }
            }
            self.lemma_beside_kept(after, fsub, s, g, doms, pdoms, folded, root, r, f, at);
            self.lemma_to_dominator_kept(after, fsub, s, g, doms, pdoms, folded, root, to, f, at);
        }
    }

    /// One shrink with the dominators and post-dominators of the graph as it
    /// is keeps the value of the graph: between a node and a smaller one that
    /// it dominates, and between a node and a greater one that it
    /// post-dominates. The sum over the paths between the two must have a
    /// value at the point.
    pub proof fn lemma_shrink_keeps_value_of(
        &self,
        after: &Deriv,
        fsub: (usize, usize),
        folded: Expr,
        f: Functions,
        at: spec_fn(nat) -> real,
    )
        requires
            self.wf(),
            fsub.0 < self.size,
            fsub.1 < self.size,
            (fsub.0 > fsub.1 && self.dominates(fsub.0 as int, fsub.1 as int)) || (fsub.0 < fsub.1
                && self.post_dominates(fsub.0 as int, fsub.1 as int)),
            self.shrunk_to(
                after,
                fsub,
                self.dominator_sets(),
                self.post_dominator_sets(),
                folded,
            ),
            same_value(self.span_sum(fsub), folded),
            lawful(f),
            defined(self.span_sum(fsub), f, at),
        ensures
            after.path_value(after.root as int, f, at) == self.path_value(self.root as int, f, at),
    {
        let doms = self.dominator_sets();
        let pdoms = self.post_dominator_sets();
        if fsub.0 > fsub.1 {
            let s = fsub.0;
            let g = fsub.1;
            self.lemma_post_dominates_self(g as int);
            assert(pdoms[g as int].contains(g));
            assert forall|v: int|
                0 <= v < self.size && (#[trigger] pdoms[v]).contains(g) implies self.post_dominates(
                g as int,
                v,
            ) by {}
            self.lemma_shrink_keeps_value(after, fsub, s, g, doms, pdoms, folded, f, at);
        } else {
            let s = fsub.1;
            let g = fsub.0;
            self.lemma_dominates_self(s as int);
            assert(doms[s as int].contains(s));
            assert forall|u: int|
                0 <= u < self.size && (#[trigger] doms[u]).contains(s) implies self.dominates(
                s as int,
                u,
            ) by {}
            self.lemma_shrink_keeps_value_post(after, fsub, s, g, doms, pdoms, folded, f, at);
        }
    }

    /// A shrink between a pair of candidates keeps the value of the graph,
    /// where the dominators and post-dominators are those of the graph as
    /// it is, every node but the root has an edge that leads to it, and the
    /// leaves are the nodes that no edge leaves, as in every graph that was
    /// built from an expression. The sum over the paths between the two nodes
    /// must have a value at the point.
    pub proof fn lemma_candidate_keeps_value(
        &self,
        after: &Deriv,
        fsub: (usize, usize),
        folded: Expr,
        f: Functions,
        at: spec_fn(nat) -> real,
    )
        requires
            self.wf(),
            self.rooted(),
            self.leaves_are_ends(),
            fsub.0 < self.size,
            fsub.1 < self.size,
            self.dom_candidate(self.dominator_sets(), fsub.0 as int, fsub.1 as int)
                || self.pdom_candidate(self.post_dominator_sets(), fsub.0 as int, fsub.1 as int),
            self.shrunk_to(
                after,
                fsub,
                self.dominator_sets(),
                self.post_dominator_sets(),
                folded,
            ),
            same_value(self.span_sum(fsub), folded),
            lawful(f),
            defined(self.span_sum(fsub), f, at),
        ensures
            after.path_value(after.root as int, f, at) == self.path_value(self.root as int, f, at),
    {
        self.lemma_candidate_order(fsub);
        self.lemma_shrink_keeps_value_of(after, fsub, folded, f, at);
    }

    /// The first node of a candidate dominates the second and is the
    /// greater one, or post-dominates it and is the smaller one.
    pub proof fn lemma_candidate_order(&self, fsub: (usize, usize))
        requires
            self.wf(),
            self.rooted(),
            self.leaves_are_ends(),
            fsub.0 < self.size,
            fsub.1 < self.size,
            self.dom_candidate(self.dominator_sets(), fsub.0 as int, fsub.1 as int)
                || self.pdom_candidate(self.post_dominator_sets(), fsub.0 as int, fsub.1 as int),
        ensures
            (fsub.0 > fsub.1 && self.dominates(fsub.0 as int, fsub.1 as int)) || (fsub.0 < fsub.1
                && self.post_dominates(fsub.0 as int, fsub.1 as int)),
    {
        if self.dom_candidate(self.dominator_sets(), fsub.0 as int, fsub.1 as int) {
            assert(self.dominator_sets()[fsub.1 as int].contains(fsub.0));
            self.lemma_dominator_above(fsub.0 as int, fsub.1 as int);
        } else {
            assert(self.post_dominator_sets()[fsub.1 as int].contains(fsub.0));
            self.lemma_post_dominator_below(fsub.0 as int, fsub.1 as int);
        }
    }

    /// In a graph whose leaves are the nodes that no edge leaves, a walk
    /// from `s` to `u` along edges is one of the paths from `s` to `u`.
    pub proof fn lemma_walk_is_listed(&self, q: Seq<int>) -> (p: Seq<Step>)
        requires
            self.wf(),
            self.leaves_are_ends(),
            self.is_path(q),
        ensures
            self.paths_from(q[0], q.last()).contains(p),
        decreases q.len(),
    {
        let s = q[0];
        let u = q.last();
        if q.len() == 1 {
            let none = Seq::<Step>::empty();
            assert(self.paths_from(s, s)[0] == none);
            none
        } else {
            self.lemma_path_falls(q, 0, q.len() - 1);
            assert(self.has_edge(q[0], q[0int + 1]));
            let row = self.graph@[s]@;
            let i = choose|i: int| 0 <= i < row.len() && (#[trigger] row[i]).to == q[1];
            assert(row.len() == self.graph@[s].len());
            assert(!self.leafs@.contains_key(s as usize));
            let rest = q.drop_first();
            assert forall|k: int| 0 <= k < rest.len() - 1 implies self.has_edge(
                #[trigger] rest[k],
                rest[k + 1],
            ) by {
                assert(self.has_edge(q[k + 1], q[k + 1 + 1]));
            }
            assert(self.is_path(rest));
            let deeper = self.lemma_walk_is_listed(rest);
            assert(rest.last() == u);
            self.lemma_via_holds(s, u, row.len() as int, i, deeper);
            seq![(s as usize, i as usize)] + deeper
        }
    }

    /// An edge that leads to a node `g` is taken out by a shrink between `g`
    /// and a greater node `s` that dominates it.
    pub proof fn lemma_into_goal_removed(&self, s: usize, g: usize, step: Step)
        requires
            self.wf(),
            self.rooted(),
            self.leaves_are_ends(),
            g < s < self.size,
            self.dominates(s as int, g as int),
            step.0 < self.size,
            step.1 < self.graph@[step.0 as int]@.len(),
            self.graph@[step.0 as int]@[step.1 as int].to == g,
        ensures
            self.removed((s, g), self.dominator_sets(), self.post_dominator_sets(), step),
    {
        let u = step.0 as int;
        let i = step.1 as int;
        let r = self.lemma_reachable(u);
        let longer = r.push(g as int);
        assert(self.has_edge(u, g as int));
        assert forall|k: int| 0 <= k < longer.len() - 1 implies self.has_edge(
            #[trigger] longer[k],
            longer[k + 1],
        ) by {
            if k < r.len() - 1 {
                assert(self.has_edge(r[k], r[k + 1]));
            }
        }
        assert(self.is_path(longer));
        assert(longer[0] == r[0]);
        assert(longer.contains(s as int));
        let k = choose|k: int| 0 <= k < longer.len() && longer[k] == s;
        assert(k < r.len());
        let q = r.subrange(k, r.len() as int);
        assert forall|j: int| 0 <= j < q.len() - 1 implies self.has_edge(
            #[trigger] q[j],
            q[j + 1],
        ) by {
            assert(self.has_edge(r[k + j], r[k + j + 1]));
        }
        assert(self.is_path(q));
        let p = self.lemma_walk_is_listed(q);
        assert(q[0] == s && q.last() == u);
        assert(!self.leafs@.contains_key(u as usize));
        self.lemma_path_extends(s as int, u, i, p);
        let paths = self.paths_from(s as int, g as int);
        let whole = p.push((u as usize, i as usize));
        let idx = choose|idx: int| 0 <= idx < paths.len() && paths[idx] == whole;
        assert(paths[idx][p.len() as int] == step);
        assert(on_paths(paths, step));
        self.lemma_post_dominates_self(g as int);
        assert(self.post_dominator_sets()[g as int].contains(g));
    }

    /// An edge that leaves a node `s` is taken out by a shrink between `s`
    /// and a smaller node `g` that post-dominates it.
    pub proof fn lemma_out_of_start_removed(&self, s: usize, g: usize, i: usize)
        requires
            self.wf(),
            self.leaves_are_ends(),
            g < s < self.size,
            self.post_dominates(g as int, s as int),
            i < self.graph@[s as int]@.len(),
        ensures
            self.removed((g, s), self.dominator_sets(), self.post_dominator_sets(), (s, i)),
    {
        let row = self.graph@[s as int]@;
        let w = row[i as int].to as int;
        assert(0 <= w < s);
        assert(self.has_edge(s as int, w));
        let q = self.lemma_leaf_below(w);
        let longer = seq![s as int] + q;
        assert forall|k: int| 0 <= k < longer.len() - 1 implies self.has_edge(
            #[trigger] longer[k],
            longer[k + 1],
        ) by {
            if k >= 1 {
                assert(self.has_edge(q[k - 1], q[k - 1 + 1]));
            }
        }
        assert(self.is_path(longer));
        assert(longer.last() == q.last());
        assert(longer.contains(g as int));
        let k = choose|k: int| 0 <= k < longer.len() && longer[k] == g;
        assert(k >= 1);
        let walk = q.take(k);
        assert forall|j: int| 0 <= j < walk.len() - 1 implies self.has_edge(
            #[trigger] walk[j],
            walk[j + 1],
        ) by {
            assert(self.has_edge(q[j], q[j + 1]));
        }
        assert(self.is_path(walk));
        assert(walk[0] == w && walk.last() == g);
        let p = self.lemma_walk_is_listed(walk);
        assert(!self.leafs@.contains_key(s));
        self.lemma_via_holds(s as int, g as int, row.len() as int, i as int, p);
        let paths = self.paths_from(s as int, g as int);
        let whole = seq![(s, i)] + p;
        let idx = choose|idx: int| 0 <= idx < paths.len() && paths[idx] == whole;
        assert(paths[idx][0] == (s, i));
        assert(on_paths(paths, (s, i)));
        self.lemma_dominates_self(s as int);
        assert(self.dominator_sets()[s as int].contains(s));
    }
}

/// The count over more places is no smaller.
pub proof fn lemma_gone_count_grows(a: int, b: int, gone: spec_fn(int) -> bool)
    requires
        a <= b,
    ensures
        gone_count(a, gone) <= gone_count(b, gone),
    decreases b - a,
{
    if a < b {
        lemma_gone_count_grows(a, b - 1, gone);
    }
}

/// Two places that are both named count for two.
pub proof fn lemma_gone_count_two(len: int, i: int, j: int, gone: spec_fn(int) -> bool)
    requires
        0 <= i < j < len,
        gone(i),
        gone(j),
    ensures
        gone_count(len, gone) >= 2,
{
    lemma_gone_count_grows(0, i, gone);
    assert(gone_count(i + 1, gone) == gone_count(i, gone) + 1);
    lemma_gone_count_grows(i + 1, j, gone);
    assert(gone_count(j + 1, gone) == gone_count(j, gone) + 1);
    lemma_gone_count_grows(j + 1, len, gone);
}

/// One place that is named counts for one.
pub proof fn lemma_gone_count_one(len: int, i: int, gone: spec_fn(int) -> bool)
    requires
        0 <= i < len,
        gone(i),
    ensures
        gone_count(len, gone) >= 1,
{
    assert(gone_count(i + 1, gone) == gone_count(i, gone) + 1);
    lemma_gone_count_grows(i + 1, len, gone);
}

impl Deriv {
    /// The edges taken out of more nodes are no fewer.
    pub proof fn lemma_removed_upto_grows(
        &self,
        fsub: (usize, usize),
        doms: Seq<Set<usize>>,
        pdoms: Seq<Set<usize>>,
        a: int,
        b: int,
    )
        requires
            a <= b,
        ensures
            self.removed_upto(fsub, doms, pdoms, a) <= self.removed_upto(fsub, doms, pdoms, b),
        decreases b - a,
    {
        if a < b {
            self.lemma_removed_upto_grows(fsub, doms, pdoms, a, b - 1);
        }
    }

    /// Where two edges are taken out, at least two are counted.
    pub proof fn lemma_two_removed(
        &self,
        fsub: (usize, usize),
        doms: Seq<Set<usize>>,
        pdoms: Seq<Set<usize>>,
        x: Step,
        y: Step,
    )
        requires
            x != y,
            x.0 <= y.0 < self.size,
            x.1 < self.graph@[x.0 as int]@.len(),
            y.1 < self.graph@[y.0 as int]@.len(),
            self.removed(fsub, doms, pdoms, x),
            self.removed(fsub, doms, pdoms, y),
        ensures
            self.removed_upto(fsub, doms, pdoms, self.size as int) >= 2,
    {
        let gx = self.gone_at(fsub, doms, pdoms, x.0);
        let gy = self.gone_at(fsub, doms, pdoms, y.0);
        let lx = self.graph@[x.0 as int]@.len() as int;
        let ly = self.graph@[y.0 as int]@.len() as int;
        assert(gx(x.1 as int));
        assert(gy(y.1 as int));
        assert(self.removed_upto(fsub, doms, pdoms, y.0 + 1) == self.removed_upto(
            fsub,
            doms,
            pdoms,
            y.0 as int,
        ) + gone_count(ly, gy));
        if x.0 == y.0 {
            if x.1 < y.1 {
                lemma_gone_count_two(ly, x.1 as int, y.1 as int, gy);
            } else {
                lemma_gone_count_two(ly, y.1 as int, x.1 as int, gy);
            }
        } else {
            lemma_gone_count_one(lx, x.1 as int, gx);
            lemma_gone_count_one(ly, y.1 as int, gy);
            assert(self.removed_upto(fsub, doms, pdoms, x.0 + 1) == self.removed_upto(
                fsub,
                doms,
                pdoms,
                x.0 as int,
            ) + gone_count(lx, gx));
            self.lemma_removed_upto_grows(fsub, doms, pdoms, x.0 + 1, y.0 as int);
        }
        self.lemma_removed_upto_grows(fsub, doms, pdoms, y.0 + 1, self.size as int);
    }

    /// A node that two or more edges lead to has two different edges of the
    /// graph that lead to it.
    pub proof fn lemma_two_edges_into(&self, g: int) -> (r: (Step, Step))
        requires
            self.wf(),
            0 <= g < self.size,
            self.reverse_graph@[g]@.len() >= 2,
        ensures
            r.0 != r.1,
            r.0.0 <= r.1.0 < self.size,
            r.0.1 < self.graph@[r.0.0 as int]@.len(),
            r.1.1 < self.graph@[r.1.0 as int]@.len(),
            self.graph@[r.0.0 as int]@[r.0.1 as int].to == g,
            self.graph@[r.1.0 as int]@[r.1.1 as int].to == g,
    {
        broadcast use {vstd::seq_lib::group_to_multiset_ensures, vstd::multiset::group_multiset_axioms};

        let back = self.reverse_graph@[g]@;
        let r0 = back[0];
        let r1 = back[1];
        let u0 = r0.to as int;
        let u1 = r1.to as int;
        let e0 = crate::expr::pointee(&r0.exp);
        let e1 = crate::expr::pointee(&r1.exp);
        let f0 = Edge { to: g as usize, exp: std::rc::Rc::new(e0) };
        let f1 = Edge { to: g as usize, exp: std::rc::Rc::new(e1) };
        let row0 = self.graph@[u0]@;
        let row1 = self.graph@[u1]@;
        assert(row0.len() == self.graph@[u0].len());
        assert(row1.len() == self.graph@[u1].len());
        assert(r0 == Edge { to: u0 as usize, exp: std::rc::Rc::new(e0) });
        assert(r1 == Edge { to: u1 as usize, exp: std::rc::Rc::new(e1) });
        assert(back.contains(r0));
        assert(back.contains(r1));
        assert(edge_count(row0, g, e0) == edge_count(back, u0, e0));
        assert(edge_count(row1, g, e1) == edge_count(back, u1, e1));
        assert(row0.contains(f0));
        assert(row1.contains(f1));
        let i0 = choose|i: int| 0 <= i < row0.len() && row0[i] == f0;
        let i1 = choose|i: int| 0 <= i < row1.len() && row1[i] == f1;
        let x = (u0 as usize, i0 as usize);
        if r0 != r1 {
            let y = (u1 as usize, i1 as usize);
            assert(x != y) by {
                if u0 == u1 && i0 == i1 {
                    assert(f0 == f1);
                }
            }
            if u0 <= u1 {
                (x, y)
            } else {
                (y, x)
            }
        } else {
            let less = back.remove(0);
            assert(less[0] == r1);
            assert(less.contains(r0));
            assert(less.to_multiset() == back.to_multiset().remove(r0));
            assert(less.to_multiset().count(r0) > 0);
            assert(back.to_multiset().count(r0) >= 2);
            assert(row0.to_multiset().count(f0) >= 2);
            let others = row0.remove(i0);
            assert(others.to_multiset() == row0.to_multiset().remove(f0));
            assert(others.to_multiset().count(f0) >= 1);
            assert(others.contains(f0));
            let k = choose|k: int| 0 <= k < others.len() && others[k] == f0;
            let j = if k < i0 {
                k
            } else {
                k + 1
            };
            assert(row0[j] == f0);
            let y = (u0 as usize, j as usize);
            (x, y)
        }
    }

    /// A shrink between a pair of candidates takes out two edges or more,
    /// where the dominators and post-dominators are those of the graph as it
    /// is, every node but the root has an edge that leads to it, and the
    /// leaves are the nodes that no edge leaves.
    pub proof fn lemma_candidate_loses_two(&self, fsub: (usize, usize))
        requires
            self.wf(),
            self.rooted(),
            self.leaves_are_ends(),
            fsub.0 < self.size,
            fsub.1 < self.size,
            self.dom_candidate(self.dominator_sets(), fsub.0 as int, fsub.1 as int)
                || self.pdom_candidate(self.post_dominator_sets(), fsub.0 as int, fsub.1 as int),
        ensures
            self.removed_upto(
                fsub,
                self.dominator_sets(),
                self.post_dominator_sets(),
                self.size as int,
            ) >= 2,
    {
        let doms = self.dominator_sets();
        let pdoms = self.post_dominator_sets();
        self.lemma_candidate_order(fsub);
        if fsub.0 > fsub.1 {
            let s = fsub.0;
            let g = fsub.1;
            assert(self.reverse_graph@[g as int]@.len() >= 2) by {
                if !self.dom_candidate(doms, fsub.0 as int, fsub.1 as int) {
                    assert(pdoms[fsub.1 as int].contains(fsub.0));
                    self.lemma_post_dominator_below(fsub.0 as int, fsub.1 as int);
                }
            }
            let (x, y) = self.lemma_two_edges_into(g as int);
            self.lemma_into_goal_removed(s, g, x);
            self.lemma_into_goal_removed(s, g, y);
            self.lemma_two_removed(fsub, doms, pdoms, x, y);
        } else {
            let s = fsub.1;
            let g = fsub.0;
            assert(self.graph@[s as int]@.len() >= 2) by {
                if !self.pdom_candidate(pdoms, fsub.0 as int, fsub.1 as int) {
                    assert(doms[fsub.1 as int].contains(fsub.0));
                    self.lemma_dominator_above(fsub.0 as int, fsub.1 as int);
                }
            }
            self.lemma_out_of_start_removed(s, g, 0);
            self.lemma_out_of_start_removed(s, g, 1);
            self.lemma_two_removed(fsub, doms, pdoms, (s, 0), (s, 1));
        }
    }

    /// A shrink between a pair of candidates leaves the graph with fewer
    /// edges, under the conditions of `lemma_candidate_loses_two`.
    pub proof fn lemma_candidate_decreases(
        &self,
        after: &Deriv,
        fsub: (usize, usize),
        folded: Expr,
    )
        requires
            self.wf(),
            self.rooted(),
            self.leaves_are_ends(),
            fsub.0 < self.size,
            fsub.1 < self.size,
            self.dom_candidate(self.dominator_sets(), fsub.0 as int, fsub.1 as int)
                || self.pdom_candidate(self.post_dominator_sets(), fsub.0 as int, fsub.1 as int),
            self.shrunk_to(
                after,
                fsub,
                self.dominator_sets(),
                self.post_dominator_sets(),
                folded,
            ),
        ensures
            after.edge_count() < self.edge_count(),
    {
        self.lemma_candidate_loses_two(fsub);
        self.lemma_shrink_decreases(
            after,
            fsub,
            self.dominator_sets(),
            self.post_dominator_sets(),
            folded,
        );
    }
}

} // verus!
