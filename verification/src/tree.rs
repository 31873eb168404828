//! Nodes of the individualization search tree: a reversible coloring paired
//! with the path of elements individualized to reach it from the root.

use vstd::prelude::*;
use crate::coloring::{
    Coloring, ReversibleColoring, cut_start, cut_end, cuts_at_most, lemma_num_cuts,
    lemma_cell_range, lemma_cuts_at_most_compose, lemma_cuts_at_most_insert_deep,
    lemma_cuts_at_most_id, lemma_unit_cells_discrete, Bound, max_of_cell_at, succ_in_cell_at,
    entered, restored_to, splits,
};
use crate::Canonize;

verus! {

/// Cell `i` is the target cell of the search policy: the first cell holding
/// at least two elements, every cell before it being a singleton.
pub open spec fn is_first_wide_cell(c: Coloring, i: int) -> bool {
    &&& 0 <= i <= c.bounds@.len()
    &&& c.cell_end_spec(i) - c.cell_start_spec(i) >= 2
    &&& forall|i2: int| 0 <= i2 < i ==> c.cell_end_spec(i2) - #[trigger] c.cell_start_spec(i2) <= 1
}

/// One individualization step of the search: a scope is entered, `child` is
/// split off into its own cell, and the structure's refinement hook is
/// applied. Since splitting determines the next coloring completely and the
/// hook is a function of its input, `post` is a function of `pre` and
/// `child`.
pub open spec fn refined_split_step<G: Canonize>(
    g: G,
    pre: ReversibleColoring,
    post: ReversibleColoring,
    child: usize,
) -> bool {
    exists|mid: ReversibleColoring|
        #[trigger] splits(entered(pre), mid, child) && mid.wf() && post == g.spec_refine(mid)
}

/// One step of the descent policy: from the coloring `pre`, the
/// individualized element `child` is the `<ᵤ`-least element — the head — of
/// the first wide cell, and `post` is the coloring after splitting it off
/// and refining.
pub open spec fn min_step_at<G: Canonize>(
    g: G,
    pre: ReversibleColoring,
    post: ReversibleColoring,
    child: usize,
) -> bool {
    &&& exists|i: int|
        #[trigger] is_first_wide_cell(pre.coloring, i) && child == pre.coloring.cell_seq(i)[0]
    &&& refined_split_step(g, pre, post, child)
}

/// `to` is reached from `from` by the descent policy alone: a chain of
/// colorings leads from `from`'s to `to`'s, one per new path entry, and
/// every link individualizes the `<ᵤ`-least element of the first wide cell,
/// then refines.
pub open spec fn min_descent<G: Canonize>(g: G, from: Node, to: Node) -> bool {
    &&& to.path@.len() >= from.path@.len()
    &&& to.path@.take(from.path@.len() as int) == from.path@
    &&& exists|chain: Seq<ReversibleColoring>|
        #![trigger chain.len()]
        {
            &&& chain.len() == to.path@.len() - from.path@.len() + 1
            &&& chain[0] == from.coloring
            &&& chain.last() == to.coloring
            &&& forall|t: int|
                0 <= t < chain.len() - 1 ==> min_step_at(
                    g,
                    #[trigger] chain[t],
                    chain[t + 1],
                    to.path@[from.path@.len() + t],
                )
        }
}

/// `nd` is the immediate depth-first successor of `from`: the paths agree
/// below a divergence level `l`; every entry of `from.path` deeper than `l`
/// was exhausted — the maximum of its cell at its own restore level; at `l`,
/// on the coloring restored to level `l`, the search advances to the
/// `<ᵤ`-next element of `from.path[l]`'s cell; and below the divergence `nd`
/// is reached by the descent policy alone.
pub open spec fn dfs_successor<G: Canonize>(g: G, from: Node, nd: Node) -> bool {
    exists|l: int, anc: ReversibleColoring, adv: Node|
        0 <= l < from.path@.len() && l < nd.path@.len() && nd.path@.take(l) == from.path@.take(l)
            && nd.path@[l] > from.path@[l] && #[trigger] succ_in_cell_at(
            from.coloring.coloring,
            l,
            from.path@[l],
            nd.path@[l],
        ) && (forall|j: int|
            l < j < from.path@.len() ==> max_of_cell_at(
                from.coloring.coloring,
                j,
                #[trigger] from.path@[j],
            )) && #[trigger] restored_to(from.coloring, l, anc) && adv.wf() && adv.path@
            == nd.path@.take(l + 1) && refined_split_step(g, anc, adv.coloring, nd.path@[l])
            && #[trigger] min_descent(g, adv, nd)
}

/// The empty descent.
proof fn lemma_min_descent_refl<G: Canonize>(g: G, nd: Node)
    ensures
        min_descent(g, nd, nd),
{
    let chain = seq![nd.coloring];
    assert(nd.path@.take(nd.path@.len() as int) =~= nd.path@);
    assert(chain.len() == nd.path@.len() - nd.path@.len() + 1);
    assert(chain[0] == nd.coloring);
    assert(chain.last() == nd.coloring);
    assert(forall|t: int|
        0 <= t < chain.len() - 1 ==> min_step_at(
            g,
            #[trigger] chain[t],
            chain[t + 1],
            nd.path@[nd.path@.len() + t],
        ));
}

/// A descent extends by one more policy step.
proof fn lemma_min_descent_extend<G: Canonize>(g: G, from: Node, mid: Node, to: Node)
    requires
        min_descent(g, from, mid),
        to.path@.len() == mid.path@.len() + 1,
        to.path@ == mid.path@.push(to.path@.last()),
        min_step_at(g, mid.coloring, to.coloring, to.path@.last()),
    ensures
        min_descent(g, from, to),
{
    let f = from.path@.len() as int;
    let chain0 = choose|chain: Seq<ReversibleColoring>|
        #![trigger chain.len()]
        {
            &&& chain.len() == mid.path@.len() - f + 1
            &&& chain[0] == from.coloring
            &&& chain.last() == mid.coloring
            &&& forall|t: int|
                0 <= t < chain.len() - 1 ==> min_step_at(
                    g,
                    #[trigger] chain[t],
                    chain[t + 1],
                    mid.path@[f + t],
                )
        };
    let chain = chain0.push(to.coloring);
    assert(to.path@.take(f) =~= from.path@) by {
        assert forall|x: int| 0 <= x < f implies to.path@.take(f)[x] == from.path@[x] by {
            assert(to.path@[x] == mid.path@[x]);
            assert(mid.path@.take(f)[x] == mid.path@[x]);
        }
    }
    assert(chain.len() == to.path@.len() - f + 1);
    assert(chain[0] == from.coloring);
    assert(chain.last() == to.coloring);
    assert forall|t: int|
        0 <= t < chain.len() - 1 implies min_step_at(
        g,
        #[trigger] chain[t],
        chain[t + 1],
        to.path@[f + t],
    ) by {
        if t < chain0.len() - 1 {
            assert(chain[t] == chain0[t] && chain[t + 1] == chain0[t + 1]);
            assert(min_step_at(g, chain0[t], chain0[t + 1], mid.path@[f + t]));
            assert(to.path@[f + t] == mid.path@[f + t]);
        } else {
            assert(t == chain0.len() - 1);
            assert(chain[t] == chain0.last());
            assert(chain[t + 1] == to.coloring);
            assert(f + t == mid.path@.len());
            assert(to.path@[f + t] == to.path@.last());
        }
    }
    assert(min_descent(g, from, to)) by {
        assert(chain.len() == to.path@.len() - from.path@.len() + 1);
    }
}

/// A position in the individualization tree: the current coloring and the
/// choices that produced it, one per nesting level.
pub struct Node {
    /// The elements individualized so far, in order.
    pub path: Vec<usize>,

    /// The coloring reached by those individualizations.
    pub coloring: ReversibleColoring,
}

impl Node {
    /// Size of the universe.
    pub open spec fn n(self) -> int {
        self.coloring.n()
    }

    /// The node invariant: a well-formed coloring whose depth equals the path
    /// length, path entries inside the universe, and enough bounds below
    /// every nesting level to account for the individualizations that
    /// produced it.
    pub open spec fn wf(self) -> bool {
        &&& self.coloring.wf()
        &&& self.path@.len() == self.coloring.depth
        &&& forall|i: int| 0 <= i < self.path@.len() ==> #[trigger] self.path@[i] < self.n()
        &&& forall|d2: int|
            0 <= d2 <= self.coloring.depth ==> d2 <= cuts_at_most(
                self.coloring.coloring.bounds@,
                d2,
            ).len()
    }

    /// The node is a leaf: its coloring is discrete.
    pub open spec fn is_leaf(self) -> bool {
        self.coloring.coloring.spec_is_discrete()
    }

    /// Wraps a depth-zero coloring as the root of a search tree.
    pub fn root(coloring: ReversibleColoring) -> (r: Self)
        requires
            coloring.wf(),
            coloring.depth == 0,
        ensures
            r.wf(),
            r.path@.len() == 0,
            r.coloring == coloring,
    {
        Node { path: Vec::new(), coloring }
    }

    /// The individualization choices made so far.
    pub fn path(&self) -> (r: &Vec<usize>)
        ensures
            r == &self.path,
    {
        &self.path
    }

    /// The coloring at this node.
    pub fn coloring(&self) -> (r: &ReversibleColoring)
        ensures
            r == &self.coloring,
    {
        &self.coloring
    }

    /// Climbs `k` levels: undoes the last `k` individualizations and their
    /// refinements. The surviving bounds are exactly those introduced at or
    /// below the new depth, and each restored cell keeps its members.
    pub fn restore(&mut self, k: usize)
        requires
            old(self).wf(),
            k <= old(self).path@.len(),
        ensures
            final(self).wf(),
            final(self).n() == old(self).n(),
            final(self).path@ == old(self).path@.take(old(self).path@.len() - k as int),
            final(self).coloring.depth == old(self).path@.len() - k as int,
            final(self).coloring.coloring.bounds@ == cuts_at_most(
                old(self).coloring.coloring.bounds@,
                old(self).path@.len() - k as int,
            ),
            forall|i: int|
                0 <= i <= final(self).coloring.coloring.bounds@.len()
                    ==> crate::sorting::same_range_multiset(
                    old(self).coloring.coloring.elements@,
                    final(self).coloring.coloring.elements@,
                    #[trigger] cut_start(final(self).coloring.coloring.bounds@, i),
                    cut_end(final(self).coloring.coloring.bounds@, final(self).n(), i),
                ),
            restored_to(old(self).coloring, old(self).path@.len() - k as int, final(self).coloring),
    {
        let ghost bs = self.coloring.coloring.bounds@;
        let ghost d = self.coloring.depth as int;
        self.coloring.restore(k);
        let len = self.path.len();
        self.path.truncate(len - k);
        proof {
            assert forall|d2: int|
                0 <= d2 <= self.coloring.depth implies d2 <= cuts_at_most(
                self.coloring.coloring.bounds@,
                d2,
            ).len() by {
                lemma_cuts_at_most_compose(bs, d - k, d2);
            }
        }
    }

    /// The first cell holding more than one element, or `None` when the node
    /// is a leaf. The target cell is pinned to the first wide cell: the
    /// selector the search policy fixes.
    pub fn children_color(&self) -> (r: Option<&[usize]>)
        requires
            self.wf(),
        ensures
            r is None ==> self.n() == 0 || self.is_leaf(),
            r is Some ==> !self.is_leaf(),
            r is Some ==> exists|i: int|
                #[trigger] is_first_wide_cell(self.coloring.coloring, i) && r.unwrap()@
                    == self.coloring.coloring.cell_seq(i),
    {
        let ghost bs = self.coloring.coloring.bounds@;
        let ghost n0 = self.n();
        let nb = self.coloring.coloring.bounds.len();
        let ne = self.coloring.coloring.elements.len();
        proof {
            lemma_num_cuts(bs, n0);
        }
        let nc = nb + 1;
        let mut i: usize = 0;
        while i < nc
            invariant
                i <= nc,
                nc == bs.len() + 1,
                nb == bs.len(),
                ne == n0,
                self.wf(),
                bs == self.coloring.coloring.bounds@,
                n0 == self.n(),
                forall|i2: int|
                    0 <= i2 < i ==> cut_end(bs, n0, i2) - #[trigger] cut_start(bs, i2) <= 1,
            decreases nc - i,
        {
            proof {
                lemma_cell_range(bs, n0, i as int);
            }
            let start = if i == 0 {
                0
            } else {
                self.coloring.coloring.bounds[i - 1].offset
            };
            let end = if i < nb {
                self.coloring.coloring.bounds[i].offset
            } else {
                ne
            };
            assert(start as int == cut_start(bs, i as int));
            assert(end as int == cut_end(bs, n0, i as int));
            if end - start > 1 {
                let cell = vstd::slice::slice_subrange(
                    self.coloring.coloring.elements.as_slice(),
                    start,
                    end,
                );
                proof {
                    assert(cell@ == self.coloring.coloring.cell_seq(i as int));
                    assert(is_first_wide_cell(self.coloring.coloring, i as int));
                    assert(!self.is_leaf()) by {
                        if self.coloring.coloring.spec_is_discrete() {
                            self.coloring.lemma_discrete_structure();
                            assert(self.coloring.coloring.cell_of(start as int) == start as int);
                            assert(self.coloring.coloring.cell_of(start as int + 1) == start as int
                                + 1);
                            crate::coloring::lemma_cell_of_pos_unique(
                                bs,
                                n0,
                                i as int,
                                start as int,
                            );
                            crate::coloring::lemma_cell_of_pos_unique(
                                bs,
                                n0,
                                i as int,
                                start as int + 1,
                            );
                        }
                    }
                }
                return Some(cell);
            }
            i = i + 1;
        }
        proof {
            if n0 >= 1 {
                lemma_unit_cells_discrete(self.coloring.coloring);
            }
        }
        None
    }

    /// Individualizes `child` (which must share its cell with at least one
    /// other element), then lets the structure refine the result, and records
    /// the choice on the path.
    fn individualize<G: Canonize>(&mut self, child: usize, g: &G, cache: &mut G::Cache)
        requires
            old(self).wf(),
            old(self).n() >= 1,
            old(self).n() == g.universe(),
            child < old(self).n(),
            old(self).coloring.coloring.cell_end_spec(old(self).coloring.rev_at(child)) - old(
                self,
            ).coloring.coloring.cell_start_spec(old(self).coloring.rev_at(child)) >= 2,
        ensures
            final(self).wf(),
            final(self).n() == old(self).n(),
            final(self).path@ == old(self).path@.push(child),
            final(self).coloring.coloring.bounds@.len() > old(self).coloring.coloring.bounds@.len(),
            refined_split_step(*g, old(self).coloring, final(self).coloring, child),
    {
        let ghost bs = self.coloring.coloring.bounds@;
        let ghost n0 = self.n();
        let ghost d = self.coloring.depth as int;
        proof {
            lemma_num_cuts(bs, n0);
            crate::sorting::lemma_vec_len_bound(&self.coloring.coloring.elements);
            assert(self.coloring.depth <= cuts_at_most(bs, d).len()) by {}
            crate::coloring::lemma_cuts_at_most_len(bs, d);
            self.coloring.lemma_rev_of_element(child);
        }
        self.coloring.begin();
        let ghost ent = self.coloring;
        let split = self.coloring.individualize(&child);
        proof {
            assert(split);
            assert(ent == entered(old(self).coloring));
            let ci = old(self).coloring.rev_at(child);
            let s = old(self).coloring.coloring.cell_start_spec(ci);
            let b = Bound { offset: (s + 1) as usize, depth: (d + 1) as usize };
            assert(self.coloring.coloring.bounds@ == bs.insert(ci, b));
            assert forall|d2: int|
                0 <= d2 <= self.coloring.depth implies d2 <= cuts_at_most(
                self.coloring.coloring.bounds@,
                d2,
            ).len() by {
                if d2 <= d {
                    lemma_cuts_at_most_insert_deep(bs, ci, b, d2);
                } else {
                    lemma_cuts_at_most_id(self.coloring.coloring.bounds@, d2);
                    assert(cuts_at_most(bs, d).len() <= bs.len()) by {
                        crate::coloring::lemma_cuts_at_most_len(bs, d);
                    }
                }
            }
        }
        let ghost mid = self.coloring;
        g.refine_coloring(cache, &mut self.coloring);
        self.path.push(child);
        proof {
            assert forall|d2: int|
                0 <= d2 <= self.coloring.depth implies d2 <= cuts_at_most(
                self.coloring.coloring.bounds@,
                d2,
            ).len() by {
                assert(d2 <= cuts_at_most(mid.coloring.bounds@, d2).len());
                assert(cuts_at_most(self.coloring.coloring.bounds@, d2).len() >= cuts_at_most(
                    mid.coloring.bounds@,
                    d2,
                ).len());
            }
            assert(splits(entered(old(self).coloring), mid, child));
            assert(mid.wf());
            assert(self.coloring == g.spec_refine(mid));
            assert(refined_split_step(*g, old(self).coloring, self.coloring, child));
        }
    }

    /// Descends to the first leaf below this node by the descent policy:
    /// every step individualizes the `<ᵤ`-least element — the head — of the
    /// first wide cell, then refines. A leaf is returned as it is.
    pub fn into_first_child_leaf<G: Canonize>(self, g: &G, cache: &mut G::Cache) -> (r: Self)
        requires
            self.wf(),
            self.n() >= 1,
            self.n() == g.universe(),
        ensures
            r.wf(),
            r.n() == self.n(),
            r.is_leaf(),
            r.path@.len() >= self.path@.len(),
            r.path@.take(self.path@.len() as int) == self.path@,
            self.is_leaf() ==> r == self,
            !self.is_leaf() ==> r.path@.len() > self.path@.len(),
            min_descent(*g, self, r),
    {
        let ghost s0 = self;
        let ghost p0 = self.path@;
        let ghost n0 = self.n();
        let mut this = self;
        proof {
            lemma_num_cuts(this.coloring.coloring.bounds@, n0);
            assert(this.path@.take(p0.len() as int) =~= p0);
            lemma_min_descent_refl(*g, this);
        }
        loop
            invariant
                this.wf(),
                this.n() == n0,
                n0 >= 1,
                n0 == g.universe(),
                this.coloring.coloring.bounds@.len() < n0,
                this.path@.len() >= p0.len(),
                this.path@.take(p0.len() as int) == p0,
                this.path@.len() == p0.len() ==> this == s0,
                s0.is_leaf() ==> this == s0,
                min_descent(*g, s0, this),
            ensures
                this.wf(),
                this.n() == n0,
                this.is_leaf(),
                this.path@.len() >= p0.len(),
                this.path@.take(p0.len() as int) == p0,
                this.path@.len() == p0.len() ==> this == s0,
                s0.is_leaf() ==> this == s0,
                min_descent(*g, s0, this),
            decreases n0 - this.coloring.coloring.bounds@.len(),
        {
            let mut child_opt: Option<usize> = None;
            let ghost mut gi: int = 0;
            match this.children_color() {
                Some(cell) => {
                    proof {
                        gi = choose|i: int|
                            #[trigger] is_first_wide_cell(this.coloring.coloring, i) && cell@
                                == this.coloring.coloring.cell_seq(i);
                        lemma_cell_range(this.coloring.coloring.bounds@, n0, gi);
                        assert(cell@.len() >= 2);
                    }
                    let c0 = cell[0];
                    proof {
                        assert(this.coloring.coloring.cell_seq(gi).len() >= 2
                            && this.coloring.coloring.cell_seq(gi)[0] == c0);
                    }
                    child_opt = Some(c0);
                }
                None => {}
            }
            match child_opt {
                Some(child) => {
                    let ghost pre = this;
                    proof {
                        this.lemma_child_in_wide_cell(child);
                    }
                    this.individualize(child, g, cache);
                    proof {
                        assert(this.path@.take(p0.len() as int) =~= p0);
                        lemma_num_cuts(this.coloring.coloring.bounds@, n0);
                        assert(this.path@ == pre.path@.push(child));
                        assert(this.path@.last() == child);
                        assert(min_step_at(*g, pre.coloring, this.coloring, this.path@.last())) by {
                            assert(is_first_wide_cell(pre.coloring.coloring, gi)
                                && pre.coloring.coloring.cell_seq(gi)[0] == child);
                        }
                        lemma_min_descent_extend(*g, s0, pre, this);
                    }
                }
                None => {
                    break;
                }
            }
        }
        this
    }


    /// An element at the head of a wide cell sits in a wide cell of its own
    /// reverse index.
    pub(crate) proof fn lemma_child_in_wide_cell(self, child: usize)
        requires
            self.wf(),
            exists|i: int|
                0 <= i <= self.coloring.coloring.bounds@.len() && #[trigger] self.coloring.coloring.cell_seq(
                    i,
                ).len() >= 2 && self.coloring.coloring.cell_seq(i)[0] == child,
        ensures
            child < self.n(),
            self.coloring.coloring.cell_end_spec(self.coloring.rev_at(child))
                - self.coloring.coloring.cell_start_spec(self.coloring.rev_at(child)) >= 2,
    {
        let bs = self.coloring.coloring.bounds@;
        let n0 = self.n();
        let i = choose|i: int|
            0 <= i <= bs.len() && #[trigger] self.coloring.coloring.cell_seq(i).len() >= 2
                && self.coloring.coloring.cell_seq(i)[0] == child;
        lemma_cell_range(bs, n0, i);
        let s = cut_start(bs, i);
        assert(self.coloring.coloring.elements@[s] == child);
        assert(child < n0);
        assert(self.coloring.coloring.cell_seq(i).contains(child));
        self.coloring.lemma_reverse_characterizes_cells(child, i);
    }

    /// Moves to the next leaf in depth-first order: climbs until a cell with
    /// an unexplored sibling is found, advances to that sibling, and descends
    /// to its first leaf. The new leaf is the immediate DFS successor: its
    /// path diverges upward from the old one at the `<ᵤ`-next element of the
    /// divergence cell, every deeper entry of the old path was already the
    /// maximum of its cell, the divergence step acts on the coloring restored
    /// to the divergence level, and the rest of the new path is the descent
    /// policy alone. `None` is returned only on exhaustion: when every path
    /// entry is the maximum of its cell at its own restore level.
    #[verifier::rlimit(100)]
    pub fn into_next_leaf<G: Canonize>(self, g: &G, cache: &mut G::Cache) -> (r: Option<Node>)
        requires
            self.wf(),
            self.n() >= 1,
            self.n() == g.universe(),
        ensures
            r is Some ==> {
                let nd = r.unwrap();
                &&& nd.wf()
                &&& nd.n() == self.n()
                &&& nd.is_leaf()
                &&& dfs_successor(*g, self, nd)
            },
            r is None ==> forall|j: int|
                0 <= j < self.path@.len() ==> max_of_cell_at(
                    self.coloring.coloring,
                    j,
                    #[trigger] self.path@[j],
                ),
        decreases self.path@.len(),
    {
        let ghost n0 = self.n();
        let ghost p0 = self.path@;
        let ghost s0 = self;
        let mut this = self;
        if this.path.len() == 0 {
            return None;
        }
        let last = this.path[this.path.len() - 1];
        this.restore(1);
        let ghost ptrunc = this.path@;
        let ghost trest = this;
        let ci = this.coloring.color_index_of(&last).unwrap();
        proof {
            this.coloring.lemma_rev_of_element(last);
            lemma_cell_range(this.coloring.coloring.bounds@, n0, ci as int);
        }
        let start = if ci == 0 {
            0
        } else {
            this.coloring.coloring.bounds[ci - 1].offset
        };
        let end = if ci < this.coloring.coloring.bounds.len() {
            this.coloring.coloring.bounds[ci].offset
        } else {
            this.coloring.coloring.elements.len()
        };
        // Locate `last` within its (sorted) cell.
        let mut p: usize = start;
        while this.coloring.coloring.elements[p] != last
            invariant
                start <= p < end,
                end <= this.coloring.coloring.elements@.len(),
                this.wf(),
                n0 == this.n(),
                start as int == cut_start(this.coloring.coloring.bounds@, ci as int),
                end as int == cut_end(this.coloring.coloring.bounds@, n0, ci as int),
                exists|q: int|
                    p <= q < end && this.coloring.coloring.elements@[q] == last,
            decreases end - p,
        {
            p = p + 1;
        }
        if p + 1 < end {
            // Advance to the next sibling, then descend.
            let next = this.coloring.coloring.elements[p + 1];
            proof {
                assert(this.coloring.coloring.cell_seq(ci as int).len() >= 2);
                assert(this.coloring.coloring.cell_seq(ci as int)[p + 1 - start as int] == next);
                assert(this.coloring.coloring.cell_seq(ci as int).contains(next));
                this.coloring.lemma_reverse_characterizes_cells(next, ci as int);
                assert(next > last) by {
                    assert(crate::sorting::range_sorted(
                        this.coloring.coloring.elements@,
                        this.coloring.coloring.cell_start_spec(ci as int),
                        this.coloring.coloring.cell_end_spec(ci as int),
                    ));
                }
                // `next` is the immediate successor of `last` in the
                // restored cell: nothing of the cell lies between them.
                let cc = this.coloring.coloring;
                cc.lemma_position_of_index(p as int);
                crate::coloring::lemma_cell_of_pos_unique(cc.bounds@, n0, ci as int, p as int);
                crate::coloring::lemma_cuts_at_most_all(cc.bounds@, this.coloring.depth as int);
                assert(succ_in_cell_at(cc, this.coloring.depth as int, last, next)) by {
                    assert(cuts_at_most(cc.bounds@, this.coloring.depth as int) == cc.bounds@);
                    assert(cc.position_of(last) == p as int);
                    assert(cc.elements@[p + 1] == next);
                    assert(crate::sorting::range_sorted(cc.elements@, start as int, end as int))
                        by {
                        assert(crate::sorting::range_sorted(
                            cc.elements@,
                            cc.cell_start_spec(ci as int),
                            cc.cell_end_spec(ci as int),
                        ));
                    }
                    assert forall|q: int|
                        start as int <= q < end as int implies (#[trigger] cc.elements@[q] <= last
                        || cc.elements@[q] >= next) by {
                        if q < p as int {
                            assert(cc.elements@[q] < cc.elements@[p as int]);
                        }
                        if q > p + 1 {
                            assert(cc.elements@[p + 1] < cc.elements@[q]);
                        }
                    }
                }
                crate::coloring::lemma_max_of_cell_restore(
                    s0.coloring.coloring,
                    cc,
                    p0.len() - 1,
                    p0.len() - 1,
                    last,
                );
                assert(succ_in_cell_at(s0.coloring.coloring, p0.len() - 1, last, next));
            }
            this.individualize(next, g, cache);
            let ghost advg = this;
            let leaf = this.into_first_child_leaf(g, cache);
            proof {
                let l = ptrunc.len() as int;
                assert(leaf.path@.take(l + 1) == ptrunc.push(next)) by {
                    assert(leaf.path@.take(l + 1) =~= leaf.path@.take(l + 1));
                }
                assert(leaf.path@[l] == next) by {
                    assert(leaf.path@.take(l + 1)[l] == next);
                }
                assert(leaf.path@.take(l) =~= p0.take(l)) by {
                    assert forall|x: int| 0 <= x < l implies leaf.path@.take(l)[x] == p0.take(
                        l,
                    )[x] by {
                        assert(leaf.path@.take(l + 1)[x] == ptrunc[x]);
                        assert(ptrunc[x] == p0[x]);
                    }
                }
                assert(p0[l] == last);
                assert(leaf.path@[l] > p0[l]);
                assert(succ_in_cell_at(s0.coloring.coloring, l, p0[l], leaf.path@[l]));
                assert(restored_to(s0.coloring, l, trest.coloring));
                assert(advg.path@ == leaf.path@.take(l + 1));
                assert(refined_split_step(*g, trest.coloring, advg.coloring, leaf.path@[l]));
                assert(min_descent(*g, advg, leaf));
                assert(dfs_successor(*g, s0, leaf)) by {
                    assert(0 <= l < s0.path@.len() && l < leaf.path@.len() && leaf.path@.take(l)
                        == s0.path@.take(l) && leaf.path@[l] > s0.path@[l] && succ_in_cell_at(
                        s0.coloring.coloring,
                        l,
                        s0.path@[l],
                        leaf.path@[l],
                    ) && (forall|j: int|
                        l < j < s0.path@.len() ==> max_of_cell_at(
                            s0.coloring.coloring,
                            j,
                            #[trigger] s0.path@[j],
                        )) && restored_to(s0.coloring, l, trest.coloring) && advg.wf()
                        && advg.path@ == leaf.path@.take(l + 1) && refined_split_step(
                        *g,
                        trest.coloring,
                        advg.coloring,
                        leaf.path@[l],
                    ) && min_descent(*g, advg, leaf));
                }
            }
            Some(leaf)
        } else {
            // This cell is exhausted: `last` sits at its end, so it is the
            // cell's maximum at this restore level. Climb further.
            proof {
                assert(p + 1 == end);
                let cc = this.coloring.coloring;
                this.coloring.lemma_rev_of_element(last);
                cc.lemma_position_of_index(p as int);
                crate::coloring::lemma_cell_of_pos_unique(cc.bounds@, n0, ci as int, p as int);
                crate::coloring::lemma_cuts_at_most_all(cc.bounds@, this.coloring.depth as int);
                assert(max_of_cell_at(cc, this.coloring.depth as int, last)) by {
                    assert(cuts_at_most(cc.bounds@, this.coloring.depth as int) == cc.bounds@);
                    assert(cc.position_of(last) == p as int);
                    assert(crate::sorting::range_sorted(cc.elements@, start as int, end as int))
                        by {
                        assert(crate::sorting::range_sorted(
                            cc.elements@,
                            cc.cell_start_spec(ci as int),
                            cc.cell_end_spec(ci as int),
                        ));
                    }
                    assert forall|q: int|
                        start as int <= q < end as int implies #[trigger] cc.elements@[q]
                        <= last by {
                        if q < p as int {
                            assert(cc.elements@[q] < cc.elements@[p as int]);
                        }
                    }
                }
            }
            let ghost tg = this;
            let r = this.into_next_leaf(g, cache);
            proof {
                if r is Some {
                    let nd = r.unwrap();
                    assert(dfs_successor(*g, tg, nd));
                    let (l, anc, adv) = choose|l: int, anc: ReversibleColoring, adv: Node|
                        0 <= l < tg.path@.len() && l < nd.path@.len() && nd.path@.take(l)
                            == tg.path@.take(l) && nd.path@[l] > tg.path@[l]
                            && #[trigger] succ_in_cell_at(
                            tg.coloring.coloring,
                            l,
                            tg.path@[l],
                            nd.path@[l],
                        ) && (forall|j: int|
                            l < j < tg.path@.len() ==> max_of_cell_at(
                                tg.coloring.coloring,
                                j,
                                #[trigger] tg.path@[j],
                            )) && #[trigger] restored_to(tg.coloring, l, anc) && adv.wf()
                            && adv.path@ == nd.path@.take(l + 1) && refined_split_step(
                            *g,
                            anc,
                            adv.coloring,
                            nd.path@[l],
                        ) && #[trigger] min_descent(*g, adv, nd);
                    assert(tg.path@ == ptrunc);
                    assert(ptrunc.take(l) =~= p0.take(l));
                    assert(ptrunc[l] == p0[l]);
                    crate::coloring::lemma_max_of_cell_restore(
                        s0.coloring.coloring,
                        tg.coloring.coloring,
                        p0.len() - 1,
                        l,
                        p0[l],
                    );
                    assert(succ_in_cell_at(s0.coloring.coloring, l, p0[l], nd.path@[l]));
                    assert(restored_to(s0.coloring, p0.len() - 1, tg.coloring));
                    crate::coloring::lemma_restored_to_compose(
                        s0.coloring,
                        tg.coloring,
                        anc,
                        p0.len() - 1,
                        l,
                    );
                    assert(restored_to(s0.coloring, l, anc));
                    assert(refined_split_step(*g, anc, adv.coloring, nd.path@[l]));
                    assert(min_descent(*g, adv, nd));
                    assert forall|j: int|
                        l < j < p0.len() implies max_of_cell_at(
                        s0.coloring.coloring,
                        j,
                        #[trigger] p0[j],
                    ) by {
                        if j < p0.len() - 1 {
                            assert(max_of_cell_at(tg.coloring.coloring, j, ptrunc[j]));
                            assert(ptrunc[j] == p0[j]);
                        } else {
                            assert(max_of_cell_at(tg.coloring.coloring, p0.len() - 1, last));
                            assert(p0[j] == last);
                        }
                        crate::coloring::lemma_max_of_cell_restore(
                            s0.coloring.coloring,
                            tg.coloring.coloring,
                            p0.len() - 1,
                            j,
                            p0[j],
                        );
                    }
                    assert(0 <= l < p0.len() && l < nd.path@.len() && nd.path@.take(l) == p0.take(
                        l,
                    ) && nd.path@[l] > p0[l]);
                    assert(dfs_successor(*g, s0, nd)) by {
                        assert(0 <= l < s0.path@.len() && l < nd.path@.len() && nd.path@.take(l)
                            == s0.path@.take(l) && nd.path@[l] > s0.path@[l] && succ_in_cell_at(
                            s0.coloring.coloring,
                            l,
                            s0.path@[l],
                            nd.path@[l],
                        ) && (forall|j: int|
                            l < j < s0.path@.len() ==> max_of_cell_at(
                                s0.coloring.coloring,
                                j,
                                #[trigger] s0.path@[j],
                            )) && restored_to(s0.coloring, l, anc) && adv.wf() && adv.path@
                            == nd.path@.take(l + 1) && refined_split_step(
                            *g,
                            anc,
                            adv.coloring,
                            nd.path@[l],
                        ) && min_descent(*g, adv, nd));
                    }
                } else {
                    assert forall|j: int|
                        0 <= j < p0.len() implies max_of_cell_at(
                        s0.coloring.coloring,
                        j,
                        #[trigger] p0[j],
                    ) by {
                        if j < p0.len() - 1 {
                            assert(max_of_cell_at(tg.coloring.coloring, j, tg.path@[j]));
                            assert(tg.path@[j] == p0[j]);
                        } else {
                            assert(max_of_cell_at(
                                tg.coloring.coloring,
                                p0.len() - 1,
                                last,
                            ));
                            assert(p0[j] == last);
                        }
                        crate::coloring::lemma_max_of_cell_restore(
                            s0.coloring.coloring,
                            tg.coloring.coloring,
                            p0.len() - 1,
                            j,
                            p0[j],
                        );
                    }
                }
            }
            r
        }
    }
}

} // verus!
