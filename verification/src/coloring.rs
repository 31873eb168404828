//! Ordered partitions ("colorings") of the universe `{0, …, n-1}`.
//!
//! A coloring keeps the universe in one contiguous vector, split into cells
//! by a vector of bounds. Within each cell the elements are kept in strictly
//! increasing order, so a coloring is a canonical representation of an
//! ordered partition.

use vstd::prelude::*;
use crate::sorting::{
    lex_lt, range_distinct, range_sorted, range_sorted_by_key, same_outside, same_range_multiset,
    sort_range, sort_range_by_key, swap_positions, lemma_range_multiset_bound,
    lemma_range_multiset_distinct, lemma_range_multiset_in_range,
};

verus! {

/// A cut in the element sequence, tagged with the search depth that
/// introduced it. Two bounds are equal when their offsets are; the depth is
/// bookkeeping for scoped restoration only.
#[derive(Clone, Copy, Debug)]
pub struct Bound {
    pub offset: usize,
    pub depth: usize,
}

impl Bound {
    /// A bound at `offset`, introduced by the initial partition (depth 0).
    pub(crate) fn new(offset: usize) -> (r: Self)
        ensures
            r.offset == offset,
            r.depth == 0,
    {
        Bound { offset, depth: 0 }
    }
}

impl PartialEq for Bound {
    fn eq(&self, other: &Self) -> bool {
        self.offset == other.offset
    }
}

impl vstd::std_specs::cmp::PartialEqSpecImpl for Bound {
    open spec fn obeys_eq_spec() -> bool {
        true
    }

    open spec fn eq_spec(&self, other: &Self) -> bool {
        self.offset == other.offset
    }
}

/// Offset where the `i`-th cell delimited by `bounds` starts.
pub open spec fn cut_start(bounds: Seq<Bound>, i: int) -> int {
    if i == 0 {
        0
    } else {
        bounds[i - 1].offset as int
    }
}

/// Offset just past the `i`-th cell delimited by `bounds`, in a universe of
/// size `n`.
pub open spec fn cut_end(bounds: Seq<Bound>, n: int, i: int) -> int {
    if i == bounds.len() {
        n
    } else {
        bounds[i].offset as int
    }
}

/// Some bound cuts the element sequence at offset `o`.
pub open spec fn has_cut_at(bounds: Seq<Bound>, o: int) -> bool {
    exists|j: int| 0 <= j < bounds.len() && bounds[j].offset == o
}

/// Index of the cell that position `p` falls into: the number of bounds at or
/// before `p`.
pub open spec fn cell_of_pos(bounds: Seq<Bound>, p: int) -> int
    decreases bounds.len(),
{
    if bounds.len() == 0 {
        0
    } else if bounds.last().offset <= p {
        bounds.len() as int
    } else {
        cell_of_pos(bounds.drop_last(), p)
    }
}

/// The bound offsets are strictly increasing and lie strictly inside `(0, n)`.
pub open spec fn cuts_ok(bounds: Seq<Bound>, n: int) -> bool {
    &&& forall|j: int| 0 <= j < bounds.len() ==> 0 < #[trigger] bounds[j].offset < n
    &&& forall|j1: int, j2: int|
        0 <= j1 < j2 < bounds.len() ==> #[trigger] bounds[j1].offset < #[trigger] bounds[j2].offset
}

/// `s` holds each of `0, …, s.len()-1` exactly once.
pub open spec fn universe_permutation(s: Seq<usize>) -> bool {
    &&& forall|p: int| 0 <= p < s.len() ==> #[trigger] s[p] < s.len()
    &&& range_distinct(s, 0, s.len() as int)
    &&& forall|u: usize| u < s.len() ==> #[trigger] s.contains(u)
}

/// Strictly increasing bound offsets are monotone across any pair of indices.
pub(crate) proof fn lemma_cuts_monotone(bounds: Seq<Bound>, n: int, j1: int, j2: int)
    requires
        cuts_ok(bounds, n),
        0 <= j1 <= j2 < bounds.len(),
    ensures
        bounds[j1].offset <= bounds[j2].offset,
{
}

/// Dropping the last bound keeps the list well formed.
pub(crate) proof fn lemma_cuts_drop_last(bounds: Seq<Bound>, n: int)
    requires
        bounds.len() > 0,
        cuts_ok(bounds, n),
    ensures
        cuts_ok(bounds.drop_last(), n),
{
    let d = bounds.drop_last();
    assert forall|j: int| 0 <= j < d.len() implies 0 < #[trigger] d[j].offset < n by {
        assert(d[j] == bounds[j]);
    }
    assert forall|j1: int, j2: int|
        0 <= j1 < j2 < d.len() implies #[trigger] d[j1].offset < #[trigger] d[j2].offset by {
        assert(d[j1] == bounds[j1]);
        assert(d[j2] == bounds[j2]);
    }
}

/// Appending a bound past every existing offset keeps the list well formed.
pub(crate) proof fn lemma_cuts_push(bounds: Seq<Bound>, n: int, b: Bound)
    requires
        cuts_ok(bounds, n),
        0 < b.offset < n,
        forall|j: int| 0 <= j < bounds.len() ==> #[trigger] bounds[j].offset < b.offset,
    ensures
        cuts_ok(bounds.push(b), n),
{
    let e = bounds.push(b);
    assert forall|j: int| 0 <= j < e.len() implies 0 < #[trigger] e[j].offset < n by {
        if j < bounds.len() {
            assert(e[j] == bounds[j]);
        } else {
            assert(e[j] == b);
        }
    }
    assert forall|j1: int, j2: int|
        0 <= j1 < j2 < e.len() implies #[trigger] e[j1].offset < #[trigger] e[j2].offset by {
        if j2 < bounds.len() {
            assert(e[j1] == bounds[j1]);
            assert(e[j2] == bounds[j2]);
        } else {
            assert(e[j1] == bounds[j1]);
            assert(e[j2] == b);
        }
    }
}

/// Inserting a bound that fits between its neighbors keeps the list well
/// formed.
pub(crate) proof fn lemma_cuts_insert(bounds: Seq<Bound>, n: int, ci: int, b: Bound)
    requires
        cuts_ok(bounds, n),
        0 <= ci <= bounds.len(),
        0 < b.offset < n,
        ci > 0 ==> bounds[ci - 1].offset < b.offset,
        ci < bounds.len() ==> b.offset < bounds[ci].offset,
    ensures
        cuts_ok(bounds.insert(ci, b), n),
{
    bounds.insert_ensures(ci, b);
    let e = bounds.insert(ci, b);
    assert forall|j: int| 0 <= j < e.len() implies 0 < #[trigger] e[j].offset < n by {
        if j < ci {
            assert(e[j] == bounds[j]);
        } else if j == ci {
            assert(e[j] == b);
        } else {
            assert(e[j] == bounds[j - 1]);
        }
    }
    assert forall|j1: int, j2: int|
        0 <= j1 < j2 < e.len() implies #[trigger] e[j1].offset < #[trigger] e[j2].offset by {
        if j1 < ci {
            assert(e[j1] == bounds[j1]);
        } else if j1 == ci {
            assert(e[j1] == b);
        } else {
            assert(e[j1] == bounds[j1 - 1]);
        }
        if j2 < ci {
            assert(e[j2] == bounds[j2]);
        } else if j2 == ci {
            assert(e[j2] == b);
        } else {
            assert(e[j2] == bounds[j2 - 1]);
        }
    }
}

/// Removing a bound keeps the list well formed.
pub(crate) proof fn lemma_cuts_remove(bounds: Seq<Bound>, n: int, ci: int)
    requires
        cuts_ok(bounds, n),
        0 <= ci < bounds.len(),
    ensures
        cuts_ok(bounds.remove(ci), n),
{
    bounds.remove_ensures(ci);
    let e = bounds.remove(ci);
    assert forall|j: int| 0 <= j < e.len() implies 0 < #[trigger] e[j].offset < n by {
        if j < ci {
            assert(e[j] == bounds[j]);
        } else {
            assert(e[j] == bounds[j + 1]);
        }
    }
    assert forall|j1: int, j2: int|
        0 <= j1 < j2 < e.len() implies #[trigger] e[j1].offset < #[trigger] e[j2].offset by {
        if j1 < ci {
            assert(e[j1] == bounds[j1]);
        } else {
            assert(e[j1] == bounds[j1 + 1]);
        }
        if j2 < ci {
            assert(e[j2] == bounds[j2]);
        } else {
            assert(e[j2] == bounds[j2 + 1]);
        }
    }
}

/// Cell ranges after inserting a bound at index `ci`, in terms of the old
/// ranges.
pub(crate) proof fn lemma_insert_cut_map(bounds: Seq<Bound>, n: int, ci: int, b: Bound)
    requires
        0 <= ci <= bounds.len(),
    ensures
        forall|i: int|
            0 <= i <= ci ==> #[trigger] cut_start(bounds.insert(ci, b), i) == cut_start(bounds, i),
        cut_start(bounds.insert(ci, b), ci + 1) == b.offset,
        forall|i: int|
            ci + 2 <= i <= bounds.len() + 1 ==> #[trigger] cut_start(bounds.insert(ci, b), i)
                == cut_start(bounds, i - 1),
        forall|i: int|
            0 <= i < ci ==> #[trigger] cut_end(bounds.insert(ci, b), n, i) == cut_end(bounds, n, i),
        cut_end(bounds.insert(ci, b), n, ci) == b.offset,
        cut_end(bounds.insert(ci, b), n, ci + 1) == cut_end(bounds, n, ci),
        forall|i: int|
            ci + 2 <= i <= bounds.len() + 1 ==> #[trigger] cut_end(bounds.insert(ci, b), n, i)
                == cut_end(bounds, n, i - 1),
{
    bounds.insert_ensures(ci, b);
    let e = bounds.insert(ci, b);
    assert(forall|j: int| 0 <= j < ci ==> #[trigger] e[j] == bounds[j]);
    assert(e[ci] == b);
    assert(forall|j: int| ci < j < e.len() ==> #[trigger] e[j] == bounds[j - 1]);
}

/// Cell ranges after removing the bound at index `ci`, in terms of the old
/// ranges.
pub(crate) proof fn lemma_remove_cut_map(bounds: Seq<Bound>, n: int, ci: int)
    requires
        0 <= ci < bounds.len(),
    ensures
        forall|i: int|
            0 <= i <= ci ==> #[trigger] cut_start(bounds.remove(ci), i) == cut_start(bounds, i),
        forall|i: int|
            ci + 1 <= i <= bounds.len() - 1 ==> #[trigger] cut_start(bounds.remove(ci), i)
                == cut_start(bounds, i + 1),
        forall|i: int|
            0 <= i < ci ==> #[trigger] cut_end(bounds.remove(ci), n, i) == cut_end(bounds, n, i),
        cut_end(bounds.remove(ci), n, ci) == cut_end(bounds, n, ci + 1),
        forall|i: int|
            ci + 1 <= i <= bounds.len() - 1 ==> #[trigger] cut_end(bounds.remove(ci), n, i)
                == cut_end(bounds, n, i + 1),
{
    bounds.remove_ensures(ci);
    let e = bounds.remove(ci);
    assert(forall|j: int| 0 <= j < ci ==> #[trigger] e[j] == bounds[j]);
    assert(forall|j: int| ci <= j < e.len() ==> #[trigger] e[j] == bounds[j + 1]);
}

/// A cell's range is well formed and no bound offset falls strictly inside it.
pub(crate) proof fn lemma_cell_range(bounds: Seq<Bound>, n: int, i: int)
    requires
        cuts_ok(bounds, n),
        0 <= n,
        0 <= i <= bounds.len(),
    ensures
        0 <= cut_start(bounds, i) <= cut_end(bounds, n, i) <= n,
        forall|o: int|
            cut_start(bounds, i) < o < cut_end(bounds, n, i) ==> !has_cut_at(bounds, o),
{
    if i > 0 && i < bounds.len() {
        lemma_cuts_monotone(bounds, n, i - 1, i);
    }
    assert forall|o: int|
        cut_start(bounds, i) < o < cut_end(bounds, n, i) implies !has_cut_at(bounds, o) by {
        if has_cut_at(bounds, o) {
            let j = choose|j: int| 0 <= j < bounds.len() && bounds[j].offset == o;
            if j < i {
                lemma_cuts_monotone(bounds, n, j, i - 1);
            } else {
                lemma_cuts_monotone(bounds, n, i, j);
            }
        }
    }
}

/// A position inside the `i`-th cell's range is assigned cell `i` by
/// `cell_of_pos`.
pub(crate) proof fn lemma_cell_of_pos_unique(bounds: Seq<Bound>, n: int, i: int, p: int)
    requires
        cuts_ok(bounds, n),
        0 <= i <= bounds.len(),
        cut_start(bounds, i) <= p < cut_end(bounds, n, i),
    ensures
        cell_of_pos(bounds, p) == i,
    decreases bounds.len(),
{
    if bounds.len() == 0 {
    } else if i == bounds.len() {
        assert(bounds.last().offset <= p);
    } else {
        lemma_cuts_monotone(bounds, n, i, bounds.len() - 1);
        assert(p < bounds.last().offset);
        let dropped = bounds.drop_last();
        lemma_cuts_drop_last(bounds, n);
        if i == dropped.len() {
            assert(cut_end(dropped, n, i) == n);
            assert(p < n);
        }
        lemma_cell_of_pos_unique(dropped, n, i, p);
    }
}

/// The cell index of any position is within range, and the position lies in
/// that cell's range.
pub(crate) proof fn lemma_cell_of_pos_range(bounds: Seq<Bound>, n: int, p: int)
    requires
        cuts_ok(bounds, n),
        0 <= p < n,
    ensures
        0 <= cell_of_pos(bounds, p) <= bounds.len(),
        cut_start(bounds, cell_of_pos(bounds, p)) <= p < cut_end(bounds, n, cell_of_pos(bounds, p)),
    decreases bounds.len(),
{
    if bounds.len() == 0 {
    } else if bounds.last().offset <= p {
    } else {
        let dropped = bounds.drop_last();
        lemma_cuts_drop_last(bounds, n);
        lemma_cell_of_pos_range(dropped, n, p);
        let c = cell_of_pos(dropped, p);
        if c == dropped.len() {
            assert(cut_end(bounds, n, c) == bounds[c].offset);
        }
    }
}

/// Pairwise order from adjacent order within a range.
pub(crate) proof fn lemma_adjacent_implies_sorted(s: Seq<usize>, lo: int, hi: int)
    requires
        forall|p: int| lo <= p && p + 1 < hi ==> #[trigger] s[p] < s[p + 1],
    ensures
        range_sorted(s, lo, hi),
    decreases hi - lo,
{
    if hi - lo >= 2 {
        lemma_adjacent_implies_sorted(s, lo, hi - 1);
        assert forall|p: int, q: int| lo <= p < q < hi implies s[p] < s[q] by {
            if q == hi - 1 && p < q - 1 {
                assert(s[p] < s[q - 1]);
            }
        }
    }
}

/// An ordered partition of the universe `{0, …, n-1}`: the elements laid out
/// contiguously, cut into cells by `bounds`, each cell sorted.
#[derive(Debug)]
pub struct Coloring {
    /// The universe, ordered by cell first and by `<` within each cell.
    pub elements: Vec<usize>,

    /// Strictly increasing cut offsets; `k` bounds delimit `k + 1` cells.
    pub bounds: Vec<Bound>,
}

impl Coloring {
    /// Size of the partitioned universe.
    pub open spec fn n(self) -> int {
        self.elements@.len() as int
    }

    /// Number of cells.
    pub open spec fn spec_len(self) -> int {
        self.bounds@.len() as int + 1
    }

    /// Start offset of cell `i`.
    pub open spec fn cell_start_spec(self, i: int) -> int {
        cut_start(self.bounds@, i)
    }

    /// End offset of cell `i`.
    pub open spec fn cell_end_spec(self, i: int) -> int {
        cut_end(self.bounds@, self.n(), i)
    }

    /// Contents of cell `i`.
    pub open spec fn cell_seq(self, i: int) -> Seq<usize> {
        self.elements@.subrange(self.cell_start_spec(i), self.cell_end_spec(i))
    }

    /// Index of the cell that holds position `p`.
    pub open spec fn cell_of(self, p: int) -> int {
        cell_of_pos(self.bounds@, p)
    }

    /// Each cell is strictly increasing.
    pub open spec fn cells_sorted(self) -> bool {
        forall|i: int|
            0 <= i <= self.bounds@.len() ==> range_sorted(
                self.elements@,
                #[trigger] self.cell_start_spec(i),
                self.cell_end_spec(i),
            )
    }

    /// The coloring invariant: the elements are a permutation of the
    /// universe, the bounds are strictly increasing offsets inside it, and
    /// every cell is sorted.
    pub open spec fn wf(self) -> bool {
        &&& universe_permutation(self.elements@)
        &&& cuts_ok(self.bounds@, self.n())
        &&& self.cells_sorted()
    }

    /// The coloring is discrete: every cell is a singleton.
    pub open spec fn spec_is_discrete(self) -> bool {
        self.spec_len() == self.n()
    }

    /// Creates the unit coloring of the universe `{0, …, n-1}`.
    pub fn new(n: usize) -> (r: Self)
        ensures
            r.wf(),
            r.n() == n,
            r.bounds@.len() == 0,
            forall|p: int| 0 <= p < n ==> #[trigger] r.elements@[p] == p,
    {
        let mut elements: Vec<usize> = Vec::new();
        let mut i: usize = 0;
        while i < n
            invariant
                i <= n,
                elements@.len() == i,
                forall|p: int| 0 <= p < i ==> #[trigger] elements@[p] == p,
            decreases n - i,
        {
            elements.push(i);
            i = i + 1;
        }
        let r = Coloring { elements, bounds: Vec::new() };
        proof {
            assert forall|u: usize| u < r.elements@.len() implies #[trigger] r.elements@.contains(
                u,
            ) by {
                assert(r.elements@[u as int] == u);
            }
        }
        r
    }

    /// Creates the coloring whose cells are the classes of equal `key` value,
    /// ordered by key; elements are sorted within each cell.
    ///
    /// The result is fully determined: the elements are the universe
    /// `{0, …, key.len()-1}` sorted by key first and value second, and a cut
    /// falls exactly where the key changes. All bounds carry depth 0.
    pub fn from_map(key: &Vec<u64>) -> (r: Self)
        ensures
            r.wf(),
            r.n() == key@.len(),
            range_sorted_by_key(r.elements@, key@, 0, r.n()),
            forall|o: int|
                #[trigger] has_cut_at(r.bounds@, o) <==> (0 < o < r.n() && key@[
                    r.elements@[o - 1] as int
                ] != key@[r.elements@[o] as int]),
            forall|j: int| 0 <= j < r.bounds@.len() ==> #[trigger] r.bounds@[j].depth == 0,
    {
        let n = key.len();
        let mut coloring = Coloring::new(n);
        let ghost ident = coloring.elements@;
        sort_range_by_key(&mut coloring.elements, 0, n, key);
        proof {
            lemma_range_multiset_bound(ident, coloring.elements@, 0, n as int, n as int);
            assert forall|u: usize| u < n implies #[trigger] coloring.elements@.contains(u) by {
                assert(ident[u as int] == u);
                lemma_range_multiset_in_range(ident, coloring.elements@, 0, n as int, u as int);
            }
            assert(universe_permutation(coloring.elements@));
        }
        let mut i: usize = 1;
        while i < n
            invariant
                1 <= i,
                n > 0 ==> i <= n,
                n == 0 ==> i == 1,
                coloring.elements@.len() == n,
                coloring.bounds@.len() < i,
                universe_permutation(coloring.elements@),
                range_sorted_by_key(coloring.elements@, key@, 0, n as int),
                key@.len() == n,
                cuts_ok(coloring.bounds@, n as int),
                forall|j: int|
                    0 <= j < coloring.bounds@.len() ==> #[trigger] coloring.bounds@[j].offset < i,
                forall|o: int|
                    #[trigger] has_cut_at(coloring.bounds@, o) <==> (0 < o < i && key@[
                        coloring.elements@[o - 1] as int
                    ] != key@[coloring.elements@[o] as int]),
                forall|j: int|
                    0 <= j < coloring.bounds@.len() ==> #[trigger] coloring.bounds@[j].depth == 0,
            decreases n - i,
        {
            let a = coloring.elements[i - 1];
            let b = coloring.elements[i];
            let ghost old_bounds = coloring.bounds@;
            if key[a] != key[b] {
                let ghost len0 = coloring.bounds@.len() as int;
                coloring.bounds.push(Bound::new(i));
                proof {
                    lemma_cuts_push(old_bounds, n as int, Bound { offset: i, depth: 0 });
                    assert forall|o: int| #[trigger] has_cut_at(coloring.bounds@, o) implies (0 < o
                        < i + 1 && key@[coloring.elements@[o - 1] as int] != key@[
                        coloring.elements@[o] as int
                    ]) by {
                        let j = choose|j: int|
                            0 <= j < coloring.bounds@.len() && coloring.bounds@[j].offset == o;
                        if j < len0 {
                            assert(has_cut_at(old_bounds, o));
                        }
                    }
                    assert forall|o: int|
                        (0 < o < i + 1 && key@[coloring.elements@[o - 1] as int] != key@[
                            coloring.elements@[o] as int
                        ]) implies #[trigger] has_cut_at(coloring.bounds@, o) by {
                        if o < i {
                            assert(has_cut_at(old_bounds, o));
                            let j = choose|j: int|
                                0 <= j < old_bounds.len() && old_bounds[j].offset == o;
                            assert(coloring.bounds@[j].offset == o);
                        } else {
                            assert(coloring.bounds@[len0].offset == o);
                        }
                    }
                }
            } else {
                proof {
                    assert forall|o: int|
                        (0 < o < i + 1 && key@[coloring.elements@[o - 1] as int] != key@[
                            coloring.elements@[o] as int
                        ]) implies #[trigger] has_cut_at(coloring.bounds@, o) by {
                        assert(o != i);
                    }
                }
            }
            i = i + 1;
        }
        proof {
            coloring.lemma_key_classes_sorted(key@);
        }
        coloring
    }

    /// Within-cell sortedness follows from key-sortedness when cuts fall
    /// exactly at key changes.
    #[verifier::rlimit(100)]
    proof fn lemma_key_classes_sorted(self, key: Seq<u64>)
        requires
            universe_permutation(self.elements@),
            cuts_ok(self.bounds@, self.n()),
            key.len() == self.n(),
            range_sorted_by_key(self.elements@, key, 0, self.n()),
            forall|o: int|
                #[trigger] has_cut_at(self.bounds@, o) <==> (0 < o < self.n() && key[
                    self.elements@[o - 1] as int
                ] != key[self.elements@[o] as int]),
        ensures
            self.cells_sorted(),
    {
        assert forall|i: int|
            0 <= i <= self.bounds@.len() implies range_sorted(
            self.elements@,
            #[trigger] self.cell_start_spec(i),
            self.cell_end_spec(i),
        ) by {
            lemma_cell_range(self.bounds@, self.n(), i);
            let lo = self.cell_start_spec(i);
            let hi = self.cell_end_spec(i);
            assert forall|p: int| lo <= p && p + 1 < hi implies #[trigger] self.elements@[p]
                < self.elements@[p + 1] by {
                assert(!has_cut_at(self.bounds@, p + 1));
                assert(lex_lt(key, self.elements@[p], self.elements@[p + 1]));
            }
            lemma_adjacent_implies_sorted(self.elements@, lo, hi);
        }
    }

    /// Number of cells in the coloring.
    pub fn len(&self) -> (r: usize)
        requires
            self.wf(),
        ensures
            r == self.spec_len(),
            r <= self.n() || self.n() == 0,
    {
        proof {
            lemma_num_cuts(self.bounds@, self.n());
        }
        let nb = self.bounds.len();
        let ne = self.elements.len();
        assert(nb == 0 || nb < ne);
        nb + 1
    }

    /// The coloring has a single cell.
    pub fn is_unit(&self) -> (r: bool)
        ensures
            r == (self.bounds@.len() == 0),
    {
        self.bounds.is_empty()
    }

    /// Every cell is a singleton.
    pub fn is_discrete(&self) -> (r: bool)
        requires
            self.wf(),
        ensures
            r == self.spec_is_discrete(),
    {
        self.len() == self.elements.len()
    }

    /// Start offset of cell `i`, or `None` past the last cell.
    pub fn color_start(&self, i: usize) -> (r: Option<usize>)
        ensures
            i < self.spec_len() ==> r == Some(self.cell_start_spec(i as int) as usize),
            i >= self.spec_len() ==> r is None,
    {
        if i == 0 {
            Some(0)
        } else if i - 1 < self.bounds.len() {
            Some(self.bounds[i - 1].offset)
        } else {
            None
        }
    }

    /// The `i`-th cell, or `None` past the last cell.
    pub fn get(&self, i: usize) -> (r: Option<&[usize]>)
        requires
            self.wf(),
        ensures
            i < self.spec_len() ==> r is Some && r.unwrap()@ == self.cell_seq(i as int),
            i >= self.spec_len() ==> r is None,
    {
        if i > self.bounds.len() {
            return None;
        }
        proof {
            lemma_cell_range(self.bounds@, self.n(), i as int);
        }
        let start = if i == 0 {
            0
        } else {
            self.bounds[i - 1].offset
        };
        let end = if i < self.bounds.len() {
            self.bounds[i].offset
        } else {
            self.elements.len()
        };
        Some(vstd::slice::slice_subrange(self.elements.as_slice(), start, end))
    }

    /// Cell index of `item` by linear scan, or `None` if `item` is not in the
    /// universe.
    pub fn color_index_of(&self, item: &usize) -> (r: Option<usize>)
        requires
            self.wf(),
        ensures
            *item < self.n() ==> r == Some(self.cell_of(self.position_of(*item)) as usize),
            *item >= self.n() ==> r is None,
    {
        let n = self.elements.len();
        let mut p: usize = 0;
        while p < n
            invariant
                p <= n,
                n == self.n(),
                self.wf(),
                forall|q: int| 0 <= q < p ==> self.elements@[q] != *item,
            decreases n - p,
        {
            if self.elements[p] == *item {
                // Count the bounds at or before `p`.
                let mut j: usize = 0;
                let mut c: usize = 0;
                while j < self.bounds.len()
                    invariant
                        j <= self.bounds@.len(),
                        self.wf(),
                        p < self.n(),
                        c <= j,
                        c == count_cuts_le(self.bounds@.take(j as int), p as int),
                    decreases self.bounds@.len() - j,
                {
                    proof {
                        assert(self.bounds@.take(j + 1).drop_last() =~= self.bounds@.take(
                            j as int,
                        ));
                    }
                    if self.bounds[j].offset <= p {
                        c = c + 1;
                    }
                    j = j + 1;
                }
                proof {
                    assert(self.bounds@.take(self.bounds@.len() as int) =~= self.bounds@);
                    lemma_count_cuts_le_is_cell_of(self.bounds@, self.n(), p as int);
                    assert(self.position_of(*item) == p) by {
                        assert(self.elements@[p as int] == *item);
                        let q = self.position_of(*item);
                        assert(0 <= q < self.elements@.len() && self.elements@[q] == *item);
                    }
                }
                return Some(c);
            }
            p = p + 1;
        }
        proof {
            if *item < self.n() {
                assert(self.elements@.contains(*item));
                let q = choose|q: int|
                    0 <= q < self.elements@.len() && self.elements@[q] == *item;
                assert(false);
            }
        }
        None
    }

    /// Position of `u` in the element sequence.
    pub open spec fn position_of(self, u: usize) -> int {
        choose|p: int| 0 <= p < self.elements@.len() && self.elements@[p] == u
    }

    /// Zeroes the depth of every bound.
    pub(crate) fn reset_bounds(&mut self)
        ensures
            final(self).elements@ == old(self).elements@,
            final(self).bounds@.len() == old(self).bounds@.len(),
            forall|j: int|
                0 <= j < final(self).bounds@.len() ==> #[trigger] final(self).bounds@[j]
                    == (Bound { offset: old(self).bounds@[j].offset, depth: 0 }),
    {
        let ghost orig = self.bounds@;
        let mut j: usize = 0;
        while j < self.bounds.len()
            invariant
                j <= self.bounds@.len(),
                self.bounds@.len() == orig.len(),
                self.elements@ == old(self).elements@,
                forall|k: int| j <= k < orig.len() ==> #[trigger] self.bounds@[k] == orig[k],
                forall|k: int|
                    0 <= k < j ==> #[trigger] self.bounds@[k] == (Bound {
                        offset: orig[k].offset,
                        depth: 0,
                    }),
            decreases self.bounds@.len() - j,
        {
            let off = self.bounds[j].offset;
            self.bounds.set(j, Bound { offset: off, depth: 0 });
            j = j + 1;
        }
    }
}

/// Each bound offset is at least its index plus one, so there are fewer
/// bounds than elements.
pub(crate) proof fn lemma_num_cuts(bounds: Seq<Bound>, n: int)
    requires
        cuts_ok(bounds, n),
    ensures
        bounds.len() == 0 || bounds.len() < n,
        forall|j: int| 0 <= j < bounds.len() ==> j + 1 <= #[trigger] bounds[j].offset,
    decreases bounds.len(),
{
    if bounds.len() > 0 {
        let dropped = bounds.drop_last();
        lemma_cuts_drop_last(bounds, n);
        lemma_num_cuts(dropped, n);
        assert forall|j: int| 0 <= j < bounds.len() implies j + 1 <= #[trigger] bounds[j].offset by {
            if j < bounds.len() - 1 {
                assert(dropped[j] == bounds[j]);
            } else if j > 0 {
                assert(dropped[j - 1] == bounds[j - 1]);
                assert(bounds[j - 1].offset < bounds[j].offset);
            }
        }
        assert(bounds.len() as int <= bounds[bounds.len() - 1].offset);
    }
}

/// Number of bounds with offset at or before `p`.
pub open spec fn count_cuts_le(bounds: Seq<Bound>, p: int) -> int
    decreases bounds.len(),
{
    if bounds.len() == 0 {
        0
    } else {
        count_cuts_le(bounds.drop_last(), p) + if bounds.last().offset <= p {
            1int
        } else {
            0int
        }
    }
}

/// For sorted bounds, counting the cuts at or before a position computes its
/// cell index.
pub(crate) proof fn lemma_count_cuts_le_is_cell_of(bounds: Seq<Bound>, n: int, p: int)
    requires
        cuts_ok(bounds, n),
        0 <= p < n,
    ensures
        count_cuts_le(bounds, p) == cell_of_pos(bounds, p),
    decreases bounds.len(),
{
    if bounds.len() > 0 {
        let dropped = bounds.drop_last();
        lemma_cuts_drop_last(bounds, n);
        lemma_count_cuts_le_is_cell_of(dropped, n, p);
        if bounds.last().offset <= p {
            // Every earlier bound is also at or before `p`.
            assert forall|j: int| 0 <= j < dropped.len() implies #[trigger] dropped[j].offset
                <= p by {
                lemma_cuts_monotone(bounds, n, j, bounds.len() - 1);
            }
            lemma_count_cuts_all(dropped, n, p);
        }
    }
}

/// When every bound offset is at or before `p`, the count is the length.
proof fn lemma_count_cuts_all(bounds: Seq<Bound>, n: int, p: int)
    requires
        cuts_ok(bounds, n),
        forall|j: int| 0 <= j < bounds.len() ==> #[trigger] bounds[j].offset <= p,
    ensures
        count_cuts_le(bounds, p) == bounds.len(),
    decreases bounds.len(),
{
    if bounds.len() > 0 {
        let dropped = bounds.drop_last();
        lemma_cuts_drop_last(bounds, n);
        assert(forall|j: int| 0 <= j < dropped.len() ==> #[trigger] dropped[j].offset <= p);
        lemma_count_cuts_all(dropped, n, p);
    }
}


/// Re-sorting `lo..hi` of one sequence into another preserves permutations of
/// the universe.
pub(crate) proof fn lemma_permutation_preserved(s1: Seq<usize>, s2: Seq<usize>, lo: int, hi: int)
    requires
        universe_permutation(s1),
        s2.len() == s1.len(),
        0 <= lo <= hi <= s1.len(),
        same_outside(s1, s2, lo, hi),
        same_range_multiset(s1, s2, lo, hi),
    ensures
        universe_permutation(s2),
{
    let n = s1.len() as int;
    assert forall|p: int| 0 <= p < n implies #[trigger] s2[p] < n by {
        if lo <= p < hi {
            lemma_range_multiset_bound(s1, s2, lo, hi, n);
        }
    }
    assert forall|p: int, q: int| 0 <= p < q < n implies s2[p] != s2[q] by {
        if lo <= p < hi && lo <= q < hi {
            lemma_range_multiset_distinct(s1, s2, lo, hi);
        } else if lo <= q < hi {
            lemma_range_multiset_in_range(s2, s1, lo, hi, q);
            let q1 = choose|q1: int| lo <= q1 < hi && s1[q1] == s2[q];
            assert(s1[p] != s1[q1]);
        } else if lo <= p < hi {
            lemma_range_multiset_in_range(s2, s1, lo, hi, p);
            let p1 = choose|p1: int| lo <= p1 < hi && s1[p1] == s2[p];
            assert(s1[p1] != s1[q]);
        }
    }
    assert forall|u: usize| u < s2.len() implies #[trigger] s2.contains(u) by {
        assert(s1.contains(u));
        let p = choose|p: int| 0 <= p < s1.len() && s1[p] == u;
        if lo <= p < hi {
            lemma_range_multiset_in_range(s1, s2, lo, hi, p);
            let q = choose|q: int| lo <= q < hi && s2[q] == s1[p];
            assert(s2[q] == u);
        } else {
            assert(s2[p] == u);
        }
    }
}

impl Coloring {
    /// The position holding `elements[p]` is `p` itself.
    pub(crate) proof fn lemma_position_of_index(self, p: int)
        requires
            universe_permutation(self.elements@),
            0 <= p < self.n(),
        ensures
            self.position_of(self.elements@[p]) == p,
    {
        let u = self.elements@[p];
        assert(0 <= p < self.elements@.len() && self.elements@[p] == u);
        let q = self.position_of(u);
        assert(0 <= q < self.elements@.len() && self.elements@[q] == u);
    }

    /// Sorts each cell of the coloring in place; the multiset of each cell is
    /// unchanged, and so are the bounds.
    pub(crate) fn sort_cells(&mut self)
        requires
            universe_permutation(old(self).elements@),
            cuts_ok(old(self).bounds@, old(self).n()),
        ensures
            final(self).bounds@ == old(self).bounds@,
            final(self).n() == old(self).n(),
            universe_permutation(final(self).elements@),
            final(self).cells_sorted(),
            forall|i: int|
                0 <= i <= final(self).bounds@.len() ==> same_range_multiset(
                    old(self).elements@,
                    final(self).elements@,
                    #[trigger] cut_start(final(self).bounds@, i),
                    cut_end(final(self).bounds@, final(self).n(), i),
                ),
    {
        let ghost orig = self.elements@;
        let ghost bs = self.bounds@;
        let ghost n0 = self.n();
        proof {
            lemma_num_cuts(self.bounds@, self.n());
        }
        let nb = self.bounds.len();
        let ne = self.elements.len();
        assert(nb == 0 || nb < ne);
        let nc = nb + 1;
        let mut i: usize = 0;
        while i < nc
            invariant
                nc == bs.len() + 1,
                self.bounds@ == bs,
                self.elements@.len() == n0,
                orig.len() == n0,
                n0 == self.n(),
                universe_permutation(orig),
                universe_permutation(self.elements@),
                cuts_ok(bs, n0),
                i <= nc,
                forall|j: int|
                    0 <= j < i ==> range_sorted(
                        self.elements@,
                        #[trigger] cut_start(bs, j),
                        cut_end(bs, n0, j),
                    ),
                forall|j: int|
                    0 <= j < i ==> same_range_multiset(
                        orig,
                        self.elements@,
                        #[trigger] cut_start(bs, j),
                        cut_end(bs, n0, j),
                    ),
                i < nc ==> forall|p: int|
                    cut_start(bs, i as int) <= p < n0 ==> self.elements@[p] == orig[p],
            decreases nc - i,
        {
            proof {
                lemma_cell_range(bs, n0, i as int);
            }
            let start = if i == 0 {
                0
            } else {
                self.bounds[i - 1].offset
            };
            let end = if i < self.bounds.len() {
                self.bounds[i].offset
            } else {
                self.elements.len()
            };
            assert(start as int == cut_start(bs, i as int));
            assert(end as int == cut_end(bs, n0, i as int));
            let ghost before = self.elements@;
            sort_range(&mut self.elements, start, end);
            proof {
                lemma_permutation_preserved(before, self.elements@, start as int, end as int);
                assert forall|j: int|
                    0 <= j < i + 1 implies same_range_multiset(
                    orig,
                    self.elements@,
                    #[trigger] cut_start(bs, j),
                    cut_end(bs, n0, j),
                ) && range_sorted(self.elements@, cut_start(bs, j), cut_end(bs, n0, j)) by {
                    lemma_cell_range(bs, n0, j);
                    if j < i {
                        assert(cut_end(bs, n0, j) <= start as int) by {
                            if j < bs.len() {
                                lemma_cuts_monotone(bs, n0, j, i as int - 1);
                            }
                        }
                        assert(self.elements@.subrange(cut_start(bs, j), cut_end(bs, n0, j))
                            =~= before.subrange(cut_start(bs, j), cut_end(bs, n0, j)));
                    } else {
                        assert(before.subrange(start as int, end as int) =~= orig.subrange(
                            start as int,
                            end as int,
                        ));
                    }
                }
                if i + 1 < nc {
                    assert(cut_start(bs, i as int + 1) == end as int);
                    assert forall|p: int|
                        cut_start(bs, i as int + 1) <= p < n0 implies self.elements@[p]
                        == orig[p] by {
                        assert(self.elements@[p] == before[p]);
                    }
                }
            }
            i = i + 1;
        }
        proof {
            assert forall|i: int|
                0 <= i <= self.bounds@.len() implies range_sorted(
                self.elements@,
                #[trigger] self.cell_start_spec(i),
                self.cell_end_spec(i),
            ) by {
                assert(range_sorted(self.elements@, cut_start(bs, i), cut_end(bs, n0, i)));
            }
        }
    }
}

/// A coloring together with its reverse index (element to cell index) and a
/// nesting depth for scoped refinement.
#[derive(Debug)]
pub struct ReversibleColoring {
    /// The ordered partition.
    pub coloring: Coloring,

    /// For each element of the universe, the index of the cell holding it.
    pub reverse: Vec<usize>,

    /// Current nesting level of scoped refinements.
    pub depth: usize,
}

impl ReversibleColoring {
    /// Size of the partitioned universe.
    pub open spec fn n(self) -> int {
        self.coloring.n()
    }

    /// Cell index recorded for element `u`.
    pub open spec fn rev_at(self, u: usize) -> int {
        self.reverse@[u as int] as int
    }

    /// The reverse index agrees with the coloring at every position.
    pub open spec fn rev_ok(self) -> bool {
        &&& self.reverse@.len() == self.n()
        &&& forall|p: int|
            0 <= p < self.n() ==> #[trigger] self.reverse@[self.coloring.elements@[p] as int]
                == self.coloring.cell_of(p)
    }

    /// Every bound was introduced at or below the current depth.
    pub open spec fn depths_ok(self) -> bool {
        forall|j: int|
            0 <= j < self.coloring.bounds@.len() ==> #[trigger] self.coloring.bounds@[j].depth
                <= self.depth
    }

    /// The full invariant: a well-formed coloring, a consistent reverse
    /// index, and depth-consistent bounds.
    pub open spec fn wf(self) -> bool {
        &&& self.coloring.wf()
        &&& self.rev_ok()
        &&& self.depths_ok()
    }

    /// Element `u` lies in the cell its reverse entry names.
    pub proof fn lemma_rev_of_element(self, u: usize)
        requires
            self.wf(),
            u < self.n(),
        ensures
            0 <= self.rev_at(u) <= self.coloring.bounds@.len(),
            self.coloring.cell_start_spec(self.rev_at(u)) <= self.coloring.position_of(u)
                < self.coloring.cell_end_spec(self.rev_at(u)),
            self.coloring.elements@[self.coloring.position_of(u)] == u,
            self.coloring.cell_seq(self.rev_at(u)).contains(u),
    {
        assert(self.coloring.elements@.contains(u));
        let p = self.coloring.position_of(u);
        assert(0 <= p < self.n() && self.coloring.elements@[p] == u);
        lemma_cell_of_pos_range(self.coloring.bounds@, self.n(), p);
        assert(self.reverse@[u as int] == self.coloring.cell_of(p));
        let i = self.rev_at(u);
        lemma_cell_range(self.coloring.bounds@, self.n(), i);
        assert(self.coloring.cell_seq(i)[p - self.coloring.cell_start_spec(i)] == u);
    }

    /// The reverse index characterizes cell membership: `reverse[u] == i`
    /// exactly when `u` lies in cell `i`.
    pub proof fn lemma_reverse_characterizes_cells(self, u: usize, i: int)
        requires
            self.wf(),
            u < self.n(),
            0 <= i <= self.coloring.bounds@.len(),
        ensures
            self.rev_at(u) == i <==> self.coloring.cell_seq(i).contains(u),
    {
        self.lemma_rev_of_element(u);
        let p = self.coloring.position_of(u);
        if self.coloring.cell_seq(i).contains(u) {
            lemma_cell_range(self.coloring.bounds@, self.n(), i);
            let q0 = choose|q0: int|
                0 <= q0 < self.coloring.cell_seq(i).len() && self.coloring.cell_seq(i)[q0] == u;
            let q = q0 + self.coloring.cell_start_spec(i);
            assert(self.coloring.elements@[q] == u);
            assert(q == p);
            lemma_cell_of_pos_unique(self.coloring.bounds@, self.n(), i, q);
        }
    }

    /// Creates the reversible unit coloring of `{0, …, n-1}`.
    pub fn new(n: usize) -> (r: Self)
        ensures
            r.wf(),
            r.n() == n,
            r.depth == 0,
            r.coloring.bounds@.len() == 0,
    {
        let coloring = Coloring::new(n);
        let mut reverse: Vec<usize> = Vec::new();
        let mut u: usize = 0;
        while u < n
            invariant
                u <= n,
                reverse@.len() == u,
                forall|v: int| 0 <= v < u ==> #[trigger] reverse@[v] == 0,
            decreases n - u,
        {
            reverse.push(0);
            u = u + 1;
        }
        ReversibleColoring { coloring, reverse, depth: 0 }
    }

    /// Wraps a coloring, zeroing every bound depth and rebuilding the reverse
    /// index from scratch.
    #[verifier::rlimit(50)]
    pub fn from_coloring(coloring: Coloring) -> (r: Self)
        requires
            coloring.wf(),
        ensures
            r.wf(),
            r.depth == 0,
            r.n() == coloring.n(),
            r.coloring.elements@ == coloring.elements@,
            r.coloring.bounds@.len() == coloring.bounds@.len(),
            forall|j: int|
                0 <= j < coloring.bounds@.len() ==> #[trigger] r.coloring.bounds@[j] == (Bound {
                    offset: coloring.bounds@[j].offset,
                    depth: 0,
                }),
    {
        let ghost orig = coloring;
        let mut coloring = coloring;
        coloring.reset_bounds();
        proof {
            assert forall|i: int|
                0 <= i <= coloring.bounds@.len() implies range_sorted(
                coloring.elements@,
                #[trigger] coloring.cell_start_spec(i),
                coloring.cell_end_spec(i),
            ) by {
                assert(coloring.cell_start_spec(i) == orig.cell_start_spec(i));
                assert(coloring.cell_end_spec(i) == orig.cell_end_spec(i));
                assert(range_sorted(orig.elements@, orig.cell_start_spec(i), orig.cell_end_spec(i)));
            }
            assert(coloring.wf());
        }
        let n = coloring.elements.len();
        let mut reverse: Vec<usize> = Vec::new();
        let mut u: usize = 0;
        while u < n
            invariant
                u <= n,
                n == coloring.n(),
                coloring.wf(),
                reverse@.len() == u,
                forall|v: usize|
                    v < u ==> #[trigger] reverse@[v as int] == coloring.cell_of(
                        coloring.position_of(v),
                    ),
            decreases n - u,
        {
            proof {
                crate::sorting::lemma_vec_len_bound(&coloring.elements);
                lemma_num_cuts(coloring.bounds@, coloring.n());
                assert(coloring.elements@.contains(u));
                let p = coloring.position_of(u);
                assert(0 <= p < coloring.n() && coloring.elements@[p] == u);
                lemma_cell_of_pos_range(coloring.bounds@, coloring.n(), p);
            }
            let c = coloring.color_index_of(&u).unwrap();
            reverse.push(c);
            u = u + 1;
        }
        let r = ReversibleColoring { coloring, reverse, depth: 0 };
        proof {
            assert forall|p: int|
                0 <= p < r.n() implies #[trigger] r.reverse@[r.coloring.elements@[p] as int]
                == r.coloring.cell_of(p) by {
                r.coloring.lemma_position_of_index(p);
            }
        }
        r
    }

    /// Cell index of `item`, by reverse lookup.
    pub fn color_index_of(&self, item: &usize) -> (r: Option<usize>)
        ensures
            (*item as int) < self.reverse@.len() ==> r == Some(self.rev_at(*item) as usize),
            (*item as int) >= self.reverse@.len() ==> r is None,
    {
        if *item < self.reverse.len() {
            Some(self.reverse[*item])
        } else {
            None
        }
    }

    /// Number of cells.
    pub fn len(&self) -> (r: usize)
        requires
            self.coloring.wf(),
        ensures
            r == self.coloring.spec_len(),
    {
        self.coloring.len()
    }

    /// Every cell is a singleton.
    pub fn is_discrete(&self) -> (r: bool)
        requires
            self.coloring.wf(),
        ensures
            r == self.coloring.spec_is_discrete(),
    {
        self.coloring.is_discrete()
    }

    /// The `i`-th cell, or `None` past the last cell.
    pub fn get(&self, i: usize) -> (r: Option<&[usize]>)
        requires
            self.coloring.wf(),
        ensures
            i < self.coloring.spec_len() ==> r is Some && r.unwrap()@ == self.coloring.cell_seq(
                i as int,
            ),
            i >= self.coloring.spec_len() ==> r is None,
    {
        self.coloring.get(i)
    }

    /// Enters a new refinement scope.
    pub fn begin(&mut self)
        requires
            old(self).wf(),
            old(self).depth < usize::MAX,
        ensures
            final(self).wf(),
            final(self).coloring == old(self).coloring,
            final(self).reverse == old(self).reverse,
            final(self).depth == old(self).depth + 1,
    {
        self.depth = self.depth + 1;
    }

    /// Current nesting depth.
    pub fn depth(&self) -> (r: usize)
        ensures
            r == self.depth,
    {
        self.depth
    }
}

/// Bound offsets are also bounded from above by their distance to the end.
pub(crate) proof fn lemma_cuts_upper(bounds: Seq<Bound>, n: int, j: int)
    requires
        cuts_ok(bounds, n),
        0 <= j < bounds.len(),
    ensures
        bounds[j].offset <= n - (bounds.len() - j),
    decreases bounds.len() - j,
{
    if j < bounds.len() - 1 {
        lemma_cuts_upper(bounds, n, j + 1);
    }
}

impl ReversibleColoring {
    /// In a discrete coloring every cell is the singleton at its own index.
    pub proof fn lemma_discrete_structure(self)
        requires
            self.coloring.wf(),
            self.coloring.spec_is_discrete(),
        ensures
            forall|j: int|
                0 <= j < self.coloring.bounds@.len() ==> #[trigger] self.coloring.bounds@[j].offset
                    == j + 1,
            forall|p: int| 0 <= p < self.n() ==> #[trigger] self.coloring.cell_of(p) == p,
    {
        let bounds = self.coloring.bounds@;
        let n = self.n();
        lemma_num_cuts(bounds, n);
        assert forall|j: int| 0 <= j < bounds.len() implies #[trigger] bounds[j].offset == j
            + 1 by {
            lemma_cuts_upper(bounds, n, j);
        }
        assert forall|p: int| 0 <= p < n implies #[trigger] self.coloring.cell_of(p) == p by {
            lemma_cell_of_pos_unique(bounds, n, p, p);
        }
    }

    /// In a discrete coloring the reverse index is itself a permutation of
    /// the universe: it maps each element to its position.
    pub proof fn lemma_discrete_reverse_is_permutation(self)
        requires
            self.wf(),
            self.coloring.spec_is_discrete(),
        ensures
            universe_permutation(self.reverse@),
            forall|p: int|
                0 <= p < self.n() ==> #[trigger] self.reverse@[self.coloring.elements@[p] as int]
                    == p,
    {
        self.lemma_discrete_structure();
        let n = self.n();
        let el = self.coloring.elements@;
        let rev = self.reverse@;
        crate::sorting::lemma_vec_len_bound(&self.reverse);
        assert forall|u: usize| u < n implies 0 <= #[trigger] rev[u as int] < n && el[rev[
            u as int
        ] as int] == u by {
            assert(el.contains(u));
            let p = choose|p: int| 0 <= p < el.len() && el[p] == u;
            assert(rev[u as int] == self.coloring.cell_of(p));
        }
        assert forall|p: int| 0 <= p < n implies #[trigger] rev[p] < n by {
            assert(rev[(p as usize) as int] < n);
        }
        assert forall|p: int, q: int| 0 <= p < q < n implies rev[p] != rev[q] by {
            assert(el[rev[(p as usize) as int] as int] == p as usize);
            assert(el[rev[(q as usize) as int] as int] == q as usize);
        }
        assert forall|u: usize| u < n implies #[trigger] rev.contains(u) by {
            assert(rev[el[u as int] as int] == u as int);
            assert(rev[el[u as int] as int] == u);
        }
    }

    /// The permutation represented by this coloring: `Some` exactly when the
    /// coloring is discrete, in which case it is the reverse index.
    pub fn as_permutation(&self) -> (r: Option<&Vec<usize>>)
        requires
            self.coloring.wf(),
        ensures
            r is Some <==> self.coloring.spec_is_discrete(),
            r is Some ==> r.unwrap()@ == self.reverse@,
    {
        if self.coloring.is_discrete() {
            Some(&self.reverse)
        } else {
            None
        }
    }
}


/// Cells delimited by sorted bounds do not overlap: an earlier cell ends
/// before a later one starts.
pub(crate) proof fn lemma_cells_ordered(bounds: Seq<Bound>, n: int, i1: int, i2: int)
    requires
        cuts_ok(bounds, n),
        0 <= i1 < i2 <= bounds.len(),
    ensures
        cut_end(bounds, n, i1) <= cut_start(bounds, i2),
{
    lemma_cuts_monotone(bounds, n, i1, i2 - 1);
}

/// The exact effect of a successful individualization of `item`: the cell of
/// `item` is split into the singleton `{item}` followed by the rest, a bound
/// stamped with the current depth is inserted, and every later cell index
/// shifts up by one.
pub open spec fn splits(pre: ReversibleColoring, post: ReversibleColoring, item: usize) -> bool {
    let ci = pre.rev_at(item);
    let s = pre.coloring.cell_start_spec(ci);
    let e = pre.coloring.cell_end_spec(ci);
    &&& post.coloring.bounds@ == pre.coloring.bounds@.insert(
        ci,
        Bound { offset: (s + 1) as usize, depth: pre.depth },
    )
    &&& post.coloring.elements@.len() == pre.coloring.elements@.len()
    &&& same_outside(pre.coloring.elements@, post.coloring.elements@, s, e)
    &&& same_range_multiset(pre.coloring.elements@, post.coloring.elements@, s, e)
    &&& post.coloring.elements@[s] == item
    &&& range_sorted(post.coloring.elements@, s + 1, e)
    &&& post.reverse@.len() == pre.reverse@.len()
    &&& post.depth == pre.depth
}

/// The coloring as it stands right after entering a new refinement scope:
/// the same partition and reverse index, one level deeper.
pub open spec fn entered(rc: ReversibleColoring) -> ReversibleColoring {
    ReversibleColoring {
        coloring: rc.coloring,
        reverse: rc.reverse,
        depth: (rc.depth + 1) as usize,
    }
}

/// `res` is `rc` restored to depth `d`: the bounds filtered to those
/// introduced at or below `d`, each restored cell keeping its members,
/// sorted. Together with well-formedness this determines `res` completely.
pub open spec fn restored_to(rc: ReversibleColoring, d: int, res: ReversibleColoring) -> bool {
    &&& res.wf()
    &&& res.depth == d
    &&& res.n() == rc.n()
    &&& res.coloring.bounds@ == cuts_at_most(rc.coloring.bounds@, d)
    &&& forall|i: int|
        0 <= i <= res.coloring.bounds@.len() ==> same_range_multiset(
            rc.coloring.elements@,
            res.coloring.elements@,
            #[trigger] cut_start(res.coloring.bounds@, i),
            cut_end(res.coloring.bounds@, res.n(), i),
        )
}

/// Restoring in two steps restores to the shallower depth.
pub(crate) proof fn lemma_restored_to_compose(
    a: ReversibleColoring,
    b: ReversibleColoring,
    c: ReversibleColoring,
    d1: int,
    d2: int,
)
    requires
        a.wf(),
        restored_to(a, d1, b),
        restored_to(b, d2, c),
        d2 <= d1,
    ensures
        restored_to(a, d2, c),
{
    let n = a.n();
    crate::sorting::lemma_vec_len_bound(&a.coloring.elements);
    lemma_cuts_at_most_compose(a.coloring.bounds@, d1, d2);
    assert(c.coloring.bounds@ == cuts_at_most(a.coloring.bounds@, d2));
    lemma_cuts_at_most_subset(b.coloring.bounds@, d2);
    assert forall|i: int|
        0 <= i <= c.coloring.bounds@.len() implies same_range_multiset(
        a.coloring.elements@,
        c.coloring.elements@,
        #[trigger] cut_start(c.coloring.bounds@, i),
        cut_end(c.coloring.bounds@, c.n(), i),
    ) by {
        let s = cut_start(c.coloring.bounds@, i);
        let e = cut_end(c.coloring.bounds@, c.n(), i);
        lemma_cuts_at_most_ok(b.coloring.bounds@, n, d2);
        lemma_cell_range(c.coloring.bounds@, n, i);
        assert(s == 0 || has_cut_at(b.coloring.bounds@, s)) by {
            if i > 0 {
                let bd = c.coloring.bounds@[i - 1];
                assert(b.coloring.bounds@.contains(bd));
                let q = choose|q: int|
                    0 <= q < b.coloring.bounds@.len() && b.coloring.bounds@[q] == bd;
                assert(b.coloring.bounds@[q].offset == s);
            }
        }
        assert(e == n || has_cut_at(b.coloring.bounds@, e)) by {
            if i < c.coloring.bounds@.len() {
                let bd = c.coloring.bounds@[i];
                assert(b.coloring.bounds@.contains(bd));
                let q = choose|q: int|
                    0 <= q < b.coloring.bounds@.len() && b.coloring.bounds@[q] == bd;
                assert(b.coloring.bounds@[q].offset == e);
            }
        }
        lemma_multiset_union_cells(
            a.coloring.elements@,
            b.coloring.elements@,
            b.coloring.bounds@,
            n,
            s,
            e,
        );
        assert(a.coloring.elements@.subrange(s, e).to_multiset()
            == b.coloring.elements@.subrange(s, e).to_multiset());
    }
}

/// The exact effect of a successful deindividualization of `item`: the
/// singleton cell `{item}` is merged back into the following cell, whose
/// bound disappears, and every later cell index shifts down by one.
pub open spec fn merges(pre: ReversibleColoring, post: ReversibleColoring, item: usize) -> bool {
    let ci = pre.rev_at(item);
    let s = pre.coloring.cell_start_spec(ci);
    let e2 = pre.coloring.cell_end_spec(ci + 1);
    &&& post.coloring.bounds@ == pre.coloring.bounds@.remove(ci)
    &&& post.coloring.elements@.len() == pre.coloring.elements@.len()
    &&& same_outside(pre.coloring.elements@, post.coloring.elements@, s, e2)
    &&& same_range_multiset(pre.coloring.elements@, post.coloring.elements@, s, e2)
    &&& range_sorted(post.coloring.elements@, s, e2)
    &&& post.reverse@.len() == pre.reverse@.len()
    &&& post.depth == pre.depth
}

impl ReversibleColoring {
    /// Every reverse entry is a valid cell index.
    pub(crate) proof fn lemma_rev_bounded(self)
        requires
            self.wf(),
        ensures
            forall|u: int|
                0 <= u < self.n() ==> 0 <= #[trigger] self.reverse@[u]
                    <= self.coloring.bounds@.len(),
    {
        crate::sorting::lemma_vec_len_bound(&self.coloring.elements);
        assert forall|u: int|
            0 <= u < self.n() implies 0 <= #[trigger] self.reverse@[u]
            <= self.coloring.bounds@.len() by {
            self.lemma_rev_of_element(u as usize);
        }
    }

    /// Refines the coloring so that `item` sits alone in its own cell, ahead
    /// of the remainder of its former cell.
    ///
    /// Returns `true` if a split occurred, `false` if `item` was already
    /// alone; in the latter case nothing changes.
    #[verifier::rlimit(100)]
    pub fn individualize(&mut self, item: &usize) -> (split: bool)
        requires
            old(self).wf(),
            *item < old(self).n(),
        ensures
            final(self).wf(),
            final(self).n() == old(self).n(),
            final(self).depth == old(self).depth,
            split <==> old(self).coloring.cell_end_spec(old(self).rev_at(*item)) - old(
                self,
            ).coloring.cell_start_spec(old(self).rev_at(*item)) > 1,
            !split ==> *final(self) == *old(self),
            split ==> splits(*old(self), *final(self), *item),
            final(self).coloring.bounds@.len() == old(self).coloring.bounds@.len() + (
            if split {
                1int
            } else {
                0int
            }),
    {
        proof {
            old(self).lemma_rev_of_element(*item);
            old(self).lemma_rev_bounded();
            lemma_num_cuts(old(self).coloring.bounds@, old(self).n());
            crate::sorting::lemma_vec_len_bound(&old(self).coloring.elements);
        }
        let ghost bs = old(self).coloring.bounds@;
        let ghost el0 = old(self).coloring.elements@;
        let ghost rv0 = old(self).reverse@;
        let ghost n0 = old(self).n();
        let n = self.coloring.elements.len();
        let ci = self.reverse[*item];
        proof {
            lemma_cell_range(bs, n0, ci as int);
        }
        let s = if ci == 0 {
            0
        } else {
            self.coloring.bounds[ci - 1].offset
        };
        let e = if ci < self.coloring.bounds.len() {
            self.coloring.bounds[ci].offset
        } else {
            n
        };
        assert(s as int == cut_start(bs, ci as int));
        assert(e as int == cut_end(bs, n0, ci as int));
        if e - s <= 1 {
            return false;
        }
        // Locate `item` within its cell.
        let mut p: usize = s;
        while self.coloring.elements[p] != *item
            invariant
                *self == *old(self),
                s <= p < e,
                e <= n,
                n == n0,
                n0 == self.coloring.elements@.len(),
                exists|q: int| p <= q < e && self.coloring.elements@[q] == *item,
            decreases e - p,
        {
            p = p + 1;
        }
        let ghost elswapped = el0.update(p as int, el0[s as int]).update(s as int, el0[p as int]);
        swap_positions(&mut self.coloring.elements, s, p);
        proof {
            crate::sorting::lemma_swap_range_multiset(
                el0,
                self.coloring.elements@,
                s as int,
                p as int,
                s as int,
                e as int,
            );
            lemma_range_multiset_distinct(el0, self.coloring.elements@, s as int, e as int);
        }
        let ghost elmid = self.coloring.elements@;
        sort_range(&mut self.coloring.elements, s + 1, e);
        let ghost elf = self.coloring.elements@;
        proof {
            // The whole cell keeps its multiset, and nothing outside it moved.
            crate::sorting::lemma_range_multiset_widen_left(elmid, elf, s as int, e as int);
            assert(same_outside(el0, elf, s as int, e as int));
            assert(same_range_multiset(el0, elf, s as int, e as int)) by {
                assert(el0.subrange(s as int, e as int).to_multiset() == elmid.subrange(
                    s as int,
                    e as int,
                ).to_multiset());
            }
            lemma_permutation_preserved(el0, elf, s as int, e as int);
        }
        let b = Bound { offset: s + 1, depth: self.depth };
        self.coloring.bounds.insert(ci, b);
        let ghost nb = self.coloring.bounds@;
        proof {
            bs.insert_ensures(ci as int, b);
            assert(nb == bs.insert(ci as int, b));
            // Index mapping of the inserted bound list.
            assert(forall|j: int| 0 <= j < ci ==> #[trigger] nb[j] == bs[j]);
            assert(nb[ci as int] == b);
            assert(forall|j: int| ci < j < nb.len() ==> #[trigger] nb[j] == bs[j - 1]);
            assert(cuts_ok(nb, n0)) by {
                lemma_cuts_insert(bs, n0, ci as int, b);
            }
        }
        proof {
            assert(old(self).rev_at(*item) == ci as int);
            assert(nb == bs.insert(
                ci as int,
                Bound { offset: (s + 1) as usize, depth: old(self).depth },
            ));
            assert(splits(*old(self), *self, *item));
            self.lemma_individualize_sorted(*old(self), *item);
            assert(self.coloring.wf());
        }
        self.rebuild_reverse();
        proof {
            assert(splits(*old(self), *self, *item));
            assert forall|j: int|
                0 <= j < self.coloring.bounds@.len() implies #[trigger] self.coloring.bounds@[
            j].depth <= self.depth by {
                if j < ci as int {
                    assert(self.coloring.bounds@[j] == bs[j]);
                } else if j > ci as int {
                    assert(self.coloring.bounds@[j] == bs[j - 1]);
                }
            }
        }
        true
    }

    /// After a split, every cell of the new bound list is sorted.
    #[verifier::rlimit(100)]
    proof fn lemma_individualize_sorted(self, pre: ReversibleColoring, item: usize)
        requires
            cuts_ok(pre.coloring.bounds@, pre.n()),
            pre.coloring.cells_sorted(),
            pre.coloring.elements@.len() == pre.n(),
            pre.n() <= usize::MAX,
            0 <= pre.rev_at(item) <= pre.coloring.bounds@.len(),
            pre.coloring.cell_end_spec(pre.rev_at(item)) - pre.coloring.cell_start_spec(
                pre.rev_at(item),
            ) > 1,
            splits(pre, self, item),
            cuts_ok(self.coloring.bounds@, self.n()),
        ensures
            self.coloring.cells_sorted(),
    {
        let bs = pre.coloring.bounds@;
        let nb = self.coloring.bounds@;
        let el0 = pre.coloring.elements@;
        let elf = self.coloring.elements@;
        let n0 = pre.n();
        let ci = pre.rev_at(item);
        let s = pre.coloring.cell_start_spec(ci);
        let e = pre.coloring.cell_end_spec(ci);
        let b = Bound { offset: (s + 1) as usize, depth: pre.depth };
        lemma_cell_range(bs, n0, ci);
        bs.insert_ensures(ci, b);
        assert(forall|j: int| 0 <= j < ci ==> #[trigger] nb[j] == bs[j]);
        assert(nb[ci] == b);
        assert(forall|j: int| ci < j < nb.len() ==> #[trigger] nb[j] == bs[j - 1]);
        lemma_insert_cut_map(bs, n0, ci, b);
        assert(cut_start(nb, ci + 1) == s + 1);
        assert(cut_end(nb, n0, ci) == s + 1);
        assert(cut_end(nb, n0, ci + 1) == e);
        // Cells are sorted.
        assert forall|i: int|
            0 <= i <= nb.len() implies range_sorted(
            elf,
            #[trigger] cut_start(nb, i),
            cut_end(nb, n0, i),
        ) by {
            if i < ci {
                lemma_cells_ordered(bs, n0, i, ci);
                lemma_cell_range(bs, n0, i);
                assert forall|x: int, y: int|
                    cut_start(nb, i) <= x < y < cut_end(nb, n0, i) implies elf[x] < elf[y] by {
                    assert(elf[x] == el0[x]);
                    assert(elf[y] == el0[y]);
                    assert(range_sorted(
                        el0,
                        pre.coloring.cell_start_spec(i),
                        pre.coloring.cell_end_spec(i),
                    ));
                }
            } else if i == ci {
            } else if i == ci + 1 {
            } else {
                lemma_cells_ordered(bs, n0, ci, i - 1);
                lemma_cell_range(bs, n0, i - 1);
                assert forall|x: int, y: int|
                    cut_start(nb, i) <= x < y < cut_end(nb, n0, i) implies elf[x] < elf[y] by {
                    assert(elf[x] == el0[x]);
                    assert(elf[y] == el0[y]);
                    assert(range_sorted(
                        el0,
                        pre.coloring.cell_start_spec(i - 1),
                        pre.coloring.cell_end_spec(i - 1),
                    ));
                }
            }
        }

    }


}


impl ReversibleColoring {
    /// Undoes an individualization: if `item` sits alone in its cell and that
    /// cell is not the last one, merges it back into the following cell.
    ///
    /// Returns `true` if a merge occurred; otherwise nothing changes.
    #[verifier::rlimit(100)]
    pub fn deindividualize(&mut self, item: &usize) -> (merged: bool)
        requires
            old(self).wf(),
            *item < old(self).n(),
        ensures
            final(self).wf(),
            final(self).n() == old(self).n(),
            final(self).depth == old(self).depth,
            merged <==> (old(self).coloring.cell_end_spec(old(self).rev_at(*item)) - old(
                self,
            ).coloring.cell_start_spec(old(self).rev_at(*item)) == 1 && old(self).rev_at(*item)
                < old(self).coloring.bounds@.len()),
            !merged ==> *final(self) == *old(self),
            merged ==> merges(*old(self), *final(self), *item),
            final(self).coloring.bounds@.len() == old(self).coloring.bounds@.len() - (
            if merged {
                1int
            } else {
                0int
            }),
    {
        proof {
            old(self).lemma_rev_of_element(*item);
            old(self).lemma_rev_bounded();
            lemma_num_cuts(old(self).coloring.bounds@, old(self).n());
            crate::sorting::lemma_vec_len_bound(&old(self).coloring.elements);
        }
        let ghost bs = old(self).coloring.bounds@;
        let ghost el0 = old(self).coloring.elements@;
        let ghost rv0 = old(self).reverse@;
        let ghost n0 = old(self).n();
        let n = self.coloring.elements.len();
        let ci = self.reverse[*item];
        proof {
            lemma_cell_range(bs, n0, ci as int);
        }
        let s = if ci == 0 {
            0
        } else {
            self.coloring.bounds[ci - 1].offset
        };
        let e = if ci < self.coloring.bounds.len() {
            self.coloring.bounds[ci].offset
        } else {
            n
        };
        assert(s as int == cut_start(bs, ci as int));
        assert(e as int == cut_end(bs, n0, ci as int));
        if !(e - s == 1 && ci < self.coloring.bounds.len()) {
            return false;
        }
        proof {
            lemma_cell_range(bs, n0, ci as int + 1);
        }
        let e2 = if ci + 1 < self.coloring.bounds.len() {
            self.coloring.bounds[ci + 1].offset
        } else {
            n
        };
        assert(e2 as int == cut_end(bs, n0, ci as int + 1));
        self.coloring.bounds.remove(ci);
        let ghost nb = self.coloring.bounds@;
        proof {
            bs.remove_ensures(ci as int);
            assert(forall|j: int| 0 <= j < ci ==> #[trigger] nb[j] == bs[j]);
            assert(forall|j: int| ci <= j < nb.len() ==> #[trigger] nb[j] == bs[j + 1]);
            assert(cuts_ok(nb, n0)) by {
                lemma_cuts_remove(bs, n0, ci as int);
            }
        }
        sort_range(&mut self.coloring.elements, s, e2);
        let ghost elf = self.coloring.elements@;
        proof {
            lemma_permutation_preserved(el0, elf, s as int, e2 as int);
        }
        proof {
            assert(old(self).rev_at(*item) == ci as int);
            assert(merges(*old(self), *self, *item));
            self.lemma_deindividualize_sorted(*old(self), *item);
            assert(self.coloring.wf());
        }
        self.rebuild_reverse();
        proof {
            assert(merges(*old(self), *self, *item));
            assert forall|j: int|
                0 <= j < self.coloring.bounds@.len() implies #[trigger] self.coloring.bounds@[
            j].depth <= self.depth by {
                if j < ci as int {
                    assert(self.coloring.bounds@[j] == bs[j]);
                } else {
                    assert(self.coloring.bounds@[j] == bs[j + 1]);
                }
            }
        }
        true
    }

    /// After a merge, every cell of the new bound list is sorted.
    #[verifier::rlimit(100)]
    proof fn lemma_deindividualize_sorted(self, pre: ReversibleColoring, item: usize)
        requires
            cuts_ok(pre.coloring.bounds@, pre.n()),
            pre.coloring.cells_sorted(),
            pre.coloring.elements@.len() == pre.n(),
            pre.n() <= usize::MAX,
            0 <= pre.rev_at(item) < pre.coloring.bounds@.len(),
            pre.coloring.cell_end_spec(pre.rev_at(item)) - pre.coloring.cell_start_spec(
                pre.rev_at(item),
            ) == 1,
            merges(pre, self, item),
            cuts_ok(self.coloring.bounds@, self.n()),
        ensures
            self.coloring.cells_sorted(),
    {
        let bs = pre.coloring.bounds@;
        let nb = self.coloring.bounds@;
        let el0 = pre.coloring.elements@;
        let elf = self.coloring.elements@;
        let n0 = pre.n();
        let ci = pre.rev_at(item);
        let s = pre.coloring.cell_start_spec(ci);
        let e2 = pre.coloring.cell_end_spec(ci + 1);
        lemma_cell_range(bs, n0, ci);
        lemma_cell_range(bs, n0, ci + 1);
        bs.remove_ensures(ci);
        assert(forall|j: int| 0 <= j < ci ==> #[trigger] nb[j] == bs[j]);
        assert(forall|j: int| ci <= j < nb.len() ==> #[trigger] nb[j] == bs[j + 1]);
        lemma_remove_cut_map(bs, n0, ci);
        assert(cut_end(nb, n0, ci) == e2);
        // Cells are sorted.
        assert forall|i: int|
            0 <= i <= nb.len() implies range_sorted(
            elf,
            #[trigger] cut_start(nb, i),
            cut_end(nb, n0, i),
        ) by {
            if i < ci {
                lemma_cells_ordered(bs, n0, i, ci);
                lemma_cell_range(bs, n0, i);
                assert forall|x: int, y: int|
                    cut_start(nb, i) <= x < y < cut_end(nb, n0, i) implies elf[x] < elf[y] by {
                    assert(elf[x] == el0[x]);
                    assert(elf[y] == el0[y]);
                    assert(range_sorted(
                        el0,
                        pre.coloring.cell_start_spec(i),
                        pre.coloring.cell_end_spec(i),
                    ));
                }
            } else if i == ci {
            } else {
                lemma_cells_ordered(bs, n0, ci + 1, i + 1);
                lemma_cell_range(bs, n0, i + 1);
                assert forall|x: int, y: int|
                    cut_start(nb, i) <= x < y < cut_end(nb, n0, i) implies elf[x] < elf[y] by {
                    assert(elf[x] == el0[x]);
                    assert(elf[y] == el0[y]);
                    assert(range_sorted(
                        el0,
                        pre.coloring.cell_start_spec(i + 1),
                        pre.coloring.cell_end_spec(i + 1),
                    ));
                }
            }
        }

    }
}


/// The bounds that survive a restore to depth `d`: those introduced at or
/// below it, in their original order.
pub open spec fn cuts_at_most(bounds: Seq<Bound>, d: int) -> Seq<Bound>
    decreases bounds.len(),
{
    if bounds.len() == 0 {
        Seq::empty()
    } else if bounds.last().depth <= d {
        cuts_at_most(bounds.drop_last(), d).push(bounds.last())
    } else {
        cuts_at_most(bounds.drop_last(), d)
    }
}

/// Filtering bounds by depth keeps them strictly increasing, keeps each kept
/// bound, and keeps nothing else.
pub(crate) proof fn lemma_cuts_at_most_ok(bounds: Seq<Bound>, n: int, d: int)
    requires
        cuts_ok(bounds, n),
    ensures
        cuts_ok(cuts_at_most(bounds, d), n),
        cuts_at_most(bounds, d).len() <= bounds.len(),
        forall|j: int|
            0 <= j < cuts_at_most(bounds, d).len() ==> #[trigger] cuts_at_most(bounds, d)[j].depth
                <= d,
        forall|j: int|
            0 <= j < cuts_at_most(bounds, d).len() ==> exists|j2: int|
                0 <= j2 < bounds.len() && bounds[j2] == #[trigger] cuts_at_most(bounds, d)[j],
        forall|j2: int|
            0 <= j2 < bounds.len() && #[trigger] bounds[j2].depth <= d ==> cuts_at_most(
                bounds,
                d,
            ).contains(bounds[j2]),
    decreases bounds.len(),
{
    if bounds.len() > 0 {
        let dropped = bounds.drop_last();
        lemma_cuts_drop_last(bounds, n);
        lemma_cuts_at_most_ok(dropped, n, d);
        let res0 = cuts_at_most(dropped, d);
        let res = cuts_at_most(bounds, d);
        if bounds.last().depth <= d {
            assert(res == res0.push(bounds.last()));
            assert(cuts_ok(res, n)) by {
                assert forall|j: int|
                    0 <= j < res0.len() implies #[trigger] res0[j].offset
                    < bounds.last().offset by {
                    let j2 = choose|j2: int| 0 <= j2 < dropped.len() && dropped[j2] == res0[j];
                    assert(bounds[j2] == dropped[j2]);
                }
                lemma_cuts_push(res0, n, bounds.last());
            }
        }
        assert forall|j2: int|
            0 <= j2 < bounds.len() && #[trigger] bounds[j2].depth <= d implies res.contains(
            bounds[j2],
        ) by {
            if j2 < bounds.len() - 1 {
                assert(dropped[j2] == bounds[j2]);
                assert(res0.contains(bounds[j2]));
                let k = choose|k: int| 0 <= k < res0.len() && res0[k] == bounds[j2];
                if bounds.last().depth <= d {
                    assert(res[k] == bounds[j2]);
                }
            } else {
                assert(res[res.len() - 1] == bounds[j2]);
            }
        }
    }
}

/// A depth filter that removes nothing is the identity, and then every bound
/// already sat at or below the target depth.
pub(crate) proof fn lemma_cuts_at_most_full(bounds: Seq<Bound>, d: int)
    requires
        cuts_at_most(bounds, d).len() == bounds.len(),
    ensures
        cuts_at_most(bounds, d) == bounds,
        forall|j: int| 0 <= j < bounds.len() ==> #[trigger] bounds[j].depth <= d,
    decreases bounds.len(),
{
    if bounds.len() > 0 {
        let dropped = bounds.drop_last();
        if bounds.last().depth <= d {
            lemma_cuts_at_most_full(dropped, d);
            assert(cuts_at_most(bounds, d) =~= bounds);
            assert forall|j: int| 0 <= j < bounds.len() implies #[trigger] bounds[j].depth
                <= d by {
                if j < bounds.len() - 1 {
                    assert(dropped[j] == bounds[j]);
                }
            }
        } else {
            lemma_cuts_at_most_len(dropped, d);
            assert(false);
        }
    }
}

/// The depth filter never grows a bound list.
pub(crate) proof fn lemma_cuts_at_most_len(bounds: Seq<Bound>, d: int)
    ensures
        cuts_at_most(bounds, d).len() <= bounds.len(),
    decreases bounds.len(),
{
    if bounds.len() > 0 {
        lemma_cuts_at_most_len(bounds.drop_last(), d);
    }
}

impl ReversibleColoring {
    /// Recomputes the reverse index of every element by sweeping the cells.
    pub(crate) fn rebuild_reverse(&mut self)
        requires
            old(self).coloring.wf(),
            old(self).reverse@.len() == old(self).n(),
        ensures
            final(self).coloring == old(self).coloring,
            final(self).depth == old(self).depth,
            final(self).reverse@.len() == old(self).reverse@.len(),
            final(self).rev_ok(),
    {
        let ghost bs = self.coloring.bounds@;
        let ghost n0 = self.n();
        proof {
            lemma_num_cuts(bs, n0);
        }
        let nb = self.coloring.bounds.len();
        let ne = self.coloring.elements.len();
        assert(nb == 0 || nb < ne);
        let nc = nb + 1;
        let mut c: usize = 0;
        while c < nc
            invariant
                c <= nc,
                nc == bs.len() + 1,
                ne == n0,
                self.coloring == old(self).coloring,
                self.depth == old(self).depth,
                self.coloring.wf(),
                bs == self.coloring.bounds@,
                n0 == self.n(),
                self.reverse@.len() == n0,
                forall|p: int|
                    0 <= p < (if c == 0 {
                        0int
                    } else {
                        cut_end(bs, n0, c - 1)
                    }) ==> #[trigger] self.reverse@[self.coloring.elements@[p] as int]
                        == cell_of_pos(bs, p),
            decreases nc - c,
        {
            proof {
                lemma_cell_range(bs, n0, c as int);
            }
            let start = if c == 0 {
                0
            } else {
                self.coloring.bounds[c - 1].offset
            };
            let end = if c < self.coloring.bounds.len() {
                self.coloring.bounds[c].offset
            } else {
                ne
            };
            assert(start as int == cut_start(bs, c as int));
            assert(end as int == cut_end(bs, n0, c as int));
            let mut p = start;
            while p < end
                invariant
                    start <= p <= end,
                    start as int == cut_start(bs, c as int),
                    end as int == cut_end(bs, n0, c as int),
                    (c as int) <= bs.len(),
                    self.coloring == old(self).coloring,
                    self.depth == old(self).depth,
                    self.coloring.wf(),
                    bs == self.coloring.bounds@,
                    n0 == self.n(),
                    ne == n0,
                    self.reverse@.len() == n0,
                    forall|p2: int|
                        0 <= p2 < (if c == 0 {
                            0int
                        } else {
                            cut_end(bs, n0, c - 1)
                        }) ==> #[trigger] self.reverse@[self.coloring.elements@[p2] as int]
                            == cell_of_pos(bs, p2),
                    forall|p2: int|
                        start <= p2 < p ==> #[trigger] self.reverse@[self.coloring.elements@[p2] as int]
                            == cell_of_pos(bs, p2),
                decreases end - p,
            {
                let x = self.coloring.elements[p];
                self.reverse.set(x, c);
                proof {
                    lemma_cell_of_pos_unique(bs, n0, c as int, p as int);
                    assert forall|p2: int|
                        0 <= p2 < p && (p2 < (if c == 0 {
                            0int
                        } else {
                            cut_end(bs, n0, c - 1)
                        }) || start <= p2) implies #[trigger] self.reverse@[
                    self.coloring.elements@[p2] as int] == cell_of_pos(bs, p2) by {
                        assert(self.coloring.elements@[p2] != self.coloring.elements@[p as int]);
                    }
                }
                p = p + 1;
            }
            proof {
                if c as int + 1 <= bs.len() {
                    assert(cut_end(bs, n0, c as int) == cut_start(bs, c as int + 1));
                }
            }
            c = c + 1;
        }
    }

    /// Leaves `k` nesting levels: drops every bound introduced above the
    /// restored depth, re-sorts the merged cells, and rebuilds the reverse
    /// index.
    pub fn restore(&mut self, k: usize) -> (changed: bool)
        requires
            old(self).wf(),
            k <= old(self).depth,
        ensures
            final(self).wf(),
            final(self).n() == old(self).n(),
            final(self).depth == old(self).depth - k,
            final(self).coloring.bounds@ == cuts_at_most(
                old(self).coloring.bounds@,
                old(self).depth - k,
            ),
            changed <==> final(self).coloring.bounds@.len() != old(self).coloring.bounds@.len(),
            !changed ==> final(self).coloring == old(self).coloring && final(self).reverse@ == old(
                self,
            ).reverse@,
            forall|i: int|
                0 <= i <= final(self).coloring.bounds@.len() ==> same_range_multiset(
                    old(self).coloring.elements@,
                    final(self).coloring.elements@,
                    #[trigger] cut_start(final(self).coloring.bounds@, i),
                    cut_end(final(self).coloring.bounds@, final(self).n(), i),
                ),
    {
        let d = self.depth - k;
        let ghost bs = self.coloring.bounds@;
        let ghost el0 = self.coloring.elements@;
        let ghost n0 = self.n();
        let mut kept: Vec<Bound> = Vec::new();
        let mut j: usize = 0;
        while j < self.coloring.bounds.len()
            invariant
                j <= self.coloring.bounds@.len(),
                *self == *old(self),
                bs == self.coloring.bounds@,
                kept@ == cuts_at_most(bs.take(j as int), d as int),
                kept@.len() <= j,
            decreases self.coloring.bounds@.len() - j,
        {
            proof {
                assert(bs.take(j + 1).drop_last() =~= bs.take(j as int));
                assert(bs.take(j + 1).last() == bs[j as int]);
            }
            let b = self.coloring.bounds[j];
            if b.depth <= d {
                kept.push(b);
            }
            j = j + 1;
        }
        proof {
            assert(bs.take(bs.len() as int) =~= bs);
        }
        let changed = kept.len() != self.coloring.bounds.len();
        if changed {
            self.coloring.bounds = kept;
            proof {
                lemma_cuts_at_most_ok(bs, n0, d as int);
            }
            self.coloring.sort_cells();
            self.rebuild_reverse();
            self.depth = d;
            proof {
                assert forall|i: int|
                    0 <= i < self.coloring.bounds@.len() implies #[trigger] self.coloring.bounds@[
                    i
                ].depth <= self.depth by {
                    lemma_cuts_at_most_ok(bs, n0, d as int);
                }
            }
        } else {
            proof {
                lemma_cuts_at_most_full(bs, d as int);
            }
            self.depth = d;
        }
        changed
    }
}




/// Adjacent positions lie in the same cell unless a bound separates them.
pub(crate) proof fn lemma_adjacent_positions(bounds: Seq<Bound>, n: int, p: int)
    requires
        cuts_ok(bounds, n),
        0 <= p,
        p + 1 < n,
    ensures
        cell_of_pos(bounds, p) == cell_of_pos(bounds, p + 1) || has_cut_at(bounds, p + 1),
{
    lemma_cell_of_pos_range(bounds, n, p);
    let c = cell_of_pos(bounds, p);
    if p + 1 < cut_end(bounds, n, c) {
        lemma_cell_of_pos_unique(bounds, n, c, p + 1);
    } else {
        assert(cut_end(bounds, n, c) == p + 1);
        assert(c < bounds.len());
        assert(bounds[c].offset == p + 1);
    }
}

/// Keys that agree on every adjacent pair of a range agree across it.
pub(crate) proof fn lemma_const_key(s: Seq<usize>, key: Seq<u64>, lo: int, hi: int)
    requires
        0 <= lo < hi <= s.len(),
        forall|t: int| lo < t < hi ==> key[s[t - 1] as int] == #[trigger] key[s[t] as int],
    ensures
        forall|t: int| lo <= t < hi ==> #[trigger] key[s[t] as int] == key[s[lo] as int],
    decreases hi - lo,
{
    if hi - lo >= 2 {
        lemma_const_key(s, key, lo, hi - 1);
        assert(key[s[hi - 2] as int] == key[s[hi - 1] as int]);
    }
}

/// Extending a bound list with cuts past `p` does not change the cell of `p`.
pub(crate) proof fn lemma_cell_of_pos_extend(b1: Seq<Bound>, b2: Seq<Bound>, p: int)
    requires
        b1.len() <= b2.len(),
        forall|j: int| 0 <= j < b1.len() ==> #[trigger] b2[j] == b1[j],
        forall|j: int| b1.len() <= j < b2.len() ==> p < #[trigger] b2[j].offset,
    ensures
        cell_of_pos(b2, p) == cell_of_pos(b1, p),
    decreases b2.len(),
{
    if b2.len() > b1.len() {
        let dropped = b2.drop_last();
        lemma_cell_of_pos_extend(b1, dropped, p);
    } else {
        assert(b2 =~= b1);
    }
}

/// A push at a different offset changes no other cut.
pub(crate) proof fn lemma_has_cut_push(bounds: Seq<Bound>, b: Bound, t: int)
    requires
        t != b.offset,
    ensures
        has_cut_at(bounds.push(b), t) <==> has_cut_at(bounds, t),
{
    if has_cut_at(bounds.push(b), t) {
        let j = choose|j: int| 0 <= j < bounds.push(b).len() && bounds.push(b)[j].offset == t;
        assert(bounds[j].offset == t);
    }
    if has_cut_at(bounds, t) {
        let j = choose|j: int| 0 <= j < bounds.len() && bounds[j].offset == t;
        assert(bounds.push(b)[j].offset == t);
    }
}

/// Within every cell of `base`, the elements of `el` are `lex_lt`-ordered
/// under `key` and a cut of `b` sits exactly where the key changes, over
/// positions below `hi`.
pub open spec fn keyed_cut_pattern(
    base: Seq<Bound>,
    key: Seq<u64>,
    el: Seq<usize>,
    b: Seq<Bound>,
    hi: int,
) -> bool {
    forall|t: int|
        0 < t < hi && cell_of_pos(base, t - 1) == cell_of_pos(base, t) ==> ((#[trigger] has_cut_at(
            b,
            t,
        ) <==> key[el[t - 1] as int] != key[el[t] as int]) && lex_lt(key, el[t - 1], el[t]))
}

/// Every cell is constant under `key`: adjacent positions of one cell carry
/// equal key values.
pub open spec fn key_homogeneous(rc: ReversibleColoring, key: Seq<u64>) -> bool {
    forall|t: int|
        0 < t < rc.n() && cell_of_pos(rc.coloring.bounds@, t - 1) == #[trigger] cell_of_pos(
            rc.coloring.bounds@,
            t,
        ) ==> key[rc.coloring.elements@[t - 1] as int] == key[rc.coloring.elements@[t] as int]
}

/// Counting cuts at or before a position is monotone in the position.
pub(crate) proof fn lemma_count_cuts_mono(bounds: Seq<Bound>, p: int, q: int)
    requires
        p <= q,
    ensures
        count_cuts_le(bounds, p) <= count_cuts_le(bounds, q),
    decreases bounds.len(),
{
    if bounds.len() > 0 {
        lemma_count_cuts_mono(bounds.drop_last(), p, q);
    }
}

/// A cut at offset `t` raises the count strictly from `t - 1` to `t`.
pub(crate) proof fn lemma_count_cuts_at(bounds: Seq<Bound>, t: int)
    requires
        has_cut_at(bounds, t),
    ensures
        count_cuts_le(bounds, t) >= count_cuts_le(bounds, t - 1) + 1,
    decreases bounds.len(),
{
    let j = choose|j: int| 0 <= j < bounds.len() && bounds[j].offset == t;
    if j == bounds.len() - 1 {
        lemma_count_cuts_mono(bounds.drop_last(), t - 1, t);
    } else {
        assert(bounds.drop_last()[j] == bounds[j]);
        lemma_count_cuts_at(bounds.drop_last(), t);
    }
}

/// Positions on either side of a cut lie in different cells.
pub(crate) proof fn lemma_cut_splits_cells(bounds: Seq<Bound>, n: int, t: int)
    requires
        cuts_ok(bounds, n),
        0 < t < n,
        has_cut_at(bounds, t),
    ensures
        cell_of_pos(bounds, t - 1) != cell_of_pos(bounds, t),
{
    lemma_count_cuts_le_is_cell_of(bounds, n, t - 1);
    lemma_count_cuts_le_is_cell_of(bounds, n, t);
    lemma_count_cuts_at(bounds, t);
}

/// A strictly increasing bound list whose members all occur in another
/// strictly increasing bound list is no longer than it.
pub(crate) proof fn lemma_subset_bounds_witness(a: Seq<Bound>, b: Seq<Bound>, n: int, j: int)
    requires
        cuts_ok(a, n),
        cuts_ok(b, n),
        forall|j2: int| 0 <= j2 < a.len() ==> b.contains(#[trigger] a[j2]),
        0 <= j < a.len(),
    ensures
        exists|p: int| j <= p < b.len() && b[p] == a[j],
    decreases j,
{
    assert(b.contains(a[j]));
    let p0 = choose|p0: int| 0 <= p0 < b.len() && b[p0] == a[j];
    if j > 0 {
        lemma_subset_bounds_witness(a, b, n, j - 1);
        let pp = choose|pp: int| j - 1 <= pp < b.len() && b[pp] == a[j - 1];
        assert(a[j - 1].offset < a[j].offset);
        if p0 <= pp {
            lemma_cuts_monotone(b, n, p0, pp);
            assert(false);
        }
        assert(j <= p0 < b.len() && b[p0] == a[j]);
    } else {
        assert(j <= p0 < b.len() && b[p0] == a[j]);
    }
}

/// Two strictly increasing bound lists that contain each other's members are
/// equal.
pub(crate) proof fn lemma_mutual_bounds_equal(a: Seq<Bound>, b: Seq<Bound>, n: int)
    requires
        cuts_ok(a, n),
        cuts_ok(b, n),
        forall|j: int| 0 <= j < a.len() ==> b.contains(#[trigger] a[j]),
        forall|j: int| 0 <= j < b.len() ==> a.contains(#[trigger] b[j]),
    ensures
        a == b,
    decreases a.len(),
{
    if a.len() == 0 {
        if b.len() > 0 {
            assert(a.contains(b[0]));
            assert(false);
        }
        assert(a =~= b);
    } else {
        assert(b.contains(a.last()));
        let pa = choose|pa: int| 0 <= pa < b.len() && b[pa] == a.last();
        assert(a.contains(b.last()));
        let pb = choose|pb: int| 0 <= pb < a.len() && a[pb] == b.last();
        lemma_cuts_monotone(b, n, pa, b.len() - 1);
        lemma_cuts_monotone(a, n, pb, a.len() - 1);
        assert(a.last().offset == b.last().offset);
        assert(a.last() == b.last()) by {
            if pa < b.len() - 1 {
                assert(b[pa].offset < b[b.len() - 1].offset);
            }
        }
        let ad = a.drop_last();
        let bd = b.drop_last();
        lemma_cuts_drop_last(a, n);
        lemma_cuts_drop_last(b, n);
        assert forall|j: int| 0 <= j < ad.len() implies bd.contains(#[trigger] ad[j]) by {
            assert(ad[j] == a[j]);
            assert(b.contains(a[j]));
            let q = choose|q: int| 0 <= q < b.len() && b[q] == a[j];
            assert(a[j].offset < a.last().offset);
            assert(q < b.len() - 1) by {
                if q == b.len() - 1 {
                    assert(b[q].offset == a.last().offset);
                }
            }
            assert(bd[q] == b[q]);
        }
        assert forall|j: int| 0 <= j < bd.len() implies ad.contains(#[trigger] bd[j]) by {
            assert(bd[j] == b[j]);
            assert(a.contains(b[j]));
            let q = choose|q: int| 0 <= q < a.len() && a[q] == b[j];
            assert(b[j].offset < b.last().offset);
            assert(q < a.len() - 1) by {
                if q == a.len() - 1 {
                    assert(a[q].offset == b.last().offset);
                }
            }
            assert(ad[q] == a[q]);
        }
        lemma_mutual_bounds_equal(ad, bd, n);
        assert(a =~= b) by {
            assert forall|j: int| 0 <= j < a.len() implies a[j] == b[j] by {
                if j < a.len() - 1 {
                    assert(a[j] == ad[j] && b[j] == bd[j]);
                }
            }
        }
    }
}

/// A bound below the depth cutoff survives the depth filter.
pub(crate) proof fn lemma_cuts_at_most_member(bounds: Seq<Bound>, d: int, b: Bound)
    requires
        bounds.contains(b),
        b.depth <= d,
    ensures
        cuts_at_most(bounds, d).contains(b),
    decreases bounds.len(),
{
    if bounds.len() > 0 {
        let f = cuts_at_most(bounds, d);
        let fd = cuts_at_most(bounds.drop_last(), d);
        if b == bounds.last() {
            assert(f[f.len() - 1] == b);
        } else {
            let q = choose|q: int| 0 <= q < bounds.len() && bounds[q] == b;
            assert(q < bounds.len() - 1);
            assert(bounds.drop_last()[q] == b);
            lemma_cuts_at_most_member(bounds.drop_last(), d, b);
            let q2 = choose|q2: int| 0 <= q2 < fd.len() && fd[q2] == b;
            assert(f[q2] == b);
        }
    }
}

/// Hence such a list is no longer than the one containing it.
pub(crate) proof fn lemma_subset_bounds_len(a: Seq<Bound>, b: Seq<Bound>, n: int)
    requires
        cuts_ok(a, n),
        cuts_ok(b, n),
        forall|j2: int| 0 <= j2 < a.len() ==> b.contains(#[trigger] a[j2]),
    ensures
        a.len() <= b.len(),
{
    if a.len() > 0 {
        lemma_subset_bounds_witness(a, b, n, a.len() - 1);
    }
}

/// The reverse index maps the element at each position below `hi` to the cell
/// given by `b`.
pub open spec fn rev_matches_cells(rev: Seq<usize>, el: Seq<usize>, b: Seq<Bound>, hi: int) -> bool {
    forall|p: int| 0 <= p < hi ==> #[trigger] rev[el[p] as int] == cell_of_pos(b, p)
}

/// Cuts added past `start` change no cut at or before it.
pub(crate) proof fn lemma_has_cut_extend(b0: Seq<Bound>, bc: Seq<Bound>, start: int, t: int)
    requires
        bc.len() >= b0.len(),
        forall|j: int| 0 <= j < b0.len() ==> #[trigger] bc[j] == b0[j],
        forall|j: int| b0.len() <= j < bc.len() ==> (#[trigger] bc[j].offset as int) > start,
    ensures
        t <= start ==> (has_cut_at(bc, t) <==> has_cut_at(b0, t)),
{
    if t <= start {
        if has_cut_at(bc, t) {
            let j = choose|j: int| 0 <= j < bc.len() && bc[j].offset == t;
            assert(j < b0.len());
            assert(b0[j].offset == t);
        }
        if has_cut_at(b0, t) {
            let j = choose|j: int| 0 <= j < b0.len() && b0[j].offset == t;
            assert(bc[j].offset == t);
        }
    }
}

/// One refinement pass over a cell extends the keyed cut pattern from the
/// processed prefix across that cell.
pub(crate) proof fn lemma_refine_iter_adjacency(
    bs: Seq<Bound>,
    n0: int,
    key: Seq<u64>,
    elb: Seq<usize>,
    elc: Seq<usize>,
    b0: Seq<Bound>,
    bc: Seq<Bound>,
    start: int,
    end: int,
    k: int,
)
    requires
        cuts_ok(bs, n0),
        0 <= k <= bs.len(),
        start == cut_start(bs, k),
        end == cut_end(bs, n0, k),
        0 <= start <= end <= n0,
        elb.len() == n0,
        elc.len() == n0,
        keyed_cut_pattern(bs, key, elb, b0, start),
        forall|t: int|
            start < t < end ==> ((#[trigger] has_cut_at(bc, t) <==> key[elc[t - 1] as int]
                != key[elc[t] as int]) && lex_lt(key, elc[t - 1], elc[t])),
        forall|p: int| 0 <= p < n0 && !(start <= p < end) ==> #[trigger] elc[p] == elb[p],
        bc.len() >= b0.len(),
        forall|j: int| 0 <= j < b0.len() ==> #[trigger] bc[j] == b0[j],
        forall|j: int| b0.len() <= j < bc.len() ==> (#[trigger] bc[j].offset as int) > start,
    ensures
        keyed_cut_pattern(bs, key, elc, bc, end),
{
    assert forall|t: int|
        0 < t < end && cell_of_pos(bs, t - 1) == cell_of_pos(bs, t) implies ((#[trigger] has_cut_at(
        bc,
        t,
    ) <==> key[elc[t - 1] as int] != key[elc[t] as int]) && lex_lt(key, elc[t - 1], elc[t])) by {
        if t < start {
            assert(elc[t - 1] == elb[t - 1]);
            assert(elc[t] == elb[t]);
            lemma_has_cut_extend(b0, bc, start, t);
            assert((has_cut_at(b0, t) <==> key[elb[t - 1] as int] != key[elb[t] as int])
                && lex_lt(key, elb[t - 1], elb[t]));
        } else if t == start {
            assert(k >= 1);
            assert(cut_start(bs, k - 1) <= t - 1) by {
                if k - 1 > 0 {
                    assert(bs[k - 2].offset < bs[k - 1].offset);
                }
            }
            lemma_cell_of_pos_unique(bs, n0, k - 1, t - 1);
            lemma_cell_of_pos_unique(bs, n0, k, t);
            assert(false);
        } else {
            assert(start < t < end);
            assert((has_cut_at(bc, t) <==> key[elc[t - 1] as int] != key[elc[t] as int])
                && lex_lt(key, elc[t - 1], elc[t]));
        }
    }
}

/// The cells of `base` below cell `k` keep their members, and positions past
/// cell `k` are untouched, when only `start..end` was reworked.
pub(crate) proof fn lemma_refine_iter_multisets(
    bs: Seq<Bound>,
    n0: int,
    el0: Seq<usize>,
    elb: Seq<usize>,
    elc: Seq<usize>,
    start: int,
    end: int,
    k: int,
)
    requires
        cuts_ok(bs, n0),
        0 <= k <= bs.len(),
        start == cut_start(bs, k),
        end == cut_end(bs, n0, k),
        0 <= start <= end <= n0,
        el0.len() == n0,
        elb.len() == n0,
        elc.len() == n0,
        forall|j: int|
            0 <= j < k ==> same_range_multiset(
                el0,
                elb,
                #[trigger] cut_start(bs, j),
                cut_end(bs, n0, j),
            ),
        forall|p: int| start <= p < n0 ==> #[trigger] elb[p] == el0[p],
        same_outside(elb, elc, start, end),
        same_range_multiset(elb, elc, start, end),
    ensures
        forall|j: int|
            0 <= j < k + 1 && j <= bs.len() ==> same_range_multiset(
                el0,
                elc,
                #[trigger] cut_start(bs, j),
                cut_end(bs, n0, j),
            ),
        forall|p: int| end <= p < n0 ==> #[trigger] elc[p] == el0[p],
{
    assert forall|j: int|
        0 <= j < k + 1 && j <= bs.len() implies same_range_multiset(
        el0,
        elc,
        #[trigger] cut_start(bs, j),
        cut_end(bs, n0, j),
    ) by {
        lemma_cell_range(bs, n0, j);
        if j < k {
            assert(cut_end(bs, n0, j) <= start) by {
                lemma_cells_ordered(bs, n0, j, k);
            }
            assert(elc.subrange(cut_start(bs, j), cut_end(bs, n0, j)) =~= elb.subrange(
                cut_start(bs, j),
                cut_end(bs, n0, j),
            ));
        } else {
            assert(elb.subrange(start, end) =~= el0.subrange(start, end));
        }
    }
}


/// The consecutive cell indices `lo, lo + 1, …, hi - 1`.
pub open spec fn index_run(lo: int, hi: int) -> Seq<usize>
    decreases hi - lo,
{
    if hi <= lo {
        Seq::empty()
    } else {
        index_run(lo, hi - 1).push((hi - 1) as usize)
    }
}

/// The worklist fix for one split cell: the index `jm` of its last sub-cell
/// replaces the first entry among the pass's original `already` entries that
/// still names the cell's pre-pass index `k`, or is appended when none does.
pub open spec fn wl_fix(wl: Seq<usize>, already: int, k: usize, jm: usize, t: int) -> Seq<usize>
    decreases already - t,
{
    if t >= already || t >= wl.len() {
        wl.push(jm)
    } else if wl[t] == k {
        wl.update(t, jm)
    } else {
        wl_fix(wl, already, k, jm, t + 1)
    }
}

/// The worklist after the cells of `bs` below `k` have been refined, with
/// sub-cell indices read off the refined bound list `nb`: per split cell,
/// the indices of all but its last sub-cell are appended, then its last
/// sub-cell's index is fixed in; unsplit cells leave the list alone.
pub open spec fn wl_pass(
    bs: Seq<Bound>,
    nb: Seq<Bound>,
    n: int,
    wl0: Seq<usize>,
    already: int,
    k: int,
) -> Seq<usize>
    decreases k,
{
    if k <= 0 {
        wl0
    } else {
        let prev = wl_pass(bs, nb, n, wl0, already, k - 1);
        let lo = cell_of_pos(nb, cut_start(bs, k - 1));
        let hi = cell_of_pos(nb, cut_end(bs, n, k - 1) - 1);
        if hi == lo {
            prev
        } else {
            wl_fix(prev + index_run(lo, hi), already, (k - 1) as usize, hi as usize, 0)
        }
    }
}

/// A sorted bound list whose first `a` offsets are at or before `p` and
/// whose others are past it has `a` cuts at or before `p`.
pub(crate) proof fn lemma_count_prefix(nb: Seq<Bound>, p: int, a: int)
    requires
        0 <= a <= nb.len(),
        forall|j: int| 0 <= j < a ==> #[trigger] nb[j].offset <= p,
        forall|j: int| a <= j < nb.len() ==> #[trigger] nb[j].offset > p,
    ensures
        count_cuts_le(nb, p) == a,
    decreases nb.len(),
{
    if nb.len() > 0 {
        let d = nb.drop_last();
        if a == nb.len() {
            lemma_count_prefix(d, p, a - 1);
        } else {
            lemma_count_prefix(d, p, a);
        }
    }
}

/// A pass prefix reads the same sub-cell indices off any extension of the
/// refined bound list by bounds past the processed cells.
pub(crate) proof fn lemma_wl_pass_extend(
    bs: Seq<Bound>,
    nb1: Seq<Bound>,
    nb2: Seq<Bound>,
    n: int,
    wl0: Seq<usize>,
    already: int,
    k: int,
)
    requires
        cuts_ok(bs, n),
        0 <= k <= bs.len(),
        nb2.len() >= nb1.len(),
        forall|j: int| 0 <= j < nb1.len() ==> #[trigger] nb2[j] == nb1[j],
        forall|j: int|
            nb1.len() <= j < nb2.len() ==> (#[trigger] nb2[j].offset as int) >= cut_start(bs, k),
    ensures
        wl_pass(bs, nb2, n, wl0, already, k) == wl_pass(bs, nb1, n, wl0, already, k),
    decreases k,
{
    if k > 0 {
        assert(cut_start(bs, k - 1) < cut_start(bs, k));
        lemma_wl_pass_extend(bs, nb1, nb2, n, wl0, already, k - 1);
        assert(cut_end(bs, n, k - 1) == cut_start(bs, k));
        lemma_cell_of_pos_extend(nb1, nb2, cut_start(bs, k - 1));
        lemma_cell_of_pos_extend(nb1, nb2, cut_end(bs, n, k - 1) - 1);
    }
}

/// Every bound a cell refinement adds sits strictly inside the cell.
pub(crate) proof fn lemma_cell_refined_offsets(
    entry: ReversibleColoring,
    fin: ReversibleColoring,
    wlentry: Seq<usize>,
    wlfin: Seq<usize>,
    key: Seq<u64>,
    start: int,
    end: int,
    rci: int,
    j: int,
)
    requires
        cell_refined(entry, fin, wlentry, wlfin, key, start, end, rci),
        entry.coloring.bounds@.len() <= j < fin.coloring.bounds@.len(),
    ensures
        start < (fin.coloring.bounds@[j].offset as int) < end,
{
    assert(fin.coloring.bounds@[j].depth == entry.depth);
}

/// The effect of refining one cell `start..end` by `key`: elements of the
/// cell are regrouped into runs of equal key, one bound per run boundary is
/// pushed at the current depth, and one worklist entry per bound is appended.
/// The reverse index is not touched; a refinement pass rebuilds it at the end.
pub(crate) open spec fn cell_refined(
    entry: ReversibleColoring,
    fin: ReversibleColoring,
    wlentry: Seq<usize>,
    wlfin: Seq<usize>,
    key: Seq<u64>,
    start: int,
    end: int,
    rci: int,
) -> bool {
    let elb = entry.coloring.elements@;
    let elc = fin.coloring.elements@;
    let b0 = entry.coloring.bounds@;
    let b1 = fin.coloring.bounds@;
    let n = elb.len() as int;
    &&& fin.depth == entry.depth
    &&& fin.reverse@ == entry.reverse@
    &&& elc.len() == n
    &&& universe_permutation(elc)
    &&& same_outside(elb, elc, start, end)
    &&& same_range_multiset(elb, elc, start, end)
    &&& rci == b1.len()
    &&& rci >= b0.len()
    &&& (forall|j: int| 0 <= j < b0.len() ==> #[trigger] b1[j] == b0[j])
    &&& (forall|j: int|
        b0.len() <= j < b1.len() ==> (#[trigger] b1[j].depth == entry.depth && start < (b1[
            j
        ].offset as int) && (b1[j].offset as int) < end))
    &&& cuts_ok(b1, n)
    &&& (forall|t: int|
        start < t < end ==> (#[trigger] has_cut_at(b1, t) <==> key[elc[t - 1] as int] != key[elc[
            t
        ] as int]))
    &&& (forall|t: int| start < t < end ==> lex_lt(key, elc[t - 1], #[trigger] elc[t]))
    &&& wlfin.len() >= wlentry.len()
    &&& (forall|t: int| 0 <= t < wlentry.len() ==> #[trigger] wlfin[t] == wlentry[t])
    &&& wlfin == wlentry + index_run(b0.len() as int, rci)
    &&& (rci == b0.len() ==> elc == elb && b1 == b0 && wlfin == wlentry)
}

impl ReversibleColoring {
    /// Splits the cell occupying `start..end` into runs of equal `key` value,
    /// pushing one bound per run boundary (at the current depth) and one
    /// worklist entry per bound.
    #[verifier::rlimit(100)]
    fn refine_cell(
        &mut self,
        refined_colors: &mut Vec<usize>,
        key: &Vec<u64>,
        start: usize,
        end: usize,
        new_ci: usize,
    ) -> (rci: usize)
        requires
            start < end <= old(self).coloring.elements@.len(),
            key@.len() == old(self).coloring.elements@.len(),
            universe_permutation(old(self).coloring.elements@),
            range_sorted(old(self).coloring.elements@, start as int, end as int),
            cuts_ok(old(self).coloring.bounds@, old(self).coloring.elements@.len() as int),
            forall|j: int|
                0 <= j < old(self).coloring.bounds@.len()
                    ==> #[trigger] old(self).coloring.bounds@[j].offset <= start,
            new_ci == old(self).coloring.bounds@.len(),
        ensures
            cell_refined(
                *old(self),
                *final(self),
                old(refined_colors)@,
                final(refined_colors)@,
                key@,
                start as int,
                end as int,
                rci as int,
            ),
    {
        let ghost el0 = old(self).coloring.elements@;
        let ghost built0 = old(self).coloring.bounds@;
        let ghost n0 = el0.len() as int;
        let ghost d0 = old(self).depth;
        let ghost wl0 = old(refined_colors)@;
        let n = self.coloring.elements.len();
        // Scan the cell for key uniformity.
        let x0 = self.coloring.elements[start];
        let fk = key[x0];
        let mut uniform = true;
        let mut q = start + 1;
        while q < end
            invariant
                start < q <= end,
                end <= n,
                n == n0,
                el0.len() == n0,
                key@.len() == n0,
                *self == *old(self),
                el0 == self.coloring.elements@,
                universe_permutation(el0),
                fk == key@[el0[start as int] as int],
                uniform <==> (forall|t: int|
                    start < t < q ==> key@[#[trigger] el0[t] as int] == fk),
            decreases end - q,
        {
            let xq = self.coloring.elements[q];
            if key[xq] != fk {
                uniform = false;
            }
            q = q + 1;
        }
        if uniform {
            // One run of equal keys: the cell is untouched.
            proof {
                assert(wl0 + index_run(new_ci as int, new_ci as int) =~= wl0);
                assert(el0.subrange(start as int, end as int) =~= el0.subrange(
                    start as int,
                    end as int,
                ));
                assert forall|t: int|
                    (start as int) < t < end as int implies (#[trigger] has_cut_at(built0, t)
                        <==> key@[el0[t - 1] as int] != key@[el0[t] as int]) by {
                    if has_cut_at(built0, t) {
                        let j = choose|j: int|
                            0 <= j < built0.len() && built0[j].offset == t;
                    }
                }
                assert forall|t: int|
                    (start as int) < t < end as int implies lex_lt(
                    key@,
                    el0[t - 1],
                    #[trigger] el0[t],
                ) by {
                    assert(key@[el0[t - 1] as int] == fk);
                    assert(key@[el0[t] as int] == fk);
                    assert(el0[t - 1] < el0[t]);
                }
                assert(cell_refined(
                    *old(self),
                    *self,
                    wl0,
                    refined_colors@,
                    key@,
                    start as int,
                    end as int,
                    new_ci as int,
                ));
            }
            new_ci
        } else {
            sort_range_by_key(&mut self.coloring.elements, start, end, key);
            let ghost elsorted = self.coloring.elements@;
            proof {
                lemma_permutation_preserved(el0, elsorted, start as int, end as int);
                assert(wl0 + index_run(new_ci as int, new_ci as int) =~= wl0);
            }
            let mut nci = new_ci;
            let mut q2 = start + 1;
            while q2 < end
                invariant
                    start < q2 <= end,
                    end <= n,
                    n == n0,
                    key@.len() == n0,
                    self.depth == d0,
                    self.reverse@ == old(self).reverse@,
                    self.coloring.elements@ == elsorted,
                    elsorted.len() == n0,
                    universe_permutation(elsorted),
                    range_sorted_by_key(elsorted, key@, start as int, end as int),
                    new_ci == built0.len(),
                    self.coloring.bounds@.len() >= built0.len(),
                    forall|j: int|
                        0 <= j < built0.len() ==> #[trigger] self.coloring.bounds@[j]
                            == built0[j],
                    forall|j: int| 0 <= j < built0.len() ==> #[trigger] built0[j].offset <= start,
                    forall|j: int|
                        built0.len() <= j < self.coloring.bounds@.len()
                            ==> (#[trigger] self.coloring.bounds@[j].depth == d0
                            && (start as int) < (self.coloring.bounds@[j].offset as int)),
                    cuts_ok(self.coloring.bounds@, n0),
                    forall|j: int|
                        0 <= j < self.coloring.bounds@.len()
                            ==> #[trigger] self.coloring.bounds@[j].offset < q2,
                    nci == self.coloring.bounds@.len(),
                    forall|t: int|
                        (start as int) < t < q2 ==> (#[trigger] has_cut_at(
                            self.coloring.bounds@,
                            t,
                        ) <==> key@[elsorted[t - 1] as int] != key@[elsorted[t] as int]),
                    refined_colors@.len() >= wl0.len(),
                    forall|t: int|
                        0 <= t < wl0.len() ==> #[trigger] refined_colors@[t] == wl0[t],
                    refined_colors@ == wl0 + index_run(new_ci as int, nci as int),
                decreases end - q2,
            {
                let a = self.coloring.elements[q2 - 1];
                let b = self.coloring.elements[q2];
                let ghost bprev = self.coloring.bounds@;
                if key[a] != key[b] {
                    refined_colors.push(nci);
                    proof {
                        lemma_num_cuts(self.coloring.bounds@, n0);
                        assert(index_run(new_ci as int, nci as int + 1) == index_run(
                            new_ci as int,
                            nci as int,
                        ).push(nci));
                        assert(refined_colors@ == wl0 + index_run(new_ci as int, nci as int + 1))
                            by {
                            assert(refined_colors@ =~= wl0 + index_run(
                                new_ci as int,
                                nci as int,
                            ).push(nci));
                        }
                    }
                    nci = nci + 1;
                    let nb = Bound { offset: q2, depth: self.depth };
                    self.coloring.bounds.push(nb);
                    proof {
                        lemma_cuts_push(bprev, n0, nb);
                        assert forall|t: int|
                            (start as int) < t < q2 + 1 implies (#[trigger] has_cut_at(
                            self.coloring.bounds@,
                            t,
                        ) <==> key@[elsorted[t - 1] as int] != key@[elsorted[t] as int]) by {
                            if t < q2 as int {
                                lemma_has_cut_push(bprev, nb, t);
                            } else {
                                assert(self.coloring.bounds@[bprev.len() as int].offset == t);
                            }
                        }
                    }
                } else {
                    proof {
                        assert forall|t: int|
                            (start as int) < t < q2 + 1 implies (#[trigger] has_cut_at(
                            self.coloring.bounds@,
                            t,
                        ) <==> key@[elsorted[t - 1] as int] != key@[elsorted[t] as int]) by {
                            if t == q2 as int && has_cut_at(self.coloring.bounds@, t) {
                                let j = choose|j: int|
                                    0 <= j < self.coloring.bounds@.len()
                                        && self.coloring.bounds@[j].offset == t;
                            }
                        }
                    }
                }
                q2 = q2 + 1;
            }
            proof {
                // A non-uniform cell always splits.
                assert(self.coloring.bounds@.len() > built0.len()) by {
                    if self.coloring.bounds@.len() == built0.len() {
                        assert forall|t: int|
                            (start as int) < t < end implies key@[elsorted[t - 1] as int]
                            == #[trigger] key@[elsorted[t] as int] by {
                            if key@[elsorted[t - 1] as int] != key@[elsorted[t] as int] {
                                assert(has_cut_at(self.coloring.bounds@, t));
                                let j = choose|j: int|
                                    0 <= j < self.coloring.bounds@.len()
                                        && self.coloring.bounds@[j].offset == t;
                                assert(false);
                            }
                        }
                        lemma_const_key(elsorted, key@, start as int, end as int);
                        let t0 = choose|t0: int|
                            start < t0 < end && key@[el0[t0] as int] != fk;
                        lemma_range_multiset_in_range(el0, elsorted, start as int, end as int, t0);
                        let t1 = choose|t1: int| start <= t1 < end && elsorted[t1] == el0[t0];
                        lemma_range_multiset_in_range(
                            el0,
                            elsorted,
                            start as int,
                            end as int,
                            start as int,
                        );
                        let t2 = choose|t2: int|
                            start <= t2 < end && elsorted[t2] == el0[start as int];
                        assert(key@[elsorted[t1] as int] != key@[elsorted[t2] as int]);
                        assert(false);
                    }
                }
                assert forall|t: int|
                    (start as int) < t < end as int implies lex_lt(
                    key@,
                    elsorted[t - 1],
                    #[trigger] elsorted[t],
                ) by {}
                assert(cell_refined(
                    *old(self),
                    *self,
                    wl0,
                    refined_colors@,
                    key@,
                    start as int,
                    end as int,
                    nci as int,
                ));
            }
            nci
        }
    }

    /// The state of a refinement pass by `key` that started from `orig` with
    /// worklist `wl0` and has processed the cells of `orig` below `k`: the
    /// next unprocessed position is `start`, and `new_ci` cells have been
    /// produced so far. The reverse index is untouched until the pass ends.
    pub(crate) open spec fn refine_pass_inv(
        self,
        orig: ReversibleColoring,
        wl: Seq<usize>,
        wl0: Seq<usize>,
        key: Seq<u64>,
        k: int,
        start: int,
        new_ci: int,
    ) -> bool {
        let bs = orig.coloring.bounds@;
        let el0 = orig.coloring.elements@;
        let n0 = orig.n();
        &&& 0 <= k <= bs.len() + 1
        &&& key.len() == n0
        &&& orig.wf()
        &&& n0 >= 1
        &&& self.depth == orig.depth
        &&& self.reverse@ == orig.reverse@
        &&& (k <= bs.len() ==> start == cut_start(bs, k))
        &&& (k > bs.len() ==> start == n0)
        &&& 0 <= start <= n0
        &&& self.coloring.elements@.len() == n0
        &&& universe_permutation(self.coloring.elements@)
        &&& (forall|p: int| start <= p < n0 ==> #[trigger] self.coloring.elements@[p] == el0[p])
        &&& (forall|j: int|
            0 <= j < k && j <= bs.len() ==> same_range_multiset(
                el0,
                self.coloring.elements@,
                #[trigger] cut_start(bs, j),
                cut_end(bs, n0, j),
            ))
        &&& new_ci == self.coloring.bounds@.len()
        &&& self.coloring.bounds@.len() >= (if k <= bs.len() {
            k
        } else {
            bs.len() as int
        })
        &&& cuts_ok(self.coloring.bounds@, n0)
        &&& (forall|j: int|
            0 <= j < self.coloring.bounds@.len()
                ==> (#[trigger] self.coloring.bounds@[j].offset as int) <= start)
        &&& (forall|j: int|
            0 <= j < k && j < bs.len() ==> self.coloring.bounds@.contains(#[trigger] bs[j]))
        &&& (forall|j: int|
            0 <= j < self.coloring.bounds@.len() ==> (#[trigger] self.coloring.bounds@[j].depth
                == orig.depth || bs.contains(self.coloring.bounds@[j])))
        &&& keyed_cut_pattern(bs, key, self.coloring.elements@, self.coloring.bounds@, start)
        &&& wl.len() >= wl0.len()
        &&& (self.coloring.bounds@.len() == (if k <= bs.len() {
            k
        } else {
            bs.len() as int
        }) ==> (self.coloring.elements@ == el0 && wl == wl0 && (forall|j: int|
            0 <= j < self.coloring.bounds@.len() ==> #[trigger] self.coloring.bounds@[j] == bs[
                j
            ])))
    }

    /// Bound-list facts after one cell of a refinement pass, over the raw
    /// bound lists.
    #[verifier::rlimit(100)]
    proof fn lemma_step_bound_lists(
        bs: Seq<Bound>,
        built0: Seq<Bound>,
        built1: Seq<Bound>,
        finb: Seq<Bound>,
        n0: int,
        d0: usize,
        k: int,
        start: int,
        end: int,
    )
        requires
            cuts_ok(bs, n0),
            0 <= k <= bs.len(),
            start == cut_start(bs, k),
            end == cut_end(bs, n0, k),
            0 <= start < end <= n0,
            built1.len() >= built0.len(),
            forall|j: int| 0 <= j < built0.len() ==> #[trigger] built1[j] == built0[j],
            forall|j: int|
                built0.len() <= j < built1.len() ==> (#[trigger] built1[j].depth == d0 && start
                    < (built1[j].offset as int) && (built1[j].offset as int) < end),
            forall|j: int|
                0 <= j < built0.len() ==> (#[trigger] built0[j].offset as int) <= start,
            forall|j: int| 0 <= j < k && j < bs.len() ==> built0.contains(#[trigger] bs[j]),
            forall|j: int|
                0 <= j < built0.len() ==> (#[trigger] built0[j].depth == d0 || bs.contains(
                    built0[j],
                )),
            cuts_ok(built1, n0),
            k < bs.len() ==> finb == built1.push(bs[k]),
            k == bs.len() ==> finb == built1,
        ensures
            cuts_ok(finb, n0),
            forall|j: int| 0 <= j < finb.len() ==> (#[trigger] finb[j].offset as int) <= end,
            forall|j: int|
                0 <= j < k + 1 && j < bs.len() ==> finb.contains(#[trigger] bs[j]),
            forall|j: int|
                0 <= j < finb.len() ==> (#[trigger] finb[j].depth == d0 || bs.contains(finb[j])),
            finb.len() >= built1.len(),
    {
        lemma_cell_range(bs, n0, k);
        if k < bs.len() {
            assert(finb == built1.push(bs[k]));
            assert(forall|j: int| 0 <= j < built1.len() ==> #[trigger] finb[j] == built1[j]);
            assert(finb[built1.len() as int] == bs[k]);
            assert(bs[k].offset == end);
        } else {
            assert(finb == built1);
        }
        assert(cuts_ok(finb, n0)) by {
            if k < bs.len() {
                assert forall|j: int|
                    0 <= j < built1.len() implies #[trigger] built1[j].offset < bs[k].offset by {
                    if j < built0.len() {
                        assert(built1[j] == built0[j]);
                    } else {
                        assert(built1[j].depth == d0);
                        assert(start < (built1[j].offset as int) && (built1[j].offset as int)
                            < end);
                    }
                }
                lemma_cuts_push(built1, n0, bs[k]);
            }
        }
        assert forall|j: int|
            0 <= j < finb.len() implies (#[trigger] finb[j].offset as int) <= end by {
            if j < built1.len() {
                if j < built0.len() {
                    assert(built1[j] == built0[j]);
                }
            } else {
                assert(finb[j] == bs[k]);
            }
        }
        assert forall|j: int| 0 <= j < k + 1 && j < bs.len() implies finb.contains(
            #[trigger] bs[j],
        ) by {
            if j < k {
                assert(built0.contains(bs[j]));
                let j2 = choose|j2: int| 0 <= j2 < built0.len() && built0[j2] == bs[j];
                assert(finb[j2] == bs[j]);
            } else {
                assert(finb[built1.len() as int] == bs[j]);
            }
        }
        assert forall|j: int|
            0 <= j < finb.len() implies (#[trigger] finb[j].depth == d0 || bs.contains(
            finb[j],
        )) by {
            if j < built0.len() {
                assert(finb[j] == built0[j]);
            } else if j < built1.len() {
            } else {
                assert(finb[j] == bs[k]);
                assert(bs.contains(bs[k]));
            }
        }
    }

    /// The keyed cut pattern after one cell of a refinement pass, over raw
    /// sequences.
    #[verifier::rlimit(100)]
    proof fn lemma_step_pattern(
        bs: Seq<Bound>,
        key: Seq<u64>,
        elb: Seq<usize>,
        elc: Seq<usize>,
        built0: Seq<Bound>,
        built1: Seq<Bound>,
        finb: Seq<Bound>,
        n0: int,
        k: int,
        start: int,
        end: int,
    )
        requires
            cuts_ok(bs, n0),
            0 <= k <= bs.len(),
            start == cut_start(bs, k),
            end == cut_end(bs, n0, k),
            0 <= start < end <= n0,
            elb.len() == n0,
            elc.len() == n0,
            keyed_cut_pattern(bs, key, elb, built0, start),
            forall|t: int|
                start < t < end ==> (#[trigger] has_cut_at(built1, t) <==> key[elc[t
                - 1] as int] != key[elc[t] as int]),
            forall|t: int| start < t < end ==> lex_lt(key, elc[t - 1], #[trigger] elc[t]),
            forall|p: int| 0 <= p < n0 && !(start <= p < end) ==> #[trigger] elc[p] == elb[p],
            built1.len() >= built0.len(),
            forall|j: int| 0 <= j < built0.len() ==> #[trigger] built1[j] == built0[j],
            forall|j: int|
                built0.len() <= j < built1.len() ==> start < (#[trigger] built1[j].offset as int)
                    < end,
            k < bs.len() ==> finb == built1.push(bs[k]),
            k == bs.len() ==> finb == built1,
        ensures
            keyed_cut_pattern(bs, key, elc, finb, end),
    {
        lemma_cell_range(bs, n0, k);
        if k < bs.len() {
            assert(finb == built1.push(bs[k]));
            assert(forall|j: int| 0 <= j < built1.len() ==> #[trigger] finb[j] == built1[j]);
            assert(finb[built1.len() as int] == bs[k]);
            assert(bs[k].offset == end);
        } else {
            assert(finb == built1);
        }
        assert forall|t: int|
            start < t < end implies ((#[trigger] has_cut_at(finb, t) <==> key[elc[t - 1] as int]
                != key[elc[t] as int]) && lex_lt(key, elc[t - 1], elc[t])) by {
            lemma_has_cut_extend(built1, finb, end - 1, t);
            assert((has_cut_at(built1, t) <==> key[elc[t - 1] as int] != key[elc[t] as int])
                && lex_lt(key, elc[t - 1], elc[t]));
        }
        lemma_refine_iter_adjacency(bs, n0, key, elb, elc, built0, finb, start, end, k);
    }

    /// Assembles the pass invariant for the next cell from the effects of
    /// processing one cell and re-installing its closing bound.
    #[verifier::rlimit(100)]
    proof fn lemma_step_concludes(
        orig: ReversibleColoring,
        entry: ReversibleColoring,
        mid: ReversibleColoring,
        fin: ReversibleColoring,
        built1: Seq<Bound>,
        wl0: Seq<usize>,
        wlentry: Seq<usize>,
        wlmid: Seq<usize>,
        key: Seq<u64>,
        k: int,
        start: int,
        end: int,
        rci: int,
        nci: int,
    )
        requires
            entry.refine_pass_inv(
                orig,
                wlentry,
                wl0,
                key,
                k,
                start,
                entry.coloring.bounds@.len() as int,
            ),
            k <= orig.coloring.bounds@.len(),
            end == cut_end(orig.coloring.bounds@, orig.n(), k),
            start < end,
            cell_refined(entry, mid, wlentry, wlmid, key, start, end, rci),
            built1 == mid.coloring.bounds@,
            fin.coloring.elements@ == mid.coloring.elements@,
            fin.reverse@ == mid.reverse@,
            fin.depth == mid.depth,
            k < orig.coloring.bounds@.len() ==> fin.coloring.bounds@ == built1.push(
                orig.coloring.bounds@[k],
            ) && nci == rci + 1,
            k == orig.coloring.bounds@.len() ==> fin.coloring.bounds@ == built1 && nci == rci,
        ensures
            fin.refine_pass_inv(orig, wlmid, wl0, key, k + 1, end, nci),
    {
        let bs = orig.coloring.bounds@;
        let el0 = orig.coloring.elements@;
        let n0 = orig.n();
        let elb = entry.coloring.elements@;
        let elc = fin.coloring.elements@;
        let built0 = entry.coloring.bounds@;
        let finb = fin.coloring.bounds@;
        lemma_num_cuts(bs, n0);
        lemma_cell_range(bs, n0, k);
        assert(start == cut_start(bs, k));
        Self::lemma_step_bound_lists(
            bs,
            built0,
            built1,
            finb,
            n0,
            orig.depth,
            k,
            start,
            end,
        );
        lemma_refine_iter_multisets(bs, n0, el0, elb, elc, start, end, k);
        assert forall|j: int|
            built0.len() <= j < built1.len() implies start < (#[trigger] built1[
        j].offset as int) < end by {
            assert(built1[j].depth == entry.depth);
        }
        Self::lemma_step_pattern(
            bs,
            key,
            elb,
            elc,
            built0,
            built1,
            finb,
            n0,
            k,
            start,
            end,
        );
        // The no-change tracking survives this cell.
        if finb.len() == (if k + 1 <= bs.len() {
            k + 1
        } else {
            bs.len() as int
        }) {
            assert(built0.len() == k);
            assert(rci == k);
            assert(elb == el0);
            assert(wlentry == wl0);
            assert(wlmid == wlentry);
            assert forall|j: int| 0 <= j < finb.len() implies #[trigger] finb[j] == bs[j] by {
                if j < k {
                    assert(finb[j] == built1[j]);
                    assert(built1[j] == built0[j]);
                } else {
                    assert(finb[j] == bs[k]);
                }
            }
        }
        // The next cell starts where this one ended.
        if k + 1 <= bs.len() {
            assert(cut_start(bs, k + 1) == end);
        }
    }

    /// Processes the `k`-th cell of a refinement pass: refines it by `key`,
    /// maintains the worklist, and re-installs the bound that closed it.
    /// Returns the next unprocessed position, the cell count, and the index
    /// of the processed cell's last sub-cell.
    #[verifier::rlimit(100)]
    fn refine_step(
        &mut self,
        refined_colors: &mut Vec<usize>,
        key: &Vec<u64>,
        old_bounds: &Vec<Bound>,
        k: usize,
        start: usize,
        new_ci: usize,
        already: usize,
        Ghost(orig): Ghost<ReversibleColoring>,
        Ghost(wl0): Ghost<Seq<usize>>,
    ) -> (res: (usize, usize, usize))
        requires
            old(self).refine_pass_inv(
                orig,
                old(refined_colors)@,
                wl0,
                key@,
                k as int,
                start as int,
                new_ci as int,
            ),
            (k as int) <= orig.coloring.bounds@.len(),
            old_bounds@ == orig.coloring.bounds@,
            wl0.len() == already,
            orig.n() <= usize::MAX,
        ensures
            final(self).refine_pass_inv(
                orig,
                final(refined_colors)@,
                wl0,
                key@,
                k as int + 1,
                res.0 as int,
                res.1 as int,
            ),
            res.2 >= new_ci,
            final(self).coloring.bounds@.len() >= old(self).coloring.bounds@.len(),
            forall|j: int|
                0 <= j < old(self).coloring.bounds@.len() ==> #[trigger] final(self).coloring.bounds@[j] == old(self).coloring.bounds@[j],
            forall|j: int|
                old(self).coloring.bounds@.len() <= j < final(self).coloring.bounds@.len() ==> (
                #[trigger] final(self).coloring.bounds@[j].offset as int) >= cut_start(
                    orig.coloring.bounds@,
                    k as int,
                ),
            cell_of_pos(
                final(self).coloring.bounds@,
                cut_start(orig.coloring.bounds@, k as int),
            ) == new_ci as int,
            cell_of_pos(
                final(self).coloring.bounds@,
                cut_end(orig.coloring.bounds@, orig.n(), k as int) - 1,
            ) == res.2 as int,
            final(refined_colors)@ == (if res.2 == new_ci {
                old(refined_colors)@
            } else {
                wl_fix(
                    old(refined_colors)@ + index_run(new_ci as int, res.2 as int),
                    already as int,
                    k,
                    res.2,
                    0,
                )
            }),
    {
        let ghost bs = orig.coloring.bounds@;
        let ghost el0 = orig.coloring.elements@;
        let ghost n0 = orig.n();
        proof {
            lemma_cell_range(bs, n0, k as int);
            lemma_num_cuts(bs, n0);
        }
        let n = self.coloring.elements.len();
        let end = if k < old_bounds.len() {
            old_bounds[k].offset
        } else {
            n
        };
        assert(end as int == cut_end(bs, n0, k as int));
        assert(start < end);
        let ghost entry = *old(self);
        let ghost wlentry = old(refined_colors)@;
        proof {
            assert(range_sorted(self.coloring.elements@, start as int, end as int)) by {
                assert(range_sorted(
                    el0,
                    orig.coloring.cell_start_spec(k as int),
                    orig.coloring.cell_end_spec(k as int),
                ));
                assert forall|x: int, y: int|
                    start <= x < y < end implies self.coloring.elements@[x]
                    < self.coloring.elements@[y] by {
                    assert(self.coloring.elements@[x] == el0[x]);
                    assert(self.coloring.elements@[y] == el0[y]);
                }
            }
        }
        let rci = self.refine_cell(refined_colors, key, start, end, new_ci);
        let ghost mid = *self;
        let ghost wlmid = refined_colors@;
        let ghost built1 = self.coloring.bounds@;
        // A split cell's last sub-cell index replaces the first pre-pass
        // entry naming the cell, or is appended; an unsplit cell — shifted
        // or not — leaves the worklist alone.
        if new_ci != rci {
            let ghost selfsnap = *self;
            let mut found = false;
            let mut t: usize = 0;
            while t < already
                invariant
                    t <= already,
                    already <= wlmid.len(),
                    new_ci < rci,
                    refined_colors@.len() >= wlmid.len(),
                    *self == selfsnap,
                    !found ==> refined_colors@ == wlmid && wl_fix(
                        wlmid,
                        already as int,
                        k,
                        rci,
                        0,
                    ) == wl_fix(wlmid, already as int, k, rci, t as int),
                    found ==> refined_colors@ == wl_fix(wlmid, already as int, k, rci, 0),
                decreases already as int - t as int,
            {
                let e = refined_colors[t];
                if !found && e == k {
                    refined_colors.set(t, rci);
                    proof {
                        assert(wl_fix(wlmid, already as int, k, rci, t as int) == wlmid.update(
                            t as int,
                            rci,
                        ));
                    }
                    found = true;
                } else {
                    proof {
                        if !found {
                            assert(wl_fix(wlmid, already as int, k, rci, t as int) == wl_fix(
                                wlmid,
                                already as int,
                                k,
                                rci,
                                t as int + 1,
                            ));
                        }
                    }
                }
                t = t + 1;
            }
            if !found {
                refined_colors.push(rci);
                proof {
                    assert(wl_fix(wlmid, already as int, k, rci, already as int) == wlmid.push(
                        rci,
                    ));
                }
            }
            proof {
                assert(refined_colors@ == wl_fix(wlmid, already as int, k, rci, 0));
            }
        }
        let ghost wlfin = refined_colors@;
        let mut nci = rci;
        // Re-install the bound that closed this cell.
        if k < old_bounds.len() {
            let eb = old_bounds[k];
            proof {
                lemma_num_cuts(self.coloring.bounds@, n0);
            }
            self.coloring.bounds.push(eb);
            nci = nci + 1;
        }
        proof {
            Self::lemma_step_concludes(
                orig,
                entry,
                mid,
                *self,
                built1,
                wl0,
                wlentry,
                wlmid,
                key@,
                k as int,
                start as int,
                end as int,
                rci as int,
                nci as int,
            );
            // The worklist fix only grows the list, and does not run at all
            // for an unsplit cell.
            assert(wlfin.len() >= wlmid.len());
            if rci == k {
                assert(wlfin == wlmid);
            }
            assert(self.refine_pass_inv(
                orig,
                wlfin,
                wl0,
                key@,
                k as int + 1,
                end as int,
                nci as int,
            ));
            // The sub-cell indices of this cell can be read off the refined
            // bound list: its first sub-cell starts where the cell did, its
            // last ends just before the cell's closing offset.
            let nbf = self.coloring.bounds@;
            assert(cuts_ok(nbf, n0));
            assert forall|j: int|
                (new_ci as int) <= j < nbf.len() implies (#[trigger] nbf[j].offset as int)
                > start as int by {
                assert(built1 == mid.coloring.bounds@);
                assert(entry.coloring.bounds@.len() == new_ci as int);
                if j < built1.len() {
                    lemma_cell_refined_offsets(
                        entry,
                        mid,
                        wlentry,
                        wlmid,
                        key@,
                        start as int,
                        end as int,
                        rci as int,
                        j,
                    );
                    assert(built1[j] == nbf[j]);
                } else {
                    assert(j == built1.len() as int);
                    assert(nbf[j].offset == end);
                }
            }
            assert(cell_of_pos(nbf, start as int) == new_ci as int) by {
                lemma_count_prefix(nbf, start as int, new_ci as int);
                lemma_count_cuts_le_is_cell_of(nbf, n0, start as int);
            }
            assert(cell_of_pos(nbf, end as int - 1) == rci as int) by {
                assert forall|j: int| 0 <= j < rci implies (#[trigger] nbf[j].offset as int) <= end
                    as int - 1 by {
                    assert(built1[j] == nbf[j]);
                    if j < new_ci {
                        assert(entry.coloring.bounds@[j] == built1[j]);
                    }
                }
                lemma_count_prefix(nbf, end as int - 1, rci as int);
                lemma_count_cuts_le_is_cell_of(nbf, n0, end as int - 1);
            }
            if rci == new_ci {
                assert(wlfin == wlentry);
            } else {
                assert(wlmid == wlentry + index_run(new_ci as int, rci as int));
                assert(wlfin == wl_fix(
                    wlentry + index_run(new_ci as int, rci as int),
                    already as int,
                    k,
                    rci,
                    0,
                ));
            }
        }
        (end, nci, rci)
    }

    /// Refines every cell by `key`: each cell is split into runs of equal key
    /// value, ordered by key, elements sorted within each run. New bounds are
    /// stamped with the current depth; the old bounds survive untouched. The
    /// reverse index is rebuilt by a sweep at the end of the pass.
    ///
    /// The worklist discipline, per old cell that split into sub-cells
    /// `j₀ < … < jₘ`: `j₀ … jₘ₋₁` are appended, and `jₘ` replaces the first
    /// pre-existing entry that names the cell, or is appended when none
    /// does. A cell that did not split — shifted or not — adds nothing.
    /// Returns `true` exactly when the number of cells grew; otherwise the
    /// coloring and the worklist are left unchanged.
    #[verifier::rlimit(100)]
    pub fn refine_with(&mut self, refined_colors: &mut Vec<usize>, key: &Vec<u64>) -> (r: bool)
        requires
            old(self).wf(),
            key@.len() == old(self).n(),
            old(self).n() >= 1,
        ensures
            final(self).wf(),
            final(self).n() == old(self).n(),
            final(self).depth == old(self).depth,
            final(self).coloring.bounds@.len() >= old(self).coloring.bounds@.len(),
            r <==> final(self).coloring.bounds@.len() > old(self).coloring.bounds@.len(),
            !r ==> final(self).coloring.elements@ == old(self).coloring.elements@ && final(self).coloring.bounds@ == old(self).coloring.bounds@ && final(self).reverse@ == old(self).reverse@ && final(refined_colors)@ == old(refined_colors)@,
            forall|j: int|
                0 <= j < old(self).coloring.bounds@.len() ==> final(self).coloring.bounds@.contains(
                    #[trigger] old(self).coloring.bounds@[j],
                ),
            forall|j: int|
                0 <= j < final(self).coloring.bounds@.len() ==> (#[trigger] final(self).coloring.bounds@[j].depth == old(self).depth || old(self).coloring.bounds@.contains(final(self).coloring.bounds@[j])),
            forall|i: int|
                0 <= i <= old(self).coloring.bounds@.len() ==> same_range_multiset(
                    old(self).coloring.elements@,
                    final(self).coloring.elements@,
                    #[trigger] cut_start(old(self).coloring.bounds@, i),
                    cut_end(old(self).coloring.bounds@, old(self).n(), i),
                ),
            keyed_cut_pattern(
                old(self).coloring.bounds@,
                key@,
                final(self).coloring.elements@,
                final(self).coloring.bounds@,
                old(self).n(),
            ),
            key_homogeneous(*final(self), key@),
            key_homogeneous(*old(self), key@) ==> !r,
            final(refined_colors)@.len() >= old(refined_colors)@.len(),
            final(refined_colors)@ == wl_pass(
                old(self).coloring.bounds@,
                final(self).coloring.bounds@,
                old(self).n(),
                old(refined_colors)@,
                old(refined_colors)@.len() as int,
                old(self).coloring.bounds@.len() as int + 1,
            ),
    {
        let ghost orig = *old(self);
        let ghost bs = orig.coloring.bounds@;
        let ghost n0 = orig.n();
        let ghost d0 = orig.depth;
        let ghost wl0 = old(refined_colors)@;
        proof {
            lemma_num_cuts(bs, n0);
            crate::sorting::lemma_vec_len_bound(&old(self).coloring.elements);
        }
        let n = self.coloring.elements.len();
        let already = refined_colors.len();
        let mut old_bounds: Vec<Bound> = Vec::new();
        core::mem::swap(&mut old_bounds, &mut self.coloring.bounds);
        let nbo = old_bounds.len();
        let nc = nbo + 1;
        let mut start: usize = 0;
        let mut new_ci: usize = 0;
        let mut k: usize = 0;
        while k < nc
            invariant
                k <= nc,
                nc == bs.len() + 1,
                nbo == bs.len(),
                orig == *old(self),
                bs == orig.coloring.bounds@,
                n0 == orig.n(),
                wl0 == old(refined_colors)@,
                wl0.len() == already,
                old_bounds@ == bs,
                n0 <= usize::MAX,
                self.refine_pass_inv(
                    orig,
                    refined_colors@,
                    wl0,
                    key@,
                    k as int,
                    start as int,
                    new_ci as int,
                ),
                refined_colors@ == wl_pass(
                    bs,
                    self.coloring.bounds@,
                    n0,
                    wl0,
                    already as int,
                    k as int,
                ),
            decreases nc - k,
        {
            let ghost prevb = self.coloring.bounds@;
            let ghost wlprev = refined_colors@;
            let res = self.refine_step(
                refined_colors,
                key,
                &old_bounds,
                k,
                start,
                new_ci,
                already,
                Ghost(orig),
                Ghost(wl0),
            );
            proof {
                let nbf = self.coloring.bounds@;
                lemma_wl_pass_extend(bs, prevb, nbf, n0, wl0, already as int, k as int);
                assert(wl_pass(bs, nbf, n0, wl0, already as int, k as int) == wlprev);
                assert(cut_start(bs, k as int) == start as int);
                assert(cut_end(bs, n0, k as int) == cut_end(bs, n0, k as int + 1 - 1));
                assert(refined_colors@ == wl_pass(
                    bs,
                    nbf,
                    n0,
                    wl0,
                    already as int,
                    k as int + 1,
                ));
            }
            start = res.0;
            new_ci = res.1;
            k = k + 1;
        }
        let changed = self.coloring.bounds.len() != nbo;
        proof {
            // Well-formedness of the refined coloring's element order.
            let nbf = self.coloring.bounds@;
            assert forall|i: int|
                0 <= i <= nbf.len() implies range_sorted(
                self.coloring.elements@,
                #[trigger] cut_start(nbf, i),
                cut_end(nbf, n0, i),
            ) by {
                lemma_cell_range(nbf, n0, i);
                assert forall|p: int|
                    cut_start(nbf, i) <= p && p + 1 < cut_end(nbf, n0, i)
                        implies #[trigger] self.coloring.elements@[p] < self.coloring.elements@[p
                    + 1] by {
                    assert(!has_cut_at(nbf, p + 1));
                    assert(!has_cut_at(bs, p + 1)) by {
                        if has_cut_at(bs, p + 1) {
                            let j = choose|j: int| 0 <= j < bs.len() && bs[j].offset == p + 1;
                            assert(nbf.contains(bs[j]));
                            let j2 = choose|j2: int| 0 <= j2 < nbf.len() && nbf[j2] == bs[j];
                        }
                    }
                    lemma_adjacent_positions(bs, n0, p);
                    assert(cell_of_pos(bs, p) == cell_of_pos(bs, p + 1));
                }
                lemma_adjacent_implies_sorted(
                    self.coloring.elements@,
                    cut_start(nbf, i),
                    cut_end(nbf, n0, i),
                );
            }
            assert forall|j: int|
                0 <= j < self.coloring.bounds@.len() implies #[trigger] self.coloring.bounds@[
            j].depth <= self.depth by {
                if self.coloring.bounds@[j].depth != d0 {
                    let b = self.coloring.bounds@[j];
                    assert(bs.contains(b));
                    let j2 = choose|j2: int| 0 <= j2 < bs.len() && bs[j2] == b;
                }
            }
            assert(self.coloring.wf());
        }
        let ghost beforerebuild = *self;
        self.rebuild_reverse();
        proof {
            if !changed {
                assert(self.coloring.bounds@ =~= bs);
                assert(orig.rev_ok());
                Self::lemma_rev_determined(orig, *self);
            }
            lemma_refine_homogeneity(orig, *self, key@);
        }
        changed
    }

    /// Two consistent reverse indices over the same coloring are equal.
    pub(crate) proof fn lemma_rev_determined(a: ReversibleColoring, b: ReversibleColoring)
        requires
            a.coloring.wf(),
            a.rev_ok(),
            b.rev_ok(),
            b.coloring.elements@ == a.coloring.elements@,
            b.coloring.bounds@ == a.coloring.bounds@,
        ensures
            b.reverse@ == a.reverse@,
    {
        let el = a.coloring.elements@;
        let n = el.len() as int;
        crate::sorting::lemma_vec_len_bound(&a.coloring.elements);
        assert forall|v: int| 0 <= v < n implies a.reverse@[v] == b.reverse@[v] by {
            assert(el.contains(v as usize));
            let p = choose|p: int| 0 <= p < el.len() && el[p] == v as usize;
            assert(a.reverse@[el[p] as int] == a.coloring.cell_of(p));
            assert(b.reverse@[el[p] as int] == b.coloring.cell_of(p));
        }
        assert(b.reverse@ =~= a.reverse@);
    }
}

/// A refinement pass leaves every cell key-constant; and a pass over an
/// already key-constant coloring can add no bound.
proof fn lemma_refine_homogeneity(pre: ReversibleColoring, post: ReversibleColoring, key: Seq<u64>)
    requires
        pre.wf(),
        post.wf(),
        post.n() == pre.n(),
        pre.n() >= 1,
        key.len() == pre.n(),
        forall|j: int|
            0 <= j < pre.coloring.bounds@.len() ==> post.coloring.bounds@.contains(
                #[trigger] pre.coloring.bounds@[j],
            ),
        forall|i: int|
            0 <= i <= pre.coloring.bounds@.len() ==> same_range_multiset(
                pre.coloring.elements@,
                post.coloring.elements@,
                #[trigger] cut_start(pre.coloring.bounds@, i),
                cut_end(pre.coloring.bounds@, pre.n(), i),
            ),
        keyed_cut_pattern(
            pre.coloring.bounds@,
            key,
            post.coloring.elements@,
            post.coloring.bounds@,
            pre.n(),
        ),
    ensures
        key_homogeneous(post, key),
        key_homogeneous(pre, key) ==> post.coloring.bounds@.len() <= pre.coloring.bounds@.len(),
{
    let bs = pre.coloring.bounds@;
    let nbf = post.coloring.bounds@;
    let el0 = pre.coloring.elements@;
    let elf = post.coloring.elements@;
    let n0 = pre.n();
    assert forall|t: int| has_cut_at(bs, t) implies has_cut_at(nbf, t) by {
        let j = choose|j: int| 0 <= j < bs.len() && bs[j].offset == t;
        assert(nbf.contains(bs[j]));
        let j2 = choose|j2: int| 0 <= j2 < nbf.len() && nbf[j2] == bs[j];
        assert(nbf[j2].offset == t);
    }
    assert forall|t: int|
        0 < t < n0 && cell_of_pos(nbf, t - 1) == #[trigger] cell_of_pos(nbf, t) implies key[elf[t
        - 1] as int] == key[elf[t] as int] by {
        if has_cut_at(nbf, t) {
            lemma_cut_splits_cells(nbf, n0, t);
        }
        assert(!has_cut_at(nbf, t));
        assert(!has_cut_at(bs, t));
        lemma_adjacent_positions(bs, n0, t - 1);
        assert(cell_of_pos(bs, t - 1) == cell_of_pos(bs, t));
        assert(has_cut_at(nbf, t) <==> key[elf[t - 1] as int] != key[elf[t] as int]);
    }
    if key_homogeneous(pre, key) {
        assert forall|j: int| 0 <= j < nbf.len() implies bs.contains(#[trigger] nbf[j]) by {
            let o = nbf[j].offset as int;
            assert(0 < o < n0);
            assert(has_cut_at(nbf, o));
            if !has_cut_at(bs, o) {
                lemma_adjacent_positions(bs, n0, o - 1);
                assert(cell_of_pos(bs, o - 1) == cell_of_pos(bs, o));
                let i = cell_of_pos(bs, o);
                lemma_cell_of_pos_range(bs, n0, o);
                lemma_cell_of_pos_range(bs, n0, o - 1);
                let lo = cut_start(bs, i);
                let hi = cut_end(bs, n0, i);
                assert(lo <= o - 1 < hi && lo <= o < hi);
                assert forall|t: int|
                    lo < t < hi implies key[el0[t - 1] as int] == #[trigger] key[el0[t] as int] by {
                    lemma_cell_of_pos_unique(bs, n0, i, t - 1);
                    lemma_cell_of_pos_unique(bs, n0, i, t);
                }
                lemma_const_key(el0, key, lo, hi);
                assert(same_range_multiset(elf, el0, lo, hi));
                crate::sorting::lemma_range_multiset_in_range(elf, el0, lo, hi, o - 1);
                let q1 = choose|q1: int| lo <= q1 < hi && el0[q1] == elf[o - 1];
                crate::sorting::lemma_range_multiset_in_range(elf, el0, lo, hi, o);
                let q2 = choose|q2: int| lo <= q2 < hi && el0[q2] == elf[o];
                assert(key[elf[o - 1] as int] == key[el0[lo] as int]);
                assert(key[elf[o] as int] == key[el0[lo] as int]);
                assert(false);
            }
            let jb = choose|jb: int| 0 <= jb < bs.len() && bs[jb].offset == o;
            assert(nbf.contains(bs[jb]));
            let j2 = choose|j2: int| 0 <= j2 < nbf.len() && nbf[j2] == bs[jb];
            assert(nbf[j2].offset == o);
            assert(j2 == j);
            assert(nbf[j] == bs[jb]);
        }
        lemma_subset_bounds_len(nbf, bs, n0);
    }
}

/// Number of entries of `row` that the reverse index `rev` places in cell
/// `c`.
pub open spec fn count_in_cell(row: Seq<usize>, rev: Seq<usize>, c: int) -> int
    decreases row.len(),
{
    if row.len() == 0 {
        0
    } else {
        count_in_cell(row.drop_last(), rev, c) + if rev[row.last() as int] == c {
            1int
        } else {
            0int
        }
    }
}

/// The coloring is equitable for `neighbors`: any two elements of one cell
/// have equally many neighbors in every cell.
pub open spec fn spec_equitable(rc: ReversibleColoring, neighbors: Seq<Vec<usize>>) -> bool {
    forall|u: int, v: int, c: int|
        0 <= u < rc.n() && 0 <= v < rc.n() && 0 <= c <= rc.coloring.bounds@.len()
            && rc.reverse@[u] == rc.reverse@[v] ==> #[trigger] count_in_cell(
            neighbors[u]@,
            rc.reverse@,
            c,
        ) == #[trigger] count_in_cell(neighbors[v]@, rc.reverse@, c)
}

/// The two reversible colorings hold the same partition, reverse index and
/// depth.
pub open spec fn same_state(a: ReversibleColoring, b: ReversibleColoring) -> bool {
    &&& a.coloring.elements@ == b.coloring.elements@
    &&& a.coloring.bounds@ == b.coloring.bounds@
    &&& a.reverse@ == b.reverse@
    &&& a.depth == b.depth
}

/// The per-element neighbor counts into cell `c`, as a key vector.
pub open spec fn count_key(neighbors: Seq<Vec<usize>>, rev: Seq<usize>, n: int, c: int) -> Seq<
    u64,
> {
    Seq::new(n as nat, |u: int| count_in_cell(neighbors[u]@, rev, c) as u64)
}

/// What one refinement pass by `key` guarantees. This pins `post`
/// completely: the cut pattern fixes the bounds, and the per-cell multisets
/// together with well-formedness fix the elements and the reverse index.
pub open spec fn refined_by(pre: ReversibleColoring, key: Seq<u64>, post: ReversibleColoring) -> bool {
    &&& post.wf()
    &&& post.n() == pre.n()
    &&& post.depth == pre.depth
    &&& post.coloring.bounds@.len() >= pre.coloring.bounds@.len()
    &&& (forall|j: int|
        0 <= j < pre.coloring.bounds@.len() ==> post.coloring.bounds@.contains(
            #[trigger] pre.coloring.bounds@[j],
        ))
    &&& (forall|j: int|
        0 <= j < post.coloring.bounds@.len() ==> (#[trigger] post.coloring.bounds@[j].depth
            == pre.depth || pre.coloring.bounds@.contains(post.coloring.bounds@[j])))
    &&& (forall|i: int|
        0 <= i <= pre.coloring.bounds@.len() ==> same_range_multiset(
            pre.coloring.elements@,
            post.coloring.elements@,
            #[trigger] cut_start(pre.coloring.bounds@, i),
            cut_end(pre.coloring.bounds@, pre.n(), i),
        ))
    &&& keyed_cut_pattern(
        pre.coloring.bounds@,
        key,
        post.coloring.elements@,
        post.coloring.bounds@,
        pre.n(),
    )
}

/// One step of the worklist phase of equitable refinement: the top of the
/// stack is popped, the coloring refined by the counts into that cell, and
/// the worklist updated by the refinement's own rule.
pub open spec fn equitable_step(
    neighbors: Seq<Vec<usize>>,
    rc: ReversibleColoring,
    wl: Seq<usize>,
    rc2: ReversibleColoring,
    wl2: Seq<usize>,
) -> bool {
    &&& wl.len() > 0
    &&& !rc.coloring.spec_is_discrete()
    &&& refined_by(rc, count_key(neighbors, rc.reverse@, rc.n(), wl.last() as int), rc2)
    &&& wl2 == wl_pass(
        rc.coloring.bounds@,
        rc2.coloring.bounds@,
        rc.n(),
        wl.drop_last(),
        wl.len() - 1,
        rc.coloring.bounds@.len() as int + 1,
    )
}

/// The worklist phase of equitable refinement: starting from the stack of
/// all cell indices, cells are popped and refined by their neighbor counts
/// until the stack empties or the coloring is discrete.
pub open spec fn worklist_phase(
    neighbors: Seq<Vec<usize>>,
    rc0: ReversibleColoring,
    rcf: ReversibleColoring,
) -> bool {
    exists|states: Seq<ReversibleColoring>, stacks: Seq<Seq<usize>>|
        #![trigger states.len(), stacks.len()]
        {
            &&& states.len() >= 1
            &&& stacks.len() == states.len()
            &&& states[0] == rc0
            &&& stacks[0] == Seq::new(
                (rc0.coloring.bounds@.len() + 1) as nat,
                |i: int| i as usize,
            )
            &&& states.last() == rcf
            &&& (stacks.last().len() == 0 || rcf.coloring.spec_is_discrete())
            &&& forall|t: int|
                0 <= t < states.len() - 1 ==> equitable_step(
                    neighbors,
                    #[trigger] states[t],
                    stacks[t],
                    states[t + 1],
                    stacks[t + 1],
                )
        }
}

/// One pass of the closing sweep that found something left to split: `c` is
/// the least cell index whose counts still refine the coloring, and the
/// coloring is refined by those counts.
pub open spec fn sweep_step(
    neighbors: Seq<Vec<usize>>,
    rc: ReversibleColoring,
    rc2: ReversibleColoring,
) -> bool {
    exists|c: int|
        0 <= c <= rc.coloring.bounds@.len() && (forall|c2: int|
            0 <= c2 < c ==> key_homogeneous(
                rc,
                count_key(neighbors, rc.reverse@, rc.n(), c2),
            )) && !key_homogeneous(rc, #[trigger] count_key(neighbors, rc.reverse@, rc.n(), c))
            && refined_by(rc, count_key(neighbors, rc.reverse@, rc.n(), c), rc2)
}

/// The closing sweep: passes refine by the counts into the least splitting
/// cell until every cell's counts are constant on every cell. The end state
/// holds the last pass's partition.
pub open spec fn sweep_phase(
    neighbors: Seq<Vec<usize>>,
    rc0: ReversibleColoring,
    rcf: ReversibleColoring,
) -> bool {
    exists|states: Seq<ReversibleColoring>|
        #![trigger states.len()]
        {
            &&& states.len() >= 1
            &&& states[0] == rc0
            &&& same_state(rcf, states.last())
            &&& forall|t: int|
                0 <= t < states.len() - 1 ==> sweep_step(
                    neighbors,
                    #[trigger] states[t],
                    states[t + 1],
                )
            &&& forall|c: int|
                0 <= c <= rcf.coloring.bounds@.len() ==> key_homogeneous(
                    rcf,
                    #[trigger] count_key(neighbors, rcf.reverse@, rcf.n(), c),
                )
        }
}

/// Equitability depends only on the partition state, so it carries over
/// between colorings in the same state.
proof fn lemma_equitable_same_state(
    a: ReversibleColoring,
    b: ReversibleColoring,
    neighbors: Seq<Vec<usize>>,
)
    requires
        spec_equitable(a, neighbors),
        same_state(b, a),
    ensures
        spec_equitable(b, neighbors),
{
    assert forall|u: int, v: int, c: int|
        0 <= u < b.n() && 0 <= v < b.n() && 0 <= c <= b.coloring.bounds@.len() && b.reverse@[u]
            == b.reverse@[v] implies #[trigger] count_in_cell(neighbors[u]@, b.reverse@, c)
        == #[trigger] count_in_cell(neighbors[v]@, b.reverse@, c) by {
        assert(count_in_cell(neighbors[u]@, a.reverse@, c) == count_in_cell(
            neighbors[v]@,
            a.reverse@,
            c,
        ));
    }
}

/// When the coloring is key-constant on every cell under the per-element
/// neighbor counts into cell `c`, any two elements of one cell have the same
/// count.
proof fn lemma_counts_equal_of_homogeneous(
    rc: ReversibleColoring,
    map: Seq<u64>,
    neighbors: Seq<Vec<usize>>,
    c: int,
)
    requires
        rc.wf(),
        map.len() == rc.n(),
        key_homogeneous(rc, map),
        forall|u: int|
            0 <= u < rc.n() ==> #[trigger] map[u] as int == count_in_cell(
                neighbors[u]@,
                rc.reverse@,
                c,
            ),
    ensures
        forall|u: int, v: int|
            0 <= u < rc.n() && 0 <= v < rc.n() && rc.reverse@[u] == rc.reverse@[v]
                ==> #[trigger] count_in_cell(neighbors[u]@, rc.reverse@, c)
                == #[trigger] count_in_cell(neighbors[v]@, rc.reverse@, c),
{
    let bs = rc.coloring.bounds@;
    let el = rc.coloring.elements@;
    let n0 = rc.n();
    crate::sorting::lemma_vec_len_bound(&rc.coloring.elements);
    assert forall|u: int, v: int|
        0 <= u < n0 && 0 <= v < n0 && rc.reverse@[u] == rc.reverse@[v]
        implies #[trigger] count_in_cell(neighbors[u]@, rc.reverse@, c) == #[trigger] count_in_cell(
        neighbors[v]@,
        rc.reverse@,
        c,
    ) by {
        rc.lemma_rev_of_element(u as usize);
        rc.lemma_rev_of_element(v as usize);
        let i = rc.rev_at(u as usize);
        let pu = rc.coloring.position_of(u as usize);
        let pv = rc.coloring.position_of(v as usize);
        let lo = rc.coloring.cell_start_spec(i);
        let hi = rc.coloring.cell_end_spec(i);
        lemma_cell_range(bs, n0, i);
        assert forall|t: int|
            lo < t < hi implies map[el[t - 1] as int] == #[trigger] map[el[t] as int] by {
            lemma_cell_of_pos_unique(bs, n0, i, t - 1);
            lemma_cell_of_pos_unique(bs, n0, i, t);
        }
        lemma_const_key(el, map, lo, hi);
        assert(map[el[pu] as int] == map[el[lo] as int]);
        assert(map[el[pv] as int] == map[el[lo] as int]);
        assert(el[pu] == u as usize && el[pv] == v as usize);
    }
}

/// On an equitable coloring, the per-element neighbor counts into any cell
/// are constant on every cell.
proof fn lemma_homogeneous_of_equitable(
    rc: ReversibleColoring,
    map: Seq<u64>,
    neighbors: Seq<Vec<usize>>,
    c: int,
)
    requires
        rc.wf(),
        map.len() == rc.n(),
        spec_equitable(rc, neighbors),
        0 <= c <= rc.coloring.bounds@.len(),
        forall|u: int|
            0 <= u < rc.n() ==> #[trigger] map[u] as int == count_in_cell(
                neighbors[u]@,
                rc.reverse@,
                c,
            ),
    ensures
        key_homogeneous(rc, map),
{
    let bs = rc.coloring.bounds@;
    let el = rc.coloring.elements@;
    let n0 = rc.n();
    crate::sorting::lemma_vec_len_bound(&rc.coloring.elements);
    assert forall|t: int|
        0 < t < n0 && cell_of_pos(bs, t - 1) == #[trigger] cell_of_pos(bs, t) implies map[el[t
        - 1] as int] == map[el[t] as int] by {
        assert(rc.reverse@[el[t - 1] as int] == rc.coloring.cell_of(t - 1));
        assert(rc.reverse@[el[t] as int] == rc.coloring.cell_of(t));
        assert(el[t - 1] < n0 && el[t] < n0);
        lemma_cell_of_pos_range(bs, n0, t);
        assert(count_in_cell(neighbors[el[t - 1] as int]@, rc.reverse@, c) == count_in_cell(
            neighbors[el[t] as int]@,
            rc.reverse@,
            c,
        ));
    }
}

/// Equal multisets on every cell extend to equal multisets on any range
/// delimited by existing cuts.
proof fn lemma_multiset_union_cells(
    el1: Seq<usize>,
    el2: Seq<usize>,
    bsf: Seq<Bound>,
    n: int,
    s: int,
    e: int,
)
    requires
        cuts_ok(bsf, n),
        el1.len() == n,
        el2.len() == n,
        0 <= s <= e <= n,
        s == 0 || has_cut_at(bsf, s),
        e == n || has_cut_at(bsf, e),
        forall|i: int|
            0 <= i <= bsf.len() ==> same_range_multiset(
                el1,
                el2,
                #[trigger] cut_start(bsf, i),
                cut_end(bsf, n, i),
            ),
    ensures
        same_range_multiset(el1, el2, s, e),
    decreases e - s,
{
    if s == e {
        assert(el1.subrange(s, e) =~= el2.subrange(s, e));
    } else {
        let i = cell_of_pos(bsf, s);
        lemma_cell_of_pos_range(bsf, n, s);
        let m = cut_end(bsf, n, i);
        assert(cut_start(bsf, i) == s) by {
            if cut_start(bsf, i) < s {
                lemma_cut_splits_cells(bsf, n, s);
                lemma_cell_of_pos_unique(bsf, n, i, s - 1);
            }
        }
        assert(m <= e) by {
            if e < m {
                lemma_cut_splits_cells(bsf, n, e);
                lemma_cell_of_pos_unique(bsf, n, i, e - 1);
                lemma_cell_of_pos_unique(bsf, n, i, e);
            }
        }
        assert(same_range_multiset(el1, el2, s, m));
        if m == e {
            assert(el1.subrange(s, e) == el1.subrange(s, m));
        } else {
            assert(m < e <= n);
            assert(has_cut_at(bsf, m)) by {
                assert(i < bsf.len());
                assert(bsf[i].offset == m);
            }
            lemma_multiset_union_cells(el1, el2, bsf, n, m, e);
            assert(el1.subrange(s, e) =~= el1.subrange(s, m) + el1.subrange(m, e));
            assert(el2.subrange(s, e) =~= el2.subrange(s, m) + el2.subrange(m, e));
            vstd::seq_lib::lemma_multiset_commutative(el1.subrange(s, m), el1.subrange(m, e));
            vstd::seq_lib::lemma_multiset_commutative(el2.subrange(s, m), el2.subrange(m, e));
        }
    }
}

impl ReversibleColoring {
    /// Refines every cell by `key` without tracking the new cell indices:
    /// each cell is independently split into its maximal runs of equal key
    /// value, the runs ordered by key and `<ᵤ`-sorted inside. Returns `true`
    /// exactly when the number of cells grew; a cell on which `key` is
    /// constant is left as it is, and a second pass with the same key finds
    /// every cell key-constant and changes nothing.
    pub fn refine(&mut self, key: &Vec<u64>) -> (r: bool)
        requires
            old(self).wf(),
            key@.len() == old(self).n(),
            old(self).n() >= 1,
        ensures
            final(self).wf(),
            final(self).n() == old(self).n(),
            final(self).depth == old(self).depth,
            final(self).coloring.bounds@.len() >= old(self).coloring.bounds@.len(),
            r <==> final(self).coloring.bounds@.len() > old(self).coloring.bounds@.len(),
            !r ==> final(self).coloring.elements@ == old(self).coloring.elements@ && final(self).coloring.bounds@ == old(self).coloring.bounds@ && final(self).reverse@ == old(
                self,
            ).reverse@,
            forall|j: int|
                0 <= j < old(self).coloring.bounds@.len() ==> final(self).coloring.bounds@.contains(
                    #[trigger] old(self).coloring.bounds@[j],
                ),
            forall|j: int|
                0 <= j < final(self).coloring.bounds@.len() ==> (#[trigger] final(self).coloring.bounds@[j].depth == old(self).depth || old(
                    self,
                ).coloring.bounds@.contains(final(self).coloring.bounds@[j])),
            forall|i: int|
                0 <= i <= old(self).coloring.bounds@.len() ==> same_range_multiset(
                    old(self).coloring.elements@,
                    final(self).coloring.elements@,
                    #[trigger] cut_start(old(self).coloring.bounds@, i),
                    cut_end(old(self).coloring.bounds@, old(self).n(), i),
                ),
            keyed_cut_pattern(
                old(self).coloring.bounds@,
                key@,
                final(self).coloring.elements@,
                final(self).coloring.bounds@,
                old(self).n(),
            ),
            key_homogeneous(*final(self), key@),
            key_homogeneous(*old(self), key@) ==> !r,
    {
        let mut scratch: Vec<usize> = Vec::new();
        self.refine_with(&mut scratch, key)
    }

    /// Fills `map[u]` with the number of neighbors of `u` lying in cell `c`.
    fn count_neighbors_into(&self, map: &mut Vec<u64>, neighbors: &Vec<Vec<usize>>, c: usize)
        requires
            self.wf(),
            neighbors@.len() == self.n(),
            forall|u: int, i: int|
                0 <= u < self.n() && 0 <= i < neighbors@[u]@.len() ==> #[trigger] neighbors@[u]@[i]
                    < self.n(),
            old(map)@.len() == self.n(),
        ensures
            final(map)@.len() == old(map)@.len(),
            forall|u: int|
                0 <= u < self.n() ==> #[trigger] final(map)@[u] as int == count_in_cell(
                    neighbors@[u]@,
                    self.reverse@,
                    c as int,
                ),
    {
        let ghost n0 = self.n();
        let n = self.coloring.elements.len();
        let mut u: usize = 0;
        while u < n
            invariant
                u <= n,
                n == n0,
                self.wf(),
                self.n() == n0,
                neighbors@.len() == n0,
                forall|u2: int, i2: int|
                    0 <= u2 < n0 && 0 <= i2 < neighbors@[u2]@.len() ==> #[trigger] neighbors@[u2]@[
                        i2
                    ] < n0,
                map@.len() == n0,
                forall|u2: int|
                    0 <= u2 < u ==> #[trigger] map@[u2] as int == count_in_cell(
                        neighbors@[u2]@,
                        self.reverse@,
                        c as int,
                    ),
            decreases n - u,
        {
            let row = &neighbors[u];
            let m = row.len();
            let mut count: u64 = 0;
            let mut t: usize = 0;
            while t < m
                invariant
                    t <= m,
                    m == row@.len(),
                    count <= t,
                    self.wf(),
                    self.n() == n0,
                    forall|i2: int| 0 <= i2 < row@.len() ==> #[trigger] row@[i2] < n0,
                    count as int == count_in_cell(row@.take(t as int), self.reverse@, c as int),
                decreases m - t,
            {
                let v = row[t];
                let cv = self.reverse[v];
                proof {
                    assert(row@.take(t + 1).drop_last() =~= row@.take(t as int));
                    assert(row@.take(t + 1).last() == row@[t as int]);
                }
                if cv == c {
                    count = count + 1;
                }
                t = t + 1;
            }
            proof {
                assert(row@.take(m as int) =~= row@);
            }
            map.set(u, count);
            u = u + 1;
        }
    }

    /// Makes the coloring equitable with respect to the adjacency lists in
    /// `neighbors`: repeatedly pops a cell index from `stack`, counts for
    /// every element its neighbors in that cell, and refines by those counts,
    /// until the worklist is exhausted or the coloring is discrete; a closing
    /// sweep then refines by the counts into every cell in turn until none
    /// splits further. On return any two elements of one cell have equally many
    /// neighbors in every cell, cells only split (each old cell keeps its
    /// members), and an already equitable coloring is left exactly as it was.
    /// The stack is empty on return; `map` is the counting scratch space.
    pub fn make_equitable_with(
        &mut self,
        stack: &mut Vec<usize>,
        map: &mut Vec<u64>,
        neighbors: &Vec<Vec<usize>>,
    )
        requires
            old(self).wf(),
            old(self).n() >= 1,
            neighbors@.len() == old(self).n(),
            forall|u: int, i: int|
                0 <= u < old(self).n() && 0 <= i < neighbors@[u]@.len()
                    ==> #[trigger] neighbors@[u]@[i] < old(self).n(),
            old(map)@.len() == old(self).n(),
        ensures
            final(self).wf(),
            final(self).n() == old(self).n(),
            final(self).depth == old(self).depth,
            final(self).coloring.bounds@.len() >= old(self).coloring.bounds@.len(),
            final(stack)@.len() == 0,
            final(map)@.len() == old(map)@.len(),
            forall|j: int|
                0 <= j < old(self).coloring.bounds@.len() ==> final(self).coloring.bounds@.contains(
                    #[trigger] old(self).coloring.bounds@[j],
                ),
            forall|j: int|
                0 <= j < final(self).coloring.bounds@.len() ==> (#[trigger] final(self).coloring.bounds@[j].depth == old(self).depth || old(
                    self,
                ).coloring.bounds@.contains(final(self).coloring.bounds@[j])),
            forall|i: int|
                0 <= i <= old(self).coloring.bounds@.len() ==> same_range_multiset(
                    old(self).coloring.elements@,
                    final(self).coloring.elements@,
                    #[trigger] cut_start(old(self).coloring.bounds@, i),
                    cut_end(old(self).coloring.bounds@, old(self).n(), i),
                ),
            spec_equitable(*final(self), neighbors@),
            spec_equitable(*old(self), neighbors@) ==> same_state(*final(self), *old(self)),
            exists|mid: ReversibleColoring|
                #[trigger] worklist_phase(neighbors@, *old(self), mid) && sweep_phase(
                    neighbors@,
                    mid,
                    *final(self),
                ),
    {
        let ghost bs = old(self).coloring.bounds@;
        let ghost el0 = old(self).coloring.elements@;
        let ghost n0 = old(self).n();
        let ghost d0 = old(self).depth;
        let n = self.coloring.elements.len();
        stack.clear();
        let nc = self.len();
        let mut i: usize = 0;
        while i < nc
            invariant
                i <= nc,
                nc == old(self).coloring.bounds@.len() + 1,
                *self == *old(self),
                stack@.len() == i,
                forall|t: int| 0 <= t < stack@.len() ==> #[trigger] stack@[t] < nc,
                forall|t: int| 0 <= t < stack@.len() ==> #[trigger] stack@[t] == t as usize,
            decreases nc - i,
        {
            stack.push(i);
            i = i + 1;
        }
        let ghost mut states: Seq<ReversibleColoring> = seq![*self];
        let ghost mut stacks: Seq<Seq<usize>> = seq![stack@];
        proof {
            lemma_num_cuts(self.coloring.bounds@, self.n());
            assert(stack@ =~= Seq::new((bs.len() + 1) as nat, |t: int| t as usize));
        }
        while stack.len() > 0 && !self.is_discrete()
            invariant
                self.wf(),
                self.n() == n0,
                self.depth == d0,
                n == n0,
                n0 >= 1,
                bs == old(self).coloring.bounds@,
                el0 == old(self).coloring.elements@,
                cuts_ok(bs, n0),
                el0.len() == n0,
                neighbors@.len() == n0,
                forall|u: int, i2: int|
                    0 <= u < n0 && 0 <= i2 < neighbors@[u]@.len() ==> #[trigger] neighbors@[u]@[
                        i2
                    ] < n0,
                map@.len() == n0,
                self.coloring.bounds@.len() <= n0 - 1,
                self.coloring.bounds@.len() >= bs.len(),
                forall|j: int|
                    0 <= j < bs.len() ==> self.coloring.bounds@.contains(#[trigger] bs[j]),
                forall|j: int|
                    0 <= j < self.coloring.bounds@.len() ==> (#[trigger] self.coloring.bounds@[
                    j].depth == d0 || bs.contains(self.coloring.bounds@[j])),
                forall|i2: int|
                    0 <= i2 <= bs.len() ==> same_range_multiset(
                        el0,
                        self.coloring.elements@,
                        #[trigger] cut_start(bs, i2),
                        cut_end(bs, n0, i2),
                    ),
                spec_equitable(*old(self), neighbors@) ==> (same_state(*self, *old(self)) && forall|
                    t: int,
                |
                    0 <= t < stack@.len() ==> #[trigger] stack@[t] <= bs.len()),
                states.len() >= 1,
                stacks.len() == states.len(),
                states[0] == *old(self),
                stacks[0] == Seq::new((bs.len() + 1) as nat, |t: int| t as usize),
                states.last() == *self,
                stacks.last() == stack@,
                forall|t: int|
                    0 <= t < states.len() - 1 ==> equitable_step(
                        neighbors@,
                        #[trigger] states[t],
                        stacks[t],
                        states[t + 1],
                        stacks[t + 1],
                    ),
            decreases n0 - 1 - self.coloring.bounds@.len(), stack@.len(),
        {
            let ghost prev = *self;
            let ghost prev_stack = stack@;
            let c = stack.pop().unwrap();
            // Count, for every element, its neighbors in cell `c`.
            self.count_neighbors_into(map, neighbors, c);
            // Refine by the counts; new cells land on the stack.
            let ghost prev_bounds = self.coloring.bounds@;
            proof {
                if spec_equitable(*old(self), neighbors@) {
                    assert(c == prev_stack[prev_stack.len() - 1]);
                    assert(c <= bs.len());
                    lemma_equitable_same_state(*old(self), *self, neighbors@);
                    lemma_homogeneous_of_equitable(*self, map@, neighbors@, c as int);
                }
            }
            let changed = self.refine_with(stack, map);
            proof {
                lemma_num_cuts(self.coloring.bounds@, self.n());
                assert forall|j: int|
                    0 <= j < bs.len() implies self.coloring.bounds@.contains(
                    #[trigger] bs[j],
                ) by {
                    assert(prev_bounds.contains(bs[j]));
                    let j2 = choose|j2: int| 0 <= j2 < prev_bounds.len() && prev_bounds[j2] == bs[j];
                    assert(self.coloring.bounds@.contains(prev_bounds[j2]));
                }
                assert forall|j: int|
                    0 <= j < self.coloring.bounds@.len() implies (
                #[trigger] self.coloring.bounds@[j].depth == d0 || bs.contains(
                    self.coloring.bounds@[j],
                )) by {
                    let b = self.coloring.bounds@[j];
                    if b.depth != d0 {
                        assert(prev_bounds.contains(b));
                        let j2 = choose|j2: int| 0 <= j2 < prev_bounds.len() && prev_bounds[j2] == b;
                        assert(prev_bounds[j2].depth == d0 || bs.contains(prev_bounds[j2]));
                    }
                }
                assert forall|i2: int|
                    0 <= i2 <= bs.len() implies same_range_multiset(
                    el0,
                    self.coloring.elements@,
                    #[trigger] cut_start(bs, i2),
                    cut_end(bs, n0, i2),
                ) by {
                    let s = cut_start(bs, i2);
                    let e = cut_end(bs, n0, i2);
                    lemma_cell_range(bs, n0, i2);
                    assert(s == 0 || has_cut_at(prev_bounds, s)) by {
                        if i2 > 0 {
                            assert(prev_bounds.contains(bs[i2 - 1]));
                            let jj = choose|jj: int|
                                0 <= jj < prev_bounds.len() && prev_bounds[jj] == bs[i2 - 1];
                            assert(prev_bounds[jj].offset == s);
                        }
                    }
                    assert(e == n0 || has_cut_at(prev_bounds, e)) by {
                        if i2 < bs.len() {
                            assert(prev_bounds.contains(bs[i2]));
                            let jj = choose|jj: int|
                                0 <= jj < prev_bounds.len() && prev_bounds[jj] == bs[i2];
                            assert(prev_bounds[jj].offset == e);
                        }
                    }
                    lemma_multiset_union_cells(
                        prev.coloring.elements@,
                        self.coloring.elements@,
                        prev_bounds,
                        n0,
                        s,
                        e,
                    );
                    assert(el0.subrange(s, e).to_multiset() == prev.coloring.elements@.subrange(
                        s,
                        e,
                    ).to_multiset());
                }
                // Record the step for the run statement.
                assert(map@ =~= count_key(neighbors@, prev.reverse@, n0, c as int)) by {
                    assert forall|u: int| 0 <= u < n0 implies map@[u] == count_key(
                        neighbors@,
                        prev.reverse@,
                        n0,
                        c as int,
                    )[u] by {
                        assert(map@[u] as int == count_in_cell(
                            neighbors@[u]@,
                            prev.reverse@,
                            c as int,
                        ));
                    }
                }
                assert(equitable_step(neighbors@, prev, prev_stack, *self, stack@)) by {
                    assert(c == prev_stack.last());
                    assert(prev_stack.drop_last() =~= prev_stack.subrange(
                        0,
                        prev_stack.len() - 1,
                    ));
                    assert(refined_by(
                        prev,
                        count_key(neighbors@, prev.reverse@, prev.n(), prev_stack.last() as int),
                        *self,
                    ));
                    assert(stack@ == wl_pass(
                        prev.coloring.bounds@,
                        self.coloring.bounds@,
                        prev.n(),
                        prev_stack.drop_last(),
                        prev_stack.len() - 1,
                        prev.coloring.bounds@.len() as int + 1,
                    ));
                }
                let pstates = states;
                let pstacks = stacks;
                states = states.push(*self);
                stacks = stacks.push(stack@);
                assert forall|t: int|
                    0 <= t < states.len() - 1 implies equitable_step(
                    neighbors@,
                    #[trigger] states[t],
                    stacks[t],
                    states[t + 1],
                    stacks[t + 1],
                ) by {
                    if t < pstates.len() - 1 {
                        assert(equitable_step(
                            neighbors@,
                            pstates[t],
                            pstacks[t],
                            pstates[t + 1],
                            pstacks[t + 1],
                        ));
                    } else {
                        assert(t == pstates.len() - 1);
                        assert(states[t] == prev && stacks[t] == prev_stack);
                        assert(states[t + 1] == *self && stacks[t + 1] == stack@);
                    }
                }
            }
        }
        let ghost wmid = *self;
        proof {
            assert(worklist_phase(neighbors@, *old(self), wmid)) by {
                assert(states.len() >= 1 && stacks.len() == states.len() && states[0] == *old(self)
                    && stacks[0] == Seq::new((bs.len() + 1) as nat, |t: int| t as usize)
                    && states.last() == wmid && (stacks.last().len() == 0
                    || wmid.coloring.spec_is_discrete()) && (forall|t: int|
                    0 <= t < states.len() - 1 ==> equitable_step(
                        neighbors@,
                        #[trigger] states[t],
                        stacks[t],
                        states[t + 1],
                        stacks[t + 1],
                    )));
            }
        }
        let ghost mut sstates: Seq<ReversibleColoring> = seq![*self];
        // Closing sweep: refine by the counts into every cell in turn; a
        // split re-runs the sweep from the start, a clean sweep witnesses
        // equitability. The sweep carries weight: the worklist discipline
        // leaves the entry of a cell that shifted without splitting naming
        // its old index, so the loop above alone does not guarantee an
        // equitable end state.
        loop
            invariant
                self.wf(),
                self.n() == n0,
                self.depth == d0,
                n == n0,
                n0 >= 1,
                bs == old(self).coloring.bounds@,
                el0 == old(self).coloring.elements@,
                cuts_ok(bs, n0),
                el0.len() == n0,
                neighbors@.len() == n0,
                forall|u: int, i2: int|
                    0 <= u < n0 && 0 <= i2 < neighbors@[u]@.len() ==> #[trigger] neighbors@[u]@[
                        i2
                    ] < n0,
                map@.len() == n0,
                self.coloring.bounds@.len() <= n0 - 1,
                self.coloring.bounds@.len() >= bs.len(),
                forall|j: int|
                    0 <= j < bs.len() ==> self.coloring.bounds@.contains(#[trigger] bs[j]),
                forall|j: int|
                    0 <= j < self.coloring.bounds@.len() ==> (#[trigger] self.coloring.bounds@[
                    j].depth == d0 || bs.contains(self.coloring.bounds@[j])),
                forall|i2: int|
                    0 <= i2 <= bs.len() ==> same_range_multiset(
                        el0,
                        self.coloring.elements@,
                        #[trigger] cut_start(bs, i2),
                        cut_end(bs, n0, i2),
                    ),
                spec_equitable(*old(self), neighbors@) ==> same_state(*self, *old(self)),
                sstates.len() >= 1,
                sstates[0] == wmid,
                same_state(*self, sstates.last()),
                forall|t: int|
                    0 <= t < sstates.len() - 1 ==> sweep_step(
                        neighbors@,
                        #[trigger] sstates[t],
                        sstates[t + 1],
                    ),
            ensures
                self.wf(),
                self.n() == n0,
                self.depth == d0,
                map@.len() == n0,
                self.coloring.bounds@.len() >= bs.len(),
                forall|j: int|
                    0 <= j < bs.len() ==> self.coloring.bounds@.contains(#[trigger] bs[j]),
                forall|j: int|
                    0 <= j < self.coloring.bounds@.len() ==> (#[trigger] self.coloring.bounds@[
                    j].depth == d0 || bs.contains(self.coloring.bounds@[j])),
                forall|i2: int|
                    0 <= i2 <= bs.len() ==> same_range_multiset(
                        el0,
                        self.coloring.elements@,
                        #[trigger] cut_start(bs, i2),
                        cut_end(bs, n0, i2),
                    ),
                spec_equitable(*old(self), neighbors@) ==> same_state(*self, *old(self)),
                spec_equitable(*self, neighbors@),
                sstates.len() >= 1,
                sstates[0] == wmid,
                same_state(*self, sstates.last()),
                forall|t: int|
                    0 <= t < sstates.len() - 1 ==> sweep_step(
                        neighbors@,
                        #[trigger] sstates[t],
                        sstates[t + 1],
                    ),
                forall|c2: int|
                    0 <= c2 <= self.coloring.bounds@.len() ==> key_homogeneous(
                        *self,
                        #[trigger] count_key(neighbors@, self.reverse@, n0, c2),
                    ),
            decreases n0 - 1 - self.coloring.bounds@.len(),
        {
            let ghost pass0 = *self;
            let nc2 = self.coloring.bounds.len() + 1;
            let mut c: usize = 0;
            let mut split = false;
            let ghost mut gc: int = 0;
            while c < nc2 && !split
                invariant
                    c <= nc2,
                    n == n0,
                    n0 >= 1,
                    cuts_ok(bs, n0),
                    el0.len() == n0,
                    neighbors@.len() == n0,
                    forall|u: int, i2: int|
                        0 <= u < n0 && 0 <= i2 < neighbors@[u]@.len() ==> #[trigger] neighbors@[u]@[
                            i2
                        ] < n0,
                    map@.len() == n0,
                    self.wf(),
                    self.n() == n0,
                    self.depth == d0,
                    pass0.wf(),
                    pass0.n() == n0,
                    nc2 == pass0.coloring.bounds@.len() + 1,
                    nc2 <= n0,
                    self.coloring.bounds@.len() <= n0 - 1,
                    self.coloring.bounds@.len() >= bs.len(),
                    forall|j: int|
                        0 <= j < bs.len() ==> self.coloring.bounds@.contains(#[trigger] bs[j]),
                    forall|j: int|
                        0 <= j < self.coloring.bounds@.len() ==> (#[trigger] self.coloring.bounds@[
                        j].depth == d0 || bs.contains(self.coloring.bounds@[j])),
                    forall|i2: int|
                        0 <= i2 <= bs.len() ==> same_range_multiset(
                            el0,
                            self.coloring.elements@,
                            #[trigger] cut_start(bs, i2),
                            cut_end(bs, n0, i2),
                        ),
                    !split ==> same_state(*self, pass0),
                    !split ==> (forall|c2: int, u: int, v: int|
                        0 <= c2 < c && 0 <= u < n0 && 0 <= v < n0 && self.reverse@[u]
                            == self.reverse@[v] ==> #[trigger] count_in_cell(
                            neighbors@[u]@,
                            self.reverse@,
                            c2,
                        ) == #[trigger] count_in_cell(neighbors@[v]@, self.reverse@, c2)),
                    !split ==> (forall|c2: int|
                        0 <= c2 < c ==> key_homogeneous(
                            *self,
                            #[trigger] count_key(neighbors@, self.reverse@, n0, c2),
                        )),
                    split ==> self.coloring.bounds@.len() > pass0.coloring.bounds@.len(),
                    split ==> (0 <= gc <= pass0.coloring.bounds@.len() && (forall|c2: int|
                        0 <= c2 < gc ==> key_homogeneous(
                            pass0,
                            #[trigger] count_key(neighbors@, pass0.reverse@, n0, c2),
                        )) && !key_homogeneous(
                        pass0,
                        count_key(neighbors@, pass0.reverse@, n0, gc),
                    ) && refined_by(pass0, count_key(neighbors@, pass0.reverse@, n0, gc), *self)),
                    spec_equitable(*old(self), neighbors@) ==> (same_state(*self, *old(self))
                        && !split),
                decreases nc2 - c,
            {
                self.count_neighbors_into(map, neighbors, c);
                let ghost prev = *self;
                proof {
                    if spec_equitable(*old(self), neighbors@) {
                        assert(c <= self.coloring.bounds@.len());
                        lemma_equitable_same_state(*old(self), *self, neighbors@);
                        lemma_homogeneous_of_equitable(*self, map@, neighbors@, c as int);
                    }
                }
                let ch = self.refine(map);
                proof {
                    lemma_num_cuts(self.coloring.bounds@, self.n());
                    assert(map@ =~= count_key(neighbors@, prev.reverse@, n0, c as int)) by {
                        assert forall|u: int| 0 <= u < n0 implies map@[u] == count_key(
                            neighbors@,
                            prev.reverse@,
                            n0,
                            c as int,
                        )[u] by {
                            assert(map@[u] as int == count_in_cell(
                                neighbors@[u]@,
                                prev.reverse@,
                                c as int,
                            ));
                        }
                    }
                    if !ch {
                        lemma_counts_equal_of_homogeneous(*self, map@, neighbors@, c as int);
                        assert(key_homogeneous(
                            *self,
                            count_key(neighbors@, self.reverse@, n0, c as int),
                        ));
                    } else {
                        gc = c as int;
                        assert(same_state(prev, pass0));
                        assert(!key_homogeneous(prev, map@));
                        assert(!key_homogeneous(
                            pass0,
                            count_key(neighbors@, pass0.reverse@, n0, gc),
                        )) by {
                            assert(pass0.reverse@ == prev.reverse@);
                            assert(pass0.coloring.bounds@ == prev.coloring.bounds@);
                            assert(pass0.coloring.elements@ == prev.coloring.elements@);
                        }
                        assert(refined_by(
                            pass0,
                            count_key(neighbors@, pass0.reverse@, n0, gc),
                            *self,
                        )) by {
                            assert(refined_by(prev, map@, *self));
                        }
                        assert forall|c2: int|
                            0 <= c2 < gc implies key_homogeneous(
                            pass0,
                            #[trigger] count_key(neighbors@, pass0.reverse@, n0, c2),
                        ) by {
                            assert(key_homogeneous(
                                prev,
                                count_key(neighbors@, prev.reverse@, n0, c2),
                            ));
                        }
                        let prev_bounds = prev.coloring.bounds@;
                        assert forall|j: int|
                            0 <= j < bs.len() implies self.coloring.bounds@.contains(
                            #[trigger] bs[j],
                        ) by {
                            assert(prev_bounds.contains(bs[j]));
                            let j2 = choose|j2: int|
                                0 <= j2 < prev_bounds.len() && prev_bounds[j2] == bs[j];
                            assert(self.coloring.bounds@.contains(prev_bounds[j2]));
                        }
                        assert forall|j: int|
                            0 <= j < self.coloring.bounds@.len() implies (
                        #[trigger] self.coloring.bounds@[j].depth == d0 || bs.contains(
                            self.coloring.bounds@[j],
                        )) by {
                            let b = self.coloring.bounds@[j];
                            if b.depth != d0 {
                                assert(prev_bounds.contains(b));
                                let j2 = choose|j2: int|
                                    0 <= j2 < prev_bounds.len() && prev_bounds[j2] == b;
                                assert(prev_bounds[j2].depth == d0 || bs.contains(prev_bounds[j2]));
                            }
                        }
                        assert forall|i2: int|
                            0 <= i2 <= bs.len() implies same_range_multiset(
                            el0,
                            self.coloring.elements@,
                            #[trigger] cut_start(bs, i2),
                            cut_end(bs, n0, i2),
                        ) by {
                            let s = cut_start(bs, i2);
                            let e = cut_end(bs, n0, i2);
                            lemma_cell_range(bs, n0, i2);
                            assert(s == 0 || has_cut_at(prev_bounds, s)) by {
                                if i2 > 0 {
                                    assert(prev_bounds.contains(bs[i2 - 1]));
                                    let jj = choose|jj: int|
                                        0 <= jj < prev_bounds.len() && prev_bounds[jj] == bs[i2
                                            - 1];
                                    assert(prev_bounds[jj].offset == s);
                                }
                            }
                            assert(e == n0 || has_cut_at(prev_bounds, e)) by {
                                if i2 < bs.len() {
                                    assert(prev_bounds.contains(bs[i2]));
                                    let jj = choose|jj: int|
                                        0 <= jj < prev_bounds.len() && prev_bounds[jj] == bs[i2];
                                    assert(prev_bounds[jj].offset == e);
                                }
                            }
                            lemma_multiset_union_cells(
                                prev.coloring.elements@,
                                self.coloring.elements@,
                                prev_bounds,
                                n0,
                                s,
                                e,
                            );
                            assert(el0.subrange(s, e).to_multiset()
                                == prev.coloring.elements@.subrange(s, e).to_multiset());
                        }
                    }
                }
                if ch {
                    split = true;
                }
                c = c + 1;
            }
            if !split {
                proof {
                    assert(spec_equitable(*self, neighbors@)) by {
                        assert(self.coloring.bounds@.len() + 1 == nc2);
                    }
                    assert forall|c2: int|
                        0 <= c2 <= self.coloring.bounds@.len() implies key_homogeneous(
                        *self,
                        #[trigger] count_key(neighbors@, self.reverse@, n0, c2),
                    ) by {
                        assert(c2 < nc2);
                    }
                }
                break;
            }
            proof {
                let pst = sstates;
                sstates = sstates.push(*self);
                assert(sweep_step(neighbors@, pass0, *self)) by {
                    assert(0 <= gc <= pass0.coloring.bounds@.len() && (forall|c2: int|
                        0 <= c2 < gc ==> key_homogeneous(
                            pass0,
                            #[trigger] count_key(neighbors@, pass0.reverse@, pass0.n(), c2),
                        )) && !key_homogeneous(
                        pass0,
                        count_key(neighbors@, pass0.reverse@, pass0.n(), gc),
                    ) && refined_by(
                        pass0,
                        count_key(neighbors@, pass0.reverse@, pass0.n(), gc),
                        *self,
                    ));
                }
                assert forall|t: int|
                    0 <= t < sstates.len() - 1 implies sweep_step(
                    neighbors@,
                    #[trigger] sstates[t],
                    sstates[t + 1],
                ) by {
                    if t < pst.len() - 1 {
                        assert(sweep_step(neighbors@, pst[t], pst[t + 1]));
                    } else {
                        assert(same_state(pass0, pst.last()));
                        assert(sstates[t] == pst.last() && sstates[t + 1] == *self);
                        assert(sweep_step(neighbors@, pst.last(), *self)) by {
                            let lastc = pst.last();
                            assert(0 <= gc <= lastc.coloring.bounds@.len() && (forall|c2: int|
                                0 <= c2 < gc ==> key_homogeneous(
                                    lastc,
                                    #[trigger] count_key(neighbors@, lastc.reverse@, lastc.n(), c2),
                                )) && !key_homogeneous(
                                lastc,
                                count_key(neighbors@, lastc.reverse@, lastc.n(), gc),
                            ) && refined_by(
                                lastc,
                                count_key(neighbors@, lastc.reverse@, lastc.n(), gc),
                                *self,
                            )) by {
                                assert forall|c2: int|
                                    0 <= c2 < gc implies key_homogeneous(
                                    lastc,
                                    #[trigger] count_key(neighbors@, lastc.reverse@, lastc.n(), c2),
                                ) by {
                                    assert(key_homogeneous(
                                        pass0,
                                        count_key(neighbors@, pass0.reverse@, n0, c2),
                                    ));
                                }
                                assert(!key_homogeneous(
                                    pass0,
                                    count_key(neighbors@, pass0.reverse@, n0, gc),
                                ));
                                assert(refined_by(
                                    pass0,
                                    count_key(neighbors@, pass0.reverse@, n0, gc),
                                    *self,
                                ));
                            }
                        }
                    }
                }
            }
        }
        proof {
            assert(sweep_phase(neighbors@, wmid, *self)) by {
                assert(sstates.len() >= 1 && sstates[0] == wmid && same_state(
                    *self,
                    sstates.last(),
                ) && (
                forall|t: int|
                    0 <= t < sstates.len() - 1 ==> sweep_step(
                        neighbors@,
                        #[trigger] sstates[t],
                        sstates[t + 1],
                    )) && (forall|c2: int|
                    0 <= c2 <= self.coloring.bounds@.len() ==> key_homogeneous(
                        *self,
                        #[trigger] count_key(neighbors@, self.reverse@, self.n(), c2),
                    )));
            }
            assert(worklist_phase(neighbors@, *old(self), wmid) && sweep_phase(
                neighbors@,
                wmid,
                *self,
            ));
        }
        stack.clear();
    }

    /// Makes the coloring equitable with respect to `neighbors`, with fresh
    /// scratch space: on return any two elements of one cell have equally
    /// many neighbors in every cell, cells only split (each old cell keeps
    /// its members), and an already equitable coloring is left exactly as it
    /// was — a second call is the identity.
    pub fn make_equitable(&mut self, neighbors: &Vec<Vec<usize>>)
        requires
            old(self).wf(),
            old(self).n() >= 1,
            neighbors@.len() == old(self).n(),
            forall|u: int, i: int|
                0 <= u < old(self).n() && 0 <= i < neighbors@[u]@.len()
                    ==> #[trigger] neighbors@[u]@[i] < old(self).n(),
        ensures
            final(self).wf(),
            final(self).n() == old(self).n(),
            final(self).depth == old(self).depth,
            final(self).coloring.bounds@.len() >= old(self).coloring.bounds@.len(),
            forall|j: int|
                0 <= j < old(self).coloring.bounds@.len() ==> final(self).coloring.bounds@.contains(
                    #[trigger] old(self).coloring.bounds@[j],
                ),
            forall|j: int|
                0 <= j < final(self).coloring.bounds@.len() ==> (#[trigger] final(self).coloring.bounds@[j].depth == old(self).depth || old(
                    self,
                ).coloring.bounds@.contains(final(self).coloring.bounds@[j])),
            forall|i: int|
                0 <= i <= old(self).coloring.bounds@.len() ==> same_range_multiset(
                    old(self).coloring.elements@,
                    final(self).coloring.elements@,
                    #[trigger] cut_start(old(self).coloring.bounds@, i),
                    cut_end(old(self).coloring.bounds@, old(self).n(), i),
                ),
            spec_equitable(*final(self), neighbors@),
            spec_equitable(*old(self), neighbors@) ==> same_state(*final(self), *old(self)),
            exists|mid: ReversibleColoring|
                #[trigger] worklist_phase(neighbors@, *old(self), mid) && sweep_phase(
                    neighbors@,
                    mid,
                    *final(self),
                ),
    {
        let mut stack: Vec<usize> = Vec::new();
        let mut map: Vec<u64> = Vec::new();
        let n = self.coloring.elements.len();
        let mut u: usize = 0;
        while u < n
            invariant
                u <= n,
                *self == *old(self),
                map@.len() == u,
            decreases n - u,
        {
            map.push(0);
            u = u + 1;
        }
        self.make_equitable_with(&mut stack, &mut map, neighbors)
    }
}


/// `x` is the `<ᵤ`-maximum of the cell that holds it once the bounds are
/// filtered to those introduced at or below depth `d`.
pub open spec fn max_of_cell_at(c: Coloring, d: int, x: usize) -> bool {
    let bs = cuts_at_most(c.bounds@, d);
    let i = cell_of_pos(bs, c.position_of(x));
    forall|q: int| cut_start(bs, i) <= q < cut_end(bs, c.n(), i) ==> #[trigger] c.elements@[q] <= x
}

/// `y` is the `<ᵤ`-successor of `x` within the cell that holds `x` once the
/// bounds are filtered to depth `d`: it lies in that cell, beyond `x`, and
/// nothing of the cell lies strictly between the two.
pub open spec fn succ_in_cell_at(c: Coloring, d: int, x: usize, y: usize) -> bool {
    let bs = cuts_at_most(c.bounds@, d);
    let i = cell_of_pos(bs, c.position_of(x));
    &&& y > x
    &&& exists|q: int|
        cut_start(bs, i) <= q < cut_end(bs, c.n(), i) && #[trigger] c.elements@[q] == y
    &&& forall|q: int|
        cut_start(bs, i) <= q < cut_end(bs, c.n(), i) ==> (#[trigger] c.elements@[q] <= x
            || c.elements@[q] >= y)
}

/// A depth filter that excludes no bound is the identity.
pub(crate) proof fn lemma_cuts_at_most_all(bounds: Seq<Bound>, d: int)
    requires
        forall|j: int| 0 <= j < bounds.len() ==> #[trigger] bounds[j].depth <= d,
    ensures
        cuts_at_most(bounds, d) == bounds,
    decreases bounds.len(),
{
    if bounds.len() > 0 {
        assert(bounds.last().depth <= d);
        assert forall|j: int|
            0 <= j < bounds.drop_last().len() implies #[trigger] bounds.drop_last()[j].depth
            <= d by {
            assert(bounds.drop_last()[j] == bounds[j]);
        }
        lemma_cuts_at_most_all(bounds.drop_last(), d);
        assert(cuts_at_most(bounds, d) =~= bounds);
    }
}

/// Every bound kept by a depth filter is one of the original bounds.
pub(crate) proof fn lemma_cuts_at_most_subset(bounds: Seq<Bound>, d: int)
    ensures
        forall|j: int|
            0 <= j < cuts_at_most(bounds, d).len() ==> bounds.contains(
                #[trigger] cuts_at_most(bounds, d)[j],
            ),
    decreases bounds.len(),
{
    if bounds.len() > 0 {
        lemma_cuts_at_most_subset(bounds.drop_last(), d);
        let f = cuts_at_most(bounds, d);
        let fd = cuts_at_most(bounds.drop_last(), d);
        assert forall|j: int| 0 <= j < f.len() implies bounds.contains(#[trigger] f[j]) by {
            if bounds.last().depth <= d && j == f.len() - 1 {
                assert(f[j] == bounds.last());
                assert(bounds[bounds.len() - 1] == bounds.last());
            } else {
                assert(f[j] == fd[j]);
                assert(bounds.drop_last().contains(fd[j]));
                let j2 = choose|j2: int|
                    0 <= j2 < bounds.drop_last().len() && bounds.drop_last()[j2] == fd[j];
                assert(bounds[j2] == fd[j]);
            }
        }
    }
}

/// Positions with no cut between them share a cell.
pub(crate) proof fn lemma_cell_of_pos_no_cut_between(bs: Seq<Bound>, n: int, a: int, b: int)
    requires
        cuts_ok(bs, n),
        0 <= a <= b < n,
        forall|t: int| a < t <= b ==> !has_cut_at(bs, t),
    ensures
        cell_of_pos(bs, a) == cell_of_pos(bs, b),
    decreases b - a,
{
    if a < b {
        lemma_cell_of_pos_no_cut_between(bs, n, a, b - 1);
        lemma_adjacent_positions(bs, n, b - 1);
    }
}

/// The per-level maximum property reads the same on a coloring and on its
/// restriction to a shallower depth: restoring moves elements only within
/// the restored cells.
pub(crate) proof fn lemma_max_of_cell_restore(c1: Coloring, c2: Coloring, d: int, j: int, x: usize)
    requires
        c1.wf(),
        c2.wf(),
        c2.n() == c1.n(),
        0 <= j <= d,
        c2.bounds@ == cuts_at_most(c1.bounds@, d),
        forall|i: int|
            0 <= i <= c2.bounds@.len() ==> same_range_multiset(
                c1.elements@,
                c2.elements@,
                #[trigger] cut_start(c2.bounds@, i),
                cut_end(c2.bounds@, c2.n(), i),
            ),
        x < c1.n(),
    ensures
        max_of_cell_at(c2, j, x) == max_of_cell_at(c1, j, x),
        forall|y: usize| succ_in_cell_at(c2, j, x, y) == #[trigger] succ_in_cell_at(c1, j, x, y),
{
    let n = c1.n();
    crate::sorting::lemma_vec_len_bound(&c1.elements);
    let bsj = cuts_at_most(c2.bounds@, j);
    lemma_cuts_at_most_compose(c1.bounds@, d, j);
    assert(bsj == cuts_at_most(c1.bounds@, j));
    lemma_cuts_at_most_ok(c1.bounds@, n, j);
    lemma_cuts_at_most_subset(c2.bounds@, j);
    let p1 = c1.position_of(x);
    let p2 = c2.position_of(x);
    assert(c1.elements@.contains(x));
    assert(c2.elements@.contains(x));
    assert(0 <= p1 < n && c1.elements@[p1] == x);
    assert(0 <= p2 < n && c2.elements@[p2] == x);
    let i2 = cell_of_pos(c2.bounds@, p2);
    lemma_cell_of_pos_range(c2.bounds@, n, p2);
    let s2 = cut_start(c2.bounds@, i2);
    let e2 = cut_end(c2.bounds@, n, i2);
    lemma_cell_range(c2.bounds@, n, i2);
    assert(same_range_multiset(c2.elements@, c1.elements@, s2, e2));
    crate::sorting::lemma_range_multiset_in_range(c2.elements@, c1.elements@, s2, e2, p2);
    let q = choose|q: int| s2 <= q < e2 && c1.elements@[q] == c2.elements@[p2];
    c1.lemma_position_of_index(q);
    assert(p1 == q);
    assert forall|t: int| s2 < t < e2 implies !has_cut_at(bsj, t) by {
        if has_cut_at(bsj, t) {
            let jj = choose|jj: int| 0 <= jj < bsj.len() && bsj[jj].offset == t;
            assert(c2.bounds@.contains(bsj[jj]));
            let jj2 = choose|jj2: int| 0 <= jj2 < c2.bounds@.len() && c2.bounds@[jj2] == bsj[jj];
            assert(has_cut_at(c2.bounds@, t));
            lemma_cut_splits_cells(c2.bounds@, n, t);
            lemma_cell_of_pos_unique(c2.bounds@, n, i2, t - 1);
            lemma_cell_of_pos_unique(c2.bounds@, n, i2, t);
        }
    }
    let ij = cell_of_pos(bsj, p2);
    assert(cell_of_pos(bsj, p1) == ij) by {
        if p1 <= p2 {
            lemma_cell_of_pos_no_cut_between(bsj, n, p1, p2);
        } else {
            lemma_cell_of_pos_no_cut_between(bsj, n, p2, p1);
        }
    }
    lemma_cell_of_pos_range(bsj, n, p2);
    let sj = cut_start(bsj, ij);
    let ej = cut_end(bsj, n, ij);
    lemma_cell_range(bsj, n, ij);
    assert(sj == 0 || has_cut_at(c2.bounds@, sj)) by {
        if ij > 0 {
            assert(bsj[ij - 1].offset == sj);
            assert(c2.bounds@.contains(bsj[ij - 1]));
            let jj2 = choose|jj2: int|
                0 <= jj2 < c2.bounds@.len() && c2.bounds@[jj2] == bsj[ij - 1];
            assert(has_cut_at(c2.bounds@, sj));
        }
    }
    assert(ej == n || has_cut_at(c2.bounds@, ej)) by {
        if ij < bsj.len() {
            assert(bsj[ij].offset == ej);
            assert(c2.bounds@.contains(bsj[ij]));
            let jj2 = choose|jj2: int| 0 <= jj2 < c2.bounds@.len() && c2.bounds@[jj2] == bsj[ij];
            assert(has_cut_at(c2.bounds@, ej));
        }
    }
    lemma_multiset_union_cells(c1.elements@, c2.elements@, c2.bounds@, n, sj, ej);
    if max_of_cell_at(c1, j, x) {
        assert forall|q2: int| sj <= q2 < ej implies #[trigger] c2.elements@[q2] <= x by {
            crate::sorting::lemma_range_multiset_in_range(c2.elements@, c1.elements@, sj, ej, q2);
            let q3 = choose|q3: int| sj <= q3 < ej && c1.elements@[q3] == c2.elements@[q2];
            assert(c1.elements@[q3] <= x);
        }
        assert(max_of_cell_at(c2, j, x));
    }
    if max_of_cell_at(c2, j, x) {
        assert forall|q2: int| sj <= q2 < ej implies #[trigger] c1.elements@[q2] <= x by {
            crate::sorting::lemma_range_multiset_in_range(c1.elements@, c2.elements@, sj, ej, q2);
            let q3 = choose|q3: int| sj <= q3 < ej && c2.elements@[q3] == c1.elements@[q2];
            assert(c2.elements@[q3] <= x);
        }
        assert(max_of_cell_at(c1, j, x));
    }
    assert forall|y: usize|
        succ_in_cell_at(c2, j, x, y) == #[trigger] succ_in_cell_at(c1, j, x, y) by {
        if succ_in_cell_at(c2, j, x, y) {
            let qy = choose|qy: int| sj <= qy < ej && #[trigger] c2.elements@[qy] == y;
            crate::sorting::lemma_range_multiset_in_range(c2.elements@, c1.elements@, sj, ej, qy);
            assert forall|q2: int|
                sj <= q2 < ej implies (#[trigger] c1.elements@[q2] <= x || c1.elements@[q2]
                >= y) by {
                crate::sorting::lemma_range_multiset_in_range(
                    c1.elements@,
                    c2.elements@,
                    sj,
                    ej,
                    q2,
                );
                let q3 = choose|q3: int| sj <= q3 < ej && c2.elements@[q3] == c1.elements@[q2];
                assert(c2.elements@[q3] <= x || c2.elements@[q3] >= y);
            }
            assert(succ_in_cell_at(c1, j, x, y));
        }
        if succ_in_cell_at(c1, j, x, y) {
            let qy = choose|qy: int| sj <= qy < ej && #[trigger] c1.elements@[qy] == y;
            crate::sorting::lemma_range_multiset_in_range(c1.elements@, c2.elements@, sj, ej, qy);
            assert forall|q2: int|
                sj <= q2 < ej implies (#[trigger] c2.elements@[q2] <= x || c2.elements@[q2]
                >= y) by {
                crate::sorting::lemma_range_multiset_in_range(
                    c2.elements@,
                    c1.elements@,
                    sj,
                    ej,
                    q2,
                );
                let q3 = choose|q3: int| sj <= q3 < ej && c1.elements@[q3] == c2.elements@[q2];
                assert(c1.elements@[q3] <= x || c1.elements@[q3] >= y);
            }
            assert(succ_in_cell_at(c2, j, x, y));
        }
    }
}

/// Filtering twice by nested depths is the same as filtering once by the
/// smaller depth.
pub(crate) proof fn lemma_cuts_at_most_compose(bounds: Seq<Bound>, d1: int, d2: int)
    requires
        d2 <= d1,
    ensures
        cuts_at_most(cuts_at_most(bounds, d1), d2) == cuts_at_most(bounds, d2),
    decreases bounds.len(),
{
    if bounds.len() > 0 {
        lemma_cuts_at_most_compose(bounds.drop_last(), d1, d2);
        if bounds.last().depth <= d1 {
            assert(cuts_at_most(bounds, d1).drop_last() =~= cuts_at_most(
                bounds.drop_last(),
                d1,
            ));
        }
    }
}

/// Inserting a bound deeper than the filter depth does not change the filter.
pub(crate) proof fn lemma_cuts_at_most_insert_deep(bounds: Seq<Bound>, ci: int, x: Bound, d2: int)
    requires
        0 <= ci <= bounds.len(),
        x.depth > d2,
    ensures
        cuts_at_most(bounds.insert(ci, x), d2) == cuts_at_most(bounds, d2),
    decreases bounds.len(),
{
    let e = bounds.insert(ci, x);
    bounds.insert_ensures(ci, x);
    if ci == bounds.len() {
        assert(e.drop_last() =~= bounds);
        assert(e.last() == x);
    } else {
        assert(e.drop_last() =~= bounds.drop_last().insert(ci, x));
        assert(e.last() == bounds.last());
        lemma_cuts_at_most_insert_deep(bounds.drop_last(), ci, x, d2);
    }
}

/// A filter that no bound exceeds is the identity.
pub(crate) proof fn lemma_cuts_at_most_id(bounds: Seq<Bound>, d: int)
    requires
        forall|j: int| 0 <= j < bounds.len() ==> #[trigger] bounds[j].depth <= d,
    ensures
        cuts_at_most(bounds, d) == bounds,
    decreases bounds.len(),
{
    if bounds.len() > 0 {
        let dropped = bounds.drop_last();
        assert(forall|j: int| 0 <= j < dropped.len() ==> #[trigger] dropped[j] == bounds[j]);
        lemma_cuts_at_most_id(dropped, d);
        assert(cuts_at_most(bounds, d) =~= bounds);
    }
}

/// A coloring whose cells are all singletons is discrete.
pub(crate) proof fn lemma_unit_cells_discrete(c: Coloring)
    requires
        c.wf(),
        c.n() >= 1,
        forall|i: int|
            0 <= i <= c.bounds@.len() ==> #[trigger] cut_end(c.bounds@, c.n(), i) - cut_start(
                c.bounds@,
                i,
            ) <= 1,
    ensures
        c.spec_is_discrete(),
{
    lemma_unit_cells_start(c, c.bounds@.len() as int);
    assert(cut_end(c.bounds@, c.n(), c.bounds@.len() as int) == c.n());
}

/// In a coloring of singleton cells, cell `i` starts at offset `i`.
proof fn lemma_unit_cells_start(c: Coloring, i: int)
    requires
        c.wf(),
        0 <= i <= c.bounds@.len(),
        forall|i2: int|
            0 <= i2 <= c.bounds@.len() ==> #[trigger] cut_end(c.bounds@, c.n(), i2) - cut_start(
                c.bounds@,
                i2,
            ) <= 1,
    ensures
        cut_start(c.bounds@, i) == i,
        cut_end(c.bounds@, c.n(), i) <= i + 1,
    decreases i,
{
    lemma_cell_range(c.bounds@, c.n(), i);
    if i > 0 {
        lemma_unit_cells_start(c, i - 1);
        assert(cut_start(c.bounds@, i) == cut_end(c.bounds@, c.n(), i - 1)) by {
            lemma_num_cuts(c.bounds@, c.n());
        }
        assert(cut_start(c.bounds@, i) >= i) by {
            lemma_num_cuts(c.bounds@, c.n());
        }
        assert(cut_end(c.bounds@, c.n(), i - 1) <= i);
    }
}


/// Individualizing an element that shared its cell and then deindividualizing
/// it restores the original state exactly.
pub proof fn lemma_individualize_then_deindividualize(
    pre: ReversibleColoring,
    mid: ReversibleColoring,
    post: ReversibleColoring,
    item: usize,
)
    requires
        pre.wf(),
        mid.wf(),
        post.wf(),
        (item as int) < pre.n(),
        pre.coloring.cell_end_spec(pre.rev_at(item)) - pre.coloring.cell_start_spec(
            pre.rev_at(item),
        ) > 1,
        splits(pre, mid, item),
        merges(mid, post, item),
    ensures
        post.coloring.elements@ == pre.coloring.elements@,
        post.coloring.bounds@ == pre.coloring.bounds@,
        post.reverse@ == pre.reverse@,
        post.depth == pre.depth,
{
    let bs = pre.coloring.bounds@;
    let el0 = pre.coloring.elements@;
    let n0 = pre.n();
    let ci = pre.rev_at(item);
    let s = pre.coloring.cell_start_spec(ci);
    let e = pre.coloring.cell_end_spec(ci);
    let b = Bound { offset: (s + 1) as usize, depth: pre.depth };
    pre.lemma_rev_of_element(item);
    lemma_cell_range(bs, n0, ci);
    crate::sorting::lemma_vec_len_bound(&pre.coloring.elements);
    let mb = mid.coloring.bounds@;
    assert(mb == bs.insert(ci, b));
    bs.insert_ensures(ci, b);
    lemma_insert_cut_map(bs, n0, ci, b);
    // The element sits alone at position `s` of the middle coloring, so its
    // cell index there is again `ci`.
    assert(mid.coloring.elements@[s] == item);
    mid.coloring.lemma_position_of_index(s);
    assert(mid.rev_at(item) == cell_of_pos(mb, s)) by {
        assert(mid.reverse@[mid.coloring.elements@[s] as int] == mid.coloring.cell_of(s));
    }
    lemma_cell_of_pos_unique(mb, n0, ci, s);
    assert(mid.rev_at(item) == ci);
    assert(mid.coloring.cell_start_spec(ci) == s);
    assert(mid.coloring.cell_end_spec(ci) == s + 1);
    assert(mid.coloring.cell_end_spec(ci + 1) == e);
    // Removing the inserted bound gives back the original bounds.
    assert(post.coloring.bounds@ == mb.remove(ci));
    mb.remove_ensures(ci);
    assert(post.coloring.bounds@ =~= bs);
    // Outside the split cell nothing moved; inside, the merged cell holds the
    // original multiset in sorted order, so it is the original cell.
    assert forall|p: int| 0 <= p < n0 && !(s <= p < e) implies #[trigger] post.coloring.elements@[p]
        == el0[p] by {
        assert(post.coloring.elements@[p] == mid.coloring.elements@[p]);
    }
    assert(same_range_multiset(el0, post.coloring.elements@, s, e)) by {
        assert(el0.subrange(s, e).to_multiset() == mid.coloring.elements@.subrange(
            s,
            e,
        ).to_multiset());
    }
    assert(range_sorted(el0, s, e)) by {
        assert(range_sorted(el0, pre.coloring.cell_start_spec(ci), pre.coloring.cell_end_spec(ci)));
    }
    crate::sorting::lemma_sorted_range_unique(el0, post.coloring.elements@, s, e);
    assert forall|p: int| 0 <= p < n0 implies #[trigger] post.coloring.elements@[p] == el0[p] by {
        if s <= p < e {
            assert(post.coloring.elements@.subrange(s, e)[p - s] == el0.subrange(s, e)[p - s]);
        }
    }
    assert(post.coloring.elements@ =~= el0);
    ReversibleColoring::lemma_rev_determined(pre, post);
}

/// A spec-level description of `is_finer_or_equal_to`: every cell of `self`
/// lies within one cell of `other`, and those cells appear in order.
pub open spec fn spec_finer_or_equal(a: ReversibleColoring, b: ReversibleColoring) -> bool {
    forall|p: int|
        0 <= p && p + 1 < a.n() ==> (#[trigger] b.reverse@[a.coloring.elements@[p] as int]
            <= b.reverse@[a.coloring.elements@[p + 1] as int] && (cell_of_pos(
            a.coloring.bounds@,
            p,
        ) == cell_of_pos(a.coloring.bounds@, p + 1) ==> b.reverse@[a.coloring.elements@[p] as int]
            == b.reverse@[a.coloring.elements@[p + 1] as int]))
}

impl ReversibleColoring {
    /// Checks that this coloring refines `other`: each of its cells lies
    /// within a single cell of `other`, and the containing cells appear in
    /// non-decreasing order.
    #[verifier::rlimit(100)]
    pub fn is_finer_or_equal_to(&self, other: &Self) -> (r: bool)
        requires
            self.wf(),
            other.wf(),
            self.n() == other.n(),
        ensures
            r == spec_finer_or_equal(*self, *other),
    {
        let n = self.coloring.elements.len();
        if n == 0 {
            return true;
        }
        let mut p: usize = 0;
        while p + 1 < n
            invariant
                p < n,
                n == self.n(),
                self.wf(),
                other.wf(),
                other.n() == self.n(),
                forall|p2: int|
                    0 <= p2 < p ==> (#[trigger] other.reverse@[self.coloring.elements@[p2] as int]
                        <= other.reverse@[self.coloring.elements@[p2 + 1] as int] && (cell_of_pos(
                        self.coloring.bounds@,
                        p2,
                    ) == cell_of_pos(self.coloring.bounds@, p2 + 1)
                        ==> other.reverse@[self.coloring.elements@[p2] as int] == other.reverse@[
                        self.coloring.elements@[p2 + 1] as int])),
            decreases n - p,
        {
            let e1 = self.coloring.elements[p];
            let e2 = self.coloring.elements[p + 1];
            let c1 = other.reverse[e1];
            let c2 = other.reverse[e2];
            if c1 > c2 {
                return false;
            }
            let s1 = self.reverse[e1];
            let s2 = self.reverse[e2];
            proof {
                self.lemma_rev_of_element(e1);
                self.lemma_rev_of_element(e2);
                self.coloring.lemma_position_of_index(p as int);
                self.coloring.lemma_position_of_index(p + 1);
            }
            if s1 == s2 && c1 != c2 {
                return false;
            }
            p = p + 1;
        }
        true
    }
}

/// A cursor over the cells of a coloring, front to back.
pub struct Colors {
    /// The cells not yet handed out.
    pub cells: Vec<Vec<usize>>,
}

impl Colors {
    /// Hands out the next cell, or `None` when all cells were seen.
    pub fn next(&mut self) -> (r: Option<Vec<usize>>)
        ensures
            old(self).cells@.len() == 0 ==> r is None && final(self).cells@ == old(self).cells@,
            old(self).cells@.len() > 0 ==> r == Some(old(self).cells@[0]) && final(self).cells@
                == old(self).cells@.subrange(1, old(self).cells@.len() as int),
    {
        if self.cells.len() == 0 {
            None
        } else {
            Some(self.cells.remove(0))
        }
    }
}

impl Coloring {
    /// The cells of this coloring, in order.
    pub fn colors(&self) -> (r: Colors)
        requires
            self.wf(),
        ensures
            r.cells@.len() == self.spec_len(),
            forall|i: int| 0 <= i < r.cells@.len() ==> #[trigger] r.cells@[i]@ == self.cell_seq(i),
    {
        let ghost bs = self.bounds@;
        let ghost n0 = self.n();
        proof {
            lemma_num_cuts(bs, n0);
        }
        let nb = self.bounds.len();
        let ne = self.elements.len();
        let nc = nb + 1;
        let mut cells: Vec<Vec<usize>> = Vec::new();
        let mut i: usize = 0;
        while i < nc
            invariant
                i <= nc,
                nc == bs.len() + 1,
                nb == bs.len(),
                ne == n0,
                self.wf(),
                bs == self.bounds@,
                n0 == self.n(),
                cells@.len() == i,
                forall|i2: int| 0 <= i2 < i ==> #[trigger] cells@[i2]@ == self.cell_seq(i2),
            decreases nc - i,
        {
            proof {
                lemma_cell_range(bs, n0, i as int);
            }
            let start = if i == 0 {
                0
            } else {
                self.bounds[i - 1].offset
            };
            let end = if i < nb {
                self.bounds[i].offset
            } else {
                ne
            };
            let cell = vstd::slice::slice_to_vec(
                vstd::slice::slice_subrange(self.elements.as_slice(), start, end),
            );
            cells.push(cell);
            i = i + 1;
        }
        Colors { cells }
    }
}

impl PartialEq for Coloring {
    /// Two colorings are equal when they hold the same elements under the
    /// same cuts; bound depths are ignored.
    fn eq(&self, other: &Self) -> bool {
        if self.elements.len() != other.elements.len() {
            return false;
        }
        if self.bounds.len() != other.bounds.len() {
            return false;
        }
        let mut i: usize = 0;
        while i < self.elements.len()
            invariant
                i <= self.elements@.len(),
                self.elements@.len() == other.elements@.len(),
                self.bounds@.len() == other.bounds@.len(),
                forall|p: int| 0 <= p < i ==> self.elements@[p] == other.elements@[p],
            decreases self.elements@.len() - i,
        {
            if self.elements[i] != other.elements[i] {
                return false;
            }
            i = i + 1;
        }
        let mut j: usize = 0;
        while j < self.bounds.len()
            invariant
                j <= self.bounds@.len(),
                self.elements@.len() == other.elements@.len(),
                self.bounds@.len() == other.bounds@.len(),
                forall|p: int| 0 <= p < self.elements@.len() ==> self.elements@[p]
                    == other.elements@[p],
                forall|p: int|
                    0 <= p < j ==> #[trigger] self.bounds@[p].offset == other.bounds@[p].offset,
            decreases self.bounds@.len() - j,
        {
            if self.bounds[j].offset != other.bounds[j].offset {
                return false;
            }
            j = j + 1;
        }
        proof {
            assert(self.elements@ =~= other.elements@);
        }
        true
    }
}

impl vstd::std_specs::cmp::PartialEqSpecImpl for Coloring {
    open spec fn obeys_eq_spec() -> bool {
        true
    }

    open spec fn eq_spec(&self, other: &Self) -> bool {
        &&& self.elements@ == other.elements@
        &&& self.bounds@.len() == other.bounds@.len()
        &&& forall|j: int|
            0 <= j < self.bounds@.len() ==> #[trigger] self.bounds@[j].offset == other.bounds@[
                j
            ].offset
    }
}

impl PartialEq for ReversibleColoring {
    /// Two reversible colorings are equal when their colorings are; the
    /// reverse index and depth are derived data.
    fn eq(&self, other: &Self) -> bool {
        self.coloring == other.coloring
    }
}

impl vstd::std_specs::cmp::PartialEqSpecImpl for ReversibleColoring {
    open spec fn obeys_eq_spec() -> bool {
        true
    }

    open spec fn eq_spec(&self, other: &Self) -> bool {
        &&& self.coloring.elements@ == other.coloring.elements@
        &&& self.coloring.bounds@.len() == other.coloring.bounds@.len()
        &&& forall|j: int|
            0 <= j < self.coloring.bounds@.len() ==> #[trigger] self.coloring.bounds@[j].offset
                == other.coloring.bounds@[j].offset
    }
}


/// Entering a scope, performing there any sequence of the coloring's own
/// mutating operations — `individualize`, `refine`, `refine_with`,
/// `make_equitable` — and restoring one level returns the coloring to its
/// state before the scope was entered. `s0` is that state, `s2` the state
/// reached inside the scope, and `s3` the state after `restore(1)`: the
/// requirements are exactly what those operations' contracts guarantee of
/// `s2` — old bounds survive, every other bound carries the scope's depth,
/// each old cell keeps its members — and what `restore`'s contract
/// guarantees of `s3`.
pub proof fn lemma_scoped_ops_restore(
    s0: ReversibleColoring,
    s2: ReversibleColoring,
    s3: ReversibleColoring,
)
    requires
        s0.wf(),
        s2.wf(),
        s3.wf(),
        s2.n() == s0.n(),
        s3.n() == s0.n(),
        s2.depth == s0.depth + 1,
        forall|j: int|
            0 <= j < s0.coloring.bounds@.len() ==> s2.coloring.bounds@.contains(
                #[trigger] s0.coloring.bounds@[j],
            ),
        forall|j: int|
            0 <= j < s2.coloring.bounds@.len() ==> (#[trigger] s2.coloring.bounds@[j].depth
                == s2.depth || s0.coloring.bounds@.contains(s2.coloring.bounds@[j])),
        forall|i: int|
            0 <= i <= s0.coloring.bounds@.len() ==> same_range_multiset(
                s0.coloring.elements@,
                s2.coloring.elements@,
                #[trigger] cut_start(s0.coloring.bounds@, i),
                cut_end(s0.coloring.bounds@, s0.n(), i),
            ),
        s3.depth == s2.depth - 1,
        s3.coloring.bounds@ == cuts_at_most(s2.coloring.bounds@, s2.depth - 1),
        forall|i: int|
            0 <= i <= s3.coloring.bounds@.len() ==> same_range_multiset(
                s2.coloring.elements@,
                s3.coloring.elements@,
                #[trigger] cut_start(s3.coloring.bounds@, i),
                cut_end(s3.coloring.bounds@, s3.n(), i),
            ),
    ensures
        s3.coloring.elements@ == s0.coloring.elements@,
        s3.coloring.bounds@ == s0.coloring.bounds@,
        s3.reverse@ == s0.reverse@,
        s3.depth == s0.depth,
{
    let bs = s0.coloring.bounds@;
    let el0 = s0.coloring.elements@;
    let n0 = s0.n();
    let d0 = s0.depth as int;
    crate::sorting::lemma_vec_len_bound(&s0.coloring.elements);
    // The filter keeps exactly the original bounds.
    let f = cuts_at_most(s2.coloring.bounds@, d0);
    lemma_cuts_at_most_ok(s2.coloring.bounds@, n0, d0);
    lemma_cuts_at_most_subset(s2.coloring.bounds@, d0);
    assert forall|j: int| 0 <= j < bs.len() implies f.contains(#[trigger] bs[j]) by {
        assert(bs[j].depth <= d0);
        lemma_cuts_at_most_member(s2.coloring.bounds@, d0, bs[j]);
    }
    assert forall|j: int| 0 <= j < f.len() implies bs.contains(#[trigger] f[j]) by {
        assert(s2.coloring.bounds@.contains(f[j]));
        assert(f[j].depth <= d0);
        let q = choose|q: int|
            0 <= q < s2.coloring.bounds@.len() && s2.coloring.bounds@[q] == f[j];
        assert(s2.coloring.bounds@[q].depth == s2.depth || bs.contains(s2.coloring.bounds@[q]));
    }
    lemma_mutual_bounds_equal(f, bs, n0);
    assert(s3.coloring.bounds@ == bs);
    // Each cell holds its original members, sorted, hence exactly the
    // original content.
    assert forall|p: int| 0 <= p < n0 implies #[trigger] s3.coloring.elements@[p] == el0[p] by {
        lemma_cell_of_pos_range(bs, n0, p);
        let c = cell_of_pos(bs, p);
        let lo = cut_start(bs, c);
        let hi = cut_end(bs, n0, c);
        lemma_cell_range(bs, n0, c);
        assert(same_range_multiset(el0, s2.coloring.elements@, lo, hi));
        assert(same_range_multiset(s2.coloring.elements@, s3.coloring.elements@, lo, hi));
        assert(range_sorted(el0, lo, hi)) by {
            assert(range_sorted(
                el0,
                s0.coloring.cell_start_spec(c),
                s0.coloring.cell_end_spec(c),
            ));
        }
        assert(range_sorted(s3.coloring.elements@, lo, hi)) by {
            assert(range_sorted(
                s3.coloring.elements@,
                s3.coloring.cell_start_spec(c),
                s3.coloring.cell_end_spec(c),
            ));
        }
        crate::sorting::lemma_sorted_range_unique(el0, s3.coloring.elements@, lo, hi);
        assert(s3.coloring.elements@.subrange(lo, hi)[p - lo] == el0.subrange(lo, hi)[p - lo]);
    }
    assert(s3.coloring.elements@ =~= el0);
    ReversibleColoring::lemma_rev_determined(s0, s3);
}

/// Entering a scope, individualizing one element there, and restoring one
/// level returns the coloring to its state before the scope was entered:
/// `s0` is that state, `s1` the state after `begin`, `s2` after a successful
/// `individualize`, and `s3` after `restore(1)`, each described by the
/// corresponding operation's contract.
#[verifier::rlimit(100)]
pub proof fn lemma_scoped_individualize_restore(
    s0: ReversibleColoring,
    s1: ReversibleColoring,
    s2: ReversibleColoring,
    s3: ReversibleColoring,
    item: usize,
)
    requires
        s0.wf(),
        s3.wf(),
        // begin
        s1.coloring == s0.coloring,
        s1.reverse == s0.reverse,
        s1.depth == s0.depth + 1,
        // individualize, with a split
        (item as int) < s1.n(),
        s1.coloring.cell_end_spec(s1.rev_at(item)) - s1.coloring.cell_start_spec(s1.rev_at(item))
            > 1,
        splits(s1, s2, item),
        // restore(1)
        s3.depth == s2.depth - 1,
        s3.coloring.bounds@ == cuts_at_most(s2.coloring.bounds@, s2.depth - 1),
        s3.coloring.elements@.len() == s2.coloring.elements@.len(),
        forall|i: int|
            0 <= i <= s3.coloring.bounds@.len() ==> same_range_multiset(
                s2.coloring.elements@,
                s3.coloring.elements@,
                #[trigger] cut_start(s3.coloring.bounds@, i),
                cut_end(s3.coloring.bounds@, s3.n(), i),
            ),
    ensures
        s3.coloring.elements@ == s0.coloring.elements@,
        s3.coloring.bounds@ == s0.coloring.bounds@,
        s3.reverse@ == s0.reverse@,
        s3.depth == s0.depth,
{
    let bs = s0.coloring.bounds@;
    let el0 = s0.coloring.elements@;
    let n0 = s0.n();
    let d0 = s0.depth as int;
    let ci = s1.rev_at(item);
    let s = s1.coloring.cell_start_spec(ci);
    let e = s1.coloring.cell_end_spec(ci);
    let b = Bound { offset: (s + 1) as usize, depth: s1.depth };
    s0.lemma_rev_of_element(item);
    lemma_cell_range(bs, n0, ci);
    crate::sorting::lemma_vec_len_bound(&s0.coloring.elements);
    // The restored bounds are the original ones: the inserted bound is the
    // only one above the restored depth.
    assert(s2.coloring.bounds@ == bs.insert(ci, b));
    lemma_cuts_at_most_insert_deep(bs, ci, b, d0);
    lemma_cuts_at_most_id(bs, d0);
    assert(s3.coloring.bounds@ == bs);
    // Each restored cell holds its original members, sorted, hence exactly
    // the original content.
    bs.insert_ensures(ci, b);
    lemma_insert_cut_map(bs, n0, ci, b);
    assert forall|p: int| 0 <= p < n0 implies #[trigger] s3.coloring.elements@[p] == el0[p] by {
        lemma_cell_of_pos_range(bs, n0, p);
        let c = cell_of_pos(bs, p);
        let lo = cut_start(bs, c);
        let hi = cut_end(bs, n0, c);
        assert(same_range_multiset(el0, s2.coloring.elements@, lo, hi)) by {
            if c == ci {
                assert(el0.subrange(s, e).to_multiset() == s2.coloring.elements@.subrange(
                    s,
                    e,
                ).to_multiset());
            } else {
                assert(el0.subrange(lo, hi) =~= s2.coloring.elements@.subrange(lo, hi)) by {
                    if c < ci {
                        lemma_cells_ordered(bs, n0, c, ci);
                    } else {
                        lemma_cells_ordered(bs, n0, ci, c);
                    }
                }
            }
        }
        assert(same_range_multiset(el0, s3.coloring.elements@, lo, hi)) by {
            assert(s2.coloring.elements@.subrange(lo, hi).to_multiset()
                == s3.coloring.elements@.subrange(lo, hi).to_multiset());
        }
        assert(range_sorted(el0, lo, hi)) by {
            assert(range_sorted(
                el0,
                s0.coloring.cell_start_spec(c),
                s0.coloring.cell_end_spec(c),
            ));
        }
        assert(range_sorted(s3.coloring.elements@, lo, hi)) by {
            assert(range_sorted(
                s3.coloring.elements@,
                s3.coloring.cell_start_spec(c),
                s3.coloring.cell_end_spec(c),
            ));
        }
        crate::sorting::lemma_sorted_range_unique(el0, s3.coloring.elements@, lo, hi);
        assert(s3.coloring.elements@.subrange(lo, hi)[p - lo] == el0.subrange(lo, hi)[p - lo]);
    }
    assert(s3.coloring.elements@ =~= el0);
    ReversibleColoring::lemma_rev_determined(s0, s3);
}

} // verus!
