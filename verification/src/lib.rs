//! Canonical forms for structures defined up to a permutation of a finite
//! universe.
//!
//! The universe is modeled as the set `{0, …, n-1}`. An ordered partition of
//! the universe (a [`coloring::Coloring`]) is refined step by step until it is
//! discrete, at which point it describes a permutation; the minimum image of
//! the structure over all such permutations reached by the search is its
//! canonical form, and the permutation producing it is the canonical
//! labeling.

use vstd::prelude::*;

mod sorting;
pub mod coloring;
pub mod tree;

use coloring::{Coloring, ReversibleColoring, universe_permutation, cuts_at_most};
use tree::Node;

verus! {

/// A structure whose canonical form can be computed by permuting a finite
/// universe `{0, …, n-1}`.
///
/// Implementations supply the universe, an initial coloring invariant under
/// the structure's automorphisms, a refinement hook, and the application of a
/// labeling; the driver explores the individualization tree and returns the
/// minimum image together with a permutation realizing it. For the canonical
/// form to be isomorphism-invariant, `initial_coloring`, `refine_coloring`
/// and `apply_morphism` must be equivariant under permutations of the
/// universe.
pub trait Canonize: Sized {
    /// The totally ordered images produced by `apply_morphism`.
    type Image;

    /// Scratch space for the refinement hook, allocated once per search.
    type Cache;

    /// Size of the permutable universe. Verified implementations override
    /// this; unverified ones may leave the default, which stays abstract.
    open spec fn universe(&self) -> int {
        arbitrary()
    }

    /// The image of the structure under a labeling.
    open spec fn spec_apply(&self, perm: Seq<usize>) -> Self::Image {
        arbitrary()
    }

    /// The total order on images.
    open spec fn spec_image_le(a: &Self::Image, b: &Self::Image) -> bool {
        arbitrary()
    }

    /// The initial colors as a function of the structure alone. Verified
    /// implementations override this; unverified ones may leave the default,
    /// which stays abstract.
    open spec fn spec_initial_coloring(&self) -> Seq<u64> {
        arbitrary()
    }

    /// The refinement hook's effect as a function of the coloring alone: the
    /// hook must be deterministic, so what it does to the coloring may not
    /// depend on the cache or on anything else.
    open spec fn spec_refine(&self, coloring: ReversibleColoring) -> ReversibleColoring {
        arbitrary()
    }

    /// Number of permutable elements.
    fn elements(&self) -> (n: usize)
        ensures
            n as int == self.universe(),
    ;

    /// One-time precomputation for the refinement hook.
    fn initialize_cache(&self) -> Self::Cache;

    /// The initial color of each element; must be invariant under every
    /// automorphism of the structure.
    fn initial_coloring(&self) -> (c: Vec<u64>)
        ensures
            c@.len() == self.universe(),
            c@ == self.spec_initial_coloring(),
    ;

    /// Refines the coloring using structure-dependent, permutation-invariant
    /// information. It may only split cells: every bound survives, new bounds
    /// carry the current depth, and the bounds at or below any depth do not
    /// become fewer. The result is a function of the coloring handed in — the
    /// hook is deterministic, and the cache is scratch space only.
    fn refine_coloring(&self, cache: &mut Self::Cache, coloring: &mut ReversibleColoring)
        requires
            old(coloring).wf(),
            old(coloring).n() == self.universe(),
            old(coloring).n() >= 1,
        ensures
            *final(coloring) == self.spec_refine(*old(coloring)),
            final(coloring).wf(),
            final(coloring).n() == old(coloring).n(),
            final(coloring).depth == old(coloring).depth,
            final(coloring).coloring.bounds@.len() >= old(coloring).coloring.bounds@.len(),
            forall|j: int|
                0 <= j < old(coloring).coloring.bounds@.len() ==> final(coloring).coloring.bounds@.contains(#[trigger] old(coloring).coloring.bounds@[j]),
            forall|j: int|
                0 <= j < final(coloring).coloring.bounds@.len() ==> (#[trigger] final(coloring).coloring.bounds@[j].depth == old(coloring).depth || old(
                    coloring,
                ).coloring.bounds@.contains(final(coloring).coloring.bounds@[j])),
            forall|d2: int|
                cuts_at_most(#[trigger] final(coloring).coloring.bounds@, d2).len()
                    >= cuts_at_most(old(coloring).coloring.bounds@, d2).len(),
    ;

    /// Applies a labeling to the structure, producing its image.
    fn apply_morphism(&self, perm: &Vec<usize>) -> (img: Self::Image)
        requires
            perm@.len() == self.universe(),
            universe_permutation(perm@),
        ensures
            img == self.spec_apply(perm@),
    ;

    /// Decides the total order on images.
    fn image_le(a: &Self::Image, b: &Self::Image) -> (r: bool)
        ensures
            r == Self::spec_image_le(a, b),
    ;
}

/// Length of the longest common prefix of two paths.
pub(crate) fn longest_common_prefix_len(a: &Vec<usize>, b: &Vec<usize>) -> (n: usize)
    ensures
        n <= a@.len(),
        n <= b@.len(),
        a@.take(n as int) == b@.take(n as int),
        n < a@.len() && n < b@.len() ==> a@[n as int] != b@[n as int],
{
    let mut n: usize = 0;
    while n < a.len() && n < b.len() && a[n] == b[n]
        invariant
            n <= a@.len(),
            n <= b@.len(),
            forall|i: int| 0 <= i < n ==> a@[i] == b@[i],
        decreases a@.len() - n,
    {
        n = n + 1;
    }
    proof {
        assert(a@.take(n as int) =~= b@.take(n as int));
    }
    n
}

/// `(n+1)` raised to `k`: the weight of one path position in the search
/// order.
spec fn pow_np1(n: nat, k: nat) -> nat
    decreases k,
{
    if k == 0 {
        1
    } else {
        (n + 1) * pow_np1(n, (k - 1) as nat)
    }
}

/// The digit a path contributes at position `i`: its element plus one, or
/// zero past its end.
spec fn path_digit(p: Seq<usize>, i: int) -> nat {
    if 0 <= i < p.len() {
        (p[i] + 1) as nat
    } else {
        0
    }
}

/// The value of a path read as a base-`n+1` numeral of `n` digits, from
/// position `i` on.
spec fn path_val_from(p: Seq<usize>, n: nat, i: nat) -> nat
    decreases n - i,
{
    if i >= n {
        0
    } else {
        path_digit(p, i as int) * pow_np1(n, (n - i - 1) as nat) + path_val_from(p, n, i + 1)
    }
}

/// The value of a whole path: leaves are visited in increasing order of this
/// value.
spec fn path_val(p: Seq<usize>, n: nat) -> nat {
    path_val_from(p, n, 0)
}

/// All digits of a valid path are at most `n`.
spec fn path_digits_ok(p: Seq<usize>, n: nat) -> bool {
    p.len() <= n && forall|i: int| 0 <= i < p.len() ==> #[trigger] p[i] < n
}

/// A path value is bounded by the weight of its first position.
proof fn lemma_path_val_bound(p: Seq<usize>, n: nat, i: nat)
    requires
        path_digits_ok(p, n),
        i <= n,
    ensures
        path_val_from(p, n, i) < pow_np1(n, (n - i) as nat),
    decreases n - i,
{
    if i < n {
        lemma_path_val_bound(p, n, i + 1);
        let d = path_digit(p, i as int);
        let w = pow_np1(n, (n - i - 1) as nat);
        assert(d <= n);
        assert(path_val_from(p, n, i) == d * w + path_val_from(p, n, i + 1));
        assert(pow_np1(n, (n - i) as nat) == (n + 1) * w);
        assert(d * w <= n * w) by (nonlinear_arith)
            requires
                d <= n,
                w >= 0,
        ;
        assert(n * w + w == (n + 1) * w) by (nonlinear_arith);
    }
}

/// Weights are positive.
proof fn lemma_pow_pos(n: nat, k: nat)
    ensures
        pow_np1(n, k) >= 1,
    decreases k,
{
    if k > 0 {
        lemma_pow_pos(n, (k - 1) as nat);
        assert((n + 1) * pow_np1(n, (k - 1) as nat) >= pow_np1(n, (k - 1) as nat)) by (
        nonlinear_arith)
            requires
                pow_np1(n, (k - 1) as nat) >= 1,
        ;
    }
}

/// A path that diverges upward at a strictly larger element has a strictly
/// larger value.
proof fn lemma_path_val_increases(p: Seq<usize>, q: Seq<usize>, n: nat, l: int, i: nat)
    requires
        path_digits_ok(p, n),
        path_digits_ok(q, n),
        0 <= l < p.len(),
        l < q.len(),
        q.take(l) == p.take(l),
        q[l] > p[l],
        i <= l,
    ensures
        path_val_from(q, n, i) > path_val_from(p, n, i),
    decreases l - i,
{
    let w = pow_np1(n, (n - i - 1) as nat);
    assert(i < n);
    if i == l {
        lemma_path_val_bound(p, n, i + 1);
        lemma_path_val_bound(q, n, i + 1);
        lemma_pow_pos(n, (n - i - 1) as nat);
        let dp = path_digit(p, i as int);
        let dq = path_digit(q, i as int);
        assert(dq >= dp + 1);
        assert(path_val_from(p, n, i) == dp * w + path_val_from(p, n, i + 1));
        assert(path_val_from(q, n, i) == dq * w + path_val_from(q, n, i + 1));
        assert(dq * w >= dp * w + w) by (nonlinear_arith)
            requires
                dq >= dp + 1,
                w >= 0,
        ;
        assert(path_val_from(p, n, i + 1) < w);
    } else {
        lemma_path_val_increases(p, q, n, l, i + 1);
        assert(q.take(l)[i as int] == q[i as int]);
        assert(p.take(l)[i as int] == p[i as int]);
        assert(q[i as int] == p[i as int]);
        assert(path_digit(q, i as int) == path_digit(p, i as int));
    }
}

/// A well-formed node's path is a valid digit string: fewer entries than the
/// universe, each inside it.
proof fn lemma_node_path_ok(nd: &Node)
    requires
        nd.wf(),
        nd.n() >= 1,
    ensures
        path_digits_ok(nd.path@, nd.n() as nat),
{
    let bs = nd.coloring.coloring.bounds@;
    let n0 = nd.n();
    coloring::lemma_num_cuts(bs, n0);
    let d = nd.coloring.depth as int;
    assert(d <= cuts_at_most(bs, d).len());
    coloring::lemma_cuts_at_most_len(bs, d);
}

/// Computes the canonical form of `g` and a permutation realizing it: walks
/// the individualization tree depth first, interns the image of every leaf,
/// prunes a subtree when two leaves collide on the same image (the collision
/// witnesses an automorphism), and returns the minimum image with its
/// labeling.
pub fn canonize<G: Canonize>(g: &G) -> (r: (G::Image, Vec<usize>))
    requires
        g.universe() >= 1,
    ensures
        r.1@.len() == g.universe(),
        universe_permutation(r.1@),
        r.0 == g.spec_apply(r.1@),
{
    let mut cache = g.initialize_cache();
    let n = g.elements();
    let init = g.initial_coloring();
    let base = Coloring::from_map(&init);
    let mut rc = ReversibleColoring::from_coloring(base);
    g.refine_coloring(&mut cache, &mut rc);
    proof {
        assert forall|d2: int|
            0 <= d2 <= rc.depth implies d2 <= cuts_at_most(rc.coloring.bounds@, d2).len() by {}
    }
    let mut nd = Node::root(rc).into_first_child_leaf(g, &mut cache);
    let ghost n0 = g.universe();
    // Interned leaf images with the path and permutation that produced them.
    let mut images: Vec<(G::Image, Vec<usize>, Vec<usize>)> = Vec::new();
    loop
        invariant_except_break
            nd.wf(),
            nd.is_leaf(),
            nd.n() == n0,
        invariant
            n0 == g.universe(),
            n0 >= 1,
            forall|k: int|
                0 <= k < images@.len() ==> (#[trigger] images@[k].2@.len() == n0
                    && universe_permutation(images@[k].2@) && images@[k].0 == g.spec_apply(
                    images@[k].2@,
                )),
        ensures
            images@.len() >= 1,
            forall|k: int|
                0 <= k < images@.len() ==> (#[trigger] images@[k].2@.len() == n0
                    && universe_permutation(images@[k].2@) && images@[k].0 == g.spec_apply(
                    images@[k].2@,
                )),
        decreases pow_np1(n0 as nat, n0 as nat) - path_val(nd.path@, n0 as nat),
    {
        let ghost headpath = nd.path@;
        proof {
            lemma_node_path_ok(&nd);
            lemma_path_val_bound(headpath, n0 as nat, 0);
        }
        let perm = nd.coloring().as_permutation().unwrap().clone();
        proof {
            nd.coloring.lemma_discrete_reverse_is_permutation();
        }
        let img = g.apply_morphism(&perm);
        // Look for an earlier leaf with the same image.
        let mut found: Option<usize> = None;
        let mut k: usize = 0;
        while k < images.len()
            invariant
                k <= images@.len(),
                found is Some ==> found.unwrap() < images@.len(),
            decreases images@.len() - k,
        {
            if found.is_none() {
                let le1 = G::image_le(&img, &images[k].0);
                let le2 = G::image_le(&images[k].0, &img);
                if le1 && le2 {
                    found = Some(k);
                }
            }
            k = k + 1;
        }
        match found {
            Some(kf) => {
                // Automorphism found: skip the subtree below the divergence
                // of the two paths.
                let plen = nd.path.len();
                let prefix = longest_common_prefix_len(&nd.path, &images[kf].1);
                if prefix < plen {
                    nd.restore(plen - prefix - 1);
                }
            }
            None => {
                let path_copy = nd.path().clone();
                images.push((img, path_copy, perm));
            }
        }
        proof {
            assert(nd.path@.take(nd.path@.len() as int) =~= nd.path@);
        }
        match nd.into_next_leaf(g, &mut cache) {
            Some(next) => {
                proof {
                    lemma_node_path_ok(&next);
                    lemma_path_val_bound(next.path@, n0 as nat, 0);
                    assert(tree::dfs_successor(*g, nd, next));
                    let (l, anc, adv) = choose|
                        l: int,
                        anc: ReversibleColoring,
                        adv: tree::Node,
                    |
                        0 <= l < nd.path@.len() && l < next.path@.len() && next.path@.take(l)
                            == nd.path@.take(l) && next.path@[l] > nd.path@[l]
                            && #[trigger] coloring::succ_in_cell_at(
                            nd.coloring.coloring,
                            l,
                            nd.path@[l],
                            next.path@[l],
                        ) && (forall|j: int|
                            l < j < nd.path@.len() ==> coloring::max_of_cell_at(
                                nd.coloring.coloring,
                                j,
                                #[trigger] nd.path@[j],
                            )) && #[trigger] coloring::restored_to(nd.coloring, l, anc) && adv.wf()
                            && adv.path@ == next.path@.take(l + 1) && tree::refined_split_step(
                            *g,
                            anc,
                            adv.coloring,
                            next.path@[l],
                        ) && #[trigger] tree::min_descent(*g, adv, next);
                    assert(nd.path@.take(l) =~= headpath.take(l));
                    assert(nd.path@[l] == headpath[l]) by {
                        assert(nd.path@[l] == nd.path@.take(nd.path@.len() as int)[l]);
                    }
                    lemma_path_val_increases(
                        headpath,
                        next.path@,
                        n0 as nat,
                        l,
                        0,
                    );
                }
                nd = next;
            }
            None => {
                break;
            }
        }
    }
    // The minimum image is the canonical form.
    let mut best: usize = 0;
    let mut k: usize = 1;
    while k < images.len()
        invariant
            images@.len() >= 1,
            best < images@.len(),
            k <= images@.len(),
        decreases images@.len() - k,
    {
        let smaller = G::image_le(&images[k].0, &images[best].0);
        let back = G::image_le(&images[best].0, &images[k].0);
        if smaller && !back {
            best = k;
        }
        k = k + 1;
    }
    let (img, _path, perm) = images.swap_remove(best);
    (img, perm)
}

/// The canonical form of `g` alone.
pub fn canonical_form<G: Canonize>(g: &G) -> (r: G::Image)
    requires
        g.universe() >= 1,
    ensures
        exists|perm: Seq<usize>|
            perm.len() == g.universe() && universe_permutation(perm) && r == #[trigger] g.spec_apply(
                perm,
            ),
{
    let (img, perm) = canonize(g);
    proof {
        assert(img == g.spec_apply(perm@));
    }
    img
}

/// A canonical labeling of `g` alone.
pub fn canonical_permutation<G: Canonize>(g: &G) -> (r: Vec<usize>)
    requires
        g.universe() >= 1,
    ensures
        r@.len() == g.universe(),
        universe_permutation(r@),
{
    canonize(g).1
}

} // verus!
