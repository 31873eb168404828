use canonical::coloring::ReversibleColoring;
use canonical::{canonize, Canonize};
use std::collections::{BTreeMap, BTreeSet};
use rand::Rng;
use rand::seq::SliceRandom;
use Term::{Value, Var};

/// A term of a generalized triple: a ground value or a permutable variable.
#[derive(Clone, Copy, PartialEq, Eq, PartialOrd, Ord, Debug)]
pub enum Term<T> {
    Value(T),
    Var(usize),
}

impl<T: Copy> Term<T> {
    fn apply_morphism<F>(&self, f: F) -> Self
    where
        F: Fn(usize) -> usize,
    {
        match self {
            Self::Value(v) => Self::Value(*v),
            Self::Var(x) => Self::Var(f(*x)),
        }
    }
}

pub type Triple<T> = (Term<T>, Term<T>, Term<T>);

/// A scoped generalized graph: a set of triples over values and variables
/// `0..variable_count`.
#[derive(Clone, PartialEq, Eq, PartialOrd, Ord, Debug)]
pub struct Graph<T: Copy + Ord> {
    graph: BTreeSet<Triple<T>>,
    variable_count: usize,
}

/// The pattern of one triple as seen from one of its variables.
#[derive(Clone, Copy, PartialEq, Eq, PartialOrd, Ord, Debug)]
pub enum Color<T> {
    XXX,
    XYY,
    YXY,
    YYX,
    XXY,
    XYX,
    YXX,
    XYZ,
    YXZ,
    YZX,
    XXV(T),
    XVX(T),
    VXX(T),
    XYV(T),
    XVY(T),
    YXV(T),
    VXY(T),
    YVX(T),
    VYX(T),
    XVV(T, T),
    VXV(T, T),
    VVX(T, T),
}

impl<T: Copy + Ord> Graph<T> {
    /// Number of permutable variables.
    fn variable_count(&self) -> usize {
        self.variable_count
    }

    /// The sorted pattern list of every variable.
    fn variable_colors(&self) -> Vec<Vec<Color<T>>> {
        let mut colors: Vec<Vec<Color<T>>> = vec![Vec::new(); self.variable_count];
        for &(s, p, o) in &self.graph {
            match (s, p, o) {
                (Var(x), Var(y), Var(z)) if x == y && y == z => colors[x].push(Color::XXX),
                (Var(x), Var(y), Var(z)) if x == y => {
                    colors[x].push(Color::XXY);
                    colors[z].push(Color::YYX)
                }
                (Var(x), Var(y), Var(z)) if y == z => {
                    colors[x].push(Color::XYY);
                    colors[z].push(Color::YXX)
                }
                (Var(x), Var(y), Var(z)) if x == z => {
                    colors[x].push(Color::XYX);
                    colors[y].push(Color::YXY)
                }
                (Var(x), Var(y), Var(z)) => {
                    colors[x].push(Color::XYZ);
                    colors[y].push(Color::YXZ);
                    colors[z].push(Color::YZX);
                }
                (Var(x), Var(y), Value(a)) if x == y => colors[x].push(Color::XXV(a)),
                (Var(x), Value(a), Var(y)) if x == y => colors[x].push(Color::XVX(a)),
                (Value(a), Var(x), Var(y)) if x == y => colors[x].push(Color::VXX(a)),
                (Var(x), Var(y), Value(a)) => {
                    colors[x].push(Color::XYV(a));
                    colors[y].push(Color::YXV(a))
                }
                (Var(x), Value(a), Var(y)) => {
                    colors[x].push(Color::XVY(a));
                    colors[y].push(Color::YVX(a))
                }
                (Value(a), Var(x), Var(y)) => {
                    colors[x].push(Color::VXY(a));
                    colors[y].push(Color::VYX(a))
                }
                (Var(x), Value(a), Value(b)) => colors[x].push(Color::XVV(a, b)),
                (Value(a), Var(x), Value(b)) => colors[x].push(Color::VXV(a, b)),
                (Value(a), Value(b), Var(x)) => colors[x].push(Color::VVX(a, b)),
                (Value(_), Value(_), Value(_)) => (),
            }
        }
        for c in &mut colors {
            c.sort_unstable();
        }
        colors
    }
}

pub struct Cache {
    stack: Vec<usize>,
    map: Vec<u64>,
    neighbors: Vec<Vec<usize>>,
}

impl<T: Copy + Ord> Canonize for Graph<T> {
    type Image = Graph<T>;
    type Cache = Cache;

    fn elements(&self) -> usize {
        self.variable_count
    }

    fn initialize_cache(&self) -> Cache {
        let mut sets: Vec<BTreeSet<usize>> = vec![BTreeSet::new(); self.variable_count];
        for &(s, p, o) in &self.graph {
            let mut vars: Vec<usize> = Vec::new();
            if let Var(x) = s {
                vars.push(x);
            }
            if let Var(y) = p {
                vars.push(y);
            }
            if let Var(z) = o {
                vars.push(z);
            }
            for &a in &vars {
                for &b in &vars {
                    if a != b {
                        sets[a].insert(b);
                    }
                }
            }
        }
        Cache {
            stack: Vec::new(),
            map: vec![0; self.variable_count],
            neighbors: sets.into_iter().map(|s| s.into_iter().collect()).collect(),
        }
    }

    fn initial_coloring(&self) -> Vec<u64> {
        // Rank the pattern list of each variable.
        let colors = self.variable_colors();
        let mut ranks: BTreeMap<&Vec<Color<T>>, u64> = BTreeMap::new();
        let mut sorted: Vec<&Vec<Color<T>>> = colors.iter().collect();
        sorted.sort();
        for c in sorted {
            let next = ranks.len() as u64;
            ranks.entry(c).or_insert(next);
        }
        colors.iter().map(|c| ranks[c]).collect()
    }

    fn refine_coloring(&self, cache: &mut Cache, coloring: &mut ReversibleColoring) {
        let Cache { stack, map, neighbors } = cache;
        coloring.make_equitable_with(stack, map, neighbors)
    }

    fn apply_morphism(&self, perm: &Vec<usize>) -> Graph<T> {
        let mut morphed = BTreeSet::new();
        for &(s, p, o) in &self.graph {
            morphed.insert((
                s.apply_morphism(|x| perm[x]),
                p.apply_morphism(|x| perm[x]),
                o.apply_morphism(|x| perm[x]),
            ));
        }
        Graph { graph: morphed, variable_count: self.variable_count }
    }

    fn image_le(a: &Graph<T>, b: &Graph<T>) -> bool {
        a <= b
    }
}

fn make_graph<T: Copy + Ord, I: IntoIterator<Item = Triple<T>>>(
    variable_count: usize,
    triples: I,
) -> Graph<T> {
    Graph { graph: triples.into_iter().collect(), variable_count }
}

fn make_random_graph(variable_count: usize, max_len: usize) -> Graph<bool> {
    fn random_term(variable_count: usize) -> Term<bool> {
        if rand::random::<bool>() {
            Term::Var(rand::thread_rng().gen_range(0..variable_count))
        } else {
            Term::Value(rand::random::<bool>())
        }
    }

    make_graph(
        variable_count,
        (0..max_len).map(|_| {
            (
                random_term(variable_count),
                random_term(variable_count),
                random_term(variable_count),
            )
        }),
    )
}

fn random_morphism<T: Copy + Ord>(graph: &Graph<T>) -> Graph<T> {
    let mut morphism: Vec<usize> = (0..graph.variable_count).collect();
    morphism.shuffle(&mut rand::thread_rng());
    graph.apply_morphism(&morphism)
}

#[test]
fn simple_no_automorphism() {
    let a: Graph<bool> = make_graph(3, [(Var(0), Var(1), Var(2))]);
    let b: Graph<bool> = make_graph(3, [(Var(2), Var(1), Var(0))]);

    assert_eq!(canonize(&a).0, canonize(&b).0)
}

#[test]
fn simple_automorphism() {
    let a: Graph<bool> = make_graph(
        3,
        [(Var(0), Var(1), Var(2)), (Var(1), Var(0), Var(2))],
    );
    let b: Graph<bool> = make_graph(
        3,
        [(Var(2), Var(1), Var(0)), (Var(1), Var(2), Var(0))],
    );

    assert_eq!(canonize(&a).0, canonize(&b).0)
}

fn test_random(variable_count: usize, max_len: usize) {
    for _ in 0..100 {
        let a = make_random_graph(variable_count, max_len);
        let canonized_a = canonize(&a).0;

        for _ in 0..10 {
            let b = random_morphism(&a);
            assert_eq!(canonized_a, canonize(&b).0)
        }
    }
}

/// Test that two random graphs do not have the same normal form in general.
///
/// In theory, this test may fail even if the code is correct,
/// but with a very low probability.
fn test_random_negative(variable_count: usize, max_len: usize) {
    for _ in 0..100 {
        let a = make_random_graph(variable_count, max_len);
        let b = make_random_graph(variable_count, max_len);

        if canonize(&a).0 != canonize(&b).0 {
            return; // success
        }
    }

    assert!(false)
}

#[test]
fn random_3_10() {
    test_random(3, 10)
}

#[test]
fn random_3_10_neg() {
    test_random_negative(3, 10)
}

#[test]
fn random_5_10() {
    test_random(5, 10)
}

#[test]
fn random_5_10_neg() {
    test_random_negative(5, 10)
}

#[test]
fn random_5_100() {
    test_random(5, 100)
}

#[test]
fn random_5_100_neg() {
    test_random_negative(5, 100)
}

#[test]
fn random_10_100() {
    test_random(10, 100)
}

#[test]
fn random_10_100_neg() {
    test_random_negative(10, 100)
}

#[test]
fn random_50_100() {
    test_random(50, 100)
}

#[test]
fn random_50_100_neg() {
    test_random_negative(50, 100)
}

/// A graph searched from the unit coloring with no refinement hook: every
/// labeling of the universe is then reachable as a leaf.
struct PlainGraph(Graph<bool>);

impl Canonize for PlainGraph {
    type Image = Graph<bool>;
    type Cache = ();

    fn elements(&self) -> usize {
        self.0.variable_count()
    }

    fn initialize_cache(&self) -> () {
        ()
    }

    fn initial_coloring(&self) -> Vec<u64> {
        vec![0; self.0.variable_count()]
    }

    fn refine_coloring(&self, _cache: &mut (), _coloring: &mut ReversibleColoring) {}

    fn apply_morphism(&self, perm: &Vec<usize>) -> Graph<bool> {
        self.0.apply_morphism(perm)
    }

    fn image_le(a: &Graph<bool>, b: &Graph<bool>) -> bool {
        a <= b
    }
}

/// Over an exhaustive search, the canonical image is minimal among the images
/// of all relabelings.
#[test]
fn canonical_image_is_minimum() {
    for _ in 0..20 {
        let a = make_random_graph(5, 10);
        let (image, _) = canonize(&PlainGraph(a.clone()));
        for _ in 0..20 {
            let b = random_morphism(&a);
            assert!(image <= b);
        }
    }
}

/// The returned permutation maps the graph to the returned image.
#[test]
fn canonical_witness_applies() {
    for _ in 0..50 {
        let a = make_random_graph(6, 12);
        let (image, perm) = canonize(&a);
        assert_eq!(a.apply_morphism(&perm), image);
    }
}

/// Repeated canonization of one input returns identical output.
#[test]
fn canonize_deterministic() {
    for _ in 0..20 {
        let a = make_random_graph(6, 12);
        let first = canonize(&a);
        let second = canonize(&a);
        assert_eq!(first, second);
    }
}
