//! Undirected graphs over `usize` vertices: a dense adjacency-matrix form
//! and a sparse adjacency-list form, behind one trait.

use vstd::prelude::*;
use vstd::std_specs::iter::IteratorSpec;
use std::collections::{HashMap, HashSet};

verus! {

/// An undirected graph. The spec functions give the abstract edge relation,
/// a finite vertex bound for traversals, and the domains on which the
/// methods may be called.
pub trait Graph: Sized {
    /// The structural invariant of the representation.
    spec fn wf(&self) -> bool;

    /// The vertices the methods accept as arguments.
    spec fn valid(&self, v: usize) -> bool;

    /// The abstract edge relation.
    spec fn edge(&self, a: usize, b: usize) -> bool;

    /// A finite set containing every endpoint of an edge.
    spec fn vertices(&self) -> Set<usize>;

    /// When an edge may be added.
    spec fn can_add(&self, w: usize, v: usize) -> bool;

    /// What `num_vertices` returns.
    spec fn spec_num_vertices(&self) -> int;

    /// What `num_edges` returns.
    spec fn spec_num_edges(&self) -> int;

    /// The vertex bound is finite and closed under the edge relation.
    proof fn lemma_wf_props(&self)
        requires
            self.wf(),
        ensures
            self.vertices().finite(),
            forall|a: usize, b: usize|
                #[trigger] self.edge(a, b) ==> self.vertices().contains(a)
                    && self.vertices().contains(b) && self.valid(a) && self.valid(b),
    ;

    fn num_vertices(&self) -> (r: usize)
        requires
            self.wf(),
        ensures
            r == self.spec_num_vertices(),
    ;

    fn num_edges(&self) -> (r: usize)
        requires
            self.wf(),
        ensures
            r == self.spec_num_edges(),
    ;

    fn add_edge(&mut self, w: usize, v: usize)
        requires
            old(self).wf(),
            old(self).can_add(w, v),
        ensures
            final(self).wf(),
            forall|a: usize, b: usize|
                #[trigger] final(self).edge(a, b) <==> (old(self).edge(a, b) || (a == w && b == v)
                    || (a == v && b == w)),
            forall|x: usize| #[trigger] final(self).valid(x) == old(self).valid(x),
            final(self).vertices() == old(self).vertices().insert(w).insert(v),
    ;

    /// All vertices at most one edge away from `w`.
    fn adjacent(&self, w: usize) -> (r: HashSet<usize>)
        requires
            self.wf(),
            self.valid(w),
        ensures
            forall|v: usize| #[trigger] r@.contains(v) <==> self.edge(w, v),
    ;
}

/// Reads a hash set out into a vector of its elements, in some order.
pub(crate) fn set_elems(s: &HashSet<usize>) -> (out: Vec<usize>)
    ensures
        out@.to_set() == s@,
        out@.no_duplicates(),
        out@.len() == s@.len(),
        s@.finite(),
{
    let mut out: Vec<usize> = Vec::new();
    let ghost gseq = vstd::std_specs::hash::spec_hash_keys_iter(s).remaining();
    for x in it: s.iter()
        invariant
            it.seq() == gseq,
            gseq.unref().to_set() == s@,
            gseq.no_duplicates(),
            gseq.len() == s@.len(),
            out@.len() == it.index(),
            forall|j: int| 0 <= j < out@.len() ==> out@[j] == *gseq[j],
    {
        out.push(*x);
    }
    proof {
        assert(out@ =~= gseq.unref());
        assert(out@.to_set() =~= s@);
        assert forall|i: int, j: int|
            0 <= i < out@.len() && 0 <= j < out@.len() && i != j implies out@[i] != out@[j] by {
            assert(gseq[i] != gseq[j]);
        }
    }
    out
}

/// The set of `usize` values below `n` is finite.
proof fn lemma_usize_below_finite(n: usize)
    ensures
        Set::new(|x: usize| x < n).finite(),
        Set::new(|x: usize| x < n).len() == n,
    decreases n,
{
    if n == 0 {
        assert(Set::new(|x: usize| x < n) =~= Set::<usize>::empty());
    } else {
        lemma_usize_below_finite((n - 1) as usize);
        assert(Set::new(|x: usize| x < n) =~= Set::new(|x: usize| x < (n - 1) as usize).insert(
            (n - 1) as usize,
        ));
    }
}

/// An undirected graph backed by an n-by-n boolean matrix, preallocated.
pub struct UndirectedDenseGraph {
    pub num_vertices: usize,
    pub num_edges: usize,
    pub data: Vec<Vec<bool>>,
}

impl UndirectedDenseGraph {
    pub fn new(num_vertices: usize) -> (g: Self)
        ensures
            g.wf(),
            g.num_vertices == num_vertices,
            g.num_edges == 0,
            forall|a: usize, b: usize| !g.edge(a, b),
    {
        let mut data: Vec<Vec<bool>> = Vec::new();
        while data.len() < num_vertices
            invariant
                data@.len() <= num_vertices,
                forall|i: int|
                    0 <= i < data@.len() ==> (#[trigger] data@[i])@.len() == num_vertices,
                forall|i: int, j: int|
                    0 <= i < data@.len() && 0 <= j < num_vertices ==> !(#[trigger] data@[i]@[j]),
            decreases num_vertices - data@.len(),
        {
            let mut row: Vec<bool> = Vec::new();
            while row.len() < num_vertices
                invariant
                    row@.len() <= num_vertices,
                    forall|j: int| 0 <= j < row@.len() ==> !row@[j],
                decreases num_vertices - row@.len(),
            {
                row.push(false);
            }
            data.push(row);
        }

        Self { num_vertices, num_edges: 0, data }
    }
}

impl Graph for UndirectedDenseGraph {
    open spec fn wf(&self) -> bool {
        &&& self.data@.len() == self.num_vertices
        &&& forall|i: int|
            0 <= i < self.data@.len() ==> (#[trigger] self.data@[i])@.len() == self.num_vertices
    }

    open spec fn valid(&self, v: usize) -> bool {
        v < self.num_vertices
    }

    open spec fn edge(&self, a: usize, b: usize) -> bool {
        a < self.num_vertices && b < self.num_vertices && self.data@[a as int]@[b as int]
    }

    open spec fn vertices(&self) -> Set<usize> {
        Set::new(|x: usize| x < self.num_vertices)
    }

    open spec fn can_add(&self, w: usize, v: usize) -> bool {
        w < self.num_vertices && v < self.num_vertices && self.num_edges < usize::MAX
    }

    open spec fn spec_num_vertices(&self) -> int {
        self.num_vertices as int
    }

    open spec fn spec_num_edges(&self) -> int {
        self.num_edges as int
    }

    proof fn lemma_wf_props(&self) {
        lemma_usize_below_finite(self.num_vertices);
    }

    fn num_vertices(&self) -> usize {
        self.num_vertices
    }

    fn num_edges(&self) -> usize {
        self.num_edges
    }

    fn add_edge(&mut self, w: usize, v: usize) {
        self.data[w][v] = true;
        self.data[v][w] = true;
        self.num_edges = self.num_edges + 1;
        proof {
            assert(self.vertices() =~= old(self).vertices().insert(w).insert(v));
        }
    }

    fn adjacent(&self, w: usize) -> (r: HashSet<usize>)
    {
        let mut r: HashSet<usize> = HashSet::new();
        let mut v: usize = 0;
        while v < self.num_vertices
            invariant
                self.wf(),
                w < self.num_vertices,
                v <= self.num_vertices,
                forall|x: usize| #[trigger] r@.contains(x) <==> (x < v && self.edge(w, x)),
            decreases self.num_vertices - v,
        {
            if self.data[w][v] {
                r.insert(v);
            }
            v = v + 1;
        }
        r
    }
}

/// An undirected graph backed by an adjacency-list map.
pub struct UndirectedSparseGraph {
    pub data: HashMap<usize, HashSet<usize>>,
}

impl UndirectedSparseGraph {
    pub fn new() -> (g: Self)
        ensures
            g.wf(),
            g.data@ == Map::<usize, HashSet<usize>>::empty(),
            forall|a: usize, b: usize| !g.edge(a, b),
    {
        let g = Self { data: HashMap::new() };
        proof {
            assert(g.vertices() =~= Set::<usize>::empty());
        }
        g
    }

    /// The union of all adjacency sets.
    pub open spec fn neighbor_union(&self) -> Set<usize> {
        Set::new(
            |x: usize|
                exists|k: usize| #[trigger]
                    self.data@.contains_key(k) && self.data@[k]@.contains(x),
        )
    }
}

impl Graph for UndirectedSparseGraph {
    open spec fn wf(&self) -> bool {
        &&& forall|k: usize| #[trigger]
            self.data@.contains_key(k) ==> exists|x: usize| self.data@[k]@.contains(x)
        &&& self.vertices().finite()
    }

    open spec fn valid(&self, v: usize) -> bool {
        true
    }

    open spec fn edge(&self, a: usize, b: usize) -> bool {
        self.data@.contains_key(a) && self.data@[a]@.contains(b)
    }

    open spec fn vertices(&self) -> Set<usize> {
        Set::new(|x: usize| self.data@.contains_key(x) || self.neighbor_union().contains(x))
    }

    open spec fn can_add(&self, w: usize, v: usize) -> bool {
        true
    }

    open spec fn spec_num_vertices(&self) -> int {
        self.data@.dom().len() as int
    }

    open spec fn spec_num_edges(&self) -> int {
        if self.data@.dom().len() == 0 {
            0
        } else {
            self.neighbor_union().len() - 1
        }
    }

    proof fn lemma_wf_props(&self) {
        assert forall|a: usize, b: usize| #[trigger]
            self.edge(a, b) implies self.vertices().contains(a) && self.vertices().contains(b)
            && self.valid(a) && self.valid(b) by {
            assert(self.data@.contains_key(a) && self.data@[a]@.contains(b));
            assert(self.neighbor_union().contains(b));
        }
    }

    fn num_vertices(&self) -> usize {
        self.data.len()
    }

    fn num_edges(&self) -> (r: usize)
    {
        if self.data.is_empty() {
            return 0;
        }
        let mut temp: HashSet<usize> = HashSet::new();
        let ghost gseq = vstd::std_specs::hash::spec_hash_map_iter(&self.data).remaining();
        for pair in it: self.data.iter()
            invariant
                it.seq() == gseq,
                temp@.finite(),
                forall|x: usize| #[trigger]
                    temp@.contains(x) <==> exists|j: int|
                        0 <= j < it.index() && (#[trigger] gseq[j]).1@.contains(x),
        {
            let elems = set_elems(pair.1);
            let ghost temp_before = temp@;
            let mut e: usize = 0;
            while e < elems.len()
                invariant
                    e <= elems@.len(),
                    elems@.to_set() == pair.1@,
                    temp@.finite(),
                    forall|x: usize| #[trigger]
                        temp@.contains(x) <==> (temp_before.contains(x) || exists|j: int|
                            0 <= j < e && elems@[j] == x),
                decreases elems@.len() - e,
            {
                temp.insert(elems[e]);
                e = e + 1;
            }
            proof {
                assert forall|x: usize| #[trigger] temp@.contains(x) implies (
                temp_before.contains(x) || pair.1@.contains(x)) by {
                    if !temp_before.contains(x) {
                        let j = choose|j: int| 0 <= j < elems@.len() && elems@[j] == x;
                        assert(elems@.to_set().contains(x));
                    }
                }
                assert forall|x: usize| temp_before.contains(x) || pair.1@.contains(
                    x,
                ) implies temp@.contains(x) by {
                    if pair.1@.contains(x) {
                        assert(elems@.to_set().contains(x));
                        let j = choose|j: int| 0 <= j < elems@.len() && elems@[j] == x;
                    }
                }
            }
        }
        proof {
            let m = self.data@;
            let sq = gseq;
            assert forall|x: usize| #[trigger] temp@.contains(x) implies self.neighbor_union()
                .contains(x) by {
                let j = choose|j: int| 0 <= j < sq.len() && (#[trigger] sq[j]).1@.contains(x);
                assert(m.contains_key(*sq[j].0) && m[*sq[j].0] == *sq[j].1);
            }
            assert forall|x: usize| self.neighbor_union().contains(x) implies temp@.contains(
                x,
            ) by {
                let k = choose|k: usize| #[trigger] m.contains_key(k) && m[k]@.contains(x);
                assert(sq.contains((&k, &m[k])));
                let j = choose|j: int| 0 <= j < sq.len() && sq[j] == (&k, &m[k]);
            }
            assert(temp@ =~= self.neighbor_union());
            // The union is not empty: some key exists, and its set is not empty.
            assert(exists|k: usize| m.dom().contains(k)) by {
                if !(exists|k: usize| m.dom().contains(k)) {
                    assert(m.dom() =~= Set::<usize>::empty());
                }
            }
            let k0 = m.dom().choose();
            assert(m.contains_key(k0));
            let x0 = choose|x: usize| m[k0]@.contains(x);
            assert(temp@.contains(x0));
            if temp@.len() == 0 {
                temp@.lemma_len0_is_empty();
            }
        }
        temp.len() - 1
    }

    fn add_edge(&mut self, w: usize, v: usize) {
        let ghost g0 = *self;
        let mut s = match self.data.remove(&w) {
            Some(s) => s,
            None => HashSet::new(),
        };
        s.insert(v);
        self.data.insert(w, s);
        let ghost g1 = *self;
        let mut t = match self.data.remove(&v) {
            Some(t) => t,
            None => HashSet::new(),
        };
        t.insert(w);
        self.data.insert(v, t);
        proof {
            let m0 = g0.data@;
            let m1 = g1.data@;
            let m2 = self.data@;
            assert(m1 == m0.insert(w, s));
            assert forall|a: usize, b: usize| #[trigger]
                self.edge(a, b) <==> (g0.edge(a, b) || (a == w && b == v) || (a == v && b
                == w)) by {
                if a == v {
                } else if a == w {
                } else {
                    assert(m2.contains_key(a) == m0.contains_key(a));
                    assert(m2.contains_key(a) ==> m2[a] == m0[a]);
                }
            }
            // Well-formedness: every adjacency set stays nonempty.
            assert forall|k: usize| #[trigger] m2.contains_key(k) implies exists|x: usize|
                m2[k]@.contains(x) by {
                if k == v {
                    assert(m2[k]@.contains(w));
                } else if k == w {
                    assert(m2[k]@.contains(v));
                } else {
                    assert(m0.contains_key(k) && m2[k] == m0[k]);
                    let x = choose|x: usize| m0[k]@.contains(x);
                    assert(m2[k]@.contains(x));
                }
            }
            // The vertex set gains exactly w and v.
            assert forall|x: usize| self.vertices().contains(x) implies g0.vertices().insert(
                w,
            ).insert(v).contains(x) by {
                if x != w && x != v {
                    if m2.contains_key(x) {
                        assert(m0.contains_key(x));
                    } else {
                        let k = choose|k: usize| #[trigger]
                            m2.contains_key(k) && m2[k]@.contains(x);
                        if k == v {
                            if m0.contains_key(v) {
                                assert(m0[v]@.contains(x));
                                assert(g0.neighbor_union().contains(x));
                            } else {
                                assert(m2[v]@ =~= (if m1.contains_key(v) {
                                    m1[v]@
                                } else {
                                    Set::<usize>::empty()
                                }).insert(w));
                                assert(false);
                            }
                        } else if k == w {
                            if m0.contains_key(w) {
                                assert(m0[w]@.contains(x));
                                assert(g0.neighbor_union().contains(x));
                            } else {
                                assert(false);
                            }
                        } else {
                            assert(m0.contains_key(k) && m0[k]@.contains(x));
                            assert(g0.neighbor_union().contains(x));
                        }
                    }
                }
            }
            assert forall|x: usize| g0.vertices().insert(w).insert(v).contains(
                x,
            ) implies self.vertices().contains(x) by {
                if x == w || x == v {
                    assert(m2.contains_key(x));
                } else {
                    if m0.contains_key(x) {
                        assert(m2.contains_key(x));
                    } else {
                        let k = choose|k: usize| #[trigger]
                            m0.contains_key(k) && m0[k]@.contains(x);
                        if k == w {
                            assert(m2.contains_key(v) && m2.contains_key(w));
                            if w == v {
                                assert(m2[w]@.contains(x));
                            } else {
                                assert(m2[w] == m1[w]);
                                assert(m1[w]@.contains(x));
                            }
                            assert(self.neighbor_union().contains(x));
                        } else if k == v {
                            assert(m2[v]@.contains(x));
                            assert(self.neighbor_union().contains(x));
                        } else {
                            assert(m2.contains_key(k) && m2[k]@.contains(x));
                            assert(self.neighbor_union().contains(x));
                        }
                    }
                }
            }
            assert(self.vertices() =~= g0.vertices().insert(w).insert(v));
        }
    }

    fn adjacent(&self, w: usize) -> (r: HashSet<usize>)
    {
        match self.data.get(&w) {
            Some(set) => {
                let elems = set_elems(set);
                let mut r: HashSet<usize> = HashSet::new();
                let mut e: usize = 0;
                while e < elems.len()
                    invariant
                        e <= elems@.len(),
                        elems@.to_set() == set@,
                        forall|x: usize| #[trigger]
                            r@.contains(x) <==> exists|j: int| 0 <= j < e && elems@[j] == x,
                    decreases elems@.len() - e,
                {
                    r.insert(elems[e]);
                    e = e + 1;
                }
                proof {
                    assert forall|x: usize| #[trigger] r@.contains(x) <==> self.edge(w, x) by {
                        if r@.contains(x) {
                            let j = choose|j: int| 0 <= j < elems@.len() && elems@[j] == x;
                            assert(elems@.to_set().contains(x));
                        }
                        if self.edge(w, x) {
                            assert(elems@.to_set().contains(x));
                            let j = choose|j: int| 0 <= j < elems@.len() && elems@[j] == x;
                        }
                    }
                }
                r
            },
            None => {
                let r = HashSet::new();
                proof {
                    assert(forall|x: usize| !(#[trigger] r@.contains(x)));
                }
                r
            },
        }
    }
}

} // verus!
