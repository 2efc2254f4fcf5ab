//! Breadth-first search for a path between two vertices of a graph.

use vstd::prelude::*;
use std::collections::{HashMap, HashSet};
use crate::graph::Graph;
use crate::graph::set_elems;

verus! {

/// Consecutive elements of `p` are joined by edges of `g`.
pub open spec fn is_path<G: Graph>(g: &G, p: Seq<usize>) -> bool {
    forall|i: int| 0 <= i < p.len() - 1 ==> g.edge(#[trigger] p[i], p[i + 1])
}

/// Some walk of `g` leads from `s` to `d`.
pub open spec fn reachable<G: Graph>(g: &G, s: usize, d: usize) -> bool {
    exists|p: Seq<usize>|
        p.len() >= 1 && p.first() == s && p.last() == d && #[trigger] is_path(g, p)
}

/// A set that contains `s` and is closed under the edges of `g` contains the
/// end of every walk out of `s`.
proof fn lemma_closed_under_edges<G: Graph>(g: &G, s: usize, closed: Set<usize>, p: Seq<usize>)
    requires
        closed.contains(s),
        p.len() >= 1,
        p.first() == s,
        is_path(g, p),
        forall|u: usize, v: usize| closed.contains(u) && #[trigger] g.edge(u, v) ==> closed.contains(v),
    ensures
        closed.contains(p.last()),
    decreases p.len(),
{
    if p.len() > 1 {
        let q = p.drop_last();
        assert(is_path(g, q)) by {
            assert(forall|i: int| 0 <= i < q.len() - 1 ==> g.edge(#[trigger] q[i], q[i + 1]));
        }
        lemma_closed_under_edges(g, s, closed, q);
        assert(g.edge(p[p.len() - 2], p[p.len() - 1]));
    }
}

/// Finds a path from `source` to `destination` by breadth-first search.
/// Returns a path whose consecutive vertices are joined by edges, or `None`
/// when the destination is not reachable; the search never reports a path
/// from a vertex to itself.
pub fn path_to<T: Graph>(graph: &T, source: usize, destination: usize) -> (r: Option<Vec<usize>>)
    requires
        graph.wf(),
        graph.valid(source),
    ensures
        r matches Some(p) ==> p@.len() >= 2 && p@.first() == source && p@.last() == destination
            && is_path(graph, p@),
        r is Some <==> (destination != source && reachable(graph, source, destination)),
{
    let ghost verts = graph.vertices().insert(source);
    proof {
        graph.lemma_wf_props();
    }

    let mut queue: Vec<usize> = Vec::new();
    let mut incident_edge: HashMap<usize, usize> = HashMap::new();
    let mut seen: HashSet<usize> = HashSet::new();

    let ghost mut rank: Map<usize, int> = Map::empty();
    let ghost mut counter: int = 0;

    queue.push(source);

    while queue.len() > 0
        invariant
            graph.wf(),
            graph.valid(source),
            verts == graph.vertices().insert(source),
            verts.finite(),
            forall|a: usize, b: usize|
                #[trigger] graph.edge(a, b) ==> graph.vertices().contains(a)
                    && graph.vertices().contains(b) && graph.valid(a) && graph.valid(b),
            seen@.finite(),
            forall|i: int|
                0 <= i < queue@.len() ==> verts.contains(#[trigger] queue@[i]) && graph.valid(
                    queue@[i],
                ),
            forall|i: int|
                0 <= i < queue@.len() ==> (#[trigger] queue@[i] == source
                    || incident_edge@.contains_key(queue@[i])),
            !incident_edge@.contains_key(source),
            forall|k: usize|
                #[trigger] incident_edge@.contains_key(k) ==> graph.edge(incident_edge@[k], k),
            forall|k: usize|
                #[trigger] incident_edge@.contains_key(k) ==> seen@.contains(incident_edge@[k]),
            forall|v: usize|
                #[trigger] seen@.contains(v) ==> (v == source || incident_edge@.contains_key(v)),
            forall|v: usize| #[trigger] seen@.contains(v) ==> verts.contains(v),
            forall|k: usize|
                #[trigger] incident_edge@.contains_key(k) ==> (seen@.contains(k)
                    || queue@.contains(k)),
            forall|u: usize, v: usize|
                seen@.contains(u) && #[trigger] graph.edge(u, v) ==> (v == source
                    || incident_edge@.contains_key(v)),
            seen@.contains(source) || (queue@ =~= seq![source] && seen@ =~= Set::<usize>::empty()
                && incident_edge@.dom() =~= Set::<usize>::empty()),
            rank.dom() == seen@,
            counter >= 0,
            forall|v: usize| #[trigger] rank.dom().contains(v) ==> 0 <= rank[v] < counter,
            forall|k: usize|
                #[trigger] incident_edge@.contains_key(k) && seen@.contains(k) ==> rank[
                    incident_edge@[k]] < rank[k],
        decreases
                verts.difference(seen@).len(),
                queue@.filter(|v: usize| seen@.contains(v)).len(),
    {
        let ghost q0 = queue@;
        let ghost seen0 = seen@;
        let current = queue.pop().unwrap();
        let ghost was_seen = seen0.contains(current);
        seen.insert(current);
        proof {
            if !was_seen {
                rank = rank.insert(current, counter);
                counter = counter + 1;
            } else {
                assert(seen@ =~= seen0);
            }
            assert(rank.dom() =~= seen@);
        }

        let neigh = graph.adjacent(current);
        let elems = set_elems(&neigh);
        let ghost qdl = q0.drop_last();

        proof {
            // A parented vertex stays seen or queued after the pop: only the
            // popped occurrence left the queue, and that vertex is now seen.
            assert forall|k: usize|
                #[trigger] incident_edge@.contains_key(k) implies (seen@.contains(k)
                || queue@.contains(k)) by {
                if !seen@.contains(k) {
                    assert(q0.contains(k));
                    let idx = choose|idx: int| 0 <= idx < q0.len() && q0[idx] == k;
                    if idx == q0.len() - 1 {
                        assert(k == current);
                    } else {
                        assert(queue@[idx] == k);
                    }
                }
            }
            // The unseen part of the vertex bound does not grow.
            vstd::set_lib::lemma_set_subset_finite(verts, verts.difference(seen0));
            vstd::set_lib::lemma_set_subset_finite(verts, verts.difference(seen@));
            vstd::set_lib::lemma_len_subset(verts.difference(seen@), verts.difference(seen0));
            if !was_seen {
                assert(verts.contains(current)) by {
                    assert(q0[q0.len() - 1] == current);
                }
                assert(verts.difference(seen@) =~= verts.difference(seen0).remove(current));
                assert(verts.difference(seen0).contains(current));
            }
        }

        let mut i: usize = 0;
        while i < elems.len()
            invariant
                graph.wf(),
                graph.valid(source),
                verts == graph.vertices().insert(source),
                verts.finite(),
                forall|a: usize, b: usize|
                    #[trigger] graph.edge(a, b) ==> graph.vertices().contains(a)
                        && graph.vertices().contains(b) && graph.valid(a) && graph.valid(b),
                seen@.finite(),
                i <= elems@.len(),
                elems@.to_set() == neigh@,
                forall|v: usize| #[trigger] neigh@.contains(v) <==> graph.edge(current, v),
                seen@.contains(current),
                seen@.contains(source),
                forall|j: int|
                    0 <= j < queue@.len() ==> verts.contains(#[trigger] queue@[j]) && graph.valid(
                        queue@[j],
                    ),
                forall|j: int|
                    0 <= j < queue@.len() ==> (#[trigger] queue@[j] == source
                        || incident_edge@.contains_key(queue@[j])),
                !incident_edge@.contains_key(source),
                forall|k: usize|
                    #[trigger] incident_edge@.contains_key(k) ==> graph.edge(incident_edge@[k], k),
                forall|k: usize|
                    #[trigger] incident_edge@.contains_key(k) ==> seen@.contains(
                        incident_edge@[k],
                    ),
                forall|v: usize|
                    #[trigger] seen@.contains(v) ==> (v == source || incident_edge@.contains_key(
                        v,
                    )),
                forall|v: usize| #[trigger] seen@.contains(v) ==> verts.contains(v),
                forall|k: usize|
                    #[trigger] incident_edge@.contains_key(k) ==> (seen@.contains(k)
                        || queue@.contains(k)),
                forall|u: usize, v: usize|
                    seen@.contains(u) && u != current && #[trigger] graph.edge(u, v) ==> (v
                        == source || incident_edge@.contains_key(v)),
                forall|j: int|
                    0 <= j < i ==> (#[trigger] elems@[j] == source || incident_edge@.contains_key(
                        elems@[j],
                    )),
                rank.dom() == seen@,
                counter >= 0,
                forall|v: usize| #[trigger] rank.dom().contains(v) ==> 0 <= rank[v] < counter,
                forall|k: usize|
                    #[trigger] incident_edge@.contains_key(k) && seen@.contains(k) ==> rank[
                        incident_edge@[k]] < rank[k],
                seen@ == seen0.insert(current),
                was_seen == seen0.contains(current),
                was_seen ==> seen@ == seen0 && queue@.filter(|v: usize| seen@.contains(v))
                    == qdl.filter(|v: usize| seen@.contains(v)),
                verts.difference(seen@).len() <= verts.difference(seen0).len(),
                !was_seen ==> verts.difference(seen@).len() < verts.difference(seen0).len(),
            decreases elems@.len() - i,
        {
            let next = elems[i];
            proof {
                assert(elems@.to_set().contains(next));
                assert(neigh@.contains(next));
                assert(graph.edge(current, next));
            }
            if !seen.contains(&next) {
                let ghost qmid = queue@;
                incident_edge.insert(next, current);
                queue.push(next);
                proof {
                    assert(queue@ =~= qmid.push(next));
                    if was_seen {
                        lemma_filter_push(qmid, next, |v: usize| seen@.contains(v));
                    }
                    // Queue membership of previously parented vertices is
                    // kept by the push.
                    assert forall|k: usize|
                        #[trigger] incident_edge@.contains_key(k) implies (seen@.contains(k)
                        || queue@.contains(k)) by {
                        if k == next {
                            assert(queue@[queue@.len() - 1] == next);
                        } else if !seen@.contains(k) {
                            let idx = choose|idx: int| 0 <= idx < qmid.len() && qmid[idx] == k;
                            assert(queue@[idx] == k);
                        }
                    }
                }
            }
            i = i + 1;
        }

        proof {
            if !was_seen {
                assert(verts.difference(seen@) =~= verts.difference(seen0).remove(current));
                vstd::set_lib::lemma_set_subset_finite(verts, verts.difference(seen0));
            } else {
                assert(q0 =~= qdl.push(current));
                lemma_filter_push(qdl, current, |v: usize| seen@.contains(v));
            }
            // Every neighbour of the now-seen vertex has been parented.
            assert forall|u: usize, v: usize|
                seen@.contains(u) && #[trigger] graph.edge(u, v) implies (v == source
                || incident_edge@.contains_key(v)) by {
                if u == current {
                    assert(neigh@.contains(v));
                    assert(elems@.to_set().contains(v));
                    let j = choose|j: int| 0 <= j < elems@.len() && elems@[j] == v;
                    assert(elems@[j] == source || incident_edge@.contains_key(elems@[j]));
                }
            }
        }
    }

    proof {
        assert(seen@.contains(source));
    }

    if !incident_edge.contains_key(&destination) {
        proof {
            if destination != source && reachable(graph, source, destination) {
                let p = choose|p: Seq<usize>|
                    p.len() >= 1 && p.first() == source && p.last() == destination && #[trigger]
                    is_path(graph, p);
                assert forall|u: usize, v: usize|
                    seen@.contains(u) && #[trigger] graph.edge(u, v) implies seen@.contains(v) by {
                    assert(v == source || incident_edge@.contains_key(v));
                }
                lemma_closed_under_edges(graph, source, seen@, p);
                assert(seen@.contains(destination));
                assert(false);
            }
        }
        None
    } else {
        let mut path: Vec<usize> = Vec::new();
        let mut x = destination;

        proof {
            assert(destination != source);
        }

        while x != source
            invariant
                graph.wf(),
                x == source || incident_edge@.contains_key(x),
                !incident_edge@.contains_key(source),
                forall|k: usize|
                    #[trigger] incident_edge@.contains_key(k) ==> graph.edge(incident_edge@[k], k),
                forall|k: usize|
                    #[trigger] incident_edge@.contains_key(k) ==> seen@.contains(incident_edge@[k]),
                forall|v: usize|
                    #[trigger] seen@.contains(v) ==> (v == source || incident_edge@.contains_key(
                        v,
                    )),
                forall|k: usize| #[trigger] incident_edge@.contains_key(k) ==> seen@.contains(k),
                rank.dom() == seen@,
                forall|k: usize|
                    #[trigger] incident_edge@.contains_key(k) && seen@.contains(k) ==> rank[
                        incident_edge@[k]] < rank[k],
                forall|v: usize| #[trigger] rank.dom().contains(v) ==> 0 <= rank[v] < counter,
                x == source || seen@.contains(x),
                path@.len() > 0 ==> path@[0] == destination,
                path@.len() == 0 ==> x == destination,
                forall|j: int| 0 <= j < path@.len() - 1 ==> graph.edge(#[trigger] path@[j + 1], path@[j]),
                path@.len() > 0 ==> graph.edge(x, path@.last()),
                path@.len() > 0 ==> path@.last() != source,
            decreases (if rank.dom().contains(x) {
                rank[x]
            } else {
                0
            }),
        {
            path.push(x);
            x = *incident_edge.get(&x).unwrap();
        }
        path.push(source);

        let ghost walk = path@;
        proof {
            assert(walk[0] == destination);
            assert(walk.last() == source);
            assert(walk.len() >= 2);
            assert(forall|j: int| 0 <= j < walk.len() - 1 ==> graph.edge(#[trigger] walk[j + 1], walk[j]));
        }

        // Reverse the collected walk so it runs from the source to the
        // destination.
        let mut out: Vec<usize> = Vec::new();
        let mut i: usize = path.len();
        while i > 0
            invariant
                i <= walk.len(),
                path@ == walk,
                out@.len() == walk.len() - i,
                forall|j: int| 0 <= j < out@.len() ==> out@[j] == walk[walk.len() - 1 - j],
            decreases i,
        {
            i = i - 1;
            out.push(path[i]);
        }

        proof {
            assert(out@.len() == walk.len());
            assert(out@.first() == source);
            assert(out@.last() == destination);
            assert forall|j: int| 0 <= j < out@.len() - 1 implies graph.edge(
                #[trigger] out@[j],
                out@[j + 1],
            ) by {
                let n = walk.len();
                assert(out@[j] == walk[n - 1 - j]);
                assert(out@[j + 1] == walk[n - 1 - (j + 1)]);
                assert(graph.edge(walk[(n - 2 - j) + 1], walk[n - 2 - j]));
            }
            assert(reachable(graph, source, destination)) by {
                assert(is_path(graph, out@));
                assert(out@.len() >= 1 && out@.first() == source && out@.last() == destination);
            }
        }

        Some(out)
    }
}

/// Filtering a sequence extended by one element keeps the old filtered
/// prefix and appends the element exactly when it satisfies the predicate.
proof fn lemma_filter_push(s: Seq<usize>, v: usize, pred: spec_fn(usize) -> bool)
    ensures
        s.push(v).filter(pred) == if pred(v) {
            s.filter(pred).push(v)
        } else {
            s.filter(pred)
        },
{
    assert(s.push(v).drop_last() =~= s);
    assert(s.push(v).last() == v);
    reveal(Seq::filter);
}

} // verus!
