use vstd::prelude::*;
use vstd::set_lib::{lemma_int_range, lemma_len_subset, set_int_range};

use crate::chain::{ChainModel, Closest, OrderedTF, TfIndividualTransformChain};
use crate::error::TfError;
use crate::graph::{
    connected, is_path, is_shortest_path, lemma_resolve_all_found, lemma_resolve_prefix_err,
    lookup_outcome, path_chains, plan_view, resolve_all, with_sample, with_updates, GraphModel,
};
use crate::time::Time;

verus! {

/// A transform between two named frames, valid at `stamp`.
pub struct StampedTransform<T> {
    pub parent: String,
    pub child: String,
    pub stamp: Time,
    pub transform: T,
}

/// An incoming transform together with its inverse motion, so that both
/// directions of the edge can be recorded.
pub struct TransformUpdate<T> {
    pub transform: StampedTransform<T>,
    pub inverse: T,
}

/// The chains to compose for a time-travel query: `from` to the fixed frame
/// at the first time, and `to` to the fixed frame at the second.
pub struct TravelChains<T> {
    pub from_chain: Vec<Closest<T>>,
    pub to_chain: Vec<Closest<T>>,
}

/// A sequence of distinct indices below `n` has at most `n` elements.
proof fn lemma_distinct_bounded(q: Seq<usize>, n: int)
    requires
        0 <= n,
        q.no_duplicates(),
        forall|i: int| 0 <= i < q.len() ==> (#[trigger] q[i] as int) < n,
    ensures
        q.len() <= n,
{
    let qi = q.map_values(|v: usize| v as int);
    assert(qi.no_duplicates()) by {
        assert forall|i: int, j: int| 0 <= i < qi.len() && 0 <= j < qi.len() && i != j implies qi[i]
            != qi[j] by {
            assert(q[i] != q[j]);
        }
    }
    qi.unique_seq_to_set();
    lemma_int_range(0, n);
    assert(qi.to_set().subset_of(set_int_range(0, n))) by {
        assert forall|x: int| qi.to_set().contains(x) implies set_int_range(0, n).contains(x) by {
            let i = choose|i: int| 0 <= i < qi.len() && qi[i] == x;
            assert(q[i] < n);
        }
    }
    lemma_len_subset(qi.to_set(), set_int_range(0, n));
}

/// The same relationship seen from the child frame: the frames are swapped,
/// the stamp is kept, and `inverse` (the inverse motion of `trans.transform`)
/// becomes the payload.
pub fn get_inverse<T: Copy>(trans: &StampedTransform<T>, inverse: T) -> (r: StampedTransform<T>)
    ensures
        r.parent@ == trans.child@,
        r.child@ == trans.parent@,
        r.stamp == trans.stamp,
        r.transform == inverse,
{
    StampedTransform {
        parent: trans.child.clone(),
        child: trans.parent.clone(),
        stamp: trans.stamp,
        transform: inverse,
    }
}

/// A vector of `n` copies of `x`.
fn filled<V: Copy>(x: V, n: usize) -> (r: Vec<V>)
    ensures
        r@ == Seq::new(n as nat, |i: int| x),
{
    let mut r: Vec<V> = Vec::new();
    while r.len() < n
        invariant
            r@.len() <= n,
            forall|i: int| 0 <= i < r@.len() ==> r@[i] == x,
        decreases n - r@.len(),
    {
        r.push(x);
    }
    assert(r@ =~= Seq::new(n as nat, |i: int| x));
    r
}

/// The state of a breadth-first search over frame ids: the frames visited,
/// the edge each was first reached by, the queue of visited frames in visiting
/// order (never shortened; a cursor marks the next to explore), and each
/// visited frame's position in that queue and number of edges from the start.
struct Search {
    visited: Vec<bool>,
    reached_by: Vec<usize>,
    queue: Vec<usize>,
    pos: Ghost<Seq<int>>,
    dist: Ghost<Seq<int>>,
}

struct Edge<T> {
    parent: usize,
    child: usize,
    chain: TfIndividualTransformChain<T>,
}

/// The frame graph: frames interned by name, an adjacency index from each
/// frame to the edges leaving it, and the history of each directed edge.
pub struct TfBuffer<T> {
    frames: Vec<String>,
    child_transform_index: Vec<Vec<usize>>,
    transform_data: Vec<Edge<T>>,
    graph: Ghost<GraphModel<T>>,
}

impl<T> View for TfBuffer<T> {
    type V = GraphModel<T>;

    closed spec fn view(&self) -> GraphModel<T> {
        self.graph@
    }
}

impl<T: Copy> TfBuffer<T> {
    spec fn name(&self, f: int) -> Seq<char> {
        self.frames@[f]@
    }

    spec fn key(&self, e: int) -> (Seq<char>, Seq<char>) {
        (
            self.name(self.transform_data@[e].parent as int),
            self.name(self.transform_data@[e].child as int),
        )
    }

    /// The internal representation agrees with the abstract graph.
    pub closed spec fn inv(&self) -> bool {
        let n = self.frames@.len();
        let es = self.transform_data@;
        let adj = self.child_transform_index@;
        &&& adj.len() == n
        &&& forall|i: int, j: int|
            0 <= i < n && 0 <= j < n && i != j ==> #[trigger] self.name(i) != #[trigger] self.name(
                j,
            )
        &&& forall|e: int|
            0 <= e < es.len() ==> (#[trigger] es[e]).parent < n && es[e].child < n
                && es[e].chain.wf()
        &&& forall|e1: int, e2: int|
            0 <= e1 < es.len() && 0 <= e2 < es.len() && e1 != e2 ==> (#[trigger] es[e1]).parent
                != (#[trigger] es[e2]).parent || es[e1].child != es[e2].child
        &&& forall|f: int, j: int|
            0 <= f < n && 0 <= j < adj[f]@.len() ==> (#[trigger] adj[f]@[j]) < es.len()
                && es[adj[f]@[j] as int].parent == f
        &&& forall|e: int|
            0 <= e < es.len() ==> adj[(#[trigger] es[e]).parent as int]@.contains(e as usize)
        &&& forall|e: int|
            0 <= e < es.len() ==> self.graph@.contains_key(#[trigger] self.key(e))
                && self.graph@[self.key(e)] == es[e].chain@
        &&& forall|k: (Seq<char>, Seq<char>)| #[trigger]
            self.graph@.contains_key(k) ==> exists|e: int| 0 <= e < es.len() && self.key(e) == k
    }

    pub open spec fn wf(&self) -> bool {
        &&& self.inv()
        &&& forall|k: (Seq<char>, Seq<char>)| #[trigger]
            self@.contains_key(k) ==> self@[k].wf()
    }

    proof fn lemma_histories_wf(&self)
        requires
            self.inv(),
        ensures
            self.wf(),
    {
        assert forall|k: (Seq<char>, Seq<char>)| #[trigger] self@.contains_key(k) implies self@[k].wf() by {
            let e = choose|e: int| 0 <= e < self.transform_data@.len() && self.key(e) == k;
            assert(self.transform_data@[e].chain.wf());
        }
    }

    /// An empty graph.
    pub fn new() -> (r: Self)
        ensures
            r.wf(),
            r@ == GraphModel::<T>::empty(),
    {
        let r = TfBuffer {
            frames: Vec::new(),
            child_transform_index: Vec::new(),
            transform_data: Vec::new(),
            graph: Ghost(Map::empty()),
        };
        proof {
            r.lemma_histories_wf();
        }
        r
    }

    /// The id of the frame called `name`, if it is known.
    fn frame_index(&self, name: &String) -> (r: Option<usize>)
        ensures
            match r {
                Some(i) => i < self.frames@.len() && self.name(i as int) == name@,
                None => forall|i: int| 0 <= i < self.frames@.len() ==> self.name(i) != name@,
            },
    {
        let mut i: usize = 0;
        while i < self.frames.len()
            invariant
                i <= self.frames@.len(),
                forall|k: int| 0 <= k < i ==> self.name(k) != name@,
            decreases self.frames@.len() - i,
        {
            if self.frames[i] == *name {
                return Some(i);
            }
            i += 1;
        }
        None
    }

    /// The id of the edge `parent -> child`, if it is stored.
    fn edge_index(&self, parent: usize, child: usize) -> (r: Option<usize>)
        ensures
            match r {
                Some(e) => e < self.transform_data@.len() && self.transform_data@[e as int].parent
                    == parent && self.transform_data@[e as int].child == child,
                None => forall|e: int|
                    0 <= e < self.transform_data@.len() ==> !(self.transform_data@[e].parent
                        == parent && self.transform_data@[e].child == child),
            },
    {
        let mut e: usize = 0;
        while e < self.transform_data.len()
            invariant
                e <= self.transform_data@.len(),
                forall|k: int|
                    0 <= k < e ==> !(self.transform_data@[k].parent == parent
                        && self.transform_data@[k].child == child),
            decreases self.transform_data@.len() - e,
        {
            if self.transform_data[e].parent == parent && self.transform_data[e].child == child {
                return Some(e);
            }
            e += 1;
        }
        None
    }

    /// The id of the frame called `name`, registering it if it is new.
    fn add_frame(&mut self, name: &String) -> (r: usize)
        requires
            old(self).inv(),
        ensures
            final(self).inv(),
            final(self)@ == old(self)@,
            r < final(self).frames@.len(),
            final(self).name(r as int) == name@,
            old(self).frames@.len() <= final(self).frames@.len(),
            forall|i: int|
                0 <= i < old(self).frames@.len() ==> final(self).frames@[i] == old(self).frames@[i],
            final(self).transform_data@ == old(self).transform_data@,
    {
        match self.frame_index(name) {
            Some(i) => i,
            None => {
                let ghost old_self = *self;
                let i = self.frames.len();
                self.frames.push(name.clone());
                self.child_transform_index.push(Vec::new());
                proof {
                    let n = self.frames@.len();
                    assert forall|e: int|
                        0 <= e < self.transform_data@.len() implies #[trigger] self.key(e)
                        == old_self.key(e) by {}
                    assert forall|k: (Seq<char>, Seq<char>)| #[trigger]
                        self.graph@.contains_key(k) implies exists|e: int|
                        0 <= e < self.transform_data@.len() && self.key(e) == k by {
                        let e = choose|e: int|
                            0 <= e < old_self.transform_data@.len() && old_self.key(e) == k;
                        assert(self.key(e) == k);
                    }
                    assert forall|a: int, b: int|
                        0 <= a < n && 0 <= b < n && a != b implies #[trigger] self.name(a)
                        != #[trigger] self.name(b) by {
                        if a < n - 1 && b < n - 1 {
                            assert(old_self.name(a) != old_self.name(b));
                        } else if a == n - 1 {
                            assert(self.name(a) == name@);
                            assert(old_self.name(b) != name@);
                        } else {
                            assert(self.name(b) == name@);
                            assert(old_self.name(a) != name@);
                        }
                    }
                    let adj = self.child_transform_index@;
                    assert forall|f: int, j: int|
                        0 <= f < n && 0 <= j < adj[f]@.len() implies (#[trigger] adj[f]@[j])
                        < self.transform_data@.len() && self.transform_data@[adj[f]@[j] as int].parent
                        == f by {
                        assert(f < n - 1);
                        assert(adj[f] == old_self.child_transform_index@[f]);
                    }
                    assert forall|e: int|
                        0 <= e < self.transform_data@.len() implies adj[(
                        #[trigger] self.transform_data@[e]).parent as int]@.contains(e as usize) by {
                        assert(old_self.child_transform_index@[old_self.transform_data@[e].parent as int]@.contains(
                            e as usize,
                        ));
                    }
                }
                i
            },
        }
    }

    /// Appends `sample` to the history of the stored edge `e`.
    fn record_on_edge(&mut self, e: usize, sample: OrderedTF<T>)
        requires
            old(self).inv(),
            e < old(self).transform_data@.len(),
        ensures
            final(self).inv(),
            final(self)@ == old(self)@.insert(
                old(self).key(e as int),
                old(self)@[old(self).key(e as int)].inserted(sample),
            ),
    {
        let ghost mid = *self;
        let ghost key = mid.key(e as int);
        let ghost p = mid.transform_data@[e as int].parent;
        let ghost c = mid.transform_data@[e as int].child;
        self.transform_data[e].chain.add_to_buffer(sample);
        let ghost h = self.transform_data@[e as int].chain@;
        self.graph = Ghost(self.graph@.insert(key, h));
        proof {
            let es = self.transform_data@;
            assert forall|x: int| 0 <= x < es.len() implies #[trigger] self.key(x) == mid.key(x) by {}
            assert forall|x: int|
                0 <= x < es.len() implies self.graph@.contains_key(#[trigger] self.key(x))
                && self.graph@[self.key(x)] == es[x].chain@ by {
                if x != e {
                    if self.key(x) == key {
                        assert(es[x].parent == p);
                        assert(es[x].child == c);
                    }
                }
            }
            assert forall|k: (Seq<char>, Seq<char>)| #[trigger]
                self.graph@.contains_key(k) implies exists|x: int|
                0 <= x < es.len() && self.key(x) == k by {
                if k != key {
                    let x = choose|x: int| 0 <= x < mid.transform_data@.len() && mid.key(x) == k;
                    assert(self.key(x) == k);
                } else {
                    assert(self.key(e as int) == k);
                }
            }
            let adj = self.child_transform_index@;
            assert forall|x: int|
                0 <= x < es.len() implies adj[(#[trigger] es[x]).parent as int]@.contains(
                x as usize,
            ) by {
                assert(adj[mid.transform_data@[x].parent as int]@.contains(x as usize));
            }
            assert forall|f: int, j: int|
                0 <= f < adj.len() && 0 <= j < adj[f]@.len() implies (#[trigger] adj[f]@[j])
                < es.len() && es[adj[f]@[j] as int].parent == f by {}
            assert forall|x: int| 0 <= x < es.len() && x != e implies #[trigger] es[x] == mid.transform_data@[x] by {}
            assert forall|i: int, j: int|
                0 <= i < self.frames@.len() && 0 <= j < self.frames@.len() && i != j implies #[trigger] self.name(i)
                != #[trigger] self.name(j) by {
                assert(mid.name(i) != mid.name(j));
            }
        }
    }

    /// Stores a new edge `p -> c` whose history holds `sample` alone.
    fn push_edge(&mut self, p: usize, c: usize, sample: OrderedTF<T>, static_tf: bool)
        requires
            old(self).inv(),
            p < old(self).frames@.len(),
            c < old(self).frames@.len(),
            forall|x: int|
                0 <= x < old(self).transform_data@.len() ==> !(old(self).transform_data@[x].parent
                    == p && old(self).transform_data@[x].child == c),
        ensures
            final(self).inv(),
            !old(self)@.contains_key((old(self).name(p as int), old(self).name(c as int))),
            final(self)@ == old(self)@.insert(
                (old(self).name(p as int), old(self).name(c as int)),
                ChainModel::<T> { is_static: static_tf, samples: Seq::empty(), latest: None }.inserted(
                    sample,
                ),
            ),
    {
        let ghost mid = *self;
        let ghost key = (mid.name(p as int), mid.name(c as int));
        proof {
            if mid@.contains_key(key) {
                let x = choose|x: int| 0 <= x < mid.transform_data@.len() && mid.key(x) == key;
                assert(mid.transform_data@[x].parent == p);
                assert(mid.transform_data@[x].child == c);
            }
        }
        let mut chain = TfIndividualTransformChain::new(static_tf);
        chain.add_to_buffer(sample);
        let ghost h = chain@;
        let e = self.transform_data.len();
        self.transform_data.push(Edge { parent: p, child: c, chain });
        self.child_transform_index[p].push(e);
        self.graph = Ghost(self.graph@.insert(key, h));
        proof {
            let es = self.transform_data@;
            let adj = self.child_transform_index@;
            let old_adj = mid.child_transform_index@;
            assert(self.key(e as int) == key);
            assert forall|x: int| 0 <= x < e implies #[trigger] self.key(x) == mid.key(x) by {}
            assert forall|x: int|
                0 <= x < es.len() implies self.graph@.contains_key(#[trigger] self.key(x))
                && self.graph@[self.key(x)] == es[x].chain@ by {
                if x != e {
                    assert(self.key(x) == mid.key(x));
                    if self.key(x) == key {
                        assert(es[x].parent == p);
                        assert(es[x].child == c);
                    }
                }
            }
            assert forall|k: (Seq<char>, Seq<char>)| #[trigger]
                self.graph@.contains_key(k) implies exists|x: int|
                0 <= x < es.len() && self.key(x) == k by {
                if k != key {
                    let x = choose|x: int| 0 <= x < mid.transform_data@.len() && mid.key(x) == k;
                    assert(self.key(x) == k);
                } else {
                    assert(self.key(e as int) == k);
                }
            }
            assert forall|x: int|
                0 <= x < es.len() implies adj[(#[trigger] es[x]).parent as int]@.contains(
                x as usize,
            ) by {
                if x < e {
                    assert(old_adj[mid.transform_data@[x].parent as int]@.contains(x as usize));
                    if es[x].parent == p {
                        let j = choose|j: int|
                            0 <= j < old_adj[p as int]@.len() && old_adj[p as int]@[j] == x;
                        assert(adj[p as int]@[j] == x);
                    }
                } else {
                    assert(adj[p as int]@.last() == e);
                }
            }
            assert forall|f: int, j: int|
                0 <= f < adj.len() && 0 <= j < adj[f]@.len() implies (#[trigger] adj[f]@[j])
                < es.len() && es[adj[f]@[j] as int].parent == f by {
                if f == p && j == adj[f].len() - 1 {
                } else {
                    assert(adj[f]@[j] == old_adj[f]@[j]);
                }
            }
            assert forall|e1: int, e2: int|
                0 <= e1 < es.len() && 0 <= e2 < es.len() && e1 != e2 implies (
                #[trigger] es[e1]).parent != (#[trigger] es[e2]).parent || es[e1].child
                != es[e2].child by {
                if e1 < e && e2 < e {
                    assert(es[e1] == mid.transform_data@[e1]);
                    assert(es[e2] == mid.transform_data@[e2]);
                }
            }
            assert forall|i: int, j: int|
                0 <= i < self.frames@.len() && 0 <= j < self.frames@.len() && i != j implies #[trigger] self.name(i)
                != #[trigger] self.name(j) by {
                assert(mid.name(i) != mid.name(j));
            }
        }
    }

    /// Records `transform` on the edge from its parent frame to its child
    /// frame, registering both frames and the edge as needed. A new edge's
    /// history is static exactly when `static_tf`; an existing edge keeps its
    /// kind.
    pub fn add_transform(&mut self, transform: &StampedTransform<T>, static_tf: bool)
        requires
            old(self).wf(),
        ensures
            final(self).wf(),
            final(self)@ == with_sample(
                old(self)@,
                transform.parent@,
                transform.child@,
                OrderedTF { stamp: transform.stamp, transform: transform.transform },
                static_tf,
            ),
    {
        let p = self.add_frame(&transform.parent);
        let c = self.add_frame(&transform.child);
        let sample = OrderedTF { stamp: transform.stamp, transform: transform.transform };
        match self.edge_index(p, c) {
            Some(e) => {
                self.record_on_edge(e, sample);
            },
            None => {
                self.push_edge(p, c, sample, static_tf);
            },
        }
        proof {
            self.lemma_histories_wf();
        }
    }

    /// Records each update in order: the transform as given, then its inverse
    /// on the reversed edge, so that every edge is stored in both directions.
    pub fn handle_incoming_transforms(&mut self, transforms: Vec<TransformUpdate<T>>, static_tf: bool)
        requires
            old(self).wf(),
        ensures
            final(self).wf(),
            final(self)@ == with_updates(old(self)@, transforms@, static_tf),
    {
        let ghost g0 = self@;
        let mut i: usize = 0;
        while i < transforms.len()
            invariant
                i <= transforms@.len(),
                self.wf(),
                self@ == with_updates(g0, transforms@.take(i as int), static_tf),
            decreases transforms@.len() - i,
        {
            let u = &transforms[i];
            self.add_transform(&u.transform, static_tf);
            let reverse = get_inverse(&u.transform, u.inverse);
            self.add_transform(&reverse, static_tf);
            assert(transforms@.take(i + 1).drop_last() =~= transforms@.take(i as int));
            i += 1;
        }
        assert(transforms@.take(i as int) =~= transforms@);
    }

    /// `route` lists edge ids leading from frame `from` to frame `to`.
    spec fn is_route(&self, from: int, to: int, route: Seq<usize>) -> bool {
        let es = self.transform_data@;
        &&& forall|i: int| 0 <= i < route.len() ==> (#[trigger] route[i]) < es.len()
        &&& route.len() == 0 ==> from == to
        &&& route.len() > 0 ==> es[route[0] as int].parent == from && es[route.last() as int].child
            == to
        &&& forall|i: int|
            0 <= i < route.len() - 1 ==> es[(#[trigger] route[i]) as int].child == es[route[i
                + 1] as int].parent
    }

    /// The frame names visited by `route`, starting at `from`.
    spec fn route_path(&self, from: int, route: Seq<usize>) -> Seq<Seq<char>> {
        seq![self.name(from)] + Seq::new(
            route.len(),
            |i: int| self.name(self.transform_data@[route[i] as int].child as int),
        )
    }

    spec fn route_chains(&self, route: Seq<usize>) -> Seq<ChainModel<T>> {
        Seq::new(route.len(), |i: int| self.transform_data@[route[i] as int].chain@)
    }

    proof fn lemma_route_path(&self, from: int, to: int, route: Seq<usize>)
        requires
            self.inv(),
            0 <= from < self.frames@.len(),
            0 <= to < self.frames@.len(),
            self.is_route(from, to, route),
        ensures
            is_path(self@, self.name(from), self.name(to), self.route_path(from, route)),
            path_chains(self@, self.route_path(from, route)) == self.route_chains(route),
    {
        let p = self.route_path(from, route);
        let es = self.transform_data@;
        assert forall|i: int| 0 <= i < route.len() implies (p[i], p[i + 1]) == self.key(
            #[trigger] route[i] as int,
        ) by {
            if i > 0 {
                assert(es[route[i - 1] as int].child == es[route[i] as int].parent);
            }
        }
        assert forall|i: int| 0 <= i < p.len() - 1 implies #[trigger] self@.contains_key(
            (p[i], p[i + 1]),
        ) by {
            assert((p[i], p[i + 1]) == self.key(route[i] as int));
        }
        if route.len() > 0 {
            assert(p.last() == p[route.len() as int]);
        }
        assert(path_chains(self@, p) =~= self.route_chains(route)) by {
            assert forall|i: int| 0 <= i < route.len() implies path_chains(self@, p)[i]
                == self.route_chains(route)[i] by {
                assert((p[i], p[i + 1]) == self.key(route[i] as int));
            }
        }
    }

    /// A frame on a path from `from`, walked within a set of frames that holds
    /// `from` and every child of its members, is in that set.
    proof fn lemma_walk_visited(&self, visited: Seq<bool>, from: int, p: Seq<Seq<char>>, i: int) -> (v:
        int)
        requires
            self.inv(),
            visited.len() == self.frames@.len(),
            0 <= from < self.frames@.len(),
            visited[from],
            forall|e: int|
                0 <= e < self.transform_data@.len() && visited[(#[trigger] self.transform_data@[e]).parent as int]
                    ==> visited[self.transform_data@[e].child as int],
            p.len() >= 1,
            p[0] == self.name(from),
            forall|j: int| 0 <= j < p.len() - 1 ==> #[trigger] self@.contains_key((p[j], p[j + 1])),
            0 <= i < p.len(),
        ensures
            0 <= v < self.frames@.len(),
            visited[v],
            self.name(v) == p[i],
        decreases i,
    {
        if i == 0 {
            from
        } else {
            let u = self.lemma_walk_visited(visited, from, p, i - 1);
            let j = i - 1;
            assert(self@.contains_key((p[j], p[j + 1])));
            let k = (p[i - 1], p[i]);
            let e = choose|e: int| 0 <= e < self.transform_data@.len() && self.key(e) == k;
            let x = self.transform_data@[e];
            assert(x.parent == u) by {
                if x.parent != u {
                    assert(self.name(x.parent as int) != self.name(u));
                }
            }
            x.child as int
        }
    }

    /// The search state is consistent: every visited frame sits in the queue
    /// at its recorded position, and every visited frame but `from` records
    /// the edge it was reached by, from a frame visited earlier and one edge
    /// nearer the start. Distances never decrease along the queue.
    #[verifier::opaque]
    spec fn search_inv(&self, st: &Search, from: int) -> bool {
        let n = self.frames@.len();
        let es = self.transform_data@;
        let pos = st.pos@;
        let dist = st.dist@;
        let q = st.queue@;
        &&& st.visited@.len() == n
        &&& st.reached_by@.len() == n
        &&& pos.len() == n
        &&& 1 <= q.len() <= n
        &&& q[0] == from
        &&& q.no_duplicates()
        &&& forall|i: int|
            0 <= i < q.len() ==> (#[trigger] q[i]) < n && st.visited@[q[i] as int] && pos[q[i] as int]
                == i
        &&& forall|v: int|
            0 <= v < n && #[trigger] st.visited@[v] ==> 0 <= pos[v] < q.len() && q[pos[v]] == v
        &&& forall|v: int|
            0 <= v < n && v != from && #[trigger] st.visited@[v] ==> st.reached_by@[v] < es.len()
                && es[st.reached_by@[v] as int].child == v && st.visited@[es[st.reached_by@[v] as int].parent as int]
                && pos[es[st.reached_by@[v] as int].parent as int] < pos[v]
                && dist[v] == dist[es[st.reached_by@[v] as int].parent as int] + 1
        &&& dist.len() == n
        &&& dist[from] == 0
        &&& forall|i: int, j: int|
            0 <= i <= j < q.len() ==> dist[#[trigger] q[i] as int] <= dist[#[trigger] q[j] as int]
    }

    /// The queue spans at most one level beyond the frame at `head`.
    spec fn frontier(&self, st: &Search, head: int) -> bool {
        let q = st.queue@;
        head < q.len() ==> st.dist@[q[q.len() - 1] as int] <= st.dist@[q[head] as int] + 1
    }

    /// Every edge leaving a frame queued before `head` leads to a visited frame
    /// at most one edge further from the start.
    spec fn explored_below(&self, st: &Search, head: int) -> bool {
        let es = self.transform_data@;
        forall|e: int|
            0 <= e < es.len() && st.visited@[(#[trigger] es[e]).parent as int] && st.pos@[es[e].parent as int]
                < head ==> st.visited@[es[e].child as int] && st.dist@[es[e].child as int]
                <= st.dist@[es[e].parent as int] + 1
    }

    /// Visits the child of edge `e`, which leaves `u`, the frame at `head`.
    #[verifier::rlimit(40)]
    fn visit(&self, st: &mut Search, u: usize, e: usize, Ghost(from): Ghost<int>, Ghost(head): Ghost<int>)
        requires
            self.inv(),
            self.search_inv(old(st), from),
            self.frontier(old(st), head),
            0 <= head < old(st).queue@.len(),
            old(st).queue@[head] == u,
            e < self.transform_data@.len(),
            self.transform_data@[e as int].parent == u,
        ensures
            self.search_inv(final(st), from),
            self.frontier(final(st), head),
            final(st).visited@[self.transform_data@[e as int].child as int],
            final(st).dist@[self.transform_data@[e as int].child as int] <= final(st).dist@[u as int] + 1,
            old(st).queue@.len() <= final(st).queue@.len(),
            forall|i: int| 0 <= i < old(st).queue@.len() ==> final(st).queue@[i] == old(st).queue@[i],
            forall|v: int|
                0 <= v < self.frames@.len() && #[trigger] old(st).visited@[v] ==> final(st).visited@[v]
                    && final(st).pos@[v] == old(st).pos@[v] && final(st).dist@[v] == old(st).dist@[v],
    {
        reveal(TfBuffer::search_inv);
        let ghost es = self.transform_data@;
        let ghost n = self.frames@.len();
        let v = self.transform_data[e].child;
        let ghost q0 = st.queue@;
        let ghost s1 = *st;
        assert(s1.visited@[u as int]);
        if !st.visited[v] {
            st.visited[v] = true;
            st.reached_by[v] = e;
            st.pos = Ghost(st.pos@.update(v as int, q0.len() as int));
            st.dist = Ghost(st.dist@.update(v as int, s1.dist@[u as int] + 1));
            st.queue.push(v);
            proof {
                let q = st.queue@;
                assert(u != v);
                assert(q[head] == u);
                assert(q.no_duplicates()) by {
                    assert forall|a: int, b: int|
                        0 <= a < q.len() && 0 <= b < q.len() && a != b implies q[a] != q[b] by {
                        if a < q0.len() && b < q0.len() {
                            assert(q0[a] != q0[b]);
                        } else if a < q0.len() {
                            assert(s1.visited@[q0[a] as int]);
                        } else {
                            assert(s1.visited@[q0[b] as int]);
                        }
                    }
                }
                assert forall|i: int| 0 <= i < q.len() implies (#[trigger] q[i]) < n by {
                    if i < q0.len() {
                        assert(q0[i] < n);
                    }
                }
                lemma_distinct_bounded(q, n as int);
                assert forall|i: int|
                    0 <= i < q.len() implies (#[trigger] q[i]) < n && st.visited@[q[i] as int]
                    && st.pos@[q[i] as int] == i by {
                    if i < q0.len() {
                        assert(s1.visited@[q0[i] as int]);
                    }
                }
                assert forall|w: int|
                    0 <= w < n && #[trigger] st.visited@[w] implies 0 <= st.pos@[w] < q.len() && q[st.pos@[w]]
                    == w by {
                    if w != v {
                        assert(s1.visited@[w]);
                    }
                }
                assert forall|w: int|
                    0 <= w < n && w != from && #[trigger] st.visited@[w] implies st.reached_by@[w] < es.len()
                    && es[st.reached_by@[w] as int].child == w && st.visited@[es[st.reached_by@[w] as int].parent as int]
                    && st.pos@[es[st.reached_by@[w] as int].parent as int] < st.pos@[w]
                    && st.dist@[w] == st.dist@[es[st.reached_by@[w] as int].parent as int] + 1 by {
                    if w != v {
                        assert(s1.visited@[w]);
                        assert(st.reached_by@[w] == s1.reached_by@[w]);
                        let x = es[s1.reached_by@[w] as int].parent as int;
                        assert(s1.visited@[x]);
                        assert(x != v);
                    }
                }
                assert(st.dist@[from] == 0) by {
                    assert(s1.visited@[q0[0] as int]);
                }
                assert forall|a: int, b: int|
                    0 <= a <= b < q.len() implies st.dist@[#[trigger] q[a] as int] <= st.dist@[#[trigger] q[b] as int] by {
                    if a < q0.len() {
                        assert(s1.visited@[q0[a] as int]);
                    }
                    if b < q0.len() {
                        assert(s1.visited@[q0[b] as int]);
                        assert(s1.dist@[q0[a] as int] <= s1.dist@[q0[b] as int]);
                    } else if a < q0.len() {
                        assert(s1.dist@[q0[a] as int] <= s1.dist@[q0[q0.len() - 1] as int]);
                        assert(s1.visited@[q0[q0.len() - 1] as int]);
                    }
                }
                assert forall|w: int|
                    0 <= w < n && #[trigger] s1.visited@[w] implies st.visited@[w] && st.pos@[w] == s1.pos@[w]
                    && st.dist@[w] == s1.dist@[w] by {}
            }
        } else {
            proof {
                let q = st.queue@;
                assert(q[st.pos@[v as int]] == v);
                assert(st.dist@[q[st.pos@[v as int]] as int] <= st.dist@[q[q.len() - 1] as int]);
                assert(q[head] == u);
            }
        }
    }

    /// Visits every unvisited child of frame `u`, the frame at `head`.
    fn expand(&self, st: &mut Search, u: usize, Ghost(from): Ghost<int>, Ghost(head): Ghost<int>)
        requires
            self.inv(),
            self.search_inv(old(st), from),
            self.frontier(old(st), head),
            0 <= head < old(st).queue@.len(),
            old(st).queue@[head] == u,
            old(st).visited@[u as int],
            u < self.frames@.len(),
        ensures
            self.search_inv(final(st), from),
            self.frontier(final(st), head),
            forall|e: int|
                0 <= e < self.transform_data@.len() && (#[trigger] self.transform_data@[e]).parent == u
                    ==> final(st).visited@[self.transform_data@[e].child as int]
                    && final(st).dist@[self.transform_data@[e].child as int] <= final(st).dist@[u as int] + 1,
            old(st).queue@.len() <= final(st).queue@.len(),
            forall|i: int| 0 <= i < old(st).queue@.len() ==> final(st).queue@[i] == old(st).queue@[i],
            forall|v: int|
                0 <= v < self.frames@.len() && #[trigger] old(st).visited@[v] ==> final(st).visited@[v]
                    && final(st).pos@[v] == old(st).pos@[v] && final(st).dist@[v] == old(st).dist@[v],
    {
        let ghost es = self.transform_data@;
        let ghost n = self.frames@.len();
        let ghost st0 = *st;
        let children = &self.child_transform_index[u];
        let mut j: usize = 0;
        while j < children.len()
            invariant
                self.inv(),
                es == self.transform_data@,
                n == self.frames@.len(),
                0 <= u < n,
                0 <= head < st0.queue@.len(),
                st0.queue@[head] == u,
                st0.visited@[u as int],
                children@ == self.child_transform_index@[u as int]@,
                j <= children@.len(),
                self.search_inv(st, from),
                self.frontier(st, head),
                st0.queue@.len() <= st.queue@.len(),
                forall|i: int| 0 <= i < st0.queue@.len() ==> st.queue@[i] == st0.queue@[i],
                forall|v: int|
                    0 <= v < n && #[trigger] st0.visited@[v] ==> st.visited@[v] && st.pos@[v]
                        == st0.pos@[v] && st.dist@[v] == st0.dist@[v],
                forall|jj: int|
                    0 <= jj < j ==> st.visited@[es[#[trigger] children@[jj] as int].child as int]
                        && st.dist@[es[children@[jj] as int].child as int] <= st.dist@[u as int] + 1,
            decreases children@.len() - j,
        {
            let e = children[j];
            assert(self.child_transform_index@[u as int]@[j as int] == e);
            let ghost s1 = *st;
            self.visit(st, u, e, Ghost(from), Ghost(head));
            proof {
                assert forall|jj: int| 0 <= jj < j + 1 implies st.visited@[es[
                    #[trigger] children@[jj] as int].child as int] && st.dist@[es[children@[jj] as int].child as int]
                    <= st.dist@[u as int] + 1 by {
                    if jj < j {
                        let c = es[children@[jj] as int].child as int;
                        assert(s1.visited@[c]);
                    }
                }
                assert forall|w: int|
                    0 <= w < n && #[trigger] st0.visited@[w] implies st.visited@[w] && st.pos@[w]
                    == st0.pos@[w] && st.dist@[w] == st0.dist@[w] by {
                    assert(s1.visited@[w]);
                }
            }
            j += 1;
        }
        proof {
            assert forall|e: int|
                0 <= e < es.len() && (#[trigger] es[e]).parent == u implies st.visited@[es[e].child as int]
                && st.dist@[es[e].child as int] <= st.dist@[u as int] + 1 by {
                assert(self.child_transform_index@[es[e].parent as int]@.contains(e as usize));
                assert(self.transform_data.len() as int == es.len());
                let jj = choose|jj: int| 0 <= jj < children@.len() && children@[jj] == e as usize;
                assert(children@[jj] as int == e);
                assert(st.visited@[es[children@[jj] as int].child as int]);
            }
        }
    }

    /// Along a path from `from`, each frame is visited no further from the
    /// start than its index on the path, unless the frame at `head` already
    /// lies at least that far.
    proof fn lemma_walk_dist(&self, st: &Search, from: int, head: int, p: Seq<Seq<char>>, i: int) -> (v:
        int)
        requires
            self.inv(),
            st.visited@.len() == self.frames@.len(),
            st.dist@.len() == self.frames@.len(),
            st.visited@[from],
            st.dist@[from] == 0,
            forall|v: int|
                0 <= v < self.frames@.len() && #[trigger] st.visited@[v] ==> 0 <= st.pos@[v]
                    < st.queue@.len() && st.queue@[st.pos@[v]] == v,
            forall|a: int, b: int|
                0 <= a <= b < st.queue@.len() ==> st.dist@[#[trigger] st.queue@[a] as int]
                    <= st.dist@[#[trigger] st.queue@[b] as int],
            self.explored_below(st, head),
            0 <= head < st.queue@.len(),
            0 <= from < self.frames@.len(),
            p.len() >= 1,
            p[0] == self.name(from),
            forall|j: int| 0 <= j < p.len() - 1 ==> #[trigger] self@.contains_key((p[j], p[j + 1])),
            0 <= i < p.len(),
        ensures
            st.dist@[st.queue@[head] as int] <= i || (0 <= v < self.frames@.len() && st.visited@[v]
                && self.name(v) == p[i] && st.dist@[v] <= i),
        decreases i,
    {
        let q = st.queue@;
        if i == 0 {
            from
        } else {
            let u = self.lemma_walk_dist(st, from, head, p, i - 1);
            if st.dist@[q[head] as int] <= i - 1 {
                0
            } else {
                assert(q[st.pos@[u]] == u);
                assert(st.pos@[u] < head) by {
                    if st.pos@[u] >= head {
                        assert(st.dist@[q[head] as int] <= st.dist@[q[st.pos@[u]] as int]);
                    }
                }
                let j = i - 1;
                assert(self@.contains_key((p[j], p[j + 1])));
                let k = (p[i - 1], p[i]);
                let e = choose|e: int| 0 <= e < self.transform_data@.len() && self.key(e) == k;
                let x = self.transform_data@[e];
                assert(x.parent == u) by {
                    if x.parent != u {
                        assert(self.name(x.parent as int) != self.name(u));
                    }
                }
                x.child as int
            }
        }
    }

    /// A queued frame is a visited frame id.
    proof fn lemma_queued(&self, st: &Search, from: int, i: int)
        requires
            self.search_inv(st, from),
            0 <= i < st.queue@.len(),
        ensures
            st.queue@[i] < self.frames@.len(),
            st.visited@[st.queue@[i] as int],
    {
        reveal(TfBuffer::search_inv);
    }

    /// When `to` is the frame at `head`, no path reaches it in fewer edges
    /// than its distance.
    proof fn lemma_found_shortest(&self, st: &Search, from: int, head: int, to: int)
        requires
            self.inv(),
            self.search_inv(st, from),
            self.explored_below(st, head),
            0 <= head < st.queue@.len(),
            st.queue@[head] == to,
            0 <= from < self.frames@.len(),
            0 <= to < self.frames@.len(),
        ensures
            st.visited@[to],
            forall|p: Seq<Seq<char>>|
                is_path(self@, self.name(from), self.name(to), p) ==> st.dist@[to] + 1 <= p.len(),
    {
        reveal(TfBuffer::search_inv);
        assert forall|p: Seq<Seq<char>>| is_path(self@, self.name(from), self.name(to), p) implies st.dist@[to]
            + 1 <= p.len() by {
            let v = self.lemma_walk_dist(st, from, head, p, p.len() - 1);
            if st.dist@[st.queue@[head] as int] > p.len() - 1 {
                if v != to {
                    assert(self.name(v) != self.name(to));
                }
            }
        }
    }

    /// Exploring the frame at `head` extends the explored part by one.
    proof fn lemma_explored_step(&self, s0: &Search, st: &Search, from: int, head: int, u: int)
        requires
            forall|e: int|
                0 <= e < self.transform_data@.len() ==> (#[trigger] self.transform_data@[e]).parent
                    < self.frames@.len() && self.transform_data@[e].child < self.frames@.len(),
            self.search_inv(s0, from),
            self.search_inv(st, from),
            self.explored_below(s0, head),
            self.frontier(st, head),
            0 <= head < s0.queue@.len(),
            s0.queue@[head] == u,
            forall|e: int|
                0 <= e < self.transform_data@.len() && (#[trigger] self.transform_data@[e]).parent == u
                    ==> st.visited@[self.transform_data@[e].child as int]
                    && st.dist@[self.transform_data@[e].child as int] <= st.dist@[u] + 1,
            s0.queue@.len() <= st.queue@.len(),
            forall|i: int| 0 <= i < s0.queue@.len() ==> st.queue@[i] == s0.queue@[i],
            forall|v: int|
                0 <= v < self.frames@.len() && #[trigger] s0.visited@[v] ==> st.visited@[v]
                    && st.pos@[v] == s0.pos@[v] && st.dist@[v] == s0.dist@[v],
        ensures
            self.explored_below(st, head + 1),
            self.frontier(st, head + 1),
            st.queue@.len() <= self.frames@.len(),
    {
        reveal(TfBuffer::search_inv);
        let es = self.transform_data@;
        assert forall|e: int|
            0 <= e < es.len() && st.visited@[(#[trigger] es[e]).parent as int] && st.pos@[es[e].parent as int]
                < head + 1 implies st.visited@[es[e].child as int] && st.dist@[es[e].child as int]
            <= st.dist@[es[e].parent as int] + 1 by {
            let x = es[e].parent as int;
            if x != u {
                let q = st.queue@;
                assert(q[st.pos@[x]] == x);
                assert(s0.queue@[st.pos@[x]] == x);
                assert(s0.visited@[x]);
                assert(s0.pos@[x] == st.pos@[x]);
                assert(s0.pos@[x] != head);
                assert(s0.visited@[es[e].child as int]);
                assert(st.dist@[es[e].child as int] == s0.dist@[es[e].child as int]);
            }
        }
        let q = st.queue@;
        if head + 1 < q.len() {
            assert(st.dist@[q[head] as int] <= st.dist@[q[head + 1] as int]);
        }
    }

    /// Breadth-first search from `from`; on success, the edge ids of a
    /// shortest route to `to`.
    #[verifier::spinoff_prover]
    #[verifier::rlimit(60)]
    fn retrieve_transform_path(&self, from: usize, to: usize) -> (r: Option<Vec<usize>>)
        requires
            self.inv(),
            from < self.frames@.len(),
            to < self.frames@.len(),
        ensures
            match r {
                Some(route) => self.is_route(from as int, to as int, route@) && forall|p: Seq<Seq<char>>|
                    is_path(self@, self.name(from as int), self.name(to as int), p) ==> route@.len() + 1
                        <= p.len(),
                None => !connected(self@, self.name(from as int), self.name(to as int)),
            },
    {
        let n = self.frames.len();
        let ghost es = self.transform_data@;
        let mut st = Search {
            visited: filled(false, n),
            reached_by: filled(0, n),
            queue: Vec::new(),
            pos: Ghost(Seq::new(n as nat, |i: int| 0)),
            dist: Ghost(Seq::new(n as nat, |i: int| 0)),
        };
        st.visited[from] = true;
        st.queue.push(from);
        proof {
            reveal(TfBuffer::search_inv);
        }
        let mut head: usize = 0;
        let mut found = false;
        while !found && head < st.queue.len()
            invariant
                self.inv(),
                es == self.transform_data@,
                n == self.frames@.len(),
                from < n,
                0 <= to < n,
                self.search_inv(&st, from as int),
                head <= st.queue@.len() <= n,
                !found ==> self.explored_below(&st, head as int),
                !found ==> self.frontier(&st, head as int),
                found ==> st.visited@[to as int],
                found ==> forall|p: Seq<Seq<char>>|
                    is_path(self@, self.name(from as int), self.name(to as int), p) ==> st.dist@[to as int]
                        + 1 <= p.len(),
                !found ==> forall|i: int| 0 <= i < head ==> st.queue@[i] != to,
            decreases n - head,
        {
            let u = st.queue[head];
            if u == to {
                proof {
                    self.lemma_found_shortest(&st, from as int, head as int, to as int);
                }
                found = true;
            } else {
                let ghost s0 = st;
                proof {
                    self.lemma_queued(&st, from as int, head as int);
                }
                self.expand(&mut st, u, Ghost(from as int), Ghost(head as int));
                proof {
                    self.lemma_explored_step(&s0, &st, from as int, head as int, u as int);
                }
            }
            head += 1;
        }
        if !st.visited[to] {
            proof {
                reveal(TfBuffer::search_inv);
                assert forall|e: int|
                    0 <= e < es.len() && st.visited@[(#[trigger] es[e]).parent as int] implies st.visited@[es[e].child as int] by {
                    assert(st.pos@[es[e].parent as int] < head);
                }
                if connected(self@, self.name(from as int), self.name(to as int)) {
                    let p = choose|p: Seq<Seq<char>>|
                        is_path(self@, self.name(from as int), self.name(to as int), p);
                    let v = self.lemma_walk_visited(st.visited@, from as int, p, p.len() - 1);
                    if v != to {
                        assert(self.name(v) != self.name(to as int));
                    }
                }
            }
            return None;
        }
        proof {
            reveal(TfBuffer::search_inv);
            if !found {
                assert(st.queue@[st.pos@[to as int]] == to);
            }
        }
        let mut route: Vec<usize> = Vec::new();
        let mut r = to;
        while r != from
            invariant
                self.inv(),
                es == self.transform_data@,
                n == self.frames@.len(),
                from < n,
                0 <= to < n,
                0 <= r < n,
                self.search_inv(&st, from as int),
                st.visited@[r as int],
                self.is_route(r as int, to as int, route@),
                route@.len() + st.dist@[r as int] == st.dist@[to as int],
            decreases st.pos@[r as int],
        {
            proof {
                reveal(TfBuffer::search_inv);
            }
            let e = st.reached_by[r];
            let ghost old_route = route@;
            route.insert(0, e);
            proof {
                assert forall|i: int| 0 <= i < route@.len() - 1 implies es[(
                #[trigger] route@[i]) as int].child == es[route@[i + 1] as int].parent by {
                    if i > 0 {
                        assert(route@[i] == old_route[i - 1]);
                        assert(route@[i + 1] == old_route[i]);
                    }
                }
                assert forall|i: int| 0 <= i < route@.len() implies (#[trigger] route@[i]) < es.len() by {
                    if i > 0 {
                        assert(route@[i] == old_route[i - 1]);
                    }
                }
                if old_route.len() > 0 {
                    assert(route@.last() == old_route.last());
                }
            }
            r = self.transform_data[e].parent;
        }
        Some(route)
    }

    /// Resolves the history of each edge of `route` at `time`, in order,
    /// stopping at the first failure.
    fn resolve_route(&self, route: &Vec<usize>, time: Time) -> (r: Result<Vec<Closest<T>>, TfError>)
        requires
            forall|k: int|
                0 <= k < route@.len() ==> (#[trigger] route@[k]) < self.transform_data@.len()
                    && self.transform_data@[route@[k] as int].chain.wf(),
        ensures
            plan_view(r) == resolve_all(self.route_chains(route@), time),
    {
        let ghost cs = self.route_chains(route@);
        let mut out: Vec<Closest<T>> = Vec::new();
        let mut i: usize = 0;
        while i < route.len()
            invariant
                forall|k: int|
                    0 <= k < route@.len() ==> (#[trigger] route@[k]) < self.transform_data@.len()
                        && self.transform_data@[route@[k] as int].chain.wf(),
                cs == self.route_chains(route@),
                i <= route@.len(),
                resolve_all(cs.take(i as int), time) == Ok::<Seq<Closest<T>>, TfError>(out@),
            decreases route@.len() - i,
        {
            let e = route[i];
            match self.transform_data[e].chain.get_closest_transform(time) {
                Err(err) => {
                    proof {
                        assert(cs.take(i + 1).drop_last() =~= cs.take(i as int));
                        lemma_resolve_prefix_err(cs, i + 1, time);
                    }
                    return Err(err);
                },
                Ok(c) => {
                    out.push(c);
                    proof {
                        assert(cs.take(i + 1).drop_last() =~= cs.take(i as int));
                    }
                },
            }
            i += 1;
        }
        proof {
            assert(cs.take(i as int) =~= cs);
        }
        Ok(out)
    }

    /// Looks up the transform from frame `from` to frame `to` at `time`: the
    /// resolutions, in order, of the edges along a shortest path found by
    /// breadth-first search, to be composed left to right. Equal frames give the empty
    /// chain. Fails with `CouldNotFindTransform` exactly when no path joins the
    /// frames, and otherwise with the first edge that cannot be resolved.
    pub fn lookup_transform(&self, from: &str, to: &str, time: Time) -> (r: Result<
        Vec<Closest<T>>,
        TfError,
    >)
        requires
            self.wf(),
        ensures
            lookup_outcome(self@, from@, to@, time, plan_view(r)),
    {
        let from_name = from.to_owned();
        let to_name = to.to_owned();
        if from_name == to_name {
            proof {
                let p = seq![from@];
                assert(from_name@ == to_name@);
                assert(is_shortest_path(self@, from@, to@, p));
                assert(path_chains(self@, p) =~= Seq::empty());
                assert(resolve_all(path_chains(self@, p), time) == Ok::<Seq<Closest<T>>, TfError>(
                    Seq::empty(),
                ));
            }
            let empty: Vec<Closest<T>> = Vec::new();
            proof {
                assert(empty@ =~= Seq::empty());
            }
            return Ok(empty);
        }
        let f = self.frame_index(&from_name);
        let t = self.frame_index(&to_name);
        if f.is_none() || t.is_none() {
            proof {
                if connected(self@, from@, to@) {
                    let p = choose|p: Seq<Seq<char>>| is_path(self@, from@, to@, p);
                    assert(p.len() >= 2);
                    if f.is_none() {
                        let z: int = 0;
                        assert(self@.contains_key((p[z], p[z + 1])));
                        let e = choose|e: int|
                            0 <= e < self.transform_data@.len() && self.key(e) == (p[0], p[1]);
                        assert(self.name(self.transform_data@[e].parent as int) == from@);
                    } else {
                        let m = p.len() - 2;
                        assert(self@.contains_key((p[m], p[m + 1])));
                        let e = choose|e: int|
                            0 <= e < self.transform_data@.len() && self.key(e) == (p[m], p[m + 1]);
                        assert(self.name(self.transform_data@[e].child as int) == to@);
                    }
                }
            }
            return Err(TfError::CouldNotFindTransform);
        }
        let f = f.unwrap();
        let t = t.unwrap();
        match self.retrieve_transform_path(f, t) {
            None => Err(TfError::CouldNotFindTransform),
            Some(route) => {
                let ghost p = self.route_path(f as int, route@);
                let ghost cs = self.route_chains(route@);
                proof {
                    self.lemma_route_path(f as int, t as int, route@);
                    assert(self.name(f as int) == from_name@);
                    assert(from_name@ == from@);
                    assert(self.name(t as int) == to@);
                    assert(is_shortest_path(self@, from@, to@, p));
                    lemma_resolve_all_found(cs, time);
                    assert forall|k: int| 0 <= k < route@.len() implies self.transform_data@[(
                    #[trigger] route@[k]) as int].chain.wf() by {}
                }
                self.resolve_route(&route, time)
            },
        }
    }

    /// Relates `to` at `time2` to `from` at `time1` through `fixed_frame`:
    /// the chain from `from` to `fixed_frame` at `time1` and the chain from
    /// `to` to `fixed_frame` at `time2`. The caller composes the second with
    /// the inverse of the first. A failure of the first lookup comes first.
    pub fn lookup_transform_with_time_travel(
        &self,
        to: &str,
        time2: Time,
        from: &str,
        time1: Time,
        fixed_frame: &str,
    ) -> (r: Result<TravelChains<T>, TfError>)
        requires
            self.wf(),
        ensures
            match r {
                Ok(c) => lookup_outcome(self@, from@, fixed_frame@, time1, Ok(c.from_chain@))
                    && lookup_outcome(self@, to@, fixed_frame@, time2, Ok(c.to_chain@)),
                Err(e) => lookup_outcome(self@, from@, fixed_frame@, time1, Err(e)) || ((exists|
                    c: Seq<Closest<T>>,
                | lookup_outcome(self@, from@, fixed_frame@, time1, Ok(c))) && lookup_outcome(
                    self@,
                    to@,
                    fixed_frame@,
                    time2,
                    Err(e),
                )),
            },
    {
        let tf1 = self.lookup_transform(from, fixed_frame, time1);
        match tf1 {
            Err(e) => Err(e),
            Ok(c1) => {
                let tf2 = self.lookup_transform(to, fixed_frame, time2);
                match tf2 {
                    Err(e) => Err(e),
                    Ok(c2) => Ok(TravelChains { from_chain: c1, to_chain: c2 }),
                }
            },
        }
    }
}

} // verus!
