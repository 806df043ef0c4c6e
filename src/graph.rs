use vstd::prelude::*;

use crate::buffer::TransformUpdate;
use crate::chain::{ChainModel, Closest, OrderedTF};
use crate::error::TfError;
use crate::time::Time;

verus! {

/// The abstract frame graph: the history of each directed edge, keyed by
/// (parent frame name, child frame name). A frame `c` is adjacent to `p`
/// exactly when the key `(p, c)` is present.
pub type GraphModel<T> = Map<(Seq<char>, Seq<char>), ChainModel<T>>;

/// The graph after `s` has been recorded on edge `parent -> child`. An edge seen
/// for the first time gets a fresh history, static exactly when `static_tf`.
pub open spec fn with_sample<T>(
    g: GraphModel<T>,
    parent: Seq<char>,
    child: Seq<char>,
    s: OrderedTF<T>,
    static_tf: bool,
) -> GraphModel<T> {
    let key = (parent, child);
    let h = if g.contains_key(key) {
        g[key]
    } else {
        ChainModel { is_static: static_tf, samples: Seq::empty(), latest: None }
    };
    g.insert(key, h.inserted(s))
}

/// The graph after one update: the transform as given, then its inverse on the
/// reversed edge.
pub open spec fn with_update<T>(g: GraphModel<T>, u: TransformUpdate<T>, static_tf: bool) -> GraphModel<
    T,
> {
    let t = u.transform;
    let g1 = with_sample(
        g,
        t.parent@,
        t.child@,
        OrderedTF { stamp: t.stamp, transform: t.transform },
        static_tf,
    );
    with_sample(g1, t.child@, t.parent@, OrderedTF { stamp: t.stamp, transform: u.inverse }, static_tf)
}

/// The graph after a batch of updates, applied in order.
pub open spec fn with_updates<T>(
    g: GraphModel<T>,
    us: Seq<TransformUpdate<T>>,
    static_tf: bool,
) -> GraphModel<T>
    decreases us.len(),
{
    if us.len() == 0 {
        g
    } else {
        with_update(with_updates(g, us.drop_last(), static_tf), us.last(), static_tf)
    }
}

/// Every update stores its transform on the edge from parent to child and its
/// inverse on the edge from child to parent, and no edge already stored is
/// lost: the graph only grows, and always in both directions.
pub proof fn lemma_updates_store_both_directions<T>(
    g: GraphModel<T>,
    us: Seq<TransformUpdate<T>>,
    static_tf: bool,
)
    ensures
        forall|k: (Seq<char>, Seq<char>)| #[trigger]
            g.contains_key(k) ==> with_updates(g, us, static_tf).contains_key(k),
        forall|i: int|
            0 <= i < us.len() ==> with_updates(g, us, static_tf).contains_key(
                ((#[trigger] us[i]).transform.parent@, us[i].transform.child@),
            ) && with_updates(g, us, static_tf).contains_key(
                (us[i].transform.child@, us[i].transform.parent@),
            ),
    decreases us.len(),
{
    if us.len() > 0 {
        let us0 = us.drop_last();
        lemma_updates_store_both_directions(g, us0, static_tf);
        assert forall|i: int|
            0 <= i < us.len() implies with_updates(g, us, static_tf).contains_key(
            ((#[trigger] us[i]).transform.parent@, us[i].transform.child@),
        ) && with_updates(g, us, static_tf).contains_key(
            (us[i].transform.child@, us[i].transform.parent@),
        ) by {
            if i < us.len() - 1 {
                assert(us[i] == us0[i]);
            }
        }
    }
}

/// `p` lists frames from `from` to `to`, each consecutive pair a stored edge.
pub open spec fn is_path<T>(g: GraphModel<T>, from: Seq<char>, to: Seq<char>, p: Seq<Seq<char>>) -> bool {
    &&& p.len() >= 1
    &&& p[0] == from
    &&& p.last() == to
    &&& forall|i: int| 0 <= i < p.len() - 1 ==> #[trigger] g.contains_key((p[i], p[i + 1]))
}

/// `p` is a path from `from` to `to` with as few edges as any other.
pub open spec fn is_shortest_path<T>(
    g: GraphModel<T>,
    from: Seq<char>,
    to: Seq<char>,
    p: Seq<Seq<char>>,
) -> bool {
    &&& is_path(g, from, to, p)
    &&& forall|q: Seq<Seq<char>>| #[trigger] is_path(g, from, to, q) ==> p.len() <= q.len()
}

pub open spec fn connected<T>(g: GraphModel<T>, from: Seq<char>, to: Seq<char>) -> bool {
    exists|p: Seq<Seq<char>>| is_path(g, from, to, p)
}

/// The histories of the edges along `p`, in order.
pub open spec fn path_chains<T>(g: GraphModel<T>, p: Seq<Seq<char>>) -> Seq<ChainModel<T>> {
    Seq::new((p.len() - 1) as nat, |i: int| g[(p[i], p[i + 1])])
}

/// Resolves each history at `time`, in order; the first failure is the result.
pub open spec fn resolve_all<T>(cs: Seq<ChainModel<T>>, time: Time) -> Result<
    Seq<Closest<T>>,
    TfError,
>
    decreases cs.len(),
{
    if cs.len() == 0 {
        Ok(Seq::empty())
    } else {
        match resolve_all(cs.drop_last(), time) {
            Err(e) => Err(e),
            Ok(v) => match cs.last().closest(time) {
                Err(e) => Err(e),
                Ok(c) => Ok(v.push(c)),
            },
        }
    }
}

/// `r` is a correct answer to a lookup from `from` to `to` at `time`: it is
/// `CouldNotFindTransform` exactly when no path joins the frames, and
/// otherwise the resolution of the edges along one shortest such path (which
/// one, among several of equal length, is left open).
pub open spec fn lookup_outcome<T>(
    g: GraphModel<T>,
    from: Seq<char>,
    to: Seq<char>,
    time: Time,
    r: Result<Seq<Closest<T>>, TfError>,
) -> bool {
    &&& (r == Err::<Seq<Closest<T>>, TfError>(TfError::CouldNotFindTransform)) == !connected(
        g,
        from,
        to,
    )
    &&& connected(g, from, to) ==> exists|p: Seq<Seq<char>>|
        is_shortest_path(g, from, to, p) && resolve_all(path_chains(g, p), time) == r
}

pub open spec fn plan_view<T>(r: Result<Vec<Closest<T>>, TfError>) -> Result<
    Seq<Closest<T>>,
    TfError,
> {
    match r {
        Ok(v) => Ok(v@),
        Err(e) => Err(e),
    }
}

/// Resolving histories never reports a missing path.
pub proof fn lemma_resolve_all_found<T>(cs: Seq<ChainModel<T>>, time: Time)
    ensures
        resolve_all(cs, time) != Err::<Seq<Closest<T>>, TfError>(TfError::CouldNotFindTransform),
    decreases cs.len(),
{
    if cs.len() > 0 {
        lemma_resolve_all_found(cs.drop_last(), time);
    }
}

/// Once a prefix fails, the whole sequence fails with the same error.
pub proof fn lemma_resolve_prefix_err<T>(cs: Seq<ChainModel<T>>, i: int, time: Time)
    requires
        0 <= i <= cs.len(),
        resolve_all(cs.take(i), time) is Err,
    ensures
        resolve_all(cs, time) == resolve_all(cs.take(i), time),
    decreases cs.len() - i,
{
    if i == cs.len() {
        assert(cs.take(i) =~= cs);
    } else {
        assert(cs.take(i + 1).drop_last() =~= cs.take(i));
        lemma_resolve_prefix_err(cs, i + 1, time);
    }
}

} // verus!
