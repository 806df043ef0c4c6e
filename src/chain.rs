use vstd::prelude::*;

use crate::error::TfError;
use crate::time::Time;

verus! {

/// How many samples one edge keeps; the oldest is evicted beyond this.
pub const BUFFER_SIZE: usize = 100;

/// One observation of an edge: a transform payload valid at `stamp`.
/// Observations are ordered by their stamps alone.
#[derive(Clone, Copy, Debug)]
pub struct OrderedTF<T> {
    pub stamp: Time,
    pub transform: T,
}

impl<T> OrderedTF<T> {
    pub fn new(stamp: Time, transform: T) -> (r: Self)
        ensures
            r.stamp == stamp,
            r.transform == transform,
    {
        OrderedTF { stamp, transform }
    }
}

/// What an edge resolves to at a requested time.
#[derive(Clone, Copy, Debug, PartialEq)]
pub enum Closest<T> {
    /// A stored sample applies as it is.
    Exact(T),
    /// The time lies strictly between two neighbouring samples. The caller
    /// interpolates with weight `1 - elapsed / span` on `before` (so that a
    /// weight of one reproduces `before`), where `elapsed` is the time since
    /// `before` and `span` the time from `before` to `after`, both in
    /// nanoseconds, with `0 < elapsed < span`.
    Between { before: T, after: T, elapsed: u64, span: u64 },
}

/// The abstract state of an edge history.
pub struct ChainModel<T> {
    pub is_static: bool,
    /// The kept samples, ascending by stamp.
    pub samples: Seq<OrderedTF<T>>,
    /// The sample inserted last, kept even after it has been evicted.
    pub latest: Option<OrderedTF<T>>,
}

/// Whether the stamps of `s` never decrease.
pub open spec fn stamps_sorted<T>(s: Seq<OrderedTF<T>>) -> bool {
    forall|i: int, j: int|
        0 <= i < j < s.len() ==> #[trigger] s[i].stamp.nanos() <= #[trigger] s[j].stamp.nanos()
}

/// The first index of `s` whose stamp is not earlier than `t` (or `s.len()`).
pub open spec fn lower_bound<T>(s: Seq<OrderedTF<T>>, t: int) -> int
    decreases s.len(),
{
    if s.len() == 0 {
        0
    } else if s.last().stamp.nanos() < t {
        s.len() as int
    } else {
        lower_bound(s.drop_last(), t)
    }
}

/// `k` splits `s` into the samples earlier than `t` and the rest.
pub open spec fn splits_at<T>(s: Seq<OrderedTF<T>>, t: int, k: int) -> bool {
    &&& 0 <= k <= s.len()
    &&& forall|i: int| 0 <= i < k ==> #[trigger] s[i].stamp.nanos() < t
    &&& forall|i: int| k <= i < s.len() ==> #[trigger] s[i].stamp.nanos() >= t
}

pub proof fn lemma_lower_bound<T>(s: Seq<OrderedTF<T>>, t: int)
    requires
        stamps_sorted(s),
    ensures
        splits_at(s, t, lower_bound(s, t)),
        forall|k: int| splits_at(s, t, k) ==> k == lower_bound(s, t),
    decreases s.len(),
{
    if s.len() > 0 {
        if s.last().stamp.nanos() < t {
            assert forall|i: int| 0 <= i < s.len() implies #[trigger] s[i].stamp.nanos() < t by {
                if i < s.len() - 1 {
                    assert(s[i].stamp.nanos() <= s[s.len() - 1].stamp.nanos());
                }
            }
        } else {
            let p = s.drop_last();
            assert forall|i: int, j: int|
                0 <= i < j < p.len() implies #[trigger] p[i].stamp.nanos()
                <= #[trigger] p[j].stamp.nanos() by {
                assert(s[i].stamp.nanos() <= s[j].stamp.nanos());
            }
            lemma_lower_bound(p, t);
            let k0 = lower_bound(p, t);
            assert(splits_at(s, t, k0)) by {
                assert forall|i: int| 0 <= i < k0 implies #[trigger] s[i].stamp.nanos() < t by {
                    assert(p[i].stamp.nanos() < t);
                }
                assert forall|i: int| k0 <= i < s.len() implies #[trigger] s[i].stamp.nanos()
                    >= t by {
                    if i < s.len() - 1 {
                        assert(p[i].stamp.nanos() >= t);
                    }
                }
            }
        }
        let lb = lower_bound(s, t);
        assert forall|k: int| splits_at(s, t, k) implies k == lb by {
            if k < lb {
                assert(s[k].stamp.nanos() >= t);
                assert(s[k].stamp.nanos() < t);
            } else if lb < k {
                assert(s[lb].stamp.nanos() >= t);
                assert(s[lb].stamp.nanos() < t);
            }
        }
    }
}

impl<T> ChainModel<T> {
    pub open spec fn wf(self) -> bool {
        &&& stamps_sorted(self.samples)
        &&& self.samples.len() <= BUFFER_SIZE
        &&& (self.latest is None <==> self.samples.len() == 0)
    }

    /// The samples after `s` has been placed ahead of any with an equal or
    /// later stamp, before eviction.
    pub open spec fn grown(self, s: OrderedTF<T>) -> Seq<OrderedTF<T>> {
        self.samples.insert(lower_bound(self.samples, s.stamp.nanos()), s)
    }

    /// The history after inserting `s`: the oldest sample is evicted when the
    /// capacity is exceeded.
    pub open spec fn inserted(self, s: OrderedTF<T>) -> ChainModel<T> {
        let g = self.grown(s);
        ChainModel {
            is_static: self.is_static,
            samples: if g.len() > BUFFER_SIZE {
                g.drop_first()
            } else {
                g
            },
            latest: Some(s),
        }
    }

    /// What the history answers for `time`.
    pub open spec fn closest(self, time: Time) -> Result<Closest<T>, TfError> {
        if self.is_static {
            match self.latest {
                Some(s) => Ok(Closest::Exact(s.transform)),
                None => Err(TfError::AttemptedLookupInPast),
            }
        } else {
            let s = self.samples;
            let t = time.nanos();
            let k = lower_bound(s, t);
            if k < s.len() && s[k].stamp.nanos() == t {
                Ok(Closest::Exact(s[k].transform))
            } else if k == 0 {
                Err(TfError::AttemptedLookupInPast)
            } else if k >= s.len() {
                Err(TfError::AttemptedLookUpInFuture)
            } else {
                Ok(
                    Closest::Between {
                        before: s[k - 1].transform,
                        after: s[k].transform,
                        elapsed: (t - s[k - 1].stamp.nanos()) as u64,
                        span: (s[k].stamp.nanos() - s[k - 1].stamp.nanos()) as u64,
                    },
                )
            }
        }
    }
}

/// Inserting into a well-formed history keeps it well formed.
pub proof fn lemma_inserted_wf<T>(h: ChainModel<T>, s: OrderedTF<T>)
    requires
        h.wf(),
    ensures
        stamps_sorted(h.grown(s)),
        h.inserted(s).wf(),
{
    let old_s = h.samples;
    let t = s.stamp.nanos();
    lemma_lower_bound(old_s, t);
    let k = lower_bound(old_s, t);
    let g = h.grown(s);
    assert forall|i: int, j: int|
        0 <= i < j < g.len() implies #[trigger] g[i].stamp.nanos() <= #[trigger] g[j].stamp.nanos() by {
        if j < k {
            assert(old_s[i].stamp.nanos() <= old_s[j].stamp.nanos());
        } else if j == k {
            assert(old_s[i].stamp.nanos() < t);
        } else if i < k {
            assert(old_s[i].stamp.nanos() <= old_s[j - 1].stamp.nanos());
        } else if i == k {
            assert(old_s[j - 1].stamp.nanos() >= t);
        } else {
            assert(old_s[i - 1].stamp.nanos() <= old_s[j - 1].stamp.nanos());
        }
    }
    if g.len() > BUFFER_SIZE {
        let d = g.drop_first();
        assert forall|i: int, j: int|
            0 <= i < j < d.len() implies #[trigger] d[i].stamp.nanos() <= #[trigger] d[j].stamp.nanos() by {
            assert(g[i + 1].stamp.nanos() <= g[j + 1].stamp.nanos());
        }
    }
}

/// A static history that has recorded `s` answers every time with `s`.
pub proof fn lemma_static_ignores_time<T>(h: ChainModel<T>, s: OrderedTF<T>, t1: Time, t2: Time)
    requires
        h.is_static,
    ensures
        h.inserted(s).closest(t1) == h.inserted(s).closest(t2),
        h.inserted(s).closest(t1) == Ok::<Closest<T>, TfError>(Closest::Exact(s.transform)),
{
}

/// A dynamic history refuses a time before its first sample as lying in the
/// past, and a time after its last sample as lying in the future.
pub proof fn lemma_outside_history<T>(h: ChainModel<T>, time: Time)
    requires
        h.wf(),
        !h.is_static,
        h.samples.len() > 0,
    ensures
        time.nanos() < h.samples[0].stamp.nanos() ==> h.closest(time) == Err::<Closest<T>, TfError>(
            TfError::AttemptedLookupInPast,
        ),
        time.nanos() > h.samples.last().stamp.nanos() ==> h.closest(time) == Err::<
            Closest<T>,
            TfError,
        >(TfError::AttemptedLookUpInFuture),
{
    let s = h.samples;
    let t = time.nanos();
    lemma_lower_bound(s, t);
    if t < s[0].stamp.nanos() {
        assert forall|i: int| 0 <= i < s.len() implies #[trigger] s[i].stamp.nanos() >= t by {
            if i > 0 {
                assert(s[0].stamp.nanos() <= s[i].stamp.nanos());
            }
        }
        assert(splits_at(s, t, 0));
    }
    if t > s.last().stamp.nanos() {
        assert forall|i: int| 0 <= i < s.len() implies #[trigger] s[i].stamp.nanos() < t by {
            if i < s.len() - 1 {
                assert(s[i].stamp.nanos() <= s[s.len() - 1].stamp.nanos());
            }
        }
        assert(splits_at(s, t, s.len() as int));
    }
}

/// The history after inserting each of `ss` in order.
pub open spec fn inserted_all<T>(h: ChainModel<T>, ss: Seq<OrderedTF<T>>) -> ChainModel<T>
    decreases ss.len(),
{
    if ss.len() == 0 {
        h
    } else {
        inserted_all(h, ss.drop_last()).inserted(ss.last())
    }
}

/// Inserting samples one by one keeps all of them up to the capacity and
/// exactly the capacity beyond it. Every sample kept was offered (held
/// before or inserted), and every offered sample that was dropped is no later
/// than every sample kept: the history keeps the most recent ones.
pub proof fn lemma_keeps_most_recent<T>(h: ChainModel<T>, ss: Seq<OrderedTF<T>>)
    requires
        h.wf(),
    ensures
        inserted_all(h, ss).wf(),
        inserted_all(h, ss).samples.len() == if h.samples.len() + ss.len() <= BUFFER_SIZE {
            h.samples.len() + ss.len()
        } else {
            BUFFER_SIZE as nat
        },
        forall|y: OrderedTF<T>| #[trigger]
            inserted_all(h, ss).samples.contains(y) ==> h.samples.contains(y) || ss.contains(y),
        forall|x: OrderedTF<T>, y: OrderedTF<T>|
            (h.samples.contains(x) || ss.contains(x)) && !inserted_all(h, ss).samples.contains(x)
                && #[trigger] inserted_all(h, ss).samples.contains(y) ==> #[trigger] x.stamp.nanos()
                <= y.stamp.nanos(),
        h.samples.len() + ss.len() <= BUFFER_SIZE ==> forall|x: OrderedTF<T>|
            (h.samples.contains(x) || ss.contains(x)) ==> #[trigger] inserted_all(
                h,
                ss,
            ).samples.contains(x),
    decreases ss.len(),
{
    if ss.len() > 0 {
        let ss0 = ss.drop_last();
        let s = ss.last();
        lemma_keeps_most_recent(h, ss0);
        let h1 = inserted_all(h, ss0);
        let r1 = h1.samples;
        lemma_inserted_wf(h1, s);
        lemma_lower_bound(r1, s.stamp.nanos());
        let k = lower_bound(r1, s.stamp.nanos());
        let g = h1.grown(s);
        let r = inserted_all(h, ss).samples;
        assert(g == r1.insert(k, s));
        assert forall|z: OrderedTF<T>| #[trigger] g.contains(z) <==> r1.contains(z) || z == s by {
            if g.contains(z) {
                let i = choose|i: int| 0 <= i < g.len() && g[i] == z;
                if i < k {
                    assert(r1[i] == z);
                } else if i > k {
                    assert(r1[i - 1] == z);
                }
            }
            if r1.contains(z) {
                let i = choose|i: int| 0 <= i < r1.len() && r1[i] == z;
                if i < k {
                    assert(g[i] == z);
                } else {
                    assert(g[i + 1] == z);
                }
            }
            if z == s {
                assert(g[k] == z);
            }
        }
        assert forall|z: OrderedTF<T>| ss0.contains(z) implies #[trigger] ss.contains(z) by {
            let i = choose|i: int| 0 <= i < ss0.len() && ss0[i] == z;
            assert(ss[i] == z);
        }
        assert forall|z: OrderedTF<T>| #[trigger] ss.contains(z) implies ss0.contains(z) || z == s by {
            let i = choose|i: int| 0 <= i < ss.len() && ss[i] == z;
            if i < ss0.len() {
                assert(ss0[i] == z);
            }
        }
        if g.len() > BUFFER_SIZE {
            assert(r == g.drop_first());
            assert forall|z: OrderedTF<T>| #[trigger] r.contains(z) implies g.contains(z) by {
                let i = choose|i: int| 0 <= i < r.len() && r[i] == z;
                assert(g[i + 1] == z);
            }
            assert forall|x: OrderedTF<T>, y: OrderedTF<T>|
                (h.samples.contains(x) || ss.contains(x)) && !r.contains(x)
                    && #[trigger] r.contains(y) implies #[trigger] x.stamp.nanos() <= y.stamp.nanos() by {
                let j = choose|j: int| 0 <= j < r.len() && r[j] == y;
                assert(g[j + 1] == y);
                assert(g[0].stamp.nanos() <= g[j + 1].stamp.nanos());
                if g.contains(x) {
                    let i = choose|i: int| 0 <= i < g.len() && g[i] == x;
                    if i > 0 {
                        assert(r[i - 1] == x);
                    }
                } else if r1.contains(y) {
                } else {
                    assert(j + 1 == k) by {
                        if j + 1 < k {
                            assert(r1[j + 1] == y);
                        } else if j + 1 > k {
                            assert(r1[j] == y);
                        }
                    }
                    assert(r1.contains(g[0]));
                }
            }
        } else {
            assert(r == g);
        }
    }
}

/// The time-ordered history of one directed edge.
pub struct TfIndividualTransformChain<T> {
    static_tf: bool,
    transform_chain: Vec<OrderedTF<T>>,
    latest: Option<OrderedTF<T>>,
}

impl<T> View for TfIndividualTransformChain<T> {
    type V = ChainModel<T>;

    closed spec fn view(&self) -> ChainModel<T> {
        ChainModel { is_static: self.static_tf, samples: self.transform_chain@, latest: self.latest }
    }
}

impl<T: Copy> TfIndividualTransformChain<T> {
    pub open spec fn wf(&self) -> bool {
        self@.wf()
    }

    /// An empty history; a static one answers every time with its latest sample.
    pub fn new(static_tf: bool) -> (r: Self)
        ensures
            r.wf(),
            r@ == (ChainModel::<T> { is_static: static_tf, samples: Seq::empty(), latest: None }),
    {
        let r = TfIndividualTransformChain { static_tf, transform_chain: Vec::new(), latest: None };
        assert(r@.samples =~= Seq::empty());
        r
    }

    /// Whether the history was created for a static edge.
    pub fn is_static(&self) -> (r: bool)
        ensures
            r == self@.is_static,
    {
        self.static_tf
    }

    /// The number of samples kept.
    pub fn len(&self) -> (r: usize)
        ensures
            r == self@.samples.len(),
    {
        self.transform_chain.len()
    }

    /// The index of the first kept sample whose stamp is not earlier than `t`.
    fn search(&self, t: u64) -> (r: usize)
        requires
            self.wf(),
        ensures
            r == lower_bound(self@.samples, t as int),
    {
        let ghost s = self@.samples;
        let mut lo: usize = 0;
        let mut hi: usize = self.transform_chain.len();
        while lo < hi
            invariant
                s == self.transform_chain@,
                stamps_sorted(s),
                0 <= lo <= hi <= s.len(),
                forall|i: int| 0 <= i < lo ==> #[trigger] s[i].stamp.nanos() < t,
                forall|i: int| hi <= i < s.len() ==> #[trigger] s[i].stamp.nanos() >= t,
            decreases hi - lo,
        {
            let mid = lo + (hi - lo) / 2;
            if self.transform_chain[mid].stamp.to_nanos() < t {
                assert forall|i: int| 0 <= i <= mid implies #[trigger] s[i].stamp.nanos() < t by {
                    if i < mid {
                        assert(s[i].stamp.nanos() <= s[mid as int].stamp.nanos());
                    }
                }
                lo = mid + 1;
            } else {
                assert forall|i: int| mid <= i < s.len() implies #[trigger] s[i].stamp.nanos()
                    >= t by {
                    if mid < i {
                        assert(s[mid as int].stamp.nanos() <= s[i].stamp.nanos());
                    }
                }
                hi = mid;
            }
        }
        proof {
            lemma_lower_bound(s, t as int);
            assert(splits_at(s, t as int, lo as int));
        }
        lo
    }

    /// Inserts `msg` ahead of any kept sample with an equal or later stamp,
    /// then evicts the oldest sample if the capacity is exceeded.
    pub fn add_to_buffer(&mut self, msg: OrderedTF<T>)
        requires
            old(self).wf(),
        ensures
            final(self).wf(),
            final(self)@ == old(self)@.inserted(msg),
    {
        let ghost s = self@.samples;
        let t = msg.stamp.to_nanos();
        let k = self.search(t);
        proof {
            lemma_lower_bound(s, t as int);
        }
        self.transform_chain.insert(k, msg);
        let ghost g = self.transform_chain@;
        assert(g == old(self)@.grown(msg));
        proof {
            lemma_inserted_wf(old(self)@, msg);
        }
        if self.transform_chain.len() > BUFFER_SIZE {
            self.transform_chain.remove(0);
            assert(self.transform_chain@ == g.drop_first());
        }
        self.latest = Some(msg);
    }

    /// Resolves the history at `time`. A static history answers with the
    /// sample inserted last, whatever the time. A dynamic one answers with the
    /// first kept sample stamped exactly `time`; else with the two samples
    /// around it; else it fails: `AttemptedLookupInPast` when `time` precedes
    /// every kept sample (or none is kept), `AttemptedLookUpInFuture` when it
    /// follows them all.
    pub fn get_closest_transform(&self, time: Time) -> (r: Result<Closest<T>, TfError>)
        requires
            self.wf(),
        ensures
            r == self@.closest(time),
    {
        if self.static_tf {
            return match self.latest {
                Some(s) => Ok(Closest::Exact(s.transform)),
                None => Err(TfError::AttemptedLookupInPast),
            };
        }
        let ghost s = self@.samples;
        let t = time.to_nanos();
        let k = self.search(t);
        proof {
            lemma_lower_bound(s, t as int);
        }
        let n = self.transform_chain.len();
        if k < n && self.transform_chain[k].stamp.to_nanos() == t {
            return Ok(Closest::Exact(self.transform_chain[k].transform));
        }
        if k == 0 {
            return Err(TfError::AttemptedLookupInPast);
        }
        if k >= n {
            return Err(TfError::AttemptedLookUpInFuture);
        }
        let before = self.transform_chain[k - 1];
        let after = self.transform_chain[k];
        let t0 = before.stamp.to_nanos();
        let t1 = after.stamp.to_nanos();
        Ok(
            Closest::Between {
                before: before.transform,
                after: after.transform,
                elapsed: t - t0,
                span: t1 - t0,
            },
        )
    }
}

} // verus!
