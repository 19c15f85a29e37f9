//! The transform store: frame table, relationship map, path resolution and
//! the time-indexed lookups built on them.

use vstd::prelude::*;
use vstd::string::StringExecFns;
use crate::chain::{chain_after_add, closest_of, lemma_upper_bound_bounds, upper_bound,
    ChainView, TfIndividualTransformChain, TransformSample, MAX_BUFFER_SIZE};
use crate::error::TfError;
use crate::graph::TfGraphNode;
use crate::msg::{Duration, TFMessage, Time, TransformStamped};
use crate::utils::{get_inverse, tf_inverse};

verus! {

/// The answer to a single-time lookup, short of the numeric work: the
/// answer's header, and one resolved sample per relationship along the
/// discovered frame path. The math layer realizes each step and chains the
/// results left to right, from the source frame towards the target frame;
/// no steps at all realize as the identity transform.
#[derive(PartialEq, Eq, Debug)]
pub struct StampedTransformPlan {
    pub frame_id: String,
    pub child_frame_id: String,
    pub stamp: Time,
    pub seq: u32,
    pub steps: Vec<TransformSample>,
}

/// The answer to a time-travel lookup, short of the numeric work. The math
/// layer realizes and chains `target_steps` (target frame to fixed frame at
/// the target time) and `source_steps` (source frame to fixed frame at the
/// source time), then composes the former with the inverse of the latter.
#[derive(PartialEq, Eq, Debug)]
pub struct TimeTravelPlan {
    pub frame_id: String,
    pub child_frame_id: String,
    pub stamp: Time,
    pub seq: u32,
    pub target_steps: Vec<TransformSample>,
    pub source_steps: Vec<TransformSample>,
}

/// Each step answers the time query of one path edge, in path order.
pub open spec fn steps_follow_path(
    m: Map<(Seq<char>, Seq<char>), ChainView>,
    path: Seq<Seq<char>>,
    time: Time,
    steps: Seq<TransformSample>,
) -> bool {
    &&& steps.len() + 1 == path.len()
    &&& (forall|i: int|
        0 <= i < steps.len() ==> m.dom().contains(((#[trigger] path[i]), path[i + 1]))
            && closest_of(m[(path[i], path[i + 1])], time) == Ok::<TransformSample, TfError>(
            steps[i],
        ))
}

/// One resolved sample: the relationship from `a` to `b` is recorded and
/// its buffer answers the time query with `s`. Opaque so that search loops
/// carry it cheaply; proofs reveal it where it is made or used.
#[verifier::opaque]
pub open spec fn step_resolves(
    m: Map<(Seq<char>, Seq<char>), ChainView>,
    a: Seq<char>,
    b: Seq<char>,
    time: Time,
    s: TransformSample,
) -> bool {
    m.dom().contains((a, b)) && closest_of(m[(a, b)], time) == Ok::<TransformSample, TfError>(s)
}

/// A buffer content after one more sample: the static flag stays, the
/// samples gain `t` at its sorted slot (with capacity eviction).
pub open spec fn chain_view_add(cv: ChainView, t: TransformStamped) -> ChainView {
    ChainView { is_static: cv.is_static, samples: chain_after_add(cv.samples, t) }
}

/// The store content after recording one observation: the buffer of the
/// observation's (parent, child) relationship — created around the given
/// static flag if the relationship is new, with its recorded flag kept
/// otherwise — gains the sample.
pub open spec fn store_add(
    m: Map<(Seq<char>, Seq<char>), ChainView>,
    t: TransformStamped,
    static_tf: bool,
) -> Map<(Seq<char>, Seq<char>), ChainView> {
    let key = (t.header.frame_id@, t.child_frame_id@);
    let cv = if m.dom().contains(key) {
        m[key]
    } else {
        ChainView { is_static: static_tf, samples: Seq::empty() }
    };
    m.insert(key, chain_view_add(cv, t))
}

/// The store content after a whole batch: each observation is recorded
/// together with its algebraic inverse, in batch order.
pub open spec fn store_ingest(
    m: Map<(Seq<char>, Seq<char>), ChainView>,
    batch: Seq<TransformStamped>,
    static_tf: bool,
) -> Map<(Seq<char>, Seq<char>), ChainView>
    decreases batch.len(),
{
    if batch.len() == 0 {
        m
    } else {
        store_ingest(
            store_add(store_add(m, batch[0], static_tf), tf_inverse(batch[0]), static_tf),
            batch.drop_first(),
            static_tf,
        )
    }
}

/// Ingestion peels the batch from the front; this restates it from the back,
/// for reasoning that follows a loop.
pub proof fn lemma_store_ingest_push(
    m: Map<(Seq<char>, Seq<char>), ChainView>,
    batch: Seq<TransformStamped>,
    x: TransformStamped,
    static_tf: bool,
)
    ensures
        store_ingest(m, batch.push(x), static_tf) == store_add(
            store_add(store_ingest(m, batch, static_tf), x, static_tf),
            tf_inverse(x),
            static_tf,
        ),
    decreases batch.len(),
{
    if batch.len() == 0 {
        let a2 = store_add(store_add(m, x, static_tf), tf_inverse(x), static_tf);
        assert(batch.push(x)[0] == x);
        assert(batch.push(x).drop_first() =~= Seq::<TransformStamped>::empty());
        assert(store_ingest(m, batch.push(x), static_tf) == store_ingest(
            a2,
            batch.push(x).drop_first(),
            static_tf,
        ));
        assert(store_ingest(a2, Seq::<TransformStamped>::empty(), static_tf) == a2);
        assert(store_ingest(m, batch, static_tf) == m);
    } else {
        assert(batch.push(x)[0] == batch[0]);
        assert(batch.push(x).drop_first() =~= batch.drop_first().push(x));
        lemma_store_ingest_push(
            store_add(store_add(m, batch[0], static_tf), tf_inverse(batch[0]), static_tf),
            batch.drop_first(),
            x,
            static_tf,
        );
    }
}

/// The samples of a buffer, each replaced by its algebraic inverse.
pub open spec fn inverse_of_all(s: Seq<TransformStamped>) -> Seq<TransformStamped> {
    s.map_values(|t: TransformStamped| tf_inverse(t))
}

/// Every relationship in the store is present together with its algebraic
/// inverse: the reversed frame pair is recorded too, with the same static
/// flag, and its samples are exactly the inverses of the forward samples.
pub open spec fn store_mirrored(m: Map<(Seq<char>, Seq<char>), ChainView>) -> bool {
    forall|k: (Seq<char>, Seq<char>)| #[trigger] m.dom().contains(k) ==> {
        &&& m.dom().contains((k.1, k.0))
        &&& m[(k.1, k.0)].is_static == m[k].is_static
        &&& m[(k.1, k.0)].samples == inverse_of_all(m[k].samples)
    }
}

/// Inverting every sample twice gives the samples back.
proof fn lemma_inverse_of_all_involutive(s: Seq<TransformStamped>)
    ensures
        inverse_of_all(inverse_of_all(s)) == s,
{
    assert forall|i: int| 0 <= i < s.len() implies inverse_of_all(inverse_of_all(s))[i]
        == s[i] by {
        assert(inverse_of_all(s)[i] == tf_inverse(s[i]));
        assert(tf_inverse(tf_inverse(s[i])) == s[i]);
    }
    assert(inverse_of_all(inverse_of_all(s)) =~= s);
}

/// Inversion keeps every stamp, so it keeps insertion positions.
proof fn lemma_upper_bound_inverse(s: Seq<TransformStamped>, t: int)
    ensures
        upper_bound(inverse_of_all(s), t) == upper_bound(s, t),
    decreases s.len(),
{
    let ms = inverse_of_all(s);
    if s.len() > 0 {
        assert(ms.last() == tf_inverse(s.last()));
        assert(ms.last().header.stamp == s.last().header.stamp);
        assert(ms.drop_last() =~= inverse_of_all(s.drop_last()));
        lemma_upper_bound_inverse(s.drop_last(), t);
    }
}

/// Inserting a sample and inverting everything is the same as inverting
/// everything and inserting the inverted sample.
proof fn lemma_chain_after_add_inverse(s: Seq<TransformStamped>, msg: TransformStamped)
    ensures
        inverse_of_all(chain_after_add(s, msg)) == chain_after_add(
            inverse_of_all(s),
            tf_inverse(msg),
        ),
{
    let t = msg.header.stamp.nanos();
    assert(tf_inverse(msg).header.stamp == msg.header.stamp);
    lemma_upper_bound_inverse(s, t);
    lemma_upper_bound_bounds(s, t);
    let u = upper_bound(s, t);
    assert(inverse_of_all(s).len() == s.len());
    let ins = s.insert(u, msg);
    let mins = inverse_of_all(s).insert(u, tf_inverse(msg));
    assert(inverse_of_all(ins) =~= mins) by {
        assert forall|i: int| 0 <= i < ins.len() implies inverse_of_all(ins)[i] == mins[i] by {
            assert(inverse_of_all(ins)[i] == tf_inverse(ins[i]));
            if i < u {
                assert(ins[i] == s[i]);
                assert(mins[i] == inverse_of_all(s)[i]);
                assert(inverse_of_all(s)[i] == tf_inverse(s[i]));
            } else if i == u {
                assert(ins[i] == msg);
                assert(mins[i] == tf_inverse(msg));
            } else {
                assert(ins[i] == s[i - 1]);
                assert(mins[i] == inverse_of_all(s)[i - 1]);
                assert(inverse_of_all(s)[i - 1] == tf_inverse(s[i - 1]));
            }
        }
    }
    if ins.len() > MAX_BUFFER_SIZE {
        assert(inverse_of_all(ins.subrange(1, ins.len() as int)) =~= inverse_of_all(
            ins,
        ).subrange(1, ins.len() as int)) by {
            assert forall|i: int|
                0 <= i < ins.len() - 1 implies inverse_of_all(
                ins.subrange(1, ins.len() as int),
            )[i] == inverse_of_all(ins).subrange(1, ins.len() as int)[i] by {
                assert(ins.subrange(1, ins.len() as int)[i] == ins[i + 1]);
            }
        }
    }
}

/// Recording one observation and then its algebraic inverse keeps the store
/// mirrored, as long as the observation relates two distinct frames.
proof fn lemma_store_add_pair_mirrored(
    m: Map<(Seq<char>, Seq<char>), ChainView>,
    t: TransformStamped,
    static_tf: bool,
)
    requires
        store_mirrored(m),
        t.header.frame_id@ != t.child_frame_id@,
    ensures
        store_mirrored(store_add(store_add(m, t, static_tf), tf_inverse(t), static_tf)),
{
    let k = (t.header.frame_id@, t.child_frame_id@);
    let rk = (t.child_frame_id@, t.header.frame_id@);
    let ti = tf_inverse(t);
    assert(k != rk);
    let cv_k = if m.dom().contains(k) {
        m[k]
    } else {
        ChainView { is_static: static_tf, samples: Seq::empty() }
    };
    let cv_rk = if m.dom().contains(rk) {
        m[rk]
    } else {
        ChainView { is_static: static_tf, samples: Seq::empty() }
    };
    if m.dom().contains(rk) && !m.dom().contains(k) {
        assert(m.dom().contains((rk.1, rk.0)));
        assert(false);
    }
    if !m.dom().contains(k) {
        assert(cv_rk.samples =~= inverse_of_all(cv_k.samples));
    }
    let m1 = store_add(m, t, static_tf);
    let m2 = store_add(m1, ti, static_tf);
    assert(m1 == m.insert(k, chain_view_add(cv_k, t)));
    assert(m2 == m1.insert(rk, chain_view_add(cv_rk, ti)));
    lemma_chain_after_add_inverse(cv_k.samples, t);
    assert(m2[rk].samples == inverse_of_all(m2[k].samples));
    lemma_inverse_of_all_involutive(m2[k].samples);
    assert forall|k2: (Seq<char>, Seq<char>)| #[trigger] m2.dom().contains(k2) implies {
        &&& m2.dom().contains((k2.1, k2.0))
        &&& m2[(k2.1, k2.0)].is_static == m2[k2].is_static
        &&& m2[(k2.1, k2.0)].samples == inverse_of_all(m2[k2].samples)
    } by {
        if k2 == k {
        } else if k2 == rk {
            assert(m2[(rk.1, rk.0)] == m2[k]);
            assert(m2[k].samples == inverse_of_all(m2[rk].samples));
        } else {
            assert(m.dom().contains(k2));
            assert((k2.1, k2.0) != k) by {
                if (k2.1, k2.0) == k {
                    assert(k2 == rk);
                }
            }
            assert((k2.1, k2.0) != rk) by {
                if (k2.1, k2.0) == rk {
                    assert(k2 == k);
                }
            }
            assert(m2[k2] == m[k2]);
            assert(m2[(k2.1, k2.0)] == m[(k2.1, k2.0)]);
        }
    }
}

/// Taking in a batch of observations relating distinct frames keeps the
/// store mirrored: for every recorded relationship, its algebraic inverse —
/// the reversed frame pair, same flag, inverted samples — is recorded too.
/// A store built from nothing but `new` and ingestion is therefore always
/// mirrored.
pub proof fn lemma_store_ingest_mirrored(
    m: Map<(Seq<char>, Seq<char>), ChainView>,
    batch: Seq<TransformStamped>,
    static_tf: bool,
)
    requires
        store_mirrored(m),
        forall|j: int|
            0 <= j < batch.len() ==> (#[trigger] batch[j]).header.frame_id@
                != batch[j].child_frame_id@,
    ensures
        store_mirrored(store_ingest(m, batch, static_tf)),
    decreases batch.len(),
{
    if batch.len() > 0 {
        lemma_store_add_pair_mirrored(m, batch[0], static_tf);
        let m2 = store_add(store_add(m, batch[0], static_tf), tf_inverse(batch[0]), static_tf);
        assert forall|j: int|
            0 <= j < batch.drop_first().len() implies (#[trigger] batch.drop_first()[j]).header.frame_id@
            != batch.drop_first()[j].child_frame_id@ by {
            assert(batch.drop_first()[j] == batch[j + 1]);
        }
        lemma_store_ingest_mirrored(m2, batch.drop_first(), static_tf);
    }
}

/// An empty store is trivially mirrored.
pub proof fn lemma_empty_store_mirrored()
    ensures
        store_mirrored(Map::<(Seq<char>, Seq<char>), ChainView>::empty()),
{
}

/// A chain of direct relationships in `m`: consecutive path entries are
/// recorded parent-to-child edges leading from `from` to `to`. A one-entry
/// path (`from == to`) needs no edge at all.
pub open spec fn spec_path(
    m: Map<(Seq<char>, Seq<char>), ChainView>,
    path: Seq<Seq<char>>,
    from: Seq<char>,
    to: Seq<char>,
) -> bool {
    &&& path.len() >= 1
    &&& path[0] == from
    &&& path.last() == to
    &&& (forall|i: int|
        0 <= i < path.len() - 1 ==> m.dom().contains((#[trigger] path[i], path[i + 1])))
}

/// Some chain of recorded relationships leads from `from` to `to`.
pub open spec fn reachable(
    m: Map<(Seq<char>, Seq<char>), ChainView>,
    from: Seq<char>,
    to: Seq<char>,
) -> bool {
    exists|path: Seq<Seq<char>>| spec_path(m, path, from, to)
}

/// A duplicate-free connecting chain no longer than any other: what path
/// resolution returns. On a relationship graph that forms a tree — what the
/// store assumes — there is exactly one such chain between two connected
/// frames.
pub open spec fn optimal_path(
    m: Map<(Seq<char>, Seq<char>), ChainView>,
    path: Seq<Seq<char>>,
    from: Seq<char>,
    to: Seq<char>,
) -> bool {
    &&& spec_path(m, path, from, to)
    &&& path.no_duplicates()
    &&& (forall|q: Seq<Seq<char>>| spec_path(m, q, from, to) ==> q.len() >= path.len())
}

/// Every edge of the chain answers at `time`.
pub open spec fn path_resolves(
    m: Map<(Seq<char>, Seq<char>), ChainView>,
    path: Seq<Seq<char>>,
    time: Time,
) -> bool {
    forall|i: int|
        0 <= i < path.len() - 1 ==> closest_of(m[((#[trigger] path[i]), path[i + 1])], time) is Ok
}

/// Edge `i` of the chain is the first to fail at `time`, and with error `e`.
pub open spec fn path_fails_at(
    m: Map<(Seq<char>, Seq<char>), ChainView>,
    path: Seq<Seq<char>>,
    time: Time,
    i: int,
    e: TfError,
) -> bool {
    &&& 0 <= i < path.len() - 1
    &&& closest_of(m[(path[i], path[i + 1])], time) == Err::<TransformSample, TfError>(e)
    &&& (forall|j: int|
        0 <= j < i ==> closest_of(m[((#[trigger] path[j]), path[j + 1])], time) is Ok)
}

/// A duplicate-free sequence of indices below `n` has at most `n` entries.
proof fn lemma_distinct_bounded(q: Seq<usize>, n: int)
    requires
        q.no_duplicates(),
        forall|i: int| 0 <= i < q.len() ==> ((#[trigger] q[i]) as int) < n,
        n >= 0,
    ensures
        q.len() <= n,
{
    let ints = q.map_values(|u: usize| u as int);
    assert forall|i: int, j: int| 0 <= i < j < ints.len() implies ints[i] != ints[j] by {
        assert(q[i] != q[j]);
    }
    assert(ints.no_duplicates());
    ints.unique_seq_to_set();
    assert forall|x: int| ints.to_set().contains(x) implies vstd::set_lib::set_int_range(
        0,
        n,
    ).contains(x) by {
        let i = choose|i: int| 0 <= i < ints.len() && ints[i] == x;
        assert(0 <= (q[i] as int) && (q[i] as int) < n);
    }
    vstd::set_lib::lemma_int_range(0, n);
    vstd::set_lib::lemma_len_subset(ints.to_set(), vstd::set_lib::set_int_range(0, n));
}

/// The store of every recorded relationship.
///
/// Frame names are interned once into `frames`; a relationship is keyed by
/// the interned indices of its parent and child frames and owns one sample
/// buffer. The adjacency relation read by path resolution is exactly the key
/// set of `transform_data`, which keeps the frame-graph index and the sample
/// buffers consistent by construction.
#[derive(Debug)]
pub struct TfBuffer {
    frames: Vec<String>,
    transform_data: Vec<(TfGraphNode, TfIndividualTransformChain)>,
}

impl TfBuffer {
    /// The map the store denotes; kept opaque so that reasoning goes
    /// through the access lemmas below rather than through the raw
    /// representation.
    #[verifier::opaque]
    closed spec fn store_view(self) -> Map<(Seq<char>, Seq<char>), ChainView> {
        Map::new(
            |k: (Seq<char>, Seq<char>)|
                exists|i: int| 0 <= i < self.transform_data@.len() && self.entry_names(i) == k,
            |k: (Seq<char>, Seq<char>)| self.transform_data@[self.entry_index(k)].1@,
        )
    }

    /// The names of the two frames of entry `i`, in parent, child order.
    closed spec fn entry_names(self, i: int) -> (Seq<char>, Seq<char>) {
        (
            self.frames@[self.transform_data@[i].0.parent as int]@,
            self.frames@[self.transform_data@[i].0.child as int]@,
        )
    }

    /// The entry that carries the relationship named `k`.
    closed spec fn entry_index(self, k: (Seq<char>, Seq<char>)) -> int {
        choose|i: int| 0 <= i < self.transform_data@.len() && self.entry_names(i) == k
    }

    /// The store's internal invariant: interned names are distinct, every
    /// relationship's frame indices are in range, no relationship is stored
    /// twice, and every sample buffer is well-formed and non-empty.
    pub closed spec fn wf(self) -> bool {
        &&& (forall|i: int, j: int|
            0 <= i < j < self.frames@.len() ==> self.frames@[i]@ != self.frames@[j]@)
        &&& (forall|i: int|
            0 <= i < self.transform_data@.len() ==> (#[trigger] self.transform_data@[i]).0.parent
                < self.frames@.len() && self.transform_data@[i].0.child < self.frames@.len())
        &&& (forall|i: int, j: int|
            0 <= i < j < self.transform_data@.len() ==> #[trigger] self.transform_data@[i].0
                != #[trigger] self.transform_data@[j].0)
        &&& (forall|i: int|
            0 <= i < self.transform_data@.len() ==> (#[trigger] self.transform_data@[i]).1.wf()
                && self.transform_data@[i].1@.samples.len() > 0)
    }
}

impl View for TfBuffer {
    type V = Map<(Seq<char>, Seq<char>), ChainView>;

    /// The store as a map from (parent name, child name) to that
    /// relationship's buffer content.
    closed spec fn view(&self) -> Map<(Seq<char>, Seq<char>), ChainView> {
        self.store_view()
    }
}

impl TfBuffer {
    /// An empty store: no frames, no relationships.
    pub fn new() -> (r: TfBuffer)
        ensures
            r.wf(),
            r@ == Map::<(Seq<char>, Seq<char>), ChainView>::empty(),
    {
        let r = TfBuffer { frames: Vec::new(), transform_data: Vec::new() };
        proof {
            reveal(TfBuffer::store_view);
            assert(r@ =~= Map::<(Seq<char>, Seq<char>), ChainView>::empty());
        }
        r
    }

    /// Two distinct entries never carry the same pair of frame names.
    proof fn lemma_entry_names_injective(self, i: int, j: int)
        requires
            self.wf(),
            0 <= i < self.transform_data@.len(),
            0 <= j < self.transform_data@.len(),
            self.entry_names(i) == self.entry_names(j),
        ensures
            i == j,
    {
        if i != j {
            let a = self.transform_data@[i].0;
            let b = self.transform_data@[j].0;
            assert(a != b);
            assert(self.frames@[a.parent as int]@ == self.frames@[b.parent as int]@);
            assert(self.frames@[a.child as int]@ == self.frames@[b.child as int]@);
            assert(a.parent == b.parent);
            assert(a.child == b.child);
        }
    }

    /// Each entry is visible in the store's map under its pair of names.
    proof fn lemma_view_entry(self, i: int)
        requires
            self.wf(),
            0 <= i < self.transform_data@.len(),
        ensures
            self@.dom().contains(self.entry_names(i)),
            self.entry_index(self.entry_names(i)) == i,
            self@[self.entry_names(i)] == self.transform_data@[i].1@,
    {
        reveal(TfBuffer::store_view);
        let k = self.entry_names(i);
        assert(exists|n: int| 0 <= n < self.transform_data@.len() && self.entry_names(n) == k);
        let n = self.entry_index(k);
        assert(0 <= n < self.transform_data@.len() && self.entry_names(n) == k);
        self.lemma_entry_names_injective(i, n);
    }

    /// Every name pair in the store's map is carried by an entry.
    proof fn lemma_view_dom(self, k: (Seq<char>, Seq<char>))
        requires
            self.wf(),
            self@.dom().contains(k),
        ensures
            0 <= self.entry_index(k) < self.transform_data@.len(),
            self.entry_names(self.entry_index(k)) == k,
            self@[k] == self.transform_data@[self.entry_index(k)].1@,
    {
        reveal(TfBuffer::store_view);
        assert(exists|n: int| 0 <= n < self.transform_data@.len() && self.entry_names(n) == k);
    }

    /// The interned index of `name`, if it was seen before.
    fn find_frame(&self, name: &String) -> (r: Option<usize>)
        ensures
            match r {
                Some(i) => i < self.frames@.len() && self.frames@[i as int]@ == name@,
                None => forall|i: int| 0 <= i < self.frames@.len() ==> self.frames@[i]@ != name@,
            },
    {
        let mut i: usize = 0;
        while i < self.frames.len()
            invariant
                i <= self.frames@.len(),
                forall|j: int| 0 <= j < i ==> self.frames@[j]@ != name@,
            decreases self.frames@.len() - i,
        {
            if *name == self.frames[i] {
                return Some(i);
            }
            i += 1;
        }
        None
    }

    /// Interns `name`, returning its index in the frame table.
    fn intern(&mut self, name: &String) -> (id: usize)
        requires
            old(self).wf(),
        ensures
            final(self).wf(),
            final(self).transform_data@ == old(self).transform_data@,
            id < final(self).frames@.len(),
            final(self).frames@[id as int]@ == name@,
            old(self).frames@.len() <= final(self).frames@.len(),
            forall|i: int|
                0 <= i < old(self).frames@.len() ==> final(self).frames@[i] == old(
                    self,
                ).frames@[i],
            final(self)@ == old(self)@,
    {
        let r = match self.find_frame(name) {
            Some(i) => i,
            None => {
                let id = self.frames.len();
                self.frames.push(name.clone());
                id
            },
        };
        proof {
            assert forall|i: int|
                0 <= i < self.transform_data@.len() implies #[trigger] self.entry_names(i) == old(
                self,
            ).entry_names(i) by {}
            assert forall|k: (Seq<char>, Seq<char>)| #[trigger] old(self)@.dom().contains(
                k,
            ) implies self@.dom().contains(k) && self@[k] == old(self)@[k] by {
                old(self).lemma_view_dom(k);
                let i = old(self).entry_index(k);
                self.lemma_view_entry(i);
            }
            assert forall|k: (Seq<char>, Seq<char>)| #[trigger] self@.dom().contains(
                k,
            ) implies old(self)@.dom().contains(k) by {
                self.lemma_view_dom(k);
                let i = self.entry_index(k);
                old(self).lemma_view_entry(i);
            }
            assert(self@ =~= old(self)@);
        }
        r
    }

    /// Two frame-table slots with the same name are the same slot.
    proof fn lemma_frame_index_injective(self, p: int, q: int)
        requires
            self.wf(),
            0 <= p < self.frames@.len(),
            0 <= q < self.frames@.len(),
            self.frames@[p]@ == self.frames@[q]@,
        ensures
            p == q,
    {
    }

    /// The entry that carries the relationship of these frame indices.
    fn find_data(&self, parent: usize, child: usize) -> (r: Option<usize>)
        ensures
            match r {
                Some(i) => i < self.transform_data@.len() && self.transform_data@[i as int].0
                    == (TfGraphNode { parent, child }),
                None => forall|i: int|
                    0 <= i < self.transform_data@.len()
                        ==> (#[trigger] self.transform_data@[i]).0 != (TfGraphNode {
                        parent,
                        child,
                    }),
            },
    {
        let mut i: usize = 0;
        while i < self.transform_data.len()
            invariant
                i <= self.transform_data@.len(),
                forall|j: int|
                    0 <= j < i ==> (#[trigger] self.transform_data@[j]).0 != (TfGraphNode {
                        parent,
                        child,
                    }),
            decreases self.transform_data@.len() - i,
        {
            let node = self.transform_data[i].0;
            if node.parent == parent && node.child == child {
                return Some(i);
            }
            i += 1;
        }
        None
    }

    /// Records one observation: the frame names are interned, and the sample
    /// goes into the buffer of its (parent, child) relationship, which is
    /// created around `static_tf` on first use.
    fn add_transform(&mut self, transform: TransformStamped, static_tf: bool)
        requires
            old(self).wf(),
        ensures
            final(self).wf(),
            final(self)@ == store_add(old(self)@, transform, static_tf),
    {
        let ghost t0 = transform;
        let ghost key = (transform.header.frame_id@, transform.child_frame_id@);
        let parent_id = self.intern(&transform.header.frame_id);
        let child_id = self.intern(&transform.child_frame_id);
        let ghost pre = *self;
        assert(pre.frames@[parent_id as int]@ == t0.header.frame_id@);
        assert(pre.frames@[child_id as int]@ == t0.child_frame_id@);
        match self.find_data(parent_id, child_id) {
            Some(i) => {
                let (node, mut chain) = self.transform_data.remove(i);
                proof {
                    assert(pre.transform_data@[i as int].1.wf());
                }
                chain.add_to_buffer(transform);
                self.transform_data.insert(i, (node, chain));
                proof {
                    assert(self.transform_data@ =~= pre.transform_data@.update(
                        i as int,
                        (node, chain),
                    ));
                    assert(self.wf());
                    assert forall|n: int|
                        0 <= n < self.transform_data@.len() implies #[trigger] self.entry_names(n)
                        == pre.entry_names(n) by {}
                    assert(pre.entry_names(i as int) == key);
                    pre.lemma_view_entry(i as int);
                    self.lemma_view_entry(i as int);
                    let target = store_add(pre@, t0, static_tf);
                    assert forall|k: (Seq<char>, Seq<char>)| #[trigger] target.dom().contains(
                        k,
                    ) implies self@.dom().contains(k) && self@[k] == target[k] by {
                        if k == key {
                            assert(self@[k] == chain@);
                        } else {
                            pre.lemma_view_dom(k);
                            let n = pre.entry_index(k);
                            assert(n != i as int);
                            self.lemma_view_entry(n);
                        }
                    }
                    assert forall|k: (Seq<char>, Seq<char>)| #[trigger] self@.dom().contains(
                        k,
                    ) implies target.dom().contains(k) by {
                        self.lemma_view_dom(k);
                        let n = self.entry_index(k);
                        pre.lemma_view_entry(n);
                    }
                    assert(self@ =~= target);
                }
            },
            None => {
                let mut chain = TfIndividualTransformChain::new(static_tf);
                chain.add_to_buffer(transform);
                let ghost n_old = pre.transform_data@.len() as int;
                self.transform_data.push(
                    (TfGraphNode { parent: parent_id, child: child_id }, chain),
                );
                proof {
                    assert(chain@.samples == chain_after_add(
                        Seq::<TransformStamped>::empty(),
                        t0,
                    ));
                    assert(chain@.samples.len() == 1);
                    assert(self.wf());
                    assert forall|n: int| 0 <= n < n_old implies #[trigger] self.entry_names(n)
                        == pre.entry_names(n) by {}
                    assert(self.entry_names(n_old) == key);
                    // the relationship was new: no old entry carries `key`
                    assert forall|n: int| 0 <= n < n_old implies #[trigger] pre.entry_names(n)
                        != key by {
                        if pre.entry_names(n) == key {
                            let e = pre.transform_data@[n].0;
                            pre.lemma_frame_index_injective(e.parent as int, parent_id as int);
                            pre.lemma_frame_index_injective(e.child as int, child_id as int);
                        }
                    }
                    if pre@.dom().contains(key) {
                        pre.lemma_view_dom(key);
                        assert(false);
                    }
                    assert(!pre@.dom().contains(key));
                    self.lemma_view_entry(n_old);
                    let target = store_add(pre@, t0, static_tf);
                    assert forall|k: (Seq<char>, Seq<char>)| #[trigger] target.dom().contains(
                        k,
                    ) implies self@.dom().contains(k) && self@[k] == target[k] by {
                        if k == key {
                            assert(self@[k] == chain@);
                        } else {
                            pre.lemma_view_dom(k);
                            let n = pre.entry_index(k);
                            self.lemma_view_entry(n);
                        }
                    }
                    assert forall|k: (Seq<char>, Seq<char>)| #[trigger] self@.dom().contains(
                        k,
                    ) implies target.dom().contains(k) by {
                        self.lemma_view_dom(k);
                        let n = self.entry_index(k);
                        if n < n_old {
                            pre.lemma_view_entry(n);
                        }
                    }
                    assert(self@ =~= target);
                }
            },
        }
    }

    /// Takes in a whole batch: every observation in it is recorded, each
    /// together with its algebraic inverse, in batch order. Ingestion never
    /// fails and is not transactional: each observation lands as it is
    /// reached.
    pub fn handle_incoming_transforms(&mut self, transforms: TFMessage, static_tf: bool)
        requires
            old(self).wf(),
        ensures
            final(self).wf(),
            final(self)@ == store_ingest(old(self)@, transforms.transforms@, static_tf),
    {
        let mut i: usize = 0;
        while i < transforms.transforms.len()
            invariant
                self.wf(),
                i <= transforms.transforms@.len(),
                self@ == store_ingest(old(self)@, transforms.transforms@.take(i as int), static_tf),
            decreases transforms.transforms@.len() - i,
        {
            let transform = transforms.transforms[i].clone();
            let inverse_transform = get_inverse(transform.clone());
            self.add_transform(transform, static_tf);
            self.add_transform(inverse_transform, static_tf);
            proof {
                lemma_store_ingest_push(
                    old(self)@,
                    transforms.transforms@.take(i as int),
                    transforms.transforms@[i as int],
                    static_tf,
                );
                assert(transforms.transforms@.take(i as int + 1) =~= transforms.transforms@.take(
                    i as int,
                ).push(transforms.transforms@[i as int]));
            }
            i += 1;
        }
        proof {
            assert(transforms.transforms@.take(transforms.transforms@.len() as int)
                =~= transforms.transforms@);
        }
    }

    /// A direct relationship between two interned frame indices.
    spec fn id_edge(self, p: usize, c: usize) -> bool {
        exists|i: int|
            0 <= i < self.transform_data@.len() && (#[trigger] self.transform_data@[i]).0
                == (TfGraphNode { parent: p, child: c })
    }

    /// A chain of direct relationships over interned frame indices.
    spec fn id_path(self, path: Seq<usize>, from: usize, to: usize) -> bool {
        &&& path.len() >= 1
        &&& path[0] == from
        &&& path.last() == to
        &&& (forall|i: int| 0 <= i < path.len() - 1 ==> self.id_edge(#[trigger] path[i], path[i + 1]))
    }

    spec fn id_reachable(self, from: usize, to: usize) -> bool {
        exists|path: Seq<usize>| self.id_path(path, from, to)
    }

    /// A direct relationship's frame indices are in range, and the store's
    /// map holds the relationship under the frames' names.
    proof fn lemma_id_edge_names(self, p: usize, c: usize)
        requires
            self.wf(),
            self.id_edge(p, c),
        ensures
            (p as int) < self.frames@.len(),
            (c as int) < self.frames@.len(),
            self@.dom().contains((self.frames@[p as int]@, self.frames@[c as int]@)),
    {
        let i = choose|i: int|
            0 <= i < self.transform_data@.len() && (#[trigger] self.transform_data@[i]).0
                == (TfGraphNode { parent: p, child: c });
        self.lemma_view_entry(i);
        assert(self.entry_names(i) == (self.frames@[p as int]@, self.frames@[c as int]@));
    }

    /// An index-level path names a store-level path under the frame names.
    proof fn lemma_id_path_names(self, path: Seq<usize>, from: usize, to: usize)
        requires
            self.wf(),
            self.id_path(path, from, to),
            forall|i: int| 0 <= i < path.len() ==> ((#[trigger] path[i]) as int) < self.frames@.len(),
        ensures
            spec_path(
                self@,
                path.map_values(|u: usize| self.frames@[u as int]@),
                self.frames@[from as int]@,
                self.frames@[to as int]@,
            ),
    {
        let names = path.map_values(|u: usize| self.frames@[u as int]@);
        assert(names.len() == path.len());
        assert(names[0] == self.frames@[from as int]@);
        assert(names.last() == self.frames@[to as int]@);
        assert forall|i: int| 0 <= i < names.len() - 1 implies self@.dom().contains(
            (#[trigger] names[i], names[i + 1]),
        ) by {
            assert(self.id_edge(path[i], path[i + 1]));
            self.lemma_id_edge_names(path[i], path[i + 1]);
        }
    }

    /// A store-level path between two interned frames has an index-level
    /// counterpart.
    proof fn lemma_name_path_ids(self, path: Seq<Seq<char>>, fa: usize, fb: usize)
        requires
            self.wf(),
            (fa as int) < self.frames@.len(),
            (fb as int) < self.frames@.len(),
            spec_path(self@, path, self.frames@[fa as int]@, self.frames@[fb as int]@),
        ensures
            self.id_reachable(fa, fb),
            exists|ids: Seq<usize>| self.id_path(ids, fa, fb) && ids.len() == path.len(),
    {
        let n = self.frames@.len() as int;
        let ids = Seq::new(
            path.len(),
            |i: int|
                choose|u: usize| (u as int) < self.frames@.len() && self.frames@[u as int]@
                    == path[i],
        );
        assert forall|i: int| 0 <= i < path.len() implies ((#[trigger] ids[i]) as int) < n
            && self.frames@[ids[i] as int]@ == path[i] by {
            if i == path.len() - 1 {
                assert(self.frames@[fb as int]@ == path[i]);
                assert((fb as int) < self.frames@.len() && self.frames@[fb as int]@ == path[i]);
            } else {
                assert(self@.dom().contains((path[i], path[i + 1])));
                self.lemma_view_dom((path[i], path[i + 1]));
                let e = self.entry_index((path[i], path[i + 1]));
                let pid = self.transform_data@[e].0.parent;
                assert((pid as int) < self.frames@.len() && self.frames@[pid as int]@ == path[i]);
            }
        }
        assert(self.frames@[ids[0] as int]@ == self.frames@[fa as int]@);
        self.lemma_frame_index_injective(ids[0] as int, fa as int);
        assert(self.frames@[ids[ids.len() - 1] as int]@ == self.frames@[fb as int]@);
        self.lemma_frame_index_injective(ids[ids.len() - 1] as int, fb as int);
        assert forall|i: int| 0 <= i < ids.len() - 1 implies self.id_edge(
            #[trigger] ids[i],
            ids[i + 1],
        ) by {
            assert(self@.dom().contains((path[i], path[i + 1])));
            self.lemma_view_dom((path[i], path[i + 1]));
            let e = self.entry_index((path[i], path[i + 1]));
            let node = self.transform_data@[e].0;
            self.lemma_frame_index_injective(node.parent as int, ids[i] as int);
            self.lemma_frame_index_injective(node.child as int, ids[i + 1] as int);
            assert(self.transform_data@[e].0 == (TfGraphNode { parent: ids[i], child: ids[i + 1] }));
        }
        assert(self.id_path(ids, fa, fb));
        assert(ids.len() == path.len());
    }

    /// A lower bound on index-level chains bounds name-level chains too.
    #[verifier::rlimit(100)]
    #[verifier::spinoff_prover]
    proof fn lemma_name_path_lower_bound(self, fa: usize, fb: usize, len_min: int)
        requires
            self.wf(),
            (fa as int) < self.frames@.len(),
            (fb as int) < self.frames@.len(),
            forall|q: Seq<usize>| self.id_path(q, fa, fb) ==> q.len() >= len_min,
        ensures
            forall|q: Seq<Seq<char>>|
                spec_path(self@, q, self.frames@[fa as int]@, self.frames@[fb as int]@)
                    ==> q.len() >= len_min,
    {
        assert forall|q: Seq<Seq<char>>|
            spec_path(
                self@,
                q,
                self.frames@[fa as int]@,
                self.frames@[fb as int]@,
            ) implies q.len() >= len_min by {
            self.lemma_name_path_ids(q, fa, fb);
            let qids = choose|qids: Seq<usize>|
                self.id_path(qids, fa, fb) && qids.len() == q.len();
            assert(qids.len() >= len_min);
        }
    }

    /// An optimal chain over frame indices names an optimal chain over
    /// frame names.
    #[verifier::rlimit(100)]
    #[verifier::spinoff_prover]
    proof fn lemma_optimal_path_names(self, fa: usize, fb: usize, ids: Seq<usize>)
        requires
            self.wf(),
            (fa as int) < self.frames@.len(),
            (fb as int) < self.frames@.len(),
            self.id_path(seq![fa] + ids, fa, fb),
            (seq![fa] + ids).no_duplicates(),
            forall|q: Seq<usize>| self.id_path(q, fa, fb) ==> q.len() >= (seq![fa] + ids).len(),
            forall|i: int| 0 <= i < ids.len() ==> ((#[trigger] ids[i]) as int) < self.frames@.len(),
        ensures
            optimal_path(
                self@,
                (seq![fa] + ids).map_values(|u: usize| self.frames@[u as int]@),
                self.frames@[fa as int]@,
                self.frames@[fb as int]@,
            ),
    {
        let full_ids = seq![fa] + ids;
        assert forall|j: int| 0 <= j < full_ids.len() implies ((#[trigger] full_ids[j]) as int)
            < self.frames@.len() by {
            if j > 0 {
                assert(full_ids[j] == ids[j - 1]);
            }
        }
        self.lemma_id_path_names(full_ids, fa, fb);
        let names_full = full_ids.map_values(|u: usize| self.frames@[u as int]@);
        assert forall|i2: int, j2: int| 0 <= i2 < j2 < names_full.len() implies names_full[i2]
            != names_full[j2] by {
            if names_full[i2] == names_full[j2] {
                self.lemma_frame_index_injective(full_ids[i2] as int, full_ids[j2] as int);
                assert(full_ids[i2] != full_ids[j2]);
            }
        }
        assert(names_full.no_duplicates());
        self.lemma_name_path_lower_bound(fa, fb, full_ids.len() as int);
        assert(names_full.len() == full_ids.len());
    }

    /// A set of frames that contains `from` and is closed under the edge
    /// relation contains everything reachable from `from`.
    proof fn lemma_reachable_in_closed(self, q: Seq<usize>, from: usize, to: usize, path: Seq<usize>)
        requires
            q.contains(from),
            forall|v: usize, c: usize|
                #[trigger] q.contains(v) && #[trigger] self.id_edge(v, c) ==> q.contains(c),
            self.id_path(path, from, to),
        ensures
            q.contains(to),
        decreases path.len(),
    {
        if path.len() == 1 {
            assert(to == from);
        } else {
            assert(self.id_edge(path[0], path[1]));
            assert(q.contains(path[1]));
            let tail = path.drop_first();
            assert forall|i: int| 0 <= i < tail.len() - 1 implies self.id_edge(
                #[trigger] tail[i],
                tail[i + 1],
            ) by {
                assert(tail[i] == path[i + 1]);
                assert(tail[i + 1] == path[i + 2]);
                assert(self.id_edge(path[i + 1], path[i + 2]));
            }
            assert(tail.last() == path.last());
            assert(self.id_path(tail, path[1], to));
            self.lemma_reachable_in_closed(q, path[1], to, tail);
        }
    }

    /// The structural facts the search keeps about its queue: every entry
    /// is an in-range frame index, marked visited, queued at most once, and
    /// — except for the root — linked by a recorded edge to an earlier
    /// entry one level nearer the root. Levels never decrease along the
    /// queue.
    spec fn bfs_inv(
        self,
        n: int,
        visited: Seq<bool>,
        parent: Seq<usize>,
        queue: Seq<usize>,
        dist: Seq<int>,
        from: usize,
    ) -> bool {
        &&& n == self.frames@.len()
        &&& visited.len() == n
        &&& parent.len() == n
        &&& dist.len() == n
        &&& queue.len() >= 1
        &&& queue.len() <= n
        &&& queue[0] == from
        &&& dist[from as int] == 0
        &&& queue.no_duplicates()
        &&& (forall|qi: int| 0 <= qi < queue.len() ==> ((#[trigger] queue[qi]) as int) < n)
        &&& (forall|qi: int| 0 <= qi < queue.len() ==> visited[(#[trigger] queue[qi]) as int])
        &&& (forall|qi: int| 0 <= qi < queue.len() ==> 0 <= dist[(#[trigger] queue[qi]) as int])
        &&& (forall|v: int| 0 <= v < n && visited[v] ==> queue.contains(v as usize))
        &&& (forall|qi: int, qj: int|
            0 <= qi <= qj < queue.len() ==> dist[(#[trigger] queue[qi]) as int] <= dist[(
            #[trigger] queue[qj]) as int])
        &&& (forall|qi: int|
            1 <= qi < queue.len() ==> {
                &&& (parent[(#[trigger] queue[qi]) as int] as int) < n
                &&& self.id_edge(parent[queue[qi] as int], queue[qi])
                &&& dist[queue[qi] as int] == dist[parent[queue[qi] as int] as int] + 1
                &&& (exists|qj: int| 0 <= qj < qi && queue[qj] == parent[queue[qi] as int])
            })
    }

    /// Every queue entry before `upto` has had all its outgoing edges
    /// followed: their children are visited, at most one level further out.
    spec fn bfs_expanded(
        self,
        visited: Seq<bool>,
        queue: Seq<usize>,
        dist: Seq<int>,
        upto: int,
    ) -> bool {
        forall|qi: int, d: int|
            0 <= qi < upto && 0 <= d < self.transform_data@.len()
                && (#[trigger] self.transform_data@[d]).0.parent == (#[trigger] queue[qi]) ==> {
                &&& visited[self.transform_data@[d].0.child as int]
                &&& dist[self.transform_data@[d].0.child as int] <= dist[queue[qi] as int] + 1
            }
    }

    /// A recorded chain from the root that is strictly shorter than the
    /// level being processed reaches, at its `j`-th entry, a frame already
    /// visited at level `j` or below: levels lower-bound chain lengths.
    #[verifier::rlimit(100)]
    #[verifier::spinoff_prover]
    proof fn lemma_bfs_lower_bound(
        self,
        n: int,
        visited: Seq<bool>,
        parent: Seq<usize>,
        queue: Seq<usize>,
        dist: Seq<int>,
        head: int,
        from: usize,
        p: Seq<usize>,
        j: int,
    )
        requires
            self.wf(),
            self.bfs_inv(n, visited, parent, queue, dist, from),
            self.bfs_expanded(visited, queue, dist, head),
            0 <= head < queue.len(),
            p.len() >= 1,
            p[0] == from,
            forall|i: int| 0 <= i < p.len() - 1 ==> self.id_edge(#[trigger] p[i], p[i + 1]),
            p.len() - 1 < dist[queue[head] as int],
            0 <= j < p.len(),
        ensures
            (p[j] as int) < n,
            visited[p[j] as int],
            dist[p[j] as int] <= j,
        decreases j,
    {
        if j == 0 {
            assert(queue[0] == from);
        } else {
            self.lemma_bfs_lower_bound(n, visited, parent, queue, dist, head, from, p, j - 1);
            let v = p[j - 1];
            assert(queue.contains(v));
            let qi = choose|qi: int| 0 <= qi < queue.len() && queue[qi] == v;
            assert(dist[v as int] <= j - 1);
            assert(dist[v as int] < dist[queue[head] as int]);
            if qi >= head {
                assert(dist[queue[head] as int] <= dist[queue[qi] as int]);
                assert(false);
            }
            assert(self.id_edge(p[j - 1], p[j]));
            let dd = choose|dd: int|
                0 <= dd < self.transform_data@.len() && (#[trigger] self.transform_data@[dd]).0
                    == (TfGraphNode { parent: p[j - 1], child: p[j] });
            assert(self.transform_data@[dd].0.parent == queue[qi]);
            assert(self.transform_data@[dd].0.child == p[j]);
            assert((self.transform_data@[dd].0.child as int) < n);
            assert(visited[self.transform_data@[dd].0.child as int]);
            assert(dist[self.transform_data@[dd].0.child as int] <= dist[queue[qi] as int] + 1);
        }
    }

    /// Breadth-first search from `from` to `to` over interned frame
    /// indices. Succeeds exactly when a chain of recorded relationships
    /// connects the two; the returned ids, read after `from`, walk a
    /// duplicate-free chain no longer than any other connecting chain.
    #[verifier::rlimit(100)]
    #[verifier::spinoff_prover]
    fn find_path_ids(&self, from: usize, to: usize) -> (r: Result<Vec<usize>, TfError>)
        requires
            self.wf(),
            (from as int) < self.frames@.len(),
            (to as int) < self.frames@.len(),
        ensures
            r matches Ok(p) ==> ({
                &&& self.id_path(seq![from] + p@, from, to)
                &&& (seq![from] + p@).no_duplicates()
                &&& (forall|q: Seq<usize>|
                    self.id_path(q, from, to) ==> q.len() >= (seq![from] + p@).len())
                &&& (forall|i: int|
                    0 <= i < p@.len() ==> ((#[trigger] p@[i]) as int) < self.frames@.len())
            }),
            r is Ok <==> self.id_reachable(from, to),
            r matches Err(e) ==> e == TfError::CouldNotFindTransform,
    {
        let n = self.frames.len();
        if from == to {
            let p: Vec<usize> = Vec::new();
            proof {
                let single = seq![from] + p@;
                assert(single =~= seq![from]);
                assert(self.id_path(single, from, to));
                assert(single.no_duplicates());
            }
            return Ok(p);
        }
        let mut visited: Vec<bool> = Vec::new();
        let mut parent: Vec<usize> = Vec::new();
        let mut k: usize = 0;
        while k < n
            invariant
                visited@.len() == k,
                parent@.len() == k,
                k <= n,
                forall|j: int| 0 <= j < k ==> !(#[trigger] visited@[j]),
            decreases n - k,
        {
            visited.push(false);
            parent.push(0);
            k += 1;
        }
        let ghost visited_init = visited@;
        let ghost mut dist: Seq<int> = Seq::new(n as nat, |i: int| 0);
        let mut queue: Vec<usize> = Vec::new();
        queue.push(from);
        visited[from] = true;
        let mut head: usize = 0;
        proof {
            assert(queue@ =~= seq![from]);
            assert(visited@ == visited_init.update(from as int, true));
            assert(queue@.contains(from)) by {
                assert(queue@[0] == from);
            }
            assert forall|v: int| 0 <= v < n && visited@[v] implies queue@.contains(v as usize) by {
                if v != from as int {
                    assert(!visited_init[v]);
                    assert(!visited@[v]);
                } else {
                    assert(queue@[0] == from);
                }
            }
            assert(self.bfs_inv(n as int, visited@, parent@, queue@, dist, from));
        }
        while head < queue.len() && queue[head] != to
            invariant
                self.wf(),
                n == self.frames@.len(),
                (to as int) < n,
                self.bfs_inv(n as int, visited@, parent@, queue@, dist, from),
                head <= queue@.len(),
                head < queue@.len() ==> forall|qi: int|
                    0 <= qi < queue@.len() ==> dist[(#[trigger] queue@[qi]) as int] <= dist[queue@[head as int] as int] + 1,
                self.bfs_expanded(visited@, queue@, dist, head as int),
                forall|qi: int| 0 <= qi < head ==> (#[trigger] queue@[qi]) != to,
            decreases n - head,
        {
            let current = queue[head];
            let ghost head0 = head as int;
            let mut d: usize = 0;
            while d < self.transform_data.len()
                invariant
                    self.wf(),
                    n == self.frames@.len(),
                    (to as int) < n,
                    self.bfs_inv(n as int, visited@, parent@, queue@, dist, from),
                    0 <= head0 < queue@.len(),
                    current == queue@[head0],
                    forall|qi: int|
                        0 <= qi < queue@.len() ==> dist[(#[trigger] queue@[qi]) as int] <= dist[current as int] + 1,
                    self.bfs_expanded(visited@, queue@, dist, head0),
                    forall|qi: int| 0 <= qi < head0 ==> (#[trigger] queue@[qi]) != to,
                    d <= self.transform_data@.len(),
                    forall|dd: int|
                        0 <= dd < d && (#[trigger] self.transform_data@[dd]).0.parent
                            == current ==> visited@[self.transform_data@[dd].0.child as int]
                            && dist[self.transform_data@[dd].0.child as int] <= dist[current as int]
                            + 1,
                decreases self.transform_data@.len() - d,
            {
                let e_parent = self.transform_data[d].0.parent;
                let e_child = self.transform_data[d].0.child;
                if e_parent == current {
                    proof {
                        assert((e_child as int) < n);
                    }
                    if !visited[e_child] {
                        let ghost visited0 = visited@;
                        let ghost queue0 = queue@;
                        let ghost parent0 = parent@;
                        let ghost dist0 = dist;
                        visited[e_child] = true;
                        parent[e_child] = current;
                        queue.push(e_child);
                        proof {
                            dist = dist0.update(e_child as int, dist0[current as int] + 1);
                            assert(queue@ == queue0.push(e_child));
                            assert forall|i: int| 0 <= i < queue0.len() implies queue0.push(
                                e_child,
                            )[i] == queue0[i] by {}
                            assert(queue0.push(e_child)[queue0.len() as int] == e_child);
                            assert(0 <= head0 && head0 < queue0.len());
                            assert(queue0.push(e_child)[head0] == queue0[head0]);
                            assert(queue@[head0] == current);
                            assert forall|qi: int| 0 <= qi < queue0.len() implies queue0[qi]
                                != e_child by {
                                if queue0[qi] == e_child {
                                    assert(visited0[queue0[qi] as int]);
                                }
                            }
                            assert(queue@.no_duplicates());
                            assert(self.id_edge(current, e_child)) by {
                                assert(self.transform_data@[d as int].0 == (TfGraphNode {
                                    parent: current,
                                    child: e_child,
                                }));
                            }
                            lemma_distinct_bounded(queue@, n as int);
                            // every old queue member keeps its level
                            assert forall|qi: int| 0 <= qi < queue0.len() implies dist[(
                            #[trigger] queue0[qi]) as int] == dist0[queue0[qi] as int] by {
                                assert(queue0[qi] != e_child);
                            }
                            assert(dist[e_child as int] == dist0[current as int] + 1);
                            assert(dist[current as int] == dist0[current as int]);
                            assert forall|qi: int| 1 <= qi < queue@.len() implies {
                                &&& (parent@[(#[trigger] queue@[qi]) as int] as int) < n
                                &&& self.id_edge(parent@[queue@[qi] as int], queue@[qi])
                                &&& dist[queue@[qi] as int] == dist[parent@[queue@[qi] as int] as int]
                                    + 1
                                &&& (exists|qj: int|
                                    0 <= qj < qi && queue@[qj] == parent@[queue@[qi] as int])
                            } by {
                                if qi < queue0.len() {
                                    assert(queue@[qi] == queue0[qi]);
                                    assert(queue0[qi] != e_child);
                                    assert(parent@[queue@[qi] as int] == parent0[queue0[qi] as int]);
                                    let qj = choose|qj: int|
                                        0 <= qj < qi && queue0[qj] == parent0[queue0[qi] as int];
                                    assert(queue@[qj] == parent@[queue@[qi] as int]);
                                    assert(queue0[qj] != e_child);
                                    assert(dist[queue0[qj] as int] == dist0[queue0[qj] as int]);
                                } else {
                                    assert(qi == queue0.len());
                                    assert(queue@[qi] == e_child);
                                    assert(parent@[e_child as int] == current);
                                    assert(queue@[head0] == current && 0 <= head0 < qi);
                                }
                            }
                            // levels stay monotone along the queue
                            assert forall|qi: int, qj: int|
                                0 <= qi <= qj < queue@.len() implies dist[(#[trigger] queue@[qi])
                                as int] <= dist[(#[trigger] queue@[qj]) as int] by {
                                if qj == queue0.len() {
                                    if qi < qj {
                                        assert(queue@[qi] == queue0[qi]);
                                        assert(dist0[queue0[qi] as int] <= dist0[current as int]
                                            + 1);
                                    }
                                }
                            }
                            // processed entries keep their expansion facts
                            assert forall|qi: int, dd: int|
                                0 <= qi < head0 && 0 <= dd < self.transform_data@.len()
                                    && (#[trigger] self.transform_data@[dd]).0.parent == (
                                #[trigger] queue@[qi]) implies visited@[self.transform_data@[dd].0.child
                                as int] && dist[self.transform_data@[dd].0.child as int]
                                <= dist[queue@[qi] as int] + 1 by {
                                assert(queue@[qi] == queue0[qi]);
                                if self.transform_data@[dd].0.child == e_child {
                                    assert(visited0[e_child as int]);
                                    assert(false);
                                }
                            }
                            assert forall|dd: int|
                                0 <= dd < d + 1 && (#[trigger] self.transform_data@[dd]).0.parent
                                    == current implies visited@[self.transform_data@[dd].0.child
                                as int] && dist[self.transform_data@[dd].0.child as int]
                                <= dist[current as int] + 1 by {
                                if dd < d && self.transform_data@[dd].0.child == e_child {
                                    assert(visited0[e_child as int]);
                                    assert(false);
                                }
                            }
                            assert(self.bfs_inv(n as int, visited@, parent@, queue@, dist, from));
                        }
                    } else {
                        proof {
                            assert(visited@[e_child as int]);
                            assert(queue@.contains(e_child));
                            let qx = choose|qx: int|
                                0 <= qx < queue@.len() && queue@[qx] == e_child;
                            assert(dist[queue@[qx] as int] <= dist[current as int] + 1);
                            assert(dist[e_child as int] <= dist[current as int] + 1);
                        }
                    }
                }
                d += 1;
            }
            head += 1;
            proof {
                assert(self.bfs_expanded(visited@, queue@, dist, head as int)) by {
                    assert forall|qi: int, dd: int|
                        0 <= qi < head && 0 <= dd < self.transform_data@.len()
                            && (#[trigger] self.transform_data@[dd]).0.parent == (
                        #[trigger] queue@[qi]) implies visited@[self.transform_data@[dd].0.child
                        as int] && dist[self.transform_data@[dd].0.child as int] <= dist[queue@[qi]
                        as int] + 1 by {
                        if qi == head - 1 {
                            assert(queue@[qi] == current);
                        }
                    }
                }
                if head < queue.len() {
                    assert forall|qi: int|
                        0 <= qi < queue@.len() implies dist[(#[trigger] queue@[qi]) as int]
                        <= dist[queue@[head as int] as int] + 1 by {
                        assert(dist[queue@[head0] as int] <= dist[queue@[head as int] as int]);
                        assert(dist[queue@[qi] as int] <= dist[queue@[head0] as int] + 1);
                    }
                }
            }
        }
        if head == queue.len() {
            proof {
                if self.id_reachable(from, to) {
                    let p = choose|p: Seq<usize>| self.id_path(p, from, to);
                    assert(queue@.contains(from)) by {
                        assert(queue@[0] == from);
                    }
                    assert forall|v: usize, c: usize|
                        #[trigger] queue@.contains(v) && #[trigger] self.id_edge(
                            v,
                            c,
                        ) implies queue@.contains(c) by {
                        let qi = choose|qi: int| 0 <= qi < queue@.len() && queue@[qi] == v;
                        let dd = choose|dd: int|
                            0 <= dd < self.transform_data@.len()
                                && (#[trigger] self.transform_data@[dd]).0 == (TfGraphNode {
                                parent: v,
                                child: c,
                            });
                        assert(self.transform_data@[dd].0.parent == queue@[qi]);
                        assert(visited@[self.transform_data@[dd].0.child as int]);
                    }
                    self.lemma_reachable_in_closed(queue@, from, to, p);
                    let qi = choose|qi: int| 0 <= qi < queue@.len() && queue@[qi] == to;
                    assert(queue@[qi] != to);
                    assert(false);
                }
            }
            return Err(TfError::CouldNotFindTransform);
        }
        proof {
            assert(queue@[head as int] == to);
            // no connecting chain is shorter than the level `to` sits at
            assert forall|q: Seq<usize>| self.id_path(q, from, to) implies q.len() >= dist[to
                as int] + 1 by {
                if q.len() < dist[to as int] + 1 {
                    self.lemma_bfs_lower_bound(
                        n as int,
                        visited@,
                        parent@,
                        queue@,
                        dist,
                        head as int,
                        from,
                        q,
                        q.len() - 1,
                    );
                    assert(dist[q[q.len() - 1] as int] <= q.len() - 1);
                    assert(false);
                }
            }
        }
        let mut path: Vec<usize> = Vec::new();
        let mut cur: usize = to;
        let ghost mut qi: int = head as int;
        proof {
            assert(queue@[qi] == cur);
            assert((seq![cur] + path@) =~= seq![to]);
            assert(self.id_path(seq![cur] + path@, cur, to));
        }
        while cur != from
            invariant
                self.wf(),
                n == self.frames@.len(),
                self.bfs_inv(n as int, visited@, parent@, queue@, dist, from),
                0 <= qi < queue@.len(),
                queue@[qi] == cur,
                (cur as int) < n,
                self.id_path(seq![cur] + path@, cur, to),
                forall|i: int| 0 <= i < path@.len() ==> ((#[trigger] path@[i]) as int) < n,
                forall|i: int|
                    0 <= i < (seq![cur] + path@).len() ==> dist[(seq![cur] + path@)[i] as int]
                        == dist[cur as int] + i,
            decreases qi,
        {
            proof {
                if qi == 0 {
                    assert(cur == from);
                }
            }
            let p = parent[cur];
            let ghost old_full = seq![cur] + path@;
            path.insert(0, cur);
            proof {
                assert(self.id_edge(p, cur)) by {
                    assert(self.id_edge(parent@[queue@[qi] as int], queue@[qi]));
                }
                assert(dist[cur as int] == dist[p as int] + 1) by {
                    assert(dist[queue@[qi] as int] == dist[parent@[queue@[qi] as int] as int] + 1);
                }
                let qj = choose|qj: int| 0 <= qj < qi && queue@[qj] == parent@[queue@[qi] as int];
                qi = qj;
                let new_full = seq![p] + path@;
                assert(new_full =~= seq![p] + old_full);
                assert forall|i: int| 0 <= i < new_full.len() - 1 implies self.id_edge(
                    #[trigger] new_full[i],
                    new_full[i + 1],
                ) by {
                    if i == 0 {
                        assert(new_full[0] == p);
                        assert(new_full[1] == old_full[0]);
                    } else {
                        assert(new_full[i] == old_full[i - 1]);
                        assert(new_full[i + 1] == old_full[i]);
                        assert(self.id_edge(old_full[i - 1], old_full[i]));
                    }
                }
                assert(new_full.last() == old_full.last());
                assert(self.id_path(new_full, p, to));
                assert forall|i: int|
                    0 <= i < new_full.len() implies dist[new_full[i] as int] == dist[p as int]
                    + i by {
                    if i > 0 {
                        assert(new_full[i] == old_full[i - 1]);
                        assert(dist[old_full[i - 1] as int] == dist[cur as int] + i - 1);
                    }
                }
            }
            cur = p;
        }
        proof {
            let full = seq![from] + path@;
            assert(self.id_path(full, from, to));
            // the walk descends one level per step, so levels index the path
            assert forall|i: int| 0 <= i < full.len() implies dist[full[i] as int] == i by {
                assert(dist[full[i] as int] == dist[from as int] + i);
            }
            assert forall|i: int, j: int| 0 <= i < j < full.len() implies full[i] != full[j] by {
                assert(dist[full[i] as int] == i);
                assert(dist[full[j] as int] == j);
            }
            assert(full.no_duplicates());
            assert(full.last() == to);
            assert(dist[to as int] == full.len() - 1);
            assert forall|q: Seq<usize>| self.id_path(q, from, to) implies q.len()
                >= full.len() by {
                assert(q.len() >= dist[to as int] + 1);
            }
        }
        Ok(path)
    }

    /// The entry that carries the relationship from `parent` to `child`.
    fn find_chain(&self, parent: &String, child: &String) -> (r: Option<usize>)
        requires
            self.wf(),
        ensures
            match r {
                Some(i) => i < self.transform_data@.len() && self.entry_names(i as int) == (
                    parent@,
                    child@,
                ),
                None => !self@.dom().contains((parent@, child@)),
            },
    {
        let mut i: usize = 0;
        while i < self.transform_data.len()
            invariant
                self.wf(),
                i <= self.transform_data@.len(),
                forall|j: int| 0 <= j < i ==> self.entry_names(j) != (parent@, child@),
            decreases self.transform_data@.len() - i,
        {
            let node = self.transform_data[i].0;
            if *parent == self.frames[node.parent] && *child == self.frames[node.child] {
                return Some(i);
            }
            i += 1;
        }
        proof {
            if self@.dom().contains((parent@, child@)) {
                self.lemma_view_dom((parent@, child@));
            }
        }
        None
    }

    /// Resolves the chain of frames leading from `from` to `to`: the
    /// returned names walk the chain after `from`, ending at `to`, and an
    /// empty path means the two names are one frame. The chain visits no
    /// frame twice and is as short as any connecting chain (the search is
    /// breadth-first). Fails exactly when no chain of recorded
    /// relationships connects the two.
    #[verifier::rlimit(100)]
    #[verifier::spinoff_prover]
    fn retrieve_transform_path(&self, from: &String, to: &String) -> (r: Result<Vec<String>, TfError>)
        requires
            self.wf(),
        ensures
            r matches Ok(p) ==> optimal_path(self@, seq![from@] + p.deep_view(), from@, to@),
            r is Ok <==> reachable(self@, from@, to@),
            from@ == to@ ==> (r matches Ok(p) && p@.len() == 0),
            r matches Err(e) ==> e == TfError::CouldNotFindTransform,
    {
        if *from == *to {
            let p: Vec<String> = Vec::new();
            proof {
                assert(p.deep_view() =~= Seq::<Seq<char>>::empty());
                assert((seq![from@] + p.deep_view()) =~= seq![from@]);
                assert(spec_path(self@, seq![from@] + p.deep_view(), from@, to@));
                assert(seq![from@].no_duplicates());
                assert forall|q: Seq<Seq<char>>| spec_path(self@, q, from@, to@) implies q.len()
                    >= seq![from@].len() by {}
            }
            return Ok(p);
        }
        let fa = match self.find_frame(from) {
            Some(i) => i,
            None => {
                proof {
                    if reachable(self@, from@, to@) {
                        let pth = choose|pth: Seq<Seq<char>>| spec_path(self@, pth, from@, to@);
                        assert(pth.len() >= 2);
                        assert(self@.dom().contains((pth[0], pth[1])));
                        self.lemma_view_dom((pth[0], pth[1]));
                        let e = self.entry_index((pth[0], pth[1]));
                        assert(self.frames@[self.transform_data@[e].0.parent as int]@ == from@);
                        assert(false);
                    }
                }
                return Err(TfError::CouldNotFindTransform);
            },
        };
        let fb = match self.find_frame(to) {
            Some(i) => i,
            None => {
                proof {
                    if reachable(self@, from@, to@) {
                        let pth = choose|pth: Seq<Seq<char>>| spec_path(self@, pth, from@, to@);
                        assert(pth.len() >= 2);
                        assert(self@.dom().contains((pth[pth.len() - 2], pth[pth.len() - 1])));
                        self.lemma_view_dom((pth[pth.len() - 2], pth[pth.len() - 1]));
                        let e = self.entry_index((pth[pth.len() - 2], pth[pth.len() - 1]));
                        assert(self.frames@[self.transform_data@[e].0.child as int]@ == to@);
                        assert(false);
                    }
                }
                return Err(TfError::CouldNotFindTransform);
            },
        };
        match self.find_path_ids(fa, fb) {
            Err(e) => {
                proof {
                    if reachable(self@, from@, to@) {
                        let pth = choose|pth: Seq<Seq<char>>| spec_path(self@, pth, from@, to@);
                        self.lemma_name_path_ids(pth, fa, fb);
                        assert(false);
                    }
                }
                Err(e)
            },
            Ok(ids) => {
                let mut names: Vec<String> = Vec::new();
                let mut i: usize = 0;
                while i < ids.len()
                    invariant
                        self.wf(),
                        i <= ids@.len(),
                        names@.len() == i,
                        forall|j: int|
                            0 <= j < i ==> (#[trigger] names@[j])@ == self.frames@[ids@[j] as int]@,
                        forall|j: int|
                            0 <= j < ids@.len() ==> ((#[trigger] ids@[j]) as int)
                                < self.frames@.len(),
                    decreases ids@.len() - i,
                {
                    names.push(self.frames[ids[i]].clone());
                    i += 1;
                }
                proof {
                    let full_ids = seq![fa] + ids@;
                    self.lemma_optimal_path_names(fa, fb, ids@);
                    let names_full = full_ids.map_values(|u: usize| self.frames@[u as int]@);
                    assert((seq![from@] + names.deep_view()) =~= names_full) by {
                        assert forall|j: int|
                            0 <= j < names_full.len() implies names_full[j] == (seq![from@]
                            + names.deep_view())[j] by {
                            if j == 0 {
                                assert(full_ids[0] == fa);
                            } else {
                                assert(full_ids[j] == ids@[j - 1]);
                                assert(names.deep_view()[j - 1] == names@[j - 1]@);
                            }
                        }
                    }
                    assert(optimal_path(self@, seq![from@] + names.deep_view(), from@, to@));
                }
                Ok(names)
            },
        }
    }

    /// Looks up the pose of `target_frame` relative to `source_frame` at
    /// `time`. The answer carries one resolved sample per relationship
    /// along the resolved frame chain — a duplicate-free chain as short as
    /// any connecting chain, the unique such chain on tree-shaped input.
    /// With no connecting chain it fails with `CouldNotFindTransform`
    /// (exactly then); otherwise the first relationship of the chain whose
    /// stored range does not cover `time` fails the whole lookup with that
    /// relationship's past or future error, and when every relationship of
    /// the chain answers, the lookup succeeds. A lookup from a frame to
    /// itself always succeeds, with no steps: the identity transform.
    #[verifier::rlimit(100)]
    #[verifier::spinoff_prover]
    pub fn lookup_transform(&self, source_frame: &str, target_frame: &str, time: Time) -> (r:
        Result<StampedTransformPlan, TfError>)
        requires
            self.wf(),
        ensures
            r matches Ok(plan) ==> {
                &&& plan.frame_id@ == source_frame@
                &&& plan.child_frame_id@ == target_frame@
                &&& plan.stamp == time
                &&& plan.seq == 1
                &&& exists|path: Seq<Seq<char>>|
                    optimal_path(self@, path, source_frame@, target_frame@) && steps_follow_path(
                        self@,
                        path,
                        time,
                        plan.steps@,
                    )
            },
            r == Err::<StampedTransformPlan, TfError>(TfError::CouldNotFindTransform)
                <==> !reachable(self@, source_frame@, target_frame@),
            source_frame@ == target_frame@ ==> (r matches Ok(plan) && plan.steps@.len() == 0),
            r matches Err(e) ==> e != TfError::InternalInconsistency,
            r matches Err(e) ==> ((e == TfError::AttemptedLookupInPast || e
                == TfError::AttemptedLookupInFuture) ==> exists|path: Seq<Seq<char>>, i: int|
                optimal_path(self@, path, source_frame@, target_frame@) && #[trigger] path_fails_at(
                    self@,
                    path,
                    time,
                    i,
                    e,
                )),
            reachable(self@, source_frame@, target_frame@) && (forall|p: Seq<Seq<char>>|
                #[trigger] optimal_path(self@, p, source_frame@, target_frame@) ==> path_resolves(
                    self@,
                    p,
                    time,
                )) ==> r is Ok,
    {
        let source = String::from_str(source_frame);
        let target = String::from_str(target_frame);
        let path = match self.retrieve_transform_path(&source, &target) {
            Ok(p) => p,
            Err(e) => {
                return Err(e);
            },
        };
        let ghost full = seq![source_frame@] + path.deep_view();
        proof {
            assert(full.len() == path@.len() + 1);
            assert(full[0] == source_frame@);
            assert forall|j: int| 0 <= j < path@.len() implies full[j + 1] == (
            #[trigger] path@[j])@ by {
                assert(path.deep_view()[j] == path@[j]@);
            }
        }
        let mut tflist: Vec<TransformSample> = Vec::new();
        let mut prev = source;
        let mut i: usize = 0;
        while i < path.len()
            invariant
                self.wf(),
                full.len() == path@.len() + 1,
                full[0] == source_frame@,
                forall|j: int| 0 <= j < path@.len() ==> full[j + 1] == (#[trigger] path@[j])@,
                optimal_path(self@, full, source_frame@, target_frame@),
                reachable(self@, source_frame@, target_frame@),
                source_frame@ == target_frame@ ==> path@.len() == 0,
                i <= path@.len(),
                tflist@.len() == i,
                prev@ == full[i as int],
                forall|j: int|
                    0 <= j < i ==> step_resolves(
                        self@,
                        (#[trigger] full[j]),
                        full[j + 1],
                        time,
                        tflist@[j],
                    ),
            decreases path@.len() - i,
        {
            let intermediate = path[i].clone();
            proof {
                assert(intermediate@ == full[i as int + 1]);
                assert(self@.dom().contains((full[i as int], full[i as int + 1])));
            }
            match self.find_chain(&prev, &intermediate) {
                None => {
                    proof {
                        assert(false);
                    }
                    return Err(TfError::InternalInconsistency);
                },
                Some(ci) => {
                    proof {
                        self.lemma_view_entry(ci as int);
                    }
                    match self.transform_data[ci].1.get_closest_transform(time) {
                        Ok(sample) => {
                            proof {
                                reveal(step_resolves);
                                assert(step_resolves(
                                    self@,
                                    full[i as int],
                                    full[i as int + 1],
                                    time,
                                    sample,
                                ));
                            }
                            tflist.push(sample);
                        },
                        Err(e) => {
                            proof {
                                let key = (full[i as int], full[i as int + 1]);
                                assert(closest_of(self@[key], time) == Err::<
                                    TransformSample,
                                    TfError,
                                >(e));
                                assert(self@[key].samples.len() > 0);
                                assert(e != TfError::CouldNotFindTransform);
                                assert(e != TfError::InternalInconsistency);
                                // this is the first edge of the chain to fail
                                assert forall|j: int| 0 <= j < i as int implies closest_of(
                                    self@[((#[trigger] full[j]), full[j + 1])],
                                    time,
                                ) is Ok by {
                                    reveal(step_resolves);
                                    assert(step_resolves(
                                        self@,
                                        full[j],
                                        full[j + 1],
                                        time,
                                        tflist@[j],
                                    ));
                                }
                                assert(path_fails_at(self@, full, time, i as int, e));
                                assert(!path_resolves(self@, full, time));
                            }
                            return Err(e);
                        },
                    }
                },
            }
            prev = intermediate;
            i += 1;
        }
        let plan = StampedTransformPlan {
            frame_id: String::from_str(source_frame),
            child_frame_id: String::from_str(target_frame),
            stamp: time,
            seq: 1,
            steps: tflist,
        };
        proof {
            assert forall|j: int| 0 <= j < plan.steps@.len() implies self@.dom().contains(
                ((#[trigger] full[j]), full[j + 1]),
            ) && closest_of(self@[(full[j], full[j + 1])], time) == Ok::<
                TransformSample,
                TfError,
            >(plan.steps@[j]) by {
                reveal(step_resolves);
                assert(step_resolves(self@, full[j], full[j + 1], time, plan.steps@[j]));
            }
            assert(steps_follow_path(self@, full, time, plan.steps@));
        }
        Ok(plan)
    }

    /// Answers "where was `target_frame` at `target_time`, in the
    /// coordinates `source_frame` occupied at `source_time`", bridged
    /// through `fixed_frame`: both frames are looked up relative to the
    /// fixed frame at their own instants, and the math layer composes the
    /// target's answer with the inverse of the source's. The timeout is part
    /// of the declared interface; the store never waits.
    #[verifier::rlimit(100)]
    #[verifier::spinoff_prover]
    pub fn lookup_transform_with_time_travel(
        &self,
        target_frame: &str,
        target_time: Time,
        source_frame: &str,
        source_time: Time,
        fixed_frame: &str,
        _timeout: Duration,
    ) -> (r: Result<TimeTravelPlan, TfError>)
        requires
            self.wf(),
        ensures
            r matches Ok(plan) ==> {
                &&& plan.frame_id@ == source_frame@
                &&& plan.child_frame_id@ == target_frame@
                &&& plan.stamp == source_time
                &&& plan.seq == 0
                &&& exists|path: Seq<Seq<char>>|
                    optimal_path(self@, path, source_frame@, fixed_frame@) && steps_follow_path(
                        self@,
                        path,
                        source_time,
                        plan.source_steps@,
                    )
                &&& exists|path: Seq<Seq<char>>|
                    optimal_path(self@, path, target_frame@, fixed_frame@) && steps_follow_path(
                        self@,
                        path,
                        target_time,
                        plan.target_steps@,
                    )
            },
            !reachable(self@, source_frame@, fixed_frame@) ==> r == Err::<
                TimeTravelPlan,
                TfError,
            >(TfError::CouldNotFindTransform),
            r == Err::<TimeTravelPlan, TfError>(TfError::CouldNotFindTransform) ==> !reachable(
                self@,
                source_frame@,
                fixed_frame@,
            ) || !reachable(self@, target_frame@, fixed_frame@),
            r matches Err(e) ==> e != TfError::InternalInconsistency,
            source_frame@ == fixed_frame@ && target_frame@ == fixed_frame@ ==> r is Ok,
            r matches Err(e) ==> ((e == TfError::AttemptedLookupInPast || e
                == TfError::AttemptedLookupInFuture) ==> (exists|path: Seq<Seq<char>>, i: int|
                optimal_path(self@, path, source_frame@, fixed_frame@) && #[trigger] path_fails_at(
                    self@,
                    path,
                    source_time,
                    i,
                    e,
                )) || ((exists|path: Seq<Seq<char>>|
                #[trigger] optimal_path(self@, path, source_frame@, fixed_frame@) && path_resolves(
                    self@,
                    path,
                    source_time,
                )) && (exists|path: Seq<Seq<char>>, i: int|
                optimal_path(self@, path, target_frame@, fixed_frame@) && #[trigger] path_fails_at(
                    self@,
                    path,
                    target_time,
                    i,
                    e,
                )))),
            reachable(self@, source_frame@, fixed_frame@) && reachable(
                self@,
                target_frame@,
                fixed_frame@,
            ) && (forall|p: Seq<Seq<char>>|
                #[trigger] optimal_path(self@, p, source_frame@, fixed_frame@) ==> path_resolves(
                    self@,
                    p,
                    source_time,
                )) && (forall|p: Seq<Seq<char>>|
                #[trigger] optimal_path(self@, p, target_frame@, fixed_frame@) ==> path_resolves(
                    self@,
                    p,
                    target_time,
                )) ==> r is Ok,
    {
        let source_tf = match self.lookup_transform(source_frame, fixed_frame, source_time) {
            Ok(p) => p,
            Err(e) => {
                return Err(e);
            },
        };
        let target_tf = match self.lookup_transform(target_frame, fixed_frame, target_time) {
            Ok(p) => p,
            Err(e) => {
                proof {
                    let sp = choose|sp: Seq<Seq<char>>|
                        optimal_path(self@, sp, source_frame@, fixed_frame@) && steps_follow_path(
                            self@,
                            sp,
                            source_time,
                            source_tf.steps@,
                        );
                    assert forall|i: int| 0 <= i < sp.len() - 1 implies closest_of(
                        self@[((#[trigger] sp[i]), sp[i + 1])],
                        source_time,
                    ) is Ok by {
                        assert(closest_of(self@[(sp[i], sp[i + 1])], source_time) == Ok::<
                            TransformSample,
                            TfError,
                        >(source_tf.steps@[i]));
                    }
                    assert(optimal_path(self@, sp, source_frame@, fixed_frame@) && path_resolves(
                        self@,
                        sp,
                        source_time,
                    ));
                }
                return Err(e);
            },
        };
        Ok(
            TimeTravelPlan {
                frame_id: String::from_str(source_frame),
                child_frame_id: String::from_str(target_frame),
                stamp: source_time,
                seq: 0,
                target_steps: target_tf.steps,
                source_steps: source_tf.steps,
            },
        )
    }

    /// Declared placeholder: re-expressing an arbitrary value in the
    /// coordinates of another frame is an explicit non-goal of this core.
    /// The operation stands as a stable interface point and hands its input
    /// back unchanged; the other arguments, timeout included, are carried
    /// but not acted on.
    pub fn transform_to_output<'a, T>(
        &self,
        input: &'a T,
        _output: &'a T,
        _target_frame: &str,
        _timeout: Option<Duration>,
    ) -> (r: &'a T)
        ensures
            r == input,
    {
        input
    }

    /// Declared placeholder, as [`Self::transform_to_output`]: a stable
    /// interface point with no behaviour of its own yet.
    pub fn transform_from_input<T>(&self, input: T, _target: &str, _timeout: Option<Duration>) -> (r:
        T)
        ensures
            r == input,
    {
        input
    }

    /// Whether a single-time lookup from `source_frame` to `target_frame`
    /// would presently find a connected chain and covered samples. The
    /// timeout is part of the declared interface; the store never waits.
    #[verifier::rlimit(100)]
    #[verifier::spinoff_prover]
    pub fn can_transform(
        &self,
        target_frame: &str,
        source_frame: &str,
        time: Time,
        _timeout: Duration,
    ) -> (r: Result<bool, TfError>)
        requires
            self.wf(),
        ensures
            r is Ok,
            r == Ok::<bool, TfError>(true) ==> reachable(self@, source_frame@, target_frame@),
            !reachable(self@, source_frame@, target_frame@) ==> r == Ok::<bool, TfError>(false),
            source_frame@ == target_frame@ ==> r == Ok::<bool, TfError>(true),
            reachable(self@, source_frame@, target_frame@) && (forall|p: Seq<Seq<char>>|
                #[trigger] optimal_path(self@, p, source_frame@, target_frame@) ==> path_resolves(
                    self@,
                    p,
                    time,
                )) ==> r == Ok::<bool, TfError>(true),
    {
        match self.lookup_transform(source_frame, target_frame, time) {
            Ok(_) => Ok(true),
            Err(_) => Ok(false),
        }
    }

    /// Whether a time-travel lookup with these frames and instants would
    /// presently succeed. The timeout is part of the declared interface; the
    /// store never waits.
    pub fn can_transform_with_time_travel(
        &self,
        target_frame: &str,
        target_time: Time,
        source_frame: &str,
        source_time: Time,
        fixed_frame: &str,
        timeout: Duration,
    ) -> (r: Result<bool, TfError>)
        requires
            self.wf(),
        ensures
            r is Ok,
            r == Ok::<bool, TfError>(true) ==> reachable(self@, source_frame@, fixed_frame@)
                && reachable(self@, target_frame@, fixed_frame@),
            !reachable(self@, source_frame@, fixed_frame@) ==> r == Ok::<bool, TfError>(false),
            source_frame@ == fixed_frame@ && target_frame@ == fixed_frame@ ==> r == Ok::<
                bool,
                TfError,
            >(true),
            reachable(self@, source_frame@, fixed_frame@) && reachable(
                self@,
                target_frame@,
                fixed_frame@,
            ) && (forall|p: Seq<Seq<char>>|
                #[trigger] optimal_path(self@, p, source_frame@, fixed_frame@) ==> path_resolves(
                    self@,
                    p,
                    source_time,
                )) && (forall|p: Seq<Seq<char>>|
                #[trigger] optimal_path(self@, p, target_frame@, fixed_frame@) ==> path_resolves(
                    self@,
                    p,
                    target_time,
                )) ==> r == Ok::<bool, TfError>(true),
    {
        match self.lookup_transform_with_time_travel(
            target_frame,
            target_time,
            source_frame,
            source_time,
            fixed_frame,
            timeout,
        ) {
            Ok(_) => Ok(true),
            Err(_) => Ok(false),
        }
    }
}

} // verus!
