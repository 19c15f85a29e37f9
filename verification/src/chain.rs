//! The bounded, time-sorted sample buffer of one directed relationship.

use vstd::prelude::*;
use crate::error::TfError;
use crate::msg::{Time, TransformStamped};

verus! {

/// How many samples one relationship keeps; inserting beyond this drops the
/// positionally first stored sample.
pub const MAX_BUFFER_SIZE: usize = 100;

/// What a time query resolved to. The math layer realizes a sample into
/// numbers; the store only decides which stored observations take part and
/// with what blend fraction.
#[derive(PartialEq, Eq, Debug)]
pub enum TransformSample {
    /// Use this stored observation as it stands.
    Exact(TransformStamped),
    /// Blend two bracketing observations: `first` receives the weight
    /// `1 - numer / denom` and `second` the weight `numer / denom`, where
    /// `numer` is the nanoseconds from `first`'s stamp to the queried time
    /// and `denom` the nanoseconds from `first`'s stamp to `second`'s.
    /// The blended value answers for the queried time, with the frame names
    /// of `second`'s header.
    Interpolated { first: TransformStamped, second: TransformStamped, numer: i64, denom: i64 },
}

/// The mathematical content of one relationship's buffer: its samples in
/// storage order and whether the relationship is static.
pub struct ChainView {
    pub is_static: bool,
    pub samples: Seq<TransformStamped>,
}

/// The samples are ascending by stamp.
pub open spec fn sorted_by_stamp(s: Seq<TransformStamped>) -> bool {
    forall|i: int, j: int|
        0 <= i <= j < s.len() ==> s[i].header.stamp.nanos() <= s[j].header.stamp.nanos()
}

/// How many leading samples an insertion at time `t` keeps before it: the
/// index just past the last sample whose stamp is at or before `t`.
pub open spec fn upper_bound(s: Seq<TransformStamped>, t: int) -> int
    decreases s.len(),
{
    if s.len() == 0 {
        0
    } else if s.last().header.stamp.nanos() <= t {
        s.len() as int
    } else {
        upper_bound(s.drop_last(), t)
    }
}

/// The index of the first sample whose stamp is at or after `t`.
pub open spec fn lower_bound(s: Seq<TransformStamped>, t: int) -> int
    decreases s.len(),
{
    if s.len() == 0 {
        0
    } else if s.last().header.stamp.nanos() < t {
        s.len() as int
    } else {
        lower_bound(s.drop_last(), t)
    }
}

/// The buffer contents after one insertion: `msg` goes in at its sorted
/// position (after any samples sharing its stamp), and if the buffer then
/// exceeds its capacity, the positionally first sample is dropped.
pub open spec fn chain_after_add(s: Seq<TransformStamped>, msg: TransformStamped) -> Seq<
    TransformStamped,
> {
    let ins = s.insert(upper_bound(s, msg.header.stamp.nanos()), msg);
    if ins.len() > MAX_BUFFER_SIZE {
        ins.subrange(1, ins.len() as int)
    } else {
        ins
    }
}

/// What a time query on a buffer answers; see `get_closest_transform`.
pub open spec fn closest_of(cv: ChainView, time: Time) -> Result<TransformSample, TfError> {
    let s = cv.samples;
    let t = time.nanos();
    if cv.is_static {
        if s.len() == 0 {
            Err(TfError::CouldNotFindTransform)
        } else {
            Ok(TransformSample::Exact(s.last()))
        }
    } else {
        let i = lower_bound(s, t);
        if i < s.len() && s[i].header.stamp.nanos() == t {
            Ok(TransformSample::Exact(s[i]))
        } else if i == 0 {
            Err(TfError::AttemptedLookupInPast)
        } else if i >= s.len() {
            Err(TfError::AttemptedLookupInFuture)
        } else {
            Ok(
                TransformSample::Interpolated {
                    first: s[i - 1],
                    second: s[i],
                    numer: (t - s[i - 1].header.stamp.nanos()) as i64,
                    denom: (s[i].header.stamp.nanos() - s[i - 1].header.stamp.nanos()) as i64,
                },
            )
        }
    }
}

/// The insertion point is always within the sequence, sorted or not.
pub proof fn lemma_upper_bound_bounds(s: Seq<TransformStamped>, t: int)
    ensures
        0 <= upper_bound(s, t) <= s.len(),
    decreases s.len(),
{
    if s.len() > 0 && !(s.last().header.stamp.nanos() <= t) {
        lemma_upper_bound_bounds(s.drop_last(), t);
    }
}

pub proof fn lemma_upper_bound_partition(s: Seq<TransformStamped>, t: int)
    requires
        sorted_by_stamp(s),
    ensures
        0 <= upper_bound(s, t) <= s.len(),
        forall|j: int| 0 <= j < upper_bound(s, t) ==> s[j].header.stamp.nanos() <= t,
        forall|j: int| upper_bound(s, t) <= j < s.len() ==> s[j].header.stamp.nanos() > t,
    decreases s.len(),
{
    if s.len() == 0 {
    } else if s.last().header.stamp.nanos() <= t {
        assert forall|j: int| 0 <= j < s.len() implies s[j].header.stamp.nanos() <= t by {
            assert(s[j].header.stamp.nanos() <= s.last().header.stamp.nanos());
        }
    } else {
        assert(sorted_by_stamp(s.drop_last()));
        lemma_upper_bound_partition(s.drop_last(), t);
        assert forall|j: int| 0 <= j < upper_bound(s, t) implies s[j].header.stamp.nanos()
            <= t by {
            assert(s.drop_last()[j] == s[j]);
        }
        assert forall|j: int| upper_bound(s, t) <= j < s.len() implies s[j].header.stamp.nanos()
            > t by {
            if j < s.len() - 1 {
                assert(s.drop_last()[j] == s[j]);
            }
        }
    }
}

pub proof fn lemma_lower_bound_partition(s: Seq<TransformStamped>, t: int)
    requires
        sorted_by_stamp(s),
    ensures
        0 <= lower_bound(s, t) <= s.len(),
        forall|j: int| 0 <= j < lower_bound(s, t) ==> s[j].header.stamp.nanos() < t,
        forall|j: int| lower_bound(s, t) <= j < s.len() ==> s[j].header.stamp.nanos() >= t,
    decreases s.len(),
{
    if s.len() == 0 {
    } else if s.last().header.stamp.nanos() < t {
        assert forall|j: int| 0 <= j < s.len() implies s[j].header.stamp.nanos() < t by {
            assert(s[j].header.stamp.nanos() <= s.last().header.stamp.nanos());
        }
    } else {
        assert(sorted_by_stamp(s.drop_last()));
        lemma_lower_bound_partition(s.drop_last(), t);
        assert forall|j: int| 0 <= j < lower_bound(s, t) implies s[j].header.stamp.nanos()
            < t by {
            assert(s.drop_last()[j] == s[j]);
        }
        assert forall|j: int| lower_bound(s, t) <= j < s.len() implies s[j].header.stamp.nanos()
            >= t by {
            if j < s.len() - 1 {
                assert(s.drop_last()[j] == s[j]);
            }
        }
    }
}

/// An index that splits the samples into a stamp-at-or-before prefix and a
/// stamp-after suffix is the upper bound.
pub proof fn lemma_upper_bound_unique(s: Seq<TransformStamped>, t: int, i: int)
    requires
        sorted_by_stamp(s),
        0 <= i <= s.len(),
        forall|j: int| 0 <= j < i ==> s[j].header.stamp.nanos() <= t,
        forall|j: int| i <= j < s.len() ==> s[j].header.stamp.nanos() > t,
    ensures
        i == upper_bound(s, t),
{
    lemma_upper_bound_partition(s, t);
    if i < upper_bound(s, t) {
        assert(s[i].header.stamp.nanos() <= t);
        assert(s[i].header.stamp.nanos() > t);
    }
    if i > upper_bound(s, t) {
        assert(s[upper_bound(s, t)].header.stamp.nanos() <= t);
        assert(s[upper_bound(s, t)].header.stamp.nanos() > t);
    }
}

/// An index that splits the samples into a stamp-before prefix and a
/// stamp-at-or-after suffix is the lower bound.
pub proof fn lemma_lower_bound_unique(s: Seq<TransformStamped>, t: int, i: int)
    requires
        sorted_by_stamp(s),
        0 <= i <= s.len(),
        forall|j: int| 0 <= j < i ==> s[j].header.stamp.nanos() < t,
        forall|j: int| i <= j < s.len() ==> s[j].header.stamp.nanos() >= t,
    ensures
        i == lower_bound(s, t),
{
    lemma_lower_bound_partition(s, t);
    if i < lower_bound(s, t) {
        assert(s[i].header.stamp.nanos() < t);
        assert(s[i].header.stamp.nanos() >= t);
    }
    if i > lower_bound(s, t) {
        assert(s[lower_bound(s, t)].header.stamp.nanos() < t);
        assert(s[lower_bound(s, t)].header.stamp.nanos() >= t);
    }
}

/// A dynamic relationship queried before its earliest sample fails in the
/// past.
pub proof fn lemma_closest_of_past(cv: ChainView, time: Time)
    requires
        !cv.is_static,
        sorted_by_stamp(cv.samples),
        cv.samples.len() > 0,
        time.nanos() < cv.samples[0].header.stamp.nanos(),
    ensures
        closest_of(cv, time) == Err::<TransformSample, TfError>(TfError::AttemptedLookupInPast),
{
    let s = cv.samples;
    let t = time.nanos();
    lemma_lower_bound_partition(s, t);
    if lower_bound(s, t) > 0 {
        assert(s[0].header.stamp.nanos() < t);
    }
    assert(s[0].header.stamp.nanos() != t);
}

/// A dynamic relationship queried after its latest sample fails in the
/// future.
pub proof fn lemma_closest_of_future(cv: ChainView, time: Time)
    requires
        !cv.is_static,
        sorted_by_stamp(cv.samples),
        cv.samples.len() > 0,
        time.nanos() > cv.samples.last().header.stamp.nanos(),
    ensures
        closest_of(cv, time) == Err::<TransformSample, TfError>(TfError::AttemptedLookupInFuture),
{
    let s = cv.samples;
    let t = time.nanos();
    assert forall|k: int| 0 <= k < s.len() implies s[k].header.stamp.nanos() < t by {
        assert(s[k].header.stamp.nanos() <= s.last().header.stamp.nanos());
    }
    lemma_lower_bound_unique(s, t, s.len() as int);
}

/// A dynamic relationship queried exactly at the stamp of its sample `j`
/// (the only sample with that stamp) returns that sample unchanged.
pub proof fn lemma_closest_of_exact(cv: ChainView, time: Time, j: int)
    requires
        !cv.is_static,
        sorted_by_stamp(cv.samples),
        0 <= j < cv.samples.len(),
        cv.samples[j].header.stamp.nanos() == time.nanos(),
        forall|k: int|
            0 <= k < cv.samples.len() && k != j ==> (#[trigger] cv.samples[k]).header.stamp.nanos()
                != time.nanos(),
    ensures
        closest_of(cv, time) == Ok::<TransformSample, TfError>(
            TransformSample::Exact(cv.samples[j]),
        ),
{
    let s = cv.samples;
    let t = time.nanos();
    lemma_lower_bound_partition(s, t);
    let lb = lower_bound(s, t);
    assert(lb <= j);
    if lb < j {
        assert(s[lb].header.stamp.nanos() >= t);
        assert(s[lb].header.stamp.nanos() <= s[j].header.stamp.nanos());
        assert(false);
    }
}

/// A dynamic relationship queried strictly between the stamps of its
/// neighbouring samples `j` and `j + 1` answers with those two samples and
/// the exact elapsed-nanosecond fraction between them.
pub proof fn lemma_closest_of_between(cv: ChainView, time: Time, j: int)
    requires
        !cv.is_static,
        sorted_by_stamp(cv.samples),
        0 <= j < cv.samples.len() - 1,
        cv.samples[j].header.stamp.nanos() < time.nanos(),
        time.nanos() < cv.samples[j + 1].header.stamp.nanos(),
    ensures
        closest_of(cv, time) == Ok::<TransformSample, TfError>(
            TransformSample::Interpolated {
                first: cv.samples[j],
                second: cv.samples[j + 1],
                numer: (time.nanos() - cv.samples[j].header.stamp.nanos()) as i64,
                denom: (cv.samples[j + 1].header.stamp.nanos()
                    - cv.samples[j].header.stamp.nanos()) as i64,
            },
        ),
{
    let s = cv.samples;
    let t = time.nanos();
    assert forall|k: int| 0 <= k < j + 1 implies s[k].header.stamp.nanos() < t by {
        assert(s[k].header.stamp.nanos() <= s[j].header.stamp.nanos());
    }
    assert forall|k: int| j + 1 <= k < s.len() implies s[k].header.stamp.nanos() >= t by {
        assert(s[j + 1].header.stamp.nanos() <= s[k].header.stamp.nanos());
    }
    lemma_lower_bound_unique(s, t, j + 1);
    assert(s[j + 1].header.stamp.nanos() != t);
}

/// Insertion keeps the samples sorted and within one of the old length.
pub proof fn lemma_chain_after_add_sorted(s: Seq<TransformStamped>, msg: TransformStamped)
    requires
        sorted_by_stamp(s),
    ensures
        sorted_by_stamp(chain_after_add(s, msg)),
        s.len() <= MAX_BUFFER_SIZE ==> chain_after_add(s, msg).len() <= MAX_BUFFER_SIZE,
{
    let t = msg.header.stamp.nanos();
    let u = upper_bound(s, t);
    lemma_upper_bound_partition(s, t);
    let ins = s.insert(u, msg);
    assert forall|i: int, j: int| 0 <= i <= j < ins.len() implies ins[i].header.stamp.nanos()
        <= ins[j].header.stamp.nanos() by {
        if i < u && j < u {
        } else if i > u && j > u {
        }
    }
    if ins.len() > MAX_BUFFER_SIZE {
        let out = ins.subrange(1, ins.len() as int);
        assert(sorted_by_stamp(out));
    }
}

/// The bounded, time-sorted buffer of one directed relationship's samples,
/// flagged static or dynamic.
#[derive(Debug)]
pub struct TfIndividualTransformChain {
    buffer_size: usize,
    static_tf: bool,
    transform_chain: Vec<TransformStamped>,
}

impl View for TfIndividualTransformChain {
    type V = ChainView;

    closed spec fn view(&self) -> ChainView {
        ChainView { is_static: self.static_tf, samples: self.transform_chain@ }
    }
}

impl TfIndividualTransformChain {
    /// The buffer's internal invariant: samples sorted ascending by stamp,
    /// never more than the fixed capacity.
    pub closed spec fn wf(self) -> bool {
        &&& self.buffer_size == MAX_BUFFER_SIZE
        &&& self.transform_chain.len() <= self.buffer_size
        &&& sorted_by_stamp(self.transform_chain@)
    }

    /// The invariant makes the samples sorted.
    pub proof fn lemma_wf_sorted(self)
        requires
            self.wf(),
        ensures
            sorted_by_stamp(self@.samples),
            self@.samples.len() <= MAX_BUFFER_SIZE,
    {
    }

    /// An empty buffer for a new relationship.
    pub fn new(static_tf: bool) -> (r: Self)
        ensures
            r.wf(),
            r@.is_static == static_tf,
            r@.samples == Seq::<TransformStamped>::empty(),
    {
        let r = TfIndividualTransformChain {
            buffer_size: MAX_BUFFER_SIZE,
            transform_chain: Vec::new(),
            static_tf,
        };
        proof {
            assert(r@.samples =~= Seq::<TransformStamped>::empty());
        }
        r
    }

    /// Inserts one sample at its sorted position (after any samples sharing
    /// its stamp). If the buffer then exceeds its capacity, the positionally
    /// first sample is dropped: plain first-slot eviction, which under
    /// sorted insertion is the earliest-stamped slot, kept as the documented
    /// behaviour rather than any smarter retention policy.
    pub fn add_to_buffer(&mut self, msg: TransformStamped)
        requires
            old(self).wf(),
        ensures
            final(self).wf(),
            final(self)@.is_static == old(self)@.is_static,
            final(self)@.samples == chain_after_add(old(self)@.samples, msg),
    {
        let t = msg.header.stamp.as_nanos();
        let ghost s0 = self.transform_chain@;
        let mut i: usize = self.transform_chain.len();
        while i > 0 && self.transform_chain[i - 1].header.stamp.as_nanos() > t
            invariant
                i <= self.transform_chain.len(),
                self.transform_chain@ == s0,
                t == msg.header.stamp.nanos(),
                forall|j: int|
                    i <= j < s0.len() ==> s0[j].header.stamp.nanos() > msg.header.stamp.nanos(),
            decreases i,
        {
            i -= 1;
        }
        proof {
            assert forall|j: int| 0 <= j < i implies s0[j].header.stamp.nanos()
                <= msg.header.stamp.nanos() by {
                assert(s0[j].header.stamp.nanos() <= s0[i - 1].header.stamp.nanos());
            }
            lemma_upper_bound_unique(s0, msg.header.stamp.nanos(), i as int);
            lemma_chain_after_add_sorted(s0, msg);
        }
        self.transform_chain.insert(i, msg);
        if self.transform_chain.len() > self.buffer_size {
            self.transform_chain.remove(0);
        }
    }

    /// Answers a time query on this buffer.
    ///
    /// A static relationship always answers with the last stored sample,
    /// whatever the queried time; asked while empty (never through the
    /// store, which only creates a buffer around its first sample) it
    /// answers that no transform was found. A dynamic one answers with the
    /// sample stored exactly at the queried time if there is one; fails in
    /// the past when the time precedes every stored sample — an empty
    /// buffer included — and in the future when it follows them all; and
    /// otherwise names the two bracketing samples together with the exact
    /// nanosecond blend fraction between them.
    pub fn get_closest_transform(&self, time: Time) -> (r: Result<TransformSample, TfError>)
        requires
            self.wf(),
        ensures
            r == closest_of(self@, time),
            self@.is_static && self@.samples.len() > 0 ==> r == Ok::<TransformSample, TfError>(
                TransformSample::Exact(self@.samples.last()),
            ),
    {
        let n = self.transform_chain.len();
        if self.static_tf {
            if n == 0 {
                return Err(TfError::CouldNotFindTransform);
            }
            return Ok(TransformSample::Exact(self.transform_chain[n - 1].clone()));
        }
        let t = time.as_nanos();
        let mut i: usize = 0;
        while i < n && self.transform_chain[i].header.stamp.as_nanos() < t
            invariant
                n == self.transform_chain.len(),
                i <= n,
                t == time.nanos(),
                forall|j: int|
                    0 <= j < i ==> self.transform_chain@[j].header.stamp.nanos() < time.nanos(),
            decreases n - i,
        {
            i += 1;
        }
        proof {
            assert forall|j: int| i <= j < n implies self.transform_chain@[j].header.stamp.nanos()
                >= time.nanos() by {
                assert(self.transform_chain@[i as int].header.stamp.nanos()
                    <= self.transform_chain@[j].header.stamp.nanos());
            }
            lemma_lower_bound_unique(self.transform_chain@, time.nanos(), i as int);
        }
        if i < n && self.transform_chain[i].header.stamp.as_nanos() == t {
            return Ok(TransformSample::Exact(self.transform_chain[i].clone()));
        }
        if i == 0 {
            return Err(TfError::AttemptedLookupInPast);
        }
        if i >= n {
            return Err(TfError::AttemptedLookupInFuture);
        }
        let first = self.transform_chain[i - 1].clone();
        let second = self.transform_chain[i].clone();
        let numer = time.nanos_since(&first.header.stamp);
        let denom = second.header.stamp.nanos_since(&first.header.stamp);
        Ok(TransformSample::Interpolated { first, second, numer, denom })
    }
}

} // verus!
