//! A bloom-filter-like cache over segmented binary vectors.

use vstd::prelude::*;

use crate::segment::Segment;

verus! {

/// The number of complete 2-byte chunks in a buffer; a trailing odd
/// byte does not form a chunk and is dropped.
pub open spec fn num_chunks(bytes: Seq<u8>) -> int {
    bytes.len() as int / 2
}

/// The 16-bit value of chunk `k`: bytes `2k` and `2k + 1` read
/// big-endian.
pub open spec fn chunk_val(bytes: Seq<u8>, k: int) -> u16
    recommends
        0 <= k < num_chunks(bytes),
{
    (bytes[2 * k] * 256 + bytes[2 * k + 1]) as u16
}

/// A cache that divides binary vectors into 16-bit chunks and tracks,
/// per cyclic chunk position, which values have been seen.
pub struct BloomCache {
    segments: Vec<Segment>,
    size: usize,
}

impl BloomCache {
    /// The cache's segments, in slot order.
    pub closed spec fn segments(&self) -> Seq<Segment> {
        self.segments@
    }

    /// The number of vectors added since construction or the last reset.
    pub closed spec fn size(&self) -> nat {
        self.size as nat
    }

    /// The immutable number of slots.
    pub open spec fn num_segments(&self) -> int {
        self.segments().len() as int
    }

    /// Every segment spans the whole 16-bit space.
    pub open spec fn wf(&self) -> bool {
        forall|j: int| 0 <= j < self.num_segments() ==> (#[trigger] self.segments()[j]).wf()
    }

    /// Create a new Cache with the given number of 16-bits wide
    /// segments. The count is unsigned, so a negative count cannot be
    /// supplied; a count of zero is allowed and makes every query's
    /// radius check vacuous.
    pub fn new(num_segments: usize) -> (c: Self)
        ensures
            c.wf(),
            c.num_segments() == num_segments,
            c.size() == 0,
            forall|j: int, v: u16| 0 <= j < c.num_segments()
                ==> !(#[trigger] c.segments()[j].contains(v)),
    {
        BloomCache { segments: make_segments(num_segments), size: 0 }
    }

    /// Add the given vectors to the cache, marking the corresponding
    /// segments as seen: chunk `k` of the buffer records its value in
    /// slot `k mod num_segments`, so a buffer longer than one vector's
    /// width wraps around cyclically. The count of indexed vectors
    /// advances by exactly one per call, however many logical vectors
    /// the buffer encodes; a trailing odd byte is dropped. Bits only
    /// ever move from clear to set: nothing already recorded is lost.
    pub fn add(&mut self, vectors: &[u8])
        requires
            old(self).wf(),
            old(self).size() < usize::MAX,
        ensures
            final(self).wf(),
            final(self).num_segments() == old(self).num_segments(),
            final(self).size() == old(self).size() + 1,
            forall|j: int, v: u16| 0 <= j < old(self).num_segments() ==>
                ((#[trigger] final(self).segments()[j].contains(v)) <==>
                    (old(self).segments()[j].contains(v)
                        || exists|k: int| 0 <= k < num_chunks(vectors@)
                            && (#[trigger] chunk_val(vectors@, k)) == v
                            && k % old(self).num_segments() == j)),
            forall|j: int, v: u16| 0 <= j < old(self).num_segments()
                && old(self).segments()[j].contains(v)
                ==> #[trigger] final(self).segments()[j].contains(v),
    {
        let n: usize = self.segments.len();
        if n > 0 {
            let vlen: usize = vectors.len();
            let nc: usize = vlen / 2;
            let mut k: usize = 0;
            while k < nc
                invariant
                    old(self).wf(),
                    n == old(self).num_segments(),
                    n > 0,
                    vectors@.len() == vlen,
                    nc == num_chunks(vectors@),
                    k <= nc,
                    self.wf(),
                    self.segments@.len() == n,
                    self.size == old(self).size,
                    forall|j: int, v: u16| 0 <= j < n ==>
                        ((#[trigger] self.segments@[j].contains(v)) <==>
                            (old(self).segments()[j].contains(v)
                                || exists|t: int| 0 <= t < k
                                    && (#[trigger] chunk_val(vectors@, t)) == v
                                    && t % (n as int) == j)),
                decreases nc - k,
            {
                let hi: u8 = vectors[2 * k];
                let lo: u8 = vectors[2 * k + 1];
                let value: u16 = (hi as u16) * 256 + (lo as u16);
                let idx: usize = k % n;
                proof {
                    assert(value == chunk_val(vectors@, k as int));
                    assert(self.segments()[idx as int].wf());
                }
                let ghost pre: Seq<Segment> = self.segments@;
                self.segments[idx].set(value);
                proof {
                    assert forall|j: int, v: u16| 0 <= j < n implies
                        ((#[trigger] self.segments@[j].contains(v)) <==>
                            (old(self).segments()[j].contains(v)
                                || exists|t: int| 0 <= t < k + 1
                                    && (#[trigger] chunk_val(vectors@, t)) == v
                                    && t % (n as int) == j)) by {
                        if j == idx as int {
                            if self.segments@[j].contains(v) && !pre[j].contains(v) {
                                assert(v == value);
                                assert(chunk_val(vectors@, k as int) == v
                                    && (k as int) % (n as int) == j);
                            }
                            if exists|t: int| 0 <= t < k + 1
                                && (#[trigger] chunk_val(vectors@, t)) == v
                                && t % (n as int) == j {
                                let t = choose|t: int| 0 <= t < k + 1
                                    && (#[trigger] chunk_val(vectors@, t)) == v
                                    && t % (n as int) == j;
                                if t == k as int {
                                    assert(v == value);
                                }
                                assert(self.segments@[j].contains(v));
                            }
                        } else {
                            assert(self.segments@[j] == pre[j]);
                            assert forall|t: int| 0 <= t < k + 1
                                && (#[trigger] chunk_val(vectors@, t)) == v
                                && t % (n as int) == j implies t < k by {
                            }
                        }
                    }
                }
                k = k + 1;
            }
        }
        let ghost mid: BloomCache = *self;
        self.size = self.size + 1;
        proof {
            assert forall|j: int| 0 <= j < self.num_segments() implies
                (#[trigger] self.segments()[j]).wf() by {
                assert(self.segments()[j] == mid.segments()[j]);
            }
        }
    }

    /// Number of query chunks paired with a segment: chunk `k` is
    /// tested against segment `k` positionally, and the pairing stops
    /// at the shorter of the two.
    pub open spec fn paired(&self, q: Seq<u8>) -> int {
        if num_chunks(q) <= self.num_segments() {
            num_chunks(q)
        } else {
            self.num_segments()
        }
    }

    /// How many of the first `upto` paired slots hold a query chunk
    /// whose value the slot's segment has never seen.
    pub open spec fn miss_count(&self, q: Seq<u8>, upto: int) -> int
        recommends
            0 <= upto <= self.paired(q),
        decreases upto,
    {
        if upto <= 0 {
            0
        } else {
            self.miss_count(q, upto - 1)
                + if !self.segments()[upto - 1].contains(chunk_val(q, upto - 1)) {
                    1int
                } else {
                    0int
                }
        }
    }

    /// The rejection decision: a query is rejected exactly when the
    /// radius is smaller than the number of segments and the count of
    /// never-seen paired chunks exceeds it. A negative radius, or one
    /// at least `num_segments`, never rejects.
    pub open spec fn spec_should_reject(&self, q: Seq<u8>, radius: i32) -> bool {
        0 <= radius < self.num_segments() && self.miss_count(q, self.paired(q)) > radius
    }

    /// Determine whether a range search at the given radius can be
    /// safely rejected (as no hits) for the given query vector: more
    /// than `acceptance_radius` of the query's chunks were never seen
    /// at their slot, so no indexed vector can lie within that radius.
    pub fn should_reject(&self, query: &[u8], acceptance_radius: i32) -> (r: bool)
        requires
            self.wf(),
        ensures
            r == self.spec_should_reject(query@, acceptance_radius),
    {
        let n: usize = self.segments.len();
        if acceptance_radius < 0 {
            return false;
        }
        let radius: usize = acceptance_radius as usize;
        if radius >= n {
            return false;
        }
        let vlen: usize = query.len();
        let nc: usize = vlen / 2;
        let m: usize = if nc <= n { nc } else { n };
        let mut misses: usize = 0;
        let mut k: usize = 0;
        while k < m
            invariant
                self.wf(),
                n == self.num_segments(),
                query@.len() == vlen,
                nc == num_chunks(query@),
                m == self.paired(query@),
                0 <= acceptance_radius,
                radius as int == acceptance_radius as int,
                (radius as int) < n,
                k <= m,
                misses == self.miss_count(query@, k as int),
                misses <= radius,
            decreases m - k,
        {
            let hi: u8 = query[2 * k];
            let lo: u8 = query[2 * k + 1];
            let value: u16 = (hi as u16) * 256 + (lo as u16);
            proof {
                assert(value == chunk_val(query@, k as int));
                assert(self.segments()[k as int].wf());
            }
            if !self.segments[k].get(value) {
                misses = misses + 1;
                if misses > radius {
                    proof {
                        lemma_miss_count_monotone(self, query@, k as int + 1, m as int);
                    }
                    return true;
                }
            }
            k = k + 1;
        }
        false
    }

    /// Reset the cache and clear all indexed state: every segment's
    /// bitmap is emptied and the vector count returns to zero, while
    /// the number of segments is preserved.
    pub fn reset(&mut self)
        ensures
            final(self).wf(),
            final(self).num_segments() == old(self).num_segments(),
            final(self).size() == 0,
            forall|j: int, v: u16| 0 <= j < final(self).num_segments()
                ==> !(#[trigger] final(self).segments()[j].contains(v)),
    {
        let n: usize = self.segments.len();
        self.segments = make_segments(n);
        self.size = 0;
    }

    /// Get the segments in slot order, for read-only inspection.
    pub fn iter_segments(&self) -> (r: &Vec<Segment>)
        ensures
            r@ == self.segments(),
    {
        &self.segments
    }

    /// Get the segments in slot order, for in-place mutation: the
    /// cache's segments afterwards are whatever the caller leaves
    /// behind, and the vector count is unchanged.
    pub fn iter_segments_mut(&mut self) -> (r: &mut Vec<Segment>)
        ensures
            r@ == old(self).segments(),
            final(self).segments() == (*final(r))@,
            final(self).size() == old(self).size(),
    {
        &mut self.segments
    }

    /// Get the number of indexed vectors.
    pub fn len(&self) -> (r: usize)
        ensures
            r == self.size(),
    {
        self.size
    }

    /// Determine whether no vectors have been indexed yet.
    pub fn is_empty(&self) -> (r: bool)
        ensures
            r == (self.size() == 0),
    {
        self.size == 0
    }
}

/// How many of the first `upto` chunk positions hold different 16-bit
/// values in the two buffers.
pub open spec fn count_diffs(q: Seq<u8>, v: Seq<u8>, upto: int) -> int
    recommends
        upto <= num_chunks(q),
        upto <= num_chunks(v),
    decreases upto,
{
    if upto <= 0 {
        0
    } else {
        count_diffs(q, v, upto - 1)
            + if chunk_val(q, upto - 1) != chunk_val(v, upto - 1) {
                1int
            } else {
                0int
            }
    }
}

/// Counting misses over a longer prefix never counts fewer.
proof fn lemma_miss_count_monotone(c: &BloomCache, q: Seq<u8>, a: int, b: int)
    requires
        0 <= a <= b,
    ensures
        c.miss_count(q, a) <= c.miss_count(q, b),
    decreases b - a,
{
    if a < b {
        lemma_miss_count_monotone(c, q, a, b - 1);
    }
}

/// A slot whose query chunk equals a recorded vector's chunk is never a
/// miss, so misses are at most the differing slots.
proof fn lemma_miss_count_le_diffs(c: &BloomCache, q: Seq<u8>, v: Seq<u8>, upto: int)
    requires
        forall|k: int| 0 <= k < upto
            ==> (#[trigger] c.segments()[k]).contains(chunk_val(v, k)),
    ensures
        c.miss_count(q, upto) <= count_diffs(q, v, upto),
    decreases upto,
{
    if upto > 0 {
        lemma_miss_count_le_diffs(c, q, v, upto - 1);
        if chunk_val(q, upto - 1) == chunk_val(v, upto - 1) {
            assert(c.segments()[upto - 1].contains(chunk_val(q, upto - 1)));
        }
    }
}

/// Law: no false rejection. If some vector whose chunk values are all
/// recorded at their slots — as `add` leaves every vector of exactly
/// `num_segments` chunks — differs from the query in at most `radius`
/// of the paired slots, the query is not rejected.
pub proof fn lemma_no_false_rejection(c: &BloomCache, q: Seq<u8>, v: Seq<u8>, radius: i32)
    requires
        forall|k: int| 0 <= k < c.paired(q)
            ==> (#[trigger] c.segments()[k]).contains(chunk_val(v, k)),
        count_diffs(q, v, c.paired(q)) <= radius,
    ensures
        !c.spec_should_reject(q, radius),
{
    lemma_miss_count_le_diffs(c, q, v, c.paired(q));
}

/// Law: large-radius vacuity. A radius at least the number of segments
/// can always be met vacuously, so the cache never rejects, whatever
/// the query and the segments' contents.
pub proof fn lemma_large_radius_vacuous(c: &BloomCache, q: Seq<u8>, radius: i32)
    requires
        radius >= c.num_segments(),
    ensures
        !c.spec_should_reject(q, radius),
{
}

/// A vector of `n` fresh segments, one per slot, each empty.
fn make_segments(n: usize) -> (r: Vec<Segment>)
    ensures
        r@.len() == n,
        forall|j: int| 0 <= j < n ==> (#[trigger] r@[j]).wf(),
        forall|j: int, v: u16| 0 <= j < n ==> !(#[trigger] r@[j].contains(v)),
{
    let mut r: Vec<Segment> = Vec::new();
    let mut i: usize = 0;
    while i < n
        invariant
            i <= n,
            r@.len() == i,
            forall|j: int| 0 <= j < i ==> (#[trigger] r@[j]).wf(),
            forall|j: int, v: u16| 0 <= j < i ==> !(#[trigger] r@[j].contains(v)),
        decreases n - i,
    {
        r.push(Segment::empty());
        i = i + 1;
    }
    r
}

} // verus!
