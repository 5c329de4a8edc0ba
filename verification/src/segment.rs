//! An exact membership bitmap over the 16-bit value domain.

use vstd::prelude::*;

verus! {

/// The bit that stands for `value` within its byte of the bitmap:
/// most-significant-bit-first packing, so value `8*b` is the top bit
/// of byte `b` and value `8*b + 7` is its bottom bit.
pub open spec fn mask_for(value: u16) -> u8 {
    1u8 << ((7 - value % 8) as u8)
}

/// A bitmap recording which 16-bit values have been observed. It holds
/// one bit for each of the 65536 possible values (8192 bytes), all zero
/// at construction; bits only ever move from clear to set.
pub struct Segment {
    data: Vec<u8>,
}

impl Segment {
    /// The bitmap spans the whole 16-bit space.
    pub closed spec fn wf(&self) -> bool {
        self.data@.len() == 8192
    }

    /// Whether `value` has been recorded: the bit at byte `value / 8`,
    /// position `7 - value % 8`, is set.
    pub closed spec fn contains(&self, value: u16) -> bool {
        self.data@[(value / 8) as int] & mask_for(value) != 0
    }

    /// Create an empty (yet initialized) segment: well-formed and
    /// containing no value.
    pub fn empty() -> (s: Self)
        ensures
            s.wf(),
            forall|v: u16| !s.contains(v),
    {
        let mut data: Vec<u8> = Vec::new();
        let mut i: usize = 0;
        while i < 8192
            invariant
                i <= 8192,
                data@.len() == i,
                forall|t: int| 0 <= t < i ==> data@[t] == 0u8,
            decreases 8192 - i,
        {
            data.push(0u8);
            i = i + 1;
        }
        let s = Segment { data };
        proof {
            assert forall|v: u16| !s.contains(v) by {
                lemma_zero_byte_has_no_bit(v);
            }
        }
        s
    }

    /// Get all the positions that have been seen at least once, in
    /// ascending numeric order. Nothing is mutated, so repeated calls
    /// return the same values.
    pub fn get_setbits(&self) -> (r: Vec<u16>)
        requires
            self.wf(),
        ensures
            strictly_increasing(r@),
            forall|t: int| 0 <= t < r@.len() ==> self.contains(#[trigger] r@[t]),
            forall|v: u16| self.contains(v) ==> r@.contains(v),
    {
        let mut r: Vec<u16> = Vec::new();
        let mut i: u32 = 0;
        while i < 65536
            invariant
                self.wf(),
                i <= 65536,
                strictly_increasing(r@),
                forall|t: int| 0 <= t < r@.len()
                    ==> self.contains(#[trigger] r@[t]) && (r@[t] as u32) < i,
                forall|v: u16| (v as u32) < i && self.contains(v) ==> r@.contains(v),
            decreases 65536 - i,
        {
            let value: u16 = i as u16;
            if self.get(value) {
                let ghost prev: Seq<u16> = r@;
                r.push(value);
                proof {
                    assert forall|v: u16| (v as u32) < i + 1 && self.contains(v)
                        implies r@.contains(v) by {
                        if (v as u32) < i {
                            let t = choose|t: int| 0 <= t < prev.len() && prev[t] == v;
                            assert(r@[t] == v);
                        } else {
                            assert(r@[prev.len() as int] == v);
                        }
                    }
                }
            }
            i = i + 1;
        }
        r
    }

    /// Get whether this value has been seen before.
    pub fn get(&self, index: u16) -> (r: bool)
        requires
            self.wf(),
        ensures
            r == self.contains(index),
    {
        let byte_offset: usize = (index / 8) as usize;
        let bit_offset: u16 = 7 - index % 8;
        let byte: u8 = self.data[byte_offset];
        byte & (1u8 << (bit_offset as u8)) != 0
    }

    /// Set this value as seen. Idempotent; every other value keeps its
    /// previous membership, so recorded values are never cleared.
    pub fn set(&mut self, index: u16)
        requires
            old(self).wf(),
        ensures
            final(self).wf(),
            forall|v: u16| final(self).contains(v) <==> (old(self).contains(v) || v == index),
    {
        let byte_offset: usize = (index / 8) as usize;
        let bit_offset: u16 = 7 - index % 8;
        let byte: u8 = self.data[byte_offset];
        self.data[byte_offset] = byte | (1u8 << (bit_offset as u8));
        proof {
            assert forall|v: u16| self.contains(v) <==> (old(self).contains(v) || v == index) by {
                lemma_or_sets_one_bit(byte, index, v);
                if (v / 8) as int != (index / 8) as int {
                    assert(v != index);
                } else {
                    lemma_same_byte_same_bit(index, v);
                }
            }
        }
    }
}

impl Default for Segment {
    /// An empty segment, the same as `Segment::empty`.
    fn default() -> (s: Self)
        ensures
            s.wf(),
            forall|v: u16| !s.contains(v),
    {
        Segment::empty()
    }
}

/// Each element is strictly less than any later one.
pub open spec fn strictly_increasing(s: Seq<u16>) -> bool {
    forall|a: int, b: int| 0 <= a < b < s.len() ==> s[a] < s[b]
}

/// Law: iteration completeness. A strictly increasing sequence of
/// 16-bit values that contains every value — as `get_setbits` produces
/// once `set` has been called on every value — is exactly the full
/// ascending enumeration of the 16-bit space.
pub proof fn lemma_setbits_complete(s: Seq<u16>)
    requires
        strictly_increasing(s),
        forall|v: u16| s.contains(v),
    ensures
        s.len() == 65536,
        forall|t: int| 0 <= t < s.len() ==> s[t] == t as u16,
{
    assert forall|t: int| 0 <= t < 65536 implies t < s.len() && s[t] == t as u16 by {
        lemma_prefix_identity(s, t);
    }
    lemma_prefix_identity(s, 65535);
    if s.len() > 65536 {
        assert(s[65535] < s[65536]);
        assert(false);
    }
}

/// In a strictly increasing sequence of 16-bit values that contains
/// every value, position `t` holds exactly the value `t`.
proof fn lemma_prefix_identity(s: Seq<u16>, t: int)
    requires
        strictly_increasing(s),
        forall|v: u16| s.contains(v),
        0 <= t < 65536,
    ensures
        t < s.len(),
        s[t] == t as u16,
    decreases t,
{
    let vt: u16 = t as u16;
    assert(s.contains(vt));
    let j = choose|j: int| 0 <= j < s.len() && s[j] == vt;
    if t == 0 {
        if j > 0 {
            assert(s[0] < s[j]);
            assert(false);
        }
    } else {
        lemma_prefix_identity(s, t - 1);
        if j < t - 1 {
            assert(s[j] < s[t - 1]);
            assert(false);
        }
        if j == t - 1 {
            assert(false);
        }
        assert(s[t - 1] < s[t]);
        if t < j {
            assert(s[t] < s[j]);
        }
    }
}

/// A cleared byte has no bit set, whatever the value asked for.
proof fn lemma_zero_byte_has_no_bit(v: u16)
    by (bit_vector)
    ensures
        0u8 & mask_for(v) == 0,
{
}

/// Setting the bit for `i` in a byte leaves the bit for `j` set exactly
/// when it already was, or when `i` and `j` pick the same bit.
proof fn lemma_or_sets_one_bit(b: u8, i: u16, j: u16)
    by (bit_vector)
    ensures
        ((b | mask_for(i)) & mask_for(j) != 0) <==> ((b & mask_for(j) != 0) || i % 8 == j % 8),
{
}

/// Two values that share a byte and a bit position are the same value.
proof fn lemma_same_byte_same_bit(i: u16, j: u16)
    by (bit_vector)
    ensures
        (i / 8 == j / 8 && i % 8 == j % 8) ==> i == j,
{
}

} // verus!
