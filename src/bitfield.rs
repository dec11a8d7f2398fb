use vstd::prelude::*;

verus! {

/// Number of `true` entries in a boolean sequence.
pub open spec fn count_set(s: Seq<bool>) -> nat
    decreases s.len(),
{
    if s.len() == 0 {
        0
    } else {
        count_set(s.drop_last()) + if s.last() {
            1nat
        } else {
            0nat
        }
    }
}

/// The number of set entries never exceeds the length.
pub proof fn lemma_count_set_bounded(s: Seq<bool>)
    ensures
        count_set(s) <= s.len(),
    decreases s.len(),
{
    if s.len() > 0 {
        lemma_count_set_bounded(s.drop_last());
    }
}

/// An all-false sequence has no set entry.
pub proof fn lemma_count_set_none(s: Seq<bool>)
    requires
        forall|i: int| 0 <= i < s.len() ==> !s[i],
    ensures
        count_set(s) == 0,
    decreases s.len(),
{
    if s.len() > 0 {
        lemma_count_set_none(s.drop_last());
    }
}

/// Overwriting one entry changes the count by the difference of the two values.
pub proof fn lemma_count_set_update(s: Seq<bool>, i: int, b: bool)
    requires
        0 <= i < s.len(),
    ensures
        count_set(s.update(i, b)) + (if s[i] {
            1int
        } else {
            0int
        }) == count_set(s) + (if b {
            1int
        } else {
            0int
        }),
    decreases s.len(),
{
    let t = s.update(i, b);
    if i == s.len() - 1 {
        assert(t.drop_last() =~= s.drop_last());
    } else {
        assert(t.drop_last() =~= s.drop_last().update(i, b));
        lemma_count_set_update(s.drop_last(), i, b);
    }
}

/// Whether bit `k` (0 = least significant) of byte `b` is set.
pub open spec fn bit_of(b: u8, k: int) -> bool {
    (b >> (k as u8)) & 1u8 == 1u8
}

proof fn lemma_bit_set(b: u8, j: u8, k: u8)
    requires
        j < 8,
        k < 8,
    ensures
        ((b | (1u8 << j)) >> k) & 1u8 == if k == j {
            1u8
        } else {
            (b >> k) & 1u8
        },
{
    assert(((b | (1u8 << j)) >> k) & 1u8 == if k == j {
        1u8
    } else {
        (b >> k) & 1u8
    }) by (bit_vector)
        requires
            j < 8,
            k < 8,
    ;
}

proof fn lemma_bit_clear(b: u8, j: u8, k: u8)
    requires
        j < 8,
        k < 8,
    ensures
        ((b & !(1u8 << j)) >> k) & 1u8 == if k == j {
            0u8
        } else {
            (b >> k) & 1u8
        },
{
    assert(((b & !(1u8 << j)) >> k) & 1u8 == if k == j {
        0u8
    } else {
        (b >> k) & 1u8
    }) by (bit_vector)
        requires
            j < 8,
            k < 8,
    ;
}

proof fn lemma_zero_byte(k: u8)
    requires
        k < 8,
    ensures
        (0u8 >> k) & 1u8 == 0u8,
{
    assert((0u8 >> k) & 1u8 == 0u8) by (bit_vector);
}

/// A fixed-length vector of bits packed eight to a byte, used both for the
/// blocks a picker has scheduled and for the pieces a remote peer
/// advertises.
pub struct PieceField {
    bytes: Vec<u8>,
    len: u32,
}

impl View for PieceField {
    type V = Seq<bool>;

    closed spec fn view(&self) -> Seq<bool> {
        Seq::new(self.len as nat, |i: int| bit_of(self.bytes@[i / 8], i % 8))
    }
}

impl PieceField {
    #[verifier::type_invariant]
    spec fn sized(&self) -> bool {
        self.bytes@.len() == (self.len as int + 7) / 8
    }

    /// A field of `n` bits, all clear.
    pub fn new(n: u32) -> (r: PieceField)
        ensures
            r@.len() == n,
            forall|i: int| 0 <= i < n ==> !r@[i],
    {
        let nbytes: u32 = n / 8 + if n % 8 != 0 {
            1
        } else {
            0
        };
        let mut bytes: Vec<u8> = Vec::new();
        let mut k: u32 = 0;
        while k < nbytes
            invariant
                k <= nbytes,
                bytes@.len() == k,
                forall|i: int| 0 <= i < k ==> bytes@[i] == 0,
            decreases nbytes - k,
        {
            bytes.push(0);
            k = k + 1;
        }
        let r = PieceField { bytes, len: n };
        proof {
            assert forall|i: int| 0 <= i < n implies !r@[i] by {
                lemma_zero_byte((i % 8) as u8);
            }
        }
        r
    }

    /// Number of bits.
    pub fn len(&self) -> (r: u32)
        ensures
            r == self@.len(),
    {
        self.len
    }

    /// Whether bit `i` is set.
    pub fn has_piece(&self, i: u32) -> (r: bool)
        requires
            i < self@.len(),
        ensures
            r == self@[i as int],
    {
        proof {
            use_type_invariant(self);
        }
        (self.bytes[(i / 8) as usize] >> ((i % 8) as u8)) & 1 == 1
    }

    /// Sets bit `i`; setting a bit that is already set changes nothing.
    pub fn set_piece(&mut self, i: u32)
        requires
            i < old(self)@.len(),
        ensures
            final(self)@ == old(self)@.update(i as int, true),
    {
        proof {
            use_type_invariant(&*self);
        }
        let idx = (i / 8) as usize;
        let j = (i % 8) as u8;
        let b = self.bytes[idx];
        let mut taken = PieceField { bytes: Vec::new(), len: 0 };
        std::mem::swap(self, &mut taken);
        let PieceField { mut bytes, len } = taken;
        bytes.set(idx, b | (1u8 << j));
        *self = PieceField { bytes, len };
        proof {
            assert forall|k: int| 0 <= k < self.len implies self@[k] == old(self)@.update(
                i as int,
                true,
            )[k] by {
                if k / 8 == idx {
                    lemma_bit_set(b, j, (k % 8) as u8);
                }
            }
            assert(self@ =~= old(self)@.update(i as int, true));
        }
    }

    /// Clears bit `i`.
    pub fn unset_piece(&mut self, i: u32)
        requires
            i < old(self)@.len(),
        ensures
            final(self)@ == old(self)@.update(i as int, false),
    {
        proof {
            use_type_invariant(&*self);
        }
        let idx = (i / 8) as usize;
        let j = (i % 8) as u8;
        let b = self.bytes[idx];
        let mut taken = PieceField { bytes: Vec::new(), len: 0 };
        std::mem::swap(self, &mut taken);
        let PieceField { mut bytes, len } = taken;
        bytes.set(idx, b & !(1u8 << j));
        *self = PieceField { bytes, len };
        proof {
            assert forall|k: int| 0 <= k < self.len implies self@[k] == old(self)@.update(
                i as int,
                false,
            )[k] by {
                if k / 8 == idx {
                    lemma_bit_clear(b, j, (k % 8) as u8);
                }
            }
            assert(self@ =~= old(self)@.update(i as int, false));
        }
    }

    /// Whether every bit is set.
    pub fn complete(&self) -> (r: bool)
        ensures
            r == (forall|i: int| 0 <= i < self@.len() ==> self@[i]),
    {
        let mut k: u32 = 0;
        while k < self.len
            invariant
                k <= self@.len(),
                self@.len() == self.len,
                forall|i: int| 0 <= i < k ==> self@[i],
            decreases self.len - k,
        {
            if !self.has_piece(k) {
                return false;
            }
            k = k + 1;
        }
        true
    }

    /// Whether `other` has a bit set that is clear here.
    pub fn usable(&self, other: &PieceField) -> (r: bool)
        requires
            self@.len() == other@.len(),
        ensures
            r == (exists|i: int| 0 <= i < self@.len() && other@[i] && !self@[i]),
    {
        let mut k: u32 = 0;
        while k < self.len
            invariant
                k <= self@.len(),
                self@.len() == self.len,
                self@.len() == other@.len(),
                forall|i: int| 0 <= i < k ==> !(other@[i] && !self@[i]),
            decreases self.len - k,
        {
            if other.has_piece(k) && !self.has_piece(k) {
                assert(other@[k as int] && !self@[k as int]);
                return true;
            }
            k = k + 1;
        }
        false
    }

    /// The set bits at or after `start`, in ascending order.
    pub fn iter_from(&self, start: u32) -> (r: Vec<u32>)
        ensures
            forall|k: int| 0 <= k < r@.len() ==> start <= r@[k] < self@.len() && self@[r@[k] as int],
            forall|k: int, l: int| 0 <= k < l < r@.len() ==> r@[k] < r@[l],
            forall|i: int| start <= i < self@.len() && self@[i] ==> r@.contains(i as u32),
    {
        let mut out: Vec<u32> = Vec::new();
        let n = self.len;
        let mut k: u32 = if start < n {
            start
        } else {
            n
        };
        while k < n
            invariant
                n == self@.len(),
                k <= n,
                start <= k || k == n,
                forall|j: int|
                    0 <= j < out@.len() ==> start <= #[trigger] out@[j] < k && self@[out@[j] as int],
                forall|j: int, l: int| 0 <= j < l < out@.len() ==> out@[j] < out@[l],
                forall|i: int| start <= i < k && #[trigger] self@[i] ==> out@.contains(i as u32),
            decreases n - k,
        {
            if self.has_piece(k) {
                let ghost prev = out@;
                out.push(k);
                assert(out@ == prev.push(k));
                assert(out@[out@.len() - 1] == k);
                assert forall|i: int| start <= i < k + 1 && #[trigger] self@[i] implies out@.contains(i as u32) by {
                    if i < k {
                        let w = choose|w: int| 0 <= w < prev.len() && prev[w] == i as u32;
                        assert(out@[w] == i as u32);
                    } else {
                        assert(out@[out@.len() - 1] == i as u32);
                    }
                }
            }
            k = k + 1;
        }
        out
    }
}

} // verus!
