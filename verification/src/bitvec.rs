//! A fixed-length vector of bits, packed eight to a byte, the first bit of
//! the vector in the highest bit of the first byte. It backs the stopping
//! pattern reports: one bit per position of the canonical stop order.

use vstd::prelude::*;

use crate::types::{bytes_cmp, lemma_lex_total, lemma_lex_trans, lex_lt};

verus! {

/// Whether bit `i` of the packed bytes is set.
pub open spec fn bit_at(bytes: Seq<u8>, i: int) -> bool {
    (bytes[i / 8] >> ((7 - (i % 8)) as u8)) & 1 == 1
}

/// A fixed-length bit vector; its view is the sequence of its bits.
#[derive(Clone, Debug, PartialEq, Eq, PartialOrd, Ord)]
pub struct BitVec {
    bytes: Vec<u8>,
    len: usize,
}

impl View for BitVec {
    type V = Seq<bool>;

    closed spec fn view(&self) -> Seq<bool> {
        Seq::new(self.len as nat, |i: int| bit_at(self.bytes@, i))
    }
}

/// The total order on stopping patterns, the order their tallies are listed
/// in: packed bytes lexicographically, then bit count.
pub open spec fn pattern_lt(a: BitVec, b: BitVec) -> bool {
    ||| lex_lt(a.spec_bytes(), b.spec_bytes())
    ||| (a.spec_bytes() == b.spec_bytes() && a@.len() < b@.len())
}

/// Two patterns with the same bytes and length.
pub open spec fn pattern_eq(a: BitVec, b: BitVec) -> bool {
    a.spec_bytes() == b.spec_bytes() && a@.len() == b@.len()
}

/// `pattern_lt` is a strict total order on patterns.
pub proof fn lemma_pattern_total(a: BitVec, b: BitVec)
    ensures
        pattern_lt(a, b) ==> !pattern_lt(b, a),
        pattern_lt(a, b) ==> !pattern_eq(a, b),
        !pattern_lt(a, b) && !pattern_lt(b, a) ==> pattern_eq(a, b),
{
    lemma_lex_total(a.spec_bytes(), b.spec_bytes());
}

/// `pattern_lt` is transitive.
pub proof fn lemma_pattern_trans(a: BitVec, b: BitVec, c: BitVec)
    requires
        pattern_lt(a, b),
        pattern_lt(b, c),
    ensures
        pattern_lt(a, c),
{
    if lex_lt(a.spec_bytes(), b.spec_bytes()) && lex_lt(b.spec_bytes(), c.spec_bytes()) {
        lemma_lex_trans(a.spec_bytes(), b.spec_bytes(), c.spec_bytes());
    }
}

proof fn lemma_bit_index(i: int, j: int)
    requires
        0 <= i,
        0 <= j,
        i / 8 == j / 8,
        i % 8 == j % 8,
    ensures
        i == j,
{
    vstd::arithmetic::div_mod::lemma_fundamental_div_mod(i, 8);
    vstd::arithmetic::div_mod::lemma_fundamental_div_mod(j, 8);
}

impl BitVec {
    /// The packed bytes, for comparisons.
    pub closed spec fn spec_bytes(self) -> Seq<u8> {
        self.bytes@
    }

    /// Well-formedness: exactly enough bytes for the length, and every bit
    /// past the length clear, so equal bit vectors have equal bytes.
    pub closed spec fn wf(self) -> bool {
        &&& self.bytes@.len() == (self.len + 7) / 8
        &&& forall|i: int| self.len <= i < self.bytes@.len() * 8 ==> !bit_at(self.bytes@, i)
    }

    /// A bit vector of `len` bits, all clear.
    pub fn with_size(len: usize) -> (r: BitVec)
        requires
            len <= usize::MAX - 7,
        ensures
            r.wf(),
            r@.len() == len,
            forall|i: int| 0 <= i < len ==> !r@[i],
    {
        let num_bytes = (len + 7) / 8;
        let mut bytes: Vec<u8> = Vec::new();
        while bytes.len() < num_bytes
            invariant
                bytes@.len() <= num_bytes,
                forall|k: int| 0 <= k < bytes@.len() ==> bytes@[k] == 0u8,
            decreases num_bytes - bytes@.len(),
        {
            bytes.push(0);
        }
        let r = BitVec { bytes, len };
        proof {
            assert forall|i: int| 0 <= i < r.bytes@.len() * 8 implies !bit_at(r.bytes@, i) by {
                vstd::arithmetic::div_mod::lemma_fundamental_div_mod(i, 8);
                let sh = (7 - (i % 8)) as u8;
                assert((0u8 >> sh) & 1 == 0) by (bit_vector);
            }
        }
        r
    }

    /// The number of bits.
    pub fn len(&self) -> (n: usize)
        ensures
            n == self@.len(),
    {
        self.len
    }

    /// Sets bit `idx`; all other bits keep their values.
    pub fn set(&mut self, idx: usize)
        requires
            old(self).wf(),
            idx < old(self)@.len(),
        ensures
            final(self).wf(),
            final(self)@ == old(self)@.update(idx as int, true),
    {
        let byte = idx / 8;
        let rem = (7 - (idx % 8)) as u8;
        proof {
            vstd::arithmetic::div_mod::lemma_fundamental_div_mod(idx as int, 8);
            assert(byte < self.bytes@.len());
        }
        let b = self.bytes[byte];
        self.bytes.set(byte, b | (1u8 << rem));
        proof {
            let ob = old(self).bytes@;
            let nb = self.bytes@;
            assert forall|i: int| 0 <= i < nb.len() * 8 && i != idx implies bit_at(nb, i) == bit_at(
                ob,
                i,
            ) by {
                vstd::arithmetic::div_mod::lemma_fundamental_div_mod(i, 8);
                if i / 8 == byte {
                    let sh = (7 - (i % 8)) as u8;
                    assert(sh != rem) by {
                        if sh == rem {
                            lemma_bit_index(i, idx as int);
                        }
                    }
                    assert(forall|x: u8, r: u8, s: u8|
                        r < 8 && s < 8 && r != s ==> ((x | (1u8 << r)) >> s) & 1 == (x >> s)
                            & 1) by (bit_vector);
                    assert(rem < 8 && sh < 8);
                }
            }
            assert(bit_at(nb, idx as int)) by {
                assert(forall|x: u8, r: u8| r < 8 ==> ((x | (1u8 << r)) >> r) & 1 == 1)
                    by (bit_vector);
                assert(rem < 8);
            }
            assert(final(self)@ =~= old(self)@.update(idx as int, true));
        }
    }

    /// The bits as booleans, in order.
    pub fn to_vec(&self) -> (r: Vec<bool>)
        requires
            self.wf(),
        ensures
            r@ == self@,
    {
        let n = self.len;
        let mut r: Vec<bool> = Vec::new();
        while r.len() < n
            invariant
                self.wf(),
                n == self@.len(),
                r@.len() <= n,
                forall|k: int| 0 <= k < r@.len() ==> r@[k] == self@[k],
            decreases n - r@.len(),
        {
            let i = r.len();
            let byte = i / 8;
            let rem = (7 - (i % 8)) as u8;
            proof {
                vstd::arithmetic::div_mod::lemma_fundamental_div_mod(i as int, 8);
                assert(byte < self.bytes@.len());
            }
            r.push((self.bytes[byte] >> rem) & 1 == 1);
        }
        proof {
            assert(r@ =~= self@);
        }
        r
    }

    /// Three-way comparison in the order of [`pattern_lt`].
    pub fn cmp_pattern(&self, other: &BitVec) -> (r: i8)
        ensures
            (r < 0) == pattern_lt(*self, *other),
            (r == 0) == pattern_eq(*self, *other),
            (r > 0) == pattern_lt(*other, *self),
    {
        proof {
            lemma_lex_total(self.spec_bytes(), other.spec_bytes());
        }
        let c = bytes_cmp(self.bytes.as_slice(), other.bytes.as_slice());
        if c != 0 {
            c
        } else if self.len < other.len {
            -1
        } else if other.len < self.len {
            1
        } else {
            0
        }
    }

    /// Whether the two bit vectors hold the same bits.
    pub fn same_bits(&self, other: &BitVec) -> (b: bool)
        ensures
            b == (self.spec_bytes() == other.spec_bytes() && self@.len() == other@.len()),
            b ==> self@ == other@,
    {
        if self.len != other.len || self.bytes.len() != other.bytes.len() {
            return false;
        }
        let m = self.bytes.len();
        let mut i: usize = 0;
        while i < m
            invariant
                0 <= i <= m == self.bytes@.len(),
                m == other.bytes@.len(),
                self@.len() == other@.len(),
                self.len == other.len,
                forall|k: int| 0 <= k < i ==> self.bytes@[k] == other.bytes@[k],
            decreases m - i,
        {
            if self.bytes[i] != other.bytes[i] {
                proof {
                    assert(self.spec_bytes() != other.spec_bytes());
                }
                return false;
            }
            i += 1;
        }
        proof {
            assert(self.spec_bytes() =~= other.spec_bytes());
            assert(self@ =~= other@);
        }
        true
    }
}

} // verus!
