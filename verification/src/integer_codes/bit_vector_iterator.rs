//! A buffered cursor that reads a bit vector front to back.
//!
//! The cursor keeps up to 64 bits of lookahead in a word, so that a run of short reads
//! loads each storage word once. Reading past the end of the vector yields zero bits.

use crate::bits::{bit_at, bits_of, bits_value, fits_in, window, zero_run};
use crate::bits::{lemma_bit_ops, lemma_bit_shr, lemma_fits_bit, lemma_fits_ops, lemma_low_byte};
use crate::bits::{lemma_low_mask, lemma_zero_fits};
use crate::bits::{lemma_shr_fits, lemma_value_of_bits, lemma_zero_run, lemma_zero_run_skip};
use crate::bits::{low_mask, mask_of};
use crate::introduction::bit_vector::BitVector;
use crate::introduction::util::lsb;
use vstd::prelude::*;

verus! {

/// A sequential reader over a `BitVector`.
pub struct BitVectorIterator<'a> {
    bv: &'a BitVector,
    pos: usize,
    buf: u64,
    avail: usize,
}

impl<'a> BitVectorIterator<'a> {
    /// The bits of the vector that the cursor reads.
    pub closed spec fn bits(&self) -> Seq<bool> {
        self.bv@
    }

    /// The position of the next bit to be read.
    pub closed spec fn spec_position(&self) -> usize {
        self.pos
    }

    /// The buffer invariant: the lowest `avail` bits of the buffer are the bits of the
    /// vector from the current position on, and the buffer holds nothing else.
    pub closed spec fn wf(&self) -> bool {
        &&& self.bv.wf()
        &&& self.avail <= 64
        &&& fits_in(self.buf, self.avail as nat)
        &&& bits_of(self.buf, self.avail as nat) == window(
            self.bv@,
            self.pos as nat,
            self.avail as nat,
        )
    }

    /// The vector that the cursor reads has a length that a `usize` can hold.
    pub proof fn lemma_bits_bounded(&self)
        ensures
            self.bits().len() <= usize::MAX,
    {
        self.bv.lemma_len_bounded();
    }

    /// A cursor over `bv` that starts at bit `pos`.
    pub fn new(bv: &'a BitVector, pos: usize) -> (it: Self)
        requires
            bv.wf(),
        ensures
            it.wf(),
            it.bits() == bv@,
            it.position() == pos,
    {
        let it = Self { bv, pos, buf: 0, avail: 0 };
        proof {
            lemma_zero_fits(0);
            assert(bits_of(0, 0) =~= window(bv@, pos as nat, 0));
        }
        it
    }

    /// The position of the next bit to be read.
    #[verifier::when_used_as_spec(spec_position)]
    pub fn position(&self) -> (pos: usize)
        ensures
            pos == self.position(),
    {
        self.pos
    }

    /// The vector that the cursor reads.
    pub fn source(&self) -> (bv: &'a BitVector)
        requires
            self.wf(),
        ensures
            bv.wf(),
            bv@ == self.bits(),
    {
        self.bv
    }

    /// Moves the cursor to bit `pos` and drops whatever was buffered.
    pub fn at(&mut self, pos: usize)
        requires
            old(self).wf(),
        ensures
            final(self).wf(),
            final(self).bits() == old(self).bits(),
            final(self).position() == pos,
    {
        self.pos = pos;
        self.buf = 0;
        self.avail = 0;
        proof {
            lemma_zero_fits(0);
            assert(bits_of(0, 0) =~= window(self.bv@, pos as nat, 0));
        }
    }

    /// Loads the 64 bits from the current position on into the buffer.
    fn fill_buf(&mut self)
        requires
            old(self).bv.wf(),
            old(self).pos <= old(self).bv@.len(),
        ensures
            final(self).wf(),
            final(self).bv == old(self).bv,
            final(self).pos == old(self).pos,
            final(self).avail == 64,
    {
        self.buf = self.bv.get_word64(self.pos);
        self.avail = 64;
    }
}

impl<'a> BitVectorIterator<'a> {
    /// Reads the next `l` bits as a number, least significant bit first, and moves
    /// past them.
    pub fn take(&mut self, l: usize) -> (val: u64)
        requires
            old(self).wf(),
            l <= 64,
            old(self).position() <= old(self).bits().len(),
            old(self).position() + l <= usize::MAX,
        ensures
            final(self).wf(),
            final(self).bits() == old(self).bits(),
            final(self).position() == old(self).position() + l,
            val == bits_value(window(old(self).bits(), old(self).position() as nat, l as nat)),
            fits_in(val, l as nat),
    {
        if self.avail < l {
            self.fill_buf();
        }
        let ghost bits = self.bv@;
        let ghost pos = self.pos as nat;
        let ghost avail = self.avail as nat;
        let buf: u64 = self.buf;
        let mut val: u64 = buf;
        if l != 64 {
            val = buf & mask_of(l);
            self.buf = buf >> l;
        } else {
            self.buf = 0;
        }
        self.avail -= l;
        self.pos += l;
        proof {
            assert forall|j: int| 0 <= j < l implies bits_of(val, l as nat)[j] == window(
                bits,
                pos,
                l as nat,
            )[j] by {
                assert(bits_of(buf, avail)[j] == window(bits, pos, avail)[j]);
                if l != 64 {
                    lemma_bit_ops(buf, low_mask(l as nat), j as u64);
                    lemma_low_mask(l as nat, j as u64);
                }
            }
            assert(bits_of(val, l as nat) =~= window(bits, pos, l as nat));
            if l != 64 {
                lemma_fits_ops(buf, 0, l as u64, 0);
                lemma_shr_fits(buf, avail, l as nat);
            } else {
                lemma_zero_fits(0);
            }
            lemma_value_of_bits(val, l as nat);
            let rest = (avail - l) as nat;
            assert forall|j: int| 0 <= j < rest implies bits_of(self.buf, rest)[j] == window(
                bits,
                pos + l as nat,
                rest,
            )[j] by {
                assert(bits_of(buf, avail)[j + l] == window(bits, pos, avail)[j + l]);
                lemma_bit_shr(buf, l as u64, j as u64);
            }
            assert(bits_of(self.buf, rest) =~= window(bits, pos + l as nat, rest));
        }
        val
    }

    /// Reads the next 8 bits as a number and moves past them. The cursor must stand on
    /// a byte boundary. The buffer is reloaded only when it holds less than a byte.
    pub fn take_one_byte(&mut self) -> (val: u64)
        requires
            old(self).wf(),
            old(self).position() % 8 == 0,
            old(self).position() <= old(self).bits().len(),
            old(self).position() + 8 <= usize::MAX,
        ensures
            final(self).wf(),
            final(self).bits() == old(self).bits(),
            final(self).position() == old(self).position() + 8,
            val == bits_value(window(old(self).bits(), old(self).position() as nat, 8)),
            val < 256,
    {
        if self.avail < 8 {
            self.fill_buf();
        }
        let ghost bits = self.bv@;
        let ghost pos = self.pos as nat;
        let ghost avail = self.avail as nat;
        let buf: u64 = self.buf;
        let val: u64 = buf & 255;
        self.buf = buf >> 8;
        self.avail -= 8;
        self.pos += 8;
        proof {
            lemma_low_byte(buf);
            assert forall|j: int| 0 <= j < 8 implies bits_of(val, 8)[j] == window(bits, pos, 8)[j] by {
                assert(bits_of(buf, avail)[j] == window(bits, pos, avail)[j]);
                lemma_bit_ops(buf, low_mask(8), j as u64);
                lemma_low_mask(8, j as u64);
            }
            assert(bits_of(val, 8) =~= window(bits, pos, 8));
            lemma_shr_fits(buf, avail, 8);
            lemma_value_of_bits(val, 8);
            let rest = (avail - 8) as nat;
            assert forall|j: int| 0 <= j < rest implies bits_of(self.buf, rest)[j] == window(
                bits,
                pos + 8,
                rest,
            )[j] by {
                assert(bits_of(buf, avail)[j + 8] == window(bits, pos, avail)[j + 8]);
                lemma_bit_shr(buf, 8, j as u64);
            }
            assert(bits_of(self.buf, rest) =~= window(bits, pos + 8, rest));
        }
        val
    }

    /// Skips the zero bits from the current position up to the next set bit, skips that
    /// bit too, and returns the number of zero bits skipped.
    pub fn skip_zeros(&mut self) -> (zeros: usize)
        requires
            old(self).wf(),
            old(self).position() + zero_run(old(self).bits(), old(self).position() as nat) < old(
                self,
            ).bits().len(),
        ensures
            final(self).wf(),
            final(self).bits() == old(self).bits(),
            zeros == zero_run(old(self).bits(), old(self).position() as nat),
            final(self).position() == old(self).position() + zeros + 1,
    {
        let ghost bits = self.bv@;
        let ghost start = self.pos as nat;
        let ghost run = zero_run(bits, start);
        proof {
            self.bv.lemma_len_bounded();
        }
        let mut zeros: usize = 0;
        while self.buf == 0
            invariant
                self.wf(),
                self.bv@ == bits,
                self.pos == start + zeros,
                run == zeros + zero_run(bits, self.pos as nat),
                start + run < bits.len() <= usize::MAX,
            decreases start + run - self.pos, (if self.avail == 0 { 1int } else { 0int }),
        {
            proof {
                let pos = self.pos as nat;
                let avail = self.avail as nat;
                lemma_zero_run(bits, pos);
                assert forall|i: int| pos <= i < pos + avail && i < bits.len() implies !bits[i] by {
                    let j = i - pos;
                    assert(bits_of(self.buf, avail)[j] == window(bits, pos, avail)[j]);
                    lemma_bit_ops(0, 0, j as u64);
                }
                if zero_run(bits, pos) < avail {
                    assert(bits[(pos + zero_run(bits, pos)) as int]);
                    assert(false);
                }
                lemma_zero_run_skip(bits, pos, avail);
            }
            self.pos += self.avail;
            zeros += self.avail;
            self.fill_buf();
        }
        let buf: u64 = self.buf;
        let l: usize = lsb(buf);
        let ghost pos = self.pos as nat;
        let ghost avail = self.avail as nat;
        proof {
            if l >= avail {
                lemma_fits_bit(buf, avail, l as u64);
            }
            assert(bits_of(buf, avail)[l as int] == window(bits, pos, avail)[l as int]);
            assert forall|i: int| pos <= i < pos + l implies !bits[i] by {
                let j = i - pos;
                assert(bits_of(buf, avail)[j] == window(bits, pos, avail)[j]);
                assert(!bit_at(buf, j as u64));
            }
            lemma_zero_run_skip(bits, pos, l as nat);
            assert(zero_run(bits, pos + l as nat) == 0);
        }
        self.buf = (buf >> l) >> 1;
        self.avail -= l + 1;
        self.pos += l + 1;
        proof {
            lemma_shr_fits(buf, avail, l as nat);
            lemma_shr_fits(buf >> l, (avail - l) as nat, 1);
            let rest = (avail - l - 1) as nat;
            assert forall|j: int| 0 <= j < rest implies bits_of(self.buf, rest)[j] == window(
                bits,
                pos + l as nat + 1,
                rest,
            )[j] by {
                assert(bits_of(buf, avail)[j + l + 1] == window(bits, pos, avail)[j + l + 1]);
                lemma_bit_shr(buf >> l, 1, j as u64);
                lemma_bit_shr(buf, l as u64, (j + 1) as u64);
            }
            assert(bits_of(self.buf, rest) =~= window(bits, pos + l as nat + 1, rest));
        }
        zeros + l
    }
}

} // verus!
