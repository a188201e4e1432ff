//! A dense sequence of bits packed into 64-bit words, and the builder that grows one.
//!
//! Bit `i` of the sequence lives in word `i / 64` at offset `i % 64`, least significant
//! bit first. Both types are viewed as a `Seq<bool>`.

use crate::bits::{bit_at, bits_of, bits_value, fits_in, low_mask, mask_of, window, zero_run};
use crate::bits::{lemma_bit_ops, lemma_bit_shl, lemma_bit_shr, lemma_fits_bit, lemma_fits_ops};
use crate::bits::{lemma_low_byte, lemma_low_mask, lemma_value_of_bits, lemma_window_inside};
use crate::bits::{lemma_zero_fits, lemma_zero_run_skip};
use crate::introduction::util::{lsb, num_64bit_words_for, words_for};
use vstd::prelude::*;

verus! {

/// Bit `i` of the bit sequence that the words `words` store.
pub open spec fn stored_bit(words: Seq<u64>, i: int) -> bool {
    bit_at(words[i / 64], (i % 64) as u64)
}

/// The first `num_bits` bits that `words` store.
pub open spec fn stored_bits(words: Seq<u64>, num_bits: nat) -> Seq<bool> {
    Seq::new(num_bits, |i: int| stored_bit(words, i))
}

/// `words` holds exactly as many words as `num_bits` bits need, and every bit of the
/// last word that lies beyond `num_bits` is zero.
pub open spec fn packed(words: Seq<u64>, num_bits: nat) -> bool {
    &&& words.len() == words_for(num_bits)
    &&& forall|i: int| num_bits <= i < 64 * words.len() ==> !#[trigger] stored_bit(words, i)
}

/// An immutable, random-access sequence of bits.
pub struct BitVector {
    num_bits: usize,
    bits: Vec<u64>,
}

impl View for BitVector {
    type V = Seq<bool>;

    closed spec fn view(&self) -> Seq<bool> {
        stored_bits(self.bits@, self.num_bits as nat)
    }
}

impl BitVector {
    /// The storage invariant: the word count matches the bit count and the padding
    /// of the last word is zero.
    pub closed spec fn wf(&self) -> bool {
        packed(self.bits@, self.num_bits as nat)
    }

    /// The number of bits is one that a `usize` can hold.
    pub proof fn lemma_len_bounded(&self)
        ensures
            self@.len() <= usize::MAX,
    {
    }

    /// The empty bit vector.
    pub fn new() -> (bv: Self)
        ensures
            bv.wf(),
            bv@ == Seq::<bool>::empty(),
    {
        let bv = Self { num_bits: 0, bits: Vec::new() };
        assert(bv@ =~= Seq::<bool>::empty());
        bv
    }

    /// Number of bits stored.
    pub fn num_bits(&self) -> (n: usize)
        ensures
            n == self@.len(),
    {
        self.num_bits
    }

    /// Number of 64-bit words that back the bits.
    pub fn num_64bit_words(&self) -> (n: usize)
        requires
            self.wf(),
        ensures
            n == words_for(self@.len()),
    {
        self.bits.len()
    }

    /// The `len` bits that start at `pos`, as a number whose bit `j` is bit `pos + j`
    /// of the vector.
    pub fn get_bits(&self, pos: usize, len: usize) -> (r: u64)
        requires
            self.wf(),
            pos + len <= self@.len(),
            len <= 64,
        ensures
            r == bits_value(self@.subrange(pos as int, pos + len)),
            fits_in(r, len as nat),
    {
        proof {
            lemma_window_inside(self@, pos as nat, len as nat);
        }
        if len == 0 {
            assert(window(self@, pos as nat, 0).len() == 0);
            proof {
                lemma_zero_fits(0);
            }
            return 0;
        }
        let block: usize = pos / 64;
        let shift: usize = pos % 64;
        let mask: u64 = mask_of(len);
        if shift + len <= 64 {
            let w: u64 = self.bits[block];
            let r: u64 = (w >> shift) & mask;
            proof {
                assert forall|j: int| 0 <= j < len implies bits_of(r, len as nat)[j] == window(
                    self@,
                    pos as nat,
                    len as nat,
                )[j] by {
                    lemma_bit_ops(w >> shift, mask, j as u64);
                    lemma_bit_shr(w, shift as u64, j as u64);
                    lemma_low_mask(len as nat, j as u64);
                    assert((pos + j) / 64 == block as int);
                    assert((pos + j) % 64 == shift + j);
                }
                if len < 64 {
                    lemma_fits_ops(w >> shift, 0, len as u64, 0);
                }
                assert(bits_of(r, len as nat) =~= window(self@, pos as nat, len as nat));
                lemma_value_of_bits(r, len as nat);
            }
            r
        } else {
            let w0: u64 = self.bits[block];
            let w1: u64 = self.bits[block + 1];
            let up: usize = 64 - shift;
            let r: u64 = (w0 >> shift) | ((w1 << up) & mask);
            proof {
                assert forall|j: int| 0 <= j < len implies bits_of(r, len as nat)[j] == window(
                    self@,
                    pos as nat,
                    len as nat,
                )[j] by {
                    lemma_bit_ops(w0 >> shift, (w1 << up) & mask, j as u64);
                    lemma_bit_ops(w1 << up, mask, j as u64);
                    lemma_bit_shr(w0, shift as u64, j as u64);
                    lemma_bit_shl(w1, up as u64, j as u64);
                    lemma_low_mask(len as nat, j as u64);
                    if j < up {
                        assert((pos + j) / 64 == block as int);
                        assert((pos + j) % 64 == shift + j);
                    } else {
                        assert((pos + j) / 64 == block + 1);
                        assert((pos + j) % 64 == j - up);
                    }
                }
                if len < 64 {
                    lemma_fits_ops(w1 << up, 0, len as u64, 0);
                    lemma_fits_ops(w0, 0, len as u64, shift as u64);
                    lemma_fits_ops(w0 >> shift, (w1 << up) & mask, len as u64, 0);
                }
                assert(bits_of(r, len as nat) =~= window(self@, pos as nat, len as nat));
                lemma_value_of_bits(r, len as nat);
            }
            r
        }
    }
}

impl BitVector {
    /// The 64 bits that start at `pos`, as a number whose bit `j` is bit `pos + j` of the
    /// vector; positions beyond the end of the vector read as zero.
    pub fn get_word64(&self, pos: usize) -> (r: u64)
        requires
            self.wf(),
            pos <= self@.len(),
        ensures
            r == bits_value(window(self@, pos as nat, 64)),
            bits_of(r, 64) == window(self@, pos as nat, 64),
    {
        let block: usize = pos / 64;
        let shift: usize = pos % 64;
        if block >= self.bits.len() {
            proof {
                assert(bits_of(0, 64) =~= window(self@, pos as nat, 64)) by {
                    assert forall|j: int| 0 <= j < 64 implies !bits_of(0, 64)[j] by {
                        lemma_bit_ops(0, 0, j as u64);
                    }
                }
                lemma_value_of_bits(0, 64);
            }
            return 0;
        }
        let w0: u64 = self.bits[block];
        if shift > 0 && block + 1 < self.bits.len() {
            let w1: u64 = self.bits[block + 1];
            let up: usize = 64 - shift;
            let r: u64 = (w0 >> shift) | (w1 << up);
            proof {
                assert forall|j: int| 0 <= j < 64 implies bits_of(r, 64)[j] == window(
                    self@,
                    pos as nat,
                    64,
                )[j] by {
                    lemma_bit_ops(w0 >> shift, w1 << up, j as u64);
                    lemma_bit_shr(w0, shift as u64, j as u64);
                    lemma_bit_shl(w1, up as u64, j as u64);
                    if j < up {
                        assert((pos + j) / 64 == block as int);
                        assert((pos + j) % 64 == shift + j);
                    } else {
                        assert((pos + j) / 64 == block + 1);
                        assert((pos + j) % 64 == j - up);
                    }
                    assert(pos + j >= self@.len() ==> !stored_bit(self.bits@, pos + j));
                }
                assert(bits_of(r, 64) =~= window(self@, pos as nat, 64));
                lemma_value_of_bits(r, 64);
            }
            r
        } else {
            let r: u64 = w0 >> shift;
            proof {
                assert forall|j: int| 0 <= j < 64 implies bits_of(r, 64)[j] == window(
                    self@,
                    pos as nat,
                    64,
                )[j] by {
                    lemma_bit_shr(w0, shift as u64, j as u64);
                    if j + shift < 64 {
                        assert((pos + j) / 64 == block as int);
                        assert((pos + j) % 64 == shift + j);
                        assert(pos + j >= self@.len() ==> !stored_bit(self.bits@, pos + j));
                    }
                }
                assert(bits_of(r, 64) =~= window(self@, pos as nat, 64));
                lemma_value_of_bits(r, 64);
            }
            r
        }
    }
}

impl BitVector {
    /// The position of the first set bit at or behind `pos`, if there is one.
    pub fn next_one(&self, pos: usize) -> (found: Option<usize>)
        requires
            self.wf(),
        ensures
            match found {
                Some(p) => p < self@.len() && p == pos + zero_run(self@, pos as nat),
                None => pos + zero_run(self@, pos as nat) >= self@.len(),
            },
    {
        let ghost bits = self@;
        let mut p: usize = pos;
        while p < self.num_bits
            invariant
                self.wf(),
                bits == self@,
                bits.len() == self.num_bits,
                pos <= p,
                pos + zero_run(bits, pos as nat) == p + zero_run(bits, p as nat),
            decreases self.num_bits - p,
        {
            let w: u64 = self.get_word64(p);
            let l: usize = lsb(w);
            proof {
                assert forall|j: int| 0 <= j < l implies !#[trigger] window(bits, p as nat, 64)[j] by {
                    assert(bits_of(w, 64)[j] == window(bits, p as nat, 64)[j]);
                    assert(!bit_at(w, j as u64));
                }
            }
            if l < 64 {
                proof {
                    assert(bits_of(w, 64)[l as int] == window(bits, p as nat, 64)[l as int]);
                    assert forall|i: int| p <= i < p + l implies !bits[i] by {
                        assert(!window(bits, p as nat, 64)[i - p]);
                    }
                    lemma_zero_run_skip(bits, p as nat, l as nat);
                    assert(zero_run(bits, (p + l) as nat) == 0);
                }
                return Some(p + l);
            }
            if self.num_bits - p <= 64 {
                proof {
                    let rest = (self.num_bits - p) as nat;
                    assert forall|i: int| p <= i < p + rest implies !bits[i] by {
                        assert(!window(bits, p as nat, 64)[i - p]);
                    }
                    lemma_zero_run_skip(bits, p as nat, rest);
                }
                return None;
            }
            proof {
                assert forall|i: int| p <= i < p + 64 implies !bits[i] by {
                    assert(!window(bits, p as nat, 64)[i - p]);
                }
                lemma_zero_run_skip(bits, p as nat, 64);
            }
            p += 64;
        }
        None
    }
}

/// The bits that `bytes` hold: bit `i` is bit `i % 8` of byte `i / 8`, so that eight
/// bytes hold a 64-bit word, least significant byte first.
pub open spec fn bytes_bits(bytes: Seq<u8>) -> Seq<bool> {
    Seq::new(8 * bytes.len(), |i: int| bit_at(bytes[i / 8] as u64, (i % 8) as u64))
}

/// A byte fits in eight bits.
proof fn lemma_byte_fits(b: u8)
    by (bit_vector)
    ensures
        (b as u64) >> 8 == 0,
{
}

impl BitVector {
    /// The words of the vector as bytes, each word least significant byte first. The
    /// bytes hold the bits of the vector, filled up with zero bits to whole words.
    pub fn save(&self) -> (bytes: Vec<u8>)
        requires
            self.wf(),
        ensures
            bytes@.len() == 8 * words_for(self@.len()),
            bytes_bits(bytes@) == window(self@, 0, 64 * words_for(self@.len())),
    {
        let mut bytes: Vec<u8> = Vec::new();
        let mut i: usize = 0;
        while i < self.bits.len()
            invariant
                i <= self.bits.len(),
                bytes@.len() == 8 * i,
                forall|p: int| 0 <= p < 64 * i ==> #[trigger] bytes_bits(bytes@)[p] == stored_bit(
                    self.bits@,
                    p,
                ),
            decreases self.bits.len() - i,
        {
            let w: u64 = self.bits[i];
            let mut k: usize = 0;
            while k < 8
                invariant
                    k <= 8,
                    i < self.bits.len(),
                    w == self.bits@[i as int],
                    bytes@.len() == 8 * i + k,
                    forall|p: int| 0 <= p < 64 * i + 8 * k ==> #[trigger] bytes_bits(bytes@)[p]
                        == stored_bit(self.bits@, p),
                decreases 8 - k,
            {
                let ghost before = bytes@;
                proof {
                    lemma_low_byte(w >> (8 * k));
                }
                let byte: u8 = ((w >> (8 * k)) & 0xff) as u8;
                bytes.push(byte);
                proof {
                    assert forall|p: int| 0 <= p < 64 * i + 8 * (k + 1) implies #[trigger] bytes_bits(
                        bytes@,
                    )[p] == stored_bit(self.bits@, p) by {
                        if p < 64 * i + 8 * k {
                            assert(bytes_bits(before)[p] == stored_bit(self.bits@, p));
                            assert(bytes@[p / 8] == before[p / 8]);
                        } else {
                            let j = (p % 8) as u64;
                            assert(p / 8 == 8 * i + k && p / 64 == i && p % 64 == 8 * k + j);
                            lemma_bit_ops(w >> (8 * k), 0xff, j);
                            lemma_low_mask(8, j);
                            lemma_bit_shr(w, (8 * k) as u64, j);
                        }
                    }
                }
                k += 1;
            }
            i += 1;
        }
        proof {
            let n = 64 * words_for(self@.len());
            assert forall|p: int| 0 <= p < n implies bytes_bits(bytes@)[p] == window(self@, 0, n)[p] by {
                assert(bytes_bits(bytes@)[p] == stored_bit(self.bits@, p));
                if p >= self.num_bits {
                    assert(!stored_bit(self.bits@, p));
                }
            }
            assert(bytes_bits(bytes@) =~= window(self@, 0, n));
        }
        bytes
    }

    /// Replaces the bits of the vector by the bits that `bytes` hold, eight bytes to a
    /// word. Returns `false`, and changes nothing, if `bytes` are not whole words or
    /// hold more bits than a `usize` can count.
    pub fn load(&mut self, bytes: &Vec<u8>) -> (ok: bool)
        ensures
            ok == (bytes@.len() % 8 == 0 && 8 * bytes@.len() <= usize::MAX),
            ok ==> final(self).wf() && final(self)@ == bytes_bits(bytes@),
            !ok ==> *final(self) == *old(self),
    {
        let len: usize = bytes.len();
        if len % 8 != 0 || len > usize::MAX / 8 {
            return false;
        }
        let mut words: Vec<u64> = Vec::new();
        let mut i: usize = 0;
        while i < len
            invariant
                i <= len == bytes@.len(),
                i % 8 == 0,
                len % 8 == 0,
                words@.len() * 8 == i,
                forall|p: int| 0 <= p < 8 * i ==> #[trigger] stored_bit(words@, p) == bytes_bits(
                    bytes@,
                )[p],
            decreases len - i,
        {
            let mut w: u64 = 0;
            let mut k: usize = 0;
            proof {
                lemma_zero_fits(0);
            }
            while k < 8
                invariant
                    k <= 8,
                    i + 8 <= len == bytes@.len(),
                    k < 8 ==> w >> ((8 * k) as u64) == 0,
                    forall|j: int| 0 <= j < 8 * k ==> #[trigger] bits_of(w, 64)[j] == bytes_bits(
                        bytes@,
                    )[8 * i + j],
                decreases 8 - k,
            {
                let b: u8 = bytes[i + k];
                let old_w: u64 = w;
                w = old_w | ((b as u64) << (8 * k));
                proof {
                    let shift = (8 * k) as u64;
                    lemma_byte_fits(b);
                    assert forall|j: int| 0 <= j < 8 * (k + 1) implies #[trigger] bits_of(w, 64)[j]
                        == bytes_bits(bytes@)[8 * i + j] by {
                        lemma_bit_ops(old_w, (b as u64) << shift, j as u64);
                        lemma_bit_shl(b as u64, shift, j as u64);
                        if j < 8 * k {
                            assert(bits_of(old_w, 64)[j] == bytes_bits(bytes@)[8 * i + j]);
                        } else {
                            lemma_fits_bit(old_w, shift as nat, j as u64);
                            assert((8 * i + j) / 8 == i + k && (8 * i + j) % 8 == j - 8 * k);
                        }
                    }
                    if k + 1 < 8 {
                        let next = (8 * (k + 1)) as u64;
                        assert(w >> next == 0) by (bit_vector)
                            requires
                                w == old_w | ((b as u64) << shift),
                                old_w >> shift == 0,
                                next == shift + 8,
                                next < 64,
                        ;
                    }
                }
                k += 1;
            }
            let ghost before = words@;
            words.push(w);
            proof {
                assert forall|p: int| 0 <= p < 8 * (i + 8) implies #[trigger] stored_bit(words@, p)
                    == bytes_bits(bytes@)[p] by {
                    if p < 8 * i {
                        assert(stored_bit(before, p) == bytes_bits(bytes@)[p]);
                    } else {
                        assert(p / 64 == i / 8 && p % 64 == p - 8 * i);
                        assert(bits_of(w, 64)[p - 8 * i] == bytes_bits(bytes@)[8 * i + (p - 8 * i)]);
                    }
                }
            }
            i += 8;
        }
        self.num_bits = 8 * len;
        self.bits = words;
        assert(self@ =~= bytes_bits(bytes@));
        true
    }
}

/// An append-only, growable sequence of bits. Fields already written can be patched in
/// place, and `build` hands the bits over to a `BitVector`.
pub struct BitVectorBuilder {
    num_bits: usize,
    bits: Vec<u64>,
}

impl View for BitVectorBuilder {
    type V = Seq<bool>;

    closed spec fn view(&self) -> Seq<bool> {
        stored_bits(self.bits@, self.num_bits as nat)
    }
}

impl BitVectorBuilder {
    /// The storage invariant: the word count matches the bit count and the padding
    /// of the last word is zero.
    pub closed spec fn wf(&self) -> bool {
        packed(self.bits@, self.num_bits as nat)
    }

    /// An empty builder.
    pub fn new() -> (builder: Self)
        ensures
            builder.wf(),
            builder@ == Seq::<bool>::empty(),
    {
        let builder = Self { num_bits: 0, bits: Vec::new() };
        assert(builder@ =~= Seq::<bool>::empty());
        builder
    }

    /// Number of bits written so far.
    pub fn num_bits(&self) -> (n: usize)
        ensures
            n == self@.len(),
    {
        self.num_bits
    }

    /// Appends the lowest `len` bits of `x`.
    pub fn append_bits(&mut self, x: u64, len: usize)
        requires
            old(self).wf(),
            len <= 64,
            fits_in(x, len as nat),
            old(self)@.len() + len <= usize::MAX,
        ensures
            final(self).wf(),
            final(self)@ == old(self)@ + bits_of(x, len as nat),
    {
        if len == 0 {
            assert(self@ =~= self@ + bits_of(x, 0));
            return ;
        }
        let ghost words = self.bits@;
        let ghost n = self.num_bits as int;
        let ghost k = words.len() as int;
        let pos_in_word: usize = self.num_bits % 64;
        self.num_bits += len;
        if pos_in_word == 0 {
            self.bits.push(x);
            proof {
                assert forall|i: int| 0 <= i < n + len implies stored_bit(self.bits@, i) == (
                old(self)@ + bits_of(x, len as nat))[i] by {
                    if i >= n {
                        assert(i / 64 == k && i % 64 == i - n);
                    }
                }
                assert forall|i: int| n + len <= i < 64 * (k + 1) implies !stored_bit(
                    self.bits@,
                    i,
                ) by {
                    assert(i / 64 == k && i % 64 == i - n);
                    lemma_fits_bit(x, len as nat, (i - n) as u64);
                }
            }
        } else {
            let last: usize = self.bits.len() - 1;
            let cur: u64 = self.bits[last];
            let space: usize = 64 - pos_in_word;
            self.bits[last] = cur | (x << pos_in_word);
            if len > space {
                self.bits.push(x >> space);
            }
            proof {
                let p = pos_in_word as int;
                assert forall|i: int| 0 <= i < 64 * self.bits@.len() implies stored_bit(
                    self.bits@,
                    i,
                ) == (if i < n {
                    stored_bit(words, i)
                } else {
                    i < n + len && bit_at(x, (i - n) as u64)
                }) by {
                    if i / 64 == k - 1 {
                        let j = (i % 64) as u64;
                        lemma_bit_ops(cur, x << pos_in_word, j);
                        lemma_bit_shl(x, pos_in_word as u64, j);
                        if i >= n {
                            assert(j - p == i - n);
                            assert(!stored_bit(words, i));
                            if i >= n + len {
                                lemma_fits_bit(x, len as nat, (i - n) as u64);
                            }
                        }
                    } else if i / 64 == k {
                        let j = (i % 64) as u64;
                        lemma_bit_shr(x, space as u64, j);
                        assert(j + space == i - n);
                        if i >= n + len && j + space < 64 {
                            lemma_fits_bit(x, len as nat, (i - n) as u64);
                        }
                    }
                }
            }
        }
        assert(self@ =~= old(self)@ + bits_of(x, len as nat));
    }
}

impl BitVectorBuilder {
    /// Overwrites the `len` bits that start at `pos` with the lowest `len` bits of `x`.
    /// Every other bit keeps its value.
    pub fn set_bits(&mut self, pos: usize, x: u64, len: usize)
        requires
            old(self).wf(),
            pos + len <= old(self)@.len(),
            len <= 64,
            fits_in(x, len as nat),
        ensures
            final(self).wf(),
            final(self)@ == old(self)@.subrange(0, pos as int) + bits_of(x, len as nat) + old(
                self,
            )@.subrange(pos + len, old(self)@.len() as int),
    {
        if len == 0 {
            assert(self@ =~= self@.subrange(0, pos as int) + bits_of(x, 0) + self@.subrange(
                pos + len,
                self@.len() as int,
            ));
            return ;
        }
        let ghost words = self.bits@;
        let ghost n = self.num_bits as int;
        let mask: u64 = mask_of(len);
        let word: usize = pos / 64;
        let pos_in_word: usize = pos % 64;
        let w0: u64 = self.bits[word];
        self.bits[word] = (w0 & !(mask << pos_in_word)) | (x << pos_in_word);
        let stored: usize = 64 - pos_in_word;
        let ghost w1: u64 = 0;
        if stored < len {
            let next: u64 = self.bits[word + 1];
            proof {
                w1 = next;
            }
            self.bits[word + 1] = (next & !(mask >> stored)) | (x >> stored);
        }
        proof {
            assert forall|i: int| 0 <= i < 64 * words.len() implies stored_bit(self.bits@, i) == (
            if pos <= i < pos + len {
                bit_at(x, (i - pos) as u64)
            } else {
                stored_bit(words, i)
            }) by {
                let j = (i % 64) as u64;
                if i / 64 == word as int {
                    lemma_bit_ops(w0 & !(mask << pos_in_word), x << pos_in_word, j);
                    lemma_bit_ops(w0, !(mask << pos_in_word), j);
                    lemma_bit_ops(mask << pos_in_word, 0, j);
                    lemma_bit_shl(mask, pos_in_word as u64, j);
                    lemma_bit_shl(x, pos_in_word as u64, j);
                    if j >= pos_in_word {
                        lemma_low_mask(len as nat, (j - pos_in_word) as u64);
                        assert(j - pos_in_word == i - pos);
                        if i >= pos + len {
                            lemma_fits_bit(x, len as nat, (i - pos) as u64);
                        }
                    }
                } else if i / 64 == word + 1 && stored < len {
                    lemma_bit_ops(w1 & !(mask >> stored), x >> stored, j);
                    lemma_bit_ops(w1, !(mask >> stored), j);
                    lemma_bit_ops(mask >> stored, 0, j);
                    lemma_bit_shr(mask, stored as u64, j);
                    lemma_bit_shr(x, stored as u64, j);
                    assert(j + stored == i - pos);
                    if j + stored < 64 {
                        lemma_low_mask(len as nat, (j + stored) as u64);
                        if i >= pos + len {
                            lemma_fits_bit(x, len as nat, (i - pos) as u64);
                        }
                    }
                }
            }
            assert(self@ =~= old(self)@.subrange(0, pos as int) + bits_of(x, len as nat) + old(
                self,
            )@.subrange(pos + len, old(self)@.len() as int));
        }
    }

    /// Sets the length to `num_bits`: the bits below the new length keep their value,
    /// and a bit that was not there before is zero.
    pub fn resize(&mut self, num_bits: usize)
        requires
            old(self).wf(),
        ensures
            final(self).wf(),
            final(self)@ == window(old(self)@, 0, num_bits as nat),
    {
        let ghost words = self.bits@;
        let ghost n = self.num_bits as int;
        let num_words: usize = num_64bit_words_for(num_bits);
        self.num_bits = num_bits;
        self.bits.resize(num_words, 0);
        let ghost grown = self.bits@;
        proof {
            assert forall|i: int| 0 <= i < 64 * num_words implies #[trigger] stored_bit(grown, i) == (i < 64
                * words.len() && stored_bit(words, i)) by {
                if i / 64 < words.len() {
                    if num_words > words.len() {
                        assert(grown.subrange(0, words.len() as int)[i / 64] == grown[i / 64]);
                    }
                } else {
                    assert(grown[i / 64] == 0);
                    lemma_bit_ops(0, 0, (i % 64) as u64);
                }
            }
        }
        let tail: usize = num_bits % 64;
        if tail != 0 {
            let last: usize = num_words - 1;
            let w: u64 = self.bits[last];
            self.bits[last] = w & mask_of(tail);
            proof {
                assert forall|i: int| 0 <= i < 64 * num_words implies #[trigger] stored_bit(self.bits@, i)
                    == (i < num_bits && stored_bit(grown, i)) by {
                    if i / 64 == last as int {
                        lemma_bit_ops(w, low_mask(tail as nat), (i % 64) as u64);
                        lemma_low_mask(tail as nat, (i % 64) as u64);
                    }
                }
            }
        }
        proof {
            assert forall|i: int| 0 <= i < 64 * num_words implies #[trigger] stored_bit(self.bits@, i) == (i
                < num_bits && i < n && stored_bit(words, i)) by {
                if i < 64 * words.len() && i >= n {
                    assert(!stored_bit(words, i));
                }
            }
        }
        assert(self@ =~= window(old(self)@, 0, num_bits as nat));
    }

    /// Makes room for `num_bits` more bits. The bits themselves do not change.
    pub fn reserve(&mut self, num_bits: usize)
        requires
            old(self).wf(),
        ensures
            final(self).wf(),
            final(self)@ == old(self)@,
    {
        self.bits.reserve(num_64bit_words_for(num_bits));
    }

    /// Moves the bits into `bv` and leaves the builder empty.
    pub fn build(&mut self, bv: &mut BitVector)
        requires
            old(self).wf(),
        ensures
            final(bv).wf(),
            final(bv)@ == old(self)@,
            final(self).wf(),
            final(self)@ == Seq::<bool>::empty(),
    {
        bv.num_bits = self.num_bits;
        core::mem::swap(&mut self.bits, &mut bv.bits);
        self.num_bits = 0;
        self.bits.clear();
        assert(self@ =~= Seq::<bool>::empty());
    }
}

/// What `append_bits` writes, `get_bits` reads back: the `len` bits of `x` that were
/// appended behind `before` denote `x`, whatever is appended after them.
pub proof fn lemma_append_then_get(before: Seq<bool>, x: u64, len: nat, after: Seq<bool>)
    requires
        len <= 64,
        fits_in(x, len),
    ensures
        bits_value(
            (before + bits_of(x, len) + after).subrange(
                before.len() as int,
                (before.len() + len) as int,
            ),
        ) == x,
{
    let s = before + bits_of(x, len) + after;
    assert(s.subrange(before.len() as int, (before.len() + len) as int) =~= bits_of(x, len));
    lemma_value_of_bits(x, len);
}

/// The bits of the fields `values`, the field at index `i` written in `widths[i]` bits,
/// up to but without the field at index `n`.
pub open spec fn fields_bits(values: Seq<u64>, widths: Seq<nat>, n: nat) -> Seq<bool>
    decreases n,
{
    if n == 0 {
        Seq::empty()
    } else {
        fields_bits(values, widths, (n - 1) as nat) + bits_of(
            values[n - 1],
            widths[n - 1],
        )
    }
}

/// Fields of any widths that are appended one after the other read back one by one:
/// the field at index `i` stands behind the fields before it, and denotes its value,
/// wherever the word boundaries fall.
pub proof fn lemma_fields_read_back(values: Seq<u64>, widths: Seq<nat>, n: nat, i: nat)
    requires
        i < n <= values.len() == widths.len(),
        widths[i as int] <= 64,
        fits_in(values[i as int], widths[i as int]),
    ensures
        fields_bits(values, widths, i).len() + widths[i as int] <= fields_bits(
            values,
            widths,
            n,
        ).len(),
        bits_value(
            fields_bits(values, widths, n).subrange(
                fields_bits(values, widths, i).len() as int,
                (fields_bits(values, widths, i).len() + widths[i as int]) as int,
            ),
        ) == values[i as int],
    decreases n,
{
    let start = fields_bits(values, widths, i).len();
    let width = widths[i as int];
    let field = bits_of(values[i as int], width);
    if n == i + 1 {
        lemma_append_then_get(fields_bits(values, widths, i), values[i as int], width, Seq::empty());
        assert(fields_bits(values, widths, n) =~= fields_bits(values, widths, i) + field
            + Seq::empty());
    } else {
        lemma_fields_read_back(values, widths, (n - 1) as nat, i);
        let shorter = fields_bits(values, widths, (n - 1) as nat);
        let longer = fields_bits(values, widths, n);
        assert(longer.subrange(start as int, (start + width) as int) =~= shorter.subrange(
            start as int,
            (start + width) as int,
        ));
    }
}

/// What `set_bits` writes, `get_bits` reads back, and a patch touches nothing but its
/// own range: the length and every bit outside `[pos, pos + len)` stay as they were.
pub proof fn lemma_set_then_get(s: Seq<bool>, pos: nat, x: u64, len: nat)
    requires
        pos + len <= s.len(),
        len <= 64,
        fits_in(x, len),
    ensures
        ({
            let t = s.subrange(0, pos as int) + bits_of(x, len) + s.subrange(
                (pos + len) as int,
                s.len() as int,
            );
            &&& t.len() == s.len()
            &&& bits_value(t.subrange(pos as int, (pos + len) as int)) == x
            &&& forall|i: int| 0 <= i < pos || pos + len <= i < s.len() ==> t[i] == s[i]
        }),
{
    let t = s.subrange(0, pos as int) + bits_of(x, len) + s.subrange(
        (pos + len) as int,
        s.len() as int,
    );
    assert(t.subrange(pos as int, (pos + len) as int) =~= bits_of(x, len));
    lemma_value_of_bits(x, len);
}

/// Resizing to the same length a second time changes nothing, and a resize keeps
/// every bit below both the old and the new length.
pub proof fn lemma_resize_idempotent(s: Seq<bool>, n: nat)
    ensures
        window(s, 0, n).len() == n,
        window(window(s, 0, n), 0, n) == window(s, 0, n),
        forall|i: int| 0 <= i < n && i < s.len() ==> window(s, 0, n)[i] == s[i],
{
    assert(window(window(s, 0, n), 0, n) =~= window(s, 0, n));
}

} // verus!
